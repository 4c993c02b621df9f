//! Flashing firmware onto Sonix SN8F5 microcontrollers over a serial link.
//!
//! The bootloader of these chips speaks a service protocol that can do one
//! thing: execute a single CPU instruction on the target and hand back the
//! accumulator. Reading, erasing, writing and verifying the flash are built
//! from that. The library holds the protocol, the flash operations on top of
//! it, and the firmware images that they write.

pub mod chip;
pub mod error;
pub mod firmware;
pub mod flasher;
pub mod hex;
pub mod layout;
pub mod link;
pub mod meter;
pub mod protocol;
pub mod runs;
pub mod stages;
pub mod target;
pub mod transport;
