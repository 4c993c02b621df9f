//! The failures that flashing and firmware loading can end in.

use vstd::prelude::*;

verus! {

/// `std::io::Error`, as a transport hands it over. It is carried along and
/// nothing is claimed of what it holds.
#[verifier::external_type_specification]
#[verifier::external_body]
pub struct ExIoError(std::io::Error);

/// `std::str::Utf8Error`, as `std::str::from_utf8` gives it. It is carried
/// along and nothing is claimed of what it holds.
#[verifier::external_type_specification]
#[verifier::external_body]
pub struct ExUtf8Error(std::str::Utf8Error);

/// `ihex::ReaderError`, as `ihex::Reader` gives it for a line that does not
/// parse. It is carried along and nothing is claimed of what it holds.
#[verifier::external_type_specification]
#[verifier::external_body]
pub struct ExReaderError(ihex::ReaderError);

/// Everything that can go wrong between a firmware file and a flashed chip.
#[derive(Debug)]
pub enum Error {
    /// The transport could not move bytes.
    IOError(std::io::Error),
    /// The echo of written bytes could not be read back.
    WriteReadFailed(std::io::Error),
    /// The echo of written bytes differs from what was sent.
    WriteReadMismatch,
    /// The bootloader answered the handshake with these bytes instead of
    /// four `0xFF`.
    HandshakeResponseMismatch([u8; 4]),
    /// The status read after an erase or a page write was this value.
    WriteCheckError(u16),
    /// A write to a ROM bank other than the main one was refused.
    NonMainBankWrite,
    /// An erase of a ROM bank other than the main one was refused.
    NonMainBankErase,
    /// Reading the flash back gave other bytes at these offsets.
    VerifyMismatch(Vec<usize>),
    /// The Intel HEX input is not valid UTF-8.
    IHexDecodeError(std::str::Utf8Error),
    /// The Intel HEX record on the line with this number, counted from one,
    /// is malformed. Where records are decoded without their text, the
    /// number is that of the record among them.
    IHexParseError(ihex::ReaderError, usize),
}

} // verus!
