//! The service protocol of the bootloader, as sequences of transport events.
//!
//! The protocol has no command to read or write memory. The host loads one
//! three-byte CPU instruction into the target, has it executed, and fetches
//! the accumulator; everything else is built from that. Each function here
//! gives the events that one operation leaves on a transport when every
//! request succeeds.
//!
//! All but the smallest of these functions are opaque: a proof sees an
//! operation as one piece until it asks for what the operation is made of.

use vstd::prelude::*;
use crate::transport::{Call, Event, received, sent};

verus! {

/// A special function register of the target CPU.
#[derive(Clone, Copy, PartialEq, Eq, Debug)]
pub enum Sfr {
    /// Data pointer 0, low byte.
    Dpl,
    /// Data pointer 0, high byte.
    Dph,
    /// Extended cycle control.
    Ckon,
    /// Data pointer selection.
    Dps,
    /// Data pointer control.
    Dpc,
    /// In-system programming command.
    Pecmd,
    /// In-system programming ROM address, low byte.
    Peroml,
    /// In-system programming ROM address, high byte.
    Peromh,
    /// In-system programming RAM mapping address.
    Peram,
}

impl Sfr {
    /// The register's address in the target's directly addressable memory.
    pub open spec fn address(self) -> u8 {
        match self {
            Sfr::Dpl => 0x82,
            Sfr::Dph => 0x83,
            Sfr::Ckon => 0x8E,
            Sfr::Dps => 0x92,
            Sfr::Dpc => 0x93,
            Sfr::Pecmd => 0x94,
            Sfr::Peroml => 0x95,
            Sfr::Peromh => 0x96,
            Sfr::Peram => 0x97,
        }
    }

    /// The register's address in the target's directly addressable memory.
    pub fn addr(self) -> (r: u8)
        ensures
            r == self.address(),
    {
        match self {
            Sfr::Dpl => 0x82,
            Sfr::Dph => 0x83,
            Sfr::Ckon => 0x8E,
            Sfr::Dps => 0x92,
            Sfr::Dpc => 0x93,
            Sfr::Pecmd => 0x94,
            Sfr::Peroml => 0x95,
            Sfr::Peromh => 0x96,
            Sfr::Peram => 0x97,
        }
    }
}

/// The address in external memory that selects the ROM bank.
pub const ROM_BANK_SELECT: u16 = 0xFFFC;

/// The two addresses in external memory that hold the flash protection bytes.
pub const PROTECTION_LOW: u16 = 0xFFF8;

pub const PROTECTION_HIGH: u16 = 0xFFFB;

/// The status that the target reports after an erase or a page write that
/// went well.
pub const WRITE_FINISHED: u16 = 0x015D;

/// The low byte of `x`.
pub open spec fn low(x: u16) -> u8 {
    (x % 256) as u8
}

/// The high byte of `x`.
pub open spec fn high(x: u16) -> u8 {
    (x / 256) as u8
}

/// The sixteen-bit value whose low byte is `b0` and whose high byte is `b1`.
pub open spec fn word(b0: u8, b1: u8) -> u16 {
    (b0 + b1 * 256) as u16
}

/// The value whose four bytes, from the lowest up, are `b0` to `b3`.
pub open spec fn dword(b0: u8, b1: u8, b2: u8, b3: u8) -> u32 {
    (b0 + b1 * 256 + b2 * 65536 + b3 * 16777216) as u32
}

/// The bytes of all writes among `events`, one after the other.
pub open spec fn payload(events: Seq<Event>) -> Seq<u8>
    decreases events.len(),
{
    if events.len() == 0 {
        Seq::empty()
    } else {
        payload(events.drop_last()) + (match events.last().call {
            Call::Write(data) => data,
            _ => Seq::empty(),
        })
    }
}

/// One frame written to the target.
pub open spec fn frame(bytes: Seq<u8>) -> Seq<Event> {
    seq![sent(bytes)]
}

/// Sub-command `2A`: begin streaming bytes.
pub open spec fn unk_2a() -> Seq<Event> {
    frame(seq![0x55u8, 0x2Au8])
}

/// Sub-command `2B`: end streaming bytes.
pub open spec fn unk_2b() -> Seq<Event> {
    frame(seq![0x55u8, 0x2Bu8])
}

/// Sub-command `48` with its argument.
pub open spec fn unk_48(arg1: u8) -> Seq<Event> {
    frame(seq![0x55u8, 0x48u8, arg1])
}

/// Sub-command `4B` with its two arguments.
pub open spec fn unk_4b(arg1: u8, arg2: u8) -> Seq<Event> {
    frame(seq![0x55u8, 0x4Bu8, arg1, arg2])
}

/// Sub-command `58` with its three arguments.
pub open spec fn unk_58(arg1: u8, arg2: u8, arg3: u8) -> Seq<Event> {
    frame(seq![0x55u8, 0x58u8, arg1, arg2, arg3])
}

/// Fetching one byte, which came back as `value`.
pub open spec fn get_u8(value: u8) -> Seq<Event> {
    frame(seq![0x55u8, 0x88u8]) + seq![received(seq![value])]
}

/// Fetching two bytes, which came back as `value`, low byte first.
pub open spec fn get_u16(value: u16) -> Seq<Event> {
    frame(seq![0x55u8, 0x8Bu8]) + seq![received(seq![low(value), high(value)])]
}

/// The four bytes of `value`, lowest first.
pub open spec fn le_bytes(value: u32) -> Seq<u8> {
    seq![
        (value % 256) as u8,
        (value / 256 % 256) as u8,
        (value / 65536 % 256) as u8,
        (value / 16777216) as u8,
    ]
}

/// Fetching four bytes, which came back as `value`, lowest byte first.
pub open spec fn get_u32(value: u32) -> Seq<Event> {
    frame(seq![0x55u8, 0xA0u8]) + seq![received(le_bytes(value))]
}

/// Having the target execute the instruction `opcode arg1 arg2`.
#[verifier::opaque]
pub open spec fn exec_op(opcode: u8, arg1: u8, arg2: u8) -> Seq<Event> {
    unk_48(0x86) + unk_58(arg2, arg1, opcode) + unk_48(0x80) + unk_4b(0x57, 0x01)
}

/// Writing `data` to the directly addressable byte at `address`:
/// `MOV address, #data`.
#[verifier::opaque]
pub open spec fn write_ram(address: u8, data: u8) -> Seq<Event> {
    exec_op(0x75, address, data)
}

/// Reading the directly addressable byte at `address`, which came back as
/// `value`: `MOV A, address`, then the accumulator is fetched.
#[verifier::opaque]
pub open spec fn read_ram(address: u8, value: u8) -> Seq<Event> {
    exec_op(0xE5, address, 0x00) + unk_48(0x83) + get_u8(value)
}

/// Writing `data` to a special function register.
#[verifier::opaque]
pub open spec fn write_sfr(sfr: Sfr, data: u8) -> Seq<Event> {
    write_ram(sfr.address(), data)
}

/// Reading a special function register, which came back as `value`.
#[verifier::opaque]
pub open spec fn read_sfr(sfr: Sfr, value: u8) -> Seq<Event> {
    read_ram(sfr.address(), value)
}

/// Pointing the data pointer at `address`: `MOV DPTR, #address`.
#[verifier::opaque]
pub open spec fn load_dptr(address: u16) -> Seq<Event> {
    exec_op(0x90, high(address), low(address))
}

/// Writing `data` to external memory at `address`: the data pointer is
/// loaded, then the accumulator, then `MOVX @DPTR, A`.
#[verifier::opaque]
pub open spec fn write_xram(address: u16, data: u8) -> Seq<Event> {
    load_dptr(address) + exec_op(0x74, data, 0x00) + exec_op(0xF0, 0x00, 0x00)
}

/// Reading external memory at `address`, which came back as `value`.
#[verifier::opaque]
pub open spec fn read_xram(address: u16, value: u8) -> Seq<Event> {
    load_dptr(address) + unk_48(0x88) + unk_48(0x05) + unk_48(0x88) + unk_48(0x00) + unk_48(0x83)
        + get_u8(value)
}

/// Reading the selected ROM bank, which came back as `bank`.
#[verifier::opaque]
pub open spec fn get_rom_bank(bank: u8) -> Seq<Event> {
    read_xram(ROM_BANK_SELECT, bank)
}

/// Selecting ROM bank `bank`.
#[verifier::opaque]
pub open spec fn set_rom_bank(bank: u8) -> Seq<Event> {
    write_xram(ROM_BANK_SELECT, bank)
}

/// Switching to ROM bank `bank`: the bank selected so far is read, and came
/// back as `was`; then `bank` is selected.
#[verifier::opaque]
pub open spec fn switch_bank(was: u8, bank: u8) -> Seq<Event> {
    get_rom_bank(was) + set_rom_bank(bank)
}

/// The challenge that the bootloader answers with four `0xFF` bytes.
pub open spec fn handshake_magic() -> Seq<u8> {
    seq![
        0x55u8, 0x08u8, 0x29u8, 0x23u8, 0xBEu8, 0x84u8, 0xE1u8, 0x6Cu8, 0xD6u8, 0xAEu8, 0x52u8,
        0x90u8, 0x49u8, 0xF1u8, 0xF1u8, 0xBBu8, 0xE9u8, 0xEBu8, 0xB3u8, 0xA6u8, 0xDBu8, 0x3Cu8,
        0x87u8, 0x0Cu8, 0x3Eu8, 0x99u8, 0x24u8, 0x5Eu8, 0x0Du8, 0x1Cu8, 0x06u8, 0xB7u8, 0x47u8,
        0xDEu8, 0xB3u8, 0x12u8, 0x4Du8, 0xC8u8, 0x43u8, 0xBBu8, 0x8Bu8, 0xA6u8, 0x1Fu8, 0x03u8,
        0x5Au8, 0x7Du8, 0x09u8, 0x38u8, 0x25u8, 0x1Fu8, 0x5Du8, 0xD4u8, 0xCBu8, 0xFCu8, 0x96u8,
        0xF5u8, 0x45u8, 0x3Bu8, 0x13u8, 0x0Du8, 0x89u8, 0x0Au8, 0x1Cu8, 0xDBu8, 0xAEu8, 0x32u8,
        0x20u8, 0x9Au8, 0x50u8, 0xEEu8, 0x40u8, 0x78u8, 0x36u8, 0xFDu8, 0x12u8, 0x49u8, 0x32u8,
        0xF6u8, 0x9Eu8, 0x7Du8, 0x49u8, 0xDCu8, 0xADu8, 0x4Fu8, 0x14u8, 0xF2u8, 0x44u8, 0x40u8,
        0x66u8, 0xD0u8, 0x6Bu8, 0xC4u8, 0x30u8, 0xB7u8, 0x32u8, 0x3Bu8, 0xA1u8, 0x22u8, 0xF6u8,
        0x22u8, 0x91u8, 0x9Du8, 0xE1u8, 0x8Bu8, 0x1Fu8, 0xDAu8, 0xB0u8, 0xCAu8, 0x99u8, 0x02u8,
        0xB9u8, 0x72u8, 0x9Du8, 0x49u8, 0x2Cu8, 0x80u8, 0x7Eu8, 0x6Bu8, 0x8Fu8, 0xD3u8, 0x92u8,
    ]
}

/// The answer that a bootloader ready for service gives to the challenge.
pub open spec fn handshake_accepted() -> Seq<u8> {
    seq![0xFFu8, 0xFFu8, 0xFFu8, 0xFFu8]
}

/// The handshake: the challenge is written and four bytes, `reply`, come
/// back.
#[verifier::opaque]
pub open spec fn handshake(reply: Seq<u8>) -> Seq<Event> {
    frame(handshake_magic()) + seq![received(reply)]
}

/// Identifying the chip, which reported `id`: the identifier is fetched, and
/// the bulk mode that this leaves the target in is closed.
#[verifier::opaque]
pub open spec fn chip_id(id: u32) -> Seq<Event> {
    frame(seq![0x55u8, 0x21u8]) + get_u32(id) + unk_2b()
}

/// The first half of entering programming mode: ROM bank zero, the three
/// programming registers cleared, and the mode armed.
#[verifier::opaque]
pub open spec fn pre1() -> Seq<Event> {
    set_rom_bank(0) + write_sfr(Sfr::Peram, 0x00) + write_sfr(Sfr::Peromh, 0x00) + write_sfr(
        Sfr::Peroml,
        0x00,
    ) + unk_48(0x80) + unk_4b(0x75, 0x01)
}

/// The second half of entering programming mode: both protection bytes are
/// set to the value that disables protection.
#[verifier::opaque]
pub open spec fn pre2() -> Seq<Event> {
    unk_48(0x80) + unk_4b(0x55, 0x01) + write_xram(PROTECTION_LOW, 0xC3) + write_xram(
        PROTECTION_HIGH,
        0xC3,
    )
}

/// The first half of leaving programming mode.
#[verifier::opaque]
pub open spec fn post1() -> Seq<Event> {
    unk_48(0x80) + unk_4b(0x75, 0x01)
}

/// The second half of leaving programming mode.
#[verifier::opaque]
pub open spec fn post2() -> Seq<Event> {
    unk_48(0x80) + unk_4b(0x55, 0x01) + write_xram(PROTECTION_LOW, 0xC3) + write_xram(
        PROTECTION_HIGH,
        0xC3,
    )
}

/// Asking how the last erase or page write ended; the status came back as
/// `status`.
#[verifier::opaque]
pub open spec fn write_status(status: u16) -> Seq<Event> {
    unk_48(0x81) + get_u16(status)
}

/// Triggering the erase of the whole selected bank.
#[verifier::opaque]
pub open spec fn erase() -> Seq<Event> {
    write_sfr(Sfr::Peroml, 0x0A) + write_sfr(Sfr::Pecmd, 0x96)
}

/// Writing the protection bytes back to their guarding values.
#[verifier::opaque]
pub open spec fn reload_protection() -> Seq<Event> {
    write_xram(PROTECTION_LOW, 0x5A) + write_xram(PROTECTION_HIGH, 0xA5)
}

/// The registers that a bulk read changes, as they were before it.
#[derive(Clone, Copy, PartialEq, Eq, Debug)]
pub struct SavedRegisters {
    pub ckon: u8,
    pub dps: u8,
    pub dpc: u8,
    pub dpl: u8,
    pub dph: u8,
}

/// Fetching the bytes `data` one at a time.
pub open spec fn stream(data: Seq<u8>) -> Seq<Event>
    decreases data.len(),
{
    if data.len() == 0 {
        Seq::empty()
    } else {
        stream(data.drop_last()) + get_u8(data.last())
    }
}

/// The number of bytes that a stream of `count` bytes has fetched when
/// `made` of its requests have succeeded: one for every two requests, a
/// write and a read.
pub open spec fn fetched(made: int, count: nat) -> nat {
    if made <= 0 {
        0
    } else if made / 2 >= count {
        count
    } else {
        (made / 2) as nat
    }
}

/// Saving the five registers that a bulk read changes, which were found to
/// hold `saved`, and switching cycle control to bulk reading.
#[verifier::opaque]
pub open spec fn save_registers(saved: SavedRegisters) -> Seq<Event> {
    read_sfr(Sfr::Ckon, saved.ckon) + write_sfr(Sfr::Ckon, 0x71) + read_sfr(Sfr::Dps, saved.dps)
        + read_sfr(Sfr::Dpc, saved.dpc) + read_sfr(Sfr::Dpl, saved.dpl) + read_sfr(
        Sfr::Dph,
        saved.dph,
    )
}

/// Starting a stream of bytes from `offset` on: the data pointer is set up
/// and pointed there, and streaming is switched on.
#[verifier::opaque]
pub open spec fn open_stream(offset: u16) -> Seq<Event> {
    write_sfr(Sfr::Dps, 0x00) + write_sfr(Sfr::Dpc, 0x00) + load_dptr(offset) + unk_48(0x88)
        + unk_48(0x04) + unk_2a()
}

/// Stopping the stream of bytes.
#[verifier::opaque]
pub open spec fn close_stream() -> Seq<Event> {
    unk_2b() + unk_48(0x88) + unk_48(0x00)
}

/// Giving the five registers the values `saved` back.
#[verifier::opaque]
pub open spec fn restore_registers(saved: SavedRegisters) -> Seq<Event> {
    write_sfr(Sfr::Ckon, saved.ckon) + write_sfr(Sfr::Dps, saved.dps) + write_sfr(
        Sfr::Dpc,
        saved.dpc,
    ) + write_sfr(Sfr::Dpl, saved.dpl) + write_sfr(Sfr::Dph, saved.dph)
}

/// A bulk read of the bytes from `offset` on, which came back as `data`:
/// five registers are saved, the stream is started, the bytes are fetched one
/// at a time, the stream is stopped, and the registers are restored.
#[verifier::opaque]
pub open spec fn read_block(offset: u16, saved: SavedRegisters, data: Seq<u8>) -> Seq<Event> {
    save_registers(saved) + open_stream(offset) + stream(data) + close_stream()
        + restore_registers(saved)
}

/// The number of bytes that a bulk read of `count` bytes has fetched when
/// `made` of its requests have succeeded: none while the registers are saved
/// and the stream is started, and all once the stream has been stopped.
pub open spec fn fetched_in_block(
    offset: u16,
    saved: SavedRegisters,
    count: nat,
    made: int,
) -> nat {
    fetched(made - (save_registers(saved) + open_stream(offset)).len(), count)
}

/// Placing `data` in the target's memory from address zero on, one byte per
/// instruction. Addresses wrap at 256.
pub open spec fn fill_ram(data: Seq<u8>) -> Seq<Event>
    decreases data.len(),
{
    if data.len() == 0 {
        Seq::empty()
    } else {
        fill_ram(data.drop_last()) + write_ram(((data.len() - 1) % 256) as u8, data.last())
    }
}

/// The low programming address byte for `page`: the page's place within its
/// group of eight in the upper three bits, and the write command below them.
pub open spec fn page_low(page: nat) -> u8 {
    (((page % 8) as u8) << 5) | 0x0A
}

/// The high programming address byte for `page`: the number of its group of
/// eight, as far as it fits a byte.
pub open spec fn page_high(page: nat) -> u8 {
    ((page / 8) % 256) as u8
}

/// The commands that write one page: its bytes are placed in memory, then the
/// mapping register, the page's index and the write command are set.
#[verifier::opaque]
pub open spec fn page_commands(page: nat, data: Seq<u8>) -> Seq<Event> {
    fill_ram(data) + write_sfr(Sfr::Peram, 0x00) + write_sfr(Sfr::Peromh, page_high(page))
        + write_sfr(Sfr::Peroml, page_low(page)) + write_sfr(Sfr::Pecmd, 0x5A)
}

/// Writing one page: all its commands go out as a single write.
#[verifier::opaque]
pub open spec fn write_page(page: nat, data: Seq<u8>) -> Seq<Event> {
    frame(payload(page_commands(page, data)))
}

/// The bytes of `events`' writes, for two sequences one after the other.
pub proof fn lemma_payload_concat(first: Seq<Event>, second: Seq<Event>)
    ensures
        payload(first + second) == payload(first) + payload(second),
    decreases second.len(),
{
    if second.len() == 0 {
        assert(first + second =~= first);
    } else {
        assert((first + second).drop_last() =~= first + second.drop_last());
        assert((first + second).last() == second.last());
        lemma_payload_concat(first, second.drop_last());
    }
}

/// A word has the bytes that it was made of.
pub proof fn lemma_word(b0: u8, b1: u8)
    ensures
        low(word(b0, b1)) == b0,
        high(word(b0, b1)) == b1,
{
}

/// A double word has the bytes that it was made of.
pub proof fn lemma_dword(b0: u8, b1: u8, b2: u8, b3: u8)
    ensures
        le_bytes(dword(b0, b1, b2, b3)) == seq![b0, b1, b2, b3],
{
    let lower = b0 + b1 * 256;
    let upper = b2 + b3 * 256;
    let r = dword(b0, b1, b2, b3);
    assert(r == lower + upper * 65536);
    assert(r / 65536 == upper && r % 65536 == lower);
    assert(r / 256 == b1 + upper * 256);
    assert(r / 16777216 == upper / 256);
    assert(le_bytes(r) =~= seq![b0, b1, b2, b3]);
}

/// Fetching a byte takes two requests.
pub proof fn lemma_stream_len(data: Seq<u8>)
    ensures
        stream(data).len() == 2 * data.len(),
    decreases data.len(),
{
    if data.len() > 0 {
        lemma_stream_len(data.drop_last());
    }
}

/// A bulk read that has made all its requests has fetched all its bytes.
pub proof fn lemma_block_fetched(offset: u16, saved: SavedRegisters, data: Seq<u8>, made: int)
    requires
        made >= read_block(offset, saved, data).len(),
    ensures
        fetched_in_block(offset, saved, data.len(), made) == data.len(),
{
    reveal(read_block);
    lemma_stream_len(data);
}

/// Fetching bytes one at a time, for two runs of bytes one after the other.
pub proof fn lemma_stream_concat(first: Seq<u8>, second: Seq<u8>)
    ensures
        stream(first + second) == stream(first) + stream(second),
    decreases second.len(),
{
    if second.len() == 0 {
        assert(first + second =~= first);
        assert(stream(first) + stream(second) =~= stream(first));
    } else {
        assert((first + second).drop_last() =~= first + second.drop_last());
        assert((first + second).last() == second.last());
        lemma_stream_concat(first, second.drop_last());
        assert(stream(first) + stream(second.drop_last()) + get_u8(second.last()) =~= stream(first)
            + (stream(second.drop_last()) + get_u8(second.last())));
    }
}

/// The bytes of a single frame are the frame's bytes.
pub proof fn lemma_payload_frame(bytes: Seq<u8>)
    ensures
        payload(frame(bytes)) == bytes,
{
    assert(frame(bytes).drop_last() =~= Seq::<Event>::empty());
    reveal_with_fuel(payload, 2);
}

} // verus!
