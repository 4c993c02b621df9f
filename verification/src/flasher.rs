//! The flasher: the protocol's commands over a transport, and the flash
//! operations built from them.

use vstd::prelude::*;
use vstd::slice::slice_subrange;
use crate::error::Error;
use crate::firmware::{Firmware, Section, spans};
use crate::layout::{Span, total_len};
use crate::link::{
    Link, Settings, cut_short, failed, lemma_failed_answer, lemma_ran_nothing, lemma_step, made,
    ran, refused, unfinished,
};
use crate::meter::{Meter, lemma_ones_concat, lemma_ones_push, ones};
use crate::protocol::{
    SavedRegisters, Sfr, PROTECTION_HIGH, PROTECTION_LOW, ROM_BANK_SELECT, WRITE_FINISHED, chip_id,
    close_stream, dword, erase, exec_op, fetched, fetched_in_block, fill_ram, frame, get_rom_bank,
    get_u16, get_u32, get_u8, handshake, handshake_accepted, handshake_magic, high, le_bytes,
    lemma_block_fetched, lemma_dword, lemma_payload_frame, lemma_stream_concat, lemma_stream_len,
    lemma_word, load_dptr, low, open_stream, page_commands, payload, post1, post2, pre1, pre2,
    read_block, read_ram, read_sfr, read_xram, reload_protection, restore_registers, save_registers,
    set_rom_bank, stream, switch_bank, unk_2a, unk_2b, unk_48, unk_4b, unk_58, word, write_page,
    write_ram, write_sfr, write_status, write_xram,
};
use crate::stages::{
    ConnectStage, EraseStage, ReadBack, ReadStage, ResetStage, Step, VerifyStage, Wait, WriteStage,
    PAGE_SETTLE_MS, SETTLE_MS, block_failed, compared_metered, connect_step, differing, erase_step,
    fetched_back, lemma_fetched_back_all, lemma_fetched_back_none, lemma_read_range_split,
    lemma_reads_prefix, mismatches, next_page, onward, onward_step, outcome, pause,
    read_all_metered, read_back, read_one_metered, read_reports, read_step, reading, reads_match,
    reset_step, transferred_metered, verify_reports, verify_step, write_reports, write_step,
};
use crate::transport::{Channel, Event, Transport, drove, received};

verus! {

/// One of the two flash banks of the target.
#[derive(Clone, Copy, PartialEq, Eq, Debug, Structural)]
pub enum RomBank {
    /// The application's flash.
    Main,
    /// A parameter area that the bootloader depends on.
    Boot,
}

impl RomBank {
    /// The value that selects the bank.
    pub open spec fn number(self) -> u8 {
        match self {
            RomBank::Main => 0,
            RomBank::Boot => 1,
        }
    }

    /// The value that selects the bank.
    pub fn index(self) -> (r: u8)
        ensures
            r == self.number(),
    {
        match self {
            RomBank::Main => 0,
            RomBank::Boot => 1,
        }
    }
}

/// The sixteen-bit value whose low byte is `b0` and whose high byte is `b1`.
fn u16_from_le(b0: u8, b1: u8) -> (r: u16)
    ensures
        r == word(b0, b1),
{
    b0 as u16 + (b1 as u16) * 256
}

/// The value whose four bytes, from the lowest up, are `b0` to `b3`.
fn u32_from_le(b0: u8, b1: u8, b2: u8, b3: u8) -> (r: u32)
    ensures
        r == dword(b0, b1, b2, b3),
{
    b0 as u32 + (b1 as u32) * 256 + (b2 as u32) * 65536 + (b3 as u32) * 16777216
}

/// Drives the protocol over a transport.
///
/// The flasher never waits. Where the target needs time, an operation ends
/// its stage and says how long to hold still; see the stages.
///
/// Between two operations a flasher is idle: no write batch is open. `new`
/// gives an idle flasher, and every operation states that it leaves the
/// flasher idle however it ends, so what the operations require of it
/// always holds; `is_idle` tests it.
pub struct Flasher<T: Transport> {
    transport: Channel<T>,
    connected: bool,
    batch_counter: u64,
    batch_data: Vec<u8>,
    final_reset: bool,
    reset_duration_ms: u64,
    connect_duration_us: u64,
    rom_bank: RomBank,
    dangerous_allow_write_non_main_bank: bool,
}

impl<T: Transport> View for Flasher<T> {
    type V = Link;

    closed spec fn view(&self) -> Link {
        Link {
            wire: self.transport.log(),
            batch_depth: self.batch_counter as nat,
            pending: self.batch_data@,
            connected: self.connected,
            settings: Settings {
                final_reset: self.final_reset,
                reset_duration_ms: self.reset_duration_ms,
                connect_duration_us: self.connect_duration_us,
                rom_bank: self.rom_bank,
                dangerous_allow_write_non_main_bank: self.dangerous_allow_write_non_main_bank,
            },
        }
    }
}

impl<T: Transport> Flasher<T> {
    /// A flasher on `transport`: not connected, for the main bank, with a
    /// reset of 10 ms, 1666 µs until the handshake, and a final reset.
    pub fn new(transport: T) -> (flasher: Self)
        ensures
            flasher@ == (Link {
                wire: Seq::empty(),
                batch_depth: 0,
                pending: Seq::empty(),
                connected: false,
                settings: Settings {
                    final_reset: true,
                    reset_duration_ms: 10,
                    connect_duration_us: 1666,
                    rom_bank: RomBank::Main,
                    dangerous_allow_write_non_main_bank: false,
                },
            }),
    {
        Flasher {
            transport: Channel::new(transport),
            connected: false,
            batch_counter: 0,
            batch_data: Vec::new(),
            final_reset: true,
            rom_bank: RomBank::Main,
            reset_duration_ms: 10,
            connect_duration_us: 1666,
            dangerous_allow_write_non_main_bank: false,
        }
    }

    /// Opens a write batch: from now on writes are held back.
    fn write_batch_begin(&mut self)
        requires
            old(self)@.batch_depth < u64::MAX,
        ensures
            final(self)@ == (Link { batch_depth: old(self)@.batch_depth + 1, ..old(self)@ }),
    {
        self.batch_counter += 1;
    }

    /// Closes a write batch. Closing the outermost one sends everything held
    /// back as a single write.
    fn write_batch_commit(&mut self) -> (r: Result<(), Error>)
        requires
            old(self)@.batch_depth > 0,
        ensures
            old(self)@.batch_depth > 1 ==> r is Ok && final(self)@ == (Link {
                batch_depth: (old(self)@.batch_depth - 1) as nat,
                ..old(self)@
            }),
            old(self)@.batch_depth == 1 ==> {
                let closed = Link { batch_depth: 0, pending: Seq::empty(), ..old(self)@ };
                match r {
                    Ok(()) => ran(closed, final(self)@, frame(old(self)@.pending)),
                    Err(e) => failed(closed, final(self)@, frame(old(self)@.pending), e),
                }
            },
    {
        self.batch_counter -= 1;
        if self.batch_counter == 0 {
            let mut batch_data: Vec<u8> = Vec::new();
            core::mem::swap(&mut batch_data, &mut self.batch_data);
            self.write(batch_data.as_slice())?;
        }
        Ok(())
    }

    /// Writes `data` to the transport, or holds it back while a batch is
    /// open.
    fn write(&mut self, data: &[u8]) -> (r: Result<(), Error>)
        ensures
            match r {
                Ok(()) => ran(old(self)@, final(self)@, frame(data@)),
                Err(e) => failed(old(self)@, final(self)@, frame(data@), e),
            },
    {
        if self.batch_counter > 0 {
            self.batch_data.extend_from_slice(data);
            proof {
                lemma_payload_frame(data@);
            }
        } else {
            self.transport.write(data)?;
        }
        Ok(())
    }

    /// Reads exactly `data.len()` bytes from the transport.
    fn read(&mut self, data: &mut [u8]) -> (r: Result<(), Error>)
        requires
            old(self)@.batch_depth == 0,
        ensures
            final(data)@.len() == old(data)@.len(),
            match r {
                Ok(()) => ran(old(self)@, final(self)@, seq![received(final(data)@)]),
                Err(e) => failed(old(self)@, final(self)@, seq![received(old(data)@)], e),
            },
    {
        self.transport.read(data)?;
        Ok(())
    }

    /// Sub-command `2A`: begin streaming bytes.
    fn cmd_unk_2a(&mut self) -> (r: Result<(), Error>)
        ensures
            match r {
                Ok(()) => ran(old(self)@, final(self)@, unk_2a()),
                Err(e) => failed(old(self)@, final(self)@, unk_2a(), e),
            },
    {
        let bytes: [u8; 2] = [0x55, 0x2A];
        assert(bytes@ =~= seq![0x55u8, 0x2Au8]);
        self.write(&bytes)?;
        Ok(())
    }

    /// Sub-command `2B`: end streaming bytes.
    fn cmd_unk_2b(&mut self) -> (r: Result<(), Error>)
        ensures
            match r {
                Ok(()) => ran(old(self)@, final(self)@, unk_2b()),
                Err(e) => failed(old(self)@, final(self)@, unk_2b(), e),
            },
    {
        let bytes: [u8; 2] = [0x55, 0x2B];
        assert(bytes@ =~= seq![0x55u8, 0x2Bu8]);
        self.write(&bytes)?;
        Ok(())
    }

    /// Sub-command `48`.
    fn cmd_unk_48(&mut self, arg1: u8) -> (r: Result<(), Error>)
        ensures
            match r {
                Ok(()) => ran(old(self)@, final(self)@, unk_48(arg1)),
                Err(e) => failed(old(self)@, final(self)@, unk_48(arg1), e),
            },
    {
        let bytes: [u8; 3] = [0x55, 0x48, arg1];
        assert(bytes@ =~= seq![0x55u8, 0x48u8, arg1]);
        self.write(&bytes)?;
        Ok(())
    }

    /// Sub-command `4B`.
    fn cmd_unk_4b(&mut self, arg1: u8, arg2: u8) -> (r: Result<(), Error>)
        ensures
            match r {
                Ok(()) => ran(old(self)@, final(self)@, unk_4b(arg1, arg2)),
                Err(e) => failed(old(self)@, final(self)@, unk_4b(arg1, arg2), e),
            },
    {
        let bytes: [u8; 4] = [0x55, 0x4B, arg1, arg2];
        assert(bytes@ =~= seq![0x55u8, 0x4Bu8, arg1, arg2]);
        self.write(&bytes)?;
        Ok(())
    }

    /// Sub-command `58`.
    fn cmd_unk_58(&mut self, arg1: u8, arg2: u8, arg3: u8) -> (r: Result<(), Error>)
        ensures
            match r {
                Ok(()) => ran(old(self)@, final(self)@, unk_58(arg1, arg2, arg3)),
                Err(e) => failed(old(self)@, final(self)@, unk_58(arg1, arg2, arg3), e),
            },
    {
        let bytes: [u8; 5] = [0x55, 0x58, arg1, arg2, arg3];
        assert(bytes@ =~= seq![0x55u8, 0x58u8, arg1, arg2, arg3]);
        self.write(&bytes)?;
        Ok(())
    }

    /// Has the target execute one instruction of three bytes: the bytes are
    /// loaded, then execution is triggered. The target does not answer.
    fn cmd_exec_op(&mut self, opcode: u8, arg1: u8, arg2: u8) -> (r: Result<(), Error>)
        ensures
            match r {
                Ok(()) => ran(old(self)@, final(self)@, exec_op(opcode, arg1, arg2)),
                Err(e) => failed(old(self)@, final(self)@, exec_op(opcode, arg1, arg2), e),
            },
    {
        let ghost s0 = self@;
        let ghost mut at = s0;
        let ghost mut done: Seq<Event> = Seq::empty();
        let ghost all = exec_op(opcode, arg1, arg2);
        proof {
            reveal(exec_op);
            lemma_ran_nothing(s0);
        }
        let r = self.cmd_unk_48(0x86);
        proof {
            lemma_step(s0, at, self@, done, unk_48(0x86), all, r);
            done = done + unk_48(0x86);
            at = self@;
        }
        r?;
        let r = self.cmd_unk_58(arg2, arg1, opcode);
        proof {
            lemma_step(s0, at, self@, done, unk_58(arg2, arg1, opcode), all, r);
            done = done + unk_58(arg2, arg1, opcode);
            at = self@;
        }
        r?;
        let r = self.cmd_unk_48(0x80);
        proof {
            lemma_step(s0, at, self@, done, unk_48(0x80), all, r);
            done = done + unk_48(0x80);
            at = self@;
        }
        r?;
        let r = self.cmd_unk_4b(0x57, 0x01);
        proof {
            lemma_step(s0, at, self@, done, unk_4b(0x57, 0x01), all, r);
            done = done + unk_4b(0x57, 0x01);
            at = self@;
        }
        r?;
        proof {
            assert(done =~= exec_op(opcode, arg1, arg2));
        }
        Ok(())
    }

    /// Fetches one byte from the target.
    fn cmd_get_u8(&mut self) -> (r: Result<u8, Error>)
        requires
            old(self)@.batch_depth == 0,
        ensures
            match r {
                Ok(value) => ran(old(self)@, final(self)@, get_u8(value)),
                Err(e) => exists|value: u8| failed(old(self)@, final(self)@, get_u8(value), e),
            },
    {
        let ghost s0 = self@;
        let bytes: [u8; 2] = [0x55, 0x88];
        let mut res: [u8; 1] = [0];
        proof {
            assert(bytes@ =~= seq![0x55u8, 0x88u8]);
            assert(res@ =~= seq![0u8]);
            lemma_ran_nothing(s0);
        }
        let r = self.write(&bytes);
        proof {
            lemma_step(s0, s0, self@, Seq::empty(), frame(bytes@), get_u8(0), r);
        }
        r?;
        let ghost s1 = self@;
        let r = self.read(&mut res);
        proof {
            assert(res@ =~= seq![res[0]]);
            let value = if r is Ok { res[0] } else { 0u8 };
            lemma_step(
                s0,
                s1,
                self@,
                Seq::empty() + frame(bytes@),
                seq![received(seq![value])],
                get_u8(value),
                r,
            );
        }
        r?;
        Ok(res[0])
    }

    /// Fetches two bytes from the target, the low byte first.
    fn cmd_get_u16(&mut self) -> (r: Result<u16, Error>)
        requires
            old(self)@.batch_depth == 0,
        ensures
            match r {
                Ok(value) => ran(old(self)@, final(self)@, get_u16(value)),
                Err(e) => exists|value: u16| failed(old(self)@, final(self)@, get_u16(value), e),
            },
    {
        let ghost s0 = self@;
        let bytes: [u8; 2] = [0x55, 0x8B];
        let mut res: [u8; 2] = [0, 0];
        proof {
            assert(bytes@ =~= seq![0x55u8, 0x8Bu8]);
            assert(res@ =~= seq![low(0), high(0)]);
            lemma_ran_nothing(s0);
        }
        let r = self.write(&bytes);
        proof {
            lemma_step(s0, s0, self@, Seq::empty(), frame(bytes@), get_u16(0), r);
        }
        r?;
        let ghost s1 = self@;
        let r = self.read(&mut res);
        proof {
            lemma_word(res[0], res[1]);
            assert(res@ =~= seq![res[0], res[1]]);
            let answer = if r is Ok { word(res[0], res[1]) } else { 0u16 };
            lemma_step(
                s0,
                s1,
                self@,
                Seq::empty() + frame(bytes@),
                seq![received(seq![low(answer), high(answer)])],
                get_u16(answer),
                r,
            );
        }
        r?;
        Ok(u16_from_le(res[0], res[1]))
    }

    /// Fetches four bytes from the target, the lowest byte first.
    fn cmd_get_u32(&mut self) -> (r: Result<u32, Error>)
        requires
            old(self)@.batch_depth == 0,
        ensures
            match r {
                Ok(value) => ran(old(self)@, final(self)@, get_u32(value)),
                Err(e) => exists|value: u32| failed(old(self)@, final(self)@, get_u32(value), e),
            },
    {
        let ghost s0 = self@;
        let bytes: [u8; 2] = [0x55, 0xA0];
        let mut res: [u8; 4] = [0, 0, 0, 0];
        proof {
            assert(bytes@ =~= seq![0x55u8, 0xA0u8]);
            assert(res@ =~= le_bytes(0));
            lemma_ran_nothing(s0);
        }
        let r = self.write(&bytes);
        proof {
            lemma_step(s0, s0, self@, Seq::empty(), frame(bytes@), get_u32(0), r);
        }
        r?;
        let ghost s1 = self@;
        let r = self.read(&mut res);
        proof {
            lemma_dword(res[0], res[1], res[2], res[3]);
            assert(res@ =~= seq![res[0], res[1], res[2], res[3]]);
            let answer = if r is Ok { dword(res[0], res[1], res[2], res[3]) } else { 0u32 };
            lemma_step(
                s0,
                s1,
                self@,
                Seq::empty() + frame(bytes@),
                seq![received(le_bytes(answer))],
                get_u32(answer),
                r,
            );
        }
        r?;
        Ok(u32_from_le(res[0], res[1], res[2], res[3]))
    }

    /// The handshake: writes the challenge and reads the four bytes of the
    /// answer. Any answer but four `0xFF` is an error that carries it.
    fn cmd_connect(&mut self) -> (r: Result<(), Error>)
        requires
            old(self)@.batch_depth == 0,
        ensures
            match r {
                Ok(()) => ran(old(self)@, final(self)@, handshake(handshake_accepted())),
                Err(e) => refused(old(self)@, final(self)@, e) || failed(
                    old(self)@,
                    final(self)@,
                    handshake(handshake_accepted()),
                    e,
                ),
            },
    {
        let ghost s0 = self@;
        let magic: [u8; 121] = [
            0x55, 0x08, 0x29, 0x23, 0xBE, 0x84, 0xE1, 0x6C, 0xD6, 0xAE, 0x52, 0x90, 0x49, 0xF1,
            0xF1, 0xBB, 0xE9, 0xEB, 0xB3, 0xA6, 0xDB, 0x3C, 0x87, 0x0C, 0x3E, 0x99, 0x24, 0x5E,
            0x0D, 0x1C, 0x06, 0xB7, 0x47, 0xDE, 0xB3, 0x12, 0x4D, 0xC8, 0x43, 0xBB, 0x8B, 0xA6,
            0x1F, 0x03, 0x5A, 0x7D, 0x09, 0x38, 0x25, 0x1F, 0x5D, 0xD4, 0xCB, 0xFC, 0x96, 0xF5,
            0x45, 0x3B, 0x13, 0x0D, 0x89, 0x0A, 0x1C, 0xDB, 0xAE, 0x32, 0x20, 0x9A, 0x50, 0xEE,
            0x40, 0x78, 0x36, 0xFD, 0x12, 0x49, 0x32, 0xF6, 0x9E, 0x7D, 0x49, 0xDC, 0xAD, 0x4F,
            0x14, 0xF2, 0x44, 0x40, 0x66, 0xD0, 0x6B, 0xC4, 0x30, 0xB7, 0x32, 0x3B, 0xA1, 0x22,
            0xF6, 0x22, 0x91, 0x9D, 0xE1, 0x8B, 0x1F, 0xDA, 0xB0, 0xCA, 0x99, 0x02, 0xB9, 0x72,
            0x9D, 0x49, 0x2C, 0x80, 0x7E, 0x6B, 0x8F, 0xD3, 0x92,
        ];
        let mut res: [u8; 4] = [0, 0, 0, 0];
        proof {
            reveal(handshake);
            assert(magic@ =~= handshake_magic());
            lemma_ran_nothing(s0);
        }
        let r = self.write(&magic);
        proof {
            lemma_step(
                s0,
                s0,
                self@,
                Seq::empty(),
                frame(magic@),
                handshake(handshake_accepted()),
                r,
            );
        }
        r?;
        let ghost s1 = self@;
        let ghost blank = res@;
        let r = self.read(&mut res);
        proof {
            if r is Err {
                lemma_failed_answer(
                    s1,
                    self@,
                    seq![received(blank)],
                    seq![received(handshake_accepted())],
                    r->Err_0,
                );
            }
            let answer = if r is Ok { res@ } else { handshake_accepted() };
            lemma_step(
                s0,
                s1,
                self@,
                Seq::empty() + frame(magic@),
                seq![received(answer)],
                handshake(answer),
                r,
            );
        }
        r?;
        if res[0] != 0xFF || res[1] != 0xFF || res[2] != 0xFF || res[3] != 0xFF {
            return Err(Error::HandshakeResponseMismatch(res));
        }
        proof {
            assert(res@ =~= handshake_accepted());
        }
        Ok(())
    }

    /// Asks the chip for its identifier.
    fn cmd_chip_id(&mut self) -> (r: Result<u32, Error>)
        requires
            old(self)@.batch_depth == 0,
        ensures
            match r {
                Ok(value) => ran(old(self)@, final(self)@, chip_id(value)),
                Err(e) => exists|value: u32| failed(old(self)@, final(self)@, chip_id(value), e),
            },
    {
        let ghost s0 = self@;
        let ghost mut at = s0;
        let ghost mut done: Seq<Event> = Seq::empty();
        let bytes: [u8; 2] = [0x55, 0x21];
        proof {
            reveal(chip_id);
            assert(bytes@ =~= seq![0x55u8, 0x21u8]);
            lemma_ran_nothing(s0);
        }
        let r = self.write(&bytes);
        proof {
            lemma_step(s0, at, self@, done, frame(bytes@), chip_id(0), r);
            done = done + frame(bytes@);
            at = self@;
        }
        r?;
        let r = self.cmd_get_u32();
        proof {
            let value = if r is Ok {
                r->Ok_0
            } else {
                choose|value: u32| failed(at, self@, get_u32(value), r->Err_0)
            };
            lemma_step(s0, at, self@, done, get_u32(value), chip_id(value), r);
            done = done + get_u32(value);
            at = self@;
        }
        let value = r?;
        let r = self.cmd_unk_2b();
        proof {
            lemma_step(s0, at, self@, done, unk_2b(), chip_id(value), r);
            done = done + unk_2b();
            at = self@;
        }
        r?;
        proof {
            assert(done =~= chip_id(value));
        }
        Ok(value)
    }

    /// Asks how the last erase or page write ended. Any status but the one
    /// for success is an error that carries it.
    fn cmd_check_write_finished(&mut self) -> (r: Result<(), Error>)
        requires
            old(self)@.batch_depth == 0,
        ensures
            match r {
                Ok(()) => ran(old(self)@, final(self)@, write_status(WRITE_FINISHED)),
                Err(e) => unfinished(old(self)@, final(self)@, e) || failed(
                    old(self)@,
                    final(self)@,
                    write_status(WRITE_FINISHED),
                    e,
                ),
            },
    {
        let ghost s0 = self@;
        proof {
            reveal(write_status);
            lemma_ran_nothing(s0);
        }
        let r = self.cmd_unk_48(0x81);
        proof {
            lemma_step(
                s0,
                s0,
                self@,
                Seq::empty(),
                unk_48(0x81),
                write_status(WRITE_FINISHED),
                r,
            );
        }
        r?;
        let ghost s1 = self@;
        let r = self.cmd_get_u16();
        proof {
            if r is Err {
                let other = choose|value: u16| failed(s1, self@, get_u16(value), r->Err_0);
                lemma_failed_answer(
                    s1,
                    self@,
                    get_u16(other),
                    get_u16(WRITE_FINISHED),
                    r->Err_0,
                );
            }
            let status = if r is Ok {
                r->Ok_0
            } else {
                WRITE_FINISHED
            };
            lemma_step(
                s0,
                s1,
                self@,
                Seq::empty() + unk_48(0x81),
                get_u16(status),
                write_status(status),
                r,
            );
        }
        let res = r?;
        if res != WRITE_FINISHED {
            return Err(Error::WriteCheckError(res));
        }
        Ok(())
    }

    /// Writes `data` to the directly addressable byte at `address`.
    fn cmd_write_ram(&mut self, address: u8, data: u8) -> (r: Result<(), Error>)
        ensures
            match r {
                Ok(()) => ran(old(self)@, final(self)@, write_ram(address, data)),
                Err(e) => failed(old(self)@, final(self)@, write_ram(address, data), e),
            },
    {
        let ghost s0 = self@;
        let ghost mut at = s0;
        let ghost mut done: Seq<Event> = Seq::empty();
        let ghost all = write_ram(address, data);
        proof {
            reveal(write_ram);
            lemma_ran_nothing(s0);
        }
        let r = self.cmd_exec_op(0x75, address, data);
        proof {
            lemma_step(s0, at, self@, done, exec_op(0x75, address, data), all, r);
            done = done + exec_op(0x75, address, data);
            at = self@;
        }
        r?;
        proof {
            assert(done =~= write_ram(address, data));
        }
        Ok(())
    }

    /// Reads the directly addressable byte at `address`.
    fn cmd_read_ram(&mut self, address: u8) -> (r: Result<u8, Error>)
        requires
            old(self)@.batch_depth == 0,
        ensures
            match r {
                Ok(value) => ran(old(self)@, final(self)@, read_ram(address, value)),
                Err(e) => exists|value: u8|
                    failed(old(self)@, final(self)@, read_ram(address, value), e),
            },
    {
        let ghost s0 = self@;
        let ghost mut at = s0;
        let ghost mut done: Seq<Event> = Seq::empty();
        proof {
            reveal(read_ram);
            lemma_ran_nothing(s0);
        }
        let r = self.cmd_exec_op(0xE5, address, 0x00);
        proof {
            let value = 0u8;
            let all = read_ram(address, value);
            lemma_step(s0, at, self@, done, exec_op(0xE5, address, 0x00), all, r);
            done = done + exec_op(0xE5, address, 0x00);
            at = self@;
        }
        r?;
        let r = self.cmd_unk_48(0x83);
        proof {
            let value = 0u8;
            let all = read_ram(address, value);
            lemma_step(s0, at, self@, done, unk_48(0x83), all, r);
            done = done + unk_48(0x83);
            at = self@;
        }
        r?;
        let r = self.cmd_get_u8();
        proof {
            let value = if r is Ok {
                r->Ok_0
            } else {
                choose|value: u8| failed(at, self@, get_u8(value), r->Err_0)
            };
            let all = read_ram(address, value);
            lemma_step(s0, at, self@, done, get_u8(value), all, r);
            done = done + get_u8(value);
            at = self@;
        }
        let value = r?;
        proof {
            assert(done =~= read_ram(address, value));
        }
        Ok(value)
    }

    /// Writes `data` to a special function register.
    fn cmd_write_sfr(&mut self, sfr: Sfr, data: u8) -> (r: Result<(), Error>)
        ensures
            match r {
                Ok(()) => ran(old(self)@, final(self)@, write_sfr(sfr, data)),
                Err(e) => failed(old(self)@, final(self)@, write_sfr(sfr, data), e),
            },
    {
        let ghost s0 = self@;
        let ghost mut at = s0;
        let ghost mut done: Seq<Event> = Seq::empty();
        let ghost all = write_sfr(sfr, data);
        proof {
            reveal(write_sfr);
            lemma_ran_nothing(s0);
        }
        let r = self.cmd_write_ram(sfr.addr(), data);
        proof {
            lemma_step(s0, at, self@, done, write_ram(sfr.address(), data), all, r);
            done = done + write_ram(sfr.address(), data);
            at = self@;
        }
        r?;
        proof {
            assert(done =~= write_sfr(sfr, data));
        }
        Ok(())
    }

    /// Reads a special function register.
    fn cmd_read_sfr(&mut self, sfr: Sfr) -> (r: Result<u8, Error>)
        requires
            old(self)@.batch_depth == 0,
        ensures
            match r {
                Ok(value) => ran(old(self)@, final(self)@, read_sfr(sfr, value)),
                Err(e) => exists|value: u8|
                    failed(old(self)@, final(self)@, read_sfr(sfr, value), e),
            },
    {
        let ghost s0 = self@;
        let ghost mut at = s0;
        let ghost mut done: Seq<Event> = Seq::empty();
        proof {
            reveal(read_sfr);
            lemma_ran_nothing(s0);
        }
        let r = self.cmd_read_ram(sfr.addr());
        proof {
            let value = if r is Ok {
                r->Ok_0
            } else {
                choose|value: u8| failed(at, self@, read_ram(sfr.address(), value), r->Err_0)
            };
            let all = read_sfr(sfr, value);
            lemma_step(s0, at, self@, done, read_ram(sfr.address(), value), all, r);
            done = done + read_ram(sfr.address(), value);
            at = self@;
        }
        let value = r?;
        proof {
            assert(done =~= read_sfr(sfr, value));
        }
        Ok(value)
    }

    /// Points the target's data pointer at `address`.
    fn cmd_load_dptr(&mut self, address: u16) -> (r: Result<(), Error>)
        ensures
            match r {
                Ok(()) => ran(old(self)@, final(self)@, load_dptr(address)),
                Err(e) => failed(old(self)@, final(self)@, load_dptr(address), e),
            },
    {
        let ghost s0 = self@;
        let ghost mut at = s0;
        let ghost mut done: Seq<Event> = Seq::empty();
        let ghost all = load_dptr(address);
        proof {
            reveal(load_dptr);
            lemma_ran_nothing(s0);
        }
        let r = self.cmd_exec_op(0x90, (address / 256) as u8, (address % 256) as u8);
        proof {
            lemma_step(s0, at, self@, done, exec_op(0x90, high(address), low(address)), all, r);
            done = done + exec_op(0x90, high(address), low(address));
            at = self@;
        }
        r?;
        proof {
            assert(done =~= load_dptr(address));
        }
        Ok(())
    }

    /// Writes `data` to external memory at `address`.
    fn cmd_write_xram(&mut self, address: u16, data: u8) -> (r: Result<(), Error>)
        ensures
            match r {
                Ok(()) => ran(old(self)@, final(self)@, write_xram(address, data)),
                Err(e) => failed(old(self)@, final(self)@, write_xram(address, data), e),
            },
    {
        let ghost s0 = self@;
        let ghost mut at = s0;
        let ghost mut done: Seq<Event> = Seq::empty();
        let ghost all = write_xram(address, data);
        proof {
            reveal(write_xram);
            lemma_ran_nothing(s0);
        }
        let r = self.cmd_load_dptr(address);
        proof {
            lemma_step(s0, at, self@, done, load_dptr(address), all, r);
            done = done + load_dptr(address);
            at = self@;
        }
        r?;
        let r = self.cmd_exec_op(0x74, data, 0x00);
        proof {
            lemma_step(s0, at, self@, done, exec_op(0x74, data, 0x00), all, r);
            done = done + exec_op(0x74, data, 0x00);
            at = self@;
        }
        r?;
        let r = self.cmd_exec_op(0xF0, 0x00, 0x00);
        proof {
            lemma_step(s0, at, self@, done, exec_op(0xF0, 0x00, 0x00), all, r);
            done = done + exec_op(0xF0, 0x00, 0x00);
            at = self@;
        }
        r?;
        proof {
            assert(done =~= write_xram(address, data));
        }
        Ok(())
    }

    /// Reads external memory at `address`.
    fn cmd_read_xram(&mut self, address: u16) -> (r: Result<u8, Error>)
        requires
            old(self)@.batch_depth == 0,
        ensures
            match r {
                Ok(value) => ran(old(self)@, final(self)@, read_xram(address, value)),
                Err(e) => exists|value: u8|
                    failed(old(self)@, final(self)@, read_xram(address, value), e),
            },
    {
        let ghost s0 = self@;
        let ghost mut at = s0;
        let ghost mut done: Seq<Event> = Seq::empty();
        proof {
            reveal(read_xram);
            lemma_ran_nothing(s0);
        }
        let r = self.cmd_load_dptr(address);
        proof {
            let value = 0u8;
            let all = read_xram(address, value);
            lemma_step(s0, at, self@, done, load_dptr(address), all, r);
            done = done + load_dptr(address);
            at = self@;
        }
        r?;
        let r = self.cmd_unk_48(0x88);
        proof {
            let value = 0u8;
            let all = read_xram(address, value);
            lemma_step(s0, at, self@, done, unk_48(0x88), all, r);
            done = done + unk_48(0x88);
            at = self@;
        }
        r?;
        let r = self.cmd_unk_48(0x05);
        proof {
            let value = 0u8;
            let all = read_xram(address, value);
            lemma_step(s0, at, self@, done, unk_48(0x05), all, r);
            done = done + unk_48(0x05);
            at = self@;
        }
        r?;
        let r = self.cmd_unk_48(0x88);
        proof {
            let value = 0u8;
            let all = read_xram(address, value);
            lemma_step(s0, at, self@, done, unk_48(0x88), all, r);
            done = done + unk_48(0x88);
            at = self@;
        }
        r?;
        let r = self.cmd_unk_48(0x00);
        proof {
            let value = 0u8;
            let all = read_xram(address, value);
            lemma_step(s0, at, self@, done, unk_48(0x00), all, r);
            done = done + unk_48(0x00);
            at = self@;
        }
        r?;
        let r = self.cmd_unk_48(0x83);
        proof {
            let value = 0u8;
            let all = read_xram(address, value);
            lemma_step(s0, at, self@, done, unk_48(0x83), all, r);
            done = done + unk_48(0x83);
            at = self@;
        }
        r?;
        let r = self.cmd_get_u8();
        proof {
            let value = if r is Ok {
                r->Ok_0
            } else {
                choose|value: u8| failed(at, self@, get_u8(value), r->Err_0)
            };
            let all = read_xram(address, value);
            lemma_step(s0, at, self@, done, get_u8(value), all, r);
            done = done + get_u8(value);
            at = self@;
        }
        let value = r?;
        proof {
            assert(done =~= read_xram(address, value));
        }
        Ok(value)
    }

    /// Reads which ROM bank is selected.
    fn cmd_get_rom_bank(&mut self) -> (r: Result<u8, Error>)
        requires
            old(self)@.batch_depth == 0,
        ensures
            match r {
                Ok(value) => ran(old(self)@, final(self)@, get_rom_bank(value)),
                Err(e) => exists|value: u8|
                    failed(old(self)@, final(self)@, get_rom_bank(value), e),
            },
    {
        let ghost s0 = self@;
        let ghost mut at = s0;
        let ghost mut done: Seq<Event> = Seq::empty();
        proof {
            reveal(get_rom_bank);
            lemma_ran_nothing(s0);
        }
        let r = self.cmd_read_xram(ROM_BANK_SELECT);
        proof {
            let value = if r is Ok {
                r->Ok_0
            } else {
                choose|value: u8| failed(at, self@, read_xram(ROM_BANK_SELECT, value), r->Err_0)
            };
            let all = get_rom_bank(value);
            lemma_step(s0, at, self@, done, read_xram(ROM_BANK_SELECT, value), all, r);
            done = done + read_xram(ROM_BANK_SELECT, value);
            at = self@;
        }
        let value = r?;
        proof {
            assert(done =~= get_rom_bank(value));
        }
        Ok(value)
    }

    /// Selects a ROM bank.
    fn cmd_set_rom_bank(&mut self, bank: u8) -> (r: Result<(), Error>)
        ensures
            match r {
                Ok(()) => ran(old(self)@, final(self)@, set_rom_bank(bank)),
                Err(e) => failed(old(self)@, final(self)@, set_rom_bank(bank), e),
            },
    {
        let ghost s0 = self@;
        let ghost mut at = s0;
        let ghost mut done: Seq<Event> = Seq::empty();
        let ghost all = set_rom_bank(bank);
        proof {
            reveal(set_rom_bank);
            lemma_ran_nothing(s0);
        }
        let r = self.cmd_write_xram(ROM_BANK_SELECT, bank);
        proof {
            lemma_step(s0, at, self@, done, write_xram(ROM_BANK_SELECT, bank), all, r);
            done = done + write_xram(ROM_BANK_SELECT, bank);
            at = self@;
        }
        r?;
        proof {
            assert(done =~= set_rom_bank(bank));
        }
        Ok(())
    }

    /// The first half of entering programming mode.
    fn cmd_pre1(&mut self) -> (r: Result<(), Error>)
        ensures
            match r {
                Ok(()) => ran(old(self)@, final(self)@, pre1()),
                Err(e) => failed(old(self)@, final(self)@, pre1(), e),
            },
    {
        let ghost s0 = self@;
        let ghost mut at = s0;
        let ghost mut done: Seq<Event> = Seq::empty();
        let ghost all = pre1();
        proof {
            reveal(pre1);
            lemma_ran_nothing(s0);
        }
        let r = self.cmd_set_rom_bank(0);
        proof {
            lemma_step(s0, at, self@, done, set_rom_bank(0), all, r);
            done = done + set_rom_bank(0);
            at = self@;
        }
        r?;
        let r = self.cmd_write_sfr(Sfr::Peram, 0x00);
        proof {
            lemma_step(s0, at, self@, done, write_sfr(Sfr::Peram, 0x00), all, r);
            done = done + write_sfr(Sfr::Peram, 0x00);
            at = self@;
        }
        r?;
        let r = self.cmd_write_sfr(Sfr::Peromh, 0x00);
        proof {
            lemma_step(s0, at, self@, done, write_sfr(Sfr::Peromh, 0x00), all, r);
            done = done + write_sfr(Sfr::Peromh, 0x00);
            at = self@;
        }
        r?;
        let r = self.cmd_write_sfr(Sfr::Peroml, 0x00);
        proof {
            lemma_step(s0, at, self@, done, write_sfr(Sfr::Peroml, 0x00), all, r);
            done = done + write_sfr(Sfr::Peroml, 0x00);
            at = self@;
        }
        r?;
        let r = self.cmd_unk_48(0x80);
        proof {
            lemma_step(s0, at, self@, done, unk_48(0x80), all, r);
            done = done + unk_48(0x80);
            at = self@;
        }
        r?;
        let r = self.cmd_unk_4b(0x75, 0x01);
        proof {
            lemma_step(s0, at, self@, done, unk_4b(0x75, 0x01), all, r);
            done = done + unk_4b(0x75, 0x01);
            at = self@;
        }
        r?;
        proof {
            assert(done =~= pre1());
        }
        Ok(())
    }

    /// The second half of entering programming mode.
    fn cmd_pre2(&mut self) -> (r: Result<(), Error>)
        ensures
            match r {
                Ok(()) => ran(old(self)@, final(self)@, pre2()),
                Err(e) => failed(old(self)@, final(self)@, pre2(), e),
            },
    {
        let ghost s0 = self@;
        let ghost mut at = s0;
        let ghost mut done: Seq<Event> = Seq::empty();
        let ghost all = pre2();
        proof {
            reveal(pre2);
            lemma_ran_nothing(s0);
        }
        let r = self.cmd_unk_48(0x80);
        proof {
            lemma_step(s0, at, self@, done, unk_48(0x80), all, r);
            done = done + unk_48(0x80);
            at = self@;
        }
        r?;
        let r = self.cmd_unk_4b(0x55, 0x01);
        proof {
            lemma_step(s0, at, self@, done, unk_4b(0x55, 0x01), all, r);
            done = done + unk_4b(0x55, 0x01);
            at = self@;
        }
        r?;
        let r = self.cmd_write_xram(PROTECTION_LOW, 0xC3);
        proof {
            lemma_step(s0, at, self@, done, write_xram(PROTECTION_LOW, 0xC3), all, r);
            done = done + write_xram(PROTECTION_LOW, 0xC3);
            at = self@;
        }
        r?;
        let r = self.cmd_write_xram(PROTECTION_HIGH, 0xC3);
        proof {
            lemma_step(s0, at, self@, done, write_xram(PROTECTION_HIGH, 0xC3), all, r);
            done = done + write_xram(PROTECTION_HIGH, 0xC3);
            at = self@;
        }
        r?;
        proof {
            assert(done =~= pre2());
        }
        Ok(())
    }

    /// The first half of leaving programming mode.
    fn cmd_post1(&mut self) -> (r: Result<(), Error>)
        ensures
            match r {
                Ok(()) => ran(old(self)@, final(self)@, post1()),
                Err(e) => failed(old(self)@, final(self)@, post1(), e),
            },
    {
        let ghost s0 = self@;
        let ghost mut at = s0;
        let ghost mut done: Seq<Event> = Seq::empty();
        let ghost all = post1();
        proof {
            reveal(post1);
            lemma_ran_nothing(s0);
        }
        let r = self.cmd_unk_48(0x80);
        proof {
            lemma_step(s0, at, self@, done, unk_48(0x80), all, r);
            done = done + unk_48(0x80);
            at = self@;
        }
        r?;
        let r = self.cmd_unk_4b(0x75, 0x01);
        proof {
            lemma_step(s0, at, self@, done, unk_4b(0x75, 0x01), all, r);
            done = done + unk_4b(0x75, 0x01);
            at = self@;
        }
        r?;
        proof {
            assert(done =~= post1());
        }
        Ok(())
    }

    /// The second half of leaving programming mode.
    fn cmd_post2(&mut self) -> (r: Result<(), Error>)
        ensures
            match r {
                Ok(()) => ran(old(self)@, final(self)@, post2()),
                Err(e) => failed(old(self)@, final(self)@, post2(), e),
            },
    {
        let ghost s0 = self@;
        let ghost mut at = s0;
        let ghost mut done: Seq<Event> = Seq::empty();
        let ghost all = post2();
        proof {
            reveal(post2);
            lemma_ran_nothing(s0);
        }
        let r = self.cmd_unk_48(0x80);
        proof {
            lemma_step(s0, at, self@, done, unk_48(0x80), all, r);
            done = done + unk_48(0x80);
            at = self@;
        }
        r?;
        let r = self.cmd_unk_4b(0x55, 0x01);
        proof {
            lemma_step(s0, at, self@, done, unk_4b(0x55, 0x01), all, r);
            done = done + unk_4b(0x55, 0x01);
            at = self@;
        }
        r?;
        let r = self.cmd_write_xram(PROTECTION_LOW, 0xC3);
        proof {
            lemma_step(s0, at, self@, done, write_xram(PROTECTION_LOW, 0xC3), all, r);
            done = done + write_xram(PROTECTION_LOW, 0xC3);
            at = self@;
        }
        r?;
        let r = self.cmd_write_xram(PROTECTION_HIGH, 0xC3);
        proof {
            lemma_step(s0, at, self@, done, write_xram(PROTECTION_HIGH, 0xC3), all, r);
            done = done + write_xram(PROTECTION_HIGH, 0xC3);
            at = self@;
        }
        r?;
        proof {
            assert(done =~= post2());
        }
        Ok(())
    }

    /// Triggers the erase of the whole selected bank.
    fn cmd_erase(&mut self) -> (r: Result<(), Error>)
        ensures
            match r {
                Ok(()) => ran(old(self)@, final(self)@, erase()),
                Err(e) => failed(old(self)@, final(self)@, erase(), e),
            },
    {
        let ghost s0 = self@;
        let ghost mut at = s0;
        let ghost mut done: Seq<Event> = Seq::empty();
        let ghost all = erase();
        proof {
            reveal(erase);
            lemma_ran_nothing(s0);
        }
        let r = self.cmd_write_sfr(Sfr::Peroml, 0x0A);
        proof {
            lemma_step(s0, at, self@, done, write_sfr(Sfr::Peroml, 0x0A), all, r);
            done = done + write_sfr(Sfr::Peroml, 0x0A);
            at = self@;
        }
        r?;
        let r = self.cmd_write_sfr(Sfr::Pecmd, 0x96);
        proof {
            lemma_step(s0, at, self@, done, write_sfr(Sfr::Pecmd, 0x96), all, r);
            done = done + write_sfr(Sfr::Pecmd, 0x96);
            at = self@;
        }
        r?;
        proof {
            assert(done =~= erase());
        }
        Ok(())
    }

    /// Writes the protection bytes back to their guarding values.
    fn cmd_reload_protection(&mut self) -> (r: Result<(), Error>)
        ensures
            match r {
                Ok(()) => ran(old(self)@, final(self)@, reload_protection()),
                Err(e) => failed(old(self)@, final(self)@, reload_protection(), e),
            },
    {
        let ghost s0 = self@;
        let ghost mut at = s0;
        let ghost mut done: Seq<Event> = Seq::empty();
        let ghost all = reload_protection();
        proof {
            reveal(reload_protection);
            lemma_ran_nothing(s0);
        }
        let r = self.cmd_write_xram(PROTECTION_LOW, 0x5A);
        proof {
            lemma_step(s0, at, self@, done, write_xram(PROTECTION_LOW, 0x5A), all, r);
            done = done + write_xram(PROTECTION_LOW, 0x5A);
            at = self@;
        }
        r?;
        let r = self.cmd_write_xram(PROTECTION_HIGH, 0xA5);
        proof {
            lemma_step(s0, at, self@, done, write_xram(PROTECTION_HIGH, 0xA5), all, r);
            done = done + write_xram(PROTECTION_HIGH, 0xA5);
            at = self@;
        }
        r?;
        proof {
            assert(done =~= reload_protection());
        }
        Ok(())
    }

    /// Saves the five registers that a bulk read changes, and switches cycle
    /// control to bulk reading.
    fn cmd_save_registers(&mut self) -> (r: Result<SavedRegisters, Error>)
        requires
            old(self)@.batch_depth == 0,
        ensures
            match r {
                Ok(saved) => ran(old(self)@, final(self)@, save_registers(saved)),
                Err(e) => exists|saved: SavedRegisters|
                    failed(old(self)@, final(self)@, save_registers(saved), e),
            },
    {
        let ghost s0 = self@;
        let ghost mut at = s0;
        let ghost mut done: Seq<Event> = Seq::empty();
        proof {
            reveal(save_registers);
            lemma_ran_nothing(s0);
        }
        let r = self.cmd_read_sfr(Sfr::Ckon);
        proof {
            let ckon = if r is Ok {
                r->Ok_0
            } else {
                choose|ckon: u8| failed(at, self@, read_sfr(Sfr::Ckon, ckon), r->Err_0)
            };
            let dps = 0u8;
            let dpc = 0u8;
            let dpl = 0u8;
            let dph = 0u8;
            let all = save_registers(SavedRegisters { ckon, dps, dpc, dpl, dph });
            lemma_step(s0, at, self@, done, read_sfr(Sfr::Ckon, ckon), all, r);
            done = done + read_sfr(Sfr::Ckon, ckon);
            at = self@;
        }
        let ckon = r?;
        let r = self.cmd_write_sfr(Sfr::Ckon, 0x71);
        proof {
            let dps = 0u8;
            let dpc = 0u8;
            let dpl = 0u8;
            let dph = 0u8;
            let all = save_registers(SavedRegisters { ckon, dps, dpc, dpl, dph });
            lemma_step(s0, at, self@, done, write_sfr(Sfr::Ckon, 0x71), all, r);
            done = done + write_sfr(Sfr::Ckon, 0x71);
            at = self@;
        }
        r?;
        let r = self.cmd_read_sfr(Sfr::Dps);
        proof {
            let dps = if r is Ok {
                r->Ok_0
            } else {
                choose|dps: u8| failed(at, self@, read_sfr(Sfr::Dps, dps), r->Err_0)
            };
            let dpc = 0u8;
            let dpl = 0u8;
            let dph = 0u8;
            let all = save_registers(SavedRegisters { ckon, dps, dpc, dpl, dph });
            lemma_step(s0, at, self@, done, read_sfr(Sfr::Dps, dps), all, r);
            done = done + read_sfr(Sfr::Dps, dps);
            at = self@;
        }
        let dps = r?;
        let r = self.cmd_read_sfr(Sfr::Dpc);
        proof {
            let dpc = if r is Ok {
                r->Ok_0
            } else {
                choose|dpc: u8| failed(at, self@, read_sfr(Sfr::Dpc, dpc), r->Err_0)
            };
            let dpl = 0u8;
            let dph = 0u8;
            let all = save_registers(SavedRegisters { ckon, dps, dpc, dpl, dph });
            lemma_step(s0, at, self@, done, read_sfr(Sfr::Dpc, dpc), all, r);
            done = done + read_sfr(Sfr::Dpc, dpc);
            at = self@;
        }
        let dpc = r?;
        let r = self.cmd_read_sfr(Sfr::Dpl);
        proof {
            let dpl = if r is Ok {
                r->Ok_0
            } else {
                choose|dpl: u8| failed(at, self@, read_sfr(Sfr::Dpl, dpl), r->Err_0)
            };
            let dph = 0u8;
            let all = save_registers(SavedRegisters { ckon, dps, dpc, dpl, dph });
            lemma_step(s0, at, self@, done, read_sfr(Sfr::Dpl, dpl), all, r);
            done = done + read_sfr(Sfr::Dpl, dpl);
            at = self@;
        }
        let dpl = r?;
        let r = self.cmd_read_sfr(Sfr::Dph);
        proof {
            let dph = if r is Ok {
                r->Ok_0
            } else {
                choose|dph: u8| failed(at, self@, read_sfr(Sfr::Dph, dph), r->Err_0)
            };
            let all = save_registers(SavedRegisters { ckon, dps, dpc, dpl, dph });
            lemma_step(s0, at, self@, done, read_sfr(Sfr::Dph, dph), all, r);
            done = done + read_sfr(Sfr::Dph, dph);
            at = self@;
        }
        let dph = r?;
        proof {
            assert(done =~= save_registers(SavedRegisters { ckon, dps, dpc, dpl, dph }));
        }
        Ok(SavedRegisters { ckon, dps, dpc, dpl, dph })
    }

    /// Starts a stream of bytes from `offset` on.
    fn cmd_open_stream(&mut self, offset: u16) -> (r: Result<(), Error>)
        ensures
            match r {
                Ok(()) => ran(old(self)@, final(self)@, open_stream(offset)),
                Err(e) => failed(old(self)@, final(self)@, open_stream(offset), e),
            },
    {
        let ghost s0 = self@;
        let ghost mut at = s0;
        let ghost mut done: Seq<Event> = Seq::empty();
        let ghost all = open_stream(offset);
        proof {
            reveal(open_stream);
            lemma_ran_nothing(s0);
        }
        let r = self.cmd_write_sfr(Sfr::Dps, 0x00);
        proof {
            lemma_step(s0, at, self@, done, write_sfr(Sfr::Dps, 0x00), all, r);
            done = done + write_sfr(Sfr::Dps, 0x00);
            at = self@;
        }
        r?;
        let r = self.cmd_write_sfr(Sfr::Dpc, 0x00);
        proof {
            lemma_step(s0, at, self@, done, write_sfr(Sfr::Dpc, 0x00), all, r);
            done = done + write_sfr(Sfr::Dpc, 0x00);
            at = self@;
        }
        r?;
        let r = self.cmd_load_dptr(offset);
        proof {
            lemma_step(s0, at, self@, done, load_dptr(offset), all, r);
            done = done + load_dptr(offset);
            at = self@;
        }
        r?;
        let r = self.cmd_unk_48(0x88);
        proof {
            lemma_step(s0, at, self@, done, unk_48(0x88), all, r);
            done = done + unk_48(0x88);
            at = self@;
        }
        r?;
        let r = self.cmd_unk_48(0x04);
        proof {
            lemma_step(s0, at, self@, done, unk_48(0x04), all, r);
            done = done + unk_48(0x04);
            at = self@;
        }
        r?;
        let r = self.cmd_unk_2a();
        proof {
            lemma_step(s0, at, self@, done, unk_2a(), all, r);
            done = done + unk_2a();
            at = self@;
        }
        r?;
        proof {
            assert(done =~= open_stream(offset));
        }
        Ok(())
    }

    /// Stops the stream of bytes.
    fn cmd_close_stream(&mut self) -> (r: Result<(), Error>)
        ensures
            match r {
                Ok(()) => ran(old(self)@, final(self)@, close_stream()),
                Err(e) => failed(old(self)@, final(self)@, close_stream(), e),
            },
    {
        let ghost s0 = self@;
        let ghost mut at = s0;
        let ghost mut done: Seq<Event> = Seq::empty();
        let ghost all = close_stream();
        proof {
            reveal(close_stream);
            lemma_ran_nothing(s0);
        }
        let r = self.cmd_unk_2b();
        proof {
            lemma_step(s0, at, self@, done, unk_2b(), all, r);
            done = done + unk_2b();
            at = self@;
        }
        r?;
        let r = self.cmd_unk_48(0x88);
        proof {
            lemma_step(s0, at, self@, done, unk_48(0x88), all, r);
            done = done + unk_48(0x88);
            at = self@;
        }
        r?;
        let r = self.cmd_unk_48(0x00);
        proof {
            lemma_step(s0, at, self@, done, unk_48(0x00), all, r);
            done = done + unk_48(0x00);
            at = self@;
        }
        r?;
        proof {
            assert(done =~= close_stream());
        }
        Ok(())
    }

    /// Gives the five registers their former values back.
    fn cmd_restore_registers(&mut self, saved: SavedRegisters) -> (r: Result<(), Error>)
        ensures
            match r {
                Ok(()) => ran(old(self)@, final(self)@, restore_registers(saved)),
                Err(e) => failed(old(self)@, final(self)@, restore_registers(saved), e),
            },
    {
        let ghost s0 = self@;
        let ghost mut at = s0;
        let ghost mut done: Seq<Event> = Seq::empty();
        let ghost all = restore_registers(saved);
        proof {
            reveal(restore_registers);
            lemma_ran_nothing(s0);
        }
        let r = self.cmd_write_sfr(Sfr::Ckon, saved.ckon);
        proof {
            lemma_step(s0, at, self@, done, write_sfr(Sfr::Ckon, saved.ckon), all, r);
            done = done + write_sfr(Sfr::Ckon, saved.ckon);
            at = self@;
        }
        r?;
        let r = self.cmd_write_sfr(Sfr::Dps, saved.dps);
        proof {
            lemma_step(s0, at, self@, done, write_sfr(Sfr::Dps, saved.dps), all, r);
            done = done + write_sfr(Sfr::Dps, saved.dps);
            at = self@;
        }
        r?;
        let r = self.cmd_write_sfr(Sfr::Dpc, saved.dpc);
        proof {
            lemma_step(s0, at, self@, done, write_sfr(Sfr::Dpc, saved.dpc), all, r);
            done = done + write_sfr(Sfr::Dpc, saved.dpc);
            at = self@;
        }
        r?;
        let r = self.cmd_write_sfr(Sfr::Dpl, saved.dpl);
        proof {
            lemma_step(s0, at, self@, done, write_sfr(Sfr::Dpl, saved.dpl), all, r);
            done = done + write_sfr(Sfr::Dpl, saved.dpl);
            at = self@;
        }
        r?;
        let r = self.cmd_write_sfr(Sfr::Dph, saved.dph);
        proof {
            lemma_step(s0, at, self@, done, write_sfr(Sfr::Dph, saved.dph), all, r);
            done = done + write_sfr(Sfr::Dph, saved.dph);
            at = self@;
        }
        r?;
        proof {
            assert(done =~= restore_registers(saved));
        }
        Ok(())
    }

    /// Fetches `data.len()` bytes from the open stream into `data`, and
    /// reports each byte to `meter` once it is stored.
    fn cmd_stream<F: Fn(u64)>(&mut self, data: &mut [u8], meter: &mut Meter<F>) -> (r: Result<
        (),
        Error,
    >)
        requires
            old(self)@.batch_depth == 0,
        ensures
            final(data)@.len() == old(data)@.len(),
            match r {
                Ok(()) => {
                    &&& ran(old(self)@, final(self)@, stream(final(data)@))
                    &&& final(meter).log() == old(meter).log() + ones(old(data)@.len())
                },
                Err(e) => {
                    &&& exists|bytes: Seq<u8>|
                        bytes.len() == old(data)@.len() && failed(
                            old(self)@,
                            final(self)@,
                            stream(bytes),
                            e,
                        )
                    &&& final(meter).log() == old(meter).log() + ones(
                        fetched(made(old(self)@, final(self)@), old(data)@.len()),
                    )
                },
            },
    {
        let ghost s0 = self@;
        let ghost told = meter.log();
        proof {
            lemma_ran_nothing(s0);
            lemma_ones_push(0);
            assert(data@.take(0) =~= Seq::<u8>::empty());
            assert(told + ones(0) =~= told);
        }
        let mut i: usize = 0;
        while i < data.len()
            invariant
                i <= data.len(),
                data@.len() == old(data)@.len(),
                s0 == old(self)@,
                s0.batch_depth == 0,
                told == old(meter).log(),
                meter.log() == told + ones(i as nat),
                ran(s0, self@, stream(data@.take(i as int))),
            decreases data.len() - i,
        {
            let ghost before = data@;
            let ghost mid = self@;
            let r = self.cmd_get_u8();
            proof {
                let byte = if r is Ok {
                    r->Ok_0
                } else {
                    choose|byte: u8| failed(mid, self@, get_u8(byte), r->Err_0)
                };
                let front = before.take(i as int).push(byte);
                let back = before.skip(i + 1);
                lemma_stream_concat(front, back);
                lemma_stream_len(before.take(i as int));
                assert(front.drop_last() =~= before.take(i as int));
                assert((front + back).len() == before.len());
                lemma_step(
                    s0,
                    mid,
                    self@,
                    stream(before.take(i as int)),
                    get_u8(byte),
                    stream(front + back),
                    r,
                );
                if r is Err {
                    assert(made(s0, self@) == 2 * i + made(mid, self@));
                }
            }
            let byte = r?;
            data[i] = byte;
            meter.report(1);
            proof {
                lemma_ones_push(i as nat);
                assert(meter.log() =~= told + ones((i + 1) as nat));
                assert(data@.take(i + 1).drop_last() =~= before.take(i as int));
                assert(data@.take(i + 1).last() == byte);
            }
            i += 1;
        }
        proof {
            assert(data@.take(i as int) =~= data@);
        }
        Ok(())
    }

    /// A bulk read: fills `data` with the bytes of the selected bank from
    /// `offset` on, and reports each byte to `meter` once it is stored. Five
    /// registers of the target are saved before and restored after.
    fn cmd_read<F: Fn(u64)>(&mut self, offset: u16, data: &mut [u8], meter: &mut Meter<F>) -> (r:
        Result<(), Error>)
        requires
            old(self)@.batch_depth == 0,
        ensures
            final(data)@.len() == old(data)@.len(),
            match r {
                Ok(()) => {
                    &&& exists|saved: SavedRegisters|
                        ran(old(self)@, final(self)@, read_block(offset, saved, final(data)@))
                    &&& final(meter).log() == old(meter).log() + ones(old(data)@.len())
                },
                Err(e) => exists|saved: SavedRegisters, bytes: Seq<u8>|
                    block_failed(
                        old(self)@,
                        final(self)@,
                        offset,
                        old(data)@.len(),
                        old(meter).log(),
                        final(meter).log(),
                        e,
                        saved,
                        bytes,
                    ),
            },
    {
        let ghost s0 = self@;
        let ghost mut at = s0;
        let ghost mut done: Seq<Event> = Seq::empty();
        let ghost given = data@;
        let ghost told = meter.log();
        let ghost count = given.len();
        proof {
            reveal(read_block);
            lemma_ran_nothing(s0);
            lemma_ones_push(0);
            assert(told + ones(0) =~= told);
        }
        let r = self.cmd_save_registers();
        proof {
            let saved = if r is Ok {
                r->Ok_0
            } else {
                choose|saved: SavedRegisters| failed(at, self@, save_registers(saved), r->Err_0)
            };
            let all = read_block(offset, saved, given);
            lemma_step(s0, at, self@, done, save_registers(saved), all, r);
            if r is Err {
                assert(block_failed(
                    s0,
                    self@,
                    offset,
                    count,
                    told,
                    meter.log(),
                    r->Err_0,
                    saved,
                    given,
                ));
            }
            done = done + save_registers(saved);
            at = self@;
        }
        let saved = r?;
        let ghost head = save_registers(saved) + open_stream(offset);
        let r = self.cmd_open_stream(offset);
        proof {
            let all = read_block(offset, saved, given);
            lemma_step(s0, at, self@, done, open_stream(offset), all, r);
            if r is Err {
                assert(block_failed(
                    s0,
                    self@,
                    offset,
                    count,
                    told,
                    meter.log(),
                    r->Err_0,
                    saved,
                    given,
                ));
            }
            done = done + open_stream(offset);
            at = self@;
            assert(done =~= head);
        }
        r?;
        let r = self.cmd_stream(data, meter);
        proof {
            let bytes = if r is Ok {
                data@
            } else {
                choose|bytes: Seq<u8>|
                    bytes.len() == given.len() && failed(at, self@, stream(bytes), r->Err_0)
            };
            lemma_step(s0, at, self@, done, stream(bytes), read_block(offset, saved, bytes), r);
            if r is Err {
                assert(made(s0, self@) == head.len() + made(at, self@));
                assert(block_failed(
                    s0,
                    self@,
                    offset,
                    count,
                    told,
                    meter.log(),
                    r->Err_0,
                    saved,
                    bytes,
                ));
            }
            done = done + stream(bytes);
            at = self@;
        }
        r?;
        proof {
            lemma_stream_len(data@);
        }
        let r = self.cmd_close_stream();
        proof {
            lemma_step(s0, at, self@, done, close_stream(), read_block(offset, saved, data@), r);
            if r is Err {
                assert(made(s0, self@) >= head.len() + 2 * count);
                assert(block_failed(
                    s0,
                    self@,
                    offset,
                    count,
                    told,
                    meter.log(),
                    r->Err_0,
                    saved,
                    data@,
                ));
            }
            done = done + close_stream();
            at = self@;
        }
        r?;
        let r = self.cmd_restore_registers(saved);
        proof {
            lemma_step(
                s0,
                at,
                self@,
                done,
                restore_registers(saved),
                read_block(offset, saved, data@),
                r,
            );
            if r is Err {
                assert(made(s0, self@) >= head.len() + 2 * count);
                assert(block_failed(
                    s0,
                    self@,
                    offset,
                    count,
                    told,
                    meter.log(),
                    r->Err_0,
                    saved,
                    data@,
                ));
            }
            done = done + restore_registers(saved);
            at = self@;
        }
        r?;
        proof {
            assert(done =~= read_block(offset, saved, data@));
            assert(ran(s0, self@, read_block(offset, saved, data@)));
        }
        Ok(())
    }

    /// Writes one page: the commands that place `data` in the target's
    /// memory, set the page's index and trigger the write are collected in a
    /// batch and go out as a single write.
    fn cmd_write_page(&mut self, page: usize, data: &[u8]) -> (r: Result<(), Error>)
        requires
            old(self)@.idle(),
        ensures
            match r {
                Ok(()) => ran(old(self)@, final(self)@, write_page(page as nat, data@)),
                Err(e) => failed(old(self)@, final(self)@, write_page(page as nat, data@), e),
            },
    {
        let ghost s0 = self@;
        self.write_batch_begin();
        let ghost s1 = self@;
        let ghost all = page_commands(page as nat, data@);
        proof {
            reveal(page_commands);
            reveal(write_page);
            lemma_ran_nothing(s1);
            assert(data@.take(0) =~= Seq::<u8>::empty());
        }
        let mut i: usize = 0;
        while i < data.len()
            invariant
                i <= data.len(),
                s0 == old(self)@,
                s0.idle(),
                s1 == (Link { batch_depth: 1, ..s0 }),
                ran(s1, self@, fill_ram(data@.take(i as int))),
            decreases data.len() - i,
        {
            let ghost mid = self@;
            let address = (i % 256) as u8;
            let r = self.cmd_write_ram(address, data[i]);
            proof {
                let next = data@.take(i + 1);
                assert(next.drop_last() =~= data@.take(i as int));
                assert(next.last() == data@[i as int]);
                lemma_step(
                    s1,
                    mid,
                    self@,
                    fill_ram(data@.take(i as int)),
                    write_ram(address, data@[i as int]),
                    fill_ram(next),
                    r,
                );
            }
            r?;
            i += 1;
        }
        let ghost mut at = self@;
        let ghost mut done: Seq<Event> = fill_ram(data@);
        proof {
            assert(data@.take(i as int) =~= data@);
        }
        let r = self.cmd_write_sfr(Sfr::Peram, 0x00);
        proof {
            lemma_step(s1, at, self@, done, write_sfr(Sfr::Peram, 0x00), all, r);
            done = done + write_sfr(Sfr::Peram, 0x00);
            at = self@;
        }
        r?;
        let high_byte = ((page / 8) % 256) as u8;
        let r = self.cmd_write_sfr(Sfr::Peromh, high_byte);
        proof {
            lemma_step(s1, at, self@, done, write_sfr(Sfr::Peromh, high_byte), all, r);
            done = done + write_sfr(Sfr::Peromh, high_byte);
            at = self@;
        }
        r?;
        let low_byte = (((page % 8) as u8) << 5) | 0x0A;
        let r = self.cmd_write_sfr(Sfr::Peroml, low_byte);
        proof {
            lemma_step(s1, at, self@, done, write_sfr(Sfr::Peroml, low_byte), all, r);
            done = done + write_sfr(Sfr::Peroml, low_byte);
            at = self@;
        }
        r?;
        let r = self.cmd_write_sfr(Sfr::Pecmd, 0x5A);
        proof {
            lemma_step(s1, at, self@, done, write_sfr(Sfr::Pecmd, 0x5A), all, r);
            done = done + write_sfr(Sfr::Pecmd, 0x5A);
            at = self@;
        }
        r?;
        proof {
            assert(done =~= all);
            assert(self@.pending =~= payload(all));
        }
        self.write_batch_commit()?;
        Ok(())
    }

    /// Whether the chip is reset once more when the flasher is let go.
    pub fn final_reset(&self) -> (r: bool)
        ensures
            r == self@.settings.final_reset,
    {
        self.final_reset
    }

    /// Sets whether the chip is reset once more when the flasher is let go.
    pub fn set_final_reset(&mut self, value: bool)
        ensures
            final(self)@ == (Link {
                settings: Settings { final_reset: value, ..old(self)@.settings },
                ..old(self)@
            }),
    {
        self.final_reset = value;
    }

    /// How long the reset line is held, in milliseconds.
    pub fn reset_duration_ms(&self) -> (r: u64)
        ensures
            r == self@.settings.reset_duration_ms,
    {
        self.reset_duration_ms
    }

    /// Sets how long the reset line is held, in milliseconds.
    pub fn set_reset_duration_ms(&mut self, value: u64)
        ensures
            final(self)@ == (Link {
                settings: Settings { reset_duration_ms: value, ..old(self)@.settings },
                ..old(self)@
            }),
    {
        self.reset_duration_ms = value;
    }

    /// How long the bootloader is given between the reset and the
    /// handshake, in microseconds.
    pub fn connect_duration_us(&self) -> (r: u64)
        ensures
            r == self@.settings.connect_duration_us,
    {
        self.connect_duration_us
    }

    /// Sets how long the bootloader is given between the reset and the
    /// handshake, in microseconds.
    pub fn set_connect_duration_us(&mut self, value: u64)
        ensures
            final(self)@ == (Link {
                settings: Settings { connect_duration_us: value, ..old(self)@.settings },
                ..old(self)@
            }),
    {
        self.connect_duration_us = value;
    }

    /// The bank that reading, erasing, writing and verifying work on.
    pub fn rom_bank(&self) -> (r: RomBank)
        ensures
            r == self@.settings.rom_bank,
    {
        self.rom_bank
    }

    /// Sets the bank that reading, erasing, writing and verifying work on.
    pub fn set_rom_bank(&mut self, value: RomBank)
        ensures
            final(self)@ == (Link {
                settings: Settings { rom_bank: value, ..old(self)@.settings },
                ..old(self)@
            }),
    {
        self.rom_bank = value;
    }

    /// Whether erasing and writing are allowed on another bank than the
    /// main one.
    pub fn dangerous_allow_write_non_main_bank(&self) -> (r: bool)
        ensures
            r == self@.settings.dangerous_allow_write_non_main_bank,
    {
        self.dangerous_allow_write_non_main_bank
    }

    /// Allows or forbids erasing and writing on another bank than the main
    /// one. Its parameter area is easily destroyed for good.
    pub fn set_dangerous_allow_write_non_main_bank(&mut self, value: bool)
        ensures
            final(self)@ == (Link {
                settings: Settings {
                    dangerous_allow_write_non_main_bank: value,
                    ..old(self)@.settings
                },
                ..old(self)@
            }),
    {
        self.dangerous_allow_write_non_main_bank = value;
    }

    /// Whether a reset pulse is owed when the flasher is let go: a final
    /// reset is asked for, and the flasher has been connected since the last
    /// reset.
    pub fn needs_final_reset(&self) -> (r: bool)
        ensures
            r == (self@.settings.final_reset && self@.connected),
    {
        self.final_reset && self.connected
    }

    /// Whether no write batch is open and no byte is held back. Every
    /// operation asks for this, and it holds of every flasher that `new` and
    /// the operations can give: a batch is opened and closed within the
    /// writing of one page.
    pub fn is_idle(&self) -> (r: bool)
        ensures
            r == self@.idle(),
    {
        self.batch_counter == 0 && self.batch_data.len() == 0
    }

    /// Whether erasing and writing are allowed as the flasher is configured.
    fn may_alter(&self) -> (r: bool)
        ensures
            r == self@.may_alter(),
    {
        self.rom_bank == RomBank::Main || self.dangerous_allow_write_non_main_bank
    }

    /// Reads which bank is selected, and selects the configured one.
    fn select_bank(&mut self) -> (r: Result<u8, Error>)
        requires
            old(self)@.batch_depth == 0,
        ensures
            match r {
                Ok(was) => ran(
                    old(self)@,
                    final(self)@,
                    switch_bank(was, old(self)@.settings.rom_bank.number()),
                ),
                Err(e) => exists|was: u8|
                    failed(
                        old(self)@,
                        final(self)@,
                        switch_bank(was, old(self)@.settings.rom_bank.number()),
                        e,
                    ),
            },
    {
        let ghost s0 = self@;
        let ghost mut at = s0;
        let ghost mut done: Seq<Event> = Seq::empty();
        let ghost bank = s0.settings.rom_bank.number();
        proof {
            reveal(switch_bank);
            lemma_ran_nothing(s0);
        }
        let r = self.cmd_get_rom_bank();
        proof {
            let was = if r is Ok {
                r->Ok_0
            } else {
                choose|was: u8| failed(at, self@, get_rom_bank(was), r->Err_0)
            };
            let all = switch_bank(was, bank);
            lemma_step(s0, at, self@, done, get_rom_bank(was), all, r);
            done = done + get_rom_bank(was);
            at = self@;
        }
        let was = r?;
        let r = self.cmd_set_rom_bank(self.rom_bank.index());
        proof {
            let all = switch_bank(was, bank);
            lemma_step(s0, at, self@, done, set_rom_bank(bank), all, r);
            done = done + set_rom_bank(bank);
            at = self@;
        }
        r?;
        proof {
            assert(done =~= switch_bank(was, bank));
        }
        Ok(was)
    }

    /// Selects the configured bank and triggers its erase.
    fn start_erase(&mut self) -> (r: Result<u8, Error>)
        requires
            old(self)@.batch_depth == 0,
        ensures
            match r {
                Ok(was) => ran(
                    old(self)@,
                    final(self)@,
                    switch_bank(was, old(self)@.settings.rom_bank.number()) + erase(),
                ),
                Err(e) => exists|was: u8|
                    failed(
                        old(self)@,
                        final(self)@,
                        switch_bank(was, old(self)@.settings.rom_bank.number()) + erase(),
                        e,
                    ),
            },
    {
        let ghost s0 = self@;
        let ghost mut at = s0;
        let ghost mut done: Seq<Event> = Seq::empty();
        let ghost bank = s0.settings.rom_bank.number();
        proof {
            lemma_ran_nothing(s0);
        }
        let r = self.select_bank();
        proof {
            let was = if r is Ok {
                r->Ok_0
            } else {
                choose|was: u8| failed(at, self@, switch_bank(was, bank), r->Err_0)
            };
            let all = switch_bank(was, bank) + erase();
            lemma_step(s0, at, self@, done, switch_bank(was, bank), all, r);
            done = done + switch_bank(was, bank);
            at = self@;
        }
        let was = r?;
        let r = self.cmd_erase();
        proof {
            let all = switch_bank(was, bank) + erase();
            lemma_step(s0, at, self@, done, erase(), all, r);
            done = done + erase();
            at = self@;
        }
        r?;
        proof {
            assert(done =~= switch_bank(was, bank) + erase());
        }
        Ok(was)
    }

    /// Selects the bank `restore` again and guards the flash.
    fn finish_erase(&mut self, restore: u8) -> (r: Result<(), Error>)
        ensures
            match r {
                Ok(()) => ran(
                    old(self)@,
                    final(self)@,
                    set_rom_bank(restore) + reload_protection(),
                ),
                Err(e) => failed(
                    old(self)@,
                    final(self)@,
                    set_rom_bank(restore) + reload_protection(),
                    e,
                ),
            },
    {
        let ghost s0 = self@;
        let ghost mut at = s0;
        let ghost mut done: Seq<Event> = Seq::empty();
        let ghost all = set_rom_bank(restore) + reload_protection();
        proof {
            lemma_ran_nothing(s0);
        }
        let r = self.cmd_set_rom_bank(restore);
        proof {
            lemma_step(s0, at, self@, done, set_rom_bank(restore), all, r);
            done = done + set_rom_bank(restore);
            at = self@;
        }
        r?;
        let r = self.cmd_reload_protection();
        proof {
            lemma_step(s0, at, self@, done, reload_protection(), all, r);
            done = done + reload_protection();
            at = self@;
        }
        r?;
        proof {
            assert(done =~= set_rom_bank(restore) + reload_protection());
        }
        Ok(())
    }

    /// Selects the bank `restore` again and does the first half of leaving
    /// programming mode.
    fn leave(&mut self, restore: u8) -> (r: Result<(), Error>)
        ensures
            match r {
                Ok(()) => ran(old(self)@, final(self)@, set_rom_bank(restore) + post1()),
                Err(e) => failed(old(self)@, final(self)@, set_rom_bank(restore) + post1(), e),
            },
    {
        let ghost s0 = self@;
        let ghost mut at = s0;
        let ghost mut done: Seq<Event> = Seq::empty();
        let ghost all = set_rom_bank(restore) + post1();
        proof {
            lemma_ran_nothing(s0);
        }
        let r = self.cmd_set_rom_bank(restore);
        proof {
            lemma_step(s0, at, self@, done, set_rom_bank(restore), all, r);
            done = done + set_rom_bank(restore);
            at = self@;
        }
        r?;
        let r = self.cmd_post1();
        proof {
            lemma_step(s0, at, self@, done, post1(), all, r);
            done = done + post1();
            at = self@;
        }
        r?;
        proof {
            assert(done =~= set_rom_bank(restore) + post1());
        }
        Ok(())
    }

    /// Pulls the reset line, which ends the connection.
    fn pull_reset(&mut self) -> (r: Result<(), Error>)
        requires
            old(self)@.batch_depth == 0,
        ensures
            match r {
                Ok(()) => final(self)@ == (Link {
                    wire: old(self)@.wire + seq![drove(true)],
                    connected: false,
                    ..old(self)@
                }),
                Err(e) => failed(old(self)@, final(self)@, seq![drove(true)], e),
            },
    {
        let ghost s0 = self@;
        let r = self.transport.set_reset(true);
        proof {
            if r is Ok {
                assert(self@.wire =~= s0.wire + seq![drove(true)]);
            } else {
                assert(self@.wire =~= s0.wire + cut_short(seq![drove(true)], 0, r->Err_0));
            }
        }
        r?;
        self.connected = false;
        Ok(())
    }

    /// Lets the reset line go.
    fn release_reset(&mut self) -> (r: Result<(), Error>)
        requires
            old(self)@.batch_depth == 0,
        ensures
            match r {
                Ok(()) => ran(old(self)@, final(self)@, seq![drove(false)]),
                Err(e) => failed(old(self)@, final(self)@, seq![drove(false)], e),
            },
    {
        let ghost s0 = self@;
        let r = self.transport.set_reset(false);
        proof {
            if r is Ok {
                assert(self@.wire =~= s0.wire + seq![drove(false)]);
            } else {
                assert(self@.wire =~= s0.wire + cut_short(seq![drove(false)], 0, r->Err_0));
            }
        }
        r
    }

    /// One stage of a reset pulse: the line is pulled, held for the
    /// configured time, and let go. Pulling it ends the connection.
    pub fn reset(&mut self, stage: ResetStage) -> (r: Result<Step<ResetStage, ()>, Error>)
        requires
            old(self)@.idle(),
        ensures
            final(self)@.idle(),
            reset_step(old(self)@, final(self)@, stage, r),
    {
        match stage {
            ResetStage::Assert => {
                self.pull_reset()?;
                Ok(
                    Step::Pause {
                        wait: Wait::Millis(self.reset_duration_ms),
                        next: ResetStage::Release,
                    },
                )
            },
            ResetStage::Release => {
                self.release_reset()?;
                Ok(Step::Done(()))
            },
        }
    }

    /// Shakes hands with the bootloader and asks for the chip's identifier.
    /// With the handshake made the flasher counts as connected.
    fn shake_hands(&mut self) -> (r: Result<Step<ConnectStage, u32>, Error>)
        requires
            old(self)@.idle(),
        ensures
            connect_step(old(self)@, final(self)@, ConnectStage::Handshake, r),
    {
        let ghost s0 = self@;
        let ghost shaken = Link { connected: true, ..s0 };
        let ghost accepted = handshake(handshake_accepted());
        self.cmd_connect()?;
        self.connected = true;
        let ghost mid = self@;
        proof {
            reveal(handshake);
            assert(ran(shaken, mid, accepted));
            assert(mid.wire.len() == s0.wire.len() + 2);
        }
        let r = self.cmd_chip_id();
        proof {
            let id = if r is Ok {
                r->Ok_0
            } else {
                choose|id: u32| failed(mid, self@, chip_id(id), r->Err_0)
            };
            lemma_step(shaken, mid, self@, accepted, chip_id(id), accepted + chip_id(id), r);
        }
        let id = r?;
        Ok(Step::Done(id))
    }

    /// One stage of connecting: a reset pulse, the configured time for the
    /// bootloader to come up, then the handshake and the chip's identifier.
    /// A handshake that the target does not accept ends the operation before
    /// the identifier is asked for.
    pub fn connect(&mut self, stage: ConnectStage) -> (r: Result<Step<ConnectStage, u32>, Error>)
        requires
            old(self)@.idle(),
        ensures
            final(self)@.idle(),
            connect_step(old(self)@, final(self)@, stage, r),
    {
        match stage {
            ConnectStage::Assert => {
                self.pull_reset()?;
                Ok(
                    Step::Pause {
                        wait: Wait::Millis(self.reset_duration_ms),
                        next: ConnectStage::Release,
                    },
                )
            },
            ConnectStage::Release => {
                self.release_reset()?;
                Ok(
                    Step::Pause {
                        wait: Wait::Micros(self.connect_duration_us),
                        next: ConnectStage::Handshake,
                    },
                )
            },
            ConnectStage::Handshake => self.shake_hands(),
        }
    }

    /// Asks the chip for its identifier.
    pub fn chip_id(&mut self) -> (r: Result<u32, Error>)
        requires
            old(self)@.idle(),
        ensures
            final(self)@.idle(),
            match r {
                Ok(id) => ran(old(self)@, final(self)@, chip_id(id)),
                Err(e) => exists|id: u32| failed(old(self)@, final(self)@, chip_id(id), e),
            },
    {
        self.cmd_chip_id()
    }

    /// Selects the configured bank, reads `data.len()` bytes from `offset`
    /// on into `data`, and selects the former bank again.
    fn transfer<F: Fn(u64)>(&mut self, offset: u16, data: &mut [u8], meter: &mut Meter<F>) -> (r:
        Result<Step<ReadStage, ()>, Error>)
        requires
            old(self)@.batch_depth == 0,
        ensures
            final(data)@.len() == old(data)@.len(),
            exists|was: u8, saved: SavedRegisters, bytes: Seq<u8>|
                transferred_metered(
                    old(self)@,
                    final(self)@,
                    offset,
                    final(data)@,
                    old(meter).log(),
                    final(meter).log(),
                    r,
                    was,
                    saved,
                    bytes,
                ),
    {
        let ghost s0 = self@;
        let ghost mut at = s0;
        let ghost mut done: Seq<Event> = Seq::empty();
        let ghost bank = s0.settings.rom_bank.number();
        let ghost given = data@;
        let ghost told = meter.log();
        let ghost blank = SavedRegisters { ckon: 0, dps: 0, dpc: 0, dpl: 0, dph: 0 };
        proof {
            lemma_ran_nothing(s0);
            lemma_ones_push(0);
            assert(told + ones(0) =~= told);
        }
        let r = self.select_bank();
        proof {
            let was = if r is Ok {
                r->Ok_0
            } else {
                choose|was: u8| failed(at, self@, switch_bank(was, bank), r->Err_0)
            };
            let all = switch_bank(was, bank) + read_block(offset, blank, given) + set_rom_bank(was);
            lemma_step(s0, at, self@, done, switch_bank(was, bank), all, r);
            if r is Err {
                assert(transferred_metered(
                    s0,
                    self@,
                    offset,
                    data@,
                    told,
                    meter.log(),
                    Err::<Step<ReadStage, ()>, Error>(r->Err_0),
                    was,
                    blank,
                    given,
                ));
            }
            done = done + switch_bank(was, bank);
            at = self@;
        }
        let was = r?;
        let ghost switch = switch_bank(was, bank);
        let r = self.cmd_read(offset, data, meter);
        let ghost (saved, bytes) = if r is Ok {
            (choose|saved: SavedRegisters| ran(at, self@, read_block(offset, saved, data@)), data@)
        } else {
            choose|saved: SavedRegisters, bytes: Seq<u8>|
                block_failed(
                    at,
                    self@,
                    offset,
                    given.len(),
                    told,
                    meter.log(),
                    r->Err_0,
                    saved,
                    bytes,
                )
        };
        let ghost all = switch + read_block(offset, saved, bytes) + set_rom_bank(was);
        proof {
            lemma_step(s0, at, self@, done, read_block(offset, saved, bytes), all, r);
            if r is Err {
                assert(made(s0, self@) - switch.len() == made(at, self@));
                assert(transferred_metered(
                    s0,
                    self@,
                    offset,
                    data@,
                    told,
                    meter.log(),
                    Err::<Step<ReadStage, ()>, Error>(r->Err_0),
                    was,
                    saved,
                    bytes,
                ));
            }
            done = done + read_block(offset, saved, bytes);
            at = self@;
        }
        r?;
        let r = self.cmd_set_rom_bank(was);
        proof {
            lemma_step(s0, at, self@, done, set_rom_bank(was), all, r);
            if r is Err {
                lemma_block_fetched(
                    offset,
                    saved,
                    bytes,
                    made(s0, self@) - switch.len(),
                );
                assert(transferred_metered(
                    s0,
                    self@,
                    offset,
                    data@,
                    told,
                    meter.log(),
                    Err::<Step<ReadStage, ()>, Error>(r->Err_0),
                    was,
                    saved,
                    bytes,
                ));
            }
            done = done + set_rom_bank(was);
            at = self@;
        }
        r?;
        let r = Ok(Step::Pause { wait: Wait::Millis(SETTLE_MS), next: ReadStage::Rearm });
        proof {
            assert(done =~= all);
            assert(transferred_metered(
                s0,
                self@,
                offset,
                data@,
                told,
                meter.log(),
                r,
                was,
                saved,
                bytes,
            ));
        }
        r
    }

    /// One stage of reading `data.len()` bytes of the configured bank from
    /// `offset` on into `data`. The transfer stage reports each byte to
    /// `meter`, as one byte, once it is stored; no other stage reports
    /// anything.
    pub fn read_flash<F: Fn(u64)>(
        &mut self,
        offset: u16,
        data: &mut [u8],
        meter: &mut Meter<F>,
        stage: ReadStage,
    ) -> (r: Result<Step<ReadStage, ()>, Error>)
        requires
            old(self)@.idle(),
        ensures
            final(self)@.idle(),
            read_step(old(self)@, final(self)@, offset, old(data)@, final(data)@, stage, r),
            read_reports(
                old(self)@,
                final(self)@,
                offset,
                final(data)@,
                old(meter).log(),
                final(meter).log(),
                stage,
                r,
            ),
    {
        match stage {
            ReadStage::Arm => {
                self.cmd_pre1()?;
                Ok(Step::Pause { wait: Wait::Millis(SETTLE_MS), next: ReadStage::Unlock })
            },
            ReadStage::Unlock => {
                self.cmd_pre2()?;
                Ok(Step::Pause { wait: Wait::Millis(SETTLE_MS), next: ReadStage::Transfer })
            },
            ReadStage::Transfer => self.transfer(offset, data, meter),
            ReadStage::Rearm => {
                self.cmd_post1()?;
                Ok(Step::Pause { wait: Wait::Millis(SETTLE_MS), next: ReadStage::Restore })
            },
            ReadStage::Restore => {
                self.cmd_post2()?;
                Ok(Step::Pause { wait: Wait::Millis(SETTLE_MS), next: ReadStage::End })
            },
            ReadStage::End => Ok(Step::Done(())),
        }
    }

    /// One stage of erasing the configured bank. Another bank than the main
    /// one is refused unless it has been allowed.
    pub fn erase_flash(&mut self, stage: EraseStage) -> (r: Result<Step<EraseStage, ()>, Error>)
        requires
            old(self)@.idle(),
        ensures
            final(self)@.idle(),
            erase_step(old(self)@, final(self)@, stage, r),
    {
        if !self.may_alter() {
            return Err(Error::NonMainBankErase);
        }
        let ghost s0 = self@;
        let ghost bank = s0.settings.rom_bank.number();
        match stage {
            EraseStage::Arm => {
                self.cmd_pre1()?;
                Ok(Step::Pause { wait: Wait::Millis(SETTLE_MS), next: EraseStage::Unlock })
            },
            EraseStage::Unlock => {
                self.cmd_pre2()?;
                Ok(Step::Pause { wait: Wait::Millis(SETTLE_MS), next: EraseStage::Erase })
            },
            EraseStage::Erase => {
                let started = self.start_erase();
                let ghost was = if started is Ok {
                    started->Ok_0
                } else {
                    choose|was: u8|
                        failed(
                            s0,
                            self@,
                            switch_bank(was, bank) + erase(),
                            started->Err_0,
                        )
                };
                let r = match started {
                    Ok(was) => Ok(
                        Step::Pause {
                            wait: Wait::Millis(SETTLE_MS),
                            next: EraseStage::Check { restore: was },
                        },
                    ),
                    Err(e) => Err(e),
                };
                proof {
                    assert(outcome(
                        s0,
                        self@,
                        switch_bank(was, bank) + erase(),
                        pause(SETTLE_MS, EraseStage::Check { restore: was }),
                        r,
                    ));
                }
                r
            },
            EraseStage::Check { restore } => {
                self.cmd_check_write_finished()?;
                Ok(
                    Step::Pause {
                        wait: Wait::Millis(SETTLE_MS),
                        next: EraseStage::Reload { restore },
                    },
                )
            },
            EraseStage::Reload { restore } => {
                self.finish_erase(restore)?;
                Ok(Step::Pause { wait: Wait::Millis(SETTLE_MS), next: EraseStage::Rearm })
            },
            EraseStage::Rearm => {
                self.cmd_post1()?;
                Ok(Step::Pause { wait: Wait::Millis(SETTLE_MS), next: EraseStage::Restore })
            },
            EraseStage::Restore => {
                self.cmd_post2()?;
                Ok(Step::Pause { wait: Wait::Millis(SETTLE_MS), next: EraseStage::End })
            },
            EraseStage::End => Ok(Step::Done(())),
        }
    }

    /// Goes on writing from the byte `start` of the section `section`: writes
    /// the next page, or, where none is left, selects the bank `restore`
    /// again and does the first half of leaving programming mode.
    fn write_onward(
        &mut self,
        firmware: &Firmware,
        restore: u8,
        section: usize,
        start: usize,
    ) -> (r: Result<Step<WriteStage, ()>, Error>)
        requires
            old(self)@.idle(),
        ensures
            outcome(
                old(self)@,
                final(self)@,
                onward(firmware@, restore, section as nat, start as nat),
                onward_step(firmware@, restore, section as nat, start as nat),
                r,
            ),
    {
        let ghost image = firmware@;
        let sections = firmware.sections();
        let page_size = firmware.page_size();
        let mut s = section;
        let mut at = start;
        while s < sections.len() && at >= sections[s].len()
            invariant
                spans(sections@) == image.sections,
                next_page(image, s as nat, at as nat) == next_page(
                    image,
                    section as nat,
                    start as nat,
                ),
            decreases sections.len() - s,
        {
            proof {
                assert(image.sections[s as int] == sections@[s as int]@);
            }
            s += 1;
            at = 0;
        }
        if s < sections.len() {
            proof {
                assert(image.sections[s as int] == sections@[s as int]@);
            }
            let data = sections[s].data();
            let end = if data.len() - at >= page_size {
                at + page_size
            } else {
                data.len()
            };
            let chunk = slice_subrange(data, at, end);
            let offset = sections[s].offset();
            assert(offset / page_size <= offset && at / page_size <= at) by (nonlinear_arith)
                requires
                    page_size > 0,
            ;
            let page = offset / page_size + at / page_size;
            self.cmd_write_page(page, chunk)?;
            Ok(
                Step::Pause {
                    wait: Wait::Millis(PAGE_SETTLE_MS),
                    next: WriteStage::Check { restore, section: s, start: at },
                },
            )
        } else {
            self.leave(restore)?;
            Ok(Step::Pause { wait: Wait::Millis(SETTLE_MS), next: WriteStage::Restore })
        }
    }

    /// Selects the configured bank and writes the first page of `firmware`.
    fn write_first(&mut self, firmware: &Firmware) -> (r: Result<Step<WriteStage, ()>, Error>)
        requires
            old(self)@.idle(),
        ensures
            exists|was: u8|
                outcome(
                    old(self)@,
                    final(self)@,
                    switch_bank(was, old(self)@.settings.rom_bank.number())
                        + onward(firmware@, was, 0, 0),
                    onward_step(firmware@, was, 0, 0),
                    r,
                ),
    {
        let ghost s0 = self@;
        let ghost bank = s0.settings.rom_bank.number();
        let ghost image = firmware@;
        proof {
            lemma_ran_nothing(s0);
        }
        let selected = self.select_bank();
        let ghost s1 = self@;
        let ghost was = if selected is Ok {
            selected->Ok_0
        } else {
            choose|was: u8|
                failed(s0, s1, switch_bank(was, bank), selected->Err_0)
        };
        let ghost all = switch_bank(was, bank) + onward(image, was, 0, 0);
        proof {
            lemma_step(
                s0,
                s0,
                s1,
                Seq::empty(),
                switch_bank(was, bank),
                all,
                selected,
            );
            if selected is Err {
                assert(outcome(
                    s0,
                    s1,
                    all,
                    onward_step(image, was, 0, 0),
                    Err::<Step<WriteStage, ()>, Error>(selected->Err_0),
                ));
            }
        }
        let was = selected?;
        let r = self.write_onward(firmware, was, 0, 0);
        proof {
            lemma_step(
                s0,
                s1,
                self@,
                Seq::empty() + switch_bank(was, bank),
                onward(image, was, 0, 0),
                all,
                r,
            );
            assert(Seq::empty() + switch_bank(was, bank) + onward(image, was, 0, 0) =~= all);
            assert(outcome(s0, self@, all, onward_step(image, was, 0, 0), r));
        }
        r
    }

    /// One stage of writing `firmware` to the configured bank, page by page.
    /// The stage that follows a page's check reports that page to `meter`,
    /// with the number of its bytes, and then goes on; no other stage reports
    /// anything. Another bank than the main one is refused unless it has
    /// been allowed, and a refused stage reports nothing.
    pub fn write_flash<F: Fn(u64)>(
        &mut self,
        firmware: &Firmware,
        meter: &mut Meter<F>,
        stage: WriteStage,
    ) -> (r: Result<Step<WriteStage, ()>, Error>)
        requires
            old(self)@.idle(),
        ensures
            final(self)@.idle(),
            write_step(old(self)@, final(self)@, firmware@, stage, r),
            write_reports(
                old(self)@,
                firmware@,
                old(meter).log(),
                final(meter).log(),
                stage,
            ),
    {
        if !self.may_alter() {
            return Err(Error::NonMainBankWrite);
        }
        match stage {
            WriteStage::Arm => {
                self.cmd_pre1()?;
                Ok(Step::Pause { wait: Wait::Millis(SETTLE_MS), next: WriteStage::Unlock })
            },
            WriteStage::Unlock => {
                self.cmd_pre2()?;
                Ok(Step::Pause { wait: Wait::Millis(SETTLE_MS), next: WriteStage::Select })
            },
            WriteStage::Select => self.write_first(firmware),
            WriteStage::Check { restore, section, start } => {
                self.cmd_check_write_finished()?;
                Ok(
                    Step::Pause {
                        wait: Wait::Millis(PAGE_SETTLE_MS),
                        next: WriteStage::Report { restore, section, start },
                    },
                )
            },
            WriteStage::Report { restore, section, start } => {
                let sections = firmware.sections();
                let page_size = firmware.page_size();
                proof {
                    if section < sections.len() {
                        assert(firmware@.sections[section as int] == sections@[section as int]@);
                    }
                }
                if section < sections.len() && start < sections[section].len() {
                    let left = sections[section].len() - start;
                    let written = if left >= page_size {
                        page_size
                    } else {
                        left
                    };
                    meter.report(written as u64);
                }
                self.write_onward(firmware, restore, section, start.saturating_add(page_size))
            },
            WriteStage::Restore => {
                self.cmd_post2()?;
                Ok(Step::Pause { wait: Wait::Millis(SETTLE_MS), next: WriteStage::End })
            },
            WriteStage::End => Ok(Step::Done(())),
        }
    }

    /// Reads one section back from the target and compares: the offset of
    /// every byte that differs is added to `errors`.
    fn read_section<F: Fn(u64)>(
        &mut self,
        section: &Section,
        meter: &mut Meter<F>,
        errors: &mut Vec<usize>,
    ) -> (r: Result<(), Error>)
        requires
            old(self)@.batch_depth == 0,
            section@.end() <= usize::MAX,
        ensures
            exists|saved: SavedRegisters, bytes: Seq<u8>|
                read_one_metered(
                    old(self)@,
                    final(self)@,
                    section@,
                    old(errors)@,
                    final(errors)@,
                    old(meter).log(),
                    final(meter).log(),
                    r,
                    ReadBack { saved, data: bytes },
                ),
    {
        let ghost s0 = self@;
        let ghost span = section@;
        let ghost earlier = errors@;
        let ghost told = meter.log();
        let mut verify: Vec<u8> = Vec::new();
        verify.resize(section.len(), 0);
        let start = (section.offset() % 65536) as u16;
        let r = self.cmd_read(start, verify.as_mut_slice(), meter);
        let ghost (saved, bytes) = if r is Ok {
            (
                choose|saved: SavedRegisters| ran(s0, self@, read_block(start, saved, verify@)),
                verify@,
            )
        } else {
            choose|saved: SavedRegisters, bytes: Seq<u8>|
                block_failed(
                    s0,
                    self@,
                    start,
                    span.data.len(),
                    told,
                    meter.log(),
                    r->Err_0,
                    saved,
                    bytes,
                )
        };
        proof {
            if r is Err {
                assert(read_one_metered(
                    s0,
                    self@,
                    span,
                    earlier,
                    errors@,
                    told,
                    meter.log(),
                    r,
                    ReadBack { saved, data: bytes },
                ));
            }
        }
        r?;
        let data = section.data();
        let offset = section.offset();
        let mut j: usize = 0;
        while j < data.len()
            invariant
                j <= data.len(),
                data@ == span.data,
                offset == span.offset,
                span.end() <= usize::MAX,
                verify@.len() == data@.len(),
                errors@ == earlier + differing(span.offset, span.data, verify@, j as nat),
            decreases data.len() - j,
        {
            if data[j] != verify[j] {
                errors.push(j + offset);
            }
            j += 1;
            proof {
                assert(errors@ =~= earlier + differing(
                    span.offset,
                    span.data,
                    verify@,
                    j as nat,
                ));
            }
        }
        proof {
            assert(read_one_metered(
                s0,
                self@,
                span,
                earlier,
                errors@,
                told,
                meter.log(),
                Ok::<(), Error>(()),
                ReadBack { saved, data: bytes },
            ));
        }
        Ok(())
    }

    /// Reads every section of `firmware` back from the target and compares:
    /// the result holds the offset of every byte that differs.
    fn read_sections<F: Fn(u64)>(&mut self, firmware: &Firmware, meter: &mut Meter<F>) -> (r:
        Result<Vec<usize>, Error>)
        requires
            old(self)@.batch_depth == 0,
        ensures
            exists|reads: Seq<ReadBack>|
                read_all_metered(
                    old(self)@,
                    final(self)@,
                    firmware@,
                    old(meter).log(),
                    final(meter).log(),
                    r,
                    reads,
                ),
    {
        let ghost s0 = self@;
        let ghost image = firmware@;
        let ghost all = image.sections.len();
        let ghost told = meter.log();
        let sections = firmware.sections();
        let mut errors: Vec<usize> = Vec::new();
        let ghost mut reads: Seq<ReadBack> = Seq::empty();
        let mut k: usize = 0;
        proof {
            lemma_ran_nothing(s0);
            lemma_ones_push(0);
            assert(image.sections.take(0) =~= Seq::<Span>::empty());
            assert(told + ones(0) =~= told);
        }
        while k < sections.len()
            invariant
                k <= sections.len(),
                s0 == old(self)@,
                s0.batch_depth == 0,
                image == firmware@,
                all == image.sections.len(),
                told == old(meter).log(),
                spans(sections@) == image.sections,
                forall|i: int|
                    0 <= i < sections@.len() ==> (#[trigger] sections@[i])@.end() <= usize::MAX,
                reads.len() == k,
                forall|i: int|
                    0 <= i < k ==> (#[trigger] reads[i]).data.len() == image.sections[i].len(),
                ran(s0, self@, read_back(image, reads, k as nat)),
                errors@ == mismatches(image, reads, k as nat),
                meter.log() == told + ones(total_len(image.sections.take(k as int))),
            decreases sections.len() - k,
        {
            let ghost mid = self@;
            let ghost earlier = errors@;
            let ghost heard = meter.log();
            let ghost before = total_len(image.sections.take(k as int));
            let section = &sections[k];
            proof {
                assert(image.sections[k as int] == section@);
            }
            let r = self.read_section(section, meter, &mut errors);
            proof {
                let (saved, bytes) = choose|saved: SavedRegisters, bytes: Seq<u8>|
                    read_one_metered(
                        mid,
                        self@,
                        section@,
                        earlier,
                        errors@,
                        heard,
                        meter.log(),
                        r,
                        ReadBack { saved, data: bytes },
                    );
                let read = ReadBack { saved, data: bytes };
                let filled = Seq::new(
                    all,
                    |j: int|
                        if j < k {
                            reads[j]
                        } else if j == k {
                            read
                        } else {
                            ReadBack { saved, data: image.sections[j].data }
                        },
                );
                let next = image.sections.take(k + 1);
                assert(next.drop_last() =~= image.sections.take(k as int));
                assert(next.last() == section@);
                lemma_reads_prefix(image, reads, filled, k as nat);
                lemma_read_range_split(image, filled, 0, (k + 1) as nat, all);
                lemma_step(
                    s0,
                    mid,
                    self@,
                    read_back(image, reads, k as nat),
                    reading(section@, read),
                    read_back(image, filled, all),
                    r,
                );
                if r is Err {
                    let gone = made(s0, self@);
                    let partly = fetched_in_block(
                        (section@.offset % 65536) as u16,
                        saved,
                        section@.len(),
                        made(mid, self@),
                    );
                    assert(reads_match(image, filled));
                    assert(filled[k as int] == read);
                    assert(gone == read_back(image, filled, k as nat).len() + made(mid, self@));
                    assert(read_back(image, filled, (k + 1) as nat) == read_back(
                        image,
                        filled,
                        k as nat,
                    ) + reading(section@, read));
                    lemma_fetched_back_none(image, filled, (k + 1) as nat, all, gone);
                    lemma_fetched_back_all(image, filled, k as nat, gone);
                    assert(fetched_back(image, filled, (k + 1) as nat, gone) == before + partly);
                    lemma_ones_concat(before, partly);
                    assert(meter.log() =~= told + ones(before + partly));
                    assert(read_all_metered(
                        s0,
                        self@,
                        image,
                        told,
                        meter.log(),
                        Err::<Vec<usize>, Error>(r->Err_0),
                        filled,
                    ));
                } else {
                    lemma_ones_concat(before, section@.len());
                }
                let grown = reads.push(read);
                lemma_reads_prefix(image, reads, grown, k as nat);
                reads = grown;
            }
            r?;
            k += 1;
        }
        let r = Ok(errors);
        proof {
            assert(reads_match(image, reads));
            assert(image.sections.take(k as int) =~= image.sections);
            assert(read_all_metered(s0, self@, image, told, meter.log(), r, reads));
        }
        r
    }

    /// Selects the configured bank, reads every section of `firmware` back
    /// and compares. Where all bytes are the same, the former bank is
    /// selected again and the first half of leaving programming mode is
    /// done; where some differ, the operation ends there, with their offsets.
    #[verifier::rlimit(30)]
    fn compare<F: Fn(u64)>(&mut self, firmware: &Firmware, meter: &mut Meter<F>) -> (r: Result<
        Step<VerifyStage, ()>,
        Error,
    >)
        requires
            old(self)@.idle(),
        ensures
            exists|was: u8, reads: Seq<ReadBack>|
                compared_metered(
                    old(self)@,
                    final(self)@,
                    firmware@,
                    old(meter).log(),
                    final(meter).log(),
                    r,
                    was,
                    reads,
                ),
    {
        let ghost s0 = self@;
        let ghost mut at = s0;
        let ghost mut done: Seq<Event> = Seq::empty();
        let ghost image = firmware@;
        let ghost all = image.sections.len();
        let ghost bank = s0.settings.rom_bank.number();
        let ghost told = meter.log();
        proof {
            lemma_ran_nothing(s0);
            lemma_ones_push(0);
            assert(told + ones(0) =~= told);
        }
        let r = self.select_bank();
        proof {
            let was = if r is Ok {
                r->Ok_0
            } else {
                choose|was: u8| failed(at, self@, switch_bank(was, bank), r->Err_0)
            };
            let saved = SavedRegisters { ckon: 0, dps: 0, dpc: 0, dpl: 0, dph: 0 };
            let reads = Seq::new(all, |j: int| ReadBack { saved, data: image.sections[j].data });
            lemma_step(
                s0,
                at,
                self@,
                done,
                switch_bank(was, bank),
                switch_bank(was, bank) + read_back(image, reads, all),
                r,
            );
            if r is Err {
                lemma_fetched_back_none(
                    image,
                    reads,
                    0,
                    all,
                    made(s0, self@) - switch_bank(was, bank).len(),
                );
                assert(compared_metered(
                    s0,
                    self@,
                    image,
                    told,
                    meter.log(),
                    Err::<Step<VerifyStage, ()>, Error>(r->Err_0),
                    was,
                    reads,
                ));
            }
            done = done + switch_bank(was, bank);
            at = self@;
        }
        let was = r?;
        let ghost switch = switch_bank(was, bank);
        let ghost s1 = self@;
        let r = self.read_sections(firmware, meter);
        let ghost reads = choose|reads: Seq<ReadBack>|
            read_all_metered(at, self@, image, told, meter.log(), r, reads);
        let ghost read = switch + read_back(image, reads, all);
        let ghost whole = read + set_rom_bank(was) + post1();
        proof {
            lemma_step(s0, at, self@, done, read_back(image, reads, all), read, r);
            assert(done + read_back(image, reads, all) =~= read);
            if r is Err {
                assert(made(s0, self@) - switch.len() == made(s1, self@));
                assert(compared_metered(
                    s0,
                    self@,
                    image,
                    told,
                    meter.log(),
                    Err::<Step<VerifyStage, ()>, Error>(r->Err_0),
                    was,
                    reads,
                ));
            }
            done = read;
            at = self@;
        }
        let errors = r?;
        if errors.len() != 0 {
            let e = Error::VerifyMismatch(errors);
            proof {
                assert(compared_metered(
                    s0,
                    self@,
                    image,
                    told,
                    meter.log(),
                    Err::<Step<VerifyStage, ()>, Error>(e),
                    was,
                    reads,
                ));
            }
            return Err(e);
        }
        proof {
            assert(image.sections.take(all as int) =~= image.sections);
        }
        let r = self.cmd_set_rom_bank(was);
        proof {
            lemma_step(s0, at, self@, done, set_rom_bank(was), whole, r);
            if r is Err {
                lemma_fetched_back_all(image, reads, all, made(s0, self@) - switch.len());
                assert(compared_metered(
                    s0,
                    self@,
                    image,
                    told,
                    meter.log(),
                    Err::<Step<VerifyStage, ()>, Error>(r->Err_0),
                    was,
                    reads,
                ));
            }
            done = done + set_rom_bank(was);
            at = self@;
        }
        r?;
        let r = self.cmd_post1();
        proof {
            lemma_step(s0, at, self@, done, post1(), whole, r);
            if r is Err {
                lemma_fetched_back_all(image, reads, all, made(s0, self@) - switch.len());
                assert(compared_metered(
                    s0,
                    self@,
                    image,
                    told,
                    meter.log(),
                    Err::<Step<VerifyStage, ()>, Error>(r->Err_0),
                    was,
                    reads,
                ));
            }
        }
        r?;
        let r = Ok(Step::Pause { wait: Wait::Millis(SETTLE_MS), next: VerifyStage::Restore });
        proof {
            assert(compared_metered(s0, self@, image, told, meter.log(), r, was, reads));
        }
        r
    }

    /// One stage of verifying the configured bank against `firmware`. Every
    /// section is read back whole, and every byte that differs is found.
    /// The comparing stage reports each byte to `meter`, as one byte, once it
    /// has come; no other stage reports anything.
    ///
    /// Where bytes differ, the operation ends in the middle: the former bank
    /// is not selected again, and programming mode is not left.
    pub fn verify_flash<F: Fn(u64)>(
        &mut self,
        firmware: &Firmware,
        meter: &mut Meter<F>,
        stage: VerifyStage,
    ) -> (r: Result<Step<VerifyStage, ()>, Error>)
        requires
            old(self)@.idle(),
        ensures
            final(self)@.idle(),
            verify_step(old(self)@, final(self)@, firmware@, stage, r),
            verify_reports(
                old(self)@,
                final(self)@,
                firmware@,
                old(meter).log(),
                final(meter).log(),
                stage,
                r,
            ),
    {
        match stage {
            VerifyStage::Arm => {
                self.cmd_pre1()?;
                Ok(Step::Pause { wait: Wait::Millis(SETTLE_MS), next: VerifyStage::Unlock })
            },
            VerifyStage::Unlock => {
                self.cmd_pre2()?;
                Ok(Step::Pause { wait: Wait::Millis(SETTLE_MS), next: VerifyStage::Compare })
            },
            VerifyStage::Compare => self.compare(firmware, meter),
            VerifyStage::Restore => {
                self.cmd_post2()?;
                Ok(Step::Pause { wait: Wait::Millis(SETTLE_MS), next: VerifyStage::End })
            },
            VerifyStage::End => Ok(Step::Done(())),
        }
    }
}

} // verus!
