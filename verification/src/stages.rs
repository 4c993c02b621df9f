//! The flash operations as stages.
//!
//! The target needs time to settle between the parts of an operation. The
//! flasher never waits itself: each call runs one stage, up to the next
//! wait, and says how long to hold still and with which stage to go on.

use vstd::prelude::*;
use crate::error::Error;
use crate::firmware::Image;
use crate::layout::{Span, total_len};
use crate::link::{
    Link, cut_short, failed, lemma_aborted_at_the_failure, lemma_ran_all_succeeded, made, ran,
    refused, unfinished,
};
use crate::meter::ones;
use crate::protocol::{
    SavedRegisters, WRITE_FINISHED, chip_id, erase, fetched_in_block, handshake, handshake_accepted,
    lemma_block_fetched, post1, post2, pre1, pre2, read_block, reload_protection, set_rom_bank,
    switch_bank, write_page, write_status,
};
use crate::transport::{Event, drove, received};

verus! {

/// The time that the target needs after each part of entering and leaving
/// programming mode, and around an erase, in milliseconds.
pub const SETTLE_MS: u64 = 15;

/// The time that the target needs after a page write and after its status
/// check, in milliseconds.
pub const PAGE_SETTLE_MS: u64 = 5;

/// A time to hold still.
#[derive(Clone, Copy, PartialEq, Eq, Debug, Structural)]
pub enum Wait {
    Millis(u64),
    Micros(u64),
}

/// What an operation asks of its caller after a stage.
#[derive(PartialEq, Eq, Debug)]
pub enum Step<S, R> {
    /// Hold still for `wait`, then run the stage `next`.
    Pause { wait: Wait, next: S },
    /// The operation is over, with this result.
    Done(R),
}

/// The stages of a reset pulse.
#[derive(Clone, Copy, PartialEq, Eq, Debug, Structural)]
pub enum ResetStage {
    /// Pull the reset line.
    Assert,
    /// Let the reset line go.
    Release,
}

/// The stages of connecting.
#[derive(Clone, Copy, PartialEq, Eq, Debug, Structural)]
pub enum ConnectStage {
    /// Pull the reset line.
    Assert,
    /// Let the reset line go.
    Release,
    /// Shake hands with the bootloader and ask for the chip's identifier.
    Handshake,
}

/// The stages of reading the flash.
#[derive(Clone, Copy, PartialEq, Eq, Debug, Structural)]
pub enum ReadStage {
    /// First half of entering programming mode.
    Arm,
    /// Second half of entering programming mode.
    Unlock,
    /// Select the bank, read the bytes, select the former bank again.
    Transfer,
    /// First half of leaving programming mode.
    Rearm,
    /// Second half of leaving programming mode.
    Restore,
    /// Nothing is left to do.
    End,
}

/// The stages of erasing the flash.
#[derive(Clone, Copy, PartialEq, Eq, Debug, Structural)]
pub enum EraseStage {
    /// First half of entering programming mode.
    Arm,
    /// Second half of entering programming mode.
    Unlock,
    /// Select the bank and trigger the erase.
    Erase,
    /// Ask how the erase ended. `restore` is the bank selected before.
    Check { restore: u8 },
    /// Select the former bank again and guard the flash.
    Reload { restore: u8 },
    /// First half of leaving programming mode.
    Rearm,
    /// Second half of leaving programming mode.
    Restore,
    /// Nothing is left to do.
    End,
}

/// The stages of writing an image. A page is named by the index of its
/// section and the index of its first byte within that section.
#[derive(Clone, Copy, PartialEq, Eq, Debug, Structural)]
pub enum WriteStage {
    /// First half of entering programming mode.
    Arm,
    /// Second half of entering programming mode.
    Unlock,
    /// Select the bank and write the first page.
    Select,
    /// Ask how the write of this page ended. `restore` is the bank selected
    /// before.
    Check { restore: u8, section: usize, start: usize },
    /// Report this page as written and write the next one.
    Report { restore: u8, section: usize, start: usize },
    /// Second half of leaving programming mode.
    Restore,
    /// Nothing is left to do.
    End,
}

/// The stages of verifying the flash against an image.
#[derive(Clone, Copy, PartialEq, Eq, Debug, Structural)]
pub enum VerifyStage {
    /// First half of entering programming mode.
    Arm,
    /// Second half of entering programming mode.
    Unlock,
    /// Select the bank, read every section back and compare.
    Compare,
    /// Second half of leaving programming mode.
    Restore,
    /// Nothing is left to do.
    End,
}

/// A pause of `millis` milliseconds before the stage `next`.
pub open spec fn pause<S, R>(millis: u64, next: S) -> Step<S, R> {
    Step::Pause { wait: Wait::Millis(millis), next }
}

/// The two ways in which a stage that makes the requests `events` can end:
/// all of them succeeded and `next` is the step to take, or one of them
/// failed and its error came out.
pub open spec fn outcome<S, R>(
    pre: Link,
    post: Link,
    events: Seq<Event>,
    next: Step<S, R>,
    r: Result<Step<S, R>, Error>,
) -> bool {
    match r {
        Ok(step) => ran(pre, post, events) && step == next,
        Err(e) => failed(pre, post, events, e),
    }
}

/// The contract of one stage of a reset pulse.
pub open spec fn reset_step(
    pre: Link,
    post: Link,
    stage: ResetStage,
    r: Result<Step<ResetStage, ()>, Error>,
) -> bool {
    match stage {
        ResetStage::Assert => match r {
            Ok(step) => {
                &&& post == (Link { wire: pre.wire + seq![drove(true)], connected: false, ..pre })
                &&& step == pause::<ResetStage, ()>(
                    pre.settings.reset_duration_ms,
                    ResetStage::Release,
                )
            },
            Err(e) => failed(pre, post, seq![drove(true)], e),
        },
        ResetStage::Release => outcome(pre, post, seq![drove(false)], Step::Done(()), r),
    }
}

/// The contract of one stage of connecting.
pub open spec fn connect_step(
    pre: Link,
    post: Link,
    stage: ConnectStage,
    r: Result<Step<ConnectStage, u32>, Error>,
) -> bool {
    match stage {
        ConnectStage::Assert => match r {
            Ok(step) => {
                &&& post == (Link { wire: pre.wire + seq![drove(true)], connected: false, ..pre })
                &&& step == pause::<ConnectStage, u32>(
                    pre.settings.reset_duration_ms,
                    ConnectStage::Release,
                )
            },
            Err(e) => failed(pre, post, seq![drove(true)], e),
        },
        ConnectStage::Release => outcome(
            pre,
            post,
            seq![drove(false)],
            Step::Pause {
                wait: Wait::Micros(pre.settings.connect_duration_us),
                next: ConnectStage::Handshake,
            },
            r,
        ),
        ConnectStage::Handshake => {
            let shaken = Link { connected: true, ..pre };
            match r {
                Ok(step) => {
                    &&& step is Done
                    &&& ran(
                        shaken,
                        post,
                        handshake(handshake_accepted()) + chip_id(step->Done_0),
                    )
                },
                Err(e) => {
                    ||| refused(pre, post, e)
                    ||| failed(pre, post, handshake(handshake_accepted()), e)
                    ||| exists|id: u32|
                        {
                            &&& post.wire.len() > pre.wire.len() + 2
                            &&& failed(
                                shaken,
                                post,
                                handshake(handshake_accepted()) + chip_id(id),
                                e,
                            )
                        }
                },
            }
        },
    }
}

/// The contract of one stage of erasing.
pub open spec fn erase_step(
    pre: Link,
    post: Link,
    stage: EraseStage,
    r: Result<Step<EraseStage, ()>, Error>,
) -> bool {
    let bank = pre.settings.rom_bank.number();
    if !pre.may_alter() {
        r == Err::<Step<EraseStage, ()>, Error>(Error::NonMainBankErase) && post == pre
    } else {
        match stage {
            EraseStage::Arm => outcome(pre, post, pre1(), pause(SETTLE_MS, EraseStage::Unlock), r),
            EraseStage::Unlock => outcome(
                pre,
                post,
                pre2(),
                pause(SETTLE_MS, EraseStage::Erase),
                r,
            ),
            EraseStage::Erase => exists|was: u8|
                outcome(
                    pre,
                    post,
                    switch_bank(was, bank) + erase(),
                    pause(SETTLE_MS, EraseStage::Check { restore: was }),
                    r,
                ),
            EraseStage::Check { restore } => {
                ||| outcome(
                    pre,
                    post,
                    write_status(WRITE_FINISHED),
                    pause(SETTLE_MS, EraseStage::Reload { restore }),
                    r,
                )
                ||| r is Err && unfinished(pre, post, r->Err_0)
            },
            EraseStage::Reload { restore } => outcome(
                pre,
                post,
                set_rom_bank(restore) + reload_protection(),
                pause(SETTLE_MS, EraseStage::Rearm),
                r,
            ),
            EraseStage::Rearm => outcome(
                pre,
                post,
                post1(),
                pause(SETTLE_MS, EraseStage::Restore),
                r,
            ),
            EraseStage::Restore => outcome(
                pre,
                post,
                post2(),
                pause(SETTLE_MS, EraseStage::End),
                r,
            ),
            EraseStage::End => r == Ok::<Step<EraseStage, ()>, Error>(Step::Done(())) && post
                == pre,
        }
    }
}

/// How the transfer stage of reading can end, where `was` is the bank that
/// was selected before, `saved` is what the registers were found to hold, and
/// `bytes` is what the target delivered or, from a failure on, would have:
/// as many bytes as were asked for, and on success those that `data` holds
/// after.
pub open spec fn transferred(
    pre: Link,
    post: Link,
    offset: u16,
    after: Seq<u8>,
    r: Result<Step<ReadStage, ()>, Error>,
    was: u8,
    saved: SavedRegisters,
    bytes: Seq<u8>,
) -> bool {
    &&& bytes.len() == after.len()
    &&& r is Ok ==> bytes == after
    &&& outcome(
        pre,
        post,
        switch_bank(was, pre.settings.rom_bank.number()) + read_block(
            offset,
            saved,
            bytes,
        ) + set_rom_bank(was),
        pause(SETTLE_MS, ReadStage::Rearm),
        r,
    )
}

/// What a bulk read reports where a request fails: one byte for each byte
/// fetched in front of the failing request. `saved` is what the registers
/// were found to hold and `bytes` is what the target delivered or, from the
/// failure on, would have; `told` and `now` are the meter's record before and
/// after.
pub open spec fn block_failed(
    pre: Link,
    post: Link,
    offset: u16,
    count: nat,
    told: Seq<u64>,
    now: Seq<u64>,
    e: Error,
    saved: SavedRegisters,
    bytes: Seq<u8>,
) -> bool {
    &&& bytes.len() == count
    &&& failed(pre, post, read_block(offset, saved, bytes), e)
    &&& now == told + ones(fetched_in_block(offset, saved, count, made(pre, post)))
}

/// How the transfer stage of reading can end, with what it reports: one byte
/// for each byte read, and where a request fails, for each byte fetched in
/// front of it. `told` and `now` are the meter's record before and after.
pub open spec fn transferred_metered(
    pre: Link,
    post: Link,
    offset: u16,
    after: Seq<u8>,
    told: Seq<u64>,
    now: Seq<u64>,
    r: Result<Step<ReadStage, ()>, Error>,
    was: u8,
    saved: SavedRegisters,
    bytes: Seq<u8>,
) -> bool {
    &&& transferred(pre, post, offset, after, r, was, saved, bytes)
    &&& now == told + ones(
        if r is Ok {
            after.len()
        } else {
            fetched_in_block(
                offset,
                saved,
                after.len(),
                made(pre, post) - switch_bank(was, pre.settings.rom_bank.number()).len(),
            )
        },
    )
}

/// What one stage of reading reports: the transfer stage one byte for each
/// byte read, every other stage nothing.
pub open spec fn read_reports(
    pre: Link,
    post: Link,
    offset: u16,
    after: Seq<u8>,
    told: Seq<u64>,
    now: Seq<u64>,
    stage: ReadStage,
    r: Result<Step<ReadStage, ()>, Error>,
) -> bool {
    if stage is Transfer {
        exists|was: u8, saved: SavedRegisters, bytes: Seq<u8>|
            transferred_metered(pre, post, offset, after, told, now, r, was, saved, bytes)
    } else {
        now == told
    }
}

/// The contract of one stage of reading `data.len()` bytes from `offset` on;
/// `before` and `after` are what `data` held before and holds after.
pub open spec fn read_step(
    pre: Link,
    post: Link,
    offset: u16,
    before: Seq<u8>,
    after: Seq<u8>,
    stage: ReadStage,
    r: Result<Step<ReadStage, ()>, Error>,
) -> bool {
    let bank = pre.settings.rom_bank.number();
    &&& after.len() == before.len()
    &&& !(stage is Transfer) ==> after == before
    &&& match stage {
        ReadStage::Arm => outcome(pre, post, pre1(), pause(SETTLE_MS, ReadStage::Unlock), r),
        ReadStage::Unlock => outcome(pre, post, pre2(), pause(SETTLE_MS, ReadStage::Transfer), r),
        ReadStage::Transfer => exists|was: u8, saved: SavedRegisters, bytes: Seq<u8>|
            transferred(pre, post, offset, after, r, was, saved, bytes),
        ReadStage::Rearm => outcome(pre, post, post1(), pause(SETTLE_MS, ReadStage::Restore), r),
        ReadStage::Restore => outcome(pre, post, post2(), pause(SETTLE_MS, ReadStage::End), r),
        ReadStage::End => r == Ok::<Step<ReadStage, ()>, Error>(Step::Done(())) && post == pre,
    }
}

/// The first page of `image` at or behind the byte `start` of the section
/// `section`: its section and the index of its first byte there. Sections
/// without a byte at or behind that place are passed over.
pub open spec fn next_page(image: Image, section: nat, start: nat) -> Option<(nat, nat)>
    decreases image.sections.len() - section,
{
    if section >= image.sections.len() {
        None
    } else if start < image.sections[section as int].len() {
        Some((section, start))
    } else {
        next_page(image, section + 1, 0)
    }
}

/// The bytes of the page that begins at the byte `start` of a section: a
/// page's worth, or what is left of the section.
pub open spec fn page_bytes(image: Image, section: nat, start: nat) -> Seq<u8> {
    let data = image.sections[section as int].data;
    if start + image.page_size <= data.len() {
        data.subrange(start as int, (start + image.page_size) as int)
    } else {
        data.subrange(start as int, data.len() as int)
    }
}

/// The index, among all pages of the flash, of the page that begins at the
/// byte `start` of a section.
pub open spec fn page_index(image: Image, section: nat, start: nat) -> nat {
    image.sections[section as int].offset / image.page_size + start / image.page_size
}

/// What writing goes on with from a place in the image: the next page is
/// written, or, where none is left, the former bank is selected again and
/// the first half of leaving programming mode is done.
pub open spec fn onward(image: Image, restore: u8, section: nat, start: nat) -> Seq<Event> {
    match next_page(image, section, start) {
        Some((s, at)) => write_page(page_index(image, s, at), page_bytes(image, s, at)),
        None => set_rom_bank(restore) + post1(),
    }
}

/// The pause and the stage that follow `onward`.
pub open spec fn onward_step(image: Image, restore: u8, section: nat, start: nat) -> Step<
    WriteStage,
    (),
> {
    match next_page(image, section, start) {
        Some((s, at)) => pause(
            PAGE_SETTLE_MS,
            WriteStage::Check { restore, section: s as usize, start: at as usize },
        ),
        None => pause(SETTLE_MS, WriteStage::Restore),
    }
}

/// The reports that one stage of writing makes: the stage that follows a
/// page's check reports that page, with the number of its bytes, before it
/// goes on. Every other stage reports nothing, and so does a stage that is
/// refused.
pub open spec fn reports_of(pre: Link, image: Image, stage: WriteStage) -> Seq<u64> {
    match stage {
        WriteStage::Report { restore, section, start } => if pre.may_alter() && section
            < image.sections.len() && start < image.sections[section as int].len() {
            seq![page_bytes(image, section as nat, start as nat).len() as u64]
        } else {
            Seq::empty()
        },
        _ => Seq::empty(),
    }
}

/// What one stage of writing reports, however it ends: the stage that
/// follows a page's check makes one report, the number of bytes of that
/// page, and every other stage, and every stage that is refused, makes
/// none. `told` and `now` are the meter's record before and after.
pub open spec fn write_reports(
    pre: Link,
    image: Image,
    told: Seq<u64>,
    now: Seq<u64>,
    stage: WriteStage,
) -> bool {
    match stage {
        WriteStage::Report { restore, section, start } => if pre.may_alter() && section
            < image.sections.len() && start < image.sections[section as int].len() {
            now == told.push(page_bytes(image, section as nat, start as nat).len() as u64)
        } else {
            now == told
        },
        _ => now == told,
    }
}

/// What a stage of writing leaves in the record is what was there with the
/// reports of that stage behind it.
pub proof fn lemma_reports_of(
    pre: Link,
    image: Image,
    told: Seq<u64>,
    now: Seq<u64>,
    stage: WriteStage,
)
    requires
        write_reports(pre, image, told, now, stage),
    ensures
        now == told + reports_of(pre, image, stage),
{
    assert(now =~= told + reports_of(pre, image, stage));
}

/// The contract of one stage of writing `image`.
pub open spec fn write_step(
    pre: Link,
    post: Link,
    image: Image,
    stage: WriteStage,
    r: Result<Step<WriteStage, ()>, Error>,
) -> bool {
    let bank = pre.settings.rom_bank.number();
    if !pre.may_alter() {
        r == Err::<Step<WriteStage, ()>, Error>(Error::NonMainBankWrite) && post == pre
    } else {
        match stage {
            WriteStage::Arm => outcome(pre, post, pre1(), pause(SETTLE_MS, WriteStage::Unlock), r),
            WriteStage::Unlock => outcome(
                pre,
                post,
                pre2(),
                pause(SETTLE_MS, WriteStage::Select),
                r,
            ),
            WriteStage::Select => exists|was: u8|
                outcome(
                    pre,
                    post,
                    switch_bank(was, bank) + onward(image, was, 0, 0),
                    onward_step(image, was, 0, 0),
                    r,
                ),
            WriteStage::Check { restore, section, start } => {
                ||| outcome(
                    pre,
                    post,
                    write_status(WRITE_FINISHED),
                    pause(PAGE_SETTLE_MS, WriteStage::Report { restore, section, start }),
                    r,
                )
                ||| r is Err && unfinished(pre, post, r->Err_0)
            },
            WriteStage::Report { restore, section, start } => outcome(
                pre,
                post,
                onward(image, restore, section as nat, start as nat + image.page_size),
                onward_step(image, restore, section as nat, start as nat + image.page_size),
                r,
            ),
            WriteStage::Restore => outcome(
                pre,
                post,
                post2(),
                pause(SETTLE_MS, WriteStage::End),
                r,
            ),
            WriteStage::End => r == Ok::<Step<WriteStage, ()>, Error>(Step::Done(())) && post
                == pre,
        }
    }
}

/// What came back when one section was read: the registers as they were
/// found, and the bytes.
pub struct ReadBack {
    pub saved: SavedRegisters,
    pub data: Seq<u8>,
}

/// Reading one section back in a bulk read, which came back as `read`. The
/// bulk read begins at the section's offset as far as it fits sixteen bits.
pub open spec fn reading(section: Span, read: ReadBack) -> Seq<Event> {
    read_block((section.offset % 65536) as u16, read.saved, read.data)
}

/// How reading one section back can end, where `read` is what it was read
/// back as, or, from a failure on, would have been: it was read, and the
/// offsets of the bytes that differ have been added to those found
/// `earlier`; or a request failed, and no offset has been added.
pub open spec fn read_one(
    pre: Link,
    post: Link,
    section: Span,
    earlier: Seq<usize>,
    errors: Seq<usize>,
    r: Result<(), Error>,
    read: ReadBack,
) -> bool {
    &&& read.data.len() == section.len()
    &&& match r {
        Ok(()) => {
            &&& ran(pre, post, reading(section, read))
            &&& errors == earlier + differing(
                section.offset,
                section.data,
                read.data,
                section.len(),
            )
        },
        Err(e) => failed(pre, post, reading(section, read), e) && errors == earlier,
    }
}

/// How reading one section back can end, with what it reports: one byte for
/// each byte read, and where a request fails, for each byte fetched in front
/// of it. `told` and `now` are the meter's record before and after.
pub open spec fn read_one_metered(
    pre: Link,
    post: Link,
    section: Span,
    earlier: Seq<usize>,
    errors: Seq<usize>,
    told: Seq<u64>,
    now: Seq<u64>,
    r: Result<(), Error>,
    read: ReadBack,
) -> bool {
    &&& read_one(pre, post, section, earlier, errors, r, read)
    &&& now == told + ones(
        if r is Ok {
            section.len()
        } else {
            fetched_in_block(
                (section.offset % 65536) as u16,
                read.saved,
                section.len(),
                made(pre, post),
            )
        },
    )
}

/// Reading the sections of `image` with the indices `from` up to but not
/// including `to` back, one bulk read for each, which came back as `reads`
/// has it. A bulk read begins at the section's offset as far as it fits
/// sixteen bits.
pub open spec fn read_range(image: Image, reads: Seq<ReadBack>, from: nat, to: nat) -> Seq<Event>
    decreases to,
{
    if to <= from {
        Seq::empty()
    } else {
        let k = (to - 1) as int;
        read_range(image, reads, from, (to - 1) as nat) + reading(image.sections[k], reads[k])
    }
}

/// Reading the first `count` sections of `image` back.
pub open spec fn read_back(image: Image, reads: Seq<ReadBack>, count: nat) -> Seq<Event> {
    read_range(image, reads, 0, count)
}

/// The offsets, ascending, of the first `count` bytes of `want` that differ
/// from the byte at the same index of `got`, counted from `offset`.
pub open spec fn differing(offset: nat, want: Seq<u8>, got: Seq<u8>, count: nat) -> Seq<usize>
    decreases count,
{
    if count == 0 {
        Seq::empty()
    } else {
        let j = (count - 1) as int;
        let before = differing(offset, want, got, (count - 1) as nat);
        if want[j] != got[j] {
            before.push((offset + j) as usize)
        } else {
            before
        }
    }
}

/// The offsets at which the first `count` sections of `image` differ from
/// what was read back, section by section.
pub open spec fn mismatches(image: Image, reads: Seq<ReadBack>, count: nat) -> Seq<usize>
    decreases count,
{
    if count == 0 {
        Seq::empty()
    } else {
        let k = (count - 1) as int;
        mismatches(image, reads, (count - 1) as nat) + differing(
            image.sections[k].offset,
            image.sections[k].data,
            reads[k].data,
            image.sections[k].len(),
        )
    }
}

/// `reads` holds one read for each section of `image`, of that section's
/// length.
pub open spec fn reads_match(image: Image, reads: Seq<ReadBack>) -> bool {
    &&& reads.len() == image.sections.len()
    &&& forall|k: int|
        0 <= k < reads.len() ==> (#[trigger] reads[k]).data.len() == image.sections[k].len()
}

/// How reading every section of `image` back can end, where `reads` is what
/// the sections were read back as, or, from a failure on, would have been:
/// all were read, and `r` holds the offsets of the bytes that differ; or a
/// request failed.
pub open spec fn read_all(
    pre: Link,
    post: Link,
    image: Image,
    r: Result<Vec<usize>, Error>,
    reads: Seq<ReadBack>,
) -> bool {
    let all = image.sections.len();
    &&& reads_match(image, reads)
    &&& match r {
        Ok(errors) => {
            &&& ran(pre, post, read_back(image, reads, all))
            &&& errors@ == mismatches(image, reads, all)
        },
        Err(e) => failed(pre, post, read_back(image, reads, all), e),
    }
}

/// The number of bytes that reading the first `count` sections back has
/// fetched when `made` of its requests have succeeded: all bytes of the
/// sections whose bulk read is over, and of the one whose bulk read is under
/// way, those fetched so far.
pub open spec fn fetched_back(image: Image, reads: Seq<ReadBack>, count: nat, made: int) -> nat
    decreases count,
{
    if count == 0 {
        0
    } else {
        let k = (count - 1) as int;
        fetched_back(image, reads, (count - 1) as nat, made) + fetched_in_block(
            (image.sections[k].offset % 65536) as u16,
            reads[k].saved,
            image.sections[k].len(),
            made - read_back(image, reads, (count - 1) as nat).len(),
        )
    }
}

/// How reading every section back can end, with what it reports: one byte
/// for each byte read, and where a request fails, for each byte fetched in
/// front of it.
pub open spec fn read_all_metered(
    pre: Link,
    post: Link,
    image: Image,
    told: Seq<u64>,
    now: Seq<u64>,
    r: Result<Vec<usize>, Error>,
    reads: Seq<ReadBack>,
) -> bool {
    &&& read_all(pre, post, image, r, reads)
    &&& now == told + ones(
        if r is Ok {
            total_len(image.sections)
        } else {
            fetched_back(image, reads, image.sections.len(), made(pre, post))
        },
    )
}

/// How comparing a bank with `image` can end, with what it reports: one byte
/// for each byte read back, and where a request fails, for each byte fetched
/// in front of it.
pub open spec fn compared_metered(
    pre: Link,
    post: Link,
    image: Image,
    told: Seq<u64>,
    now: Seq<u64>,
    r: Result<Step<VerifyStage, ()>, Error>,
    was: u8,
    reads: Seq<ReadBack>,
) -> bool {
    let all = image.sections.len();
    let switch = switch_bank(was, pre.settings.rom_bank.number());
    &&& compared_with(pre, post, image, r, was, reads)
    &&& now == told + ones(
        if r is Ok || ran(pre, post, switch + read_back(image, reads, all)) {
            total_len(image.sections)
        } else {
            fetched_back(image, reads, all, made(pre, post) - switch.len())
        },
    )
}

/// What one stage of verifying reports: the comparing stage one byte for
/// each byte read back, every other stage nothing.
pub open spec fn verify_reports(
    pre: Link,
    post: Link,
    image: Image,
    told: Seq<u64>,
    now: Seq<u64>,
    stage: VerifyStage,
    r: Result<Step<VerifyStage, ()>, Error>,
) -> bool {
    if stage is Compare {
        exists|was: u8, reads: Seq<ReadBack>|
            compared_metered(pre, post, image, told, now, r, was, reads)
    } else {
        now == told
    }
}

/// How comparing a bank with `image` can end, where `was` is the bank that
/// was selected before and `reads` is what the sections were read back as:
/// every section was read back and no byte differs, and the stage goes on to
/// leave programming mode; every section was read back and bytes differ, and
/// their offsets come out as an error; or a request failed, while the
/// sections were read or behind them.
pub open spec fn compared_with(
    pre: Link,
    post: Link,
    image: Image,
    r: Result<Step<VerifyStage, ()>, Error>,
    was: u8,
    reads: Seq<ReadBack>,
) -> bool {
    let all = image.sections.len();
    let reading = switch_bank(was, pre.settings.rom_bank.number()) + read_back(
        image,
        reads,
        all,
    );
    &&& reads_match(image, reads)
    &&& match r {
        Ok(step) => {
            &&& mismatches(image, reads, all).len() == 0
            &&& ran(pre, post, reading + set_rom_bank(was) + post1())
            &&& step == pause::<VerifyStage, ()>(SETTLE_MS, VerifyStage::Restore)
        },
        Err(e) => {
            ||| {
                &&& ran(pre, post, reading)
                &&& e is VerifyMismatch
                &&& e->VerifyMismatch_0@ == mismatches(image, reads, all)
                &&& e->VerifyMismatch_0@.len() > 0
            }
            ||| failed(pre, post, reading, e)
            ||| {
                &&& mismatches(image, reads, all).len() == 0
                &&& failed(pre, post, reading + set_rom_bank(was) + post1(), e)
            }
        },
    }
}

/// How comparing a bank with `image` can end.
pub open spec fn compared(
    pre: Link,
    post: Link,
    image: Image,
    r: Result<Step<VerifyStage, ()>, Error>,
) -> bool {
    exists|was: u8, reads: Seq<ReadBack>| compared_with(pre, post, image, r, was, reads)
}

/// The contract of one stage of verifying the flash against `image`.
pub open spec fn verify_step(
    pre: Link,
    post: Link,
    image: Image,
    stage: VerifyStage,
    r: Result<Step<VerifyStage, ()>, Error>,
) -> bool {
    match stage {
        VerifyStage::Arm => outcome(pre, post, pre1(), pause(SETTLE_MS, VerifyStage::Unlock), r),
        VerifyStage::Unlock => outcome(
            pre,
            post,
            pre2(),
            pause(SETTLE_MS, VerifyStage::Compare),
            r,
        ),
        VerifyStage::Compare => compared(pre, post, image, r),
        VerifyStage::Restore => outcome(pre, post, post2(), pause(SETTLE_MS, VerifyStage::End), r),
        VerifyStage::End => post == pre && r == Ok::<Step<VerifyStage, ()>, Error>(Step::Done(())),
    }
}

/// Among the first `count` bytes none differs exactly where each of them is
/// the same on both sides.
pub proof fn lemma_differing_none(offset: nat, want: Seq<u8>, got: Seq<u8>, count: nat)
    ensures
        differing(offset, want, got, count).len() == 0 <==> forall|j: int|
            0 <= j < count ==> want[j] == got[j],
    decreases count,
{
    if count > 0 {
        lemma_differing_none(offset, want, got, (count - 1) as nat);
    }
}

/// Comparing finds no offset exactly where every section was read back as
/// the image has it: a target that gives back the bytes that were written
/// passes, and no other does.
pub proof fn lemma_mismatches_none(image: Image, reads: Seq<ReadBack>, count: nat)
    requires
        reads_match(image, reads),
        count <= image.sections.len(),
    ensures
        mismatches(image, reads, count).len() == 0 <==> forall|k: int|
            0 <= k < count ==> (#[trigger] reads[k]).data == image.sections[k].data,
    decreases count,
{
    if count > 0 {
        let k = (count - 1) as int;
        let want = image.sections[k].data;
        let got = reads[k].data;
        lemma_mismatches_none(image, reads, (count - 1) as nat);
        lemma_differing_none(image.sections[k].offset, want, got, image.sections[k].len());
        assert(got.len() == want.len());
        if forall|j: int| 0 <= j < want.len() ==> want[j] == got[j] {
            assert(got =~= want);
        }
    }
}

/// Reading sections back, and what differs there, depend on the reads of
/// those sections alone.
pub proof fn lemma_reads_prefix(image: Image, a: Seq<ReadBack>, b: Seq<ReadBack>, count: nat)
    requires
        count <= a.len(),
        count <= b.len(),
        forall|i: int| 0 <= i < count ==> a[i] == b[i],
    ensures
        read_back(image, a, count) == read_back(image, b, count),
        mismatches(image, a, count) == mismatches(image, b, count),
    decreases count,
{
    if count > 0 {
        lemma_reads_prefix(image, a, b, (count - 1) as nat);
    }
}

/// Once the first `count` sections have been read back, all their bytes have
/// been fetched.
pub proof fn lemma_fetched_back_all(image: Image, reads: Seq<ReadBack>, count: nat, made: int)
    requires
        count <= image.sections.len(),
        reads_match(image, reads),
        made >= read_back(image, reads, count).len(),
    ensures
        fetched_back(image, reads, count, made) == total_len(image.sections.take(count as int)),
    decreases count,
{
    let taken = image.sections.take(count as int);
    if count > 0 {
        let k = (count - 1) as int;
        lemma_fetched_back_all(image, reads, (count - 1) as nat, made);
        lemma_block_fetched(
            (image.sections[k].offset % 65536) as u16,
            reads[k].saved,
            reads[k].data,
            made - read_back(image, reads, (count - 1) as nat).len(),
        );
        assert(taken.drop_last() =~= image.sections.take(k));
        assert(taken.last() == image.sections[k]);
    }
}

/// Sections whose bulk read has not begun have had no byte fetched.
pub proof fn lemma_fetched_back_none(
    image: Image,
    reads: Seq<ReadBack>,
    from: nat,
    count: nat,
    made: int,
)
    requires
        from <= count,
        made < read_back(image, reads, from).len(),
    ensures
        fetched_back(image, reads, count, made) == fetched_back(image, reads, from, made),
    decreases count,
{
    if count > from {
        lemma_fetched_back_none(image, reads, from, (count - 1) as nat, made);
        lemma_read_range_split(image, reads, 0, from, (count - 1) as nat);
    }
}

/// Reading a range of sections back is reading its front and then its back.
pub proof fn lemma_read_range_split(
    image: Image,
    reads: Seq<ReadBack>,
    from: nat,
    mid: nat,
    to: nat,
)
    requires
        from <= mid <= to,
    ensures
        read_range(image, reads, from, to) == read_range(image, reads, from, mid) + read_range(
            image,
            reads,
            mid,
            to,
        ),
    decreases to,
{
    if to == mid {
        assert(read_range(image, reads, from, mid) + Seq::<Event>::empty() =~= read_range(
            image,
            reads,
            from,
            mid,
        ));
    } else {
        lemma_read_range_split(image, reads, from, mid, (to - 1) as nat);
        let k = (to - 1) as int;
        let last = reading(image.sections[k], reads[k]);
        assert(read_range(image, reads, from, mid) + read_range(image, reads, mid, (to - 1) as nat)
            + last =~= read_range(image, reads, from, mid) + (read_range(
            image,
            reads,
            mid,
            (to - 1) as nat,
        ) + last));
    }
}

/// A request that fails ends a stage: it is the last request made, and its
/// error is the stage's.
pub proof fn lemma_outcome_stops_at_failure<S, R>(
    pre: Link,
    post: Link,
    events: Seq<Event>,
    next: Step<S, R>,
    r: Result<Step<S, R>, Error>,
    i: int,
)
    requires
        outcome(pre, post, events, next, r),
        pre.wire.len() <= i < post.wire.len(),
        post.wire[i].reply is Err,
    ensures
        i == post.wire.len() - 1,
        r is Err,
        post.wire[i].reply == Err::<Seq<u8>, Error>(r->Err_0),
{
    match r {
        Ok(step) => lemma_ran_all_succeeded(pre, post, events, i),
        Err(e) => lemma_aborted_at_the_failure(pre, post, e, i),
    }
}

/// A request that fails ends the stage of a reset pulse: it is the last
/// request made, and its error is the stage's.
pub proof fn lemma_reset_stops_at_failure(
    pre: Link,
    post: Link,
    stage: ResetStage,
    r: Result<Step<ResetStage, ()>, Error>,
    i: int,
)
    requires
        reset_step(pre, post, stage, r),
        pre.wire.len() <= i < post.wire.len(),
        post.wire[i].reply is Err,
    ensures
        i == post.wire.len() - 1,
        r is Err,
        post.wire[i].reply == Err::<Seq<u8>, Error>(r->Err_0),
{
    match stage {
        ResetStage::Assert => match r {
            Ok(step) => {},
            Err(e) => lemma_aborted_at_the_failure(pre, post, e, i),
        },
        ResetStage::Release => lemma_outcome_stops_at_failure(
            pre,
            post,
            seq![drove(false)],
            Step::Done(()),
            r,
            i,
        ),
    }
}

/// A request that fails ends the stage of connecting: it is the last request
/// made, and its error is the stage's.
pub proof fn lemma_connect_stops_at_failure(
    pre: Link,
    post: Link,
    stage: ConnectStage,
    r: Result<Step<ConnectStage, u32>, Error>,
    i: int,
)
    requires
        connect_step(pre, post, stage, r),
        pre.wire.len() <= i < post.wire.len(),
        post.wire[i].reply is Err,
    ensures
        i == post.wire.len() - 1,
        r is Err,
        post.wire[i].reply == Err::<Seq<u8>, Error>(r->Err_0),
{
    let shaken = Link { connected: true, ..pre };
    match stage {
        ConnectStage::Assert => match r {
            Ok(step) => {},
            Err(e) => lemma_aborted_at_the_failure(pre, post, e, i),
        },
        ConnectStage::Release => lemma_outcome_stops_at_failure(
            pre,
            post,
            seq![drove(false)],
            Step::Pause {
                wait: Wait::Micros(pre.settings.connect_duration_us),
                next: ConnectStage::Handshake,
            },
            r,
            i,
        ),
        ConnectStage::Handshake => match r {
            Ok(step) => lemma_ran_all_succeeded(
                shaken,
                post,
                handshake(handshake_accepted()) + chip_id(step->Done_0),
                i,
            ),
            Err(e) => {
                if refused(pre, post, e) {
                    lemma_ran_all_succeeded(
                        pre,
                        post,
                        handshake(e->HandshakeResponseMismatch_0@),
                        i,
                    );
                } else if failed(pre, post, handshake(handshake_accepted()), e) {
                    lemma_aborted_at_the_failure(pre, post, e, i);
                } else {
                    lemma_aborted_at_the_failure(shaken, post, e, i);
                }
            },
        },
    }
}

/// An answer to the handshake that is not four `0xFF` ends connecting with
/// the error that carries it, and nothing is asked of the target after it:
/// the chip's identifier is not fetched.
pub proof fn lemma_refused_handshake_ends_connecting(
    pre: Link,
    post: Link,
    r: Result<Step<ConnectStage, u32>, Error>,
    reply: Seq<u8>,
)
    requires
        pre.batch_depth == 0,
        connect_step(pre, post, ConnectStage::Handshake, r),
        post.wire.len() >= pre.wire.len() + 2,
        post.wire[pre.wire.len() as int + 1] == received(reply),
        reply != handshake_accepted(),
    ensures
        r is Err,
        r->Err_0 is HandshakeResponseMismatch,
        r->Err_0->HandshakeResponseMismatch_0@ == reply,
        post.wire == pre.wire + handshake(reply),
        post.connected == pre.connected,
{
    reveal(handshake);
    let shaken = Link { connected: true, ..pre };
    let accepted = handshake(handshake_accepted());
    let at = pre.wire.len() as int + 1;
    assert(received(handshake_accepted()).reply != received(reply).reply);
    match r {
        Ok(step) => {
            let plan = accepted + chip_id(step->Done_0);
            assert(post.wire[at] == plan[1]);
            assert(plan[1] == accepted[1]);
            assert(false);
        },
        Err(e) => {
            if refused(pre, post, e) {
                let given = e->HandshakeResponseMismatch_0@;
                assert(post.wire[at] == handshake(given)[1]);
                assert(received(given).reply == received(reply).reply);
            } else if failed(pre, post, accepted, e) {
                let count = post.wire.len() - pre.wire.len() - 1;
                assert(post.wire[at] == cut_short(accepted, count, e)[1]);
                assert(false);
            } else {
                let id = choose|id: u32|
                    post.wire.len() > pre.wire.len() + 2 && failed(
                        shaken,
                        post,
                        accepted + chip_id(id),
                        e,
                    );
                let plan = accepted + chip_id(id);
                let count = post.wire.len() - pre.wire.len() - 1;
                assert(post.wire[at] == cut_short(plan, count, e)[1]);
                assert(cut_short(plan, count, e)[1] == plan[1]);
                assert(plan[1] == accepted[1]);
                assert(false);
            }
        },
    }
}

/// A request that fails ends the stage of reading: it is the last request
/// made, and its error is the stage's.
pub proof fn lemma_read_stops_at_failure(
    pre: Link,
    post: Link,
    offset: u16,
    before: Seq<u8>,
    after: Seq<u8>,
    stage: ReadStage,
    r: Result<Step<ReadStage, ()>, Error>,
    i: int,
)
    requires
        read_step(pre, post, offset, before, after, stage, r),
        pre.wire.len() <= i < post.wire.len(),
        post.wire[i].reply is Err,
    ensures
        i == post.wire.len() - 1,
        r is Err,
        post.wire[i].reply == Err::<Seq<u8>, Error>(r->Err_0),
{
    let bank = pre.settings.rom_bank.number();
    match stage {
        ReadStage::Arm => lemma_outcome_stops_at_failure(
            pre,
            post,
            pre1(),
            pause(SETTLE_MS, ReadStage::Unlock),
            r,
            i,
        ),
        ReadStage::Unlock => lemma_outcome_stops_at_failure(
            pre,
            post,
            pre2(),
            pause(SETTLE_MS, ReadStage::Transfer),
            r,
            i,
        ),
        ReadStage::Transfer => {
            let (was, saved, bytes) = choose|was: u8, saved: SavedRegisters, bytes: Seq<u8>|
                transferred(pre, post, offset, after, r, was, saved, bytes);
            lemma_outcome_stops_at_failure(
                pre,
                post,
                switch_bank(was, bank) + read_block(offset, saved, bytes)
                    + set_rom_bank(was),
                pause(SETTLE_MS, ReadStage::Rearm),
                r,
                i,
            );
        },
        ReadStage::Rearm => lemma_outcome_stops_at_failure(
            pre,
            post,
            post1(),
            pause(SETTLE_MS, ReadStage::Restore),
            r,
            i,
        ),
        ReadStage::Restore => lemma_outcome_stops_at_failure(
            pre,
            post,
            post2(),
            pause(SETTLE_MS, ReadStage::End),
            r,
            i,
        ),
        ReadStage::End => {},
    }
}

/// A request that fails ends the stage of erasing: it is the last request
/// made, and its error is the stage's.
pub proof fn lemma_erase_stops_at_failure(
    pre: Link,
    post: Link,
    stage: EraseStage,
    r: Result<Step<EraseStage, ()>, Error>,
    i: int,
)
    requires
        erase_step(pre, post, stage, r),
        pre.wire.len() <= i < post.wire.len(),
        post.wire[i].reply is Err,
    ensures
        i == post.wire.len() - 1,
        r is Err,
        post.wire[i].reply == Err::<Seq<u8>, Error>(r->Err_0),
{
    let bank = pre.settings.rom_bank.number();
    if pre.may_alter() {
        match stage {
            EraseStage::Arm => lemma_outcome_stops_at_failure(
                pre,
                post,
                pre1(),
                pause(SETTLE_MS, EraseStage::Unlock),
                r,
                i,
            ),
            EraseStage::Unlock => lemma_outcome_stops_at_failure(
                pre,
                post,
                pre2(),
                pause(SETTLE_MS, EraseStage::Erase),
                r,
                i,
            ),
            EraseStage::Erase => {
                let was = choose|was: u8|
                    outcome(
                        pre,
                        post,
                        switch_bank(was, bank) + erase(),
                        pause(SETTLE_MS, EraseStage::Check { restore: was }),
                        r,
                    );
                lemma_outcome_stops_at_failure(
                    pre,
                    post,
                    switch_bank(was, bank) + erase(),
                    pause(SETTLE_MS, EraseStage::Check { restore: was }),
                    r,
                    i,
                );
            },
            EraseStage::Check { restore } => {
                if r is Err && unfinished(pre, post, r->Err_0) {
                    lemma_ran_all_succeeded(
                        pre,
                        post,
                        write_status(r->Err_0->WriteCheckError_0),
                        i,
                    );
                } else {
                    lemma_outcome_stops_at_failure(
                        pre,
                        post,
                        write_status(WRITE_FINISHED),
                        pause(SETTLE_MS, EraseStage::Reload { restore }),
                        r,
                        i,
                    );
                }
            },
            EraseStage::Reload { restore } => lemma_outcome_stops_at_failure(
                pre,
                post,
                set_rom_bank(restore) + reload_protection(),
                pause(SETTLE_MS, EraseStage::Rearm),
                r,
                i,
            ),
            EraseStage::Rearm => lemma_outcome_stops_at_failure(
                pre,
                post,
                post1(),
                pause(SETTLE_MS, EraseStage::Restore),
                r,
                i,
            ),
            EraseStage::Restore => lemma_outcome_stops_at_failure(
                pre,
                post,
                post2(),
                pause(SETTLE_MS, EraseStage::End),
                r,
                i,
            ),
            EraseStage::End => {},
        }
    }
}

/// A request that fails ends the stage of writing: it is the last request
/// made, and its error is the stage's.
pub proof fn lemma_write_stops_at_failure(
    pre: Link,
    post: Link,
    image: Image,
    stage: WriteStage,
    r: Result<Step<WriteStage, ()>, Error>,
    i: int,
)
    requires
        write_step(pre, post, image, stage, r),
        pre.wire.len() <= i < post.wire.len(),
        post.wire[i].reply is Err,
    ensures
        i == post.wire.len() - 1,
        r is Err,
        post.wire[i].reply == Err::<Seq<u8>, Error>(r->Err_0),
{
    let bank = pre.settings.rom_bank.number();
    if pre.may_alter() {
        match stage {
            WriteStage::Arm => lemma_outcome_stops_at_failure(
                pre,
                post,
                pre1(),
                pause(SETTLE_MS, WriteStage::Unlock),
                r,
                i,
            ),
            WriteStage::Unlock => lemma_outcome_stops_at_failure(
                pre,
                post,
                pre2(),
                pause(SETTLE_MS, WriteStage::Select),
                r,
                i,
            ),
            WriteStage::Select => {
                let was = choose|was: u8|
                    outcome(
                        pre,
                        post,
                        switch_bank(was, bank) + onward(image, was, 0, 0),
                        onward_step(image, was, 0, 0),
                        r,
                    );
                lemma_outcome_stops_at_failure(
                    pre,
                    post,
                    switch_bank(was, bank) + onward(image, was, 0, 0),
                    onward_step(image, was, 0, 0),
                    r,
                    i,
                );
            },
            WriteStage::Check { restore, section, start } => {
                if r is Err && unfinished(pre, post, r->Err_0) {
                    lemma_ran_all_succeeded(
                        pre,
                        post,
                        write_status(r->Err_0->WriteCheckError_0),
                        i,
                    );
                } else {
                    lemma_outcome_stops_at_failure(
                        pre,
                        post,
                        write_status(WRITE_FINISHED),
                        pause(PAGE_SETTLE_MS, WriteStage::Report { restore, section, start }),
                        r,
                        i,
                    );
                }
            },
            WriteStage::Report { restore, section, start } => lemma_outcome_stops_at_failure(
                pre,
                post,
                onward(image, restore, section as nat, start as nat + image.page_size),
                onward_step(image, restore, section as nat, start as nat + image.page_size),
                r,
                i,
            ),
            WriteStage::Restore => lemma_outcome_stops_at_failure(
                pre,
                post,
                post2(),
                pause(SETTLE_MS, WriteStage::End),
                r,
                i,
            ),
            WriteStage::End => {},
        }
    }
}

/// A request that fails ends the stage of verifying: it is the last request
/// made, and its error is the stage's.
pub proof fn lemma_verify_stops_at_failure(
    pre: Link,
    post: Link,
    image: Image,
    stage: VerifyStage,
    r: Result<Step<VerifyStage, ()>, Error>,
    i: int,
)
    requires
        verify_step(pre, post, image, stage, r),
        pre.wire.len() <= i < post.wire.len(),
        post.wire[i].reply is Err,
    ensures
        i == post.wire.len() - 1,
        r is Err,
        post.wire[i].reply == Err::<Seq<u8>, Error>(r->Err_0),
{
    let bank = pre.settings.rom_bank.number();
    let all = image.sections.len();
    match stage {
        VerifyStage::Arm => lemma_outcome_stops_at_failure(
            pre,
            post,
            pre1(),
            pause(SETTLE_MS, VerifyStage::Unlock),
            r,
            i,
        ),
        VerifyStage::Unlock => lemma_outcome_stops_at_failure(
            pre,
            post,
            pre2(),
            pause(SETTLE_MS, VerifyStage::Compare),
            r,
            i,
        ),
        VerifyStage::Compare => {
            let (was, reads) = choose|was: u8, reads: Seq<ReadBack>|
                compared_with(pre, post, image, r, was, reads);
            let reading = switch_bank(was, bank) + read_back(image, reads, all);
            match r {
                Ok(step) => lemma_ran_all_succeeded(
                    pre,
                    post,
                    reading + set_rom_bank(was) + post1(),
                    i,
                ),
                Err(e) => {
                    if ran(pre, post, reading) {
                        lemma_ran_all_succeeded(pre, post, reading, i);
                    } else {
                        lemma_aborted_at_the_failure(pre, post, e, i);
                    }
                },
            }
        },
        VerifyStage::Restore => lemma_outcome_stops_at_failure(
            pre,
            post,
            post2(),
            pause(SETTLE_MS, VerifyStage::End),
            r,
            i,
        ),
        VerifyStage::End => {},
    }
}

} // verus!
