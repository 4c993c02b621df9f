//! Whole operations: what the stages of an operation add up to when they
//! are run one after the other, each with the stage that the one before it
//! named, and every request succeeds; and what a run of writing has
//! reported wherever it stopped.

use vstd::prelude::*;
use crate::error::Error;
use vstd::arithmetic::div_mod::{lemma_mod_self_0, lemma_small_mod};
use crate::layout::{Span, lemma_round_shift, page_aligned, total_len};
use crate::link::{Link, lemma_ran_then, ran};
use crate::meter::{lemma_ones_push, lemma_sum_concat, ones, sum};
use crate::protocol::{
    SavedRegisters, WRITE_FINISHED, chip_id, erase, handshake, handshake_accepted, post1, post2,
    pre1, pre2, read_block, reload_protection, set_rom_bank, switch_bank, write_page, write_status,
};
use crate::firmware::Image;
use crate::stages::{
    ConnectStage, EraseStage, ReadBack, ReadStage, ResetStage, Step, VerifyStage, Wait, WriteStage,
    SETTLE_MS, compared_with, connect_step, erase_step, lemma_reports_of, mismatches, next_page,
    onward, onward_step, outcome, page_bytes, page_index, pause, read_back, read_reports, read_step,
    reads_match, reports_of, reset_step, transferred, verify_reports, verify_step, write_reports,
    write_step,
};
use crate::transport::{Event, drove};

verus! {

/// A run of stages: the states that it went through, the stage that each
/// call ran, and what each call gave back. Each stage but the first is the
/// one that the call before it named, and each call but the last ended in a
/// pause.
pub open spec fn chained<S, R>(
    states: Seq<Link>,
    stages: Seq<S>,
    results: Seq<Result<Step<S, R>, Error>>,
) -> bool {
    &&& states.len() == stages.len() + 1
    &&& results.len() == stages.len()
    &&& forall|i: int|
        0 <= i < results.len() - 1 ==> (#[trigger] results[i]) is Ok && results[i]->Ok_0 is Pause
            && results[i]->Ok_0->Pause_next == stages[i + 1]
}

/// The waits between the calls of a run, in order.
pub open spec fn waits<S, R>(results: Seq<Result<Step<S, R>, Error>>) -> Seq<Wait> {
    Seq::new((results.len() - 1) as nat, |i: int| results[i]->Ok_0->Pause_wait)
}

/// A reset pulse as a whole: the line is pulled and, after the wait, let go.
pub open spec fn reset_whole() -> Seq<Event> {
    seq![drove(true)] + seq![drove(false)]
}

/// The two stages of a reset pulse, run one after the other, are a reset
/// pulse: the line is pulled, held for the configured time, and let go, and
/// the flasher is no longer connected.
pub proof fn lemma_reset_whole(
    states: Seq<Link>,
    stages: Seq<ResetStage>,
    results: Seq<Result<Step<ResetStage, ()>, Error>>,
)
    requires
        chained(states, stages, results),
        stages.len() == 2,
        stages[0] == ResetStage::Assert,
        states[0].batch_depth == 0,
        results[1] is Ok,
        forall|i: int|
            0 <= i < 2 ==> reset_step(states[i], states[i + 1], stages[i], #[trigger] results[i]),
    ensures
        results[1] == Ok::<Step<ResetStage, ()>, Error>(Step::Done(())),
        waits(results) == seq![Wait::Millis(states[0].settings.reset_duration_ms)],
        states[2] == (Link { wire: states[0].wire + reset_whole(), connected: false, ..states[0] }),
{
    assert(results[0] is Ok);
    assert(reset_step(states[0], states[1], stages[0], results[0]));
    assert(reset_step(states[1], states[2], stages[1], results[1]));
    assert(waits(results) =~= seq![Wait::Millis(states[0].settings.reset_duration_ms)]);
    assert(states[2].wire =~= states[0].wire + reset_whole());
}

/// Connecting as a whole, where the chip reported `id`.
pub open spec fn connect_whole(id: u32) -> Seq<Event> {
    seq![drove(true)] + seq![drove(false)] + handshake(handshake_accepted()) + chip_id(id)
}

/// The three stages of connecting, run one after the other, connect: a
/// reset pulse of the configured length, the configured time for the
/// bootloader to come up, then the handshake and the chip's identifier.
pub proof fn lemma_connect_whole(
    states: Seq<Link>,
    stages: Seq<ConnectStage>,
    results: Seq<Result<Step<ConnectStage, u32>, Error>>,
)
    requires
        chained(states, stages, results),
        stages.len() == 3,
        stages[0] == ConnectStage::Assert,
        states[0].batch_depth == 0,
        results[2] is Ok,
        forall|i: int|
            0 <= i < 3 ==> connect_step(states[i], states[i + 1], stages[i], #[trigger] results[i]),
    ensures
        results[2]->Ok_0 is Done,
        waits(results) == seq![
            Wait::Millis(states[0].settings.reset_duration_ms),
            Wait::Micros(states[0].settings.connect_duration_us),
        ],
        states[3] == (Link {
            wire: states[0].wire + connect_whole(results[2]->Ok_0->Done_0),
            connected: true,
            ..states[0]
        }),
{
    let id = results[2]->Ok_0->Done_0;
    assert(results[0] is Ok && results[1] is Ok);
    assert(connect_step(states[0], states[1], stages[0], results[0]));
    assert(connect_step(states[1], states[2], stages[1], results[1]));
    assert(connect_step(states[2], states[3], stages[2], results[2]));
    assert(waits(results) =~= seq![
        Wait::Millis(states[0].settings.reset_duration_ms),
        Wait::Micros(states[0].settings.connect_duration_us),
    ]);
    assert(states[3].wire =~= states[0].wire + connect_whole(id));
}

/// Erasing as a whole, where `was` is the bank that was selected before and
/// `bank` is the one to erase.
pub open spec fn erase_whole(was: u8, bank: u8) -> Seq<Event> {
    pre1() + pre2() + switch_bank(was, bank) + erase() + write_status(WRITE_FINISHED)
        + set_rom_bank(was) + reload_protection() + post1() + post2()
}

/// The eight stages of erasing, run one after the other, erase the
/// configured bank: programming mode is entered, the bank is selected and
/// its erase triggered, the erase is found finished, the former bank is
/// selected again and the flash guarded, and programming mode is left. The
/// target gets the settle time after each part.
pub proof fn lemma_erase_whole(
    states: Seq<Link>,
    stages: Seq<EraseStage>,
    results: Seq<Result<Step<EraseStage, ()>, Error>>,
)
    requires
        chained(states, stages, results),
        stages.len() == 8,
        stages[0] == EraseStage::Arm,
        results[7] is Ok,
        forall|i: int|
            0 <= i < 8 ==> erase_step(states[i], states[i + 1], stages[i], #[trigger] results[i]),
    ensures
        results[7] == Ok::<Step<EraseStage, ()>, Error>(Step::Done(())),
        waits(results) == Seq::new(7, |i: int| Wait::Millis(SETTLE_MS)),
        exists|was: u8|
            ran(
                states[0],
                states[8],
                #[trigger] erase_whole(was, states[0].settings.rom_bank.number()),
            ),
{
    let bank = states[0].settings.rom_bank.number();
    assert(results[0] is Ok);
    assert(erase_step(states[0], states[1], stages[0], results[0]));
    assert(states[0].may_alter());
    assert(ran(states[0], states[1], pre1()));
    assert(results[1] is Ok);
    assert(erase_step(states[1], states[2], stages[1], results[1]));
    assert(ran(states[1], states[2], pre2()));
    lemma_ran_then(states[0], states[1], states[2], pre1(), pre2());
    assert(results[2] is Ok);
    assert(erase_step(states[2], states[3], stages[2], results[2]));
    let was = choose|was: u8|
        outcome(
            states[2],
            states[3],
            switch_bank(was, bank) + erase(),
            pause(SETTLE_MS, EraseStage::Check { restore: was }),
            results[2],
        );
    lemma_ran_then(
        states[0],
        states[2],
        states[3],
        pre1() + pre2(),
        switch_bank(was, bank) + erase(),
    );
    assert(results[3] is Ok);
    assert(erase_step(states[3], states[4], stages[3], results[3]));
    assert(ran(states[3], states[4], write_status(WRITE_FINISHED)));
    lemma_ran_then(
        states[0],
        states[3],
        states[4],
        pre1() + pre2() + (switch_bank(was, bank) + erase()),
        write_status(WRITE_FINISHED),
    );
    assert(results[4] is Ok);
    assert(erase_step(states[4], states[5], stages[4], results[4]));
    assert(ran(states[4], states[5], set_rom_bank(was) + reload_protection()));
    lemma_ran_then(
        states[0],
        states[4],
        states[5],
        pre1() + pre2() + (switch_bank(was, bank) + erase()) + write_status(WRITE_FINISHED),
        set_rom_bank(was) + reload_protection(),
    );
    assert(results[5] is Ok);
    assert(erase_step(states[5], states[6], stages[5], results[5]));
    assert(ran(states[5], states[6], post1()));
    lemma_ran_then(
        states[0],
        states[5],
        states[6],
        pre1() + pre2() + (switch_bank(was, bank) + erase()) + write_status(WRITE_FINISHED) + (
        set_rom_bank(was) + reload_protection()),
        post1(),
    );
    assert(results[6] is Ok);
    assert(erase_step(states[6], states[7], stages[6], results[6]));
    assert(ran(states[6], states[7], post2()));
    lemma_ran_then(
        states[0],
        states[6],
        states[7],
        pre1() + pre2() + (switch_bank(was, bank) + erase()) + write_status(WRITE_FINISHED) + (
        set_rom_bank(was) + reload_protection()) + post1(),
        post2(),
    );
    assert(erase_step(states[7], states[8], stages[7], results[7]));
    assert(waits(results) =~= Seq::new(7, |i: int| Wait::Millis(SETTLE_MS)));
    assert(pre1() + pre2() + (switch_bank(was, bank) + erase()) + write_status(WRITE_FINISHED) + (
    set_rom_bank(was) + reload_protection()) + post1() + post2() =~= erase_whole(was, bank));
}

/// Reading as a whole, where `was` is the bank that was selected before,
/// `bank` is the one to read, `saved` is what the registers were found to
/// hold, and `bytes` is what came back.
pub open spec fn read_whole(
    offset: u16,
    was: u8,
    bank: u8,
    saved: SavedRegisters,
    bytes: Seq<u8>,
) -> Seq<Event> {
    pre1() + pre2() + switch_bank(was, bank) + read_block(offset, saved, bytes) + set_rom_bank(
        was,
    ) + post1() + post2()
}

/// The six stages of reading, run one after the other, read the configured
/// bank: programming mode is entered, the bank is selected, the bytes are
/// read, the former bank is selected again, and programming mode is left.
/// The target gets the settle time after each part, and each byte read is
/// reported once, as one byte. `buffers` is what the buffer held, and
/// `meters` what the meter had recorded, before the first stage and after
/// each stage.
pub proof fn lemma_read_whole(
    states: Seq<Link>,
    stages: Seq<ReadStage>,
    results: Seq<Result<Step<ReadStage, ()>, Error>>,
    buffers: Seq<Seq<u8>>,
    meters: Seq<Seq<u64>>,
    offset: u16,
)
    requires
        chained(states, stages, results),
        stages.len() == 6,
        buffers.len() == 7,
        meters.len() == 7,
        stages[0] == ReadStage::Arm,
        results[5] is Ok,
        forall|i: int|
            0 <= i < 6 ==> read_reports(
                states[i],
                states[i + 1],
                offset,
                buffers[i + 1],
                meters[i],
                meters[i + 1],
                stages[i],
                #[trigger] results[i],
            ),
        forall|i: int|
            0 <= i < 6 ==> read_step(
                states[i],
                states[i + 1],
                offset,
                buffers[i],
                buffers[i + 1],
                stages[i],
                #[trigger] results[i],
            ),
    ensures
        results[5] == Ok::<Step<ReadStage, ()>, Error>(Step::Done(())),
        waits(results) == Seq::new(5, |i: int| Wait::Millis(SETTLE_MS)),
        buffers[6].len() == buffers[0].len(),
        meters[6] == meters[0] + ones(buffers[0].len()),
        sum(meters[6]) == sum(meters[0]) + buffers[0].len(),
        exists|was: u8, saved: SavedRegisters|
            ran(
                states[0],
                states[6],
                #[trigger] read_whole(
                    offset,
                    was,
                    states[0].settings.rom_bank.number(),
                    saved,
                    buffers[6],
                ),
            ),
{
    let bank = states[0].settings.rom_bank.number();
    assert(results[0] is Ok);
    assert(read_step(states[0], states[1], offset, buffers[0], buffers[1], stages[0], results[0]));
    assert(results[1] is Ok);
    assert(read_step(states[1], states[2], offset, buffers[1], buffers[2], stages[1], results[1]));
    lemma_ran_then(states[0], states[1], states[2], pre1(), pre2());
    assert(results[2] is Ok);
    assert(read_step(states[2], states[3], offset, buffers[2], buffers[3], stages[2], results[2]));
    let (was, saved, bytes) = choose|was: u8, saved: SavedRegisters, bytes: Seq<u8>|
        transferred(states[2], states[3], offset, buffers[3], results[2], was, saved, bytes);
    let transfer = switch_bank(was, bank) + read_block(offset, saved, bytes) + set_rom_bank(was);
    lemma_ran_then(states[0], states[2], states[3], pre1() + pre2(), transfer);
    assert(results[3] is Ok);
    assert(read_step(states[3], states[4], offset, buffers[3], buffers[4], stages[3], results[3]));
    lemma_ran_then(states[0], states[3], states[4], pre1() + pre2() + transfer, post1());
    assert(results[4] is Ok);
    assert(read_step(states[4], states[5], offset, buffers[4], buffers[5], stages[4], results[4]));
    lemma_ran_then(states[0], states[4], states[5], pre1() + pre2() + transfer + post1(), post2());
    assert(read_step(states[5], states[6], offset, buffers[5], buffers[6], stages[5], results[5]));
    assert(waits(results) =~= Seq::new(5, |i: int| Wait::Millis(SETTLE_MS)));
    assert(read_reports(
        states[0],
        states[1],
        offset,
        buffers[1],
        meters[0],
        meters[1],
        stages[0],
        results[0],
    ));
    assert(read_reports(
        states[1],
        states[2],
        offset,
        buffers[2],
        meters[1],
        meters[2],
        stages[1],
        results[1],
    ));
    assert(read_reports(
        states[2],
        states[3],
        offset,
        buffers[3],
        meters[2],
        meters[3],
        stages[2],
        results[2],
    ));
    assert(read_reports(
        states[3],
        states[4],
        offset,
        buffers[4],
        meters[3],
        meters[4],
        stages[3],
        results[3],
    ));
    assert(read_reports(
        states[4],
        states[5],
        offset,
        buffers[5],
        meters[4],
        meters[5],
        stages[4],
        results[4],
    ));
    assert(read_reports(
        states[5],
        states[6],
        offset,
        buffers[6],
        meters[5],
        meters[6],
        stages[5],
        results[5],
    ));
    lemma_ones_push(buffers[0].len());
    lemma_sum_concat(meters[0], ones(buffers[0].len()));
    assert(pre1() + pre2() + transfer + post1() + post2() =~= read_whole(
        offset,
        was,
        bank,
        saved,
        buffers[6],
    ));
}

/// Verifying as a whole, where `was` is the bank that was selected before,
/// `bank` is the one to verify, and `reads` is what the sections of `image`
/// were read back as.
pub open spec fn verify_whole(image: Image, was: u8, bank: u8, reads: Seq<ReadBack>) -> Seq<
    Event,
> {
    pre1() + pre2() + switch_bank(was, bank) + read_back(image, reads, image.sections.len())
        + set_rom_bank(was) + post1() + post2()
}

/// The five stages of verifying, run one after the other to the end, verify
/// the configured bank: programming mode is entered, the bank is selected,
/// every section is read back and no byte differs, the former bank is
/// selected again, and programming mode is left. The target gets the settle
/// time after each part, and each byte read back is reported once, as one
/// byte. `meters` is what the meter had recorded before the first stage and
/// after each stage.
pub proof fn lemma_verify_whole(
    states: Seq<Link>,
    stages: Seq<VerifyStage>,
    results: Seq<Result<Step<VerifyStage, ()>, Error>>,
    meters: Seq<Seq<u64>>,
    image: Image,
)
    requires
        chained(states, stages, results),
        stages.len() == 5,
        meters.len() == 6,
        stages[0] == VerifyStage::Arm,
        results[4] is Ok,
        forall|i: int|
            0 <= i < 5 ==> verify_reports(
                states[i],
                states[i + 1],
                image,
                meters[i],
                meters[i + 1],
                stages[i],
                #[trigger] results[i],
            ),
        forall|i: int|
            0 <= i < 5 ==> verify_step(
                states[i],
                states[i + 1],
                image,
                stages[i],
                #[trigger] results[i],
            ),
    ensures
        results[4] == Ok::<Step<VerifyStage, ()>, Error>(Step::Done(())),
        waits(results) == Seq::new(4, |i: int| Wait::Millis(SETTLE_MS)),
        meters[5] == meters[0] + ones(total_len(image.sections)),
        sum(meters[5]) == sum(meters[0]) + total_len(image.sections),
        exists|was: u8, reads: Seq<ReadBack>|
            {
                &&& reads_match(image, reads)
                &&& mismatches(image, reads, image.sections.len()).len() == 0
                &&& ran(
                    states[0],
                    states[5],
                    #[trigger] verify_whole(
                        image,
                        was,
                        states[0].settings.rom_bank.number(),
                        reads,
                    ),
                )
            },
{
    let bank = states[0].settings.rom_bank.number();
    let all = image.sections.len();
    assert(results[0] is Ok);
    assert(verify_step(states[0], states[1], image, stages[0], results[0]));
    assert(results[1] is Ok);
    assert(verify_step(states[1], states[2], image, stages[1], results[1]));
    lemma_ran_then(states[0], states[1], states[2], pre1(), pre2());
    assert(results[2] is Ok);
    assert(verify_step(states[2], states[3], image, stages[2], results[2]));
    let (was, reads) = choose|was: u8, reads: Seq<ReadBack>|
        compared_with(states[2], states[3], image, results[2], was, reads);
    let compare = switch_bank(was, bank) + read_back(image, reads, all) + set_rom_bank(was)
        + post1();
    lemma_ran_then(states[0], states[2], states[3], pre1() + pre2(), compare);
    assert(results[3] is Ok);
    assert(verify_step(states[3], states[4], image, stages[3], results[3]));
    lemma_ran_then(states[0], states[3], states[4], pre1() + pre2() + compare, post2());
    assert(verify_step(states[4], states[5], image, stages[4], results[4]));
    assert(waits(results) =~= Seq::new(4, |i: int| Wait::Millis(SETTLE_MS)));
    assert(verify_reports(
        states[0],
        states[1],
        image,
        meters[0],
        meters[1],
        stages[0],
        results[0],
    ));
    assert(verify_reports(
        states[1],
        states[2],
        image,
        meters[1],
        meters[2],
        stages[1],
        results[1],
    ));
    assert(verify_reports(
        states[2],
        states[3],
        image,
        meters[2],
        meters[3],
        stages[2],
        results[2],
    ));
    assert(verify_reports(
        states[3],
        states[4],
        image,
        meters[3],
        meters[4],
        stages[3],
        results[3],
    ));
    assert(verify_reports(
        states[4],
        states[5],
        image,
        meters[4],
        meters[5],
        stages[4],
        results[4],
    ));
    lemma_ones_push(total_len(image.sections));
    lemma_sum_concat(meters[0], ones(total_len(image.sections)));
    assert(pre1() + pre2() + compare + post2() =~= verify_whole(image, was, bank, reads));
}

/// Writing every page of `image` from the byte `start` of the section
/// `section` on, each followed by the check that its write has finished.
pub open spec fn pages_from(image: Image, section: nat, start: nat) -> Seq<Event>
    decreases
            image.sections.len() - section,
            if section < image.sections.len() && start < image.sections[section as int].len() {
                image.sections[section as int].len() - start
            } else {
                0
            },
{
    if section >= image.sections.len() {
        Seq::empty()
    } else if start < image.sections[section as int].len() && image.page_size > 0 {
        write_page(page_index(image, section, start), page_bytes(image, section, start))
            + write_status(WRITE_FINISHED) + pages_from(image, section, start + image.page_size)
    } else {
        pages_from(image, section + 1, 0)
    }
}

/// Writing as a whole, where `was` is the bank that was selected before and
/// `bank` is the one to write.
pub open spec fn write_whole(image: Image, was: u8, bank: u8) -> Seq<Event> {
    pre1() + pre2() + switch_bank(was, bank) + pages_from(image, 0, 0) + set_rom_bank(was)
        + post1() + post2()
}

/// What is left of writing from a place in the image on: the pages from
/// there, then the former bank and the way out of programming mode.
pub open spec fn rest_of_write(image: Image, was: u8, section: nat, start: nat) -> Seq<Event> {
    pages_from(image, section, start) + set_rom_bank(was) + post1() + post2()
}

/// The sections of `image` and their lengths can be counted in a `usize`.
pub open spec fn countable(image: Image) -> bool {
    &&& image.sections.len() <= usize::MAX
    &&& forall|k: int|
        0 <= k < image.sections.len() ==> (#[trigger] image.sections[k]).len() <= usize::MAX
}

/// The next page is a page: it lies in a section of the image, and the pages
/// from the place asked about on begin with it.
pub proof fn lemma_next_page(image: Image, section: nat, start: nat)
    requires
        image.page_size > 0,
    ensures
        match next_page(image, section, start) {
            Some((s, at)) => {
                &&& s < image.sections.len()
                &&& at < image.sections[s as int].len()
                &&& pages_from(image, section, start) == write_page(
                    page_index(image, s, at),
                    page_bytes(image, s, at),
                ) + write_status(WRITE_FINISHED) + pages_from(image, s, at + image.page_size)
            },
            None => pages_from(image, section, start) == Seq::<Event>::empty(),
        },
    decreases image.sections.len() - section,
{
    if section < image.sections.len() && start >= image.sections[section as int].len() {
        lemma_next_page(image, section + 1, 0);
    }
}

/// From the check of a page on, the stages of writing, run one after the
/// other to the end, check that page and do what is left of writing.
#[verifier::rlimit(30)]
pub proof fn lemma_write_tail(
    states: Seq<Link>,
    stages: Seq<WriteStage>,
    results: Seq<Result<Step<WriteStage, ()>, Error>>,
    image: Image,
    i: int,
    was: u8,
    section: usize,
    start: usize,
)
    requires
        chained(states, stages, results),
        image.page_size > 0,
        countable(image),
        0 <= i < stages.len(),
        stages[i] == (WriteStage::Check { restore: was, section, start }),
        results.last() is Ok,
        results.last()->Ok_0 is Done,
        forall|j: int|
            i <= j < stages.len() ==> write_step(
                states[j],
                states[j + 1],
                image,
                stages[j],
                #[trigger] results[j],
            ),
    ensures
        ran(
            states[i],
            states.last(),
            write_status(WRITE_FINISHED) + rest_of_write(
                image,
                was,
                section as nat,
                start as nat + image.page_size,
            ),
        ),
    decreases stages.len() - i,
{
    let n = stages.len() as int;
    let status = write_status(WRITE_FINISHED);
    let leave = set_rom_bank(was) + post1();
    let onto = start as nat + image.page_size;
    assert(results.last() == results[n - 1]);
    assert(states.last() == states[n]);
    assert(write_step(states[i], states[i + 1], image, stages[i], results[i]));
    assert(results[i] is Ok);
    assert(ran(states[i], states[i + 1], status));
    assert(i + 1 < n);
    assert(write_step(states[i + 1], states[i + 2], image, stages[i + 1], results[i + 1]));
    assert(results[i + 1] is Ok);
    lemma_next_page(image, section as nat, onto);
    lemma_ran_then(
        states[i],
        states[i + 1],
        states[i + 2],
        status,
        onward(image, was, section as nat, onto),
    );
    assert(i + 2 < n);
    assert(write_step(states[i + 2], states[i + 3], image, stages[i + 2], results[i + 2]));
    match next_page(image, section as nat, onto) {
        Some((s, at)) => {
            let page = write_page(page_index(image, s, at), page_bytes(image, s, at));
            assert(stages[i + 2] == (WriteStage::Check {
                restore: was,
                section: s as usize,
                start: at as usize,
            }));
            lemma_write_tail(states, stages, results, image, i + 2, was, s as usize, at as usize);
            let later = status + rest_of_write(image, was, s, at + image.page_size);
            lemma_ran_then(states[i], states[i + 2], states[n], status + page, later);
            assert(status + page + later =~= status + rest_of_write(
                image,
                was,
                section as nat,
                onto,
            ));
        },
        None => {
            assert(results[i + 2] is Ok);
            lemma_ran_then(states[i], states[i + 2], states[i + 3], status + leave, post2());
            assert(i + 3 < n);
            assert(write_step(states[i + 3], states[i + 4], image, stages[i + 3], results[i + 3]));
            assert(results[i + 3] is Ok);
            assert(i + 3 == n - 1);
            assert(status + leave + post2() =~= status + rest_of_write(
                image,
                was,
                section as nat,
                onto,
            ));
        },
    }
}

/// The stages of writing, run one after the other to the end, write the
/// image to the configured bank: programming mode is entered, the bank is
/// selected, every page is written and its write found finished, the former
/// bank is selected again, and programming mode is left.
#[verifier::rlimit(30)]
pub proof fn lemma_write_whole(
    states: Seq<Link>,
    stages: Seq<WriteStage>,
    results: Seq<Result<Step<WriteStage, ()>, Error>>,
    image: Image,
)
    requires
        chained(states, stages, results),
        image.page_size > 0,
        countable(image),
        stages.len() > 0,
        stages[0] == WriteStage::Arm,
        results.last() is Ok,
        results.last()->Ok_0 is Done,
        forall|j: int|
            0 <= j < stages.len() ==> write_step(
                states[j],
                states[j + 1],
                image,
                stages[j],
                #[trigger] results[j],
            ),
    ensures
        exists|was: u8|
            ran(
                states[0],
                states.last(),
                #[trigger] write_whole(image, was, states[0].settings.rom_bank.number()),
            ),
{
    let n = stages.len() as int;
    let bank = states[0].settings.rom_bank.number();
    assert(results.last() == results[n - 1]);
    assert(states.last() == states[n]);
    assert(write_step(states[0], states[1], image, stages[0], results[0]));
    assert(results[0] is Ok);
    assert(1 < n);
    assert(write_step(states[1], states[2], image, stages[1], results[1]));
    assert(results[1] is Ok);
    lemma_ran_then(states[0], states[1], states[2], pre1(), pre2());
    assert(2 < n);
    assert(write_step(states[2], states[3], image, stages[2], results[2]));
    assert(results[2] is Ok);
    let was = choose|was: u8|
        outcome(
            states[2],
            states[3],
            switch_bank(was, bank) + onward(image, was, 0, 0),
            onward_step(image, was, 0, 0),
            results[2],
        );
    let leave = set_rom_bank(was) + post1();
    lemma_next_page(image, 0, 0);
    lemma_ran_then(
        states[0],
        states[2],
        states[3],
        pre1() + pre2(),
        switch_bank(was, bank) + onward(image, was, 0, 0),
    );
    assert(3 < n);
    assert(write_step(states[3], states[4], image, stages[3], results[3]));
    match next_page(image, 0, 0) {
        Some((s, at)) => {
            let page = write_page(page_index(image, s, at), page_bytes(image, s, at));
            assert(stages[3] == (WriteStage::Check {
                restore: was,
                section: s as usize,
                start: at as usize,
            }));
            lemma_write_tail(states, stages, results, image, 3, was, s as usize, at as usize);
            let later = write_status(WRITE_FINISHED) + rest_of_write(
                image,
                was,
                s,
                at + image.page_size,
            );
            lemma_ran_then(
                states[0],
                states[3],
                states[n],
                pre1() + pre2() + (switch_bank(was, bank) + page),
                later,
            );
            assert(pre1() + pre2() + (switch_bank(was, bank) + page) + later =~= write_whole(
                image,
                was,
                bank,
            ));
        },
        None => {
            assert(results[3] is Ok);
            lemma_ran_then(
                states[0],
                states[3],
                states[4],
                pre1() + pre2() + (switch_bank(was, bank) + leave),
                post2(),
            );
            assert(4 < n);
            assert(write_step(states[4], states[5], image, stages[4], results[4]));
            assert(results[4] is Ok);
            assert(4 == n - 1);
            assert(pre1() + pre2() + (switch_bank(was, bank) + leave) + post2() =~= write_whole(
                image,
                was,
                bank,
            ));
        },
    }
}

/// What writing every page of `image` from the byte `start` of the section
/// `section` on reports: for each page, in order, the number of its bytes.
pub open spec fn page_reports_from(image: Image, section: nat, start: nat) -> Seq<u64>
    decreases
            image.sections.len() - section,
            if section < image.sections.len() && start < image.sections[section as int].len() {
                image.sections[section as int].len() - start
            } else {
                0
            },
{
    if section >= image.sections.len() {
        Seq::empty()
    } else if start < image.sections[section as int].len() && image.page_size > 0 {
        seq![page_bytes(image, section, start).len() as u64] + page_reports_from(
            image,
            section,
            start + image.page_size,
        )
    } else {
        page_reports_from(image, section + 1, 0)
    }
}

/// What writing `image` as a whole reports: for each of its pages, in
/// order, the number of its bytes.
pub open spec fn page_reports(image: Image) -> Seq<u64> {
    page_reports_from(image, 0, 0)
}

/// The number of bytes of `image` from the byte `start` of the section
/// `section` on.
pub open spec fn bytes_from(image: Image, section: nat, start: nat) -> nat {
    if section >= image.sections.len() {
        0
    } else {
        let here = image.sections[section as int].len();
        let left: nat = if start < here {
            (here - start) as nat
        } else {
            0
        };
        left + total_len(image.sections.skip(section as int + 1))
    }
}

/// The bytes of sections are those of the first and those of the others.
pub proof fn lemma_total_len_first(spans: Seq<Span>)
    requires
        spans.len() > 0,
    ensures
        total_len(spans) == spans[0].len() + total_len(spans.drop_first()),
    decreases spans.len(),
{
    if spans.len() == 1 {
        assert(spans.drop_last() =~= Seq::<Span>::empty());
        assert(spans.drop_first() =~= Seq::<Span>::empty());
    } else {
        lemma_total_len_first(spans.drop_last());
        assert(spans.drop_last().drop_first() =~= spans.drop_first().drop_last());
        assert(spans.drop_first().last() == spans.last());
        assert(spans.drop_last()[0] == spans[0]);
    }
}

/// The reports of the pages from a place on are those of the next page on.
pub proof fn lemma_page_reports_next(image: Image, section: nat, start: nat)
    requires
        image.page_size > 0,
    ensures
        match next_page(image, section, start) {
            Some((s, at)) => page_reports_from(image, section, start) == page_reports_from(
                image,
                s,
                at,
            ),
            None => page_reports_from(image, section, start) == Seq::<u64>::empty(),
        },
    decreases image.sections.len() - section,
{
    if section < image.sections.len() && start >= image.sections[section as int].len() {
        lemma_page_reports_next(image, section + 1, 0);
    }
}

/// The pages from a place on add up to the bytes from there on.
pub proof fn lemma_page_reports_sum(image: Image, section: nat, start: nat)
    requires
        image.page_size > 0,
        countable(image),
    ensures
        sum(page_reports_from(image, section, start)) == bytes_from(image, section, start),
    decreases
            image.sections.len() - section,
            if section < image.sections.len() && start < image.sections[section as int].len() {
                image.sections[section as int].len() - start
            } else {
                0
            },
{
    if section < image.sections.len() {
        let here = image.sections[section as int].len();
        if start < here {
            let page = page_bytes(image, section, start).len();
            let rest = page_reports_from(image, section, start + image.page_size);
            lemma_page_reports_sum(image, section, start + image.page_size);
            lemma_sum_concat(seq![page as u64], rest);
            assert(page <= image.sections[section as int].len());
            assert(page as u64 == page);
            assert(sum(seq![page as u64]) == page) by {
                reveal_with_fuel(sum, 2);
                assert(seq![page as u64].drop_last() =~= Seq::<u64>::empty());
            }
        } else {
            lemma_page_reports_sum(image, section + 1, 0);
            let later = image.sections.skip(section as int + 1);
            if section + 1 < image.sections.len() {
                lemma_total_len_first(later);
                assert(later.drop_first() =~= image.sections.skip(section as int + 2));
                assert(later[0] == image.sections[section as int + 1]);
            } else {
                assert(later =~= Seq::<Span>::empty());
            }
        }
    }
}

/// The pages of an image add up to the image: what writing it reports sums
/// to the number of its bytes.
pub proof fn lemma_page_reports_total(image: Image)
    requires
        image.page_size > 0,
        countable(image),
    ensures
        sum(page_reports(image)) == total_len(image.sections),
{
    lemma_page_reports_sum(image, 0, 0);
    if image.sections.len() > 0 {
        lemma_total_len_first(image.sections);
        assert(image.sections.drop_first() =~= image.sections.skip(1));
    }
}

/// Where the sections hold whole pages, every page reported is a whole page.
pub proof fn lemma_page_reports_whole(image: Image, section: nat, start: nat)
    requires
        image.page_size > 0,
        countable(image),
        image.page_size <= usize::MAX,
        page_aligned(image.sections, image.page_size),
        start % image.page_size == 0,
    ensures
        forall|i: int|
            0 <= i < page_reports_from(image, section, start).len()
                ==> #[trigger] page_reports_from(image, section, start)[i] == image.page_size,
    decreases
            image.sections.len() - section,
            if section < image.sections.len() && start < image.sections[section as int].len() {
                image.sections[section as int].len() - start
            } else {
                0
            },
{
    let page = image.page_size;
    if section < image.sections.len() {
        let here = image.sections[section as int].len();
        if start < here {
            lemma_round_shift(start, (here - start) as nat, page);
            if here - start < page {
                lemma_small_mod((here - start) as nat, page);
            }
            lemma_round_shift(start, page, page);
            lemma_mod_self_0(page as int);
            lemma_page_reports_whole(image, section, start + page);
            assert(image.sections[section as int].len() % page == 0);
            assert(start + page <= here);
            let first = page_bytes(image, section, start).len();
            let rest = page_reports_from(image, section, start + page);
            let all = page_reports_from(image, section, start);
            assert(first == page);
            assert(first as u64 == page);
            assert(all == seq![first as u64] + rest);
            assert forall|i: int| 0 <= i < all.len() implies #[trigger] all[i] == page by {
                if i > 0 {
                    assert(all[i] == rest[i - 1]);
                }
            }
        } else {
            lemma_mod_self_0(page as int);
            assert(0nat % page == 0);
            lemma_page_reports_whole(image, section + 1, 0);
            assert(page_reports_from(image, section, start) == page_reports_from(
                image,
                section + 1,
                0,
            ));
        }
    }
}

/// The reports of the pages that a run of writing has not come to when it
/// stands in front of `stage`: all pages before the first is written, the
/// page of a check and those behind it, and none once the pages are done.
pub open spec fn reports_to_come(image: Image, stage: WriteStage) -> Seq<u64> {
    match stage {
        WriteStage::Arm => page_reports(image),
        WriteStage::Unlock => page_reports(image),
        WriteStage::Select => page_reports(image),
        WriteStage::Check { restore, section, start } => page_reports_from(
            image,
            section as nat,
            start as nat,
        ),
        WriteStage::Report { restore, section, start } => page_reports_from(
            image,
            section as nat,
            start as nat,
        ),
        WriteStage::Restore => Seq::empty(),
        WriteStage::End => Seq::empty(),
    }
}

/// The reports of the pages that a run of writing has not made when `stage`
/// has run, however it ended: the stage that reports a page has reported
/// it, and every other stage has reported nothing.
pub open spec fn reports_left(image: Image, stage: WriteStage) -> Seq<u64> {
    match stage {
        WriteStage::Report { restore, section, start } => page_reports_from(
            image,
            section as nat,
            start as nat + image.page_size,
        ),
        _ => reports_to_come(image, stage),
    }
}

/// Whether `stage` is about a page of `image`, where it is about a page.
pub open spec fn at_a_page(image: Image, stage: WriteStage) -> bool {
    match stage {
        WriteStage::Check { restore, section, start } => section < image.sections.len() && start
            < image.sections[section as int].len(),
        WriteStage::Report { restore, section, start } => section < image.sections.len() && start
            < image.sections[section as int].len(),
        _ => true,
    }
}

/// In front of each stage of a run of writing, the pages reported so far
/// and the pages that the run has not come to are the pages of the image.
pub proof fn lemma_write_reports_before(
    states: Seq<Link>,
    stages: Seq<WriteStage>,
    results: Seq<Result<Step<WriteStage, ()>, Error>>,
    meters: Seq<Seq<u64>>,
    image: Image,
    i: int,
)
    requires
        chained(states, stages, results),
        meters.len() == states.len(),
        image.page_size > 0,
        countable(image),
        0 <= i < stages.len(),
        stages[0] == WriteStage::Arm,
        forall|j: int|
            0 <= j < i ==> write_step(
                states[j],
                states[j + 1],
                image,
                stages[j],
                #[trigger] results[j],
            ),
        forall|j: int|
            0 <= j < i ==> write_reports(
                states[j],
                image,
                meters[j],
                meters[j + 1],
                #[trigger] stages[j],
            ),
    ensures
        meters[i] + reports_to_come(image, stages[i]) == meters[0] + page_reports(image),
        meters[0].len() <= meters[i].len(),
        at_a_page(image, stages[i]),
        i > 0 ==> states[i].may_alter(),
    decreases i,
{
    assert forall|j: int| 0 <= j < i implies #[trigger] meters[j + 1] == meters[j]
        + reports_of(states[j], image, stages[j]) by {
        lemma_reports_of(states[j], image, meters[j], meters[j + 1], stages[j]);
    }
    if i > 0 {
        let j = i - 1;
        lemma_write_reports_before(states, stages, results, meters, image, j);
        let all = meters[0] + page_reports(image);
        assert(results[j] is Ok && results[j]->Ok_0 is Pause && results[j]->Ok_0->Pause_next
            == stages[j + 1]);
        assert(write_step(states[j], states[j + 1], image, stages[j], results[j]));
        assert(meters[j + 1] == meters[j] + reports_of(states[j], image, stages[j]));
        assert(states[j].may_alter());
        assert(states[j + 1].settings == states[j].settings);
        match stages[j] {
            WriteStage::Arm => {
                assert(meters[i] =~= meters[j]);
            },
            WriteStage::Unlock => {
                assert(meters[i] =~= meters[j]);
            },
            WriteStage::Select => {
                assert(meters[i] =~= meters[j]);
                lemma_next_page(image, 0, 0);
                lemma_page_reports_next(image, 0, 0);
            },
            WriteStage::Check { restore, section, start } => {
                assert(meters[i] =~= meters[j]);
            },
            WriteStage::Report { restore, section, start } => {
                let onto = start as nat + image.page_size;
                let here = seq![page_bytes(image, section as nat, start as nat).len() as u64];
                assert(reports_of(states[j], image, stages[j]) == here);
                assert(page_reports_from(image, section as nat, start as nat) == here
                    + page_reports_from(image, section as nat, onto));
                lemma_next_page(image, section as nat, onto);
                lemma_page_reports_next(image, section as nat, onto);
                assert(meters[i] + page_reports_from(image, section as nat, onto) =~= meters[j]
                    + page_reports_from(image, section as nat, start as nat));
            },
            WriteStage::Restore => {
                assert(meters[i] =~= meters[j]);
            },
            WriteStage::End => {},
        }
    }
}

/// However far a run of writing got, and however its last stage ended, it
/// has reported the pages in front of the place where it stopped, each
/// once, in order and with the number of its bytes, and no other: what it
/// reported and the pages that it left are the pages of the image. A run
/// that was refused, or that broke off while programming mode was entered
/// or the first page was written, has reported nothing; one that broke off
/// at the check of a page has reported the pages in front of that page; one
/// that broke off when the next page was written has reported the page
/// that was checked last as well. So what a run has reported is always the
/// reports of the first pages of the image, as many as it has made.
pub proof fn lemma_write_reports_so_far(
    states: Seq<Link>,
    stages: Seq<WriteStage>,
    results: Seq<Result<Step<WriteStage, ()>, Error>>,
    meters: Seq<Seq<u64>>,
    image: Image,
)
    requires
        chained(states, stages, results),
        meters.len() == states.len(),
        image.page_size > 0,
        countable(image),
        stages.len() > 0,
        stages[0] == WriteStage::Arm,
        forall|j: int|
            0 <= j < stages.len() ==> write_step(
                states[j],
                states[j + 1],
                image,
                stages[j],
                #[trigger] results[j],
            ),
        forall|j: int|
            0 <= j < stages.len() ==> write_reports(
                states[j],
                image,
                meters[j],
                meters[j + 1],
                #[trigger] stages[j],
            ),
    ensures
        meters.last() + reports_left(image, stages.last()) == meters[0] + page_reports(image),
        meters[0].len() <= meters.last().len(),
        meters.last() == meters[0] + page_reports(image).take(
            meters.last().len() - meters[0].len(),
        ),
{
    assert forall|j: int| 0 <= j < stages.len() implies #[trigger] meters[j + 1] == meters[j]
        + reports_of(states[j], image, stages[j]) by {
        lemma_reports_of(states[j], image, meters[j], meters[j + 1], stages[j]);
    }
    let n = stages.len() as int;
    let j = n - 1;
    lemma_write_reports_before(states, stages, results, meters, image, j);
    assert(meters.last() == meters[j + 1]);
    assert(stages.last() == stages[j]);
    assert(meters[j + 1] == meters[j] + reports_of(states[j], image, stages[j]));
    match stages[j] {
        WriteStage::Report { restore, section, start } => {
            let onto = start as nat + image.page_size;
            let here = seq![page_bytes(image, section as nat, start as nat).len() as u64];
            assert(j > 0);
            assert(reports_of(states[j], image, stages[j]) == here);
            assert(page_reports_from(image, section as nat, start as nat) == here
                + page_reports_from(image, section as nat, onto));
            assert(meters[j + 1] + page_reports_from(image, section as nat, onto) =~= meters[j]
                + page_reports_from(image, section as nat, start as nat));
        },
        _ => {
            assert(meters[j + 1] =~= meters[j]);
        },
    }
    let told = meters[0];
    let now = meters.last();
    let left = reports_left(image, stages.last());
    let pages = page_reports(image);
    let made = now.len() - told.len();
    assert(now + left == told + pages);
    assert((now + left).len() == now.len() + left.len());
    assert((told + pages).len() == told.len() + pages.len());
    assert(0 <= made <= pages.len());
    let first = told + pages.take(made);
    assert(first.len() == now.len());
    assert forall|i: int| 0 <= i < now.len() implies now[i] == first[i] by {
        assert(now[i] == (now + left)[i]);
        assert((told + pages)[i] == first[i]);
    }
    assert(now =~= first);
}

/// What the stages of writing report from the check of a page on, run one
/// after the other to the end: that page and every page behind it, each
/// with the number of its bytes.
pub proof fn lemma_write_tail_reports(
    states: Seq<Link>,
    stages: Seq<WriteStage>,
    results: Seq<Result<Step<WriteStage, ()>, Error>>,
    meters: Seq<Seq<u64>>,
    image: Image,
    i: int,
    was: u8,
    section: usize,
    start: usize,
)
    requires
        chained(states, stages, results),
        meters.len() == states.len(),
        image.page_size > 0,
        countable(image),
        0 <= i < stages.len(),
        stages[i] == (WriteStage::Check { restore: was, section, start }),
        results.last() is Ok,
        results.last()->Ok_0 is Done,
        forall|j: int|
            i <= j < stages.len() ==> write_step(
                states[j],
                states[j + 1],
                image,
                stages[j],
                #[trigger] results[j],
            ),
        forall|j: int|
            i <= j < stages.len() ==> write_reports(
                states[j],
                image,
                meters[j],
                meters[j + 1],
                #[trigger] stages[j],
            ),
    ensures
        meters.last() == meters[i] + page_reports_from(image, section as nat, start as nat),
    decreases stages.len() - i,
{
    assert forall|j: int| i <= j < stages.len() implies #[trigger] meters[j + 1] == meters[j]
        + reports_of(states[j], image, stages[j]) by {
        lemma_reports_of(states[j], image, meters[j], meters[j + 1], stages[j]);
    }
    let n = stages.len() as int;
    let onto = start as nat + image.page_size;
    assert(results.last() == results[n - 1]);
    assert(meters.last() == meters[n]);
    assert(write_step(states[i], states[i + 1], image, stages[i], results[i]));
    assert(results[i] is Ok);
    assert(i + 1 < n);
    assert(write_step(states[i + 1], states[i + 2], image, stages[i + 1], results[i + 1]));
    assert(results[i + 1] is Ok);
    assert(meters[i + 1] == meters[i] + reports_of(states[i], image, stages[i]));
    assert(meters[i + 2] == meters[i + 1] + reports_of(states[i + 1], image, stages[i + 1]));
    lemma_next_page(image, section as nat, onto);
    lemma_page_reports_next(image, section as nat, onto);
    assert(i + 2 < n);
    assert(write_step(states[i + 2], states[i + 3], image, stages[i + 2], results[i + 2]));
    let here = reports_of(states[i + 1], image, stages[i + 1]);
    assert(page_reports_from(image, section as nat, start as nat) =~= here + page_reports_from(
        image,
        section as nat,
        onto,
    ));
    match next_page(image, section as nat, onto) {
        Some((s, at)) => {
            assert(stages[i + 2] == (WriteStage::Check {
                restore: was,
                section: s as usize,
                start: at as usize,
            }));
            lemma_write_tail_reports(
                states,
                stages,
                results,
                meters,
                image,
                i + 2,
                was,
                s as usize,
                at as usize,
            );
            assert(meters[n] =~= meters[i] + page_reports_from(
                image,
                section as nat,
                start as nat,
            ));
        },
        None => {
            assert(results[i + 2] is Ok);
            assert(i + 3 < n);
            assert(write_step(states[i + 3], states[i + 4], image, stages[i + 3], results[i + 3]));
            assert(i + 3 == n - 1);
            assert(meters[i + 3] == meters[i + 2] + reports_of(
                states[i + 2],
                image,
                stages[i + 2],
            ));
            assert(meters[i + 4] == meters[i + 3] + reports_of(
                states[i + 3],
                image,
                stages[i + 3],
            ));
            assert(meters[n] =~= meters[i] + page_reports_from(
                image,
                section as nat,
                start as nat,
            ));
        },
    }
}

/// What the stages of writing report, run one after the other to the end:
/// every page of the image once, in order, with the number of its bytes,
/// which add up to the bytes of the image.
pub proof fn lemma_write_whole_reports(
    states: Seq<Link>,
    stages: Seq<WriteStage>,
    results: Seq<Result<Step<WriteStage, ()>, Error>>,
    meters: Seq<Seq<u64>>,
    image: Image,
)
    requires
        chained(states, stages, results),
        meters.len() == states.len(),
        image.page_size > 0,
        countable(image),
        stages.len() > 0,
        stages[0] == WriteStage::Arm,
        results.last() is Ok,
        results.last()->Ok_0 is Done,
        forall|j: int|
            0 <= j < stages.len() ==> write_step(
                states[j],
                states[j + 1],
                image,
                stages[j],
                #[trigger] results[j],
            ),
        forall|j: int|
            0 <= j < stages.len() ==> write_reports(
                states[j],
                image,
                meters[j],
                meters[j + 1],
                #[trigger] stages[j],
            ),
    ensures
        meters.last() == meters[0] + page_reports(image),
        sum(meters.last()) == sum(meters[0]) + total_len(image.sections),
{
    assert forall|j: int| 0 <= j < stages.len() implies #[trigger] meters[j + 1] == meters[j]
        + reports_of(states[j], image, stages[j]) by {
        lemma_reports_of(states[j], image, meters[j], meters[j + 1], stages[j]);
    }
    let n = stages.len() as int;
    let bank = states[0].settings.rom_bank.number();
    assert(results.last() == results[n - 1]);
    assert(meters.last() == meters[n]);
    assert(write_step(states[0], states[1], image, stages[0], results[0]));
    assert(results[0] is Ok);
    assert(1 < n);
    assert(write_step(states[1], states[2], image, stages[1], results[1]));
    assert(results[1] is Ok);
    assert(2 < n);
    assert(write_step(states[2], states[3], image, stages[2], results[2]));
    assert(results[2] is Ok);
    assert(meters[1] == meters[0] + reports_of(states[0], image, stages[0]));
    assert(meters[2] == meters[1] + reports_of(states[1], image, stages[1]));
    assert(meters[3] == meters[2] + reports_of(states[2], image, stages[2]));
    let was = choose|was: u8|
        outcome(
            states[2],
            states[3],
            switch_bank(was, bank) + onward(image, was, 0, 0),
            onward_step(image, was, 0, 0),
            results[2],
        );
    lemma_next_page(image, 0, 0);
    lemma_page_reports_next(image, 0, 0);
    assert(3 < n);
    assert(write_step(states[3], states[4], image, stages[3], results[3]));
    match next_page(image, 0, 0) {
        Some((s, at)) => {
            assert(stages[3] == (WriteStage::Check {
                restore: was,
                section: s as usize,
                start: at as usize,
            }));
            lemma_write_tail_reports(
                states,
                stages,
                results,
                meters,
                image,
                3,
                was,
                s as usize,
                at as usize,
            );
            assert(meters[n] =~= meters[0] + page_reports(image));
        },
        None => {
            assert(results[3] is Ok);
            assert(4 < n);
            assert(write_step(states[4], states[5], image, stages[4], results[4]));
            assert(4 == n - 1);
            assert(meters[4] == meters[3] + reports_of(states[3], image, stages[3]));
            assert(meters[5] == meters[4] + reports_of(states[4], image, stages[4]));
            assert(meters[n] =~= meters[0] + page_reports(image));
        },
    }
    lemma_page_reports_total(image);
    lemma_sum_concat(meters[0], page_reports(image));
}

} // verus!
