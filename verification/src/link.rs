//! The state of a flasher as a mathematical value, and the relations
//! between two such states that the contracts of its operations are made of.

use vstd::prelude::*;
use crate::error::Error;
use crate::flasher::RomBank;
use crate::protocol::{
    WRITE_FINISHED, handshake, handshake_accepted, lemma_payload_concat, payload, write_status,
};
use crate::transport::{Event, broke, grew};

verus! {

/// What a flasher is configured to do.
pub struct Settings {
    pub final_reset: bool,
    pub reset_duration_ms: u64,
    pub connect_duration_us: u64,
    pub rom_bank: RomBank,
    pub dangerous_allow_write_non_main_bank: bool,
}

/// The mathematical value of a flasher: what has happened on its transport,
/// what it holds back in an open write batch, and how it is configured.
pub struct Link {
    pub wire: Seq<Event>,
    pub batch_depth: nat,
    pub pending: Seq<u8>,
    pub connected: bool,
    pub settings: Settings,
}

impl Link {
    /// No write batch is open and no byte is held back.
    pub open spec fn idle(self) -> bool {
        self.batch_depth == 0 && self.pending.len() == 0
    }

    /// Erasing and writing are allowed: the main bank is selected, or the
    /// other one has been allowed explicitly.
    pub open spec fn may_alter(self) -> bool {
        self.settings.rom_bank == RomBank::Main
            || self.settings.dangerous_allow_write_non_main_bank
    }
}

/// From `pre` to `post`, the requests `events` were made and all succeeded.
/// With no write batch open they are on the transport; with one open, their
/// bytes are held back and the transport has seen nothing.
pub open spec fn ran(pre: Link, post: Link, events: Seq<Event>) -> bool {
    &&& post.settings == pre.settings
    &&& post.connected == pre.connected
    &&& post.batch_depth == pre.batch_depth
    &&& grew(pre.wire, post.wire)
    &&& if pre.batch_depth == 0 {
        &&& post.pending == pre.pending
        &&& post.wire =~= pre.wire + events
    } else {
        &&& post.wire == pre.wire
        &&& post.pending =~= pre.pending + payload(events)
    }
}

/// From `pre` to `post`, requests were made of the transport until one
/// failed with `e`; nothing was asked of it after that, and nothing else
/// changed. No write batch was open: while one is, nothing reaches the
/// transport and nothing fails.
pub open spec fn aborted(pre: Link, post: Link, e: Error) -> bool {
    &&& pre.batch_depth == 0
    &&& post.settings == pre.settings
    &&& post.connected == pre.connected
    &&& post.batch_depth == pre.batch_depth
    &&& post.pending == pre.pending
    &&& broke(pre.wire, post.wire, e)
}

/// `events` as far as they got when the request at index `count` failed with
/// `e`: the events in front of it, and that request with its failure.
pub open spec fn cut_short(events: Seq<Event>, count: int, e: Error) -> Seq<Event> {
    events.take(count).push(Event { call: events[count].call, reply: Err(e) })
}

/// From `pre` to `post`, the requests of `events` were made in their order
/// until one of them failed with `e`: those in front of it succeeded as
/// `events` has them, nothing was asked of the transport after it, and
/// nothing else changed.
pub open spec fn failed(pre: Link, post: Link, events: Seq<Event>, e: Error) -> bool {
    let count = post.wire.len() - pre.wire.len() - 1;
    &&& aborted(pre, post, e)
    &&& 0 <= count < events.len()
    &&& post.wire =~= pre.wire + cut_short(events, count, e)
}

/// The number of requests that were made from `pre` to `post` in front of
/// the last one: where the last one failed, those that succeeded.
pub open spec fn made(pre: Link, post: Link) -> int {
    post.wire.len() - pre.wire.len() - 1
}

/// From `pre` to `post`, the handshake was made, and the target answered
/// with something else than four `0xFF`: `e` carries the answer.
pub open spec fn refused(pre: Link, post: Link, e: Error) -> bool {
    &&& e is HandshakeResponseMismatch
    &&& e->HandshakeResponseMismatch_0@ != handshake_accepted()
    &&& ran(pre, post, handshake(e->HandshakeResponseMismatch_0@))
}

/// From `pre` to `post`, the status of the last erase or page write was
/// asked for, and was not the one for success: `e` carries it.
pub open spec fn unfinished(pre: Link, post: Link, e: Error) -> bool {
    &&& e is WriteCheckError
    &&& e->WriteCheckError_0 != WRITE_FINISHED
    &&& ran(pre, post, write_status(e->WriteCheckError_0))
}

/// Nothing happened.
pub proof fn lemma_ran_nothing(at: Link)
    ensures
        ran(at, at, Seq::empty()),
{
    assert(payload(Seq::<Event>::empty()) =~= Seq::<u8>::empty());
}

/// What ran first and what ran second ran one after the other.
pub proof fn lemma_ran_then(pre: Link, mid: Link, post: Link, first: Seq<Event>, second: Seq<Event>)
    requires
        ran(pre, mid, first),
        ran(mid, post, second),
    ensures
        ran(pre, post, first + second),
{
    lemma_payload_concat(first, second);
}

/// What ran first ran, and what came second failed: together they failed,
/// and what would have come after plays no part.
pub proof fn lemma_failed_later(
    pre: Link,
    mid: Link,
    post: Link,
    first: Seq<Event>,
    second: Seq<Event>,
    rest: Seq<Event>,
    all: Seq<Event>,
    e: Error,
)
    requires
        ran(pre, mid, first),
        failed(mid, post, second, e),
        all =~= first + second + rest,
    ensures
        failed(pre, post, all, e),
{
    let count = post.wire.len() - mid.wire.len() - 1;
    let total = post.wire.len() - pre.wire.len() - 1;
    assert(total == first.len() + count);
    assert(all.take(total) =~= first + second.take(count));
    assert(all[total] == second[count]);
    assert(pre.wire + cut_short(all, total, e) =~= mid.wire + cut_short(second, count, e));
}

/// One more piece of work behind what ran: where it ran too, both ran one
/// after the other; where it failed, the whole of `all`, which begins with
/// both, failed.
pub proof fn lemma_step<T>(
    pre: Link,
    mid: Link,
    post: Link,
    done: Seq<Event>,
    next: Seq<Event>,
    all: Seq<Event>,
    r: Result<T, Error>,
)
    requires
        ran(pre, mid, done),
        match r {
            Ok(_) => ran(mid, post, next),
            Err(e) => failed(mid, post, next, e),
        },
        (done + next).is_prefix_of(all),
    ensures
        match r {
            Ok(_) => ran(pre, post, done + next),
            Err(e) => failed(pre, post, all, e),
        },
{
    match r {
        Ok(_) => lemma_ran_then(pre, mid, post, done, next),
        Err(e) => {
            let both = done + next;
            let rest = all.skip(both.len() as int);
            assert(all =~= both + rest);
            lemma_failed_later(pre, mid, post, done, next, rest, all, e);
        },
    }
}

/// A failure does not depend on what the failing request would have
/// delivered: requests that differ in the last answer alone fail alike.
pub proof fn lemma_failed_answer(
    pre: Link,
    post: Link,
    given: Seq<Event>,
    other: Seq<Event>,
    e: Error,
)
    requires
        failed(pre, post, given, e),
        given.len() == other.len(),
        given.drop_last() =~= other.drop_last(),
        given.last().call == other.last().call,
    ensures
        failed(pre, post, other, e),
{
    let count = post.wire.len() - pre.wire.len() - 1;
    assert(given.take(count) =~= given.drop_last().take(count));
    assert(other.take(count) =~= other.drop_last().take(count));
    if count < given.len() - 1 {
        assert(given[count] == given.drop_last()[count]);
        assert(other[count] == other.drop_last()[count]);
    }
}

/// Where requests ran, each of them succeeded.
pub proof fn lemma_ran_all_succeeded(pre: Link, post: Link, events: Seq<Event>, i: int)
    requires
        ran(pre, post, events),
        pre.wire.len() <= i < post.wire.len(),
    ensures
        post.wire[i].reply is Ok,
{
}

/// Where a request failed, it was the last one made, and its error is the
/// one that came out.
pub proof fn lemma_aborted_at_the_failure(pre: Link, post: Link, e: Error, i: int)
    requires
        aborted(pre, post, e),
        pre.wire.len() <= i < post.wire.len(),
        post.wire[i].reply is Err,
    ensures
        i == post.wire.len() - 1,
        post.wire[i].reply == Err::<Seq<u8>, Error>(e),
{
}

} // verus!
