//! The progress sink, and the record of what has been reported to it.

use vstd::prelude::*;

verus! {

/// A progress sink together with the record of what has been reported to it.
///
/// The sink is called with the number of bytes that have just been moved, not
/// with a running total. The record is kept here and nowhere else: every
/// report that reaches the sink goes through `report`, which adds exactly one
/// entry, the count reported.
pub struct Meter<F: Fn(u64)> {
    sink: F,
    log: Ghost<Seq<u64>>,
}

/// `count` reports of one byte each.
pub open spec fn ones(count: nat) -> Seq<u64> {
    Seq::new(count, |i: int| 1u64)
}

/// The counts of `reports` added up.
pub open spec fn sum(reports: Seq<u64>) -> nat
    decreases reports.len(),
{
    if reports.len() == 0 {
        0
    } else {
        sum(reports.drop_last()) + reports.last() as nat
    }
}

impl<F: Fn(u64)> Meter<F> {
    /// The sink takes every count.
    #[verifier::type_invariant]
    pub closed spec fn ready(&self) -> bool {
        forall|n: u64| call_requires(self.sink, (n,))
    }

    /// The counts reported so far, in order.
    pub closed spec fn log(&self) -> Seq<u64> {
        self.log@
    }

    /// A meter on `sink`, to which nothing has been reported yet.
    pub fn new(sink: F) -> (meter: Self)
        requires
            forall|n: u64| call_requires(sink, (n,)),
        ensures
            meter.log() == Seq::<u64>::empty(),
    {
        Meter { sink, log: Ghost(Seq::empty()) }
    }

    /// Reports `count` bytes to the sink.
    pub fn report(&mut self, count: u64)
        ensures
            final(self).log() == old(self).log().push(count),
    {
        proof {
            use_type_invariant(&*self);
        }
        (self.sink)(count);
        proof {
            self.log@ = self.log@.push(count);
        }
    }
}

/// One more report of one byte.
pub proof fn lemma_ones_push(count: nat)
    ensures
        ones(count).push(1u64) == ones(count + 1),
        ones(0) == Seq::<u64>::empty(),
        sum(ones(count)) == count,
    decreases count,
{
    assert(ones(count).push(1u64) =~= ones(count + 1));
    assert(ones(0) =~= Seq::<u64>::empty());
    if count > 0 {
        lemma_ones_push((count - 1) as nat);
        assert(ones(count).drop_last() =~= ones((count - 1) as nat));
    }
}

/// Reports of one byte each, one run after the other.
pub proof fn lemma_ones_concat(first: nat, second: nat)
    ensures
        ones(first) + ones(second) == ones(first + second),
{
    assert(ones(first) + ones(second) =~= ones(first + second));
}

/// The sum of two runs of reports is the sum of their sums.
pub proof fn lemma_sum_concat(first: Seq<u64>, second: Seq<u64>)
    ensures
        sum(first + second) == sum(first) + sum(second),
    decreases second.len(),
{
    if second.len() == 0 {
        assert(first + second =~= first);
    } else {
        assert((first + second).drop_last() =~= first + second.drop_last());
        lemma_sum_concat(first, second.drop_last());
    }
}

} // verus!
