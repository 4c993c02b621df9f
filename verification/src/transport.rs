//! The byte channel to the target, and the record of what was asked of it.

use std::time::Duration;
use vstd::prelude::*;
use crate::error::Error;

verus! {

/// One request made of a transport.
pub enum Call {
    /// Send these bytes and check their echo.
    Write(Seq<u8>),
    /// Receive exactly this many bytes.
    Read(nat),
    /// Drive the reset line to this level.
    Reset(bool),
}

/// A request together with how it ended. A successful read replies with the
/// bytes received; every other successful request replies with no bytes.
pub struct Event {
    pub call: Call,
    pub reply: Result<Seq<u8>, Error>,
}

/// The request `call` with the outcome `r`; `data` is what it delivered
/// where it succeeded.
pub open spec fn asked(call: Call, r: Result<(), Error>, data: Seq<u8>) -> Event {
    Event {
        call,
        reply: match r {
            Ok(()) => Ok(data),
            Err(e) => Err(e),
        },
    }
}

/// A write of `data` whose echo matched.
pub open spec fn sent(data: Seq<u8>) -> Event {
    Event { call: Call::Write(data), reply: Ok(Seq::empty()) }
}

/// A read that delivered `data`.
pub open spec fn received(data: Seq<u8>) -> Event {
    Event { call: Call::Read(data.len()), reply: Ok(data) }
}

/// A reset line driven to `level`.
pub open spec fn drove(level: bool) -> Event {
    Event { call: Call::Reset(level), reply: Ok(Seq::empty()) }
}

/// `after` is `before` followed by further requests, all of which succeeded.
pub open spec fn grew(before: Seq<Event>, after: Seq<Event>) -> bool {
    &&& before.len() <= after.len()
    &&& forall|i: int| #![trigger after[i]] 0 <= i < before.len() ==> after[i] == before[i]
    &&& forall|i: int| #![trigger after[i]] before.len() <= i < after.len() ==> after[i].reply is Ok
}

/// `after` is `before` followed by further requests, of which the last one
/// failed with `e` and all earlier ones succeeded.
pub open spec fn broke(before: Seq<Event>, after: Seq<Event>, e: Error) -> bool {
    &&& before.len() < after.len()
    &&& forall|i: int| #![trigger after[i]] 0 <= i < before.len() ==> after[i] == before[i]
    &&& forall|i: int|
        #![trigger after[i]]
        before.len() <= i < after.len() - 1 ==> after[i].reply is Ok
    &&& after[after.len() - 1].reply == Err::<Seq<u8>, Error>(e)
}

/// The line of a serial port that is wired to the target's reset pin.
#[derive(Clone, Copy, PartialEq, Eq, Debug, Structural)]
pub enum ResetType {
    Rts,
    Dtr,
}

/// The level to drive the reset line to, so that the target sees `level` on
/// wiring that inverts the line or does not.
pub fn reset_line_level(level: bool, invert: bool) -> (r: bool)
    ensures
        r == (level != invert),
{
    if invert {
        !level
    } else {
        level
    }
}

/// Whether `a` and `b` hold the same bytes.
pub fn same_bytes(a: &[u8], b: &[u8]) -> (r: bool)
    ensures
        r == (a@ == b@),
{
    if a.len() != b.len() {
        return false;
    }
    let mut i: usize = 0;
    while i < a.len()
        invariant
            i <= a.len(),
            a.len() == b.len(),
            forall|j: int| 0 <= j < i ==> a@[j] == b@[j],
        decreases a.len() - i,
    {
        if a[i] != b[i] {
            return false;
        }
        i += 1;
    }
    proof {
        assert(a@ =~= b@);
    }
    true
}

/// Holds what the target echoed against what was sent: on the protocol's
/// wiring every byte sent comes back, and one that comes back changed points
/// to a fault in the wiring.
pub fn check_echo(sent: &[u8], echoed: &[u8]) -> (r: Result<(), Error>)
    ensures
        echoed@ == sent@ ==> r is Ok,
        echoed@ != sent@ ==> r is Err && r->Err_0 is WriteReadMismatch,
{
    if same_bytes(sent, echoed) {
        Ok(())
    } else {
        Err(Error::WriteReadMismatch)
    }
}

/// A byte channel to the target's bootloader.
pub trait Transport {
    /// Sends `data` and reads back one echoed byte per byte sent. An echo
    /// that differs from what was sent is an error of its own.
    fn write(&mut self, data: &[u8]) -> Result<(), Error>;

    /// Fills `data` with bytes from the target, blocking until all have come.
    /// A slice keeps its length whatever is done with it.
    fn read(&mut self, data: &mut [u8]) -> (r: Result<(), Error>)
        ensures
            final(data)@.len() == old(data)@.len(),
    ;

    /// Drives the reset line.
    fn set_reset(&mut self, level: bool) -> Result<(), Error>;

    /// Sets how long a read waits for bytes.
    fn set_timeout(&mut self, value: Duration) -> Result<(), Error>;

    /// How long a read waits for bytes.
    fn timeout(&self) -> Result<Duration, Error>;
}

/// A transport together with the record of what has been asked of it.
///
/// The record is kept here and nowhere else: every request that reaches the
/// transport goes through one of the methods below, and each of them adds
/// exactly one event, the request with its outcome.
pub struct Channel<T: Transport> {
    transport: T,
    log: Ghost<Seq<Event>>,
}

impl<T: Transport> Channel<T> {
    /// The data and reset requests made so far, each with its outcome.
    pub closed spec fn log(&self) -> Seq<Event> {
        self.log@
    }

    /// A channel on `transport`, of which nothing has been asked yet.
    pub fn new(transport: T) -> (channel: Self)
        ensures
            channel.log() == Seq::<Event>::empty(),
    {
        Channel { transport, log: Ghost(Seq::empty()) }
    }

    /// Asks the transport to send `data`.
    pub fn write(&mut self, data: &[u8]) -> (r: Result<(), Error>)
        ensures
            final(self).log() == old(self).log().push(
                asked(Call::Write(data@), r, Seq::empty()),
            ),
    {
        let r = self.transport.write(data);
        proof {
            self.log@ = self.log@.push(
                asked(Call::Write(data@), r, Seq::empty()),
            );
        }
        r
    }

    /// Asks the transport to fill `data`.
    pub fn read(&mut self, data: &mut [u8]) -> (r: Result<(), Error>)
        ensures
            final(data)@.len() == old(data)@.len(),
            final(self).log() == old(self).log().push(
                asked(Call::Read(old(data)@.len() as nat), r, final(data)@),
            ),
    {
        let r = self.transport.read(data);
        proof {
            self.log@ = self.log@.push(
                asked(Call::Read(old(data)@.len() as nat), r, data@),
            );
        }
        r
    }

    /// Asks the transport to drive the reset line to `level`.
    pub fn set_reset(&mut self, level: bool) -> (r: Result<(), Error>)
        ensures
            final(self).log() == old(self).log().push(
                asked(Call::Reset(level), r, Seq::empty()),
            ),
    {
        let r = self.transport.set_reset(level);
        proof {
            self.log@ = self.log@.push(
                asked(Call::Reset(level), r, Seq::empty()),
            );
        }
        r
    }
}

} // verus!
