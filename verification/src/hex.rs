//! Intel HEX: the records of an object file, and the sections they describe.

use vstd::prelude::*;
use vstd::utf8::{decode_utf8, valid_utf8};
use crate::error::Error;
use crate::layout::{Span, page_ceil};

verus! {

/// One record of an Intel HEX object file.
#[derive(PartialEq, Eq, Debug)]
pub enum HexRecord {
    /// Bytes to be placed `offset` bytes above the base address in force.
    Data { offset: u16, value: Vec<u8> },
    /// The end of the object file.
    EndOfFile,
    /// A new base address, given as a segment: sixteen times this value.
    ExtendedSegmentAddress(u16),
    /// Where execution starts, as a segment and an offset.
    StartSegmentAddress { cs: u16, ip: u16 },
    /// A new base address, given as its upper sixteen bits.
    ExtendedLinearAddress(u16),
    /// Where execution starts, as a linear address.
    StartLinearAddress(u32),
}

/// What `ihex::Reader`, in its default configuration, yields for `text`, from
/// the first item to the last.
pub uninterp spec fn intel_hex_records(text: Seq<char>) -> Seq<
    Result<HexRecord, ihex::ReaderError>,
>;

/// Reads `text` with `ihex::Reader::new` and collects what it yields: one
/// item for each line that is not empty, up to and including the first that
/// does not parse or the first end-of-file record. Nothing is claimed of the
/// items but that they are a function of the text.
#[verifier::external_body]
pub(crate) fn read_records(text: &str) -> (records: Vec<Result<HexRecord, ihex::ReaderError>>)
    ensures
        records@ == intel_hex_records(text@),
{
    ihex::Reader::new(text).map(|item| item.map(|record| match record {
        ihex::Record::Data { offset, value } => HexRecord::Data { offset, value },
        ihex::Record::EndOfFile => HexRecord::EndOfFile,
        ihex::Record::ExtendedSegmentAddress(address) => HexRecord::ExtendedSegmentAddress(address),
        ihex::Record::StartSegmentAddress { cs, ip } => HexRecord::StartSegmentAddress { cs, ip },
        ihex::Record::ExtendedLinearAddress(address) => HexRecord::ExtendedLinearAddress(address),
        ihex::Record::StartLinearAddress(address) => HexRecord::StartLinearAddress(address),
    })).collect()
}

/// `std::str::from_utf8`: the text that `raw` encodes where it is valid
/// UTF-8, and an error where it is not.
#[verifier::external_body]
pub(crate) fn text_of(raw: &[u8]) -> (r: Result<&str, std::str::Utf8Error>)
    ensures
        match r {
            Ok(text) => valid_utf8(raw@) && text@ == decode_utf8(raw@),
            Err(_) => !valid_utf8(raw@),
        },
{
    std::str::from_utf8(raw)
}

/// What a line holds as far as it has been read.
#[derive(Clone, Copy, PartialEq, Eq, Debug, Structural)]
pub enum LineSoFar {
    /// Nothing.
    Nothing,
    /// A carriage return and nothing else: nothing, if a line feed follows.
    Return,
    /// Something that makes the line a record.
    Text,
}

/// The number of the line that holds the record with the number `record`,
/// both counted from one, where the bytes from index `at` on are still to be
/// read, `line` is the number of the line that they begin in, and `so_far`
/// is what that line holds in front of them; zero where there is no such
/// record. Lines end with a line feed, or with the text. A line that holds
/// nothing, or nothing but a carriage return in front of its line feed, is
/// no record.
pub open spec fn record_line_from(
    bytes: Seq<u8>,
    at: nat,
    line: nat,
    so_far: LineSoFar,
    record: nat,
) -> nat
    decreases bytes.len() - at,
{
    if record == 0 {
        0
    } else if at >= bytes.len() {
        if so_far != LineSoFar::Nothing && record == 1 {
            line
        } else {
            0
        }
    } else if bytes[at as int] == 0x0A {
        if so_far == LineSoFar::Text {
            if record == 1 {
                line
            } else {
                record_line_from(bytes, at + 1, line + 1, LineSoFar::Nothing, (record - 1) as nat)
            }
        } else {
            record_line_from(bytes, at + 1, line + 1, LineSoFar::Nothing, record)
        }
    } else if so_far == LineSoFar::Nothing && bytes[at as int] == 0x0D {
        record_line_from(bytes, at + 1, line, LineSoFar::Return, record)
    } else {
        record_line_from(bytes, at + 1, line, LineSoFar::Text, record)
    }
}

/// The number of the line of `bytes` that holds the record with the number
/// `record`, both counted from one; zero where there is no such record.
pub open spec fn record_line(bytes: Seq<u8>, record: nat) -> nat {
    record_line_from(bytes, 0, 1, LineSoFar::Nothing, record)
}

/// What decoding comes to for the text `bytes`: a record that did not parse
/// is named by the number of its line in the text, not by its own.
pub open spec fn located(want: Result<Seq<Span>, Error>, bytes: Seq<u8>) -> Result<
    Seq<Span>,
    Error,
> {
    match want {
        Err(Error::IHexParseError(e, record)) => Err(
            Error::IHexParseError(e, record_line(bytes, record as nat) as usize),
        ),
        other => other,
    }
}

/// The number of the line of `text` that holds the record with the number
/// `record`, both counted from one; zero where there is no such record.
pub fn line_of_record(text: &[u8], record: usize) -> (r: usize)
    ensures
        r == record_line(text@, record as nat),
        r <= text@.len(),
{
    if record == 0 {
        return 0;
    }
    let mut at: usize = 0;
    let mut lines_before: usize = 0;
    let mut so_far = LineSoFar::Nothing;
    let mut left: usize = record;
    while at < text.len()
        invariant
            at <= text.len(),
            left >= 1,
            lines_before + (if so_far == LineSoFar::Nothing { 0nat } else { 1nat }) <= at,
            record_line(text@, record as nat) == record_line_from(
                text@,
                at as nat,
                (lines_before + 1) as nat,
                so_far,
                left as nat,
            ),
        decreases text.len() - at,
    {
        let byte = text[at];
        if byte == 0x0A {
            if so_far == LineSoFar::Text {
                if left == 1 {
                    return lines_before + 1;
                }
                left -= 1;
            }
            lines_before += 1;
            so_far = LineSoFar::Nothing;
        } else if so_far == LineSoFar::Nothing && byte == 0x0D {
            so_far = LineSoFar::Return;
        } else {
            so_far = LineSoFar::Text;
        }
        at += 1;
    }
    if so_far != LineSoFar::Nothing && left == 1 {
        lines_before + 1
    } else {
        0
    }
}

/// The base address in force behind `records`: that of the last address
/// record among them, and zero where there is none.
pub open spec fn base_after(records: Seq<Result<HexRecord, ihex::ReaderError>>) -> nat
    decreases records.len(),
{
    if records.len() == 0 {
        0
    } else {
        match records.last() {
            Ok(HexRecord::ExtendedSegmentAddress(address)) => address as nat * 16,
            Ok(HexRecord::ExtendedLinearAddress(address)) => address as nat * 65536,
            _ => base_after(records.drop_last()),
        }
    }
}

/// The section that a data record at index `i` of `records` describes.
pub open spec fn span_at(
    records: Seq<Result<HexRecord, ihex::ReaderError>>,
    i: int,
    base_offset: nat,
) -> Span {
    match records[i] {
        Ok(HexRecord::Data { offset, value }) => Span {
            offset: base_offset + base_after(records.take(i)) + offset as nat,
            data: value@,
        },
        _ => Span { offset: 0, data: Seq::empty() },
    }
}

/// The sections that the data records among `records` describe, in the order
/// of the records.
pub open spec fn data_spans(
    records: Seq<Result<HexRecord, ihex::ReaderError>>,
    base_offset: nat,
) -> Seq<Span>
    decreases records.len(),
{
    if records.len() == 0 {
        Seq::empty()
    } else {
        let front = data_spans(records.drop_last(), base_offset);
        match records.last() {
            Ok(HexRecord::Data { offset, value }) => front.push(
                span_at(records, records.len() - 1, base_offset),
            ),
            _ => front,
        }
    }
}

/// The number of records at the front of `records` that parsed.
pub open spec fn leading_ok(records: Seq<Result<HexRecord, ihex::ReaderError>>) -> nat
    decreases records.len(),
{
    if records.len() == 0 {
        0
    } else {
        let before = leading_ok(records.drop_last());
        if before == records.len() - 1 && records.last() is Ok {
            records.len()
        } else {
            before
        }
    }
}

/// What `records` decode to: the sections of the data records, or the first
/// record that did not parse, with its number counted from one.
pub open spec fn decoded(
    records: Seq<Result<HexRecord, ihex::ReaderError>>,
    base_offset: nat,
) -> Result<Seq<Span>, Error> {
    let good = leading_ok(records);
    if good < records.len() {
        Err(Error::IHexParseError(records[good as int]->Err_0, (good + 1) as usize))
    } else {
        Ok(data_spans(records, base_offset))
    }
}

/// Every data record in front of the first failure describes a section whose
/// last page ends within the address space.
pub open spec fn records_fit(
    records: Seq<Result<HexRecord, ihex::ReaderError>>,
    page: nat,
    base_offset: nat,
) -> bool {
    forall|i: int|
        0 <= i < leading_ok(records) && (#[trigger] records[i]) is Ok && records[i]->Ok_0 is Data
            ==> page_ceil(span_at(records, i, base_offset).end(), page) <= usize::MAX
}

/// No record in front of `leading_ok` failed, and the one at it did.
pub proof fn lemma_leading_ok(records: Seq<Result<HexRecord, ihex::ReaderError>>)
    ensures
        leading_ok(records) <= records.len(),
        forall|i: int| 0 <= i < leading_ok(records) ==> (#[trigger] records[i]) is Ok,
        leading_ok(records) < records.len() ==> records[leading_ok(records) as int] is Err,
    decreases records.len(),
{
    if records.len() > 0 {
        let front = records.drop_last();
        lemma_leading_ok(front);
        assert forall|i: int| 0 <= i < leading_ok(records) implies (#[trigger] records[i])
            is Ok by {
            if i < records.len() - 1 {
                assert(front[i] == records[i]);
            }
        }
        if leading_ok(front) < front.len() {
            assert(front[leading_ok(front) as int] == records[leading_ok(front) as int]);
        }
    }
}

/// A sequence of records that all parsed has no failure.
pub proof fn lemma_leading_ok_all(records: Seq<Result<HexRecord, ihex::ReaderError>>)
    requires
        forall|i: int| 0 <= i < records.len() ==> (#[trigger] records[i]) is Ok,
    ensures
        leading_ok(records) == records.len(),
    decreases records.len(),
{
    if records.len() > 0 {
        let front = records.drop_last();
        assert forall|i: int| 0 <= i < front.len() implies (#[trigger] front[i]) is Ok by {
            assert(front[i] == records[i]);
        }
        lemma_leading_ok_all(front);
    }
}

/// Behind a record that did not parse, nothing is counted any more.
pub proof fn lemma_leading_ok_stops(records: Seq<Result<HexRecord, ihex::ReaderError>>, n: int)
    requires
        0 <= n < records.len(),
        forall|i: int| 0 <= i < n ==> (#[trigger] records[i]) is Ok,
        records[n] is Err,
    ensures
        leading_ok(records) == n,
    decreases records.len(),
{
    let front = records.drop_last();
    if n == records.len() - 1 {
        assert forall|i: int| 0 <= i < front.len() implies (#[trigger] front[i]) is Ok by {
            assert(front[i] == records[i]);
        }
        lemma_leading_ok_all(front);
    } else {
        assert forall|i: int| 0 <= i < n implies (#[trigger] front[i]) is Ok by {
            assert(front[i] == records[i]);
        }
        assert(front[n] == records[n]);
        lemma_leading_ok_stops(front, n);
    }
}

} // verus!
