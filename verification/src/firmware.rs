//! Firmware images: sections of bytes, aligned and merged into whole pages.

use vstd::prelude::*;
use vstd::pervasive::unreached;
use vstd::string::StringSliceAdditionalSpecFns;
use vstd::utf8::{decode_utf8, valid_utf8};
use crate::error::Error;
use crate::hex::{
    HexRecord, base_after, data_spans, decoded, intel_hex_records, lemma_leading_ok,
    lemma_leading_ok_all, lemma_leading_ok_stops, line_of_record, located, read_records,
    records_fit, span_at, text_of,
};
use crate::layout::{
    Span, FILLER, absorbed, apart, ascending, blank, filled, laid_out, lemma_merge_in_order,
    lemma_merged_in, lemma_ordered, lemma_page_ceil, lemma_page_floor, lemma_placed_at_rank,
    lemma_rank_is, lemma_round_shift, lemma_total_len_bound, merge_in_order, merged, merged_in,
    opened, ordered, overlaid, page_ceil, placed, total_len,
};
use crate::transport::same_bytes;

verus! {

/// One contiguous range of the target's memory, with the bytes that belong
/// there.
#[derive(PartialEq, Eq, Debug)]
pub struct Section {
    offset: usize,
    data: Vec<u8>,
}

impl View for Section {
    type V = Span;

    closed spec fn view(&self) -> Span {
        Span { offset: self.offset as nat, data: self.data@ }
    }
}

/// The mathematical values of `sections`, in the same order.
pub open spec fn spans(sections: Seq<Section>) -> Seq<Span> {
    sections.map_values(|s: Section| s@)
}

impl Section {
    /// A section that holds `data` at `offset`.
    pub fn new(offset: usize, data: Vec<u8>) -> (s: Section)
        ensures
            s@ == (Span { offset: offset as nat, data: data@ }),
    {
        Section { offset, data }
    }

    /// Where the section begins.
    pub fn offset(&self) -> (r: usize)
        ensures
            r == self@.offset,
    {
        self.offset
    }

    /// The bytes of the section.
    pub fn data(&self) -> (r: &[u8])
        ensures
            r@ == self@.data,
    {
        self.data.as_slice()
    }

    /// The number of bytes in the section.
    pub fn len(&self) -> (r: usize)
        ensures
            r == self@.len(),
    {
        self.data.len()
    }

    /// Whether the section holds no byte.
    pub fn is_empty(&self) -> (r: bool)
        ensures
            r == (self@.len() == 0),
    {
        self.len() == 0
    }

    /// The offset just behind the section's last byte.
    pub fn end(&self) -> (r: usize)
        requires
            self@.end() <= usize::MAX,
        ensures
            r == self@.end(),
    {
        self.offset + self.len()
    }
}

/// The two encodings of a firmware file.
#[derive(Clone, Copy, PartialEq, Eq, Debug, Structural)]
pub enum ImageFormat {
    /// Intel HEX text.
    IntelHex,
    /// The bytes as they are.
    RawBinary,
}

/// The file name extensions of Intel HEX files, `hex`, `ihex` and `ihx`, as
/// bytes.
pub open spec fn names_intel_hex(extension: Seq<u8>) -> bool {
    ||| extension == seq![0x68u8, 0x65u8, 0x78u8]
    ||| extension == seq![0x69u8, 0x68u8, 0x65u8, 0x78u8]
    ||| extension == seq![0x69u8, 0x68u8, 0x78u8]
}

/// The mathematical value of a firmware image.
pub struct Image {
    pub len: nat,
    pub page_size: nat,
    pub sections: Seq<Span>,
}

/// A firmware image ready to be written: whole pages, in ascending order.
#[derive(Debug)]
pub struct Firmware {
    len: usize,
    page_size: usize,
    sections: Vec<Section>,
}

impl View for Firmware {
    type V = Image;

    closed spec fn view(&self) -> Image {
        Image {
            len: self.len as nat,
            page_size: self.page_size as nat,
            sections: spans(self.sections@),
        }
    }
}

/// `r` is the outcome that `want` asks for: the image of those sections on
/// pages of `page` bytes, or that error.
pub open spec fn loaded(
    r: Result<Firmware, Error>,
    want: Result<Seq<Span>, Error>,
    page: nat,
) -> bool {
    match (r, want) {
        (Ok(firmware), Ok(sections)) => {
            &&& firmware@.page_size == page
            &&& firmware@.sections == merged(sections, page)
            &&& firmware@.len == total_len(firmware@.sections)
        },
        (Err(e), Err(w)) => e == w,
        _ => false,
    }
}

/// `x` rounded up to a multiple of `page`.
fn round_up(x: usize, page: usize) -> (r: usize)
    requires
        page > 0,
        page_ceil(x as nat, page as nat) <= usize::MAX,
    ensures
        r == page_ceil(x as nat, page as nat),
{
    let rest = x % page;
    if rest == 0 {
        x
    } else {
        x + (page - rest)
    }
}

/// Sorts `sections` ascending by offset, keeping the order of those that
/// begin at the same offset.
fn sort_by_offset(sections: Vec<Section>) -> (sorted: Vec<Section>)
    ensures
        spans(sorted@) == ordered(spans(sections@)),
{
    let ghost all = spans(sections@);
    let mut input = sections;
    let mut sorted: Vec<Section> = Vec::new();
    proof {
        assert(all.skip(all.len() as int) =~= Seq::<Span>::empty());
    }
    while input.len() > 0
        invariant
            input.len() <= all.len(),
            spans(input@) == all.take(input.len() as int),
            spans(sorted@) == ordered(all.skip(input.len() as int)),
        decreases input.len(),
    {
        let ghost before = spans(sorted@);
        let ghost n = input.len() as int;
        let section = input.pop().unwrap();
        let mut k: usize = 0;
        while k < sorted.len() && sorted[k].offset < section.offset
            invariant
                k <= sorted.len(),
                spans(sorted@) == before,
                forall|j: int| 0 <= j < k ==> (#[trigger] before[j]).offset < section@.offset,
            decreases sorted.len() - k,
        {
            k += 1;
        }
        proof {
            assert(section@ == all[n - 1]) by {
                assert(all.take(n)[n - 1] == all[n - 1]);
            }
            assert(k < sorted.len() ==> before[k as int] == sorted[k as int]@);
            lemma_rank_is(section@, before, k as int);
            lemma_placed_at_rank(section@, before);
            assert(all.skip(n - 1)[0] == all[n - 1]);
            assert(all.skip(n - 1).drop_first() =~= all.skip(n));
        }
        sorted.insert(k, section);
        proof {
            assert(spans(sorted@) =~= before.insert(k as int, section@));
            assert(spans(input@) =~= all.take(n - 1));
        }
    }
    proof {
        assert(all.skip(0) =~= all);
    }
    sorted
}

impl Firmware {
    /// What every image satisfies: the page size is not zero, the sections are
    /// laid out in whole pages, none reaches beyond the address space, and
    /// `len` counts their bytes.
    #[verifier::type_invariant]
    pub closed spec fn well_formed(&self) -> bool {
        &&& self.page_size > 0
        &&& laid_out(spans(self.sections@), self.page_size as nat)
        &&& forall|i: int|
            0 <= i < self.sections@.len() ==> (#[trigger] self.sections@[i])@.end() <= usize::MAX
        &&& self.len == total_len(spans(self.sections@))
    }

    /// The image that holds `raw` at `base_offset`, grown to whole pages.
    pub fn from_raw_bytes(raw: Vec<u8>, page_size: usize, base_offset: usize) -> (r: Result<
        Firmware,
        Error,
    >)
        requires
            page_size > 0,
            page_ceil((base_offset + raw.len()) as nat, page_size as nat) <= usize::MAX,
        ensures
            r is Ok,
            r.unwrap()@.page_size == page_size,
            r.unwrap()@.sections == merged(
                seq![Span { offset: base_offset as nat, data: raw@ }],
                page_size as nat,
            ),
            r.unwrap()@.sections == seq![
                opened(Span { offset: base_offset as nat, data: raw@ }, page_size as nat),
            ],
            r.unwrap()@.len == total_len(r.unwrap()@.sections),
    {
        let ghost only = Span { offset: base_offset as nat, data: raw@ };
        let mut sections: Vec<Section> = Vec::new();
        sections.push(Section { offset: base_offset, data: raw });
        proof {
            assert(spans(sections@) =~= seq![only]);
            let one = seq![only];
            assert(one.drop_first() =~= Seq::<Span>::empty());
            assert(ordered(one.drop_first()) =~= Seq::<Span>::empty());
            assert(placed(only, Seq::<Span>::empty()) =~= one);
            assert(ordered(one) == one);
            assert(one.drop_last() =~= Seq::<Span>::empty());
            assert(merge_in_order(one.drop_last(), page_size as nat) =~= Seq::<Span>::empty());
            assert(merge_in_order(one, page_size as nat) =~= seq![opened(only, page_size as nat)]);
        }
        let sections = Self::align_and_merge_sections(sections, page_size);
        let len = Self::sections_len(sections.as_slice());
        Ok(Firmware { len, page_size, sections })
    }

    /// The encoding that a file with this name extension is read as: Intel
    /// HEX for `hex`, `ihex` and `ihx`, written so, and raw binary for every
    /// other.
    pub fn format_for_extension(extension: &str) -> (r: ImageFormat)
        ensures
            r == if names_intel_hex(extension.spec_bytes()) {
                ImageFormat::IntelHex
            } else {
                ImageFormat::RawBinary
            },
    {
        let bytes = extension.as_bytes();
        let hex: [u8; 3] = [0x68, 0x65, 0x78];
        let ihex: [u8; 4] = [0x69, 0x68, 0x65, 0x78];
        let ihx: [u8; 3] = [0x69, 0x68, 0x78];
        proof {
            assert(hex@ =~= seq![0x68u8, 0x65u8, 0x78u8]);
            assert(ihex@ =~= seq![0x69u8, 0x68u8, 0x65u8, 0x78u8]);
            assert(ihx@ =~= seq![0x69u8, 0x68u8, 0x78u8]);
        }
        if same_bytes(bytes, &hex) || same_bytes(bytes, &ihex) || same_bytes(bytes, &ihx) {
            ImageFormat::IntelHex
        } else {
            ImageFormat::RawBinary
        }
    }

    /// Whether a section of `len` bytes at the sum of the three offsets
    /// ends, with its last page, within the address space.
    fn ends_within(
        base_offset: usize,
        hex_offset: u32,
        offset: u16,
        len: usize,
        page_size: usize,
    ) -> (r: bool)
        requires
            page_size > 0,
        ensures
            r == (page_ceil(
                (base_offset + hex_offset + offset + len) as nat,
                page_size as nat,
            ) <= usize::MAX),
    {
        proof {
            lemma_page_ceil((base_offset + hex_offset + offset + len) as nat, page_size as nat);
        }
        match base_offset.checked_add(hex_offset as usize) {
            Some(first) => match first.checked_add(offset as usize) {
                Some(second) => match second.checked_add(len) {
                    Some(end) => {
                        let rest = end % page_size;
                        rest == 0 || end.checked_add(page_size - rest).is_some()
                    },
                    None => false,
                },
                None => false,
            },
            None => false,
        }
    }

    /// Whether every section that `records` describe ends, with its last
    /// page, within the address space.
    pub fn fits(
        records: &[Result<HexRecord, ihex::ReaderError>],
        page_size: usize,
        base_offset: usize,
    ) -> (r: bool)
        requires
            page_size > 0,
        ensures
            r == records_fit(records@, page_size as nat, base_offset as nat),
    {
        let ghost all = records@;
        let ghost page = page_size as nat;
        let ghost base = base_offset as nat;
        let mut hex_offset: u32 = 0;
        let mut i: usize = 0;
        proof {
            assert(all.take(0) =~= Seq::<Result<HexRecord, ihex::ReaderError>>::empty());
        }
        while i < records.len()
            invariant
                i <= records.len(),
                all == records@,
                page == page_size,
                page > 0,
                base == base_offset,
                hex_offset == base_after(all.take(i as int)),
                forall|j: int| 0 <= j < i ==> (#[trigger] all[j]) is Ok,
                forall|j: int|
                    0 <= j < i && (#[trigger] all[j]) is Ok && all[j]->Ok_0 is Data ==> page_ceil(
                        span_at(all, j, base).end(),
                        page,
                    ) <= usize::MAX,
            decreases records.len() - i,
        {
            proof {
                assert(all.take(i + 1).drop_last() =~= all.take(i as int));
                assert(all.take(i + 1).last() == all[i as int]);
                lemma_leading_ok(all);
            }
            match &records[i] {
                Ok(HexRecord::Data { offset, value }) => {
                    let fitting = Self::ends_within(
                        base_offset,
                        hex_offset,
                        *offset,
                        value.len(),
                        page_size,
                    );
                    if !fitting {
                        return false;
                    }
                },
                Ok(HexRecord::ExtendedSegmentAddress(address)) => {
                    hex_offset = (*address as u32) * 16;
                },
                Ok(HexRecord::ExtendedLinearAddress(address)) => {
                    let upper = *address as u32;
                    assert(upper << 16 == upper * 65536) by (bit_vector)
                        requires
                            upper < 65536,
                    ;
                    hex_offset = upper << 16;
                },
                Ok(_) => {},
                Err(_) => {
                    proof {
                        lemma_leading_ok_stops(all, i as int);
                    }
                    return true;
                },
            }
            i += 1;
        }
        proof {
            lemma_leading_ok(all);
        }
        true
    }

    /// The image that `records` describe: the sections of the data records,
    /// each at `base_offset` plus the base address in force plus its own
    /// offset, aligned and merged. The first record that did not parse ends
    /// the decoding with its number among the records, counted from one:
    /// the records come without their text, so their lines are not known
    /// here.
    pub fn from_records(
        records: Vec<Result<HexRecord, ihex::ReaderError>>,
        page_size: usize,
        base_offset: usize,
    ) -> (r: Result<Firmware, Error>)
        requires
            page_size > 0,
            records_fit(records@, page_size as nat, base_offset as nat),
        ensures
            loaded(r, decoded(records@, base_offset as nat), page_size as nat),
    {
        let ghost all = records@;
        let ghost page = page_size as nat;
        let ghost base = base_offset as nat;
        let mut queue = records;
        let mut hex_offset: u32 = 0;
        let mut sections: Vec<Section> = Vec::new();
        let mut i: usize = 0;
        proof {
            assert(all.take(0) =~= Seq::<Result<HexRecord, ihex::ReaderError>>::empty());
        }
        while i < queue.len()
            invariant
                i <= queue.len(),
                all == records@,
                all == queue@,
                page == page_size,
                page > 0,
                base == base_offset,
                records_fit(all, page, base),
                hex_offset == base_after(all.take(i as int)),
                forall|j: int| 0 <= j < i ==> (#[trigger] all[j]) is Ok,
                spans(sections@) == data_spans(all.take(i as int), base),
                forall|k: int|
                    0 <= k < sections@.len() ==> page_ceil((#[trigger] sections@[k])@.end(), page)
                        <= usize::MAX,
            decreases queue.len() - i,
        {
            proof {
                assert(all.take(i + 1).drop_last() =~= all.take(i as int));
                assert(all.take(i + 1).last() == all[i as int]);
                assert(all.take(i + 1).take(i as int) =~= all.take(i as int));
                lemma_leading_ok(all);
            }
            if queue[i].is_err() {
                proof {
                    lemma_leading_ok_stops(all, i as int);
                }
                let failed = queue.swap_remove(i);
                return match failed {
                    Err(e) => Err(Error::IHexParseError(e, i + 1)),
                    Ok(_) => unreached(),
                };
            }
            match &queue[i] {
                Ok(HexRecord::Data { offset, value }) => {
                    proof {
                        lemma_page_ceil(span_at(all, i as int, base).end(), page);
                    }
                    let full_offset = base_offset + hex_offset as usize + *offset as usize;
                    let mut data: Vec<u8> = Vec::new();
                    data.extend_from_slice(value.as_slice());
                    proof {
                        assert(data@ =~= value@);
                    }
                    sections.push(Section { offset: full_offset, data });
                    proof {
                        assert(spans(sections@) =~= data_spans(all.take(i + 1), base));
                    }
                },
                Ok(HexRecord::ExtendedSegmentAddress(address)) => {
                    hex_offset = (*address as u32) * 16;
                },
                Ok(HexRecord::ExtendedLinearAddress(address)) => {
                    let upper = *address as u32;
                    assert(upper << 16 == upper * 65536) by (bit_vector)
                        requires
                            upper < 65536,
                    ;
                    hex_offset = upper << 16;
                },
                _ => {},
            }
            i += 1;
        }
        proof {
            assert(all.take(i as int) =~= all);
            lemma_leading_ok_all(all);
        }
        let sections = Self::align_and_merge_sections(sections, page_size);
        let len = Self::sections_len(sections.as_slice());
        Ok(Firmware { len, page_size, sections })
    }

    /// The image that the Intel HEX text in `raw` describes. A record that
    /// does not parse ends the loading with the number of its line in the
    /// text, counted from one.
    ///
    /// Input that is not valid UTF-8 is refused before any record is read.
    pub fn from_intel_hex(raw: Vec<u8>, page_size: usize, base_offset: usize) -> (r: Result<
        Firmware,
        Error,
    >)
        requires
            page_size > 0,
            valid_utf8(raw@) ==> records_fit(
                intel_hex_records(decode_utf8(raw@)),
                page_size as nat,
                base_offset as nat,
            ),
        ensures
            valid_utf8(raw@) ==> loaded(
                r,
                located(
                    decoded(intel_hex_records(decode_utf8(raw@)), base_offset as nat),
                    raw@,
                ),
                page_size as nat,
            ),
            !valid_utf8(raw@) ==> r is Err && r->Err_0 is IHexDecodeError,
    {
        match text_of(raw.as_slice()) {
            Err(e) => Err(Error::IHexDecodeError(e)),
            Ok(text) => {
                let records = read_records(text);
                match Self::from_records(records, page_size, base_offset) {
                    Err(Error::IHexParseError(e, record)) => Err(
                        Error::IHexParseError(e, line_of_record(raw.as_slice(), record)),
                    ),
                    other => other,
                }
            },
        }
    }

    /// The image that the Intel HEX text in `raw` describes, where it can be
    /// laid out: `None` where the page size is zero, or where a section would
    /// reach beyond the address space.
    pub fn try_from_intel_hex(raw: Vec<u8>, page_size: usize, base_offset: usize) -> (r: Option<
        Result<Firmware, Error>,
    >)
        ensures
            r is Some <==> page_size > 0 && (valid_utf8(raw@) ==> records_fit(
                intel_hex_records(decode_utf8(raw@)),
                page_size as nat,
                base_offset as nat,
            )),
            r is Some && valid_utf8(raw@) ==> loaded(
                r->Some_0,
                located(
                    decoded(intel_hex_records(decode_utf8(raw@)), base_offset as nat),
                    raw@,
                ),
                page_size as nat,
            ),
            r is Some && !valid_utf8(raw@) ==> r->Some_0 is Err
                && r->Some_0->Err_0 is IHexDecodeError,
    {
        if page_size == 0 {
            return None;
        }
        let fitting = match text_of(raw.as_slice()) {
            Err(_) => true,
            Ok(text) => {
                let records = read_records(text);
                Self::fits(records.as_slice(), page_size, base_offset)
            },
        };
        if fitting {
            Some(Self::from_intel_hex(raw, page_size, base_offset))
        } else {
            None
        }
    }

    /// Sorts `sections` by offset and merges them into the whole pages that
    /// they touch: sections whose pages overlap or adjoin become one, later
    /// bytes replace earlier ones, and untouched bytes of a touched page are
    /// filler.
    #[verifier::rlimit(30)]
    pub fn align_and_merge_sections(sections: Vec<Section>, page_size: usize) -> (result: Vec<
        Section,
    >)
        requires
            page_size > 0,
            forall|i: int|
                0 <= i < sections@.len() ==> page_ceil(
                    (#[trigger] sections@[i])@.end(),
                    page_size as nat,
                ) <= usize::MAX,
        ensures
            spans(result@) == merged(spans(sections@), page_size as nat),
            laid_out(spans(result@), page_size as nat),
            forall|i: int| 0 <= i < result@.len() ==> (#[trigger] result@[i])@.end() <= usize::MAX,
    {
        let ghost page = page_size as nat;
        let ghost given = spans(sections@);
        let sorted = sort_by_offset(sections);
        let ghost input = spans(sorted@);
        proof {
            broadcast use vstd::seq_lib::group_to_multiset_ensures;

            lemma_ordered(given);
            assert forall|i: int| 0 <= i < input.len() implies page_ceil(
                (#[trigger] input[i]).end(),
                page,
            ) <= usize::MAX by {
                assert(input.contains(input[i]));
                assert(given.to_multiset().count(input[i]) > 0);
                assert(given.contains(input[i]));
                let j = choose|j: int| 0 <= j < given.len() && given[j] == input[i];
                assert(given[j] == sections@[j]@);
            }
            assert(input.take(0) =~= Seq::<Span>::empty());
        }
        let mut result: Vec<Section> = Vec::new();
        let mut i: usize = 0;
        while i < sorted.len()
            invariant
                page == page_size,
                page > 0,
                i <= sorted.len(),
                input == spans(sorted@),
                ascending(input),
                forall|j: int| 0 <= j < input.len() ==> page_ceil((#[trigger] input[j]).end(), page)
                    <= usize::MAX,
                spans(result@) == merge_in_order(input.take(i as int), page),
            decreases sorted.len() - i,
        {
            let ghost acc = spans(result@);
            let section = &sorted[i];
            let ghost s = section@;
            proof {
                let done = input.take(i as int);
                assert forall|a: int, b: int| 0 <= a < b < done.len() implies done[a].offset
                    <= done[b].offset by {
                    assert(done[a] == input[a] && done[b] == input[b]);
                }
                assert forall|j: int| 0 <= j < done.len() implies page_ceil(
                    (#[trigger] done[j]).end(),
                    page,
                ) <= usize::MAX by {
                    assert(done[j] == input[j]);
                }
                lemma_merge_in_order(done, page, usize::MAX as nat);
                if i > 0 {
                    assert(done.last() == input[i - 1]);
                }
                assert(s == input[i as int]);
                lemma_merged_in(acc, s, page);
                lemma_page_floor(s.offset, page);
                lemma_page_ceil(s.end(), page);
                assert(input.take(i + 1).drop_last() =~= done);
                assert(input.take(i + 1).last() == s);
            }
            let aligned_offset = section.offset / page_size * page_size;
            let joined = result.len() > 0 && aligned_offset <= result[result.len() - 1].end();
            if joined {
                let mut prev = result.pop().unwrap();
                let ghost before = prev@;
                let inner_offset = section.offset - prev.offset;
                proof {
                    assert(before == acc.last());
                    lemma_round_shift(before.offset, (inner_offset + s.len()) as nat, page);
                    lemma_page_ceil((inner_offset + s.len()) as nat, page);
                }
                let required_len = inner_offset + section.len();
                let aligned_len = round_up(required_len, page_size);
                let target_len = if aligned_len > prev.data.len() {
                    aligned_len
                } else {
                    prev.data.len()
                };
                prev.data.resize(target_len, FILLER);
                proof {
                    assert(prev.data@ =~= filled(before.data, aligned_len as nat));
                }
                let ghost grown = prev.data@;
                let mut j: usize = 0;
                while j < section.data.len()
                    invariant
                        j <= section.data.len(),
                        s == section@,
                        s.data == section.data@,
                        prev.offset == before.offset,
                        prev.data@.len() == grown.len(),
                        grown.len() == target_len,
                        inner_offset + s.len() <= grown.len(),
                        prev.data@ == overlaid(grown, inner_offset as nat, s.data.take(j as int)),
                    decreases section.data.len() - j,
                {
                    prev.data.set(inner_offset + j, section.data[j]);
                    j += 1;
                    proof {
                        assert(prev.data@ =~= overlaid(
                            grown,
                            inner_offset as nat,
                            s.data.take(j as int),
                        ));
                    }
                }
                proof {
                    assert(s.data.take(j as int) =~= s.data);
                    assert(prev@.offset == before.offset);
                    assert(prev@.data == overlaid(grown, inner_offset as nat, s.data));
                    assert(prev@ == absorbed(before, s, page));
                }
                result.push(prev);
                proof {
                    assert(spans(result@) =~= merged_in(acc, s, page));
                }
            } else {
                let inner_offset = section.offset - aligned_offset;
                proof {
                    lemma_round_shift(aligned_offset as nat, (inner_offset + s.len()) as nat, page);
                    lemma_page_ceil((inner_offset + s.len()) as nat, page);
                }
                let required_len = inner_offset + section.len();
                let aligned_len = round_up(required_len, page_size);
                let mut data: Vec<u8> = Vec::new();
                data.resize(inner_offset, FILLER);
                proof {
                    assert(data@ =~= blank(inner_offset as nat));
                }
                data.extend_from_slice(section.data.as_slice());
                let ghost joint = data@;
                data.resize(aligned_len, FILLER);
                proof {
                    assert(joint =~= blank(inner_offset as nat) + s.data);
                    assert(data@.subrange(0, joint.len() as int) == joint);
                    assert(data@ =~= filled(joint, aligned_len as nat));
                }
                let opened_section = Section { offset: aligned_offset, data };
                proof {
                    assert(opened_section@ == opened(s, page));
                }
                result.push(opened_section);
                proof {
                    assert(spans(result@) =~= merged_in(acc, s, page));
                }
            }
            i += 1;
        }
        proof {
            assert(input.take(i as int) =~= input);
            lemma_merge_in_order(input, page, usize::MAX as nat);
            assert forall|k: int| 0 <= k < result@.len() implies (#[trigger] result@[k])@.end()
                <= usize::MAX by {
                assert(spans(result@)[k] == result@[k]@);
            }
        }
        result
    }

    /// The number of bytes in all of `sections` together.
    fn sections_len(sections: &[Section]) -> (r: usize)
        requires
            apart(spans(sections@)),
            forall|i: int|
                0 <= i < sections@.len() ==> (#[trigger] sections@[i])@.end() <= usize::MAX,
        ensures
            r == total_len(spans(sections@)),
    {
        let ghost all = spans(sections@);
        let mut total: usize = 0;
        let mut i: usize = 0;
        proof {
            assert(all.take(0) =~= Seq::<Span>::empty());
        }
        while i < sections.len()
            invariant
                i <= sections.len(),
                all == spans(sections@),
                apart(all),
                forall|k: int|
                    0 <= k < sections@.len() ==> (#[trigger] sections@[k])@.end() <= usize::MAX,
                total == total_len(all.take(i as int)),
            decreases sections.len() - i,
        {
            proof {
                let next = all.take(i + 1);
                assert(next.drop_last() =~= all.take(i as int));
                assert(next.last() == sections@[i as int]@);
                assert forall|a: int, b: int| 0 <= a < b < next.len() implies next[a].end()
                    < next[b].offset by {
                    assert(next[a] == all[a] && next[b] == all[b]);
                }
                lemma_total_len_bound(next);
            }
            total = total + sections[i].len();
            i += 1;
        }
        proof {
            assert(all.take(i as int) =~= all);
        }
        total
    }

    /// The number of bytes in all sections together.
    pub fn len(&self) -> (r: usize)
        ensures
            r == self@.len,
            r == total_len(self@.sections),
    {
        proof {
            use_type_invariant(self);
        }
        self.len
    }

    /// The page size that the sections are aligned to.
    pub fn page_size(&self) -> (r: usize)
        ensures
            r == self@.page_size,
            r > 0,
    {
        proof {
            use_type_invariant(self);
        }
        self.page_size
    }

    /// The sections, ascending by offset.
    pub fn sections(&self) -> (r: &[Section])
        ensures
            spans(r@) == self@.sections,
            laid_out(self@.sections, self@.page_size),
            forall|i: int| 0 <= i < r@.len() ==> (#[trigger] r@[i])@.end() <= usize::MAX,
    {
        proof {
            use_type_invariant(self);
        }
        self.sections.as_slice()
    }

    /// Whether the image holds at least one byte: `true` for an image with
    /// bytes, `false` for one without.
    pub fn is_empty(&self) -> (r: bool)
        ensures
            r == (self@.len != 0),
    {
        self.len() != 0
    }
}

} // verus!
