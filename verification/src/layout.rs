//! How loose sections become whole flash pages: the mathematics of sorting,
//! aligning and merging, and the laws that the result obeys.

use vstd::prelude::*;
use vstd::arithmetic::div_mod::{lemma_fundamental_div_mod, lemma_mod_multiples_vanish};

verus! {

/// The byte that erased flash holds, used wherever a page is touched but a
/// byte of it is not given.
pub const FILLER: u8 = 0xFF;

/// A run of bytes at an offset in the target's memory: the mathematical value
/// of a section.
pub struct Span {
    pub offset: nat,
    pub data: Seq<u8>,
}

impl Span {
    pub open spec fn len(self) -> nat {
        self.data.len()
    }

    /// The offset just behind the last byte.
    pub open spec fn end(self) -> nat {
        self.offset + self.data.len()
    }
}

/// `x` rounded down to a multiple of `page`.
pub open spec fn page_floor(x: nat, page: nat) -> nat
    recommends
        page > 0,
{
    (x - x % page) as nat
}

/// `x` rounded up to a multiple of `page`.
pub open spec fn page_ceil(x: nat, page: nat) -> nat
    recommends
        page > 0,
{
    if x % page == 0 {
        x
    } else {
        (x + page - x % page) as nat
    }
}

/// `count` filler bytes.
pub open spec fn blank(count: nat) -> Seq<u8> {
    Seq::new(count, |i: int| FILLER)
}

/// `data`, extended with filler to `len` bytes where it is shorter.
pub open spec fn filled(data: Seq<u8>, len: nat) -> Seq<u8> {
    if len <= data.len() {
        data
    } else {
        data + blank((len - data.len()) as nat)
    }
}

/// `base` with the bytes from index `at` on replaced by `data`.
pub open spec fn overlaid(base: Seq<u8>, at: nat, data: Seq<u8>) -> Seq<u8> {
    Seq::new(
        base.len(),
        |i: int|
            if at <= i < at + data.len() {
                data[i - at]
            } else {
                base[i]
            },
    )
}

/// The whole pages that `s` touches, as a section of their own: filler in
/// front of the data down to the page boundary, and behind it up to the next.
pub open spec fn opened(s: Span, page: nat) -> Span {
    let start = page_floor(s.offset, page);
    let lead = (s.offset - start) as nat;
    Span { offset: start, data: filled(blank(lead) + s.data, page_ceil(lead + s.len(), page)) }
}

/// `prev` with `s` written into it: grown by whole pages of filler as far as
/// `s` reaches, then overwritten by the bytes of `s`.
pub open spec fn absorbed(prev: Span, s: Span, page: nat) -> Span {
    let at = (s.offset - prev.offset) as nat;
    Span {
        offset: prev.offset,
        data: overlaid(filled(prev.data, page_ceil(at + s.len(), page)), at, s.data),
    }
}

/// The first page of `s` begins no later than `prev` ends.
pub open spec fn joins(prev: Span, s: Span, page: nat) -> bool {
    page_floor(s.offset, page) <= prev.end()
}

/// The merged sections `acc` after one more section: `s` goes into the last of
/// them where it joins it, and opens a new one where it does not.
pub open spec fn merged_in(acc: Seq<Span>, s: Span, page: nat) -> Seq<Span> {
    if acc.len() > 0 && joins(acc.last(), s, page) {
        acc.drop_last().push(absorbed(acc.last(), s, page))
    } else {
        acc.push(opened(s, page))
    }
}

/// The sections of `spans` merged one after the other, in the order given.
pub open spec fn merge_in_order(spans: Seq<Span>, page: nat) -> Seq<Span>
    decreases spans.len(),
{
    if spans.len() == 0 {
        Seq::empty()
    } else {
        merged_in(merge_in_order(spans.drop_last(), page), spans.last(), page)
    }
}

/// `s` put into the ascending sequence `sorted`, in front of the first section
/// that does not begin before it.
pub open spec fn placed(s: Span, sorted: Seq<Span>) -> Seq<Span>
    decreases sorted.len(),
{
    if sorted.len() == 0 || s.offset <= sorted[0].offset {
        seq![s] + sorted
    } else {
        seq![sorted[0]] + placed(s, sorted.drop_first())
    }
}

/// `spans` sorted ascending by offset; sections with the same offset keep the
/// order in which they came.
pub open spec fn ordered(spans: Seq<Span>) -> Seq<Span>
    decreases spans.len(),
{
    if spans.len() == 0 {
        Seq::empty()
    } else {
        placed(spans[0], ordered(spans.drop_first()))
    }
}

/// What aligning and merging makes of `spans`: sorted by offset, then merged
/// in that order.
pub open spec fn merged(spans: Seq<Span>, page: nat) -> Seq<Span> {
    merge_in_order(ordered(spans), page)
}

/// The offsets of `spans` never descend.
pub open spec fn ascending(spans: Seq<Span>) -> bool {
    forall|i: int, j: int| 0 <= i < j < spans.len() ==> spans[i].offset <= spans[j].offset
}

/// Every section begins on a page boundary and holds whole pages.
pub open spec fn page_aligned(spans: Seq<Span>, page: nat) -> bool {
    forall|i: int|
        0 <= i < spans.len() ==> (#[trigger] spans[i]).offset % page == 0 && spans[i].len() % page
            == 0
}

/// Each section ends before the one behind it begins.
pub open spec fn apart(spans: Seq<Span>) -> bool {
    forall|i: int, j: int| 0 <= i < j < spans.len() ==> spans[i].end() < spans[j].offset
}

/// The shape of every merged result: page-aligned sections of whole pages,
/// ascending, with a gap between any two.
pub open spec fn laid_out(spans: Seq<Span>, page: nat) -> bool {
    &&& page_aligned(spans, page)
    &&& apart(spans)
}

/// The number of bytes in all sections together.
pub open spec fn total_len(spans: Seq<Span>) -> nat
    decreases spans.len(),
{
    if spans.len() == 0 {
        0
    } else {
        total_len(spans.drop_last()) + spans.last().len()
    }
}

/// Rounding down gives the nearest multiple at or below.
pub proof fn lemma_page_floor(x: nat, page: nat)
    requires
        page > 0,
    ensures
        page_floor(x, page) % page == 0,
        page_floor(x, page) <= x < page_floor(x, page) + page,
        page_floor(x, page) == (x / page) * page,
        page_floor(x, page) == x - x % page,
{
    lemma_fundamental_div_mod(x as int, page as int);
    lemma_mod_multiples_vanish((x / page) as int, 0, page as int);
    let q = (x / page) as int;
    assert(page * q == q * page && page * q >= 0) by (nonlinear_arith)
        requires
            page > 0,
            q >= 0,
    ;
}

/// Rounding up gives the nearest multiple at or above.
pub proof fn lemma_page_ceil(x: nat, page: nat)
    requires
        page > 0,
    ensures
        page_ceil(x, page) % page == 0,
        x <= page_ceil(x, page) < x + page,
        x % page == 0 ==> page_ceil(x, page) == x,
{
    if x % page != 0 {
        lemma_fundamental_div_mod(x as int, page as int);
        let q = (x / page) as int;
        let r = (x % page) as int;
        assert(x + page - r == page * (q + 1)) by (nonlinear_arith)
            requires
                x == page * q + r,
        ;
        lemma_mod_multiples_vanish((x / page + 1) as int, 0, page as int);
    }
}

/// A multiple of the page size moves through both roundings unchanged.
pub proof fn lemma_round_shift(base: nat, x: nat, page: nat)
    requires
        page > 0,
        base % page == 0,
    ensures
        (base + x) % page == x % page,
        page_floor(base + x, page) == base + page_floor(x, page),
        page_ceil(base + x, page) == base + page_ceil(x, page),
{
    lemma_fundamental_div_mod(base as int, page as int);
    lemma_mod_multiples_vanish((base / page) as int, x as int, page as int);
    assert(base + x == page * (base / page) + x);
    lemma_page_floor(x, page);
    lemma_page_floor(base + x, page);
}

/// One merge step keeps the result laid out, keeps its last section beginning
/// no later than the section just merged, and lets no section reach further
/// than the merged section's last page.
pub proof fn lemma_merged_in(acc: Seq<Span>, s: Span, page: nat)
    requires
        page > 0,
        laid_out(acc, page),
        acc.len() > 0 ==> acc.last().offset <= s.offset,
    ensures
        laid_out(merged_in(acc, s, page), page),
        merged_in(acc, s, page).len() > 0,
        merged_in(acc, s, page).last().offset <= s.offset,
        merged_in(acc, s, page).last().end() == if acc.len() > 0 && joins(acc.last(), s, page)
            && acc.last().end() > page_ceil(s.end(), page) {
            acc.last().end()
        } else {
            page_ceil(s.end(), page)
        },
{
    let out = merged_in(acc, s, page);
    if acc.len() > 0 && joins(acc.last(), s, page) {
        let prev = acc.last();
        let at = (s.offset - prev.offset) as nat;
        lemma_page_ceil(at + s.len(), page);
        lemma_round_shift(prev.offset, at + s.len(), page);
        let need = page_ceil(at + s.len(), page);
        assert(out.last() == absorbed(prev, s, page));
        assert(out.last().len() == if need <= prev.len() { prev.len() } else { need });
        assert forall|i: int| 0 <= i < out.len() implies (#[trigger] out[i]).offset % page == 0
            && out[i].len() % page == 0 by {
            if i < out.len() - 1 {
                assert(out[i] == acc[i]);
            }
        }
        assert forall|i: int, j: int| 0 <= i < j < out.len() implies out[i].end()
            < out[j].offset by {
            assert(out[i] == acc[i]);
            if j < out.len() - 1 {
                assert(out[j] == acc[j]);
            }
        }
    } else {
        lemma_page_floor(s.offset, page);
        let start = page_floor(s.offset, page);
        let lead = (s.offset - start) as nat;
        lemma_page_ceil(lead + s.len(), page);
        lemma_round_shift(start, lead + s.len(), page);
        assert(out.last() == opened(s, page));
        assert(out.last().len() == page_ceil(lead + s.len(), page));
        assert forall|i: int| 0 <= i < out.len() implies (#[trigger] out[i]).offset % page == 0
            && out[i].len() % page == 0 by {
            if i < out.len() - 1 {
                assert(out[i] == acc[i]);
            }
        }
        assert forall|i: int, j: int| 0 <= i < j < out.len() implies out[i].end()
            < out[j].offset by {
            assert(out[i] == acc[i]);
            if j < out.len() - 1 {
                assert(out[j] == acc[j]);
            } else if i < acc.len() - 1 {
                assert(acc[i].end() < acc.last().offset);
            }
        }
    }
}

/// Merging sections that come in ascending order gives a laid-out result, in
/// which no section reaches further than the last page of some input section.
pub proof fn lemma_merge_in_order(spans: Seq<Span>, page: nat, bound: nat)
    requires
        page > 0,
        ascending(spans),
        forall|i: int|
            0 <= i < spans.len() ==> page_ceil((#[trigger] spans[i]).end(), page) <= bound,
    ensures
        laid_out(merge_in_order(spans, page), page),
        spans.len() > 0 ==> merge_in_order(spans, page).len() > 0 && merge_in_order(
            spans,
            page,
        ).last().offset <= spans.last().offset,
        forall|k: int|
            0 <= k < merge_in_order(spans, page).len() ==> (#[trigger] merge_in_order(
                spans,
                page,
            )[k]).end() <= bound,
    decreases spans.len(),
{
    if spans.len() > 0 {
        let front = spans.drop_last();
        let acc = merge_in_order(front, page);
        assert forall|i: int, j: int| 0 <= i < j < front.len() implies front[i].offset
            <= front[j].offset by {
            assert(front[i] == spans[i] && front[j] == spans[j]);
        }
        assert forall|i: int| 0 <= i < front.len() implies page_ceil(
            (#[trigger] front[i]).end(),
            page,
        ) <= bound by {
            assert(front[i] == spans[i]);
        }
        lemma_merge_in_order(front, page, bound);
        if front.len() > 0 {
            assert(front.last() == spans[spans.len() - 2]);
        }
        lemma_merged_in(acc, spans.last(), page);
        let out = merged_in(acc, spans.last(), page);
        assert forall|k: int| 0 <= k < out.len() implies (#[trigger] out[k]).end() <= bound by {
            if k < out.len() - 1 {
                assert(out[k] == acc[k]);
            }
        }
    }
}

/// The place of `s` in `sorted`: the number of sections at its front that
/// begin before `s`.
pub open spec fn rank(s: Span, sorted: Seq<Span>) -> nat
    decreases sorted.len(),
{
    if sorted.len() == 0 || s.offset <= sorted[0].offset {
        0
    } else {
        1 + rank(s, sorted.drop_first())
    }
}

/// Placing a section is inserting it at its rank.
pub proof fn lemma_placed_at_rank(s: Span, sorted: Seq<Span>)
    ensures
        rank(s, sorted) <= sorted.len(),
        placed(s, sorted) == sorted.insert(rank(s, sorted) as int, s),
    decreases sorted.len(),
{
    if sorted.len() == 0 || s.offset <= sorted[0].offset {
        assert(seq![s] + sorted =~= sorted.insert(0, s));
    } else {
        let rest = sorted.drop_first();
        lemma_placed_at_rank(s, rest);
        assert(seq![sorted[0]] + rest.insert(rank(s, rest) as int, s) =~= sorted.insert(
            rank(s, sorted) as int,
            s,
        ));
    }
}

/// The index up to which every section begins before `s`, and at which none
/// does, is the rank of `s`.
pub proof fn lemma_rank_is(s: Span, sorted: Seq<Span>, k: int)
    requires
        0 <= k <= sorted.len(),
        forall|j: int| 0 <= j < k ==> (#[trigger] sorted[j]).offset < s.offset,
        k < sorted.len() ==> s.offset <= sorted[k].offset,
    ensures
        rank(s, sorted) == k,
    decreases sorted.len(),
{
    if k > 0 {
        let rest = sorted.drop_first();
        assert(sorted[0].offset < s.offset);
        assert forall|j: int| 0 <= j < k - 1 implies (#[trigger] rest[j]).offset < s.offset by {
            assert(rest[j] == sorted[j + 1]);
        }
        if k < sorted.len() {
            assert(rest[k - 1] == sorted[k]);
        }
        lemma_rank_is(s, rest, k - 1);
    }
}

/// Placing a section into an ascending sequence keeps it ascending, and adds
/// that section and nothing else.
pub proof fn lemma_placed(s: Span, sorted: Seq<Span>)
    requires
        ascending(sorted),
    ensures
        ascending(placed(s, sorted)),
        placed(s, sorted).len() == sorted.len() + 1,
        placed(s, sorted).to_multiset() == sorted.to_multiset().insert(s),
    decreases sorted.len(),
{
    broadcast use vstd::seq_lib::group_to_multiset_ensures;

    lemma_placed_at_rank(s, sorted);
    if sorted.len() == 0 || s.offset <= sorted[0].offset {
        let out = placed(s, sorted);
        assert forall|i: int, j: int| 0 <= i < j < out.len() implies out[i].offset
            <= out[j].offset by {
            if i > 0 {
                assert(out[i] == sorted[i - 1] && out[j] == sorted[j - 1]);
            } else {
                assert(out[j] == sorted[j - 1]);
                assert(sorted[0].offset <= sorted[j - 1].offset);
            }
        }
    } else {
        let rest = sorted.drop_first();
        assert forall|i: int, j: int| 0 <= i < j < rest.len() implies rest[i].offset
            <= rest[j].offset by {
            assert(rest[i] == sorted[i + 1] && rest[j] == sorted[j + 1]);
        }
        lemma_placed(s, rest);
        let inner = placed(s, rest);
        let out = placed(s, sorted);
        assert(out == seq![sorted[0]] + inner);
        assert forall|i: int, j: int| 0 <= i < j < out.len() implies out[i].offset
            <= out[j].offset by {
            if i > 0 {
                assert(out[i] == inner[i - 1] && out[j] == inner[j - 1]);
            } else {
                assert(out[j] == inner[j - 1]);
                lemma_placed_at_rank(s, rest);
                let r = rank(s, rest) as int;
                if j - 1 < r {
                    assert(inner[j - 1] == rest[j - 1]);
                    assert(rest[j - 1] == sorted[j]);
                } else if j - 1 == r {
                    assert(inner[j - 1] == s);
                } else {
                    assert(inner[j - 1] == rest[j - 2]);
                    assert(rest[j - 2] == sorted[j - 1]);
                }
            }
        }
    }
}

/// Sorting gives the same sections in ascending order.
pub proof fn lemma_ordered(spans: Seq<Span>)
    ensures
        ascending(ordered(spans)),
        ordered(spans).len() == spans.len(),
        ordered(spans).to_multiset() == spans.to_multiset(),
    decreases spans.len(),
{
    broadcast use vstd::seq_lib::group_to_multiset_ensures;

    if spans.len() > 0 {
        let rest = spans.drop_first();
        lemma_ordered(rest);
        lemma_placed(spans[0], ordered(rest));
        assert(spans =~= rest.insert(0, spans[0]));
    }
}

/// Sorting leaves an ascending sequence as it is.
pub proof fn lemma_ordered_fixed(spans: Seq<Span>)
    requires
        ascending(spans),
    ensures
        ordered(spans) == spans,
    decreases spans.len(),
{
    if spans.len() > 0 {
        let rest = spans.drop_first();
        assert forall|i: int, j: int| 0 <= i < j < rest.len() implies rest[i].offset
            <= rest[j].offset by {
            assert(rest[i] == spans[i + 1] && rest[j] == spans[j + 1]);
        }
        lemma_ordered_fixed(rest);
        if rest.len() > 0 {
            assert(rest[0] == spans[1]);
        }
        assert(seq![spans[0]] + rest =~= spans);
    }
}

/// Merging leaves a laid-out sequence as it is.
pub proof fn lemma_merge_fixed(spans: Seq<Span>, page: nat)
    requires
        page > 0,
        laid_out(spans, page),
    ensures
        merge_in_order(spans, page) == spans,
    decreases spans.len(),
{
    if spans.len() > 0 {
        let front = spans.drop_last();
        let s = spans.last();
        assert forall|i: int| 0 <= i < front.len() implies (#[trigger] front[i]).offset % page
            == 0 && front[i].len() % page == 0 by {
            assert(front[i] == spans[i]);
        }
        assert forall|i: int, j: int| 0 <= i < j < front.len() implies front[i].end()
            < front[j].offset by {
            assert(front[i] == spans[i] && front[j] == spans[j]);
        }
        lemma_merge_fixed(front, page);
        lemma_page_floor(s.offset, page);
        lemma_page_ceil(s.len(), page);
        assert(page_floor(s.offset, page) == s.offset);
        if front.len() > 0 {
            assert(front.last() == spans[spans.len() - 2]);
            assert(!joins(front.last(), s, page));
        }
        assert(blank(0) + s.data =~= s.data);
        assert(opened(s, page) == s);
        assert(front.push(s) =~= spans);
    }
}

/// Aligning and merging gives page-aligned sections of whole pages, ascending
/// and apart from one another.
pub proof fn lemma_merged_laid_out(spans: Seq<Span>, page: nat)
    requires
        page > 0,
    ensures
        laid_out(merged(spans, page), page),
{
    lemma_ordered(spans);
    let sorted = ordered(spans);
    let bound = reach(sorted, page);
    lemma_reach(sorted, page);
    lemma_merge_in_order(sorted, page, bound);
}

/// Aligning and merging a second time changes nothing.
pub proof fn lemma_merged_idempotent(spans: Seq<Span>, page: nat)
    requires
        page > 0,
    ensures
        merged(merged(spans, page), page) == merged(spans, page),
{
    lemma_merged_laid_out(spans, page);
    let once = merged(spans, page);
    assert(ascending(once)) by {
        assert forall|i: int, j: int| 0 <= i < j < once.len() implies once[i].offset
            <= once[j].offset by {
            assert(once[i].end() < once[j].offset);
        }
    }
    lemma_ordered_fixed(once);
    lemma_merge_fixed(once, page);
}

/// The furthest that the last page of any section reaches.
pub open spec fn reach(spans: Seq<Span>, page: nat) -> nat
    decreases spans.len(),
{
    if spans.len() == 0 {
        0
    } else {
        let before = reach(spans.drop_last(), page);
        let here = page_ceil(spans.last().end(), page);
        if before > here {
            before
        } else {
            here
        }
    }
}

/// No section's last page reaches beyond `reach`.
pub proof fn lemma_reach(spans: Seq<Span>, page: nat)
    ensures
        forall|i: int| 0 <= i < spans.len() ==> page_ceil((#[trigger] spans[i]).end(), page)
            <= reach(spans, page),
    decreases spans.len(),
{
    if spans.len() > 0 {
        let front = spans.drop_last();
        lemma_reach(front, page);
        assert forall|i: int| 0 <= i < spans.len() implies page_ceil(
            (#[trigger] spans[i]).end(),
            page,
        ) <= reach(spans, page) by {
            if i < spans.len() - 1 {
                assert(front[i] == spans[i]);
            }
        }
    }
}

/// Laid-out sections hold no more bytes together than lie between offset zero
/// and the end of the last of them.
pub proof fn lemma_total_len_bound(spans: Seq<Span>)
    requires
        apart(spans),
    ensures
        spans.len() > 0 ==> total_len(spans) <= spans.last().end(),
        spans.len() == 0 ==> total_len(spans) == 0,
    decreases spans.len(),
{
    if spans.len() > 0 {
        let front = spans.drop_last();
        assert forall|i: int, j: int| 0 <= i < j < front.len() implies front[i].end()
            < front[j].offset by {
            assert(front[i] == spans[i] && front[j] == spans[j]);
        }
        lemma_total_len_bound(front);
        if front.len() > 0 {
            assert(front.last() == spans[spans.len() - 2]);
            assert(spans[spans.len() - 2].end() < spans.last().offset);
        }
    }
}

/// The section `s` holds the address `a`.
pub open spec fn holds(s: Span, a: nat) -> bool {
    s.offset <= a < s.end()
}

/// One of `spans` holds the address `a`.
pub open spec fn held(spans: Seq<Span>, a: nat) -> bool {
    exists|k: int| 0 <= k < spans.len() && holds(#[trigger] spans[k], a)
}

/// The address `a` lies on a page that `s` touches.
pub open spec fn touches(s: Span, page: nat, a: nat) -> bool {
    page_floor(s.offset, page) <= a < page_ceil(s.end(), page)
}

/// The address `a` lies on a page that one of `spans` touches.
pub open spec fn touched(spans: Seq<Span>, page: nat, a: nat) -> bool {
    exists|i: int| 0 <= i < spans.len() && touches(#[trigger] spans[i], page, a)
}

/// The byte that `spans`, written one after the other, leave at the address
/// `a`: that of the last of them that holds the address, and none where none
/// of them does.
pub open spec fn painted(spans: Seq<Span>, a: nat) -> Option<u8>
    decreases spans.len(),
{
    if spans.len() == 0 {
        None
    } else if holds(spans.last(), a) {
        Some(spans.last().data[a - spans.last().offset])
    } else {
        painted(spans.drop_last(), a)
    }
}

/// The byte that a page holds at the address `a` once `spans` are written:
/// what they leave there, and filler where they leave nothing.
pub open spec fn shown(spans: Seq<Span>, a: nat) -> u8 {
    match painted(spans, a) {
        Some(byte) => byte,
        None => FILLER,
    }
}

/// `merged` is `spans` as whole pages: every byte of it lies on a page that
/// one of `spans` touches and is the byte shown there, and every address on
/// such a page lies in it.
pub open spec fn shows(merged: Seq<Span>, spans: Seq<Span>, page: nat) -> bool {
    &&& forall|k: int, a: nat|
        0 <= k < merged.len() && #[trigger] holds(merged[k], a) ==> touched(spans, page, a)
            && merged[k].data[a - merged[k].offset] == shown(spans, a)
    &&& forall|a: nat| #[trigger] touched(spans, page, a) ==> held(merged, a)
}

/// None of `spans` ends behind the last of `merged`.
pub open spec fn reaches(merged: Seq<Span>, spans: Seq<Span>) -> bool {
    spans.len() > 0 ==> merged.len() > 0 && forall|j: int|
        0 <= j < spans.len() ==> (#[trigger] spans[j]).end() <= merged.last().end()
}

/// A multiple of the page size that is not above `x` is not above `x`
/// rounded down.
pub proof fn lemma_floor_is_greatest(m: nat, x: nat, page: nat)
    requires
        page > 0,
        m % page == 0,
        m <= x,
    ensures
        m <= page_floor(x, page),
{
    lemma_round_shift(m, (x - m) as nat, page);
    lemma_page_floor((x - m) as nat, page);
}

/// Where none of `spans` holds an address, they leave nothing there.
pub proof fn lemma_painted_none(spans: Seq<Span>, a: nat)
    requires
        forall|j: int| 0 <= j < spans.len() ==> !holds(#[trigger] spans[j], a),
    ensures
        painted(spans, a) is None,
    decreases spans.len(),
{
    if spans.len() > 0 {
        let front = spans.drop_last();
        assert forall|j: int| 0 <= j < front.len() implies !holds(#[trigger] front[j], a) by {
            assert(front[j] == spans[j]);
        }
        assert(spans.last() == spans[spans.len() - 1]);
        lemma_painted_none(front, a);
    }
}

/// One more section behind `spans` leaves its own byte where it holds the
/// address, and changes nothing where it does not.
pub proof fn lemma_painted_push(spans: Seq<Span>, s: Span, a: nat)
    ensures
        painted(spans.push(s), a) == if holds(s, a) {
            Some(s.data[a - s.offset])
        } else {
            painted(spans, a)
        },
{
    assert(spans.push(s).drop_last() =~= spans);
}

/// A page that one of `spans` touches is touched by `spans` with one more
/// section too.
pub proof fn lemma_touched_push(spans: Seq<Span>, s: Span, page: nat, a: nat)
    ensures
        touched(spans, page, a) ==> touched(spans.push(s), page, a),
        touches(s, page, a) ==> touched(spans.push(s), page, a),
        touched(spans.push(s), page, a) ==> touched(spans, page, a) || touches(s, page, a),
{
    let more = spans.push(s);
    if touched(spans, page, a) {
        let i = choose|i: int| 0 <= i < spans.len() && touches(#[trigger] spans[i], page, a);
        assert(more[i] == spans[i]);
    }
    if touches(s, page, a) {
        assert(more[spans.len() as int] == s);
    }
    if touched(more, page, a) {
        let i = choose|i: int| 0 <= i < more.len() && touches(#[trigger] more[i], page, a);
        if i < spans.len() {
            assert(more[i] == spans[i]);
        }
    }
}

/// One merge step keeps the merged sections showing what has been merged,
/// and reaching as far as it.
pub proof fn lemma_merged_in_shows(acc: Seq<Span>, spans: Seq<Span>, s: Span, page: nat)
    requires
        page > 0,
        laid_out(acc, page),
        acc.len() > 0 ==> acc.last().offset <= s.offset,
        shows(acc, spans, page),
        reaches(acc, spans),
    ensures
        shows(merged_in(acc, s, page), spans.push(s), page),
        reaches(merged_in(acc, s, page), spans.push(s)),
{
    let out = merged_in(acc, s, page);
    let more = spans.push(s);
    let last = out.len() - 1;
    lemma_merged_in(acc, s, page);
    lemma_page_floor(s.offset, page);
    lemma_page_ceil(s.end(), page);
    let joined = acc.len() > 0 && joins(acc.last(), s, page);
    if joined {
        let prev = acc.last();
        let at = (s.offset - prev.offset) as nat;
        lemma_round_shift(prev.offset, at + s.len(), page);
        lemma_page_ceil(at + s.len(), page);
        lemma_floor_is_greatest(prev.offset, s.offset, page);
        assert(out.last() == absorbed(prev, s, page));
    } else {
        let start = page_floor(s.offset, page);
        let lead = (s.offset - start) as nat;
        lemma_round_shift(start, lead + s.len(), page);
        lemma_page_ceil(lead + s.len(), page);
        assert(out.last() == opened(s, page));
    }
    assert forall|j: int| 0 <= j < more.len() implies (#[trigger] more[j]).end()
        <= out.last().end() by {
        if j < spans.len() {
            assert(more[j] == spans[j]);
        }
    }
    assert forall|k: int| 0 <= k < last implies out[k] == acc[k] && acc[k].end() <= s.offset by {
        assert(out[k] == acc[k]);
        if k < acc.len() - 1 {
            assert(acc[k].end() < acc.last().offset);
        }
    }
    assert forall|k: int, a: nat| 0 <= k < out.len() && #[trigger] holds(out[k], a) implies touched(
        more,
        page,
        a,
    ) && out[k].data[a - out[k].offset] == shown(more, a) by {
        lemma_painted_push(spans, s, a);
        lemma_touched_push(spans, s, page, a);
        if k < last {
            assert(holds(acc[k], a));
        } else if holds(s, a) {
        } else if joined && a < acc.last().end() {
            assert(holds(acc[acc.len() - 1], a));
        } else {
            assert forall|j: int| 0 <= j < spans.len() implies !holds(#[trigger] spans[j], a) by {
            }
            lemma_painted_none(spans, a);
        }
    }
    assert forall|a: nat| #[trigger] touched(more, page, a) implies held(out, a) by {
        lemma_touched_push(spans, s, page, a);
        if touched(spans, page, a) {
            let k = choose|k: int| 0 <= k < acc.len() && holds(#[trigger] acc[k], a);
            if k < last {
                assert(holds(out[k], a));
            } else {
                assert(holds(out[last], a));
            }
        } else {
            assert(holds(out[last], a));
        }
    }
}

/// Merging sections that come in ascending order shows them as whole pages.
pub proof fn lemma_merge_in_order_shows(spans: Seq<Span>, page: nat)
    requires
        page > 0,
        ascending(spans),
    ensures
        shows(merge_in_order(spans, page), spans, page),
        reaches(merge_in_order(spans, page), spans),
    decreases spans.len(),
{
    if spans.len() > 0 {
        let front = spans.drop_last();
        assert forall|i: int, j: int| 0 <= i < j < front.len() implies front[i].offset
            <= front[j].offset by {
            assert(front[i] == spans[i] && front[j] == spans[j]);
        }
        lemma_merge_in_order_shows(front, page);
        lemma_reach(front, page);
        lemma_merge_in_order(front, page, reach(front, page));
        if front.len() > 0 {
            assert(front.last() == spans[spans.len() - 2]);
        }
        lemma_merged_in_shows(merge_in_order(front, page), front, spans.last(), page);
        assert(front.push(spans.last()) =~= spans);
    } else {
        assert forall|a: nat| !#[trigger] touched(spans, page, a) by {
        }
    }
}

/// What aligning and merging gives, said without the steps that lead there.
///
/// Every byte of a merged section lies on a page that one of the sections
/// given touches. It is the byte that the sections given leave at its
/// address when they are written in ascending order of their offsets, each
/// over what is there, and filler where they leave none. And every address
/// on a page that one of the sections given touches lies in a merged
/// section.
pub proof fn lemma_merged_shows(spans: Seq<Span>, page: nat)
    requires
        page > 0,
    ensures
        forall|k: int, a: nat|
            0 <= k < merged(spans, page).len() && #[trigger] holds(merged(spans, page)[k], a)
                ==> touched(spans, page, a) && merged(spans, page)[k].data[a - merged(
                spans,
                page,
            )[k].offset] == shown(ordered(spans), a),
        forall|a: nat| #[trigger] touched(spans, page, a) ==> held(merged(spans, page), a),
{
    broadcast use vstd::seq_lib::group_to_multiset_ensures;

    let sorted = ordered(spans);
    let out = merged(spans, page);
    lemma_ordered(spans);
    lemma_merge_in_order_shows(sorted, page);
    assert forall|a: nat| touched(sorted, page, a) <==> #[trigger] touched(spans, page, a) by {
        if touched(sorted, page, a) {
            let i = choose|i: int| 0 <= i < sorted.len() && touches(#[trigger] sorted[i], page, a);
            assert(sorted.contains(sorted[i]));
            assert(spans.to_multiset().count(sorted[i]) > 0);
            assert(spans.contains(sorted[i]));
            let j = choose|j: int| 0 <= j < spans.len() && spans[j] == sorted[i];
            assert(touches(spans[j], page, a));
        }
        if touched(spans, page, a) {
            let i = choose|i: int| 0 <= i < spans.len() && touches(#[trigger] spans[i], page, a);
            assert(spans.contains(spans[i]));
            assert(sorted.to_multiset().count(spans[i]) > 0);
            assert(sorted.contains(spans[i]));
            let j = choose|j: int| 0 <= j < sorted.len() && sorted[j] == spans[i];
            assert(touches(sorted[j], page, a));
        }
    }
    assert forall|k: int, a: nat| 0 <= k < out.len() && #[trigger] holds(out[k], a) implies touched(
        spans,
        page,
        a,
    ) && out[k].data[a - out[k].offset] == shown(sorted, a) by {
        assert(touched(sorted, page, a));
    }
    assert forall|a: nat| #[trigger] touched(spans, page, a) implies held(out, a) by {
        assert(touched(sorted, page, a));
    }
}

} // verus!
