//! A target that keeps what is written to it: what the page writes of an
//! image leave in its flash, and what verifying finds there afterwards.

use vstd::prelude::*;
use vstd::arithmetic::div_mod::{lemma_fundamental_div_mod, lemma_mod_self_0, lemma_small_mod};
use crate::error::Error;
use crate::firmware::Image;
use crate::layout::{laid_out, lemma_round_shift};
use crate::link::Link;
use crate::stages::{
    ReadBack, Step, VerifyStage, SETTLE_MS, compared_with, lemma_mismatches_none, mismatches,
    page_bytes, page_index, pause, reads_match,
};
use crate::transport::grew;

verus! {

/// The byte at the address `a` of a flash that held `before` there, once the
/// pages of `image` from the byte `start` of the section `section` on have
/// been written: the write of a page puts its bytes at the addresses of the
/// page with its index and leaves every other address as it was.
pub open spec fn left_at(image: Image, section: nat, start: nat, before: u8, a: nat) -> u8
    decreases
            image.sections.len() - section,
            if section < image.sections.len() && start < image.sections[section as int].len() {
                image.sections[section as int].len() - start
            } else {
                0
            },
{
    if section >= image.sections.len() {
        before
    } else if start < image.sections[section as int].len() && image.page_size > 0 {
        let first = page_index(image, section, start) * image.page_size;
        let bytes = page_bytes(image, section, start);
        let now = if first <= a < first + bytes.len() {
            bytes[a - first]
        } else {
            before
        };
        left_at(image, section, start + image.page_size, now, a)
    } else {
        left_at(image, section + 1, 0, before, a)
    }
}

/// The byte at the address `a` of a flash that held `flash`, once every
/// page of `image` has been written.
pub open spec fn after_write(image: Image, flash: spec_fn(nat) -> u8, a: nat) -> u8 {
    left_at(image, 0, 0, flash(a), a)
}

/// `reads` is what a target gives back for the sections of `image` that
/// held `flash`, had `image` written to it, and was left alone since.
pub open spec fn kept(image: Image, flash: spec_fn(nat) -> u8, reads: Seq<ReadBack>) -> bool {
    forall|k: int, j: int|
        0 <= k < image.sections.len() && 0 <= j < image.sections[k].len()
            ==> #[trigger] reads[k].data[j] == after_write(
            image,
            flash,
            (image.sections[k].offset + j) as nat,
        )
}

/// The page that begins at a page boundary of a section of whole pages is a
/// whole page of that section, and begins at the address of the byte.
pub proof fn lemma_page_place(image: Image, section: nat, start: nat)
    requires
        image.page_size > 0,
        laid_out(image.sections, image.page_size),
        section < image.sections.len(),
        start < image.sections[section as int].len(),
        start % image.page_size == 0,
    ensures
        start + image.page_size <= image.sections[section as int].len(),
        (start + image.page_size) % image.page_size == 0,
        page_bytes(image, section, start).len() == image.page_size,
        page_index(image, section, start) * image.page_size == image.sections[section as int].offset
            + start,
{
    let page = image.page_size;
    let s = image.sections[section as int];
    let here = s.len();
    assert(s.offset % page == 0 && here % page == 0);
    lemma_round_shift(start, (here - start) as nat, page);
    if here - start < page {
        lemma_small_mod((here - start) as nat, page);
    }
    lemma_round_shift(start, page, page);
    lemma_mod_self_0(page as int);
    lemma_fundamental_div_mod(s.offset as int, page as int);
    lemma_fundamental_div_mod(start as int, page as int);
    let q = (s.offset / page) as int;
    let t = (start / page) as int;
    assert((q + t) * page == s.offset + start) by (nonlinear_arith)
        requires
            s.offset == page * q,
            start == page * t,
    ;
}

/// Writing the pages from a place on leaves the addresses in front of that
/// place alone.
pub proof fn lemma_left_in_front(image: Image, section: nat, start: nat, before: u8, a: nat)
    requires
        image.page_size > 0,
        laid_out(image.sections, image.page_size),
        start % image.page_size == 0,
        section < image.sections.len() ==> start <= image.sections[section as int].len() && a
            < image.sections[section as int].offset + start,
    ensures
        left_at(image, section, start, before, a) == before,
    decreases
            image.sections.len() - section,
            if section < image.sections.len() && start < image.sections[section as int].len() {
                image.sections[section as int].len() - start
            } else {
                0
            },
{
    let page = image.page_size;
    if section < image.sections.len() {
        if start < image.sections[section as int].len() {
            lemma_page_place(image, section, start);
            lemma_left_in_front(image, section, start + page, before, a);
        } else {
            lemma_mod_self_0(page as int);
            assert(0nat % page == 0);
            if section + 1 < image.sections.len() {
                assert(image.sections[section as int].end() < image.sections[section as int
                    + 1].offset);
            }
            lemma_left_in_front(image, section + 1, 0, before, a);
        }
    }
}

/// Writing the pages from a place on leaves, at each address of the image
/// at or behind that place, the byte that the image has there.
pub proof fn lemma_left_holds(
    image: Image,
    section: nat,
    start: nat,
    before: u8,
    k: int,
    j: int,
)
    requires
        image.page_size > 0,
        laid_out(image.sections, image.page_size),
        start % image.page_size == 0,
        section < image.sections.len() ==> start <= image.sections[section as int].len(),
        section <= k < image.sections.len(),
        0 <= j < image.sections[k].len(),
        k > section || j >= start,
    ensures
        left_at(image, section, start, before, (image.sections[k].offset + j) as nat)
            == image.sections[k].data[j],
    decreases
            image.sections.len() - section,
            if section < image.sections.len() && start < image.sections[section as int].len() {
                image.sections[section as int].len() - start
            } else {
                0
            },
{
    let page = image.page_size;
    let a = (image.sections[k].offset + j) as nat;
    if start < image.sections[section as int].len() {
        lemma_page_place(image, section, start);
        let first = page_index(image, section, start) * page;
        let bytes = page_bytes(image, section, start);
        let now = if first <= a < first + bytes.len() {
            bytes[a - first]
        } else {
            before
        };
        if k == section && j < start + page {
            assert(now == image.sections[k].data[j]);
            lemma_left_in_front(image, section, start + page, now, a);
        } else {
            lemma_left_holds(image, section, start + page, now, k, j);
        }
    } else {
        lemma_mod_self_0(page as int);
        assert(0nat % page == 0);
        lemma_left_holds(image, section + 1, 0, before, k, j);
    }
}

/// Once an image has been written, the flash holds each byte of the image
/// at its address, whatever it held before.
pub proof fn lemma_write_leaves_the_image(image: Image, flash: spec_fn(nat) -> u8, k: int, j: int)
    requires
        image.page_size > 0,
        laid_out(image.sections, image.page_size),
        0 <= k < image.sections.len(),
        0 <= j < image.sections[k].len(),
    ensures
        after_write(image, flash, (image.sections[k].offset + j) as nat)
            == image.sections[k].data[j],
{
    lemma_mod_self_0(image.page_size as int);
    assert(0nat % image.page_size == 0);
    lemma_left_holds(image, 0, 0, flash((image.sections[k].offset + j) as nat), k, j);
}

/// Comparing an image with a target that has kept it finds no offset that
/// differs.
pub proof fn lemma_kept_image_differs_nowhere(
    image: Image,
    flash: spec_fn(nat) -> u8,
    reads: Seq<ReadBack>,
)
    requires
        image.page_size > 0,
        laid_out(image.sections, image.page_size),
        reads_match(image, reads),
        kept(image, flash, reads),
    ensures
        mismatches(image, reads, image.sections.len()).len() == 0,
{
    assert forall|k: int| 0 <= k < image.sections.len() implies (#[trigger] reads[k]).data
        == image.sections[k].data by {
        let want = image.sections[k].data;
        let got = reads[k].data;
        assert(got.len() == want.len());
        assert forall|j: int| 0 <= j < want.len() implies got[j] == want[j] by {
            lemma_write_leaves_the_image(image, flash, k, j);
            assert(reads[k].data[j] == after_write(
                image,
                flash,
                (image.sections[k].offset + j) as nat,
            ));
        }
        assert(got =~= want);
    }
    lemma_mismatches_none(image, reads, image.sections.len());
}

/// Writing and then verifying passes: where the target gives back what
/// writing the image left in its flash, and no request fails, the stage of
/// verifying that compares ends well and goes on to leave programming mode.
pub proof fn lemma_verify_after_write_passes(
    pre: Link,
    post: Link,
    image: Image,
    r: Result<Step<VerifyStage, ()>, Error>,
    was: u8,
    reads: Seq<ReadBack>,
    flash: spec_fn(nat) -> u8,
)
    requires
        image.page_size > 0,
        laid_out(image.sections, image.page_size),
        compared_with(pre, post, image, r, was, reads),
        kept(image, flash, reads),
        grew(pre.wire, post.wire),
    ensures
        r == Ok::<Step<VerifyStage, ()>, Error>(pause(SETTLE_MS, VerifyStage::Restore)),
{
    lemma_kept_image_differs_nowhere(image, flash, reads);
    if r is Err {
        assert(post.wire[post.wire.len() - 1].reply is Ok);
    }
}

} // verus!
