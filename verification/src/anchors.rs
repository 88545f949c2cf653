//! Reading the links back out of a page.
//!
//! A link begins where the text `<a href="` stands; its target is what
//! follows up to the next double quote. Reading goes from left to right and
//! looks for the next link behind the double quote that closed the last.

use vstd::prelude::*;
use vstd::string::*;
use crate::bytes::{copy_range, views};

verus! {

/// What a link begins with.
pub const ANCHOR_OPEN: &'static str = "<a href=\"";

/// The byte `"`, which ends the target of a link.
pub const QUOTE: u8 = 34;

/// The byte `<`, which every tag begins with.
pub const TAG_OPEN: u8 = 60;

/// The byte `a`, the name of the tag of a link.
pub const ANCHOR_NAME: u8 = 97;

/// Whether `text` holds `pattern` at the index `at`.
pub open spec fn holds_at(text: Seq<u8>, pattern: Seq<u8>, at: int) -> bool {
    &&& 0 <= at
    &&& at + pattern.len() <= text.len()
    &&& text.subrange(at, at + pattern.len()) == pattern
}

/// Whether a link begins in `html` at the index `at`.
pub open spec fn opens_at(html: Seq<u8>, at: int) -> bool {
    holds_at(html, ANCHOR_OPEN.spec_bytes(), at)
}

/// Whether no link begins anywhere in `text`.
pub open spec fn anchor_free(text: Seq<u8>) -> bool {
    forall|at: int| !#[trigger] opens_at(text, at)
}

/// Whether `text` holds no double quote.
pub open spec fn quote_free(text: Seq<u8>) -> bool {
    forall|i: int| 0 <= i < text.len() ==> #[trigger] text[i] != QUOTE
}

/// The number of bytes of `text` before its first double quote.
pub open spec fn value_len(text: Seq<u8>) -> nat
    decreases text.len(),
{
    if text.len() == 0 || text[0] == QUOTE {
        0
    } else {
        1 + value_len(text.skip(1))
    }
}

/// The targets of the links that begin in `html` at the index `at` or behind
/// it, from left to right. A link whose target no double quote ends is none.
pub open spec fn hrefs_from(html: Seq<u8>, at: int) -> Seq<Seq<u8>>
    decreases html.len() - at,
{
    if at < 0 || at >= html.len() {
        Seq::empty()
    } else if opens_at(html, at) {
        let start = at + ANCHOR_OPEN.spec_bytes().len();
        let end = start + value_len(html.skip(start));
        if end < html.len() {
            seq![html.subrange(start, end)] + hrefs_from(html, end + 1)
        } else {
            Seq::empty()
        }
    } else {
        hrefs_from(html, at + 1)
    }
}

/// The targets of the links in `html`, from left to right.
pub open spec fn hrefs_in(html: Seq<u8>) -> Seq<Seq<u8>> {
    hrefs_from(html, 0)
}

/// The run of bytes other than the double quote at the start of a text ends
/// where the first double quote stands, or at the end of the text.
pub proof fn lemma_value_len(text: Seq<u8>, n: int)
    requires
        0 <= n <= text.len(),
        forall|k: int| 0 <= k < n ==> text[k] != QUOTE,
        n == text.len() || text[n] == QUOTE,
    ensures
        value_len(text) == n,
    decreases n,
{
    if n > 0 {
        lemma_value_len(text.skip(1), n - 1);
    }
}

/// Where a text holds a pattern, it holds each byte of the pattern.
pub proof fn lemma_holds_byte(text: Seq<u8>, pattern: Seq<u8>, at: int, k: int)
    requires
        holds_at(text, pattern, at),
        0 <= k < pattern.len(),
    ensures
        text[at + k] == pattern[k],
{
}

/// Where a text holds two patterns joined, it holds the first, and the
/// second right behind it.
pub proof fn lemma_holds_both(text: Seq<u8>, first: Seq<u8>, second: Seq<u8>, at: int)
    requires
        holds_at(text, first + second, at),
    ensures
        holds_at(text, first, at),
        holds_at(text, second, at + first.len()),
{
    let whole = text.subrange(at, at + (first + second).len());
    assert(text.subrange(at, at + first.len()) =~= whole.subrange(0, first.len() as int));
    assert(whole.subrange(0, first.len() as int) =~= first);
    assert(text.subrange(at + first.len(), at + first.len() + second.len()) =~= whole.subrange(
        first.len() as int,
        whole.len() as int,
    ));
    assert(whole.subrange(first.len() as int, whole.len() as int) =~= second);
}

/// Reading may pass over a stretch in which no link begins.
pub proof fn lemma_pass_over(html: Seq<u8>, from: int, to: int)
    requires
        0 <= from <= to <= html.len(),
        forall|p: int| from <= p < to ==> !#[trigger] opens_at(html, p),
    ensures
        hrefs_from(html, from) == hrefs_from(html, to),
    decreases to - from,
{
    if from < to {
        lemma_pass_over(html, from + 1, to);
    }
}

/// Reading a link gives its target and goes on behind the double quote that
/// ends it.
pub proof fn lemma_read_link(html: Seq<u8>, at: int, target: Seq<u8>)
    requires
        opens_at(html, at),
        holds_at(html, target, at + ANCHOR_OPEN.spec_bytes().len()),
        quote_free(target),
        at + ANCHOR_OPEN.spec_bytes().len() + target.len() < html.len(),
        html[at + ANCHOR_OPEN.spec_bytes().len() + target.len()] == QUOTE,
    ensures
        hrefs_from(html, at) == seq![target] + hrefs_from(
            html,
            at + ANCHOR_OPEN.spec_bytes().len() + target.len() + 1,
        ),
{
    let start = at + ANCHOR_OPEN.spec_bytes().len();
    let rest = html.skip(start);
    assert forall|k: int| 0 <= k < target.len() implies rest[k] != QUOTE by {
        lemma_holds_byte(html, target, start, k);
    }
    lemma_value_len(rest, target.len() as int);
}

/// Decides whether `text` holds `pattern` at the index `at`.
fn holds(text: &[u8], pattern: &[u8], at: usize) -> (r: bool)
    requires
        at <= text.len(),
    ensures
        r == holds_at(text@, pattern@, at as int),
{
    if pattern.len() > text.len() - at {
        return false;
    }
    let mut k: usize = 0;
    while k < pattern.len()
        invariant
            k <= pattern.len(),
            at + pattern.len() <= text.len(),
            forall|j: int| 0 <= j < k ==> text@[at + j] == pattern@[j],
        decreases pattern.len() - k,
    {
        if text[at + k] != pattern[k] {
            proof {
                if holds_at(text@, pattern@, at as int) {
                    lemma_holds_byte(text@, pattern@, at as int, k as int);
                }
            }
            return false;
        }
        k += 1;
    }
    assert(text@.subrange(at as int, at + pattern.len()) =~= pattern@);
    true
}

/// Finds the first double quote at the index `start` or behind it.
fn value_end(html: &[u8], start: usize) -> (end: usize)
    requires
        start <= html.len(),
    ensures
        start <= end <= html.len(),
        end - start == value_len(html@.skip(start as int)),
{
    let mut end: usize = start;
    while end < html.len() && html[end] != QUOTE
        invariant
            start <= end <= html.len(),
            forall|k: int| start <= k < end ==> html@[k] != QUOTE,
        decreases html.len() - end,
    {
        end += 1;
    }
    proof {
        lemma_value_len(html@.skip(start as int), end - start);
    }
    end
}

/// Reads the targets of the links in `html`, from left to right.
pub fn hrefs(html: &[u8]) -> (targets: Vec<Vec<u8>>)
    ensures
        views(targets@) == hrefs_in(html@),
{
    let opening = ANCHOR_OPEN.as_bytes();
    let mut targets: Vec<Vec<u8>> = Vec::new();
    let mut at: usize = 0;
    while at < html.len()
        invariant
            at <= html.len(),
            opening@ == ANCHOR_OPEN.spec_bytes(),
            views(targets@) + hrefs_from(html@, at as int) == hrefs_in(html@),
        decreases html.len() - at,
    {
        if holds(html, opening, at) {
            let start = at + opening.len();
            let end = value_end(html, start);
            if end < html.len() {
                let ghost before = views(targets@);
                let target = copy_range(html, start, end);
                targets.push(target);
                assert(before + (seq![html@.subrange(start as int, end as int)] + hrefs_from(
                    html@,
                    end + 1,
                )) =~= views(targets@) + hrefs_from(html@, end + 1));
                at = end + 1;
            } else {
                at = html.len();
            }
        } else {
            at += 1;
        }
    }
    targets
}

} // verus!
