//! Paths as byte strings, with `/` between components.
//!
//! A path is read the way a Unix file system reads it. A leading `/` is the
//! root. Between separators stand segments; empty segments and `.` segments
//! name nothing and are passed over, except that a relative path that begins
//! with a `.` segment keeps it as its first component. Two paths with the same
//! components denote the same place.

use vstd::prelude::*;
use crate::bytes::{append, copy, copy_range, same_bytes, views};

verus! {

/// The byte `/`, which separates the components of a path.
pub const SEPARATOR: u8 = 47;

/// The byte `.`.
pub const DOT: u8 = 46;

/// The component that stands for the root of the file system: `/`.
pub open spec fn root_component() -> Seq<u8> {
    seq![SEPARATOR]
}

/// The component that stands for the current directory: `.`.
pub open spec fn current_component() -> Seq<u8> {
    seq![DOT]
}

/// The component that stands for the parent directory: `..`.
pub open spec fn parent_component() -> Seq<u8> {
    seq![DOT, DOT]
}

/// Whether `path` begins at the root of the file system.
pub open spec fn has_root(path: Seq<u8>) -> bool {
    path.len() > 0 && path[0] == SEPARATOR
}

/// The number of bytes of `path` before its first separator.
pub open spec fn segment_len(path: Seq<u8>) -> nat
    decreases path.len(),
{
    if path.len() == 0 || path[0] == SEPARATOR {
        0
    } else {
        1 + segment_len(path.skip(1))
    }
}

/// The bytes of `path` before its first separator.
pub open spec fn first_segment(path: Seq<u8>) -> Seq<u8> {
    path.take(segment_len(path) as int)
}

/// What follows the first separator of `path`; empty if there is none.
pub open spec fn after_first_segment(path: Seq<u8>) -> Seq<u8> {
    if segment_len(path) < path.len() {
        path.skip(segment_len(path) as int + 1)
    } else {
        Seq::empty()
    }
}

/// Whether a segment names something: it is neither empty nor `.`.
pub open spec fn names_something(segment: Seq<u8>) -> bool {
    segment.len() > 0 && segment != current_component()
}

/// The segments of `path` that name something, in order.
pub open spec fn named_segments(path: Seq<u8>) -> Seq<Seq<u8>>
    decreases path.len(),
{
    if path.len() == 0 {
        Seq::empty()
    } else {
        let rest = named_segments(after_first_segment(path));
        if names_something(first_segment(path)) {
            seq![first_segment(path)] + rest
        } else {
            rest
        }
    }
}

/// What stands before the named segments of `path`: the root component for
/// an absolute path, the current-directory component for a relative path
/// whose first segment is `.`, and nothing otherwise.
pub open spec fn leading_component(path: Seq<u8>) -> Seq<Seq<u8>> {
    if has_root(path) {
        seq![root_component()]
    } else if first_segment(path) == current_component() {
        seq![current_component()]
    } else {
        Seq::empty()
    }
}

/// The components of `path`.
pub open spec fn path_components(path: Seq<u8>) -> Seq<Seq<u8>> {
    leading_component(path) + named_segments(path)
}

/// Whether `a` and `b` denote the same place: their components are equal.
pub open spec fn equivalent(a: Seq<u8>, b: Seq<u8>) -> bool {
    path_components(a) == path_components(b)
}

/// Whether the components of `path` begin with all the components of `base`.
pub open spec fn within(path: Seq<u8>, base: Seq<u8>) -> bool {
    path_components(base).is_prefix_of(path_components(path))
}

/// What is left of `path` behind its first `count` named segments: `path`
/// from where its next named segment begins, or nothing if it has no more.
pub open spec fn beyond(path: Seq<u8>, count: nat) -> Seq<u8>
    decreases path.len(),
{
    if path.len() == 0 {
        path
    } else if !names_something(first_segment(path)) {
        beyond(after_first_segment(path), count)
    } else if count == 0 {
        path
    } else {
        beyond(after_first_segment(path), (count - 1) as nat)
    }
}

/// `path` without what names nothing at its end: the separators and the `.`
/// segments behind its last other segment.
pub open spec fn trimmed(path: Seq<u8>) -> Seq<u8>
    decreases path.len(),
{
    if path.len() == 0 {
        path
    } else if path.last() == SEPARATOR {
        trimmed(path.drop_last())
    } else if path.last() == DOT && (path.len() == 1 || path[path.len() - 2] == SEPARATOR) {
        trimmed(path.drop_last())
    } else {
        path
    }
}

/// `path` as seen from `base`: what is left of `path` behind the components
/// of `base`, from where its next component begins to where its last
/// component ends. `None` unless `path` lies within `base`.
pub open spec fn relative_to(path: Seq<u8>, base: Seq<u8>) -> Option<Seq<u8>> {
    if !within(path, base) {
        None
    } else if path_components(base).len() == 0 {
        let lead = leading_component(path).len() as int;
        Some(path.take(lead) + trimmed(path.skip(lead)))
    } else {
        Some(trimmed(beyond(path, named_segments(base).len())))
    }
}

/// Whether a component is the name of a file or directory, and not the root,
/// the current directory or the parent directory.
pub open spec fn is_name(component: Seq<u8>) -> bool {
    component != root_component() && component != current_component() && component
        != parent_component()
}

/// The last component of `path`, if it is a name.
pub open spec fn base_name(path: Seq<u8>) -> Option<Seq<u8>> {
    let parts = path_components(path);
    if parts.len() > 0 && is_name(parts.last()) {
        Some(parts.last())
    } else {
        None
    }
}

/// `base` extended by `rest`. An absolute `rest` replaces `base`; otherwise
/// one separator is put between the two unless `base` is empty or already
/// ends in one.
pub open spec fn joined(base: Seq<u8>, rest: Seq<u8>) -> Seq<u8> {
    if has_root(rest) {
        rest
    } else if base.len() > 0 && base.last() != SEPARATOR {
        base + seq![SEPARATOR] + rest
    } else {
        base + rest
    }
}

/// The file-system path that the request path `url_path` stands for under
/// `base`: `base` itself for `/`, otherwise `base` joined with `url_path`
/// less its leading `/`, if it has one.
pub open spec fn resolved(base: Seq<u8>, url_path: Seq<u8>) -> Seq<u8> {
    if !has_root(url_path) {
        joined(base, url_path)
    } else if url_path.len() == 1 {
        base
    } else {
        joined(base, url_path.skip(1))
    }
}

/// The run of non-separator bytes at the start of a path ends where the
/// first separator stands, or at the end of the path.
pub proof fn lemma_segment_len(path: Seq<u8>, n: int)
    requires
        0 <= n <= path.len(),
        forall|k: int| 0 <= k < n ==> path[k] != SEPARATOR,
        n == path.len() || path[n] == SEPARATOR,
    ensures
        segment_len(path) == n,
    decreases n,
{
    if n > 0 {
        lemma_segment_len(path.skip(1), n - 1);
    }
}

/// Decides whether `path` begins at the root of the file system.
pub fn is_absolute(path: &[u8]) -> (r: bool)
    ensures
        r == has_root(path@),
{
    path.len() > 0 && path[0] == SEPARATOR
}

/// Finds where the segment that begins at `start` ends.
fn segment_end(path: &[u8], start: usize) -> (end: usize)
    requires
        start <= path.len(),
    ensures
        start <= end <= path.len(),
        end - start == segment_len(path@.skip(start as int)),
{
    let mut end: usize = start;
    while end < path.len() && path[end] != SEPARATOR
        invariant
            start <= end <= path.len(),
            forall|k: int| start <= k < end ==> path@[k] != SEPARATOR,
        decreases path.len() - end,
    {
        end += 1;
    }
    proof {
        lemma_segment_len(path@.skip(start as int), end - start);
    }
    end
}

/// Splits `path` into its components.
pub fn components(path: &[u8]) -> (parts: Vec<Vec<u8>>)
    ensures
        views(parts@) == path_components(path@),
{
    let mut parts: Vec<Vec<u8>> = Vec::new();
    let first_end = segment_end(path, 0);
    assert(path@.skip(0) == path@);
    if is_absolute(path) {
        let mut root: Vec<u8> = Vec::new();
        root.push(SEPARATOR);
        assert(root@ == root_component());
        parts.push(root);
    } else if first_end == 1 && path[0] == DOT {
        let mut current: Vec<u8> = Vec::new();
        current.push(DOT);
        assert(current@ == current_component());
        assert(first_segment(path@) == current_component());
        parts.push(current);
    } else {
        assert(first_segment(path@) != current_component()) by {
            if first_segment(path@) == current_component() {
                assert(first_segment(path@).len() == 1);
                assert(first_segment(path@)[0] == DOT);
            }
        }
    }
    let mut start: usize = 0;
    while start < path.len()
        invariant
            start <= path.len(),
            views(parts@) + named_segments(path@.skip(start as int)) == path_components(path@),
        decreases path.len() - start,
    {
        let end = segment_end(path, start);
        let ghost tail = path@.skip(start as int);
        let ghost before = views(parts@);
        assert(first_segment(tail) == path@.subrange(start as int, end as int));
        if end > start && !(end == start + 1 && path[start] == DOT) {
            assert(names_something(first_segment(tail))) by {
                if first_segment(tail) == current_component() {
                    assert(first_segment(tail).len() == 1);
                    assert(first_segment(tail)[0] == DOT);
                }
            }
            let segment = copy_range(path, start, end);
            parts.push(segment);
            assert(views(parts@) == before + seq![first_segment(tail)]);
        } else {
            assert(!names_something(first_segment(tail))) by {
                if end == start + 1 {
                    assert(first_segment(tail) == current_component());
                }
            }
        }
        if end < path.len() {
            assert(after_first_segment(tail) == path@.skip(end + 1));
            start = end + 1;
        } else {
            assert(after_first_segment(tail) == path@.skip(end as int));
            start = end;
        }
    }
    assert(named_segments(path@.skip(start as int)) == Seq::<Seq<u8>>::empty());
    assert(views(parts@) + Seq::<Seq<u8>>::empty() == views(parts@));
    parts
}

/// Decides whether the byte strings of `prefix` are the first ones of `whole`.
fn begins_with(whole: &Vec<Vec<u8>>, prefix: &Vec<Vec<u8>>) -> (r: bool)
    ensures
        r == views(prefix@).is_prefix_of(views(whole@)),
{
    if prefix.len() > whole.len() {
        return false;
    }
    let mut i: usize = 0;
    while i < prefix.len()
        invariant
            i <= prefix.len() <= whole.len(),
            forall|k: int| 0 <= k < i ==> views(prefix@)[k] == views(whole@)[k],
        decreases prefix.len() - i,
    {
        if !same_bytes(whole[i].as_slice(), prefix[i].as_slice()) {
            assert(views(prefix@)[i as int] != views(whole@)[i as int]);
            return false;
        }
        i += 1;
    }
    true
}

/// Decides whether `a` and `b` denote the same place.
pub fn same_path(a: &[u8], b: &[u8]) -> (same: bool)
    ensures
        same == equivalent(a@, b@),
{
    let left = components(a);
    let right = components(b);
    let same = left.len() == right.len() && begins_with(&left, &right);
    proof {
        let l = views(left@);
        let r = views(right@);
        if same {
            assert(r =~= l);
        } else if l == r {
            assert(l.subrange(0, r.len() as int) =~= r);
        }
    }
    same
}

/// Decides whether `path` lies within `base`: whether its components begin
/// with those of `base`.
pub fn is_within(path: &[u8], base: &[u8]) -> (inside: bool)
    ensures
        inside == within(path@, base@),
{
    let whole = components(path);
    let prefix = components(base);
    begins_with(&whole, &prefix)
}

/// Decides whether a component is the root component or the
/// current-directory component.
fn is_leading(component: &Vec<u8>) -> (r: bool)
    ensures
        r == (component@ == root_component() || component@ == current_component()),
{
    let r = component.len() == 1 && (component[0] == SEPARATOR || component[0] == DOT);
    proof {
        if r {
            assert(component@ =~= root_component() || component@ =~= current_component());
        } else if component@ == root_component() || component@ == current_component() {
            assert(component@.len() == 1);
            assert(component@[0] == SEPARATOR || component@[0] == DOT);
        }
    }
    r
}

/// Finds where `path` goes on behind its first `count` named segments.
fn beyond_at(path: &[u8], count: usize) -> (start: usize)
    ensures
        start <= path.len(),
        path@.skip(start as int) == beyond(path@, count as nat),
{
    let mut left: usize = count;
    let mut start: usize = 0;
    assert(path@.skip(0) == path@);
    while start < path.len()
        invariant
            start <= path.len(),
            beyond(path@.skip(start as int), left as nat) == beyond(path@, count as nat),
        decreases path.len() - start,
    {
        let end = segment_end(path, start);
        let ghost tail = path@.skip(start as int);
        let named = end > start && !(end == start + 1 && path[start] == DOT);
        proof {
            assert(first_segment(tail) == path@.subrange(start as int, end as int));
            if end == start + 1 && path[start as int] == DOT {
                assert(first_segment(tail) == current_component());
            }
            if first_segment(tail) == current_component() {
                assert(first_segment(tail).len() == 1);
                assert(first_segment(tail)[0] == DOT);
            }
            assert(named == names_something(first_segment(tail)));
            if end < path.len() {
                assert(after_first_segment(tail) == path@.skip(end + 1));
            } else {
                assert(after_first_segment(tail) == path@.skip(end as int));
            }
        }
        if named {
            if left == 0 {
                return start;
            }
            left -= 1;
        }
        start = if end < path.len() {
            end + 1
        } else {
            end
        };
    }
    start
}

/// Finds where what is left of `path` from `start` on ends when what names
/// nothing at its end is taken away.
fn trimmed_end(path: &[u8], start: usize) -> (end: usize)
    requires
        start <= path.len(),
    ensures
        start <= end <= path.len(),
        path@.subrange(start as int, end as int) == trimmed(path@.skip(start as int)),
{
    let mut end: usize = path.len();
    assert(path@.subrange(start as int, end as int) == path@.skip(start as int));
    while end > start && (path[end - 1] == SEPARATOR || (path[end - 1] == DOT && (end - 1 == start
        || path[end - 2] == SEPARATOR)))
        invariant
            start <= end <= path.len(),
            trimmed(path@.subrange(start as int, end as int)) == trimmed(
                path@.skip(start as int),
            ),
        decreases end,
    {
        assert(path@.subrange(start as int, end as int).drop_last() == path@.subrange(
            start as int,
            end - 1,
        ));
        end -= 1;
    }
    end
}

/// Expresses `path` relative to `base`.
///
/// Succeeds exactly when `path` lies within `base`, with what is left of
/// `path` behind the components of `base`, up to the end of its last
/// component.
pub fn strip_prefix(path: &[u8], base: &[u8]) -> (rest: Option<Vec<u8>>)
    ensures
        match rest {
            Some(r) => relative_to(path@, base@) == Some(r@),
            None => relative_to(path@, base@) is None,
        },
{
    let whole = components(path);
    let prefix = components(base);
    if !begins_with(&whole, &prefix) {
        return None;
    }
    proof {
        lemma_named_segments(path@);
        lemma_named_segments(base@);
    }
    if prefix.len() == 0 {
        let lead: usize = if whole.len() > 0 && is_leading(&whole[0]) {
            1
        } else {
            0
        };
        proof {
            let leading = leading_component(path@);
            if whole.len() > 0 {
                if leading.len() == 0 {
                    assert(views(whole@)[0] == named_segments(path@)[0]);
                    assert(is_named_segment(named_segments(path@)[0]));
                    assert(root_component()[0] == SEPARATOR);
                } else {
                    assert(views(whole@)[0] == leading[0]);
                    assert(first_segment(path@).len() <= path@.len());
                }
            }
            assert(lead == leading.len());
        }
        let end = trimmed_end(path, lead);
        assert(path@.subrange(0, end as int) == path@.take(lead as int) + path@.subrange(
            lead as int,
            end as int,
        ));
        Some(copy_range(path, 0, end))
    } else {
        let named: usize = if is_leading(&prefix[0]) {
            prefix.len() - 1
        } else {
            prefix.len()
        };
        proof {
            let leading = leading_component(base@);
            if leading.len() == 0 {
                assert(views(prefix@)[0] == named_segments(base@)[0]);
                assert(is_named_segment(named_segments(base@)[0]));
                assert(root_component()[0] == SEPARATOR);
            } else {
                assert(views(prefix@)[0] == leading[0]);
            }
            assert(views(prefix@).len() == leading.len() + named_segments(base@).len());
            assert(named == named_segments(base@).len());
        }
        let start = beyond_at(path, named);
        let end = trimmed_end(path, start);
        Some(copy_range(path, start, end))
    }
}

/// Finds the name that `path` ends in.
///
/// Succeeds exactly when `path` has a last component and that component is
/// neither the root, nor `.`, nor `..`.
pub fn file_name(path: &[u8]) -> (name: Option<Vec<u8>>)
    ensures
        match name {
            Some(n) => base_name(path@) == Some(n@),
            None => base_name(path@) is None,
        },
{
    let mut parts = components(path);
    let ghost all = views(parts@);
    match parts.pop() {
        None => None,
        Some(last) => {
            assert(last@ == all.last());
            let n = last.len();
            let special = (n == 1 && (last[0] == SEPARATOR || last[0] == DOT)) || (n == 2
                && last[0] == DOT && last[1] == DOT);
            proof {
                if last@ == root_component() || last@ == current_component() {
                    assert(last@.len() == 1);
                    assert(last@[0] == SEPARATOR || last@[0] == DOT);
                }
                if last@ == parent_component() {
                    assert(last@[0] == DOT && last@[1] == DOT);
                }
                if special {
                    assert(last@ =~= root_component() || last@ =~= current_component() || last@
                        =~= parent_component());
                }
            }
            if special {
                None
            } else {
                Some(last)
            }
        },
    }
}

/// Extends `base` by `rest`.
pub fn join(base: &[u8], rest: &[u8]) -> (path: Vec<u8>)
    ensures
        path@ == joined(base@, rest@),
{
    let mut path: Vec<u8> = Vec::new();
    if !is_absolute(rest) {
        append(&mut path, base);
        if base.len() > 0 && base[base.len() - 1] != SEPARATOR {
            path.push(SEPARATOR);
        }
    }
    append(&mut path, rest);
    path
}

/// Maps a request path to the file-system path it stands for under `base`.
pub fn resolve(base: &[u8], url_path: &[u8]) -> (target: Vec<u8>)
    ensures
        target@ == resolved(base@, url_path@),
{
    if !is_absolute(url_path) {
        join(base, url_path)
    } else if url_path.len() == 1 {
        copy(base)
    } else {
        let rest = copy_range(url_path, 1, url_path.len());
        assert(rest@ == url_path@.skip(1));
        join(base, rest.as_slice())
    }
}

/// Whether `name` can be the name of a child of a directory: it is not
/// empty, holds no separator, and is neither `.` nor `..`.
pub open spec fn plain_name(name: Seq<u8>) -> bool {
    &&& name.len() > 0
    &&& forall|i: int| 0 <= i < name.len() ==> name[i] != SEPARATOR
    &&& name != current_component()
    &&& name != parent_component()
}

/// No separator stands before the end of the first segment of a path, and
/// one stands at its end unless the path ends there.
pub proof fn lemma_first_segment(path: Seq<u8>)
    ensures
        segment_len(path) <= path.len(),
        forall|k: int| 0 <= k < segment_len(path) ==> path[k] != SEPARATOR,
        segment_len(path) == path.len() || path[segment_len(path) as int] == SEPARATOR,
    decreases path.len(),
{
    if path.len() > 0 && path[0] != SEPARATOR {
        let rest = path.skip(1);
        lemma_first_segment(rest);
        assert forall|k: int| 0 <= k < segment_len(path) implies path[k] != SEPARATOR by {
            if k > 0 {
                assert(rest[k - 1] == path[k]);
            }
        }
    }
}

/// A path that is one segment has that segment as its only one, if the
/// segment names something, and none otherwise.
proof fn lemma_one_segment(segment: Seq<u8>)
    requires
        forall|i: int| 0 <= i < segment.len() ==> segment[i] != SEPARATOR,
    ensures
        named_segments(segment) == if names_something(segment) {
            seq![segment]
        } else {
            Seq::empty()
        },
{
    if segment.len() > 0 {
        lemma_segment_len(segment, segment.len() as int);
        assert(first_segment(segment) == segment);
        assert(named_segments(after_first_segment(segment)) == Seq::<Seq<u8>>::empty());
        assert(seq![segment] + Seq::<Seq<u8>>::empty() =~= seq![segment]);
    }
}

/// Whether `segment` can stand among the named segments of a path: it is
/// not empty, holds no separator, and is not `.`.
pub open spec fn is_named_segment(segment: Seq<u8>) -> bool {
    &&& names_something(segment)
    &&& forall|i: int| 0 <= i < segment.len() ==> segment[i] != SEPARATOR
}

/// The named segments of a path are not empty, hold no separator, and are
/// not `.`.
pub proof fn lemma_named_segments(path: Seq<u8>)
    ensures
        forall|i: int|
            0 <= i < named_segments(path).len() ==> is_named_segment(
                #[trigger] named_segments(path)[i],
            ),
    decreases path.len(),
{
    if path.len() > 0 {
        let rest = named_segments(after_first_segment(path));
        lemma_first_segment(path);
        lemma_named_segments(after_first_segment(path));
        assert forall|i: int| 0 <= i < named_segments(path).len() implies is_named_segment(
            #[trigger] named_segments(path)[i],
        ) by {
            if !names_something(first_segment(path)) {
                assert(named_segments(path)[i] == rest[i]);
            } else if i > 0 {
                assert(named_segments(path)[i] == rest[i - 1]);
            }
        }
    }
}

/// The named segments of two paths with a separator between them are those
/// of the first and, behind them, those of the second; and what stands
/// before the named segments is that of the first path, unless it is empty.
pub proof fn lemma_appended(path: Seq<u8>, rest: Seq<u8>)
    ensures
        named_segments(path + seq![SEPARATOR] + rest) == named_segments(path) + named_segments(
            rest,
        ),
        path.len() > 0 ==> leading_component(path + seq![SEPARATOR] + rest) == leading_component(
            path,
        ),
    decreases path.len(),
{
    let longer = path + seq![SEPARATOR] + rest;
    if path.len() == 0 {
        assert(longer.skip(1) =~= rest);
        assert(segment_len(longer) == 0);
    } else {
        let n = segment_len(path) as int;
        lemma_first_segment(path);
        lemma_segment_len(longer, n);
        assert(first_segment(longer) =~= first_segment(path));
        let first = if names_something(first_segment(path)) {
            seq![first_segment(path)]
        } else {
            Seq::<Seq<u8>>::empty()
        };
        if n < path.len() {
            let tail = after_first_segment(path);
            assert(after_first_segment(longer) =~= tail + seq![SEPARATOR] + rest);
            lemma_appended(tail, rest);
            assert(first + (named_segments(tail) + named_segments(rest)) =~= (first
                + named_segments(tail)) + named_segments(rest));
        } else {
            assert(after_first_segment(longer) =~= rest);
            assert(named_segments(after_first_segment(path)) == Seq::<Seq<u8>>::empty());
            assert(first + Seq::<Seq<u8>>::empty() =~= first);
        }
    }
}

/// The components of a path extended by a relative path are those of the
/// path and, behind them, the named segments of the extension. So the
/// extended path lies within the path, as far as its components tell.
pub proof fn lemma_joined(base: Seq<u8>, rest: Seq<u8>)
    requires
        !has_root(rest),
    ensures
        base.len() > 0 ==> path_components(joined(base, rest)) == path_components(base)
            + named_segments(rest),
        within(joined(base, rest), base),
{
    let whole = joined(base, rest);
    if base.len() > 0 {
        if base.last() != SEPARATOR {
            lemma_appended(base, rest);
        } else {
            // the separator at the end of `base` is the one between the two
            let front = base.drop_last();
            let nothing = Seq::<u8>::empty();
            assert(base =~= front + seq![SEPARATOR] + nothing);
            assert(whole =~= front + seq![SEPARATOR] + rest);
            lemma_appended(front, nothing);
            lemma_appended(front, rest);
        }
        assert(path_components(whole).subrange(0, path_components(base).len() as int)
            =~= path_components(base));
    } else {
        // the empty path has no components
        assert(first_segment(base).len() == 0);
        assert(path_components(whole).subrange(0, 0) =~= path_components(base));
    }
}

/// The target of a request lies within the base directory, as far as its
/// components tell, unless the request path begins with two separators.
pub proof fn lemma_resolved(base: Seq<u8>, url_path: Seq<u8>)
    requires
        !(url_path.len() >= 2 && url_path[0] == SEPARATOR && url_path[1] == SEPARATOR),
    ensures
        within(resolved(base, url_path), base),
{
    if !has_root(url_path) {
        lemma_joined(base, url_path);
    } else if url_path.len() == 1 {
        assert(path_components(base).subrange(0, path_components(base).len() as int)
            =~= path_components(base));
    } else {
        lemma_joined(base, url_path.skip(1));
    }
}

/// The components of a child's path are those of its directory and, behind
/// them, the child's name.
pub proof fn lemma_child_components(directory: Seq<u8>, name: Seq<u8>)
    requires
        plain_name(name),
    ensures
        path_components(joined(directory, name)) == path_components(directory).push(name),
{
    lemma_one_segment(name);
    lemma_segment_len(name, name.len() as int);
    assert(first_segment(name) == name);
    if directory.len() == 0 {
        assert(first_segment(directory).len() == 0 && current_component().len() == 1);
    } else {
        lemma_joined(directory, name);
    }
}

/// A child of a directory that lies within `base` lies within `base` too,
/// and its path ends in its name.
pub proof fn lemma_child_of_directory(base: Seq<u8>, directory: Seq<u8>, name: Seq<u8>)
    requires
        plain_name(name),
        within(directory, base),
    ensures
        within(joined(directory, name), base),
        base_name(joined(directory, name)) == Some(name),
        relative_to(joined(directory, name), base) is Some,
{
    lemma_child_components(directory, name);
    let parts = path_components(directory);
    let prefix = path_components(base);
    assert(parts.push(name).subrange(0, prefix.len() as int) =~= parts.subrange(
        0,
        prefix.len() as int,
    ));
    assert(name[0] != root_component()[0]);
}

/// What is left of a path behind some of its named segments has the other
/// named segments, and begins with the first of them.
proof fn lemma_beyond(path: Seq<u8>, count: nat)
    requires
        count <= named_segments(path).len(),
    ensures
        named_segments(beyond(path, count)) == named_segments(path).skip(count as int),
        beyond(path, count).len() > 0 ==> names_something(first_segment(beyond(path, count))),
    decreases path.len(),
{
    if path.len() > 0 {
        let rest = after_first_segment(path);
        lemma_first_segment(path);
        if !names_something(first_segment(path)) {
            lemma_beyond(rest, count);
        } else if count > 0 {
            lemma_beyond(rest, (count - 1) as nat);
            assert(named_segments(path).skip(count as int) =~= named_segments(rest).skip(
                count - 1,
            ));
        } else {
            assert(named_segments(path).skip(0) =~= named_segments(path));
        }
    } else {
        assert(named_segments(path).skip(0) =~= named_segments(path));
    }
}

/// To take away what names nothing at the end of a path leaves its named
/// segments as they are, and also its first segment, if that names
/// something.
proof fn lemma_trimmed(path: Seq<u8>)
    ensures
        named_segments(trimmed(path)) == named_segments(path),
        names_something(first_segment(path)) ==> first_segment(trimmed(path)) == first_segment(
            path,
        ),
    decreases path.len(),
{
    let nothing = Seq::<u8>::empty();
    if path.len() == 0 {
    } else if path.last() == SEPARATOR {
        let front = path.drop_last();
        lemma_trimmed(front);
        assert(path =~= front + seq![SEPARATOR] + nothing);
        lemma_appended(front, nothing);
        assert(named_segments(front) + named_segments(nothing) =~= named_segments(front));
        lemma_first_segment(path);
        if names_something(first_segment(path)) {
            lemma_segment_len(front, segment_len(path) as int);
            assert(first_segment(front) =~= first_segment(path));
        }
    } else if path.last() == DOT && (path.len() == 1 || path[path.len() - 2] == SEPARATOR) {
        let front = path.drop_last();
        lemma_trimmed(front);
        if path.len() == 1 {
            assert(path =~= current_component());
            lemma_one_segment(path);
            lemma_segment_len(path, 1);
            assert(first_segment(path) =~= path);
        } else {
            let before = front.drop_last();
            assert(path =~= before + seq![SEPARATOR] + current_component());
            assert(front =~= before + seq![SEPARATOR] + nothing);
            lemma_one_segment(current_component());
            lemma_appended(before, current_component());
            lemma_appended(before, nothing);
            lemma_first_segment(path);
            if names_something(first_segment(path)) {
                assert(segment_len(path) < path.len() - 1) by {
                    if segment_len(path) == path.len() - 1 {
                        assert(path[path.len() - 2] != SEPARATOR);
                    }
                    if segment_len(path) == path.len() {
                        assert(path[path.len() - 2] != SEPARATOR);
                    }
                }
                lemma_segment_len(front, segment_len(path) as int);
                assert(first_segment(front) =~= first_segment(path));
            }
        }
    }
}

/// The components of a path as seen from a base directory are the
/// components of the path that follow those of the base directory; and it
/// is a relative path, made of named segments only.
pub proof fn lemma_relative_to(path: Seq<u8>, base: Seq<u8>)
    requires
        within(path, base),
        path_components(base).len() > 0,
    ensures
        relative_to(path, base) matches Some(rest) && !has_root(rest) && path_components(rest)
            == named_segments(rest) && path_components(rest) == path_components(path).skip(
            path_components(base).len() as int,
        ),
{
    let prefix = path_components(base);
    let parts = path_components(path);
    let n = prefix.len() as int;
    let count = named_segments(base).len();
    let left = beyond(path, count);
    let rest = trimmed(left);
    lemma_named_segments(path);
    lemma_named_segments(base);
    // both paths have what stands before their named segments, or neither
    assert(parts.subrange(0, n)[0] == parts[0]);
    assert(leading_component(path).len() == leading_component(base).len()) by {
        assert(root_component()[0] == SEPARATOR);
        if leading_component(base).len() == 0 {
            assert(is_named_segment(named_segments(base)[0]));
        }
        if leading_component(path).len() == 0 {
            assert(is_named_segment(named_segments(path)[0]));
        }
    }
    assert(parts.skip(n) =~= named_segments(path).skip(count as int));
    lemma_beyond(path, count);
    lemma_trimmed(left);
    if rest.len() > 0 {
        lemma_first_segment(rest);
        assert(first_segment(rest)[0] == rest[0]);
        assert(leading_component(rest) =~= Seq::<Seq<u8>>::empty());
    } else {
        assert(first_segment(rest).len() == 0);
        assert(leading_component(rest) =~= Seq::<Seq<u8>>::empty());
    }
    assert(path_components(rest) =~= named_segments(rest));
}

/// A link of a listing leads to the child that it stands for: where a path
/// lies within an absolute base directory, a request for `/` and the path as
/// seen from the base directory has a target that denotes the same place.
pub proof fn lemma_link_leads_back(base: Seq<u8>, path: Seq<u8>)
    requires
        has_root(base),
        within(path, base),
    ensures
        relative_to(path, base) matches Some(link) && equivalent(
            resolved(base, seq![SEPARATOR] + link),
            path,
        ),
{
    lemma_relative_to(path, base);
    let prefix = path_components(base);
    let parts = path_components(path);
    let link = relative_to(path, base).unwrap();
    let url = seq![SEPARATOR] + link;
    assert(parts =~= prefix + parts.skip(prefix.len() as int)) by {
        assert(parts.subrange(0, prefix.len() as int) == prefix);
    }
    if link.len() > 0 {
        assert(url.skip(1) =~= link);
        lemma_joined(base, link);
    } else {
        assert(first_segment(link).len() == 0);
        assert(path_components(link) =~= Seq::<Seq<u8>>::empty());
        assert(parts =~= prefix);
    }
}

} // verus!
