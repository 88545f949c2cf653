//! The children of a directory, as the file system reported them, and the
//! order in which a listing shows them.

use vstd::prelude::*;
use crate::target::{ResolvedTarget, ResolvedTargetView};
use crate::order::{
    comes_first, lemma_precedes_reflexive, lemma_precedes_total, lemma_precedes_transitive,
    precedes,
};

verus! {

/// One child of a directory, as the file system reported it.
#[derive(Debug, Clone, PartialEq, Eq)]
pub struct Child {
    /// The path of the child: that of the directory, and the child's name.
    pub path: Vec<u8>,
    /// What the file system says of that path.
    pub found: ResolvedTarget,
}

/// What a [`Child`] holds.
pub struct ChildView {
    pub path: Seq<u8>,
    pub found: ResolvedTargetView,
}

impl View for Child {
    type V = ChildView;

    open spec fn view(&self) -> ChildView {
        ChildView { path: self.path@, found: self.found@ }
    }
}

impl DeepView for Child {
    type V = ChildView;

    open spec fn deep_view(&self) -> ChildView {
        self@
    }
}

impl Child {
    /// A child with the given path, of which the file system says `found`.
    pub fn new(path: Vec<u8>, found: ResolvedTarget) -> (child: Child)
        ensures
            child@ == (ChildView { path: path@, found: found@ }),
    {
        Child { path, found }
    }
}

/// `sorted` with `child` put behind the last element whose path precedes
/// that of `child`, and before every element after that one.
pub open spec fn with_child(sorted: Seq<ChildView>, child: ChildView) -> Seq<ChildView>
    decreases sorted.len(),
{
    if sorted.len() == 0 {
        seq![child]
    } else if precedes(sorted.last().path, child.path) {
        sorted.push(child)
    } else {
        with_child(sorted.drop_last(), child).push(sorted.last())
    }
}

/// The children in the order of a listing: ascending by the bytes of their
/// paths, children with equal paths in the order in which they came.
pub open spec fn in_order(children: Seq<ChildView>) -> Seq<ChildView>
    decreases children.len(),
{
    if children.len() == 0 {
        children
    } else {
        with_child(in_order(children.drop_last()), children.last())
    }
}

/// Whether the paths of `children` ascend: each precedes all that follow it.
pub open spec fn ascending(children: Seq<ChildView>) -> bool {
    forall|i: int, j: int|
        0 <= i < j < children.len() ==> precedes(
            #[trigger] children[i].path,
            #[trigger] children[j].path,
        )
}

proof fn lemma_with_child(sorted: Seq<ChildView>, child: ChildView)
    requires
        ascending(sorted),
    ensures
        ascending(with_child(sorted, child)),
        with_child(sorted, child).len() == sorted.len() + 1,
        with_child(sorted, child).to_multiset() == sorted.to_multiset().insert(child),
        with_child(sorted, child).last() == child || (sorted.len() > 0 && with_child(
            sorted,
            child,
        ).last() == sorted.last()),
    decreases sorted.len(),
{
    broadcast use vstd::seq_lib::group_to_multiset_ensures;

    let result = with_child(sorted, child);
    if sorted.len() == 0 {
    } else if precedes(sorted.last().path, child.path) {
        assert forall|i: int, j: int| 0 <= i < j < result.len() implies precedes(
            #[trigger] result[i].path,
            #[trigger] result[j].path,
        ) by {
            if j == sorted.len() && i < sorted.len() - 1 {
                lemma_precedes_transitive(sorted[i].path, sorted.last().path, child.path);
            }
        }
    } else {
        let front = sorted.drop_last();
        let inner = with_child(front, child);
        lemma_with_child(front, child);
        lemma_precedes_total(sorted.last().path, child.path);
        assert forall|i: int, j: int| 0 <= i < j < result.len() implies precedes(
            #[trigger] result[i].path,
            #[trigger] result[j].path,
        ) by {
            // every element of `inner` precedes the former last element,
            // because the last element of `inner` does
            if j == inner.len() && i < inner.len() - 1 {
                lemma_precedes_transitive(inner[i].path, inner.last().path, sorted.last().path);
            }
        }
        assert(sorted =~= front.push(sorted.last()));
    }
}

/// A listing's order is ascending, and holds every child as often as it was
/// given: the order rearranges, it neither drops nor repeats.
pub proof fn lemma_in_order(children: Seq<ChildView>)
    ensures
        ascending(in_order(children)),
        in_order(children).len() == children.len(),
        in_order(children).to_multiset() == children.to_multiset(),
    decreases children.len(),
{
    broadcast use vstd::seq_lib::group_to_multiset_ensures;

    if children.len() > 0 {
        lemma_in_order(children.drop_last());
        lemma_with_child(in_order(children.drop_last()), children.last());
        assert(children =~= children.drop_last().push(children.last()));
    }
}

/// The children among `children` whose path is `path`, in their order.
pub open spec fn at_path(children: Seq<ChildView>, path: Seq<u8>) -> Seq<ChildView> {
    children.filter(|child: ChildView| child.path == path)
}

proof fn lemma_with_child_at_path(sorted: Seq<ChildView>, child: ChildView, path: Seq<u8>)
    ensures
        at_path(with_child(sorted, child), path) == if child.path == path {
            at_path(sorted, path).push(child)
        } else {
            at_path(sorted, path)
        },
    decreases sorted.len(),
{
    reveal(Seq::filter);
    let wanted = |c: ChildView| c.path == path;
    let result = with_child(sorted, child);
    if sorted.len() == 0 {
        assert(result.drop_last() =~= sorted);
    } else if precedes(sorted.last().path, child.path) {
        assert(result.drop_last() =~= sorted);
    } else {
        let front = sorted.drop_last();
        lemma_with_child_at_path(front, child, path);
        lemma_precedes_reflexive(path);
        assert(result.drop_last() =~= with_child(front, child));
    }
}

/// A listing's order keeps children with equal paths in the order in which
/// they were given.
pub proof fn lemma_in_order_stable(children: Seq<ChildView>, path: Seq<u8>)
    ensures
        at_path(in_order(children), path) == at_path(children, path),
    decreases children.len(),
{
    reveal(Seq::filter);
    if children.len() > 0 {
        lemma_in_order_stable(children.drop_last(), path);
        lemma_with_child_at_path(in_order(children.drop_last()), children.last(), path);
    }
}

/// Two runs of children as one: the last place goes to the last child of
/// `right` where the last child of `left` precedes it, otherwise to the last
/// child of `left`, and so on down to the first place.
spec fn merged(left: Seq<ChildView>, right: Seq<ChildView>) -> Seq<ChildView>
    decreases left.len() + right.len(),
{
    if left.len() == 0 {
        right
    } else if right.len() == 0 {
        left
    } else if precedes(left.last().path, right.last().path) {
        merged(left, right.drop_last()).push(right.last())
    } else {
        merged(left.drop_last(), right).push(left.last())
    }
}

/// To put one more child into the second of two runs and merge the runs
/// gives what it gives to merge the runs and put the child into the result.
proof fn lemma_merged_with_child(left: Seq<ChildView>, right: Seq<ChildView>, child: ChildView)
    ensures
        merged(left, with_child(right, child)) == with_child(merged(left, right), child),
    decreases left.len() + right.len(),
{
    let longer = with_child(right, child);
    let both = merged(left, right);
    if left.len() == 0 {
        // nothing to merge with
    } else if right.len() == 0 {
        // the child is all of the second run
        assert(longer.drop_last() =~= right);
        if !precedes(left.last().path, child.path) {
            lemma_merged_with_child(left.drop_last(), right, child);
            assert(merged(left.drop_last(), right) == left.drop_last());
        }
    } else {
        let l = left.last();
        let r = right.last();
        if precedes(r.path, child.path) {
            // the child is the last of the second run
            assert(longer.drop_last() =~= right);
            if !precedes(l.path, child.path) {
                // the last place goes to `l`, with and without the child
                if precedes(l.path, r.path) {
                    lemma_precedes_transitive(l.path, r.path, child.path);
                }
                lemma_merged_with_child(left.drop_last(), right, child);
                assert(both.drop_last() =~= merged(left.drop_last(), right));
            }
        } else {
            // `r` stays the last of the second run
            assert(longer.drop_last() =~= with_child(right.drop_last(), child));
            lemma_precedes_total(r.path, child.path);
            if precedes(l.path, r.path) {
                // the last place goes to `r`, with and without the child
                lemma_merged_with_child(left, right.drop_last(), child);
                assert(both.drop_last() =~= merged(left, right.drop_last()));
            } else {
                // the last place goes to `l`, with and without the child
                if precedes(l.path, child.path) {
                    lemma_precedes_transitive(l.path, child.path, r.path);
                }
                lemma_merged_with_child(left.drop_last(), right, child);
                assert(both.drop_last() =~= merged(left.drop_last(), right));
            }
        }
    }
}

/// The order of two runs of children, one behind the other, is the orders of
/// the two runs merged.
proof fn lemma_in_order_of_two(left: Seq<ChildView>, right: Seq<ChildView>)
    ensures
        in_order(left + right) == merged(in_order(left), in_order(right)),
    decreases right.len(),
{
    if right.len() == 0 {
        assert(left + right =~= left);
    } else {
        let front = right.drop_last();
        assert((left + right).drop_last() =~= left + front);
        lemma_in_order_of_two(left, front);
        lemma_merged_with_child(in_order(left), in_order(front), right.last());
    }
}

/// Merges two runs of children.
fn merge(left: Vec<Child>, right: Vec<Child>) -> (all: Vec<Child>)
    ensures
        all.deep_view() == merged(left.deep_view(), right.deep_view()),
{
    let ghost wanted = merged(left.deep_view(), right.deep_view());
    let mut left = left;
    let mut right = right;
    // the children from the last place down
    let mut behind: Vec<Child> = Vec::new();
    while left.len() > 0 && right.len() > 0
        invariant
            merged(left.deep_view(), right.deep_view()) + behind.deep_view().reverse() == wanted,
        decreases left.len() + right.len(),
    {
        let ghost l = left.deep_view();
        let ghost r = right.deep_view();
        let ghost b = behind.deep_view();
        let from_right = comes_first(
            left[left.len() - 1].path.as_slice(),
            right[right.len() - 1].path.as_slice(),
        );
        let next = if from_right {
            right.pop()
        } else {
            left.pop()
        };
        match next {
            Some(child) => {
                assert(right.deep_view() =~= if from_right {
                    r.drop_last()
                } else {
                    r
                });
                assert(left.deep_view() =~= if from_right {
                    l
                } else {
                    l.drop_last()
                });
                behind.push(child);
                assert(behind.deep_view().reverse() =~= seq![child@] + b.reverse());
            },
            None => {},
        }
    }
    let mut all = if left.len() > 0 {
        left
    } else {
        right
    };
    while behind.len() > 0
        invariant
            all.deep_view() + behind.deep_view().reverse() == wanted,
        decreases behind.len(),
    {
        let ghost a = all.deep_view();
        let ghost b = behind.deep_view();
        match behind.pop() {
            Some(child) => {
                all.push(child);
                assert(all.deep_view() + behind.deep_view().reverse() =~= a + b.reverse());
            },
            None => {},
        }
    }
    all
}

/// Puts the children of a directory into the order of a listing.
pub fn files_in(children: Vec<Child>) -> (sorted: Vec<Child>)
    ensures
        sorted.deep_view() == in_order(children.deep_view()),
    decreases children.len(),
{
    let ghost given = children.deep_view();
    if children.len() < 2 {
        proof {
            if given.len() == 1 {
                assert(in_order(given.drop_last()) =~= Seq::<ChildView>::empty());
            }
        }
        return children;
    }
    let mut left = children;
    let right = left.split_off(left.len() / 2);
    proof {
        assert(left.deep_view() + right.deep_view() =~= given);
        lemma_in_order_of_two(left.deep_view(), right.deep_view());
    }
    merge(files_in(left), files_in(right))
}

} // verus!
