use vstd::prelude::*;
use crate::length::{Length, Size};

verus! {

/// A component of a user interface that a keyed container holds as a child.
///
/// Each widget keeps its persistent state in a tree of type `Tree`; the
/// container keeps one such tree per child and reconciles them when the
/// children change. Contracts speak of a tree through its view.
pub trait Widget {
    /// The persistent state of the widget.
    type Tree: View;

    /// The sizing strategy that `size_hint` reports.
    spec fn hint(&self) -> Size<Length>;

    /// The tree that `tree` creates for a fresh instance of the widget.
    spec fn initial_tree(&self) -> <Self::Tree as View>::V;

    /// Whether `diff` can reconcile the tree `tree`.
    spec fn accepts(&self, tree: <Self::Tree as View>::V) -> bool;

    /// The tree that `diff` leaves behind when handed `tree`.
    spec fn diffed(&self, tree: <Self::Tree as View>::V) -> <Self::Tree as View>::V;

    /// Returns a [`Size`] hint for laying out the widget.
    fn size_hint(&self) -> (hint: Size<Length>)
        ensures
            hint == self.hint(),
    ;

    /// Creates the state tree of a fresh instance of the widget.
    fn tree(&self) -> (tree: Self::Tree)
        ensures
            tree@ == self.initial_tree(),
    ;

    /// Reconciles an existing state tree with the widget.
    fn diff(&self, tree: &mut Self::Tree)
        requires
            self.accepts(old(tree)@),
        ensures
            final(tree)@ == self.diffed(old(tree)@),
    ;
}

/// The views of the trees `trees`.
pub open spec fn views<T: View>(trees: Seq<T>) -> Seq<T::V> {
    trees.map_values(|tree: T| tree@)
}

/// The views of trees are taken one by one.
pub broadcast proof fn lemma_views<T: View>(trees: Seq<T>)
    ensures
        (#[trigger] views(trees)).len() == trees.len(),
        forall|i: int| 0 <= i < trees.len() ==> views(trees)[i] == trees[i]@,
{
}

} // verus!
