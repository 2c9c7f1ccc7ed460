//! Keyed stacks distribute content vertically while keeping continuity.
use vstd::prelude::*;
use crate::length::{Length, Size};
use crate::widget::{lemma_views, views, Widget};
use crate::mouse::Cursor;
use crate::keyed::reconcile::{
    arrivals, first_at, lemma_arrivals_members, lemma_arrivals_pairs, first_index, lemma_laid_out,
    law_no_repeats, lemma_survivors_len, lemma_survivors_members, lemma_survivors_pairs, occurs_before, reconciled,
    repeats, state_for,
    survivors,
};
use vstd::laws_eq::obeys_concrete_eq;

verus! {

broadcast use lemma_views;

/// A container that distributes its contents vertically while keeping
/// continuity: each child carries a key, and the state of a child follows its
/// key when the children change.
pub struct Stack<K, E> where K: Copy + PartialEq {
    width: Length,
    height: Length,
    keys: Vec<K>,
    children: Vec<E>,
    clip: bool,
    base_layer: usize,
}

/// The abstract contents of a [`Stack`].
pub struct StackView<K, E> {
    pub width: Length,
    pub height: Length,
    pub keys: Seq<K>,
    pub children: Seq<E>,
    pub clip: bool,
    pub base_layer: usize,
}

impl<K: Copy + PartialEq, E> View for Stack<K, E> {
    type V = StackView<K, E>;

    closed spec fn view(&self) -> StackView<K, E> {
        StackView {
            width: self.width,
            height: self.height,
            keys: self.keys@,
            children: self.children@,
            clip: self.clip,
            base_layer: self.base_layer,
        }
    }
}

/// A stack of the given keys and children that shrinks in both directions.
pub open spec fn shrinking<K, E>(keys: Seq<K>, children: Seq<E>) -> StackView<K, E> {
    StackView {
        width: Length::Shrink,
        height: Length::Shrink,
        keys,
        children,
        clip: false,
        base_layer: 0,
    }
}

/// The stack `view` after `child` is pushed on top of it under `key`: both
/// lengths enclose the child's size hint.
pub open spec fn pushed<K, E: Widget>(view: StackView<K, E>, key: K, child: E) -> StackView<K, E> {
    StackView {
        width: view.width.enclosing(child.hint().width),
        height: view.height.enclosing(child.hint().height),
        keys: view.keys.push(key),
        children: view.children.push(child),
        ..view
    }
}

/// The stack `view` after each of `items` is pushed on top of it, in order.
pub open spec fn extended<K, E: Widget>(view: StackView<K, E>, items: Seq<(K, E)>) -> StackView<K, E>
    decreases items.len(),
{
    if items.len() == 0 {
        view
    } else {
        pushed(extended(view, items.drop_last()), items.last().0, items.last().1)
    }
}

/// A stack made from keys and children holds exactly those keys and
/// children, shrinks in both directions, does not clip and has the first
/// child as its base layer.
pub proof fn law_shrinking_holds_its_parts<K, E>(keys: Seq<K>, children: Seq<E>)
    ensures
        shrinking(keys, children).keys == keys,
        shrinking(keys, children).children == children,
        shrinking(keys, children).width == Length::Shrink,
        shrinking(keys, children).height == Length::Shrink,
        !shrinking(keys, children).clip,
        shrinking(keys, children).base_layer == 0,
{
}

/// Pushing a child appends its key and itself, and encloses its size hint.
pub proof fn law_push_appends<K, E: Widget>(view: StackView<K, E>, key: K, child: E)
    ensures
        pushed(view, key, child).keys == view.keys.push(key),
        pushed(view, key, child).children == view.children.push(child),
        pushed(view, key, child).width == view.width.enclosing(child.hint().width),
        pushed(view, key, child).height == view.height.enclosing(child.hint().height),
        pushed(view, key, child).clip == view.clip,
        pushed(view, key, child).base_layer == view.base_layer,
{
}

/// Extending in two steps is extending with both lists at once.
pub proof fn law_extend_concat<K, E: Widget>(view: StackView<K, E>, first: Seq<(K, E)>, second: Seq<(K, E)>)
    ensures
        extended(extended(view, first), second) == extended(view, first + second),
    decreases second.len(),
{
    if second.len() == 0 {
        assert(first + second =~= first);
    } else {
        law_extend_concat(view, first, second.drop_last());
        assert((first + second).drop_last() =~= first + second.drop_last());
        assert((first + second).last() == second.last());
    }
}

/// Extending appends the keys and the children of the items, in order, and
/// leaves the clipping and the base layer alone.
pub proof fn law_extend_appends<K, E: Widget>(view: StackView<K, E>, items: Seq<(K, E)>)
    ensures
        extended(view, items).keys == view.keys + items.map_values(|item: (K, E)| item.0),
        extended(view, items).children == view.children + items.map_values(|item: (K, E)| item.1),
        extended(view, items).clip == view.clip,
        extended(view, items).base_layer == view.base_layer,
    decreases items.len(),
{
    if items.len() == 0 {
        assert(view.keys + items.map_values(|item: (K, E)| item.0) =~= view.keys);
        assert(view.children + items.map_values(|item: (K, E)| item.1) =~= view.children);
    } else {
        law_extend_appends(view, items.drop_last());
        assert(view.keys + items.map_values(|item: (K, E)| item.0)
            =~= (view.keys + items.drop_last().map_values(|item: (K, E)| item.0)).push(items.last().0));
        assert(view.children + items.map_values(|item: (K, E)| item.1)
            =~= (view.children + items.drop_last().map_values(|item: (K, E)| item.1)).push(items.last().1));
    }
}

/// The length of a stack along its width (`horizontal`) or its height.
pub open spec fn stack_length<K, E>(view: StackView<K, E>, horizontal: bool) -> Length {
    if horizontal { view.width } else { view.height }
}

/// The length that a child's size hint asks for along the width
/// (`horizontal`) or the height.
pub open spec fn hinted_length<E: Widget>(child: E, horizontal: bool) -> Length {
    if horizontal { child.hint().width } else { child.hint().height }
}

/// Whether a child among `items` asks to fill the space along the width
/// (`horizontal`) or the height.
pub open spec fn some_fills<K, E: Widget>(items: Seq<(K, E)>, horizontal: bool) -> bool {
    exists|i: int| 0 <= i < items.len() && hinted_length((#[trigger] items[i]).1, horizontal).is_fluid_fill()
}

/// A stack adapts its width and its height to its children: a stack that
/// does not shrink along a direction keeps its length there, and a shrinking
/// stack takes the length of the first child that fills, or keeps shrinking
/// when no child fills.
pub proof fn law_extend_length<K, E: Widget>(view: StackView<K, E>, items: Seq<(K, E)>, horizontal: bool)
    ensures
        !(stack_length(view, horizontal) is Shrink) ==>
            stack_length(extended(view, items), horizontal) == stack_length(view, horizontal),
        (stack_length(view, horizontal) is Shrink && !some_fills(items, horizontal)) ==>
            stack_length(extended(view, items), horizontal) == Length::Shrink,
        (stack_length(view, horizontal) is Shrink && some_fills(items, horizontal)) ==> exists|i: int|
            0 <= i < items.len()
                && stack_length(extended(view, items), horizontal) == hinted_length((#[trigger] items[i]).1, horizontal)
                && stack_length(extended(view, items), horizontal).is_fluid_fill()
                && forall|j: int| 0 <= j < i ==> !hinted_length((#[trigger] items[j]).1, horizontal).is_fluid_fill(),
    decreases items.len(),
{
    if items.len() > 0 {
        let rest = items.drop_last();
        law_extend_length(view, rest, horizontal);
        if stack_length(view, horizontal) is Shrink {
            if some_fills(rest, horizontal) {
                let i = choose|i: int| 0 <= i < rest.len()
                    && stack_length(extended(view, rest), horizontal) == hinted_length((#[trigger] rest[i]).1, horizontal)
                    && stack_length(extended(view, rest), horizontal).is_fluid_fill()
                    && forall|j: int| 0 <= j < i ==> !hinted_length((#[trigger] rest[j]).1, horizontal).is_fluid_fill();
                assert(items[i] == rest[i]);
                assert forall|j: int| 0 <= j < i implies !hinted_length((#[trigger] items[j]).1, horizontal).is_fluid_fill() by {
                    assert(items[j] == rest[j]);
                }
                assert(some_fills(items, horizontal));
            } else {
                assert forall|j: int| 0 <= j < rest.len() implies
                    !hinted_length((#[trigger] items[j]).1, horizontal).is_fluid_fill() by {
                    assert(items[j] == rest[j]);
                    assert(!hinted_length(rest[j].1, horizontal).is_fluid_fill());
                }
                if hinted_length(items.last().1, horizontal).is_fluid_fill() {
                    assert(items[items.len() - 1] == items.last());
                } else {
                    assert forall|i: int| 0 <= i < items.len() implies
                        !hinted_length((#[trigger] items[i]).1, horizontal).is_fluid_fill() by {
                        if i < rest.len() {
                            assert(items[i] == rest[i]);
                        }
                    }
                }
            }
        }
    }
}

impl<K: Copy + PartialEq, E> Stack<K, E> {
    /// Creates an empty [`Stack`].
    pub fn new() -> (stack: Self)
        ensures
            stack@ == shrinking::<K, E>(Seq::empty(), Seq::empty()),
            stack@.keys.len() == 0 && stack@.children.len() == 0,
            stack@.width == Length::Shrink && stack@.height == Length::Shrink,
    {
        Self::from_vecs(Vec::new(), Vec::new())
    }

    /// Creates a [`Stack`] from already allocated [`Vec`]s.
    ///
    /// Keep in mind that the [`Stack`] will not inspect the [`Vec`]s, which means
    /// it won't automatically adapt to the sizing strategy of its contents.
    ///
    /// If any of the children have a [`Length::Fill`] strategy, you will need to
    /// call [`Stack::width`] or [`Stack::height`] accordingly.
    pub fn from_vecs(keys: Vec<K>, children: Vec<E>) -> (stack: Self)
        ensures
            stack@ == shrinking(keys@, children@),
            stack@.keys == keys@,
            stack@.children == children@,
            stack@.width == Length::Shrink && stack@.height == Length::Shrink,
            !stack@.clip && stack@.base_layer == 0,
    {
        Self {
            width: Length::Shrink,
            height: Length::Shrink,
            keys,
            children,
            clip: false,
            base_layer: 0,
        }
    }

    /// Creates a [`Stack`] with the given capacity.
    pub fn with_capacity(capacity: usize) -> (stack: Self)
        ensures
            stack@ == shrinking::<K, E>(Seq::empty(), Seq::empty()),
            stack@.keys.len() == 0 && stack@.children.len() == 0,
            stack@.width == Length::Shrink && stack@.height == Length::Shrink,
    {
        Self::from_vecs(Vec::with_capacity(capacity), Vec::with_capacity(capacity))
    }

    /// Sets the width of the [`Stack`].
    pub fn width(self, width: Length) -> (stack: Self)
        ensures
            stack@ == (StackView { width, ..self@ }),
    {
        let mut stack = self;
        stack.width = width;
        stack
    }

    /// Sets the height of the [`Stack`].
    pub fn height(self, height: Length) -> (stack: Self)
        ensures
            stack@ == (StackView { height, ..self@ }),
    {
        let mut stack = self;
        stack.height = height;
        stack
    }
}

impl<K: Copy + PartialEq, E: Widget> Stack<K, E> {
    /// Creates a [`Stack`] with the given elements.
    pub fn with_children(children: Vec<(K, E)>) -> (stack: Self)
        ensures
            stack@ == extended(shrinking(Seq::empty(), Seq::empty()), children@),
    {
        let capacity = children.len();
        Self::with_capacity(capacity).extend(children)
    }

    /// Adds an element to the [`Stack`].
    pub fn push(self, key: K, child: E) -> (stack: Self)
        ensures
            stack@ == pushed(self@, key, child),
            stack@.keys == self@.keys.push(key),
            stack@.children == self@.children.push(child),
            stack@.width == self@.width.enclosing(child.hint().width),
            stack@.height == self@.height.enclosing(child.hint().height),
            stack@.clip == self@.clip && stack@.base_layer == self@.base_layer,
    {
        let mut stack = self;
        let child_size = child.size_hint();
        stack.width = stack.width.enclose(child_size.width);
        stack.height = stack.height.enclose(child_size.height);
        stack.keys.push(key);
        stack.children.push(child);
        stack
    }

    /// Adds an element to the [`Stack`], if `Some`.
    pub fn push_maybe(self, key: K, child: Option<E>) -> (stack: Self)
        ensures
            stack@ == (match child {
                Some(child) => pushed(self@, key, child),
                None => self@,
            }),
    {
        if let Some(child) = child {
            self.push(key, child)
        } else {
            self
        }
    }

    /// Extends the [`Stack`] with the given children.
    pub fn extend(self, children: Vec<(K, E)>) -> (stack: Self)
        ensures
            stack@ == extended(self@, children@),
    {
        let ghost start = self@;
        let ghost items = children@;
        let mut stack = self;
        for item in it: children
            invariant
                it.seq() == items,
                stack@ == extended(start, items.take(it.index() as int)),
        {
            let (key, child) = item;
            assert(items.take(it.index() + 1).drop_last() == items.take(it.index() as int));
            stack = stack.push(key, child);
        }
        assert(items.take(items.len() as int) == items);
        stack
    }
}

impl<K: Copy + PartialEq, E: Widget> Stack<K, E> {
    /// Reconciles the state trees `children` that were made for the keys in
    /// `state` with the current children of the stack, then records the
    /// current keys in `state`.
    ///
    /// The state of every key follows it: the trees of keys that vanished
    /// are dropped, each new key gets a fresh tree from its child, the trees
    /// are moved to the positions of their keys, and every child reconciles
    /// the tree of its own key.
    pub fn diff(&self, state: &mut KeyedState<K>, children: &mut Vec<E::Tree>)
        requires
            obeys_concrete_eq::<K>(),
            self@.keys.no_duplicates(),
            old(state).keys.len() == old(children).len(),
            self@.keys.len() <= self@.children.len(),
            forall|j: int| 0 <= j < self@.keys.len() ==> #[trigger] self@.children[j].accepts(
                state_for(old(state).keys@, views(old(children)@), self@.keys[j], self@.children[j]),
            ),
        ensures
            final(state).keys@ == self@.keys,
            views(final(children)@) == reconciled(old(state).keys@, views(old(children)@), self@.keys, self@.children)
                + repeats(old(state).keys@, views(old(children)@), self@.keys, old(state).keys.len() as int),
            old(state).keys@.no_duplicates() ==> final(children)@.len() == self@.keys.len(),
    {
        let ghost new_keys = self.keys@;
        let ghost widgets = self.children@;
        let ghost old_keys = state.keys@;
        let ghost old_trees = views(children@);

        // Drop the trees whose keys are gone, and set aside the trees of the
        // later occurrences of a repeated key.
        let old_len = state.keys.len();
        let mut spare: Vec<E::Tree> = Vec::new();
        let mut kept: usize = 0;
        let mut i: usize = 0;
        while i < old_len
            invariant
                obeys_concrete_eq::<K>(),
                new_keys == self.keys@,
                old_len == old_keys.len(),
                old_keys.len() == old_trees.len(),
                0 <= i <= old_len,
                kept == survivors(old_keys, old_trees, new_keys, i as int).0.len(),
                kept == survivors(old_keys, old_trees, new_keys, i as int).1.len(),
                state.keys@ == survivors(old_keys, old_trees, new_keys, i as int).0
                    + old_keys.subrange(i as int, old_len as int),
                views(children@) == survivors(old_keys, old_trees, new_keys, i as int).1
                    + old_trees.subrange(i as int, old_len as int),
                views(spare@) == repeats(old_keys, old_trees, new_keys, i as int),
            decreases old_len - i,
        {
            proof {
                lemma_survivors_len(old_keys, old_trees, new_keys, i as int);
            }
            let ghost before = survivors(old_keys, old_trees, new_keys, i as int);
            assert(state.keys@[kept as int] == old_keys[i as int]);
            let key = state.keys[kept];
            let seen = match position_of(&state.keys, &key) {
                Some(first) => first < kept,
                None => false,
            };
            proof {
                if before.0.contains(key) {
                    let m = choose|m: int| 0 <= m < before.0.len() && before.0[m] == key;
                    assert(state.keys@[m] == key);
                }
                if seen {
                    let first = choose|p: int| 0 <= p < kept && state.keys@[p] == key;
                    assert(before.0[first] == key);
                }
            }
            assert(seen == before.0.contains(key));
            let wanted = contains_key(&self.keys, &key);
            if wanted && !seen {
                kept += 1;
                assert(state.keys@ =~= survivors(old_keys, old_trees, new_keys, i + 1).0
                    + old_keys.subrange(i + 1, old_len as int));
                assert(views(children@) =~= survivors(old_keys, old_trees, new_keys, i + 1).1
                    + old_trees.subrange(i + 1, old_len as int));
            } else {
                let ghost pre = children@;
                let ghost pre_spare = spare@;
                state.keys.remove(kept);
                assert(views(pre)[kept as int] == old_trees[i as int]);
                let tree = children.remove(kept);
                assert(tree == pre[kept as int]);
                assert(tree@ == old_trees[i as int]);
                assert(views(children@) =~= views(pre).remove(kept as int));
                if wanted {
                    spare.push(tree);
                    assert(views(spare@) =~= views(pre_spare).push(tree@));
                }
                assert(state.keys@ =~= survivors(old_keys, old_trees, new_keys, i + 1).0
                    + old_keys.subrange(i + 1, old_len as int));
                assert(views(children@) =~= survivors(old_keys, old_trees, new_keys, i + 1).1
                    + old_trees.subrange(i + 1, old_len as int));
            }
            i += 1;
        }
        let ghost kept_keys = survivors(old_keys, old_trees, new_keys, old_len as int).0;
        let ghost kept_trees = survivors(old_keys, old_trees, new_keys, old_len as int).1;
        assert(state.keys@ =~= kept_keys);
        assert(views(children@) =~= kept_trees);

        // Give each new key a fresh tree.
        proof {
            lemma_survivors_members(old_keys, old_trees, new_keys, old_len as int);
        }
        let n = self.keys.len();
        for j in 0..n
            invariant
                obeys_concrete_eq::<K>(),
                n == new_keys.len(),
                new_keys == self.keys@,
                widgets == self.children@,
                new_keys.len() <= widgets.len(),
                new_keys.no_duplicates(),
                state.keys@ == kept_keys + arrivals(kept_keys, new_keys, widgets, j as int).0,
                views(children@) == kept_trees + arrivals(kept_keys, new_keys, widgets, j as int).1,
        {
            proof {
                lemma_arrivals_members(kept_keys, new_keys, widgets, j as int);
            }
            let key = self.keys[j];
            let present = contains_key(&state.keys, &key);
            proof {
                let arrived = arrivals(kept_keys, new_keys, widgets, j as int).0;
                if arrived.contains(key) {
                    let k = choose|k: int| 0 <= k < j && #[trigger] new_keys[k] == key;
                }
                assert(present <==> kept_keys.contains(key)) by {
                    if kept_keys.contains(key) {
                        let m = choose|m: int| 0 <= m < kept_keys.len() && kept_keys[m] == key;
                        assert(state.keys@[m] == key);
                    }
                    if present {
                        let m = choose|m: int| 0 <= m < state.keys@.len() && state.keys@[m] == key;
                        if m >= kept_keys.len() {
                            assert(arrived[m - kept_keys.len()] == key);
                            assert(arrived.contains(key));
                        } else {
                            assert(kept_keys[m] == key);
                        }
                    }
                }
            }
            if !present {
                let ghost pre = children@;
                state.keys.push(key);
                let fresh = self.children[j].tree();
                children.push(fresh);
                assert(views(children@) =~= views(pre).push(fresh@));
            }
            assert(state.keys@ =~= kept_keys + arrivals(kept_keys, new_keys, widgets, j + 1).0);
            assert(views(children@) =~= kept_trees + arrivals(kept_keys, new_keys, widgets, j + 1).1);
        }

        // Every tree now stands beside its key and holds the state that key
        // starts from.
        proof {
            lemma_laid_out(old_keys, old_trees, new_keys, widgets);
            lemma_survivors_len(old_keys, old_trees, new_keys, old_len as int);
            lemma_survivors_pairs(old_keys, old_trees, new_keys, old_len as int);
            lemma_arrivals_members(kept_keys, new_keys, widgets, n as int);
            lemma_arrivals_pairs(kept_keys, new_keys, widgets, n as int);
            let arrived = arrivals(kept_keys, new_keys, widgets, n as int);
            assert forall|m: int| 0 <= m < n implies #[trigger] views(children@)[m]
                == state_for(old_keys, old_trees, state.keys@[m], widgets[new_keys.index_of(state.keys@[m])]) by {
                let key = state.keys@[m];
                if m < kept_keys.len() {
                    assert(key == kept_keys[m]);
                    let j = first_index(old_keys, key);
                    assert(first_at(old_keys, key, j) && old_trees[j] == kept_trees[m]);
                    assert(old_keys.contains(key));
                } else {
                    let a = m - kept_keys.len();
                    assert(key == arrived.0[a]);
                    let k = choose|k: int| 0 <= k < n && #[trigger] new_keys[k] == arrived.0[a]
                        && arrived.1[a] == widgets[k].initial_tree();
                    assert(new_keys.contains(key));
                    assert(new_keys.index_of(key) == k);
                    assert(arrived.0.contains(key));
                    if old_keys.contains(key) {
                        let l = choose|l: int| 0 <= l < old_keys.len() && old_keys[l] == key;
                        assert(occurs_before(old_keys, key, old_len as int));
                    }
                }
            }
        }

        // Move every tree to the position of its key and reconcile it.
        for i in 0..n
            invariant
                obeys_concrete_eq::<K>(),
                n == new_keys.len(),
                new_keys == self.keys@,
                widgets == self.children@,
                new_keys.len() <= widgets.len(),
                new_keys.no_duplicates(),
                forall|j: int| 0 <= j < new_keys.len() ==> #[trigger] widgets[j].accepts(
                    state_for(old_keys, old_trees, new_keys[j], widgets[j]),
                ),
                state.keys@.no_duplicates(),
                state.keys@.len() == n,
                views(children@).len() == n,
                forall|x: K| #[trigger] state.keys@.contains(x) <==> new_keys.contains(x),
                forall|m: int| 0 <= m < i ==> state.keys@[m] == new_keys[m],
                forall|m: int| 0 <= m < i ==> #[trigger] views(children@)[m]
                    == widgets[m].diffed(state_for(old_keys, old_trees, new_keys[m], widgets[m])),
                forall|m: int| i <= m < n ==> #[trigger] views(children@)[m]
                    == state_for(old_keys, old_trees, state.keys@[m], widgets[new_keys.index_of(state.keys@[m])]),
        {
            let key = self.keys[i];
            assert(new_keys.contains(key));
            match position_of(&state.keys, &key) {
                Some(current) => {
                    assert(current >= i) by {
                        if current < i {
                            assert(state.keys@[current as int] == new_keys[current as int]);
                        }
                    }
                    if current != i {
                        let ghost keys_before = state.keys@;
                        let ghost trees_before = views(children@);
                        swap_entries(&mut state.keys, current, i);
                        swap_entries(children, current, i);
                        assert forall|x: K| #[trigger] state.keys@.contains(x) <==> keys_before.contains(x) by {
                            if state.keys@.contains(x) {
                                let m = choose|m: int| 0 <= m < n && state.keys@[m] == x;
                                if m == i {
                                    assert(keys_before[current as int] == x);
                                } else if m == current {
                                    assert(keys_before[i as int] == x);
                                } else {
                                    assert(keys_before[m] == x);
                                }
                            }
                            if keys_before.contains(x) {
                                let m = choose|m: int| 0 <= m < n && keys_before[m] == x;
                                if m == i {
                                    assert(state.keys@[current as int] == x);
                                } else if m == current {
                                    assert(state.keys@[i as int] == x);
                                } else {
                                    assert(state.keys@[m] == x);
                                }
                            }
                        }
                        assert forall|m: int| i <= m < n implies #[trigger] views(children@)[m] == state_for(
                            old_keys,
                            old_trees,
                            state.keys@[m],
                            widgets[new_keys.index_of(state.keys@[m])],
                        ) by {
                            if m == i {
                                assert(views(children@)[m] == trees_before[current as int]);
                                assert(state.keys@[m] == keys_before[current as int]);
                            } else if m == current {
                                assert(views(children@)[m] == trees_before[i as int]);
                                assert(state.keys@[m] == keys_before[i as int]);
                            } else {
                                assert(views(children@)[m] == trees_before[m]);
                            }
                        }
                        assert forall|m: int| 0 <= m < i implies #[trigger] views(children@)[m] == trees_before[m] by {}
                    }
                    assert(new_keys.index_of(key) == i as int);
                    let ghost placed = views(children@);
                    assert(placed[i as int] == state_for(old_keys, old_trees, new_keys[i as int], widgets[i as int]));
                    assert(widgets[i as int].accepts(state_for(old_keys, old_trees, new_keys[i as int], widgets[i as int])));
                    let ghost pre = children@;
                    let mut tree = children.remove(i);
                    assert(tree@ == placed[i as int]);
                    self.children[i].diff(&mut tree);
                    children.insert(i, tree);
                    assert(children@ =~= pre.update(i as int, tree));
                    assert(views(children@) =~= placed.update(i as int, widgets[i as int].diffed(placed[i as int])));
                },
                None => {},
            }
        }
        assert(state.keys@ =~= new_keys);
        assert(views(children@) =~= reconciled(old_keys, old_trees, new_keys, widgets));
        let ghost placed = children@;
        let ghost spare_trees = spare@;
        children.append(&mut spare);
        assert(views(children@) =~= views(placed) + views(spare_trees));
        proof {
            if old_keys.no_duplicates() {
                law_no_repeats(old_keys, old_trees, new_keys, old_len as int);
            }
        }
    }
}

/// The state tree of a keyed [`Stack`]: the keys of its children, and one
/// state tree per child.
pub struct StackTree<K, T> {
    pub state: KeyedState<K>,
    pub children: Vec<T>,
}

impl<K, T: View> View for StackTree<K, T> {
    type V = (Seq<K>, Seq<T::V>);

    open spec fn view(&self) -> (Seq<K>, Seq<T::V>) {
        (self.state.keys@, views(self.children@))
    }
}

/// A keyed stack is itself a widget, so that it can be the child of another
/// container.
impl<K: Copy + PartialEq, E: Widget> Widget for Stack<K, E> {
    type Tree = StackTree<K, E::Tree>;

    open spec fn hint(&self) -> Size<Length> {
        Size { width: self@.width, height: self@.height }
    }

    open spec fn initial_tree(&self) -> (Seq<K>, Seq<<E::Tree as View>::V>) {
        (self@.keys, self@.children.map_values(|child: E| child.initial_tree()))
    }

    open spec fn accepts(&self, tree: (Seq<K>, Seq<<E::Tree as View>::V>)) -> bool {
        &&& obeys_concrete_eq::<K>()
        &&& self@.keys.no_duplicates()
        &&& tree.0.len() == tree.1.len()
        &&& self@.keys.len() <= self@.children.len()
        &&& forall|j: int| 0 <= j < self@.keys.len() ==> #[trigger] self@.children[j].accepts(
            state_for(tree.0, tree.1, self@.keys[j], self@.children[j]),
        )
    }

    open spec fn diffed(&self, tree: (Seq<K>, Seq<<E::Tree as View>::V>)) -> (Seq<K>, Seq<<E::Tree as View>::V>) {
        (
            self@.keys,
            reconciled(tree.0, tree.1, self@.keys, self@.children) + repeats(tree.0, tree.1, self@.keys, tree.0.len() as int),
        )
    }

    fn size_hint(&self) -> (hint: Size<Length>) {
        self.size()
    }

    fn tree(&self) -> (tree: StackTree<K, E::Tree>) {
        StackTree { state: self.state(), children: self.children_trees() }
    }

    fn diff(&self, tree: &mut StackTree<K, E::Tree>) {
        Stack::diff(self, &mut tree.state, &mut tree.children);
    }
}

impl<K: Copy + PartialEq, E> Default for Stack<K, E> {
    fn default() -> (stack: Self)
        ensures
            stack@ == shrinking::<K, E>(Seq::empty(), Seq::empty()),
            stack@.keys.len() == 0 && stack@.children.len() == 0,
            stack@.width == Length::Shrink && stack@.height == Length::Shrink,
    {
        Self::new()
    }
}

/// The order in which the `len` children of a stack with the base layer
/// `base` are laid out: the base layer first, then the layers under it, then
/// the layers above it; nothing when there is no base layer.
pub open spec fn layout_sequence(len: int, base: int) -> Seq<usize> {
    if len <= base {
        Seq::<usize>::empty()
    } else {
        seq![base as usize] + Seq::new(base as nat, |i: int| i as usize)
            + Seq::new((len - base - 1) as nat, |i: int| (base + 1 + i) as usize)
    }
}

/// The layout order lays out every child exactly once, the base layer
/// first and the others in the order of the children.
pub proof fn law_layout_order(len: int, base: int)
    requires
        0 <= base,
        len <= usize::MAX,
    ensures
        len <= base ==> layout_sequence(len, base).len() == 0,
        base < len ==> {
            let order = layout_sequence(len, base);
            &&& order.len() == len
            &&& order[0] == base
            &&& forall|p: int| 0 <= p < len ==> order[p] < len
            &&& forall|p: int, q: int| 1 <= p < q < len ==> order[p] < order[q]
            &&& forall|p: int| 1 <= p < len ==> order[p] != base
        },
{
}

/// The layout nodes `nodes`, given in the order in which they were laid out,
/// put in the order of the children.
pub open spec fn arranged_nodes<N>(nodes: Seq<N>, base: int) -> Seq<N> {
    nodes.subrange(1, base + 1) + seq![nodes[0]] + nodes.subrange(base + 1, nodes.len() as int)
}

/// Every child gets back the node that was laid out for it.
pub proof fn law_nodes_follow_children<N>(nodes: Seq<N>, base: int)
    requires
        0 <= base < nodes.len(),
        nodes.len() <= usize::MAX,
    ensures
        forall|p: int| 0 <= p < nodes.len() ==>
            arranged_nodes(nodes, base)[#[trigger] layout_sequence(nodes.len() as int, base)[p] as int] == nodes[p],
{
    assert forall|p: int| 0 <= p < nodes.len() implies
        arranged_nodes(nodes, base)[#[trigger] layout_sequence(nodes.len() as int, base)[p] as int] == nodes[p] by {
        let order = layout_sequence(nodes.len() as int, base);
        if p == 0 {
            assert(order[p] == base as usize);
        } else if p <= base {
            assert(order[p] == (p - 1) as usize);
        } else {
            assert(order[p] == p as usize);
        }
    }
}

impl<K: Copy + PartialEq, E> Stack<K, E> {
    /// The state to keep between views: the keys of the children.
    pub fn state(&self) -> (state: KeyedState<K>)
        ensures
            state.keys@ == self@.keys,
    {
        KeyedState { keys: copy_keys(&self.keys) }
    }

    /// The sizing strategy of the stack.
    pub fn size(&self) -> (size: Size<Length>)
        ensures
            size == (Size { width: self@.width, height: self@.height }),
    {
        Size { width: self.width, height: self.height }
    }

    /// The order in which the children are laid out: the base layer first,
    /// sized against the limits of the stack, then the layers under it and the
    /// layers above it, sized against the bounds of the base layer. With no
    /// base layer among the children, nothing is laid out.
    pub fn layout_order(&self) -> (order: Vec<usize>)
        ensures
            order@ == layout_sequence(self@.children.len() as int, self@.base_layer as int),
    {
        let len = self.children.len();
        let base = self.base_layer;
        let mut order: Vec<usize> = Vec::new();
        if len <= base {
            return order;
        }
        order.push(base);
        for i in 0..base
            invariant
                order@ == seq![base] + Seq::new(i as nat, |k: int| k as usize),
        {
            order.push(i);
            assert(order@ =~= seq![base] + Seq::new((i + 1) as nat, |k: int| k as usize));
        }
        for i in base + 1..len
            invariant
                base < len,
                order@ == seq![base] + Seq::new(base as nat, |k: int| k as usize)
                    + Seq::new((i - base - 1) as nat, |k: int| (base + 1 + k) as usize),
        {
            order.push(i);
            assert(order@ =~= seq![base] + Seq::new(base as nat, |k: int| k as usize)
                + Seq::new((i + 1 - base - 1) as nat, |k: int| (base + 1 + k) as usize));
        }
        order
    }

    /// Arranges the layout nodes of the children, given in the order in
    /// which they were laid out (see `layout_order`), into the order of the
    /// children: the layers under the base layer, the base layer, then the
    /// layers above it.
    pub fn arrange_layout<N>(&self, nodes: Vec<N>) -> (arranged: Vec<N>)
        requires
            self@.base_layer < self@.children.len(),
            nodes@.len() == self@.children.len(),
        ensures
            arranged@ == arranged_nodes(nodes@, self@.base_layer as int),
    {
        let mut arranged = nodes;
        let base = arranged.remove(0);
        arranged.insert(self.base_layer, base);
        assert(arranged@ =~= nodes@.subrange(1, self@.base_layer + 1) + seq![nodes@[0]]
            + nodes@.subrange(self@.base_layer + 1, nodes@.len() as int));
        arranged
    }

    /// Picks the viewport that the layers are drawn in: the viewport clipped
    /// to the bounds of the stack when the stack clips its contents.
    pub fn draw_viewport<V>(&self, clipped: V, viewport: V) -> (chosen: V)
        ensures
            chosen == (if self@.clip { clipped } else { viewport }),
    {
        if self.clip {
            clipped
        } else {
            viewport
        }
    }

    /// What the layer at `index_from_top` (0 for the topmost child) receives
    /// during an update, given whether an earlier layer captured the event,
    /// whether the cursor is over the stack and the cursor handed down so far.
    pub fn update_layer<P: Copy>(
        &self,
        index_from_top: usize,
        is_over: bool,
        captured: bool,
        cursor: Cursor<P>,
    ) -> (update: LayerUpdate)
        requires
            self@.children.len() > 0,
        ensures
            update.event == (if captured { LayerEvent::CursorLeft } else { LayerEvent::Forwarded }),
            update.probe == (!captured && index_from_top < self@.children.len() - 1 && is_over
                && !(cursor is Levitating)),
    {
        if captured {
            return LayerUpdate { event: LayerEvent::CursorLeft, probe: false };
        }
        let end = self.children.len() - 1;
        LayerUpdate {
            event: LayerEvent::Forwarded,
            probe: index_from_top < end && is_over && !cursor.is_levitating(),
        }
    }

    /// The trees of fresh instances of the children, in order.
    pub fn children_trees(&self) -> (trees: Vec<E::Tree>) where E: Widget
        ensures
            views(trees@) == self@.children.map_values(|child: E| child.initial_tree()),
    {
        let mut trees: Vec<E::Tree> = Vec::with_capacity(self.children.len());
        for i in 0..self.children.len()
            invariant
                views(trees@) == self@.children.take(i as int).map_values(|child: E| child.initial_tree()),
        {
            let ghost pre = trees@;
            let fresh = self.children[i].tree();
            trees.push(fresh);
            assert(views(trees@) =~= views(pre).push(fresh@));
            assert(views(trees@) =~= self@.children.take(i + 1).map_values(|child: E| child.initial_tree()));
        }
        assert(self@.children.take(self@.children.len() as int) =~= self@.children);
        trees
    }
}

/// What a layer of a stack receives during an update.
#[derive(Debug, Copy, Clone, PartialEq, Eq, Structural)]
pub enum LayerEvent {
    /// The event being processed.
    Forwarded,
    /// A mouse event telling that the cursor left the layer, because a layer
    /// above captured the event.
    CursorLeft,
}

/// The part a layer plays in an update of a stack.
#[derive(Debug, Copy, Clone, PartialEq, Eq, Structural)]
pub struct LayerUpdate {
    /// The event that the layer receives.
    pub event: LayerEvent,
    /// Whether the stack asks the layer for its mouse interaction after the
    /// update, to let the cursor levitate over it.
    pub probe: bool,
}

/// The cursor that the layers below see after a probed layer answered with
/// `interaction`: any interaction makes the cursor levitate.
pub fn cursor_after_probe<P: Copy, I>(cursor: Cursor<P>, interaction: &Option<I>) -> (next: Cursor<P>)
    ensures
        next == (if interaction is Some { cursor.levitated() } else { cursor }),
        (cursor is Levitating) ==> (next is Levitating),
{
    if interaction.is_some() {
        cursor.levitate()
    } else {
        cursor
    }
}

/// What the layer at `t` (0 for the topmost child) of a stack of `len`
/// layers receives during an update, and whether it is probed, when it is
/// handed `cursor` and `captured` tells whether the event was captured by
/// the time the update reaches it.
pub open spec fn layer_step<P>(len: int, t: int, is_over: bool, captured: bool, cursor: Cursor<P>) -> LayerStep<P> {
    LayerStep {
        event: if captured { LayerEvent::CursorLeft } else { LayerEvent::Forwarded },
        cursor,
        probe: !captured && t < len - 1 && is_over && !(cursor is Levitating),
    }
}

/// The cursor handed to the layer at `t` (0 for the topmost child) in an
/// update that starts with `cursor`: each probed layer that shows an
/// interaction makes it levitate for the layers below.
pub open spec fn cursor_at<P, I>(
    len: int,
    is_over: bool,
    cursor: Cursor<P>,
    captured: Seq<bool>,
    interactions: Seq<Option<I>>,
    t: int,
) -> Cursor<P>
    decreases t,
{
    if t <= 0 {
        cursor
    } else {
        let above = cursor_at(len, is_over, cursor, captured, interactions, t - 1);
        if layer_step(len, t - 1, is_over, captured[t - 1], above).probe && interactions[t - 1] is Some {
            above.levitated()
        } else {
            above
        }
    }
}

/// What a layer of a stack receives during an update.
#[derive(Debug, Copy, Clone, PartialEq, Eq, Structural)]
pub struct LayerStep<P> {
    /// The event that the layer receives.
    pub event: LayerEvent,
    /// The cursor that the layer receives.
    pub cursor: Cursor<P>,
    /// Whether the stack asks the layer for its mouse interaction after the
    /// update, to let the cursor levitate over it.
    pub probe: bool,
}

impl<K: Copy + PartialEq, E> Stack<K, E> {
    /// What every layer receives during an update, from the topmost child
    /// down, when the update starts with `cursor`, `captured[t]` tells
    /// whether the event was captured by the time the update reaches the
    /// layer `t`, and `interactions[t]` is what that layer shows when probed.
    pub fn update_layers<P: Copy, I>(
        &self,
        is_over: bool,
        cursor: Cursor<P>,
        captured: &Vec<bool>,
        interactions: &Vec<Option<I>>,
    ) -> (steps: Vec<LayerStep<P>>)
        requires
            captured.len() == self@.children.len(),
            interactions.len() == self@.children.len(),
        ensures
            steps@.len() == self@.children.len(),
            forall|t: int| 0 <= t < steps@.len() ==> #[trigger] steps@[t] == layer_step(
                self@.children.len() as int,
                t,
                is_over,
                captured@[t],
                cursor_at(self@.children.len() as int, is_over, cursor, captured@, interactions@, t),
            ),
            forall|t: int| 0 <= t < steps@.len() ==> (#[trigger] steps@[t]).event
                == (if captured@[t] { LayerEvent::CursorLeft } else { LayerEvent::Forwarded }),
            forall|t: int| 0 <= t < steps@.len() && (#[trigger] steps@[t]).probe ==>
                is_over && !captured@[t] && t + 1 < steps@.len() && !(steps@[t].cursor is Levitating),
            !is_over ==> forall|t: int| 0 <= t < steps@.len() ==>
                !(#[trigger] steps@[t]).probe && steps@[t].cursor == cursor,
    {
        let len = self.children.len();
        let mut steps: Vec<LayerStep<P>> = Vec::with_capacity(len);
        let mut current = cursor;
        for t in 0..len
            invariant
                len == self@.children.len(),
                captured.len() == len,
                interactions.len() == len,
                steps@.len() == t,
                current == cursor_at(len as int, is_over, cursor, captured@, interactions@, t as int),
                forall|u: int| 0 <= u < t ==> #[trigger] steps@[u] == layer_step(
                    len as int,
                    u,
                    is_over,
                    captured@[u],
                    cursor_at(len as int, is_over, cursor, captured@, interactions@, u),
                ),
        {
            let layer = self.update_layer(t, is_over, captured[t], current);
            steps.push(LayerStep { event: layer.event, cursor: current, probe: layer.probe });
            if layer.probe {
                current = cursor_after_probe(current, &interactions[t]);
            }
        }
        proof {
            if !is_over {
                assert forall|t: int| 0 <= t < steps@.len() implies
                    !(#[trigger] steps@[t]).probe && steps@[t].cursor == cursor by {
                    law_update_away_from_stack(len as int, cursor, captured@, interactions@, t);
                }
            }
        }
        steps
    }
}

/// In an update, a layer gets the event itself unless the event was captured
/// by the time the update reached it, and then it gets a cursor-left event.
pub proof fn law_update_events<P>(len: int, t: int, is_over: bool, captured: bool, cursor: Cursor<P>)
    ensures
        layer_step(len, t, is_over, captured, cursor).event == LayerEvent::Forwarded <==> !captured,
        layer_step(len, t, is_over, captured, cursor).event == LayerEvent::CursorLeft <==> captured,
        layer_step(len, t, is_over, captured, cursor).cursor == cursor,
{
}

/// In an update, a layer is probed only when the cursor is over the stack,
/// the event was not captured, the layer is not the bottom one and the
/// cursor does not levitate yet.
pub proof fn law_probe_needs_the_cursor<P>(len: int, t: int, is_over: bool, captured: bool, cursor: Cursor<P>)
    ensures
        layer_step(len, t, is_over, captured, cursor).probe
            <==> (is_over && !captured && t + 1 < len && !(cursor is Levitating)),
{
}

/// In an update while the cursor is not over the stack, no layer is probed
/// and every layer gets the cursor the update started with.
pub proof fn law_update_away_from_stack<P, I>(
    len: int,
    cursor: Cursor<P>,
    captured: Seq<bool>,
    interactions: Seq<Option<I>>,
    t: int,
)
    requires
        0 <= t,
    ensures
        cursor_at(len, false, cursor, captured, interactions, t) == cursor,
        !layer_step(len, t, false, captured[t], cursor_at(len, false, cursor, captured, interactions, t)).probe,
    decreases t,
{
    if t > 0 {
        law_update_away_from_stack(len, cursor, captured, interactions, t - 1);
    }
}

/// In an update, a cursor that levitates over a layer keeps levitating over
/// every layer below it.
pub proof fn law_levitation_persists<P, I>(
    len: int,
    is_over: bool,
    cursor: Cursor<P>,
    captured: Seq<bool>,
    interactions: Seq<Option<I>>,
    t: int,
    u: int,
)
    requires
        0 <= t <= u,
        cursor_at(len, is_over, cursor, captured, interactions, t) is Levitating,
    ensures
        cursor_at(len, is_over, cursor, captured, interactions, u) is Levitating,
    decreases u - t,
{
    if t < u {
        law_levitation_persists(len, is_over, cursor, captured, interactions, t, u - 1);
    }
}

/// In an update that starts with an available cursor, the cursor levitates
/// over a layer exactly when a layer above it was probed and showed an
/// interaction.
pub proof fn law_levitates_under_interaction<P, I>(
    len: int,
    is_over: bool,
    position: P,
    captured: Seq<bool>,
    interactions: Seq<Option<I>>,
    t: int,
)
    requires
        0 <= t,
    ensures
        (cursor_at(len, is_over, Cursor::Available(position), captured, interactions, t) is Levitating)
            <==> exists|s: int| 0 <= s < t && #[trigger] layer_step(
                len,
                s,
                is_over,
                captured[s],
                cursor_at(len, is_over, Cursor::Available(position), captured, interactions, s),
            ).probe && interactions[s] is Some,
        !(cursor_at(len, is_over, Cursor::Available(position), captured, interactions, t) is Levitating)
            ==> cursor_at(len, is_over, Cursor::Available(position), captured, interactions, t)
                == Cursor::Available(position),
    decreases t,
{
    let start = Cursor::Available(position);
    if t > 0 {
        law_levitates_under_interaction(len, is_over, position, captured, interactions, t - 1);
        let above = cursor_at(len, is_over, start, captured, interactions, t - 1);
        let fired = layer_step(len, t - 1, is_over, captured[t - 1], above).probe && interactions[t - 1] is Some;
        if fired {
            assert(cursor_at(len, is_over, start, captured, interactions, t) is Levitating);
        }
        if above is Levitating {
            let s = choose|s: int| 0 <= s < t - 1 && #[trigger] layer_step(
                len,
                s,
                is_over,
                captured[s],
                cursor_at(len, is_over, start, captured, interactions, s),
            ).probe && interactions[s] is Some;
            assert(0 <= s < t);
        }
    }
}

/// Whether the layer at `k` (0 for the bottom child) lies under the topmost
/// child that shows an interaction while the cursor is over the stack.
pub open spec fn under_topmost<I>(interactions: Seq<Option<I>>, cursor_over: bool, k: int) -> bool {
    cursor_over && match topmost(interactions) {
        Some(top) => k < top,
        None => false,
    }
}

/// Whether an entry above `k` in `interactions` holds an interaction.
pub open spec fn shows_above<I>(interactions: Seq<Option<I>>, k: int) -> bool {
    exists|j: int| k < j < interactions.len() && interactions[j] is Some
}

/// A layer lies under the topmost interactive one exactly when the cursor is
/// over the stack and some layer above it shows an interaction.
pub proof fn law_under_topmost<I>(interactions: Seq<Option<I>>, cursor_over: bool, k: int)
    requires
        0 <= k < interactions.len(),
    ensures
        under_topmost(interactions, cursor_over, k)
            <==> (cursor_over && shows_above(interactions, k)),
{
    lemma_topmost_bounds(interactions);
    if shows_above(interactions, k) {
        let j = choose|j: int| k < j < interactions.len() && interactions[j] is Some;
        match topmost(interactions) {
            Some(t) => {
                if t <= k {
                    assert(interactions[j] is None);
                }
            },
            None => {
                assert(interactions[j] is None);
            },
        }
    }
    match topmost(interactions) {
        Some(t) => {
            if k < t {
                assert(interactions[t] is Some);
            }
        },
        None => {},
    }
}

/// How every layer of a stack is drawn, from the bottom up, when the
/// children, from the bottom up, show `interactions` and the cursor is or is
/// not over the stack: the layers from the topmost one that shows an
/// interaction upwards see the cursor, the ones under it do not, and every
/// layer but the bottom one is drawn in a layer of its own.
pub fn draw_layers<P: Copy, I>(interactions: &Vec<Option<I>>, cursor_over: bool, cursor: Cursor<P>) -> (draws: Vec<LayerDraw<P>>)
    ensures
        draws@.len() == interactions@.len(),
        forall|k: int| 0 <= k < draws@.len() ==> {
            &&& (#[trigger] draws@[k]).own_layer == (k > 0)
            &&& draws@[k].cursor == (if under_topmost(interactions@, cursor_over, k) {
                Cursor::Unavailable
            } else {
                cursor
            })
        },
        forall|k: int| 0 <= k < draws@.len() ==> (#[trigger] draws@[k]).cursor == (
            if cursor_over && shows_above(interactions@, k) {
                Cursor::Unavailable
            } else {
                cursor
            }),
{
    let under = layers_under(interactions, cursor_over);
    proof {
        lemma_topmost_bounds(interactions@);
    }
    let mut draws: Vec<LayerDraw<P>> = Vec::with_capacity(interactions.len());
    for k in 0..interactions.len()
        invariant
            draws@.len() == k,
            under == (if cursor_over {
                match topmost(interactions@) {
                    Some(top) => top as usize,
                    None => 0usize,
                }
            } else {
                0usize
            }),
            topmost(interactions@) matches Some(top) ==> 0 <= top < interactions@.len(),
            forall|j: int| 0 <= j < k ==> {
                &&& (#[trigger] draws@[j]).own_layer == (j > 0)
                &&& draws@[j].cursor == (if under_topmost(interactions@, cursor_over, j) {
                    Cursor::Unavailable
                } else {
                    cursor
                })
            },
    {
        draws.push(draw_layer(k, under, cursor));
    }
    proof {
        assert forall|k: int| 0 <= k < draws@.len() implies (#[trigger] draws@[k]).cursor == (
            if cursor_over && shows_above(interactions@, k) {
                Cursor::Unavailable
            } else {
                cursor
            }) by {
            law_under_topmost(interactions@, cursor_over, k);
        }
    }
    draws
}

/// The index of the topmost entry of `interactions` that holds an
/// interaction, if any.
pub open spec fn topmost<I>(interactions: Seq<Option<I>>) -> Option<int>
    decreases interactions.len(),
{
    if interactions.len() == 0 {
        None
    } else if interactions.last() is Some {
        Some(interactions.len() - 1)
    } else {
        topmost(interactions.drop_last())
    }
}

/// The topmost entry holding an interaction lies within the entries.
pub proof fn lemma_topmost_bounds<I>(interactions: Seq<Option<I>>)
    ensures
        match topmost(interactions) {
            Some(k) => {
                &&& 0 <= k < interactions.len()
                &&& interactions[k] is Some
                &&& forall|j: int| k < j < interactions.len() ==> interactions[j] is None
            },
            None => forall|k: int| 0 <= k < interactions.len() ==> interactions[k] is None,
        },
    decreases interactions.len(),
{
    if interactions.len() > 0 && interactions.last() is None {
        lemma_topmost_bounds(interactions.drop_last());
        assert forall|k: int| 0 <= k < interactions.len() - 1 implies
            interactions[k] == interactions.drop_last()[k] by {}
    }
}

/// The topmost interaction is the one of the highest entry that holds an
/// interaction: it holds one, no entry above it does, and there is none
/// exactly when no entry holds one.
pub proof fn law_topmost_is_highest<I>(interactions: Seq<Option<I>>, k: int)
    ensures
        topmost(interactions) == Some(k) <==> (0 <= k < interactions.len() && interactions[k] is Some
            && forall|j: int| k < j < interactions.len() ==> interactions[j] is None),
        topmost(interactions) is None <==> forall|j: int| 0 <= j < interactions.len() ==> interactions[j] is None,
{
    lemma_topmost_bounds(interactions);
    if 0 <= k < interactions.len() && interactions[k] is Some
        && forall|j: int| k < j < interactions.len() ==> interactions[j] is None {
        match topmost(interactions) {
            Some(t) => {
                if t < k {
                    assert(interactions[k] is Some);
                } else if k < t {
                    assert(interactions[t] is Some);
                }
            },
            None => {
                assert(interactions[k] is Some);
            },
        }
    }
    if topmost(interactions) is Some {
        let t = topmost(interactions)->0;
        assert(interactions[t] is Some);
    }
}

/// The index of the topmost entry of `interactions` that holds an
/// interaction.
fn topmost_index<I>(interactions: &Vec<Option<I>>) -> (found: Option<usize>)
    ensures
        match found {
            Some(k) => topmost(interactions@) == Some(k as int),
            None => topmost(interactions@) is None,
        },
{
    let mut i = interactions.len();
    assert(interactions@.take(i as int) =~= interactions@);
    while i > 0
        invariant
            i <= interactions@.len(),
            topmost(interactions@) == topmost(interactions@.take(i as int)),
        decreases i,
    {
        let j = i - 1;
        assert(interactions@.take(i as int).drop_last() =~= interactions@.take(j as int));
        assert(interactions@.take(i as int).last() == interactions@[j as int]);
        if interactions[j].is_some() {
            return Some(j);
        }
        i = j;
    }
    None
}

/// The mouse interaction of a stack whose children, from the bottom up,
/// report `interactions` (`None` where a child shows no interaction): that of
/// the topmost child that shows one.
pub fn mouse_interaction<I: Copy>(interactions: &Vec<Option<I>>) -> (interaction: Option<I>)
    ensures
        interaction == (match topmost(interactions@) {
            Some(k) => interactions@[k],
            None => None,
        }),
        interaction is None <==> forall|j: int| 0 <= j < interactions@.len() ==> interactions@[j] is None,
        interaction is Some ==> exists|k: int| 0 <= k < interactions@.len() && interactions@[k] == interaction
            && forall|j: int| k < j < interactions@.len() ==> interactions@[j] is None,
{
    proof {
        lemma_topmost_bounds(interactions@);
    }
    match topmost_index(interactions) {
        Some(k) => interactions[k],
        None => None,
    }
}

/// The number of layers, from the bottom, that are drawn as if the cursor
/// were unavailable: when the cursor is over the stack, those under the
/// topmost child that shows a mouse interaction; otherwise none.
pub fn layers_under<I>(interactions: &Vec<Option<I>>, cursor_over: bool) -> (count: usize)
    ensures
        count == (if cursor_over {
            match topmost(interactions@) {
                Some(k) => k as usize,
                None => 0usize,
            }
        } else {
            0usize
        }),
        !cursor_over ==> count == 0,
        cursor_over ==> forall|k: int| 0 <= k < interactions@.len() ==>
            (k < count <==> #[trigger] shows_above(interactions@, k)),
{
    proof {
        lemma_topmost_bounds(interactions@);
        if cursor_over {
            assert forall|k: int| 0 <= k < interactions@.len() implies
                ((k < (match topmost(interactions@) { Some(t) => t, None => 0 }))
                    <==> shows_above(interactions@, k)) by {
                law_under_topmost(interactions@, true, k);
            }
        }
    }
    if cursor_over {
        match topmost_index(interactions) {
            Some(k) => k,
            None => 0,
        }
    } else {
        0
    }
}

/// How a layer of a stack is drawn.
#[derive(Debug, Copy, Clone, PartialEq, Eq, Structural)]
pub struct LayerDraw<P> {
    /// Whether the layer is drawn in a layer of its own, above the ones
    /// before it.
    pub own_layer: bool,
    /// The cursor the layer is drawn with.
    pub cursor: Cursor<P>,
}

/// How the layer at `index` (0 for the bottom child) is drawn, when the
/// first `under` layers do not see the cursor.
pub fn draw_layer<P: Copy>(index: usize, under: usize, cursor: Cursor<P>) -> (draw: LayerDraw<P>)
    ensures
        draw.own_layer == (index > 0),
        draw.cursor == (if index < under { Cursor::Unavailable } else { cursor }),
{
    LayerDraw {
        own_layer: index > 0,
        cursor: if index < under { Cursor::Unavailable } else { cursor },
    }
}

/// The state a keyed [`Stack`] keeps between two views: the keys that its
/// children had, in order, one per state tree.
pub struct KeyedState<K> {
    pub keys: Vec<K>,
}

/// Whether `v` holds `key`.
fn contains_key<K: PartialEq>(v: &Vec<K>, key: &K) -> (found: bool)
    requires
        obeys_concrete_eq::<K>(),
    ensures
        found == v@.contains(*key),
{
    let mut i: usize = 0;
    while i < v.len()
        invariant
            obeys_concrete_eq::<K>(),
            0 <= i <= v.len(),
            forall|j: int| 0 <= j < i ==> v@[j] != *key,
        decreases v.len() - i,
    {
        proof {
            reveal(obeys_concrete_eq);
        }
        if v[i] == *key {
            return true;
        }
        i += 1;
    }
    false
}

/// The first index at which `v` holds `key`, if any.
fn position_of<K: PartialEq>(v: &Vec<K>, key: &K) -> (found: Option<usize>)
    requires
        obeys_concrete_eq::<K>(),
    ensures
        match found {
            Some(i) => i < v.len() && v@[i as int] == *key
                && forall|j: int| 0 <= j < i ==> v@[j] != *key,
            None => !v@.contains(*key),
        },
{
    let mut i: usize = 0;
    while i < v.len()
        invariant
            obeys_concrete_eq::<K>(),
            0 <= i <= v.len(),
            forall|j: int| 0 <= j < i ==> v@[j] != *key,
        decreases v.len() - i,
    {
        proof {
            reveal(obeys_concrete_eq);
        }
        if v[i] == *key {
            return Some(i);
        }
        i += 1;
    }
    None
}

/// A copy of the keys `v`.
fn copy_keys<K: Copy>(v: &Vec<K>) -> (copy: Vec<K>)
    ensures
        copy@ == v@,
{
    let mut copy: Vec<K> = Vec::with_capacity(v.len());
    for i in 0..v.len()
        invariant
            copy@ == v@.take(i as int),
    {
        copy.push(v[i]);
        assert(copy@ == v@.take(i + 1));
    }
    assert(v@.take(v.len() as int) == v@);
    copy
}

/// Exchanges the entries of `v` at `a` and `b`.
fn swap_entries<T>(v: &mut Vec<T>, a: usize, b: usize)
    requires
        a < old(v).len(),
        b < old(v).len(),
    ensures
        final(v)@ == old(v)@.update(a as int, old(v)@[b as int]).update(b as int, old(v)@[a as int]),
{
    if a < b {
        let high = v.remove(b);
        let low = v.remove(a);
        v.insert(a, high);
        v.insert(b, low);
    } else if b < a {
        let high = v.remove(a);
        let low = v.remove(b);
        v.insert(b, high);
        v.insert(a, low);
    }
    assert(v@ =~= old(v)@.update(a as int, old(v)@[b as int]).update(b as int, old(v)@[a as int]));
}

} // verus!
