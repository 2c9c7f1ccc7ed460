//! How a keyed container matches the state trees it kept from its previous
//! children with its current children.
use vstd::prelude::*;
use crate::widget::Widget;

verus! {

/// The keys among `keys[..n]` that `wanted` still holds, in order of their
/// first occurrence, each paired with the tree stored beside that occurrence
/// in `trees`.
pub open spec fn survivors<K, T>(keys: Seq<K>, trees: Seq<T>, wanted: Seq<K>, n: int) -> (Seq<K>, Seq<T>)
    decreases n,
{
    if n <= 0 {
        (Seq::empty(), Seq::empty())
    } else {
        let kept = survivors(keys, trees, wanted, n - 1);
        if wanted.contains(keys[n - 1]) && !kept.0.contains(keys[n - 1]) {
            (kept.0.push(keys[n - 1]), kept.1.push(trees[n - 1]))
        } else {
            kept
        }
    }
}

/// The trees among `trees[..n]` stored beside a key that `wanted` still
/// holds but that already occurred earlier in `keys`, in order.
pub open spec fn repeats<K, T>(keys: Seq<K>, trees: Seq<T>, wanted: Seq<K>, n: int) -> Seq<T>
    decreases n,
{
    if n <= 0 {
        Seq::empty()
    } else {
        let spare = repeats(keys, trees, wanted, n - 1);
        let kept = survivors(keys, trees, wanted, n - 1).0;
        if wanted.contains(keys[n - 1]) && kept.contains(keys[n - 1]) {
            spare.push(trees[n - 1])
        } else {
            spare
        }
    }
}

/// Where `keys` repeats no key, no tree is set aside.
pub proof fn law_no_repeats<K, T>(keys: Seq<K>, trees: Seq<T>, wanted: Seq<K>, n: int)
    requires
        0 <= n <= keys.len(),
        keys.no_duplicates(),
    ensures
        repeats(keys, trees, wanted, n) == Seq::<T>::empty(),
    decreases n,
{
    if n > 0 {
        law_no_repeats(keys, trees, wanted, n - 1);
        lemma_survivors_members(keys, trees, wanted, n - 1);
        if survivors(keys, trees, wanted, n - 1).0.contains(keys[n - 1]) {
            let k = choose|k: int| 0 <= k < n - 1 && #[trigger] keys[k] == keys[n - 1];
        }
    }
}

/// The keys among `new[..n]` that `present` lacks, in order, each paired with
/// the tree that its widget starts from.
pub open spec fn arrivals<K, E: Widget>(present: Seq<K>, new: Seq<K>, widgets: Seq<E>, n: int) -> (Seq<K>, Seq<<E::Tree as View>::V>)
    decreases n,
{
    if n <= 0 {
        (Seq::empty(), Seq::empty())
    } else {
        let arrived = arrivals(present, new, widgets, n - 1);
        if present.contains(new[n - 1]) {
            arrived
        } else {
            (arrived.0.push(new[n - 1]), arrived.1.push(widgets[n - 1].initial_tree()))
        }
    }
}

/// Whether `x` stands among the first `n` entries of `s`.
pub open spec fn occurs_before<K>(s: Seq<K>, x: K, n: int) -> bool {
    exists|k: int| 0 <= k < n && #[trigger] s[k] == x
}

/// The surviving keys are exactly those of `keys[..n]` that `wanted` holds,
/// each listed once.
pub proof fn lemma_survivors_members<K, T>(keys: Seq<K>, trees: Seq<T>, wanted: Seq<K>, n: int)
    requires
        0 <= n <= keys.len(),
    ensures
        forall|x: K| #[trigger] survivors(keys, trees, wanted, n).0.contains(x)
            <==> (occurs_before(keys, x, n) && wanted.contains(x)),
        survivors(keys, trees, wanted, n).0.no_duplicates(),
    decreases n,
{
    if n > 0 {
        lemma_survivors_members(keys, trees, wanted, n - 1);
        let prev = survivors(keys, trees, wanted, n - 1).0;
        let cur = survivors(keys, trees, wanted, n).0;
        assert forall|x: K| #[trigger] cur.contains(x)
            <==> (occurs_before(keys, x, n) && wanted.contains(x)) by {
            if occurs_before(keys, x, n) && wanted.contains(x) {
                let k = choose|k: int| 0 <= k < n && #[trigger] keys[k] == x;
                if k < n - 1 {
                    assert(occurs_before(keys, x, n - 1));
                    assert(prev.contains(x));
                    let j = choose|j: int| 0 <= j < prev.len() && prev[j] == x;
                    assert(cur[j] == x);
                } else if prev.contains(x) {
                    let j = choose|j: int| 0 <= j < prev.len() && prev[j] == x;
                    assert(cur[j] == x);
                } else {
                    assert(cur[cur.len() - 1] == x);
                }
            }
            if cur.contains(x) {
                let j = choose|j: int| 0 <= j < cur.len() && cur[j] == x;
                if j < prev.len() {
                    assert(prev[j] == x);
                    assert(prev.contains(x));
                    let k = choose|k: int| 0 <= k < n - 1 && #[trigger] keys[k] == x;
                    assert(occurs_before(keys, x, n));
                } else {
                    assert(keys[n - 1] == x);
                    assert(occurs_before(keys, x, n));
                }
            }
        }
        if wanted.contains(keys[n - 1]) && !prev.contains(keys[n - 1]) {
            assert forall|i: int| 0 <= i < prev.len() implies prev[i] != keys[n - 1] by {
                if prev[i] == keys[n - 1] {
                    assert(prev.contains(prev[i]));
                }
            }
        }
    }
}

/// The arriving keys are exactly those of `new[..n]` that `present` lacks,
/// and they repeat no key when `new` repeats none.
pub proof fn lemma_arrivals_members<K, E: Widget>(present: Seq<K>, new: Seq<K>, widgets: Seq<E>, n: int)
    requires
        0 <= n <= new.len(),
    ensures
        forall|x: K| #[trigger] arrivals(present, new, widgets, n).0.contains(x)
            <==> (occurs_before(new, x, n) && !present.contains(x)),
        new.no_duplicates() ==> arrivals(present, new, widgets, n).0.no_duplicates(),
        arrivals(present, new, widgets, n).0.len() == arrivals(present, new, widgets, n).1.len(),
        arrivals(present, new, widgets, n).0.len() <= n,
    decreases n,
{
    if n > 0 {
        lemma_arrivals_members(present, new, widgets, n - 1);
        let prev = arrivals(present, new, widgets, n - 1).0;
        let cur = arrivals(present, new, widgets, n).0;
        assert forall|x: K| #[trigger] cur.contains(x)
            <==> (occurs_before(new, x, n) && !present.contains(x)) by {
            if occurs_before(new, x, n) && !present.contains(x) {
                let k = choose|k: int| 0 <= k < n && #[trigger] new[k] == x;
                if k < n - 1 {
                    assert(occurs_before(new, x, n - 1));
                    assert(prev.contains(x));
                    let j = choose|j: int| 0 <= j < prev.len() && prev[j] == x;
                    assert(cur[j] == x);
                } else {
                    assert(cur[cur.len() - 1] == x);
                }
            }
            if cur.contains(x) {
                let j = choose|j: int| 0 <= j < cur.len() && cur[j] == x;
                if j < prev.len() {
                    assert(prev[j] == x);
                    assert(prev.contains(x));
                    let k = choose|k: int| 0 <= k < n - 1 && #[trigger] new[k] == x;
                    assert(occurs_before(new, x, n));
                } else {
                    assert(new[n - 1] == x);
                    assert(occurs_before(new, x, n));
                }
            }
        }
        if new.no_duplicates() && !present.contains(new[n - 1]) {
            assert forall|i: int| 0 <= i < prev.len() implies prev[i] != new[n - 1] by {
                if prev[i] == new[n - 1] {
                    assert(prev.contains(prev[i]));
                    let k = choose|k: int| 0 <= k < n - 1 && #[trigger] new[k] == prev[i];
                }
            }
        }
    }
}

/// Before the keys are put in order, the trees stand in the order of the
/// surviving keys followed by the arriving ones; when `new` repeats no key,
/// that order is a rearrangement of `new`.
pub proof fn lemma_laid_out<K, T, E: Widget>(old_keys: Seq<K>, old_trees: Seq<T>, new: Seq<K>, widgets: Seq<E>)
    requires
        new.no_duplicates(),
    ensures
        ({
            let kept = survivors(old_keys, old_trees, new, old_keys.len() as int).0;
            let order = kept + arrivals(kept, new, widgets, new.len() as int).0;
            &&& order.no_duplicates()
            &&& order.len() == new.len()
            &&& forall|x: K| #[trigger] order.contains(x) <==> new.contains(x)
        }),
{
    let kept = survivors(old_keys, old_trees, new, old_keys.len() as int).0;
    let arrived = arrivals(kept, new, widgets, new.len() as int).0;
    let order = kept + arrived;
    lemma_survivors_members(old_keys, old_trees, new, old_keys.len() as int);
    lemma_arrivals_members(kept, new, widgets, new.len() as int);
    assert forall|x: K| #[trigger] order.contains(x) <==> new.contains(x) by {
        if order.contains(x) {
            let j = choose|j: int| 0 <= j < order.len() && order[j] == x;
            if j < kept.len() {
                assert(kept[j] == x);
                assert(kept.contains(x));
            } else {
                assert(arrived[j - kept.len()] == x);
                assert(arrived.contains(x));
                let k = choose|k: int| 0 <= k < new.len() && #[trigger] new[k] == x;
            }
        }
        if new.contains(x) {
            let k = choose|k: int| 0 <= k < new.len() && new[k] == x;
            assert(occurs_before(new, x, new.len() as int));
            if kept.contains(x) {
                let j = choose|j: int| 0 <= j < kept.len() && kept[j] == x;
                assert(order[j] == x);
            } else {
                assert(arrived.contains(x));
                let j = choose|j: int| 0 <= j < arrived.len() && arrived[j] == x;
                assert(order[kept.len() + j] == x);
            }
        }
    }
    assert forall|i: int, j: int| 0 <= i < order.len() && 0 <= j < order.len() && i != j
        implies order[i] != order[j] by {
        if i >= kept.len() && j < kept.len() {
            assert(arrived.contains(order[i]));
            assert(kept.contains(order[j]));
        } else if i < kept.len() && j >= kept.len() {
            assert(arrived.contains(order[j]));
            assert(kept.contains(order[i]));
        } else if i >= kept.len() {
            assert(arrived[i - kept.len()] == order[i]);
            assert(arrived[j - kept.len()] == order[j]);
        }
    }
    assert(order.to_set() =~= new.to_set()) by {
        assert forall|x: K| order.to_set().contains(x) <==> new.to_set().contains(x) by {
            assert(order.contains(x) <==> new.contains(x));
        }
    }
    order.unique_seq_to_set();
    new.unique_seq_to_set();
}

pub proof fn lemma_survivors_len<K, T>(keys: Seq<K>, trees: Seq<T>, wanted: Seq<K>, n: int)
    requires
        0 <= n,
    ensures
        survivors(keys, trees, wanted, n).0.len() == survivors(keys, trees, wanted, n).1.len(),
        survivors(keys, trees, wanted, n).0.len() <= n,
    decreases n,
{
    if n > 0 {
        lemma_survivors_len(keys, trees, wanted, n - 1);
    }
}

/// Whether `j` is the position of the first occurrence of `x` in `s`.
pub open spec fn first_at<K>(s: Seq<K>, x: K, j: int) -> bool {
    &&& 0 <= j < s.len()
    &&& s[j] == x
    &&& forall|l: int| 0 <= l < j ==> s[l] != x
}

/// The position of the first occurrence of `x` in `s`.
pub open spec fn first_index<K>(s: Seq<K>, x: K) -> int {
    choose|j: int| first_at(s, x, j)
}

/// The first occurrence is unique, so `first_index` names it.
pub proof fn lemma_first_index<K>(s: Seq<K>, x: K, j: int)
    requires
        first_at(s, x, j),
    ensures
        first_index(s, x) == j,
{
    let f = first_index(s, x);
    assert(first_at(s, x, f));
    if f < j {
        assert(s[f] == x);
    } else if j < f {
        assert(s[j] == x);
    }
}

/// Where `keys` repeats no key, the occurrence of `keys[j]` is at `j`.
pub proof fn lemma_first_index_distinct<K>(keys: Seq<K>, j: int)
    requires
        keys.no_duplicates(),
        0 <= j < keys.len(),
    ensures
        first_index(keys, keys[j]) == j,
{
    lemma_first_index(keys, keys[j], j);
}

/// Each surviving key keeps the tree stored beside its first occurrence.
pub proof fn lemma_survivors_pairs<K, T>(keys: Seq<K>, trees: Seq<T>, wanted: Seq<K>, n: int)
    requires
        0 <= n <= keys.len(),
        keys.len() == trees.len(),
    ensures
        forall|m: int| #![trigger survivors(keys, trees, wanted, n).0[m]]
            0 <= m < survivors(keys, trees, wanted, n).0.len() ==> {
                let j = first_index(keys, survivors(keys, trees, wanted, n).0[m]);
                &&& first_at(keys, survivors(keys, trees, wanted, n).0[m], j)
                &&& j < n
                &&& trees[j] == survivors(keys, trees, wanted, n).1[m]
            },
    decreases n,
{
    if n > 0 {
        lemma_survivors_pairs(keys, trees, wanted, n - 1);
        lemma_survivors_len(keys, trees, wanted, n - 1);
        lemma_survivors_members(keys, trees, wanted, n - 1);
        let prev = survivors(keys, trees, wanted, n - 1);
        let cur = survivors(keys, trees, wanted, n);
        assert forall|m: int| #![trigger cur.0[m]] 0 <= m < cur.0.len() implies {
            let j = first_index(keys, cur.0[m]);
            &&& first_at(keys, cur.0[m], j)
            &&& j < n
            &&& trees[j] == cur.1[m]
        } by {
            if m < prev.0.len() {
                assert(cur.0[m] == prev.0[m] && cur.1[m] == prev.1[m]);
            } else {
                let x = keys[n - 1];
                assert(wanted.contains(x) && !prev.0.contains(x));
                assert(cur.0[m] == x && cur.1[m] == trees[n - 1]);
                assert forall|l: int| 0 <= l < n - 1 implies keys[l] != x by {
                    if keys[l] == x {
                        assert(occurs_before(keys, x, n - 1));
                    }
                }
                lemma_first_index(keys, x, n - 1);
            }
        }
    }
}

/// Each arriving key comes with the initial tree of the widget at its
/// position in `new`.
pub proof fn lemma_arrivals_pairs<K, E: Widget>(present: Seq<K>, new: Seq<K>, widgets: Seq<E>, n: int)
    requires
        0 <= n <= new.len(),
    ensures
        forall|m: int| #![trigger arrivals(present, new, widgets, n).0[m]]
            0 <= m < arrivals(present, new, widgets, n).0.len() ==>
            exists|k: int| 0 <= k < n && #[trigger] new[k] == arrivals(present, new, widgets, n).0[m]
                && arrivals(present, new, widgets, n).1[m] == widgets[k].initial_tree(),
    decreases n,
{
    if n > 0 {
        lemma_arrivals_pairs(present, new, widgets, n - 1);
        lemma_arrivals_members(present, new, widgets, n - 1);
        let prev = arrivals(present, new, widgets, n - 1);
        let cur = arrivals(present, new, widgets, n);
        assert forall|m: int| #![trigger cur.0[m]] 0 <= m < cur.0.len() implies
            exists|k: int| 0 <= k < n && #[trigger] new[k] == cur.0[m] && cur.1[m] == widgets[k].initial_tree() by {
            if m < prev.0.len() {
                let k = choose|k: int| 0 <= k < n - 1 && #[trigger] new[k] == prev.0[m]
                    && prev.1[m] == widgets[k].initial_tree();
                assert(new[k] == cur.0[m] && cur.1[m] == widgets[k].initial_tree());
            } else {
                assert(new[n - 1] == cur.0[m] && cur.1[m] == widgets[n - 1].initial_tree());
            }
        }
    }
}

/// The tree that the child `widget` under `key` reconciles: the tree kept
/// beside the first occurrence of `key` among `old_keys`, or, for a new key,
/// the tree that `widget` starts from.
pub open spec fn state_for<K, E: Widget>(old_keys: Seq<K>, old_trees: Seq<<E::Tree as View>::V>, key: K, widget: E) -> <E::Tree as View>::V {
    if old_keys.contains(key) {
        old_trees[first_index(old_keys, key)]
    } else {
        widget.initial_tree()
    }
}

/// The trees that a keyed container holds after reconciling the trees
/// `old_trees` of the keys `old_keys` with the children `widgets` under the
/// keys `new`: the state of every key follows it. Each child reconciles the
/// tree of its own key, or a fresh tree when its key is new, and the trees of
/// vanished keys are dropped. A key that occurred more than once keeps the
/// tree of its first occurrence; the trees of its later occurrences are the
/// `repeats`, which follow the trees of the children.
pub open spec fn reconciled<K, E: Widget>(
    old_keys: Seq<K>,
    old_trees: Seq<<E::Tree as View>::V>,
    new: Seq<K>,
    widgets: Seq<E>,
) -> Seq<<E::Tree as View>::V> {
    Seq::new(new.len(), |j: int| widgets[j].diffed(state_for(old_keys, old_trees, new[j], widgets[j])))
}

/// Continuity: the child at position `j` reconciles the tree that stood at
/// position `i` whenever `i` is where its key first stood, and a fresh tree
/// when its key is new.
pub proof fn law_state_follows_key<K, E: Widget>(
    old_keys: Seq<K>,
    old_trees: Seq<<E::Tree as View>::V>,
    new: Seq<K>,
    widgets: Seq<E>,
    i: int,
    j: int,
)
    requires
        0 <= j < new.len(),
    ensures
        first_at(old_keys, new[j], i) ==>
            reconciled(old_keys, old_trees, new, widgets)[j] == widgets[j].diffed(old_trees[i]),
        !old_keys.contains(new[j]) ==>
            reconciled(old_keys, old_trees, new, widgets)[j] == widgets[j].diffed(widgets[j].initial_tree()),
{
    if first_at(old_keys, new[j], i) {
        lemma_first_index(old_keys, new[j], i);
        assert(old_keys.contains(new[j]));
    }
}

/// Adding a child at the top of a stack: the new child reconciles a fresh
/// tree and every other child keeps and reconciles its own.
pub proof fn law_add_at_top<K, E: Widget>(
    old_keys: Seq<K>,
    old_trees: Seq<<E::Tree as View>::V>,
    key: K,
    widgets: Seq<E>,
)
    requires
        old_keys.no_duplicates(),
        !old_keys.contains(key),
        old_keys.len() + 1 == widgets.len(),
    ensures
        reconciled(old_keys, old_trees, seq![key] + old_keys, widgets)
            == seq![widgets[0].diffed(widgets[0].initial_tree())] + Seq::new(
                old_keys.len(),
                |i: int| widgets[i + 1].diffed(old_trees[i]),
            ),
{
    let new = seq![key] + old_keys;
    assert(new[0] == key);
    assert forall|i: int| 0 <= i < old_keys.len() implies
        reconciled(old_keys, old_trees, new, widgets)[i + 1] == widgets[i + 1].diffed(old_trees[i]) by {
        assert(new[i + 1] == old_keys[i]);
        lemma_first_index_distinct(old_keys, i);
        assert(old_keys.contains(old_keys[i]));
    }
    assert(reconciled(old_keys, old_trees, new, widgets) =~= seq![widgets[0].diffed(widgets[0].initial_tree())]
        + Seq::new(old_keys.len(), |i: int| widgets[i + 1].diffed(old_trees[i])));
}

/// Stability: when the keys did not change, every child reconciles the tree
/// that stood at its own position.
pub proof fn law_same_keys_keep_trees<K, E: Widget>(keys: Seq<K>, trees: Seq<<E::Tree as View>::V>, widgets: Seq<E>)
    requires
        keys.no_duplicates(),
    ensures
        reconciled(keys, trees, keys, widgets) == Seq::new(keys.len(), |i: int| widgets[i].diffed(trees[i])),
{
    assert forall|i: int| 0 <= i < keys.len() implies
        reconciled(keys, trees, keys, widgets)[i] == widgets[i].diffed(trees[i]) by {
        lemma_first_index_distinct(keys, i);
        assert(keys.contains(keys[i]));
    }
    assert(reconciled(keys, trees, keys, widgets) =~= Seq::new(keys.len(), |i: int| widgets[i].diffed(trees[i])));
}

/// Reconciling twice with the same children: after the first pass there is
/// one tree per key, and the second pass keeps every key and position, each
/// child reconciling the tree that the first pass left it.
pub proof fn law_second_diff_in_place<K, E: Widget>(
    old_keys: Seq<K>,
    old_trees: Seq<<E::Tree as View>::V>,
    new: Seq<K>,
    widgets: Seq<E>,
)
    requires
        old_keys.no_duplicates(),
        new.no_duplicates(),
    ensures
        ({
            let first = reconciled(old_keys, old_trees, new, widgets)
                + repeats(old_keys, old_trees, new, old_keys.len() as int);
            &&& first.len() == new.len()
            &&& reconciled(new, first, new, widgets) + repeats(new, first, new, new.len() as int)
                == Seq::new(new.len(), |i: int| widgets[i].diffed(first[i]))
        }),
{
    let first = reconciled(old_keys, old_trees, new, widgets) + repeats(old_keys, old_trees, new, old_keys.len() as int);
    law_no_repeats(old_keys, old_trees, new, old_keys.len() as int);
    law_no_repeats(new, first, new, new.len() as int);
    law_same_keys_keep_trees(new, first, widgets);
    assert(first =~= reconciled(old_keys, old_trees, new, widgets));
    assert(reconciled(new, first, new, widgets) + Seq::<<E::Tree as View>::V>::empty()
        =~= reconciled(new, first, new, widgets));
}

} // verus!
