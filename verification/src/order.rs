//! Sorting by a key.
use vstd::prelude::*;

use crate::names::lemma_views_push;
use crate::names::views;
use crate::names::ModuleName;
use crate::text::is_text_before;
use crate::text::lemma_text_before_irreflexive;
use crate::text::lemma_text_before_total;
use crate::text::lemma_text_before_transitive;
use crate::text::text_before;

verus! {

/// Values that are sorted by a key, whose order is total.
pub trait SortKey: View + Sized {
    /// What the values are sorted by.
    type Key;

    /// The key of a value.
    spec fn key(value: Self::V) -> Self::Key;

    /// Whether one key comes strictly before another.
    spec fn before(a: Self::Key, b: Self::Key) -> bool;

    /// No key comes before itself.
    proof fn irreflexive(a: Self::Key)
        ensures
            !Self::before(a, a),
    ;

    /// The order of the keys is transitive.
    proof fn transitive(a: Self::Key, b: Self::Key, c: Self::Key)
        requires
            Self::before(a, b),
            Self::before(b, c),
        ensures
            Self::before(a, c),
    ;

    /// Of two different keys one comes before the other.
    proof fn total(a: Self::Key, b: Self::Key)
        ensures
            a == b || Self::before(a, b) || Self::before(b, a),
    ;

    /// Whether the key of `self` comes before that of `other`.
    fn is_before(&self, other: &Self) -> (r: bool)
        ensures
            r == Self::before(Self::key(self@), Self::key(other@)),
    ;
}

/// Values that are told apart by their key.
pub trait UniqueKey: SortKey {
    /// Two values with one key are one value.
    proof fn key_tells_apart(a: Self::V, b: Self::V)
        requires
            Self::key(a) == Self::key(b),
        ensures
            a == b,
    ;
}

/// Whether no item comes before one that stands ahead of it.
pub open spec fn is_sorted<T: SortKey>(items: Seq<T::V>) -> bool {
    forall|i: int, j: int|
        #![trigger items[i], items[j]]
        0 <= i < j < items.len() ==> !T::before(T::key(items[j]), T::key(items[i]))
}

/// Whether each item comes strictly before the ones behind it.
pub open spec fn is_strictly_sorted<T: SortKey>(items: Seq<T::V>) -> bool {
    forall|i: int, j: int|
        #![trigger items[i], items[j]]
        0 <= i < j < items.len() ==> T::before(T::key(items[i]), T::key(items[j]))
}

/// The items with one key, in their order.
pub open spec fn with_key<T: SortKey>(items: Seq<T::V>, key: T::Key) -> Seq<T::V> {
    items.filter(|item: T::V| T::key(item) == key)
}

/// Whether `result` is `items` sorted, the items with one key in the order in which they
/// stood.
pub open spec fn is_stable_sort_of<T: SortKey>(result: Seq<T::V>, items: Seq<T::V>) -> bool {
    &&& is_sorted::<T>(result)
    &&& result.len() == items.len()
    &&& forall|key: T::Key| #[trigger] with_key::<T>(result, key) == with_key::<T>(items, key)
}

/// Sorting keeps what is there.
pub proof fn lemma_stable_sort_members<T: SortKey>(
    result: Seq<T::V>,
    items: Seq<T::V>,
    value: T::V,
)
    requires
        is_stable_sort_of::<T>(result, items),
    ensures
        result.contains(value) <==> items.contains(value),
{
    let key = T::key(value);
    let pred = |item: T::V| T::key(item) == key;
    assert(with_key::<T>(result, key) == with_key::<T>(items, key));
    assert(result.filter(pred) == items.filter(pred));
    lemma_filter_member(result, pred, value);
    lemma_filter_member(items, pred, value);
}

/// There is one way to sort that keeps the order of the items with one key.
pub proof fn lemma_stable_sort_is_unique<T: SortKey>(
    a: Seq<T::V>,
    b: Seq<T::V>,
    items: Seq<T::V>,
)
    requires
        is_stable_sort_of::<T>(a, items),
        is_stable_sort_of::<T>(b, items),
    ensures
        a == b,
{
    assert forall|key: T::Key| #[trigger] with_key::<T>(a, key) == with_key::<T>(b, key) by {
        assert(with_key::<T>(a, key) == with_key::<T>(items, key));
    }
    lemma_sorted_alike::<T>(a, b);
}

proof fn lemma_sorted_alike<T: SortKey>(a: Seq<T::V>, b: Seq<T::V>)
    requires
        is_sorted::<T>(a),
        is_sorted::<T>(b),
        a.len() == b.len(),
        forall|key: T::Key| #[trigger] with_key::<T>(a, key) == with_key::<T>(b, key),
    ensures
        a == b,
    decreases a.len(),
{
    if a.len() == 0 {
        assert(a =~= b);
    } else {
        let n = a.len() - 1;
        let left = a.last();
        let right = b.last();
        lemma_with_key_members::<T>(a, T::key(left));
        lemma_with_key_members::<T>(b, T::key(left));
        lemma_with_key_members::<T>(a, T::key(right));
        lemma_with_key_members::<T>(b, T::key(right));
        assert(T::key(a[n]) == T::key(left));
        assert(T::key(b[n]) == T::key(right));
        assert(with_key::<T>(a, T::key(left)) == with_key::<T>(b, T::key(left)));
        assert(with_key::<T>(a, T::key(right)) == with_key::<T>(b, T::key(right)));
        let i = choose|i: int| 0 <= i < b.len() && T::key(#[trigger] b[i]) == T::key(left);
        let j = choose|j: int| 0 <= j < a.len() && T::key(#[trigger] a[j]) == T::key(right);
        assert(!T::before(T::key(right), T::key(left)) || i == n);
        assert(!T::before(T::key(left), T::key(right)) || j == n);
        T::total(T::key(left), T::key(right));
        T::irreflexive(T::key(left));
        assert(T::key(left) == T::key(right));
        let key = T::key(left);
        let a0 = a.drop_last();
        let b0 = b.drop_last();
        assert(a0.push(left) =~= a);
        assert(b0.push(right) =~= b);
        lemma_with_key_push::<T>(a0, left, key);
        lemma_with_key_push::<T>(b0, right, key);
        assert(with_key::<T>(a, key).last() == left);
        assert(with_key::<T>(b, key).last() == right);
        assert(left == right);
        assert forall|k: T::Key| #[trigger] with_key::<T>(a0, k) == with_key::<T>(b0, k) by {
            lemma_with_key_push::<T>(a0, left, k);
            lemma_with_key_push::<T>(b0, right, k);
            assert(with_key::<T>(a, k) == with_key::<T>(b, k));
            if k == key {
                assert(with_key::<T>(a0, k) =~= with_key::<T>(a, k).drop_last());
                assert(with_key::<T>(b0, k) =~= with_key::<T>(b, k).drop_last());
            }
        }
        assert(is_sorted::<T>(a0)) by {
            assert forall|p: int, q: int|
                #![trigger a0[p], a0[q]]
                0 <= p < q < a0.len() implies !T::before(T::key(a0[q]), T::key(a0[p])) by {
                assert(a0[p] == a[p] && a0[q] == a[q]);
            }
        }
        assert(is_sorted::<T>(b0)) by {
            assert forall|p: int, q: int|
                #![trigger b0[p], b0[q]]
                0 <= p < q < b0.len() implies !T::before(T::key(b0[q]), T::key(b0[p])) by {
                assert(b0[p] == b[p] && b0[q] == b[q]);
            }
        }
        lemma_sorted_alike::<T>(a0, b0);
    }
}

proof fn lemma_filter_member<A>(items: Seq<A>, pred: spec_fn(A) -> bool, value: A)
    requires
        pred(value),
    ensures
        items.filter(pred).contains(value) <==> items.contains(value),
{
    if items.contains(value) {
        let i = items.index_of(value);
        items.lemma_filter_contains(pred, i);
    }
    if items.filter(pred).contains(value) {
        items.lemma_filter_contains_rev(pred, value);
    }
}

proof fn lemma_with_key_add<T: SortKey>(a: Seq<T::V>, b: Seq<T::V>, key: T::Key)
    ensures
        with_key::<T>(a + b, key) == with_key::<T>(a, key) + with_key::<T>(b, key),
{
    Seq::filter_distributes_over_add(a, b, |item: T::V| T::key(item) == key);
}

proof fn lemma_with_key_none<T: SortKey>(items: Seq<T::V>, key: T::Key)
    requires
        forall|i: int| 0 <= i < items.len() ==> T::key(#[trigger] items[i]) != key,
    ensures
        with_key::<T>(items, key) == Seq::<T::V>::empty(),
{
    let pred = |item: T::V| T::key(item) == key;
    items.lemma_all_neg_filter_empty(pred);
}

/// The items with one key, after one more item.
pub proof fn lemma_with_key_push<T: SortKey>(items: Seq<T::V>, item: T::V, key: T::Key)
    ensures
        with_key::<T>(items.push(item), key) == (if T::key(item) == key {
            with_key::<T>(items, key).push(item)
        } else {
            with_key::<T>(items, key)
        }),
{
    items.lemma_filter_push(item, |item: T::V| T::key(item) == key);
}

/// Where no item has the key, there is none.
pub proof fn lemma_with_key_members<T: SortKey>(items: Seq<T::V>, key: T::Key)
    ensures
        with_key::<T>(items, key).len() > 0 <==> exists|i: int|
            0 <= i < items.len() && T::key(#[trigger] items[i]) == key,
{
    let pred = |item: T::V| T::key(item) == key;
    if exists|i: int| 0 <= i < items.len() && T::key(#[trigger] items[i]) == key {
        let i = choose|i: int| 0 <= i < items.len() && T::key(#[trigger] items[i]) == key;
        items.lemma_filter_contains(pred, i);
        assert(items.filter(pred).contains(items[i]));
        assert(with_key::<T>(items, key).len() > 0);
    } else {
        lemma_with_key_none::<T>(items, key);
    }
}

/// The items in reverse.
fn reversed<T>(items: Vec<T>) -> (r: Vec<T>)
    ensures
        r@ == items@.reverse(),
{
    let mut items = items;
    let ghost all = items@;
    let mut r: Vec<T> = Vec::new();
    while items.len() > 0
        invariant
            items@.len() <= all.len(),
            items@ == all.take(items@.len() as int),
            r@ == all.skip(items@.len() as int).reverse(),
        decreases items@.len(),
    {
        let ghost n = items@.len() as int;
        if let Some(item) = items.pop() {
            r.push(item);
            assert(r@ =~= all.skip(n - 1).reverse());
        }
    }
    assert(all.skip(0) =~= all);
    r
}

/// Merges two sorted runs, `left` standing ahead of `right`.
fn merge_runs<T: SortKey>(left: Vec<T>, right: Vec<T>) -> (r: Vec<T>)
    requires
        is_sorted::<T>(views(left@)),
        is_sorted::<T>(views(right@)),
    ensures
        is_stable_sort_of::<T>(views(r@), views(left@) + views(right@)),
{
    let ghost whole = views(left@) + views(right@);
    let mut left = left;
    let mut right = right;
    let mut back: Vec<T> = Vec::new();
    proof {
        assert(views(back@.reverse()) =~= Seq::<T::V>::empty());
        assert(views(left@) + views(right@) + views(back@.reverse()) =~= whole);
    }
    while left.len() > 0 || right.len() > 0
        invariant
            is_sorted::<T>(views(left@)),
            is_sorted::<T>(views(right@)),
            is_sorted::<T>(views(back@.reverse())),
            forall|i: int, j: int|
                #![trigger left@[i], back@[j]]
                0 <= i < left@.len() && 0 <= j < back@.len() ==> !T::before(
                    T::key(back@[j]@),
                    T::key(left@[i]@),
                ),
            forall|i: int, j: int|
                #![trigger right@[i], back@[j]]
                0 <= i < right@.len() && 0 <= j < back@.len() ==> !T::before(
                    T::key(back@[j]@),
                    T::key(right@[i]@),
                ),
            left@.len() + right@.len() + back@.len() == whole.len(),
            forall|key: T::Key| #[trigger]
                with_key::<T>(views(left@) + views(right@) + views(back@.reverse()), key)
                    == with_key::<T>(whole, key),
        decreases left@.len() + right@.len(),
    {
        let ghost left0 = left@;
        let ghost right0 = right@;
        let ghost back0 = back@;
        let from_right = if right.len() == 0 {
            false
        } else if left.len() == 0 {
            true
        } else {
            !right[right.len() - 1].is_before(&left[left.len() - 1])
        };
        let taken = if from_right {
            right.pop()
        } else {
            left.pop()
        };
        if let Some(item) = taken {
            back.push(item);
            proof {
                assert(views(back@.reverse()) =~= seq![item@] + views(back0.reverse()));
                assert(left@ =~= left0.take(left@.len() as int));
                assert(right@ =~= right0.take(right@.len() as int));
                assert forall|i: int, j: int|
                    0 <= i < j < views(left@).len() implies !#[trigger] T::before(
                    T::key(views(left@)[j]),
                    T::key(views(left@)[i]),
                ) by {
                    assert(views(left0)[i] == views(left@)[i] && views(left0)[j] == views(left@)[j]);
                }
                assert forall|i: int, j: int|
                    0 <= i < j < views(right@).len() implies !#[trigger] T::before(
                    T::key(views(right@)[j]),
                    T::key(views(right@)[i]),
                ) by {
                    assert(views(right0)[i] == views(right@)[i] && views(right0)[j] == views(
                        right@,
                    )[j]);
                }
                let front = views(back@.reverse());
                assert forall|i: int, j: int|
                    0 <= i < j < front.len() implies !#[trigger] T::before(
                    T::key(front[j]),
                    T::key(front[i]),
                ) by {
                    let was = views(back0.reverse());
                    if i > 0 {
                        assert(front[i] == was[i - 1] && front[j] == was[j - 1]);
                    } else {
                        assert(front[j] == back0[back0.len() - j]@);
                        if from_right {
                            assert(right0[right0.len() - 1] == item);
                        } else {
                            assert(left0[left0.len() - 1] == item);
                        }
                    }
                }
                lemma_taken_is_last::<T>(left0, right0, from_right);
                assert forall|i: int, j: int|
                    #![trigger left@[i], back@[j]]
                    0 <= i < left@.len() && 0 <= j < back@.len() implies !T::before(
                    T::key(back@[j]@),
                    T::key(left@[i]@),
                ) by {
                    assert(left@[i] == left0[i]);
                    if j < back0.len() {
                        assert(back@[j] == back0[j]);
                    }
                }
                assert forall|i: int, j: int|
                    #![trigger right@[i], back@[j]]
                    0 <= i < right@.len() && 0 <= j < back@.len() implies !T::before(
                    T::key(back@[j]@),
                    T::key(right@[i]@),
                ) by {
                    assert(right@[i] == right0[i]);
                    if j < back0.len() {
                        assert(back@[j] == back0[j]);
                    }
                }
                assert forall|key: T::Key| #[trigger]
                    with_key::<T>(views(left@) + views(right@) + views(back@.reverse()), key)
                        == with_key::<T>(whole, key) by {
                    lemma_moved_back::<T>(left0, right0, back0, from_right, key);
                }
            }
        }
    }
    proof {
        assert(views(left@) + views(right@) + views(back@.reverse()) =~= views(back@.reverse()));
    }
    reversed(back)
}

/// The one of the two last items that is taken comes before none of the rest.
proof fn lemma_taken_is_last<T: SortKey>(left: Seq<T>, right: Seq<T>, from_right: bool)
    requires
        is_sorted::<T>(views(left)),
        is_sorted::<T>(views(right)),
        left.len() + right.len() > 0,
        from_right ==> right.len() > 0,
        !from_right ==> left.len() > 0,
        left.len() > 0 && right.len() > 0 ==> from_right == !T::before(
            T::key(right.last()@),
            T::key(left.last()@),
        ),
    ensures
        ({
            let item = if from_right { right.last()@ } else { left.last()@ };
            &&& forall|i: int|
                0 <= i < left.len() ==> !T::before(T::key(item), T::key((#[trigger] left[i])@))
            &&& forall|i: int|
                0 <= i < right.len() ==> !T::before(T::key(item), T::key((#[trigger] right[i])@))
            &&& !from_right ==> forall|i: int|
                0 <= i < right.len() ==> T::key((#[trigger] right[i])@) != T::key(item)
        }),
{
    let item = if from_right { right.last()@ } else { left.last()@ };
    T::irreflexive(T::key(item));
    assert forall|i: int| 0 <= i < left.len() implies !T::before(
        T::key(item),
        T::key((#[trigger] left[i])@),
    ) by {
        let n = left.len() - 1;
        if i < n {
            assert(!T::before(T::key(views(left)[n]), T::key(views(left)[i])));
        }
        if from_right && T::before(T::key(item), T::key(left[i]@)) {
            T::total(T::key(left[i]@), T::key(left[n]@));
            if T::before(T::key(left[i]@), T::key(left[n]@)) {
                T::transitive(T::key(item), T::key(left[i]@), T::key(left[n]@));
            }
        }
    }
    assert forall|i: int| 0 <= i < right.len() implies !T::before(
        T::key(item),
        T::key((#[trigger] right[i])@),
    ) && (!from_right ==> T::key(right[i]@) != T::key(item)) by {
        let n = right.len() - 1;
        if i < n {
            assert(!T::before(T::key(views(right)[n]), T::key(views(right)[i])));
        }
        if !from_right {
            T::total(T::key(right[i]@), T::key(right[n]@));
            if T::before(T::key(right[i]@), T::key(right[n]@)) {
                T::transitive(T::key(right[i]@), T::key(right[n]@), T::key(item));
            }
            if T::before(T::key(item), T::key(right[i]@)) {
                T::transitive(T::key(item), T::key(right[i]@), T::key(item));
            }
        }
    }
}

/// Moving the taken item to the front of what is merged keeps the items of each key.
proof fn lemma_moved_back<T: SortKey>(
    left: Seq<T>,
    right: Seq<T>,
    back: Seq<T>,
    from_right: bool,
    key: T::Key,
)
    requires
        from_right ==> right.len() > 0,
        !from_right ==> left.len() > 0,
        !from_right ==> forall|i: int|
            0 <= i < right.len() ==> T::key((#[trigger] right[i])@) != T::key(left.last()@),
    ensures
        ({
            let item = if from_right { right.last()@ } else { left.last()@ };
            let left1 = if from_right { left } else { left.drop_last() };
            let right1 = if from_right { right.drop_last() } else { right };
            with_key::<T>(
                views(left1) + views(right1) + (seq![item] + views(back.reverse())),
                key,
            ) == with_key::<T>(views(left) + views(right) + views(back.reverse()), key)
        }),
{
    let tail = views(back.reverse());
    if from_right {
        assert(views(left) + views(right.drop_last()) + (seq![right.last()@] + tail) =~= views(left)
            + views(right) + tail);
    } else {
        let item = left.last()@;
        let short = views(left.drop_last());
        assert(views(left) =~= short + seq![item]);
        lemma_with_key_add::<T>(short + views(right), seq![item] + tail, key);
        lemma_with_key_add::<T>(short, views(right), key);
        lemma_with_key_add::<T>(seq![item], tail, key);
        lemma_with_key_add::<T>(views(left) + views(right), tail, key);
        lemma_with_key_add::<T>(views(left), views(right), key);
        lemma_with_key_add::<T>(short, seq![item], key);
        let a = with_key::<T>(short, key);
        let r = with_key::<T>(views(right), key);
        let x = with_key::<T>(seq![item], key);
        let t = with_key::<T>(tail, key);
        if T::key(item) == key {
            lemma_with_key_none::<T>(views(right), key);
            assert(a + r + (x + t) =~= a + x + r + t);
        } else {
            lemma_with_key_none::<T>(seq![item], key);
            assert(a + r + (x + t) =~= a + x + r + t);
        }
    }
}

/// Sorts `items` by key. Items with one key stay in their order.
pub fn sort<T: SortKey>(items: Vec<T>) -> (r: Vec<T>)
    ensures
        is_stable_sort_of::<T>(views(r@), views(items@)),
    decreases items@.len(),
{
    if items.len() < 2 {
        return items;
    }
    let mut left = items;
    let ghost all = left@;
    let middle = left.len() / 2;
    let right = left.split_off(middle);
    let ghost left0 = views(left@);
    let ghost right0 = views(right@);
    proof {
        assert(left0 + right0 =~= views(all));
    }
    let sorted_left = sort(left);
    let sorted_right = sort(right);
    let ghost left1 = views(sorted_left@);
    let ghost right1 = views(sorted_right@);
    let r = merge_runs(sorted_left, sorted_right);
    proof {
        assert forall|key: T::Key| #[trigger]
            with_key::<T>(views(r@), key) == with_key::<T>(views(all), key) by {
            lemma_with_key_add::<T>(left0, right0, key);
            lemma_with_key_add::<T>(left1, right1, key);
            assert(with_key::<T>(left1, key) == with_key::<T>(left0, key));
            assert(with_key::<T>(right1, key) == with_key::<T>(right0, key));
        }
    }
    r
}

/// The members of a finite set, each once, in order.
pub open spec fn in_order<T: UniqueKey>(members: Set<T::V>) -> Seq<T::V> {
    choose|items: Seq<T::V>| #[trigger]
        is_strictly_sorted::<T>(items) && items.to_set() == members
}

/// A strictly sorted sequence is told by its members.
pub proof fn lemma_in_order<T: UniqueKey>(items: Seq<T::V>)
    requires
        is_strictly_sorted::<T>(items),
    ensures
        in_order::<T>(items.to_set()) == items,
{
    let other = in_order::<T>(items.to_set());
    assert(is_strictly_sorted::<T>(other) && other.to_set() == items.to_set());
    lemma_same_members::<T>(other, items);
}

/// What is put in order is in order, and holds the members and nothing else.
pub proof fn lemma_in_order_members<T: UniqueKey>(items: Seq<T::V>)
    ensures
        is_strictly_sorted::<T>(in_order::<T>(items.to_set())),
        forall|value: T::V| #[trigger]
            in_order::<T>(items.to_set()).contains(value) <==> items.contains(value),
{
    let ordered = lemma_can_be_ordered::<T>(items);
    lemma_in_order::<T>(ordered);
    assert(ordered == in_order::<T>(items.to_set()));
    assert forall|value: T::V| #[trigger] ordered.contains(value) <==> items.contains(value) by {
        assert(ordered.to_set().contains(value) <==> items.to_set().contains(value));
    }
}

proof fn lemma_can_be_ordered<T: UniqueKey>(items: Seq<T::V>) -> (r: Seq<T::V>)
    ensures
        is_strictly_sorted::<T>(r),
        r.to_set() == items.to_set(),
    decreases items.len(),
{
    if items.len() == 0 {
        items
    } else {
        let rest = lemma_can_be_ordered::<T>(items.drop_last());
        let item = items.last();
        assert(items =~= items.drop_last().push(item));
        items.drop_last().lemma_push_to_set_commute(item);
        if rest.contains(item) {
            assert(rest.to_set().insert(item) =~= rest.to_set());
            rest
        } else {
            let k = lemma_place::<T>(rest, item, rest.len() as int);
            let r = rest.take(k) + seq![item] + rest.skip(k);
            assert forall|x: T::V| #[trigger] r.contains(x) <==> rest.contains(x) || x == item by {
                if rest.contains(x) {
                    let i = rest.index_of(x);
                    assert(rest[i] == x);
                    if i < k {
                        assert(r[i] == x);
                    } else {
                        assert(r[i + 1] == x);
                    }
                }
                assert(r[k] == item);
                if r.contains(x) && x != item {
                    let i = r.index_of(x);
                    assert(r[i] == x);
                    if i < k {
                        assert(rest[i] == x);
                    } else {
                        assert(rest[i - 1] == x);
                    }
                }
            }
            assert(r.to_set() =~= rest.to_set().insert(item));
            assert forall|i: int, j: int|
                #![trigger r[i], r[j]]
                0 <= i < j < r.len() implies T::before(T::key(r[i]), T::key(r[j])) by {
                let i0 = if i < k { i } else { i - 1 };
                let j0 = if j < k { j } else { j - 1 };
                if i != k && j != k {
                    assert(r[i] == rest[i0] && r[j] == rest[j0]);
                    assert(T::before(T::key(rest[i0]), T::key(rest[j0])));
                } else if i == k {
                    assert(r[j] == rest[j0]);
                } else {
                    assert(r[i] == rest[i0]);
                }
            }
            r
        }
    }
}

proof fn lemma_place<T: UniqueKey>(rest: Seq<T::V>, item: T::V, n: int) -> (k: int)
    requires
        is_strictly_sorted::<T>(rest),
        !rest.contains(item),
        0 <= n <= rest.len(),
        forall|i: int|
            n <= i < rest.len() ==> T::before(T::key(item), T::key(#[trigger] rest[i])),
    ensures
        0 <= k <= rest.len(),
        forall|i: int| 0 <= i < k ==> T::before(T::key(#[trigger] rest[i]), T::key(item)),
        forall|i: int|
            k <= i < rest.len() ==> T::before(T::key(item), T::key(#[trigger] rest[i])),
    decreases n,
{
    if n == 0 {
        0
    } else if T::before(T::key(rest[n - 1]), T::key(item)) {
        assert forall|i: int| 0 <= i < n implies T::before(
            T::key(#[trigger] rest[i]),
            T::key(item),
        ) by {
            if i < n - 1 {
                assert(T::before(T::key(rest[i]), T::key(rest[n - 1])));
                T::transitive(T::key(rest[i]), T::key(rest[n - 1]), T::key(item));
            }
        }
        n
    } else {
        assert(rest.contains(rest[n - 1]));
        T::total(T::key(rest[n - 1]), T::key(item));
        if T::key(rest[n - 1]) == T::key(item) {
            T::key_tells_apart(rest[n - 1], item);
        }
        lemma_place::<T>(rest, item, n - 1)
    }
}

proof fn lemma_same_members<T: UniqueKey>(a: Seq<T::V>, b: Seq<T::V>)
    requires
        is_strictly_sorted::<T>(a),
        is_strictly_sorted::<T>(b),
        a.to_set() == b.to_set(),
    ensures
        a == b,
    decreases a.len(),
{
    if a.len() == 0 {
        if b.len() > 0 {
            assert(b.to_set().contains(b[0]));
            assert(a.to_set().contains(b[0]));
        }
        assert(a =~= b);
    } else {
        assert(a.to_set().contains(a.last()));
        assert(b.to_set().contains(a.last()));
        let i = b.index_of(a.last());
        assert(b[i] == a.last());
        assert(b.to_set().contains(b.last()));
        assert(a.to_set().contains(b.last()));
        let j = a.index_of(b.last());
        assert(a[j] == b.last());
        if i < b.len() - 1 {
            assert(T::before(T::key(b[i]), T::key(b[b.len() - 1])));
            if j < a.len() - 1 {
                assert(T::before(T::key(a[j]), T::key(a[a.len() - 1])));
                T::transitive(T::key(a.last()), T::key(b.last()), T::key(a.last()));
            }
            T::irreflexive(T::key(a.last()));
        }
        let x = a.last();
        assert(b.last() == x);
        lemma_drop_last_members::<T>(a);
        lemma_drop_last_members::<T>(b);
        lemma_same_members::<T>(a.drop_last(), b.drop_last());
        assert(a =~= a.drop_last().push(x));
        assert(b =~= b.drop_last().push(x));
    }
}

proof fn lemma_drop_last_members<T: UniqueKey>(items: Seq<T::V>)
    requires
        is_strictly_sorted::<T>(items),
        items.len() > 0,
    ensures
        is_strictly_sorted::<T>(items.drop_last()),
        items.drop_last().to_set() == items.to_set().remove(items.last()),
{
    let shorter = items.drop_last();
    assert forall|i: int, j: int|
        #![trigger shorter[i], shorter[j]]
        0 <= i < j < shorter.len() implies T::before(T::key(shorter[i]), T::key(shorter[j])) by {
        assert(shorter[i] == items[i] && shorter[j] == items[j]);
    }
    assert forall|x: T::V| shorter.to_set().contains(x) <==> items.to_set().remove(
        items.last(),
    ).contains(x) by {
        if shorter.contains(x) {
            let i = shorter.index_of(x);
            assert(items[i] == x);
            assert(T::before(T::key(items[i]), T::key(items[items.len() - 1])));
            T::irreflexive(T::key(x));
        }
        if items.contains(x) && x != items.last() {
            let i = items.index_of(x);
            assert(items[i] == x);
            assert(shorter[i] == x);
        }
    }
    assert(shorter.to_set() =~= items.to_set().remove(items.last()));
}

/// Sorts `items` and keeps one of each.
pub fn sort_dedup<T: UniqueKey>(items: Vec<T>) -> (r: Vec<T>)
    ensures
        is_strictly_sorted::<T>(views(r@)),
        views(r@).to_set() == views(items@).to_set(),
        views(r@) == in_order::<T>(views(items@).to_set()),
{
    let ghost all = views(items@);
    let in_order = sort(items);
    let ghost sorted = views(in_order@);
    let mut rest = reversed(in_order);
    let mut r: Vec<T> = Vec::new();
    while rest.len() > 0
        invariant
            is_sorted::<T>(sorted),
            rest@.len() <= sorted.len(),
            forall|i: int|
                0 <= i < rest@.len() ==> (#[trigger] rest@[i])@ == sorted[sorted.len() - 1 - i],
            is_strictly_sorted::<T>(views(r@)),
            r@.len() == 0 <==> rest@.len() == sorted.len(),
            r@.len() > 0 ==> r@.last()@ == sorted[sorted.len() - rest@.len() - 1],
            forall|v: T::V|
                #![trigger views(r@).contains(v)]
                views(r@).contains(v) <==> sorted.take(sorted.len() - rest@.len()).contains(v),
        decreases rest@.len(),
    {
        let ghost done = sorted.len() - rest@.len();
        let ghost r0 = r@;
        if let Some(item) = rest.pop() {
            assert(item@ == sorted[done]);
            let fresh = r.len() == 0 || r[r.len() - 1].is_before(&item);
            proof {
                assert(sorted.take(done + 1) =~= sorted.take(done).push(item@));
                if r0.len() > 0 {
                    assert(!T::before(T::key(sorted[done]), T::key(sorted[done - 1])));
                    T::total(T::key(sorted[done]), T::key(sorted[done - 1]));
                    if !fresh {
                        T::key_tells_apart(sorted[done], sorted[done - 1]);
                    }
                }
            }
            if fresh {
                r.push(item);
                proof {
                    lemma_views_push(r0, item);
                    assert forall|i: int, j: int|
                        #![trigger views(r@)[i], views(r@)[j]]
                        0 <= i < j < views(r@).len() implies T::before(
                        T::key(views(r@)[i]),
                        T::key(views(r@)[j]),
                    ) by {
                        let n = r0.len() as int;
                        if j < n {
                            assert(views(r@)[i] == views(r0)[i] && views(r@)[j] == views(r0)[j]);
                        } else if i < n - 1 {
                            assert(views(r@)[i] == views(r0)[i] && views(r@)[n - 1] == views(r0)[n
                                - 1]);
                            T::transitive(
                                T::key(views(r@)[i]),
                                T::key(views(r@)[n - 1]),
                                T::key(views(r@)[n]),
                            );
                        }
                    }
                }
            }
            proof {
                assert forall|v: T::V|
                    #![trigger views(r@).contains(v)]
                    views(r@).contains(v) <==> sorted.take(done + 1).contains(v) by {
                    lemma_push_contains(sorted.take(done), item@, v);
                    if fresh {
                        lemma_push_contains(views(r0), item@, v);
                    }
                    assert(views(r0).contains(v) <==> sorted.take(done).contains(v));
                    if !fresh && v == item@ {
                        assert(views(r0)[r0.len() - 1] == v);
                    }
                }
            }
        }
    }
    proof {
        assert(sorted.take(sorted.len() as int) =~= sorted);
        assert forall|v: T::V| views(r@).to_set().contains(v) <==> all.to_set().contains(v) by {
            assert(views(r@).contains(v) <==> sorted.contains(v));
            lemma_stable_sort_members::<T>(sorted, all, v);
        }
        assert(views(r@).to_set() =~= all.to_set());
        lemma_in_order::<T>(views(r@));
    }
    r
}

proof fn lemma_push_contains<A>(items: Seq<A>, item: A, value: A)
    ensures
        items.push(item).contains(value) <==> items.contains(value) || value == item,
{
    if items.contains(value) {
        assert(items.push(item)[items.index_of(value)] == value);
    }
    assert(items.push(item)[items.len() as int] == item);
    if items.push(item).contains(value) && value != item {
        let i = items.push(item).index_of(value);
        assert(items[i] == value);
    }
}

impl SortKey for ModuleName {
    type Key = Seq<char>;

    open spec fn key(value: Seq<char>) -> Seq<char> {
        value
    }

    open spec fn before(a: Seq<char>, b: Seq<char>) -> bool {
        text_before(a, b)
    }

    proof fn irreflexive(a: Seq<char>) {
        lemma_text_before_irreflexive(a);
    }

    proof fn transitive(a: Seq<char>, b: Seq<char>, c: Seq<char>) {
        lemma_text_before_transitive(a, b, c);
    }

    proof fn total(a: Seq<char>, b: Seq<char>) {
        lemma_text_before_total(a, b);
    }

    fn is_before(&self, other: &Self) -> (r: bool) {
        is_text_before(self.as_str(), other.as_str())
    }
}

impl UniqueKey for ModuleName {
    proof fn key_tells_apart(a: Seq<char>, b: Seq<char>) {
    }
}

} // verus!
