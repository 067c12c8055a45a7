//! Laws of the order in which classes are asked for a method.
use vstd::prelude::*;

use crate::mro::all_linearized;
use crate::mro::is_behind;
use crate::mro::is_free;
use crate::mro::lemma_deeper;
use crate::mro::lemma_linearized_at;
use crate::mro::lemma_merged_lists;
use crate::mro::lemma_next_list;
use crate::mro::lemma_total_len;
use crate::mro::lemma_without_front;
use crate::mro::linearized;
use crate::mro::merged_lists;
use crate::mro::method_order;
use crate::mro::next_list;
use crate::mro::offers;
use crate::mro::total_len;
use crate::mro::without_front;

verus! {

/// What is left of a list once some names are taken.
pub open spec fn untaken(list: Seq<Seq<char>>, taken: Seq<Seq<char>>) -> Seq<Seq<char>> {
    list.filter(|name: Seq<char>| !taken.contains(name))
}

/// Whether `name` stands in the tail of the list.
pub open spec fn tail_holds(list: Seq<Seq<char>>, name: Seq<char>) -> bool {
    exists|m: int| 1 <= m < list.len() && #[trigger] list[m] == name
}

/// Whether `name`, at the head of what is left of the list at `j`, comes next: it stands in the
/// tail of no list, and the head of every earlier list stands in the tail of some list.
pub open spec fn comes_next_from(
    lists: Seq<Seq<Seq<char>>>,
    taken: Seq<Seq<char>>,
    name: Seq<char>,
    j: int,
) -> bool {
    &&& 0 <= j < lists.len()
    &&& untaken(lists[j], taken).len() > 0
    &&& untaken(lists[j], taken)[0] == name
    &&& forall|i: int|
        0 <= i < lists.len() ==> !tail_holds(untaken(#[trigger] lists[i], taken), name)
    &&& forall|i: int|
        0 <= i < j && untaken(#[trigger] lists[i], taken).len() > 0 ==> exists|k: int|
            0 <= k < lists.len() && tail_holds(
                untaken(#[trigger] lists[k], taken),
                untaken(lists[i], taken)[0],
            )
}

/// Whether `name` comes next once `taken` is taken.
pub open spec fn comes_next(
    lists: Seq<Seq<Seq<char>>>,
    taken: Seq<Seq<char>>,
    name: Seq<char>,
) -> bool {
    exists|j: int| comes_next_from(lists, taken, name, j)
}

/// Whether `order` is the C3 merge of the lists: each name comes next when its turn comes, and no
/// name is left.
pub open spec fn is_c3_merge(lists: Seq<Seq<Seq<char>>>, order: Seq<Seq<char>>) -> bool {
    &&& forall|n: int|
        0 <= n < order.len() ==> comes_next(lists, order.take(n), #[trigger] order[n])
    &&& forall|i: int, p: int|
        0 <= i < lists.len() && 0 <= p < lists[i].len() ==> order.contains(
            #[trigger] lists[i][p],
        )
}

/// Whether `lists` is what is left of `given` once `taken` is.
spec fn are_left(
    given: Seq<Seq<Seq<char>>>,
    taken: Seq<Seq<char>>,
    lists: Seq<Seq<Seq<char>>>,
) -> bool {
    &&& lists.len() == given.len()
    &&& forall|i: int| 0 <= i < given.len() ==> #[trigger] lists[i] == untaken(given[i], taken)
}

proof fn lemma_behind(list: Seq<Seq<char>>, name: Seq<char>)
    ensures
        is_behind(list, name) <==> tail_holds(list, name),
{
    if is_behind(list, name) {
        let i = choose|i: int| 0 < i < list.len() && #[trigger] list[i] == name;
        assert(list[i] == name);
    }
}

proof fn lemma_next_is_first(lists: Seq<Seq<Seq<char>>>, i: int, k: int)
    requires
        0 <= i <= k < lists.len(),
        next_list(lists, i) matches Some(j) ==> k < j,
    ensures
        !offers(lists, k),
    decreases k - i,
{
    if i < k {
        lemma_next_list(lists, i);
        lemma_next_is_first(lists, i + 1, k);
    }
}

proof fn lemma_untaken_further(list: Seq<Seq<char>>, taken: Seq<Seq<char>>, name: Seq<char>)
    ensures
        untaken(list, taken.push(name)) == untaken(list, taken).filter(
            |other: Seq<char>| other != name,
        ),
    decreases list.len(),
{
    reveal(Seq::filter);
    if list.len() > 0 {
        lemma_untaken_further(list.drop_last(), taken, name);
        let last = list.last();
        let longer = taken.push(name);
        assert(longer.contains(last) <==> taken.contains(last) || last == name) by {
            if taken.contains(last) {
                assert(longer[taken.index_of(last)] == last);
            }
            assert(longer[taken.len() as int] == name);
            if longer.contains(last) && last != name {
                assert(taken[longer.index_of(last)] == last);
            }
        }
        if !taken.contains(last) {
            let rest = untaken(list.drop_last(), taken);
            assert(rest.push(last).drop_last() =~= rest);
        }
    }
}

proof fn lemma_without_absent(list: Seq<Seq<char>>, name: Seq<char>)
    requires
        !list.contains(name),
    ensures
        list.filter(|other: Seq<char>| other != name) == list,
    decreases list.len(),
{
    reveal(Seq::filter);
    if list.len() > 0 {
        let shorter = list.drop_last();
        assert(list[list.len() - 1] == list.last());
        assert(!shorter.contains(name)) by {
            if shorter.contains(name) {
                assert(list[shorter.index_of(name)] == name);
            }
        }
        lemma_without_absent(shorter, name);
        assert(shorter.push(list.last()) =~= list);
    }
}

proof fn lemma_without_head(list: Seq<Seq<char>>, name: Seq<char>)
    requires
        !tail_holds(list, name),
    ensures
        list.filter(|other: Seq<char>| other != name) == (if list.len() > 0 && list[0] == name {
            list.drop_first()
        } else {
            list
        }),
{
    let other_than = |other: Seq<char>| other != name;
    if list.len() > 0 && list[0] == name {
        let rest = list.skip(1);
        assert(list =~= seq![name] + rest);
        Seq::filter_distributes_over_add(seq![name], rest, other_than);
        assert(!rest.contains(name)) by {
            if rest.contains(name) {
                assert(list[rest.index_of(name) + 1] == name);
            }
        }
        lemma_without_absent(rest, name);
        reveal_with_fuel(Seq::filter, 2);
        assert(seq![name].drop_last() =~= Seq::<Seq<char>>::empty());
        assert(seq![name].filter(other_than) =~= Seq::<Seq<char>>::empty());
        assert(list.filter(other_than) =~= rest);
        assert(rest =~= list.drop_first());
    } else {
        assert(!list.contains(name)) by {
            if list.contains(name) {
                let i = list.index_of(name);
                assert(list[i] == name);
            }
        }
        lemma_without_absent(list, name);
    }
}

/// What is left after the next name is what C3 goes on with.
proof fn lemma_left_further(
    given: Seq<Seq<Seq<char>>>,
    taken: Seq<Seq<char>>,
    lists: Seq<Seq<Seq<char>>>,
    name: Seq<char>,
)
    requires
        are_left(given, taken, lists),
        is_free(lists, name),
    ensures
        are_left(given, taken.push(name), without_front(lists, name)),
{
    assert forall|i: int| 0 <= i < given.len() implies #[trigger] without_front(lists, name)[i]
        == untaken(given[i], taken.push(name)) by {
        assert(lists[i] == untaken(given[i], taken));
        lemma_behind(lists[i], name);
        lemma_untaken_further(given[i], taken, name);
        lemma_without_head(lists[i], name);
    }
}

proof fn lemma_next_from(
    given: Seq<Seq<Seq<char>>>,
    taken: Seq<Seq<char>>,
    lists: Seq<Seq<Seq<char>>>,
    name: Seq<char>,
    j: int,
)
    requires
        are_left(given, taken, lists),
    ensures
        comes_next_from(given, taken, name, j) <==> next_list(lists, 0) == Some(j)
            && lists[j][0] == name,
{
    lemma_next_list(lists, 0);
    if comes_next_from(given, taken, name, j) {
        assert(lists[j] == untaken(given[j], taken));
        assert forall|i: int| 0 <= i < lists.len() implies !is_behind(
            #[trigger] lists[i],
            name,
        ) by {
            assert(lists[i] == untaken(given[i], taken));
            lemma_behind(lists[i], name);
        }
        assert(offers(lists, j));
        if next_list(lists, 0) is None {
            lemma_next_is_first(lists, 0, j);
        } else {
            let k = next_list(lists, 0)->0;
            if j < k {
                lemma_next_is_first(lists, 0, j);
            }
            if k < j {
                assert(lists[k] == untaken(given[k], taken));
                let head = lists[k][0];
                let m = choose|m: int|
                    0 <= m < given.len() && tail_holds(
                        untaken(#[trigger] given[m], taken),
                        untaken(given[k], taken)[0],
                    );
                assert(lists[m] == untaken(given[m], taken));
                lemma_behind(lists[m], head);
                assert(is_behind(lists[m], head));
            }
        }
    }
    if next_list(lists, 0) == Some(j) && lists[j][0] == name {
        assert(lists[j] == untaken(given[j], taken));
        assert forall|i: int| 0 <= i < given.len() implies !tail_holds(
            untaken(#[trigger] given[i], taken),
            name,
        ) by {
            assert(lists[i] == untaken(given[i], taken));
            assert(!is_behind(lists[i], name));
            lemma_behind(lists[i], name);
        }
        assert forall|i: int|
            0 <= i < j && untaken(#[trigger] given[i], taken).len() > 0 implies exists|k: int|
            0 <= k < given.len() && tail_holds(
                untaken(#[trigger] given[k], taken),
                untaken(given[i], taken)[0],
            ) by {
            assert(lists[i] == untaken(given[i], taken));
            lemma_next_is_first(lists, 0, i);
            let head = lists[i][0];
            let k = choose|k: int| 0 <= k < lists.len() && is_behind(#[trigger] lists[k], head);
            assert(lists[k] == untaken(given[k], taken));
            lemma_behind(lists[k], head);
            assert(tail_holds(untaken(given[k], taken), untaken(given[i], taken)[0]));
        }
    }
}

/// Whether the names of `rest` come next one after another, behind `taken`.
spec fn follows(
    given: Seq<Seq<Seq<char>>>,
    taken: Seq<Seq<char>>,
    rest: Seq<Seq<char>>,
) -> bool {
    forall|n: int|
        0 <= n < rest.len() ==> comes_next(given, taken + rest.take(n), #[trigger] rest[n])
}

/// Whether `rest` has every name of the lists.
spec fn covers(lists: Seq<Seq<Seq<char>>>, rest: Seq<Seq<char>>) -> bool {
    forall|i: int, p: int|
        0 <= i < lists.len() && 0 <= p < lists[i].len() ==> rest.contains(#[trigger] lists[i][p])
}

proof fn lemma_follows_first(
    given: Seq<Seq<Seq<char>>>,
    taken: Seq<Seq<char>>,
    rest: Seq<Seq<char>>,
)
    requires
        rest.len() > 0,
    ensures
        follows(given, taken, rest) <==> comes_next(given, taken, rest[0]) && follows(
            given,
            taken.push(rest[0]),
            rest.drop_first(),
        ),
{
    let tail = rest.drop_first();
    let more = taken.push(rest[0]);
    assert(taken + rest.take(0) =~= taken);
    if follows(given, taken, rest) {
        assert(comes_next(given, taken + rest.take(0), rest[0]));
        assert forall|n: int| 0 <= n < tail.len() implies comes_next(
            given,
            more + tail.take(n),
            #[trigger] tail[n],
        ) by {
            assert(comes_next(given, taken + rest.take(n + 1), rest[n + 1]));
            assert(taken + rest.take(n + 1) =~= more + tail.take(n));
        }
    }
    if comes_next(given, taken, rest[0]) && follows(given, more, tail) {
        assert forall|n: int| 0 <= n < rest.len() implies comes_next(
            given,
            taken + rest.take(n),
            #[trigger] rest[n],
        ) by {
            if n > 0 {
                assert(comes_next(given, more + tail.take(n - 1), tail[n - 1]));
                assert(taken + rest.take(n) =~= more + tail.take(n - 1));
            }
        }
    }
}

proof fn lemma_covers_first(lists: Seq<Seq<Seq<char>>>, rest: Seq<Seq<char>>)
    requires
        rest.len() > 0,
        is_free(lists, rest[0]),
    ensures
        covers(lists, rest) <==> covers(without_front(lists, rest[0]), rest.drop_first()),
{
    let name = rest[0];
    let tail = rest.drop_first();
    let left = without_front(lists, name);
    if covers(lists, rest) {
        assert forall|i: int, p: int|
            0 <= i < left.len() && 0 <= p < left[i].len() implies tail.contains(
            #[trigger] left[i][p],
        ) by {
            let q = if lists[i].len() > 0 && lists[i][0] == name { p + 1 } else { p };
            assert(lists[i][q] == left[i][p]);
            let m = rest.index_of(lists[i][q]);
            assert(rest[m] == left[i][p]);
            if m == 0 {
                assert(!is_behind(lists[i], name));
                if q > 0 {
                    assert(is_behind(lists[i], name));
                }
            }
            assert(tail[m - 1] == left[i][p]);
        }
    }
    if covers(left, tail) {
        assert forall|i: int, p: int|
            0 <= i < lists.len() && 0 <= p < lists[i].len() implies rest.contains(
            #[trigger] lists[i][p],
        ) by {
            if lists[i][p] == name {
                assert(rest[0] == name);
            } else {
                let q = if lists[i][0] == name { p - 1 } else { p };
                assert(left[i][q] == lists[i][p]);
                assert(tail.contains(left[i][q]));
                let m = tail.index_of(lists[i][p]);
                assert(rest[m + 1] == lists[i][p]);
            }
        }
    }
}

proof fn lemma_merge_from(
    given: Seq<Seq<Seq<char>>>,
    taken: Seq<Seq<char>>,
    lists: Seq<Seq<Seq<char>>>,
    rest: Seq<Seq<char>>,
)
    requires
        are_left(given, taken, lists),
    ensures
        merged_lists(lists) == Some(rest) <==> follows(given, taken, rest) && covers(lists, rest),
    decreases total_len(lists),
{
    lemma_total_len(lists);
    lemma_next_list(lists, 0);
    if rest.len() > 0 {
        lemma_follows_first(given, taken, rest);
        if comes_next(given, taken, rest[0]) {
            let j = choose|j: int| comes_next_from(given, taken, rest[0], j);
            lemma_next_from(given, taken, lists, rest[0], j);
        }
    } else {
        assert(rest =~= Seq::<Seq<char>>::empty());
    }
    if total_len(lists) == 0 {
        assert(covers(lists, rest));
    } else {
        let i = choose|i: int| 0 <= i < lists.len() && (#[trigger] lists[i]).len() > 0;
        if covers(lists, rest) {
            assert(rest.contains(lists[i][0]));
            assert(rest.len() > 0);
        }
        if next_list(lists, 0) is Some {
            let j = next_list(lists, 0)->0;
            let name = lists[j][0];
            let left = without_front(lists, name);
            lemma_without_front(lists, name, j);
            lemma_left_further(given, taken, lists, name);
            lemma_next_from(given, taken, lists, name, j);
            assert(comes_next(given, taken, name));
            if rest.len() > 0 && rest[0] == name {
                let tail = rest.drop_first();
                lemma_merge_from(given, taken.push(name), left, tail);
                lemma_covers_first(lists, rest);
                assert(seq![name] + tail =~= rest);
            }
            if merged_lists(lists) == Some(rest) {
                let after = merged_lists(left)->0;
                assert(rest[0] == name);
                assert(rest.drop_first() =~= after);
            }
        }
    }
}

/// Merging lists gives an order exactly if it is their C3 merge: at every step the next name is
/// the head of the first list whose head stands in the tail of no list.
pub proof fn lemma_merge_is_c3(lists: Seq<Seq<Seq<char>>>, order: Seq<Seq<char>>)
    ensures
        merged_lists(lists) == Some(order) <==> is_c3_merge(lists, order),
{
    let none = Seq::<Seq<char>>::empty();
    assert forall|i: int| 0 <= i < lists.len() implies #[trigger] lists[i] == untaken(
        lists[i],
        none,
    ) by {
        lemma_all_untaken(lists[i]);
    }
    lemma_merge_from(lists, none, lists, order);
    assert(follows(lists, none, order) <==> forall|n: int|
        0 <= n < order.len() ==> comes_next(lists, order.take(n), #[trigger] order[n])) by {
        if follows(lists, none, order) {
            assert forall|n: int| 0 <= n < order.len() implies comes_next(
                lists,
                order.take(n),
                #[trigger] order[n],
            ) by {
                assert(comes_next(lists, none + order.take(n), order[n]));
                assert(none + order.take(n) =~= order.take(n));
            }
        }
        if forall|n: int|
            0 <= n < order.len() ==> comes_next(lists, order.take(n), #[trigger] order[n]) {
            assert forall|n: int| 0 <= n < order.len() implies comes_next(
                lists,
                none + order.take(n),
                #[trigger] order[n],
            ) by {
                assert(comes_next(lists, order.take(n), order[n]));
                assert(none + order.take(n) =~= order.take(n));
            }
        }
    }
}

proof fn lemma_all_untaken(list: Seq<Seq<char>>)
    ensures
        untaken(list, Seq::empty()) == list,
    decreases list.len(),
{
    reveal(Seq::filter);
    if list.len() > 0 {
        lemma_all_untaken(list.drop_last());
        assert(list.drop_last().push(list.last()) =~= list);
    }
}

/// The orders of the bases of a class, and behind them the bases themselves.
pub open spec fn lists_of(
    of_class: Seq<Seq<char>>,
    orders: spec_fn(Seq<char>) -> Seq<Seq<char>>,
) -> Seq<Seq<Seq<char>>> {
    Seq::new(
        of_class.len() + 1,
        |p: int|
            if p < of_class.len() {
                orders(of_class[p])
            } else {
                of_class
            },
    )
}

/// A class is asked first. Behind it stands nothing, or the C3 merge of the orders of its bases
/// and of the list of its bases.
pub proof fn lemma_method_order_is_c3(bases: Map<Seq<char>, Seq<Seq<char>>>, class: Seq<char>)
    ensures
        method_order(bases, class).len() > 0,
        method_order(bases, class)[0] == class,
        !bases.contains_key(class) ==> method_order(bases, class).len() == 1,
        method_order(bases, class).len() == 1 || is_c3_merge(
            lists_of(bases[class], |base: Seq<char>| method_order(bases, base)),
            method_order(bases, class).skip(1),
        ),
{
    let order = method_order(bases, class);
    if bases.contains_key(class) && linearized(bases, class, bases.dom().len()) is Some {
        let depth = (bases.dom().len() - 1) as nat;
        let of_class = bases[class];
        let lists = all_linearized(bases, of_class, depth)->0;
        let all = lists.push(of_class);
        let orders = |base: Seq<char>| method_order(bases, base);
        assert(lists.len() == of_class.len()) by {
            if of_class.len() > 0 {
                lemma_linearized_at(bases, of_class, depth, 0);
            }
        }
        assert forall|p: int| 0 <= p < of_class.len() implies #[trigger] lists[p] == method_order(
            bases,
            of_class[p],
        ) by {
            lemma_linearized_at(bases, of_class, depth, p);
            lemma_deeper(bases, of_class[p], depth);
        }
        assert(all =~= lists_of(of_class, orders));
        lemma_merge_is_c3(all, merged_lists(all)->0);
        assert(order.skip(1) =~= merged_lists(all)->0);
    }
}

/// Where the classes of a family descend from one another without a cycle and `orders` is their
/// C3 order, it is the order in which they are asked, whatever other classes there are. A family
/// holds the bases of its classes; `rank` is greater for a class than for its bases.
pub proof fn lemma_c3_order_is_taken(
    bases: Map<Seq<char>, Seq<Seq<char>>>,
    family: Set<Seq<char>>,
    rank: spec_fn(Seq<char>) -> nat,
    orders: spec_fn(Seq<char>) -> Seq<Seq<char>>,
    class: Seq<char>,
)
    requires
        family.contains(class),
        forall|c: Seq<char>, p: int|
            family.contains(c) && bases.contains_key(c) && 0 <= p < bases[c].len()
                ==> family.contains(#[trigger] bases[c][p]) && rank(bases[c][p]) < rank(c),
        forall|c: Seq<char>| #[trigger] family.contains(c) ==> rank(c) <= bases.dom().len(),
        forall|c: Seq<char>| #[trigger]
            family.contains(c) && !bases.contains_key(c) ==> orders(c) == seq![c],
        forall|c: Seq<char>| #[trigger]
            family.contains(c) && bases.contains_key(c) ==> rank(c) >= 1 && orders(c).len() > 0
                && orders(c)[0] == c && is_c3_merge(
                lists_of(bases[c], orders),
                orders(c).skip(1),
            ),
    ensures
        method_order(bases, class) == orders(class),
{
    assert(are_c3_orders(bases, family, rank, orders)) by {
        reveal(are_c3_orders);
    }
    lemma_linearized_as(bases, family, rank, orders, class, bases.dom().len());
}

#[verifier::opaque]
spec fn are_c3_orders(
    bases: Map<Seq<char>, Seq<Seq<char>>>,
    family: Set<Seq<char>>,
    rank: spec_fn(Seq<char>) -> nat,
    orders: spec_fn(Seq<char>) -> Seq<Seq<char>>,
) -> bool {
    &&& forall|c: Seq<char>, p: int|
        family.contains(c) && bases.contains_key(c) && 0 <= p < bases[c].len() ==> family.contains(
            #[trigger] bases[c][p],
        ) && rank(bases[c][p]) < rank(c)
    &&& forall|c: Seq<char>| #[trigger]
        family.contains(c) && !bases.contains_key(c) ==> orders(c) == seq![c]
    &&& forall|c: Seq<char>| #[trigger]
        family.contains(c) && bases.contains_key(c) ==> rank(c) >= 1 && orders(c).len() > 0
            && orders(c)[0] == c && is_c3_merge(lists_of(bases[c], orders), orders(c).skip(1))
}

proof fn lemma_c3_orders_at(
    bases: Map<Seq<char>, Seq<Seq<char>>>,
    family: Set<Seq<char>>,
    rank: spec_fn(Seq<char>) -> nat,
    orders: spec_fn(Seq<char>) -> Seq<Seq<char>>,
    class: Seq<char>,
)
    requires
        are_c3_orders(bases, family, rank, orders),
        family.contains(class),
    ensures
        !bases.contains_key(class) ==> orders(class) == seq![class],
        bases.contains_key(class) ==> {
            &&& 1 <= rank(class)
            &&& orders(class).len() > 0
            &&& orders(class)[0] == class
            &&& merged_lists(lists_of(bases[class], orders)) == Some(orders(class).skip(1))
            &&& forall|p: int|
                0 <= p < bases[class].len() ==> family.contains(#[trigger] bases[class][p])
                    && rank(bases[class][p]) < rank(class)
        },
{
    reveal(are_c3_orders);
    if bases.contains_key(class) {
        lemma_merge_is_c3(lists_of(bases[class], orders), orders(class).skip(1));
    }
}

proof fn lemma_linearized_as(
    bases: Map<Seq<char>, Seq<Seq<char>>>,
    family: Set<Seq<char>>,
    rank: spec_fn(Seq<char>) -> nat,
    orders: spec_fn(Seq<char>) -> Seq<Seq<char>>,
    class: Seq<char>,
    depth: nat,
)
    requires
        are_c3_orders(bases, family, rank, orders),
        family.contains(class),
        rank(class) <= depth,
    ensures
        linearized(bases, class, depth) == Some(orders(class)),
    decreases depth, 0nat,
{
    lemma_c3_orders_at(bases, family, rank, orders, class);
    if bases.contains_key(class) {
        let of_class = bases[class];
        assert forall|p: int| 0 <= p < of_class.len() implies family.contains(
            #[trigger] of_class[p],
        ) && rank(of_class[p]) <= depth - 1 by {
            assert(rank(bases[class][p]) < rank(class));
        }
        lemma_all_linearized_as(bases, family, rank, orders, of_class, (depth - 1) as nat);
        let lists = Seq::new(of_class.len(), |p: int| orders(of_class[p]));
        assert(lists.push(of_class) =~= lists_of(of_class, orders));
        assert(seq![class] + orders(class).skip(1) =~= orders(class));
    }
}

proof fn lemma_all_linearized_as(
    bases: Map<Seq<char>, Seq<Seq<char>>>,
    family: Set<Seq<char>>,
    rank: spec_fn(Seq<char>) -> nat,
    orders: spec_fn(Seq<char>) -> Seq<Seq<char>>,
    classes: Seq<Seq<char>>,
    depth: nat,
)
    requires
        are_c3_orders(bases, family, rank, orders),
        forall|p: int|
            0 <= p < classes.len() ==> family.contains(#[trigger] classes[p]) && rank(classes[p])
                <= depth,
    ensures
        all_linearized(bases, classes, depth) == Some(
            Seq::new(classes.len(), |p: int| orders(classes[p])),
        ),
    decreases depth, classes.len(),
{
    let all = Seq::new(classes.len(), |p: int| orders(classes[p]));
    if classes.len() == 0 {
        assert(all =~= Seq::<Seq<Seq<char>>>::empty());
    } else {
        let shorter = classes.drop_last();
        assert(classes[classes.len() - 1] == classes.last());
        assert forall|p: int| 0 <= p < shorter.len() implies family.contains(
            #[trigger] shorter[p],
        ) && rank(shorter[p]) <= depth by {
            assert(shorter[p] == classes[p]);
        }
        lemma_all_linearized_as(bases, family, rank, orders, shorter, depth);
        lemma_linearized_as(bases, family, rank, orders, classes.last(), depth);
        assert(all =~= Seq::new(shorter.len(), |p: int| orders(shorter[p])).push(
            orders(classes.last()),
        ));
    }
}

/// Names of the first list that no other list has, but perhaps at its front, come first in a C3
/// merge, all of them before any other. So the ancestors of the first base that are no others'
/// come before the second base.
pub proof fn lemma_own_ancestors_come_first(
    lists: Seq<Seq<Seq<char>>>,
    order: Seq<Seq<char>>,
)
    requires
        merged_lists(lists) == Some(order),
        lists.len() > 0,
        lists[0].no_duplicates(),
        forall|i: int, p: int|
            0 < i < lists.len() && 0 <= p < lists[i].len() && lists[0].contains(
                #[trigger] lists[i][p],
            ) ==> p == 0 && lists[i][p] == lists[0][0],
    ensures
        lists[0].is_prefix_of(order),
{
    lemma_merge_is_c3(lists, order);
    lemma_first_list_is_taken(lists, order, lists[0].len() as int);
    assert(lists[0].take(lists[0].len() as int) =~= lists[0]);
}

proof fn lemma_first_list_is_taken(
    lists: Seq<Seq<Seq<char>>>,
    order: Seq<Seq<char>>,
    n: int,
)
    requires
        is_c3_merge(lists, order),
        lists.len() > 0,
        lists[0].no_duplicates(),
        forall|i: int, p: int|
            0 < i < lists.len() && 0 <= p < lists[i].len() && lists[0].contains(
                #[trigger] lists[i][p],
            ) ==> p == 0 && lists[i][p] == lists[0][0],
        0 <= n <= lists[0].len(),
    ensures
        n <= order.len(),
        order.take(n) == lists[0].take(n),
    decreases n,
{
    let first = lists[0];
    if n == 0 {
        assert(order.take(0) =~= first.take(0));
    } else {
        let m = n - 1;
        lemma_first_list_is_taken(lists, order, m);
        let taken = order.take(m);
        let name = first[m];
        if order.len() == m {
            assert(order.contains(lists[0][m]));
            let q = order.index_of(name);
            assert(order[q] == taken[q] && taken[q] == first[q]);
        }
        assert(order.len() > m);
        assert(comes_next(lists, order.take(m), order[m]));
        let j = choose|j: int| comes_next_from(lists, taken, order[m], j);
        lemma_untaken_front(first, m);
        assert(untaken(first, taken) == first.skip(m));
        if j > 0 {
            assert(untaken(lists[0], taken).len() > 0);
            let k = choose|k: int|
                0 <= k < lists.len() && tail_holds(
                    untaken(#[trigger] lists[k], taken),
                    untaken(lists[0], taken)[0],
                );
            lemma_no_tail_holds(lists, taken, m, k);
        }
        assert(order[m] == name);
        assert(order.take(n) =~= first.take(n)) by {
            assert forall|i: int| 0 <= i < n implies order[i] == first[i] by {
                if i < m {
                    assert(order.take(m)[i] == first.take(m)[i]);
                }
            }
        }
    }
}

proof fn lemma_untaken_front(list: Seq<Seq<char>>, m: int)
    requires
        list.no_duplicates(),
        0 <= m <= list.len(),
    ensures
        untaken(list, list.take(m)) == list.skip(m),
{
    let taken = list.take(m);
    let left = |name: Seq<char>| !taken.contains(name);
    let front = list.take(m);
    let back = list.skip(m);
    assert(list =~= front + back);
    Seq::filter_distributes_over_add(front, back, left);
    assert forall|i: int| 0 <= i < front.len() implies !left(#[trigger] front[i]) by {
        assert(taken.contains(front[i]));
    }
    assert forall|i: int| 0 <= i < back.len() implies left(#[trigger] back[i]) by {
        if taken.contains(back[i]) {
            let q = taken.index_of(back[i]);
            assert(list[q] == list[m + i]);
        }
    }
    lemma_filter_none(front, left);
    lemma_filter_all(back, left);
    assert(front.filter(left) + back.filter(left) =~= back);
}

proof fn lemma_filter_none(list: Seq<Seq<char>>, pred: spec_fn(Seq<char>) -> bool)
    requires
        forall|i: int| 0 <= i < list.len() ==> !pred(#[trigger] list[i]),
    ensures
        list.filter(pred).len() == 0,
    decreases list.len(),
{
    reveal(Seq::filter);
    if list.len() > 0 {
        let shorter = list.drop_last();
        assert(list[list.len() - 1] == list.last());
        assert forall|i: int| 0 <= i < shorter.len() implies !pred(#[trigger] shorter[i]) by {
            assert(shorter[i] == list[i]);
        }
        lemma_filter_none(shorter, pred);
    }
}

proof fn lemma_filter_all(list: Seq<Seq<char>>, pred: spec_fn(Seq<char>) -> bool)
    requires
        forall|i: int| 0 <= i < list.len() ==> pred(#[trigger] list[i]),
    ensures
        list.filter(pred) == list,
    decreases list.len(),
{
    reveal(Seq::filter);
    if list.len() > 0 {
        let shorter = list.drop_last();
        assert(list[list.len() - 1] == list.last());
        assert forall|i: int| 0 <= i < shorter.len() implies pred(#[trigger] shorter[i]) by {
            assert(shorter[i] == list[i]);
        }
        lemma_filter_all(shorter, pred);
        assert(shorter.push(list.last()) =~= list);
    }
}

proof fn lemma_no_tail_holds(
    lists: Seq<Seq<Seq<char>>>,
    taken: Seq<Seq<char>>,
    m: int,
    k: int,
)
    requires
        lists.len() > 0,
        lists[0].no_duplicates(),
        forall|i: int, p: int|
            0 < i < lists.len() && 0 <= p < lists[i].len() && lists[0].contains(
                #[trigger] lists[i][p],
            ) ==> p == 0 && lists[i][p] == lists[0][0],
        0 <= m < lists[0].len(),
        taken == lists[0].take(m),
        0 <= k < lists.len(),
    ensures
        !tail_holds(untaken(lists[k], taken), lists[0][m]),
{
    let name = lists[0][m];
    let left = |name: Seq<char>| !taken.contains(name);
    if k == 0 {
        lemma_untaken_front(lists[0], m);
        if tail_holds(lists[0].skip(m), name) {
            let q = choose|q: int| 1 <= q < lists[0].skip(m).len() && #[trigger] lists[0].skip(m)[q] == name;
            assert(lists[0][m + q] == lists[0][m]);
        }
    } else {
        let list = lists[k];
        let kept = list.filter(left);
        if tail_holds(kept, name) {
            let q = choose|q: int| 1 <= q < kept.len() && #[trigger] kept[q] == name;
            list.lemma_filter_contains_rev(left, name);
            let at = list.index_of(name);
            assert(lists[k][at] == name);
            assert(lists[0].contains(lists[k][at]));
            assert(at == 0 && name == lists[0][0]);
            assert(list.len() > 0);
            let back = list.skip(1);
            assert(list =~= seq![name] + back);
            Seq::filter_distributes_over_add(seq![name], back, left);
            lemma_filter_of_one(name, left);
            assert(kept.len() <= 1 + back.filter(left).len());
            assert(left(name)) by {
                list.lemma_filter_pred(left, q);
            }
            assert(kept == seq![name] + back.filter(left));
            assert(back.filter(left)[q - 1] == name);
            back.lemma_filter_contains_rev(left, name);
            let r = back.index_of(name);
            assert(back[r] == name);
            assert(lists[k][r + 1] == name);
            assert(lists[0].contains(lists[k][r + 1]));
        }
    }
}

proof fn lemma_filter_of_one(name: Seq<char>, pred: spec_fn(Seq<char>) -> bool)
    ensures
        pred(name) ==> seq![name].filter(pred) == seq![name],
        !pred(name) ==> seq![name].filter(pred).len() == 0,
{
    if pred(name) {
        lemma_filter_all(seq![name], pred);
    } else {
        lemma_filter_none(seq![name], pred);
    }
}

/// A class stands alone if a base of it that has bases does.
pub proof fn lemma_unordered_base(
    bases: Map<Seq<char>, Seq<Seq<char>>>,
    class: Seq<char>,
    p: int,
)
    requires
        bases.contains_key(class),
        0 <= p < bases[class].len(),
        bases.contains_key(bases[class][p]),
        bases[bases[class][p]].len() > 0,
        method_order(bases, bases[class][p]).len() == 1,
    ensures
        method_order(bases, class) == seq![class],
{
    let base = bases[class][p];
    if linearized(bases, class, bases.dom().len()) is Some {
        let depth = (bases.dom().len() - 1) as nat;
        lemma_linearized_at(bases, bases[class], depth, p);
        lemma_deeper(bases, base, depth);
        let lists = all_linearized(bases, bases[base], (depth - 1) as nat)->0.push(bases[base]);
        lemma_merged_lists(lists, lists.len() - 1);
        assert(lists[lists.len() - 1] == bases[base]);
        assert(lists[lists.len() - 1][0] == bases[base][0]);
        let rest = merged_lists(lists)->0;
        assert(rest.contains(bases[base][0]));
        assert(method_order(bases, base) == seq![base] + rest);
    }
}

/// Whether each class of the chain has the next as a base.
pub open spec fn is_chain(bases: Map<Seq<char>, Seq<Seq<char>>>, chain: Seq<Seq<char>>) -> bool {
    forall|i: int|
        0 <= i < chain.len() - 1 ==> bases.contains_key(#[trigger] chain[i])
            && bases[chain[i]].contains(chain[i + 1])
}

/// A class that is among its own ancestors stands alone.
pub proof fn lemma_own_ancestor(bases: Map<Seq<char>, Seq<Seq<char>>>, chain: Seq<Seq<char>>)
    requires
        chain.len() > 1,
        is_chain(bases, chain),
        chain.last() == chain[0],
    ensures
        method_order(bases, chain[0]) == seq![chain[0]],
{
    lemma_never_linearized(bases, chain, bases.dom().len());
}

proof fn lemma_never_linearized(
    bases: Map<Seq<char>, Seq<Seq<char>>>,
    chain: Seq<Seq<char>>,
    depth: nat,
)
    requires
        chain.len() > 1,
        is_chain(bases, chain),
        chain.last() == chain[0],
    ensures
        linearized(bases, chain[0], depth) is None,
    decreases depth,
{
    if linearized(bases, chain[0], depth) is Some {
        let n = chain.len() - 1;
        lemma_linearized_down(bases, chain, depth, n);
        assert(chain[n] == chain.last());
        lemma_never_linearized(bases, chain, (depth - n) as nat);
    }
}

proof fn lemma_linearized_down(
    bases: Map<Seq<char>, Seq<Seq<char>>>,
    chain: Seq<Seq<char>>,
    depth: nat,
    i: int,
)
    requires
        is_chain(bases, chain),
        linearized(bases, chain[0], depth) is Some,
        0 <= i < chain.len(),
    ensures
        i <= depth,
        linearized(bases, chain[i], (depth - i) as nat) is Some,
    decreases i,
{
    if i > 0 {
        lemma_linearized_down(bases, chain, depth, i - 1);
        let class = chain[i - 1];
        assert(bases.contains_key(class) && bases[class].contains(chain[i - 1 + 1]));
        let p = bases[class].index_of(chain[i]);
        assert(bases[class][p] == chain[i]);
        lemma_linearized_at(bases, bases[class], (depth - i) as nat, p);
    }
}

} // verus!
