//! The order in which a class and its ancestors are asked for a method.
//!
//! The order is the C3 linearization: a class comes before its bases, the bases come in the
//! order in which the class names them, and the order of each base is kept.
use vstd::prelude::*;

use crate::artifact::NameList;
use crate::names::lemma_views_push;
use crate::names::views;
use crate::names::ModuleName;
use crate::names::NameMap;

verus! {

/// How many names the lists hold together.
pub open spec fn total_len(lists: Seq<Seq<Seq<char>>>) -> nat
    decreases lists.len(),
{
    if lists.len() == 0 {
        0
    } else {
        total_len(lists.drop_last()) + lists.last().len()
    }
}

/// Whether `list` has `name` anywhere but in front.
pub open spec fn is_behind(list: Seq<Seq<char>>, name: Seq<char>) -> bool {
    exists|i: int| 0 < i < list.len() && #[trigger] list[i] == name
}

/// Whether `name` may come next: no list wants another name before it.
pub open spec fn is_free(lists: Seq<Seq<Seq<char>>>, name: Seq<char>) -> bool {
    forall|j: int| 0 <= j < lists.len() ==> !is_behind(#[trigger] lists[j], name)
}

/// Whether the list at `j` can give the next name.
pub open spec fn offers(lists: Seq<Seq<Seq<char>>>, j: int) -> bool {
    lists[j].len() > 0 && is_free(lists, lists[j][0])
}

/// The first list from `i` on that can give the next name.
pub open spec fn next_list(lists: Seq<Seq<Seq<char>>>, i: int) -> Option<int>
    decreases lists.len() - i,
{
    if i >= lists.len() {
        None
    } else if offers(lists, i) {
        Some(i)
    } else {
        next_list(lists, i + 1)
    }
}

/// The lists without `name` in front.
pub open spec fn without_front(lists: Seq<Seq<Seq<char>>>, name: Seq<char>) -> Seq<
    Seq<Seq<char>>,
> {
    Seq::new(
        lists.len(),
        |j: int|
            if lists[j].len() > 0 && lists[j][0] == name {
                lists[j].drop_first()
            } else {
                lists[j]
            },
    )
}

/// The one list that C3 merges the lists to, if there is one.
pub open spec fn merged_lists(lists: Seq<Seq<Seq<char>>>) -> Option<Seq<Seq<char>>>
    decreases total_len(lists),
{
    if total_len(lists) == 0 {
        Some(Seq::empty())
    } else {
        match next_list(lists, 0) {
            None => None,
            Some(j) => {
                let name = lists[j][0];
                proof {
                    lemma_next_list(lists, 0);
                    lemma_without_front(lists, name, j);
                }
                match merged_lists(without_front(lists, name)) {
                    None => None,
                    Some(rest) => Some(seq![name] + rest),
                }
            },
        }
    }
}

/// The linearization of `class`, if there is one that needs no more than `depth` classes
/// with bases on a line.
pub open spec fn linearized(
    bases: Map<Seq<char>, Seq<Seq<char>>>,
    class: Seq<char>,
    depth: nat,
) -> Option<Seq<Seq<char>>>
    decreases depth, 0nat,
{
    if !bases.contains_key(class) {
        Some(seq![class])
    } else if depth == 0 {
        None
    } else {
        match all_linearized(bases, bases[class], (depth - 1) as nat) {
            None => None,
            Some(lists) => match merged_lists(lists.push(bases[class])) {
                None => None,
                Some(rest) => Some(seq![class] + rest),
            },
        }
    }
}

/// The linearizations of all `classes`, if each has one.
pub open spec fn all_linearized(
    bases: Map<Seq<char>, Seq<Seq<char>>>,
    classes: Seq<Seq<char>>,
    depth: nat,
) -> Option<Seq<Seq<Seq<char>>>>
    decreases depth, classes.len(),
{
    if classes.len() == 0 {
        Some(Seq::empty())
    } else {
        match (
            all_linearized(bases, classes.drop_last(), depth),
            linearized(bases, classes.last(), depth),
        ) {
            (Some(lists), Some(list)) => Some(lists.push(list)),
            _ => None,
        }
    }
}

/// The class and its ancestors, in the order in which they are asked for a method. A class
/// whose ancestors cannot be ordered, or that is among its own ancestors, stands alone.
pub open spec fn method_order(bases: Map<Seq<char>, Seq<Seq<char>>>, class: Seq<char>) -> Seq<
    Seq<char>,
> {
    match linearized(bases, class, bases.dom().len()) {
        Some(order) => order,
        None => seq![class],
    }
}

/// A list that is picked can give the next name.
pub proof fn lemma_next_list(lists: Seq<Seq<Seq<char>>>, i: int)
    requires
        0 <= i,
    ensures
        next_list(lists, i) matches Some(j) ==> i <= j < lists.len() && offers(lists, j),
    decreases lists.len() - i,
{
    if i < lists.len() && !offers(lists, i) {
        lemma_next_list(lists, i + 1);
    }
}

pub(crate) proof fn lemma_total_len(lists: Seq<Seq<Seq<char>>>)
    ensures
        total_len(lists) == 0 <==> forall|j: int|
            0 <= j < lists.len() ==> (#[trigger] lists[j]).len() == 0,
    decreases lists.len(),
{
    if lists.len() > 0 {
        let rest = lists.drop_last();
        lemma_total_len(rest);
        if total_len(lists) == 0 {
            assert forall|j: int| 0 <= j < lists.len() implies (#[trigger] lists[j]).len() == 0 by {
                if j < rest.len() {
                    assert(rest[j] == lists[j]);
                }
            }
        } else if forall|j: int| 0 <= j < lists.len() ==> (#[trigger] lists[j]).len() == 0 {
            assert forall|j: int| 0 <= j < rest.len() implies (#[trigger] rest[j]).len() == 0 by {
                assert(rest[j] == lists[j]);
            }
            assert(lists[lists.len() - 1].len() == 0);
        }
    }
}

/// Taking a name from the front leaves less where a list had it there.
pub proof fn lemma_without_front(lists: Seq<Seq<Seq<char>>>, name: Seq<char>, k: int)
    ensures
        total_len(without_front(lists, name)) <= total_len(lists),
        0 <= k < lists.len() && lists[k].len() > 0 && lists[k][0] == name ==> total_len(
            without_front(lists, name),
        ) < total_len(lists),
    decreases lists.len(),
{
    if lists.len() > 0 {
        lemma_without_front(lists.drop_last(), name, k);
        assert(without_front(lists, name).drop_last() =~= without_front(lists.drop_last(), name));
    }
}

/// Whether `earlier` stands before `later` in `order`.
pub open spec fn precedes(order: Seq<Seq<char>>, earlier: Seq<char>, later: Seq<char>) -> bool {
    exists|a: int, b: int|
        0 <= a < b < order.len() && #[trigger] order[a] == earlier && #[trigger] order[b] == later
}

/// A merge of lists holds the names of every list, and keeps the order of every list.
pub proof fn lemma_merged_lists(lists: Seq<Seq<Seq<char>>>, j: int)
    requires
        0 <= j < lists.len(),
    ensures
        merged_lists(lists) matches Some(order) ==> {
            &&& forall|p: int| 0 <= p < lists[j].len() ==> order.contains(#[trigger] lists[j][p])
            &&& forall|p: int, q: int|
                0 <= p < q < lists[j].len() ==> precedes(
                    order,
                    #[trigger] lists[j][p],
                    #[trigger] lists[j][q],
                )
        },
    decreases total_len(lists),
{
    lemma_total_len(lists);
    if total_len(lists) > 0 && merged_lists(lists) is Some {
        let k = next_list(lists, 0)->0;
        lemma_next_list(lists, 0);
        let name = lists[k][0];
        lemma_without_front(lists, name, k);
        let shorter = without_front(lists, name);
        lemma_merged_lists(shorter, j);
        let rest = merged_lists(shorter)->0;
        let order = merged_lists(lists)->0;
        assert(order == seq![name] + rest);
        assert(order[0] == name);
        let list = lists[j];
        let taken: int = if list.len() > 0 && list[0] == name { 1 } else { 0 };
        assert forall|p: int| taken <= p < list.len() implies #[trigger] list[p]
            == shorter[j][p - taken] by {}
        assert forall|p: int| 0 <= p < list.len() implies order.contains(#[trigger] list[p]) by {
            if p >= taken {
                assert(shorter[j][p - taken] == list[p]);
                let a = rest.index_of(list[p]);
                assert(rest[a] == list[p]);
                assert(order[a + 1] == list[p]);
            }
        }
        assert forall|p: int, q: int| 0 <= p < q < list.len() implies precedes(
            order,
            #[trigger] list[p],
            #[trigger] list[q],
        ) by {
            assert(shorter[j][q - taken] == list[q]);
            if p >= taken {
                assert(shorter[j][p - taken] == list[p]);
                assert(precedes(rest, list[p], list[q]));
                let (a, b) = choose|a: int, b: int|
                    0 <= a < b < rest.len() && #[trigger] rest[a] == list[p] && #[trigger] rest[b]
                        == list[q];
                assert(order[a + 1] == list[p] && order[b + 1] == list[q]);
            } else {
                let b = rest.index_of(list[q]);
                assert(rest[b] == list[q]);
                assert(order[0] == list[p] && order[b + 1] == list[q]);
            }
        }
    }
}

/// A class is the first to be asked for its own methods.
pub proof fn lemma_class_comes_first(bases: Map<Seq<char>, Seq<Seq<char>>>, class: Seq<char>)
    ensures
        method_order(bases, class).len() > 0,
        method_order(bases, class)[0] == class,
{
}

/// Where a class can be ordered, its bases are asked in the order in which it names them.
pub proof fn lemma_bases_keep_their_order(
    bases: Map<Seq<char>, Seq<Seq<char>>>,
    class: Seq<char>,
    p: int,
    q: int,
)
    requires
        bases.contains_key(class),
        linearized(bases, class, bases.dom().len()) is Some,
        0 <= p < q < bases[class].len(),
    ensures
        precedes(method_order(bases, class).skip(1), bases[class][p], bases[class][q]),
{
    let depth = bases.dom().len();
    let lists = all_linearized(bases, bases[class], (depth - 1) as nat)->0;
    let all = lists.push(bases[class]);
    lemma_merged_lists(all, all.len() - 1);
    assert(all[all.len() - 1] == bases[class]);
    assert(method_order(bases, class).skip(1) =~= merged_lists(all)->0);
    assert(all[all.len() - 1][p] == bases[class][p]);
    assert(all[all.len() - 1][q] == bases[class][q]);
}

pub(crate) proof fn lemma_deeper(bases: Map<Seq<char>, Seq<Seq<char>>>, class: Seq<char>, depth: nat)
    requires
        linearized(bases, class, depth) is Some,
    ensures
        linearized(bases, class, depth + 1) == linearized(bases, class, depth),
    decreases depth, 0nat,
{
    if bases.contains_key(class) {
        lemma_all_deeper(bases, bases[class], (depth - 1) as nat);
    }
}

proof fn lemma_all_deeper(
    bases: Map<Seq<char>, Seq<Seq<char>>>,
    classes: Seq<Seq<char>>,
    depth: nat,
)
    requires
        all_linearized(bases, classes, depth) is Some,
    ensures
        all_linearized(bases, classes, depth + 1) == all_linearized(bases, classes, depth),
    decreases depth, classes.len(),
{
    if classes.len() > 0 {
        lemma_all_deeper(bases, classes.drop_last(), depth);
        lemma_deeper(bases, classes.last(), depth);
    }
}

pub(crate) proof fn lemma_linearized_at(
    bases: Map<Seq<char>, Seq<Seq<char>>>,
    classes: Seq<Seq<char>>,
    depth: nat,
    p: int,
)
    requires
        all_linearized(bases, classes, depth) is Some,
        0 <= p < classes.len(),
    ensures
        (all_linearized(bases, classes, depth)->0).len() == classes.len(),
        linearized(bases, classes[p], depth) == Some((all_linearized(bases, classes, depth)->0)[p]),
    decreases classes.len(),
{
    let shorter = classes.drop_last();
    if shorter.len() > 0 && p < shorter.len() {
        lemma_linearized_at(bases, shorter, depth, p);
        assert(shorter[p] == classes[p]);
    } else if shorter.len() > 0 {
        lemma_linearized_at(bases, shorter, depth, 0);
    }
}

/// Where a class can be ordered, so can each of its bases, and the order of the base is kept.
pub proof fn lemma_orders_of_bases_are_kept(
    bases: Map<Seq<char>, Seq<Seq<char>>>,
    class: Seq<char>,
    p: int,
    earlier: int,
    later: int,
)
    requires
        bases.contains_key(class),
        linearized(bases, class, bases.dom().len()) is Some,
        0 <= p < bases[class].len(),
        0 <= earlier < later < method_order(bases, bases[class][p]).len(),
    ensures
        linearized(bases, bases[class][p], bases.dom().len()) is Some,
        precedes(
            method_order(bases, class).skip(1),
            method_order(bases, bases[class][p])[earlier],
            method_order(bases, bases[class][p])[later],
        ),
{
    let depth = (bases.dom().len() - 1) as nat;
    let lists = all_linearized(bases, bases[class], depth)->0;
    let all = lists.push(bases[class]);
    lemma_linearized_at(bases, bases[class], depth, p);
    lemma_deeper(bases, bases[class][p], depth);
    lemma_merged_lists(all, p);
    let order = method_order(bases, bases[class][p]);
    assert(all[p] == order);
    assert(method_order(bases, class).skip(1) =~= merged_lists(all)->0);
    assert(precedes(merged_lists(all)->0, all[p][earlier], all[p][later]));
}

/// What is left of each list once its first `done[j]` names are taken.
spec fn rest_of(lists: Seq<Seq<Seq<char>>>, done: Seq<usize>) -> Seq<Seq<Seq<char>>> {
    Seq::new(lists.len(), |j: int| lists[j].skip(done[j] as int))
}


spec fn are_positions(lists: Seq<Seq<Seq<char>>>, done: Seq<usize>) -> bool {
    &&& done.len() == lists.len()
    &&& forall|j: int| 0 <= j < lists.len() ==> #[trigger] done[j] <= lists[j].len()
}

/// Whether no list wants another name before `name`.
fn may_come_next(lists: &Vec<NameList>, done: &Vec<usize>, name: &ModuleName) -> (r: bool)
    requires
        are_positions(views(lists@), done@),
    ensures
        r == is_free(rest_of(views(lists@), done@), name@),
{
    let ghost left = rest_of(views(lists@), done@);
    for j in 0..lists.len()
        invariant
            are_positions(views(lists@), done@),
            left == rest_of(views(lists@), done@),
            forall|i: int| 0 <= i < j ==> !is_behind(#[trigger] left[i], name@),
    {
        let list = &lists[j].names;
        assert(views(lists@)[j as int] == views(list@));
        let from = done[j];
        let n = list.len();
        if from < n {
            for p in from + 1..n
                invariant
                    n == list@.len(),
                    from < n,
                    j < left.len(),
                    left == rest_of(views(lists@), done@),
                    left[j as int] == views(list@).skip(from as int),
                    forall|i: int|
                        0 < i < p - from ==> #[trigger] left[j as int][i] != name@,
            {
                assert(left[j as int][p - from] == list@[p as int]@);
                if list[p].same(name) {
                    assert(is_behind(left[j as int], name@));
                    return false;
                }
            }
        }
    }
    true
}

/// The first list that can give the next name.
fn find_next(lists: &Vec<NameList>, done: &Vec<usize>) -> (r: Option<usize>)
    requires
        are_positions(views(lists@), done@),
    ensures
        ({
            let found = next_list(rest_of(views(lists@), done@), 0);
            r is Some <==> found is Some
        }),
        r matches Some(j) ==> next_list(rest_of(views(lists@), done@), 0) == Some(j as int),
{
    let ghost left = rest_of(views(lists@), done@);
    for j in 0..lists.len()
        invariant
            are_positions(views(lists@), done@),
            left == rest_of(views(lists@), done@),
            next_list(left, 0) == next_list(left, j as int),
    {
        let list = &lists[j].names;
        assert(views(lists@)[j as int] == views(list@));
        if done[j] < list.len() {
            assert(left[j as int][0] == list@[done@[j as int] as int]@);
            if may_come_next(lists, done, &list[done[j]]) {
                assert(offers(left, j as int));
                return Some(j);
            }
        }
    }
    None
}

/// Takes `name` from the front of every list that has it there.
fn take_front(lists: &Vec<NameList>, done: &mut Vec<usize>, name: &ModuleName)
    requires
        are_positions(views(lists@), old(done)@),
    ensures
        are_positions(views(lists@), final(done)@),
        rest_of(views(lists@), final(done)@) == without_front(
            rest_of(views(lists@), old(done)@),
            name@,
        ),
{
    let ghost all = views(lists@);
    let ghost before = done@;
    for j in 0..lists.len()
        invariant
            all == views(lists@),
            before == old(done)@,
            are_positions(all, before),
            are_positions(all, done@),
            forall|i: int| j <= i < all.len() ==> done@[i] == before[i],
            forall|i: int|
                0 <= i < j ==> all[i].skip(#[trigger] done@[i] as int) == without_front(
                    rest_of(all, before),
                    name@,
                )[i],
    {
        let list = &lists[j].names;
        assert(all[j as int] == views(list@));
        let at = done[j];
        let ghost left = all[j as int].skip(at as int);
        assert(rest_of(all, before)[j as int] == left);
        if at < list.len() {
            assert(left[0] == list@[at as int]@);
            if list[at].same(name) {
                done[j] = at + 1;
                assert(all[j as int].skip(at + 1) =~= left.drop_first());
            }
        }
    }
    assert(rest_of(all, done@) =~= without_front(rest_of(all, before), name@));
}

/// Whether every list is used up.
fn all_taken(lists: &Vec<NameList>, done: &Vec<usize>) -> (r: bool)
    requires
        are_positions(views(lists@), done@),
    ensures
        r == (total_len(rest_of(views(lists@), done@)) == 0),
{
    let ghost left = rest_of(views(lists@), done@);
    proof {
        lemma_total_len(left);
    }
    for j in 0..lists.len()
        invariant
            are_positions(views(lists@), done@),
            left == rest_of(views(lists@), done@),
            total_len(left) == 0 <==> forall|i: int|
                0 <= i < left.len() ==> (#[trigger] left[i]).len() == 0,
            forall|i: int| 0 <= i < j ==> (#[trigger] left[i]).len() == 0,
    {
        assert(views(lists@)[j as int] == views(lists@[j as int].names@));
        if done[j] < lists[j].names.len() {
            assert(left[j as int].len() > 0);
            return false;
        }
    }
    true
}

/// The one list that C3 merges the lists to, if there is one.
fn merge_lists(lists: &Vec<NameList>) -> (r: Option<Vec<ModuleName>>)
    ensures
        r is Some <==> merged_lists(views(lists@)) is Some,
        r matches Some(order) ==> Some(views(order@)) == merged_lists(views(lists@)),
{
    let ghost all = views(lists@);
    let mut done: Vec<usize> = Vec::new();
    for j in 0..lists.len()
        invariant
            done@.len() == j,
            forall|i: int| 0 <= i < j ==> #[trigger] done@[i] == 0,
    {
        done.push(0);
    }
    let mut order: Vec<ModuleName> = Vec::new();
    proof {
        assert forall|j: int| 0 <= j < all.len() implies #[trigger] rest_of(all, done@)[j]
            == all[j] by {
            assert(all[j].skip(0) =~= all[j]);
        }
        assert(rest_of(all, done@) =~= all);
        assert(views(order@) =~= Seq::<Seq<char>>::empty());
        if let Some(rest) = merged_lists(all) {
            assert(Seq::<Seq<char>>::empty() + rest =~= rest);
        }
    }
    while !all_taken(lists, &done)
        invariant
            all == views(lists@),
            are_positions(all, done@),
            merged_lists(all) == (match merged_lists(rest_of(all, done@)) {
                Some(rest) => Some(views(order@) + rest),
                None => None,
            }),
        decreases total_len(rest_of(all, done@)),
    {
        let ghost left = rest_of(all, done@);
        match find_next(lists, &done) {
            Some(j) => {
                proof {
                    lemma_next_list(left, 0);
                    assert(all[j as int] == views(lists@[j as int].names@));
                    lemma_without_front(left, left[j as int][0], j as int);
                }
                let name = lists[j].names[done[j]].clone();
                assert(name@ == left[j as int][0]);
                take_front(lists, &mut done, &name);
                proof {
                    if let Some(rest) = merged_lists(rest_of(all, done@)) {
                        assert(views(order@) + (seq![name@] + rest) =~= views(order@).push(name@)
                            + rest);
                    }
                    lemma_views_push(order@, name);
                }
                order.push(name);
            },
            None => {
                return None;
            },
        }
    }
    assert(views(order@) + Seq::<Seq<char>>::empty() =~= views(order@));
    Some(order)
}

fn linearize(bases: &NameMap<NameList>, class: &ModuleName, depth: usize) -> (r: Option<
    Vec<ModuleName>,
>)
    ensures
        r is Some <==> linearized(bases@, class@, depth as nat) is Some,
        r matches Some(order) ==> Some(views(order@)) == linearized(bases@, class@, depth as nat),
    decreases depth,
{
    let found = match bases.get(class.as_str()) {
        Some(found) => found,
        None => {
            let mut order: Vec<ModuleName> = Vec::new();
            order.push(class.clone());
            assert(views(order@) =~= seq![class@]);
            return Some(order);
        },
    };
    if depth == 0 {
        return None;
    }
    let ghost named = found@;
    let mut lists: Vec<NameList> = Vec::new();
    assert(views(lists@) =~= Seq::<Seq<Seq<char>>>::empty());
    assert(named.take(0) =~= Seq::<Seq<char>>::empty());
    let n = found.names.len();
    for i in 0..n
        invariant
            depth > 0,
            n == found.names@.len(),
            named == found@,
            bases@.contains_key(class@),
            named == bases@[class@],
            named == views(found.names@),
            all_linearized(bases@, named.take(i as int), (depth - 1) as nat) == Some(views(lists@)),
    {
        assert(named.take(i + 1).drop_last() =~= named.take(i as int));
        assert(named.take(i + 1).last() == found.names@[i as int]@);
        match linearize(bases, &found.names[i], depth - 1) {
            Some(names) => {
                let list = NameList { names };
                proof {
                    lemma_views_push(lists@, list);
                }
                lists.push(list);
            },
            None => {
                proof {
                    lemma_some_not_linearized(bases@, named, (depth - 1) as nat, i + 1);
                }
                return None;
            },
        }
    }
    assert(named.take(n as int) =~= named);
    let mut own: Vec<ModuleName> = Vec::new();
    for i in 0..n
        invariant
            n == found.names@.len(),
            named == views(found.names@),
            views(own@) == named.take(i as int),
    {
        let name = found.names[i].clone();
        proof {
            lemma_views_push(own@, name);
            assert(named.take(i + 1) =~= named.take(i as int).push(name@));
        }
        own.push(name);
    }
    let last = NameList { names: own };
    proof {
        lemma_views_push(lists@, last);
        assert(last@ =~= named);
    }
    lists.push(last);
    match merge_lists(&lists) {
        Some(rest) => {
            let mut order: Vec<ModuleName> = Vec::new();
            let ghost behind = views(rest@);
            order.push(class.clone());
            assert(views(order@) =~= seq![class@] + behind.take(0));
            for name in it: rest
                invariant
                    it.seq() == rest@,
                    behind == views(rest@),
                    views(order@) == seq![class@] + behind.take(it.index() as int),
            {
                proof {
                    lemma_views_push(order@, name);
                    let i = it.index() as int;
                    assert(seq![class@] + behind.take(i + 1) =~= (seq![class@] + behind.take(
                        i,
                    )).push(name@));
                }
                order.push(name);
            }
            assert(behind.take(behind.len() as int) =~= behind);
            Some(order)
        },
        None => None,
    }
}

proof fn lemma_some_not_linearized(
    bases: Map<Seq<char>, Seq<Seq<char>>>,
    classes: Seq<Seq<char>>,
    depth: nat,
    n: int,
)
    requires
        0 <= n <= classes.len(),
        all_linearized(bases, classes.take(n), depth) is None,
    ensures
        all_linearized(bases, classes, depth) is None,
    decreases classes.len() - n,
{
    if n == classes.len() {
        assert(classes.take(n) =~= classes);
    } else {
        assert(classes.take(n + 1).drop_last() =~= classes.take(n));
        lemma_some_not_linearized(bases, classes, depth, n + 1);
    }
}

/// The class and its ancestors, in the order in which they are asked for a method.
pub fn c3_linearize(bases: &NameMap<NameList>, class: &ModuleName) -> (order: Vec<ModuleName>)
    ensures
        views(order@) == method_order(bases@, class@),
{
    let depth = bases.len();
    proof {
        bases.lemma_keys();
        bases.keys().unique_seq_to_set();
    }
    match linearize(bases, class, depth) {
        Some(order) => order,
        None => {
            let mut order: Vec<ModuleName> = Vec::new();
            order.push(class.clone());
            assert(views(order@) =~= seq![class@]);
            order
        },
    }
}

} // verus!
