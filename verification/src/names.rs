//! Module names, and sets and maps keyed by text.
//!
//! A [`NameMap`] finds a key through a hash index and keeps the order in which the keys
//! first came, so that walking it gives the same order on every run.
use vstd::hash_map::StringHashMap;
use vstd::prelude::*;

use crate::text::dotted;
use crate::text::join_dotted;

verus! {

/// The views of a sequence of values.
pub open spec fn views<T: View>(items: Seq<T>) -> Seq<T::V> {
    Seq::new(items.len(), |i: int| items[i]@)
}

/// The views commute with taking one more item.
pub proof fn lemma_views_push<T: View>(items: Seq<T>, item: T)
    ensures
        views(items.push(item)) == views(items).push(item@),
{
    assert(views(items.push(item)) =~= views(items).push(item@));
}

/// `first` followed by the items of `second` that are not there yet, in their order.
pub open spec fn absorb<A>(first: Seq<A>, second: Seq<A>) -> Seq<A>
    decreases second.len(),
{
    if second.len() == 0 {
        first
    } else {
        let r = absorb(first, second.drop_last());
        if r.contains(second.last()) {
            r
        } else {
            r.push(second.last())
        }
    }
}

/// Absorbing keeps what was there in front, adds what is new, and adds nothing twice.
pub proof fn lemma_absorb<A>(first: Seq<A>, second: Seq<A>)
    ensures
        first.is_prefix_of(absorb(first, second)),
        forall|x: A| #[trigger]
            absorb(first, second).contains(x) <==> first.contains(x) || second.contains(x),
        first.no_duplicates() ==> absorb(first, second).no_duplicates(),
    decreases second.len(),
{
    if second.len() > 0 {
        let shorter = second.drop_last();
        lemma_absorb(first, shorter);
        let r = absorb(first, shorter);
        assert forall|x: A| #[trigger]
            absorb(first, second).contains(x) <==> first.contains(x) || second.contains(x) by {
            if shorter.contains(x) {
                assert(second[shorter.index_of(x)] == x);
            }
            if second.contains(x) && x != second.last() {
                assert(shorter[second.index_of(x)] == x);
            }
            assert(second[second.len() - 1] == second.last());
            if r.contains(x) {
                assert(r.push(second.last())[r.index_of(x)] == x);
            }
            assert(r.push(second.last())[r.len() as int] == second.last());
            if r.push(second.last()).contains(x) && x != second.last() {
                assert(r[r.push(second.last()).index_of(x)] == x);
            }
        }
    }
}

/// A dotted name: of a module, or of a class or function inside one.
#[derive(Debug, PartialEq, Eq)]
pub struct ModuleName {
    text: String,
}

impl View for ModuleName {
    type V = Seq<char>;

    closed spec fn view(&self) -> Seq<char> {
        self.text@
    }
}

impl Clone for ModuleName {
    fn clone(&self) -> (r: Self)
        ensures
            r@ == self@,
    {
        ModuleName { text: self.text.clone() }
    }
}

impl ModuleName {
    /// The name that reads `text`.
    pub fn from_str(text: &str) -> (r: Self)
        ensures
            r@ == text@,
    {
        ModuleName { text: text.to_owned() }
    }

    /// The name as text.
    pub fn as_str(&self) -> (r: &str)
        ensures
            r@ == self@,
    {
        self.text.as_str()
    }

    /// The name as a string of its own.
    pub(crate) fn to_text(&self) -> (r: String)
        ensures
            r@ == self@,
    {
        self.text.clone()
    }

    /// `self.part`.
    pub fn append_str(&self, part: &str) -> (r: Self)
        ensures
            r@ == dotted(self@, part@),
    {
        ModuleName { text: join_dotted(self.text.as_str(), part) }
    }

    /// Whether the two names read the same.
    pub fn same(&self, other: &Self) -> (r: bool)
        ensures
            r == (self@ == other@),
    {
        self.text == other.text
    }
}

/// The map that sends `keys[i]` to `values[i]`.
pub open spec fn zip_map<W>(keys: Seq<Seq<char>>, values: Seq<W>) -> Map<Seq<char>, W> {
    Map::new(|key: Seq<char>| keys.contains(key), |key: Seq<char>| values[keys.index_of(key)])
}

proof fn lemma_zip_map_at<W>(keys: Seq<Seq<char>>, values: Seq<W>, i: int)
    requires
        keys.no_duplicates(),
        0 <= i < keys.len(),
    ensures
        zip_map(keys, values).contains_key(keys[i]),
        zip_map(keys, values)[keys[i]] == values[i],
{
    assert(keys.contains(keys[i]));
    let j = keys.index_of(keys[i]);
    assert(0 <= j < keys.len() && keys[j] == keys[i]);
    assert(j == i);
}

proof fn lemma_zip_map_push<W>(keys: Seq<Seq<char>>, values: Seq<W>, key: Seq<char>, value: W)
    requires
        keys.no_duplicates(),
        keys.len() == values.len(),
        !keys.contains(key),
    ensures
        keys.push(key).no_duplicates(),
        zip_map(keys.push(key), values.push(value)) == zip_map(keys, values).insert(key, value),
{
    let before = zip_map(keys, values);
    let after = zip_map(keys.push(key), values.push(value));
    assert(keys.push(key).no_duplicates());
    assert forall|k: Seq<char>| #[trigger] after.contains_key(k) <==> before.insert(
        key,
        value,
    ).contains_key(k) by {
        if keys.contains(k) {
            assert(keys.push(key)[keys.index_of(k)] == k);
        }
        if k == key {
            assert(keys.push(key)[keys.len() as int] == k);
        }
        if keys.push(key).contains(k) {
            let i = keys.push(key).index_of(k);
            if i < keys.len() {
                assert(keys[i] == k);
            }
        }
    }
    assert forall|k: Seq<char>| #[trigger] after.contains_key(k) implies after[k] == before.insert(
        key,
        value,
    )[k] by {
        let i = keys.push(key).index_of(k);
        assert(0 <= i < keys.push(key).len() && keys.push(key)[i] == k);
        lemma_zip_map_at(keys.push(key), values.push(value), i);
        if i < keys.len() {
            lemma_zip_map_at(keys, values, i);
        }
    }
    assert(after =~= before.insert(key, value));
}

proof fn lemma_zip_map_update<W>(keys: Seq<Seq<char>>, values: Seq<W>, i: int, value: W)
    requires
        keys.no_duplicates(),
        keys.len() == values.len(),
        0 <= i < keys.len(),
    ensures
        zip_map(keys, values.update(i, value)) == zip_map(keys, values).insert(keys[i], value),
{
    let before = zip_map(keys, values);
    let after = zip_map(keys, values.update(i, value));
    assert(keys.contains(keys[i]));
    assert forall|k: Seq<char>| #[trigger] after.contains_key(k) implies after[k] == before.insert(
        keys[i],
        value,
    )[k] by {
        let j = keys.index_of(k);
        assert(0 <= j < keys.len() && keys[j] == k);
        lemma_zip_map_at(keys, values.update(i, value), j);
        lemma_zip_map_at(keys, values, j);
    }
    assert(after =~= before.insert(keys[i], value));
}

/// A map from text to values.
pub struct NameMap<V> {
    keys: Vec<String>,
    values: Vec<V>,
    index: StringHashMap<usize>,
}

impl<V: View> View for NameMap<V> {
    type V = Map<Seq<char>, V::V>;

    closed spec fn view(&self) -> Map<Seq<char>, V::V> {
        zip_map(self.keys(), self.shown())
    }
}

impl<V: View> NameMap<V> {
    /// The views of the values, one for each key.
    spec fn shown(&self) -> Seq<V::V> {
        Seq::new(self.keys@.len(), |i: int| self.values@[i]@)
    }

    proof fn lemma_shown(&self)
        requires
            self.keys@.len() == self.values@.len(),
        ensures
            self.shown() == views(self.values@),
            self@ == zip_map(self.keys(), views(self.values@)),
    {
        assert(self.shown() =~= views(self.values@));
    }
}

impl<V> NameMap<V> {
    /// The keys, in the order in which they are walked.
    pub closed spec fn keys(&self) -> Seq<Seq<char>> {
        views(self.keys@)
    }

    #[verifier::type_invariant]
    spec fn wf(&self) -> bool {
        &&& self.keys().no_duplicates()
        &&& self.keys@.len() == self.values@.len()
        &&& forall|k: Seq<char>| #[trigger] self.index@.contains_key(k) <==> self.keys().contains(k)
        &&& forall|i: int|
            0 <= i < self.keys().len() ==> self.index@[#[trigger] self.keys()[i]] == i
    }
}

impl<V: View> NameMap<V> {
    /// The keys that are walked are those that the map holds.
    pub proof fn lemma_keys(&self)
        ensures
            forall|k: Seq<char>| #[trigger] self@.contains_key(k) <==> self.keys().contains(k),
            self@.dom() == self.keys().to_set(),
    {
        assert(self@.dom() =~= self.keys().to_set());
    }

    /// Every value that the map shows is one that it holds.
    pub(crate) proof fn lemma_value(&self, key: Seq<char>) -> (value: V)
        requires
            self@.contains_key(key),
        ensures
            value@ == self@[key],
    {
        assert(self.keys().contains(key));
        let i = self.keys().index_of(key);
        assert(self.shown()[i] == self.values@[i]@);
        self.values@[i]
    }

    /// The map that holds nothing.
    pub fn new() -> (r: Self)
        ensures
            r@ == Map::<Seq<char>, V::V>::empty(),
            r.keys() == Seq::<Seq<char>>::empty(),
    {
        let r = NameMap { keys: Vec::new(), values: Vec::new(), index: StringHashMap::new() };
        assert(r.keys() =~= Seq::<Seq<char>>::empty());
        assert(r@ =~= Map::<Seq<char>, V::V>::empty());
        r
    }

    /// How many keys there are.
    pub fn len(&self) -> (n: usize)
        ensures
            n == self.keys().len(),
            self.keys().no_duplicates(),
    {
        proof {
            use_type_invariant(self);
        }
        self.keys.len()
    }

    /// The position of `key` in the order of the keys.
    fn position(&self, key: &str) -> (r: Option<usize>)
        ensures
            r is Some <==> self@.contains_key(key@),
            r matches Some(i) ==> i < self.keys().len() && self.keys()[i as int] == key@,
    {
        proof {
            use_type_invariant(self);
        }
        match self.index.get(key) {
            Some(i) => {
                proof {
                    let j = self.keys().index_of(key@);
                    assert(0 <= j < self.keys().len() && self.keys()[j] == key@);
                }
                Some(*i)
            },
            None => None,
        }
    }

    /// Whether `key` is there.
    pub fn contains_key(&self, key: &str) -> (r: bool)
        ensures
            r == self@.contains_key(key@),
    {
        self.position(key).is_some()
    }

    /// The value at `key`.
    pub fn get(&self, key: &str) -> (r: Option<&V>)
        ensures
            r is Some <==> self@.contains_key(key@),
            r matches Some(value) ==> value@ == self@[key@],
    {
        proof {
            use_type_invariant(self);
            self.lemma_shown();
        }
        match self.position(key) {
            Some(i) => {
                proof {
                    lemma_zip_map_at(self.keys(), views(self.values@), i as int);
                }
                Some(&self.values[i])
            },
            None => None,
        }
    }

    /// The `i`-th key of the walk.
    pub fn key_at(&self, i: usize) -> (r: &str)
        requires
            i < self.keys().len(),
        ensures
            r@ == self.keys()[i as int],
            self@.contains_key(r@),
    {
        proof {
            assert(self.keys().contains(self.keys()[i as int]));
        }
        self.keys[i].as_str()
    }

    /// The value at the `i`-th key of the walk.
    pub fn value_at(&self, i: usize) -> (r: &V)
        requires
            i < self.keys().len(),
        ensures
            self@.contains_key(self.keys()[i as int]),
            r@ == self@[self.keys()[i as int]],
    {
        proof {
            use_type_invariant(self);
            self.lemma_shown();
            lemma_zip_map_at(self.keys(), views(self.values@), i as int);
        }
        &self.values[i]
    }

    /// Puts `value` at `key` and hands back what stood there. A key that was there keeps
    /// its place in the walk; a new one comes last.
    pub fn insert(&mut self, key: String, value: V) -> (r: Option<V>)
        ensures
            final(self)@ == old(self)@.insert(key@, value@),
            final(self).keys() == (if old(self)@.contains_key(key@) {
                old(self).keys()
            } else {
                old(self).keys().push(key@)
            }),
            r is Some <==> old(self)@.contains_key(key@),
            r matches Some(was) ==> was@ == old(self)@[key@],
    {
        proof {
            use_type_invariant(&*self);
            self.lemma_shown();
        }
        let ghost before = *self;
        let found = self.position(key.as_str());
        let mut whole = NameMap::new();
        std::mem::swap(self, &mut whole);
        let NameMap { mut keys, mut values, mut index } = whole;
        match found {
            Some(i) => {
                let mut slot = value;
                let ghost given = slot;
                proof {
                    lemma_zip_map_at(before.keys(), views(before.values@), i as int);
                    lemma_zip_map_update(before.keys(), views(before.values@), i as int, given@);
                    assert(views(before.values@.update(i as int, given)) =~= views(
                        before.values@,
                    ).update(i as int, given@));
                }
                std::mem::swap(&mut values[i], &mut slot);
                assert(values@ =~= before.values@.update(i as int, given));
                *self = NameMap { keys, values, index };
                proof {
                    self.lemma_shown();
                }
                Some(slot)
            },
            None => {
                let n = keys.len();
                let copy = key.clone();
                proof {
                    lemma_views_push(before.keys@, key);
                    lemma_views_push(before.values@, value);
                    lemma_zip_map_push(before.keys(), views(before.values@), key@, value@);
                    let after = before.keys().push(key@);
                    assert forall|k: Seq<char>| before.index@.insert(key@, n).contains_key(k)
                        <==> #[trigger] after.contains(k) by {
                        if before.keys().contains(k) {
                            assert(after[before.keys().index_of(k)] == k);
                        }
                        if k == key@ {
                            assert(after[before.keys().len() as int] == k);
                        }
                        if after.contains(k) && after.index_of(k) < before.keys().len() {
                            assert(before.keys()[after.index_of(k)] == k);
                        }
                    }
                    assert forall|i: int| 0 <= i < after.len() implies before.index@.insert(
                        key@,
                        n,
                    )[#[trigger] after[i]] == i by {
                        if i < before.keys().len() {
                            assert(before.keys()[i] == after[i]);
                            assert(before.keys().contains(after[i]));
                        }
                    }
                }
                keys.push(key);
                values.push(value);
                index.insert(copy, n);
                *self = NameMap { keys, values, index };
                proof {
                    self.lemma_shown();
                }
                None
            },
        }
    }

    /// Takes the last key of the walk out, with its value.
    pub fn pop(&mut self) -> (r: Option<(String, V)>)
        ensures
            old(self).keys().no_duplicates(),
            r is None <==> old(self).keys().len() == 0,
            r is None ==> final(self)@ == old(self)@ && final(self).keys() == old(self).keys(),
            r matches Some(entry) ==> {
                &&& old(self).keys().len() > 0
                &&& entry.0@ == old(self).keys().last()
                &&& old(self)@.contains_key(entry.0@)
                &&& entry.1@ == old(self)@[entry.0@]
                &&& final(self).keys() == old(self).keys().drop_last()
                &&& final(self)@ == old(self)@.remove(entry.0@)
            },
    {
        proof {
            use_type_invariant(&*self);
            self.lemma_shown();
        }
        let ghost before = *self;
        if self.keys.len() == 0 {
            return None;
        }
        let mut whole = NameMap::new();
        std::mem::swap(self, &mut whole);
        let NameMap { mut keys, mut values, mut index } = whole;
        let key = match keys.pop() {
            Some(key) => key,
            None => { return None; },
        };
        let value = match values.pop() {
            Some(value) => value,
            None => { return None; },
        };
        index.remove(key.as_str());
        proof {
            let n = before.keys().len() - 1;
            lemma_zip_map_at(before.keys(), views(before.values@), n);
            let rest = before.keys().drop_last();
            let kept = views(before.values@).drop_last();
            assert(views(keys@) =~= rest);
            assert(views(values@) =~= kept);
            assert(rest.no_duplicates());
            assert(!rest.contains(key@)) by {
                if rest.contains(key@) {
                    assert(before.keys()[rest.index_of(key@)] == before.keys()[n]);
                }
            }
            lemma_zip_map_push(rest, kept, key@, value@);
            assert(rest.push(key@) =~= before.keys());
            assert(kept.push(value@) =~= views(before.values@));
            assert(zip_map(rest, kept) =~= before@.remove(key@)) by {
                assert(before@ == zip_map(rest, kept).insert(key@, value@));
                assert(!zip_map(rest, kept).contains_key(key@));
            }
            assert forall|k: Seq<char>| #[trigger] index@.contains_key(k) <==> rest.contains(k) by {
                if rest.contains(k) {
                    assert(before.keys()[rest.index_of(k)] == k);
                }
                if before.keys().contains(k) && k != key@ {
                    let j = before.keys().index_of(k);
                    assert(before.keys()[j] == k && j != n);
                    assert(rest[j] == k);
                }
            }
            assert forall|i: int| 0 <= i < rest.len() implies index@[#[trigger] rest[i]] == i by {
                assert(rest.contains(rest[i]));
                assert(before.keys()[i] == rest[i]);
            }
        }
        *self = NameMap { keys, values, index };
        proof {
            self.lemma_shown();
        }
        Some((key, value))
    }

    /// Takes `key` out, with its value.
    pub fn remove(&mut self, key: &str) -> (r: Option<V>)
        ensures
            final(self)@ == old(self)@.remove(key@),
            r is Some <==> old(self)@.contains_key(key@),
            r matches Some(was) ==> was@ == old(self)@[key@],
    {
        proof {
            use_type_invariant(&*self);
            self.lemma_shown();
        }
        let ghost before = *self;
        match self.position(key) {
            Some(i) => {
                let mut whole = NameMap::new();
                std::mem::swap(self, &mut whole);
                let NameMap { mut keys, mut values, index: _ } = whole;
                keys.remove(i);
                let value = values.remove(i);
                proof {
                    lemma_zip_map_at(before.keys(), views(before.values@), i as int);
                    lemma_zip_map_remove(before.keys(), views(before.values@), i as int);
                    assert(views(keys@) =~= before.keys().remove(i as int));
                    assert(views(values@) =~= views(before.values@).remove(i as int));
                }
                let index = index_of_keys(&keys);
                *self = NameMap { keys, values, index };
                proof {
                    self.lemma_shown();
                }
                Some(value)
            },
            None => {
                assert(self@ =~= self@.remove(key@));
                None
            },
        }
    }
}

/// Where each key stands.
fn index_of_keys(keys: &Vec<String>) -> (index: StringHashMap<usize>)
    requires
        views(keys@).no_duplicates(),
    ensures
        forall|k: Seq<char>| #[trigger] index@.contains_key(k) <==> views(keys@).contains(k),
        forall|i: int| 0 <= i < keys@.len() ==> index@[#[trigger] views(keys@)[i]] == i,
{
    let mut index: StringHashMap<usize> = StringHashMap::new();
    let ghost all = views(keys@);
    for i in 0..keys.len()
        invariant
            all == views(keys@),
            all.no_duplicates(),
            forall|k: Seq<char>| #[trigger] index@.contains_key(k) <==> all.take(i as int).contains(k),
            forall|j: int| 0 <= j < i ==> index@[#[trigger] all[j]] == j,
    {
        let ghost earlier = index@;
        index.insert(keys[i].clone(), i);
        proof {
            assert(all.take(i + 1) =~= all.take(i as int).push(all[i as int]));
            assert forall|k: Seq<char>| #[trigger] index@.contains_key(k) <==> all.take(
                i + 1,
            ).contains(k) by {
                if all.take(i as int).contains(k) {
                    assert(all.take(i + 1)[all.take(i as int).index_of(k)] == k);
                }
                if k == all[i as int] {
                    assert(all.take(i + 1)[i as int] == k);
                }
                if all.take(i + 1).contains(k) && k != all[i as int] {
                    assert(all.take(i as int)[all.take(i + 1).index_of(k)] == k);
                }
            }
        }
    }
    assert(all.take(keys@.len() as int) =~= all);
    index
}

proof fn lemma_zip_map_remove<W>(keys: Seq<Seq<char>>, values: Seq<W>, i: int)
    requires
        keys.no_duplicates(),
        keys.len() == values.len(),
        0 <= i < keys.len(),
    ensures
        keys.remove(i).no_duplicates(),
        zip_map(keys.remove(i), values.remove(i)) == zip_map(keys, values).remove(keys[i]),
{
    let rest = keys.remove(i);
    let before = zip_map(keys, values);
    let after = zip_map(rest, values.remove(i));
    assert forall|a: int, b: int| 0 <= a < rest.len() && 0 <= b < rest.len() && a != b implies rest[a]
        != rest[b] by {
        let a0 = if a < i { a } else { a + 1 };
        let b0 = if b < i { b } else { b + 1 };
        assert(rest[a] == keys[a0] && rest[b] == keys[b0]);
    }
    assert forall|k: Seq<char>| #[trigger] after.contains_key(k) <==> before.remove(
        keys[i],
    ).contains_key(k) by {
        if rest.contains(k) {
            let a = rest.index_of(k);
            assert(rest[a] == k);
            let a0 = if a < i { a } else { a + 1 };
            assert(keys[a0] == k);
        }
        if keys.contains(k) && k != keys[i] {
            let a0 = keys.index_of(k);
            assert(keys[a0] == k);
            let a = if a0 < i { a0 } else { a0 - 1 };
            assert(rest[a] == k);
        }
    }
    assert forall|k: Seq<char>| #[trigger] after.contains_key(k) implies after[k] == before[k] by {
        let a = rest.index_of(k);
        assert(0 <= a < rest.len() && rest[a] == k);
        let a0 = if a < i { a } else { a + 1 };
        assert(keys[a0] == k);
        lemma_zip_map_at(keys, values, a0);
        lemma_zip_map_at(rest, values.remove(i), a);
    }
    assert(after =~= before.remove(keys[i]));
}

/// A set of texts.
pub struct NameSet {
    map: NameMap<()>,
}

impl View for NameSet {
    type V = Set<Seq<char>>;

    closed spec fn view(&self) -> Set<Seq<char>> {
        self.map@.dom()
    }
}

impl Clone for NameSet {
    fn clone(&self) -> (r: Self)
        ensures
            r@ == self@,
    {
        let mut r = NameSet::new();
        r.extend_with(self);
        assert(r@ =~= self@);
        r
    }
}

impl NameSet {
    /// The members, in the order in which they are walked.
    pub closed spec fn items(&self) -> Seq<Seq<char>> {
        self.map.keys()
    }

    /// The members that are walked are those that the set holds.
    pub proof fn lemma_items(&self)
        ensures
            forall|x: Seq<char>| #[trigger] self@.contains(x) <==> self.items().contains(x),
            self@ == self.items().to_set(),
            self@.finite(),
    {
        self.map.lemma_keys();
        assert(self@ =~= self.items().to_set());
        vstd::seq_lib::seq_to_set_is_finite(self.items());
    }

    /// The set that holds nothing.
    pub fn new() -> (r: Self)
        ensures
            r@ == Set::<Seq<char>>::empty(),
            r.items() == Seq::<Seq<char>>::empty(),
    {
        let r = NameSet { map: NameMap::new() };
        assert(r@ =~= Set::<Seq<char>>::empty());
        r
    }

    /// How many members there are.
    pub fn len(&self) -> (n: usize)
        ensures
            n == self.items().len(),
            n == self@.len(),
            self.items().no_duplicates(),
    {
        let n = self.map.len();
        proof {
            self.lemma_items();
            self.items().unique_seq_to_set();
        }
        n
    }

    /// Whether there is no member.
    pub fn is_empty(&self) -> (r: bool)
        ensures
            r == (self@ == Set::<Seq<char>>::empty()),
            r == (self.items().len() == 0),
    {
        let n = self.len();
        proof {
            self.lemma_items();
            if n == 0 {
                assert(self@ =~= Set::<Seq<char>>::empty());
            } else {
                assert(self.items().contains(self.items()[0]));
                assert(self@.contains(self.items()[0]));
            }
        }
        n == 0
    }

    /// Whether `item` is a member.
    pub fn contains(&self, item: &str) -> (r: bool)
        ensures
            r == self@.contains(item@),
    {
        self.map.contains_key(item)
    }

    /// Adds `item`; tells whether it is new.
    pub fn insert(&mut self, item: String) -> (r: bool)
        ensures
            final(self)@ == old(self)@.insert(item@),
            r == !old(self)@.contains(item@),
            final(self).items() == (if old(self)@.contains(item@) {
                old(self).items()
            } else {
                old(self).items().push(item@)
            }),
    {
        let was = self.map.insert(item, ());
        assert(self@ =~= old(self)@.insert(item@));
        was.is_none()
    }

    /// The `i`-th member of the walk.
    pub fn item_at(&self, i: usize) -> (r: &str)
        requires
            i < self.items().len(),
        ensures
            r@ == self.items()[i as int],
            self@.contains(r@),
    {
        self.map.key_at(i)
    }

    /// Adds every member of `other`.
    pub fn extend_with(&mut self, other: &NameSet)
        ensures
            final(self)@ == old(self)@.union(other@),
    {
        let ghost all = other.items();
        let n = other.len();
        for i in 0..n
            invariant
                n == all.len(),
                all == other.items(),
                self@ == old(self)@.union(all.take(i as int).to_set()),
        {
            self.insert(other.item_at(i).to_owned());
            proof {
                assert(all.take(i + 1) =~= all.take(i as int).push(all[i as int]));
                all.take(i as int).lemma_push_to_set_commute(all[i as int]);
                assert(self@ =~= old(self)@.union(all.take(i + 1).to_set()));
            }
        }
        proof {
            other.lemma_items();
            assert(all.take(n as int) =~= all);
        }
    }

    /// The members that `other` has too.
    pub fn intersection(&self, other: &NameSet) -> (r: NameSet)
        ensures
            r@ == self@.intersect(other@),
    {
        let ghost all = self.items();
        let n = self.len();
        let mut r = NameSet::new();
        assert(r@ =~= all.take(0).to_set().intersect(other@));
        for i in 0..n
            invariant
                n == all.len(),
                all == self.items(),
                r@ == all.take(i as int).to_set().intersect(other@),
        {
            let item = self.item_at(i);
            if other.contains(item) {
                r.insert(item.to_owned());
            }
            proof {
                assert(all.take(i + 1) =~= all.take(i as int).push(all[i as int]));
                all.take(i as int).lemma_push_to_set_commute(all[i as int]);
                assert(r@ =~= all.take(i + 1).to_set().intersect(other@));
            }
        }
        proof {
            self.lemma_items();
            assert(all.take(n as int) =~= all);
        }
        r
    }

    /// Whether the two sets have the same members.
    pub fn same(&self, other: &NameSet) -> (r: bool)
        ensures
            r == (self@ == other@),
    {
        let n = self.len();
        let m = other.len();
        proof {
            self.lemma_items();
            other.lemma_items();
        }
        if n != m {
            return false;
        }
        for i in 0..n
            invariant
                n == self.items().len(),
                forall|x: Seq<char>| #[trigger] self@.contains(x) <==> self.items().contains(x),
                forall|j: int| 0 <= j < i ==> other@.contains(#[trigger] self.items()[j]),
        {
            if !other.contains(self.item_at(i)) {
                return false;
            }
        }
        proof {
            assert(self@.subset_of(other@));
            vstd::set_lib::lemma_subset_equality(self@, other@);
        }
        true
    }
}

} // verus!
