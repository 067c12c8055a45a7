//! Combining artifacts.
//!
//! One module can be compiled into several libraries, so several caches may hold a record
//! of it. Here those records become one. Nothing here resolves anything: a merge answers
//! what the caches jointly say, not what is safe.
use vstd::prelude::*;

use crate::artifact::absorb_names;
use crate::artifact::base_views;
use crate::artifact::callee_views;
use crate::artifact::CachedExports;
use crate::artifact::CachedModule;
use crate::artifact::CachedModuleSafety;
use crate::artifact::CachedReExport;
use crate::artifact::CachedSafety;
use crate::artifact::CacheView;
use crate::artifact::CalleesView;
use crate::artifact::ConstructorCallees;
use crate::artifact::FindingsView;
use crate::artifact::LibraryCache;
use crate::artifact::ModuleView;
use crate::artifact::NameList;
use crate::artifact::ReExportView;
use crate::artifact::SafetyView;
use crate::errors::CachedError;
use crate::errors::ErrorView;
use crate::names::absorb;
use crate::names::lemma_absorb;
use crate::names::lemma_views_push;
use crate::names::views;
use crate::names::ModuleName;
use crate::names::NameMap;
use crate::names::NameSet;
use crate::order::in_order;
use crate::order::is_sorted;
use crate::order::is_strictly_sorted;
use crate::order::lemma_in_order_members;
use crate::order::lemma_with_key_members;
use crate::order::sort_dedup;
use crate::order::with_key;
use crate::order::SortKey;
use crate::parallel::join_in_parallel;
use crate::parallel::map_in_parallel;
use crate::parallel::sort_modules_by_name;
use crate::safety::lemma_join;
use crate::safety::FunctionSafetyInfo;
use crate::safety::MutationCandidate;
use crate::safety::SafetyFacts;
use crate::text::is_text_before;
use crate::text::lemma_text_before_irreflexive;
use crate::text::lemma_text_before_total;
use crate::text::lemma_text_before_transitive;
use crate::text::text_before;

verus! {

/// The errors of both sides, each once, in order.
pub open spec fn merged_errors(a: Seq<ErrorView>, b: Seq<ErrorView>) -> Seq<ErrorView> {
    in_order::<CachedError>(a.to_set().union(b.to_set()))
}

/// The more conservative of two outcomes: a failed analysis stands; of two that went
/// through, everything that either found.
pub open spec fn merged_safety(a: SafetyView, b: SafetyView) -> SafetyView {
    match (a, b) {
        (SafetyView::AnalysisError { .. }, _) => a,
        (_, SafetyView::AnalysisError { .. }) => b,
        (SafetyView::Analyzed(x), SafetyView::Analyzed(y)) => SafetyView::Analyzed(
            FindingsView {
                errors: merged_errors(x.errors, y.errors),
                overrides: merged_errors(x.overrides, y.overrides),
                implicit_imports: in_order::<ModuleName>(
                    x.implicit_imports.to_set().union(y.implicit_imports.to_set()),
                ),
            },
        ),
    }
}

/// The verdicts of both sides, joined where both have one.
pub open spec fn merged_verdicts(
    a: Map<Seq<char>, SafetyFacts>,
    b: Map<Seq<char>, SafetyFacts>,
) -> Map<Seq<char>, SafetyFacts> {
    Map::new(
        |name: Seq<char>| a.contains_key(name) || b.contains_key(name),
        |name: Seq<char>|
            if !a.contains_key(name) {
                b[name]
            } else if !b.contains_key(name) {
                a[name]
            } else {
                a[name].join(b[name])
            },
    )
}

/// Two records of one module, made one. An import counts as missing only where both
/// records miss it.
pub open spec fn merged_module(a: ModuleView, b: ModuleView) -> ModuleView {
    ModuleView {
        name: a.name,
        safety: merged_safety(a.safety, b.safety),
        imports: a.imports.union(b.imports),
        missing_imports: a.missing_imports.intersect(b.missing_imports),
        ambiguous_imports: a.ambiguous_imports.union(b.ambiguous_imports),
        side_effect_imports: a.side_effect_imports.union(b.side_effect_imports),
        function_safety: merged_verdicts(a.function_safety, b.function_safety),
        mutation_candidates: absorb(a.mutation_candidates, b.mutation_candidates),
    }
}

/// The records of one module, merged from the first to the last.
pub open spec fn merge_all(records: Seq<ModuleView>) -> ModuleView
    decreases records.len(),
{
    if records.len() <= 1 {
        records[0]
    } else {
        merged_module(merge_all(records.drop_last()), records.last())
    }
}

/// Whether `modules` holds one record for each name of `all`, in the order of the names,
/// and each record is that name's records merged.
pub open spec fn is_coalesced(modules: Seq<ModuleView>, all: Seq<ModuleView>) -> bool {
    &&& is_strictly_sorted::<CachedModule>(modules)
    &&& forall|name: Seq<char>| #[trigger]
        with_key::<CachedModule>(modules, name) == {
            let records = with_key::<CachedModule>(all, name);
            if records.len() == 0 {
                records
            } else {
                seq![merge_all(records)]
            }
        }
}

impl SortKey for CachedModule {
    type Key = Seq<char>;

    open spec fn key(value: ModuleView) -> Seq<char> {
        value.name
    }

    open spec fn before(a: Seq<char>, b: Seq<char>) -> bool {
        text_before(a, b)
    }

    proof fn irreflexive(a: Seq<char>) {
        lemma_text_before_irreflexive(a);
    }

    proof fn transitive(a: Seq<char>, b: Seq<char>, c: Seq<char>) {
        lemma_text_before_transitive(a, b, c);
    }

    proof fn total(a: Seq<char>, b: Seq<char>) {
        lemma_text_before_total(a, b);
    }

    fn is_before(&self, other: &Self) -> (r: bool) {
        is_text_before(self.name.as_str(), other.name.as_str())
    }
}

/// Adds the errors of `other` to `target`, each once, in order.
pub fn merge_errors(target: &mut Vec<CachedError>, other: Vec<CachedError>)
    ensures
        views(final(target)@) == merged_errors(views(old(target)@), views(other@)),
{
    let ghost a = views(target@);
    let ghost b = views(other@);
    let mut all: Vec<CachedError> = Vec::new();
    std::mem::swap(target, &mut all);
    let mut other = other;
    all.append(&mut other);
    proof {
        assert(views(all@) =~= a + b);
        vstd::seq_lib::seq_to_set_distributes_over_add(a, b);
    }
    *target = sort_dedup(all);
}

impl CachedSafety {
    /// Takes over `other`, keeping the more conservative outcome.
    pub(crate) fn merge(&mut self, other: CachedSafety)
        ensures
            final(self)@ == merged_safety(old(self)@, other@),
    {
        let mut mine = CachedSafety::AnalysisError { message: String::new() };
        std::mem::swap(self, &mut mine);
        *self = match (mine, other) {
            (CachedSafety::AnalysisError { message }, _) => CachedSafety::AnalysisError { message },
            (_, CachedSafety::AnalysisError { message }) => CachedSafety::AnalysisError { message },
            (CachedSafety::Analyzed(a), CachedSafety::Analyzed(b)) => {
                let CachedModuleSafety {
                    mut errors,
                    mut force_imports_eager_overrides,
                    mut implicit_imports,
                } = a;
                let ghost x = views(implicit_imports@);
                let ghost y = views(b.implicit_imports@);
                merge_errors(&mut errors, b.errors);
                merge_errors(&mut force_imports_eager_overrides, b.force_imports_eager_overrides);
                let mut more = b.implicit_imports;
                implicit_imports.append(&mut more);
                proof {
                    assert(views(implicit_imports@) =~= x + y);
                    vstd::seq_lib::seq_to_set_distributes_over_add(x, y);
                }
                CachedSafety::Analyzed(
                    CachedModuleSafety {
                        errors,
                        force_imports_eager_overrides,
                        implicit_imports: sort_dedup(implicit_imports),
                    },
                )
            },
        };
    }
}

/// Joins `incoming` into the verdict on `attr`; tells whether the verdict changed.
pub fn merge_function_safety_entry_ref(
    fs: &mut NameMap<FunctionSafetyInfo>,
    attr: &str,
    incoming: &FunctionSafetyInfo,
) -> (changed: bool)
    ensures
        final(fs)@ == old(fs)@.insert(
            attr@,
            if old(fs)@.contains_key(attr@) {
                old(fs)@[attr@].join(incoming@)
            } else {
                incoming@
            },
        ),
        changed == (final(fs)@ != old(fs)@),
{
    let ghost before = fs@;
    let joined = match fs.get(attr) {
        Some(existing) => {
            let mut info = existing.clone();
            if !info.merge_ref(incoming) {
                assert(before.insert(attr@, before[attr@]) =~= before);
                return false;
            }
            info
        },
        None => incoming.clone(),
    };
    fs.insert(attr.to_owned(), joined);
    proof {
        if before.contains_key(attr@) {
            assert(fs@[attr@] != before[attr@]);
        } else {
            assert(fs@.contains_key(attr@));
        }
    }
    true
}

fn merge_verdicts(fs: &mut NameMap<FunctionSafetyInfo>, other: NameMap<FunctionSafetyInfo>)
    ensures
        final(fs)@ == merged_verdicts(old(fs)@, other@),
{
    let ghost a = fs@;
    let ghost b = other@;
    let mut rest = other;
    assert(b.restrict(b.dom().difference(rest@.dom())) =~= Map::<Seq<char>, SafetyFacts>::empty());
    assert(fs@ =~= merged_verdicts(a, Map::empty()));
    while rest.len() > 0
        invariant
            rest@.dom().subset_of(b.dom()),
            forall|k: Seq<char>| #[trigger] rest@.contains_key(k) ==> rest@[k] == b[k],
            fs@ == merged_verdicts(a, b.restrict(b.dom().difference(rest@.dom()))),
        decreases rest.keys().len(),
    {
        let ghost left = rest@;
        if let Some((name, info)) = rest.pop() {
            let ghost done = b.restrict(b.dom().difference(left.dom()));
            let ghost now = b.restrict(b.dom().difference(rest@.dom()));
            merge_function_safety_entry_ref(fs, name.as_str(), &info);
            proof {
                assert(left.contains_key(name@));
                assert(b.contains_key(name@));
                assert(now =~= done.insert(name@, info@));
                assert(!done.contains_key(name@));
                assert(fs@ =~= merged_verdicts(a, now));
            }
        }
    }
    proof {
        rest.lemma_keys();
        assert(b.restrict(b.dom().difference(rest@.dom())) =~= b);
    }
}

fn holds_candidate(candidates: &Vec<MutationCandidate>, candidate: &MutationCandidate) -> (r: bool)
    ensures
        r == views(candidates@).contains(candidate@),
{
    for i in 0..candidates.len()
        invariant
            forall|j: int| 0 <= j < i ==> (#[trigger] views(candidates@)[j]) != candidate@,
    {
        if candidates[i].same(candidate) {
            assert(views(candidates@)[i as int] == candidate@);
            return true;
        }
    }
    false
}

fn absorb_candidates(first: Vec<MutationCandidate>, second: Vec<MutationCandidate>) -> (r: Vec<
    MutationCandidate,
>)
    ensures
        views(r@) == absorb(views(first@), views(second@)),
{
    let ghost a = views(first@);
    let ghost b = views(second@);
    let mut r = first;
    for candidate in it: second
        invariant
            it.seq() == second@,
            b == views(second@),
            views(r@) == absorb(a, b.take(it.index() as int)),
    {
        proof {
            let i = it.index() as int;
            assert(b.take(i + 1).drop_last() =~= b.take(i));
            assert(b.take(i + 1).last() == candidate@);
            lemma_views_push(r@, candidate);
        }
        if !holds_candidate(&r, &candidate) {
            r.push(candidate);
        }
    }
    assert(b.take(b.len() as int) =~= b);
    r
}

impl CachedModule {
    /// Takes over another record of the same module.
    pub(crate) fn merge(&mut self, other: CachedModule)
        ensures
            final(self)@ == merged_module(old(self)@, other@),
    {
        self.imports.extend_with(&other.imports);
        self.missing_imports = self.missing_imports.intersection(&other.missing_imports);
        self.ambiguous_imports.extend_with(&other.ambiguous_imports);
        self.side_effect_imports.extend_with(&other.side_effect_imports);
        self.safety.merge(other.safety);
        merge_verdicts(&mut self.function_safety, other.function_safety);
        let mut candidates: Vec<MutationCandidate> = Vec::new();
        std::mem::swap(&mut self.mutation_candidates, &mut candidates);
        self.mutation_candidates = absorb_candidates(candidates, other.mutation_candidates);
    }
}

/// Each run of records with one name, merged.
pub open spec fn coalesce(records: Seq<ModuleView>) -> Seq<ModuleView>
    decreases records.len(),
{
    if records.len() == 0 {
        records
    } else {
        let r = coalesce(records.drop_last());
        let next = records.last();
        if r.len() > 0 && r.last().name == next.name {
            r.drop_last().push(merged_module(r.last(), next))
        } else {
            r.push(next)
        }
    }
}

impl LibraryCache {
    /// Merges each run of records with one name. Of records sorted by name, one is left for each.
    pub fn merge_duplicate_modules(modules: &mut Vec<CachedModule>)
        ensures
            views(final(modules)@) == coalesce(views(old(modules)@)),
            is_sorted::<CachedModule>(views(old(modules)@)) ==> is_coalesced(
                views(final(modules)@),
                views(old(modules)@),
            ),
    {
        let mut records: Vec<CachedModule> = Vec::new();
        std::mem::swap(modules, &mut records);
        let ghost all = views(records@);
        let mut merged: Vec<CachedModule> = Vec::new();
        assert(views(merged@) =~= coalesce(all.take(0)));
        for next in it: records
            invariant
                it.seq() == records@,
                all == views(records@),
                views(merged@) == coalesce(all.take(it.index() as int)),
        {
            let ghost before = merged@;
            let ghost i = it.index() as int;
            let ghost next_view = next@;
            proof {
                assert(all.take(i + 1).drop_last() =~= all.take(i));
                assert(all.take(i + 1).last() == next@);
            }
            let same_name = merged.len() > 0 && merged[merged.len() - 1].name.same(&next.name);
            if same_name {
                if let Some(last) = merged.pop() {
                    let mut last = last;
                    last.merge(next);
                    proof {
                        lemma_views_push(merged@, last);
                        assert(views(merged@) =~= views(before).drop_last());
                    }
                    merged.push(last);
                }
            } else {
                proof {
                    lemma_views_push(merged@, next);
                }
                merged.push(next);
            }
            assert(views(merged@) =~= coalesce(all.take(i + 1)));
        }
        assert(all.take(all.len() as int) =~= all);
        proof {
            if is_sorted::<CachedModule>(all) {
                lemma_coalesce(all);
            }
        }
        *modules = merged;
    }
}

/// Merging the runs of records sorted by name leaves one record for each name, in the order of
/// the names, which is that name's records merged.
pub proof fn lemma_coalesce(records: Seq<ModuleView>)
    requires
        is_sorted::<CachedModule>(records),
    ensures
        is_coalesced(coalesce(records), records),
        records.len() > 0 ==> coalesce(records).len() > 0 && coalesce(records).last().name
            == records.last().name,
    decreases records.len(),
{
    if records.len() == 0 {
    } else {
        let shorter = records.drop_last();
        let next = records.last();
        let n = next.name;
        assert forall|i: int, j: int|
            #![trigger shorter[i], shorter[j]]
            0 <= i < j < shorter.len() implies !text_before(shorter[j].name, shorter[i].name) by {
            assert(shorter[i] == records[i] && shorter[j] == records[j]);
        }
        lemma_coalesce(shorter);
        let r = coalesce(shorter);
        let result = coalesce(records);
        assert(records =~= shorter.push(next));
        if r.len() > 0 && r.last().name == n {
            let front = r.drop_last();
            let merged = merged_module(r.last(), next);
            assert(r =~= front.push(r.last()));
            assert(result == front.push(merged));
            assert forall|i: int, j: int|
                #![trigger result[i], result[j]]
                0 <= i < j < result.len() implies text_before(result[i].name, result[j].name) by {
                assert(result[i].name == r[i].name && result[j].name == r[j].name);
            }
            assert forall|name: Seq<char>| #[trigger]
                with_key::<CachedModule>(result, name) == {
                    let all = with_key::<CachedModule>(records, name);
                    if all.len() == 0 {
                        all
                    } else {
                        seq![merge_all(all)]
                    }
                } by {
                crate::order::lemma_with_key_push::<CachedModule>(front, merged, name);
                crate::order::lemma_with_key_push::<CachedModule>(front, r.last(), name);
                crate::order::lemma_with_key_push::<CachedModule>(shorter, next, name);
                let was = with_key::<CachedModule>(shorter, name);
                let held = with_key::<CachedModule>(front, name);
                if name == n {
                    assert(held.push(r.last()) == seq![merge_all(was)]);
                    assert(held.len() == 0);
                    assert(held.push(r.last())[0] == r.last());
                    assert(held.push(merged) =~= seq![merged]);
                    assert(was.push(next).drop_last() =~= was);
                }
            }
        } else {
            assert(result == r.push(next));
            if r.len() > 0 {
                assert(shorter.len() > 0);
                assert(records[records.len() - 2] == shorter.last());
                assert(!text_before(records[records.len() - 1].name, shorter.last().name));
                lemma_text_before_total(n, r.last().name);
            }
            assert forall|i: int, j: int|
                #![trigger result[i], result[j]]
                0 <= i < j < result.len() implies text_before(result[i].name, result[j].name) by {
                if j < r.len() {
                    assert(result[i] == r[i] && result[j] == r[j]);
                } else if i < r.len() - 1 {
                    assert(text_before(r[i].name, r[r.len() - 1].name));
                    lemma_text_before_transitive(r[i].name, r[r.len() - 1].name, n);
                }
            }
            crate::order::lemma_with_key_members::<CachedModule>(r, n);
            assert(with_key::<CachedModule>(r, n).len() == 0) by {
                if with_key::<CachedModule>(r, n).len() > 0 {
                    let i = choose|i: int| 0 <= i < r.len() && (#[trigger] r[i]).name == n;
                    assert(i < r.len() - 1);
                    assert(text_before(r[i].name, r[r.len() - 1].name));
                    lemma_text_before_transitive(n, r.last().name, n);
                    lemma_text_before_irreflexive(n);
                }
            }
            assert forall|name: Seq<char>| #[trigger]
                with_key::<CachedModule>(result, name) == {
                    let all = with_key::<CachedModule>(records, name);
                    if all.len() == 0 {
                        all
                    } else {
                        seq![merge_all(all)]
                    }
                } by {
                crate::order::lemma_with_key_push::<CachedModule>(r, next, name);
                crate::order::lemma_with_key_push::<CachedModule>(shorter, next, name);
                let was = with_key::<CachedModule>(shorter, name);
                assert(with_key::<CachedModule>(r, name) == if was.len() == 0 {
                    was
                } else {
                    seq![merge_all(was)]
                });
                if name == n {
                    assert(was.len() == 0);
                    assert(was.push(next) =~= seq![next]);
                    assert(with_key::<CachedModule>(r, n).push(next) =~= seq![next]);
                }
            }
        }
    }
}

/// Class facts, gathered as caches are consumed. No artifact holds them.
pub struct MergedClassFacts {
    /// Classes with the full names of their bases.
    pub class_bases: NameMap<NameList>,
    /// Classes with what runs when they are instantiated.
    pub constructor_callees: NameMap<ConstructorCallees>,
}

/// What a [`MergedClassFacts`] records.
pub struct ClassFactsView {
    pub class_bases: Map<Seq<char>, Seq<Seq<char>>>,
    pub constructor_callees: Map<Seq<char>, CalleesView>,
}

/// No fact about any class.
pub open spec fn no_class_facts() -> ClassFactsView {
    ClassFactsView { class_bases: Map::empty(), constructor_callees: Map::empty() }
}

impl View for MergedClassFacts {
    type V = ClassFactsView;

    open spec fn view(&self) -> ClassFactsView {
        ClassFactsView {
            class_bases: self.class_bases@,
            constructor_callees: self.constructor_callees@,
        }
    }
}

impl Default for MergedClassFacts {
    fn default() -> (r: Self)
        ensures
            r@ == no_class_facts(),
    {
        MergedClassFacts { class_bases: NameMap::new(), constructor_callees: NameMap::new() }
    }
}

/// The bases of each class, each library's list absorbed into what was known.
pub open spec fn folded_bases(
    known: Map<Seq<char>, Seq<Seq<char>>>,
    entries: Seq<(Seq<char>, Seq<Seq<char>>)>,
) -> Map<Seq<char>, Seq<Seq<char>>>
    decreases entries.len(),
{
    if entries.len() == 0 {
        known
    } else {
        let before = folded_bases(known, entries.drop_last());
        let (class, bases) = entries.last();
        let held = if before.contains_key(class) {
            before[class]
        } else {
            Seq::empty()
        };
        before.insert(class, absorb(held, bases))
    }
}

/// The constructor callees of each class, united over the libraries. A class for which
/// nothing is recorded has no entry.
pub open spec fn folded_callees(
    known: Map<Seq<char>, CalleesView>,
    entries: Seq<(Seq<char>, CalleesView)>,
) -> Map<Seq<char>, CalleesView>
    decreases entries.len(),
{
    if entries.len() == 0 {
        known
    } else {
        let before = folded_callees(known, entries.drop_last());
        let (class, recorded) = entries.last();
        let united = if before.contains_key(class) {
            before[class].merged_with(recorded)
        } else {
            recorded
        };
        if united.is_empty() {
            before.remove(class)
        } else {
            before.insert(class, united)
        }
    }
}

/// Folds one library's classes and their bases into a lookup map. A class of several
/// libraries has the bases of all, in the order in which they were first seen.
pub fn fold_fqn_lists(
    merged: &mut NameMap<NameList>,
    entries: Vec<(ModuleName, Vec<ModuleName>)>,
)
    ensures
        final(merged)@ == folded_bases(old(merged)@, base_views(entries@)),
{
    let ghost known = merged@;
    let ghost all = base_views(entries@);
    for entry in it: entries
        invariant
            it.seq() == entries@,
            all == base_views(entries@),
            merged@ == folded_bases(known, all.take(it.index() as int)),
    {
        let ghost before = merged@;
        let ghost i = it.index() as int;
        proof {
            assert(all.take(i + 1).drop_last() =~= all.take(i));
            assert(all.take(i + 1).last() == (entry.0@, views(entry.1@)));
        }
        let (class_fqn, bases) = entry;
        let held = match merged.insert(class_fqn.to_text(), NameList { names: Vec::new() }) {
            Some(list) => list.names,
            None => Vec::new(),
        };
        proof {
            if !before.contains_key(class_fqn@) {
                assert(views(held@) =~= Seq::<Seq<char>>::empty());
            }
        }
        let names = absorb_names(held, bases);
        merged.insert(class_fqn.to_text(), NameList { names });
        assert(merged@ =~= folded_bases(known, all.take(i + 1)));
    }
    assert(all.take(all.len() as int) =~= all);
}

/// Folds one library's constructor callees into a lookup map, uniting the callees of a
/// class of several libraries.
pub fn fold_constructor_callees(
    merged: &mut NameMap<ConstructorCallees>,
    entries: Vec<(ModuleName, ConstructorCallees)>,
)
    ensures
        final(merged)@ == folded_callees(old(merged)@, callee_views(entries@)),
{
    let ghost known = merged@;
    let ghost all = callee_views(entries@);
    for entry in it: entries
        invariant
            it.seq() == entries@,
            all == callee_views(entries@),
            merged@ == folded_callees(known, all.take(it.index() as int)),
    {
        let ghost before = merged@;
        let ghost i = it.index() as int;
        proof {
            assert(all.take(i + 1).drop_last() =~= all.take(i));
            assert(all.take(i + 1).last() == (entry.0@, entry.1@));
        }
        let (class_fqn, recorded) = entry;
        let held = merged.insert(class_fqn.to_text(), ConstructorCallees::default());
        let united = match held {
            Some(held) => held.merged_with(recorded),
            None => recorded,
        };
        if united.is_empty() {
            merged.remove(class_fqn.as_str());
        } else {
            merged.insert(class_fqn.to_text(), united);
        }
        assert(merged@ =~= folded_callees(known, all.take(i + 1)));
    }
    assert(all.take(all.len() as int) =~= all);
}

/// Keeps the first of each implicit import.
pub fn dedupe_implicit_imports(implicit_imports: &mut Vec<ModuleName>)
    ensures
        views(final(implicit_imports)@) == absorb(Seq::empty(), views(old(implicit_imports)@)),
{
    let mut all: Vec<ModuleName> = Vec::new();
    std::mem::swap(implicit_imports, &mut all);
    let ghost names = views(all@);
    let mut seen = NameSet::new();
    let mut kept: Vec<ModuleName> = Vec::new();
    assert(views(kept@) =~= Seq::<Seq<char>>::empty());
    assert(seen@ =~= views(kept@).to_set());
    for name in it: all
        invariant
            it.seq() == all@,
            names == views(all@),
            seen@ == views(kept@).to_set(),
            views(kept@) == absorb(Seq::empty(), names.take(it.index() as int)),
    {
        let ghost before = kept@;
        proof {
            let i = it.index() as int;
            assert(names.take(i + 1).drop_last() =~= names.take(i));
            assert(names.take(i + 1).last() == name@);
            lemma_views_push(before, name);
            views(before).lemma_push_to_set_commute(name@);
        }
        if seen.insert(name.to_text()) {
            kept.push(name);
        } else {
            assert(seen@ =~= views(before).to_set());
        }
    }
    assert(names.take(names.len() as int) =~= names);
    *implicit_imports = kept;
}

/// The items that are not marked.
pub open spec fn unmarked<A>(items: Seq<A>, marks: Seq<bool>) -> Seq<A>
    decreases items.len(),
{
    if items.len() == 0 {
        items
    } else {
        let r = unmarked(items.drop_last(), marks.drop_last());
        if marks.last() {
            r
        } else {
            r.push(items.last())
        }
    }
}

/// Whether `marks` marks the errors that may hang on a missing import and that `f` calls
/// verified.
pub open spec fn marks_verified<F: Fn(&CachedError) -> bool>(
    f: F,
    errors: Seq<CachedError>,
    marks: Seq<bool>,
) -> bool {
    &&& marks.len() == errors.len()
    &&& forall|i: int|
        0 <= i < errors.len() ==> if (#[trigger] marks[i]) {
            errors[i].kind.hangs_on_import() && call_ensures(f, (&errors[i],), true)
        } else {
            !errors[i].kind.hangs_on_import() || call_ensures(f, (&errors[i],), false)
        }
}

/// Drops the errors that `is_verified_safe` confirms, of those that a missing import could
/// have caused. Tells whether any error was dropped.
pub fn retain_unverified_errors<F: Fn(&CachedError) -> bool>(
    safety: &mut CachedModuleSafety,
    is_verified_safe: F,
) -> (dropped: bool)
    requires
        forall|error: &CachedError| call_requires(is_verified_safe, (error,)),
    ensures
        exists|marks: Seq<bool>| #[trigger]
            marks_verified(is_verified_safe, old(safety).errors@, marks) && final(safety).errors@
                == unmarked(old(safety).errors@, marks),
        final(safety).force_imports_eager_overrides == old(safety).force_imports_eager_overrides,
        final(safety).implicit_imports == old(safety).implicit_imports,
        dropped == (final(safety).errors@.len() < old(safety).errors@.len()),
{
    let mut errors: Vec<CachedError> = Vec::new();
    std::mem::swap(&mut safety.errors, &mut errors);
    let ghost all = errors@;
    let before = errors.len();
    let mut kept: Vec<CachedError> = Vec::new();
    let ghost mut marks: Seq<bool> = Seq::empty();
    assert(unmarked(all.take(0), marks) =~= kept@);
    for error in it: errors
        invariant
            it.seq() == all,
            forall|error: &CachedError| call_requires(is_verified_safe, (error,)),
            marks_verified(is_verified_safe, all.take(it.index() as int), marks),
            kept@ == unmarked(all.take(it.index() as int), marks),
    {
        let ghost i = it.index() as int;
        let ghost was = marks;
        let verified = error.kind.could_be_caused_by_missing_import() && is_verified_safe(&error);
        proof {
            marks = marks.push(verified);
            assert(all.take(i + 1).drop_last() =~= all.take(i));
            assert(all.take(i + 1).last() == error);
            assert(marks.drop_last() =~= was);
            assert forall|j: int| 0 <= j < i + 1 implies if (#[trigger] marks[j]) {
                all[j].kind.hangs_on_import() && call_ensures(is_verified_safe, (&all[j],), true)
            } else {
                !all[j].kind.hangs_on_import() || call_ensures(is_verified_safe, (&all[j],), false)
            } by {
                if j < i {
                    assert(marks[j] == was[j]);
                    assert(all.take(i)[j] == all[j]);
                }
            }
        }
        if !verified {
            kept.push(error);
        }
    }
    assert(all.take(all.len() as int) =~= all);
    safety.errors = kept;
    safety.errors.len() < before
}

/// Whether `re_exports` holds one under the name `module`.`attr`.
pub open spec fn is_exported(
    re_exports: Seq<ReExportView>,
    module: Seq<char>,
    attr: Seq<char>,
) -> bool {
    exists|i: int|
        0 <= i < re_exports.len() && (#[trigger] re_exports[i]).exported_module == module
            && re_exports[i].exported_attr == attr
}

/// The first re-export under each name.
pub open spec fn first_exports(re_exports: Seq<ReExportView>) -> Seq<ReExportView>
    decreases re_exports.len(),
{
    if re_exports.len() == 0 {
        re_exports
    } else {
        let r = first_exports(re_exports.drop_last());
        let next = re_exports.last();
        if is_exported(r, next.exported_module, next.exported_attr) {
            r
        } else {
            r.push(next)
        }
    }
}

/// Whether `attr` is noted under `module`.
spec fn is_noted(
    noted: Map<Seq<char>, Set<Seq<char>>>,
    module: Seq<char>,
    attr: Seq<char>,
) -> bool {
    noted.contains_key(module) && noted[module].contains(attr)
}

/// Notes `attr` under `module`; tells whether it is new.
fn note_export(noted: &mut NameMap<NameSet>, module: &ModuleName, attr: &String) -> (fresh: bool)
    ensures
        fresh == !is_noted(old(noted)@, module@, attr@),
        forall|m: Seq<char>, a: Seq<char>| #[trigger]
            is_noted(final(noted)@, m, a) <==> is_noted(old(noted)@, m, a) || (m == module@ && a
                == attr@),
{
    let mut attrs = match noted.insert(module.to_text(), NameSet::new()) {
        Some(attrs) => attrs,
        None => NameSet::new(),
    };
    let fresh = attrs.insert(attr.clone());
    noted.insert(module.to_text(), attrs);
    fresh
}

/// Keeps the first re-export under each name.
fn keep_first_exports(re_exports: Vec<CachedReExport>) -> (r: Vec<CachedReExport>)
    ensures
        views(r@) == first_exports(views(re_exports@)),
{
    let ghost all = views(re_exports@);
    let mut noted: NameMap<NameSet> = NameMap::new();
    let mut r: Vec<CachedReExport> = Vec::new();
    assert(views(r@) =~= first_exports(all.take(0)));
    for next in it: re_exports
        invariant
            it.seq() == re_exports@,
            all == views(re_exports@),
            views(r@) == first_exports(all.take(it.index() as int)),
            forall|m: Seq<char>, a: Seq<char>| #[trigger]
                is_noted(noted@, m, a) <==> is_exported(views(r@), m, a),
    {
        let ghost before = r@;
        let ghost next_view = next@;
        proof {
            let i = it.index() as int;
            assert(all.take(i + 1).drop_last() =~= all.take(i));
            assert(all.take(i + 1).last() == next@);
            lemma_views_push(before, next);
        }
        if note_export(&mut noted, &next.exported_module, &next.exported_attr) {
            r.push(next);
            proof {
                assert forall|m: Seq<char>, a: Seq<char>| #[trigger]
                    is_noted(noted@, m, a) <==> is_exported(views(r@), m, a) by {
                    if is_exported(views(before), m, a) {
                        let j = choose|j: int|
                            0 <= j < before.len() && (#[trigger] views(before)[j]).exported_module
                                == m && views(before)[j].exported_attr == a;
                        assert(views(r@)[j] == views(before)[j]);
                    }
                    assert(views(r@)[before.len() as int] == next_view);
                    if is_exported(views(r@), m, a) {
                        let j = choose|j: int|
                            0 <= j < r@.len() && (#[trigger] views(r@)[j]).exported_module == m
                                && views(r@)[j].exported_attr == a;
                        if j < before.len() {
                            assert(views(before)[j] == views(r@)[j]);
                        }
                    }
                }
            }
        } else {
            assert(is_exported(
                views(r@),
                next_view.exported_module,
                next_view.exported_attr,
            ));
        }
    }
    assert(all.take(all.len() as int) =~= all);
    r
}

/// The modules of several caches, one cache after another.
pub open spec fn joined_modules(caches: Seq<CacheView>) -> Seq<ModuleView>
    decreases caches.len(),
{
    if caches.len() == 0 {
        Seq::empty()
    } else {
        joined_modules(caches.drop_last()) + caches.last().modules
    }
}

/// The re-exports of several caches, one cache after another.
pub open spec fn joined_re_exports(caches: Seq<CacheView>) -> Seq<ReExportView>
    decreases caches.len(),
{
    if caches.len() == 0 {
        Seq::empty()
    } else {
        joined_re_exports(caches.drop_last()) + caches.last().re_exports
    }
}

/// The class facts of several caches, folded one after another.
pub open spec fn joined_class_facts(caches: Seq<CacheView>) -> ClassFactsView
    decreases caches.len(),
{
    if caches.len() == 0 {
        no_class_facts()
    } else {
        let before = joined_class_facts(caches.drop_last());
        ClassFactsView {
            class_bases: folded_bases(before.class_bases, caches.last().class_bases),
            constructor_callees: folded_callees(
                before.constructor_callees,
                caches.last().constructor_callees,
            ),
        }
    }
}

/// The re-exports of several batches, one batch after another.
spec fn joined_batches(batches: Seq<Seq<ReExportView>>) -> Seq<ReExportView>
    decreases batches.len(),
{
    if batches.len() == 0 {
        Seq::empty()
    } else {
        joined_batches(batches.drop_last()) + batches.last()
    }
}

proof fn lemma_joined_batches(own: Seq<ReExportView>, caches: Seq<CacheView>)
    ensures
        joined_batches(seq![own] + caches.map_values(|cache: CacheView| cache.re_exports)) == own
            + joined_re_exports(caches),
    decreases caches.len(),
{
    let batch_of = |cache: CacheView| cache.re_exports;
    let batches = seq![own] + caches.map_values(batch_of);
    if caches.len() == 0 {
        assert(batches.drop_last() =~= Seq::<Seq<ReExportView>>::empty());
        assert(joined_batches(batches.drop_last()) =~= Seq::<ReExportView>::empty());
        assert(joined_batches(batches) =~= own + joined_re_exports(caches));
    } else {
        let shorter = caches.drop_last();
        lemma_joined_batches(own, shorter);
        assert(batches.drop_last() =~= seq![own] + shorter.map_values(batch_of));
        assert(batches.last() == caches.last().re_exports);
        assert(own + joined_re_exports(shorter) + caches.last().re_exports =~= own
            + joined_re_exports(caches));
    }
}

proof fn lemma_distinct_exports_stay(re_exports: Seq<ReExportView>)
    requires
        forall|i: int, j: int|
            #![trigger re_exports[i], re_exports[j]]
            0 <= i < j < re_exports.len() ==> !(re_exports[i].exported_module
                == re_exports[j].exported_module && re_exports[i].exported_attr
                == re_exports[j].exported_attr),
    ensures
        first_exports(re_exports) == re_exports,
    decreases re_exports.len(),
{
    if re_exports.len() > 0 {
        let shorter = re_exports.drop_last();
        let next = re_exports.last();
        assert forall|i: int, j: int|
            #![trigger shorter[i], shorter[j]]
            0 <= i < j < shorter.len() implies !(shorter[i].exported_module
            == shorter[j].exported_module && shorter[i].exported_attr
            == shorter[j].exported_attr) by {
            assert(shorter[i] == re_exports[i] && shorter[j] == re_exports[j]);
        }
        lemma_distinct_exports_stay(shorter);
        assert(!is_exported(shorter, next.exported_module, next.exported_attr)) by {
            if is_exported(shorter, next.exported_module, next.exported_attr) {
                let i = choose|i: int|
                    0 <= i < shorter.len() && (#[trigger] shorter[i]).exported_module
                        == next.exported_module && shorter[i].exported_attr == next.exported_attr;
                assert(re_exports[i] == shorter[i]);
                assert(re_exports[re_exports.len() - 1] == next);
            }
        }
        assert(shorter.push(next) =~= re_exports);
    }
}

/// Dropping repeated names from what comes first loses nothing.
proof fn lemma_first_exports_of_front(a: Seq<ReExportView>, b: Seq<ReExportView>)
    ensures
        first_exports(first_exports(a) + b) == first_exports(a + b),
    decreases b.len(),
{
    if b.len() == 0 {
        lemma_first_exports(a);
        lemma_distinct_exports_stay(first_exports(a));
        assert(first_exports(a) + b =~= first_exports(a));
        assert(a + b =~= a);
    } else {
        lemma_first_exports_of_front(a, b.drop_last());
        assert((first_exports(a) + b).drop_last() =~= first_exports(a) + b.drop_last());
        assert((a + b).drop_last() =~= a + b.drop_last());
        assert((first_exports(a) + b).last() == (a + b).last());
    }
}

/// Dropping repeated names from what comes last loses nothing.
proof fn lemma_first_exports_of_back(a: Seq<ReExportView>, b: Seq<ReExportView>)
    ensures
        first_exports(a + first_exports(b)) == first_exports(a + b),
    decreases b.len(),
{
    if b.len() > 0 {
        let shorter = b.drop_last();
        let next = b.last();
        lemma_first_exports_of_back(a, shorter);
        let kept = first_exports(shorter);
        let module = next.exported_module;
        let attr = next.exported_attr;
        assert((a + b).drop_last() =~= a + shorter);
        assert((a + b).last() == next);
        if is_exported(kept, module, attr) {
            lemma_first_exports(shorter);
            lemma_first_exports(a + shorter);
            assert(is_exported(shorter, module, attr));
            let i = choose|i: int|
                0 <= i < shorter.len() && (#[trigger] shorter[i]).exported_module == module
                    && shorter[i].exported_attr == attr;
            assert((a + shorter)[a.len() + i] == shorter[i]);
            assert(is_exported(a + shorter, module, attr));
        } else {
            let longer = a + kept.push(next);
            assert(longer.drop_last() =~= a + kept);
            assert(longer.last() == next);
        }
    }
}

/// Drops repeated names from each batch in parallel, then from all batches together.
fn keep_first_exports_of(batches: Vec<Vec<CachedReExport>>) -> (r: Vec<CachedReExport>)
    ensures
        views(r@) == first_exports(
            joined_batches(batch_views(batches@)),
        ),
{
    let ghost all = batch_views(batches@);
    let dedupe = |batch: Vec<CachedReExport>| -> (r: Vec<CachedReExport>)
        ensures
            views(r@) == first_exports(views(batch@)),
        { keep_first_exports(batch) };
    let deduped = map_in_parallel(batches, dedupe);
    let mut r: Vec<CachedReExport> = Vec::new();
    assert(views(r@) =~= joined_batches(all.take(0)));
    for batch in it: deduped
        invariant
            it.seq() == deduped@,
            deduped@.len() == all.len(),
            forall|i: int|
                0 <= i < all.len() ==> views((#[trigger] deduped@[i])@) == first_exports(all[i]),
            first_exports(views(r@)) == first_exports(joined_batches(all.take(it.index() as int))),
    {
        let ghost i = it.index() as int;
        let ghost before = views(r@);
        let ghost more = views(batch@);
        assert(deduped@[i] == batch);
        let mut batch = batch;
        r.append(&mut batch);
        proof {
            assert(views(r@) =~= before + more);
            assert(all.take(i + 1).drop_last() =~= all.take(i));
            assert(all.take(i + 1).last() == all[i]);
            let done = joined_batches(all.take(i));
            lemma_first_exports_of_back(before, all[i]);
            lemma_first_exports_of_front(before, all[i]);
            lemma_first_exports_of_front(done, all[i]);
        }
    }
    assert(all.take(all.len() as int) =~= all);
    keep_first_exports(r)
}

/// Sorts the records by name and makes those of one name one.
fn coalesce_modules(modules: Vec<CachedModule>) -> (r: Vec<CachedModule>)
    ensures
        is_coalesced(views(r@), views(modules@)),
{
    let ghost all = views(modules@);
    let mut r = modules;
    sort_modules_by_name(&mut r);
    let ghost sorted = views(r@);
    LibraryCache::merge_duplicate_modules(&mut r);
    proof {
        assert forall|name: Seq<char>| #[trigger]
            with_key::<CachedModule>(views(r@), name) == {
                let records = with_key::<CachedModule>(all, name);
                if records.len() == 0 {
                    records
                } else {
                    seq![merge_all(records)]
                }
            } by {
            assert(with_key::<CachedModule>(sorted, name) == with_key::<CachedModule>(all, name));
        }
    }
    r
}

impl LibraryCache {
    /// Merges dependency caches into this one. A module of several caches gets one record:
    /// imports are united, an import is missing only where every record misses it, and the
    /// most conservative outcome of the analysis stands. The class facts of the
    /// dependencies are handed back.
    pub fn merge_dep_caches(&mut self, dep_caches: Vec<LibraryCache>) -> (merged: MergedClassFacts)
        ensures
            is_coalesced(
                final(self)@.modules,
                old(self)@.modules + joined_modules(views(dep_caches@)),
            ),
            final(self)@.re_exports == in_order::<CachedReExport>(
                first_exports(
                    old(self)@.re_exports + joined_re_exports(views(dep_caches@)),
                ).to_set(),
            ),
            final(self)@.class_bases == old(self)@.class_bases,
            final(self)@.constructor_callees == old(self)@.constructor_callees,
            merged@ == joined_class_facts(views(dep_caches@)),
    {
        let ghost deps = views(dep_caches@);
        let ghost modules0 = self@.modules;
        let ghost exports0 = self@.re_exports;
        let ghost batch_of = |cache: CacheView| cache.re_exports;
        let mut merged = MergedClassFacts::default();
        let mut modules: Vec<CachedModule> = Vec::new();
        std::mem::swap(&mut self.modules, &mut modules);
        let mut own_re_exports: Vec<CachedReExport> = Vec::new();
        std::mem::swap(&mut self.exports.re_exports, &mut own_re_exports);
        let mut batches: Vec<Vec<CachedReExport>> = Vec::new();
        batches.push(own_re_exports);
        proof {
            assert(modules0 + joined_modules(deps.take(0)) =~= modules0);
            assert(batch_views(batches@) =~= seq![exports0] + deps.take(0).map_values(batch_of));
        }
        for dep in it: dep_caches
            invariant
                it.seq() == dep_caches@,
                deps == views(dep_caches@),
                batch_of == (|cache: CacheView| cache.re_exports),
                views(modules@) == modules0 + joined_modules(deps.take(it.index() as int)),
                batch_views(batches@) == seq![exports0] + deps.take(it.index() as int).map_values(
                    batch_of,
                ),
                merged@ == joined_class_facts(deps.take(it.index() as int)),
        {
            let ghost i = it.index() as int;
            let ghost modules1 = modules@;
            let ghost batches1 = batches@;
            let ghost dep_view = dep@;
            proof {
                assert(deps.take(i + 1).drop_last() =~= deps.take(i));
                assert(deps.take(i + 1).last() == dep@);
            }
            let LibraryCache {
                modules: mut dep_modules,
                exports: dep_exports,
                class_bases,
                constructor_callees,
            } = dep;
            let ghost modules2 = dep_modules@;
            let ghost batch = dep_exports.re_exports@;
            modules.append(&mut dep_modules);
            batches.push(dep_exports.re_exports);
            fold_fqn_lists(&mut merged.class_bases, class_bases);
            fold_constructor_callees(&mut merged.constructor_callees, constructor_callees);
            proof {
                assert(views(modules@) =~= views(modules1) + views(modules2));
                assert(views(modules@) =~= modules0 + joined_modules(deps.take(i + 1)));
                assert(batch_views(batches@) =~= batch_views(batches1).push(views(batch)));
                assert(seq![exports0] + deps.take(i + 1).map_values(batch_of) =~= (seq![exports0]
                    + deps.take(i).map_values(batch_of)).push(dep_view.re_exports));
            }
        }
        proof {
            assert(deps.take(deps.len() as int) =~= deps);
            lemma_joined_batches(exports0, deps);
        }
        let ghost all = views(modules@);
        let exports = CachedExports { re_exports: keep_first_exports_of(batches) };
        let ghost kept = views(exports.re_exports@);
        let coalesce_all = move || -> (r: Vec<CachedModule>)
            ensures
                is_coalesced(views(r@), all),
            { coalesce_modules(modules) };
        let sort_exports = move || -> (r: CachedExports)
            ensures
                views(r.re_exports@) == in_order::<CachedReExport>(kept.to_set()),
            { sorted_exports(exports) };
        let (modules, exports) = join_in_parallel(coalesce_all, sort_exports);
        self.modules = modules;
        self.exports = exports;
        merged
    }
}

fn sorted_exports(exports: CachedExports) -> (r: CachedExports)
    ensures
        views(r.re_exports@) == in_order::<CachedReExport>(views(exports.re_exports@).to_set()),
{
    let mut r = exports;
    r.sort_and_dedup();
    r
}

/// The views of batches of re-exports.
spec fn batch_views(batches: Seq<Vec<CachedReExport>>) -> Seq<Seq<ReExportView>> {
    Seq::new(batches.len(), |i: int| views(batches[i]@))
}

/// A failed analysis on either side stands.
pub proof fn lemma_failed_analysis_stands(a: SafetyView, b: SafetyView)
    ensures
        merged_safety(a, b) is AnalysisError <==> a is AnalysisError || b is AnalysisError,
{
}

/// Of two analyses that went through, every error of either is kept, each once, in order, and
/// none is made up.
pub proof fn lemma_merged_errors(a: Seq<ErrorView>, b: Seq<ErrorView>)
    ensures
        is_strictly_sorted::<CachedError>(merged_errors(a, b)),
        forall|error: ErrorView| #[trigger]
            merged_errors(a, b).contains(error) <==> a.contains(error) || b.contains(error),
        merged_errors(a, b) == merged_errors(b, a),
{
    lemma_in_order_members::<CachedError>(a + b);
    assert((a + b).to_set() =~= a.to_set().union(b.to_set())) by {
        assert forall|error: ErrorView| #[trigger] (a + b).contains(error) <==> a.contains(error)
            || b.contains(error) by {
            lemma_add_contains(a, b, error);
        }
    }
    assert forall|error: ErrorView| #[trigger] merged_errors(a, b).contains(error) <==> a.contains(
        error,
    ) || b.contains(error) by {
        lemma_add_contains(a, b, error);
    }
    assert(a.to_set().union(b.to_set()) =~= b.to_set().union(a.to_set()));
}

proof fn lemma_add_contains<A>(a: Seq<A>, b: Seq<A>, value: A)
    ensures
        (a + b).contains(value) <==> a.contains(value) || b.contains(value),
{
    if a.contains(value) {
        assert((a + b)[a.index_of(value)] == value);
    }
    if b.contains(value) {
        assert((a + b)[a.len() + b.index_of(value)] == value);
    }
    if (a + b).contains(value) {
        let i = (a + b).index_of(value);
        if i < a.len() {
            assert(a[i] == value);
        } else {
            assert(b[i - a.len()] == value);
        }
    }
}

/// Which of two records is merged into the other matters in two things only: the order of the
/// mutation candidates, and the message where both analyses failed.
pub proof fn lemma_merge_order_of_records(a: ModuleView, b: ModuleView)
    requires
        a.name == b.name,
    ensures
        ({
            let x = merged_module(a, b);
            let y = merged_module(b, a);
            &&& x.name == y.name
            &&& !(a.safety is AnalysisError && b.safety is AnalysisError) ==> x.safety == y.safety
            &&& x.imports == y.imports
            &&& x.missing_imports == y.missing_imports
            &&& x.ambiguous_imports == y.ambiguous_imports
            &&& x.side_effect_imports == y.side_effect_imports
            &&& x.function_safety == y.function_safety
            &&& x.mutation_candidates.to_set() == y.mutation_candidates.to_set()
        }),
{
    let x = merged_module(a, b);
    let y = merged_module(b, a);
    assert(x.imports =~= y.imports);
    assert(x.missing_imports =~= y.missing_imports);
    assert(x.ambiguous_imports =~= y.ambiguous_imports);
    assert(x.side_effect_imports =~= y.side_effect_imports);
    if let (SafetyView::Analyzed(p), SafetyView::Analyzed(q)) = (a.safety, b.safety) {
        lemma_merged_errors(p.errors, q.errors);
        lemma_merged_errors(p.overrides, q.overrides);
        assert(p.implicit_imports.to_set().union(q.implicit_imports.to_set())
            =~= q.implicit_imports.to_set().union(p.implicit_imports.to_set()));
    }
    assert forall|name: Seq<char>| #[trigger] x.function_safety.contains_key(
        name,
    ) implies x.function_safety[name] == y.function_safety[name] by {
        if a.function_safety.contains_key(name) && b.function_safety.contains_key(name) {
            lemma_join(a.function_safety[name], b.function_safety[name]);
        }
    }
    assert(x.function_safety =~= y.function_safety);
    lemma_absorb(a.mutation_candidates, b.mutation_candidates);
    lemma_absorb(b.mutation_candidates, a.mutation_candidates);
    assert(x.mutation_candidates.to_set() =~= y.mutation_candidates.to_set());
}

/// Whether some entry gives `base` to `class`.
pub open spec fn gives_base(
    entries: Seq<(Seq<char>, Seq<Seq<char>>)>,
    class: Seq<char>,
    base: Seq<char>,
) -> bool {
    exists|i: int|
        0 <= i < entries.len() && (#[trigger] entries[i]).0 == class && entries[i].1.contains(base)
}

/// A class has a base exactly if it had it before or some entry gives it, and the bases that it
/// had stay in front, in their order.
pub proof fn lemma_folded_bases(
    known: Map<Seq<char>, Seq<Seq<char>>>,
    entries: Seq<(Seq<char>, Seq<Seq<char>>)>,
    class: Seq<char>,
    base: Seq<char>,
)
    ensures
        ({
            let folded = folded_bases(known, entries);
            let had = known.contains_key(class) && known[class].contains(base);
            let has = folded.contains_key(class) && folded[class].contains(base);
            &&& has <==> had || gives_base(entries, class, base)
            &&& folded.contains_key(class) <==> known.contains_key(class) || exists|i: int|
                0 <= i < entries.len() && (#[trigger] entries[i]).0 == class
            &&& known.contains_key(class) ==> known[class].is_prefix_of(folded[class])
        }),
    decreases entries.len(),
{
    if entries.len() > 0 {
        let shorter = entries.drop_last();
        let last = entries.last();
        lemma_folded_bases(known, shorter, class, base);
        let before = folded_bases(known, shorter);
        let folded = folded_bases(known, entries);
        let held = if before.contains_key(last.0) {
            before[last.0]
        } else {
            Seq::empty()
        };
        lemma_absorb(held, last.1);
        assert(entries[entries.len() - 1] == last);
        assert forall|i: int| 0 <= i < shorter.len() implies #[trigger] shorter[i]
            == entries[i] by {}
        if gives_base(shorter, class, base) {
            let i = choose|i: int|
                0 <= i < shorter.len() && (#[trigger] shorter[i]).0 == class
                    && shorter[i].1.contains(base);
            assert(entries[i] == shorter[i]);
            assert(gives_base(entries, class, base));
        }
        if gives_base(entries, class, base) && !gives_base(shorter, class, base) {
            let i = choose|i: int|
                0 <= i < entries.len() && (#[trigger] entries[i]).0 == class
                    && entries[i].1.contains(base);
            if i < shorter.len() {
                assert(shorter[i] == entries[i]);
            }
            assert(i == entries.len() - 1);
        }
        if exists|i: int| 0 <= i < shorter.len() && (#[trigger] shorter[i]).0 == class {
            let i = choose|i: int| 0 <= i < shorter.len() && (#[trigger] shorter[i]).0 == class;
            assert(entries[i].0 == class);
        }
        if exists|i: int| 0 <= i < entries.len() && (#[trigger] entries[i]).0 == class {
            let i = choose|i: int| 0 <= i < entries.len() && (#[trigger] entries[i]).0 == class;
            if i < shorter.len() {
                assert(shorter[i].0 == class);
            }
        }
        if known.contains_key(class) && last.0 == class {
            assert(known[class].is_prefix_of(folded[class])) by {
                assert(known[class] =~= folded[class].take(known[class].len() as int));
            }
        }
    }
}

/// Which library is folded in first does not matter to the bases that a class has.
pub proof fn lemma_fold_order_of_libraries(
    known: Map<Seq<char>, Seq<Seq<char>>>,
    first: Seq<(Seq<char>, Seq<Seq<char>>)>,
    second: Seq<(Seq<char>, Seq<Seq<char>>)>,
    class: Seq<char>,
)
    ensures
        ({
            let x = folded_bases(folded_bases(known, first), second);
            let y = folded_bases(folded_bases(known, second), first);
            &&& x.contains_key(class) <==> y.contains_key(class)
            &&& x.contains_key(class) ==> x[class].to_set() == y[class].to_set()
        }),
{
    let x1 = folded_bases(known, first);
    let y1 = folded_bases(known, second);
    let x = folded_bases(x1, second);
    let y = folded_bases(y1, first);
    assert forall|base: Seq<char>|
        (x.contains_key(class) && #[trigger] x[class].contains(base)) == (y.contains_key(class)
            && y[class].contains(base)) by {
        lemma_folded_bases(known, first, class, base);
        lemma_folded_bases(x1, second, class, base);
        lemma_folded_bases(known, second, class, base);
        lemma_folded_bases(y1, first, class, base);
    }
    assert(x.contains_key(class) == y.contains_key(class)) by {
        let base = Seq::<char>::empty();
        lemma_folded_bases(known, first, class, base);
        lemma_folded_bases(x1, second, class, base);
        lemma_folded_bases(known, second, class, base);
        lemma_folded_bases(y1, first, class, base);
    }
    if x.contains_key(class) {
        assert(x[class].to_set() =~= y[class].to_set());
    }
}

/// Under each exported name one re-export is kept, the first, and no name is lost.
pub proof fn lemma_first_exports(re_exports: Seq<ReExportView>)
    ensures
        forall|module: Seq<char>, attr: Seq<char>| #[trigger]
            is_exported(first_exports(re_exports), module, attr) <==> is_exported(
                re_exports,
                module,
                attr,
            ),
        forall|i: int, j: int|
            #![trigger first_exports(re_exports)[i], first_exports(re_exports)[j]]
            0 <= i < j < first_exports(re_exports).len() ==> !(first_exports(
                re_exports,
            )[i].exported_module == first_exports(re_exports)[j].exported_module && first_exports(
                re_exports,
            )[i].exported_attr == first_exports(re_exports)[j].exported_attr),
    decreases re_exports.len(),
{
    if re_exports.len() > 0 {
        let shorter = re_exports.drop_last();
        let next = re_exports.last();
        lemma_first_exports(shorter);
        let r = first_exports(shorter);
        let after = first_exports(re_exports);
        assert forall|module: Seq<char>, attr: Seq<char>| #[trigger]
            is_exported(after, module, attr) <==> is_exported(re_exports, module, attr) by {
            assert(is_exported(r, module, attr) <==> is_exported(shorter, module, attr));
            lemma_exported_push(shorter, next, module, attr);
            assert(shorter.push(next) =~= re_exports);
            lemma_exported_push(r, next, module, attr);
        }
        assert forall|i: int, j: int|
            #![trigger after[i], after[j]]
            0 <= i < j < after.len() implies !(after[i].exported_module
            == after[j].exported_module && after[i].exported_attr == after[j].exported_attr) by {
            if j < r.len() {
                assert(after[i] == r[i] && after[j] == r[j]);
            } else {
                assert(after[i] == r[i] && after[j] == next);
                assert(!is_exported(r, next.exported_module, next.exported_attr));
            }
        }
    }
}

proof fn lemma_exported_push(
    re_exports: Seq<ReExportView>,
    next: ReExportView,
    module: Seq<char>,
    attr: Seq<char>,
)
    ensures
        is_exported(re_exports.push(next), module, attr) <==> is_exported(re_exports, module, attr)
            || (next.exported_module == module && next.exported_attr == attr),
{
    let longer = re_exports.push(next);
    if is_exported(re_exports, module, attr) {
        let i = choose|i: int|
            0 <= i < re_exports.len() && (#[trigger] re_exports[i]).exported_module == module
                && re_exports[i].exported_attr == attr;
        assert(longer[i] == re_exports[i]);
    }
    assert(longer[re_exports.len() as int] == next);
    if is_exported(longer, module, attr) {
        let i = choose|i: int|
            0 <= i < longer.len() && (#[trigger] longer[i]).exported_module == module
                && longer[i].exported_attr == attr;
        if i < re_exports.len() {
            assert(re_exports[i] == longer[i]);
        }
    }
}

/// A merge has one record for each name, and a name exactly if some cache has it.
pub proof fn lemma_coalesced_names(modules: Seq<ModuleView>, all: Seq<ModuleView>, name: Seq<char>)
    requires
        is_coalesced(modules, all),
    ensures
        with_key::<CachedModule>(modules, name).len() <= 1,
        (exists|i: int| 0 <= i < modules.len() && (#[trigger] modules[i]).name == name) <==> (exists|
            i: int,
        | 0 <= i < all.len() && (#[trigger] all[i]).name == name),
{
    lemma_with_key_members::<CachedModule>(modules, name);
    lemma_with_key_members::<CachedModule>(all, name);
    if exists|i: int| 0 <= i < modules.len() && (#[trigger] modules[i]).name == name {
        let i = choose|i: int| 0 <= i < modules.len() && (#[trigger] modules[i]).name == name;
        assert(CachedModule::key(modules[i]) == name);
        let j = choose|j: int| 0 <= j < all.len() && CachedModule::key(#[trigger] all[j]) == name;
        assert(all[j].name == name);
    }
    if exists|i: int| 0 <= i < all.len() && (#[trigger] all[i]).name == name {
        let i = choose|i: int| 0 <= i < all.len() && (#[trigger] all[i]).name == name;
        assert(CachedModule::key(all[i]) == name);
        let j = choose|j: int|
            0 <= j < modules.len() && CachedModule::key(#[trigger] modules[j]) == name;
        assert(modules[j].name == name);
    }
}

/// Where the re-exports under one name are all the same, it does not matter which of them is
/// kept: together they say what all of them said.
pub proof fn lemma_any_duplicate_will_do(re_exports: Seq<ReExportView>)
    requires
        forall|i: int, j: int|
            #![trigger re_exports[i], re_exports[j]]
            0 <= i < re_exports.len() && 0 <= j < re_exports.len() && re_exports[i].exported_module
                == re_exports[j].exported_module && re_exports[i].exported_attr
                == re_exports[j].exported_attr ==> re_exports[i] == re_exports[j],
    ensures
        first_exports(re_exports).to_set() == re_exports.to_set(),
    decreases re_exports.len(),
{
    if re_exports.len() == 0 {
        assert(first_exports(re_exports) =~= re_exports);
    } else {
        let shorter = re_exports.drop_last();
        let next = re_exports.last();
        assert forall|i: int, j: int|
            #![trigger shorter[i], shorter[j]]
            0 <= i < shorter.len() && 0 <= j < shorter.len() && shorter[i].exported_module
                == shorter[j].exported_module && shorter[i].exported_attr
                == shorter[j].exported_attr implies shorter[i] == shorter[j] by {
            assert(shorter[i] == re_exports[i] && shorter[j] == re_exports[j]);
        }
        lemma_any_duplicate_will_do(shorter);
        let kept = first_exports(shorter);
        assert(shorter.push(next) =~= re_exports);
        shorter.lemma_push_to_set_commute(next);
        kept.lemma_push_to_set_commute(next);
        if is_exported(kept, next.exported_module, next.exported_attr) {
            let k = choose|k: int|
                0 <= k < kept.len() && (#[trigger] kept[k]).exported_module
                    == next.exported_module && kept[k].exported_attr == next.exported_attr;
            assert(kept.to_set().contains(kept[k]));
            assert(shorter.to_set().contains(kept[k]));
            let i = shorter.index_of(kept[k]);
            assert(re_exports[i] == kept[k]);
            assert(re_exports[re_exports.len() - 1] == next);
            assert(kept[k] == next);
            assert(shorter.to_set().insert(next) =~= shorter.to_set());
        }
    }
}

} // verus!
