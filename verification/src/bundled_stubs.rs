//! Putting the bundled standard library stubs back into a merged graph.
//!
//! A library's cache drops modules that only the stubs provide, so a merge of caches lacks the
//! import edges among them. They are put back as modules that have edges and nothing else.
use vstd::prelude::*;

use crate::artifact::empty_module;
use crate::artifact::module_names;
use crate::artifact::CachedModule;
use crate::artifact::CacheView;
use crate::artifact::LibraryCache;
use crate::artifact::ModuleView;
use crate::names::lemma_views_push;
use crate::names::views;
use crate::names::ModuleName;
use crate::names::NameSet;

verus! {

/// The edges of a module in an import graph.
pub struct GraphEdgeSets {
    pub imports: NameSet,
    pub missing_imports: NameSet,
    pub ambiguous_imports: NameSet,
}

/// A module that a bundled stub provides.
pub struct StubModule {
    pub name: ModuleName,
    pub edges: GraphEdgeSets,
}

/// What a [`StubModule`] records.
pub struct StubView {
    pub name: Seq<char>,
    pub imports: Set<Seq<char>>,
    pub missing_imports: Set<Seq<char>>,
    pub ambiguous_imports: Set<Seq<char>>,
}

impl View for StubModule {
    type V = StubView;

    open spec fn view(&self) -> StubView {
        StubView {
            name: self.name@,
            imports: self.edges.imports@,
            missing_imports: self.edges.missing_imports@,
            ambiguous_imports: self.edges.ambiguous_imports@,
        }
    }
}

/// The record of a module that has the stub's edges and nothing else.
pub open spec fn stub_record(stub: StubView) -> ModuleView {
    ModuleView {
        imports: stub.imports,
        missing_imports: stub.missing_imports,
        ambiguous_imports: stub.ambiguous_imports,
        ..empty_module(stub.name)
    }
}

/// The stubs that no library provides.
pub open spec fn stubs_to_add(stubs: Seq<StubView>, names: Set<Seq<char>>) -> Seq<StubView> {
    stubs.filter(|stub: StubView| !names.contains(stub.name))
}

/// The modules with those that only the stubs provide.
pub open spec fn with_stubs(modules: Seq<ModuleView>, stubs: Seq<StubView>) -> Seq<ModuleView> {
    modules + stubs_to_add(stubs, module_names(modules)).map_values(
        |stub: StubView| stub_record(stub),
    )
}

/// The names of the modules that only the stubs provide.
pub open spec fn added_stubs(modules: Seq<ModuleView>, stubs: Seq<StubView>) -> Set<Seq<char>> {
    stubs_to_add(stubs, module_names(modules)).map_values(|stub: StubView| stub.name).to_set()
}

/// Every record of a library stays as it was, in front, and no name of a library is taken for a
/// stub's.
pub proof fn lemma_libraries_go_before_stubs(modules: Seq<ModuleView>, stubs: Seq<StubView>)
    ensures
        modules.is_prefix_of(with_stubs(modules, stubs)),
        added_stubs(modules, stubs).disjoint(module_names(modules)),
{
    let names = module_names(modules);
    let fresh = |stub: StubView| !names.contains(stub.name);
    let more = stubs.filter(fresh);
    let added = more.map_values(|stub: StubView| stub.name);
    assert forall|name: Seq<char>| #[trigger] added_stubs(modules, stubs).contains(
        name,
    ) implies !names.contains(name) by {
        let i = added.index_of(name);
        assert(added[i] == name);
        stubs.lemma_filter_pred(fresh, i);
        assert(fresh(more[i]));
    }
    assert(modules =~= with_stubs(modules, stubs).take(modules.len() as int));
}

impl LibraryCache {
    /// Adds the modules that only the stubs provide, and hands back their names.
    pub fn inject_bundled_stub_graph(&mut self, stubs: Vec<StubModule>) -> (added: NameSet)
        ensures
            final(self)@ == (CacheView {
                modules: with_stubs(old(self)@.modules, views(stubs@)),
                ..old(self)@
            }),
            added@ == added_stubs(old(self)@.modules, views(stubs@)),
    {
        let existing = self.module_name_set();
        let ghost names = existing@;
        let ghost all = views(stubs@);
        let ghost before = self@.modules;
        let ghost record = |stub: StubView| stub_record(stub);
        let ghost name_of = |stub: StubView| stub.name;
        let ghost fresh = |stub: StubView| !names.contains(stub.name);
        let mut modules: Vec<CachedModule> = Vec::new();
        std::mem::swap(&mut self.modules, &mut modules);
        let mut added = NameSet::new();
        proof {
            reveal(Seq::filter);
            assert(stubs_to_add(all.take(0), names).map_values(record) =~= Seq::empty());
            assert(views(modules@) =~= before + stubs_to_add(all.take(0), names).map_values(
                record,
            ));
            assert(added@ =~= stubs_to_add(all.take(0), names).map_values(name_of).to_set());
        }
        for stub in it: stubs
            invariant
                it.seq() == stubs@,
                all == views(stubs@),
                names == existing@,
                record == (|stub: StubView| stub_record(stub)),
                name_of == (|stub: StubView| stub.name),
                fresh == (|stub: StubView| !names.contains(stub.name)),
                views(modules@) == before + stubs_to_add(
                    all.take(it.index() as int),
                    names,
                ).map_values(record),
                added@ == stubs_to_add(all.take(it.index() as int), names).map_values(
                    name_of,
                ).to_set(),
        {
            let ghost i = it.index() as int;
            let ghost sofar = stubs_to_add(all.take(i), names);
            proof {
                assert(all.take(i + 1) =~= all.take(i).push(stub@));
                all.take(i).lemma_filter_push(stub@, fresh);
            }
            if !existing.contains(stub.name.as_str()) {
                let ghost was = stub@;
                let ghost modules0 = modules@;
                let StubModule { name, edges } = stub;
                let mut module = CachedModule::empty(name.clone());
                module.imports = edges.imports;
                module.missing_imports = edges.missing_imports;
                module.ambiguous_imports = edges.ambiguous_imports;
                assert(module@ == stub_record(was));
                proof {
                    lemma_views_push(modules0, module);
                    assert(sofar.push(was).map_values(record) =~= sofar.map_values(record).push(
                        stub_record(was),
                    ));
                    assert(sofar.push(was).map_values(name_of) =~= sofar.map_values(name_of).push(
                        was.name,
                    ));
                    sofar.map_values(name_of).lemma_push_to_set_commute(was.name);
                    assert(before + sofar.push(was).map_values(record) =~= (before
                        + sofar.map_values(record)).push(stub_record(was)));
                }
                modules.push(module);
                added.insert(name.to_text());
            }
        }
        assert(all.take(all.len() as int) =~= all);
        self.modules = modules;
        added
    }
}

/// Where no two stubs share a name, as many modules are added as there are names.
pub proof fn lemma_stub_count(modules: Seq<ModuleView>, stubs: Seq<StubView>)
    requires
        stubs.map_values(|stub: StubView| stub.name).no_duplicates(),
    ensures
        with_stubs(modules, stubs).len() == modules.len() + added_stubs(modules, stubs).len(),
{
    let names = module_names(modules);
    let fresh = |stub: StubView| !names.contains(stub.name);
    let name_of = |stub: StubView| stub.name;
    lemma_filtered_names(stubs, fresh);
    stubs.filter(fresh).map_values(name_of).unique_seq_to_set();
}

proof fn lemma_filtered_names(stubs: Seq<StubView>, fresh: spec_fn(StubView) -> bool)
    requires
        stubs.map_values(|stub: StubView| stub.name).no_duplicates(),
    ensures
        stubs.filter(fresh).map_values(|stub: StubView| stub.name).no_duplicates(),
    decreases stubs.len(),
{
    reveal(Seq::filter);
    let name_of = |stub: StubView| stub.name;
    let all = stubs.map_values(name_of);
    if stubs.len() > 0 {
        let shorter = stubs.drop_last();
        let last = stubs.last();
        assert(shorter.map_values(name_of) =~= all.drop_last());
        lemma_filtered_names(shorter, fresh);
        let kept = shorter.filter(fresh);
        if fresh(last) {
            let r = kept.push(last).map_values(name_of);
            assert(r =~= kept.map_values(name_of).push(last.name));
            assert(!kept.map_values(name_of).contains(last.name)) by {
                if kept.map_values(name_of).contains(last.name) {
                    let i = kept.map_values(name_of).index_of(last.name);
                    assert(kept[i].name == last.name);
                    assert(kept.contains(kept[i]));
                    shorter.lemma_filter_contains_rev(fresh, kept[i]);
                    let j = shorter.index_of(kept[i]);
                    assert(shorter[j] == kept[i]);
                    assert(all[j] == last.name);
                    assert(all[stubs.len() - 1] == last.name);
                }
            }
        }
    }
}

} // verus!
