//! Laws of workspaces: what is merged into what, and what the stubs add.
use vstd::prelude::*;

use crate::artifact::module_names;
use crate::artifact::CacheView;
use crate::artifact::CachedReExport;
use crate::artifact::ModuleView;
use crate::artifact::ReExportView;
use crate::artifact::SafetyView;
use crate::bundled_stubs::added_stubs;
use crate::bundled_stubs::stub_record;
use crate::bundled_stubs::stubs_to_add;
use crate::bundled_stubs::with_stubs;
use crate::bundled_stubs::StubView;
use crate::errors::ErrorView;
use crate::findings::is_record_of;
use crate::fixer::TargetVersion;
use crate::laws::merging::every_record;
use crate::laws::merging::is_first_export;
use crate::laws::merging::lemma_coalesced_record;
use crate::laws::merging::lemma_first_exports_are_kept;
use crate::laws::merging::lemma_no_module_is_lost;
use crate::laws::merging::some_record;
use crate::laws::verdicts::lemma_module_names;
use crate::merge::first_exports;
use crate::merge::joined_modules;
use crate::merge::joined_re_exports;
use crate::merge::no_class_facts;
use crate::merge::ClassFactsView;
use crate::names::ModuleName;
use crate::order::lemma_in_order_members;
use crate::order::SortKey;
use crate::run_tree::named_version;
use crate::run_tree::RunTreeArgs;
use crate::text::text_before;
use crate::workspace::is_merge_of;
use crate::workspace::merge_order;
use crate::workspace::opened;

verus! {

/// Whether some module has the name.
pub open spec fn is_named(modules: Seq<ModuleView>, name: Seq<char>) -> bool {
    exists|i: int| 0 <= i < modules.len() && (#[trigger] modules[i]).name == name
}

/// The record of a stub has its name and its edges, and nothing is held against it.
pub proof fn lemma_stub_record(stub: StubView)
    ensures
        ({
            let module = stub_record(stub);
            &&& module.name == stub.name
            &&& module.imports == stub.imports
            &&& module.missing_imports == stub.missing_imports
            &&& module.ambiguous_imports == stub.ambiguous_imports
            &&& module.side_effect_imports.is_empty()
            &&& module.function_safety.dom().is_empty()
            &&& module.mutation_candidates.len() == 0
            &&& module.safety matches SafetyView::Analyzed(findings)
            &&& findings.errors.len() == 0
            &&& findings.overrides.len() == 0
            &&& findings.implicit_imports.len() == 0
        }),
{
}

/// A stub more is added behind the modules exactly if no library has a module of its name.
pub proof fn lemma_one_stub_more(
    modules: Seq<ModuleView>,
    stubs: Seq<StubView>,
    next: StubView,
    name: Seq<char>,
)
    ensures
        with_stubs(modules, Seq::empty()) == modules,
        is_named(modules, next.name) ==> with_stubs(modules, stubs.push(next)) == with_stubs(
            modules,
            stubs,
        ),
        !is_named(modules, next.name) ==> with_stubs(modules, stubs.push(next)) == with_stubs(
            modules,
            stubs,
        ).push(stub_record(next)),
        added_stubs(modules, Seq::empty()).is_empty(),
        added_stubs(modules, stubs.push(next)).contains(name) <==> added_stubs(
            modules,
            stubs,
        ).contains(name) || (name == next.name && !is_named(modules, name)),
{
    let names = module_names(modules);
    let pred = |stub: StubView| !names.contains(stub.name);
    let record = |stub: StubView| stub_record(stub);
    let name_of = |stub: StubView| stub.name;
    let none = Seq::<StubView>::empty();
    lemma_module_names(modules, next.name);
    reveal(Seq::filter);
    assert(stubs.push(next).drop_last() =~= stubs);
    assert(stubs_to_add(none, names) =~= none);
    assert(with_stubs(modules, none) =~= modules);
    let before = stubs_to_add(stubs, names);
    let after = stubs_to_add(stubs.push(next), names);
    assert(added_stubs(modules, none).is_empty()) by {
        assert(none.map_values(name_of) =~= Seq::<Seq<char>>::empty());
        assert(added_stubs(modules, none) =~= Set::<Seq<char>>::empty());
    }
    if is_named(modules, next.name) {
        assert(after == before);
    } else {
        assert(after == before.push(next));
        assert(after.map_values(record) =~= before.map_values(record).push(stub_record(next)));
        assert(with_stubs(modules, stubs.push(next)) =~= with_stubs(modules, stubs).push(
            stub_record(next),
        ));
        let a = before.map_values(name_of);
        let b = after.map_values(name_of);
        assert(b =~= a.push(next.name));
        if a.contains(name) {
            let i = a.index_of(name);
            assert(b[i] == name);
        }
        if name == next.name {
            assert(b[a.len() as int] == name);
        }
        if b.contains(name) {
            let i = b.index_of(name);
            assert(b[i] == name);
            if i < a.len() {
                assert(a[i] == name);
            }
        }
    }
}

/// A workspace has the modules of its cache in front of those of the stubs, and counts them; it
/// leaves the rest of the cache as it is.
pub proof fn lemma_opened(cache: CacheView, stubs: Seq<StubView>, merged: ClassFactsView, i: int)
    requires
        0 <= i < cache.modules.len(),
    ensures
        ({
            let workspace = opened(cache, stubs, merged);
            &&& workspace.cache.modules.len() >= cache.modules.len()
            &&& workspace.cache.modules[i] == cache.modules[i]
            &&& workspace.cache.modules == with_stubs(cache.modules, stubs)
            &&& workspace.graph_only_stubs == added_stubs(cache.modules, stubs)
            &&& workspace.artifact_module_count == cache.modules.len()
            &&& workspace.cache.re_exports == cache.re_exports
            &&& workspace.cache.class_bases == cache.class_bases
            &&& workspace.cache.constructor_callees == cache.constructor_callees
            &&& workspace.merged == merged
        }),
        no_class_facts().class_bases.dom().is_empty(),
        no_class_facts().constructor_callees.dom().is_empty(),
{
}

/// The caches behind the first are merged with the last of them in front, the others in their
/// order.
pub proof fn lemma_order_of_merging(caches: Seq<CacheView>, i: int)
    ensures
        caches.len() <= 1 ==> merge_order(caches).len() == 0,
        caches.len() > 1 ==> {
            &&& merge_order(caches).len() == caches.len() - 1
            &&& merge_order(caches)[0] == caches[caches.len() - 1]
            &&& 1 <= i < caches.len() - 1 ==> merge_order(caches)[i] == caches[i]
        },
{
}

/// Whether some record of the base or of a dependency is as `p` says.
pub open spec fn some_cached(
    base: CacheView,
    deps: Seq<CacheView>,
    p: spec_fn(ModuleView) -> bool,
) -> bool {
    some_record(base.modules, p) || exists|d: int|
        0 <= d < deps.len() && some_record((#[trigger] deps[d]).modules, p)
}

proof fn lemma_some_of_both(a: Seq<ModuleView>, b: Seq<ModuleView>, p: spec_fn(ModuleView) -> bool)
    ensures
        some_record(a + b, p) <==> some_record(a, p) || some_record(b, p),
{
    if some_record(a, p) {
        let i = choose|i: int| 0 <= i < a.len() && p(#[trigger] a[i]);
        assert((a + b)[i] == a[i]);
    }
    if some_record(b, p) {
        let i = choose|i: int| 0 <= i < b.len() && p(#[trigger] b[i]);
        assert((a + b)[a.len() + i] == b[i]);
    }
    if some_record(a + b, p) {
        let i = choose|i: int| 0 <= i < (a + b).len() && p(#[trigger] (a + b)[i]);
        if i < a.len() {
            assert(a[i] == (a + b)[i]);
        } else {
            assert(b[i - a.len()] == (a + b)[i]);
        }
    }
}

proof fn lemma_some_joined(deps: Seq<CacheView>, p: spec_fn(ModuleView) -> bool)
    ensures
        some_record(joined_modules(deps), p) <==> exists|d: int|
            0 <= d < deps.len() && some_record((#[trigger] deps[d]).modules, p),
    decreases deps.len(),
{
    if deps.len() > 0 {
        let shorter = deps.drop_last();
        let n = shorter.len() as int;
        lemma_some_joined(shorter, p);
        lemma_some_of_both(joined_modules(shorter), deps.last().modules, p);
        assert(deps[n] == deps.last());
        if exists|d: int| 0 <= d < deps.len() && some_record((#[trigger] deps[d]).modules, p) {
            let d = choose|d: int|
                0 <= d < deps.len() && some_record((#[trigger] deps[d]).modules, p);
            if d < n {
                assert(shorter[d] == deps[d]);
            }
        }
        if exists|d: int| 0 <= d < shorter.len() && some_record((#[trigger] shorter[d]).modules, p) {
            let d = choose|d: int|
                0 <= d < shorter.len() && some_record((#[trigger] shorter[d]).modules, p);
            assert(shorter[d] == deps[d]);
        }
    }
}

proof fn lemma_some_cached(base: CacheView, deps: Seq<CacheView>, p: spec_fn(ModuleView) -> bool)
    ensures
        some_cached(base, deps, p) <==> some_record(base.modules + joined_modules(deps), p),
{
    lemma_some_joined(deps, p);
    lemma_some_of_both(base.modules, joined_modules(deps), p);
}

/// A merge has a module exactly if the base or a dependency has it. The module imports what any
/// record of it imports, and misses what none of them does not miss.
pub proof fn lemma_merged_caches(
    merged: CacheView,
    base: CacheView,
    deps: Seq<CacheView>,
    k: int,
    name: Seq<char>,
    attr: Seq<char>,
    error: ErrorView,
)
    requires
        is_merge_of(merged, base, deps),
        0 <= k < merged.modules.len(),
    ensures
        is_named(merged.modules, name) <==> some_cached(
            base,
            deps,
            |r: ModuleView| r.name == name,
        ),
        ({
            let m = merged.modules[k];
            &&& m.imports.contains(name) <==> some_cached(
                base,
                deps,
                |r: ModuleView| r.name == m.name && r.imports.contains(name),
            )
            &&& m.ambiguous_imports.contains(name) <==> some_cached(
                base,
                deps,
                |r: ModuleView| r.name == m.name && r.ambiguous_imports.contains(name),
            )
            &&& m.side_effect_imports.contains(name) <==> some_cached(
                base,
                deps,
                |r: ModuleView| r.name == m.name && r.side_effect_imports.contains(name),
            )
            &&& m.missing_imports.contains(name) <==> !some_cached(
                base,
                deps,
                |r: ModuleView| r.name == m.name && !r.missing_imports.contains(name),
            )
            &&& forall|j: int|
                0 <= j < k ==> text_before((#[trigger] merged.modules[j]).name, m.name)
        }),
        merged.class_bases == base.class_bases,
        merged.constructor_callees == base.constructor_callees,
{
    let all = base.modules + joined_modules(deps);
    let m = merged.modules[k];
    lemma_coalesced_record(merged.modules, all, k, name, attr, error);
    let named = |r: ModuleView| r.name == name;
    lemma_some_cached(base, deps, named);
    lemma_some_cached(base, deps, |r: ModuleView| r.name == m.name && r.imports.contains(name));
    lemma_some_cached(
        base,
        deps,
        |r: ModuleView| r.name == m.name && r.ambiguous_imports.contains(name),
    );
    lemma_some_cached(
        base,
        deps,
        |r: ModuleView| r.name == m.name && r.side_effect_imports.contains(name),
    );
    let present = |r: ModuleView| r.name == m.name && !r.missing_imports.contains(name);
    let absent = |r: ModuleView| r.name == m.name ==> r.missing_imports.contains(name);
    lemma_some_cached(base, deps, present);
    assert(every_record(all, absent) <==> !some_record(all, present)) by {
        if every_record(all, absent) && some_record(all, present) {
            let i = choose|i: int| 0 <= i < all.len() && present(#[trigger] all[i]);
            assert(absent(all[i]));
        }
        if !some_record(all, present) {
            assert forall|i: int| 0 <= i < all.len() implies absent(#[trigger] all[i]) by {
                assert(!present(all[i]));
            }
        }
    }
    if some_record(all, named) {
        let i = choose|i: int| 0 <= i < all.len() && named(#[trigger] all[i]);
        lemma_no_module_is_lost(merged.modules, all, i);
        let p = |r: ModuleView| r.name == all[i].name;
        let j = choose|j: int| 0 <= j < merged.modules.len() && p(#[trigger] merged.modules[j]);
        assert(merged.modules[j].name == name);
    }
    if is_named(merged.modules, name) {
        let j = choose|j: int|
            0 <= j < merged.modules.len() && (#[trigger] merged.modules[j]).name == name;
        lemma_coalesced_record(merged.modules, all, j, name, attr, error);
        let p = |r: ModuleView| r.name == merged.modules[j].name;
        let i = choose|i: int| 0 <= i < all.len() && p(#[trigger] all[i]);
        assert(named(all[i]));
    }
}

/// A merge has each exported name once, as the first of the base and the dependencies exports it.
pub proof fn lemma_merged_exports(
    merged: CacheView,
    base: CacheView,
    deps: Seq<CacheView>,
    value: ReExportView,
)
    requires
        is_merge_of(merged, base, deps),
    ensures
        merged.re_exports.contains(value) <==> exists|p: int| #[trigger]
            is_first_export(base.re_exports + joined_re_exports(deps), p) && (base.re_exports
                + joined_re_exports(deps))[p] == value,
        forall|i: int, j: int|
            #![trigger merged.re_exports[i], merged.re_exports[j]]
            0 <= i < j < merged.re_exports.len() ==> {
                ||| text_before(
                    merged.re_exports[i].exported_module,
                    merged.re_exports[j].exported_module,
                )
                ||| merged.re_exports[i].exported_module == merged.re_exports[j].exported_module
                    && text_before(
                    merged.re_exports[i].exported_attr,
                    merged.re_exports[j].exported_attr,
                )
            },
{
    let all = base.re_exports + joined_re_exports(deps);
    let kept = first_exports(all);
    let r = merged.re_exports;
    lemma_first_exports_are_kept(all, value);
    lemma_in_order_members::<CachedReExport>(kept);
    assert(r.contains(value) <==> kept.contains(value));
    assert forall|i: int, j: int|
        #![trigger merged.re_exports[i], merged.re_exports[j]]
        0 <= i < j < r.len() implies {
        ||| text_before(r[i].exported_module, r[j].exported_module)
        ||| r[i].exported_module == r[j].exported_module && text_before(
            r[i].exported_attr,
            r[j].exported_attr,
        )
    } by {
        crate::laws::ordering::lemma_ordered_re_exports(kept, i, j);
        if r[i].exported_module == r[j].exported_module && r[i].exported_attr
            == r[j].exported_attr {
            assert(r.contains(r[i]) && r.contains(r[j]));
            lemma_first_exports_are_kept(all, r[i]);
            lemma_first_exports_are_kept(all, r[j]);
            let p = choose|p: int| #[trigger] is_first_export(all, p) && all[p] == r[i];
            let q = choose|q: int| #[trigger] is_first_export(all, q) && all[q] == r[j];
            if p < q {
                assert(all[p] == r[i]);
            } else if q < p {
                assert(all[q] == r[j]);
            }
        }
    }
}

/// A version is named by its number and by nothing else.
pub proof fn lemma_named_versions(text: Seq<char>, args: RunTreeArgs)
    ensures
        named_version(text) == Some(TargetVersion::Py314) <==> text == seq!['3', '.', '1', '4'],
        named_version(text) == Some(TargetVersion::Py315) <==> text == seq!['3', '.', '1', '5'],
        args.fix ==> args.wants_fixes(),
        args.dry_run ==> args.wants_fixes(),
        args.wants_fixes() ==> args.fix || args.dry_run,
{
    reveal_strlit("3.14");
    reveal_strlit("3.15");
    assert("3.14"@ =~= seq!['3', '.', '1', '4']);
    assert("3.15"@ =~= seq!['3', '.', '1', '5']);
    assert("3.14"@[3] != "3.15"@[3]);
}

/// What is recorded of an analysis is what was found, with the implicit imports sorted; a failed
/// analysis is recorded with its message.
pub proof fn lemma_recorded_findings(record: SafetyView, result: SafetyView, i: int, j: int)
    requires
        is_record_of(record, result),
    ensures
        record is AnalysisError <==> result is AnalysisError,
        result is AnalysisError ==> record == result,
        result matches SafetyView::Analyzed(found) ==> {
            &&& record matches SafetyView::Analyzed(kept)
            &&& kept.errors == found.errors
            &&& kept.overrides == found.overrides
            &&& kept.implicit_imports.to_multiset() == found.implicit_imports.to_multiset()
            &&& 0 <= i < j < kept.implicit_imports.len() ==> !text_before(
                kept.implicit_imports[j],
                kept.implicit_imports[i],
            )
        },
{
    if let (SafetyView::Analyzed(found), SafetyView::Analyzed(kept)) = (result, record) {
        crate::laws::ordering::lemma_sorting_keeps_items::<ModuleName>(
            kept.implicit_imports,
            found.implicit_imports,
        );
        if 0 <= i < j < kept.implicit_imports.len() {
            assert(!ModuleName::before(
                ModuleName::key(kept.implicit_imports[j]),
                ModuleName::key(kept.implicit_imports[i]),
            ));
        }
    }
}

} // verus!
