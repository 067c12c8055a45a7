//! Laws of reducing a merged cache: what resolution is asked, and which errors are left.
use vstd::prelude::*;

use crate::artifact::module_names;
use crate::artifact::CacheView;
use crate::artifact::ModuleView;
use crate::errors::ErrorView;
use crate::laws::clearing::has_record;
use crate::laws::clearing::is_callee_safe;
use crate::laws::clearing::is_dropped;
use crate::laws::clearing::may_instantiate;
use crate::laws::clearing::may_name_class;
use crate::laws::clearing::some_module_vouches;
use crate::laws::merging::has_error;
use crate::laws::merging::lemma_folded_records;
use crate::laws::merging::runs_callee;
use crate::laws::merging::runs_method;
use crate::laws::propagating::goes_between;
use crate::laws::propagating::is_above;
use crate::laws::propagating::is_as_bad;
use crate::laws::propagating::is_closed;
use crate::laws::propagating::lemma_carrying_follows_re_exports;
use crate::laws::propagating::lemma_carrying_loses_nothing;
use crate::laws::propagating::lemma_carrying_makes_up_nothing;
use crate::laws::settling::is_last_of_name;
use crate::laws::settling::is_told;
use crate::laws::settling::leads_somewhere;
use crate::laws::settling::lemma_ambiguous_targets_count;
use crate::laws::settling::lemma_completed_module;
use crate::laws::settling::lemma_last_verdicts_count;
use crate::laws::settling::lemma_settled_ambiguous;
use crate::laws::settling::lemma_what_settling_drops;
use crate::laws::settling::some_leads_to;
use crate::merge::ClassFactsView;
use crate::propagate::is_propagated;
use crate::propagate::lemma_propagation_exists;
use crate::propagate::with_verdicts;
use crate::reduce::all_without_ambiguous;
use crate::reduce::ambiguous_targets;
use crate::reduce::carried;
use crate::reduce::lemma_settling_adds_no_error;
use crate::reduce::prepared;
use crate::reduce::resolved;
use crate::reduce::settled_module;
use crate::reduce::verdicts_by_module;
use crate::resolution::ReplyView;
use crate::resolver::Verdicts;
use crate::text::strip_calls;

verus! {

spec fn flat(cache: CacheView) -> CacheView {
    CacheView {
        modules: all_without_ambiguous(cache.modules, module_names(cache.modules)),
        re_exports: cache.re_exports,
        class_bases: Seq::empty(),
        constructor_callees: Seq::empty(),
    }
}

proof fn lemma_carried(cache: CacheView)
    ensures
        is_propagated(flat(cache), carried(cache)),
        carried(cache).modules.len() == cache.modules.len(),
        forall|j: int|
            0 <= j < cache.modules.len() ==> {
                let moved = #[trigger] carried(cache).modules[j];
                &&& moved.name == cache.modules[j].name
                &&& moved.missing_imports == cache.modules[j].missing_imports
                &&& moved.safety == cache.modules[j].safety
            },
{
    lemma_propagation_exists(flat(cache));
    assert forall|j: int| 0 <= j < cache.modules.len() implies {
        let moved = #[trigger] carried(cache).modules[j];
        &&& moved.name == cache.modules[j].name
        &&& moved.missing_imports == cache.modules[j].missing_imports
        &&& moved.safety == cache.modules[j].safety
    } by {
        let moved = carried(cache).modules[j];
        assert(moved == with_verdicts(flat(cache).modules[j], moved.function_safety));
        lemma_settled_ambiguous(
            cache.modules[j],
            module_names(cache.modules),
            cache.modules[j].name,
        );
    }
}

proof fn lemma_same_last(a: Seq<ModuleView>, b: Seq<ModuleView>, name: Seq<char>, i: int)
    requires
        a.len() == b.len(),
        forall|j: int| 0 <= j < a.len() ==> (#[trigger] a[j]).name == b[j].name,
    ensures
        is_last_of_name(a, name, i) <==> is_last_of_name(b, name, i),
{
    if is_last_of_name(a, name, i) {
        assert forall|j: int| i < j < b.len() implies (#[trigger] b[j]).name != name by {
            assert(a[j].name != name);
        }
        assert(a[i].name == name);
    }
    if is_last_of_name(b, name, i) {
        assert(a[i].name == b[i].name);
        assert forall|j: int| i < j < a.len() implies (#[trigger] a[j]).name != name by {
            assert(b[j].name != name);
        }
    }
}

proof fn lemma_request_at(cache: CacheView, merged: ClassFactsView, name: Seq<char>, i: int)
    requires
        is_last_of_name(cache.modules, name, i),
    ensures
        prepared(cache, merged).request.verdicts[name] == carried(cache).modules[i].function_safety,
{
    lemma_carried(cache);
    lemma_same_last(carried(cache).modules, cache.modules, name, i);
    lemma_last_verdicts_count(carried(cache).modules, name, i);
}

/// The verdicts that resolution is given hold at least what the modules hold.
pub proof fn lemma_request_holds_verdicts(
    cache: CacheView,
    merged: ClassFactsView,
    name: Seq<char>,
    i: int,
    attr: Seq<char>,
)
    requires
        is_last_of_name(cache.modules, name, i),
    ensures
        is_as_bad(
            cache.modules[i].function_safety,
            attr,
            prepared(cache, merged).request.verdicts[name],
            attr,
        ),
{
    lemma_request_at(cache, merged, name, i);
    lemma_carried(cache);
    lemma_carrying_loses_nothing(flat(cache), carried(cache));
    assert(flat(cache).modules[i].function_safety == cache.modules[i].function_safety);
    assert(is_above(flat(cache).modules, carried(cache).modules));
    let held = flat(cache).modules[i].function_safety.contains_key(attr);
}

/// The verdicts that resolution is given follow the re-exports: a name that is exported from
/// elsewhere has at least what is held against the function that it stands for.
pub proof fn lemma_request_follows_re_exports(
    cache: CacheView,
    merged: ClassFactsView,
    k: int,
    s: int,
    t: int,
)
    requires
        0 <= k < cache.re_exports.len(),
        goes_between(cache.modules, cache.re_exports[k], s, t),
    ensures
        is_as_bad(
            prepared(cache, merged).request.verdicts[cache.re_exports[k].imported_module],
            cache.re_exports[k].imported_attr,
            prepared(cache, merged).request.verdicts[cache.re_exports[k].exported_module],
            cache.re_exports[k].exported_attr,
        ),
{
    let e = cache.re_exports[k];
    lemma_carried(cache);
    lemma_request_at(cache, merged, e.imported_module, s);
    lemma_request_at(cache, merged, e.exported_module, t);
    let names = flat(cache).modules;
    assert forall|j: int| 0 <= j < names.len() implies (#[trigger] names[j]).name
        == cache.modules[j].name by {}
    lemma_same_last(names, cache.modules, e.imported_module, s);
    lemma_same_last(names, cache.modules, e.exported_module, t);
    lemma_carrying_follows_re_exports(flat(cache), carried(cache));
    assert(goes_between(names, flat(cache).re_exports[k], s, t));
}

/// The verdicts that resolution is given hold nothing more: whatever holds what the modules hold,
/// and hands it on along every re-export, holds them.
pub proof fn lemma_request_makes_up_nothing(
    cache: CacheView,
    merged: ClassFactsView,
    upper: Map<Seq<char>, Verdicts>,
    name: Seq<char>,
    i: int,
    attr: Seq<char>,
)
    requires
        forall|j: int, x: Seq<char>|
            #![trigger cache.modules[j].function_safety.contains_key(x)]
            is_last_of_name(cache.modules, cache.modules[j].name, j) ==> is_as_bad(
                cache.modules[j].function_safety,
                x,
                upper[cache.modules[j].name],
                x,
            ),
        forall|k: int, s: int, t: int|
            #![trigger goes_between(cache.modules, cache.re_exports[k], s, t)]
            0 <= k < cache.re_exports.len() && goes_between(
                cache.modules,
                cache.re_exports[k],
                s,
                t,
            ) ==> is_as_bad(
                upper[cache.re_exports[k].imported_module],
                cache.re_exports[k].imported_attr,
                upper[cache.re_exports[k].exported_module],
                cache.re_exports[k].exported_attr,
            ),
        is_last_of_name(cache.modules, name, i),
    ensures
        is_as_bad(prepared(cache, merged).request.verdicts[name], attr, upper[name], attr),
{
    let names = flat(cache).modules;
    let above = Seq::new(
        names.len(),
        |j: int|
            with_verdicts(
                names[j],
                if is_last_of_name(cache.modules, names[j].name, j) {
                    upper[names[j].name]
                } else {
                    names[j].function_safety
                },
            ),
    );
    lemma_carried(cache);
    lemma_request_at(cache, merged, name, i);
    assert forall|j: int| 0 <= j < names.len() implies (#[trigger] names[j]).name
        == cache.modules[j].name && names[j].function_safety
        == cache.modules[j].function_safety by {}
    assert(is_above(names, above)) by {
        assert forall|j: int, x: Seq<char>|
            #![trigger names[j].function_safety.contains_key(x)]
            #![trigger above[j].function_safety.contains_key(x)]
            0 <= j < names.len() implies is_as_bad(
            names[j].function_safety,
            x,
            above[j].function_safety,
            x,
        ) by {
            let held = cache.modules[j].function_safety.contains_key(x);
        }
    }
    assert(is_closed(names, flat(cache).re_exports, above)) by {
        assert forall|k: int, s: int, t: int|
            #![trigger goes_between(names, flat(cache).re_exports[k], s, t)]
            0 <= k < flat(cache).re_exports.len() && goes_between(
                names,
                flat(cache).re_exports[k],
                s,
                t,
            ) implies is_as_bad(
            above[s].function_safety,
            flat(cache).re_exports[k].imported_attr,
            above[t].function_safety,
            flat(cache).re_exports[k].exported_attr,
        ) by {
            let e = cache.re_exports[k];
            lemma_same_last(names, cache.modules, e.imported_module, s);
            lemma_same_last(names, cache.modules, e.exported_module, t);
            assert(goes_between(cache.modules, cache.re_exports[k], s, t));
        }
    }
    lemma_carrying_makes_up_nothing(flat(cache), carried(cache), above);
    assert(above[i].function_safety == upper[name]);
    let held = above[i].function_safety.contains_key(attr);
}

/// What is recorded of constructors comes from the dependencies or from the cache itself.
pub proof fn lemma_prepared_records(
    cache: CacheView,
    merged: ClassFactsView,
    class: Seq<char>,
    method: (Option<Seq<char>>, Seq<char>),
    callee: Seq<char>,
)
    ensures
        runs_method(prepared(cache, merged).facts.constructor_callees, class, method)
            <==> runs_method(merged.constructor_callees, class, method) || exists|i: int|
            0 <= i < cache.constructor_callees.len() && (
            #[trigger] cache.constructor_callees[i]).0 == class
                && cache.constructor_callees[i].1.derived.contains(method),
        runs_callee(prepared(cache, merged).facts.constructor_callees, class, callee)
            <==> runs_callee(merged.constructor_callees, class, callee) || exists|i: int|
            0 <= i < cache.constructor_callees.len() && (
            #[trigger] cache.constructor_callees[i]).0 == class
                && cache.constructor_callees[i].1.extra.contains(callee),
{
    lemma_folded_records(
        merged.constructor_callees,
        cache.constructor_callees,
        class,
        method,
        callee,
    );
}

/// Which errors of a module wait for resolution, where no other module has its name. What is
/// known there are the modules that its missing and ambiguous imports lead to, with the verdicts
/// that resolution is given.
pub proof fn lemma_prepared_errors(
    cache: CacheView,
    merged: ClassFactsView,
    i: int,
    near: Set<Seq<char>>,
    error: ErrorView,
)
    requires
        0 <= i < cache.modules.len(),
        forall|j: int|
            0 <= j < cache.modules.len() && j != i ==> (#[trigger] cache.modules[j]).name
                != cache.modules[i].name,
        forall|name: Seq<char>| #[trigger]
            near.contains(name) <==> some_leads_to(
                module_names(cache.modules),
                cache.modules[i].missing_imports,
                name,
            ) || some_leads_to(
                module_names(cache.modules),
                cache.modules[i].ambiguous_imports,
                name,
            ),
    ensures
        ({
            let start = prepared(cache, merged);
            let verdicts = start.request.verdicts;
            let records = start.facts.constructor_callees;
            let before = cache.modules[i];
            let after = start.modules[i];
            let name = strip_calls(error.metadata);
            let decided = may_name_class(error.kind) && has_record(records, name);
            let nothing = before.missing_imports.is_empty() && near.is_empty();
            &&& !has_error(before, error) ==> !has_error(after, error)
            &&& has_error(before, error) ==> {
                &&& nothing || !error.kind.hangs_on_import() ==> has_error(after, error)
                &&& !nothing && error.kind.hangs_on_import() && decided ==> (has_error(
                    after,
                    error,
                ) <==> !may_instantiate(near, verdicts, records[name], before.name, name))
                &&& !nothing && error.kind.hangs_on_import() && !decided ==> (has_error(
                    after,
                    error,
                ) <==> !is_callee_safe(
                    near,
                    verdicts,
                    start.facts.class_bases,
                    some_module_vouches(near, verdicts, name),
                    error,
                ))
            }
        }),
{
    let names = module_names(cache.modules);
    let start = prepared(cache, merged);
    let verdicts = verdicts_by_module(carried(cache).modules);
    let before = cache.modules[i];
    let ambiguous = ambiguous_targets(cache.modules, names);
    lemma_carried(cache);
    let moved = carried(cache).modules[i];
    let bare = with_verdicts(moved, Map::empty());
    let from_ambiguous = if ambiguous.contains_key(moved.name) {
        Some(ambiguous[moved.name])
    } else {
        None
    };
    assert(start.modules[i] == settled_module(bare, names, from_ambiguous, verdicts, start.facts));
    lemma_ambiguous_targets_count(cache.modules, names, before.name, before.name);
    assert(ambiguous.contains_key(before.name) <==> leads_somewhere(before, names)) by {
        if ambiguous.contains_key(before.name) {
            let j = choose|j: int|
                0 <= j < cache.modules.len() && (#[trigger] cache.modules[j]).name == before.name
                    && leads_somewhere(cache.modules[j], names);
            assert(j == i);
        }
    }
    assert forall|name: Seq<char>| #[trigger] near.contains(name) <==> some_leads_to(
        names,
        bare.missing_imports,
        name,
    ) || (from_ambiguous matches Some(more) && more.contains(name)) by {
        lemma_ambiguous_targets_count(cache.modules, names, before.name, name);
        if leads_somewhere(before, names) {
            assert(cache.modules[i].name == before.name);
            assert forall|j: int| i < j < cache.modules.len() implies !((
            #[trigger] cache.modules[j]).name == before.name && leads_somewhere(
                cache.modules[j],
                names,
            )) by {}
        }
    }
    assert(near.is_empty() ==> from_ambiguous is None) by {
        if near.is_empty() && leads_somewhere(before, names) {
            let t = choose|t: Seq<char>| some_leads_to(names, before.ambiguous_imports, t);
            assert(near.contains(t));
        }
    }
    assert(from_ambiguous is None && before.missing_imports.is_empty() ==> near.is_empty()) by {
        if from_ambiguous is None && before.missing_imports.is_empty() && !near.is_empty() {
            let t = choose|t: Seq<char>| near.contains(t);
            assert(near.contains(t));
            assert(some_leads_to(names, bare.missing_imports, t));
        }
    }
    assert(has_error(bare, error) == has_error(before, error));
    if has_error(before, error) {
        lemma_what_settling_drops(
            bare,
            names,
            from_ambiguous,
            verdicts,
            start.facts,
            near,
            error,
        );
    } else {
        lemma_settling_adds_no_error(bare, names, from_ambiguous, verdicts, start.facts, error);
    }
}

/// What is left at the end: the errors that waited for resolution and those that the reply tells,
/// but for those that are dropped with the verdicts that came back. The first module of a name
/// takes those verdicts.
pub proof fn lemma_resolved_errors(
    cache: CacheView,
    merged: ClassFactsView,
    reply: ReplyView,
    i: int,
    error: ErrorView,
)
    requires
        0 <= i < cache.modules.len(),
    ensures
        ({
            let start = prepared(cache, merged);
            let before = start.modules[i];
            let after = resolved(cache, merged, reply).modules[i];
            &&& has_error(after, error) <==> (has_error(before, error) || (
            before.safety is Analyzed && is_told(reply.emitted, cache.modules[i].name, error)))
                && !is_dropped(
                module_names(cache.modules),
                reply.verdicts,
                reply.outcome,
                start.facts,
                cache.modules[i].name,
                error,
            )
            &&& (forall|j: int|
                0 <= j < i ==> (#[trigger] cache.modules[j]).name != cache.modules[i].name)
                && reply.verdicts.contains_key(cache.modules[i].name) ==> after.function_safety
                == reply.verdicts[cache.modules[i].name]
        }),
{
    let start = prepared(cache, merged);
    let names = module_names(cache.modules);
    lemma_carried(cache);
    assert forall|j: int| 0 <= j < cache.modules.len() implies (#[trigger] start.modules[j]).name
        == cache.modules[j].name by {
        let moved = carried(cache).modules[j];
    }
    lemma_completed_module(start.modules, names, start.facts, reply, i, error);
    if forall|j: int| 0 <= j < i ==> (#[trigger] cache.modules[j]).name != cache.modules[i].name {
        assert forall|j: int| 0 <= j < i implies (#[trigger] start.modules[j]).name
            != start.modules[i].name by {
            assert(cache.modules[j].name != cache.modules[i].name);
        }
    }
}

} // verus!
