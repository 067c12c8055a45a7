//! Laws of settling imports and of resolving a merged cache.
use vstd::prelude::*;

use crate::artifact::module_names;
use crate::artifact::CacheView;
use crate::artifact::ModuleView;
use crate::artifact::SafetyView;
use crate::clearing::errors_of;
use crate::clearing::finalized_modules;
use crate::errors::ErrorKind;
use crate::errors::ErrorView;
use crate::imports::known_module;
use crate::imports::targets;
use crate::imports::unresolved;
use crate::imports::without_ambiguous;
use crate::laws::clearing::has_record;
use crate::laws::clearing::is_callee_safe;
use crate::laws::clearing::is_dropped;
use crate::laws::clearing::is_picked_from;
use crate::laws::clearing::lemma_callee_safe;
use crate::laws::clearing::lemma_cleared_error;
use crate::laws::clearing::lemma_completion_touches_errors;
use crate::laws::clearing::lemma_kept_are_picked;
use crate::laws::clearing::lemma_record_decides;
use crate::laws::clearing::lemma_what_completion_drops;
use crate::laws::clearing::may_instantiate;
use crate::laws::clearing::may_name_class;
use crate::laws::clearing::some_module_vouches;
use crate::laws::merging::has_error;
use crate::laws::resolving::leads_nowhere;
use crate::laws::resolving::leads_to;
use crate::laws::resolving::lemma_name_leads_to;
use crate::laws::text::lemma_index_key;
use crate::laws::verdicts::first_stands_at;
use crate::laws::verdicts::lemma_absorb_order;
use crate::merge::ClassFactsView;
use crate::names::absorb;
use crate::names::lemma_absorb;
use crate::propagate::lemma_propagation_exists;
use crate::reduce::all_with_emitted;
use crate::reduce::all_without_ambiguous;
use crate::reduce::ambiguous_targets;
use crate::reduce::carried;
use crate::reduce::completed_modules;
use crate::reduce::emitted_for;
use crate::reduce::given_back;
use crate::reduce::goes_while_settling;
use crate::reduce::needed_names;
use crate::reduce::prepared;
use crate::reduce::resolved;
use crate::reduce::settled_module;
use crate::reduce::verdicts_by_module;
use crate::reduce::with_emitted;
use crate::reduce::with_implicit_imports_once;
use crate::resolution::index_key;
use crate::resolution::ReplyView;
use crate::resolver::ResolverView;
use crate::resolver::Verdicts;
use crate::text::strip_calls;

verus! {

/// Whether one of `imports` leads to the known module `target`.
pub open spec fn some_leads_to(
    modules: Set<Seq<char>>,
    imports: Set<Seq<char>>,
    target: Seq<char>,
) -> bool {
    exists|name: Seq<char>| #[trigger] imports.contains(name) && leads_to(modules, name, target)
}

/// The targets of imports are the known modules that they lead to; what leads nowhere is
/// unresolved.
pub proof fn lemma_targets_of_imports(
    modules: Set<Seq<char>>,
    imports: Set<Seq<char>>,
    name: Seq<char>,
)
    ensures
        targets(modules, imports).contains(name) <==> some_leads_to(modules, imports, name),
        unresolved(modules, imports).contains(name) <==> imports.contains(name) && leads_nowhere(
            modules,
            name,
        ),
{
    lemma_name_leads_to(modules, name, name);
    if targets(modules, imports).contains(name) {
        let from = choose|from: Seq<char>| #[trigger]
            imports.contains(from) && known_module(modules, from) == Some(name);
        lemma_name_leads_to(modules, from, name);
    }
    if some_leads_to(modules, imports, name) {
        let from = choose|from: Seq<char>| #[trigger]
            imports.contains(from) && leads_to(modules, from, name);
        lemma_name_leads_to(modules, from, name);
        assert(known_module(modules, from) == Some(name));
    }
}

/// Settling a module makes an edge of each missing import that leads to a known module other than
/// itself, and of nothing else. What leads nowhere stays missing.
pub proof fn lemma_settled_imports(
    module: ModuleView,
    names: Set<Seq<char>>,
    from_ambiguous: Option<Set<Seq<char>>>,
    verdicts: Map<Seq<char>, Verdicts>,
    facts: ClassFactsView,
    name: Seq<char>,
)
    ensures
        ({
            let settled = settled_module(module, names, from_ambiguous, verdicts, facts);
            &&& settled.imports.contains(name) <==> module.imports.contains(name) || (name
                != module.name && some_leads_to(names, module.missing_imports, name))
            &&& settled.missing_imports.contains(name) <==> module.missing_imports.contains(name)
                && leads_nowhere(names, name)
            &&& settled.name == module.name
            &&& settled.ambiguous_imports == module.ambiguous_imports
            &&& settled.side_effect_imports == module.side_effect_imports
            &&& settled.function_safety == module.function_safety
            &&& settled.mutation_candidates == module.mutation_candidates
        }),
{
    lemma_targets_of_imports(names, module.missing_imports, name);
}

/// An import leaves the missing ones only by becoming an edge, or by leading to the module
/// itself.
pub proof fn lemma_missing_import_becomes_edge(
    module: ModuleView,
    names: Set<Seq<char>>,
    from_ambiguous: Option<Set<Seq<char>>>,
    verdicts: Map<Seq<char>, Verdicts>,
    facts: ClassFactsView,
    name: Seq<char>,
    target: Seq<char>,
)
    requires
        module.missing_imports.contains(name),
        leads_to(names, name, target),
    ensures
        ({
            let settled = settled_module(module, names, from_ambiguous, verdicts, facts);
            &&& !settled.missing_imports.contains(name)
            &&& target != module.name ==> settled.imports.contains(target)
        }),
{
    lemma_settled_imports(module, names, from_ambiguous, verdicts, facts, name);
    lemma_settled_imports(module, names, from_ambiguous, verdicts, facts, target);
    assert(names.contains(target));
}

/// Settling the ambiguous imports makes an edge of each that leads to a known module other than
/// the module itself, and drops the rest.
pub proof fn lemma_settled_ambiguous(module: ModuleView, names: Set<Seq<char>>, name: Seq<char>)
    ensures
        ({
            let settled = without_ambiguous(module, names);
            &&& settled.imports.contains(name) <==> module.imports.contains(name) || (name
                != module.name && some_leads_to(names, module.ambiguous_imports, name))
            &&& !settled.ambiguous_imports.contains(name)
            &&& settled.missing_imports == module.missing_imports
            &&& settled.name == module.name
            &&& settled.side_effect_imports == module.side_effect_imports
            &&& settled.function_safety == module.function_safety
            &&& settled.mutation_candidates == module.mutation_candidates
            &&& settled.safety == module.safety
        }),
{
    lemma_targets_of_imports(names, module.ambiguous_imports, name);
}

/// The ambiguous imports of every module are settled, each in its place.
pub proof fn lemma_all_settled_ambiguous(
    modules: Seq<ModuleView>,
    names: Set<Seq<char>>,
    i: int,
    name: Seq<char>,
)
    requires
        0 <= i < modules.len(),
    ensures
        ({
            let before = modules[i];
            let after = all_without_ambiguous(modules, names)[i];
            &&& all_without_ambiguous(modules, names).len() == modules.len()
            &&& after.imports.contains(name) <==> before.imports.contains(name) || (name
                != before.name && some_leads_to(names, before.ambiguous_imports, name))
            &&& !after.ambiguous_imports.contains(name)
            &&& after == ModuleView {
                imports: after.imports,
                ambiguous_imports: after.ambiguous_imports,
                ..before
            }
        }),
{
    lemma_settled_ambiguous(modules[i], names, name);
}

/// The implicit imports are taken once each, in the order in which they first come; nothing else
/// that was found changes.
pub proof fn lemma_implicit_imports_once(safety: SafetyView, name: Seq<char>, i: int, j: int)
    ensures
        safety is AnalysisError ==> with_implicit_imports_once(safety) == safety,
        safety matches SafetyView::Analyzed(had) ==> {
            &&& with_implicit_imports_once(safety) matches SafetyView::Analyzed(has)
            &&& has.errors == had.errors
            &&& has.overrides == had.overrides
            &&& has.implicit_imports.contains(name) <==> had.implicit_imports.contains(name)
            &&& 0 <= i < j < has.implicit_imports.len() ==> {
                &&& has.implicit_imports[i] != has.implicit_imports[j]
                &&& exists|p: int, q: int| #[trigger]
                    first_stands_at(had.implicit_imports, has.implicit_imports[i], p)
                        && #[trigger] first_stands_at(
                        had.implicit_imports,
                        has.implicit_imports[j],
                        q,
                    ) && p < q
            }
        },
{
    if let SafetyView::Analyzed(had) = safety {
        let none = Seq::<Seq<char>>::empty();
        lemma_absorb(none, had.implicit_imports);
        let has = absorb(none, had.implicit_imports);
        if 0 <= i < j < has.len() {
            lemma_absorb_order(none, had.implicit_imports, i, j);
        }
    }
}

/// Settling a module picks from its errors, and takes its implicit imports once each. A failed
/// analysis stays as it is.
pub proof fn lemma_settled_findings(
    module: ModuleView,
    names: Set<Seq<char>>,
    from_ambiguous: Option<Set<Seq<char>>>,
    verdicts: Map<Seq<char>, Verdicts>,
    facts: ClassFactsView,
    name: Seq<char>,
)
    ensures
        ({
            let settled = settled_module(module, names, from_ambiguous, verdicts, facts);
            &&& module.safety is AnalysisError ==> settled.safety == module.safety
            &&& module.safety matches SafetyView::Analyzed(had) ==> {
                &&& settled.safety matches SafetyView::Analyzed(has)
                &&& has.overrides == had.overrides
                &&& has.implicit_imports.contains(name) <==> had.implicit_imports.contains(name)
                &&& has.implicit_imports.no_duplicates()
                &&& is_picked_from(has.errors, had.errors)
            }
        }),
{
    lemma_implicit_imports_once(module.safety, name, 0, 1);
    if let SafetyView::Analyzed(had) = module.safety {
        lemma_absorb(Seq::<Seq<char>>::empty(), had.implicit_imports);
        let found = targets(names, module.missing_imports);
        let r = ResolverView {
            modules: match from_ambiguous {
                Some(more) => more.union(found),
                None => found,
            },
            by_module: verdicts,
            globally_safe: None,
            class_bases: Some(facts.class_bases),
            constructor_callees: Some(facts.constructor_callees),
        };
        lemma_kept_are_picked(had.errors, module.name, goes_while_settling(r));
        lemma_picks_all(had.errors);
    }
}

proof fn lemma_picks_all(errors: Seq<ErrorView>)
    ensures
        is_picked_from(errors, errors),
{
    let all = |error: ErrorView| true;
    lemma_filter_true(errors);
    assert(errors == errors.filter(all));
}

proof fn lemma_filter_true(errors: Seq<ErrorView>)
    ensures
        errors.filter(|error: ErrorView| true) == errors,
    decreases errors.len(),
{
    reveal(Seq::filter);
    if errors.len() > 0 {
        lemma_filter_true(errors.drop_last());
        assert(errors.drop_last().push(errors.last()) =~= errors);
    }
}

/// Settling a module drops an error only if something was settled for it, the error hangs on an
/// import, and the constructors of its class or its callee clear it: what is known there are the
/// modules that the missing and the ambiguous imports lead to, and no index.
pub proof fn lemma_what_settling_drops(
    module: ModuleView,
    names: Set<Seq<char>>,
    from_ambiguous: Option<Set<Seq<char>>>,
    verdicts: Map<Seq<char>, Verdicts>,
    facts: ClassFactsView,
    near: Set<Seq<char>>,
    error: ErrorView,
)
    requires
        forall|name: Seq<char>| #[trigger]
            near.contains(name) <==> some_leads_to(names, module.missing_imports, name) || (
            from_ambiguous matches Some(more) && more.contains(name)),
        has_error(module, error),
    ensures
        ({
            let settled = settled_module(module, names, from_ambiguous, verdicts, facts);
            let name = strip_calls(error.metadata);
            let decided = may_name_class(error.kind) && has_record(
                facts.constructor_callees,
                name,
            );
            let nothing = module.missing_imports.is_empty() && from_ambiguous is None;
            &&& nothing || !error.kind.hangs_on_import() ==> has_error(settled, error)
            &&& !nothing && error.kind.hangs_on_import() && decided ==> (has_error(settled, error)
                <==> !may_instantiate(
                near,
                verdicts,
                facts.constructor_callees[name],
                module.name,
                name,
            ))
            &&& !nothing && error.kind.hangs_on_import() && !decided ==> (has_error(settled, error)
                <==> !is_callee_safe(
                near,
                verdicts,
                facts.class_bases,
                some_module_vouches(near, verdicts, name),
                error,
            ))
        }),
{
    let once = ModuleView { safety: with_implicit_imports_once(module.safety), ..module };
    if module.missing_imports.is_empty() && from_ambiguous is None {
        assert(module.missing_imports =~= Set::<Seq<char>>::empty());
        assert(settled_module(module, names, from_ambiguous, verdicts, facts) == once);
    } else {
        assert(!(module.missing_imports == Set::<Seq<char>>::empty() && from_ambiguous is None));
        let found = targets(names, module.missing_imports);
        let around = match from_ambiguous {
            Some(more) => more.union(found),
            None => found,
        };
        assert(around =~= near) by {
            assert forall|name: Seq<char>| #[trigger]
                around.contains(name) == near.contains(name) by {
                lemma_targets_of_imports(names, module.missing_imports, name);
            }
        }
        let r = ResolverView {
            modules: near,
            by_module: verdicts,
            globally_safe: None,
            class_bases: Some(facts.class_bases),
            constructor_callees: Some(facts.constructor_callees),
        };
        let edges = ModuleView {
            imports: module.imports.union(found.remove(module.name)),
            missing_imports: unresolved(names, module.missing_imports),
            ..once
        };
        let name = strip_calls(error.metadata);
        let goes = goes_while_settling(r);
        lemma_cleared_error(edges, goes, error);
        lemma_record_decides(r, module.name, error, true);
        lemma_callee_safe(r, error);
    }
}

/// Whether the reply tells of an argument of the module, and the error is what it tells.
pub open spec fn is_told(
    emitted: Seq<(Seq<char>, Seq<char>)>,
    module: Seq<char>,
    error: ErrorView,
) -> bool {
    &&& error.kind == ErrorKind::ImportedVarArgument
    &&& !error.parameterized_decorator
    &&& exists|k: int|
        0 <= k < emitted.len() && (#[trigger] emitted[k]).0 == module && emitted[k].1
            == error.metadata
}

/// What is told of a module comes in the order in which it is told.
pub proof fn lemma_emitted_one_more(
    emitted: Seq<(Seq<char>, Seq<char>)>,
    next: (Seq<char>, Seq<char>),
    name: Seq<char>,
)
    ensures
        emitted_for(Seq::empty(), name).len() == 0,
        next.0 == name ==> emitted_for(emitted.push(next), name) == emitted_for(emitted, name).push(
            next.1,
        ),
        next.0 != name ==> emitted_for(emitted.push(next), name) == emitted_for(emitted, name),
{
    assert(emitted.push(next).drop_last() =~= emitted);
}

proof fn lemma_emitted_holds(
    emitted: Seq<(Seq<char>, Seq<char>)>,
    name: Seq<char>,
    metadata: Seq<char>,
)
    ensures
        emitted_for(emitted, name).contains(metadata) <==> exists|k: int|
            0 <= k < emitted.len() && (#[trigger] emitted[k]).0 == name && emitted[k].1 == metadata,
    decreases emitted.len(),
{
    if emitted.len() > 0 {
        let shorter = emitted.drop_last();
        let last = emitted.last();
        let n = shorter.len() as int;
        lemma_emitted_holds(shorter, name, metadata);
        assert(emitted[n] == last);
        let before = emitted_for(shorter, name);
        let after = emitted_for(emitted, name);
        if exists|k: int|
            0 <= k < emitted.len() && (#[trigger] emitted[k]).0 == name && emitted[k].1
                == metadata {
            let k = choose|k: int|
                0 <= k < emitted.len() && (#[trigger] emitted[k]).0 == name && emitted[k].1
                    == metadata;
            if k < n {
                assert(shorter[k] == emitted[k]);
                let j = before.index_of(metadata);
                assert(before[j] == metadata);
                assert(after[j] == metadata);
            } else {
                assert(after[before.len() as int] == metadata);
            }
        }
        if after.contains(metadata) {
            let j = after.index_of(metadata);
            assert(after[j] == metadata);
            if j < before.len() {
                assert(before[j] == metadata);
                let k = choose|k: int|
                    0 <= k < shorter.len() && (#[trigger] shorter[k]).0 == name && shorter[k].1
                        == metadata;
                assert(emitted[k] == shorter[k]);
            }
        }
    }
}

/// What the reply tells of a module stands behind the errors that it has; a failed analysis takes
/// none.
pub proof fn lemma_told_errors(
    module: ModuleView,
    emitted: Seq<(Seq<char>, Seq<char>)>,
    error: ErrorView,
)
    ensures
        ({
            let after = with_emitted(module, emitted);
            &&& has_error(after, error) <==> has_error(module, error) || (module.safety is Analyzed
                && is_told(emitted, module.name, error))
            &&& module.safety is AnalysisError ==> after == module
            &&& module.safety matches SafetyView::Analyzed(had) ==> {
                &&& after.safety matches SafetyView::Analyzed(has)
                &&& had.errors.is_prefix_of(has.errors)
                &&& has.overrides == had.overrides
                &&& has.implicit_imports == had.implicit_imports
                &&& after == ModuleView { safety: after.safety, ..module }
            }
        }),
{
    if let SafetyView::Analyzed(had) = module.safety {
        let more = emitted_for(emitted, module.name);
        let after = with_emitted(module, emitted);
        let has = errors_of(after);
        let n = had.errors.len() as int;
        lemma_emitted_holds(emitted, module.name, error.metadata);
        assert(has.take(n) =~= had.errors);
        if had.errors.contains(error) {
            let j = had.errors.index_of(error);
            assert(has[j] == error);
        }
        if is_told(emitted, module.name, error) {
            let j = more.index_of(error.metadata);
            assert(more[j] == error.metadata);
            assert(has[n + j] == error);
        }
        if has.contains(error) {
            let j = has.index_of(error);
            assert(has[j] == error);
            if j < n {
                assert(had.errors[j] == error);
            } else {
                assert(more[j - n] == error.metadata);
                assert(more.contains(error.metadata));
            }
        }
    }
}

/// A completed module has the errors that it had and those that the reply tells of it, but for
/// those that are dropped. The first module of a name takes the verdicts that come back.
pub proof fn lemma_completed_module(
    modules: Seq<ModuleView>,
    names: Set<Seq<char>>,
    facts: ClassFactsView,
    reply: ReplyView,
    i: int,
    error: ErrorView,
)
    requires
        0 <= i < modules.len(),
    ensures
        completed_modules(modules, names, facts, reply).len() == modules.len(),
        ({
            let before = modules[i];
            let after = completed_modules(modules, names, facts, reply)[i];
            let first = forall|j: int| 0 <= j < i ==> (#[trigger] modules[j]).name != before.name;
            &&& has_error(after, error) <==> (has_error(before, error) || (
            before.safety is Analyzed && is_told(reply.emitted, before.name, error)))
                && !is_dropped(names, reply.verdicts, reply.outcome, facts, before.name, error)
            &&& first && reply.verdicts.contains_key(before.name) ==> after.function_safety
                == reply.verdicts[before.name]
            &&& !(first && reply.verdicts.contains_key(before.name)) ==> after.function_safety
                == before.function_safety
            &&& after.name == before.name
            &&& after.imports == before.imports
            &&& after.missing_imports == before.missing_imports
            &&& after.ambiguous_imports == before.ambiguous_imports
            &&& after.side_effect_imports == before.side_effect_imports
            &&& after.mutation_candidates == before.mutation_candidates
            &&& before.safety is AnalysisError ==> after.safety == before.safety
            &&& before.safety matches SafetyView::Analyzed(had) ==> {
                &&& after.safety matches SafetyView::Analyzed(has)
                &&& has.overrides == had.overrides
                &&& has.implicit_imports == had.implicit_imports
            }
        }),
{
    let told = all_with_emitted(modules, reply.emitted);
    let finalized = finalized_modules(told, names, reply.verdicts, reply.outcome, facts);
    assert(told[i] == with_emitted(modules[i], reply.emitted));
    lemma_told_errors(modules[i], reply.emitted, error);
    lemma_what_completion_drops(
        told,
        names,
        reply.verdicts,
        reply.outcome,
        facts,
        i,
        error,
    );
    lemma_completion_touches_errors(told, names, reply.verdicts, reply.outcome, facts, i);
    let after = given_back(finalized, reply.verdicts)[i];
    assert(after.safety == finalized[i].safety);
    assert forall|j: int| 0 <= j < modules.len() implies (#[trigger] finalized[j]).name
        == modules[j].name by {
        lemma_completion_touches_errors(told, names, reply.verdicts, reply.outcome, facts, j);
        lemma_told_errors(modules[j], reply.emitted, error);
        assert(told[j] == with_emitted(modules[j], reply.emitted));
    }
    let first = forall|j: int| 0 <= j < i ==> (#[trigger] modules[j]).name != modules[i].name;
    if first {
        assert forall|j: int| 0 <= j < i implies (#[trigger] finalized[j]).name
            != finalized[i].name by {
            assert(modules[j].name != modules[i].name);
        }
    } else {
        let j = choose|j: int| 0 <= j < i && (#[trigger] modules[j]).name == modules[i].name;
        assert(finalized[j].name == finalized[i].name);
    }
}

/// Whether the `i`-th module is the last of the name.
pub open spec fn is_last_of_name(modules: Seq<ModuleView>, name: Seq<char>, i: int) -> bool {
    &&& 0 <= i < modules.len()
    &&& modules[i].name == name
    &&& forall|j: int| i < j < modules.len() ==> (#[trigger] modules[j]).name != name
}

/// The verdicts by module are those of the last module of each name.
pub proof fn lemma_last_verdicts_count(modules: Seq<ModuleView>, name: Seq<char>, i: int)
    ensures
        verdicts_by_module(modules).contains_key(name) <==> exists|j: int|
            0 <= j < modules.len() && (#[trigger] modules[j]).name == name,
        is_last_of_name(modules, name, i) ==> verdicts_by_module(modules)[name]
            == modules[i].function_safety,
    decreases modules.len(),
{
    if modules.len() > 0 {
        let shorter = modules.drop_last();
        let n = shorter.len() as int;
        lemma_last_verdicts_count(shorter, name, i);
        assert(modules[n] == modules.last());
        if modules.last().name != name {
            if is_last_of_name(modules, name, i) {
                assert(i < n);
                assert(shorter[i] == modules[i]);
                assert forall|j: int| i < j < shorter.len() implies (#[trigger] shorter[j]).name
                    != name by {
                    assert(shorter[j] == modules[j]);
                }
                assert(is_last_of_name(shorter, name, i));
            }
            if exists|j: int| 0 <= j < modules.len() && (#[trigger] modules[j]).name == name {
                let j = choose|j: int| 0 <= j < modules.len() && (#[trigger] modules[j]).name == name;
                assert(shorter[j] == modules[j]);
            }
            if exists|j: int| 0 <= j < shorter.len() && (#[trigger] shorter[j]).name == name {
                let j = choose|j: int| 0 <= j < shorter.len() && (#[trigger] shorter[j]).name == name;
                assert(shorter[j] == modules[j]);
            }
        }
    }
}

/// Whether some ambiguous import of the module leads to a known module.
pub open spec fn leads_somewhere(module: ModuleView, names: Set<Seq<char>>) -> bool {
    exists|target: Seq<char>| some_leads_to(names, module.ambiguous_imports, target)
}

/// The ambiguous targets of a name are those of the last module of the name that has any.
pub proof fn lemma_ambiguous_targets_count(
    modules: Seq<ModuleView>,
    names: Set<Seq<char>>,
    name: Seq<char>,
    target: Seq<char>,
)
    ensures
        ambiguous_targets(modules, names).contains_key(name) <==> exists|i: int|
            0 <= i < modules.len() && (#[trigger] modules[i]).name == name && leads_somewhere(
                modules[i],
                names,
            ),
        forall|i: int|
            #![trigger modules[i]]
            0 <= i < modules.len() && modules[i].name == name && leads_somewhere(modules[i], names)
                && (forall|j: int|
                i < j < modules.len() ==> !((#[trigger] modules[j]).name == name
                    && leads_somewhere(modules[j], names))) ==> (ambiguous_targets(
                modules,
                names,
            )[name].contains(target) <==> some_leads_to(
                names,
                modules[i].ambiguous_imports,
                target,
            )),
    decreases modules.len(),
{
    if modules.len() > 0 {
        let shorter = modules.drop_last();
        let last = modules.last();
        let n = shorter.len() as int;
        lemma_ambiguous_targets_count(shorter, names, name, target);
        assert(modules[n] == last);
        let found = targets(names, last.ambiguous_imports);
        lemma_targets_of_imports(names, last.ambiguous_imports, target);
        assert(leads_somewhere(last, names) <==> found != Set::<Seq<char>>::empty()) by {
            if leads_somewhere(last, names) {
                let t = choose|t: Seq<char>| some_leads_to(names, last.ambiguous_imports, t);
                lemma_targets_of_imports(names, last.ambiguous_imports, t);
                assert(found.contains(t));
            } else {
                assert forall|t: Seq<char>| !#[trigger] found.contains(t) by {
                    lemma_targets_of_imports(names, last.ambiguous_imports, t);
                }
                assert(found =~= Set::<Seq<char>>::empty());
            }
        }
        let takes = last.name == name && leads_somewhere(last, names);
        assert forall|i: int| 0 <= i < n implies #[trigger] shorter[i] == modules[i] by {}
        if !takes {
            assert(ambiguous_targets(modules, names).contains_key(name) == ambiguous_targets(
                shorter,
                names,
            ).contains_key(name));
            assert forall|i: int|
                #![trigger modules[i]]
                0 <= i < modules.len() && modules[i].name == name && leads_somewhere(
                    modules[i],
                    names,
                ) && (forall|j: int|
                    i < j < modules.len() ==> !((#[trigger] modules[j]).name == name
                        && leads_somewhere(modules[j], names))) implies (ambiguous_targets(
                modules,
                names,
            )[name].contains(target) <==> some_leads_to(
                names,
                modules[i].ambiguous_imports,
                target,
            )) by {
                assert(i < n);
                assert(shorter[i] == modules[i]);
                assert forall|j: int| i < j < shorter.len() implies !((
                #[trigger] shorter[j]).name == name && leads_somewhere(shorter[j], names)) by {
                    assert(shorter[j] == modules[j]);
                }
            }
            if exists|i: int|
                0 <= i < modules.len() && (#[trigger] modules[i]).name == name && leads_somewhere(
                    modules[i],
                    names,
                ) {
                let i = choose|i: int|
                    0 <= i < modules.len() && (#[trigger] modules[i]).name == name
                        && leads_somewhere(modules[i], names);
                assert(shorter[i] == modules[i]);
            }
            if exists|i: int|
                0 <= i < shorter.len() && (#[trigger] shorter[i]).name == name && leads_somewhere(
                    shorter[i],
                    names,
                ) {
                let i = choose|i: int|
                    0 <= i < shorter.len() && (#[trigger] shorter[i]).name == name
                        && leads_somewhere(shorter[i], names);
                assert(shorter[i] == modules[i]);
            }
        }
    }
}

/// The names that the index must answer for are the callees without a dot that errors name.
pub proof fn lemma_needed_callees(modules: Seq<ModuleView>, key: Seq<char>)
    ensures
        needed_names(modules).contains(key) <==> !key.contains('.') && exists|
            i: int,
            error: ErrorView,
        |
            0 <= i < modules.len() && #[trigger] has_error(modules[i], error) && strip_calls(
                error.metadata,
            ) == key,
{
    if needed_names(modules).contains(key) {
        let i = choose|i: int|
            0 <= i < modules.len() && crate::reduce::error_keys(#[trigger] modules[i]).contains(
                key,
            );
        let j = choose|j: int|
            0 <= j < errors_of(modules[i]).len() && index_key(
                (#[trigger] errors_of(modules[i])[j]).metadata,
            ) == Some(key);
        let error = errors_of(modules[i])[j];
        lemma_index_key(error.metadata);
        assert(has_error(modules[i], error));
        if key.contains('.') {
            let k = key.index_of('.');
            assert(strip_calls(error.metadata)[k] == '.');
        }
    }
    if !key.contains('.') && exists|i: int, error: ErrorView|
        0 <= i < modules.len() && #[trigger] has_error(modules[i], error) && strip_calls(
            error.metadata,
        ) == key {
        let (i, error) = choose|i: int, error: ErrorView|
            0 <= i < modules.len() && #[trigger] has_error(modules[i], error) && strip_calls(
                error.metadata,
            ) == key;
        lemma_index_key(error.metadata);
        let j = errors_of(modules[i]).index_of(error);
        assert(errors_of(modules[i])[j] == error);
        if index_key(error.metadata) is None {
            let k = choose|k: int|
                0 <= k < strip_calls(error.metadata).len() && #[trigger] strip_calls(
                    error.metadata,
                )[k] == '.';
            assert(key[k] == '.');
            assert(key.contains('.'));
        }
        assert(crate::reduce::error_keys(modules[i]).contains(key));
    }
}

/// A resolved cache has the modules that it had, in their order. Each imports what it imported
/// and every other module that a missing or an ambiguous import of it leads to; it still misses
/// what leads nowhere.
pub proof fn lemma_resolved_edges(
    cache: CacheView,
    merged: ClassFactsView,
    reply: ReplyView,
    i: int,
    name: Seq<char>,
)
    requires
        0 <= i < cache.modules.len(),
    ensures
        resolved(cache, merged, reply).modules.len() == cache.modules.len(),
        ({
            let names = module_names(cache.modules);
            let before = cache.modules[i];
            let after = resolved(cache, merged, reply).modules[i];
            &&& after.name == before.name
            &&& after.imports.contains(name) <==> before.imports.contains(name) || (name
                != before.name && (some_leads_to(names, before.missing_imports, name)
                || some_leads_to(names, before.ambiguous_imports, name)))
            &&& after.missing_imports.contains(name) <==> before.missing_imports.contains(name)
                && leads_nowhere(names, name)
            &&& !after.ambiguous_imports.contains(name)
            &&& after.side_effect_imports == before.side_effect_imports
            &&& after.mutation_candidates == before.mutation_candidates
        }),
        resolved(cache, merged, reply).re_exports == cache.re_exports,
        resolved(cache, merged, reply).class_bases.len() == 0,
        resolved(cache, merged, reply).constructor_callees.len() == 0,
{
    let names = module_names(cache.modules);
    let before = cache.modules[i];
    let facts = crate::reduce::all_class_facts(cache, merged);
    let verdicts = verdicts_by_module(carried(cache).modules);
    let ambiguous = ambiguous_targets(cache.modules, names);
    let flat = CacheView {
        modules: all_without_ambiguous(cache.modules, names),
        re_exports: cache.re_exports,
        class_bases: Seq::empty(),
        constructor_callees: Seq::empty(),
    };
    lemma_propagation_exists(flat);
    let moved = carried(cache).modules[i];
    assert(moved == crate::propagate::with_verdicts(flat.modules[i], moved.function_safety));
    lemma_settled_ambiguous(before, names, name);
    let from_ambiguous = if ambiguous.contains_key(moved.name) {
        Some(ambiguous[moved.name])
    } else {
        None
    };
    let bare = crate::propagate::with_verdicts(moved, Map::empty());
    lemma_settled_imports(bare, names, from_ambiguous, verdicts, facts, name);
    let start = prepared(cache, merged);
    assert(start.modules[i] == settled_module(bare, names, from_ambiguous, verdicts, facts));
    lemma_completed_module(
        start.modules,
        names,
        start.facts,
        reply,
        i,
        crate::reduce::argument_error(name),
    );
}

/// What resolution is asked: the names of the modules, the candidates of each in order, and the
/// names that errors wait for. The cache's classes are folded behind those of its dependencies.
pub proof fn lemma_prepared_request(
    cache: CacheView,
    merged: ClassFactsView,
    i: int,
    name: Seq<char>,
    class: Seq<char>,
)
    requires
        0 <= i < cache.modules.len(),
    ensures
        ({
            let start = prepared(cache, merged);
            let request = start.request;
            &&& start.modules.len() == cache.modules.len()
            &&& start.re_exports == cache.re_exports
            &&& request.module_names.contains(name) <==> exists|j: int|
                0 <= j < cache.modules.len() && (#[trigger] cache.modules[j]).name == name
            &&& request.candidates.len() == cache.modules.len()
            &&& request.candidates[i] == (
                cache.modules[i].name,
                cache.modules[i].mutation_candidates,
            )
            &&& start.modules[i].function_safety.dom().is_empty()
            &&& request.needed_unqualified.contains(name) <==> needed_names(
                start.modules,
            ).contains(name)
            &&& request.verdicts.contains_key(name) <==> exists|j: int|
                0 <= j < cache.modules.len() && (#[trigger] cache.modules[j]).name == name
            &&& start.facts.class_bases.contains_key(class) <==> merged.class_bases.contains_key(
                class,
            ) || exists|j: int|
                0 <= j < cache.class_bases.len() && (#[trigger] cache.class_bases[j]).0 == class
            &&& merged.class_bases.contains_key(class)
                ==> merged.class_bases[class].is_prefix_of(start.facts.class_bases[class])
        }),
{
    let names = module_names(cache.modules);
    let flat = CacheView {
        modules: all_without_ambiguous(cache.modules, names),
        re_exports: cache.re_exports,
        class_bases: Seq::empty(),
        constructor_callees: Seq::empty(),
    };
    lemma_propagation_exists(flat);
    let moved = carried(cache).modules;
    assert forall|j: int| 0 <= j < cache.modules.len() implies (#[trigger] moved[j]).name
        == cache.modules[j].name by {
        assert(moved[j] == crate::propagate::with_verdicts(
            flat.modules[j],
            moved[j].function_safety,
        ));
    }
    crate::laws::verdicts::lemma_module_names(cache.modules, name);
    lemma_last_verdicts_count(moved, name, i);
    if exists|j: int| 0 <= j < cache.modules.len() && (#[trigger] cache.modules[j]).name == name {
        let j = choose|j: int|
            0 <= j < cache.modules.len() && (#[trigger] cache.modules[j]).name == name;
        assert(moved[j].name == name);
    }
    crate::merge::lemma_folded_bases(merged.class_bases, cache.class_bases, class, name);
    let bare = crate::propagate::with_verdicts(moved[i], Map::empty());
    assert(moved[i] == crate::propagate::with_verdicts(flat.modules[i], moved[i].function_safety));
    let ambiguous = ambiguous_targets(cache.modules, names);
    let from_ambiguous = if ambiguous.contains_key(moved[i].name) {
        Some(ambiguous[moved[i].name])
    } else {
        None
    };
    let start = prepared(cache, merged);
    assert(start.modules[i] == settled_module(
        bare,
        names,
        from_ambiguous,
        verdicts_by_module(moved),
        start.facts,
    ));
    lemma_settled_imports(
        bare,
        names,
        from_ambiguous,
        verdicts_by_module(moved),
        start.facts,
        name,
    );
}

} // verus!
