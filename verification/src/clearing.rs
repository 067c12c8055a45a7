//! Dropping the errors that the merged verdicts refute.
use dashmap::DashMap;
use vstd::prelude::*;

use crate::artifact::CachedModule;
use crate::artifact::CachedSafety;
use crate::artifact::CacheView;
use crate::artifact::ConstructorCallees;
use crate::artifact::FindingsView;
use crate::artifact::LibraryCache;
use crate::artifact::ModuleView;
use crate::artifact::NameList;
use crate::artifact::SafetyView;
use crate::errors::CachedError;
use crate::errors::ErrorKind;
use crate::errors::ErrorView;
use crate::memo::memo_get;
use crate::memo::memo_insert;
use crate::memo::memo_new;
use crate::merge::marks_verified;
use crate::merge::retain_unverified_errors;
use crate::merge::unmarked;
use crate::merge::ClassFactsView;
use crate::names::views;
use crate::names::ModuleName;
use crate::names::NameMap;
use crate::names::NameSet;
use crate::parallel::map_in_parallel;
use crate::resolution::OutcomeView;
use crate::resolution::ResolutionOutcome;
use crate::resolver::memo_agrees;
use crate::resolver::ResolverView;
use crate::resolver::SafetyResolver;
use crate::resolver::Verdicts;
use crate::safety::FunctionSafetyInfo;
use crate::text::trim_calls;

verus! {

/// The errors of a module; none if it was not analysed.
pub open spec fn errors_of(module: ModuleView) -> Seq<ErrorView> {
    match module.safety {
        SafetyView::Analyzed(findings) => findings.errors,
        SafetyView::AnalysisError { .. } => Seq::empty(),
    }
}

/// The errors that stay: a missing import could not have caused them, or they do not go.
pub open spec fn kept_errors(
    errors: Seq<ErrorView>,
    caller: Seq<char>,
    goes: spec_fn(Seq<char>, ErrorView) -> bool,
) -> Seq<ErrorView> {
    errors.filter(|error: ErrorView| !(error.kind.hangs_on_import() && goes(caller, error)))
}

/// The module with the errors that stay.
pub open spec fn cleared_module(
    module: ModuleView,
    goes: spec_fn(Seq<char>, ErrorView) -> bool,
) -> ModuleView {
    match module.safety {
        SafetyView::Analyzed(findings) => ModuleView {
            safety: SafetyView::Analyzed(
                FindingsView { errors: kept_errors(findings.errors, module.name, goes), ..findings },
            ),
            ..module
        },
        SafetyView::AnalysisError { .. } => module,
    }
}

/// The modules with the errors that stay.
pub open spec fn cleared_modules(
    modules: Seq<ModuleView>,
    goes: spec_fn(Seq<char>, ErrorView) -> bool,
) -> Seq<ModuleView> {
    Seq::new(modules.len(), |i: int| cleared_module(modules[i], goes))
}

/// Clearing adds no error to a module, and drops only those that a missing import could have
/// caused and that are to go.
pub proof fn lemma_clearing_adds_nothing(
    module: ModuleView,
    goes: spec_fn(Seq<char>, ErrorView) -> bool,
    error: ErrorView,
)
    ensures
        errors_of(cleared_module(module, goes)).contains(error) <==> errors_of(module).contains(
            error,
        ) && !(error.kind.hangs_on_import() && goes(module.name, error)),
        errors_of(cleared_module(module, goes)).len() <= errors_of(module).len(),
{
    let pred = |e: ErrorView| !(e.kind.hangs_on_import() && goes(module.name, e));
    let errors = errors_of(module);
    errors.lemma_filter_len(pred);
    if errors.contains(error) && pred(error) {
        errors.lemma_filter_contains(pred, errors.index_of(error));
    }
    if errors.filter(pred).contains(error) {
        errors.lemma_filter_contains_rev(pred, error);
    }
    if module.safety is AnalysisError {
        assert(!errors.contains(error));
    }
}

/// Clearing by the same rule a second time changes nothing.
pub proof fn lemma_clearing_is_idempotent(
    module: ModuleView,
    goes: spec_fn(Seq<char>, ErrorView) -> bool,
)
    ensures
        cleared_module(cleared_module(module, goes), goes) == cleared_module(module, goes),
{
    let pred = |e: ErrorView| !(e.kind.hangs_on_import() && goes(module.name, e));
    lemma_filter_twice(errors_of(module), pred);
}

proof fn lemma_filter_twice<A>(items: Seq<A>, pred: spec_fn(A) -> bool)
    ensures
        items.filter(pred).filter(pred) == items.filter(pred),
    decreases items.len(),
{
    reveal(Seq::filter);
    if items.len() > 0 {
        lemma_filter_twice(items.drop_last(), pred);
        let shorter = items.drop_last().filter(pred);
        if pred(items.last()) {
            assert(shorter.push(items.last()).drop_last() =~= shorter);
            assert(shorter.push(items.last()).last() == items.last());
        }
    }
}

/// Whether `marks` marks the errors of `caller` that may hang on a missing import and that `f`
/// clears.
pub open spec fn marks_cleared<F: Fn(&ModuleName, &CachedError) -> bool>(
    f: F,
    caller: ModuleName,
    errors: Seq<CachedError>,
    marks: Seq<bool>,
) -> bool {
    &&& marks.len() == errors.len()
    &&& forall|i: int|
        0 <= i < errors.len() ==> if (#[trigger] marks[i]) {
            errors[i].kind.hangs_on_import() && call_ensures(f, (&caller, &errors[i]), true)
        } else {
            !errors[i].kind.hangs_on_import() || call_ensures(f, (&caller, &errors[i]), false)
        }
}

/// Whether `after` is `before` without the errors that `f` clears.
pub open spec fn is_module_cleared<F: Fn(&ModuleName, &CachedError) -> bool>(
    f: F,
    before: CachedModule,
    after: CachedModule,
) -> bool {
    &&& after@ == ModuleView { safety: after@.safety, ..before@ }
    &&& match before.safety {
        CachedSafety::Analyzed(had) => {
            &&& after.safety matches CachedSafety::Analyzed(has)
            &&& has@ == FindingsView { errors: has@.errors, ..had@ }
            &&& exists|marks: Seq<bool>| #[trigger]
                marks_cleared(f, before.name, had.errors@, marks) && has.errors@ == unmarked(
                    had.errors@,
                    marks,
                )
        },
        CachedSafety::AnalysisError { .. } => after@ == before@,
    }
}

/// Whether `after` is `before` without the errors that `f` clears, module by module.
pub open spec fn are_modules_cleared<F: Fn(&ModuleName, &CachedError) -> bool>(
    f: F,
    before: Seq<CachedModule>,
    after: Seq<CachedModule>,
) -> bool {
    &&& after.len() == before.len()
    &&& forall|i: int|
        0 <= i < before.len() ==> is_module_cleared(f, before[i], #[trigger] after[i])
}

/// Whether `f` answers as `goes` says.
pub open spec fn decides<F: Fn(&ModuleName, &CachedError) -> bool>(
    f: F,
    goes: spec_fn(Seq<char>, ErrorView) -> bool,
) -> bool {
    forall|caller: &ModuleName, error: &CachedError, answer: bool| #[trigger]
        call_ensures(f, (caller, error), answer) ==> answer == goes(caller@, error@)
}

proof fn lemma_unmarked<F: Fn(&ModuleName, &CachedError) -> bool>(
    f: F,
    goes: spec_fn(Seq<char>, ErrorView) -> bool,
    caller: ModuleName,
    errors: Seq<CachedError>,
    marks: Seq<bool>,
)
    requires
        marks_cleared(f, caller, errors, marks),
        decides(f, goes),
    ensures
        views(unmarked(errors, marks)) == kept_errors(views(errors), caller@, goes),
    decreases errors.len(),
{
    reveal(Seq::filter);
    let pred = |error: ErrorView| !(error.kind.hangs_on_import() && goes(caller@, error));
    if errors.len() > 0 {
        let shorter = errors.drop_last();
        let fewer = marks.drop_last();
        assert forall|i: int| 0 <= i < shorter.len() implies if (#[trigger] fewer[i]) {
            shorter[i].kind.hangs_on_import() && call_ensures(f, (&caller, &shorter[i]), true)
        } else {
            !shorter[i].kind.hangs_on_import() || call_ensures(f, (&caller, &shorter[i]), false)
        } by {
            assert(marks[i] == fewer[i] && errors[i] == shorter[i]);
        }
        lemma_unmarked(f, goes, caller, shorter, fewer);
        assert(views(errors).drop_last() =~= views(shorter));
        let last = errors.last();
        assert(marks[errors.len() - 1] == marks.last());
        assert(errors[errors.len() - 1] == last);
        if marks.last() {
            assert(call_ensures(f, (&caller, &last), true));
            assert(!pred(last@));
        } else {
            assert(pred(last@)) by {
                if last.kind.hangs_on_import() {
                    assert(call_ensures(f, (&caller, &last), false));
                }
            }
            assert(views(unmarked(shorter, fewer).push(last)) =~= views(
                unmarked(shorter, fewer),
            ).push(last@));
        }
    } else {
        assert(views(unmarked(errors, marks)) =~= Seq::<ErrorView>::empty());
        assert(views(errors) =~= Seq::<ErrorView>::empty());
    }
}

/// Where `f` answers as `goes` says, clearing a module by the one is clearing it by the other.
pub proof fn lemma_module_cleared<F: Fn(&ModuleName, &CachedError) -> bool>(
    f: F,
    goes: spec_fn(Seq<char>, ErrorView) -> bool,
    before: CachedModule,
    after: CachedModule,
)
    requires
        is_module_cleared(f, before, after),
        decides(f, goes),
    ensures
        after@ == cleared_module(before@, goes),
{
    match before.safety {
        CachedSafety::Analyzed(had) => {
            let has = after.safety->Analyzed_0;
            let marks = choose|marks: Seq<bool>| #[trigger]
                marks_cleared(f, before.name, had.errors@, marks) && has.errors@ == unmarked(
                    had.errors@,
                    marks,
                );
            lemma_unmarked(f, goes, before.name, had.errors@, marks);
        },
        CachedSafety::AnalysisError { .. } => {},
    }
}

/// Where `f` answers as `goes` says, clearing by the one is clearing by the other.
pub proof fn lemma_modules_cleared<F: Fn(&ModuleName, &CachedError) -> bool>(
    f: F,
    goes: spec_fn(Seq<char>, ErrorView) -> bool,
    before: Seq<CachedModule>,
    after: Seq<CachedModule>,
)
    requires
        are_modules_cleared(f, before, after),
        decides(f, goes),
    ensures
        views(after) == cleared_modules(views(before), goes),
{
    assert forall|i: int| 0 <= i < before.len() implies #[trigger] views(after)[i]
        == cleared_modules(views(before), goes)[i] by {
        assert(is_module_cleared(f, before[i], after[i]));
        lemma_module_cleared(f, goes, before[i], after[i]);
    }
    assert(views(after) =~= cleared_modules(views(before), goes));
}

/// Drops the errors of one module that `should_clear` admits; tells whether any was dropped.
pub(crate) fn clear_module_errors<F: Fn(&ModuleName, &CachedError) -> bool>(
    module: CachedModule,
    should_clear: &F,
) -> (r: (CachedModule, bool))
    requires
        forall|caller: &ModuleName, error: &CachedError|
            call_requires(should_clear, (caller, error)),
    ensures
        is_module_cleared(*should_clear, module, r.0),
        r.1 == (errors_of(r.0@).len() < errors_of(module@).len()),
{
    let CachedModule {
        name,
        safety,
        imports,
        missing_imports,
        ambiguous_imports,
        side_effect_imports,
        function_safety,
        mutation_candidates,
    } = module;
    match safety {
        CachedSafety::Analyzed(findings) => {
            let mut findings = findings;
            let ghost before = findings;
            let caller = &name;
            let verified = |error: &CachedError| -> (answer: bool)
                ensures
                    call_ensures(should_clear, (caller, error), answer),
                { should_clear(caller, error) };
            let dropped = retain_unverified_errors(&mut findings, verified);
            proof {
                let marks = choose|marks: Seq<bool>| #[trigger]
                    marks_verified(verified, before.errors@, marks) && findings.errors@
                        == unmarked(before.errors@, marks);
                assert forall|i: int| 0 <= i < before.errors@.len() implies if (
                #[trigger] marks[i]) {
                    before.errors@[i].kind.hangs_on_import() && call_ensures(
                        *should_clear,
                        (caller, &before.errors@[i]),
                        true,
                    )
                } else {
                    !before.errors@[i].kind.hangs_on_import() || call_ensures(
                        *should_clear,
                        (caller, &before.errors@[i]),
                        false,
                    )
                } by {}
                assert(marks_cleared(*should_clear, name, before.errors@, marks));
            }
            let after = CachedModule {
                name,
                safety: CachedSafety::Analyzed(findings),
                imports,
                missing_imports,
                ambiguous_imports,
                side_effect_imports,
                function_safety,
                mutation_candidates,
            };
            (after, dropped)
        },
        CachedSafety::AnalysisError { message } => {
            let after = CachedModule {
                name,
                safety: CachedSafety::AnalysisError { message },
                imports,
                missing_imports,
                ambiguous_imports,
                side_effect_imports,
                function_safety,
                mutation_candidates,
            };
            (after, false)
        },
    }
}

impl LibraryCache {
    /// Drops every error that `should_clear` admits, of those that a missing import could have
    /// caused, in parallel. Tells whether any error was dropped.
    pub fn clear_errors_where<F: Fn(&ModuleName, &CachedError) -> bool + Sync>(
        &mut self,
        should_clear: F,
    ) -> (cleared: bool)
        requires
            forall|caller: &ModuleName, error: &CachedError|
                call_requires(should_clear, (caller, error)),
        ensures
            are_modules_cleared(should_clear, old(self).modules@, final(self).modules@),
            final(self)@ == (CacheView { modules: final(self)@.modules, ..old(self)@ }),
            cleared == exists|i: int|
                0 <= i < old(self)@.modules.len() && errors_of(
                    #[trigger] final(self)@.modules[i],
                ).len() < errors_of(old(self)@.modules[i]).len(),
    {
        let mut modules: Vec<CachedModule> = Vec::new();
        std::mem::swap(&mut self.modules, &mut modules);
        let ghost before = modules@;
        let admits = &should_clear;
        let clear = |module: CachedModule| -> (r: (CachedModule, bool))
            ensures
                is_module_cleared(*admits, module, r.0),
                r.1 == (errors_of(r.0@).len() < errors_of(module@).len()),
            { clear_module_errors(module, admits) };
        let results = map_in_parallel(modules, clear);
        let mut cleared = false;
        let mut after: Vec<CachedModule> = Vec::new();
        for result in it: results
            invariant
                it.seq() == results@,
                results@.len() == before.len(),
                forall|i: int|
                    0 <= i < before.len() ==> {
                        let result = #[trigger] results@[i];
                        &&& is_module_cleared(should_clear, before[i], result.0)
                        &&& result.1 == (errors_of(result.0@).len() < errors_of(before[i]@).len())
                    },
                after@.len() == it.index(),
                forall|i: int| 0 <= i < it.index() ==> #[trigger] after@[i] == results@[i].0,
                cleared <==> exists|i: int|
                    0 <= i < it.index() && errors_of(#[trigger] views(after@)[i]).len()
                        < errors_of(views(before)[i]).len(),
        {
            let ghost i = it.index() as int;
            let ghost was = after@;
            let ghost cleared0 = cleared;
            let (module, dropped) = result;
            assert(results@[i] == (module, dropped));
            after.push(module);
            cleared = cleared || dropped;
            proof {
                if cleared0 {
                    let j = choose|j: int|
                        0 <= j < i && errors_of(#[trigger] views(was)[j]).len() < errors_of(
                            views(before)[j],
                        ).len();
                    assert(views(after@)[j] == views(was)[j]);
                }
                assert(views(after@)[i] == module@);
                if exists|j: int|
                    0 <= j < i + 1 && errors_of(#[trigger] views(after@)[j]).len() < errors_of(
                        views(before)[j],
                    ).len() {
                    let j = choose|j: int|
                        0 <= j < i + 1 && errors_of(#[trigger] views(after@)[j]).len() < errors_of(
                            views(before)[j],
                        ).len();
                    if j < i {
                        assert(views(was)[j] == views(after@)[j]);
                    }
                }
            }
        }
        self.modules = after;
        cleared
    }
}

/// The results of scanning for every decorator without a module that an error names.
fn scan_decorators(resolver: &SafetyResolver, modules: &Vec<CachedModule>) -> (memo: DashMap<
    String,
    bool,
>)
    ensures
        memo_agrees(resolver@.modules, resolver@.by_module, memo),
{
    let mut memo = memo_new();
    for i in 0..modules.len()
        invariant
            memo_agrees(resolver@.modules, resolver@.by_module, memo),
    {
        if let CachedSafety::Analyzed(findings) = &modules[i].safety {
            for j in 0..findings.errors.len()
                invariant
                    memo_agrees(resolver@.modules, resolver@.by_module, memo),
            {
                let error = &findings.errors[j];
                if error.parameterized_decorator {
                    let name = trim_calls(error.metadata.as_str());
                    if resolver.split_at_module(name).is_none() && memo_get(&memo, name).is_none() {
                        let safe = resolver.scan_unqualified_decorator_safe(name);
                        memo_insert(&mut memo, name.to_owned(), safe);
                    }
                }
            }
        }
    }
    memo
}

/// Which errors go once the program is resolved. Without evidence that the resolution has
/// proved something, only what static verdicts decide.
pub open spec fn goes_at_the_end(resolver: ResolverView, evidence: bool) -> spec_fn(
    Seq<char>,
    ErrorView,
) -> bool {
    |caller: Seq<char>, error: ErrorView|
        resolver.clears(caller, error, evidence || error.kind == ErrorKind::UnsafeDecoratorCall)
}

/// The modules with the errors that stay once the program is resolved.
pub open spec fn finalized_modules(
    modules: Seq<ModuleView>,
    names: Set<Seq<char>>,
    verdicts: Map<Seq<char>, Verdicts>,
    outcome: OutcomeView,
    facts: ClassFactsView,
) -> Seq<ModuleView> {
    let resolver = ResolverView {
        modules: names,
        by_module: verdicts,
        globally_safe: Some(
            if outcome.has_evidence() {
                outcome.globally_safe
            } else {
                Set::empty()
            },
        ),
        class_bases: Some(facts.class_bases),
        constructor_callees: Some(facts.constructor_callees),
    };
    cleared_modules(modules, goes_at_the_end(resolver, outcome.has_evidence()))
}

impl LibraryCache {
    /// Drops the errors that the completed resolution refutes. Where it has promoted a function
    /// or found a mutation candidate safe, every kind of error may go; else only those that
    /// static verdicts decide.
    pub fn finalize_resolution(
        &mut self,
        module_names: &NameSet,
        func_safety_by_module: &NameMap<NameMap<FunctionSafetyInfo>>,
        outcome: &ResolutionOutcome,
        class_bases: &NameMap<NameList>,
        constructor_callees: &NameMap<ConstructorCallees>,
    )
        ensures
            final(self)@ == (CacheView {
                modules: finalized_modules(
                    old(self)@.modules,
                    module_names@,
                    func_safety_by_module@,
                    outcome@,
                    ClassFactsView {
                        class_bases: class_bases@,
                        constructor_callees: constructor_callees@,
                    },
                ),
                ..old(self)@
            }),
    {
        let empty = NameSet::new();
        let evidence = outcome.has_evidence();
        let index = if evidence { &outcome.globally_safe } else { &empty };
        let plain = SafetyResolver::with_safe_index(module_names, func_safety_by_module, index);
        let memo = scan_decorators(&plain, &self.modules);
        let resolver = plain.with_decorator_cache(&memo).with_class_bases(
            class_bases,
        ).with_constructor_callees(constructor_callees);
        let ghost goes = goes_at_the_end(resolver@, evidence);
        let should_clear = |caller: &ModuleName, error: &CachedError| -> (answer: bool)
            ensures
                answer == goes(caller@, error@),
            {
                let kinds = |kind: ErrorKind| -> (admitted: bool)
                    ensures
                        admitted == (evidence || kind == ErrorKind::UnsafeDecoratorCall),
                    { evidence || kind == ErrorKind::UnsafeDecoratorCall };
                resolver.clears_error(caller, error, kinds)
            };
        let ghost before = self.modules@;
        self.clear_errors_where(should_clear);
        proof {
            lemma_modules_cleared(should_clear, goes, before, self.modules@);
        }
    }
}

} // verus!
