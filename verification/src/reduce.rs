//! Turning merged facts into final verdicts.
//!
//! Import edges are settled against the merged set of modules, errors that the merge refutes
//! are dropped, and what no library could decide alone is put to the program-wide resolution.
use vstd::prelude::*;

use crate::artifact::module_names;
use crate::artifact::CachedModule;
use crate::artifact::CachedSafety;
use crate::artifact::CacheView;
use crate::artifact::ConstructorCallees;
use crate::artifact::FindingsView;
use crate::artifact::LibraryCache;
use crate::artifact::ModuleView;
use crate::artifact::NameList;
use crate::artifact::ReExportView;
use crate::artifact::SafetyView;
use crate::clearing::clear_module_errors;
use crate::clearing::cleared_module;
use crate::clearing::errors_of;
use crate::clearing::finalized_modules;
use crate::clearing::goes_at_the_end;
use crate::clearing::lemma_clearing_adds_nothing;
use crate::clearing::lemma_module_cleared;
use crate::errors::CachedError;
use crate::errors::ErrorKind;
use crate::errors::ErrorView;
use crate::imports::known_module;
use crate::imports::lemma_known_module;
use crate::imports::resolve_all;
use crate::imports::resolve_module_ambiguous;
use crate::imports::targets;
use crate::imports::unresolved;
use crate::imports::without_ambiguous;
use crate::merge::dedupe_implicit_imports;
use crate::merge::fold_constructor_callees;
use crate::merge::fold_fqn_lists;
use crate::merge::folded_bases;
use crate::merge::folded_callees;
use crate::merge::ClassFactsView;
use crate::merge::MergedClassFacts;
use crate::names::absorb;
use crate::names::lemma_views_push;
use crate::names::views;
use crate::names::ModuleName;
use crate::names::NameMap;
use crate::names::NameSet;
use crate::parallel::map_in_parallel;
use crate::propagate::lemma_propagation_exists;
use crate::propagate::lemma_propagation_is_unique;
use crate::propagate::propagated;
use crate::propagate::with_verdicts;
use crate::resolution::candidate_views;
use crate::resolution::emitted_views;
use crate::resolution::index_key;
use crate::resolution::unqualified_index_key;
use crate::resolution::ReplyView;
use crate::resolution::RequestView;
use crate::resolution::ResolutionReply;
use crate::resolution::ResolutionRequest;
use crate::resolver::ResolverView;
use crate::resolver::SafetyResolver;
use crate::resolver::Verdicts;
use crate::safety::CandidateView;
use crate::safety::FunctionSafetyInfo;
use crate::safety::MutationCandidate;

verus! {

/// What the ambiguous imports of each module lead to, for the modules where they lead
/// somewhere. Of several modules of one name the last counts.
pub open spec fn ambiguous_targets(modules: Seq<ModuleView>, names: Set<Seq<char>>) -> Map<
    Seq<char>,
    Set<Seq<char>>,
>
    decreases modules.len(),
{
    if modules.len() == 0 {
        Map::empty()
    } else {
        let before = ambiguous_targets(modules.drop_last(), names);
        let module = modules.last();
        let found = targets(names, module.ambiguous_imports);
        if found == Set::<Seq<char>>::empty() {
            before
        } else {
            before.insert(module.name, found)
        }
    }
}

/// The modules with their ambiguous imports settled.
pub open spec fn all_without_ambiguous(modules: Seq<ModuleView>, names: Set<Seq<char>>) -> Seq<
    ModuleView,
> {
    Seq::new(modules.len(), |i: int| without_ambiguous(modules[i], names))
}

/// The verdicts of each module. Of several modules of one name the last counts.
pub open spec fn verdicts_by_module(modules: Seq<ModuleView>) -> Map<Seq<char>, Verdicts>
    decreases modules.len(),
{
    if modules.len() == 0 {
        Map::empty()
    } else {
        verdicts_by_module(modules.drop_last()).insert(
            modules.last().name,
            modules.last().function_safety,
        )
    }
}

/// The outcome with each implicit import kept once.
pub open spec fn with_implicit_imports_once(safety: SafetyView) -> SafetyView {
    match safety {
        SafetyView::Analyzed(findings) => SafetyView::Analyzed(
            FindingsView {
                implicit_imports: absorb(Seq::empty(), findings.implicit_imports),
                ..findings
            },
        ),
        SafetyView::AnalysisError { .. } => safety,
    }
}

/// The module, settled against all modules: each implicit import is kept once, and where an
/// import was missing or ambiguous, what leads to a module is an import of it now, and the
/// errors that the modules so found refute are gone.
pub open spec fn settled_module(
    module: ModuleView,
    names: Set<Seq<char>>,
    from_ambiguous: Option<Set<Seq<char>>>,
    verdicts: Map<Seq<char>, Verdicts>,
    facts: ClassFactsView,
) -> ModuleView {
    let module = ModuleView { safety: with_implicit_imports_once(module.safety), ..module };
    if module.missing_imports == Set::<Seq<char>>::empty() && from_ambiguous is None {
        module
    } else {
        let found = targets(names, module.missing_imports);
        let resolver = ResolverView {
            modules: match from_ambiguous {
                Some(more) => more.union(found),
                None => found,
            },
            by_module: verdicts,
            globally_safe: None,
            class_bases: Some(facts.class_bases),
            constructor_callees: Some(facts.constructor_callees),
        };
        let edges = ModuleView {
            imports: module.imports.union(found.remove(module.name)),
            missing_imports: unresolved(names, module.missing_imports),
            ..module
        };
        cleared_module(edges, goes_while_settling(resolver))
    }
}

/// Which errors go while modules are settled.
pub open spec fn goes_while_settling(resolver: ResolverView) -> spec_fn(
    Seq<char>,
    ErrorView,
) -> bool {
    |caller: Seq<char>, error: ErrorView| resolver.clears(caller, error, true)
}

/// The names under which the errors of a module may be looked up without a module.
pub open spec fn error_keys(module: ModuleView) -> Set<Seq<char>> {
    Set::new(
        |key: Seq<char>|
            exists|j: int|
                0 <= j < errors_of(module).len() && index_key(
                    (#[trigger] errors_of(module)[j]).metadata,
                ) == Some(key),
    )
}

/// The names under which the errors of any module may be looked up without a module.
pub open spec fn needed_names(modules: Seq<ModuleView>) -> Set<Seq<char>> {
    Set::new(
        |key: Seq<char>|
            exists|i: int|
                0 <= i < modules.len() && error_keys(#[trigger] modules[i]).contains(key),
    )
}

/// What resolution starts from.
pub struct PreparedView {
    /// The modules, settled, with their verdicts taken out.
    pub modules: Seq<ModuleView>,
    pub re_exports: Seq<ReExportView>,
    pub facts: ClassFactsView,
    pub request: RequestView,
}

/// The class facts of the cache, folded into those of its dependencies.
pub open spec fn all_class_facts(cache: CacheView, merged: ClassFactsView) -> ClassFactsView {
    ClassFactsView {
        class_bases: folded_bases(merged.class_bases, cache.class_bases),
        constructor_callees: folded_callees(merged.constructor_callees, cache.constructor_callees),
    }
}

/// The cache with its ambiguous imports settled, its class facts taken out, and its verdicts
/// carried along the re-exports.
pub open spec fn carried(cache: CacheView) -> CacheView {
    propagated(
        CacheView {
            modules: all_without_ambiguous(cache.modules, module_names(cache.modules)),
            re_exports: cache.re_exports,
            class_bases: Seq::empty(),
            constructor_callees: Seq::empty(),
        },
    )
}

/// The modules, settled, with their verdicts taken out.
pub open spec fn settled_modules(
    modules: Seq<ModuleView>,
    names: Set<Seq<char>>,
    ambiguous: Map<Seq<char>, Set<Seq<char>>>,
    verdicts: Map<Seq<char>, Verdicts>,
    facts: ClassFactsView,
) -> Seq<ModuleView> {
    Seq::new(
        modules.len(),
        |i: int|
            settled_module(
                with_verdicts(modules[i], Map::empty()),
                names,
                if ambiguous.contains_key(modules[i].name) {
                    Some(ambiguous[modules[i].name])
                } else {
                    None
                },
                verdicts,
                facts,
            ),
    )
}

/// The mutation candidates of each module.
pub open spec fn all_candidates(modules: Seq<ModuleView>) -> Seq<
    (Seq<char>, Seq<CandidateView>),
> {
    Seq::new(modules.len(), |i: int| (modules[i].name, modules[i].mutation_candidates))
}

/// What resolution starts from, for a cache and the class facts of its dependencies.
pub open spec fn prepared(cache: CacheView, merged: ClassFactsView) -> PreparedView {
    let names = module_names(cache.modules);
    let facts = all_class_facts(cache, merged);
    let verdicts = verdicts_by_module(carried(cache).modules);
    let modules = settled_modules(
        carried(cache).modules,
        names,
        ambiguous_targets(cache.modules, names),
        verdicts,
        facts,
    );
    PreparedView {
        modules,
        re_exports: cache.re_exports,
        facts,
        request: RequestView {
            module_names: names,
            verdicts,
            candidates: all_candidates(modules),
            needed_unqualified: needed_names(modules),
        },
    }
}

/// What the errors that were emitted for the module speak of, in the order in which they came.
pub open spec fn emitted_for(emitted: Seq<(Seq<char>, Seq<char>)>, name: Seq<char>) -> Seq<
    Seq<char>,
>
    decreases emitted.len(),
{
    if emitted.len() == 0 {
        Seq::empty()
    } else if emitted.last().0 == name {
        emitted_for(emitted.drop_last(), name).push(emitted.last().1)
    } else {
        emitted_for(emitted.drop_last(), name)
    }
}

/// The error of a call that mutates an imported variable.
pub open spec fn argument_error(metadata: Seq<char>) -> ErrorView {
    ErrorView {
        kind: ErrorKind::ImportedVarArgument,
        metadata,
        parameterized_decorator: false,
    }
}

/// The module with the errors that were emitted for it.
pub open spec fn with_emitted(module: ModuleView, emitted: Seq<(Seq<char>, Seq<char>)>) -> ModuleView {
    match module.safety {
        SafetyView::Analyzed(findings) => {
            let more = emitted_for(emitted, module.name);
            ModuleView {
                safety: SafetyView::Analyzed(
                    FindingsView {
                        errors: findings.errors + Seq::new(
                            more.len(),
                            |k: int| argument_error(more[k]),
                        ),
                        ..findings
                    },
                ),
                ..module
            }
        },
        SafetyView::AnalysisError { .. } => module,
    }
}

/// The modules with the errors that were emitted for them.
pub open spec fn all_with_emitted(
    modules: Seq<ModuleView>,
    emitted: Seq<(Seq<char>, Seq<char>)>,
) -> Seq<ModuleView> {
    Seq::new(modules.len(), |i: int| with_emitted(modules[i], emitted))
}

/// Whether no earlier module has the name of the `i`-th.
pub open spec fn is_first_of_name(modules: Seq<ModuleView>, i: int) -> bool {
    forall|j: int| 0 <= j < i ==> (#[trigger] modules[j]).name != modules[i].name
}

/// The modules with the verdicts put back, each in the first module of its name.
pub open spec fn given_back(modules: Seq<ModuleView>, verdicts: Map<Seq<char>, Verdicts>) -> Seq<
    ModuleView,
> {
    Seq::new(
        modules.len(),
        |i: int|
            if verdicts.contains_key(modules[i].name) && is_first_of_name(modules, i) {
                with_verdicts(modules[i], verdicts[modules[i].name])
            } else {
                modules[i]
            },
    )
}

/// The modules once the program is resolved.
pub open spec fn completed_modules(
    modules: Seq<ModuleView>,
    names: Set<Seq<char>>,
    facts: ClassFactsView,
    reply: ReplyView,
) -> Seq<ModuleView> {
    given_back(
        finalized_modules(
            all_with_emitted(modules, reply.emitted),
            names,
            reply.verdicts,
            reply.outcome,
            facts,
        ),
        reply.verdicts,
    )
}

/// The cache once the program is resolved, for what the resolution replied.
pub open spec fn resolved(cache: CacheView, merged: ClassFactsView, reply: ReplyView) -> CacheView {
    let start = prepared(cache, merged);
    CacheView {
        modules: completed_modules(
            start.modules,
            start.request.module_names,
            start.facts,
            reply,
        ),
        re_exports: start.re_exports,
        class_bases: Seq::empty(),
        constructor_callees: Seq::empty(),
    }
}

fn dedupe_safety(safety: CachedSafety) -> (r: CachedSafety)
    ensures
        r@ == with_implicit_imports_once(safety@),
{
    match safety {
        CachedSafety::Analyzed(findings) => {
            let mut findings = findings;
            dedupe_implicit_imports(&mut findings.implicit_imports);
            CachedSafety::Analyzed(findings)
        },
        CachedSafety::AnalysisError { message } => CachedSafety::AnalysisError { message },
    }
}

/// Settles one module against all modules.
fn settle_module(
    module: CachedModule,
    module_names: &NameSet,
    from_ambiguous: Option<&NameSet>,
    verdicts: &NameMap<NameMap<FunctionSafetyInfo>>,
    class_bases: &NameMap<NameList>,
    constructor_callees: &NameMap<ConstructorCallees>,
) -> (r: CachedModule)
    ensures
        r@ == settled_module(
            module@,
            module_names@,
            match from_ambiguous {
                Some(more) => Some(more@),
                None => None,
            },
            verdicts@,
            ClassFactsView {
                class_bases: class_bases@,
                constructor_callees: constructor_callees@,
            },
        ),
{
    let CachedModule {
        name,
        safety,
        mut imports,
        missing_imports,
        ambiguous_imports,
        side_effect_imports,
        function_safety,
        mutation_candidates,
    } = module;
    let safety = dedupe_safety(safety);
    if missing_imports.is_empty() && from_ambiguous.is_none() {
        return CachedModule {
            name,
            safety,
            imports,
            missing_imports,
            ambiguous_imports,
            side_effect_imports,
            function_safety,
            mutation_candidates,
        };
    }
    let (found, still_missing) = resolve_all(&mut imports, &name, &missing_imports, module_names);
    let mut resolved_modules = match from_ambiguous {
        Some(more) => more.clone(),
        None => NameSet::new(),
    };
    resolved_modules.extend_with(&found);
    proof {
        if from_ambiguous is None {
            assert(Set::<Seq<char>>::empty().union(found@) =~= found@);
        }
    }
    let edges = CachedModule {
        name,
        safety,
        imports,
        missing_imports: still_missing,
        ambiguous_imports,
        side_effect_imports,
        function_safety,
        mutation_candidates,
    };
    let resolver = SafetyResolver::new(&resolved_modules, verdicts).with_class_bases(
        class_bases,
    ).with_constructor_callees(constructor_callees);
    let ghost goes = goes_while_settling(resolver@);
    let should_clear = |caller: &ModuleName, error: &CachedError| -> (answer: bool)
        ensures
            answer == goes(caller@, error@),
        {
            let every = |kind: ErrorKind| -> (admitted: bool)
                ensures
                    admitted,
                { true };
            resolver.clears_error(caller, error, every)
        };
    let ghost before = edges;
    let (after, _) = clear_module_errors(edges, &should_clear);
    proof {
        lemma_module_cleared(should_clear, goes, before, after);
    }
    after
}

/// The names under which the errors of a module may be looked up without a module.
fn module_error_names(module: &CachedModule) -> (names: NameSet)
    ensures
        names@ == error_keys(module@),
{
    let mut names = NameSet::new();
    match &module.safety {
        CachedSafety::Analyzed(findings) => {
            let ghost errors = errors_of(module@);
            assert(errors == views(findings.errors@));
            for j in 0..findings.errors.len()
                invariant
                    errors == views(findings.errors@),
                    forall|key: Seq<char>| #[trigger]
                        names@.contains(key) <==> exists|k: int|
                            0 <= k < j && index_key((#[trigger] errors[k]).metadata) == Some(key),
            {
                let ghost before = names@;
                assert(errors[j as int] == findings.errors@[j as int]@);
                let found = unqualified_index_key(findings.errors[j].metadata.as_str());
                if let Some(name) = found {
                    names.insert(name.to_owned());
                }
                proof {
                    assert forall|key: Seq<char>| #[trigger]
                        names@.contains(key) <==> exists|k: int|
                            0 <= k < j + 1 && index_key((#[trigger] errors[k]).metadata) == Some(
                                key,
                            ) by {
                        if before.contains(key) {
                            let k = choose|k: int|
                                0 <= k < j && index_key((#[trigger] errors[k]).metadata) == Some(
                                    key,
                                );
                            assert(index_key(errors[k].metadata) == Some(key));
                        }
                        if index_key(errors[j as int].metadata) == Some(key) {
                            assert(names@.contains(key));
                        }
                    }
                }
            }
            assert(names@ =~= error_keys(module@));
        },
        CachedSafety::AnalysisError { .. } => {
            assert(names@ =~= error_keys(module@));
        },
    }
    names
}

/// Texts, in order.
struct TextList {
    texts: Vec<String>,
}

impl View for TextList {
    type V = Seq<Seq<char>>;

    closed spec fn view(&self) -> Seq<Seq<char>> {
        views(self.texts@)
    }
}

/// What was emitted for each module.
fn group_emitted(emitted: Vec<(ModuleName, String)>) -> (groups: NameMap<TextList>)
    ensures
        forall|name: Seq<char>|
            #![trigger groups@.contains_key(name)]
            emitted_for(emitted_views(emitted@), name) == (if groups@.contains_key(name) {
                groups@[name]
            } else {
                Seq::empty()
            }),
{
    let ghost all = emitted_views(emitted@);
    let mut groups: NameMap<TextList> = NameMap::new();
    for entry in it: emitted
        invariant
            it.seq() == emitted@,
            all == emitted_views(emitted@),
            forall|name: Seq<char>|
                #![trigger groups@.contains_key(name)]
                emitted_for(all.take(it.index() as int), name) == (if groups@.contains_key(name) {
                    groups@[name]
                } else {
                    Seq::empty()
                }),
    {
        let ghost i = it.index() as int;
        let ghost before = groups@;
        proof {
            assert(all.take(i + 1).drop_last() =~= all.take(i));
            assert(all.take(i + 1).last() == (entry.0@, entry.1@));
        }
        let (module, metadata) = entry;
        let held = groups.insert(module.to_text(), TextList { texts: Vec::new() });
        let mut texts = match held {
            Some(list) => list.texts,
            None => Vec::new(),
        };
        proof {
            assert(before.contains_key(module@) || views(texts@) =~= Seq::<Seq<char>>::empty());
            lemma_views_push(texts@, metadata);
        }
        texts.push(metadata);
        groups.insert(module.to_text(), TextList { texts });
        proof {
            assert forall|name: Seq<char>|
                #![trigger groups@.contains_key(name)]
                emitted_for(all.take(i + 1), name) == (if groups@.contains_key(name) {
                    groups@[name]
                } else {
                    Seq::empty()
                }) by {
                assert(before.contains_key(name) || !before.contains_key(name));
            }
        }
    }
    assert(all.take(all.len() as int) =~= all);
    groups
}

/// Adds an error for each text.
fn add_argument_errors(errors: &mut Vec<CachedError>, texts: &Vec<String>)
    ensures
        views(final(errors)@) == views(old(errors)@) + Seq::new(
            texts@.len(),
            |k: int| argument_error(texts@[k]@),
        ),
{
    let ghost before = views(errors@);
    let ghost more = Seq::new(texts@.len(), |k: int| argument_error(texts@[k]@));
    assert(before + more.take(0) =~= before);
    for k in 0..texts.len()
        invariant
            more == Seq::new(texts@.len(), |k: int| argument_error(texts@[k]@)),
            views(errors@) == before + more.take(k as int),
    {
        let error = CachedError {
            kind: ErrorKind::ImportedVarArgument,
            metadata: texts[k].clone(),
            parameterized_decorator: false,
        };
        proof {
            lemma_views_push(errors@, error);
            assert(before + more.take(k + 1) =~= (before + more.take(k as int)).push(
                more[k as int],
            ));
        }
        errors.push(error);
    }
    assert(more.take(more.len() as int) =~= more);
}

/// What is kept between asking the resolution and completing it.
pub struct ResolutionState {
    pub module_names: NameSet,
    pub class_facts: MergedClassFacts,
}

fn clone_candidates(candidates: &Vec<MutationCandidate>) -> (r: Vec<MutationCandidate>)
    ensures
        views(r@) == views(candidates@),
{
    let mut r: Vec<MutationCandidate> = Vec::new();
    for i in 0..candidates.len()
        invariant
            views(r@) == views(candidates@).take(i as int),
    {
        let candidate = candidates[i].clone();
        proof {
            lemma_views_push(r@, candidate);
            assert(views(candidates@).take(i + 1) =~= views(candidates@).take(i as int).push(
                candidate@,
            ));
        }
        r.push(candidate);
    }
    assert(views(candidates@).take(candidates@.len() as int) =~= views(candidates@));
    r
}

impl LibraryCache {
    /// Settles the ambiguous imports: `X.Y` that leads to a module of the merged set is an
    /// import of it. Hands back, for each module where any did, what they lead to.
    pub fn resolve_ambiguous_imports(&mut self, names: &NameSet) -> (r: NameMap<NameSet>)
        ensures
            final(self)@ == (CacheView {
                modules: all_without_ambiguous(old(self)@.modules, names@),
                ..old(self)@
            }),
            r@ == ambiguous_targets(old(self)@.modules, names@),
    {
        let mut modules: Vec<CachedModule> = Vec::new();
        std::mem::swap(&mut self.modules, &mut modules);
        let ghost before = views(modules@);
        let ghost given = modules@;
        let settle = |module: CachedModule| -> (r: (CachedModule, NameSet))
            ensures
                r.0@ == without_ambiguous(module@, names@),
                r.1@ == targets(names@, module@.ambiguous_imports),
            { resolve_module_ambiguous(module, names) };
        let results = map_in_parallel(modules, settle);
        let mut after: Vec<CachedModule> = Vec::new();
        let mut r: NameMap<NameSet> = NameMap::new();
        assert(views(after@) =~= all_without_ambiguous(before, names@).take(0));
        for result in it: results
            invariant
                it.seq() == results@,
                before == views(given),
                results@.len() == before.len(),
                forall|i: int|
                    0 <= i < before.len() ==> {
                        let result = #[trigger] results@[i];
                        &&& result.0@ == without_ambiguous(before[i], names@)
                        &&& result.1@ == targets(names@, before[i].ambiguous_imports)
                    },
                views(after@) == all_without_ambiguous(before, names@).take(it.index() as int),
                r@ == ambiguous_targets(before.take(it.index() as int), names@),
        {
            let ghost i = it.index() as int;
            let (module, found) = result;
            proof {
                assert(results@[i] == (module, found));
                lemma_views_push(after@, module);
                assert(all_without_ambiguous(before, names@).take(i + 1)
                    =~= all_without_ambiguous(before, names@).take(i).push(module@));
                assert(before.take(i + 1).drop_last() =~= before.take(i));
            }
            if !found.is_empty() {
                r.insert(module.name.to_text(), found);
            }
            after.push(module);
        }
        proof {
            assert(before.take(before.len() as int) =~= before);
            assert(all_without_ambiguous(before, names@).take(before.len() as int)
                =~= all_without_ambiguous(before, names@));
        }
        self.modules = after;
        r
    }

    /// Takes the verdicts out of the modules.
    fn take_verdicts(&mut self) -> (r: NameMap<NameMap<FunctionSafetyInfo>>)
        ensures
            final(self)@ == (CacheView {
                modules: Seq::new(
                    old(self)@.modules.len(),
                    |i: int| with_verdicts(old(self)@.modules[i], Map::empty()),
                ),
                ..old(self)@
            }),
            r@ == verdicts_by_module(old(self)@.modules),
    {
        let mut modules: Vec<CachedModule> = Vec::new();
        std::mem::swap(&mut self.modules, &mut modules);
        let ghost before = views(modules@);
        let ghost emptied = Seq::new(
            before.len(),
            |i: int| with_verdicts(before[i], Map::empty()),
        );
        let mut after: Vec<CachedModule> = Vec::new();
        let mut r: NameMap<NameMap<FunctionSafetyInfo>> = NameMap::new();
        assert(views(after@) =~= emptied.take(0));
        for module in it: modules
            invariant
                it.seq() == modules@,
                before == views(modules@),
                emptied == Seq::new(
                    before.len(),
                    |i: int| with_verdicts(before[i], Map::empty()),
                ),
                views(after@) == emptied.take(it.index() as int),
                r@ == verdicts_by_module(before.take(it.index() as int)),
        {
            let ghost i = it.index() as int;
            assert(before[i] == module@);
            let mut module = module;
            let mut verdicts: NameMap<FunctionSafetyInfo> = NameMap::new();
            std::mem::swap(&mut module.function_safety, &mut verdicts);
            r.insert(module.name.to_text(), verdicts);
            proof {
                lemma_views_push(after@, module);
                assert(emptied.take(i + 1) =~= emptied.take(i).push(module@));
                assert(before.take(i + 1).drop_last() =~= before.take(i));
            }
            after.push(module);
        }
        proof {
            assert(before.take(before.len() as int) =~= before);
            assert(emptied.take(before.len() as int) =~= emptied);
        }
        self.modules = after;
        r
    }

    /// The names of errors that may be looked up without a module.
    pub fn unqualified_error_names(&self) -> (names: NameSet)
        ensures
            names@ == needed_names(self@.modules),
    {
        let mut modules: Vec<&CachedModule> = Vec::new();
        for i in 0..self.modules.len()
            invariant
                modules@.len() == i,
                forall|j: int| 0 <= j < i ==> *(#[trigger] modules@[j]) == self.modules@[j],
        {
            modules.push(&self.modules[i]);
        }
        let collect = |module: &CachedModule| -> (names: NameSet)
            ensures
                names@ == error_keys(module@),
            { module_error_names(module) };
        let sets = map_in_parallel(modules, collect);
        let mut names = NameSet::new();
        for i in 0..sets.len()
            invariant
                sets@.len() == self.modules@.len(),
                forall|j: int|
                    0 <= j < sets@.len() ==> (#[trigger] sets@[j])@ == error_keys(self@.modules[j]),
                forall|key: Seq<char>| #[trigger]
                    names@.contains(key) <==> exists|j: int|
                        0 <= j < i && error_keys(#[trigger] self@.modules[j]).contains(key),
        {
            let ghost before = names@;
            names.extend_with(&sets[i]);
            proof {
                assert(sets@[i as int]@ == error_keys(self@.modules[i as int]));
                assert forall|key: Seq<char>| #[trigger]
                    names@.contains(key) <==> exists|j: int|
                        0 <= j < i + 1 && error_keys(#[trigger] self@.modules[j]).contains(key) by {
                    if before.contains(key) {
                        let j = choose|j: int|
                            0 <= j < i && error_keys(#[trigger] self@.modules[j]).contains(key);
                        assert(error_keys(self@.modules[j]).contains(key));
                    }
                }
            }
        }
        assert(names@ =~= needed_names(self@.modules));
        names
    }

    /// Settles every module against all modules, in parallel.
    fn settle_modules(
        &mut self,
        names: &NameSet,
        ambiguous: &NameMap<NameSet>,
        verdicts: &NameMap<NameMap<FunctionSafetyInfo>>,
        facts: &MergedClassFacts,
    )
        ensures
            final(self)@ == (CacheView { modules: final(self)@.modules, ..old(self)@ }),
            final(self)@.modules.len() == old(self)@.modules.len(),
            forall|i: int|
                0 <= i < old(self)@.modules.len() ==> #[trigger] final(self)@.modules[i]
                    == settled_module(
                    old(self)@.modules[i],
                    names@,
                    if ambiguous@.contains_key(old(self)@.modules[i].name) {
                        Some(ambiguous@[old(self)@.modules[i].name])
                    } else {
                        None
                    },
                    verdicts@,
                    facts@,
                ),
    {
        let mut modules: Vec<CachedModule> = Vec::new();
        std::mem::swap(&mut self.modules, &mut modules);
        let ghost before = views(modules@);
        let settle = |module: CachedModule| -> (r: CachedModule)
            ensures
                r@ == settled_module(
                    module@,
                    names@,
                    if ambiguous@.contains_key(module@.name) {
                        Some(ambiguous@[module@.name])
                    } else {
                        None
                    },
                    verdicts@,
                    facts@,
                ),
            {
                let from_ambiguous = ambiguous.get(module.name.as_str());
                settle_module(
                    module,
                    names,
                    from_ambiguous,
                    verdicts,
                    &facts.class_bases,
                    &facts.constructor_callees,
                )
            };
        let ghost given = modules@;
        let after = map_in_parallel(modules, settle);
        proof {
            assert forall|i: int| 0 <= i < before.len() implies #[trigger] views(after@)[i]
                == settled_module(
                before[i],
                names@,
                if ambiguous@.contains_key(before[i].name) {
                    Some(ambiguous@[before[i].name])
                } else {
                    None
                },
                verdicts@,
                facts@,
            ) by {
                assert(call_ensures(settle, (given[i],), after@[i]));
            }
        }
        self.modules = after;
    }

    /// Makes the cache ready for resolution: settles its imports against the merged set, carries
    /// verdicts along the re-exports, and drops the errors that this refutes. The verdicts and
    /// the class facts are taken out.
    pub fn prepare_resolution(&mut self, merged: MergedClassFacts) -> (r: (
        ResolutionState,
        ResolutionRequest,
    ))
        ensures
            ({
                let start = prepared(old(self)@, merged@);
                &&& final(self)@ == (CacheView {
                    modules: start.modules,
                    re_exports: start.re_exports,
                    class_bases: Seq::empty(),
                    constructor_callees: Seq::empty(),
                })
                &&& r.0.module_names@ == start.request.module_names
                &&& r.0.class_facts@ == start.facts
                &&& r.1@ == start.request
            }),
    {
        let ghost cache = self@;
        let ghost start = prepared(cache, merged@);
        let module_names = self.module_name_set();
        let ambiguous = self.resolve_ambiguous_imports(&module_names);
        let mut facts = merged;
        let mut class_bases: Vec<(ModuleName, Vec<ModuleName>)> = Vec::new();
        std::mem::swap(&mut self.class_bases, &mut class_bases);
        fold_fqn_lists(&mut facts.class_bases, class_bases);
        let mut constructor_callees: Vec<(ModuleName, ConstructorCallees)> = Vec::new();
        std::mem::swap(&mut self.constructor_callees, &mut constructor_callees);
        fold_constructor_callees(&mut facts.constructor_callees, constructor_callees);
        let ghost open = self@;
        proof {
            assert(open.class_bases =~= Seq::empty());
            assert(open.constructor_callees =~= Seq::empty());
        }
        self.propagate_re_export_safety();
        proof {
            lemma_propagation_is_unique(open, self@, self@);
            assert(self@ == carried(cache));
        }
        let verdicts = self.take_verdicts();
        self.settle_modules(&module_names, &ambiguous, &verdicts, &facts);
        assert(self@.modules =~= start.modules);
        let needed_unqualified = self.unqualified_error_names();
        let candidates = self.module_candidates();
        let request = ResolutionRequest {
            module_names: module_names.clone(),
            verdicts,
            candidates,
            needed_unqualified,
        };
        (ResolutionState { module_names, class_facts: facts }, request)
    }

    /// The mutation candidates of each module.
    fn module_candidates(&self) -> (r: Vec<(ModuleName, Vec<MutationCandidate>)>)
        ensures
            candidate_views(r@) == all_candidates(self@.modules),
    {
        let mut r: Vec<(ModuleName, Vec<MutationCandidate>)> = Vec::new();
        for i in 0..self.modules.len()
            invariant
                candidate_views(r@) == all_candidates(self@.modules).take(i as int),
        {
            let ghost before = r@;
            let module = &self.modules[i];
            let entry = (module.name.clone(), clone_candidates(&module.mutation_candidates));
            assert(candidate_views(before.push(entry)) =~= candidate_views(before).push(
                (entry.0@, views(entry.1@)),
            ));
            assert(all_candidates(self@.modules).take(i + 1) =~= all_candidates(
                self@.modules,
            ).take(i as int).push((entry.0@, views(entry.1@))));
            r.push(entry);
        }
        assert(candidate_views(r@) =~= all_candidates(self@.modules));
        r
    }

    /// Adds the errors that were emitted for the modules.
    fn add_emitted(&mut self, emitted: Vec<(ModuleName, String)>)
        ensures
            final(self)@ == (CacheView {
                modules: all_with_emitted(old(self)@.modules, emitted_views(emitted@)),
                ..old(self)@
            }),
    {
        let ghost all = emitted_views(emitted@);
        let groups = group_emitted(emitted);
        let mut modules: Vec<CachedModule> = Vec::new();
        std::mem::swap(&mut self.modules, &mut modules);
        let ghost before = views(modules@);
        let ghost goal = all_with_emitted(before, all);
        let mut after: Vec<CachedModule> = Vec::new();
        assert(views(after@) =~= goal.take(0));
        for module in it: modules
            invariant
                it.seq() == modules@,
                before == views(modules@),
                goal == all_with_emitted(before, all),
                forall|name: Seq<char>|
                    #![trigger groups@.contains_key(name)]
                    emitted_for(all, name) == (if groups@.contains_key(name) {
                        groups@[name]
                    } else {
                        Seq::empty()
                    }),
                views(after@) == goal.take(it.index() as int),
        {
            let ghost i = it.index() as int;
            assert(before[i] == module@);
            let ghost was = module@;
            let next = module_with_emitted(module, &groups, Ghost(all));
            proof {
                lemma_views_push(after@, next);
                assert(goal.take(i + 1) =~= goal.take(i).push(next@));
            }
            after.push(next);
        }
        assert(goal.take(before.len() as int) =~= goal);
        self.modules = after;
    }

    /// Puts the verdicts back, each in the first module of its name.
    fn give_verdicts_back(&mut self, verdicts: NameMap<NameMap<FunctionSafetyInfo>>)
        ensures
            final(self)@ == (CacheView {
                modules: given_back(old(self)@.modules, verdicts@),
                ..old(self)@
            }),
    {
        let ghost all = verdicts@;
        let mut verdicts = verdicts;
        let mut modules: Vec<CachedModule> = Vec::new();
        std::mem::swap(&mut self.modules, &mut modules);
        let ghost before = views(modules@);
        let ghost goal = given_back(before, all);
        let mut given = NameSet::new();
        let mut after: Vec<CachedModule> = Vec::new();
        assert(views(after@) =~= goal.take(0));
        for module in it: modules
            invariant
                it.seq() == modules@,
                before == views(modules@),
                goal == given_back(before, all),
                verdicts@.dom() == all.dom(),
                forall|name: Seq<char>| #[trigger]
                    given@.contains(name) <==> exists|j: int|
                        0 <= j < it.index() && (#[trigger] before[j]).name == name,
                forall|name: Seq<char>|
                    all.contains_key(name) && !given@.contains(name) ==> #[trigger] verdicts@[name]
                        == all[name],
                views(after@) == goal.take(it.index() as int),
        {
            let ghost i = it.index() as int;
            let ghost given0 = given@;
            let ghost verdicts0 = verdicts@;
            assert(before[i] == module@);
            let mut module = module;
            let ghost was = module@;
            let fresh = given.insert(module.name.to_text());
            assert(fresh == is_first_of_name(before, i)) by {
                if !fresh {
                    let j = choose|j: int| 0 <= j < i && (#[trigger] before[j]).name == was.name;
                    assert(before[j].name == was.name);
                } else {
                    assert forall|j: int| 0 <= j < i implies (#[trigger] before[j]).name
                        != before[i].name by {
                        if before[j].name == was.name {
                            assert(given0.contains(was.name));
                        }
                    }
                }
            }
            if fresh && verdicts.contains_key(module.name.as_str()) {
                assert(all.contains_key(was.name));
                let held = verdicts.insert(module.name.to_text(), NameMap::new());
                if let Some(fs) = held {
                    module.function_safety = fs;
                }
            }
            proof {
                assert(verdicts@.dom() =~= all.dom());
                assert(module@ == goal[i]);
                lemma_views_push(after@, module);
                assert(goal.take(i + 1) =~= goal.take(i).push(module@));
                assert forall|name: Seq<char>| #[trigger]
                    given@.contains(name) <==> exists|j: int|
                        0 <= j < i + 1 && (#[trigger] before[j]).name == name by {
                    if given0.contains(name) {
                        let j = choose|j: int| 0 <= j < i && (#[trigger] before[j]).name == name;
                        assert(before[j].name == name);
                    }
                    if name == was.name {
                        assert(before[i].name == name);
                    }
                }
            }
            after.push(module);
        }
        assert(goal.take(before.len() as int) =~= goal);
        self.modules = after;
    }

    /// Completes resolution with what it replied: adds the errors that it emitted, drops those
    /// that it refutes, and puts the verdicts back.
    pub fn complete_resolution(&mut self, state: ResolutionState, reply: ResolutionReply)
        ensures
            final(self)@ == (CacheView {
                modules: completed_modules(
                    old(self)@.modules,
                    state.module_names@,
                    state.class_facts@,
                    reply@,
                ),
                ..old(self)@
            }),
    {
        let ResolutionReply { verdicts, outcome, emitted } = reply;
        self.add_emitted(emitted);
        self.finalize_resolution(
            &state.module_names,
            &verdicts,
            &outcome,
            &state.class_facts.class_bases,
            &state.class_facts.constructor_callees,
        );
        self.give_verdicts_back(verdicts);
    }

    /// Resolves missing imports against the merged cache and drops the errors that the verdicts
    /// of the whole program refute. `resolve_program` is asked once, with the settled cache.
    pub fn resolve_cross_library_errors<F: FnOnce(ResolutionRequest) -> ResolutionReply>(
        &mut self,
        merged: MergedClassFacts,
        resolve_program: F,
    )
        requires
            forall|request: ResolutionRequest|
                request@ == prepared(old(self)@, merged@).request ==> #[trigger] call_requires(
                    resolve_program,
                    (request,),
                ),
        ensures
            exists|request: ResolutionRequest, reply: ResolutionReply| #[trigger]
                call_ensures(resolve_program, (request,), reply) && request@ == prepared(
                    old(self)@,
                    merged@,
                ).request && final(self)@ == resolved(old(self)@, merged@, reply@),
    {
        let (state, request) = self.prepare_resolution(merged);
        let reply = resolve_program(request);
        self.complete_resolution(state, reply);
    }
}

/// The module with the errors that were emitted for it.
fn module_with_emitted(
    module: CachedModule,
    groups: &NameMap<TextList>,
    Ghost(emitted): Ghost<Seq<(Seq<char>, Seq<char>)>>,
) -> (r: CachedModule)
    requires
        forall|name: Seq<char>|
            #![trigger groups@.contains_key(name)]
            emitted_for(emitted, name) == (if groups@.contains_key(name) {
                groups@[name]
            } else {
                Seq::empty()
            }),
    ensures
        r@ == with_emitted(module@, emitted),
{
    let CachedModule {
        name,
        safety,
        imports,
        missing_imports,
        ambiguous_imports,
        side_effect_imports,
        function_safety,
        mutation_candidates,
    } = module;
    let safety = match safety {
        CachedSafety::Analyzed(findings) => {
            let mut findings = findings;
            let ghost had = findings@;
            let ghost more = emitted_for(emitted, name@);
            match groups.get(name.as_str()) {
                Some(list) => {
                    add_argument_errors(&mut findings.errors, &list.texts);
                    assert(Seq::new(list.texts@.len(), |k: int| argument_error(list.texts@[k]@))
                        =~= Seq::new(more.len(), |k: int| argument_error(more[k])));
                },
                None => {
                    assert(had.errors + Seq::new(more.len(), |k: int| argument_error(more[k]))
                        =~= had.errors);
                },
            }
            CachedSafety::Analyzed(findings)
        },
        CachedSafety::AnalysisError { message } => CachedSafety::AnalysisError { message },
    };
    CachedModule {
        name,
        safety,
        imports,
        missing_imports,
        ambiguous_imports,
        side_effect_imports,
        function_safety,
        mutation_candidates,
    }
}

/// Settling a module leaves as missing only what leads nowhere, makes it no import of itself,
/// and adds imports of known modules only.
pub proof fn lemma_settled_edges(
    module: ModuleView,
    names: Set<Seq<char>>,
    from_ambiguous: Option<Set<Seq<char>>>,
    verdicts: Map<Seq<char>, Verdicts>,
    facts: ClassFactsView,
    name: Seq<char>,
)
    ensures
        ({
            let settled = settled_module(module, names, from_ambiguous, verdicts, facts);
            &&& settled.missing_imports.contains(name) <==> module.missing_imports.contains(name)
                && known_module(names, name) is None
            &&& settled.imports.contains(module.name) == module.imports.contains(module.name)
            &&& module.imports.contains(name) ==> settled.imports.contains(name)
            &&& settled.imports.contains(name) ==> module.imports.contains(name) || names.contains(
                name,
            )
        }),
{
    let found = targets(names, module.missing_imports);
    if found.contains(name) {
        let from = choose|from: Seq<char>| #[trigger]
            module.missing_imports.contains(from) && known_module(names, from) == Some(name);
        lemma_known_module(names, from);
    }
}

/// Settling a module adds no error.
pub proof fn lemma_settling_adds_no_error(
    module: ModuleView,
    names: Set<Seq<char>>,
    from_ambiguous: Option<Set<Seq<char>>>,
    verdicts: Map<Seq<char>, Verdicts>,
    facts: ClassFactsView,
    error: ErrorView,
)
    ensures
        ({
            let settled = settled_module(module, names, from_ambiguous, verdicts, facts);
            &&& errors_of(settled).contains(error) ==> errors_of(module).contains(error)
            &&& errors_of(module).contains(error) && !error.kind.hangs_on_import() ==> errors_of(
                settled,
            ).contains(error)
        }),
{
    let once = ModuleView { safety: with_implicit_imports_once(module.safety), ..module };
    let found = targets(names, module.missing_imports);
    let edges = ModuleView {
        imports: module.imports.union(found.remove(module.name)),
        missing_imports: unresolved(names, module.missing_imports),
        ..once
    };
    let resolver = ResolverView {
        modules: match from_ambiguous {
            Some(more) => more.union(found),
            None => found,
        },
        by_module: verdicts,
        globally_safe: None,
        class_bases: Some(facts.class_bases),
        constructor_callees: Some(facts.constructor_callees),
    };
    lemma_clearing_adds_nothing(edges, goes_while_settling(resolver), error);
}

proof fn lemma_emitted_index(emitted: Seq<(Seq<char>, Seq<char>)>, k: int)
    requires
        0 <= k < emitted.len(),
    ensures
        emitted_for(emitted, emitted[k].0).contains(emitted[k].1),
    decreases emitted.len(),
{
    let name = emitted[k].0;
    let shorter = emitted.drop_last();
    let rest = emitted_for(shorter, name);
    if k < shorter.len() {
        lemma_emitted_index(shorter, k);
        assert(shorter[k] == emitted[k]);
        let j = rest.index_of(emitted[k].1);
        assert(rest[j] == emitted[k].1);
        if emitted.last().0 == name {
            assert(rest.push(emitted.last().1)[j] == emitted[k].1);
        }
    } else {
        assert(rest.push(emitted.last().1)[rest.len() as int] == emitted[k].1);
    }
}

/// An error that the resolution emits for a module that was analysed is held against it in the
/// end: nothing clears it.
pub proof fn lemma_emitted_errors_stay(
    modules: Seq<ModuleView>,
    names: Set<Seq<char>>,
    facts: ClassFactsView,
    reply: ReplyView,
    i: int,
    k: int,
)
    requires
        0 <= i < modules.len(),
        modules[i].safety is Analyzed,
        0 <= k < reply.emitted.len(),
        reply.emitted[k].0 == modules[i].name,
    ensures
        errors_of(completed_modules(modules, names, facts, reply)[i]).contains(
            argument_error(reply.emitted[k].1),
        ),
{
    let emitted = all_with_emitted(modules, reply.emitted);
    let module = emitted[i];
    let more = emitted_for(reply.emitted, modules[i].name);
    lemma_emitted_index(reply.emitted, k);
    let j = more.index_of(reply.emitted[k].1);
    assert(more[j] == reply.emitted[k].1);
    let error = argument_error(reply.emitted[k].1);
    let had = errors_of(modules[i]);
    assert(errors_of(module)[had.len() + j] == error);
    assert(errors_of(module).contains(error));
    let resolver = ResolverView {
        modules: names,
        by_module: reply.verdicts,
        globally_safe: Some(
            if reply.outcome.has_evidence() {
                reply.outcome.globally_safe
            } else {
                Set::empty()
            },
        ),
        class_bases: Some(facts.class_bases),
        constructor_callees: Some(facts.constructor_callees),
    };
    lemma_clearing_adds_nothing(
        module,
        goes_at_the_end(resolver, reply.outcome.has_evidence()),
        error,
    );
}

/// The first module of a name has in the end the verdicts that the resolution replied for it.
pub proof fn lemma_verdicts_come_back(
    modules: Seq<ModuleView>,
    names: Set<Seq<char>>,
    facts: ClassFactsView,
    reply: ReplyView,
    i: int,
)
    requires
        0 <= i < modules.len(),
        is_first_of_name(modules, i),
        reply.verdicts.contains_key(modules[i].name),
    ensures
        completed_modules(modules, names, facts, reply)[i].function_safety
            == reply.verdicts[modules[i].name],
{
    let emitted = all_with_emitted(modules, reply.emitted);
    let finalized = finalized_modules(
        emitted,
        names,
        reply.verdicts,
        reply.outcome,
        facts,
    );
    assert forall|j: int| 0 <= j < modules.len() implies (#[trigger] finalized[j]).name
        == modules[j].name by {
        assert(emitted[j].name == modules[j].name);
    }
    assert(is_first_of_name(finalized, i)) by {
        assert forall|j: int| 0 <= j < i implies (#[trigger] finalized[j]).name
            != finalized[i].name by {
            assert(modules[j].name != modules[i].name);
        }
    }
}

/// Resolving a program neither adds, drops nor renames a module, and leaves no ambiguous import.
pub proof fn lemma_resolving_keeps_modules(
    cache: CacheView,
    merged: ClassFactsView,
    reply: ReplyView,
)
    ensures
        resolved(cache, merged, reply).modules.len() == cache.modules.len(),
        forall|i: int|
            0 <= i < cache.modules.len() ==> {
                let module = #[trigger] resolved(cache, merged, reply).modules[i];
                &&& module.name == cache.modules[i].name
                &&& module.ambiguous_imports.is_empty()
                &&& module.side_effect_imports == cache.modules[i].side_effect_imports
                &&& module.mutation_candidates == cache.modules[i].mutation_candidates
            },
        resolved(cache, merged, reply).re_exports == cache.re_exports,
{
    let start = prepared(cache, merged);
    let carried_cache = carried(cache);
    lemma_propagation_exists(
        CacheView {
            modules: all_without_ambiguous(cache.modules, module_names(cache.modules)),
            re_exports: cache.re_exports,
            class_bases: Seq::empty(),
            constructor_callees: Seq::empty(),
        },
    );
    assert forall|i: int| 0 <= i < cache.modules.len() implies {
        let module = #[trigger] resolved(cache, merged, reply).modules[i];
        &&& module.name == cache.modules[i].name
        &&& module.ambiguous_imports.is_empty()
        &&& module.side_effect_imports == cache.modules[i].side_effect_imports
        &&& module.mutation_candidates == cache.modules[i].mutation_candidates
    } by {
        assert(carried_cache.modules[i] == with_verdicts(
            without_ambiguous(cache.modules[i], module_names(cache.modules)),
            carried_cache.modules[i].function_safety,
        ));
        let settled = start.modules[i];
        assert(settled.name == cache.modules[i].name);
        assert(with_emitted(settled, reply.emitted).name == settled.name);
    }
}

} // verus!
