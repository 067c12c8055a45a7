use lifeguard::artifact::CachedExports;
use lifeguard::artifact::CachedModule;
use lifeguard::artifact::CachedModuleSafety;
use lifeguard::artifact::CachedReExport;
use lifeguard::artifact::CachedSafety;
use lifeguard::artifact::ConstructorCallees;
use lifeguard::artifact::DerivedCallee;
use lifeguard::artifact::LibraryCache;
use lifeguard::artifact::NameList;
use lifeguard::bundled_stubs::GraphEdgeSets;
use lifeguard::bundled_stubs::StubModule;
use lifeguard::errors::CachedError;
use lifeguard::errors::ErrorKind;
use lifeguard::imports::resolve_and_add_import_edge;
use lifeguard::imports::resolve_to_known_module;
use lifeguard::merge::MergedClassFacts;
use lifeguard::mro::c3_linearize;
use lifeguard::names::ModuleName;
use lifeguard::names::NameMap;
use lifeguard::names::NameSet;
use lifeguard::resolution::unqualified_index_key;
use lifeguard::resolution::ResolutionOutcome;
use lifeguard::resolution::ResolutionReply;
use lifeguard::resolution::ResolutionRequest;
use lifeguard::resolver::constructors;
use lifeguard::resolver::is_call_verified_safe;
use lifeguard::resolver::is_class_like_entry;
use lifeguard::resolver::lookup_decorator_in_safety_map;
use lifeguard::resolver::lookup_in_safety_map;
use lifeguard::resolver::SafetyResolver;
use lifeguard::safety::FunctionSafety;
use lifeguard::safety::FunctionSafetyInfo;
use lifeguard::safety::ImportedArgs;
use lifeguard::safety::MutationCandidate;
use lifeguard::safety::MutationCandidateSite;
use lifeguard::workspace::ReduceError;
use lifeguard::workspace::ReduceWorkspace;
use rayon::ThreadPoolBuilder;

fn name(text: &str) -> ModuleName {
    ModuleName::from_str(text)
}

fn names(texts: &[&str]) -> Vec<ModuleName> {
    texts.iter().map(|text| name(text)).collect()
}

fn set(texts: &[&str]) -> NameSet {
    let mut r = NameSet::new();
    for text in texts {
        r.insert((*text).to_owned());
    }
    r
}

fn members(set: &NameSet) -> Vec<String> {
    let mut r: Vec<String> = (0..set.len()).map(|i| set.item_at(i).to_owned()).collect();
    r.sort();
    r
}

fn verdicts(entries: &[(&str, FunctionSafety)]) -> NameMap<FunctionSafetyInfo> {
    let mut r = NameMap::new();
    for (local, verdict) in entries {
        r.insert((*local).to_owned(), FunctionSafetyInfo::new(*verdict));
    }
    r
}

fn by_module(
    entries: &[(&str, &[(&str, FunctionSafety)])],
) -> NameMap<NameMap<FunctionSafetyInfo>> {
    let mut r = NameMap::new();
    for (module, functions) in entries {
        r.insert((*module).to_owned(), verdicts(functions));
    }
    r
}

fn bases(entries: &[(&str, &[&str])]) -> NameMap<NameList> {
    let mut r = NameMap::new();
    for (class, of_class) in entries {
        r.insert((*class).to_owned(), NameList { names: names(of_class) });
    }
    r
}

fn error(kind: ErrorKind, metadata: &str) -> CachedError {
    CachedError { kind, metadata: metadata.to_owned(), parameterized_decorator: false }
}

fn decorator_error(metadata: &str) -> CachedError {
    CachedError {
        kind: ErrorKind::UnsafeDecoratorCall,
        metadata: metadata.to_owned(),
        parameterized_decorator: true,
    }
}

fn module_with(module: &str, errors: Vec<CachedError>) -> CachedModule {
    let mut r = CachedModule::empty(name(module));
    r.safety = CachedSafety::Analyzed(CachedModuleSafety {
        errors,
        force_imports_eager_overrides: Vec::new(),
        implicit_imports: Vec::new(),
    });
    r
}

fn errors_of(module: &CachedModule) -> &Vec<CachedError> {
    match &module.safety {
        CachedSafety::Analyzed(findings) => &findings.errors,
        CachedSafety::AnalysisError { message } => panic!("analysis failed: {}", message),
    }
}

fn cache_of(modules: Vec<CachedModule>) -> LibraryCache {
    LibraryCache {
        modules,
        exports: CachedExports { re_exports: Vec::new() },
        ..Default::default()
    }
}

/// A resolution that finds nothing: the verdicts stay, and there is no evidence.
fn nothing_found(request: ResolutionRequest) -> ResolutionReply {
    ResolutionReply {
        verdicts: request.verdicts,
        outcome: ResolutionOutcome {
            promoted: NameSet::new(),
            globally_safe: NameSet::new(),
            resolved_to_safe: false,
        },
        emitted: Vec::new(),
    }
}

#[test]
fn reduce_workspace_rejects_empty_cache_set() {
    let merged = ReduceWorkspace::merge(Vec::new(), Vec::new());
    assert!(merged.is_err());
    assert!(matches!(merged, Err(ReduceError::EmptyCacheSet)));
}

#[test]
fn reduce_workspace_merge_preserves_historical_cache_order() {
    fn cache_with_candidate(module: ModuleName, call: &str) -> LibraryCache {
        let mut cached_module = CachedModule::empty(module);
        cached_module.mutation_candidates.push(MutationCandidate {
            callee: ModuleName::from_str("dependency.mutate"),
            site: MutationCandidateSite::ModuleScope { call: ModuleName::from_str(call) },
            arg_offset: 0,
            imported_args: ImportedArgs::default(),
        });
        LibraryCache {
            modules: vec![cached_module],
            exports: CachedExports { re_exports: Vec::new() },
            ..Default::default()
        }
    }

    let module = ModuleName::from_str("pkg.module");
    let workspace = match ReduceWorkspace::merge(
        vec![
            cache_with_candidate(module.clone(), "first"),
            cache_with_candidate(module.clone(), "middle"),
            cache_with_candidate(module.clone(), "last"),
        ],
        Vec::new(),
    ) {
        Ok(workspace) => workspace,
        Err(_) => panic!("nonempty caches should merge"),
    };
    let merged = workspace
        .cache()
        .modules
        .iter()
        .find(|cached| cached.name == module)
        .expect("merged cache should contain the input module");
    let calls: Vec<&str> = merged
        .mutation_candidates
        .iter()
        .map(|candidate| match &candidate.site {
            MutationCandidateSite::ModuleScope { call } => call.as_str(),
            _ => panic!("expected module-scope mutation candidate"),
        })
        .collect();

    assert_eq!(calls, ["first", "last", "middle"]);
}

#[test]
fn mro_resolves_inherited_method_to_base_verdict() {
    let modules = set(&["base", "sub"]);
    let by_module = by_module(&[
        ("base", &[("Base.method", FunctionSafety::Safe)]),
        ("sub", &[]),
    ]);
    let class_bases = bases(&[("sub.Sub", &["base.Base"])]);

    let resolver = SafetyResolver::new(&modules, &by_module).with_class_bases(&class_bases);
    assert!(
        resolver.is_call_verified_safe("sub.Sub.method"),
        "an inherited method resolves to the defining base's Safe verdict via the MRO",
    );

    let no_mro = SafetyResolver::new(&modules, &by_module);
    assert!(
        !no_mro.is_call_verified_safe("sub.Sub.method"),
        "without MRO data an inherited method is not verified (no class fallback)",
    );
}

#[test]
fn mro_own_unsafe_override_shadows_safe_base() {
    let modules = set(&["base", "sub"]);
    let by_module = by_module(&[
        ("base", &[("Base.method", FunctionSafety::Safe)]),
        ("sub", &[("Sub.method", FunctionSafety::Unsafe)]),
    ]);
    let class_bases = bases(&[("sub.Sub", &["base.Base"])]);

    let resolver = SafetyResolver::new(&modules, &by_module).with_class_bases(&class_bases);
    assert!(
        !resolver.is_call_verified_safe("sub.Sub.method"),
        "an own Unsafe override shadows the base's Safe verdict; the MRO must not be walked",
    );
}

#[test]
fn mro_diamond_prefers_right_branch_override_over_shared_ancestor() {
    let modules = set(&["m"]);
    let by_module = by_module(&[(
        "m",
        &[("A.method", FunctionSafety::Safe), ("C.method", FunctionSafety::Unsafe)],
    )]);
    let class_bases =
        bases(&[("m.D", &["m.B", "m.C"]), ("m.B", &["m.A"]), ("m.C", &["m.A"])]);

    let resolver = SafetyResolver::new(&modules, &by_module).with_class_bases(&class_bases);
    assert!(
        !resolver.is_call_verified_safe("m.D.method"),
        "diamond method resolves via C3 to the Unsafe right-branch override, not the Safe ancestor",
    );
}

#[test]
fn clear_verified_errors_processes_every_module() {
    let module_a = "test.module_a";
    let module_b = "test.module_b";
    let mut cache = cache_of(vec![
        module_with(
            module_a,
            vec![error(ErrorKind::UnknownFunctionCall, "test.module_a.helper()")],
        ),
        module_with(
            module_b,
            vec![error(ErrorKind::UnknownFunctionCall, "test.module_b.helper()")],
        ),
    ]);
    let module_names = set(&[module_a, module_b]);
    let func_safety_by_module = by_module(&[
        (module_a, &[("helper", FunctionSafety::Safe)]),
        (module_b, &[("helper", FunctionSafety::Safe)]),
    ]);
    let globally_safe_funcs = set(&["helper"]);

    let resolver = SafetyResolver::with_safe_index(
        &module_names,
        &func_safety_by_module,
        &globally_safe_funcs,
    );
    let cleared = ThreadPoolBuilder::new()
        .num_threads(1)
        .build()
        .expect("should build test thread pool")
        .install(|| {
            cache.clear_errors_where(|caller, error| {
                resolver.clears_error(caller, error, |_| true)
            })
        });

    assert!(cleared, "expected at least one verified error to be removed");
    assert!(
        cache.modules.iter().all(CachedModule::is_safe),
        "all modules should have their verified errors cleared",
    );
    assert!(!cache.clear_errors_where(|_, _| true));
}

#[test]
fn classes_are_put_in_c3_order() {
    let class_bases =
        bases(&[("D", &["B", "C"]), ("B", &["A"]), ("C", &["A"]), ("A", &["object"])]);
    assert_eq!(
        c3_linearize(&class_bases, &name("D")),
        names(&["D", "B", "C", "A", "object"]),
    );
    assert_eq!(c3_linearize(&class_bases, &name("object")), names(&["object"]));
}

#[test]
fn a_class_that_cannot_be_ordered_stands_alone() {
    let crossed = bases(&[("X", &["A", "B"]), ("Y", &["B", "A"]), ("Z", &["X", "Y"])]);
    assert_eq!(c3_linearize(&crossed, &name("X")), names(&["X", "A", "B"]));
    assert_eq!(c3_linearize(&crossed, &name("Z")), names(&["Z"]));
    let cyclic = bases(&[("P", &["Q"]), ("Q", &["P"])]);
    assert_eq!(c3_linearize(&cyclic, &name("P")), names(&["P"]));
}

#[test]
fn a_name_is_split_behind_its_longest_module() {
    let modules = set(&["pkg", "pkg.mod"]);
    let by_module = by_module(&[
        ("pkg", &[("mod.f", FunctionSafety::Safe)]),
        ("pkg.mod", &[("f", FunctionSafety::Unsafe), ("C.m", FunctionSafety::Safe)]),
    ]);
    let resolver = SafetyResolver::new(&modules, &by_module);
    assert_eq!(resolver.split_at_module("pkg.mod.f"), Some((name("pkg.mod"), "f")));
    assert_eq!(resolver.split_at_module("pkg.mod.C.m"), Some((name("pkg.mod"), "C.m")));
    assert_eq!(resolver.split_at_module("pkg.mod"), Some((name("pkg"), "mod")));
    assert_eq!(resolver.split_at_module("other.f"), None);
    assert_eq!(resolver.split_at_module("pkg"), None);
    assert!(!resolver.is_call_verified_safe("pkg.mod.f"));
    assert!(resolver.is_call_verified_safe("pkg.mod.C.m"));
    assert_eq!(
        resolver.own_verdict(&name("pkg.mod"), "f"),
        Some(FunctionSafety::Unsafe),
    );
    assert_eq!(resolver.own_verdict(&name("pkg.mod"), "g"), None);
}

#[test]
fn an_unqualified_call_goes_by_the_index_or_by_any_module() {
    let modules = set(&["a", "b"]);
    let by_module = by_module(&[
        ("a", &[("helper", FunctionSafety::Unsafe)]),
        ("b", &[("helper", FunctionSafety::Safe)]),
        ("c", &[("other", FunctionSafety::Safe)]),
    ]);
    assert!(is_call_verified_safe("helper", &modules, &by_module));
    assert!(!is_call_verified_safe("other", &modules, &by_module));
    let index = set(&["other"]);
    let indexed = SafetyResolver::with_safe_index(&modules, &by_module, &index);
    assert!(!indexed.is_call_verified_safe("helper"));
    assert!(indexed.is_call_verified_safe("other"));
}

#[test]
fn a_call_that_could_not_be_bound_does_not_go_by_its_bare_name() {
    let modules = set(&["a"]);
    let by_module = by_module(&[("a", &[("helper", FunctionSafety::Safe)])]);
    let index = set(&["helper"]);
    let resolver = SafetyResolver::with_safe_index(&modules, &by_module, &index);
    let caller = name("x");
    for kind in [ErrorKind::UnknownFunctionCall, ErrorKind::UnknownMethodCall] {
        assert!(!resolver.clears_error(&caller, &error(kind, "helper()"), |_| true));
        assert!(resolver.clears_error(&caller, &error(kind, "a.helper()()"), |_| true));
    }
    assert!(resolver.clears_error(
        &caller,
        &error(ErrorKind::UnsafeFunctionCall, "helper"),
        |_| true
    ));
    assert!(!resolver.clears_error(
        &caller,
        &error(ErrorKind::UnsafeFunctionCall, "helper"),
        |_| false
    ));
}

#[test]
fn a_parameterized_decorator_asks_the_functions_directly_inside() {
    let fs = verdicts(&[
        ("deco", FunctionSafety::Safe),
        ("deco.builder", FunctionSafety::Safe),
        ("deco.b.inner", FunctionSafety::Unsafe),
        ("deco_helper", FunctionSafety::Unsafe),
        ("bad", FunctionSafety::Safe),
        ("bad.wrapper", FunctionSafety::UnsafeIfImported),
        ("Klass", FunctionSafety::Safe),
        ("Klass.__init__", FunctionSafety::Safe),
        ("Klass.method", FunctionSafety::Unsafe),
    ]);
    assert!(lookup_decorator_in_safety_map("deco", &fs));
    assert!(!lookup_decorator_in_safety_map("bad", &fs));
    assert!(lookup_decorator_in_safety_map("Klass", &fs));
    assert!(!lookup_decorator_in_safety_map("gone", &fs));
    assert!(lookup_in_safety_map("bad", &fs));
    assert!(is_class_like_entry("Klass", &fs));
    assert!(!is_class_like_entry("deco", &fs));
    assert_eq!(constructors("K"), vec!["K.__init__".to_owned(), "K.__new__".to_owned()]);

    let modules = set(&["m", "n"]);
    let by_module = by_module(&[
        ("m", &[("bad", FunctionSafety::Safe), ("bad.w", FunctionSafety::Unsafe)]),
        ("n", &[("good", FunctionSafety::Safe)]),
    ]);
    let resolver = SafetyResolver::new(&modules, &by_module);
    assert!(!resolver.is_decorator_call_verified_safe("m.bad"));
    assert!(resolver.is_decorator_call_verified_safe("n.good"));
    assert!(resolver.is_decorator_call_verified_safe("good"));
    assert!(!resolver.is_decorator_call_verified_safe("bad"));
}

#[test]
fn recorded_constructors_decide_alone() {
    let modules = set(&["m", "user"]);
    let by_module = by_module(&[(
        "m",
        &[
            ("C", FunctionSafety::Safe),
            ("C.__init__", FunctionSafety::UnsafeIfImported),
            ("Base.__new__", FunctionSafety::Safe),
            ("D.__init__", FunctionSafety::Safe),
            ("helper", FunctionSafety::Safe),
        ],
    )]);
    let mut recorded: NameMap<ConstructorCallees> = NameMap::new();
    recorded.insert(
        "m.C".to_owned(),
        ConstructorCallees {
            derived: vec![
                DerivedCallee { owner: None, method: "__init__".to_owned() },
                DerivedCallee { owner: Some(name("m.Base")), method: "__new__".to_owned() },
            ],
            extra: vec![],
        },
    );
    recorded.insert(
        "m.D".to_owned(),
        ConstructorCallees {
            derived: vec![DerivedCallee { owner: None, method: "__init__".to_owned() }],
            extra: names(&["m.helper"]),
        },
    );
    recorded.insert(
        "m.E".to_owned(),
        ConstructorCallees { derived: vec![], extra: names(&["m.lost"]) },
    );
    let resolver =
        SafetyResolver::new(&modules, &by_module).with_constructor_callees(&recorded);
    assert_eq!(
        resolver.recorded_constructor_verdict(&name("m.C")),
        Some(FunctionSafety::UnsafeIfImported),
    );
    assert_eq!(
        resolver.recorded_constructor_verdict(&name("m.D")),
        Some(FunctionSafety::Safe),
    );
    assert_eq!(
        resolver.recorded_constructor_verdict(&name("m.E")),
        Some(FunctionSafety::Unsafe),
    );
    assert_eq!(resolver.recorded_constructor_verdict(&name("m.F")), None);

    let call = |metadata: &str| error(ErrorKind::UnsafeFunctionCall, metadata);
    assert!(!resolver.clears_error(&name("user"), &call("m.C()"), |_| true));
    assert!(resolver.clears_error(&name("m"), &call("m.C()"), |_| true));
    assert!(resolver.clears_error(&name("user"), &call("m.D()"), |_| false));
    assert!(!resolver.clears_error(&name("m"), &call("m.E"), |_| true));
    assert_eq!(
        resolver.recorded_constructor_clears(&name("m"), &call("m.helper")),
        None,
    );
    assert_eq!(
        resolver.recorded_constructor_clears(
            &name("m"),
            &error(ErrorKind::UnknownMethodCall, "m.D"),
        ),
        None,
    );
}

#[test]
fn names_lead_to_their_longest_known_module() {
    let modules = set(&["pkg", "pkg.sub"]);
    assert_eq!(resolve_to_known_module("pkg.sub", &modules), Some(name("pkg.sub")));
    assert_eq!(resolve_to_known_module("pkg.sub.x.y", &modules), Some(name("pkg.sub")));
    assert_eq!(resolve_to_known_module("pkg.other", &modules), Some(name("pkg")));
    assert_eq!(resolve_to_known_module("package", &modules), None);

    let mut imports = set(&["os"]);
    let from = name("pkg");
    let found = resolve_and_add_import_edge(&mut imports, &from, "pkg.other", &modules);
    assert_eq!(found, Some(name("pkg")));
    assert_eq!(members(&imports), ["os"]);
    let found = resolve_and_add_import_edge(&mut imports, &from, "pkg.sub.f", &modules);
    assert_eq!(found, Some(name("pkg.sub")));
    assert_eq!(members(&imports), ["os", "pkg.sub"]);
    assert_eq!(resolve_and_add_import_edge(&mut imports, &from, "json", &modules), None);
}

#[test]
fn index_keys_are_bare_names() {
    assert_eq!(unqualified_index_key("helper()"), Some("helper"));
    assert_eq!(unqualified_index_key("helper()()"), Some("helper"));
    assert_eq!(unqualified_index_key("m.helper()"), None);
}

#[test]
fn ambiguous_imports_are_settled() {
    let mut a = CachedModule::empty(name("a"));
    a.ambiguous_imports = set(&["b.c", "a.x", "zzz.y"]);
    let b = CachedModule::empty(name("b"));
    let mut cache = cache_of(vec![a, b, CachedModule::empty(name("b.c"))]);
    let modules = cache.module_name_set();
    let found = cache.resolve_ambiguous_imports(&modules);
    assert_eq!(members(&cache.modules[0].imports), ["b.c"]);
    assert!(cache.modules[0].ambiguous_imports.is_empty());
    assert_eq!(found.len(), 1);
    assert_eq!(members(found.get("a").unwrap()), ["a", "b.c"]);
}

#[test]
fn missing_imports_are_settled_and_refuted_errors_go() {
    let mut a = module_with(
        "a",
        vec![
            error(ErrorKind::UnknownFunctionCall, "b.safe()"),
            error(ErrorKind::UnknownFunctionCall, "b.bad()"),
            error(ErrorKind::UnknownFunctionCall, "c.safe()"),
        ],
    );
    a.missing_imports = set(&["b", "json", "a.self_attr"]);
    let mut b = CachedModule::empty(name("b"));
    b.function_safety =
        verdicts(&[("safe", FunctionSafety::Safe), ("bad", FunctionSafety::Unsafe)]);
    let mut c = CachedModule::empty(name("c"));
    c.function_safety = verdicts(&[("safe", FunctionSafety::Safe)]);
    let workspace = ReduceWorkspace::single(cache_of(vec![a, b, c]), Vec::new());
    let resolved = workspace.resolve(nothing_found);
    let a = &resolved.modules()[0];
    assert_eq!(members(&a.imports), ["b"]);
    assert_eq!(members(&a.missing_imports), ["json"]);
    assert_eq!(
        errors_of(a),
        &vec![
            error(ErrorKind::UnknownFunctionCall, "b.bad()"),
            error(ErrorKind::UnknownFunctionCall, "c.safe()"),
        ],
    );
    assert_eq!(
        resolved.modules()[1].function_safety.get("safe").unwrap().verdict,
        FunctionSafety::Safe,
    );
}

#[test]
fn resolution_is_asked_with_the_settled_cache() {
    let mut a = module_with(
        "a",
        vec![
            error(ErrorKind::UnsafeFunctionCall, "bare()"),
            error(ErrorKind::UnsafeFunctionCall, "b.qualified"),
        ],
    );
    a.mutation_candidates.push(MutationCandidate {
        callee: name("b.f"),
        site: MutationCandidateSite::FunctionScope { function: name("a.g"), call: name("b.f") },
        arg_offset: 1,
        imported_args: ImportedArgs { positions: vec![0], keywords: vec!["k".to_owned()] },
    });
    let mut b = CachedModule::empty(name("b"));
    b.function_safety = verdicts(&[("f", FunctionSafety::Unsafe)]);
    let mut cache = cache_of(vec![a, b]);
    cache.exports.re_exports.push(CachedReExport {
        exported_module: name("a"),
        exported_attr: "f".to_owned(),
        imported_module: name("b"),
        imported_attr: "f".to_owned(),
    });
    let (state, request) = cache.prepare_resolution(MergedClassFacts::default());
    assert_eq!(members(&request.module_names), ["a", "b"]);
    assert_eq!(members(&request.needed_unqualified), ["bare"]);
    assert_eq!(request.candidates.len(), 2);
    assert_eq!(request.candidates[0].0, name("a"));
    assert_eq!(request.candidates[0].1.len(), 1);
    assert_eq!(request.candidates[0].1[0], cache.modules[0].mutation_candidates[0]);
    assert_eq!(
        request.verdicts.get("a").unwrap().get("f").unwrap().verdict,
        FunctionSafety::Unsafe,
    );
    assert!(cache.modules[0].function_safety.get("f").is_none());
    cache.complete_resolution(state, nothing_found(request));
    assert_eq!(
        cache.modules[0].function_safety.get("f").unwrap().verdict,
        FunctionSafety::Unsafe,
    );
}

#[test]
fn without_evidence_only_static_errors_go() {
    let errors = || {
        vec![
            error(ErrorKind::UnsafeFunctionCall, "b.f()"),
            error(ErrorKind::UnsafeDecoratorCall, "b.f"),
            error(ErrorKind::UnsafeFunctionCall, "bare"),
            decorator_error("b.f"),
            decorator_error("f"),
            decorator_error("g"),
        ]
    };
    let cache = || {
        let mut b = CachedModule::empty(name("b"));
        b.function_safety = verdicts(&[
            ("f", FunctionSafety::Safe),
            ("g", FunctionSafety::Safe),
            ("g.inner", FunctionSafety::Unsafe),
        ]);
        cache_of(vec![module_with("a", errors()), b])
    };
    let resolved = ReduceWorkspace::single(cache(), Vec::new()).resolve(nothing_found);
    assert_eq!(
        errors_of(&resolved.modules()[0]),
        &vec![
            error(ErrorKind::UnsafeFunctionCall, "b.f()"),
            error(ErrorKind::UnsafeFunctionCall, "bare"),
            decorator_error("g"),
        ],
    );

    let resolved = ReduceWorkspace::single(cache(), Vec::new()).resolve(|request| {
        let mut reply = nothing_found(request);
        reply.outcome.promoted = set(&["b.x"]);
        reply.outcome.globally_safe = set(&["bare"]);
        reply
    });
    assert_eq!(errors_of(&resolved.modules()[0]), &vec![decorator_error("g")]);

    let resolved = ReduceWorkspace::single(cache(), Vec::new()).resolve(|request| {
        let mut reply = nothing_found(request);
        reply.outcome.resolved_to_safe = true;
        reply
    });
    assert_eq!(
        errors_of(&resolved.modules()[0]),
        &vec![error(ErrorKind::UnsafeFunctionCall, "bare"), decorator_error("g")],
    );
}

#[test]
fn emitted_errors_stay_and_replied_verdicts_come_back() {
    let mut failed = CachedModule::empty(name("b"));
    failed.safety = CachedSafety::AnalysisError { message: "no".to_owned() };
    let cache = cache_of(vec![module_with("a", vec![]), failed]);
    let resolved = ReduceWorkspace::single(cache, Vec::new()).resolve(|request| {
        let mut reply = nothing_found(request);
        reply.outcome.resolved_to_safe = true;
        reply.verdicts = by_module(&[("a", &[("arg", FunctionSafety::Safe)])]);
        reply.emitted = vec![
            (name("a"), "a.arg".to_owned()),
            (name("b"), "b.arg".to_owned()),
            (name("a"), "a.arg2".to_owned()),
        ];
        reply
    });
    assert_eq!(
        errors_of(&resolved.modules()[0]),
        &vec![
            error(ErrorKind::ImportedVarArgument, "a.arg"),
            error(ErrorKind::ImportedVarArgument, "a.arg2"),
        ],
    );
    assert_eq!(
        resolved.modules()[1].safety,
        CachedSafety::AnalysisError { message: "no".to_owned() },
    );
    assert_eq!(
        resolved.modules()[0].function_safety.get("arg").unwrap().verdict,
        FunctionSafety::Safe,
    );
}

#[test]
fn stubs_fill_in_what_no_library_provides() {
    let stub = |stub_name: &str, imports: &[&str]| StubModule {
        name: name(stub_name),
        edges: GraphEdgeSets {
            imports: set(imports),
            missing_imports: set(&["gone"]),
            ambiguous_imports: set(&[]),
        },
    };
    let cache = cache_of(vec![module_with("os", vec![]), module_with("app", vec![])]);
    let workspace =
        ReduceWorkspace::single(cache, vec![stub("os", &["sys"]), stub("sys", &["os"])]);
    assert_eq!(workspace.module_count(), 3);
    assert_eq!(workspace.artifact_module_count(), 2);
    assert!(workspace.cache().modules[0].imports.is_empty());
    assert_eq!(members(&workspace.cache().modules[2].imports), ["os"]);
    let resolved = workspace.resolve(nothing_found);
    assert_eq!(members(resolved.graph_only_stubs()), ["sys"]);
    assert_eq!(resolved.modules().len(), 3);
    assert_eq!(members(&resolved.modules()[2].missing_imports), ["gone"]);
    assert_eq!(resolved.re_exports().len(), 0);
    assert_eq!(resolved.resolved_cache().modules.len(), 3);
}

#[test]
fn a_merged_cache_is_wrapped_with_its_stubs() {
    let cache = cache_of(vec![module_with("a", vec![]), module_with("sys", vec![])]);
    let workspace = ReduceWorkspace::from_merged(cache, set(&["sys"]));
    assert_eq!(workspace.module_count(), 2);
    assert_eq!(workspace.artifact_module_count(), 1);
}

#[test]
fn class_facts_of_all_caches_are_used() {
    let mut sub = module_with("sub", vec![error(ErrorKind::UnsafeFunctionCall, "sub.Sub.m()")]);
    sub.missing_imports = set(&["base"]);
    sub.ambiguous_imports = set(&["sub.x"]);
    let mut first = cache_of(vec![sub]);
    first.class_bases = vec![(name("sub.Sub"), names(&["base.Base"]))];
    let mut base = CachedModule::empty(name("base"));
    base.function_safety = verdicts(&[("Base.m", FunctionSafety::Safe)]);
    let second = cache_of(vec![base]);
    let workspace = match ReduceWorkspace::merge(vec![first, second], Vec::new()) {
        Ok(workspace) => workspace,
        Err(_) => panic!("nonempty caches should merge"),
    };
    let resolved = workspace.resolve(nothing_found);
    let order: Vec<&str> =
        resolved.modules().iter().map(|module| module.name.as_str()).collect();
    assert_eq!(order, ["base", "sub"]);
    assert!(resolved.modules()[1].is_safe());
    assert_eq!(members(&resolved.modules()[1].imports), ["base"]);
}
