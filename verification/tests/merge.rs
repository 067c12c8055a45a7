use lifeguard::artifact::CachedExports;
use lifeguard::artifact::CachedModule;
use lifeguard::artifact::CachedModuleSafety;
use lifeguard::artifact::CachedReExport;
use lifeguard::artifact::CachedSafety;
use lifeguard::artifact::ConstructorCallees;
use lifeguard::artifact::DerivedCallee;
use lifeguard::artifact::LibraryCache;
use lifeguard::artifact::NameList;
use lifeguard::errors::CachedError;
use lifeguard::errors::ErrorKind;
use lifeguard::errors::SafetyError;
use lifeguard::findings::ModuleSafety;
use lifeguard::findings::SafetyResult;
use lifeguard::merge::dedupe_implicit_imports;
use lifeguard::merge::fold_constructor_callees;
use lifeguard::merge::fold_fqn_lists;
use lifeguard::merge::merge_errors;
use lifeguard::merge::merge_function_safety_entry_ref;
use lifeguard::merge::retain_unverified_errors;
use lifeguard::names::ModuleName;
use lifeguard::names::NameMap;
use lifeguard::names::NameSet;
use lifeguard::safety::FunctionSafety;
use lifeguard::safety::FunctionSafetyInfo;

fn name(text: &str) -> ModuleName {
    ModuleName::from_str(text)
}

fn names(texts: &[&str]) -> Vec<ModuleName> {
    texts.iter().map(|text| name(text)).collect()
}

fn set(texts: &[&str]) -> NameSet {
    let mut r = NameSet::new();
    for text in texts {
        r.insert((*text).to_owned());
    }
    r
}

fn members(set: &NameSet) -> Vec<String> {
    let mut r: Vec<String> = (0..set.len()).map(|i| set.item_at(i).to_owned()).collect();
    r.sort();
    r
}

fn error(kind: ErrorKind, metadata: &str) -> CachedError {
    CachedError { kind, metadata: metadata.to_owned(), parameterized_decorator: false }
}

fn verdict(safety: FunctionSafety, concerns: &[&str]) -> FunctionSafetyInfo {
    FunctionSafetyInfo { verdict: safety, concerns: set(concerns) }
}

fn re_export(exported: (&str, &str), imported: (&str, &str)) -> CachedReExport {
    CachedReExport {
        exported_module: name(exported.0),
        exported_attr: exported.1.to_owned(),
        imported_module: name(imported.0),
        imported_attr: imported.1.to_owned(),
    }
}

fn cache_of(modules: Vec<CachedModule>, re_exports: Vec<CachedReExport>) -> LibraryCache {
    LibraryCache { modules, exports: CachedExports { re_exports }, ..Default::default() }
}

fn analyzed(module: &CachedModule) -> &CachedModuleSafety {
    match &module.safety {
        CachedSafety::Analyzed(findings) => findings,
        CachedSafety::AnalysisError { message } => panic!("analysis failed: {}", message),
    }
}

#[test]
fn merge_class_bases_unions_duplicate_class_fqns() {
    let c = name("pkg.mod.C");
    let base_a = name("pkg.mod.A");
    let base_b = name("pkg.mod.B");

    let mut merged: NameMap<NameList> = NameMap::new();
    fold_fqn_lists(&mut merged, vec![(c.clone(), vec![base_a.clone()])]);
    fold_fqn_lists(&mut merged, vec![(c.clone(), vec![base_a.clone(), base_b.clone()])]);

    assert_eq!(
        merged.get(c.as_str()),
        Some(&NameList { names: vec![base_a, base_b] }),
        "duplicate FQN base lists union preserving first-seen order, not last-wins",
    );
}

#[test]
fn bases_of_a_class_do_not_hang_on_the_order_of_libraries() {
    let one = || vec![(name("m.C"), names(&["m.A", "m.B"]))];
    let two = || vec![(name("m.C"), names(&["m.D", "m.A"])), (name("m.E"), names(&[]))];
    let mut x: NameMap<NameList> = NameMap::new();
    fold_fqn_lists(&mut x, one());
    fold_fqn_lists(&mut x, two());
    let mut y: NameMap<NameList> = NameMap::new();
    fold_fqn_lists(&mut y, two());
    fold_fqn_lists(&mut y, one());
    assert_eq!(x.get("m.C").unwrap().names, names(&["m.A", "m.B", "m.D"]));
    assert_eq!(y.get("m.C").unwrap().names, names(&["m.D", "m.A", "m.B"]));
    assert_eq!(x.get("m.E").unwrap().names, names(&[]));
    assert_eq!(x.len(), 2);
    assert_eq!(y.len(), 2);
}

#[test]
fn constructor_callees_are_united_and_empty_records_are_dropped() {
    let init = || DerivedCallee { owner: None, method: "__init__".to_owned() };
    let new = || DerivedCallee { owner: Some(name("m.Base")), method: "__new__".to_owned() };
    let mut merged: NameMap<ConstructorCallees> = NameMap::new();
    fold_constructor_callees(
        &mut merged,
        vec![
            (name("m.C"), ConstructorCallees { derived: vec![init()], extra: names(&["m.f"]) }),
            (name("m.D"), ConstructorCallees::default()),
        ],
    );
    fold_constructor_callees(
        &mut merged,
        vec![(
            name("m.C"),
            ConstructorCallees { derived: vec![init(), new()], extra: names(&["m.g", "m.f"]) },
        )],
    );
    assert_eq!(
        merged.get("m.C"),
        Some(&ConstructorCallees {
            derived: vec![init(), new()],
            extra: names(&["m.f", "m.g"]),
        }),
    );
    assert!(merged.get("m.D").is_none());
    let owners = merged.get("m.C").unwrap().iter(&name("m.C"));
    assert_eq!(
        owners,
        vec![(name("m.C"), "__init__".to_owned()), (name("m.Base"), "__new__".to_owned())],
    );
}

#[test]
fn merged_errors_are_sorted_and_kept_once() {
    let mut target = vec![
        error(ErrorKind::UnknownFunctionCall, "b"),
        error(ErrorKind::UnsafeFunctionCall, "z"),
    ];
    merge_errors(
        &mut target,
        vec![
            error(ErrorKind::UnknownFunctionCall, "a"),
            error(ErrorKind::UnknownFunctionCall, "b"),
        ],
    );
    assert_eq!(
        target,
        vec![
            error(ErrorKind::UnsafeFunctionCall, "z"),
            error(ErrorKind::UnknownFunctionCall, "a"),
            error(ErrorKind::UnknownFunctionCall, "b"),
        ],
    );
}

#[test]
fn records_of_one_module_become_one_and_modules_are_sorted() {
    let mut first = CachedModule::empty(name("pkg.b"));
    first.imports = set(&["os"]);
    first.missing_imports = set(&["x", "y"]);
    first.ambiguous_imports = set(&["p.q"]);
    first.side_effect_imports = set(&["s"]);
    first.function_safety.insert("f".to_owned(), verdict(FunctionSafety::Safe, &["one"]));
    first.function_safety.insert("g".to_owned(), verdict(FunctionSafety::Unsafe, &[]));
    first.safety = CachedSafety::Analyzed(CachedModuleSafety {
        errors: vec![error(ErrorKind::UnknownFunctionCall, "b")],
        force_imports_eager_overrides: vec![],
        implicit_imports: names(&["n", "m"]),
    });
    let mut second = CachedModule::empty(name("pkg.b"));
    second.imports = set(&["sys"]);
    second.missing_imports = set(&["y", "z"]);
    second
        .function_safety
        .insert("f".to_owned(), verdict(FunctionSafety::UnsafeIfImported, &["two"]));
    second.safety = CachedSafety::Analyzed(CachedModuleSafety {
        errors: vec![error(ErrorKind::UnknownFunctionCall, "a")],
        force_imports_eager_overrides: vec![],
        implicit_imports: names(&["m"]),
    });
    let mut cache = cache_of(vec![first], vec![]);
    let merged = cache.merge_dep_caches(vec![cache_of(
        vec![CachedModule::empty(name("pkg.c")), second, CachedModule::empty(name("pkg.a"))],
        vec![],
    )]);
    let order: Vec<&str> = cache.modules.iter().map(|module| module.name.as_str()).collect();
    assert_eq!(order, ["pkg.a", "pkg.b", "pkg.c"]);
    let both = &cache.modules[1];
    assert_eq!(members(&both.imports), ["os", "sys"]);
    assert_eq!(members(&both.missing_imports), ["y"]);
    assert_eq!(members(&both.ambiguous_imports), ["p.q"]);
    assert_eq!(members(&both.side_effect_imports), ["s"]);
    let f = both.function_safety.get("f").unwrap();
    assert_eq!(f.verdict, FunctionSafety::UnsafeIfImported);
    assert_eq!(members(&f.concerns), ["one", "two"]);
    assert_eq!(both.function_safety.get("g").unwrap().verdict, FunctionSafety::Unsafe);
    let findings = analyzed(both);
    assert_eq!(
        findings.errors,
        vec![
            error(ErrorKind::UnknownFunctionCall, "a"),
            error(ErrorKind::UnknownFunctionCall, "b"),
        ],
    );
    assert_eq!(findings.implicit_imports, names(&["m", "n"]));
    assert_eq!(merged.class_bases.len(), 0);
}

#[test]
fn a_failed_analysis_stands() {
    let failed = |message: &str| {
        let mut module = CachedModule::empty(name("m"));
        module.safety = CachedSafety::AnalysisError { message: message.to_owned() };
        cache_of(vec![module], vec![])
    };
    let fine = || cache_of(vec![CachedModule::empty(name("m"))], vec![]);
    let mut x = failed("no");
    x.merge_dep_caches(vec![fine()]);
    assert_eq!(x.modules[0].safety, CachedSafety::AnalysisError { message: "no".to_owned() });
    let mut y = fine();
    y.merge_dep_caches(vec![failed("no")]);
    assert_eq!(y.modules[0].safety, CachedSafety::AnalysisError { message: "no".to_owned() });
    let mut z = failed("first");
    z.merge_dep_caches(vec![failed("second")]);
    assert_eq!(z.modules[0].safety, CachedSafety::AnalysisError { message: "first".to_owned() });
}

#[test]
fn one_re_export_is_kept_under_each_name() {
    let mut cache = cache_of(
        vec![],
        vec![re_export(("b", "g"), ("c", "g")), re_export(("b", "f"), ("c", "f"))],
    );
    cache.merge_dep_caches(vec![
        cache_of(vec![], vec![re_export(("b", "f"), ("c", "f"))]),
        cache_of(vec![], vec![re_export(("a", "f"), ("b", "f")), re_export(("b", "g"), ("c", "g"))]),
    ]);
    assert_eq!(
        cache.exports.re_exports,
        vec![
            re_export(("a", "f"), ("b", "f")),
            re_export(("b", "f"), ("c", "f")),
            re_export(("b", "g"), ("c", "g")),
        ],
    );
}

#[test]
fn class_facts_of_dependencies_are_handed_back() {
    let mut cache = cache_of(vec![], vec![]);
    cache.class_bases = vec![(name("own.C"), names(&["own.B"]))];
    let mut dep = cache_of(vec![], vec![]);
    dep.class_bases = vec![(name("dep.C"), names(&["dep.B"]))];
    let merged = cache.merge_dep_caches(vec![dep]);
    assert_eq!(cache.class_bases.len(), 1);
    assert!(merged.class_bases.get("own.C").is_none());
    assert_eq!(merged.class_bases.get("dep.C").unwrap().names, names(&["dep.B"]));
}

#[test]
fn a_verdict_entry_is_put_in_or_joined() {
    let mut fs: NameMap<FunctionSafetyInfo> = NameMap::new();
    let safe = FunctionSafetyInfo::new(FunctionSafety::Safe);
    let bad = verdict(FunctionSafety::Unsafe, &["x"]);
    assert!(merge_function_safety_entry_ref(&mut fs, "f", &safe));
    assert!(!merge_function_safety_entry_ref(&mut fs, "f", &safe));
    assert!(merge_function_safety_entry_ref(&mut fs, "f", &bad));
    assert!(!merge_function_safety_entry_ref(&mut fs, "f", &safe));
    assert_eq!(fs.get("f").unwrap().verdict, FunctionSafety::Unsafe);
    assert_eq!(members(&fs.get("f").unwrap().concerns), ["x"]);
}

#[test]
fn verdicts_are_carried_along_re_exports() {
    let mut c = CachedModule::empty(name("c"));
    c.function_safety.insert("f".to_owned(), verdict(FunctionSafety::UnsafeIfImported, &["c.f"]));
    let b = CachedModule::empty(name("b"));
    let mut a = CachedModule::empty(name("a"));
    a.function_safety.insert("h".to_owned(), verdict(FunctionSafety::Safe, &["a.h"]));
    let mut cache = cache_of(
        vec![a, b, c],
        vec![
            re_export(("a", "h"), ("b", "g")),
            re_export(("b", "g"), ("c", "f")),
            re_export(("a", "h"), ("gone", "f")),
            re_export(("a", "k"), ("c", "missing")),
        ],
    );
    cache.propagate_re_export_safety();
    let g = cache.modules[1].function_safety.get("g").unwrap();
    assert_eq!(g.verdict, FunctionSafety::UnsafeIfImported);
    assert_eq!(members(&g.concerns), ["c.f"]);
    let h = cache.modules[0].function_safety.get("h").unwrap();
    assert_eq!(h.verdict, FunctionSafety::UnsafeIfImported);
    assert_eq!(members(&h.concerns), ["a.h", "c.f"]);
    assert!(cache.modules[0].function_safety.get("k").is_none());
    assert_eq!(cache.exports.re_exports.len(), 4);

    cache.propagate_re_export_safety();
    let h = cache.modules[0].function_safety.get("h").unwrap();
    assert_eq!(h.verdict, FunctionSafety::UnsafeIfImported);
    assert_eq!(members(&h.concerns), ["a.h", "c.f"]);
}

#[test]
fn verdicts_are_carried_round_a_cycle_of_re_exports() {
    let mut a = CachedModule::empty(name("a"));
    a.function_safety.insert("f".to_owned(), verdict(FunctionSafety::Safe, &["x"]));
    let mut b = CachedModule::empty(name("b"));
    b.function_safety.insert("f".to_owned(), verdict(FunctionSafety::Unsafe, &["y"]));
    let mut cache = cache_of(
        vec![a, b],
        vec![
            re_export(("a", "f"), ("b", "f")),
            re_export(("b", "f"), ("a", "f")),
            re_export(("a", "f"), ("a", "f")),
        ],
    );
    cache.propagate_re_export_safety();
    for module in &cache.modules {
        let f = module.function_safety.get("f").unwrap();
        assert_eq!(f.verdict, FunctionSafety::Unsafe);
        assert_eq!(members(&f.concerns), ["x", "y"]);
    }
}

#[test]
fn implicit_imports_keep_their_first_place() {
    let mut implicit = names(&["b.c", "a", "b.c", "b", "a"]);
    dedupe_implicit_imports(&mut implicit);
    assert_eq!(implicit, names(&["b.c", "a", "b"]));
}

#[test]
fn only_errors_that_a_missing_import_could_have_caused_are_dropped() {
    let other = ErrorKind::Other { code: 3, from_missing_import: false };
    let mut findings = CachedModuleSafety {
        errors: vec![
            error(ErrorKind::UnknownFunctionCall, "f"),
            error(other, "f"),
            error(ErrorKind::UnsafeFunctionCall, "g"),
            error(ErrorKind::ImportedVarArgument, "f"),
        ],
        force_imports_eager_overrides: vec![error(ErrorKind::UnknownFunctionCall, "f")],
        implicit_imports: names(&["i"]),
    };
    assert!(retain_unverified_errors(&mut findings, |error| error.metadata == "f"));
    assert_eq!(
        findings.errors,
        vec![
            error(other, "f"),
            error(ErrorKind::UnsafeFunctionCall, "g"),
            error(ErrorKind::ImportedVarArgument, "f"),
        ],
    );
    assert_eq!(findings.force_imports_eager_overrides.len(), 1);
    assert!(!retain_unverified_errors(&mut findings, |error| error.metadata == "f"));
}

#[test]
fn a_sorted_record_comes_back_from_its_outcome() {
    let record = CachedSafety::Analyzed(CachedModuleSafety {
        errors: vec![
            error(ErrorKind::UnsafeFunctionCall, "g"),
            error(ErrorKind::UnknownFunctionCall, "f"),
        ],
        force_imports_eager_overrides: vec![error(ErrorKind::UnsafeDecoratorCall, "d")],
        implicit_imports: names(&["a", "b", "b.c"]),
    });
    assert_eq!(CachedSafety::from_safety_result(&record.to_safety_result()), record);

    let failed = CachedSafety::AnalysisError { message: "no such file".to_owned() };
    assert_eq!(
        failed.to_safety_result(),
        SafetyResult::AnalysisError { message: "no such file".to_owned() },
    );
    assert_eq!(CachedSafety::from_safety_result(&failed.to_safety_result()), failed);
}

#[test]
fn an_outcome_is_recorded_with_its_implicit_imports_sorted() {
    let mut findings = ModuleSafety::new();
    findings.add_error(SafetyError {
        kind: ErrorKind::UnknownMethodCall,
        metadata: "m".to_owned(),
        parameterized_decorator: true,
    });
    findings.implicit_imports = names(&["b", "a", "b"]);
    let record = CachedSafety::from_safety_result(&SafetyResult::Analyzed(findings));
    assert_eq!(
        record,
        CachedSafety::Analyzed(CachedModuleSafety {
            errors: vec![CachedError {
                kind: ErrorKind::UnknownMethodCall,
                metadata: "m".to_owned(),
                parameterized_decorator: true,
            }],
            force_imports_eager_overrides: vec![],
            implicit_imports: names(&["a", "b", "b"]),
        }),
    );
}
