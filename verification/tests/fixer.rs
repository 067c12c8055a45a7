use lifeguard::declaration::defines_lazy_modules;
use lifeguard::edits::apply_edits;
use lifeguard::edits::EditError;
use lifeguard::edits::FileEdit;
use lifeguard::fixer::edits_for_occurrences;
use lifeguard::fixer::eligible_occurrences;
use lifeguard::fixer::generate_fixes;
use lifeguard::fixer::FixRules;
use lifeguard::fixer::ImportOccurrence;
use lifeguard::fixer::ModuleSource;
use lifeguard::fixer::TargetVersion;
use lifeguard::names::ModuleName;
use lifeguard::names::NameSet;
use lifeguard::run_tree::parse_target_version;
use lifeguard::run_tree::RunTreeArgs;
use lifeguard::run_tree::UnsupportedTargetVersion;
use std::path::PathBuf;

fn set(texts: &[&str]) -> NameSet {
    let mut r = NameSet::new();
    for text in texts {
        r.insert((*text).to_owned());
    }
    r
}

fn occurrence(target: &str, offset: u32) -> ImportOccurrence {
    ImportOccurrence {
        target: ModuleName::from_str(target),
        offset,
        is_import_from: false,
        is_lazy: false,
    }
}

fn edit(offset: u32, text: &str) -> FileEdit {
    FileEdit { offset, text: text.to_owned() }
}

#[test]
fn py315_inserts_one_keyword_per_statement_at_byte_offsets() {
    let occurrences = [
        ImportOccurrence {
            target: ModuleName::from_str("alpha"),
            offset: 7,
            is_import_from: false,
            is_lazy: false,
        },
        ImportOccurrence {
            target: ModuleName::from_str("beta"),
            offset: 7,
            is_import_from: false,
            is_lazy: false,
        },
        ImportOccurrence {
            target: ModuleName::from_str("gamma"),
            offset: 25,
            is_import_from: true,
            is_lazy: false,
        },
    ];
    let refs = occurrences.iter().collect::<Vec<_>>();

    assert_eq!(
        edits_for_occurrences(&refs, TargetVersion::Py315, None),
        vec![
            FileEdit { offset: 7, text: "lazy ".to_owned() },
            FileEdit { offset: 25, text: "lazy ".to_owned() },
        ]
    );
}

#[test]
fn py314_creates_a_sorted_tuple_and_skips_existing_declaration() {
    let occurrences = [
        ImportOccurrence {
            target: ModuleName::from_str("zebra"),
            offset: 20,
            is_import_from: false,
            is_lazy: false,
        },
        ImportOccurrence {
            target: ModuleName::from_str("apple"),
            offset: 10,
            is_import_from: true,
            is_lazy: false,
        },
    ];
    let refs = occurrences.iter().collect::<Vec<_>>();

    assert_eq!(
        edits_for_occurrences(&refs, TargetVersion::Py314, Some("import apple\n")),
        vec![FileEdit {
            offset: 10,
            text: "__lazy_modules__ = (\"apple\", \"zebra\")\n".to_owned(),
        }]
    );
    assert!(
        edits_for_occurrences(
            &refs,
            TargetVersion::Py314,
            Some("__lazy_modules__: tuple[str, ...] = ()\n"),
        )
        .is_empty()
    );
}

#[test]
fn a_tuple_of_one_name_has_a_comma() {
    let one = occurrence("only", 3);
    let again = occurrence("only", 9);
    assert_eq!(
        edits_for_occurrences(&[&again, &one], TargetVersion::Py314, None),
        vec![edit(3, "__lazy_modules__ = (\"only\",)\n")],
    );
    assert_eq!(edits_for_occurrences(&[], TargetVersion::Py314, None), vec![]);
    assert_eq!(edits_for_occurrences(&[], TargetVersion::Py315, None), vec![]);
}

#[test]
fn declarations_are_found_at_the_beginning_of_lines() {
    assert!(defines_lazy_modules("__lazy_modules__ = ()"));
    assert!(defines_lazy_modules("import a\n  \t__lazy_modules__\u{3000}: list\n"));
    assert!(defines_lazy_modules("x\r\n__lazy_modules__=1\r\n"));
    assert!(!defines_lazy_modules(""));
    assert!(!defines_lazy_modules("x = __lazy_modules__ = ()"));
    assert!(!defines_lazy_modules("__lazy_modules__\n= ()"));
    assert!(!defines_lazy_modules("__lazy_modules__.append(1)"));
    assert!(!defines_lazy_modules("__lazy_modules__x = 1"));
    assert!(!defines_lazy_modules("# __lazy_modules__ = 1"));
}

#[test]
fn a_fixed_file_has_no_more_edits() {
    let text = "\"\"\"Doc.\"\"\"\nimport json\nimport os\n";
    let json = occurrence("json", 11);
    let os = occurrence("os", 23);
    let refs = [&json, &os];
    let edits = edits_for_occurrences(&refs, TargetVersion::Py314, Some(text));
    let fixed = apply_edits(text, &edits).unwrap();
    assert_eq!(
        fixed,
        "\"\"\"Doc.\"\"\"\n__lazy_modules__ = (\"json\", \"os\")\nimport json\nimport os\n",
    );
    assert!(edits_for_occurrences(&refs, TargetVersion::Py314, Some(&fixed)).is_empty());
}

#[test]
fn edits_are_made_at_byte_offsets() {
    let text = "# \u{e9}\nimport a\nimport b\n";
    assert_eq!(
        apply_edits(text, &[edit(14, "lazy "), edit(5, "lazy ")]),
        Ok("# \u{e9}\nlazy import a\nlazy import b\n".to_owned()),
    );
    assert_eq!(apply_edits("ab", &[edit(2, "c"), edit(3, "d")]), Ok("abcd".to_owned()));
    assert_eq!(apply_edits("ab", &[]), Ok("ab".to_owned()));
}

#[test]
fn edits_at_bad_offsets_are_refused() {
    assert_eq!(
        apply_edits("ab", &[edit(3, "x")]),
        Err(EditError::OutOfBounds { offset: 3 }),
    );
    assert_eq!(
        apply_edits("\u{e9}", &[edit(1, "x")]),
        Err(EditError::NotCharBoundary { offset: 1 }),
    );
}

#[test]
fn a_statement_is_made_lazy_as_a_whole() {
    let mut lazy = occurrence("d", 30);
    lazy.is_lazy = true;
    let occurrences =
        vec![occurrence("a", 0), occurrence("b", 10), occurrence("x", 10), lazy, occurrence("c", 20)];
    let eligible = set(&["a", "b", "c", "d"]);
    let found = eligible_occurrences(&occurrences, &eligible, TargetVersion::Py315);
    let targets: Vec<&str> = found.iter().map(|found| found.target.as_str()).collect();
    assert_eq!(targets, ["a", "c"]);
    let found = eligible_occurrences(&occurrences, &eligible, TargetVersion::Py314);
    let targets: Vec<&str> = found.iter().map(|found| found.target.as_str()).collect();
    assert_eq!(targets, ["a", "b", "d", "c"]);
}

fn source(
    name: &str,
    occurrences: Vec<ImportOccurrence>,
    file: Option<u64>,
    content: Option<&str>,
) -> ModuleSource {
    ModuleSource {
        name: ModuleName::from_str(name),
        occurrences,
        file,
        content: content.map(str::to_owned),
    }
}

#[test]
fn fixes_are_collected_by_file_from_back_to_front() {
    let rules = FixRules {
        load_imports_eagerly: set(&["eager"]),
        lazy_eligible: set(&["a", "b"]),
        target_version: TargetVersion::Py315,
    };
    let sources = vec![
        source("one", vec![occurrence("a", 0), occurrence("b", 9)], Some(7), None),
        source("eager", vec![occurrence("a", 0)], Some(8), None),
        source("builtin", vec![occurrence("a", 0)], None, None),
        source("none", vec![occurrence("z", 0)], Some(9), None),
        source("two", vec![occurrence("b", 4)], Some(3), None),
        source("alias", vec![occurrence("a", 5)], Some(7), None),
    ];
    let fixes = generate_fixes(&rules, &sources);
    let files: Vec<u64> = fixes.iter().map(|fixes| fixes.file).collect();
    assert_eq!(files, [7, 3]);
    assert_eq!(fixes[0].edits, vec![edit(9, "lazy "), edit(5, "lazy "), edit(0, "lazy ")]);
    assert_eq!(fixes[1].edits, vec![edit(4, "lazy ")]);
    assert!(!rules.needs_content(&sources[0].name, &sources[0].occurrences));
}

#[test]
fn fixes_for_314_need_the_text_of_the_file() {
    let rules = FixRules {
        load_imports_eagerly: set(&["eager"]),
        lazy_eligible: set(&["a"]),
        target_version: TargetVersion::Py314,
    };
    let occurrences = || vec![occurrence("a", 0)];
    assert!(rules.needs_content(&ModuleName::from_str("m"), &occurrences()));
    assert!(!rules.needs_content(&ModuleName::from_str("eager"), &occurrences()));
    assert!(!rules.needs_content(&ModuleName::from_str("m"), &vec![occurrence("z", 0)]));
    let unread = source("m", occurrences(), Some(1), None);
    let read = source("n", occurrences(), Some(2), Some("import a\n"));
    let declared = source("o", occurrences(), Some(3), Some("__lazy_modules__ = ()\n"));
    let fixes = generate_fixes(&rules, &vec![unread, read, declared]);
    assert_eq!(fixes.len(), 1);
    assert_eq!(fixes[0].file, 2);
    assert_eq!(fixes[0].edits, vec![edit(0, "__lazy_modules__ = (\"a\",)\n")]);
}

#[test]
fn target_versions_are_named() {
    assert_eq!(parse_target_version(&"3.14".to_owned()), Ok(TargetVersion::Py314));
    assert_eq!(parse_target_version(&"3.15".to_owned()), Ok(TargetVersion::Py315));
    let error = UnsupportedTargetVersion { version: "3.9".to_owned() };
    assert_eq!(
        error.message(),
        "Unsupported target version for --fix: 3.9. Must be 3.14 or 3.15",
    );
    assert_eq!(parse_target_version(&"3.9".to_owned()), Err(error));
}

#[test]
fn the_target_version_is_looked_at_only_for_fixes() {
    let args = |fix: bool, dry_run: bool, version: &str| RunTreeArgs {
        input_dir: PathBuf::from("in"),
        output_path: PathBuf::from("out"),
        verbose_output_path: None,
        site_packages: None,
        print_diagnostics: false,
        sorted_output: false,
        main_module: None,
        python_version: "3.12".to_owned(),
        fix,
        dry_run,
        target_version: version.to_owned(),
    };
    assert_eq!(args(false, false, "9").requested_fixes(), Ok(None));
    assert_eq!(args(true, false, "3.14").requested_fixes(), Ok(Some(TargetVersion::Py314)));
    assert_eq!(args(false, true, "3.15").requested_fixes(), Ok(Some(TargetVersion::Py315)));
    assert_eq!(
        args(true, true, "9").requested_fixes(),
        Err(UnsupportedTargetVersion { version: "9".to_owned() }),
    );
}

#[test]
fn a_statement_with_an_ineligible_import_stays_as_it_is() {
    let text = "import safe, unsafe\n";
    let occurrences = vec![occurrence("safe", 0), occurrence("unsafe", 0)];
    let found = eligible_occurrences(&occurrences, &set(&["safe"]), TargetVersion::Py315);
    let edits = edits_for_occurrences(&found, TargetVersion::Py315, None);
    assert_eq!(apply_edits(text, &edits), Ok(text.to_owned()));
}

#[test]
fn nested_and_multiline_imports_get_keywords_and_are_not_fixed_again() {
    let text = "if True:\n    import other\n\nfrom package import (\n    member,\n)\n";
    let mut occurrences = vec![occurrence("other", 13), occurrence("package.member", 27)];
    occurrences[1].is_import_from = true;
    let eligible = set(&["other", "package.member"]);
    let rules = FixRules {
        load_imports_eagerly: set(&[]),
        lazy_eligible: eligible.clone(),
        target_version: TargetVersion::Py315,
    };
    let fixes = generate_fixes(&rules, &vec![source("main", occurrences, Some(0), None)]);
    assert_eq!(
        apply_edits(text, &fixes[0].edits),
        Ok("if True:\n    lazy import other\n\nlazy from package import (\n    member,\n)\n"
            .to_owned()),
    );

    let mut again = vec![occurrence("other", 13), occurrence("package.member", 32)];
    again[0].is_lazy = true;
    again[1].is_lazy = true;
    assert!(eligible_occurrences(&again, &eligible, TargetVersion::Py315).is_empty());
}

#[test]
fn a_second_run_for_315_changes_nothing() {
    let text = "import a, b\nimport c, x\nimport d\n";
    let rules = FixRules {
        load_imports_eagerly: set(&["eager"]),
        lazy_eligible: set(&["a", "b", "c", "d"]),
        target_version: TargetVersion::Py315,
    };
    let first = || {
        vec![occurrence("a", 0), occurrence("b", 0), occurrence("c", 12), occurrence("x", 12)]
    };
    let fixes = generate_fixes(
        &rules,
        &vec![
            source("main", first(), Some(0), None),
            source("eager", vec![occurrence("d", 0)], Some(1), None),
        ],
    );
    assert_eq!(fixes.len(), 1);
    let fixed = apply_edits(text, &fixes[0].edits).unwrap();
    assert_eq!(fixed, "lazy import a, b\nimport c, x\nimport d\n");

    let mut again =
        vec![occurrence("a", 0), occurrence("b", 0), occurrence("c", 17), occurrence("x", 17)];
    again[0].is_lazy = true;
    again[1].is_lazy = true;
    let fixes = generate_fixes(
        &rules,
        &vec![
            source("main", again, Some(0), None),
            source("eager", vec![occurrence("d", 0)], Some(1), None),
        ],
    );
    assert!(fixes.is_empty());
}

#[test]
fn a_second_run_for_314_changes_nothing() {
    let text = "if True:\n    import a\nimport b\n";
    let rules = FixRules {
        load_imports_eagerly: set(&[]),
        lazy_eligible: set(&["a", "b"]),
        target_version: TargetVersion::Py314,
    };
    let sources = vec![
        source("main", vec![occurrence("a", 13), occurrence("b", 22)], Some(0), Some(text)),
        source("alias", vec![occurrence("b", 22)], Some(0), Some(text)),
    ];
    let fixes = generate_fixes(&rules, &sources);
    assert_eq!(fixes.len(), 1);
    let fixed = apply_edits(text, &fixes[0].edits).unwrap();
    assert_eq!(
        fixed,
        "if True:\n    __lazy_modules__ = (\"a\", \"b\")\nimport a\n__lazy_modules__ = (\"b\",)\nimport b\n",
    );
    let again = vec![
        source("main", vec![occurrence("a", 46), occurrence("b", 79)], Some(0), Some(&fixed)),
        source("alias", vec![occurrence("b", 79)], Some(0), Some(&fixed)),
    ];
    assert!(generate_fixes(&rules, &again).is_empty());
}
