use codestats::analysis::{aggregate_results, analyze_file, get_files, run_analysis};
use codestats::config::default_languages;
use codestats::models::{FileAnalysis, FoundFile, FsNode, LanguageStats, StatsError};

fn file(name: &str, text: &str) -> FsNode {
    FsNode::File { name: name.to_string(), content: Some(text.as_bytes().to_vec()) }
}

fn unreadable(name: &str) -> FsNode {
    FsNode::File { name: name.to_string(), content: None }
}

fn dir(name: &str, entries: Vec<FsNode>) -> FsNode {
    FsNode::Dir { name: name.to_string(), entries }
}

fn stat_for<'a>(
    results: &'a codestats::models::AnalysisResults,
    lang: &str,
) -> Option<&'a LanguageStats> {
    results.stats.iter().find(|(l, _)| l == lang).map(|(_, s)| s)
}

#[test]
fn mixed_directory_scenario() {
    let root = dir(
        "root",
        vec![
            file("a.rs", "one\ntwo\nthree\n"),
            file("b.rs", "only"),
            file("c.go", "one\ntwo\n"),
            file("readme.md", "ignored\ntext\n"),
        ],
    );
    let languages = default_languages();
    let results = run_analysis(Some(&root), &languages, "root").unwrap();

    assert_eq!(results.total_files, 3);
    assert_eq!(results.total_lines, 6);
    assert_eq!(results.stats.len(), 2);

    let rust = stat_for(&results, "Rust").unwrap();
    assert_eq!(rust.files, 2);
    assert_eq!(rust.lines, 4);
    assert_eq!(rust.calculate_percentages(results.total_files, results.total_lines), (667, 667));

    let go = stat_for(&results, "Go").unwrap();
    assert_eq!(go.files, 1);
    assert_eq!(go.lines, 2);
    assert_eq!(go.calculate_percentages(results.total_files, results.total_lines), (333, 333));

    assert!(stat_for(&results, "Markdown").is_none());
}

#[test]
fn excluded_directory_contributes_nothing() {
    let root = dir(
        "root",
        vec![
            file("a.rs", "one\n"),
            dir("node_modules", vec![file("x.rs", "a\nb\nc\n"), file("y.go", "a\n")]),
            dir("src", vec![dir("node_modules", vec![file("deep.rs", "a\n")])]),
        ],
    );
    let languages = default_languages();
    let results = run_analysis(Some(&root), &languages, "root").unwrap();
    assert_eq!(results.total_files, 1);
    assert_eq!(results.total_lines, 1);
    let rust = stat_for(&results, "Rust").unwrap();
    assert_eq!(rust.files, 1);
    assert_eq!(rust.lines, 1);
}

#[test]
fn hidden_directory_contributes_nothing() {
    let root = dir(
        "root",
        vec![dir(".git", vec![file("a.rs", "a\n")]), dir(".hidden", vec![file("b.go", "b\n")])],
    );
    let languages = default_languages();
    let results = run_analysis(Some(&root), &languages, "root").unwrap();
    assert_eq!(results.total_files, 0);
    assert_eq!(results.total_lines, 0);
    assert!(results.stats.is_empty());
}

#[test]
fn dot_root_is_traversed() {
    let root = dir(".", vec![file("a.rs", "a\n")]);
    let languages = default_languages();
    let results = run_analysis(Some(&root), &languages, ".").unwrap();
    assert_eq!(results.total_files, 1);
}

#[test]
fn root_named_like_excluded_directory_yields_nothing() {
    let root = dir("target", vec![file("a.rs", "a\n")]);
    let languages = default_languages();
    let results = run_analysis(Some(&root), &languages, "target").unwrap();
    assert_eq!(results.total_files, 0);
}

#[test]
fn missing_root_is_directory_not_found() {
    let languages = default_languages();
    let err = run_analysis(None, &languages, "./does-not-exist").unwrap_err();
    match err {
        StatsError::DirectoryNotFound(p) => assert_eq!(p, "./does-not-exist"),
        other => panic!("unexpected error: {:?}", other),
    }
}

#[test]
fn file_root_is_directory_not_found() {
    let root = file("a.rs", "a\n");
    let languages = default_languages();
    let err = run_analysis(Some(&root), &languages, "a.rs").unwrap_err();
    match err {
        StatsError::DirectoryNotFound(p) => assert_eq!(p, "a.rs"),
        other => panic!("unexpected error: {:?}", other),
    }
}

#[test]
fn repeated_runs_are_identical() {
    let make = || {
        dir(
            "root",
            vec![file("a.rs", "one\ntwo\n"), file("b.go", "one\n"), dir(
                "sub",
                vec![file("c.rs", "x\n")],
            )],
        )
    };
    let languages = default_languages();
    let first = run_analysis(Some(&make()), &languages, "root").unwrap();
    let second = run_analysis(Some(&make()), &languages, "root").unwrap();
    assert_eq!(first, second);
}

#[test]
fn sibling_order_does_not_change_statistics() {
    let languages = default_languages();
    let one = dir("root", vec![file("a.rs", "1\n2\n"), file("b.go", "1\n"), file("c.rs", "1\n")]);
    let two = dir("root", vec![file("c.rs", "1\n"), file("b.go", "1\n"), file("a.rs", "1\n2\n")]);
    let r1 = run_analysis(Some(&one), &languages, "root").unwrap();
    let r2 = run_analysis(Some(&two), &languages, "root").unwrap();
    assert_eq!(r1.total_files, r2.total_files);
    assert_eq!(r1.total_lines, r2.total_lines);
    for lang in ["Rust", "Go"] {
        let s1 = stat_for(&r1, lang).unwrap();
        let s2 = stat_for(&r2, lang).unwrap();
        assert_eq!((s1.files, s1.lines), (s2.files, s2.lines));
    }
}

#[test]
fn unreadable_file_is_skipped() {
    let root = dir("root", vec![file("a.rs", "a\n"), unreadable("b.rs")]);
    let languages = default_languages();
    let results = run_analysis(Some(&root), &languages, "root").unwrap();
    assert_eq!(results.total_files, 1);
    assert_eq!(results.total_lines, 1);
}

#[test]
fn get_files_yields_paths_and_skips_unregistered() {
    let root = dir("r", vec![file("a.rs", "a\n"), file("notes.txt", "b\n"), dir(
        "sub",
        vec![file("c.go", "c\n")],
    )]);
    let languages = default_languages();
    let files = get_files(Some(&root), &languages, "r").unwrap();
    let paths: Vec<Vec<String>> = files.iter().map(|f| f.path.clone()).collect();
    assert_eq!(paths, vec![
        vec!["r".to_string(), "a.rs".to_string()],
        vec!["r".to_string(), "sub".to_string(), "c.go".to_string()],
    ]);
}

#[test]
fn analyze_file_classifies_by_registry() {
    let languages = default_languages();
    let found = FoundFile {
        path: vec!["r".to_string(), "lib.rs".to_string()],
        content: Some(b"a\nb".to_vec()),
    };
    let fa = analyze_file(&found, &languages).unwrap();
    assert_eq!(fa.language, "Rust");
    assert_eq!(fa.line_count, 2);
}

#[test]
fn analyze_file_rejects_unregistered_extension() {
    let languages = default_languages();
    let found = FoundFile {
        path: vec!["readme.md".to_string()],
        content: Some(b"a\n".to_vec()),
    };
    assert!(analyze_file(&found, &languages).is_none());
}

#[test]
fn analyze_file_rejects_missing_extension_and_content() {
    let languages = default_languages();
    let no_ext = FoundFile { path: vec!["Makefile".to_string()], content: Some(b"a\n".to_vec()) };
    assert!(analyze_file(&no_ext, &languages).is_none());
    let no_content = FoundFile { path: vec!["a.rs".to_string()], content: None };
    assert!(analyze_file(&no_content, &languages).is_none());
}

#[test]
fn aggregate_groups_by_language() {
    let records = vec![
        FileAnalysis { language: "Rust".to_string(), line_count: 3 },
        FileAnalysis { language: "Go".to_string(), line_count: 2 },
        FileAnalysis { language: "Rust".to_string(), line_count: 1 },
    ];
    let results = aggregate_results(records);
    assert_eq!(results.total_files, 3);
    assert_eq!(results.total_lines, 6);
    assert_eq!(results.stats.len(), 2);
    assert_eq!(results.stats[0].0, "Rust");
    assert_eq!((results.stats[0].1.files, results.stats[0].1.lines), (2, 4));
    assert_eq!(results.stats[1].0, "Go");
    assert_eq!((results.stats[1].1.files, results.stats[1].1.lines), (1, 2));
}

#[test]
fn aggregate_of_nothing_is_empty() {
    let results = aggregate_results(Vec::new());
    assert_eq!(results.total_files, 0);
    assert_eq!(results.total_lines, 0);
    assert!(results.stats.is_empty());
}

#[test]
fn error_values_compare_and_clone() {
    let a = StatsError::IoError("broken pipe".to_string());
    let b = a.clone();
    assert_eq!(a, b);
    assert_ne!(a, StatsError::DirectoryNotFound("broken pipe".to_string()));
}
