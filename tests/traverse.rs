use module_graph::{ModuleFile, SyntaxNode, Traversal};

fn s(x: &str) -> String {
    x.to_string()
}

fn imports(sources: &[&str]) -> Vec<SyntaxNode> {
    sources
        .iter()
        .map(|x| SyntaxNode::ImportDeclaration { source: s(x) })
        .collect()
}

/// Runs a traversal over a file system given as (path, imported paths);
/// returns the finished files, the missing paths, and how many files were
/// analysed.
fn run(fs: &[(&str, &[&str])], entries: &[&str]) -> (Vec<ModuleFile>, Vec<String>, usize) {
    let mut t = Traversal::new(entries.iter().map(|e| s(e)).collect());
    let mut analysed = 0;
    while let Some(path) = t.next_request() {
        analysed += 1;
        assert!(analysed <= 100, "traversal does not end");
        match fs.iter().find(|(p, _)| *p == path) {
            Some((_, deps)) => t.file_analyzed(&imports(deps)).unwrap(),
            None => t.file_missing(),
        }
    }
    let missing = t.missing().clone();
    (t.into_project().files, missing, analysed)
}

fn paths(files: &[ModuleFile]) -> Vec<String> {
    files.iter().map(|f| f.path.clone()).collect()
}

#[test]
fn imported_file_comes_first() {
    let (files, missing, _) = run(&[("e.ts", &["f.ts"]), ("f.ts", &[])], &["e.ts"]);
    assert_eq!(paths(&files), vec![s("f.ts"), s("e.ts")]);
    assert!(missing.is_empty());
}

#[test]
fn missing_import_is_skipped_with_a_notice() {
    let (files, missing, _) = run(&[("e.ts", &["missing.ts"])], &["e.ts"]);
    assert_eq!(paths(&files), vec![s("e.ts")]);
    assert_eq!(missing, vec![s("missing.ts")]);
    assert_eq!(files[0].imports[0].source, "missing.ts");
}

#[test]
fn two_file_cycle_ends() {
    let (files, _, analysed) = run(&[("a.ts", &["b.ts"]), ("b.ts", &["a.ts"])], &["a.ts"]);
    assert_eq!(paths(&files), vec![s("b.ts"), s("a.ts")]);
    assert_eq!(analysed, 2);
}

#[test]
fn self_import_ends() {
    let (files, _, analysed) = run(&[("a.ts", &["a.ts"])], &["a.ts"]);
    assert_eq!(paths(&files), vec![s("a.ts")]);
    assert_eq!(analysed, 1);
}

#[test]
fn shared_import_is_analysed_once() {
    let fs: &[(&str, &[&str])] = &[
        ("main.ts", &["a.ts", "b.ts"]),
        ("a.ts", &["shared.ts"]),
        ("b.ts", &["shared.ts"]),
        ("shared.ts", &[]),
    ];
    let (files, _, analysed) = run(fs, &["main.ts", "a.ts"]);
    assert_eq!(
        paths(&files),
        vec![s("shared.ts"), s("a.ts"), s("b.ts"), s("main.ts")]
    );
    assert_eq!(analysed, 4);
}

#[test]
fn two_runs_give_the_same_project() {
    let fs: &[(&str, &[&str])] = &[
        ("main.ts", &["a.ts", "gone.ts", "b.ts"]),
        ("a.ts", &["b.ts", "main.ts"]),
        ("b.ts", &[]),
    ];
    let (f1, m1, n1) = run(fs, &["main.ts"]);
    let (f2, m2, n2) = run(fs, &["main.ts"]);
    assert_eq!(paths(&f1), paths(&f2));
    assert_eq!(m1, m2);
    assert_eq!(n1, n2);
    for (a, b) in f1.iter().zip(f2.iter()) {
        let sa: Vec<String> = a.imports.iter().map(|i| i.source.clone()).collect();
        let sb: Vec<String> = b.imports.iter().map(|i| i.source.clone()).collect();
        assert_eq!(sa, sb);
    }
    assert_eq!(paths(&f1), vec![s("b.ts"), s("a.ts"), s("main.ts")]);
}

#[test]
fn no_entries_no_files() {
    let (files, missing, analysed) = run(&[], &[]);
    assert!(files.is_empty());
    assert!(missing.is_empty());
    assert_eq!(analysed, 0);
}

#[test]
fn missing_entry_and_repeated_entry() {
    let (files, missing, _) = run(&[("a.ts", &[])], &["nope.ts", "a.ts", "a.ts", "nope.ts"]);
    assert_eq!(paths(&files), vec![s("a.ts")]);
    assert_eq!(missing, vec![s("nope.ts"), s("nope.ts")]);
}

#[test]
fn unanswered_path_is_handed_out_again() {
    let mut t = Traversal::new(vec![s("a.ts"), s("b.ts")]);
    assert_eq!(t.next_request(), Some(s("a.ts")));
    assert_eq!(t.next_request(), Some(s("a.ts")));
    t.file_missing();
    assert_eq!(t.next_request(), Some(s("b.ts")));
}

#[test]
fn report_without_request_is_an_error() {
    let mut t = Traversal::new(vec![s("a.ts")]);
    assert!(matches!(
        t.file_analyzed(&Vec::new()),
        Err(module_graph::AnalyzeError::NoFileRequested)
    ));
    assert_eq!(t.next_request(), Some(s("a.ts")));
    let bad = vec![SyntaxNode::ImportSpecifier { imported: s("x"), local: s("x") }];
    assert!(matches!(
        t.file_analyzed(&bad),
        Err(module_graph::AnalyzeError::SpecifierWithoutImport)
    ));
    assert_eq!(t.next_request(), Some(s("a.ts")));
    t.file_analyzed(&Vec::new()).unwrap();
    assert_eq!(t.next_request(), None);
    assert_eq!(paths(&t.into_project().files), vec![s("a.ts")]);
}
