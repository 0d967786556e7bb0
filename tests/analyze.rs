use module_graph::{AnalyzeError, ModuleFile, SyntaxNode};

fn s(x: &str) -> String {
    x.to_string()
}

fn decl(source: &str) -> SyntaxNode {
    SyntaxNode::ImportDeclaration { source: s(source) }
}

fn bindings(f: &ModuleFile, i: usize) -> Vec<(String, String)> {
    f.imports[i]
        .specifiers
        .iter()
        .map(|sp| (sp.source_name.clone(), sp.local_name.clone()))
        .collect()
}

#[test]
fn default_named_and_namespace_bindings() {
    // import A, { b as c, d } from "m"; import * as ns from "n";
    let nodes = vec![
        decl("m"),
        SyntaxNode::ImportDefaultSpecifier { local: s("A") },
        SyntaxNode::ImportSpecifier { imported: s("b"), local: s("c") },
        SyntaxNode::ImportSpecifier { imported: s("d"), local: s("d") },
        decl("n"),
        SyntaxNode::ImportNamespaceSpecifier { local: s("ns") },
    ];
    let f = ModuleFile::analyze(s("main.ts"), &nodes).unwrap();
    assert_eq!(f.path, "main.ts");
    assert_eq!(f.imports.len(), 2);
    assert_eq!(f.imports[0].source, "m");
    assert_eq!(
        bindings(&f, 0),
        vec![(s("default"), s("A")), (s("b"), s("c")), (s("d"), s("d"))]
    );
    assert_eq!(f.imports[1].source, "n");
    assert_eq!(bindings(&f, 1), vec![(s("*"), s("ns"))]);
}

#[test]
fn no_declarations_no_imports() {
    let nodes = vec![SyntaxNode::Other, SyntaxNode::ExportName { name: s("x") }, SyntaxNode::Other];
    let f = ModuleFile::analyze(s("a.js"), &nodes).unwrap();
    assert!(f.imports.is_empty());
    assert_eq!(f.exports, vec![s("x")]);
    assert_eq!(f.default_export, None);
}

#[test]
fn empty_file_has_no_facts() {
    let f = ModuleFile::analyze(s("empty.ts"), &Vec::new()).unwrap();
    assert_eq!(f.path, "empty.ts");
    assert!(f.imports.is_empty());
    assert!(f.exports.is_empty());
    assert!(f.default_export.is_none());
}

#[test]
fn side_effect_import_has_no_bindings() {
    let f = ModuleFile::analyze(s("a.ts"), &vec![decl("./polyfill")]).unwrap();
    assert_eq!(f.imports.len(), 1);
    assert_eq!(f.imports[0].source, "./polyfill");
    assert!(f.imports[0].specifiers.is_empty());
}

#[test]
fn specifiers_go_to_the_latest_declaration() {
    let nodes = vec![
        decl("x"),
        decl("y"),
        SyntaxNode::ImportSpecifier { imported: s("k"), local: s("k") },
    ];
    let f = ModuleFile::analyze(s("a.ts"), &nodes).unwrap();
    assert!(f.imports[0].specifiers.is_empty());
    assert_eq!(bindings(&f, 1), vec![(s("k"), s("k"))]);
}

#[test]
fn specifier_before_any_declaration_is_an_error() {
    let nodes = vec![SyntaxNode::ImportDefaultSpecifier { local: s("A") }, decl("m")];
    let r = ModuleFile::analyze(s("a.ts"), &nodes);
    assert!(matches!(r, Err(AnalyzeError::SpecifierWithoutImport)));
}

#[test]
fn exports_in_order_and_last_default_wins() {
    let nodes = vec![
        SyntaxNode::ExportName { name: s("a") },
        SyntaxNode::DefaultExport { name: s("first") },
        SyntaxNode::ExportName { name: s("b") },
        SyntaxNode::ExportName { name: s("a") },
        SyntaxNode::DefaultExport { name: s("second") },
    ];
    let f = ModuleFile::analyze(s("a.ts"), &nodes).unwrap();
    assert_eq!(f.exports, vec![s("a"), s("b"), s("a")]);
    assert_eq!(f.default_export, Some(s("second")));
}

#[test]
fn enter_node_one_at_a_time() {
    let mut f = ModuleFile::new(s("a.ts"));
    assert!(matches!(
        f.enter_node(&SyntaxNode::ImportNamespaceSpecifier { local: s("ns") }),
        Err(AnalyzeError::SpecifierWithoutImport)
    ));
    assert!(f.imports.is_empty());
    assert!(f.enter_node(&decl("n")).is_ok());
    assert!(f.enter_node(&SyntaxNode::ImportNamespaceSpecifier { local: s("ns") }).is_ok());
    assert_eq!(bindings(&f, 0), vec![(s("*"), s("ns"))]);
}
