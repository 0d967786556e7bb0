use vstd::prelude::*;

verus! {

/// One binding that an import introduces: the name under which the origin
/// module exports it (`"default"` or `"*"` for default and namespace
/// bindings) and the name bound in the importing file.
pub struct ImportSpecifier {
    pub source_name: String,
    pub local_name: String,
}

/// One import declaration: the module reference as written, and its
/// bindings in source order.
pub struct ImportItem {
    pub source: String,
    pub specifiers: Vec<ImportSpecifier>,
}

/// The facts extracted from one file.
pub struct ModuleFile {
    pub path: String,
    pub imports: Vec<ImportItem>,
    pub exports: Vec<String>,
    pub default_export: Option<String>,
}

/// Model of an import declaration: its source and its (source name, local
/// name) pairs.
pub struct ImportModel {
    pub source: Seq<char>,
    pub specifiers: Seq<(Seq<char>, Seq<char>)>,
}

/// Model of the facts of one file.
pub struct FileModel {
    pub path: Seq<char>,
    pub imports: Seq<ImportModel>,
    pub exports: Seq<Seq<char>>,
    pub default_export: Option<Seq<char>>,
}

impl View for ImportSpecifier {
    type V = (Seq<char>, Seq<char>);

    open spec fn view(&self) -> (Seq<char>, Seq<char>) {
        (self.source_name@, self.local_name@)
    }
}

impl View for ImportItem {
    type V = ImportModel;

    open spec fn view(&self) -> ImportModel {
        ImportModel {
            source: self.source@,
            specifiers: self.specifiers@.map_values(|s: ImportSpecifier| s@),
        }
    }
}

pub open spec fn opt_view(o: Option<String>) -> Option<Seq<char>> {
    match o {
        Some(s) => Some(s@),
        None => None,
    }
}

impl View for ModuleFile {
    type V = FileModel;

    open spec fn view(&self) -> FileModel {
        FileModel {
            path: self.path@,
            imports: self.imports@.map_values(|i: ImportItem| i@),
            exports: self.exports@.map_values(|e: String| e@),
            default_export: opt_view(self.default_export),
        }
    }
}

/// The syntax nodes that the analysis recognises, as met in document order.
pub enum SyntaxNode {
    /// `import ... from "source"`, or `import "source"`.
    ImportDeclaration { source: String },
    /// `{ imported as local }` inside an import declaration.
    ImportSpecifier { imported: String, local: String },
    /// `local` in `import local from ...`.
    ImportDefaultSpecifier { local: String },
    /// `* as local` in an import declaration.
    ImportNamespaceSpecifier { local: String },
    /// A name that the file exports.
    ExportName { name: String },
    /// The file's default export.
    DefaultExport { name: String },
    /// Any node that carries no import or export fact.
    Other,
}

/// Why a syntax tree could not be reduced to facts.
#[derive(PartialEq, Eq, Structural, Clone, Copy, Debug)]
pub enum AnalyzeError {
    /// An import specifier came before any import declaration of its file.
    SpecifierWithoutImport,
    /// A file was reported on while no path had been handed out.
    NoFileRequested,
}

pub open spec fn default_name() -> Seq<char> {
    seq!['d', 'e', 'f', 'a', 'u', 'l', 't']
}

pub open spec fn namespace_name() -> Seq<char> {
    seq!['*']
}

/// The facts of `m` with one more binding in its last import, if it has one.
pub open spec fn add_binding(m: FileModel, source_name: Seq<char>, local_name: Seq<char>) -> Option<
    FileModel,
> {
    if m.imports.len() == 0 {
        None
    } else {
        let last = m.imports.last();
        let item = ImportModel {
            source: last.source,
            specifiers: last.specifiers.push((source_name, local_name)),
        };
        Some(FileModel { imports: m.imports.drop_last().push(item), ..m })
    }
}

/// What visiting one node does to the facts gathered so far; `None` where
/// the node cannot stand there.
pub open spec fn visit(m: FileModel, node: SyntaxNode) -> Option<FileModel> {
    match node {
        SyntaxNode::ImportDeclaration { source } => Some(
            FileModel {
                imports: m.imports.push(ImportModel { source: source@, specifiers: seq![] }),
                ..m
            },
        ),
        SyntaxNode::ImportSpecifier { imported, local } => add_binding(m, imported@, local@),
        SyntaxNode::ImportDefaultSpecifier { local } => add_binding(m, default_name(), local@),
        SyntaxNode::ImportNamespaceSpecifier { local } => add_binding(m, namespace_name(), local@),
        SyntaxNode::ExportName { name } => Some(FileModel { exports: m.exports.push(name@), ..m }),
        SyntaxNode::DefaultExport { name } => Some(FileModel { default_export: Some(name@), ..m }),
        SyntaxNode::Other => Some(m),
    }
}

/// The facts gathered by visiting `nodes` in order, starting from `m`.
pub open spec fn visit_all(m: FileModel, nodes: Seq<SyntaxNode>) -> Option<FileModel>
    decreases nodes.len(),
{
    if nodes.len() == 0 {
        Some(m)
    } else {
        match visit_all(m, nodes.drop_last()) {
            Some(prev) => visit(prev, nodes.last()),
            None => None,
        }
    }
}

/// The facts of a file at `path` before any node has been visited.
pub open spec fn empty_file(path: Seq<char>) -> FileModel {
    FileModel { path, imports: seq![], exports: seq![], default_export: None }
}

/// The facts of the file at `path` whose syntax tree yields `nodes`.
pub open spec fn analysis(path: Seq<char>, nodes: Seq<SyntaxNode>) -> Option<FileModel> {
    visit_all(empty_file(path), nodes)
}

pub open spec fn is_import_declaration(n: SyntaxNode) -> bool {
    n is ImportDeclaration
}

/// The sources of the import declarations among `nodes`, in order.
pub open spec fn declared_sources(nodes: Seq<SyntaxNode>) -> Seq<Seq<char>>
    decreases nodes.len(),
{
    if nodes.len() == 0 {
        seq![]
    } else {
        let prev = declared_sources(nodes.drop_last());
        match nodes.last() {
            SyntaxNode::ImportDeclaration { source } => prev.push(source@),
            _ => prev,
        }
    }
}

/// A copy of `s`.
pub(crate) fn clone_string(s: &String) -> (r: String)
    ensures
        r@ == s@,
{
    s.clone()
}

impl ModuleFile {
    /// A file at `path` with no facts yet.
    pub fn new(path: String) -> (r: ModuleFile)
        ensures
            r@ == empty_file(path@),
    {
        let r = ModuleFile { path, imports: Vec::new(), exports: Vec::new(), default_export: None };
        assert(r@.imports =~= seq![]);
        assert(r@.exports =~= seq![]);
        r
    }

    fn add_binding(&mut self, source_name: String, local_name: String) -> (r: Result<(), AnalyzeError>)
        ensures
            match add_binding(old(self)@, source_name@, local_name@) {
                Some(m) => r is Ok && final(self)@ == m,
                None => r == Err::<(), AnalyzeError>(AnalyzeError::SpecifierWithoutImport)
                    && final(self)@ == old(self)@,
            },
    {
        match self.imports.pop() {
            None => Err(AnalyzeError::SpecifierWithoutImport),
            Some(mut item) => {
                let ghost before = item@;
                item.specifiers.push(ImportSpecifier { source_name, local_name });
                assert(item@.specifiers =~= before.specifiers.push((source_name@, local_name@)));
                self.imports.push(item);
                assert(self@.imports =~= old(self)@.imports.drop_last().push(item@));
                Ok(())
            },
        }
    }

    /// Records the fact that `node` carries: a declaration opens a new import,
    /// a specifier adds a binding to the most recent import, an export adds a
    /// name, a default export replaces the previous one.
    pub fn enter_node(&mut self, node: &SyntaxNode) -> (r: Result<(), AnalyzeError>)
        ensures
            match visit(old(self)@, *node) {
                Some(m) => r is Ok && final(self)@ == m,
                None => r == Err::<(), AnalyzeError>(AnalyzeError::SpecifierWithoutImport)
                    && final(self)@ == old(self)@,
            },
    {
        match node {
            SyntaxNode::ImportDeclaration { source } => {
                self.imports.push(ImportItem { source: clone_string(source), specifiers: Vec::new() });
                proof {
                    let last = self.imports@.last();
                    assert(last@.specifiers =~= seq![]);
                }
                assert(self@.imports =~= old(self)@.imports.push(
                    ImportModel { source: source@, specifiers: seq![] },
                ));
                Ok(())
            },
            SyntaxNode::ImportSpecifier { imported, local } => {
                self.add_binding(clone_string(imported), clone_string(local))
            },
            SyntaxNode::ImportDefaultSpecifier { local } => {
                let name = String::from_str("default");
                proof {
                    reveal_strlit("default");
                }
                assert(name@ =~= default_name());
                self.add_binding(name, clone_string(local))
            },
            SyntaxNode::ImportNamespaceSpecifier { local } => {
                let name = String::from_str("*");
                proof {
                    reveal_strlit("*");
                }
                assert(name@ =~= namespace_name());
                self.add_binding(name, clone_string(local))
            },
            SyntaxNode::ExportName { name } => {
                self.exports.push(clone_string(name));
                assert(self@.exports =~= old(self)@.exports.push(name@));
                Ok(())
            },
            SyntaxNode::DefaultExport { name } => {
                self.default_export = Some(clone_string(name));
                Ok(())
            },
            SyntaxNode::Other => Ok(()),
        }
    }

    /// The facts of the file at `path` whose syntax tree yields `nodes` in
    /// document order.
    pub fn analyze(path: String, nodes: &Vec<SyntaxNode>) -> (r: Result<ModuleFile, AnalyzeError>)
        ensures
            match analysis(path@, nodes@) {
                Some(m) => r is Ok && r->Ok_0@ == m,
                None => r == Err::<ModuleFile, AnalyzeError>(AnalyzeError::SpecifierWithoutImport),
            },
    {
        let mut file = ModuleFile::new(path);
        let ghost start = file@;
        let mut i: usize = 0;
        while i < nodes.len()
            invariant
                0 <= i <= nodes.len(),
                start == empty_file(path@),
                visit_all(start, nodes@.take(i as int)) == Some(file@),
            decreases nodes.len() - i,
        {
            let ghost before = file@;
            let res = file.enter_node(&nodes[i]);
            proof {
                let t = nodes@.take(i as int + 1);
                assert(t.drop_last() =~= nodes@.take(i as int));
                assert(t.last() == nodes@[i as int]);
            }
            match res {
                Err(e) => {
                    proof {
                        lemma_failure_persists(start, nodes@, i as int + 1);
                        assert(nodes@.take(nodes.len() as int) =~= nodes@);
                    }
                    return Err(e);
                },
                Ok(()) => {},
            }
            i = i + 1;
        }
        assert(nodes@.take(nodes.len() as int) =~= nodes@);
        Ok(file)
    }
}

/// The sources of a sequence of imports, in order.
pub open spec fn sources(imports: Seq<ImportModel>) -> Seq<Seq<char>> {
    imports.map_values(|i: ImportModel| i.source)
}

/// Visiting nodes keeps the path, and adds one import per import
/// declaration, with that declaration's source, in document order.
pub proof fn lemma_visit_all_imports(m: FileModel, nodes: Seq<SyntaxNode>)
    ensures
        visit_all(m, nodes) matches Some(r) ==> r.path == m.path && sources(r.imports) == sources(
            m.imports,
        ) + declared_sources(nodes),
    decreases nodes.len(),
{
    if nodes.len() > 0 {
        lemma_visit_all_imports(m, nodes.drop_last());
        if let Some(prev) = visit_all(m, nodes.drop_last()) {
            if let Some(r) = visit(prev, nodes.last()) {
                match nodes.last() {
                    SyntaxNode::ImportDeclaration { source } => {
                        assert(sources(r.imports) =~= sources(prev.imports).push(source@));
                        assert(sources(m.imports) + declared_sources(nodes) =~= (sources(m.imports)
                            + declared_sources(nodes.drop_last())).push(source@));
                    },
                    SyntaxNode::ImportSpecifier { .. } | SyntaxNode::ImportDefaultSpecifier { .. }
                    | SyntaxNode::ImportNamespaceSpecifier { .. } => {
                        assert(sources(r.imports) =~= sources(prev.imports));
                    },
                    _ => {},
                }
            }
        }
    } else {
        assert(sources(m.imports) + declared_sources(nodes) =~= sources(m.imports));
    }
}

/// The analysis of a file keeps its path, and its imports are its import
/// declarations, one each, in document order.
pub proof fn lemma_analysis_imports(path: Seq<char>, nodes: Seq<SyntaxNode>)
    ensures
        analysis(path, nodes) matches Some(m) ==> m.path == path && sources(m.imports)
            == declared_sources(nodes),
{
    lemma_visit_all_imports(empty_file(path), nodes);
    assert(sources(empty_file(path).imports) + declared_sources(nodes) =~= declared_sources(nodes));
}

/// A file without import declarations has no imports.
pub proof fn lemma_no_declarations_no_imports(path: Seq<char>, nodes: Seq<SyntaxNode>)
    requires
        forall|i: int| 0 <= i < nodes.len() ==> !is_import_declaration(#[trigger] nodes[i]),
    ensures
        analysis(path, nodes) matches Some(m) ==> m.imports.len() == 0,
{
    lemma_analysis_imports(path, nodes);
    lemma_no_declared_sources(nodes);
}

proof fn lemma_no_declared_sources(nodes: Seq<SyntaxNode>)
    requires
        forall|i: int| 0 <= i < nodes.len() ==> !is_import_declaration(#[trigger] nodes[i]),
    ensures
        declared_sources(nodes).len() == 0,
    decreases nodes.len(),
{
    if nodes.len() > 0 {
        assert(!is_import_declaration(nodes[nodes.len() - 1]));
        lemma_no_declared_sources(nodes.drop_last());
    }
}

/// Once a prefix of the nodes cannot be visited, no longer prefix can.
proof fn lemma_failure_persists(m: FileModel, nodes: Seq<SyntaxNode>, k: int)
    requires
        0 <= k <= nodes.len(),
        visit_all(m, nodes.take(k)) is None,
    ensures
        visit_all(m, nodes) is None,
    decreases nodes.len() - k,
{
    if k < nodes.len() {
        let t = nodes.take(k + 1);
        assert(t.drop_last() =~= nodes.take(k));
        lemma_failure_persists(m, nodes, k + 1);
    } else {
        assert(nodes.take(k) =~= nodes);
    }
}

} // verus!
