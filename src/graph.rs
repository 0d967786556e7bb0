use vstd::prelude::*;
use crate::facts::{analysis, clone_string, lemma_analysis_imports, opt_view, AnalyzeError, FileModel, ModuleFile, SyntaxNode};

verus! {

/// The output of a traversal: the facts of every file reached, each path
/// once, in the order the files were finished. A file is finished once each
/// of its imports has been looked at.
pub struct Project {
    pub files: Vec<ModuleFile>,
}

/// A file whose imports are being followed, with the index of the next
/// import to follow.
pub struct Frame {
    fact: ModuleFile,
    next: usize,
}

/// The state of a depth-first traversal of the import graph.
///
/// The traversal decides which path to look at next; the caller looks at the
/// file system and reports back, through `file_missing` or `file_analyzed`.
/// A path is skipped when it is finished (in `files`) or in progress (on the
/// stack), so that cycles end.
pub struct Traversal {
    entries: Vec<String>,
    next_entry: usize,
    stack: Vec<Frame>,
    files: Vec<ModuleFile>,
    missing: Vec<String>,
    awaiting: Option<String>,
}

/// Model of a traversal.
pub struct TraversalModel {
    pub entries: Seq<Seq<char>>,
    pub next_entry: nat,
    pub stack: Seq<(FileModel, nat)>,
    pub files: Seq<FileModel>,
    pub missing: Seq<Seq<char>>,
    pub awaiting: Option<Seq<char>>,
}

impl View for Project {
    type V = Seq<FileModel>;

    open spec fn view(&self) -> Seq<FileModel> {
        self.files@.map_values(|f: ModuleFile| f@)
    }
}

impl View for Frame {
    type V = (FileModel, nat);

    closed spec fn view(&self) -> (FileModel, nat) {
        (self.fact@, self.next as nat)
    }
}

impl View for Traversal {
    type V = TraversalModel;

    closed spec fn view(&self) -> TraversalModel {
        TraversalModel {
            entries: self.entries@.map_values(|e: String| e@),
            next_entry: self.next_entry as nat,
            stack: self.stack@.map_values(|f: Frame| f@),
            files: self.files@.map_values(|f: ModuleFile| f@),
            missing: self.missing@.map_values(|m: String| m@),
            awaiting: opt_view(self.awaiting),
        }
    }
}

/// The paths of a sequence of file facts.
pub open spec fn paths(files: Seq<FileModel>) -> Seq<Seq<char>> {
    files.map_values(|f: FileModel| f.path)
}

/// The paths of the files in progress.
pub open spec fn stack_paths(stack: Seq<(FileModel, nat)>) -> Seq<Seq<char>> {
    stack.map_values(|fr: (FileModel, nat)| fr.0.path)
}

/// No path occurs twice.
pub open spec fn distinct(s: Seq<Seq<char>>) -> bool {
    forall|i: int, j: int| 0 <= i < j < s.len() ==> s[i] != s[j]
}

/// `p` is finished or in progress.
pub open spec fn known(s: TraversalModel, p: Seq<char>) -> bool {
    paths(s.files).contains(p) || stack_paths(s.stack).contains(p)
}

/// `p` has been dealt with: it is finished, in progress, found missing, or
/// handed to the caller.
pub open spec fn covered(s: TraversalModel, p: Seq<char>) -> bool {
    known(s, p) || s.missing.contains(p) || s.awaiting == Some(p)
}

/// The entries not yet looked at.
pub open spec fn entries_left(s: TraversalModel) -> nat {
    if s.next_entry < s.entries.len() {
        (s.entries.len() - s.next_entry) as nat
    } else {
        0
    }
}

/// The imports of the innermost file in progress not yet looked at.
pub open spec fn top_left(s: TraversalModel) -> nat {
    if s.stack.len() > 0 && s.stack.last().1 < s.stack.last().0.imports.len() {
        (s.stack.last().0.imports.len() - s.stack.last().1) as nat
    } else {
        0
    }
}

/// The traversal's next decision: the next path to hand to the caller
/// (`None` when the traversal is over), and the state after it. Files whose
/// imports have all been looked at are finished on the way.
pub open spec fn advance(s: TraversalModel) -> (TraversalModel, Option<Seq<char>>)
    decreases entries_left(s), s.stack.len(), top_left(s),
{
    if s.awaiting is Some {
        (s, s.awaiting)
    } else if s.stack.len() > 0 {
        let top = s.stack.last();
        if top.1 < top.0.imports.len() {
            let cand = top.0.imports[top.1 as int].source;
            let s2 = TraversalModel {
                stack: s.stack.update(s.stack.len() - 1, (top.0, top.1 + 1)),
                ..s
            };
            if known(s2, cand) {
                advance(s2)
            } else {
                (TraversalModel { awaiting: Some(cand), ..s2 }, Some(cand))
            }
        } else {
            advance(TraversalModel { stack: s.stack.drop_last(), files: s.files.push(top.0), ..s })
        }
    } else if s.next_entry < s.entries.len() {
        let cand = s.entries[s.next_entry as int];
        let s2 = TraversalModel { next_entry: s.next_entry + 1, ..s };
        if known(s2, cand) {
            advance(s2)
        } else {
            (TraversalModel { awaiting: Some(cand), ..s2 }, Some(cand))
        }
    } else {
        (s, None)
    }
}

/// The traversal is over: every entry and every import has been looked at,
/// and nothing is in progress or handed out.
pub open spec fn done(s: TraversalModel) -> bool {
    s.awaiting is None && s.stack.len() == 0 && s.next_entry == s.entries.len()
}

/// Each file in progress but the outermost is the last import looked at of
/// the file below it, and so is the path handed out, if any.
pub open spec fn chained(s: TraversalModel) -> bool {
    &&& forall|m: int|
        0 < m < s.stack.len() ==> s.stack[m - 1].1 > 0 && (#[trigger] s.stack[m]).0.path
            == s.stack[m - 1].0.imports[s.stack[m - 1].1 - 1].source
    &&& (s.awaiting is Some && s.stack.len() > 0) ==> s.stack.last().1 > 0 && s.awaiting
        == Some(s.stack.last().0.imports[s.stack.last().1 - 1].source)
}

/// The invariant of a traversal.
pub open spec fn well_formed(s: TraversalModel) -> bool {
    &&& s.next_entry <= s.entries.len()
    &&& forall|i: int| 0 <= i < s.stack.len() ==> #[trigger] s.stack[i].1 <= s.stack[i].0.imports.len()
    &&& distinct(paths(s.files))
    &&& distinct(stack_paths(s.stack))
    &&& forall|p: Seq<char>| paths(s.files).contains(p) ==> !stack_paths(s.stack).contains(p)
    &&& (s.awaiting matches Some(p) ==> !known(s, p))
    &&& chained(s)
    &&& forall|i: int| 0 <= i < s.next_entry ==> covered(s, #[trigger] s.entries[i])
    &&& forall|i: int, k: int|
        0 <= i < s.stack.len() && 0 <= k < s.stack[i].1 ==> covered(
            s,
            #[trigger] s.stack[i].0.imports[k].source,
        )
    &&& forall|i: int, k: int|
        0 <= i < s.files.len() && 0 <= k < s.files[i].imports.len() ==> covered(
            s,
            #[trigger] s.files[i].imports[k].source,
        )
}

/// Looking at the next import of the innermost file in progress keeps the
/// invariant, whether the import is skipped or handed out.
proof fn lemma_next_import(s: TraversalModel)
    requires
        well_formed(s),
        s.awaiting is None,
        s.stack.len() > 0,
        s.stack.last().1 < s.stack.last().0.imports.len(),
    ensures
        ({
            let top = s.stack.last();
            let cand = top.0.imports[top.1 as int].source;
            let s2 = TraversalModel {
                stack: s.stack.update(s.stack.len() - 1, (top.0, top.1 + 1)),
                ..s
            };
            &&& known(s2, cand) ==> well_formed(s2)
            &&& !known(s2, cand) ==> well_formed(TraversalModel { awaiting: Some(cand), ..s2 })
            &&& top_left(s2) < top_left(s)
            &&& forall|q: Seq<char>| known(s2, q) == known(s, q)
        }),
{
    let top = s.stack.last();
    let n = s.stack.len() - 1;
    let cand = top.0.imports[top.1 as int].source;
    let s2 = TraversalModel { stack: s.stack.update(n, (top.0, top.1 + 1)), ..s };
    assert(stack_paths(s2.stack) =~= stack_paths(s.stack));
    assert forall|p: Seq<char>| known(s2, p) == known(s, p) by {}
    let s3 = TraversalModel { awaiting: Some(cand), ..s2 };
    assert forall|i: int, k: int|
        0 <= i < s2.stack.len() && 0 <= k < s2.stack[i].1 implies covered(
            s2,
            #[trigger] s2.stack[i].0.imports[k].source,
        ) || (i == n && k == top.1) by {
        if i != n || k != top.1 {
            assert(s2.stack[i].0 == s.stack[i].0);
        }
    }
    if !known(s2, cand) {
        assert forall|i: int, k: int|
            0 <= i < s3.stack.len() && 0 <= k < s3.stack[i].1 implies covered(
                s3,
                #[trigger] s3.stack[i].0.imports[k].source,
            ) by {
            if i != n || k != top.1 {
                assert(s2.stack[i].0 == s.stack[i].0);
                assert(covered(s, s.stack[i].0.imports[k].source));
            }
        }
    }
}

/// Finishing the innermost file in progress keeps the invariant.
proof fn lemma_finish_top(s: TraversalModel)
    requires
        well_formed(s),
        s.awaiting is None,
        s.stack.len() > 0,
        s.stack.last().1 >= s.stack.last().0.imports.len(),
    ensures
        well_formed(
            TraversalModel { stack: s.stack.drop_last(), files: s.files.push(s.stack.last().0), ..s },
        ),
        forall|q: Seq<char>|
            known(
                TraversalModel { stack: s.stack.drop_last(), files: s.files.push(s.stack.last().0), ..s },
                q,
            ) == known(s, q),
{
    let top = s.stack.last();
    let n = s.stack.len() - 1;
    let s2 = TraversalModel { stack: s.stack.drop_last(), files: s.files.push(top.0), ..s };
    assert(paths(s2.files) =~= paths(s.files).push(top.0.path));
    assert(stack_paths(s2.stack) =~= stack_paths(s.stack).drop_last());
    assert(stack_paths(s.stack)[n] == top.0.path);
    assert forall|p: Seq<char>| known(s2, p) == known(s, p) by {
        if stack_paths(s.stack).contains(p) {
            let j = choose|j: int| 0 <= j < stack_paths(s.stack).len() && stack_paths(s.stack)[j] == p;
            if j < n {
                assert(stack_paths(s2.stack)[j] == p);
                assert(stack_paths(s2.stack).contains(p));
            } else {
                assert(paths(s2.files)[s.files.len() as int] == p);
                assert(paths(s2.files).contains(p));
            }
        }
        if paths(s.files).contains(p) {
            let j = choose|j: int| 0 <= j < paths(s.files).len() && paths(s.files)[j] == p;
            assert(paths(s2.files)[j] == p);
            assert(paths(s2.files).contains(p));
        }
        if paths(s2.files).contains(p) {
            let j = choose|j: int| 0 <= j < paths(s2.files).len() && paths(s2.files)[j] == p;
            if j < s.files.len() {
                assert(paths(s.files)[j] == p);
                assert(paths(s.files).contains(p));
            } else {
                assert(stack_paths(s.stack)[n] == p);
                assert(stack_paths(s.stack).contains(p));
            }
        }
        if stack_paths(s2.stack).contains(p) {
            let m = choose|m: int| 0 <= m < stack_paths(s2.stack).len() && stack_paths(s2.stack)[m] == p;
            assert(stack_paths(s.stack)[m] == p);
            assert(stack_paths(s.stack).contains(p));
        }
    }
    assert(!paths(s.files).contains(top.0.path));
    assert forall|p: Seq<char>| paths(s2.files).contains(p) implies !stack_paths(s2.stack).contains(p) by {
        let j = choose|j: int| 0 <= j < paths(s2.files).len() && paths(s2.files)[j] == p;
        if stack_paths(s2.stack).contains(p) {
            let m = choose|m: int| 0 <= m < stack_paths(s2.stack).len() && stack_paths(s2.stack)[m] == p;
            assert(stack_paths(s.stack)[m] == p);
            if j < s.files.len() {
                assert(paths(s.files)[j] == p);
                assert(stack_paths(s.stack).contains(p));
            }
        }
    }
    assert forall|i: int| 0 <= i < s2.stack.len() implies #[trigger] s2.stack[i].1
        <= s2.stack[i].0.imports.len() by {
        assert(s2.stack[i] == s.stack[i]);
    }
    assert forall|i: int, k: int|
        0 <= i < s2.stack.len() && 0 <= k < s2.stack[i].1 implies covered(
            s2,
            #[trigger] s2.stack[i].0.imports[k].source,
        ) by {
        assert(s2.stack[i] == s.stack[i]);
        assert(covered(s, s.stack[i].0.imports[k].source));
    }
    assert forall|i: int, k: int|
        0 <= i < s2.files.len() && 0 <= k < s2.files[i].imports.len() implies covered(
            s2,
            #[trigger] s2.files[i].imports[k].source,
        ) by {
        if i < s.files.len() {
            assert(s2.files[i] == s.files[i]);
            assert(covered(s, s.files[i].imports[k].source));
        } else {
            assert(s.stack[n].0.imports[k] == s2.files[i].imports[k]);
            assert(covered(s, s.stack[n].0.imports[k].source));
        }
    }
    assert forall|i: int| 0 <= i < s2.next_entry implies covered(s2, #[trigger] s2.entries[i]) by {
        assert(covered(s, s.entries[i]));
    }
}

/// Looking at the next entry keeps the invariant, whether the entry is
/// skipped or handed out.
proof fn lemma_next_entry(s: TraversalModel)
    requires
        well_formed(s),
        s.awaiting is None,
        s.stack.len() == 0,
        s.next_entry < s.entries.len(),
    ensures
        ({
            let cand = s.entries[s.next_entry as int];
            let s2 = TraversalModel { next_entry: s.next_entry + 1, ..s };
            &&& known(s2, cand) ==> well_formed(s2)
            &&& !known(s2, cand) ==> well_formed(TraversalModel { awaiting: Some(cand), ..s2 })
            &&& forall|q: Seq<char>| known(s2, q) == known(s, q)
        }),
{
    let cand = s.entries[s.next_entry as int];
    let s2 = TraversalModel { next_entry: s.next_entry + 1, ..s };
    let s3 = TraversalModel { awaiting: Some(cand), ..s2 };
    assert forall|i: int| 0 <= i < s3.next_entry implies covered(s3, #[trigger] s3.entries[i]) by {
        if i < s.next_entry {
            assert(covered(s, s.entries[i]));
        }
    }
    assert forall|i: int, k: int|
        0 <= i < s3.stack.len() && 0 <= k < s3.stack[i].1 implies covered(
            s3,
            #[trigger] s3.stack[i].0.imports[k].source,
        ) by {
        assert(covered(s, s.stack[i].0.imports[k].source));
    }
    assert forall|i: int, k: int|
        0 <= i < s3.files.len() && 0 <= k < s3.files[i].imports.len() implies covered(
            s3,
            #[trigger] s3.files[i].imports[k].source,
        ) by {
        assert(covered(s, s.files[i].imports[k].source));
    }
}

/// Files are finished in post-order. When the innermost file in progress is
/// finished, each of its imports is already finished (and so comes before
/// it among the finished files), was found missing, or is in progress. The
/// files in progress form a chain in which each file imports the next, so an
/// import in progress lies on an import cycle with the file.
pub proof fn lemma_post_order(s: TraversalModel)
    requires
        well_formed(s),
        s.awaiting is None,
        s.stack.len() > 0,
        s.stack.last().1 >= s.stack.last().0.imports.len(),
    ensures
        forall|k: int|
            0 <= k < s.stack.last().0.imports.len() ==> paths(s.files).contains(
                #[trigger] s.stack.last().0.imports[k].source,
            ) || s.missing.contains(s.stack.last().0.imports[k].source) || stack_paths(
                s.stack,
            ).contains(s.stack.last().0.imports[k].source),
        forall|m: int|
            0 < m < s.stack.len() ==> exists|k: int|
                0 <= k < s.stack[m - 1].0.imports.len() && #[trigger] s.stack[m
                    - 1].0.imports[k].source == (#[trigger] s.stack[m]).0.path,
{
    let n = s.stack.len() - 1;
    assert forall|k: int| 0 <= k < s.stack.last().0.imports.len() implies paths(s.files).contains(
        #[trigger] s.stack.last().0.imports[k].source,
    ) || s.missing.contains(s.stack.last().0.imports[k].source) || stack_paths(s.stack).contains(
        s.stack.last().0.imports[k].source,
    ) by {
        assert(covered(s, s.stack[n].0.imports[k].source));
    }
    assert forall|m: int| 0 < m < s.stack.len() implies exists|k: int|
        0 <= k < s.stack[m - 1].0.imports.len() && #[trigger] s.stack[m - 1].0.imports[k].source
            == (#[trigger] s.stack[m]).0.path by {
        assert(s.stack[m].0.path == s.stack[m - 1].0.imports[s.stack[m - 1].1 - 1].source);
        assert(s.stack[m - 1].1 <= s.stack[m - 1].0.imports.len());
    }
}

/// The state after the path handed out in `s` is reported missing.
pub open spec fn after_missing(s: TraversalModel) -> TraversalModel {
    TraversalModel { missing: s.missing.push(s.awaiting->Some_0), awaiting: None, ..s }
}

/// The state after the path handed out in `s` is reported with facts `m`.
pub open spec fn after_analyzed(s: TraversalModel, m: FileModel) -> TraversalModel {
    TraversalModel { stack: s.stack.push((m, 0nat)), awaiting: None, ..s }
}

proof fn lemma_report_missing(s: TraversalModel)
    requires
        well_formed(s),
        s.awaiting is Some,
    ensures
        well_formed(after_missing(s)),
        forall|q: Seq<char>| known(after_missing(s), q) == known(s, q),
{
    let t = after_missing(s);
    assert forall|q: Seq<char>| #[trigger] covered(s, q) implies covered(t, q) by {
        if s.missing.contains(q) {
            let j = choose|j: int| 0 <= j < s.missing.len() && s.missing[j] == q;
            assert(t.missing[j] == q);
        }
        if s.awaiting == Some(q) {
            assert(t.missing[s.missing.len() as int] == q);
        }
    }
    assert forall|i: int| 0 <= i < t.next_entry implies covered(t, #[trigger] t.entries[i]) by {
        assert(covered(s, s.entries[i]));
    }
    assert forall|i: int, k: int|
        0 <= i < t.stack.len() && 0 <= k < t.stack[i].1 implies covered(
            t,
            #[trigger] t.stack[i].0.imports[k].source,
        ) by {
        assert(covered(s, s.stack[i].0.imports[k].source));
    }
    assert forall|i: int, k: int|
        0 <= i < t.files.len() && 0 <= k < t.files[i].imports.len() implies covered(
            t,
            #[trigger] t.files[i].imports[k].source,
        ) by {
        assert(covered(s, s.files[i].imports[k].source));
    }
}

proof fn lemma_report_analyzed(s: TraversalModel, m: FileModel)
    requires
        well_formed(s),
        s.awaiting == Some(m.path),
    ensures
        well_formed(after_analyzed(s, m)),
        forall|q: Seq<char>| known(after_analyzed(s, m), q) == (known(s, q) || q == m.path),
{
    let t = after_analyzed(s, m);
    let p = m.path;
    assert(stack_paths(t.stack) =~= stack_paths(s.stack).push(p));
    assert forall|q: Seq<char>| known(t, q) == (known(s, q) || q == p) by {
        if stack_paths(s.stack).contains(q) {
            let j = choose|j: int| 0 <= j < stack_paths(s.stack).len() && stack_paths(s.stack)[j] == q;
            assert(stack_paths(t.stack)[j] == q);
        }
        if q == p {
            assert(stack_paths(t.stack)[s.stack.len() as int] == q);
        }
        if stack_paths(t.stack).contains(q) {
            let j = choose|j: int| 0 <= j < stack_paths(t.stack).len() && stack_paths(t.stack)[j] == q;
            if j < s.stack.len() {
                assert(stack_paths(s.stack)[j] == q);
            }
        }
    }
    assert forall|q: Seq<char>| paths(s.files).contains(q) implies !stack_paths(t.stack).contains(q) by {
        if stack_paths(t.stack).contains(q) {
            let j = choose|j: int| 0 <= j < stack_paths(t.stack).len() && stack_paths(t.stack)[j] == q;
            if j < s.stack.len() {
                assert(stack_paths(s.stack)[j] == q);
                assert(stack_paths(s.stack).contains(q));
            }
        }
    }
    assert forall|i: int| 0 <= i < t.stack.len() implies #[trigger] t.stack[i].1
        <= t.stack[i].0.imports.len() by {
        if i < s.stack.len() {
            assert(t.stack[i] == s.stack[i]);
        }
    }
    assert forall|q: Seq<char>| #[trigger] covered(s, q) implies covered(t, q) by {}
    assert forall|i: int, k: int|
        0 <= i < t.stack.len() && 0 <= k < t.stack[i].1 implies covered(
            t,
            #[trigger] t.stack[i].0.imports[k].source,
        ) by {
        assert(t.stack[i] == s.stack[i]);
        assert(covered(s, s.stack[i].0.imports[k].source));
    }
    assert forall|i: int, k: int|
        0 <= i < t.files.len() && 0 <= k < t.files[i].imports.len() implies covered(
            t,
            #[trigger] t.files[i].imports[k].source,
        ) by {
        assert(covered(s, s.files[i].imports[k].source));
    }
    assert forall|i: int| 0 <= i < t.next_entry implies covered(t, #[trigger] t.entries[i]) by {
        assert(covered(s, s.entries[i]));
    }
}

/// The imports not yet looked at, over all files in progress.
pub open spec fn frames_left(stack: Seq<(FileModel, nat)>) -> nat
    decreases stack.len(),
{
    if stack.len() == 0 {
        0
    } else {
        let top = stack.last();
        frames_left(stack.drop_last()) + if top.1 < top.0.imports.len() {
            (top.0.imports.len() - top.1) as nat
        } else {
            0nat
        }
    }
}

/// The paths still to be looked at: entries and imports of files in progress.
pub open spec fn pending(s: TraversalModel) -> nat {
    entries_left(s) + frames_left(s.stack)
}

/// A decision keeps the invariant and the set of files finished or in
/// progress; it hands out a path exactly when it leaves one awaited, and
/// looks at one pending path at least to do so; handing out nothing means
/// the traversal is over.
proof fn lemma_advance(s: TraversalModel)
    requires
        well_formed(s),
        s.awaiting is None,
    ensures
        well_formed(advance(s).0),
        advance(s).1 == advance(s).0.awaiting,
        advance(s).0.missing == s.missing,
        forall|q: Seq<char>| known(advance(s).0, q) == known(s, q),
        pending(advance(s).0) <= pending(s),
        advance(s).1 is Some ==> pending(advance(s).0) < pending(s),
        advance(s).1 is None ==> done(advance(s).0),
    decreases entries_left(s), s.stack.len(), top_left(s),
{
    if s.stack.len() > 0 {
        let top = s.stack.last();
        let n = s.stack.len() - 1;
        if top.1 < top.0.imports.len() {
            let cand = top.0.imports[top.1 as int].source;
            let s2 = TraversalModel { stack: s.stack.update(n, (top.0, top.1 + 1)), ..s };
            lemma_next_import(s);
            assert(s2.stack.drop_last() =~= s.stack.drop_last());
            assert(frames_left(s2.stack) + 1 == frames_left(s.stack));
            if known(s2, cand) {
                lemma_advance(s2);
            }
        } else {
            let s2 = TraversalModel { stack: s.stack.drop_last(), files: s.files.push(top.0), ..s };
            lemma_finish_top(s);
            assert(frames_left(s2.stack) == frames_left(s.stack));
            lemma_advance(s2);
        }
    } else if s.next_entry < s.entries.len() {
        let cand = s.entries[s.next_entry as int];
        let s2 = TraversalModel { next_entry: s.next_entry + 1, ..s };
        lemma_next_entry(s);
        if known(s2, cand) {
            lemma_advance(s2);
        }
    }
}

/// The files that exist and are neither finished nor in progress.
pub open spec fn unvisited(s: TraversalModel, fs: Map<Seq<char>, Seq<SyntaxNode>>) -> Set<Seq<char>> {
    fs.dom().filter(|p: Seq<char>| !known(s, p))
}

/// The state that a traversal reaches from `s` over the file system `fs`,
/// which maps each existing path to the syntax nodes of its file: each path
/// handed out is reported missing when `fs` lacks it and analysed otherwise.
/// It stops when the traversal is over, or at a file whose nodes cannot be
/// analysed.
pub open spec fn run(s: TraversalModel, fs: Map<Seq<char>, Seq<SyntaxNode>>) -> TraversalModel
    decreases unvisited(s, fs).len(), pending(s),
    when well_formed(s) && s.awaiting is None && fs.dom().finite()
    via lemma_run_decreases
{
    let (t, r) = advance(s);
    match r {
        None => t,
        Some(p) => if fs.contains_key(p) {
            match analysis(p, fs[p]) {
                Some(m) => run(after_analyzed(t, m), fs),
                None => t,
            }
        } else {
            run(after_missing(t), fs)
        },
    }
}

/// One round of a run: the decision and the report on the path handed out.
/// The round keeps the invariant, and either one more file exists among
/// those finished or in progress, or one pending path fewer is left.
proof fn lemma_round(s: TraversalModel, fs: Map<Seq<char>, Seq<SyntaxNode>>)
    requires
        well_formed(s),
        s.awaiting is None,
        fs.dom().finite(),
    ensures
        ({
            let (t, r) = advance(s);
            &&& well_formed(t)
            &&& forall|q: Seq<char>| known(t, q) == known(s, q)
            &&& r is None ==> done(t)
            &&& r == t.awaiting
            &&& (r is Some && fs.contains_key(r->Some_0) && analysis(r->Some_0, fs[r->Some_0]) is Some) ==> {
                let p = r->Some_0;
                let u = after_analyzed(t, analysis(p, fs[p])->Some_0);
                &&& well_formed(u)
                &&& unvisited(u, fs).len() < unvisited(s, fs).len()
                &&& forall|q: Seq<char>| known(u, q) == (known(s, q) || q == p)
            }
            &&& (r is Some && !fs.contains_key(r->Some_0)) ==> {
                let u = after_missing(t);
                &&& well_formed(u)
                &&& unvisited(u, fs) == unvisited(s, fs)
                &&& pending(u) < pending(s)
                &&& forall|q: Seq<char>| known(u, q) == known(s, q)
            }
        }),
{
    lemma_advance(s);
    let (t, r) = advance(s);
    if let Some(p) = r {
        if fs.contains_key(p) {
            if let Some(m) = analysis(p, fs[p]) {
                lemma_analysis_imports(p, fs[p]);
                lemma_report_analyzed(t, m);
                assert(unvisited(after_analyzed(t, m), fs) =~= unvisited(s, fs).remove(p));
                assert(unvisited(s, fs).contains(p));
                assert(unvisited(s, fs).finite());
            }
        } else {
            lemma_report_missing(t);
            assert(unvisited(after_missing(t), fs) =~= unvisited(s, fs));
            assert(after_missing(t).stack == t.stack);
        }
    }
}

#[via_fn]
proof fn lemma_run_decreases(s: TraversalModel, fs: Map<Seq<char>, Seq<SyntaxNode>>) {
    lemma_round(s, fs);
}

/// Over any finite file system a traversal ends, without analysing any
/// file twice: it reaches a state where every entry and every import has
/// been looked at, unless it stops at a file whose syntax nodes cannot be
/// analysed. Every file finished or in progress is one that was so before,
/// or one that exists.
pub proof fn lemma_run_ends(s: TraversalModel, fs: Map<Seq<char>, Seq<SyntaxNode>>)
    requires
        well_formed(s),
        s.awaiting is None,
        fs.dom().finite(),
    ensures
        well_formed(run(s, fs)),
        done(run(s, fs)) || (run(s, fs).awaiting matches Some(p) && fs.contains_key(p) && analysis(
            p,
            fs[p],
        ) is None),
        forall|q: Seq<char>| #[trigger] known(run(s, fs), q) ==> known(s, q) || fs.contains_key(q),
    decreases unvisited(s, fs).len(), pending(s),
{
    lemma_round(s, fs);
    let (t, r) = advance(s);
    if let Some(p) = r {
        if fs.contains_key(p) {
            if let Some(m) = analysis(p, fs[p]) {
                lemma_run_ends(after_analyzed(t, m), fs);
            }
        } else {
            lemma_run_ends(after_missing(t), fs);
        }
    }
}

/// Running a traversal that is over changes nothing, so a run that ends
/// with the traversal over gives the same state when run again.
pub proof fn lemma_run_again(s: TraversalModel, fs: Map<Seq<char>, Seq<SyntaxNode>>)
    requires
        well_formed(s),
        s.awaiting is None,
        fs.dom().finite(),
    ensures
        done(s) ==> run(s, fs) == s,
        done(run(s, fs)) ==> run(run(s, fs), fs) == run(s, fs),
{
    lemma_run_ends(s, fs);
    let t = run(s, fs);
    if done(t) {
        assert(advance(t) == (t, None::<Seq<char>>));
    }
}

impl Traversal {
    pub closed spec fn wf(&self) -> bool {
        well_formed(self@)
    }

    /// A traversal that starts from `entries`, in order.
    pub fn new(entries: Vec<String>) -> (r: Traversal)
        ensures
            r.wf(),
            r@.entries == entries@.map_values(|e: String| e@),
            r@.next_entry == 0,
            r@.stack.len() == 0,
            r@.files.len() == 0,
            r@.missing.len() == 0,
            r@.awaiting is None,
    {
        let r = Traversal {
            entries,
            next_entry: 0,
            stack: Vec::new(),
            files: Vec::new(),
            missing: Vec::new(),
            awaiting: None,
        };
        assert(paths(r@.files) =~= seq![]);
        assert(stack_paths(r@.stack) =~= seq![]);
        r
    }

    /// Hands out the next path that is neither finished nor in progress,
    /// finishing on the way every file whose imports have all been looked
    /// at; `None` once the traversal is over. A path handed out and not yet
    /// reported on is handed out again.
    pub fn next_request(&mut self) -> (r: Option<String>)
        requires
            old(self).wf(),
        ensures
            final(self).wf(),
            (final(self)@, opt_view(r)) == advance(old(self)@),
            r is None ==> done(final(self)@),
            r matches Some(p) ==> final(self)@.awaiting == Some(p@) && !known(final(self)@, p@),
    {
        match &self.awaiting {
            Some(p) => {
                return Some(clone_string(p));
            },
            None => {},
        }
        loop
            invariant
                self.wf(),
                self@.awaiting is None,
                advance(self@) == advance(old(self)@),
            decreases entries_left(self@), self@.stack.len(), top_left(self@),
        {
            let ghost s = self@;
            if self.stack.len() > 0 {
                let mut top = match self.stack.pop() {
                    Some(f) => f,
                    None => { return None; },
                };
                proof {
                    assert(self@.stack =~= s.stack.drop_last());
                }
                if top.next < top.fact.imports.len() {
                    let cand = clone_string(&top.fact.imports[top.next].source);
                    top.next = top.next + 1;
                    self.stack.push(top);
                    proof {
                        lemma_next_import(s);
                        assert(self@.stack =~= s.stack.update(s.stack.len() - 1, (s.stack.last().0, s.stack.last().1 + 1)));
                    }
                    if !self.is_known(&cand) {
                        self.awaiting = Some(clone_string(&cand));
                        return Some(cand);
                    }
                } else {
                    self.files.push(top.fact);
                    proof {
                        lemma_finish_top(s);
                        assert(self@.files =~= s.files.push(s.stack.last().0));
                    }
                }
            } else if self.next_entry < self.entries.len() {
                let cand = clone_string(&self.entries[self.next_entry]);
                self.next_entry = self.next_entry + 1;
                proof {
                    lemma_next_entry(s);
                }
                if !self.is_known(&cand) {
                    self.awaiting = Some(clone_string(&cand));
                    return Some(cand);
                }
            } else {
                return None;
            }
        }
    }

    /// Reports that the path handed out does not exist: it is recorded as
    /// missing and the traversal goes on without it.
    pub fn file_missing(&mut self)
        requires
            old(self).wf(),
        ensures
            final(self).wf(),
            old(self)@.awaiting is Some ==> final(self)@ == after_missing(old(self)@),
            old(self)@.awaiting is None ==> final(self)@ == old(self)@,
    {
        match self.awaiting.take() {
            Some(p) => {
                self.missing.push(p);
                proof {
                    let s = old(self)@;
                    assert(self@.missing =~= s.missing.push(s.awaiting->Some_0));
                    assert(self@ == after_missing(s));
                    lemma_report_missing(s);
                }
            },
            None => {},
        }
    }

    /// Reports the syntax nodes of the file at the path handed out, in
    /// document order. Its facts are taken, and its imports are followed
    /// before it is finished. On an error nothing changes.
    pub fn file_analyzed(&mut self, nodes: &Vec<SyntaxNode>) -> (r: Result<(), AnalyzeError>)
        requires
            old(self).wf(),
        ensures
            final(self).wf(),
            match old(self)@.awaiting {
                None => r == Err::<(), AnalyzeError>(AnalyzeError::NoFileRequested) && final(self)@ == old(self)@,
                Some(p) => match analysis(p, nodes@) {
                    Some(m) => r is Ok && final(self)@ == after_analyzed(old(self)@, m),
                    None => r == Err::<(), AnalyzeError>(AnalyzeError::SpecifierWithoutImport)
                        && final(self)@ == old(self)@,
                },
            },
    {
        let path = match &self.awaiting {
            Some(p) => clone_string(p),
            None => { return Err(AnalyzeError::NoFileRequested); },
        };
        let fact = match ModuleFile::analyze(path, nodes) {
            Ok(f) => f,
            Err(e) => { return Err(e); },
        };
        proof {
            lemma_analysis_imports(path@, nodes@);
        }
        self.stack.push(Frame { fact, next: 0 });
        self.awaiting = None;
        proof {
            let s = old(self)@;
            let m = analysis(s.awaiting->Some_0, nodes@)->Some_0;
            assert(self@.stack =~= s.stack.push((m, 0nat)));
            assert(self@ == after_analyzed(s, m));
            lemma_report_analyzed(s, m);
        }
        Ok(())
    }

    /// The paths found missing so far, in the order they were reported;
    /// a path is listed each time it was found missing.
    pub fn missing(&self) -> (r: &Vec<String>)
        ensures
            r@.map_values(|m: String| m@) == self@.missing,
    {
        &self.missing
    }

    /// The facts of the finished files, in the order they were finished. No
    /// path occurs twice. Once the traversal is over, every entry and every
    /// import of every file is either among them or was found missing.
    pub fn into_project(self) -> (r: Project)
        requires
            self.wf(),
        ensures
            r@ == self@.files,
            distinct(paths(r@)),
            done(self@) ==> forall|i: int|
                0 <= i < self@.entries.len() ==> paths(r@).contains(#[trigger] self@.entries[i])
                    || self@.missing.contains(self@.entries[i]),
            done(self@) ==> forall|i: int, k: int|
                0 <= i < r@.len() && 0 <= k < r@[i].imports.len() ==> paths(r@).contains(
                    #[trigger] r@[i].imports[k].source,
                ) || self@.missing.contains(r@[i].imports[k].source),
    {
        let ghost s = self@;
        proof {
            if done(s) {
                assert(stack_paths(s.stack) =~= seq![]);
                assert forall|i: int| 0 <= i < s.entries.len() implies paths(s.files).contains(
                    #[trigger] s.entries[i],
                ) || s.missing.contains(s.entries[i]) by {
                    assert(covered(s, s.entries[i]));
                }
                assert forall|i: int, k: int|
                    0 <= i < s.files.len() && 0 <= k < s.files[i].imports.len() implies paths(
                        s.files,
                    ).contains(#[trigger] s.files[i].imports[k].source) || s.missing.contains(
                        s.files[i].imports[k].source,
                    ) by {
                    assert(covered(s, s.files[i].imports[k].source));
                }
            }
        }
        Project { files: self.files }
    }

    /// Whether `p` is finished or in progress.
    fn is_known(&self, p: &String) -> (r: bool)
        ensures
            r == known(self@, p@),
    {
        let mut i: usize = 0;
        while i < self.files.len()
            invariant
                0 <= i <= self.files.len(),
                forall|j: int| 0 <= j < i ==> self.files@[j].path@ != p@,
            decreases self.files.len() - i,
        {
            if self.files[i].path == *p {
                assert(paths(self@.files)[i as int] == p@);
                return true;
            }
            i = i + 1;
        }
        let mut i: usize = 0;
        while i < self.stack.len()
            invariant
                0 <= i <= self.stack.len(),
                forall|j: int| 0 <= j < i ==> self.stack@[j].fact.path@ != p@,
            decreases self.stack.len() - i,
        {
            if self.stack[i].fact.path == *p {
                assert(stack_paths(self@.stack)[i as int] == p@);
                return true;
            }
            i = i + 1;
        }
        assert(!paths(self@.files).contains(p@)) by {
            if paths(self@.files).contains(p@) {
                let j = choose|j: int| 0 <= j < paths(self@.files).len() && paths(self@.files)[j] == p@;
                assert(self.files@[j].path@ == p@);
            }
        }
        assert(!stack_paths(self@.stack).contains(p@)) by {
            if stack_paths(self@.stack).contains(p@) {
                let j = choose|j: int| 0 <= j < stack_paths(self@.stack).len() && stack_paths(self@.stack)[j] == p@;
                assert(self.stack@[j].fact.path@ == p@);
            }
        }
        false
    }
}

} // verus!
