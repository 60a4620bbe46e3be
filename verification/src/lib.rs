//! Transpiles a privileged script bundle (a document tree of scripts) into a
//! reusable library: privileged-API usage inside each script is rewritten to
//! go through an injected globals object, required locals are prepended, and
//! the entry-point script is wrapped into a module returning an `init`
//! function.
//!
//! The tree model, the traversal, the rewrite decisions, the injection and
//! the wrapping live here with exact contracts; the embedded-language
//! tokenizer/parser/printer and the on-disk document codecs are outside
//! collaborators consumed as black boxes by the surrounding program.

pub mod assemble;
pub mod dom;
pub mod error;
pub mod rewrite;

use crate::dom::rbx_path::join_spec;
use crate::dom::tree::{descendants, entry_matches, lemma_preorder_entries_valid, preorder, Dom};
use crate::error::Problem;
use crate::rewrite::str_eq;
use vstd::prelude::*;
use vstd::string::{StrSliceExecFns, StringExecFns};

verus! {

/// Whether the glob pattern matches the path. Names the result of the glob
/// matcher, which depends on the two strings alone.
pub uninterp spec fn glob_matches(pattern: Seq<char>, path: Seq<char>) -> bool;

/// Relies on `glob_match::glob_match`: glob-style pattern matching of a path
/// string, a pure function of the pattern and the path.
#[verifier::external_body]
fn glob_match_str(pattern: &str, path: &str) -> (r: bool)
    ensures
        r == glob_matches(pattern@, path@),
{
    glob_match::glob_match(pattern, path)
}

/// Whether a slash-joined path falls under the configured exclusion globs
/// for well-known non-privileged third-party library trees, when exclusion
/// is enabled.
pub open spec fn excluded_spec(exclude_libs: bool, p: Seq<char>) -> bool {
    exclude_libs && (glob_matches("**/[Rr][eo]act*/**"@, p) || glob_matches("**/*jsdotlua*/**"@, p)
        || glob_matches("**/Fusion/**"@, p))
}

/// Whether a class tag is one of the recognized script kinds for entry-point
/// discovery.
pub open spec fn is_script_class(c: Seq<char>) -> bool {
    c == "ModuleScript"@ || c == "Script"@ || c == "LocalScript"@
}

/// Decides whether a class tag is a recognized script kind.
pub fn is_script_class_str(c: &str) -> (r: bool)
    ensures
        r == is_script_class(c@),
{
    str_eq(c, "ModuleScript") || str_eq(c, "Script") || str_eq(c, "LocalScript")
}

/// The position of the last occurrence of `c` in `s`, or -1 when there is
/// none.
pub open spec fn last_index_of(s: Seq<char>, c: char) -> int
    decreases s.len(),
{
    if s.len() == 0 {
        -1
    } else if s.last() == c {
        s.len() - 1
    } else {
        last_index_of(s.drop_last(), c)
    }
}

/// Finds the last occurrence of `c` in `s`, if any.
fn rfind_char(s: &str, c: char) -> (r: Option<usize>)
    ensures
        (r matches Some(j) ==> j < s@.len() && last_index_of(s@, c) == j as int),
        r is None ==> last_index_of(s@, c) == -1,
{
    let n = s.unicode_len();
    let mut best: Option<usize> = None;
    let mut i: usize = 0;
    while i < n
        invariant
            i <= n,
            n == s@.len(),
            (best matches Some(b) ==> b < i && last_index_of(s@.take(i as int), c) == b as int),
            best is None ==> last_index_of(s@.take(i as int), c) == -1,
        decreases n - i,
    {
        proof {
            assert(s@.take(i + 1 as int).drop_last() =~= s@.take(i as int));
            assert(s@.take(i + 1 as int).last() == s@[i as int]);
        }
        if s.get_char(i) == c {
            best = Some(i);
        }
        i = i + 1;
    }
    proof {
        assert(s@.take(n as int) =~= s@);
    }
    best
}

/// The extension of a path string: the part of the file name after its last
/// dot, unless the only dot starts the file name; the file name is the part
/// after the last slash.
pub open spec fn extension_of(p: Seq<char>) -> Option<Seq<char>> {
    let sl = last_index_of(p, '/');
    let fname = p.skip(sl + 1);
    let di = last_index_of(fname, '.');
    if di <= 0 {
        None
    } else {
        Some(fname.skip(di + 1))
    }
}

/// Whether the extension is one of the four recognized ones.
pub open spec fn recognized_extension(e: Option<Seq<char>>) -> bool {
    e matches Some(x) && (x == "rbxmx"@ || x == "rbxlx"@ || x == "rbxm"@ || x == "rbxl"@)
}

/// The two on-disk document encodings, selected purely by a path's
/// extension.
pub enum RbxFileType {
    /// The human-readable markup encoding: extensions `rbxmx` and `rbxlx`.
    XML,
    /// The compact binary encoding: extensions `rbxm` and `rbxl`.
    Binary,
}

impl RbxFileType {
    /// Selects the encoding from a path string's extension; a path with any
    /// other extension is rejected before any input or output is attempted.
    pub fn from_path(file_path: &str) -> (r: Result<RbxFileType, Problem>)
        ensures
            (extension_of(file_path@) matches Some(e) && (e == "rbxmx"@ || e == "rbxlx"@) ==> (
            r matches Ok(t) && t is XML)),
            (extension_of(file_path@) matches Some(e) && (e == "rbxm"@ || e == "rbxl"@) ==> (
            r matches Ok(t) && t is Binary)),
            !recognized_extension(extension_of(file_path@)) ==> (r matches Err(p) && (
            p matches Problem::InvalidExtension(q) && q@ == file_path@)),
    {
        let n = file_path.unicode_len();
        let fname_start: usize = match rfind_char(file_path, '/') {
            Some(j) => j + 1,
            None => 0,
        };
        let fname = file_path.substring_char(fname_start, n);
        proof {
            assert(fname@ =~= file_path@.skip(last_index_of(file_path@, '/') + 1));
        }
        let fn_len = fname.unicode_len();
        let ext: Option<&str> = match rfind_char(fname, '.') {
            Some(d) => if d == 0 {
                None
            } else {
                Some(fname.substring_char(d + 1, fn_len))
            },
            None => None,
        };
        proof {
            match extension_of(file_path@) {
                Some(e) => {
                    assert(ext matches Some(x) && x@ =~= e);
                },
                None => {
                    assert(ext is None);
                },
            }
        }
        proof {
            reveal_strlit("rbxmx");
            reveal_strlit("rbxlx");
            reveal_strlit("rbxm");
            reveal_strlit("rbxl");
        }
        match ext {
            Some(e) => {
                if str_eq(e, "rbxmx") || str_eq(e, "rbxlx") {
                    Ok(RbxFileType::XML)
                } else if str_eq(e, "rbxm") || str_eq(e, "rbxl") {
                    Ok(RbxFileType::Binary)
                } else {
                    Err(Problem::InvalidExtension(String::from_str(file_path)))
                }
            },
            None => Err(Problem::InvalidExtension(String::from_str(file_path))),
        }
    }
}

/// One rewrite target gathered by the collection phase: a node reference and
/// its path depth, consumed by the mutation phase.
pub struct ScriptTarget {
    /// The candidate script node's reference.
    pub referent: usize,
    /// Its path depth below the entry point.
    pub depth: usize,
}

/// The number of library-kind candidates among the first `upto` visited
/// entries, excluded or not: the total-candidates diagnostic.
pub open spec fn total_candidates(d: Dom, po: Seq<(int, Seq<Seq<char>>)>, upto: int) -> int
    decreases upto,
{
    if upto <= 0 {
        0
    } else {
        total_candidates(d, po, upto - 1) + if d.nodes@[po[upto - 1].0].class@ == "ModuleScript"@ {
            1int
        } else {
            0int
        }
    }
}

/// The slash-joined rendering of a visited path.
pub open spec fn slash_path_of(path: Seq<Seq<char>>) -> Seq<char> {
    join_spec("script"@, path, "/"@) + "/"@
}

/// The targets kept by the collection phase among the first `upto` visited
/// entries: library-kind candidates whose slash-joined path is not
/// excluded, each with its path depth, in visitation order.
pub open spec fn selected_targets(
    d: Dom,
    exclude_libs: bool,
    po: Seq<(int, Seq<Seq<char>>)>,
    upto: int,
) -> Seq<(int, int)>
    decreases upto,
{
    if upto <= 0 {
        Seq::empty()
    } else {
        selected_targets(d, exclude_libs, po, upto - 1) + if d.nodes@[po[upto - 1].0].class@
            == "ModuleScript"@ && !excluded_spec(exclude_libs, slash_path_of(po[upto - 1].1)) {
            seq![(po[upto - 1].0, po[upto - 1].1.len() as int)]
        } else {
            Seq::empty()
        }
    }
}

/// The class tag of the node at `i`.
pub open spec fn d_class(d: Dom, i: int) -> Seq<char> {
    d.nodes@[i].class@
}

/// The transpiler over one loaded document tree: it discovers the entry
/// point on construction, collects the rewrite targets in a read-only pass,
/// and applies the mutated sources afterwards.
pub struct DomTranspiler {
    /// The document tree being transpiled.
    pub tree: Dom,
    /// The entry-point node's reference.
    pub source_script: usize,
    /// Whether well-known non-privileged library subtrees are skipped.
    pub exclude_libs: bool,
}

impl DomTranspiler {
    /// Discovers the entry point: the first node of a recognized script
    /// kind within a depth bound of 2 from the tree's root. Absence is
    /// fatal.
    pub fn new(tree: Dom) -> (r: Result<DomTranspiler, Problem>)
        requires
            tree.wf(),
        ensures
            (r matches Ok(t) ==> {
                &&& t.tree == tree
                &&& t.exclude_libs
                &&& t.source_script < tree.nodes@.len()
                &&& exists|j: int|
                    {
                        &&& 0 <= j < preorder(tree, 0, 2).len()
                        &&& (#[trigger] preorder(tree, 0, 2)[j]).0 == t.source_script as int
                        &&& is_script_class(tree.nodes@[t.source_script as int].class@)
                        &&& forall|m: int|
                            0 <= m < j ==> !is_script_class(
                                d_class(tree, (#[trigger] preorder(tree, 0, 2)[m]).0),
                            )
                    }
            }),
            (r matches Err(p) ==> p is NoMainSource && forall|m: int|
                0 <= m < preorder(tree, 0, 2).len() ==> !is_script_class(
                    d_class(tree, (#[trigger] preorder(tree, 0, 2)[m]).0),
                )),
    {
        let entries = descendants(&tree, 0, 2);
        proof {
            lemma_preorder_entries_valid(tree, 0, Seq::empty(), 2, 0);
        }
        let mut idx: usize = 0;
        while idx < entries.len()
            invariant
                tree.wf(),
                entries@.len() == preorder(tree, 0, 2).len(),
                forall|j: int|
                    0 <= j < entries@.len() ==> entry_matches(
                        #[trigger] entries@[j],
                        preorder(tree, 0, 2)[j],
                    ),
                forall|j: int|
                    0 <= j < preorder(tree, 0, 2).len() ==> 0 < (#[trigger] preorder(
                        tree,
                        0,
                        2,
                    )[j]).0 < tree.nodes@.len(),
                idx <= entries@.len(),
                forall|m: int|
                    0 <= m < idx ==> !is_script_class(
                        d_class(tree, (#[trigger] preorder(tree, 0, 2)[m]).0),
                    ),
            decreases entries@.len() - idx,
        {
            let referent = entries[idx].referent;
            if is_script_class_str(tree.nodes[referent].class.as_str()) {
                return Ok(DomTranspiler { tree, source_script: referent, exclude_libs: true });
            }
            idx = idx + 1;
        }
        Err(Problem::NoMainSource)
    }

    /// Controls the exclusion of standard libraries that typically don't
    /// need plugin access. The default is `true`: libraries are excluded.
    /// Set it to `false` to include all libraries, even standard ones, for
    /// a plugin that relies on a module sharing a name with one of them.
    pub fn exclude_libs(&mut self, exclude_libs: bool)
        ensures
            final(self).tree == old(self).tree,
            final(self).source_script == old(self).source_script,
            final(self).exclude_libs == exclude_libs,
    {
        self.exclude_libs = exclude_libs;
    }

    /// Check if a slash-joined path could be a library that does not
    /// require plugin access.
    fn is_excluded(&self, p: &str) -> (r: bool)
        ensures
            r == excluded_spec(self.exclude_libs, p@),
    {
        self.exclude_libs && (glob_match_str("**/[Rr][eo]act*/**", p) || glob_match_str(
            "**/*jsdotlua*/**",
            p,
        ) || glob_match_str("**/Fusion/**", p))
    }

    /// The read-only collection phase: walks the entry point's subtree
    /// without a depth bound, gathers every library-kind candidate that is
    /// not excluded, with its path depth, and counts all candidates for the
    /// diagnostic total. No node is mutated until this pass has returned.
    pub fn collect_targets(&self) -> (r: (Vec<ScriptTarget>, usize))
        requires
            self.tree.wf(),
            self.source_script < self.tree.nodes@.len(),
        ensures
            ({
                let po = preorder(self.tree, self.source_script as int, 0);
                let sel = selected_targets(self.tree, self.exclude_libs, po, po.len() as int);
                &&& r.1 as int == total_candidates(self.tree, po, po.len() as int)
                &&& r.0@.len() == sel.len()
                &&& forall|j: int|
                    0 <= j < sel.len() ==> (#[trigger] r.0@[j]).referent as int == sel[j].0
                        && r.0@[j].depth as int == sel[j].1
            }),
    {
        let ghost po = preorder(self.tree, self.source_script as int, 0);
        let entries = descendants(&self.tree, self.source_script, 0);
        proof {
            lemma_preorder_entries_valid(self.tree, self.source_script as int, Seq::empty(), 0, 0);
        }
        let mut targets: Vec<ScriptTarget> = Vec::new();
        let mut total: usize = 0;
        let mut idx: usize = 0;
        while idx < entries.len()
            invariant
                self.tree.wf(),
                self.source_script < self.tree.nodes@.len(),
                po == preorder(self.tree, self.source_script as int, 0),
                entries@.len() == po.len(),
                forall|j: int|
                    0 <= j < entries@.len() ==> entry_matches(#[trigger] entries@[j], po[j]),
                forall|j: int|
                    0 <= j < po.len() ==> (self.source_script as int) < (#[trigger] po[j]).0
                        && (#[trigger] po[j]).0 < self.tree.nodes@.len(),
                idx <= entries@.len(),
                total <= idx,
                total as int == total_candidates(self.tree, po, idx as int),
                ({
                    let sel = selected_targets(self.tree, self.exclude_libs, po, idx as int);
                    &&& targets@.len() == sel.len()
                    &&& forall|j: int|
                        0 <= j < sel.len() ==> (#[trigger] targets@[j]).referent as int == sel[j].0
                            && targets@[j].depth as int == sel[j].1
                }),
            decreases entries@.len() - idx,
        {
            let e = &entries[idx];
            let is_module = str_eq(self.tree.nodes[e.referent].class.as_str(), "ModuleScript");
            if is_module {
                total = total + 1;
                if !self.is_excluded(e.slash_path.as_str()) {
                    targets.push(ScriptTarget { referent: e.referent, depth: e.depth });
                }
            }
            idx = idx + 1;
        }
        (targets, total)
    }

    /// Reads one script's source text: the `Source` property when it is
    /// string-valued, and the fatal per-node error otherwise.
    pub fn script_source(&self, referent: usize) -> (r: Result<String, Problem>)
        requires
            referent < self.tree.nodes@.len(),
        ensures
            (self.tree.nodes@[referent as int].source matches Some(s) ==> (r matches Ok(t) && t@
                == s@)),
            self.tree.nodes@[referent as int].source is None ==> (r matches Err(p) && (
            p matches Problem::NoScriptSource(n) && n@ == self.tree.nodes@[referent as int].name@)),
    {
        match &self.tree.nodes[referent].source {
            Some(s) => Ok(s.clone()),
            None => Err(Problem::NoScriptSource(self.tree.nodes[referent].name.clone())),
        }
    }

    /// The mutation phase, one script at a time: writes the transpiled text
    /// back onto the node. Nothing else about the tree changes.
    pub fn apply_rewritten(&mut self, referent: usize, text: String)
        requires
            referent < old(self).tree.nodes@.len(),
        ensures
            final(self).source_script == old(self).source_script,
            final(self).exclude_libs == old(self).exclude_libs,
            final(self).tree.nodes@.len() == old(self).tree.nodes@.len(),
            forall|i: int|
                0 <= i < old(self).tree.nodes@.len() && i != referent ==> final(self).tree.nodes@[i] == old(self).tree.nodes@[i],
            final(self).tree.nodes@[referent as int].class == old(
                self,
            ).tree.nodes@[referent as int].class,
            final(self).tree.nodes@[referent as int].name == old(
                self,
            ).tree.nodes@[referent as int].name,
            final(self).tree.nodes@[referent as int].children@ == old(
                self,
            ).tree.nodes@[referent as int].children@,
            final(self).tree.nodes@[referent as int].source == Some(text),
            old(self).tree.wf() ==> final(self).tree.wf(),
    {
        self.tree.nodes[referent].source = Some(text);
        proof {
            if old(self).tree.wf() {
                lemma_wf_same_children(old(self).tree, self.tree);
            }
        }
    }

    /// Reassigns the entry point's class tag to the library kind: the
    /// wrapped entry point must become requirable rather than directly
    /// executable. Nothing else about the tree changes.
    pub fn mark_entry_module(&mut self)
        requires
            old(self).source_script < old(self).tree.nodes@.len(),
        ensures
            final(self).source_script == old(self).source_script,
            final(self).exclude_libs == old(self).exclude_libs,
            final(self).tree.nodes@.len() == old(self).tree.nodes@.len(),
            forall|i: int|
                0 <= i < old(self).tree.nodes@.len() && i != old(self).source_script ==> final(self).tree.nodes@[i] == old(self).tree.nodes@[i],
            final(self).tree.nodes@[old(self).source_script as int].class@ == "ModuleScript"@,
            final(self).tree.nodes@[old(self).source_script as int].name == old(
                self,
            ).tree.nodes@[old(self).source_script as int].name,
            final(self).tree.nodes@[old(self).source_script as int].source == old(
                self,
            ).tree.nodes@[old(self).source_script as int].source,
            final(self).tree.nodes@[old(self).source_script as int].children@ == old(
                self,
            ).tree.nodes@[old(self).source_script as int].children@,
            old(self).tree.wf() ==> final(self).tree.wf(),
    {
        let s = self.source_script;
        self.tree.nodes[s].class = String::from_str("ModuleScript");
        proof {
            if old(self).tree.wf() {
                lemma_wf_same_children(old(self).tree, self.tree);
            }
        }
    }
}

/// Well-formedness depends only on the child lists: a tree whose nodes keep
/// their child lists stays well-formed.
proof fn lemma_wf_same_children(a: Dom, b: Dom)
    requires
        a.wf(),
        b.nodes@.len() == a.nodes@.len(),
        forall|i: int|
            0 <= i < a.nodes@.len() ==> (#[trigger] b.nodes@[i]).children@ == a.nodes@[i].children@,
    ensures
        b.wf(),
{
    assert forall|i: int, k: int|
        0 <= i < b.nodes@.len() && 0 <= k < b.nodes@[i].children@.len() implies i < (
    #[trigger] b.nodes@[i].children@[k]) < b.nodes@.len() by {
        assert(b.nodes@[i].children@[k] == a.nodes@[i].children@[k]);
        assert(i < a.nodes@[i].children@[k] < a.nodes@.len());
    }
    assert forall|i1: int, k1: int, i2: int, k2: int|
        0 <= i1 < b.nodes@.len() && 0 <= k1 < b.nodes@[i1].children@.len() && 0 <= i2
            < b.nodes@.len() && 0 <= k2 < b.nodes@[i2].children@.len() && (
    #[trigger] b.nodes@[i1].children@[k1]) == (#[trigger] b.nodes@[i2].children@[k2]) implies i1
        == i2 && k1 == k2 by {
        assert(b.nodes@[i1].children@[k1] == a.nodes@[i1].children@[k1]);
        assert(b.nodes@[i2].children@[k2] == a.nodes@[i2].children@[k2]);
    }
}

/// Builds a transpiler over a loaded document tree; fails fatally when no
/// entry point is found.
pub fn from_dom(tree: Dom) -> (r: Result<DomTranspiler, Problem>)
    requires
        tree.wf(),
    ensures
        (r matches Ok(t) ==> {
            &&& t.tree == tree
            &&& t.exclude_libs
            &&& t.source_script < tree.nodes@.len()
            &&& is_script_class(tree.nodes@[t.source_script as int].class@)
            &&& exists|j: int|
                0 <= j < preorder(tree, 0, 2).len() && (#[trigger] preorder(tree, 0, 2)[j]).0
                    == t.source_script as int
        }),
        (r matches Err(p) ==> p is NoMainSource && forall|m: int|
            0 <= m < preorder(tree, 0, 2).len() ==> !is_script_class(
                d_class(tree, (#[trigger] preorder(tree, 0, 2)[m]).0),
            )),
{
    DomTranspiler::new(tree)
}

} // verus!
