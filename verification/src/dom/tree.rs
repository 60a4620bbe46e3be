//! The document-tree model and its depth-aware traversal.
//!
//! A tree is an arena of nodes: each node has a class tag, a name, an
//! optional string-valued `Source` property and an ordered list of child
//! indices. Well-formedness makes the arena a strict forest: every child
//! index points past its parent and no node is the child of two parents, so
//! a depth-first walk visits each node at most once and terminates.

use crate::dom::rbx_path::{join_spec, DotPath};
use vstd::prelude::*;

verus! {

/// One node of the document tree.
pub struct DomNode {
    /// The class tag.
    pub class: String,
    /// The node's name, used as a path component.
    pub name: String,
    /// The string-valued `Source` property, when the node carries script
    /// text.
    pub source: Option<String>,
    /// The ordered child references (arena indices).
    pub children: Vec<usize>,
}

/// The document tree: an arena of nodes whose root is index 0.
pub struct Dom {
    /// The arena; index 0 is the root.
    pub nodes: Vec<DomNode>,
}

impl Dom {
    /// Every child reference points into the arena, past its parent.
    pub open spec fn children_in_range(&self) -> bool {
        forall|i: int, k: int|
            0 <= i < self.nodes@.len() && 0 <= k < self.nodes@[i].children@.len() ==> i < (
            #[trigger] self.nodes@[i].children@[k]) < self.nodes@.len()
    }

    /// No index is referenced as a child twice: each node has at most one
    /// parent, and appears once in that parent's child list.
    pub open spec fn children_distinct(&self) -> bool {
        forall|i1: int, k1: int, i2: int, k2: int|
            0 <= i1 < self.nodes@.len() && 0 <= k1 < self.nodes@[i1].children@.len() && 0 <= i2
                < self.nodes@.len() && 0 <= k2 < self.nodes@[i2].children@.len() && (
            #[trigger] self.nodes@[i1].children@[k1]) == (
            #[trigger] self.nodes@[i2].children@[k2]) ==> i1 == i2 && k1 == k2
    }

    /// The arena is a non-empty strict forest.
    pub open spec fn wf(&self) -> bool {
        self.nodes@.len() >= 1 && self.children_in_range() && self.children_distinct()
    }

    /// The root reference.
    pub open spec fn root_spec(&self) -> int {
        0
    }

    /// A tree with only a root node.
    pub fn new_root(class: String, name: String, source: Option<String>) -> (d: Dom)
        ensures
            d.wf(),
            d.nodes@.len() == 1,
            d.nodes@[0].class == class,
            d.nodes@[0].name == name,
            d.nodes@[0].source == source,
            d.nodes@[0].children@.len() == 0,
    {
        let mut nodes: Vec<DomNode> = Vec::new();
        nodes.push(DomNode { class, name, source, children: Vec::new() });
        Dom { nodes }
    }

    /// Appends a fresh node as the last child of `parent` and returns its
    /// reference. Only the parent's child list changes; every other node is
    /// kept as it was.
    pub fn add_child(&mut self, parent: usize, class: String, name: String, source: Option<
        String,
    >) -> (idx: usize)
        requires
            old(self).wf(),
            parent < old(self).nodes@.len(),
        ensures
            final(self).wf(),
            idx == old(self).nodes@.len(),
            final(self).nodes@.len() == old(self).nodes@.len() + 1,
            forall|i: int|
                0 <= i < old(self).nodes@.len() && i != parent ==> final(self).nodes@[i] == old(
                    self,
                ).nodes@[i],
            final(self).nodes@[parent as int].class == old(self).nodes@[parent as int].class,
            final(self).nodes@[parent as int].name == old(self).nodes@[parent as int].name,
            final(self).nodes@[parent as int].source == old(self).nodes@[parent as int].source,
            final(self).nodes@[parent as int].children@ == old(
                self,
            ).nodes@[parent as int].children@.push(idx),
            final(self).nodes@[idx as int].class == class,
            final(self).nodes@[idx as int].name == name,
            final(self).nodes@[idx as int].source == source,
            final(self).nodes@[idx as int].children@.len() == 0,
    {
        let idx = self.nodes.len();
        self.nodes.push(DomNode { class, name, source, children: Vec::new() });
        self.nodes[parent].children.push(idx);
        proof {
            let post = self.nodes@;
            let pre = old(self).nodes@;
            assert forall|i: int, k: int|
                0 <= i < post.len() && 0 <= k < post[i].children@.len() implies i < (
            #[trigger] post[i].children@[k]) < post.len() by {
                if i == parent as int && k == pre[parent as int].children@.len() {
                } else if i < pre.len() {
                    assert(post[i].children@[k] == pre[i].children@[k]);
                }
            }
            assert forall|i1: int, k1: int, i2: int, k2: int|
                0 <= i1 < post.len() && 0 <= k1 < post[i1].children@.len() && 0 <= i2 < post.len()
                    && 0 <= k2 < post[i2].children@.len() && (#[trigger] post[i1].children@[k1])
                    == (#[trigger] post[i2].children@[k2]) implies i1 == i2 && k1 == k2 by {
                let new1 = i1 == parent as int && k1 == pre[parent as int].children@.len();
                let new2 = i2 == parent as int && k2 == pre[parent as int].children@.len();
                if new1 && new2 {
                } else if new1 {
                    assert(post[i2].children@[k2] == pre[i2].children@[k2]);
                    assert(pre[i2].children@[k2] < pre.len());
                    assert(false);
                } else if new2 {
                    assert(post[i1].children@[k1] == pre[i1].children@[k1]);
                    assert(pre[i1].children@[k1] < pre.len());
                    assert(false);
                } else {
                    assert(post[i1].children@[k1] == pre[i1].children@[k1]);
                    assert(post[i2].children@[k2] == pre[i2].children@[k2]);
                }
            }
        }
        idx
    }
}

/// The depth-first visitation list under node `i`, starting at child
/// position `k`: each entry is a visited node reference with its path (the
/// name components from below the traversal root down to the node, so the
/// entry's depth is the path's length). A node's children are explored only
/// while its depth is under the bound, or without bound when the bound is 0.
pub open spec fn preorder_children(
    d: Dom,
    i: int,
    path: Seq<Seq<char>>,
    limit: int,
    k: int,
) -> Seq<(int, Seq<Seq<char>>)>
    decreases d.nodes@.len() - i, d.nodes@[i].children@.len() - k,
    when d.wf() && 0 <= i < d.nodes@.len() && 0 <= k <= d.nodes@[i].children@.len()
{
    if k >= d.nodes@[i].children@.len() {
        Seq::empty()
    } else {
        let c = d.nodes@[i].children@[k] as int;
        let cpath = path.push(d.nodes@[c].name@);
        seq![(c, cpath)] + (if limit == 0 || cpath.len() < limit {
            preorder_children(d, c, cpath, limit, 0)
        } else {
            Seq::empty()
        }) + preorder_children(d, i, path, limit, k + 1)
    }
}

/// The full visitation list under `start`, in visitation order.
pub open spec fn preorder(d: Dom, start: int, limit: int) -> Seq<(int, Seq<Seq<char>>)> {
    preorder_children(d, start, Seq::empty(), limit, 0)
}

/// Every visited reference lies strictly below the subtree root in the
/// arena order, and every visited path extends the path at the subtree
/// root.
pub proof fn lemma_preorder_entries_valid(
    d: Dom,
    i: int,
    path: Seq<Seq<char>>,
    limit: int,
    k: int,
)
    requires
        d.wf(),
        0 <= i < d.nodes@.len(),
        0 <= k <= d.nodes@[i].children@.len(),
    ensures
        forall|j: int|
            0 <= j < preorder_children(d, i, path, limit, k).len() ==> i < (
            #[trigger] preorder_children(d, i, path, limit, k)[j].0) < d.nodes@.len()
                && preorder_children(d, i, path, limit, k)[j].1.len() > path.len(),
    decreases d.nodes@.len() - i, d.nodes@[i].children@.len() - k,
{
    if k < d.nodes@[i].children@.len() {
        let c = d.nodes@[i].children@[k] as int;
        let cpath = path.push(d.nodes@[c].name@);
        let head = seq![(c, cpath)];
        let sub = if limit == 0 || cpath.len() < limit {
            preorder_children(d, c, cpath, limit, 0)
        } else {
            Seq::<(int, Seq<Seq<char>>)>::empty()
        };
        let rest = preorder_children(d, i, path, limit, k + 1);
        if limit == 0 || cpath.len() < limit {
            lemma_preorder_entries_valid(d, c, cpath, limit, 0);
        }
        lemma_preorder_entries_valid(d, i, path, limit, k + 1);
        assert forall|j: int|
            0 <= j < preorder_children(d, i, path, limit, k).len() implies i < (
        #[trigger] preorder_children(d, i, path, limit, k)[j].0) < d.nodes@.len()
            && preorder_children(d, i, path, limit, k)[j].1.len() > path.len() by {
            let whole = preorder_children(d, i, path, limit, k);
            assert(whole == head + sub + rest);
            if j < 1 {
                assert(whole[j] == (c, cpath));
            } else if j < 1 + sub.len() {
                assert(whole[j] == sub[j - 1]);
            } else {
                assert(whole[j] == rest[j - 1 - sub.len()]);
            }
        }
    }
}

/// Traversal depth bound: when the bound is positive and the path at the
/// subtree root is still under it, every visited entry has path depth at
/// most the bound.
pub proof fn lemma_preorder_depth_bound(d: Dom, i: int, path: Seq<Seq<char>>, limit: int, k: int)
    requires
        d.wf(),
        0 <= i < d.nodes@.len(),
        0 <= k <= d.nodes@[i].children@.len(),
        limit > 0,
        path.len() < limit,
    ensures
        forall|j: int|
            0 <= j < preorder_children(d, i, path, limit, k).len() ==> (
            #[trigger] preorder_children(d, i, path, limit, k)[j]).1.len() <= limit,
    decreases d.nodes@.len() - i, d.nodes@[i].children@.len() - k,
{
    if k < d.nodes@[i].children@.len() {
        let c = d.nodes@[i].children@[k] as int;
        let cpath = path.push(d.nodes@[c].name@);
        let head = seq![(c, cpath)];
        let sub = if cpath.len() < limit {
            preorder_children(d, c, cpath, limit, 0)
        } else {
            Seq::<(int, Seq<Seq<char>>)>::empty()
        };
        let rest = preorder_children(d, i, path, limit, k + 1);
        if cpath.len() < limit {
            lemma_preorder_depth_bound(d, c, cpath, limit, 0);
        }
        lemma_preorder_depth_bound(d, i, path, limit, k + 1);
        assert forall|j: int|
            0 <= j < preorder_children(d, i, path, limit, k).len() implies (
        #[trigger] preorder_children(d, i, path, limit, k)[j]).1.len() <= limit by {
            let whole = preorder_children(d, i, path, limit, k);
            assert(whole == head + sub + rest);
            if j < 1 {
                assert(whole[j] == (c, cpath));
            } else if j < 1 + sub.len() {
                assert(whole[j] == sub[j - 1]);
            } else {
                assert(whole[j] == rest[j - 1 - sub.len()]);
            }
        }
    }
}

/// Traversal depth bound at the root: for any positive bound, every entry
/// the traversal visits has path depth at most the bound.
pub proof fn lemma_traversal_depth_bound(d: Dom, start: int, limit: int)
    requires
        d.wf(),
        0 <= start < d.nodes@.len(),
        limit > 0,
    ensures
        forall|j: int|
            0 <= j < preorder(d, start, limit).len() ==> (#[trigger] preorder(
                d,
                start,
                limit,
            )[j]).1.len() <= limit,
{
    lemma_preorder_depth_bound(d, start, Seq::empty(), limit, 0);
}

/// One visited node, as the traversal reports it: the node reference, its
/// path depth, and the slash-joined rendering of its path.
pub struct VisitEntry {
    /// The visited node's reference.
    pub referent: usize,
    /// The node's path depth below the traversal root.
    pub depth: usize,
    /// The slash-joined path, with a trailing slash.
    pub slash_path: String,
}

/// Whether the reported entry describes the visitation-list entry `t`.
pub open spec fn entry_matches(e: VisitEntry, t: (int, Seq<Seq<char>>)) -> bool {
    &&& e.referent as int == t.0
    &&& e.depth as nat == t.1.len()
    &&& e.slash_path@ == join_spec("script"@, t.1, "/"@) + "/"@
}

fn walk(d: &Dom, i: usize, path: &mut DotPath, limit: usize, out: &mut Vec<VisitEntry>)
    requires
        d.wf(),
        i < d.nodes@.len(),
        old(path).root_view() == "script"@,
    ensures
        final(path).root_view() == old(path).root_view(),
        final(path).components_view() == old(path).components_view(),
        final(out)@.len() == old(out)@.len() + preorder_children(
            *d,
            i as int,
            old(path).components_view(),
            limit as int,
            0,
        ).len(),
        forall|j: int| 0 <= j < old(out)@.len() ==> final(out)@[j] == old(out)@[j],
        forall|j: int|
            0 <= j < preorder_children(
                *d,
                i as int,
                old(path).components_view(),
                limit as int,
                0,
            ).len() ==> entry_matches(
                #[trigger] final(out)@[old(out)@.len() + j],
                preorder_children(*d, i as int, old(path).components_view(), limit as int, 0)[j],
            ),
    decreases d.nodes@.len() - i,
{
    let ghost p0 = old(path).components_view();
    let ghost old_len = old(out)@.len() as int;
    let ghost full = preorder_children(*d, i as int, p0, limit as int, 0);
    let n = d.nodes[i].children.len();
    let mut k: usize = 0;
    while k < n
        invariant
            d.wf(),
            i < d.nodes@.len(),
            n == d.nodes@[i as int].children@.len(),
            k <= n,
            path.root_view() == "script"@,
            path.components_view() == p0,
            full == preorder_children(*d, i as int, p0, limit as int, 0),
            old_len == old(out)@.len() as int,
            old_len <= out@.len(),
            forall|j: int| 0 <= j < old_len ==> out@[j] == old(out)@[j],
            out@.len() - old_len == full.len() - preorder_children(
                *d,
                i as int,
                p0,
                limit as int,
                k as int,
            ).len(),
            full == full.take(out@.len() - old_len) + preorder_children(
                *d,
                i as int,
                p0,
                limit as int,
                k as int,
            ),
            forall|j: int|
                0 <= j < out@.len() - old_len ==> entry_matches(
                    #[trigger] out@[old_len + j],
                    full[j],
                ),
        decreases n - k,
    {
        let ghost done = out@.len() - old_len;
        let ghost rem = preorder_children(*d, i as int, p0, limit as int, k as int);
        let c = d.nodes[i].children[k];
        proof {
            assert(i < d.nodes@[i as int].children@[k as int] < d.nodes@.len());
        }
        let ghost cpath = p0.push(d.nodes@[c as int].name@);
        let ghost sub = if limit as int == 0 || cpath.len() < limit as int {
            preorder_children(*d, c as int, cpath, limit as int, 0)
        } else {
            Seq::<(int, Seq<Seq<char>>)>::empty()
        };
        proof {
            assert(rem == seq![(c as int, cpath)] + sub + preorder_children(
                *d,
                i as int,
                p0,
                limit as int,
                k as int + 1,
            ));
        }
        path.push(d.nodes[c].name.as_str());
        let slash_path = path.path_string();
        let depth = path.depth();
        out.push(VisitEntry { referent: c, depth, slash_path });
        proof {
            assert(full[done] == rem[0]);
            assert(entry_matches(out@[old_len + done], full[done]));
        }
        if limit == 0 || depth < limit {
            walk(d, c, path, limit, out);
        }
        proof {
            assert forall|j: int| 0 <= j < sub.len() implies entry_matches(
                #[trigger] out@[old_len + done + 1 + j],
                full[done + 1 + j],
            ) by {
                assert(full[done + 1 + j] == rem[1 + j]);
                assert(rem[1 + j] == sub[j]);
            }
        }
        let _ = path.pop();
        proof {
            assert(path.components_view() =~= p0);
            let done2 = out@.len() - old_len;
            assert(done2 == done + 1 + sub.len());
            let rem2 = preorder_children(*d, i as int, p0, limit as int, k as int + 1);
            assert(full =~= full.take(done2) + rem2);
            assert forall|j: int| 0 <= j < done2 implies entry_matches(
                #[trigger] out@[old_len + j],
                full[j],
            ) by {
                if j < done {
                } else if j == done {
                    assert(entry_matches(out@[old_len + done], full[done]));
                } else {
                    assert(entry_matches(out@[old_len + done + 1 + (j - done - 1)], full[done + 1
                        + (j - done - 1)]));
                }
            }
        }
        k = k + 1;
    }
    proof {
        assert(preorder_children(*d, i as int, p0, limit as int, n as int) =~= Seq::<(
            int,
            Seq<Seq<char>>,
        )>::empty());
        assert(full =~= full.take(out@.len() - old_len));
        assert(full.take(full.len() as int) =~= full);
    }
}

/// Lists every node visited by the depth-first traversal under `start`, in
/// visitation order, with its depth and slash-joined path. A bound of 0
/// means no bound; with a positive bound, children are explored only below
/// it.
pub fn descendants(d: &Dom, start: usize, limit: usize) -> (r: Vec<VisitEntry>)
    requires
        d.wf(),
        start < d.nodes@.len(),
    ensures
        r@.len() == preorder(*d, start as int, limit as int).len(),
        forall|j: int|
            0 <= j < r@.len() ==> entry_matches(
                #[trigger] r@[j],
                preorder(*d, start as int, limit as int)[j],
            ),
{
    let mut out: Vec<VisitEntry> = Vec::new();
    let mut path = DotPath::default();
    walk(d, start, &mut path, limit, &mut out);
    proof {
        assert forall|j: int| 0 <= j < out@.len() implies entry_matches(
            #[trigger] out@[j],
            preorder(*d, start as int, limit as int)[j],
        ) by {
            assert(entry_matches(out@[0 + j], preorder(*d, start as int, limit as int)[j]));
        }
    }
    out
}

/// Whether some call of the class predicate on this class tag can return
/// this verdict.
pub open spec fn class_verdict<F: Fn(&str) -> bool>(f: F, class: Seq<char>, verdict: bool) -> bool {
    exists|s: &str| s@ == class && #[trigger] call_ensures(f, (s,), verdict)
}

/// The node visited at position `j` is the first hit: the predicate
/// accepted its class tag and rejected every class tag visited before it.
pub open spec fn first_hit_at<F: Fn(&str) -> bool>(
    d: Dom,
    f: F,
    po: Seq<(int, Seq<Seq<char>>)>,
    j: int,
    c: int,
) -> bool {
    &&& 0 <= j < po.len()
    &&& po[j].0 == c
    &&& class_verdict(f, d.nodes@[c].class@, true)
    &&& forall|m: int| 0 <= m < j ==> class_verdict(f, d.nodes@[(#[trigger] po[m]).0].class@, false)
}

/// Finds the first visited node whose class tag satisfies the predicate,
/// within the depth bound, or none; the walk stops on the first hit.
pub fn find_first_child_class<F: Fn(&str) -> bool>(
    d: &Dom,
    start: usize,
    class_predicate: F,
    limit: usize,
) -> (r: Option<usize>)
    requires
        d.wf(),
        start < d.nodes@.len(),
        forall|s: &str| #[trigger] call_requires(class_predicate, (s,)),
    ensures
        (r matches Some(c) ==> c < d.nodes@.len() && exists|j: int|
            #[trigger] first_hit_at(
                *d,
                class_predicate,
                preorder(*d, start as int, limit as int),
                j,
                c as int,
            )),
        (r is None ==> forall|m: int|
            0 <= m < preorder(*d, start as int, limit as int).len() ==> class_verdict(
                class_predicate,
                d.nodes@[(#[trigger] preorder(*d, start as int, limit as int)[m]).0].class@,
                false,
            )),
{
    let ghost po = preorder(*d, start as int, limit as int);
    let entries = descendants(d, start, limit);
    proof {
        lemma_preorder_entries_valid(*d, start as int, Seq::empty(), limit as int, 0);
    }
    let mut idx: usize = 0;
    while idx < entries.len()
        invariant
            d.wf(),
            po == preorder(*d, start as int, limit as int),
            entries@.len() == po.len(),
            forall|j: int| 0 <= j < entries@.len() ==> entry_matches(#[trigger] entries@[j], po[j]),
            forall|j: int|
                0 <= j < po.len() ==> (start as int) < (#[trigger] po[j]).0 && (
                #[trigger] po[j]).0 < d.nodes@.len(),
            idx <= entries@.len(),
            forall|s: &str| #[trigger] call_requires(class_predicate, (s,)),
            forall|m: int|
                0 <= m < idx ==> class_verdict(
                    class_predicate,
                    d.nodes@[(#[trigger] po[m]).0].class@,
                    false,
                ),
        decreases entries@.len() - idx,
    {
        let referent = entries[idx].referent;
        proof {
            assert(entry_matches(entries@[idx as int], po[idx as int]));
        }
        let cls: &str = d.nodes[referent].class.as_str();
        let hit = class_predicate(cls);
        if hit {
            proof {
                assert(class_verdict(class_predicate, d.nodes@[referent as int].class@, true)) by {
                    assert(call_ensures(class_predicate, (cls,), true));
                }
                assert(first_hit_at(*d, class_predicate, po, idx as int, referent as int));
            }
            return Some(referent);
        }
        proof {
            assert(class_verdict(class_predicate, d.nodes@[po[idx as int].0].class@, false)) by {
                assert(call_ensures(class_predicate, (cls,), false));
                assert(cls@ == d.nodes@[po[idx as int].0].class@);
            }
        }
        idx = idx + 1;
    }
    None
}

/// The visitor's verdict on one visited node.
#[derive(Clone, Copy)]
pub enum SearchAction {
    /// Continues the search; the node is recorded iff the value is true.
    Found(bool),
    /// Stops the search and records this node.
    Return,
    /// Stops the search without recording.
    Break,
}

/// Whether the verdict ends the walk.
pub open spec fn stops(a: SearchAction) -> bool {
    a is Return || a is Break
}

/// Whether the verdict records the node.
pub open spec fn records(a: SearchAction) -> bool {
    a == SearchAction::Found(true) || a is Return
}

/// Whether some call of the search predicate on the node at `node_index`
/// can return this verdict.
pub open spec fn action_taken<F: Fn(&DomNode) -> SearchAction>(
    d: Dom,
    f: F,
    node_index: int,
    a: SearchAction,
) -> bool {
    exists|node: &DomNode| *node == d.nodes@[node_index] && #[trigger] call_ensures(f, (node,), a)
}

/// The node references recorded among the first `upto` visited entries,
/// given the verdict taken on each.
pub open spec fn collected_refs(
    po: Seq<(int, Seq<Seq<char>>)>,
    acts: Seq<SearchAction>,
    upto: int,
) -> Seq<int>
    decreases upto,
{
    if upto <= 0 {
        Seq::empty()
    } else {
        collected_refs(po, acts, upto - 1) + if records(acts[upto - 1]) {
            seq![po[upto - 1].0]
        } else {
            Seq::empty()
        }
    }
}

/// The recorded list depends only on the verdicts actually taken: two
/// verdict sequences that agree on the first `upto` entries record the same
/// references.
proof fn lemma_collected_refs_agree(
    po: Seq<(int, Seq<Seq<char>>)>,
    a1: Seq<SearchAction>,
    a2: Seq<SearchAction>,
    upto: int,
)
    requires
        forall|m: int| 0 <= m < upto ==> a1[m] == a2[m],
    ensures
        collected_refs(po, a1, upto) == collected_refs(po, a2, upto),
    decreases upto,
{
    if upto > 0 {
        lemma_collected_refs_agree(po, a1, a2, upto - 1);
    }
}

/// One complete run of the searching walk: the predicate was consulted on
/// the first `visited` entries in order, no verdict before the last one
/// stopped the walk, the walk ran to the end unless the last verdict
/// stopped it, and exactly the recorded references came out, in visitation
/// order.
pub open spec fn search_run<F: Fn(&DomNode) -> SearchAction>(
    d: Dom,
    predicate: F,
    po: Seq<(int, Seq<Seq<char>>)>,
    acts: Seq<SearchAction>,
    visited: int,
    out: Seq<usize>,
) -> bool {
    &&& 0 <= visited <= po.len()
    &&& acts.len() == visited
    &&& forall|m: int|
        0 <= m < visited ==> action_taken(d, predicate, po[m].0, #[trigger] acts[m])
    &&& forall|m: int| 0 <= m < visited - 1 ==> !stops(#[trigger] acts[m])
    &&& (visited < po.len() ==> visited > 0 && stops(acts[visited - 1]))
    &&& out.len() == collected_refs(po, acts, visited).len()
    &&& forall|j: int|
        0 <= j < out.len() ==> (#[trigger] out[j]) as int == collected_refs(po, acts, visited)[j]
}

/// Walks the descendants within the depth bound and returns the references
/// the predicate records, in visitation order; `Return` and `Break` end the
/// walk at that node, so nothing visited later contributes.
pub fn find_descendants<F: Fn(&DomNode) -> SearchAction>(
    d: &Dom,
    start: usize,
    predicate: F,
    limit: usize,
) -> (r: Vec<usize>)
    requires
        d.wf(),
        start < d.nodes@.len(),
        forall|node: &DomNode| #[trigger] call_requires(predicate, (node,)),
    ensures
        exists|acts: Seq<SearchAction>, visited: int|
            #[trigger] search_run(
                *d,
                predicate,
                preorder(*d, start as int, limit as int),
                acts,
                visited,
                r@,
            ),
{
    let ghost po = preorder(*d, start as int, limit as int);
    let entries = descendants(d, start, limit);
    proof {
        lemma_preorder_entries_valid(*d, start as int, Seq::empty(), limit as int, 0);
    }
    let mut matched: Vec<usize> = Vec::new();
    let ghost mut acts: Seq<SearchAction> = Seq::empty();
    let mut idx: usize = 0;
    while idx < entries.len()
        invariant
            d.wf(),
            po == preorder(*d, start as int, limit as int),
            entries@.len() == po.len(),
            forall|j: int| 0 <= j < entries@.len() ==> entry_matches(#[trigger] entries@[j], po[j]),
            forall|j: int|
                0 <= j < po.len() ==> (start as int) < (#[trigger] po[j]).0 && (
                #[trigger] po[j]).0 < d.nodes@.len(),
            idx <= entries@.len(),
            forall|node: &DomNode| #[trigger] call_requires(predicate, (node,)),
            acts.len() == idx,
            forall|m: int|
                0 <= m < idx ==> action_taken(*d, predicate, po[m].0, #[trigger] acts[m]),
            forall|m: int| 0 <= m < idx ==> !stops(#[trigger] acts[m]),
            matched@.len() == collected_refs(po, acts, idx as int).len(),
            forall|j: int|
                0 <= j < matched@.len() ==> (#[trigger] matched@[j]) as int == collected_refs(
                    po,
                    acts,
                    idx as int,
                )[j],
        decreases entries@.len() - idx,
    {
        let ghost acts_head = acts;
        let referent = entries[idx].referent;
        proof {
            assert(entry_matches(entries@[idx as int], po[idx as int]));
        }
        let node_ref = &d.nodes[referent];
        let action = predicate(node_ref);
        proof {
            acts = acts.push(action);
            assert(acts[idx as int] == action);
            lemma_collected_refs_agree(po, acts_head, acts, idx as int);
            assert(action_taken(*d, predicate, po[idx as int].0, action)) by {
                assert(call_ensures(predicate, (node_ref,), action));
                assert(*node_ref == d.nodes@[po[idx as int].0]);
            }
            assert forall|m: int| 0 <= m < idx + 1 implies action_taken(
                *d,
                predicate,
                po[m].0,
                #[trigger] acts[m],
            ) by {
                if m < idx {
                    assert(acts[m] == acts_head[m]);
                    assert(action_taken(*d, predicate, po[m].0, acts_head[m]));
                } else {
                    assert(acts[m] == action);
                }
            }
        }
        match action {
            SearchAction::Found(b) => {
                if b {
                    matched.push(referent);
                }
            },
            SearchAction::Return => {
                matched.push(referent);
            },
            SearchAction::Break => {},
        }
        proof {
            assert(collected_refs(po, acts, idx + 1 as int) == collected_refs(
                po,
                acts,
                idx as int,
            ) + if records(action) {
                seq![po[idx as int].0]
            } else {
                Seq::<int>::empty()
            });
        }
        let stop = match action {
            SearchAction::Found(_) => false,
            SearchAction::Return => true,
            SearchAction::Break => true,
        };
        if stop {
            proof {
                assert(stops(acts[idx as int]));
                assert(search_run(*d, predicate, po, acts, idx + 1 as int, matched@));
            }
            return matched;
        }
        idx = idx + 1;
    }
    proof {
        assert(search_run(*d, predicate, po, acts, idx as int, matched@));
    }
    matched
}

/// The reference `x` appears among the first `upto` visited entries.
pub open spec fn drawn_from(po: Seq<(int, Seq<Seq<char>>)>, x: int, upto: int) -> bool {
    exists|m: int| 0 <= m < upto && x == (#[trigger] po[m]).0
}

/// Traversal short-circuit: whatever verdicts were taken, everything the
/// searching walk records comes from the entries it actually visited, so a
/// stop at the K-th visited node means no reference from any later node is
/// recorded.
pub proof fn lemma_collected_refs_within(
    po: Seq<(int, Seq<Seq<char>>)>,
    acts: Seq<SearchAction>,
    upto: int,
)
    requires
        0 <= upto <= po.len(),
        upto <= acts.len(),
    ensures
        forall|j: int|
            0 <= j < collected_refs(po, acts, upto).len() ==> drawn_from(
                po,
                #[trigger] collected_refs(po, acts, upto)[j],
                upto,
            ),
    decreases upto,
{
    if upto > 0 {
        lemma_collected_refs_within(po, acts, upto - 1);
        let prev = collected_refs(po, acts, upto - 1);
        assert forall|j: int| 0 <= j < collected_refs(po, acts, upto).len() implies drawn_from(
            po,
            #[trigger] collected_refs(po, acts, upto)[j],
            upto,
        ) by {
            if j < prev.len() {
                assert(collected_refs(po, acts, upto)[j] == prev[j]);
                assert(drawn_from(po, prev[j], upto - 1));
                let m = choose|m: int| 0 <= m < upto - 1 && prev[j] == (#[trigger] po[m]).0;
                assert(collected_refs(po, acts, upto)[j] == po[m].0);
            } else {
                assert(collected_refs(po, acts, upto)[j] == po[upto - 1].0);
            }
        }
    }
}


/// The number of children of node `i`.
pub open spec fn nchildren(d: Dom, i: int) -> int {
    d.nodes@[i].children@.len() as int
}

/// The child reference of node `i` at slot `k`.
pub open spec fn child(d: Dom, i: int, k: int) -> int {
    d.nodes@[i].children@[k] as int
}

/// The references of the unbounded depth-first visitation under node `i`,
/// from child slot `k` onward: the shape of [`preorder_children`] with the
/// paths left out.
pub open spec fn preorder_refs(d: Dom, i: int, k: int) -> Seq<int>
    decreases d.nodes@.len() - i, d.nodes@[i].children@.len() - k,
    when d.wf() && 0 <= i < d.nodes@.len() && 0 <= k <= nchildren(d, i)
{
    if k >= nchildren(d, i) {
        Seq::empty()
    } else {
        seq![child(d, i, k)] + preorder_refs(d, child(d, i, k), 0) + preorder_refs(d, i, k + 1)
    }
}

/// Whether `x` occurs in the reference list.
pub open spec fn occurs(rs: Seq<int>, x: int) -> bool {
    exists|j: int| 0 <= j < rs.len() && (#[trigger] rs[j]) == x
}

/// Whether the traversal under `start` visits a node with reference `x`.
pub open spec fn visited_ref(po: Seq<(int, Seq<Seq<char>>)>, x: int) -> bool {
    exists|j: int| 0 <= j < po.len() && (#[trigger] po[j]).0 == x
}

/// `a` reaches `x` by a downward chain of child references (including the
/// empty chain).
pub open spec fn reaches(d: Dom, a: int, x: int) -> bool
    decreases d.nodes@.len() - a,
    when d.wf() && 0 <= a < d.nodes@.len()
{
    a == x || exists|k: int|
        0 <= k < nchildren(d, a) && reaches(d, #[trigger] child(d, a, k), x)
}

/// The unbounded visitation lists with and without paths carry the same
/// references in the same order.
proof fn lemma_refs_match(d: Dom, i: int, path: Seq<Seq<char>>, k: int)
    requires
        d.wf(),
        0 <= i < d.nodes@.len(),
        0 <= k <= nchildren(d, i),
    ensures
        preorder_children(d, i, path, 0, k).len() == preorder_refs(d, i, k).len(),
        forall|j: int|
            0 <= j < preorder_refs(d, i, k).len() ==> (#[trigger] preorder_children(
                d,
                i,
                path,
                0,
                k,
            )[j]).0 == preorder_refs(d, i, k)[j],
    decreases d.nodes@.len() - i, d.nodes@[i].children@.len() - k,
{
    if k < nchildren(d, i) {
        let c = child(d, i, k);
        let cpath = path.push(d.nodes@[c].name@);
        lemma_refs_match(d, c, cpath, 0);
        lemma_refs_match(d, i, path, k + 1);
        let whole = preorder_children(d, i, path, 0, k);
        let whole_r = preorder_refs(d, i, k);
        let sub = preorder_children(d, c, cpath, 0, 0);
        let sub_r = preorder_refs(d, c, 0);
        let rest = preorder_children(d, i, path, 0, k + 1);
        let rest_r = preorder_refs(d, i, k + 1);
        assert(whole == seq![(c, cpath)] + sub + rest);
        assert(whole_r == seq![c] + sub_r + rest_r);
        assert forall|j: int| 0 <= j < whole_r.len() implies (#[trigger] whole[j]).0
            == whole_r[j] by {
            if j < 1 {
            } else if j < 1 + sub.len() {
                assert(whole[j] == sub[j - 1]);
                assert(whole_r[j] == sub_r[j - 1]);
            } else {
                assert(whole[j] == rest[j - 1 - sub.len()]);
                assert(whole_r[j] == rest_r[j - 1 - sub_r.len()]);
            }
        }
    }
}

/// Every reference in the unbounded visitation lies strictly below the
/// subtree root.
proof fn lemma_refs_valid(d: Dom, i: int, k: int)
    requires
        d.wf(),
        0 <= i < d.nodes@.len(),
        0 <= k <= nchildren(d, i),
    ensures
        forall|j: int|
            0 <= j < preorder_refs(d, i, k).len() ==> i < (#[trigger] preorder_refs(d, i, k)[j])
                < d.nodes@.len(),
    decreases d.nodes@.len() - i, d.nodes@[i].children@.len() - k,
{
    if k < nchildren(d, i) {
        let c = child(d, i, k);
        lemma_refs_valid(d, c, 0);
        lemma_refs_valid(d, i, k + 1);
        let whole = preorder_refs(d, i, k);
        let sub = preorder_refs(d, c, 0);
        let rest = preorder_refs(d, i, k + 1);
        assert forall|j: int| 0 <= j < whole.len() implies i < (#[trigger] whole[j])
            < d.nodes@.len() by {
            if j < 1 {
            } else if j < 1 + sub.len() {
                assert(whole[j] == sub[j - 1]);
            } else {
                assert(whole[j] == rest[j - 1 - sub.len()]);
            }
        }
    }
}

/// Every occurrence comes through some child slot at or past `k`: either as
/// that child itself or inside that child's subtree.
proof fn lemma_occurs_unfold(d: Dom, i: int, k: int, x: int)
    requires
        d.wf(),
        0 <= i < d.nodes@.len(),
        0 <= k <= nchildren(d, i),
        occurs(preorder_refs(d, i, k), x),
    ensures
        exists|k2: int|
            k <= k2 < nchildren(d, i) && (x == (#[trigger] child(d, i, k2)) || occurs(
                preorder_refs(d, child(d, i, k2), 0),
                x,
            )),
    decreases d.nodes@.len() - i, d.nodes@[i].children@.len() - k,
{
    let whole = preorder_refs(d, i, k);
    let c = child(d, i, k);
    let sub = preorder_refs(d, c, 0);
    let rest = preorder_refs(d, i, k + 1);
    assert(whole == seq![c] + sub + rest);
    let j = choose|j: int| 0 <= j < whole.len() && (#[trigger] whole[j]) == x;
    if j < 1 {
        assert(x == child(d, i, k));
    } else if j < 1 + sub.len() {
        assert(whole[j] == sub[j - 1]);
        assert(occurs(sub, x));
    } else {
        assert(whole[j] == rest[j - 1 - sub.len()]);
        assert(occurs(rest, x));
        lemma_occurs_unfold(d, i, k + 1, x);
        let k2 = choose|k2: int|
            k + 1 <= k2 < nchildren(d, i) && (x == (#[trigger] child(d, i, k2)) || occurs(
                preorder_refs(d, child(d, i, k2), 0),
                x,
            ));
        assert(k <= k2 < nchildren(d, i) && (x == child(d, i, k2) || occurs(
            preorder_refs(d, child(d, i, k2), 0),
            x,
        )));
    }
}

/// Conversely, whatever comes through a child slot at or past `k` occurs in
/// the visitation from `k`.
proof fn lemma_occurs_pack(d: Dom, i: int, k: int, k2: int, x: int)
    requires
        d.wf(),
        0 <= i < d.nodes@.len(),
        0 <= k <= k2 < nchildren(d, i),
        x == child(d, i, k2) || occurs(preorder_refs(d, child(d, i, k2), 0), x),
    ensures
        occurs(preorder_refs(d, i, k), x),
    decreases k2 - k,
{
    let whole = preorder_refs(d, i, k);
    let c = child(d, i, k);
    let sub = preorder_refs(d, c, 0);
    let rest = preorder_refs(d, i, k + 1);
    assert(whole == seq![c] + sub + rest);
    if k == k2 {
        if x == c {
            assert(whole[0] == x);
        } else {
            let j = choose|j: int| 0 <= j < sub.len() && (#[trigger] sub[j]) == x;
            assert(whole[1 + j] == x);
        }
    } else {
        lemma_occurs_pack(d, i, k + 1, k2, x);
        let j = choose|j: int| 0 <= j < rest.len() && (#[trigger] rest[j]) == x;
        assert(whole[1 + sub.len() + j] == x);
    }
}

/// Every visited reference has a parent slot, and that parent is either the
/// subtree root or itself visited.
proof fn lemma_occurrence_has_parent(d: Dom, a: int, k: int, x: int)
    requires
        d.wf(),
        0 <= a < d.nodes@.len(),
        0 <= k <= nchildren(d, a),
        occurs(preorder_refs(d, a, k), x),
    ensures
        exists|p: int, slot: int|
            {
                &&& 0 <= p < d.nodes@.len()
                &&& 0 <= slot < nchildren(d, p)
                &&& (#[trigger] child(d, p, slot)) == x
                &&& (p == a || occurs(preorder_refs(d, a, k), p))
            },
    decreases d.nodes@.len() - a, d.nodes@[a].children@.len() - k,
{
    let whole = preorder_refs(d, a, k);
    let c = child(d, a, k);
    let sub = preorder_refs(d, c, 0);
    let rest = preorder_refs(d, a, k + 1);
    assert(whole == seq![c] + sub + rest);
    let j = choose|j: int| 0 <= j < whole.len() && (#[trigger] whole[j]) == x;
    if j < 1 {
        assert(child(d, a, k) == x);
    } else if j < 1 + sub.len() {
        assert(whole[j] == sub[j - 1]);
        assert(occurs(sub, x));
        lemma_occurrence_has_parent(d, c, 0, x);
        let (p, slot): (int, int) = choose|p: int, slot: int|
            {
                &&& 0 <= p < d.nodes@.len()
                &&& 0 <= slot < nchildren(d, p)
                &&& (#[trigger] child(d, p, slot)) == x
                &&& (p == c || occurs(preorder_refs(d, c, 0), p))
            };
        if p == c {
            assert(whole[0] == c);
            assert(occurs(whole, p));
        } else {
            let m = choose|m: int| 0 <= m < sub.len() && (#[trigger] sub[m]) == p;
            assert(whole[1 + m] == p);
            assert(occurs(whole, p));
        }
        assert(child(d, p, slot) == x && occurs(whole, p));
    } else {
        assert(whole[j] == rest[j - 1 - sub.len()]);
        assert(occurs(rest, x));
        lemma_occurrence_has_parent(d, a, k + 1, x);
        let (p, slot): (int, int) = choose|p: int, slot: int|
            {
                &&& 0 <= p < d.nodes@.len()
                &&& 0 <= slot < nchildren(d, p)
                &&& (#[trigger] child(d, p, slot)) == x
                &&& (p == a || occurs(preorder_refs(d, a, k + 1), p))
            };
        if p != a {
            let m = choose|m: int| 0 <= m < rest.len() && (#[trigger] rest[m]) == p;
            assert(whole[1 + sub.len() + m] == p);
            assert(occurs(whole, p));
        }
        assert(child(d, p, slot) == x && (p == a || occurs(whole, p)));
    }
}

/// Whether `x` comes through child slot `k` of node `i`: as that child
/// itself, or inside that child's subtree.
pub open spec fn through_slot(d: Dom, i: int, k: int, x: int) -> bool {
    x == child(d, i, k) || occurs(preorder_refs(d, child(d, i, k), 0), x)
}

/// In a strict forest the subtrees under distinct child slots of one node
/// are disjoint: a reference can come through only one slot.
proof fn lemma_slots_agree(d: Dom, i: int, k1: int, k2: int, x: int)
    requires
        d.wf(),
        0 <= i < d.nodes@.len(),
        0 <= k1 < nchildren(d, i),
        0 <= k2 < nchildren(d, i),
        through_slot(d, i, k1, x),
        through_slot(d, i, k2, x),
    ensures
        k1 == k2,
    decreases x,
{
    if k1 != k2 {
        let c1 = child(d, i, k1);
        let c2 = child(d, i, k2);
        assert(c1 != c2);
        lemma_refs_valid(d, c1, 0);
        lemma_refs_valid(d, c2, 0);
        if x == c1 && x == c2 {
        } else if x == c1 {
            lemma_occurrence_has_parent(d, c2, 0, x);
            let (p, slot): (int, int) = choose|p: int, slot: int|
                {
                    &&& 0 <= p < d.nodes@.len()
                    &&& 0 <= slot < nchildren(d, p)
                    &&& (#[trigger] child(d, p, slot)) == x
                    &&& (p == c2 || occurs(preorder_refs(d, c2, 0), p))
                };
            assert(p == i && slot == k1);
            if p == c2 {
                assert(i < c2);
            } else {
                let m = choose|m: int|
                    0 <= m < preorder_refs(d, c2, 0).len() && (#[trigger] preorder_refs(
                        d,
                        c2,
                        0,
                    )[m]) == p;
                assert(c2 < p);
            }
        } else if x == c2 {
            lemma_occurrence_has_parent(d, c1, 0, x);
            let (p, slot): (int, int) = choose|p: int, slot: int|
                {
                    &&& 0 <= p < d.nodes@.len()
                    &&& 0 <= slot < nchildren(d, p)
                    &&& (#[trigger] child(d, p, slot)) == x
                    &&& (p == c1 || occurs(preorder_refs(d, c1, 0), p))
                };
            assert(p == i && slot == k2);
            if p == c1 {
                assert(i < c1);
            } else {
                let m = choose|m: int|
                    0 <= m < preorder_refs(d, c1, 0).len() && (#[trigger] preorder_refs(
                        d,
                        c1,
                        0,
                    )[m]) == p;
                assert(c1 < p);
            }
        } else {
            lemma_occurrence_has_parent(d, c1, 0, x);
            let (p1, s1): (int, int) = choose|p1: int, s1: int|
                {
                    &&& 0 <= p1 < d.nodes@.len()
                    &&& 0 <= s1 < nchildren(d, p1)
                    &&& (#[trigger] child(d, p1, s1)) == x
                    &&& (p1 == c1 || occurs(preorder_refs(d, c1, 0), p1))
                };
            lemma_occurrence_has_parent(d, c2, 0, x);
            let (p2, s2): (int, int) = choose|p2: int, s2: int|
                {
                    &&& 0 <= p2 < d.nodes@.len()
                    &&& 0 <= s2 < nchildren(d, p2)
                    &&& (#[trigger] child(d, p2, s2)) == x
                    &&& (p2 == c2 || occurs(preorder_refs(d, c2, 0), p2))
                };
            assert(p1 == p2 && s1 == s2);
            assert(p1 < x);
            assert(0 <= p1);
            assert(through_slot(d, i, k1, p1));
            assert(through_slot(d, i, k2, p1));
            lemma_slots_agree(d, i, k1, k2, p1);
        }
    }
}

/// The unbounded visitation repeats no reference.
proof fn lemma_refs_no_duplicates(d: Dom, i: int, k: int)
    requires
        d.wf(),
        0 <= i < d.nodes@.len(),
        0 <= k <= nchildren(d, i),
    ensures
        forall|j1: int, j2: int|
            0 <= j1 < j2 < preorder_refs(d, i, k).len() ==> (#[trigger] preorder_refs(d, i, k)[j1])
                != (#[trigger] preorder_refs(d, i, k)[j2]),
    decreases d.nodes@.len() - i, d.nodes@[i].children@.len() - k,
{
    if k < nchildren(d, i) {
        let whole = preorder_refs(d, i, k);
        let c = child(d, i, k);
        let sub = preorder_refs(d, c, 0);
        let rest = preorder_refs(d, i, k + 1);
        assert(whole == seq![c] + sub + rest);
        lemma_refs_no_duplicates(d, c, 0);
        lemma_refs_no_duplicates(d, i, k + 1);
        lemma_refs_valid(d, c, 0);
        assert forall|j1: int, j2: int|
            0 <= j1 < j2 < whole.len() implies (#[trigger] whole[j1]) != (
        #[trigger] whole[j2]) by {
            if whole[j1] == whole[j2] {
                let x = whole[j1];
                if j1 < 1 {
                    // x == c and x occurs later: either inside c's subtree or
                    // past slot k.
                    if j2 < 1 + sub.len() {
                        assert(whole[j2] == sub[j2 - 1]);
                        assert(c < sub[j2 - 1]);
                    } else {
                        assert(whole[j2] == rest[j2 - 1 - sub.len()]);
                        assert(occurs(rest, x));
                        lemma_occurs_unfold(d, i, k + 1, x);
                        let k2 = choose|k2: int|
                            k + 1 <= k2 < nchildren(d, i) && (x == (#[trigger] child(d, i, k2))
                                || occurs(preorder_refs(d, child(d, i, k2), 0), x));
                        assert(through_slot(d, i, k, x));
                        assert(through_slot(d, i, k2, x));
                        lemma_slots_agree(d, i, k, k2, x);
                    }
                } else if j1 < 1 + sub.len() {
                    assert(whole[j1] == sub[j1 - 1]);
                    assert(occurs(sub, x));
                    if j2 < 1 + sub.len() {
                        assert(whole[j2] == sub[j2 - 1]);
                    } else {
                        assert(whole[j2] == rest[j2 - 1 - sub.len()]);
                        assert(occurs(rest, x));
                        lemma_occurs_unfold(d, i, k + 1, x);
                        let k2 = choose|k2: int|
                            k + 1 <= k2 < nchildren(d, i) && (x == (#[trigger] child(d, i, k2))
                                || occurs(preorder_refs(d, child(d, i, k2), 0), x));
                        assert(through_slot(d, i, k, x));
                        assert(through_slot(d, i, k2, x));
                        lemma_slots_agree(d, i, k, k2, x);
                    }
                } else {
                    assert(whole[j1] == rest[j1 - 1 - sub.len()]);
                    assert(whole[j2] == rest[j2 - 1 - sub.len()]);
                }
            }
        }
    }
}

/// Every node the chain relation reaches below the root is visited.
proof fn lemma_reaches_occurs(d: Dom, a: int, x: int)
    requires
        d.wf(),
        0 <= a < d.nodes@.len(),
        reaches(d, a, x),
        x != a,
    ensures
        occurs(preorder_refs(d, a, 0), x),
    decreases d.nodes@.len() - a,
{
    let k = choose|k: int| 0 <= k < nchildren(d, a) && reaches(d, #[trigger] child(d, a, k), x);
    let c = child(d, a, k);
    if x == c {
        lemma_occurs_pack(d, a, 0, k, x);
    } else {
        lemma_reaches_occurs(d, c, x);
        lemma_occurs_pack(d, a, 0, k, x);
    }
}

/// Every visited reference is reached by a chain from the root.
proof fn lemma_occurs_reaches(d: Dom, a: int, k: int, x: int)
    requires
        d.wf(),
        0 <= a < d.nodes@.len(),
        0 <= k <= nchildren(d, a),
        occurs(preorder_refs(d, a, k), x),
    ensures
        reaches(d, a, x),
    decreases d.nodes@.len() - a, d.nodes@[a].children@.len() - k,
{
    let whole = preorder_refs(d, a, k);
    let c = child(d, a, k);
    let sub = preorder_refs(d, c, 0);
    let rest = preorder_refs(d, a, k + 1);
    assert(whole == seq![c] + sub + rest);
    let j = choose|j: int| 0 <= j < whole.len() && (#[trigger] whole[j]) == x;
    if j < 1 {
        assert(reaches(d, c, x));
        assert(reaches(d, a, x));
    } else if j < 1 + sub.len() {
        assert(whole[j] == sub[j - 1]);
        assert(occurs(sub, x));
        lemma_occurs_reaches(d, c, 0, x);
        assert(reaches(d, a, x));
    } else {
        assert(whole[j] == rest[j - 1 - sub.len()]);
        assert(occurs(rest, x));
        lemma_occurs_reaches(d, a, k + 1, x);
    }
}

/// With no depth bound the traversal under `start` visits every strict
/// descendant of `start` exactly once: no reference is repeated, and a
/// reference is visited exactly when a non-empty chain of child references
/// leads from `start` to it.
pub proof fn lemma_unbounded_traversal_exactly_once(d: Dom, start: int)
    requires
        d.wf(),
        0 <= start < d.nodes@.len(),
    ensures
        forall|j1: int, j2: int|
            0 <= j1 < j2 < preorder(d, start, 0).len() ==> (#[trigger] preorder(d, start, 0)[j1]).0
                != (#[trigger] preorder(d, start, 0)[j2]).0,
        forall|x: int| visited_ref(preorder(d, start, 0), x) <==> (reaches(d, start, x) && x != start),
{
    lemma_refs_match(d, start, Seq::empty(), 0);
    lemma_refs_no_duplicates(d, start, 0);
    lemma_refs_valid(d, start, 0);
    let po = preorder(d, start, 0);
    let rs = preorder_refs(d, start, 0);
    assert forall|j1: int, j2: int| 0 <= j1 < j2 < po.len() implies (#[trigger] po[j1]).0 != (
    #[trigger] po[j2]).0 by {
        assert(po[j1].0 == rs[j1]);
        assert(po[j2].0 == rs[j2]);
    }
    assert forall|x: int| visited_ref(po, x) <==> (reaches(d, start, x) && x != start) by {
        if visited_ref(po, x) {
            let j = choose|j: int| 0 <= j < po.len() && (#[trigger] po[j]).0 == x;
            assert(rs[j] == x);
            assert(occurs(rs, x));
            lemma_occurs_reaches(d, start, 0, x);
        }
        if reaches(d, start, x) && x != start {
            lemma_reaches_occurs(d, start, x);
            let j = choose|j: int| 0 <= j < rs.len() && (#[trigger] rs[j]) == x;
            assert(po[j].0 == x);
            assert(visited_ref(po, x));
        }
    }
}

} // verus!
