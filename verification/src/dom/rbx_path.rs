//! Dotted paths rooted at the fixed `script` token.
//!
//! A [`DotPath`] is an ordered stack of name components under a root token.
//! The traversal pushes a name on descent and pops it on ascent, so the path
//! always mirrors the traversal's current position; the ancestor form is a
//! run of `Parent` components used to require the entry-point module from a
//! descendant at a known depth.

use vstd::prelude::*;
use vstd::string::StringExecFns;

verus! {

/// `root` followed by each component of `comps`, each preceded by `sep`.
pub open spec fn join_spec(root: Seq<char>, comps: Seq<Seq<char>>, sep: Seq<char>) -> Seq<char>
    decreases comps.len(),
{
    if comps.len() == 0 {
        root
    } else {
        join_spec(root, comps.drop_last(), sep) + sep + comps.last()
    }
}

/// The components of an ancestor path of the given depth: `depth` copies of
/// the ascend token `Parent`.
pub open spec fn ancestor_components(depth: int) -> Seq<Seq<char>> {
    Seq::new(depth as nat, |i: int| "Parent"@)
}

/// The rendering of `depth` ascend steps after the root: one `.Parent` per
/// step.
pub open spec fn ascend_suffix(depth: int) -> Seq<char>
    decreases depth,
{
    if depth <= 0 {
        Seq::empty()
    } else {
        ascend_suffix(depth - 1) + "."@ + "Parent"@
    }
}

/// Dropping the last element `n` times.
pub open spec fn pop_n<T>(s: Seq<T>, n: int) -> Seq<T>
    decreases n,
{
    if n <= 0 {
        s
    } else {
        pop_n(s.drop_last(), n - 1)
    }
}

/// An ordered stack of path components under a fixed root token, rendered
/// either dotted (symbolic) or slash-joined (filesystem-like).
#[derive(Clone)]
pub struct DotPath {
    root: String,
    components: Vec<String>,
}

impl Default for DotPath {
    /// The empty path at the `script` root.
    fn default() -> (d: Self)
        ensures
            d.root_view() == "script"@,
            d.components_view() == Seq::<Seq<char>>::empty(),
    {
        let d = DotPath { root: String::from_str("script"), components: Vec::new() };
        proof {
            assert(d.components.deep_view() =~= Seq::<Seq<char>>::empty());
        }
        d
    }
}

impl DotPath {
    /// The root token of this path.
    pub closed spec fn root_view(&self) -> Seq<char> {
        self.root@
    }

    /// The component stack of this path, innermost last.
    pub closed spec fn components_view(&self) -> Seq<Seq<char>> {
        self.components.deep_view()
    }

    /// Creates a path that starts from `depth` and leads to the ancestor at
    /// depth 0: `depth` repetitions of the ascend token after the root.
    pub fn new_ancestor_path(depth: usize) -> (d: Self)
        ensures
            d.root_view() == "script"@,
            d.components_view() == ancestor_components(depth as int),
    {
        let mut components: Vec<String> = Vec::new();
        let mut i: usize = 0;
        while i < depth
            invariant
                i <= depth,
                components@.len() == i,
                forall|j: int| 0 <= j < i ==> #[trigger] components@[j]@ == "Parent"@,
            decreases depth - i,
        {
            components.push(String::from_str("Parent"));
            i = i + 1;
        }
        proof {
            assert forall|j: int| 0 <= j < depth implies #[trigger] components.deep_view()[j]
                == ancestor_components(depth as int)[j] by {
                assert(components@[j]@ == "Parent"@);
            }
            assert(components.deep_view() =~= ancestor_components(depth as int));
        }
        DotPath { root: String::from_str("script"), components }
    }

    /// The number of components on the stack.
    pub fn depth(&self) -> (n: usize)
        ensures
            n == self.components_view().len(),
    {
        self.components.len()
    }

    /// Pushes one component onto the stack.
    pub fn push(&mut self, component: &str)
        ensures
            final(self).root_view() == old(self).root_view(),
            final(self).components_view() == old(self).components_view().push(component@),
    {
        self.components.push(String::from_str(component));
        proof {
            assert(self.components.deep_view() =~= old(self).components.deep_view().push(
                component@,
            ));
        }
    }

    /// Pops the innermost component, if any.
    pub fn pop(&mut self) -> (r: Option<String>)
        ensures
            final(self).root_view() == old(self).root_view(),
            old(self).components_view().len() == 0 ==> r is None && final(self).components_view()
                == old(self).components_view(),
            old(self).components_view().len() > 0 ==> (r matches Some(c) && c@ == old(
                self,
            ).components_view().last() && final(self).components_view() == old(
                self,
            ).components_view().drop_last()),
    {
        let r = self.components.pop();
        proof {
            if old(self).components@.len() > 0 {
                assert(self.components.deep_view() =~= old(
                    self,
                ).components.deep_view().drop_last());
            } else {
                assert(self.components.deep_view() =~= old(self).components.deep_view());
            }
        }
        r
    }

    /// Renders the path as `root`, then each component preceded by
    /// `separator`.
    pub fn join(&self, separator: &str) -> (r: String)
        ensures
            r@ == join_spec(self.root_view(), self.components_view(), separator@),
    {
        let mut r = self.root.clone();
        let mut i: usize = 0;
        while i < self.components.len()
            invariant
                i <= self.components.len(),
                r@ == join_spec(self.root@, self.components.deep_view().take(i as int), separator@),
            decreases self.components.len() - i,
        {
            r.append(separator);
            r.append(self.components[i].as_str());
            proof {
                let dv = self.components.deep_view();
                assert(dv.take(i + 1 as int).drop_last() =~= dv.take(i as int));
                assert(dv.take(i + 1 as int).last() == dv[i as int]);
            }
            i = i + 1;
        }
        proof {
            assert(self.components.deep_view().take(self.components.len() as int)
                =~= self.components.deep_view());
        }
        r
    }

    /// The slash-joined, filesystem-like rendering, with a trailing slash.
    pub fn path_string(&self) -> (r: String)
        ensures
            r@ == join_spec(self.root_view(), self.components_view(), "/"@) + "/"@,
    {
        let mut r = self.join("/");
        r.append("/");
        r
    }

    /// The symbolic dotted rendering.
    pub fn dot_string(&self) -> (r: String)
        ensures
            r@ == join_spec(self.root_view(), self.components_view(), "."@),
    {
        self.join(".")
    }

    /// The slash-joined rendering as an owned filesystem path.
    pub fn to_path(&self) -> std::path::PathBuf {
        let s = self.path_string();
        path_buf_from(s)
    }
}

#[verifier::external_type_specification]
#[verifier::external_body]
pub struct ExPathBuf(std::path::PathBuf);

/// Relies on `std::path::PathBuf::from`, which wraps an owned string as a
/// path without reading it.
#[verifier::external_body]
fn path_buf_from(s: String) -> std::path::PathBuf {
    std::path::PathBuf::from(s)
}

/// Ancestor-path rendering: depth 0 renders as the bare root token, and depth
/// `n` renders as the root followed by `n` ascend tokens, each preceded by the
/// symbolic separator.
pub proof fn lemma_ancestor_path_rendering(depth: int)
    requires
        depth >= 0,
    ensures
        join_spec("script"@, ancestor_components(depth), "."@) == "script"@ + ascend_suffix(depth),
        depth == 0 ==> join_spec("script"@, ancestor_components(depth), "."@) == "script"@,
    decreases depth,
{
    if depth == 0 {
        assert(ancestor_components(0).len() == 0);
        assert("script"@ + ascend_suffix(0) =~= "script"@);
    } else {
        lemma_ancestor_path_rendering(depth - 1);
        assert(ancestor_components(depth).drop_last() =~= ancestor_components(depth - 1));
        assert(ancestor_components(depth).last() == "Parent"@);
        assert(("script"@ + ascend_suffix(depth - 1)) + "."@ + "Parent"@ =~= "script"@ + (
        ascend_suffix(depth - 1) + "."@ + "Parent"@));
    }
}

/// Path stack discipline: pushing any sequence of components and then popping
/// as many times leaves the stack, and hence the depth, as it was before.
pub proof fn lemma_push_pop_depth(before: Seq<Seq<char>>, names: Seq<Seq<char>>)
    ensures
        pop_n(before + names, names.len() as int) == before,
    decreases names.len(),
{
    if names.len() == 0 {
        assert(before + names =~= before);
    } else {
        assert((before + names).drop_last() =~= before + names.drop_last());
        lemma_push_pop_depth(before, names.drop_last());
    }
}

} // verus!
