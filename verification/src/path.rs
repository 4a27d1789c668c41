//! Locators: root-relative sequences of node-child indices, and their
//! resolution against a tree. A locator is a pure position descriptor;
//! it is always interpreted against whichever root is current.

use vstd::prelude::*;

use crate::tree::lemma_nodes_of_push;
use crate::tree::lemma_vs_index;
use crate::tree::tree_eq;
use crate::tree::Tree;
use crate::tree::TreeV;

verus! {

/// A locator: the i-th entry selects the i-th node child (tokens are not
/// counted) at each step down from the root.
#[derive(Debug)]
pub struct AstPath {
    pub indices: Vec<usize>,
}

impl View for AstPath {
    type V = Seq<usize>;

    open spec fn view(&self) -> Seq<usize> {
        self.indices@
    }
}

impl AstPath {
    /// The locator of the root itself.
    pub fn root() -> (p: AstPath)
        ensures
            p@ == Seq::<usize>::empty(),
    {
        AstPath { indices: Vec::new() }
    }
}

impl Clone for AstPath {
    /// A clone denotes the same position.
    fn clone(&self) -> (res: Self)
        ensures
            res@ == self@,
    {
        let mut indices: Vec<usize> = Vec::new();
        let mut k: usize = 0;
        while k < self.indices.len()
            invariant
                k <= self.indices.len(),
                indices@ == self.indices@.take(k as int),
            decreases self.indices.len() - k,
        {
            indices.push(self.indices[k]);
            proof {
                assert(self.indices@.take(k + 1) =~= self.indices@.take(k as int).push(
                    self.indices@[k as int],
                ));
            }
            k = k + 1;
        }
        proof {
            assert(self.indices@.take(self.indices@.len() as int) =~= self.indices@);
        }
        AstPath { indices }
    }
}

impl PartialEq for AstPath {
    fn eq(&self, other: &Self) -> (r: bool) {
        if self.indices.len() != other.indices.len() {
            return false;
        }
        let mut k: usize = 0;
        while k < self.indices.len()
            invariant
                k <= self.indices.len(),
                self.indices@.len() == other.indices@.len(),
                forall|i: int| 0 <= i < k ==> self.indices@[i] == other.indices@[i],
            decreases self.indices.len() - k,
        {
            if self.indices[k] != other.indices[k] {
                return false;
            }
            k = k + 1;
        }
        proof {
            assert(self.indices@ =~= other.indices@);
        }
        true
    }
}

impl Eq for AstPath {

}

impl vstd::std_specs::cmp::PartialEqSpecImpl for AstPath {
    open spec fn obeys_eq_spec() -> bool {
        true
    }

    open spec fn eq_spec(&self, other: &AstPath) -> bool {
        self@ == other@
    }
}

/// Resolving a locator: from `t`, repeatedly take the i-th node child.
/// `None` as soon as an index is out of range.
pub open spec fn spec_resolve(t: TreeV, path: Seq<usize>) -> Option<TreeV>
    decreases path.len(),
{
    if path.len() == 0 {
        Some(t)
    } else {
        let ns = t.node_children();
        if (path[0] as int) < ns.len() {
            spec_resolve(ns[path[0] as int], path.drop_first())
        } else {
            None
        }
    }
}

/// Whether the node `n` occurs in the tree `t` (by structural equality).
pub open spec fn reaches(t: TreeV, n: TreeV) -> bool
    decreases t,
{
    t is Node && (t == n || reaches_in(t.children(), n))
}

/// Whether the node `n` occurs in one of the elements of `cs`.
pub open spec fn reaches_in(cs: Seq<TreeV>, n: TreeV) -> bool
    decreases cs,
{
    cs.len() > 0 && (reaches(cs.last(), n) || reaches_in(cs.drop_last(), n))
}

/// `n` occurs in one of the elements of `cs` exactly when it occurs in
/// some element.
pub proof fn lemma_reaches_in_iff(cs: Seq<TreeV>, n: TreeV)
    ensures
        reaches_in(cs, n) <==> exists|i: int| 0 <= i < cs.len() && #[trigger] reaches(cs[i], n),
    decreases cs.len(),
{
    if cs.len() > 0 {
        lemma_reaches_in_iff(cs.drop_last(), n);
        if reaches_in(cs, n) {
            if reaches(cs.last(), n) {
                assert(reaches(cs[cs.len() - 1], n));
            } else {
                let i = choose|i: int|
                    0 <= i < cs.drop_last().len() && #[trigger] reaches(cs.drop_last()[i], n);
                assert(reaches(cs[i], n));
            }
        }
        if exists|i: int| 0 <= i < cs.len() && #[trigger] reaches(cs[i], n) {
            let i = choose|i: int| 0 <= i < cs.len() && #[trigger] reaches(cs[i], n);
            if i == cs.len() - 1 {
                assert(reaches(cs.last(), n));
            } else {
                assert(reaches(cs.drop_last()[i], n));
            }
        }
    }
}

/// The node elements of a child sequence are nodes, each occurring in it.
pub proof fn lemma_nodes_of_props(cs: Seq<TreeV>)
    ensures
        TreeV::nodes_of(cs).len() <= cs.len(),
        forall|i: int| 0 <= i < TreeV::nodes_of(cs).len() ==> (#[trigger] TreeV::nodes_of(cs)[i])
            is Node,
        forall|i: int| 0 <= i < TreeV::nodes_of(cs).len() ==> exists|j: int|
            0 <= j < cs.len() && cs[j] == #[trigger] TreeV::nodes_of(cs)[i],
    decreases cs.len(),
{
    if cs.len() > 0 {
        lemma_nodes_of_props(cs.drop_last());
        assert forall|i: int| 0 <= i < TreeV::nodes_of(cs).len() implies exists|j: int|
            0 <= j < cs.len() && cs[j] == #[trigger] TreeV::nodes_of(cs)[i] by {
            if i < TreeV::nodes_of(cs.drop_last()).len() {
                let j = choose|j: int|
                    0 <= j < cs.drop_last().len() && cs.drop_last()[j] == TreeV::nodes_of(
                        cs.drop_last(),
                    )[i];
                assert(cs[j] == TreeV::nodes_of(cs)[i]);
            } else {
                assert(cs[cs.len() - 1] == TreeV::nodes_of(cs)[i]);
            }
        }
    }
}

/// The node elements of a prefix are a prefix of the node elements.
pub proof fn lemma_nodes_of_take_prefix(cs: Seq<TreeV>, j: int)
    requires
        0 <= j <= cs.len(),
    ensures
        TreeV::nodes_of(cs.take(j)).len() <= TreeV::nodes_of(cs).len(),
        forall|i: int| 0 <= i < TreeV::nodes_of(cs.take(j)).len() ==> TreeV::nodes_of(cs.take(j))[i]
            == TreeV::nodes_of(cs)[i],
    decreases cs.len(),
{
    if j == cs.len() {
        assert(cs.take(j) =~= cs);
    } else {
        lemma_nodes_of_take_prefix(cs.drop_last(), j);
        assert(cs.drop_last().take(j) =~= cs.take(j));
    }
}

/// Resolving one more step at the end of a locator.
pub proof fn lemma_resolve_snoc(t: TreeV, path: Seq<usize>, x: usize)
    ensures
        spec_resolve(t, path.push(x)) == (match spec_resolve(t, path) {
            Some(u) => if (x as int) < u.node_children().len() {
                Some(u.node_children()[x as int])
            } else {
                None
            },
            None => None::<TreeV>,
        }),
    decreases path.len(),
{
    assert(path.push(x).len() == path.len() + 1);
    if path.len() == 0 {
        assert(path.push(x)[0] == x);
        assert(path.push(x).drop_first() =~= Seq::<usize>::empty());
        assert(spec_resolve(t, path) == Some(t));
        let ns = t.node_children();
        if (x as int) < ns.len() {
            assert(spec_resolve(ns[x as int], Seq::<usize>::empty()) == Some(ns[x as int]));
        }
    } else {
        assert(path.push(x)[0] == path[0]);
        let ns = t.node_children();
        if (path[0] as int) < ns.len() {
            lemma_resolve_snoc(ns[path[0] as int], path.drop_first(), x);
            assert(path.push(x).drop_first() =~= path.drop_first().push(x));
        }
    }
}

/// Whatever a locator resolves to occurs in the tree.
pub proof fn lemma_resolved_is_reachable(t: TreeV, path: Seq<usize>)
    requires
        t is Node,
        spec_resolve(t, path) is Some,
    ensures
        reaches(t, spec_resolve(t, path)->Some_0),
    decreases path.len(),
{
    let n = spec_resolve(t, path)->Some_0;
    if path.len() == 0 {
        assert(spec_resolve(t, path) == Some(t));
        assert(reaches(t, t));
    } else {
        let ns = t.node_children();
        let child = ns[path[0] as int];
        lemma_nodes_of_props(t.children());
        assert(child is Node);
        lemma_resolved_is_reachable(child, path.drop_first());
        let j = choose|j: int| 0 <= j < t.children().len() && t.children()[j] == child;
        assert(reaches(t.children()[j], n));
        lemma_reaches_in_iff(t.children(), n);
    }
}

/// The i-th node child of `t`, if it has that many.
#[verifier::loop_isolation(false)]
pub(crate) fn nth_node_child<'a>(t: &'a Tree, i: usize) -> (r: Option<&'a Tree>)
    ensures
        match r {
            Some(c) => (i as int) < t.v().node_children().len() && c.v()
                == t.v().node_children()[i as int],
            None => (i as int) >= t.v().node_children().len(),
        },
{
    match t {
        Tree::Token { .. } => None,
        Tree::Node { children, .. } => {
            let ghost cvs = Tree::vs(children@);
            proof {
                lemma_vs_index(children@);
            }
            let mut count: usize = 0;
            let mut j: usize = 0;
            while j < children.len()
                invariant
                    j <= children.len(),
                    count == TreeV::nodes_of(cvs.take(j as int)).len(),
                    count <= i,
                decreases children.len() - j,
            {
                proof {
                    assert(cvs.take(j + 1) =~= cvs.take(j as int).push(cvs[j as int]));
                    lemma_nodes_of_push(cvs.take(j as int), cvs[j as int]);
                }
                if children[j].is_node() {
                    if count == i {
                        proof {
                            lemma_nodes_of_take_prefix(cvs, j + 1);
                        }
                        return Some(&children[j]);
                    }
                    count = count + 1;
                }
                j = j + 1;
            }
            proof {
                assert(cvs.take(children@.len() as int) =~= cvs);
            }
            None
        },
    }
}

/// Resolves a locator against a root: repeatedly takes the i-th node
/// child; `None` as soon as an index is out of range, with no partial
/// result.
pub fn resolve_path(root: &Tree, path: &AstPath) -> (r: Option<Tree>)
    ensures
        match r {
            Some(t) => spec_resolve(root.v(), path@) == Some(t.v()),
            None => spec_resolve(root.v(), path@) is None,
        },
{
    let mut current: &Tree = root;
    let mut k: usize = 0;
    proof {
        assert(path@.skip(0) =~= path@);
    }
    while k < path.indices.len()
        invariant
            k <= path.indices@.len(),
            spec_resolve(root.v(), path@) == spec_resolve(current.v(), path@.skip(k as int)),
        decreases path.indices@.len() - k,
    {
        proof {
            assert(path@.skip(k as int).len() > 0);
            assert(path@.skip(k as int)[0] == path@[k as int]);
        }
        match nth_node_child(current, path.indices[k]) {
            Some(child) => {
                proof {
                    assert(path@.skip(k as int).drop_first() =~= path@.skip(k + 1));
                }
                current = child;
            },
            None => {
                return None;
            },
        }
        k = k + 1;
    }
    proof {
        assert(path@.skip(path@.len() as int) =~= Seq::<usize>::empty());
    }
    Some(current.clone())
}

/// Finds the locator of `node` below `root` by structural equality, the
/// leftmost occurrence first. `None` exactly when `node` occurs nowhere
/// in `root`.
#[verifier::loop_isolation(false)]
pub fn path_from_root(root: &Tree, node: &Tree) -> (r: Option<AstPath>)
    ensures
        match r {
            Some(p) => spec_resolve(root.v(), p@) == Some(node.v()),
            None => !reaches(root.v(), node.v()),
        },
    decreases root,
{
    if tree_eq(root, node) {
        if root.is_node() {
            return Some(AstPath { indices: Vec::new() });
        }
        return None;
    }
    match root {
        Tree::Token { .. } => None,
        Tree::Node { children, .. } => {
            let ghost cvs = Tree::vs(children@);
            proof {
                lemma_vs_index(children@);
            }
            let mut count: usize = 0;
            let mut j: usize = 0;
            while j < children.len()
                invariant
                    j <= children.len(),
                    count <= j,
                    count == TreeV::nodes_of(cvs.take(j as int)).len(),
                    forall|i: int| 0 <= i < j ==> !reaches(cvs[i], node.v()),
                decreases children.len() - j,
            {
                proof {
                    assert(cvs.take(j + 1) =~= cvs.take(j as int).push(cvs[j as int]));
                    lemma_nodes_of_push(cvs.take(j as int), cvs[j as int]);
                }
                if children[j].is_node() {
                    match path_from_root(&children[j], node) {
                        Some(mut p) => {
                            proof {
                                lemma_nodes_of_take_prefix(cvs, j + 1);
                            }
                            let ghost sub = p@;
                            p.indices.insert(0, count);
                            proof {
                                assert(p@ =~= seq![count].add(sub));
                                assert(p@.drop_first() =~= sub);
                                assert(root.v().node_children()[count as int] == cvs[j as int]);
                            }
                            return Some(p);
                        },
                        None => {
                            count = count + 1;
                        },
                    }
                } else {
                    proof {
                        assert(!reaches(cvs[j as int], node.v()));
                    }
                }
                j = j + 1;
            }
            proof {
                assert forall|i: int| 0 <= i < root.v().children().len() implies !reaches(
                    root.v().children()[i],
                    node.v(),
                ) by {
                    assert(root.v().children()[i] == cvs[i]);
                }
                lemma_reaches_in_iff(root.v().children(), node.v());
            }
            None
        },
    }
}

/// One entry of a breadcrumb chain: a locator together with the element
/// it resolved to.
#[derive(Debug)]
pub struct IndexedNode {
    pub index: AstPath,
    pub node: Tree,
}

/// Copies a vector of indices.
fn copy_indices(v: &Vec<usize>) -> (r: Vec<usize>)
    ensures
        r@ == v@,
{
    let mut r: Vec<usize> = Vec::new();
    let mut k: usize = 0;
    while k < v.len()
        invariant
            k <= v@.len(),
            r@ == v@.take(k as int),
        decreases v@.len() - k,
    {
        r.push(v[k]);
        proof {
            assert(v@.take(k + 1) =~= v@.take(k as int).push(v@[k as int]));
        }
        k = k + 1;
    }
    proof {
        assert(v@.take(v@.len() as int) =~= v@);
    }
    r
}

/// The chain from the root towards the position `path` addresses: one
/// entry per resolvable prefix of `path`, the root (empty prefix) first.
/// Stops at the first index that does not resolve and returns the
/// successfully resolved prefix.
pub fn collect_path(root: Tree, path: &AstPath) -> (r: Vec<IndexedNode>)
    ensures
        1 <= r@.len() <= path@.len() + 1,
        forall|k: int| 0 <= k < r@.len() ==> (#[trigger] r@[k].index@) == path@.take(k),
        forall|k: int| 0 <= k < r@.len() ==> spec_resolve(root.v(), path@.take(k)) == Some(
            #[trigger] r@[k].node.v(),
        ),
        r@.len() <= path@.len() ==> spec_resolve(root.v(), path@.take(r@.len() as int)) is None,
{
    let mut out: Vec<IndexedNode> = Vec::new();
    let mut prefix: Vec<usize> = Vec::new();
    proof {
        assert(path@.take(0) =~= Seq::<usize>::empty());
    }
    out.push(IndexedNode { index: AstPath { indices: Vec::new() }, node: root.clone() });
    let mut current: &Tree = &root;
    let mut k: usize = 0;
    while k < path.indices.len()
        invariant
            k <= path.indices@.len(),
            out@.len() == k + 1,
            prefix@ == path@.take(k as int),
            spec_resolve(root.v(), path@.take(k as int)) == Some(current.v()),
            forall|i: int| 0 <= i < out@.len() ==> (#[trigger] out@[i].index@) == path@.take(i),
            forall|i: int| 0 <= i < out@.len() ==> spec_resolve(root.v(), path@.take(i)) == Some(
                #[trigger] out@[i].node.v(),
            ),
        decreases path.indices@.len() - k,
    {
        proof {
            lemma_resolve_snoc(root.v(), path@.take(k as int), path@[k as int]);
            assert(path@.take(k as int).push(path@[k as int]) =~= path@.take(k + 1));
        }
        match nth_node_child(current, path.indices[k]) {
            Some(child) => {
                prefix.push(path.indices[k]);
                let entry_indices = copy_indices(&prefix);
                let node_clone = child.clone();
                let ghost entry_node_v = node_clone.v();
                let ghost prev_out = out@;
                out.push(IndexedNode { index: AstPath { indices: entry_indices }, node: node_clone });
                proof {
                    assert(spec_resolve(root.v(), path@.take(k + 1)) == Some(child.v()));
                    assert forall|i: int| 0 <= i < out@.len() implies spec_resolve(
                        root.v(),
                        path@.take(i),
                    ) == Some(#[trigger] out@[i].node.v()) by {
                        if i < prev_out.len() {
                            assert(out@[i] == prev_out[i]);
                            assert(spec_resolve(root.v(), path@.take(i)) == Some(
                                prev_out[i].node.v(),
                            ));
                        } else {
                            assert(out@[i].node.v() == entry_node_v);
                            assert(entry_node_v == child.v());
                        }
                    }
                }
                current = child;
            },
            None => {
                return out;
            },
        }
        k = k + 1;
    }
    out
}

} // verus!
