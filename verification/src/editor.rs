//! The structural editor: replaces the subtree at a locator with a fresh
//! fragment, rebuilding only the spine from the edited node up to the
//! root. Every subtree off that spine is carried over unchanged.

use vstd::prelude::*;

use crate::path::lemma_nodes_of_take_prefix;
use crate::path::spec_resolve;
use crate::path::AstPath;
use crate::store::TreeStore;
use crate::tree::lemma_nodes_of_push;
use crate::tree::lemma_vs_index;
use crate::tree::SyntaxKind;
use crate::tree::Tree;
use crate::tree::TreeV;

verus! {

/// Why an edit did not happen.
#[derive(Clone, Copy, PartialEq, Eq, Structural, Debug)]
pub enum EditError {
    /// The replacement text did not yield a fragment of the expected
    /// shape; the edit is a no-op and the tree is left unchanged.
    ExtractionFailed,
    /// The locator does not resolve against the current root.
    NotInTree,
    /// The addressed node is the root itself, which this operation does
    /// not replace.
    RootReplacementUnsupported,
}

/// The child sequence with its i-th node element replaced by `x`;
/// unchanged when it has no i-th node element.
pub open spec fn replace_nth(cs: Seq<TreeV>, i: int, x: TreeV) -> Seq<TreeV>
    decreases cs,
{
    if cs.len() == 0 {
        cs
    } else if cs.last() is Node && TreeV::nodes_of(cs.drop_last()).len() == i {
        cs.drop_last().push(x)
    } else {
        replace_nth(cs.drop_last(), i, x).push(cs.last())
    }
}

/// The tree with the subtree at `path` replaced by `x`: each node on the
/// spine is rebuilt with one child replaced, everything else reused.
/// `None` exactly when `path` does not resolve.
pub open spec fn spec_replace(t: TreeV, path: Seq<usize>, x: TreeV) -> Option<TreeV>
    decreases path.len(),
{
    if path.len() == 0 {
        Some(x)
    } else {
        match t {
            TreeV::Node { kind, children } => {
                let ns = TreeV::nodes_of(children);
                if (path[0] as int) < ns.len() {
                    match spec_replace(ns[path[0] as int], path.drop_first(), x) {
                        Some(sub) => Some(
                            TreeV::Node {
                                kind,
                                children: replace_nth(children, path[0] as int, sub),
                            },
                        ),
                        None => None,
                    }
                } else {
                    None
                }
            },
            TreeV::Token { .. } => None,
        }
    }
}

/// Replacing the i-th node element updates position i of the node
/// elements and touches nothing else.
pub proof fn lemma_replace_nth_nodes(cs: Seq<TreeV>, i: int, x: TreeV)
    requires
        0 <= i < TreeV::nodes_of(cs).len(),
        x is Node,
    ensures
        TreeV::nodes_of(replace_nth(cs, i, x)) == TreeV::nodes_of(cs).update(i, x),
    decreases cs.len(),
{
    let d = cs.drop_last();
    assert(cs.len() > 0);
    assert(TreeV::nodes_of(cs) == if cs.last() is Node {
        TreeV::nodes_of(d).push(cs.last())
    } else {
        TreeV::nodes_of(d)
    }) by {
        assert(cs =~= d.push(cs.last()));
        lemma_nodes_of_push(d, cs.last());
    }
    if cs.last() is Node && TreeV::nodes_of(d).len() == i {
        lemma_nodes_of_push(d, x);
        assert(TreeV::nodes_of(d).push(x) =~= TreeV::nodes_of(cs).update(i, x));
    } else {
        lemma_replace_nth_nodes(d, i, x);
        lemma_nodes_of_push(replace_nth(d, i, x), cs.last());
        if cs.last() is Node {
            assert(TreeV::nodes_of(d).update(i, x).push(cs.last()) =~= TreeV::nodes_of(cs).update(
                i,
                x,
            ));
        }
    }
}

/// Replacing the i-th node element is an update at its element position.
pub proof fn lemma_replace_nth_at_elem(cs: Seq<TreeV>, i: int, x: TreeV, j: int)
    requires
        0 <= j < cs.len(),
        cs[j] is Node,
        TreeV::nodes_of(cs.take(j)).len() == i,
    ensures
        replace_nth(cs, i, x) == cs.update(j, x),
    decreases cs.len(),
{
    let d = cs.drop_last();
    assert(cs.take(j + 1) =~= cs.take(j).push(cs[j]));
    lemma_nodes_of_push(cs.take(j), cs[j]);
    if j == cs.len() - 1 {
        assert(cs.take(j) =~= d);
        assert(d.push(x) =~= cs.update(j, x));
    } else {
        assert(d.take(j) =~= cs.take(j));
        assert(d.take(j + 1) =~= cs.take(j + 1));
        lemma_nodes_of_take_prefix(d, j + 1);
        assert(TreeV::nodes_of(d).len() >= i + 1);
        lemma_replace_nth_at_elem(d, i, x, j);
        assert(d.update(j, x).push(cs.last()) =~= cs.update(j, x));
    }
}

/// A successful replacement with a node fragment yields a node.
pub proof fn lemma_replace_some_is_node(t: TreeV, path: Seq<usize>, x: TreeV)
    requires
        x is Node,
        spec_replace(t, path, x) is Some,
    ensures
        spec_replace(t, path, x)->Some_0 is Node,
    decreases path.len(),
{
}

/// The element index of the i-th node element of `children`.
#[verifier::loop_isolation(false)]
fn find_node_elem(children: &Vec<Tree>, i: usize) -> (r: Option<usize>)
    ensures
        match r {
            Some(j) => {
                let cvs = Tree::vs(children@);
                &&& (j as int) < cvs.len()
                &&& cvs[j as int] is Node
                &&& TreeV::nodes_of(cvs.take(j as int)).len() == i
                &&& (i as int) < TreeV::nodes_of(cvs).len()
                &&& TreeV::nodes_of(cvs)[i as int] == cvs[j as int]
            },
            None => (i as int) >= TreeV::nodes_of(Tree::vs(children@)).len(),
        },
{
    let ghost cvs = Tree::vs(children@);
    proof {
        lemma_vs_index(children@);
    }
    let mut count: usize = 0;
    let mut j: usize = 0;
    while j < children.len()
        invariant
            j <= children.len(),
            count == TreeV::nodes_of(cvs.take(j as int)).len(),
            count <= i,
        decreases children.len() - j,
    {
        proof {
            assert(cvs.take(j + 1) =~= cvs.take(j as int).push(cvs[j as int]));
            lemma_nodes_of_push(cvs.take(j as int), cvs[j as int]);
        }
        if children[j].is_node() {
            if count == i {
                proof {
                    lemma_nodes_of_take_prefix(cvs, j + 1);
                }
                return Some(j);
            }
            count = count + 1;
        }
        j = j + 1;
    }
    proof {
        assert(cvs.take(children@.len() as int) =~= cvs);
    }
    None
}

/// Rebuilds one spine level: the children of `children`, with the element
/// at `j` replaced by `sub`, everything else carried over unchanged.
#[verifier::loop_isolation(false)]
fn rebuild_children(children: &Vec<Tree>, j: usize, sub: Tree) -> (out: Vec<Tree>)
    requires
        (j as int) < children@.len(),
    ensures
        Tree::vs(out@) == Tree::vs(children@).update(j as int, sub.v()),
{
    let ghost cvs = Tree::vs(children@);
    let ghost subv = sub.v();
    proof {
        lemma_vs_index(children@);
    }
    let len = children.len();
    let mut out: Vec<Tree> = Vec::new();
    let mut m: usize = 0;
    while m < j
        invariant
            m <= j <= children@.len(),
            out@.len() == m,
            forall|i: int| 0 <= i < m ==> #[trigger] out@[i].v() == cvs[i],
        decreases j - m,
    {
        out.push(children[m].clone());
        m = m + 1;
    }
    out.push(sub);
    proof {
        assert(j < len);
    }
    m = j + 1;
    while m < children.len()
        invariant
            j < m <= children@.len(),
            out@.len() == m,
            forall|i: int| 0 <= i < m && i != j as int ==> #[trigger] out@[i].v() == cvs[i],
            out@[j as int].v() == subv,
        decreases children.len() - m,
    {
        out.push(children[m].clone());
        m = m + 1;
    }
    proof {
        lemma_vs_index(out@);
        assert(Tree::vs(out@) =~= cvs.update(j as int, subv));
    }
    out
}

/// Replaces the subtree addressed by `path[pos..]` below `t` with `new`.
#[verifier::loop_isolation(false)]
fn replace_at(t: &Tree, path: &Vec<usize>, pos: usize, new: Tree) -> (r: Result<Tree, EditError>)
    requires
        pos <= path@.len(),
    ensures
        match r {
            Ok(u) => spec_replace(t.v(), path@.skip(pos as int), new.v()) == Some(u.v()),
            Err(e) => e == EditError::NotInTree && spec_replace(
                t.v(),
                path@.skip(pos as int),
                new.v(),
            ) is None,
        },
    decreases path@.len() - pos,
{
    if pos == path.len() {
        proof {
            assert(path@.skip(pos as int) =~= Seq::<usize>::empty());
        }
        return Ok(new);
    }
    proof {
        assert(path@.skip(pos as int).len() > 0);
        assert(path@.skip(pos as int)[0] == path@[pos as int]);
    }
    match t {
        Tree::Token { .. } => Err(EditError::NotInTree),
        Tree::Node { kind, children } => {
            let ghost cvs = Tree::vs(children@);
            proof {
                lemma_vs_index(children@);
            }
            match find_node_elem(children, path[pos]) {
                Some(j) => {
                    proof {
                        assert(path@.skip(pos as int).drop_first() =~= path@.skip(pos + 1));
                    }
                    match replace_at(&children[j], path, pos + 1, new) {
                        Ok(sub) => {
                            let ghost subv = sub.v();
                            proof {
                                lemma_replace_nth_at_elem(
                                    cvs,
                                    path@[pos as int] as int,
                                    subv,
                                    j as int,
                                );
                            }
                            let out = rebuild_children(children, j, sub);
                            proof {
                                assert(t.v() == (TreeV::Node { kind: *kind, children: cvs }));
                            }
                            Ok(Tree::Node { kind: *kind, children: out })
                        },
                        Err(e) => Err(e),
                    }
                },
                None => Err(EditError::NotInTree),
            }
        },
    }
}

/// Produces a new root equal to `root` except that the subtree addressed
/// by `old_path` is `new`: the spine is rebuilt, all sibling subtrees are
/// carried over unchanged. The root itself cannot be replaced this way.
pub fn replace_expr(root: &Tree, old_path: &AstPath, new: Tree) -> (r: Result<Tree, EditError>)
    ensures
        match r {
            Ok(u) => old_path@.len() > 0 && spec_replace(root.v(), old_path@, new.v()) == Some(
                u.v(),
            ),
            Err(e) => match e {
                EditError::RootReplacementUnsupported => old_path@.len() == 0,
                EditError::NotInTree => old_path@.len() > 0 && spec_replace(
                    root.v(),
                    old_path@,
                    new.v(),
                ) is None,
                EditError::ExtractionFailed => false,
            },
        },
{
    if old_path.indices.len() == 0 {
        return Err(EditError::RootReplacementUnsupported);
    }
    proof {
        assert(old_path@.skip(0) =~= old_path@);
    }
    replace_at(root, &old_path.indices, 0, new)
}

/// The kinds that stand for a whole expression; a freshly parsed document
/// is expected to carry one of these below its source-file node.
pub open spec fn spec_is_expr_kind(k: SyntaxKind) -> bool {
    k == SyntaxKind::AttrSet || k == SyntaxKind::Str || k == SyntaxKind::Reference || k
        == SyntaxKind::Lambda
}

/// Whether `k` tags a whole expression.
pub fn is_expr_kind(k: SyntaxKind) -> (r: bool)
    ensures
        r == spec_is_expr_kind(k),
{
    k == SyntaxKind::AttrSet || k == SyntaxKind::Str || k == SyntaxKind::Reference || k
        == SyntaxKind::Lambda
}

/// The first expression node among `cs`, if any.
pub open spec fn first_expr(cs: Seq<TreeV>) -> Option<TreeV>
    decreases cs.len(),
{
    if cs.len() == 0 {
        None
    } else if cs[0] is Node && spec_is_expr_kind(cs[0].kind()) {
        Some(cs[0])
    } else {
        first_expr(cs.drop_first())
    }
}

/// The top-level expression of a freshly parsed document: the first
/// expression node below its source-file node, if the document has one.
pub open spec fn spec_extract(doc: TreeV) -> Option<TreeV> {
    match doc {
        TreeV::Node { kind: SyntaxKind::SourceFile, children } => first_expr(children),
        _ => None,
    }
}

/// Takes the top-level expression out of a freshly parsed document;
/// `None` when the document holds no expression of the expected shape.
#[verifier::loop_isolation(false)]
pub fn extract_toplevel_expr(doc: &Tree) -> (r: Option<Tree>)
    ensures
        match r {
            Some(t) => spec_extract(doc.v()) == Some(t.v()),
            None => spec_extract(doc.v()) is None,
        },
{
    match doc {
        Tree::Node { kind: SyntaxKind::SourceFile, children } => {
            let ghost cvs = Tree::vs(children@);
            proof {
                lemma_vs_index(children@);
                assert(doc.v() == (TreeV::Node { kind: SyntaxKind::SourceFile, children: cvs }));
                assert(cvs.skip(0) =~= cvs);
            }
            let mut j: usize = 0;
            while j < children.len()
                invariant
                    j <= children@.len(),
                    first_expr(cvs) == first_expr(cvs.skip(j as int)),
                decreases children@.len() - j,
            {
                proof {
                    assert(cvs.skip(j as int)[0] == cvs[j as int]);
                }
                if children[j].is_node() && is_expr_kind(children[j].kind()) {
                    return Some(children[j].clone());
                }
                proof {
                    assert(cvs.skip(j as int).drop_first() =~= cvs.skip(j + 1));
                }
                j = j + 1;
            }
            proof {
                assert(cvs.skip(children@.len() as int) =~= Seq::<TreeV>::empty());
            }
            None
        },
        _ => None,
    }
}

/// The mathematical value of an optional fragment.
pub open spec fn opt_v(o: Option<Tree>) -> Option<TreeV> {
    match o {
        Some(t) => Some(t.v()),
        None => None,
    }
}

/// What an edit does to the stored root: a missing fragment or an
/// unresolvable locator leaves the store unchanged and names the error;
/// otherwise the store holds the rebuilt root.
pub open spec fn edit_outcome(
    before: TreeV,
    after: TreeV,
    path: Seq<usize>,
    extracted: Option<TreeV>,
    r: Result<(), EditError>,
) -> bool {
    match extracted {
        None => r == Err::<(), EditError>(EditError::ExtractionFailed) && after == before,
        Some(frag) => if path.len() == 0 {
            r == Err::<(), EditError>(EditError::RootReplacementUnsupported) && after == before
        } else {
            match spec_replace(before, path, frag) {
                Some(new_root) => r == Ok::<(), EditError>(()) && after == new_root,
                None => r == Err::<(), EditError>(EditError::NotInTree) && after == before,
            }
        },
    }
}

/// Commits a replacement fragment at a locator: on success the store
/// holds the rebuilt root; on any failure the store is left unchanged.
pub fn commit_replacement(
    store: &mut TreeStore,
    node_path: &AstPath,
    extracted: Option<Tree>,
) -> (r: Result<(), EditError>)
    ensures
        edit_outcome(old(store)@, final(store)@, node_path@, opt_v(extracted), r),
{
    match extracted {
        None => Err(EditError::ExtractionFailed),
        Some(frag) => {
            if node_path.indices.len() == 0 {
                return Err(EditError::RootReplacementUnsupported);
            }
            match replace_expr(store.read(), node_path, frag) {
                Ok(new_root) => {
                    store.replace(new_root);
                    Ok(())
                },
                Err(e) => Err(e),
            }
        },
    }
}

/// Replaces the subtree at `node_path` with the fragment the caller's
/// `extract_new_node` takes out of the freshly parsed document `new_doc`.
/// When the extractor yields nothing the edit is abandoned and the tree
/// is left unchanged.
pub fn update_node_value<F: Fn(&Tree) -> Option<Tree>>(
    store: &mut TreeStore,
    node_path: &AstPath,
    new_doc: &Tree,
    extract_new_node: F,
) -> (r: Result<(), EditError>)
    requires
        call_requires(extract_new_node, (new_doc,)),
    ensures
        exists|o: Option<Tree>|
            #[trigger] call_ensures(extract_new_node, (new_doc,), o) && edit_outcome(
                old(store)@,
                final(store)@,
                node_path@,
                opt_v(o),
                r,
            ),
{
    let extracted = extract_new_node(new_doc);
    let ghost o = extracted;
    let r = commit_replacement(store, node_path, extracted);
    proof {
        assert(call_ensures(extract_new_node, (new_doc,), o) && edit_outcome(
            old(store)@,
            store@,
            node_path@,
            opt_v(o),
            r,
        ));
    }
    r
}

/// An edit whose extraction failed is a no-op: the stored tree keeps its
/// structural value and the caller sees the recoverable error.
pub proof fn lemma_noop_on_extraction_failure(
    before: TreeV,
    after: TreeV,
    path: Seq<usize>,
    r: Result<(), EditError>,
)
    requires
        edit_outcome(before, after, path, None, r),
    ensures
        after == before,
        r == Err::<(), EditError>(EditError::ExtractionFailed),
{
}

/// After a successful replacement, the edited locator resolves to the
/// new fragment.
pub proof fn lemma_replace_resolves_to_new(t: TreeV, path: Seq<usize>, x: TreeV)
    requires
        x is Node,
        spec_replace(t, path, x) is Some,
    ensures
        spec_resolve(spec_replace(t, path, x)->Some_0, path) == Some(x),
    decreases path.len(),
{
    if path.len() == 0 {
        assert(spec_resolve(x, path) == Some(x));
    } else {
        let p0 = path[0] as int;
        let children = t->Node_children;
        let ns = TreeV::nodes_of(children);
        let sub = spec_replace(ns[p0], path.drop_first(), x)->Some_0;
        lemma_replace_some_is_node(ns[p0], path.drop_first(), x);
        lemma_replace_nth_nodes(children, p0, sub);
        let new_t = spec_replace(t, path, x)->Some_0;
        assert(new_t.node_children() == ns.update(p0, sub));
        lemma_replace_resolves_to_new(ns[p0], path.drop_first(), x);
    }
}

/// After a successful replacement, every subtree whose locator neither
/// lies on the spine (a prefix of `path`) nor below the edited node (an
/// extension of `path`) resolves to the same structural value as before.
pub proof fn lemma_untouched_subtrees(t: TreeV, path: Seq<usize>, x: TreeV, q: Seq<usize>)
    requires
        x is Node,
        spec_replace(t, path, x) is Some,
        !path.is_prefix_of(q),
        !q.is_prefix_of(path),
    ensures
        spec_resolve(spec_replace(t, path, x)->Some_0, q) == spec_resolve(t, q),
    decreases path.len(),
{
    if path.len() == 0 {
        assert(path =~= q.take(0));
        assert(false);
    }
    if q.len() == 0 {
        assert(q =~= path.take(0));
        assert(false);
    }
    let p0 = path[0] as int;
    let q0 = q[0] as int;
    let children = t->Node_children;
    let ns = TreeV::nodes_of(children);
    let sub = spec_replace(ns[p0], path.drop_first(), x)->Some_0;
    lemma_replace_some_is_node(ns[p0], path.drop_first(), x);
    lemma_replace_nth_nodes(children, p0, sub);
    let new_t = spec_replace(t, path, x)->Some_0;
    assert(new_t->Node_children == replace_nth(children, p0, sub));
    assert(new_t.node_children() == ns.update(p0, sub));
    if q0 == p0 {
        assert(!path.drop_first().is_prefix_of(q.drop_first())) by {
            if path.drop_first().is_prefix_of(q.drop_first()) {
                assert(path =~= q.take(path.len() as int)) by {
                    assert forall|i: int| 0 <= i < path.len() implies path[i] == q.take(
                        path.len() as int,
                    )[i] by {
                        if i > 0 {
                            assert(path.drop_first()[i - 1] == q.drop_first().take(
                                path.drop_first().len() as int,
                            )[i - 1]);
                        }
                    }
                }
            }
        }
        assert(!q.drop_first().is_prefix_of(path.drop_first())) by {
            if q.drop_first().is_prefix_of(path.drop_first()) {
                assert(q =~= path.take(q.len() as int)) by {
                    assert forall|i: int| 0 <= i < q.len() implies q[i] == path.take(
                        q.len() as int,
                    )[i] by {
                        if i > 0 {
                            assert(q.drop_first()[i - 1] == path.drop_first().take(
                                q.drop_first().len() as int,
                            )[i - 1]);
                        }
                    }
                }
            }
        }
        lemma_untouched_subtrees(ns[p0], path.drop_first(), x, q.drop_first());
        assert(spec_resolve(new_t, q) == spec_resolve(sub, q.drop_first()));
        assert(spec_resolve(t, q) == spec_resolve(ns[p0], q.drop_first()));
    } else {
        if q0 < ns.len() {
            assert(new_t.node_children()[q0] == ns[q0]);
        }
    }
}

} // verus!
