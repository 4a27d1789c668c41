//! The immutable syntax tree: nodes with a kind tag and ordered children,
//! leaf tokens with a kind tag and text. Structural equality, not identity,
//! is what all position finding goes by.

use vstd::prelude::*;

verus! {

/// The closed set of syntax categories a tree element can carry.
///
/// The first group tags interior nodes, the second tags leaf tokens.
#[derive(Clone, Copy, PartialEq, Eq, Structural, Debug)]
pub enum SyntaxKind {
    SourceFile,
    AttrSet,
    AttrpathValue,
    Attrpath,
    Str,
    Reference,
    Lambda,
    Param,
    Pat,
    PatField,
    Error,
    Ident,
    StringFragment,
    Symbol,
    Space,
}

/// An immutable tree element: an interior node or a leaf token.
#[derive(Debug)]
pub enum Tree {
    Node { kind: SyntaxKind, children: Vec<Tree> },
    Token { kind: SyntaxKind, text: String },
}

/// The mathematical value of a tree element: the same shape over `Seq`.
#[verifier::ext_equal]
pub enum TreeV {
    Node { kind: SyntaxKind, children: Seq<TreeV> },
    Token { kind: SyntaxKind, text: Seq<char> },
}

impl Tree {
    /// The mathematical value of this element.
    pub open spec fn v(self) -> TreeV
        decreases self,
    {
        match self {
            Tree::Token { kind, text } => TreeV::Token { kind, text: text@ },
            Tree::Node { kind, children } => TreeV::Node {
                kind,
                children: Tree::vs(children@),
            },
        }
    }

    /// The mathematical values of a sequence of elements.
    pub open spec fn vs(cs: Seq<Tree>) -> Seq<TreeV>
        decreases cs,
    {
        if cs.len() == 0 {
            Seq::empty()
        } else {
            Tree::vs(cs.drop_last()).push(cs.last().v())
        }
    }
}

/// `vs` maps the sequence elementwise.
pub proof fn lemma_vs_index(cs: Seq<Tree>)
    ensures
        Tree::vs(cs).len() == cs.len(),
        forall|i: int| 0 <= i < cs.len() ==> Tree::vs(cs)[i] == cs[i].v(),
    decreases cs.len(),
{
    if cs.len() > 0 {
        lemma_vs_index(cs.drop_last());
    }
}

impl TreeV {
    /// The kind tag of this element.
    pub open spec fn kind(self) -> SyntaxKind {
        match self {
            TreeV::Node { kind, .. } => kind,
            TreeV::Token { kind, .. } => kind,
        }
    }

    /// The children of this element; a token has none.
    pub open spec fn children(self) -> Seq<TreeV> {
        match self {
            TreeV::Node { children, .. } => children,
            TreeV::Token { .. } => Seq::empty(),
        }
    }

    /// The node elements of a child sequence, in order, tokens skipped.
    /// Locator indices count these, not raw child positions.
    pub open spec fn nodes_of(cs: Seq<TreeV>) -> Seq<TreeV>
        decreases cs,
    {
        if cs.len() == 0 {
            Seq::empty()
        } else if cs.last() is Node {
            TreeV::nodes_of(cs.drop_last()).push(cs.last())
        } else {
            TreeV::nodes_of(cs.drop_last())
        }
    }

    /// The node children of this element, in order.
    pub open spec fn node_children(self) -> Seq<TreeV> {
        TreeV::nodes_of(self.children())
    }

    /// The source text of this element: a token's text, or the
    /// concatenated text of a node's children.
    pub open spec fn text(self) -> Seq<char>
        decreases self,
    {
        match self {
            TreeV::Token { text, .. } => text,
            TreeV::Node { children, .. } => TreeV::texts(children),
        }
    }

    /// The concatenated text of a sequence of elements.
    pub open spec fn texts(cs: Seq<TreeV>) -> Seq<char>
        decreases cs,
    {
        if cs.len() == 0 {
            Seq::empty()
        } else {
            TreeV::texts(cs.drop_last()) + cs.last().text()
        }
    }
}

/// Extending a child sequence by one element extends its node elements
/// by that element exactly when it is a node.
pub proof fn lemma_nodes_of_push(cs: Seq<TreeV>, x: TreeV)
    ensures
        TreeV::nodes_of(cs.push(x)) == if x is Node {
            TreeV::nodes_of(cs).push(x)
        } else {
            TreeV::nodes_of(cs)
        },
{
    assert(cs.push(x).drop_last() =~= cs);
}

impl Tree {
    /// The kind tag of this element.
    pub fn kind(&self) -> (k: SyntaxKind)
        ensures
            k == self.v().kind(),
    {
        match self {
            Tree::Node { kind, .. } => *kind,
            Tree::Token { kind, .. } => *kind,
        }
    }

    /// Whether this element is an interior node rather than a token.
    pub fn is_node(&self) -> (r: bool)
        ensures
            r == (self.v() is Node),
    {
        match self {
            Tree::Node { .. } => true,
            Tree::Token { .. } => false,
        }
    }

    /// Builds an interior node.
    pub fn node(kind: SyntaxKind, children: Vec<Tree>) -> (t: Tree)
        ensures
            t.v() == (TreeV::Node { kind, children: Tree::vs(children@) }),
    {
        Tree::Node { kind, children }
    }

    /// Builds a leaf token.
    pub fn token(kind: SyntaxKind, text: String) -> (t: Tree)
        ensures
            t.v() == (TreeV::Token { kind, text: text@ }),
    {
        Tree::Token { kind, text }
    }

    /// The source text of this element.
    #[verifier::loop_isolation(false)]
    pub fn text(&self) -> (r: String)
        ensures
            r@ == self.v().text(),
        decreases self,
    {
        match self {
            Tree::Token { text, .. } => text.clone(),
            Tree::Node { children, .. } => {
                let ghost cvs = Tree::vs(children@);
                proof {
                    lemma_vs_index(children@);
                }
                let mut out = String::new();
                let mut j: usize = 0;
                while j < children.len()
                    invariant
                        j <= children.len(),
                        cvs == Tree::vs(children@),
                        cvs.len() == children@.len(),
                        forall|i: int| 0 <= i < children@.len() ==> cvs[i] == children@[i].v(),
                        out@ == TreeV::texts(cvs.take(j as int)),
                    decreases children.len() - j,
                {
                    let part = children[j].text();
                    out.append(part.as_str());
                    proof {
                        assert(cvs.take(j + 1).drop_last() =~= cvs.take(j as int));
                        assert(TreeV::texts(cvs.take(j + 1)) == TreeV::texts(cvs.take(j as int))
                            + cvs[j as int].text());
                    }
                    j = j + 1;
                }
                proof {
                    assert(cvs.take(children@.len() as int) =~= cvs);
                }
                out
            },
        }
    }
}

/// Structural equality: two elements are equal exactly when their kinds,
/// text and children are recursively equal.
#[verifier::loop_isolation(false)]
pub fn tree_eq(a: &Tree, b: &Tree) -> (r: bool)
    ensures
        r == (a.v() == b.v()),
    decreases a,
{
    match (a, b) {
        (Tree::Token { kind: ka, text: ta }, Tree::Token { kind: kb, text: tb }) => {
            proof {
                assert(a.v() == (TreeV::Token { kind: *ka, text: ta@ }));
                assert(b.v() == (TreeV::Token { kind: *kb, text: tb@ }));
            }
            *ka == *kb && ta.eq(tb)
        },
        (Tree::Node { kind: ka, children: ca }, Tree::Node { kind: kb, children: cb }) => {
            proof {
                lemma_vs_index(ca@);
                lemma_vs_index(cb@);
                assert(a.v() == (TreeV::Node { kind: *ka, children: Tree::vs(ca@) }));
                assert(b.v() == (TreeV::Node { kind: *kb, children: Tree::vs(cb@) }));
            }
            if *ka != *kb || ca.len() != cb.len() {
                return false;
            }
            let mut j: usize = 0;
            while j < ca.len()
                invariant
                    j <= ca.len(),
                    ca@.len() == cb@.len(),
                    Tree::vs(ca@).len() == ca@.len(),
                    Tree::vs(cb@).len() == cb@.len(),
                    forall|i: int| 0 <= i < ca@.len() ==> Tree::vs(ca@)[i] == ca@[i].v(),
                    forall|i: int| 0 <= i < cb@.len() ==> Tree::vs(cb@)[i] == cb@[i].v(),
                    forall|i: int| 0 <= i < j ==> ca@[i].v() == cb@[i].v(),
                decreases ca.len() - j,
            {
                if !tree_eq(&ca[j], &cb[j]) {
                    proof {
                        assert(Tree::vs(ca@)[j as int] != Tree::vs(cb@)[j as int]);
                    }
                    return false;
                }
                j = j + 1;
            }
            proof {
                assert(Tree::vs(ca@) =~= Tree::vs(cb@));
            }
            true
        },
        _ => false,
    }
}

impl Clone for Tree {
    /// A clone has the same mathematical value.
    #[verifier::loop_isolation(false)]
    fn clone(&self) -> (res: Self)
        ensures
            res.v() == self.v(),
        decreases self,
    {
        match self {
            Tree::Token { kind, text } => Tree::Token { kind: *kind, text: text.clone() },
            Tree::Node { kind, children } => {
                proof {
                    lemma_vs_index(children@);
                }
                let mut cs: Vec<Tree> = Vec::new();
                let mut j: usize = 0;
                while j < children.len()
                    invariant
                        j <= children.len(),
                        cs@.len() == j,
                        forall|i: int| 0 <= i < children@.len() ==> Tree::vs(children@)[i]
                            == children@[i].v(),
                        Tree::vs(children@).len() == children@.len(),
                        forall|i: int| 0 <= i < j ==> cs@[i].v() == children@[i].v(),
                    decreases children.len() - j,
                {
                    cs.push(children[j].clone());
                    j = j + 1;
                }
                proof {
                    lemma_vs_index(cs@);
                    assert(Tree::vs(cs@) =~= Tree::vs(children@));
                }
                Tree::Node { kind: *kind, children: cs }
            },
        }
    }
}

} // verus!
