//! What the presentation layer needs decided about a tree: which editor
//! fits a node, what an attribute set or a lambda shows, the breadcrumb
//! entries for a position, and how navigation between two positions is
//! animated.

use vstd::prelude::*;

use crate::path::nth_node_child;
use crate::path::AstPath;
use crate::path::IndexedNode;
use crate::tree::SyntaxKind;
use crate::tree::Tree;
use crate::tree::TreeV;

verus! {

/// Whether a node at this nesting depth is shown as a link to its own
/// page rather than inline.
pub fn decide_link_or_element(_node: &Tree, nesting_level: u16) -> (r: bool)
    ensures
        r == (nesting_level > 1),
{
    nesting_level > 1
}

/// The kinds for which a dedicated editor exists.
pub open spec fn spec_can_use_non_fallback_ui(t: TreeV) -> bool {
    t is Node && (t.kind() == SyntaxKind::AttrSet || t.kind() == SyntaxKind::Lambda || t.kind()
        == SyntaxKind::Str || t.kind() == SyntaxKind::Reference)
}

/// Whether a dedicated editor exists for this node.
pub fn can_use_non_fallback_ui(node: &Tree) -> (r: bool)
    ensures
        r == spec_can_use_non_fallback_ui(node.v()),
{
    let k = node.kind();
    node.is_node() && (k == SyntaxKind::AttrSet || k == SyntaxKind::Lambda || k == SyntaxKind::Str
        || k == SyntaxKind::Reference)
}

/// The editor the expression view dispatches to.
#[derive(Clone, Copy, PartialEq, Eq, Structural, Debug)]
pub enum EditorKind {
    AttributeSet,
    Lambda,
    StringEditor,
    ReferenceEditor,
    Fallback,
}

/// Which editor a node gets: the dedicated one for its kind, unless the
/// fallback editor was asked for or no dedicated one exists.
pub fn choose_editor(node: &Tree, fallback: bool) -> (r: EditorKind)
    ensures
        fallback ==> r == EditorKind::Fallback,
        !fallback ==> r == (if node.v() is Node && node.v().kind() == SyntaxKind::AttrSet {
            EditorKind::AttributeSet
        } else if node.v() is Node && node.v().kind() == SyntaxKind::Lambda {
            EditorKind::Lambda
        } else if node.v() is Node && node.v().kind() == SyntaxKind::Str {
            EditorKind::StringEditor
        } else if node.v() is Node && node.v().kind() == SyntaxKind::Reference {
            EditorKind::ReferenceEditor
        } else {
            EditorKind::Fallback
        }),
{
    if fallback || !node.is_node() {
        return EditorKind::Fallback;
    }
    let k = node.kind();
    if k == SyntaxKind::AttrSet {
        EditorKind::AttributeSet
    } else if k == SyntaxKind::Lambda {
        EditorKind::Lambda
    } else if k == SyntaxKind::Str {
        EditorKind::StringEditor
    } else if k == SyntaxKind::Reference {
        EditorKind::ReferenceEditor
    } else {
        EditorKind::Fallback
    }
}

/// The replacement source text the expression-type menu submits for a
/// chosen editor kind; the fallback entry submits nothing.
pub fn replacement_template(kind: EditorKind) -> (r: Option<String>)
    ensures
        kind == EditorKind::AttributeSet ==> (r matches Some(t) && t@ == "{}"@),
        kind == EditorKind::Lambda ==> (r matches Some(t) && t@ == "{}:{}"@),
        kind == EditorKind::StringEditor ==> (r matches Some(t) && t@ == "\"\""@),
        kind == EditorKind::ReferenceEditor ==> (r matches Some(t) && t@ == "ref"@),
        kind == EditorKind::Fallback ==> r is None,
{
    match kind {
        EditorKind::AttributeSet => Some("{}".to_owned()),
        EditorKind::Lambda => Some("{}:{}".to_owned()),
        EditorKind::StringEditor => Some("\"\"".to_owned()),
        EditorKind::ReferenceEditor => Some("ref".to_owned()),
        EditorKind::Fallback => None,
    }
}

/// The name a reference node carries: its first identifier token.
pub open spec fn spec_reference_name(cs: Seq<TreeV>) -> Option<Seq<char>>
    decreases cs.len(),
{
    if cs.len() == 0 {
        None
    } else if cs[0] matches TreeV::Token { kind: SyntaxKind::Ident, .. } {
        Some(cs[0]->Token_text)
    } else {
        spec_reference_name(cs.drop_first())
    }
}

/// The name a reference node carries, shown as the selected option.
#[verifier::loop_isolation(false)]
pub fn reference_name(node: &Tree) -> (r: Option<String>)
    ensures
        match r {
            Some(t) => spec_reference_name(node.v().children()) == Some(t@),
            None => spec_reference_name(node.v().children()) is None,
        },
{
    match node {
        Tree::Token { .. } => {
            proof {
                assert(node.v().children() =~= Seq::<TreeV>::empty());
            }
            None
        },
        Tree::Node { children, .. } => {
            let ghost cvs = Tree::vs(children@);
            proof {
                crate::tree::lemma_vs_index(children@);
                assert(cvs.skip(0) =~= cvs);
            }
            let mut j: usize = 0;
            while j < children.len()
                invariant
                    j <= children@.len(),
                    spec_reference_name(cvs) == spec_reference_name(cvs.skip(j as int)),
                decreases children@.len() - j,
            {
                proof {
                    assert(cvs.skip(j as int)[0] == cvs[j as int]);
                }
                match &children[j] {
                    Tree::Token { kind: SyntaxKind::Ident, text } => {
                        return Some(text.clone());
                    },
                    _ => {},
                }
                proof {
                    assert(cvs.skip(j as int).drop_first() =~= cvs.skip(j + 1));
                }
                j = j + 1;
            }
            proof {
                assert(cvs.skip(children@.len() as int) =~= Seq::<TreeV>::empty());
            }
            None
        },
    }
}

/// How a page change is animated.
#[derive(Clone, Copy, PartialEq, Eq, Structural, Debug)]
pub enum Transition {
    SlideRight,
    SlideLeft,
    Fade,
}

/// The transition between two addressed positions: sliding right when
/// navigating up, left when navigating down, fading between siblings.
pub fn transition_for(from: &AstPath, to: &AstPath) -> (r: Transition)
    ensures
        from@.len() > to@.len() ==> r == Transition::SlideRight,
        from@.len() < to@.len() ==> r == Transition::SlideLeft,
        from@.len() == to@.len() ==> r == Transition::Fade,
{
    if from.indices.len() > to.indices.len() {
        Transition::SlideRight
    } else if from.indices.len() < to.indices.len() {
        Transition::SlideLeft
    } else {
        Transition::Fade
    }
}

/// The fragment text of a string node's children, concatenated.
pub open spec fn fragment_text(cs: Seq<TreeV>) -> Seq<char>
    decreases cs,
{
    if cs.len() == 0 {
        Seq::empty()
    } else {
        fragment_text(cs.drop_last()) + (match cs.last() {
            TreeV::Token { kind: SyntaxKind::StringFragment, text } => text,
            _ => Seq::empty(),
        })
    }
}

/// The value a string node shows: its fragment parts joined, quotes and
/// interpolation left out.
pub open spec fn spec_string_value(t: TreeV) -> Seq<char> {
    match t {
        TreeV::Node { children, .. } => fragment_text(children),
        TreeV::Token { .. } => Seq::empty(),
    }
}

/// The value a string node shows.
#[verifier::loop_isolation(false)]
pub fn string_value(node: &Tree) -> (r: String)
    ensures
        r@ == spec_string_value(node.v()),
{
    match node {
        Tree::Token { .. } => String::new(),
        Tree::Node { children, .. } => {
            let ghost cvs = Tree::vs(children@);
            proof {
                crate::tree::lemma_vs_index(children@);
            }
            let mut out = String::new();
            let mut j: usize = 0;
            while j < children.len()
                invariant
                    j <= children@.len(),
                    out@ == fragment_text(cvs.take(j as int)),
                decreases children@.len() - j,
            {
                match &children[j] {
                    Tree::Token { kind: SyntaxKind::StringFragment, text } => {
                        out.append(text.as_str());
                    },
                    _ => {},
                }
                proof {
                    assert(cvs.take(j + 1).drop_last() =~= cvs.take(j as int));
                    assert(cvs.take(j + 1).last() == cvs[j as int]);
                    assert(cvs[j as int] == children@[j as int].v());
                }
                j = j + 1;
            }
            proof {
                assert(cvs.take(children@.len() as int) =~= cvs);
            }
            out
        },
    }
}

/// The label an attribute binding shows: the text of its attribute path,
/// or a stand-in where the binding has none.
pub open spec fn spec_label(b: TreeV) -> Seq<char> {
    if b.node_children().len() >= 1 && b.node_children()[0].kind() == SyntaxKind::Attrpath {
        b.node_children()[0].text()
    } else {
        "unknown"@
    }
}

/// The label an attribute binding shows.
pub fn binding_label(b: &Tree) -> (r: String)
    ensures
        r@ == spec_label(b.v()),
{
    match nth_node_child(b, 0) {
        Some(c) => {
            if c.kind() == SyntaxKind::Attrpath {
                c.text()
            } else {
                "unknown".to_owned()
            }
        },
        None => "unknown".to_owned(),
    }
}

/// One attribute binding as shown: its label and the locator of its
/// value, which is the binding's second node child.
pub struct AttrEntry {
    pub label: String,
    pub value_path: AstPath,
}

/// The entries an attribute set shows, one per attribute binding among
/// its node children, each with the locator of the binding's value below
/// `base`.
pub open spec fn spec_attr_entries(ns: Seq<TreeV>, base: Seq<usize>) -> Seq<
    (Seq<char>, Seq<usize>),
>
    decreases ns,
{
    if ns.len() == 0 {
        Seq::empty()
    } else {
        spec_attr_entries(ns.drop_last(), base) + (if ns.last() is Node && ns.last().kind()
            == SyntaxKind::AttrpathValue {
            seq![(spec_label(ns.last()), base.push((ns.len() - 1) as usize).push(1usize))]
        } else {
            Seq::empty()
        })
    }
}

/// The entries an attribute set shows.
#[verifier::loop_isolation(false)]
pub fn attr_set_entries(set_node: &Tree, base: &AstPath) -> (r: Vec<AttrEntry>)
    ensures
        r@.map_values(|e: AttrEntry| (e.label@, e.value_path@)) == spec_attr_entries(
            set_node.v().node_children(),
            base@,
        ),
{
    match set_node {
        Tree::Token { .. } => {
            let out: Vec<AttrEntry> = Vec::new();
            proof {
                assert(set_node.v().node_children() =~= Seq::<TreeV>::empty());
                assert(out@.map_values(|e: AttrEntry| (e.label@, e.value_path@)) =~= Seq::<
                    (Seq<char>, Seq<usize>),
                >::empty());
            }
            out
        },
        Tree::Node { children, .. } => {
            let ghost cvs = Tree::vs(children@);
            proof {
                crate::tree::lemma_vs_index(children@);
                assert(set_node.v().node_children() == TreeV::nodes_of(cvs));
                assert(cvs.take(0) =~= Seq::<TreeV>::empty());
            }
            let mut out: Vec<AttrEntry> = Vec::new();
            let mut count: usize = 0;
            let mut j: usize = 0;
            while j < children.len()
                invariant
                    j <= children@.len(),
                    count <= j,
                    count == TreeV::nodes_of(cvs.take(j as int)).len(),
                    out@.map_values(|e: AttrEntry| (e.label@, e.value_path@))
                        == spec_attr_entries(TreeV::nodes_of(cvs.take(j as int)), base@),
                decreases children@.len() - j,
            {
                let ghost ns = TreeV::nodes_of(cvs.take(j as int));
                proof {
                    assert(cvs.take(j + 1).drop_last() =~= cvs.take(j as int));
                    assert(cvs.take(j + 1).last() == cvs[j as int]);
                    crate::tree::lemma_nodes_of_push(cvs.take(j as int), cvs[j as int]);
                }
                if children[j].is_node() {
                    proof {
                        assert(TreeV::nodes_of(cvs.take(j + 1)) == ns.push(cvs[j as int]));
                        assert(ns.push(cvs[j as int]).drop_last() =~= ns);
                    }
                    if children[j].kind() == SyntaxKind::AttrpathValue {
                        let label = binding_label(&children[j]);
                        let mut value_path = base.clone();
                        value_path.indices.push(count);
                        value_path.indices.push(1);
                        let ghost prev = out@;
                        out.push(AttrEntry { label, value_path });
                        proof {
                            assert(out@.map_values(|e: AttrEntry| (e.label@, e.value_path@))
                                =~= prev.map_values(|e: AttrEntry| (e.label@, e.value_path@)).push(
                                (spec_label(cvs[j as int]), base@.push(count).push(1usize)),
                            ));
                            assert(spec_attr_entries(TreeV::nodes_of(cvs.take(j + 1)), base@)
                                =~= spec_attr_entries(ns, base@).push(
                                (spec_label(cvs[j as int]), base@.push(count).push(1usize)),
                            ));
                        }
                    } else {
                        proof {
                            assert(spec_attr_entries(TreeV::nodes_of(cvs.take(j + 1)), base@)
                                =~= spec_attr_entries(ns, base@));
                        }
                    }
                    count = count + 1;
                }
                j = j + 1;
            }
            proof {
                assert(cvs.take(children@.len() as int) =~= cvs);
            }
            out
        },
    }
}

/// One breadcrumb entry: a label and the locator it navigates to.
pub struct NavEntry {
    pub label: String,
    pub target: AstPath,
}

/// The locator-and-value chain a breadcrumb is computed from.
pub open spec fn chain_v(s: Seq<IndexedNode>) -> Seq<(Seq<usize>, TreeV)> {
    s.map_values(|e: IndexedNode| (e.index@, e.node.v()))
}

/// What one chain entry contributes to the breadcrumb: a binding links
/// to its value (its second node child), the source file links to the
/// root, everything else is skipped.
pub open spec fn spec_nav_entry(p: Seq<usize>, t: TreeV) -> Seq<(Seq<char>, Seq<usize>)> {
    if t is Node && t.kind() == SyntaxKind::AttrpathValue {
        seq![(spec_label(t), p.push(1usize))]
    } else if t is Node && t.kind() == SyntaxKind::SourceFile {
        seq![("root"@, p)]
    } else {
        Seq::empty()
    }
}

/// The breadcrumb entries of a chain, in order.
pub open spec fn spec_nav_entries(c: Seq<(Seq<usize>, TreeV)>) -> Seq<(Seq<char>, Seq<usize>)>
    decreases c,
{
    if c.len() == 0 {
        Seq::empty()
    } else {
        spec_nav_entries(c.drop_last()) + spec_nav_entry(c.last().0, c.last().1)
    }
}

/// The breadcrumb entries for a chain of resolved locators, as
/// `collect_path` produces it.
#[verifier::loop_isolation(false)]
pub fn nav_entries(nodes: &Vec<IndexedNode>) -> (r: Vec<NavEntry>)
    ensures
        r@.map_values(|e: NavEntry| (e.label@, e.target@)) == spec_nav_entries(chain_v(nodes@)),
{
    let ghost chain = chain_v(nodes@);
    let mut out: Vec<NavEntry> = Vec::new();
    proof {
        assert(chain.take(0) =~= Seq::<(Seq<usize>, TreeV)>::empty());
    }
    let mut j: usize = 0;
    while j < nodes.len()
        invariant
            j <= nodes@.len(),
            chain == chain_v(nodes@),
            chain.len() == nodes@.len(),
            out@.map_values(|e: NavEntry| (e.label@, e.target@)) == spec_nav_entries(
                chain.take(j as int),
            ),
        decreases nodes@.len() - j,
    {
        proof {
            assert(chain.take(j + 1).drop_last() =~= chain.take(j as int));
            assert(chain.take(j + 1).last() == chain[j as int]);
            assert(chain[j as int] == (nodes@[j as int].index@, nodes@[j as int].node.v()));
        }
        let entry = &nodes[j];
        if entry.node.is_node() && entry.node.kind() == SyntaxKind::AttrpathValue {
            let label = binding_label(&entry.node);
            let mut target = entry.index.clone();
            target.indices.push(1);
            let ghost prev = out@;
            out.push(NavEntry { label, target });
            proof {
                assert(out@.map_values(|e: NavEntry| (e.label@, e.target@)) =~= prev.map_values(
                    |e: NavEntry| (e.label@, e.target@),
                ).push((spec_label(chain[j as int].1), chain[j as int].0.push(1usize))));
                assert(spec_nav_entries(chain.take(j + 1)) =~= spec_nav_entries(
                    chain.take(j as int),
                ).push((spec_label(chain[j as int].1), chain[j as int].0.push(1usize))));
            }
        } else if entry.node.is_node() && entry.node.kind() == SyntaxKind::SourceFile {
            let label = "root".to_owned();
            let target = entry.index.clone();
            let ghost prev = out@;
            out.push(NavEntry { label, target });
            proof {
                assert(out@.map_values(|e: NavEntry| (e.label@, e.target@)) =~= prev.map_values(
                    |e: NavEntry| (e.label@, e.target@),
                ).push(("root"@, chain[j as int].0)));
                assert(spec_nav_entries(chain.take(j + 1)) =~= spec_nav_entries(
                    chain.take(j as int),
                ).push(("root"@, chain[j as int].0)));
            }
        } else {
            proof {
                assert(spec_nav_entries(chain.take(j + 1)) =~= spec_nav_entries(
                    chain.take(j as int),
                ));
            }
        }
        j = j + 1;
    }
    proof {
        assert(chain.take(nodes@.len() as int) =~= chain);
    }
    out
}

/// What a lambda shows: its parameter field names and where its body
/// stands among its node children.
pub struct LambdaParts {
    pub params: Vec<String>,
    pub body_index: usize,
}

/// The texts of the pattern fields among `ns`.
pub open spec fn spec_field_texts(ns: Seq<TreeV>) -> Seq<Seq<char>>
    decreases ns,
{
    if ns.len() == 0 {
        Seq::empty()
    } else {
        spec_field_texts(ns.drop_last()) + (if ns.last().kind() == SyntaxKind::PatField {
            seq![ns.last().text()]
        } else {
            Seq::empty()
        })
    }
}

/// The shape a lambda must have to be shown with the dedicated editor:
/// a parameter holding a pattern, and a body beside it.
pub open spec fn spec_lambda_shape_ok(t: TreeV) -> bool {
    &&& t is Node
    &&& t.kind() == SyntaxKind::Lambda
    &&& t.node_children().len() >= 2
    &&& t.node_children()[0].kind() == SyntaxKind::Param
    &&& t.node_children()[0].node_children().len() >= 1
    &&& t.node_children()[0].node_children()[0].kind() == SyntaxKind::Pat
}

/// The parameter names a well-shaped lambda shows.
pub open spec fn spec_lambda_params(t: TreeV) -> Seq<Seq<char>> {
    spec_field_texts(t.node_children()[0].node_children()[0].node_children())
}

/// Takes a lambda node apart: its parameter field names, and the
/// position of its body among its node children. `None` exactly when the
/// node does not have the expected lambda shape.
#[verifier::loop_isolation(false)]
pub fn lambda_parts(node: &Tree) -> (r: Option<LambdaParts>)
    ensures
        match r {
            Some(lp) => spec_lambda_shape_ok(node.v()) && lp.params@.map_values(|s: String| s@)
                == spec_lambda_params(node.v()) && lp.body_index == 1,
            None => !spec_lambda_shape_ok(node.v()),
        },
{
    if !node.is_node() || !(node.kind() == SyntaxKind::Lambda) {
        return None;
    }
    let param = match nth_node_child(node, 0) {
        Some(c) => c,
        None => {
            return None;
        },
    };
    match nth_node_child(node, 1) {
        Some(_) => {},
        None => {
            return None;
        },
    }
    if !(param.kind() == SyntaxKind::Param) {
        return None;
    }
    let pat = match nth_node_child(param, 0) {
        Some(c) => c,
        None => {
            return None;
        },
    };
    if !(pat.kind() == SyntaxKind::Pat) {
        return None;
    }
    let fields = match pat {
        Tree::Node { children, .. } => children,
        Tree::Token { .. } => {
            proof {
                crate::path::lemma_nodes_of_props(param.v().children());
                assert(false);
            }
            return None;
        },
    };
    let ghost cvs = Tree::vs(fields@);
    proof {
        crate::tree::lemma_vs_index(fields@);
        assert(pat.v().node_children() == TreeV::nodes_of(cvs));
        assert(cvs.take(0) =~= Seq::<TreeV>::empty());
    }
    let mut params: Vec<String> = Vec::new();
    let mut j: usize = 0;
    while j < fields.len()
        invariant
            j <= fields@.len(),
            params@.map_values(|s: String| s@) == spec_field_texts(
                TreeV::nodes_of(cvs.take(j as int)),
            ),
        decreases fields@.len() - j,
    {
        let ghost ns = TreeV::nodes_of(cvs.take(j as int));
        proof {
            assert(cvs.take(j + 1).drop_last() =~= cvs.take(j as int));
            assert(cvs.take(j + 1).last() == cvs[j as int]);
            crate::tree::lemma_nodes_of_push(cvs.take(j as int), cvs[j as int]);
        }
        if fields[j].is_node() {
            proof {
                assert(TreeV::nodes_of(cvs.take(j + 1)) == ns.push(cvs[j as int]));
                assert(ns.push(cvs[j as int]).drop_last() =~= ns);
            }
            if fields[j].kind() == SyntaxKind::PatField {
                let text = fields[j].text();
                let ghost prev = params@;
                params.push(text);
                proof {
                    assert(params@.map_values(|s: String| s@) =~= prev.map_values(
                        |s: String| s@,
                    ).push(cvs[j as int].text()));
                    assert(spec_field_texts(TreeV::nodes_of(cvs.take(j + 1)))
                        =~= spec_field_texts(ns).push(cvs[j as int].text()));
                }
            } else {
                proof {
                    assert(spec_field_texts(TreeV::nodes_of(cvs.take(j + 1)))
                        =~= spec_field_texts(ns));
                }
            }
        }
        j = j + 1;
    }
    proof {
        assert(cvs.take(fields@.len() as int) =~= cvs);
    }
    Some(LambdaParts { params, body_index: 1 })
}

} // verus!
