use declaro::editor::commit_replacement;
use declaro::editor::extract_toplevel_expr;
use declaro::editor::replace_expr;
use declaro::editor::update_node_value;
use declaro::editor::EditError;
use declaro::path::collect_path;
use declaro::path::path_from_root;
use declaro::path::resolve_path;
use declaro::path::AstPath;
use declaro::store::TreeStore;
use declaro::tree::tree_eq;
use declaro::tree::SyntaxKind;
use declaro::tree::Tree;

fn tok(kind: SyntaxKind, text: &str) -> Tree {
    Tree::token(kind, text.to_owned())
}

fn str_node(content: &str) -> Tree {
    Tree::node(
        SyntaxKind::Str,
        vec![
            tok(SyntaxKind::Symbol, "\""),
            tok(SyntaxKind::StringFragment, content),
            tok(SyntaxKind::Symbol, "\""),
        ],
    )
}

fn binding(name: &str, value: Tree) -> Tree {
    let attrpath = Tree::node(SyntaxKind::Attrpath, vec![tok(SyntaxKind::Ident, name)]);
    Tree::node(
        SyntaxKind::AttrpathValue,
        vec![
            attrpath,
            tok(SyntaxKind::Space, " "),
            tok(SyntaxKind::Symbol, "="),
            tok(SyntaxKind::Space, " "),
            value,
            tok(SyntaxKind::Symbol, ";"),
        ],
    )
}

/// The tree of `{ a = "x"; b = "y"; }` below a source-file node.
fn sample_root() -> Tree {
    let set = Tree::node(
        SyntaxKind::AttrSet,
        vec![
            tok(SyntaxKind::Symbol, "{"),
            tok(SyntaxKind::Space, " "),
            binding("a", str_node("x")),
            tok(SyntaxKind::Space, " "),
            binding("b", str_node("y")),
            tok(SyntaxKind::Space, " "),
            tok(SyntaxKind::Symbol, "}"),
        ],
    );
    Tree::node(SyntaxKind::SourceFile, vec![set])
}

fn path_of(indices: Vec<usize>) -> AstPath {
    AstPath { indices }
}

/// A freshly parsed replacement document holding one string expression.
fn doc_with_string(content: &str) -> Tree {
    Tree::node(SyntaxKind::SourceFile, vec![str_node(content)])
}

#[test]
fn sample_tree_text() {
    assert_eq!(sample_root().text(), "{ a = \"x\"; b = \"y\"; }");
}

#[test]
fn structural_equality_ignores_identity() {
    assert!(tree_eq(&sample_root(), &sample_root()));
    assert!(!tree_eq(&sample_root(), &doc_with_string("x")));
    assert!(!tree_eq(&str_node("x"), &str_node("y")));
}

#[test]
fn path_from_root_finds_second_value() {
    let root = sample_root();
    let target = str_node("y");
    let p = path_from_root(&root, &target).unwrap();
    assert_eq!(p.indices, vec![0, 1, 1]);
    let resolved = resolve_path(&root, &p).unwrap();
    assert_eq!(resolved.text(), "\"y\"");
    assert!(tree_eq(&resolved, &target));
}

#[test]
fn path_round_trip_for_reachable_nodes() {
    let root = sample_root();
    for target in [
        sample_root(),
        binding("a", str_node("x")),
        str_node("x"),
        Tree::node(SyntaxKind::Attrpath, vec![tok(SyntaxKind::Ident, "b")]),
    ] {
        let p = path_from_root(&root, &target).unwrap();
        let resolved = resolve_path(&root, &p).unwrap();
        assert!(tree_eq(&resolved, &target));
    }
}

#[test]
fn path_from_root_fails_for_foreign_node() {
    let root = sample_root();
    assert!(path_from_root(&root, &str_node("zzz")).is_none());
}

#[test]
fn resolve_out_of_range_is_none() {
    let root = sample_root();
    let stale = AstPath::parse("9").unwrap();
    assert!(resolve_path(&root, &stale).is_none());
    assert!(resolve_path(&root, &path_of(vec![0, 2])).is_none());
}

#[test]
fn collect_path_lists_every_prefix() {
    let root = sample_root();
    let chain = collect_path(root, &path_of(vec![0, 1, 1]));
    assert_eq!(chain.len(), 4);
    assert!(chain[0].index.indices.is_empty());
    assert_eq!(chain[1].index.indices, vec![0]);
    assert_eq!(chain[2].index.indices, vec![0, 1]);
    assert_eq!(chain[3].index.indices, vec![0, 1, 1]);
    assert_eq!(chain[3].node.text(), "\"y\"");
}

#[test]
fn collect_path_stops_at_first_unresolvable_index() {
    let root = sample_root();
    let chain = collect_path(root, &path_of(vec![0, 5, 1]));
    assert_eq!(chain.len(), 2);
    assert_eq!(chain[1].index.indices, vec![0]);
}

#[test]
fn store_read_sees_latest_replacement() {
    let mut store = TreeStore::new(sample_root());
    assert_eq!(store.read().text(), "{ a = \"x\"; b = \"y\"; }");
    store.replace(doc_with_string("q"));
    assert_eq!(store.read().text(), "\"q\"");
}

#[test]
fn replace_rebuilds_spine_and_keeps_siblings() {
    let mut store = TreeStore::new(sample_root());
    let doc = doc_with_string("z");
    let r = update_node_value(&mut store, &path_of(vec![0, 0, 1]), &doc, extract_toplevel_expr);
    assert_eq!(r, Ok(()));
    assert_eq!(store.read().text(), "{ a = \"z\"; b = \"y\"; }");
    // the untouched sibling subtree keeps its structural value
    let b = resolve_path(store.read(), &path_of(vec![0, 1])).unwrap();
    assert!(tree_eq(&b, &binding("b", str_node("y"))));
}

#[test]
fn failing_extraction_leaves_tree_unchanged() {
    let mut store = TreeStore::new(sample_root());
    // the typed text `"` parses into a document with no expression below
    // its source-file node, so the extractor yields nothing
    let bad_doc = Tree::node(
        SyntaxKind::SourceFile,
        vec![Tree::node(
            SyntaxKind::Error,
            vec![tok(SyntaxKind::Symbol, "\"")],
        )],
    );
    let r = update_node_value(&mut store, &path_of(vec![0, 0, 1]), &bad_doc, extract_toplevel_expr);
    assert_eq!(r, Err(EditError::ExtractionFailed));
    assert_eq!(store.read().text(), "{ a = \"x\"; b = \"y\"; }");
}

#[test]
fn replacing_the_root_is_unsupported() {
    let mut store = TreeStore::new(sample_root());
    let r = commit_replacement(&mut store, &AstPath::root(), Some(str_node("z")));
    assert_eq!(r, Err(EditError::RootReplacementUnsupported));
    assert_eq!(store.read().text(), "{ a = \"x\"; b = \"y\"; }");
}

#[test]
fn stale_locator_edit_reports_not_in_tree() {
    let mut store = TreeStore::new(sample_root());
    let r = commit_replacement(&mut store, &path_of(vec![0, 9]), Some(str_node("z")));
    assert_eq!(r, Err(EditError::NotInTree));
    assert_eq!(store.read().text(), "{ a = \"x\"; b = \"y\"; }");
}

#[test]
fn replace_expr_produces_new_root_without_committing() {
    let root = sample_root();
    let new_root = replace_expr(&root, &path_of(vec![0, 1, 1]), str_node("w")).unwrap();
    assert_eq!(new_root.text(), "{ a = \"x\"; b = \"w\"; }");
    assert_eq!(root.text(), "{ a = \"x\"; b = \"y\"; }");
}

#[test]
fn extract_takes_first_expression() {
    let doc = Tree::node(
        SyntaxKind::SourceFile,
        vec![
            tok(SyntaxKind::Space, " "),
            Tree::node(SyntaxKind::Error, vec![tok(SyntaxKind::Symbol, "!")]),
            str_node("v"),
        ],
    );
    let got = extract_toplevel_expr(&doc).unwrap();
    assert!(tree_eq(&got, &str_node("v")));
}

#[test]
fn extract_requires_source_file() {
    assert!(extract_toplevel_expr(&str_node("v")).is_none());
    let empty_doc = Tree::node(SyntaxKind::SourceFile, vec![]);
    assert!(extract_toplevel_expr(&empty_doc).is_none());
}
