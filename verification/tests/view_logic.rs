use declaro::cell::DerivationCell;
use declaro::path::collect_path;
use declaro::path::AstPath;
use declaro::render::attr_set_entries;
use declaro::render::binding_label;
use declaro::render::can_use_non_fallback_ui;
use declaro::render::choose_editor;
use declaro::render::decide_link_or_element;
use declaro::render::lambda_parts;
use declaro::render::nav_entries;
use declaro::render::reference_name;
use declaro::render::replacement_template;
use declaro::render::string_value;
use declaro::render::transition_for;
use declaro::render::EditorKind;
use declaro::render::Transition;
use declaro::store::TreeStore;
use declaro::tree::SyntaxKind;
use declaro::tree::Tree;

fn tok(kind: SyntaxKind, text: &str) -> Tree {
    Tree::token(kind, text.to_owned())
}

fn str_node(content: &str) -> Tree {
    Tree::node(
        SyntaxKind::Str,
        vec![
            tok(SyntaxKind::Symbol, "\""),
            tok(SyntaxKind::StringFragment, content),
            tok(SyntaxKind::Symbol, "\""),
        ],
    )
}

fn binding(name: &str, value: Tree) -> Tree {
    let attrpath = Tree::node(SyntaxKind::Attrpath, vec![tok(SyntaxKind::Ident, name)]);
    Tree::node(
        SyntaxKind::AttrpathValue,
        vec![
            attrpath,
            tok(SyntaxKind::Space, " "),
            tok(SyntaxKind::Symbol, "="),
            tok(SyntaxKind::Space, " "),
            value,
            tok(SyntaxKind::Symbol, ";"),
        ],
    )
}

fn attr_set() -> Tree {
    Tree::node(
        SyntaxKind::AttrSet,
        vec![
            tok(SyntaxKind::Symbol, "{"),
            tok(SyntaxKind::Space, " "),
            binding("a", str_node("x")),
            tok(SyntaxKind::Space, " "),
            binding("b", str_node("y")),
            tok(SyntaxKind::Space, " "),
            tok(SyntaxKind::Symbol, "}"),
        ],
    )
}

fn sample_root() -> Tree {
    Tree::node(SyntaxKind::SourceFile, vec![attr_set()])
}

fn path_of(indices: Vec<usize>) -> AstPath {
    AstPath { indices }
}

#[test]
fn dedicated_editor_exists_for_expression_kinds() {
    assert!(can_use_non_fallback_ui(&attr_set()));
    assert!(can_use_non_fallback_ui(&str_node("x")));
    assert!(!can_use_non_fallback_ui(&tok(SyntaxKind::Ident, "x")));
    assert!(!can_use_non_fallback_ui(&Tree::node(SyntaxKind::Error, vec![])));
}

#[test]
fn editor_dispatch_follows_kind() {
    assert_eq!(choose_editor(&attr_set(), false), EditorKind::AttributeSet);
    assert_eq!(choose_editor(&str_node("x"), false), EditorKind::StringEditor);
    assert_eq!(
        choose_editor(&Tree::node(SyntaxKind::Reference, vec![tok(SyntaxKind::Ident, "v")]), false),
        EditorKind::ReferenceEditor
    );
    assert_eq!(choose_editor(&Tree::node(SyntaxKind::Error, vec![]), false), EditorKind::Fallback);
    assert_eq!(choose_editor(&attr_set(), true), EditorKind::Fallback);
}

#[test]
fn deep_nodes_become_links() {
    let set = attr_set();
    assert!(!decide_link_or_element(&set, 0));
    assert!(!decide_link_or_element(&set, 1));
    assert!(decide_link_or_element(&set, 2));
}

#[test]
fn transitions_follow_nesting_depth() {
    let shallow = path_of(vec![0]);
    let deep = path_of(vec![0, 1, 1]);
    assert_eq!(transition_for(&deep, &shallow), Transition::SlideRight);
    assert_eq!(transition_for(&shallow, &deep), Transition::SlideLeft);
    assert_eq!(transition_for(&deep, &deep), Transition::Fade);
}

#[test]
fn string_value_joins_fragments() {
    assert_eq!(string_value(&str_node("hello")), "hello");
    let split = Tree::node(
        SyntaxKind::Str,
        vec![
            tok(SyntaxKind::Symbol, "\""),
            tok(SyntaxKind::StringFragment, "he"),
            tok(SyntaxKind::StringFragment, "llo"),
            tok(SyntaxKind::Symbol, "\""),
        ],
    );
    assert_eq!(string_value(&split), "hello");
}

#[test]
fn attr_entries_carry_labels_and_value_locators() {
    let entries = attr_set_entries(&attr_set(), &path_of(vec![0]));
    assert_eq!(entries.len(), 2);
    assert_eq!(entries[0].label, "a");
    assert_eq!(entries[0].value_path.indices, vec![0, 0, 1]);
    assert_eq!(entries[1].label, "b");
    assert_eq!(entries[1].value_path.indices, vec![0, 1, 1]);
}

#[test]
fn binding_without_attrpath_gets_stand_in_label() {
    let bare = Tree::node(SyntaxKind::AttrpathValue, vec![str_node("x")]);
    assert_eq!(binding_label(&bare), "unknown");
}

#[test]
fn breadcrumb_lists_root_and_bindings() {
    let chain = collect_path(sample_root(), &path_of(vec![0, 1, 1]));
    let crumbs = nav_entries(&chain);
    assert_eq!(crumbs.len(), 2);
    assert_eq!(crumbs[0].label, "root");
    assert!(crumbs[0].target.indices.is_empty());
    assert_eq!(crumbs[1].label, "b");
    assert_eq!(crumbs[1].target.indices, vec![0, 1, 1]);
}

#[test]
fn lambda_parts_lists_pattern_fields() {
    let pat = Tree::node(
        SyntaxKind::Pat,
        vec![
            tok(SyntaxKind::Symbol, "{"),
            Tree::node(SyntaxKind::PatField, vec![tok(SyntaxKind::Ident, "a")]),
            tok(SyntaxKind::Symbol, ","),
            Tree::node(SyntaxKind::PatField, vec![tok(SyntaxKind::Ident, "b")]),
            tok(SyntaxKind::Symbol, "}"),
        ],
    );
    let lambda = Tree::node(
        SyntaxKind::Lambda,
        vec![
            Tree::node(SyntaxKind::Param, vec![pat]),
            tok(SyntaxKind::Symbol, ":"),
            str_node("body"),
        ],
    );
    let parts = lambda_parts(&lambda).unwrap();
    assert_eq!(parts.params, vec!["a".to_owned(), "b".to_owned()]);
    assert_eq!(parts.body_index, 1);
}

#[test]
fn lambda_parts_rejects_wrong_shape() {
    assert!(lambda_parts(&attr_set()).is_none());
    let bodyless = Tree::node(
        SyntaxKind::Lambda,
        vec![Tree::node(SyntaxKind::Param, vec![Tree::node(SyntaxKind::Pat, vec![])])],
    );
    assert!(lambda_parts(&bodyless).is_none());
}

#[test]
fn menu_templates_match_editor_kinds() {
    assert_eq!(replacement_template(EditorKind::AttributeSet), Some("{}".to_owned()));
    assert_eq!(replacement_template(EditorKind::Lambda), Some("{}:{}".to_owned()));
    assert_eq!(replacement_template(EditorKind::StringEditor), Some("\"\"".to_owned()));
    assert_eq!(replacement_template(EditorKind::ReferenceEditor), Some("ref".to_owned()));
    assert_eq!(replacement_template(EditorKind::Fallback), None);
}

#[test]
fn reference_name_reads_identifier_token() {
    let r = Tree::node(SyntaxKind::Reference, vec![tok(SyntaxKind::Ident, "greeting")]);
    assert_eq!(reference_name(&r), Some("greeting".to_owned()));
    let empty = Tree::node(SyntaxKind::Reference, vec![tok(SyntaxKind::Space, " ")]);
    assert_eq!(reference_name(&empty), None);
}

#[test]
fn derivation_cell_recomputes_on_refresh() {
    let mut cell = DerivationCell::new(|| 1 + 1);
    assert_eq!(*cell.read(), 2);
    cell.refresh(|| 5);
    assert_eq!(*cell.read(), 5);
}

#[test]
fn derivation_cell_tracks_store_text() {
    let mut store = TreeStore::new(sample_root());
    let mut cell = DerivationCell::new(|| store.read().text());
    assert_eq!(*cell.read(), "{ a = \"x\"; b = \"y\"; }");
    store.replace(str_node("q"));
    cell.refresh(|| store.read().text());
    assert_eq!(*cell.read(), "\"q\"");
}
