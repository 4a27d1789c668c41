use declaro::path::AstPath;
use declaro::scope::get_bindings_in_scope;
use declaro::scope::Analysis;
use declaro::scope::Scope;
use declaro::scope::ScopeGraph;
use declaro::scope::SourceMap;

fn names(list: &[&str]) -> Vec<String> {
    list.iter().map(|s| (*s).to_owned()).collect()
}

fn path_of(indices: Vec<usize>) -> AstPath {
    AstPath { indices }
}

/// Scope 0 is the outermost; scope 2 (a lambda parameter `x`) sits
/// inside scope 1 (an attribute set binding `y`).
fn sample_graph() -> ScopeGraph {
    ScopeGraph {
        scopes: vec![
            Scope { parent: None, names: names(&["outer1", "outer2"]) },
            Scope { parent: Some(0), names: names(&["y"]) },
            Scope { parent: Some(1), names: names(&["x"]) },
        ],
    }
}

fn sample_analysis() -> Analysis {
    Analysis {
        source_map: SourceMap {
            entries: vec![(path_of(vec![0, 0, 1, 0]), 0), (path_of(vec![0]), 1)],
        },
        scope_for_expr: vec![Some(2), None],
        scopes: sample_graph(),
    }
}

#[test]
fn wf_holds_for_sample_graph() {
    assert!(sample_graph().check_wf());
}

#[test]
fn wf_rejects_forward_parent() {
    let g = ScopeGraph {
        scopes: vec![Scope { parent: Some(1), names: names(&["a"]) }, Scope {
            parent: None,
            names: vec![],
        }],
    };
    assert!(!g.check_wf());
}

#[test]
fn bindings_walk_innermost_first() {
    let g = sample_graph();
    assert_eq!(g.bindings_in_scope(2), names(&["x", "y", "outer1", "outer2"]));
    assert_eq!(g.bindings_in_scope(1), names(&["y", "outer1", "outer2"]));
    assert_eq!(g.bindings_in_scope(0), names(&["outer1", "outer2"]));
}

#[test]
fn shadowed_names_are_not_deduplicated() {
    let g = ScopeGraph {
        scopes: vec![
            Scope { parent: None, names: names(&["x", "z"]) },
            Scope { parent: Some(0), names: names(&["x"]) },
        ],
    };
    assert_eq!(g.bindings_in_scope(1), names(&["x", "x", "z"]));
}

#[test]
fn query_resolves_position_to_scope_chain() {
    let analysis = sample_analysis();
    let got = get_bindings_in_scope(&path_of(vec![0, 0, 1, 0]), &analysis);
    assert_eq!(got, Some(names(&["x", "y", "outer1", "outer2"])));
}

#[test]
fn query_without_semantic_entity_is_none() {
    let analysis = sample_analysis();
    assert_eq!(get_bindings_in_scope(&path_of(vec![9, 9]), &analysis), None);
}

#[test]
fn query_without_scope_for_expression_is_none() {
    let analysis = sample_analysis();
    assert_eq!(get_bindings_in_scope(&path_of(vec![0]), &analysis), None);
}
