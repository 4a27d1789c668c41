//! The scope resolver: given a tree position, walks the enclosing lexical
//! scopes innermost first and collects every name defined along the way.
//! Names are not deduplicated across levels: an inner binding can shadow
//! and duplicate an outer name.

use vstd::prelude::*;

use crate::path::AstPath;

verus! {

/// One lexical scope: the names it defines directly, and its enclosing
/// scope, if any. Scopes are referred to by their index in the graph.
pub struct Scope {
    pub parent: Option<usize>,
    pub names: Vec<String>,
}

/// The mathematical value of a scope.
pub struct ScopeV {
    pub parent: Option<usize>,
    pub names: Seq<Seq<char>>,
}

impl View for Scope {
    type V = ScopeV;

    open spec fn view(&self) -> ScopeV {
        ScopeV { parent: self.parent, names: self.names@.map_values(|s: String| s@) }
    }
}

/// The scope graph the semantic engine hands over: a tree of scopes
/// mirroring lexical nesting, each scope pointing at its parent.
pub struct ScopeGraph {
    pub scopes: Vec<Scope>,
}

impl View for ScopeGraph {
    type V = Seq<ScopeV>;

    open spec fn view(&self) -> Seq<ScopeV> {
        self.scopes@.map_values(|s: Scope| s@)
    }
}

/// Well-formedness: every parent stands earlier in the graph than its
/// child, so ancestor chains are finite.
pub open spec fn graph_wf(g: Seq<ScopeV>) -> bool {
    forall|i: int|
        0 <= i < g.len() ==> ((#[trigger] g[i].parent) matches Some(p) ==> (p as int) < i)
}

/// The names visible from scope `s`: the names `s` defines directly,
/// then its ancestors' names, innermost first.
pub open spec fn spec_bindings(g: Seq<ScopeV>, s: int) -> Seq<Seq<char>>
    decreases s,
{
    if !(0 <= s < g.len()) {
        Seq::empty()
    } else {
        g[s].names + (match g[s].parent {
            Some(p) => if (p as int) < s {
                spec_bindings(g, p as int)
            } else {
                Seq::empty()
            },
            None => Seq::empty(),
        })
    }
}

/// Whether scope `a` is `s` itself or one of its ancestors.
pub open spec fn is_ancestor(g: Seq<ScopeV>, a: int, s: int) -> bool
    decreases s,
{
    0 <= s < g.len() && (a == s || (g[s].parent matches Some(p) && (p as int) < s && is_ancestor(
        g,
        a,
        p as int,
    )))
}

/// Scope monotonicity: every name defined in an enclosing scope is
/// visible at any position inside an enclosed one.
pub proof fn lemma_scope_monotonic(g: Seq<ScopeV>, a: int, s: int, name: Seq<char>)
    requires
        graph_wf(g),
        is_ancestor(g, a, s),
        g[a].names.contains(name),
    ensures
        spec_bindings(g, s).contains(name),
    decreases s,
{
    if a == s {
        let i = choose|i: int| 0 <= i < g[a].names.len() && g[a].names[i] == name;
        assert(spec_bindings(g, s)[i] == name);
    } else {
        let p = g[s].parent->Some_0;
        lemma_scope_monotonic(g, a, p as int, name);
        let i = choose|i: int|
            0 <= i < spec_bindings(g, p as int).len() && spec_bindings(g, p as int)[i] == name;
        assert(spec_bindings(g, s)[g[s].names.len() + i] == name);
    }
}

impl ScopeGraph {
    /// Whether the graph is well-formed: every parent index points at an
    /// earlier scope.
    pub fn check_wf(&self) -> (r: bool)
        ensures
            r == graph_wf(self@),
    {
        let mut i: usize = 0;
        while i < self.scopes.len()
            invariant
                i <= self.scopes@.len(),
                forall|k: int|
                    0 <= k < i ==> ((#[trigger] self@[k].parent) matches Some(p) ==> (p as int)
                        < k),
            decreases self.scopes@.len() - i,
        {
            match self.scopes[i].parent {
                Some(p) => {
                    if p >= i {
                        proof {
                            assert(self@[i as int].parent == Some(p));
                        }
                        return false;
                    }
                },
                None => {},
            }
            proof {
                assert(self@[i as int].parent == self.scopes@[i as int].parent);
            }
            i = i + 1;
        }
        true
    }

    /// The names visible from scope `scope_id`, innermost first, walked
    /// along the ancestor chain; nothing is deduplicated.
    #[verifier::loop_isolation(false)]
    pub fn bindings_in_scope(&self, scope_id: usize) -> (r: Vec<String>)
        requires
            graph_wf(self@),
            (scope_id as int) < self@.len(),
        ensures
            r@.map_values(|s: String| s@) == spec_bindings(self@, scope_id as int),
    {
        let mut out: Vec<String> = Vec::new();
        let mut cur: Option<usize> = Some(scope_id);
        while cur.is_some()
            invariant
                match cur {
                    Some(c) => (c as int) < self@.len() && out@.map_values(|s: String| s@)
                        + spec_bindings(self@, c as int) == spec_bindings(
                        self@,
                        scope_id as int,
                    ),
                    None => out@.map_values(|s: String| s@) == spec_bindings(
                        self@,
                        scope_id as int,
                    ),
                },
            decreases (match cur {
                Some(c) => c as int + 1,
                None => 0,
            }),
        {
            let c = match cur {
                Some(c) => c,
                None => {
                    proof {
                        assert(false);
                    }
                    0
                },
            };
            let ghost out_before = out@.map_values(|s: String| s@);
            let names = &self.scopes[c].names;
            proof {
                assert(self@[c as int].names == names@.map_values(|s: String| s@));
            }
            let mut k: usize = 0;
            while k < names.len()
                invariant
                    k <= names@.len(),
                    out@.map_values(|s: String| s@) == out_before + self@[c as int].names.take(
                        k as int,
                    ),
                decreases names@.len() - k,
            {
                let ghost before_push = out@;
                out.push(names[k].clone());
                proof {
                    assert(out@.map_values(|s: String| s@) =~= before_push.map_values(
                        |s: String| s@,
                    ).push(names@[k as int]@));
                    assert(self@[c as int].names.take(k + 1) =~= self@[c as int].names.take(
                        k as int,
                    ).push(self@[c as int].names[k as int]));
                    assert(out@.map_values(|s: String| s@) =~= out_before + self@[
                        c as int
                    ].names.take(k + 1));
                }
                k = k + 1;
            }
            proof {
                assert(self@[c as int].names.take(names@.len() as int) =~= self@[c as int].names);
            }
            cur = self.scopes[c].parent;
            proof {
                assert(self.scopes@[c as int].parent == self@[c as int].parent);
                match cur {
                    Some(p) => {
                        assert((out_before + self@[c as int].names) + spec_bindings(
                            self@,
                            p as int,
                        ) =~= out_before + spec_bindings(self@, c as int));
                    },
                    None => {
                        assert(out_before + self@[c as int].names =~= out_before + spec_bindings(
                            self@,
                            c as int,
                        ));
                    },
                }
            }
        }
        out
    }
}

/// The semantic engine's source map: which tree position corresponds to
/// which semantic expression.
pub struct SourceMap {
    pub entries: Vec<(AstPath, usize)>,
}

/// The expression id recorded for a position: the first entry whose
/// locator equals `path`.
pub open spec fn spec_expr_for_node(entries: Seq<(AstPath, usize)>, path: Seq<usize>) -> Option<
    usize,
>
    decreases entries.len(),
{
    if entries.len() == 0 {
        None
    } else if entries[0].0@ == path {
        Some(entries[0].1)
    } else {
        spec_expr_for_node(entries.drop_first(), path)
    }
}

impl SourceMap {
    /// The semantic expression recorded for the position `path`, if any.
    #[verifier::loop_isolation(false)]
    pub fn expr_for_node(&self, path: &AstPath) -> (r: Option<usize>)
        ensures
            r == spec_expr_for_node(self.entries@, path@),
    {
        let ghost es = self.entries@;
        proof {
            assert(es.skip(0) =~= es);
        }
        let mut k: usize = 0;
        while k < self.entries.len()
            invariant
                k <= es.len(),
                spec_expr_for_node(es, path@) == spec_expr_for_node(es.skip(k as int), path@),
            decreases es.len() - k,
        {
            proof {
                assert(es.skip(k as int)[0] == es[k as int]);
            }
            if self.entries[k].0.eq(path) {
                return Some(self.entries[k].1);
            }
            proof {
                assert(es.skip(k as int).drop_first() =~= es.skip(k + 1));
            }
            k = k + 1;
        }
        proof {
            assert(es.skip(es.len() as int) =~= Seq::<(AstPath, usize)>::empty());
        }
        None
    }
}

/// Everything the semantic engine hands over for one document: the
/// source map, the scope of each expression, and the scope graph.
pub struct Analysis {
    pub source_map: SourceMap,
    pub scope_for_expr: Vec<Option<usize>>,
    pub scopes: ScopeGraph,
}

/// What a scope query at a position yields: `None` wherever the engine
/// has no data for the position, otherwise the visible names.
pub open spec fn spec_query(
    entries: Seq<(AstPath, usize)>,
    sfe: Seq<Option<usize>>,
    g: Seq<ScopeV>,
    path: Seq<usize>,
) -> Option<Seq<Seq<char>>> {
    match spec_expr_for_node(entries, path) {
        None => None,
        Some(e) => if (e as int) < sfe.len() {
            match sfe[e as int] {
                Some(s) => if (s as int) < g.len() {
                    Some(spec_bindings(g, s as int))
                } else {
                    None
                },
                None => None,
            }
        } else {
            None
        },
    }
}

/// The names in scope at the position `node_path`, innermost first, or
/// `None` when the engine has no data for that position.
pub fn get_bindings_in_scope(node_path: &AstPath, analysis: &Analysis) -> (r: Option<Vec<String>>)
    requires
        graph_wf(analysis.scopes@),
    ensures
        match r {
            Some(v) => spec_query(
                analysis.source_map.entries@,
                analysis.scope_for_expr@,
                analysis.scopes@,
                node_path@,
            ) == Some(v@.map_values(|s: String| s@)),
            None => spec_query(
                analysis.source_map.entries@,
                analysis.scope_for_expr@,
                analysis.scopes@,
                node_path@,
            ) is None,
        },
{
    let expr_id = match analysis.source_map.expr_for_node(node_path) {
        Some(e) => e,
        None => {
            return None;
        },
    };
    if expr_id >= analysis.scope_for_expr.len() {
        return None;
    }
    let scope_id = match analysis.scope_for_expr[expr_id] {
        Some(s) => s,
        None => {
            return None;
        },
    };
    if scope_id >= analysis.scopes.scopes.len() {
        return None;
    }
    proof {
        assert((scope_id as int) < analysis.scopes@.len());
    }
    Some(analysis.scopes.bindings_in_scope(scope_id))
}

} // verus!
