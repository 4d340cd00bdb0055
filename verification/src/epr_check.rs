//! The sort-cycle check that keeps formulas in the decidable fragment.
//!
//! Each `forall` over a sort `A` that encloses an `exists` over a sort `B`
//! gives an edge `A -> B`; the goals and all function bodies together give
//! one graph. A cycle in it would let a solver build values without end,
//! so every strongly connected component with two or more sorts, or with a
//! self-loop, is reported.

use vstd::prelude::*;
use crate::ast::{BaseType, BaseTypeV, Expr, ExprV, Ident, PatternV, arms_view, base_views, binders_view, bindings_view,
    expr_views};
use crate::text::{append_joined, join};
use petgraph::graphmap::GraphMap;
use petgraph::Directed;

verus! {

#[verifier::external_type_specification]
#[verifier::external_body]
#[verifier::reject_recursive_types(N)]
#[verifier::reject_recursive_types(E)]
#[verifier::reject_recursive_types(Ty)]
#[verifier::reject_recursive_types(S)]
pub struct ExGraphMap<N, E, Ty, S: core::hash::BuildHasher>(GraphMap<N, E, Ty, S>);

#[verifier::external_type_specification]
#[verifier::external_body]
pub struct ExDirected(Directed);

/// The nodes of a directed graph map.
pub uninterp spec fn graph_nodes(g: GraphMap<u64, (), Directed>) -> Set<u64>;

/// The edges of a directed graph map, each as (from, to).
pub uninterp spec fn graph_edges(g: GraphMap<u64, (), Directed>) -> Set<(u64, u64)>;

/// `GraphMap::new`: a graph without nodes or edges.
#[verifier::external_body]
fn graph_new() -> (g: GraphMap<u64, (), Directed>)
    ensures
        graph_nodes(g) == Set::<u64>::empty(),
        graph_edges(g) == Set::<(u64, u64)>::empty(),
{
    GraphMap::new()
}

/// `GraphMap::add_edge` on a directed graph: the edge from `a` to `b` is an
/// edge afterwards, and both ends are nodes.
#[verifier::external_body]
fn graph_add_edge(g: &mut GraphMap<u64, (), Directed>, a: u64, b: u64)
    ensures
        graph_nodes(*final(g)) == graph_nodes(*old(g)).insert(a).insert(b),
        graph_edges(*final(g)) == graph_edges(*old(g)).insert((a, b)),
{
    g.add_edge(a, b, ());
}

/// `GraphMap::contains_edge` on a directed graph.
#[verifier::external_body]
fn graph_contains_edge(g: &GraphMap<u64, (), Directed>, a: u64, b: u64) -> (r: bool)
    ensures
        r == graph_edges(*g).contains((a, b)),
{
    g.contains_edge(a, b)
}

/// A path: one node or more, each consecutive pair an edge.
pub open spec fn is_path<T>(edges: Set<(T, T)>, p: Seq<T>) -> bool {
    p.len() >= 1 && forall|i: int| 0 <= i < p.len() - 1 ==> #[trigger] step(edges, p, i)
}

/// The `i`-th step of a sequence of nodes is an edge.
pub open spec fn step<T>(edges: Set<(T, T)>, p: Seq<T>, i: int) -> bool {
    edges.contains((p[i], p[i + 1]))
}

/// Whether a path leads from `a` to `b` (every node reaches itself).
pub open spec fn reaches<T>(edges: Set<(T, T)>, a: T, b: T) -> bool {
    exists|p: Seq<T>| #[trigger] is_path(edges, p) && p[0] == a && p.last() == b
}

/// Whether a node lies on a cycle: an edge leaves it towards a node that
/// reaches it back.
pub open spec fn on_cycle<T>(edges: Set<(T, T)>, a: T) -> bool {
    exists|b: T| edges.contains((a, b)) && reaches(edges, b, a)
}

/// The strongly connected components of a graph, each once: every node in
/// exactly one of them, each listing its members once, each member a node,
/// members reaching each other, closed under reaching back and forth, and
/// in reverse topological order.
pub open spec fn components(g: GraphMap<u64, (), Directed>, r: Seq<Vec<u64>>) -> bool {
    &&& forall|n: u64| graph_nodes(g).contains(n) ==> exists|i: int| 0 <= i < r.len() && #[trigger] r[i]@.contains(n)
    &&& forall|i: int, j: int, n: u64|
        #![trigger r[i]@.contains(n), r[j]@.contains(n)]
        0 <= i < j < r.len() && r[i]@.contains(n) ==> !r[j]@.contains(n)
    &&& forall|i: int| 0 <= i < r.len() ==> (#[trigger] r[i])@.len() > 0 && r[i]@.no_duplicates()
    &&& forall|i: int, n: u64| 0 <= i < r.len() && #[trigger] r[i]@.contains(n) ==> graph_nodes(g).contains(n)
    &&& forall|i: int, x: u64, y: u64|
        #![trigger r[i]@.contains(x), r[i]@.contains(y)]
        0 <= i < r.len() && r[i]@.contains(x) && r[i]@.contains(y) ==> reaches(graph_edges(g), x, y)
    &&& forall|i: int, x: u64, y: u64|
        #![trigger r[i]@.contains(x), reaches(graph_edges(g), x, y)]
        0 <= i < r.len() && r[i]@.contains(x) && graph_nodes(g).contains(y) && reaches(graph_edges(g), x, y)
            && reaches(graph_edges(g), y, x) ==> r[i]@.contains(y)
    &&& forall|i: int, j: int, x: u64, y: u64|
        #![trigger r[i]@.contains(x), r[j]@.contains(y)]
        0 <= i < j < r.len() && r[i]@.contains(x) && r[j]@.contains(y) ==> !graph_edges(g).contains((x, y))
}

/// `petgraph::algo::tarjan_scc`: the strongly connected components of the
/// graph. As documented, each element is one component; so every node lies
/// in exactly one of them, each once, each member is a node, members of one
/// component reach each other, and a node that a member reaches and that
/// reaches it back is a member. The components come in postorder (reverse
/// topological order, as documented): no edge leads from a component to a
/// later one. The order within each is left unsaid.
#[verifier::external_body]
fn graph_sccs(g: &GraphMap<u64, (), Directed>) -> (r: Vec<Vec<u64>>)
    ensures
        components(*g, r@),
{
    petgraph::algo::tarjan_scc(g)
}

/// Two paths joined where the first ends and the second starts.
pub proof fn lemma_path_join<T>(edges: Set<(T, T)>, p: Seq<T>, q: Seq<T>)
    requires
        is_path(edges, p),
        is_path(edges, q),
        p.last() == q[0],
    ensures
        is_path(edges, p + q.skip(1)),
        (p + q.skip(1))[0] == p[0],
        (p + q.skip(1)).last() == q.last(),
{
    let r = p + q.skip(1);
    assert forall|i: int| 0 <= i < r.len() - 1 implies #[trigger] step(edges, r, i) by {
        if i < p.len() - 1 {
            assert(step(edges, p, i));
            assert(r[i] == p[i] && r[i + 1] == p[i + 1]);
        } else {
            let k = i - (p.len() - 1);
            assert(step(edges, q, k));
            assert(r[i] == q[k]);
            assert(r[i + 1] == q[k + 1]);
        }
    }
}

/// Reaching is transitive.
pub proof fn lemma_reaches_trans<T>(edges: Set<(T, T)>, a: T, b: T, c: T)
    requires
        reaches(edges, a, b),
        reaches(edges, b, c),
    ensures
        reaches(edges, a, c),
{
    let p = choose|p: Seq<T>| is_path(edges, p) && p[0] == a && p.last() == b;
    let q = choose|q: Seq<T>| is_path(edges, q) && q[0] == b && q.last() == c;
    lemma_path_join(edges, p, q);
    let r = p + q.skip(1);
    assert(is_path(edges, r) && r[0] == a && r.last() == c);
}

/// Every node reaches itself; an edge is a path.
pub proof fn lemma_reaches_basic<T>(edges: Set<(T, T)>, a: T, b: T)
    ensures
        reaches(edges, a, a),
        edges.contains((a, b)) ==> reaches(edges, a, b),
{
    let single = seq![a];
    assert(is_path(edges, single) && single[0] == a && single.last() == a);
    if edges.contains((a, b)) {
        let p = seq![a, b];
        assert(step(edges, p, 0));
        assert(is_path(edges, p) && p[0] == a && p.last() == b);
    }
}

/// Two distinct nodes that reach each other lie on a cycle.
pub proof fn lemma_mutual_cycle<T>(edges: Set<(T, T)>, a: T, b: T)
    requires
        a != b,
        reaches(edges, a, b),
        reaches(edges, b, a),
    ensures
        on_cycle(edges, a),
{
    let p = choose|p: Seq<T>| is_path(edges, p) && p[0] == a && p.last() == b;
    assert(p.len() >= 2);
    let rest = p.skip(1);
    assert(step(edges, p, 0));
    assert(is_path(edges, rest)) by {
        assert forall|i: int| 0 <= i < rest.len() - 1 implies #[trigger] step(edges, rest, i) by {
            assert(step(edges, p, i + 1));
            assert(rest[i] == p[i + 1]);
            assert(rest[i + 1] == p[i + 2]);
        }
    }
    assert(is_path(edges, rest) && rest[0] == p[1] && rest.last() == b);
    assert(reaches(edges, p[1], b));
    lemma_reaches_trans(edges, p[1], b, a);
}

/// The sorts of some binders.
pub open spec fn sorts_of(bs: Seq<(Seq<char>, BaseTypeV)>) -> Set<BaseTypeV> {
    Set::new(|t: BaseTypeV| exists|i: int| 0 <= i < bs.len() && #[trigger] bs[i].1 == t)
}

/// Every pair from `a` to `b`.
pub open spec fn cross(a: Set<BaseTypeV>, b: Set<BaseTypeV>) -> Set<(BaseTypeV, BaseTypeV)> {
    Set::new(|p: (BaseTypeV, BaseTypeV)| a.contains(p.0) && b.contains(p.1))
}

/// The sort edges of `e` under the sorts `act` of the enclosing `forall`s:
/// each `exists` adds an edge from every enclosing `forall` sort to each of
/// its sorts.
pub open spec fn sort_edges(e: ExprV, act: Set<BaseTypeV>) -> Set<(BaseTypeV, BaseTypeV)>
    decreases e, 0int,
{
    match e {
        ExprV::Forall { binders, body } => sort_edges(*body, act.union(sorts_of(binders))),
        ExprV::Exists { binders, body } => cross(act, sorts_of(binders)).union(sort_edges(*body, act)),
        ExprV::If { cond, then_expr, else_expr } => sort_edges(*cond, act).union(sort_edges(*then_expr, act)).union(
            sort_edges(*else_expr, act),
        ),
        ExprV::Match { expr, arms } => sort_edges(*expr, act).union(arm_edges(arms, act, arms.len() as int)),
        ExprV::Let { bound_expr, body, .. } => sort_edges(*bound_expr, act).union(sort_edges(*body, act)),
        ExprV::BinOp { left, right, .. } => sort_edges(*left, act).union(sort_edges(*right, act)),
        ExprV::UnOp { expr, .. } => sort_edges(*expr, act),
        ExprV::Call { args, .. } => list_edges(args, act, args.len() as int),
        ExprV::Constructor { args, .. } => list_edges(args, act, args.len() as int),
        ExprV::ApplyRel { args, .. } => list_edges(args, act, args.len() as int),
        ExprV::Tuple(es) => list_edges(es, act, es.len() as int),
        ExprV::Instantiate(inner) => sort_edges(*inner, act),
        ExprV::ExistentialBindings(bs) => binding_edges(bs, act, bs.len() as int),
        _ => Set::empty(),
    }
}

/// The sort edges of the first `n` expressions.
pub open spec fn list_edges(es: Seq<ExprV>, act: Set<BaseTypeV>, n: int) -> Set<(BaseTypeV, BaseTypeV)>
    decreases es, n,
{
    if n <= 0 || n > es.len() {
        Set::empty()
    } else {
        list_edges(es, act, n - 1).union(sort_edges(es[n - 1], act))
    }
}

/// The sorts of every existential binder anywhere in `e`.
pub open spec fn exists_sorts(e: ExprV) -> Set<BaseTypeV>
    decreases e, 0int,
{
    match e {
        ExprV::Exists { binders, body } => sorts_of(binders).union(exists_sorts(*body)),
        ExprV::Forall { body, .. } => exists_sorts(*body),
        ExprV::If { cond, then_expr, else_expr } => exists_sorts(*cond).union(exists_sorts(*then_expr)).union(exists_sorts(*else_expr)),
        ExprV::Match { expr, arms } => exists_sorts(*expr).union(arms_exists_sorts(arms, arms.len() as int)),
        ExprV::Let { bound_expr, body, .. } => exists_sorts(*bound_expr).union(exists_sorts(*body)),
        ExprV::BinOp { left, right, .. } => exists_sorts(*left).union(exists_sorts(*right)),
        ExprV::UnOp { expr, .. } => exists_sorts(*expr),
        ExprV::Call { args, .. } => list_exists_sorts(args, args.len() as int),
        ExprV::Constructor { args, .. } => list_exists_sorts(args, args.len() as int),
        ExprV::ApplyRel { args, .. } => list_exists_sorts(args, args.len() as int),
        ExprV::Tuple(es) => list_exists_sorts(es, es.len() as int),
        ExprV::Instantiate(inner) => exists_sorts(*inner),
        ExprV::ExistentialBindings(bs) => bindings_exists_sorts(bs, bs.len() as int),
        _ => Set::empty(),
    }
}

/// [`exists_sorts`] of the first `n` expressions.
pub open spec fn list_exists_sorts(es: Seq<ExprV>, n: int) -> Set<BaseTypeV>
    decreases es, n,
{
    if n <= 0 || n > es.len() {
        Set::empty()
    } else {
        list_exists_sorts(es, n - 1).union(exists_sorts(es[n - 1]))
    }
}

/// [`exists_sorts`] of the first `n` arms of a `match`.
pub open spec fn arms_exists_sorts(arms: Seq<(PatternV, ExprV)>, n: int) -> Set<BaseTypeV>
    decreases arms, n,
{
    if n <= 0 || n > arms.len() {
        Set::empty()
    } else {
        arms_exists_sorts(arms, n - 1).union(exists_sorts(arms[n - 1].1))
    }
}

/// [`exists_sorts`] of the first `n` bound values.
pub open spec fn bindings_exists_sorts(bs: Seq<(Seq<char>, ExprV)>, n: int) -> Set<BaseTypeV>
    decreases bs, n,
{
    if n <= 0 || n > bs.len() {
        Set::empty()
    } else {
        bindings_exists_sorts(bs, n - 1).union(exists_sorts(bs[n - 1].1))
    }
}

/// The pairs `(a, b)` where a universal binder of sort `a` encloses, at any
/// depth in its body, an existential binder of sort `b`.
pub open spec fn nested_pairs(e: ExprV) -> Set<(BaseTypeV, BaseTypeV)>
    decreases e, 0int,
{
    match e {
        ExprV::Forall { binders, body } => cross(sorts_of(binders), exists_sorts(*body)).union(nested_pairs(*body)),
        ExprV::Exists { body, .. } => nested_pairs(*body),
        ExprV::If { cond, then_expr, else_expr } => nested_pairs(*cond).union(nested_pairs(*then_expr)).union(nested_pairs(*else_expr)),
        ExprV::Match { expr, arms } => nested_pairs(*expr).union(arms_nested_pairs(arms, arms.len() as int)),
        ExprV::Let { bound_expr, body, .. } => nested_pairs(*bound_expr).union(nested_pairs(*body)),
        ExprV::BinOp { left, right, .. } => nested_pairs(*left).union(nested_pairs(*right)),
        ExprV::UnOp { expr, .. } => nested_pairs(*expr),
        ExprV::Call { args, .. } => list_nested_pairs(args, args.len() as int),
        ExprV::Constructor { args, .. } => list_nested_pairs(args, args.len() as int),
        ExprV::ApplyRel { args, .. } => list_nested_pairs(args, args.len() as int),
        ExprV::Tuple(es) => list_nested_pairs(es, es.len() as int),
        ExprV::Instantiate(inner) => nested_pairs(*inner),
        ExprV::ExistentialBindings(bs) => bindings_nested_pairs(bs, bs.len() as int),
        _ => Set::empty(),
    }
}

/// [`nested_pairs`] of the first `n` expressions.
pub open spec fn list_nested_pairs(es: Seq<ExprV>, n: int) -> Set<(BaseTypeV, BaseTypeV)>
    decreases es, n,
{
    if n <= 0 || n > es.len() {
        Set::empty()
    } else {
        list_nested_pairs(es, n - 1).union(nested_pairs(es[n - 1]))
    }
}

/// [`nested_pairs`] of the first `n` arms of a `match`.
pub open spec fn arms_nested_pairs(arms: Seq<(PatternV, ExprV)>, n: int) -> Set<(BaseTypeV, BaseTypeV)>
    decreases arms, n,
{
    if n <= 0 || n > arms.len() {
        Set::empty()
    } else {
        arms_nested_pairs(arms, n - 1).union(nested_pairs(arms[n - 1].1))
    }
}

/// [`nested_pairs`] of the first `n` bound values.
pub open spec fn bindings_nested_pairs(bs: Seq<(Seq<char>, ExprV)>, n: int) -> Set<(BaseTypeV, BaseTypeV)>
    decreases bs, n,
{
    if n <= 0 || n > bs.len() {
        Set::empty()
    } else {
        bindings_nested_pairs(bs, n - 1).union(nested_pairs(bs[n - 1].1))
    }
}

/// The edges that the sort-cycle check draws for `e` under the sorts `act`
/// of enclosing universal binders: an edge from each of those sorts to the
/// sort of every existential binder anywhere in `e`, and from the sort of
/// each universal binder in `e` to the sort of every existential binder
/// inside it.
pub open spec fn edges_expected(e: ExprV, act: Set<BaseTypeV>) -> Set<(BaseTypeV, BaseTypeV)> {
    cross(act, exists_sorts(e)).union(nested_pairs(e))
}

/// Law: the sort graph has an edge from `a` to `b` exactly where an
/// existential binder of sort `b` stands anywhere in the scope of a
/// universal binder of sort `a` (or `a` is among the sorts `act` of the
/// enclosing ones), whatever lies between them: operands of every operator,
/// both branches, arguments, bound values and bodies alike.
pub proof fn lemma_sort_edges_exact(e: ExprV, act: Set<BaseTypeV>)
    ensures
        sort_edges(e, act) == edges_expected(e, act),
    decreases e, 0int,
{
    match e {
        ExprV::Forall { binders, body } => {
            lemma_sort_edges_exact(*body, act.union(sorts_of(binders)));
        },
        ExprV::Exists { binders, body } => {
            lemma_sort_edges_exact(*body, act);
        },
        ExprV::If { cond, then_expr, else_expr } => {
            lemma_sort_edges_exact(*cond, act);
            lemma_sort_edges_exact(*then_expr, act);
            lemma_sort_edges_exact(*else_expr, act);
        },
        ExprV::Match { expr, arms } => {
            lemma_sort_edges_exact(*expr, act);
            lemma_arm_edges_exact(arms, act, arms.len() as int);
        },
        ExprV::Let { bound_expr, body, .. } => {
            lemma_sort_edges_exact(*bound_expr, act);
            lemma_sort_edges_exact(*body, act);
        },
        ExprV::BinOp { left, right, .. } => {
            lemma_sort_edges_exact(*left, act);
            lemma_sort_edges_exact(*right, act);
        },
        ExprV::UnOp { expr, .. } => lemma_sort_edges_exact(*expr, act),
        ExprV::Call { args, .. } => lemma_list_edges_exact(args, act, args.len() as int),
        ExprV::Constructor { args, .. } => lemma_list_edges_exact(args, act, args.len() as int),
        ExprV::ApplyRel { args, .. } => lemma_list_edges_exact(args, act, args.len() as int),
        ExprV::Tuple(es) => lemma_list_edges_exact(es, act, es.len() as int),
        ExprV::Instantiate(inner) => lemma_sort_edges_exact(*inner, act),
        ExprV::ExistentialBindings(bs) => lemma_binding_edges_exact(bs, act, bs.len() as int),
        _ => {},
    }
    assert(sort_edges(e, act) =~= edges_expected(e, act));
}

proof fn lemma_list_edges_exact(es: Seq<ExprV>, act: Set<BaseTypeV>, n: int)
    requires
        0 <= n <= es.len(),
    ensures
        list_edges(es, act, n) == cross(act, list_exists_sorts(es, n)).union(list_nested_pairs(es, n)),
    decreases es, n,
{
    if n > 0 {
        lemma_list_edges_exact(es, act, n - 1);
        lemma_sort_edges_exact(es[n - 1], act);
    }
    assert(list_edges(es, act, n) =~= cross(act, list_exists_sorts(es, n)).union(list_nested_pairs(es, n)));
}

proof fn lemma_arm_edges_exact(arms: Seq<(PatternV, ExprV)>, act: Set<BaseTypeV>, n: int)
    requires
        0 <= n <= arms.len(),
    ensures
        arm_edges(arms, act, n) == cross(act, arms_exists_sorts(arms, n)).union(arms_nested_pairs(arms, n)),
    decreases arms, n,
{
    if n > 0 {
        lemma_arm_edges_exact(arms, act, n - 1);
        lemma_sort_edges_exact(arms[n - 1].1, act);
    }
    assert(arm_edges(arms, act, n) =~= cross(act, arms_exists_sorts(arms, n)).union(arms_nested_pairs(arms, n)));
}

proof fn lemma_binding_edges_exact(bs: Seq<(Seq<char>, ExprV)>, act: Set<BaseTypeV>, n: int)
    requires
        0 <= n <= bs.len(),
    ensures
        binding_edges(bs, act, n) == cross(act, bindings_exists_sorts(bs, n)).union(bindings_nested_pairs(bs, n)),
    decreases bs, n,
{
    if n > 0 {
        lemma_binding_edges_exact(bs, act, n - 1);
        lemma_sort_edges_exact(bs[n - 1].1, act);
    }
    assert(binding_edges(bs, act, n) =~= cross(act, bindings_exists_sorts(bs, n)).union(bindings_nested_pairs(bs, n)));
}

/// The sort edges of the first `n` arms.
pub open spec fn arm_edges(arms: Seq<(PatternV, ExprV)>, act: Set<BaseTypeV>, n: int) -> Set<(BaseTypeV, BaseTypeV)>
    decreases arms, n,
{
    if n <= 0 || n > arms.len() {
        Set::empty()
    } else {
        arm_edges(arms, act, n - 1).union(sort_edges(arms[n - 1].1, act))
    }
}

/// The sort edges of the first `n` bindings.
pub open spec fn binding_edges(bs: Seq<(Seq<char>, ExprV)>, act: Set<BaseTypeV>, n: int) -> Set<(BaseTypeV, BaseTypeV)>
    decreases bs, n,
{
    if n <= 0 || n > bs.len() {
        Set::empty()
    } else {
        binding_edges(bs, act, n - 1).union(sort_edges(bs[n - 1].1, act))
    }
}

/// The set of sorts a list holds.
pub open spec fn sort_set(v: Seq<BaseType>) -> Set<BaseTypeV> {
    Set::new(|t: BaseTypeV| base_views(v).contains(t))
}

/// The set of sort pairs a list holds.
pub open spec fn pair_set(v: Seq<(BaseType, BaseType)>) -> Set<(BaseTypeV, BaseTypeV)> {
    Set::new(|p: (BaseTypeV, BaseTypeV)| exists|i: int| 0 <= i < v.len() && (#[trigger] v[i].0@, v[i].1@) == p)
}

/// Pushing a sort adds it to the set.
proof fn lemma_sort_set_push(v: Seq<BaseType>, x: BaseType)
    ensures
        sort_set(v.push(x)) == sort_set(v).insert(x@),
{
    let bv = base_views(v.push(x));
    assert(bv =~= base_views(v).push(x@));
    assert forall|t: BaseTypeV| sort_set(v.push(x)).contains(t) <==> sort_set(v).insert(x@).contains(t) by {
        if bv.contains(t) {
            let i = choose|i: int| 0 <= i < bv.len() && bv[i] == t;
            if i < v.len() {
                assert(base_views(v)[i] == t);
            }
        }
        if base_views(v).contains(t) {
            let i = choose|i: int| 0 <= i < base_views(v).len() && base_views(v)[i] == t;
            assert(bv[i] == t);
        }
        if t == x@ {
            assert(bv[v.len() as int] == t);
        }
    }
    assert(sort_set(v.push(x)) =~= sort_set(v).insert(x@));
}

/// Adds an edge from every active sort to `t`.
fn push_edges_to(active: &Vec<BaseType>, t: &BaseType, edges: &mut Vec<(BaseType, BaseType)>)
    ensures
        pair_set(final(edges)@) == pair_set(old(edges)@).union(cross(sort_set(active@), set![t@])),
{
    let mut k: usize = 0;
    while k < active.len()
        invariant
            0 <= k <= active@.len(),
            pair_set(edges@) == pair_set(old(edges)@).union(cross(sort_set(active@.take(k as int)), set![t@])),
        decreases active@.len() - k,
    {
        let ghost before = edges@;
        edges.push((active[k].deep_clone(), t.deep_clone()));
        proof {
            let item = (active@[k as int]@, t@);
            assert(pair_set(edges@) =~= pair_set(before).insert(item)) by {
                assert forall|p: (BaseTypeV, BaseTypeV)| pair_set(edges@).contains(p) implies pair_set(before).insert(item).contains(p) by {
                    let i = choose|i: int| 0 <= i < edges@.len() && (#[trigger] edges@[i].0@, edges@[i].1@) == p;
                    if i < before.len() {
                        assert(edges@[i] == before[i]);
                    }
                }
                assert forall|p: (BaseTypeV, BaseTypeV)| pair_set(before).insert(item).contains(p) implies pair_set(edges@).contains(p) by {
                    if p == item {
                        assert((edges@[before.len() as int].0@, edges@[before.len() as int].1@) == p);
                    } else {
                        let i = choose|i: int| 0 <= i < before.len() && (#[trigger] before[i].0@, before[i].1@) == p;
                        assert(edges@[i] == before[i]);
                    }
                }
            }
            assert(active@.take(k + 1) =~= active@.take(k as int).push(active@[k as int]));
            lemma_sort_set_push(active@.take(k as int), active@[k as int]);
            assert(cross(sort_set(active@.take(k + 1)), set![t@]) =~= cross(sort_set(active@.take(k as int)), set![t@]).insert(item));
            assert(pair_set(edges@) =~= pair_set(old(edges)@).union(cross(sort_set(active@.take(k + 1)), set![t@])));
        }
        k = k + 1;
    }
    proof {
        assert(active@.take(k as int) =~= active@);
    }
}

/// Adds the sort edges of each expression of a list.
fn list_sort_graph(es: &Vec<Expr>, active: &mut Vec<BaseType>, edges: &mut Vec<(BaseType, BaseType)>)
    ensures
        final(active)@ == old(active)@,
        pair_set(final(edges)@) == pair_set(old(edges)@).union(list_edges(expr_views(es@), sort_set(old(active)@), es@.len() as int)),
    decreases es, 0int,
{
    let ghost ev = expr_views(es@);
    let ghost act = sort_set(active@);
    let mut i: usize = 0;
    proof {
        assert(pair_set(edges@).union(list_edges(ev, act, 0)) =~= pair_set(edges@));
    }
    while i < es.len()
        invariant
            0 <= i <= es@.len(),
            ev == expr_views(es@),
            active@ == old(active)@,
            act == sort_set(active@),
            pair_set(edges@) == pair_set(old(edges)@).union(list_edges(ev, act, i as int)),
        decreases es@.len() - i,
    {
        proof {
            assert(decreases_to!(*es => es@));
            assert(decreases_to!(es@ => es@[i as int]));
            assert(ev[i as int] == es@[i as int]@);
        }
        build_sort_graph(&es[i], active, edges);
        proof {
            assert(pair_set(edges@) =~= pair_set(old(edges)@).union(list_edges(ev, act, i + 1)));
        }
        i = i + 1;
    }
}

/// Adds the sort edges of `e` under the active `forall` sorts: a `forall`
/// activates its sorts for its body, an `exists` adds an edge from every
/// active sort to each of its sorts.
#[verifier::loop_isolation(false)]
pub fn build_sort_graph(e: &Expr, active: &mut Vec<BaseType>, edges: &mut Vec<(BaseType, BaseType)>)
    ensures
        final(active)@ == old(active)@,
        pair_set(final(edges)@) == pair_set(old(edges)@).union(sort_edges(e@, sort_set(old(active)@))),
    decreases e, 1int,
{
    let ghost act = sort_set(active@);
    let ghost e0 = pair_set(edges@);
    match e {
        Expr::Forall { binders, body } => {
            let n0 = active.len();
            let mut k: usize = 0;
            while k < binders.len()
                invariant
                    0 <= k <= binders@.len(),
                    n0 == old(active)@.len(),
                    active@.len() == n0 + k,
                    active@.subrange(0, n0 as int) == old(active)@,
                    sort_set(active@) == act.union(sorts_of(binders_view(binders@).take(k as int))),
                decreases binders@.len() - k,
            {
                let ghost before = active@;
                active.push(binders[k].1.deep_clone());
                proof {
                    lemma_sort_set_push(before, active@.last());
                    assert(before.push(active@.last()) =~= active@);
                    let bv = binders_view(binders@);
                    assert(bv[k as int].1 == binders@[k as int].1@);
                    assert(sorts_of(bv.take(k + 1)) =~= sorts_of(bv.take(k as int)).insert(bv[k as int].1)) by {
                        assert forall|t: BaseTypeV| sorts_of(bv.take(k + 1)).contains(t) implies sorts_of(bv.take(k as int)).insert(bv[k as int].1).contains(t) by {
                            let i = choose|i: int| 0 <= i < bv.take(k + 1).len() && #[trigger] bv.take(k + 1)[i].1 == t;
                            if i < k {
                                assert(bv.take(k as int)[i].1 == t);
                            }
                        }
                        assert forall|t: BaseTypeV| sorts_of(bv.take(k as int)).insert(bv[k as int].1).contains(t) implies sorts_of(bv.take(k + 1)).contains(t) by {
                            if t == bv[k as int].1 {
                                assert(bv.take(k + 1)[k as int].1 == t);
                            } else {
                                let i = choose|i: int| 0 <= i < bv.take(k as int).len() && #[trigger] bv.take(k as int)[i].1 == t;
                                assert(bv.take(k + 1)[i].1 == t);
                            }
                        }
                    }
                    assert(active@.subrange(0, n0 as int) =~= before.subrange(0, n0 as int));
                    assert(sort_set(active@) =~= act.union(sorts_of(bv.take(k + 1))));
                }
                k = k + 1;
            }
            proof {
                assert(binders_view(binders@).take(k as int) =~= binders_view(binders@));
                assert(e@ == ExprV::Forall { binders: binders_view(binders@), body: Box::new((**body)@) });
            }
            build_sort_graph(body, active, edges);
            active.truncate(n0);
        },
        Expr::Exists { binders, body } => {
            let ghost bv = binders_view(binders@);
            let mut k: usize = 0;
            proof {
                assert(cross(act, sorts_of(bv.take(0))) =~= Set::empty());
                assert(e0.union(cross(act, sorts_of(bv.take(0)))) =~= e0);
            }
            while k < binders.len()
                invariant
                    0 <= k <= binders@.len(),
                    bv == binders_view(binders@),
                    active@ == old(active)@,
                    act == sort_set(active@),
                    pair_set(edges@) == e0.union(cross(act, sorts_of(bv.take(k as int)))),
                decreases binders@.len() - k,
            {
                push_edges_to(active, &binders[k].1, edges);
                proof {
                    assert(bv[k as int].1 == binders@[k as int].1@);
                    assert(sorts_of(bv.take(k + 1)) =~= sorts_of(bv.take(k as int)).insert(bv[k as int].1)) by {
                        assert forall|t: BaseTypeV| sorts_of(bv.take(k + 1)).contains(t) implies sorts_of(bv.take(k as int)).insert(bv[k as int].1).contains(t) by {
                            let i = choose|i: int| 0 <= i < bv.take(k + 1).len() && #[trigger] bv.take(k + 1)[i].1 == t;
                            if i < k {
                                assert(bv.take(k as int)[i].1 == t);
                            }
                        }
                        assert forall|t: BaseTypeV| sorts_of(bv.take(k as int)).insert(bv[k as int].1).contains(t) implies sorts_of(bv.take(k + 1)).contains(t) by {
                            if t == bv[k as int].1 {
                                assert(bv.take(k + 1)[k as int].1 == t);
                            } else {
                                let i = choose|i: int| 0 <= i < bv.take(k as int).len() && #[trigger] bv.take(k as int)[i].1 == t;
                                assert(bv.take(k + 1)[i].1 == t);
                            }
                        }
                    }
                    assert(cross(act, sorts_of(bv.take(k + 1))) =~= cross(act, sorts_of(bv.take(k as int))).union(cross(act, set![bv[k as int].1])));
                    assert(pair_set(edges@) =~= e0.union(cross(act, sorts_of(bv.take(k + 1)))));
                }
                k = k + 1;
            }
            proof {
                assert(bv.take(k as int) =~= bv);
                assert(e@ == ExprV::Exists { binders: bv, body: Box::new((**body)@) });
            }
            build_sort_graph(body, active, edges);
            proof {
                assert(pair_set(edges@) =~= e0.union(sort_edges(e@, act)));
            }
        },
        Expr::If { cond, then_expr, else_expr } => {
            build_sort_graph(cond, active, edges);
            build_sort_graph(then_expr, active, edges);
            build_sort_graph(else_expr, active, edges);
            proof {
                assert(pair_set(edges@) =~= e0.union(sort_edges(e@, act)));
            }
        },
        Expr::Match { expr, arms } => {
            build_sort_graph(expr, active, edges);
            let ghost av = arms_view(arms@);
            let ghost e1 = pair_set(edges@);
            let mut i: usize = 0;
            proof {
                assert(e1.union(arm_edges(av, act, 0)) =~= e1);
            }
            while i < arms.len()
                invariant
                    0 <= i <= arms@.len(),
                    av == arms_view(arms@),
                    active@ == old(active)@,
                    act == sort_set(active@),
                    pair_set(edges@) == e1.union(arm_edges(av, act, i as int)),
                decreases arms@.len() - i,
            {
                proof {
                    assert(decreases_to!(*e => (*e)->arms));
                    assert(decreases_to!(arms@ => arms@[i as int]));
                    assert(decreases_to!(arms@[i as int] => arms@[i as int].1));
                    assert(av[i as int].1 == arms@[i as int].1@);
                }
                build_sort_graph(&arms[i].1, active, edges);
                proof {
                    assert(pair_set(edges@) =~= e1.union(arm_edges(av, act, i + 1)));
                }
                i = i + 1;
            }
            proof {
                assert(e@ == ExprV::Match { expr: Box::new((**expr)@), arms: av });
                assert(pair_set(edges@) =~= e0.union(sort_edges(e@, act)));
            }
        },
        Expr::Let { bound_expr, body, .. } => {
            build_sort_graph(bound_expr, active, edges);
            build_sort_graph(body, active, edges);
            proof {
                assert(pair_set(edges@) =~= e0.union(sort_edges(e@, act)));
            }
        },
        Expr::BinOp { left, right, .. } => {
            build_sort_graph(left, active, edges);
            build_sort_graph(right, active, edges);
            proof {
                assert(pair_set(edges@) =~= e0.union(sort_edges(e@, act)));
            }
        },
        Expr::UnOp { expr, .. } => {
            build_sort_graph(expr, active, edges);
        },
        Expr::Call { args, .. } => {
            proof {
                assert(decreases_to!(*e => (*e)->Call_args));
            }
            list_sort_graph(args, active, edges);
        },
        Expr::Constructor { args, .. } => {
            proof {
                assert(decreases_to!(*e => (*e)->Constructor_args));
            }
            list_sort_graph(args, active, edges);
        },
        Expr::ApplyRel { args, .. } => {
            proof {
                assert(decreases_to!(*e => (*e)->ApplyRel_args));
            }
            list_sort_graph(args, active, edges);
        },
        Expr::Tuple(es) => {
            proof {
                assert(decreases_to!(*e => (*e)->Tuple_0));
                assert(e@ == ExprV::Tuple(expr_views(es@)));
            }
            list_sort_graph(es, active, edges);
        },
        Expr::Instantiate(inner) => {
            build_sort_graph(inner, active, edges);
        },
        Expr::ExistentialBindings(bs) => {
            let ghost bv = bindings_view(bs@);
            let mut i: usize = 0;
            proof {
                assert(e0.union(binding_edges(bv, act, 0)) =~= e0);
            }
            while i < bs.len()
                invariant
                    0 <= i <= bs@.len(),
                    bv == bindings_view(bs@),
                    active@ == old(active)@,
                    act == sort_set(active@),
                    pair_set(edges@) == e0.union(binding_edges(bv, act, i as int)),
                decreases bs@.len() - i,
            {
                proof {
                    assert(decreases_to!(*e => (*e)->ExistentialBindings_0));
                    assert(decreases_to!(bs@ => bs@[i as int]));
                    assert(decreases_to!(bs@[i as int] => bs@[i as int].1));
                    assert(bv[i as int].1 == bs@[i as int].1@);
                }
                build_sort_graph(&bs[i].1, active, edges);
                proof {
                    assert(pair_set(edges@) =~= e0.union(binding_edges(bv, act, i + 1)));
                }
                i = i + 1;
            }
            proof {
                assert(e@ == ExprV::ExistentialBindings(bv));
            }
        },
        Expr::BoolConst(b) => {
            proof {
                assert(e@ == ExprV::BoolConst(*b));
                assert(e0.union(sort_edges(e@, act)) =~= e0);
            }
        },
        Expr::Var(x) => {
            proof {
                assert(e@ == ExprV::Var(x@));
                assert(e0.union(sort_edges(e@, act)) =~= e0);
            }
        },
    }
}

/// The id of a sort in the table: its index, the sort added last where it
/// is new.
fn intern(table: &mut Vec<BaseType>, t: &BaseType) -> (id: u64)
    requires
        base_views(old(table)@).no_duplicates(),
    ensures
        base_views(final(table)@).no_duplicates(),
        (id as int) < final(table)@.len(),
        base_views(final(table)@)[id as int] == t@,
        base_views(final(table)@) == base_views(old(table)@) || base_views(final(table)@) == base_views(old(table)@).push(t@),
        base_views(old(table)@).contains(t@) ==> base_views(final(table)@) == base_views(old(table)@),
{
    let ghost tv = base_views(table@);
    let mut i: usize = 0;
    while i < table.len()
        invariant
            0 <= i <= table@.len(),
            tv == base_views(table@),
            tv.no_duplicates(),
            forall|k: int| 0 <= k < i ==> tv[k] != t@,
        decreases table@.len() - i,
    {
        if table[i].same(t) {
            return i as u64;
        }
        i = i + 1;
    }
    table.push(t.deep_clone());
    proof {
        assert(base_views(table@) =~= tv.push(t@));
        assert(!tv.contains(t@));
    }
    (table.len() - 1) as u64
}

/// The id graph of a sort relation: edges between the indices of related
/// sorts of the table.
pub open spec fn lifted(tv: Seq<BaseTypeV>, e: Set<(BaseTypeV, BaseTypeV)>, i: u64, j: u64) -> bool {
    (i as int) < tv.len() && (j as int) < tv.len() && e.contains((tv[i as int], tv[j as int]))
}

/// The sort graph laid over the table: the id edges are exactly the lifted
/// sort edges, every sort of an edge is in the table, and the ends of the id
/// edges are nodes with valid ids.
pub open spec fn laid(g: GraphMap<u64, (), Directed>, tv: Seq<BaseTypeV>, e: Set<(BaseTypeV, BaseTypeV)>) -> bool {
    &&& tv.no_duplicates()
    &&& tv.len() <= u64::MAX
    &&& forall|i: u64, j: u64| #[trigger] graph_edges(g).contains((i, j)) <==> lifted(tv, e, i, j)
    &&& forall|p: (BaseTypeV, BaseTypeV)| #[trigger] e.contains(p) ==> tv.contains(p.0) && tv.contains(p.1)
    &&& forall|i: u64, j: u64| #[trigger] graph_edges(g).contains((i, j)) ==> graph_nodes(g).contains(i) && graph_nodes(g).contains(j)
    &&& forall|i: u64| #[trigger] graph_nodes(g).contains(i) ==> (i as int) < tv.len()
}

/// Lays the sort edges of a list over a fresh table.
fn lay_graph(edges: &Vec<(BaseType, BaseType)>) -> (r: (GraphMap<u64, (), Directed>, Vec<BaseType>))
    ensures
        laid(r.0, base_views(r.1@), pair_set(edges@)),
{
    let mut g = graph_new();
    let mut table: Vec<BaseType> = Vec::new();
    let mut k: usize = 0;
    proof {
        assert(base_views(table@) =~= Seq::<BaseTypeV>::empty());
        assert(pair_set(edges@.take(0)) =~= Set::empty());
    }
    while k < edges.len()
        invariant
            0 <= k <= edges@.len(),
            laid(g, base_views(table@), pair_set(edges@.take(k as int))),
        decreases edges@.len() - k,
    {
        let ghost tv0 = base_views(table@);
        let ghost e0 = pair_set(edges@.take(k as int));
        let ghost g0 = g;
        let ia = intern(&mut table, &edges[k].0);
        let ib = intern(&mut table, &edges[k].1);
        graph_add_edge(&mut g, ia, ib);
        let tl = table.len();
        proof {
            let tv = base_views(table@);
            assert(tv.len() == tl);
            assert(tl as int <= u64::MAX);
            let item = (edges@[k as int].0@, edges@[k as int].1@);
            let e1 = pair_set(edges@.take(k + 1));
            assert(e1 =~= e0.insert(item)) by {
                assert forall|p: (BaseTypeV, BaseTypeV)| e1.contains(p) implies e0.insert(item).contains(p) by {
                    let i = choose|i: int| 0 <= i < edges@.take(k + 1).len() && (#[trigger] edges@.take(k + 1)[i].0@, edges@.take(k + 1)[i].1@) == p;
                    if i < k {
                        assert(edges@.take(k as int)[i] == edges@.take(k + 1)[i]);
                    }
                }
                assert forall|p: (BaseTypeV, BaseTypeV)| e0.insert(item).contains(p) implies e1.contains(p) by {
                    if p == item {
                        assert((edges@.take(k + 1)[k as int].0@, edges@.take(k + 1)[k as int].1@) == p);
                    } else {
                        let i = choose|i: int| 0 <= i < edges@.take(k as int).len() && (#[trigger] edges@.take(k as int)[i].0@, edges@.take(k as int)[i].1@) == p;
                        assert(edges@.take(k + 1)[i] == edges@.take(k as int)[i]);
                    }
                }
            }
            assert(tv.subrange(0, tv0.len() as int) =~= tv0);
            assert forall|i: u64, j: u64| #[trigger] graph_edges(g).contains((i, j)) <==> lifted(tv, e1, i, j) by {
                if graph_edges(g0).contains((i, j)) {
                    assert(lifted(tv0, e0, i, j));
                    assert(tv[i as int] == tv0[i as int]);
                    assert(tv[j as int] == tv0[j as int]);
                }
                if lifted(tv, e1, i, j) && !(i == ia && j == ib) {
                    let p = (tv[i as int], tv[j as int]);
                    if p == item {
                        assert(tv[i as int] == tv[ia as int]);
                        assert(tv[j as int] == tv[ib as int]);
                    } else {
                        assert(e0.contains(p));
                        assert(tv0.contains(p.0) && tv0.contains(p.1));
                        let a = choose|a: int| 0 <= a < tv0.len() && tv0[a] == p.0;
                        let b = choose|b: int| 0 <= b < tv0.len() && tv0[b] == p.1;
                        assert(tv[a] == p.0);
                        assert(tv[b] == p.1);
                        assert(a == i as int);
                        assert(b == j as int);
                        assert(lifted(tv0, e0, i, j));
                    }
                }
            }
            assert forall|p: (BaseTypeV, BaseTypeV)| #[trigger] e1.contains(p) implies tv.contains(p.0) && tv.contains(p.1) by {
                if p == item {
                    assert(tv[ia as int] == p.0);
                    assert(tv[ib as int] == p.1);
                } else {
                    assert(e0.contains(p));
                    let a = choose|a: int| 0 <= a < tv0.len() && tv0[a] == p.0;
                    let b = choose|b: int| 0 <= b < tv0.len() && tv0[b] == p.1;
                    assert(tv[a] == p.0);
                    assert(tv[b] == p.1);
                }
            }
        }
        k = k + 1;
    }
    proof {
        assert(edges@.take(k as int) =~= edges@);
    }
    (g, table)
}

/// A path of ids is a path of their sorts.
proof fn lemma_ids_to_sorts(g: GraphMap<u64, (), Directed>, tv: Seq<BaseTypeV>, e: Set<(BaseTypeV, BaseTypeV)>, i: u64, j: u64)
    requires
        laid(g, tv, e),
        (i as int) < tv.len(),
        reaches(graph_edges(g), i, j),
    ensures
        (j as int) < tv.len(),
        reaches(e, tv[i as int], tv[j as int]),
{
    let p = choose|p: Seq<u64>| #[trigger] is_path(graph_edges(g), p) && p[0] == i && p.last() == j;
    assert forall|k: int| 0 <= k < p.len() implies (p[k] as int) < tv.len() by {
        if k > 0 {
            assert(step(graph_edges(g), p, k - 1));
            assert(lifted(tv, e, p[k - 1], p[k]));
        }
    }
    let q = Seq::new(p.len(), |k: int| tv[p[k] as int]);
    assert forall|k: int| 0 <= k < q.len() - 1 implies #[trigger] step(e, q, k) by {
        assert(step(graph_edges(g), p, k));
        assert(lifted(tv, e, p[k], p[k + 1]));
    }
    assert(is_path(e, q) && q[0] == tv[i as int] && q.last() == tv[j as int]);
}

/// A path of sorts from a sort of the table is a path of their ids.
proof fn lemma_sorts_to_ids(g: GraphMap<u64, (), Directed>, tv: Seq<BaseTypeV>, e: Set<(BaseTypeV, BaseTypeV)>, i: u64, b: BaseTypeV)
    requires
        laid(g, tv, e),
        (i as int) < tv.len(),
        reaches(e, tv[i as int], b),
    ensures
        exists|j: u64| (j as int) < tv.len() && tv[j as int] == b && reaches(graph_edges(g), i, j),
{
    let q = choose|q: Seq<BaseTypeV>| #[trigger] is_path(e, q) && q[0] == tv[i as int] && q.last() == b;
    assert forall|k: int| 0 <= k < q.len() implies tv.contains(#[trigger] q[k]) by {
        if k == 0 {
            assert(tv[i as int] == q[0]);
        } else {
            assert(step(e, q, k - 1));
            assert(e.contains((q[k - 1], q[k])));
        }
    }
    let p = Seq::new(q.len(), |k: int| if k == 0 { i } else { (choose|m: int| 0 <= m < tv.len() && tv[m] == q[k]) as u64 });
    assert forall|k: int| 0 <= k < p.len() implies (p[k] as int) < tv.len() && tv[p[k] as int] == q[k] by {
        if k > 0 {
            assert(tv.contains(q[k]));
            let m = choose|m: int| 0 <= m < tv.len() && tv[m] == q[k];
            assert(p[k] == m as u64);
        }
    }
    assert forall|k: int| 0 <= k < p.len() - 1 implies #[trigger] step(graph_edges(g), p, k) by {
        assert(step(e, q, k));
        assert((p[k] as int) < tv.len() && tv[p[k] as int] == q[k]);
        assert((p[k + 1] as int) < tv.len() && tv[p[k + 1] as int] == q[k + 1]);
        assert(lifted(tv, e, p[k], p[k + 1]));
    }
    let j = p.last();
    assert((j as int) < tv.len() && tv[j as int] == q.last());
    assert(is_path(graph_edges(g), p) && p[0] == i && p.last() == j);
}

/// A sort lies on a cycle exactly when it is in the table and its id lies
/// on a cycle of the id graph.
proof fn lemma_cycle_lifted(g: GraphMap<u64, (), Directed>, tv: Seq<BaseTypeV>, e: Set<(BaseTypeV, BaseTypeV)>, i: u64)
    requires
        laid(g, tv, e),
        (i as int) < tv.len(),
    ensures
        on_cycle(e, tv[i as int]) <==> on_cycle(graph_edges(g), i),
{
    if on_cycle(graph_edges(g), i) {
        let j = choose|j: u64| graph_edges(g).contains((i, j)) && reaches(graph_edges(g), j, i);
        assert(lifted(tv, e, i, j));
        lemma_ids_to_sorts(g, tv, e, j, i);
        assert(e.contains((tv[i as int], tv[j as int])));
    }
    if on_cycle(e, tv[i as int]) {
        let b = choose|b: BaseTypeV| e.contains((tv[i as int], b)) && reaches(e, b, tv[i as int]);
        assert(tv.contains(b));
        let j0 = choose|m: int| 0 <= m < tv.len() && tv[m] == b;
        let j = j0 as u64;
        assert(lifted(tv, e, i, j));
        assert(graph_edges(g).contains((i, j)));
        lemma_sorts_to_ids(g, tv, e, j, tv[i as int]);
        let i2 = choose|m: u64| (m as int) < tv.len() && tv[m as int] == tv[i as int] && reaches(graph_edges(g), j, m);
        assert(i2 == i);
    }
}

/// The sort edges of the first `n` goals, each with no enclosing `forall`.
pub open spec fn goal_edges(goals: Seq<ExprV>, n: int) -> Set<(BaseTypeV, BaseTypeV)>
    decreases n,
{
    if n <= 0 || n > goals.len() {
        Set::empty()
    } else {
        goal_edges(goals, n - 1).union(sort_edges(goals[n - 1], Set::empty()))
    }
}

/// The sort edges of the bodies of the first `n` functions.
pub open spec fn body_edges(fs: Seq<(Seq<char>, (crate::ast::TypeV, Option<ExprV>, bool))>, n: int) -> Set<(BaseTypeV, BaseTypeV)>
    decreases n,
{
    if n <= 0 || n > fs.len() {
        Set::empty()
    } else {
        body_edges(fs, n - 1).union(match fs[n - 1].1.1 {
            Some(b) => sort_edges(b, Set::empty()),
            None => Set::empty(),
        })
    }
}

/// The sort graph of the goals and of every function body together.
pub open spec fn all_sort_edges(goals: Seq<ExprV>, fs: Seq<(Seq<char>, (crate::ast::TypeV, Option<ExprV>, bool))>) -> Set<(BaseTypeV, BaseTypeV)> {
    goal_edges(goals, goals.len() as int).union(body_edges(fs, fs.len() as int))
}

/// The sorts of a list of ids, taken from the table.
fn sorts_of_ids(table: &Vec<BaseType>, ids: &Vec<u64>) -> (r: Vec<BaseType>)
    requires
        forall|k: int| 0 <= k < ids@.len() ==> (#[trigger] ids@[k] as int) < table@.len(),
    ensures
        r@.len() == ids@.len(),
        forall|k: int| 0 <= k < ids@.len() ==> (#[trigger] r@[k])@ == table@[ids@[k] as int]@,
{
    let mut out: Vec<BaseType> = Vec::new();
    let mut k: usize = 0;
    let tl = table.len();
    while k < ids.len()
        invariant
            0 <= k <= ids@.len(),
            tl == table@.len(),
            out@.len() == k,
            forall|m: int| 0 <= m < ids@.len() ==> (#[trigger] ids@[m] as int) < table@.len(),
            forall|m: int| 0 <= m < k ==> (#[trigger] out@[m])@ == table@[ids@[m] as int]@,
        decreases ids@.len() - k,
    {
        let id = ids[k];
        proof {
            assert((ids@[k as int] as int) < table@.len());
            assert((id as int) < tl);
            assert((id as usize) as int == id as int);
        }
        let one = table[id as usize].deep_clone();
        out.push(one);
        proof {
            assert(out@[k as int]@ == table@[ids@[k as int] as int]@);
        }
        k = k + 1;
    }
    out
}

/// The sort-cycle check of the goals together with all function bodies.
/// It passes exactly when no sort lies on a cycle of the sort graph; else it
/// reports the cyclic strongly connected components, each a non-empty list
/// of sorts that reach each other (one sort alone only with a self-loop),
/// every sort on a cycle in one of them and no sort reported twice; a cycle
/// that another one leads to comes first.
pub fn check_for_cycles(goals: &Vec<Expr>, global_specs: &Vec<(Ident, crate::ast::FunctionDef)>) -> (r: Result<(), Vec<Vec<BaseType>>>)
    ensures
        r is Ok <==> forall|s: BaseTypeV| !on_cycle(all_sort_edges(expr_views(goals@), crate::api::fdefs_view(global_specs@)), s),
        r matches Err(cs) ==> forall|c: int| #![trigger cs@[c]] 0 <= c < cs@.len() ==> {
            let es = all_sort_edges(expr_views(goals@), crate::api::fdefs_view(global_specs@));
            &&& cs@[c]@.len() > 0
            &&& forall|x: int, y: int|
                0 <= x < cs@[c]@.len() && 0 <= y < cs@[c]@.len() ==> reaches(es, #[trigger] cs@[c]@[x]@, #[trigger] cs@[c]@[y]@)
            &&& cs@[c]@.len() == 1 ==> es.contains((cs@[c]@[0]@, cs@[c]@[0]@))
        },
        r is Err ==> forall|s: BaseTypeV|
            #[trigger] on_cycle(all_sort_edges(expr_views(goals@), crate::api::fdefs_view(global_specs@)), s) ==> reported(r->Err_0@, s),
        r matches Err(cs) ==> listed_once(cs@),
        r matches Err(cs) ==> in_reverse_order(cs@, all_sort_edges(expr_views(goals@), crate::api::fdefs_view(global_specs@))),
{
    let ghost gv = expr_views(goals@);
    let ghost fv = crate::api::fdefs_view(global_specs@);
    let mut active: Vec<BaseType> = Vec::new();
    let mut edges: Vec<(BaseType, BaseType)> = Vec::new();
    proof {
        assert(pair_set(edges@) =~= Set::empty());
        assert(sort_set(active@) =~= Set::empty());
    }
    let mut i: usize = 0;
    while i < goals.len()
        invariant
            0 <= i <= goals@.len(),
            gv == expr_views(goals@),
            active@.len() == 0,
            pair_set(edges@) == goal_edges(gv, i as int),
        decreases goals@.len() - i,
    {
        proof {
            assert(sort_set(active@) =~= Set::empty());
            assert(gv[i as int] == goals@[i as int]@);
        }
        build_sort_graph(&goals[i], &mut active, &mut edges);
        i = i + 1;
    }
    let mut j: usize = 0;
    proof {
        assert(pair_set(edges@) =~= goal_edges(gv, gv.len() as int).union(body_edges(fv, 0)));
    }
    while j < global_specs.len()
        invariant
            0 <= j <= global_specs@.len(),
            gv == expr_views(goals@),
            fv == crate::api::fdefs_view(global_specs@),
            active@.len() == 0,
            pair_set(edges@) == goal_edges(gv, gv.len() as int).union(body_edges(fv, j as int)),
        decreases global_specs@.len() - j,
    {
        proof {
            assert(sort_set(active@) =~= Set::empty());
            assert(fv[j as int].1 == crate::api::fdef_view(global_specs@[j as int].1));
        }
        match &global_specs[j].1.body {
            Some(b) => {
                build_sort_graph(b, &mut active, &mut edges);
                proof {
                    assert(pair_set(edges@) =~= goal_edges(gv, gv.len() as int).union(body_edges(fv, j + 1)));
                }
            },
            None => {
                proof {
                    assert(pair_set(edges@) =~= goal_edges(gv, gv.len() as int).union(body_edges(fv, j + 1)));
                }
            },
        }
        j = j + 1;
    }
    let ghost es = pair_set(edges@);
    proof {
        assert(es == all_sort_edges(gv, fv));
    }
    let (g, table) = lay_graph(&edges);
    let ghost tv = base_views(table@);
    let sccs = graph_sccs(&g);
    select_cycles(&g, &table, &sccs, Ghost(es))
}

/// Whether every sort is reported once: the components are pairwise
/// disjoint and none lists a sort twice.
pub open spec fn listed_once(cs: Seq<Vec<BaseType>>) -> bool {
    forall|c1: int, x: int, c2: int, y: int|
        #![trigger cs[c1]@[x]@, cs[c2]@[y]@]
        0 <= c1 < cs.len() && 0 <= c2 < cs.len() && 0 <= x < cs[c1]@.len() && 0 <= y < cs[c2]@.len()
            && (c1 != c2 || x != y) ==> cs[c1]@[x]@ != cs[c2]@[y]@
}

/// Whether the reported cycles come in reverse topological order: no sort
/// edge leads from a cycle to a later one.
pub open spec fn in_reverse_order(cs: Seq<Vec<BaseType>>, es: Set<(BaseTypeV, BaseTypeV)>) -> bool {
    forall|c1: int, x: int, c2: int, y: int|
        #![trigger cs[c1]@[x]@, cs[c2]@[y]@]
        0 <= c1 < c2 < cs.len() && 0 <= x < cs[c1]@.len() && 0 <= y < cs[c2]@.len()
            ==> !es.contains((cs[c1]@[x]@, cs[c2]@[y]@))
}

/// Whether a sort is among the reported cycles.
pub open spec fn reported(cs: Seq<Vec<BaseType>>, s: BaseTypeV) -> bool {
    exists|c: int, x: int| 0 <= c < cs.len() && 0 <= x < cs[c]@.len() && #[trigger] cs[c]@[x]@ == s
}

/// Whether a component is reported: two members or more, or one with a
/// self-loop.
pub open spec fn cyclic(g: GraphMap<u64, (), Directed>, c: Seq<u64>) -> bool {
    c.len() > 1 || (c.len() == 1 && graph_edges(g).contains((c[0], c[0])))
}

/// A reported component has a member on a cycle.
proof fn lemma_cyclic_on_cycle(g: GraphMap<u64, (), Directed>, r: Seq<Vec<u64>>, m: int)
    requires
        components(g, r),
        0 <= m < r.len(),
        cyclic(g, r[m]@),
    ensures
        on_cycle(graph_edges(g), r[m]@[0]),
{
    let c = r[m]@;
    assert(c.contains(c[0]));
    if c.len() > 1 {
        assert(c.contains(c[1]));
        assert(c[0] != c[1]);
        assert(reaches(graph_edges(g), c[0], c[1]));
        assert(reaches(graph_edges(g), c[1], c[0]));
        lemma_mutual_cycle(graph_edges(g), c[0], c[1]);
    } else {
        lemma_reaches_basic(graph_edges(g), c[0], c[0]);
        assert(graph_edges(g).contains((c[0], c[0])));
    }
}

/// The component of a node on a cycle is reported.
proof fn lemma_on_cycle_cyclic(g: GraphMap<u64, (), Directed>, tv: Seq<BaseTypeV>, e: Set<(BaseTypeV, BaseTypeV)>, r: Seq<Vec<u64>>, i: u64, m: int)
    requires
        laid(g, tv, e),
        components(g, r),
        on_cycle(graph_edges(g), i),
        0 <= m < r.len(),
        r[m]@.contains(i),
    ensures
        cyclic(g, r[m]@),
{
    let j = choose|j: u64| graph_edges(g).contains((i, j)) && reaches(graph_edges(g), j, i);
    assert(graph_nodes(g).contains(j));
    lemma_reaches_basic(graph_edges(g), i, j);
    assert(reaches(graph_edges(g), i, j));
    assert(r[m]@.contains(j));
    let c = r[m]@;
    if c.len() == 1 {
        let a = choose|a: int| 0 <= a < c.len() && c[a] == i;
        let b = choose|b: int| 0 <= b < c.len() && c[b] == j;
        assert(a == 0 && b == 0);
        assert(graph_edges(g).contains((c[0], c[0])));
    }
}

/// Picks the reported components and gives them as sorts.
fn select_cycles(
    g: &GraphMap<u64, (), Directed>,
    table: &Vec<BaseType>,
    sccs: &Vec<Vec<u64>>,
    Ghost(es): Ghost<Set<(BaseTypeV, BaseTypeV)>>,
) -> (r: Result<(), Vec<Vec<BaseType>>>)
    requires
        laid(*g, base_views(table@), es),
        components(*g, sccs@),
    ensures
        r is Ok <==> forall|s: BaseTypeV| !on_cycle(es, s),
        r matches Err(cs) ==> forall|c: int| #![trigger cs@[c]] 0 <= c < cs@.len() ==> {
            &&& cs@[c]@.len() > 0
            &&& forall|x: int, y: int|
                0 <= x < cs@[c]@.len() && 0 <= y < cs@[c]@.len() ==> reaches(es, #[trigger] cs@[c]@[x]@, #[trigger] cs@[c]@[y]@)
            &&& cs@[c]@.len() == 1 ==> es.contains((cs@[c]@[0]@, cs@[c]@[0]@))
        },
        r is Err ==> forall|s: BaseTypeV| #[trigger] on_cycle(es, s) ==> reported(r->Err_0@, s),
        r matches Err(cs) ==> listed_once(cs@),
        r matches Err(cs) ==> in_reverse_order(cs@, es),
{
    let ghost tv = base_views(table@);
    let mut cycles: Vec<Vec<BaseType>> = Vec::new();
    let ghost mut picked: Seq<int> = Seq::empty();
    let mut m: usize = 0;
    while m < sccs.len()
        invariant
            0 <= m <= sccs@.len(),
            tv == base_views(table@),
            laid(*g, tv, es),
            components(*g, sccs@),
            cycles@.len() == picked.len(),
            forall|c: int| 0 <= c < picked.len() ==> 0 <= #[trigger] picked[c] < m && cyclic(*g, sccs@[picked[c]]@),
            forall|a: int, b: int| 0 <= a < b < picked.len() ==> #[trigger] picked[a] < #[trigger] picked[b],
            forall|c: int| #![trigger cycles@[c]] 0 <= c < picked.len() ==> cycles@[c]@.len() == sccs@[picked[c]]@.len()
                && forall|x: int| 0 <= x < cycles@[c]@.len() ==> (#[trigger] cycles@[c]@[x])@ == tv[sccs@[picked[c]]@[x] as int],
            forall|k: int| 0 <= k < m && cyclic(*g, #[trigger] sccs@[k]@) ==> exists|c: int| 0 <= c < picked.len() && picked[c] == k,
        decreases sccs@.len() - m,
    {
        let comp = &sccs[m];
        proof {
            assert(sccs@[m as int]@.len() > 0);
        }
        let pick = comp.len() > 1 || graph_contains_edge(g, comp[0], comp[0]);
        if pick {
            proof {
                assert forall|k: int| 0 <= k < comp@.len() implies (#[trigger] comp@[k] as int) < table@.len() by {
                    assert(comp@.contains(comp@[k]));
                    assert(graph_nodes(*g).contains(comp@[k]));
                }
            }
            let sorts = sorts_of_ids(table, comp);
            let ghost old_picked = picked;
            cycles.push(sorts);
            proof {
                picked = picked.push(m as int);
                assert(cycles@.last() == sorts);
                assert(picked[picked.len() - 1] == m as int);
                assert forall|k: int| 0 <= k < m + 1 && cyclic(*g, #[trigger] sccs@[k]@) implies exists|c: int| 0 <= c < picked.len() && picked[c] == k by {
                    if k < m {
                        let c = choose|c: int| 0 <= c < old_picked.len() && old_picked[c] == k;
                        assert(picked[c] == k);
                    } else {
                        assert(picked[picked.len() - 1] == k);
                    }
                }
            }
        } else {
            proof {
                assert(!cyclic(*g, sccs@[m as int]@));
            }
        }
        m = m + 1;
    }
    proof {
        assert forall|s: BaseTypeV| #[trigger] on_cycle(es, s) implies exists|c: int, x: int|
            0 <= c < cycles@.len() && 0 <= x < cycles@[c]@.len() && #[trigger] cycles@[c]@[x]@ == s by {
            let b = choose|b: BaseTypeV| es.contains((s, b)) && reaches(es, b, s);
            assert(tv.contains(s));
            let i0 = choose|a: int| 0 <= a < tv.len() && tv[a] == s;
            let i = i0 as u64;
            lemma_cycle_lifted(*g, tv, es, i);
            let j = choose|j: u64| graph_edges(*g).contains((i, j)) && reaches(graph_edges(*g), j, i);
            assert(graph_nodes(*g).contains(i));
            let k = choose|k: int| 0 <= k < sccs@.len() && #[trigger] sccs@[k]@.contains(i);
            lemma_on_cycle_cyclic(*g, tv, es, sccs@, i, k);
            let c = choose|c: int| 0 <= c < picked.len() && picked[c] == k;
            let x = choose|x: int| 0 <= x < sccs@[k]@.len() && sccs@[k]@[x] == i;
            assert(cycles@[c]@[x]@ == tv[i as int]);
        }
        assert forall|c: int| #![trigger cycles@[c]] 0 <= c < cycles@.len() implies {
            &&& cycles@[c]@.len() > 0
            &&& forall|x: int, y: int|
                0 <= x < cycles@[c]@.len() && 0 <= y < cycles@[c]@.len() ==> reaches(es, #[trigger] cycles@[c]@[x]@, #[trigger] cycles@[c]@[y]@)
            &&& cycles@[c]@.len() == 1 ==> es.contains((cycles@[c]@[0]@, cycles@[c]@[0]@))
        } by {
            let comp = sccs@[picked[c]]@;
            assert(comp.len() > 0);
            assert forall|x: int, y: int|
                0 <= x < cycles@[c]@.len() && 0 <= y < cycles@[c]@.len() implies reaches(es, #[trigger] cycles@[c]@[x]@, #[trigger] cycles@[c]@[y]@) by {
                assert(comp.contains(comp[x]));
                assert(comp.contains(comp[y]));
                assert(reaches(graph_edges(*g), comp[x], comp[y]));
                assert(graph_nodes(*g).contains(comp[x]));
                lemma_ids_to_sorts(*g, tv, es, comp[x], comp[y]);
                assert(cycles@[c]@[x]@ == tv[comp[x] as int]);
                assert(cycles@[c]@[y]@ == tv[comp[y] as int]);
            }
            if cycles@[c]@.len() == 1 {
                assert(graph_edges(*g).contains((comp[0], comp[0])));
                assert(lifted(tv, es, comp[0], comp[0]));
                assert(cycles@[c]@[0]@ == tv[comp[0] as int]);
            }
        }
    }
    proof {
        assert forall|c1: int, x: int, c2: int, y: int|
            0 <= c1 < cycles@.len() && 0 <= c2 < cycles@.len() && 0 <= x < cycles@[c1]@.len() && 0 <= y < cycles@[c2]@.len()
                && (c1 != c2 || x != y) implies #[trigger] cycles@[c1]@[x]@ != #[trigger] cycles@[c2]@[y]@ by {
            let p1 = picked[c1];
            let p2 = picked[c2];
            let i1 = sccs@[p1]@[x];
            let i2 = sccs@[p2]@[y];
            assert(sccs@[p1]@.contains(i1));
            assert(sccs@[p2]@.contains(i2));
            assert(graph_nodes(*g).contains(i1));
            assert(graph_nodes(*g).contains(i2));
            assert(cycles@[c1]@[x]@ == tv[i1 as int]);
            assert(cycles@[c2]@[y]@ == tv[i2 as int]);
            if tv[i1 as int] == tv[i2 as int] {
                assert(i1 == i2);
                if c1 != c2 {
                    if c1 < c2 {
                        assert(p1 < p2);
                        assert(!sccs@[p2]@.contains(i1));
                    } else {
                        assert(p2 < p1);
                        assert(!sccs@[p1]@.contains(i2));
                    }
                } else {
                    assert(sccs@[p1]@.no_duplicates());
                }
            }
        }
    }
    proof {
        assert forall|c1: int, x: int, c2: int, y: int|
            0 <= c1 < c2 < cycles@.len() && 0 <= x < cycles@[c1]@.len() && 0 <= y < cycles@[c2]@.len()
                implies !es.contains((#[trigger] cycles@[c1]@[x]@, #[trigger] cycles@[c2]@[y]@)) by {
            let p1 = picked[c1];
            let p2 = picked[c2];
            let i1 = sccs@[p1]@[x];
            let i2 = sccs@[p2]@[y];
            assert(p1 < p2);
            assert(sccs@[p1]@.contains(i1));
            assert(sccs@[p2]@.contains(i2));
            assert(graph_nodes(*g).contains(i1));
            assert(graph_nodes(*g).contains(i2));
            assert(cycles@[c1]@[x]@ == tv[i1 as int]);
            assert(cycles@[c2]@[y]@ == tv[i2 as int]);
            if es.contains((tv[i1 as int], tv[i2 as int])) {
                assert(lifted(tv, es, i1, i2));
                assert(graph_edges(*g).contains((i1, i2)));
            }
        }
    }
    if cycles.len() == 0 {
        Ok(())
    } else {
        proof {
            let comp = sccs@[picked[0]]@;
            lemma_cyclic_on_cycle(*g, sccs@, picked[0]);
            assert(comp.contains(comp[0]));
            assert(graph_nodes(*g).contains(comp[0]));
            lemma_cycle_lifted(*g, tv, es, comp[0]);
            assert(on_cycle(es, tv[comp[0] as int]));
            assert(forall|s: BaseTypeV| #[trigger] on_cycle(es, s) ==> reported(cycles@, s));
        }
        Err(cycles)
    }
}

/// A sort as the messages name it: `Unit`, `Bool`, a user sort by name, a
/// tuple as `(A, B)`.
pub open spec fn base_text(b: BaseTypeV) -> Seq<char>
    decreases b, 1int,
{
    match b {
        BaseTypeV::Unit => "Unit"@,
        BaseTypeV::Bool => "Bool"@,
        BaseTypeV::Custom(n) => n,
        BaseTypeV::Tuple(ts) => "("@ + join(", "@, base_texts(ts, ts.len() as int)) + ")"@,
    }
}

/// The texts of the first `n` sorts.
pub open spec fn base_texts(ts: Seq<BaseTypeV>, n: int) -> Seq<Seq<char>>
    decreases ts, n,
{
    if n <= 0 || n > ts.len() {
        Seq::empty()
    } else {
        base_texts(ts, n - 1).push(base_text(ts[n - 1]))
    }
}

/// A cycle for a message: a self-loop as `self-loop ⤷ A ⤴`, a longer
/// cycle as `⤷ A → B ⤴`.
pub open spec fn cycle_text(c: Seq<BaseTypeV>) -> Seq<char> {
    if c.len() == 1 {
        "self-loop ⤷ "@ + base_text(c[0]) + " ⤴"@
    } else {
        "⤷ "@ + join(" → "@, base_texts(c, c.len() as int)) + " ⤴"@
    }
}

/// The first `n` texts are `n`.
proof fn lemma_base_texts_len(ts: Seq<BaseTypeV>, n: int)
    requires
        0 <= n <= ts.len(),
    ensures
        base_texts(ts, n).len() == n,
    decreases n,
{
    if n > 0 {
        lemma_base_texts_len(ts, n - 1);
    }
}

/// A sort as the messages name it (see [`base_text`]).
#[verifier::loop_isolation(false)]
fn render_base_type(b: &BaseType) -> (r: String)
    ensures
        r@ == base_text(b@),
    decreases b,
{
    match b {
        BaseType::Unit => {
            proof {
                assert(b@ == BaseTypeV::Unit);
            }
            String::from_str("Unit")
        },
        BaseType::Bool => {
            proof {
                assert(b@ == BaseTypeV::Bool);
            }
            String::from_str("Bool")
        },
        BaseType::Custom(n) => n.clone(),
        BaseType::Tuple(ts) => {
            let ghost tv = base_views(ts@);
            let ghost parts = base_texts(tv, tv.len() as int);
            proof {
                assert(b@ == BaseTypeV::Tuple(tv));
            }
            let mut inner = String::new();
            let mut i: usize = 0;
            while i < ts.len()
                invariant
                    0 <= i <= ts@.len(),
                    tv == base_views(ts@),
                    inner@ == join(", "@, base_texts(tv, i as int)),
                decreases ts@.len() - i,
            {
                proof {
                    assert(decreases_to!(*b => (*b)->Tuple_0));
                    assert(decreases_to!(ts@ => ts@[i as int]));
                }
                let one = render_base_type(&ts[i]);
                proof {
                    assert(tv[i as int] == ts@[i as int]@);
                    lemma_base_texts_len(tv, i as int);
                }
                append_joined(&mut inner, ", ", one.as_str(), i == 0, Ghost(base_texts(tv, i as int)));
                i = i + 1;
            }
            let mut out = String::from_str("(");
            out.append(inner.as_str());
            out.append(")");
            out
        },
    }
}

/// A cycle for a message (see [`cycle_text`]).
pub fn render_cycle(c: &Vec<BaseType>) -> (r: String)
    ensures
        r@ == cycle_text(base_views(c@)),
{
    let ghost cv = base_views(c@);
    if c.len() == 1 {
        let name = render_base_type(&c[0]);
        let mut out = String::from_str("self-loop ⤷ ");
        out.append(name.as_str());
        out.append(" ⤴");
        return out;
    }
    let mut inner = String::new();
    let mut i: usize = 0;
    while i < c.len()
        invariant
            0 <= i <= c@.len(),
            cv == base_views(c@),
            inner@ == join(" → "@, base_texts(cv, i as int)),
        decreases c@.len() - i,
    {
        let one = render_base_type(&c[i]);
        proof {
            assert(cv[i as int] == c@[i as int]@);
            lemma_base_texts_len(cv, i as int);
        }
        append_joined(&mut inner, " → ", one.as_str(), i == 0, Ghost(base_texts(cv, i as int)));
        i = i + 1;
    }
    let mut out = String::from_str("⤷ ");
    out.append(inner.as_str());
    out.append(" ⤴");
    out
}

} // verus!
