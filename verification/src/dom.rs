//! Dominator analysis: dominator sets by iterative fixpoint, the dominator
//! tree and the dominance frontier.
//!
//! A block a dominates a block b when every path from the entry block 0 to b
//! passes through a.  The fixpoint iteration starts from the full set at every
//! block and shrinks it in reverse postorder until the dominator equations
//! hold; the result is proved to coincide exactly with the path definition.

use vstd::prelude::*;

use crate::cfg::{graph_in_bounds, graph_inverse, graph_view, strictly_increasing, contains_usize};

verus! {

broadcast use vstd::seq_lib::lemma_seq_contains_after_push;

/// A path of the graph: a non-empty sequence of nodes that starts at the
/// entry block 0 and follows an edge at every step.
pub open spec fn is_path(g: Seq<Seq<usize>>, p: Seq<usize>) -> bool {
    &&& p.len() > 0
    &&& p[0] == 0usize
    &&& forall|t: int| 0 <= t < p.len() ==> #[trigger] p[t] < g.len()
    &&& forall|t: int| 0 <= t < p.len() - 1 ==> (#[trigger] g[p[t] as int]).contains(p[t + 1])
}

/// True when some path of `g` ends at `v`.
pub open spec fn reaches(g: Seq<Seq<usize>>, v: usize) -> bool {
    exists|p: Seq<usize>| is_path(g, p) && p.last() == v
}

/// True when every path of `g` from the entry to `v` passes through `a`.
pub open spec fn dominates(g: Seq<Seq<usize>>, a: usize, v: usize) -> bool {
    forall|p: Seq<usize>| is_path(g, p) && p.last() == v ==> p.contains(a)
}

/// The one-node path that sits at the entry block.
pub proof fn lemma_entry_path(g: Seq<Seq<usize>>)
    requires
        g.len() > 0,
    ensures
        is_path(g, seq![0usize]),
        reaches(g, 0usize),
{
    let p = seq![0usize];
    assert(is_path(g, p));
    assert(p.last() == 0usize);
}

/// A path extended along an edge is a path.
pub proof fn lemma_path_extend(g: Seq<Seq<usize>>, p: Seq<usize>, s: usize)
    requires
        is_path(g, p),
        g[p.last() as int].contains(s),
        s < g.len(),
    ensures
        is_path(g, p.push(s)),
        p.push(s).last() == s,
{
    let q = p.push(s);
    assert forall|t: int| 0 <= t < q.len() - 1 implies (#[trigger] g[q[t] as int]).contains(
        q[t + 1],
    ) by {
        if t < p.len() - 1 {
            assert(q[t] == p[t] && q[t + 1] == p[t + 1]);
        } else {
            assert(q[t] == p.last() && q[t + 1] == s);
        }
    }
}

/// A non-empty prefix of a path is a path.
pub proof fn lemma_path_prefix(g: Seq<Seq<usize>>, p: Seq<usize>, m: int)
    requires
        is_path(g, p),
        0 < m <= p.len(),
    ensures
        is_path(g, p.take(m)),
{
}

/// Every block is on every path that ends at it, and the entry is on every
/// path: each block dominates itself and is dominated by the entry.
pub proof fn lemma_dominates_basic(g: Seq<Seq<usize>>, v: usize)
    ensures
        dominates(g, v, v),
        dominates(g, 0usize, v),
{
    assert forall|p: Seq<usize>| is_path(g, p) && p.last() == v implies p.contains(v) by {
        assert(p[p.len() - 1] == v);
    }
    assert forall|p: Seq<usize>| is_path(g, p) && p.last() == v implies p.contains(0usize) by {
        assert(p[0] == 0usize);
    }
}

/// Only the entry dominates the entry.
pub proof fn lemma_entry_dominators(g: Seq<Seq<usize>>, a: usize)
    requires
        g.len() > 0,
        dominates(g, a, 0usize),
    ensures
        a == 0usize,
{
    lemma_entry_path(g);
    let p = seq![0usize];
    assert(p.last() == 0usize);
    assert(p.contains(a));
    assert(p[choose|j: int| 0 <= j < p.len() && p[j] == a] == a);
}

/// Dominator inclusion is transitive: when a dominates b and b dominates c,
/// a dominates c.
pub proof fn lemma_dominates_transitive(g: Seq<Seq<usize>>, a: usize, b: usize, c: usize)
    requires
        dominates(g, a, b),
        dominates(g, b, c),
    ensures
        dominates(g, a, c),
{
    assert forall|p: Seq<usize>| is_path(g, p) && p.last() == c implies p.contains(a) by {
        assert(p.contains(b));
        let i = choose|i: int| 0 <= i < p.len() && p[i] == b;
        lemma_path_prefix(g, p, i + 1);
        let q = p.take(i + 1);
        assert(q.last() == b);
        assert(q.contains(a));
        let j = choose|j: int| 0 <= j < q.len() && q[j] == a;
        assert(p[j] == a);
    }
}

/// A dominator of a block, other than the block itself, dominates each of the
/// block's predecessors.
pub proof fn lemma_dominates_step(g: Seq<Seq<usize>>, a: usize, u: usize, v: usize)
    requires
        dominates(g, a, v),
        a != v,
        g[u as int].contains(v),
        u < g.len(),
        v < g.len(),
    ensures
        dominates(g, a, u),
{
    assert forall|p: Seq<usize>| is_path(g, p) && p.last() == u implies p.contains(a) by {
        lemma_path_extend(g, p, v);
        let q = p.push(v);
        assert(q.contains(a));
        let j = choose|j: int| 0 <= j < q.len() && q[j] == a;
        assert(j < p.len());
        assert(p[j] == a);
    }
}

/// How many entries of a row are set.
pub closed spec fn count_true(s: Seq<bool>) -> int
    decreases s.len(),
{
    if s.len() == 0 {
        0
    } else {
        count_true(s.drop_last()) + if s.last() {
            1int
        } else {
            0int
        }
    }
}

pub proof fn lemma_count_true_bounds(s: Seq<bool>)
    ensures
        0 <= count_true(s) <= s.len(),
    decreases s.len(),
{
    if s.len() > 0 {
        lemma_count_true_bounds(s.drop_last());
    }
}

pub proof fn lemma_count_true_update(s: Seq<bool>, i: int)
    requires
        0 <= i < s.len(),
        !s[i],
    ensures
        count_true(s.update(i, true)) == count_true(s) + 1,
    decreases s.len(),
{
    if i == s.len() - 1 {
        assert(s.update(i, true).drop_last() =~= s.drop_last());
    } else {
        assert(s.update(i, true).drop_last() =~= s.drop_last().update(i, true));
        lemma_count_true_update(s.drop_last(), i);
    }
}

/// The work still pending on the traversal stack: for each entry, the edges
/// of its node not yet examined.
pub closed spec fn pending_sum(g: Seq<Seq<usize>>, st: Seq<(usize, usize)>) -> int
    decreases st.len(),
{
    if st.len() == 0 {
        0
    } else {
        pending_sum(g, st.drop_last()) + (g[st.last().0 as int].len() - st.last().1)
    }
}

pub proof fn lemma_pending_sum_nonneg(g: Seq<Seq<usize>>, st: Seq<(usize, usize)>)
    requires
        forall|i: int|
            0 <= i < st.len() ==> (#[trigger] st[i]).0 < g.len() && st[i].1 <= g[st[i].0 as int].len(),
    ensures
        pending_sum(g, st) >= 0,
    decreases st.len(),
{
    if st.len() > 0 {
        lemma_pending_sum_nonneg(g, st.drop_last());
    }
}

pub proof fn lemma_pending_sum_push(g: Seq<Seq<usize>>, st: Seq<(usize, usize)>, e: (usize, usize))
    ensures
        pending_sum(g, st.push(e)) == pending_sum(g, st) + (g[e.0 as int].len() - e.1),
{
    assert(st.push(e).drop_last() =~= st);
    assert(st.push(e).last() == e);
}

/// Visits every block reachable from the entry, depth first with an explicit
/// stack, and returns the blocks in postorder: each block after all of its
/// successors' subtrees, the entry block last.
///
/// The returned order holds each reachable block exactly once and nothing
/// else.
#[verifier::loop_isolation(false)]
pub fn postorder(succs: &Vec<Vec<usize>>) -> (order: Vec<usize>)
    requires
        succs@.len() > 0,
        graph_in_bounds(graph_view(succs@)),
    ensures
        order@.len() > 0,
        order@.last() == 0usize,
        forall|i: int| 0 <= i < order@.len() ==> #[trigger] order@[i] < succs@.len(),
        forall|i: int, j: int| 0 <= i < j < order@.len() ==> order@[i] != order@[j],
        forall|x: usize| #[trigger] order@.contains(x) <==> reaches(graph_view(succs@), x),
{
    let n = succs.len();
    let ghost g = graph_view(succs@);
    let mut visited: Vec<bool> = Vec::new();
    let mut i: usize = 0;
    while i < n
        invariant
            i <= n,
            visited@.len() == i,
            forall|j: int| 0 <= j < i ==> !(#[trigger] visited@[j]),
        decreases n - i,
    {
        visited.push(false);
        i = i + 1;
    }
    let mut order: Vec<usize> = Vec::new();
    let mut stack: Vec<(usize, usize)> = Vec::new();
    visited[0] = true;
    stack.push((0, 0));
    proof {
        lemma_entry_path(g);
        lemma_count_true_bounds(visited@);
        assert(stack@[0].0 == 0usize);
    }
    while stack.len() > 0
        invariant
            visited@.len() == n,
            visited@[0],
            forall|i: int|
                0 <= i < stack@.len() ==> (#[trigger] stack@[i]).0 < n && stack@[i].1 <= g[
                stack@[i].0 as int].len(),
            forall|i: int| 0 <= i < stack@.len() ==> visited@[(#[trigger] stack@[i]).0 as int],
            forall|i: int, j: int|
                0 <= i < j < stack@.len() ==> (#[trigger] stack@[i]).0 != (#[trigger] stack@[j]).0,
            stack@.len() > 0 ==> stack@[0].0 == 0usize,
            forall|i: int|
                0 <= i < order@.len() ==> #[trigger] order@[i] < n && visited@[order@[i] as int],
            forall|i: int, j: int| 0 <= i < j < order@.len() ==> order@[i] != order@[j],
            forall|i: int, j: int|
                0 <= i < order@.len() && 0 <= j < stack@.len() ==> #[trigger] order@[i]
                    != (#[trigger] stack@[j]).0,
            forall|x: usize|
                x < n && #[trigger] visited@[x as int] ==> order@.contains(x) || exists|i: int|
                    0 <= i < stack@.len() && (#[trigger] stack@[i]).0 == x,
            forall|x: usize| x < n && #[trigger] visited@[x as int] ==> reaches(g, x),
            forall|oi: int, k: int|
                0 <= oi < order@.len() && 0 <= k < g[order@[oi] as int].len() ==> visited@[(
                #[trigger] g[order@[oi] as int][k]) as int],
            forall|i: int, k: int|
                0 <= i < stack@.len() && 0 <= k < stack@[i].1 ==> visited@[(#[trigger] g[stack@[
                i].0 as int][k]) as int],
            stack@.len() == 0 ==> order@.len() > 0 && order@.last() == 0usize,
            stack@.len() > 0 ==> !order@.contains(0usize),
        decreases
                n - count_true(visited@),
                pending_sum(g, stack@),
                stack@.len(),
    {
        proof {
            lemma_count_true_bounds(visited@);
            lemma_pending_sum_nonneg(g, stack@);
        }
        let li = stack.len() - 1;
        let top = stack[li];
        let u = top.0;
        let c = top.1;
        let ghost pre_stack = stack@;
        if c < succs[u].len() {
            stack[li] = (u, c + 1);
            proof {
                assert(stack@ =~= pre_stack.drop_last().push((u, (c + 1) as usize)));
                lemma_pending_sum_push(g, pre_stack.drop_last(), (u, (c + 1) as usize));
                assert(pre_stack =~= pre_stack.drop_last().push((u, c as usize)));
                lemma_pending_sum_push(g, pre_stack.drop_last(), (u, c as usize));
            }
            let s = succs[u][c];
            proof {
                assert(g[u as int].contains(s));
            }
            if !visited[s] {
                let ghost pre_visited = visited@;
                let ghost pre_stack2 = stack@;
                visited[s] = true;
                stack.push((s, 0));
                proof {
                    lemma_count_true_update(pre_visited, s as int);
                    lemma_pending_sum_push(g, pre_stack2, (s, 0usize));
                    let pu = choose|pu: Seq<usize>| is_path(g, pu) && pu.last() == u;
                    lemma_path_extend(g, pu, s);
                    assert(stack@[stack@.len() - 1].0 == s);
                    assert forall|x: usize| x < n && #[trigger] visited@[x as int] implies
                        order@.contains(x) || exists|i: int|
                            0 <= i < stack@.len() && (#[trigger] stack@[i]).0 == x by {
                        if x == s {
                            assert(stack@[stack@.len() - 1].0 == x);
                        } else {
                            assert(pre_visited[x as int]);
                            if !order@.contains(x) {
                                let i = choose|i: int|
                                    0 <= i < pre_stack.len() && (#[trigger] pre_stack[i]).0 == x;
                                assert(stack@[i].0 == x);
                            }
                        }
                    }
                }
            } else {
                proof {
                    assert forall|x: usize| x < n && #[trigger] visited@[x as int] implies
                        order@.contains(x) || exists|i: int|
                            0 <= i < stack@.len() && (#[trigger] stack@[i]).0 == x by {
                        if !order@.contains(x) {
                            let i = choose|i: int|
                                0 <= i < pre_stack.len() && (#[trigger] pre_stack[i]).0 == x;
                            assert(stack@[i].0 == x);
                        }
                    }
                }
            }
        } else {
            let _ = stack.pop();
            order.push(u);
            proof {
                assert(stack@ =~= pre_stack.drop_last());
                assert(pre_stack =~= stack@.push((u, c as usize)));
                lemma_pending_sum_push(g, stack@, (u, c as usize));
                if stack@.len() == 0 {
                    assert(pre_stack[0] == (u, c as usize));
                    assert(u == 0usize);
                }
                assert(order@.last() == u);
                assert(order@.contains(u));
                assert forall|x: usize| x < n && #[trigger] visited@[x as int] implies
                    order@.contains(x) || exists|i: int|
                        0 <= i < stack@.len() && (#[trigger] stack@[i]).0 == x by {
                    if x != u && !order@.contains(x) {
                        let i = choose|i: int|
                            0 <= i < pre_stack.len() && (#[trigger] pre_stack[i]).0 == x;
                        assert(i != pre_stack.len() - 1);
                        assert(stack@[i].0 == x);
                    }
                }
            }
        }
        proof {
            lemma_count_true_bounds(visited@);
            lemma_pending_sum_nonneg(g, stack@);
        }
    }
    proof {
        assert forall|x: usize| #[trigger] order@.contains(x) implies reaches(g, x) by {
            let i = choose|i: int| 0 <= i < order@.len() && order@[i] == x;
        }
        assert forall|x: usize| reaches(g, x) implies order@.contains(x) by {
            let p = choose|p: Seq<usize>| is_path(g, p) && p.last() == x;
            lemma_path_reaches_visited(g, visited@, p);
            assert(visited@[p.last() as int]);
        }
    }
    order
}

/// Along a path, a visited set that holds the entry and is closed under
/// successors holds every node of the path.
proof fn lemma_path_reaches_visited(g: Seq<Seq<usize>>, visited: Seq<bool>, p: Seq<usize>)
    requires
        visited.len() == g.len(),
        is_path(g, p),
        visited[0],
        forall|u: usize, k: int|
            u < g.len() && visited[u as int] && 0 <= k < g[u as int].len() ==> visited[(
            #[trigger] g[u as int][k]) as int],
    ensures
        visited[p.last() as int],
    decreases p.len(),
{
    if p.len() == 1 {
    } else {
        lemma_path_prefix(g, p, p.len() - 1);
        let q = p.take(p.len() - 1);
        lemma_path_reaches_visited(g, visited, q);
        let u = p[p.len() - 2];
        assert(q.last() == u);
        assert(g[u as int].contains(p.last()));
        let k = choose|k: int| 0 <= k < g[u as int].len() && g[u as int][k] == p.last();
    }
}


/// The rows of a boolean dominator matrix.
pub open spec fn rows_view(d: Seq<Vec<bool>>) -> Seq<Seq<bool>> {
    d.map_values(|r: Vec<bool>| r@)
}

/// The dominator equation's right-hand side at block `v`, entry `a`: the
/// block itself, or a block in every predecessor's current set.
pub open spec fn new_bit(d: Seq<Seq<bool>>, ps: Seq<usize>, v: int, a: int) -> bool {
    a == v || forall|pj: int| 0 <= pj < ps.len() ==> d[(#[trigger] ps[pj]) as int][a]
}

/// The dominator equation holds at block `v`.
pub open spec fn fix_at(preds: Seq<Seq<usize>>, d: Seq<Seq<bool>>, v: int) -> bool {
    forall|a: int| 0 <= a < d.len() ==> (#[trigger] d[v][a] <==> new_bit(d, preds[v], v, a))
}

/// The block's current set contains the equation's right-hand side.
pub open spec fn prefix_at(preds: Seq<Seq<usize>>, d: Seq<Seq<bool>>, v: int) -> bool {
    forall|a: int| 0 <= a < d.len() && new_bit(d, preds[v], v, a) ==> #[trigger] d[v][a]
}

pub proof fn lemma_count_true_le(r1: Seq<bool>, r2: Seq<bool>)
    requires
        r1.len() == r2.len(),
        forall|i: int| 0 <= i < r1.len() && r1[i] ==> r2[i],
    ensures
        count_true(r1) <= count_true(r2),
    decreases r1.len(),
{
    if r1.len() > 0 {
        lemma_count_true_le(r1.drop_last(), r2.drop_last());
    }
}

pub proof fn lemma_count_true_lt(r1: Seq<bool>, r2: Seq<bool>, w: int)
    requires
        r1.len() == r2.len(),
        forall|i: int| 0 <= i < r1.len() && r1[i] ==> r2[i],
        0 <= w < r1.len(),
        !r1[w],
        r2[w],
    ensures
        count_true(r1) < count_true(r2),
    decreases r1.len(),
{
    if w == r1.len() - 1 {
        lemma_count_true_le(r1.drop_last(), r2.drop_last());
    } else {
        lemma_count_true_lt(r1.drop_last(), r2.drop_last(), w);
    }
}

/// How many entries of the whole matrix are set.
pub closed spec fn total_true(d: Seq<Seq<bool>>) -> int
    decreases d.len(),
{
    if d.len() == 0 {
        0
    } else {
        total_true(d.drop_last()) + count_true(d.last())
    }
}

pub proof fn lemma_total_true_nonneg(d: Seq<Seq<bool>>)
    ensures
        total_true(d) >= 0,
    decreases d.len(),
{
    if d.len() > 0 {
        lemma_total_true_nonneg(d.drop_last());
        lemma_count_true_bounds(d.last());
    }
}

pub proof fn lemma_total_true_update(d: Seq<Seq<bool>>, v: int, r: Seq<bool>)
    requires
        0 <= v < d.len(),
    ensures
        total_true(d.update(v, r)) == total_true(d) - count_true(d[v]) + count_true(r),
    decreases d.len(),
{
    if v == d.len() - 1 {
        assert(d.update(v, r).drop_last() =~= d.drop_last());
        assert(d.update(v, r).last() == r);
    } else {
        assert(d.update(v, r).drop_last() =~= d.drop_last().update(v, r));
        assert(d.update(v, r).last() == d.last());
        lemma_total_true_update(d.drop_last(), v, r);
    }
}

/// Walking a path backwards through the dominator equations: an entry of the
/// final set of the path's last node lies on the path.
proof fn lemma_dom_on_path(
    g: Seq<Seq<usize>>,
    preds: Seq<Seq<usize>>,
    d: Seq<Seq<bool>>,
    p: Seq<usize>,
    a: usize,
)
    requires
        d.len() == g.len(),
        preds.len() == g.len(),
        graph_in_bounds(g),
        graph_inverse(g, preds),
        forall|x: int| 0 <= x < d.len() ==> (#[trigger] d[0][x] <==> x == 0),
        forall|v: usize|
            v < g.len() && v != 0 && reaches(g, v) ==> #[trigger] fix_at(preds, d, v as int),
        is_path(g, p),
        a < g.len(),
        d[p.last() as int][a as int],
    ensures
        p.contains(a),
    decreases p.len(),
{
    let v = p.last();
    if p.len() == 1 {
        assert(v == 0usize);
        assert(a == 0usize);
        assert(p[0] == a);
    } else if a == v {
        assert(p[p.len() - 1] == a);
    } else if v == 0 {
        assert(a == 0usize);
        assert(p[0] == a);
    } else {
        assert(reaches(g, v)) by {
            assert(is_path(g, p) && p.last() == v);
        }
        assert(fix_at(preds, d, v as int));
        let u = p[p.len() - 2];
        assert(g[u as int].contains(v)) by {
            assert(0 <= p.len() - 2 < p.len() - 1);
        }
        assert(preds[v as int].contains(u));
        let pj = choose|pj: int| 0 <= pj < preds[v as int].len() && preds[v as int][pj] == u;
        assert(new_bit(d, preds[v as int], v as int, a as int));
        assert(d[u as int][a as int]);
        lemma_path_prefix(g, p, p.len() - 1);
        let q = p.take(p.len() - 1);
        assert(q.last() == u);
        lemma_dom_on_path(g, preds, d, q, a);
        let j = choose|j: int| 0 <= j < q.len() && q[j] == a;
        assert(p[j] == a);
    }
}

/// A dominator-set table for graph `g`: row v holds exactly the blocks that
/// dominate block v, each row an ascending list of block indices.
pub open spec fn dominator_sets_ok(g: Seq<Seq<usize>>, d: Seq<Seq<usize>>) -> bool {
    &&& d.len() == g.len()
    &&& forall|v: int| 0 <= v < d.len() ==> strictly_increasing(#[trigger] d[v])
    &&& forall|v: int, a: usize|
        0 <= v < d.len() ==> (#[trigger] d[v].contains(a) <==> (a < g.len() && dominates(
            g,
            a,
            v as usize,
        )))
}

/// Dominator-set inclusion is transitive: when a's set holds b and b's set
/// holds a... i.e. when a dominates b and b dominates c, a dominates c, so
/// a stands in c's set.
pub proof fn lemma_dominator_inclusion_transitive(
    g: Seq<Seq<usize>>,
    d: Seq<Seq<usize>>,
    a: usize,
    b: usize,
    c: usize,
)
    requires
        dominator_sets_ok(g, d),
        b < g.len(),
        c < g.len(),
        d[b as int].contains(a),
        d[c as int].contains(b),
    ensures
        d[c as int].contains(a),
{
    assert(dominates(g, a, b));
    assert(dominates(g, b, c));
    lemma_dominates_transitive(g, a, b, c);
}

/// One sweep update: replacing block v's row by the dominator equation's
/// right-hand side keeps every invariant of the iteration, makes the
/// equation hold at v over the new matrix, and only shrinks the row.
proof fn lemma_sweep_update(
    g: Seq<Seq<usize>>,
    pv: Seq<Seq<usize>>,
    order: Seq<usize>,
    pre: Seq<Seq<bool>>,
    row: Seq<bool>,
    v: usize,
)
    requires
        pv.len() == g.len(),
        g.len() > 0,
        graph_in_bounds(g),
        graph_in_bounds(pv),
        graph_inverse(g, pv),
        pre.len() == g.len(),
        forall|w: int| 0 <= w < pre.len() ==> (#[trigger] pre[w]).len() == pre.len(),
        row.len() == pre.len(),
        forall|x: int|
            0 <= x < row.len() ==> (#[trigger] row[x] <==> new_bit(pre, pv[v as int], v as int, x)),
        v < g.len(),
        v != 0,
        order.contains(v),
        forall|a: int| 0 <= a < pre.len() ==> (#[trigger] pre[0][a] <==> a == 0),
        forall|w: int| 0 <= w < pre.len() ==> #[trigger] pre[w][w],
        forall|w: int| 0 <= w < pre.len() ==> #[trigger] pre[w][0],
        forall|w: usize, a: usize|
            w < pre.len() && a < pre.len() && #[trigger] dominates(g, a, w) ==> pre[w as int][a as int],
        forall|w: usize, a: int|
            w < pre.len() && 0 <= a < pre.len() && !order.contains(w) ==> #[trigger] pre[w as int][a],
        forall|w: usize|
            w < pre.len() && #[trigger] order.contains(w) && w != 0 ==> prefix_at(
                pv,
                pre,
                w as int,
            ),
    ensures
        forall|x: int| 0 <= x < row.len() && #[trigger] row[x] ==> pre[v as int][x],
        fix_at(pv, pre.update(v as int, row), v as int),
        forall|a: int|
            0 <= a < pre.len() ==> (#[trigger] pre.update(v as int, row)[0][a] <==> a == 0),
        forall|w: int| 0 <= w < pre.len() ==> #[trigger] pre.update(v as int, row)[w][w],
        forall|w: int| 0 <= w < pre.len() ==> #[trigger] pre.update(v as int, row)[w][0],
        forall|w: usize, a: usize|
            w < pre.len() && a < pre.len() && #[trigger] dominates(g, a, w) ==> pre.update(
                v as int,
                row,
            )[w as int][a as int],
        forall|w: usize, a: int|
            w < pre.len() && 0 <= a < pre.len() && !order.contains(w) ==> #[trigger] pre.update(
                v as int,
                row,
            )[w as int][a],
        forall|w: usize|
            w < pre.len() && #[trigger] order.contains(w) && w != 0 ==> prefix_at(
                pv,
                pre.update(v as int, row),
                w as int,
            ),
{
    let n = pre.len();
    let d1 = pre.update(v as int, row);
    // the new row only shrinks the old one
    assert forall|x: int| 0 <= x < n && #[trigger] row[x] implies pre[v as int][x] by {
        assert(prefix_at(pv, pre, v as int));
        assert(new_bit(pre, pv[v as int], v as int, x));
    }
    // the equation holds at v over the new matrix
    assert forall|x: int| 0 <= x < n implies (#[trigger] d1[v as int][x] <==> new_bit(
        d1,
        pv[v as int],
        v as int,
        x,
    )) by {
        assert(d1[v as int][x] == new_bit(pre, pv[v as int], v as int, x));
        if x == v as int {
            assert(new_bit(d1, pv[v as int], v as int, x));
        } else if d1[v as int][x] {
            assert forall|pj: int|
                0 <= pj < pv[v as int].len() implies d1[(#[trigger] pv[v as int][pj]) as int][x] by {
                let u = pv[v as int][pj];
                assert(pre[u as int][x]);
                if u as int != v as int {
                    assert(d1[u as int][x] == pre[u as int][x]);
                }
            }
            assert(new_bit(d1, pv[v as int], v as int, x));
        } else {
            assert(!new_bit(pre, pv[v as int], v as int, x));
            let pj = choose|pj: int|
                0 <= pj < pv[v as int].len() && !pre[(pv[v as int][pj]) as int][x];
            assert(!d1[(pv[v as int][pj]) as int][x]);
            assert(!new_bit(d1, pv[v as int], v as int, x));
        }
    }
    // every row keeps its own block and the entry
    assert forall|w: int| 0 <= w < n implies #[trigger] d1[w][w] && #[trigger] d1[w][0] by {
        assert(pre[w][w]);
        assert(pre[w][0]);
        if w == v as int {
            assert(d1[v as int][v as int]) by {
                assert(new_bit(pre, pv[v as int], v as int, v as int));
            }
            assert(d1[v as int][0]) by {
                assert forall|pj: int|
                    0 <= pj < pv[v as int].len() implies pre[(#[trigger] pv[v as int][pj]) as int][0] by {
                    let u = pv[v as int][pj];
                    assert(u < n);
                    assert(pre[u as int][0]);
                }
                assert(new_bit(pre, pv[v as int], v as int, 0));
            }
        }
    }
    // the prefix property is preserved everywhere
    assert forall|w: usize| w < n && #[trigger] order.contains(w) && w != 0 implies prefix_at(
        pv,
        d1,
        w as int,
    ) by {
        assert forall|x: int|
            0 <= x < n && new_bit(d1, pv[w as int], w as int, x) implies #[trigger] d1[w as int][x] by {
            assert(new_bit(pre, pv[w as int], w as int, x)) by {
                assert forall|pj: int|
                    0 <= pj < pv[w as int].len() && d1[(#[trigger] pv[w as int][pj]) as int][x] implies pre[pv[w as int][pj] as int][x] by {
                    let u = pv[w as int][pj];
                    assert(u < pv.len());
                    if u as int == v as int {
                        assert(d1[v as int][x] == row[x]);
                        assert(pre[v as int][x]);
                    } else {
                        assert(d1 == pre.update(v as int, row));
                        assert(d1[u as int] == pre[u as int]);
                    }
                }
            }
            assert(prefix_at(pv, pre, w as int));
            assert(pre[w as int][x]);
            if w as int == v as int {
                assert(d1[v as int][x] == new_bit(pre, pv[v as int], v as int, x));
            }
        }
    }
    // completeness is preserved
    assert forall|w: usize, a3: usize|
        w < n && a3 < n && #[trigger] dominates(g, a3, w) implies d1[w as int][a3 as int] by {
        assert(pre[w as int][a3 as int]);
        if w as int == v as int {
            if a3 != v {
                assert forall|pj: int|
                    0 <= pj < pv[v as int].len() implies pre[(#[trigger] pv[v as int][pj]) as int][a3 as int] by {
                    let u = pv[v as int][pj];
                    assert(pv[v as int].contains(u));
                    assert(g[u as int].contains(v));
                    lemma_dominates_step(g, a3, u, v);
                }
                assert(new_bit(pre, pv[v as int], v as int, a3 as int));
            }
        }
    }
}

/// Computes the dominator set of every block by iterative fixpoint.
///
/// `preds` and `succs` are the two directions of the control-flow graph.
/// Starting from the full set at every block (the entry from itself alone),
/// the blocks reachable from the entry are swept in reverse postorder,
/// intersecting the predecessors' sets, until nothing changes.  Row v of the
/// result is the ascending list of exactly the blocks that dominate v: every
/// block dominates itself, the entry dominates every block, the entry's row
/// is the entry alone, and a block unreachable from the entry keeps the
/// trivial full set.
#[verifier::loop_isolation(false)]
#[verifier::rlimit(100)]
pub fn find_dominators(preds: &Vec<Vec<usize>>, succs: &Vec<Vec<usize>>) -> (r: Vec<Vec<usize>>)
    requires
        preds@.len() == succs@.len(),
        succs@.len() > 0,
        graph_in_bounds(graph_view(succs@)),
        graph_in_bounds(graph_view(preds@)),
        graph_inverse(graph_view(succs@), graph_view(preds@)),
    ensures
        r@.len() == succs@.len(),
        dominator_sets_ok(graph_view(succs@), graph_view(r@)),
        forall|v: int|
            0 <= v < r@.len() ==> #[trigger] graph_view(r@)[v].contains(v as usize)
                && graph_view(r@)[v].contains(0usize),
        graph_view(r@)[0] == seq![0usize],
        forall|v: usize, a: usize|
            v < r@.len() && a < r@.len() && v != 0 && reaches(graph_view(succs@), v)
                && graph_view(preds@)[v as int].len() == 1 ==> (#[trigger] graph_view(
                r@,
            )[v as int].contains(a) <==> (a == v || graph_view(r@)[graph_view(preds@)[v as int][0] as int].contains(
                a,
            ))),
{
    let n = succs.len();
    let ghost g = graph_view(succs@);
    let ghost pv = graph_view(preds@);
    let order = postorder(succs);

    // the matrix: row v, entry a says whether a currently dominates v
    let mut doms: Vec<Vec<bool>> = Vec::new();
    let mut v: usize = 0;
    while v < n
        invariant
            v <= n,
            doms@.len() == v,
            forall|w: int| 0 <= w < v ==> #[trigger] rows_view(doms@)[w].len() == n,
            forall|w: int, a: int|
                0 <= w < v && 0 <= a < n ==> (#[trigger] rows_view(doms@)[w][a] <==> (w == 0 ==> a
                    == 0)),
        decreases n - v,
    {
        let mut row: Vec<bool> = Vec::new();
        let mut a: usize = 0;
        while a < n
            invariant
                a <= n,
                row@.len() == a,
                forall|x: int| 0 <= x < a ==> (#[trigger] row@[x] <==> (v == 0 ==> x == 0)),
            decreases n - a,
        {
            row.push(if v == 0 { a == 0 } else { true });
            a = a + 1;
        }
        let ghost old_doms = doms@;
        doms.push(row);
        proof {
            assert(rows_view(doms@) =~= rows_view(old_doms).push(doms@.last()@));
        }
        v = v + 1;
    }
    proof {
        lemma_total_true_nonneg(rows_view(doms@));
        assert forall|w: usize, a: usize| w < n && a < n && dominates(g, a, w) implies rows_view(
            doms@,
        )[w as int][a as int] by {
            if w == 0 {
                lemma_entry_dominators(g, a);
            }
        }
    }

    let mut changing = true;
    while changing
        invariant
            order@.len() > 0,
            order@.last() == 0usize,
            forall|i: int| 0 <= i < order@.len() ==> #[trigger] order@[i] < n,
            forall|i: int, j: int| 0 <= i < j < order@.len() ==> order@[i] != order@[j],
            forall|x: usize| #[trigger] order@.contains(x) <==> reaches(g, x),
            doms@.len() == n,
            forall|w: int| 0 <= w < n ==> #[trigger] rows_view(doms@)[w].len() == n,
            forall|a: int| 0 <= a < n ==> (#[trigger] rows_view(doms@)[0][a] <==> a == 0),
            forall|w: int| 0 <= w < n ==> #[trigger] rows_view(doms@)[w][w],
            forall|w: int| 0 <= w < n ==> #[trigger] rows_view(doms@)[w][0],
            forall|w: usize, a: usize|
                w < n && a < n && #[trigger] dominates(g, a, w) ==> rows_view(
                    doms@,
                )[w as int][a as int],
            forall|w: usize, a: int|
                w < n && 0 <= a < n && !order@.contains(w) ==> #[trigger] rows_view(
                    doms@,
                )[w as int][a],
            forall|w: usize|
                w < n && #[trigger] order@.contains(w) && w != 0 ==> prefix_at(
                    pv,
                    rows_view(doms@),
                    w as int,
                ),
            !changing ==> forall|w: usize|
                w < n && #[trigger] order@.contains(w) && w != 0 ==> fix_at(
                    pv,
                    rows_view(doms@),
                    w as int,
                ),
        decreases total_true(rows_view(doms@)), (if changing {
            1int
        } else {
            0int
        }),
    {
        proof {
            lemma_total_true_nonneg(rows_view(doms@));
        }
        changing = false;
        let ghost sweep_start = total_true(rows_view(doms@));
        let mut t: usize = order.len() - 1;
        while t > 0
            invariant
                t <= order@.len() - 1,
                doms@.len() == n,
                forall|w: int| 0 <= w < n ==> #[trigger] rows_view(doms@)[w].len() == n,
                forall|a: int| 0 <= a < n ==> (#[trigger] rows_view(doms@)[0][a] <==> a == 0),
                forall|w: int| 0 <= w < n ==> #[trigger] rows_view(doms@)[w][w],
                forall|w: int| 0 <= w < n ==> #[trigger] rows_view(doms@)[w][0],
                forall|w: usize, a: usize|
                    w < n && a < n && #[trigger] dominates(g, a, w) ==> rows_view(
                        doms@,
                    )[w as int][a as int],
                forall|w: usize, a: int|
                    w < n && 0 <= a < n && !order@.contains(w) ==> #[trigger] rows_view(
                        doms@,
                    )[w as int][a],
                forall|w: usize|
                    w < n && #[trigger] order@.contains(w) && w != 0 ==> prefix_at(
                        pv,
                        rows_view(doms@),
                        w as int,
                    ),
                total_true(rows_view(doms@)) <= sweep_start,
                changing ==> total_true(rows_view(doms@)) < sweep_start,
                !changing ==> total_true(rows_view(doms@)) == sweep_start,
                !changing ==> forall|s: int|
                    t <= s < order@.len() - 1 ==> fix_at(
                        pv,
                        rows_view(doms@),
                        #[trigger] order@[s] as int,
                    ),
            decreases t,
        {
            t = t - 1;
            let v = order[t];
            proof {
                assert(v != 0) by {
                    assert(order@[order@.len() - 1] == 0usize);
                }
            }
            let ghost d0 = rows_view(doms@);
            let pl = preds[v].len();
            let mut row: Vec<bool> = Vec::new();
            let mut a: usize = 0;
            while a < n
                invariant
                    a <= n,
                    row@.len() == a,
                    v < n,
                    pl == pv[v as int].len(),
                    doms@.len() == n,
                    forall|w: int| 0 <= w < n ==> #[trigger] rows_view(doms@)[w].len() == n,
                    d0 == rows_view(doms@),
                    forall|x: int| 0 <= x < a ==> (#[trigger] row@[x] <==> new_bit(
                        d0,
                        pv[v as int],
                        v as int,
                        x,
                    )),
                decreases n - a,
            {
                let mut bit = true;
                let mut pi: usize = 0;
                while pi < pl
                    invariant
                        pi <= pl,
                        a < n,
                        v < n,
                        pl == pv[v as int].len(),
                        doms@.len() == n,
                        forall|w: int| 0 <= w < n ==> #[trigger] rows_view(doms@)[w].len() == n,
                        d0 == rows_view(doms@),
                        bit <==> (forall|pj: int|
                            0 <= pj < pi ==> d0[(#[trigger] pv[v as int][pj]) as int][a as int]),
                    decreases pl - pi,
                {
                    let p = preds[v][pi];
                    proof {
                        assert(pv[v as int][pi as int] < n);
                        assert(doms@[p as int]@ == rows_view(doms@)[p as int]);
                    }
                    if !doms[p][a] {
                        bit = false;
                    }
                    pi = pi + 1;
                }
                row.push(a == v || bit);
                a = a + 1;
            }
            // did the row change?
            let mut same = true;
            let mut a2: usize = 0;
            while a2 < n
                invariant
                    a2 <= n,
                    v < n,
                    row@.len() == n,
                    doms@.len() == n,
                    forall|w: int| 0 <= w < n ==> #[trigger] rows_view(doms@)[w].len() == n,
                    d0 == rows_view(doms@),
                    same <==> (forall|x: int|
                        0 <= x < a2 ==> #[trigger] row@[x] == rows_view(doms@)[v as int][x]),
                decreases n - a2,
            {
                proof {
                    assert(doms@[v as int]@ == rows_view(doms@)[v as int]);
                }
                if doms[v][a2] != row[a2] {
                    same = false;
                }
                a2 = a2 + 1;
            }
            let ghost pre = rows_view(doms@);
            proof {
                assert(pre == d0);
                assert(forall|w: int| 0 <= w < n ==> #[trigger] pre[w][w]);
                assert(forall|w: int| 0 <= w < n ==> #[trigger] pre[w][0]);
                assert(forall|a3: int| 0 <= a3 < n ==> (#[trigger] pre[0][a3] <==> a3 == 0));
                assert(forall|w: usize|
                    w < n && #[trigger] order@.contains(w) && w != 0 ==> prefix_at(
                        pv,
                        pre,
                        w as int,
                    ));
                assert(forall|w: usize, a3: usize|
                    w < n && a3 < n && #[trigger] dominates(g, a3, w) ==> pre[w as int][a3 as int]);
                assert(forall|w: usize, a3: int|
                    w < n && 0 <= a3 < n && !order@.contains(w) ==> #[trigger] pre[w as int][a3]);
                assert(order@.contains(v)) by {
                    assert(order@[t as int] == v);
                }
            }
            doms[v] = row;
            if !same {
                changing = true;
            }
            proof {
                let d1 = rows_view(doms@);
                assert(doms@[v as int]@ == row@);
                assert(d1 =~= pre.update(v as int, row@));
                lemma_sweep_update(g, pv, order@, pre, row@, v);
                assert(forall|x: int| 0 <= x < n && #[trigger] row@[x] ==> pre[v as int][x]);
                lemma_total_true_update(pre, v as int, row@);
                lemma_count_true_le(row@, pre[v as int]);
                if !same {
                    let x = choose|x: int| 0 <= x < n && row@[x] != pre[v as int][x];
                    lemma_count_true_lt(row@, pre[v as int], x);
                } else {
                    assert(row@ =~= pre[v as int]);
                    assert(count_true(row@) == count_true(pre[v as int]));
                    assert(d1 =~= pre);
                }
                assert(fix_at(pv, d1, v as int));
            }
        }
        proof {
            lemma_total_true_nonneg(rows_view(doms@));
            if !changing {
                assert forall|w: usize|
                    w < n && #[trigger] order@.contains(w) && w != 0 implies fix_at(
                    pv,
                    rows_view(doms@),
                    w as int,
                ) by {
                    let s = choose|s: int| 0 <= s < order@.len() && order@[s] == w;
                    assert(s != order@.len() - 1);
                }
            }
        }
    }

    // turn each row of bits into the ascending list of its members
    let ghost dfin = rows_view(doms@);
    let mut r: Vec<Vec<usize>> = Vec::new();
    let mut v2: usize = 0;
    while v2 < n
        invariant
            v2 <= n,
            r@.len() == v2,
            doms@.len() == n,
            forall|w: int| 0 <= w < n ==> #[trigger] rows_view(doms@)[w].len() == n,
            dfin == rows_view(doms@),
            forall|w: int| 0 <= w < v2 ==> strictly_increasing(#[trigger] graph_view(r@)[w]),
            forall|w: int, a: usize|
                0 <= w < v2 ==> (#[trigger] graph_view(r@)[w].contains(a) <==> (a < n
                    && dfin[w][a as int])),
        decreases n - v2,
    {
        let mut ids: Vec<usize> = Vec::new();
        let mut a: usize = 0;
        while a < n
            invariant
                a <= n,
                v2 < n,
                doms@.len() == n,
                forall|w: int| 0 <= w < n ==> #[trigger] rows_view(doms@)[w].len() == n,
                dfin == rows_view(doms@),
                forall|x: int| 0 <= x < ids@.len() ==> #[trigger] ids@[x] < a,
                strictly_increasing(ids@),
                forall|x: usize| #[trigger] ids@.contains(x) <==> (x < a && dfin[v2 as int][x as int]),
            decreases n - a,
        {
            proof {
                assert(doms@[v2 as int]@ == rows_view(doms@)[v2 as int]);
            }
            if doms[v2][a] {
                ids.push(a);
            }
            a = a + 1;
        }
        let ghost old_r = r@;
        r.push(ids);
        proof {
            assert(graph_view(r@) =~= graph_view(old_r).push(r@.last()@));
        }
        v2 = v2 + 1;
    }
    proof {
        assert forall|w: usize| w < n && w != 0 && reaches(g, w) implies #[trigger] fix_at(
            pv,
            dfin,
            w as int,
        ) by {
            assert(order@.contains(w));
        }
        // soundness: a set bit means path dominance
        assert forall|w: usize, a: usize| w < n && a < n && dfin[w as int][a as int] implies
            dominates(g, a, w) by {
            assert forall|p: Seq<usize>| is_path(g, p) && p.last() == w implies p.contains(a) by {
                lemma_dom_on_path(g, pv, dfin, p, a);
            }
        }
        assert(dominator_sets_ok(g, graph_view(r@)));
        // every block keeps itself and the entry
        assert forall|w: int| 0 <= w < n implies #[trigger] graph_view(r@)[w].contains(w as usize)
            && graph_view(r@)[w].contains(0usize) by {}
        // the entry's row is the entry alone
        assert(graph_view(r@)[0] =~= seq![0usize]) by {
            let row0 = graph_view(r@)[0];
            assert(row0.contains(0usize));
            assert forall|x: int| 0 <= x < row0.len() implies row0[x] == 0usize by {
                assert(row0.contains(row0[x]));
            }
            let j = choose|j: int| 0 <= j < row0.len() && row0[j] == 0usize;
            if row0.len() > 1 {
                assert(row0[0] == 0usize && row0[1] == 0usize);
                assert(false);
            }
        }
        // a single-predecessor block: its set is its predecessor's plus itself
        assert forall|w: usize, a: usize|
            w < n && a < n && w != 0 && reaches(g, w) && pv[w as int].len() == 1 implies (
        #[trigger] graph_view(r@)[w as int].contains(a) <==> (a == w || graph_view(r@)[pv[w as int][0] as int].contains(
            a,
        ))) by {
            assert(order@.contains(w)) by {
                assert(reaches(g, w));
            }
            assert(fix_at(pv, dfin, w as int));
            assert(dfin[w as int][a as int] == new_bit(dfin, pv[w as int], w as int, a as int));
            let u = pv[w as int][0];
            assert(u < n);
            if new_bit(dfin, pv[w as int], w as int, a as int) && a != w {
                assert(dfin[u as int][a as int]);
            }
            if dfin[u as int][a as int] {
                assert forall|pj: int| 0 <= pj < pv[w as int].len() implies dfin[(#[trigger] pv[
                w as int][pj]) as int][a as int] by {
                    assert(pj == 0);
                }
            }
        }
    }
    r
}

/// Membership of `b` in the dominance frontier of `a`, over a dominator-set
/// table `dv` and predecessor map `pv`: `a` does not strictly dominate `b`,
/// yet dominates some predecessor of `b`.
pub open spec fn in_frontier(dv: Seq<Seq<usize>>, pv: Seq<Seq<usize>>, a: usize, b: usize) -> bool {
    &&& !(a != b && dv[b as int].contains(a))
    &&& exists|k: int| 0 <= k < pv[b as int].len() && dv[(#[trigger] pv[b as int][k]) as int].contains(a)
}

/// Computes the dominance frontier of every block from the dominator sets and
/// the predecessor map: block b is in the frontier of a when a does not
/// strictly dominate b but dominates some predecessor of b.
#[verifier::loop_isolation(false)]
pub fn dom_frontier(dominators: &Vec<Vec<usize>>, preds: &Vec<Vec<usize>>) -> (r: Vec<Vec<usize>>)
    requires
        dominators@.len() == preds@.len(),
        graph_in_bounds(graph_view(preds@)),
    ensures
        r@.len() == dominators@.len(),
        graph_in_bounds(graph_view(r@)),
        forall|a: int| 0 <= a < r@.len() ==> strictly_increasing(#[trigger] graph_view(r@)[a]),
        forall|a: usize, b: usize|
            a < r@.len() && b < r@.len() ==> (#[trigger] graph_view(r@)[a as int].contains(b)
                <==> in_frontier(graph_view(dominators@), graph_view(preds@), a, b)),
{
    let n = dominators.len();
    let ghost dv = graph_view(dominators@);
    let ghost pv = graph_view(preds@);
    let mut r: Vec<Vec<usize>> = Vec::new();
    let mut a: usize = 0;
    while a < n
        invariant
            a <= n,
            r@.len() == a,
            forall|x: int| 0 <= x < a ==> strictly_increasing(#[trigger] graph_view(r@)[x]),
            forall|x: int, y: int|
                0 <= x < a && 0 <= y < graph_view(r@)[x].len() ==> #[trigger] graph_view(
                    r@,
                )[x][y] < n,
            forall|x: usize, b: usize|
                x < a && b < n ==> (#[trigger] graph_view(r@)[x as int].contains(b) <==> in_frontier(
                    dv,
                    pv,
                    x,
                    b,
                )),
        decreases n - a,
    {
        let mut row: Vec<usize> = Vec::new();
        let mut b: usize = 0;
        while b < n
            invariant
                b <= n,
                a < n,
                forall|x: int| 0 <= x < row@.len() ==> #[trigger] row@[x] < b,
                strictly_increasing(row@),
                forall|y: usize| #[trigger] row@.contains(y) <==> (y < b && in_frontier(dv, pv, a, y)),
            decreases n - b,
        {
            let strict = a != b && contains_usize(&dominators[b], a);
            let mut hit = false;
            let pl = preds[b].len();
            let mut k: usize = 0;
            while k < pl
                invariant
                    k <= pl,
                    a < n,
                    b < n,
                    pl == pv[b as int].len(),
                    hit <==> exists|j: int|
                        0 <= j < k && dv[(#[trigger] pv[b as int][j]) as int].contains(a),
                decreases pl - k,
            {
                let p = preds[b][k];
                if contains_usize(&dominators[p], a) {
                    hit = true;
                    proof {
                        assert(dv[(pv[b as int][k as int]) as int].contains(a));
                    }
                }
                k = k + 1;
            }
            if !strict && hit {
                row.push(b);
            }
            b = b + 1;
        }
        let ghost old_r = r@;
        r.push(row);
        proof {
            assert(graph_view(r@) =~= graph_view(old_r).push(r@.last()@));
        }
        a = a + 1;
    }
    r
}

/// Membership of `b` among the dominator-tree children of `a`: `a` strictly
/// dominates `b` and no third block stands strictly between them, so `a` is
/// the immediate dominator of `b`.
pub open spec fn is_tree_child(dv: Seq<Seq<usize>>, n: int, a: usize, b: usize) -> bool {
    &&& a != b
    &&& dv[b as int].contains(a)
    &&& forall|c: usize|
        c < n && c != a && c != b ==> !(dv[c as int].contains(a) && #[trigger] dv[b as int].contains(
            c,
        ))
}

/// Builds the dominator tree from the dominator sets: block a is the parent
/// of block b exactly when a is b's immediate dominator, the closest strict
/// dominator of b.
#[verifier::loop_isolation(false)]
pub fn form_dom_tree(dominators: &Vec<Vec<usize>>) -> (r: Vec<Vec<usize>>)
    ensures
        r@.len() == dominators@.len(),
        graph_in_bounds(graph_view(r@)),
        forall|a: int| 0 <= a < r@.len() ==> strictly_increasing(#[trigger] graph_view(r@)[a]),
        forall|a: usize, b: usize|
            a < r@.len() && b < r@.len() ==> (#[trigger] graph_view(r@)[a as int].contains(b)
                <==> is_tree_child(graph_view(dominators@), r@.len() as int, a, b)),
{
    let n = dominators.len();
    let ghost dv = graph_view(dominators@);
    let mut r: Vec<Vec<usize>> = Vec::new();
    let mut a: usize = 0;
    while a < n
        invariant
            a <= n,
            r@.len() == a,
            forall|x: int| 0 <= x < a ==> strictly_increasing(#[trigger] graph_view(r@)[x]),
            forall|x: int, y: int|
                0 <= x < a && 0 <= y < graph_view(r@)[x].len() ==> #[trigger] graph_view(
                    r@,
                )[x][y] < n,
            forall|x: usize, b: usize|
                x < a && b < n ==> (#[trigger] graph_view(r@)[x as int].contains(b)
                    <==> is_tree_child(dv, n as int, x, b)),
        decreases n - a,
    {
        let mut row: Vec<usize> = Vec::new();
        let mut b: usize = 0;
        while b < n
            invariant
                b <= n,
                a < n,
                forall|x: int| 0 <= x < row@.len() ==> #[trigger] row@[x] < b,
                strictly_increasing(row@),
                forall|y: usize|
                    #[trigger] row@.contains(y) <==> (y < b && is_tree_child(dv, n as int, a, y)),
            decreases n - b,
        {
            if a != b && contains_usize(&dominators[b], a) {
                let mut between = false;
                let mut c: usize = 0;
                while c < n
                    invariant
                        c <= n,
                        a < n,
                        b < n,
                        between <==> exists|x: usize|
                            x < c && x != a && x != b && dv[x as int].contains(a)
                                && #[trigger] dv[b as int].contains(x),
                    decreases n - c,
                {
                    if c != a && c != b && contains_usize(&dominators[c], a) && contains_usize(
                        &dominators[b],
                        c,
                    ) {
                        between = true;
                        proof {
                            assert(dv[c as int].contains(a) && dv[b as int].contains(c));
                        }
                    }
                    c = c + 1;
                }
                if !between {
                    row.push(b);
                }
            }
            b = b + 1;
        }
        let ghost old_r = r@;
        r.push(row);
        proof {
            assert(graph_view(r@) =~= graph_view(old_r).push(r@.last()@));
        }
        a = a + 1;
    }
    r
}

} // verus!
