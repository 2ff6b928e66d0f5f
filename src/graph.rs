//! Walks and simple paths in an undirected graph given by an edge relation,
//! and what follows when every edge links a vertex to a parent of smaller rank.

use vstd::prelude::*;

verus! {

/// `p` is a walk: at least one vertex, and an edge between each two consecutive ones.
pub open spec fn is_walk<V>(adj: spec_fn(V, V) -> bool, p: Seq<V>) -> bool {
    &&& p.len() >= 1
    &&& forall|i: int| 0 <= i < p.len() - 1 ==> #[trigger] adj(p[i], p[i + 1])
}

/// A walk that never visits a vertex twice.
pub open spec fn is_simple_path<V>(adj: spec_fn(V, V) -> bool, p: Seq<V>) -> bool {
    is_walk(adj, p) && p.no_duplicates()
}

/// Parent links and ranks that account for every edge: an edge always joins a
/// vertex and its parent, and a parent ranks strictly below its child.
pub open spec fn is_forest_witness<V>(
    adj: spec_fn(V, V) -> bool,
    par: Map<V, V>,
    rank: Map<V, nat>,
) -> bool {
    &&& forall|u: V, v: V|
        #[trigger] adj(u, v) <==> ((par.contains_key(u) && par[u] == v) || (par.contains_key(v)
            && par[v] == u))
    &&& forall|u: V| #[trigger]
        par.contains_key(u) ==> rank.contains_key(u) && rank.contains_key(par[u]) && rank[par[u]]
            < rank[u]
}

/// Step `i` of `p` goes from a vertex to its parent.
pub open spec fn step_up<V>(par: Map<V, V>, p: Seq<V>, i: int) -> bool {
    par.contains_key(p[i]) && par[p[i]] == p[i + 1]
}

/// Step `i` of `p` goes from a vertex to one of its children.
pub open spec fn step_down<V>(par: Map<V, V>, p: Seq<V>, i: int) -> bool {
    par.contains_key(p[i + 1]) && par[p[i + 1]] == p[i]
}

/// The parent chain from `u`: `u`, its parent, its grandparent, and so on.
pub open spec fn chain<V>(par: Map<V, V>, rank: Map<V, nat>, u: V) -> Seq<V>
    decreases rank[u],
{
    if par.contains_key(u) && rank.contains_key(u) && rank.contains_key(par[u]) && rank[par[u]]
        < rank[u] {
        seq![u].add(chain(par, rank, par[u]))
    } else {
        seq![u]
    }
}

proof fn lemma_step_kind<V>(
    adj: spec_fn(V, V) -> bool,
    par: Map<V, V>,
    rank: Map<V, nat>,
    p: Seq<V>,
    i: int,
)
    requires
        is_forest_witness(adj, par, rank),
        is_walk(adj, p),
        0 <= i < p.len() - 1,
    ensures
        step_up(par, p, i) || step_down(par, p, i),
        step_up(par, p, i) ==> rank.contains_key(p[i]) && rank.contains_key(p[i + 1]) && rank[p[i
            + 1]] < rank[p[i]],
        step_down(par, p, i) ==> rank.contains_key(p[i]) && rank.contains_key(p[i + 1])
            && rank[p[i]] < rank[p[i + 1]],
{
    assert(adj(p[i], p[i + 1]));
    if par.contains_key(p[i]) {
        assert(rank[par[p[i]]] < rank[p[i]]);
    }
    if par.contains_key(p[i + 1]) {
        assert(rank[par[p[i + 1]]] < rank[p[i + 1]]);
    }
}

/// On a simple path, once a step goes down every later step goes down too.
proof fn lemma_down_from<V>(
    adj: spec_fn(V, V) -> bool,
    par: Map<V, V>,
    rank: Map<V, nat>,
    p: Seq<V>,
    s: int,
)
    requires
        is_forest_witness(adj, par, rank),
        is_simple_path(adj, p),
        0 <= s < p.len() - 1,
        step_down(par, p, s),
    ensures
        forall|i: int| s <= i < p.len() - 1 ==> #[trigger] step_down(par, p, i),
    decreases p.len() - s,
{
    if s + 1 < p.len() - 1 {
        lemma_step_kind(adj, par, rank, p, s + 1);
        if step_up(par, p, s + 1) {
            assert(p[s] == p[s + 2]);
            assert(false);
        }
        lemma_down_from(adj, par, rank, p, s + 1);
    }
}

proof fn lemma_rank_down<V>(
    adj: spec_fn(V, V) -> bool,
    par: Map<V, V>,
    rank: Map<V, nat>,
    p: Seq<V>,
    s: int,
    e: int,
)
    requires
        is_forest_witness(adj, par, rank),
        is_walk(adj, p),
        0 <= s < e < p.len(),
        forall|i: int| s <= i < e ==> #[trigger] step_down(par, p, i),
    ensures
        rank.contains_key(p[s]) && rank.contains_key(p[e]) && rank[p[s]] < rank[p[e]],
    decreases e - s,
{
    assert(step_down(par, p, e - 1));
    lemma_step_kind(adj, par, rank, p, e - 1);
    if s < e - 1 {
        lemma_rank_down(adj, par, rank, p, s, e - 1);
    }
}

proof fn lemma_rank_up<V>(
    adj: spec_fn(V, V) -> bool,
    par: Map<V, V>,
    rank: Map<V, nat>,
    p: Seq<V>,
    s: int,
    e: int,
)
    requires
        is_forest_witness(adj, par, rank),
        is_walk(adj, p),
        0 <= s < e < p.len(),
        forall|i: int| s <= i < e ==> #[trigger] step_up(par, p, i),
    ensures
        rank.contains_key(p[s]) && rank.contains_key(p[e]) && rank[p[e]] < rank[p[s]],
    decreases e - s,
{
    assert(step_up(par, p, e - 1));
    lemma_step_kind(adj, par, rank, p, e - 1);
    if s < e - 1 {
        lemma_rank_up(adj, par, rank, p, s, e - 1);
    }
}

/// Two walks that end in the same vertex and descend over their last `j` steps
/// agree on those steps, read backwards.
proof fn lemma_back_agree<V>(par: Map<V, V>, p: Seq<V>, q: Seq<V>, j: int)
    requires
        p.len() >= 1,
        q.len() >= 1,
        p.last() == q.last(),
        0 <= j < p.len(),
        j < q.len(),
        forall|i: int| p.len() - 1 - j <= i < p.len() - 1 ==> #[trigger] step_down(par, p, i),
        forall|i: int| q.len() - 1 - j <= i < q.len() - 1 ==> #[trigger] step_down(par, q, i),
    ensures
        p[p.len() - 1 - j] == q[q.len() - 1 - j],
    decreases j,
{
    if j > 0 {
        lemma_back_agree(par, p, q, j - 1);
        assert(step_down(par, p, p.len() - 1 - j));
        assert(step_down(par, q, q.len() - 1 - j));
    }
}

/// The first descending step of a simple path that climbs over its first `i`
/// steps: before it every step climbs, from it on every step descends.
proof fn lemma_turn<V>(
    adj: spec_fn(V, V) -> bool,
    par: Map<V, V>,
    rank: Map<V, nat>,
    p: Seq<V>,
    i: int,
) -> (t: int)
    requires
        is_forest_witness(adj, par, rank),
        is_simple_path(adj, p),
        0 <= i <= p.len() - 1,
        forall|k: int| 0 <= k < i ==> #[trigger] step_up(par, p, k),
    ensures
        i <= t <= p.len() - 1,
        forall|k: int| 0 <= k < t ==> #[trigger] step_up(par, p, k),
        forall|k: int| t <= k < p.len() - 1 ==> #[trigger] step_down(par, p, k),
    decreases p.len() - i,
{
    if i == p.len() - 1 {
        i
    } else {
        lemma_step_kind(adj, par, rank, p, i);
        if step_down(par, p, i) {
            lemma_down_from(adj, par, rank, p, i);
            i
        } else {
            lemma_turn(adj, par, rank, p, i + 1)
        }
    }
}

/// A simple path that starts by descending and one that starts by climbing
/// cannot join the same two vertices.
proof fn lemma_down_vs_up<V>(
    adj: spec_fn(V, V) -> bool,
    par: Map<V, V>,
    rank: Map<V, nat>,
    p: Seq<V>,
    q: Seq<V>,
)
    requires
        is_forest_witness(adj, par, rank),
        is_simple_path(adj, p),
        is_simple_path(adj, q),
        p.len() >= 2,
        q.len() >= 2,
        p[0] == q[0],
        p.last() == q.last(),
        step_down(par, p, 0),
    ensures
        !step_up(par, q, 0),
{
    let n = p.len() as int;
    let m = q.len() as int;
    if step_up(par, q, 0) {
        lemma_down_from(adj, par, rank, p, 0);
        let t = lemma_turn(adj, par, rank, q, 1);
        if n - 1 <= m - 1 - t {
            lemma_back_agree(par, p, q, n - 1);
            assert(q[0] == q[m - n]);
        } else {
            let j = m - 1 - t;
            lemma_back_agree(par, p, q, j);
            lemma_rank_down(adj, par, rank, p, 0, n - 1 - j);
            lemma_rank_up(adj, par, rank, q, 0, t);
        }
    }
}

/// Two simple paths between the same vertices that both start by descending
/// take the same first step.
proof fn lemma_both_down<V>(
    adj: spec_fn(V, V) -> bool,
    par: Map<V, V>,
    rank: Map<V, nat>,
    p: Seq<V>,
    q: Seq<V>,
)
    requires
        is_forest_witness(adj, par, rank),
        is_simple_path(adj, p),
        is_simple_path(adj, q),
        p.len() >= 2,
        q.len() >= 2,
        p[0] == q[0],
        p.last() == q.last(),
        step_down(par, p, 0),
        step_down(par, q, 0),
    ensures
        p[1] == q[1],
{
    let n = p.len() as int;
    let m = q.len() as int;
    lemma_down_from(adj, par, rank, p, 0);
    lemma_down_from(adj, par, rank, q, 0);
    if n == m {
        lemma_back_agree(par, p, q, n - 2);
    } else if n < m {
        lemma_back_agree(par, p, q, n - 1);
        assert(q[0] == q[m - n]);
    } else {
        lemma_back_agree(par, p, q, m - 1);
        assert(p[0] == p[n - m]);
    }
}

/// In a graph whose edges all link a vertex to a parent of smaller rank, two
/// simple paths with the same ends are the same path.
pub proof fn lemma_simple_path_unique<V>(
    adj: spec_fn(V, V) -> bool,
    par: Map<V, V>,
    rank: Map<V, nat>,
    p: Seq<V>,
    q: Seq<V>,
)
    requires
        is_forest_witness(adj, par, rank),
        is_simple_path(adj, p),
        is_simple_path(adj, q),
        p[0] == q[0],
        p.last() == q.last(),
    ensures
        p == q,
    decreases p.len(),
{
    if p.len() == 1 {
        if q.len() > 1 {
            assert(q[0] == q[q.len() - 1]);
        }
        assert(p =~= q);
    } else if q.len() == 1 {
        assert(p[0] == p[p.len() - 1]);
    } else {
        lemma_step_kind(adj, par, rank, p, 0);
        lemma_step_kind(adj, par, rank, q, 0);
        if p[1] != q[1] {
            if step_down(par, p, 0) && step_down(par, q, 0) {
                lemma_both_down(adj, par, rank, p, q);
            } else if step_down(par, p, 0) {
                lemma_down_vs_up(adj, par, rank, p, q);
            } else if step_down(par, q, 0) {
                lemma_down_vs_up(adj, par, rank, q, p);
            }
        }
        let pt = p.drop_first();
        let qt = q.drop_first();
        assert forall|i: int| 0 <= i < pt.len() - 1 implies #[trigger] adj(pt[i], pt[i + 1]) by {
            let k = i + 1;
            assert(adj(p[k], p[k + 1]));
        }
        assert forall|i: int| 0 <= i < qt.len() - 1 implies #[trigger] adj(qt[i], qt[i + 1]) by {
            let k = i + 1;
            assert(adj(q[k], q[k + 1]));
        }
        lemma_simple_path_unique(adj, par, rank, pt, qt);
        assert(p =~= q) by {
            assert(p.len() == q.len());
            assert forall|i: int| 0 <= i < p.len() implies p[i] == q[i] by {
                if i > 0 {
                    assert(p[i] == pt[i - 1]);
                    assert(q[i] == qt[i - 1]);
                }
            }
        }
    }
}

/// The parent chain from a vertex of a set closed under parents is a walk
/// that stays in the set and ends at a vertex without a parent.
pub proof fn lemma_chain<V>(
    adj: spec_fn(V, V) -> bool,
    par: Map<V, V>,
    rank: Map<V, nat>,
    s: Set<V>,
    u: V,
)
    requires
        is_forest_witness(adj, par, rank),
        forall|x: V| #[trigger] s.contains(x) && par.contains_key(x) ==> s.contains(par[x]),
        s.contains(u),
    ensures
        is_walk(adj, chain(par, rank, u)),
        chain(par, rank, u)[0] == u,
        !par.contains_key(chain(par, rank, u).last()),
        forall|i: int| 0 <= i < chain(par, rank, u).len() ==> s.contains(#[trigger] chain(par, rank, u)[i]),
    decreases rank[u],
{
    let c = chain(par, rank, u);
    if par.contains_key(u) {
        assert(s.contains(u) && par.contains_key(u));
        let v = par[u];
        lemma_chain(adj, par, rank, s, v);
        let cv = chain(par, rank, v);
        assert(c == seq![u].add(cv));
        assert(adj(u, v));
        assert forall|i: int| 0 <= i < c.len() - 1 implies #[trigger] adj(c[i], c[i + 1]) by {
            if i > 0 {
                let k = i - 1;
                assert(adj(cv[k], cv[k + 1]));
                assert(c[i] == cv[k]);
                assert(c[i + 1] == cv[k + 1]);
            }
        }
        assert forall|i: int| 0 <= i < c.len() implies s.contains(#[trigger] c[i]) by {
            if i > 0 {
                assert(c[i] == cv[i - 1]);
            }
        }
        assert(c.last() == cv.last());
    }
}

/// In a set closed under parents where only `root` lacks a parent, any two
/// vertices are joined by a walk.
pub proof fn lemma_connected<V>(
    adj: spec_fn(V, V) -> bool,
    par: Map<V, V>,
    rank: Map<V, nat>,
    s: Set<V>,
    root: V,
    a: V,
    b: V,
) -> (p: Seq<V>)
    requires
        is_forest_witness(adj, par, rank),
        forall|x: V| #[trigger] s.contains(x) && par.contains_key(x) ==> s.contains(par[x]),
        forall|x: V| #[trigger] s.contains(x) && !par.contains_key(x) ==> x == root,
        s.contains(a),
        s.contains(b),
    ensures
        is_walk(adj, p),
        p[0] == a,
        p.last() == b,
{
    lemma_chain(adj, par, rank, s, a);
    lemma_chain(adj, par, rank, s, b);
    let ca = chain(par, rank, a);
    let cb = chain(par, rank, b);
    assert(s.contains(ca[ca.len() - 1]));
    assert(s.contains(cb[cb.len() - 1]));
    let rb = Seq::new((cb.len() - 1) as nat, |i: int| cb[cb.len() - 2 - i]);
    let p = ca.add(rb);
    assert forall|i: int| 0 <= i < p.len() - 1 implies #[trigger] adj(p[i], p[i + 1]) by {
        if i < ca.len() - 1 {
            assert(adj(ca[i], ca[i + 1]));
        } else {
            let k = cb.len() - 1 - (i - ca.len() + 1);
            let j = k - 1;
            assert(adj(cb[j], cb[j + 1]));
            assert(p[i] == cb[j + 1]);
            assert(p[i + 1] == cb[j]);
        }
    }
    if cb.len() > 1 {
        assert(p.last() == cb[0]);
    }
    p
}

} // verus!
