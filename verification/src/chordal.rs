//! Chordal graphs, and why a maximum cardinality search orders them well.
//!
//! A graph is chordal when every cycle of four nodes or more has a chord.
//! On such a graph the neighbours of a node that the search picked before
//! the node are neighbours of one another: the picks, read backwards, are a
//! perfect elimination ordering.

use vstd::prelude::*;
use crate::coloring::{both_before, is_next, perfect, prefers, searched, takes_turns, weight};
use crate::interference::GraphView;

verus! {

/// Whether `c` is a hole: a cycle of four nodes or more without a chord.
/// Each node is a neighbour of the next, the last of the first, and of no other.
pub open spec fn hole(g: GraphView, c: Seq<int>) -> bool {
    &&& c.len() >= 4
    &&& c.no_duplicates()
    &&& forall|i: int| 0 <= i < c.len() ==> 0 <= #[trigger] c[i] < g.len()
    &&& forall|i: int, j: int|
        0 <= i < j < c.len() ==> (g.adjacent[#[trigger] c[i]][#[trigger] c[j]] <==> (j == i + 1 || (i == 0
            && j == c.len() - 1)))
}

/// Whether the graph is chordal: it has no hole.
pub open spec fn chordal(g: GraphView) -> bool {
    forall|c: Seq<int>| !#[trigger] hole(g, c)
}

/// Whether the nodes of the turns `i` and `j` are neighbours.
pub open spec fn linked(g: GraphView, turns: Seq<int>, i: int, j: int) -> bool {
    g.adjacent[turns[i]][turns[j]]
}

/// Whether `p` lists turns whose nodes form a path without a chord: each
/// node is a neighbour of the next and of no other.
pub open spec fn induced(g: GraphView, turns: Seq<int>, p: Seq<int>) -> bool {
    &&& p.no_duplicates()
    &&& forall|s: int| 0 <= s < p.len() ==> 0 <= #[trigger] p[s] < turns.len()
    &&& forall|s: int, t: int|
        0 <= s < t < p.len() ==> (linked(g, turns, #[trigger] p[s], #[trigger] p[t]) <==> t == s + 1)
}

/// Whether `p` is a detour: a path without a chord, from one node to
/// another that is no neighbour of it, by way of nodes that all had their
/// turn after both.
pub open spec fn detour(g: GraphView, turns: Seq<int>, p: Seq<int>) -> bool {
    &&& p.len() >= 3
    &&& induced(g, turns, p)
    &&& forall|s: int| 0 < s < p.len() - 1 ==> p[0] < #[trigger] p[s] && p.last() < p[s]
}

/// A node with no neighbour among the picks that is not also a neighbour
/// of another node has no more neighbours among the picks than the other,
/// and fewer where the other has a neighbour of its own.
proof fn lemma_weight_compare(g: GraphView, picked: Seq<int>, v: int, w: int)
    requires
        forall|i: int| 0 <= i < picked.len() && g.adjacent[#[trigger] picked[i]][v] ==> g.adjacent[picked[i]][w],
    ensures
        weight(g, picked, v) <= weight(g, picked, w),
        (exists|i: int| 0 <= i < picked.len() && g.adjacent[#[trigger] picked[i]][w] && !g.adjacent[picked[i]][v])
            ==> weight(g, picked, v) < weight(g, picked, w),
    decreases picked.len(),
{
    if picked.len() > 0 {
        let head = picked.drop_last();
        assert forall|i: int| 0 <= i < head.len() && g.adjacent[#[trigger] head[i]][v] implies g.adjacent[head[i]][w] by {
            assert(head[i] == picked[i]);
        }
        lemma_weight_compare(g, head, v, w);
        assert(picked[picked.len() - 1] == picked.last());
        if exists|i: int| 0 <= i < picked.len() && g.adjacent[#[trigger] picked[i]][w] && !g.adjacent[picked[i]][v] {
            let i = choose|i: int|
                0 <= i < picked.len() && g.adjacent[#[trigger] picked[i]][w] && !g.adjacent[picked[i]][v];
            if i < head.len() {
                assert(head[i] == picked[i]);
            }
        }
    }
}

/// Where a node of an earlier turn is a neighbour of the later of two
/// nodes and not of the earlier, the earlier has a neighbour of its own
/// among the turns before it: else the search had picked the later first.
proof fn lemma_other_neighbour(g: GraphView, turns: Seq<int>, ju: int, jv: int, jw: int) -> (jx: int)
    requires
        g.wf(),
        takes_turns(g, turns),
        searched(g, turns),
        0 <= ju < jv < jw < turns.len(),
        linked(g, turns, ju, jw),
        !linked(g, turns, ju, jv),
    ensures
        0 <= jx < jv,
        linked(g, turns, jx, jv),
        !linked(g, turns, jx, jw),
{
    let picked = turns.subrange(0, jv);
    let v = turns[jv];
    let w = turns[jw];
    assert(is_next(g, picked, v));
    if picked.contains(w) {
        let i = choose|i: int| 0 <= i < picked.len() && picked[i] == w;
        assert(turns[i] == turns[jw]);
    }
    assert(prefers(g, picked, v, w));
    if !exists|jx: int| 0 <= jx < jv && #[trigger] linked(g, turns, jx, jv) && !linked(g, turns, jx, jw) {
        assert forall|i: int| 0 <= i < picked.len() && g.adjacent[#[trigger] picked[i]][v] implies g.adjacent[picked[i]][w] by {
            assert(picked[i] == turns[i]);
            assert(linked(g, turns, i, jv));
        }
        assert(picked[ju] == turns[ju]);
        assert(g.adjacent[picked[ju]][w] && !g.adjacent[picked[ju]][v]);
        lemma_weight_compare(g, picked, v, w);
    }
    choose|jx: int| 0 <= jx < jv && #[trigger] linked(g, turns, jx, jv) && !linked(g, turns, jx, jw)
}

/// The first place from `from` on at which the path has a neighbour of the node of the turn `x`.
proof fn lemma_first_link(g: GraphView, turns: Seq<int>, p: Seq<int>, x: int, from: int, to: int) -> (i: int)
    requires
        0 <= from <= to < p.len(),
        linked(g, turns, x, p[to]),
    ensures
        from <= i <= to,
        linked(g, turns, x, p[i]),
        forall|t: int| from <= t < i ==> !linked(g, turns, x, #[trigger] p[t]),
    decreases to - from,
{
    if linked(g, turns, x, p[from]) {
        from
    } else {
        lemma_first_link(g, turns, p, x, from + 1, to)
    }
}

/// A detour read backwards is a detour.
proof fn lemma_detour_reverse(g: GraphView, turns: Seq<int>, p: Seq<int>)
    requires
        g.wf(),
        takes_turns(g, turns),
        detour(g, turns, p),
    ensures
        detour(g, turns, p.reverse()),
        p.reverse()[0] == p.last(),
        p.reverse().last() == p[0],
{
    let q = p.reverse();
    let n = p.len() as int;
    assert forall|s: int| 0 <= s < n implies q[s] == p[n - 1 - s] by {}
    assert forall|a: int, b: int| 0 <= a < n && 0 <= b < n && a != b implies q[a] != q[b] by {
        assert(q[a] == p[n - 1 - a] && q[b] == p[n - 1 - b]);
    }
    assert forall|s: int, t: int| 0 <= s < t < q.len() implies (linked(
        g,
        turns,
        #[trigger] q[s],
        #[trigger] q[t],
    ) <==> t == s + 1) by {
        let a = n - 1 - t;
        let b = n - 1 - s;
        assert(q[s] == p[b] && q[t] == p[a]);
        assert(linked(g, turns, p[a], p[b]) <==> b == a + 1);
        assert(g.adjacent[turns[p[a]]][turns[p[b]]] == g.adjacent[turns[p[b]]][turns[p[a]]]);
    }
    assert forall|s: int| 0 <= s < q.len() implies 0 <= #[trigger] q[s] < turns.len() by {
        assert(q[s] == p[n - 1 - s]);
    }
    assert forall|s: int| 0 < s < q.len() - 1 implies q[0] < #[trigger] q[s] && q.last() < q[s] by {
        assert(q[s] == p[n - 1 - s]);
    }
}

/// Where there is a detour whose first end had its turn before the last, there is a hole.
proof fn lemma_detour_forward(g: GraphView, turns: Seq<int>, p: Seq<int>, bound: int) -> (c: Seq<int>)
    requires
        g.wf(),
        takes_turns(g, turns),
        searched(g, turns),
        detour(g, turns, p),
        p[0] < p.last() <= bound,
    ensures
        hole(g, c),
    decreases bound, 0nat,
{
    let n = p.len() as int;
    let a = p[0];
    let b = p.last();
    assert(p[n - 1] == b);
    assert(linked(g, turns, p[0], p[1]));
    assert(!linked(g, turns, p[0], p[n - 1]));
    assert(b < p[1]);
    let x = lemma_other_neighbour(g, turns, a, b, p[1]);
    // The node of the turn `x` is none of the path.
    assert forall|t: int| 0 <= t < n implies #[trigger] p[t] != x by {
        if t == 0 {
            assert(!linked(g, turns, a, b));
        } else if t == n - 1 {
            assert(!g.adjacent[turns[b]][turns[b]]);
        } else {
            assert(b < p[t]);
        }
    }
    assert(g.adjacent[turns[x]][turns[p[1]]] == g.adjacent[turns[p[1]]][turns[x]]);
    let i = lemma_first_link(g, turns, p, x, 0, n - 1);
    if i == 0 {
        let j = lemma_first_link(g, turns, p, x, 1, n - 1);
        assert(j >= 2);
        let c = Seq::new((j + 2) as nat, |t: int| if t == 0 { turns[x] } else { turns[p[t - 1]] });
        assert forall|s: int, t: int| 0 <= s < c.len() && 0 <= t < c.len() && s != t implies c[s] != c[t] by {
            let s_turn = if s == 0 { x } else { p[s - 1] };
            let t_turn = if t == 0 { x } else { p[t - 1] };
            assert(c[s] == turns[s_turn] && c[t] == turns[t_turn]);
            assert(s_turn != t_turn);
        }
        assert forall|s: int, t: int| 0 <= s < t < c.len() implies (g.adjacent[#[trigger] c[s]][#[trigger] c[t]] <==> (t
            == s + 1 || (s == 0 && t == c.len() - 1))) by {
            if s == 0 {
                assert(c[t] == turns[p[t - 1]]);
                assert(g.adjacent[c[s]][c[t]] == linked(g, turns, x, p[t - 1]));
            } else {
                assert(c[s] == turns[p[s - 1]] && c[t] == turns[p[t - 1]]);
                assert(linked(g, turns, p[s - 1], p[t - 1]) <==> t - 1 == s - 1 + 1);
            }
        }
        assert(hole(g, c));
        c
    } else {
        assert(i >= 2);
        let q = p.subrange(0, i + 1).push(x);
        assert forall|s: int, t: int| 0 <= s < q.len() && 0 <= t < q.len() && s != t implies q[s] != q[t] by {
            if s <= i && t <= i {
                assert(q[s] == p[s] && q[t] == p[t]);
            } else if s <= i {
                assert(q[s] == p[s]);
            } else {
                assert(q[t] == p[t]);
            }
        }
        assert forall|s: int, t: int| 0 <= s < t < q.len() implies (linked(
            g,
            turns,
            #[trigger] q[s],
            #[trigger] q[t],
        ) <==> t == s + 1) by {
            assert(q[s] == p[s]);
            if t <= i {
                assert(q[t] == p[t]);
                assert(linked(g, turns, p[s], p[t]) <==> t == s + 1);
            } else {
                assert(q[t] == x);
                assert(g.adjacent[turns[p[s]]][turns[x]] == g.adjacent[turns[x]][turns[p[s]]]);
            }
        }
        assert forall|s: int| 0 <= s < q.len() implies 0 <= #[trigger] q[s] < turns.len() by {
            if s <= i {
                assert(q[s] == p[s]);
            }
        }
        assert forall|s: int| 0 < s < q.len() - 1 implies q[0] < #[trigger] q[s] && q.last() < q[s] by {
            assert(q[s] == p[s]);
            if s < n - 1 {
                assert(a < p[s] && b < p[s]);
            }
        }
        assert(q[0] == a && q.last() == x);
        lemma_detour(g, turns, q, bound - 1)
    }
}

/// Where the picks of a search have a detour, the graph has a hole.
pub proof fn lemma_detour(g: GraphView, turns: Seq<int>, p: Seq<int>, bound: int) -> (c: Seq<int>)
    requires
        g.wf(),
        takes_turns(g, turns),
        searched(g, turns),
        detour(g, turns, p),
        p[0] <= bound,
        p.last() <= bound,
    ensures
        hole(g, c),
    decreases bound, 1nat,
{
    assert(p[0] != p[p.len() - 1]);
    if p[0] < p.last() {
        lemma_detour_forward(g, turns, p, bound)
    } else {
        lemma_detour_reverse(g, turns, p);
        lemma_detour_forward(g, turns, p.reverse(), bound)
    }
}

/// On a chordal graph the picks of the search, read backwards, are a
/// perfect elimination ordering.
pub proof fn lemma_search_perfect(g: GraphView, turns: Seq<int>)
    requires
        g.wf(),
        takes_turns(g, turns),
        searched(g, turns),
        chordal(g),
    ensures
        perfect(g, turns),
{
    assert forall|j: int, a: int, b: int|
        0 <= j < turns.len() && #[trigger] both_before(g, turns, j, a, b) implies g.adjacent[turns[a]][turns[b]] by {
        if !g.adjacent[turns[a]][turns[b]] {
            let p = seq![a, j, b];
            assert forall|s: int, t: int| 0 <= s < t < p.len() implies (linked(
                g,
                turns,
                #[trigger] p[s],
                #[trigger] p[t],
            ) <==> t == s + 1) by {
                assert(g.adjacent[turns[a]][turns[j]] == g.adjacent[turns[j]][turns[a]]);
            }
            assert(detour(g, turns, p));
            let c = lemma_detour(g, turns, p, turns.len() as int);
            assert(hole(g, c));
        }
    }
}

} // verus!
