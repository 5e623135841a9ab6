//! Colouring an interference graph within a budget of registers.
//!
//! A maximum cardinality search orders the nodes: it picks, again and again,
//! the node with the most neighbours among those picked before, and among
//! equals the one that entered the graph first. Read backwards, the picks of
//! the search on a chordal graph are a perfect elimination ordering. The
//! nodes are then coloured against that ordering, each with the least colour
//! that none of its coloured neighbours has.

use vstd::prelude::*;
use crate::flow::{lemma_unset_raise, lemma_unset_witness, unset};
use crate::chordal::{chordal, lemma_search_perfect};
use crate::interference::{GraphView, InterferenceGraph};

verus! {

/// The number of nodes among `picked` that are neighbours of `v`.
pub open spec fn weight(g: GraphView, picked: Seq<int>, v: int) -> nat
    decreases picked.len(),
{
    if picked.len() == 0 {
        0
    } else {
        weight(g, picked.drop_last(), v) + if g.adjacent[picked.last()][v] {
            1nat
        } else {
            0nat
        }
    }
}

/// Whether the search, having picked `picked`, prefers `v` to `u` or holds them equal.
pub open spec fn prefers(g: GraphView, picked: Seq<int>, v: int, u: int) -> bool {
    weight(g, picked, u) < weight(g, picked, v) || (weight(g, picked, u) == weight(g, picked, v) && v
        <= u)
}

/// Whether `v` is the node that the search picks after `picked`: not picked
/// yet, with the most neighbours among the picked and, among such nodes, the
/// first to have entered the graph.
pub open spec fn is_next(g: GraphView, picked: Seq<int>, v: int) -> bool {
    &&& 0 <= v < g.len()
    &&& !picked.contains(v)
    &&& forall|u: int| 0 <= u < g.len() && !picked.contains(u) ==> #[trigger] prefers(g, picked, v, u)
}

/// The node that the search picks after `picked`.
pub open spec fn next_pick(g: GraphView, picked: Seq<int>) -> int {
    choose|v: int| is_next(g, picked, v)
}

/// Whether every pick of `picks` is the one that the search makes after the picks before it.
pub open spec fn searched(g: GraphView, picks: Seq<int>) -> bool {
    forall|i: int| 0 <= i < picks.len() ==> is_next(g, #[trigger] picks.subrange(0, i), picks[i])
}

/// The first `m` picks of the maximum cardinality search.
pub open spec fn search_order(g: GraphView, m: nat) -> Seq<int>
    decreases m,
{
    if m == 0 {
        Seq::empty()
    } else {
        let picked = search_order(g, (m - 1) as nat);
        picked.push(next_pick(g, picked))
    }
}

/// The elimination ordering of a graph: the picks of the search, last pick first.
pub open spec fn elimination_order(g: GraphView) -> Seq<int> {
    search_order(g, g.len() as nat).reverse()
}

/// The colour that a hardware register keeps whatever the budget: `%eax`,
/// which holds a return value, has colour 0, and `%edx`, which holds the
/// remainder of a division, has colour 1. A temporary has none.
pub open spec fn reserved_color(name: Seq<char>) -> Option<usize> {
    if name == "%eax"@ {
        Some(0usize)
    } else if name == "%edx"@ {
        Some(1usize)
    } else {
        None
    }
}

/// Whether the neighbour `u` of `v` has colour `c`.
pub open spec fn holds(g: GraphView, colors: Seq<Option<usize>>, v: int, c: usize, u: int) -> bool {
    g.adjacent[v][u] && colors[u] == Some(c)
}

/// Whether some neighbour of `v` has colour `c`.
pub open spec fn taken(g: GraphView, colors: Seq<Option<usize>>, v: int, c: usize) -> bool {
    exists|u: int| 0 <= u < g.len() && #[trigger] holds(g, colors, v, c, u)
}

/// The least colour from `from` on and below `k` that no neighbour of `v` has, or `k`.
pub open spec fn least_free(
    g: GraphView,
    colors: Seq<Option<usize>>,
    v: int,
    k: usize,
    from: usize,
) -> usize
    decreases k - from,
{
    if from >= k {
        k
    } else if !taken(g, colors, v, from) {
        from
    } else {
        least_free(g, colors, v, k, (from + 1) as usize)
    }
}

/// The colours before the search order is walked: the reserved ones.
pub open spec fn initial_colors(g: GraphView) -> Seq<Option<usize>> {
    Seq::new(g.nodes.len(), |v: int| reserved_color(g.nodes[v]))
}

/// The colours after `v` has had its turn: a node that has a colour keeps
/// it, another takes the least colour below `k` that no neighbour has, or
/// `k` where there is none.
pub open spec fn color_node(g: GraphView, k: usize, colors: Seq<Option<usize>>, v: int) -> Seq<
    Option<usize>,
> {
    if colors[v] is Some {
        colors
    } else {
        colors.update(v, Some(least_free(g, colors, v, k, 0)))
    }
}

/// The colours after the first `m` nodes of `order` have had their turn.
pub open spec fn color_along(g: GraphView, k: usize, order: Seq<int>, m: nat) -> Seq<Option<usize>>
    decreases m,
{
    if m == 0 {
        initial_colors(g)
    } else {
        color_node(g, k, color_along(g, k, order, (m - 1) as nat), order[m - 1])
    }
}

/// The colouring of a graph within the budget `k`: the nodes take their
/// turn against the elimination ordering. A colour below `k` is a register;
/// the colour `k` says that the node is spilled.
pub open spec fn coloring(g: GraphView, k: usize) -> Seq<Option<usize>> {
    color_along(g, k, elimination_order(g).reverse(), g.len() as nat)
}

/// Whether no two neighbours share a colour below `k`.
pub open spec fn proper(g: GraphView, k: usize, colors: Seq<Option<usize>>) -> bool {
    forall|a: int, b: int|
        0 <= a < g.len() && 0 <= b < g.len() && #[trigger] g.adjacent[a][b] && colors[a] is Some
            && colors[a]->0 < k ==> colors[b] != colors[a]
}

proof fn lemma_weight_push(g: GraphView, picked: Seq<int>, u: int, v: int)
    ensures
        weight(g, picked.push(u), v) == weight(g, picked, v) + if g.adjacent[u][v] {
            1nat
        } else {
            0nat
        },
        weight(g, picked, v) <= picked.len(),
    decreases picked.len(),
{
    assert(picked.push(u).drop_last() =~= picked);
    if picked.len() > 0 {
        lemma_weight_push(g, picked.drop_last(), picked.last(), v);
        assert(picked.drop_last().push(picked.last()) =~= picked);
    }
}

/// The search has one choice at most.
pub proof fn lemma_next_unique(g: GraphView, picked: Seq<int>, v: int, w: int)
    requires
        is_next(g, picked, v),
        is_next(g, picked, w),
    ensures
        v == w,
{
    assert(prefers(g, picked, v, w));
    assert(prefers(g, picked, w, v));
}

/// The node that the search prefers to all others is its next pick.
pub proof fn lemma_next_pick(g: GraphView, picked: Seq<int>, v: int)
    requires
        is_next(g, picked, v),
    ensures
        next_pick(g, picked) == v,
{
    lemma_next_unique(g, picked, v, next_pick(g, picked));
}

/// What `least_free` returns: a colour that no neighbour has, with every
/// lesser colour from `from` on taken, or `k` where every such colour is taken.
pub proof fn lemma_least_free(g: GraphView, colors: Seq<Option<usize>>, v: int, k: usize, from: usize)
    requires
        from <= k,
    ensures
        from <= least_free(g, colors, v, k, from) <= k,
        least_free(g, colors, v, k, from) < k ==> !taken(g, colors, v, least_free(g, colors, v, k, from)),
        forall|c: usize| from <= c < least_free(g, colors, v, k, from) ==> taken(g, colors, v, c),
    decreases k - from,
{
    if from < k && taken(g, colors, v, from) {
        lemma_least_free(g, colors, v, k, (from + 1) as usize);
    }
}

/// The nodes in the order in which the maximum cardinality search picks them.
fn search(graph: &InterferenceGraph) -> (order: Vec<usize>)
    ensures
        order@.len() == graph@.len(),
        forall|j: int| 0 <= j < order@.len() ==> (#[trigger] order@[j]) as int == search_order(
            graph@,
            graph@.len() as nat,
        )[j],
        forall|j: int| 0 <= j < order@.len() ==> (#[trigger] order@[j]) < graph@.len(),
        forall|u: usize| u < graph@.len() ==> #[trigger] order@.contains(u),
        searched(graph@, search_order(graph@, graph@.len() as nat)),
{
    let n = graph.node_count();
    let ghost g = graph@;
    let mut order: Vec<usize> = Vec::new();
    let mut weights: Vec<usize> = Vec::new();
    let mut done: Vec<bool> = Vec::new();
    let mut z: usize = 0;
    while z < n
        invariant
            z <= n,
            weights@.len() == z,
            done@.len() == z,
            forall|u: int| 0 <= u < z ==> #[trigger] weights@[u] == 0,
            forall|u: int| 0 <= u < z ==> !(#[trigger] done@[u]),
            unset(done@) == z,
        decreases n - z,
    {
        let ghost before = done@;
        weights.push(0);
        done.push(false);
        assert(done@.drop_last() =~= before);
        z += 1;
    }
    let ghost mut picked: Seq<int> = Seq::empty();
    let mut m: usize = 0;
    while m < n
        invariant
            m <= n,
            n == g.len(),
            g == graph@,
            g.wf(),
            order@.len() == m,
            picked.len() == m,
            weights@.len() == n,
            done@.len() == n,
            picked == search_order(g, m as nat),
            searched(g, picked),
            forall|j: int| 0 <= j < m ==> (#[trigger] order@[j]) as int == picked[j],
            forall|j: int| 0 <= j < m ==> 0 <= #[trigger] picked[j] < n,
            forall|u: int| 0 <= u < n ==> #[trigger] done@[u] == picked.contains(u),
            forall|u: int| 0 <= u < n ==> #[trigger] weights@[u] == weight(g, picked, u),
            unset(done@) == n - m,
        decreases n - m,
    {
        // The node that is not picked yet and has the most picked neighbours;
        // among equals, the first.
        let mut best: usize = 0;
        let mut found = false;
        let mut u: usize = 0;
        while u < n
            invariant
                u <= n,
                n == g.len(),
                weights@.len() == n,
                done@.len() == n,
                forall|w: int| 0 <= w < n ==> #[trigger] done@[w] == picked.contains(w),
                forall|w: int| 0 <= w < n ==> #[trigger] weights@[w] == weight(g, picked, w),
                found ==> best < u && !done@[best as int],
                found ==> forall|w: int|
                    0 <= w < u && !picked.contains(w) ==> #[trigger] prefers(g, picked, best as int, w),
                !found ==> forall|w: int| 0 <= w < u ==> #[trigger] done@[w],
            decreases n - u,
        {
            if !done[u] {
                if !found || weights[u] > weights[best] {
                    proof {
                        assert forall|w: int| 0 <= w < u + 1 && !picked.contains(w) implies #[trigger] prefers(
                            g,
                            picked,
                            u as int,
                            w,
                        ) by {
                            if w < u {
                                assert(done@[w] == picked.contains(w));
                                assert(found);
                                assert(prefers(g, picked, best as int, w));
                            }
                        }
                    }
                    best = u;
                    found = true;
                } else {
                    assert(prefers(g, picked, best as int, u as int));
                }
            }
            u += 1;
        }
        proof {
            lemma_unset_witness(done@);
            if !found {
                let x = choose|x: int| 0 <= x < done@.len() && !done@[x];
                assert(done@[x]);
            }
            assert(is_next(g, picked, best as int));
            lemma_next_unique(g, picked, best as int, next_pick(g, picked));
            lemma_unset_raise(done@, best as int);
        }
        let ghost before = picked;
        order.push(best);
        done[best] = true;
        proof {
            picked = picked.push(best as int);
            assert forall|i: int| 0 <= i < picked.len() implies is_next(
                g,
                #[trigger] picked.subrange(0, i),
                picked[i],
            ) by {
                if i < m {
                    assert(picked.subrange(0, i) =~= before.subrange(0, i));
                } else {
                    assert(picked.subrange(0, i) =~= before);
                }
            }
            assert forall|w: int| 0 <= w < n implies #[trigger] done@[w] == picked.contains(w) by {
                if before.contains(w) {
                    let j = choose|j: int| 0 <= j < before.len() && before[j] == w;
                    assert(picked[j] == w);
                }
                if w == best {
                    assert(picked[m as int] == w);
                }
                if picked.contains(w) {
                    let j = choose|j: int| 0 <= j < picked.len() && picked[j] == w;
                    if j < m {
                        assert(before[j] == w);
                    }
                }
            }
        }
        let mut w: usize = 0;
        while w < n
            invariant
                w <= n,
                n == g.len(),
                g == graph@,
                best < n,
                m < n,
                before.len() == m,
                picked == before.push(best as int),
                weights@.len() == n,
                forall|y: int| 0 <= y < w ==> #[trigger] weights@[y] == weight(g, picked, y),
                forall|y: int| w <= y < n ==> #[trigger] weights@[y] == weight(g, before, y),
            decreases n - w,
        {
            proof {
                lemma_weight_push(g, before, best as int, w as int);
            }
            if graph.adjacent(best, w) {
                weights[w] = weights[w] + 1;
            }
            w += 1;
        }
        m += 1;
    }
    proof {
        lemma_unset_witness(done@);
        assert forall|u: usize| u < n implies #[trigger] order@.contains(u) by {
            assert(done@[u as int]);
            assert(picked.contains(u as int));
            let j = choose|j: int| 0 <= j < picked.len() && picked[j] == u;
            assert(order@[j] == u);
        }
    }
    order
}

/// The nodes of `order` as positions in contracts.
pub open spec fn positions(order: Seq<usize>) -> Seq<int> {
    Seq::new(order.len(), |j: int| order[j] as int)
}

/// Computes the elimination ordering of the graph by maximum cardinality
/// search. Every node stands in it exactly once.
pub fn elimination_order_of(graph: &InterferenceGraph) -> (order: Vec<usize>)
    ensures
        positions(order@) == elimination_order(graph@),
        order@.len() == graph@.len(),
        order@.no_duplicates(),
        forall|j: int| 0 <= j < order@.len() ==> (#[trigger] order@[j]) < graph@.len(),
        forall|u: usize| u < graph@.len() ==> #[trigger] order@.contains(u),
        searched(graph@, elimination_order(graph@).reverse()),
{
    let picks = search(graph);
    let n = picks.len();
    let mut order: Vec<usize> = Vec::new();
    let mut j: usize = 0;
    while j < n
        invariant
            j <= n,
            n == picks@.len(),
            order@.len() == j,
            forall|i: int| 0 <= i < j ==> #[trigger] order@[i] == picks@[n - 1 - i],
        decreases n - j,
    {
        order.push(picks[n - 1 - j]);
        j += 1;
    }
    proof {
        let spec = search_order(graph@, graph@.len() as nat);
        lemma_search_order_len(graph@, graph@.len() as nat);
        assert(positions(order@) =~= spec.reverse());
        assert(spec.reverse().reverse() =~= spec);
        assert forall|u: usize| u < graph@.len() implies #[trigger] order@.contains(u) by {
            assert(picks@.contains(u));
            let i = choose|i: int| 0 <= i < picks@.len() && picks@[i] == u;
            assert(order@[n - 1 - i] == u);
        }
        lemma_full_list_distinct(order@, n as int);
    }
    order
}

/// A list of `n` positions below `n` that holds each of them holds none twice.
proof fn lemma_full_list_distinct(order: Seq<usize>, n: int)
    requires
        order.len() == n,
        n <= usize::MAX,
        forall|j: int| 0 <= j < order.len() ==> (#[trigger] order[j]) < n,
        forall|u: usize| u < n ==> #[trigger] order.contains(u),
    ensures
        order.no_duplicates(),
{
    assert(order.to_set() =~= Set::new(|u: usize| u < n));
    lemma_below_count(n as nat);
    order.lemma_no_dup_set_cardinality();
}

/// The search has made as many picks as it was asked for.
proof fn lemma_search_order_len(g: GraphView, m: nat)
    ensures
        search_order(g, m).len() == m,
    decreases m,
{
    if m > 0 {
        lemma_search_order_len(g, (m - 1) as nat);
    }
}

/// There are `n` positions below `n`.
proof fn lemma_below_count(n: nat)
    ensures
        Set::new(|u: usize| u < n).finite(),
        n <= usize::MAX + 1 ==> Set::new(|u: usize| u < n).len() == n,
    decreases n,
{
    let s = Set::new(|u: usize| u < n);
    if n == 0 {
        assert(s =~= Set::<usize>::empty());
    } else {
        lemma_below_count((n - 1) as nat);
        let head = Set::new(|u: usize| u < n - 1);
        if n <= usize::MAX + 1 {
            assert(s =~= head.insert((n - 1) as usize));
        } else {
            assert(s =~= head);
        }
    }
}

/// Whether every node without a reserved colour has a neighbour of every
/// colour below its own. A spilled node, then, has a neighbour of every
/// colour below `k`, and no node has a colour above the number of its
/// neighbours.
pub open spec fn greedy(g: GraphView, colors: Seq<Option<usize>>) -> bool {
    forall|v: int, c: usize|
        0 <= v < g.len() && reserved_color(g.nodes[v]) is None && colors[v] is Some && c
            < colors[v]->0 ==> #[trigger] taken(g, colors, v, c)
}

/// Whether every hardware register has its reserved colour, and every other
/// node that has a colour has one up to `k`.
pub open spec fn within_budget(g: GraphView, k: usize, colors: Seq<Option<usize>>) -> bool {
    forall|v: int|
        0 <= v < g.len() ==> match reserved_color(g.nodes[v]) {
            Some(c) => #[trigger] colors[v] == Some(c),
            None => colors[v] is Some ==> colors[v]->0 <= k,
        }
}

/// Whether the node `u` had its turn before the `j`-th turn.
pub open spec fn earlier(turns: Seq<int>, j: int, u: int) -> bool {
    exists|i: int| 0 <= i < j && #[trigger] turns[i] == u
}

/// Whether the node of the `j`-th turn has a neighbour of colour `c` that
/// had its colour before: a hardware register, or a node of an earlier turn.
pub open spec fn backing(
    g: GraphView,
    turns: Seq<int>,
    colors: Seq<Option<usize>>,
    j: int,
    c: usize,
) -> bool {
    exists|u: int|
        0 <= u < g.len() && #[trigger] holds(g, colors, turns[j], c, u) && (reserved_color(
            g.nodes[u],
        ) is Some || earlier(turns, j, u))
}

/// Whether every node without a reserved colour among the first `m` turns
/// has, for every colour below its own, a neighbour of that colour that had
/// its colour before.
pub open spec fn backed(g: GraphView, turns: Seq<int>, m: int, colors: Seq<Option<usize>>) -> bool {
    forall|j: int, c: usize|
        0 <= j < m && reserved_color(g.nodes[turns[j]]) is None && colors[turns[j]] is Some && c
            < colors[turns[j]]->0 ==> #[trigger] backing(g, turns, colors, j, c)
}

/// Whether only hardware registers and the nodes of the first `m` turns have a colour.
pub open spec fn colored_in_turn(g: GraphView, turns: Seq<int>, m: int, colors: Seq<Option<usize>>) -> bool {
    forall|u: int|
        0 <= u < g.len() && (#[trigger] colors[u]) is Some ==> reserved_color(g.nodes[u]) is Some
            || earlier(turns, m, u)
}

/// Whether every node stands in `turns` once.
pub open spec fn takes_turns(g: GraphView, turns: Seq<int>) -> bool {
    &&& turns.len() == g.len()
    &&& turns.no_duplicates()
    &&& forall|j: int| 0 <= j < turns.len() ==> 0 <= #[trigger] turns[j] < g.len()
    &&& forall|v: int| 0 <= v < g.len() ==> #[trigger] earlier(turns, g.len(), v)
}

/// Whether the neighbours of the `j`-th node at the turns `a` and `b` both come before it.
pub open spec fn both_before(g: GraphView, turns: Seq<int>, j: int, a: int, b: int) -> bool {
    0 <= a < j && 0 <= b < j && a != b && g.adjacent[turns[j]][turns[a]] && g.adjacent[turns[j]][turns[b]]
}

/// Whether the turns, read backwards, are a perfect elimination ordering:
/// the neighbours of a node that come before it are neighbours of one
/// another. A maximum cardinality search is known to yield such turns on
/// every chordal graph.
pub open spec fn perfect(g: GraphView, turns: Seq<int>) -> bool {
    forall|j: int, a: int, b: int|
        0 <= j < turns.len() && #[trigger] both_before(g, turns, j, a, b) ==> g.adjacent[turns[a]][turns[b]]
}

/// Whether the hardware registers stand apart: none of them has a neighbour.
pub open spec fn registers_apart(g: GraphView) -> bool {
    forall|u: int, w: int|
        0 <= u < g.len() && 0 <= w < g.len() && reserved_color(g.nodes[u]) is Some ==> !#[trigger] g.adjacent[u][w]
}

/// Whether `members` is a clique that ends with `v` and whose nodes have
/// the colours 0, 1, 2 and so on, in this order: as many nodes that are
/// neighbours of one another as the colour of `v` says, and `v`.
pub open spec fn colored_clique(
    g: GraphView,
    colors: Seq<Option<usize>>,
    v: int,
    members: Seq<int>,
) -> bool {
    &&& members.len() >= 1
    &&& members.last() == v
    &&& forall|a: int|
        0 <= a < members.len() ==> 0 <= #[trigger] members[a] < g.len() && colors[members[a]] == Some(
            a as usize,
        )
    &&& forall|a: int, b: int|
        0 <= a < b < members.len() ==> g.adjacent[#[trigger] members[a]][#[trigger] members[b]]
}

/// Whether every node that is no hardware register is the last of a
/// clique with the colours from 0 to its own: no temporary has a colour
/// without a clique that calls for it.
pub open spec fn tight(g: GraphView, colors: Seq<Option<usize>>) -> bool {
    forall|v: int|
        0 <= v < g.len() && reserved_color(g.nodes[v]) is None ==> #[trigger] has_clique(g, colors, v)
}

/// Whether the node `v` is the last of a clique with the colours from 0 to its own.
pub open spec fn has_clique(g: GraphView, colors: Seq<Option<usize>>, v: int) -> bool {
    exists|members: Seq<int>| #[trigger] colored_clique(g, colors, v, members)
}

proof fn lemma_turn(g: GraphView, k: usize, turns: Seq<int>, m: int, before: Seq<Option<usize>>)
    requires
        g.wf(),
        before.len() == g.len(),
        takes_turns(g, turns),
        0 <= m < g.len(),
        backed(g, turns, m, before),
        colored_in_turn(g, turns, m, before),
    ensures
        backed(g, turns, m + 1, color_node(g, k, before, turns[m])),
        colored_in_turn(g, turns, m + 1, color_node(g, k, before, turns[m])),
{
    let v = turns[m];
    let next = color_node(g, k, before, v);
    assert forall|u: int| 0 <= u < g.len() && (#[trigger] next[u]) is Some implies reserved_color(
        g.nodes[u],
    ) is Some || earlier(turns, m + 1, u) by {
        if u == v {
            assert(turns[m] == u);
        } else {
            assert(before[u] is Some);
            if reserved_color(g.nodes[u]) is None {
                let i = choose|i: int| 0 <= i < m && #[trigger] turns[i] == u;
                assert(turns[i] == u);
            }
        }
    }
    assert forall|j: int, c: usize|
        0 <= j < m + 1 && reserved_color(g.nodes[turns[j]]) is None && next[turns[j]] is Some && c
            < next[turns[j]]->0 implies #[trigger] backing(g, turns, next, j, c) by {
        if j < m {
            assert(turns[j] != turns[m]);
            assert(next[turns[j]] == before[turns[j]]);
            assert(backing(g, turns, before, j, c));
            let u = choose|u: int|
                0 <= u < g.len() && #[trigger] holds(g, before, turns[j], c, u) && (reserved_color(
                    g.nodes[u],
                ) is Some || earlier(turns, j, u));
            assert(holds(g, next, turns[j], c, u));
        } else {
            if before[v] is Some {
                assert(earlier(turns, m, v));
                let i = choose|i: int| 0 <= i < m && #[trigger] turns[i] == v;
                assert(turns[i] == turns[m]);
            }
            lemma_least_free(g, before, v, k, 0);
            assert(taken(g, before, v, c));
            let u = choose|u: int| 0 <= u < g.len() && #[trigger] holds(g, before, v, c, u);
            assert(before[u] is Some);
            assert(u != v);
            assert(holds(g, next, v, c, u));
            if reserved_color(g.nodes[u]) is None {
                let i = choose|i: int| 0 <= i < m && #[trigger] turns[i] == u;
                assert(turns[i] == u);
                assert(earlier(turns, m + 1, u));
            }
        }
    }
}

/// For the node of the `j`-th turn, neighbours of one another with the
/// colours below `c`, all of them neighbours of the node from earlier turns.
proof fn lemma_clique_below(
    g: GraphView,
    turns: Seq<int>,
    colors: Seq<Option<usize>>,
    j: int,
    c: usize,
) -> (members: Seq<int>)
    requires
        g.wf(),
        colors.len() == g.len(),
        takes_turns(g, turns),
        backed(g, turns, g.len(), colors),
        registers_apart(g),
        perfect(g, turns),
        0 <= j < g.len(),
        reserved_color(g.nodes[turns[j]]) is None,
        colors[turns[j]] is Some,
        c <= colors[turns[j]]->0,
    ensures
        members.len() == c,
        forall|a: int|
            0 <= a < c ==> 0 <= #[trigger] members[a] < g.len() && colors[members[a]] == Some(
                a as usize,
            ) && g.adjacent[turns[j]][members[a]] && earlier(turns, j, members[a]),
        forall|a: int, b: int|
            0 <= a < b < c ==> g.adjacent[#[trigger] members[a]][#[trigger] members[b]],
    decreases c,
{
    if c == 0 {
        Seq::empty()
    } else {
        let d = (c - 1) as usize;
        let below = lemma_clique_below(g, turns, colors, j, d);
        assert(backing(g, turns, colors, j, d));
        let u = choose|u: int|
            0 <= u < g.len() && #[trigger] holds(g, colors, turns[j], d, u) && (reserved_color(
                g.nodes[u],
            ) is Some || earlier(turns, j, u));
        assert(reserved_color(g.nodes[u]) is None) by {
            assert(g.adjacent[turns[j]][u] == g.adjacent[u][turns[j]]);
        }
        let iu = choose|i: int| 0 <= i < j && #[trigger] turns[i] == u;
        let members = below.push(u);
        assert forall|a: int, b: int| 0 <= a < b < c implies g.adjacent[#[trigger] members[a]][#[trigger] members[b]] by {
            if b == d {
                let x = below[a];
                assert(earlier(turns, j, x));
                let ix = choose|i: int| 0 <= i < j && #[trigger] turns[i] == x;
                assert(colors[x] == Some(a as usize));
                assert(x != u);
                assert(both_before(g, turns, j, ix, iu));
                assert(g.adjacent[turns[ix]][turns[iu]]);
            } else {
                assert(g.adjacent[below[a]][below[b]]);
            }
        }
        assert forall|a: int| 0 <= a < c implies 0 <= #[trigger] members[a] < g.len() && colors[members[a]]
            == Some(a as usize) && g.adjacent[turns[j]][members[a]] && earlier(
            turns,
            j,
            members[a],
        ) by {
            if a == d {
                assert(turns[iu] == u);
            } else {
                assert(below[a] == members[a]);
            }
        }
        members
    }
}

/// Where the turns are a perfect elimination ordering read backwards, and
/// the hardware registers stand apart, no temporary has a colour without a
/// clique that calls for it.
proof fn lemma_tight(g: GraphView, turns: Seq<int>, colors: Seq<Option<usize>>)
    requires
        g.wf(),
        colors.len() == g.len(),
        takes_turns(g, turns),
        backed(g, turns, g.len(), colors),
        registers_apart(g),
        perfect(g, turns),
        forall|j: int| 0 <= j < g.len() ==> (#[trigger] colors[turns[j]]) is Some,
    ensures
        tight(g, colors),
{
    assert forall|v: int| 0 <= v < g.len() && reserved_color(g.nodes[v]) is None implies #[trigger] has_clique(
        g,
        colors,
        v,
    ) by {
        assert(earlier(turns, g.len(), v));
        let j = choose|i: int| 0 <= i < g.len() && #[trigger] turns[i] == v;
        let c = colors[turns[j]]->0;
        let below = lemma_clique_below(g, turns, colors, j, c);
        let members = below.push(v);
        assert forall|a: int, b: int| 0 <= a < b < members.len() implies g.adjacent[#[trigger] members[a]][#[trigger] members[b]] by {
            if b == c {
                assert(g.adjacent[turns[j]][below[a]]);
                assert(g.adjacent[below[a]][v] == g.adjacent[v][below[a]]);
            } else {
                assert(g.adjacent[below[a]][below[b]]);
            }
        }
        assert forall|a: int| 0 <= a < members.len() implies 0 <= #[trigger] members[a] < g.len()
            && colors[members[a]] == Some(a as usize) by {
            if a < c {
                assert(below[a] == members[a]);
            }
        }
        assert(colored_clique(g, colors, v, members));
    }
}

/// Whether some neighbour of `v` has colour `c`.
fn is_taken(graph: &InterferenceGraph, colors: &Vec<Option<usize>>, v: usize, c: usize) -> (r: bool)
    requires
        colors@.len() == graph@.len(),
        v < graph@.len(),
    ensures
        r == taken(graph@, colors@, v as int, c),
{
    let n = graph.node_count();
    let mut u: usize = 0;
    while u < n
        invariant
            u <= n,
            n == graph@.len(),
            v < n,
            colors@.len() == n,
            forall|w: int| 0 <= w < u ==> !#[trigger] holds(graph@, colors@, v as int, c, w),
        decreases n - u,
    {
        if graph.adjacent(v, u) {
            let same = match colors[u] {
                Some(d) => d == c,
                None => false,
            };
            if same {
                assert(holds(graph@, colors@, v as int, c, u as int));
                return true;
            }
        }
        u += 1;
    }
    false
}

/// The least colour below `k` that no neighbour of `v` has, or `k`.
fn first_free(graph: &InterferenceGraph, colors: &Vec<Option<usize>>, v: usize, k: usize) -> (c: usize)
    requires
        colors@.len() == graph@.len(),
        v < graph@.len(),
    ensures
        c == least_free(graph@, colors@, v as int, k, 0),
{
    let mut c: usize = 0;
    while c < k
        invariant
            c <= k,
            colors@.len() == graph@.len(),
            v < graph@.len(),
            least_free(graph@, colors@, v as int, k, 0) == least_free(graph@, colors@, v as int, k, c),
        decreases k - c,
    {
        if !is_taken(graph, colors, v, c) {
            return c;
        }
        c += 1;
    }
    k
}

/// The colours that hold before any node has had its turn.
fn reserved_colors(graph: &InterferenceGraph) -> (colors: Vec<Option<usize>>)
    ensures
        colors@ == initial_colors(graph@),
{
    let n = graph.node_count();
    let eax = String::from_str("%eax");
    let edx = String::from_str("%edx");
    let mut colors: Vec<Option<usize>> = Vec::new();
    let mut v: usize = 0;
    while v < n
        invariant
            v <= n,
            n == graph@.len(),
            eax@ == "%eax"@,
            edx@ == "%edx"@,
            colors@.len() == v,
            forall|w: int| 0 <= w < v ==> #[trigger] colors@[w] == reserved_color(graph@.nodes[w]),
        decreases n - v,
    {
        let name = graph.node(v);
        let color = if *name == eax {
            Some(0usize)
        } else if *name == edx {
            Some(1usize)
        } else {
            None
        };
        colors.push(color);
        v += 1;
    }
    assert(colors@ =~= initial_colors(graph@));
    colors
}

proof fn lemma_initial_colors(g: GraphView, k: usize)
    requires
        g.wf(),
    ensures
        proper(g, k, initial_colors(g)),
        greedy(g, initial_colors(g)),
        within_budget(g, k, initial_colors(g)),
{
    let colors = initial_colors(g);
    assert forall|a: int, b: int|
        0 <= a < g.len() && 0 <= b < g.len() && #[trigger] g.adjacent[a][b] && colors[a] is Some
            && colors[a]->0 < k implies colors[b] != colors[a] by {
        if colors[b] == colors[a] {
            assert(g.nodes[a] == g.nodes[b]);
            assert(a == b);
        }
    }
}

proof fn lemma_color_node(g: GraphView, k: usize, colors: Seq<Option<usize>>, v: int)
    requires
        g.wf(),
        colors.len() == g.len(),
        0 <= v < g.len(),
        proper(g, k, colors),
        greedy(g, colors),
        within_budget(g, k, colors),
    ensures
        proper(g, k, color_node(g, k, colors, v)),
        greedy(g, color_node(g, k, colors, v)),
        within_budget(g, k, color_node(g, k, colors, v)),
        color_node(g, k, colors, v).len() == g.len(),
        color_node(g, k, colors, v)[v] is Some,
        forall|w: int| 0 <= w < g.len() && colors[w] is Some ==> color_node(g, k, colors, v)[w] == colors[w],
{
    let next = color_node(g, k, colors, v);
    if colors[v] is None {
        let c = least_free(g, colors, v, k, 0);
        lemma_least_free(g, colors, v, k, 0);
        assert forall|a: int, b: int|
            0 <= a < g.len() && 0 <= b < g.len() && #[trigger] g.adjacent[a][b] && next[a] is Some
                && next[a]->0 < k implies next[b] != next[a] by {
            assert(g.adjacent[a][b] == g.adjacent[b][a]);
            if a == v {
                if next[b] == next[a] {
                    assert(holds(g, colors, v, c, b));
                }
            } else if b == v {
                if next[b] == next[a] {
                    assert(holds(g, colors, v, c, a));
                }
            }
        }
        assert forall|w: int, d: usize|
            0 <= w < g.len() && reserved_color(g.nodes[w]) is None && next[w] is Some && d
                < next[w]->0 implies #[trigger] taken(g, next, w, d) by {
            assert(taken(g, colors, w, d));
            let u = choose|u: int| 0 <= u < g.len() && #[trigger] holds(g, colors, w, d, u);
            assert(holds(g, next, w, d, u));
        }
        assert forall|w: int| 0 <= w < g.len() implies match reserved_color(g.nodes[w]) {
            Some(c) => #[trigger] next[w] == Some(c),
            None => next[w] is Some ==> next[w]->0 <= k,
        } by {
            assert(match reserved_color(g.nodes[w]) {
                Some(c) => colors[w] == Some(c),
                None => colors[w] is Some ==> colors[w]->0 <= k,
            });
        }
    }
}

/// Colours the graph within the budget `k`.
///
/// The hardware registers keep their reserved colours. The other nodes take
/// their turn against the elimination ordering, each with the least colour
/// below `k` that none of its coloured neighbours has; a node for which no
/// such colour is left is spilled, and has colour `k`.
///
/// No two neighbours share a colour below `k`. Where the graph is chordal
/// and no hardware register has a neighbour, every temporary is the last of
/// a clique with the colours from 0 to its own: the colouring then uses no
/// colour that a clique does not call for, and spills only where a clique
/// is larger than the budget.
pub fn assign_colors(graph: &InterferenceGraph, k: usize) -> (colors: Vec<usize>)
    ensures
        colors@.len() == graph@.len(),
        forall|v: int|
            0 <= v < graph@.len() ==> coloring(graph@, k)[v] == Some(#[trigger] colors@[v]),
        coloring(graph@, k).len() == graph@.len(),
        proper(graph@, k, coloring(graph@, k)),
        greedy(graph@, coloring(graph@, k)),
        within_budget(graph@, k, coloring(graph@, k)),
        registers_apart(graph@) && perfect(graph@, elimination_order(graph@).reverse()) ==> tight(
            graph@,
            coloring(graph@, k),
        ),
        registers_apart(graph@) && chordal(graph@) ==> tight(graph@, coloring(graph@, k)),
{
    let n = graph.node_count();
    let ghost g = graph@;
    let order = elimination_order_of(graph);
    let ghost turns = elimination_order(g).reverse();
    let mut marks = reserved_colors(graph);
    proof {
        lemma_initial_colors(g, k);
        assert(turns.len() == n);
        assert forall|j: int| 0 <= j < n implies 0 <= #[trigger] turns[j] < n by {
            assert(turns[j] == positions(order@)[n - 1 - j]);
        }
        assert forall|a: int, b: int| 0 <= a < n && 0 <= b < n && a != b implies turns[a] != turns[b] by {
            assert(turns[a] == positions(order@)[n - 1 - a]);
            assert(turns[b] == positions(order@)[n - 1 - b]);
            assert(order@[n - 1 - a] != order@[n - 1 - b]);
        }
        assert forall|u: int| 0 <= u < n implies #[trigger] earlier(turns, n as int, u) by {
            assert(order@.contains(u as usize));
            let j = choose|j: int| 0 <= j < order@.len() && order@[j] == u as usize;
            assert(positions(order@)[j] == u);
            assert(turns[n - 1 - j] == u);
        }
        assert(takes_turns(g, turns));
    }
    let mut m: usize = 0;
    while m < n
        invariant
            m <= n,
            n == g.len(),
            g == graph@,
            g.wf(),
            order@.len() == n,
            positions(order@) == elimination_order(g),
            turns == elimination_order(g).reverse(),
            turns.len() == n,
            forall|j: int| 0 <= j < n ==> (#[trigger] order@[j]) < n,
            marks@.len() == n,
            marks@ == color_along(g, k, turns, m as nat),
            proper(g, k, marks@),
            greedy(g, marks@),
            within_budget(g, k, marks@),
            takes_turns(g, turns),
            searched(g, turns),
            backed(g, turns, m as int, marks@),
            colored_in_turn(g, turns, m as int, marks@),
            forall|j: int| 0 <= j < m ==> (#[trigger] marks@[turns[j]]) is Some,
        decreases n - m,
    {
        let v = order[n - 1 - m];
        let ghost before = marks@;
        proof {
            assert(positions(order@)[n - 1 - m] == v);
            assert(turns[m as int] == v);
            lemma_color_node(g, k, before, v as int);
            lemma_turn(g, k, turns, m as int, before);
        }
        if marks[v].is_none() {
            let c = first_free(graph, &marks, v, k);
            marks[v] = Some(c);
        }
        proof {
            assert(marks@ =~= color_node(g, k, before, v as int));
            assert forall|j: int| 0 <= j < m + 1 implies (#[trigger] marks@[turns[j]]) is Some by {
                if j < m {
                    assert(before[turns[j]] is Some);
                    assert(0 <= turns[j] < n) by {
                        assert(turns[j] == positions(order@)[n - 1 - j]);
                    }
                }
            }
        }
        m += 1;
    }
    proof {
        if registers_apart(g) && chordal(g) {
            lemma_search_perfect(g, turns);
        }
        if registers_apart(g) && perfect(g, turns) {
            lemma_tight(g, turns, marks@);
        }
    }
    let mut colors: Vec<usize> = Vec::new();
    let mut v: usize = 0;
    while v < n
        invariant
            v <= n,
            n == g.len(),
            marks@.len() == n,
            colors@.len() == v,
            order@.len() == n,
            turns.len() == n,
            positions(order@) == elimination_order(g),
            turns == elimination_order(g).reverse(),
            forall|u: usize| u < n ==> #[trigger] order@.contains(u),
            forall|j: int| 0 <= j < n ==> (#[trigger] marks@[turns[j]]) is Some,
            forall|w: int| 0 <= w < v ==> marks@[w] == Some(#[trigger] colors@[w]),
        decreases n - v,
    {
        proof {
            assert(order@.contains(v));
            let j = choose|j: int| 0 <= j < order@.len() && order@[j] == v;
            assert(positions(order@)[j] == v);
            assert(turns[n - 1 - j] == v);
            assert(marks@[turns[n - 1 - j]] is Some);
        }
        let c = match marks[v] {
            Some(c) => c,
            None => k,
        };
        colors.push(c);
        v += 1;
    }
    colors
}

} // verus!
