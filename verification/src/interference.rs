//! The interference graph: which temporaries must not share a register.
//!
//! A line that writes `t` sets `t` against every temporary that is live after
//! the line, except `t` itself and, on a move, the source of the move: the
//! two ends of a move may share a register, which makes the move redundant.

use vstd::prelude::*;
use crate::facts::{facts, Dependency, Fact};
use crate::names::{
    contains_name,
    find_name,
    first_occurrences,
    insert_name,
    lemma_first_occurrences,
    lemma_first_occurrences_push,
    lemma_position_of,
    names,
    position_of,
};
use crate::flow::{blank, rows};

verus! {

/// An undirected graph over named nodes, as contracts see it.
pub struct GraphView {
    /// The nodes, in the order in which they entered the graph.
    pub nodes: Seq<Seq<char>>,
    /// `adjacent[a][b]` says whether the nodes at `a` and `b` share an edge.
    pub adjacent: Seq<Seq<bool>>,
}

impl GraphView {
    pub open spec fn len(self) -> int {
        self.nodes.len() as int
    }

    /// No node twice, a square matrix, no loop at a node, every edge in both directions.
    pub open spec fn wf(self) -> bool {
        &&& self.nodes.no_duplicates()
        &&& self.adjacent.len() == self.nodes.len()
        &&& forall|a: int| 0 <= a < self.len() ==> (#[trigger] self.adjacent[a]).len() == self.len()
        &&& forall|a: int| 0 <= a < self.len() ==> !self.adjacent[a][a]
        &&& forall|a: int, b: int|
            0 <= a < self.len() && 0 <= b < self.len() ==> self.adjacent[a][b] == self.adjacent[b][a]
    }

    /// Whether the nodes named `x` and `y` share an edge.
    pub open spec fn has_edge(self, x: Seq<char>, y: Seq<char>) -> bool {
        &&& self.nodes.contains(x)
        &&& self.nodes.contains(y)
        &&& self.adjacent[position_of(self.nodes, x)][position_of(self.nodes, y)]
    }
}

/// Whether a line that writes `t` sets `t` against `x`, should `x` be live after it.
pub open spec fn rival(f: Fact, t: Seq<char>, x: Seq<char>) -> bool {
    x != t && !(f.is_move && f.uses.contains(x))
}

/// Whether the line writes `t` and thereby sets it against `x`.
pub open spec fn line_edge(f: Fact, t: Seq<char>, x: Seq<char>) -> bool {
    f.defines == Some(t) && f.live_out.contains(x) && rival(f, t, x)
}

/// Whether the line sets `a` and `b` against each other.
pub open spec fn line_links(f: Fact, a: Seq<char>, b: Seq<char>) -> bool {
    line_edge(f, a, b) || line_edge(f, b, a)
}

/// Whether some line sets `a` and `b` against each other.
pub open spec fn interferes(fs: Seq<Fact>, a: Seq<char>, b: Seq<char>) -> bool {
    exists|i: int| 0 <= i < fs.len() && #[trigger] line_links(fs[i], a, b)
}

/// The names of `live` that a line writing `t` sets `t` against, in the order of `live`.
pub open spec fn rivals(f: Fact, t: Seq<char>, live: Seq<Seq<char>>) -> Seq<Seq<char>>
    decreases live.len(),
{
    if live.len() == 0 {
        Seq::empty()
    } else if rival(f, t, live.last()) {
        rivals(f, t, live.drop_last()).push(live.last())
    } else {
        rivals(f, t, live.drop_last())
    }
}

/// The names that a line brings into the graph: what it writes, then what it sets that against.
pub open spec fn line_mentions(f: Fact) -> Seq<Seq<char>> {
    match f.defines {
        Some(t) => seq![t] + rivals(f, t, f.live_out),
        None => Seq::empty(),
    }
}

/// The names that the lines bring into the graph, line after line.
pub open spec fn mentions(fs: Seq<Fact>) -> Seq<Seq<char>>
    decreases fs.len(),
{
    if fs.len() == 0 {
        Seq::empty()
    } else {
        mentions(fs.drop_last()) + line_mentions(fs.last())
    }
}

/// The interference graph of a function. Its nodes are the names that the
/// lines bring in, each once, in order of first mention; two nodes share an
/// edge exactly when some line sets them against each other.
pub open spec fn interference_graph(fs: Seq<Fact>) -> GraphView {
    let nodes = first_occurrences(mentions(fs));
    GraphView {
        nodes,
        adjacent: Seq::new(
            nodes.len(),
            |a: int| Seq::new(nodes.len(), |b: int| interferes(fs, nodes[a], nodes[b])),
        ),
    }
}

/// What `rivals` holds.
pub proof fn lemma_rivals(f: Fact, t: Seq<char>, live: Seq<Seq<char>>)
    ensures
        forall|x: Seq<char>| rivals(f, t, live).contains(x) <==> (live.contains(x) && rival(f, t, x)),
    decreases live.len(),
{
    if live.len() > 0 {
        let head = live.drop_last();
        let rh = rivals(f, t, head);
        let r = rivals(f, t, live);
        lemma_rivals(f, t, head);
        assert forall|x: Seq<char>| r.contains(x) <==> (live.contains(x) && rival(f, t, x)) by {
            assert(rh.contains(x) <==> (head.contains(x) && rival(f, t, x)));
            if r.contains(x) {
                let j = choose|j: int| 0 <= j < r.len() && r[j] == x;
                if j < rh.len() {
                    assert(rh[j] == x);
                    assert(rh.contains(x));
                    let m = choose|m: int| 0 <= m < head.len() && head[m] == x;
                    assert(live[m] == x);
                } else {
                    assert(live[live.len() - 1] == x);
                }
            }
            if live.contains(x) && rival(f, t, x) {
                let m = choose|m: int| 0 <= m < live.len() && live[m] == x;
                if m < head.len() {
                    assert(head[m] == x);
                    assert(rh.contains(x));
                    let j = choose|j: int| 0 <= j < rh.len() && rh[j] == x;
                    assert(r[j] == x);
                } else {
                    assert(r[rh.len() as int] == x);
                }
            }
        }
    }
}

/// What `mentions` holds: what a line writes, and what a line sets that against.
pub proof fn lemma_mentions(fs: Seq<Fact>)
    ensures
        forall|x: Seq<char>|
            mentions(fs).contains(x) <==> exists|i: int|
                0 <= i < fs.len() && #[trigger] line_mentions(fs[i]).contains(x),
    decreases fs.len(),
{
    if fs.len() > 0 {
        let head = fs.drop_last();
        lemma_mentions(head);
        let mh = mentions(head);
        let ml = line_mentions(fs.last());
        let m = mentions(fs);
        assert forall|x: Seq<char>|
            m.contains(x) <==> exists|i: int|
                0 <= i < fs.len() && #[trigger] line_mentions(fs[i]).contains(x) by {
            assert(mh.contains(x) <==> exists|i: int|
                0 <= i < head.len() && #[trigger] line_mentions(head[i]).contains(x));
            if m.contains(x) {
                let j = choose|j: int| 0 <= j < m.len() && m[j] == x;
                if j < mh.len() {
                    assert(mh[j] == x);
                    assert(mh.contains(x));
                    let i = choose|i: int|
                        0 <= i < head.len() && #[trigger] line_mentions(head[i]).contains(x);
                    assert(line_mentions(fs[i]).contains(x));
                } else {
                    assert(ml[j - mh.len()] == x);
                    assert(line_mentions(fs[fs.len() - 1]).contains(x));
                }
            }
            if exists|i: int| 0 <= i < fs.len() && #[trigger] line_mentions(fs[i]).contains(x) {
                let i = choose|i: int| 0 <= i < fs.len() && #[trigger] line_mentions(fs[i]).contains(x);
                if i < head.len() {
                    assert(line_mentions(head[i]).contains(x));
                    assert(mh.contains(x));
                    let j = choose|j: int| 0 <= j < mh.len() && mh[j] == x;
                    assert(m[j] == x);
                } else {
                    let j = choose|j: int| 0 <= j < ml.len() && ml[j] == x;
                    assert(m[mh.len() + j] == x);
                }
            }
        }
    } else {
        assert forall|x: Seq<char>|
            mentions(fs).contains(x) <==> exists|i: int|
                0 <= i < fs.len() && #[trigger] line_mentions(fs[i]).contains(x) by {}
    }
}

/// The nodes of the graph: every name that a line writes, and both ends of every edge.
/// The graph is well formed.
pub proof fn lemma_interference_graph(fs: Seq<Fact>)
    ensures
        interference_graph(fs).wf(),
        forall|i: int, t: Seq<char>|
            0 <= i < fs.len() && (#[trigger] fs[i].writes(t)) ==> interference_graph(fs).nodes.contains(t),
        forall|a: Seq<char>, b: Seq<char>| #[trigger]
            interferes(fs, a, b) ==> interference_graph(fs).nodes.contains(a)
                && interference_graph(fs).nodes.contains(b),
        forall|a: Seq<char>, b: Seq<char>| #[trigger]
            interference_graph(fs).has_edge(a, b) <==> interferes(fs, a, b),
{
    let g = interference_graph(fs);
    lemma_first_occurrences(mentions(fs));
    lemma_mentions(fs);
    assert forall|i: int, t: Seq<char>| 0 <= i < fs.len() && (#[trigger] fs[i].writes(t)) implies g.nodes.contains(
        t,
    ) by {
        assert(line_mentions(fs[i])[0] == t);
        assert(line_mentions(fs[i]).contains(t));
        assert(mentions(fs).contains(t));
        assert(first_occurrences(mentions(fs)).contains(t));
    }
    assert forall|a: Seq<char>, b: Seq<char>| #[trigger] interferes(fs, a, b) implies g.nodes.contains(a)
        && g.nodes.contains(b) by {
        let i = choose|i: int| 0 <= i < fs.len() && #[trigger] line_links(fs[i], a, b);
        let (t, x) = if line_edge(fs[i], a, b) {
            (a, b)
        } else {
            (b, a)
        };
        assert(line_edge(fs[i], t, x));
        lemma_rivals(fs[i], t, fs[i].live_out);
        let r = rivals(fs[i], t, fs[i].live_out);
        assert(r.contains(x));
        let j = choose|j: int| 0 <= j < r.len() && r[j] == x;
        assert(line_mentions(fs[i])[1 + j] == x);
        assert(line_mentions(fs[i])[0] == t);
        assert(line_mentions(fs[i]).contains(x));
        assert(line_mentions(fs[i]).contains(t));
        assert(mentions(fs).contains(x));
        assert(mentions(fs).contains(t));
        assert(first_occurrences(mentions(fs)).contains(x));
        assert(first_occurrences(mentions(fs)).contains(t));
    }
    assert forall|a: int| 0 <= a < g.len() implies !g.adjacent[a][a] by {
        if interferes(fs, g.nodes[a], g.nodes[a]) {
            let i = choose|i: int| 0 <= i < fs.len() && #[trigger] line_links(fs[i], g.nodes[a], g.nodes[a]);
        }
    }
    assert forall|a: int, b: int| 0 <= a < g.len() && 0 <= b < g.len() implies g.adjacent[a][b]
        == g.adjacent[b][a] by {
        lemma_interferes_symmetric(fs, g.nodes[a], g.nodes[b]);
    }
    assert forall|a: Seq<char>, b: Seq<char>| #[trigger]
        g.has_edge(a, b) <==> interferes(fs, a, b) by {
        lemma_position_of(g.nodes, a);
        lemma_position_of(g.nodes, b);
    }
}

/// A move sets what it writes against everything but its source: where the
/// two ends of a move are set against each other, another line does it.
pub proof fn lemma_move_exempt(fs: Seq<Fact>, i: int, d: Seq<char>, s: Seq<char>)
    requires
        0 <= i < fs.len(),
        fs[i].is_move,
        fs[i].defines == Some(d),
        fs[i].uses.contains(s),
    ensures
        !line_links(fs[i], d, s),
        interferes(fs, d, s) ==> exists|j: int|
            0 <= j < fs.len() && j != i && #[trigger] line_links(fs[j], d, s),
{
    if interferes(fs, d, s) {
        let j = choose|j: int| 0 <= j < fs.len() && #[trigger] line_links(fs[j], d, s);
        assert(j != i);
    }
}

/// Interference has no direction.
pub proof fn lemma_interferes_symmetric(fs: Seq<Fact>, a: Seq<char>, b: Seq<char>)
    ensures
        interferes(fs, a, b) == interferes(fs, b, a),
{
    if interferes(fs, a, b) {
        let i = choose|i: int| 0 <= i < fs.len() && #[trigger] line_links(fs[i], a, b);
        assert(line_links(fs[i], b, a));
    }
    if interferes(fs, b, a) {
        let i = choose|i: int| 0 <= i < fs.len() && #[trigger] line_links(fs[i], b, a);
        assert(line_links(fs[i], a, b));
    }
}

/// Whether the line writes `t` and sets it against `x` on account of one of
/// the first `q` names that are live after it.
pub open spec fn line_edge_within(f: Fact, q: int, t: Seq<char>, x: Seq<char>) -> bool {
    f.defines == Some(t) && f.live_out.subrange(0, q).contains(x) && rival(f, t, x)
}

proof fn lemma_within_step(f: Fact, q: int, t: Seq<char>, x: Seq<char>)
    requires
        0 <= q < f.live_out.len(),
    ensures
        line_edge_within(f, q + 1, t, x) == (line_edge_within(f, q, t, x) || (f.defines == Some(t) && x
            == f.live_out[q] && rival(f, t, x))),
{
    let short = f.live_out.subrange(0, q);
    let long = f.live_out.subrange(0, q + 1);
    if short.contains(x) {
        let j = choose|j: int| 0 <= j < short.len() && short[j] == x;
        assert(long[j] == x);
    }
    if x == f.live_out[q] {
        assert(long[q] == x);
    }
    if long.contains(x) {
        let j = choose|j: int| 0 <= j < long.len() && long[j] == x;
        if j < q {
            assert(short[j] == x);
        }
    }
}

proof fn lemma_interferes_step(fs: Seq<Fact>, i: int, a: Seq<char>, b: Seq<char>)
    requires
        0 <= i < fs.len(),
    ensures
        interferes(fs.subrange(0, i + 1), a, b) == (interferes(fs.subrange(0, i), a, b) || line_links(
            fs[i],
            a,
            b,
        )),
{
    let short = fs.subrange(0, i);
    let long = fs.subrange(0, i + 1);
    if interferes(short, a, b) {
        let j = choose|j: int| 0 <= j < short.len() && #[trigger] line_links(short[j], a, b);
        assert(line_links(long[j], a, b));
    }
    if line_links(fs[i], a, b) {
        assert(line_links(long[i], a, b));
    }
    if interferes(long, a, b) {
        let j = choose|j: int| 0 <= j < long.len() && #[trigger] line_links(long[j], a, b);
        if j < i {
            assert(line_links(short[j], a, b));
        }
    }
}

/// An interference graph: named nodes and the edges between them.
pub struct InterferenceGraph {
    /// The nodes, in the order in which they entered the graph.
    nodes: Vec<String>,
    /// `neighbors[a][b]` says whether the nodes at `a` and `b` share an edge.
    neighbors: Vec<Vec<bool>>,
}

impl View for InterferenceGraph {
    type V = GraphView;

    closed spec fn view(&self) -> GraphView {
        GraphView { nodes: names(self.nodes@), adjacent: rows(self.neighbors@) }
    }
}

impl InterferenceGraph {
    #[verifier::type_invariant]
    spec fn well_formed(&self) -> bool {
        self@.wf()
    }

    /// The number of nodes.
    pub fn node_count(&self) -> (n: usize)
        ensures
            n == self@.len(),
            self@.wf(),
    {
        proof {
            use_type_invariant(self);
        }
        self.nodes.len()
    }

    /// The name of the node at `a`.
    pub fn node(&self, a: usize) -> (name: &String)
        requires
            a < self@.len(),
        ensures
            name@ == self@.nodes[a as int],
    {
        &self.nodes[a]
    }

    /// Whether the nodes at `a` and `b` share an edge.
    pub fn adjacent(&self, a: usize, b: usize) -> (r: bool)
        requires
            a < self@.len(),
            b < self@.len(),
        ensures
            r == self@.adjacent[a as int][b as int],
    {
        proof {
            use_type_invariant(self);
            assert(self@.adjacent[a as int].len() == self@.len());
        }
        self.neighbors[a][b]
    }

    /// The position of the node named `name`, if the graph has one.
    pub fn index_of(&self, name: &String) -> (r: Option<usize>)
        ensures
            r is Some <==> self@.nodes.contains(name@),
            r matches Some(a) ==> a < self@.len() && a == position_of(self@.nodes, name@)
                && self@.nodes[a as int] == name@,
            self@.wf(),
    {
        proof {
            use_type_invariant(self);
            lemma_position_of(self@.nodes, name@);
        }
        find_name(&self.nodes, name)
    }

    /// Whether the nodes named `x` and `y` share an edge.
    pub fn has_edge(&self, x: &String, y: &String) -> (r: bool)
        ensures
            r == self@.has_edge(x@, y@),
    {
        match (self.index_of(x), self.index_of(y)) {
            (Some(a), Some(b)) => self.adjacent(a, b),
            _ => false,
        }
    }

    /// The names of the nodes, in the order in which they entered the graph.
    pub fn node_names(&self) -> (r: Vec<String>)
        ensures
            names(r@) == self@.nodes,
    {
        crate::names::clone_names(&self.nodes)
    }
}

/// Whether a line that writes `t` sets `t` against `x`, should `x` be live after it.
fn is_rival(dep: &Dependency, t: &String, x: &String) -> (r: bool)
    ensures
        r == rival(dep@, t@, x@),
{
    if *x == *t {
        false
    } else if dep.is_move {
        !contains_name(&dep.uses, x)
    } else {
        true
    }
}

/// The nodes of the graph: the names that the lines bring in, each once, in order of first mention.
fn collect_nodes(dependencies: &Vec<Dependency>) -> (nodes: Vec<String>)
    ensures
        names(nodes@) == first_occurrences(mentions(facts(dependencies@))),
{
    let ghost fs = facts(dependencies@);
    let mut nodes: Vec<String> = Vec::new();
    let mut i: usize = 0;
    assert(fs.subrange(0, 0) =~= Seq::<Fact>::empty());
    assert(names(nodes@) =~= Seq::<Seq<char>>::empty());
    while i < dependencies.len()
        invariant
            i <= dependencies.len(),
            fs == facts(dependencies@),
            names(nodes@) == first_occurrences(mentions(fs.subrange(0, i as int))),
        decreases dependencies.len() - i,
    {
        let dep = &dependencies[i];
        let ghost before = mentions(fs.subrange(0, i as int));
        proof {
            assert(fs.subrange(0, i + 1).drop_last() =~= fs.subrange(0, i as int));
            assert(fs.subrange(0, i + 1).last() == fs[i as int]);
            assert(dep@ == fs[i as int]);
        }
        match &dep.defines {
            Some(t) => {
                proof {
                    lemma_first_occurrences_push(before, t@);
                    assert(dep@.live_out.subrange(0, 0) =~= Seq::<Seq<char>>::empty());
                    assert(before.push(t@) =~= before + (seq![t@] + rivals(
                        dep@,
                        t@,
                        dep@.live_out.subrange(0, 0),
                    )));
                }
                insert_name(&mut nodes, t);
                let mut q: usize = 0;
                while q < dep.live_out.len()
                    invariant
                        q <= dep.live_out.len(),
                        dep@.defines == Some(t@),
                        names(nodes@) == first_occurrences(
                            before + (seq![t@] + rivals(dep@, t@, dep@.live_out.subrange(0, q as int))),
                        ),
                    decreases dep.live_out.len() - q,
                {
                    let x = &dep.live_out[q];
                    proof {
                        let short = dep@.live_out.subrange(0, q as int);
                        let long = dep@.live_out.subrange(0, q + 1);
                        assert(long.drop_last() =~= short);
                        assert(long.last() == x@);
                        let part = before + (seq![t@] + rivals(dep@, t@, short));
                        if rival(dep@, t@, x@) {
                            lemma_first_occurrences_push(part, x@);
                            assert(part.push(x@) =~= before + (seq![t@] + rivals(dep@, t@, long)));
                        }
                    }
                    if is_rival(dep, t, x) {
                        insert_name(&mut nodes, x);
                    }
                    q += 1;
                }
                assert(dep@.live_out.subrange(0, q as int) =~= dep@.live_out);
            },
            None => {
                assert(before + line_mentions(fs[i as int]) =~= before);
            },
        }
        i += 1;
    }
    assert(fs.subrange(0, i as int) =~= fs);
    nodes
}

/// Builds the interference graph of a function from its facts, liveness attached.
///
/// Every name that a line writes becomes a node, also where it has no
/// neighbour, and so does every name that a line sets against what it writes.
pub fn create_interference_graph(dependencies: &Vec<Dependency>) -> (graph: InterferenceGraph)
    ensures
        graph@ == interference_graph(facts(dependencies@)),
        graph@.wf(),
{
    let ghost fs = facts(dependencies@);
    let ghost g = interference_graph(fs);
    let nodes = collect_nodes(dependencies);
    let n = nodes.len();
    let mut neighbors = blank(n, n);
    let ghost nn = names(nodes@);
    proof {
        lemma_interference_graph(fs);
        assert(fs.subrange(0, 0) =~= Seq::<Fact>::empty());
    }
    let mut i: usize = 0;
    while i < dependencies.len()
        invariant
            i <= dependencies.len(),
            fs == facts(dependencies@),
            g == interference_graph(fs),
            g.wf(),
            nn == names(nodes@),
            nn == g.nodes,
            n == nodes@.len(),
            neighbors@.len() == n,
            forall|c: int| 0 <= c < n ==> (#[trigger] neighbors@[c])@.len() == n,
            forall|c: int, d: int|
                0 <= c < n && 0 <= d < n ==> #[trigger] neighbors@[c]@[d] == interferes(
                    fs.subrange(0, i as int),
                    nn[c],
                    nn[d],
                ),
            forall|j: int, t: Seq<char>| 0 <= j < fs.len() && (#[trigger] fs[j].writes(t)) ==> nn.contains(t),
            forall|a: Seq<char>, b: Seq<char>| #[trigger]
                interferes(fs, a, b) ==> nn.contains(a) && nn.contains(b),
        decreases dependencies.len() - i,
    {
        let dep = &dependencies[i];
        let ghost f = fs[i as int];
        assert(dep@ == f);
        match &dep.defines {
            Some(t) => {
                assert(f.writes(t@));
                let found = find_name(&nodes, t);
                proof {
                    lemma_position_of(nn, t@);
                    assert(f.live_out.subrange(0, 0) =~= Seq::<Seq<char>>::empty());
                }
                if let Some(a) = found {
                    let mut q: usize = 0;
                    while q < dep.live_out.len()
                        invariant
                            q <= dep.live_out.len(),
                            i < dependencies.len(),
                            fs == facts(dependencies@),
                            f == fs[i as int],
                            dep@ == f,
                            f.defines == Some(t@),
                            g.wf(),
                            nn == names(nodes@),
                            nn == g.nodes,
                            n == nodes@.len(),
                            a < n,
                            nn[a as int] == t@,
                            neighbors@.len() == n,
                            forall|c: int| 0 <= c < n ==> (#[trigger] neighbors@[c])@.len() == n,
                            forall|c: int, d: int|
                                0 <= c < n && 0 <= d < n ==> #[trigger] neighbors@[c]@[d] == (interferes(
                                    fs.subrange(0, i as int),
                                    nn[c],
                                    nn[d],
                                ) || line_edge_within(f, q as int, nn[c], nn[d]) || line_edge_within(
                                    f,
                                    q as int,
                                    nn[d],
                                    nn[c],
                                )),
                            forall|a: Seq<char>, b: Seq<char>| #[trigger]
                                interferes(fs, a, b) ==> nn.contains(a) && nn.contains(b),
                        decreases dep.live_out.len() - q,
                    {
                        let x = &dep.live_out[q];
                        let ghost before = rows(neighbors@);
                        let ghost mut b_pos: int = 0;
                        let ghost mut linked = false;
                        if is_rival(dep, t, x) {
                            proof {
                                assert(f.live_out[q as int] == x@);
                                assert(f.live_out.contains(x@));
                                assert(line_edge(f, t@, x@));
                                assert(line_links(fs[i as int], t@, x@));
                                assert(interferes(fs, t@, x@));
                                lemma_position_of(nn, x@);
                            }
                            if let Some(b) = find_name(&nodes, x) {
                                neighbors[a][b] = true;
                                neighbors[b][a] = true;
                                proof {
                                    b_pos = b as int;
                                    linked = true;
                                }
                            }
                        }
                        proof {
                            assert(linked == rival(f, t@, x@));
                            assert forall|c: int, d: int| 0 <= c < n && 0 <= d < n implies #[trigger] neighbors@[c]@[d]
                                == (interferes(fs.subrange(0, i as int), nn[c], nn[d]) || line_edge_within(
                                f,
                                q + 1,
                                nn[c],
                                nn[d],
                            ) || line_edge_within(f, q + 1, nn[d], nn[c])) by {
                                lemma_within_step(f, q as int, nn[c], nn[d]);
                                lemma_within_step(f, q as int, nn[d], nn[c]);
                                assert(before[c][d] == (interferes(
                                    fs.subrange(0, i as int),
                                    nn[c],
                                    nn[d],
                                ) || line_edge_within(f, q as int, nn[c], nn[d]) || line_edge_within(
                                    f,
                                    q as int,
                                    nn[d],
                                    nn[c],
                                )));
                                if linked {
                                    assert(nn[b_pos] == x@);
                                    assert(neighbors@[c]@[d] == (before[c][d] || (c == a && d == b_pos) || (c
                                        == b_pos && d == a)));
                                    assert((nn[c] == t@) == (c == a));
                                    assert((nn[d] == t@) == (d == a));
                                    assert((nn[c] == x@) == (c == b_pos));
                                    assert((nn[d] == x@) == (d == b_pos));
                                } else {
                                    assert(neighbors@[c]@[d] == before[c][d]);
                                }
                            }
                        }
                        q += 1;
                    }
                    proof {
                        assert(f.live_out.subrange(0, q as int) =~= f.live_out);
                    }
                }
                proof {
                    assert forall|c: int, d: int| 0 <= c < n && 0 <= d < n implies #[trigger] neighbors@[c]@[d]
                        == interferes(fs.subrange(0, i + 1), nn[c], nn[d]) by {
                        lemma_interferes_step(fs, i as int, nn[c], nn[d]);
                    }
                }
            },
            None => {
                proof {
                    assert forall|c: int, d: int| 0 <= c < n && 0 <= d < n implies #[trigger] neighbors@[c]@[d]
                        == interferes(fs.subrange(0, i + 1), nn[c], nn[d]) by {
                        lemma_interferes_step(fs, i as int, nn[c], nn[d]);
                    }
                }
            },
        }
        i += 1;
    }
    proof {
        assert(fs.subrange(0, i as int) =~= fs);
        assert forall|c: int| 0 <= c < n implies rows(neighbors@)[c] =~= g.adjacent[c] by {}
        assert(rows(neighbors@) =~= g.adjacent);
    }
    InterferenceGraph { nodes, neighbors }
}

} // verus!
