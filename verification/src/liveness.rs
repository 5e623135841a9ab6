//! Liveness analysis: which temporaries are live before and after each line.
//!
//! A temporary is live after a line when it is live before one of the line's
//! successors, and live before a line when the line reads it, or when it is
//! live after the line and the line does not write it. The analysis computes
//! the least sets that satisfy both equations, also where jumps and back
//! edges make the successor relation cyclic.

use vstd::prelude::*;
use crate::facts::{facts, successors_in_range, Dependency, Fact};
use crate::flow::{below, fed, flow_of, in_bit, out_bit, rows, solve, Flow};
use crate::names::{
    contains_name,
    find_name,
    first_occurrences,
    insert_name,
    lemma_first_occurrences,
    lemma_first_occurrences_push,
    lemma_position_of,
    lemma_position_of_distinct,
    names,
    position_of,
};

verus! {

/// Live sets for every line of a function.
pub struct Liveness {
    pub live_in: Seq<Set<Seq<char>>>,
    pub live_out: Seq<Set<Seq<char>>>,
}

/// Whether `t` is live before the `k`-th successor of the line `f`.
pub open spec fn live_at_successor(f: Fact, k: int, ins: Seq<Set<Seq<char>>>, t: Seq<char>) -> bool {
    (f.successors[k] as int) < ins.len() && ins[f.successors[k] as int].contains(t)
}

/// What the line reads, and what is live after it unless the line writes it.
pub open spec fn live_in_rule(f: Fact, out: Set<Seq<char>>) -> Set<Seq<char>> {
    Set::new(|t: Seq<char>| f.uses.contains(t) || (out.contains(t) && !f.writes(t)))
}

/// The union of what is live before the line's successors.
pub open spec fn live_out_rule(f: Fact, ins: Seq<Set<Seq<char>>>) -> Set<Seq<char>> {
    Set::new(
        |t: Seq<char>|
            exists|k: int| 0 <= k < f.successors.len() && #[trigger] live_at_successor(f, k, ins, t),
    )
}

/// Whether `l` satisfies both liveness equations on every line of `fs`.
pub open spec fn is_fixpoint(fs: Seq<Fact>, l: Liveness) -> bool {
    &&& l.live_in.len() == fs.len()
    &&& l.live_out.len() == fs.len()
    &&& forall|i: int|
        0 <= i < fs.len() ==> #[trigger] l.live_in[i] == live_in_rule(fs[i], l.live_out[i])
    &&& forall|i: int| 0 <= i < fs.len() ==> #[trigger] l.live_out[i] == live_out_rule(fs[i], l.live_in)
}

/// Whether every set of `a` lies within the matching set of `b`.
pub open spec fn within(a: Liveness, b: Liveness) -> bool {
    &&& forall|i: int| 0 <= i < a.live_in.len() ==> (#[trigger] a.live_in[i]).subset_of(b.live_in[i])
    &&& forall|i: int|
        0 <= i < a.live_out.len() ==> (#[trigger] a.live_out[i]).subset_of(b.live_out[i])
}

/// Whether `l` is the solution of the liveness equations that lies within every other.
pub open spec fn is_least_fixpoint(fs: Seq<Fact>, l: Liveness) -> bool {
    &&& is_fixpoint(fs, l)
    &&& forall|other: Liveness| #[trigger] is_fixpoint(fs, other) ==> within(l, other)
}

/// The liveness of a function: the least solution of the liveness equations.
pub open spec fn liveness(fs: Seq<Fact>) -> Liveness {
    choose|l: Liveness| is_least_fixpoint(fs, l)
}

/// The live sets that the facts carry.
pub open spec fn attached(fs: Seq<Fact>) -> Liveness {
    Liveness {
        live_in: Seq::new(fs.len(), |i: int| fs[i].live_in.to_set()),
        live_out: Seq::new(fs.len(), |i: int| fs[i].live_out.to_set()),
    }
}

/// Every name that some line reads, line after line, repeats included.
pub open spec fn all_uses(fs: Seq<Fact>) -> Seq<Seq<char>>
    decreases fs.len(),
{
    if fs.len() == 0 {
        Seq::empty()
    } else {
        all_uses(fs.drop_last()) + fs.last().uses
    }
}

/// The names that can be live at all: those that some line reads, in the
/// order in which the function first reads them.
pub open spec fn universe(fs: Seq<Fact>) -> Seq<Seq<char>> {
    first_occurrences(all_uses(fs))
}

/// The names of `u` that `s` holds, in the order of `u`.
pub open spec fn keep(u: Seq<Seq<char>>, s: Set<Seq<char>>) -> Seq<Seq<char>>
    decreases u.len(),
{
    if u.len() == 0 {
        Seq::empty()
    } else if s.contains(u.last()) {
        keep(u.drop_last(), s).push(u.last())
    } else {
        keep(u.drop_last(), s)
    }
}

/// The facts with their liveness attached: each live set listed in the order
/// in which the function first reads its names.
pub open spec fn analysed(fs: Seq<Fact>) -> Seq<Fact> {
    Seq::new(
        fs.len(),
        |i: int|
            fs[i].with_liveness(
                keep(universe(fs), liveness(fs).live_in[i]),
                keep(universe(fs), liveness(fs).live_out[i]),
            ),
    )
}

/// There is at most one least solution.
pub proof fn lemma_least_fixpoint_unique(fs: Seq<Fact>, a: Liveness, b: Liveness)
    requires
        is_least_fixpoint(fs, a),
        is_least_fixpoint(fs, b),
    ensures
        a == b,
{
    assert(is_fixpoint(fs, a) && is_fixpoint(fs, b));
    assert(within(a, b) && within(b, a));
    assert forall|i: int| 0 <= i < fs.len() implies a.live_in[i] == b.live_in[i] by {
        assert(a.live_in[i].subset_of(b.live_in[i]));
        assert(b.live_in[i].subset_of(a.live_in[i]));
        assert(a.live_in[i] =~= b.live_in[i]);
    }
    assert forall|i: int| 0 <= i < fs.len() implies a.live_out[i] == b.live_out[i] by {
        assert(a.live_out[i].subset_of(b.live_out[i]));
        assert(b.live_out[i].subset_of(a.live_out[i]));
        assert(a.live_out[i] =~= b.live_out[i]);
    }
    assert(a.live_in =~= b.live_in);
    assert(a.live_out =~= b.live_out);
}

/// The least solution of the equations is the liveness of the function.
pub proof fn lemma_liveness_is(fs: Seq<Fact>, l: Liveness)
    requires
        is_least_fixpoint(fs, l),
    ensures
        liveness(fs) == l,
{
    lemma_least_fixpoint_unique(fs, l, liveness(fs));
}

/// The equations read only what a line reads and writes and where it leads.
pub proof fn lemma_fixpoint_same_lines(fs: Seq<Fact>, gs: Seq<Fact>, l: Liveness)
    requires
        fs.len() == gs.len(),
        forall|i: int| 0 <= i < fs.len() ==> (#[trigger] fs[i]).same_line(gs[i]),
        is_fixpoint(fs, l),
    ensures
        is_fixpoint(gs, l),
{
    assert forall|i: int| 0 <= i < gs.len() implies #[trigger] l.live_in[i] == live_in_rule(
        gs[i],
        l.live_out[i],
    ) by {
        assert(fs[i].same_line(gs[i]));
        assert(live_in_rule(gs[i], l.live_out[i]) =~= live_in_rule(fs[i], l.live_out[i]));
    }
    assert forall|i: int| 0 <= i < gs.len() implies #[trigger] l.live_out[i] == live_out_rule(
        gs[i],
        l.live_in,
    ) by {
        assert(fs[i].same_line(gs[i]));
        assert forall|t: Seq<char>|
            live_out_rule(gs[i], l.live_in).contains(t) == live_out_rule(fs[i], l.live_in).contains(
                t,
            ) by {
            if live_out_rule(gs[i], l.live_in).contains(t) {
                let k = choose|k: int|
                    0 <= k < gs[i].successors.len() && #[trigger] live_at_successor(
                        gs[i],
                        k,
                        l.live_in,
                        t,
                    );
                assert(live_at_successor(fs[i], k, l.live_in, t));
            }
            if live_out_rule(fs[i], l.live_in).contains(t) {
                let k = choose|k: int|
                    0 <= k < fs[i].successors.len() && #[trigger] live_at_successor(
                        fs[i],
                        k,
                        l.live_in,
                        t,
                    );
                assert(live_at_successor(gs[i], k, l.live_in, t));
            }
        }
        assert(live_out_rule(gs[i], l.live_in) =~= live_out_rule(fs[i], l.live_in));
    }
}

/// `keep` holds exactly the names of `u` that are in `s`, each as often as `u` does.
pub proof fn lemma_keep(u: Seq<Seq<char>>, s: Set<Seq<char>>)
    ensures
        forall|t: Seq<char>| keep(u, s).contains(t) <==> (u.contains(t) && s.contains(t)),
        u.no_duplicates() ==> keep(u, s).no_duplicates(),
        keep(u, s).len() <= u.len(),
    decreases u.len(),
{
    if u.len() > 0 {
        let head = u.drop_last();
        let x = u.last();
        lemma_keep(head, s);
        let kh = keep(head, s);
        assert forall|t: Seq<char>| keep(u, s).contains(t) <==> (u.contains(t) && s.contains(t)) by {
            assert(kh.contains(t) <==> (head.contains(t) && s.contains(t)));
            if keep(u, s).contains(t) {
                let j = choose|j: int| 0 <= j < keep(u, s).len() && keep(u, s)[j] == t;
                if j < kh.len() {
                    assert(kh[j] == t);
                    assert(kh.contains(t));
                    let m = choose|m: int| 0 <= m < head.len() && head[m] == t;
                    assert(u[m] == t);
                } else {
                    assert(t == x);
                    assert(u[u.len() - 1] == t);
                }
            }
            if u.contains(t) && s.contains(t) {
                let m = choose|m: int| 0 <= m < u.len() && u[m] == t;
                if m < head.len() {
                    assert(head[m] == t);
                    assert(kh.contains(t));
                    let j = choose|j: int| 0 <= j < kh.len() && kh[j] == t;
                    assert(keep(u, s)[j] == t);
                } else {
                    assert(keep(u, s)[kh.len() as int] == t);
                }
            }
        }
        if u.no_duplicates() {
            assert(head.no_duplicates());
            if s.contains(x) {
                if kh.contains(x) {
                    let m = choose|m: int| 0 <= m < head.len() && head[m] == x;
                    assert(u[m] == u[u.len() - 1]);
                }
                assert forall|a: int, b: int|
                    0 <= a < keep(u, s).len() && 0 <= b < keep(u, s).len() && a != b implies keep(
                    u,
                    s,
                )[a] != keep(u, s)[b] by {
                    if a < kh.len() && b < kh.len() {
                        assert(kh[a] != kh[b]);
                    } else if a < kh.len() {
                        assert(kh[a] == keep(u, s)[a]);
                        assert(kh.contains(kh[a]));
                    } else {
                        assert(kh[b] == keep(u, s)[b]);
                        assert(kh.contains(kh[b]));
                    }
                }
            }
        }
    }
}

/// Every name that a line reads is in the universe.
pub proof fn lemma_universe_covers(fs: Seq<Fact>, i: int, t: Seq<char>)
    requires
        0 <= i < fs.len(),
        fs[i].uses.contains(t),
    ensures
        universe(fs).contains(t),
        universe(fs).no_duplicates(),
{
    lemma_all_uses_covers(fs, i, t);
    lemma_first_occurrences(all_uses(fs));
}

proof fn lemma_all_uses_covers(fs: Seq<Fact>, i: int, t: Seq<char>)
    requires
        0 <= i < fs.len(),
        fs[i].uses.contains(t),
    ensures
        all_uses(fs).contains(t),
    decreases fs.len(),
{
    let head = all_uses(fs.drop_last());
    if i == fs.len() - 1 {
        let j = choose|j: int| 0 <= j < fs[i].uses.len() && fs[i].uses[j] == t;
        assert(all_uses(fs)[head.len() + j] == t);
    } else {
        lemma_all_uses_covers(fs.drop_last(), i, t);
        let j = choose|j: int| 0 <= j < head.len() && head[j] == t;
        assert(all_uses(fs)[j] == t);
    }
}

/// The bit that stands for what a line writes, if that name has a bit at all.
pub open spec fn def_index(f: Fact, u: Seq<Seq<char>>) -> Option<usize> {
    match f.defines {
        Some(d) => if u.contains(d) {
            Some(position_of(u, d) as usize)
        } else {
            None
        },
        None => None,
    }
}

/// The names whose bits are set in `row`, bit `x` standing for the name `u[x]`.
pub open spec fn lifted(u: Seq<Seq<char>>, row: Seq<bool>) -> Set<Seq<char>> {
    Set::new(|t: Seq<char>| u.contains(t) && row[position_of(u, t)])
}

/// The live sets that a pair of bit matrices stands for.
pub open spec fn lifted_all(u: Seq<Seq<char>>, ins: Seq<Seq<bool>>, outs: Seq<Seq<bool>>) -> Liveness {
    Liveness {
        live_in: Seq::new(ins.len(), |i: int| lifted(u, ins[i])),
        live_out: Seq::new(outs.len(), |i: int| lifted(u, outs[i])),
    }
}

/// Whether the dataflow problem `p` states the facts `fs` over the names `u`.
pub open spec fn indexed(fs: Seq<Fact>, u: Seq<Seq<char>>, p: Flow) -> bool {
    &&& u.no_duplicates()
    &&& u.len() <= usize::MAX
    &&& p.wf()
    &&& p.lines() == fs.len()
    &&& p.width == u.len()
    &&& forall|i: int, t: Seq<char>| 0 <= i < fs.len() && (#[trigger] fs[i].uses.contains(t)) ==> u.contains(t)
    &&& forall|i: int, x: int|
        0 <= i < fs.len() && 0 <= x < u.len() ==> #[trigger] p.used[i][x] == fs[i].uses.contains(u[x])
    &&& forall|i: int| 0 <= i < fs.len() ==> #[trigger] p.defs[i] == def_index(fs[i], u)
    &&& forall|i: int| 0 <= i < fs.len() ==> #[trigger] p.succ[i] == fs[i].successors
}

proof fn lemma_def_bit(fs: Seq<Fact>, u: Seq<Seq<char>>, p: Flow, i: int, x: int)
    requires
        indexed(fs, u, p),
        0 <= i < fs.len(),
        0 <= x < u.len(),
    ensures
        (p.defs[i] == Some(x as usize)) == fs[i].writes(u[x]),
{
    lemma_position_of_distinct(u, x);
    match fs[i].defines {
        Some(d) => {
            lemma_position_of(u, d);
        },
        None => {},
    }
}

/// A solution over bits stands for a solution over names.
proof fn lemma_lift_fixpoint(
    fs: Seq<Fact>,
    u: Seq<Seq<char>>,
    p: Flow,
    ins: Seq<Seq<bool>>,
    outs: Seq<Seq<bool>>,
)
    requires
        indexed(fs, u, p),
        p.fixpoint(ins, outs),
    ensures
        is_fixpoint(fs, lifted_all(u, ins, outs)),
{
    let l = lifted_all(u, ins, outs);
    assert forall|i: int| 0 <= i < fs.len() implies #[trigger] l.live_in[i] == live_in_rule(
        fs[i],
        l.live_out[i],
    ) by {
        assert(p.justified(ins, outs) && p.closed_from(ins, outs, 0));
        assert(p.in_justified(ins, outs, i));
        assert(p.out_justified(ins, outs, i));
        assert(p.in_closed(ins, outs, i));
        assert(p.out_closed(ins, outs, i));
        assert forall|t: Seq<char>|
            l.live_in[i].contains(t) == live_in_rule(fs[i], l.live_out[i]).contains(t) by {
            lemma_position_of(u, t);
            let x = position_of(u, t);
            if u.contains(t) {
                lemma_def_bit(fs, u, p, i, x);
                assert(p.used[i][x] == fs[i].uses.contains(u[x]));
                assert(ins[i][x] == in_bit(p.used[i], p.defs[i], outs[i], x));
            } else {
                assert(!fs[i].uses.contains(t));
            }
        }
        assert(l.live_in[i] =~= live_in_rule(fs[i], l.live_out[i]));
    }
    assert forall|i: int| 0 <= i < fs.len() implies #[trigger] l.live_out[i] == live_out_rule(
        fs[i],
        l.live_in,
    ) by {
        assert(p.justified(ins, outs) && p.closed_from(ins, outs, 0));
        assert(p.in_justified(ins, outs, i));
        assert(p.out_justified(ins, outs, i));
        assert(p.in_closed(ins, outs, i));
        assert(p.out_closed(ins, outs, i));
        assert(p.succ[i] == fs[i].successors);
        assert forall|t: Seq<char>|
            l.live_out[i].contains(t) == live_out_rule(fs[i], l.live_in).contains(t) by {
            lemma_position_of(u, t);
            let x = position_of(u, t);
            if l.live_out[i].contains(t) {
                assert(outs[i][x]);
                let k = choose|k: int| 0 <= k < p.succ[i].len() && #[trigger] fed(p.succ[i], ins, x, k);
                assert(p.succ[i][k] < p.lines());
                assert(live_at_successor(fs[i], k, l.live_in, t));
            }
            if live_out_rule(fs[i], l.live_in).contains(t) {
                let k = choose|k: int|
                    0 <= k < fs[i].successors.len() && #[trigger] live_at_successor(
                        fs[i],
                        k,
                        l.live_in,
                        t,
                    );
                assert(fed(p.succ[i], ins, x, k));
            }
        }
        assert(l.live_out[i] =~= live_out_rule(fs[i], l.live_in));
    }
}

/// The bits that a solution over names sets.
spec fn lowered(u: Seq<Seq<char>>, sets: Seq<Set<Seq<char>>>) -> Seq<Seq<bool>> {
    Seq::new(sets.len(), |i: int| Seq::new(u.len(), |x: int| sets[i].contains(u[x])))
}

/// A solution over names stands for a solution over bits.
proof fn lemma_lower_fixpoint(fs: Seq<Fact>, u: Seq<Seq<char>>, p: Flow, other: Liveness)
    requires
        indexed(fs, u, p),
        is_fixpoint(fs, other),
    ensures
        p.fixpoint(lowered(u, other.live_in), lowered(u, other.live_out)),
{
    let ins = lowered(u, other.live_in);
    let outs = lowered(u, other.live_out);
    assert forall|i: int| 0 <= i < p.lines() implies #[trigger] p.in_justified(ins, outs, i)
        && p.out_justified(ins, outs, i) by {
        lemma_lower_line(fs, u, p, other, i);
    }
    assert forall|i: int| 0 <= i < p.lines() implies #[trigger] p.in_closed(ins, outs, i)
        && p.out_closed(ins, outs, i) by {
        lemma_lower_line(fs, u, p, other, i);
    }
}

proof fn lemma_lower_line(fs: Seq<Fact>, u: Seq<Seq<char>>, p: Flow, other: Liveness, i: int)
    requires
        indexed(fs, u, p),
        is_fixpoint(fs, other),
        0 <= i < p.lines(),
    ensures
        p.in_justified(lowered(u, other.live_in), lowered(u, other.live_out), i),
        p.out_justified(lowered(u, other.live_in), lowered(u, other.live_out), i),
        p.in_closed(lowered(u, other.live_in), lowered(u, other.live_out), i),
        p.out_closed(lowered(u, other.live_in), lowered(u, other.live_out), i),
{
    let ins = lowered(u, other.live_in);
    let outs = lowered(u, other.live_out);
    {
        assert(other.live_in[i] == live_in_rule(fs[i], other.live_out[i]));
        assert(other.live_out[i] == live_out_rule(fs[i], other.live_in));
        assert(p.succ[i] == fs[i].successors);
        assert forall|x: int| 0 <= x < p.width implies #[trigger] ins[i][x] == in_bit(
            p.used[i],
            p.defs[i],
            outs[i],
            x,
        ) by {
            lemma_def_bit(fs, u, p, i, x);
            assert(p.used[i][x] == fs[i].uses.contains(u[x]));
            assert(other.live_in[i].contains(u[x]) == live_in_rule(fs[i], other.live_out[i]).contains(
                u[x],
            ));
        }
        assert forall|x: int| 0 <= x < p.width && #[trigger] outs[i][x] implies out_bit(
            p.succ[i],
            ins,
            x,
        ) by {
            assert(live_out_rule(fs[i], other.live_in).contains(u[x]));
            let k = choose|k: int|
                0 <= k < fs[i].successors.len() && #[trigger] live_at_successor(
                    fs[i],
                    k,
                    other.live_in,
                    u[x],
                );
            assert(fed(p.succ[i], ins, x, k));
        }
        assert forall|x: int, k: int|
            0 <= x < p.width && 0 <= k < p.succ[i].len() && #[trigger] fed(
                p.succ[i],
                ins,
                x,
                k,
            ) implies outs[i][x] by {
            assert(p.succ[i][k] < p.lines());
            assert(live_at_successor(fs[i], k, other.live_in, u[x]));
            assert(live_out_rule(fs[i], other.live_in).contains(u[x]));
        }
    }
}

/// The least solution over bits stands for the least solution over names.
proof fn lemma_lift_least(
    fs: Seq<Fact>,
    u: Seq<Seq<char>>,
    p: Flow,
    ins: Seq<Seq<bool>>,
    outs: Seq<Seq<bool>>,
)
    requires
        indexed(fs, u, p),
        p.least_fixpoint(ins, outs),
    ensures
        is_least_fixpoint(fs, lifted_all(u, ins, outs)),
        liveness(fs) == lifted_all(u, ins, outs),
{
    let l = lifted_all(u, ins, outs);
    lemma_lift_fixpoint(fs, u, p, ins, outs);
    assert forall|other: Liveness| #[trigger] is_fixpoint(fs, other) implies within(l, other) by {
        lemma_lower_fixpoint(fs, u, p, other);
        let ins2 = lowered(u, other.live_in);
        let outs2 = lowered(u, other.live_out);
        assert(p.fixpoint(ins2, outs2));
        assert(below(ins, ins2) && below(outs, outs2));
        assert forall|i: int| 0 <= i < l.live_in.len() implies (#[trigger] l.live_in[i]).subset_of(
            other.live_in[i],
        ) by {
            assert forall|t: Seq<char>| l.live_in[i].contains(t) implies other.live_in[i].contains(
                t,
            ) by {
                lemma_position_of(u, t);
                let x = position_of(u, t);
                assert(ins[i][x]);
                assert(ins2[i][x]);
            }
        }
        assert forall|i: int| 0 <= i < l.live_out.len() implies (#[trigger] l.live_out[i]).subset_of(
            other.live_out[i],
        ) by {
            assert forall|t: Seq<char>| l.live_out[i].contains(t) implies other.live_out[i].contains(
                t,
            ) by {
                lemma_position_of(u, t);
                let x = position_of(u, t);
                assert(outs[i][x]);
                assert(outs2[i][x]);
            }
        }
    }
    assert(is_least_fixpoint(fs, l));
    lemma_least_fixpoint_unique(fs, l, liveness(fs));
}

/// The names that the lines read: each once, in the order of first reading.
pub fn collect_uses(dependencies: &Vec<Dependency>) -> (u: Vec<String>)
    ensures
        names(u@) == universe(facts(dependencies@)),
{
    let ghost fs = facts(dependencies@);
    let mut u: Vec<String> = Vec::new();
    let mut i: usize = 0;
    assert(fs.subrange(0, 0) =~= Seq::<Fact>::empty());
    assert(names(u@) =~= Seq::<Seq<char>>::empty());
    while i < dependencies.len()
        invariant
            i <= dependencies.len(),
            fs == facts(dependencies@),
            names(u@) == first_occurrences(all_uses(fs.subrange(0, i as int))),
        decreases dependencies.len() - i,
    {
        let uses = &dependencies[i].uses;
        let ghost before = all_uses(fs.subrange(0, i as int));
        let mut j: usize = 0;
        assert(before + fs[i as int].uses.subrange(0, 0) =~= before);
        while j < uses.len()
            invariant
                i < dependencies.len(),
                j <= uses.len(),
                fs == facts(dependencies@),
                uses == &dependencies@[i as int].uses,
                names(u@) == first_occurrences(before + fs[i as int].uses.subrange(0, j as int)),
            decreases uses.len() - j,
        {
            proof {
                let part = before + fs[i as int].uses.subrange(0, j as int);
                lemma_first_occurrences_push(part, uses@[j as int]@);
                assert(part.push(uses@[j as int]@) =~= before + fs[i as int].uses.subrange(
                    0,
                    j + 1,
                ));
            }
            insert_name(&mut u, &uses[j]);
            j += 1;
        }
        proof {
            assert(fs[i as int].uses.subrange(0, j as int) =~= fs[i as int].uses);
            assert(fs.subrange(0, i + 1).drop_last() =~= fs.subrange(0, i as int));
            assert(fs.subrange(0, i + 1).last() == fs[i as int]);
        }
        i += 1;
    }
    assert(fs.subrange(0, i as int) =~= fs);
    u
}

/// States the facts as a dataflow problem over the names of `u`.
fn index_lines(dependencies: &Vec<Dependency>, u: &Vec<String>) -> (r: (
    Vec<Vec<bool>>,
    Vec<Option<usize>>,
    Vec<Vec<usize>>,
))
    requires
        successors_in_range(facts(dependencies@)),
        names(u@) == universe(facts(dependencies@)),
    ensures
        indexed(facts(dependencies@), names(u@), flow_of(r.0@, r.1@, r.2@, u@.len() as int)),
{
    let ghost fs = facts(dependencies@);
    let ghost un = names(u@);
    proof {
        lemma_first_occurrences(all_uses(fs));
    }
    let width = u.len();
    let mut used: Vec<Vec<bool>> = Vec::new();
    let mut defs: Vec<Option<usize>> = Vec::new();
    let mut succ: Vec<Vec<usize>> = Vec::new();
    let mut i: usize = 0;
    while i < dependencies.len()
        invariant
            i <= dependencies.len(),
            fs == facts(dependencies@),
            un == names(u@),
            un.no_duplicates(),
            width == u@.len(),
            successors_in_range(fs),
            used@.len() == i,
            defs@.len() == i,
            succ@.len() == i,
            forall|a: int| 0 <= a < i ==> (#[trigger] used@[a])@.len() == u@.len(),
            forall|a: int, x: int|
                0 <= a < i && 0 <= x < u@.len() ==> #[trigger] used@[a]@[x] == fs[a].uses.contains(
                    un[x],
                ),
            forall|a: int| 0 <= a < i ==> #[trigger] defs@[a] == def_index(fs[a], un),
            forall|a: int| 0 <= a < i ==> (#[trigger] succ@[a])@ == fs[a].successors,
        decreases dependencies.len() - i,
    {
        let dep = &dependencies[i];
        let mut row: Vec<bool> = Vec::new();
        let mut x: usize = 0;
        while x < u.len()
            invariant
                x <= u.len(),
                i < dependencies.len(),
                fs == facts(dependencies@),
                un == names(u@),
                dep == &dependencies@[i as int],
                row@.len() == x,
                forall|y: int| 0 <= y < x ==> #[trigger] row@[y] == fs[i as int].uses.contains(un[y]),
            decreases u.len() - x,
        {
            let b = contains_name(&dep.uses, &u[x]);
            row.push(b);
            x += 1;
        }
        let def = match &dep.defines {
            Some(d) => find_name(u, d),
            None => None,
        };
        let mut next: Vec<usize> = Vec::new();
        let mut k: usize = 0;
        while k < dep.successors.len()
            invariant
                k <= dep.successors.len(),
                next@ == dep.successors@.subrange(0, k as int),
            decreases dep.successors.len() - k,
        {
            next.push(dep.successors[k]);
            assert(next@ =~= dep.successors@.subrange(0, k + 1));
            k += 1;
        }
        assert(next@ =~= dep.successors@);
        used.push(row);
        defs.push(def);
        succ.push(next);
        i += 1;
    }
    proof {
        let p = flow_of(used@, defs@, succ@, u@.len() as int);
        assert forall|a: int, k: int| 0 <= a < p.lines() && 0 <= k < p.succ[a].len() implies (
        #[trigger] p.succ[a][k]) < p.lines() by {
            assert(p.succ[a] == fs[a].successors);
            assert(fs[a].successors[k] < fs.len());
        }
        assert forall|a: int, t: Seq<char>|
            0 <= a < fs.len() && (#[trigger] fs[a].uses.contains(t)) implies un.contains(t) by {
            lemma_universe_covers(fs, a, t);
        }
        assert forall|a: int| 0 <= a < fs.len() implies #[trigger] p.succ[a] == fs[a].successors by {
            assert(succ@[a]@ == fs[a].successors);
        }
        assert forall|a: int| 0 <= a < p.lines() implies (#[trigger] p.used[a]).len() == p.width by {
            assert(used@[a]@.len() == u@.len());
        }
        assert(p.wf());
        assert(un.len() == width);
        assert forall|a: int, x: int| 0 <= a < fs.len() && 0 <= x < un.len() implies #[trigger] p.used[a][x]
            == fs[a].uses.contains(un[x]) by {
            assert(used@[a]@[x] == fs[a].uses.contains(un[x]));
        }
        assert forall|a: int| 0 <= a < fs.len() implies #[trigger] p.defs[a] == def_index(fs[a], un) by {
            assert(defs@[a] == def_index(fs[a], un));
        }
    }
    (used, defs, succ)
}

/// The strings of `u` whose bit is set in `row`, in the order of `u`.
fn select(u: &Vec<String>, row: &Vec<bool>) -> (r: Vec<String>)
    requires
        names(u@).no_duplicates(),
        row@.len() == u@.len(),
    ensures
        names(r@) == keep(names(u@), lifted(names(u@), row@)),
{
    let ghost un = names(u@);
    let ghost set = lifted(un, row@);
    let mut r: Vec<String> = Vec::new();
    let mut x: usize = 0;
    assert(un.subrange(0, 0) =~= Seq::<Seq<char>>::empty());
    assert(names(r@) =~= Seq::<Seq<char>>::empty());
    while x < u.len()
        invariant
            x <= u.len(),
            un == names(u@),
            un.no_duplicates(),
            row@.len() == u@.len(),
            set == lifted(un, row@),
            names(r@) == keep(un.subrange(0, x as int), set),
        decreases u.len() - x,
    {
        proof {
            lemma_position_of_distinct(un, x as int);
            assert(un.contains(un[x as int]));
            assert(set.contains(un[x as int]) == row@[x as int]);
            assert(un.subrange(0, x + 1).drop_last() =~= un.subrange(0, x as int));
            assert(un.subrange(0, x + 1).last() == un[x as int]);
        }
        if row[x] {
            let ghost before = names(r@);
            r.push(u[x].clone());
            assert(names(r@) =~= before.push(un[x as int]));
        }
        x += 1;
    }
    assert(un.subrange(0, x as int) =~= un);
    r
}

/// A kept list holds what the set holds, where the set lies within the list it is kept from.
proof fn lemma_keep_lifted(u: Seq<Seq<char>>, row: Seq<bool>)
    requires
        u.no_duplicates(),
    ensures
        keep(u, lifted(u, row)).to_set() == lifted(u, row),
{
    lemma_keep(u, lifted(u, row));
    assert(keep(u, lifted(u, row)).to_set() =~= lifted(u, row));
}

/// Computes which temporaries are live before and after each line, and
/// attaches the result to the facts.
///
/// The live sets are empty at first. The lines are walked from the last to
/// the first, again and again, each walk adding to `live_out` what is live
/// before a successor and to `live_in` what the equations ask for, until a
/// walk adds nothing.
pub fn compute_liveness(dependencies: &mut Vec<Dependency>)
    requires
        successors_in_range(facts(old(dependencies)@)),
    ensures
        facts(final(dependencies)@) == analysed(facts(old(dependencies)@)),
        is_least_fixpoint(facts(final(dependencies)@), attached(facts(final(dependencies)@))),
{
    let ghost fs = facts(dependencies@);
    let u = collect_uses(dependencies);
    let (used, defs, succ) = index_lines(dependencies, &u);
    let ghost un = names(u@);
    let ghost p = flow_of(used@, defs@, succ@, u@.len() as int);
    let (ins, outs) = solve(&used, &defs, &succ, u.len());
    let ghost l = lifted_all(un, rows(ins@), rows(outs@));
    proof {
        lemma_lift_least(fs, un, p, rows(ins@), rows(outs@));
    }
    let n = dependencies.len();
    let mut i: usize = 0;
    while i < n
        invariant
            i <= n,
            n == dependencies@.len(),
            n == fs.len(),
            un == names(u@),
            un == universe(fs),
            un.no_duplicates(),
            p.shaped(rows(ins@)),
            p.shaped(rows(outs@)),
            p.lines() == n,
            p.width == u@.len(),
            l == lifted_all(un, rows(ins@), rows(outs@)),
            l == liveness(fs),
            forall|j: int|
                0 <= j < i ==> (#[trigger] dependencies@[j])@ == fs[j].with_liveness(
                    keep(un, l.live_in[j]),
                    keep(un, l.live_out[j]),
                ),
            forall|j: int| i <= j < n ==> (#[trigger] dependencies@[j])@ == fs[j],
        decreases n - i,
    {
        assert(rows(ins@)[i as int].len() == p.width);
        assert(rows(outs@)[i as int].len() == p.width);
        let live_in = select(&u, &ins[i]);
        let live_out = select(&u, &outs[i]);
        let ghost before = dependencies@[i as int]@;
        dependencies[i].live_in = live_in;
        dependencies[i].live_out = live_out;
        assert(dependencies@[i as int]@ == before.with_liveness(
            keep(un, l.live_in[i as int]),
            keep(un, l.live_out[i as int]),
        ));
        i += 1;
    }
    proof {
        let gs = facts(dependencies@);
        assert(gs =~= analysed(fs));
        assert forall|j: int| 0 <= j < fs.len() implies (#[trigger] fs[j]).same_line(gs[j]) by {}
        lemma_fixpoint_same_lines(fs, gs, l);
        assert forall|j: int| 0 <= j < gs.len() implies attached(gs).live_in[j] == l.live_in[j]
            && attached(gs).live_out[j] == l.live_out[j] by {
            lemma_keep_lifted(un, rows(ins@)[j]);
            lemma_keep_lifted(un, rows(outs@)[j]);
        }
        assert(attached(gs).live_in =~= l.live_in);
        assert(attached(gs).live_out =~= l.live_out);
        assert(attached(gs) == l);
        assert forall|other: Liveness| #[trigger] is_fixpoint(gs, other) implies within(l, other) by {
            assert forall|j: int| 0 <= j < gs.len() implies (#[trigger] gs[j]).same_line(fs[j]) by {}
            lemma_fixpoint_same_lines(gs, fs, other);
        }
    }
}

} // verus!
