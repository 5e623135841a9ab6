//! One attempt at an allocation: from the facts of a function, liveness
//! attached, to a register for every temporary that fits the budget.

use vstd::prelude::*;
use crate::coloring::{assign_colors, coloring, proper};
use crate::facts::{clone_dependencies, facts, Dependency, Fact};
use crate::liveness::{analysed, compute_liveness};
use crate::validation::{fault, first_line_fault, lemma_accepted_in_range, validate, AllocationError};
use crate::interference::{
    create_interference_graph,
    interference_graph,
    interferes,
    lemma_interference_graph,
    GraphView,
};
use crate::names::{
    insert_name,
    lemma_position_of,
    lemma_with_name,
    names,
    position_of,
    with_name,
};
use crate::output::{
    assignment_views,
    lemma_register_names_differ,
    register_for,
    register_name,
    Assignment,
    AssignmentView,
    Output,
    OutputView,
    REGISTER_COUNT,
};

verus! {

/// The colour of the node named `t`, or `k` where it has none.
pub open spec fn color_of(g: GraphView, colors: Seq<Option<usize>>, k: usize, t: Seq<char>) -> usize {
    if g.nodes.contains(t) {
        match colors[position_of(g.nodes, t)] {
            Some(c) => c,
            None => k,
        }
    } else {
        k
    }
}

/// What a line is given: a register for what it writes, if it writes
/// something whose colour is below `k`.
pub open spec fn assignment_at(f: Fact, g: GraphView, colors: Seq<Option<usize>>, k: usize) -> Option<
    AssignmentView,
> {
    match f.defines {
        Some(t) => if color_of(g, colors, k, t) < k {
            Some(AssignmentView { temp: t, register: register_name(color_of(g, colors, k, t)) })
        } else {
            None
        },
        None => None,
    }
}

/// The names that the lines write and that have no colour below `k`, each
/// once, in the order in which the lines first write them.
pub open spec fn spills(fs: Seq<Fact>, g: GraphView, colors: Seq<Option<usize>>, k: usize) -> Seq<
    Seq<char>,
>
    decreases fs.len(),
{
    if fs.len() == 0 {
        Seq::empty()
    } else {
        let rest = spills(fs.drop_last(), g, colors, k);
        match fs.last().defines {
            Some(t) => if color_of(g, colors, k, t) < k {
                rest
            } else {
                with_name(rest, t)
            },
            None => rest,
        }
    }
}

/// The output for a function whose graph is coloured: a pure function of
/// the facts, the graph, the colouring and the budget.
pub open spec fn emit(fs: Seq<Fact>, g: GraphView, colors: Seq<Option<usize>>, k: usize) -> OutputView {
    OutputView {
        assignments: Seq::new(fs.len(), |i: int| assignment_at(fs[i], g, colors, k)),
        spillover: spills(fs, g, colors, k),
    }
}

/// The result of one attempt with the budget `k`.
pub open spec fn attempt(fs: Seq<Fact>, k: usize) -> OutputView {
    let g = interference_graph(fs);
    emit(fs, g, coloring(g, k), k)
}

/// Total coverage: every line that writes a name either gives it a register
/// or has it in the spillover, never both and never neither; a name has the
/// same register wherever it is written; the spillover holds only names that
/// some line writes, each once; a line that writes nothing is given nothing.
pub open spec fn covers(fs: Seq<Fact>, out: OutputView) -> bool {
    &&& out.assignments.len() == fs.len()
    &&& out.spillover.no_duplicates()
    &&& forall|i: int|
        0 <= i < fs.len() ==> match fs[i].defines {
            Some(t) => (#[trigger] out.assignments[i] is Some) != out.spillover.contains(t) && (
            out.assignments[i] matches Some(a) ==> a.temp == t),
            None => out.assignments[i] is None,
        }
    &&& forall|t: Seq<char>| #[trigger]
        out.spillover.contains(t) ==> exists|i: int| 0 <= i < fs.len() && #[trigger] fs[i].writes(t)
    &&& forall|i: int, j: int|
        0 <= i < fs.len() && 0 <= j < fs.len() && (#[trigger] out.assignments[i]) is Some && (
        #[trigger] out.assignments[j]) is Some && out.assignments[i]->0.temp
            == out.assignments[j]->0.temp ==> out.assignments[i] == out.assignments[j]
}

/// The registers that stand for the colours below `k`.
pub open spec fn register_set(k: usize) -> Set<Seq<char>> {
    Set::new(|r: Seq<char>| exists|c: usize| c < k && r == #[trigger] register_name(c))
}

/// The registers held after line `i`: those of the temporaries that are live after it.
pub open spec fn registers_held(fs: Seq<Fact>, out: OutputView, i: int) -> Set<Seq<char>> {
    Set::new(|r: Seq<char>| exists|t: Seq<char>| fs[i].live_out.contains(t) && #[trigger] out.holds(t, r))
}

/// Budget respect: after no line are more than `k` registers held, and
/// every register given stands for a colour below `k`.
pub open spec fn respects_budget(fs: Seq<Fact>, out: OutputView, k: usize) -> bool {
    &&& forall|i: int, t: Seq<char>, r: Seq<char>| #[trigger]
        out.gives(i, t, r) ==> register_set(k).contains(r)
    &&& forall|i: int|
        0 <= i < fs.len() ==> (#[trigger] registers_held(fs, out, i)).finite() && registers_held(
            fs,
            out,
            i,
        ).len() <= k
}

/// Interference soundness: two names that some line sets against each other
/// never hold the same register.
pub open spec fn separates(fs: Seq<Fact>, out: OutputView) -> bool {
    forall|a: Seq<char>, b: Seq<char>, r: Seq<char>|
        interferes(fs, a, b) && #[trigger] out.holds(a, r) ==> !#[trigger] out.holds(b, r)
}

/// There are at most `k` registers for the colours below `k`.
pub proof fn lemma_register_set(k: usize)
    ensures
        register_set(k).finite(),
        register_set(k).len() <= k,
    decreases k,
{
    if k == 0 {
        assert(register_set(k) =~= Set::<Seq<char>>::empty());
    } else {
        let j = (k - 1) as usize;
        lemma_register_set(j);
        assert forall|r: Seq<char>| register_set(k).contains(r) implies register_set(j).insert(
            register_name(j),
        ).contains(r) by {
            let c = choose|c: usize| c < k && r == #[trigger] register_name(c);
            if c < j {
                assert(register_set(j).contains(r));
            }
        }
        assert forall|r: Seq<char>| register_set(j).insert(register_name(j)).contains(
            r,
        ) implies register_set(k).contains(r) by {
            if r == register_name(j) {
                assert(j < k);
            } else {
                let c = choose|c: usize| c < j && r == #[trigger] register_name(c);
                assert(c < k);
            }
        }
        assert(register_set(k) =~= register_set(j).insert(register_name(j)));
    }
}

/// What `spills` holds.
pub proof fn lemma_spills(fs: Seq<Fact>, g: GraphView, colors: Seq<Option<usize>>, k: usize)
    ensures
        spills(fs, g, colors, k).no_duplicates(),
        forall|t: Seq<char>|
            spills(fs, g, colors, k).contains(t) <==> (color_of(g, colors, k, t) >= k && exists|i: int|
                0 <= i < fs.len() && #[trigger] fs[i].writes(t)),
    decreases fs.len(),
{
    if fs.len() > 0 {
        let head = fs.drop_last();
        let rest = spills(head, g, colors, k);
        let all = spills(fs, g, colors, k);
        lemma_spills(head, g, colors, k);
        match fs.last().defines {
            Some(d) => {
                lemma_with_name(rest, d);
            },
            None => {},
        }
        assert forall|t: Seq<char>|
            all.contains(t) <==> (color_of(g, colors, k, t) >= k && exists|i: int|
                0 <= i < fs.len() && #[trigger] fs[i].writes(t)) by {
            assert(rest.contains(t) <==> (color_of(g, colors, k, t) >= k && exists|i: int|
                0 <= i < head.len() && #[trigger] head[i].writes(t)));
            if exists|i: int| 0 <= i < head.len() && #[trigger] head[i].writes(t) {
                let i = choose|i: int| 0 <= i < head.len() && #[trigger] head[i].writes(t);
                assert(fs[i].writes(t));
            }
            if exists|i: int| 0 <= i < fs.len() && #[trigger] fs[i].writes(t) {
                let i = choose|i: int| 0 <= i < fs.len() && #[trigger] fs[i].writes(t);
                if i < head.len() {
                    assert(head[i].writes(t));
                } else {
                    assert(fs.last().writes(t));
                }
            }
            if fs.last().writes(t) {
                assert(fs[fs.len() - 1].writes(t));
            }
        }
    }
}

/// Total coverage holds of every output that `emit` describes.
pub proof fn lemma_emit_covers(fs: Seq<Fact>, g: GraphView, colors: Seq<Option<usize>>, k: usize)
    ensures
        covers(fs, emit(fs, g, colors, k)),
{
    let out = emit(fs, g, colors, k);
    lemma_spills(fs, g, colors, k);
    assert forall|i: int| 0 <= i < fs.len() implies match fs[i].defines {
        Some(t) => (#[trigger] out.assignments[i] is Some) != out.spillover.contains(t) && (
        out.assignments[i] matches Some(a) ==> a.temp == t),
        None => out.assignments[i] is None,
    } by {
        match fs[i].defines {
            Some(t) => {
                assert(fs[i].writes(t));
            },
            None => {},
        }
    }
}

/// Budget respect holds of every output that `emit` describes.
pub proof fn lemma_emit_respects_budget(
    fs: Seq<Fact>,
    g: GraphView,
    colors: Seq<Option<usize>>,
    k: usize,
)
    ensures
        respects_budget(fs, emit(fs, g, colors, k), k),
{
    let out = emit(fs, g, colors, k);
    lemma_register_set(k);
    assert forall|i: int, t: Seq<char>, r: Seq<char>| #[trigger] out.gives(i, t, r) implies register_set(
        k,
    ).contains(r) by {
        let c = color_of(g, colors, k, fs[i].defines->0);
        assert(r == register_name(c));
    }
    assert forall|i: int| 0 <= i < fs.len() implies (#[trigger] registers_held(fs, out, i)).finite()
        && registers_held(fs, out, i).len() <= k by {
        let held = registers_held(fs, out, i);
        assert forall|r: Seq<char>| held.contains(r) implies register_set(k).contains(r) by {
            let t = choose|t: Seq<char>| fs[i].live_out.contains(t) && #[trigger] out.holds(t, r);
            let j = choose|j: int| #[trigger] out.gives(j, t, r);
            assert(out.gives(j, t, r));
        }
        vstd::set_lib::lemma_len_subset(held, register_set(k));
    }
}

/// Interference soundness holds of every output that `emit` describes for
/// the graph of the facts under a proper colouring.
pub proof fn lemma_emit_separates(fs: Seq<Fact>, colors: Seq<Option<usize>>, k: usize)
    requires
        k <= REGISTER_COUNT,
        colors.len() == interference_graph(fs).len(),
        proper(interference_graph(fs), k, colors),
    ensures
        separates(fs, emit(fs, interference_graph(fs), colors, k)),
{
    let g = interference_graph(fs);
    let out = emit(fs, g, colors, k);
    lemma_interference_graph(fs);
    assert forall|a: Seq<char>, b: Seq<char>, r: Seq<char>|
        interferes(fs, a, b) && #[trigger] out.holds(a, r) implies !#[trigger] out.holds(b, r) by {
        if out.holds(b, r) {
            let i = choose|i: int| #[trigger] out.gives(i, a, r);
            let j = choose|j: int| #[trigger] out.gives(j, b, r);
            assert(out.gives(i, a, r) && out.gives(j, b, r));
            let ca = color_of(g, colors, k, a);
            let cb = color_of(g, colors, k, b);
            assert(fs[i].defines == Some(a));
            assert(fs[j].defines == Some(b));
            assert(r == register_name(ca) && r == register_name(cb));
            if ca != cb {
                lemma_register_names_differ(ca, cb);
            }
            assert(g.has_edge(a, b));
            lemma_position_of(g.nodes, a);
            lemma_position_of(g.nodes, b);
            let pa = position_of(g.nodes, a);
            let pb = position_of(g.nodes, b);
            assert(g.adjacent[pa][pb]);
            assert(colors[pa] == Some(ca));
            assert(colors[pb] == Some(cb));
        }
    }
}

/// One attempt at an allocation with the budget `k`, on facts that carry
/// their liveness.
///
/// Builds the interference graph, colours it within the budget and walks
/// the lines in order: a line that writes a name whose colour is below `k`
/// is given the register of that colour, and a name without such a colour
/// goes to the spillover.
pub fn _allocate_registers(k: usize, dependencies: &Vec<Dependency>) -> (output: Output)
    requires
        k <= REGISTER_COUNT,
    ensures
        output@ == attempt(facts(dependencies@), k),
        covers(facts(dependencies@), output@),
        respects_budget(facts(dependencies@), output@, k),
        separates(facts(dependencies@), output@),
{
    let ghost fs = facts(dependencies@);
    let graph = create_interference_graph(dependencies);
    let colors = assign_colors(&graph, k);
    let ghost g = graph@;
    let ghost marks = coloring(g, k);
    let mut assignments: Vec<Option<Assignment>> = Vec::new();
    let mut spillover: Vec<String> = Vec::new();
    let n = graph.node_count();
    let mut i: usize = 0;
    proof {
        assert(fs.subrange(0, 0) =~= Seq::<Fact>::empty());
        assert(names(spillover@) =~= Seq::<Seq<char>>::empty());
    }
    while i < dependencies.len()
        invariant
            i <= dependencies.len(),
            k <= REGISTER_COUNT,
            fs == facts(dependencies@),
            g == graph@,
            g == interference_graph(fs),
            marks == coloring(g, k),
            marks.len() == g.len(),
            colors@.len() == g.len(),
            forall|v: int| 0 <= v < g.len() ==> marks[v] == Some(#[trigger] colors@[v]),
            assignments@.len() == i,
            forall|j: int|
                0 <= j < i ==> (#[trigger] assignment_views(assignments@)[j]) == assignment_at(
                    fs[j],
                    g,
                    marks,
                    k,
                ),
            names(spillover@) == spills(fs.subrange(0, i as int), g, marks, k),
        decreases dependencies.len() - i,
    {
        let dep = &dependencies[i];
        proof {
            assert(fs.subrange(0, i + 1).drop_last() =~= fs.subrange(0, i as int));
            assert(fs.subrange(0, i + 1).last() == fs[i as int]);
            assert(dep@ == fs[i as int]);
        }
        let given = match &dep.defines {
            Some(temp) => {
                let color = match graph.index_of(temp) {
                    Some(v) => colors[v],
                    None => k,
                };
                assert(color == color_of(g, marks, k, temp@));
                if color < k {
                    Some(Assignment { temp: temp.clone(), register: register_for(color) })
                } else {
                    insert_name(&mut spillover, temp);
                    None
                }
            },
            None => None,
        };
        let ghost before = assignments@;
        assignments.push(given);
        proof {
            assert(assignment_views(assignments@)[i as int] == assignment_at(fs[i as int], g, marks, k));
            assert forall|j: int| 0 <= j < i implies (#[trigger] assignment_views(assignments@)[j])
                == assignment_at(fs[j], g, marks, k) by {
                assert(assignments@[j] == before[j]);
                assert(assignment_views(before)[j] == assignment_at(fs[j], g, marks, k));
            }
        }
        i += 1;
    }
    let output = Output { assignments, spillover };
    proof {
        assert(fs.subrange(0, i as int) =~= fs);
        assert(output@.assignments =~= emit(fs, g, marks, k).assignments);
        lemma_emit_covers(fs, g, marks, k);
        lemma_emit_respects_budget(fs, g, marks, k);
        lemma_emit_separates(fs, marks, k);
    }
    output
}

/// The budget of the attempt that the driver accepts. The first attempt
/// has the whole budget `k`; where it spills, a register is set aside for
/// moving spilled values to and from memory, and the second attempt, with
/// one register less, is the one that counts. A budget of no register
/// leaves nothing to set aside.
pub open spec fn accepted_budget(fs: Seq<Fact>, k: usize) -> usize {
    if k == 0 || attempt(analysed(fs), k).spillover.len() == 0 {
        k
    } else {
        (k - 1) as usize
    }
}

/// The allocation for a function with the budget `k`: the accepted attempt
/// on the facts with their liveness attached.
pub open spec fn allocation(fs: Seq<Fact>, k: usize) -> OutputView {
    attempt(analysed(fs), accepted_budget(fs, k))
}

/// Total coverage speaks of what the lines write, whatever liveness they carry.
pub proof fn lemma_covers_same_lines(fs: Seq<Fact>, gs: Seq<Fact>, out: OutputView)
    requires
        fs.len() == gs.len(),
        forall|i: int| 0 <= i < fs.len() ==> (#[trigger] fs[i]).same_line(gs[i]),
        covers(fs, out),
    ensures
        covers(gs, out),
{
    assert forall|i: int| 0 <= i < gs.len() implies match gs[i].defines {
        Some(t) => (#[trigger] out.assignments[i] is Some) != out.spillover.contains(t) && (
        out.assignments[i] matches Some(a) ==> a.temp == t),
        None => out.assignments[i] is None,
    } by {
        assert(fs[i].same_line(gs[i]));
    }
    assert forall|t: Seq<char>| #[trigger] out.spillover.contains(t) implies exists|i: int|
        0 <= i < gs.len() && #[trigger] gs[i].writes(t) by {
        let i = choose|i: int| 0 <= i < fs.len() && #[trigger] fs[i].writes(t);
        assert(fs[i].same_line(gs[i]));
        assert(gs[i].writes(t));
    }
}

/// Allocates registers with the budget `k`.
///
/// Refuses facts that have a fault. Otherwise computes the liveness of the
/// function, whatever liveness the facts carry, and attempts an allocation
/// with `k` registers; where that spills, the result is that of a second
/// attempt with `k - 1` registers, whether or not it spills too.
pub fn allocate_with_budget(k: usize, dependencies: &Vec<Dependency>) -> (r: Result<
    Output,
    AllocationError,
>)
    requires
        k <= REGISTER_COUNT,
    ensures
        match r {
            Ok(output) => {
                &&& fault(facts(dependencies@)) is None
                &&& output@ == allocation(facts(dependencies@), k)
                &&& covers(facts(dependencies@), output@)
                &&& respects_budget(
                    analysed(facts(dependencies@)),
                    output@,
                    accepted_budget(facts(dependencies@), k),
                )
                &&& separates(analysed(facts(dependencies@)), output@)
            },
            Err(e) => fault(facts(dependencies@)) == Some(e),
        },
{
    let ghost fs = facts(dependencies@);
    match validate(dependencies) {
        Err(e) => {
            return Err(e);
        },
        Ok(_) => {},
    }
    let mut lines = clone_dependencies(dependencies);
    proof {
        assert(first_line_fault(fs, 0) is None);
        lemma_accepted_in_range(fs);
    }
    compute_liveness(&mut lines);
    let ghost gs = facts(lines@);
    proof {
        assert forall|i: int| 0 <= i < gs.len() implies (#[trigger] gs[i]).same_line(fs[i]) by {}
    }
    let first = _allocate_registers(k, &lines);
    if k == 0 || first.spillover.len() == 0 {
        proof {
            assert(first@.spillover.len() == first.spillover@.len());
            lemma_covers_same_lines(gs, fs, first@);
        }
        return Ok(first);
    }
    assert(first@.spillover.len() == first.spillover@.len());
    let second = _allocate_registers(k - 1, &lines);
    proof {
        lemma_covers_same_lines(gs, fs, second@);
    }
    Ok(second)
}

/// Assigns the temporaries of a function to the fifteen general-purpose registers.
///
/// The facts must name `%eax` and `%edx` where the hardware demands them:
/// `%eax` holds a return value, `%edx` the remainder of a division. Where
/// the allocation with fifteen registers spills, one register is set aside
/// for moving spilled values to and from memory, and the result is that of
/// an allocation with fourteen. A spill is no error: the spillover names
/// the temporaries that the emission stage must keep in memory.
pub fn allocate_registers(dependencies: &Vec<Dependency>) -> (r: Result<Output, AllocationError>)
    ensures
        match r {
            Ok(output) => {
                &&& fault(facts(dependencies@)) is None
                &&& output@ == allocation(facts(dependencies@), REGISTER_COUNT)
                &&& covers(facts(dependencies@), output@)
                &&& respects_budget(
                    analysed(facts(dependencies@)),
                    output@,
                    accepted_budget(facts(dependencies@), REGISTER_COUNT),
                )
                &&& separates(analysed(facts(dependencies@)), output@)
            },
            Err(e) => fault(facts(dependencies@)) == Some(e),
        },
{
    allocate_with_budget(REGISTER_COUNT, dependencies)
}

} // verus!
