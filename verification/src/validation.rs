//! Checks on the facts that a producer hands in. A function whose facts
//! fail a check is refused, with the line at fault: the allocator repairs
//! nothing by guessing.

use vstd::prelude::*;
use crate::facts::{facts, successors_in_range, Dependency, Fact};
use crate::flow::{lemma_unset_raise, unset};

verus! {

/// Why the facts of a function are refused.
#[derive(Debug, Clone, Copy, PartialEq, Eq)]
pub enum AllocationError {
    /// Two facts claim the line `line`, and both write a name.
    MultipleDefines { line: usize },
    /// The fact at position `line` does not carry that position as its line.
    MisplacedLine { line: usize },
    /// A successor of the line `line` is no position of the function.
    BadSuccessor { line: usize },
    /// The line `line` is marked as a move and does not read exactly one name.
    MalformedMove { line: usize },
    /// The line `line` reads a name that no definition reaches.
    UndefinedTemporary { line: usize },
}

/// Whether the line reads exactly one name.
pub open spec fn single_source(f: Fact) -> bool {
    f.uses.len() > 0 && forall|j: int| 0 <= j < f.uses.len() ==> #[trigger] f.uses[j] == f.uses[0]
}

/// Whether every successor of the line is a position below `n`.
pub open spec fn successors_fit(f: Fact, n: int) -> bool {
    forall|k: int| 0 <= k < f.successors.len() ==> (#[trigger] f.successors[k]) < n
}

/// What is wrong with the line at `i` taken by itself, the first check that fails.
pub open spec fn line_fault(fs: Seq<Fact>, i: int) -> Option<AllocationError> {
    let f = fs[i];
    if f.line != i {
        if f.line < i && f.defines is Some && fs[f.line as int].defines is Some {
            Some(AllocationError::MultipleDefines { line: f.line })
        } else {
            Some(AllocationError::MisplacedLine { line: i as usize })
        }
    } else if !successors_fit(f, fs.len() as int) {
        Some(AllocationError::BadSuccessor { line: f.line })
    } else if f.is_move && !single_source(f) {
        Some(AllocationError::MalformedMove { line: f.line })
    } else {
        None
    }
}

/// The fault of the first line from `from` on that has one.
pub open spec fn first_line_fault(fs: Seq<Fact>, from: int) -> Option<AllocationError>
    decreases fs.len() - from,
{
    if from < 0 || from >= fs.len() {
        None
    } else {
        match line_fault(fs, from) {
            Some(e) => Some(e),
            None => first_line_fault(fs, from + 1),
        }
    }
}

/// Whether the line at `b` may run right after the line at `a`.
pub open spec fn steps(fs: Seq<Fact>, a: int, b: int) -> bool {
    exists|k: int| 0 <= k < fs[a].successors.len() && #[trigger] fs[a].successors[k] == b
}

/// Whether `p` steps from its `j`-th line to the next.
pub open spec fn hop(fs: Seq<Fact>, p: Seq<int>, j: int) -> bool {
    steps(fs, p[j], p[j + 1])
}

/// Whether `p` is a way through the function: lines of which each may run right after the one before.
pub open spec fn is_walk(fs: Seq<Fact>, p: Seq<int>) -> bool {
    &&& p.len() >= 1
    &&& forall|j: int| 0 <= j < p.len() ==> 0 <= #[trigger] p[j] < fs.len()
    &&& forall|j: int| 0 <= j < p.len() - 1 ==> #[trigger] hop(fs, p, j)
}

/// Whether `p` leads from a line that writes `t` to the line at `i`, in one step at least.
pub open spec fn carries(fs: Seq<Fact>, t: Seq<char>, i: int, p: Seq<int>) -> bool {
    is_walk(fs, p) && p.len() >= 2 && fs[p[0]].writes(t) && p.last() == i
}

/// Whether a definition of `t` reaches the line at `i`.
pub open spec fn reached(fs: Seq<Fact>, t: Seq<char>, i: int) -> bool {
    exists|p: Seq<int>| #[trigger] carries(fs, t, i, p)
}

/// Whether the line at `i` reads a name that no definition reaches.
pub open spec fn reads_undefined(fs: Seq<Fact>, i: int) -> bool {
    exists|j: int| 0 <= j < fs[i].uses.len() && !reached(fs, #[trigger] fs[i].uses[j], i)
}

/// The first line from `from` on that reads a name that no definition reaches.
pub open spec fn first_use_fault(fs: Seq<Fact>, from: int) -> Option<AllocationError>
    decreases fs.len() - from,
{
    if from < 0 || from >= fs.len() {
        None
    } else if reads_undefined(fs, from) {
        Some(AllocationError::UndefinedTemporary { line: from as usize })
    } else {
        first_use_fault(fs, from + 1)
    }
}

/// Why the facts are refused, or `None` where they are accepted. The lines
/// are checked one by one first, in order; where each is sound, the reads
/// are checked against the definitions that reach them.
pub open spec fn fault(fs: Seq<Fact>) -> Option<AllocationError> {
    match first_line_fault(fs, 0) {
        Some(e) => Some(e),
        None => first_use_fault(fs, 0),
    }
}

/// Facts without a fault have every line at its position and every successor in range.
pub proof fn lemma_sound_lines(fs: Seq<Fact>, from: int)
    requires
        0 <= from,
        first_line_fault(fs, from) is None,
    ensures
        forall|i: int| from <= i < fs.len() ==> #[trigger] line_fault(fs, i) is None,
    decreases fs.len() - from,
{
    if from < fs.len() {
        lemma_sound_lines(fs, from + 1);
    }
}

/// Facts that are accepted have their successors in range.
pub proof fn lemma_accepted_in_range(fs: Seq<Fact>)
    requires
        first_line_fault(fs, 0) is None,
    ensures
        successors_in_range(fs),
{
    lemma_sound_lines(fs, 0);
    assert forall|i: int, k: int| 0 <= i < fs.len() && 0 <= k < fs[i].successors.len() implies (
    #[trigger] fs[i].successors[k]) < fs.len() by {
        assert(line_fault(fs, i) is None);
        assert(successors_fit(fs[i], fs.len() as int));
    }
}

/// Whether every successor of the line is a position of the function.
fn check_successors(dep: &Dependency, n: usize) -> (r: bool)
    ensures
        r == successors_fit(dep@, n as int),
{
    let mut k: usize = 0;
    while k < dep.successors.len()
        invariant
            k <= dep.successors.len(),
            forall|j: int| 0 <= j < k ==> (#[trigger] dep@.successors[j]) < n,
        decreases dep.successors.len() - k,
    {
        if dep.successors[k] >= n {
            assert(dep@.successors[k as int] >= n);
            return false;
        }
        k += 1;
    }
    true
}

/// Whether every successor of every line is a position of the function.
pub fn successors_are_in_range(dependencies: &Vec<Dependency>) -> (r: bool)
    ensures
        r == successors_in_range(facts(dependencies@)),
{
    let ghost fs = facts(dependencies@);
    let n = dependencies.len();
    let mut i: usize = 0;
    while i < n
        invariant
            i <= n,
            n == dependencies@.len(),
            fs == facts(dependencies@),
            forall|a: int, k: int|
                0 <= a < i && 0 <= k < fs[a].successors.len() ==> (#[trigger] fs[a].successors[k]) < n,
        decreases n - i,
    {
        assert(dependencies@[i as int]@ == fs[i as int]);
        if !check_successors(&dependencies[i], n) {
            proof {
                let f = fs[i as int];
                let k = choose|k: int| 0 <= k < f.successors.len() && !((#[trigger] f.successors[k]) < n);
                assert(!(fs[i as int].successors[k] < fs.len()));
            }
            return false;
        }
        i += 1;
    }
    true
}

/// Whether the line reads exactly one name.
fn check_single_source(dep: &Dependency) -> (r: bool)
    ensures
        r == single_source(dep@),
{
    if dep.uses.len() == 0 {
        return false;
    }
    let mut j: usize = 1;
    while j < dep.uses.len()
        invariant
            1 <= j <= dep.uses.len(),
            forall|m: int| 0 <= m < j ==> #[trigger] dep@.uses[m] == dep@.uses[0],
        decreases dep.uses.len() - j,
    {
        if !(dep.uses[j] == dep.uses[0]) {
            assert(dep@.uses[j as int] != dep@.uses[0]);
            return false;
        }
        j += 1;
    }
    true
}

/// What is wrong with the line at `i` taken by itself.
fn check_line(dependencies: &Vec<Dependency>, i: usize) -> (r: Option<AllocationError>)
    requires
        i < dependencies@.len(),
    ensures
        r == line_fault(facts(dependencies@), i as int),
{
    let dep = &dependencies[i];
    assert(dep@ == facts(dependencies@)[i as int]);
    if dep.line != i {
        if dep.line < i && dep.defines.is_some() && dependencies[dep.line].defines.is_some() {
            assert(facts(dependencies@)[dep.line as int] == dependencies@[dep.line as int]@);
            Some(AllocationError::MultipleDefines { line: dep.line })
        } else {
            if dep.line < i {
                assert(facts(dependencies@)[dep.line as int] == dependencies@[dep.line as int]@);
            }
            Some(AllocationError::MisplacedLine { line: i })
        }
    } else if !check_successors(dep, dependencies.len()) {
        Some(AllocationError::BadSuccessor { line: dep.line })
    } else if dep.is_move && !check_single_source(dep) {
        Some(AllocationError::MalformedMove { line: dep.line })
    } else {
        None
    }
}

/// A definition that reaches a line, or is made on it, reaches the lines that may run next.
proof fn lemma_extend(fs: Seq<Fact>, t: Seq<char>, j: int, s: int)
    requires
        0 <= j < fs.len(),
        0 <= s < fs.len(),
        steps(fs, j, s),
        reached(fs, t, j) || fs[j].writes(t),
    ensures
        reached(fs, t, s),
{
    if fs[j].writes(t) {
        let p = seq![j, s];
        assert forall|m: int| 0 <= m < p.len() - 1 implies #[trigger] hop(fs, p, m) by {
            assert(p[m] == j && p[m + 1] == s);
        }
        assert(carries(fs, t, s, p));
    } else {
        let p = choose|p: Seq<int>| #[trigger] carries(fs, t, j, p);
        let q = p.push(s);
        assert forall|m: int| 0 <= m < q.len() - 1 implies #[trigger] hop(fs, q, m) by {
            if m < p.len() - 1 {
                assert(hop(fs, p, m));
                assert(q[m] == p[m] && q[m + 1] == p[m + 1]);
            } else {
                assert(q[m] == j && q[m + 1] == s);
            }
        }
        assert(q[0] == p[0]);
        assert(carries(fs, t, s, q));
    }
}

/// Whether every marked line is one that a definition of `t` reaches.
spec fn sound(fs: Seq<Fact>, t: Seq<char>, marks: Seq<bool>) -> bool {
    &&& marks.len() == fs.len()
    &&& forall|i: int| 0 <= i < fs.len() && #[trigger] marks[i] ==> reached(fs, t, i)
}

/// Whether every line that may run right after the line at `j` is marked.
spec fn spread_from(fs: Seq<Fact>, marks: Seq<bool>, j: int) -> bool {
    forall|k: int| 0 <= k < fs[j].successors.len() ==> marks[(#[trigger] fs[j].successors[k]) as int]
}

/// Whether the marks hold every line that a definition of `t` reaches.
spec fn closed(fs: Seq<Fact>, t: Seq<char>, marks: Seq<bool>) -> bool {
    &&& marks.len() == fs.len()
    &&& forall|j: int|
        0 <= j < fs.len() && (marks[j] || fs[j].writes(t)) ==> #[trigger] spread_from(fs, marks, j)
}

proof fn lemma_closed_complete(fs: Seq<Fact>, t: Seq<char>, marks: Seq<bool>, p: Seq<int>, m: int)
    requires
        closed(fs, t, marks),
        is_walk(fs, p),
        fs[p[0]].writes(t),
        1 <= m < p.len(),
    ensures
        marks[p[m]],
    decreases m,
{
    if m > 1 {
        lemma_closed_complete(fs, t, marks, p, m - 1);
    }
    assert(hop(fs, p, m - 1));
    assert(spread_from(fs, marks, p[m - 1]));
    let k = choose|k: int|
        0 <= k < fs[p[m - 1]].successors.len() && #[trigger] fs[p[m - 1]].successors[k] == p[m];
    assert(marks[fs[p[m - 1]].successors[k] as int]);
}

/// Marks the lines that may run right after the line at `j`, and puts those
/// that were not marked before on the stack.
fn spread(
    dependencies: &Vec<Dependency>,
    j: usize,
    marks: &mut Vec<bool>,
    stack: &mut Vec<usize>,
    Ghost(t): Ghost<Seq<char>>,
)
    requires
        successors_in_range(facts(dependencies@)),
        j < dependencies@.len(),
        sound(facts(dependencies@), t, old(marks)@),
        old(marks)@[j as int] || facts(dependencies@)[j as int].writes(t),
    ensures
        sound(facts(dependencies@), t, final(marks)@),
        forall|i: int| 0 <= i < old(marks)@.len() && old(marks)@[i] ==> #[trigger] final(marks)@[i],
        spread_from(facts(dependencies@), final(marks)@, j as int),
        final(stack)@.len() >= old(stack)@.len(),
        final(stack)@.subrange(0, old(stack)@.len() as int) == old(stack)@,
        forall|m: int|
            old(stack)@.len() <= m < final(stack)@.len() ==> (#[trigger] final(stack)@[m])
                < dependencies@.len() && final(marks)@[final(stack)@[m] as int],
        forall|i: int|
            0 <= i < old(marks)@.len() && #[trigger] final(marks)@[i] && !old(marks)@[i]
                ==> final(stack)@.contains(i as usize),
        2 * unset(final(marks)@) + final(stack)@.len() <= 2 * unset(old(marks)@) + old(stack)@.len(),
{
    let ghost fs = facts(dependencies@);
    let dep = &dependencies[j];
    let n = dependencies.len();
    assert(dep@ == fs[j as int]);
    let mut k: usize = 0;
    while k < dep.successors.len()
        invariant
            k <= dep.successors.len(),
            n == dependencies@.len(),
            j < n,
            fs == facts(dependencies@),
            dep@ == fs[j as int],
            successors_in_range(fs),
            sound(fs, t, marks@),
            old(marks)@.len() == n,
            old(marks)@[j as int] || fs[j as int].writes(t),
            forall|i: int| 0 <= i < n && old(marks)@[i] ==> #[trigger] marks@[i],
            forall|m: int| 0 <= m < k ==> marks@[(#[trigger] fs[j as int].successors[m]) as int],
            stack@.len() >= old(stack)@.len(),
            stack@.subrange(0, old(stack)@.len() as int) == old(stack)@,
            forall|m: int|
                old(stack)@.len() <= m < stack@.len() ==> (#[trigger] stack@[m]) < n && marks@[stack@[m] as int],
            forall|i: int|
                0 <= i < n && #[trigger] marks@[i] && !old(marks)@[i] ==> stack@.contains(i as usize),
            2 * unset(marks@) + stack@.len() <= 2 * unset(old(marks)@) + old(stack)@.len(),
        decreases dep.successors.len() - k,
    {
        let s = dep.successors[k];
        assert(fs[j as int].successors[k as int] == s);
        assert(s < n);
        if !marks[s] {
            let ghost marks0 = marks@;
            let ghost stack0 = stack@;
            proof {
                assert(steps(fs, j as int, s as int));
                if !fs[j as int].writes(t) {
                    assert(marks@[j as int]);
                }
                lemma_extend(fs, t, j as int, s as int);
                lemma_unset_raise(marks@, s as int);
            }
            marks[s] = true;
            stack.push(s);
            proof {
                assert(stack@.subrange(0, old(stack)@.len() as int) =~= stack0.subrange(
                    0,
                    old(stack)@.len() as int,
                ));
                assert forall|i: int|
                    0 <= i < n && #[trigger] marks@[i] && !old(marks)@[i] implies stack@.contains(
                    i as usize,
                ) by {
                    if i == s {
                        assert(stack@[stack0.len() as int] == s);
                    } else {
                        assert(marks0[i]);
                        let m = choose|m: int| 0 <= m < stack0.len() && stack0[m] == i as usize;
                        assert(stack@[m] == i as usize);
                    }
                }
            }
        }
        k += 1;
    }
}

/// The lines that a definition of `t` reaches.
fn reach(dependencies: &Vec<Dependency>, t: &String) -> (marks: Vec<bool>)
    requires
        successors_in_range(facts(dependencies@)),
    ensures
        marks@.len() == dependencies@.len(),
        forall|i: int|
            0 <= i < dependencies@.len() ==> #[trigger] marks@[i] == reached(
                facts(dependencies@),
                t@,
                i,
            ),
{
    let ghost fs = facts(dependencies@);
    let n = dependencies.len();
    let mut marks: Vec<bool> = Vec::new();
    let mut z: usize = 0;
    while z < n
        invariant
            z <= n,
            marks@.len() == z,
            forall|i: int| 0 <= i < z ==> !#[trigger] marks@[i],
        decreases n - z,
    {
        marks.push(false);
        z += 1;
    }
    let mut stack: Vec<usize> = Vec::new();
    let mut d: usize = 0;
    while d < n
        invariant
            d <= n,
            n == dependencies@.len(),
            fs == facts(dependencies@),
            successors_in_range(fs),
            sound(fs, t@, marks@),
            forall|m: int| 0 <= m < stack@.len() ==> (#[trigger] stack@[m]) < n && marks@[stack@[m] as int],
            forall|i: int| 0 <= i < n && #[trigger] marks@[i] ==> stack@.contains(i as usize),
            forall|j: int| 0 <= j < d && fs[j].writes(t@) ==> #[trigger] spread_from(fs, marks@, j),
        decreases n - d,
    {
        let writes = match &dependencies[d].defines {
            Some(x) => *x == *t,
            None => false,
        };
        assert(dependencies@[d as int]@ == fs[d as int]);
        assert(writes == fs[d as int].writes(t@));
        if writes {
            let ghost marks0 = marks@;
            let ghost stack0 = stack@;
            spread(dependencies, d, &mut marks, &mut stack, Ghost(t@));
            proof {
                assert forall|m: int| 0 <= m < stack@.len() implies (#[trigger] stack@[m]) < n
                    && marks@[stack@[m] as int] by {
                    if m < stack0.len() {
                        assert(stack@.subrange(0, stack0.len() as int)[m] == stack0[m]);
                        assert(marks0[stack0[m] as int]);
                    }
                }
                assert forall|i: int| 0 <= i < n && #[trigger] marks@[i] implies stack@.contains(
                    i as usize,
                ) by {
                    if marks0[i] {
                        let m = choose|m: int| 0 <= m < stack0.len() && stack0[m] == i as usize;
                        assert(stack@.subrange(0, stack0.len() as int)[m] == stack0[m]);
                        assert(stack@[m] == i as usize);
                    }
                }
                assert forall|j: int| 0 <= j < d + 1 && fs[j].writes(t@) implies #[trigger] spread_from(
                    fs,
                    marks@,
                    j,
                ) by {
                    if j < d {
                        assert(spread_from(fs, marks0, j));
                    }
                }
            }
        }
        d += 1;
    }
    while stack.len() > 0
        invariant
            n == dependencies@.len(),
            fs == facts(dependencies@),
            successors_in_range(fs),
            sound(fs, t@, marks@),
            forall|m: int| 0 <= m < stack@.len() ==> (#[trigger] stack@[m]) < n && marks@[stack@[m] as int],
            forall|j: int| 0 <= j < n && fs[j].writes(t@) ==> #[trigger] spread_from(fs, marks@, j),
            forall|j: int|
                0 <= j < n && marks@[j] && !stack@.contains(j as usize) ==> #[trigger] spread_from(
                    fs,
                    marks@,
                    j,
                ),
        decreases 2 * unset(marks@) + stack@.len(),
    {
        let ghost stack_full = stack@;
        let j = stack.pop().unwrap();
        let ghost marks0 = marks@;
        let ghost stack0 = stack@;
        proof {
            assert(stack_full[stack_full.len() - 1] == j);
            assert(j < n && marks@[j as int]);
        }
        spread(dependencies, j, &mut marks, &mut stack, Ghost(t@));
        proof {
            assert forall|m: int| 0 <= m < stack@.len() implies (#[trigger] stack@[m]) < n
                && marks@[stack@[m] as int] by {
                if m < stack0.len() {
                    assert(stack@.subrange(0, stack0.len() as int)[m] == stack0[m]);
                    assert(stack_full[m] == stack0[m]);
                    assert(marks0[stack0[m] as int]);
                }
            }
            assert forall|i: int| 0 <= i < n && fs[i].writes(t@) implies #[trigger] spread_from(
                fs,
                marks@,
                i,
            ) by {
                assert(spread_from(fs, marks0, i));
            }
            assert forall|i: int|
                0 <= i < n && marks@[i] && !stack@.contains(i as usize) implies #[trigger] spread_from(
                fs,
                marks@,
                i,
            ) by {
                if i != j {
                    if !marks0[i] {
                        assert(stack@.contains(i as usize));
                    }
                    if stack_full.contains(i as usize) {
                        let m = choose|m: int| 0 <= m < stack_full.len() && stack_full[m] == i as usize;
                        assert(m < stack0.len());
                        assert(stack@.subrange(0, stack0.len() as int)[m] == stack0[m]);
                        assert(stack@[m] == i as usize);
                    }
                    assert(spread_from(fs, marks0, i));
                }
            }
        }
    }
    proof {
        assert forall|i: int| 0 <= i < n implies #[trigger] marks@[i] == reached(fs, t@, i) by {
            if reached(fs, t@, i) {
                let p = choose|p: Seq<int>| #[trigger] carries(fs, t@, i, p);
                assert(closed(fs, t@, marks@)) by {
                    assert forall|j: int|
                        0 <= j < fs.len() && (marks@[j] || fs[j].writes(t@)) implies #[trigger] spread_from(
                        fs,
                        marks@,
                        j,
                    ) by {
                        assert(!stack@.contains(j as usize));
                    }
                }
                lemma_closed_complete(fs, t@, marks@, p, p.len() - 1);
            }
        }
    }
    marks
}

/// Checks the facts of a function. Returns the first fault, if there is one.
pub fn validate(dependencies: &Vec<Dependency>) -> (r: Result<(), AllocationError>)
    ensures
        match r {
            Ok(_) => fault(facts(dependencies@)) is None,
            Err(e) => fault(facts(dependencies@)) == Some(e),
        },
{
    let ghost fs = facts(dependencies@);
    let n = dependencies.len();
    let mut i: usize = 0;
    while i < n
        invariant
            i <= n,
            n == dependencies@.len(),
            fs == facts(dependencies@),
            first_line_fault(fs, 0) == first_line_fault(fs, i as int),
        decreases n - i,
    {
        match check_line(dependencies, i) {
            Some(e) => {
                return Err(e);
            },
            None => {},
        }
        i += 1;
    }
    proof {
        lemma_accepted_in_range(fs);
    }
    let mut i: usize = 0;
    while i < n
        invariant
            i <= n,
            n == dependencies@.len(),
            fs == facts(dependencies@),
            successors_in_range(fs),
            first_line_fault(fs, 0) is None,
            first_use_fault(fs, 0) == first_use_fault(fs, i as int),
        decreases n - i,
    {
        let dep = &dependencies[i];
        assert(dep@ == fs[i as int]);
        let mut j: usize = 0;
        while j < dep.uses.len()
            invariant
                j <= dep.uses.len(),
                i < n,
                n == dependencies@.len(),
                fs == facts(dependencies@),
                dep@ == fs[i as int],
                successors_in_range(fs),
                first_line_fault(fs, 0) is None,
                first_use_fault(fs, 0) == first_use_fault(fs, i as int),
                forall|m: int| 0 <= m < j ==> reached(fs, #[trigger] fs[i as int].uses[m], i as int),
            decreases dep.uses.len() - j,
        {
            let marks = reach(dependencies, &dep.uses[j]);
            assert(fs[i as int].uses[j as int] == dep.uses@[j as int]@);
            if !marks[i] {
                assert(reads_undefined(fs, i as int));
                return Err(AllocationError::UndefinedTemporary { line: i });
            }
            j += 1;
        }
        assert(!reads_undefined(fs, i as int));
        i += 1;
    }
    Ok(())
}

} // verus!
