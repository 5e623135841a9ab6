//! Instruction facts: what the allocator knows of one line of abstract assembly.

use vstd::prelude::*;
use crate::names::{clone_names, names};

verus! {

/// What one line of abstract assembly reads and writes, with the liveness
/// that the analysis attaches to it.
///
/// For the lines
/// ```text
/// %t11 <- %t9 * %t10
/// %eax <- %t11
/// ```
/// the first fact uses `%t9` and `%t10`, defines `%t11` and has `%t11` live
/// after it; the second uses `%t11`, defines `%eax`, is a move, and leaves
/// nothing live.
#[derive(Debug, Clone, PartialEq, Eq)]
pub struct Dependency {
    /// The temporaries that the line reads. Read as a set: order and repeats do not count.
    pub uses: Vec<String>,
    /// The temporary or hardware register that the line writes, if any.
    pub defines: Option<String>,
    /// The temporaries that are live after the line.
    pub live_out: Vec<String>,
    /// The temporaries that are live before the line.
    pub live_in: Vec<String>,
    /// Whether the line is a plain copy from one register to another.
    pub is_move: bool,
    /// The line's position in its function, counted from zero.
    pub line: usize,
    /// The positions of the lines that may run next.
    pub successors: Vec<usize>,
}

/// A `Dependency` as contracts see it: names in place of strings.
pub struct Fact {
    pub uses: Seq<Seq<char>>,
    pub defines: Option<Seq<char>>,
    pub live_out: Seq<Seq<char>>,
    pub live_in: Seq<Seq<char>>,
    pub is_move: bool,
    pub line: usize,
    pub successors: Seq<usize>,
}

impl View for Dependency {
    type V = Fact;

    open spec fn view(&self) -> Fact {
        Fact {
            uses: names(self.uses@),
            defines: match self.defines {
                Some(d) => Some(d@),
                None => None,
            },
            live_out: names(self.live_out@),
            live_in: names(self.live_in@),
            is_move: self.is_move,
            line: self.line,
            successors: self.successors@,
        }
    }
}

/// The facts of a function, line by line.
pub open spec fn facts(deps: Seq<Dependency>) -> Seq<Fact> {
    Seq::new(deps.len(), |i: int| deps[i]@)
}

impl Fact {
    /// Whether the line writes `t`.
    pub open spec fn writes(self, t: Seq<char>) -> bool {
        self.defines == Some(t)
    }

    /// The same line with other liveness attached.
    pub open spec fn with_liveness(self, live_in: Seq<Seq<char>>, live_out: Seq<Seq<char>>) -> Fact {
        Fact { live_in, live_out, ..self }
    }

    /// Whether two facts describe the same line, whatever liveness they carry.
    pub open spec fn same_line(self, other: Fact) -> bool {
        &&& self.uses == other.uses
        &&& self.defines == other.defines
        &&& self.is_move == other.is_move
        &&& self.line == other.line
        &&& self.successors == other.successors
    }
}

/// Whether every successor of every line is a position of the function.
pub open spec fn successors_in_range(fs: Seq<Fact>) -> bool {
    forall|i: int, k: int|
        0 <= i < fs.len() && 0 <= k < fs[i].successors.len() ==> (#[trigger] fs[i].successors[k])
            < fs.len()
}

/// A copy of the facts, line by line.
pub fn clone_dependencies(dependencies: &Vec<Dependency>) -> (r: Vec<Dependency>)
    ensures
        facts(r@) == facts(dependencies@),
{
    let mut r: Vec<Dependency> = Vec::new();
    let mut i: usize = 0;
    while i < dependencies.len()
        invariant
            i <= dependencies.len(),
            r@.len() == i,
            forall|j: int| 0 <= j < i ==> (#[trigger] r@[j])@ == dependencies@[j]@,
        decreases dependencies.len() - i,
    {
        r.push(dependencies[i].duplicate());
        i += 1;
    }
    assert(facts(r@) =~= facts(dependencies@));
    r
}

impl Dependency {
    /// A copy of the line.
    pub fn duplicate(&self) -> (r: Dependency)
        ensures
            r@ == self@,
    {
        let defines = match &self.defines {
            Some(d) => Some(d.clone()),
            None => None,
        };
        let mut successors: Vec<usize> = Vec::new();
        let mut k: usize = 0;
        while k < self.successors.len()
            invariant
                k <= self.successors.len(),
                successors@ == self.successors@.subrange(0, k as int),
            decreases self.successors.len() - k,
        {
            successors.push(self.successors[k]);
            assert(successors@ =~= self.successors@.subrange(0, k + 1));
            k += 1;
        }
        assert(successors@ =~= self.successors@);
        Dependency {
            uses: clone_names(&self.uses),
            defines,
            live_out: clone_names(&self.live_out),
            live_in: clone_names(&self.live_in),
            is_move: self.is_move,
            line: self.line,
            successors,
        }
    }

    /// A line that carries no liveness yet.
    pub fn new(
        uses: Vec<String>,
        defines: Option<String>,
        is_move: bool,
        line: usize,
        successors: Vec<usize>,
    ) -> (r: Dependency)
        ensures
            r.uses == uses,
            r.defines == defines,
            r.is_move == is_move,
            r.line == line,
            r.successors == successors,
            r.live_in@.len() == 0,
            r.live_out@.len() == 0,
    {
        Dependency {
            uses,
            defines,
            live_out: Vec::new(),
            live_in: Vec::new(),
            is_move,
            line,
            successors,
        }
    }
}

} // verus!
