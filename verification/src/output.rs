//! What the allocator hands to the emission stage: a register for the
//! temporary that each line writes, and the temporaries that got none.

use vstd::prelude::*;
use crate::names::names;

verus! {

/// The number of general-purpose registers that a budget may reach. The
/// stack pointer is not among them.
pub const REGISTER_COUNT: usize = 15;

/// The register that stands for a colour. Colours from `REGISTER_COUNT` on stand for none.
pub open spec fn register_name(color: usize) -> Seq<char> {
    if color == 0 {
        "%eax"@
    } else if color == 1 {
        "%edx"@
    } else if color == 2 {
        "%ebx"@
    } else if color == 3 {
        "%ecx"@
    } else if color == 4 {
        "%esi"@
    } else if color == 5 {
        "%edi"@
    } else if color == 6 {
        "%ebp"@
    } else if color == 7 {
        "%r8"@
    } else if color == 8 {
        "%r9"@
    } else if color == 9 {
        "%r10"@
    } else if color == 10 {
        "%r11"@
    } else if color == 11 {
        "%r12"@
    } else if color == 12 {
        "%r13"@
    } else if color == 13 {
        "%r14"@
    } else if color == 14 {
        "%r15"@
    } else {
        Seq::empty()
    }
}

/// The register that stands for a colour.
pub fn register_for(color: usize) -> (name: String)
    requires
        color < REGISTER_COUNT,
    ensures
        name@ == register_name(color),
{
    if color == 0 {
        String::from_str("%eax")
    } else if color == 1 {
        String::from_str("%edx")
    } else if color == 2 {
        String::from_str("%ebx")
    } else if color == 3 {
        String::from_str("%ecx")
    } else if color == 4 {
        String::from_str("%esi")
    } else if color == 5 {
        String::from_str("%edi")
    } else if color == 6 {
        String::from_str("%ebp")
    } else if color == 7 {
        String::from_str("%r8")
    } else if color == 8 {
        String::from_str("%r9")
    } else if color == 9 {
        String::from_str("%r10")
    } else if color == 10 {
        String::from_str("%r11")
    } else if color == 11 {
        String::from_str("%r12")
    } else if color == 12 {
        String::from_str("%r13")
    } else if color == 13 {
        String::from_str("%r14")
    } else {
        String::from_str("%r15")
    }
}

/// Two colours below `REGISTER_COUNT` stand for two registers.
pub proof fn lemma_register_names_differ(a: usize, b: usize)
    requires
        a < REGISTER_COUNT,
        b < REGISTER_COUNT,
        a != b,
    ensures
        register_name(a) != register_name(b),
{
    reveal_strlit("%eax");
    reveal_strlit("%edx");
    reveal_strlit("%ebx");
    reveal_strlit("%ecx");
    reveal_strlit("%esi");
    reveal_strlit("%edi");
    reveal_strlit("%ebp");
    reveal_strlit("%r8");
    reveal_strlit("%r9");
    reveal_strlit("%r10");
    reveal_strlit("%r11");
    reveal_strlit("%r12");
    reveal_strlit("%r13");
    reveal_strlit("%r14");
    reveal_strlit("%r15");
    let x = register_name(a);
    let y = register_name(b);
    if x == y {
        assert(x.len() == y.len());
        assert(x[2] == y[2]);
        if x.len() == 4 {
            assert(x[3] == y[3]);
        }
    }
}

/// The register given to a temporary.
#[derive(Debug, Clone, PartialEq, Eq)]
pub struct Assignment {
    pub temp: String,
    pub register: String,
}

/// An `Assignment` as contracts see it.
pub struct AssignmentView {
    pub temp: Seq<char>,
    pub register: Seq<char>,
}

impl View for Assignment {
    type V = AssignmentView;

    open spec fn view(&self) -> AssignmentView {
        AssignmentView { temp: self.temp@, register: self.register@ }
    }
}

/// The result of an allocation.
#[derive(Debug, Clone, PartialEq, Eq)]
pub struct Output {
    /// For each line the register of the temporary that the line writes, if
    /// the line writes one and it has a register.
    pub assignments: Vec<Option<Assignment>>,
    /// The temporaries that have no register, each once.
    pub spillover: Vec<String>,
}

/// An `Output` as contracts see it.
pub struct OutputView {
    pub assignments: Seq<Option<AssignmentView>>,
    pub spillover: Seq<Seq<char>>,
}

/// The assignments of a vector, as contracts see them.
pub open spec fn assignment_views(v: Seq<Option<Assignment>>) -> Seq<Option<AssignmentView>> {
    Seq::new(
        v.len(),
        |i: int|
            match v[i] {
                Some(a) => Some(a@),
                None => None,
            },
    )
}

impl View for Output {
    type V = OutputView;

    open spec fn view(&self) -> OutputView {
        OutputView {
            assignments: assignment_views(self.assignments@),
            spillover: names(self.spillover@),
        }
    }
}

impl OutputView {
    /// Whether line `i` gives `t` the register `r`.
    pub open spec fn gives(self, i: int, t: Seq<char>, r: Seq<char>) -> bool {
        0 <= i < self.assignments.len() && self.assignments[i] == Some(
            AssignmentView { temp: t, register: r },
        )
    }

    /// Whether some line gives `t` the register `r`.
    pub open spec fn holds(self, t: Seq<char>, r: Seq<char>) -> bool {
        exists|i: int| #[trigger] self.gives(i, t, r)
    }
}

} // verus!
