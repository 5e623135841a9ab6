//! The textual form of facts and of allocations, for tests and for reading.
//!
//! A line of the form `L1: dest <- left + right` states a fact: the line
//! writes `dest` and reads `left` and `right`, where those are names and not
//! numbers. `L2: dest <- source` is a move. The operator is one of `+`, `-`,
//! `*`, `/`. Lines that are not of this form are passed over.

use vstd::prelude::*;
use crate::chars::{
    decimal_value,
    digits_of,
    push_decimal,
    has_leading_digit,
    lines_of,
    parse_decimal,
    split_lines,
    starts_with_digit,
    to_chars,
    trim,
    trimmed,
};
use crate::facts::{facts, successors_in_range, Dependency, Fact};
use crate::liveness::{analysed, compute_liveness};
use crate::names::{insert_name, names, with_name};
use crate::output::{assignment_views, Assignment, AssignmentView, Output, OutputView};

verus! {

/// The pattern of a line that states a fact: its number, what it writes, and what it computes.
pub const LINE_PATTERN: &'static str = "L(\\d+):\\s*(\\S+)\\s*<-\\s*(.*)";

/// The pattern of a computation with two operands and an operator between them.
pub const ARITHMETIC_PATTERN: &'static str = "(\\S+)\\s*([+\\-*/])\\s*(\\S+)";

/// `regex::Error`: what the regular expression engine says of a pattern
/// that it refuses. Nothing is known of what it holds.
#[verifier::external_type_specification]
#[verifier::external_body]
pub struct ExRegexError(regex::Error);

/// Whether the regular expression engine accepts the pattern: whether
/// `regex::Regex::new` returns a regular expression for it.
pub uninterp spec fn pattern_compiles(pattern: Seq<char>) -> bool;

/// What the first match of the pattern in the text captured: what
/// `regex::Regex::captures` returns, group by group, the whole match first.
/// `None` where the pattern matches nowhere; a group is `None` where it took
/// no part in the match.
pub uninterp spec fn first_captures(pattern: Seq<char>, haystack: Seq<char>) -> Option<
    Seq<Option<Seq<char>>>,
>;

/// The texts of captured groups, as contracts see them.
pub open spec fn groups_view(found: Option<Vec<Option<String>>>) -> Option<Seq<Option<Seq<char>>>> {
    match found {
        Some(groups) => Some(
            Seq::new(
                groups@.len(),
                |i: int|
                    match groups@[i] {
                        Some(text) => Some(text@),
                        None => None,
                    },
            ),
        ),
        None => None,
    }
}

/// Compiles the pattern with `regex::Regex::new` and searches the text with
/// `regex::Regex::captures`. An error is what the engine says of a pattern
/// that it refuses; it comes exactly when the pattern does not compile.
/// Otherwise the result holds the text of each group of the first match,
/// which depends on the pattern and the text alone.
#[verifier::external_body]
fn captures(pattern: &str, haystack: &str) -> (r: Result<Option<Vec<Option<String>>>, regex::Error>)
    ensures
        r is Ok <==> pattern_compiles(pattern@),
        r matches Ok(found) ==> groups_view(found) == first_captures(pattern@, haystack@),
{
    let re = regex::Regex::new(pattern)?;
    Ok(re.captures(haystack).map(|c| c.iter().map(|g| g.map(|m| m.as_str().to_string())).collect()))
}

/// Why a text is refused.
#[derive(Debug, Clone, Copy, PartialEq, Eq)]
pub enum ParseError {
    /// The regular expression engine refused a pattern, or left out a group
    /// that the pattern has.
    Pattern,
    /// The number of the fact at position `index` is not made of the digits
    /// `0` to `9`, or does not fit.
    LineNumber { index: usize },
}

/// The operands of a computation, where it has two.
pub struct Operands {
    pub left: String,
    pub right: String,
}

/// The group at `i`, where the match has one.
pub open spec fn group(found: Seq<Option<Seq<char>>>, i: int) -> Option<Seq<char>> {
    if 0 <= i < found.len() {
        found[i]
    } else {
        None
    }
}

/// A copy of the group at `i`, where the match has one.
fn group_at(found: &Vec<Option<String>>, i: usize) -> (r: Option<String>)
    ensures
        match r {
            Some(text) => group(groups_view(Some(*found))->0, i as int) == Some(text@),
            None => group(groups_view(Some(*found))->0, i as int) is None,
        },
{
    if i < found.len() {
        match &found[i] {
            Some(text) => Some(text.clone()),
            None => None,
        }
    } else {
        None
    }
}

/// The names that a computation reads, given its text without white space
/// around it and its two operands where the arithmetic pattern found them.
/// An operand that starts with a digit is a number and no name.
pub open spec fn uses_of(value: Seq<char>, operands: Option<(Seq<char>, Seq<char>)>) -> Seq<Seq<char>> {
    match operands {
        Some((left, right)) => {
            let first = if starts_with_digit(left) {
                Seq::<Seq<char>>::empty()
            } else {
                seq![left]
            };
            if starts_with_digit(right) {
                first
            } else {
                with_name(first, right)
            }
        },
        None => if value.len() == 0 || starts_with_digit(value) {
            Seq::empty()
        } else {
            seq![value]
        },
    }
}

/// The fact that a line states: a computation with two operands reads
/// those that are names; any other text is a move from the name that it
/// holds, unless it is empty or a number, which reads nothing and moves
/// nothing. The fact has its position among the facts as its line.
pub open spec fn fact_of(
    position: usize,
    target: Seq<char>,
    value: Seq<char>,
    operands: Option<(Seq<char>, Seq<char>)>,
) -> Fact {
    Fact {
        uses: uses_of(value, operands),
        defines: Some(target),
        live_out: Seq::empty(),
        live_in: Seq::empty(),
        is_move: operands is None && value.len() > 0 && !starts_with_digit(value),
        line: position,
        successors: Seq::empty(),
    }
}

/// The operands as contracts see them.
pub open spec fn operands_view(operands: Option<Operands>) -> Option<(Seq<char>, Seq<char>)> {
    match operands {
        Some(o) => Some((o.left@, o.right@)),
        None => None,
    }
}

/// Builds the fact that a line states from what the patterns found in it.
pub fn dependency_from_captures(
    position: usize,
    target: &String,
    value: &String,
    operands: &Option<Operands>,
) -> (dep: Dependency)
    ensures
        dep@ == fact_of(position, target@, value@, operands_view(*operands)),
{
    let mut uses: Vec<String> = Vec::new();
    let mut is_move = false;
    assert(names(uses@) =~= Seq::<Seq<char>>::empty());
    match operands {
        Some(o) => {
            if !has_leading_digit(o.left.as_str()) {
                uses.push(o.left.clone());
                assert(names(uses@) =~= seq![o.left@]);
            }
            if !has_leading_digit(o.right.as_str()) {
                insert_name(&mut uses, &o.right);
            }
        },
        None => {
            if value.as_str().unicode_len() > 0 && !has_leading_digit(value.as_str()) {
                uses.push(value.clone());
                assert(names(uses@) =~= seq![value@]);
                is_move = true;
            }
        },
    }
    let dep = Dependency::new(uses, Some(target.clone()), is_move, position, Vec::new());
    assert(dep@.live_in =~= Seq::<Seq<char>>::empty());
    assert(dep@.live_out =~= Seq::<Seq<char>>::empty());
    assert(dep@.successors =~= Seq::<usize>::empty());
    dep
}

/// What the line pattern finds in a line: the number, what is written and
/// what is computed; `None` where the line is not of the pattern.
pub open spec fn line_parts(line: Seq<char>) -> Result<
    Option<(Seq<char>, Seq<char>, Seq<char>)>,
    ParseError,
> {
    if !pattern_compiles(LINE_PATTERN@) {
        Err(ParseError::Pattern)
    } else {
        match first_captures(LINE_PATTERN@, line) {
            None => Ok(None),
            Some(found) => match (group(found, 1), group(found, 2), group(found, 3)) {
                (Some(number), Some(target), Some(value)) => Ok(Some((number, target, value))),
                _ => Err(ParseError::Pattern),
            },
        }
    }
}

/// What the arithmetic pattern finds in a computation: its two operands;
/// `None` where the computation is not of the pattern.
pub open spec fn operands_of(value: Seq<char>) -> Result<Option<(Seq<char>, Seq<char>)>, ParseError> {
    if !pattern_compiles(ARITHMETIC_PATTERN@) {
        Err(ParseError::Pattern)
    } else {
        match first_captures(ARITHMETIC_PATTERN@, value) {
            None => Ok(None),
            Some(found) => match (group(found, 1), group(found, 3)) {
                (Some(left), Some(right)) => Ok(Some((left, right))),
                _ => Err(ParseError::Pattern),
            },
        }
    }
}

/// Whether the text is a number in base ten that fits.
pub open spec fn is_line_number(s: Seq<char>) -> bool {
    decimal_value(s) matches Some(v) && v <= usize::MAX
}

/// What a line states, as the fact at `position`: `None` where the line is
/// not of the line pattern.
pub open spec fn parsed_line(line: Seq<char>, position: usize) -> Result<Option<Fact>, ParseError> {
    match line_parts(line) {
        Err(e) => Err(e),
        Ok(None) => Ok(None),
        Ok(Some((number, target, value))) => if !is_line_number(number) {
            Err(ParseError::LineNumber { index: position })
        } else {
            match operands_of(trimmed(value)) {
                Err(e) => Err(e),
                Ok(operands) => Ok(Some(fact_of(position, target, trimmed(value), operands))),
            }
        },
    }
}

/// The facts that the lines state, in order, each with its position among
/// them as its line; or the error of the first line that has one.
pub open spec fn parsed_lines(lines: Seq<Seq<char>>) -> Result<Seq<Fact>, ParseError>
    decreases lines.len(),
{
    if lines.len() == 0 {
        Ok(Seq::empty())
    } else {
        match parsed_lines(lines.drop_last()) {
            Err(e) => Err(e),
            Ok(fs) => match parsed_line(lines.last(), fs.len() as usize) {
                Err(e) => Err(e),
                Ok(None) => Ok(fs),
                Ok(Some(f)) => Ok(fs.push(f)),
            },
        }
    }
}

/// The facts with each line leading to the next, and the last line to none.
pub open spec fn chained(fs: Seq<Fact>) -> Seq<Fact> {
    Seq::new(
        fs.len(),
        |i: int|
            Fact {
                successors: if i + 1 < fs.len() {
                    seq![(i + 1) as usize]
                } else {
                    Seq::empty()
                },
                ..fs[i]
            },
    )
}

/// Applies the line pattern to a line.
fn match_line(line: &String) -> (r: Result<Option<(String, String, String)>, ParseError>)
    ensures
        match r {
            Ok(Some(parts)) => line_parts(line@) == Ok::<_, ParseError>(
                Some((parts.0@, parts.1@, parts.2@)),
            ),
            Ok(None) => line_parts(line@) == Ok::<Option<(Seq<char>, Seq<char>, Seq<char>)>, ParseError>(
                None,
            ),
            Err(e) => line_parts(line@) == Err::<Option<(Seq<char>, Seq<char>, Seq<char>)>, _>(e),
        },
{
    match captures(LINE_PATTERN, line.as_str()) {
        Err(_) => Err(ParseError::Pattern),
        Ok(None) => Ok(None),
        Ok(Some(found)) => {
            match (group_at(&found, 1), group_at(&found, 2), group_at(&found, 3)) {
                (Some(number), Some(target), Some(value)) => Ok(Some((number, target, value))),
                _ => Err(ParseError::Pattern),
            }
        },
    }
}

/// Applies the arithmetic pattern to a computation.
fn match_operands(value: &String) -> (r: Result<Option<Operands>, ParseError>)
    ensures
        match r {
            Ok(found) => operands_of(value@) == Ok::<_, ParseError>(operands_view(found)),
            Err(e) => operands_of(value@) == Err::<Option<(Seq<char>, Seq<char>)>, _>(e),
        },
{
    match captures(ARITHMETIC_PATTERN, value.as_str()) {
        Err(_) => Err(ParseError::Pattern),
        Ok(None) => Ok(None),
        Ok(Some(found)) => {
            match (group_at(&found, 1), group_at(&found, 3)) {
                (Some(left), Some(right)) => Ok(Some(Operands { left, right })),
                _ => Err(ParseError::Pattern),
            }
        },
    }
}

/// Reads the fact that a line states, as the fact at `position`.
pub fn parse_line(line: &String, position: usize) -> (r: Result<Option<Dependency>, ParseError>)
    ensures
        match r {
            Ok(Some(dep)) => parsed_line(line@, position) == Ok::<_, ParseError>(Some(dep@)),
            Ok(None) => parsed_line(line@, position) == Ok::<Option<Fact>, ParseError>(None),
            Err(e) => parsed_line(line@, position) == Err::<Option<Fact>, _>(e),
        },
{
    match match_line(line) {
        Err(e) => Err(e),
        Ok(None) => Ok(None),
        Ok(Some((number, target, value))) => {
            if parse_decimal(number.as_str()).is_none() {
                return Err(ParseError::LineNumber { index: position });
            }
            let value = trim(value.as_str());
            match match_operands(&value) {
                Err(e) => Err(e),
                Ok(operands) => Ok(Some(dependency_from_captures(position, &target, &value, &operands))),
            }
        },
    }
}

/// Leads each line to the next, and the last line to none.
fn chain(dependencies: &mut Vec<Dependency>)
    ensures
        facts(final(dependencies)@) == chained(facts(old(dependencies)@)),
        successors_in_range(facts(final(dependencies)@)),
{
    let n = dependencies.len();
    let ghost fs = facts(dependencies@);
    let mut i: usize = 0;
    while i < n
        invariant
            i <= n,
            n == dependencies@.len(),
            n == fs.len(),
            forall|j: int| 0 <= j < i ==> (#[trigger] dependencies@[j])@ == chained(fs)[j],
            forall|j: int| i <= j < n ==> (#[trigger] dependencies@[j])@ == fs[j],
        decreases n - i,
    {
        let mut next: Vec<usize> = Vec::new();
        if i + 1 < n {
            next.push(i + 1);
        }
        let ghost before = dependencies@[i as int]@;
        dependencies[i].successors = next;
        proof {
            assert(dependencies@[i as int]@.successors =~= chained(fs)[i as int].successors);
            assert(dependencies@[i as int]@ == Fact {
                successors: dependencies@[i as int]@.successors,
                ..before
            });
        }
        i += 1;
    }
    proof {
        assert(facts(dependencies@) =~= chained(fs));
        assert forall|a: int, k: int|
            0 <= a < n && 0 <= k < facts(dependencies@)[a].successors.len() implies (
        #[trigger] facts(dependencies@)[a].successors[k]) < n by {}
    }
}

/// Reads the facts of a function from a text and attaches their liveness.
///
/// Each line of the form `L1: dest <- computation` states a fact; other
/// lines are passed over. The facts follow one another in the order of the
/// text, each leading to the next.
pub fn parse_dependencies(input: &str) -> (r: Result<Vec<Dependency>, ParseError>)
    ensures
        match r {
            Ok(dependencies) => parsed_lines(split_lines(input@)) matches Ok(fs) && facts(
                dependencies@,
            ) == analysed(chained(fs)),
            Err(e) => parsed_lines(split_lines(input@)) == Err::<Seq<Fact>, _>(e),
        },
{
    let text = to_chars(input);
    let lines = lines_of(&text);
    let ghost ls = names(lines@);
    let mut dependencies: Vec<Dependency> = Vec::new();
    let mut i: usize = 0;
    proof {
        assert(ls.subrange(0, 0) =~= Seq::<Seq<char>>::empty());
        assert(facts(dependencies@) =~= Seq::<Fact>::empty());
    }
    while i < lines.len()
        invariant
            i <= lines.len(),
            ls == names(lines@),
            ls == split_lines(input@),
            parsed_lines(ls.subrange(0, i as int)) == Ok::<_, ParseError>(facts(dependencies@)),
        decreases lines.len() - i,
    {
        proof {
            assert(ls.subrange(0, i + 1).drop_last() =~= ls.subrange(0, i as int));
            assert(ls.subrange(0, i + 1).last() == lines@[i as int]@);
        }
        let position = dependencies.len();
        match parse_line(&lines[i], position) {
            Err(e) => {
                proof {
                    lemma_parse_fails(ls, i + 1, e);
                    assert(ls.subrange(0, ls.len() as int) =~= ls);
                }
                return Err(e);
            },
            Ok(None) => {},
            Ok(Some(dep)) => {
                let ghost before = facts(dependencies@);
                dependencies.push(dep);
                assert(facts(dependencies@) =~= before.push(dep@));
            },
        }
        i += 1;
    }
    assert(ls.subrange(0, i as int) =~= ls);
    chain(&mut dependencies);
    compute_liveness(&mut dependencies);
    Ok(dependencies)
}

/// The error of a line is the error of every text that goes on after it.
proof fn lemma_parse_fails(lines: Seq<Seq<char>>, m: int, e: ParseError)
    requires
        0 <= m <= lines.len(),
        parsed_lines(lines.subrange(0, m)) == Err::<Seq<Fact>, _>(e),
    ensures
        parsed_lines(lines) == Err::<Seq<Fact>, _>(e),
    decreases lines.len() - m,
{
    if m < lines.len() {
        assert(lines.subrange(0, m + 1).drop_last() =~= lines.subrange(0, m));
        lemma_parse_fails(lines, m + 1, e);
    } else {
        assert(lines.subrange(0, m) =~= lines);
    }
}

/// The names with ` + ` between them.
pub open spec fn sum_text(uses: Seq<Seq<char>>) -> Seq<char>
    decreases uses.len(),
{
    if uses.len() == 0 {
        Seq::empty()
    } else if uses.len() == 1 {
        uses.last()
    } else {
        sum_text(uses.drop_last()) + " + "@ + uses.last()
    }
}

/// What a line computes, as text: the names it reads with ` + ` between
/// them; `0` where it reads nothing; and a name and `0` where it reads one
/// name and is no move.
pub open spec fn computation_text(f: Fact) -> Seq<char> {
    if f.uses.len() == 0 {
        "0"@
    } else if f.uses.len() == 1 && !f.is_move {
        f.uses[0] + " + 0"@
    } else {
        sum_text(f.uses)
    }
}

/// A fact as a line of text: `L`, the line's number in base ten, a colon,
/// what the line writes (`_` where it writes nothing), an arrow and what it
/// computes.
pub open spec fn fact_text(f: Fact) -> Seq<char> {
    seq!['L'] + digits_of(f.line as nat) + ": "@ + (match f.defines {
        Some(t) => t,
        None => "_"@,
    }) + " <- "@ + computation_text(f)
}

/// An assignment as a line of text: the temporary, an arrow, the register.
pub open spec fn assignment_text(a: AssignmentView) -> Seq<char> {
    a.temp + " -> "@ + a.register
}

/// The lines of an allocation as text, each with a line feed behind it: the
/// assignment of the line, or nothing where it has none.
pub open spec fn assignments_text(assignments: Seq<Option<AssignmentView>>) -> Seq<char>
    decreases assignments.len(),
{
    if assignments.len() == 0 {
        Seq::empty()
    } else {
        assignments_text(assignments.drop_last()) + (match assignments.last() {
            Some(a) => assignment_text(a),
            None => Seq::empty(),
        }) + seq!['\n']
    }
}

/// The spillover as text: a line `spill name` for each name.
pub open spec fn spillover_text(spillover: Seq<Seq<char>>) -> Seq<char>
    decreases spillover.len(),
{
    if spillover.len() == 0 {
        Seq::empty()
    } else {
        spillover_text(spillover.drop_last()) + "spill "@ + spillover.last() + seq!['\n']
    }
}

/// An allocation as text: a line for each line of the function, then a line
/// for each name of the spillover.
pub open spec fn output_text(out: OutputView) -> Seq<char> {
    assignments_text(out.assignments) + spillover_text(out.spillover)
}

/// Writes a fact as a line of text.
pub fn format_dependency(dep: &Dependency) -> (r: String)
    ensures
        r@ == fact_text(dep@),
{
    let mut s = String::new();
    s.push('L');
    push_decimal(&mut s, dep.line as u128);
    s.append(": ");
    match &dep.defines {
        Some(t) => {
            s.append(t.as_str());
        },
        None => {
            s.append("_");
        },
    }
    s.append(" <- ");
    let ghost head = s@;
    if dep.uses.len() == 0 {
        s.append("0");
    } else if dep.uses.len() == 1 && !dep.is_move {
        s.append(dep.uses[0].as_str());
        s.append(" + 0");
        assert(s@ =~= head + computation_text(dep@));
    } else {
        let mut i: usize = 0;
        assert(dep@.uses.subrange(0, 0) =~= Seq::<Seq<char>>::empty());
        assert(s@ =~= head + sum_text(dep@.uses.subrange(0, 0)));
        while i < dep.uses.len()
            invariant
                i <= dep.uses.len(),
                s@ == head + sum_text(dep@.uses.subrange(0, i as int)),
            decreases dep.uses.len() - i,
        {
            let ghost part = dep@.uses.subrange(0, i + 1);
            let ghost before = s@;
            proof {
                assert(part.drop_last() =~= dep@.uses.subrange(0, i as int));
                assert(part.last() == dep.uses@[i as int]@);
            }
            if i > 0 {
                s.append(" + ");
            }
            s.append(dep.uses[i].as_str());
            proof {
                if i > 0 {
                    assert(s@ =~= head + (sum_text(part.drop_last()) + " + "@ + part.last()));
                } else {
                    assert(sum_text(part.drop_last()) =~= Seq::<char>::empty());
                    assert(s@ =~= head + part.last());
                }
            }
            i += 1;
        }
        assert(dep@.uses.subrange(0, i as int) =~= dep@.uses);
    }
    assert(s@ =~= fact_text(dep@));
    s
}

/// Writes an assignment as text.
pub fn format_assignment(assignment: &Assignment) -> (r: String)
    ensures
        r@ == assignment_text(assignment@),
{
    let mut s = String::new();
    s.append(assignment.temp.as_str());
    s.append(" -> ");
    s.append(assignment.register.as_str());
    assert(s@ =~= assignment_text(assignment@));
    s
}

/// Writes an allocation as text.
pub fn format_output(output: &Output) -> (r: String)
    ensures
        r@ == output_text(output@),
{
    let mut s = String::new();
    let ghost given = assignment_views(output.assignments@);
    let mut i: usize = 0;
    assert(given.subrange(0, 0) =~= Seq::<Option<AssignmentView>>::empty());
    assert(s@ =~= assignments_text(given.subrange(0, 0)));
    while i < output.assignments.len()
        invariant
            i <= output.assignments.len(),
            given == assignment_views(output.assignments@),
            s@ == assignments_text(given.subrange(0, i as int)),
        decreases output.assignments.len() - i,
    {
        let ghost before = s@;
        proof {
            assert(given.subrange(0, i + 1).drop_last() =~= given.subrange(0, i as int));
            assert(given.subrange(0, i + 1).last() == given[i as int]);
        }
        match &output.assignments[i] {
            Some(a) => {
                s.append(a.temp.as_str());
                s.append(" -> ");
                s.append(a.register.as_str());
                s.push('\n');
                assert(s@ =~= before + assignment_text(a@) + seq!['\n']);
            },
            None => {
                s.push('\n');
                assert(s@ =~= before + Seq::<char>::empty() + seq!['\n']);
            },
        }
        i += 1;
    }
    assert(given.subrange(0, i as int) =~= given);
    let ghost head = s@;
    let ghost spilled = names(output.spillover@);
    let mut j: usize = 0;
    assert(spilled.subrange(0, 0) =~= Seq::<Seq<char>>::empty());
    assert(s@ =~= head + spillover_text(spilled.subrange(0, 0)));
    while j < output.spillover.len()
        invariant
            j <= output.spillover.len(),
            spilled == names(output.spillover@),
            s@ == head + spillover_text(spilled.subrange(0, j as int)),
        decreases output.spillover.len() - j,
    {
        let ghost before = s@;
        proof {
            assert(spilled.subrange(0, j + 1).drop_last() =~= spilled.subrange(0, j as int));
            assert(spilled.subrange(0, j + 1).last() == spilled[j as int]);
        }
        s.append("spill ");
        s.append(output.spillover[j].as_str());
        s.push('\n');
        assert(s@ =~= head + (spillover_text(spilled.subrange(0, j as int)) + "spill "@
            + spilled[j as int] + seq!['\n']));
        j += 1;
    }
    assert(spilled.subrange(0, j as int) =~= spilled);
    s
}

} // verus!
