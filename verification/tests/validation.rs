use c0_backend::allocator::{allocate_registers, allocate_with_budget};
use c0_backend::facts::Dependency;
use c0_backend::liveness::compute_liveness;
use c0_backend::validation::{successors_are_in_range, validate, AllocationError};

fn names(list: &[&str]) -> Vec<String> {
    list.iter().map(|s| s.to_string()).collect()
}

fn line(line: usize, defines: Option<&str>, uses: &[&str], successors: &[usize]) -> Dependency {
    Dependency::new(
        names(uses),
        defines.map(|s| s.to_string()),
        false,
        line,
        successors.to_vec(),
    )
}

fn a_move(line: usize, defines: &str, uses: &[&str], successors: &[usize]) -> Dependency {
    Dependency::new(names(uses), Some(defines.to_string()), true, line, successors.to_vec())
}

#[test]
fn sound_facts_are_accepted() {
    let lines = vec![
        line(0, Some("a"), &[], &[1]),
        a_move(1, "b", &["a"], &[2]),
        line(2, Some("%eax"), &["a", "b"], &[]),
    ];
    assert_eq!(validate(&lines), Ok(()));
    assert!(allocate_registers(&lines).is_ok());
    assert_eq!(validate(&[].to_vec()), Ok(()));
}

#[test]
fn two_defines_on_one_line_are_refused() {
    let lines = vec![
        line(0, Some("a"), &[], &[1]),
        line(1, Some("b"), &[], &[2]),
        line(1, Some("c"), &[], &[]),
    ];
    assert_eq!(validate(&lines), Err(AllocationError::MultipleDefines { line: 1 }));
    assert_eq!(
        allocate_registers(&lines),
        Err(AllocationError::MultipleDefines { line: 1 })
    );
}

#[test]
fn a_line_out_of_place_is_refused() {
    let lines = vec![line(0, Some("a"), &[], &[1]), line(5, Some("b"), &[], &[])];
    assert_eq!(validate(&lines), Err(AllocationError::MisplacedLine { line: 1 }));
    // The same line twice, where one of the two writes nothing.
    let lines = vec![line(0, None, &[], &[1]), line(0, Some("b"), &[], &[])];
    assert_eq!(validate(&lines), Err(AllocationError::MisplacedLine { line: 1 }));
    let lines = vec![line(30, Some("a"), &[], &[])];
    assert_eq!(validate(&lines), Err(AllocationError::MisplacedLine { line: 0 }));
}

#[test]
fn a_successor_out_of_range_is_refused() {
    let lines = vec![line(0, Some("a"), &[], &[1]), line(1, Some("b"), &["a"], &[2])];
    assert_eq!(validate(&lines), Err(AllocationError::BadSuccessor { line: 1 }));
    assert_eq!(
        allocate_with_budget(4, &lines),
        Err(AllocationError::BadSuccessor { line: 1 })
    );
}

#[test]
fn a_move_without_one_source_is_refused() {
    let lines = vec![line(0, Some("a"), &[], &[1]), a_move(1, "b", &[], &[])];
    assert_eq!(validate(&lines), Err(AllocationError::MalformedMove { line: 1 }));
    let lines = vec![
        line(0, Some("a"), &[], &[1]),
        line(1, Some("c"), &[], &[2]),
        a_move(2, "b", &["a", "c"], &[]),
    ];
    assert_eq!(validate(&lines), Err(AllocationError::MalformedMove { line: 2 }));
    // The same source twice is one source.
    let lines = vec![line(0, Some("a"), &[], &[1]), a_move(1, "b", &["a", "a"], &[])];
    assert_eq!(validate(&lines), Ok(()));
}

#[test]
fn a_read_without_a_definition_is_refused() {
    let lines = vec![line(0, Some("a"), &[], &[1]), line(1, Some("b"), &["a", "zz"], &[])];
    assert_eq!(validate(&lines), Err(AllocationError::UndefinedTemporary { line: 1 }));
    // A definition that comes after the read does not reach it.
    let lines = vec![line(0, Some("b"), &["a"], &[1]), line(1, Some("a"), &[], &[])];
    assert_eq!(validate(&lines), Err(AllocationError::UndefinedTemporary { line: 0 }));
    // A line does not reach itself unless it is its own successor.
    let lines = vec![line(0, Some("a"), &["a"], &[])];
    assert_eq!(validate(&lines), Err(AllocationError::UndefinedTemporary { line: 0 }));
    let lines = vec![line(0, Some("a"), &["a"], &[0])];
    assert_eq!(validate(&lines), Ok(()));
}

#[test]
fn a_definition_reaches_around_a_loop() {
    // 0: jump to 2; 1: x <- .. (then to 2); 2: y <- x (then to 1 or 3); 3: end
    let lines = vec![
        line(0, None, &[], &[2]),
        line(1, Some("x"), &[], &[2]),
        line(2, Some("y"), &["x"], &[1, 3]),
        line(3, None, &["y"], &[]),
    ];
    assert_eq!(validate(&lines), Ok(()));
    // Without the way back, the definition reaches nothing that reads it.
    let lines = vec![
        line(0, None, &[], &[2]),
        line(1, Some("x"), &[], &[3]),
        line(2, Some("y"), &["x"], &[3]),
        line(3, None, &["y"], &[]),
    ];
    assert_eq!(validate(&lines), Err(AllocationError::UndefinedTemporary { line: 2 }));
}

#[test]
fn the_first_fault_is_reported() {
    // Line 0 reads an undefined name, line 1 is out of place: lines are checked first.
    let lines = vec![line(0, Some("a"), &["zz"], &[1]), line(7, Some("b"), &[], &[])];
    assert_eq!(validate(&lines), Err(AllocationError::MisplacedLine { line: 1 }));
    // Of two faults on one line the numbering comes first, then the successors.
    let lines = vec![a_move(3, "a", &[], &[9])];
    assert_eq!(validate(&lines), Err(AllocationError::MisplacedLine { line: 0 }));
    let lines = vec![a_move(0, "a", &[], &[9])];
    assert_eq!(validate(&lines), Err(AllocationError::BadSuccessor { line: 0 }));
}

#[test]
fn liveness_that_the_facts_carry_is_not_trusted() {
    let mut lines = vec![
        line(0, Some("a"), &[], &[1]),
        line(1, Some("b"), &[], &[2]),
        line(2, Some("%eax"), &["a", "b"], &[]),
    ];
    let honest = allocate_with_budget(2, &lines).unwrap();
    lines[1].live_out = vec![];
    lines[0].live_out = names(&["nonsense"]);
    assert_eq!(allocate_with_budget(2, &lines).unwrap(), honest);
    assert_eq!(honest.assignments[0].as_ref().unwrap().register, "%eax");
    assert_eq!(honest.assignments[1].as_ref().unwrap().register, "%edx");
}

#[test]
fn successors_are_looked_at_before_liveness() {
    let mut lines = vec![line(0, Some("a"), &[], &[1]), line(1, Some("b"), &["a"], &[0, 1])];
    assert!(successors_are_in_range(&lines));
    compute_liveness(&mut lines);
    assert_eq!(lines[0].live_out, names(&["a"]));
    let lines = vec![line(0, Some("a"), &[], &[1]), line(1, Some("b"), &["a"], &[0, 2])];
    assert!(!successors_are_in_range(&lines));
    assert!(successors_are_in_range(&vec![]));
}
