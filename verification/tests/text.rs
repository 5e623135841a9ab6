use c0_backend::chars::{lines_of, has_leading_digit, parse_decimal, to_chars, to_string, trim};
use c0_backend::facts::Dependency;
use c0_backend::allocator::allocate_with_budget;
use c0_backend::output::{Assignment, Output};
use c0_backend::text::{
    dependency_from_captures, format_assignment, format_dependency, format_output,
    parse_dependencies, parse_line, Operands, ParseError,
};

fn names(list: &[&str]) -> Vec<String> {
    list.iter().map(|s| s.to_string()).collect()
}

fn lines(text: &str) -> Vec<String> {
    lines_of(&to_chars(text))
}

#[test]
fn lines_end_at_line_feeds() {
    assert_eq!(lines("a\nb"), names(&["a", "b"]));
    assert_eq!(lines("a\nb\n"), names(&["a", "b"]));
    assert_eq!(lines("a\r\nb\r\n"), names(&["a", "b"]));
    assert_eq!(lines(""), names(&[]));
    assert_eq!(lines("\n"), names(&[""]));
    assert_eq!(lines("\n\n"), names(&["", ""]));
    assert_eq!(lines("a\n\nb"), names(&["a", "", "b"]));
    // A carriage return counts only right before a line feed.
    assert_eq!(lines("a\rb\n"), names(&["a\rb"]));
    assert_eq!(lines("a\r"), names(&["a\r"]));
    assert_eq!(lines("a\r\r\n"), names(&["a\r"]));
    assert_eq!(lines("\r\n"), names(&[""]));
    for text in ["x\ny\r\nz", "one", "\r\n\r\n", "é\nü\n", "a\r"] {
        let expected: Vec<String> = text.lines().map(|l| l.to_string()).collect();
        assert_eq!(lines(text), expected);
    }
}

#[test]
fn characters_and_back() {
    let v = to_chars("héllo");
    assert_eq!(v, vec!['h', 'é', 'l', 'l', 'o']);
    assert_eq!(to_string(&v, 0, 5), "héllo");
    assert_eq!(to_string(&v, 1, 3), "él");
    assert_eq!(to_string(&v, 2, 2), "");
}

#[test]
fn trimming_takes_white_space_from_both_ends() {
    assert_eq!(trim("  a + b \t"), "a + b");
    assert_eq!(trim("a"), "a");
    assert_eq!(trim(""), "");
    assert_eq!(trim(" \n\t "), "");
    assert_eq!(trim("\u{2003}x\u{a0}"), "x");
    assert_eq!(trim("  inner  space  "), "inner  space");
}

#[test]
fn numbers_in_base_ten() {
    assert_eq!(parse_decimal("0"), Some(0));
    assert_eq!(parse_decimal("007"), Some(7));
    assert_eq!(parse_decimal("1234567890"), Some(1234567890));
    assert_eq!(parse_decimal(""), None);
    assert_eq!(parse_decimal("12a"), None);
    assert_eq!(parse_decimal("a12"), None);
    assert_eq!(parse_decimal("-1"), None);
    assert_eq!(parse_decimal("+1"), None);
    assert_eq!(parse_decimal("١٢"), None);
    assert_eq!(parse_decimal(&usize::MAX.to_string()), Some(usize::MAX));
    assert_eq!(parse_decimal("18446744073709551616"), None);
    assert_eq!(parse_decimal("99999999999999999999999999"), None);
    assert!(has_leading_digit("7up"));
    assert!(has_leading_digit("0"));
    assert!(!has_leading_digit(""));
    assert!(!has_leading_digit("x1"));
    assert!(!has_leading_digit("%t1"));
    assert!(!has_leading_digit("١"));
}

#[test]
fn a_computation_reads_its_names() {
    let parsed = parse_dependencies("L1: a <- 0\nL2: b <- 1\nL3: c <- a + b\n").unwrap();
    assert_eq!(parsed.len(), 3);
    assert_eq!(parsed[2].uses, names(&["a", "b"]));
    assert_eq!(parsed[2].defines, Some("c".to_string()));
    assert!(!parsed[2].is_move);
    // A number is read by nobody, and storing one is no move.
    assert_eq!(parsed[0].uses, names(&[]));
    assert!(!parsed[0].is_move);
    // Each fact has its position as its line and leads to the next.
    assert_eq!(parsed[0].line, 0);
    assert_eq!(parsed[2].line, 2);
    assert_eq!(parsed[0].successors, vec![1]);
    assert_eq!(parsed[1].successors, vec![2]);
    assert_eq!(parsed[2].successors, Vec::<usize>::new());
    // Liveness is attached.
    assert_eq!(parsed[0].live_out, names(&["a"]));
    assert_eq!(parsed[1].live_out, names(&["a", "b"]));
    assert_eq!(parsed[2].live_in, names(&["a", "b"]));
}

#[test]
fn operands_that_are_numbers_are_not_read() {
    let parsed = parse_dependencies("L0: b <- 3\nL1: c <- b + 1\nL2: d <- 2 * c\nL3: e <- 4 / 5\n")
        .unwrap();
    assert_eq!(parsed[1].uses, names(&["b"]));
    assert_eq!(parsed[2].uses, names(&["c"]));
    assert_eq!(parsed[3].uses, names(&[]));
    assert!(parsed.iter().all(|d| !d.is_move));
    // The same name on both sides is read once.
    let parsed = parse_dependencies("L0: b <- 3\nL1: c <- b - b\n").unwrap();
    assert_eq!(parsed[1].uses, names(&["b"]));
}

#[test]
fn a_move_reads_its_source() {
    let parsed = parse_dependencies("L0: a <- 9\nL1: %eax <- a   \n").unwrap();
    assert!(parsed[1].is_move);
    assert_eq!(parsed[1].uses, names(&["a"]));
    assert_eq!(parsed[1].defines, Some("%eax".to_string()));
}

#[test]
fn lines_of_another_form_are_passed_over() {
    let text = "\n  // a comment\nL1: a <- 0\nret\n\n   L2: b <- a\nL: c <- a\nL3 d <- a\n";
    let parsed = parse_dependencies(text).unwrap();
    assert_eq!(parsed.len(), 2);
    assert_eq!(parsed[0].defines, Some("a".to_string()));
    assert_eq!(parsed[1].defines, Some("b".to_string()));
    assert_eq!(parsed[1].line, 1);
    assert_eq!(parse_dependencies("").unwrap(), Vec::<Dependency>::new());
    assert_eq!(parse_dependencies("nothing here").unwrap(), Vec::<Dependency>::new());
}

#[test]
fn spacing_is_free() {
    let parsed = parse_dependencies("L1:a<-0\nL2:   b   <-   a*a\nL3: c<-a/b\r\n").unwrap();
    assert_eq!(parsed.len(), 3);
    assert_eq!(parsed[0].defines, Some("a".to_string()));
    assert_eq!(parsed[1].uses, names(&["a"]));
    assert_eq!(parsed[2].uses, names(&["a", "b"]));
    assert_eq!(parsed[2].defines, Some("c".to_string()));
}

#[test]
fn a_line_number_that_does_not_fit_is_refused() {
    assert_eq!(
        parse_dependencies("L1: a <- 0\nL99999999999999999999999: b <- a\n"),
        Err(ParseError::LineNumber { index: 1 })
    );
    assert_eq!(
        parse_dependencies("L٣: a <- 0\n"),
        Err(ParseError::LineNumber { index: 0 })
    );
    assert_eq!(
        parse_line(&"L18446744073709551616: a <- 0".to_string(), 4),
        Err(ParseError::LineNumber { index: 4 })
    );
}

#[test]
fn one_line_at_a_position() {
    let dep = parse_line(&"L12: sum <- left + right".to_string(), 7).unwrap().unwrap();
    assert_eq!(dep.line, 7);
    assert_eq!(dep.defines, Some("sum".to_string()));
    assert_eq!(dep.uses, names(&["left", "right"]));
    assert!(dep.successors.is_empty());
    assert!(dep.live_in.is_empty() && dep.live_out.is_empty());
    assert_eq!(parse_line(&"jmp L3".to_string(), 0), Ok(None));
}

#[test]
fn facts_from_what_the_patterns_found() {
    let target = "t".to_string();
    let both = Some(Operands { left: "a".to_string(), right: "b".to_string() });
    let dep = dependency_from_captures(3, &target, &"a + b".to_string(), &both);
    assert_eq!(dep.uses, names(&["a", "b"]));
    assert_eq!(dep.defines, Some("t".to_string()));
    assert!(!dep.is_move);
    assert_eq!(dep.line, 3);
    let numbers = Some(Operands { left: "1".to_string(), right: "b".to_string() });
    let dep = dependency_from_captures(0, &target, &"1 + b".to_string(), &numbers);
    assert_eq!(dep.uses, names(&["b"]));
    let dep = dependency_from_captures(0, &target, &"source".to_string(), &None);
    assert_eq!(dep.uses, names(&["source"]));
    assert!(dep.is_move);
    let dep = dependency_from_captures(0, &target, &"42".to_string(), &None);
    assert_eq!(dep.uses, names(&[]));
    assert!(!dep.is_move);
    let dep = dependency_from_captures(0, &target, &"".to_string(), &None);
    assert_eq!(dep.uses, names(&[]));
    assert!(!dep.is_move);
}

#[test]
fn facts_as_text() {
    let text = "L1: a <- 0\nL2: b <- a\nL3: c <- a + b\nL4: d <- c * 2\nL5: %eax <- d\n";
    let parsed = parse_dependencies(text).unwrap();
    let written: Vec<String> = parsed.iter().map(format_dependency).collect();
    assert_eq!(
        written,
        names(&["L0: a <- 0", "L1: b <- a", "L2: c <- a + b", "L3: d <- c + 0", "L4: %eax <- d"])
    );
    // What is written reads back as the same facts.
    let again = parse_dependencies(&written.join("\n")).unwrap();
    assert_eq!(again, parsed);
    let mut odd = Dependency::new(names(&["x", "y", "z"]), None, false, 12, vec![]);
    assert_eq!(format_dependency(&odd), "L12: _ <- x + y + z");
    odd.is_move = true;
    odd.uses = names(&["x"]);
    odd.defines = Some("t".to_string());
    assert_eq!(format_dependency(&odd), "L12: t <- x");
}

#[test]
fn allocations_as_text() {
    let assignment = Assignment { temp: "%t1".to_string(), register: "%edx".to_string() };
    assert_eq!(format_assignment(&assignment), "%t1 -> %edx");
    let output = Output {
        assignments: vec![Some(assignment), None, None],
        spillover: names(&["a", "b"]),
    };
    assert_eq!(format_output(&output), "%t1 -> %edx\n\n\nspill a\nspill b\n");
    assert_eq!(format_output(&Output { assignments: vec![], spillover: vec![] }), "");
    let parsed = parse_dependencies("L0: a <- 0\nL1: b <- 1\nL2: %eax <- a + b\n").unwrap();
    let output = allocate_with_budget(1, &parsed).unwrap();
    assert_eq!(format_output(&output), "\n\n\nspill a\nspill b\nspill %eax\n");
    let output = allocate_with_budget(2, &parsed).unwrap();
    assert_eq!(format_output(&output), "a -> %eax\nb -> %edx\n%eax -> %eax\n");
}
