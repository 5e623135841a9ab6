use c0_backend::allocator::{_allocate_registers, allocate_registers, allocate_with_budget};
use c0_backend::coloring::{assign_colors, elimination_order_of};
use c0_backend::facts::Dependency;
use c0_backend::interference::create_interference_graph;
use c0_backend::output::{Assignment, Output};
use c0_backend::text::parse_dependencies;
use std::collections::HashMap;

fn name(s: &str) -> String {
    s.to_string()
}

fn names(list: &[&str]) -> Vec<String> {
    list.iter().map(|s| s.to_string()).collect()
}

/// Checks an output against the facts: every name that a line writes has a
/// register, no name takes the register of a name that is live after the
/// line, and no more than `k` names hold a register at once.
fn validate_output(k: usize, dependencies: &[Dependency], output: &Output) -> bool {
    let mut defined_registers: HashMap<String, String> = HashMap::new();
    for (i, dependency) in dependencies.iter().enumerate() {
        if let Some(temp) = &dependency.defines {
            if let Some(assignment) = &output.assignments[i] {
                assert!(assignment.temp == *temp, "Assignment mismatch at line {}", i);
                let assigned_register = &assignment.register;
                for live_temp in &dependency.live_out {
                    if let Some(live_register) = defined_registers.get(live_temp) {
                        if live_register == assigned_register {
                            println!(
                                "Conflict: Register {} is used by both {} and {} at line {}",
                                assigned_register, live_temp, temp, i
                            );
                            return false;
                        }
                    }
                }
                defined_registers.insert(temp.clone(), assigned_register.clone());
            } else {
                println!("Temp {} defined at line {} is not assigned a register", temp, i);
                return false;
            }
        }
        defined_registers.retain(|temp, _| dependency.live_out.contains(temp));
        if defined_registers.len() > k {
            println!("Exceeded register limit ({} registers) at line {}", k, i);
            return false;
        }
    }
    true
}

fn check_program(k: usize, text: &str) {
    let dependencies = parse_dependencies(text).unwrap();
    let output = _allocate_registers(k, &dependencies);
    assert!(validate_output(k, &dependencies, &output), "Output failed validation");
}

// Interference graph:
//
//      x1 - x2 - x3 - x4   x5  %eax
//
const SIMPLE_LINEAR: &str = r#"
            L1: x1 <- 1
            L2: x2 <- 1
            L3: x3 <- x2 + x1
            L4: x4 <- x3 + x2
            L5: x5 <- x4 + x3
            L6: %eax <- x5
            "#;

#[test]
fn simple_linear_interference() {
    check_program(4, SIMPLE_LINEAR);
}

#[test]
fn chordal_graph_temp_b_reuse() {
    check_program(
        8,
        r#"
            L1: a <- 0
            L2: b <- 1
            L3: c <- a + b
            L4: d <- b + c
            L5: a <- c + d
            L6: bb <- 7
            L7: d <- a + bb
            L8: %eax <- bb + d
            "#,
    );
}

#[test]
fn range_split_with_temp_reuse() {
    check_program(
        8,
        r#"
            L1: a <- 0
            L2: b <- 1
            L3: c <- a + b
            L4: d <- b + c
            L5: aa <- c + d
            L6: bb <- 7
            L7: dd <- aa + bb
            L8: %eax <- bb + dd
            "#,
    );
}

const DISCONNECTED: &str = r#"
            L1: a <- 0
            L2: b <- 1
            L3: c <- a + b
            L4: x <- 2
            L5: y <- 3
            L6: z <- x + y
            L7: %eax <- c + z
            "#;

#[test]
fn disconnected_graph_allocation() {
    check_program(8, DISCONNECTED);
}

#[test]
fn high_pressure_register_allocation() {
    check_program(
        5,
        r#"
            L1: a <- 0
            L2: b <- 1
            L3: c <- a + b
            L4: d <- b + c
            L5: e <- c + d
            L6: f <- d + e
            L7: g <- e + f
            L8: h <- f + g
            L9: %eax <- g + h
            "#,
    );
}

#[test]
fn move_coalescing_scenario() {
    check_program(
        8,
        r#"
            L1: a <- 0
            L2: b <- a
            L3: c <- b + 1
            L4: d <- b + c
            L5: e <- c + d
            L6: f <- d + e
            L7: %eax <- f
            "#,
    );
}

const NINE_TEMPORARIES: &str = r#"
            L1: a <- 0
            L2: b <- 1
            L3: c <- a + b
            L4: d <- b + c
            L5: e <- c + d
            L6: f <- d + e
            L7: g <- e + f
            L8: h <- f + g
            L9: %eax <- h
            "#;

#[test]
fn spillover_limited_registers() {
    check_program(5, NINE_TEMPORARIES);
}

const TRIANGULAR: &str = r#"
            L1: a <- 0
            L2: b <- 1
            L3: c <- a + b
            L4: d <- b + c
            L5: e <- a + d
            L6: %eax <- e + c
            "#;

#[test]
fn triangular_interference() {
    check_program(8, TRIANGULAR);
}

fn given(temp: &str, register: &str) -> Option<Assignment> {
    Some(Assignment { temp: name(temp), register: name(register) })
}

#[test]
fn test_case_simple() {
    let dependencies = vec![
        Dependency {
            uses: names(&["%t9", "%t10"]),
            defines: Some(name("%t11")),
            live_out: names(&["%t11"]),
            live_in: names(&["%t9", "%t10"]),
            is_move: false,
            line: 30,
            successors: vec![1],
        },
        Dependency {
            uses: names(&["%t11"]),
            defines: Some(name("%eax")),
            live_out: vec![],
            live_in: names(&["%t11"]),
            is_move: true,
            line: 31,
            successors: vec![],
        },
    ];
    let output = _allocate_registers(8, &dependencies);
    assert!(validate_output(8, &dependencies, &output));
    assert_eq!(
        output,
        Output {
            assignments: vec![given("%t11", "%eax"), given("%eax", "%eax")],
            spillover: vec![],
        }
    );
}

#[test]
fn test_case_spilling() {
    let dependencies = vec![
        Dependency {
            uses: names(&["%t1"]),
            defines: Some(name("%t2")),
            live_out: names(&["%t2"]),
            live_in: names(&["%t1"]),
            is_move: false,
            line: 10,
            successors: vec![1],
        },
        Dependency {
            uses: names(&["%t2"]),
            defines: Some(name("%eax")),
            live_out: vec![],
            live_in: names(&["%t2"]),
            is_move: true,
            line: 11,
            successors: vec![],
        },
    ];
    let output = _allocate_registers(1, &dependencies);
    assert!(validate_output(1, &dependencies, &output));
    // One register serves both: `%t2` is dead where `%eax` is written.
    assert_eq!(
        output,
        Output {
            assignments: vec![given("%t2", "%eax"), given("%eax", "%eax")],
            spillover: vec![],
        }
    );
}

#[test]
fn one_register_for_two_names_that_are_live_together() {
    // `%t2` and `%t1` are set against each other, and `%t1` comes first.
    let dependencies = vec![
        Dependency {
            uses: vec![],
            defines: Some(name("%t1")),
            live_out: names(&["%t1"]),
            live_in: vec![],
            is_move: false,
            line: 0,
            successors: vec![1],
        },
        Dependency {
            uses: vec![],
            defines: Some(name("%t2")),
            live_out: names(&["%t1", "%t2"]),
            live_in: names(&["%t1"]),
            is_move: false,
            line: 1,
            successors: vec![2],
        },
        Dependency {
            uses: names(&["%t1", "%t2"]),
            defines: Some(name("%eax")),
            live_out: vec![],
            live_in: names(&["%t1", "%t2"]),
            is_move: false,
            line: 2,
            successors: vec![],
        },
    ];
    let output = _allocate_registers(1, &dependencies);
    assert_eq!(
        output,
        Output {
            assignments: vec![given("%t1", "%eax"), None, given("%eax", "%eax")],
            spillover: names(&["%t2"]),
        }
    );
}

#[test]
fn four_lines_with_two_registers() {
    let text = "L1: t1 <- 1\nL2: t2 <- 1\nL3: t3 <- t1 + t2\nL4: %eax <- t3\n";
    let parsed = parse_dependencies(text).unwrap();
    // `t1` is live after the line that writes `t2`, so the two are set
    // against each other; `t3` is written when both are dead.
    let graph = create_interference_graph(&parsed);
    assert_eq!(graph.node_names(), names(&["t1", "t2", "t3", "%eax"]));
    assert!(graph.has_edge(&name("t1"), &name("t2")));
    assert!(graph.has_edge(&name("t2"), &name("t1")));
    assert!(!graph.has_edge(&name("t1"), &name("t3")));
    assert!(!graph.has_edge(&name("t2"), &name("t3")));
    assert!(!graph.has_edge(&name("t3"), &name("%eax")));
    assert_eq!(assign_colors(&graph, 2), vec![0, 1, 0, 0]);

    let output = allocate_with_budget(2, &parsed).unwrap();
    assert_eq!(
        output,
        Output {
            assignments: vec![
                given("t1", "%eax"),
                given("t2", "%edx"),
                given("t3", "%eax"),
                given("%eax", "%eax"),
            ],
            spillover: vec![],
        }
    );
    assert!(validate_output(2, &parsed, &output));
}

#[test]
fn nine_temporaries_with_two_registers() {
    let parsed = parse_dependencies(NINE_TEMPORARIES).unwrap();
    let output = allocate_with_budget(2, &parsed).unwrap();
    // The temporaries die early enough for two registers: no spill, and
    // the attempt with the whole budget is the one that counts.
    assert!(output.spillover.is_empty());
    assert_eq!(output, _allocate_registers(2, &parsed));
    let registers: Vec<String> =
        output.assignments.iter().map(|a| a.as_ref().unwrap().register.clone()).collect();
    assert_eq!(
        registers,
        names(&["%eax", "%edx", "%eax", "%edx", "%eax", "%edx", "%eax", "%eax", "%eax"])
    );
    assert!(validate_output(2, &parsed, &output));
}

#[test]
fn nine_temporaries_with_one_register() {
    let parsed = parse_dependencies(NINE_TEMPORARIES).unwrap();
    let first = _allocate_registers(1, &parsed);
    assert_eq!(first.spillover, names(&["b", "d", "f"]));
    // The budget does not suffice: the attempt with one register less is
    // the one that counts, whatever it spills.
    let output = allocate_with_budget(1, &parsed).unwrap();
    assert!(!output.spillover.is_empty());
    assert_eq!(output, _allocate_registers(0, &parsed));
    assert_eq!(
        output.spillover,
        names(&["a", "b", "c", "d", "e", "f", "g", "h", "%eax"])
    );
    assert!(output.assignments.iter().all(|a| a.is_none()));
}

#[test]
fn retry_sets_one_register_aside() {
    // Four names that are live together, and three registers.
    let text = "L0: a <- 0\nL1: b <- 1\nL2: c <- 2\nL3: d <- 3\nL4: e <- a + b\nL5: f <- c + d\nL6: %eax <- e + f\n";
    let parsed = parse_dependencies(text).unwrap();
    let first = _allocate_registers(3, &parsed);
    assert_eq!(first.spillover, names(&["d"]));
    let output = allocate_with_budget(3, &parsed).unwrap();
    assert_eq!(output, _allocate_registers(2, &parsed));
    assert_eq!(output.spillover, names(&["c", "d"]));
    for assignment in output.assignments.iter().flatten() {
        assert!(assignment.register == "%eax" || assignment.register == "%edx");
    }
}

#[test]
fn fifteen_registers_suffice() {
    let parsed = parse_dependencies(TRIANGULAR).unwrap();
    let output = allocate_registers(&parsed).unwrap();
    assert_eq!(output, _allocate_registers(15, &parsed));
    assert!(output.spillover.is_empty());
    assert_eq!(
        output.assignments,
        vec![
            given("a", "%eax"),
            given("b", "%edx"),
            given("c", "%ebx"),
            given("d", "%edx"),
            given("e", "%eax"),
            given("%eax", "%eax"),
        ]
    );
}

#[test]
fn sixteen_names_live_together_spill() {
    let mut text = String::new();
    for i in 0..16 {
        text.push_str(&format!("L{}: v{} <- {}\n", i, i, i));
    }
    // Reads every name, so that all are live together.
    let mut line = 16;
    text.push_str(&format!("L{}: s <- v0 + v1\n", line));
    for i in 2..16 {
        line += 1;
        text.push_str(&format!("L{}: s <- s + v{}\n", line, i));
    }
    let parsed = parse_dependencies(&text).unwrap();
    let first = _allocate_registers(15, &parsed);
    assert_eq!(first.spillover, names(&["v15"]));
    let output = allocate_registers(&parsed).unwrap();
    assert_eq!(output, _allocate_registers(14, &parsed));
    assert_eq!(output.spillover, names(&["v14", "v15"]));
}

#[test]
fn every_written_name_is_covered_once() {
    for (k, text) in [(1, NINE_TEMPORARIES), (2, TRIANGULAR), (3, DISCONNECTED), (0, SIMPLE_LINEAR)] {
        let parsed = parse_dependencies(text).unwrap();
        let output = _allocate_registers(k, &parsed);
        assert_eq!(output.assignments.len(), parsed.len());
        for (i, dependency) in parsed.iter().enumerate() {
            let temp = dependency.defines.as_ref().unwrap();
            let assigned = output.assignments[i].is_some();
            let spilled = output.spillover.contains(temp);
            assert!(assigned != spilled, "{} at line {}", temp, i);
            if let Some(assignment) = &output.assignments[i] {
                assert_eq!(&assignment.temp, temp);
            }
        }
        let mut seen = output.spillover.clone();
        seen.sort();
        seen.dedup();
        assert_eq!(seen.len(), output.spillover.len());
    }
}

#[test]
fn no_line_holds_more_registers_than_the_budget() {
    for (k, text) in [(1, NINE_TEMPORARIES), (2, TRIANGULAR), (3, DISCONNECTED), (2, SIMPLE_LINEAR)] {
        let parsed = parse_dependencies(text).unwrap();
        let output = _allocate_registers(k, &parsed);
        let mut register_of: HashMap<String, String> = HashMap::new();
        for assignment in output.assignments.iter().flatten() {
            register_of.insert(assignment.temp.clone(), assignment.register.clone());
        }
        for dependency in &parsed {
            let mut held: Vec<&String> =
                dependency.live_out.iter().filter_map(|t| register_of.get(t)).collect();
            held.sort();
            held.dedup();
            assert!(held.len() <= k);
        }
    }
}

#[test]
fn neighbours_never_share_a_register() {
    for (k, text) in [(1, NINE_TEMPORARIES), (2, TRIANGULAR), (8, TRIANGULAR), (3, DISCONNECTED)] {
        let parsed = parse_dependencies(text).unwrap();
        let graph = create_interference_graph(&parsed);
        let colors = assign_colors(&graph, k);
        let nodes = graph.node_names();
        for a in 0..nodes.len() {
            for b in 0..nodes.len() {
                if graph.has_edge(&nodes[a], &nodes[b]) && colors[a] < k && colors[b] < k {
                    assert_ne!(colors[a], colors[b]);
                }
            }
        }
    }
}

#[test]
fn a_move_sets_nothing_against_its_source() {
    // `a` is live after the move, and still shares a register with `b`.
    let text = "L0: a <- 0\nL1: b <- a\nL2: c <- a + b\nL3: %eax <- c\n";
    let parsed = parse_dependencies(text).unwrap();
    assert!(parsed[1].is_move);
    assert_eq!(parsed[1].live_out, names(&["a", "b"]));
    let graph = create_interference_graph(&parsed);
    assert!(!graph.has_edge(&name("a"), &name("b")));
    let output = allocate_with_budget(2, &parsed).unwrap();
    assert_eq!(output.assignments[0], given("a", "%eax"));
    assert_eq!(output.assignments[1], given("b", "%eax"));

    // With one register the two are live together and hold it together.
    let output = _allocate_registers(1, &parsed);
    assert_eq!(output.assignments[0], given("a", "%eax"));
    assert_eq!(output.assignments[1], given("b", "%eax"));
    assert_eq!(parsed[1].live_out.len(), 2);
    assert!(output.spillover.is_empty());

    // The same line as a computation sets the two against each other.
    let text = "L0: a <- 0\nL1: b <- a + 1\nL2: c <- a + b\nL3: %eax <- c\n";
    let parsed = parse_dependencies(text).unwrap();
    assert!(!parsed[1].is_move);
    let graph = create_interference_graph(&parsed);
    assert!(graph.has_edge(&name("a"), &name("b")));
}

/// The size of the largest set of nodes that are neighbours of one another.
fn clique_number(text: &str) -> usize {
    let parsed = parse_dependencies(text).unwrap();
    let graph = create_interference_graph(&parsed);
    let nodes = graph.node_names();
    let mut best = 0;
    for subset in 0u32..(1 << nodes.len()) {
        let members: Vec<usize> = (0..nodes.len()).filter(|i| subset & (1 << i) != 0).collect();
        let clique = members
            .iter()
            .all(|&a| members.iter().all(|&b| a == b || graph.has_edge(&nodes[a], &nodes[b])));
        if clique && members.len() > best {
            best = members.len();
        }
    }
    best
}

fn colors_used(text: &str, k: usize) -> usize {
    let parsed = parse_dependencies(text).unwrap();
    let graph = create_interference_graph(&parsed);
    let mut colors = assign_colors(&graph, k);
    colors.sort();
    colors.dedup();
    colors.len()
}

#[test]
fn colors_equal_clique_number_on_a_triangle() {
    assert_eq!(clique_number(TRIANGULAR), 3);
    assert_eq!(colors_used(TRIANGULAR, 8), 3);
}

#[test]
fn colors_equal_clique_number_on_a_chain() {
    assert_eq!(clique_number(SIMPLE_LINEAR), 2);
    assert_eq!(colors_used(SIMPLE_LINEAR, 8), 2);
    assert_eq!(clique_number(NINE_TEMPORARIES), 2);
    assert_eq!(colors_used(NINE_TEMPORARIES, 8), 2);
}

#[test]
fn colors_equal_clique_number_on_disconnected_parts() {
    assert_eq!(clique_number(DISCONNECTED), 3);
    assert_eq!(colors_used(DISCONNECTED, 8), 3);
}

#[test]
fn elimination_order_is_the_search_backwards() {
    let parsed = parse_dependencies(TRIANGULAR).unwrap();
    let graph = create_interference_graph(&parsed);
    assert_eq!(graph.node_names(), names(&["a", "b", "c", "d", "e", "%eax"]));
    // The search picks a, b, c, d, e, %eax.
    assert_eq!(elimination_order_of(&graph), vec![5, 4, 3, 2, 1, 0]);

    // A star: the centre enters last and is picked second.
    let text = "L0: x <- 0\nL1: y <- 1\nL2: z <- 2\nL3: m <- 3\nL4: n <- x + y\nL5: n <- z + m\n";
    let parsed = parse_dependencies(text).unwrap();
    let graph = create_interference_graph(&parsed);
    assert_eq!(graph.node_names(), names(&["x", "y", "z", "m", "n"]));
    // x first; then y, z, m each have one picked neighbour and n has none.
    assert_eq!(elimination_order_of(&graph), vec![4, 3, 2, 1, 0]);
}

#[test]
fn hardware_registers_keep_their_colors() {
    // `%edx` is written while `q` is live: `q` must stay clear of colour 1.
    let text = "L0: a <- 6\nL1: b <- 3\nL2: q <- a + b\nL3: %edx <- a + b\nL4: %eax <- q + %edx\n";
    let parsed = parse_dependencies(text).unwrap();
    let graph = create_interference_graph(&parsed);
    let nodes = graph.node_names();
    let colors = assign_colors(&graph, 4);
    let color_of = |n: &str| colors[nodes.iter().position(|x| x == n).unwrap()];
    assert_eq!(color_of("%edx"), 1);
    assert_eq!(color_of("%eax"), 0);
    assert!(graph.has_edge(&name("%edx"), &name("q")));
    assert_ne!(color_of("q"), 1);
    let output = allocate_with_budget(4, &parsed).unwrap();
    assert_eq!(output.assignments[3], given("%edx", "%edx"));
    assert_eq!(output.assignments[4], given("%eax", "%eax"));
}

#[test]
fn an_isolated_name_is_a_node() {
    let text = "L0: lonely <- 5\n";
    let parsed = parse_dependencies(text).unwrap();
    let graph = create_interference_graph(&parsed);
    assert_eq!(graph.node_count(), 1);
    assert_eq!(graph.node_names(), names(&["lonely"]));
    assert_eq!(graph.index_of(&name("lonely")), Some(0));
    assert_eq!(graph.index_of(&name("%eax")), None);
    assert_eq!(assign_colors(&graph, 3), vec![0]);
    assert_eq!(assign_colors(&graph, 0), vec![0]);
}

#[test]
fn the_search_order_is_perfect_on_chordal_graphs() {
    for text in [TRIANGULAR, SIMPLE_LINEAR, DISCONNECTED, NINE_TEMPORARIES] {
        let parsed = parse_dependencies(text).unwrap();
        let graph = create_interference_graph(&parsed);
        let nodes = graph.node_names();
        let mut turns = elimination_order_of(&graph);
        turns.reverse();
        let colors = assign_colors(&graph, 8);
        for j in 0..turns.len() {
            let before: Vec<usize> = (0..j)
                .map(|i| turns[i])
                .filter(|&u| graph.has_edge(&nodes[turns[j]], &nodes[u]))
                .collect();
            // The neighbours that come before a node are neighbours of one another,
            for &a in &before {
                for &b in &before {
                    assert!(a == b || graph.has_edge(&nodes[a], &nodes[b]));
                }
            }
            // and the node has the least colour that none of them has.
            if nodes[turns[j]] != "%eax" {
                assert!(colors[turns[j]] <= before.len());
                for c in 0..colors[turns[j]] {
                    assert!(before.iter().any(|&u| colors[u] == c));
                }
                assert!(before.iter().all(|&u| colors[u] != colors[turns[j]]));
            }
        }
    }
}
