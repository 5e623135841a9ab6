use c0_backend::facts::{clone_dependencies, Dependency};
use c0_backend::liveness::{collect_uses, compute_liveness};
use c0_backend::text::parse_dependencies;
use std::collections::BTreeSet;

fn names(list: &[&str]) -> Vec<String> {
    list.iter().map(|s| s.to_string()).collect()
}

fn line(line: usize, defines: Option<&str>, uses: &[&str], successors: &[usize]) -> Dependency {
    Dependency::new(
        names(uses),
        defines.map(|s| s.to_string()),
        false,
        line,
        successors.to_vec(),
    )
}

fn set(v: &[String]) -> BTreeSet<String> {
    v.iter().cloned().collect()
}

/// Whether both liveness equations hold on every line.
fn equations_hold(dependencies: &[Dependency]) -> bool {
    dependencies.iter().all(|d| {
        let mut live_in = set(&d.uses);
        for t in &d.live_out {
            if d.defines.as_ref() != Some(t) {
                live_in.insert(t.clone());
            }
        }
        let mut live_out = BTreeSet::new();
        for &s in &d.successors {
            live_out.extend(dependencies[s].live_in.iter().cloned());
        }
        live_in == set(&d.live_in) && live_out == set(&d.live_out)
    })
}

#[test]
fn liveness_of_straight_line_code() {
    let mut lines = vec![
        line(0, Some("a"), &[], &[1]),
        line(1, Some("b"), &[], &[2]),
        line(2, Some("c"), &["a", "b"], &[3]),
        line(3, Some("%eax"), &["c"], &[]),
    ];
    compute_liveness(&mut lines);
    assert!(equations_hold(&lines));
    assert_eq!(lines[0].live_in, names(&[]));
    assert_eq!(lines[0].live_out, names(&["a"]));
    assert_eq!(lines[1].live_in, names(&["a"]));
    assert_eq!(lines[1].live_out, names(&["a", "b"]));
    assert_eq!(lines[2].live_in, names(&["a", "b"]));
    assert_eq!(lines[2].live_out, names(&["c"]));
    assert_eq!(lines[3].live_in, names(&["c"]));
    assert_eq!(lines[3].live_out, names(&[]));
    // What the lines read and write is as it was.
    assert_eq!(lines[2].uses, names(&["a", "b"]));
    assert_eq!(lines[2].defines, Some("c".to_string()));
    assert_eq!(lines[2].successors, vec![3]);
    assert_eq!(lines[2].line, 2);
}

#[test]
fn liveness_of_a_branch() {
    // 0: c <- ..; 1: branch on c to 2 or 3; 2: x <- a; 3: x <- b; 4: ret x
    let mut lines = vec![
        line(0, Some("c"), &[], &[1]),
        line(1, None, &["c"], &[2, 3]),
        line(2, Some("x"), &["a"], &[4]),
        line(3, Some("x"), &["b"], &[4]),
        line(4, Some("%eax"), &["x"], &[]),
    ];
    compute_liveness(&mut lines);
    assert!(equations_hold(&lines));
    assert_eq!(set(&lines[1].live_out), set(&names(&["a", "b"])));
    assert_eq!(set(&lines[1].live_in), set(&names(&["a", "b", "c"])));
    assert_eq!(lines[2].live_in, names(&["a"]));
    assert_eq!(lines[3].live_in, names(&["b"]));
    assert_eq!(lines[2].live_out, names(&["x"]));
    assert_eq!(set(&lines[0].live_in), set(&names(&["a", "b"])));
}

#[test]
fn liveness_across_a_back_edge() {
    // 0: i <- 0
    // 1: s <- 0
    // 2: t <- i < n      (top of the loop)
    // 3: branch on t to 4 or 7
    // 4: s <- s + i
    // 5: i <- i + 1
    // 6: jump to 2
    // 7: %eax <- s
    let mut lines = vec![
        line(0, Some("i"), &[], &[1]),
        line(1, Some("s"), &[], &[2]),
        line(2, Some("t"), &["i", "n"], &[3]),
        line(3, None, &["t"], &[4, 7]),
        line(4, Some("s"), &["s", "i"], &[5]),
        line(5, Some("i"), &["i"], &[6]),
        line(6, None, &[], &[2]),
        line(7, Some("%eax"), &["s"], &[]),
    ];
    compute_liveness(&mut lines);
    assert!(equations_hold(&lines));
    // `n` and `s` are live around the whole loop, which one pass from the
    // last line to the first does not see.
    assert_eq!(set(&lines[6].live_out), set(&names(&["i", "n", "s"])));
    assert_eq!(set(&lines[6].live_in), set(&names(&["i", "n", "s"])));
    assert_eq!(set(&lines[5].live_out), set(&names(&["i", "n", "s"])));
    assert_eq!(set(&lines[4].live_in), set(&names(&["i", "n", "s"])));
    assert_eq!(set(&lines[3].live_out), set(&names(&["i", "n", "s"])));
    assert_eq!(set(&lines[2].live_out), set(&names(&["i", "n", "s", "t"])));
    assert_eq!(set(&lines[7].live_in), set(&names(&["s"])));
    assert_eq!(set(&lines[0].live_in), set(&names(&["n"])));
    // The order is that of first reading: i, n, t, s.
    assert_eq!(lines[2].live_out, names(&["i", "n", "t", "s"]));
    assert_eq!(collect_uses(&lines), names(&["i", "n", "t", "s"]));
}

#[test]
fn liveness_is_the_least_solution() {
    // A loop that reads nothing keeps nothing alive, though the equations
    // would also hold with any name live all around it.
    let mut lines = vec![line(0, None, &[], &[1]), line(1, None, &[], &[0])];
    compute_liveness(&mut lines);
    assert!(lines.iter().all(|d| d.live_in.is_empty() && d.live_out.is_empty()));
    let mut stale = vec![line(0, None, &[], &[1]), line(1, None, &[], &[0])];
    for d in stale.iter_mut() {
        d.live_in = names(&["ghost"]);
        d.live_out = names(&["ghost"]);
    }
    assert!(equations_hold(&stale));
    compute_liveness(&mut stale);
    assert!(stale.iter().all(|d| d.live_in.is_empty() && d.live_out.is_empty()));
}

#[test]
fn liveness_of_a_self_loop() {
    let mut lines = vec![line(0, Some("x"), &["x", "y"], &[0, 1]), line(1, None, &[], &[])];
    compute_liveness(&mut lines);
    assert!(equations_hold(&lines));
    assert_eq!(lines[0].live_in, names(&["x", "y"]));
    assert_eq!(lines[0].live_out, names(&["x", "y"]));
    assert_eq!(lines[1].live_in, names(&[]));
}

#[test]
fn liveness_of_no_lines() {
    let mut lines: Vec<Dependency> = vec![];
    compute_liveness(&mut lines);
    assert!(lines.is_empty());
}

#[test]
fn repeated_uses_count_once() {
    let mut lines = vec![line(0, Some("a"), &[], &[1]), line(1, Some("b"), &["a", "a"], &[])];
    compute_liveness(&mut lines);
    assert_eq!(lines[1].live_in, names(&["a"]));
    assert_eq!(lines[0].live_out, names(&["a"]));
    assert_eq!(collect_uses(&lines), names(&["a"]));
}

#[test]
fn parsed_facts_satisfy_the_equations() {
    let text = "L1: a <- 0\nL2: b <- 1\nL3: c <- a + b\nL4: d <- b + c\nL5: e <- a + d\nL6: %eax <- e + c\n";
    let parsed = parse_dependencies(text).unwrap();
    assert!(equations_hold(&parsed));
    assert_eq!(parsed[3].live_out, names(&["a", "c", "d"]));
    assert_eq!(parsed[5].live_out, names(&[]));
    let copy = clone_dependencies(&parsed);
    assert_eq!(copy, parsed);
}
