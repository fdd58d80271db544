use csp_engine::constraint::{all_different, check_relation, word_value_of, Relation};
use csp_engine::csp::{range_domain, sorted_union, CSPProblem};
use csp_engine::dsl::{build_isa_problem, n_queens};
use csp_engine::names::{Assignment, DomainMap};
use csp_engine::solve::{solve_mrv, solve_naive, solve_parallel, SolveStats};

fn two_vars_neq(dx: Vec<i64>, dy: Vec<i64>) -> CSPProblem {
    let mut p = CSPProblem::new();
    p.add_variable("x", dx);
    p.add_variable("y", dy);
    p.add_constraint(vec!["x", "y"], "x != y", Relation::NotEqual("x".to_string(), "y".to_string()));
    p
}

fn stats_tuple(s: &SolveStats) -> (u64, u64, u64, u64) {
    (s.nodes_explored, s.solutions_found, s.backtracks, s.pruned_values)
}

fn values_of(sol: &Assignment, names: &[&str]) -> Vec<i64> {
    names.iter().map(|n| sol.get(n).unwrap()).collect()
}

#[test]
fn range_domain_lists_the_range() {
    assert_eq!(range_domain(1, 4), vec![1, 2, 3, 4]);
    assert_eq!(range_domain(0, 0), vec![0]);
    assert!(range_domain(3, 2).is_empty());
}

#[test]
fn new_problem_is_empty() {
    let p = CSPProblem::new();
    assert!(p.variables.is_empty());
    assert_eq!(p.domains.len(), 0);
    assert!(p.constraints.is_empty());
}

#[test]
fn add_variable_records_name_and_domain() {
    let mut p = CSPProblem::new();
    p.add_variable("a", vec![1, 2]);
    p.add_variable("b", vec![3]);
    assert_eq!(p.variables, vec!["a".to_string(), "b".to_string()]);
    assert_eq!(p.domains.get("a"), Some(&vec![1, 2]));
    assert_eq!(p.domains.get("b"), Some(&vec![3]));
    assert_eq!(p.domains.get("c"), None);
}

#[test]
fn add_constraint_keeps_scope_and_name() {
    let p = two_vars_neq(vec![1, 2], vec![1, 2]);
    assert_eq!(p.constraints.len(), 1);
    assert_eq!(p.constraints[0].vars, vec!["x".to_string(), "y".to_string()]);
    assert_eq!(p.constraints[0].name, "x != y");
}

#[test]
fn constraints_for_filters_by_scope() {
    let mut p = two_vars_neq(vec![1], vec![2]);
    p.add_variable("z", vec![3]);
    p.constraints.push(all_different(&["y", "z"]));
    assert_eq!(p.constraints_for("x").len(), 1);
    assert_eq!(p.constraints_for("y").len(), 2);
    assert_eq!(p.constraints_for("z")[0].name, "AllDifferent");
    assert!(p.constraints_for("w").is_empty());
}

#[test]
fn is_consistent_checks_only_fully_assigned_scopes() {
    let p = two_vars_neq(vec![1, 2], vec![1, 2]);
    let mut a = Assignment::new();
    a.insert("x", 1);
    assert!(p.is_consistent(&a));
    a.insert("y", 1);
    assert!(!p.is_consistent(&a));
    a.insert("y", 2);
    assert!(p.is_consistent(&a));
}

#[test]
fn is_complete_needs_every_variable() {
    let p = two_vars_neq(vec![1, 2], vec![1, 2]);
    let mut a = Assignment::new();
    assert!(!p.is_complete(&a));
    a.insert("x", 1);
    assert!(!p.is_complete(&a));
    a.insert("y", 7);
    assert!(p.is_complete(&a));
}

#[test]
fn ac3_prunes_unsupported_values() {
    let mut p = two_vars_neq(vec![1], vec![1, 2, 3]);
    assert!(p.ac3());
    assert_eq!(p.domains.get("x"), Some(&vec![1]));
    assert_eq!(p.domains.get("y"), Some(&vec![2, 3]));
}

#[test]
fn ac3_reports_an_emptied_domain() {
    let mut p = two_vars_neq(vec![1], vec![1]);
    assert!(!p.ac3());
}

#[test]
fn ac3_keeps_every_solution() {
    let mut p = two_vars_neq(vec![1, 2], vec![2]);
    let (before, _) = solve_naive(&p, true);
    assert!(p.ac3());
    assert_eq!(p.domains.get("x"), Some(&vec![1]));
    let (after, _) = solve_naive(&p, true);
    assert_eq!(before.len(), after.len());
    assert_eq!(values_of(&after[0], &["x", "y"]), vec![1, 2]);
}

#[test]
fn forward_check_prunes_neighbours() {
    let p = two_vars_neq(vec![1, 2, 3], vec![1, 2, 3]);
    let mut a = Assignment::new();
    a.insert("x", 2);
    let mut domains = p.domains.duplicate();
    let pruned = p.forward_check("x", 2, &a, &mut domains).unwrap();
    assert_eq!(domains.get("y"), Some(&vec![1, 3]));
    assert_eq!(pruned.get("y"), Some(&vec![2]));
    assert_eq!(pruned.get("x"), None);
}

#[test]
fn forward_check_fails_on_a_wiped_out_domain() {
    let p = two_vars_neq(vec![1, 2], vec![2]);
    let mut a = Assignment::new();
    a.insert("x", 2);
    let mut domains = p.domains.duplicate();
    assert!(p.forward_check("x", 2, &a, &mut domains).is_none());
}

#[test]
fn undo_pruning_restores_forward_checked_domains() {
    let mut p = CSPProblem::new();
    p.add_variable("x", vec![1, 2, 3]);
    p.add_variable("y", vec![3, 1, 2]);
    p.add_variable("z", vec![2, 3]);
    p.constraints.push(all_different(&["x", "y"]));
    p.add_constraint(vec!["x", "z"], "x != z", Relation::NotEqual("x".to_string(), "z".to_string()));
    let mut a = Assignment::new();
    a.insert("x", 3);
    let mut domains = p.domains.duplicate();
    let pruned = p.forward_check("x", 3, &a, &mut domains).unwrap();
    assert_eq!(domains.get("y"), Some(&vec![1, 2]));
    assert_eq!(domains.get("z"), Some(&vec![2]));
    p.undo_pruning(&pruned, &mut domains);
    assert_eq!(domains.get("x"), Some(&vec![1, 2, 3]));
    assert_eq!(domains.get("y"), Some(&vec![1, 2, 3]));
    assert_eq!(domains.get("z"), Some(&vec![2, 3]));
}

#[test]
fn undo_pruning_skips_unknown_variables() {
    let p = CSPProblem::new();
    let mut pruned = DomainMap::new();
    pruned.insert("q", vec![5]);
    let mut domains = DomainMap::new();
    domains.insert("r", vec![4, 1]);
    p.undo_pruning(&pruned, &mut domains);
    assert_eq!(domains.get("q"), None);
    assert_eq!(domains.get("r"), Some(&vec![4, 1]));
}

#[test]
fn sorted_union_sorts_and_dedups() {
    assert_eq!(sorted_union(&vec![3, 1, 3], &vec![2, 1]), vec![1, 2, 3]);
    assert!(sorted_union(&vec![], &vec![]).is_empty());
}

#[test]
fn solve_stats_start_at_zero() {
    assert_eq!(stats_tuple(&SolveStats::new()), (0, 0, 0, 0));
}

#[test]
fn relations_hold_downward() {
    let rel = Relation::AllDifferent(vec!["a".to_string(), "b".to_string(), "c".to_string()]);
    let mut a = Assignment::new();
    a.insert("a", 1);
    a.insert("b", 2);
    a.insert("c", 3);
    assert!(check_relation(&rel, &a));
    a.remove("c");
    assert!(check_relation(&rel, &a));
    a.insert("c", 1);
    assert!(!check_relation(&rel, &a));
    let diag = Relation::NoDiagonal("p".to_string(), "q".to_string(), 2);
    let mut b = Assignment::new();
    b.insert("p", 1);
    assert!(check_relation(&diag, &b));
    b.insert("q", 3);
    assert!(!check_relation(&diag, &b));
    b.insert("q", 4);
    assert!(check_relation(&diag, &b));
}

#[test]
fn word_sum_relation_reads_words_as_numbers() {
    let mut a = Assignment::new();
    a.insert("A", 9);
    a.insert("B", 2);
    assert_eq!(word_value_of(&vec!['A', 'B'], &a), Some(92));
    assert_eq!(word_value_of(&vec!['C'], &a), None);
    let rel = Relation::WordSum(vec![vec!['A', 'B'], vec!['B', 'A']], vec!['C', 'B', 'C']);
    assert!(check_relation(&rel, &a));
    a.insert("C", 1);
    assert!(check_relation(&rel, &a));
    a.insert("C", 2);
    assert!(!check_relation(&rel, &a));
}

fn small_coloring() -> CSPProblem {
    let mut p = CSPProblem::new();
    for v in ["a", "b", "c"] {
        p.add_variable(v, vec![1, 2]);
    }
    p.add_constraint(vec!["a", "b"], "a != b", Relation::NotEqual("a".to_string(), "b".to_string()));
    p.add_constraint(vec!["b", "c"], "b != c", Relation::NotEqual("b".to_string(), "c".to_string()));
    p
}

#[test]
fn solve_naive_finds_every_solution_in_order() {
    let p = small_coloring();
    let (sols, stats) = solve_naive(&p, true);
    assert_eq!(sols.len(), 2);
    assert_eq!(values_of(&sols[0], &["a", "b", "c"]), vec![1, 2, 1]);
    assert_eq!(values_of(&sols[1], &["a", "b", "c"]), vec![2, 1, 2]);
    assert_eq!(stats.solutions_found, 2);
    for s in &sols {
        assert!(p.is_complete(s) && p.is_consistent(s));
    }
}

#[test]
fn solve_naive_stops_at_the_first_solution() {
    let p = small_coloring();
    let (sols, stats) = solve_naive(&p, false);
    assert_eq!(sols.len(), 1);
    assert_eq!(values_of(&sols[0], &["a", "b", "c"]), vec![1, 2, 1]);
    assert_eq!(stats.solutions_found, 1);
}

#[test]
fn solve_naive_reports_no_solution() {
    let p = two_vars_neq(vec![1], vec![1]);
    let (sols, stats) = solve_naive(&p, true);
    assert!(sols.is_empty());
    assert_eq!(stats.solutions_found, 0);
}

#[test]
fn solvers_agree_on_a_small_problem() {
    let p = small_coloring();
    let (n, _) = solve_naive(&p, true);
    let (m, _) = solve_mrv(&p, true);
    let (q, _) = solve_parallel(&p, true);
    assert_eq!(n.len(), 2);
    assert_eq!(m.len(), 2);
    assert_eq!(q.len(), 2);
    for s in m.iter().chain(q.iter()) {
        assert!(p.is_complete(s) && p.is_consistent(s));
    }
}

#[test]
fn isa_problem_shape() {
    let p = build_isa_problem();
    assert_eq!(p.variables, vec!["I", "S", "A", "R", "O", "T", "E", "L"]);
    assert_eq!(p.domains.get("I"), Some(&(1..=9).collect::<Vec<i64>>()));
    assert_eq!(p.domains.get("S"), Some(&(0..=9).collect::<Vec<i64>>()));
    assert_eq!(p.constraints.len(), 2);
    assert_eq!(p.constraints[0].name, "AllDifferent");
    assert_eq!(p.constraints[1].name, "ISA + ROA = TELO");
}

#[test]
fn six_queens_mrv_search() {
    let p = n_queens(6).problem;
    let (sols, stats) = solve_mrv(&p, true);
    assert_eq!(sols.len(), 4);
    assert_eq!(stats_tuple(&stats), (339, 4, 766, 920));
    for s in &sols {
        assert!(p.is_complete(s) && p.is_consistent(s));
    }
}

#[test]
fn six_queens_parallel_search() {
    let p = n_queens(6).problem;
    let (sols, stats) = solve_parallel(&p, true);
    assert_eq!(sols.len(), 4);
    assert_eq!(stats_tuple(&stats), (356, 4, 1038, 974));
}

#[test]
fn isa_problem_accepts_the_known_solution() {
    let p = build_isa_problem();
    let mut a = Assignment::new();
    for (k, v) in [("I", 2), ("S", 4), ("A", 9), ("R", 7), ("O", 8), ("T", 1), ("E", 0), ("L", 3)] {
        a.insert(k, v);
    }
    assert!(p.is_complete(&a));
    assert!(p.is_consistent(&a));
    a.insert("L", 4);
    assert!(!p.is_consistent(&a));
}

#[test]
fn forward_check_failure_restores_domains() {
    let mut p = CSPProblem::new();
    p.add_variable("x", vec![1]);
    p.add_variable("y", vec![1, 2]);
    p.add_variable("z", vec![1]);
    p.add_constraint(vec!["x", "y"], "x != y", Relation::NotEqual("x".to_string(), "y".to_string()));
    p.add_constraint(vec!["x", "z"], "x != z", Relation::NotEqual("x".to_string(), "z".to_string()));
    let mut a = Assignment::new();
    a.insert("x", 1);
    let mut domains = p.domains.duplicate();
    assert!(p.forward_check("x", 1, &a, &mut domains).is_none());
    assert_eq!(domains.get("y"), Some(&vec![1, 2]));
    assert_eq!(domains.get("z"), Some(&vec![1]));
}

#[test]
fn solve_mrv_finds_both_orders_of_a_pair() {
    let p = two_vars_neq(vec![1, 2], vec![1, 2]);
    let (sols, stats) = solve_mrv(&p, true);
    assert_eq!(sols.len(), 2);
    assert_eq!(values_of(&sols[0], &["x", "y"]), vec![1, 2]);
    assert_eq!(values_of(&sols[1], &["x", "y"]), vec![2, 1]);
    assert_eq!(stats_tuple(&stats), (5, 2, 4, 2));
}

#[test]
fn solve_naive_on_no_variables() {
    let p = CSPProblem::new();
    let (sols, stats) = solve_naive(&p, false);
    assert_eq!(sols.len(), 1);
    assert_eq!(format!("{:?}", sols[0]), format!("{:?}", Assignment::new()));
    assert_eq!(stats_tuple(&stats), (1, 1, 0, 0));
}

#[test]
fn solve_naive_counts_nodes_and_backtracks() {
    let p = small_coloring();
    let (_, all) = solve_naive(&p, true);
    assert_eq!(stats_tuple(&all), (7, 2, 10, 0));
    let (_, first) = solve_naive(&p, false);
    assert_eq!(stats_tuple(&first), (4, 1, 1, 0));
}

#[test]
fn ac3_second_run_changes_nothing() {
    let mut p = two_vars_neq(vec![1], vec![1, 2, 3]);
    assert!(p.ac3());
    let x = p.domains.get("x").cloned();
    let y = p.domains.get("y").cloned();
    assert!(p.ac3());
    assert_eq!(p.domains.get("x").cloned(), x);
    assert_eq!(p.domains.get("y").cloned(), y);
}

#[test]
fn solve_parallel_first_values_differ() {
    let p = n_queens(6).problem;
    let (sols, stats) = solve_parallel(&p, false);
    let first = p.variables[0].as_str();
    let mut seen: Vec<i64> = Vec::new();
    for s in &sols {
        let v = s.get(first).unwrap();
        assert!(!seen.contains(&v));
        seen.push(v);
        assert!(p.is_complete(s) && p.is_consistent(s));
    }
    assert_eq!(sols.len(), 4);
    assert_eq!(stats.solutions_found, 4);
}

#[test]
fn solve_naive_repeats_a_repeated_value() {
    let mut p = CSPProblem::new();
    p.add_variable("x", vec![1, 1]);
    p.add_variable("y", vec![2]);
    let (sols, stats) = solve_naive(&p, true);
    assert_eq!(sols.len(), 2);
    assert_eq!(values_of(&sols[0], &["x", "y"]), vec![1, 2]);
    assert_eq!(values_of(&sols[1], &["x", "y"]), vec![1, 2]);
    assert_eq!(stats_tuple(&stats), (5, 2, 4, 0));
}

#[test]
fn forward_check_prunes_each_repeat() {
    let p = two_vars_neq(vec![1, 2, 3], vec![2, 1, 2, 3]);
    let mut a = Assignment::new();
    a.insert("x", 2);
    let mut domains = p.domains.duplicate();
    let pruned = p.forward_check("x", 2, &a, &mut domains).unwrap();
    assert_eq!(domains.get("y"), Some(&vec![1, 3]));
    assert_eq!(pruned.get("y"), Some(&vec![2, 2]));
}

#[test]
fn solve_naive_never_reaches_a_variable_after_an_empty_domain() {
    let mut p = CSPProblem::new();
    p.add_variable("x", vec![]);
    p.variables.push("y".to_string());
    let (sols, stats) = solve_naive(&p, true);
    assert!(sols.is_empty());
    assert_eq!(stats_tuple(&stats), (1, 0, 0, 0));
}

#[test]
fn solve_mrv_never_picks_a_variable_after_an_empty_domain() {
    let mut p = CSPProblem::new();
    p.add_variable("x", vec![]);
    p.variables.push("y".to_string());
    let (sols, stats) = solve_mrv(&p, true);
    assert!(sols.is_empty());
    assert_eq!(stats_tuple(&stats), (1, 0, 0, 0));
}

#[test]
fn solvers_return_each_solution_once() {
    let p = n_queens(6).problem;
    for (sols, _) in [solve_naive(&p, true), solve_mrv(&p, true), solve_parallel(&p, true)] {
        let keys: Vec<Vec<i64>> = sols.iter().map(|s| p.variables.iter().map(|v| s.get(v).unwrap()).collect()).collect();
        for i in 0..keys.len() {
            for j in (i + 1)..keys.len() {
                assert_ne!(keys[i], keys[j]);
            }
        }
        assert_eq!(keys.len(), 4);
    }
}

#[test]
fn isa_problem_built_both_ways_is_the_same() {
    let q = build_isa_problem();
    let p = csp_engine::dsl::isa_roa_telo().problem;
    assert_eq!(q.variables, p.variables);
    for v in &q.variables {
        assert_eq!(q.domains.get(v), p.domains.get(v));
    }
    assert_eq!(q.constraints.len(), p.constraints.len());
    for (a, b) in q.constraints.iter().zip(p.constraints.iter()) {
        assert_eq!(a.vars, b.vars);
        assert_eq!(a.name, b.name);
    }
    let mut s = Assignment::new();
    for (k, v) in [("I", 9), ("S", 2), ("A", 5), ("R", 8), ("O", 0), ("T", 1), ("E", 7), ("L", 3)] {
        s.insert(k, v);
    }
    assert!(q.is_consistent(&s) && p.is_consistent(&s));
}

#[test]
fn stats_text_aligns_the_counters() {
    let s = SolveStats { nodes_explored: 5, solutions_found: 2, backtracks: 4, pruned_values: 123456789 };
    assert_eq!(s.text(), "nodes=       5 solutions=   2 backtracks=       4 pruned=123456789");
}

#[test]
fn isa_solution_reads_as_an_addition() {
    let mut s = Assignment::new();
    for (k, v) in [("I", 9), ("S", 2), ("A", 5), ("R", 8), ("O", 0), ("T", 1), ("E", 7), ("L", 3)] {
        s.insert(k, v);
    }
    assert_eq!(csp_engine::dsl::isa_solution_text(&s), "solution: 925 + 805 = 1730");
}

#[test]
fn cryptarithm_solution_text() {
    let c = csp_engine::cryptarithm::Cryptarithm::parse("AB + BA = CBC");
    let mut s = Assignment::new();
    for (k, v) in [("A", 9), ("B", 2), ("C", 1)] {
        s.insert(k, v);
    }
    assert_eq!(c.equation_text(&s), "equation: AB (92) + BA (29) = CBC (121)");
    let m = c.mapping_text(&s);
    assert!(m.starts_with("mapping: "));
    for part in ["A=9", "B=2", "C=1"] {
        assert!(m.contains(part));
    }
}
