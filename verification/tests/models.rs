use csp_engine::constraint::Relation;
use csp_engine::cryptarithm::Cryptarithm;
use csp_engine::dsl::{graph_coloring, isa_roa_telo, n_queens, sudoku, CSPModel};
use csp_engine::names::Assignment;
use csp_engine::solve::{solve_mrv, solve_naive, solve_parallel, SolveStats};

fn stats_tuple(s: &SolveStats) -> (u64, u64, u64, u64) {
    (s.nodes_explored, s.solutions_found, s.backtracks, s.pruned_values)
}

fn madagascar() -> CSPModel {
    let regions = ["Antsiranana", "Mahajanga", "Antananarivo", "Toliara", "Toamasina", "Fianarantsoa"];
    let edges = [
        ("Antsiranana", "Mahajanga"),
        ("Antsiranana", "Toamasina"),
        ("Mahajanga", "Antananarivo"),
        ("Mahajanga", "Toamasina"),
        ("Mahajanga", "Toliara"),
        ("Antananarivo", "Toamasina"),
        ("Antananarivo", "Fianarantsoa"),
        ("Antananarivo", "Toliara"),
        ("Toamasina", "Fianarantsoa"),
        ("Toliara", "Fianarantsoa"),
    ];
    graph_coloring(&regions, &edges, 3)
}

fn grid() -> [[i64; 9]; 9] {
    [
        [5, 3, 0, 0, 7, 0, 0, 0, 0],
        [6, 0, 0, 1, 9, 5, 0, 0, 0],
        [0, 9, 8, 0, 0, 0, 0, 6, 0],
        [8, 0, 0, 0, 6, 0, 0, 0, 3],
        [4, 0, 0, 8, 0, 3, 0, 0, 1],
        [7, 0, 0, 0, 2, 0, 0, 0, 6],
        [0, 6, 0, 0, 0, 0, 2, 8, 0],
        [0, 0, 0, 4, 1, 9, 0, 0, 5],
        [0, 0, 0, 0, 8, 0, 0, 7, 9],
    ]
}

#[test]
fn model_builders_record_variables_and_constraints() {
    let m = CSPModel::new("demo")
        .int_var("a", 1..=3)
        .int_var_domain("b", vec![2, 4])
        .int_vars(&["c", "d"], 0..=1)
        .all_different(&["a", "b"])
        .pairwise_neq(&["c", "d", "a"])
        .constraint("c != d", &["c", "d"], Relation::NotEqual("c".to_string(), "d".to_string()));
    assert_eq!(m.name, "demo");
    assert_eq!(m.problem.variables, vec!["a", "b", "c", "d"]);
    assert_eq!(m.problem.domains.get("a"), Some(&vec![1, 2, 3]));
    assert_eq!(m.problem.domains.get("b"), Some(&vec![2, 4]));
    assert_eq!(m.problem.domains.get("d"), Some(&vec![0, 1]));
    let names: Vec<&str> = m.problem.constraints.iter().map(|c| c.name.as_str()).collect();
    assert_eq!(names, vec!["AllDifferent", "c \u{2260} d", "c \u{2260} a", "d \u{2260} a", "c != d"]);
}

#[test]
fn int_var_with_an_empty_range() {
    let m = CSPModel::new("e").int_var("x", 3..=2);
    assert_eq!(m.problem.domains.get("x"), Some(&vec![]));
}

#[test]
fn isa_model_shape() {
    let m = isa_roa_telo();
    assert_eq!(m.name, "ISA + ROA = TELO");
    assert_eq!(m.problem.variables, vec!["I", "S", "A", "R", "O", "T", "E", "L"]);
    assert_eq!(m.problem.domains.get("T"), Some(&(1..=9).collect::<Vec<i64>>()));
    assert_eq!(m.problem.domains.get("O"), Some(&(0..=9).collect::<Vec<i64>>()));
    assert_eq!(m.problem.constraints.len(), 2);
}

#[test]
fn six_queens_search_all() {
    let r = n_queens(6).search_all();
    assert_eq!(r.solutions.len(), 4);
    assert_eq!(stats_tuple(&r.stats), (339, 4, 766, 920));
}

#[test]
fn four_queens_model() {
    let m = n_queens(4);
    assert_eq!(m.name, "4-Queens");
    assert_eq!(m.problem.variables, vec!["q0", "q1", "q2", "q3"]);
    assert_eq!(m.problem.constraints.len(), 1 + 6);
    assert_eq!(m.problem.constraints[1].name, "no_diag(0,1)");
    assert_eq!(m.problem.constraints[6].name, "no_diag(2,3)");
    let r = m.search_first();
    assert!(r.ac3_ok);
    assert_eq!((r.singleton_domains, r.min_domain, r.max_domain), (0, 4, 4));
    assert_eq!(stats_tuple(&r.stats.unwrap()), (10, 1, 11, 19));
    let sol = r.solution.unwrap();
    let rows: Vec<i64> = ["q0", "q1", "q2", "q3"].iter().map(|q| sol.get(q).unwrap()).collect();
    assert_eq!(rows, vec![2, 4, 1, 3]);
}

#[test]
fn four_queens_by_other_solvers() {
    let p = n_queens(4).problem;
    let (naive, ns) = solve_naive(&p, true);
    assert_eq!(naive.len(), 2);
    assert_eq!(stats_tuple(&ns), (35, 2, 132, 0));
    let rows: Vec<i64> = ["q0", "q1", "q2", "q3"].iter().map(|q| naive[0].get(q).unwrap()).collect();
    assert_eq!(rows, vec![2, 4, 1, 3]);
    let (par, ps) = solve_parallel(&p, true);
    assert_eq!(par.len(), 2);
    assert_eq!(stats_tuple(&ps), (18, 2, 44, 28));
    let rows: Vec<i64> = ["q0", "q1", "q2", "q3"].iter().map(|q| par[1].get(q).unwrap()).collect();
    assert_eq!(rows, vec![3, 1, 4, 2]);
}

#[test]
fn eight_queens_first_solution() {
    let r = n_queens(8).search_first();
    assert!(r.ac3_ok);
    assert_eq!((r.singleton_domains, r.min_domain, r.max_domain), (0, 8, 8));
    assert_eq!(stats_tuple(&r.stats.unwrap()), (1050, 1, 2619, 2764));
    let sol = r.solution.unwrap();
    let rows: Vec<i64> = (0..8).map(|i| sol.get(&format!("q{}", i)).unwrap()).collect();
    assert_eq!(rows, vec![1, 5, 8, 6, 3, 7, 2, 4]);
}

#[test]
fn eight_queens_all_by_mrv() {
    let r = n_queens(8).search_all();
    assert_eq!(r.solutions.len(), 92);
    assert_eq!(stats_tuple(&r.stats), (13251, 92, 34016, 36448));
}

#[test]
fn sudoku_is_solved_by_arc_consistency() {
    let m = sudoku(grid());
    assert_eq!(m.name, "Sudoku");
    assert_eq!(m.problem.variables.len(), 81);
    assert_eq!(m.problem.constraints.len(), 27 * 36);
    assert_eq!(m.problem.domains.get("c0_0"), Some(&vec![5]));
    assert_eq!(m.problem.domains.get("c0_2"), Some(&(1..=9).collect::<Vec<i64>>()));
    let r = m.search_first();
    assert!(r.ac3_ok);
    assert_eq!((r.singleton_domains, r.min_domain, r.max_domain), (81, 1, 1));
    assert_eq!(stats_tuple(&r.stats.unwrap()), (82, 1, 0, 0));
    let sol = r.solution.unwrap();
    let expected = [
        [5, 3, 4, 6, 7, 8, 9, 1, 2],
        [6, 7, 2, 1, 9, 5, 3, 4, 8],
        [1, 9, 8, 3, 4, 2, 5, 6, 7],
        [8, 5, 9, 7, 6, 1, 4, 2, 3],
        [4, 2, 6, 8, 5, 3, 7, 9, 1],
        [7, 1, 3, 9, 2, 4, 8, 5, 6],
        [9, 6, 1, 5, 3, 7, 2, 8, 4],
        [2, 8, 7, 4, 1, 9, 6, 3, 5],
        [3, 4, 5, 2, 8, 6, 1, 7, 9],
    ];
    for r in 0..9 {
        for c in 0..9 {
            assert_eq!(sol.get(&format!("c{}_{}", r, c)), Some(expected[r][c]));
        }
    }
}

#[test]
fn sudoku_with_a_clash_fails_arc_consistency() {
    let mut g = grid();
    g[0][2] = 5;
    let r = sudoku(g).search_first();
    assert!(!r.ac3_ok);
    assert!(r.stats.is_none());
    assert!(r.solution.is_none());
}

#[test]
fn madagascar_coloring_first() {
    let m = madagascar();
    assert_eq!(m.name, "Graph Coloring");
    assert_eq!(m.problem.constraints.len(), 10);
    assert_eq!(m.problem.constraints[0].name, "Antsiranana \u{2260} Mahajanga");
    let r = m.search_first();
    assert!(r.ac3_ok);
    assert_eq!((r.singleton_domains, r.min_domain, r.max_domain), (0, 3, 3));
    assert_eq!(stats_tuple(&r.stats.unwrap()), (7, 1, 0, 9));
    let sol = r.solution.unwrap();
    let got: Vec<i64> = ["Antsiranana", "Mahajanga", "Antananarivo", "Toliara", "Toamasina", "Fianarantsoa"]
        .iter()
        .map(|n| sol.get(n).unwrap())
        .collect();
    assert_eq!(got, vec![1, 2, 1, 3, 3, 2]);
}

#[test]
fn madagascar_coloring_all() {
    let r = madagascar().search_all();
    assert_eq!(r.solutions.len(), 6);
    assert_eq!(stats_tuple(&r.stats), (34, 6, 33, 48));
    let p = madagascar().problem;
    for s in &r.solutions {
        assert!(p.is_complete(s) && p.is_consistent(s));
    }
    let (naive, ns) = solve_naive(&p, true);
    assert_eq!(naive.len(), 6);
    assert_eq!(stats_tuple(&ns), (46, 6, 120, 0));
    let (par, ps) = solve_parallel(&p, true);
    assert_eq!(par.len(), 6);
    assert_eq!(stats_tuple(&ps), (45, 6, 51, 66));
}

#[test]
fn parse_reads_words_letters_and_leading() {
    let c = Cryptarithm::parse("send + more = money");
    assert_eq!(c.words_left, vec!["SEND".to_string(), "MORE".to_string()]);
    assert_eq!(c.word_right, "MONEY");
    assert_eq!(c.letters, vec!['D', 'E', 'M', 'N', 'O', 'R', 'S', 'Y']);
    let mut lead = c.leading_chars.clone();
    lead.sort();
    assert_eq!(lead, vec!['M', 'S']);
}

#[test]
fn parse_trims_around_the_words() {
    let c = Cryptarithm::parse("  ab+ ba =  cbc ");
    assert_eq!(c.words_left, vec!["AB".to_string(), "BA".to_string()]);
    assert_eq!(c.word_right, "CBC");
    assert_eq!(c.letters, vec!['A', 'B', 'C']);
}

#[test]
fn from_words_collects_letters() {
    let c = Cryptarithm::from_words(vec!["NO".to_string(), "GUN".to_string()], "HUNT".to_string());
    assert_eq!(c.letters, vec!['G', 'H', 'N', 'O', 'T', 'U']);
    let mut lead = c.leading_chars.clone();
    lead.sort();
    assert_eq!(lead, vec!['G', 'H', 'N']);
}

#[test]
fn cryptarithm_problem_shape() {
    let p = Cryptarithm::parse("AB + BA = CBC").to_csp();
    assert_eq!(p.variables, vec!["A", "B", "C"]);
    assert_eq!(p.domains.get("A"), Some(&(1..=9).collect::<Vec<i64>>()));
    assert_eq!(p.constraints.len(), 2);
    assert_eq!(p.constraints[0].name, "AllDifferent");
    assert_eq!(p.constraints[1].name, "AB + BA = CBC");
    let mut a = Assignment::new();
    a.insert("A", 9);
    a.insert("B", 2);
    a.insert("C", 1);
    assert!(p.is_consistent(&a));
}

#[test]
fn cryptarithm_ab_ba_cbc() {
    let p = Cryptarithm::parse("AB + BA = CBC").to_csp();
    let (naive, ns) = solve_naive(&p, true);
    assert_eq!(naive.len(), 1);
    assert_eq!(stats_tuple(&ns), (92, 1, 819, 0));
    assert_eq!((naive[0].get("A"), naive[0].get("B"), naive[0].get("C")), (Some(9), Some(2), Some(1)));
    let (mrv, ms) = solve_mrv(&p, true);
    assert_eq!(mrv.len(), 1);
    assert_eq!(stats_tuple(&ms), (12, 1, 91, 8));
    let (par, ps) = solve_parallel(&p, true);
    assert_eq!(par.len(), 1);
    assert_eq!(stats_tuple(&ps), (11, 1, 82, 8));
}

#[test]
fn cryptarithm_no_gun_hunt() {
    let p = Cryptarithm::parse("NO + GUN = HUNT").to_csp();
    let (mrv, ms) = solve_mrv(&p, true);
    assert!(mrv.is_empty());
    assert_eq!(stats_tuple(&ms), (8110, 0, 81009, 0));
    let (par, ps) = solve_parallel(&p, true);
    assert!(par.is_empty());
    assert_eq!(stats_tuple(&ps), (8109, 0, 81000, 0));
}

#[test]
fn cryptarithm_isa_variables() {
    let p = Cryptarithm::parse("ISA + ROA = TELO").to_csp();
    assert_eq!(p.variables, vec!["A", "E", "I", "L", "O", "R", "S", "T"]);
}

#[test]
fn solve_with_dispatches_by_name() {
    let p = Cryptarithm::parse("AB + BA = CBC").to_csp();
    let (naive, ns) = csp_engine::solve::solve_with(&p, "naive", true);
    assert_eq!(naive.len(), 1);
    assert_eq!(stats_tuple(&ns), (92, 1, 819, 0));
    let (_, ms) = csp_engine::solve::solve_with(&p, "mrv", true);
    assert_eq!(stats_tuple(&ms), (12, 1, 91, 8));
    let (_, os) = csp_engine::solve::solve_with(&p, "other", true);
    assert_eq!(stats_tuple(&os), (12, 1, 91, 8));
    let (_, ps) = csp_engine::solve::solve_with(&p, "parallel", true);
    assert_eq!(stats_tuple(&ps), (11, 1, 82, 8));
}

#[test]
fn int_var_on_an_exhausted_range_has_no_values() {
    let mut r = 1..=3;
    for _ in r.by_ref() {}
    let m = CSPModel::new("t").int_var("x", r).int_var("y", 3..=1).int_var("z", 2..=4);
    assert_eq!(m.problem.domains.get("x"), Some(&vec![]));
    assert_eq!(m.problem.domains.get("y"), Some(&vec![]));
    assert_eq!(m.problem.domains.get("z"), Some(&vec![2, 3, 4]));
    let mut r2 = 5..=6;
    for _ in r2.by_ref() {}
    let m2 = CSPModel::new("u").int_vars(&["a", "b"], r2);
    assert_eq!(m2.problem.domains.get("a"), Some(&vec![]));
    assert_eq!(m2.problem.domains.get("b"), Some(&vec![]));
}
