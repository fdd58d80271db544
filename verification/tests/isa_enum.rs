use csp_engine::isa::{solve, valid_solution, word_value, DigitMap};

const ORDER: [char; 8] = ['I', 'S', 'A', 'R', 'O', 'T', 'E', 'L'];

fn digits_of(m: &DigitMap) -> Vec<u8> {
    ORDER.iter().map(|c| m.get(*c).unwrap()).collect()
}

fn map_of(digits: [u8; 8]) -> DigitMap {
    let mut m = DigitMap::new();
    for (c, d) in ORDER.iter().zip(digits.iter()) {
        m.insert(*c, *d);
    }
    m
}

#[test]
fn digit_map_operations() {
    let mut m = DigitMap::new();
    assert_eq!(m.get('I'), None);
    m.insert('I', 3);
    m.insert('S', 4);
    m.insert('I', 5);
    assert_eq!(m.get('I'), Some(5));
    m.remove('I');
    assert_eq!(m.get('I'), None);
    assert_eq!(m.get('S'), Some(4));
    assert_eq!(m.to_pairs(), vec![('S', 4)]);
    let copy = m.duplicate();
    assert_eq!(copy.get('S'), Some(4));
}

#[test]
fn word_value_reads_digits_in_order() {
    let m = map_of([2, 4, 9, 7, 8, 1, 0, 3]);
    assert_eq!(word_value("ISA", &m), 249);
    assert_eq!(word_value("ROA", &m), 789);
    assert_eq!(word_value("TELO", &m), 1038);
    assert_eq!(word_value("", &m), 0);
}

#[test]
fn valid_solution_checks_the_sum() {
    assert!(valid_solution(&map_of([2, 4, 9, 7, 8, 1, 0, 3])));
    assert!(!valid_solution(&map_of([2, 4, 9, 7, 8, 1, 0, 4])));
}

#[test]
fn solve_lists_all_solutions_in_order() {
    let mut assignment = DigitMap::new();
    let mut used = [false; 10];
    let mut found: Vec<DigitMap> = Vec::new();
    solve(0, &mut assignment, &mut used, &mut found);
    assert_eq!(found.len(), 104);
    assert_eq!(digits_of(&found[0]), vec![2, 4, 9, 7, 8, 1, 0, 3]);
    assert_eq!(digits_of(&found[1]), vec![2, 5, 4, 7, 8, 1, 0, 3]);
    assert_eq!(digits_of(&found[103]), vec![9, 7, 5, 4, 0, 1, 3, 8]);
    for w in found.windows(2) {
        assert!(digits_of(&w[0]) < digits_of(&w[1]));
    }
    for m in &found {
        assert!(valid_solution(m));
        assert!(m.get('I').unwrap() != 0 && m.get('R').unwrap() != 0 && m.get('T').unwrap() != 0);
    }
    assert_eq!(assignment.to_pairs(), vec![]);
    assert_eq!(used, [false; 10]);
}

#[test]
fn solve_from_a_partial_assignment() {
    let mut assignment = DigitMap::new();
    assignment.insert('I', 9);
    let mut used = [false; 10];
    used[9] = true;
    let mut found: Vec<DigitMap> = Vec::new();
    solve(1, &mut assignment, &mut used, &mut found);
    assert!(!found.is_empty());
    for m in &found {
        assert_eq!(m.get('I'), Some(9));
        assert!(valid_solution(m));
    }
    assert_eq!(digits_of(found.last().unwrap()), vec![9, 7, 5, 4, 0, 1, 3, 8]);
    assert_eq!(assignment.get('I'), Some(9));
    assert!(used[9]);
}
