use csp_engine::color::{backtrack, find_color, is_valid, Coloring};

fn madagascar_neighbors() -> Vec<(&'static str, Vec<&'static str>)> {
    vec![
        ("A", vec!["B", "E"]),
        ("B", vec!["A", "C", "D", "E"]),
        ("C", vec!["B", "D", "E", "F"]),
        ("D", vec!["B", "C", "F"]),
        ("E", vec!["A", "B", "C", "F"]),
        ("F", vec!["C", "D", "E"]),
    ]
}

const VARIABLES: [&str; 6] = ["A", "B", "C", "D", "E", "F"];

fn color_of(m: &Coloring, k: &str) -> String {
    m.get(k).unwrap().clone()
}

#[test]
fn coloring_map_operations() {
    let mut m = Coloring::new();
    assert_eq!(m.len(), 0);
    m.insert("A", "R");
    m.insert("B", "V");
    m.insert("A", "B");
    assert_eq!(m.len(), 2);
    assert!(m.contains_key("A"));
    assert_eq!(color_of(&m, "A"), "B");
    m.remove("A");
    assert!(!m.contains_key("A"));
    assert!(m.get("A").is_none());
    assert_eq!(m.len(), 1);
}

#[test]
fn is_valid_looks_at_coloured_neighbours() {
    let ns = madagascar_neighbors();
    let mut m = Coloring::new();
    m.insert("B", "R");
    assert!(!is_valid(&m, "A", "R", &ns));
    assert!(is_valid(&m, "A", "V", &ns));
    assert!(is_valid(&m, "F", "R", &ns));
    assert!(is_valid(&m, "Z", "R", &ns));
}

#[test]
fn is_valid_uses_the_last_entry_of_a_region() {
    let ns = vec![("A", vec!["B"]), ("A", vec!["C"])];
    let mut m = Coloring::new();
    m.insert("B", "R");
    assert!(is_valid(&m, "A", "R", &ns));
    m.insert("C", "R");
    assert!(!is_valid(&m, "A", "R", &ns));
}

#[test]
fn find_color_madagascar() {
    let ns = madagascar_neighbors();
    let m = find_color(&VARIABLES, &["R", "V", "B"], &ns).unwrap();
    let got: Vec<String> = VARIABLES.iter().map(|v| color_of(&m, v)).collect();
    assert_eq!(got, vec!["R", "V", "R", "B", "B", "V"]);
    for (v, list) in &ns {
        for n in list {
            assert_ne!(color_of(&m, v), color_of(&m, n));
        }
    }
}

#[test]
fn find_color_fails_with_two_colours() {
    let ns = madagascar_neighbors();
    assert!(find_color(&VARIABLES, &["R", "V"], &ns).is_none());
}

#[test]
fn find_color_without_regions() {
    let ns = madagascar_neighbors();
    let m = find_color(&[], &["R"], &ns).unwrap();
    assert_eq!(m.len(), 0);
}

#[test]
fn backtrack_extends_a_partial_colouring() {
    let ns = madagascar_neighbors();
    let mut m = Coloring::new();
    m.insert("A", "V");
    assert!(backtrack(&mut m, &VARIABLES, &["R", "V", "B"], &ns));
    let got: Vec<String> = VARIABLES.iter().map(|v| color_of(&m, v)).collect();
    assert_eq!(got, vec!["V", "R", "V", "B", "B", "R"]);
}

#[test]
fn backtrack_leaves_the_colouring_unchanged_on_failure() {
    let ns = madagascar_neighbors();
    let mut m = Coloring::new();
    m.insert("A", "R");
    m.insert("B", "V");
    assert!(!backtrack(&mut m, &VARIABLES, &["R", "V"], &ns));
    assert_eq!(m.len(), 2);
    assert_eq!(color_of(&m, "A"), "R");
    assert_eq!(color_of(&m, "B"), "V");
}

#[test]
fn backtrack_keeps_given_colours_as_they_are() {
    let ns = madagascar_neighbors();
    let mut m = Coloring::new();
    m.insert("A", "R");
    m.insert("B", "R");
    assert!(backtrack(&mut m, &VARIABLES, &["R", "V", "B"], &ns));
    let got: Vec<String> = VARIABLES.iter().map(|v| color_of(&m, v)).collect();
    assert_eq!(got, vec!["R", "R", "V", "B", "B", "R"]);
}
