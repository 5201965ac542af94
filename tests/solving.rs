use nand_sat::assignment::Assignment;
use nand_sat::evaluator::evaluate_formula;
use nand_sat::search::{distinct_names, generate_assignments, solve, solve_with_occurrences};

fn bindings(a: &Assignment) -> Vec<(String, bool)> {
    (0..a.len()).map(|i| (a.name(i), a.value(i))).collect()
}

fn verdict(formula: &str) -> bool {
    let (sat, witness) = solve(formula);
    assert_eq!(sat, witness.is_some());
    if let Some(w) = witness {
        assert_eq!(evaluate_formula(formula, &w), Ok(true));
    }
    sat
}

#[test]
fn single_variable_nand_is_satisfiable() {
    let (sat, witness) = solve("arg_1 ↑ arg_1");
    assert!(sat);
    assert_eq!(bindings(&witness.unwrap()), vec![("arg_1".to_string(), false)]);
}

#[test]
fn tautological_false_is_unsatisfiable() {
    let (sat, witness) = solve("((arg_1 ↑ arg_1) ↑ arg_1) ↑ ((arg_1 ↑ arg_1) ↑ arg_1)");
    assert!(!sat);
    assert!(witness.is_none());
}

#[test]
fn conjunction_of_two_is_satisfiable() {
    let (sat, witness) = solve("(arg_1 ↑ arg_2) ↑ (arg_1 ↑ arg_2)");
    assert!(sat);
    assert_eq!(
        bindings(&witness.unwrap()),
        vec![("arg_1".to_string(), true), ("arg_2".to_string(), true)]
    );
}

#[test]
fn small_formula_verdicts() {
    let cases = [
        ("arg_1 ↑ arg_1", true),
        ("(arg_1 ↑ arg_1) ↑ (arg_1 ↑ arg_1)", true),
        ("(arg_1 ↑ arg_1) ↑ arg_1", true),
        ("((arg_1 ↑ arg_1) ↑ arg_1) ↑ ((arg_1 ↑ arg_1) ↑ arg_1)", false),
        ("(arg_1 ↑ arg_1) ↑ (arg_2 ↑ arg_2)", true),
        ("((arg_1 ↑ arg_2) ↑ (arg_1 ↑ arg_2)) ↑ ((arg_1 ↑ arg_2) ↑ (arg_1 ↑ arg_2))", true),
        ("(arg_1 ↑ arg_2) ↑ (arg_1 ↑ arg_2)", true),
    ];
    for (formula, expected) in cases {
        assert_eq!(verdict(formula), expected, "{}", formula);
    }
}

#[test]
fn witness_is_first_in_search_order() {
    // All true fails; the last variable turns false first.
    let (sat, witness) = solve("arg_2 ↑ arg_1");
    assert!(sat);
    assert_eq!(
        bindings(&witness.unwrap()),
        vec![("arg_2".to_string(), true), ("arg_1".to_string(), false)]
    );
}

#[test]
fn search_order_flips_later_variables_first() {
    // True only when arg_1 is false and arg_2 is true.
    let f = "((arg_1 ↑ arg_1) ↑ arg_2) ↑ ((arg_1 ↑ arg_1) ↑ arg_2)";
    let (sat, witness) = solve(f);
    assert!(sat);
    assert_eq!(
        bindings(&witness.unwrap()),
        vec![("arg_1".to_string(), false), ("arg_2".to_string(), true)]
    );
}

#[test]
fn formula_without_variables() {
    assert_eq!(verdict("true ↑ false"), true);
    assert_eq!(verdict("true ↑ true"), false);
    let (sat, witness) = solve("false ↑ false");
    assert!(sat);
    assert_eq!(witness.unwrap().len(), 0);
}

#[test]
fn evaluation_error_ends_the_search() {
    let (sat, witness) = solve("arg_1 ↑ other");
    assert!(!sat);
    assert!(witness.is_none());
}

#[test]
fn variables_are_found_by_pattern() {
    let (sat, witness) = solve("arg_10 ↑ (arg_2 ↑ arg_10)");
    assert!(sat);
    let w = witness.unwrap();
    assert_eq!(w.len(), 2);
    assert_eq!(w.name(0), "arg_10");
    assert_eq!(w.name(1), "arg_2");
}

#[test]
fn many_variables_terminate() {
    // `false ↑ x` is always true, so this is always false: every one of the
    // 2^12 assignments is tried.
    let chain: Vec<String> = (1..=12).map(|i| format!("arg_{}", i)).collect();
    let f = format!("true ↑ (false ↑ ({}))", chain.join(" ↑ "));
    let (sat, witness) = solve(&f);
    assert!(!sat);
    assert!(witness.is_none());
}

#[test]
fn distinct_names_keep_first_appearance() {
    let occ: Vec<String> = ["arg_3", "arg_1", "arg_3", "arg_2", "arg_1"]
        .iter()
        .map(|s| s.to_string())
        .collect();
    assert_eq!(distinct_names(&occ), vec!["arg_3", "arg_1", "arg_2"]);
    assert!(distinct_names(&Vec::new()).is_empty());
}

#[test]
fn solve_with_given_occurrences() {
    let occ: Vec<String> = vec!["b".to_string(), "a".to_string(), "b".to_string()];
    let (sat, witness) = solve_with_occurrences("a ↑ b", &occ);
    assert!(sat);
    assert_eq!(
        bindings(&witness.unwrap()),
        vec![("b".to_string(), true), ("a".to_string(), false)]
    );
    let (sat, witness) = solve_with_occurrences("a ↑ b", &vec!["a".to_string()]);
    assert!(!sat);
    assert!(witness.is_none());
}

#[test]
fn generate_assignments_in_search_order() {
    let vars = vec!["arg_1".to_string(), "arg_2".to_string()];
    let all = generate_assignments(&vars);
    let values: Vec<Vec<bool>> = all
        .iter()
        .map(|a| (0..a.len()).map(|i| a.value(i)).collect())
        .collect();
    assert_eq!(
        values,
        vec![
            vec![true, true],
            vec![true, false],
            vec![false, true],
            vec![false, false],
        ]
    );
    for a in &all {
        assert_eq!(a.name(0), "arg_1");
        assert_eq!(a.name(1), "arg_2");
    }
}

#[test]
fn generate_assignments_counts_powers_of_two() {
    assert_eq!(generate_assignments(&Vec::new()).len(), 1);
    assert_eq!(generate_assignments(&Vec::new())[0].len(), 0);
    for n in 1..=6 {
        let vars: Vec<String> = (1..=n).map(|i| format!("arg_{}", i)).collect();
        let all = generate_assignments(&vars);
        assert_eq!(all.len(), 1 << n);
        assert!(all[0..].iter().all(|a| a.len() == n));
        assert!((0..n).all(|i| all[0].value(i)));
        assert!((0..n).all(|i| !all[all.len() - 1].value(i)));
    }
}
