use nand_sat::assignment::Assignment;
use nand_sat::evaluator::{evaluate_formula, EvalError};

fn env(pairs: &[(&str, bool)]) -> Assignment {
    let mut a = Assignment::new();
    for (name, value) in pairs {
        a.insert(name, *value);
    }
    a
}

#[test]
fn nand_truth_table() {
    for a in [false, true] {
        for b in [false, true] {
            let e = env(&[("x", a), ("y", b)]);
            assert_eq!(evaluate_formula("x ↑ y", &e), Ok(!(a && b)));
        }
    }
}

#[test]
fn parentheses_do_not_change_value() {
    let formulas = [
        "arg_1 ↑ arg_2",
        "(arg_1 ↑ arg_1) ↑ arg_2",
        "arg_1",
        "((arg_1 ↑ arg_2) ↑ (arg_2 ↑ arg_1))",
        "  arg_2 ↑ (arg_1 ↑ true) ",
    ];
    for a in [false, true] {
        for b in [false, true] {
            let e = env(&[("arg_1", a), ("arg_2", b)]);
            for f in formulas {
                let wrapped = format!("({})", f);
                assert_eq!(evaluate_formula(f, &e), evaluate_formula(&wrapped, &e));
            }
        }
    }
}

#[test]
fn chain_nests_to_the_right() {
    let e = env(&[("a", true), ("b", true), ("c", true)]);
    assert_eq!(evaluate_formula("a ↑ b ↑ c", &e), evaluate_formula("a ↑ (b ↑ c)", &e));
    assert_eq!(evaluate_formula("a ↑ b ↑ c", &e), Ok(true));
    // Here the two groupings differ.
    let e = env(&[("a", false), ("b", false), ("c", true)]);
    let chain = evaluate_formula("a ↑ b ↑ c", &e);
    assert_eq!(chain, evaluate_formula("a ↑ (b ↑ c)", &e));
    assert_ne!(chain, evaluate_formula("(a ↑ b) ↑ c", &e));
    assert_eq!(chain, Ok(true));
    assert_eq!(evaluate_formula("(a ↑ b) ↑ c", &e), Ok(false));
}

#[test]
fn unknown_variable_is_reported() {
    let e = env(&[("arg_1", true)]);
    assert_eq!(
        evaluate_formula("arg_1 ↑ arg_2", &e),
        Err(EvalError::UnknownVariable("arg_2".to_string()))
    );
}

#[test]
fn first_unknown_from_the_left_is_reported() {
    let e = Assignment::new();
    assert_eq!(
        evaluate_formula("(arg_7 ↑ true) ↑ arg_3", &e),
        Err(EvalError::UnknownVariable("arg_7".to_string()))
    );
}

#[test]
fn literals_evaluate_without_assignment() {
    let e = Assignment::new();
    assert_eq!(evaluate_formula("true", &e), Ok(true));
    assert_eq!(evaluate_formula("false", &e), Ok(false));
    assert_eq!(evaluate_formula("true ↑ true", &e), Ok(false));
    assert_eq!(evaluate_formula("false ↑ true", &e), Ok(true));
    assert_eq!(evaluate_formula(" ( ( true ) ) ", &e), Ok(true));
}

#[test]
fn empty_formula_is_an_unknown_atom() {
    let e = Assignment::new();
    assert_eq!(evaluate_formula("", &e), Err(EvalError::UnknownVariable(String::new())));
    assert_eq!(evaluate_formula("  ( ) ", &e), Err(EvalError::UnknownVariable(String::new())));
}

#[test]
fn unbalanced_parentheses_stay_in_the_atom() {
    let e = env(&[("arg_1", true)]);
    assert_eq!(
        evaluate_formula("(arg_1", &e),
        Err(EvalError::UnknownVariable("(arg_1".to_string()))
    );
    assert_eq!(
        evaluate_formula("(arg_1) ↑ (arg_1)", &e),
        Ok(false)
    );
}

#[test]
fn whitespace_of_every_kind_is_trimmed() {
    let e = env(&[("arg_1", false)]);
    assert_eq!(evaluate_formula("\t\n arg_1\u{3000}↑\u{a0}arg_1 \r", &e), Ok(true));
}

#[test]
fn tautological_false_construction() {
    let f = "((arg_1 ↑ arg_1) ↑ arg_1) ↑ ((arg_1 ↑ arg_1) ↑ arg_1)";
    assert_eq!(evaluate_formula(f, &env(&[("arg_1", true)])), Ok(false));
    assert_eq!(evaluate_formula(f, &env(&[("arg_1", false)])), Ok(false));
}

#[test]
fn assignment_insert_and_get() {
    let mut a = Assignment::new();
    assert_eq!(a.len(), 0);
    assert_eq!(a.get("arg_1"), None);
    a.insert("arg_1", true);
    a.insert("arg_2", false);
    assert_eq!(a.get("arg_1"), Some(true));
    assert_eq!(a.get("arg_2"), Some(false));
    a.insert("arg_1", false);
    assert_eq!(a.len(), 2);
    assert_eq!(a.name(0), "arg_1");
    assert_eq!(a.value(0), false);
    assert_eq!(a.name(1), "arg_2");
    assert_eq!(a.get("arg_3"), None);
}
