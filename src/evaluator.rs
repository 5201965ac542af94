//! Evaluating a formula under an assignment.

use vstd::prelude::*;
use crate::assignment::Assignment;
use crate::formula::{chars_of, eval, false_text, normalize_range, operator_in, text_matches, true_text};

verus! {

/// Why a formula has no value.
#[derive(Debug, PartialEq, Eq)]
pub enum EvalError {
    /// An atom that is neither `true`, `false` nor a bound name.
    UnknownVariable(String),
}

/// The outcome of an evaluation, with the unknown name as text.
pub open spec fn outcome(r: Result<bool, EvalError>) -> Result<bool, Seq<char>> {
    match r {
        Ok(b) => Ok(b),
        Err(EvalError::UnknownVariable(name)) => Err(name@),
    }
}

/// Evaluates `chars[lo..hi]`, the characters of `text` in that range.
pub(crate) fn eval_range(text: &str, chars: &Vec<char>, lo: usize, hi: usize, env: &Assignment) -> (r: Result<bool, EvalError>)
    requires
        chars@ == text@,
        lo <= hi <= chars.len(),
        env.wf(),
    ensures
        outcome(r) == eval(chars@.subrange(lo as int, hi as int), env@),
    decreases hi - lo,
{
    let (a, b) = normalize_range(chars, lo, hi);
    let ghost t = chars@.subrange(a as int, b as int);
    match operator_in(chars, a, b) {
        Some(k) => {
            assert(t.subrange(0, k - a) =~= chars@.subrange(a as int, k as int));
            assert(t.subrange(k - a + 1, t.len() as int) =~= chars@.subrange(k + 1, b as int));
            match eval_range(text, chars, a, k, env) {
                Err(e) => Err(e),
                Ok(left) => match eval_range(text, chars, k + 1, b, env) {
                    Err(e) => Err(e),
                    Ok(right) => Ok(!(left && right)),
                },
            }
        },
        None => {
            proof {
                reveal_strlit("true");
                reveal_strlit("false");
            }
            if text_matches("true", chars, a, b) {
                assert("true"@ =~= true_text());
                Ok(true)
            } else if text_matches("false", chars, a, b) {
                assert("false"@ =~= false_text());
                Ok(false)
            } else {
                assert("true"@ =~= true_text());
                assert("false"@ =~= false_text());
                match env.lookup(chars, a, b) {
                    Some(v) => Ok(v),
                    None => Err(EvalError::UnknownVariable(text.substring_char(a, b).to_owned())),
                }
            }
        },
    }
}

/// The value of `formula` under `assignment`: NAND applied to the two
/// sides of the leftmost operator outside parentheses, after surrounding
/// whitespace and enclosing parentheses are stripped; `true`, `false` or
/// the bound value for an atom; `UnknownVariable` for the first atom that
/// is none of these.
pub fn evaluate_formula(formula: &str, assignment: &Assignment) -> (r: Result<bool, EvalError>)
    requires
        assignment.wf(),
    ensures
        outcome(r) == eval(formula@, assignment@),
{
    let chars = chars_of(formula);
    assert(chars@.subrange(0, chars@.len() as int) =~= formula@);
    eval_range(formula, &chars, 0, chars.len(), assignment)
}

} // verus!
