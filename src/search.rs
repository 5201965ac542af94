//! Exhaustive search for a satisfying assignment.
//!
//! The variables of a formula are taken in order of first appearance. The
//! candidate assignments are visited depth first, each variable `true`
//! before `false`, so the first candidate sets every variable `true` and the
//! last variable changes fastest.

use vstd::prelude::*;
use crate::assignment::{bind, Assignment};
use crate::evaluator::eval_range;
use crate::formula::{chars_of, eval};

verus! {

/// The texts of a sequence of strings.
pub open spec fn texts(v: Seq<String>) -> Seq<Seq<char>> {
    v.map_values(|s: String| s@)
}

/// The value lists over `n` variables, in depth-first order, `true` first.
pub open spec fn assignments(n: nat) -> Seq<Seq<bool>>
    decreases n,
{
    if n == 0 {
        seq![Seq::<bool>::empty()]
    } else {
        let rest = assignments((n - 1) as nat);
        rest.map_values(|v: Seq<bool>| seq![true] + v) + rest.map_values(
            |v: Seq<bool>| seq![false] + v,
        )
    }
}

/// The value lists that extend `p` by `m` more values, in search order.
pub open spec fn extensions(p: Seq<bool>, m: nat) -> Seq<Seq<bool>> {
    assignments(m).map_values(|v: Seq<bool>| p + v)
}

/// Where a search over a list of candidates stops.
pub enum Outcome {
    /// The first candidate under which the formula is true.
    Satisfied(Seq<bool>),
    /// An evaluation failed before any candidate satisfied the formula.
    Failed,
    /// Every candidate makes the formula false.
    Exhausted,
}

/// Evaluates `f` with `names` bound to each candidate of `list` in turn,
/// and stops at the first that makes it true or fails.
pub open spec fn first_outcome(f: Seq<char>, names: Seq<Seq<char>>, list: Seq<Seq<bool>>) -> Outcome
    decreases list.len(),
{
    if list.len() == 0 {
        Outcome::Exhausted
    } else {
        match eval(f, bind(names, list[0])) {
            Ok(true) => Outcome::Satisfied(list[0]),
            Ok(false) => first_outcome(f, names, list.drop_first()),
            Err(_) => Outcome::Failed,
        }
    }
}

/// The outcome of searching all assignments of `names` for one that makes
/// `f` true.
pub open spec fn search(f: Seq<char>, names: Seq<Seq<char>>) -> Outcome {
    first_outcome(f, names, assignments(names.len()))
}

/// `s` without repetitions, each element where it first appears.
pub open spec fn first_appearances(s: Seq<Seq<char>>) -> Seq<Seq<char>>
    decreases s.len(),
{
    if s.len() == 0 {
        Seq::empty()
    } else {
        let d = first_appearances(s.drop_last());
        if d.contains(s.last()) {
            d
        } else {
            d.push(s.last())
        }
    }
}

/// The verdict `r` reports `search(f, names)`: satisfiable exactly when the
/// search found a candidate, with a witness that binds `names`, in order,
/// to that candidate's values.
pub open spec fn reports(r: (bool, Option<Assignment>), f: Seq<char>, names: Seq<Seq<char>>) -> bool {
    match search(f, names) {
        Outcome::Satisfied(v) => {
            &&& r.0
            &&& r.1 matches Some(w)
            &&& w.wf()
            &&& w.name_seq() == names
            &&& w.value_seq() == v
        },
        _ => !r.0 && r.1 is None,
    }
}

/// Searching a concatenation searches the second part only when the first
/// is exhausted.
pub proof fn lemma_first_outcome_concat(
    f: Seq<char>,
    names: Seq<Seq<char>>,
    l1: Seq<Seq<bool>>,
    l2: Seq<Seq<bool>>,
)
    ensures
        first_outcome(f, names, l1 + l2) == (if first_outcome(f, names, l1) is Exhausted {
            first_outcome(f, names, l2)
        } else {
            first_outcome(f, names, l1)
        }),
    decreases l1.len(),
{
    if l1.len() == 0 {
        assert(l1 + l2 =~= l2);
    } else {
        assert((l1 + l2)[0] == l1[0]);
        assert((l1 + l2).drop_first() =~= l1.drop_first() + l2);
        lemma_first_outcome_concat(f, names, l1.drop_first(), l2);
    }
}

/// Extending by one more value: all extensions with `true` next, then all
/// with `false`.
pub proof fn lemma_extensions_split(p: Seq<bool>, m: nat)
    ensures
        extensions(p, m + 1) =~= extensions(p.push(true), m) + extensions(p.push(false), m),
{
    let rest = assignments(m);
    assert(assignments(m + 1) == rest.map_values(|v: Seq<bool>| seq![true] + v) + rest.map_values(
        |v: Seq<bool>| seq![false] + v,
    ));
    let lhs = extensions(p, m + 1);
    let rhs = extensions(p.push(true), m) + extensions(p.push(false), m);
    assert(lhs.len() == rhs.len());
    assert forall|j: int| 0 <= j < lhs.len() implies #[trigger] lhs[j] == rhs[j] by {
        if j < rest.len() {
            assert(p + (seq![true] + rest[j]) =~= p.push(true) + rest[j]);
        } else {
            let i = j - rest.len();
            assert(p + (seq![false] + rest[i]) =~= p.push(false) + rest[i]);
        }
    }
}

/// The depth-first search below the fixed prefix in `values`.
enum Probe {
    Found(Assignment),
    Failed,
    Exhausted,
}

/// `r` reports outcome `o` over `names`.
spec fn probe_reports(r: Probe, o: Outcome, names: Seq<Seq<char>>) -> bool {
    match o {
        Outcome::Satisfied(v) => r matches Probe::Found(w) && w.wf() && w.name_seq() == names
            && w.value_seq() == v,
        Outcome::Failed => r is Failed,
        Outcome::Exhausted => r is Exhausted,
    }
}

/// Searches the assignments that extend the values fixed in `values`,
/// leaving `values` as it was.
fn explore(formula: &str, chars: &Vec<char>, names: &Vec<String>, values: &mut Vec<bool>) -> (r: Probe)
    requires
        chars@ == formula@,
        old(values).len() <= names.len(),
        texts(names@).no_duplicates(),
    ensures
        final(values)@ == old(values)@,
        probe_reports(
            r,
            first_outcome(
                formula@,
                texts(names@),
                extensions(old(values)@, (names.len() - old(values).len()) as nat),
            ),
            texts(names@),
        ),
    decreases names.len() - old(values).len(),
{
    let ghost p = values@;
    let ghost nv = texts(names@);
    if values.len() == names.len() {
        assert(extensions(p, 0) =~= seq![p]) by {
            assert(p + Seq::<bool>::empty() =~= p);
        }
        let w = Assignment::from_parts(names, values);
        assert(w@ == bind(nv, p));
        assert(seq![p][0] == p);
        assert(seq![p].drop_first() =~= Seq::<Seq<bool>>::empty());
        let ghost o = first_outcome(formula@, nv, extensions(p, 0));
        assert(first_outcome(formula@, nv, Seq::<Seq<bool>>::empty()) is Exhausted);
        assert(chars@.subrange(0, chars@.len() as int) =~= formula@);
        match eval_range(formula, chars, 0, chars.len(), &w) {
            Ok(true) => {
                assert(o == Outcome::Satisfied(p));
                Probe::Found(w)
            },
            Ok(false) => {
                assert(o is Exhausted);
                Probe::Exhausted
            },
            Err(_) => {
                assert(o is Failed);
                Probe::Failed
            },
        }
    } else {
        let ghost m = (names.len() - values.len() - 1) as nat;
        proof {
            lemma_extensions_split(p, m);
            lemma_first_outcome_concat(formula@, nv, extensions(p.push(true), m), extensions(p.push(false), m));
        }
        values.push(true);
        let first = explore(formula, chars, names, values);
        values.pop();
        assert(values@ =~= p);
        match first {
            Probe::Exhausted => {
                values.push(false);
                let second = explore(formula, chars, names, values);
                values.pop();
                assert(values@ =~= p);
                second
            },
            _ => first,
        }
    }
}

/// Appends to `assignments`, in search order, every assignment of
/// `variables` whose first `index` values are those in `current`, and
/// leaves `current` as it was.
pub fn generate_assignments_recursive(
    variables: &Vec<String>,
    index: usize,
    current: &mut Vec<bool>,
    assignments: &mut Vec<Assignment>,
)
    requires
        index == old(current).len() <= variables.len(),
        texts(variables@).no_duplicates(),
    ensures
        final(current)@ == old(current)@,
        final(assignments)@.len() == old(assignments)@.len() + extensions(
            old(current)@,
            (variables.len() - index) as nat,
        ).len(),
        forall|i: int| 0 <= i < old(assignments)@.len() ==> final(assignments)@[i] == old(assignments)@[i],
        forall|j: int|
            0 <= j < extensions(old(current)@, (variables.len() - index) as nat).len() ==> {
                let w = #[trigger] final(assignments)@[old(assignments)@.len() + j];
                &&& w.wf()
                &&& w.name_seq() == texts(variables@)
                &&& w.value_seq() == extensions(old(current)@, (variables.len() - index) as nat)[j]
            },
    decreases variables.len() - index,
{
    let ghost p = current@;
    let ghost before = assignments@;
    if index == variables.len() {
        assert(extensions(p, 0) =~= seq![p]) by {
            assert(p + Seq::<bool>::empty() =~= p);
        }
        assignments.push(Assignment::from_parts(variables, current));
        return;
    }
    let ghost m = (variables.len() - index - 1) as nat;
    proof {
        lemma_extensions_split(p, m);
    }
    let ghost yes = extensions(p.push(true), m);
    let ghost no = extensions(p.push(false), m);
    current.push(true);
    generate_assignments_recursive(variables, index + 1, current, assignments);
    current.pop();
    assert(current@ =~= p);
    let ghost middle = assignments@;
    current.push(false);
    generate_assignments_recursive(variables, index + 1, current, assignments);
    current.pop();
    assert(current@ =~= p);
    assert forall|j: int| 0 <= j < extensions(p, m + 1).len() implies {
        let w = #[trigger] assignments@[before.len() + j];
        &&& w.wf()
        &&& w.name_seq() == texts(variables@)
        &&& w.value_seq() == extensions(p, m + 1)[j]
    } by {
        if j < yes.len() {
            assert(assignments@[before.len() + j] == middle[before.len() + j]);
        } else {
            let k = j - yes.len();
            assert(assignments@[middle.len() + k] == assignments@[before.len() + j]);
        }
    }
}

/// Every assignment of the distinct `variables`, in search order: `2^n` of
/// them for `n` variables, the first all `true`, the last variable changing
/// fastest.
pub fn generate_assignments(variables: &Vec<String>) -> (r: Vec<Assignment>)
    requires
        texts(variables@).no_duplicates(),
    ensures
        r@.len() == assignments(variables@.len() as nat).len(),
        forall|j: int|
            0 <= j < r@.len() ==> {
                &&& (#[trigger] r@[j]).wf()
                &&& r@[j].name_seq() == texts(variables@)
                &&& r@[j].value_seq() == assignments(variables@.len() as nat)[j]
            },
{
    let mut r: Vec<Assignment> = Vec::new();
    let mut current: Vec<bool> = Vec::new();
    proof {
        let all = assignments(variables@.len() as nat);
        assert forall|i: int| 0 <= i < all.len() implies #[trigger] extensions(current@, variables@.len() as nat)[i] == all[i] by {
            assert(Seq::<bool>::empty() + all[i] =~= all[i]);
        }
        assert(extensions(current@, variables@.len() as nat) =~= all);
    }
    generate_assignments_recursive(variables, 0, &mut current, &mut r);
    assert forall|j: int| 0 <= j < r@.len() implies {
        &&& (#[trigger] r@[j]).wf()
        &&& r@[j].name_seq() == texts(variables@)
        &&& r@[j].value_seq() == assignments(variables@.len() as nat)[j]
    } by {
        assert(r@[0 + j] == r@[j]);
    }
    r
}

/// Whether `name` is among `list`.
fn contains_text(list: &Vec<String>, name: &String) -> (r: bool)
    ensures
        r == texts(list@).contains(name@),
{
    let mut i: usize = 0;
    while i < list.len()
        invariant
            i <= list.len(),
            forall|j: int| 0 <= j < i ==> list@[j]@ != name@,
        decreases list.len() - i,
    {
        if list[i] == *name {
            assert(texts(list@)[i as int] == name@);
            return true;
        }
        i = i + 1;
    }
    proof {
        if texts(list@).contains(name@) {
            let j = choose|j: int| 0 <= j < texts(list@).len() && texts(list@)[j] == name@;
            assert(list@[j]@ == name@);
        }
    }
    false
}

/// The distinct names of `occurrences`, in order of first appearance.
pub fn distinct_names(occurrences: &Vec<String>) -> (r: Vec<String>)
    ensures
        texts(r@) == first_appearances(texts(occurrences@)),
        texts(r@).no_duplicates(),
{
    let mut r: Vec<String> = Vec::new();
    let mut i: usize = 0;
    while i < occurrences.len()
        invariant
            i <= occurrences.len(),
            texts(r@) == first_appearances(texts(occurrences@).subrange(0, i as int)),
            texts(r@).no_duplicates(),
        decreases occurrences.len() - i,
    {
        let ghost prefix = texts(occurrences@).subrange(0, i as int + 1);
        assert(prefix.drop_last() =~= texts(occurrences@).subrange(0, i as int));
        assert(prefix.last() == occurrences@[i as int]@);
        if !contains_text(&r, &occurrences[i]) {
            let ghost before = texts(r@);
            r.push(occurrences[i].clone());
            assert(texts(r@) =~= before.push(occurrences@[i as int]@));
            assert forall|a: int, b: int| 0 <= a < b < texts(r@).len() implies texts(r@)[a] != texts(r@)[b] by {
                if b == before.len() {
                    assert(before.contains(before[a]));
                }
            }
        }
        i = i + 1;
    }
    assert(texts(occurrences@).subrange(0, i as int) =~= texts(occurrences@));
    r
}

/// Runs the search over the variables listed, with repetitions, in
/// `occurrences`: `formula` is satisfiable exactly when some assignment of
/// the distinct names makes it true before any evaluation fails, and the
/// witness is the first such assignment in search order.
pub fn solve_with_occurrences(formula: &str, occurrences: &Vec<String>) -> (r: (bool, Option<Assignment>))
    ensures
        reports(r, formula@, first_appearances(texts(occurrences@))),
{
    let names = distinct_names(occurrences);
    let chars = chars_of(formula);
    let mut values: Vec<bool> = Vec::new();
    proof {
        assert(extensions(values@, names@.len() as nat) =~= assignments(names@.len() as nat)) by {
            let all = assignments(names@.len() as nat);
            assert forall|i: int| 0 <= i < all.len() implies #[trigger] extensions(values@, names@.len() as nat)[i] == all[i] by {
                assert(Seq::<bool>::empty() + all[i] =~= all[i]);
            }
        }
    }
    match explore(formula, &chars, &names, &mut values) {
        Probe::Found(w) => (true, Some(w)),
        _ => (false, None),
    }
}

/// The matches of the variable pattern `arg_\d+` in `s`, left to right.
pub uninterp spec fn variable_matches(s: Seq<char>) -> Seq<Seq<char>>;

/// Relies on `regex::Regex::new` and `regex::Regex::find_iter`: the
/// successive non-overlapping matches of `arg_\d+` in `formula`, left to
/// right, as text. The pattern is valid, so compiling it does not fail.
#[verifier::external_body]
fn variable_occurrences(formula: &str) -> (r: Vec<String>)
    ensures
        texts(r@) == variable_matches(formula@),
{
    let pattern = regex::Regex::new(r"arg_\d+").unwrap();
    pattern.find_iter(formula).map(|m| m.as_str().to_string()).collect()
}

/// Decides whether `formula` is satisfiable by trying every assignment of
/// its variables, the names matching `arg_\d+`, in search order. Reports
/// the first satisfying assignment as witness; an evaluation that fails
/// ends the search with no witness.
pub fn solve(formula: &str) -> (r: (bool, Option<Assignment>))
    ensures
        reports(r, formula@, first_appearances(variable_matches(formula@))),
{
    let occurrences = variable_occurrences(formula);
    solve_with_occurrences(formula, &occurrences)
}

} // verus!
