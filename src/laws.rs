//! Properties of evaluation and search, stated over the specification.

use vstd::prelude::*;
use vstd::arithmetic::power2::{pow2, lemma_pow2_unfold};
use crate::assignment::bind;
use crate::formula::{
    depth, enclosed, eval, false_text, lemma_depth_step, lemma_operator_from, normalize,
    operator_at, operator_from, paren_step, true_text, white_space, NAND,
};
use crate::search::{assignments, first_outcome, search, Outcome};

verus! {

/// A name that stands alone as an atom: non-empty, neither literal, and
/// free of whitespace, parentheses and the operator.
pub open spec fn plain_name(x: Seq<char>) -> bool {
    &&& x.len() > 0
    &&& x != true_text()
    &&& x != false_text()
    &&& forall|i: int|
        0 <= i < x.len() ==> !white_space(#[trigger] x[i]) && x[i] != '(' && x[i] != ')' && x[i]
            != NAND
}

/// Text without parentheses has depth zero.
proof fn lemma_depth_flat(s: Seq<char>)
    requires
        forall|i: int| 0 <= i < s.len() ==> #[trigger] s[i] != '(' && s[i] != ')',
    ensures
        depth(s) == 0,
    decreases s.len(),
{
    if s.len() > 0 {
        lemma_depth_flat(s.drop_last());
    }
}

/// A plain name is its own normal form, and evaluates by lookup.
proof fn lemma_plain_eval(x: Seq<char>, env: Map<Seq<char>, bool>)
    requires
        plain_name(x),
    ensures
        normalize(x) == x,
        eval(x, env) == (if env.contains_key(x) {
            Ok::<bool, Seq<char>>(env[x])
        } else {
            Err(x)
        }),
{
    assert(!white_space(x[0]));
    assert(!white_space(x[x.len() - 1]));
    assert(x[0] != '(');
    assert(normalize(x) == x);
    lemma_operator_from(x, 0);
    if operator_from(x, 0) is Some {
        let k = operator_from(x, 0)->Some_0;
        assert(x[k] != NAND);
    }
}

/// `eval("x ↑ y", {x: a, y: b}) == !(a && b)` for distinct plain names
/// `x` and `y` and all values `a` and `b`.
pub proof fn lemma_nand_truth_table(x: Seq<char>, y: Seq<char>, a: bool, b: bool)
    requires
        plain_name(x),
        plain_name(y),
        x != y,
    ensures
        eval(x + seq![' ', NAND, ' '] + y, map![x => a, y => b]) == Ok::<bool, Seq<char>>(!(a && b)),
{
    let env = map![x => a, y => b];
    let s = x + seq![' ', NAND, ' '] + y;
    let k = x.len() as int + 1;
    assert(s[0] == x[0]);
    assert(s.last() == y[y.len() - 1]);
    assert(!white_space(s[0]) && !white_space(s.last()) && s[0] != '(');
    assert(white_space(' '));
    assert(normalize(s) == s);
    assert forall|i: int| 0 <= i < k implies !operator_at(s, i) by {
        if i < x.len() {
            assert(s[i] == x[i]);
        }
    }
    assert(s.subrange(0, k) =~= x.push(' '));
    lemma_depth_flat(x.push(' '));
    assert(operator_at(s, k));
    lemma_first_operator(s, 0, k);
    let left = s.subrange(0, k);
    let right = s.subrange(k + 1, s.len() as int);
    assert(left.drop_last() =~= x);
    assert(right =~= seq![' '] + y);
    assert(right.drop_first() =~= y);
    assert(x[x.len() - 1] == left[left.len() - 2]);
    assert(!white_space(left[0]));
    assert(normalize(left) == normalize(x));
    assert(normalize(right) == normalize(y));
    lemma_plain_eval(x, env);
    lemma_plain_eval(y, env);
    assert(eval(left, env) == eval(x, env));
    assert(eval(right, env) == eval(y, env));
    assert(env.contains_key(x) && env[x] == a);
    assert(env.contains_key(y) && env[y] == b);
}

/// The first operator from `i` is at `k` when `k` holds one and none lies
/// between.
proof fn lemma_first_operator(s: Seq<char>, i: int, k: int)
    requires
        0 <= i <= k,
        operator_at(s, k),
        forall|j: int| i <= j < k ==> !operator_at(s, j),
    ensures
        operator_from(s, i) == Some(k),
    decreases k - i,
{
    if i < k {
        lemma_first_operator(s, i + 1, k);
    }
}

/// Every prefix of `f` has non-negative depth and `f` as a whole has depth
/// zero: its parentheses pair up.
pub open spec fn balanced(f: Seq<char>) -> bool {
    &&& depth(f) == 0
    &&& forall|i: int| 0 <= i <= f.len() ==> depth(#[trigger] f.subrange(0, i)) >= 0
}

/// `f` in parentheses.
pub open spec fn parenthesized(f: Seq<char>) -> Seq<char> {
    seq!['('] + f + seq![')']
}

/// The depth of a prefix of `(f)` is one more than that of `f`'s prefix.
proof fn lemma_parenthesized_depth(f: Seq<char>, i: int)
    requires
        1 <= i <= f.len() + 1,
    ensures
        depth(parenthesized(f).subrange(0, i)) == 1 + depth(f.subrange(0, i - 1)),
    decreases i,
{
    let g = parenthesized(f);
    if i == 1 {
        assert(g.subrange(0, 1).drop_last() =~= Seq::<char>::empty());
        assert(f.subrange(0, 0) =~= Seq::<char>::empty());
    } else {
        lemma_parenthesized_depth(f, i - 1);
        lemma_depth_step(g, i - 1);
        lemma_depth_step(f, i - 2);
        assert(g[i - 1] == f[i - 2]);
    }
}

/// Enclosing a balanced formula in parentheses does not change its value.
pub proof fn lemma_parentheses_transparent(f: Seq<char>, env: Map<Seq<char>, bool>)
    requires
        balanced(f),
    ensures
        eval(parenthesized(f), env) == eval(f, env),
{
    let g = parenthesized(f);
    let n = g.len() as int;
    assert forall|i: int| 1 <= i < n implies depth(#[trigger] g.subrange(0, i)) != 0 by {
        lemma_parenthesized_depth(f, i);
        assert(depth(f.subrange(0, i - 1)) >= 0);
    }
    lemma_parenthesized_depth(f, n - 1);
    lemma_depth_step(g, n - 1);
    assert(g.subrange(0, n) =~= g);
    assert(f.subrange(0, f.len() as int) =~= f);
    assert(depth(f.subrange(0, n - 2)) >= 0);
    assert(paren_step(g[n - 1]) == -1);
    assert(depth(g) == 0);
    assert(enclosed(g));
    assert(g.subrange(1, n - 1) =~= f);
    assert(normalize(g) == normalize(f));
}

/// There are `2^n` assignments of `n` variables.
pub proof fn lemma_assignment_count(n: nat)
    ensures
        assignments(n).len() == pow2(n),
    decreases n,
{
    if n == 0 {
        assert(pow2(0) == 1) by {
            vstd::arithmetic::power2::lemma2_to64();
        }
    } else {
        lemma_assignment_count((n - 1) as nat);
        lemma_pow2_unfold(n);
    }
}

/// How many evaluations a search over `list` performs before it stops.
pub open spec fn evaluations(f: Seq<char>, names: Seq<Seq<char>>, list: Seq<Seq<bool>>) -> nat
    decreases list.len(),
{
    if list.len() == 0 {
        0
    } else {
        match eval(f, bind(names, list[0])) {
            Ok(false) => 1 + evaluations(f, names, list.drop_first()),
            _ => 1,
        }
    }
}

/// A search evaluates each candidate at most once.
proof fn lemma_evaluations_bound(f: Seq<char>, names: Seq<Seq<char>>, list: Seq<Seq<bool>>)
    ensures
        evaluations(f, names, list) <= list.len(),
    decreases list.len(),
{
    if list.len() > 0 {
        lemma_evaluations_bound(f, names, list.drop_first());
    }
}

/// A search over the assignments of `n` distinct variables performs at
/// most `2^n` evaluations.
pub proof fn lemma_search_bound(f: Seq<char>, names: Seq<Seq<char>>)
    ensures
        evaluations(f, names, assignments(names.len())) <= pow2(names.len()),
{
    lemma_assignment_count(names.len());
    lemma_evaluations_bound(f, names, assignments(names.len()));
}

/// Each assignment of `n` variables has `n` values, and every list of `n`
/// values is among them.
pub proof fn lemma_assignments_complete(n: nat)
    ensures
        forall|i: int| 0 <= i < assignments(n).len() ==> (#[trigger] assignments(n)[i]).len() == n,
        forall|v: Seq<bool>| v.len() == n ==> #[trigger] assignments(n).contains(v),
    decreases n,
{
    if n > 0 {
        let m = (n - 1) as nat;
        let rest = assignments(m);
        lemma_assignments_complete(m);
        assert forall|v: Seq<bool>| v.len() == n implies #[trigger] assignments(n).contains(v) by {
            let tail = v.drop_first();
            assert(rest.contains(tail));
            let j = choose|j: int| 0 <= j < rest.len() && rest[j] == tail;
            if v[0] {
                assert(assignments(n)[j] =~= v);
            } else {
                assert(assignments(n)[rest.len() + j] =~= v);
            }
        }
    } else {
        assert forall|v: Seq<bool>| v.len() == n implies #[trigger] assignments(n).contains(v) by {
            assert(assignments(n)[0] =~= v);
        }
    }
}

/// Where a search over `list` stops, and why.
proof fn lemma_first_outcome_meaning(f: Seq<char>, names: Seq<Seq<char>>, list: Seq<Seq<bool>>)
    ensures
        first_outcome(f, names, list) matches Outcome::Satisfied(v) ==> list.contains(v) && eval(
            f,
            bind(names, v),
        ) == Ok::<bool, Seq<char>>(true),
        first_outcome(f, names, list) is Exhausted ==> forall|i: int|
            0 <= i < list.len() ==> eval(f, bind(names, #[trigger] list[i])) == Ok::<
                bool,
                Seq<char>,
            >(false),
        first_outcome(f, names, list) is Failed ==> exists|i: int|
            0 <= i < list.len() && eval(f, bind(names, #[trigger] list[i])) is Err,
    decreases list.len(),
{
    if list.len() > 0 {
        let tail = list.drop_first();
        lemma_first_outcome_meaning(f, names, tail);
        if let Outcome::Satisfied(v) = first_outcome(f, names, list) {
            if v != list[0] {
                let j = choose|j: int| 0 <= j < tail.len() && tail[j] == v;
                assert(list[j + 1] == v);
            }
        }
        if first_outcome(f, names, list) is Exhausted {
            assert forall|i: int| 0 <= i < list.len() implies eval(f, bind(names, #[trigger] list[i]))
                == Ok::<bool, Seq<char>>(false) by {
                if i > 0 {
                    assert(list[i] == tail[i - 1]);
                }
            }
        }
        if first_outcome(f, names, list) is Failed {
            if !(eval(f, bind(names, list[0])) is Err) {
                let j = choose|j: int| 0 <= j < tail.len() && eval(f, bind(names, #[trigger] tail[j])) is Err;
                assert(list[j + 1] == tail[j]);
            }
        }
    }
}

/// What a verdict means: a witness has a value for each variable and makes
/// the formula true; an exhausted search means that every assignment makes
/// it false; a failed one that some assignment leaves it without a value.
pub proof fn lemma_search_meaning(f: Seq<char>, names: Seq<Seq<char>>)
    ensures
        search(f, names) matches Outcome::Satisfied(v) ==> v.len() == names.len() && eval(
            f,
            bind(names, v),
        ) == Ok::<bool, Seq<char>>(true),
        search(f, names) is Exhausted ==> forall|v: Seq<bool>|
            v.len() == names.len() ==> eval(f, #[trigger] bind(names, v)) == Ok::<bool, Seq<char>>(
                false,
            ),
        search(f, names) is Failed ==> exists|v: Seq<bool>|
            v.len() == names.len() && eval(f, #[trigger] bind(names, v)) is Err,
{
    let all = assignments(names.len());
    lemma_assignments_complete(names.len());
    lemma_first_outcome_meaning(f, names, all);
    if let Outcome::Satisfied(v) = search(f, names) {
        let j = choose|j: int| 0 <= j < all.len() && all[j] == v;
        assert(all[j].len() == names.len());
    }
    if search(f, names) is Exhausted {
        assert forall|v: Seq<bool>| v.len() == names.len() implies eval(f, #[trigger] bind(names, v))
            == Ok::<bool, Seq<char>>(false) by {
            assert(all.contains(v));
            let j = choose|j: int| 0 <= j < all.len() && all[j] == v;
            assert(eval(f, bind(names, all[j])) == Ok::<bool, Seq<char>>(false));
        }
    }
    if search(f, names) is Failed {
        let j = choose|j: int| 0 <= j < all.len() && eval(f, bind(names, #[trigger] all[j])) is Err;
        assert(all[j].len() == names.len());
    }
}

} // verus!
