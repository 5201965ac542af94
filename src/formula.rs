//! The surface syntax of formulas and their meaning.
//!
//! A formula is text. Its structure is recovered by scanning: surrounding
//! whitespace and enclosing parentheses are stripped, then the text splits
//! at its leftmost NAND operator outside any parentheses. Text without such
//! an operator is an atom: a boolean literal or a variable name.

use vstd::prelude::*;
use vstd::std_specs::iter::IteratorSpec;

verus! {

/// The NAND operator glyph, `↑`.
pub const NAND: char = '\u{2191}';

/// Characters with the Unicode `White_Space` property, which `str::trim`
/// removes.
pub open spec fn white_space(c: char) -> bool {
    let u = c as u32;
    (0x09 <= u && u <= 0x0d) || u == 0x20 || u == 0x85 || u == 0xa0 || u == 0x1680
        || (0x2000 <= u && u <= 0x200a) || u == 0x2028 || u == 0x2029 || u == 0x202f
        || u == 0x205f || u == 0x3000
}

/// How a character changes the nesting depth of parentheses.
pub open spec fn paren_step(c: char) -> int {
    if c == '(' {
        1
    } else if c == ')' {
        -1
    } else {
        0
    }
}

/// Nesting depth after reading `s`: opening minus closing parentheses.
pub open spec fn depth(s: Seq<char>) -> int
    decreases s.len(),
{
    if s.len() == 0 {
        0
    } else {
        depth(s.drop_last()) + paren_step(s.last())
    }
}

/// `s` opens with `(`, closes with `)`, and its nesting depth first returns
/// to zero at its final character: the outer pair encloses all of it.
pub open spec fn enclosed(s: Seq<char>) -> bool {
    &&& s.len() >= 2
    &&& s[0] == '('
    &&& s.last() == ')'
    &&& depth(s) == 0
    &&& forall|i: int| 1 <= i < s.len() ==> depth(#[trigger] s.subrange(0, i)) != 0
}

/// `s` with surrounding whitespace removed and enclosing parentheses
/// stripped, repeatedly, until neither applies.
pub open spec fn normalize(s: Seq<char>) -> Seq<char>
    decreases s.len(),
{
    if s.len() > 0 && white_space(s[0]) {
        normalize(s.drop_first())
    } else if s.len() > 0 && white_space(s.last()) {
        normalize(s.drop_last())
    } else if enclosed(s) {
        normalize(s.subrange(1, s.len() - 1))
    } else {
        s
    }
}

/// Position `k` of `s` holds the operator, outside any parentheses.
pub open spec fn operator_at(s: Seq<char>, k: int) -> bool {
    0 <= k < s.len() && s[k] == NAND && depth(s.subrange(0, k)) == 0
}

/// The first position at or after `i` where `operator_at` holds.
pub open spec fn operator_from(s: Seq<char>, i: int) -> Option<int>
    decreases s.len() - i,
{
    if i >= s.len() {
        None
    } else if operator_at(s, i) {
        Some(i)
    } else {
        operator_from(s, i + 1)
    }
}

/// Normalizing never lengthens text.
pub proof fn lemma_normalize_len(s: Seq<char>)
    ensures
        normalize(s).len() <= s.len(),
    decreases s.len(),
{
    if s.len() > 0 && white_space(s[0]) {
        lemma_normalize_len(s.drop_first());
    } else if s.len() > 0 && white_space(s.last()) {
        lemma_normalize_len(s.drop_last());
    } else if enclosed(s) {
        lemma_normalize_len(s.subrange(1, s.len() - 1));
    }
}

/// An operator found from `i` lies in `s`, at or after `i`, and qualifies.
pub proof fn lemma_operator_from(s: Seq<char>, i: int)
    ensures
        operator_from(s, i) matches Some(k) ==> i <= k < s.len() && operator_at(s, k),
        operator_from(s, i) is None ==> forall|k: int| i <= k ==> !operator_at(s, k),
    decreases s.len() - i,
{
    if i < s.len() && !operator_at(s, i) {
        lemma_operator_from(s, i + 1);
        if operator_from(s, i) is None {
            assert forall|k: int| i <= k implies !operator_at(s, k) by {
                if k == i {
                }
            }
        }
    }
}

/// Depth grows character by character.
pub proof fn lemma_depth_step(s: Seq<char>, k: int)
    requires
        0 <= k < s.len(),
    ensures
        depth(s.subrange(0, k + 1)) == depth(s.subrange(0, k)) + paren_step(s[k]),
{
    assert(s.subrange(0, k + 1).drop_last() =~= s.subrange(0, k));
}

/// The literal `true`.
pub open spec fn true_text() -> Seq<char> {
    seq!['t', 'r', 'u', 'e']
}

/// The literal `false`.
pub open spec fn false_text() -> Seq<char> {
    seq!['f', 'a', 'l', 's', 'e']
}

/// The value of formula `s` under `env`, which maps variable names to
/// values; `Err(name)` for the first atom, left to right, that is neither
/// literal nor bound. A chain without parentheses nests to the right:
/// `a ↑ b ↑ c` is `a ↑ (b ↑ c)`.
pub open spec fn eval(s: Seq<char>, env: Map<Seq<char>, bool>) -> Result<bool, Seq<char>>
    decreases s.len(),
    via eval_decreases
{
    let t = normalize(s);
    match operator_from(t, 0) {
        Some(k) => match eval(t.subrange(0, k), env) {
            Err(name) => Err(name),
            Ok(left) => match eval(t.subrange(k + 1, t.len() as int), env) {
                Err(name) => Err(name),
                Ok(right) => Ok(!(left && right)),
            },
        },
        None => if t == true_text() {
            Ok(true)
        } else if t == false_text() {
            Ok(false)
        } else if env.contains_key(t) {
            Ok(env[t])
        } else {
            Err(t)
        },
    }
}

#[via_fn]
proof fn eval_decreases(s: Seq<char>, env: Map<Seq<char>, bool>) {
    lemma_normalize_len(s);
    lemma_operator_from(normalize(s), 0);
}

/// Executable `enclosed` on `chars[lo..hi]`.
pub(crate) fn enclosed_range(chars: &Vec<char>, lo: usize, hi: usize) -> (r: bool)
    requires
        lo <= hi <= chars.len(),
    ensures
        r == enclosed(chars@.subrange(lo as int, hi as int)),
{
    let ghost s = chars@.subrange(lo as int, hi as int);
    if hi - lo < 2 || chars[lo] != '(' || chars[hi - 1] != ')' {
        return false;
    }
    let mut d: usize = 0;
    let mut i: usize = lo;
    while i < hi
        invariant
            lo <= i <= hi <= chars.len(),
            s == chars@.subrange(lo as int, hi as int),
            s.len() >= 2,
            s[0] == '(',
            s.last() == ')',
            d as int == depth(s.subrange(0, i - lo)),
            d <= i - lo,
            i > lo ==> d >= 1,
            forall|j: int| 1 <= j <= i - lo ==> depth(#[trigger] s.subrange(0, j)) != 0,
        decreases hi - i,
    {
        proof {
            lemma_depth_step(s, i - lo);
        }
        if chars[i] == '(' {
            d = d + 1;
        } else if chars[i] == ')' {
            d = d - 1;
        }
        i = i + 1;
        if d == 0 {
            assert(s.subrange(0, i - lo) == s.subrange(0, (i - lo) as int));
            if i == hi {
                assert(s.subrange(0, s.len() as int) =~= s);
            }
            return i == hi;
        }
    }
    assert(s.subrange(0, s.len() as int) =~= s);
    false
}

/// The bounds of `normalize(chars[lo..hi])` within `chars`.
pub(crate) fn normalize_range(chars: &Vec<char>, lo: usize, hi: usize) -> (r: (usize, usize))
    requires
        lo <= hi <= chars.len(),
    ensures
        lo <= r.0 <= r.1 <= hi,
        chars@.subrange(r.0 as int, r.1 as int) == normalize(chars@.subrange(lo as int, hi as int)),
{
    let mut a: usize = lo;
    let mut b: usize = hi;
    loop
        invariant
            lo <= a <= b <= hi <= chars.len(),
            normalize(chars@.subrange(a as int, b as int)) == normalize(
                chars@.subrange(lo as int, hi as int),
            ),
        decreases b - a,
    {
        let ghost s = chars@.subrange(a as int, b as int);
        if a < b && is_white_space(chars[a]) {
            assert(s.drop_first() =~= chars@.subrange(a + 1, b as int));
            a = a + 1;
        } else if a < b && is_white_space(chars[b - 1]) {
            assert(s.drop_last() =~= chars@.subrange(a as int, b - 1));
            b = b - 1;
        } else if enclosed_range(chars, a, b) {
            assert(s.subrange(1, s.len() - 1) =~= chars@.subrange(a + 1, b - 1));
            a = a + 1;
            b = b - 1;
        } else {
            return (a, b);
        }
    }
}

/// The absolute position of `operator_from(chars[lo..hi], 0)`.
pub(crate) fn operator_in(chars: &Vec<char>, lo: usize, hi: usize) -> (r: Option<usize>)
    requires
        lo <= hi <= chars.len(),
    ensures
        match r {
            Some(p) => lo <= p < hi && operator_from(chars@.subrange(lo as int, hi as int), 0)
                == Some(p - lo),
            None => operator_from(chars@.subrange(lo as int, hi as int), 0) is None,
        },
{
    let ghost s = chars@.subrange(lo as int, hi as int);
    let mut opens: usize = 0;
    let mut closes: usize = 0;
    let mut i: usize = lo;
    while i < hi
        invariant
            lo <= i <= hi <= chars.len(),
            s == chars@.subrange(lo as int, hi as int),
            opens + closes <= i - lo,
            opens - closes == depth(s.subrange(0, i - lo)),
            operator_from(s, 0) == operator_from(s, i - lo),
        decreases hi - i,
    {
        proof {
            lemma_depth_step(s, i - lo);
        }
        let c = chars[i];
        if c == '(' {
            opens = opens + 1;
        } else if c == ')' {
            closes = closes + 1;
        } else if c == NAND && opens == closes {
            return Some(i);
        }
        i = i + 1;
    }
    None
}

/// The characters of `s`, in order.
pub(crate) fn chars_of(s: &str) -> (r: Vec<char>)
    ensures
        r@ == s@,
{
    let mut it = s.chars();
    let mut r: Vec<char> = Vec::new();
    loop
        invariant
            r@ + it.remaining() == s@,
        ensures
            r@ == s@,
        decreases s@.len() - r@.len(),
    {
        match it.next() {
            Some(c) => {
                r.push(c);
            },
            None => {
                assert(r@ + it.remaining() =~= r@);
                break;
            },
        }
    }
    r
}

/// Whether `text` reads exactly as `chars[lo..hi]`.
pub(crate) fn text_matches(text: &str, chars: &Vec<char>, lo: usize, hi: usize) -> (r: bool)
    requires
        lo <= hi <= chars.len(),
    ensures
        r == (text@ == chars@.subrange(lo as int, hi as int)),
{
    let n = text.unicode_len();
    if n != hi - lo {
        return false;
    }
    let mut i: usize = 0;
    while i < n
        invariant
            n == text@.len() == hi - lo,
            lo <= hi <= chars.len(),
            i <= n,
            forall|j: int| 0 <= j < i ==> text@[j] == chars@[lo + j],
        decreases n - i,
    {
        if text.get_char(i) != chars[lo + i] {
            return false;
        }
        i = i + 1;
    }
    assert(text@ =~= chars@.subrange(lo as int, hi as int));
    true
}

/// Executable `white_space`.
pub fn is_white_space(c: char) -> (r: bool)
    ensures
        r == white_space(c),
{
    let u = c as u32;
    (0x09 <= u && u <= 0x0d) || u == 0x20 || u == 0x85 || u == 0xa0 || u == 0x1680
        || (0x2000 <= u && u <= 0x200a) || u == 0x2028 || u == 0x2029 || u == 0x202f
        || u == 0x205f || u == 0x3000
}

} // verus!
