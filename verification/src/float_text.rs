//! The decimal-number grammar of standard 64-bit float parsing.
//!
//! A number token's text is accepted exactly when `str::parse::<f64>` would
//! accept it. Over the characters a number token can hold (digits, `-`, `+`,
//! `.`, `e`, `E`) the grammar documented for that function reduces to
//!
//! ```text
//! text     ::= sign? ( digits '.'? digits? | '.' digits ) exponent?
//! exponent ::= ('e' | 'E') sign? digits
//! ```
//!
//! which is stated here as a spec function and decided by verified code, so
//! that no float ever has to be computed inside the library: the token keeps
//! the accepted text, and callers convert it when they need the value.

use vstd::prelude::*;

verus! {

pub open spec fn is_digit(c: char) -> bool {
    '0' <= c <= '9'
}

/// First index at or after `i` that does not hold a digit.
pub open spec fn digit_run_end(s: Seq<char>, i: int) -> int
    decreases s.len() - i,
{
    if i < 0 || i >= s.len() || !is_digit(s[i]) {
        i
    } else {
        digit_run_end(s, i + 1)
    }
}

pub proof fn lemma_digit_run_end(s: Seq<char>, i: int)
    requires
        0 <= i <= s.len(),
    ensures
        i <= digit_run_end(s, i) <= s.len(),
    decreases s.len() - i,
{
    if i < s.len() && is_digit(s[i]) {
        lemma_digit_run_end(s, i + 1);
    }
}

/// Where the mantissa (sign excluded) ends, if it is well formed: a run of
/// digits with an optional dot and further digits, or a dot followed by at
/// least one digit.
pub open spec fn mantissa_end(s: Seq<char>, i: int) -> Option<int> {
    let d = digit_run_end(s, i);
    if d > i {
        if d < s.len() && s[d] == '.' {
            Some(digit_run_end(s, d + 1))
        } else {
            Some(d)
        }
    } else if i < s.len() && s[i] == '.' && digit_run_end(s, i + 1) > i + 1 {
        Some(digit_run_end(s, i + 1))
    } else {
        None
    }
}

/// From `i` the text either ends or holds a complete exponent: `e` or `E`,
/// an optional sign, and at least one digit reaching the end.
pub open spec fn exponent_ok(s: Seq<char>, i: int) -> bool {
    if i == s.len() {
        true
    } else if i < s.len() && (s[i] == 'e' || s[i] == 'E') {
        let j = if i + 1 < s.len() && (s[i + 1] == '-' || s[i + 1] == '+') {
            i + 2
        } else {
            i + 1
        };
        j < s.len() && digit_run_end(s, j) == s.len()
    } else {
        false
    }
}

/// Whether `s` is a well-formed float text: an optional sign, a mantissa,
/// and an optional exponent.
pub open spec fn is_float_text(s: Seq<char>) -> bool {
    let b: int = if s.len() > 0 && (s[0] == '-' || s[0] == '+') {
        1
    } else {
        0
    };
    match mantissa_end(s, b) {
        Some(m) => exponent_ok(s, m),
        None => false,
    }
}

/// Scan the run of digits beginning at `from`.
fn digit_run(v: &Vec<char>, from: usize) -> (r: usize)
    requires
        from <= v@.len(),
    ensures
        r as int == digit_run_end(v@, from as int),
        from <= r <= v@.len(),
{
    let mut i = from;
    while i < v.len() && '0' <= v[i] && v[i] <= '9'
        invariant
            from <= i <= v@.len(),
            digit_run_end(v@, from as int) == digit_run_end(v@, i as int),
        decreases v@.len() - i,
    {
        i = i + 1;
    }
    proof {
        lemma_digit_run_end(v@, i as int);
    }
    i
}

/// Decide `is_float_text` for the characters of `v`.
pub fn float_text_valid(v: &Vec<char>) -> (b: bool)
    ensures
        b == is_float_text(v@),
{
    let n = v.len();
    let start: usize = if n > 0 && (v[0] == '-' || v[0] == '+') {
        1
    } else {
        0
    };
    let d = digit_run(v, start);
    let m: usize;
    if d > start {
        if d < n && v[d] == '.' {
            m = digit_run(v, d + 1);
        } else {
            m = d;
        }
    } else if start < n && v[start] == '.' {
        let d2 = digit_run(v, start + 1);
        if d2 > start + 1 {
            m = d2;
        } else {
            return false;
        }
    } else {
        return false;
    }
    if m == n {
        return true;
    }
    let c = v[m];
    if c == 'e' || c == 'E' {
        let j: usize = if m + 1 < n && (v[m + 1] == '-' || v[m + 1] == '+') {
            m + 2
        } else {
            m + 1
        };
        if j < n && digit_run(v, j) == n {
            return true;
        }
    }
    false
}

} // verus!
