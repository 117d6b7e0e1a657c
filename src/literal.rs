use vstd::prelude::*;
use crate::error::QueryError;
use crate::task::SQLLiteral;

verus! {

pub open spec fn is_digit(c: char) -> bool {
    '0' <= c <= '9'
}

pub open spec fn all_digits(s: Seq<char>) -> bool {
    forall|i: int| 0 <= i < s.len() ==> is_digit(#[trigger] s[i])
}

/// The value of a string of decimal digits.
pub open spec fn digits_value(s: Seq<char>) -> int
    decreases s.len(),
{
    if s.len() == 0 {
        0
    } else {
        digits_value(s.drop_last()) * 10 + (s.last() as int - '0' as int)
    }
}

/// The digits of a literal and whether it is negative: an optional sign, then the rest.
pub open spec fn sign_split(s: Seq<char>) -> (bool, Seq<char>) {
    if s.len() > 0 && s[0] == '-' {
        (true, s.drop_first())
    } else if s.len() > 0 && s[0] == '+' {
        (false, s.drop_first())
    } else {
        (false, s)
    }
}

/// The value of `s` read as a signed 64-bit decimal integer, if it is one.
pub open spec fn i64_literal(s: Seq<char>) -> Option<int> {
    let (neg, d) = sign_split(s);
    let v = if neg { -digits_value(d) } else { digits_value(d) };
    if d.len() > 0 && all_digits(d) && i64::MIN <= v <= i64::MAX {
        Some(v)
    } else {
        None
    }
}

/// One step of the recogniser of decimal numbers,
/// `[+-]?(d+(.d*)?|.d+)([eE][+-]?d+)?`. States: 0 start, 1 after a sign,
/// 2 integer digits, 3 point after digits, 4 fraction digits, 5 point with no
/// digit before it, 6 exponent mark, 7 exponent sign, 8 exponent digits.
pub open spec fn decimal_step(st: u8, c: char) -> Option<u8> {
    if is_digit(c) {
        if st == 0 || st == 1 || st == 2 {
            Some(2)
        } else if st == 3 || st == 4 || st == 5 {
            Some(4)
        } else if st == 6 || st == 7 || st == 8 {
            Some(8)
        } else {
            None
        }
    } else if c == '+' || c == '-' {
        if st == 0 {
            Some(1)
        } else if st == 6 {
            Some(7)
        } else {
            None
        }
    } else if c == '.' {
        if st == 0 || st == 1 {
            Some(5)
        } else if st == 2 {
            Some(3)
        } else {
            None
        }
    } else if c == 'e' || c == 'E' {
        if st == 2 || st == 3 || st == 4 {
            Some(6)
        } else {
            None
        }
    } else {
        None
    }
}

/// The recogniser's state after the first `k` characters; `None` once it fails.
pub open spec fn decimal_state(s: Seq<char>, k: int) -> Option<u8>
    decreases k,
{
    if k <= 0 {
        Some(0)
    } else {
        match decimal_state(s, k - 1) {
            Some(st) => decimal_step(st, s[k - 1]),
            None => None,
        }
    }
}

/// Whether `s` is the text of a decimal number:
/// `[+-]?(d+(.d*)?|.d+)([eE][+-]?d+)?`.
pub open spec fn is_decimal_text(s: Seq<char>) -> bool {
    match decimal_state(s, s.len() as int) {
        Some(st) => st == 2 || st == 3 || st == 4 || st == 8,
        None => false,
    }
}

fn decimal_step_exec(st: u8, c: char) -> (r: Option<u8>)
    ensures
        r == decimal_step(st, c),
{
    if '0' <= c && c <= '9' {
        if st == 0 || st == 1 || st == 2 {
            Some(2)
        } else if st == 3 || st == 4 || st == 5 {
            Some(4)
        } else if st == 6 || st == 7 || st == 8 {
            Some(8)
        } else {
            None
        }
    } else if c == '+' || c == '-' {
        if st == 0 {
            Some(1)
        } else if st == 6 {
            Some(7)
        } else {
            None
        }
    } else if c == '.' {
        if st == 0 || st == 1 {
            Some(5)
        } else if st == 2 {
            Some(3)
        } else {
            None
        }
    } else if c == 'e' || c == 'E' {
        if st == 2 || st == 3 || st == 4 {
            Some(6)
        } else {
            None
        }
    } else {
        None
    }
}

proof fn lemma_prefix_le(s: Seq<char>, k: int)
    requires
        all_digits(s),
        0 <= k <= s.len(),
    ensures
        0 <= digits_value(s.subrange(0, k)) <= digits_value(s),
    decreases s.len(),
{
    if s.len() > 0 {
        let t = s.drop_last();
        assert(all_digits(t));
        if k == s.len() {
            assert(s.subrange(0, k) =~= s);
            lemma_prefix_le(t, t.len() as int);
            assert(t.subrange(0, t.len() as int) =~= t);
        } else {
            lemma_prefix_le(t, k);
            assert(t.subrange(0, k) =~= s.subrange(0, k));
            lemma_prefix_le(t, t.len() as int);
            assert(t.subrange(0, t.len() as int) =~= t);
        }
    } else {
        assert(s.subrange(0, k) =~= s);
    }
}

/// Reads `s` as a signed 64-bit decimal integer.
pub fn parse_i64(s: &str) -> (r: Option<i64>)
    ensures
        match i64_literal(s@) {
            Some(v) => r == Some(v as i64),
            None => r is None,
        },
{
    let n = s.unicode_len();
    let mut start: usize = 0;
    let mut neg = false;
    if n > 0 && s.get_char(0) == '-' {
        neg = true;
        start = 1;
    } else if n > 0 && s.get_char(0) == '+' {
        start = 1;
    }
    let ghost d = sign_split(s@).1;
    assert(d =~= s@.subrange(start as int, n as int));
    if start >= n {
        return None;
    }
    // magnitude so far; the largest magnitude is 2^63
    let mut acc: u64 = 0;
    let mut i: usize = start;
    while i < n
        invariant
            start <= i <= n,
            n == s@.len(),
            d == s@.subrange(start as int, n as int),
            d == sign_split(s@).1,
            neg == sign_split(s@).0,
            all_digits(s@.subrange(start as int, i as int)),
            acc as int == digits_value(s@.subrange(start as int, i as int)),
            acc <= 9223372036854775808,
        decreases n - i,
    {
        let c = s.get_char(i);
        proof {
            assert(s@.subrange(start as int, i + 1).drop_last() =~= s@.subrange(start as int, i as int));
        }
        if !('0' <= c && c <= '9') {
            proof {
                assert(s@.subrange(start as int, n as int)[i - start] == c);
                assert(d[i - start] == c);
                assert(!is_digit(d[i - start]));
                assert(!all_digits(d));
            }
            return None;
        }
        let digit = (c as u32 - '0' as u32) as u64;
        if acc > (9223372036854775808 - digit) / 10 {
            proof {
                let cur = s@.subrange(start as int, i + 1);
                assert(cur.drop_last() =~= s@.subrange(start as int, i as int));
                assert(acc * 10 + digit > 9223372036854775808) by (nonlinear_arith)
                    requires
                        acc > (9223372036854775808 - digit) / 10,
                        digit <= 9,
                ;
                assert(digits_value(cur) == acc * 10 + digit);
                if all_digits(d) {
                    lemma_prefix_le(d, i + 1 - start);
                    assert(d.subrange(0, i + 1 - start) =~= cur);
                    assert(digits_value(d) > 9223372036854775808);
                }
                assert(i64_literal(s@) is None);
            }
            return None;
        }
        assert(acc * 10 + digit <= 9223372036854775808) by (nonlinear_arith)
            requires
                acc <= (9223372036854775808 - digit) / 10,
                digit <= 9,
        ;
        acc = acc * 10 + digit;
        proof {
            assert(all_digits(s@.subrange(start as int, i + 1)));
        }
        i = i + 1;
    }
    if neg {
        if acc == 9223372036854775808 {
            Some(i64::MIN)
        } else {
            Some(-(acc as i64))
        }
    } else {
        if acc > 9223372036854775807 {
            None
        } else {
            Some(acc as i64)
        }
    }
}

pub open spec fn has_point(s: Seq<char>) -> bool {
    exists|i: int| 0 <= i < s.len() && #[trigger] s[i] == '.'
}

/// Whether `s` is the text of a decimal number.
pub fn is_decimal(s: &str) -> (r: bool)
    ensures
        r == is_decimal_text(s@),
{
    let n = s.unicode_len();
    let mut st: u8 = 0;
    let mut i: usize = 0;
    while i < n
        invariant
            i <= n,
            n == s@.len(),
            decimal_state(s@, i as int) == Some(st),
        decreases n - i,
    {
        match decimal_step_exec(st, s.get_char(i)) {
            Some(t) => st = t,
            None => {
                proof {
                    lemma_dead_stays(s@, i + 1, n as int);
                }
                return false;
            },
        }
        i = i + 1;
    }
    st == 2 || st == 3 || st == 4 || st == 8
}

proof fn lemma_dead_stays(s: Seq<char>, k: int, m: int)
    requires
        1 <= k <= m,
        decimal_state(s, k) is None,
    ensures
        decimal_state(s, m) is None,
    decreases m - k,
{
    if m > k {
        lemma_dead_stays(s, k, m - 1);
    }
}

fn contains_point(s: &str) -> (r: bool)
    ensures
        r == has_point(s@),
{
    let n = s.unicode_len();
    let mut i: usize = 0;
    while i < n
        invariant
            i <= n,
            n == s@.len(),
            forall|j: int| 0 <= j < i ==> #[trigger] s@[j] != '.',
        decreases n - i,
    {
        if s.get_char(i) == '.' {
            return true;
        }
        i = i + 1;
    }
    false
}

pub open spec fn is_integer_text(s: Seq<char>) -> bool {
    !has_point(s) && i64_literal(s) is Some
}

/// What reading the text `s` of a numeric constant gives: a signed 64-bit
/// integer when it has no point and fits, a decimal otherwise, and an error
/// when it is neither.
pub open spec fn reads_number(s: Seq<char>, r: Result<SQLLiteral, QueryError>) -> bool {
    match r {
        Ok(SQLLiteral::Integer(v)) => is_integer_text(s) && i64_literal(s) == Some(v as int),
        Ok(SQLLiteral::Float(t)) => !is_integer_text(s) && is_decimal_text(s) && t@ == s,
        Ok(SQLLiteral::String(_)) => false,
        Err(QueryError::InvalidNumber(t)) => !is_integer_text(s) && !is_decimal_text(s) && t@ == s,
        Err(_) => false,
    }
}

/// Reads the text of a numeric constant.
pub fn number_literal(s: &String) -> (r: Result<SQLLiteral, QueryError>)
    ensures
        reads_number(s@, r),
{
    let t = s.as_str();
    if !contains_point(t) {
        if let Some(v) = parse_i64(t) {
            return Ok(SQLLiteral::Integer(v));
        }
    }
    if is_decimal(t) {
        Ok(SQLLiteral::Float(s.clone()))
    } else {
        Err(QueryError::InvalidNumber(s.clone()))
    }
}

} // verus!
