//! Decimal numbers: reading a `usize` from text the way `str::parse::<usize>` does,
//! and writing one back.
use vstd::prelude::*;
use crate::text::{chars_of, push_char};

verus! {

/// Why a text is not a decimal `usize` (the kinds `str::parse::<usize>` reports).
#[derive(Debug, Clone, Copy, PartialEq, Eq, Structural)]
pub enum IntErrorKind {
    /// The text is empty.
    Empty,
    /// The text holds a character that is not a decimal digit (or is a lone sign).
    InvalidDigit,
    /// The number is larger than `usize::MAX`.
    PosOverflow,
}

pub open spec fn is_digit(c: char) -> bool {
    '0' <= c && c <= '9'
}

pub open spec fn digit_value(c: char) -> nat {
    (c as int - 48) as nat
}

/// The value of a sequence of decimal digits, most significant first.
pub open spec fn decimal_value(ds: Seq<char>) -> nat
    decreases ds.len(),
{
    if ds.len() == 0 {
        0
    } else {
        decimal_value(ds.drop_last()) * 10 + digit_value(ds.last())
    }
}

/// The number of decimal digits at the start of `s`.
pub open spec fn digit_prefix_len(s: Seq<char>) -> nat
    decreases s.len(),
{
    if s.len() == 0 || !is_digit(s[0]) {
        0
    } else {
        1 + digit_prefix_len(s.drop_first())
    }
}

/// What `str::parse::<usize>` gives for the text `s`: an optional `+` followed by
/// decimal digits. Scanning left to right, the first character that is not a digit
/// is an invalid digit, unless the digits before it already exceed `usize::MAX`.
pub open spec fn parse_usize_spec(s: Seq<char>) -> Result<usize, IntErrorKind> {
    if s.len() == 0 {
        Err(IntErrorKind::Empty)
    } else if s == seq!['+'] {
        Err(IntErrorKind::InvalidDigit)
    } else {
        let ds = if s[0] == '+' { s.drop_first() } else { s };
        let k = digit_prefix_len(ds);
        if decimal_value(ds.take(k as int)) > usize::MAX {
            Err(IntErrorKind::PosOverflow)
        } else if k < ds.len() {
            Err(IntErrorKind::InvalidDigit)
        } else {
            Ok(decimal_value(ds) as usize)
        }
    }
}

pub open spec fn digit_char(d: nat) -> char {
    ((d + 48) as u8) as char
}

/// The decimal writing of `n`, without sign or leading zeros.
pub open spec fn decimal_string(n: nat) -> Seq<char>
    decreases n,
{
    if n < 10 {
        seq![digit_char(n)]
    } else {
        decimal_string(n / 10).push(digit_char(n % 10))
    }
}

proof fn lemma_digit_prefix_len(s: Seq<char>, m: int)
    requires
        0 <= m <= s.len(),
        forall|j: int| 0 <= j < m ==> is_digit(#[trigger] s[j]),
    ensures
        digit_prefix_len(s) >= m,
        digit_prefix_len(s) <= s.len(),
        m == s.len() || !is_digit(s[m]) ==> digit_prefix_len(s) == m,
    decreases m,
{
    if m > 0 {
        lemma_digit_prefix_len(s.drop_first(), m - 1);
    } else {
        lemma_digit_prefix_len_bound(s);
    }
}

proof fn lemma_digit_prefix_len_bound(s: Seq<char>)
    ensures
        digit_prefix_len(s) <= s.len(),
    decreases s.len(),
{
    if s.len() > 0 {
        lemma_digit_prefix_len_bound(s.drop_first());
    }
}

proof fn lemma_decimal_value_take_step(s: Seq<char>, k: int)
    requires
        0 <= k < s.len(),
    ensures
        decimal_value(s.take(k + 1)) == decimal_value(s.take(k)) * 10 + digit_value(s[k]),
{
    assert(s.take(k + 1).drop_last() =~= s.take(k));
}

proof fn lemma_decimal_value_monotone(s: Seq<char>, m: int, k: int)
    requires
        0 <= m <= k <= s.len(),
    ensures
        decimal_value(s.take(m)) <= decimal_value(s.take(k)),
    decreases k - m,
{
    if m < k {
        lemma_decimal_value_monotone(s, m, k - 1);
        lemma_decimal_value_take_step(s, k - 1);
        assert(decimal_value(s.take(k - 1)) <= decimal_value(s.take(k - 1)) * 10) by (nonlinear_arith);
    }
}

/// Reads a decimal `usize` from `s`, with the same result as `s.parse::<usize>()`.
pub fn parse_usize(s: &str) -> (r: Result<usize, IntErrorKind>)
    ensures
        r == parse_usize_spec(s@),
{
    let cs = chars_of(s);
    let n = cs.len();
    if n == 0 {
        return Err(IntErrorKind::Empty);
    }
    if n == 1 && cs[0] == '+' {
        assert(cs@ =~= seq!['+']);
        return Err(IntErrorKind::InvalidDigit);
    }
    assert(cs@ != seq!['+']);
    let start: usize = if cs[0] == '+' { 1 } else { 0 };
    let ghost ds = if cs@[0] == '+' { cs@.drop_first() } else { cs@ };
    assert(ds =~= cs@.skip(start as int));
    let mut acc: usize = 0;
    let mut i: usize = start;
    assert(ds.take(0) =~= Seq::<char>::empty());
    while i < n
        invariant
            start <= i <= n,
            n == cs@.len(),
            cs@ == s@,
            s@.len() != 0,
            s@ != seq!['+'],
            ds == (if s@[0] == '+' { s@.drop_first() } else { s@ }),
            ds == cs@.skip(start as int),
            forall|j: int| 0 <= j < i - start ==> is_digit(#[trigger] ds[j]),
            acc == decimal_value(ds.take(i - start)),
        decreases n - i,
    {
        let c = cs[i];
        let k: Ghost<int> = Ghost(i - start);
        assert(ds[k@] == c);
        if !('0' <= c && c <= '9') {
            proof {
                lemma_digit_prefix_len(ds, k@);
                assert(digit_prefix_len(ds) == k@);
                assert(k@ < ds.len());
                assert(!(decimal_value(ds.take(k@)) > usize::MAX));
            }
            return Err(IntErrorKind::InvalidDigit);
        }
        let d = (c as u32 - 48) as usize;
        proof {
            lemma_decimal_value_take_step(ds, k@);
            lemma_digit_prefix_len(ds, k@ + 1);
            lemma_decimal_value_monotone(ds, k@ + 1, digit_prefix_len(ds) as int);
        }
        match acc.checked_mul(10) {
            None => {
                return Err(IntErrorKind::PosOverflow);
            },
            Some(m) => {
                match m.checked_add(d) {
                    None => {
                        return Err(IntErrorKind::PosOverflow);
                    },
                    Some(v) => {
                        acc = v;
                    },
                }
            },
        }
        i += 1;
    }
    proof {
        lemma_digit_prefix_len(ds, ds.len() as int);
        assert(ds.take(ds.len() as int) =~= ds);
    }
    Ok(acc)
}

/// Writes `n` in decimal, the way `n.to_string()` does.
pub fn format_usize(n: usize) -> (s: String)
    ensures
        s@ == decimal_string(n as nat),
    decreases n,
{
    if n < 10 {
        let mut s = String::new();
        push_char(&mut s, ((n as u8) + 48) as char);
        assert(s@ =~= seq![digit_char(n as nat)]);
        s
    } else {
        let mut s = format_usize(n / 10);
        push_char(&mut s, (((n % 10) as u8) + 48) as char);
        s
    }
}

proof fn lemma_digit_char(d: nat)
    requires
        d < 10,
    ensures
        is_digit(digit_char(d)),
        digit_value(digit_char(d)) == d,
        digit_char(d) != '+',
{
    let u = (d + 48) as u8;
    assert(u as char == digit_char(d));
    assert((u as char) as u32 == u as u32);
}

pub proof fn lemma_decimal_string(n: nat)
    ensures
        decimal_string(n).len() > 0,
        decimal_string(n)[0] != '+',
        forall|j: int| 0 <= j < decimal_string(n).len() ==> is_digit(#[trigger] decimal_string(n)[j]),
        decimal_value(decimal_string(n)) == n,
    decreases n,
{
    if n < 10 {
        lemma_digit_char(n);
        let s = decimal_string(n);
        assert(s.drop_last() =~= Seq::<char>::empty());
        assert(decimal_value(s) == decimal_value(s.drop_last()) * 10 + digit_value(s.last()));
    } else {
        lemma_decimal_string(n / 10);
        lemma_digit_char(n % 10);
        let s = decimal_string(n);
        assert(s.drop_last() =~= decimal_string(n / 10));
        assert forall|j: int| 0 <= j < s.len() implies is_digit(#[trigger] s[j]) by {
            if j < s.len() - 1 {
                assert(s[j] == decimal_string(n / 10)[j]);
            }
        }
        assert(decimal_value(s) == decimal_value(s.drop_last()) * 10 + digit_value(s.last()));
        assert((n / 10) * 10 + n % 10 == n) by (nonlinear_arith);
    }
}

/// Reading back what `format_usize` writes gives the number again.
pub proof fn law_parse_format_usize(n: usize)
    ensures
        parse_usize_spec(decimal_string(n as nat)) == Ok::<usize, IntErrorKind>(n),
{
    let s = decimal_string(n as nat);
    lemma_decimal_string(n as nat);
    assert(s != seq!['+']) by {
        if s =~= seq!['+'] {
            assert(s[0] == '+');
        }
    }
    lemma_digit_prefix_len(s, s.len() as int);
    assert(s.take(s.len() as int) =~= s);
}

/// An empty text is no number.
pub proof fn law_parse_usize_empty()
    ensures
        parse_usize_spec(Seq::<char>::empty()) == Err::<usize, IntErrorKind>(IntErrorKind::Empty),
{
}

/// Decimal digits, with or without a leading `+`, read as their value where it fits
/// in a `usize`, and as an overflow where it does not.
pub proof fn law_parse_usize_digits(ds: Seq<char>)
    requires
        ds.len() > 0,
        forall|i: int| 0 <= i < ds.len() ==> is_digit(#[trigger] ds[i]),
    ensures
        decimal_value(ds) <= usize::MAX ==> parse_usize_spec(ds) == Ok::<usize, IntErrorKind>(
            decimal_value(ds) as usize,
        ) && parse_usize_spec(seq!['+'] + ds) == Ok::<usize, IntErrorKind>(decimal_value(ds) as usize),
        decimal_value(ds) > usize::MAX ==> parse_usize_spec(ds) == Err::<usize, IntErrorKind>(
            IntErrorKind::PosOverflow,
        ) && parse_usize_spec(seq!['+'] + ds) == Err::<usize, IntErrorKind>(IntErrorKind::PosOverflow),
{
    lemma_digit_prefix_len(ds, ds.len() as int);
    assert(ds.take(ds.len() as int) =~= ds);
    assert(!is_digit('+'));
    assert(ds[0] != '+');
    let p = seq!['+'] + ds;
    assert(p.drop_first() =~= ds);
    assert(p[0] == '+');
    assert(p != seq!['+']) by {
        assert(p.len() > 1);
    }
}

/// A character that is not a digit, after digits whose value fits in a `usize`, makes
/// the text no number: an invalid digit (a lone leading `+` is allowed before it only
/// where digits follow the `+`).
pub proof fn law_parse_usize_invalid_digit(ds: Seq<char>, c: char, rest: Seq<char>)
    requires
        forall|i: int| 0 <= i < ds.len() ==> is_digit(#[trigger] ds[i]),
        !is_digit(c),
        ds.len() > 0 || c != '+',
        decimal_value(ds) <= usize::MAX,
    ensures
        parse_usize_spec(ds + seq![c] + rest) == Err::<usize, IntErrorKind>(IntErrorKind::InvalidDigit),
{
    let s = ds + seq![c] + rest;
    let k = ds.len() as int;
    assert(s[k] == c);
    assert forall|i: int| 0 <= i < k implies is_digit(#[trigger] s[i]) by {
        assert(s[i] == ds[i]);
    }
    if ds.len() > 0 {
        assert(s[0] == ds[0]);
        assert(!is_digit('+'));
    }
    assert(s[0] != '+');
    assert(s != seq!['+']) by {
        if s =~= seq!['+'] {
            assert(s[0] == '+');
        }
    }
    lemma_digit_prefix_len(s, k);
    assert(s.take(k) =~= ds);
}

} // verus!
