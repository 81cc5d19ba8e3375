//! Decimal digits and decimal renderings of numbers, as characters.
//!
//! Target directories (`2019/2019-05-01`) and collision suffixes (`_001`)
//! are decimal text; this module gives the spec-level renderings, their
//! executable counterparts, and the injectivity facts the copier's
//! collision proof needs.

use vstd::prelude::*;
use vstd::arithmetic::div_mod::lemma_fundamental_div_mod;

verus! {

/// The character for the decimal digit `d`.
pub open spec fn digit_char(d: int) -> char {
    if d == 0 {
        '0'
    } else if d == 1 {
        '1'
    } else if d == 2 {
        '2'
    } else if d == 3 {
        '3'
    } else if d == 4 {
        '4'
    } else if d == 5 {
        '5'
    } else if d == 6 {
        '6'
    } else if d == 7 {
        '7'
    } else if d == 8 {
        '8'
    } else {
        '9'
    }
}

pub open spec fn is_digit(c: char) -> bool {
    c == '0' || c == '1' || c == '2' || c == '3' || c == '4' || c == '5' || c == '6' || c == '7'
        || c == '8' || c == '9'
}

/// The value of a digit character; `-1` for any other character.
pub open spec fn digit_val(c: char) -> int {
    if c == '0' {
        0
    } else if c == '1' {
        1
    } else if c == '2' {
        2
    } else if c == '3' {
        3
    } else if c == '4' {
        4
    } else if c == '5' {
        5
    } else if c == '6' {
        6
    } else if c == '7' {
        7
    } else if c == '8' {
        8
    } else if c == '9' {
        9
    } else {
        -1
    }
}

pub proof fn lemma_digit_roundtrip(d: int)
    requires
        0 <= d < 10,
    ensures
        digit_val(digit_char(d)) == d,
        is_digit(digit_char(d)),
{
}

/// The plain decimal rendering of `n`, without padding.
pub open spec fn dec_rep(n: int) -> Seq<char>
    recommends
        n >= 0,
    decreases n,
{
    if n < 10 {
        seq![digit_char(n)]
    } else {
        dec_rep(n / 10).push(digit_char(n % 10))
    }
}

/// The number a sequence of digit characters denotes.
pub open spec fn seq_val(s: Seq<char>) -> int
    decreases s.len(),
{
    if s.len() == 0 {
        0
    } else {
        seq_val(s.drop_last()) * 10 + digit_val(s.last())
    }
}

pub proof fn lemma_dec_rep_val(n: int)
    requires
        n >= 0,
    ensures
        seq_val(dec_rep(n)) == n,
    decreases n,
{
    if n < 10 {
        lemma_digit_roundtrip(n);
        let s = dec_rep(n);
        assert(s == seq![digit_char(n)]);
        assert(s.last() == digit_char(n));
        assert(s.drop_last() =~= Seq::<char>::empty());
        assert(seq_val(s) == seq_val(s.drop_last()) * 10 + digit_val(s.last()));
        assert(seq_val(s.drop_last()) == 0);
    } else {
        lemma_dec_rep_val(n / 10);
        lemma_digit_roundtrip(n % 10);
        lemma_fundamental_div_mod(n, 10);
        let s = dec_rep(n);
        assert(s == dec_rep(n / 10).push(digit_char(n % 10)));
        assert(s.last() == digit_char(n % 10));
        assert(s.drop_last() =~= dec_rep(n / 10));
        assert(s.len() == dec_rep(n / 10).len() + 1);
        assert(seq_val(s) == seq_val(s.drop_last()) * 10 + digit_val(s.last()));
    }
}

pub proof fn lemma_dec_rep_injective(a: int, b: int)
    requires
        a >= 0,
        b >= 0,
        dec_rep(a) == dec_rep(b),
    ensures
        a == b,
{
    lemma_dec_rep_val(a);
    lemma_dec_rep_val(b);
}

pub proof fn lemma_dec_rep_len(n: int)
    requires
        n >= 0,
    ensures
        dec_rep(n).len() >= 1,
        n >= 10 ==> dec_rep(n).len() >= 2,
        n >= 100 ==> dec_rep(n).len() >= 3,
        n >= 1000 ==> dec_rep(n).len() >= 4,
    decreases n,
{
    if n >= 10 {
        lemma_dec_rep_len(n / 10);
        if n >= 100 {
            assert(n / 10 >= 10) by (nonlinear_arith)
                requires
                    n >= 100,
            ;
        }
        if n >= 1000 {
            assert(n / 10 >= 100) by (nonlinear_arith)
                requires
                    n >= 1000,
            ;
        }
    }
}

pub proof fn lemma_seq_val2(s: Seq<char>)
    requires
        s.len() == 2,
    ensures
        seq_val(s) == digit_val(s[0]) * 10 + digit_val(s[1]),
{
    let s1 = seq![s[0]];
    assert(s.drop_last() =~= s1);
    assert(s.last() == s[1]);
    assert(seq_val(s) == seq_val(s1) * 10 + digit_val(s[1]));
    assert(s1.drop_last() =~= Seq::<char>::empty());
    assert(s1.last() == s[0]);
    assert(seq_val(Seq::<char>::empty()) == 0);
    assert(seq_val(s1) == digit_val(s[0]));
}

pub proof fn lemma_seq_val4(s: Seq<char>)
    requires
        s.len() == 4,
    ensures
        seq_val(s) == ((digit_val(s[0]) * 10 + digit_val(s[1])) * 10 + digit_val(s[2])) * 10
            + digit_val(s[3]),
{
    let s3 = s.drop_last();
    let s2 = s3.drop_last();
    lemma_seq_val2(s2);
    assert(s3[0] == s[0] && s3[1] == s[1] && s3[2] == s[2]);
    assert(s2[0] == s[0] && s2[1] == s[1]);
    assert(s.last() == s[3] && s3.last() == s[2]);
    assert(seq_val(s) == seq_val(s3) * 10 + digit_val(s[3]));
    assert(seq_val(s3) == seq_val(s2) * 10 + digit_val(s[2]));
}

/// `n` rendered as two digits, zero-padded (the low two digits of `n`).
pub open spec fn pad2(n: int) -> Seq<char> {
    seq![digit_char((n / 10) % 10), digit_char(n % 10)]
}

/// `n` rendered as four digits, zero-padded (the low four digits of `n`).
pub open spec fn pad4(n: int) -> Seq<char> {
    seq![
        digit_char((n / 1000) % 10),
        digit_char((n / 100) % 10),
        digit_char((n / 10) % 10),
        digit_char(n % 10),
    ]
}

/// The two-digit rendering is made of digits and decodes to its value.
pub proof fn lemma_pad2_val(n: int)
    requires
        0 <= n < 100,
    ensures
        seq_val(pad2(n)) == n,
        forall|i: int| 0 <= i < 2 ==> is_digit(#[trigger] pad2(n)[i]),
{
    lemma_digit_roundtrip((n / 10) % 10);
    lemma_digit_roundtrip(n % 10);
    lemma_seq_val2(pad2(n));
    assert(((n / 10) % 10) * 10 + n % 10 == n) by (nonlinear_arith)
        requires
            0 <= n < 100,
    ;
}

/// The four-digit rendering is made of digits and decodes to its value.
pub proof fn lemma_pad4_val(n: int)
    requires
        0 <= n < 10000,
    ensures
        seq_val(pad4(n)) == n,
        forall|i: int| 0 <= i < 4 ==> is_digit(#[trigger] pad4(n)[i]),
{
    lemma_digit_roundtrip((n / 1000) % 10);
    lemma_digit_roundtrip((n / 100) % 10);
    lemma_digit_roundtrip((n / 10) % 10);
    lemma_digit_roundtrip(n % 10);
    lemma_seq_val4(pad4(n));
    assert((((n / 1000) % 10) * 10 + (n / 100) % 10) * 10 + (n / 10) % 10 == n / 10) by (nonlinear_arith)
        requires
            0 <= n < 10000,
    ;
    assert((n / 10) * 10 + n % 10 == n) by (nonlinear_arith)
        requires
            0 <= n,
    ;
}

/// `n` rendered as at least three digits, zero-padded below 1000 and plain
/// decimal above.
pub open spec fn pad3_or_more(n: int) -> Seq<char> {
    if n < 1000 {
        seq![digit_char((n / 100) % 10), digit_char((n / 10) % 10), digit_char(n % 10)]
    } else {
        dec_rep(n)
    }
}

pub proof fn lemma_pad3_or_more_injective(a: int, b: int)
    requires
        a >= 0,
        b >= 0,
        pad3_or_more(a) == pad3_or_more(b),
    ensures
        a == b,
{
    if a < 1000 && b < 1000 {
        assert(digit_val(pad3_or_more(a)[0]) == (a / 100) % 10) by {
            lemma_digit_roundtrip((a / 100) % 10);
        }
        assert((a / 100) % 10 == (b / 100) % 10 && (a / 10) % 10 == (b / 10) % 10 && a % 10 == b
            % 10) by {
            lemma_digit_roundtrip((a / 100) % 10);
            lemma_digit_roundtrip((a / 10) % 10);
            lemma_digit_roundtrip(a % 10);
            lemma_digit_roundtrip((b / 100) % 10);
            lemma_digit_roundtrip((b / 10) % 10);
            lemma_digit_roundtrip(b % 10);
            assert(pad3_or_more(a)[0] == pad3_or_more(b)[0]);
            assert(pad3_or_more(a)[1] == pad3_or_more(b)[1]);
            assert(pad3_or_more(a)[2] == pad3_or_more(b)[2]);
        }
        assert(a == ((a / 100) % 10) * 100 + ((a / 10) % 10) * 10 + a % 10) by (nonlinear_arith)
            requires
                0 <= a < 1000,
        ;
        assert(b == ((b / 100) % 10) * 100 + ((b / 10) % 10) * 10 + b % 10) by (nonlinear_arith)
            requires
                0 <= b < 1000,
        ;
    } else if a >= 1000 && b >= 1000 {
        lemma_dec_rep_injective(a, b);
    } else if a < 1000 {
        lemma_dec_rep_len(b);
        assert(pad3_or_more(a).len() == 3);
    } else {
        lemma_dec_rep_len(a);
        assert(pad3_or_more(b).len() == 3);
    }
}

pub proof fn lemma_pad3_or_more_len(n: int)
    requires
        n >= 0,
    ensures
        pad3_or_more(n).len() >= 3,
{
    if n >= 1000 {
        lemma_dec_rep_len(n);
    }
}

/// The one-character string for the decimal digit `d`.
pub fn digit_str(d: u64) -> (r: &'static str)
    requires
        d < 10,
    ensures
        r@ =~= seq![digit_char(d as int)],
{
    proof {
        reveal_strlit("0");
        reveal_strlit("1");
        reveal_strlit("2");
        reveal_strlit("3");
        reveal_strlit("4");
        reveal_strlit("5");
        reveal_strlit("6");
        reveal_strlit("7");
        reveal_strlit("8");
        reveal_strlit("9");
    }
    match d {
        0 => "0",
        1 => "1",
        2 => "2",
        3 => "3",
        4 => "4",
        5 => "5",
        6 => "6",
        7 => "7",
        8 => "8",
        _ => "9",
    }
}

/// Whether `c` is a decimal digit character.
pub fn is_digit_char(c: char) -> (r: bool)
    ensures
        r == is_digit(c),
{
    match c {
        '0' | '1' | '2' | '3' | '4' | '5' | '6' | '7' | '8' | '9' => true,
        _ => false,
    }
}

/// The value of a digit character, or `None` for any other character.
pub fn digit_value(c: char) -> (r: Option<u64>)
    ensures
        match r {
            Some(v) => is_digit(c) && v == digit_val(c),
            None => !is_digit(c),
        },
{
    match c {
        '0' => Some(0),
        '1' => Some(1),
        '2' => Some(2),
        '3' => Some(3),
        '4' => Some(4),
        '5' => Some(5),
        '6' => Some(6),
        '7' => Some(7),
        '8' => Some(8),
        '9' => Some(9),
        _ => None,
    }
}

/// Renders `n` in plain decimal.
pub fn dec_string(n: u64) -> (r: String)
    ensures
        r@ == dec_rep(n as int),
    decreases n,
{
    if n < 10 {
        let r = digit_str(n).to_owned();
        proof {
            assert(r@ =~= dec_rep(n as int));
        }
        r
    } else {
        let mut r = dec_string(n / 10);
        r.append(digit_str(n % 10));
        proof {
            assert(r@ =~= dec_rep(n as int));
        }
        r
    }
}

/// Renders `n` as two zero-padded digits.
pub fn pad2_string(n: u64) -> (r: String)
    requires
        n < 100,
    ensures
        r@ == pad2(n as int),
{
    let mut r = digit_str(n / 10).to_owned();
    r.append(digit_str(n % 10));
    proof {
        assert(r@ =~= pad2(n as int));
    }
    r
}

/// Renders `n` as four zero-padded digits.
pub fn pad4_string(n: u64) -> (r: String)
    requires
        n < 10000,
    ensures
        r@ == pad4(n as int),
{
    let mut r = digit_str(n / 1000).to_owned();
    r.append(digit_str((n / 100) % 10));
    r.append(digit_str((n / 10) % 10));
    r.append(digit_str(n % 10));
    proof {
        assert(r@ =~= pad4(n as int));
    }
    r
}

/// Renders `n` as at least three digits, zero-padding below 1000.
pub fn pad3_or_more_string(n: u64) -> (r: String)
    ensures
        r@ == pad3_or_more(n as int),
{
    if n < 1000 {
        let mut r = digit_str(n / 100).to_owned();
        r.append(digit_str((n / 10) % 10));
        r.append(digit_str(n % 10));
        proof {
            assert(r@ =~= pad3_or_more(n as int));
        }
        r
    } else {
        dec_string(n)
    }
}

} // verus!
