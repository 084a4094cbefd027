//! Decimal rendering widths and digit strings for 32-bit integers.

use vstd::prelude::*;

verus! {

/// Number of decimal digits of a nonnegative integer (a lone 0 counts one digit).
pub open spec fn dec_len(n: int) -> nat
    decreases n,
{
    if n <= 9 {
        1
    } else {
        (1 + dec_len(n / 10)) as nat
    }
}

/// The character for one decimal digit.
pub open spec fn digit_char(d: int) -> char {
    if d == 0 {
        '0'
    } else if d == 1 {
        '1'
    } else if d == 2 {
        '2'
    } else if d == 3 {
        '3'
    } else if d == 4 {
        '4'
    } else if d == 5 {
        '5'
    } else if d == 6 {
        '6'
    } else if d == 7 {
        '7'
    } else if d == 8 {
        '8'
    } else {
        '9'
    }
}

/// Decimal digit string of a nonnegative integer, most significant first.
pub open spec fn dec_str(n: int) -> Seq<char>
    decreases n,
{
    if n <= 9 {
        seq![digit_char(n)]
    } else {
        dec_str(n / 10).push(digit_char(n % 10))
    }
}

/// Decimal rendering of a 32-bit integer, minus sign included.
pub open spec fn i32_str(i: int) -> Seq<char> {
    if i < 0 {
        seq!['-'] + dec_str(-i)
    } else {
        dec_str(i)
    }
}

/// Display width of a 32-bit integer: digit count, plus one for a minus sign.
pub open spec fn i32_width(i: int) -> nat {
    if i < 0 {
        (1 + dec_len(-i)) as nat
    } else {
        dec_len(i)
    }
}

pub proof fn lemma_dec_len_pos(n: int)
    ensures
        dec_len(n) >= 1,
    decreases n,
{
    if n > 9 {
        lemma_dec_len_pos(n / 10);
    }
}

pub proof fn lemma_dec_len_le_self(n: int)
    requires
        n >= 0,
    ensures
        dec_len(n) <= n + 1,
    decreases n,
{
    if n > 9 {
        lemma_dec_len_le_self(n / 10);
    }
}

/// The digit string is exactly as long as the counted width says.
pub proof fn lemma_dec_str_len(n: int)
    requires
        n >= 0,
    ensures
        dec_str(n).len() == dec_len(n),
    decreases n,
{
    if n > 9 {
        lemma_dec_str_len(n / 10);
    }
}

/// Display width of `i`: its decimal digit count, plus one if negative.
pub fn i32_len(i: i32) -> (r: usize)
    ensures
        r == i32_width(i as int),
        r == i32_str(i as int).len(),
{
    proof {
        if i < 0 {
            lemma_dec_str_len(-(i as int));
        } else {
            lemma_dec_str_len(i as int);
        }
    }
    let neg: bool = i < 0;
    let mut n: i64 = i as i64;
    if neg {
        n = -n;
    }
    let ghost m0: int = n as int;
    proof {
        lemma_dec_len_le_self(m0);
    }
    let mut d: usize = 1;
    while n > 9
        invariant
            0 <= n,
            1 <= d,
            dec_len(m0) == d - 1 + dec_len(n as int),
            dec_len(m0) <= m0 + 1,
            m0 <= 0x8000_0000,
        decreases n,
    {
        proof {
            lemma_dec_len_pos(n as int / 10);
        }
        n = n / 10;
        d = d + 1;
    }
    if neg {
        d + 1
    } else {
        d
    }
}

} // verus!
