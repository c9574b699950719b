//! Whole numbers as text, and text as whole numbers.

use vstd::prelude::*;
use crate::text;

verus! {

/// The digit for a number below ten.
pub open spec fn digit(d: int) -> char {
    if d == 0 {
        '0'
    } else if d == 1 {
        '1'
    } else if d == 2 {
        '2'
    } else if d == 3 {
        '3'
    } else if d == 4 {
        '4'
    } else if d == 5 {
        '5'
    } else if d == 6 {
        '6'
    } else if d == 7 {
        '7'
    } else if d == 8 {
        '8'
    } else {
        '9'
    }
}

/// The number a digit stands for.
pub open spec fn digit_value(c: char) -> Option<int> {
    if '0' <= c && c <= '9' {
        Some(c as int - '0' as int)
    } else {
        None
    }
}

/// A number in decimal digits, without leading zeros.
pub open spec fn decimal(n: nat) -> Seq<char>
    decreases n,
{
    if n < 10 {
        seq![digit(n as int)]
    } else {
        decimal(n / 10).push(digit((n % 10) as int))
    }
}

/// A number in decimal digits, with a minus sign where it is below zero.
pub open spec fn int_text(n: int) -> Seq<char> {
    if n < 0 {
        "-"@ + decimal((-n) as nat)
    } else {
        decimal(n as nat)
    }
}

/// The number that digits stand for; none for anything else, or for nothing.
pub open spec fn digits_value(s: Seq<char>) -> Option<nat>
    decreases s.len(),
{
    if s.len() == 0 {
        None
    } else {
        match digit_value(s.last()) {
            None => None,
            Some(d) => if s.len() == 1 {
                Some(d as nat)
            } else {
                match digits_value(s.drop_last()) {
                    None => None,
                    Some(n) => Some((n * 10 + d) as nat),
                }
            },
        }
    }
}

/// The number at or above zero that a text stands for: digits, perhaps after a
/// plus sign.
pub open spec fn unsigned(s: Seq<char>) -> Option<nat> {
    if s.len() > 0 && s[0] == '+' {
        digits_value(s.skip(1))
    } else {
        digits_value(s)
    }
}

/// The number that a text stands for: digits, perhaps after a sign.
pub open spec fn signed(s: Seq<char>) -> Option<int> {
    if s.len() > 0 && s[0] == '-' {
        match digits_value(s.skip(1)) {
            Some(n) => Some(-(n as int)),
            None => None,
        }
    } else {
        match unsigned(s) {
            Some(n) => Some(n as int),
            None => None,
        }
    }
}

/// Digits read as the number they were written for.
pub proof fn lemma_decimal_reads_back(n: nat)
    ensures
        digits_value(decimal(n)) == Some(n),
        decimal(n).len() > 0,
        decimal(n)[0] != '-',
        decimal(n)[0] != '+',
        forall|i: int| 0 <= i < decimal(n).len() ==> digit_value(#[trigger] decimal(n)[i]) is Some,
    decreases n,
{
    if n < 10 {
        assert(decimal(n).last() == digit(n as int));
        assert(digit_value(digit(n as int)) == Some(n as int));
    } else {
        lemma_decimal_reads_back(n / 10);
        let d = (n % 10) as int;
        assert(digit_value(digit(d)) == Some(d));
        assert(decimal(n).drop_last() =~= decimal(n / 10));
        assert(decimal(n).len() > 1);
    }
}

/// A number written out reads back as itself.
pub proof fn law_number_text_reads_back(n: int)
    ensures
        signed(int_text(n)) == Some(n),
        n >= 0 ==> unsigned(int_text(n)) == Some(n as nat),
{
    reveal_strlit("-");
    if n < 0 {
        lemma_decimal_reads_back((-n) as nat);
        assert(int_text(n).skip(1) =~= decimal((-n) as nat));
    } else {
        lemma_decimal_reads_back(n as nat);
    }
}

/// A number is written in digits and a sign.
pub proof fn lemma_int_text_plain(n: int)
    ensures
        int_text(n).len() > 0,
        forall|i: int|
            0 <= i < int_text(n).len() ==> digit_value(#[trigger] int_text(n)[i]) is Some || int_text(n)[i] == '-',
{
    reveal_strlit("-");
    if n < 0 {
        lemma_decimal_reads_back((-n) as nat);
        assert forall|i: int| 0 <= i < int_text(n).len() implies digit_value(#[trigger] int_text(n)[i]) is Some
            || int_text(n)[i] == '-' by {
            if i > 0 {
                assert(int_text(n)[i] == decimal((-n) as nat)[i - 1]);
            }
        }
    } else {
        lemma_decimal_reads_back(n as nat);
    }
}

/// Different numbers are written differently.
pub proof fn law_number_texts_differ(m: int, n: int)
    requires
        int_text(m) == int_text(n),
    ensures
        m == n,
{
    law_number_text_reads_back(m);
    law_number_text_reads_back(n);
}

fn digit_of(d: u128) -> (r: char)
    requires
        d < 10,
    ensures
        r == digit(d as int),
{
    if d == 0 {
        '0'
    } else if d == 1 {
        '1'
    } else if d == 2 {
        '2'
    } else if d == 3 {
        '3'
    } else if d == 4 {
        '4'
    } else if d == 5 {
        '5'
    } else if d == 6 {
        '6'
    } else if d == 7 {
        '7'
    } else if d == 8 {
        '8'
    } else {
        '9'
    }
}

/// A number in decimal digits.
pub fn decimal_of(n: u128) -> (r: String)
    ensures
        r@ == decimal(n as nat),
    decreases n,
{
    if n < 10 {
        let mut s: String = String::new();
        s.push(digit_of(n));
        assert(s@ =~= seq![digit(n as int)]);
        s
    } else {
        let mut s = decimal_of(n / 10);
        s.push(digit_of(n % 10));
        s
    }
}

/// A number in decimal digits, with a minus sign where it is below zero.
pub fn text_of(n: i64) -> (r: String)
    ensures
        r@ == int_text(n as int),
{
    if n < 0 {
        let mut s = text::owned("-");
        let wide: i128 = n as i128;
        s.append(&decimal_of((-wide) as u128));
        s
    } else {
        decimal_of(n as u128)
    }
}

fn digit_value_of(c: char) -> (r: Option<u128>)
    ensures
        match r {
            Some(d) => digit_value(c) == Some(d as int) && d < 10,
            None => digit_value(c) is None,
        },
{
    match c {
        '0' => Some(0),
        '1' => Some(1),
        '2' => Some(2),
        '3' => Some(3),
        '4' => Some(4),
        '5' => Some(5),
        '6' => Some(6),
        '7' => Some(7),
        '8' => Some(8),
        '9' => Some(9),
        _ => None,
    }
}

/// What digits stand for is at least what fewer of them do.
proof fn lemma_digits_grow(s: Seq<char>, n: int)
    requires
        0 < n <= s.len(),
        digits_value(s) is Some,
    ensures
        digits_value(s.take(n)) is Some,
        digits_value(s.take(n)).unwrap() <= digits_value(s).unwrap(),
    decreases s.len() - n,
{
    if n < s.len() {
        assert(s.drop_last().take(n) =~= s.take(n));
        lemma_digits_grow(s.drop_last(), n);
    } else {
        assert(s.take(n) =~= s);
    }
}

/// The number that the digits from `from` on stand for, up to a limit.
fn digits_from(c: &Vec<char>, from: usize, limit: u128) -> (r: Option<u128>)
    requires
        from <= c@.len(),
    ensures
        match r {
            Some(n) => digits_value(c@.skip(from as int)) == Some(n as nat) && n <= limit,
            None => match digits_value(c@.skip(from as int)) {
                Some(n) => n > limit,
                None => true,
            },
        },
{
    let ghost s = c@.skip(from as int);
    let mut i: usize = from;
    let mut n: u128 = 0;
    if from == c.len() {
        return None;
    }
    while i < c.len()
        invariant
            s == c@.skip(from as int),
            from <= i <= c@.len(),
            n <= limit,
            i > from ==> digits_value(s.take(i - from)) == Some(n as nat),
            i == from ==> n == 0,
        decreases c@.len() - i,
    {
        let ghost k = i - from;
        assert(s.take(k + 1).drop_last() =~= s.take(k));
        assert(s.take(k + 1).last() == c@[i as int]);
        match digit_value_of(c[i]) {
            None => {
                proof {
                    if digits_value(s) is Some {
                        lemma_digits_grow(s, k + 1);
                    }
                }
                return None;
            },
            Some(d) => {
                assert(digits_value(s.take(k + 1)) == Some((n * 10 + d) as nat));
                if n > (u128::MAX - d) / 10 || n * 10 + d > limit {
                    proof {
                        if digits_value(s) is Some {
                            lemma_digits_grow(s, k + 1);
                        }
                    }
                    return None;
                }
                n = n * 10 + d;
            },
        }
        i += 1;
    }
    assert(s.take(s.len() as int) =~= s);
    Some(n)
}

/// The number at or above zero that a text stands for, if it is within the limit.
pub fn parse_unsigned(s: &str, limit: u128) -> (r: Option<u128>)
    ensures
        match r {
            Some(n) => unsigned(s@) == Some(n as nat) && n <= limit,
            None => match unsigned(s@) {
                Some(n) => n > limit,
                None => true,
            },
        },
{
    let c = text::chars_of(s);
    assert(c@.skip(0) =~= c@);
    if c.len() > 0 && c[0] == '+' {
        digits_from(&c, 1, limit)
    } else {
        digits_from(&c, 0, limit)
    }
}

/// The number that a text stands for, if it is one that fits.
pub fn parse_i64(s: &str) -> (r: Option<i64>)
    ensures
        match r {
            Some(n) => signed(s@) == Some(n as int),
            None => match signed(s@) {
                Some(n) => n < i64::MIN || n > i64::MAX,
                None => true,
            },
        },
{
    let c = text::chars_of(s);
    if c.len() > 0 && c[0] == '-' {
        match digits_from(&c, 1, 0x8000_0000_0000_0000) {
            Some(n) => {
                let wide: i128 = -(n as i128);
                Some(wide as i64)
            },
            None => None,
        }
    } else {
        match parse_unsigned(s, 0x7fff_ffff_ffff_ffff) {
            Some(n) => Some(n as i64),
            None => None,
        }
    }
}

/// So many sizes, one for each of a list, add up to no more than the widest number.
pub proof fn lemma_sizes_fit(i: int)
    requires
        0 <= i < usize::MAX,
    ensures
        (i + 1) * usize::MAX == i * usize::MAX + usize::MAX,
        0 <= i * usize::MAX,
        (i + 1) * usize::MAX <= u128::MAX,
{
    assert((i + 1) * usize::MAX == i * usize::MAX + usize::MAX) by (nonlinear_arith);
    assert(0 <= i * usize::MAX) by (nonlinear_arith)
        requires
            0 <= i,
    ;
    assert((i + 1) * usize::MAX <= usize::MAX * usize::MAX) by (nonlinear_arith)
        requires
            0 <= i < usize::MAX,
    ;
    assert(usize::MAX * usize::MAX <= u128::MAX) by (nonlinear_arith)
        requires
            usize::MAX <= 0xffff_ffff_ffff_ffff,
    ;
}

} // verus!
