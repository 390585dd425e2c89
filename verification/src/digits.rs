//! Decimal and hexadecimal digit strings.
//!
//! The scanner reads its worker count from a decimal argument and prints port
//! numbers in decimal; IP address text uses decimal octets and hexadecimal
//! groups. This module gives the numeric value of such digit strings as spec
//! functions, a verified parser matching the standard library's unsigned
//! decimal grammar (an optional leading `+`, then digits), and a verified
//! decimal renderer.

use vstd::prelude::*;

verus! {

use vstd::string::StringExecFns;

/// `c` is an ASCII decimal digit.
pub open spec fn is_dec_digit(c: char) -> bool {
    48 <= c as u32 && c as u32 <= 57
}

/// Numeric value of a decimal digit.
pub open spec fn dec_digit_val(c: char) -> int {
    c as u32 - 48
}

/// Every character of `s` is a decimal digit.
pub open spec fn all_dec_digits(s: Seq<char>) -> bool {
    forall|k: int| 0 <= k < s.len() ==> is_dec_digit(#[trigger] s[k])
}

/// Value of a decimal digit string, most significant digit first.
pub open spec fn dec_val(s: Seq<char>) -> int
    decreases s.len(),
{
    if s.len() == 0 {
        0
    } else {
        dec_val(s.drop_last()) * 10 + dec_digit_val(s.last())
    }
}

/// `c` is an ASCII hexadecimal digit.
pub open spec fn is_hex_digit(c: char) -> bool {
    ||| 48 <= c as u32 && c as u32 <= 57
    ||| 97 <= c as u32 && c as u32 <= 102
    ||| 65 <= c as u32 && c as u32 <= 70
}

/// Numeric value of a hexadecimal digit.
pub open spec fn hex_digit_val(c: char) -> int {
    if 48 <= c as u32 && c as u32 <= 57 {
        c as u32 - 48
    } else if 97 <= c as u32 && c as u32 <= 102 {
        c as u32 - 87
    } else {
        c as u32 - 55
    }
}

/// Every character of `s` is a hexadecimal digit.
pub open spec fn all_hex_digits(s: Seq<char>) -> bool {
    forall|k: int| 0 <= k < s.len() ==> is_hex_digit(#[trigger] s[k])
}

/// Value of a hexadecimal digit string, most significant digit first.
pub open spec fn hex_val(s: Seq<char>) -> int
    decreases s.len(),
{
    if s.len() == 0 {
        0
    } else {
        hex_val(s.drop_last()) * 16 + hex_digit_val(s.last())
    }
}

/// A decimal digit string has a value of at least zero.
pub proof fn lemma_dec_val_nonneg(s: Seq<char>)
    requires
        all_dec_digits(s),
    ensures
        0 <= dec_val(s),
    decreases s.len(),
{
    if s.len() > 0 {
        lemma_dec_val_nonneg(s.drop_last());
    }
}

/// Extending a decimal digit string never decreases its value.
pub proof fn lemma_dec_val_prefix(s: Seq<char>, j: int)
    requires
        all_dec_digits(s),
        0 <= j <= s.len(),
    ensures
        dec_val(s.take(j)) <= dec_val(s),
    decreases s.len() - j,
{
    if j < s.len() {
        let t = s.take(j + 1);
        assert(t.drop_last() =~= s.take(j));
        assert(forall|k: int| 0 <= k < t.len() ==> is_dec_digit(#[trigger] t[k]));
        lemma_dec_val_nonneg(s.take(j));
        lemma_dec_val_prefix(s, j + 1);
    } else {
        assert(s.take(j) =~= s);
    }
}

/// A hexadecimal digit string has a value of at least zero.
pub proof fn lemma_hex_val_nonneg(s: Seq<char>)
    requires
        all_hex_digits(s),
    ensures
        0 <= hex_val(s),
    decreases s.len(),
{
    if s.len() > 0 {
        lemma_hex_val_nonneg(s.drop_last());
    }
}

/// The digit part of unsigned decimal text: everything after an optional
/// leading plus sign.
pub open spec fn u16_digits(s: Seq<char>) -> Seq<char> {
    if s.len() >= 1 && s[0] == '+' {
        s.drop_first()
    } else {
        s
    }
}

/// `s` is text that the standard unsigned decimal grammar accepts as a
/// 16-bit value: an optional leading `+`, then at least one decimal digit,
/// denoting a value of at most 65535. Redundant leading zeros are allowed.
pub open spec fn is_u16_text(s: Seq<char>) -> bool {
    &&& u16_digits(s).len() >= 1
    &&& all_dec_digits(u16_digits(s))
    &&& dec_val(u16_digits(s)) <= 65535
}

/// The value denoted by valid unsigned decimal text.
pub open spec fn u16_text_val(s: Seq<char>) -> int {
    dec_val(u16_digits(s))
}

/// Parse a 16-bit unsigned decimal value, accepting exactly the strings that
/// `is_u16_text` describes and returning their value.
pub fn parse_u16(s: &Vec<char>) -> (r: Option<u16>)
    ensures
        is_u16_text(s@) ==> r == Some(u16_text_val(s@) as u16),
        !is_u16_text(s@) ==> r is None,
{
    let ghost d = u16_digits(s@);
    let start: usize = if s.len() >= 1 && s[0] == '+' {
        1
    } else {
        0
    };
    proof {
        assert(d =~= s@.subrange(start as int, s@.len() as int));
    }
    if s.len() == start {
        return None;
    }
    let mut acc: u32 = 0;
    let mut k: usize = start;
    while k < s.len()
        invariant
            start <= k <= s@.len(),
            d == u16_digits(s@),
            d =~= s@.subrange(start as int, s@.len() as int),
            acc <= 65535,
            all_dec_digits(d.take(k - start)),
            acc as int == dec_val(d.take(k - start)),
        decreases s@.len() - k,
    {
        let c = s[k];
        let v: u32 = c as u32;
        if v < 48 || v > 57 {
            proof {
                assert(d[k - start] == s@[k as int]);
                assert(!is_dec_digit(d[k - start]));
            }
            return None;
        }
        let next: u32 = acc * 10 + (v - 48);
        proof {
            let j = k - start;
            assert(d.take(j + 1).drop_last() =~= d.take(j));
            assert(d.take(j + 1).last() == d[j]);
            assert(next as int == dec_val(d.take(j + 1)));
        }
        if next > 65535 {
            proof {
                let j = k - start;
                if is_u16_text(s@) {
                    lemma_dec_val_prefix(d, j + 1);
                    assert(false);
                }
            }
            return None;
        }
        acc = next;
        k = k + 1;
    }
    proof {
        assert(d.take(k - start) =~= d);
    }
    Some(acc as u16)
}

/// The canonical decimal representation of a nonnegative number: no sign and
/// no redundant leading zeros.
pub open spec fn dec_digit_char(d: int) -> char {
    if d == 0 {
        '0'
    } else if d == 1 {
        '1'
    } else if d == 2 {
        '2'
    } else if d == 3 {
        '3'
    } else if d == 4 {
        '4'
    } else if d == 5 {
        '5'
    } else if d == 6 {
        '6'
    } else if d == 7 {
        '7'
    } else if d == 8 {
        '8'
    } else {
        '9'
    }
}

/// Canonical decimal digit string of `n`, most significant digit first.
pub open spec fn dec_rep(n: int) -> Seq<char>
    decreases n,
{
    if n <= 9 {
        seq![dec_digit_char(n)]
    } else {
        dec_rep(n / 10).push(dec_digit_char(n % 10))
    }
}

/// One-character string for a single decimal digit.
fn dec_digit_str(d: u16) -> (r: &'static str)
    requires
        d <= 9,
    ensures
        r@ =~= seq![dec_digit_char(d as int)],
{
    proof {
        reveal_strlit("0");
        reveal_strlit("1");
        reveal_strlit("2");
        reveal_strlit("3");
        reveal_strlit("4");
        reveal_strlit("5");
        reveal_strlit("6");
        reveal_strlit("7");
        reveal_strlit("8");
        reveal_strlit("9");
    }
    match d {
        0 => "0",
        1 => "1",
        2 => "2",
        3 => "3",
        4 => "4",
        5 => "5",
        6 => "6",
        7 => "7",
        8 => "8",
        _ => "9",
    }
}

/// Render `n` in decimal, as the standard formatter would.
pub fn u16_to_dec(n: u16) -> (s: String)
    ensures
        s@ == dec_rep(n as int),
    decreases n,
{
    if n <= 9 {
        let s = dec_digit_str(n).to_owned();
        s
    } else {
        let mut s = u16_to_dec(n / 10);
        s.append(dec_digit_str(n % 10));
        proof {
            assert(s@ =~= dec_rep(n as int));
        }
        s
    }
}

} // verus!
