//! Decimal rendering of unsigned integers, with optional zero padding.

use vstd::prelude::*;
use vstd::string::StringExecFns;

verus! {

/// The character for a single decimal digit.
pub open spec fn digit_char(d: nat) -> char {
    if d == 0 {
        '0'
    } else if d == 1 {
        '1'
    } else if d == 2 {
        '2'
    } else if d == 3 {
        '3'
    } else if d == 4 {
        '4'
    } else if d == 5 {
        '5'
    } else if d == 6 {
        '6'
    } else if d == 7 {
        '7'
    } else if d == 8 {
        '8'
    } else {
        '9'
    }
}

/// The decimal digits of `n`, most significant first, with no leading zeros
/// (except for `n == 0`, which is the single digit `0`).
pub open spec fn dec_digits(n: nat) -> Seq<char>
    decreases n,
{
    if n < 10 {
        seq![digit_char(n)]
    } else {
        dec_digits(n / 10).push(digit_char(n % 10))
    }
}

/// A run of `k` zero characters.
pub open spec fn zeros(k: nat) -> Seq<char>
    decreases k,
{
    if k == 0 {
        Seq::empty()
    } else {
        seq!['0'] + zeros((k - 1) as nat)
    }
}

/// The decimal digits of `n`, left-padded with zeros to at least `w`
/// characters.
pub open spec fn padded_dec(n: nat, w: nat) -> Seq<char> {
    if dec_digits(n).len() >= w {
        dec_digits(n)
    } else {
        zeros((w - dec_digits(n).len()) as nat) + dec_digits(n)
    }
}

/// The one-character string for a decimal digit.
fn digit_str(d: u64) -> (s: &'static str)
    requires
        d < 10,
    ensures
        s@ =~= seq![digit_char(d as nat)],
{
    let s: &'static str = if d == 0 {
        "0"
    } else if d == 1 {
        "1"
    } else if d == 2 {
        "2"
    } else if d == 3 {
        "3"
    } else if d == 4 {
        "4"
    } else if d == 5 {
        "5"
    } else if d == 6 {
        "6"
    } else if d == 7 {
        "7"
    } else if d == 8 {
        "8"
    } else {
        "9"
    };
    proof {
        reveal_strlit("0");
        reveal_strlit("1");
        reveal_strlit("2");
        reveal_strlit("3");
        reveal_strlit("4");
        reveal_strlit("5");
        reveal_strlit("6");
        reveal_strlit("7");
        reveal_strlit("8");
        reveal_strlit("9");
    }
    s
}

/// Renders `n` in decimal.
pub fn u64_to_dec(n: u64) -> (s: String)
    ensures
        s@ == dec_digits(n as nat),
    decreases n,
{
    if n < 10 {
        String::from_str(digit_str(n))
    } else {
        let s = u64_to_dec(n / 10).concat(digit_str(n % 10));
        proof {
            assert(s@ =~= dec_digits(n as nat));
        }
        s
    }
}

/// Renders `n` in decimal, left-padded with zeros to at least `w` characters.
pub fn u64_to_dec_padded(n: u64, w: usize) -> (s: String)
    ensures
        s@ == padded_dec(n as nat, w as nat),
{
    let digits = u64_to_dec(n);
    let len: usize = digits.as_str().unicode_len();
    if len >= w {
        proof {
            assert(digits@ =~= padded_dec(n as nat, w as nat));
        }
        digits
    } else {
        let mut pad = String::new();
        let mut k: usize = w - len;
        proof {
            assert(pad@ + zeros(k as nat) =~= zeros((w - len) as nat));
        }
        while k > 0
            invariant
                pad@ + zeros(k as nat) == zeros((w as nat - digits@.len()) as nat),
                digits@.len() < w,
                k <= w,
            decreases k,
        {
            proof {
                assert(zeros(k as nat) =~= seq!['0'] + zeros((k - 1) as nat));
                reveal_strlit("0");
                assert((pad@ + "0"@) + zeros((k - 1) as nat) =~= pad@ + zeros(k as nat));
            }
            pad.append("0");
            k = k - 1;
        }
        proof {
            assert(pad@ =~= zeros((w as nat - digits@.len()) as nat));
        }
        let s = pad.concat(digits.as_str());
        proof {
            assert(s@ =~= padded_dec(n as nat, w as nat));
        }
        s
    }
}

} // verus!
