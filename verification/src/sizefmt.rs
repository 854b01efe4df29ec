//! Human-readable rendering of byte totals: the value is scaled by powers of
//! 1024 to the largest unit that keeps it at least 1, and printed with two
//! decimal places.

use vstd::prelude::*;
use vstd::string::StringExecFns;
use crate::decimal::{dec_digits, padded_dec, u64_to_dec, u64_to_dec_padded};

verus! {

/// `1024^i`.
pub open spec fn pow1024(i: nat) -> nat
    decreases i,
{
    if i == 0 {
        1
    } else {
        1024 * pow1024((i - 1) as nat)
    }
}

/// The index of the unit `bytes` is reported in: 0 for B, 1 for KB, 2 for MB,
/// 3 for GB, 4 for TB. It is the largest index (at most 4) whose power of
/// 1024 does not exceed `bytes`.
pub open spec fn size_unit_index(bytes: nat) -> nat {
    if bytes < pow1024(1) {
        0
    } else if bytes < pow1024(2) {
        1
    } else if bytes < pow1024(3) {
        2
    } else if bytes < pow1024(4) {
        3
    } else {
        4
    }
}

/// The unit suffix for each index.
pub open spec fn unit_chars(i: nat) -> Seq<char> {
    if i == 0 {
        seq!['B']
    } else if i == 1 {
        seq!['K', 'B']
    } else if i == 2 {
        seq!['M', 'B']
    } else if i == 3 {
        seq!['G', 'B']
    } else {
        seq!['T', 'B']
    }
}

/// `bytes` scaled to its unit, in hundredths, rounded to the nearest
/// hundredth (halves round up).
pub open spec fn size_hundredths(bytes: nat) -> nat {
    let p = pow1024(size_unit_index(bytes));
    (bytes * 200 + p) / (2 * p)
}

/// The full rendering: the scaled value with two decimal places, a space, and
/// the unit suffix.
pub open spec fn spec_format_size(bytes: nat) -> Seq<char> {
    let h = size_hundredths(bytes);
    dec_digits(h / 100) + seq!['.'] + padded_dec(h % 100, 2) + seq![' '] + unit_chars(
        size_unit_index(bytes),
    )
}

proof fn lemma_pow1024_values()
    ensures
        pow1024(0) == 1,
        pow1024(1) == 1024,
        pow1024(2) == 0x100000,
        pow1024(3) == 0x40000000,
        pow1024(4) == 0x10000000000,
{
    assert(pow1024(0) == 1);
    assert(pow1024(1) == 1024);
    assert(pow1024(2) == 0x100000);
    assert(pow1024(3) == 0x40000000);
    assert(pow1024(4) == 0x10000000000);
}

/// Renders a byte count the way `du -sh` would: scaled 1024-wise to the
/// largest unit, two decimal places, then the unit name.
pub fn format_size(bytes: u64) -> (r: String)
    ensures
        r@ == spec_format_size(bytes as nat),
{
    let ghost i: nat = size_unit_index(bytes as nat);
    proof {
        lemma_pow1024_values();
    }
    let pow: u64;
    let unit: &'static str;
    if bytes < 1024 {
        pow = 1;
        unit = "B";
        proof {
            reveal_strlit("B");
            assert(unit@ =~= unit_chars(i));
        }
    } else if bytes < 0x100000 {
        pow = 1024;
        unit = "KB";
        proof {
            reveal_strlit("KB");
            assert(unit@ =~= unit_chars(i));
        }
    } else if bytes < 0x40000000 {
        pow = 0x100000;
        unit = "MB";
        proof {
            reveal_strlit("MB");
            assert(unit@ =~= unit_chars(i));
        }
    } else if bytes < 0x10000000000 {
        pow = 0x40000000;
        unit = "GB";
        proof {
            reveal_strlit("GB");
            assert(unit@ =~= unit_chars(i));
        }
    } else {
        pow = 0x10000000000;
        unit = "TB";
        proof {
            reveal_strlit("TB");
            assert(unit@ =~= unit_chars(i));
        }
    }
    proof {
        assert(pow == pow1024(i));
        assert((bytes as u128) < (pow as u128) * 0x1000000);
    }
    let num: u128 = (bytes as u128) * 200 + (pow as u128);
    let den: u128 = 2 * (pow as u128);
    let h_wide: u128 = num / den;
    proof {
        assert(h_wide == size_hundredths(bytes as nat));
        assert(num < den * 0x80000000) by (nonlinear_arith)
            requires
                num == (bytes as u128) * 200 + (pow as u128),
                den == 2 * (pow as u128),
                (bytes as u128) < (pow as u128) * 0x1000000,
                pow >= 1,
        ;
        assert(h_wide < 0x80000000) by (nonlinear_arith)
            requires
                h_wide == num / den,
                num < den * 0x80000000,
                den > 0,
        ;
    }
    let h: u64 = h_wide as u64;
    let whole: u64 = h / 100;
    let frac: u64 = h % 100;
    let s = u64_to_dec(whole).concat(".").concat(u64_to_dec_padded(frac, 2).as_str()).concat(
        " ",
    ).concat(unit);
    proof {
        reveal_strlit(".");
        reveal_strlit(" ");
        assert("."@ =~= seq!['.']);
        assert(" "@ =~= seq![' ']);
        assert(s@ =~= spec_format_size(bytes as nat));
    }
    s
}

} // verus!
