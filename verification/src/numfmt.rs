use vstd::prelude::*;
use vstd::string::StringExecFns;

verus! {

/// The decimal digit character for a value in `0..10`.
pub open spec fn digit_char(d: int) -> char {
    if d == 0 {
        '0'
    } else if d == 1 {
        '1'
    } else if d == 2 {
        '2'
    } else if d == 3 {
        '3'
    } else if d == 4 {
        '4'
    } else if d == 5 {
        '5'
    } else if d == 6 {
        '6'
    } else if d == 7 {
        '7'
    } else if d == 8 {
        '8'
    } else {
        '9'
    }
}

/// The decimal representation of a non-negative integer, most significant
/// digit first; a single `'0'` for zero.
pub open spec fn dec_str(n: int) -> Seq<char>
    decreases n,
{
    if n < 10 {
        seq![digit_char(n)]
    } else {
        dec_str(n / 10).push(digit_char(n % 10))
    }
}

/// `n / d` with exactly two decimal places, rounded half away from zero;
/// `"0.00"` when the denominator is zero.
pub open spec fn fixed2_str(n: int, d: int) -> Seq<char> {
    if d <= 0 {
        seq!['0', '.', '0', '0']
    } else {
        let h = (200 * n + d) / (2 * d);
        dec_str(h / 100) + seq!['.', digit_char((h / 10) % 10), digit_char(h % 10)]
    }
}

fn digit_str(d: u128) -> (r: &'static str)
    requires
        d < 10,
    ensures
        r@ == seq![digit_char(d as int)],
{
    proof {
        reveal_strlit("0");
        reveal_strlit("1");
        reveal_strlit("2");
        reveal_strlit("3");
        reveal_strlit("4");
        reveal_strlit("5");
        reveal_strlit("6");
        reveal_strlit("7");
        reveal_strlit("8");
        reveal_strlit("9");
    }
    let r = if d == 0 {
        "0"
    } else if d == 1 {
        "1"
    } else if d == 2 {
        "2"
    } else if d == 3 {
        "3"
    } else if d == 4 {
        "4"
    } else if d == 5 {
        "5"
    } else if d == 6 {
        "6"
    } else if d == 7 {
        "7"
    } else if d == 8 {
        "8"
    } else {
        "9"
    };
    proof {
        assert(r@ =~= seq![digit_char(d as int)]);
    }
    r
}

/// Renders a `u128` in decimal.
pub fn u128_to_string(n: u128) -> (r: String)
    ensures
        r@ == dec_str(n as int),
    decreases n,
{
    if n < 10 {
        digit_str(n).to_owned()
    } else {
        let prefix = u128_to_string(n / 10);
        let r = prefix.concat(digit_str(n % 10));
        proof {
            assert(r@ =~= dec_str(n as int));
        }
        r
    }
}

/// Renders a `usize` in decimal.
pub fn usize_to_string(n: usize) -> (r: String)
    ensures
        r@ == dec_str(n as int),
{
    u128_to_string(n as u128)
}

/// Renders `n / d` with two decimal places, rounded half away from zero;
/// a zero denominator yields the sentinel `"0.00"`.
pub fn format_fixed2(n: u128, d: u128) -> (r: String)
    requires
        200 * n + 2 * d <= u128::MAX,
    ensures
        r@ == fixed2_str(n as int, d as int),
{
    if d == 0 {
        let r = "0.00".to_owned();
        proof {
            reveal_strlit("0.00");
            assert(r@ =~= fixed2_str(n as int, d as int));
        }
        r
    } else {
        let h = (200 * n + d) / (2 * d);
        let whole = u128_to_string(h / 100);
        let r = whole.concat(".").concat(digit_str((h / 10) % 10)).concat(digit_str(h % 10));
        proof {
            reveal_strlit(".");
            assert(r@ =~= fixed2_str(n as int, d as int));
        }
        r
    }
}

} // verus!
