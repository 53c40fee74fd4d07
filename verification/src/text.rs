//! Numbers and repetitions as text.

use vstd::prelude::*;
use vstd::string::*;

verus! {

/// The digits in order.
pub open spec fn digits() -> Seq<char> {
    "0123456789"@
}

/// A number in decimal digits.
pub open spec fn decimal(n: nat) -> Seq<char>
    decreases n,
{
    if n < 10 {
        seq![digits()[n as int]]
    } else {
        decimal(n / 10) + seq![digits()[(n % 10) as int]]
    }
}

/// A number in decimal digits, behind a minus sign where it is negative.
pub open spec fn signed(i: int) -> Seq<char> {
    if i < 0 {
        seq!['-'] + decimal((-i) as nat)
    } else {
        decimal(i as nat)
    }
}

/// `n` copies of `unit` in a row.
pub open spec fn repeat_spec(unit: Seq<char>, n: nat) -> Seq<char>
    decreases n,
{
    if n == 0 {
        Seq::empty()
    } else {
        repeat_spec(unit, (n - 1) as nat) + unit
    }
}

/// Writes a number in decimal digits.
pub fn decimal_string(n: u64) -> (r: String)
    ensures
        r@ == decimal(n as nat),
    decreases n,
{
    proof {
        reveal_strlit("0123456789");
    }
    let d = (n % 10) as usize;
    let digit = "0123456789".substring_char(d, d + 1);
    assert(digit@ =~= seq![digits()[d as int]]);
    if n < 10 {
        String::from_str(digit)
    } else {
        let mut r = decimal_string(n / 10);
        r.append(digit);
        r
    }
}

/// Writes a number in decimal digits, behind a minus sign where it is
/// negative.
pub fn signed_string(i: i64) -> (r: String)
    ensures
        r@ == signed(i as int),
{
    if i < 0 {
        proof {
            reveal_strlit("-");
        }
        let mut r = String::from_str("-");
        let digits = decimal_string((-(i as i128)) as u64);
        r.append(digits.as_str());
        assert(r@ =~= seq!['-'] + decimal((-i) as nat));
        r
    } else {
        decimal_string(i as u64)
    }
}

/// Writes `n` copies of `unit` in a row.
pub fn repeat(unit: &str, n: usize) -> (r: String)
    ensures
        r@ == repeat_spec(unit@, n as nat),
{
    let mut r = String::new();
    let mut k: usize = 0;
    while k < n
        invariant
            k <= n,
            r@ == repeat_spec(unit@, k as nat),
        decreases n - k,
    {
        r.append(unit);
        k = k + 1;
    }
    r
}

} // verus!
