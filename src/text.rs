//! Decimal text of numbers.
use vstd::prelude::*;

verus! {

/// The character of the digit `d`.
pub open spec fn digit(d: int) -> char {
    seq!['0', '1', '2', '3', '4', '5', '6', '7', '8', '9'][d]
}

/// Decimal digits of `n`, without sign or leading zeros.
pub open spec fn dec(n: nat) -> Seq<char>
    decreases n,
{
    if n < 10 {
        seq![digit(n as int)]
    } else {
        dec(n / 10).push(digit((n % 10) as int))
    }
}

/// A number of thousandths written with three decimals (`1234` is `1.234`).
pub open spec fn milli(m: nat) -> Seq<char> {
    dec(m / 1000) + seq!['.', digit(((m / 100) % 10) as int), digit(((m / 10) % 10) as int), digit((m % 10) as int)]
}

/// Relies on the `Display` of `usize` (through `to_string`): its decimal
/// digits, without sign, padding or separators.
#[verifier::external_body]
pub(crate) fn decimal(n: usize) -> (r: String)
    ensures
        r@ == dec(n as nat),
{
    n.to_string()
}

/// `m` thousandths written with three decimals.
pub fn milli_text(m: usize) -> (r: String)
    ensures
        r@ == milli(m as nat),
{
    let mut r = decimal(m / 1000);
    r.append(".");
    let a = decimal((m / 100) % 10);
    let b = decimal((m / 10) % 10);
    let c = decimal(m % 10);
    r.append(a.as_str());
    r.append(b.as_str());
    r.append(c.as_str());
    proof {
        reveal_strlit(".");
    }
    assert(r@ =~= milli(m as nat));
    r
}

} // verus!
