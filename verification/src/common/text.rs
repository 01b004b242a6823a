//! Text helpers: the decimal numbers and repeated pieces that the error
//! messages and tree drawings are built from.

use vstd::prelude::*;
use vstd::string::{is_ascii, StrSliceExecFns, StringExecFns};

verus! {

/// The decimal digit `d` as a character.
pub open spec fn digit_char(d: nat) -> char {
    (48 + d) as char
}

/// The decimal representation of `n`, without leading zeros.
pub open spec fn decimal_digits(n: nat) -> Seq<char>
    decreases n,
{
    if n < 10 {
        seq![digit_char(n)]
    } else {
        decimal_digits(n / 10).push(digit_char(n % 10))
    }
}

/// `s` repeated `n` times.
pub open spec fn repeated(s: Seq<char>, n: nat) -> Seq<char>
    decreases n,
{
    if n == 0 {
        Seq::empty()
    } else {
        repeated(s, (n - 1) as nat) + s
    }
}

/// The decimal representation of `n`.
pub fn decimal(n: usize) -> (r: String)
    ensures
        r@ == decimal_digits(n as nat),
    decreases n,
{
    let digits = "0123456789";
    proof {
        reveal_strlit("0123456789");
        assert(is_ascii(digits));
    }
    let d = n % 10;
    let one = digits.substring_ascii(d, d + 1);
    proof {
        assert(one@ =~= seq![digit_char(d as nat)]);
    }
    if n < 10 {
        String::from_str(one)
    } else {
        let mut r = decimal(n / 10);
        r.append(one);
        r
    }
}

/// `s` repeated `n` times.
pub fn repeat(s: &str, n: usize) -> (r: String)
    ensures
        r@ == repeated(s@, n as nat),
{
    let mut r = String::new();
    let mut i: usize = 0;
    while i < n
        invariant
            i <= n,
            r@ == repeated(s@, i as nat),
        decreases n - i,
    {
        r.append(s);
        i = i + 1;
    }
    r
}

} // verus!
