//! Canonical text of the values that the trie hashes: decimal numerals and
//! the payload rendering.
use vstd::prelude::*;
use vstd::string::*;

verus! {

/// The ten decimal digits, in order.
pub open spec fn digit_chars() -> Seq<char> {
    seq!['0', '1', '2', '3', '4', '5', '6', '7', '8', '9']
}

/// The decimal numeral of `n`, most significant digit first, without
/// leading zeros (`0` is written as one digit).
pub open spec fn decimal(n: nat) -> Seq<char>
    decreases n,
{
    if n < 10 {
        seq![digit_chars()[n as int]]
    } else {
        decimal(n / 10).push(digit_chars()[(n % 10) as int])
    }
}

/// Appends the decimal numeral of `n` to `out`.
pub fn push_decimal(n: u64, out: &mut String)
    ensures
        final(out)@ == old(out)@ + decimal(n as nat),
    decreases n,
{
    if n >= 10 {
        push_decimal(n / 10, out);
    }
    let d = (n % 10) as usize;
    proof {
        reveal_strlit("0123456789");
    }
    let digit = "0123456789".substring_char(d, d + 1);
    assert(digit@ =~= seq![digit_chars()[d as int]]);
    out.append(digit);
    assert(out@ =~= old(out)@ + decimal(n as nat));
}

/// The decimal numeral of `v`, with a leading `-` when it is negative.
pub open spec fn signed_decimal(v: int) -> Seq<char> {
    if v < 0 {
        seq!['-'] + decimal((-v) as nat)
    } else {
        decimal(v as nat)
    }
}

/// A value that a trie node can carry: it has a canonical text, which is
/// what the node's digest is computed from.
pub trait Payload {
    /// The canonical text of the value.
    spec fn text(&self) -> Seq<char>;

    /// Renders the value as its canonical text.
    fn render(&self) -> (r: String)
        ensures
            r@ == self.text(),
    ;
}

impl Payload for String {
    open spec fn text(&self) -> Seq<char> {
        self@
    }

    fn render(&self) -> (r: String) {
        self.clone()
    }
}

impl Payload for i32 {
    open spec fn text(&self) -> Seq<char> {
        signed_decimal(*self as int)
    }

    fn render(&self) -> (r: String) {
        let mut out = String::new();
        let magnitude: u64 = if *self < 0 {
            proof {
                reveal_strlit("-");
            }
            out.append("-");
            (0i64 - *self as i64) as u64
        } else {
            *self as u64
        };
        push_decimal(magnitude, &mut out);
        assert(out@ =~= signed_decimal(*self as int));
        out
    }
}

} // verus!
