//! Numbers as decimal text.

use vstd::prelude::*;

verus! {

/// The character of the decimal digit `d`.
pub open spec fn digit(d: nat) -> char {
    (48 + d) as char
}

/// The decimal digits of `x`, the most significant first.
pub open spec fn decimal(x: nat) -> Seq<char>
    decreases x,
{
    if x < 10 {
        seq![digit(x)]
    } else {
        decimal(x / 10).push(digit(x % 10))
    }
}

/// `String::from_iter` on the characters of a vector: the string that holds
/// those characters in their order.
#[verifier::external_body]
fn string_of(chars: Vec<char>) -> (s: String)
    ensures
        s@ == chars@,
{
    String::from_iter(chars)
}

/// The decimal digits of `x` as a string.
pub fn to_decimal(x: u128) -> (s: String)
    ensures
        s@ == decimal(x as nat),
{
    let mut rev: Vec<char> = Vec::new();
    let mut rest: u128 = x;
    while rest >= 10
        invariant
            decimal(x as nat) == decimal(rest as nat) + rev@.reverse(),
        decreases rest,
    {
        let d: u8 = (rest % 10) as u8;
        let c: char = (48u8 + d) as char;
        proof {
            let r = rev@;
            assert(c == digit((rest % 10) as nat));
            assert(r.push(c).reverse() =~= seq![c] + r.reverse());
            assert(decimal((rest / 10) as nat).push(c) + r.reverse() =~= decimal(
                (rest / 10) as nat,
            ) + (seq![c] + r.reverse()));
        }
        rev.push(c);
        rest = rest / 10;
    }
    let c: char = (48u8 + rest as u8) as char;
    rev.push(c);
    let ghost pushed = rev@;
    let mut out: Vec<char> = Vec::new();
    let mut n: usize = rev.len();
    proof {
        assert(c == digit(rest as nat));
        assert(pushed.reverse() =~= seq![c] + pushed.drop_last().reverse());
    }
    while n > 0
        invariant
            n <= rev.len(),
            rev@ == pushed,
            out@ == pushed.reverse().subrange(0, rev.len() - n),
        decreases n,
    {
        n = n - 1;
        out.push(rev[n]);
        proof {
            assert(out@ =~= pushed.reverse().subrange(0, rev.len() - n));
        }
    }
    proof {
        assert(out@ =~= pushed.reverse());
    }
    string_of(out)
}

} // verus!
