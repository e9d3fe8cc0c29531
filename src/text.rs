//! Text building blocks: decimal numerals, and turning characters into a
//! `String`.
use vstd::prelude::*;

verus! {

/// The character of the decimal digit `d`.
pub open spec fn digit_char(d: nat) -> char
    recommends
        d < 10,
{
    ((48 + d) as u8) as char
}

/// The decimal numeral of `n`, without leading zeros.
pub open spec fn nat_text(n: nat) -> Seq<char>
    decreases n,
{
    if n < 10 {
        seq![digit_char(n)]
    } else {
        nat_text(n / 10).push(digit_char(n % 10))
    }
}

/// The decimal numeral of `v`, with a leading `-` when `v` is negative.
#[verifier::opaque]
pub open spec fn int_text(v: int) -> Seq<char> {
    if v < 0 {
        seq!['-'] + nat_text((-v) as nat)
    } else {
        nat_text(v as nat)
    }
}

/// Appends the decimal numeral of `n` to `out`.
pub(crate) fn push_nat(out: &mut Vec<char>, n: u64)
    ensures
        final(out)@ == old(out)@ + nat_text(n as nat),
    decreases n,
{
    if n >= 10 {
        push_nat(out, n / 10);
    }
    let d: u8 = (n % 10) as u8;
    out.push((48u8 + d) as char);
    assert(final(out)@ =~= old(out)@ + nat_text(n as nat));
}

/// Appends the decimal numeral of `v` to `out`.
pub(crate) fn push_int(out: &mut Vec<char>, v: i64)
    ensures
        final(out)@ == old(out)@ + int_text(v as int),
{
    if v < 0 {
        proof {
            reveal(int_text);
        }
        out.push('-');
        let m: u64 = (0i128 - v as i128) as u64;
        push_nat(out, m);
        assert(final(out)@ =~= old(out)@ + int_text(v as int));
    } else {
        proof {
            reveal(int_text);
        }
        push_nat(out, v as u64);
    }
}

/// Relies on `String`'s `FromIterator<char>`: the string holds the given
/// characters, in order.
#[verifier::external_body]
pub(crate) fn chars_to_string(chars: &Vec<char>) -> (r: String)
    ensures
        r@ == chars@,
{
    chars.iter().collect::<String>()
}

} // verus!
