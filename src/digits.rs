//! Numbers as sequences of digits in a chosen base, least significant first.
use vstd::prelude::*;
use crate::text::{chars_to_string, nat_text, push_nat};

verus! {

/// Why a conversion of digits failed.
#[derive(Debug, Clone, Copy, PartialEq, Eq, Structural)]
pub enum DigitsError {
    /// A digit (first field) not below the base (second field).
    DigitExceedLimit(u8, u8),
    /// A character that the conversion rule does not map to a digit.
    NoConversionCharToNumRule(char),
    /// A digit that the conversion rule does not map to a character.
    NoConversionNumToCharRule(u8),
}

/// The symbol of digit `d`: `0`-`9`, then `a`-`z` for 10 to 35, then `A`-`Z`
/// for 36 to 61.
pub open spec fn digit_symbol(d: u8) -> Option<char> {
    if d <= 9 {
        Some(((48 + d) as u8) as char)
    } else if d <= 35 {
        Some(((97 + d - 10) as u8) as char)
    } else if d <= 61 {
        Some(((65 + d - 36) as u8) as char)
    } else {
        None
    }
}

/// The digit that symbol `c` stands for, as `digit_symbol` assigns them.
pub open spec fn symbol_digit(c: char) -> Option<u8> {
    if '0' <= c <= '9' {
        Some((c as u32 - 48) as u8)
    } else if 'a' <= c <= 'z' {
        Some((c as u32 - 97 + 10) as u8)
    } else if 'A' <= c <= 'Z' {
        Some((c as u32 - 65 + 36) as u8)
    } else {
        None
    }
}

pub fn arabic_num_to_char(digit: u8) -> (r: Option<char>)
    ensures
        r == digit_symbol(digit),
{
    if digit <= 9 {
        Some((48u8 + digit) as char)
    } else if digit <= 35 {
        Some((97u8 + digit - 10) as char)
    } else if digit <= 61 {
        Some((65u8 + digit - 36) as char)
    } else {
        None
    }
}

pub fn char_to_arabic_num(digit: char) -> (r: Option<u8>)
    ensures
        r == symbol_digit(digit),
{
    if digit >= '0' && digit <= '9' {
        Some((digit as u32 - 48) as u8)
    } else if digit >= 'a' && digit <= 'z' {
        Some((digit as u32 - 97 + 10) as u8)
    } else if digit >= 'A' && digit <= 'Z' {
        Some((digit as u32 - 65 + 36) as u8)
    } else {
        None
    }
}

/// The digits of `v` in base `b`, least significant first, with no zero at
/// the most significant end; zero has no digits.
pub open spec fn base_digits(v: nat, b: nat) -> Seq<u8>
    recommends
        2 <= b <= 255,
    decreases v,
    via base_digits_decreases
{
    if v == 0 || b < 2 {
        Seq::empty()
    } else {
        seq![(v % b) as u8] + base_digits(v / b, b)
    }
}

#[via_fn]
proof fn base_digits_decreases(v: nat, b: nat) {
    if v != 0 && b >= 2 {
        assert(v / b < v) by (nonlinear_arith)
            requires
                v > 0,
                b >= 2,
        ;
    }
}

/// The text of one digit as `cast_to_string` writes it: its symbol, or its
/// decimal value in brackets where it has none.
pub open spec fn cast_piece(d: u8) -> Seq<char> {
    match digit_symbol(d) {
        Some(c) => seq![c],
        None => seq!['['] + nat_text(d as nat) + seq![']'],
    }
}

/// The pieces of `ds`, most significant digit first.
pub open spec fn cast_text(ds: Seq<u8>) -> Seq<char>
    decreases ds.len(),
{
    if ds.len() == 0 {
        Seq::empty()
    } else {
        cast_piece(ds.last()) + cast_text(ds.drop_last())
    }
}

/// The views of `ps`, one after another.
pub open spec fn concat_views(ps: Seq<String>) -> Seq<char>
    decreases ps.len(),
{
    if ps.len() == 0 {
        Seq::empty()
    } else {
        concat_views(ps.drop_last()) + ps.last()@
    }
}

/// A number as digits below `max_digit`, least significant first.
pub struct Digits {
    digits: Vec<u8>,
    max_digit: u8,
}

impl Digits {
    pub closed spec fn spec_digits(&self) -> Seq<u8> {
        self.digits@
    }

    pub closed spec fn spec_max_digit(&self) -> u8 {
        self.max_digit
    }

    /// Every digit is below the base.
    pub open spec fn wf(&self) -> bool {
        forall|i: int|
            0 <= i < self.spec_digits().len() ==> #[trigger] self.spec_digits()[i] < self.spec_max_digit()
    }

    /// No digits, in base `max_digit`.
    pub fn new(max_digit: u8) -> (r: Digits)
        ensures
            r.wf(),
            r.spec_digits() == Seq::<u8>::empty(),
            r.spec_max_digit() == max_digit,
    {
        Digits { digits: Vec::new(), max_digit }
    }

    pub fn len(&self) -> (r: usize)
        ensures
            r == self.spec_digits().len(),
    {
        self.digits.len()
    }

    /// Adds `digit` at the most significant end, unless it is not below the
    /// base.
    pub fn append(&mut self, digit: u8) -> (r: Result<(), DigitsError>)
        requires
            old(self).wf(),
        ensures
            final(self).wf(),
            final(self).spec_max_digit() == old(self).spec_max_digit(),
            digit < old(self).spec_max_digit() ==> r is Ok && final(self).spec_digits()
                == old(self).spec_digits().push(digit),
            digit >= old(self).spec_max_digit() ==> r == Err::<(), DigitsError>(
                DigitsError::DigitExceedLimit(digit, old(self).spec_max_digit()),
            ) && final(self).spec_digits() == old(self).spec_digits(),
    {
        if digit >= self.max_digit {
            Err(DigitsError::DigitExceedLimit(digit, self.max_digit))
        } else {
            let ghost pre = self.digits@;
            self.digits.push(digit);
            assert forall|i: int| 0 <= i < self.spec_digits().len() implies #[trigger] self.spec_digits()[i]
                < self.spec_max_digit() by {
                if i < pre.len() {
                    assert(old(self).spec_digits()[i] == self.spec_digits()[i]);
                }
            }
            Ok(())
        }
    }

    /// Reads `digits_string`, most significant character first, mapping each
    /// character to a digit by `convert_rule`. Fails at the first character,
    /// from the least significant end, that the rule maps to nothing or to a
    /// digit not below `max_digit`.
    pub fn from_string(
        digits_string: &str,
        max_digit: u8,
        convert_rule: impl Fn(char) -> Option<u8>,
    ) -> (r: Result<Digits, DigitsError>)
        requires
            forall|c: char| convert_rule.requires((c,)),
        ensures
            r matches Ok(d) ==> {
                &&& d.wf()
                &&& d.spec_max_digit() == max_digit
                &&& d.spec_digits().len() == digits_string@.len()
                &&& forall|i: int|
                    0 <= i < d.spec_digits().len() ==> convert_rule.ensures(
                        (digits_string@[digits_string@.len() - 1 - i],),
                        Some(#[trigger] d.spec_digits()[i]),
                    )
            },
            r matches Err(DigitsError::NoConversionCharToNumRule(c)) ==> digits_string@.contains(c)
                && convert_rule.ensures((c,), None),
            r matches Err(DigitsError::DigitExceedLimit(v, m)) ==> m == max_digit && v >= max_digit
                && exists|i: int|
                0 <= i < digits_string@.len() && convert_rule.ensures(
                    (#[trigger] digits_string@[i],),
                    Some(v),
                ),
            !(r matches Err(DigitsError::NoConversionNumToCharRule(_))),
            (forall|i: int, o: Option<u8>|
                0 <= i < digits_string@.len() && #[trigger] convert_rule.ensures(
                    (digits_string@[i],),
                    o,
                ) ==> (o matches Some(v) && v < max_digit)) ==> r is Ok,
    {
        let mut digit = Digits::new(max_digit);
        let n = digits_string.unicode_len();
        let mut k: usize = 0;
        while k < n
            invariant
                n == digits_string@.len(),
                k <= n,
                digit.wf(),
                digit.spec_max_digit() == max_digit,
                digit.spec_digits().len() == k,
                forall|c: char| convert_rule.requires((c,)),
                forall|i: int|
                    0 <= i < k ==> convert_rule.ensures(
                        (digits_string@[n - 1 - i],),
                        Some(#[trigger] digit.spec_digits()[i]),
                    ),
            decreases n - k,
        {
            let digit_char = digits_string.get_char(n - 1 - k);
            let value = match convert_rule(digit_char) {
                Some(v) => v,
                None => {
                    assert(digits_string@[n - 1 - k] == digit_char);
                    return Err(DigitsError::NoConversionCharToNumRule(digit_char));
                },
            };
            match digit.append(value) {
                Ok(()) => {},
                Err(e) => {
                    assert(digits_string@[n - 1 - k] == digit_char);
                    return Err(e);
                },
            }
            k = k + 1;
        }
        Ok(digit)
    }

    /// Writes the digits most significant first, mapping each to a character
    /// by `convert_rule`; fails at the first digit, from the most significant
    /// end, that the rule maps to nothing.
    pub fn to_string(&self, convert_rule: impl Fn(u8) -> Option<char>) -> (r: Result<String, DigitsError>)
        requires
            forall|d: u8| convert_rule.requires((d,)),
        ensures
            r matches Ok(s) ==> {
                &&& s@.len() == self.spec_digits().len()
                &&& forall|i: int|
                    0 <= i < s@.len() ==> convert_rule.ensures(
                        (self.spec_digits()[self.spec_digits().len() - 1 - i],),
                        Some(#[trigger] s@[i]),
                    )
            },
            r matches Err(e) ==> e matches DigitsError::NoConversionNumToCharRule(d)
                && self.spec_digits().contains(d) && convert_rule.ensures((d,), None),
            (forall|i: int, o: Option<char>|
                0 <= i < self.spec_digits().len() && #[trigger] convert_rule.ensures(
                    (self.spec_digits()[i],),
                    o,
                ) ==> o is Some) ==> r is Ok,
    {
        let mut result: Vec<char> = Vec::new();
        let n = self.digits.len();
        let mut k: usize = 0;
        while k < n
            invariant
                n == self.digits@.len(),
                k <= n,
                result@.len() == k,
                forall|d: u8| convert_rule.requires((d,)),
                forall|i: int|
                    0 <= i < k ==> convert_rule.ensures(
                        (self.digits@[n - 1 - i],),
                        Some(#[trigger] result@[i]),
                    ),
            decreases n - k,
        {
            let digit = self.digits[n - 1 - k];
            match convert_rule(digit) {
                Some(c) => result.push(c),
                None => {
                    assert(self.digits@.contains(digit) && convert_rule.ensures(
                        (self.spec_digits()[n - 1 - k],),
                        None::<char>,
                    )) by {
                        assert(self.digits@[n - 1 - k] == digit);
                    }
                    return Err(DigitsError::NoConversionNumToCharRule(digit));
                },
            }
            k = k + 1;
        }
        Ok(chars_to_string(&result))
    }

    /// Joins the strings that `convert_rule` gives for the digits, most
    /// significant first; `None` where the rule gives `None` for a digit.
    pub fn to_string_complex(&self, convert_rule: impl Fn(u8) -> Option<String>) -> (r: Option<String>)
        requires
            forall|d: u8| convert_rule.requires((d,)),
        ensures
            r matches Some(s) ==> exists|ps: Seq<String>|
                {
                    &&& ps.len() == self.spec_digits().len()
                    &&& s@ == concat_views(ps)
                    &&& forall|i: int|
                        0 <= i < ps.len() ==> convert_rule.ensures(
                            (self.spec_digits()[self.spec_digits().len() - 1 - i],),
                            Some(#[trigger] ps[i]),
                        )
                },
            r is None ==> exists|d: u8| self.spec_digits().contains(d) && convert_rule.ensures((d,), None),
            (forall|i: int, o: Option<String>|
                0 <= i < self.spec_digits().len() && #[trigger] convert_rule.ensures(
                    (self.spec_digits()[i],),
                    o,
                ) ==> o is Some) ==> r is Some,
    {
        let mut result = String::new();
        let n = self.digits.len();
        let mut k: usize = 0;
        let ghost mut ps: Seq<String> = Seq::empty();
        while k < n
            invariant
                n == self.digits@.len(),
                k <= n,
                ps.len() == k,
                result@ == concat_views(ps),
                forall|d: u8| convert_rule.requires((d,)),
                forall|i: int|
                    0 <= i < k ==> convert_rule.ensures((self.digits@[n - 1 - i],), Some(#[trigger] ps[i])),
            decreases n - k,
        {
            let digit = self.digits[n - 1 - k];
            match convert_rule(digit) {
                Some(c) => {
                    result.append(c.as_str());
                    proof {
                        let ps0 = ps;
                        ps = ps.push(c);
                        assert(ps.drop_last() =~= ps0);
                    }
                },
                None => {
                    assert(self.digits@.contains(digit) && convert_rule.ensures(
                        (self.spec_digits()[n - 1 - k],),
                        None::<String>,
                    )) by {
                        assert(self.digits@[n - 1 - k] == digit);
                    }
                    return None;
                },
            }
            k = k + 1;
        }
        Some(result)
    }

    /// The digits most significant first, each as its symbol, or as its
    /// decimal value in brackets where it has none.
    pub fn cast_to_string(&self) -> (r: String)
        ensures
            r@ == cast_text(self.spec_digits()),
    {
        let mut out: Vec<char> = Vec::new();
        let n = self.digits.len();
        let mut k: usize = n;
        assert(self.digits@.take(n as int) =~= self.digits@);
        while k > 0
            invariant
                n == self.digits@.len(),
                k <= n,
                out@ + cast_text(self.digits@.take(k as int)) == cast_text(self.digits@),
            decreases k,
        {
            let ghost before = out@;
            let digit = self.digits[k - 1];
            match arabic_num_to_char(digit) {
                Some(c) => out.push(c),
                None => {
                    out.push('[');
                    push_nat(&mut out, digit as u64);
                    out.push(']');
                },
            }
            proof {
                let t = self.digits@.take(k as int);
                assert(t.drop_last() =~= self.digits@.take(k - 1));
                assert(out@ =~= before + cast_piece(digit));
                assert(out@ + cast_text(self.digits@.take(k - 1)) =~= before + cast_text(t));
            }
            k = k - 1;
        }
        assert(self.digits@.take(n as int) =~= self.digits@);
        assert(self.digits@.take(0) =~= Seq::<u8>::empty());
        assert(out@ =~= cast_text(self.digits@));
        chars_to_string(&out)
    }

    /// The digits of `value` in base `max_digit`.
    pub fn from_u64(value: u64, max_digit: u8) -> (r: Digits)
        requires
            max_digit >= 2,
        ensures
            r.wf(),
            r.spec_max_digit() == max_digit,
            r.spec_digits() == base_digits(value as nat, max_digit as nat),
    {
        let mut digits = Digits::new(max_digit);
        let mut v = value;
        while v > 0
            invariant
                max_digit >= 2,
                digits.wf(),
                digits.spec_max_digit() == max_digit,
                digits.spec_digits() + base_digits(v as nat, max_digit as nat) == base_digits(
                    value as nat,
                    max_digit as nat,
                ),
            decreases v,
        {
            let ghost before = digits.spec_digits();
            let ghost vo = v as nat;
            let d = (v % max_digit as u64) as u8;
            let _ = digits.append(d);
            v = v / max_digit as u64;
            assert(base_digits(vo, max_digit as nat) == seq![d] + base_digits(v as nat, max_digit as nat));
            assert(digits.spec_digits() + base_digits(v as nat, max_digit as nat) =~= before
                + base_digits(vo, max_digit as nat));
        }
        assert(digits.spec_digits() =~= digits.spec_digits() + base_digits(0, max_digit as nat));
        digits
    }

    pub fn get_u8_array(&self) -> (r: &Vec<u8>)
        ensures
            r@ == self.spec_digits(),
    {
        &self.digits
    }
}

} // verus!
