//! Greatest common divisors by Stein's binary algorithm, and bit tests.
use vstd::prelude::*;
use vstd::arithmetic::div_mod::{
    lemma_fundamental_div_mod,
    lemma_fundamental_div_mod_converse,
    lemma_mod_multiples_basic,
    lemma_mod_sub_multiples_vanish,
    lemma_small_mod,
};

verus! {

/// `2^e`.
pub open spec fn pow2(e: nat) -> nat
    decreases e,
{
    if e == 0 {
        1
    } else {
        2 * pow2((e - 1) as nat)
    }
}

/// The greatest common divisor of `a` and `b`, by Euclid's recurrence;
/// `gcd(0, 0) == 0`.
pub open spec fn gcd(a: nat, b: nat) -> nat
    decreases b,
{
    if b == 0 {
        a
    } else {
        gcd(b, a % b)
    }
}

/// The absolute value of `v`.
pub open spec fn abs(v: int) -> nat {
    if v < 0 {
        (-v) as nat
    } else {
        v as nat
    }
}

proof fn lemma_pow2_facts(e: nat)
    ensures
        pow2(e) >= 1,
        e < pow2(e),
    decreases e,
{
    if e > 0 {
        lemma_pow2_facts((e - 1) as nat);
    }
}

proof fn lemma_pow2_adds(a: nat, b: nat)
    ensures
        pow2(a + b) == pow2(a) * pow2(b),
    decreases a,
{
    if a == 0 {
        assert(pow2(0) == 1);
    } else {
        lemma_pow2_adds((a - 1) as nat, b);
        assert(pow2(a) == 2 * pow2((a - 1) as nat));
        assert(pow2(a + b) == 2 * pow2((a - 1 + b) as nat));
        assert(2 * (pow2((a - 1) as nat) * pow2(b)) == (2 * pow2((a - 1) as nat)) * pow2(b))
            by (nonlinear_arith);
    }
}

proof fn lemma_gcd_sym(a: nat, b: nat)
    ensures
        gcd(a, b) == gcd(b, a),
{
    if a == 0 && b == 0 {
    } else if b == 0 {
        lemma_small_mod(0, a);
        assert(gcd(0, a) == gcd(a, 0));
    } else if a == 0 {
        lemma_small_mod(0, b);
        assert(gcd(0, b) == gcd(b, 0));
    } else if a < b {
        lemma_small_mod(a, b);
    } else if b < a {
        lemma_small_mod(b, a);
    }
}

proof fn lemma_gcd_sub(a: nat, b: nat)
    requires
        0 < a <= b,
    ensures
        gcd(a, b) == gcd(a, (b - a) as nat),
{
    lemma_gcd_sym(a, b);
    lemma_gcd_sym(a, (b - a) as nat);
    lemma_mod_sub_multiples_vanish(b as int, a as int);
    assert(gcd(b, a) == gcd(a, b % a));
    if b - a == 0 {
        assert(b % a == 0) by {
            lemma_mod_multiples_basic(1, a as int);
        }
        lemma_small_mod(0, a);
    } else {
        assert(gcd((b - a) as nat, a) == gcd(a, ((b - a) as nat) % a));
    }
}

/// A common factor comes out of the gcd.
pub proof fn lemma_gcd_mul(k: nat, a: nat, b: nat)
    requires
        k > 0,
    ensures
        gcd(k * a, k * b) == k * gcd(a, b),
    decreases b,
{
    if b == 0 {
        assert(k * b == 0);
    } else {
        assert(k * b > 0) by (nonlinear_arith)
            requires
                k > 0,
                b > 0,
        ;
        lemma_fundamental_div_mod(a as int, b as int);
        let q = a / b;
        let r = a % b;
        assert(k * a == q * (k * b) + k * r) by (nonlinear_arith)
            requires
                a == b * q + r,
        ;
        assert(0 <= k * r < k * b) by (nonlinear_arith)
            requires
                0 <= r < b,
                k > 0,
        ;
        lemma_fundamental_div_mod_converse((k * a) as int, (k * b) as int, q as int, (k * r) as int);
        lemma_gcd_mul(k, b, r);
    }
}

/// Beside an odd number, a factor of two in the other does not count.
proof fn lemma_gcd_half(a: nat, b: nat)
    requires
        a % 2 == 1,
    ensures
        gcd(a, 2 * b) == gcd(a, b),
    decreases a + b,
{
    if b == 0 {
    } else if b >= a {
        lemma_gcd_sub(a, 2 * b);
        lemma_gcd_sub(a, (2 * b - a) as nat);
        lemma_gcd_half(a, (b - a) as nat);
        lemma_gcd_sub(a, b);
        assert(2 * b - a - a == 2 * (b - a));
    } else if 2 * b <= a {
        let c = (a - 2 * b) as nat;
        lemma_gcd_sym(a, 2 * b);
        lemma_gcd_sub(2 * b, a);
        lemma_gcd_sym(2 * b, c);
        lemma_gcd_half(c, b);
        lemma_gcd_sym(c, b);
        lemma_gcd_sym(a, b);
        lemma_gcd_sub(b, a);
        lemma_gcd_sub(b, (a - b) as nat);
    } else {
        let c = (2 * b - a) as nat;
        let m = (a - b) as nat;
        lemma_gcd_sub(a, 2 * b);
        lemma_gcd_sym(a, c);
        lemma_gcd_sub(c, a);
        assert(a - c == 2 * m);
        lemma_gcd_half(c, m);
        lemma_gcd_sym(a, b);
        lemma_gcd_sub(b, a);
        assert(a - b == m);
        lemma_gcd_sym(b, m);
        lemma_gcd_sub(m, b);
        assert(b - m == c);
        lemma_gcd_sym(m, c);
    }
}

/// Beside an odd number, powers of two in the other do not count.
proof fn lemma_gcd_half_pow(a: nat, b: nat, e: nat)
    requires
        a % 2 == 1,
    ensures
        gcd(a, pow2(e) * b) == gcd(a, b),
    decreases e,
{
    if e == 0 {
        assert(pow2(0) == 1);
        assert(pow2(e) * b == b);
    } else {
        let e1 = (e - 1) as nat;
        assert(pow2(e) == 2 * pow2(e1));
        lemma_gcd_half_pow(a, b, e1);
        lemma_gcd_half(a, pow2(e1) * b);
        assert(pow2(e) * b == 2 * (pow2(e1) * b)) by (nonlinear_arith)
            requires
                pow2(e) == 2 * pow2(e1),
        ;
    }
}

/// The gcd divides both numbers, and is positive unless both are zero.
pub proof fn lemma_gcd_divides(a: nat, b: nat)
    requires
        a > 0 || b > 0,
    ensures
        gcd(a, b) > 0,
        a % gcd(a, b) == 0,
        b % gcd(a, b) == 0,
    decreases b,
{
    if b == 0 {
        lemma_mod_multiples_basic(1, a as int);
        lemma_small_mod(0, a);
    } else {
        let r = a % b;
        lemma_gcd_divides(b, r);
        let g = gcd(b, r);
        lemma_fundamental_div_mod(b as int, g as int);
        lemma_fundamental_div_mod(r as int, g as int);
        lemma_fundamental_div_mod(a as int, b as int);
        let s = b / g;
        let t = r / g;
        let q = a / b;
        assert(a == (s * q + t) * g) by (nonlinear_arith)
            requires
                b == g * s,
                r == g * t,
                a == b * q + r,
        ;
        assert(s * q + t >= 0) by (nonlinear_arith)
            requires
                b == g * s,
                g > 0,
                b > 0,
                q >= 0,
                t >= 0,
        ;
        lemma_mod_multiples_basic((s * q + t) as int, g as int);
    }
}

/// The gcd is no larger than a positive second argument.
proof fn lemma_gcd_bound(a: nat, b: nat)
    ensures
        b > 0 ==> gcd(a, b) <= b,
        b == 0 ==> gcd(a, b) == a,
    decreases b,
{
    if b > 0 {
        lemma_gcd_bound(b, a % b);
    }
}

/// `x` split into an odd factor and a count of twos.
fn strip_twos(x: u64) -> (r: (u64, u64))
    requires
        x > 0,
    ensures
        x as nat == r.0 as nat * pow2(r.1 as nat),
        r.0 % 2 == 1,
{
    let mut o = x;
    let mut t: u64 = 0;
    proof {
        assert(pow2(0) == 1);
    }
    while o % 2 == 0
        invariant
            o > 0,
            x as nat == o as nat * pow2(t as nat),
            t < pow2(t as nat),
            pow2(t as nat) <= x,
        decreases o,
    {
        let ghost o0 = o;
        let ghost t0 = t;
        o = o / 2;
        proof {
            lemma_pow2_facts((t0 + 1) as nat);
            assert(pow2((t0 + 1) as nat) == 2 * pow2(t0 as nat));
            assert(o0 == 2 * o);
            assert(x as nat == o as nat * pow2((t0 + 1) as nat)) by (nonlinear_arith)
                requires
                    x as nat == o0 as nat * pow2(t0 as nat),
                    o0 == 2 * o,
                    pow2((t0 + 1) as nat) == 2 * pow2(t0 as nat),
            ;
            assert(pow2((t0 + 1) as nat) <= x) by (nonlinear_arith)
                requires
                    x as nat == o as nat * pow2((t0 + 1) as nat),
                    o >= 1,
            ;
        }
        t = t + 1;
    }
    (o, t)
}

/// The greatest common divisor of `|a|` and `|b|`, by Stein's binary
/// algorithm.
pub fn gcd_stein(a: i64, b: i64) -> (r: i64)
    requires
        a != i64::MIN,
        b != i64::MIN,
    ensures
        r as int == gcd(abs(a as int), abs(b as int)),
{
    let ua: u64 = if a < 0 { (-a) as u64 } else { a as u64 };
    let ub: u64 = if b < 0 { (-b) as u64 } else { b as u64 };
    if a == 0 {
        proof {
            lemma_gcd_sym(0, ub as nat);
        }
        return ub as i64;
    }
    if b == 0 {
        return ua as i64;
    }
    let (oa, ta) = strip_twos(ua);
    let (ob, tb) = strip_twos(ub);
    let shift = if ta < tb { ta } else { tb };
    proof {
        let s = shift as nat;
        let da = (ta - shift) as nat;
        let db = (tb - shift) as nat;
        lemma_pow2_adds(s, da);
        lemma_pow2_adds(s, db);
        lemma_pow2_facts(s);
        assert(ua as nat == pow2(s) * (oa as nat * pow2(da))) by (nonlinear_arith)
            requires
                ua as nat == oa as nat * pow2(ta as nat),
                pow2(ta as nat) == pow2(s) * pow2(da),
        ;
        assert(ub as nat == pow2(s) * (ob as nat * pow2(db))) by (nonlinear_arith)
            requires
                ub as nat == ob as nat * pow2(tb as nat),
                pow2(tb as nat) == pow2(s) * pow2(db),
        ;
        lemma_gcd_mul(pow2(s), oa as nat * pow2(da), ob as nat * pow2(db));
        lemma_gcd_half_pow(oa as nat, ob as nat, tb as nat);
        assert(pow2(tb as nat) * ob as nat == ub as nat) by (nonlinear_arith)
            requires
                ub as nat == ob as nat * pow2(tb as nat),
        ;
        if da == 0 {
            assert(pow2(da) == 1);
            assert(oa as nat * pow2(da) == oa as nat) by (nonlinear_arith)
                requires
                    pow2(da) == 1,
            ;
            lemma_gcd_half_pow(oa as nat, ob as nat, db);
            assert(pow2(db) * ob as nat == ob as nat * pow2(db)) by (nonlinear_arith);
        } else {
            assert(db == 0);
            assert(pow2(db) == 1);
            assert(ob as nat * pow2(db) == ob as nat) by (nonlinear_arith)
                requires
                    pow2(db) == 1,
            ;
            lemma_gcd_sym(oa as nat * pow2(da), ob as nat);
            lemma_gcd_half_pow(ob as nat, oa as nat, da);
            assert(pow2(da) * oa as nat == oa as nat * pow2(da)) by (nonlinear_arith);
            lemma_gcd_sym(ob as nat, oa as nat);
            lemma_gcd_sym(oa as nat, ob as nat);
        }
        assert(gcd(ua as nat, ub as nat) == pow2(s) * gcd(oa as nat, ub as nat));
    }
    let mut x: u64 = oa;
    let mut y: u64 = ub;
    while y != 0
        invariant
            x % 2 == 1,
            gcd(ua as nat, ub as nat) == pow2(shift as nat) * gcd(x as nat, y as nat),
        decreases x + y,
    {
        let (oy, ty) = strip_twos(y);
        proof {
            lemma_gcd_half_pow(x as nat, oy as nat, ty as nat);
            assert(pow2(ty as nat) * oy as nat == y as nat) by (nonlinear_arith)
                requires
                    y as nat == oy as nat * pow2(ty as nat),
            ;
            lemma_pow2_facts(ty as nat);
            assert(oy <= y) by (nonlinear_arith)
                requires
                    y as nat == oy as nat * pow2(ty as nat),
                    pow2(ty as nat) >= 1,
            ;
        }
        y = oy;
        if x > y {
            proof {
                lemma_gcd_sym(x as nat, y as nat);
            }
            let t = x;
            x = y;
            y = t;
        }
        proof {
            lemma_gcd_sub(x as nat, y as nat);
        }
        y = y - x;
    }
    proof {
        lemma_gcd_divides(ua as nat, ub as nat);
        lemma_gcd_bound(ua as nat, ub as nat);
    }
    let mut result: u64 = x;
    let mut i: u64 = 0;
    proof {
        assert(gcd(x as nat, 0) == x);
        assert(result as nat * pow2((shift - i) as nat) == pow2(shift as nat) * gcd(x as nat, y as nat))
            by (nonlinear_arith)
            requires
                result == x,
                y == 0,
                i == 0,
                gcd(x as nat, 0) == x,
        ;
    }
    while i < shift
        invariant
            i <= shift,
            result as nat * pow2((shift - i) as nat) == gcd(ua as nat, ub as nat),
            gcd(ua as nat, ub as nat) <= ub,
            ub <= i64::MAX,
        decreases shift - i,
    {
        proof {
            let k = (shift - i - 1) as nat;
            assert(pow2((shift - i) as nat) == 2 * pow2(k));
            lemma_pow2_facts(k);
            assert(result as nat * 2 <= gcd(ua as nat, ub as nat)) by (nonlinear_arith)
                requires
                    result as nat * (2 * pow2(k)) == gcd(ua as nat, ub as nat),
                    pow2(k) >= 1,
            ;
            assert((result as nat * 2) * pow2(k) == result as nat * (2 * pow2(k))) by (nonlinear_arith);
        }
        result = result * 2;
        i = i + 1;
    }
    proof {
        assert(pow2(0) == 1);
        assert(result as nat == gcd(ua as nat, ub as nat)) by (nonlinear_arith)
            requires
                result as nat * pow2(0) == gcd(ua as nat, ub as nat),
                pow2(0) == 1,
        ;
    }
    result as i64
}

/// Whether bit `index` of `value` is set.
pub fn get_bit(value: u64, index: usize) -> (r: bool)
    requires
        index < 64,
    ensures
        r == ((value as nat / pow2(index as nat)) % 2 == 1),
{
    let mut v = value;
    let mut i: usize = 0;
    proof {
        assert(pow2(0) == 1);
    }
    while i < index
        invariant
            i <= index,
            v as nat == value as nat / pow2(i as nat),
        decreases index - i,
    {
        proof {
            lemma_pow2_facts(i as nat);
            assert(pow2((i + 1) as nat) == pow2(i as nat) * 2);
            vstd::arithmetic::div_mod::lemma_div_denominator(value as int, pow2(i as nat) as int, 2);
        }
        v = v / 2;
        i = i + 1;
    }
    v % 2 == 1
}

} // verus!
