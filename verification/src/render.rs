//! Decimal rendering of whole numbers held as 64-bit floats, as Rust's
//! `Display` and `Debug` write them.

use vstd::prelude::*;
use crate::text::string_of_chars;

verus! {

/// The decimal digit character for `d`, which is below ten.
pub open spec fn digit_char(d: nat) -> char {
    seq!['0', '1', '2', '3', '4', '5', '6', '7', '8', '9'][d as int]
}

/// The decimal digits of a natural number, most significant first, without
/// leading zeros (zero itself is written "0").
pub open spec fn nat_digits(n: nat) -> Seq<char>
    decreases n,
{
    if n < 10 {
        seq![digit_char(n)]
    } else {
        nat_digits(n / 10).push(digit_char(n % 10))
    }
}

/// The decimal rendering of an integer: a minus sign before the digits of a
/// negative number.
pub open spec fn int_decimal(n: int) -> Seq<char> {
    if n < 0 {
        seq!['-'] + nat_digits((-n) as nat)
    } else {
        nat_digits(n as nat)
    }
}

fn digit(d: u128) -> (c: char)
    requires
        d < 10,
    ensures
        c == digit_char(d as nat),
{
    let table: [char; 10] = ['0', '1', '2', '3', '4', '5', '6', '7', '8', '9'];
    let c = table[d as usize];
    proof {
        assert(table@ =~= seq!['0', '1', '2', '3', '4', '5', '6', '7', '8', '9']);
    }
    c
}

fn push_digits(n: u128, out: &mut Vec<char>)
    ensures
        final(out)@ == old(out)@ + nat_digits(n as nat),
    decreases n,
{
    if n >= 10 {
        push_digits(n / 10, out);
    }
    let c = digit(n % 10);
    out.push(c);
    proof {
        if n >= 10 {
            assert(nat_digits(n as nat) == nat_digits((n / 10) as nat).push(digit_char((n % 10) as nat)));
        } else {
            assert(nat_digits(n as nat) == seq![digit_char(n as nat)]);
        }
    }
}

/// The spacing of 64-bit floats around the magnitude `a`: one below 2^53,
/// doubling with each power of two above.
pub open spec fn float_spacing(a: nat) -> nat
    decreases a,
{
    if a < 0x20_0000_0000_0000 {
        1
    } else {
        2 * float_spacing(a / 2)
    }
}

/// `a` rounded to the nearest multiple of `u`, the even multiple where two
/// are as near.
pub open spec fn round_to_multiple(a: nat, u: nat) -> nat {
    let q = a / u;
    let r = a % u;
    if r * 2 < u || (r * 2 == u && q % 2 == 0) {
        q * u
    } else {
        (q + 1) * u
    }
}

/// The integer that `n as f64` holds: `n` rounded to the nearest 64-bit
/// float, ties to even.
pub open spec fn float_round(n: int) -> int {
    if n < 0 {
        -(round_to_multiple((-n) as nat, float_spacing((-n) as nat)) as int)
    } else {
        round_to_multiple(n as nat, float_spacing(n as nat)) as int
    }
}

/// The spacing of floats around the magnitude `a`.
fn spacing_of(a: u128) -> (u: u128)
    requires
        a <= 0x1_0000_0000_0000_0000,
    ensures
        u == float_spacing(a as nat),
        1 <= u,
        u <= a || u == 1,
{
    proof {
        if a >= 1 {
            lemma_spacing_positive(a as nat);
        }
    }
    let mut u: u128 = 1;
    let mut t: u128 = a;
    while t >= 0x20_0000_0000_0000
        invariant
            a <= 0x1_0000_0000_0000_0000,
            1 <= u <= a || (u == 1),
            t == a / u,
            float_spacing(a as nat) == u * float_spacing(t as nat),
        decreases t,
    {
        proof {
            vstd::arithmetic::div_mod::lemma_fundamental_div_mod(a as int, u as int);
            vstd::arithmetic::div_mod::lemma_mod_pos_bound(a as int, u as int);
            assert(u * (a / u) >= 2 * u) by (nonlinear_arith)
                requires
                    a / u >= 2,
                    u >= 1,
            ;
            vstd::arithmetic::div_mod::lemma_div_denominator(a as int, u as int, 2);
            assert(float_spacing(t as nat) == 2 * float_spacing((t / 2) as nat));
            assert(u * (2 * float_spacing((t / 2) as nat)) == (u * 2) * float_spacing((t / 2) as nat)) by (nonlinear_arith);
        }
        t = t / 2;
        u = u * 2;
    }
    proof {
        assert(float_spacing(t as nat) == 1);
        assert(u * float_spacing(t as nat) == u) by (nonlinear_arith)
            requires
                float_spacing(t as nat) == 1,
        ;
    }
    u
}

/// A magnitude rounded to the nearest 64-bit float.
fn round_magnitude(a: u128) -> (r: u128)
    requires
        a <= 0x8000_0000_0000_0000,
    ensures
        r == round_to_multiple(a as nat, float_spacing(a as nat)),
        r <= 2 * a,
{
    let u = spacing_of(a);
    proof {
        if a >= 1 {
            lemma_spacing_positive(a as nat);
        }
        vstd::arithmetic::div_mod::lemma_fundamental_div_mod(a as int, u as int);
        vstd::arithmetic::div_mod::lemma_mod_pos_bound(a as int, u as int);
        assert(u * (a / u) <= a);
        assert((a / u) * u == u * (a / u)) by (nonlinear_arith);
    }
    let q = a / u;
    let rem = a % u;
    proof {
        assert(q as nat == (a as nat) / (u as nat));
        assert(rem as nat == (a as nat) % (u as nat));
    }
    if rem * 2 < u || (rem * 2 == u && q % 2 == 0) {
        q * u
    } else {
        proof {
            assert((q + 1) * u == q * u + u) by (nonlinear_arith);
            if a == 0 {
                assert(u == 1);
                assert(rem == 0);
            }
        }
        (q + 1) * u
    }
}

/// The start of the digit search: a power of ten above every magnitude
/// that an `i64` rounds to.
pub const DIGITS_TOP: u128 = 10_000_000_000_000_000_000;

/// Ten to the power `e`.
pub open spec fn pow10(e: nat) -> nat
    decreases e,
{
    if e == 0 {
        1
    } else {
        10 * pow10((e - 1) as nat)
    }
}

/// The value of the shortest digits that read back as the float `v`: from
/// the largest power of ten `p` down, the first multiple of `p` next to
/// `v` (below or above) that lies in the interval of numbers that round to
/// `v` (`lo4` and `hi4` are four times its reach below and above `v`; its
/// ends belong to it where `even`); where both do, the nearer, the upper
/// one on a tie. This is how Rust finds the digits it writes for a float.
pub open spec fn shortest_digits(v: nat, lo4: nat, hi4: nat, even: bool, p: nat) -> nat
    decreases p,
{
    if p <= 1 {
        v
    } else {
        let rem = v % p;
        let down = if even { 4 * rem <= lo4 } else { 4 * rem < lo4 };
        let up = if even { 4 * (p - rem) <= hi4 } else { 4 * (p - rem) < hi4 };
        if up && (!down || 2 * rem >= p) {
            (v - rem + p) as nat
        } else if down {
            (v - rem) as nat
        } else {
            shortest_digits(v, lo4, hi4, even, p / 10)
        }
    }
}

/// The number Rust writes for the float magnitude `v`: its shortest
/// digits, with zeros after them up to the decimal point. The numbers
/// that round to `v` lie within half its spacing `u` of it (a quarter
/// below a power of two), ends included where its mantissa is even.
pub open spec fn float_shown_mag(v: nat) -> nat {
    let u = float_spacing(v);
    let m = v / u;
    let lo4 = if u >= 2 && m == 0x10_0000_0000_0000 { u } else { 2 * u };
    shortest_digits(v, lo4, 2 * u, m % 2 == 0, DIGITS_TOP as nat)
}

/// The number Rust's `Display` writes for `n as f64`: `n` rounded to the
/// nearest float, written with its shortest digits.
pub open spec fn float_shown(n: int) -> int {
    if n < 0 {
        -(float_shown_mag(round_to_multiple((-n) as nat, float_spacing((-n) as nat))) as int)
    } else {
        float_shown_mag(round_to_multiple(n as nat, float_spacing(n as nat))) as int
    }
}

/// The shortest digits of the float magnitude `v`.
fn shown_magnitude(v: u128) -> (r: u128)
    requires
        v <= 0x1_0000_0000_0000_0000,
    ensures
        r == float_shown_mag(v as nat),
        r <= v + DIGITS_TOP,
{
    let u = spacing_of(v);
    let m = v / u;
    let lo4: u128 = if u >= 2 && m == 0x10_0000_0000_0000 { u } else { 2 * u };
    let hi4: u128 = 2 * u;
    let even = m % 2 == 0;
    proof {
        assert(m as nat == (v as nat) / (u as nat));
        reveal_with_fuel(pow10, 20);
        assert(pow10(19) == DIGITS_TOP);
    }
    let mut p: u128 = DIGITS_TOP;
    let ghost mut e: nat = 19;
    while p > 1
        invariant
            1 <= p <= DIGITS_TOP,
            p == pow10(e),
            v <= 0x1_0000_0000_0000_0000,
            u <= 0x1_0000_0000_0000_0000,
            lo4 <= 2 * u,
            hi4 == 2 * u,
            float_shown_mag(v as nat) == shortest_digits(v as nat, lo4 as nat, hi4 as nat, even, p as nat),
        decreases p,
    {
        let rem = v % p;
        proof {
            vstd::arithmetic::div_mod::lemma_mod_pos_bound(v as int, p as int);
            vstd::arithmetic::div_mod::lemma_fundamental_div_mod(v as int, p as int);
            assert(p * (v / p) >= 0) by (nonlinear_arith)
                requires
                    p >= 1,
                    v / p >= 0,
            ;
        }
        let down = if even { 4 * rem <= lo4 } else { 4 * rem < lo4 };
        let up = if even { 4 * (p - rem) <= hi4 } else { 4 * (p - rem) < hi4 };
        if up && (!down || 2 * rem >= p) {
            return v - rem + p;
        } else if down {
            return v - rem;
        }
        proof {
            assert(e >= 1);
            assert(p / 10 == pow10((e - 1) as nat));
            e = (e - 1) as nat;
        }
        p = p / 10;
    }
    v
}

/// The characters Rust's `Display` writes for `n as f64`, a whole number.
pub fn float_display_chars(n: i64) -> (r: Vec<char>)
    ensures
        r@ == int_decimal(float_shown(n as int)),
{
    let mut out: Vec<char> = Vec::new();
    if n < 0 {
        let a: u128 = ((0 - (n + 1)) as u128) + 1;
        let v = round_magnitude(a);
        let s = shown_magnitude(v);
        proof {
            assert(a as int == -(n as int));
            lemma_spacing_positive(a as nat);
            lemma_shown_positive(v as nat);
        }
        out.push('-');
        push_digits(s, &mut out);
    } else {
        let v = round_magnitude(n as u128);
        let s = shown_magnitude(v);
        push_digits(s, &mut out);
    }
    proof {
        assert(out@ =~= int_decimal(float_shown(n as int)));
    }
    out
}

/// The text Rust's `Display` writes for `n as f64`, a whole number.
pub fn float_decimal_string(n: i64) -> (r: String)
    ensures
        r@ == int_decimal(float_shown(n as int)),
{
    let cs = float_display_chars(n);
    string_of_chars(&cs)
}

/// `s` without its trailing zeros.
pub open spec fn strip_zeros(s: nat) -> nat
    decreases s,
{
    if s > 0 && s % 10 == 0 {
        strip_zeros(s / 10)
    } else {
        s
    }
}

/// How Rust's exponent form writes a positive whole number `s` whose digits
/// are its shortest: the first digit, then a point and the others where
/// there are any (trailing zeros dropped), then `e` and the power of ten.
pub open spec fn exp_text(s: nat) -> Seq<char> {
    let m = nat_digits(strip_zeros(s));
    let e = (nat_digits(s).len() - 1) as nat;
    seq![m[0]] + (if m.len() > 1 { seq!['.'] + m.drop_first() } else { Seq::<char>::empty() }) + seq!['e'] + nat_digits(e)
}

/// What Rust's `Debug` writes for `n as f64`, a whole number: from 1e16
/// in size on, the exponent form of its shortest digits; below, its
/// digits and ".0".
pub open spec fn float_debug_text(n: int) -> Seq<char> {
    let s = float_shown(n);
    if s >= 10_000_000_000_000_000 {
        exp_text(s as nat)
    } else if s <= -10_000_000_000_000_000 {
        seq!['-'] + exp_text((-s) as nat)
    } else {
        int_decimal(s) + seq!['.', '0']
    }
}

/// The exponent form of `s` pushed onto `out`.
fn exp_chars(s: u128, out: &mut Vec<char>)
    requires
        s >= 1,
    ensures
        final(out)@ == old(out)@ + exp_text(s as nat),
{
    let mut t = s;
    while t % 10 == 0
        invariant
            t >= 1,
            strip_zeros(s as nat) == strip_zeros(t as nat),
        decreases t,
    {
        t = t / 10;
    }
    let ghost m = nat_digits(t as nat);
    let mut ds: Vec<char> = Vec::new();
    push_digits(t, &mut ds);
    let mut all: Vec<char> = Vec::new();
    push_digits(s, &mut all);
    proof {
        assert(ds@ =~= m);
        assert(strip_zeros(t as nat) == t);
        lemma_digits_nonempty(t as nat);
        lemma_digits_nonempty(s as nat);
    }
    out.push(ds[0]);
    if ds.len() > 1 {
        out.push('.');
        let mut k: usize = 1;
        let ghost start = out@;
        while k < ds.len()
            invariant
                1 <= k <= ds.len(),
                out@ == start + ds@.subrange(1, k as int),
            decreases ds.len() - k,
        {
            out.push(ds[k]);
            proof {
                assert(ds@.subrange(1, k + 1) =~= ds@.subrange(1, k as int).push(ds@[k as int]));
            }
            k = k + 1;
        }
        proof {
            assert(ds@.subrange(1, ds.len() as int) =~= ds@.drop_first());
        }
    }
    out.push('e');
    let e = (all.len() - 1) as u128;
    push_digits(e, out);
    proof {
        assert(all@ =~= nat_digits(s as nat));
        assert(out@ =~= old(out)@ + exp_text(s as nat));
    }
}

/// Every number has at least one digit.
proof fn lemma_digits_nonempty(n: nat)
    ensures
        nat_digits(n).len() >= 1,
    decreases n,
{
    if n >= 10 {
        lemma_digits_nonempty(n / 10);
    }
}

/// The characters Rust's `Debug` writes for `n as f64`, a whole number.
pub fn float_debug_chars(n: i64) -> (r: Vec<char>)
    ensures
        r@ == float_debug_text(n as int),
{
    let mut out: Vec<char> = Vec::new();
    let neg = n < 0;
    let a: u128 = if neg { ((0 - (n + 1)) as u128) + 1 } else { n as u128 };
    let v = round_magnitude(a);
    let s = shown_magnitude(v);
    proof {
        if neg {
            assert(a as int == -(n as int));
            lemma_spacing_positive(a as nat);
            lemma_shown_positive(v as nat);
        }
    }
    if s >= 10_000_000_000_000_000 {
        if neg {
            out.push('-');
        }
        exp_chars(s, &mut out);
    } else {
        if neg {
            out.push('-');
        }
        push_digits(s, &mut out);
        out.push('.');
        out.push('0');
    }
    proof {
        assert(out@ =~= float_debug_text(n as int));
    }
    out
}

/// The shortest digits of a positive float are positive.
proof fn lemma_shown_positive(v: nat)
    requires
        v >= 1,
    ensures
        float_shown_mag(v) >= 1,
{
    let u = float_spacing(v);
    lemma_spacing_positive(v);
    let m = v / u;
    let lo4 = if u >= 2 && m == 0x10_0000_0000_0000 { u } else { 2 * u };
    lemma_shortest_positive(v, lo4, 2 * u, m % 2 == 0, DIGITS_TOP as nat, u);
}

/// The digit search never lands on zero for a magnitude that lies
/// farther from zero than the interval reaches.
proof fn lemma_shortest_positive(v: nat, lo4: nat, hi4: nat, even: bool, p: nat, u: nat)
    requires
        1 <= u <= v,
        lo4 <= 2 * u,
    ensures
        shortest_digits(v, lo4, hi4, even, p) >= 1,
    decreases p,
{
    if p > 1 {
        let rem = v % p;
        vstd::arithmetic::div_mod::lemma_mod_pos_bound(v as int, p as int);
        vstd::arithmetic::div_mod::lemma_fundamental_div_mod(v as int, p as int);
        lemma_shortest_positive(v, lo4, hi4, even, p / 10, u);
        let down = if even { 4 * rem <= lo4 } else { 4 * rem < lo4 };
        if down && v - rem == 0 {
            assert(rem == v);
            assert(4 * v <= 2 * u);
        }
    }
}

/// The spacing of floats around a positive magnitude lies between one
/// and the magnitude, so rounding it leaves it positive.
proof fn lemma_spacing_positive(a: nat)
    requires
        a >= 1,
    ensures
        1 <= float_spacing(a) <= a,
        round_to_multiple(a, float_spacing(a)) >= 1,
    decreases a,
{
    if a >= 0x20_0000_0000_0000 {
        lemma_spacing_positive(a / 2);
    }
    let u = float_spacing(a);
    vstd::arithmetic::div_mod::lemma_fundamental_div_mod(a as int, u as int);
    vstd::arithmetic::div_mod::lemma_mod_pos_bound(a as int, u as int);
    let q = a / u;
    let ai = a as int;
    let ui = u as int;
    assert(ai / ui >= 1) by (nonlinear_arith)
        requires
            ai == ui * (ai / ui) + ai % ui,
            0 <= ai % ui < ui,
            ui <= ai,
            ai / ui >= 0,
    ;
    assert(q >= 1);
    assert(q * u >= 1) by (nonlinear_arith) requires q >= 1, u >= 1;
    assert((q + 1) * u >= 1) by (nonlinear_arith) requires q >= 1, u >= 1;
}

} // verus!
