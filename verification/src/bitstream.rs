//! The mathematical model of a packed bit stream.
//!
//! A sequence of fixed-width fields is read as one natural number, little-endian:
//! field `i` of width `w` contributes `field * 2^(w*i)`. Bytes are the same
//! thing with `w == 8`. The lemmas here relate that number to its digits; the
//! packing and unpacking code and its laws are stated over these functions.
use vstd::arithmetic::div_mod::*;
use vstd::arithmetic::mul::*;
use vstd::arithmetic::power2::*;
use vstd::prelude::*;

verus! {

/// Little-endian value of a sequence of `w`-bit digits: `d[0] + 2^w * d[1] + 2^(2w) * d[2] + ...`.
pub open spec fn radix_value(d: Seq<nat>, w: nat) -> nat
    decreases d.len(),
{
    if d.len() == 0 {
        0
    } else {
        d[0] + pow2(w) * radix_value(d.drop_first(), w)
    }
}

/// The `j`-th `w`-bit digit of `x`, counting from the least significant end.
pub open spec fn digit(x: nat, w: nat, j: int) -> nat {
    (x / pow2((w * j) as nat)) % pow2(w)
}

/// The first `m` digits of `x` in base `2^w`.
pub open spec fn digits_of(x: nat, w: nat, m: nat) -> Seq<nat> {
    Seq::new(m, |j: int| digit(x, w, j))
}

/// Every digit of `d` fits in `w` bits.
pub open spec fn digits_fit(d: Seq<nat>, w: nat) -> bool {
    forall|i: int| 0 <= i < d.len() ==> #[trigger] d[i] < pow2(w)
}

/// Bytes read as digits.
pub open spec fn byte_digits(s: Seq<u8>) -> Seq<nat> {
    s.map_values(|b: u8| b as nat)
}

/// Little-endian value of a byte sequence.
pub open spec fn bytes_value(s: Seq<u8>) -> nat {
    radix_value(byte_digits(s), 8)
}

/// The `n`-bit two's-complement code of `v`: `v mod 2^n`.
pub open spec fn code(v: int, n: nat) -> nat {
    (v % (pow2(n) as int)) as nat
}

/// The signed value of an `n`-bit two's-complement code.
pub open spec fn decode(c: nat, n: nat) -> int {
    if c >= pow2((n - 1) as nat) {
        c - pow2(n)
    } else {
        c as int
    }
}

/// `v` fits in `n`-bit two's complement.
pub open spec fn fits_signed(v: int, n: nat) -> bool {
    -(pow2((n - 1) as nat) as int) <= v < pow2((n - 1) as nat)
}

/// Decoding an encoded representable value gives it back.
pub proof fn lemma_decode_code(v: int, n: nat)
    requires
        n >= 1,
        fits_signed(v, n),
    ensures
        code(v, n) < pow2(n),
        v >= 0 ==> code(v, n) == v,
        v < 0 ==> code(v, n) == v + pow2(n),
        decode(code(v, n), n) == v,
{
    lemma_pow2_unfold(n);
    lemma_pow2_pos(n);
    let p = pow2(n) as int;
    if v >= 0 {
        lemma_small_mod(v as nat, p as nat);
    } else {
        lemma_fundamental_div_mod_converse(v, p, -1, v + p);
    }
}

/// Every code is below `2^n`.
pub proof fn lemma_code_bound(v: int, n: nat)
    ensures
        code(v, n) < pow2(n),
{
    lemma_pow2_pos(n);
}

pub proof fn lemma_pow2_small()
    ensures
        pow2(0) == 1,
        pow2(1) == 2,
        pow2(2) == 4,
        pow2(3) == 8,
        pow2(4) == 16,
        pow2(7) == 128,
        pow2(8) == 256,
        pow2(16) == 0x10000,
{
    lemma2_to64();
}

/// Dividing by `2^w` drops the lowest digit; the remainder is that digit.
pub proof fn lemma_radix_first(d: Seq<nat>, w: nat)
    requires
        d.len() > 0,
        d[0] < pow2(w),
    ensures
        radix_value(d, w) / pow2(w) == radix_value(d.drop_first(), w),
        radix_value(d, w) % pow2(w) == d[0],
{
    lemma_pow2_pos(w);
    let rt = radix_value(d.drop_first(), w);
    assert(radix_value(d, w) == rt * pow2(w) + d[0]) by (nonlinear_arith)
        requires
            radix_value(d, w) == d[0] + pow2(w) * rt,
    ;
    lemma_fundamental_div_mod_converse(
        radix_value(d, w) as int,
        pow2(w) as int,
        radix_value(d.drop_first(), w) as int,
        d[0] as int,
    );
}

/// Appending a digit adds it at weight `2^(w * len)`.
pub proof fn lemma_radix_push(d: Seq<nat>, x: nat, w: nat)
    ensures
        radix_value(d.push(x), w) == radix_value(d, w) + x * pow2(w * d.len()),
    decreases d.len(),
{
    if d.len() == 0 {
        lemma_pow2_small();
        assert(d.push(x).drop_first() =~= Seq::<nat>::empty());
        assert(radix_value(Seq::<nat>::empty(), w) == 0);
        assert(w * d.len() == 0);
        assert(radix_value(d.push(x), w) == x);
        let z: nat = w * d.len();
        assert(z == 0);
        assert(pow2(z) == 1);
        assert(x * pow2(w * d.len()) == x) by (nonlinear_arith)
            requires
                pow2(w * d.len()) == 1,
        ;
    } else {
        let t = d.drop_first();
        assert(d.push(x).drop_first() =~= t.push(x));
        lemma_radix_push(t, x, w);
        let pw = pow2(w);
        let pt = pow2(w * t.len());
        assert(w + w * t.len() == w * d.len()) by (nonlinear_arith)
            requires
                t.len() + 1 == d.len(),
        ;
        lemma_pow2_adds(w, w * t.len());
        let rt = radix_value(t, w);
        assert(d.push(x)[0] == d[0]);
        assert(radix_value(d.push(x), w) == d[0] + pw * radix_value(t.push(x), w));
        assert(radix_value(d, w) == d[0] + pw * rt);
        assert(radix_value(t.push(x), w) == rt + x * pt);
        assert(pow2(w * d.len()) == pw * pt);
        assert(pw * (rt + x * pt) == pw * rt + x * (pw * pt)) by (nonlinear_arith);
        assert(x * pow2(w * d.len()) == x * (pw * pt));
        assert(radix_value(d.push(x), w) == radix_value(d, w) + x * pow2(w * d.len()));
    }
}

/// A sequence of `w`-bit digits has a value below `2^(w * len)`.
pub proof fn lemma_radix_bound(d: Seq<nat>, w: nat)
    requires
        digits_fit(d, w),
    ensures
        radix_value(d, w) < pow2(w * d.len()),
    decreases d.len(),
{
    if d.len() == 0 {
        lemma_pow2_small();
        assert(w * d.len() == 0);
    } else {
        let t = d.drop_first();
        assert(digits_fit(t, w)) by {
            assert forall|i: int| 0 <= i < t.len() implies #[trigger] t[i] < pow2(w) by {
                assert(t[i] == d[i + 1]);
            }
        }
        lemma_radix_bound(t, w);
        let pw = pow2(w);
        let pt = pow2(w * t.len());
        let rt = radix_value(t, w);
        assert(w + w * t.len() == w * d.len()) by (nonlinear_arith)
            requires
                t.len() + 1 == d.len(),
        ;
        lemma_pow2_adds(w, w * t.len());
        assert(d[0] < pw);
        assert(d[0] + pw * rt < pw * pt) by (nonlinear_arith)
            requires
                d[0] < pw,
                rt < pt,
                pw > 0,
        ;
    }
}

/// Dividing by `2^(w*i)` is dividing by `2^w` and then by `2^(w*(i-1))`.
pub proof fn lemma_div_pow2_step(x: nat, w: nat, i: int)
    requires
        i > 0,
    ensures
        x / pow2((w * i) as nat) == (x / pow2(w)) / pow2((w * (i - 1)) as nat),
{
    assert(w * i == w + w * (i - 1)) by (nonlinear_arith);
    assert(w * (i - 1) >= 0) by (nonlinear_arith)
        requires
            i > 0,
    ;
    lemma_pow2_adds(w, (w * (i - 1)) as nat);
    lemma_pow2_pos(w);
    lemma_pow2_pos((w * (i - 1)) as nat);
    lemma_div_denominator(x as int, pow2(w) as int, pow2((w * (i - 1)) as nat) as int);
}

/// Digit `i` of a radix value is the `i`-th digit of the sequence.
pub proof fn lemma_radix_digit(d: Seq<nat>, w: nat, i: int)
    requires
        digits_fit(d, w),
        0 <= i < d.len(),
    ensures
        digit(radix_value(d, w), w, i) == d[i],
    decreases i,
{
    lemma_radix_first(d, w);
    if i == 0 {
        lemma_pow2_small();
        assert(w * i == 0) by (nonlinear_arith)
            requires
                i == 0,
        ;
        assert(radix_value(d, w) / 1 == radix_value(d, w));
    } else {
        let t = d.drop_first();
        assert(digits_fit(t, w)) by {
            assert forall|k: int| 0 <= k < t.len() implies #[trigger] t[k] < pow2(w) by {
                assert(t[k] == d[k + 1]);
            }
        }
        lemma_radix_digit(t, w, i - 1);
        lemma_div_pow2_step(radix_value(d, w), w, i);
        assert(radix_value(d, w) / pow2((w * i) as nat) == radix_value(t, w) / pow2(
            (w * (i - 1)) as nat,
        ));
        assert(digit(radix_value(t, w), w, i - 1) == t[i - 1]);
        assert(t[i - 1] == d[i]);
    }
}

/// Digits beyond the length of a digit sequence are zero.
pub proof fn lemma_radix_digit_beyond(d: Seq<nat>, w: nat, i: int)
    requires
        digits_fit(d, w),
        i >= d.len(),
    ensures
        digit(radix_value(d, w), w, i) == 0,
{
    lemma_radix_bound(d, w);
    assert(w * i >= w * d.len()) by (nonlinear_arith)
        requires
            i >= d.len(),
    ;
    let e = (w * i) as nat;
    let e0 = w * d.len();
    if e0 < e {
        lemma_pow2_strictly_increases(e0, e);
    }
    lemma_pow2_pos(e);
    lemma_pow2_pos(w);
    assert(radix_value(d, w) < pow2(e));
    lemma_basic_div(radix_value(d, w) as int, pow2(e) as int);
    assert(radix_value(d, w) / pow2(e) == 0);
    lemma_small_mod(0, pow2(w));
}

/// Adding a multiple of `2^m` leaves every digit that lies wholly below bit `m` unchanged.
pub proof fn lemma_digit_stable(x: nat, k: nat, m: nat, w: nat, j: int)
    requires
        0 <= j,
        w * j + w <= m,
    ensures
        digit(x + k * pow2(m), w, j) == digit(x, w, j),
{
    let lo = (w * j) as nat;
    let rest = (m - lo - w) as nat;
    assert(m == lo + (w + rest));
    lemma_pow2_adds(lo, (w + rest) as nat);
    lemma_pow2_adds(w, rest);
    lemma_pow2_pos(lo);
    lemma_pow2_pos(w);
    let pl = pow2(lo);
    let pw = pow2(w);
    let pr = pow2(rest);
    assert(k * pow2(m) == (k * pw * pr) * pl) by (nonlinear_arith)
        requires
            pow2(m) == pl * (pw * pr),
    ;
    lemma_hoist_over_denominator(x as int, (k * pw * pr) as int, pl);
    let y = x / pl;
    assert((x + k * pow2(m)) as int / pl as int == y + k * pw * pr);
    assert(y + k * pw * pr == pw * (k * pr) + y) by (nonlinear_arith);
    lemma_mod_multiples_vanish((k * pr) as int, y as int, pw as int);
}

/// The value of the first `m` base-`2^w` digits of `x` is `x mod 2^(w*m)`.
pub proof fn lemma_radix_digits_of(x: nat, w: nat, m: nat)
    ensures
        radix_value(digits_of(x, w, m), w) == x % pow2(w * m),
    decreases m,
{
    lemma_pow2_pos(w);
    if m == 0 {
        lemma_pow2_small();
        assert(w * m == 0);
        assert(x % 1 == 0);
    } else {
        let d = digits_of(x, w, m);
        let y = x / pow2(w);
        let t = digits_of(y, w, (m - 1) as nat);
        assert forall|j: int| 0 <= j < t.len() implies d.drop_first()[j] == #[trigger] t[j] by {
            lemma_div_pow2_step(x, w, j + 1);
        }
        assert(d.drop_first() =~= t);
        lemma_radix_digits_of(y, w, (m - 1) as nat);
        lemma_pow2_small();
        assert(w * 0 == 0);
        assert(d[0] == x % pow2(w));
        let pm = pow2((w * (m - 1)) as nat);
        lemma_pow2_pos((w * (m - 1)) as nat);
        assert(w * m == w + w * (m - 1)) by (nonlinear_arith);
        lemma_pow2_adds(w, (w * (m - 1)) as nat);
        lemma_breakdown(x as int, pow2(w) as int, pm as int);
    }
}

/// A digit sequence splits into its first `m` digits and the rest, weighted by `2^(w*m)`.
pub proof fn lemma_radix_split(d: Seq<nat>, w: nat, m: int)
    requires
        0 <= m <= d.len(),
    ensures
        radix_value(d, w) == radix_value(d.take(m), w) + pow2((w * m) as nat) * radix_value(
            d.skip(m),
            w,
        ),
    decreases m,
{
    if m == 0 {
        lemma_pow2_small();
        assert(d.take(0) =~= Seq::<nat>::empty());
        assert(d.skip(0) =~= d);
        assert(w * m == 0);
        let r = radix_value(d.skip(m), w);
        assert(pow2((w * m) as nat) * r == r) by (nonlinear_arith)
            requires
                pow2((w * m) as nat) == 1,
        ;
    } else {
        let t = d.drop_first();
        lemma_radix_split(t, w, m - 1);
        assert(t.skip(m - 1) =~= d.skip(m));
        assert(d.take(m).drop_first() =~= t.take(m - 1));
        assert(d.take(m)[0] == d[0]);
        let pw = pow2(w);
        let pm = pow2((w * (m - 1)) as nat);
        assert(w * m == w + w * (m - 1)) by (nonlinear_arith);
        assert(w * (m - 1) >= 0) by (nonlinear_arith)
            requires
                m >= 1,
        ;
        lemma_pow2_adds(w, (w * (m - 1)) as nat);
        let a = radix_value(t.take(m - 1), w);
        let b = radix_value(d.skip(m), w);
        assert(pw * (a + pm * b) == pw * a + (pw * pm) * b) by (nonlinear_arith);
        assert(radix_value(d.take(m), w) == d[0] + pw * a);
        assert(radix_value(d, w) == d[0] + pw * radix_value(t, w));
        assert(pow2((w * m) as nat) == pw * pm);
    }
}

/// The value of the first `m` digits is the value of all of them modulo `2^(w*m)`.
pub proof fn lemma_radix_mod_take(d: Seq<nat>, w: nat, m: int)
    requires
        digits_fit(d, w),
        0 <= m <= d.len(),
    ensures
        radix_value(d, w) % pow2((w * m) as nat) == radix_value(d.take(m), w),
{
    lemma_radix_split(d, w, m);
    let t = d.take(m);
    assert(digits_fit(t, w)) by {
        assert forall|k: int| 0 <= k < t.len() implies #[trigger] t[k] < pow2(w) by {
            assert(t[k] == d[k]);
        }
    }
    lemma_radix_bound(t, w);
    assert(w * t.len() == w * m);
    lemma_pow2_pos((w * m) as nat);
    lemma_mod_multiples_vanish(
        radix_value(d.skip(m), w) as int,
        radix_value(t, w) as int,
        pow2((w * m) as nat) as int,
    );
    lemma_small_mod(radix_value(t, w), pow2((w * m) as nat));
}

/// Reading `8` more bits of a field: the new top byte is digit `(off + a) / 8` of `x`.
pub proof fn lemma_field_grow(x: nat, off: nat, a: nat)
    ensures
        (x / pow2(off)) % pow2(a + 8) == (x / pow2(off)) % pow2(a) + ((x / pow2(off + a)) % 256)
            * pow2(a),
{
    lemma_pow2_pos(off);
    lemma_pow2_pos(a);
    lemma_pow2_small();
    lemma_pow2_adds(a, 8);
    lemma_pow2_adds(off, a);
    let xo = x / pow2(off);
    lemma_breakdown(xo as int, pow2(a) as int, 256);
    lemma_div_denominator(x as int, pow2(off) as int, pow2(a) as int);
    assert(pow2(a) * ((xo / pow2(a)) % 256) == ((xo / pow2(a)) % 256) * pow2(a)) by (nonlinear_arith);
}

/// Taking the low `n` bits of a field of width `a >= n`, and the remaining high part.
pub proof fn lemma_field_split(y: nat, n: nat, a: nat)
    requires
        n <= a,
    ensures
        (y % pow2(a)) % pow2(n) == y % pow2(n),
        (y % pow2(a)) / pow2(n) == (y / pow2(n)) % pow2((a - n) as nat),
{
    let r = (a - n) as nat;
    lemma_pow2_adds(n, r);
    lemma_pow2_pos(n);
    lemma_pow2_pos(r);
    assert(a == n + r);
    lemma_mod_mod(y as int, pow2(n) as int, pow2(r) as int);
    lemma_breakdown(y as int, pow2(n) as int, pow2(r) as int);
    let q = (y / pow2(n)) % pow2(r);
    let rem = y % pow2(n);
    assert(pow2(n) * q == q * pow2(n)) by (nonlinear_arith);
    lemma_fundamental_div_mod_converse(
        (y % pow2(a)) as int,
        pow2(n) as int,
        q as int,
        rem as int,
    );
}

/// `x % 2^m` agrees with `x` on every field that ends at or below bit `m`.
pub proof fn lemma_field_of_mod(x: nat, m: nat, off: nat, n: nat)
    requires
        off + n <= m,
    ensures
        ((x % pow2(m)) / pow2(off)) % pow2(n) == (x / pow2(off)) % pow2(n),
{
    let r = (m - off - n) as nat;
    lemma_pow2_adds(off, (n + r) as nat);
    lemma_pow2_adds(n, r);
    lemma_pow2_pos(off);
    lemma_pow2_pos(n);
    lemma_pow2_pos(r);
    assert(m == off + (n + r));
    // x % 2^m == x % (2^off * 2^(n + r)); its quotient by 2^off is (x / 2^off) % 2^(n + r).
    lemma_field_split(x, off, m);
    assert((x % pow2(m)) / pow2(off) == (x / pow2(off)) % pow2((n + r) as nat));
    lemma_mod_mod((x / pow2(off)) as int, pow2(n) as int, pow2(r) as int);
}

} // verus!
