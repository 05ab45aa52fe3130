//! The golden-ratio closed form for large-index tribonacci values: the
//! root constants, a chunked fixed-precision power routine, and the
//! rounding conversion to a natural number.  Decimal values are held in
//! `bigdecimal::BigDecimal`; the logic reads them only through trusted
//! wrappers whose contracts speak of the canonical pair a value holds.

use vstd::prelude::*;
use bigdecimal::Zero;
use num_bigint::ToBigInt;

verus! {

use vstd::arithmetic::power::pow;
use vstd::arithmetic::div_mod::lemma_fundamental_div_mod;
use crate::bigint::{big_from_u64, big_nat, big_nats_of, generate_trib_exact_big_int};
use crate::rng::random_u128;
use crate::trib::trib_window;

/// How many significant decimal digits are kept when a value is
/// re-normalized.
pub const PRECISION_DECIMALS: u64 = 100;

/// How many chunks the power routine splits an exponent into.
pub const NUM_CHUNKS: u64 = 10;

/// Whether large-index windows use the golden-ratio closed form instead
/// of the exact recurrence.
pub const USE_GOLDEN_RATIO: bool = true;

#[verifier::external_type_specification]
#[verifier::external_body]
pub struct ExBigDecimal(bigdecimal::BigDecimal);

/// The signed integer digits of the value a `BigDecimal` holds, written
/// in the canonical form of that value: the value is
/// `bd_num(d) * 10^(-bd_scale(d))`, where `bd_num(d)` carries no factor
/// of ten (and a zero value has both parts zero).  Two decimals holding
/// the same value have the same canonical parts, whatever their stored
/// representation.
pub uninterp spec fn bd_num(d: bigdecimal::BigDecimal) -> int;

/// The canonical power-of-ten scale of the value a `BigDecimal` holds;
/// see `bd_num`.
pub uninterp spec fn bd_scale(d: bigdecimal::BigDecimal) -> int;

/// The canonical pair of a decimal value given as integer digits `u`
/// scaled by `10^(-s)`: factors of ten move from the digits into the
/// scale, and a zero value is `(0, 0)`.
pub open spec fn canon_pair(u: int, s: int) -> (int, int)
    decreases
            (if u < 0 {
                -u
            } else {
                u
            }),
{
    if u == 0 {
        (0, 0)
    } else if u % 10 == 0 {
        canon_pair(u / 10, s - 1)
    } else {
        (u, s)
    }
}

/// The canonical pair map leaves its own output fixed.
pub proof fn lemma_canon_pair_idempotent(u: int, s: int)
    ensures
        canon_pair(canon_pair(u, s).0, canon_pair(u, s).1) == canon_pair(u, s),
    decreases
            (if u < 0 {
                -u
            } else {
                u
            }),
{
    if u == 0 {
    } else if u % 10 == 0 {
        lemma_canon_pair_idempotent(u / 10, s - 1);
    }
}

/// The result of a renormalized power chain is a canonical pair.
pub proof fn lemma_pow_prec_canonical(b: (int, int), e: nat, prec: nat)
    ensures
        canon_pair(pow_prec(b, e, prec).0, pow_prec(b, e, prec).1) == pow_prec(b, e, prec),
{
    if e == 0 {
    } else {
        let acc = pow_prec(b, (e - 1) as nat, prec);
        let w = with_prec_val(acc.0, acc.1, prec);
        lemma_canon_pair_idempotent(w.0 * b.0, w.1 + b.1);
    }
}

/// Ten to the given power.
pub open spec fn pow10(e: nat) -> int {
    pow(10, e)
}

/// The magnitude of a signed integer.
pub open spec fn mag(u: int) -> nat {
    if u < 0 {
        (-u) as nat
    } else {
        u as nat
    }
}

/// How many decimal digits a natural number takes.
pub open spec fn dc_nat(n: nat) -> nat
    decreases n,
{
    if n < 10 {
        1
    } else {
        1 + dc_nat(n / 10)
    }
}

/// How many decimal digits the integer part of a value takes.
pub open spec fn digit_count(u: int) -> nat {
    dc_nat(mag(u))
}

proof fn lemma_dc_nat_bound(n: nat)
    ensures
        n < pow10(dc_nat(n)),
        dc_nat(n) >= 1,
    decreases n,
{
    reveal(pow);
    if n < 10 {
        assert(pow10(1) == 10 * pow10(0));
    } else {
        lemma_dc_nat_bound(n / 10);
        assert(pow10(dc_nat(n)) == 10 * pow10(dc_nat(n / 10)));
        assert(n == 10 * (n / 10) + n % 10) by {
            lemma_fundamental_div_mod(n as int, 10);
        }
    }
}

proof fn lemma_dc_nat_le(n: nat, d: nat)
    requires
        n < pow10(d),
        d >= 1,
    ensures
        dc_nat(n) <= d,
    decreases d,
{
    reveal(pow);
    if n < 10 {
    } else {
        assert(pow10(d) == 10 * pow10((d - 1) as nat));
        vstd::arithmetic::power::lemma_pow_positive(10, (d - 1) as nat);
        assert(d >= 2) by {
            if d == 1 {
                assert(pow10(1) == 10 * pow10(0));
            }
        }
        assert(n / 10 < pow10((d - 1) as nat)) by {
            assert(n == 10 * (n / 10) + n % 10) by {
                lemma_fundamental_div_mod(n as int, 10);
            }
        }
        lemma_dc_nat_le(n / 10, (d - 1) as nat);
    }
}

/// A product takes at most as many digits as its factors together.
proof fn lemma_digit_count_mul(a: int, b: int)
    ensures
        digit_count(a * b) <= digit_count(a) + digit_count(b),
{
    let ma = mag(a);
    let mb = mag(b);
    let p = a * b;
    if a >= 0 && b >= 0 {
        assert(p >= 0 && p == ma * mb) by (nonlinear_arith)
            requires
                a >= 0 && b >= 0 && ma == a && mb == b && p == a * b,
        {
        }
    } else if a < 0 && b < 0 {
        assert(p >= 0 && p == ma * mb) by (nonlinear_arith)
            requires
                a < 0 && b < 0 && ma == -a && mb == -b && p == a * b,
        {
        }
    } else if a < 0 {
        assert(p <= 0 && -p == ma * mb) by (nonlinear_arith)
            requires
                a < 0 && b >= 0 && ma == -a && mb == b && p == a * b,
        {
        }
    } else {
        assert(p <= 0 && -p == ma * mb) by (nonlinear_arith)
            requires
                a >= 0 && b < 0 && ma == a && mb == -b && p == a * b,
        {
        }
    }
    assert(mag(p) == ma * mb);
    lemma_dc_nat_bound(ma);
    lemma_dc_nat_bound(mb);
    let da = dc_nat(ma);
    let db = dc_nat(mb);
    assert(ma * mb < pow10(da) * pow10(db)) by (nonlinear_arith)
        requires
            ma < pow10(da),
            mb < pow10(db),
            pow10(da) >= 1,
            pow10(db) >= 1,
            ma >= 0,
            mb >= 0,
    {
    }
    assert(pow10(da) * pow10(db) == pow10(da + db)) by {
        vstd::arithmetic::power::lemma_pow_adds(10, da, db);
    }
    lemma_dc_nat_le(ma * mb, da + db);
}

/// The canonical form never takes more digits than what it came from.
proof fn lemma_canon_digit_count(u: int, s: int)
    ensures
        digit_count(canon_pair(u, s).0) <= digit_count(u),
    decreases mag(u),
{
    if u == 0 {
    } else if u % 10 == 0 {
        assert(u == 10 * (u / 10)) by {
            lemma_fundamental_div_mod(u, 10);
        }
        assert(mag(u / 10) == mag(u) / 10) by (nonlinear_arith)
            requires
                u == 10 * (u / 10),
                u != 0,
        {
        }
        assert(mag(u) >= 10) by (nonlinear_arith)
            requires
                u == 10 * (u / 10),
                u != 0,
        {
        }
        assert(dc_nat(mag(u)) == 1 + dc_nat(mag(u) / 10));
        lemma_canon_digit_count(u / 10, s - 1);
    }
}

/// Multiplying by a canonical form is the same as multiplying by what it
/// came from: the factors of ten only move between digits and scale.
proof fn lemma_canon_mul_compose(x: int, y: int, z: int, w: int)
    ensures
        canon_pair(canon_pair(x, y).0 * z, canon_pair(x, y).1 + w) == canon_pair(x * z, y + w),
    decreases mag(x),
{
    if x == 0 {
        assert(canon_pair(x, y) == (0int, 0int));
        assert(0int * z == 0);
        assert(x * z == 0);
    } else if x % 10 == 0 {
        assert(x == 10 * (x / 10)) by {
            lemma_fundamental_div_mod(x, 10);
        }
        assert(mag(x / 10) < mag(x)) by (nonlinear_arith)
            requires
                x == 10 * (x / 10),
                x != 0,
        {
        }
        lemma_canon_mul_compose(x / 10, y - 1, z, w);
        assert(x * z == 10 * ((x / 10) * z)) by (nonlinear_arith)
            requires
                x == 10 * (x / 10),
        {
        }
        if (x / 10) * z == 0 {
            assert(x * z == 0);
            assert(canon_pair((x / 10) * z, y - 1 + w) == (0int, 0int));
        } else {
            assert(x * z != 0);
            assert((x * z) % 10 == 0 && (x * z) / 10 == (x / 10) * z) by {
                vstd::arithmetic::div_mod::lemma_fundamental_div_mod_converse(
                    x * z,
                    10,
                    (x / 10) * z,
                    0,
                );
            }
            assert(canon_pair(x * z, y + w) == canon_pair((x / 10) * z, y + w - 1));
        }
    }
}

/// The canonical pair of the sum of two decimal values, from their
/// canonical pairs: the digits are aligned to the larger scale and added.
pub open spec fn dec_add_val(u1: int, s1: int, u2: int, s2: int) -> (int, int) {
    if s1 >= s2 {
        canon_pair(u1 + u2 * pow10((s1 - s2) as nat), s1)
    } else {
        canon_pair(u1 * pow10((s2 - s1) as nat) + u2, s2)
    }
}

/// The canonical pair of the difference of two decimal values.
pub open spec fn dec_sub_val(u1: int, s1: int, u2: int, s2: int) -> (int, int) {
    dec_add_val(u1, s1, -u2, s2)
}

/// The canonical pair of the product of two decimal values: digits
/// multiply and scales add.
pub open spec fn dec_mul_val(u1: int, s1: int, u2: int, s2: int) -> (int, int) {
    canon_pair(u1 * u2, s1 + s2)
}

/// The canonical pair of a decimal value re-normalized to `prec`
/// significant digits: digits beyond the precision are rounded away.
/// What the rounding returns on given digits is fixed by the crate; no
/// short statement gives it, so the result only bears this name.
pub uninterp spec fn with_prec_val(u: int, s: int, prec: nat) -> (int, int);

/// A power takes at most as many digits as its base's digits times the
/// exponent.
#[verifier::spinoff_prover]
proof fn lemma_dc_pow(b0: int, k: nat)
    requires
        k >= 1,
    ensures
        digit_count(pow(b0, k)) <= k * digit_count(b0),
    decreases k,
{
    reveal(pow);
    if k == 1 {
        assert(pow(b0, 1) == b0 * pow(b0, 0));
        assert(pow(b0, 0) == 1);
        assert(b0 * 1 == b0);
        assert(1 * digit_count(b0) == digit_count(b0)) by (nonlinear_arith);
    } else {
        lemma_dc_pow(b0, (k - 1) as nat);
        assert(pow(b0, k) == b0 * pow(b0, (k - 1) as nat));
        lemma_digit_count_mul(b0, pow(b0, (k - 1) as nat));
        assert(digit_count(b0) + (k - 1) * digit_count(b0) == k * digit_count(b0))
            by (nonlinear_arith);
    }
}

/// How many of the exponent's multiplications the first `j` chunks hold.
pub open spec fn sum_lens(e: nat, c: nat, j: nat) -> nat {
    if j == c {
        e
    } else {
        j * (e / c)
    }
}

proof fn lemma_sum_lens_step(e: nat, c: nat, j: nat)
    requires
        c >= 1,
        j < c,
    ensures
        sum_lens(e, c, (j + 1) as nat) == sum_lens(e, c, j) + chunk_len(e, c, j as int),
{
    let q = e / c;
    lemma_fundamental_div_mod(e as int, c as int);
    if j + 1 < c {
        assert((j + 1) * q == j * q + q) by (nonlinear_arith);
    } else {
        assert(c * q == (c - 1) * q + q) by (nonlinear_arith);
        assert(e == c * q + e % c);
    }
}

proof fn lemma_sum_lens_le(e: nat, c: nat, j: nat)
    requires
        c >= 1,
        j <= c,
    ensures
        sum_lens(e, c, j) <= e,
{
    if j < c {
        let q: int = e as int / c as int;
        assert(j * q <= c * q) by (nonlinear_arith)
            requires
                j <= c,
                q >= 0,
        {
        }
        lemma_fundamental_div_mod(e as int, c as int);
    }
}

proof fn lemma_chunk_len_le(e: nat, c: nat, i: int)
    requires
        c >= 1,
        0 <= i < c,
    ensures
        chunk_len(e, c, i) <= e,
{
    let q: int = e as int / c as int;
    let r: int = e as int % c as int;
    lemma_fundamental_div_mod(e as int, c as int);
    assert(q + r <= e && q <= e) by (nonlinear_arith)
        requires
            e as int == c as int * q + r,
            c >= 1,
            q >= 0,
            r >= 0,
    {
    }
}

/// Relies on `BigDecimal::from::<u64>`: the value held is the machine
/// word given, at scale zero.
#[verifier::external_body]
fn bd_from_u64(x: u64) -> (r: bigdecimal::BigDecimal)
    ensures
        (bd_num(r), bd_scale(r)) == canon_pair(x as int, 0),
{
    bigdecimal::BigDecimal::from(x)
}

/// Relies on `Add for &BigDecimal`: the values held add.
#[verifier::external_body]
fn bd_add(a: &bigdecimal::BigDecimal, b: &bigdecimal::BigDecimal) -> (r: bigdecimal::BigDecimal)
    ensures
        (bd_num(r), bd_scale(r)) == dec_add_val(bd_num(*a), bd_scale(*a), bd_num(*b), bd_scale(*b)),
{
    a + b
}

/// Relies on `Sub for &BigDecimal`: the values held subtract.
#[verifier::external_body]
fn bd_sub(a: &bigdecimal::BigDecimal, b: &bigdecimal::BigDecimal) -> (r: bigdecimal::BigDecimal)
    ensures
        (bd_num(r), bd_scale(r)) == dec_sub_val(bd_num(*a), bd_scale(*a), bd_num(*b), bd_scale(*b)),
{
    a - b
}

/// Relies on `Mul for &BigDecimal`: the values held multiply exactly,
/// digits by digits with scales added.
#[verifier::external_body]
fn bd_mul(a: &bigdecimal::BigDecimal, b: &bigdecimal::BigDecimal) -> (r: bigdecimal::BigDecimal)
    ensures
        (bd_num(r), bd_scale(r)) == dec_mul_val(bd_num(*a), bd_scale(*a), bd_num(*b), bd_scale(*b)),
{
    a * b
}

/// Relies on `BigDecimal::square`: the value held is squared exactly.
#[verifier::external_body]
fn bd_square(a: &bigdecimal::BigDecimal) -> (r: bigdecimal::BigDecimal)
    ensures
        (bd_num(r), bd_scale(r)) == dec_mul_val(bd_num(*a), bd_scale(*a), bd_num(*a), bd_scale(*a)),
{
    a.square()
}

/// Relies on `BigDecimal::with_prec`: the value held is re-normalized to
/// the given number of significant digits, a fixed rounding of the value.
/// A value whose digits already fit the precision is only padded, so its
/// value, and with it its canonical pair, is kept.
#[verifier::external_body]
fn bd_with_prec(a: &bigdecimal::BigDecimal, prec: u64) -> (r: bigdecimal::BigDecimal)
    requires
        prec >= 1,
    ensures
        (bd_num(r), bd_scale(r)) == with_prec_val(bd_num(*a), bd_scale(*a), prec as nat),
        digit_count(bd_num(*a)) <= prec ==> bd_num(r) == bd_num(*a) && bd_scale(r) == bd_scale(
            *a,
        ),
{
    a.with_prec(prec)
}

/// Relies on `BigDecimal::sqrt`: some square-root approximation is
/// returned exactly when the value held is not negative, and what is
/// returned is itself not negative.  Its digits depend on the crate's
/// build-time default context, so nothing more is stated of them.
#[verifier::external_body]
fn bd_sqrt(a: &bigdecimal::BigDecimal) -> (r: Option<bigdecimal::BigDecimal>)
    ensures
        r.is_some() <==> bd_num(*a) >= 0,
        r matches Some(v) ==> bd_num(v) >= 0,
{
    a.sqrt()
}

/// Relies on `BigDecimal::cbrt`: some cube-root approximation of the
/// value held.  Its digits depend on the crate's build-time default
/// context, so nothing is stated of them.
#[verifier::external_body]
fn bd_cbrt(a: &bigdecimal::BigDecimal) -> (r: bigdecimal::BigDecimal) {
    a.cbrt()
}

/// Relies on `Div for &BigDecimal`: some quotient approximation at the
/// crate's build-time default precision.  The divisor must not hold
/// zero, for the crate fails on division by zero; nothing is stated of
/// the digits returned.
#[verifier::external_body]
fn bd_div(a: &bigdecimal::BigDecimal, b: &bigdecimal::BigDecimal) -> (r: bigdecimal::BigDecimal)
    requires
        bd_num(*b) != 0,
{
    a / b
}

/// Relies on `BigDecimal::round` with zero round digits: the value held
/// is rounded to an integer, so the canonical scale of the result is not
/// positive; a value that is already an integer is kept as it is.
#[verifier::external_body]
fn bd_round0(a: &bigdecimal::BigDecimal) -> (r: bigdecimal::BigDecimal)
    ensures
        bd_scale(r) <= 0,
        bd_scale(*a) <= 0 ==> bd_num(r) == bd_num(*a) && bd_scale(r) == bd_scale(*a),
{
    a.round(0)
}

/// Relies on `BigDecimal::is_integer`: true exactly when the value held
/// has no fractional part, that is, when its canonical scale is not
/// positive.
#[verifier::external_body]
fn bd_is_integer(a: &bigdecimal::BigDecimal) -> (r: bool)
    ensures
        r == (bd_scale(*a) <= 0),
{
    a.is_integer()
}

/// Relies on `PartialOrd for BigDecimal` against zero: true exactly when
/// the value held is negative.
#[verifier::external_body]
fn bd_is_negative(a: &bigdecimal::BigDecimal) -> (r: bool)
    ensures
        r == (bd_num(*a) < 0),
{
    *a < bigdecimal::BigDecimal::from(0u32)
}

/// Relies on `Zero::is_zero for BigDecimal`: true exactly when the value
/// held is zero.
#[verifier::external_body]
fn bd_is_zero(a: &bigdecimal::BigDecimal) -> (r: bool)
    ensures
        r == (bd_num(*a) == 0),
{
    a.is_zero()
}

/// Relies on `ToBigInt for BigDecimal` and `BigUint::try_from`: for a
/// non-negative value with no fractional part, the natural number held.
#[verifier::external_body]
fn bd_to_biguint(a: &bigdecimal::BigDecimal) -> (r: num_bigint::BigUint)
    requires
        bd_num(*a) >= 0,
        bd_scale(*a) <= 0,
    ensures
        big_nat(r) == bd_num(*a) * pow10((-bd_scale(*a)) as nat),
{
    num_bigint::BigUint::try_from(a.to_bigint().unwrap()).unwrap()
}

/// One renormalizing multiplication step: the accumulator is first cut
/// back to the working precision, then multiplied exactly.
pub open spec fn pow_step(acc: (int, int), b: (int, int), prec: nat) -> (int, int) {
    let w = with_prec_val(acc.0, acc.1, prec);
    dec_mul_val(w.0, w.1, b.0, b.1)
}

/// The result of `e` renormalizing multiplications by `b`, from one.
pub open spec fn pow_prec(b: (int, int), e: nat, prec: nat) -> (int, int)
    decreases e,
{
    if e == 0 {
        (1, 0)
    } else {
        pow_step(pow_prec(b, (e - 1) as nat, prec), b, prec)
    }
}

/// The length of chunk `i` when an exponent `e` is cut into `c` equal
/// chunks, the last absorbing the remainder.
pub open spec fn chunk_len(e: nat, c: nat, i: int) -> nat {
    if i == c - 1 {
        e / c + e % c
    } else {
        e / c
    }
}

/// The renormalized product of the first `i` chunk results.
pub open spec fn chunked_pow(b: (int, int), e: nat, c: nat, prec: nat, i: nat) -> (int, int)
    decreases i,
{
    if i == 0 {
        (1, 0)
    } else {
        pow_step(
            chunked_pow(b, e, c, prec, (i - 1) as nat),
            pow_prec(b, chunk_len(e, c, i - 1), prec),
            prec,
        )
    }
}

/// One chunk's partial product: `count` renormalizing multiplications of
/// the base, re-normalized to the working precision before each
/// multiplication to bound digit growth.  While the digits of the whole
/// product fit the working precision, the renormalizations change
/// nothing and the chain is the exact power.
pub fn chunk_power(input: &bigdecimal::BigDecimal, count: u128) -> (r: bigdecimal::BigDecimal)
    ensures
        (bd_num(r), bd_scale(r)) == pow_prec(
            (bd_num(*input), bd_scale(*input)),
            count as nat,
            PRECISION_DECIMALS as nat,
        ),
        count * digit_count(bd_num(*input)) <= PRECISION_DECIMALS ==> (bd_num(r), bd_scale(r))
            == canon_pair(
            pow(bd_num(*input), count as nat),
            count * bd_scale(*input),
        ),
{
    let ghost b0: int = bd_num(*input);
    let ghost s0: int = bd_scale(*input);
    let ghost dcb: nat = digit_count(b0);
    let ghost prec: nat = PRECISION_DECIMALS as nat;
    let mut result = bd_from_u64(1);
    proof {
        reveal(pow);
        assert(pow(b0, 0) == 1);
        assert(canon_pair(1, 0) == (1int, 0int));
    }
    let mut k: u128 = 0;
    while k < count
        invariant
            k <= count,
            b0 == bd_num(*input),
            s0 == bd_scale(*input),
            dcb == digit_count(b0),
            prec == PRECISION_DECIMALS as nat,
            (bd_num(result), bd_scale(result)) == pow_prec(
                (bd_num(*input), bd_scale(*input)),
                k as nat,
                PRECISION_DECIMALS as nat,
            ),
            count * dcb <= prec ==> (bd_num(result), bd_scale(result)) == canon_pair(
                pow(b0, k as nat),
                k * s0,
            ),
        decreases count - k,
    {
        proof {
            if count * dcb <= prec {
                // The digits of the accumulator fit the precision, so the
                // renormalization about to happen keeps it unchanged.
                lemma_canon_digit_count(pow(b0, k as nat), k * s0);
                if k >= 1 {
                    lemma_dc_pow(b0, k as nat);
                    assert(k as nat * dcb <= count * dcb) by (nonlinear_arith)
                        requires
                            k as nat <= count as nat,
                            dcb >= 0,
                    {
                    }
                } else {
                    reveal(pow);
                    assert(pow(b0, 0) == 1);
                    assert(canon_pair(1, 0) == (1int, 0int));
                    assert(dc_nat(1) == 1);
                }
                assert(digit_count(bd_num(result)) <= prec);
            }
        }
        let cut = bd_with_prec(&result, PRECISION_DECIMALS);
        result = bd_mul(&cut, input);
        proof {
            if count * dcb <= prec {
                lemma_canon_mul_compose(pow(b0, k as nat), k * s0, b0, s0);
                assert(pow(b0, (k + 1) as nat) == b0 * pow(b0, k as nat)) by {
                    reveal(pow);
                }
                assert((k + 1) * s0 == k * s0 + s0) by (nonlinear_arith);
            }
        }
        k = k + 1;
    }
    result
}

/// The power function for a `BigDecimal` at fixed precision: the
/// exponent is cut into chunks, each chunk's partial product is computed
/// by renormalizing multiplication, and the partial results are folded
/// together the same way.  With a single chunk the fold is exactly the
/// plain renormalized power chain; and while the digits of the whole
/// power fit the working precision, every chunk count gives the same
/// result, the exact power.
#[verifier::rlimit(100)]
#[verifier::spinoff_prover]
pub fn power(input: &bigdecimal::BigDecimal, exponent: u128, num_chunks: u64) -> (r:
    bigdecimal::BigDecimal)
    requires
        num_chunks >= 1,
    ensures
        (bd_num(r), bd_scale(r)) == chunked_pow(
            (bd_num(*input), bd_scale(*input)),
            exponent as nat,
            num_chunks as nat,
            PRECISION_DECIMALS as nat,
            num_chunks as nat,
        ),
        num_chunks == 1 ==> (bd_num(r), bd_scale(r)) == pow_prec(
            (bd_num(*input), bd_scale(*input)),
            exponent as nat,
            PRECISION_DECIMALS as nat,
        ),
        exponent * digit_count(bd_num(*input)) <= PRECISION_DECIMALS ==> (bd_num(r), bd_scale(r))
            == canon_pair(
            pow(bd_num(*input), exponent as nat),
            exponent * bd_scale(*input),
        ),
{
    let ghost b0: int = bd_num(*input);
    let ghost s0: int = bd_scale(*input);
    let ghost dcb: nat = digit_count(b0);
    let ghost prec: nat = PRECISION_DECIMALS as nat;
    let ghost e: nat = exponent as nat;
    let ghost c: nat = num_chunks as nat;
    let chunk_size = exponent / (num_chunks as u128);
    let remainder = exponent % (num_chunks as u128);
    let mut partials: Vec<bigdecimal::BigDecimal> = Vec::new();
    let mut i: u64 = 0;
    while i < num_chunks
        invariant
            i <= num_chunks,
            num_chunks >= 1,
            b0 == bd_num(*input),
            s0 == bd_scale(*input),
            dcb == digit_count(b0),
            prec == PRECISION_DECIMALS as nat,
            e == exponent as nat,
            c == num_chunks as nat,
            chunk_size == exponent as int / num_chunks as int,
            remainder == exponent as int % num_chunks as int,
            partials@.len() == i,
            forall|j: int|
                0 <= j < i ==> (bd_num(#[trigger] partials@[j]), bd_scale(partials@[j]))
                    == pow_prec(
                    (bd_num(*input), bd_scale(*input)),
                    chunk_len(exponent as nat, num_chunks as nat, j),
                    PRECISION_DECIMALS as nat,
                ),
            e * dcb <= prec ==> forall|j: int|
                0 <= j < i ==> (bd_num(#[trigger] partials@[j]), bd_scale(partials@[j]))
                    == canon_pair(pow(b0, chunk_len(e, c, j)), chunk_len(e, c, j) * s0),
        decreases num_chunks - i,
    {
        let this_len: u128 = if i == num_chunks - 1 {
            proof {
                lemma_fundamental_div_mod(exponent as int, num_chunks as int);
                assert(chunk_size + remainder <= exponent) by (nonlinear_arith)
                    requires
                        exponent as int == num_chunks as int * chunk_size + remainder,
                        num_chunks >= 1,
                        chunk_size >= 0,
                        remainder >= 0,
                {
                }
            }
            chunk_size + remainder
        } else {
            chunk_size
        };
        let partial = chunk_power(input, this_len);
        proof {
            if e * dcb <= prec {
                // This chunk's share of the exponent is within the exact
                // regime of the whole power.
                lemma_chunk_len_le(e, c, i as int);
                assert(this_len as nat * dcb <= e * dcb) by (nonlinear_arith)
                    requires
                        this_len as nat <= e,
                        dcb >= 0,
                {
                }
            }
        }
        partials.push(partial);
        i = i + 1;
    }
    let mut result = bd_from_u64(1);
    proof {
        reveal(pow);
        assert(pow(b0, 0) == 1);
        assert(canon_pair(1, 0) == (1int, 0int));
        assert(sum_lens(e, c, 0) == 0) by (nonlinear_arith)
            requires
                c >= 1,
                sum_lens(e, c, 0) == if 0 == c { e } else { 0 * (e / c) },
        {
        }
    }
    let mut j: u64 = 0;
    while j < num_chunks
        invariant
            j <= num_chunks,
            num_chunks >= 1,
            b0 == bd_num(*input),
            s0 == bd_scale(*input),
            dcb == digit_count(b0),
            prec == PRECISION_DECIMALS as nat,
            e == exponent as nat,
            c == num_chunks as nat,
            j >= 1 ==> with_prec_val(1, 0, PRECISION_DECIMALS as nat) == (1int, 0int),
            partials@.len() == num_chunks,
            forall|t: int|
                0 <= t < num_chunks ==> (bd_num(#[trigger] partials@[t]), bd_scale(partials@[t]))
                    == pow_prec(
                    (bd_num(*input), bd_scale(*input)),
                    chunk_len(exponent as nat, num_chunks as nat, t),
                    PRECISION_DECIMALS as nat,
                ),
            e * dcb <= prec ==> forall|t: int|
                0 <= t < num_chunks ==> (bd_num(#[trigger] partials@[t]), bd_scale(partials@[t]))
                    == canon_pair(pow(b0, chunk_len(e, c, t)), chunk_len(e, c, t) * s0),
            (bd_num(result), bd_scale(result)) == chunked_pow(
                (bd_num(*input), bd_scale(*input)),
                exponent as nat,
                num_chunks as nat,
                PRECISION_DECIMALS as nat,
                j as nat,
            ),
            e * dcb <= prec ==> (bd_num(result), bd_scale(result)) == canon_pair(
                pow(b0, sum_lens(e, c, j as nat)),
                sum_lens(e, c, j as nat) * s0,
            ),
        decreases num_chunks - j,
    {
        let ghost sum: nat = sum_lens(e, c, j as nat);
        proof {
            if j == 0 {
                assert(chunked_pow(
                    (bd_num(*input), bd_scale(*input)),
                    exponent as nat,
                    num_chunks as nat,
                    PRECISION_DECIMALS as nat,
                    0,
                ) == (1int, 0int));
            }
            if e * dcb <= prec {
                // The digits of the partial fold so far fit the precision.
                lemma_sum_lens_le(e, c, j as nat);
                lemma_canon_digit_count(pow(b0, sum), sum * s0);
                if sum >= 1 {
                    lemma_dc_pow(b0, sum);
                    assert(sum * dcb <= e * dcb) by (nonlinear_arith)
                        requires
                            sum <= e,
                            dcb >= 0,
                    {
                    }
                } else {
                    reveal(pow);
                    assert(pow(b0, 0) == 1);
                    assert(canon_pair(1, 0) == (1int, 0int));
                    assert(dc_nat(1) == 1);
                }
                assert(digit_count(bd_num(result)) <= prec);
            }
        }
        let cut = bd_with_prec(&result, PRECISION_DECIMALS);
        result = bd_mul(&cut, &partials[j as usize]);
        proof {
            if e * dcb <= prec {
                let len: nat = chunk_len(e, c, j as int);
                // Fold in this chunk's exact power: the canonical wrappers
                // on both factors compose away, and the exponents add.
                lemma_canon_mul_compose(
                    pow(b0, sum),
                    sum * s0,
                    canon_pair(pow(b0, len), len * s0).0,
                    canon_pair(pow(b0, len), len * s0).1,
                );
                lemma_canon_mul_compose(pow(b0, len), len * s0, pow(b0, sum), sum * s0);
                assert(pow(b0, sum) * canon_pair(pow(b0, len), len * s0).0 == canon_pair(
                    pow(b0, len),
                    len * s0,
                ).0 * pow(b0, sum));
                assert(pow(b0, len) * pow(b0, sum) == pow(b0, (len + sum) as nat)) by {
                    vstd::arithmetic::power::lemma_pow_adds(b0, len, sum);
                }
                assert((len + sum) * s0 == len * s0 + sum * s0) by (nonlinear_arith);
                lemma_sum_lens_step(e, c, j as nat);
                assert(sum_lens(e, c, (j + 1) as nat) == sum + len);
            }
        }
        j = j + 1;
    }
    proof {
        if e * dcb <= prec {
            assert(sum_lens(e, c, c) == e);
        }
        if num_chunks == 1 {
            let b = (bd_num(*input), bd_scale(*input));
            assert(chunk_len(e, 1, 0) == e) by {
                vstd::arithmetic::div_mod::lemma_div_basics(e as int);
                lemma_fundamental_div_mod(e as int, 1);
                assert(e as int % 1 == 0);
            }
            let p = pow_prec(b, e, prec);
            assert(chunked_pow(b, e, 1, prec, 0) == (1int, 0int));
            assert(chunked_pow(b, e, 1, prec, 1) == pow_step(
                chunked_pow(b, e, 1, prec, 0),
                pow_prec(b, chunk_len(e, 1, 0), prec),
                prec,
            ));
            assert(chunked_pow(b, e, 1, prec, 1) == pow_step((1int, 0int), p, prec));
            assert(with_prec_val(1, 0, prec) == (1int, 0int));
            assert(pow_step((1int, 0int), p, prec) == canon_pair(1 * p.0, 0 + p.1));
            assert(1 * p.0 == p.0);
            lemma_pow_prec_canonical(b, e, prec);
        }
    }
    result
}

/// The natural number that a rounded decimal stands for: its value when
/// that value is a non-negative integer, and the sentinel zero otherwise.
pub open spec fn clamped_nat(u: int, s: int) -> nat {
    if u >= 0 && s <= 0 {
        (u * pow10((-s) as nat)) as nat
    } else {
        0
    }
}

/// Converts an already-rounded decimal to a natural number: a negative
/// or fractional value becomes the sentinel zero, the documented lossy
/// fallback of the closed form.
pub fn clamp_to_biguint(val: &bigdecimal::BigDecimal) -> (r: num_bigint::BigUint)
    ensures
        big_nat(r) == clamped_nat(bd_num(*val), bd_scale(*val)),
{
    if bd_is_integer(val) {
        if bd_is_negative(val) {
            big_from_u64(0)
        } else {
            proof {
                vstd::arithmetic::power::lemma_pow_positive(10, (-bd_scale(*val)) as nat);
            }
            bd_to_biguint(val)
        }
    } else {
        big_from_u64(0)
    }
}

/// Converts a `BigDecimal` to a `BigUint`: the value is rounded to an
/// integer first; a negative or non-integral result is clamped to the
/// sentinel zero.  How the crate rounds a fractional value is not
/// modeled, so the exact contract covers the integral inputs; the
/// clamping step, `clamp_to_biguint`, is exact for every rounded value.
pub fn big_decimal_to_big_int(decimal: &bigdecimal::BigDecimal) -> (r: num_bigint::BigUint)
    ensures
        bd_scale(*decimal) <= 0 ==> big_nat(r) == clamped_nat(bd_num(*decimal), bd_scale(*decimal)),
{
    let val = bd_round0(decimal);
    clamp_to_biguint(&val)
}

/// The six golden-ratio constants, each computed once at fixed decimal
/// precision and immutable thereafter.
pub struct GoldenConstants {
    pub a_plus: bigdecimal::BigDecimal,
    pub a_minus: bigdecimal::BigDecimal,
    pub b: bigdecimal::BigDecimal,
    pub denominator: bigdecimal::BigDecimal,
    pub numerator: bigdecimal::BigDecimal,
    pub coeff: bigdecimal::BigDecimal,
}

/// The numerator is the sum of the two roots and one, times some one
/// decimal (the unnamed third, whose digits only the crate fixes), cut
/// to the working precision.
pub open spec fn numerator_derived(c: GoldenConstants) -> bool {
    let roots = dec_add_val(
        bd_num(c.a_plus),
        bd_scale(c.a_plus),
        bd_num(c.a_minus),
        bd_scale(c.a_minus),
    );
    let sum = dec_add_val(roots.0, roots.1, 1, 0);
    exists|u: int, t: int|
        (bd_num(c.numerator), bd_scale(c.numerator)) == with_prec_val(
            (#[trigger] dec_mul_val(u, t, sum.0, sum.1)).0,
            dec_mul_val(u, t, sum.0, sum.1).1,
            PRECISION_DECIMALS as nat,
        )
}

impl GoldenConstants {
    /// Derives the constants of the closed form at the working
    /// precision.  `None` is returned only if the derived denominator
    /// degenerates to zero, which the later division must not see.  The
    /// root constants come from cube roots whose digits only the crate
    /// fixes, but the derived constants are pinned as functions of them:
    /// the coefficient is three times `B`, the denominator is
    /// `B^2 - 2B + 4`, and the numerator is `(A+ + A- + 1)` times the
    /// unnamed third, each cut to the working precision.
    #[verifier::rlimit(100)]
    #[verifier::spinoff_prover]
    pub fn new() -> (r: Option<GoldenConstants>)
        ensures
            r matches Some(c) ==> bd_num(c.denominator) != 0,
            r matches Some(c) ==> (bd_num(c.coeff), bd_scale(c.coeff)) == with_prec_val(
                dec_mul_val(3, 0, bd_num(c.b), bd_scale(c.b)).0,
                dec_mul_val(3, 0, bd_num(c.b), bd_scale(c.b)).1,
                PRECISION_DECIMALS as nat,
            ),
            r matches Some(c) ==> ({
                let sq = dec_mul_val(bd_num(c.b), bd_scale(c.b), bd_num(c.b), bd_scale(c.b));
                let twob = dec_mul_val(2, 0, bd_num(c.b), bd_scale(c.b));
                let diff = dec_sub_val(sq.0, sq.1, twob.0, twob.1);
                let sum = dec_add_val(diff.0, diff.1, 4, 0);
                (bd_num(c.denominator), bd_scale(c.denominator)) == with_prec_val(
                    sum.0,
                    sum.1,
                    PRECISION_DECIMALS as nat,
                )
            }),
            r matches Some(c) ==> numerator_derived(c),
    {
        let n1 = bd_from_u64(1);
        let n2 = bd_from_u64(2);
        let n3 = bd_from_u64(3);
        let n4 = bd_from_u64(4);
        let n19 = bd_from_u64(19);
        let n33 = bd_from_u64(33);
        let n102 = bd_from_u64(102);
        let n586 = bd_from_u64(586);
        let sqrt33 = match bd_sqrt(&n33) {
            Some(v) => v,
            None => {
                return None;
            },
        };
        let three_sqrt33 = bd_mul(&n3, &sqrt33);
        let a_plus_inner = bd_add(&n19, &three_sqrt33);
        let a_plus = bd_with_prec(&bd_cbrt(&a_plus_inner), PRECISION_DECIMALS);
        let a_minus_inner = bd_sub(&n19, &three_sqrt33);
        let a_minus = bd_with_prec(&bd_cbrt(&a_minus_inner), PRECISION_DECIMALS);
        let b_inner = bd_add(&n586, &bd_mul(&n102, &sqrt33));
        let b = bd_with_prec(&bd_cbrt(&b_inner), PRECISION_DECIMALS);
        let denominator = bd_with_prec(
            &bd_add(&bd_sub(&bd_square(&b), &bd_mul(&n2, &b)), &n4),
            PRECISION_DECIMALS,
        );
        if bd_is_zero(&denominator) {
            return None;
        }
        let one_third = bd_with_prec(&bd_div(&n1, &n3), PRECISION_DECIMALS);
        let numerator = bd_with_prec(
            &bd_mul(&one_third, &bd_add(&bd_add(&a_plus, &a_minus), &n1)),
            PRECISION_DECIMALS,
        );
        let coeff = bd_with_prec(&bd_mul(&n3, &b), PRECISION_DECIMALS);
        let constants = GoldenConstants { a_plus, a_minus, b, denominator, numerator, coeff };
        proof {
            assert(canon_pair(1, 0) == (1int, 0int));
            assert(canon_pair(2, 0) == (2int, 0int));
            assert(canon_pair(3, 0) == (3int, 0int));
            assert(canon_pair(4, 0) == (4int, 0int));
            assert(numerator_derived(constants)) by {
                let roots = dec_add_val(
                    bd_num(constants.a_plus),
                    bd_scale(constants.a_plus),
                    bd_num(constants.a_minus),
                    bd_scale(constants.a_minus),
                );
                let sum = dec_add_val(roots.0, roots.1, 1, 0);
                assert((bd_num(constants.numerator), bd_scale(constants.numerator))
                    == with_prec_val(
                    (dec_mul_val(bd_num(one_third), bd_scale(one_third), sum.0, sum.1)).0,
                    dec_mul_val(bd_num(one_third), bd_scale(one_third), sum.0, sum.1).1,
                    PRECISION_DECIMALS as nat,
                ));
            }
        }
        Some(constants)
    }
}

/// Generates four tribonacci values from the start index on, using the
/// golden-ratio closed form: for each index, the coefficient times a
/// power of the numerator, by the chunked power routine, over the
/// denominator, rounded at the working precision and converted with the
/// sentinel fallback.  The closed form's natural index runs one ahead of
/// the recurrence, so the exponent is one below the index; index zero,
/// which the formula cannot reach, is the base value zero.
pub fn generate_trib_golden_ratio_big_int(
    constants: &GoldenConstants,
    start_index: u128,
) -> (r: Vec<num_bigint::BigUint>)
    requires
        start_index <= u128::MAX - 3,
        bd_num(constants.denominator) != 0,
    ensures
        r@.len() == 4,
        start_index == 0 ==> big_nats_of(r@)[0] == 0,
{
    let mut r: Vec<num_bigint::BigUint> = Vec::new();
    let mut t: u128 = 0;
    while t < 4
        invariant
            t <= 4,
            r@.len() == t,
            start_index <= u128::MAX - 3,
            bd_num(constants.denominator) != 0,
            start_index == 0 && t >= 1 ==> big_nats_of(r@)[0] == 0,
        decreases 4 - t,
    {
        let idx = start_index + t;
        if idx == 0 {
            r.push(big_from_u64(0));
            proof {
                assert(big_nats_of(r@)[0] == 0);
            }
        } else {
            let raised = power(&constants.numerator, idx - 1, NUM_CHUNKS);
            let quotient = bd_div(&raised, &constants.denominator);
            let scaled = bd_mul(&constants.coeff, &quotient);
            let cut = bd_with_prec(&scaled, PRECISION_DECIMALS);
            r.push(big_decimal_to_big_int(&cut));
        }
        proof {
            if start_index == 0 && t >= 1 {
                assert(big_nats_of(r@)[0] == big_nats_of(r@.drop_last())[0]);
            }
        }
        t = t + 1;
    }
    r
}

/// Generates the tribonacci window at arbitrary precision: through the
/// golden-ratio closed form when `experimental` is set, and through the
/// exact recurrence otherwise.
pub fn generate_trib_sequence_big_int(
    constants: &GoldenConstants,
    start_index: u128,
    experimental: bool,
) -> (r: Vec<num_bigint::BigUint>)
    requires
        start_index <= u128::MAX - 3,
        bd_num(constants.denominator) != 0,
    ensures
        r@.len() == 4,
        !experimental ==> big_nats_of(r@) == trib_window(start_index as nat),
{
    if experimental {
        generate_trib_golden_ratio_big_int(constants, start_index)
    } else {
        generate_trib_exact_big_int(start_index)
    }
}

/// Fills the array with the window at a set index of the tribonacci
/// sequence, at arbitrary precision.
pub fn fill_array_set_trib_big_int(
    values: &mut Vec<num_bigint::BigUint>,
    index: u128,
    constants: &GoldenConstants,
)
    requires
        index <= u128::MAX - 3,
        bd_num(constants.denominator) != 0,
    ensures
        final(values)@.len() == old(values)@.len() + 4,
        forall|i: int|
            0 <= i < old(values)@.len() ==> big_nats_of(final(values)@)[i] == big_nats_of(
                old(values)@,
            )[i],
        !USE_GOLDEN_RATIO ==> big_nats_of(final(values)@) == big_nats_of(old(values)@)
            + trib_window(index as nat),
{
    let mut window = generate_trib_sequence_big_int(constants, index, USE_GOLDEN_RATIO);
    values.append(&mut window);
    proof {
        assert forall|i: int| 0 <= i < old(values)@.len() implies big_nats_of(values@)[i]
            == big_nats_of(old(values)@)[i] by {
            assert(values@[i] == old(values)@[i]);
        }
        if !USE_GOLDEN_RATIO {
            assert(big_nats_of(values@) =~= big_nats_of(old(values)@) + trib_window(index as nat));
        }
    }
}

/// Fills the array with the window at a random start index, at
/// arbitrary precision.
pub fn fill_array_trib_big_int(values: &mut Vec<num_bigint::BigUint>, constants: &GoldenConstants)
    requires
        bd_num(constants.denominator) != 0,
    ensures
        final(values)@.len() == old(values)@.len() + 4,
        forall|i: int|
            0 <= i < old(values)@.len() ==> big_nats_of(final(values)@)[i] == big_nats_of(
                old(values)@,
            )[i],
{
    let drawn = random_u128();
    let random_index = if drawn > u128::MAX - 3 {
        u128::MAX - 3
    } else {
        drawn
    };
    fill_array_set_trib_big_int(values, random_index, constants);
}

} // verus!
