//! The sequence engine and the exact tribonacci generator at arbitrary
//! precision.  Values are held in `num_bigint::BigUint`; the logic reads
//! them only through trusted wrappers whose contracts speak of the
//! natural number a value holds.

use vstd::prelude::*;

verus! {

use vstd::arithmetic::power::{pow, lemma_pow_positive};
use vstd::set_lib::{set_int_range, lemma_int_range};
use vstd::set_lib::lemma_len_subset;
use vstd::string::StringExecFns;
use crate::model::{
    abs_diff, all_zero, bounded_by, digits_below, distinct_prefix, ducci_iter, ducci_step, encode,
    lemma_ducci_iter_bounded, lemma_ducci_iter_len, lemma_encode_bound, lemma_encode_injective,
    lemma_seq_max_bounds, nonzero_prefix, run_stops_at, seq_max,
};
use crate::repr::{dec_digits, debug_repr, joined, u64_to_string};
use crate::engine::trace_line;
use crate::trib::{trib, trib_window};

#[verifier::external_type_specification]
#[verifier::external_body]
pub struct ExBigUint(num_bigint::BigUint);

/// The natural number that a `BigUint` holds.
pub uninterp spec fn big_nat(b: num_bigint::BigUint) -> nat;

/// The view of a state vector of `BigUint`s as a mathematical state.
pub open spec fn big_nats_of(s: Seq<num_bigint::BigUint>) -> Seq<nat> {
    s.map_values(|b: num_bigint::BigUint| big_nat(b))
}

/// Relies on `BigUint::from::<u64>`: the value held is the machine word
/// given.
#[verifier::external_body]
pub(crate) fn big_from_u64(x: u64) -> (r: num_bigint::BigUint)
    ensures
        big_nat(r) == x as nat,
{
    num_bigint::BigUint::from(x)
}

/// Relies on `BigUint::clone`: the value held is kept.
#[verifier::external_body]
fn big_clone(a: &num_bigint::BigUint) -> (r: num_bigint::BigUint)
    ensures
        big_nat(r) == big_nat(*a),
{
    a.clone()
}

/// Relies on `Add for &BigUint`: the values held add.
#[verifier::external_body]
fn big_add(a: &num_bigint::BigUint, b: &num_bigint::BigUint) -> (r: num_bigint::BigUint)
    ensures
        big_nat(r) == big_nat(*a) + big_nat(*b),
{
    a + b
}

/// Relies on `Sub for &BigUint`: the values held subtract.  The
/// subtrahend must not exceed the minuend, for the crate fails on
/// underflow.
#[verifier::external_body]
fn big_sub(a: &num_bigint::BigUint, b: &num_bigint::BigUint) -> (r: num_bigint::BigUint)
    requires
        big_nat(*b) <= big_nat(*a),
    ensures
        big_nat(r) == big_nat(*a) - big_nat(*b),
{
    a - b
}

/// Relies on `PartialOrd for BigUint`: the comparison orders the values
/// held.
#[verifier::external_body]
fn big_le(a: &num_bigint::BigUint, b: &num_bigint::BigUint) -> (r: bool)
    ensures
        r == (big_nat(*a) <= big_nat(*b)),
{
    a <= b
}

/// Relies on `PartialEq for BigUint`: equality compares the values held,
/// since the digit representation is kept normalized.
#[verifier::external_body]
fn big_eq(a: &num_bigint::BigUint, b: &num_bigint::BigUint) -> (r: bool)
    ensures
        r == (big_nat(*a) == big_nat(*b)),
{
    a == b
}

/// Relies on `Display for BigUint` through `ToString`: the decimal digits
/// of the value held, most significant first, no leading zeros.
#[verifier::external_body]
fn big_to_string(a: &num_bigint::BigUint) -> (r: String)
    ensures
        r@ == dec_digits(big_nat(*a)),
{
    a.to_string()
}

/// Same as `is_zero`, but compatible with `BigUint`.
pub fn is_zero_big_int(values: &Vec<num_bigint::BigUint>) -> (r: bool)
    ensures
        r == all_zero(big_nats_of(values@)),
{
    let zero = big_from_u64(0);
    let mut i: usize = 0;
    while i < values.len()
        invariant
            i <= values.len(),
            big_nat(zero) == 0,
            forall|j: int| 0 <= j < i ==> big_nats_of(values@)[j] == 0,
        decreases values.len() - i,
    {
        if !big_eq(&values[i], &zero) {
            assert(big_nats_of(values@)[i as int] != 0);
            return false;
        }
        i = i + 1;
    }
    true
}

/// Same as `subtract`, but compatible with `BigUint`: each element
/// becomes the larger of itself and its cyclic successor minus the
/// smaller, which never underflows.
pub fn subtract_big_int(values: &mut Vec<num_bigint::BigUint>)
    ensures
        big_nats_of(final(values)@) == ducci_step(big_nats_of(old(values)@)),
{
    let ghost orig: Seq<nat> = big_nats_of(values@);
    let n = values.len();
    if n == 0 {
        proof {
            assert(big_nats_of(values@) =~= ducci_step(orig));
        }
        return ;
    }
    let original_val = big_clone(&values[0]);
    let mut i: usize = 0;
    while i < n
        invariant
            n == values@.len(),
            n == orig.len(),
            n >= 1,
            i <= n,
            big_nat(original_val) == orig[0],
            forall|j: int| i <= j < n ==> big_nats_of(values@)[j] == orig[j],
            forall|j: int|
                0 <= j < i ==> big_nats_of(values@)[j] == abs_diff(
                    orig[j],
                    orig[if j + 1 == n { 0int } else { j + 1 }],
                ),
        decreases n - i,
    {
        let diff = if i + 1 < n {
            if big_le(&values[i], &values[i + 1]) {
                big_sub(&values[i + 1], &values[i])
            } else {
                big_sub(&values[i], &values[i + 1])
            }
        } else {
            if big_le(&values[i], &original_val) {
                big_sub(&original_val, &values[i])
            } else {
                big_sub(&values[i], &original_val)
            }
        };
        proof {
            assert(big_nat(diff) == abs_diff(
                orig[i as int],
                orig[if i + 1 == n { 0int } else { i + 1 }],
            ));
        }
        let ghost pre: Seq<num_bigint::BigUint> = values@;
        values[i] = diff;
        proof {
            let upd = values@;
            assert forall|j: int| 0 <= j < i + 1 implies big_nats_of(upd)[j] == abs_diff(
                orig[j],
                orig[if j + 1 == n { 0int } else { j + 1 }],
            ) by {
                assert(big_nats_of(upd)[j] == big_nat(upd[j]));
                if j == i {
                    assert(upd[j] == diff);
                } else {
                    assert(upd[j] == pre[j]);
                    assert(big_nats_of(pre)[j] == big_nat(pre[j]));
                }
            }
            assert forall|j: int| i + 1 <= j < n implies big_nats_of(upd)[j] == orig[j] by {
                assert(big_nats_of(upd)[j] == big_nat(upd[j]));
                assert(upd[j] == pre[j]);
                assert(big_nats_of(pre)[j] == big_nat(pre[j]));
            }
        }
        i = i + 1;
    }
    proof {
        assert(big_nats_of(values@) =~= ducci_step(orig));
    }
}

/// A copy of a state vector that holds the same values.
fn clone_state(values: &Vec<num_bigint::BigUint>) -> (r: Vec<num_bigint::BigUint>)
    ensures
        big_nats_of(r@) == big_nats_of(values@),
{
    let mut r: Vec<num_bigint::BigUint> = Vec::new();
    let mut i: usize = 0;
    while i < values.len()
        invariant
            i <= values.len(),
            r@.len() == i,
            forall|j: int| 0 <= j < i ==> big_nats_of(r@)[j] == big_nats_of(values@)[j],
        decreases values.len() - i,
    {
        r.push(big_clone(&values[i]));
        i = i + 1;
    }
    proof {
        assert(big_nats_of(r@) =~= big_nats_of(values@));
    }
    r
}

/// Whether the state `v` holds the same values as some visited state.
fn contains_state_big(seen: &Vec<Vec<num_bigint::BigUint>>, v: &Vec<num_bigint::BigUint>) -> (r:
    bool)
    ensures
        r == exists|j: int|
            0 <= j < seen@.len() && #[trigger] big_nats_of(seen@[j]@) == big_nats_of(v@),
{
    let mut i: usize = 0;
    while i < seen.len()
        invariant
            i <= seen.len(),
            forall|j: int| 0 <= j < i ==> #[trigger] big_nats_of(seen@[j]@) != big_nats_of(v@),
        decreases seen.len() - i,
    {
        let mut k: usize = 0;
        let same_len = seen[i].len() == v.len();
        let mut equal = same_len;
        if same_len {
            while k < v.len()
                invariant
                    k <= v.len(),
                    i < seen.len(),
                    seen@[i as int]@.len() == v@.len(),
                    equal == forall|t: int|
                        0 <= t < k ==> big_nats_of(seen@[i as int]@)[t] == big_nats_of(v@)[t],
                decreases v.len() - k,
            {
                if !big_eq(&seen[i][k], &v[k]) {
                    equal = false;
                    assert(big_nats_of(seen@[i as int]@)[k as int] != big_nats_of(v@)[k as int]);
                }
                k = k + 1;
            }
        }
        if equal {
            proof {
                assert(big_nats_of(seen@[i as int]@) =~= big_nats_of(v@));
            }
            return true;
        }
        proof {
            if big_nats_of(seen@[i as int]@).len() == big_nats_of(v@).len() {
                let t = choose|t: int|
                    0 <= t < v@.len() && big_nats_of(seen@[i as int]@)[t] != big_nats_of(v@)[t];
                assert(big_nats_of(seen@[i as int]@) != big_nats_of(v@));
            } else {
                assert(big_nats_of(seen@[i as int]@) != big_nats_of(v@));
            }
        }
        i = i + 1;
    }
    false
}

/// The debug form `[a, b, c]` of a state vector of `BigUint`s.
fn big_vec_debug_string(values: &Vec<num_bigint::BigUint>) -> (r: String)
    ensures
        r@ == debug_repr(big_nats_of(values@)),
{
    let ghost full: Seq<nat> = big_nats_of(values@);
    let mut r = String::from_str("[");
    proof {
        reveal_strlit("[");
        assert(r@ =~= seq!['['] + joined(full.take(0), seq![',', ' ']));
    }
    let mut i: usize = 0;
    while i < values.len()
        invariant
            i <= values.len(),
            full == big_nats_of(values@),
            full.len() == values@.len(),
            r@ == seq!['['] + joined(full.take(i as int), seq![',', ' ']),
        decreases values.len() - i,
    {
        if i > 0 {
            r.append(", ");
        }
        let digits = big_to_string(&values[i]);
        r.append(digits.as_str());
        proof {
            reveal_strlit(", ");
            assert(full.take(i + 1).drop_last() =~= full.take(i as int));
            assert(full.take(i + 1).last() == full[i as int]);
            if i == 0 {
                assert(joined(full.take(1), seq![',', ' ']) == dec_digits(full[0]));
            }
            assert(r@ =~= seq!['['] + joined(full.take(i + 1), seq![',', ' ']));
        }
        i = i + 1;
    }
    r.append("]");
    proof {
        reveal_strlit("]");
        assert(full.take(full.len() as int) =~= full);
        assert(r@ =~= debug_repr(full));
    }
    r
}

/// Same as `iterate`, but compatible with `BigUint`: subtracts until all
/// values are zero or a state recurs, and reports the initial state with
/// the number of steps taken.  The visited-state set again bounds the
/// loop, since the values held never grow past the initial maximum.
pub fn iterate_big_int(values: &mut Vec<num_bigint::BigUint>) -> (r: (String, u64))
    ensures
        run_stops_at(big_nats_of(old(values)@), r.1 as nat),
        big_nats_of(final(values)@) == ducci_iter(big_nats_of(old(values)@), r.1 as nat),
        r.0@ == trace_line(big_nats_of(old(values)@), r.1 as nat),
        crate::model::is_pow2(old(values)@.len()) ==> all_zero(
            ducci_iter(big_nats_of(old(values)@), r.1 as nat),
        ),
{
    let ghost v0: Seq<nat> = big_nats_of(values@);
    let ghost n: nat = v0.len();
    let ghost m: nat = seq_max(v0);
    let ghost bound: int = pow((m + 1) as int, n);
    proof {
        lemma_seq_max_bounds(v0);
        lemma_pow_positive((m + 1) as int, n);
    }
    let mut saved = big_vec_debug_string(values);
    saved.append(" : ");
    proof {
        reveal_strlit(" : ");
        assert(saved@ =~= debug_repr(v0) + seq![' ', ':', ' ']);
    }
    let mut seen: Vec<Vec<num_bigint::BigUint>> = Vec::new();
    let ghost mut codes: Set<int> = Set::empty();
    loop
        invariant
            v0 == big_nats_of(old(values)@),
            n == v0.len(),
            m == seq_max(v0),
            bound == pow((m + 1) as int, n),
            bounded_by(v0, m),
            values@.len() == n,
            big_nats_of(values@) == ducci_iter(v0, seen@.len()),
            saved@ == debug_repr(v0) + seq![' ', ':', ' '],
            forall|j: int|
                0 <= j < seen@.len() ==> big_nats_of(#[trigger] seen@[j]@) == ducci_iter(
                    v0,
                    j as nat,
                ),
            distinct_prefix(v0, seen@.len()),
            nonzero_prefix(v0, seen@.len()),
            codes.finite(),
            codes.len() == seen@.len(),
            codes.subset_of(set_int_range(0, bound)),
            forall|j: int|
                0 <= j < seen@.len() ==> codes.contains(
                    #[trigger] encode(ducci_iter(v0, j as nat), m + 1) as int,
                ),
            forall|x: int| #[trigger]
                codes.contains(x) ==> exists|j: int|
                    0 <= j < seen@.len() && x == #[trigger] encode(
                        ducci_iter(v0, j as nat),
                        m + 1,
                    ) as int,
        decreases bound - seen@.len(),
    {
        let ghost k: nat = seen@.len() as nat;
        if is_zero_big_int(values) || contains_state_big(&seen, values) {
            proof {
                if !all_zero(ducci_iter(v0, k)) {
                    let j = choose|j: int|
                        0 <= j < seen@.len() && #[trigger] big_nats_of(seen@[j]@) == big_nats_of(
                            values@,
                        );
                    assert(ducci_iter(v0, j as nat) == ducci_iter(v0, k));
                }
                if crate::model::is_pow2(n) {
                    crate::convergence::lemma_pow2_run_terminal(v0, k);
                }
            }
            let count = seen.len() as u64;
            let digits = u64_to_string(count);
            saved.append(digits.as_str());
            saved.append("\n");
            proof {
                reveal_strlit(" : ");
                reveal_strlit("\n");
                assert(saved@ =~= trace_line(v0, count as nat));
            }
            return (saved, count);
        }
        let copy = clone_state(values);
        seen.push(copy);
        proof {
            // The state just recorded carries a code that is new: an equal
            // code at an earlier step would mean an equal earlier state.
            let code: int = encode(ducci_iter(v0, k), m + 1) as int;
            lemma_ducci_iter_bounded(v0, m, k);
            lemma_ducci_iter_len(v0, k);
            assert(digits_below(ducci_iter(v0, k), m + 1));
            lemma_encode_bound(ducci_iter(v0, k), m + 1);
            assert(set_int_range(0, bound).contains(code));
            if codes.contains(code) {
                let j = choose|j: int|
                    0 <= j < k && code == #[trigger] encode(ducci_iter(v0, j as nat), m + 1) as int;
                lemma_ducci_iter_bounded(v0, m, j as nat);
                lemma_ducci_iter_len(v0, j as nat);
                assert(digits_below(ducci_iter(v0, j as nat), m + 1));
                lemma_encode_injective(ducci_iter(v0, j as nat), ducci_iter(v0, k), m + 1);
                assert(big_nats_of(seen@[j]@) == big_nats_of(values@));
            }
            codes = codes.insert(code);
            lemma_int_range(0, bound);
            lemma_len_subset(codes, set_int_range(0, bound));
        }
        subtract_big_int(values);
        proof {
            assert(big_nats_of(values@) == ducci_iter(v0, k + 1));
            // The state that was just recorded differs from every earlier
            // recorded state, so the trajectory stays free of repeats.
            assert forall|j1: nat, j2: nat| j1 < j2 < k + 1 implies #[trigger] ducci_iter(
                v0,
                j1,
            ) != #[trigger] ducci_iter(v0, j2) by {
                if j2 == k {
                    assert(big_nats_of(seen@[j1 as int]@) == ducci_iter(v0, j1));
                }
            }
        }
    }
}

/// Generates the four tribonacci values from the start index on, by the
/// exact recurrence at arbitrary precision: exact for any index, at a
/// cost linear in the index.
pub fn generate_trib_exact_big_int(start_index: u128) -> (r: Vec<num_bigint::BigUint>)
    requires
        start_index <= u128::MAX - 3,
    ensures
        big_nats_of(r@) == trib_window(start_index as nat),
        r@.len() == 4,
{
    let mut a = big_from_u64(0);
    let mut b = big_from_u64(0);
    let mut c = big_from_u64(1);
    let mut k: u128 = 0;
    while k < start_index
        invariant
            k <= start_index,
            big_nat(a) == trib(k as nat),
            big_nat(b) == trib((k + 1) as nat),
            big_nat(c) == trib((k + 2) as nat),
        decreases start_index - k,
    {
        let ab = big_add(&a, &b);
        let d = big_add(&ab, &c);
        a = b;
        b = c;
        c = d;
        k = k + 1;
    }
    let ab = big_add(&a, &b);
    let d = big_add(&ab, &c);
    let mut r: Vec<num_bigint::BigUint> = Vec::new();
    r.push(a);
    r.push(b);
    r.push(c);
    r.push(d);
    proof {
        assert(big_nats_of(r@) =~= trib_window(start_index as nat));
    }
    r
}

} // verus!
