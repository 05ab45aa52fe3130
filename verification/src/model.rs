//! Mathematical model of the Ducci map: states as sequences of naturals,
//! the step function, iterated trajectories, and the positional encoding
//! that numbers the bounded states of a given length.

use vstd::prelude::*;

verus! {

use vstd::arithmetic::power::{pow, lemma_pow_positive};
use vstd::arithmetic::div_mod::{
    lemma_div_denominator, lemma_fundamental_div_mod, lemma_fundamental_div_mod_converse,
};

/// Absolute difference of two naturals.
pub open spec fn abs_diff(a: nat, b: nat) -> nat {
    if a >= b {
        (a - b) as nat
    } else {
        (b - a) as nat
    }
}

/// One Ducci step: each element is replaced by the absolute difference
/// between itself and its cyclic successor.
pub open spec fn ducci_step(s: Seq<nat>) -> Seq<nat> {
    Seq::new(
        s.len(),
        |i: int| abs_diff(s[i], s[if i + 1 == s.len() { 0int } else { i + 1 }]),
    )
}

/// The state after `k` Ducci steps.
pub open spec fn ducci_iter(s: Seq<nat>, k: nat) -> Seq<nat>
    decreases k,
{
    if k == 0 {
        s
    } else {
        ducci_step(ducci_iter(s, (k - 1) as nat))
    }
}

/// A state is terminal exactly when every element is zero.
pub open spec fn all_zero(s: Seq<nat>) -> bool {
    forall|i: int| 0 <= i < s.len() ==> s[i] == 0
}

/// Every element of the state is at most `m`.
pub open spec fn bounded_by(s: Seq<nat>, m: nat) -> bool {
    forall|i: int| 0 <= i < s.len() ==> s[i] <= m
}

/// No state in the first `k` steps of the trajectory of `s` is terminal.
pub open spec fn nonzero_prefix(s: Seq<nat>, k: nat) -> bool {
    forall|j: nat| j < k ==> !all_zero(#[trigger] ducci_iter(s, j))
}

/// The first `k` states of the trajectory of `s` are pairwise distinct.
pub open spec fn distinct_prefix(s: Seq<nat>, k: nat) -> bool {
    forall|j1: nat, j2: nat|
        j1 < j2 < k ==> #[trigger] ducci_iter(s, j1) != #[trigger] ducci_iter(s, j2)
}

/// The engine, started on `s`, stops after exactly `k` steps: no earlier
/// state is terminal, no earlier state repeats, and step `k` is either
/// terminal or the first recurrence of a previously seen state.
pub open spec fn run_stops_at(s: Seq<nat>, k: nat) -> bool {
    &&& nonzero_prefix(s, k)
    &&& distinct_prefix(s, k)
    &&& all_zero(ducci_iter(s, k)) || exists|j: nat|
        j < k && #[trigger] ducci_iter(s, j) == ducci_iter(s, k)
}

/// The engine, started on `s`, stops after some finite number of steps.
pub open spec fn engine_stops(s: Seq<nat>) -> bool {
    exists|k: nat| run_stops_at(s, k)
}

/// The view of a machine-word state as a mathematical state.
pub open spec fn nats_of(s: Seq<u64>) -> Seq<nat> {
    s.map_values(|x: u64| x as nat)
}

/// Whether `n` is a power of two.
pub open spec fn is_pow2(n: nat) -> bool
    decreases n,
{
    if n == 0 {
        false
    } else if n == 1 {
        true
    } else {
        n % 2 == 0 && is_pow2(n / 2)
    }
}

pub proof fn lemma_ducci_iter_len(s: Seq<nat>, k: nat)
    ensures
        ducci_iter(s, k).len() == s.len(),
    decreases k,
{
    if k > 0 {
        lemma_ducci_iter_len(s, (k - 1) as nat);
    }
}

/// A Ducci step never increases the largest element.
pub proof fn lemma_ducci_step_bounded(s: Seq<nat>, m: nat)
    requires
        bounded_by(s, m),
    ensures
        bounded_by(ducci_step(s), m),
{
}

pub proof fn lemma_ducci_iter_bounded(s: Seq<nat>, m: nat, k: nat)
    requires
        bounded_by(s, m),
    ensures
        bounded_by(ducci_iter(s, k), m),
    decreases k,
{
    if k > 0 {
        lemma_ducci_iter_bounded(s, m, (k - 1) as nat);
        lemma_ducci_step_bounded(ducci_iter(s, (k - 1) as nat), m);
    }
}

/// For a given start state there is at most one step count at which the
/// engine stops.
pub proof fn lemma_run_stops_at_unique(s: Seq<nat>, k1: nat, k2: nat)
    requires
        run_stops_at(s, k1),
        run_stops_at(s, k2),
    ensures
        k1 == k2,
{
    if k1 != k2 {
        let lo = if k1 < k2 { k1 } else { k2 };
        let hi = if k1 < k2 { k2 } else { k1 };
        // The engine cannot stop at `lo`: were the state at `lo` terminal, it
        // would break `nonzero_prefix(s, hi)`; were it a recurrence, it would
        // break `distinct_prefix(s, hi)`.
        if all_zero(ducci_iter(s, lo)) {
            assert(!all_zero(ducci_iter(s, lo)));
        } else {
            let j = choose|j: nat| j < lo && #[trigger] ducci_iter(s, j) == ducci_iter(s, lo);
            assert(ducci_iter(s, j) != ducci_iter(s, lo));
        }
    }
}

/// The digits of `s` all lie below the base `b`.
pub open spec fn digits_below(s: Seq<nat>, b: nat) -> bool {
    forall|i: int| 0 <= i < s.len() ==> s[i] < b
}

/// Positional value of the digit sequence `s` in base `b`, most significant
/// digit first.
pub open spec fn encode(s: Seq<nat>, b: nat) -> nat
    decreases s.len(),
{
    if s.len() == 0 {
        0
    } else {
        encode(s.drop_last(), b) * b + s.last()
    }
}

/// The encoding of an `n`-digit sequence lies below `b^n`.
pub proof fn lemma_encode_bound(s: Seq<nat>, b: nat)
    requires
        digits_below(s, b),
        b >= 1,
    ensures
        encode(s, b) < pow(b as int, s.len()),
    decreases s.len(),
{
    reveal(pow);
    lemma_pow_positive(b as int, s.len());
    if s.len() == 0 {
    } else {
        let t = s.drop_last();
        assert(digits_below(t, b));
        lemma_encode_bound(t, b);
        lemma_pow_positive(b as int, t.len());
        assert(pow(b as int, s.len()) == b * pow(b as int, t.len()));
        assert(encode(t, b) * b + s.last() < pow(b as int, s.len())) by (nonlinear_arith)
            requires
                encode(t, b) < pow(b as int, t.len()),
                s.last() < b,
                pow(b as int, s.len()) == b * pow(b as int, t.len()),
                b >= 1,
        {
        }
    }
}

/// Two digit sequences of the same length with the same encoding are equal.
pub proof fn lemma_encode_injective(s1: Seq<nat>, s2: Seq<nat>, b: nat)
    requires
        s1.len() == s2.len(),
        digits_below(s1, b),
        digits_below(s2, b),
        encode(s1, b) == encode(s2, b),
    ensures
        s1 == s2,
    decreases s1.len(),
{
    if s1.len() == 0 {
        assert(s1 =~= s2);
    } else {
        let t1 = s1.drop_last();
        let t2 = s2.drop_last();
        let x = encode(s1, b) as int;
        lemma_fundamental_div_mod_converse(x, b as int, encode(t1, b) as int, s1.last() as int);
        lemma_fundamental_div_mod_converse(x, b as int, encode(t2, b) as int, s2.last() as int);
        assert(encode(t1, b) == encode(t2, b));
        assert(s1.last() == s2.last());
        assert(digits_below(t1, b));
        assert(digits_below(t2, b));
        lemma_encode_injective(t1, t2, b);
        assert(s1 =~= t1.push(s1.last()));
        assert(s2 =~= t2.push(s2.last()));
    }
}

/// The largest element of a state, zero for the empty state.
pub open spec fn seq_max(s: Seq<nat>) -> nat
    decreases s.len(),
{
    if s.len() == 0 {
        0
    } else if s.last() >= seq_max(s.drop_last()) {
        s.last()
    } else {
        seq_max(s.drop_last())
    }
}

pub proof fn lemma_seq_max_bounds(s: Seq<nat>)
    ensures
        bounded_by(s, seq_max(s)),
    decreases s.len(),
{
    if s.len() > 0 {
        let t = s.drop_last();
        lemma_seq_max_bounds(t);
        assert forall|i: int| 0 <= i < s.len() implies s[i] <= seq_max(s) by {
            if i < s.len() - 1 {
                assert(t[i] == s[i]);
            }
        }
    }
}

/// The `n` binary digits of `i`, most significant first.
pub open spec fn decode(i: nat, n: nat) -> Seq<nat>
    decreases n,
{
    if n == 0 {
        Seq::empty()
    } else {
        decode(i / 2, (n - 1) as nat).push(i % 2)
    }
}

pub proof fn lemma_decode_len(i: nat, n: nat)
    ensures
        decode(i, n).len() == n,
        digits_below(decode(i, n), 2),
    decreases n,
{
    if n > 0 {
        lemma_decode_len(i / 2, (n - 1) as nat);
    }
}

/// Decoding is a right inverse of binary encoding, so decoding the
/// integers below `2^n` enumerates every length-`n` binary vector exactly
/// once.
pub proof fn lemma_encode_decode(i: nat, n: nat)
    requires
        i < pow(2, n),
    ensures
        encode(decode(i, n), 2) == i,
    decreases n,
{
    reveal(pow);
    if n == 0 {
        assert(decode(i, n) =~= Seq::<nat>::empty());
    } else {
        lemma_decode_len(i / 2, (n - 1) as nat);
        assert(i / 2 < pow(2, (n - 1) as nat)) by (nonlinear_arith)
            requires
                i < pow(2, n),
                pow(2, n) == 2 * pow(2, (n - 1) as nat),
        {
        }
        lemma_encode_decode(i / 2, (n - 1) as nat);
        let s = decode(i, n);
        assert(s.drop_last() =~= decode(i / 2, (n - 1) as nat));
        assert(encode(s, 2) == (i / 2) * 2 + i % 2);
        assert(i == 2 * (i / 2) + i % 2) by {
            lemma_fundamental_div_mod(i as int, 2);
        }
    }
}

/// Each decoded digit reads one binary place of `i`, most significant
/// digit first.
pub proof fn lemma_decode_index(i: nat, n: nat, t: int)
    requires
        0 <= t < n,
    ensures
        decode(i, n)[t] as int == (i as int / pow(2, (n - 1 - t) as nat)) % 2,
    decreases n,
{
    reveal(pow);
    lemma_decode_len(i / 2, (n - 1) as nat);
    if t == n - 1 {
        assert(pow(2, 0) == 1);
        assert(i as int / 1 == i as int);
        assert(decode(i, n)[t] == i % 2);
    } else {
        assert(decode(i, n)[t] == decode(i / 2, (n - 1) as nat)[t]);
        lemma_decode_index(i / 2, (n - 1) as nat, t);
        let p: int = pow(2, (n - 2 - t) as nat);
        lemma_pow_positive(2, (n - 2 - t) as nat);
        lemma_div_denominator(i as int, 2, p);
        assert(pow(2, (n - 1 - t) as nat) == 2 * p);
        assert((i / 2) as int / p == i as int / (2 * p));
    }
}

/// Distinct integers below `2^n` decode to distinct vectors.
pub proof fn lemma_decode_injective(i1: nat, i2: nat, n: nat)
    requires
        i1 < pow(2, n),
        i2 < pow(2, n),
        i1 != i2,
    ensures
        decode(i1, n) != decode(i2, n),
{
    lemma_encode_decode(i1, n);
    lemma_encode_decode(i2, n);
}

/// Equal views of machine-word states come from equal states.
pub proof fn lemma_nats_of_injective(a: Seq<u64>, b: Seq<u64>)
    requires
        nats_of(a) == nats_of(b),
    ensures
        a == b,
{
    assert(nats_of(a).len() == a.len());
    assert(nats_of(b).len() == b.len());
    assert forall|i: int| 0 <= i < a.len() implies a[i] == b[i] by {
        assert(nats_of(a)[i] == a[i] as nat);
        assert(nats_of(b)[i] == b[i] as nat);
    }
    assert(a =~= b);
}

} // verus!
