//! The exhaustive search over one vector length: every integer below
//! `2^n` is decoded to a binary state vector, each vector is run through
//! the engine, and the results are reduced to the one that took the most
//! steps, earliest winner kept on ties.

use vstd::prelude::*;

verus! {

use vstd::arithmetic::power::{pow, lemma_pow_positive};
use vstd::arithmetic::div_mod::lemma_div_denominator;
use crate::model::{
    all_zero, decode, ducci_iter, engine_stops, is_pow2, lemma_decode_index, lemma_decode_len,
    nats_of, run_stops_at, lemma_run_stops_at_unique,
};
use crate::engine::{checking_iteration, iterate, repeat_marker, trace_line};
use crate::repr::{dec_digits, u64_to_string};
use vstd::string::StringExecFns;

pub fn is_power_of_two(n: u64) -> (r: bool)
    ensures
        r == is_pow2(n as nat),
{
    if n == 0 {
        return false;
    }
    let mut m: u64 = n;
    while m > 1 && m % 2 == 0
        invariant
            m >= 1,
            is_pow2(n as nat) == is_pow2(m as nat),
        decreases m,
    {
        m = m / 2;
    }
    m == 1
}

/// Fills the array with the binary digits of `count`, most significant
/// first, zero-padded on the left to `n_size` digits.
pub fn fill_array_binary(values: &mut Vec<u64>, count: u128, n_size: u64)
    requires
        (count as nat) < pow(2, n_size as nat),
        n_size as nat <= usize::MAX as nat,
    ensures
        nats_of(final(values)@) == decode(count as nat, n_size as nat),
        final(values)@.len() == n_size as nat,
{
    values.clear();
    let n = n_size as usize;
    let mut bits: Vec<u64> = Vec::new();
    let mut x: u128 = count;
    let mut j: usize = 0;
    proof {
        assert(pow(2, 0) == 1) by {
            vstd::arithmetic::power::lemma_pow0(2);
        }
        assert(count as int / 1 == count as int);
    }
    while j < n
        invariant
            j <= n,
            bits@.len() == j,
            x as int == count as int / pow(2, j as nat),
            forall|t: int|
                0 <= t < j ==> bits@[t] as int == (count as int / pow(2, t as nat)) % 2,
        decreases n - j,
    {
        let d: u64 = (x % 2) as u64;
        bits.push(d);
        proof {
            lemma_pow_positive(2, j as nat);
            lemma_div_denominator(count as int, pow(2, j as nat), 2);
            assert(pow(2, (j + 1) as nat) == 2 * pow(2, j as nat)) by {
                vstd::arithmetic::power::lemma_pow1(2);
                vstd::arithmetic::power::lemma_pow_adds(2, 1, j as nat);
            }
            assert((x as int / 2) == count as int / pow(2, (j + 1) as nat));
        }
        x = x / 2;
        j = j + 1;
    }
    let mut k: usize = 0;
    while k < n
        invariant
            k <= n,
            n == n_size as int,
            bits@.len() == n,
            values@.len() == k,
            forall|t: int|
                0 <= t < n ==> bits@[t] as int == (count as int / pow(2, t as nat)) % 2,
            forall|t: int|
                0 <= t < k ==> values@[t] as int == (count as int / pow(
                    2,
                    (n - 1 - t) as nat,
                )) % 2,
        decreases n - k,
    {
        values.push(bits[n - 1 - k]);
        k = k + 1;
    }
    proof {
        lemma_decode_len(count as nat, n_size as nat);
        assert forall|t: int| 0 <= t < n implies nats_of(values@)[t] == decode(
            count as nat,
            n_size as nat,
        )[t] by {
            lemma_decode_index(count as nat, n_size as nat, t);
        }
        assert(nats_of(values@) =~= decode(count as nat, n_size as nat));
    }
}

/// The line reported for one evaluated vector: marked as repeated only
/// when cycle checking was on (length not a power of two) and the run
/// stopped on a recurring state.
pub open spec fn result_line(v: Seq<nat>, k: nat, pow2len: bool) -> Seq<char> {
    if !pow2len && !all_zero(ducci_iter(v, k)) {
        repeat_marker() + trace_line(v, k)
    } else {
        trace_line(v, k)
    }
}

/// Decodes candidate `i` of length `n_size` and runs the engine on it,
/// with cycle checking exactly when the length is not a power of two.
/// A power-of-two length always ends on the all-zero state.
pub fn evaluate_vector(i: u128, n_size: u64) -> (r: (String, u64))
    requires
        (i as nat) < pow(2, n_size as nat),
        n_size as nat <= usize::MAX as nat,
    ensures
        run_stops_at(decode(i as nat, n_size as nat), r.1 as nat),
        r.0@ == result_line(decode(i as nat, n_size as nat), r.1 as nat, is_pow2(n_size as nat)),
        is_pow2(n_size as nat) ==> all_zero(
            ducci_iter(decode(i as nat, n_size as nat), r.1 as nat),
        ),
{
    let ghost v = decode(i as nat, n_size as nat);
    proof {
        lemma_decode_len(i as nat, n_size as nat);
    }
    let mut values: Vec<u64> = Vec::new();
    fill_array_binary(&mut values, i, n_size);
    if is_power_of_two(n_size) {
        let r = iterate(&mut values);
        proof {
            crate::convergence::lemma_pow2_run_terminal(v, r.1 as nat);
        }
        r
    } else {
        let r = checking_iteration(&mut values);
        r
    }
}

/// Picks the result with the most iterations; on ties the earliest stays.
pub fn largest_result(results: &Vec<(String, u64)>) -> (r: (String, u64))
    requires
        results@.len() >= 1,
    ensures
        exists|i0: int|
            0 <= i0 < results@.len() && #[trigger] results@[i0] == r && (forall|j: int|
                0 <= j < results@.len() ==> (#[trigger] results@[j]).1 <= r.1) && (forall|j: int|
                0 <= j < i0 ==> (#[trigger] results@[j]).1 < r.1),
{
    let mut best_idx: usize = 0;
    let mut i: usize = 1;
    while i < results.len()
        invariant
            results@.len() >= 1,
            best_idx < i,
            i <= results@.len(),
            forall|j: int| 0 <= j < i ==> (#[trigger] results@[j]).1 <= results@[best_idx as int].1,
            forall|j: int| 0 <= j < best_idx ==> (#[trigger] results@[j]).1 < results@[
                best_idx as int
            ].1,
        decreases results@.len() - i,
    {
        if results[i].1 > results[best_idx].1 {
            best_idx = i;
        }
        i = i + 1;
    }
    let line = results[best_idx].0.clone();
    let count = results[best_idx].1;
    proof {
        assert(results@[best_idx as int] == (results@[best_idx as int].0, results@[
            best_idx as int
        ].1));
    }
    (line, count)
}

/// Evaluates every candidate vector of length `n_size` and returns the
/// result line and step count of the one that took the most steps,
/// earliest winner kept on ties.
pub fn evaluate_length(n_size: u64) -> (r: (String, u64))
    requires
        1 <= n_size < 128,
    ensures
        forall|i: int|
            0 <= i < pow(2, n_size as nat) ==> engine_stops(
                #[trigger] decode(i as nat, n_size as nat),
            ),
        exists|i0: int|
            {
                &&& 0 <= i0 < pow(2, n_size as nat)
                &&& run_stops_at(#[trigger] decode(i0 as nat, n_size as nat), r.1 as nat)
                &&& r.0@ == result_line(
                    decode(i0 as nat, n_size as nat),
                    r.1 as nat,
                    is_pow2(n_size as nat),
                )
                &&& forall|i: int, k: nat|
                    0 <= i < pow(2, n_size as nat) && #[trigger] run_stops_at(
                        decode(i as nat, n_size as nat),
                        k,
                    ) ==> k <= r.1 as nat
                &&& forall|i: int, k: nat|
                    0 <= i < i0 && #[trigger] run_stops_at(decode(i as nat, n_size as nat), k)
                        ==> k < r.1 as nat
            },
{
    let ghost total_spec: int = pow(2, n_size as nat);
    let mut total: u128 = 1;
    let mut j: u64 = 0;
    proof {
        assert(pow(2, 0) == 1) by {
            vstd::arithmetic::power::lemma_pow0(2);
        }
        vstd::arithmetic::power2::lemma2_to64();
        vstd::arithmetic::power2::lemma2_to64_rest();
        vstd::arithmetic::power2::lemma_pow2(64);
        vstd::arithmetic::power2::lemma_pow2(63);
        vstd::arithmetic::power::lemma_pow_adds(2, 64, 63);
        assert(pow(2, 127) == 0x8000_0000_0000_0000_0000_0000_0000_0000int);
    }
    while j < n_size
        invariant
            j <= n_size,
            n_size < 128,
            total as int == pow(2, j as nat),
            pow(2, 127) == 0x8000_0000_0000_0000_0000_0000_0000_0000int,
        decreases n_size - j,
    {
        proof {
            assert(pow(2, (j + 1) as nat) == 2 * pow(2, j as nat)) by {
                vstd::arithmetic::power::lemma_pow1(2);
                vstd::arithmetic::power::lemma_pow_adds(2, 1, j as nat);
            }
            assert(pow(2, (j + 1) as nat) <= pow(2, 127)) by {
                vstd::arithmetic::power::lemma_pow_increases(2, (j + 1) as nat, 127);
            }
        }
        total = total * 2;
        j = j + 1;
    }
    let mut results: Vec<(String, u64)> = Vec::new();
    let mut i: u128 = 0;
    while i < total
        invariant
            total as int == total_spec,
            total_spec == pow(2, n_size as nat),
            1 <= n_size < 128,
            i <= total,
            results@.len() == i as int,
            forall|t: int|
                0 <= t < i as int ==> run_stops_at(
                    decode(t as nat, n_size as nat),
                    (#[trigger] results@[t]).1 as nat,
                ),
            forall|t: int|
                0 <= t < i as int ==> (#[trigger] results@[t]).0@ == result_line(
                    decode(t as nat, n_size as nat),
                    results@[t].1 as nat,
                    is_pow2(n_size as nat),
                ),
        decreases total - i,
    {
        let one = evaluate_vector(i, n_size);
        results.push(one);
        i = i + 1;
    }
    proof {
        lemma_pow_positive(2, n_size as nat);
        assert forall|t: int| 0 <= t < total_spec implies engine_stops(
            #[trigger] decode(t as nat, n_size as nat),
        ) by {
            assert(run_stops_at(decode(t as nat, n_size as nat), results@[t].1 as nat));
        }
    }
    let best = largest_result(&results);
    proof {
        let i0 = choose|i0: int|
            0 <= i0 < results@.len() && #[trigger] results@[i0] == best && (forall|j: int|
                0 <= j < results@.len() ==> (#[trigger] results@[j]).1 <= best.1) && (forall|
                j: int,
            |
                0 <= j < i0 ==> (#[trigger] results@[j]).1 < best.1);
        assert forall|i: int, k: nat|
            0 <= i < total_spec && #[trigger] run_stops_at(
                decode(i as nat, n_size as nat),
                k,
            ) implies k <= best.1 as nat by {
            lemma_run_stops_at_unique(decode(i as nat, n_size as nat), k, results@[i].1 as nat);
        }
        assert forall|i: int, k: nat|
            0 <= i < i0 && #[trigger] run_stops_at(decode(i as nat, n_size as nat), k) implies k
            < best.1 as nat by {
            lemma_run_stops_at_unique(decode(i as nat, n_size as nat), k, results@[i].1 as nat);
        }
    }
    best
}


/// The log line recorded for one fully evaluated length.
pub open spec fn summary_line(n: nat, line: Seq<char>) -> Seq<char> {
    seq!['L', 'e', 'n', 'g', 't', 'h', ' '] + dec_digits(n) + seq![
        ' ',
        'L',
        'a',
        'r',
        'g',
        'e',
        's',
        't',
        ':',
        ' ',
    ] + line
}

/// Formats the summary for one evaluated length from its winning result
/// line.
pub fn format_summary(n_size: u64, line: &str) -> (r: String)
    ensures
        r@ == summary_line(n_size as nat, line@),
{
    let mut r = String::from_str("Length ");
    let digits = u64_to_string(n_size);
    r.append(digits.as_str());
    r.append(" Largest: ");
    r.append(line);
    proof {
        reveal_strlit("Length ");
        reveal_strlit(" Largest: ");
        assert(r@ =~= summary_line(n_size as nat, line@));
    }
    r
}

} // verus!
