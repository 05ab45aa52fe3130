//! The sequence engine: applies the Ducci step to one state vector until
//! the state is all zeros or a previously seen state recurs.  Keeping the
//! set of visited states is also what lets the engine prove that it stops
//! on every input: the elements never grow past the initial maximum, so
//! only finitely many states can be visited.

use vstd::prelude::*;

verus! {

use vstd::arithmetic::power::{pow, lemma_pow_positive};
use vstd::set_lib::{set_int_range, lemma_int_range};
use vstd::set_lib::lemma_len_subset;
use vstd::string::StringExecFns;
use crate::model::{
    abs_diff, all_zero, bounded_by, digits_below, distinct_prefix, ducci_iter, ducci_step, encode,
    is_pow2, lemma_ducci_iter_bounded, lemma_ducci_iter_len, lemma_encode_bound,
    lemma_encode_injective, lemma_nats_of_injective, lemma_seq_max_bounds, nats_of,
    nonzero_prefix, run_stops_at, seq_max,
};
use crate::convergence::lemma_pow2_run_terminal;
use crate::repr::{dec_digits, debug_repr, vec_debug_string, u64_to_string};

/// How a run of the engine ended: the state reached all zeros, or a state
/// was seen for the second time.
#[derive(PartialEq, Eq, Structural, Clone, Copy, Debug)]
pub enum Outcome {
    Terminal,
    Repeated,
}

/// The text reported for one run: the initial state's debug form, a colon,
/// the number of steps taken, and a line break.
pub open spec fn trace_line(v0: Seq<nat>, count: nat) -> Seq<char> {
    debug_repr(v0) + seq![' ', ':', ' '] + dec_digits(count) + seq!['\n']
}

/// The prefix that marks a run that stopped on a repeated state.
pub open spec fn repeat_marker() -> Seq<char> {
    seq!['<', 'R', 'e', 'p', 'e', 'a', 't', 'e', 'd', '>', ' ']
}

/// Checks if all values are zero.
pub fn is_zero(values: &Vec<u64>) -> (r: bool)
    ensures
        r == all_zero(nats_of(values@)),
{
    let mut i: usize = 0;
    while i < values.len()
        invariant
            i <= values.len(),
            forall|j: int| 0 <= j < i ==> values@[j] == 0,
        decreases values.len() - i,
    {
        if values[i] != 0 {
            assert(nats_of(values@)[i as int] != 0);
            return false;
        }
        i = i + 1;
    }
    true
}

/// Subtracts from each value its cyclic successor, leaving the absolute
/// difference.  This is one Ducci step; no element can underflow or grow.
pub fn subtract(values: &mut Vec<u64>)
    ensures
        nats_of(final(values)@) == ducci_step(nats_of(old(values)@)),
{
    let ghost orig: Seq<u64> = values@;
    let n = values.len();
    if n == 0 {
        proof {
            assert(nats_of(values@) =~= ducci_step(nats_of(orig)));
        }
        return ;
    }
    let original_val: u64 = values[0];
    let mut i: usize = 0;
    while i < n
        invariant
            n == values@.len(),
            n == orig.len(),
            n >= 1,
            i <= n,
            original_val == orig[0],
            forall|j: int| i <= j < n ==> values@[j] == orig[j],
            forall|j: int|
                0 <= j < i ==> values@[j] as nat == abs_diff(
                    orig[j] as nat,
                    orig[if j + 1 == n { 0int } else { j + 1 }] as nat,
                ),
        decreases n - i,
    {
        let cur = values[i];
        let next = if i + 1 < n {
            values[i + 1]
        } else {
            original_val
        };
        let d = if cur >= next {
            cur - next
        } else {
            next - cur
        };
        values[i] = d;
        i = i + 1;
    }
    proof {
        assert(nats_of(values@) =~= ducci_step(nats_of(orig)));
    }
}

/// Whether the state `v` is already among the visited states `seen`.
fn contains_state(seen: &Vec<Vec<u64>>, v: &Vec<u64>) -> (r: bool)
    ensures
        r == exists|j: int| 0 <= j < seen@.len() && #[trigger] seen@[j]@ == v@,
{
    let mut i: usize = 0;
    while i < seen.len()
        invariant
            i <= seen.len(),
            forall|j: int| 0 <= j < i ==> #[trigger] seen@[j]@ != v@,
        decreases seen.len() - i,
    {
        let mut k: usize = 0;
        let same_len = seen[i].len() == v.len();
        let mut equal = same_len;
        if same_len {
            while k < v.len()
                invariant
                    k <= v.len(),
                    i < seen.len(),
                    seen@[i as int]@.len() == v@.len(),
                    equal == forall|t: int| 0 <= t < k ==> seen@[i as int]@[t] == v@[t],
                decreases v.len() - k,
            {
                if seen[i][k] != v[k] {
                    equal = false;
                    assert(seen@[i as int]@[k as int] != v@[k as int]);
                }
                k = k + 1;
            }
        }
        if equal {
            proof {
                assert(seen@[i as int]@ =~= v@);
            }
            return true;
        }
        proof {
            if seen@[i as int]@.len() == v@.len() {
                let t = choose|t: int| 0 <= t < v@.len() && seen@[i as int]@[t] != v@[t];
                assert(seen@[i as int]@ != v@);
            } else {
                assert(seen@[i as int]@ != v@);
            }
        }
        i = i + 1;
    }
    false
}

/// Runs the engine on `values`: repeatedly applies the Ducci step, stopping
/// when the state is all zeros (`Terminal`) or when a state recurs for the
/// first time (`Repeated`).  Returns the number of steps taken.  The
/// visited-state set bounds the loop: every state stays within the initial
/// maximum, so the states of a trajectory that has not yet repeated are
/// pairwise distinct codes below a fixed bound.
pub fn run(values: &mut Vec<u64>) -> (r: (u64, Outcome))
    ensures
        run_stops_at(nats_of(old(values)@), r.0 as nat),
        nats_of(final(values)@) == ducci_iter(nats_of(old(values)@), r.0 as nat),
        final(values)@.len() == old(values)@.len(),
        r.1 == Outcome::Terminal <==> all_zero(ducci_iter(nats_of(old(values)@), r.0 as nat)),
        is_pow2(old(values)@.len()) ==> r.1 == Outcome::Terminal,
{
    let ghost v0: Seq<nat> = nats_of(values@);
    let ghost n: nat = v0.len();
    let ghost m: nat = seq_max(v0);
    let ghost bound: int = pow((m + 1) as int, n);
    proof {
        lemma_seq_max_bounds(v0);
        lemma_pow_positive((m + 1) as int, n);
    }
    let mut seen: Vec<Vec<u64>> = Vec::new();
    let ghost mut codes: Set<int> = Set::empty();
    loop
        invariant
            v0 == nats_of(old(values)@),
            n == v0.len(),
            m == seq_max(v0),
            bound == pow((m + 1) as int, n),
            bounded_by(v0, m),
            values@.len() == n,
            nats_of(values@) == ducci_iter(v0, seen@.len()),
            forall|j: int|
                0 <= j < seen@.len() ==> nats_of(#[trigger] seen@[j]@) == ducci_iter(v0, j as nat),
            distinct_prefix(v0, seen@.len()),
            nonzero_prefix(v0, seen@.len()),
            codes.finite(),
            codes.len() == seen@.len(),
            codes.subset_of(set_int_range(0, bound)),
            forall|j: int|
                0 <= j < seen@.len() ==> codes.contains(
                    #[trigger] encode(ducci_iter(v0, j as nat), m + 1) as int,
                ),
            forall|x: int| #[trigger]
                codes.contains(x) ==> exists|j: int|
                    0 <= j < seen@.len() && x == #[trigger] encode(
                        ducci_iter(v0, j as nat),
                        m + 1,
                    ) as int,
        decreases bound - seen@.len(),
    {
        let ghost k: nat = seen@.len() as nat;
        if is_zero(values) {
            let count = seen.len() as u64;
            return (count, Outcome::Terminal);
        }
        if contains_state(&seen, values) {
            proof {
                let j = choose|j: int| 0 <= j < seen@.len() && #[trigger] seen@[j]@ == values@;
                assert(ducci_iter(v0, j as nat) == ducci_iter(v0, k));
                // A power-of-two length cannot reach this stop: its runs
                // always end on the all-zero state.
                if is_pow2(n) {
                    lemma_pow2_run_terminal(v0, k);
                }
            }
            let count = seen.len() as u64;
            return (count, Outcome::Repeated);
        }
        let copy = values.clone();
        proof {
            assert(copy@ =~= values@);
        }
        seen.push(copy);
        proof {
            // The state just recorded carries a code that is new: an equal
            // code at an earlier step would mean an equal earlier state.
            let code: int = encode(ducci_iter(v0, k), m + 1) as int;
            lemma_ducci_iter_bounded(v0, m, k);
            lemma_ducci_iter_len(v0, k);
            assert(digits_below(ducci_iter(v0, k), m + 1));
            lemma_encode_bound(ducci_iter(v0, k), m + 1);
            assert(set_int_range(0, bound).contains(code));
            if codes.contains(code) {
                let j = choose|j: int|
                    0 <= j < k && code == #[trigger] encode(ducci_iter(v0, j as nat), m + 1) as int;
                lemma_ducci_iter_bounded(v0, m, j as nat);
                lemma_ducci_iter_len(v0, j as nat);
                assert(digits_below(ducci_iter(v0, j as nat), m + 1));
                lemma_encode_injective(ducci_iter(v0, j as nat), ducci_iter(v0, k), m + 1);
                assert(nats_of(seen@[j]@) == nats_of(values@));
                lemma_nats_of_injective(seen@[j]@, values@);
            }
            codes = codes.insert(code);
            lemma_int_range(0, bound);
            lemma_len_subset(codes, set_int_range(0, bound));
        }
        let ghost pre: Seq<u64> = values@;
        subtract(values);
        proof {
            assert(nats_of(values@) == ducci_iter(v0, k + 1));
            // The state that was just recorded is not equal to any earlier
            // recorded state, so the trajectory stays free of repeats.
            assert forall|j1: nat, j2: nat| j1 < j2 < k + 1 implies #[trigger] ducci_iter(
                v0,
                j1,
            ) != #[trigger] ducci_iter(v0, j2) by {
                if j2 == k {
                    assert(nats_of(seen@[j1 as int]@) == ducci_iter(v0, j1));
                    if ducci_iter(v0, j1) == ducci_iter(v0, k) {
                        lemma_nats_of_injective(seen@[j1 as int]@, pre);
                    }
                }
            }
        }
    }
}

/// A length-three state that provably cycles: `[0, 1, 1]` steps to
/// `[1, 0, 1]`, then `[1, 1, 0]`, then back to itself, so a run from it
/// stops after exactly three steps on a repeated state, never on zeros.
pub proof fn lemma_length_three_cycle()
    ensures
        run_stops_at(seq![0nat, 1nat, 1nat], 3),
        !all_zero(ducci_iter(seq![0nat, 1nat, 1nat], 3)),
{
    let s0: Seq<nat> = seq![0nat, 1nat, 1nat];
    let s1: Seq<nat> = seq![1nat, 0nat, 1nat];
    let s2: Seq<nat> = seq![1nat, 1nat, 0nat];
    assert(ducci_step(s0) =~= s1);
    assert(ducci_step(s1) =~= s2);
    assert(ducci_step(s2) =~= s0);
    assert(ducci_iter(s0, 0) == s0);
    assert(ducci_iter(s0, 1) == s1);
    assert(ducci_iter(s0, 2) == s2);
    assert(ducci_iter(s0, 3) == s0);
    assert(s0[0] == 0 && s1[1] == 0 && s2[2] == 0);
    assert(s0 != s1 && s0 != s2 && s1 != s2) by {
        assert(s0[0] != s1[0] && s0[0] != s2[0] && s1[1] != s2[1]);
    }
    assert forall|j: nat| j < 3 implies !all_zero(#[trigger] ducci_iter(s0, j)) by {
        if j == 0 {
            assert(s0[1] != 0);
        } else if j == 1 {
            assert(s1[0] != 0);
        } else {
            assert(s2[0] != 0);
        }
    }
    assert forall|j1: nat, j2: nat| j1 < j2 < 3 implies #[trigger] ducci_iter(s0, j1)
        != #[trigger] ducci_iter(s0, j2) by {
    }
    assert(ducci_iter(s0, 0) == ducci_iter(s0, 3));
    assert(s0[1] != 0);
}

/// Iterates through the array, subtracting until all values are zero, and
/// reports the initial state with the number of steps taken.  A state that
/// recurs before the zeros are reached also stops the run, with the count
/// reached by then.
pub fn iterate(values: &mut Vec<u64>) -> (r: (String, u64))
    ensures
        run_stops_at(nats_of(old(values)@), r.1 as nat),
        nats_of(final(values)@) == ducci_iter(nats_of(old(values)@), r.1 as nat),
        r.0@ == trace_line(nats_of(old(values)@), r.1 as nat),
{
    let ghost v0: Seq<nat> = nats_of(values@);
    let mut saved = vec_debug_string(values);
    saved.append(" : ");
    let (count, _outcome) = run(values);
    let digits = u64_to_string(count);
    saved.append(digits.as_str());
    saved.append("\n");
    proof {
        reveal_strlit(" : ");
        reveal_strlit("\n");
        assert(saved@ =~= trace_line(v0, count as nat));
    }
    (saved, count)
}

/// Iterates through the array, subtracting until all values are zero or a
/// repeat occurs; a repeated run is marked as such in the reported line.
pub fn checking_iteration(values: &mut Vec<u64>) -> (r: (String, u64))
    ensures
        run_stops_at(nats_of(old(values)@), r.1 as nat),
        nats_of(final(values)@) == ducci_iter(nats_of(old(values)@), r.1 as nat),
        all_zero(ducci_iter(nats_of(old(values)@), r.1 as nat)) ==> r.0@ == trace_line(
            nats_of(old(values)@),
            r.1 as nat,
        ),
        !all_zero(ducci_iter(nats_of(old(values)@), r.1 as nat)) ==> r.0@ == repeat_marker()
            + trace_line(nats_of(old(values)@), r.1 as nat),
{
    let ghost v0: Seq<nat> = nats_of(values@);
    let body = vec_debug_string(values);
    let (count, outcome) = run(values);
    let mut saved = if outcome == Outcome::Repeated {
        String::from_str("<Repeated> ")
    } else {
        String::new()
    };
    saved.append(body.as_str());
    saved.append(" : ");
    let digits = u64_to_string(count);
    saved.append(digits.as_str());
    saved.append("\n");
    proof {
        reveal_strlit(" : ");
        reveal_strlit("\n");
        reveal_strlit("<Repeated> ");
        if outcome == Outcome::Repeated {
            assert(saved@ =~= repeat_marker() + trace_line(v0, count as nat));
        } else {
            assert(saved@ =~= trace_line(v0, count as nat));
        }
    }
    (saved, count)
}

} // verus!
