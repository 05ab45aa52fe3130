//! The convergence theorem behind the exhaustive search: on a state
//! whose length is a power of two, the Ducci map always reaches the
//! all-zero state, so a run never stops on a repeated state.  The proof
//! is the classical one: modulo two the map is linear, so after `n`
//! steps every element is even; halving the state and repeating bounds
//! the number of steps by the number of halvings of the largest element.

use vstd::prelude::*;

verus! {

use vstd::arithmetic::power2::{pow2, lemma_pow2_pos, lemma_pow2_adds, lemma2_to64};
use vstd::arithmetic::div_mod::{
    lemma_add_mod_noop, lemma_fundamental_div_mod, lemma_mod_add_multiples_vanish,
    lemma_mod_bound, lemma_mod_multiples_basic, lemma_mod_multiples_vanish, lemma_mod_self_0,
    lemma_mod_twice, lemma_small_mod, lemma_div_is_ordered, lemma_div_multiples_vanish,
};
use crate::model::{
    abs_diff, all_zero, bounded_by, ducci_iter, ducci_step, is_pow2, lemma_ducci_iter_bounded,
    lemma_ducci_iter_len, lemma_seq_max_bounds, run_stops_at, seq_max,
};

/// Splitting an iteration count applies the two parts in turn.
pub proof fn lemma_iter_add(s: Seq<nat>, a: nat, b: nat)
    ensures
        ducci_iter(s, a + b) == ducci_iter(ducci_iter(s, a), b),
    decreases b,
{
    if b > 0 {
        lemma_iter_add(s, a, (b - 1) as nat);
        assert(ducci_iter(s, (a + b - 1) as nat) == ducci_iter(ducci_iter(s, a), (b - 1) as nat));
        assert(ducci_iter(s, a + b) == ducci_step(ducci_iter(s, (a + b - 1) as nat)));
    }
}

/// One step, modulo two: each element becomes the sum of itself and its
/// cyclic successor.
proof fn lemma_step_parity(s: Seq<nat>, i: int)
    requires
        s.len() >= 1,
        0 <= i < s.len(),
    ensures
        ducci_step(s)[i] % 2 == (s[i] + s[(i + 1) % (s.len() as int)]) % 2,
{
    let n = s.len() as int;
    let j = if i + 1 == n {
        0int
    } else {
        i + 1
    };
    assert(ducci_step(s)[i] == abs_diff(s[i], s[j]));
    assert(j == (i + 1) % n) by {
        if i + 1 == n {
            lemma_mod_self_0(n);
        } else {
            lemma_small_mod((i + 1) as nat, n as nat);
        }
    }
    let a = s[i];
    let b = s[j];
    if a >= b {
        assert((a + b) % 2 == (a - b) % 2) by {
            lemma_mod_multiples_vanish(b as int, a - b, 2);
        }
    } else {
        assert((a + b) % 2 == (b - a) % 2) by {
            lemma_mod_multiples_vanish(a as int, b - a, 2);
        }
    }
}

/// Iterating `2^m` steps, modulo two: each element becomes the sum of
/// itself and the element `2^m` places around the cycle, since doubling
/// the step count telescopes the intermediate terms away.
proof fn lemma_iter_pow2_parity(s: Seq<nat>, m: nat)
    requires
        s.len() >= 1,
    ensures
        forall|i: int|
            0 <= i < s.len() ==> #[trigger] ducci_iter(s, pow2(m))[i] % 2 == (s[i] + s[(i + pow2(
                m,
            )) % (s.len() as int)]) % 2,
    decreases m,
{
    let n = s.len() as int;
    if m == 0 {
        lemma2_to64();
        assert(pow2(0) == 1);
        assert forall|i: int| 0 <= i < n implies #[trigger] ducci_iter(s, pow2(0))[i] % 2 == (s[i]
            + s[(i + pow2(0)) % n]) % 2 by {
            assert(ducci_iter(s, 1) == ducci_step(ducci_iter(s, 0)));
            lemma_step_parity(s, i);
        }
    } else {
        let p = pow2((m - 1) as nat);
        lemma_pow2_pos((m - 1) as nat);
        assert(pow2(m) == p + p) by {
            lemma_pow2_adds((m - 1) as nat, 1);
            lemma2_to64();
        }
        let w = ducci_iter(s, p);
        lemma_ducci_iter_len(s, p);
        lemma_iter_pow2_parity(s, (m - 1) as nat);
        lemma_iter_pow2_parity(w, (m - 1) as nat);
        lemma_iter_add(s, p, p);
        assert(ducci_iter(s, pow2(m)) == ducci_iter(w, p));
        assert forall|i: int| 0 <= i < n implies #[trigger] ducci_iter(s, pow2(m))[i] % 2 == (s[i]
            + s[(i + pow2(m)) % n]) % 2 by {
            let i2 = (i + p) % n;
            lemma_mod_bound(i + p, n);
            assert(0 <= i2 < n);
            assert(w[i] % 2 == (s[i] + s[i2]) % 2);
            let i3 = (i2 + p) % n;
            assert(ducci_iter(w, p)[i] % 2 == (w[i] + w[i2]) % 2);
            assert(w[i2] % 2 == (s[i2] + s[i3]) % 2);
            assert(i3 == (i + pow2(m)) % n) by {
                let pi: int = p as int;
                lemma_add_mod_noop(i2, pi, n);
                lemma_mod_twice(i + pi, n);
                lemma_add_mod_noop(i + pi, pi, n);
                assert((i2 % n + pi % n) % n == (i2 + pi) % n);
                assert(i2 % n == i2);
                assert(((i + pi) % n + pi % n) % n == (i + pi + pi) % n);
            }
            let x1 = s[i];
            let x2 = s[i2];
            let x3 = s[i3];
            let va = w[i];
            let vb = w[i2];
            assert((va + vb) % 2 == (va % 2 + vb % 2) % 2) by {
                lemma_add_mod_noop(va as int, vb as int, 2);
            }
            assert(((x1 + x2) % 2 + (x2 + x3) % 2) % 2 == (x1 + x2 + x2 + x3) % 2) by {
                lemma_add_mod_noop((x1 + x2) as int, (x2 + x3) as int, 2);
            }
            assert((x1 + x2 + x2 + x3) % 2 == (x1 + x3) % 2) by {
                lemma_mod_multiples_vanish(x2 as int, (x1 + x3) as int, 2);
            }
        }
    }
}

/// Every element of the state is even.
pub open spec fn all_even(s: Seq<nat>) -> bool {
    forall|i: int| 0 <= i < s.len() ==> #[trigger] s[i] % 2 == 0
}

/// After as many steps as the length, a power-of-two-length state is
/// even everywhere: each element has become the sum of itself and the
/// element a full cycle away, that is, twice itself, modulo two.
proof fn lemma_iter_full_cycle_even(s: Seq<nat>, m: nat)
    requires
        s.len() == pow2(m),
    ensures
        all_even(ducci_iter(s, s.len())),
{
    let n = s.len() as int;
    lemma_pow2_pos(m);
    lemma_iter_pow2_parity(s, m);
    lemma_ducci_iter_len(s, s.len());
    assert forall|i: int| 0 <= i < n implies #[trigger] ducci_iter(s, s.len())[i] % 2 == 0 by {
        assert(ducci_iter(s, pow2(m))[i] % 2 == (s[i] + s[(i + pow2(m)) % n]) % 2);
        assert((i + n) % n == i) by {
            lemma_mod_add_multiples_vanish(i, n);
            lemma_small_mod(i as nat, n as nat);
        }
        assert((s[i] + s[i]) % 2 == 0) by {
            lemma_mod_multiples_basic(s[i] as int, 2);
            assert(s[i] + s[i] == s[i] * 2);
        }
    }
}

/// A length that satisfies the power-of-two test is some power of two.
proof fn lemma_is_pow2_exists(n: nat)
    requires
        is_pow2(n),
    ensures
        exists|m: nat| n == pow2(m),
    decreases n,
{
    if n == 1 {
        lemma2_to64();
        assert(n == pow2(0));
    } else {
        lemma_is_pow2_exists(n / 2);
        let m = choose|m: nat| n / 2 == pow2(m);
        assert(n == 2 * (n / 2)) by {
            lemma_fundamental_div_mod(n as int, 2);
        }
        assert(n == pow2(m + 1)) by {
            lemma_pow2_adds(m, 1);
            lemma2_to64();
        }
    }
}

/// The state with every element halved.
pub open spec fn half_seq(s: Seq<nat>) -> Seq<nat> {
    Seq::new(s.len(), |i: int| s[i] / 2)
}

/// On an all-even state, halving commutes with the Ducci step, and the
/// step keeps the state even.
proof fn lemma_step_half_commutes(s: Seq<nat>)
    requires
        all_even(s),
    ensures
        all_even(ducci_step(s)),
        ducci_step(half_seq(s)) == half_seq(ducci_step(s)),
{
    let n = s.len() as int;
    assert forall|i: int| 0 <= i < n implies #[trigger] ducci_step(s)[i] % 2 == 0
        && ducci_step(half_seq(s))[i] == half_seq(ducci_step(s))[i] by {
        let j = if i + 1 == n {
            0int
        } else {
            i + 1
        };
        let a = s[i];
        let b = s[j];
        assert(a % 2 == 0 && b % 2 == 0);
        assert(a == 2 * (a / 2)) by {
            lemma_fundamental_div_mod(a as int, 2);
        }
        assert(b == 2 * (b / 2)) by {
            lemma_fundamental_div_mod(b as int, 2);
        }
        assert(ducci_step(s)[i] == abs_diff(a, b));
        assert(ducci_step(half_seq(s))[i] == abs_diff(a / 2, b / 2));
        if a >= b {
            assert(a - b == 2 * (a / 2 - b / 2));
            assert(abs_diff(a, b) % 2 == 0) by {
                lemma_mod_multiples_basic(a as int / 2 - b as int / 2, 2);
            }
            assert(abs_diff(a, b) / 2 == a / 2 - b / 2) by {
                lemma_div_multiples_vanish(a as int / 2 - b as int / 2, 2);
            }
        } else {
            assert(b - a == 2 * (b / 2 - a / 2));
            assert(abs_diff(a, b) % 2 == 0) by {
                lemma_mod_multiples_basic(b as int / 2 - a as int / 2, 2);
            }
            assert(abs_diff(a, b) / 2 == b / 2 - a / 2) by {
                lemma_div_multiples_vanish(b as int / 2 - a as int / 2, 2);
            }
        }
    }
    assert(ducci_step(half_seq(s)) =~= half_seq(ducci_step(s)));
}

/// On an all-even state, halving commutes with any number of steps, and
/// the whole trajectory stays even.
proof fn lemma_iter_half_commutes(s: Seq<nat>, k: nat)
    requires
        all_even(s),
    ensures
        all_even(ducci_iter(s, k)),
        ducci_iter(half_seq(s), k) == half_seq(ducci_iter(s, k)),
    decreases k,
{
    if k > 0 {
        lemma_iter_half_commutes(s, (k - 1) as nat);
        lemma_step_half_commutes(ducci_iter(s, (k - 1) as nat));
    }
}

/// A state of power-of-two length reaches the all-zero state in some
/// finite number of steps: after one full cycle of steps every element
/// is even, and halving then descends on the largest element.
pub proof fn lemma_pow2_len_converges(s: Seq<nat>, m: nat, bound: nat)
    requires
        s.len() == pow2(m),
        bounded_by(s, bound),
    ensures
        exists|k: nat| all_zero(#[trigger] ducci_iter(s, k)),
    decreases bound,
{
    let n = s.len();
    lemma_pow2_pos(m);
    if bound == 0 {
        assert(all_zero(ducci_iter(s, 0)));
    } else {
        let w = ducci_iter(s, n);
        lemma_iter_full_cycle_even(s, m);
        lemma_ducci_iter_len(s, n);
        lemma_ducci_iter_bounded(s, bound, n);
        let h = half_seq(w);
        assert(bounded_by(h, bound / 2)) by {
            assert forall|i: int| 0 <= i < h.len() implies #[trigger] h[i] <= bound / 2 by {
                lemma_div_is_ordered(w[i] as int, bound as int, 2);
            }
        }
        lemma_pow2_len_converges(h, m, bound / 2);
        let k = choose|k: nat| all_zero(#[trigger] ducci_iter(h, k));
        lemma_iter_half_commutes(w, k);
        assert(all_zero(ducci_iter(w, k))) by {
            lemma_ducci_iter_len(w, k);
            assert forall|i: int| 0 <= i < ducci_iter(w, k).len() implies #[trigger] ducci_iter(
                w,
                k,
            )[i] == 0 by {
                let x = ducci_iter(w, k)[i];
                assert(ducci_iter(h, k)[i] == x / 2);
                assert(x / 2 == 0);
                assert(x % 2 == 0);
                assert(x == 2 * (x / 2) + x % 2) by {
                    lemma_fundamental_div_mod(x as int, 2);
                }
            }
        }
        lemma_iter_add(s, n, k);
        assert(all_zero(ducci_iter(s, n + k)));
    }
}

/// Every step after a recurrence replays the trajectory from the state
/// that recurred.
proof fn lemma_repeat_replays(s: Seq<nat>, j0: nat, k: nat, t: nat)
    requires
        ducci_iter(s, j0) == ducci_iter(s, k),
    ensures
        ducci_iter(s, k + t) == ducci_iter(s, j0 + t),
{
    lemma_iter_add(s, k, t);
    lemma_iter_add(s, j0, t);
}

/// Once a state has recurred, every later state equals one of the states
/// seen between the two occurrences.
proof fn lemma_trajectory_cycles(s: Seq<nat>, j0: nat, k: nat, t: nat)
    requires
        j0 < k,
        ducci_iter(s, j0) == ducci_iter(s, k),
        t >= j0,
    ensures
        exists|j: nat| j0 <= j < k && ducci_iter(s, t) == #[trigger] ducci_iter(s, j),
    decreases t,
{
    if t < k {
        assert(ducci_iter(s, t) == ducci_iter(s, t));
    } else {
        let t2 = (t - (k - j0)) as nat;
        lemma_repeat_replays(s, j0, k, (t - k) as nat);
        assert(ducci_iter(s, t) == ducci_iter(s, t2));
        lemma_trajectory_cycles(s, j0, k, t2);
        let j = choose|j: nat| j0 <= j < k && ducci_iter(s, t2) == #[trigger] ducci_iter(s, j);
        assert(ducci_iter(s, t) == ducci_iter(s, j));
    }
}

/// On a state whose length is a power of two, the engine never stops on
/// a repeated state: wherever it stops, the state there is all zeros.
/// A recurrence before the zeros would trap the trajectory in a cycle of
/// non-terminal states, while convergence guarantees the zeros are
/// reached.
pub proof fn lemma_pow2_run_terminal(s: Seq<nat>, k: nat)
    requires
        is_pow2(s.len()),
        run_stops_at(s, k),
    ensures
        all_zero(ducci_iter(s, k)),
{
    if !all_zero(ducci_iter(s, k)) {
        let j0 = choose|j: nat| j < k && #[trigger] ducci_iter(s, j) == ducci_iter(s, k);
        lemma_is_pow2_exists(s.len());
        let m = choose|m: nat| s.len() == pow2(m);
        lemma_seq_max_bounds(s);
        lemma_pow2_len_converges(s, m, seq_max(s));
        let kz = choose|kz: nat| all_zero(#[trigger] ducci_iter(s, kz));
        if kz < k {
            assert(!all_zero(ducci_iter(s, kz)));  // from nonzero_prefix(s, k)
        } else {
            lemma_trajectory_cycles(s, j0, k, kz);
            let j = choose|j: nat| j0 <= j < k && ducci_iter(s, kz) == #[trigger] ducci_iter(s, j);
            assert(!all_zero(ducci_iter(s, j)));  // from nonzero_prefix(s, k)
        }
    }
}

} // verus!
