//! The tribonacci generators: the exact linear recurrence at machine-word
//! precision, and the seed-vector fillers that hand four consecutive
//! tribonacci values to the sequence engine.

use vstd::prelude::*;

verus! {

use crate::model::nats_of;
use crate::rng::random_below;

/// The tribonacci sequence: zero, zero, one, then the sum of the three
/// preceding values.
pub open spec fn trib(k: nat) -> nat
    decreases k,
{
    if k < 2 {
        0
    } else if k == 2 {
        1
    } else {
        trib((k - 1) as nat) + trib((k - 2) as nat) + trib((k - 3) as nat)
    }
}

/// Four consecutive tribonacci values from `s` on.
pub open spec fn trib_window(s: nat) -> Seq<nat> {
    Seq::new(4, |t: int| trib((s + t) as nat))
}

/// The largest start index whose four-value window still fits in a
/// machine word.
pub const MAX_TRIB_INDEX: u64 = 72;

/// The sequence never decreases from one index to the next.
pub proof fn lemma_trib_step_le(k: nat)
    ensures
        trib(k) <= trib((k + 1) as nat),
{
}

pub proof fn lemma_trib_mono(a: nat, b: nat)
    requires
        a <= b,
    ensures
        trib(a) <= trib(b),
    decreases b - a,
{
    if a < b {
        lemma_trib_mono(a, (b - 1) as nat);
        lemma_trib_step_le((b - 1) as nat);
    }
}

/// The last window value still representable in a machine word: the
/// value at index 75, three past the largest supported start index.
pub proof fn lemma_trib_values()
    ensures
        trib(75) == 12903063846126135669,
{
    assert(trib(0) == 0);
    assert(trib(1) == 0);
    assert(trib(2) == 1);
    assert(trib(3) == 1);
    assert(trib(4) == 2);
    assert(trib(5) == 4);
    assert(trib(6) == 7);
    assert(trib(7) == 13);
    assert(trib(8) == 24);
    assert(trib(9) == 44);
    assert(trib(10) == 81);
    assert(trib(11) == 149);
    assert(trib(12) == 274);
    assert(trib(13) == 504);
    assert(trib(14) == 927);
    assert(trib(15) == 1705);
    assert(trib(16) == 3136);
    assert(trib(17) == 5768);
    assert(trib(18) == 10609);
    assert(trib(19) == 19513);
    assert(trib(20) == 35890);
    assert(trib(21) == 66012);
    assert(trib(22) == 121415);
    assert(trib(23) == 223317);
    assert(trib(24) == 410744);
    assert(trib(25) == 755476);
    assert(trib(26) == 1389537);
    assert(trib(27) == 2555757);
    assert(trib(28) == 4700770);
    assert(trib(29) == 8646064);
    assert(trib(30) == 15902591);
    assert(trib(31) == 29249425);
    assert(trib(32) == 53798080);
    assert(trib(33) == 98950096);
    assert(trib(34) == 181997601);
    assert(trib(35) == 334745777);
    assert(trib(36) == 615693474);
    assert(trib(37) == 1132436852);
    assert(trib(38) == 2082876103);
    assert(trib(39) == 3831006429);
    assert(trib(40) == 7046319384);
    assert(trib(41) == 12960201916);
    assert(trib(42) == 23837527729);
    assert(trib(43) == 43844049029);
    assert(trib(44) == 80641778674);
    assert(trib(45) == 148323355432);
    assert(trib(46) == 272809183135);
    assert(trib(47) == 501774317241);
    assert(trib(48) == 922906855808);
    assert(trib(49) == 1697490356184);
    assert(trib(50) == 3122171529233);
    assert(trib(51) == 5742568741225);
    assert(trib(52) == 10562230626642);
    assert(trib(53) == 19426970897100);
    assert(trib(54) == 35731770264967);
    assert(trib(55) == 65720971788709);
    assert(trib(56) == 120879712950776);
    assert(trib(57) == 222332455004452);
    assert(trib(58) == 408933139743937);
    assert(trib(59) == 752145307699165);
    assert(trib(60) == 1383410902447554);
    assert(trib(61) == 2544489349890656);
    assert(trib(62) == 4680045560037375);
    assert(trib(63) == 8607945812375585);
    assert(trib(64) == 15832480722303616);
    assert(trib(65) == 29120472094716576);
    assert(trib(66) == 53560898629395777);
    assert(trib(67) == 98513851446415969);
    assert(trib(68) == 181195222170528322);
    assert(trib(69) == 333269972246340068);
    assert(trib(70) == 612979045863284359);
    assert(trib(71) == 1127444240280152749);
    assert(trib(72) == 2073693258389777176);
    assert(trib(73) == 3814116544533214284);
    assert(trib(74) == 7015254043203144209);
    assert(trib(75) == 12903063846126135669);
}

/// Gets the four tribonacci values from the start index on (including the
/// start index), by iterating the exact recurrence from the base case.
pub fn generate_trib_sequence(start_index: u64) -> (r: Vec<u64>)
    requires
        start_index <= MAX_TRIB_INDEX,
    ensures
        nats_of(r@) == trib_window(start_index as nat),
        r@.len() == 4,
{
    proof {
        lemma_trib_values();
    }
    let mut a: u64 = 0;
    let mut b: u64 = 0;
    let mut c: u64 = 1;
    let mut k: u64 = 0;
    while k < start_index
        invariant
            k <= start_index <= 72,
            a as nat == trib(k as nat),
            b as nat == trib((k + 1) as nat),
            c as nat == trib((k + 2) as nat),
            trib(75) == 12903063846126135669,
        decreases start_index - k,
    {
        proof {
            lemma_trib_mono((k + 3) as nat, 75);
        }
        let d = a + b + c;
        a = b;
        b = c;
        c = d;
        k = k + 1;
    }
    proof {
        lemma_trib_mono((start_index + 3) as nat, 75);
    }
    let d = a + b + c;
    let mut r: Vec<u64> = Vec::new();
    r.push(a);
    r.push(b);
    r.push(c);
    r.push(d);
    proof {
        assert(nats_of(r@) =~= trib_window(start_index as nat));
    }
    r
}

/// Fills the array with the window at a set index of the tribonacci
/// sequence.
pub fn fill_array_set_trib(values: &mut Vec<u64>, index: u64)
    requires
        index <= MAX_TRIB_INDEX,
    ensures
        nats_of(final(values)@) == nats_of(old(values)@) + trib_window(index as nat),
{
    let mut window = generate_trib_sequence(index);
    values.append(&mut window);
    proof {
        assert(nats_of(values@) =~= nats_of(old(values)@) + trib_window(index as nat));
    }
}

/// Fills the array with the window at a random start index.
pub fn fill_array_trib(values: &mut Vec<u64>)
    ensures
        exists|s: nat|
            s <= MAX_TRIB_INDEX && nats_of(final(values)@) == nats_of(old(values)@)
                + #[trigger] trib_window(s),
{
    let random_index = random_below(MAX_TRIB_INDEX + 1);
    fill_array_set_trib(values, random_index);
}

/// Fills the array with randomized values below ten thousand.
pub fn fill_array_rand(values: &mut Vec<u64>)
    ensures
        final(values)@.len() == old(values)@.len(),
        forall|t: int| 0 <= t < final(values)@.len() ==> final(values)@[t] < 10000,
{
    let mut i: usize = 0;
    while i < values.len()
        invariant
            i <= values@.len(),
            values@.len() == old(values)@.len(),
            forall|t: int| 0 <= t < i ==> values@[t] < 10000,
        decreases values@.len() - i,
    {
        let v = random_below(10000);
        values[i] = v;
        i = i + 1;
    }
}

} // verus!
