//! Decimal text for state vectors: the digits of a value, the debug form
//! `[a, b, c]` used in trace and log lines, and the delimited storage key
//! that identifies a state.

use vstd::prelude::*;

verus! {

use vstd::string::StringExecFns;
use crate::model::nats_of;

/// The character for one decimal digit.
pub open spec fn digit_char(d: nat) -> char {
    if d == 0 {
        '0'
    } else if d == 1 {
        '1'
    } else if d == 2 {
        '2'
    } else if d == 3 {
        '3'
    } else if d == 4 {
        '4'
    } else if d == 5 {
        '5'
    } else if d == 6 {
        '6'
    } else if d == 7 {
        '7'
    } else if d == 8 {
        '8'
    } else {
        '9'
    }
}

/// The decimal digits of `n`, most significant first.
pub open spec fn dec_digits(n: nat) -> Seq<char>
    decreases n,
{
    if n < 10 {
        seq![digit_char(n)]
    } else {
        dec_digits(n / 10).push(digit_char(n % 10))
    }
}

/// The decimal forms of the elements of `s`, separated by `sep`.
pub open spec fn joined(s: Seq<nat>, sep: Seq<char>) -> Seq<char>
    decreases s.len(),
{
    if s.len() == 0 {
        Seq::empty()
    } else if s.len() == 1 {
        dec_digits(s[0])
    } else {
        joined(s.drop_last(), sep) + sep + dec_digits(s.last())
    }
}

/// The debug form of a state vector: `[a, b, c]`.
pub open spec fn debug_repr(s: Seq<nat>) -> Seq<char> {
    seq!['['] + joined(s, seq![',', ' ']) + seq![']']
}

/// The canonical key of a state vector: its values, comma-delimited, so
/// that distinct vectors never share a key.
pub open spec fn storage_key(s: Seq<nat>) -> Seq<char> {
    joined(s, seq![','])
}

/// One of the ten decimal digit characters.
pub open spec fn is_digit_char(c: char) -> bool {
    c == '0' || c == '1' || c == '2' || c == '3' || c == '4' || c == '5' || c == '6' || c == '7'
        || c == '8' || c == '9'
}

/// A decimal form is never empty and holds digit characters only, so it
/// never holds the key delimiter.
pub proof fn lemma_dec_digits_shape(n: nat)
    ensures
        dec_digits(n).len() >= 1,
        forall|i: int| 0 <= i < dec_digits(n).len() ==> is_digit_char(#[trigger] dec_digits(n)[i]),
    decreases n,
{
    if n >= 10 {
        lemma_dec_digits_shape(n / 10);
    }
}

proof fn lemma_digit_char_injective(a: nat, b: nat)
    requires
        a < 10,
        b < 10,
        digit_char(a) == digit_char(b),
    ensures
        a == b,
{
}

/// Distinct values have distinct decimal forms.
pub proof fn lemma_dec_digits_injective(n1: nat, n2: nat)
    requires
        dec_digits(n1) == dec_digits(n2),
    ensures
        n1 == n2,
    decreases n1,
{
    lemma_dec_digits_shape(n1);
    lemma_dec_digits_shape(n2);
    if n1 < 10 && n2 < 10 {
        assert(dec_digits(n1) == seq![digit_char(n1)]);
        assert(dec_digits(n2) == seq![digit_char(n2)]);
        assert(dec_digits(n1)[0] == digit_char(n1));
        assert(dec_digits(n2)[0] == digit_char(n2));
        lemma_digit_char_injective(n1, n2);
    } else if n1 < 10 {
        assert(dec_digits(n2).len() == dec_digits(n2 / 10).len() + 1);
        lemma_dec_digits_shape(n2 / 10);
    } else if n2 < 10 {
        assert(dec_digits(n1).len() == dec_digits(n1 / 10).len() + 1);
        lemma_dec_digits_shape(n1 / 10);
    } else {
        assert(dec_digits(n1) == dec_digits(n1 / 10).push(digit_char(n1 % 10)));
        assert(dec_digits(n2) == dec_digits(n2 / 10).push(digit_char(n2 % 10)));
        assert(dec_digits(n1).last() == digit_char(n1 % 10));
        assert(dec_digits(n2).last() == digit_char(n2 % 10));
        lemma_digit_char_injective(n1 % 10, n2 % 10);
        assert(n1 % 10 == n2 % 10);
        assert(dec_digits(n1).drop_last() =~= dec_digits(n1 / 10));
        assert(dec_digits(n2).drop_last() =~= dec_digits(n2 / 10));
        lemma_dec_digits_injective(n1 / 10, n2 / 10);
        assert(n1 == 10 * (n1 / 10) + n1 % 10) by {
            vstd::arithmetic::div_mod::lemma_fundamental_div_mod(n1 as int, 10);
        }
        assert(n2 == 10 * (n2 / 10) + n2 % 10) by {
            vstd::arithmetic::div_mod::lemma_fundamental_div_mod(n2 as int, 10);
        }
    }
}

proof fn lemma_storage_key_min_len(s: Seq<nat>)
    requires
        s.len() >= 1,
    ensures
        storage_key(s).len() >= 1,
    decreases s.len(),
{
    if s.len() == 1 {
        lemma_dec_digits_shape(s[0]);
    } else {
        lemma_storage_key_min_len(s.drop_last());
        lemma_dec_digits_shape(s.last());
    }
}

/// The delimited storage key uniquely determines the vector's values:
/// two states share a key only if they are the same state, so the
/// visited-state set can never confuse distinct states.
pub proof fn lemma_storage_key_injective(s1: Seq<nat>, s2: Seq<nat>)
    requires
        storage_key(s1) == storage_key(s2),
    ensures
        s1 == s2,
    decreases s1.len() + s2.len(),
{
    let k1 = storage_key(s1);
    let k2 = storage_key(s2);
    if s1.len() == 0 {
        if s2.len() >= 1 {
            lemma_storage_key_min_len(s2);
        }
        assert(s1 =~= s2);
    } else if s2.len() == 0 {
        lemma_storage_key_min_len(s1);
        assert(s1 =~= s2);
    } else if s1.len() == 1 && s2.len() == 1 {
        lemma_dec_digits_injective(s1[0], s2[0]);
        assert(s1 =~= s2);
    } else if s1.len() == 1 {
        // One key is all digits, the other carries the delimiter.
        lemma_dec_digits_shape(s1[0]);
        let a2 = storage_key(s2.drop_last());
        assert(k2 == a2 + seq![','] + dec_digits(s2.last()));
        assert(k2[a2.len() as int] == ',');
        assert(is_digit_char(k1[a2.len() as int]));
    } else if s2.len() == 1 {
        lemma_dec_digits_shape(s2[0]);
        let a1 = storage_key(s1.drop_last());
        assert(k1 == a1 + seq![','] + dec_digits(s1.last()));
        assert(k1[a1.len() as int] == ',');
        assert(is_digit_char(k2[a1.len() as int]));
    } else {
        let a1 = storage_key(s1.drop_last());
        let d1 = dec_digits(s1.last());
        let a2 = storage_key(s2.drop_last());
        let d2 = dec_digits(s2.last());
        assert(k1 == a1 + seq![','] + d1);
        assert(k2 == a2 + seq![','] + d2);
        lemma_dec_digits_shape(s1.last());
        lemma_dec_digits_shape(s2.last());
        if d1.len() == d2.len() {
            assert(a1.len() == a2.len());
            assert forall|i: int| 0 <= i < d1.len() implies d1[i] == d2[i] by {
                assert(k1[a1.len() + 1 + i] == d1[i]);
                assert(k2[a2.len() + 1 + i] == d2[i]);
            }
            assert(d1 =~= d2);
            lemma_dec_digits_injective(s1.last(), s2.last());
            assert forall|i: int| 0 <= i < a1.len() implies a1[i] == a2[i] by {
                assert(k1[i] == a1[i]);
                assert(k2[i] == a2[i]);
            }
            assert(a1 =~= a2);
            lemma_storage_key_injective(s1.drop_last(), s2.drop_last());
            assert(s1 =~= s1.drop_last().push(s1.last()));
            assert(s2 =~= s2.drop_last().push(s2.last()));
        } else if d1.len() < d2.len() {
            // The delimiter before the shorter final segment would have
            // to stand inside the longer one, which holds digits only.
            let p = k1.len() - 1 - d1.len();
            assert(k1[p] == ',');
            assert(p >= a2.len() + 1);
            assert(k2[p] == d2[p - a2.len() - 1]);
            assert(is_digit_char(d2[p - a2.len() - 1]));
        } else {
            let p = k2.len() - 1 - d2.len();
            assert(k2[p] == ',');
            assert(p >= a1.len() + 1);
            assert(k1[p] == d1[p - a1.len() - 1]);
            assert(is_digit_char(d1[p - a1.len() - 1]));
        }
    }
}

fn digit_str(d: u64) -> (r: &'static str)
    requires
        d < 10,
    ensures
        r@ == seq![digit_char(d as nat)],
{
    let r: &'static str = if d == 0 {
        "0"
    } else if d == 1 {
        "1"
    } else if d == 2 {
        "2"
    } else if d == 3 {
        "3"
    } else if d == 4 {
        "4"
    } else if d == 5 {
        "5"
    } else if d == 6 {
        "6"
    } else if d == 7 {
        "7"
    } else if d == 8 {
        "8"
    } else {
        "9"
    };
    proof {
        reveal_strlit("0");
        reveal_strlit("1");
        reveal_strlit("2");
        reveal_strlit("3");
        reveal_strlit("4");
        reveal_strlit("5");
        reveal_strlit("6");
        reveal_strlit("7");
        reveal_strlit("8");
        reveal_strlit("9");
        assert(r@ =~= seq![digit_char(d as nat)]);
    }
    r
}

/// The decimal text of a machine word.
pub fn u64_to_string(n: u64) -> (r: String)
    ensures
        r@ == dec_digits(n as nat),
    decreases n,
{
    if n < 10 {
        String::from_str(digit_str(n))
    } else {
        let mut r = u64_to_string(n / 10);
        r.append(digit_str(n % 10));
        proof {
            assert(r@ =~= dec_digits((n / 10) as nat).push(digit_char((n % 10) as nat)));
        }
        r
    }
}

/// The debug form `[a, b, c]` of a state vector.
pub fn vec_debug_string(values: &Vec<u64>) -> (r: String)
    ensures
        r@ == debug_repr(nats_of(values@)),
{
    let ghost full: Seq<nat> = nats_of(values@);
    let mut r = String::from_str("[");
    proof {
        reveal_strlit("[");
        assert(r@ =~= seq!['['] + joined(full.take(0), seq![',', ' ']));
    }
    let mut i: usize = 0;
    while i < values.len()
        invariant
            i <= values.len(),
            full == nats_of(values@),
            full.len() == values@.len(),
            r@ == seq!['['] + joined(full.take(i as int), seq![',', ' ']),
        decreases values.len() - i,
    {
        if i > 0 {
            r.append(", ");
        }
        let digits = u64_to_string(values[i]);
        r.append(digits.as_str());
        proof {
            reveal_strlit(", ");
            assert(full.take(i + 1).drop_last() =~= full.take(i as int));
            assert(full.take(i + 1).last() == full[i as int]);
            assert(full[i as int] == values@[i as int] as nat);
            if i == 0 {
                assert(joined(full.take(1), seq![',', ' ']) == dec_digits(full[0]));
            }
            assert(r@ =~= seq!['['] + joined(full.take(i + 1), seq![',', ' ']));
        }
        i = i + 1;
    }
    r.append("]");
    proof {
        reveal_strlit("]");
        assert(full.take(full.len() as int) =~= full);
        assert(r@ =~= debug_repr(full));
    }
    r
}

/// The canonical storage key of a state vector, comma-delimited.
pub fn get_storage_str(values: &mut Vec<u64>) -> (r: String)
    ensures
        r@ == storage_key(nats_of(old(values)@)),
        final(values)@ == old(values)@,
{
    let ghost full: Seq<nat> = nats_of(values@);
    let mut r = String::new();
    proof {
        assert(r@ =~= joined(full.take(0), seq![',']));
    }
    let mut i: usize = 0;
    while i < values.len()
        invariant
            i <= values.len(),
            full == nats_of(values@),
            full.len() == values@.len(),
            r@ == joined(full.take(i as int), seq![',']),
        decreases values.len() - i,
    {
        if i > 0 {
            r.append(",");
        }
        let digits = u64_to_string(values[i]);
        r.append(digits.as_str());
        proof {
            reveal_strlit(",");
            assert(full.take(i + 1).drop_last() =~= full.take(i as int));
            assert(full.take(i + 1).last() == full[i as int]);
            assert(full[i as int] == values@[i as int] as nat);
            if i == 0 {
                assert(joined(full.take(1), seq![',']) == dec_digits(full[0]));
            }
            assert(r@ =~= joined(full.take(i + 1), seq![',']));
        }
        i = i + 1;
    }
    proof {
        assert(full.take(full.len() as int) =~= full);
    }
    r
}

} // verus!
