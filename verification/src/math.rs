//! Integer helpers shared by the bounded queues and the classifiers.

use vstd::arithmetic::div_mod::lemma_mod_mod;
use vstd::arithmetic::power2::{
    lemma2_to64, lemma2_to64_rest, lemma_pow2_adds, lemma_pow2_pos, lemma_pow2_strictly_increases,
    pow2,
};
use vstd::prelude::*;
use vstd::relations::{sorted_by, total_ordering};
use vstd::seq_lib::{lemma_multiset_commutative, lemma_sorted_unique};

verus! {

/// Number of distinct values of a free-running 64-bit position counter.
pub open spec fn counter_modulus() -> int {
    0x1_0000_0000_0000_0000
}

/// A bounded queue's slot count: a power of two that divides the counter
/// modulus with room to spare.
pub open spec fn is_slot_count(c: int) -> bool {
    exists|k: nat| 1 <= k < 64 && c == #[trigger] pow2(k)
}

/// `r` is the slot count a queue gets when `requested` slots are asked for:
/// the least power of two that is at least 2 and at least `requested`.
pub open spec fn rounded_slot_count(requested: int, r: int) -> bool {
    &&& is_slot_count(r)
    &&& r >= 2
    &&& r >= requested
    &&& (r == 2 || r < 2 * requested)
}

/// The largest of two integers.
pub open spec fn max_int(a: int, b: int) -> int {
    if a >= b { a } else { b }
}

/// The smallest of two integers.
pub open spec fn min_int(a: int, b: int) -> int {
    if a <= b { a } else { b }
}

/// `x` limited to the range `lo ..= hi`.
pub open spec fn clamp_int(x: int, lo: int, hi: int) -> int {
    if x < lo { lo } else if x > hi { hi } else { x }
}

/// Two powers of two that both round the same request are the same number.
pub proof fn rounded_slot_count_unique(requested: int, a: int, b: int)
    requires
        rounded_slot_count(requested, a),
        rounded_slot_count(requested, b),
    ensures
        a == b,
{
    let ka = choose|k: nat| 1 <= k < 64 && a == #[trigger] pow2(k);
    let kb = choose|k: nat| 1 <= k < 64 && b == #[trigger] pow2(k);
    if ka < kb {
        lemma_slot_count_gap(ka, kb);
    } else if kb < ka {
        lemma_slot_count_gap(kb, ka);
    }
}

proof fn lemma_slot_count_gap(lo: nat, hi: nat)
    requires
        lo < hi,
    ensures
        2 * pow2(lo) <= pow2(hi),
{
    lemma_pow2_adds(lo, 1);
    lemma2_to64();
    if lo + 1 < hi {
        lemma_pow2_strictly_increases(lo + 1, hi);
    }
}

/// The slot counts in use round to themselves.
pub proof fn lemma_common_slot_counts()
    ensures
        rounded_slot_count(16, 16),
        rounded_slot_count(64, 64),
        rounded_slot_count(256, 256),
        rounded_slot_count(1024, 1024),
{
    lemma2_to64();
    assert(16 == pow2(4));
    assert(64 == pow2(6));
    assert(256 == pow2(8));
    assert(1024 == pow2(10));
}

/// A slot count that can be indexed takes up at most half of the indices.
pub proof fn lemma_slot_count_headroom(c: int)
    requires
        is_slot_count(c),
        c <= usize::MAX,
    ensures
        c <= usize::MAX / 2 + 1,
{
    let k = choose|k: nat| 1 <= k < 64 && c == #[trigger] pow2(k);
    lemma2_to64();
    lemma2_to64_rest();
    if usize::MAX == 0xffff_ffff_ffff_ffff {
        if k < 63 {
            lemma_pow2_strictly_increases(k, 63);
        }
    } else {
        if k < 31 {
            lemma_pow2_strictly_increases(k, 31);
        } else if k > 32 {
            lemma_pow2_strictly_increases(32, k);
        }
    }
}

/// A slot count divides the counter modulus.
pub proof fn lemma_slot_count_divides(c: int)
    requires
        is_slot_count(c),
    ensures
        2 <= c < counter_modulus(),
        counter_modulus() % c == 0,
        exists|q: int| q > 0 && counter_modulus() == #[trigger] (c * q),
{
    let k = choose|k: nat| 1 <= k < 64 && c == #[trigger] pow2(k);
    lemma2_to64();
    lemma2_to64_rest();
    lemma_pow2_adds(k, (64 - k) as nat);
    lemma_pow2_pos((64 - k) as nat);
    lemma_pow2_pos(k);
    lemma_pow2_strictly_increases(k, 64);
    if 1 < k {
        lemma_pow2_strictly_increases(1, k);
    }
    let q = pow2((64 - k) as nat) as int;
    assert(counter_modulus() == c * q);
    vstd::arithmetic::div_mod::lemma_mod_multiples_basic(q, c);
    assert(q * c == c * q) by (nonlinear_arith);
}

/// Reducing a wrapped counter modulo a slot count gives the slot of the
/// unwrapped position.
pub proof fn lemma_wrapped_slot(x: int, c: int)
    requires
        is_slot_count(c),
        x >= 0,
    ensures
        (x % counter_modulus()) % c == x % c,
{
    lemma_slot_count_divides(c);
    let q = choose|q: int| q > 0 && counter_modulus() == #[trigger] (c * q);
    lemma_mod_mod(x, c, q);
}

/// Two positions less than one lap apart share a slot only if they are equal.
pub proof fn lemma_slots_distinct(a: int, b: int, c: int)
    requires
        c > 0,
        a <= b < a + c,
        a % c == b % c,
    ensures
        a == b,
{
    vstd::arithmetic::div_mod::lemma_fundamental_div_mod(a, c);
    vstd::arithmetic::div_mod::lemma_fundamental_div_mod(b, c);
    let d = b / c - a / c;
    assert(b - a == c * d) by (nonlinear_arith)
        requires
            a == c * (a / c) + a % c,
            b == c * (b / c) + b % c,
            a % c == b % c,
            d == b / c - a / c,
    ;
    assert(d == 0) by (nonlinear_arith)
        requires
            b - a == c * d,
            0 <= b - a < c,
            c > 0,
    ;
    assert(c * d == 0) by (nonlinear_arith)
        requires
            d == 0,
    ;
}

/// The least power of two that is at least 2 and at least `requested`.
pub fn round_up_slot_count(requested: usize) -> (r: usize)
    requires
        requested <= usize::MAX / 2 + 1,
    ensures
        rounded_slot_count(requested as int, r as int),
{
    let mut c: usize = 2;
    let ghost mut k: nat = 1;
    proof {
        lemma2_to64();
        lemma2_to64_rest();
    }
    while c < requested
        invariant
            1 <= k < 64,
            c == pow2(k),
            c >= 2,
            c == 2 || c < 2 * requested,
            requested <= usize::MAX / 2 + 1,
        decreases 2 * requested - c,
    {
        proof {
            lemma2_to64();
            lemma2_to64_rest();
            lemma_pow2_adds(k, 1);
            if k == 63 {
                assert(c == 0x8000_0000_0000_0000);
                assert(usize::MAX <= 0xffff_ffff_ffff_ffff);
                assert(false);
            }
            k = k + 1;
        }
        c = c * 2;
    }
    proof {
        assert(1 <= k < 64 && c as int == pow2(k));
    }
    c
}

/// `x` limited to what 64 bits hold.
pub open spec fn sat64(x: int) -> int {
    min_int(x, u64::MAX as int)
}

/// The product, limited to what 64 bits hold.
pub fn saturating_product(a: u64, b: u64) -> (r: u64)
    ensures
        r == sat64(a * b),
{
    match a.checked_mul(b) {
        Some(p) => p,
        None => u64::MAX,
    }
}

/// `x` limited to the range `lo ..= hi`.
pub fn clamp_u64(x: u64, lo: u64, hi: u64) -> (r: u64)
    ensures
        r == clamp_int(x as int, lo as int, hi as int),
{
    if x < lo {
        lo
    } else if x > hi {
        hi
    } else {
        x
    }
}

/// The numbers of a sequence in ascending order.
pub open spec fn ascending(s: Seq<u64>) -> Seq<u64> {
    s.sort_by(|a: u64, b: u64| a <= b)
}

/// The middle number of a sequence in ascending order; the upper of the two
/// where the length is even.
pub open spec fn median(s: Seq<u64>) -> u64 {
    ascending(s)[s.len() as int / 2]
}

/// Sorts numbers in ascending order.
pub fn sort_ascending(values: &Vec<u64>) -> (r: Vec<u64>)
    ensures
        r@ == ascending(values@),
        r@.len() == values@.len(),
{
    let mut r: Vec<u64> = Vec::new();
    let mut i: usize = 0;
    let ghost leq = |a: u64, b: u64| a <= b;
    proof {
        assert(values@.subrange(0, 0) =~= Seq::<u64>::empty());
        assert(r@ =~= Seq::<u64>::empty());
    }
    while i < values.len()
        invariant
            i <= values@.len(),
            r@.len() == i,
            leq == (|a: u64, b: u64| a <= b),
            sorted_by(r@, leq),
            r@.to_multiset() == values@.subrange(0, i as int).to_multiset(),
        decreases values@.len() - i,
    {
        let x: u64 = values[i];
        let mut at: usize = 0;
        while at < r.len() && r[at] <= x
            invariant
                at <= r@.len(),
                forall|k: int| 0 <= k < at ==> #[trigger] r@[k] <= x,
            decreases r@.len() - at,
        {
            at += 1;
        }
        let ghost before = r@;
        r.insert(at, x);
        proof {
            assert(forall|a: int, b: int|
                0 <= a < b < before.len() ==> leq(#[trigger] before[a], #[trigger] before[b]));
            assert forall|a: int, b: int| 0 <= a < b < r@.len() implies #[trigger] leq(
                r@[a],
                r@[b],
            ) by {
                if at < before.len() {
                    assert(x < before[at as int]);
                }
                if a == at {
                    assert(r@[b] == before[b - 1]);
                    if b - 1 > at {
                        assert(leq(before[at as int], before[b - 1]));
                    }
                } else if b == at {
                    assert(r@[a] == before[a]);
                } else {
                    let ai = if a < at { a } else { a - 1 };
                    let bi = if b < at { b } else { b - 1 };
                    assert(leq(before[ai], before[bi]));
                }
            }
            before.to_multiset_ensures();
            values@.subrange(0, i as int).to_multiset_ensures();
            assert(r@.to_multiset() =~= before.to_multiset().insert(x)) by {
                lemma_insert_multiset(before, at as int, x);
            }
            assert(values@.subrange(0, i + 1) =~= values@.subrange(0, i as int).push(x));
        }
        i += 1;
    }
    proof {
        assert(values@.subrange(0, i as int) =~= values@);
        lemma_leq_total();
        values@.lemma_sort_by_ensures(leq);
        lemma_sorted_unique(r@, ascending(values@), leq);
    }
    r
}

/// The order of numbers is total.
pub proof fn lemma_leq_total()
    ensures
        total_ordering(|a: u64, b: u64| a <= b),
{
}

proof fn lemma_insert_multiset(s: Seq<u64>, at: int, x: u64)
    requires
        0 <= at <= s.len(),
    ensures
        s.insert(at, x).to_multiset() =~= s.to_multiset().insert(x),
{
    s.to_multiset_ensures();
    let l = s.subrange(0, at);
    let h = s.subrange(at, s.len() as int);
    assert(s.insert(at, x) =~= l + (seq![x] + h));
    assert(s.push(x) =~= l + (h + seq![x]));
    lemma_multiset_commutative(l, seq![x] + h);
    lemma_multiset_commutative(l, h + seq![x]);
    lemma_multiset_commutative(seq![x], h);
    lemma_multiset_commutative(h, seq![x]);
}

} // verus!
