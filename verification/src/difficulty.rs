//! Difficulty adjustment algorithm

use crate::encoding::{
    le_bytes, le_value, lemma_le_bytes_len, lemma_le_bytes_max, lemma_le_bytes_of_value,
    lemma_le_value_bound, lemma_le_value_of_bytes, lemma_le_value_push, pow256,
};
use crate::types::{
    bytes32_lt, bytes_lt, compact_in_range, compact_of, from_compact_bytes, has_compact_form,
    spec_compact, spec_from_compact, Hash32, Target,
};
use vstd::prelude::*;

verus! {

/// The measured time span held to within 25% of the target time (7200 s):
/// at least 5400 s and at most 9000 s.
pub open spec fn clamped_span(actual_time_span: u64) -> nat {
    if actual_time_span > 9000 {
        9000
    } else if actual_time_span < 5400 {
        5400
    } else {
        actual_time_span as nat
    }
}

/// The number a target stands for, its 32 bytes read big-endian.
pub open spec fn target_value(t: Seq<u8>) -> nat {
    le_value(t.reverse())
}

/// The largest target, all 32 bytes 0xFF.
pub open spec fn max_target_value() -> nat {
    (pow256(32) - 1) as nat
}

/// The 32 bytes, big-endian, of a number that fits in them.
pub open spec fn target_bytes(v: nat) -> Seq<u8> {
    le_bytes(v, 32).reverse()
}

/// The adjusted target as a number: the old target times the clamped factor
/// `actual_time_span / 7200`, rounded down, and at most the largest target.
pub open spec fn adjusted_value(old: Seq<u8>, actual_time_span: u64) -> nat {
    let v = target_value(old) * clamped_span(actual_time_span) / 7200;
    if v > max_target_value() {
        max_target_value()
    } else {
        v
    }
}

/// The adjusted target: the bytes of `adjusted_value`.
pub open spec fn spec_adjust_difficulty(old: Seq<u8>, actual_time_span: u64) -> Seq<u8> {
    target_bytes(adjusted_value(old, actual_time_span))
}

/// A 32-byte target's number is at most the largest target, and its bytes
/// give it back.
pub proof fn lemma_target_value(t: Seq<u8>)
    requires
        t.len() == 32,
    ensures
        target_value(t) <= max_target_value(),
        target_bytes(target_value(t)) == t,
{
    lemma_le_value_bound(t.reverse());
    lemma_le_bytes_of_value(t.reverse());
    assert(t.reverse().reverse() =~= t);
}

/// The bytes of a number up to the largest target read back as that number.
pub proof fn lemma_target_bytes(v: nat)
    requires
        v <= max_target_value(),
    ensures
        target_bytes(v).len() == 32,
        target_value(target_bytes(v)) == v,
{
    lemma_le_bytes_len(v, 32);
    lemma_le_bytes_max(32);
    lemma_le_value_of_bytes(v, 32);
    assert(le_bytes(v, 32).reverse().reverse() =~= le_bytes(v, 32));
}

/// Difficulty adjustment every 120 blocks:
/// new_target = old_target × (actual_time_span / 7200), within ±25%.
pub fn adjust_difficulty(old_target: &Target, actual_time_span: u64) -> (r: Target)
    ensures
        r.0@ == spec_adjust_difficulty(old_target.0@, actual_time_span),
{
    // Clamp to ±25%
    let span: u64 = if actual_time_span > 9000 {
        9000
    } else if actual_time_span < 5400 {
        5400
    } else {
        actual_time_span
    };
    let ghost old = old_target.0@;
    // The target's bytes, least significant first
    let mut le: Vec<u8> = Vec::new();
    let mut j: usize = 0;
    while j < 32
        invariant
            j <= 32,
            old == old_target.0@,
            old.len() == 32,
            le@ == old.reverse().take(j as int),
        decreases 32 - j,
    {
        assert(old.reverse()[j as int] == old[31 - j]);
        le.push(old_target.0[31 - j]);
        j = j + 1;
        assert(le@ =~= old.reverse().take(j as int));
    }
    assert(le@ =~= old.reverse());
    // product = target × span, least significant byte first
    let mut p: Vec<u8> = Vec::new();
    let mut carry: u64 = 0;
    let mut j: usize = 0;
    while j < 32
        invariant
            j <= 32,
            le@.len() == 32,
            5400 <= span <= 9000,
            carry < 9000,
            p@.len() == j,
            le_value(le@.take(j as int)) * span == le_value(p@) + carry * pow256(j as nat),
        decreases 32 - j,
    {
        assert(le[j as int] as u64 * span <= 255 * 9000) by (nonlinear_arith)
            requires
                le[j as int] <= 255,
                span <= 9000,
        ;
        let x: u64 = le[j] as u64 * span + carry;
        let byte: u8 = (x % 256) as u8;
        let ghost before = p@;
        proof {
            assert(le@.take(j + 1) =~= le@.take(j as int).push(le@[j as int]));
            lemma_le_value_push(le@.take(j as int), le@[j as int]);
            lemma_le_value_push(before, byte);
            let lv = le_value(le@.take(j as int));
            let pj = pow256(j as nat);
            assert(pow256(j as nat + 1) == 256 * pj);
            assert(x == byte + 256 * (x / 256));
            assert((lv + le@[j as int] * pj) * span == le_value(before) + byte * pj + (x / 256) * (256
                * pj)) by (nonlinear_arith)
                requires
                    lv * span == le_value(before) + carry * pj,
                    x == le@[j as int] * span + carry,
                    x == byte + 256 * (x / 256),
            ;
        }
        p.push(byte);
        carry = x / 256;
        j = j + 1;
    }
    assert(le@.take(32) =~= le@);
    let ghost prod = le_value(p@) + carry * pow256(32);
    proof {
        lemma_le_value_push(p@, (carry % 256) as u8);
        lemma_le_value_push(p@.push((carry % 256) as u8), (carry / 256) as u8);
        assert(pow256(33) == 256 * pow256(32));
        assert(carry == carry % 256 + 256 * (carry / 256));
        assert(carry * pow256(32) == (carry % 256) * pow256(32) + (carry / 256) * pow256(33))
            by (nonlinear_arith)
            requires
                pow256(33) == 256 * pow256(32),
                carry == carry % 256 + 256 * (carry / 256),
        ;
    }
    p.push((carry % 256) as u8);
    p.push((carry / 256) as u8);
    assert(le_value(p@) == target_value(old) * span);
    // quotient = product / 7200, most significant byte first
    let mut q: Vec<u8> = vec![0u8; 34];
    let mut rem: u64 = 0;
    let mut j: usize = 34;
    proof {
        assert(p@.skip(34) =~= Seq::<u8>::empty());
        assert(q@.skip(34) =~= Seq::<u8>::empty());
    }
    while j > 0
        invariant
            j <= 34,
            p@.len() == 34,
            q@.len() == 34,
            rem < 7200,
            le_value(p@.skip(j as int)) == le_value(q@.skip(j as int)) * 7200 + rem,
        decreases j,
    {
        let x: u64 = rem * 256 + p[j - 1] as u64;
        let d: u64 = x / 7200;
        let ghost qs = le_value(q@.skip(j as int));
        let ghost old_q = q@;
        proof {
            assert(x < 7200 * 256);
            assert(d < 256);
        }
        q.set(j - 1, d as u8);
        proof {
            assert(q@.skip(j as int) =~= old_q.skip(j as int));
            assert(q@.skip(j as int - 1).drop_first() =~= q@.skip(j as int));
            assert(p@.skip(j as int - 1).drop_first() =~= p@.skip(j as int));
            assert(q@.skip(j as int - 1)[0] == d);
            assert(p@.skip(j as int - 1)[0] == p@[j - 1]);
            assert(le_value(q@.skip(j as int - 1)) == d + 256 * qs);
            assert(le_value(p@.skip(j as int - 1)) == p@[j - 1] + 256 * le_value(p@.skip(j as int)));
            assert(x == d * 7200 + x % 7200);
            assert(p@[j - 1] + 256 * (qs * 7200 + rem) == (d + 256 * qs) * 7200 + x % 7200)
                by (nonlinear_arith)
                requires
                    x == rem * 256 + p@[j - 1],
                    x == d * 7200 + x % 7200,
            ;
        }
        rem = x % 7200;
        j = j - 1;
    }
    assert(p@.skip(0) =~= p@);
    assert(q@.skip(0) =~= q@);
    let ghost v = le_value(q@);
    proof {
        vstd::arithmetic::div_mod::lemma_fundamental_div_mod_converse(
            le_value(p@) as int,
            7200,
            v as int,
            rem as int,
        );
        assert(v == target_value(old) * clamped_span(actual_time_span) / 7200);
        let low = q@.take(32);
        assert(q@ =~= low.push(q@[32]).push(q@[33]));
        lemma_le_value_push(low, q@[32]);
        lemma_le_value_push(low.push(q@[32]), q@[33]);
        lemma_le_value_bound(low);
        assert(pow256(33) == 256 * pow256(32));
        lemma_le_bytes_max(32);
    }
    let mut result: [u8; 32] = [0u8; 32];
    if q[32] != 0 || q[33] != 0 {
        // the scaled target does not fit: the largest target
        let mut i: usize = 0;
        while i < 32
            invariant
                0 <= i <= 32,
                forall|k: int| 0 <= k < 32 ==> #[trigger] result@[k] == if k < i {
                    255u8
                } else {
                    0u8
                },
            decreases 32 - i,
        {
            result[i] = 255u8;
            i = i + 1;
        }
        proof {
            let low = q@.take(32);
            assert(v >= pow256(32)) by (nonlinear_arith)
                requires
                    v == le_value(low) + q@[32] * pow256(32) + q@[33] * pow256(33),
                    q@[32] != 0 || q@[33] != 0,
                    pow256(33) == 256 * pow256(32),
            ;
            assert(adjusted_value(old, actual_time_span) == max_target_value());
            assert(result@ =~= Seq::new(32, |i: int| 255u8).reverse());
        }
    } else {
        let mut i: usize = 0;
        while i < 32
            invariant
                0 <= i <= 32,
                q@.len() == 34,
                forall|k: int| 0 <= k < 32 ==> #[trigger] result@[k] == if k < i {
                    q@[31 - k]
                } else {
                    0u8
                },
            decreases 32 - i,
        {
            result[i] = q[31 - i];
            i = i + 1;
        }
        proof {
            let low = q@.take(32);
            assert(v == le_value(low));
            assert(adjusted_value(old, actual_time_span) == le_value(low));
            lemma_le_bytes_of_value(low);
            assert(result@ =~= low.reverse());
        }
    }
    Target(result)
}

/// A longer measured span never gives a harder target.
pub proof fn lemma_adjust_monotone(old: Seq<u8>, span1: u64, span2: u64)
    requires
        span1 <= span2,
    ensures
        target_value(spec_adjust_difficulty(old, span1)) <= target_value(
            spec_adjust_difficulty(old, span2),
        ),
{
    lemma_target_bytes(adjusted_value(old, span1));
    lemma_target_bytes(adjusted_value(old, span2));
    let v = target_value(old);
    assert(v * clamped_span(span1) <= v * clamped_span(span2)) by (nonlinear_arith)
        requires
            clamped_span(span1) <= clamped_span(span2),
    ;
    vstd::arithmetic::div_mod::lemma_div_is_ordered(
        (v * clamped_span(span1)) as int,
        (v * clamped_span(span2)) as int,
        7200,
    );
}

/// Blocks slower than the target time never make the target harder, blocks
/// faster than it never make it easier, and blocks on time keep it.
pub proof fn lemma_adjust_direction(old: Seq<u8>, span: u64)
    requires
        old.len() == 32,
    ensures
        span >= 7200 ==> target_value(spec_adjust_difficulty(old, span)) >= target_value(old),
        span <= 7200 ==> target_value(spec_adjust_difficulty(old, span)) <= target_value(old),
        span == 7200 ==> spec_adjust_difficulty(old, span) == old,
{
    lemma_target_value(old);
    lemma_target_bytes(adjusted_value(old, span));
    let v = target_value(old);
    let s = clamped_span(span);
    assert(v * 7200 / 7200 == v) by {
        vstd::arithmetic::div_mod::lemma_fundamental_div_mod_converse((v * 7200) as int, 7200, v as int, 0);
    }
    if span >= 7200 {
        assert(v * 7200 <= v * s) by (nonlinear_arith)
            requires
                7200 <= s,
        ;
        vstd::arithmetic::div_mod::lemma_div_is_ordered((v * 7200) as int, (v * s) as int, 7200);
    }
    if span <= 7200 {
        assert(v * s <= v * 7200) by (nonlinear_arith)
            requires
                s <= 7200,
        ;
        vstd::arithmetic::div_mod::lemma_div_is_ordered((v * s) as int, (v * 7200) as int, 7200);
    }
}

/// The adjustment is bounded: a span beyond 9000 s acts as 9000 s, a span
/// under 5400 s acts as 5400 s, so the target moves by at most a quarter
/// (rounded down, and never past the largest target).
pub proof fn lemma_adjust_clamped(old: Seq<u8>, span: u64)
    ensures
        span >= 9000 ==> spec_adjust_difficulty(old, span) == spec_adjust_difficulty(old, 9000),
        span <= 5400 ==> spec_adjust_difficulty(old, span) == spec_adjust_difficulty(old, 5400),
        old.len() == 32 ==> target_value(old) * 5400 / 7200 <= target_value(
            spec_adjust_difficulty(old, span),
        ),
        target_value(spec_adjust_difficulty(old, span)) <= target_value(old) * 9000 / 7200,
{
    lemma_adjust_monotone(old, 0, span);
    lemma_adjust_monotone(old, span, u64::MAX);
    lemma_target_bytes(adjusted_value(old, span));
    lemma_target_bytes(adjusted_value(old, 0));
    lemma_target_bytes(adjusted_value(old, u64::MAX));
    assert(clamped_span(u64::MAX) == 9000);
    if old.len() == 32 {
        lemma_target_value(old);
        let v = target_value(old);
        assert(v * 5400 <= v * 7200) by (nonlinear_arith);
        vstd::arithmetic::div_mod::lemma_div_is_ordered((v * 5400) as int, (v * 7200) as int, 7200);
        assert(v * 7200 / 7200 == v) by {
            vstd::arithmetic::div_mod::lemma_fundamental_div_mod_converse((v * 7200) as int, 7200, v as int, 0);
        }
    }
}

/// The time between the block `interval` blocks before the last one and the last one.
pub open spec fn spec_time_span(timestamps: Seq<u64>, interval: usize) -> Option<u64> {
    if timestamps.len() <= interval {
        None
    } else {
        Some(
            (timestamps[timestamps.len() - 1] - timestamps[timestamps.len() - interval
                - 1]) as u64,
        )
    }
}

/// Calculate actual time span from block timestamps
pub fn calculate_time_span(timestamps: &[u64], interval: usize) -> (r: Option<u64>)
    requires
        timestamps@.len() > interval ==> timestamps@[timestamps@.len() - interval - 1]
            <= timestamps@[timestamps@.len() - 1],
    ensures
        r == spec_time_span(timestamps@, interval),
{
    if timestamps.len() <= interval {
        return None;
    }
    let start = timestamps[timestamps.len() - interval - 1];
    let end = timestamps[timestamps.len() - 1];
    Some(end - start)
}

/// Compact target representation
pub fn compact_from_target(target: &Target) -> (r: u32)
    requires
        has_compact_form(target.0@),
    ensures
        r == spec_compact(target.0@),
{
    compact_of(&target.0)
}

/// Target from compact representation
pub fn target_from_compact(compact: u32) -> (r: Target)
    requires
        compact_in_range(compact),
    ensures
        r.0@ == spec_from_compact(compact),
{
    Target(from_compact_bytes(compact))
}

/// Check if hash meets target (PoW valid)
pub fn hash_meets_target(hash: &Hash32, target: &Target) -> (r: bool)
    ensures
        r == bytes_lt(hash@, target.0@),
{
    bytes32_lt(hash, &target.0)
}

} // verus!
