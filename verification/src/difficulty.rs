//! Difficulty targets: a 32-byte big-endian threshold that a block hash must
//! not exceed, the satisfaction check, and the retargeting computation that
//! scales a target by the observed block rate.

use vstd::prelude::*;
use crate::arith::{be_val, pow256, pow10, pow10_u64, div256, mul256_saturating};
use crate::arith::{lemma_be_val_prefix_lt, lemma_be_val_injective, lemma_pow10_pos};
use crate::settings::Settings;

verus! {

/// A hash satisfies a target when, read as big-endian numbers, the hash is
/// not above the target.
pub open spec fn satisfies_spec(difficulty: Seq<u8>, hash: Seq<u8>) -> bool {
    be_val(hash) <= be_val(difficulty)
}

/// Byte-wise comparison from the most significant byte: the first differing
/// byte decides.
pub fn satisfies(difficulty: &[u8; 32], hash: &[u8; 32]) -> (r: bool)
    ensures
        r == satisfies_spec(difficulty@, hash@),
{
    let mut i: usize = 0;
    while i < 32
        invariant
            i <= 32,
            forall|j: int| 0 <= j < i ==> difficulty@[j] == hash@[j],
        decreases 32 - i,
    {
        if hash[i] > difficulty[i] {
            proof {
                assert(difficulty@.take(i as int) =~= hash@.take(i as int));
                lemma_be_val_prefix_lt(difficulty@, hash@, i as int);
            }
            return false;
        }
        if difficulty[i] > hash[i] {
            proof {
                assert(hash@.take(i as int) =~= difficulty@.take(i as int));
                lemma_be_val_prefix_lt(hash@, difficulty@, i as int);
            }
            return true;
        }
        i = i + 1;
    }
    proof {
        assert(hash@ =~= difficulty@);
    }
    true
}

/// The target with `num_zeros` leading zero bytes and `0xFF` in the rest;
/// seeds a fresh chain. More than 32 zero bytes cannot be represented.
pub fn create(num_zeros: usize) -> (r: Option<[u8; 32]>)
    ensures
        r is Some <==> num_zeros <= 32,
        r is Some ==> forall|i: int| 0 <= i < num_zeros ==> r->Some_0@[i] == 0u8,
        r is Some ==> forall|i: int| num_zeros <= i < 32 ==> r->Some_0@[i] == 0xFFu8,
{
    if num_zeros > 32 {
        return None;
    }
    let mut diff: [u8; 32] = [0xFFu8; 32];
    let mut i: usize = 0;
    while i < num_zeros
        invariant
            i <= num_zeros <= 32,
            forall|j: int| 0 <= j < i ==> diff@[j] == 0u8,
            forall|j: int| i <= j < 32 ==> diff@[j] == 0xFFu8,
        decreases num_zeros - i,
    {
        diff[i] = 0u8;
        i = i + 1;
    }
    Some(diff)
}

/// The fixed-point divisor used while retargeting: the desired interval over
/// the observed one, scaled by the precision constant, clamped to a positive
/// 64-bit value.
pub open spec fn adjust_divisor(time_interval: u64, s: Settings) -> nat {
    let numer = (s.target_time as nat) * (s.adjustment_interval as nat) * pow10(s.precision as nat);
    if time_interval == 0 {
        u64::MAX as nat
    } else if numer / (time_interval as nat) == 0 {
        1
    } else {
        numer / (time_interval as nat)
    }
}

/// The retargeted value: divide by the fixed-point ratio, then restore the
/// precision scale, saturating at the largest 32-byte value.
pub open spec fn adjusted_val(cur: nat, time_interval: u64, s: Settings) -> nat {
    let scaled = (cur / adjust_divisor(time_interval, s)) * pow10(s.precision as nat);
    if scaled < pow256(32) {
        scaled
    } else {
        (pow256(32) - 1) as nat
    }
}

/// Scales `current` so that blocks arriving faster than the desired rate
/// shrink the target and blocks arriving slower grow it.
pub fn adjusted(current: &[u8; 32], time_interval: u64, settings: &Settings) -> (r: [u8; 32])
    requires
        settings.wf(),
    ensures
        be_val(r@) == adjusted_val(be_val(current@), time_interval, *settings),
{
    proof {
        lemma_pow10_pos(settings.precision as nat);
        assert((settings.target_time as nat) * (settings.adjustment_interval as nat) * pow10(
            settings.precision as nat,
        ) >= (settings.target_time as nat) * (settings.adjustment_interval as nat) * 1)
            by (nonlinear_arith)
            requires
                pow10(settings.precision as nat) >= 1,
        ;
        assert((settings.target_time as nat) * (settings.adjustment_interval as nat) >= 1)
            by (nonlinear_arith)
            requires
                settings.target_time >= 1,
                settings.adjustment_interval >= 1,
        ;
        assert(pow10(settings.precision as nat) <= u64::MAX) by (nonlinear_arith)
            requires
                (settings.target_time as nat) * (settings.adjustment_interval as nat) * pow10(
                    settings.precision as nat,
                ) <= u64::MAX,
                (settings.target_time as nat) * (settings.adjustment_interval as nat) >= 1,
                pow10(settings.precision as nat) >= 1,
        ;
    }
    let scale: u64 = pow10_u64(settings.precision);
    let numer: u64 = settings.target_time * (settings.adjustment_interval as u64) * scale;
    let divisor: u64 = if time_interval == 0 {
        u64::MAX
    } else {
        let d = numer / time_interval;
        if d == 0 {
            1
        } else {
            d
        }
    };
    let quotient = div256(current, divisor);
    mul256_saturating(&quotient, scale)
}


/// Satisfaction orders hashes exactly as big-endian numbers do: every two
/// hashes are comparable, mutual satisfaction at equal length forces equal
/// bytes, and the order carries over chains of targets.
pub proof fn lemma_satisfies_total_order(a: Seq<u8>, b: Seq<u8>, c: Seq<u8>)
    ensures
        satisfies_spec(a, b) || satisfies_spec(b, a),
        satisfies_spec(a, b) && satisfies_spec(b, a) && a.len() == b.len() ==> a == b,
        satisfies_spec(a, b) && satisfies_spec(b, c) ==> satisfies_spec(a, c),
{
    if satisfies_spec(a, b) && satisfies_spec(b, a) && a.len() == b.len() {
        lemma_be_val_injective(a, b);
    }
}

} // verus!

