//! FNV-1a style 64-bit folding used for deterministic evidence tags and unit ids.

use vstd::prelude::*;

verus! {

pub const FNV_OFFSET: u64 = 0xcbf2_9ce4_8422_2325;

pub const FNV_PRIME: u64 = 0x0000_0100_0000_01b3;

/// Mixes one word into the running hash.
pub open spec fn fnv_step(h: u64, x: u64) -> u64 {
    (h ^ x).wrapping_mul(FNV_PRIME)
}

/// Folds a sequence of words into a hash, left to right.
pub open spec fn fnv_fold(h: u64, xs: Seq<u64>) -> u64
    decreases xs.len(),
{
    if xs.len() == 0 {
        h
    } else {
        fnv_step(fnv_fold(h, xs.drop_last()), xs.last())
    }
}

pub fn fnv_mix(h: u64, x: u64) -> (r: u64)
    ensures
        r == fnv_step(h, x),
{
    (h ^ x).wrapping_mul(FNV_PRIME)
}

/// Folding one more word is one more mixing step.
pub proof fn lemma_fnv_fold_push(h: u64, xs: Seq<u64>, x: u64)
    ensures
        fnv_fold(h, xs.push(x)) == fnv_step(fnv_fold(h, xs), x),
{
    assert(xs.push(x).drop_last() == xs);
}

/// Folding `xs` then `ys` is folding their concatenation.
pub proof fn lemma_fnv_fold_append(h: u64, xs: Seq<u64>, ys: Seq<u64>)
    ensures
        fnv_fold(fnv_fold(h, xs), ys) == fnv_fold(h, xs + ys),
    decreases ys.len(),
{
    if ys.len() == 0 {
        assert(xs + ys == xs);
    } else {
        lemma_fnv_fold_append(h, xs, ys.drop_last());
        assert((xs + ys).drop_last() == xs + ys.drop_last());
    }
}

} // verus!
