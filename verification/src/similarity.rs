//! Normalized edit-distance similarity between residue sequences.
//!
//! A similarity percentage is the exact rational `100 * d / den`, where `d`
//! is the Levenshtein distance between the two sequences after stripping
//! spaces, and `den` is the stripped length of the *first* argument (the
//! normalization is deliberately asymmetric). All comparisons against a
//! threshold are made by cross-multiplication in `u128`, so no rounding and
//! no overflow can occur. A first argument that is empty after stripping
//! gets denominator 1, so an empty sequence has ratio 0 against an empty
//! sequence and a maximal (>= 100) ratio against any non-empty one.

use vstd::prelude::*;

verus! {

/// Minimum of three naturals.
pub open spec fn min3(x: nat, y: nat, z: nat) -> nat {
    if x <= y && x <= z {
        x
    } else if y <= z {
        y
    } else {
        z
    }
}

/// Unit-cost Levenshtein distance (insertion, deletion, substitution),
/// by the standard recurrence.
pub open spec fn lev(a: Seq<u8>, b: Seq<u8>) -> nat
    decreases a.len() + b.len(),
{
    if a.len() == 0 {
        b.len()
    } else if b.len() == 0 {
        a.len()
    } else {
        let sub_cost: nat = if a[0] == b[0] {
            0
        } else {
            1
        };
        min3(
            lev(a.drop_first(), b) + 1,
            lev(a, b.drop_first()) + 1,
            lev(a.drop_first(), b.drop_first()) + sub_cost,
        )
    }
}

/// A sequence with every space byte removed.
pub open spec fn strip_spec(s: Seq<u8>) -> Seq<u8> {
    s.filter(|c: u8| c != 32)
}

/// Numerator of the similarity percentage of `a` against `b`.
pub open spec fn ratio_num(a: Seq<u8>, b: Seq<u8>) -> int {
    100 * (lev(strip_spec(a), strip_spec(b)) as int)
}

/// Denominator of the similarity percentage: the stripped length of the
/// first argument, or 1 if it is empty.
pub open spec fn ratio_den(a: Seq<u8>) -> int {
    if strip_spec(a).len() == 0 {
        1
    } else {
        strip_spec(a).len() as int
    }
}

/// The percentage is strictly below the threshold: `a` is a near-duplicate
/// of `b`.
pub open spec fn near_dup_spec(a: Seq<u8>, b: Seq<u8>, t: int) -> bool {
    ratio_num(a, b) < t * ratio_den(a)
}

/// The percentage is strictly above the threshold: `a` is sufficiently
/// distinct from `b`. Equality at the boundary is neither near-duplicate
/// nor distinct.
pub open spec fn distinct_spec(a: Seq<u8>, b: Seq<u8>, t: int) -> bool {
    ratio_num(a, b) > t * ratio_den(a)
}

/// An optional threshold, with the given default percentage.
pub open spec fn thresh_or(t: Option<u64>, d: u64) -> int {
    match t {
        Option::Some(v) => v as int,
        Option::None => d as int,
    }
}

/// `a` passes against a whole reference set: no entry makes it a
/// near-duplicate.
pub open spec fn passes_set_spec(a: Seq<u8>, refs: Seq<Seq<u8>>, t: int) -> bool {
    forall|i: int| 0 <= i < refs.len() ==> !near_dup_spec(a, refs[i], t)
}

/// An exact similarity percentage, as the rational `num / den`.
pub struct Ratio {
    pub num: u128,
    pub den: u128,
}

/// A threshold times a denominator, exactly, in 128-bit arithmetic.
fn thresh_times_den(t: u64, den: u128) -> (r: u128)
    requires
        den <= usize::MAX as u128,
    ensures
        r == (t as int) * (den as int),
{
    proof {
        assert((t as int) * (den as int) <= (u64::MAX as int) * (usize::MAX as int))
            by (nonlinear_arith)
            requires
                0 <= t as int <= u64::MAX as int,
                0 <= den as int <= usize::MAX as int,
        ;
    }
    (t as u128) * den
}

/// Relies on edit_distance::edit_distance (crate edit-distance): the
/// Levenshtein distance between the two strings, counting unit-cost
/// insertions, deletions and substitutions. Bytes are mapped one-for-one
/// to chars, which preserves equality and inequality of positions.
#[verifier::external_body]
fn edit_distance_bytes(a: &Vec<u8>, b: &Vec<u8>) -> (r: usize)
    ensures
        r == lev(a@, b@),
{
    let sa: String = a.iter().map(|x| *x as char).collect();
    let sb: String = b.iter().map(|x| *x as char).collect();
    edit_distance::edit_distance(&sa, &sb)
}

/// Remove every space byte, keeping the order of the rest.
pub fn strip_spaces(v: &Vec<u8>) -> (r: Vec<u8>)
    ensures
        r@ == strip_spec(v@),
{
    let mut out: Vec<u8> = Vec::new();
    proof {
        reveal_with_fuel(Seq::<_>::filter, 1);
        assert(v@.take(0) =~= Seq::<u8>::empty());
    }
    let mut i: usize = 0;
    while i < v.len()
        invariant
            i <= v.len(),
            out@ == strip_spec(v@.take(i as int)),
        decreases v.len() - i,
    {
        let ghost pre = v@.take(i as int);
        let c = v[i];
        if c != 32 {
            out.push(c);
        }
        i = i + 1;
        proof {
            reveal_with_fuel(Seq::<_>::filter, 2);
            assert(v@.take(i as int).drop_last() =~= pre);
            assert(v@.take(i as int).last() == c);
        }
    }
    proof {
        assert(v@.take(v@.len() as int) =~= v@);
    }
    out
}

/// The exact similarity percentage of `a` against `b`, as a rational.
pub fn ratio(a: &Vec<u8>, b: &Vec<u8>) -> (r: Ratio)
    ensures
        r.num == ratio_num(a@, b@),
        r.den == ratio_den(a@),
        r.den <= usize::MAX as u128,
{
    let sa = strip_spaces(a);
    let sb = strip_spaces(b);
    let d = edit_distance_bytes(&sa, &sb);
    let den: u128 = if sa.len() == 0 {
        1
    } else {
        sa.len() as u128
    };
    Ratio { num: 100u128 * (d as u128), den }
}

/// The similarity percentage of `in_seq` against `compare_seq` is strictly
/// above the threshold (default 20): the two are sufficiently distinct.
pub fn is_above_thresh_with_seq(in_seq: &Vec<u8>, compare_seq: &Vec<u8>, threshold: Option<u64>) -> (r:
    bool)
    ensures
        r == distinct_spec(in_seq@, compare_seq@, thresh_or(threshold, 20)),
{
    let t: u64 = match threshold {
        Option::Some(v) => v,
        Option::None => 20,
    };
    let q = ratio(in_seq, compare_seq);
    q.num > thresh_times_den(t, q.den)
}

/// `in_seq` passes against every entry of the reference set at the
/// threshold (default 20): the scan stops at the first near-duplicate.
pub fn is_above_thresh_with_set(in_seq: &Vec<u8>, compare_set: &Vec<Vec<u8>>, threshold: Option<
    u64,
>) -> (r: bool)
    ensures
        r == passes_set_spec(in_seq@, compare_set.deep_view(), thresh_or(threshold, 20)),
{
    let t: u64 = match threshold {
        Option::Some(v) => v,
        Option::None => 20,
    };
    let mut i: usize = 0;
    while i < compare_set.len()
        invariant
            i <= compare_set.len(),
            forall|j: int|
                0 <= j < i ==> !near_dup_spec(
                    in_seq@,
                    compare_set.deep_view()[j],
                    thresh_or(threshold, 20),
                ),
            t == thresh_or(threshold, 20),
        decreases compare_set.len() - i,
    {
        let q = ratio(in_seq, &compare_set[i]);
        proof {
            assert(compare_set.deep_view()[i as int] == compare_set@[i as int]@);
        }
        if q.num < thresh_times_den(t, q.den) {
            return false;
        }
        i = i + 1;
    }
    true
}

/// The running minimum numerator after the first `k` entries of the set,
/// starting from the full percentage 100 (numerator `100 * den`).
pub open spec fn min_num_upto(a: Seq<u8>, refs: Seq<Seq<u8>>, k: int) -> int
    decreases k,
{
    if k <= 0 {
        100 * ratio_den(a)
    } else {
        let prev = min_num_upto(a, refs, k - 1);
        let cur = ratio_num(a, refs[k - 1]);
        if cur < prev {
            cur
        } else {
            prev
        }
    }
}

proof fn lemma_min_num_decreases(a: Seq<u8>, refs: Seq<Seq<u8>>, k1: int, k2: int)
    requires
        0 <= k1 <= k2,
    ensures
        min_num_upto(a, refs, k2) <= min_num_upto(a, refs, k1),
    decreases k2 - k1,
{
    if k1 < k2 {
        lemma_min_num_decreases(a, refs, k1, k2 - 1);
    }
}

/// The smallest similarity percentage of `candidate` against any entry of
/// the set, capped at 100 from the start; `None` as soon as the running
/// minimum falls strictly below the threshold (default 20). This is the
/// per-candidate core of the two-set diagnostic comparison.
pub fn min_ratio_against_set(candidate: &Vec<u8>, compare_set: &Vec<Vec<u8>>, threshold: Option<
    u64,
>) -> (r: Option<Ratio>)
    ensures
        r is None <==> compare_set@.len() > 0 && min_num_upto(
            candidate@,
            compare_set.deep_view(),
            compare_set@.len() as int,
        ) < thresh_or(threshold, 20) * ratio_den(candidate@),
        r matches Some(q) ==> q.num == min_num_upto(
            candidate@,
            compare_set.deep_view(),
            compare_set@.len() as int,
        ) && q.den == ratio_den(candidate@),
{
    let t: u64 = match threshold {
        Option::Some(v) => v,
        Option::None => 20,
    };
    let first = ratio(candidate, candidate);
    let den = first.den;
    let mut cur: u128 = 100u128 * den;
    let mut i: usize = 0;
    while i < compare_set.len()
        invariant
            i <= compare_set.len(),
            den == ratio_den(candidate@),
            den <= usize::MAX as u128,
            cur == min_num_upto(candidate@, compare_set.deep_view(), i as int),
            i > 0 ==> cur >= thresh_or(threshold, 20) * (den as int),
            t == thresh_or(threshold, 20),
        decreases compare_set.len() - i,
    {
        let q = ratio(candidate, &compare_set[i]);
        proof {
            assert(compare_set.deep_view()[i as int] == compare_set@[i as int]@);
        }
        if q.num < cur {
            cur = q.num;
        }
        if cur < thresh_times_den(t, den) {
            proof {
                lemma_min_num_decreases(
                    candidate@,
                    compare_set.deep_view(),
                    i + 1,
                    compare_set@.len() as int,
                );
            }
            return None;
        }
        i = i + 1;
    }
    Some(Ratio { num: cur, den })
}

/// The distance from a sequence to itself is zero.
pub proof fn lemma_lev_self(a: Seq<u8>)
    ensures
        lev(a, a) == 0,
    decreases a.len(),
{
    if a.len() > 0 {
        lemma_lev_self(a.drop_first());
    }
}

/// The similarity percentage of any sequence against itself is zero: its
/// numerator vanishes, whatever the sequence (empty ones included).
pub proof fn lemma_ratio_self_zero(a: Seq<u8>)
    ensures
        ratio_num(a, a) == 0,
{
    lemma_lev_self(strip_spec(a));
}

} // verus!
