//! Parallel-style divide-and-conquer self-deduplication over a working
//! set of residue sequences.
//!
//! The working set is a vector of sequences; members are named by their
//! indices, so the partition into contiguous chunks is deterministic:
//! chunk membership never depends on an unordered container's iteration
//! order. Three phases: partition into `P` chunks of
//! size `ceil(N/P)`; a greedy intra-chunk reduction keeping a candidate
//! only if it is distinct from every already-kept member of its chunk;
//! and a pairwise tree-merge in which the first set of each pair is
//! filtered against the second (the second survives untouched — a
//! deliberate asymmetry), an unpaired trailing set being carried whole
//! into the next round, never dropped.

use vstd::prelude::*;

use crate::similarity::distinct_spec;
use crate::similarity::is_above_thresh_with_seq;

verus! {

/// Member `i` is sufficiently distinct from member `j` (normalized on
/// `i`'s side).
pub open spec fn sdist(ss: Seq<Seq<u8>>, i: int, j: int, t: int) -> bool {
    distinct_spec(ss[i], ss[j], t)
}

/// Candidate `c` is distinct from every member named in `s`.
pub open spec fn distinct_from_all(ss: Seq<Seq<u8>>, c: int, s: Seq<usize>, t: int) -> bool {
    forall|k: int| 0 <= k < s.len() ==> sdist(ss, c, #[trigger] s[k] as int, t)
}

/// The greedy intra-chunk reduction, from an already-kept prefix: each
/// candidate is kept only if distinct from everything kept before it.
pub open spec fn greedy_from(ss: Seq<Seq<u8>>, kept: Seq<usize>, rest: Seq<usize>, t: int) -> Seq<
    usize,
>
    decreases rest.len(),
{
    if rest.len() == 0 {
        kept
    } else if distinct_from_all(ss, rest[0] as int, kept, t) {
        greedy_from(ss, kept.push(rest[0]), rest.drop_first(), t)
    } else {
        greedy_from(ss, kept, rest.drop_first(), t)
    }
}

/// What the intra-chunk reduction keeps of one chunk.
pub open spec fn chunk_reduce_spec(ss: Seq<Seq<u8>>, chunk: Seq<usize>, t: int) -> Seq<usize> {
    greedy_from(ss, seq![], chunk, t)
}

/// The pair merge, accumulator form: survivors of the first set (those
/// distinct from every member of the second), then the whole second set.
pub open spec fn merge_from(
    ss: Seq<Seq<u8>>,
    acc: Seq<usize>,
    rest: Seq<usize>,
    other: Seq<usize>,
    t: int,
) -> Seq<usize>
    decreases rest.len(),
{
    if rest.len() == 0 {
        acc + other
    } else if distinct_from_all(ss, rest[0] as int, other, t) {
        merge_from(ss, acc.push(rest[0]), rest.drop_first(), other, t)
    } else {
        merge_from(ss, acc, rest.drop_first(), other, t)
    }
}

/// What merging a pair of kept-sets yields.
pub open spec fn merge_spec(ss: Seq<Seq<u8>>, s1: Seq<usize>, s2: Seq<usize>, t: int) -> Seq<
    usize,
> {
    merge_from(ss, seq![], s1, s2, t)
}

/// One tree-merge round: sets are paired in order; an unpaired trailing
/// set is carried unchanged.
pub open spec fn one_round(ss: Seq<Seq<u8>>, sets: Seq<Seq<usize>>, t: int) -> Seq<Seq<usize>> {
    Seq::new(
        ((sets.len() + 1) / 2) as nat,
        |i: int|
            if 2 * i + 1 < sets.len() {
                merge_spec(ss, sets[2 * i], sets[2 * i + 1], t)
            } else {
                sets[2 * i]
            },
    )
}

/// Tree-merge rounds until one set remains.
pub open spec fn rounds_spec(ss: Seq<Seq<u8>>, sets: Seq<Seq<usize>>, t: int) -> Seq<usize>
    decreases sets.len(),
{
    if sets.len() == 0 {
        seq![]
    } else if sets.len() == 1 {
        sets[0]
    } else {
        rounds_spec(ss, one_round(ss, sets, t), t)
    }
}

/// The partition's chunk size: `ceil(n / p)`.
pub open spec fn chunk_size(n: int, p: int) -> int {
    if n % p == 0 {
        n / p
    } else {
        n / p + 1
    }
}

/// The `i`-th contiguous chunk of indices `0..n` at chunk size `k`.
pub open spec fn chunk_spec(n: int, k: int, i: int) -> Seq<usize> {
    let lo = i * k;
    let hi = if (i + 1) * k < n {
        (i + 1) * k
    } else {
        n
    };
    if lo >= hi {
        seq![]
    } else {
        Seq::new((hi - lo) as nat, |j: int| (lo + j) as usize)
    }
}

/// The `p` chunks of indices `0..n` at a fixed chunk size.
pub open spec fn chunks_at(n: int, k: int, p: int) -> Seq<Seq<usize>> {
    Seq::new(p as nat, |i: int| chunk_spec(n, k, i))
}

pub open spec fn chunks_spec(n: int, p: int) -> Seq<Seq<usize>> {
    chunks_at(n, chunk_size(n, p), p)
}

/// The kept-sets the intra-chunk phase hands to the merge phase.
pub open spec fn initial_sets(ss: Seq<Seq<u8>>, n: int, p: int, t: int) -> Seq<Seq<usize>> {
    chunks_spec(n, p).map_values(|c: Seq<usize>| chunk_reduce_spec(ss, c, t))
}

/// The whole reducer: partition, intra-chunk reduction, tree-merge.
pub open spec fn dedupe_spec(ss: Seq<Seq<u8>>, n: int, p: int, t: int) -> Seq<usize> {
    rounds_spec(ss, initial_sets(ss, n, p, t), t)
}

/// Scan a candidate against every member named in `others`, stopping at
/// the first member it is not distinct from.
fn check_distinct_from_all(c: usize, others: &Vec<usize>, seqs: &Vec<Vec<u8>>, threshold: u64) -> (r:
    bool)
    requires
        c < seqs@.len(),
        forall|k: int| 0 <= k < others@.len() ==> (#[trigger] others@[k]) < seqs@.len(),
    ensures
        r == distinct_from_all(seqs.deep_view(), c as int, others@, threshold as int),
{
    let ghost ss = seqs.deep_view();
    let ghost t = threshold as int;
    let mut j: usize = 0;
    while j < others.len()
        invariant
            j <= others@.len(),
            c < seqs@.len(),
            ss == seqs.deep_view(),
            t == threshold as int,
            forall|k: int| 0 <= k < others@.len() ==> (#[trigger] others@[k]) < seqs@.len(),
            forall|k: int| 0 <= k < j ==> sdist(ss, c as int, #[trigger] others@[k] as int, t),
        decreases others@.len() - j,
    {
        let d = others[j];
        proof {
            assert(ss[c as int] == seqs@[c as int]@);
            assert(ss[d as int] == seqs@[d as int]@);
        }
        if !is_above_thresh_with_seq(&seqs[c], &seqs[d], Some(threshold)) {
            return false;
        }
        j = j + 1;
    }
    true
}

/// Merge one pair of kept-sets: the members of `set1` that are distinct
/// from every member of `set2`, followed by all of `set2`.
pub fn dedupe_sets(set1: &Vec<usize>, set2: &Vec<usize>, seqs: &Vec<Vec<u8>>, threshold: u64) -> (r:
    Vec<usize>)
    requires
        forall|k: int| 0 <= k < set1@.len() ==> (#[trigger] set1@[k]) < seqs@.len(),
        forall|k: int| 0 <= k < set2@.len() ==> (#[trigger] set2@[k]) < seqs@.len(),
    ensures
        r@ == merge_spec(seqs.deep_view(), set1@, set2@, threshold as int),
        forall|k: int| 0 <= k < r@.len() ==> (#[trigger] r@[k]) < seqs@.len(),
{
    let ghost ss = seqs.deep_view();
    let ghost t = threshold as int;
    let mut out: Vec<usize> = Vec::new();
    proof {
        assert(set1@.skip(0) =~= set1@);
    }
    let mut i: usize = 0;
    while i < set1.len()
        invariant
            i <= set1@.len(),
            ss == seqs.deep_view(),
            forall|k: int| 0 <= k < set1@.len() ==> (#[trigger] set1@[k]) < seqs@.len(),
            forall|k: int| 0 <= k < set2@.len() ==> (#[trigger] set2@[k]) < seqs@.len(),
            forall|k: int| 0 <= k < out@.len() ==> (#[trigger] out@[k]) < seqs@.len(),
            t == threshold as int,
            merge_from(ss, out@, set1@.skip(i as int), set2@, t) == merge_spec(ss, set1@, set2@, t),
        decreases set1@.len() - i,
    {
        let c = set1[i];
        let ok = check_distinct_from_all(c, set2, seqs, threshold);
        proof {
            assert(set1@.skip(i as int)[0] == set1@[i as int]);
            assert(set1@.skip(i as int).drop_first() =~= set1@.skip(i + 1));
        }
        if ok {
            out.push(c);
        }
        i = i + 1;
    }
    proof {
        assert(set1@.skip(set1@.len() as int) =~= Seq::<usize>::empty());
    }
    let mut j: usize = 0;
    let ghost survivors = out@;
    while j < set2.len()
        invariant
            j <= set2@.len(),
            forall|k: int| 0 <= k < set2@.len() ==> (#[trigger] set2@[k]) < seqs@.len(),
            forall|k: int| 0 <= k < out@.len() ==> (#[trigger] out@[k]) < seqs@.len(),
            out@ == survivors + set2@.take(j as int),
        decreases set2@.len() - j,
    {
        out.push(set2[j]);
        proof {
            assert(survivors + set2@.take(j + 1) =~= (survivors + set2@.take(j as int)).push(
                set2@[j as int],
            ));
        }
        j = j + 1;
    }
    proof {
        assert(set2@.take(set2@.len() as int) =~= set2@);
    }
    out
}

/// The greedy reduction of one chunk: a candidate is kept only if it is
/// distinct from every member kept before it.
fn dedupe_chunk(chunk: &Vec<usize>, seqs: &Vec<Vec<u8>>, threshold: u64) -> (r: Vec<usize>)
    requires
        forall|k: int| 0 <= k < chunk@.len() ==> (#[trigger] chunk@[k]) < seqs@.len(),
    ensures
        r@ == chunk_reduce_spec(seqs.deep_view(), chunk@, threshold as int),
        forall|k: int| 0 <= k < r@.len() ==> (#[trigger] r@[k]) < seqs@.len(),
{
    let ghost ss = seqs.deep_view();
    let ghost t = threshold as int;
    let mut out: Vec<usize> = Vec::new();
    proof {
        assert(chunk@.skip(0) =~= chunk@);
    }
    let mut i: usize = 0;
    while i < chunk.len()
        invariant
            i <= chunk@.len(),
            ss == seqs.deep_view(),
            forall|k: int| 0 <= k < chunk@.len() ==> (#[trigger] chunk@[k]) < seqs@.len(),
            forall|k: int| 0 <= k < out@.len() ==> (#[trigger] out@[k]) < seqs@.len(),
            t == threshold as int,
            greedy_from(ss, out@, chunk@.skip(i as int), t) == chunk_reduce_spec(ss, chunk@, t),
        decreases chunk@.len() - i,
    {
        let c = chunk[i];
        let ok = check_distinct_from_all(c, &out, seqs, threshold);
        proof {
            assert(chunk@.skip(i as int)[0] == chunk@[i as int]);
            assert(chunk@.skip(i as int).drop_first() =~= chunk@.skip(i + 1));
        }
        if ok {
            out.push(c);
        }
        i = i + 1;
    }
    proof {
        assert(chunk@.skip(chunk@.len() as int) =~= Seq::<usize>::empty());
    }
    out
}

fn copy_indices(v: &Vec<usize>) -> (r: Vec<usize>)
    ensures
        r@ == v@,
{
    let mut out: Vec<usize> = Vec::new();
    let mut i: usize = 0;
    while i < v.len()
        invariant
            i <= v@.len(),
            out@ == v@.take(i as int),
        decreases v@.len() - i,
    {
        out.push(v[i]);
        proof {
            assert(v@.take(i + 1) =~= v@.take(i as int).push(v@[i as int]));
        }
        i = i + 1;
    }
    proof {
        assert(v@.take(v@.len() as int) =~= v@);
    }
    out
}

/// The whole reducer over the working set `seqs`, whose members are
/// named by index: partition into `num_chunks` contiguous chunks of
/// size `ceil(len/num_chunks)`, reduce each chunk greedily, then merge
/// pairwise in rounds, carrying an odd trailing set into the next
/// round. Returns the kept indices, in order.
#[verifier::rlimit(60)]
pub fn dedupe_chains(seqs: &Vec<Vec<u8>>, num_chunks: usize, threshold: u64) -> (r: Vec<usize>)
    requires
        num_chunks >= 1,
    ensures
        r@ == dedupe_spec(
            seqs.deep_view(),
            seqs@.len() as int,
            num_chunks as int,
            threshold as int,
        ),
        forall|k: int| 0 <= k < r@.len() ==> (#[trigger] r@[k]) < seqs@.len(),
{
    let ghost ss = seqs.deep_view();
    let ghost t = threshold as int;
    let n = seqs.len();
    let k: usize = if n % num_chunks == 0 {
        n / num_chunks
    } else {
        proof {
            assert(num_chunks >= 2);
            vstd::arithmetic::div_mod::lemma_div_is_ordered_by_denominator(
                n as int,
                2,
                num_chunks as int,
            );
        }
        n / num_chunks + 1
    };
    proof {
        assert(k as int == chunk_size(n as int, num_chunks as int));
    }
    let mut sets: Vec<Vec<usize>> = Vec::new();
    let mut start: usize = 0;
    let mut ci: usize = 0;
    while ci < num_chunks
        invariant
            ci <= num_chunks,
            n == seqs@.len(),
            ss == seqs.deep_view(),
            t == threshold as int,
            k as int == chunk_size(n as int, num_chunks as int),
            sets@.len() == ci,
            start == (if (ci as int) * (k as int) < n as int {
                (ci as int) * (k as int)
            } else {
                n as int
            }),
            forall|x: int|
                0 <= x < ci ==> (#[trigger] sets@[x])@ == chunk_reduce_spec(
                    ss,
                    chunk_spec(n as int, k as int, x),
                    t,
                ),
            forall|x: int, y: int|
                0 <= x < ci && 0 <= y < sets@[x]@.len() ==> (#[trigger] sets@[x]@[y])
                    < seqs@.len(),
        decreases num_chunks - ci,
    {
        let hi: usize = if start >= n {
            start
        } else if n - start > k {
            start + k
        } else {
            n
        };
        let mut chunk: Vec<usize> = Vec::new();
        let mut j: usize = start;
        while j < hi
            invariant
                start <= j <= hi,
                chunk@.len() == j - start,
                forall|x: int| 0 <= x < chunk@.len() ==> (#[trigger] chunk@[x]) == start + x,
            decreases hi - j,
        {
            chunk.push(j);
            j = j + 1;
        }
        proof {
            assert((ci as int + 1) * (k as int) == (ci as int) * (k as int) + (k as int))
                by (nonlinear_arith);
            assert(chunk@ =~= chunk_spec(n as int, k as int, ci as int));
        }
        let reduced = dedupe_chunk(&chunk, seqs, threshold);
        sets.push(reduced);
        start = hi;
        ci = ci + 1;
    }
    proof {
        assert(forall|x: int|
            0 <= x < sets@.len() ==> sets.deep_view()[x] == (#[trigger] sets@[x])@);
        assert(sets.deep_view() =~= initial_sets(ss, n as int, num_chunks as int, t));
        assert(rounds_spec(ss, sets.deep_view(), t) == dedupe_spec(
            ss,
            n as int,
            num_chunks as int,
            t,
        ));
    }
    while sets.len() > 1
        invariant
            sets@.len() <= usize::MAX,
            n == seqs@.len(),
            ss == seqs.deep_view(),
            t == threshold as int,
            rounds_spec(ss, sets.deep_view(), t) == dedupe_spec(
                ss,
                n as int,
                num_chunks as int,
                t,
            ),
            forall|x: int, y: int|
                0 <= x < sets@.len() && 0 <= y < sets@[x]@.len() ==> (#[trigger] sets@[x]@[y])
                    < seqs@.len(),
        decreases sets@.len(),
    {
        let ghost cur = sets.deep_view();
        let half = sets.len() / 2;
        let mut next: Vec<Vec<usize>> = Vec::new();
        let mut i: usize = 0;
        while i < half
            invariant
                i <= half,
                half == sets@.len() / 2,
                sets@.len() > 1,
                sets@.len() <= usize::MAX,
                n == seqs@.len(),
                ss == seqs.deep_view(),
                t == threshold as int,
                cur == sets.deep_view(),
                next@.len() == i,
                forall|x: int|
                    0 <= x < i ==> (#[trigger] next@[x])@ == one_round(ss, cur, t)[x],
                forall|x: int, y: int|
                    0 <= x < sets@.len() && 0 <= y < sets@[x]@.len() ==> (#[trigger] sets@[x]@[y])
                        < seqs@.len(),
                forall|x: int, y: int|
                    0 <= x < next@.len() && 0 <= y < next@[x]@.len() ==> (#[trigger] next@[x]@[y])
                        < seqs@.len(),
            decreases half - i,
        {
            proof {
                assert(2 * (sets@.len() as int / 2) <= sets@.len() as int);
                assert(2 * (i as int) + 1 < sets@.len() as int);
            }
            let a: usize = i + i;
            let b: usize = a + 1;
            proof {
                assert(cur[a as int] == sets@[a as int]@);
                assert(cur[b as int] == sets@[b as int]@);
            }
            let m = dedupe_sets(&sets[a], &sets[b], seqs, threshold);
            next.push(m);
            i = i + 1;
        }
        if sets.len() % 2 == 1 {
            proof {
                assert(cur[sets@.len() - 1] == sets@[sets@.len() - 1]@);
            }
            let last = copy_indices(&sets[sets.len() - 1]);
            next.push(last);
        }
        proof {
            assert(forall|x: int|
                0 <= x < next@.len() ==> next.deep_view()[x] == (#[trigger] next@[x])@);
            assert(next.deep_view() =~= one_round(ss, cur, t));
            assert(rounds_spec(ss, cur, t) == rounds_spec(ss, one_round(ss, cur, t), t));
        }
        sets = next;
    }
    if sets.len() == 0 {
        proof {
            assert(sets.deep_view() =~= Seq::<Seq<usize>>::empty());
        }
        Vec::new()
    } else {
        proof {
            assert(sets.deep_view()[0] == sets@[0]@);
        }
        match sets.pop() {
            Some(v) => v,
            None => Vec::new(),
        }
    }
}

/// Every later member is distinct from every earlier one (normalized on
/// the later member's side).
pub open spec fn pw_dir(ss: Seq<Seq<u8>>, s: Seq<usize>, t: int) -> bool {
    forall|a: int, b: int|
        0 <= a < b < s.len() ==> sdist(ss, (#[trigger] s[b]) as int, (#[trigger] s[a]) as int, t)
}

/// Any two members are distinct in at least one direction of the
/// asymmetric ratio.
pub open spec fn pairwise_distinct(ss: Seq<Seq<u8>>, s: Seq<usize>, t: int) -> bool {
    forall|a: int, b: int|
        0 <= a < b < s.len() ==> sdist(ss, (#[trigger] s[a]) as int, (#[trigger] s[b]) as int, t)
            || sdist(ss, s[b] as int, s[a] as int, t)
}

proof fn lemma_greedy_pw(ss: Seq<Seq<u8>>, kept: Seq<usize>, rest: Seq<usize>, t: int)
    requires
        pw_dir(ss, kept, t),
    ensures
        pw_dir(ss, greedy_from(ss, kept, rest, t), t),
    decreases rest.len(),
{
    if rest.len() > 0 {
        if distinct_from_all(ss, rest[0] as int, kept, t) {
            let k2 = kept.push(rest[0]);
            assert forall|a: int, b: int| 0 <= a < b < k2.len() implies sdist(
                ss,
                (#[trigger] k2[b]) as int,
                (#[trigger] k2[a]) as int,
                t,
            ) by {
                assert(k2[a] == kept[a]);
                if b == kept.len() as int {
                    assert(k2[b] == rest[0]);
                } else {
                    assert(k2[b] == kept[b]);
                }
            }
            lemma_greedy_pw(ss, k2, rest.drop_first(), t);
        } else {
            lemma_greedy_pw(ss, kept, rest.drop_first(), t);
        }
    }
}

proof fn lemma_merge_pw(ss: Seq<Seq<u8>>, acc: Seq<usize>, rest: Seq<usize>, other: Seq<usize>, t: int)
    requires
        pairwise_distinct(ss, acc + rest, t),
        pairwise_distinct(ss, other, t),
        forall|k: int|
            0 <= k < acc.len() ==> distinct_from_all(ss, (#[trigger] acc[k]) as int, other, t),
    ensures
        pairwise_distinct(ss, merge_from(ss, acc, rest, other, t), t),
    decreases rest.len(),
{
    if rest.len() == 0 {
        let m = acc + other;
        assert forall|a: int, b: int| 0 <= a < b < m.len() implies sdist(
            ss,
            (#[trigger] m[a]) as int,
            (#[trigger] m[b]) as int,
            t,
        ) || sdist(ss, m[b] as int, m[a] as int, t) by {
            if b < acc.len() {
                assert(m[a] == acc[a] && m[b] == acc[b]);
                assert((acc + rest)[a] == acc[a] && (acc + rest)[b] == acc[b]);
            } else if a >= acc.len() {
                assert(m[a] == other[a - acc.len()] && m[b] == other[b - acc.len()]);
            } else {
                assert(m[a] == acc[a] && m[b] == other[b - acc.len()]);
            }
        }
    } else {
        let r0 = rest[0];
        if distinct_from_all(ss, r0 as int, other, t) {
            let a2 = acc.push(r0);
            assert(a2 + rest.drop_first() =~= acc + rest);
            assert forall|k: int| 0 <= k < a2.len() implies distinct_from_all(
                ss,
                (#[trigger] a2[k]) as int,
                other,
                t,
            ) by {
                if k == acc.len() as int {
                    assert(a2[k] == r0);
                } else {
                    assert(a2[k] == acc[k]);
                }
            }
            lemma_merge_pw(ss, a2, rest.drop_first(), other, t);
        } else {
            let s1 = acc + rest.drop_first();
            let s0 = acc + rest;
            assert forall|a: int, b: int| 0 <= a < b < s1.len() implies sdist(
                ss,
                (#[trigger] s1[a]) as int,
                (#[trigger] s1[b]) as int,
                t,
            ) || sdist(ss, s1[b] as int, s1[a] as int, t) by {
                let a0 = if a < acc.len() {
                    a
                } else {
                    a + 1
                };
                let b0 = if b < acc.len() {
                    b
                } else {
                    b + 1
                };
                assert(s1[a] == s0[a0]);
                assert(s1[b] == s0[b0]);
            }
            lemma_merge_pw(ss, acc, rest.drop_first(), other, t);
        }
    }
}

proof fn lemma_one_round_pw(ss: Seq<Seq<u8>>, sets: Seq<Seq<usize>>, t: int)
    requires
        forall|i: int| 0 <= i < sets.len() ==> pairwise_distinct(ss, #[trigger] sets[i], t),
    ensures
        forall|i: int|
            0 <= i < one_round(ss, sets, t).len() ==> pairwise_distinct(
                ss,
                #[trigger] one_round(ss, sets, t)[i],
                t,
            ),
{
    assert forall|i: int| 0 <= i < one_round(ss, sets, t).len() implies pairwise_distinct(
        ss,
        #[trigger] one_round(ss, sets, t)[i],
        t,
    ) by {
        if 2 * i + 1 < sets.len() {
            assert(Seq::<usize>::empty() + sets[2 * i] =~= sets[2 * i]);
            lemma_merge_pw(ss, seq![], sets[2 * i], sets[2 * i + 1], t);
        }
    }
}

proof fn lemma_rounds_pw(ss: Seq<Seq<u8>>, sets: Seq<Seq<usize>>, t: int)
    requires
        forall|i: int| 0 <= i < sets.len() ==> pairwise_distinct(ss, #[trigger] sets[i], t),
    ensures
        pairwise_distinct(ss, rounds_spec(ss, sets, t), t),
    decreases sets.len(),
{
    if sets.len() >= 2 {
        lemma_one_round_pw(ss, sets, t);
        lemma_rounds_pw(ss, one_round(ss, sets, t), t);
    }
}

/// The reducer's core guarantee: any two members of the final
/// deduplicated set are sufficiently distinct at the threshold, in at
/// least one direction of the (asymmetric) similarity ratio.
pub proof fn lemma_dedupe_pairwise_distinct(ss: Seq<Seq<u8>>, n: int, p: int, t: int)
    ensures
        pairwise_distinct(ss, dedupe_spec(ss, n, p, t), t),
{
    let init = initial_sets(ss, n, p, t);
    assert forall|i: int| 0 <= i < init.len() implies pairwise_distinct(
        ss,
        #[trigger] init[i],
        t,
    ) by {
        lemma_greedy_pw(ss, seq![], chunks_spec(n, p)[i], t);
        assert(init[i] == chunk_reduce_spec(ss, chunks_spec(n, p)[i], t));
    }
    lemma_rounds_pw(ss, init, t);
}

/// No member is named twice.
pub open spec fn nodup(s: Seq<usize>) -> bool {
    forall|a: int, b: int| 0 <= a < b < s.len() ==> (#[trigger] s[a]) != (#[trigger] s[b])
}

pub open spec fn bounded_by(s: Seq<usize>, n: int) -> bool {
    forall|k: int| 0 <= k < s.len() ==> (#[trigger] s[k]) < n
}

/// Every ordered pair of distinct members is sufficiently distinct: the
/// whole working set is already deduplicated.
pub open spec fn all_pairs_distinct(ss: Seq<Seq<u8>>, n: int, t: int) -> bool {
    forall|i: int, j: int| 0 <= i < n && 0 <= j < n && i != j ==> #[trigger] sdist(ss, i, j, t)
}

/// No member is named by two different sets.
pub open spec fn sets_disjoint(sets: Seq<Seq<usize>>) -> bool {
    forall|i: int, j: int, a: int, b: int|
        0 <= i < sets.len() && 0 <= j < sets.len() && i != j && 0 <= a < sets[i].len() && 0 <= b
            < sets[j].len() ==> (#[trigger] sets[i][a]) != (#[trigger] sets[j][b])
}

proof fn lemma_greedy_all(ss: Seq<Seq<u8>>, kept: Seq<usize>, rest: Seq<usize>, t: int, n: int)
    requires
        all_pairs_distinct(ss, n, t),
        bounded_by(kept, n),
        bounded_by(rest, n),
        nodup(kept + rest),
    ensures
        greedy_from(ss, kept, rest, t) == kept + rest,
    decreases rest.len(),
{
    if rest.len() == 0 {
        assert(kept + rest =~= kept);
    } else {
        let r0 = rest[0];
        assert forall|k: int| 0 <= k < kept.len() implies sdist(
            ss,
            r0 as int,
            (#[trigger] kept[k]) as int,
            t,
        ) by {
            assert((kept + rest)[k] == kept[k]);
            assert((kept + rest)[kept.len() as int] == r0);
        }
        assert(distinct_from_all(ss, r0 as int, kept, t));
        let k2 = kept.push(r0);
        assert(k2 + rest.drop_first() =~= kept + rest);
        assert forall|k: int| 0 <= k < k2.len() implies (#[trigger] k2[k]) < n by {
            if k == kept.len() as int {
                assert(k2[k] == r0);
            } else {
                assert(k2[k] == kept[k]);
            }
        }
        lemma_greedy_all(ss, k2, rest.drop_first(), t, n);
    }
}

proof fn lemma_merge_all(
    ss: Seq<Seq<u8>>,
    acc: Seq<usize>,
    rest: Seq<usize>,
    other: Seq<usize>,
    t: int,
    n: int,
)
    requires
        all_pairs_distinct(ss, n, t),
        bounded_by(rest, n),
        bounded_by(other, n),
        forall|a: int, b: int|
            0 <= a < rest.len() && 0 <= b < other.len() ==> (#[trigger] rest[a]) != (
            #[trigger] other[b]),
    ensures
        merge_from(ss, acc, rest, other, t) == acc + rest + other,
    decreases rest.len(),
{
    if rest.len() == 0 {
        assert(acc + rest =~= acc);
        assert(acc + rest + other =~= acc + other);
    } else {
        let r0 = rest[0];
        assert forall|k: int| 0 <= k < other.len() implies sdist(
            ss,
            r0 as int,
            (#[trigger] other[k]) as int,
            t,
        ) by {
            assert(rest[0] != other[k]);
        }
        assert(distinct_from_all(ss, r0 as int, other, t));
        let a2 = acc.push(r0);
        assert(a2 + rest.drop_first() =~= acc + rest);
        assert(a2 + rest.drop_first() + other =~= acc + rest + other);
        lemma_merge_all(ss, a2, rest.drop_first(), other, t, n);
    }
}

proof fn lemma_flatten_half(sets: Seq<Seq<usize>>, merged: Seq<Seq<usize>>)
    requires
        merged.len() == (sets.len() + 1) / 2,
        forall|i: int|
            0 <= i < merged.len() ==> #[trigger] merged[i] == (if 2 * i + 1 < sets.len() {
                sets[2 * i] + sets[2 * i + 1]
            } else {
                sets[2 * i]
            }),
    ensures
        merged.flatten() == sets.flatten(),
    decreases sets.len(),
{
    if sets.len() == 0 {
        assert(merged =~= Seq::<Seq<usize>>::empty());
    } else if sets.len() == 1 {
        assert(merged.len() == 1);
        assert(merged[0] == sets[0]);
        assert(merged =~= sets);
    } else {
        let m2 = merged.drop_first();
        let s2 = sets.skip(2);
        assert(m2.len() == (s2.len() + 1) / 2);
        assert forall|i: int| 0 <= i < m2.len() implies #[trigger] m2[i] == (if 2 * i + 1
            < s2.len() {
            s2[2 * i] + s2[2 * i + 1]
        } else {
            s2[2 * i]
        }) by {
            assert(m2[i] == merged[i + 1]);
            if 2 * (i + 1) + 1 < sets.len() {
                assert(s2[2 * i] == sets[2 * (i + 1)]);
                assert(s2[2 * i + 1] == sets[2 * (i + 1) + 1]);
            } else {
                assert(s2[2 * i] == sets[2 * (i + 1)]);
            }
        }
        lemma_flatten_half(s2, m2);
        assert(merged.flatten() == merged[0] + m2.flatten());
        assert(sets.flatten() == sets[0] + sets.drop_first().flatten());
        assert(sets.drop_first().flatten() == sets.drop_first()[0]
            + sets.drop_first().drop_first().flatten());
        assert(sets.drop_first().drop_first() =~= s2);
        assert(sets.drop_first()[0] == sets[1]);
        assert(merged[0] == sets[0] + sets[1]);
        assert((sets[0] + sets[1]) + s2.flatten() =~= sets[0] + (sets[1] + s2.flatten()));
    }
}

#[verifier::rlimit(100)]
#[verifier::spinoff_prover]
proof fn lemma_rounds_all(ss: Seq<Seq<u8>>, sets: Seq<Seq<usize>>, t: int, n: int)
    requires
        all_pairs_distinct(ss, n, t),
        forall|i: int| 0 <= i < sets.len() ==> bounded_by(#[trigger] sets[i], n),
        sets_disjoint(sets),
    ensures
        rounds_spec(ss, sets, t) == sets.flatten(),
    decreases sets.len(),
{
    if sets.len() == 0 {
        assert(rounds_spec(ss, sets, t) =~= sets.flatten());
    } else if sets.len() == 1 {
        sets.lemma_flatten_one_element();
        assert(sets.first() == sets[0]);
    } else {
        let nr = one_round(ss, sets, t);
        assert forall|i: int| 0 <= i < nr.len() implies #[trigger] nr[i] == (if 2 * i + 1
            < sets.len() {
            sets[2 * i] + sets[2 * i + 1]
        } else {
            sets[2 * i]
        }) by {
            if 2 * i + 1 < sets.len() {
                lemma_merge_all(ss, seq![], sets[2 * i], sets[2 * i + 1], t, n);
                assert(Seq::<usize>::empty() + sets[2 * i] + sets[2 * i + 1] =~= sets[2 * i]
                    + sets[2 * i + 1]);
            }
        }
        lemma_flatten_half(sets, nr);
        assert forall|i: int| 0 <= i < nr.len() implies bounded_by(#[trigger] nr[i], n) by {
            if 2 * i + 1 < sets.len() {
                let c = sets[2 * i] + sets[2 * i + 1];
                assert forall|k: int| 0 <= k < c.len() implies (#[trigger] c[k]) < n by {
                    if k < sets[2 * i].len() {
                        assert(c[k] == sets[2 * i][k]);
                    } else {
                        assert(c[k] == sets[2 * i + 1][k - sets[2 * i].len()]);
                    }
                }
            }
        }
        assert forall|i: int, j: int, a: int, b: int|
            0 <= i < nr.len() && 0 <= j < nr.len() && i != j && 0 <= a < nr[i].len() && 0 <= b
                < nr[j].len() implies (#[trigger] nr[i][a]) != (#[trigger] nr[j][b]) by {
            let (si, ai) = if 2 * i + 1 < sets.len() && a >= sets[2 * i].len() {
                (2 * i + 1, a - sets[2 * i].len())
            } else {
                (2 * i, a)
            };
            let (sj, bj) = if 2 * j + 1 < sets.len() && b >= sets[2 * j].len() {
                (2 * j + 1, b - sets[2 * j].len())
            } else {
                (2 * j, b)
            };
            assert(nr[i][a] == sets[si][ai]);
            assert(nr[j][b] == sets[sj][bj]);
            assert(si != sj);
        }
        lemma_rounds_all(ss, nr, t, n);
    }
}

/// The indices `0 .. n`, in order.
pub open spec fn identity_upto(n: int) -> Seq<usize> {
    Seq::new(n as nat, |i: int| i as usize)
}

proof fn lemma_chunk_size_covers(n: int, p: int)
    requires
        1 <= p,
        0 <= n,
    ensures
        p * chunk_size(n, p) >= n,
        chunk_size(n, p) >= 0,
{
    vstd::arithmetic::div_mod::lemma_fundamental_div_mod(n, p);
    if n % p == 0 {
        assert(p * (n / p) == n);
    } else {
        assert(p * (n / p + 1) == p * (n / p) + p) by (nonlinear_arith);
        assert(p * (n / p) + p > p * (n / p) + n % p);
    }
}

proof fn lemma_chunks_flatten_at(n: int, k: int, p: int)
    requires
        0 <= n,
        0 <= k,
        0 <= p,
        n <= usize::MAX,
    ensures
        chunks_at(n, k, p).flatten() == identity_upto(
            if p * k < n {
                p * k
            } else {
                n
            },
        ),
    decreases p,
{
    if p == 0 {
        assert(chunks_at(n, k, 0) =~= Seq::<Seq<usize>>::empty());
        assert(identity_upto(if 0 < n {
            0
        } else {
            n
        }) =~= Seq::<Seq<usize>>::empty().flatten());
    } else {
        lemma_chunks_flatten_at(n, k, p - 1);
        assert((p - 1) * k == p * k - k) by (nonlinear_arith);
        assert(p * k >= (p - 1) * k) by (nonlinear_arith)
            requires
                k >= 0,
                p >= 1,
        ;
        let prev = chunks_at(n, k, p - 1);
        let cur = chunks_at(n, k, p);
        assert(cur.drop_last() =~= prev);
        assert(cur.last() == chunk_spec(n, k, p - 1));
        cur.lemma_flatten_and_flatten_alt_are_equivalent();
        prev.lemma_flatten_and_flatten_alt_are_equivalent();
        assert(cur.flatten_alt() == prev.flatten_alt() + chunk_spec(n, k, p - 1));
        let lo = (p - 1) * k;
        let hi = if p * k < n {
            p * k
        } else {
            n
        };
        if lo >= n {
            assert(chunk_spec(n, k, p - 1) =~= Seq::<usize>::empty());
            assert(identity_upto(n) + Seq::<usize>::empty() =~= identity_upto(n));
            assert(hi == n);
        } else {
            assert(identity_upto(lo) + chunk_spec(n, k, p - 1) =~= identity_upto(hi));
        }
    }
}

/// Idempotence of the reducer: on a working set whose members are
/// already pairwise distinct at the threshold (in both directions of
/// the asymmetric ratio), the reducer keeps every member, in order —
/// nothing is lost, whatever the chunk count, odd rounds included.
pub proof fn lemma_dedupe_idempotent(ss: Seq<Seq<u8>>, n: int, p: int, t: int)
    requires
        1 <= p,
        0 <= n <= usize::MAX,
        all_pairs_distinct(ss, n, t),
    ensures
        dedupe_spec(ss, n, p, t) == identity_upto(n),
{
    let k = chunk_size(n, p);
    lemma_chunk_size_covers(n, p);
    let chunks = chunks_spec(n, p);
    assert forall|i: int, j: int, a: int, b: int|
        0 <= i < chunks.len() && 0 <= j < chunks.len() && i != j && 0 <= a < chunks[i].len() && 0
            <= b < chunks[j].len() implies (#[trigger] chunks[i][a]) != (
    #[trigger] chunks[j][b]) by {
        assert((chunks[i][a] as int) == i * k + a);
        assert((chunks[j][b] as int) == j * k + b);
        if i < j {
            assert((chunks[i][a] as int) < (i + 1) * k);
            assert((i + 1) * k <= j * k) by (nonlinear_arith)
                requires
                    i + 1 <= j,
                    k >= 0,
            ;
        } else {
            assert((chunks[j][b] as int) < (j + 1) * k);
            assert((j + 1) * k <= i * k) by (nonlinear_arith)
                requires
                    j + 1 <= i,
                    k >= 0,
            ;
        }
    }
    let init = initial_sets(ss, n, p, t);
    assert forall|i: int| 0 <= i < init.len() implies #[trigger] init[i] == chunks[i] by {
        assert(Seq::<usize>::empty() + chunks[i] =~= chunks[i]);
        lemma_greedy_all(ss, seq![], chunks[i], t, n);
        assert(init[i] == chunk_reduce_spec(ss, chunks[i], t));
    }
    assert(init =~= chunks);
    assert forall|i: int| 0 <= i < chunks.len() implies bounded_by(#[trigger] chunks[i], n) by {
    }
    lemma_rounds_all(ss, chunks, t, n);
    lemma_chunks_flatten_at(n, k, p);
}

} // verus!
