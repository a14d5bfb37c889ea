//! The orchestrator's verified core: extract every input file, filter
//! each candidate chain against every configured reference set, then
//! self-deduplicate the surviving pool.
//!
//! I/O stays outside: callers hand in the files' lines and the loaded
//! reference sets as plain values, and take the final records back.

use vstd::prelude::*;

use crate::dedup::dedupe_chains;
use crate::dedup::dedupe_spec;
use crate::extract::ChainRecord;
use crate::extract::ExtractError;
use crate::extract::RecView;
use crate::extract::copy_bytes;
use crate::extract::extract_spec;
use crate::extract::get_dssp_data;
use crate::similarity::is_above_thresh_with_set;
use crate::similarity::passes_set_spec;
use crate::similarity::thresh_or;

verus! {

/// One input file: its code (the identity prefix of its chains) and
/// its raw lines.
pub struct FileInput {
    pub code: Vec<u8>,
    pub lines: Vec<Vec<u8>>,
}

/// The similarity threshold of the self-deduplication phases.
pub fn get_similarity_thresh() -> (r: Option<u64>)
    ensures
        r == Some(60u64),
{
    Some(60)
}

/// All files' records, in file order, stopping at the first fault.
pub open spec fn extract_all_spec(files: Seq<FileInput>) -> Result<Seq<RecView>, ExtractError>
    decreases files.len(),
{
    if files.len() == 0 {
        Result::Ok(seq![])
    } else {
        match extract_all_spec(files.drop_last()) {
            Result::Err(e) => Result::Err(e),
            Result::Ok(acc) => match extract_spec(
                files.last().lines.deep_view(),
                files.last().code@,
            ) {
                Result::Err(e) => Result::Err(e),
                Result::Ok(recs) => Result::Ok(acc + recs),
            },
        }
    }
}

proof fn lemma_extract_all_err_prefix(files: Seq<FileInput>, k: int)
    requires
        0 <= k <= files.len(),
        extract_all_spec(files.take(k)) is Err,
    ensures
        extract_all_spec(files) == extract_all_spec(files.take(k)),
    decreases files.len(),
{
    if k < files.len() {
        assert(files.drop_last().take(k) =~= files.take(k));
        lemma_extract_all_err_prefix(files.drop_last(), k);
    } else {
        assert(files.take(k) =~= files);
    }
}

/// A candidate chain is accepted when it is long enough and passes
/// against every configured reference set.
pub open spec fn accept_spec(rec: RecView, refs: Seq<Seq<Seq<u8>>>, t: int, min_len: int) -> bool {
    rec.res.len() >= min_len && forall|s: int|
        0 <= s < refs.len() ==> passes_set_spec(rec.res, #[trigger] refs[s], t)
}

/// The accepted chains, in order.
pub open spec fn filter_records(
    recs: Seq<RecView>,
    refs: Seq<Seq<Seq<u8>>>,
    t: int,
    min_len: int,
) -> Seq<RecView> {
    recs.filter(|r: RecView| accept_spec(r, refs, t, min_len))
}

/// The whole pipeline: extraction, cross-set filtering at the
/// cross-threshold, then self-deduplication at the dedup-threshold over
/// `p` chunks; the result is the deduplicated records, in kept order.
pub open spec fn pipeline_spec(
    files: Seq<FileInput>,
    refs: Seq<Seq<Seq<u8>>>,
    cross_t: int,
    dedup_t: int,
    p: int,
    min_len: int,
) -> Result<Seq<RecView>, ExtractError> {
    match extract_all_spec(files) {
        Result::Err(e) => Result::Err(e),
        Result::Ok(recs) => {
            let kept_recs = filter_records(recs, refs, cross_t, min_len);
            let seqs = kept_recs.map_values(|r: RecView| r.res);
            let kept = dedupe_spec(seqs, kept_recs.len() as int, p, dedup_t);
            Result::Ok(kept.map_values(|i: usize| kept_recs[i as int]))
        },
    }
}

/// The candidate passes against every one of the loaded reference sets.
fn passes_all_sets(candidate: &Vec<u8>, ref_sets: &Vec<Vec<Vec<u8>>>, threshold: Option<u64>) -> (r:
    bool)
    ensures
        r == (forall|s: int|
            0 <= s < ref_sets@.len() ==> passes_set_spec(
                candidate@,
                #[trigger] ref_sets.deep_view()[s],
                thresh_or(threshold, 20),
            )),
{
    let mut s: usize = 0;
    while s < ref_sets.len()
        invariant
            s <= ref_sets@.len(),
            forall|x: int|
                0 <= x < s ==> passes_set_spec(
                    candidate@,
                    #[trigger] ref_sets.deep_view()[x],
                    thresh_or(threshold, 20),
                ),
        decreases ref_sets@.len() - s,
    {
        let ok = is_above_thresh_with_set(candidate, &ref_sets[s], threshold);
        proof {
            assert(ref_sets.deep_view()[s as int] =~= ref_sets@[s as int].deep_view());
        }
        if !ok {
            return false;
        }
        s = s + 1;
    }
    true
}

fn copy_record(rec: &ChainRecord) -> (r: ChainRecord)
    ensures
        r@ == rec@,
{
    ChainRecord {
        chain_id: copy_bytes(&rec.chain_id),
        first_res: rec.first_res,
        res: copy_bytes(&rec.res),
        ss: copy_bytes(&rec.ss),
    }
}

/// Run the whole pipeline over already-read files and already-loaded
/// reference sets. `Err` reproduces the first extraction fault, in file
/// order; `Ok` is exactly what the pipeline keeps: chains of at least
/// `min_len` residues that pass every reference set at the
/// cross-threshold (default 20), deduplicated at the dedup-threshold
/// over `num_chunks` chunks.
#[verifier::rlimit(60)]
pub fn run_pipeline(
    files: &Vec<FileInput>,
    ref_sets: &Vec<Vec<Vec<u8>>>,
    cross_threshold: Option<u64>,
    dedup_threshold: u64,
    num_chunks: usize,
    min_len: usize,
) -> (r: Result<Vec<ChainRecord>, ExtractError>)
    requires
        num_chunks >= 1,
    ensures
        (match (r, pipeline_spec(
            files@,
            ref_sets.deep_view(),
            thresh_or(cross_threshold, 20),
            dedup_threshold as int,
            num_chunks as int,
            min_len as int,
        )) {
            (Result::Ok(v), Result::Ok(s)) => v@.map_values(|c: ChainRecord| c@) == s,
            (Result::Err(e1), Result::Err(e2)) => e1 == e2,
            _ => false,
        }),
{
    let ghost refs = ref_sets.deep_view();
    let ghost cross_t = thresh_or(cross_threshold, 20);
    let ghost dedup_t = dedup_threshold as int;
    let mut recs: Vec<ChainRecord> = Vec::new();
    proof {
        assert(files@.take(0) =~= Seq::<FileInput>::empty());
        assert(recs@.map_values(|c: ChainRecord| c@) =~= Seq::<RecView>::empty());
    }
    let mut i: usize = 0;
    while i < files.len()
        invariant
            i <= files@.len(),
            extract_all_spec(files@.take(i as int)) == Result::Ok::<Seq<RecView>, ExtractError>(
                recs@.map_values(|c: ChainRecord| c@),
            ),
        decreases files@.len() - i,
    {
        let ghost pre = recs@.map_values(|c: ChainRecord| c@);
        match get_dssp_data(&files[i].lines, &files[i].code) {
            Err(e) => {
                proof {
                    assert(files@.take(i + 1).drop_last() =~= files@.take(i as int));
                    assert(files@.take(i + 1).last() == files@[i as int]);
                    assert(extract_all_spec(files@.take(i + 1)) == Result::Err::<
                        Seq<RecView>,
                        ExtractError,
                    >(e));
                    lemma_extract_all_err_prefix(files@, i + 1);
                }
                return Err(e);
            },
            Ok(mut file_recs) => {
                let mut j: usize = 0;
                let ghost fr = file_recs@.map_values(|c: ChainRecord| c@);
                proof {
                    assert(fr.take(0) =~= Seq::<RecView>::empty());
                    assert(pre + fr.take(0) =~= pre);
                }
                while j < file_recs.len()
                    invariant
                        j <= file_recs@.len(),
                        fr == file_recs@.map_values(|c: ChainRecord| c@),
                        recs@.map_values(|c: ChainRecord| c@) == pre + fr.take(j as int),
                    decreases file_recs@.len() - j,
                {
                    let one = copy_record(&file_recs[j]);
                    let ghost onev = one@;
                    let ghost prevv = recs@;
                    proof {
                        assert(fr[j as int] == file_recs@[j as int]@);
                        assert(onev == fr[j as int]);
                    }
                    recs.push(one);
                    proof {
                        let newmap = recs@.map_values(|c: ChainRecord| c@);
                        let target = pre + fr.take(j + 1);
                        assert(fr.len() == file_recs@.len());
                        assert(j + 1 <= fr.len());
                        assert(fr.take(j as int).len() == j as int);
                        assert(fr.take(j + 1).len() == j + 1);
                        assert(prevv.map_values(|c: ChainRecord| c@).len() == prevv.len());
                        assert(prevv.len() == pre.len() + j);
                        assert(recs@ == prevv.push(recs@[prevv.len() as int]));
                        assert(recs@[prevv.len() as int]@ == onev);
                        assert forall|x: int| 0 <= x < newmap.len() implies newmap[x]
                            == target[x] by {
                            assert(newmap[x] == recs@[x]@);
                            if x < prevv.len() {
                                assert(recs@[x] == prevv[x]);
                                assert(prevv.map_values(|c: ChainRecord| c@)[x] == prevv[x]@);
                                assert(prevv.map_values(|c: ChainRecord| c@) == pre + fr.take(
                                    j as int,
                                ));
                                if x < pre.len() {
                                    assert(target[x] == pre[x]);
                                    assert((pre + fr.take(j as int))[x] == pre[x]);
                                } else {
                                    assert(target[x] == fr.take(j + 1)[x - pre.len()]);
                                    assert((pre + fr.take(j as int))[x] == fr.take(
                                        j as int,
                                    )[x - pre.len()]);
                                    assert(fr.take(j + 1)[x - pre.len()] == fr[x - pre.len()]);
                                    assert(fr.take(j as int)[x - pre.len()] == fr[x - pre.len()]);
                                }
                            } else {
                                assert(x == prevv.len());
                                assert(newmap[x] == onev);
                                assert(target[x] == fr.take(j + 1)[x - pre.len()]);
                                assert(x - pre.len() == j as int);
                            }
                        }
                        assert(newmap =~= target);
                    }
                    j = j + 1;
                }
                proof {
                    assert(fr.take(fr.len() as int) =~= fr);
                    assert(files@.take(i + 1).drop_last() =~= files@.take(i as int));
                    assert(files@.take(i + 1).last() == files@[i as int]);
                }
            },
        }
        i = i + 1;
    }
    proof {
        assert(files@.take(files@.len() as int) =~= files@);
    }
    let ghost all_recs = recs@.map_values(|c: ChainRecord| c@);
    let mut kept: Vec<ChainRecord> = Vec::new();
    proof {
        reveal_with_fuel(Seq::<_>::filter, 1);
        assert(all_recs.take(0) =~= Seq::<RecView>::empty());
        assert(kept@.map_values(|c: ChainRecord| c@) =~= Seq::<RecView>::empty());
    }
    let mut i2: usize = 0;
    while i2 < recs.len()
        invariant
            i2 <= recs@.len(),
            all_recs == recs@.map_values(|c: ChainRecord| c@),
            refs == ref_sets.deep_view(),
            cross_t == thresh_or(cross_threshold, 20),
            kept@.map_values(|c: ChainRecord| c@) == all_recs.take(i2 as int).filter(
                |r: RecView| accept_spec(r, refs, cross_t, min_len as int),
            ),
        decreases recs@.len() - i2,
    {
        let ghost pre = all_recs.take(i2 as int);
        let rec = &recs[i2];
        let long_enough = rec.res.len() >= min_len;
        let passes = if long_enough {
            passes_all_sets(&rec.res, ref_sets, cross_threshold)
        } else {
            false
        };
        let ghost accepted = long_enough && passes;
        proof {
            assert(all_recs[i2 as int] == recs@[i2 as int]@);
            if long_enough {
                assert(accepted == accept_spec(all_recs[i2 as int], refs, cross_t, min_len as int));
            } else {
                assert(!accept_spec(all_recs[i2 as int], refs, cross_t, min_len as int));
            }
        }
        if long_enough && passes {
            let one = copy_record(rec);
            kept.push(one);
        }
        proof {
            reveal_with_fuel(Seq::<_>::filter, 2);
            assert(all_recs.take(i2 + 1).drop_last() =~= pre);
            assert(all_recs.take(i2 + 1).last() == all_recs[i2 as int]);
            if accepted {
                assert(kept@.map_values(|c: ChainRecord| c@) =~= pre.filter(
                    |r: RecView| accept_spec(r, refs, cross_t, min_len as int),
                ).push(all_recs[i2 as int]));
            }
        }
        i2 = i2 + 1;
    }
    proof {
        assert(all_recs.take(all_recs.len() as int) =~= all_recs);
    }
    let ghost kept_recs = kept@.map_values(|c: ChainRecord| c@);
    let mut seqs: Vec<Vec<u8>> = Vec::new();
    let mut i3: usize = 0;
    while i3 < kept.len()
        invariant
            i3 <= kept@.len(),
            kept_recs == kept@.map_values(|c: ChainRecord| c@),
            seqs@.len() == i3,
            forall|x: int| 0 <= x < i3 ==> (#[trigger] seqs@[x])@ == kept_recs[x].res,
        decreases kept@.len() - i3,
    {
        let one = copy_bytes(&kept[i3].res);
        proof {
            assert(one@ == kept@[i3 as int].res@);
            assert(kept_recs[i3 as int] == kept@[i3 as int]@);
        }
        seqs.push(one);
        i3 = i3 + 1;
    }
    proof {
        assert forall|x: int|
            0 <= x < seqs@.len() implies seqs.deep_view()[x] == kept_recs.map_values(
            |r: RecView| r.res,
        )[x] by {
            assert(seqs.deep_view()[x] == (#[trigger] seqs@[x])@);
        }
        assert(seqs.deep_view() =~= kept_recs.map_values(|r: RecView| r.res));
    }
    let kept_idx = dedupe_chains(&seqs, num_chunks, dedup_threshold);
    let ghost final_idx = dedupe_spec(
        kept_recs.map_values(|r: RecView| r.res),
        kept_recs.len() as int,
        num_chunks as int,
        dedup_t,
    );
    let mut out: Vec<ChainRecord> = Vec::new();
    let mut i4: usize = 0;
    while i4 < kept_idx.len()
        invariant
            i4 <= kept_idx@.len(),
            kept_recs == kept@.map_values(|c: ChainRecord| c@),
            kept_idx@ == final_idx,
            forall|k: int| 0 <= k < kept_idx@.len() ==> (#[trigger] kept_idx@[k]) < kept@.len(),
            out@.len() == i4,
            forall|x: int|
                0 <= x < i4 ==> (#[trigger] out@[x])@ == kept_recs[kept_idx@[x] as int],
        decreases kept_idx@.len() - i4,
    {
        let idx = kept_idx[i4];
        let one = copy_record(&kept[idx]);
        out.push(one);
        proof {
            assert(kept_recs[idx as int] == kept@[idx as int]@);
        }
        i4 = i4 + 1;
    }
    proof {
        assert(out@.map_values(|c: ChainRecord| c@) =~= final_idx.map_values(
            |i: usize| kept_recs[i as int],
        ));
    }
    Ok(out)
}

} // verus!
