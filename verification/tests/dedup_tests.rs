use ps4_rs::dedup::dedupe_chains;
use ps4_rs::dedup::dedupe_sets;

fn distinct_pool() -> Vec<Vec<u8>> {
    // Mutually distinct at threshold 60: every pairwise percentage is
    // 100 in both directions.
    vec![
        b"AAAAAAAAAA".to_vec(),
        b"TTTTTTTTTT".to_vec(),
        b"GGGGGGGGGG".to_vec(),
        b"CCCCCCCCCC".to_vec(),
        b"WWWWWWWWWW".to_vec(),
    ]
}

#[test]
fn near_duplicates_collapse_to_the_first() {
    let seqs: Vec<Vec<u8>> = vec![
        b"AAAAAAAAAA".to_vec(),
        b"AAAAAAAAAT".to_vec(),
        b"AAAAAAAATT".to_vec(),
    ];
    let kept = dedupe_chains(&seqs, 1, 60);
    assert_eq!(kept, vec![0]);
}

#[test]
fn distinct_members_all_survive() {
    let seqs = distinct_pool();
    let kept = dedupe_chains(&seqs, 2, 60);
    assert_eq!(kept, vec![0, 1, 2, 3, 4]);
}

#[test]
fn three_chunks_lose_nothing_on_the_odd_round() {
    // Five members over three chunks: the merge rounds see an odd set
    // count, and the trailing set is carried, not dropped.
    let seqs = distinct_pool();
    let kept = dedupe_chains(&seqs, 3, 60);
    assert_eq!(kept, vec![0, 1, 2, 3, 4]);
}

#[test]
fn more_chunks_than_members_is_fine() {
    let seqs = distinct_pool();
    let kept = dedupe_chains(&seqs, 8, 60);
    assert_eq!(kept, vec![0, 1, 2, 3, 4]);
}

#[test]
fn reducing_an_already_deduplicated_set_changes_nothing() {
    let seqs = distinct_pool();
    let first = dedupe_chains(&seqs, 3, 60);
    let reduced: Vec<Vec<u8>> = first.iter().map(|&i| seqs[i].clone()).collect();
    let second = dedupe_chains(&reduced, 3, 60);
    assert_eq!(second.len(), reduced.len());
    let roundtrip: Vec<Vec<u8>> = second.iter().map(|&i| reduced[i].clone()).collect();
    assert_eq!(roundtrip, reduced);
}

#[test]
fn duplicates_across_chunks_are_merged_out() {
    // Members 0 and 3 are near-duplicates but land in different chunks;
    // the merge phase filters the first set against the second, so the
    // member of the first set goes and the second set's member stays.
    let seqs: Vec<Vec<u8>> = vec![
        b"AAAAAAAAAA".to_vec(),
        b"TTTTTTTTTT".to_vec(),
        b"GGGGGGGGGG".to_vec(),
        b"AAAAAAAAAT".to_vec(),
    ];
    let kept = dedupe_chains(&seqs, 2, 60);
    assert_eq!(kept, vec![1, 2, 3]);
}

#[test]
fn empty_pool_gives_empty_result() {
    let seqs: Vec<Vec<u8>> = Vec::new();
    let kept = dedupe_chains(&seqs, 8, 60);
    assert_eq!(kept, Vec::<usize>::new());
}

#[test]
fn pair_merge_filters_first_set_only() {
    let seqs: Vec<Vec<u8>> = vec![
        b"AAAAAAAAAA".to_vec(),
        b"TTTTTTTTTT".to_vec(),
        b"AAAAAAAAAT".to_vec(),
    ];
    let set1: Vec<usize> = vec![0, 1];
    let set2: Vec<usize> = vec![2];
    // 0 is a near-duplicate of 2 and goes; 1 survives; 2 stays whole.
    let merged = dedupe_sets(&set1, &set2, &seqs, 60);
    assert_eq!(merged, vec![1, 2]);
}

#[test]
fn all_kept_pairs_are_distinct_at_the_threshold() {
    let seqs: Vec<Vec<u8>> = vec![
        b"AAAAAAAAAA".to_vec(),
        b"AAAAAAAAAT".to_vec(),
        b"TTTTTTTTTT".to_vec(),
        b"TTTTTTTTTA".to_vec(),
        b"GGGGGGGGGG".to_vec(),
    ];
    let kept = dedupe_chains(&seqs, 2, 60);
    for (x, &i) in kept.iter().enumerate() {
        for &j in kept.iter().skip(x + 1) {
            let a = ps4_rs::similarity::ratio(&seqs[i], &seqs[j]);
            let b = ps4_rs::similarity::ratio(&seqs[j], &seqs[i]);
            assert!(a.num > 60 * a.den || b.num > 60 * b.den);
        }
    }
}
