use ps4_rs::extract::ExtractError;
use ps4_rs::pipeline::get_similarity_thresh;
use ps4_rs::pipeline::run_pipeline;
use ps4_rs::pipeline::FileInput;

fn residue_line(num: i32, chain: char, aa: char, ss: char) -> Vec<u8> {
    format!("{:>10} {} {}  {}", num, chain, aa, ss).into_bytes()
}

fn marker_line() -> Vec<u8> {
    b"  #  RESIDUE AA STRUCTURE".to_vec()
}

fn chain_file(code: &[u8], chain: char, residues: &[u8]) -> FileInput {
    let mut lines = vec![b"header".to_vec(), marker_line()];
    for (i, &aa) in residues.iter().enumerate() {
        lines.push(residue_line(i as i32 + 1, chain, aa as char, 'H'));
    }
    FileInput { code: code.to_vec(), lines }
}

#[test]
fn default_dedup_threshold_is_sixty() {
    assert_eq!(get_similarity_thresh(), Some(60));
}

#[test]
fn pipeline_keeps_long_passing_chains() {
    let files = vec![
        chain_file(b"1aaa", 'A', b"MKVLAATGLVWKVLAATGLV"),
        chain_file(b"1bbb", 'B', b"GGGGGGGGGGGGGGGGGGGG"),
    ];
    let refs: Vec<Vec<Vec<u8>>> = Vec::new();
    let out = run_pipeline(&files, &refs, None, 60, 8, 16).unwrap();
    assert_eq!(out.len(), 2);
    assert_eq!(out[0].chain_id, b"1aaaA".to_vec());
    assert_eq!(out[0].first_res, 1);
    assert_eq!(out[1].chain_id, b"1bbbB".to_vec());
    for rec in &out {
        assert_eq!(rec.res.len(), rec.ss.len());
    }
}

#[test]
fn short_chains_are_filtered_out() {
    let files = vec![chain_file(b"1aaa", 'A', b"MKVLA")];
    let refs: Vec<Vec<Vec<u8>>> = Vec::new();
    let out = run_pipeline(&files, &refs, None, 60, 8, 16).unwrap();
    assert_eq!(out.len(), 0);
}

#[test]
fn reference_near_duplicates_are_filtered_out() {
    let seq = b"AAAAAAAAAAAAAAAAAAAA";
    let files = vec![chain_file(b"1aaa", 'A', seq)];
    let refs: Vec<Vec<Vec<u8>>> = vec![vec![seq.to_vec()]];
    let out = run_pipeline(&files, &refs, None, 60, 8, 16).unwrap();
    assert_eq!(out.len(), 0);
    // The same chain passes against a dissimilar reference set.
    let far_refs: Vec<Vec<Vec<u8>>> = vec![vec![b"TTTTTTTTTT".to_vec()]];
    let out2 = run_pipeline(&files, &far_refs, None, 60, 8, 16).unwrap();
    assert_eq!(out2.len(), 1);
}

#[test]
fn every_configured_set_must_pass() {
    let seq = b"AAAAAAAAAAAAAAAAAAAA";
    let files = vec![chain_file(b"1aaa", 'A', seq)];
    let refs: Vec<Vec<Vec<u8>>> = vec![vec![b"TTTTTTTTTT".to_vec()], vec![seq.to_vec()]];
    let out = run_pipeline(&files, &refs, None, 60, 8, 16).unwrap();
    assert_eq!(out.len(), 0);
}

#[test]
fn pipeline_deduplicates_across_files() {
    let seq = b"AAAAAAAAAAAAAAAAAAAA";
    let files = vec![chain_file(b"1aaa", 'A', seq), chain_file(b"1bbb", 'B', seq)];
    let refs: Vec<Vec<Vec<u8>>> = Vec::new();
    let out = run_pipeline(&files, &refs, None, 60, 8, 16).unwrap();
    assert_eq!(out.len(), 1);
    // The pair merge filters the first set against the second and keeps
    // the second untouched, so the later chunk's member survives.
    assert_eq!(out[0].chain_id, b"1bbbB".to_vec());
}

#[test]
fn extraction_fault_aborts_the_run() {
    let mut bad = chain_file(b"1aaa", 'A', b"MKVLAATGLVWKVLAATGLV");
    bad.lines.push(b"too short".to_vec());
    let files = vec![bad];
    let refs: Vec<Vec<Vec<u8>>> = Vec::new();
    assert_eq!(run_pipeline(&files, &refs, None, 60, 8, 16), Err(ExtractError::ShortLine));
}
