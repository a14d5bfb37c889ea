use ps4_rs::extract::get_beta_data_for;
use ps4_rs::extract::get_chain_for;
use ps4_rs::extract::get_dssp_data;
use ps4_rs::extract::get_res_num_name;
use ps4_rs::extract::get_ss_for;
use ps4_rs::extract::parse_res_i32;
use ps4_rs::extract::ExtractError;

fn residue_line(num: i32, chain: char, aa: char, ss: char) -> Vec<u8> {
    format!("{:>10} {} {}  {}", num, chain, aa, ss).into_bytes()
}

fn marker_line() -> Vec<u8> {
    b"  #  RESIDUE AA STRUCTURE".to_vec()
}

#[test]
fn parse_plain_number() {
    assert_eq!(parse_res_i32(&b"123".to_vec()), Some(123));
}

#[test]
fn parse_signed_numbers() {
    assert_eq!(parse_res_i32(&b"-45".to_vec()), Some(-45));
    assert_eq!(parse_res_i32(&b"+7".to_vec()), Some(7));
}

#[test]
fn parse_rejects_empty_and_stray_characters() {
    assert_eq!(parse_res_i32(&Vec::new()), None);
    assert_eq!(parse_res_i32(&b"-".to_vec()), None);
    assert_eq!(parse_res_i32(&b"12a".to_vec()), None);
}

#[test]
fn parse_honours_the_i32_range() {
    assert_eq!(parse_res_i32(&b"2147483647".to_vec()), Some(2147483647));
    assert_eq!(parse_res_i32(&b"2147483648".to_vec()), None);
    assert_eq!(parse_res_i32(&b"-2147483648".to_vec()), Some(-2147483648));
    assert_eq!(parse_res_i32(&b"-2147483649".to_vec()), None);
    assert_eq!(parse_res_i32(&b"0000000001".to_vec()), Some(1));
}

#[test]
fn residue_number_and_name_come_from_fixed_columns() {
    let l = residue_line(42, 'A', 'M', 'H');
    assert_eq!(get_res_num_name(&l), Some((42, b'M')));
}

#[test]
fn short_line_has_no_residue_number() {
    assert_eq!(get_res_num_name(&b"   12".to_vec()), None);
}

#[test]
fn chain_label_is_column_eleven() {
    let l = residue_line(1, 'B', 'G', 'E');
    assert_eq!(get_chain_for(&l), Some(b'B'));
    assert_eq!(get_chain_for(&b"short".to_vec()), None);
}

#[test]
fn blank_structure_code_becomes_default() {
    let l = residue_line(1, 'A', 'G', ' ');
    assert_eq!(get_ss_for(&l), Some(b'C'));
    let l2 = residue_line(1, 'A', 'G', 'H');
    assert_eq!(get_ss_for(&l2), Some(b'H'));
    assert_eq!(get_ss_for(&b"too short".to_vec()), None);
}

#[test]
fn beta_data_reads_both_numbers_and_the_label() {
    let mut l = residue_line(7, 'A', 'M', 'H');
    // Extend to the beta columns: 29..33 hold the pair, 33 the sheet.
    while l.len() < 29 {
        l.push(b' ');
    }
    l.extend_from_slice(b"  12S");
    assert_eq!(get_beta_data_for(&l), Some((7, 12, b'S')));
    assert_eq!(get_beta_data_for(&residue_line(7, 'A', 'M', 'H')), None);
}

#[test]
fn two_chains_give_two_records() {
    let code = b"1abc".to_vec();
    let lines = vec![
        b"some header".to_vec(),
        marker_line(),
        residue_line(1, 'A', 'M', 'H'),
        residue_line(2, 'A', 'K', ' '),
        residue_line(1, 'B', 'G', 'E'),
        residue_line(2, 'B', 'V', 'E'),
    ];
    let recs = get_dssp_data(&lines, &code).unwrap();
    assert_eq!(recs.len(), 2);
    assert_eq!(recs[0].chain_id, b"1abcA".to_vec());
    assert_eq!(recs[0].first_res, 1);
    assert_eq!(recs[0].res, b"MK".to_vec());
    assert_eq!(recs[0].ss, b"HC".to_vec());
    assert_eq!(recs[1].chain_id, b"1abcB".to_vec());
    assert_eq!(recs[1].first_res, 1);
    assert_eq!(recs[1].res, b"GV".to_vec());
    assert_eq!(recs[1].ss, b"EE".to_vec());
    for r in &recs {
        assert_eq!(r.res.len(), r.ss.len());
    }
}

#[test]
fn numbering_gap_drops_the_rest_of_the_chain() {
    let code = b"1abc".to_vec();
    let lines = vec![
        marker_line(),
        residue_line(1, 'A', 'M', 'H'),
        residue_line(2, 'A', 'K', 'H'),
        residue_line(5, 'A', 'W', 'H'),
        residue_line(6, 'A', 'Y', 'H'),
    ];
    let recs = get_dssp_data(&lines, &code).unwrap();
    assert_eq!(recs.len(), 1);
    assert_eq!(recs[0].chain_id, b"1abcA".to_vec());
    assert_eq!(recs[0].first_res, -998);
    assert_eq!(recs[0].res, Vec::<u8>::new());
    assert_eq!(recs[0].ss, Vec::<u8>::new());
}

#[test]
fn gap_then_new_chain_starts_fresh() {
    let code = b"1abc".to_vec();
    let lines = vec![
        marker_line(),
        residue_line(1, 'A', 'M', 'H'),
        residue_line(5, 'A', 'W', 'H'),
        residue_line(9, 'B', 'G', 'E'),
    ];
    let recs = get_dssp_data(&lines, &code).unwrap();
    assert_eq!(recs.len(), 2);
    assert_eq!(recs[0].chain_id, b"1abcA".to_vec());
    assert_eq!(recs[0].first_res, -998);
    assert_eq!(recs[0].res, Vec::<u8>::new());
    assert_eq!(recs[1].chain_id, b"1abcB".to_vec());
    assert_eq!(recs[1].first_res, 9);
    assert_eq!(recs[1].res, b"G".to_vec());
}

#[test]
fn break_marker_lines_are_skipped() {
    let code = b"1abc".to_vec();
    let lines = vec![
        marker_line(),
        residue_line(1, 'A', 'M', 'H'),
        b"        !chain break".to_vec(),
        residue_line(2, 'A', 'K', 'H'),
    ];
    let recs = get_dssp_data(&lines, &code).unwrap();
    assert_eq!(recs.len(), 1);
    assert_eq!(recs[0].res, b"MK".to_vec());
}

#[test]
fn header_lines_before_the_marker_are_ignored() {
    let code = b"1abc".to_vec();
    let lines = vec![
        b"HEADER something".to_vec(),
        b"".to_vec(),
        residue_line(1, 'Z', 'W', 'H'),
    ];
    // No marker line: nothing is ever accumulated, one empty flush.
    let recs = get_dssp_data(&lines, &code).unwrap();
    assert_eq!(recs.len(), 1);
    assert_eq!(recs[0].chain_id, b"1abc ".to_vec());
    assert_eq!(recs[0].first_res, -999);
    assert_eq!(recs[0].res, Vec::<u8>::new());
}

#[test]
fn short_residue_line_is_a_fault() {
    let code = b"1abc".to_vec();
    let lines = vec![marker_line(), b"too short".to_vec()];
    assert_eq!(get_dssp_data(&lines, &code), Err(ExtractError::ShortLine));
}

#[test]
fn non_numeric_residue_number_is_a_fault() {
    let code = b"1abc".to_vec();
    let mut bad = residue_line(1, 'A', 'M', 'H');
    bad[9] = b'x';
    let lines = vec![marker_line(), bad];
    assert_eq!(get_dssp_data(&lines, &code), Err(ExtractError::BadResidueNumber));
}
