//! Classification, labels, canonical reordering and record grouping.

use milo_excel_helper::data::{group_records, InputFile, InputLine, SampleOrder};

fn line(grid_idx: i32, area1: i32, area2: i32, perc: f32) -> InputLine {
    InputLine {
        grid_idx,
        area1,
        area2,
        perc_area2: perc.to_bits(),
    }
}

fn lines(n: i32) -> Vec<InputLine> {
    (0..n).map(|i| line(i, i * 10, i * 100, i as f32)).collect()
}

#[test]
fn classify_plain_indicators() {
    assert_eq!(SampleOrder::from_file_id("ns-ag05-ab15.tif"), SampleOrder::AB15);
    assert_eq!(SampleOrder::from_file_id("ns-ag05-ba51.tif"), SampleOrder::BA51);
    assert_eq!(SampleOrder::from_file_id("x-ab110.csv"), SampleOrder::AB110);
    assert_eq!(SampleOrder::from_file_id("x-ba101.csv"), SampleOrder::BA101);
    assert_eq!(SampleOrder::from_file_id("a-up-b"), SampleOrder::AB51);
    assert_eq!(SampleOrder::from_file_id("a-dn-b"), SampleOrder::BA15);
    assert_eq!(SampleOrder::from_file_id("a-UP-b"), SampleOrder::AB15);
    assert_eq!(SampleOrder::from_file_id("a-DN-b"), SampleOrder::BA51);
    assert_eq!(SampleOrder::from_file_id("a-top-b"), SampleOrder::AB15);
    assert_eq!(SampleOrder::from_file_id("a-btm-b"), SampleOrder::BA51);
    assert_eq!(SampleOrder::from_file_id("nothing-here"), SampleOrder::Unknown);
    assert_eq!(SampleOrder::from_file_id(""), SampleOrder::Unknown);
}

#[test]
fn classify_tokens_only_match_exactly() {
    // Indicators are matched against whole tokens, not substrings.
    assert_eq!(SampleOrder::from_file_id("ns-xab15y"), SampleOrder::Unknown);
    // Both `-` and `.` separate tokens.
    assert_eq!(SampleOrder::from_file_id("ns.ab15"), SampleOrder::AB15);
}

#[test]
fn classify_alternate_indicator_spellings() {
    assert_eq!(SampleOrder::from_file_id("x-15ab-y"), SampleOrder::AB15);
    assert_eq!(SampleOrder::from_file_id("x-51ba-y"), SampleOrder::BA51);
    assert_eq!(SampleOrder::from_file_id("x-uc-y"), SampleOrder::AB51);
    assert_eq!(SampleOrder::from_file_id("x-dc-y"), SampleOrder::BA15);
    // The underscore is part of the token, not a separator.
    assert_eq!(SampleOrder::from_file_id("x-ab1_10.csv"), SampleOrder::AB110);
    assert_eq!(SampleOrder::from_file_id("x-BA10_1.csv"), SampleOrder::BA101);
}

#[test]
fn classify_precedence_over_lower_ranked_indicators() {
    // AB110 outranks AB51 and BA15; BA101 outranks both too.
    assert_eq!(SampleOrder::from_file_id("x-ab110-up"), SampleOrder::AB110);
    assert_eq!(SampleOrder::from_file_id("x-ba101-dn"), SampleOrder::BA101);
    // But AB15 and BA51 outrank AB110.
    assert_eq!(SampleOrder::from_file_id("x-ab110-ab15"), SampleOrder::AB15);
    assert_eq!(SampleOrder::from_file_id("x-ab110-ba51"), SampleOrder::BA51);
}

#[test]
fn classify_precedence_ab15_over_ba51() {
    // Indicators for both AB15 and BA51: AB15 stands first in the priority
    // list and wins.
    assert_eq!(SampleOrder::from_file_id("ns-ab15-ba51"), SampleOrder::AB15);
    assert_eq!(SampleOrder::from_file_id("ns-ba51-ab15"), SampleOrder::AB15);
}

#[test]
fn classify_precedence_ab51_over_ba15() {
    // Only AB51 and BA15 indicators: AB51 stands earlier and wins.
    assert_eq!(SampleOrder::from_file_id("ns-ab51-ba15"), SampleOrder::AB51);
    assert_eq!(SampleOrder::from_file_id("ns-ba15-ab51"), SampleOrder::AB51);
}

#[test]
fn labels_of_each_ordering() {
    assert_eq!(
        SampleOrder::AB15.get_labels(),
        vec!["1a", "1b", "2a", "2b", "3a", "3b", "4a", "4b", "5a", "5b"]
    );
    assert_eq!(
        SampleOrder::BA51.get_labels(),
        vec!["5b", "5a", "4b", "4a", "3b", "3a", "2b", "2a", "1b", "1a"]
    );
    assert_eq!(
        SampleOrder::AB51.get_labels(),
        vec!["5a", "5b", "4a", "4b", "3a", "3b", "2a", "2b", "1a", "1b"]
    );
    assert_eq!(
        SampleOrder::BA15.get_labels(),
        vec!["1b", "1a", "2b", "2a", "3b", "3a", "4b", "4a", "5b", "5a"]
    );
    assert_eq!(
        SampleOrder::AB110.get_labels(),
        vec![
            "1a", "1b", "2a", "2b", "3a", "3b", "4a", "4b", "5a", "5b", "6a", "6b", "7a", "7b",
            "8a", "8b", "9a", "9b", "10a", "10b"
        ]
    );
    assert_eq!(
        SampleOrder::BA101.get_labels(),
        vec![
            "10b", "10a", "9b", "9a", "8b", "8a", "7b", "7a", "6b", "6a", "5b", "5a", "4b", "4a",
            "3b", "3a", "2b", "2a", "1b", "1a"
        ]
    );
}

#[test]
fn unknown_labels_are_placeholders_and_reorder_is_identity() {
    let labels = SampleOrder::Unknown.get_labels();
    assert_eq!(labels.len(), 10);
    for l in labels {
        assert_eq!(l, "??");
    }
    let v = lines(7);
    let reordered = InputFile::get_ab15_order(SampleOrder::Unknown, &v);
    assert_eq!(reordered, v);
}

#[test]
fn reorder_identity_branches() {
    let v = lines(10);
    assert_eq!(InputFile::get_ab15_order(SampleOrder::AB15, &v), v);
    assert_eq!(InputFile::get_ab15_order(SampleOrder::AB110, &v), v);
}

#[test]
fn reorder_reversal_branches() {
    let v = lines(4);
    let rev: Vec<InputLine> = v.iter().rev().cloned().collect();
    assert_eq!(InputFile::get_ab15_order(SampleOrder::BA51, &v), rev);
    assert_eq!(InputFile::get_ab15_order(SampleOrder::BA101, &v), rev);
}

#[test]
fn reorder_pair_swap_branches() {
    let v = lines(4);
    let swapped = vec![v[1], v[0], v[3], v[2]];
    assert_eq!(InputFile::get_ab15_order(SampleOrder::AB51, &v), swapped);
    let swapped_rev: Vec<InputLine> = swapped.iter().rev().cloned().collect();
    assert_eq!(InputFile::get_ab15_order(SampleOrder::BA15, &v), swapped_rev);
}

#[test]
fn reorder_pair_swap_drops_trailing_unpaired_record() {
    let v = lines(5);
    let swapped = vec![v[1], v[0], v[3], v[2]];
    assert_eq!(InputFile::get_ab15_order(SampleOrder::AB51, &v), swapped);
}

#[test]
fn reorder_identity_branch_twice_is_noop() {
    let v = lines(6);
    let once = InputFile::get_ab15_order(SampleOrder::AB15, &v);
    let twice = InputFile::get_ab15_order(SampleOrder::AB15, &once);
    assert_eq!(twice, once);
}

#[test]
fn reorder_reversal_branch_twice_restores_original() {
    let v = lines(6);
    let once = InputFile::get_ab15_order(SampleOrder::BA51, &v);
    let twice = InputFile::get_ab15_order(SampleOrder::BA51, &once);
    assert_eq!(twice, v);
    let once = InputFile::get_ab15_order(SampleOrder::BA101, &v);
    let twice = InputFile::get_ab15_order(SampleOrder::BA101, &once);
    assert_eq!(twice, v);
}

#[test]
fn new_file_derives_ordering_from_id() {
    let f = InputFile::new("ns-ag05-ba51", lines(3));
    assert_eq!(f.file_id, "ns-ag05-ba51");
    assert_eq!(f.sample_ordering, SampleOrder::BA51);
    assert_eq!(f.input_lines, lines(3));
}

#[test]
fn group_records_groups_consecutive_runs() {
    let rows = vec![
        ("a-ab15".to_string(), line(0, 1, 2, 0.5)),
        ("a-ab15".to_string(), line(1, 3, 4, 0.6)),
        ("b-ba51".to_string(), line(2, 5, 6, 0.7)),
    ];
    let files = group_records(rows);
    assert_eq!(files.len(), 2);
    assert_eq!(files[0].file_id, "a-ab15");
    assert_eq!(files[0].sample_ordering, SampleOrder::AB15);
    assert_eq!(files[0].input_lines.len(), 2);
    assert_eq!(files[0].input_lines[1].area1, 3);
    assert_eq!(files[1].file_id, "b-ba51");
    assert_eq!(files[1].sample_ordering, SampleOrder::BA51);
    assert_eq!(files[1].input_lines, vec![line(2, 5, 6, 0.7)]);
}

#[test]
fn group_records_restarts_group_for_reappearing_id() {
    let rows = vec![
        ("a".to_string(), line(0, 0, 0, 0.0)),
        ("b".to_string(), line(1, 0, 0, 0.0)),
        ("a".to_string(), line(2, 0, 0, 0.0)),
    ];
    let files = group_records(rows);
    assert_eq!(files.len(), 3);
    assert_eq!(files[0].file_id, "a");
    assert_eq!(files[1].file_id, "b");
    assert_eq!(files[2].file_id, "a");
}

#[test]
fn group_records_of_nothing_is_empty() {
    let files = group_records(Vec::new());
    assert!(files.is_empty());
}

#[test]
fn sentinel_records_pass_through_unchanged() {
    // The parse-failure sentinel is a value like any other.
    let f = InputFile::new("x-ab15", vec![line(-2, -2, -2, -2.0)]);
    assert_eq!(f.input_lines[0].grid_idx, -2);
    assert_eq!(f.input_lines[0].perc_area2, (-2.0f32).to_bits());
}
