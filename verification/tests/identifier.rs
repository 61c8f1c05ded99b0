//! Sample-id inference and the string helpers.

use milo_excel_helper::excel::guess_sample_id;
use milo_excel_helper::strutil::{number_format_string, split_tokens, str_contains, str_eq};

#[test]
fn guess_prefers_the_numeric_match() {
    let filenames = vec!["ns-ag05-ab15.tif", "ns-ag05-ba51", "ns-ag05-ab15"];
    assert_eq!(guess_sample_id(&filenames).unwrap(), "ag05".to_string());
}

#[test]
fn guess_joins_multiple_numeric_matches() {
    let filenames = vec!["ns-ag05-131-ab15.tif", "ns-ag05-132-ab15.tif"];
    assert_eq!(guess_sample_id(&filenames).unwrap(), "ns-ag05-ab15-tif".to_string());
}

#[test]
fn guess_single_numeric_match_across_mixed_orderings() {
    let filenames = vec![
        "ns-ag05-131-ab15.tif",
        "ns-ag05-132-ba51.tif",
        "ns-ag05-133-ab15.tif",
        "ns-ag05-134-ba51.tif",
        "ns-ag05-135-ab15.tif",
        "ns-ag05-136-ba51.tif",
    ];
    assert_eq!(guess_sample_id(&filenames).unwrap(), "ag05".to_string());
}

#[test]
fn guess_joins_non_numeric_matches_when_ids_diverge() {
    let filenames = vec![
        "ns-ag05-131-ab15.tif",
        "ns-ag05-132-ba51.tif",
        "ns-ag05-133-ab15.tif",
        "ns-ag05-134-ba51.tif",
        "ns-ag05-135-ab15.tif",
        "ns-ag05-136-ba51.tif",
        "ns-ag06-141-ab15.tif",
    ];
    assert_eq!(guess_sample_id(&filenames).unwrap(), "ns-tif".to_string());
}

#[test]
fn guess_of_empty_batch_is_none() {
    let filenames: Vec<&str> = Vec::new();
    assert_eq!(guess_sample_id(&filenames), None);
}

#[test]
fn guess_with_no_shared_token_is_none() {
    let filenames = vec!["abc", "xyz"];
    assert_eq!(guess_sample_id(&filenames), None);
}

#[test]
fn guess_single_match_is_returned_as_it_stands() {
    let filenames = vec!["run-one", "run-two"];
    assert_eq!(guess_sample_id(&filenames).unwrap(), "run".to_string());
}

#[test]
fn split_keeps_empty_tokens() {
    assert_eq!(split_tokens("a-b.c"), vec!["a", "b", "c"]);
    assert_eq!(split_tokens("a--b"), vec!["a", "", "b"]);
    assert_eq!(split_tokens("-a-"), vec!["", "a", ""]);
    assert_eq!(split_tokens(""), vec![""]);
}

#[test]
fn string_equality_and_containment() {
    assert!(str_eq("abc", "abc"));
    assert!(!str_eq("abc", "abd"));
    assert!(!str_eq("abc", "ab"));
    assert!(str_contains("hello", "ell"));
    assert!(str_contains("hello", ""));
    assert!(!str_contains("hello", "elo"));
    assert!(!str_contains("he", "hello"));
}

#[test]
fn number_formats_for_the_renderer() {
    assert_eq!(number_format_string(0, false), "0.".to_string());
    assert_eq!(number_format_string(2, false), "0.00".to_string());
    assert_eq!(number_format_string(2, true), "0.00%".to_string());
    assert_eq!(number_format_string(1, false), "0.0".to_string());
}
