use cutr::extract::{
    extract_bytes, extract_chars, extract_fields, extract_raw_bytes, select, select_bytes,
};
use cutr::record::DelimitedRecord;

fn record(fields: &[&str]) -> DelimitedRecord {
    DelimitedRecord::new(fields.iter().map(|f| f.to_string()).collect())
}

#[test]
fn test_extract_fields() {
    let rec = record(&["Captain", "Sham", "12345"]);
    assert_eq!(extract_fields(&rec, &[0..1]), &["Captain"]);
    assert_eq!(extract_fields(&rec, &[1..2]), &["Sham"]);
    assert_eq!(extract_fields(&rec, &[0..1, 2..3]), &["Captain", "12345"]);
    assert_eq!(extract_fields(&rec, &[0..1, 3..4]), &["Captain"]);
    assert_eq!(extract_fields(&rec, &[1..2, 0..1]), &["Sham", "Captain"]);
}

#[test]
fn test_extract_chars() {
    assert_eq!(extract_chars("", &[0..1]), "".to_string());
    assert_eq!(extract_chars("ábc", &[0..1]), "á".to_string());
    assert_eq!(extract_chars("ábc", &[0..1, 2..3]), "ác".to_string());
    assert_eq!(extract_chars("ábc", &[0..3]), "ábc".to_string());
    assert_eq!(extract_chars("ábc", &[2..3, 1..2]), "cb".to_string());
    assert_eq!(extract_chars("ábc", &[0..1, 1..2, 4..5]), "áb".to_string());
}

#[test]
fn test_extract_bytes() {
    assert_eq!(extract_bytes("ábc", &[0..1]), "�".to_string());
    assert_eq!(extract_bytes("ábc", &[0..2]), "á".to_string());
    assert_eq!(extract_bytes("ábc", &[0..3]), "áb".to_string());
    assert_eq!(extract_bytes("ábc", &[0..4]), "ábc".to_string());
    assert_eq!(extract_bytes("ábc", &[3..4, 2..3]), "cb".to_string());
    assert_eq!(extract_bytes("ábc", &[0..2, 5..6]), "á".to_string());
}

#[test]
fn select_follows_the_ranges() {
    let items = [10, 20, 30, 40];
    assert_eq!(select(&items, &[]), Vec::<i32>::new());
    assert_eq!(select(&items, &[0..4]), vec![10, 20, 30, 40]);
    assert_eq!(select(&items, &[2..4, 0..2]), vec![30, 40, 10, 20]);
    assert_eq!(select(&items, &[1..3, 1..3]), vec![20, 30, 20, 30]);
    assert_eq!(select(&items, &[0..3, 2..4]), vec![10, 20, 30, 30, 40]);
}

#[test]
fn select_skips_what_is_not_there() {
    let items = [10, 20, 30];
    assert_eq!(select(&items, &[3..4]), Vec::<i32>::new());
    assert_eq!(select(&items, &[2..usize::MAX]), vec![30]);
    assert_eq!(select(&items, &[usize::MAX - 1..usize::MAX]), Vec::<i32>::new());
    assert_eq!(select(&items, &[7..9, 0..1, 5..6]), vec![10]);
    let none: [i32; 0] = [];
    assert_eq!(select(&none, &[0..1]), Vec::<i32>::new());
}

#[test]
fn select_takes_nothing_from_an_empty_or_inverted_range() {
    let items = [10, 20, 30];
    assert_eq!(select(&items, &[1..1]), Vec::<i32>::new());
    #[allow(clippy::reversed_empty_ranges)]
    let inverted = 2..1;
    assert_eq!(select(&items, &[inverted]), Vec::<i32>::new());
}

#[test]
fn swapped_columns() {
    assert_eq!(extract_chars("ab", &[1..2, 0..1]), "ba");
    assert_eq!(extract_bytes("ab", &[1..2, 0..1]), "ba");
}

#[test]
fn select_bytes_counts_encoded_bytes() {
    assert_eq!(select_bytes("ábc", &[0..1]), vec![0xc3]);
    assert_eq!(select_bytes("ábc", &[1..3]), vec![0xa1, b'b']);
    assert_eq!(select_bytes("ábc", &[3..9]), vec![b'c']);
    assert_eq!(select_bytes("", &[0..9]), Vec::<u8>::new());
}

#[test]
fn extract_bytes_decodes_the_selection_not_the_line() {
    // the second byte of the character alone, then the first alone: two ill-formed parts
    assert_eq!(extract_bytes("ábc", &[1..2, 0..1]), "\u{fffd}\u{fffd}");
    // both halves picked apart and set side by side again make the character
    assert_eq!(extract_bytes("ábc", &[0..1, 1..2]), "á");
    assert_eq!(extract_bytes("€", &[0..2]), "\u{fffd}");
    assert_eq!(extract_bytes("€", &[0..3]), "€");
}

#[test]
fn extract_chars_counts_scalar_values() {
    assert_eq!(extract_chars("a€😀z", &[1..3]), "€😀");
    assert_eq!(extract_chars("a€😀z", &[3..4, 0..1]), "za");
    assert_eq!(extract_chars("a€😀z", &[4..5]), "");
}

#[test]
fn extract_fields_of_short_and_empty_records() {
    let rec = record(&[]);
    assert_eq!(extract_fields(&rec, &[0..1]), Vec::<String>::new());
    let rec = record(&["", "x"]);
    assert_eq!(extract_fields(&rec, &[0..1]), &[""]);
    assert_eq!(extract_fields(&rec, &[0..5, 1..2]), &["", "x", "x"]);
    assert_eq!(extract_fields(&rec, &[2..3]), Vec::<String>::new());
}

#[test]
fn record_hands_out_its_fields() {
    let rec = record(&["a", "b"]);
    assert_eq!(rec.len(), 2);
    assert_eq!(rec.get(0), Some("a"));
    assert_eq!(rec.get(1), Some("b"));
    assert_eq!(rec.get(2), None);
    assert_eq!(rec.into_fields(), vec!["a", "b"]);
}

#[test]
fn ascii_line_gives_the_same_by_bytes_and_by_characters() {
    let line = "The quick brown fox";
    let lists: [&[std::ops::Range<usize>]; 4] = [&[0..3], &[4..9, 0..3], &[16..30, 2..3, 2..3], &[40..41]];
    for list in lists {
        assert_eq!(extract_bytes(line, list), extract_chars(line, list));
    }
}

#[test]
fn whole_line_by_bytes_is_the_line() {
    for line in ["", "abc", "ábc", "a€😀z"] {
        assert_eq!(extract_bytes(line, &[0..line.len()]), line);
        assert_eq!(extract_bytes(line, &[0..usize::MAX]), line);
    }
}

#[test]
fn range_past_the_end_can_be_left_out() {
    let items = [1, 2, 3];
    assert_eq!(select(&items, &[0..2, 3..9, 1..2]), select(&items, &[0..2, 1..2]));
    assert_eq!(select(&items, &[1..9]), select(&items, &[1..3]));
}

#[test]
fn raw_line_need_not_be_well_formed() {
    let line = [b'a', 0xff, b'b', 0xc3, 0xa1];
    assert_eq!(extract_raw_bytes(&line, &[0..1, 2..3]), "ab");
    assert_eq!(extract_raw_bytes(&line, &[0..3]), "a\u{fffd}b");
    assert_eq!(extract_raw_bytes(&line, &[3..5]), "á");
    assert_eq!(extract_raw_bytes(&line, &[4..5, 9..10]), "\u{fffd}");
}
