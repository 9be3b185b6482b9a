use cutr::cut::{cut, cut_record, Cutter};
use cutr::extract::Extract;
use cutr::positions::parse_pos;
use cutr::record::{parse_record, write_field, write_record, DelimitedRecord, RecordParseError};

fn strings(fields: &[&str]) -> Vec<String> {
    fields.iter().map(|f| f.to_string()).collect()
}

fn fields_of(text: &str, delimiter: u8) -> Vec<String> {
    parse_record(text, delimiter).unwrap().into_fields()
}

#[test]
fn record_splits_at_the_delimiter() {
    assert_eq!(fields_of("Captain\tSham\t12345", b'\t'), strings(&["Captain", "Sham", "12345"]));
    assert_eq!(fields_of("a,b,c", b','), strings(&["a", "b", "c"]));
    assert_eq!(fields_of("a,b,c", b'\t'), strings(&["a,b,c"]));
    assert_eq!(fields_of("a,,c,", b','), strings(&["a", "", "c", ""]));
    assert_eq!(fields_of(",", b','), strings(&["", ""]));
}

#[test]
fn empty_text_has_no_fields() {
    assert_eq!(fields_of("", b','), Vec::<String>::new());
}

#[test]
fn quoted_field_may_hold_delimiters_and_line_breaks() {
    assert_eq!(fields_of("\"a,b\",c", b','), strings(&["a,b", "c"]));
    assert_eq!(fields_of("x,\"one\ntwo\r\n\",y", b','), strings(&["x", "one\ntwo\r\n", "y"]));
    assert_eq!(fields_of("\"\"", b','), strings(&[""]));
    assert_eq!(fields_of("\"\",\"\"", b','), strings(&["", ""]));
}

#[test]
fn doubled_quote_is_one_quote() {
    assert_eq!(fields_of("\"say \"\"hi\"\"\",b", b','), strings(&["say \"hi\"", "b"]));
    assert_eq!(fields_of("\"\"\"\"", b','), strings(&["\""]));
}

#[test]
fn quote_inside_an_unquoted_field_is_text() {
    assert_eq!(fields_of("a\"b,c", b','), strings(&["a\"b", "c"]));
    assert_eq!(fields_of("a\"\"", b','), strings(&["a\"\""]));
}

#[test]
fn text_after_a_closing_quote_goes_on_unquoted() {
    assert_eq!(fields_of("\"ab\"cd,e", b','), strings(&["abcd", "e"]));
    assert_eq!(fields_of("\"ab\"c\"d,e", b','), strings(&["abc\"d", "e"]));
}

#[test]
fn open_quote_is_a_fault() {
    assert_eq!(parse_record("\"abc", b','), Err(RecordParseError::UnterminatedQuote));
    assert_eq!(parse_record("a,\"b,c", b','), Err(RecordParseError::UnterminatedQuote));
    assert_eq!(parse_record("\"", b','), Err(RecordParseError::UnterminatedQuote));
    assert_eq!(parse_record("\"a\"\"", b','), Err(RecordParseError::UnterminatedQuote));
}

#[test]
fn plain_fields_are_written_as_they_are() {
    assert_eq!(write_record(&strings(&["Captain", "12345"]), b'\t'), "Captain\t12345");
    assert_eq!(write_record(&strings(&["a", "", "c"]), b','), "a,,c");
    assert_eq!(write_record(&strings(&["a b", "c;d"]), b','), "a b,c;d");
    assert_eq!(write_record(&strings(&[]), b','), "");
    assert_eq!(write_record(&strings(&[""]), b','), "");
    assert_eq!(write_record(&strings(&["only"]), b','), "only");
}

#[test]
fn special_fields_are_written_in_quotes() {
    assert_eq!(write_record(&strings(&["a,b", "c"]), b','), "\"a,b\",c");
    assert_eq!(write_record(&strings(&["a,b", "c"]), b'\t'), "a,b\tc");
    assert_eq!(write_record(&strings(&["a\tb", "c"]), b'\t'), "\"a\tb\"\tc");
    assert_eq!(write_record(&strings(&["one\ntwo"]), b','), "\"one\ntwo\"");
    assert_eq!(write_record(&strings(&["one\rtwo"]), b','), "\"one\rtwo\"");
    assert_eq!(write_record(&strings(&["say \"hi\""]), b','), "\"say \"\"hi\"\"\"");
    assert_eq!(write_record(&strings(&["\""]), b','), "\"\"\"\"");
}

#[test]
fn write_field_appends() {
    let mut out = String::from("x=");
    write_field(&mut out, "1,2", b',');
    assert_eq!(out, "x=\"1,2\"");
    write_field(&mut out, "3", b',');
    assert_eq!(out, "x=\"1,2\"3");
}

#[test]
fn written_record_reads_back() {
    let cases: [&[&str]; 6] = [
        &["a", "b"],
        &["a,b", "\"", "", "x\ny"],
        &["", ""],
        &["\"\"", ",", "\r"],
        &["\"a", "b\""],
        &["é,", "€"],
    ];
    for fields in cases {
        let line = write_record(&strings(fields), b',');
        assert_eq!(fields_of(&line, b','), strings(fields), "{:?}", line);
    }
}

#[test]
fn plain_line_round_trips() {
    for line in ["Captain\tSham\t12345", "a", "a\t\tb\t", "\t", "", "no delimiter here"] {
        let record = parse_record(line, b'\t').unwrap();
        let all = [0..record.len()];
        assert_eq!(cut_record(&record, &all, b'\t').unwrap_or_default(), line);
    }
}

#[test]
fn fields_are_cut_from_a_record() {
    let extract = Extract::Fields(vec![0..1, 2..3]);
    assert_eq!(cut(&extract, b'\t', "Captain\tSham\t12345"), Ok(Some("Captain\t12345".to_string())));
}

#[test]
fn record_without_selected_fields_gives_no_line() {
    let extract = Extract::Fields(vec![3..4]);
    assert_eq!(cut(&extract, b'\t', "Captain\tSham\t12345"), Ok(None));
    assert_eq!(cut(&extract, b'\t', ""), Ok(None));
    let record = DelimitedRecord::new(strings(&["a"]));
    assert_eq!(cut_record(&record, &[1..9], b','), None);
}

#[test]
fn selected_empty_field_gives_an_empty_line() {
    let extract = Extract::Fields(vec![1..2]);
    assert_eq!(cut(&extract, b',', "a,,c"), Ok(Some(String::new())));
}

#[test]
fn cut_requotes_what_needs_quotes() {
    let extract = Extract::Fields(vec![1..2, 0..1]);
    assert_eq!(
        cut(&extract, b',', "plain,\"with, comma\",x"),
        Ok(Some("\"with, comma\",plain".to_string()))
    );
    assert_eq!(cut(&extract, b',', "\"q\"\"\",b"), Ok(Some("b,\"q\"\"\"".to_string())));
}

#[test]
fn cut_in_byte_and_character_mode() {
    assert_eq!(cut(&Extract::Bytes(vec![0..1]), b'\t', "ábc"), Ok(Some("\u{fffd}".to_string())));
    assert_eq!(cut(&Extract::Bytes(vec![0..2]), b'\t', "ábc"), Ok(Some("á".to_string())));
    assert_eq!(cut(&Extract::Chars(vec![0..1]), b'\t', "ábc"), Ok(Some("á".to_string())));
    assert_eq!(cut(&Extract::Chars(vec![2..3, 1..2]), b'\t', "ábc"), Ok(Some("cb".to_string())));
    assert_eq!(cut(&Extract::Chars(vec![5..6]), b'\t', "ábc"), Ok(Some(String::new())));
    assert_eq!(cut(&Extract::Bytes(vec![0..1]), b'\t', "\"open"), Ok(Some("\"".to_string())));
}

#[test]
fn cut_reports_an_open_quote() {
    let extract = Extract::Fields(vec![0..1]);
    assert_eq!(cut(&extract, b',', "a,\"b"), Err(RecordParseError::UnterminatedQuote));
}

#[test]
fn parsed_list_drives_the_cut() {
    let extract = Extract::Chars(parse_pos("3,1-2").unwrap());
    assert_eq!(cut(&extract, b'\t', "abc"), Ok(Some("cab".to_string())));
}

#[test]
fn cutter_gives_a_line_for_each_line() {
    let mut cutter = Cutter::new(Extract::Chars(vec![0..2]), b'\t');
    assert_eq!(cutter.feed("hello"), Some("he".to_string()));
    assert_eq!(cutter.feed(""), Some(String::new()));
    assert_eq!(cutter.feed("\"x"), Some("\"x".to_string()));
    assert_eq!(cutter.finish(), Ok(()));
}

#[test]
fn cutter_joins_the_lines_of_a_record() {
    let mut cutter = Cutter::new(Extract::Fields(vec![1..2]), b',');
    assert_eq!(cutter.feed("a,b"), Some("b".to_string()));
    assert_eq!(cutter.feed("c,\"two"), None);
    assert_eq!(cutter.feed("more"), None);
    assert_eq!(cutter.feed("lines\",e"), Some("\"two\nmore\nlines\"".to_string()));
    assert_eq!(cutter.feed("f"), None);
    assert_eq!(cutter.feed(""), None);
    assert_eq!(cutter.feed("g,h"), Some("h".to_string()));
    assert_eq!(cutter.finish(), Ok(()));
}

#[test]
fn cutter_fails_on_a_quote_left_open() {
    let mut cutter = Cutter::new(Extract::Fields(vec![0..1]), b',');
    assert_eq!(cutter.feed("\"never closed"), None);
    assert_eq!(cutter.feed("second line"), None);
    assert_eq!(cutter.finish(), Err(RecordParseError::UnterminatedQuote));
    assert_eq!(cutter.finish(), Ok(()));
    assert_eq!(cutter.feed("a,b"), Some("a".to_string()));
}
