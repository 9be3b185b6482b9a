use cutr::record::{parse_record, write_record};

fn read_by_csv(line: &str, delimiter: u8) -> Vec<Vec<String>> {
    let mut reader = csv::ReaderBuilder::new()
        .delimiter(delimiter)
        .has_headers(false)
        .flexible(true)
        .from_reader(line.as_bytes());
    reader
        .records()
        .map(|record| record.unwrap().iter().map(String::from).collect())
        .collect()
}

fn written_by_csv(fields: &[String], delimiter: u8) -> String {
    let mut writer = csv::WriterBuilder::new().delimiter(delimiter).from_writer(Vec::new());
    writer.write_record(fields).unwrap();
    String::from_utf8(writer.into_inner().unwrap()).unwrap()
}

fn strings(fields: &[&str]) -> Vec<String> {
    fields.iter().map(|f| f.to_string()).collect()
}

#[test]
fn reading_agrees_with_the_csv_crate_on_single_lines() {
    let lines = [
        "Captain\tSham\t12345",
        "a,b,c",
        "a,,c,",
        ",",
        "\"a,b\",c",
        "\"say \"\"hi\"\"\",b",
        "a\"b,c",
        "\"ab\"cd,e",
        "\"\",x",
        "x,\"\"",
        " padded , fields ",
        "é,€,😀",
    ];
    for line in lines {
        for delimiter in [b',', b'\t'] {
            let ours = parse_record(line, delimiter).unwrap().into_fields();
            assert_eq!(vec![ours], read_by_csv(line, delimiter), "{:?}", line);
        }
    }
}

#[test]
fn reading_agrees_with_the_csv_crate_on_quoted_line_breaks() {
    let text = "x,\"one\ntwo\",y";
    let ours = parse_record(text, b',').unwrap().into_fields();
    assert_eq!(vec![ours], read_by_csv(text, b','));
}

#[test]
fn writing_agrees_with_the_csv_crate() {
    let records: [&[&str]; 9] = [
        &["Captain", "12345"],
        &["a", "", "c"],
        &["a,b", "c"],
        &["a\tb", "c"],
        &["one\ntwo", "x"],
        &["one\rtwo"],
        &["say \"hi\"", "\""],
        &["", ""],
        &["é", " spaced "],
    ];
    for fields in records {
        for delimiter in [b',', b'\t'] {
            let fields = strings(fields);
            let ours = write_record(&fields, delimiter) + "\n";
            assert_eq!(ours, written_by_csv(&fields, delimiter), "{:?}", fields);
        }
    }
}

#[test]
fn lone_empty_field_is_written_without_quotes() {
    // the csv crate writes a pair of quotes here; this convention quotes only special fields
    let fields = strings(&[""]);
    assert_eq!(write_record(&fields, b','), "");
    assert_eq!(written_by_csv(&fields, b','), "\"\"\n");
}

#[test]
fn empty_line_is_no_record_for_either() {
    assert_eq!(parse_record("", b',').unwrap().len(), 0);
    assert_eq!(read_by_csv("", b','), Vec::<Vec<String>>::new());
    assert_eq!(read_by_csv("\n\n", b','), Vec::<Vec<String>>::new());
}

#[test]
fn open_quote_is_a_fault_where_the_csv_crate_reads_on() {
    assert!(parse_record("a,\"b", b',').is_err());
    assert_eq!(read_by_csv("a,\"b", b','), vec![strings(&["a", "b"])]);
}
