//! Delimited records: a line split into fields at a one-byte delimiter, with
//! double quotes around fields that hold a delimiter, a quote or a line
//! break, and a doubled quote for a quote inside such a field.

use vstd::prelude::*;
use crate::text::{chars_of, lemma_texts_push, split, texts};

verus! {

/// The quote character of the convention.
pub open spec fn quote() -> char {
    '"'
}

/// The character that a delimiter byte stands for: the one with the same
/// code. For an ASCII delimiter that is the byte itself.
pub open spec fn delimiter_char(delimiter: u8) -> char {
    delimiter as char
}

/// A record: the fields of one line, in order.
#[derive(Debug, PartialEq, Eq)]
pub struct DelimitedRecord {
    fields: Vec<String>,
}

impl View for DelimitedRecord {
    type V = Seq<Seq<char>>;

    closed spec fn view(&self) -> Seq<Seq<char>> {
        texts(self.fields@)
    }
}

impl DelimitedRecord {
    /// The record with the given fields.
    pub fn new(fields: Vec<String>) -> (record: DelimitedRecord)
        ensures
            record@ == texts(fields@),
    {
        DelimitedRecord { fields }
    }

    /// The number of fields.
    pub fn len(&self) -> (n: usize)
        ensures
            n == self@.len(),
    {
        self.fields.len()
    }

    /// The field at position `i`, counted from zero, if the record has one.
    pub fn get(&self, i: usize) -> (field: Option<&str>)
        ensures
            match field {
                Some(text) => i < self@.len() && text@ == self@[i as int],
                None => i >= self@.len(),
            },
    {
        if i < self.fields.len() {
            Some(self.fields[i].as_str())
        } else {
            None
        }
    }

    /// The fields, handed out.
    pub fn into_fields(self) -> (fields: Vec<String>)
        ensures
            texts(fields@) == self@,
    {
        self.fields
    }
}

/// Where a scan of a record stands between two characters.
pub enum ScanState {
    /// At the start of a field: nothing of it was read yet.
    FieldStart,
    /// Inside a field that did not start with a quote.
    Unquoted,
    /// Inside a quoted field, after its opening quote.
    Quoted,
    /// Inside a quoted field, just after a quote that either closes the field
    /// or is the first of a doubled quote.
    QuoteSeen,
}

/// What a scan has read so far: the fields that are complete, the text of the
/// field it is in, and where it stands.
pub struct Scan {
    pub done: Seq<Seq<char>>,
    pub current: Seq<char>,
    pub state: ScanState,
}

/// A scan that has read nothing.
pub open spec fn scan_start() -> Scan {
    Scan { done: Seq::empty(), current: Seq::empty(), state: ScanState::FieldStart }
}

/// The scan after one more character `c`.
///
/// A quote opens a quoted field only at the start of a field; elsewhere
/// outside quotes it is text. Inside quotes everything is text but a quote:
/// two of them stand for one, and a single one closes the quoting, after
/// which the field goes on unquoted up to the next delimiter.
pub open spec fn scan_step(s: Scan, c: char, d: char) -> Scan {
    match s.state {
        ScanState::FieldStart => if c == quote() {
            Scan { state: ScanState::Quoted, ..s }
        } else if c == d {
            Scan { done: s.done.push(s.current), current: Seq::empty(), state: ScanState::FieldStart }
        } else {
            Scan { current: s.current.push(c), state: ScanState::Unquoted, ..s }
        },
        ScanState::Unquoted => if c == d {
            Scan { done: s.done.push(s.current), current: Seq::empty(), state: ScanState::FieldStart }
        } else {
            Scan { current: s.current.push(c), ..s }
        },
        ScanState::Quoted => if c == quote() {
            Scan { state: ScanState::QuoteSeen, ..s }
        } else {
            Scan { current: s.current.push(c), ..s }
        },
        ScanState::QuoteSeen => if c == quote() {
            Scan { current: s.current.push(c), state: ScanState::Quoted, ..s }
        } else if c == d {
            Scan { done: s.done.push(s.current), current: Seq::empty(), state: ScanState::FieldStart }
        } else {
            Scan { current: s.current.push(c), state: ScanState::Unquoted, ..s }
        },
    }
}

/// The scan after all of `text`, read from `from`.
pub open spec fn scan_from(from: Scan, text: Seq<char>, d: char) -> Scan
    decreases text.len(),
{
    if text.len() == 0 {
        from
    } else {
        scan_step(scan_from(from, text.drop_last(), d), text.last(), d)
    }
}

/// The scan of a whole record text.
pub open spec fn scan(text: Seq<char>, d: char) -> Scan {
    scan_from(scan_start(), text, d)
}

/// Why the text of a record could not be read.
#[derive(Debug, PartialEq, Eq, Structural, Clone, Copy)]
pub enum RecordParseError {
    /// A quoted field is still open where the text ends.
    UnterminatedQuote,
}

impl RecordParseError {
    /// The text shown to the user for this fault.
    pub open spec fn message_text(self) -> Seq<char> {
        "unterminated quoted field"@
    }

    /// The text shown to the user.
    pub fn message(&self) -> (text: String)
        ensures
            text@ == self.message_text(),
    {
        String::from_str("unterminated quoted field")
    }
}

/// The fields of a record text, or the fault in its quoting.
///
/// The empty text has no fields. Any other text has one field more than it
/// has delimiters outside quotes. A text that ends inside a quoted field is
/// at fault.
pub open spec fn record_of(text: Seq<char>, d: char) -> Result<Seq<Seq<char>>, RecordParseError> {
    let s = scan(text, d);
    if text.len() == 0 {
        Ok(Seq::empty())
    } else if s.state is Quoted {
        Err(RecordParseError::UnterminatedQuote)
    } else {
        Ok(s.done.push(s.current))
    }
}

/// Reads the text of one record into its fields.
///
/// Fails exactly when the text ends inside a quoted field. Line breaks in
/// the text are text like any other: the caller has cut the source into
/// records.
pub fn parse_record(text: &str, delimiter: u8) -> (res: Result<DelimitedRecord, RecordParseError>)
    ensures
        match res {
            Ok(record) => record_of(text@, delimiter_char(delimiter)) == Ok::<
                Seq<Seq<char>>,
                RecordParseError,
            >(record@),
            Err(e) => record_of(text@, delimiter_char(delimiter)) == Err::<
                Seq<Seq<char>>,
                RecordParseError,
            >(e),
        },
{
    let chars = chars_of(text);
    let d = delimiter as char;
    let mut done: Vec<String> = Vec::new();
    let mut current = String::new();
    let mut state = ScanState::FieldStart;
    let mut i: usize = 0;
    assert(chars@.take(0) =~= Seq::<char>::empty());
    assert(texts(done@) =~= Seq::<Seq<char>>::empty());
    while i < chars.len()
        invariant
            i <= chars.len(),
            d == delimiter_char(delimiter),
            scan(chars@.take(i as int), d).done == texts(done@),
            scan(chars@.take(i as int), d).current == current@,
            scan(chars@.take(i as int), d).state == state,
        decreases chars.len() - i,
    {
        let c = chars[i];
        proof {
            assert(chars@.take(i + 1).drop_last() == chars@.take(i as int));
            assert(chars@.take(i + 1).last() == c);
        }
        let ends_field = match state {
            ScanState::Quoted => false,
            ScanState::Unquoted => c == d,
            ScanState::FieldStart | ScanState::QuoteSeen => c != '"' && c == d,
        };
        if ends_field {
            proof {
                lemma_texts_push(done@, current);
            }
            done.push(current);
            current = String::new();
            state = ScanState::FieldStart;
        } else {
            match state {
                ScanState::FieldStart => {
                    if c == '"' {
                        state = ScanState::Quoted;
                    } else {
                        current.push(c);
                        state = ScanState::Unquoted;
                    }
                },
                ScanState::Unquoted => {
                    current.push(c);
                },
                ScanState::Quoted => {
                    if c == '"' {
                        state = ScanState::QuoteSeen;
                    } else {
                        current.push(c);
                    }
                },
                ScanState::QuoteSeen => {
                    current.push(c);
                    if c == '"' {
                        state = ScanState::Quoted;
                    } else {
                        state = ScanState::Unquoted;
                    }
                },
            }
        }
        i += 1;
    }
    assert(chars@.take(i as int) == chars@);
    if chars.len() == 0 {
        Ok(DelimitedRecord::new(done))
    } else if matches!(state, ScanState::Quoted) {
        Err(RecordParseError::UnterminatedQuote)
    } else {
        proof {
            lemma_texts_push(done@, current);
        }
        done.push(current);
        Ok(DelimitedRecord::new(done))
    }
}

/// The characters that force quotes around a field: the delimiter, the
/// quote, and the two line-break characters.
pub open spec fn is_special(c: char, d: char) -> bool {
    c == d || c == quote() || c == '\n' || c == '\r'
}

/// Whether a field must be written in quotes.
pub open spec fn needs_quotes(field: Seq<char>, d: char) -> bool {
    exists|i: int| 0 <= i < field.len() && is_special(#[trigger] field[i], d)
}

/// A text with each of its quotes written twice.
pub open spec fn doubled(field: Seq<char>) -> Seq<char>
    decreases field.len(),
{
    if field.len() == 0 {
        Seq::empty()
    } else if field.last() == quote() {
        doubled(field.drop_last()).push(quote()).push(quote())
    } else {
        doubled(field.drop_last()).push(field.last())
    }
}

/// A field as it is written: as it is, or, if it holds a special character,
/// between quotes with its own quotes doubled.
pub open spec fn written_field(field: Seq<char>, d: char) -> Seq<char> {
    if needs_quotes(field, d) {
        seq![quote()] + doubled(field) + seq![quote()]
    } else {
        field
    }
}

/// A record as it is written: its fields as written, with the delimiter
/// between them and no line break at the end. A record without fields is the
/// empty text.
pub open spec fn written_record(fields: Seq<Seq<char>>, d: char) -> Seq<char>
    decreases fields.len(),
{
    if fields.len() == 0 {
        Seq::empty()
    } else if fields.len() == 1 {
        written_field(fields[0], d)
    } else {
        written_record(fields.drop_last(), d) + seq![d] + written_field(fields.last(), d)
    }
}

/// Appends a field to `out` as it is written.
pub fn write_field(out: &mut String, field: &str, delimiter: u8)
    ensures
        final(out)@ == old(out)@ + written_field(field@, delimiter_char(delimiter)),
{
    let chars = chars_of(field);
    let d = delimiter as char;
    let mut special = false;
    let mut i: usize = 0;
    while i < chars.len()
        invariant
            i <= chars.len(),
            d == delimiter_char(delimiter),
            special == needs_quotes(chars@.take(i as int), d),
        decreases chars.len() - i,
    {
        let c = chars[i];
        proof {
            let seen = chars@.take(i + 1);
            if needs_quotes(chars@.take(i as int), d) {
                let j = choose|j: int| 0 <= j < i && is_special(#[trigger] chars@.take(i as int)[j], d);
                assert(is_special(seen[j], d));
            }
            if is_special(c, d) {
                assert(is_special(seen[i as int], d));
            }
            if needs_quotes(seen, d) {
                let j = choose|j: int| 0 <= j < i + 1 && is_special(#[trigger] seen[j], d);
                if j < i {
                    assert(is_special(chars@.take(i as int)[j], d));
                }
            }
        }
        if c == d || c == '"' || c == '\n' || c == '\r' {
            special = true;
        }
        i += 1;
    }
    assert(chars@.take(i as int) == chars@);
    if !special {
        out.append(field);
        return;
    }
    out.push('"');
    let ghost before = out@;
    let mut k: usize = 0;
    assert(chars@.take(0) =~= Seq::<char>::empty());
    while k < chars.len()
        invariant
            k <= chars.len(),
            out@ == before + doubled(chars@.take(k as int)),
        decreases chars.len() - k,
    {
        let c = chars[k];
        proof {
            assert(chars@.take(k + 1).drop_last() == chars@.take(k as int));
            assert(chars@.take(k + 1).last() == c);
        }
        if c == '"' {
            out.push('"');
        }
        out.push(c);
        assert(out@ =~= before + doubled(chars@.take(k + 1)));
        k += 1;
    }
    assert(chars@.take(k as int) == chars@);
    out.push('"');
    assert(out@ =~= old(out)@ + written_field(field@, d));
}

/// The line that a record is written as: see `written_record`.
pub fn write_record(fields: &[String], delimiter: u8) -> (line: String)
    ensures
        line@ == written_record(texts(fields@), delimiter_char(delimiter)),
{
    let mut line = String::new();
    let mut k: usize = 0;
    assert(texts(fields@).take(0) =~= Seq::<Seq<char>>::empty());
    while k < fields.len()
        invariant
            k <= fields.len(),
            line@ == written_record(texts(fields@).take(k as int), delimiter_char(delimiter)),
        decreases fields.len() - k,
    {
        proof {
            assert(texts(fields@).take(k + 1).drop_last() == texts(fields@).take(k as int));
            assert(texts(fields@).take(k + 1).last() == fields@[k as int]@);
            assert(texts(fields@).take(k + 1)[0] == texts(fields@)[0]);
        }
        if k > 0 {
            line.push(delimiter as char);
        }
        write_field(&mut line, fields[k].as_str(), delimiter);
        assert(line@ =~= written_record(texts(fields@).take(k + 1), delimiter_char(delimiter)));
        k += 1;
    }
    assert(texts(fields@).take(k as int) == texts(fields@));
    line
}


/// Reading two texts one after the other is reading their concatenation.
proof fn lemma_scan_joined(from: Scan, first: Seq<char>, second: Seq<char>, d: char)
    ensures
        scan_from(from, first + second, d) == scan_from(scan_from(from, first, d), second, d),
    decreases second.len(),
{
    if second.len() == 0 {
        assert(first + second =~= first);
    } else {
        lemma_scan_joined(from, first, second.drop_last(), d);
        assert((first + second).drop_last() =~= first + second.drop_last());
        assert((first + second).last() == second.last());
    }
}

/// Reading one character is one step.
proof fn lemma_scan_one(from: Scan, c: char, d: char)
    ensures
        scan_from(from, seq![c], d) == scan_step(from, c, d),
{
    assert(seq![c].drop_last() =~= Seq::<char>::empty());
    assert(seq![c].last() == c);
    assert(scan_from(from, seq![c].drop_last(), d) == from);
}

/// A text without a quote and without a line break.
pub open spec fn is_plain_text(text: Seq<char>) -> bool {
    forall|i: int|
        0 <= i < text.len() ==> (#[trigger] text[i]) != quote() && text[i] != '\n' && text[i]
            != '\r'
}

/// What the scan of a plain text has read: fields that need no quotes, and
/// written with the delimiter between them they are the text again.
proof fn lemma_scan_plain(text: Seq<char>, d: char)
    requires
        is_plain_text(text),
    ensures
        scan(text, d).state is FieldStart || scan(text, d).state is Unquoted,
        !needs_quotes(scan(text, d).current, d),
        forall|k: int|
            0 <= k < scan(text, d).done.len() ==> !needs_quotes(
                #[trigger] scan(text, d).done[k],
                d,
            ),
        written_record(scan(text, d).done.push(scan(text, d).current), d) == text,
    decreases text.len(),
{
    let s = scan(text, d);
    if text.len() == 0 {
        assert(s.done.push(s.current)[0] == s.current);
        assert(written_record(s.done.push(s.current), d) =~= text);
    } else {
        let front = text.drop_last();
        let c = text.last();
        assert forall|i: int| 0 <= i < front.len() implies (#[trigger] front[i]) != quote()
            && front[i] != '\n' && front[i] != '\r' by {
            assert(front[i] == text[i]);
        }
        lemma_scan_plain(front, d);
        let s0 = scan(front, d);
        assert(c == text[text.len() - 1]);
        assert(s == scan_step(s0, c, d));
        let before = s0.done.push(s0.current);
        if c == d {
            let all = s.done.push(s.current);
            assert(s.done == before);
            assert(all.drop_last() =~= before);
            assert(all.last() =~= Seq::<char>::empty());
            assert(written_record(all, d) =~= text);
            assert forall|k: int| 0 <= k < s.done.len() implies !needs_quotes(
                #[trigger] s.done[k],
                d,
            ) by {
                if k < s0.done.len() {
                    assert(s.done[k] == s0.done[k]);
                } else {
                    assert(s.done[k] == s0.current);
                }
            }
        } else {
            let all = s.done.push(s.current);
            assert(s.done == s0.done);
            assert(s.current == s0.current.push(c));
            assert(!needs_quotes(s.current, d)) by {
                if needs_quotes(s.current, d) {
                    let i = choose|i: int|
                        0 <= i < s.current.len() && is_special(#[trigger] s.current[i], d);
                    if i < s0.current.len() {
                        assert(is_special(s0.current[i], d));
                    }
                }
            }
            if s.done.len() == 0 {
                assert(before[0] == s0.current);
                assert(all[0] == s.current);
                assert(written_record(all, d) =~= text);
            } else {
                assert(before.drop_last() =~= s0.done);
                assert(before.last() == s0.current);
                assert(all.drop_last() =~= s.done);
                assert(all.last() == s.current);
                assert(text =~= front.push(c));
                assert(front == written_record(s0.done, d) + seq![d] + s0.current);
                assert(written_record(all, d) == written_record(s.done, d) + seq![d] + s.current);
                assert(written_record(all, d) =~= text);
            }
        }
    }
}

/// A line without a quote and without a line break round-trips: read into
/// its fields and written again with all of them, it is the same line,
/// character for character.
pub proof fn law_plain_line_round_trip(text: Seq<char>, d: char)
    requires
        is_plain_text(text),
    ensures
        record_of(text, d) is Ok,
        written_record(record_of(text, d)->Ok_0, d) == text,
{
    lemma_scan_plain(text, d);
}

/// Inside quotes, a text with its quotes doubled reads as the text.
proof fn lemma_scan_doubled(from: Scan, field: Seq<char>, d: char)
    requires
        from.state is Quoted,
    ensures
        scan_from(from, doubled(field), d) == (Scan {
            done: from.done,
            current: from.current + field,
            state: ScanState::Quoted,
        }),
    decreases field.len(),
{
    if field.len() == 0 {
        assert(from.current + field =~= from.current);
    } else {
        let front = field.drop_last();
        lemma_scan_doubled(from, front, d);
        let s0 = scan_from(from, doubled(front), d);
        if field.last() == quote() {
            let once = doubled(front).push(quote());
            assert(doubled(field).drop_last() =~= once);
            assert(once.drop_last() =~= doubled(front));
            assert(scan_from(from, once, d) == scan_step(s0, quote(), d));
        } else {
            assert(doubled(field).drop_last() =~= doubled(front));
        }
        assert((from.current + front).push(field.last()) =~= from.current + field);
    }
}

/// Outside quotes, a text without special characters reads as itself.
proof fn lemma_scan_unquoted(from: Scan, field: Seq<char>, d: char)
    requires
        from.state is FieldStart || from.state is Unquoted,
        !needs_quotes(field, d),
    ensures
        scan_from(from, field, d) == (Scan {
            done: from.done,
            current: from.current + field,
            state: if field.len() == 0 {
                from.state
            } else {
                ScanState::Unquoted
            },
        }),
    decreases field.len(),
{
    if field.len() == 0 {
        assert(from.current + field =~= from.current);
    } else {
        let front = field.drop_last();
        assert(!needs_quotes(front, d)) by {
            if needs_quotes(front, d) {
                let i = choose|i: int| 0 <= i < front.len() && is_special(#[trigger] front[i], d);
                assert(is_special(field[i], d));
            }
        }
        lemma_scan_unquoted(from, front, d);
        assert(!is_special(field[field.len() - 1], d));
        assert((from.current + front).push(field.last()) =~= from.current + field);
    }
}

/// At the start of a field, a written field reads as the field, and the scan
/// does not end inside quotes.
proof fn lemma_scan_written_field(from: Scan, field: Seq<char>, d: char)
    requires
        from.state is FieldStart,
        from.current.len() == 0,
        d != quote(),
    ensures
        scan_from(from, written_field(field, d), d).done == from.done,
        scan_from(from, written_field(field, d), d).current == field,
        !(scan_from(from, written_field(field, d), d).state is Quoted),
{
    if needs_quotes(field, d) {
        let open = seq![quote()];
        let opened = Scan { state: ScanState::Quoted, ..from };
        lemma_scan_one(from, quote(), d);
        lemma_scan_joined(from, open, doubled(field), d);
        lemma_scan_doubled(opened, field, d);
        lemma_scan_joined(from, open + doubled(field), open, d);
        lemma_scan_one(scan_from(from, open + doubled(field), d), quote(), d);
        assert(from.current + field =~= field);
    } else {
        lemma_scan_unquoted(from, field, d);
        assert(from.current + field =~= field);
    }
}

/// The scan of a written record: all fields but the last are done, the last
/// is the current one, and the scan is not inside quotes.
proof fn lemma_scan_written_record(fields: Seq<Seq<char>>, d: char)
    requires
        fields.len() > 0,
        d != quote(),
    ensures
        scan(written_record(fields, d), d).done == fields.drop_last(),
        scan(written_record(fields, d), d).current == fields.last(),
        !(scan(written_record(fields, d), d).state is Quoted),
    decreases fields.len(),
{
    if fields.len() == 1 {
        lemma_scan_written_field(scan_start(), fields[0], d);
        assert(fields.drop_last() =~= Seq::<Seq<char>>::empty());
    } else {
        let front = fields.drop_last();
        lemma_scan_written_record(front, d);
        let head = written_record(front, d);
        let s0 = scan(head, d);
        lemma_scan_joined(scan_start(), head, seq![d], d);
        lemma_scan_one(s0, d, d);
        let s1 = scan(head + seq![d], d);
        assert(s1.done =~= fields.drop_last()) by {
            assert(front.drop_last().push(front.last()) =~= front);
        }
        lemma_scan_joined(scan_start(), head + seq![d], written_field(fields.last(), d), d);
        lemma_scan_written_field(s1, fields.last(), d);
    }
}

/// A written record reads back as the fields it was written from, whatever
/// they hold: delimiters, quotes and line breaks included. The one record
/// that does not is the single empty field, which is written as the empty
/// text and read as no field at all.
pub proof fn law_written_record_reads_back(fields: Seq<Seq<char>>, d: char)
    requires
        d != quote(),
        !(fields.len() == 1 && fields[0].len() == 0),
    ensures
        record_of(written_record(fields, d), d) == Ok::<Seq<Seq<char>>, RecordParseError>(fields),
{
    if fields.len() == 0 {
        assert(fields =~= Seq::<Seq<char>>::empty());
    } else {
        lemma_scan_written_record(fields, d);
        let text = written_record(fields, d);
        assert(fields.drop_last().push(fields.last()) =~= fields);
        assert(text.len() > 0) by {
            if fields.len() == 1 {
                if needs_quotes(fields[0], d) {
                    assert(text[0] == quote());
                }
            } else {
                let at = written_record(fields.drop_last(), d).len() as int;
                assert(text[at] == d);
            }
        }
    }
}


/// A text without quotes is cut at its delimiters and nowhere else: its
/// fields are the pieces between them.
pub proof fn law_unquoted_record_splits(text: Seq<char>, d: char)
    requires
        !text.contains(quote()),
    ensures
        scan(text, d).done.push(scan(text, d).current) == split(text, d),
        scan(text, d).state is FieldStart || scan(text, d).state is Unquoted,
        text.len() > 0 ==> record_of(text, d) == Ok::<Seq<Seq<char>>, RecordParseError>(
            split(text, d),
        ),
    decreases text.len(),
{
    let s = scan(text, d);
    if text.len() == 0 {
        assert(s.done.push(s.current) =~= split(text, d));
    } else {
        let front = text.drop_last();
        let c = text.last();
        assert forall|i: int| 0 <= i < front.len() implies front[i] != quote() by {
            assert(front[i] == text[i]);
        }
        law_unquoted_record_splits(front, d);
        let s0 = scan(front, d);
        assert(c == text[text.len() - 1]);
        assert(s == scan_step(s0, c, d));
        let before = s0.done.push(s0.current);
        if c != d {
            assert(before.drop_last() =~= s0.done);
            assert(before.last() == s0.current);
        }
    }
}

} // verus!
