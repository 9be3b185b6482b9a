//! The driver's decisions: what each line or record of a source becomes in
//! the output, when a record goes on with the next line, and which failures
//! end a run.

use vstd::prelude::*;
use vstd::utf8::encode_utf8;
use crate::extract::{
    extract_bytes, extract_chars, extract_fields, law_whole_range, lossy_text, selected, Extract,
};
use crate::positions::{ListFault, ListSyntaxError};
use crate::record::{
    delimiter_char, is_plain_text, law_plain_line_round_trip, parse_record, record_of,
    write_record, written_record, DelimitedRecord, RecordParseError,
};
use std::ops::Range;

verus! {

/// The output line for the selected fields of a record: none if nothing was
/// selected, else the fields written as a record.
pub open spec fn fields_output(chosen: Seq<Seq<char>>, delimiter: u8) -> Option<Seq<char>> {
    if chosen.len() == 0 {
        None
    } else {
        Some(written_record(chosen, delimiter_char(delimiter)))
    }
}

/// What one unit of input becomes in the output: a line in byte and
/// character mode, the text of a record in field mode.
///
/// Byte and character mode give one output line for each input line. Field
/// mode gives one for each record of which some field was selected, and none
/// for the others; it fails on a record with a fault in its quoting.
pub open spec fn output_of(extract: Extract, delimiter: u8, text: Seq<char>) -> Result<
    Option<Seq<char>>,
    RecordParseError,
> {
    match extract {
        Extract::Bytes(list) => Ok(Some(lossy_text(selected(encode_utf8(text), list@)))),
        Extract::Chars(list) => Ok(Some(selected(text, list@))),
        Extract::Fields(list) => match record_of(text, delimiter_char(delimiter)) {
            Err(fault) => Err(fault),
            Ok(fields) => Ok(fields_output(selected(fields, list@), delimiter)),
        },
    }
}

/// The content of an output line, if there is one.
pub open spec fn line_view(line: Option<String>) -> Option<Seq<char>> {
    match line {
        Some(text) => Some(text@),
        None => None,
    }
}

/// The content of what `cut` returns.
pub open spec fn output_view(res: Result<Option<String>, RecordParseError>) -> Result<
    Option<Seq<char>>,
    RecordParseError,
> {
    match res {
        Ok(line) => Ok(line_view(line)),
        Err(fault) => Err(fault),
    }
}

/// Selects fields of a record and writes them as an output line, if any was
/// selected.
pub fn cut_record(record: &DelimitedRecord, field_pos: &[Range<usize>], delimiter: u8) -> (line:
    Option<String>)
    ensures
        line_view(line) == fields_output(selected(record@, field_pos@), delimiter),
{
    let chosen = extract_fields(record, field_pos);
    if chosen.len() == 0 {
        None
    } else {
        Some(write_record(chosen.as_slice(), delimiter))
    }
}

/// Extracts from one line, or in field mode from the text of one record,
/// what the mode and its positions select.
pub fn cut(extract: &Extract, delimiter: u8, text: &str) -> (res: Result<
    Option<String>,
    RecordParseError,
>)
    ensures
        output_view(res) == output_of(*extract, delimiter, text@),
{
    match extract {
        Extract::Bytes(list) => Ok(Some(extract_bytes(text, list.as_slice()))),
        Extract::Chars(list) => Ok(Some(extract_chars(text, list.as_slice()))),
        Extract::Fields(list) => match parse_record(text, delimiter) {
            Err(fault) => Err(fault),
            Ok(record) => Ok(cut_record(&record, list.as_slice(), delimiter)),
        },
    }
}

/// The text of the unit that a line completes or carries on: the line
/// itself, or what was held back, a line feed and the line.
pub open spec fn unit_text(pending: Option<Seq<char>>, line: Seq<char>) -> Seq<char> {
    match pending {
        Some(held) => held + seq!['\n'] + line,
        None => line,
    }
}

/// Whether a unit goes on with the next line: in field mode, when its text
/// ends inside a quoted field.
pub open spec fn goes_on(extract: Extract, delimiter: u8, text: Seq<char>) -> bool {
    extract is Fields && record_of(text, delimiter_char(delimiter)) is Err
}

/// The state of the driver within one source: the mode and delimiter of the
/// run, and the lines of a record that is not complete yet.
pub struct Cutter {
    extract: Extract,
    delimiter: u8,
    pending: Option<String>,
}

impl Cutter {
    /// The mode of the run and its positions.
    pub closed spec fn extract(&self) -> Extract {
        self.extract
    }

    /// The delimiter of the run.
    pub closed spec fn delimiter(&self) -> u8 {
        self.delimiter
    }

    /// The text held back: the lines read so far of a record whose quoted
    /// field is still open.
    pub closed spec fn pending(&self) -> Option<Seq<char>> {
        line_view(self.pending)
    }

    /// Text is held back only in field mode, and only while it ends inside a
    /// quoted field.
    #[verifier::type_invariant]
    pub closed spec fn well_formed(&self) -> bool {
        line_view(self.pending) matches Some(held) ==> goes_on(self.extract, self.delimiter, held)
    }

    /// The driver at the start of a source.
    pub fn new(extract: Extract, delimiter: u8) -> (cutter: Cutter)
        ensures
            cutter.extract() == extract,
            cutter.delimiter() == delimiter,
            cutter.pending() is None,
    {
        Cutter { extract, delimiter, pending: None }
    }

    /// Takes the next line of the source, without its line break, and
    /// returns the output line that it gives rise to, if any.
    ///
    /// In field mode a line that leaves a quoted field open is held back
    /// and joined with the next one.
    pub fn feed(&mut self, line: &str) -> (out: Option<String>)
        ensures
            final(self).extract() == old(self).extract(),
            final(self).delimiter() == old(self).delimiter(),
            ({
                let text = unit_text(old(self).pending(), line@);
                if goes_on(old(self).extract(), old(self).delimiter(), text) {
                    final(self).pending() == Some(text) && out is None
                } else {
                    final(self).pending() is None && Ok::<Option<Seq<char>>, RecordParseError>(
                        line_view(out),
                    ) == output_of(old(self).extract(), old(self).delimiter(), text)
                }
            }),
    {
        proof {
            use_type_invariant(&*self);
        }
        let text: String = match &self.pending {
            Some(held) => {
                let mut text = held.clone();
                text.push('\n');
                text.append(line);
                text
            },
            None => line.to_owned(),
        };
        assert(text@ =~= unit_text(old(self).pending(), line@));
        match cut(&self.extract, self.delimiter, text.as_str()) {
            Ok(out) => {
                self.pending = None;
                out
            },
            Err(_) => {
                self.pending = Some(text);
                None
            },
        }
    }

    /// Ends the source. Fails exactly when a record is still held back: its
    /// quoted field was never closed.
    pub fn finish(&mut self) -> (res: Result<(), RecordParseError>)
        ensures
            final(self).extract() == old(self).extract(),
            final(self).delimiter() == old(self).delimiter(),
            final(self).pending() is None,
            res is Err <==> old(self).pending() is Some,
    {
        let held = self.pending.is_some();
        self.pending = None;
        if held {
            Err(RecordParseError::UnterminatedQuote)
        } else {
            Ok(())
        }
    }
}

/// The identity selection round-trips: a line without a quote and without a
/// line break, cut in field mode with one range that covers all its fields,
/// comes out as the same line, character for character. The empty line has
/// no fields and gives no output line.
pub proof fn law_all_fields_round_trip(text: Seq<char>, delimiter: u8, list: Vec<Range<usize>>)
    requires
        is_plain_text(text),
        list@.len() == 1,
        list@[0].start == 0,
        record_of(text, delimiter_char(delimiter)) matches Ok(fields) && list@[0].end
            >= fields.len(),
    ensures
        output_of(Extract::Fields(list), delimiter, text) == Ok::<
            Option<Seq<char>>,
            RecordParseError,
        >(
            if text.len() == 0 {
                None
            } else {
                Some(text)
            },
        ),
{
    let d = delimiter_char(delimiter);
    law_plain_line_round_trip(text, d);
    let fields = record_of(text, d)->Ok_0;
    assert(list@ =~= seq![(0usize..list@[0].end)]);
    law_whole_range(fields, list@[0].end);
}


/// What can go wrong, by kind: in the configuration of a run, and in the run
/// itself. The kinds differ in what follows: a source that cannot be opened
/// is reported and the run goes on with the next source; every other failure
/// ends the run.
#[derive(Debug, PartialEq, Eq)]
pub enum CutError {
    /// The delimiter is not a single byte: the delimiter as given.
    Delimiter(String),
    /// None of fields, bytes and characters was asked for.
    NoSelection,
    /// The position list was refused.
    ListSyntax(ListSyntaxError),
    /// A source could not be opened: its display name, and the cause.
    SourceOpen(String, String),
    /// A line of an open source could not be read: the cause.
    LineRead(String),
    /// A record of an open source has a fault in its quoting.
    RecordParse(RecordParseError),
}

/// The mathematical content of a `CutError`.
pub enum CutFault {
    Delimiter(Seq<char>),
    NoSelection,
    ListSyntax(ListFault),
    SourceOpen(Seq<char>, Seq<char>),
    LineRead(Seq<char>),
    RecordParse(RecordParseError),
}

impl View for CutError {
    type V = CutFault;

    open spec fn view(&self) -> CutFault {
        match self {
            CutError::Delimiter(given) => CutFault::Delimiter(given@),
            CutError::NoSelection => CutFault::NoSelection,
            CutError::ListSyntax(e) => CutFault::ListSyntax(e@),
            CutError::SourceOpen(name, cause) => CutFault::SourceOpen(name@, cause@),
            CutError::LineRead(cause) => CutFault::LineRead(cause@),
            CutError::RecordParse(e) => CutFault::RecordParse(*e),
        }
    }
}

impl CutFault {
    /// Whether the run stops at this failure. Only a source that could not
    /// be opened lets it go on.
    pub open spec fn ends_run(self) -> bool {
        !(self is SourceOpen)
    }

    /// The line written to the error sink: for a source that could not be
    /// opened its display name, a colon, a blank and the cause; for the
    /// others the cause alone.
    pub open spec fn message(self) -> Seq<char> {
        match self {
            CutFault::Delimiter(given) => "--delim \""@ + given + "\" must be a single byte"@,
            CutFault::NoSelection => "Must have --fields, --bytes, or --chars"@,
            CutFault::ListSyntax(fault) => fault.message(),
            CutFault::SourceOpen(name, cause) => name + ": "@ + cause,
            CutFault::LineRead(cause) => cause,
            CutFault::RecordParse(fault) => fault.message_text(),
        }
    }
}

impl CutError {
    /// Whether the run stops at this failure.
    pub fn ends_run(&self) -> (stop: bool)
        ensures
            stop == self@.ends_run(),
    {
        match self {
            CutError::SourceOpen(_, _) => false,
            _ => true,
        }
    }

    /// The line to write to the error sink.
    pub fn message(&self) -> (text: String)
        ensures
            text@ == self@.message(),
    {
        match self {
            CutError::Delimiter(given) => {
                let mut text = String::from_str("--delim \"");
                text.append(given.as_str());
                text.append("\" must be a single byte");
                text
            },
            CutError::NoSelection => String::from_str("Must have --fields, --bytes, or --chars"),
            CutError::ListSyntax(e) => e.message(),
            CutError::SourceOpen(name, cause) => {
                let mut text = name.clone();
                text.append(": ");
                text.append(cause.as_str());
                text
            },
            CutError::LineRead(cause) => cause.clone(),
            CutError::RecordParse(e) => e.message(),
        }
    }
}

} // verus!
