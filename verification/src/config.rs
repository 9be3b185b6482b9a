//! The configuration of a run: the sources, the delimiter and what to
//! extract, made from the texts that the user gave.

use vstd::prelude::*;
use vstd::utf8::encode_utf8;
use crate::cut::{CutError, CutFault};
use crate::extract::Extract;
use crate::positions::{is_position_list, parse_pos, position_list, spans, ListFault, PositionList};

verus! {

/// A run: the display names of its sources, the delimiter of its records,
/// and what to extract.
#[derive(Debug)]
pub struct Config {
    pub files: Vec<String>,
    pub delimiter: u8,
    pub extract: Extract,
}

/// What to extract, with the bounds of the ranges as numbers.
pub enum Selection {
    Fields(Seq<(nat, nat)>),
    Bytes(Seq<(nat, nat)>),
    Chars(Seq<(nat, nat)>),
}

/// The selection that a mode and its list stand for.
pub open spec fn selection_of(extract: Extract) -> Selection {
    match extract {
        Extract::Fields(list) => Selection::Fields(spans(list@)),
        Extract::Bytes(list) => Selection::Bytes(spans(list@)),
        Extract::Chars(list) => Selection::Chars(spans(list@)),
    }
}

/// The position list of a text that may be absent.
pub open spec fn optional_list(text: Option<Seq<char>>) -> Result<
    Option<Seq<(nat, nat)>>,
    ListFault,
> {
    match text {
        None => Ok(None),
        Some(list) => match position_list(list) {
            Ok(ranges) => Ok(Some(ranges)),
            Err(fault) => Err(fault),
        },
    }
}

/// The delimiter and selection that the given texts configure, or the first
/// fault in them.
///
/// The delimiter must be one byte long. Each list that is given must be a
/// position list; they are read in the order fields, bytes, characters, and
/// the first that is given decides the mode. One of them must be given.
pub open spec fn configured(
    delimiter: Seq<char>,
    fields: Option<Seq<char>>,
    bytes: Option<Seq<char>>,
    chars: Option<Seq<char>>,
) -> Result<(u8, Selection), CutFault> {
    if encode_utf8(delimiter).len() != 1 {
        Err(CutFault::Delimiter(delimiter))
    } else {
        let byte = encode_utf8(delimiter)[0];
        match optional_list(fields) {
            Err(fault) => Err(CutFault::ListSyntax(fault)),
            Ok(field_list) => match optional_list(bytes) {
                Err(fault) => Err(CutFault::ListSyntax(fault)),
                Ok(byte_list) => match optional_list(chars) {
                    Err(fault) => Err(CutFault::ListSyntax(fault)),
                    Ok(char_list) => match (field_list, byte_list, char_list) {
                        (Some(list), _, _) => Ok((byte, Selection::Fields(list))),
                        (None, Some(list), _) => Ok((byte, Selection::Bytes(list))),
                        (None, None, Some(list)) => Ok((byte, Selection::Chars(list))),
                        (None, None, None) => Err(CutFault::NoSelection),
                    },
                },
            },
        }
    }
}

/// Reads a position list that may be absent.
fn parse_optional(text: Option<&str>) -> (res: Result<Option<PositionList>, CutError>)
    ensures
        match res {
            Ok(Some(list)) => optional_list(text_view(text)) == Ok::<
                Option<Seq<(nat, nat)>>,
                ListFault,
            >(Some(spans(list@))) && is_position_list(list@),
            Ok(None) => text is None,
            Err(e) => optional_list(text_view(text)) matches Err(fault) && e@
                == CutFault::ListSyntax(fault),
        },
{
    match text {
        None => Ok(None),
        Some(list) => match parse_pos(list) {
            Ok(ranges) => Ok(Some(ranges)),
            Err(e) => Err(CutError::ListSyntax(e)),
        },
    }
}

/// The content of a text that may be absent.
pub open spec fn text_view(text: Option<&str>) -> Option<Seq<char>> {
    match text {
        Some(t) => Some(t@),
        None => None,
    }
}

impl Config {
    /// Makes the configuration of a run from what the user gave: the names
    /// of the sources, the delimiter, and the position lists given for
    /// fields, bytes and characters.
    pub fn new(
        files: Vec<String>,
        delimiter: &str,
        fields: Option<&str>,
        bytes: Option<&str>,
        chars: Option<&str>,
    ) -> (res: Result<Config, CutError>)
        ensures
            match res {
                Ok(config) => config.files == files && config.extract.well_formed() && configured(
                    delimiter@,
                    text_view(fields),
                    text_view(bytes),
                    text_view(chars),
                ) == Ok::<(u8, Selection), CutFault>(
                    (config.delimiter, selection_of(config.extract)),
                ),
                Err(e) => configured(
                    delimiter@,
                    text_view(fields),
                    text_view(bytes),
                    text_view(chars),
                ) == Err::<(u8, Selection), CutFault>(e@),
            },
    {
        let delimiter_bytes = delimiter.as_bytes();
        if delimiter_bytes.len() != 1 {
            return Err(CutError::Delimiter(delimiter.to_owned()));
        }
        let field_list = match parse_optional(fields) {
            Ok(list) => list,
            Err(e) => {
                return Err(e);
            },
        };
        let byte_list = match parse_optional(bytes) {
            Ok(list) => list,
            Err(e) => {
                return Err(e);
            },
        };
        let char_list = match parse_optional(chars) {
            Ok(list) => list,
            Err(e) => {
                return Err(e);
            },
        };
        let extract = if let Some(list) = field_list {
            Extract::Fields(list)
        } else if let Some(list) = byte_list {
            Extract::Bytes(list)
        } else if let Some(list) = char_list {
            Extract::Chars(list)
        } else {
            return Err(CutError::NoSelection);
        };
        Ok(Config { files, delimiter: delimiter_bytes[0], extract })
    }
}

} // verus!
