//! Counting the lines, words, bytes and characters of a text, and laying
//! the counts out in columns.

use vstd::prelude::*;
use vstd::utf8::{decode_utf8, valid_utf8};
use crate::text::{chars_of, decimal, decimal_string};

verus! {

/// The counts of one input.
#[derive(Debug, PartialEq, Eq, Structural, Clone, Copy)]
pub struct FileInfo {
    pub num_lines: usize,
    pub num_words: usize,
    pub num_bytes: usize,
    pub num_chars: usize,
}

/// Why an input could not be counted.
#[derive(Debug, PartialEq, Eq, Structural, Clone, Copy)]
pub enum CountError {
    /// The input is not well-formed UTF-8, so it cannot be read as lines of
    /// text.
    InvalidUtf8,
}

/// A character with the Unicode property White_Space.
pub open spec fn is_whitespace(c: char) -> bool {
    let u = c as u32;
    ||| 0x09 <= u <= 0x0d
    ||| u == 0x20
    ||| u == 0x85
    ||| u == 0xa0
    ||| u == 0x1680
    ||| 0x2000 <= u <= 0x200a
    ||| u == 0x2028
    ||| u == 0x2029
    ||| u == 0x202f
    ||| u == 0x205f
    ||| u == 0x3000
}

/// Whether a word starts at position `i`: a character that is no white
/// space, at the start of the text or after white space.
pub open spec fn starts_word(text: Seq<char>, i: int) -> bool {
    !is_whitespace(text[i]) && (i == 0 || is_whitespace(text[i - 1]))
}

/// The number of words: the runs of characters other than white space.
pub open spec fn word_count(text: Seq<char>) -> nat
    decreases text.len(),
{
    if text.len() == 0 {
        0
    } else {
        word_count(text.drop_last()) + if starts_word(text, text.len() - 1) {
            1nat
        } else {
            0nat
        }
    }
}

/// The number of line feeds.
pub open spec fn newline_count(text: Seq<char>) -> nat
    decreases text.len(),
{
    if text.len() == 0 {
        0
    } else {
        newline_count(text.drop_last()) + if text.last() == '\n' {
            1nat
        } else {
            0nat
        }
    }
}

/// The number of lines: each line feed ends one, and so does the end of a
/// text that does not end in a line feed.
pub open spec fn line_count(text: Seq<char>) -> nat {
    newline_count(text) + if text.len() > 0 && text.last() != '\n' {
        1nat
    } else {
        0nat
    }
}

/// Whether `c` is white space.
pub fn is_space(c: char) -> (b: bool)
    ensures
        b == is_whitespace(c),
{
    let u = c as u32;
    (0x09 <= u && u <= 0x0d) || u == 0x20 || u == 0x85 || u == 0xa0 || u == 0x1680 || (0x2000 <= u
        && u <= 0x200a) || u == 0x2028 || u == 0x2029 || u == 0x202f || u == 0x205f || u == 0x3000
}

/// Reads bytes as text with `std::str::from_utf8`.
///
/// Trusted: the call succeeds exactly on well-formed UTF-8, and the text it
/// then gives is the one that the bytes encode.
#[verifier::external_body]
fn text_of(bytes: &[u8]) -> (text: Option<&str>)
    ensures
        text is Some <==> valid_utf8(bytes@),
        text matches Some(t) ==> t@ == decode_utf8(bytes@),
{
    std::str::from_utf8(bytes).ok()
}

/// Whether `info` holds the counts of a text of `num_bytes` bytes.
pub open spec fn is_count_of(info: FileInfo, text: Seq<char>, num_bytes: nat) -> bool {
    &&& info.num_lines == line_count(text)
    &&& info.num_words == word_count(text)
    &&& info.num_bytes == num_bytes
    &&& info.num_chars == text.len()
}

/// Counts the lines, words, bytes and characters of the content of an input.
///
/// Fails exactly when the content is not well-formed UTF-8.
pub fn count(content: &[u8]) -> (res: Result<FileInfo, CountError>)
    ensures
        match res {
            Ok(info) => valid_utf8(content@) && is_count_of(
                info,
                decode_utf8(content@),
                content@.len(),
            ),
            Err(_) => !valid_utf8(content@),
        },
{
    let text = match text_of(content) {
        Some(text) => text,
        None => {
            return Err(CountError::InvalidUtf8);
        },
    };
    let chars = chars_of(text);
    let mut lines: usize = 0;
    let mut words: usize = 0;
    let mut in_word = false;
    let mut i: usize = 0;
    assert(chars@.take(0) =~= Seq::<char>::empty());
    while i < chars.len()
        invariant
            i <= chars.len(),
            lines == newline_count(chars@.take(i as int)),
            words == word_count(chars@.take(i as int)),
            lines <= i,
            i > 0 && chars@[i - 1] != '\n' ==> lines < i,
            words <= i,
            in_word == (i > 0 && !is_whitespace(chars@[i - 1])),
        decreases chars.len() - i,
    {
        let c = chars[i];
        proof {
            assert(chars@.take(i + 1).drop_last() == chars@.take(i as int));
            assert(chars@.take(i + 1).last() == c);
            assert(starts_word(chars@.take(i + 1), i as int) == (!is_whitespace(c) && !in_word));
        }
        if c == '\n' {
            lines += 1;
        }
        let space = is_space(c);
        if !space && !in_word {
            words += 1;
        }
        in_word = !space;
        i += 1;
    }
    assert(chars@.take(i as int) == chars@);
    if chars.len() > 0 && chars[chars.len() - 1] != '\n' {
        lines += 1;
    }
    Ok(FileInfo { num_lines: lines, num_words: words, num_bytes: content.len(), num_chars: chars.len() })
}

/// A text set flush right in a column of `width` characters: blanks in
/// front make up the width, and a text as wide or wider stays as it is.
pub open spec fn flush_right(text: Seq<char>, width: nat) -> Seq<char> {
    if text.len() >= width {
        text
    } else {
        Seq::new((width - text.len()) as nat, |i: int| ' ') + text
    }
}

/// The column that shows a count: the decimal number flush right in eight
/// characters if the column is shown, else nothing.
pub open spec fn field_of(value: usize, show: bool) -> Seq<char> {
    if show {
        flush_right(decimal(value as nat), 8)
    } else {
        Seq::empty()
    }
}

/// Lays out one count as a column of the report.
pub fn format_field(value: usize, show: bool) -> (text: String)
    ensures
        text@ == field_of(value, show),
{
    let mut text = String::new();
    if !show {
        return text;
    }
    let digits = decimal_string(value);
    let width = digits.as_str().unicode_len();
    let mut n: usize = width;
    while n < 8
        invariant
            width <= n,
            n <= 8 || n == width,
            text@ == Seq::new((n - width) as nat, |i: int| ' '),
        decreases 8 - n,
    {
        text.push(' ');
        n += 1;
        assert(text@ =~= Seq::new((n - width) as nat, |i: int| ' '));
    }
    text.append(digits.as_str());
    assert(text@ =~= field_of(value, show));
    text
}

} // verus!
