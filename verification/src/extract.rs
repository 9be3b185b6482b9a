//! Selection by position: which items of a line a position list picks, and
//! the byte and character extractors built on it.

use vstd::prelude::*;
use vstd::utf8::{
    decode_utf8, encode_utf8, encode_utf8_decode_utf8, encode_utf8_valid_utf8, is_ascii_chars,
    is_ascii_chars_encode_utf8, valid_utf8,
};
use std::ops::Range;
use crate::positions::{is_position_list, PositionList};
use crate::record::DelimitedRecord;
use crate::text::{chars_of, lemma_texts_push, string_of, texts};

verus! {

/// The items that one range picks: those at the positions of the range that
/// exist, in rising order. Positions past the end pick nothing.
pub open spec fn picked<T>(items: Seq<T>, range: Range<usize>) -> Seq<T> {
    if range.start < range.end && range.start < items.len() {
        items.subrange(
            range.start as int,
            if range.end <= items.len() {
                range.end as int
            } else {
                items.len() as int
            },
        )
    } else {
        Seq::empty()
    }
}

/// The items that a position list selects: what each range picks, in the
/// order of the ranges. Ranges may overlap or repeat, and then so do the
/// items.
pub open spec fn selected<T>(items: Seq<T>, ranges: Seq<Range<usize>>) -> Seq<T>
    decreases ranges.len(),
{
    if ranges.len() == 0 {
        Seq::empty()
    } else {
        selected(items, ranges.drop_last()) + picked(items, ranges.last())
    }
}

/// Copies out the items that a position list selects.
pub fn select<T: Copy>(items: &[T], ranges: &[Range<usize>]) -> (chosen: Vec<T>)
    ensures
        chosen@ == selected(items@, ranges@),
{
    let mut chosen: Vec<T> = Vec::new();
    let mut k: usize = 0;
    assert(ranges@.take(0) =~= Seq::<Range<usize>>::empty());
    while k < ranges.len()
        invariant
            k <= ranges.len(),
            chosen@ == selected(items@, ranges@.take(k as int)),
        decreases ranges.len() - k,
    {
        let start = ranges[k].start;
        let end = if ranges[k].end <= items.len() {
            ranges[k].end
        } else {
            items.len()
        };
        let ghost before = chosen@;
        let mut i: usize = start;
        while i < end
            invariant
                end <= items.len(),
                start <= i,
                i <= end || start >= end,
                chosen@ == before + (if start < end {
                    items@.subrange(start as int, i as int)
                } else {
                    Seq::empty()
                }),
            decreases end - i,
        {
            chosen.push(items[i]);
            assert(items@.subrange(start as int, i as int).push(items@[i as int])
                =~= items@.subrange(start as int, i + 1));
            i += 1;
        }
        proof {
            assert(ranges@.take(k + 1).drop_last() == ranges@.take(k as int));
            assert(ranges@.take(k + 1).last() == ranges@[k as int]);
            assert(chosen@ =~= before + picked(items@, ranges@[k as int]));
        }
        k += 1;
    }
    assert(ranges@.take(k as int) == ranges@);
    chosen
}

/// The characters of `line` that `char_pos` selects, as a string. Positions
/// count Unicode scalar values; those past the end of the line are skipped.
pub fn extract_chars(line: &str, char_pos: &[Range<usize>]) -> (text: String)
    ensures
        text@ == selected(line@, char_pos@),
{
    let chars = chars_of(line);
    let chosen = select(chars.as_slice(), char_pos);
    string_of(chosen.as_slice())
}

/// The bytes of the UTF-8 encoding of `line` that `byte_pos` selects.
/// Positions past the end of the line are skipped.
pub fn select_bytes(line: &str, byte_pos: &[Range<usize>]) -> (bytes: Vec<u8>)
    ensures
        bytes@ == selected(encode_utf8(line@), byte_pos@),
{
    select(line.as_bytes(), byte_pos)
}

/// The text that `String::from_utf8_lossy` makes of a run of bytes: each
/// ill-formed part of the run stands as U+FFFD in it.
pub uninterp spec fn lossy_text(bytes: Seq<u8>) -> Seq<char>;

/// Decodes bytes as UTF-8 with `String::from_utf8_lossy`.
///
/// Trusted: the result depends on the bytes alone, and bytes that are
/// well-formed UTF-8 decode to the text they encode, unchanged.
#[verifier::external_body]
fn decode_lossy(bytes: &[u8]) -> (text: String)
    ensures
        text@ == lossy_text(bytes@),
        valid_utf8(bytes@) ==> text@ == decode_utf8(bytes@),
{
    String::from_utf8_lossy(bytes).into_owned()
}

/// The bytes of a raw line that `byte_pos` selects, decoded as UTF-8. The
/// line itself need not be well-formed.
pub fn extract_raw_bytes(line: &[u8], byte_pos: &[Range<usize>]) -> (text: String)
    ensures
        text@ == lossy_text(selected(line@, byte_pos@)),
        valid_utf8(selected(line@, byte_pos@)) ==> text@ == decode_utf8(
            selected(line@, byte_pos@),
        ),
{
    let bytes = select(line, byte_pos);
    decode_lossy(bytes.as_slice())
}

/// The bytes of `line` that `byte_pos` selects, decoded as UTF-8. The
/// selection is decoded, not the line, so a selection that cuts a character
/// in two shows a replacement character there.
pub fn extract_bytes(line: &str, byte_pos: &[Range<usize>]) -> (text: String)
    ensures
        text@ == lossy_text(selected(encode_utf8(line@), byte_pos@)),
        valid_utf8(selected(encode_utf8(line@), byte_pos@)) ==> text@ == decode_utf8(
            selected(encode_utf8(line@), byte_pos@),
        ),
{
    let bytes = select_bytes(line, byte_pos);
    decode_lossy(bytes.as_slice())
}


/// The fields of `record` that `field_pos` selects, in the order of the
/// ranges. Positions past the last field are skipped.
pub fn extract_fields(record: &DelimitedRecord, field_pos: &[Range<usize>]) -> (fields: Vec<String>)
    ensures
        texts(fields@) == selected(record@, field_pos@),
{
    let mut fields: Vec<String> = Vec::new();
    let mut k: usize = 0;
    assert(field_pos@.take(0) =~= Seq::<Range<usize>>::empty());
    assert(texts(fields@) =~= Seq::<Seq<char>>::empty());
    while k < field_pos.len()
        invariant
            k <= field_pos.len(),
            texts(fields@) == selected(record@, field_pos@.take(k as int)),
        decreases field_pos.len() - k,
    {
        let start = field_pos[k].start;
        let end = if field_pos[k].end <= record.len() {
            field_pos[k].end
        } else {
            record.len()
        };
        let ghost before = texts(fields@);
        let mut i: usize = start;
        while i < end
            invariant
                end <= record@.len(),
                start <= i,
                i <= end || start >= end,
                texts(fields@) == before + (if start < end {
                    record@.subrange(start as int, i as int)
                } else {
                    Seq::empty()
                }),
            decreases end - i,
        {
            match record.get(i) {
                Some(field) => {
                    let copy = field.to_owned();
                    proof {
                        lemma_texts_push(fields@, copy);
                        assert(record@.subrange(start as int, i as int).push(record@[i as int])
                            =~= record@.subrange(start as int, i + 1));
                    }
                    fields.push(copy);
                },
                None => {},
            }
            i += 1;
        }
        proof {
            assert(field_pos@.take(k + 1).drop_last() == field_pos@.take(k as int));
            assert(field_pos@.take(k + 1).last() == field_pos@[k as int]);
            assert(texts(fields@) =~= before + picked(record@, field_pos@[k as int]));
        }
        k += 1;
    }
    assert(field_pos@.take(k as int) == field_pos@);
    fields
}

/// What to extract from each line, and at which positions. Exactly one of
/// the three is chosen for a run.
#[derive(Debug)]
pub enum Extract {
    /// Fields of a delimited record.
    Fields(PositionList),
    /// Bytes of the line.
    Bytes(PositionList),
    /// Characters of the line.
    Chars(PositionList),
}

impl Extract {
    /// The positions to extract, whatever is extracted there.
    pub open spec fn positions(self) -> Seq<Range<usize>> {
        match self {
            Extract::Fields(list) => list@,
            Extract::Bytes(list) => list@,
            Extract::Chars(list) => list@,
        }
    }

    /// Every range holds at least one position, as in a parsed list.
    pub open spec fn well_formed(self) -> bool {
        is_position_list(self.positions())
    }
}


/// What a range picks, position by position: as many items as the range has
/// positions that exist, each the item at its position.
pub proof fn law_picked_by_position<T>(items: Seq<T>, range: Range<usize>)
    ensures
        range.start >= items.len() || range.start >= range.end ==> picked(items, range).len() == 0,
        range.start < items.len() && range.start < range.end && range.end <= items.len() ==> picked(
            items,
            range,
        ).len() == range.end - range.start,
        range.start < items.len() && range.end > items.len() ==> picked(items, range).len()
            == items.len() - range.start,
        forall|j: int|
            0 <= j < picked(items, range).len() ==> #[trigger] picked(items, range)[j]
                == items[range.start + j],
{
}

/// Selection follows the list: the items of two lists of ranges, one after
/// the other, are those of the first list followed by those of the second.
/// Nothing is sorted or merged, and what two ranges share comes out twice.
pub proof fn law_selected_in_order<T>(
    items: Seq<T>,
    first: Seq<Range<usize>>,
    second: Seq<Range<usize>>,
)
    ensures
        selected(items, first + second) == selected(items, first) + selected(items, second),
    decreases second.len(),
{
    if second.len() == 0 {
        assert(first + second =~= first);
        assert(selected(items, first) + selected(items, second) =~= selected(items, first));
    } else {
        law_selected_in_order(items, first, second.drop_last());
        assert((first + second).drop_last() =~= first + second.drop_last());
        assert((first + second).last() == second.last());
        assert(selected(items, first + second) =~= selected(items, first) + selected(
            items,
            second,
        ));
    }
}

/// The items that a single range selects are those it picks.
proof fn lemma_selected_one<T>(items: Seq<T>, range: Range<usize>)
    ensures
        selected(items, seq![range]) == picked(items, range),
{
    assert(seq![range].drop_last() =~= Seq::<Range<usize>>::empty());
    assert(seq![range].last() == range);
    assert(selected(items, seq![range].drop_last()) =~= Seq::<T>::empty());
    assert(selected(items, seq![range]) =~= picked(items, range));
}

/// Positions that do not exist select nothing: a range that starts past the
/// last item can be left out of a list, wherever it stands, and a range that
/// ends past the last item selects what it would if it ended there.
pub proof fn law_missing_positions_skipped<T>(
    items: Seq<T>,
    before: Seq<Range<usize>>,
    range: Range<usize>,
    after: Seq<Range<usize>>,
)
    ensures
        range.start >= items.len() ==> selected(items, before + seq![range] + after) == selected(
            items,
            before + after,
        ),
        range.end >= items.len() ==> selected(items, before + seq![range] + after) == selected(
            items,
            before + seq![(range.start..items.len() as usize)] + after,
        ),
{
    let cut: Range<usize> = range.start..items.len() as usize;
    law_selected_in_order(items, before + seq![range], after);
    law_selected_in_order(items, before, seq![range]);
    law_selected_in_order(items, before + seq![cut], after);
    law_selected_in_order(items, before, seq![cut]);
    law_selected_in_order(items, before, after);
    lemma_selected_one(items, range);
    lemma_selected_one(items, cut);
    if range.start >= items.len() {
        assert(selected(items, before) + picked(items, range) =~= selected(items, before));
    }
}

/// A range from the first position to the last, or beyond, selects every
/// item once.
pub proof fn law_whole_range<T>(items: Seq<T>, end: usize)
    requires
        end >= items.len(),
    ensures
        selected(items, seq![(0usize..end)]) == items,
{
    lemma_selected_one(items, 0usize..end);
    assert(picked(items, 0usize..end) =~= items);
}

/// On a line of ASCII characters, bytes and characters are the same
/// positions: the selected bytes are the encoding of the selected
/// characters, so they are well-formed and decode to those characters.
pub proof fn law_ascii_bytes_are_chars(line: Seq<char>, ranges: Seq<Range<usize>>)
    requires
        is_ascii_chars(line),
    ensures
        is_ascii_chars(selected(line, ranges)),
        selected(encode_utf8(line), ranges) == encode_utf8(selected(line, ranges)),
        valid_utf8(selected(encode_utf8(line), ranges)),
        decode_utf8(selected(encode_utf8(line), ranges)) == selected(line, ranges),
    decreases ranges.len(),
{
    let chars = selected(line, ranges);
    let bytes = selected(encode_utf8(line), ranges);
    is_ascii_chars_encode_utf8(line);
    if ranges.len() > 0 {
        law_ascii_bytes_are_chars(line, ranges.drop_last());
        let front = selected(line, ranges.drop_last());
        let last = picked(line, ranges.last());
        assert forall|i: int| 0 <= i < chars.len() implies '\0' <= #[trigger] chars[i]
            <= '\u{7f}' by {
            if i < front.len() {
                assert(chars[i] == front[i]);
            } else {
                assert(chars[i] == last[i - front.len()]);
            }
        }
        is_ascii_chars_encode_utf8(chars);
        is_ascii_chars_encode_utf8(front);
        assert forall|i: int| 0 <= i < bytes.len() implies bytes[i] == encode_utf8(chars)[i] by {
            if i < front.len() {
                assert(chars[i] == front[i]);
            } else {
                assert(chars[i] == last[i - front.len()]);
            }
        }
        assert(bytes =~= encode_utf8(chars));
    } else {
        assert(bytes =~= encode_utf8(chars));
    }
    encode_utf8_valid_utf8(chars);
    encode_utf8_decode_utf8(chars);
}

/// The whole line, selected by bytes, is the line: its bytes are well-formed
/// and decode to its characters.
pub proof fn law_all_bytes(line: Seq<char>, end: usize)
    requires
        end >= encode_utf8(line).len(),
    ensures
        valid_utf8(selected(encode_utf8(line), seq![(0usize..end)])),
        decode_utf8(selected(encode_utf8(line), seq![(0usize..end)])) == line,
{
    law_whole_range(encode_utf8(line), end);
    encode_utf8_valid_utf8(line);
    encode_utf8_decode_utf8(line);
}

} // verus!
