//! Position lists: the grammar of `1,7,3-5` and the ranges it denotes.
//!
//! A list is a run of tokens separated by commas. A token is a number `N`,
//! which selects position `N`, or a range `N-M`, which selects positions `N`
//! to `M`, both counted from one. The result counts from zero and is half
//! open: `N` becomes `[N-1, N)` and `N-M` becomes `[N-1, M)`. Ranges stay in
//! the order of their tokens and are never merged.

use vstd::prelude::*;
use std::ops::Range;
use regex::Regex;
use crate::text::{
    chars_of, decimal, is_decimal, is_digit, is_number, lemma_leading_zero, lemma_split_joined,
    lemma_split_whole, number_value, parse_number, push_decimal, split, split_text, texts,
};

verus! {

/// An ordered list of half-open, zero-based ranges, one for each token.
pub type PositionList = Vec<Range<usize>>;

/// Why a position list was refused.
#[derive(Debug, PartialEq, Eq)]
pub enum ListSyntaxError {
    /// A token, or a number of a range, that is not a positive decimal
    /// number: carries the offending text as it was written.
    IllegalValue(String),
    /// A range whose first number is not lower than its second: carries
    /// both numbers, counted from one.
    RangeOrder(usize, usize),
}

/// The mathematical content of a `ListSyntaxError`.
pub enum ListFault {
    IllegalValue(Seq<char>),
    RangeOrder(nat, nat),
}

impl View for ListSyntaxError {
    type V = ListFault;

    open spec fn view(&self) -> ListFault {
        match self {
            ListSyntaxError::IllegalValue(text) => ListFault::IllegalValue(text@),
            ListSyntaxError::RangeOrder(first, second) => ListFault::RangeOrder(
                *first as nat,
                *second as nat,
            ),
        }
    }
}

impl ListFault {
    /// The text shown to the user for this fault.
    pub open spec fn message(self) -> Seq<char> {
        match self {
            ListFault::IllegalValue(text) => "illegal list value: \""@ + text + "\""@,
            ListFault::RangeOrder(first, second) => "First number in range ("@ + decimal(first)
                + ") must be lower than second number ("@ + decimal(second) + ")"@,
        }
    }
}

impl ListSyntaxError {
    /// The text shown to the user: it quotes the offending token as written,
    /// or states both numbers of an ill-ordered range.
    pub fn message(&self) -> (text: String)
        ensures
            text@ == self@.message(),
    {
        match self {
            ListSyntaxError::IllegalValue(token) => {
                let mut text = String::from_str("illegal list value: \"");
                text.append(token.as_str());
                text.append("\"");
                text
            },
            ListSyntaxError::RangeOrder(first, second) => {
                let mut text = String::from_str("First number in range (");
                push_decimal(&mut text, *first);
                text.append(") must be lower than second number (");
                push_decimal(&mut text, *second);
                text.append(")");
                text
            },
        }
    }
}

/// The zero-based position that a number token selects: the token is a run of
/// ASCII digits that denotes a positive number within the machine word.
pub open spec fn index_of(token: Seq<char>) -> Option<nat> {
    if is_number(token) && 1 <= number_value(token) <= usize::MAX {
        Some((number_value(token) - 1) as nat)
    } else {
        None
    }
}

/// Reads one number of a position list and returns the zero-based position
/// it selects. Anything but a positive decimal number without a sign is
/// refused, and the error quotes `input` as written.
pub fn parse_index(input: &str) -> (res: Result<usize, ListSyntaxError>)
    ensures
        match res {
            Ok(n) => index_of(input@) == Some(n as nat),
            Err(e) => index_of(input@) is None && e@ == ListFault::IllegalValue(input@),
        },
{
    let chars = chars_of(input);
    match parse_number(chars.as_slice()) {
        Some(value) => {
            if value >= 1 {
                Ok(value - 1)
            } else {
                Err(ListSyntaxError::IllegalValue(input.to_owned()))
            }
        },
        None => Err(ListSyntaxError::IllegalValue(input.to_owned())),
    }
}

/// The range that two numbers `N` and `M` of a token `N-M` select, given the
/// text of each: both must be positive numbers and `N` lower than `M`.
pub open spec fn range_of_pair(first: Seq<char>, second: Seq<char>) -> Result<(nat, nat), ListFault> {
    match index_of(first) {
        None => Err(ListFault::IllegalValue(first)),
        Some(n1) => match index_of(second) {
            None => Err(ListFault::IllegalValue(second)),
            Some(n2) => if n1 >= n2 {
                Err(ListFault::RangeOrder(n1 + 1, n2 + 1))
            } else {
                Ok((n1, n2 + 1))
            },
        },
    }
}

/// What a token that is no single number becomes, given the two groups that
/// the range pattern found in it, if any: the range of the two numbers if
/// both groups are runs of ASCII digits; without a match, or with groups in
/// the digits of another script, the token is refused as a whole.
pub open spec fn range_of_groups(token: Seq<char>, groups: Option<(Seq<char>, Seq<char>)>) -> Result<
    (nat, nat),
    ListFault,
> {
    match groups {
        Some(g) => if is_number(g.0) && is_number(g.1) {
            range_of_pair(g.0, g.1)
        } else {
            Err(ListFault::IllegalValue(token))
        },
        None => Err(ListFault::IllegalValue(token)),
    }
}

/// The bounds of a range as a pair of numbers.
pub open spec fn span(r: Range<usize>) -> (nat, nat) {
    (r.start as nat, r.end as nat)
}

/// A parsed range, or the fault, as mathematical values.
pub open spec fn outcome(res: Result<Range<usize>, ListSyntaxError>) -> Result<(nat, nat), ListFault> {
    match res {
        Ok(r) => Ok(span(r)),
        Err(e) => Err(e@),
    }
}

/// Turns the two numbers of a range token into the range they select.
pub fn range_from_pair(first: &str, second: &str) -> (res: Result<Range<usize>, ListSyntaxError>)
    ensures
        outcome(res) == range_of_pair(first@, second@),
{
    let n1 = match parse_index(first) {
        Ok(n) => n,
        Err(e) => {
            return Err(e);
        },
    };
    let n2 = match parse_index(second) {
        Ok(n) => n,
        Err(e) => {
            return Err(e);
        },
    };
    if n1 >= n2 {
        return Err(ListSyntaxError::RangeOrder(n1 + 1, n2 + 1));
    }
    Ok(n1..n2 + 1)
}

/// The views of the two groups of a match.
pub open spec fn groups_view(groups: Option<(String, String)>) -> Option<(Seq<char>, Seq<char>)> {
    match groups {
        Some(g) => Some((g.0@, g.1@)),
        None => None,
    }
}

/// Decides a token that is no single number from what the range pattern
/// found in it: with two groups of ASCII digits they are read as the numbers
/// of a range; otherwise the whole token is refused as written.
pub fn range_from_groups(token: &str, groups: Option<(String, String)>) -> (res: Result<
    Range<usize>,
    ListSyntaxError,
>)
    ensures
        outcome(res) == range_of_groups(token@, groups_view(groups)),
{
    match groups {
        Some(g) => {
            if is_decimal(g.0.as_str()) && is_decimal(g.1.as_str()) {
                range_from_pair(g.0.as_str(), g.1.as_str())
            } else {
                Err(ListSyntaxError::IllegalValue(token.to_owned()))
            }
        },
        None => Err(ListSyntaxError::IllegalValue(token.to_owned())),
    }
}

/// Where a dash stands in a token; if there are several, any of them.
pub open spec fn dash_of(token: Seq<char>) -> int {
    token.index_of('-')
}

/// The text of a token before its dash.
pub open spec fn before_dash(token: Seq<char>) -> Seq<char> {
    token.take(dash_of(token))
}

/// The text of a token after its dash.
pub open spec fn after_dash(token: Seq<char>) -> Seq<char> {
    token.skip(dash_of(token) + 1)
}

/// A token of the shape `N-M`: two non-empty runs of ASCII digits with one
/// dash between them.
pub open spec fn is_plain_range(token: Seq<char>) -> bool {
    token.contains('-') && is_number(before_dash(token)) && is_number(after_dash(token))
}

/// The two groups that the pattern `^(\d+)-(\d+)$` of the regex crate
/// captures in a token, or `None` where the pattern does not match it. The
/// class `\d` covers the decimal digits of every script, so the groups of a
/// match need not be ASCII.
pub uninterp spec fn range_groups(token: Seq<char>) -> Option<(Seq<char>, Seq<char>)>;

/// Matches a token against the range pattern with `Regex::new` and
/// `Regex::captures`, and hands out the text of the two capture groups.
///
/// Trusted: the pattern is anchored at both ends, so a match spans the whole
/// token, which is then the first group, a dash and the second group; and
/// since `\d` matches every ASCII digit, a token of two ASCII digit runs
/// around one dash always matches.
#[verifier::external_body]
fn match_range(token: &str) -> (groups: Option<(String, String)>)
    ensures
        groups_view(groups) == range_groups(token@),
        groups matches Some(g) ==> token@ == g.0@ + seq!['-'] + g.1@,
        is_plain_range(token@) ==> groups is Some,
{
    let pattern = Regex::new(r"^(\d+)-(\d+)$").unwrap();
    match pattern.captures(token) {
        Some(found) => Some((found[1].to_string(), found[2].to_string())),
        None => None,
    }
}

/// The range that one token selects, or the fault in it.
///
/// A single number `N` selects `[N-1, N)`. Otherwise a token `N-M` in ASCII
/// digits selects `[N-1, M)` if both numbers are positive and `N < M`; if
/// one of them is not positive, or too large, the error cites that number,
/// and if they are in the wrong order it states both. Every other token is
/// an illegal list value and is cited as a whole.
pub open spec fn range_of_token(token: Seq<char>) -> Result<(nat, nat), ListFault> {
    match index_of(token) {
        Some(n) => Ok((n, n + 1)),
        None => if is_plain_range(token) {
            range_of_pair(before_dash(token), after_dash(token))
        } else {
            Err(ListFault::IllegalValue(token))
        },
    }
}

/// A token that is split at a dash into two digit runs has its dash there
/// and nowhere else.
proof fn lemma_plain_range_parts(token: Seq<char>, first: Seq<char>, second: Seq<char>)
    requires
        token == first + seq!['-'] + second,
        is_plain_range(token) || (is_number(first) && is_number(second)),
    ensures
        is_plain_range(token),
        before_dash(token) == first,
        after_dash(token) == second,
{
    let at = first.len() as int;
    assert(token[at] == '-');
    let k = dash_of(token);
    assert(0 <= k < token.len() && token[k] == '-');
    if is_plain_range(token) {
        if k < at {
            assert(after_dash(token)[at - k - 1] == token[at]);
        } else if k > at {
            assert(before_dash(token)[at] == token[at]);
        }
    } else {
        if k < at {
            assert(first[k] == token[k]);
        } else if k > at {
            assert(second[k - at - 1] == token[k]);
        }
    }
    assert(k == at);
    assert(before_dash(token) =~= first);
    assert(after_dash(token) =~= second);
}

/// Reads one token of a position list.
pub fn parse_token(token: &str) -> (res: Result<Range<usize>, ListSyntaxError>)
    ensures
        outcome(res) == range_of_token(token@),
{
    match parse_index(token) {
        Ok(n) => Ok(n..n + 1),
        Err(_) => {
            let groups = match_range(token);
            proof {
                if let Some(g) = groups_view(groups) {
                    if is_plain_range(token@) || (is_number(g.0) && is_number(g.1)) {
                        lemma_plain_range_parts(token@, g.0, g.1);
                    }
                }
            }
            range_from_groups(token, groups)
        },
    }
}

/// The tokens of a list: the pieces between its commas, in order, empty
/// pieces included. A list without a comma, the empty one too, is one token.
pub open spec fn list_tokens(list: Seq<char>) -> Seq<Seq<char>> {
    split(list, ',')
}

/// Cuts a list at its commas.
pub fn split_list(list: &str) -> (tokens: Vec<String>)
    ensures
        texts(tokens@) == list_tokens(list@),
{
    split_text(list, ',')
}

/// The ranges that a run of tokens selects, in the order of the tokens, or
/// the fault of the first token that has one.
pub open spec fn ranges_of(tokens: Seq<Seq<char>>) -> Result<Seq<(nat, nat)>, ListFault>
    decreases tokens.len(),
{
    if tokens.len() == 0 {
        Ok(Seq::empty())
    } else {
        match ranges_of(tokens.drop_last()) {
            Err(fault) => Err(fault),
            Ok(ranges) => match range_of_token(tokens.last()) {
                Err(fault) => Err(fault),
                Ok(range) => Ok(ranges.push(range)),
            },
        }
    }
}

/// Once a run of tokens has a fault, every longer run reports the same one.
proof fn lemma_first_fault_wins(tokens: Seq<Seq<char>>, k: int)
    requires
        0 <= k <= tokens.len(),
        ranges_of(tokens.take(k)) is Err,
    ensures
        ranges_of(tokens) == ranges_of(tokens.take(k)),
    decreases tokens.len() - k,
{
    if k == tokens.len() {
        assert(tokens.take(k) == tokens);
    } else {
        assert(tokens.take(k + 1).drop_last() == tokens.take(k));
        lemma_first_fault_wins(tokens, k + 1);
    }
}

/// The position list that a text denotes, or the fault of its first bad
/// token.
pub open spec fn position_list(list: Seq<char>) -> Result<Seq<(nat, nat)>, ListFault> {
    ranges_of(list_tokens(list))
}

/// The bounds of each range of a list.
pub open spec fn spans(list: Seq<Range<usize>>) -> Seq<(nat, nat)> {
    list.map_values(|r: Range<usize>| span(r))
}

/// Every range of the list holds at least one position.
pub open spec fn is_position_list(list: Seq<Range<usize>>) -> bool {
    forall|i: int| 0 <= i < list.len() ==> (#[trigger] list[i]).start < list[i].end
}

/// Reads a position list such as `1,7,3-5`.
///
/// Succeeds exactly when every token is a positive number or a range of two
/// positive numbers in rising order, and then yields one range for each
/// token, in the order written. Otherwise the error is that of the first
/// token at fault.
pub fn parse_pos(range: &str) -> (res: Result<PositionList, ListSyntaxError>)
    ensures
        match res {
            Ok(list) => position_list(range@) == Ok::<Seq<(nat, nat)>, ListFault>(spans(list@))
                && is_position_list(list@),
            Err(e) => position_list(range@) == Err::<Seq<(nat, nat)>, ListFault>(e@),
        },
{
    let tokens = split_list(range);
    let mut list: Vec<Range<usize>> = Vec::new();
    let mut k: usize = 0;
    assert(texts(tokens@).take(0) =~= Seq::<Seq<char>>::empty());
    assert(spans(list@) =~= Seq::<(nat, nat)>::empty());
    while k < tokens.len()
        invariant
            k <= tokens.len(),
            texts(tokens@) == list_tokens(range@),
            ranges_of(texts(tokens@).take(k as int)) == Ok::<Seq<(nat, nat)>, ListFault>(
                spans(list@),
            ),
            is_position_list(list@),
        decreases tokens.len() - k,
    {
        let ghost seen = texts(tokens@).take(k + 1);
        proof {
            assert(seen.drop_last() == texts(tokens@).take(k as int));
            assert(seen.last() == tokens@[k as int]@);
        }
        match parse_token(tokens[k].as_str()) {
            Ok(r) => {
                assert(spans(list@.push(r)) =~= spans(list@).push(span(r)));
                list.push(r);
            },
            Err(e) => {
                proof {
                    lemma_first_fault_wins(texts(tokens@), k + 1);
                }
                return Err(e);
            },
        }
        k += 1;
    }
    assert(texts(tokens@).take(k as int) == texts(tokens@));
    Ok(list)
}


/// The ranges of a single token are the one range of that token.
proof fn lemma_ranges_of_one(token: Seq<char>)
    ensures
        ranges_of(seq![token]) == match range_of_token(token) {
            Ok(range) => Ok::<Seq<(nat, nat)>, ListFault>(seq![range]),
            Err(fault) => Err(fault),
        },
{
    let tokens = seq![token];
    assert(tokens.drop_last() =~= Seq::<Seq<char>>::empty());
    assert(ranges_of(tokens.drop_last()) == Ok::<Seq<(nat, nat)>, ListFault>(Seq::empty()));
    assert(tokens.last() == token);
    if let Ok(range) = range_of_token(token) {
        assert(Seq::<(nat, nat)>::empty().push(range) =~= seq![range]);
    }
}

/// A list that is one number `N`, at least one, selects the single range
/// `[N-1, N)`.
pub proof fn law_single_number(token: Seq<char>)
    requires
        is_number(token),
        1 <= number_value(token) <= usize::MAX,
    ensures
        position_list(token) == Ok::<Seq<(nat, nat)>, ListFault>(
            seq![((number_value(token) - 1) as nat, number_value(token))],
        ),
{
    assert forall|i: int| 0 <= i < token.len() implies token[i] != ',' by {
        assert(is_digit(token[i]));
    }
    lemma_split_whole(token, ',');
    lemma_ranges_of_one(token);
}

/// A list that is one range `N-M` with `1 <= N < M` selects the single range
/// `[N-1, M)`.
pub proof fn law_single_range(first: Seq<char>, second: Seq<char>)
    requires
        is_number(first),
        is_number(second),
        1 <= number_value(first) < number_value(second) <= usize::MAX,
    ensures
        position_list(first + seq!['-'] + second) == Ok::<Seq<(nat, nat)>, ListFault>(
            seq![((number_value(first) - 1) as nat, number_value(second))],
        ),
{
    let token = first + seq!['-'] + second;
    lemma_plain_range_parts(token, first, second);
    assert(token[first.len() as int] == '-');
    assert(!is_number(token));
    assert forall|i: int| 0 <= i < token.len() implies token[i] != ',' by {
        if i < first.len() {
            assert(is_digit(first[i]));
        } else if i > first.len() {
            assert(is_digit(second[i - first.len() - 1]));
        }
    }
    lemma_split_whole(token, ',');
    lemma_ranges_of_one(token);
}

/// Zeros in front of a number are transparent: the number selects the same
/// position with or without them, as a token of its own and as either end of
/// a range.
pub proof fn law_leading_zero(number: Seq<char>, other: Seq<char>)
    requires
        is_number(number),
    ensures
        index_of(seq!['0'] + number) == index_of(number),
        index_of(number) is Some ==> position_list(seq!['0'] + number) == position_list(number),
        range_of_pair(number, other) is Ok ==> range_of_pair(seq!['0'] + number, other)
            == range_of_pair(number, other),
        range_of_pair(other, number) is Ok ==> range_of_pair(other, seq!['0'] + number)
            == range_of_pair(other, number),
{
    lemma_leading_zero(number);
    if index_of(number) is Some {
        law_single_number(number);
        law_single_number(seq!['0'] + number);
    }
}

/// The ranges of two runs of tokens, one after the other: those of the first
/// run followed by those of the second, or the first fault met.
proof fn lemma_ranges_of_joined(left: Seq<Seq<char>>, right: Seq<Seq<char>>)
    ensures
        ranges_of(left + right) == match ranges_of(left) {
            Err(fault) => Err::<Seq<(nat, nat)>, ListFault>(fault),
            Ok(first) => match ranges_of(right) {
                Err(fault) => Err(fault),
                Ok(second) => Ok(first + second),
            },
        },
    decreases right.len(),
{
    if right.len() == 0 {
        assert(left + right =~= left);
        if let Ok(first) = ranges_of(left) {
            assert(first + Seq::<(nat, nat)>::empty() =~= first);
        }
    } else {
        lemma_ranges_of_joined(left, right.drop_last());
        assert((left + right).drop_last() =~= left + right.drop_last());
        assert((left + right).last() == right.last());
        if let Ok(first) = ranges_of(left) {
            if let Ok(second) = ranges_of(right.drop_last()) {
                if let Ok(range) = range_of_token(right.last()) {
                    assert((first + second).push(range) =~= first + second.push(range));
                }
            }
        }
    }
}

/// Order and repetition are kept: two lists joined by a comma select the
/// ranges of the first list followed by the ranges of the second, nothing
/// sorted, merged or dropped; and a fault in the first list is reported
/// before any in the second.
pub proof fn law_order_kept(left: Seq<char>, right: Seq<char>)
    ensures
        position_list(left + seq![','] + right) == match position_list(left) {
            Err(fault) => Err::<Seq<(nat, nat)>, ListFault>(fault),
            Ok(first) => match position_list(right) {
                Err(fault) => Err(fault),
                Ok(second) => Ok(first + second),
            },
        },
{
    lemma_split_joined(left, right, ',');
    lemma_ranges_of_joined(list_tokens(left), list_tokens(right));
}

} // verus!
