//! Points as text: a row and a column in decimal digits with a comma between
//! them, found anywhere in the text.

use crate::board::Point;
use regex::Regex;
use vstd::prelude::*;
use vstd::std_specs::convert::TryFromSpecImpl;
use vstd::string::StrSliceExecFns;

verus! {

/// The pattern of a point in a text: the row and the column, each one decimal
/// digit or more, as the two groups of the pattern.
pub const POINT_PATTERN: &'static str = "([0-9]+),([0-9]+)";

/// Why a text gave no point.
#[derive(Debug, Copy, Clone, PartialEq, Eq, Structural)]
pub enum ParseError {
    /// The pattern searched for is no pattern.
    Pattern,
    /// The text holds no row and column.
    NotFound,
    /// A row or column is not a decimal number that a coordinate can hold.
    Number,
}

/// What the search for a pattern in a text came to.
#[derive(Debug, PartialEq, Eq)]
pub enum Search {
    /// The pattern is no pattern.
    BadPattern,
    /// The text has no match.
    NoMatch,
    /// The first match: the text of each group of the pattern, the whole match
    /// first, with `None` for a group that took no part in it.
    Match(Vec<Option<String>>),
}

/// What the search for a pattern in a text came to, with texts as sequences
/// of characters.
pub enum SearchView {
    BadPattern,
    NoMatch,
    Match(Seq<Option<Seq<char>>>),
}

/// The characters of a group's text.
pub open spec fn group_view(group: Option<String>) -> Option<Seq<char>> {
    match group {
        Some(text) => Some(text@),
        None => None,
    }
}

impl View for Search {
    type V = SearchView;

    open spec fn view(&self) -> SearchView {
        match self {
            Search::BadPattern => SearchView::BadPattern,
            Search::NoMatch => SearchView::NoMatch,
            Search::Match(groups) => SearchView::Match(
                groups@.map_values(|group: Option<String>| group_view(group)),
            ),
        }
    }
}

/// What `regex` finds when it compiles the pattern and searches the text for
/// its first match.
pub uninterp spec fn regex_first_match(pattern: Seq<char>, text: Seq<char>) -> SearchView;

/// Compiles the pattern with `regex::Regex::new` and takes the first item of
/// `Regex::captures_iter` on the text. The outcome depends on the pattern and
/// the text alone; what it is, is left to `regex`.
#[verifier::external_body]
fn first_match(pattern: &str, text: &str) -> (found: Search)
    ensures
        found@ == regex_first_match(pattern@, text@),
{
    match Regex::new(pattern) {
        Err(_) => Search::BadPattern,
        Ok(re) => match re.captures_iter(text).next() {
            None => Search::NoMatch,
            Some(groups) => Search::Match(
                groups.iter().map(|group| group.map(|found| found.as_str().to_string())).collect(),
            ),
        },
    }
}

/// Whether the character is a decimal digit.
pub open spec fn is_digit(c: char) -> bool {
    '0' <= c <= '9'
}

/// The value of a decimal digit.
pub open spec fn digit_value(c: char) -> nat {
    if is_digit(c) {
        (c as u32 - '0' as u32) as nat
    } else {
        0
    }
}

/// The number that the digits write in decimal.
pub open spec fn decimal(digits: Seq<char>) -> nat
    decreases digits.len(),
{
    if digits.len() == 0 {
        0
    } else {
        decimal(digits.drop_last()) * 10 + digit_value(digits.last())
    }
}

/// The text is one decimal digit or more and nothing else.
pub open spec fn is_number(text: Seq<char>) -> bool {
    text.len() > 0 && forall|i: int| 0 <= i < text.len() ==> is_digit(#[trigger] text[i])
}

/// The coordinate that the text writes, where it is a decimal number that a
/// coordinate can hold.
pub open spec fn coordinate_of(text: Seq<char>) -> Option<i8> {
    if is_number(text) && decimal(text) <= i8::MAX {
        Some(decimal(text) as i8)
    } else {
        None
    }
}

/// The point that the outcome of a search for `POINT_PATTERN` gives: the row
/// from the first group and the column from the second.
pub open spec fn point_of(found: SearchView) -> Result<Point, ParseError> {
    match found {
        SearchView::BadPattern => Err(ParseError::Pattern),
        SearchView::NoMatch => Err(ParseError::NotFound),
        SearchView::Match(groups) => if groups.len() == 3 && groups[1] is Some && groups[2]
            is Some {
            match (coordinate_of(groups[1]->0), coordinate_of(groups[2]->0)) {
                (Some(row), Some(col)) => Ok(Point { row, col }),
                _ => Err(ParseError::Number),
            }
        } else {
            Err(ParseError::NotFound)
        },
    }
}

/// More digits never write a smaller number.
pub proof fn lemma_decimal_grows(digits: Seq<char>, upto: int)
    requires
        0 <= upto <= digits.len(),
    ensures
        decimal(digits.take(upto)) <= decimal(digits),
    decreases digits.len() - upto,
{
    if upto == digits.len() {
        assert(digits.take(upto) =~= digits);
    } else {
        lemma_decimal_grows(digits.drop_last(), upto);
        assert(digits.drop_last().take(upto) =~= digits.take(upto));
    }
}

/// The coordinate that the text writes in decimal digits, if it writes one.
pub fn parse_coordinate(text: &str) -> (coordinate: Option<i8>)
    ensures
        coordinate == coordinate_of(text@),
{
    let length = text.unicode_len();
    if length == 0 {
        return None;
    }
    let mut value: i8 = 0;
    let mut i: usize = 0;
    while i < length
        invariant
            i <= length,
            length == text@.len(),
            0 <= value,
            value == decimal(text@.take(i as int)),
            forall|k: int| 0 <= k < i ==> is_digit(#[trigger] text@[k]),
        decreases length - i,
    {
        let c = text.get_char(i);
        proof {
            assert(text@.take(i + 1).drop_last() =~= text@.take(i as int));
            assert(text@.take(i + 1).last() == c);
        }
        if c < '0' || c > '9' {
            return None;
        }
        let digit = (c as u32 - '0' as u32) as i8;
        if value > 12 || (value == 12 && digit > 7) {
            proof {
                lemma_decimal_grows(text@, i + 1);
            }
            return None;
        }
        value = value * 10 + digit;
        i += 1;
    }
    proof {
        assert(text@.take(length as int) =~= text@);
    }
    Some(value)
}

/// The point that the outcome of a search for `POINT_PATTERN` gives.
pub fn point_from_search(found: &Search) -> (parsed: Result<Point, ParseError>)
    ensures
        parsed == point_of(found@),
{
    match found {
        Search::BadPattern => Err(ParseError::Pattern),
        Search::NoMatch => Err(ParseError::NotFound),
        Search::Match(groups) => {
            if groups.len() != 3 {
                return Err(ParseError::NotFound);
            }
            match (&groups[1], &groups[2]) {
                (Some(row_text), Some(col_text)) => {
                    let row = parse_coordinate(row_text.as_str());
                    let col = parse_coordinate(col_text.as_str());
                    match (row, col) {
                        (Some(row), Some(col)) => Ok(Point { row, col }),
                        _ => Err(ParseError::Number),
                    }
                },
                _ => Err(ParseError::NotFound),
            }
        },
    }
}

impl TryFrom<String> for Point {
    type Error = ParseError;

    /// The first row and column that the text holds.
    fn try_from(value: String) -> (parsed: Result<Self, Self::Error>) {
        let found = first_match(POINT_PATTERN, value.as_str());
        point_from_search(&found)
    }
}

impl TryFromSpecImpl<String> for Point {
    open spec fn obeys_try_from_spec() -> bool {
        true
    }

    open spec fn try_from_spec(value: String) -> Result<Point, ParseError> {
        point_of(regex_first_match(POINT_PATTERN@, value@))
    }
}

} // verus!
