//! Reading a pair of values written as `<left><separator><right>`.

use std::str::FromStr;
use vstd::prelude::*;
use vstd::std_specs::iter::IteratorSpec;

verus! {

/// Whether `at` is the place of the first `separator` in `text`.
pub open spec fn is_first(text: Seq<char>, separator: char, at: int) -> bool {
    &&& 0 <= at < text.len()
    &&& text[at] == separator
    &&& forall|k: int| 0 <= k < at ==> text[k] != separator
}

/// Where `separator` first stands in `text`, if it stands there at all.
pub open spec fn first_index(text: Seq<char>, separator: char) -> Option<int> {
    if exists|at: int| is_first(text, separator, at) {
        Some(choose|at: int| is_first(text, separator, at))
    } else {
        None
    }
}

/// A text has at most one first separator.
pub proof fn lemma_first_is_unique(text: Seq<char>, separator: char, a: int, b: int)
    requires
        is_first(text, separator, a),
        is_first(text, separator, b),
    ensures
        a == b,
{
}

/// A separator that occurs at `at` has a first occurrence, at `at` or
/// before it.
pub proof fn lemma_occurrence_has_first(text: Seq<char>, separator: char, at: int)
    requires
        0 <= at < text.len(),
        text[at] == separator,
    ensures
        exists|first: int| first <= at && is_first(text, separator, first),
    decreases at,
{
    if exists|k: int| 0 <= k < at && text[k] == separator {
        let k: int = choose|k: int| 0 <= k < at && text[k] == separator;
        lemma_occurrence_has_first(text, separator, k);
    } else {
        assert(is_first(text, separator, at));
    }
}

/// [`first_index`] names the first occurrence exactly when the separator
/// occurs, and nothing otherwise.
pub proof fn law_first_index(text: Seq<char>, separator: char)
    ensures
        match first_index(text, separator) {
            Some(at) => is_first(text, separator, at),
            None => !text.contains(separator),
        },
{
    if text.contains(separator) {
        let at: int = choose|at: int| 0 <= at < text.len() && text[at] == separator;
        lemma_occurrence_has_first(text, separator, at);
    }
}

/// The two sides of `text` around the first `separator`, which belongs to
/// neither side.
pub open spec fn sides(text: Seq<char>, separator: char) -> Option<(Seq<char>, Seq<char>)> {
    match first_index(text, separator) {
        Some(at) => Some((text.subrange(0, at), text.subrange(at + 1, text.len() as int))),
        None => None,
    }
}

/// Both values, or nothing when either is missing.
pub open spec fn both<T>(left: Option<T>, right: Option<T>) -> Option<(T, T)> {
    match (left, right) {
        (Some(l), Some(r)) => Some((l, r)),
        _ => None,
    }
}

/// Reads one value with the type's own `from_str`, giving `None` where it
/// reports an error. What `from_str` accepts is the type's business, so
/// nothing is claimed about the answer.
#[verifier::external_body]
fn parse_value<T: FromStr>(text: &str) -> (value: Option<T>) {
    match T::from_str(text) {
        Ok(value) => Some(value),
        Err(_) => None,
    }
}

/// Whether `value` is an answer that the reading of `text` as a `T` may
/// give: what [`parse_pair`] hands to the type's `from_str`, and what it
/// gets back. Nothing is known of `from_str`, so nothing more is said of
/// the answer than that it is the answer to this text.
pub closed spec fn reads<T: FromStr>(text: Seq<char>, value: Option<T>) -> bool {
    exists|handed: &str| handed@ == text && call_ensures(parse_value::<T>, (handed,), value)
}

/// What [`parse_pair`] may answer on `text`: nothing without a separator,
/// and else what [`both`] makes of a reading of the left side and a reading
/// of the right side.
pub open spec fn reads_pair<T: FromStr>(
    text: Seq<char>,
    separator: char,
    pair: Option<(T, T)>,
) -> bool {
    match sides(text, separator) {
        None => pair is None,
        Some(parts) => exists|left: Option<T>, right: Option<T>|
            {
                &&& #[trigger] reads(parts.0, left)
                &&& #[trigger] reads(parts.1, right)
                &&& pair == both(left, right)
            },
    }
}

/// Finds the first `separator` in `text`, counting in characters, in one
/// pass over the text.
pub fn find_separator(text: &str, separator: char) -> (found: Option<usize>)
    ensures
        match found {
            Some(at) => first_index(text@, separator) == Some(at as int),
            None => first_index(text@, separator) is None,
        },
{
    let len: usize = text.unicode_len();
    let mut chars = text.chars();
    let mut at: usize = 0;
    while at < len
        invariant
            at <= len,
            len == text@.len(),
            chars.remaining() == text@.skip(at as int),
            forall|k: int| 0 <= k < at ==> text@[k] != separator,
        decreases len - at,
    {
        let here: Option<char> = chars.next();
        assert(here == Some(text@[at as int]));
        assert(chars.remaining() == text@.skip(at + 1)) by {
            assert(text@.skip(at as int).drop_first() =~= text@.skip(at + 1));
        }
        if here == Some(separator) {
            proof {
                assert(is_first(text@, separator, at as int));
                lemma_first_is_unique(
                    text@,
                    separator,
                    at as int,
                    first_index(text@, separator)->0,
                );
            }
            return Some(at);
        }
        at = at + 1;
    }
    None
}

/// Cuts `text` at the first `separator`.
pub fn split_pair<'a>(text: &'a str, separator: char) -> (parts: Option<(&'a str, &'a str)>)
    ensures
        match parts {
            Some((left, right)) => sides(text@, separator) == Some((left@, right@)),
            None => sides(text@, separator) is None,
        },
{
    match find_separator(text, separator) {
        None => None,
        Some(at) => {
            let len: usize = text.unicode_len();
            let left: &'a str = text.substring_char(0, at);
            let right: &'a str = text.substring_char(at + 1, len);
            Some((left, right))
        },
    }
}

/// Puts two readings together: a pair when both succeeded.
pub fn pair_of<T>(left: Option<T>, right: Option<T>) -> (pair: Option<(T, T)>)
    ensures
        pair == both(left, right),
{
    match (left, right) {
        (Some(l), Some(r)) => Some((l, r)),
        _ => None,
    }
}

/// Reads a pair such as `"400x600"` or `"1.0,1.5"`: two values of one type
/// around the first `separator`.
///
/// Without a separator there is no pair. With one, the left side and the
/// right side, and nothing else, are each handed to the type's `from_str`,
/// and the pair is what [`pair_of`] makes of the two readings. Whether a
/// side reads as a `T` is for `from_str` to say.
pub fn parse_pair<T: FromStr>(text: &str, separator: char) -> (pair: Option<(T, T)>)
    ensures
        reads_pair(text@, separator, pair),
{
    match split_pair(text, separator) {
        None => None,
        Some((left, right)) => {
            let first: Option<T> = parse_value::<T>(left);
            let second: Option<T> = parse_value::<T>(right);
            proof {
                // The two texts handed over are the two sides.
                let parts: (Seq<char>, Seq<char>) = sides(text@, separator)->0;
                assert(parts.0 == left@ && parts.1 == right@);
                assert(reads(parts.0, first));
                assert(reads(parts.1, second));
            }
            pair_of(first, second)
        },
    }
}

} // verus!
