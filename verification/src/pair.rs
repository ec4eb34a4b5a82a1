//! Reading a pair of values written with a separator between them, such as
//! `"400x600"` or `"1.0,0.5"`.

use std::str::FromStr;
use vstd::prelude::*;

verus! {

/// Whether `left` and `right` are what stands in `s` before and after the
/// first occurrence of `separator`.
pub open spec fn is_cut(s: Seq<char>, separator: char, left: Seq<char>, right: Seq<char>) -> bool {
    s == left + seq![separator] + right && !left.contains(separator)
}

/// Cuts `s` at the first occurrence of `separator`.
///
/// When `separator` occurs in `s`, the result is the text before its first
/// occurrence and the text after it; either may be empty. When it does not
/// occur, there is no result.
pub fn split_pair<'a>(s: &'a str, separator: char) -> (parts: Option<(&'a str, &'a str)>)
    ensures
        match parts {
            None => !s@.contains(separator),
            Some((left, right)) => is_cut(s@, separator, left@, right@),
        },
{
    let length = s.unicode_len();
    let mut index: usize = 0;
    while index < length
        invariant
            length == s@.len(),
            index <= length,
            forall|j: int| 0 <= j < index ==> s@[j] != separator,
        decreases length - index,
    {
        if s.get_char(index) == separator {
            let left = s.substring_char(0, index);
            let right = s.substring_char(index + 1, length);
            assert(s@ =~= left@ + seq![separator] + right@);
            return Some((left, right));
        }
        index += 1;
    }
    None
}

/// The pair of two parsed values: a pair when both are there, nothing when
/// either is missing.
pub open spec fn both_of<T>(left: Option<T>, right: Option<T>) -> Option<(T, T)> {
    match (left, right) {
        (Some(l), Some(r)) => Some((l, r)),
        _ => None,
    }
}

/// Pairs two parsed values: a pair when both are there, nothing when either
/// is missing.
pub fn both<T>(left: Option<T>, right: Option<T>) -> (pair: Option<(T, T)>)
    ensures
        pair == both_of(left, right),
{
    match (left, right) {
        (Some(l), Some(r)) => Some((l, r)),
        _ => None,
    }
}

/// Parses `s` as a `T` with `FromStr::from_str`, keeping the value and
/// dropping the error. What counts as a well-formed `T` is up to `T`'s own
/// implementation, so nothing is claimed of the result.
#[verifier::external_body]
fn parse<T: FromStr>(s: &str) -> (value: Option<T>) {
    T::from_str(s).ok()
}

/// Whether `value` is what parsing `text` as a `T` gave: the result of a
/// call of `parse` on `text`. Which value that is, is up to `T`.
pub closed spec fn parsed<T: FromStr>(text: &str, value: Option<T>) -> bool {
    call_ensures(parse::<T>, (text,), value)
}

/// Reads `s` as a pair of the form `<left><separator><right>`, where
/// `<left>` and `<right>` are each parsed as a `T`.
///
/// Without a separator nothing is parsed and there is no pair. Otherwise the
/// text is cut at the first occurrence of `separator`, the text before it and
/// the text after it are each parsed, and the result is the pair of what the
/// two gave: a pair when both parts parsed, nothing when either did not.
pub fn analy_paire<T: FromStr>(s: &str, separator: char) -> (pair: Option<(T, T)>)
    ensures
        !s@.contains(separator) ==> pair is None,
        s@.contains(separator) ==> exists|left: &str, right: &str, l: Option<T>, r: Option<T>|
            #![trigger parsed(left, l), parsed(right, r)]
            is_cut(s@, separator, left@, right@) && parsed(left, l) && parsed(right, r) && pair
                == both_of(l, r),
{
    match split_pair(s, separator) {
        None => None,
        Some((left, right)) => {
            assert(s@[left@.len() as int] == separator);
            let l = parse::<T>(left);
            let r = parse::<T>(right);
            assert(parsed(left, l) && parsed(right, r));
            both(l, r)
        },
    }
}

} // verus!
