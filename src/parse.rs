//! Splitting of a text such as `"1000x750"` or `"-1.20,0.35"` into the two
//! values on either side of a delimiter.

use vstd::prelude::*;
use vstd::string::StringSliceAdditionalSpecFns;
use vstd::utf8::{encode_utf8_valid_utf8, is_char_boundary, valid_first_scalar, valid_utf8, valid_utf8_split};

use crate::utf8_bounds::{lemma_boundary_after_prefix, lemma_boundary_at_leading_byte};

verus! {

/// The bytes of `delim` occur in `text` from byte position `k` on.
pub open spec fn delim_at(text: Seq<u8>, delim: Seq<u8>, k: int) -> bool {
    &&& 0 <= k
    &&& k + delim.len() <= text.len()
    &&& text.subrange(k, k + delim.len()) == delim
}

/// `k` is the first byte position at which `delim` occurs in `text`.
pub open spec fn first_delim_at(text: Seq<u8>, delim: Seq<u8>, k: int) -> bool {
    &&& delim_at(text, delim, k)
    &&& forall|j: int| 0 <= j < k ==> !delim_at(text, delim, j)
}

/// `delim` occurs nowhere in `text`.
pub open spec fn delim_absent(text: Seq<u8>, delim: Seq<u8>) -> bool {
    forall|k: int| !delim_at(text, delim, k)
}

/// The first occurrence of a valid UTF-8 delimiter in valid UTF-8 text
/// starts and ends on character boundaries.
proof fn lemma_first_delim_on_boundaries(text: Seq<u8>, delim: Seq<u8>, k: int)
    requires
        valid_utf8(text),
        valid_utf8(delim),
        first_delim_at(text, delim, k),
    ensures
        is_char_boundary(text, k),
        is_char_boundary(text.subrange(k, text.len() as int), delim.len() as int),
{
    let rest = text.subrange(k, text.len() as int);
    if delim.len() == 0 {
        assert(delim_at(text, delim, 0)) by {
            assert(text.subrange(0, 0) =~= delim);
        }
        assert(k == 0);
        assert(rest =~= text);
    } else {
        assert(valid_first_scalar(delim));
        assert(text[k] == delim[0]);
        lemma_boundary_at_leading_byte(text, k);
        valid_utf8_split(text, k);
        assert(rest =~= delim + text.subrange(k + delim.len(), text.len() as int));
        lemma_boundary_after_prefix(delim, text.subrange(k + delim.len(), text.len() as int));
    }
}

/// The bytes of `delim` stand in `text` from position `k` on.
fn bytes_match_at(text: &[u8], delim: &[u8], k: usize) -> (r: bool)
    requires
        k + delim@.len() <= text@.len(),
    ensures
        r == (text@.subrange(k as int, k + delim@.len()) == delim@),
{
    let end = text.len();
    let mut i: usize = 0;
    while i < delim.len()
        invariant
            end == text@.len(),
            k + delim@.len() <= text@.len(),
            i <= delim@.len(),
            forall|j: int| 0 <= j < i ==> text@[k + j] == delim@[j],
        decreases delim@.len() - i,
    {
        if text[k + i] != delim[i] {
            assert(text@.subrange(k as int, k + delim@.len())[i as int] != delim@[i as int]);
            return false;
        }
        i = i + 1;
    }
    assert(text@.subrange(k as int, k + delim@.len()) =~= delim@);
    true
}

/// Byte position of the first occurrence of `delim` in `s`, if any.
pub fn find_delim(s: &str, delim: &str) -> (r: Option<usize>)
    ensures
        match r {
            Some(k) => first_delim_at(s.spec_bytes(), delim.spec_bytes(), k as int),
            None => delim_absent(s.spec_bytes(), delim.spec_bytes()),
        },
{
    let text = s.as_bytes();
    let pattern = delim.as_bytes();
    if pattern.len() > text.len() {
        return None;
    }
    let last = text.len() - pattern.len();
    let mut k: usize = 0;
    while k < last
        invariant
            text@ == s.spec_bytes(),
            pattern@ == delim.spec_bytes(),
            last == text@.len() - pattern@.len(),
            k <= last,
            forall|j: int| 0 <= j < k ==> !delim_at(text@, pattern@, j),
        decreases last - k,
    {
        if bytes_match_at(text, pattern, k) {
            return Some(k);
        }
        k = k + 1;
    }
    if bytes_match_at(text, pattern, last) {
        Some(last)
    } else {
        None
    }
}

/// Splits `s` at the first occurrence of `delim` into the text before it and
/// the text after it; `None` where `delim` does not occur.
pub fn split_pair<'a>(s: &'a str, delim: &str) -> (r: Option<(&'a str, &'a str)>)
    ensures
        match r {
            Some((left, right)) => exists|k: int|
                #[trigger] first_delim_at(s.spec_bytes(), delim.spec_bytes(), k)
                    && left.spec_bytes() == s.spec_bytes().subrange(0, k)
                    && right.spec_bytes() == s.spec_bytes().subrange(
                    k + delim.spec_bytes().len(),
                    s.spec_bytes().len() as int,
                ),
            None => delim_absent(s.spec_bytes(), delim.spec_bytes()),
        },
{
    match find_delim(s, delim) {
        Some(k) => {
            proof {
                encode_utf8_valid_utf8(s@);
                encode_utf8_valid_utf8(delim@);
                lemma_first_delim_on_boundaries(s.spec_bytes(), delim.spec_bytes(), k as int);
            }
            let (left, rest) = s.split_at(k);
            let (_, right) = rest.split_at(delim.as_bytes().len());
            assert(right.spec_bytes() =~= s.spec_bytes().subrange(
                k + delim.spec_bytes().len(),
                s.spec_bytes().len() as int,
            ));
            Some((left, right))
        },
        None => None,
    }
}

/// Relies on `FromStr::from_str` of `T`: the value that `text` spells, where
/// it spells one. Nothing is stated of which texts those are.
#[verifier::external_body]
pub fn parse_value<T: std::str::FromStr>(text: &str) -> Option<T> {
    T::from_str(text).ok()
}

/// The pair of two parsed values, where both sides parsed.
pub fn join_pair<T>(first: Option<T>, second: Option<T>) -> (r: Option<(T, T)>)
    ensures
        r == match (first, second) {
            (Some(x), Some(y)) => Some((x, y)),
            _ => None,
        },
{
    match (first, second) {
        (Some(x), Some(y)) => Some((x, y)),
        _ => None,
    }
}

/// Parses `s` as two values of type `T` separated by `delim`, such as
/// `"1000x750"` with `"x"` or `"-1.20,0.35"` with `","`. The text is cut at
/// the first occurrence of `delim`; the result is `None` where `delim` does
/// not occur, where either side is empty, or where either side does not
/// parse, and otherwise the pair of the two parsed sides.
pub fn parse_pair<T: std::str::FromStr>(s: &str, delim: &str) -> (r: Option<(T, T)>)
    ensures
        delim_absent(s.spec_bytes(), delim.spec_bytes()) ==> r is None,
        forall|k: int|
            #[trigger] first_delim_at(s.spec_bytes(), delim.spec_bytes(), k) && (k == 0 || k
                + delim.spec_bytes().len() == s.spec_bytes().len()) ==> r is None,
        forall|k: int|
            #[trigger] first_delim_at(s.spec_bytes(), delim.spec_bytes(), k) && 0 < k && k
                + delim.spec_bytes().len() < s.spec_bytes().len() ==> exists|
                left: &str,
                right: &str,
                a: Option<T>,
                b: Option<T>,
            |
                #![trigger call_ensures(parse_value::<T>, (left,), a), call_ensures(parse_value::<T>, (right,), b)]
                left.spec_bytes() == s.spec_bytes().subrange(0, k)
                    && right.spec_bytes() == s.spec_bytes().subrange(
                    k + delim.spec_bytes().len(),
                    s.spec_bytes().len() as int,
                ) && call_ensures(parse_value::<T>, (left,), a) && call_ensures(
                    parse_value::<T>,
                    (right,),
                    b,
                ) && r == match (a, b) {
                    (Some(x), Some(y)) => Some((x, y)),
                    _ => None,
                },
{
    match split_pair(s, delim) {
        Some((left, right)) => {
            if left.as_bytes().len() == 0 || right.as_bytes().len() == 0 {
                None
            } else {
                let first = parse_value::<T>(left);
                let second = parse_value::<T>(right);
                join_pair(first, second)
            }
        },
        None => None,
    }
}

} // verus!
