//! Facts on character boundaries of UTF-8 byte sequences.

use vstd::prelude::*;
use vstd::utf8::{
    is_char_boundary, is_continuation_byte, length_of_first_scalar, pop_first_scalar,
    valid_first_scalar, valid_utf8,
};

verus! {

/// In valid UTF-8, a position that holds a byte other than a continuation
/// byte is a character boundary.
pub proof fn lemma_boundary_at_leading_byte(bytes: Seq<u8>, k: int)
    requires
        valid_utf8(bytes),
        0 <= k < bytes.len(),
        !is_continuation_byte(bytes[k]),
    ensures
        is_char_boundary(bytes, k),
    decreases bytes.len(),
{
    if k > 0 {
        let len = length_of_first_scalar(bytes);
        assert(valid_first_scalar(bytes));
        assert(k >= len);
        let rest = pop_first_scalar(bytes);
        assert(rest[k - len] == bytes[k]);
        lemma_boundary_at_leading_byte(rest, k - len);
    }
}

/// Where a valid UTF-8 sequence `head` is followed by more bytes and the
/// whole is valid UTF-8, the end of `head` is a character boundary.
pub proof fn lemma_boundary_after_prefix(head: Seq<u8>, tail: Seq<u8>)
    requires
        valid_utf8(head),
        valid_utf8(head + tail),
    ensures
        is_char_boundary(head + tail, head.len() as int),
    decreases head.len(),
{
    if head.len() > 0 {
        let whole = head + tail;
        assert(valid_first_scalar(head));
        assert(whole[0] == head[0]);
        assert(length_of_first_scalar(whole) == length_of_first_scalar(head));
        let len = length_of_first_scalar(head);
        assert(pop_first_scalar(whole) =~= pop_first_scalar(head) + tail);
        lemma_boundary_after_prefix(pop_first_scalar(head), tail);
    }
}

} // verus!
