//! Text as the extractor sees it: a sequence of characters addressed by the
//! byte offsets of its UTF-8 encoding.

use vstd::prelude::*;
use vstd::string::*;
use vstd::utf8::*;

verus! {

/// The UTF-8 bytes of `text`.
pub open spec fn bytes_of(text: Seq<char>) -> Seq<u8> {
    encode_utf8(text)
}

/// True when byte offset `at` lies inside `text` (its end included) and does
/// not split a character.
pub open spec fn is_boundary(text: Seq<char>, at: int) -> bool {
    0 <= at <= bytes_of(text).len() && is_char_boundary(bytes_of(text), at)
}

/// The characters of `text` between byte offsets `from` and `to`.
pub open spec fn slice(text: Seq<char>, from: int, to: int) -> Seq<char> {
    decode_utf8(bytes_of(text).subrange(from, to))
}

/// The characters of `text` from byte offset `from` to its end.
pub open spec fn tail(text: Seq<char>, from: int) -> Seq<char> {
    slice(text, from, bytes_of(text).len() as int)
}

/// What `String::from_utf8_lossy` makes of `bytes`: their text, with each
/// ill-formed stretch replaced by U+FFFD.
pub uninterp spec fn utf8_lossy(bytes: Seq<u8>) -> Seq<char>;

/// The text that a chunk of bytes is taken for: the text they encode where
/// they are well-formed UTF-8, and otherwise that text with replacement
/// characters where it is ill-formed.
pub open spec fn decoded_text(bytes: Seq<u8>) -> Seq<char> {
    if valid_utf8(bytes) {
        decode_utf8(bytes)
    } else {
        utf8_lossy(bytes)
    }
}

/// Calls `String::from_utf8_lossy` and takes the text as an owned string.
///
/// Claimed of it: the result is a function of the bytes, and well-formed
/// UTF-8 is decoded unchanged.
#[verifier::external_body]
pub(crate) fn decode_lossy(bytes: &[u8]) -> (text: String)
    ensures
        valid_utf8(bytes@) ==> text@ == decode_utf8(bytes@),
        !valid_utf8(bytes@) ==> text@ == utf8_lossy(bytes@),
{
    String::from_utf8_lossy(bytes).into_owned()
}

/// Two well-formed stretches of bytes decode, one behind the other, to
/// their two texts one behind the other.
pub proof fn lemma_decode_concat(a: Seq<u8>, b: Seq<u8>)
    requires
        valid_utf8(a),
        valid_utf8(b),
    ensures
        valid_utf8(a + b),
        decode_utf8(a + b) == decode_utf8(a) + decode_utf8(b),
{
    broadcast use group_utf8_lib;

    valid_utf8_concat(a, b);
    lemma_bytes_of_concat(decode_utf8(a), decode_utf8(b));
    decode_utf8_encode_utf8(a);
    decode_utf8_encode_utf8(b);
    encode_utf8_decode_utf8(decode_utf8(a) + decode_utf8(b));
}

/// Encoding distributes over concatenation.
pub proof fn lemma_bytes_of_concat(a: Seq<char>, b: Seq<char>)
    ensures
        bytes_of(a + b) == bytes_of(a) + bytes_of(b),
    decreases a.len(),
{
    if a.len() == 0 {
        assert(a + b =~= b);
        assert(bytes_of(a) + bytes_of(b) =~= bytes_of(b));
    } else {
        lemma_bytes_of_concat(a.drop_first(), b);
        assert((a + b).drop_first() =~= a.drop_first() + b);
        assert((a + b)[0] == a[0]);
        assert(bytes_of(a + b) =~= bytes_of(a) + bytes_of(b));
    }
}

/// The end of a text and its start are boundaries, and a text is its own
/// tail from offset zero.
pub proof fn lemma_tail_from_start(text: Seq<char>)
    ensures
        is_boundary(text, 0),
        is_boundary(text, bytes_of(text).len() as int),
        tail(text, 0) == text,
{
    broadcast use group_utf8_lib;

    let bytes = bytes_of(text);
    is_char_boundary_start_end_of_seq(bytes);
    assert(bytes.subrange(0, bytes.len() as int) =~= bytes);
}

/// The bytes of a slice cut at boundaries are the bytes between the cuts.
pub proof fn lemma_bytes_of_slice(text: Seq<char>, from: int, to: int)
    requires
        from <= to,
        is_boundary(text, from),
        is_boundary(text, to),
    ensures
        bytes_of(slice(text, from, to)) == bytes_of(text).subrange(from, to),
        valid_utf8(bytes_of(text).subrange(from, to)),
{
    broadcast use group_utf8_lib;

    let bytes = bytes_of(text);
    let head = bytes.subrange(0, to);
    valid_utf8_split(bytes, to);
    lemma_boundary_in_prefix(text, from, to);
    valid_utf8_split(head, from);
    assert(head.subrange(from, head.len() as int) =~= bytes.subrange(from, to));
}

/// A boundary of a text is a boundary of every prefix that reaches it.
pub proof fn lemma_boundary_in_prefix(text: Seq<char>, from: int, to: int)
    requires
        from <= to,
        is_boundary(text, from),
        is_boundary(text, to),
    ensures
        valid_utf8(bytes_of(text).subrange(0, to)),
        is_char_boundary(bytes_of(text).subrange(0, to), from),
{
    broadcast use group_utf8_lib;

    let bytes = bytes_of(text);
    let head = bytes.subrange(0, to);
    valid_utf8_split(bytes, to);
    if from == to {
        is_char_boundary_start_end_of_seq(head);
    } else {
        is_char_boundary_iff_not_is_continuation_byte(bytes, from);
        is_char_boundary_iff_not_is_continuation_byte(head, from);
    }
}

/// A boundary at or after a cut is a boundary of the tail behind the cut.
pub proof fn lemma_boundary_in_tail(text: Seq<char>, cut: int, at: int)
    requires
        cut <= at,
        is_boundary(text, cut),
        is_boundary(text, at),
    ensures
        is_boundary(tail(text, cut), at - cut),
        tail(tail(text, cut), at - cut) == tail(text, at),
{
    broadcast use group_utf8_lib;

    let bytes = bytes_of(text);
    let len = bytes.len() as int;
    lemma_tail_from_start(text);
    lemma_bytes_of_slice(text, cut, len);
    let rest = bytes.subrange(cut, len);
    assert(bytes_of(tail(text, cut)) == rest);
    if at == len {
        is_char_boundary_start_end_of_seq(rest);
    } else {
        is_char_boundary_iff_not_is_continuation_byte(bytes, at);
        is_char_boundary_iff_not_is_continuation_byte(rest, at - cut);
    }
    assert(rest.subrange(at - cut, rest.len() as int) =~= bytes.subrange(at, len));
}

/// A boundary of a text is a boundary of the text with more behind it, and
/// the tail from there is the old tail with the addition behind it.
pub proof fn lemma_tail_of_concat(text: Seq<char>, more: Seq<char>, at: int)
    requires
        is_boundary(text, at),
    ensures
        is_boundary(text + more, at),
        tail(text + more, at) == tail(text, at) + more,
{
    broadcast use group_utf8_lib;

    let bytes = bytes_of(text);
    let added = bytes_of(more);
    let len = bytes.len() as int;
    lemma_bytes_of_concat(text, more);
    lemma_tail_from_start(text);
    lemma_tail_from_start(more);
    let all = bytes + added;
    assert(bytes_of(text + more) == all);
    if at < len {
        is_char_boundary_iff_not_is_continuation_byte(bytes, at);
        is_char_boundary_iff_not_is_continuation_byte(all, at);
    } else if added.len() == 0 {
        is_char_boundary_start_end_of_seq(all);
    } else {
        is_char_boundary_iff_not_is_continuation_byte(added, 0);
        is_char_boundary_iff_not_is_continuation_byte(all, at);
    }
    lemma_bytes_of_slice(text, at, len);
    lemma_bytes_of_concat(tail(text, at), more);
    assert(all.subrange(at, all.len() as int) =~= bytes.subrange(at, len) + added);
}

/// Copies the part of `s` between two byte offsets.
pub fn slice_of(s: &str, from: usize, to: usize) -> (r: String)
    requires
        from <= to,
        is_boundary(s@, from as int),
        is_boundary(s@, to as int),
    ensures
        r@ == slice(s@, from as int, to as int),
{
    broadcast use group_utf8_lib;

    proof {
        lemma_boundary_in_prefix(s@, from as int, to as int);
    }
    let (head, _) = s.split_at(to);
    let (_, mid) = head.split_at(from);
    proof {
        assert(head.spec_bytes().subrange(from as int, head.spec_bytes().len() as int)
            =~= bytes_of(s@).subrange(from as int, to as int));
    }
    mid.to_owned()
}

/// Copies the part of `s` from a byte offset to its end.
pub fn tail_of(s: &str, from: usize) -> (r: String)
    requires
        is_boundary(s@, from as int),
    ensures
        r@ == tail(s@, from as int),
{
    broadcast use group_utf8_lib;

    let (_, rest) = s.split_at(from);
    rest.to_owned()
}

} // verus!
