//! Character boundaries in UTF-8.

use vstd::prelude::*;
use vstd::utf8::*;

verus! {

/// The nearest offset at or before `i` at which no continuation byte stands.
pub open spec fn char_floor(bytes: Seq<u8>, i: int) -> int
    decreases i,
{
    if 0 < i < bytes.len() && is_continuation_byte(bytes[i]) {
        char_floor(bytes, i - 1)
    } else {
        i
    }
}

/// The nearest offset at or after `i` at which no continuation byte stands.
pub open spec fn char_ceil(bytes: Seq<u8>, i: int) -> int
    decreases bytes.len() - i,
{
    if 0 <= i < bytes.len() && is_continuation_byte(bytes[i]) {
        char_ceil(bytes, i + 1)
    } else {
        i
    }
}

/// The floor is at or before the offset, only continuation bytes lie between
/// the two, and none stands at the floor itself.
pub proof fn lemma_char_floor(bytes: Seq<u8>, i: int)
    requires
        0 <= i <= bytes.len(),
    ensures
        0 <= char_floor(bytes, i) <= i,
        forall|j: int| char_floor(bytes, i) < j <= i && j < bytes.len() ==> is_continuation_byte(bytes[j]),
        0 < char_floor(bytes, i) < bytes.len() ==> !is_continuation_byte(
            bytes[char_floor(bytes, i)],
        ),
    decreases i,
{
    if 0 < i < bytes.len() && is_continuation_byte(bytes[i]) {
        lemma_char_floor(bytes, i - 1);
    }
}

/// The ceiling is at or after the offset, only continuation bytes lie between
/// the two, and none stands at the ceiling itself.
pub proof fn lemma_char_ceil(bytes: Seq<u8>, i: int)
    requires
        0 <= i <= bytes.len(),
    ensures
        i <= char_ceil(bytes, i) <= bytes.len(),
        forall|j: int| i <= j < char_ceil(bytes, i) ==> is_continuation_byte(bytes[j]),
        char_ceil(bytes, i) < bytes.len() ==> !is_continuation_byte(bytes[char_ceil(bytes, i)]),
    decreases bytes.len() - i,
{
    if i < bytes.len() && is_continuation_byte(bytes[i]) {
        lemma_char_ceil(bytes, i + 1);
    }
}

/// Floors keep the order of the offsets.
pub proof fn lemma_char_floor_monotone(bytes: Seq<u8>, i: int, j: int)
    requires
        0 <= i <= j <= bytes.len(),
    ensures
        char_floor(bytes, i) <= char_floor(bytes, j),
    decreases j,
{
    lemma_char_floor(bytes, i);
    lemma_char_floor(bytes, j);
    if i < j && 0 < j < bytes.len() && is_continuation_byte(bytes[j]) {
        lemma_char_floor_monotone(bytes, i, j - 1);
    }
}

/// In valid UTF-8 the floor is a character boundary, and an offset that is one
/// is its own floor.
pub proof fn lemma_char_floor_boundary(bytes: Seq<u8>, i: int)
    requires
        valid_utf8(bytes),
        0 <= i <= bytes.len(),
    ensures
        is_char_boundary(bytes, char_floor(bytes, i)),
        is_char_boundary(bytes, i) ==> char_floor(bytes, i) == i,
{
    lemma_char_floor(bytes, i);
    is_char_boundary_start_end_of_seq(bytes);
    let f = char_floor(bytes, i);
    if 0 < f < bytes.len() {
        is_char_boundary_iff_not_is_continuation_byte(bytes, f);
    }
    if 0 < i < bytes.len() {
        is_char_boundary_iff_not_is_continuation_byte(bytes, i);
    }
}

/// In valid UTF-8 the ceiling is a character boundary, and an offset that is
/// one is its own ceiling.
pub proof fn lemma_char_ceil_boundary(bytes: Seq<u8>, i: int)
    requires
        valid_utf8(bytes),
        0 <= i <= bytes.len(),
    ensures
        is_char_boundary(bytes, char_ceil(bytes, i)),
        is_char_boundary(bytes, i) ==> char_ceil(bytes, i) == i,
{
    lemma_char_ceil(bytes, i);
    is_char_boundary_start_end_of_seq(bytes);
    let c = char_ceil(bytes, i);
    if c < bytes.len() {
        is_char_boundary_iff_not_is_continuation_byte(bytes, c);
    }
    if i < bytes.len() {
        is_char_boundary_iff_not_is_continuation_byte(bytes, i);
    }
}

/// In valid UTF-8 a floor is never more than three bytes away.
pub proof fn lemma_char_floor_near(bytes: Seq<u8>, i: int)
    requires
        valid_utf8(bytes),
        0 <= i <= bytes.len(),
    ensures
        i - char_floor(bytes, i) <= 3,
    decreases bytes.len(),
{
    lemma_char_floor(bytes, i);
    if bytes.len() > 0 {
        let n = length_of_first_scalar(bytes);
        let rest = pop_first_scalar(bytes);
        if i >= n {
            lemma_char_floor_near(rest, i - n);
            lemma_char_floor(rest, i - n);
            let f = char_floor(rest, i - n);
            if f + n < bytes.len() {
                // No continuation byte stands at the start of the rest.
                if f == 0 && rest.len() > 0 {
                    reveal_with_fuel(valid_utf8, 2);
                    assert(valid_first_scalar(rest));
                }
                assert(bytes[f + n] == rest[f]);
                if char_floor(bytes, i) < f + n <= i {
                    assert(is_continuation_byte(bytes[f + n]));
                }
            }
        }
    }
}

/// The bytes between two character boundaries are valid UTF-8.
pub proof fn lemma_valid_between(bytes: Seq<u8>, start: int, end: int)
    requires
        valid_utf8(bytes),
        0 <= start <= end <= bytes.len(),
        is_char_boundary(bytes, start),
        is_char_boundary(bytes, end),
    ensures
        valid_utf8(bytes.subrange(start, end)),
{
    let head = bytes.subrange(0, end);
    valid_utf8_split(bytes, end);
    is_char_boundary_start_end_of_seq(head);
    if 0 < start < end {
        is_char_boundary_iff_not_is_continuation_byte(bytes, start);
        is_char_boundary_iff_not_is_continuation_byte(head, start);
    }
    valid_utf8_split(head, start);
    assert(head.subrange(start, end) =~= bytes.subrange(start, end));
}

/// What stands from one character boundary to a later one reads as what stands
/// up to one between them and what stands from there on.
pub proof fn lemma_decode_split(bytes: Seq<u8>, start: int, mid: int, end: int)
    requires
        valid_utf8(bytes),
        0 <= start <= mid <= end <= bytes.len(),
        is_char_boundary(bytes, start),
        is_char_boundary(bytes, mid),
        is_char_boundary(bytes, end),
    ensures
        decode_utf8(bytes.subrange(start, end)) == decode_utf8(bytes.subrange(start, mid))
            + decode_utf8(bytes.subrange(mid, end)),
{
    let part = bytes.subrange(start, end);
    lemma_valid_between(bytes, start, end);
    is_char_boundary_start_end_of_seq(part);
    if start < mid < end {
        is_char_boundary_iff_not_is_continuation_byte(bytes, mid);
        is_char_boundary_iff_not_is_continuation_byte(part, mid - start);
    }
    decode_utf8_split(part, mid - start);
    assert(part.subrange(0, mid - start) =~= bytes.subrange(start, mid));
    assert(part.subrange(mid - start, part.len() as int) =~= bytes.subrange(mid, end));
}

/// Each of the ranges starts and ends at a character boundary of the bytes.
pub open spec fn at_boundaries(bytes: Seq<u8>, ranges: Seq<(usize, usize)>) -> bool {
    forall|i: int|
        0 <= i < ranges.len() ==> is_char_boundary(bytes, (#[trigger] ranges[i]).0 as int)
            && is_char_boundary(bytes, ranges[i].1 as int)
}

/// Each of the ranges selects bytes that are valid UTF-8.
pub open spec fn are_texts(bytes: Seq<u8>, ranges: Seq<(usize, usize)>) -> bool {
    forall|i: int|
        0 <= i < ranges.len() ==> valid_utf8(
            bytes.subrange((#[trigger] ranges[i]).0 as int, ranges[i].1 as int),
        )
}

/// Where valid UTF-8 starts with valid UTF-8, that ends at a character
/// boundary.
proof fn lemma_valid_prefix(bytes: Seq<u8>, n: int)
    requires
        valid_utf8(bytes),
        0 <= n <= bytes.len(),
        valid_utf8(bytes.subrange(0, n)),
    ensures
        is_char_boundary(bytes, n),
    decreases bytes.len(),
{
    if n > 0 {
        let prefix = bytes.subrange(0, n);
        let k = length_of_first_scalar(bytes);
        assert(prefix[0] == bytes[0]);
        assert(length_of_first_scalar(prefix) == k);
        assert(pop_first_scalar(prefix) =~= pop_first_scalar(bytes).subrange(0, n - k));
        lemma_valid_prefix(pop_first_scalar(bytes), n - k);
    }
}

/// In valid UTF-8, bytes that are valid UTF-8 by themselves stand between two
/// character boundaries.
pub proof fn lemma_valid_within(bytes: Seq<u8>, start: int, end: int)
    requires
        valid_utf8(bytes),
        0 <= start < end <= bytes.len(),
        valid_utf8(bytes.subrange(start, end)),
    ensures
        is_char_boundary(bytes, start),
        is_char_boundary(bytes, end),
{
    let part = bytes.subrange(start, end);
    let rest = bytes.subrange(start, bytes.len() as int);
    is_char_boundary_start_end_of_seq(bytes);
    is_char_boundary_iff_not_is_continuation_byte(part, 0);
    is_char_boundary_iff_not_is_continuation_byte(bytes, start);
    assert(part[0] == bytes[start]);
    valid_utf8_split(bytes, start);
    assert(rest.subrange(0, end - start) =~= part);
    lemma_valid_prefix(rest, end - start);
    if end < bytes.len() {
        is_char_boundary_iff_not_is_continuation_byte(rest, end - start);
        is_char_boundary_iff_not_is_continuation_byte(bytes, end);
    }
}

/// The encoding of two texts in a row is their encodings in a row.
pub proof fn lemma_encode_concat(a: Seq<char>, b: Seq<char>)
    ensures
        encode_utf8(a + b) == encode_utf8(a) + encode_utf8(b),
    decreases a.len(),
{
    if a.len() == 0 {
        assert(a + b =~= b);
        assert(encode_utf8(a) + encode_utf8(b) =~= encode_utf8(b));
    } else {
        assert((a + b).drop_first() =~= a.drop_first() + b);
        lemma_encode_concat(a.drop_first(), b);
        assert(encode_utf8(a + b) =~= encode_utf8(a) + encode_utf8(b));
    }
}

/// Finds the nearest offset at or before `i` at which no continuation byte
/// stands.
pub fn find_char_floor(bytes: &[u8], i: usize) -> (r: usize)
    requires
        i <= bytes@.len(),
    ensures
        r == char_floor(bytes@, i as int),
{
    let mut r: usize = i;
    while r > 0 && r < bytes.len() && (bytes[r] & 0xC0) == 0x80
        invariant
            r <= i <= bytes@.len(),
            char_floor(bytes@, r as int) == char_floor(bytes@, i as int),
        decreases r,
    {
        proof {
            utf8_byte_ranges_bitwise(bytes@[r as int]);
        }
        r = r - 1;
    }
    proof {
        if 0 < r < bytes@.len() {
            utf8_byte_ranges_bitwise(bytes@[r as int]);
        }
    }
    r
}

} // verus!
