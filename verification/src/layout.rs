//! How a text is laid out in parts, those that match apart from those that do
//! not.

use vstd::prelude::*;
use vstd::string::*;
use vstd::utf8::*;

use crate::boundary;
use crate::search;

verus! {

/// A part of a text, with whether it is shown as a match.
#[derive(Debug, Clone)]
pub struct TextSegment {
    pub text: String,
    pub highlighted: bool,
}

impl View for TextSegment {
    type V = (Seq<char>, bool);

    open spec fn view(&self) -> (Seq<char>, bool) {
        (self.text@, self.highlighted)
    }
}

/// The parts apart from how they are stored.
pub open spec fn segment_views(segments: Seq<TextSegment>) -> Seq<(Seq<char>, bool)> {
    segments.map_values(|segment: TextSegment| segment@)
}

/// The range of whole characters that covers the bytes from `start` to `end`,
/// as far as the bytes go. It is empty where the given range is.
pub open spec fn safe_range(bytes: Seq<u8>, start: int, end: int) -> (int, int) {
    if start >= end || start >= bytes.len() {
        (0, 0)
    } else if end >= bytes.len() {
        (boundary::char_floor(bytes, start), bytes.len() as int)
    } else {
        (boundary::char_floor(bytes, start), boundary::char_ceil(bytes, end))
    }
}

/// What a range of the bytes of a text reads as.
pub open spec fn text_in(text: Seq<char>, range: (int, int)) -> Seq<char> {
    decode_utf8(encode_utf8(text).subrange(range.0, range.1))
}

/// The range of whole characters goes no further than it has to: from the last
/// character boundary at or before the start to the first at or behind the end,
/// as far as the bytes go. It is empty where the given range is.
pub proof fn lemma_safe_range(bytes: Seq<u8>, start: int, end: int)
    requires
        valid_utf8(bytes),
        0 <= start,
    ensures
        ({
            let range = safe_range(bytes, start, end);
            &&& 0 <= range.0 <= range.1 <= bytes.len()
            &&& is_char_boundary(bytes, range.0)
            &&& is_char_boundary(bytes, range.1)
            &&& valid_utf8(bytes.subrange(range.0, range.1))
            &&& start < end && start < bytes.len() ==> range.0 <= start < range.1
            &&& start < end && start < bytes.len() ==> {
                let stop = if end <= bytes.len() {
                    end
                } else {
                    bytes.len() as int
                };
                &&& stop <= range.1
                &&& forall|j: int| range.0 < j <= start ==> !#[trigger] is_char_boundary(bytes, j)
                &&& forall|j: int| stop <= j < range.1 ==> !#[trigger] is_char_boundary(bytes, j)
            }
            &&& start >= end || start >= bytes.len() ==> range == (0int, 0int)
        }),
{
    let range = safe_range(bytes, start, end);
    is_char_boundary_start_end_of_seq(bytes);
    if start < end && start < bytes.len() {
        boundary::lemma_char_floor(bytes, start);
        boundary::lemma_char_floor_boundary(bytes, start);
        if end < bytes.len() {
            boundary::lemma_char_ceil(bytes, end);
            boundary::lemma_char_ceil_boundary(bytes, end);
        }
        assert forall|j: int| range.0 < j <= start implies !#[trigger] is_char_boundary(
            bytes,
            j,
        ) by {
            is_char_boundary_iff_not_is_continuation_byte(bytes, j);
        }
        assert forall|j: int| end <= j < range.1 implies !#[trigger] is_char_boundary(bytes, j) by {
            is_char_boundary_iff_not_is_continuation_byte(bytes, j);
        }
    }
    boundary::lemma_valid_between(bytes, range.0, range.1);
}

/// Cuts out the whole characters that cover the bytes from `start` to `end`, as
/// far as the text goes.
pub fn get_safe_slice(text: &str, start: usize, end: usize) -> (r: &str)
    ensures
        r@ == text_in(text@, safe_range(encode_utf8(text@), start as int, end as int)),
        r@ == decode_utf8(
            encode_utf8(text@).subrange(
                safe_range(encode_utf8(text@), start as int, end as int).0,
                safe_range(encode_utf8(text@), start as int, end as int).1,
            ),
        ),
{
    let len: usize = text.as_bytes().len();
    let ghost bytes = encode_utf8(text@);
    proof {
        encode_utf8_valid_utf8(text@);
        lemma_safe_range(bytes, start as int, end as int);
        is_char_boundary_start_end_of_seq(bytes);
    }
    if start >= end || start >= len {
        let (none, _) = text.split_at(0);
        proof {
            assert(bytes.subrange(0, 0) =~= none.spec_bytes());
            encode_utf8_decode_utf8(none@);
        }
        return none;
    }
    let capped: usize = if end < len {
        end
    } else {
        len
    };
    let mut actual_start: usize = start;
    while actual_start > 0 && !text.is_char_boundary(actual_start)
        invariant
            actual_start <= start < bytes.len(),
            bytes == encode_utf8(text@),
            valid_utf8(bytes),
            boundary::char_floor(bytes, actual_start as int) == boundary::char_floor(
                bytes,
                start as int,
            ),
        decreases actual_start,
    {
        proof {
            is_char_boundary_iff_not_is_continuation_byte(bytes, actual_start as int);
        }
        actual_start = actual_start - 1;
    }
    let mut actual_end: usize = capped;
    while actual_end < len && !text.is_char_boundary(actual_end)
        invariant
            capped <= actual_end <= len == bytes.len(),
            bytes == encode_utf8(text@),
            valid_utf8(bytes),
            boundary::char_ceil(bytes, actual_end as int) == boundary::char_ceil(
                bytes,
                capped as int,
            ),
        decreases len - actual_end,
    {
        proof {
            is_char_boundary_iff_not_is_continuation_byte(bytes, actual_end as int);
        }
        actual_end = actual_end + 1;
    }
    proof {
        if 0 < actual_start {
            is_char_boundary_iff_not_is_continuation_byte(bytes, actual_start as int);
        }
        if actual_end < len {
            is_char_boundary_iff_not_is_continuation_byte(bytes, actual_end as int);
        }
    }
    let (head, _) = text.split_at(actual_end);
    proof {
        let start_of_head = head.spec_bytes();
        encode_utf8_valid_utf8(head@);
        is_char_boundary_start_end_of_seq(start_of_head);
        if 0 < actual_start {
            is_char_boundary_iff_not_is_continuation_byte(start_of_head, actual_start as int);
        }
    }
    let (_, part) = head.split_at(actual_start);
    proof {
        assert(part.spec_bytes() =~= bytes.subrange(actual_start as int, actual_end as int));
        encode_utf8_decode_utf8(part@);
    }
    part
}

/// The part of the text between the two offsets, unless it is empty.
pub open spec fn segment_for(text: Seq<char>, start: int, end: int, highlighted: bool) -> Seq<(Seq<char>, bool)> {
    let part = text_in(text, safe_range(encode_utf8(text), start, end));
    if part.len() > 0 {
        seq![(part, highlighted)]
    } else {
        seq![]
    }
}

/// The smaller of the two numbers.
pub open spec fn min(a: int, b: int) -> int {
    if a <= b {
        a
    } else {
        b
    }
}

/// The parts of the text from the offset `printed` on.
pub open spec fn layout_from(text: Seq<char>, matches: Seq<(usize, usize)>, printed: int) -> Seq<(Seq<char>, bool)>
    decreases matches.len(),
{
    let len = encode_utf8(text).len() as int;
    if matches.len() == 0 {
        segment_for(text, printed, len, false)
    } else {
        let start = min(matches[0].0 as int, len);
        let end = min(matches[0].1 as int, len);
        segment_for(text, printed, start, false) + segment_for(text, start, end, true)
            + layout_from(text, matches.drop_first(), end)
    }
}

/// The parts that a text with these matches is laid out in.
pub open spec fn layout_of(text: Seq<char>, matches: Seq<(usize, usize)>) -> Seq<(Seq<char>, bool)> {
    if matches.len() == 0 {
        seq![(text, false)]
    } else {
        layout_from(text, matches, 0)
    }
}

fn push_segment(segments: &mut Vec<TextSegment>, text: &str, start: usize, end: usize, highlighted: bool)
    ensures
        segment_views(final(segments)@) == segment_views(old(segments)@) + segment_for(
            text@,
            start as int,
            end as int,
            highlighted,
        ),
{
    let part: &str = get_safe_slice(text, start, end);
    if !part.is_empty() {
        segments.push(TextSegment { text: part.to_owned(), highlighted });
    }
    assert(segment_views(segments@) =~= segment_views(old(segments)@) + segment_for(
        text@,
        start as int,
        end as int,
        highlighted,
    ));
}

/// Lays a text out in parts, with its matches highlighted.
pub fn create_layout(text: &str, matches: &[(usize, usize)]) -> (r: Vec<TextSegment>)
    ensures
        segment_views(r@) == layout_of(text@, matches@),
{
    let mut r: Vec<TextSegment> = Vec::new();
    if matches.len() == 0 {
        r.push(TextSegment { text: text.to_owned(), highlighted: false });
        assert(segment_views(r@) =~= layout_of(text@, matches@));
        return r;
    }
    let len: usize = text.as_bytes().len();
    let mut printed: usize = 0;
    assert(matches@.skip(0) =~= matches@);
    assert(segment_views(r@) + layout_from(text@, matches@, 0) =~= layout_from(text@, matches@, 0));
    for i in 0..matches.len()
        invariant
            len == encode_utf8(text@).len(),
            layout_from(text@, matches@, 0) == segment_views(r@) + layout_from(
                text@,
                matches@.skip(i as int),
                printed as int,
            ),
    {
        let ghost rest = matches@.skip(i as int);
        let ghost before = segment_views(r@);
        let start: usize = if matches[i].0 <= len {
            matches[i].0
        } else {
            len
        };
        let end: usize = if matches[i].1 <= len {
            matches[i].1
        } else {
            len
        };
        push_segment(&mut r, text, printed, start, false);
        push_segment(&mut r, text, start, end, true);
        proof {
            assert(rest.drop_first() =~= matches@.skip(i + 1));
            let gap = segment_for(text@, printed as int, start as int, false);
            let hit = segment_for(text@, start as int, end as int, true);
            let tail = layout_from(text@, matches@.skip(i + 1), end as int);
            assert(layout_from(text@, rest, printed as int) == gap + hit + tail);
            assert(before + (gap + hit + tail) =~= before + gap + hit + tail);
        }
        printed = end;
    }
    assert(matches@.skip(matches@.len() as int) =~= Seq::<(usize, usize)>::empty());
    push_segment(&mut r, text, printed, len, false);
    r
}

/// The slices that a text with these matches is laid out in, in order: before
/// each match what lies between it and the one before, then the match, and at
/// the end what lies behind the last match. All are cut off at the length, and
/// each comes with whether it is a match.
pub open spec fn asked_for(
    len: int,
    printed: int,
    matches: Seq<(usize, usize)>,
    q: int,
) -> (int, int, bool) {
    let i = q / 2;
    if q % 2 == 1 {
        (
            if matches[i].0 <= len {
                matches[i].0 as int
            } else {
                len
            },
            if matches[i].1 <= len {
                matches[i].1 as int
            } else {
                len
            },
            true,
        )
    } else {
        (
            if i == 0 {
                printed
            } else if matches[i - 1].1 <= len {
                matches[i - 1].1 as int
            } else {
                len
            },
            if i < matches.len() && matches[i].0 <= len {
                matches[i].0 as int
            } else {
                len
            },
            false,
        )
    }
}

/// The whole characters that cover a slice of a text.
pub open spec fn covering(text: Seq<char>, slice: (int, int, bool)) -> Seq<char> {
    let bytes = encode_utf8(text);
    decode_utf8(
        bytes.subrange(
            safe_range(bytes, slice.0, slice.1).0,
            safe_range(bytes, slice.0, slice.1).1,
        ),
    )
}

/// A text is laid out in the whole characters that cover the slices asked for, in
/// order and without those that are empty, whatever the matches are.
pub proof fn lemma_layout_parts(text: Seq<char>, matches: Seq<(usize, usize)>, printed: int) -> (from:
    Seq<int>)
    ensures
        ({
            let parts = layout_from(text, matches, printed);
            let len = encode_utf8(text).len() as int;
            &&& from.len() == parts.len()
            &&& forall|k: int|
                0 <= k < from.len() ==> {
                    let slice = asked_for(len, printed, matches, #[trigger] from[k]);
                    &&& 0 <= from[k] <= 2 * matches.len()
                    &&& parts[k] == (covering(text, slice), slice.2)
                    &&& parts[k].0.len() > 0
                }
            &&& forall|k: int, l: int|
                0 <= k < l < from.len() ==> #[trigger] from[k] < #[trigger] from[l]
            &&& forall|q: int|
                0 <= q <= 2 * matches.len() && covering(
                    text,
                    #[trigger] asked_for(len, printed, matches, q),
                ).len() > 0 ==> from.contains(q)
        }),
    decreases matches.len(),
{
    let parts = layout_from(text, matches, printed);
    let len = encode_utf8(text).len() as int;
    let first = asked_for(len, printed, matches, 0);
    let lone = covering(text, first).len() > 0;
    if matches.len() == 0 {
        assert(first == (printed, len, false));
        if lone {
            let from = seq![0int];
            assert(from[0] == 0);
            from
        } else {
            seq![]
        }
    } else {
        let rest = matches.drop_first();
        let second = asked_for(len, printed, matches, 1);
        let hit = covering(text, second).len() > 0;
        let end = second.1;
        let after = lemma_layout_parts(text, rest, end);
        let start = if lone {
            seq![0int]
        } else {
            seq![]
        } + if hit {
            seq![1int]
        } else {
            seq![]
        };
        let from = start + after.map_values(|q: int| q + 2);
        let gap = segment_for(text, printed, first.1, false);
        let mark = segment_for(text, second.0, second.1, true);
        let tail = layout_from(text, rest, end);
        assert(parts == gap + mark + tail);
        assert(gap.len() + mark.len() == start.len());
        assert forall|q: int| 0 <= q <= 2 * rest.len() implies #[trigger] asked_for(
            len,
            end,
            rest,
            q,
        ) == asked_for(len, printed, matches, q + 2) by {
            let i = q / 2;
            assert((q + 2) / 2 == i + 1);
            assert((q + 2) % 2 == q % 2);
            assert(i < rest.len() ==> rest[i] == matches[i + 1]);
            assert(i > 0 ==> rest[i - 1] == matches[i]);
        }
        assert forall|k: int| 0 <= k < from.len() implies {
            let slice = asked_for(len, printed, matches, #[trigger] from[k]);
            &&& 0 <= from[k] <= 2 * matches.len()
            &&& parts[k] == (covering(text, slice), slice.2)
            &&& parts[k].0.len() > 0
        } by {
            if k >= start.len() {
                let j = k - start.len();
                assert(from[k] == after[j] + 2);
                assert(parts[k] == tail[j]);
                assert(asked_for(len, end, rest, after[j]) == asked_for(
                    len,
                    printed,
                    matches,
                    after[j] + 2,
                ));
            }
        }
        assert forall|k: int, l: int| 0 <= k < l < from.len() implies #[trigger] from[k]
            < #[trigger] from[l] by {
            if l >= start.len() {
                assert(from[l] == after[l - start.len()] + 2);
                if k >= start.len() {
                    assert(from[k] == after[k - start.len()] + 2);
                }
            }
        }
        assert forall|q: int|
            0 <= q <= 2 * matches.len() && covering(
                text,
                #[trigger] asked_for(len, printed, matches, q),
            ).len() > 0 implies from.contains(q) by {
            if q == 0 {
                assert(from[0] == 0);
            } else if q == 1 {
                assert(from[start.len() - 1] == 1);
            } else {
                assert(asked_for(len, end, rest, q - 2) == asked_for(len, printed, matches, q));
                assert(after.contains(q - 2));
                let j = choose|j: int| 0 <= j < after.len() && after[j] == q - 2;
                assert(from[start.len() + j] == q);
            }
        }
        from
    }
}

/// A text with matches, whatever these are, is laid out from its start.
pub proof fn lemma_layout_any(text: Seq<char>, matches: Seq<(usize, usize)>) -> (from: Seq<int>)
    requires
        matches.len() > 0,
    ensures
        ({
            let parts = layout_of(text, matches);
            let len = encode_utf8(text).len() as int;
            &&& from.len() == parts.len()
            &&& forall|k: int|
                0 <= k < from.len() ==> {
                    let slice = asked_for(len, 0, matches, #[trigger] from[k]);
                    &&& 0 <= from[k] <= 2 * matches.len()
                    &&& parts[k] == (covering(text, slice), slice.2)
                    &&& parts[k].0.len() > 0
                }
            &&& forall|k: int, l: int|
                0 <= k < l < from.len() ==> #[trigger] from[k] < #[trigger] from[l]
            &&& forall|q: int|
                0 <= q <= 2 * matches.len() && covering(
                    text,
                    #[trigger] asked_for(len, 0, matches, q),
                ).len() > 0 ==> from.contains(q)
        }),
{
    lemma_layout_parts(text, matches, 0)
}

/// A part is its text and whether it is highlighted.
pub proof fn lemma_segment_views(segments: Seq<TextSegment>)
    ensures
        segment_views(segments).len() == segments.len(),
        forall|i: int|
            0 <= i < segments.len() ==> #[trigger] segment_views(segments)[i] == (
                segments[i].text@,
                segments[i].highlighted,
            ),
{
}

/// The texts of the parts one after another.
pub open spec fn whole_text(segments: Seq<(Seq<char>, bool)>) -> Seq<char>
    decreases segments.len(),
{
    if segments.len() == 0 {
        seq![]
    } else {
        segments[0].0 + whole_text(segments.drop_first())
    }
}

/// The texts of the highlighted parts, in order.
pub open spec fn highlighted_texts(segments: Seq<(Seq<char>, bool)>) -> Seq<Seq<char>>
    decreases segments.len(),
{
    if segments.len() == 0 {
        seq![]
    } else if segments[0].1 {
        seq![segments[0].0] + highlighted_texts(segments.drop_first())
    } else {
        highlighted_texts(segments.drop_first())
    }
}

proof fn lemma_concat(a: Seq<(Seq<char>, bool)>, b: Seq<(Seq<char>, bool)>)
    ensures
        whole_text(a + b) == whole_text(a) + whole_text(b),
        highlighted_texts(a + b) == highlighted_texts(a) + highlighted_texts(b),
    decreases a.len(),
{
    if a.len() == 0 {
        assert(a + b =~= b);
        assert(whole_text(a) + whole_text(b) =~= whole_text(b));
        assert(highlighted_texts(a) + highlighted_texts(b) =~= highlighted_texts(b));
    } else {
        assert((a + b).drop_first() =~= a.drop_first() + b);
        lemma_concat(a.drop_first(), b);
        assert(whole_text(a + b) =~= whole_text(a) + whole_text(b));
        assert(highlighted_texts(a + b) =~= highlighted_texts(a) + highlighted_texts(b));
    }
}

/// Between two character boundaries the part is exactly what stands there.
proof fn lemma_segment(text: Seq<char>, start: int, end: int, highlighted: bool)
    requires
        0 <= start <= end <= encode_utf8(text).len(),
        is_char_boundary(encode_utf8(text), start),
        is_char_boundary(encode_utf8(text), end),
    ensures
        whole_text(segment_for(text, start, end, highlighted)) == text_in(text, (start, end)),
        start < end ==> text_in(text, (start, end)).len() > 0,
        highlighted_texts(segment_for(text, start, end, highlighted)) == if highlighted && start < end {
            seq![text_in(text, (start, end))]
        } else {
            seq![]
        },
{
    let bytes = encode_utf8(text);
    encode_utf8_valid_utf8(text);
    boundary::lemma_char_floor_boundary(bytes, start);
    boundary::lemma_char_ceil_boundary(bytes, end);
    boundary::lemma_valid_between(bytes, start, end);
    let none: Seq<(Seq<char>, bool)> = seq![];
    let part = text_in(text, (start, end));
    if start < end {
        assert(safe_range(bytes, start, end) == (start, end));
        assert(part.len() > 0);
        let one = seq![(part, highlighted)];
        assert(segment_for(text, start, end, highlighted) == one);
        assert(one.drop_first() =~= none);
        assert(whole_text(none) == Seq::<char>::empty());
        assert(whole_text(one) =~= part);
        assert(highlighted_texts(none) == Seq::<Seq<char>>::empty());
        if highlighted {
            assert(highlighted_texts(one) =~= seq![part]);
        } else {
            assert(highlighted_texts(one) == highlighted_texts(none));
        }
    } else {
        assert(bytes.subrange(start, end) =~= Seq::<u8>::empty());
        assert(bytes.subrange(0, 0) =~= Seq::<u8>::empty());
        assert(text_in(text, (0, 0)) =~= Seq::<char>::empty());
        assert(segment_for(text, start, end, highlighted) == none);
        assert(whole_text(none) =~= part);
    }
}

/// What stands from one character boundary to a later one is what stands up to
/// one between them and what stands from there on.
proof fn lemma_text_split(text: Seq<char>, start: int, mid: int, end: int)
    requires
        0 <= start <= mid <= end <= encode_utf8(text).len(),
        is_char_boundary(encode_utf8(text), start),
        is_char_boundary(encode_utf8(text), mid),
        is_char_boundary(encode_utf8(text), end),
    ensures
        text_in(text, (start, end)) == text_in(text, (start, mid)) + text_in(text, (mid, end)),
{
    encode_utf8_valid_utf8(text);
    boundary::lemma_decode_split(encode_utf8(text), start, mid, end);
}

proof fn lemma_layout_from(text: Seq<char>, matches: Seq<(usize, usize)>, printed: int)
    requires
        search::are_disjoint_ranges(matches, encode_utf8(text).len() as int),
        boundary::at_boundaries(encode_utf8(text), matches),
        0 <= printed <= encode_utf8(text).len(),
        is_char_boundary(encode_utf8(text), printed),
        matches.len() > 0 ==> printed <= matches[0].0,
    ensures
        whole_text(layout_from(text, matches, printed)) == text_in(
            text,
            (printed, encode_utf8(text).len() as int),
        ),
        highlighted_texts(layout_from(text, matches, printed)) == matches.map_values(
            |m: (usize, usize)| text_in(text, (m.0 as int, m.1 as int)),
        ),
    decreases matches.len(),
{
    let bytes = encode_utf8(text);
    let len = bytes.len() as int;
    encode_utf8_valid_utf8(text);
    is_char_boundary_start_end_of_seq(bytes);
    let texts = matches.map_values(|m: (usize, usize)| text_in(text, (m.0 as int, m.1 as int)));
    if matches.len() == 0 {
        lemma_segment(text, printed, len, false);
        assert(texts =~= seq![]);
    } else {
        let start = matches[0].0 as int;
        let end = matches[0].1 as int;
        let rest = matches.drop_first();
        assert forall|i: int| 0 <= i < rest.len() implies is_char_boundary(
            bytes,
            (#[trigger] rest[i]).0 as int,
        ) && is_char_boundary(bytes, rest[i].1 as int) by {
            assert(rest[i] == matches[i + 1]);
        }
        assert(search::are_disjoint_ranges(rest, len)) by {
            assert forall|i: int| 0 <= i < rest.len() implies (#[trigger] rest[i]).0 < rest[i].1
                <= len by {
                assert(rest[i] == matches[i + 1]);
            }
            assert forall|i: int, j: int| 0 <= i < j < rest.len() implies (#[trigger] rest[i]).1
                <= (#[trigger] rest[j]).0 by {
                assert(rest[i] == matches[i + 1]);
                assert(rest[j] == matches[j + 1]);
            }
        }
        if rest.len() > 0 {
            assert(rest[0] == matches[1]);
        }
        let gap = segment_for(text, printed, start, false);
        let hit = segment_for(text, start, end, true);
        let tail = layout_from(text, rest, end);
        lemma_segment(text, printed, start, false);
        lemma_segment(text, start, end, true);
        lemma_layout_from(text, rest, end);
        lemma_concat(gap, hit);
        lemma_concat(gap + hit, tail);
        lemma_text_split(text, printed, start, len);
        lemma_text_split(text, start, end, len);
        assert(whole_text(layout_from(text, matches, printed)) =~= text_in(text, (printed, len)));
        assert(texts =~= seq![text_in(text, (start, end))] + rest.map_values(
            |m: (usize, usize)| text_in(text, (m.0 as int, m.1 as int)),
        ));
        assert(highlighted_texts(layout_from(text, matches, printed)) =~= texts);
    }
}

/// The ranges select whole characters of the text and follow one another
/// without overlap.
pub open spec fn fits_text(text: Seq<char>, ranges: Seq<(usize, usize)>) -> bool {
    &&& search::are_disjoint_ranges(ranges, encode_utf8(text).len() as int)
    &&& boundary::at_boundaries(encode_utf8(text), ranges)
}

/// Ranges of a text that select texts and follow one another without overlap
/// select whole characters.
pub proof fn lemma_texts_fit(text: Seq<char>, ranges: Seq<(usize, usize)>)
    requires
        search::are_disjoint_ranges(ranges, encode_utf8(text).len() as int),
        boundary::are_texts(encode_utf8(text), ranges),
    ensures
        fits_text(text, ranges),
{
    let bytes = encode_utf8(text);
    encode_utf8_valid_utf8(text);
    assert forall|i: int| 0 <= i < ranges.len() implies is_char_boundary(
        bytes,
        (#[trigger] ranges[i]).0 as int,
    ) && is_char_boundary(bytes, ranges[i].1 as int) by {
        boundary::lemma_valid_within(bytes, ranges[i].0 as int, ranges[i].1 as int);
    }
}

/// Laying a text out loses and adds nothing, and highlights exactly its
/// matches, where these follow one another without overlap and start and end
/// at character boundaries.
pub proof fn lemma_layout(text: Seq<char>, matches: Seq<(usize, usize)>)
    requires
        forall|i: int|
            0 <= i < matches.len() ==> {
                &&& (#[trigger] matches[i]).0 < matches[i].1 <= encode_utf8(text).len()
                &&& is_char_boundary(encode_utf8(text), matches[i].0 as int)
                &&& is_char_boundary(encode_utf8(text), matches[i].1 as int)
            },
        forall|i: int, j: int|
            0 <= i < j < matches.len() ==> (#[trigger] matches[i]).1 <= (#[trigger] matches[j]).0,
    ensures
        matches.len() == 0 ==> layout_of(text, matches) == seq![(text, false)],
        whole_text(layout_of(text, matches)) == text,
        highlighted_texts(layout_of(text, matches)) == matches.map_values(
            |m: (usize, usize)|
                decode_utf8(encode_utf8(text).subrange(m.0 as int, m.1 as int)),
        ),
{
    let bytes = encode_utf8(text);
    assert(highlighted_texts(layout_of(text, matches)) == matches.map_values(
        |m: (usize, usize)| text_in(text, (m.0 as int, m.1 as int)),
    ) ==> highlighted_texts(layout_of(text, matches)) =~= matches.map_values(
        |m: (usize, usize)| decode_utf8(encode_utf8(text).subrange(m.0 as int, m.1 as int)),
    ));
    encode_utf8_valid_utf8(text);
    is_char_boundary_start_end_of_seq(bytes);
    if matches.len() == 0 {
        let all = layout_of(text, matches);
        let none: Seq<(Seq<char>, bool)> = seq![];
        assert(all.drop_first() =~= none);
        assert(whole_text(none) =~= seq![]);
        assert(whole_text(all) =~= text);
        assert(highlighted_texts(none) =~= seq![]);
        assert(highlighted_texts(all) =~= matches.map_values(
            |m: (usize, usize)| text_in(text, (m.0 as int, m.1 as int)),
        ));
    } else {
        lemma_layout_from(text, matches, 0);
        assert(bytes.subrange(0, bytes.len() as int) =~= bytes);
        encode_utf8_decode_utf8(text);
    }
}

} // verus!
