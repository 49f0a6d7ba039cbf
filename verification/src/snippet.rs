//! What is shown of a line: the whole of a short line, a window around the
//! first match of a long one.

use vstd::prelude::*;
use vstd::string::*;
use vstd::utf8::*;

use crate::boundary;
use crate::layout;
use crate::outside;
use crate::search;

verus! {

/// The number of bytes up to which a line is shown in full.
pub const MAX_LINE_LENGTH: usize = 128;

/// The number of bytes that are shown before the first match.
pub const LEADING_LENGTH: usize = 64;

/// What stands in a shown line for what was cut off.
pub const ELLIPSIS: &'static str = "...";

/// The number of bytes in the ellipsis.
pub const ELLIPSIS_LENGTH: usize = 3;

/// The range of bytes that is shown of a long line whose first match starts at
/// `first`: as many bytes as a short line may have, with the match in the
/// middle where the line allows it, and both ends moved back to where no
/// continuation byte stands.
pub open spec fn window(bytes: Seq<u8>, first: int) -> (int, int) {
    let centered: int = if first >= LEADING_LENGTH {
        first - LEADING_LENGTH
    } else {
        0
    };
    let end: int = if centered + MAX_LINE_LENGTH <= bytes.len() {
        centered + MAX_LINE_LENGTH
    } else {
        bytes.len() as int
    };
    let start: int = if end >= MAX_LINE_LENGTH {
        end - MAX_LINE_LENGTH
    } else {
        0
    };
    (boundary::char_floor(bytes, start), boundary::char_floor(bytes, end))
}

/// The match lies within the window.
pub open spec fn fits(range: (usize, usize), window: (int, int)) -> bool {
    window.0 <= range.0 && range.1 <= window.1
}

/// The matches that lie within the window, in order.
pub open spec fn fitting(matches: Seq<(usize, usize)>, window: (int, int)) -> Seq<(usize, usize)>
    decreases matches.len(),
{
    if matches.len() == 0 {
        seq![]
    } else if fits(matches.last(), window) {
        fitting(matches.drop_last(), window).push(matches.last())
    } else {
        fitting(matches.drop_last(), window)
    }
}

/// Where the last of the ranges ends, or the start where there is none.
pub open spec fn end_of(start: int, ranges: Seq<(usize, usize)>) -> int {
    if ranges.len() == 0 {
        start
    } else {
        ranges.last().1 as int
    }
}

/// What the bytes from the start to the end of the last range read as. Those of
/// each range and those between two ranges are read by themselves.
pub open spec fn text_through(bytes: Seq<u8>, start: int, ranges: Seq<(usize, usize)>) -> Seq<char>
    decreases ranges.len(),
{
    if ranges.len() == 0 {
        seq![]
    } else {
        text_through(bytes, start, ranges.drop_last()) + outside::read_lossily(
            bytes.subrange(end_of(start, ranges.drop_last()), ranges.last().0 as int),
        ) + outside::read_lossily(
            bytes.subrange(ranges.last().0 as int, ranges.last().1 as int),
        )
    }
}

/// What the bytes from the start to the start of the last range read as.
pub open spec fn text_before(bytes: Seq<u8>, start: int, ranges: Seq<(usize, usize)>) -> Seq<char> {
    text_through(bytes, start, ranges.drop_last()) + outside::read_lossily(
        bytes.subrange(end_of(start, ranges.drop_last()), ranges.last().0 as int),
    )
}

/// Where the ranges stand in a text that goes on, after `lead` bytes, with what
/// the bytes from the start on read as: each behind all that is read before it.
pub open spec fn placed(
    bytes: Seq<u8>,
    start: int,
    ranges: Seq<(usize, usize)>,
    lead: int,
) -> Seq<(usize, usize)>
    decreases ranges.len(),
{
    if ranges.len() == 0 {
        seq![]
    } else {
        placed(bytes, start, ranges.drop_last(), lead).push(
            (
                (lead + encode_utf8(text_before(bytes, start, ranges)).len()) as usize,
                (lead + encode_utf8(text_through(bytes, start, ranges)).len()) as usize,
            ),
        )
    }
}

/// The text with an ellipsis on each side on which something was cut off.
pub open spec fn framed(leading: bool, body: Seq<char>, trailing: bool) -> Seq<char> {
    let left = if leading {
        ELLIPSIS@
    } else {
        seq![]
    };
    let right = if trailing {
        ELLIPSIS@
    } else {
        seq![]
    };
    left + body + right
}

/// The range of bytes that is shown of a line with these matches.
pub open spec fn shown_range(bytes: Seq<u8>, matches: Seq<(usize, usize)>) -> (int, int) {
    if bytes.len() <= MAX_LINE_LENGTH {
        (0, bytes.len() as int)
    } else if matches.len() > 0 {
        window(bytes, matches[0].0 as int)
    } else {
        (0, boundary::char_floor(bytes, MAX_LINE_LENGTH as int))
    }
}

/// The matches that are shown of a line, as they stand in the line.
pub open spec fn shown_of(bytes: Seq<u8>, matches: Seq<(usize, usize)>) -> Seq<(usize, usize)> {
    fitting(matches, shown_range(bytes, matches))
}

/// What the shown range of a line reads as. The matches that are shown and what
/// stands between them are read by themselves.
pub open spec fn shown_body(bytes: Seq<u8>, matches: Seq<(usize, usize)>) -> Seq<char> {
    let range = shown_range(bytes, matches);
    let shown = shown_of(bytes, matches);
    text_through(bytes, range.0, shown) + outside::read_lossily(
        bytes.subrange(end_of(range.0, shown), range.1),
    )
}

/// The text that is shown of a line with these matches.
pub open spec fn shown_text(bytes: Seq<u8>, matches: Seq<(usize, usize)>) -> Seq<char> {
    let range = shown_range(bytes, matches);
    framed(range.0 > 0, shown_body(bytes, matches), range.1 < bytes.len())
}

/// The number of bytes that stand in the text shown before what is shown of the
/// line.
pub open spec fn lead_of(range: (int, int)) -> int {
    if range.0 > 0 {
        ELLIPSIS_LENGTH as int
    } else {
        0
    }
}

/// Where the matches that are shown of a line stand in the text shown.
pub open spec fn shown_matches(bytes: Seq<u8>, matches: Seq<(usize, usize)>) -> Seq<(usize, usize)> {
    let range = shown_range(bytes, matches);
    placed(bytes, range.0, shown_of(bytes, matches), lead_of(range))
}

proof fn lemma_window_bounds(bytes: Seq<u8>, first: int)
    requires
        0 <= first,
    ensures
        0 <= window(bytes, first).0 <= window(bytes, first).1 <= bytes.len(),
        bytes.len() > MAX_LINE_LENGTH ==> window(bytes, first).0 < bytes.len(),
{
    let centered: int = if first >= LEADING_LENGTH {
        first - LEADING_LENGTH
    } else {
        0
    };
    let end: int = if centered + MAX_LINE_LENGTH <= bytes.len() {
        centered + MAX_LINE_LENGTH
    } else {
        bytes.len() as int
    };
    let start: int = if end >= MAX_LINE_LENGTH {
        end - MAX_LINE_LENGTH
    } else {
        0
    };
    boundary::lemma_char_floor(bytes, start);
    boundary::lemma_char_floor(bytes, end);
    boundary::lemma_char_floor_monotone(bytes, start, end);
}

/// Finds the range of bytes that is shown of a long line whose first match
/// starts at `first`.
pub fn display_window(bytes: &[u8], first: usize) -> (r: (usize, usize))
    requires
        first <= bytes@.len(),
    ensures
        r.0 == window(bytes@, first as int).0,
        r.1 == window(bytes@, first as int).1,
        r.0 <= r.1 <= bytes@.len(),
{
    let centered: usize = first.saturating_sub(LEADING_LENGTH);
    let end: usize = if bytes.len() - centered >= MAX_LINE_LENGTH {
        centered + MAX_LINE_LENGTH
    } else {
        bytes.len()
    };
    let start: usize = end.saturating_sub(MAX_LINE_LENGTH);
    proof {
        lemma_window_bounds(bytes@, first as int);
    }
    (boundary::find_char_floor(bytes, start), boundary::find_char_floor(bytes, end))
}

/// The range of the text that is shown selects the bytes of the match.
pub open spec fn shows_match(
    text: Seq<char>,
    shown: (usize, usize),
    bytes: Seq<u8>,
    range: (usize, usize),
) -> bool {
    &&& shown.0 <= shown.1 <= encode_utf8(text).len()
    &&& encode_utf8(text).subrange(shown.0 as int, shown.1 as int) == bytes.subrange(
        range.0 as int,
        range.1 as int,
    )
}

proof fn lemma_ellipsis()
    ensures
        encode_utf8(ELLIPSIS@).len() == ELLIPSIS_LENGTH,
{
    reveal_strlit("...");
    assert(is_ascii_chars(ELLIPSIS@));
    is_ascii_chars_encode_utf8(ELLIPSIS@);
}

/// Each range that is shown selects, in the text that is shown, the bytes of the
/// match that it stands for.
pub open spec fn shows_matches(
    text: Seq<char>,
    shown: Seq<(usize, usize)>,
    bytes: Seq<u8>,
    matches: Seq<(usize, usize)>,
) -> bool {
    &&& shown.len() == matches.len()
    &&& forall|k: int|
        0 <= k < shown.len() ==> shows_match(
            text,
            #[trigger] shown[k],
            bytes,
            #[trigger] matches[k],
        )
}

/// The text and the ranges show a line with these matches as it is. The ranges
/// select whole characters of the text without overlap, each the bytes of the
/// match that it stands for. Where the line is UTF-8, the text is what it
/// encodes, cut to the range that is shown, and no longer than a short line, the
/// three bytes by which its start may move back to a character boundary and the
/// two ellipses.
pub open spec fn is_faithful(
    text: Seq<char>,
    shown: Seq<(usize, usize)>,
    bytes: Seq<u8>,
    matches: Seq<(usize, usize)>,
) -> bool {
    let range = shown_range(bytes, matches);
    &&& layout::fits_text(text, shown)
    &&& shows_matches(text, shown, bytes, shown_of(bytes, matches))
    &&& valid_utf8(bytes) ==> {
        &&& text == framed(
            range.0 > 0,
            decode_utf8(bytes.subrange(range.0, range.1)),
            range.1 < bytes.len(),
        )
        &&& encode_utf8(text).len() <= MAX_LINE_LENGTH + 3 + 2 * ELLIPSIS_LENGTH
    }
}

/// In valid UTF-8 the range that is shown starts and ends at character
/// boundaries.
pub proof fn lemma_shown_range_boundaries(bytes: Seq<u8>, matches: Seq<(usize, usize)>)
    requires
        valid_utf8(bytes),
    ensures
        ({
            let range = shown_range(bytes, matches);
            &&& 0 <= range.0 <= range.1 <= bytes.len()
            &&& is_char_boundary(bytes, range.0)
            &&& is_char_boundary(bytes, range.1)
            &&& valid_utf8(bytes.subrange(range.0, range.1))
        }),
{
    let range = shown_range(bytes, matches);
    is_char_boundary_start_end_of_seq(bytes);
    if bytes.len() > MAX_LINE_LENGTH {
        if matches.len() > 0 {
            let first = matches[0].0 as int;
            lemma_window_bounds(bytes, first);
            let centered: int = if first >= LEADING_LENGTH {
                first - LEADING_LENGTH
            } else {
                0
            };
            let end: int = if centered + MAX_LINE_LENGTH <= bytes.len() {
                centered + MAX_LINE_LENGTH
            } else {
                bytes.len() as int
            };
            boundary::lemma_char_floor_boundary(bytes, end - MAX_LINE_LENGTH);
            boundary::lemma_char_floor_boundary(bytes, end);
        } else {
            boundary::lemma_char_floor(bytes, MAX_LINE_LENGTH as int);
            boundary::lemma_char_floor_boundary(bytes, MAX_LINE_LENGTH as int);
        }
    }
    boundary::lemma_valid_between(bytes, range.0, range.1);
}


/// What lies within the window are matches, in order, and all that fit.
pub proof fn lemma_fitting(matches: Seq<(usize, usize)>, window: (int, int), len: int)
    requires
        search::are_disjoint_ranges(matches, len),
    ensures
        ({
            let shown = fitting(matches, window);
            &&& search::are_disjoint_ranges(shown, len)
            &&& forall|k: int|
                0 <= k < shown.len() ==> fits(#[trigger] shown[k], window) && matches.contains(
                    shown[k],
                )
            &&& forall|i: int|
                0 <= i < matches.len() && fits(#[trigger] matches[i], window) ==> shown.contains(
                    matches[i],
                )
            &&& matches.len() > 0 && fits(matches[0], window) ==> shown.len() > 0 && shown[0]
                == matches[0]
        }),
    decreases matches.len(),
{
    if matches.len() > 0 {
        let rest = matches.drop_last();
        let last = matches.last();
        let shown = fitting(matches, window);
        let before = fitting(rest, window);
        assert(search::are_disjoint_ranges(rest, len)) by {
            assert forall|i: int| 0 <= i < rest.len() implies (#[trigger] rest[i]).0 < rest[i].1
                <= len by {
                assert(rest[i] == matches[i]);
            }
            assert forall|i: int, j: int| 0 <= i < j < rest.len() implies (#[trigger] rest[i]).1
                <= (#[trigger] rest[j]).0 by {
                assert(rest[i] == matches[i]);
                assert(rest[j] == matches[j]);
            }
        }
        lemma_fitting(rest, window, len);
        assert(matches[matches.len() - 1] == last);
        assert forall|k: int| 0 <= k < before.len() implies matches.contains(#[trigger] before[k])
            && before[k].1 <= last.0 by {
            assert(rest.contains(before[k]));
            let i = choose|i: int| 0 <= i < rest.len() && rest[i] == before[k];
            assert(matches[i] == before[k]);
        }
        assert forall|k: int| 0 <= k < shown.len() implies fits(#[trigger] shown[k], window)
            && matches.contains(shown[k]) && shown[k].0 < shown[k].1 <= len by {
            if k < before.len() {
                assert(shown[k] == before[k]);
            }
        }
        assert forall|k: int, l: int| 0 <= k < l < shown.len() implies (#[trigger] shown[k]).1
            <= (#[trigger] shown[l]).0 by {
            assert(shown[k] == before[k]);
            if l < before.len() {
                assert(shown[l] == before[l]);
            }
        }
        assert forall|i: int| 0 <= i < matches.len() && fits(#[trigger] matches[i], window) implies shown.contains(
            matches[i],
        ) by {
            if i < rest.len() {
                assert(rest[i] == matches[i]);
                let k = choose|k: int| 0 <= k < before.len() && before[k] == rest[i];
                assert(shown[k] == before[k]);
            } else {
                assert(shown[shown.len() - 1] == matches[i]);
            }
        }
        if rest.len() > 0 {
            assert(rest[0] == matches[0]);
        }
    }
}

/// The matches within the window are found by going through all matches in
/// order: each that starts and ends within it is taken, and no other.
pub proof fn lemma_fitting_indices(matches: Seq<(usize, usize)>, window: (int, int)) -> (from: Seq<int>)
    ensures
        from.len() == fitting(matches, window).len(),
        forall|k: int|
            0 <= k < from.len() ==> {
                &&& 0 <= #[trigger] from[k] < matches.len()
                &&& fitting(matches, window)[k] == matches[from[k]]
                &&& window.0 <= matches[from[k]].0 && matches[from[k]].1 <= window.1
            },
        forall|k: int, l: int| 0 <= k < l < from.len() ==> #[trigger] from[k] < #[trigger] from[l],
        forall|i: int|
            0 <= i < matches.len() && window.0 <= (#[trigger] matches[i]).0 && matches[i].1
                <= window.1 ==> from.contains(i),
    decreases matches.len(),
{
    if matches.len() == 0 {
        seq![]
    } else {
        let rest = matches.drop_last();
        let last = matches.len() - 1;
        let before = lemma_fitting_indices(rest, window);
        let kept = fits(matches.last(), window);
        let from = if kept {
            before.push(last)
        } else {
            before
        };
        assert forall|k: int| 0 <= k < from.len() implies {
            &&& 0 <= #[trigger] from[k] < matches.len()
            &&& fitting(matches, window)[k] == matches[from[k]]
            &&& window.0 <= matches[from[k]].0 && matches[from[k]].1 <= window.1
        } by {
            if k < before.len() {
                assert(from[k] == before[k]);
                assert(rest[before[k]] == matches[before[k]]);
            }
        }
        assert forall|k: int, l: int| 0 <= k < l < from.len() implies #[trigger] from[k]
            < #[trigger] from[l] by {
            assert(from[k] == before[k]);
            if l < before.len() {
                assert(from[l] == before[l]);
            }
        }
        assert forall|i: int|
            0 <= i < matches.len() && window.0 <= (#[trigger] matches[i]).0 && matches[i].1
                <= window.1 implies from.contains(i) by {
            if i < last {
                assert(rest[i] == matches[i]);
                let k = choose|k: int| 0 <= k < before.len() && before[k] == i;
                assert(from[k] == i);
            } else {
                assert(from[before.len() as int] == last);
            }
        }
        from
    }
}

/// How a text that goes on, after what stands on its left, with what the bytes
/// read as is made up: the bytes before the first range, those of the ranges and
/// those between them, each read by themselves, one after another.
proof fn lemma_pieces(
    bytes: Seq<u8>,
    start: int,
    ranges: Seq<(usize, usize)>,
    left: Seq<char>,
    right: Seq<char>,
)
    requires
        encode_utf8(left + text_through(bytes, start, ranges) + right).len() <= usize::MAX,
    ensures
        ({
            let encoded = encode_utf8(left + text_through(bytes, start, ranges) + right);
            let lead = encode_utf8(left).len() as int;
            let shown = placed(bytes, start, ranges, lead);
            &&& shown.len() == ranges.len()
            &&& encoded.subrange(0, lead) == encode_utf8(left)
            &&& lead + encode_utf8(text_through(bytes, start, ranges)).len() <= encoded.len()
            &&& shown.len() == 0 ==> lead + encode_utf8(text_through(bytes, start, ranges)).len()
                == lead
            &&& shown.len() > 0 ==> shown.last().1 == lead + encode_utf8(
                text_through(bytes, start, ranges),
            ).len()
            &&& encoded.subrange(
                lead + encode_utf8(text_through(bytes, start, ranges)).len(),
                encoded.len() as int,
            ) == encode_utf8(right)
            &&& forall|k: int|
                0 <= k < shown.len() ==> {
                    &&& lead <= (#[trigger] shown[k]).0 <= shown[k].1 <= lead + encode_utf8(
                        text_through(bytes, start, ranges),
                    ).len()
                    &&& encoded.subrange(shown[k].0 as int, shown[k].1 as int) == encode_utf8(
                        outside::read_lossily(
                            bytes.subrange(ranges[k].0 as int, ranges[k].1 as int),
                        ),
                    )
                }
            &&& shown.len() > 0 ==> encoded.subrange(lead, shown[0].0 as int) == encode_utf8(
                outside::read_lossily(bytes.subrange(start, ranges[0].0 as int)),
            )
            &&& forall|k: int, l: int|
                0 <= k && l == k + 1 && l < shown.len() ==> {
                    &&& (#[trigger] shown[k]).1 <= (#[trigger] shown[l]).0
                    &&& encoded.subrange(shown[k].1 as int, shown[l].0 as int) == encode_utf8(
                        outside::read_lossily(
                            bytes.subrange(ranges[k].1 as int, ranges[l].0 as int),
                        ),
                    )
                }
        }),
    decreases ranges.len(),
{
    let through = text_through(bytes, start, ranges);
    let encoded = encode_utf8(left + through + right);
    let lead = encode_utf8(left).len() as int;
    let shown = placed(bytes, start, ranges, lead);
    boundary::lemma_encode_concat(left, through);
    boundary::lemma_encode_concat(left + through, right);
    let middle = encode_utf8(through);
    assert(encoded == encode_utf8(left) + middle + encode_utf8(right));
    assert(encoded.subrange(0, lead) =~= encode_utf8(left));
    assert(encoded.subrange(lead + middle.len(), encoded.len() as int) =~= encode_utf8(right));
    if ranges.len() == 0 {
        assert(encode_utf8(Seq::<char>::empty()).len() == 0);
    } else {
        let rest = ranges.drop_last();
        let last = ranges.len() - 1;
        let m = ranges.last();
        let earlier = text_through(bytes, start, rest);
        let before = text_before(bytes, start, ranges);
        let gap = outside::read_lossily(bytes.subrange(end_of(start, rest), m.0 as int));
        let hit = outside::read_lossily(bytes.subrange(m.0 as int, m.1 as int));
        assert(through == before + hit);
        assert(left + through + right =~= left + earlier + (gap + hit + right));
        lemma_pieces(bytes, start, rest, left, gap + hit + right);
        boundary::lemma_encode_concat(earlier, gap);
        boundary::lemma_encode_concat(before, hit);
        let others = placed(bytes, start, rest, lead);
        let at = lead + encode_utf8(earlier).len();
        let from = lead + encode_utf8(before).len();
        let to = lead + middle.len();
        assert(shown == others.push((from as usize, to as usize)));
        assert(encoded.subrange(at, from) =~= encode_utf8(gap));
        assert(encoded.subrange(from, to) =~= encode_utf8(hit));
        assert forall|k: int| 0 <= k < shown.len() implies {
            &&& lead <= (#[trigger] shown[k]).0 <= shown[k].1 <= to
            &&& encoded.subrange(shown[k].0 as int, shown[k].1 as int) == encode_utf8(
                outside::read_lossily(bytes.subrange(ranges[k].0 as int, ranges[k].1 as int)),
            )
        } by {
            if k < last {
                assert(shown[k] == others[k]);
                assert(ranges[k] == rest[k]);
            }
        }
        if last > 0 {
            assert(shown[0] == others[0]);
            assert(ranges[0] == rest[0]);
        }
        assert forall|k: int, l: int| 0 <= k && l == k + 1 && l < shown.len() implies {
            &&& (#[trigger] shown[k]).1 <= (#[trigger] shown[l]).0
            &&& encoded.subrange(shown[k].1 as int, shown[l].0 as int) == encode_utf8(
                outside::read_lossily(bytes.subrange(ranges[k].1 as int, ranges[l].0 as int)),
            )
        } by {
            assert(shown[k] == others[k]);
            assert(ranges[k] == rest[k]);
            if l < last {
                assert(shown[l] == others[l]);
                assert(ranges[l] == rest[l]);
            } else {
                assert(shown[k] == others.last());
                assert(end_of(start, rest) == ranges[k].1);
            }
        }
    }
}

/// The range that is shown of a line. A line of up to 128 bytes is shown in full.
/// Of a longer one 128 bytes are, which start 64 bytes before the first match
/// where the line allows it, and at the start of the line where nothing matches.
/// Both ends are moved back over continuation bytes and no further.
pub proof fn lemma_shown_range(bytes: Seq<u8>, matches: Seq<(usize, usize)>)
    requires
        matches.len() > 0 ==> matches[0].0 <= bytes.len(),
    ensures
        ({
            let range = shown_range(bytes, matches);
            let len = bytes.len() as int;
            let first: int = if matches.len() > 0 {
                matches[0].0 as int
            } else {
                0
            };
            let wanted: int = if first >= 64 {
                first - 64
            } else {
                0
            };
            let end: int = if wanted + 128 <= len {
                wanted + 128
            } else {
                len
            };
            &&& len <= 128 ==> range == (0int, len)
            &&& len > 128 ==> {
                &&& 0 <= range.0 <= end - 128
                &&& range.0 <= range.1 <= end
                &&& range.0 == 0 || !is_continuation_byte(bytes[range.0])
                &&& range.1 == 0 || range.1 == len || !is_continuation_byte(bytes[range.1])
                &&& forall|j: int| range.0 < j <= end - 128 ==> is_continuation_byte(#[trigger] bytes[j])
                &&& forall|j: int|
                    range.1 < j <= end && j < len ==> is_continuation_byte(#[trigger] bytes[j])
            }
        }),
{
    let len = bytes.len() as int;
    if len > 128 {
        if matches.len() > 0 {
            let first = matches[0].0 as int;
            let wanted: int = if first >= 64 {
                first - 64
            } else {
                0
            };
            let end: int = if wanted + 128 <= len {
                wanted + 128
            } else {
                len
            };
            boundary::lemma_char_floor(bytes, end - 128);
            boundary::lemma_char_floor(bytes, end);
            boundary::lemma_char_floor_monotone(bytes, end - 128, end);
        } else {
            boundary::lemma_char_floor(bytes, 128);
        }
    }
}

/// What is shown of a line. The matches that are shown are all that start and
/// end within the range that is shown, in order, each selecting what it reads as.
/// What stands before, between and behind them in the range is read and kept,
/// and an ellipsis stands on each side on which the range leaves something out.
pub proof fn lemma_shown(bytes: Seq<u8>, matches: Seq<(usize, usize)>) -> (from: Seq<int>)
    requires
        encode_utf8(shown_text(bytes, matches)).len() <= usize::MAX,
    ensures
        ({
            let range = shown_range(bytes, matches);
            let encoded = encode_utf8(shown_text(bytes, matches));
            let shown = shown_matches(bytes, matches);
            let lead: int = if range.0 > 0 {
                3
            } else {
                0
            };
            let trail: int = if range.1 < bytes.len() {
                3
            } else {
                0
            };
            let dots = encode_utf8("..."@);
            &&& dots.len() == 3
            &&& shown.len() == from.len()
            &&& forall|k: int|
                0 <= k < from.len() ==> {
                    &&& 0 <= #[trigger] from[k] < matches.len()
                    &&& range.0 <= matches[from[k]].0 && matches[from[k]].1 <= range.1
                    &&& lead <= shown[k].0 <= shown[k].1 <= encoded.len() - trail
                    &&& encoded.subrange(shown[k].0 as int, shown[k].1 as int) == encode_utf8(
                        outside::read_lossily(
                            bytes.subrange(
                                matches[from[k]].0 as int,
                                matches[from[k]].1 as int,
                            ),
                        ),
                    )
                }
            &&& forall|k: int, l: int|
                0 <= k < l < from.len() ==> #[trigger] from[k] < #[trigger] from[l]
            &&& forall|i: int|
                0 <= i < matches.len() && range.0 <= (#[trigger] matches[i]).0 && matches[i].1
                    <= range.1 ==> from.contains(i)
            &&& lead + trail <= encoded.len()
            &&& range.0 > 0 ==> encoded.subrange(0, 3) == dots
            &&& range.1 < bytes.len() ==> encoded.subrange(
                encoded.len() - 3,
                encoded.len() as int,
            ) == dots
            &&& from.len() == 0 ==> encoded.subrange(lead, encoded.len() - trail) == encode_utf8(
                outside::read_lossily(bytes.subrange(range.0, range.1)),
            )
            &&& from.len() > 0 ==> {
                &&& encoded.subrange(lead, shown[0].0 as int) == encode_utf8(
                    outside::read_lossily(bytes.subrange(range.0, matches[from[0]].0 as int)),
                )
                &&& encoded.subrange(shown.last().1 as int, encoded.len() - trail) == encode_utf8(
                    outside::read_lossily(bytes.subrange(matches[from.last()].1 as int, range.1)),
                )
            }
            &&& forall|k: int, l: int|
                0 <= k && l == k + 1 && l < from.len() ==> {
                    &&& shown[k].1 <= shown[l].0
                    &&& encoded.subrange(shown[k].1 as int, shown[l].0 as int) == encode_utf8(
                        outside::read_lossily(
                            bytes.subrange(
                                matches[#[trigger] from[k]].1 as int,
                                matches[#[trigger] from[l]].0 as int,
                            ),
                        ),
                    )
                }
        }),
{
    let range = shown_range(bytes, matches);
    let kept = shown_of(bytes, matches);
    let text = shown_text(bytes, matches);
    let encoded = encode_utf8(text);
    let shown = shown_matches(bytes, matches);
    let none: Seq<char> = seq![];
    let left = if range.0 > 0 {
        ELLIPSIS@
    } else {
        none
    };
    let end = if range.1 < bytes.len() {
        ELLIPSIS@
    } else {
        none
    };
    let tail = outside::read_lossily(bytes.subrange(end_of(range.0, kept), range.1));
    let right = tail + end;
    lemma_ellipsis();
    assert(encode_utf8(none).len() == 0);
    assert(text =~= left + text_through(bytes, range.0, kept) + right);
    lemma_pieces(bytes, range.0, kept, left, right);
    boundary::lemma_encode_concat(tail, end);
    let from = lemma_fitting_indices(matches, range);
    let trail = encode_utf8(end).len() as int;
    let at: int = (encode_utf8(left).len() + encode_utf8(text_through(bytes, range.0, kept)).len()) as int;
    assert(encoded.subrange(at, encoded.len() as int) == encode_utf8(tail) + encode_utf8(end));
    assert(encoded.subrange(at, encoded.len() - trail) =~= encoded.subrange(
        at,
        encoded.len() as int,
    ).subrange(0, encode_utf8(tail).len() as int));
    assert(encoded.subrange(at, encoded.len() - trail) =~= encode_utf8(tail));
    assert(encoded.subrange(encoded.len() - trail, encoded.len() as int) =~= encoded.subrange(
        at,
        encoded.len() as int,
    ).subrange(encode_utf8(tail).len() as int, (encode_utf8(tail).len() + trail) as int));
    assert(encoded.subrange(encoded.len() - trail, encoded.len() as int) =~= encode_utf8(end));
    from
}

/// Where a text goes on, after what stands on its left, with what the bytes read
/// as, each range that is placed selects its bytes and comes after those before
/// it.
proof fn lemma_placed(
    bytes: Seq<u8>,
    start: int,
    ranges: Seq<(usize, usize)>,
    left: Seq<char>,
    right: Seq<char>,
)
    requires
        search::are_disjoint_ranges(ranges, bytes.len() as int),
        boundary::are_texts(bytes, ranges),
        encode_utf8(left + text_through(bytes, start, ranges) + right).len() <= usize::MAX,
    ensures
        ({
            let text = left + text_through(bytes, start, ranges) + right;
            let lead = encode_utf8(left).len() as int;
            let shown = placed(bytes, start, ranges, lead);
            &&& shows_matches(text, shown, bytes, ranges)
            &&& forall|k: int| 0 <= k < shown.len() ==> (#[trigger] shown[k]).0 < shown[k].1
            &&& forall|k: int|
                0 <= k < shown.len() ==> (#[trigger] shown[k]).1 <= lead + encode_utf8(
                    text_through(bytes, start, ranges),
                ).len()
            &&& forall|k: int, l: int|
                0 <= k < l < shown.len() ==> (#[trigger] shown[k]).1 <= (#[trigger] shown[l]).0
        }),
    decreases ranges.len(),
{
    let through = text_through(bytes, start, ranges);
    let text = left + through + right;
    let lead = encode_utf8(left).len() as int;
    let shown = placed(bytes, start, ranges, lead);
    if ranges.len() > 0 {
        let rest = ranges.drop_last();
        let m = ranges.last();
        let earlier = text_through(bytes, start, rest);
        let before = text_before(bytes, start, ranges);
        let gap = outside::read_lossily(bytes.subrange(end_of(start, rest), m.0 as int));
        let selected = bytes.subrange(m.0 as int, m.1 as int);
        let hit = outside::read_lossily(selected);
        assert(ranges[ranges.len() - 1] == m);
        assert(search::are_disjoint_ranges(rest, bytes.len() as int)) by {
            assert forall|i: int| 0 <= i < rest.len() implies (#[trigger] rest[i]).0 < rest[i].1
                <= bytes.len() by {
                assert(rest[i] == ranges[i]);
            }
            assert forall|i: int, j: int| 0 <= i < j < rest.len() implies (#[trigger] rest[i]).1
                <= (#[trigger] rest[j]).0 by {
                assert(rest[i] == ranges[i]);
                assert(rest[j] == ranges[j]);
            }
        }
        assert(boundary::are_texts(bytes, rest)) by {
            assert forall|i: int| 0 <= i < rest.len() implies valid_utf8(
                bytes.subrange((#[trigger] rest[i]).0 as int, rest[i].1 as int),
            ) by {
                assert(rest[i] == ranges[i]);
            }
        }
        assert(through == before + hit);
        assert(text =~= left + earlier + (gap + hit + right));
        lemma_placed(bytes, start, rest, left, gap + hit + right);
        decode_utf8_encode_utf8(selected);
        boundary::lemma_encode_concat(earlier, gap);
        boundary::lemma_encode_concat(before, hit);
        boundary::lemma_encode_concat(left, through);
        boundary::lemma_encode_concat(left + through, right);
        let encoded = encode_utf8(text);
        let from = lead + encode_utf8(before).len();
        let to = lead + encode_utf8(through).len();
        assert(encoded == encode_utf8(left) + (encode_utf8(before) + selected) + encode_utf8(right));
        assert(encoded.subrange(from, to) =~= selected);
        let others = placed(bytes, start, rest, lead);
        assert(shown == others.push((from as usize, to as usize)));
        assert forall|k: int| 0 <= k < shown.len() implies shows_match(
            text,
            #[trigger] shown[k],
            bytes,
            #[trigger] ranges[k],
        ) && shown[k].0 < shown[k].1 <= to by {
            if k < others.len() {
                assert(shown[k] == others[k]);
                assert(ranges[k] == rest[k]);
            }
        }
        assert forall|k: int, l: int| 0 <= k < l < shown.len() implies (#[trigger] shown[k]).1
            <= (#[trigger] shown[l]).0 by {
            assert(shown[k] == others[k]);
            if l < others.len() {
                assert(shown[l] == others[l]);
            }
        }
    }
}

/// In valid UTF-8 it makes no difference that ranges are read by themselves.
proof fn lemma_text_through(bytes: Seq<u8>, start: int, ranges: Seq<(usize, usize)>)
    requires
        valid_utf8(bytes),
        0 <= start <= bytes.len(),
        is_char_boundary(bytes, start),
        search::are_disjoint_ranges(ranges, bytes.len() as int),
        boundary::at_boundaries(bytes, ranges),
        ranges.len() > 0 ==> start <= ranges[0].0,
    ensures
        start <= end_of(start, ranges) <= bytes.len(),
        is_char_boundary(bytes, end_of(start, ranges)),
        text_through(bytes, start, ranges) == decode_utf8(
            bytes.subrange(start, end_of(start, ranges)),
        ),
    decreases ranges.len(),
{
    if ranges.len() == 0 {
        assert(bytes.subrange(start, start) =~= Seq::<u8>::empty());
        assert(decode_utf8(Seq::<u8>::empty()) =~= Seq::<char>::empty());
    } else {
        let rest = ranges.drop_last();
        let m = ranges.last();
        assert(ranges[ranges.len() - 1] == m);
        assert(search::are_disjoint_ranges(rest, bytes.len() as int)) by {
            assert forall|i: int| 0 <= i < rest.len() implies (#[trigger] rest[i]).0 < rest[i].1
                <= bytes.len() by {
                assert(rest[i] == ranges[i]);
            }
            assert forall|i: int, j: int| 0 <= i < j < rest.len() implies (#[trigger] rest[i]).1
                <= (#[trigger] rest[j]).0 by {
                assert(rest[i] == ranges[i]);
                assert(rest[j] == ranges[j]);
            }
        }
        assert(boundary::at_boundaries(bytes, rest)) by {
            assert forall|i: int| 0 <= i < rest.len() implies is_char_boundary(
                bytes,
                (#[trigger] rest[i]).0 as int,
            ) && is_char_boundary(bytes, rest[i].1 as int) by {
                assert(rest[i] == ranges[i]);
            }
        }
        if rest.len() > 0 {
            assert(rest[0] == ranges[0]);
            assert(ranges[rest.len() - 1] == rest.last());
        }
        lemma_text_through(bytes, start, rest);
        let end = end_of(start, rest);
        assert(end <= m.0);
        boundary::lemma_valid_between(bytes, end, m.0 as int);
        boundary::lemma_valid_between(bytes, m.0 as int, m.1 as int);
        boundary::lemma_decode_split(bytes, start, end, m.0 as int);
        boundary::lemma_decode_split(bytes, start, m.0 as int, m.1 as int);
    }
}

/// In valid UTF-8, with matches that select texts, what is shown of a line is
/// what it encodes, cut to the range that is shown.
pub proof fn lemma_shown_text(bytes: Seq<u8>, matches: Seq<(usize, usize)>)
    requires
        valid_utf8(bytes),
        search::are_disjoint_ranges(matches, bytes.len() as int),
        boundary::are_texts(bytes, matches),
    ensures
        ({
            let range = shown_range(bytes, matches);
            shown_body(bytes, matches) == decode_utf8(bytes.subrange(range.0, range.1))
        }),
{
    let range = shown_range(bytes, matches);
    let shown = shown_of(bytes, matches);
    lemma_shown_range_boundaries(bytes, matches);
    lemma_fitting(matches, range, bytes.len() as int);
    lemma_shown_are_texts(bytes, matches);
    assert forall|i: int| 0 <= i < shown.len() implies is_char_boundary(
        bytes,
        (#[trigger] shown[i]).0 as int,
    ) && is_char_boundary(bytes, shown[i].1 as int) by {
        boundary::lemma_valid_within(bytes, shown[i].0 as int, shown[i].1 as int);
    }
    lemma_text_through(bytes, range.0, shown);
    let end = end_of(range.0, shown);
    if shown.len() > 0 {
        assert(fits(shown[shown.len() - 1], range));
    }
    boundary::lemma_valid_between(bytes, end, range.1);
    boundary::lemma_decode_split(bytes, range.0, end, range.1);
}

proof fn lemma_shown_are_texts(bytes: Seq<u8>, matches: Seq<(usize, usize)>)
    requires
        search::are_disjoint_ranges(matches, bytes.len() as int),
        boundary::are_texts(bytes, matches),
    ensures
        boundary::are_texts(bytes, shown_of(bytes, matches)),
{
    let shown = shown_of(bytes, matches);
    lemma_fitting(matches, shown_range(bytes, matches), bytes.len() as int);
    assert forall|k: int| 0 <= k < shown.len() implies valid_utf8(
        bytes.subrange((#[trigger] shown[k]).0 as int, shown[k].1 as int),
    ) by {
        assert(matches.contains(shown[k]));
        let i = choose|i: int| 0 <= i < matches.len() && matches[i] == shown[k];
        assert(matches[i] == shown[k]);
    }
}

/// In valid UTF-8 no more is shown of a line than the length of a short line,
/// the three bytes by which its start may move back to a character boundary
/// and the two ellipses.
pub proof fn lemma_shown_length(bytes: Seq<u8>, matches: Seq<(usize, usize)>)
    requires
        valid_utf8(bytes),
        search::are_disjoint_ranges(matches, bytes.len() as int),
        boundary::are_texts(bytes, matches),
    ensures
        encode_utf8(shown_text(bytes, matches)).len() <= MAX_LINE_LENGTH + 3 + 2
            * ELLIPSIS_LENGTH,
{
    let range = shown_range(bytes, matches);
    lemma_shown_range_boundaries(bytes, matches);
    lemma_shown_text(bytes, matches);
    let none: Seq<char> = seq![];
    let part = bytes.subrange(range.0, range.1);
    let body = decode_utf8(part);
    let left = if range.0 > 0 {
        ELLIPSIS@
    } else {
        none
    };
    let right = if range.1 < bytes.len() {
        ELLIPSIS@
    } else {
        none
    };
    lemma_ellipsis();
    decode_utf8_encode_utf8(part);
    boundary::lemma_encode_concat(left, body);
    boundary::lemma_encode_concat(left + body, right);
    assert(encode_utf8(none).len() == 0);
    if bytes.len() > MAX_LINE_LENGTH {
        if matches.len() > 0 {
            let first = matches[0].0 as int;
            let centered: int = if first >= LEADING_LENGTH {
                first - LEADING_LENGTH
            } else {
                0
            };
            let end: int = if centered + MAX_LINE_LENGTH <= bytes.len() {
                centered + MAX_LINE_LENGTH
            } else {
                bytes.len() as int
            };
            boundary::lemma_char_floor_near(bytes, end - MAX_LINE_LENGTH);
            boundary::lemma_char_floor(bytes, end);
        } else {
            boundary::lemma_char_floor(bytes, MAX_LINE_LENGTH as int);
        }
    }
}

/// Where a line of valid UTF-8 is long, its first match is the first that is
/// shown if it selects a text and is no longer than half a short line.
pub proof fn lemma_first_match_shown(bytes: Seq<u8>, matches: Seq<(usize, usize)>)
    requires
        valid_utf8(bytes),
        bytes.len() > MAX_LINE_LENGTH,
        search::are_disjoint_ranges(matches, bytes.len() as int),
        boundary::are_texts(bytes, matches),
        matches.len() > 0,
        matches[0].1 - matches[0].0 <= MAX_LINE_LENGTH - LEADING_LENGTH,
    ensures
        shown_of(bytes, matches).len() > 0,
        shown_of(bytes, matches)[0] == matches[0],
{
    let first = matches[0].0 as int;
    let last = matches[0].1 as int;
    let centered: int = if first >= LEADING_LENGTH {
        first - LEADING_LENGTH
    } else {
        0
    };
    let end: int = if centered + MAX_LINE_LENGTH <= bytes.len() {
        centered + MAX_LINE_LENGTH
    } else {
        bytes.len() as int
    };
    assert(last <= end);
    boundary::lemma_valid_within(bytes, first, last);
    boundary::lemma_char_floor(bytes, end - MAX_LINE_LENGTH);
    boundary::lemma_char_floor_boundary(bytes, last);
    boundary::lemma_char_floor_monotone(bytes, last, end);
    lemma_fitting(matches, shown_range(bytes, matches), bytes.len() as int);
}

/// What is shown of a line shows it as it is.
proof fn lemma_faithful(bytes: Seq<u8>, matches: Seq<(usize, usize)>)
    requires
        search::are_disjoint_ranges(matches, bytes.len() as int),
        boundary::are_texts(bytes, matches),
        encode_utf8(shown_text(bytes, matches)).len() <= usize::MAX,
    ensures
        is_faithful(shown_text(bytes, matches), shown_matches(bytes, matches), bytes, matches),
{
    let range = shown_range(bytes, matches);
    let shown = shown_of(bytes, matches);
    let text = shown_text(bytes, matches);
    let ranges = shown_matches(bytes, matches);
    let none: Seq<char> = seq![];
    let left = if range.0 > 0 {
        ELLIPSIS@
    } else {
        none
    };
    let end = if range.1 < bytes.len() {
        ELLIPSIS@
    } else {
        none
    };
    let right = outside::read_lossily(bytes.subrange(end_of(range.0, shown), range.1)) + end;
    lemma_fitting(matches, range, bytes.len() as int);
    lemma_shown_are_texts(bytes, matches);
    lemma_ellipsis();
    assert(encode_utf8(none).len() == 0);
    assert(text =~= left + text_through(bytes, range.0, shown) + right);
    lemma_placed(bytes, range.0, shown, left, right);
    encode_utf8_valid_utf8(text);
    assert forall|k: int| 0 <= k < ranges.len() implies (#[trigger] ranges[k]).0 < ranges[k].1
        <= encode_utf8(text).len() && is_char_boundary(encode_utf8(text), ranges[k].0 as int)
        && is_char_boundary(encode_utf8(text), ranges[k].1 as int) by {
        assert(shows_match(text, ranges[k], bytes, shown[k]));
        boundary::lemma_valid_within(
            encode_utf8(text),
            ranges[k].0 as int,
            ranges[k].1 as int,
        );
    }
    if valid_utf8(bytes) {
        lemma_shown_text(bytes, matches);
        lemma_shown_length(bytes, matches);
    }
}

/// What it is to show a line as it is. There is one range for each match that
/// starts and ends within the range that is shown, in order, and it selects the
/// bytes of that match and whole characters, behind those before it. Of a line
/// of UTF-8 the text is what the range encodes, with an ellipsis on each side on
/// which something is left out, and at most 137 bytes long.
pub proof fn lemma_is_faithful(
    text: Seq<char>,
    shown: Seq<(usize, usize)>,
    bytes: Seq<u8>,
    matches: Seq<(usize, usize)>,
) -> (from: Seq<int>)
    requires
        is_faithful(text, shown, bytes, matches),
    ensures
        ({
            let range = shown_range(bytes, matches);
            let encoded = encode_utf8(text);
            &&& shown.len() == from.len()
            &&& forall|k: int|
                0 <= k < from.len() ==> {
                    &&& 0 <= #[trigger] from[k] < matches.len()
                    &&& range.0 <= matches[from[k]].0 && matches[from[k]].1 <= range.1
                    &&& shown[k].0 < shown[k].1 <= encoded.len()
                    &&& is_char_boundary(encoded, shown[k].0 as int)
                    &&& is_char_boundary(encoded, shown[k].1 as int)
                    &&& encoded.subrange(shown[k].0 as int, shown[k].1 as int) == bytes.subrange(
                        matches[from[k]].0 as int,
                        matches[from[k]].1 as int,
                    )
                }
            &&& forall|k: int, l: int|
                0 <= k < l < from.len() ==> #[trigger] from[k] < #[trigger] from[l] && shown[k].1
                    <= shown[l].0
            &&& forall|i: int|
                0 <= i < matches.len() && range.0 <= (#[trigger] matches[i]).0 && matches[i].1
                    <= range.1 ==> from.contains(i)
            &&& valid_utf8(bytes) ==> {
                &&& encoded.len() <= 137
                &&& text == (if range.0 > 0 {
                    "..."@
                } else {
                    seq![]
                }) + decode_utf8(bytes.subrange(range.0, range.1)) + (if range.1 < bytes.len() {
                    "..."@
                } else {
                    seq![]
                })
            }
        }),
{
    let range = shown_range(bytes, matches);
    let kept = shown_of(bytes, matches);
    let from = lemma_fitting_indices(matches, range);
    assert forall|k: int| 0 <= k < from.len() implies {
        &&& 0 <= #[trigger] from[k] < matches.len()
        &&& range.0 <= matches[from[k]].0 && matches[from[k]].1 <= range.1
        &&& shown[k].0 < shown[k].1 <= encode_utf8(text).len()
        &&& is_char_boundary(encode_utf8(text), shown[k].0 as int)
        &&& is_char_boundary(encode_utf8(text), shown[k].1 as int)
        &&& encode_utf8(text).subrange(shown[k].0 as int, shown[k].1 as int) == bytes.subrange(
            matches[from[k]].0 as int,
            matches[from[k]].1 as int,
        )
    } by {
        assert(shows_match(text, shown[k], bytes, kept[k]));
    }
    from
}

/// Puts what the bytes from `from` to `to` read as at the end of the text.
fn append_read(text: &mut String, bytes: &[u8], from: usize, to: usize)
    requires
        from <= to <= bytes@.len(),
    ensures
        final(text)@ == old(text)@ + outside::read_lossily(bytes@.subrange(from as int, to as int)),
{
    let part: &[u8] = vstd::slice::slice_subrange(bytes, from, to);
    text.append(outside::from_utf8_lossy(part).as_str());
}

/// Makes what is shown of a line out of its bytes and the matches in it. All
/// matches within the range that is shown are shown, in order.
pub fn snippet(bytes: &[u8], matches: &Vec<(usize, usize)>) -> (r: (String, Vec<(usize, usize)>))
    requires
        search::are_disjoint_ranges(matches@, bytes@.len() as int),
    ensures
        r.0@ == shown_text(bytes@, matches@),
        r.1@ == shown_matches(bytes@, matches@),
        boundary::are_texts(bytes@, matches@) ==> is_faithful(r.0@, r.1@, bytes@, matches@),
        exists|from: Seq<int>|
            {
                let range = shown_range(bytes@, matches@);
                &&& #[trigger] from.len() == r.1@.len()
                &&& forall|k: int|
                    0 <= k < from.len() ==> {
                        &&& 0 <= #[trigger] from[k] < matches@.len()
                        &&& r.1@[k].0 <= r.1@[k].1 <= encode_utf8(r.0@).len()
                        &&& encode_utf8(r.0@).subrange(r.1@[k].0 as int, r.1@[k].1 as int)
                            == encode_utf8(
                            outside::read_lossily(
                                bytes@.subrange(
                                    matches@[from[k]].0 as int,
                                    matches@[from[k]].1 as int,
                                ),
                            ),
                        )
                    }
                &&& forall|k: int, l: int|
                    0 <= k < l < from.len() ==> #[trigger] from[k] < #[trigger] from[l]
                &&& forall|i: int|
                    0 <= i < matches@.len() && range.0 <= (#[trigger] matches@[i]).0
                        && matches@[i].1 <= range.1 ==> from.contains(i)
            },
{
    let ghost range = shown_range(bytes@, matches@);
    let window: (usize, usize) = if bytes.len() <= MAX_LINE_LENGTH {
        (0, bytes.len())
    } else if matches.len() > 0 {
        display_window(bytes, matches[0].0)
    } else {
        proof {
            boundary::lemma_char_floor(bytes@, MAX_LINE_LENGTH as int);
        }
        (0, boundary::find_char_floor(bytes, MAX_LINE_LENGTH))
    };
    assert(range == (window.0 as int, window.1 as int));
    let mut text: String = String::new();
    if window.0 > 0 {
        text.append(ELLIPSIS);
    }
    let ghost left = text@;
    let ghost lead = lead_of(range);
    proof {
        lemma_ellipsis();
        assert(encode_utf8(Seq::<char>::empty()).len() == 0);
        assert(left =~= if window.0 > 0 {
            ELLIPSIS@
        } else {
            seq![]
        });
        assert(matches@.take(0) =~= Seq::<(usize, usize)>::empty());
    }
    let mut shown: Vec<(usize, usize)> = Vec::new();
    let mut at: usize = window.0;
    for i in 0..matches.len()
        invariant
            search::are_disjoint_ranges(matches@, bytes@.len() as int),
            range == (window.0 as int, window.1 as int),
            window.0 <= at <= window.1 <= bytes@.len(),
            forall|j: int| i <= j < matches@.len() ==> at == window.0 || at <= (#[trigger] matches@[j]).0,
            lead == encode_utf8(left).len(),
            at == end_of(range.0, fitting(matches@.take(i as int), range)),
            text@ == left + text_through(
                bytes@,
                range.0,
                fitting(matches@.take(i as int), range),
            ),
            shown@ == placed(bytes@, range.0, fitting(matches@.take(i as int), range), lead),
    {
        let ghost before = fitting(matches@.take(i as int), range);
        let ghost after = fitting(matches@.take(i + 1), range);
        let m: (usize, usize) = matches[i];
        assert(matches@.take(i + 1).drop_last() =~= matches@.take(i as int));
        if m.0 >= window.0 && m.1 <= window.1 {
            assert(after.drop_last() =~= before);
            append_read(&mut text, bytes, at, m.0);
            proof {
                assert(text@ =~= left + text_before(bytes@, range.0, after));
                boundary::lemma_encode_concat(left, text_before(bytes@, range.0, after));
            }
            let from: usize = text.as_str().as_bytes().len();
            append_read(&mut text, bytes, m.0, m.1);
            proof {
                assert(text@ =~= left + text_through(bytes@, range.0, after));
                boundary::lemma_encode_concat(left, text_through(bytes@, range.0, after));
            }
            let to: usize = text.as_str().as_bytes().len();
            shown.push((from, to));
            at = m.1;
        }
    }
    assert(matches@.take(matches@.len() as int) =~= matches@);
    append_read(&mut text, bytes, at, window.1);
    if window.1 < bytes.len() {
        text.append(ELLIPSIS);
    }
    assert(text@ =~= shown_text(bytes@, matches@));
    let length: usize = text.as_str().as_bytes().len();
    proof {
        assert(encode_utf8(text@).len() == length);
        let from = lemma_shown(bytes@, matches@);
        assert(from.len() == shown@.len());
        if boundary::are_texts(bytes@, matches@) {
            lemma_faithful(bytes@, matches@);
        }
    }
    (text, shown)
}

} // verus!
