//! What the library takes from other crates and from std on trust.

use std::sync::atomic::{AtomicBool, Ordering};
use std::sync::mpsc;
use std::sync::Arc;
use std::time::{Duration, Instant};

use grep::matcher::Matcher;
use grep::regex::{RegexMatcher, RegexMatcherBuilder};
use grep::searcher::sinks::Bytes;
use grep::searcher::{BinaryDetection, SearcherBuilder};
use ignore::overrides::{Override, OverrideBuilder};
use quoted_printable::ParseMode;
use vstd::prelude::*;

use crate::text;

verus! {

/// `grep::regex::RegexMatcher`, a compiled alternation of search patterns.
#[verifier::external_type_specification]
#[verifier::external_body]
pub struct ExRegexMatcher(grep::regex::RegexMatcher);

/// `grep::regex::Error`, why a matcher could not be compiled.
#[verifier::external_type_specification]
#[verifier::external_body]
pub struct ExRegexError(grep::regex::Error);

/// `ignore::overrides::OverrideBuilder`, a list of glob lines being gathered.
#[verifier::external_type_specification]
#[verifier::external_body]
pub struct ExOverrideBuilder(ignore::overrides::OverrideBuilder);

/// `ignore::overrides::Override`, a compiled list of glob lines.
#[verifier::external_type_specification]
#[verifier::external_body]
pub struct ExOverride(ignore::overrides::Override);

/// `std::time::Instant`.
#[verifier::external_type_specification]
#[verifier::external_body]
pub struct ExInstant(std::time::Instant);

/// `std::sync::mpsc::Receiver`, the reading end of a channel.
#[verifier::external_type_specification]
#[verifier::external_body]
#[verifier::reject_recursive_types(T)]
pub struct ExReceiver<T>(std::sync::mpsc::Receiver<T>);

/// `std::sync::mpsc::TryRecvError`, why a channel gave nothing.
#[verifier::external_type_specification]
pub struct ExTryRecvError(std::sync::mpsc::TryRecvError);

// ---------------------------------------------------------------------------
// Search patterns
// ---------------------------------------------------------------------------

/// The characters that mean something in a regular expression.
pub open spec fn is_meta(c: char) -> bool {
    ||| c == '\\' || c == '.' || c == '+' || c == '*' || c == '?' || c == '(' || c == ')'
    ||| c == '|' || c == '[' || c == ']' || c == '{' || c == '}' || c == '^' || c == '$'
    ||| c == '#' || c == '&' || c == '-' || c == '~'
}

/// The text with a backslash put before each character that means something in
/// a regular expression.
pub open spec fn escaped(text: Seq<char>) -> Seq<char>
    decreases text.len(),
{
    if text.len() == 0 {
        seq![]
    } else if is_meta(text.last()) {
        escaped(text.drop_last()).push('\\').push(text.last())
    } else {
        escaped(text.drop_last()).push(text.last())
    }
}

/// `regex::escape` puts a backslash before each character of the pattern that
/// means something in a regular expression and keeps all other characters.
pub assume_specification[ regex::escape ](pattern: &str) -> (r: String)
    ensures
        r@ == escaped(pattern@),
;

/// The patterns that a matcher was compiled from.
pub uninterp spec fn matcher_patterns(matcher: RegexMatcher) -> Seq<Seq<char>>;

/// Whether a matcher was compiled with smart case and with Unicode.
pub uninterp spec fn matcher_flags(matcher: RegexMatcher) -> (bool, bool);

/// Whether the patterns compile, with smart case and Unicode as given.
pub uninterp spec fn patterns_compile(patterns: Seq<Seq<char>>, case_smart: bool, unicode: bool) -> bool;

/// The first match, as a range of bytes, of the patterns in the haystack at or
/// after the given offset.
pub uninterp spec fn first_match(
    patterns: Seq<Seq<char>>,
    case_smart: bool,
    unicode: bool,
    haystack: Seq<u8>,
    at: int,
) -> Option<(usize, usize)>;

/// The lines of the bytes, with their numbers, in which the patterns match.
/// The search gives up at the given byte, which marks binary data.
pub uninterp spec fn matching_lines(
    patterns: Seq<Seq<char>>,
    case_smart: bool,
    unicode: bool,
    binary_byte: u8,
    bytes: Seq<u8>,
) -> Seq<(u64, Seq<u8>)>;

/// The pattern stands for a text that is not empty, character by character.
pub open spec fn is_literal(pattern: Seq<char>) -> bool {
    exists|text: Seq<char>| text.len() > 0 && pattern == #[trigger] escaped(text)
}

/// There are patterns, and each stands for a text that is not empty, character
/// by character.
pub open spec fn are_literals(patterns: Seq<Seq<char>>) -> bool {
    &&& patterns.len() > 0
    &&& forall|i: int| 0 <= i < patterns.len() ==> is_literal(#[trigger] patterns[i])
}

/// `RegexMatcherBuilder::build_literals` on a new builder with
/// `case_smart` and `unicode` set as given. It is claimed that whether the
/// patterns compile depends on them and on the two flags alone, and that the
/// matcher is one for these patterns and flags.
#[verifier::external_body]
pub(crate) fn build_literals(patterns: &Vec<String>, case_smart: bool, unicode: bool) -> (r: Result<
    RegexMatcher,
    grep::regex::Error,
>)
    ensures
        r is Ok <==> patterns_compile(text::texts(patterns@), case_smart, unicode),
        r matches Ok(m) ==> matcher_patterns(m) == text::texts(patterns@) && matcher_flags(m) == (
            case_smart,
            unicode,
        ),
{
    RegexMatcherBuilder::new().case_smart(case_smart).unicode(unicode).build_literals(patterns)
}

/// `Matcher::find_at` of a `RegexMatcher`. It is claimed that the first match
/// depends on the patterns and flags, the haystack and the offset alone, that
/// it starts at or after the offset and ends within the haystack, and that,
/// where each pattern stands for a text that is not empty, it is not empty and,
/// with Unicode, made of whole characters.
#[verifier::external_body]
pub(crate) fn find_at(matcher: &RegexMatcher, haystack: &[u8], at: usize) -> (r: Option<(usize, usize)>)
    requires
        at <= haystack@.len(),
    ensures
        r == first_match(
            matcher_patterns(*matcher),
            matcher_flags(*matcher).0,
            matcher_flags(*matcher).1,
            haystack@,
            at as int,
        ),
        r matches Some(m) ==> at <= m.0 <= m.1 <= haystack@.len(),
        r matches Some(m) ==> are_literals(matcher_patterns(*matcher)) ==> m.0 < m.1,
        r matches Some(m) ==> are_literals(matcher_patterns(*matcher)) && matcher_flags(*matcher).1
            ==> vstd::utf8::valid_utf8(haystack@.subrange(m.0 as int, m.1 as int)),
{
    match matcher.find_at(haystack, at) {
        Ok(Some(m)) => Some((m.start(), m.end())),
        Ok(None) => None,
        Err(_) => None,
    }
}

/// The lines as a mathematical sequence.
pub open spec fn line_views(lines: Seq<(u64, Vec<u8>)>) -> Seq<(u64, Seq<u8>)> {
    lines.map_values(|line: (u64, Vec<u8>)| (line.0, line.1@))
}

/// Keeps a copy of one matching line.
fn keep_line(lines: &mut Vec<(u64, Vec<u8>)>, number: u64, line: &[u8])
    ensures
        line_views(final(lines)@) == line_views(old(lines)@).push((number, line@)),
{
    lines.push((number, vstd::slice::slice_to_vec(line)));
    assert(line_views(lines@) =~= line_views(old(lines)@).push((number, line@)));
}

/// `Searcher::search_slice` with line numbers and with binary detection that
/// quits at the given byte. It is claimed that the lines it reports depend on
/// the patterns and flags, the byte and the bytes searched alone.
#[verifier::external_body]
pub(crate) fn search_slice(matcher: &RegexMatcher, binary_byte: u8, bytes: &[u8]) -> (r: Vec<(u64, Vec<u8>)>)
    ensures
        line_views(r@) == matching_lines(
            matcher_patterns(*matcher),
            matcher_flags(*matcher).0,
            matcher_flags(*matcher).1,
            binary_byte,
            bytes@,
        ),
{
    let mut lines: Vec<(u64, Vec<u8>)> = Vec::new();
    let mut searcher = SearcherBuilder::new()
        .line_number(true)
        .binary_detection(BinaryDetection::quit(binary_byte))
        .build();
    let _ = searcher.search_slice(matcher, bytes, Bytes(|number, line| {
        keep_line(&mut lines, number, line);
        Ok(true)
    }));
    lines
}

// ---------------------------------------------------------------------------
// Glob overrides
// ---------------------------------------------------------------------------

/// The directory that a builder takes its globs relative to.
pub uninterp spec fn builder_root(builder: OverrideBuilder) -> Seq<char>;

/// The lines of the globs that a builder holds so far.
pub uninterp spec fn builder_lines(builder: OverrideBuilder) -> Seq<Seq<char>>;

/// The directory that an override set takes its globs relative to.
pub uninterp spec fn override_root(overrides: Override) -> Seq<char>;

/// The lines of the globs that an override set holds.
pub uninterp spec fn override_lines(overrides: Override) -> Seq<Seq<char>>;

/// Whether a glob line can be parsed.
pub uninterp spec fn glob_parses(line: Seq<char>) -> bool;

/// Whether accepted glob lines compile into an override set.
pub uninterp spec fn globs_compile(lines: Seq<Seq<char>>) -> bool;

/// The line stands for a glob: it is no comment, and no white space would be cut
/// off its end.
pub open spec fn is_glob_line(line: Seq<char>) -> bool {
    line.len() > 0 && line[0] != '#' && !white_space(line.last())
}

/// `OverrideBuilder::new`: a builder for the directory, without any globs. A
/// directory that starts with `./` would lose that.
#[verifier::external_body]
pub(crate) fn new_override_builder(root: &str) -> (r: OverrideBuilder)
    requires
        !(root@.len() >= 2 && root@[0] == '.' && root@[1] == '/'),
    ensures
        builder_root(r) == root@,
        builder_lines(r) == Seq::<Seq<char>>::empty(),
{
    OverrideBuilder::new(root)
}

/// `OverrideBuilder::add`: a line that stands for a glob is added where it
/// parses. A line that does not parse leaves the globs as they were, and so does
/// a comment, which always parses. It is claimed that whether a line parses
/// depends on the line alone. What is kept of a line with white space at its
/// end is not stated.
#[verifier::external_body]
pub(crate) fn add_glob(builder: &mut OverrideBuilder, line: &str) -> (r: bool)
    ensures
        r == glob_parses(line@),
        builder_root(*final(builder)) == builder_root(*old(builder)),
        line@.len() > 0 && line@[0] == '#' ==> r && builder_lines(*final(builder)) == builder_lines(
            *old(builder),
        ),
        !r ==> builder_lines(*final(builder)) == builder_lines(*old(builder)),
        r && is_glob_line(line@) ==> builder_lines(*final(builder)) == builder_lines(
            *old(builder),
        ).push(line@),
{
    builder.add(line).is_ok()
}

/// `OverrideBuilder::build`: the override set of the globs added so far, for the
/// directory of the builder where there are any. It is claimed that whether
/// they compile depends on their lines alone.
#[verifier::external_body]
pub(crate) fn build_overrides(builder: &OverrideBuilder) -> (r: Option<Override>)
    ensures
        r is Some <==> globs_compile(builder_lines(*builder)),
        r matches Some(o) ==> override_lines(o) == builder_lines(*builder),
        r matches Some(o) ==> builder_lines(*builder).len() > 0 ==> override_root(o)
            == builder_root(*builder),
{
    builder.build().ok()
}

/// `Override::empty`: the override set without any globs.
#[verifier::external_body]
pub(crate) fn empty_overrides() -> (r: Override)
    ensures
        override_lines(r) == Seq::<Seq<char>>::empty(),
{
    Override::empty()
}

// ---------------------------------------------------------------------------
// Text
// ---------------------------------------------------------------------------

/// What bytes are turned into when they are read as UTF-8, with U+FFFD for what
/// is not.
pub uninterp spec fn lossy_text(bytes: Seq<u8>) -> Seq<char>;

/// What the bytes read as: the text that they encode where they are UTF-8,
/// U+FFFD for a single byte that is not, and else whatever the conversion makes
/// of them.
pub open spec fn read_lossily(bytes: Seq<u8>) -> Seq<char> {
    if vstd::utf8::valid_utf8(bytes) {
        vstd::utf8::decode_utf8(bytes)
    } else if bytes.len() == 1 {
        seq!['\u{FFFD}']
    } else {
        lossy_text(bytes)
    }
}

/// Bytes that are UTF-8 read as what they encode, a single byte that is not as
/// U+FFFD, and all others as the conversion has it, however many they are.
pub proof fn lemma_read_lossily(bytes: Seq<u8>)
    ensures
        vstd::utf8::valid_utf8(bytes) ==> read_lossily(bytes) == vstd::utf8::decode_utf8(bytes),
        !vstd::utf8::valid_utf8(bytes) && bytes.len() == 1 ==> read_lossily(bytes) == seq![
            '\u{FFFD}',
        ],
        !vstd::utf8::valid_utf8(bytes) && bytes.len() != 1 ==> read_lossily(bytes) == lossy_text(
            bytes,
        ),
{
}

/// `String::from_utf8_lossy`: the text that the bytes encode where they are
/// valid UTF-8, and U+FFFD for a single byte that is not. It is claimed that
/// the text depends on the bytes alone.
#[verifier::external_body]
pub(crate) fn from_utf8_lossy(bytes: &[u8]) -> (r: String)
    ensures
        r@ == lossy_text(bytes@),
        vstd::utf8::valid_utf8(bytes@) ==> r@ == vstd::utf8::decode_utf8(bytes@),
        bytes@.len() == 1 && !vstd::utf8::valid_utf8(bytes@) ==> r@ == seq!['\u{FFFD}'],
{
    String::from_utf8_lossy(bytes).into_owned()
}

/// The bytes that quoted-printable data stands for, or none where the decoder
/// refuses it.
pub uninterp spec fn quoted_printable_bytes(data: Seq<u8>, robust: bool) -> Option<Seq<u8>>;

/// `quoted_printable::decode`, robust or strict. It is claimed that the result
/// depends on the data and the mode alone, and that the robust mode refuses no
/// data.
#[verifier::external_body]
pub(crate) fn decode_quoted_printable(data: &[u8], robust: bool) -> (r: Option<Vec<u8>>)
    ensures
        r is Some <==> quoted_printable_bytes(data@, robust) is Some,
        r matches Some(bytes) ==> quoted_printable_bytes(data@, robust) == Some(bytes@),
        robust ==> r is Some,
{
    let mode = match robust {
        true => ParseMode::Robust,
        false => ParseMode::Strict,
    };
    quoted_printable::decode(data, mode).ok()
}

/// The characters with the Unicode property White_Space.
pub open spec fn white_space(c: char) -> bool {
    ||| '\u{9}' <= c <= '\u{d}' || c == ' ' || c == '\u{85}' || c == '\u{a0}' || c == '\u{1680}'
    ||| '\u{2000}' <= c <= '\u{200a}' || c == '\u{2028}' || c == '\u{2029}' || c == '\u{202f}'
    ||| c == '\u{205f}' || c == '\u{3000}'
}

/// `char::is_whitespace`: whether the character has the property White_Space.
pub assume_specification[ char::is_whitespace ](c: char) -> (r: bool)
    ensures
        r == white_space(c),
;

/// The character with an upper case ASCII letter turned into lower case.
pub open spec fn ascii_lower(c: char) -> char {
    if 'A' <= c <= 'Z' {
        (c as u32 + 32) as char
    } else {
        c
    }
}

/// `str::to_ascii_lowercase`: turns each of the letters `A` to `Z` into lower
/// case and keeps all other characters.
pub assume_specification[ str::to_ascii_lowercase ](s: &str) -> (r: String)
    ensures
        r@ == s@.map_values(|c: char| ascii_lower(c)),
;

/// `Arc::from` of a `String`: the same text, shared.
#[verifier::external_body]
pub(crate) fn share_text(text: String) -> (r: Arc<str>)
    ensures
        (*r)@ == text@,
{
    Arc::from(text)
}

/// `Arc::from` of a `Vec`: the same ranges, shared.
#[verifier::external_body]
pub(crate) fn share_ranges(ranges: Vec<(usize, usize)>) -> (r: Arc<[(usize, usize)]>)
    ensures
        (*r)@ == ranges@,
{
    Arc::from(ranges)
}

// ---------------------------------------------------------------------------
// Threads and time
// ---------------------------------------------------------------------------

/// `AtomicBool::store`, relaxed. It neither panics nor blocks. What the flag
/// holds for other threads is not stated.
#[verifier::external_body]
pub(crate) fn store_flag(flag: &AtomicBool, value: bool)
    opens_invariants none
    no_unwind
{
    flag.store(value, Ordering::Relaxed)
}

/// `Receiver::try_recv`: whatever the channel holds at this moment.
pub assume_specification<T>[ mpsc::Receiver::<T>::try_recv ](rx: &mpsc::Receiver<T>) -> Result<
    T,
    mpsc::TryRecvError,
>;

/// `Instant::now`: the present moment.
pub assume_specification[ Instant::now ]() -> Instant;

/// `Instant::elapsed`: the time from then to now.
pub assume_specification[ Instant::elapsed ](instant: &Instant) -> Duration;

/// The length of a duration in nanoseconds.
pub uninterp spec fn duration_nanos(duration: Duration) -> nat;

/// `Duration::as_nanos`: the length of the duration in nanoseconds.
pub assume_specification[ Duration::as_nanos ](duration: &Duration) -> (r: u128)
    ensures
        r == duration_nanos(*duration),
;

/// `Duration::from_secs`: a duration of so many seconds.
pub assume_specification[ Duration::from_secs ](secs: u64) -> (r: Duration)
    ensures
        duration_nanos(r) == secs * 1_000_000_000,
;

} // verus!
