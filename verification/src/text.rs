//! Small operations on text: trimming, splitting into words, joining, numbers
//! in decimal.

use vstd::prelude::*;
use vstd::string::*;

use crate::outside;

verus! {

/// The text without the white space at its two ends.
pub open spec fn trimmed(s: Seq<char>) -> Seq<char>
    decreases s.len(),
{
    if s.len() > 0 && outside::white_space(s.first()) {
        trimmed(s.drop_first())
    } else if s.len() > 0 && outside::white_space(s.last()) {
        trimmed(s.drop_last())
    } else {
        s
    }
}

/// White space on the left falls away.
proof fn lemma_trimmed_left(s: Seq<char>, n: int)
    requires
        0 <= n <= s.len(),
        forall|i: int| 0 <= i < n ==> outside::white_space(s[i]),
    ensures
        trimmed(s) == trimmed(s.skip(n)),
    decreases n,
{
    if n > 0 {
        assert(s.drop_first().skip(n - 1) =~= s.skip(n));
        lemma_trimmed_left(s.drop_first(), n - 1);
    } else {
        assert(s.skip(0) =~= s);
    }
}

/// White space on the right falls away behind a character that stays.
proof fn lemma_trimmed_right(s: Seq<char>, n: int)
    requires
        0 < n <= s.len(),
        !outside::white_space(s[0]),
        !outside::white_space(s[n - 1]),
        forall|i: int| n <= i < s.len() ==> outside::white_space(s[i]),
    ensures
        trimmed(s) == s.take(n),
    decreases s.len(),
{
    if n < s.len() {
        assert(s.drop_last().take(n) =~= s.take(n));
        lemma_trimmed_right(s.drop_last(), n);
    } else {
        assert(s.take(n) =~= s);
    }
}

/// Trimming cuts white space off the two ends and nothing else: what is left is
/// a part of the text, all that stands before and behind it is white space, and
/// neither its first nor its last character is.
pub proof fn lemma_trimmed(s: Seq<char>) -> (r: (int, int))
    ensures
        0 <= r.0 <= r.1 <= s.len(),
        trimmed(s) == s.subrange(r.0, r.1),
        forall|i: int| 0 <= i < r.0 ==> outside::white_space(#[trigger] s[i]),
        forall|i: int| r.1 <= i < s.len() ==> outside::white_space(#[trigger] s[i]),
        r.0 < r.1 ==> !outside::white_space(s[r.0]) && !outside::white_space(s[r.1 - 1]),
    decreases s.len(),
{
    if s.len() > 0 && outside::white_space(s.first()) {
        let rest = s.drop_first();
        let r = lemma_trimmed(rest);
        assert(s.subrange(r.0 + 1, r.1 + 1) =~= rest.subrange(r.0, r.1));
        assert forall|i: int| 0 <= i < r.0 + 1 implies outside::white_space(#[trigger] s[i]) by {
            if i > 0 {
                assert(rest[i - 1] == s[i]);
            }
        }
        assert forall|i: int| r.1 + 1 <= i < s.len() implies outside::white_space(
            #[trigger] s[i],
        ) by {
            assert(rest[i - 1] == s[i]);
        }
        (r.0 + 1, r.1 + 1)
    } else if s.len() > 0 && outside::white_space(s.last()) {
        let rest = s.drop_last();
        let r = lemma_trimmed(rest);
        assert(s.subrange(r.0, r.1) =~= rest.subrange(r.0, r.1));
        assert forall|i: int| 0 <= i < r.0 implies outside::white_space(#[trigger] s[i]) by {
            assert(rest[i] == s[i]);
        }
        assert forall|i: int| r.1 <= i < s.len() implies outside::white_space(#[trigger] s[i]) by {
            if i < rest.len() {
                assert(rest[i] == s[i]);
            }
        }
        r
    } else {
        assert(s.subrange(0, s.len() as int) =~= s);
        (0, s.len() as int)
    }
}

/// Trimming leaves no white space at either end.
pub proof fn lemma_trimmed_ends(s: Seq<char>)
    ensures
        trimmed(s).len() > 0 ==> !outside::white_space(trimmed(s).first()) && !outside::white_space(
            trimmed(s).last(),
        ),
        trimmed(s).len() <= s.len(),
    decreases s.len(),
{
    if s.len() > 0 && outside::white_space(s.first()) {
        lemma_trimmed_ends(s.drop_first());
    } else if s.len() > 0 && outside::white_space(s.last()) {
        lemma_trimmed_ends(s.drop_last());
    }
}

/// Trimming twice is trimming once.
pub proof fn lemma_trimmed_idempotent(s: Seq<char>)
    ensures
        trimmed(trimmed(s)) == trimmed(s),
{
    lemma_trimmed_ends(s);
}

/// Cuts the white space off both ends of the text.
pub fn trim(s: &str) -> (r: &str)
    ensures
        r@ == trimmed(s@),
{
    let n: usize = s.unicode_len();
    let mut first: usize = n;
    let mut end: usize = n;
    let mut i: usize = 0;
    for c in it: s.chars()
        invariant
            it.seq() == s@,
            n == s@.len(),
            i == it.index(),
            first == n ==> forall|j: int| 0 <= j < i ==> outside::white_space(s@[j]),
            first != n ==> {
                &&& first < end <= i
                &&& !outside::white_space(s@[first as int])
                &&& !outside::white_space(s@[end - 1])
                &&& forall|j: int| 0 <= j < first ==> outside::white_space(s@[j])
                &&& forall|j: int| end <= j < i ==> outside::white_space(s@[j])
            },
            first == n ==> end == n,
            first <= n,
    {
        if !c.is_whitespace() {
            if first == n {
                first = i;
            }
            end = i + 1;
        }
        i = i + 1;
    }
    proof {
        lemma_trimmed_left(s@, first as int);
        if first < n {
            lemma_trimmed_right(s@.skip(first as int), end - first);
            assert(s@.skip(first as int).take(end - first) =~= s@.subrange(
                first as int,
                end as int,
            ));
        } else {
            assert(s@.skip(first as int) =~= s@.subrange(first as int, end as int));
        }
    }
    s.substring_char(first, end)
}

/// Where the word that ends before `end` starts.
pub open spec fn word_start(s: Seq<char>, end: int) -> int
    decreases end,
{
    if 0 < end <= s.len() && !outside::white_space(s[end - 1]) {
        word_start(s, end - 1)
    } else {
        end
    }
}

proof fn lemma_word_start(s: Seq<char>, start: int, end: int)
    requires
        0 <= start <= end <= s.len(),
        start == 0 || outside::white_space(s[start - 1]),
        forall|i: int| start <= i < end ==> !outside::white_space(s[i]),
    ensures
        word_start(s, end) == start,
    decreases end,
{
    if start < end {
        lemma_word_start(s, start, end - 1);
    }
}

proof fn lemma_word_start_bound(s: Seq<char>, end: int)
    requires
        0 <= end <= s.len(),
    ensures
        0 <= word_start(s, end) <= end,
    decreases end,
{
    if 0 < end && !outside::white_space(s[end - 1]) {
        lemma_word_start_bound(s, end - 1);
    }
}

/// The words of the text: what stands between white space, in order.
pub open spec fn words(s: Seq<char>) -> Seq<Seq<char>>
    decreases s.len(),
{
    if s.len() == 0 {
        seq![]
    } else if outside::white_space(s.last()) {
        words(s.drop_last())
    } else {
        let start = word_start(s, s.len() as int);
        if 0 <= start < s.len() {
            words(s.take(start)).push(s.skip(start))
        } else {
            seq![]
        }
    }
}

/// A text that is not empty and holds no white space.
pub open spec fn is_word(s: Seq<char>) -> bool {
    &&& s.len() > 0
    &&& forall|i: int| 0 <= i < s.len() ==> !outside::white_space(#[trigger] s[i])
}

/// No word is empty, and none holds white space.
pub proof fn lemma_words_are_words(s: Seq<char>)
    ensures
        forall|i: int| 0 <= i < words(s).len() ==> is_word(#[trigger] words(s)[i]),
    decreases s.len(),
{
    if s.len() > 0 {
        if outside::white_space(s.last()) {
            lemma_words_are_words(s.drop_last());
            assert(words(s) == words(s.drop_last()));
        } else {
            let start = word_start(s, s.len() as int);
            lemma_word_start_bound(s, s.len() as int);
            lemma_word_start_strict(s, s.len() as int);
            lemma_words_are_words(s.take(start));
            assert(is_word(s.skip(start)));
            assert(words(s) == words(s.take(start)).push(s.skip(start)));
        }
    } else {
        assert(words(s).len() == 0);
    }
}

proof fn lemma_word_start_strict(s: Seq<char>, end: int)
    requires
        0 <= end <= s.len(),
    ensures
        forall|i: int| word_start(s, end) <= i < end ==> !outside::white_space(s[i]),
        0 < end && !outside::white_space(s[end - 1]) ==> word_start(s, end) < end,
    decreases end,
{
    if 0 < end && !outside::white_space(s[end - 1]) {
        lemma_word_start_strict(s, end - 1);
        lemma_word_start_bound(s, end - 1);
    }
}

/// The words stand in the text, in order, each between white space or an end of
/// the text, and every character that is not white space is in one of them.
pub proof fn lemma_words(s: Seq<char>) -> (at: Seq<int>)
    ensures
        at.len() == words(s).len(),
        forall|i: int|
            0 <= i < at.len() ==> {
                let end = #[trigger] at[i] + words(s)[i].len();
                &&& 0 <= at[i] < end <= s.len()
                &&& words(s)[i] == s.subrange(at[i], end)
                &&& at[i] == 0 || outside::white_space(s[at[i] - 1])
                &&& end == s.len() || outside::white_space(s[end])
                &&& forall|k: int| at[i] <= k < end ==> !outside::white_space(s[k])
            },
        forall|i: int, j: int| 0 <= i < j < at.len() ==> #[trigger] at[i] < #[trigger] at[j],
        forall|k: int|
            0 <= k < s.len() && !outside::white_space(#[trigger] s[k]) ==> exists|i: int|
                0 <= i < at.len() && #[trigger] at[i] <= k < at[i] + words(s)[i].len(),
    decreases s.len(),
{
    if s.len() == 0 {
        seq![]
    } else {
        let white = outside::white_space(s.last());
        let start = if white {
            s.len() - 1
        } else {
            word_start(s, s.len() as int)
        };
        lemma_word_start_bound(s, s.len() as int);
        lemma_word_start_strict(s, s.len() as int);
        lemma_word_start_left(s, s.len() as int);
        let rest = s.take(start);
        assert(s.drop_last() =~= s.take(s.len() - 1));
        let before = lemma_words(rest);
        let at = if white {
            before
        } else {
            before.push(start)
        };
        assert(words(s) == if white {
            words(rest)
        } else {
            words(rest).push(s.skip(start))
        });
        assert(forall|k: int| 0 <= k < rest.len() ==> rest[k] == s[k]);
        assert forall|i: int| 0 <= i < at.len() implies {
            let end = #[trigger] at[i] + words(s)[i].len();
            &&& 0 <= at[i] < end <= s.len()
            &&& words(s)[i] == s.subrange(at[i], end)
            &&& at[i] == 0 || outside::white_space(s[at[i] - 1])
            &&& end == s.len() || outside::white_space(s[end])
            &&& forall|k: int| at[i] <= k < end ==> !outside::white_space(s[k])
        } by {
            if i < before.len() {
                assert(at[i] == before[i]);
                assert(words(s)[i] == words(rest)[i]);
                let end = at[i] + words(s)[i].len();
                assert(rest.subrange(at[i], end) =~= s.subrange(at[i], end));
                if end == rest.len() && !white {
                    assert(!outside::white_space(rest[end - 1]));
                    assert(!outside::white_space(s[start - 1]));
                }
            } else {
                assert(s.skip(start) =~= s.subrange(start, s.len() as int));
            }
        }
        assert forall|i: int, j: int| 0 <= i < j < at.len() implies #[trigger] at[i]
            < #[trigger] at[j] by {
            assert(at[i] == before[i]);
            assert(words(s)[i] == words(rest)[i]);
            if j < before.len() {
                assert(at[j] == before[j]);
            }
        }
        assert forall|k: int| 0 <= k < s.len() && !outside::white_space(#[trigger] s[k]) implies exists|
            i: int,
        | 0 <= i < at.len() && #[trigger] at[i] <= k < at[i] + words(s)[i].len() by {
            if k < start {
                assert(rest[k] == s[k]);
                let i = choose|i: int|
                    0 <= i < before.len() && #[trigger] before[i] <= k < before[i]
                        + words(rest)[i].len();
                assert(at[i] == before[i]);
                assert(words(s)[i] == words(rest)[i]);
            } else {
                assert(at[before.len() as int] == start);
            }
        }
        at
    }
}

/// A word starts at the start of the text or behind white space.
proof fn lemma_word_start_left(s: Seq<char>, end: int)
    requires
        0 <= end <= s.len(),
    ensures
        word_start(s, end) == 0 || outside::white_space(s[word_start(s, end) - 1]),
    decreases end,
{
    if 0 < end && !outside::white_space(s[end - 1]) {
        lemma_word_start_left(s, end - 1);
    }
}

/// The texts are those of the strings, one for each, in order.
pub proof fn lemma_texts(strings: Seq<String>)
    ensures
        texts(strings).len() == strings.len(),
        forall|i: int| 0 <= i < strings.len() ==> #[trigger] texts(strings)[i] == strings[i]@,
{
}

/// The texts of a list of strings.
pub open spec fn texts(strings: Seq<String>) -> Seq<Seq<char>> {
    strings.map_values(|s: String| s@)
}

/// Splits the text at white space.
pub fn split_whitespace(s: &str) -> (r: Vec<String>)
    ensures
        texts(r@) == words(s@),
{
    let mut r: Vec<String> = Vec::new();
    let mut in_word: bool = false;
    let mut start: usize = 0;
    let mut i: usize = 0;
    let n: usize = s.unicode_len();
    assert(s@.take(0) =~= Seq::<char>::empty());
    assert(texts(r@) =~= Seq::<Seq<char>>::empty());
    for c in it: s.chars()
        invariant
            it.seq() == s@,
            n == s@.len(),
            i == it.index(),
            !in_word ==> texts(r@) == words(s@.take(i as int)) && (i == 0 || outside::white_space(
                s@[i - 1],
            )),
            in_word ==> {
                &&& start < i
                &&& start == 0 || outside::white_space(s@[start - 1])
                &&& forall|j: int| start <= j < i ==> !outside::white_space(s@[j])
                &&& texts(r@) == words(s@.take(start as int))
            },
    {
        let ghost prefix = s@.take(i + 1);
        assert(prefix.drop_last() =~= s@.take(i as int));
        assert(prefix.last() == c);
        if c.is_whitespace() {
            if in_word {
                let word: &str = s.substring_char(start, i);
                proof {
                    let before = s@.take(i as int);
                    lemma_word_start(before, start as int, i as int);
                    assert(before.take(start as int) =~= s@.take(start as int));
                    assert(before.skip(start as int) =~= word@);
                    assert(before.last() == s@[i - 1]);
                    assert(words(before) == words(before.take(start as int)).push(word@));
                }
                let ghost old_r = r@;
                r.push(word.to_owned());
                assert(texts(r@) =~= texts(old_r).push(word@));
                in_word = false;
            }
        } else if !in_word {
            in_word = true;
            start = i;
        }
        i = i + 1;
    }
    assert(s@.take(n as int) =~= s@);
    if in_word {
        let word: &str = s.substring_char(start, n);
        proof {
            lemma_word_start(s@, start as int, n as int);
            assert(s@.skip(start as int) =~= word@);
        }
        let ghost old_r = r@;
        r.push(word.to_owned());
        assert(texts(r@) =~= texts(old_r).push(word@));
    }
    r
}

/// The parts one after another with the separator between each two.
pub open spec fn joined(parts: Seq<Seq<char>>, separator: Seq<char>) -> Seq<char>
    decreases parts.len(),
{
    if parts.len() == 0 {
        seq![]
    } else if parts.len() == 1 {
        parts[0]
    } else {
        joined(parts.drop_last(), separator) + separator + parts.last()
    }
}

/// Nothing is lost when parts are joined: the first part stands at the start, a
/// separator and the next part behind each part, and nothing behind the last.
pub proof fn lemma_joined(parts: Seq<Seq<char>>, separator: Seq<char>) -> (at: Seq<int>)
    ensures
        at.len() == parts.len(),
        parts.len() == 0 ==> joined(parts, separator).len() == 0,
        parts.len() > 0 ==> at[0] == 0 && joined(parts, separator).len() == at.last()
            + parts.last().len(),
        forall|i: int|
            0 <= i < at.len() ==> {
                let end = #[trigger] at[i] + parts[i].len();
                &&& 0 <= at[i] && end <= joined(parts, separator).len()
                &&& joined(parts, separator).subrange(at[i], end) == parts[i]
            },
        forall|i: int, j: int|
            0 <= i && j == i + 1 && j < at.len() ==> {
                let end = #[trigger] at[i] + parts[i].len();
                &&& #[trigger] at[j] == end + separator.len()
                &&& at[j] <= joined(parts, separator).len()
                &&& joined(parts, separator).subrange(end, at[j]) == separator
            },
    decreases parts.len(),
{
    let all = joined(parts, separator);
    if parts.len() == 0 {
        seq![]
    } else if parts.len() == 1 {
        assert(all.subrange(0, parts[0].len() as int) =~= parts[0]);
        seq![0]
    } else {
        let rest = parts.drop_last();
        let head = joined(rest, separator);
        let before = lemma_joined(rest, separator);
        let at = before.push((head.len() + separator.len()) as int);
        assert(all == head + separator + parts.last());
        assert forall|i: int| 0 <= i < at.len() implies {
            let end = #[trigger] at[i] + parts[i].len();
            &&& 0 <= at[i] && end <= all.len()
            &&& all.subrange(at[i], end) == parts[i]
        } by {
            let end = at[i] + parts[i].len();
            if i < before.len() {
                assert(at[i] == before[i]);
                assert(parts[i] == rest[i]);
                assert(all.subrange(at[i], end) =~= head.subrange(at[i], end));
            } else {
                assert(all.subrange(at[i], end) =~= parts[i]);
            }
        }
        assert forall|i: int, j: int| 0 <= i && j == i + 1 && j < at.len() implies {
            let end = #[trigger] at[i] + parts[i].len();
            &&& #[trigger] at[j] == end + separator.len()
            &&& at[j] <= all.len()
            &&& all.subrange(end, at[j]) == separator
        } by {
            let end = at[i] + parts[i].len();
            assert(at[i] == before[i]);
            assert(parts[i] == rest[i]);
            if j < before.len() {
                assert(at[j] == before[j]);
                assert(all.subrange(end, at[j]) =~= head.subrange(end, at[j]));
            } else {
                assert(end == head.len());
                assert(all.subrange(end, at[j]) =~= separator);
            }
        }
        at
    }
}

/// Puts the parts together with the separator between each two.
pub fn join(parts: &Vec<String>, separator: &str) -> (r: String)
    ensures
        r@ == joined(texts(parts@), separator@),
{
    let mut r: String = String::new();
    let ghost all = texts(parts@);
    assert(all.take(0) =~= Seq::<Seq<char>>::empty());
    for i in 0..parts.len()
        invariant
            all == texts(parts@),
            r@ == joined(all.take(i as int), separator@),
    {
        assert(all.take(i + 1).drop_last() =~= all.take(i as int));
        if i > 0 {
            r.append(separator);
        }
        r.append(parts[i].as_str());
        if i == 0 {
            assert(r@ =~= parts@[0]@);
        }
    }
    assert(all.take(parts@.len() as int) =~= all);
    r
}

/// The character of a decimal digit.
pub open spec fn digit(d: nat) -> char {
    if d == 0 {
        '0'
    } else if d == 1 {
        '1'
    } else if d == 2 {
        '2'
    } else if d == 3 {
        '3'
    } else if d == 4 {
        '4'
    } else if d == 5 {
        '5'
    } else if d == 6 {
        '6'
    } else if d == 7 {
        '7'
    } else if d == 8 {
        '8'
    } else {
        '9'
    }
}

/// The number in decimal.
pub open spec fn decimal(n: nat) -> Seq<char>
    decreases n,
{
    if n < 10 {
        seq![digit(n)]
    } else {
        decimal(n / 10).push(digit(n % 10))
    }
}

/// What a text of decimal digits stands for, each worth ten times the next.
pub open spec fn number_of(digits: Seq<char>) -> int
    decreases digits.len(),
{
    if digits.len() == 0 {
        0
    } else {
        number_of(digits.drop_last()) * 10 + (digits.last() as int - '0' as int)
    }
}

/// A number in decimal is made of digits alone, stands for the number, and has
/// no zero in front.
pub proof fn lemma_decimal(n: nat)
    ensures
        number_of(decimal(n)) == n,
        decimal(n).len() > 0,
        forall|i: int| 0 <= i < decimal(n).len() ==> '0' <= #[trigger] decimal(n)[i] <= '9',
        decimal(n).len() > 1 ==> decimal(n)[0] != '0',
        n > 0 ==> decimal(n)[0] != '0',
    decreases n,
{
    let all = decimal(n);
    if n < 10 {
        assert(all.drop_last() =~= Seq::<char>::empty());
        assert(number_of(Seq::<char>::empty()) == 0);
    } else {
        let rest = decimal(n / 10);
        lemma_decimal(n / 10);
        assert(all.drop_last() =~= rest);
        assert forall|i: int| 0 <= i < all.len() implies '0' <= #[trigger] all[i] <= '9' by {
            if i < rest.len() {
                assert(all[i] == rest[i]);
            }
        }
        assert(all[0] == rest[0]);
    }
}

fn digit_text(d: u64) -> (r: &'static str)
    requires
        d < 10,
    ensures
        r@ == seq![digit(d as nat)],
{
    proof {
        reveal_strlit("0");
        reveal_strlit("1");
        reveal_strlit("2");
        reveal_strlit("3");
        reveal_strlit("4");
        reveal_strlit("5");
        reveal_strlit("6");
        reveal_strlit("7");
        reveal_strlit("8");
        reveal_strlit("9");
    }
    let r: &'static str = if d == 0 {
        "0"
    } else if d == 1 {
        "1"
    } else if d == 2 {
        "2"
    } else if d == 3 {
        "3"
    } else if d == 4 {
        "4"
    } else if d == 5 {
        "5"
    } else if d == 6 {
        "6"
    } else if d == 7 {
        "7"
    } else if d == 8 {
        "8"
    } else {
        "9"
    };
    assert(r@ =~= seq![digit(d as nat)]);
    r
}

/// Writes the number in decimal.
pub fn decimal_text(n: u64) -> (r: String)
    ensures
        r@ == decimal(n as nat),
    decreases n,
{
    let mut r: String = if n < 10 {
        String::new()
    } else {
        decimal_text(n / 10)
    };
    r.append(digit_text(n % 10));
    assert(r@ =~= decimal(n as nat));
    r
}

} // verus!
