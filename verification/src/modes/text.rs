//! Reading the text of a command: splitting it into words at white space, and
//! reading unsigned decimal numbers.

use vstd::prelude::*;

verus! {

/// `c` is white space in Unicode's sense, the property `char::is_whitespace`
/// and `str::split_whitespace` go by.
pub open spec fn is_white_space(c: char) -> bool {
    let u = c as u32;
    ||| 0x09 <= u <= 0x0D
    ||| u == 0x20
    ||| u == 0x85
    ||| u == 0xA0
    ||| u == 0x1680
    ||| 0x2000 <= u <= 0x200A
    ||| u == 0x2028
    ||| u == 0x2029
    ||| u == 0x202F
    ||| u == 0x205F
    ||| u == 0x3000
}

/// The word at the start of `s`: its longest prefix without white space.
pub open spec fn first_word(s: Seq<char>) -> Seq<char>
    decreases s.len(),
{
    if s.len() == 0 || is_white_space(s[0]) {
        Seq::empty()
    } else {
        seq![s[0]] + first_word(s.drop_first())
    }
}

/// The words of `s`, in order: its maximal runs of characters that are not
/// white space.
pub open spec fn words(s: Seq<char>) -> Seq<Seq<char>>
    decreases s.len(),
{
    if s.len() == 0 {
        Seq::empty()
    } else if is_white_space(s[0]) {
        words(s.drop_first())
    } else {
        let w = first_word(s);
        proof {
            lemma_first_word(s);
        }
        seq![w] + words(s.skip(w.len() as int))
    }
}

/// The first word of `s` is the prefix of `s` up to its first white space.
pub proof fn lemma_first_word(s: Seq<char>)
    ensures
        first_word(s).len() <= s.len(),
        first_word(s) == s.take(first_word(s).len() as int),
        forall|i: int| 0 <= i < first_word(s).len() ==> !is_white_space(#[trigger] s[i]),
        first_word(s).len() < s.len() ==> is_white_space(s[first_word(s).len() as int]),
        s.len() > 0 && !is_white_space(s[0]) ==> first_word(s).len() > 0,
    decreases s.len(),
{
    if s.len() > 0 && !is_white_space(s[0]) {
        let rest = s.drop_first();
        lemma_first_word(rest);
        assert forall|i: int| 0 <= i < first_word(s).len() implies !is_white_space(
            #[trigger] s[i],
        ) by {
            if i > 0 {
                assert(s[i] == rest[i - 1]);
            }
        }
    }
}

/// Every character of `s` is white space.
pub open spec fn all_white_space(s: Seq<char>) -> bool {
    forall|i: int| 0 <= i < s.len() ==> is_white_space(#[trigger] s[i])
}

/// White space in front of a text leaves its words as they are.
proof fn lemma_words_skip_leading(pre: Seq<char>, s: Seq<char>)
    requires
        all_white_space(pre),
    ensures
        words(pre + s) == words(s),
    decreases pre.len(),
{
    if pre.len() > 0 {
        assert((pre + s)[0] == pre[0]);
        assert((pre + s).drop_first() =~= pre.drop_first() + s);
        lemma_words_skip_leading(pre.drop_first(), s);
    } else {
        assert(pre + s =~= s);
    }
}

/// The first word of a text does not reach into white space that follows it.
proof fn lemma_first_word_append(s: Seq<char>, post: Seq<char>)
    requires
        post.len() == 0 || is_white_space(post[0]),
    ensures
        first_word(s + post) == first_word(s),
    decreases s.len(),
{
    if s.len() == 0 {
        assert(s + post =~= post);
    } else {
        assert((s + post)[0] == s[0]);
        if !is_white_space(s[0]) {
            assert((s + post).drop_first() =~= s.drop_first() + post);
            lemma_first_word_append(s.drop_first(), post);
        }
    }
}

/// White space around a text leaves its words as they are: a line reads the
/// same with or without blanks at either end.
pub proof fn lemma_words_ignore_surrounding_white_space(
    pre: Seq<char>,
    s: Seq<char>,
    post: Seq<char>,
)
    requires
        all_white_space(pre),
        all_white_space(post),
    ensures
        words(pre + s + post) == words(s),
    decreases s.len(),
{
    lemma_words_skip_leading(pre, s + post);
    assert(pre + s + post =~= pre + (s + post));
    if s.len() == 0 {
        lemma_words_skip_leading(post, s);
        assert(post + s =~= s + post);
    } else if is_white_space(s[0]) {
        assert((s + post)[0] == s[0]);
        assert((s + post).drop_first() =~= s.drop_first() + post);
        lemma_words_ignore_surrounding_white_space(Seq::empty(), s.drop_first(), post);
        assert(Seq::<char>::empty() + s.drop_first() + post =~= s.drop_first() + post);
    } else {
        assert((s + post)[0] == s[0]);
        lemma_first_word_append(s, post);
        lemma_first_word(s);
        let rest = s.skip(first_word(s).len() as int);
        assert((s + post).skip(first_word(s).len() as int) =~= rest + post);
        lemma_words_ignore_surrounding_white_space(Seq::empty(), rest, post);
        assert(Seq::<char>::empty() + rest + post =~= rest + post);
    }
}

/// `c` is one of the digits `0` to `9`.
pub open spec fn is_digit(c: char) -> bool {
    '0' <= c <= '9'
}

/// The number that a string of decimal digits writes.
pub open spec fn digits_value(s: Seq<char>) -> nat
    decreases s.len(),
{
    if s.len() == 0 {
        0
    } else {
        digits_value(s.drop_last()) * 10 + (s.last() as nat - '0' as nat) as nat
    }
}

/// `s` without a leading `+`.
pub open spec fn unsigned_part(s: Seq<char>) -> Seq<char> {
    if s.len() > 0 && s[0] == '+' {
        s.drop_first()
    } else {
        s
    }
}

/// Every character of `s` is a digit.
pub open spec fn all_digits(s: Seq<char>) -> bool {
    forall|i: int| 0 <= i < s.len() ==> is_digit(#[trigger] s[i])
}

/// The `u64` that `s` writes in decimal, as `str::parse::<u64>` reads it: an
/// optional `+`, then at least one digit and nothing else, the value at most
/// `u64::MAX`. `None` for anything else.
pub open spec fn u64_from_decimal(s: Seq<char>) -> Option<u64> {
    let digits = unsigned_part(s);
    if digits.len() > 0 && all_digits(digits) && digits_value(digits) <= u64::MAX {
        Some(digits_value(digits) as u64)
    } else {
        None
    }
}

/// Reads `s` as `str::parse::<u64>` does; see `u64_from_decimal`.
pub fn parse_u64(s: &str) -> (n: Option<u64>)
    ensures
        n == u64_from_decimal(s@),
{
    let chars = chars_of(s);
    let len = chars.len();
    let start: usize = if len > 0 && chars[0] == '+' { 1 } else { 0 };
    let ghost digits = unsigned_part(s@);
    if start == len {
        return None;
    }
    let mut value: u64 = 0;
    let mut overflow = false;
    let mut i = start;
    while i < len
        invariant
            start <= i <= len,
            len == chars.len(),
            chars@ == s@,
            digits == unsigned_part(s@),
            digits == chars@.skip(start as int),
            forall|j: int| 0 <= j < i - start ==> is_digit(#[trigger] digits[j]),
            !overflow ==> value == digits_value(digits.take(i - start)),
            overflow ==> digits_value(digits.take(i - start)) > u64::MAX,
        decreases len - i,
    {
        let c = chars[i];
        if !('0' <= c && c <= '9') {
            assert(!is_digit(digits[i - start]));
            return None;
        }
        let d = (c as u32 - '0' as u32) as u64;
        let ghost k = i - start;
        assert(digits.take(k + 1).drop_last() =~= digits.take(k));
        if !overflow {
            if value > (u64::MAX - d) / 10 {
                overflow = true;
            } else {
                value = value * 10 + d;
            }
        }
        i += 1;
    }
    assert(digits.take(len - start) =~= digits);
    if overflow {
        None
    } else {
        Some(value)
    }
}

/// Whether `c` is white space, as `is_white_space` says.
pub fn char_is_white_space(c: char) -> (b: bool)
    ensures
        b == is_white_space(c),
{
    let u = c as u32;
    (0x09 <= u && u <= 0x0D) || u == 0x20 || u == 0x85 || u == 0xA0 || u == 0x1680 || (0x2000 <= u
        && u <= 0x200A) || u == 0x2028 || u == 0x2029 || u == 0x202F || u == 0x205F || u == 0x3000
}

/// The words that `spans`, a list of (start, end) positions, mark in `s`.
pub open spec fn spans_view(s: Seq<char>, spans: Seq<(usize, usize)>) -> Seq<Seq<char>> {
    spans.map_values(|r: (usize, usize)| s.subrange(r.0 as int, r.1 as int))
}

/// Finds the words of `chars`: for each, where it starts and where it ends.
pub fn word_spans(chars: &Vec<char>) -> (spans: Vec<(usize, usize)>)
    ensures
        spans_view(chars@, spans@) == words(chars@),
        forall|k: int| 0 <= k < spans.len() ==> (#[trigger] spans[k]).0 < spans[k].1 <= chars.len(),
{
    let mut spans: Vec<(usize, usize)> = Vec::new();
    let mut i: usize = 0;
    assert(chars@.skip(0) =~= chars@);
    while i < chars.len()
        invariant
            i <= chars.len(),
            words(chars@) == spans_view(chars@, spans@) + words(chars@.skip(i as int)),
            forall|k: int|
                0 <= k < spans.len() ==> (#[trigger] spans[k]).0 < spans[k].1 <= chars.len(),
        decreases chars.len() - i,
    {
        let ghost rest = chars@.skip(i as int);
        if char_is_white_space(chars[i]) {
            assert(rest.drop_first() =~= chars@.skip(i + 1));
            i += 1;
        } else {
            let start = i;
            proof {
                lemma_first_word(rest);
            }
            while i < chars.len() && !char_is_white_space(chars[i])
                invariant
                    start <= i <= chars.len(),
                    rest == chars@.skip(start as int),
                    first_word(rest) == chars@.subrange(start as int, i as int) + first_word(
                        chars@.skip(i as int),
                    ),
                decreases chars.len() - i,
            {
                let ghost here = chars@.skip(i as int);
                assert(here.drop_first() =~= chars@.skip(i + 1));
                i += 1;
            }
            let ghost w = first_word(rest);
            assert(rest.skip(w.len() as int) =~= chars@.skip(i as int));
            spans.push((start, i));
        }
    }
    spans
}

/// The characters of `s`, in order.
pub fn chars_of(s: &str) -> (chars: Vec<char>)
    ensures
        chars@ == s@,
{
    let mut chars: Vec<char> = Vec::new();
    for c in it: s.chars()
        invariant
            chars@ == it.seq().take(it.index()),
    {
        chars.push(c);
    }
    chars
}

/// What `str::to_lowercase` returns for a string of these characters.
pub uninterp spec fn lowercase(s: Seq<char>) -> Seq<char>;

/// Every character of `s` is ASCII.
pub open spec fn all_ascii(s: Seq<char>) -> bool {
    forall|i: int| 0 <= i < s.len() ==> (#[trigger] s[i] as u32) < 128
}

/// `s` with its ASCII capital letters made small.
pub open spec fn ascii_lowercase(s: Seq<char>) -> Seq<char> {
    s.map_values(|c: char| if 'A' <= c <= 'Z' { ((c as u32) + 32) as char } else { c })
}

/// Calls `str::to_lowercase`. Claimed: the result depends on the characters
/// of `s` alone (the name `lowercase`), and on ASCII text it lowers the
/// capital letters `A` to `Z` and keeps every other character, as Unicode's
/// mapping does there. The mapping of other characters is not stated.
#[verifier::external_body]
pub(crate) fn to_lowercase(s: &str) -> (lower: String)
    ensures
        lower@ == lowercase(s@),
        all_ascii(s@) ==> lower@ == ascii_lowercase(s@),
{
    s.to_lowercase()
}

} // verus!
