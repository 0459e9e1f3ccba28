//! Text as a sequence of characters: comparison, searching, trimming, joining
//! and the decimal rendering of integers.

use vstd::prelude::*;

verus! {

/// `String::push` appends one character and changes nothing before it.
pub assume_specification[ String::push ](s: &mut String, c: char)
    ensures
        final(s)@ == old(s)@.push(c),
;

/// What `str::to_lowercase` makes of a text.
pub uninterp spec fn lowercase(text: Seq<char>) -> Seq<char>;

/// Calls `str::to_lowercase`. The mapping is Unicode's and takes pages to
/// write down, so the result only has a name.
#[verifier::external_body]
pub(crate) fn to_lowercase(text: &str) -> (lowered: String)
    ensures
        lowered@ == lowercase(text@),
{
    text.to_lowercase()
}

/// Whether two texts hold the same characters.
pub fn same(a: &str, b: &str) -> (equal: bool)
    ensures
        equal == (a@ == b@),
{
    a.to_owned() == b.to_owned()
}

/// The characters of a text.
pub fn chars_of(text: &str) -> (chars: Vec<char>)
    ensures
        chars@ == text@,
{
    let mut chars: Vec<char> = Vec::new();
    for c in it: text.chars()
        invariant
            chars@ == it.seq().take(it.index() as int),
            it.seq() == text@,
    {
        chars.push(c);
    }
    chars
}

/// The text made of `chars[from..to]`.
pub fn string_of(chars: &Vec<char>, from: usize, to: usize) -> (text: String)
    requires
        from <= to <= chars@.len(),
    ensures
        text@ == chars@.subrange(from as int, to as int),
{
    let mut text = String::new();
    let mut i: usize = from;
    while i < to
        invariant
            from <= i <= to <= chars@.len(),
            text@ == chars@.subrange(from as int, i as int),
        decreases to - i,
    {
        text.push(chars[i]);
        i += 1;
    }
    text
}

// ---------------------------------------------------------------- white space

/// Unicode's White_Space property.
pub open spec fn is_space(c: char) -> bool {
    let code = c as u32;
    ||| 9 <= code <= 13
    ||| code == 0x20
    ||| code == 0x85
    ||| code == 0xa0
    ||| code == 0x1680
    ||| 0x2000 <= code <= 0x200a
    ||| code == 0x2028
    ||| code == 0x2029
    ||| code == 0x202f
    ||| code == 0x205f
    ||| code == 0x3000
}

/// Whether `c` has the White_Space property.
pub fn is_whitespace(c: char) -> (space: bool)
    ensures
        space == is_space(c),
{
    let code: u32 = c as u32;
    (9 <= code && code <= 13) || code == 0x20 || code == 0x85 || code == 0xa0 || code == 0x1680 || (
    0x2000 <= code && code <= 0x200a) || code == 0x2028 || code == 0x2029 || code == 0x202f || code
        == 0x205f || code == 0x3000
}

/// `text` without its leading white space.
pub open spec fn trimmed_start(text: Seq<char>) -> Seq<char>
    decreases text.len(),
{
    if text.len() > 0 && is_space(text[0]) {
        trimmed_start(text.skip(1))
    } else {
        text
    }
}

/// `text` without its trailing white space.
pub open spec fn trimmed_end(text: Seq<char>) -> Seq<char>
    decreases text.len(),
{
    if text.len() > 0 && is_space(text.last()) {
        trimmed_end(text.drop_last())
    } else {
        text
    }
}

/// `text` without the white space at either end.
pub open spec fn trimmed(text: Seq<char>) -> Seq<char> {
    trimmed_end(trimmed_start(text))
}

/// `text` without its leading white space.
pub fn trim_start(text: &str) -> (rest: &str)
    ensures
        rest@ == trimmed_start(text@),
{
    let chars = chars_of(text);
    let mut from: usize = 0;
    proof {
        assert(text@.skip(0) =~= text@);
    }
    while from < chars.len() && is_whitespace(chars[from])
        invariant
            from <= chars@.len(),
            chars@ == text@,
            trimmed_start(text@) == trimmed_start(text@.skip(from as int)),
        decreases chars@.len() - from,
    {
        proof {
            assert(text@.skip(from as int).skip(1) =~= text@.skip(from + 1));
        }
        from += 1;
    }
    proof {
        assert(text@.skip(from as int) =~= text@.subrange(from as int, text@.len() as int));
    }
    text.substring_char(from, chars.len())
}

/// `text` without its trailing white space.
pub fn trim_end(text: &str) -> (rest: &str)
    ensures
        rest@ == trimmed_end(text@),
{
    let chars = chars_of(text);
    let mut to: usize = chars.len();
    proof {
        assert(text@.take(to as int) =~= text@);
    }
    while to > 0 && is_whitespace(chars[to - 1])
        invariant
            to <= chars@.len(),
            chars@ == text@,
            trimmed_end(text@) == trimmed_end(text@.take(to as int)),
        decreases to,
    {
        proof {
            assert(text@.take(to as int).drop_last() =~= text@.take(to - 1));
        }
        to -= 1;
    }
    proof {
        assert(text@.take(to as int) =~= text@.subrange(0, to as int));
    }
    text.substring_char(0, to)
}

/// `text` without the white space at either end.
pub fn trim(text: &str) -> (rest: &str)
    ensures
        rest@ == trimmed(text@),
{
    trim_end(trim_start(text))
}

proof fn lemma_trimmed_start_fixed(text: Seq<char>)
    ensures
        trimmed_start(text).len() > 0 ==> !is_space(trimmed_start(text)[0]),
        trimmed_start(text).len() <= text.len(),
    decreases text.len(),
{
    if text.len() > 0 && is_space(text[0]) {
        lemma_trimmed_start_fixed(text.skip(1));
    }
}

proof fn lemma_trimmed_end_fixed(text: Seq<char>)
    ensures
        trimmed_end(text).len() > 0 ==> !is_space(trimmed_end(text).last()),
        trimmed_end(text).is_prefix_of(text),
    decreases text.len(),
{
    if text.len() > 0 && is_space(text.last()) {
        lemma_trimmed_end_fixed(text.drop_last());
    }
}

/// Trimmed text neither begins nor ends with white space, and trimming it
/// again changes nothing.
pub proof fn law_trimming_is_final(text: Seq<char>)
    ensures
        trimmed(text).len() > 0 ==> !is_space(trimmed(text)[0]) && !is_space(trimmed(text).last()),
        trimmed(trimmed(text)) == trimmed(text),
{
    lemma_trimmed_start_fixed(text);
    lemma_trimmed_end_fixed(trimmed_start(text));
}

// ------------------------------------------------------------------ searching

/// Trimming takes off the white space at the ends, and nothing else.
pub proof fn law_trimming_takes_off_white_space_alone(
    before: Seq<char>,
    text: Seq<char>,
    after: Seq<char>,
)
    requires
        forall|i: int| 0 <= i < before.len() ==> is_space(#[trigger] before[i]),
        forall|i: int| 0 <= i < after.len() ==> is_space(#[trigger] after[i]),
        text.len() > 0 ==> !is_space(text[0]) && !is_space(text.last()),
    ensures
        trimmed(before + text + after) == text,
    decreases before.len() + after.len(),
{
    let all = before + text + after;
    if before.len() > 0 {
        assert(all[0] == before[0]);
        assert(all.skip(1) =~= before.skip(1) + text + after);
        law_trimming_takes_off_white_space_alone(before.skip(1), text, after);
        assert(trimmed_start(all) == trimmed_start(all.skip(1)));
    } else if text.len() == 0 {
        assert(all =~= after);
        if after.len() > 0 {
            assert(all[0] == after[0]);
            assert(all.skip(1) =~= before + text + after.skip(1));
            law_trimming_takes_off_white_space_alone(before, text, after.skip(1));
        } else {
            assert(all =~= text);
        }
    } else {
        assert(all[0] == text[0]);
        assert(trimmed_start(all) == all);
        lemma_trimmed_end_of(text, after);
        assert(all =~= text + after);
    }
}

proof fn lemma_trimmed_end_of(text: Seq<char>, after: Seq<char>)
    requires
        forall|i: int| 0 <= i < after.len() ==> is_space(#[trigger] after[i]),
        text.len() > 0,
        !is_space(text.last()),
    ensures
        trimmed_end(text + after) == text,
    decreases after.len(),
{
    let all = text + after;
    if after.len() > 0 {
        assert(all.last() == after[after.len() - 1]);
        assert(all.drop_last() =~= text + after.drop_last());
        lemma_trimmed_end_of(text, after.drop_last());
    } else {
        assert(all =~= text);
    }
}

/// A text is found where it begins, when nothing before it holds its first character.
pub proof fn lemma_find_in(front: Seq<char>, needle: Seq<char>, rest: Seq<char>)
    requires
        needle.len() > 0,
        !front.contains(needle[0]),
    ensures
        find_in(front + needle + rest, needle) == Some(front.len()),
    decreases front.len(),
{
    let all = front + needle + rest;
    if front.len() > 0 {
        assert(front.contains(front[0]));
        if needle.is_prefix_of(all) {
            assert(all.subrange(0, needle.len() as int)[0] == needle[0]);
        }
        let less = front.skip(1);
        assert forall|i: int| 0 <= i < less.len() implies less[i] != needle[0] by {
            assert(front.contains(front[i + 1]));
        }
        assert(all.skip(1) =~= less + needle + rest);
        lemma_find_in(less, needle, rest);
    } else {
        assert(needle.is_prefix_of(all));
    }
}

/// A word is as long as it is up to the white space behind it.
pub proof fn lemma_word_length(word: Seq<char>, rest: Seq<char>, stop: Option<char>)
    requires
        forall|i: int| 0 <= i < word.len() ==> !is_space(#[trigger] word[i]),
        forall|i: int| 0 <= i < word.len() ==> stop != Some(#[trigger] word[i]),
        rest.len() > 0 ==> is_space(rest[0]) || stop == Some(rest[0]),
    ensures
        word_length(word + rest, stop) == word.len(),
    decreases word.len(),
{
    let all = word + rest;
    if word.len() > 0 {
        assert(all.skip(1) =~= word.skip(1) + rest);
        lemma_word_length(word.skip(1), rest, stop);
    } else {
        assert(all =~= rest);
    }
}

/// How many characters stand before the first `c`: all of them when there is
/// none.
pub open spec fn find(text: Seq<char>, c: char) -> nat
    decreases text.len(),
{
    if text.len() == 0 || text[0] == c {
        0
    } else {
        1 + find(text.skip(1), c)
    }
}

/// `find` stops at the first `c` and nowhere else.
pub proof fn lemma_find(text: Seq<char>, c: char)
    ensures
        find(text, c) <= text.len(),
        find(text, c) < text.len() ==> text[find(text, c) as int] == c,
        forall|i: int| 0 <= i < find(text, c) ==> text[i] != c,
    decreases text.len(),
{
    if text.len() > 0 && text[0] != c {
        lemma_find(text.skip(1), c);
        assert forall|i: int| 0 <= i < find(text, c) implies text[i] != c by {
            if i > 0 {
                assert(text.skip(1)[i - 1] == text[i]);
            }
        }
    }
}

/// A position that holds the first `c` is what `find` gives.
pub proof fn lemma_find_is(text: Seq<char>, c: char, at: int)
    requires
        0 <= at <= text.len(),
        at < text.len() ==> text[at] == c,
        forall|i: int| 0 <= i < at ==> text[i] != c,
    ensures
        find(text, c) == at,
{
    lemma_find(text, c);
    if find(text, c) < at {
        assert(text[find(text, c) as int] != c);
    }
}

/// The position of the first `c` in `chars`, or its length.
pub fn find_char(chars: &Vec<char>, c: char) -> (at: usize)
    ensures
        at == find(chars@, c),
        at <= chars@.len(),
{
    let mut i: usize = 0;
    while i < chars.len() && chars[i] != c
        invariant
            i <= chars@.len(),
            forall|k: int| 0 <= k < i ==> chars@[k] != c,
        decreases chars@.len() - i,
    {
        i += 1;
    }
    proof {
        lemma_find_is(chars@, c, i as int);
    }
    i
}

/// What stands before and after the first `c`, when there is one.
pub open spec fn split_once_at(text: Seq<char>, c: char) -> Option<(Seq<char>, Seq<char>)> {
    let at = find(text, c) as int;
    if at < text.len() {
        Some((text.take(at), text.skip(at + 1)))
    } else {
        None
    }
}

/// What stands before and after the first `c`, when there is one.
pub fn split_once(text: &str, c: char) -> (parts: Option<(&str, &str)>)
    ensures
        match split_once_at(text@, c) {
            Some((before, after)) => parts matches Some((b, a)) && b@ == before && a@ == after,
            None => parts is None,
        },
{
    let chars = chars_of(text);
    let at: usize = find_char(&chars, c);
    if at < chars.len() {
        proof {
            assert(text@.take(at as int) =~= text@.subrange(0, at as int));
            assert(text@.skip(at + 1) =~= text@.subrange(at + 1, text@.len() as int));
        }
        Some((text.substring_char(0, at), text.substring_char(at + 1, chars.len())))
    } else {
        None
    }
}

/// Whether `text` begins with `prefix`.
pub fn starts_with(text: &str, prefix: &str) -> (yes: bool)
    ensures
        yes == prefix@.is_prefix_of(text@),
{
    let n: usize = prefix.unicode_len();
    if n > text.unicode_len() {
        false
    } else {
        same(text.substring_char(0, n), prefix)
    }
}

/// What follows `prefix` at the beginning of `text`.
pub open spec fn without_prefix(text: Seq<char>, prefix: Seq<char>) -> Option<Seq<char>> {
    if prefix.is_prefix_of(text) {
        Some(text.skip(prefix.len() as int))
    } else {
        None
    }
}

/// What follows `prefix` at the beginning of `text`.
pub fn strip_prefix<'a>(text: &'a str, prefix: &str) -> (rest: Option<&'a str>)
    ensures
        match without_prefix(text@, prefix@) {
            Some(after) => rest matches Some(r) && r@ == after,
            None => rest is None,
        },
{
    if starts_with(text, prefix) {
        proof {
            assert(text@.skip(prefix@.len() as int) =~= text@.subrange(
                prefix@.len() as int,
                text@.len() as int,
            ));
        }
        Some(text.substring_char(prefix.unicode_len(), text.unicode_len()))
    } else {
        None
    }
}

/// Where `needle` first occurs in `text`.
pub open spec fn find_in(text: Seq<char>, needle: Seq<char>) -> Option<nat>
    decreases text.len(),
{
    if needle.is_prefix_of(text) {
        Some(0)
    } else if text.len() == 0 {
        None
    } else {
        match find_in(text.skip(1), needle) {
            Some(at) => Some(at + 1),
            None => None,
        }
    }
}

/// Where `needle` first occurs in `text`, counted in characters.
pub fn find_str(text: &str, needle: &str) -> (at: Option<usize>)
    ensures
        match find_in(text@, needle@) {
            Some(n) => at == Some(n as usize),
            None => at is None,
        },
        at matches Some(n) ==> find_in(text@, needle@) == Some(n as nat) && n + needle@.len()
            <= text@.len() <= usize::MAX,
{
    let n: usize = text.unicode_len();
    let m: usize = needle.unicode_len();
    let mut at: usize = 0;
    proof {
        assert(text@.skip(0) =~= text@);
    }
    while at < n
        invariant
            n == text@.len(),
            m == needle@.len(),
            at <= n,
            find_in(text@, needle@) == (match find_in(text@.skip(at as int), needle@) {
                Some(k) => Some(k + at as nat),
                None => None,
            }),
        decreases n - at,
    {
        proof {
            assert(text@.skip(at as int).skip(1) =~= text@.skip(at + 1));
        }
        if m <= n - at && same(text.substring_char(at, at + m), needle) {
            proof {
                assert(needle@ =~= text@.skip(at as int).subrange(0, m as int));
            }
            return Some(at);
        }
        proof {
            let rest = text@.skip(at as int);
            if needle@.is_prefix_of(rest) {
                assert(rest.subrange(0, m as int) =~= text@.subrange(at as int, at + m));
            }
        }
        at += 1;
    }
    if m == 0 {
        proof {
            assert(needle@ =~= text@.skip(at as int).subrange(0, 0));
        }
        Some(at)
    } else {
        None
    }
}

/// `text` with every `from`, read from the left, replaced by `to`.
pub open spec fn replaced(text: Seq<char>, from: Seq<char>, to: Seq<char>) -> Seq<char>
    decreases text.len(),
{
    if text.len() == 0 || from.len() == 0 {
        text
    } else if from.is_prefix_of(text) {
        to + replaced(text.skip(from.len() as int), from, to)
    } else {
        seq![text[0]] + replaced(text.skip(1), from, to)
    }
}

/// `text` with every `from`, read from the left, replaced by `to`.
pub fn replace(text: &str, from: &str, to: &str) -> (changed: String)
    requires
        from@.len() > 0,
    ensures
        changed@ == replaced(text@, from@, to@),
{
    let chars = chars_of(text);
    let ghost all = chars@;
    let m: usize = from.unicode_len();
    let mut changed = String::new();
    let mut i: usize = 0;
    proof {
        assert(all.skip(0) =~= all);
        assert(changed@ + replaced(all, from@, to@) =~= replaced(all, from@, to@));
    }
    while i < chars.len()
        invariant
            i <= chars@.len(),
            all == chars@,
            all == text@,
            m == from@.len(),
            m > 0,
            changed@ + replaced(all.skip(i as int), from@, to@) == replaced(all, from@, to@),
        decreases chars@.len() - i,
    {
        let ghost rest = all.skip(i as int);
        let ghost had = changed@;
        if m <= chars.len() - i && same(text.substring_char(i, i + m), from) {
            proof {
                assert(from@ =~= rest.subrange(0, m as int));
                assert(rest.skip(m as int) =~= all.skip(i + m));
            }
            changed.append(to);
            i += m;
            proof {
                let later = replaced(all.skip(i as int), from@, to@);
                assert(had + (to@ + later) =~= changed@ + later);
            }
        } else {
            proof {
                if from@.is_prefix_of(rest) {
                    assert(rest.subrange(0, m as int) =~= all.subrange(i as int, i + m));
                }
                assert(rest.skip(1) =~= all.skip(i + 1));
            }
            changed.push(chars[i]);
            i += 1;
            proof {
                let later = replaced(all.skip(i as int), from@, to@);
                assert(had + (seq![rest[0]] + later) =~= changed@ + later);
            }
        }
    }
    proof {
        assert(replaced(all.skip(i as int), from@, to@) =~= Seq::<char>::empty());
        assert(changed@ =~= replaced(all, from@, to@));
    }
    changed
}

/// What stands before `suffix` at the end of `text`.
pub open spec fn without_suffix(text: Seq<char>, suffix: Seq<char>) -> Option<Seq<char>> {
    if suffix.is_suffix_of(text) {
        Some(text.take(text.len() - suffix.len()))
    } else {
        None
    }
}

/// What stands before `suffix` at the end of `text`.
pub fn strip_suffix<'a>(text: &'a str, suffix: &str) -> (rest: Option<&'a str>)
    ensures
        match without_suffix(text@, suffix@) {
            Some(before) => rest matches Some(r) && r@ == before,
            None => rest is None,
        },
{
    let n: usize = text.unicode_len();
    let m: usize = suffix.unicode_len();
    if m <= n && same(text.substring_char(n - m, n), suffix) {
        assert(text@.take(n - m) =~= text@.subrange(0, n - m));
        Some(text.substring_char(0, n - m))
    } else {
        None
    }
}

/// How many characters stand before the first that is white space or `stop`.
pub open spec fn word_length(text: Seq<char>, stop: Option<char>) -> nat
    decreases text.len(),
{
    if text.len() == 0 || is_space(text[0]) || stop == Some(text[0]) {
        0
    } else {
        1 + word_length(text.skip(1), stop)
    }
}

/// How many characters stand before the first that is white space or `stop`.
pub fn word_len(text: &str, stop: Option<char>) -> (len: usize)
    ensures
        len == word_length(text@, stop),
        len <= text@.len(),
{
    let chars = chars_of(text);
    let ghost all = chars@;
    let mut i: usize = 0;
    proof {
        assert(all.skip(0) =~= all);
    }
    while i < chars.len() && !is_whitespace(chars[i]) && !is_char(stop, chars[i])
        invariant
            i <= chars@.len(),
            all == chars@,
            word_length(all, stop) == i + word_length(all.skip(i as int), stop),
        decreases chars@.len() - i,
    {
        assert(all.skip(i as int).skip(1) =~= all.skip(i + 1));
        i += 1;
    }
    i
}

fn is_char(option: Option<char>, c: char) -> (yes: bool)
    ensures
        yes == (option == Some(c)),
{
    match option {
        Some(x) => x == c,
        None => false,
    }
}

/// `text` without the digits it begins with.
pub open spec fn without_digits(text: Seq<char>) -> Seq<char>
    decreases text.len(),
{
    if text.len() > 0 && is_digit(text[0]) {
        without_digits(text.skip(1))
    } else {
        text
    }
}

/// `text` without the digits it begins with.
pub fn trim_digits(text: &str) -> (rest: &str)
    ensures
        rest@ == without_digits(text@),
{
    let chars = chars_of(text);
    let ghost all = chars@;
    let mut i: usize = 0;
    proof {
        assert(all.skip(0) =~= all);
    }
    while i < chars.len() && '0' <= chars[i] && chars[i] <= '9'
        invariant
            i <= chars@.len(),
            all == chars@,
            without_digits(all) == without_digits(all.skip(i as int)),
        decreases chars@.len() - i,
    {
        assert(all.skip(i as int).skip(1) =~= all.skip(i + 1));
        i += 1;
    }
    proof {
        assert(text@.skip(i as int) =~= text@.subrange(i as int, text@.len() as int));
    }
    text.substring_char(i, chars.len())
}

/// The part of `text` from `from` on.
pub fn skip_chars(text: &str, from: usize) -> (rest: &str)
    requires
        from <= text@.len(),
    ensures
        rest@ == text@.skip(from as int),
{
    assert(text@.skip(from as int) =~= text@.subrange(from as int, text@.len() as int));
    text.substring_char(from, text.unicode_len())
}

/// The first `to` characters of `text`.
pub fn take_chars(text: &str, to: usize) -> (part: &str)
    requires
        to <= text@.len(),
    ensures
        part@ == text@.take(to as int),
{
    assert(text@.take(to as int) =~= text@.subrange(0, to as int));
    text.substring_char(0, to)
}

/// Whether `c` occurs in `text`.
pub fn contains_char(text: &str, c: char) -> (yes: bool)
    ensures
        yes == text@.contains(c),
{
    let chars = chars_of(text);
    let at: usize = find_char(&chars, c);
    proof {
        lemma_find(text@, c);
        if at < text@.len() {
            assert(text@[at as int] == c);
        } else if text@.contains(c) {
            let i = choose|i: int| 0 <= i < text@.len() && text@[i] == c;
            assert(text@[i] != c);
        }
    }
    at < chars.len()
}

/// What follows the last `c`: the whole text when there is none.
pub open spec fn after_last(text: Seq<char>, c: char) -> Seq<char>
    decreases text.len(),
{
    if text.len() == 0 || text.last() == c {
        Seq::empty()
    } else {
        after_last(text.drop_last(), c).push(text.last())
    }
}

/// `after_last` is the longest tail without `c`.
pub proof fn lemma_after_last(text: Seq<char>, c: char)
    ensures
        after_last(text, c).len() <= text.len(),
        after_last(text, c) == text.skip(text.len() - after_last(text, c).len()),
        !after_last(text, c).contains(c),
        after_last(text, c).len() < text.len() ==> text[text.len() - after_last(text, c).len() - 1]
            == c,
    decreases text.len(),
{
    if text.len() > 0 && text.last() != c {
        let front = text.drop_last();
        lemma_after_last(front, c);
        let n = after_last(text, c).len();
        assert(after_last(text, c) =~= text.skip(text.len() - n));
        assert forall|i: int| 0 <= i < n implies after_last(text, c)[i] != c by {
            if i < n - 1 {
                assert(after_last(front, c).contains(after_last(front, c)[i]));
            }
        }
    } else {
        assert(after_last(text, c) =~= text.skip(text.len() as int));
    }
}

/// The length of the text up to and with the last `c`: zero when there is none.
pub fn last_part_start(chars: &Vec<char>, c: char) -> (at: usize)
    ensures
        at <= chars@.len(),
        at == chars@.len() - after_last(chars@, c).len(),
        chars@.skip(at as int) == after_last(chars@, c),
{
    let mut at: usize = chars.len();
    assert(chars@.take(at as int) =~= chars@);
    while at > 0 && chars[at - 1] != c
        invariant
            at <= chars@.len(),
            after_last(chars@, c) == after_last(chars@.take(at as int), c) + chars@.skip(at as int),
        decreases at,
    {
        proof {
            let some = chars@.take(at as int);
            assert(some.drop_last() =~= chars@.take(at - 1));
            assert(after_last(some, c) + chars@.skip(at as int) =~= after_last(
                chars@.take(at - 1),
                c,
            ) + chars@.skip(at - 1));
        }
        at -= 1;
    }
    proof {
        assert(after_last(chars@.take(at as int), c) =~= Seq::<char>::empty());
        assert(after_last(chars@, c) =~= chars@.skip(at as int));
    }
    at
}

// -------------------------------------------------------------------- joining

/// The texts one after the other, with `separator` between neighbours.
pub open spec fn joined(texts: Seq<Seq<char>>, separator: Seq<char>) -> Seq<char>
    decreases texts.len(),
{
    if texts.len() == 0 {
        Seq::empty()
    } else if texts.len() == 1 {
        texts[0]
    } else {
        joined(texts.drop_last(), separator) + separator + texts.last()
    }
}

/// What is joined begins with the first text and ends with the last.
pub proof fn lemma_joined_ends(texts: Seq<Seq<char>>, separator: Seq<char>)
    requires
        texts.len() > 0,
    ensures
        texts[0].is_prefix_of(joined(texts, separator)),
        texts.last().is_suffix_of(joined(texts, separator)),
    decreases texts.len(),
{
    let all = joined(texts, separator);
    if texts.len() > 1 {
        let front = texts.drop_last();
        lemma_joined_ends(front, separator);
        let before = joined(front, separator);
        assert(front[0] == texts[0]);
        let first = texts[0];
        assert(all.subrange(0, first.len() as int) =~= before.subrange(0, first.len() as int));
        let last = texts.last();
        assert(all.subrange(all.len() - last.len(), all.len() as int) =~= last);
    }
}

/// Texts are joined one by one: the first as it is, and each further one behind the
/// separator.
pub proof fn law_texts_are_joined_one_by_one(
    texts: Seq<Seq<char>>,
    text: Seq<char>,
    separator: Seq<char>,
)
    ensures
        joined(Seq::empty(), separator).len() == 0,
        joined(seq![text], separator) == text,
        texts.len() > 0 ==> joined(texts.push(text), separator) == joined(texts, separator)
            + separator + text,
{
    assert(texts.push(text).drop_last() =~= texts);
}

/// The texts one after the other, with `separator` between neighbours.
pub fn join(texts: &[String], separator: &str) -> (text: String)
    ensures
        text@ == joined(texts.deep_view(), separator@),
{
    let mut text = String::new();
    for i in 0..texts.len()
        invariant
            text@ == joined(texts.deep_view().take(i as int), separator@),
    {
        let ghost before = texts.deep_view().take(i as int);
        let ghost after = texts.deep_view().take(i + 1);
        proof {
            assert(after.drop_last() =~= before);
            assert(after.last() == texts[i as int]@);
        }
        if i > 0 {
            text.append(separator);
        }
        text.append(texts[i].as_str());
        proof {
            if i == 0 {
                assert(text@ =~= texts[0]@);
            }
        }
    }
    proof {
        assert(texts.deep_view().take(texts@.len() as int) =~= texts.deep_view());
    }
    text
}

// ------------------------------------------------------------------- integers

/// The character of one decimal digit.
pub open spec fn digit(d: nat) -> char {
    (48 + d) as char
}

/// The decimal digits of `n`, without leading zeros.
pub open spec fn decimal(n: nat) -> Seq<char>
    decreases n,
{
    if n < 10 {
        seq![digit(n)]
    } else {
        decimal(n / 10).push(digit(n % 10))
    }
}

/// The decimal digits of `n`, with a minus sign when it is negative.
pub open spec fn integer(n: int) -> Seq<char> {
    if n < 0 {
        "-"@ + decimal((-n) as nat)
    } else {
        decimal(n as nat)
    }
}

/// Renders an unsigned number in decimal.
pub fn decimal_text(n: u64) -> (text: String)
    ensures
        text@ == decimal(n as nat),
    decreases n,
{
    if n < 10 {
        let mut text = String::new();
        text.push((48u8 + n as u8) as char);
        text
    } else {
        let mut text = decimal_text(n / 10);
        text.push((48u8 + (n % 10) as u8) as char);
        text
    }
}

/// Renders a count in decimal.
pub fn count_text(n: usize) -> (text: String)
    ensures
        text@ == decimal(n as nat),
{
    decimal_text(n as u64)
}

/// Renders a signed number in decimal.
pub fn integer_text(n: i64) -> (text: String)
    ensures
        text@ == integer(n as int),
{
    if n < 0 {
        let magnitude: u64 = (-(n as i128)) as u64;
        "-".to_owned().concat(decimal_text(magnitude).as_str())
    } else {
        decimal_text(n as u64)
    }
}

/// The value of a digit in some base, up to ten.
pub open spec fn digit_value(c: char) -> nat {
    (c as u32 - 48) as nat
}

/// Whether `c` is a digit in `base`.
pub open spec fn is_digit_of(c: char, base: nat) -> bool {
    is_digit(c) && digit_value(c) < base
}

/// The number that digits in `base` stand for.
pub open spec fn value_of(digits: Seq<char>, base: nat) -> nat
    decreases digits.len(),
{
    if digits.len() == 0 {
        0
    } else {
        value_of(digits.drop_last(), base) * base + digit_value(digits.last())
    }
}

/// Whether every character is a digit in `base`.
pub open spec fn all_digits(digits: Seq<char>, base: nat) -> bool {
    forall|i: int| 0 <= i < digits.len() ==> is_digit_of(#[trigger] digits[i], base)
}

/// A text without the plus sign that it begins with.
pub open spec fn without_plus(text: Seq<char>) -> Seq<char> {
    if text.len() > 0 && text[0] == '+' {
        text.skip(1)
    } else {
        text
    }
}

/// The number that a text is in `base`: digits, perhaps behind a plus sign, that
/// do not exceed `max`.
pub open spec fn number_in(text: Seq<char>, base: nat, max: nat) -> Option<nat> {
    let digits = without_plus(text);
    if digits.len() > 0 && all_digits(digits, base) && value_of(digits, base) <= max {
        Some(value_of(digits, base))
    } else {
        None
    }
}

proof fn lemma_value_grows(digits: Seq<char>, base: nat, n: int)
    requires
        0 <= n <= digits.len(),
        base > 0,
    ensures
        value_of(digits.take(n), base) <= value_of(digits, base),
    decreases digits.len(),
{
    if n == digits.len() {
        assert(digits.take(n) =~= digits);
    } else {
        lemma_value_grows(digits.drop_last(), base, n);
        assert(digits.drop_last().take(n) =~= digits.take(n));
        let v = value_of(digits.drop_last(), base);
        assert(v <= v * base) by (nonlinear_arith)
            requires
                base > 0,
        ;
    }
}

/// The decimal digits of a number stand for it.
pub proof fn lemma_decimal_is_read_back(n: nat)
    ensures
        decimal(n).len() > 0,
        all_digits(decimal(n), 10),
        value_of(decimal(n), 10) == n,
    decreases n,
{
    let last: char = digit(n % 10);
    assert('0' <= last <= '9');
    assert(digit_value(last) == n % 10);
    if n < 10 {
        assert(decimal(n).drop_last() =~= Seq::<char>::empty());
        assert(value_of(decimal(n).drop_last(), 10) == 0);
        assert(decimal(n).last() == last);
    } else {
        let front = decimal(n / 10);
        lemma_decimal_is_read_back(n / 10);
        assert(decimal(n).drop_last() =~= front);
        assert forall|i: int| 0 <= i < decimal(n).len() implies is_digit_of(
            #[trigger] decimal(n)[i],
            10,
        ) by {
            if i < front.len() {
                assert(decimal(n)[i] == front[i]);
            }
        }
    }
}

/// A number written in decimal is read back, and is written without leading zeros.
pub proof fn law_decimal_is_read_back(n: nat)
    ensures
        number_in(decimal(n), 10, n) == Some(n),
        forall|i: int| 0 <= i < decimal(n).len() ==> '0' <= #[trigger] decimal(n)[i] <= '9',
        decimal(n)[0] == '0' ==> n == 0,
        n < 10 ==> decimal(n) == seq![(48 + n) as char],
        n >= 10 ==> decimal(n) == decimal(n / 10).push((48 + n % 10) as char),
    decreases n,
{
    lemma_decimal_is_read_back(n);
    assert(is_digit_of(decimal(n)[0], 10));
    assert(without_plus(decimal(n)) == decimal(n));
    assert forall|i: int| 0 <= i < decimal(n).len() implies '0' <= #[trigger] decimal(n)[i]
        <= '9' by {
        assert(is_digit_of(decimal(n)[i], 10));
    }
    if n >= 10 {
        law_decimal_is_read_back(n / 10);
    }
}

/// Reads a text as a number in `base`, as `from_str_radix` does: digits,
/// perhaps behind a plus sign, that do not exceed `max`.
pub fn parse_number(text: &str, base: u8, max: u64) -> (number: Option<u64>)
    requires
        2 <= base <= 10,
    ensures
        match number_in(text@, base as nat, max as nat) {
            Some(n) => number == Some(n as u64) && n <= max,
            None => number is None,
        },
{
    let chars = chars_of(text);
    let from: usize = if chars.len() > 0 && chars[0] == '+' {
        1
    } else {
        0
    };
    let ghost digits = without_plus(text@);
    assert(digits =~= text@.skip(from as int));
    if from == chars.len() {
        return None;
    }
    let mut total: u64 = 0;
    let mut i: usize = from;
    while i < chars.len()
        invariant
            from <= i <= chars@.len(),
            2 <= base <= 10,
            chars@ == text@,
            digits == text@.skip(from as int),
            digits == without_plus(text@),
            digits.len() == chars@.len() - from,
            forall|k: int| 0 <= k < i - from ==> is_digit_of(#[trigger] digits[k], base as nat),
            total == value_of(digits.take(i - from), base as nat),
            total <= max,
        decreases chars@.len() - i,
    {
        let c = chars[i];
        proof {
            assert(digits[i - from] == c);
            assert(digits.take(i - from + 1).drop_last() =~= digits.take(i - from));
            assert(digits.take(i - from + 1).last() == c);
        }
        if !('0' <= c && c <= '9') {
            assert(!is_digit_of(digits[i - from], base as nat));
            return None;
        }
        let d: u64 = (c as u32 - 48) as u64;
        if d >= base as u64 {
            assert(!is_digit_of(digits[i - from], base as nat));
            return None;
        }
        proof {
            assert(0 <= total * base <= 0xffff_ffff_ffff_ffff * 10) by (nonlinear_arith)
                requires
                    0 <= total <= 0xffff_ffff_ffff_ffff,
                    0 <= base <= 10,
            ;
        }
        let next: u128 = total as u128 * base as u128 + d as u128;
        proof {
            lemma_value_grows(digits, base as nat, i - from + 1);
        }
        if next > max as u128 {
            return None;
        }
        total = next as u64;
        i += 1;
    }
    assert(digits.take(i - from) =~= digits);
    Some(total)
}

/// Whether `c` is one of `0` to `9`.
pub open spec fn is_digit(c: char) -> bool {
    '0' <= c <= '9'
}

// ---------------------------------------------------------------------- order

/// The order of texts, character by character; a prefix comes first.
pub open spec fn at_most(a: Seq<char>, b: Seq<char>) -> bool
    decreases a.len(),
{
    if a.len() == 0 {
        true
    } else if b.len() == 0 {
        false
    } else if a[0] == b[0] {
        at_most(a.skip(1), b.skip(1))
    } else {
        a[0] < b[0]
    }
}

/// `a` comes before `b` and is not `b`.
pub open spec fn below(a: Seq<char>, b: Seq<char>) -> bool {
    at_most(a, b) && a != b
}

/// Two texts with the same beginning stand as what follows it stands.
pub proof fn lemma_below_behind(front: Seq<char>, a: Seq<char>, b: Seq<char>)
    ensures
        below(front + a, front + b) <==> below(a, b),
    decreases front.len(),
{
    if front.len() == 0 {
        assert(front + a =~= a && front + b =~= b);
    } else {
        let rest = front.skip(1);
        lemma_below_behind(rest, a, b);
        assert((front + a).skip(1) =~= rest + a);
        assert((front + b).skip(1) =~= rest + b);
        if front + a == front + b {
            assert(rest + a == rest + b);
        }
        if rest + a == rest + b {
            assert forall|i: int| 0 <= i < (front + a).len() implies (front + a)[i] == (front
                + b)[i] by {
                if i > 0 {
                    assert((rest + a)[i - 1] == (rest + b)[i - 1]);
                }
            }
            assert(front + a =~= front + b);
        }
    }
}

/// Whether `a` is `b` or comes before it.
pub fn is_at_most(a: &str, b: &str) -> (yes: bool)
    ensures
        yes == at_most(a@, b@),
{
    let x = chars_of(a);
    let y = chars_of(b);
    let mut i: usize = 0;
    proof {
        assert(x@.skip(0) =~= x@);
        assert(y@.skip(0) =~= y@);
    }
    while i < x.len() && i < y.len() && x[i] == y[i]
        invariant
            i <= x@.len(),
            i <= y@.len(),
            at_most(x@, y@) == at_most(x@.skip(i as int), y@.skip(i as int)),
        decreases x@.len() - i,
    {
        proof {
            assert(x@.skip(i as int).skip(1) =~= x@.skip(i + 1));
            assert(y@.skip(i as int).skip(1) =~= y@.skip(i + 1));
        }
        i += 1;
    }
    if i == x.len() {
        true
    } else if i == y.len() {
        false
    } else {
        x[i] < y[i]
    }
}

/// The order of texts is total.
pub proof fn lemma_at_most_total(a: Seq<char>, b: Seq<char>)
    ensures
        at_most(a, b) || at_most(b, a),
        at_most(a, a),
    decreases a.len(),
{
    if a.len() > 0 {
        lemma_at_most_total(a.skip(1), b.skip(1));
    }
}

/// Texts that do not exceed each other are equal.
pub proof fn lemma_at_most_antisymmetric(a: Seq<char>, b: Seq<char>)
    requires
        at_most(a, b),
        at_most(b, a),
    ensures
        a == b,
    decreases a.len(),
{
    if a.len() > 0 && b.len() > 0 {
        lemma_at_most_antisymmetric(a.skip(1), b.skip(1));
        assert(a =~= seq![a[0]] + a.skip(1));
        assert(b =~= seq![b[0]] + b.skip(1));
    } else {
        assert(a =~= b);
    }
}

/// The order of texts is transitive.
pub proof fn lemma_at_most_transitive(a: Seq<char>, b: Seq<char>, c: Seq<char>)
    requires
        at_most(a, b),
        at_most(b, c),
    ensures
        at_most(a, c),
    decreases a.len(),
{
    if a.len() > 0 && b.len() > 0 && c.len() > 0 && a[0] == b[0] && b[0] == c[0] {
        lemma_at_most_transitive(a.skip(1), b.skip(1), c.skip(1));
    }
}

/// A number that is not negative is its digits; a negative one is those of its opposite
/// behind a minus.
pub proof fn law_integers_have_their_sign(n: nat)
    ensures
        integer(n as int) == decimal(n),
        n > 0 ==> integer(-(n as int)) == seq!['-'] + decimal(n),
{
    reveal_strlit("-");
    assert("-"@ =~= seq!['-']);
}

/// Texts are compared character by character: the first that differs decides, and a text
/// comes before any that only goes on after it.
pub proof fn law_the_first_difference_decides(
    front: Seq<char>,
    x: char,
    y: char,
    a: Seq<char>,
    b: Seq<char>,
)
    ensures
        x < y ==> below(front + (seq![x] + a), front + (seq![y] + b)),
        at_most(front, front + a),
        a.len() > 0 ==> below(front, front + a),
{
    lemma_below_behind(front, seq![x] + a, seq![y] + b);
    if x < y {
        assert((seq![x] + a)[0] == x && (seq![y] + b)[0] == y);
    }
    lemma_below_behind(front, Seq::empty(), a);
    assert(front + Seq::<char>::empty() =~= front);
    lemma_at_most_total(front, front);
    if a.len() == 0 {
        assert(front + a =~= front);
    }
}

} // verus!
