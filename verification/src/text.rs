//! Texts as sequences of characters: trimming, searching and joining.

use vstd::prelude::*;

verus! {

/// The characters with the Unicode property `White_Space`.
pub open spec fn is_whitespace(c: char) -> bool {
    let n = c as u32;
    (0x09 <= n <= 0x0D) || n == 0x20 || n == 0x85 || n == 0xA0 || n == 0x1680 || (0x2000 <= n
        <= 0x200A) || n == 0x2028 || n == 0x2029 || n == 0x202F || n == 0x205F || n == 0x3000
}

/// The text without the whitespace that it begins with.
pub open spec fn trim_start(s: Seq<char>) -> Seq<char>
    decreases s.len(),
{
    if s.len() > 0 && is_whitespace(s.first()) {
        trim_start(s.drop_first())
    } else {
        s
    }
}

/// The text without the whitespace that it ends with.
pub open spec fn trim_end(s: Seq<char>) -> Seq<char>
    decreases s.len(),
{
    if s.len() > 0 && is_whitespace(s.last()) {
        trim_end(s.drop_last())
    } else {
        s
    }
}

/// The text without the whitespace at either end.
pub open spec fn trimmed(s: Seq<char>) -> Seq<char> {
    trim_end(trim_start(s))
}

/// `needle` stands in `s` at position `i`.
pub open spec fn occurs_at(s: Seq<char>, needle: Seq<char>, i: int) -> bool {
    0 <= i && i + needle.len() <= s.len() && s.subrange(i, i + needle.len()) == needle
}

/// `needle` stands somewhere in `s`.
pub open spec fn occurs(s: Seq<char>, needle: Seq<char>) -> bool {
    exists|i: int| occurs_at(s, needle, i)
}

/// `i` is the first position at which `needle` stands in `s`.
pub open spec fn is_first_occurrence(s: Seq<char>, needle: Seq<char>, i: int) -> bool {
    occurs_at(s, needle, i) && forall|j: int| 0 <= j < i ==> !occurs_at(s, needle, j)
}

/// The first position at which `needle` stands in `s`, where it occurs.
pub open spec fn first_occurrence(s: Seq<char>, needle: Seq<char>) -> int {
    choose|i: int| is_first_occurrence(s, needle, i)
}

/// The parts in order, with `separator` between each two.
pub open spec fn joined(parts: Seq<Seq<char>>, separator: Seq<char>) -> Seq<char>
    decreases parts.len(),
{
    if parts.len() == 0 {
        Seq::empty()
    } else if parts.len() == 1 {
        parts[0]
    } else {
        joined(parts.drop_last(), separator) + separator + parts.last()
    }
}

/// The lowercase form of an ASCII capital; every other character as it is.
pub open spec fn ascii_lowercase(c: char) -> char {
    if 'A' <= c && c <= 'Z' {
        ((c as u32) + 32) as char
    } else {
        c
    }
}

/// The texts are equal but for the case of their ASCII letters.
pub open spec fn equal_ignoring_ascii_case(a: Seq<char>, b: Seq<char>) -> bool {
    a.len() == b.len() && forall|i: int|
        0 <= i < a.len() ==> ascii_lowercase(#[trigger] a[i]) == ascii_lowercase(b[i])
}

/// There is one first position.
pub proof fn lemma_first_occurrence(s: Seq<char>, needle: Seq<char>, i: int)
    requires
        is_first_occurrence(s, needle, i),
    ensures
        occurs(s, needle),
        first_occurrence(s, needle) == i,
{
    let j = first_occurrence(s, needle);
    assert(is_first_occurrence(s, needle, j));
    if j < i {
        assert(!occurs_at(s, needle, j));
    }
    if i < j {
        assert(!occurs_at(s, needle, i));
    }
}

/// Whether `c` is whitespace.
pub fn whitespace(c: char) -> (b: bool)
    ensures
        b == is_whitespace(c),
{
    let n: u32 = c as u32;
    (0x09 <= n && n <= 0x0D) || n == 0x20 || n == 0x85 || n == 0xA0 || n == 0x1680 || (0x2000 <= n
        && n <= 0x200A) || n == 0x2028 || n == 0x2029 || n == 0x202F || n == 0x205F || n == 0x3000
}

/// The characters of a text.
pub fn chars_of(text: &str) -> (chars: Vec<char>)
    ensures
        chars@ == text@,
{
    let mut chars: Vec<char> = Vec::new();
    for c in it: text.chars()
        invariant
            it.seq() == text@,
            chars@ == text@.take(it.index()),
    {
        chars.push(c);
        assert(text@.take(it.index() + 1) == text@.take(it.index()).push(c));
    }
    assert(text@.take(text@.len() as int) == text@);
    chars
}

/// The text that the characters spell.
pub fn text_of(chars: &Vec<char>) -> (text: String)
    ensures
        text@ == chars@,
{
    let mut text = String::new();
    let mut i: usize = 0;
    while i < chars.len()
        invariant
            i <= chars.len(),
            text@ == chars@.take(i as int),
        decreases chars.len() - i,
    {
        text.push(chars[i]);
        assert(chars@.take(i + 1) == chars@.take(i as int).push(chars[i as int]));
        i = i + 1;
    }
    assert(chars@.take(chars.len() as int) == chars@);
    text
}

/// The characters from position `from` up to, not including, position `to`.
pub fn slice(chars: &Vec<char>, from: usize, to: usize) -> (part: Vec<char>)
    requires
        from <= to <= chars.len(),
    ensures
        part@ == chars@.subrange(from as int, to as int),
{
    let mut part: Vec<char> = Vec::new();
    let mut i: usize = from;
    while i < to
        invariant
            from <= i <= to <= chars.len(),
            part@ == chars@.subrange(from as int, i as int),
        decreases to - i,
    {
        part.push(chars[i]);
        assert(chars@.subrange(from as int, i + 1) == chars@.subrange(from as int, i as int).push(
            chars[i as int],
        ));
        i = i + 1;
    }
    part
}

/// Whitespace at the beginning can be skipped before it is trimmed.
proof fn lemma_trim_start_skip(s: Seq<char>, n: int)
    requires
        0 <= n <= s.len(),
        forall|i: int| 0 <= i < n ==> is_whitespace(s[i]),
    ensures
        trim_start(s) == trim_start(s.skip(n)),
    decreases n,
{
    if n > 0 {
        assert(s.drop_first().skip(n - 1) == s.skip(n));
        lemma_trim_start_skip(s.drop_first(), n - 1);
    } else {
        assert(s.skip(0) == s);
    }
}

/// Whitespace at the end can be dropped before it is trimmed.
proof fn lemma_trim_end_take(s: Seq<char>, n: int)
    requires
        0 <= n <= s.len(),
        forall|i: int| n <= i < s.len() ==> is_whitespace(s[i]),
    ensures
        trim_end(s) == trim_end(s.take(n)),
    decreases s.len() - n,
{
    if n < s.len() {
        assert(s.drop_last().take(n) == s.take(n));
        lemma_trim_end_take(s.drop_last(), n);
    } else {
        assert(s.take(n) == s);
    }
}

/// The characters without the whitespace at either end.
pub fn trim(chars: &Vec<char>) -> (kept: Vec<char>)
    ensures
        kept@ == trimmed(chars@),
{
    let mut from: usize = 0;
    while from < chars.len() && whitespace(chars[from])
        invariant
            from <= chars.len(),
            forall|i: int| 0 <= i < from ==> is_whitespace(chars[i]),
        decreases chars.len() - from,
    {
        from = from + 1;
    }
    let mut to: usize = chars.len();
    while to > from && whitespace(chars[to - 1])
        invariant
            from <= to <= chars.len(),
            forall|i: int| to <= i < chars.len() ==> is_whitespace(chars[i]),
        decreases to - from,
    {
        to = to - 1;
    }
    proof {
        let rest = chars@.skip(from as int);
        lemma_trim_start_skip(chars@, from as int);
        assert(trim_start(rest) == rest);
        assert forall|i: int| to - from <= i < rest.len() implies is_whitespace(rest[i]) by {
            assert(rest[i] == chars[from + i]);
        }
        lemma_trim_end_take(rest, to - from);
        assert(rest.take(to - from) == chars@.subrange(from as int, to as int));
        let kept = chars@.subrange(from as int, to as int);
        if kept.len() > 0 {
            assert(kept.last() == chars[to - 1]);
        }
        assert(trim_end(kept) == kept);
    }
    slice(chars, from, to)
}

/// Whether `needle` stands in `chars` at position `at`.
fn matches_at(chars: &Vec<char>, needle: &Vec<char>, at: usize) -> (b: bool)
    requires
        at + needle.len() <= chars.len(),
    ensures
        b == occurs_at(chars@, needle@, at as int),
{
    let mut k: usize = 0;
    while k < needle.len()
        invariant
            k <= needle.len(),
            at + needle.len() <= chars.len(),
            forall|l: int| 0 <= l < k ==> chars[at + l] == needle[l],
        decreases needle.len() - k,
    {
        if chars[at + k] != needle[k] {
            assert(chars@.subrange(at as int, at + needle.len())[k as int] != needle@[k as int]);
            return false;
        }
        k = k + 1;
    }
    assert(chars@.subrange(at as int, at + needle.len()) =~= needle@);
    true
}

/// The first position at which `needle` stands in `chars`, if it occurs.
pub fn find(chars: &Vec<char>, needle: &Vec<char>) -> (found: Option<usize>)
    ensures
        found is Some <==> occurs(chars@, needle@),
        found matches Some(at) ==> at as int == first_occurrence(chars@, needle@) && at
            + needle.len() <= chars.len(),
{
    if needle.len() > chars.len() {
        return None;
    }
    let last: usize = chars.len() - needle.len();
    let mut at: usize = 0;
    while at < last
        invariant
            at <= last,
            last == chars.len() - needle.len(),
            needle.len() <= chars.len(),
            forall|j: int| 0 <= j < at ==> !occurs_at(chars@, needle@, j),
        decreases last - at,
    {
        if matches_at(chars, needle, at) {
            proof {
                lemma_first_occurrence(chars@, needle@, at as int);
            }
            return Some(at);
        }
        at = at + 1;
    }
    if matches_at(chars, needle, last) {
        proof {
            lemma_first_occurrence(chars@, needle@, last as int);
        }
        return Some(last);
    }
    None
}

/// Appends `more` to `chars`.
pub fn append(chars: &mut Vec<char>, more: &Vec<char>)
    ensures
        final(chars)@ == old(chars)@ + more@,
{
    let ghost start = chars@;
    let mut i: usize = 0;
    assert(start + more@.take(0) == start);
    while i < more.len()
        invariant
            i <= more.len(),
            chars@ == start + more@.take(i as int),
        decreases more.len() - i,
    {
        chars.push(more[i]);
        assert(start + more@.take(i + 1) == (start + more@.take(i as int)).push(more[i as int]));
        i = i + 1;
    }
    assert(more@.take(more.len() as int) == more@);
}

/// What a sequence of character vectors holds.
pub open spec fn char_texts(parts: Seq<Vec<char>>) -> Seq<Seq<char>> {
    parts.map_values(|p: Vec<char>| p@)
}

/// Joins the parts, with `separator` between each two.
pub fn join(parts: &Vec<Vec<char>>, separator: &Vec<char>) -> (whole: Vec<char>)
    ensures
        whole@ == joined(char_texts(parts@), separator@),
{
    let mut whole: Vec<char> = Vec::new();
    let mut i: usize = 0;
    let ghost texts = char_texts(parts@);
    while i < parts.len()
        invariant
            i <= parts.len(),
            texts == char_texts(parts@),
            whole@ == joined(texts.take(i as int), separator@),
        decreases parts.len() - i,
    {
        if i > 0 {
            append(&mut whole, separator);
        }
        append(&mut whole, &parts[i]);
        proof {
            let next = texts.take(i + 1);
            assert(next.drop_last() == texts.take(i as int));
            assert(next.last() == parts[i as int]@);
            if i == 0 {
                assert(next[0] == parts[i as int]@);
            }
        }
        i = i + 1;
    }
    assert(texts.take(parts.len() as int) == texts);
    whole
}

/// Whether the texts are equal but for the case of their ASCII letters.
pub fn same_ignoring_ascii_case(a: &Vec<char>, b: &Vec<char>) -> (same: bool)
    ensures
        same == equal_ignoring_ascii_case(a@, b@),
{
    if a.len() != b.len() {
        return false;
    }
    let mut i: usize = 0;
    while i < a.len()
        invariant
            i <= a.len(),
            a.len() == b.len(),
            forall|l: int| 0 <= l < i ==> ascii_lowercase(#[trigger] a[l]) == ascii_lowercase(b[l]),
        decreases a.len() - i,
    {
        if lowercase_ascii(a[i]) != lowercase_ascii(b[i]) {
            return false;
        }
        i = i + 1;
    }
    true
}

/// The lowercase form of an ASCII capital; every other character as it is.
pub fn lowercase_ascii(c: char) -> (lower: char)
    ensures
        lower == ascii_lowercase(c),
{
    if 'A' <= c && c <= 'Z' {
        let n: u32 = c as u32;
        char_of(n + 32)
    } else {
        c
    }
}

/// The character with a code in the range of ASCII.
fn char_of(code: u32) -> (c: char)
    requires
        code < 128,
    ensures
        c == code as char,
{
    let byte: u8 = code as u8;
    byte as char
}

} // verus!
