//! Lines of text as sequences of characters: reading them out of a string,
//! trimming them, and cutting them into fields.

use vstd::prelude::*;

verus! {

/// Whether `c` is white space: whether it has the Unicode property
/// `White_Space`, as the standard library tells it.
pub uninterp spec fn white_space(c: char) -> bool;

/// Calls `char::is_whitespace`. Nothing is claimed of the answer but that
/// it depends on the character alone; `white_space` is its name.
#[verifier::external_body]
fn is_white_space(c: char) -> (white: bool)
    ensures
        white == white_space(c),
{
    c.is_whitespace()
}

/// Calls `String::push`, which appends one character at the end of the
/// string and leaves what was there as it is.
#[verifier::external_body]
fn push_char(text: &mut String, c: char)
    ensures
        final(text)@ == old(text)@.push(c),
{
    text.push(c);
}

/// The string that holds the characters of `chars`, in order.
pub fn string_of(chars: &[char]) -> (text: String)
    ensures
        text@ == chars@,
{
    let mut text = String::new();
    let mut i: usize = 0;
    while i < chars.len()
        invariant
            i <= chars@.len(),
            text@ == chars@.take(i as int),
        decreases chars@.len() - i,
    {
        push_char(&mut text, chars[i]);
        assert(chars@.take(i + 1) =~= chars@.take(i as int).push(chars@[i as int]));
        i += 1;
    }
    assert(chars@.take(chars@.len() as int) =~= chars@);
    text
}

/// The characters of `text`, in order.
pub fn chars_of(text: &str) -> (chars: Vec<char>)
    ensures
        chars@ == text@,
{
    let mut chars: Vec<char> = Vec::new();
    for c in it: text.chars()
        invariant
            it.seq() == text@,
            chars@ == text@.take(it.index()),
    {
        chars.push(c);
        assert(text@.take(it.index() + 1) =~= text@.take(it.index()).push(c));
    }
    assert(text@.take(text@.len() as int) =~= text@);
    chars
}


/// `s` without the white space it starts with.
pub open spec fn trim_start(s: Seq<char>) -> Seq<char>
    decreases s.len(),
{
    if s.len() > 0 && white_space(s.first()) {
        trim_start(s.drop_first())
    } else {
        s
    }
}

/// `s` without the white space it ends with.
pub open spec fn trim_end(s: Seq<char>) -> Seq<char>
    decreases s.len(),
{
    if s.len() > 0 && white_space(s.last()) {
        trim_end(s.drop_last())
    } else {
        s
    }
}

/// `s` without the white space around it.
pub open spec fn trimmed(s: Seq<char>) -> Seq<char> {
    trim_end(trim_start(s))
}

/// Position of the first `sep` at or after `from`, or the length of `s`
/// where there is none: the end of the field that starts at `from`.
pub open spec fn field_end(s: Seq<char>, sep: char, from: int) -> int
    decreases s.len() - from,
{
    if from < 0 || from >= s.len() {
        s.len() as int
    } else if s[from] == sep {
        from
    } else {
        field_end(s, sep, from + 1)
    }
}

/// A field ends at or after its start, within the text, and holds no separator.
pub proof fn lemma_field_end(s: Seq<char>, sep: char, from: int)
    requires
        0 <= from <= s.len(),
    ensures
        from <= field_end(s, sep, from) <= s.len(),
        field_end(s, sep, from) < s.len() ==> s[field_end(s, sep, from)] == sep,
        forall|i: int| from <= i < field_end(s, sep, from) ==> s[i] != sep,
    decreases s.len() - from,
{
    if from < s.len() && s[from] != sep {
        lemma_field_end(s, sep, from + 1);
    }
}

/// Trimming leaves a stretch of the text, with nothing but white space
/// before and after it and none at its two ends.
pub proof fn lemma_trimmed_is_stretch(s: Seq<char>) -> (bounds: (int, int))
    ensures
        0 <= bounds.0 <= bounds.1 <= s.len(),
        trimmed(s) == s.subrange(bounds.0, bounds.1),
        forall|i: int| 0 <= i < bounds.0 ==> white_space(s[i]),
        forall|i: int| bounds.1 <= i < s.len() ==> white_space(s[i]),
        bounds.0 < bounds.1 ==> !white_space(s[bounds.0]) && !white_space(s[bounds.1 - 1]),
{
    let a = lemma_trim_start_is_suffix(s);
    let rest = s.subrange(a, s.len() as int);
    let b = lemma_trim_end_is_prefix(rest);
    assert(rest.subrange(0, b) =~= s.subrange(a, a + b));
    assert forall|i: int| a + b <= i < s.len() implies white_space(s[i]) by {
        assert(rest[i - a] == s[i]);
    }
    if a < a + b {
        assert(rest[0] == s[a]);
        assert(rest[b - 1] == s[a + b - 1]);
    }
    (a, a + b)
}

/// `trim_start` drops a prefix of white space and stops at the first other character.
proof fn lemma_trim_start_is_suffix(s: Seq<char>) -> (from: int)
    ensures
        0 <= from <= s.len(),
        trim_start(s) == s.subrange(from, s.len() as int),
        forall|i: int| 0 <= i < from ==> white_space(s[i]),
        from < s.len() ==> !white_space(s[from]),
    decreases s.len(),
{
    if s.len() > 0 && white_space(s.first()) {
        let inner = lemma_trim_start_is_suffix(s.drop_first());
        assert(s.drop_first().subrange(inner, s.len() - 1) =~= s.subrange(inner + 1, s.len() as int));
        assert forall|i: int| 0 <= i < inner + 1 implies white_space(s[i]) by {
            if i > 0 {
                assert(s.drop_first()[i - 1] == s[i]);
            }
        }
        if inner + 1 < s.len() {
            assert(s.drop_first()[inner] == s[inner + 1]);
        }
        inner + 1
    } else {
        assert(s.subrange(0, s.len() as int) =~= s);
        0
    }
}

/// `trim_end` drops a suffix of white space and stops at the last other character.
proof fn lemma_trim_end_is_prefix(s: Seq<char>) -> (to: int)
    ensures
        0 <= to <= s.len(),
        trim_end(s) == s.subrange(0, to),
        forall|i: int| to <= i < s.len() ==> white_space(s[i]),
        0 < to ==> !white_space(s[to - 1]),
    decreases s.len(),
{
    if s.len() > 0 && white_space(s.last()) {
        let inner = lemma_trim_end_is_prefix(s.drop_last());
        assert(s.drop_last().subrange(0, inner) =~= s.subrange(0, inner));
        assert forall|i: int| inner <= i < s.len() implies white_space(s[i]) by {
            if i < s.len() - 1 {
                assert(s.drop_last()[i] == s[i]);
            }
        }
        if 0 < inner {
            assert(s.drop_last()[inner - 1] == s[inner - 1]);
        }
        inner
    } else {
        assert(s.subrange(0, s.len() as int) =~= s);
        s.len() as int
    }
}

/// A stretch with white space all around it and none at its ends is the trimmed text.
pub proof fn lemma_stretch_is_trimmed(s: Seq<char>, from: int, to: int)
    requires
        0 <= from <= to <= s.len(),
        forall|i: int| 0 <= i < from ==> white_space(s[i]),
        forall|i: int| to <= i < s.len() ==> white_space(s[i]),
        from < to ==> !white_space(s[from]) && !white_space(s[to - 1]),
    ensures
        trimmed(s) == s.subrange(from, to),
{
    let bounds = lemma_trimmed_is_stretch(s);
    if from < to {
        // Both stretches start at the first character that is no white space
        // and end behind the last one.
        if bounds.0 < bounds.1 {
            assert(bounds.0 == from);
            assert(bounds.1 == to);
        } else {
            assert(white_space(s[from]));
        }
    } else {
        if bounds.0 < bounds.1 {
            assert(white_space(s[bounds.0]));
        }
        assert(s.subrange(from, to) =~= s.subrange(bounds.0, bounds.1));
    }
}

/// The characters of `chars` without the white space around them.
pub fn trim(chars: &Vec<char>) -> (kept: Vec<char>)
    ensures
        kept@ == trimmed(chars@),
{
    let n = chars.len();
    let mut from: usize = 0;
    while from < n && is_white_space(chars[from])
        invariant
            n == chars@.len(),
            from <= n,
            forall|i: int| 0 <= i < from ==> white_space(chars@[i]),
        decreases n - from,
    {
        from += 1;
    }
    let mut to: usize = n;
    while to > from && is_white_space(chars[to - 1])
        invariant
            n == chars@.len(),
            from <= to <= n,
            forall|i: int| to <= i < n ==> white_space(chars@[i]),
        decreases to,
    {
        to -= 1;
    }
    let mut kept: Vec<char> = Vec::new();
    let mut i: usize = from;
    while i < to
        invariant
            from <= i <= to <= chars@.len(),
            kept@ == chars@.subrange(from as int, i as int),
        decreases to - i,
    {
        kept.push(chars[i]);
        assert(chars@.subrange(from as int, i + 1) =~= chars@.subrange(from as int, i as int).push(
            chars@[i as int],
        ));
        i += 1;
    }
    proof {
        lemma_stretch_is_trimmed(chars@, from as int, to as int);
    }
    kept
}

/// Position of the first `sep` at or after `from`, or the length of `chars`
/// where there is none or `from` lies behind the end.
pub fn find_field_end(chars: &Vec<char>, sep: char, from: usize) -> (end: usize)
    ensures
        end == field_end(chars@, sep, from as int),
        end <= chars@.len(),
        from <= chars@.len() ==> from <= end,
{
    let n = chars.len();
    if from >= n {
        return n;
    }
    let mut end: usize = from;
    while end < n && chars[end] != sep
        invariant
            n == chars@.len(),
            from <= end <= n,
            field_end(chars@, sep, from as int) == field_end(chars@, sep, end as int),
        decreases n - end,
    {
        end += 1;
    }
    end
}

} // verus!
