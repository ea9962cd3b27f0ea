//! Character level operations on text: trimming, stripping a prefix and splitting.

use vstd::prelude::*;

verus! {

/// Whether a character has the Unicode `White_Space` property.
pub open spec fn is_white_space(c: char) -> bool {
    let code = c as u32;
    ||| 0x9 <= code <= 0xd
    ||| code == 0x20
    ||| code == 0x85
    ||| code == 0xa0
    ||| code == 0x1680
    ||| 0x2000 <= code <= 0x200a
    ||| code == 0x2028
    ||| code == 0x2029
    ||| code == 0x202f
    ||| code == 0x205f
    ||| code == 0x3000
}

/// A set of characters that text is trimmed of or split at.
#[derive(Debug, Clone, Copy, PartialEq, Eq)]
pub enum CharClass {
    /// Unicode white space.
    WhiteSpace,
    /// The character `/`.
    Slash,
    /// The characters `:` and `/`.
    ColonOrSlash,
}

impl CharClass {
    pub open spec fn has(self, c: char) -> bool {
        match self {
            CharClass::WhiteSpace => is_white_space(c),
            CharClass::Slash => c == '/',
            CharClass::ColonOrSlash => c == ':' || c == '/',
        }
    }

    /// Whether `c` belongs to the class.
    pub fn contains(self, c: char) -> (r: bool)
        ensures
            r == self.has(c),
    {
        match self {
            CharClass::WhiteSpace => {
                let code: u32 = c as u32;
                (0x9 <= code && code <= 0xd) || code == 0x20 || code == 0x85 || code == 0xa0
                    || code == 0x1680 || (0x2000 <= code && code <= 0x200a) || code == 0x2028
                    || code == 0x2029 || code == 0x202f || code == 0x205f || code == 0x3000
            },
            CharClass::Slash => c == '/',
            CharClass::ColonOrSlash => c == ':' || c == '/',
        }
    }
}

/// `s` without the characters of `class` at its start.
pub open spec fn trim_start(s: Seq<char>, class: CharClass) -> Seq<char>
    decreases s.len(),
{
    if s.len() > 0 && class.has(s[0]) {
        trim_start(s.drop_first(), class)
    } else {
        s
    }
}

/// `s` without the characters of `class` at its end.
pub open spec fn trim_end(s: Seq<char>, class: CharClass) -> Seq<char>
    decreases s.len(),
{
    if s.len() > 0 && class.has(s.last()) {
        trim_end(s.drop_last(), class)
    } else {
        s
    }
}

/// `s` without the characters of `class` at either end.
pub open spec fn trimmed(s: Seq<char>, class: CharClass) -> Seq<char> {
    trim_end(trim_start(s, class), class)
}

/// The segments of `s` between the characters of `class`; there is always at least one.
pub open spec fn segments(s: Seq<char>, class: CharClass) -> Seq<Seq<char>>
    decreases s.len(),
{
    if s.len() == 0 {
        seq![Seq::empty()]
    } else {
        let before = segments(s.drop_last(), class);
        if class.has(s.last()) {
            before.push(Seq::empty())
        } else {
            before.drop_last().push(before.last().push(s.last()))
        }
    }
}

/// There is always at least one segment.
pub proof fn lemma_segments(s: Seq<char>, class: CharClass)
    ensures
        segments(s, class).len() >= 1,
    decreases s.len(),
{
    if s.len() > 0 {
        lemma_segments(s.drop_last(), class);
    }
}

/// Whether no character of `s` belongs to `class`.
pub open spec fn is_free_of(s: Seq<char>, class: CharClass) -> bool {
    forall|i: int| 0 <= i < s.len() ==> !class.has(#[trigger] s[i])
}

/// Whether what lies between `start` and `end` is what is left of `s` once it is trimmed.
pub open spec fn are_trim_bounds(s: Seq<char>, class: CharClass, start: int, end: int) -> bool {
    &&& 0 <= start <= end <= s.len()
    &&& forall|i: int| 0 <= i < start ==> class.has(#[trigger] s[i])
    &&& forall|i: int| end <= i < s.len() ==> class.has(#[trigger] s[i])
    &&& start < end ==> !class.has(s[start]) && !class.has(s[end - 1])
}

proof fn lemma_trim_start(s: Seq<char>, class: CharClass, start: int)
    requires
        0 <= start <= s.len(),
        forall|i: int| 0 <= i < start ==> class.has(#[trigger] s[i]),
        start < s.len() ==> !class.has(s[start]),
    ensures
        trim_start(s, class) == s.skip(start),
    decreases start,
{
    if start == 0 {
        assert(s.skip(0) =~= s);
    } else {
        let tail = s.drop_first();
        assert forall|i: int| 0 <= i < start - 1 implies class.has(#[trigger] tail[i]) by {
            assert(tail[i] == s[i + 1]);
        }
        assert(class.has(s[0]));
        lemma_trim_start(tail, class, start - 1);
        assert(tail.skip(start - 1) =~= s.skip(start));
    }
}

proof fn lemma_trim_end(s: Seq<char>, class: CharClass, end: int)
    requires
        0 <= end <= s.len(),
        forall|i: int| end <= i < s.len() ==> class.has(#[trigger] s[i]),
        0 < end ==> !class.has(s[end - 1]),
    ensures
        trim_end(s, class) == s.take(end),
    decreases s.len(),
{
    if end == s.len() {
        assert(s.take(end) =~= s);
    } else {
        assert(class.has(s[s.len() - 1]));
        lemma_trim_end(s.drop_last(), class, end);
        assert(s.drop_last().take(end) =~= s.take(end));
    }
}

/// What lies between the bounds of trimming is what is left.
pub proof fn lemma_trimmed(s: Seq<char>, class: CharClass, start: int, end: int)
    requires
        are_trim_bounds(s, class, start, end),
    ensures
        trimmed(s, class) == s.subrange(start, end),
{
    if start < end {
        let tail = s.skip(start);
        lemma_trim_start(s, class, start);
        assert forall|i: int| end - start <= i < tail.len() implies class.has(
            #[trigger] tail[i],
        ) by {
            assert(tail[i] == s[i + start]);
        }
        lemma_trim_end(tail, class, end - start);
        assert(tail.take(end - start) =~= s.subrange(start, end));
    } else {
        let n = s.len() as int;
        lemma_trim_start(s, class, n);
        assert(s.skip(n) =~= Seq::<char>::empty());
        assert(s.subrange(start, end) =~= Seq::<char>::empty());
    }
}

/// Where trimming `s` starts and ends.
pub proof fn lemma_trim_bounds(s: Seq<char>, class: CharClass) -> (bounds: (int, int))
    ensures
        are_trim_bounds(s, class, bounds.0, bounds.1),
        trimmed(s, class) == s.subrange(bounds.0, bounds.1),
    decreases s.len(),
{
    let n = s.len() as int;
    if n == 0 {
        lemma_trimmed(s, class, 0, 0);
        (0, 0)
    } else if class.has(s[0]) {
        let tail = s.drop_first();
        let (a, b) = lemma_trim_bounds(tail, class);
        assert forall|i: int| 0 <= i < a + 1 implies class.has(#[trigger] s[i]) by {
            if i > 0 {
                assert(s[i] == tail[i - 1]);
            }
        }
        assert forall|i: int| b + 1 <= i < n implies class.has(#[trigger] s[i]) by {
            assert(s[i] == tail[i - 1]);
        }
        lemma_trimmed(s, class, a + 1, b + 1);
        (a + 1, b + 1)
    } else if class.has(s[n - 1]) {
        let (a, b) = lemma_trim_bounds(s.drop_last(), class);
        assert forall|i: int| 0 <= i < a implies class.has(#[trigger] s[i]) by {
            assert(s[i] == s.drop_last()[i]);
        }
        assert forall|i: int| b <= i < n implies class.has(#[trigger] s[i]) by {
            if i < n - 1 {
                assert(s[i] == s.drop_last()[i]);
            }
        }
        lemma_trimmed(s, class, a, b);
        (a, b)
    } else {
        lemma_trimmed(s, class, 0, n);
        (0, n)
    }
}

/// Trimming trimmed text changes nothing.
pub proof fn trimming_twice_is_trimming_once(s: Seq<char>, class: CharClass)
    ensures
        trimmed(trimmed(s, class), class) == trimmed(s, class),
{
    let (a, b) = lemma_trim_bounds(s, class);
    let t = trimmed(s, class);
    lemma_trimmed(t, class, 0, t.len() as int);
    assert(t.subrange(0, t.len() as int) =~= t);
}

/// Text with no character of `class` at its ends is trimmed.
pub proof fn lemma_already_trimmed(s: Seq<char>, class: CharClass)
    requires
        s.len() > 0 ==> !class.has(s[0]) && !class.has(s.last()),
    ensures
        trimmed(s, class) == s,
{
    lemma_trimmed(s, class, 0, s.len() as int);
    assert(s.subrange(0, s.len() as int) =~= s);
}

/// Text that stays the same when it is trimmed has no character of `class` at its ends.
pub proof fn lemma_trimmed_ends(s: Seq<char>, class: CharClass)
    ensures
        trimmed(s, class).len() > 0 ==> !class.has(trimmed(s, class)[0]) && !class.has(
            trimmed(s, class).last(),
        ),
        forall|other: CharClass|
            is_free_of(s, other) ==> #[trigger] is_free_of(trimmed(s, class), other),
{
    let (a, b) = lemma_trim_bounds(s, class);
}

/// What trimming at the start leaves is text without some characters of `class` at its start, and
/// trimming it leaves the same.
pub proof fn lemma_trim_start_bound(s: Seq<char>, class: CharClass) -> (start: int)
    requires
        trimmed(s, class).len() > 0,
    ensures
        0 <= start < s.len(),
        forall|i: int| 0 <= i < start ==> class.has(#[trigger] s[i]),
        !class.has(s[start]),
        trim_start(s, class) == s.skip(start),
        trimmed(s.skip(start), class) == trimmed(s, class),
{
    let (a, b) = lemma_trim_bounds(s, class);
    lemma_trim_start(s, class, a);
    let t = s.skip(a);
    assert forall|i: int| b - a <= i < t.len() implies class.has(#[trigger] t[i]) by {
        assert(t[i] == s[i + a]);
    }
    lemma_trimmed(t, class, 0, b - a);
    assert(t.subrange(0, b - a) =~= s.subrange(a, b));
    a
}

/// What trimming at the end leaves is text without some characters of `class` at its end, and
/// trimming it leaves the same.
pub proof fn lemma_trim_end_bound(s: Seq<char>, class: CharClass) -> (end: int)
    requires
        trimmed(s, class).len() > 0,
    ensures
        0 < end <= s.len(),
        forall|i: int| end <= i < s.len() ==> class.has(#[trigger] s[i]),
        !class.has(s[end - 1]),
        trimmed(s.take(end), class) == trimmed(s, class),
{
    let (a, b) = lemma_trim_bounds(s, class);
    let t = s.take(b);
    assert forall|i: int| 0 <= i < a implies class.has(#[trigger] t[i]) by {
        assert(t[i] == s[i]);
    }
    lemma_trimmed(t, class, a, b);
    assert(t.subrange(a, b) =~= s.subrange(a, b));
    b
}

/// Trimming text that starts with `head` and ends with `tail` trims the start of `head` and the
/// end of `tail`.
pub proof fn lemma_trimmed_join(
    head: Seq<char>,
    tail: Seq<char>,
    class: CharClass,
    start: int,
    end: int,
)
    requires
        0 <= start < head.len(),
        0 < end <= tail.len(),
        forall|i: int| 0 <= i < start ==> class.has(#[trigger] head[i]),
        forall|i: int| end <= i < tail.len() ==> class.has(#[trigger] tail[i]),
        !class.has(head[start]),
        !class.has(tail[end - 1]),
    ensures
        trimmed(head + tail, class) == head.skip(start) + tail.take(end),
{
    let s = head + tail;
    let n = head.len() as int;
    assert forall|i: int| 0 <= i < start implies class.has(#[trigger] s[i]) by {
        assert(s[i] == head[i]);
    }
    assert forall|i: int| n + end <= i < s.len() implies class.has(#[trigger] s[i]) by {
        assert(s[i] == tail[i - n]);
    }
    lemma_trimmed(s, class, start, n + end);
    assert(s.subrange(start, n + end) =~= head.skip(start) + tail.take(end));
}

/// Segments hold no separators.
pub proof fn lemma_segments_free(s: Seq<char>, class: CharClass)
    ensures
        forall|i: int|
            0 <= i < segments(s, class).len() ==> is_free_of(#[trigger] segments(s, class)[i], class),
    decreases s.len(),
{
    if s.len() > 0 {
        let before = segments(s.drop_last(), class);
        lemma_segments_free(s.drop_last(), class);
        lemma_segments(s.drop_last(), class);
        let all = segments(s, class);
        assert forall|i: int| 0 <= i < all.len() implies is_free_of(#[trigger] all[i], class) by {
            if i < before.len() {
                assert(is_free_of(before[i], class));
            }
        }
    }
}

/// Text without separators is one segment.
pub proof fn lemma_one_segment(s: Seq<char>, class: CharClass)
    requires
        is_free_of(s, class),
    ensures
        segments(s, class) == seq![s],
    decreases s.len(),
{
    if s.len() > 0 {
        assert forall|i: int| 0 <= i < s.drop_last().len() implies !class.has(
            #[trigger] s.drop_last()[i],
        ) by {
            assert(s.drop_last()[i] == s[i]);
        }
        lemma_one_segment(s.drop_last(), class);
        assert(!class.has(s[s.len() - 1]));
        assert(s.drop_last().push(s.last()) =~= s);
        assert(segments(s, class) =~= seq![s]);
    } else {
        assert(s =~= Seq::<char>::empty());
    }
}

/// What follows the last separator is the last segment.
pub proof fn lemma_last_segment(s: Seq<char>, separator: char, t: Seq<char>, class: CharClass)
    requires
        class.has(separator),
        is_free_of(t, class),
    ensures
        segments(s.push(separator) + t, class) == segments(s, class).push(t),
    decreases t.len(),
{
    let whole = s.push(separator) + t;
    if t.len() == 0 {
        assert(whole =~= s.push(separator));
        assert(whole.drop_last() =~= s);
        assert(t =~= Seq::<char>::empty());
    } else {
        let shorter = t.drop_last();
        assert forall|i: int| 0 <= i < shorter.len() implies !class.has(#[trigger] shorter[i]) by {
            assert(shorter[i] == t[i]);
        }
        lemma_last_segment(s, separator, shorter, class);
        assert(whole.drop_last() =~= s.push(separator) + shorter);
        assert(whole.last() == t[t.len() - 1]);
        assert(shorter.push(t.last()) =~= t);
        assert(segments(whole, class) =~= segments(s, class).push(t));
    }
}

/// The ASCII lower case form of a character; other characters stay as they are.
pub open spec fn lower(c: char) -> char {
    if 'A' <= c && c <= 'Z' {
        ((c as u32) + 32) as char
    } else {
        c
    }
}

/// Every character of `s` in ASCII lower case.
pub open spec fn lowered(s: Seq<char>) -> Seq<char> {
    s.map_values(|c: char| lower(c))
}

/// The characters of `text`.
pub fn chars_of(text: &str) -> (r: Vec<char>)
    ensures
        r@ == text@,
{
    let mut r: Vec<char> = Vec::new();
    for c in it: text.chars()
        invariant
            it.seq() == text@,
            r@ == it.seq().take(it.index()),
    {
        r.push(c);
    }
    r
}

/// Whether two texts hold the same characters.
pub fn same_text(a: &str, b: &str) -> (r: bool)
    ensures
        r == (a@ == b@),
{
    a.to_owned() == b.to_owned()
}

/// Whether two texts are the same but for the case of ASCII letters.
pub fn same_text_ignoring_case(a: &str, b: &str) -> (r: bool)
    ensures
        r == (lowered(a@) == lowered(b@)),
{
    let x = chars_of(a);
    let y = chars_of(b);
    if x.len() != y.len() {
        assert(lowered(a@).len() != lowered(b@).len());
        return false;
    }
    for i in 0..x.len()
        invariant
            x@ == a@,
            y@ == b@,
            x@.len() == y@.len(),
            forall|j: int| 0 <= j < i ==> lower(x@[j]) == lower(y@[j]),
    {
        if lower_char(x[i]) != lower_char(y[i]) {
            assert(lowered(a@)[i as int] != lowered(b@)[i as int]);
            return false;
        }
    }
    assert(lowered(a@) =~= lowered(b@));
    true
}

/// The ASCII lower case form of `c`.
pub fn lower_char(c: char) -> (r: char)
    ensures
        r == lower(c),
{
    if 'A' <= c && c <= 'Z' {
        ((c as u8) + 32) as char
    } else {
        c
    }
}

/// `text` without the characters of `class` at either end.
pub fn trim(text: &str, class: CharClass) -> (r: &str)
    ensures
        r@ == trimmed(text@, class),
{
    let chars = chars_of(text);
    let mut start: usize = 0;
    assert(text@.skip(0) =~= text@);
    while start < chars.len() && class.contains(chars[start])
        invariant
            chars@ == text@,
            start <= chars@.len(),
            trim_start(text@.skip(start as int), class) == trim_start(text@, class),
        decreases chars@.len() - start,
    {
        assert(text@.skip(start as int).drop_first() =~= text@.skip(start + 1));
        start += 1;
    }
    let ghost tail = text@.skip(start as int);
    let mut end: usize = chars.len();
    assert(text@.subrange(start as int, end as int) =~= tail);
    while start < end && class.contains(chars[end - 1])
        invariant
            chars@ == text@,
            start <= end <= chars@.len(),
            trim_end(text@.subrange(start as int, end as int), class) == trim_end(tail, class),
        decreases end,
    {
        assert(text@.subrange(start as int, end as int).drop_last() =~= text@.subrange(
            start as int,
            end - 1,
        ));
        end -= 1;
    }
    text.substring_char(start, end)
}

/// What follows `prefix` in `text`, where `text` starts with it.
pub fn strip_prefix<'a>(text: &'a str, prefix: &str) -> (r: Option<&'a str>)
    ensures
        match r {
            Some(rest) => text@ == prefix@ + rest@,
            None => !prefix@.is_prefix_of(text@),
        },
{
    let chars = chars_of(text);
    let head = chars_of(prefix);
    if chars.len() < head.len() {
        return None;
    }
    for i in 0..head.len()
        invariant
            chars@ == text@,
            head@ == prefix@,
            head@.len() <= chars@.len(),
            forall|j: int| 0 <= j < i ==> head@[j] == chars@[j],
    {
        if chars[i] != head[i] {
            assert(text@.take(prefix@.len() as int)[i as int] != prefix@[i as int]);
            return None;
        }
    }
    let rest = text.substring_char(head.len(), chars.len());
    assert(text@ =~= prefix@ + rest@);
    Some(rest)
}

/// The views of a list of texts.
pub open spec fn text_views(texts: Seq<&str>) -> Seq<Seq<char>> {
    texts.map_values(|t: &str| t@)
}

/// The segments of `text` between the characters of `class`.
pub fn split(text: &str, class: CharClass) -> (r: Vec<&str>)
    ensures
        text_views(r@) == segments(text@, class),
{
    let chars = chars_of(text);
    let mut done: Vec<&str> = Vec::new();
    let mut start: usize = 0;
    assert(text@.take(0) =~= Seq::<char>::empty());
    assert(segments(text@.take(0), class) =~= text_views(done@).push(text@.subrange(0, 0)));
    for i in 0..chars.len()
        invariant
            chars@ == text@,
            start <= i,
            segments(text@.take(i as int), class) == text_views(done@).push(
                text@.subrange(start as int, i as int),
            ),
    {
        let ghost before = segments(text@.take(i as int), class);
        assert(text@.take(i + 1).drop_last() =~= text@.take(i as int));
        if class.contains(chars[i]) {
            let segment = text.substring_char(start, i);
            let ghost old_done = done@;
            done.push(segment);
            start = i + 1;
            assert(text_views(done@) =~= text_views(old_done).push(segment@));
            assert(text@.subrange(start as int, i + 1) =~= Seq::<char>::empty());
        } else {
            assert(before.drop_last() =~= text_views(done@));
            assert(text@.subrange(start as int, i + 1) =~= text@.subrange(
                start as int,
                i as int,
            ).push(text@[i as int]));
        }
    }
    assert(text@.take(chars@.len() as int) =~= text@);
    let segment = text.substring_char(start, chars.len());
    let ghost old_done = done@;
    done.push(segment);
    assert(text_views(done@) =~= text_views(old_done).push(segment@));
    done
}

/// The code points of white space are these, and slashes and colons separate, nothing else.
pub proof fn classes_hold_these_characters(c: char)
    ensures
        CharClass::WhiteSpace.has(c) <==> set![
            0x9u32, 0xa, 0xb, 0xc, 0xd, 0x20, 0x85, 0xa0, 0x1680, 0x2000, 0x2001, 0x2002, 0x2003,
            0x2004, 0x2005, 0x2006, 0x2007, 0x2008, 0x2009, 0x200a, 0x2028, 0x2029, 0x202f, 0x205f,
            0x3000,
        ].contains(c as u32),
        CharClass::Slash.has(c) <==> c == '/',
        CharClass::ColonOrSlash.has(c) <==> c == '/' || c == ':',
{
}

/// Whether every character of `s` belongs to `class`.
pub open spec fn is_made_of(s: Seq<char>, class: CharClass) -> bool {
    forall|i: int| 0 <= i < s.len() ==> class.has(#[trigger] s[i])
}

/// Trimming takes off what stands around a text, all of it and nothing else.
pub proof fn trimming_takes_off_what_surrounds(
    left: Seq<char>,
    text: Seq<char>,
    right: Seq<char>,
    class: CharClass,
)
    requires
        is_made_of(left, class),
        is_made_of(right, class),
        text.len() > 0 ==> !class.has(text[0]) && !class.has(text[text.len() - 1]),
    ensures
        trimmed(left + text + right, class) == text,
{
    let s = left + text + right;
    let (a, b) = (left.len() as int, (left.len() + text.len()) as int);
    assert forall|i: int| 0 <= i < a implies class.has(#[trigger] s[i]) by {
        assert(s[i] == left[i]);
    }
    assert forall|i: int| b <= i < s.len() implies class.has(#[trigger] s[i]) by {
        assert(s[i] == right[i - b]);
    }
    if text.len() > 0 {
        assert(s[a] == text[0]);
        assert(s[b - 1] == text[text.len() - 1]);
    }
    lemma_trimmed(s, class, a, b);
    assert(s.subrange(a, b) =~= text);
}

/// Every text is what trimming leaves of it between what trimming takes off.
pub proof fn every_text_can_be_trimmed(s: Seq<char>, class: CharClass) -> (around: (
    Seq<char>,
    Seq<char>,
))
    ensures
        s == around.0 + trimmed(s, class) + around.1,
        is_made_of(around.0, class),
        is_made_of(around.1, class),
        trimmed(s, class).len() > 0 ==> !class.has(trimmed(s, class)[0]) && !class.has(
            trimmed(s, class)[trimmed(s, class).len() - 1],
        ),
{
    let (a, b) = lemma_trim_bounds(s, class);
    let (left, right) = (s.take(a), s.skip(b));
    assert forall|i: int| 0 <= i < right.len() implies class.has(#[trigger] right[i]) by {
        assert(right[i] == s[i + b]);
    }
    assert(s =~= left + trimmed(s, class) + right);
    (left, right)
}

/// Whether `word` is `plain`, a word in lower case, but for the case of its ASCII letters.
pub open spec fn is_in_any_case(word: Seq<char>, plain: Seq<char>) -> bool {
    &&& word.len() == plain.len()
    &&& forall|i: int|
        0 <= i < word.len() ==> (#[trigger] word[i]) == plain[i] || ('A' <= word[i] && word[i]
            <= 'Z' && word[i] as int + 32 == plain[i] as int)
}

/// Whether no character of `s` is an ASCII letter in upper case.
pub open spec fn is_plain(s: Seq<char>) -> bool {
    forall|i: int| 0 <= i < s.len() ==> !('A' <= #[trigger] s[i] && s[i] <= 'Z')
}

/// The lower case form of a word is a plain one exactly where the word is it in any case.
pub proof fn lower_case_forgets_case_only(word: Seq<char>, plain: Seq<char>)
    requires
        is_plain(plain),
    ensures
        lowered(word) == plain <==> is_in_any_case(word, plain),
{
    let low = lowered(word);
    if is_in_any_case(word, plain) {
        assert forall|i: int| 0 <= i < low.len() implies low[i] == plain[i] by {
            assert(low[i] == lower(word[i]));
            assert(!('A' <= plain[i] && plain[i] <= 'Z'));
            if word[i] != plain[i] {
                assert(((word[i] as u32) + 32) as char == plain[i]);
            }
        }
        assert(low =~= plain);
    }
    if low == plain {
        assert forall|i: int| 0 <= i < word.len() implies (#[trigger] word[i]) == plain[i] || (
        'A' <= word[i] && word[i] <= 'Z' && word[i] as int + 32 == plain[i] as int) by {
            assert(low[i] == lower(word[i]));
        }
    }
}

/// A separator splits a text: the segments before it and those after it are its segments.
pub proof fn separators_split(s: Seq<char>, separator: char, t: Seq<char>, class: CharClass)
    requires
        class.has(separator),
    ensures
        segments(s.push(separator) + t, class) == segments(s, class) + segments(t, class),
    decreases t.len(),
{
    let whole = s.push(separator) + t;
    let (a, b) = (segments(s, class), segments(t, class));
    if t.len() == 0 {
        assert(whole =~= s.push(separator));
        assert(whole.drop_last() =~= s);
        assert(a.push(Seq::empty()) =~= a + b);
    } else {
        let shorter = t.drop_last();
        separators_split(s, separator, shorter, class);
        lemma_segments(shorter, class);
        assert(whole.drop_last() =~= s.push(separator) + shorter);
        assert(whole.last() == t.last());
        let before = a + segments(shorter, class);
        assert(before.last() == segments(shorter, class).last());
        assert(segments(whole, class) =~= a + b);
    }
}

} // verus!
