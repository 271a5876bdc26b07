//! Text as sequences of characters.

use vstd::prelude::*;

verus! {

/// `String::push` appends one character to the end of the string.
pub assume_specification[ String::push ](s: &mut String, c: char)
    ensures
        final(s)@ == old(s)@.push(c),
;

/// The characters with the Unicode property White_Space.
pub open spec fn white_space(c: char) -> bool {
    ||| '\u{9}' <= c <= '\u{d}'
    ||| c == '\u{20}'
    ||| c == '\u{85}'
    ||| c == '\u{a0}'
    ||| c == '\u{1680}'
    ||| '\u{2000}' <= c <= '\u{200a}'
    ||| c == '\u{2028}'
    ||| c == '\u{2029}'
    ||| c == '\u{202f}'
    ||| c == '\u{205f}'
    ||| c == '\u{3000}'
}

/// `s` without the white space at its end.
pub open spec fn trimmed(s: Seq<char>) -> Seq<char>
    decreases s.len(),
{
    if s.len() > 0 && white_space(s.last()) {
        trimmed(s.drop_last())
    } else {
        s
    }
}

/// The ASCII upper case letters become lower case; every other character stays.
pub open spec fn ascii_lower(c: char) -> char {
    if 'A' <= c <= 'Z' {
        (c as u32 + 32) as char
    } else {
        c
    }
}

/// `a` and `b` differ at most in the case of ASCII letters.
pub open spec fn same_ignoring_case(a: Seq<char>, b: Seq<char>) -> bool {
    &&& a.len() == b.len()
    &&& forall|i: int| 0 <= i < a.len() ==> ascii_lower(#[trigger] a[i]) == ascii_lower(b[i])
}

/// `s` with every `from` replaced by `to`.
pub open spec fn with_replaced(s: Seq<char>, from: char, to: char) -> Seq<char> {
    s.map_values(|c: char| if c == from { to } else { c })
}

/// The characters of `s`.
pub fn to_chars(s: &str) -> (chars: Vec<char>)
    ensures
        chars@ == s@,
{
    let mut chars: Vec<char> = Vec::new();
    for c in it: s.chars()
        invariant
            it.seq() == s@,
            chars@ == s@.take(it.index()),
    {
        chars.push(c);
    }
    chars
}

/// The string of the given characters.
pub fn from_chars(chars: &[char]) -> (s: String)
    ensures
        s@ == chars@,
{
    let mut s: String = String::new();
    for i in 0..chars.len()
        invariant
            s@ == chars@.take(i as int),
    {
        s.push(chars[i]);
    }
    s
}

/// Whether `c` is white space.
pub fn is_white_space(c: char) -> (yes: bool)
    ensures
        yes == white_space(c),
{
    ('\u{9}' <= c && c <= '\u{d}') || c == '\u{20}' || c == '\u{85}' || c == '\u{a0}' || c
        == '\u{1680}' || ('\u{2000}' <= c && c <= '\u{200a}') || c == '\u{2028}' || c == '\u{2029}'
        || c == '\u{202f}' || c == '\u{205f}' || c == '\u{3000}'
}

/// The text without the white space at its end.
pub fn trim_end(s: &[char]) -> (t: &[char])
    ensures
        t@ == trimmed(s@),
{
    let mut n: usize = s.len();
    assert(s@.take(n as int) == s@);
    while n > 0 && is_white_space(s[n - 1])
        invariant
            n <= s@.len(),
            trimmed(s@.take(n as int)) == trimmed(s@),
        decreases n,
    {
        assert(s@.take(n as int).drop_last() == s@.take(n - 1));
        n = n - 1;
    }
    vstd::slice::slice_subrange(s, 0, n)
}

/// Whether two texts are the same.
pub fn same_text(a: &[char], b: &str) -> (yes: bool)
    ensures
        yes == (a@ == b@),
{
    let other: Vec<char> = to_chars(b);
    if a.len() != other.len() {
        return false;
    }
    for i in 0..a.len()
        invariant
            other@ == b@,
            a@.len() == b@.len(),
            forall|j: int| 0 <= j < i ==> a@[j] == b@[j],
    {
        if a[i] != other[i] {
            return false;
        }
    }
    assert(a@ == b@);
    true
}

/// The lower case of an ASCII letter.
pub fn to_ascii_lower(c: char) -> (l: char)
    ensures
        l == ascii_lower(c),
{
    if 'A' <= c && c <= 'Z' {
        (c as u8 + 32) as char
    } else {
        c
    }
}

/// Whether two texts are the same but for the case of ASCII letters.
pub fn eq_ignore_ascii_case(a: &str, b: &str) -> (yes: bool)
    ensures
        yes == same_ignoring_case(a@, b@),
{
    let left: Vec<char> = to_chars(a);
    let right: Vec<char> = to_chars(b);
    if left.len() != right.len() {
        return false;
    }
    for i in 0..left.len()
        invariant
            left@ == a@,
            right@ == b@,
            a@.len() == b@.len(),
            forall|j: int| 0 <= j < i ==> ascii_lower(#[trigger] a@[j]) == ascii_lower(b@[j]),
    {
        if to_ascii_lower(left[i]) != to_ascii_lower(right[i]) {
            return false;
        }
    }
    true
}

/// The text with every `from` replaced by `to`.
pub fn replace_char(s: &str, from: char, to: char) -> (r: String)
    ensures
        r@ == with_replaced(s@, from, to),
{
    let chars: Vec<char> = to_chars(s);
    let mut r: String = String::new();
    for i in 0..chars.len()
        invariant
            chars@ == s@,
            r@ == with_replaced(s@.take(i as int), from, to),
    {
        let c: char = if chars[i] == from { to } else { chars[i] };
        r.push(c);
        assert(s@.take(i + 1) == s@.take(i as int).push(s@[i as int]));
    }
    assert(s@.take(s@.len() as int) == s@);
    r
}

/// Trimming leaves the text up to its last character that is not white space, and trimming again
/// changes nothing.
pub proof fn law_trimmed(s: Seq<char>)
    ensures
        trimmed(s).len() <= s.len(),
        trimmed(s) == s.take(trimmed(s).len() as int),
        forall|i: int| trimmed(s).len() <= i < s.len() ==> white_space(#[trigger] s[i]),
        trimmed(s).len() > 0 ==> !white_space(trimmed(s).last()),
        trimmed(trimmed(s)) == trimmed(s),
    decreases s.len(),
{
    if s.len() > 0 && white_space(s.last()) {
        law_trimmed(s.drop_last());
        let t = trimmed(s);
        assert(s.drop_last().take(t.len() as int) == s.take(t.len() as int));
        assert forall|i: int| t.len() <= i < s.len() implies white_space(#[trigger] s[i]) by {
            if i < s.len() - 1 {
                assert(s.drop_last()[i] == s[i]);
            }
        }
    } else {
        assert(s.take(s.len() as int) == s);
    }
}

/// The white space among the characters: five control characters, the space, the next line
/// character, and the spaces and separators beyond Latin-1. No letter, digit or sign is among them.
pub proof fn law_white_space_characters(c: char)
    ensures
        (c as u32) < 0x80 ==> (white_space(c) <==> c == ' ' || c == '\t' || c == '\n' || c == '\r'
            || c == '\u{b}' || c == '\u{c}'),
        0x80 <= (c as u32) < 0x2000 ==> (white_space(c) <==> c as u32 == 0x85 || c as u32 == 0xa0
            || c as u32 == 0x1680),
        0x2000 <= (c as u32) ==> (white_space(c) <==> c as u32 <= 0x200a || c as u32 == 0x2028
            || c as u32 == 0x2029 || c as u32 == 0x202f || c as u32 == 0x205f || c as u32
            == 0x3000),
{
}

/// What is trimmed is exactly the white space at the end.
pub proof fn law_only_white_space_is_trimmed(text: Seq<char>, end: Seq<char>)
    requires
        text.len() > 0 ==> !white_space(text.last()),
        forall|i: int| 0 <= i < end.len() ==> white_space(#[trigger] end[i]),
    ensures
        trimmed(text + end) == text,
    decreases end.len(),
{
    let s = text + end;
    if end.len() == 0 {
        assert(s == text);
    } else {
        let fewer = end.drop_last();
        assert(white_space(end[end.len() - 1]));
        assert(s.drop_last() == text + fewer);
        assert forall|i: int| 0 <= i < fewer.len() implies white_space(#[trigger] fewer[i]) by {
            assert(white_space(end[i]));
        }
        law_only_white_space_is_trimmed(text, fewer);
    }
}

/// Two texts are the same but for the case of letters if at every place they have the same
/// character, or the two cases of a letter from A to Z, which are 32 apart.
pub proof fn law_case_is_that_of_letters(a: Seq<char>, b: Seq<char>)
    ensures
        same_ignoring_case(a, b) <==> a.len() == b.len() && forall|i: int|
            0 <= i < a.len() ==> {
                ||| #[trigger] a[i] == b[i]
                ||| 'A' <= a[i] <= 'Z' && b[i] as int == a[i] as int + 32
                ||| 'A' <= b[i] <= 'Z' && a[i] as int == b[i] as int + 32
            },
{
    if same_ignoring_case(a, b) {
        assert forall|i: int| 0 <= i < a.len() implies {
            ||| #[trigger] a[i] == b[i]
            ||| 'A' <= a[i] <= 'Z' && b[i] as int == a[i] as int + 32
            ||| 'A' <= b[i] <= 'Z' && a[i] as int == b[i] as int + 32
        } by {
            lemma_case(a[i], b[i]);
        }
    }
    if a.len() == b.len() && forall|i: int|
        0 <= i < a.len() ==> {
            ||| #[trigger] a[i] == b[i]
            ||| 'A' <= a[i] <= 'Z' && b[i] as int == a[i] as int + 32
            ||| 'A' <= b[i] <= 'Z' && a[i] as int == b[i] as int + 32
        } {
        assert forall|i: int| 0 <= i < a.len() implies ascii_lower(#[trigger] a[i]) == ascii_lower(
            b[i],
        ) by {
            lemma_case(a[i], b[i]);
        }
    }
}

proof fn lemma_case(a: char, b: char)
    ensures
        ascii_lower(a) == ascii_lower(b) <==> {
            ||| a == b
            ||| 'A' <= a <= 'Z' && b as int == a as int + 32
            ||| 'A' <= b <= 'Z' && a as int == b as int + 32
        },
{
}

/// Replacing a character changes nothing but that character, wherever it stands.
pub proof fn law_replaced(s: Seq<char>, from: char, to: char)
    ensures
        with_replaced(s, from, to).len() == s.len(),
        forall|i: int|
            0 <= i < s.len() && s[i] == from ==> #[trigger] with_replaced(s, from, to)[i] == to,
        forall|i: int|
            0 <= i < s.len() && s[i] != from ==> #[trigger] with_replaced(s, from, to)[i] == s[i],
{
}

} // verus!
