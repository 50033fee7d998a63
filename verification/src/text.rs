//! Texts as sequences of characters: comparison, search, order, and the
//! parts of std's Unicode handling that the library uses.

use vstd::prelude::*;

verus! {

/// The code point of `c` with the ASCII capitals folded onto the small letters.
pub open spec fn ascii_lower_code(c: char) -> u32 {
    if 65 <= c as u32 && c as u32 <= 90 {
        (c as u32 + 32) as u32
    } else {
        c as u32
    }
}

/// Two texts are equal up to the case of their ASCII letters.
pub open spec fn eq_ignore_ascii_case(a: Seq<char>, b: Seq<char>) -> bool {
    &&& a.len() == b.len()
    &&& forall|i: int| 0 <= i < a.len() ==> ascii_lower_code(#[trigger] a[i]) == ascii_lower_code(b[i])
}

/// `needle` occurs in `hay` as a contiguous run of characters.
pub open spec fn contains_text(hay: Seq<char>, needle: Seq<char>) -> bool {
    exists|i: int| 0 <= i && i + needle.len() <= hay.len() && #[trigger] hay.subrange(i, i + needle.len()) == needle
}

/// What `str::to_lowercase` makes of a text: its Unicode lower-case form.
pub uninterp spec fn lowercase(s: Seq<char>) -> Seq<char>;

/// What `str::to_uppercase` makes of a text: its Unicode upper-case form.
pub uninterp spec fn uppercase(s: Seq<char>) -> Seq<char>;

/// Whether `char::is_whitespace` holds of a character: it has the Unicode
/// property `White_Space`.
pub uninterp spec fn whitespace(c: char) -> bool;

/// The number of white-space characters that a text begins with.
pub open spec fn leading_space(s: Seq<char>) -> nat
    decreases s.len(),
{
    if s.len() > 0 && whitespace(s[0]) {
        1 + leading_space(s.drop_first())
    } else {
        0
    }
}

/// The number of white-space characters that a text ends with.
pub open spec fn trailing_space(s: Seq<char>) -> nat
    decreases s.len(),
{
    if s.len() > 0 && whitespace(s.last()) {
        1 + trailing_space(s.drop_last())
    } else {
        0
    }
}

/// The text without the white space at its two ends.
pub open spec fn trimmed(s: Seq<char>) -> Seq<char> {
    let front = s.skip(leading_space(s) as int);
    front.take(front.len() - trailing_space(front))
}

/// Calls `str::to_lowercase`. The result is the lower-case form that std's
/// Unicode tables give; the contract only names it.
#[verifier::external_body]
pub(crate) fn to_lowercase(s: &str) -> (r: String)
    ensures
        r@ == lowercase(s@),
{
    s.to_lowercase()
}

/// Calls `str::to_uppercase`. The result is the upper-case form that std's
/// Unicode tables give; the contract only names it.
#[verifier::external_body]
pub(crate) fn to_uppercase(s: &str) -> (r: String)
    ensures
        r@ == uppercase(s@),
{
    s.to_uppercase()
}

/// Calls `char::is_whitespace`, which looks the character up in std's
/// Unicode tables; the contract only names the answer.
#[verifier::external_body]
pub(crate) fn is_whitespace(c: char) -> (r: bool)
    ensures
        r == whitespace(c),
{
    c.is_whitespace()
}

/// The bounds of the run `chars[from..to]` without the white space at its
/// two ends.
pub fn trim_run(chars: &Vec<char>, from: usize, to: usize) -> (r: (usize, usize))
    requires
        from <= to <= chars.len(),
    ensures
        from <= r.0 <= r.1 <= to,
        chars@.subrange(r.0 as int, r.1 as int) == trimmed(chars@.subrange(from as int, to as int)),
{
    let ghost run = chars@.subrange(from as int, to as int);
    let mut a: usize = from;
    while a < to && is_whitespace(chars[a])
        invariant
            from <= a <= to <= chars.len(),
            run == chars@.subrange(from as int, to as int),
            leading_space(run) == (a - from) + leading_space(chars@.subrange(a as int, to as int)),
        decreases to - a,
    {
        assert(chars@.subrange(a as int, to as int).drop_first() =~= chars@.subrange(a + 1, to as int));
        a = a + 1;
    }
    let ghost front = chars@.subrange(a as int, to as int);
    assert(leading_space(front) == 0);
    assert(run.skip(a - from) =~= front);
    let mut b: usize = to;
    while b > a && is_whitespace(chars[b - 1])
        invariant
            a <= b <= to <= chars.len(),
            front == chars@.subrange(a as int, to as int),
            trailing_space(front) == (to - b) + trailing_space(chars@.subrange(a as int, b as int)),
        decreases b - a,
    {
        assert(chars@.subrange(a as int, b as int).drop_last() =~= chars@.subrange(a as int, b - 1));
        b = b - 1;
    }
    assert(trailing_space(chars@.subrange(a as int, b as int)) == 0);
    assert(front.take(front.len() - (to - b)) =~= chars@.subrange(a as int, b as int));
    (a, b)
}

/// The characters of `s`, in order.
pub fn chars_of(s: &str) -> (v: Vec<char>)
    ensures
        v@ == s@,
{
    let mut v: Vec<char> = Vec::new();
    for c in it: s.chars()
        invariant
            v@ == it.seq().take(it.index() as int),
            it.seq() == s@,
    {
        v.push(c);
    }
    v
}

/// The texts that a list of strings holds.
pub open spec fn texts(names: Seq<String>) -> Seq<Seq<char>> {
    names.map_values(|s: String| s@)
}

fn lower_code(c: char) -> (x: u32)
    ensures
        x == ascii_lower_code(c),
{
    let x: u32 = c as u32;
    if 65 <= x && x <= 90 {
        x + 32
    } else {
        x
    }
}

/// Compares the run `a[from..to]` with `b`, ignoring the case of ASCII letters.
pub(crate) fn run_eq_ignore_ascii_case(a: &Vec<char>, from: usize, to: usize, b: &Vec<char>) -> (r: bool)
    requires
        from <= to <= a.len(),
    ensures
        r == eq_ignore_ascii_case(a@.subrange(from as int, to as int), b@),
{
    if to - from != b.len() {
        return false;
    }
    let n: usize = b.len();
    let mut i: usize = 0;
    while i < n
        invariant
            i <= n,
            n == b.len(),
            n == to - from,
            from <= to <= a.len(),
            forall|k: int| 0 <= k < i ==> ascii_lower_code(#[trigger] a@.subrange(from as int, to as int)[k]) == ascii_lower_code(b[k]),
        decreases n - i,
    {
        if lower_code(a[from + i]) != lower_code(b[i]) {
            assert(a@.subrange(from as int, to as int)[i as int] == a[from + i]);
            return false;
        }
        assert(a@.subrange(from as int, to as int)[i as int] == a[from + i]);
        i = i + 1;
    }
    true
}

/// Whether `needle` occurs in `hay`.
pub fn contains_chars(hay: &Vec<char>, needle: &Vec<char>) -> (r: bool)
    ensures
        r == contains_text(hay@, needle@),
{
    let n: usize = needle.len();
    if n > hay.len() {
        return false;
    }
    let last: usize = hay.len() - n;
    let mut i: usize = 0;
    while i <= last
        invariant
            i <= last + 1,
            last + n == hay.len(),
            n == needle.len(),
            forall|k: int| 0 <= k < i ==> #[trigger] hay@.subrange(k, k + n) != needle@,
        decreases last + 1 - i,
    {
        let mut j: usize = 0;
        while j < n && hay[i + j] == needle[j]
            invariant
                j <= n,
                i <= last,
                last + n == hay.len(),
                n == needle.len(),
                forall|k: int| 0 <= k < j ==> hay[i + k] == needle[k],
            decreases n - j,
        {
            j = j + 1;
        }
        if j == n {
            assert(hay@.subrange(i as int, i + n) =~= needle@);
            return true;
        }
        assert(hay@.subrange(i as int, i + n)[j as int] != needle@[j as int]);
        i = i + 1;
    }
    false
}


/// Whether `char::is_alphabetic` holds of a character: it has the Unicode
/// property `Alphabetic`.
pub uninterp spec fn alphabetic(c: char) -> bool;

/// Whether `char::is_alphanumeric` holds of a character: it is alphabetic or
/// a Unicode number.
pub uninterp spec fn alphanumeric(c: char) -> bool;

/// Calls `char::is_alphabetic`, which looks the character up in std's
/// Unicode tables; the contract only names the answer.
#[verifier::external_body]
pub(crate) fn is_alphabetic(c: char) -> (r: bool)
    ensures
        r == alphabetic(c),
{
    c.is_alphabetic()
}

/// Calls `char::is_alphanumeric`, which looks the character up in std's
/// Unicode tables; the contract only names the answer.
#[verifier::external_body]
pub(crate) fn is_alphanumeric(c: char) -> (r: bool)
    ensures
        r == alphanumeric(c),
{
    c.is_alphanumeric()
}

/// `a` comes before `b` from place `i` on, or equals it: the order of a
/// dictionary, by the code points of the characters.
pub open spec fn text_le_from(a: Seq<char>, b: Seq<char>, i: int) -> bool
    decreases a.len() - i,
{
    if i < 0 || i >= a.len() {
        true
    } else if i >= b.len() {
        false
    } else if a[i] != b[i] {
        (a[i] as u32) < (b[i] as u32)
    } else {
        text_le_from(a, b, i + 1)
    }
}

/// `a` comes before `b` in the order of a dictionary, or equals it.
pub open spec fn text_le(a: Seq<char>, b: Seq<char>) -> bool {
    text_le_from(a, b, 0)
}

/// Whether `a` comes before `b` in the order of a dictionary, or equals it.
pub fn chars_le(a: &Vec<char>, b: &Vec<char>) -> (r: bool)
    ensures
        r == text_le(a@, b@),
{
    let mut i: usize = 0;
    while i < a.len()
        invariant
            i <= a.len(),
            text_le(a@, b@) == text_le_from(a@, b@, i as int),
        decreases a.len() - i,
    {
        if i >= b.len() {
            return false;
        }
        if a[i] != b[i] {
            return (a[i] as u32) < (b[i] as u32);
        }
        i = i + 1;
    }
    true
}

/// Whether two texts are the same.
pub fn chars_eq(a: &Vec<char>, b: &Vec<char>) -> (r: bool)
    ensures
        r == (a@ == b@),
{
    if a.len() != b.len() {
        return false;
    }
    let mut i: usize = 0;
    while i < a.len()
        invariant
            i <= a.len(),
            a.len() == b.len(),
            forall|k: int| 0 <= k < i ==> a[k] == b[k],
        decreases a.len() - i,
    {
        if a[i] != b[i] {
            return false;
        }
        i = i + 1;
    }
    assert(a@ =~= b@);
    true
}

} // verus!
