//! Paths as texts: their segments, the names that are ignored, hidden
//! files and file extensions.

use vstd::prelude::*;
use vstd::string::StrSliceExecFns;
use vstd::string::StringExecFns;
use crate::text::{chars_of, lowercase, texts, to_lowercase};

verus! {

/// A character that parts the segments of a path. The slash and the
/// backslash both do, on every platform: a path is taken as a text, and a
/// name that is ignored is ignored in either notation. So on a system whose
/// file names may hold a backslash, such a name counts as several segments.
pub open spec fn is_separator(c: char) -> bool {
    c == '/' || c == '\\'
}

/// `path[start..end]` is a segment of `path`: a longest run without a separator,
/// and not an empty one.
pub open spec fn is_segment(path: Seq<char>, start: int, end: int) -> bool {
    &&& 0 <= start < end <= path.len()
    &&& (start == 0 || is_separator(path[start - 1]))
    &&& (end == path.len() || is_separator(path[end]))
    &&& forall|k: int| start <= k < end ==> !is_separator(#[trigger] path[k])
}

/// `name` is an ignored name, whatever the case of its letters: its
/// lower-case form is one of the names of the list, which are in lower case.
pub open spec fn matches_any(name: Seq<char>, ignore: Seq<Seq<char>>) -> bool {
    exists|k: int| 0 <= k < ignore.len() && #[trigger] ignore[k] == lowercase(name)
}

/// Some segment of `path` is an ignored name.
pub open spec fn has_ignored_segment(path: Seq<char>, ignore: Seq<Seq<char>>) -> bool {
    exists|i: int, j: int| is_segment(path, i, j) && matches_any(#[trigger] path.subrange(i, j), ignore)
}

/// `path` is `root` itself or lies below it: it begins with `root`, and what
/// follows `root` in it begins a new segment.
pub open spec fn path_under(root: Seq<char>, path: Seq<char>) -> bool {
    &&& root.len() <= path.len()
    &&& path.subrange(0, root.len() as int) == root
    &&& (root.len() == path.len() || is_separator(path[root.len() as int]) || (root.len() > 0
        && is_separator(root[root.len() - 1])))
}

/// The path without the separators at its end.
pub open spec fn without_trailing_separators(path: Seq<char>) -> Seq<char>
    decreases path.len(),
{
    if path.len() > 0 && is_separator(path.last()) {
        without_trailing_separators(path.drop_last())
    } else {
        path
    }
}

/// The characters at the end of the path that follow its last separator.
pub open spec fn last_run(path: Seq<char>) -> Seq<char>
    decreases path.len(),
{
    if path.len() == 0 || is_separator(path.last()) {
        Seq::empty()
    } else {
        last_run(path.drop_last()).push(path.last())
    }
}

/// The name of what a path leads to: its last segment, or the empty text
/// where it has no segment.
pub open spec fn last_segment(path: Seq<char>) -> Seq<char> {
    last_run(without_trailing_separators(path))
}

/// A file is hidden when its name begins with a dot.
pub open spec fn is_hidden_name(name: Seq<char>) -> bool {
    name.len() > 0 && name[0] == '.'
}

/// The place of the last dot in `name`, or -1 where it has none.
pub open spec fn last_dot(name: Seq<char>) -> int
    decreases name.len(),
{
    if name.len() == 0 {
        -1
    } else if name.last() == '.' {
        name.len() - 1
    } else {
        last_dot(name.drop_last())
    }
}

/// The extension of a file name: what follows its last dot. A name without a
/// dot has none, nor has one whose only dot is its first character, nor has `..`.
pub open spec fn extension_of(name: Seq<char>) -> Option<Seq<char>> {
    if last_dot(name) <= 0 || name == seq!['.', '.'] {
        None
    } else {
        Some(name.skip(last_dot(name) + 1))
    }
}

/// The type recorded for a file: its extension in lower case, or `unknown`.
pub open spec fn file_type_of(name: Seq<char>) -> Seq<char> {
    match extension_of(name) {
        Some(ext) => lowercase(ext),
        None => "unknown"@,
    }
}

pub proof fn lemma_last_dot(name: Seq<char>)
    ensures
        -1 <= last_dot(name) < name.len(),
        last_dot(name) >= 0 ==> name[last_dot(name)] == '.',
        forall|k: int| last_dot(name) < k < name.len() ==> name[k] != '.',
    decreases name.len(),
{
    if name.len() > 0 && name.last() != '.' {
        let front = name.drop_last();
        lemma_last_dot(front);
        assert forall|k: int| last_dot(name) < k < name.len() implies name[k] != '.' by {
            if k < front.len() {
                assert(front[k] == name[k]);
            }
        }
    }
}

fn is_sep(c: char) -> (r: bool)
    ensures
        r == is_separator(c),
{
    c == '/' || c == '\\'
}

fn is_listed(lower: &String, ignore: &Vec<String>) -> (r: bool)
    ensures
        r == exists|k: int| 0 <= k < ignore.len() && #[trigger] texts(ignore@)[k] == lower@,
{
    let mut k: usize = 0;
    while k < ignore.len()
        invariant
            k <= ignore.len(),
            forall|m: int| 0 <= m < k ==> #[trigger] texts(ignore@)[m] != lower@,
        decreases ignore.len() - k,
    {
        assert(texts(ignore@)[k as int] == ignore[k as int]@);
        if ignore[k] == *lower {
            return true;
        }
        k = k + 1;
    }
    false
}

/// Whether a name is on the ignore list, whatever the case of its letters.
pub fn is_ignored_name(name: &str, ignore: &Vec<String>) -> (r: bool)
    ensures
        r == matches_any(name@, texts(ignore@)),
{
    let lower = to_lowercase(name);
    is_listed(&lower, ignore)
}

/// Whether some segment of `path` is an ignored name.
pub fn path_has_ignored_segment(path: &str, ignore: &Vec<String>) -> (r: bool)
    ensures
        r == has_ignored_segment(path@, texts(ignore@)),
{
    let chars = chars_of(path);
    let n: usize = chars.len();
    let mut start: usize = 0;
    let mut i: usize = 0;
    while i < n
        invariant
            n == chars.len(),
            chars@ == path@,
            start <= i <= n,
            start == 0 || is_separator(chars[start - 1]),
            forall|k: int| start <= k < i ==> !is_separator(#[trigger] chars[k]),
            forall|a: int, b: int|
                b < i && is_segment(chars@, a, b) ==> !matches_any(#[trigger] chars@.subrange(a, b), texts(ignore@)),
        decreases n - i,
    {
        if is_sep(chars[i]) {
            if start < i {
                if is_ignored_name(path.substring_char(start, i), ignore) {
                    assert(is_segment(chars@, start as int, i as int));
                    return true;
                }
            }
            assert forall|a: int, b: int| b < i + 1 && is_segment(chars@, a, b) implies !matches_any(
                #[trigger] chars@.subrange(a, b),
                texts(ignore@),
            ) by {
                if b == i {
                    if a < start {
                        assert(is_separator(chars[start - 1]));
                    } else if a > start {
                        assert(is_separator(chars[a - 1]));
                    }
                    assert(a == start);
                }
            }
            start = i + 1;
        } else {
            assert forall|a: int, b: int| b < i + 1 && is_segment(chars@, a, b) implies !matches_any(
                #[trigger] chars@.subrange(a, b),
                texts(ignore@),
            ) by {
            }
        }
        i = i + 1;
    }
    if start < n {
        if is_ignored_name(path.substring_char(start, n), ignore) {
            assert(is_segment(chars@, start as int, n as int));
            return true;
        }
    }
    assert forall|a: int, b: int| is_segment(chars@, a, b) implies !matches_any(
        #[trigger] chars@.subrange(a, b),
        texts(ignore@),
    ) by {
        if b == n {
            if a < start {
                assert(is_separator(chars[start - 1]));
            } else if a > start {
                assert(is_separator(chars[a - 1]));
            }
            assert(a == start);
        }
    }
    false
}

/// Where the last segment of a path begins and ends.
pub fn last_segment_bounds(path: &Vec<char>) -> (r: (usize, usize))
    ensures
        r.0 <= r.1 <= path.len(),
        path@.subrange(r.0 as int, r.1 as int) == last_segment(path@),
        r.0 < r.1 ==> is_segment(path@, r.0 as int, r.1 as int),
{
    let n: usize = path.len();
    let mut end: usize = n;
    assert(path@.take(n as int) =~= path@);
    while end > 0 && is_sep(path[end - 1])
        invariant
            end <= n,
            n == path.len(),
            without_trailing_separators(path@) == without_trailing_separators(path@.take(end as int)),
            forall|k: int| end <= k < n ==> is_separator(#[trigger] path[k]),
        decreases end,
    {
        assert(path@.take(end as int).drop_last() =~= path@.take(end - 1));
        end = end - 1;
    }
    let ghost kept = path@.take(end as int);
    assert(without_trailing_separators(kept) == kept);
    let mut start: usize = end;
    assert(path@.subrange(end as int, end as int) =~= Seq::<char>::empty());
    assert(last_run(kept) =~= last_run(path@.take(start as int)) + path@.subrange(start as int, end as int));
    while start > 0 && !is_sep(path[start - 1])
        invariant
            start <= end <= n,
            n == path.len(),
            kept == path@.take(end as int),
            last_run(kept) == last_run(path@.take(start as int)) + path@.subrange(start as int, end as int),
            forall|k: int| start <= k < end ==> !is_separator(#[trigger] path[k]),
        decreases start,
    {
        assert(path@.take(start as int).drop_last() =~= path@.take(start - 1));
        assert(path@.take(start as int).last() == path[start - 1]);
        assert(last_run(path@.take(start as int)) == last_run(path@.take(start - 1)).push(path[start - 1]));
        assert(last_run(path@.take(start - 1)).push(path[start - 1]) + path@.subrange(start as int, end as int)
            =~= last_run(path@.take(start - 1)) + path@.subrange(start - 1, end as int));
        start = start - 1;
    }
    assert(last_run(path@.take(start as int)) =~= Seq::<char>::empty());
    assert(last_run(kept) =~= path@.subrange(start as int, end as int));
    (start, end)
}

/// Whether `path` is `root` or lies below it.
pub fn is_path_under(root: &Vec<char>, path: &Vec<char>) -> (r: bool)
    ensures
        r == path_under(root@, path@),
{
    let n: usize = root.len();
    if n > path.len() {
        return false;
    }
    let mut i: usize = 0;
    while i < n
        invariant
            i <= n,
            n == root.len(),
            n <= path.len(),
            forall|k: int| 0 <= k < i ==> path[k] == root[k],
        decreases n - i,
    {
        if path[i] != root[i] {
            assert(path@.subrange(0, n as int)[i as int] != root@[i as int]);
            return false;
        }
        i = i + 1;
    }
    assert(path@.subrange(0, n as int) =~= root@);
    n == path.len() || is_sep(path[n]) || (n > 0 && is_sep(root[n - 1]))
}

/// Whether a file of this name is hidden.
pub fn is_hidden(name: &str) -> (r: bool)
    ensures
        r == is_hidden_name(name@),
{
    name.unicode_len() > 0 && name.get_char(0) == '.'
}

/// The extension of a file name, as it is written.
pub fn file_extension(name: &str) -> (ext: Option<String>)
    ensures
        match ext {
            Some(text) => extension_of(name@) == Some(text@),
            None => extension_of(name@) is None,
        },
{
    let chars = chars_of(name);
    let n: usize = chars.len();
    let mut dot: usize = n;
    let mut found: bool = false;
    while dot > 0 && !found
        invariant
            dot <= n,
            n == chars.len(),
            found ==> dot < n && chars[dot as int] == '.',
            forall|k: int| (if found { dot + 1 } else { dot as int }) <= k < n ==> chars[k] != '.',
        decreases dot + (if found { 0int } else { 1int }),
    {
        dot = dot - 1;
        if chars[dot] == '.' {
            found = true;
        }
    }
    proof {
        lemma_last_dot(chars@);
        if found {
            assert(last_dot(chars@) == dot);
        } else {
            assert(last_dot(chars@) == -1);
        }
    }
    let two_dots = n == 2 && chars[0] == '.' && chars[1] == '.';
    proof {
        if two_dots {
            assert(chars@ =~= seq!['.', '.']);
        }
    }
    if !found || dot == 0 || two_dots {
        None
    } else {
        let ext = name.substring_char(dot + 1, n);
        assert(ext@ =~= name@.skip(dot + 1));
        Some(String::from_str(ext))
    }
}

/// The type recorded for a file of this name.
pub fn get_file_type(name: &str) -> (r: String)
    ensures
        r@ == file_type_of(name@),
{
    match file_extension(name) {
        Some(ext) => to_lowercase(ext.as_str()),
        None => String::from_str("unknown"),
    }
}

} // verus!
