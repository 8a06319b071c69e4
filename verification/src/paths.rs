//! Path-string helpers: the trailing-slash predicate of the condition
//! language and the file-path components that seed the synthetic
//! `MSBuildThisFile*` properties.
//!
//! Paths are treated as plain strings with `/` as the directory separator.

use vstd::prelude::*;

verus! {

/// True iff the string ends with a forward or backward slash.
pub open spec fn spec_has_trailing_slash(s: Seq<char>) -> bool {
    s.len() > 0 && (s[s.len() - 1] == '/' || s[s.len() - 1] == '\\')
}

/// `HasTrailingSlash(s)` of the condition language.
pub fn has_trailing_slash(s: &str) -> (r: bool)
    ensures
        r == spec_has_trailing_slash(s@),
{
    let n = s.unicode_len();
    if n == 0 {
        false
    } else {
        let c = s.get_char(n - 1);
        c == '/' || c == '\\'
    }
}

/// The greatest index at which `c` stands, or `-1` when it is absent.
pub open spec fn spec_last_pos(s: Seq<char>, c: char) -> int
    decreases s.len(),
{
    if s.len() == 0 {
        -1
    } else if s.last() == c {
        s.len() - 1
    } else {
        spec_last_pos(s.drop_last(), c)
    }
}

proof fn lemma_last_pos_region(s: Seq<char>, c: char, j: int)
    requires
        -1 <= j < s.len(),
        forall|q: int| j < q < s.len() ==> s[q] != c,
        j >= 0 ==> s[j] == c,
    ensures
        spec_last_pos(s, c) == j,
    decreases s.len(),
{
    if s.len() > 0 && s.last() != c {
        lemma_last_pos_region(s.drop_last(), c, j);
    }
}

/// The index of the last `c` in `s`, as `None`/`Some`.
fn last_pos_of(s: &str, c: char) -> (r: Option<usize>)
    ensures
        match r {
            Some(p) => p < s@.len() && spec_last_pos(s@, c) == p as int,
            None => spec_last_pos(s@, c) == -1,
        },
{
    let n = s.unicode_len();
    let mut j = n;
    while j > 0
        invariant
            j <= n,
            n == s@.len(),
            forall|q: int| j <= q < n ==> s@[q] != c,
        decreases j,
    {
        if s.get_char(j - 1) == c {
            proof {
                lemma_last_pos_region(s@, c, j - 1);
            }
            return Some(j - 1);
        }
        j -= 1;
    }
    proof {
        lemma_last_pos_region(s@, c, -1);
    }
    None
}

/// The part of a path after its last `/`; the whole path when it has none.
/// Paths are expected to name files, so this is empty only for a path that
/// ends in `/`.
pub open spec fn spec_file_name(s: Seq<char>) -> Seq<char> {
    s.subrange(spec_last_pos(s, '/') + 1, s.len() as int)
}

/// The part of a path before its last `/`, with the trailing separator
/// enforced; `/` for a path with no directory part.
pub open spec fn spec_directory(s: Seq<char>) -> Seq<char> {
    let p = spec_last_pos(s, '/');
    if p == -1 {
        seq!['/']
    } else {
        let pre = s.subrange(0, p);
        if pre.len() > 0 && pre.last() == '/' {
            pre
        } else {
            pre.push('/')
        }
    }
}

/// The part of a file name after its final `.`; `None` when the name has no
/// `.`, or only a leading one.
pub open spec fn spec_extension(name: Seq<char>) -> Option<Seq<char>> {
    let d = spec_last_pos(name, '.');
    if d <= 0 {
        None
    } else {
        Some(name.subrange(d + 1, name.len() as int))
    }
}

/// The part of a file name before its final `.`; the whole name when the
/// name has no `.`, or only a leading one.
pub open spec fn spec_stem(name: Seq<char>) -> Seq<char> {
    let d = spec_last_pos(name, '.');
    if d <= 0 {
        name
    } else {
        name.subrange(0, d)
    }
}

/// The file-name part of a path.
pub fn file_name_of(path: &str) -> (r: String)
    ensures
        r@ == spec_file_name(path@),
{
    let n = path.unicode_len();
    match last_pos_of(path, '/') {
        Some(p) => path.substring_char(p + 1, n).to_owned(),
        None => {
            proof {
                assert(path@.subrange(0, n as int) =~= path@);
            }
            path.substring_char(0, n).to_owned()
        },
    }
}

/// The directory part of a path, trailing separator enforced.
pub fn directory_of(path: &str) -> (r: String)
    ensures
        r@ == spec_directory(path@),
{
    match last_pos_of(path, '/') {
        Some(p) => {
            if p > 0 && path.get_char(p - 1) == '/' {
                path.substring_char(0, p).to_owned()
            } else {
                let mut d = path.substring_char(0, p).to_owned();
                d.append("/");
                proof {
                    reveal_strlit("/");
                    assert(d@ =~= spec_directory(path@));
                }
                d
            }
        },
        None => {
            let mut d = String::new();
            d.append("/");
            proof {
                reveal_strlit("/");
                assert(d@ =~= spec_directory(path@));
            }
            d
        },
    }
}

/// The extension of the file named by a path.
pub fn extension_of(path: &str) -> (r: Option<String>)
    ensures
        match r {
            Some(e) => spec_extension(spec_file_name(path@)) == Some(e@),
            None => spec_extension(spec_file_name(path@)) is None,
        },
{
    let name = file_name_of(path);
    let n = name.as_str().unicode_len();
    match last_pos_of(name.as_str(), '.') {
        Some(d) => {
            if d == 0 {
                None
            } else {
                Some(name.as_str().substring_char(d + 1, n).to_owned())
            }
        },
        None => None,
    }
}

/// The stem (name without extension) of the file named by a path.
pub fn stem_of(path: &str) -> (r: String)
    ensures
        r@ == spec_stem(spec_file_name(path@)),
{
    let name = file_name_of(path);
    let n = name.as_str().unicode_len();
    match last_pos_of(name.as_str(), '.') {
        Some(d) => {
            if d == 0 {
                name
            } else {
                name.as_str().substring_char(0, d).to_owned()
            }
        },
        None => name,
    }
}

} // verus!
