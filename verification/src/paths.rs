//! Plain-string path arithmetic.
//!
//! The library carries filesystem paths as strings with `/` separators;
//! enumeration of real directories happens outside. These helpers take
//! paths apart: the parent, the file name, the stem, a component split,
//! and prefix tests.

use vstd::prelude::*;

verus! {

/// The position of the last occurrence of `c` in `s`, if any.
pub open spec fn last_pos(s: Seq<char>, c: char) -> Option<int>
    decreases s.len(),
{
    if s.len() == 0 {
        None
    } else if s.last() == c {
        Some(s.len() - 1)
    } else {
        last_pos(s.drop_last(), c)
    }
}

/// A scan from the end that saw `c` nowhere after `i` pins `last_pos`.
pub proof fn lemma_last_pos_scan(s: Seq<char>, c: char, i: int)
    requires
        -1 <= i < s.len(),
        forall|k: int| i < k < s.len() ==> s[k] != c,
        i >= 0 ==> s[i] == c,
    ensures
        last_pos(s, c) == if i >= 0 {
            Some(i)
        } else {
            None::<int>
        },
    decreases s.len(),
{
    if s.len() > 0 && s.last() != c {
        lemma_last_pos_scan(s.drop_last(), c, i);
    }
}

/// The position of the last occurrence of `c` in `s`, if any.
pub fn find_last(s: &str, c: char) -> (r: Option<usize>)
    ensures
        match r {
            Some(i) => last_pos(s@, c) == Some(i as int) && i < s@.len(),
            None => last_pos(s@, c) is None,
        },
{
    let n = s.unicode_len();
    let mut i: usize = n;
    while i > 0
        invariant
            n == s@.len(),
            0 <= i <= n,
            forall|k: int| i <= k < n ==> s@[k] != c,
        decreases i,
    {
        i -= 1;
        if s.get_char(i) == c {
            proof {
                lemma_last_pos_scan(s@, c, i as int);
            }
            return Some(i);
        }
    }
    proof {
        lemma_last_pos_scan(s@, c, -1);
    }
    None
}

/// Everything before the last `/` of `s`; empty where there is none.
pub open spec fn parent_of(s: Seq<char>) -> Seq<char> {
    match last_pos(s, '/') {
        Some(i) => s.take(i),
        None => Seq::empty(),
    }
}

/// Everything before the last `/` of `s`.
pub fn parent_path(s: &str) -> (r: String)
    ensures
        r@ == parent_of(s@),
{
    match find_last(s, '/') {
        Some(i) => s.substring_char(0, i).to_owned(),
        None => String::new(),
    }
}

/// Everything after the last `/` of `s`, or all of it.
pub open spec fn file_name_of(s: Seq<char>) -> Seq<char> {
    match last_pos(s, '/') {
        Some(i) => s.skip(i + 1),
        None => s,
    }
}

/// Everything after the last `/` of `s`, or all of it.
pub fn file_name(s: &str) -> (r: String)
    ensures
        r@ == file_name_of(s@),
{
    let n = s.unicode_len();
    match find_last(s, '/') {
        Some(i) => {
            let r = s.substring_char(i + 1, n).to_owned();
            proof {
                assert(s@.subrange(i + 1, n as int) =~= s@.skip(i + 1));
            }
            r
        },
        None => s.to_owned(),
    }
}

/// The file name of `s` without its last extension; a leading dot does
/// not begin an extension.
pub open spec fn stem_of(s: Seq<char>) -> Seq<char> {
    let name = file_name_of(s);
    match last_pos(name, '.') {
        Some(i) => if i > 0 {
            name.take(i)
        } else {
            name
        },
        None => name,
    }
}

/// The file name of `s` without its last extension.
pub fn file_stem(s: &str) -> (r: String)
    ensures
        r@ == stem_of(s@),
{
    let name = file_name(s);
    match find_last(name.as_str(), '.') {
        Some(i) => {
            if i > 0 {
                name.as_str().substring_char(0, i).to_owned()
            } else {
                name
            }
        },
        None => name,
    }
}

/// Whether the name of `s` ends in a dot followed by `ext`.
pub open spec fn has_extension(s: Seq<char>, ext: Seq<char>) -> bool {
    let name = file_name_of(s);
    match last_pos(name, '.') {
        Some(i) => i > 0 && name.skip(i + 1) == ext,
        None => false,
    }
}

/// Whether the name of `s` ends in a dot followed by `ext`.
pub fn path_has_extension(s: &str, ext: &str) -> (r: bool)
    ensures
        r == has_extension(s@, ext@),
{
    let name = file_name(s);
    let n = name.unicode_len();
    match find_last(name.as_str(), '.') {
        Some(i) => {
            if i == 0 {
                false
            } else {
                let after = name.as_str().substring_char(i + 1, n);
                proof {
                    assert(name@.subrange(i + 1, n as int) =~= name@.skip(i + 1));
                }
                crate::json::str_eq(after, ext)
            }
        },
        None => false,
    }
}

/// `a` and `b` joined with a `/`.
pub open spec fn joined(a: Seq<char>, b: Seq<char>) -> Seq<char> {
    a + seq!['/'] + b
}

/// `a` and `b` joined with a `/`.
pub fn join_path(a: &str, b: &str) -> (r: String)
    ensures
        r@ == joined(a@, b@),
{
    let mut out = a.to_owned();
    out.append("/");
    out.append(b);
    proof {
        reveal_strlit("/");
        assert("/"@ =~= seq!['/']);
        assert(out@ =~= joined(a@, b@));
    }
    out
}

/// Whether `p` is a prefix of `s`.
pub fn str_starts_with(s: &str, p: &str) -> (r: bool)
    ensures
        r == p@.is_prefix_of(s@),
{
    let n = s.unicode_len();
    let m = p.unicode_len();
    if m > n {
        return false;
    }
    let mut i: usize = 0;
    while i < m
        invariant
            n == s@.len(),
            m == p@.len(),
            m <= n,
            0 <= i <= m,
            forall|k: int| 0 <= k < i ==> s@[k] == p@[k],
        decreases m - i,
    {
        if s.get_char(i) != p.get_char(i) {
            proof {
                assert(!(p@ =~= s@.take(m as int)));
            }
            return false;
        }
        i += 1;
    }
    proof {
        assert(p@ =~= s@.take(m as int));
    }
    true
}

/// The pieces of `s` split on `sep`, from the piece beginning at
/// `start`, the scan standing at `i`.
pub open spec fn split_scan(s: Seq<char>, start: int, i: int, sep: char) -> Seq<Seq<char>>
    decreases s.len() - i,
{
    if i < start || i >= s.len() {
        seq![s.subrange(start, s.len() as int)]
    } else if s[i] == sep {
        seq![s.subrange(start, i)] + split_scan(s, i + 1, i + 1, sep)
    } else {
        split_scan(s, start, i + 1, sep)
    }
}

/// The pieces of `s`, split on `sep`.
pub open spec fn split_of(s: Seq<char>, sep: char) -> Seq<Seq<char>> {
    split_scan(s, 0, 0, sep)
}

/// The components of `s`, split on `/`.
pub open spec fn components_of(s: Seq<char>) -> Seq<Seq<char>> {
    split_of(s, '/')
}

/// The pieces of `s`, split on `sep`.
#[verifier::loop_isolation(false)]
pub fn split_on(s: &str, sep: char) -> (r: Vec<String>)
    ensures
        r@.map_values(|t: String| t@) == split_of(s@, sep),
{
    let n = s.unicode_len();
    let mut out: Vec<String> = Vec::new();
    let mut start: usize = 0;
    let mut i: usize = 0;
    while i < n
        invariant
            0 <= start <= i <= n,
            split_of(s@, sep) =~= out@.map_values(|t: String| t@) + split_scan(
                s@,
                start as int,
                i as int,
                sep,
            ),
        decreases n - i,
    {
        let c = s.get_char(i);
        if c == sep {
            let ghost prev = out@.map_values(|t: String| t@);
            let ghost old_start = start as int;
            out.push(s.substring_char(start, i).to_owned());
            start = i + 1;
            proof {
                assert(out@.map_values(|t: String| t@) =~= prev + seq![
                    s@.subrange(old_start, i as int)]);
            }
        }
        i += 1;
    }
    let ghost prev = out@.map_values(|t: String| t@);
    out.push(s.substring_char(start, n).to_owned());
    proof {
        assert(out@.map_values(|t: String| t@) =~= prev + seq![
            s@.subrange(start as int, n as int)]);
    }
    out
}

/// The components of `s`, split on `/`.
pub fn split_components(s: &str) -> (r: Vec<String>)
    ensures
        r@.map_values(|t: String| t@) == components_of(s@),
{
    split_on(s, '/')
}

/// Whether `n` occurs in `h` as a contiguous run.
pub open spec fn has_sub(h: Seq<char>, n: Seq<char>) -> bool {
    exists|i: int| 0 <= i && i + n.len() <= h.len() && #[trigger] h.subrange(i, i + n.len()) == n
}

/// Whether `n` occurs in `h` as a contiguous run.
#[verifier::loop_isolation(false)]
pub fn str_contains(h: &str, n: &str) -> (r: bool)
    ensures
        r == has_sub(h@, n@),
{
    let hn = h.unicode_len();
    let nn = n.unicode_len();
    if nn > hn {
        return false;
    }
    if nn == 0 {
        proof {
            assert(h@.subrange(0, 0 + n@.len() as int) =~= n@);
        }
        return true;
    }
    let mut i: usize = 0;
    while i <= hn - nn
        invariant
            0 <= i <= hn - nn + 1,
            forall|k: int| 0 <= k < i ==> #[trigger] h@.subrange(k, k + nn as int) != n@,
        decreases hn - nn - i + 1,
    {
        let piece = h.substring_char(i, i + nn);
        if crate::json::str_eq(piece, n) {
            proof {
                assert(h@.subrange(i as int, i as int + n@.len() as int) == n@);
            }
            return true;
        }
        i += 1;
    }
    proof {
        assert forall|k: int| !(0 <= k && k + n@.len() <= h@.len() && #[trigger] h@.subrange(
            k,
            k + n@.len(),
        ) == n@) by {
            if 0 <= k && k + n@.len() <= h@.len() {
                assert(k < i);
            }
        }
    }
    false
}

} // verus!
