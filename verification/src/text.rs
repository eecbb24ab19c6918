//! Text assembly helpers shared by the connectors.
//!
//! Message content arrives in many shapes: plain strings, arrays of
//! parts, objects wrapping a `text` or `parts` field. [`flatten_content`]
//! concatenates every text fragment found, newline-separated. The other
//! helpers cut text safely: by line, by character count, and by a UTF-8
//! byte budget that never splits a character.

use vstd::prelude::*;
use crate::json::{elems_view, jv_of, members_view, JsonMember, JsonV, JsonValue};

verus! {

broadcast use vstd::std_specs::vec::axiom_vec_index_decreases, vstd::seq::axiom_seq_index_decreases, vstd::seq::axiom_seq_subrange_decreases;

/// The flattened text of `v`: strings themselves; arrays joined with a
/// newline between non-empty fragments; objects through their `text`,
/// else their `parts`, member; nothing otherwise.
pub open spec fn flatten_of(v: JsonV) -> Seq<char>
    decreases v, 0int, 0int,
{
    match v {
        JsonV::Str(s) => s,
        JsonV::Arr(items) => flatten_items_at(items, 0),
        JsonV::Obj(pairs) => {
            match flatten_member_at(pairs, 0, "text"@) {
                Some(t) => t,
                None => match flatten_member_at(pairs, 0, "parts"@) {
                    Some(p) => p,
                    None => Seq::empty(),
                },
            }
        },
        _ => Seq::empty(),
    }
}

/// The flattened texts of `items` from position `i` on, joined with a
/// newline between non-empty ones.
pub open spec fn flatten_items_at(items: Seq<JsonV>, i: int) -> Seq<char>
    decreases items, items.len() - i, 0int,
{
    if i < 0 || i >= items.len() {
        Seq::empty()
    } else {
        let head = flatten_of(items[i]);
        let tail = flatten_items_at(items, i + 1);
        if head.len() == 0 {
            tail
        } else if tail.len() == 0 {
            head
        } else {
            head + seq!['\n'] + tail
        }
    }
}

/// The flattened text of the first member named `key` at or after
/// position `i`, if any.
pub open spec fn flatten_member_at(
    pairs: Seq<(Seq<char>, JsonV)>,
    i: int,
    key: Seq<char>,
) -> Option<Seq<char>>
    decreases pairs, pairs.len() - i, 1int,
{
    if i < 0 || i >= pairs.len() {
        None
    } else if pairs[i].0 == key {
        Some(flatten_pair(pairs[i]))
    } else {
        flatten_member_at(pairs, i + 1, key)
    }
}

/// The flattened text of one member's value.
pub open spec fn flatten_pair(pair: (Seq<char>, JsonV)) -> Seq<char>
    decreases pair, 0int, 0int,
{
    flatten_of(pair.1)
}

/// The flattened text of `v`, as an owned string.
pub fn flatten_content(v: &JsonValue) -> (r: String)
    ensures
        r@ == flatten_of(v@),
    decreases v, 0int, 0int,
{
    match v {
        JsonValue::Str(s) => s.clone(),
        JsonValue::Arr(items) => {
            proof {
                crate::json::lemma_arr_view(*items);
            }
            flatten_items_from(items, 0)
        },
        JsonValue::Obj(members) => {
            proof {
                crate::json::lemma_obj_view(*members);
            }
            match flatten_named_member(members, 0, "text") {
                Some(t) => t,
                None => match flatten_named_member(members, 0, "parts") {
                    Some(p) => p,
                    None => String::new(),
                },
            }
        },
        _ => String::new(),
    }
}

/// Joins the flattened elements of `items` from position `idx` on.
fn flatten_items_from(items: &Vec<JsonValue>, idx: usize) -> (r: String)
    requires
        idx <= items@.len(),
    ensures
        r@ == flatten_items_at(elems_view(items@), idx as int),
    decreases items, items@.len() - idx, 0int,
{
    let ghost ev = elems_view(items@);
    if idx == items.len() {
        String::new()
    } else {
        let head = flatten_content(&items[idx]);
        let tail = flatten_items_from(items, idx + 1);
        proof {
            assert(ev[idx as int] == items@[idx as int]@);
        }
        if head.unicode_len() == 0 {
            tail
        } else if tail.unicode_len() == 0 {
            head
        } else {
            let mut out = head;
            out.append("\n");
            out.append(tail.as_str());
            proof {
                reveal_strlit("\n");
                assert("\n"@ =~= seq!['\n']);
                assert(out@ =~= flatten_of(ev[idx as int]) + seq!['\n'] + tail@);
            }
            out
        }
    }
}

/// The flattened value of the first member named `key` at or after
/// position `idx`, if any.
fn flatten_named_member(members: &Vec<JsonMember>, idx: usize, key: &str) -> (r: Option<String>)
    requires
        idx <= members@.len(),
    ensures
        match flatten_member_at(members_view(members@), idx as int, key@) {
            Some(t) => r matches Some(found) && found@ == t,
            None => r is None,
        },
    decreases members, members@.len() - idx, 0int,
{
    let ghost mv = members_view(members@);
    if idx == members.len() {
        None
    } else {
        proof {
            assert(mv[idx as int] == (members@[idx as int].key@, jv_of(
                members@[idx as int].value,
            )));
        }
        if crate::json::str_eq(members[idx].key.as_str(), key) {
            let val = flatten_member_value(&members[idx]);
            proof {
                assert(mv[idx as int].0 == key@);
                assert(flatten_member_at(mv, idx as int, key@) == Some(
                    flatten_pair(mv[idx as int]),
                ));
                assert(val@ == flatten_pair(mv[idx as int]));
            }
            Some(val)
        } else {
            let r = flatten_named_member(members, idx + 1, key);
            proof {
                assert(mv[idx as int].0 != key@);
                assert(flatten_member_at(mv, idx as int, key@) == flatten_member_at(
                    mv,
                    idx as int + 1,
                    key@,
                ));
            }
            r
        }
    }
}

/// The flattened text of one member's value.
fn flatten_member_value(m: &JsonMember) -> (r: String)
    ensures
        r@ == flatten_of(m.value@),
    decreases m, 1int, 0int,
{
    flatten_content(&m.value)
}

/// Whether `c` is blank space.
pub open spec fn is_space(c: char) -> bool {
    c == ' ' || c == '\t' || c == '\n' || c == '\r'
}

/// Whether `s` holds nothing but blank space.
pub open spec fn is_blank(s: Seq<char>) -> bool {
    forall|i: int| 0 <= i < s.len() ==> is_space(s[i])
}

/// Whether `s` holds nothing but blank space.
pub fn blank(s: &str) -> (r: bool)
    ensures
        r == is_blank(s@),
{
    let n = s.unicode_len();
    let mut i: usize = 0;
    while i < n
        invariant
            n == s@.len(),
            0 <= i <= n,
            forall|k: int| 0 <= k < i ==> is_space(s@[k]),
        decreases n - i,
    {
        let c = s.get_char(i);
        if !(c == ' ' || c == '\t' || c == '\n' || c == '\r') {
            return false;
        }
        i += 1;
    }
    true
}

/// Where the first newline of `s` stands, or the length of `s`.
pub open spec fn line_end(s: Seq<char>) -> int
    decreases s.len(),
{
    if s.len() == 0 {
        0
    } else if s[0] == '\n' {
        0
    } else {
        1 + line_end(s.drop_first())
    }
}

/// The first line of `s`: everything before the first newline, less a
/// trailing carriage return.
pub open spec fn first_line_of(s: Seq<char>) -> Seq<char> {
    let cut = s.take(line_end(s));
    if cut.len() > 0 && cut.last() == '\r' {
        cut.drop_last()
    } else {
        cut
    }
}

/// The first line of `s`.
pub fn first_line(s: &str) -> (r: String)
    ensures
        r@ == first_line_of(s@),
{
    let n = s.unicode_len();
    let mut i: usize = 0;
    while i < n && s.get_char(i) != '\n'
        invariant
            n == s@.len(),
            0 <= i <= n,
            forall|k: int| 0 <= k < i ==> s@[k] != '\n',
        decreases n - i,
    {
        i += 1;
    }
    proof {
        lemma_line_end_scan(s@, i as int);
    }
    let end: usize = if i > 0 && s.get_char(i - 1) == '\r' {
        i - 1
    } else {
        i
    };
    proof {
        assert(s@.take(i as int).len() == i);
        if i > 0 {
            assert(s@.take(i as int).last() == s@[i - 1]);
            assert(s@.take(i as int).drop_last() =~= s@.take(i - 1int));
        }
    }
    s.substring_char(0, end).to_owned()
}

/// A scan that saw no newline before `i` pins `line_end` down.
proof fn lemma_line_end_scan(s: Seq<char>, i: int)
    requires
        0 <= i <= s.len(),
        forall|k: int| 0 <= k < i ==> s[k] != '\n',
        i < s.len() ==> s[i] == '\n',
    ensures
        line_end(s) == i,
    decreases i,
{
    if i > 0 {
        lemma_line_end_scan(s.drop_first(), i - 1);
    }
}

/// The first `n` characters of `s`, or all of it when it is shorter.
pub fn take_chars(s: &str, n: usize) -> (r: String)
    ensures
        r@ == s@.take(if n <= s@.len() {
            n as int
        } else {
            s@.len() as int
        }),
{
    let len = s.unicode_len();
    let end = if n <= len {
        n
    } else {
        len
    };
    proof {
        if n > len {
            assert(s@.take(len as int) =~= s@);
        }
    }
    s.substring_char(0, end).to_owned()
}

/// The UTF-8 width of one character.
pub open spec fn utf8_len(c: char) -> int {
    if (c as u32) < 0x80 {
        1
    } else if (c as u32) < 0x800 {
        2
    } else if (c as u32) < 0x10000 {
        3
    } else {
        4
    }
}

/// The UTF-8 width of `s` from position `i` on.
pub open spec fn utf8_len_from(s: Seq<char>, i: int) -> int
    decreases s.len() - i,
{
    if i < 0 || i >= s.len() {
        0
    } else {
        utf8_len(s[i]) + utf8_len_from(s, i + 1)
    }
}

/// UTF-8 widths are not negative.
pub proof fn lemma_utf8_len_from_nonneg(s: Seq<char>, i: int)
    ensures
        utf8_len_from(s, i) >= 0,
    decreases s.len() - i,
{
    if 0 <= i < s.len() {
        lemma_utf8_len_from_nonneg(s, i + 1);
    }
}

/// How many characters from position `i` fit into `left` UTF-8 bytes.
pub open spec fn chars_within(s: Seq<char>, i: int, left: int) -> int
    decreases s.len() - i,
{
    if i < 0 || i >= s.len() || utf8_len(s[i]) > left {
        0
    } else {
        1 + chars_within(s, i + 1, left - utf8_len(s[i]))
    }
}

/// `s` cut to at most `budget` UTF-8 bytes at a character boundary,
/// with `suffix` marking a cut; text already within the budget stays
/// whole.
pub open spec fn truncated_text(s: Seq<char>, budget: int, suffix: Seq<char>) -> Seq<char> {
    if utf8_len_from(s, 0) <= budget {
        s
    } else {
        s.take(chars_within(s, 0, budget)) + suffix
    }
}

/// Whether the UTF-8 width of `s` goes beyond `budget`.
#[verifier::loop_isolation(false)]
pub fn exceeds_budget(s: &str, budget: i64) -> (r: bool)
    requires
        0 <= budget <= 1_000_000,
    ensures
        r == (utf8_len_from(s@, 0) > budget),
{
    let n = s.unicode_len();
    let mut cum: i64 = 0;
    let mut i: usize = 0;
    while i < n
        invariant
            0 <= i <= n,
            0 <= cum <= budget,
            cum + utf8_len_from(s@, i as int) == utf8_len_from(s@, 0),
        decreases n - i,
    {
        let c = s.get_char(i);
        let u: u32 = c as u32;
        let w: i64 = if u < 0x80 {
            1
        } else if u < 0x800 {
            2
        } else if u < 0x10000 {
            3
        } else {
            4
        };
        proof {
            lemma_utf8_len_from_nonneg(s@, i + 1);
        }
        if cum + w > budget {
            return true;
        }
        cum = cum + w;
        i += 1;
    }
    false
}

/// The number of leading characters of `s`, from position `i`, that fit
/// in `left` UTF-8 bytes.
#[verifier::loop_isolation(false)]
fn chars_within_exec(s: &str, i: usize, left: i64) -> (r: usize)
    requires
        i <= s@.len(),
        0 <= left <= 1_000_000,
    ensures
        r == chars_within(s@, i as int, left as int),
        i + r <= s@.len(),
    decreases s@.len() - i,
{
    if i == s.unicode_len() {
        return 0;
    }
    let c = s.get_char(i);
    let u: u32 = c as u32;
    let w: i64 = if u < 0x80 {
        1
    } else if u < 0x800 {
        2
    } else if u < 0x10000 {
        3
    } else {
        4
    };
    if w > left {
        0
    } else {
        let rest = chars_within_exec(s, i + 1, left - w);
        1 + rest
    }
}

/// `s` cut to at most `budget` UTF-8 bytes at a character boundary,
/// with `suffix` appended where a cut happened.
pub fn truncate_text(s: &str, budget: i64, suffix: &str) -> (r: String)
    requires
        0 <= budget <= 1_000_000,
    ensures
        r@ == truncated_text(s@, budget as int, suffix@),
{
    if !exceeds_budget(s, budget) {
        return s.to_owned();
    }
    let k = chars_within_exec(s, 0, budget);
    let cut = s.substring_char(0, k);
    let mut out = cut.to_owned();
    out.append(suffix);
    out
}


/// Whether `a` comes no later than `b` in character order.
pub open spec fn lex_leq(a: Seq<char>, b: Seq<char>) -> bool
    decreases a.len(),
{
    if a.len() == 0 {
        true
    } else if b.len() == 0 {
        false
    } else if (a[0] as u32) < (b[0] as u32) {
        true
    } else if (a[0] as u32) > (b[0] as u32) {
        false
    } else {
        lex_leq(a.drop_first(), b.drop_first())
    }
}

/// Whether `a` comes no later than `b` in character order.
pub fn lex_leq_exec(a: &str, b: &str) -> (r: bool)
    ensures
        r == lex_leq(a@, b@),
{
    let n = a.unicode_len();
    let m = b.unicode_len();
    let mut i: usize = 0;
    proof {
        assert(a@.skip(0) =~= a@);
        assert(b@.skip(0) =~= b@);
    }
    while i < n && i < m
        invariant
            n == a@.len(),
            m == b@.len(),
            0 <= i <= n,
            0 <= i <= m,
            lex_leq(a@, b@) == lex_leq(a@.skip(i as int), b@.skip(i as int)),
        decreases n - i,
    {
        let ca = a.get_char(i);
        let cb = b.get_char(i);
        proof {
            assert(a@.skip(i as int)[0] == a@[i as int]);
            assert(b@.skip(i as int)[0] == b@[i as int]);
            assert(a@.skip(i as int).drop_first() =~= a@.skip(i as int + 1));
            assert(b@.skip(i as int).drop_first() =~= b@.skip(i as int + 1));
        }
        if (ca as u32) < (cb as u32) {
            return true;
        }
        if (ca as u32) > (cb as u32) {
            return false;
        }
        i += 1;
    }
    proof {
        if i >= n {
            assert(a@.skip(i as int).len() == 0);
        } else {
            assert(b@.skip(i as int).len() == 0);
            assert(a@.skip(i as int).len() > 0);
        }
    }
    i >= n
}

/// `list` joined with one newline between entries, empty ones
/// included.
pub open spec fn join_nl(list: Seq<Seq<char>>) -> Seq<char>
    decreases list.len(),
{
    if list.len() == 0 {
        Seq::empty()
    } else if list.len() == 1 {
        list[0]
    } else {
        list[0] + seq!['\n'] + join_nl(list.drop_first())
    }
}

/// `parts` joined with newlines, from `idx` on.
pub fn join_parts_exec(parts: &Vec<String>, idx: usize) -> (r: String)
    requires
        idx <= parts@.len(),
    ensures
        r@ == join_nl(parts@.map_values(|t: String| t@).skip(idx as int)),
    decreases parts@.len() - idx,
{
    let ghost pv = parts@.map_values(|t: String| t@);
    if idx == parts.len() {
        proof {
            assert(pv.skip(idx as int).len() == 0);
        }
        String::new()
    } else if idx + 1 == parts.len() {
        proof {
            assert(pv.skip(idx as int).len() == 1);
            assert(pv.skip(idx as int)[0] == pv[idx as int]);
        }
        parts[idx].clone()
    } else {
        let tail = join_parts_exec(parts, idx + 1);
        let mut out = parts[idx].clone();
        out.append("\n");
        out.append(tail.as_str());
        proof {
            reveal_strlit("\n");
            assert("\n"@ =~= seq!['\n']);
            assert(pv.skip(idx as int)[0] == pv[idx as int]);
            assert(pv.skip(idx as int).drop_first() =~= pv.skip(idx as int + 1));
            assert(out@ =~= join_nl(pv.skip(idx as int)));
        }
        out
    }
}

} // verus!
