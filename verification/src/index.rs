//! The inverted full-text index and its query engine.
//!
//! One document stands for one message, carrying its text, its title
//! and its facets. Text is tokenized into maximal runs of ASCII
//! letters and digits, letters lowered; stemming is off. A query is a
//! conjunction of terms: bare words matching whole tokens, `word*`
//! matching token prefixes, and quoted phrases matching token runs.
//! Hits are scored by how many terms match, title matches counting
//! double, and ranked by score with the index order between ties, so
//! equal stores always answer alike.

use vstd::prelude::*;
use crate::model::{opt_view, ConversationV, MessageV};
use crate::sort::stable_sort_by;
use crate::store::{page, StoredConversation};

verus! {

/// One full-text document: one message with its provenance.
pub struct Doc {
    pub conversation_id: i64,
    pub idx: i64,
    pub agent: String,
    pub workspace: Option<String>,
    pub role: String,
    pub author: Option<String>,
    pub created_at: Option<i64>,
    pub title: Option<String>,
    pub content: String,
}

/// The mathematical shape of a document.
#[verifier::ext_equal]
pub struct DocV {
    pub conversation_id: i64,
    pub idx: int,
    pub agent: Seq<char>,
    pub workspace: Option<Seq<char>>,
    pub role: Seq<char>,
    pub author: Option<Seq<char>>,
    pub created_at: Option<i64>,
    pub title: Option<Seq<char>>,
    pub content: Seq<char>,
}

impl View for Doc {
    type V = DocV;

    open spec fn view(&self) -> DocV {
        DocV {
            conversation_id: self.conversation_id,
            idx: self.idx as int,
            agent: self.agent@,
            workspace: opt_view(self.workspace),
            role: self.role@,
            author: opt_view(self.author),
            created_at: self.created_at,
            title: opt_view(self.title),
            content: self.content@,
        }
    }
}

/// The inverted index: its documents, in insertion order.
pub struct SearchIndex {
    pub docs: Vec<Doc>,
}

/// The facet filters of a query.
pub struct QueryFilters {
    pub agents: Option<Vec<String>>,
    pub workspace: Option<String>,
    pub role: Option<String>,
    pub author: Option<String>,
    pub since: Option<i64>,
    pub until: Option<i64>,
}

/// The mathematical shape of the filters.
#[verifier::ext_equal]
pub struct FiltersV {
    pub agents: Option<Seq<Seq<char>>>,
    pub workspace: Option<Seq<char>>,
    pub role: Option<Seq<char>>,
    pub author: Option<Seq<char>>,
    pub since: Option<i64>,
    pub until: Option<i64>,
}

impl View for QueryFilters {
    type V = FiltersV;

    open spec fn view(&self) -> FiltersV {
        FiltersV {
            agents: match self.agents {
                Some(a) => Some(a@.map_values(|s: String| s@)),
                None => None,
            },
            workspace: opt_view(self.workspace),
            role: opt_view(self.role),
            author: opt_view(self.author),
            since: self.since,
            until: self.until,
        }
    }
}

impl QueryFilters {
    /// Filters that admit everything.
    pub fn none() -> (r: QueryFilters)
        ensures
            r@ == (FiltersV {
                agents: None,
                workspace: None,
                role: None,
                author: None,
                since: None,
                until: None,
            }),
    {
        QueryFilters {
            agents: None,
            workspace: None,
            role: None,
            author: None,
            since: None,
            until: None,
        }
    }
}

/// One search hit: the matched message and its snippet.
pub struct Hit {
    pub conversation_id: i64,
    pub idx: i64,
    pub score: usize,
    pub agent: String,
    pub workspace: Option<String>,
    pub role: String,
    pub created_at: Option<i64>,
    pub title: Option<String>,
    pub snippet: String,
}

/// The mathematical shape of a hit.
#[verifier::ext_equal]
pub struct HitV {
    pub conversation_id: i64,
    pub idx: int,
    pub score: int,
    pub agent: Seq<char>,
    pub workspace: Option<Seq<char>>,
    pub role: Seq<char>,
    pub created_at: Option<i64>,
    pub title: Option<Seq<char>>,
    pub snippet: Seq<char>,
}

impl View for Hit {
    type V = HitV;

    open spec fn view(&self) -> HitV {
        HitV {
            conversation_id: self.conversation_id,
            idx: self.idx as int,
            score: self.score as int,
            agent: self.agent@,
            workspace: opt_view(self.workspace),
            role: self.role@,
            created_at: self.created_at,
            title: opt_view(self.title),
            snippet: self.snippet@,
        }
    }
}

/// Whether `c` is a token character: an ASCII letter or digit.
pub open spec fn is_tok(c: char) -> bool {
    (48 <= (c as u32) && (c as u32) <= 57) || (65 <= (c as u32) && (c as u32) <= 90) || (97 <= (
    c as u32) && (c as u32) <= 122)
}

/// `c` with an ASCII upper-case letter lowered.
pub open spec fn lower_char(c: char) -> char {
    if 65 <= (c as u32) && (c as u32) <= 90 {
        (((c as u32) + 32) as char)
    } else {
        c
    }
}

/// Every character of `s`, lowered.
pub open spec fn lower_seq(s: Seq<char>) -> Seq<char> {
    s.map_values(|c: char| lower_char(c))
}

/// The tokens of `s`: maximal runs of token characters, lowered. The
/// scan stands at `i`, the current run starting at `start`.
pub open spec fn tok_scan(s: Seq<char>, start: int, i: int) -> Seq<Seq<char>>
    decreases s.len() - i,
{
    if i < start || i >= s.len() {
        if start < s.len() && start <= i {
            seq![lower_seq(s.subrange(start, s.len() as int))]
        } else {
            Seq::empty()
        }
    } else if !is_tok(s[i]) {
        if start < i {
            seq![lower_seq(s.subrange(start, i))] + tok_scan(s, i + 1, i + 1)
        } else {
            tok_scan(s, i + 1, i + 1)
        }
    } else {
        tok_scan(s, start, i + 1)
    }
}

/// The tokens of `s`.
pub open spec fn tokens_of(s: Seq<char>) -> Seq<Seq<char>> {
    tok_scan(s, 0, 0)
}

/// Relies on char::to_ascii_lowercase, whose result is the character
/// itself with an ASCII upper-case letter moved down by thirty-two
/// code points; to_string carries the one character into a string.
#[verifier::external_body]
fn lower_char_str(c: char) -> (r: String)
    ensures
        r@ == seq![lower_char(c)],
{
    c.to_ascii_lowercase().to_string()
}

/// Whether `c` is a token character.
fn is_tok_exec(c: char) -> (r: bool)
    ensures
        r == is_tok(c),
{
    let u = c as u32;
    (48 <= u && u <= 57) || (65 <= u && u <= 90) || (97 <= u && u <= 122)
}

/// The lowered text of `s`.
fn lower_str(s: &str) -> (r: String)
    ensures
        r@ == lower_seq(s@),
{
    let n = s.unicode_len();
    let mut out = String::new();
    let mut i: usize = 0;
    while i < n
        invariant
            n == s@.len(),
            0 <= i <= n,
            out@ =~= lower_seq(s@.take(i as int)),
        decreases n - i,
    {
        let piece = lower_char_str(s.get_char(i));
        out.append(piece.as_str());
        proof {
            assert(out@ =~= lower_seq(s@.take(i + 1)));
        }
        i += 1;
    }
    proof {
        assert(s@.take(n as int) =~= s@);
    }
    out
}

/// The tokens of `s`.
#[verifier::loop_isolation(false)]
pub fn tokenize(s: &str) -> (r: Vec<String>)
    ensures
        r@.map_values(|t: String| t@) == tokens_of(s@),
{
    let n = s.unicode_len();
    let mut out: Vec<String> = Vec::new();
    let mut start: usize = 0;
    let mut i: usize = 0;
    while i < n
        invariant
            0 <= start <= i <= n,
            tokens_of(s@) =~= out@.map_values(|t: String| t@) + tok_scan(
                s@,
                start as int,
                i as int,
            ),
        decreases n - i,
    {
        let c = s.get_char(i);
        if !is_tok_exec(c) {
            if start < i {
                let tok = lower_str(s.substring_char(start, i));
                let ghost prev = out@.map_values(|t: String| t@);
                out.push(tok);
                proof {
                    assert(out@.map_values(|t: String| t@) =~= prev + seq![
                        lower_seq(s@.subrange(start as int, i as int))]);
                }
            }
            start = i + 1;
        }
        i += 1;
    }
    if start < n {
        let tok = lower_str(s.substring_char(start, n));
        let ghost prev = out@.map_values(|t: String| t@);
        out.push(tok);
        proof {
            assert(out@.map_values(|t: String| t@) =~= prev + seq![
                lower_seq(s@.subrange(start as int, n as int))]);
        }
    }
    out
}

/// One term of a query.
pub enum Term {
    /// A bare word: matches a whole token.
    Word(String),
    /// A `word*` pattern: matches a token prefix.
    Prefix(String),
    /// A quoted phrase: matches a contiguous token run.
    Phrase(Vec<String>),
}

/// The mathematical shape of a term.
pub enum TermV {
    Word(Seq<char>),
    Prefix(Seq<char>),
    Phrase(Seq<Seq<char>>),
}

impl View for Term {
    type V = TermV;

    open spec fn view(&self) -> TermV {
        match self {
            Term::Word(w) => TermV::Word(w@),
            Term::Prefix(p) => TermV::Prefix(p@),
            Term::Phrase(ws) => TermV::Phrase(ws@.map_values(|t: String| t@)),
        }
    }
}

/// Whether `term` matches the token list `toks`.
pub open spec fn term_matches(toks: Seq<Seq<char>>, term: TermV) -> bool {
    match term {
        TermV::Word(w) => exists|i: int| 0 <= i < toks.len() && toks[i] == w,
        TermV::Prefix(p) => exists|i: int| 0 <= i < toks.len() && p.is_prefix_of(#[trigger] toks[i]),
        TermV::Phrase(ws) => exists|i: int|
            0 <= i <= toks.len() - ws.len() && #[trigger] phrase_at(toks, ws, i),
    }
}

/// Whether the phrase `ws` stands at position `i` of `toks`.
pub open spec fn phrase_at(toks: Seq<Seq<char>>, ws: Seq<Seq<char>>, i: int) -> bool {
    forall|k: int| 0 <= k < ws.len() ==> toks[i + k] == ws[k]
}

/// Whether `term` matches the token list `toks`.
#[verifier::loop_isolation(false)]
fn term_matches_exec(toks: &Vec<String>, term: &Term) -> (r: bool)
    ensures
        r == term_matches(toks@.map_values(|t: String| t@), term@),
{
    let ghost tv = toks@.map_values(|t: String| t@);
    match term {
        Term::Word(w) => {
            let n = toks.len();
            let mut i: usize = 0;
            while i < n
                invariant
                    n == tv.len(),
                    tv == toks@.map_values(|t: String| t@),
                    0 <= i <= n,
                    forall|k: int| 0 <= k < i ==> tv[k] != w@,
                decreases n - i,
            {
                if crate::json::str_eq(toks[i].as_str(), w.as_str()) {
                    proof {
                        assert(toks@.map_values(|t: String| t@)[i as int] == w@);
                    }
                    return true;
                }
                i += 1;
            }
            false
        },
        Term::Prefix(p) => {
            let n = toks.len();
            let mut i: usize = 0;
            while i < n
                invariant
                    n == tv.len(),
                    tv == toks@.map_values(|t: String| t@),
                    0 <= i <= n,
                    forall|k: int| 0 <= k < i ==> !p@.is_prefix_of(#[trigger] tv[k]),
                decreases n - i,
            {
                if crate::paths::str_starts_with(toks[i].as_str(), p.as_str()) {
                    proof {
                        assert(p@.is_prefix_of(toks@.map_values(|t: String| t@)[i as int]));
                    }
                    return true;
                }
                i += 1;
            }
            false
        },
        Term::Phrase(ws) => {
            let ghost wv = ws@.map_values(|t: String| t@);
            let m = ws.len();
            let n = toks.len();
            if m > n {
                return false;
            }
            let mut i: usize = 0;
            while i <= n - m
                invariant
                    n == tv.len(),
                    m == wv.len(),
                    m <= n,
                    tv == toks@.map_values(|t: String| t@),
                    wv == ws@.map_values(|t: String| t@),
                    0 <= i <= n - m + 1,
                    forall|q: int| 0 <= q < i ==> !phrase_at(tv, wv, q),
                decreases n - i,
            {
                if phrase_at_exec(toks, ws, i) {
                    proof {
                        assert(0 <= i as int <= tv.len() - wv.len());
                        assert(exists|j: int| 0 <= j <= tv.len() - wv.len() && phrase_at(tv, wv, j))
                            by {
                            assert(phrase_at(tv, wv, i as int));
                        }
                        assert(term@ == TermV::Phrase(wv));
                        assert(phrase_at(tv, term@->Phrase_0, i as int));
                        assert(0 <= i as int <= tv.len() - (term@->Phrase_0).len());
                        assert(term_matches(tv, term@));
                        assert(term_matches(toks@.map_values(|t: String| t@), term@));
                    }
                    return true;
                }
                i += 1;
            }
            false
        },
    }
}

/// Whether the phrase `ws` stands at position `i` of `toks`.
fn phrase_at_exec(toks: &Vec<String>, ws: &Vec<String>, i: usize) -> (r: bool)
    requires
        ws@.len() <= toks@.len(),
        i + ws@.len() <= toks@.len(),
    ensures
        r == phrase_at(
            toks@.map_values(|t: String| t@),
            ws@.map_values(|t: String| t@),
            i as int,
        ),
{
    let ghost tv = toks@.map_values(|t: String| t@);
    let ghost wv = ws@.map_values(|t: String| t@);
    let total = toks.len();
    let m = ws.len();
    let mut k: usize = 0;
    while k < m
        invariant
            total == tv.len(),
            m == wv.len(),
            i + m <= tv.len(),
            tv == toks@.map_values(|t: String| t@),
            wv == ws@.map_values(|t: String| t@),
            0 <= k <= m,
            forall|q: int| 0 <= q < k ==> tv[i + q] == wv[q],
        decreases m - k,
    {
        if !crate::json::str_eq(toks[i + k].as_str(), ws[k].as_str()) {
            proof {
                assert(tv[i + k as int] != wv[k as int]);
            }
            return false;
        }
        k += 1;
    }
    true
}

/// The longest query, in characters, that is still answered.
pub const MAX_QUERY_CHARS: usize = 0x100_0000;

/// The terms of a query text, scanned from position `i`: quoted spans
/// become phrases of their tokens, other space-separated runs become
/// words, the last word of a run ending in `*` a prefix.
pub open spec fn query_terms(q: Seq<char>, i: int) -> Seq<TermV>
    decreases q.len() - i + 1,
        when 0 <= i
        via query_terms_decreases
{
    if i < 0 || i >= q.len() {
        Seq::empty()
    } else if q[i] == ' ' {
        query_terms(q, i + 1)
    } else if q[i] == '"' {
        let close = close_quote(q, i + 1);
        let toks = tokens_of(q.subrange(i + 1, close));
        (if toks.len() > 0 {
            seq![TermV::Phrase(toks)]
        } else {
            Seq::empty()
        }) + query_terms(q, close + 1)
    } else {
        let end = run_end(q, i);
        let run = q.subrange(i, end);
        let starred = run.len() > 0 && run.last() == '*';
        let body = if starred {
            run.drop_last()
        } else {
            run
        };
        let toks = tokens_of(body);
        (if toks.len() == 0 {
            Seq::empty()
        } else if starred {
            toks.drop_last().map_values(|t: Seq<char>| TermV::Word(t)) + seq![
                TermV::Prefix(toks.last())]
        } else {
            toks.map_values(|t: Seq<char>| TermV::Word(t))
        }) + query_terms(q, end)
    }
}

#[via_fn]
proof fn query_terms_decreases(q: Seq<char>, i: int) {
    if 0 <= i < q.len() {
        if q[i] == '"' {
            lemma_close_quote_bounds(q, i + 1);
        } else if q[i] != ' ' {
            lemma_run_end_bounds(q, i);
        }
    }
}

/// Where the quoted span opened at `i` closes: the position of the
/// next `"`, or the end.
pub open spec fn close_quote(q: Seq<char>, i: int) -> int
    decreases q.len() - i,
{
    if i < 0 || i >= q.len() {
        q.len() as int
    } else if q[i] == '"' {
        i
    } else {
        close_quote(q, i + 1)
    }
}

/// Where the unquoted run starting at `i` ends: the position of the
/// next space or quote, or the end.
pub open spec fn run_end(q: Seq<char>, i: int) -> int
    decreases q.len() - i,
{
    if i < 0 || i >= q.len() {
        q.len() as int
    } else if q[i] == ' ' || q[i] == '"' {
        i
    } else {
        run_end(q, i + 1)
    }
}

/// `close_quote` stays within the text and moves the scan forward.
pub proof fn lemma_close_quote_bounds(q: Seq<char>, i: int)
    requires
        0 <= i <= q.len(),
    ensures
        i <= close_quote(q, i) <= q.len(),
        close_quote(q, i) < q.len() ==> q[close_quote(q, i)] == '"',
        forall|k: int| i <= k < close_quote(q, i) ==> q[k] != '"',
    decreases q.len() - i,
{
    if i < q.len() && q[i] != '"' {
        lemma_close_quote_bounds(q, i + 1);
    }
}

/// `run_end` stays within the text and moves the scan forward.
pub proof fn lemma_run_end_bounds(q: Seq<char>, i: int)
    requires
        0 <= i <= q.len(),
    ensures
        i <= run_end(q, i) <= q.len(),
        run_end(q, i) < q.len() ==> q[run_end(q, i)] == ' ' || q[run_end(q, i)] == '"',
        forall|k: int| i <= k < run_end(q, i) ==> q[k] != ' ' && q[k] != '"',
        i < q.len() && q[i] != ' ' && q[i] != '"' ==> run_end(q, i) > i,
    decreases q.len() - i,
{
    if i < q.len() && q[i] != ' ' && q[i] != '"' {
        lemma_run_end_bounds(q, i + 1);
    }
}

/// The terms of the query text `q`.
pub open spec fn terms_of(q: Seq<char>) -> Seq<TermV> {
    query_terms(q, 0)
}

/// The terms of the query text `q`, scanned from `i`.
#[verifier::loop_isolation(false)]
fn parse_terms(q: &str, i: usize) -> (r: Vec<Term>)
    requires
        i <= q@.len(),
    ensures
        r@.map_values(|t: Term| t@) == query_terms(q@, i as int),
    decreases q@.len() - i,
{
    let n = q.unicode_len();
    if i == n {
        Vec::new()
    } else {
        let c = q.get_char(i);
        if c == ' ' {
            parse_terms(q, i + 1)
        } else if c == '"' {
            let mut close: usize = i + 1;
            while close < n && q.get_char(close) != '"'
                invariant
                    i + 1 <= close <= n,
                    forall|k: int| i + 1 <= k < close ==> q@[k] != '"',
                decreases n - close,
            {
                close += 1;
            }
            proof {
                lemma_close_scan(q@, i + 1, close as int);
            }
            let toks = tokenize(q.substring_char(i + 1, close));
            let next: usize = if close < n {
                close + 1
            } else {
                n
            };
            let mut rest = parse_terms(q, next);
            proof {
                if close as int + 1 > n {
                    assert(query_terms(q@, close as int + 1) =~= Seq::<TermV>::empty());
                    assert(query_terms(q@, next as int) =~= Seq::<TermV>::empty());
                }
            }
            if toks.len() > 0 {
                rest.insert(0, Term::Phrase(toks));
                proof {
                    assert(rest@.map_values(|t: Term| t@) =~= query_terms(q@, i as int));
                }
                rest
            } else {
                proof {
                    assert(rest@.map_values(|t: Term| t@) =~= query_terms(q@, i as int));
                }
                rest
            }
        } else {
            let mut end: usize = i;
            while end < n && q.get_char(end) != ' ' && q.get_char(end) != '"'
                invariant
                    i <= end <= n,
                    forall|k: int| i <= k < end ==> q@[k] != ' ' && q@[k] != '"',
                decreases n - end,
            {
                end += 1;
            }
            proof {
                lemma_run_scan(q@, i as int, end as int);
                lemma_run_end_bounds(q@, i as int);
            }
            let run = q.substring_char(i, end);
            let rn = run.unicode_len();
            let starred = rn > 0 && run.get_char(rn - 1) == '*';
            let body = if starred {
                run.substring_char(0, rn - 1)
            } else {
                run
            };
            proof {
                if starred {
                    assert(body@ =~= q@.subrange(i as int, end as int).drop_last());
                }
            }
            let toks = tokenize(body);
            let rest = parse_terms(q, end);
            let ghost toksv = toks@.map_values(|t: String| t@);
            if toks.len() == 0 {
                proof {
                    assert(rest@.map_values(|t: Term| t@) =~= query_terms(q@, i as int));
                }
                rest
            } else if starred {
                let mut out: Vec<Term> = Vec::new();
                let m = toks.len();
                let mut rest_toks = toks;
                let mut k: usize = 0;
                while k + 1 < m
                    invariant
                        0 <= k < m,
                        m == toksv.len(),
                        rest_toks@.len() + k == m,
                        rest_toks@.map_values(|t: String| t@) =~= toksv.skip(k as int),
                        out@.map_values(|t: Term| t@) =~= toksv.take(k as int).map_values(
                            |t: Seq<char>| TermV::Word(t),
                        ),
                    decreases m - k,
                {
                    let ghost rest_prev = rest_toks@.map_values(|t: String| t@);
                    let w = rest_toks.remove(0);
                    let ghost prev = out@.map_values(|t: Term| t@);
                    out.push(Term::Word(w));
                    proof {
                        assert(toksv.skip(k as int)[0] == toksv[k as int]);
                        assert(w@ == rest_prev[0]);
                        assert(w@ == toksv[k as int]);
                        assert(toksv.skip(k as int).drop_first() =~= toksv.skip(k as int + 1));
                        assert(out@.map_values(|t: Term| t@) =~= prev.push(TermV::Word(w@)));
                        assert(toksv.take(k as int + 1).map_values(|t: Seq<char>| TermV::Word(t))
                            =~= toksv.take(k as int).map_values(|t: Seq<char>| TermV::Word(t)).push(
                            TermV::Word(toksv[k as int]),
                        ));
                        assert(out@.map_values(|t: Term| t@) =~= toksv.take(k as int + 1)
                            .map_values(|t: Seq<char>| TermV::Word(t)));
                    }
                    k += 1;
                }
                let last = rest_toks.remove(0);
                out.push(Term::Prefix(last));
                let mut whole = out;
                append_terms(&mut whole, rest);
                proof {
                    assert(toksv.skip(k as int)[0] == toksv[k as int]);
                    assert(toksv.take(k as int) =~= toksv.drop_last());
                    assert(toksv[k as int] == toksv.last());
                    assert(whole@.map_values(|t: Term| t@) =~= query_terms(q@, i as int));
                }
                whole
            } else {
                let mut out: Vec<Term> = Vec::new();
                let m = toks.len();
                let mut rest_toks = toks;
                let mut k: usize = 0;
                while k < m
                    invariant
                        0 <= k <= m,
                        m == toksv.len(),
                        rest_toks@.len() + k == m,
                        rest_toks@.map_values(|t: String| t@) =~= toksv.skip(k as int),
                        out@.map_values(|t: Term| t@) =~= toksv.take(k as int).map_values(
                            |t: Seq<char>| TermV::Word(t),
                        ),
                    decreases m - k,
                {
                    let ghost rest_prev = rest_toks@.map_values(|t: String| t@);
                    let w = rest_toks.remove(0);
                    let ghost prev = out@.map_values(|t: Term| t@);
                    out.push(Term::Word(w));
                    proof {
                        assert(toksv.skip(k as int)[0] == toksv[k as int]);
                        assert(w@ == rest_prev[0]);
                        assert(w@ == toksv[k as int]);
                        assert(toksv.skip(k as int).drop_first() =~= toksv.skip(k as int + 1));
                        assert(out@.map_values(|t: Term| t@) =~= prev.push(TermV::Word(w@)));
                        assert(toksv.take(k as int + 1).map_values(|t: Seq<char>| TermV::Word(t))
                            =~= toksv.take(k as int).map_values(|t: Seq<char>| TermV::Word(t)).push(
                            TermV::Word(toksv[k as int]),
                        ));
                        assert(out@.map_values(|t: Term| t@) =~= toksv.take(k as int + 1)
                            .map_values(|t: Seq<char>| TermV::Word(t)));
                    }
                    k += 1;
                }
                let mut whole = out;
                append_terms(&mut whole, rest);
                proof {
                    assert(toksv.take(m as int) =~= toksv);
                    assert(whole@.map_values(|t: Term| t@) =~= query_terms(q@, i as int));
                }
                whole
            }
        }
    }
}

/// Moves every term of `more` onto the end of `out`.
fn append_terms(out: &mut Vec<Term>, more: Vec<Term>)
    ensures
        final(out)@.map_values(|t: Term| t@) == old(out)@.map_values(|t: Term| t@)
            + more@.map_values(|t: Term| t@),
{
    let ghost total = old(out)@.map_values(|t: Term| t@) + more@.map_values(|t: Term| t@);
    let mut rest = more;
    proof {
        assert(out@.map_values(|t: Term| t@) + rest@.map_values(|t: Term| t@) =~= total);
    }
    while rest.len() > 0
        invariant
            out@.map_values(|t: Term| t@) + rest@.map_values(|t: Term| t@) == total,
        decreases rest@.len(),
    {
        let x = rest.remove(0);
        out.push(x);
        proof {
            assert(out@.map_values(|t: Term| t@) + rest@.map_values(|t: Term| t@) =~= total);
        }
    }
    proof {
        assert(out@.map_values(|t: Term| t@) =~= total);
    }
}

/// A scan with no quote before `close` pins `close_quote` down.
proof fn lemma_close_scan(q: Seq<char>, i: int, close: int)
    requires
        0 <= i <= close <= q.len(),
        forall|k: int| i <= k < close ==> q[k] != '"',
        close < q.len() ==> q[close] == '"',
    ensures
        close_quote(q, i) == close,
    decreases close - i,
{
    if i < close {
        lemma_close_scan(q, i + 1, close);
    }
}

/// A scan with no break before `end` pins `run_end` down.
proof fn lemma_run_scan(q: Seq<char>, i: int, end: int)
    requires
        0 <= i <= end <= q.len(),
        forall|k: int| i <= k < end ==> q[k] != ' ' && q[k] != '"',
        end < q.len() ==> q[end] == ' ' || q[end] == '"',
    ensures
        run_end(q, i) == end,
    decreases end - i,
{
    if i < end {
        lemma_run_scan(q, i + 1, end);
    }
}


/// Whether the needle `n` stands at position `i` of `h`.
pub open spec fn occurs_at(h: Seq<char>, n: Seq<char>, i: int) -> bool {
    0 <= i && i + n.len() <= h.len() && h.subrange(i, i + n.len()) == n
}

/// The first position of `n` in `h` at or after `i`, if any.
pub open spec fn first_occ(h: Seq<char>, n: Seq<char>, i: int) -> Option<int>
    decreases h.len() - i + 1,
{
    if i < 0 || i + n.len() > h.len() {
        None
    } else if occurs_at(h, n, i) {
        Some(i)
    } else {
        first_occ(h, n, i + 1)
    }
}

/// The text a snippet window is centred on: the first term's word,
/// prefix, or leading phrase word.
pub open spec fn term_needle(t: TermV) -> Seq<char> {
    match t {
        TermV::Word(w) => w,
        TermV::Prefix(p) => p,
        TermV::Phrase(ws) => if ws.len() > 0 {
            ws[0]
        } else {
            Seq::empty()
        },
    }
}

/// How many characters of context a snippet keeps before its match.
pub const SNIPPET_BEFORE: usize = 40;

/// How long a snippet is at most, in characters.
pub const SNIPPET_SPAN: usize = 160;

/// The snippet of `content` under `terms`: a window around the first
/// occurrence of the first term in the lowered text, or the head of
/// the text.
pub open spec fn snippet_of(content: Seq<char>, terms: Seq<TermV>) -> Seq<char> {
    let needle = if terms.len() > 0 {
        term_needle(terms[0])
    } else {
        Seq::empty()
    };
    let pos = if needle.len() > 0 {
        match first_occ(lower_seq(content), needle, 0) {
            Some(p) => p,
            None => 0,
        }
    } else {
        0
    };
    let lo = if pos >= SNIPPET_BEFORE {
        pos - SNIPPET_BEFORE
    } else {
        0
    };
    let hi = if lo + SNIPPET_SPAN < content.len() {
        lo + SNIPPET_SPAN
    } else {
        content.len() as int
    };
    content.subrange(lo, hi)
}

/// The snippet of `content` under `terms`.
#[verifier::loop_isolation(false)]
fn snippet_exec(content: &str, terms: &Vec<Term>) -> (r: String)
    ensures
        r@ == snippet_of(content@, terms@.map_values(|t: Term| t@)),
{
    let ghost termv = terms@.map_values(|t: Term| t@);
    let needle: String = if terms.len() > 0 {
        match &terms[0] {
            Term::Word(w) => w.clone(),
            Term::Prefix(p) => p.clone(),
            Term::Phrase(ws) => {
                if ws.len() > 0 {
                    ws[0].clone()
                } else {
                    String::new()
                }
            },
        }
    } else {
        String::new()
    };
    proof {
        if termv.len() > 0 {
            assert(termv[0] == terms@[0]@);
        }
        assert(needle@ == (if termv.len() > 0 {
            term_needle(termv[0])
        } else {
            Seq::<char>::empty()
        }));
    }
    let lowered = lower_str(content);
    let nn = needle.unicode_len();
    let hn = lowered.unicode_len();
    let pos: usize = if nn == 0 || nn > hn {
        proof {
            if nn > hn {
                assert(first_occ(lower_seq(content@), needle@, 0) is None);
            }
        }
        0
    } else {
        let mut i: usize = 0;
        let mut found: usize = 0;
        let mut ok = false;
        while i <= hn - nn && !ok
            invariant
                nn == needle@.len(),
                hn == lowered@.len(),
                nn <= hn,
                lowered@ == lower_seq(content@),
                0 <= i,
                i <= hn - nn + 1,
                !ok ==> forall|k: int| 0 <= k < i ==> !occurs_at(lowered@, needle@, k),
                ok ==> found == i && occurs_at(lowered@, needle@, i as int) && forall|k: int|
                    0 <= k < i ==> !occurs_at(lowered@, needle@, k),
            decreases hn - i + (if ok {
                0int
            } else {
                1int
            }),
        {
            let piece = lowered.as_str().substring_char(i, i + nn);
            if crate::json::str_eq(piece, needle.as_str()) {
                found = i;
                ok = true;
                proof {
                    assert(lowered@.subrange(i as int, i + nn) == needle@);
                    assert(occurs_at(lowered@, needle@, i as int));
                }
            } else {
                proof {
                    assert(!occurs_at(lowered@, needle@, i as int));
                }
                i += 1;
            }
        }
        proof {
            if ok {
                lemma_first_occ_scan(lowered@, needle@, found as int);
            } else {
                assert(i as int + nn as int > hn as int);
                lemma_first_occ_none(lowered@, needle@, i as int);
            }
        }
        if ok {
            found
        } else {
            0
        }
    };
    let lo = if pos >= SNIPPET_BEFORE {
        pos - SNIPPET_BEFORE
    } else {
        0
    };
    let cn = content.unicode_len();
    let hi = if lo <= cn && SNIPPET_SPAN < cn - lo {
        lo + SNIPPET_SPAN
    } else {
        cn
    };
    proof {
        assert(lower_seq(content@).len() == content@.len());
        assert(lo <= cn);
    }
    content.substring_char(lo, hi).to_owned()
}

/// A scan with no occurrence before `found`, and one at `found`, pins
/// `first_occ` down.
proof fn lemma_first_occ_scan(h: Seq<char>, n: Seq<char>, found: int)
    requires
        occurs_at(h, n, found),
        forall|k: int| 0 <= k < found ==> !occurs_at(h, n, k),
    ensures
        first_occ(h, n, 0) == Some(found),
{
    lemma_first_occ_scan_from(h, n, 0, found);
}

proof fn lemma_first_occ_scan_from(h: Seq<char>, n: Seq<char>, i: int, found: int)
    requires
        0 <= i <= found,
        occurs_at(h, n, found),
        forall|k: int| i <= k < found ==> !occurs_at(h, n, k),
    ensures
        first_occ(h, n, i) == Some(found),
    decreases found - i,
{
    if i < found {
        lemma_first_occ_scan_from(h, n, i + 1, found);
    }
}

/// A scan that ran out of room without a match leaves no occurrence.
proof fn lemma_first_occ_none(h: Seq<char>, n: Seq<char>, limit: int)
    requires
        0 <= limit,
        limit + n.len() > h.len(),
        forall|k: int| 0 <= k < limit ==> !occurs_at(h, n, k),
    ensures
        first_occ(h, n, 0) is None,
{
    lemma_first_occ_none_from(h, n, 0, limit);
}

proof fn lemma_first_occ_none_from(h: Seq<char>, n: Seq<char>, i: int, limit: int)
    requires
        0 <= i <= limit,
        limit + n.len() > h.len(),
        forall|k: int| i <= k < limit ==> !occurs_at(h, n, k),
    ensures
        first_occ(h, n, i) is None,
    decreases limit - i,
{
    if i < limit {
        lemma_first_occ_none_from(h, n, i + 1, limit);
    }
}

/// Whether the document `d` passes the facet filters `f`.
pub open spec fn filter_ok(d: DocV, f: FiltersV) -> bool {
    &&& (match f.agents {
        Some(list) => list.contains(d.agent),
        None => true,
    })
    &&& (match f.workspace {
        Some(w) => d.workspace matches Some(dw) && w.is_prefix_of(dw),
        None => true,
    })
    &&& (match f.role {
        Some(r) => d.role == r,
        None => true,
    })
    &&& (match f.author {
        Some(a) => d.author == Some(a),
        None => true,
    })
    &&& (match f.since {
        Some(since) => d.created_at matches Some(t) && t >= since,
        None => true,
    })
    &&& (match f.until {
        Some(until) => d.created_at matches Some(t) && t <= until,
        None => true,
    })
}

/// Whether the document `d` passes the facet filters `f`.
#[verifier::loop_isolation(false)]
fn filter_ok_exec(d: &Doc, f: &QueryFilters) -> (r: bool)
    ensures
        r == filter_ok(d@, f@),
{
    let agents_ok = match &f.agents {
        Some(list) => {
            let ghost lv = list@.map_values(|t: String| t@);
            let n = list.len();
            let mut i: usize = 0;
            let mut hit = false;
            while i < n && !hit
                invariant
                    n == lv.len(),
                    lv == list@.map_values(|t: String| t@),
                    0 <= i <= n,
                    !hit ==> forall|k: int| 0 <= k < i ==> lv[k] != d.agent@,
                    hit ==> lv.contains(d.agent@),
                decreases n - i + (if hit {
                    0int
                } else {
                    1int
                }),
            {
                if crate::json::str_eq(list[i].as_str(), d.agent.as_str()) {
                    proof {
                        assert(lv[i as int] == d.agent@);
                    }
                    hit = true;
                } else {
                    i += 1;
                }
            }
            proof {
                if !hit {
                    assert(forall|k: int| 0 <= k < lv.len() ==> lv[k] != d.agent@);
                    assert(!lv.contains(d.agent@));
                }
            }
            hit
        },
        None => true,
    };
    let workspace_ok = match &f.workspace {
        Some(w) => match &d.workspace {
            Some(dw) => crate::paths::str_starts_with(dw.as_str(), w.as_str()),
            None => false,
        },
        None => true,
    };
    let role_ok = match &f.role {
        Some(r) => crate::json::str_eq(d.role.as_str(), r.as_str()),
        None => true,
    };
    let author_ok = match &f.author {
        Some(a) => match &d.author {
            Some(da) => crate::json::str_eq(da.as_str(), a.as_str()),
            None => false,
        },
        None => true,
    };
    let since_ok = match f.since {
        Some(since) => match d.created_at {
            Some(t) => t >= since,
            None => false,
        },
        None => true,
    };
    let until_ok = match f.until {
        Some(until) => match d.created_at {
            Some(t) => t <= until,
            None => false,
        },
        None => true,
    };
    agents_ok && workspace_ok && role_ok && author_ok && since_ok && until_ok
}

/// Whether every term matches the document's content or title tokens.
pub open spec fn doc_matches(d: DocV, terms: Seq<TermV>) -> bool {
    forall|k: int|
        0 <= k < terms.len() ==> term_matches(tokens_of(d.content), #[trigger] terms[k])
            || term_matches(title_tokens(d.title), terms[k])
}

/// The tokens of an optional title.
pub open spec fn title_tokens(title: Option<Seq<char>>) -> Seq<Seq<char>> {
    match title {
        Some(t) => tokens_of(t),
        None => Seq::empty(),
    }
}

/// The score of a matching document: one for each term its content
/// matches, two more for each term its title matches.
pub open spec fn score_of(d: DocV, terms: Seq<TermV>, i: int) -> int
    decreases terms.len() - i,
{
    if i < 0 || i >= terms.len() {
        0
    } else {
        (if term_matches(tokens_of(d.content), terms[i]) {
            1int
        } else {
            0int
        }) + (if term_matches(title_tokens(d.title), terms[i]) {
            2int
        } else {
            0int
        }) + score_of(d, terms, i + 1)
    }
}

/// The hit a matching document yields.
pub open spec fn hit_of(d: DocV, terms: Seq<TermV>) -> HitV {
    HitV {
        conversation_id: d.conversation_id,
        idx: d.idx,
        score: score_of(d, terms, 0),
        agent: d.agent,
        workspace: d.workspace,
        role: d.role,
        created_at: d.created_at,
        title: d.title,
        snippet: snippet_of(d.content, terms),
    }
}

/// The hits of the documents from position `i` on that pass the
/// filters and match every term, in index order.
pub open spec fn matching_hits(
    docs: Seq<DocV>,
    terms: Seq<TermV>,
    f: FiltersV,
    i: int,
) -> Seq<HitV>
    decreases docs.len() - i,
{
    if i < 0 || i >= docs.len() {
        Seq::empty()
    } else {
        let rest = matching_hits(docs, terms, f, i + 1);
        if filter_ok(docs[i], f) && doc_matches(docs[i], terms) {
            seq![hit_of(docs[i], terms)] + rest
        } else {
            rest
        }
    }
}

/// The hit order: higher scores first, index order between ties.
pub open spec fn score_desc_leq() -> spec_fn(HitV, HitV) -> bool {
    |a: HitV, b: HitV| a.score >= b.score
}

/// What a search answers: nothing for an overlong query; otherwise
/// the filtered, matching documents as hits, ranked by score with the
/// index order between ties, paged by `offset` and `limit`.
pub open spec fn search_results(
    docs: Seq<DocV>,
    q: Seq<char>,
    f: FiltersV,
    limit: int,
    offset: int,
) -> Seq<HitV> {
    if q.len() > MAX_QUERY_CHARS || terms_of(q).len() > MAX_QUERY_CHARS {
        Seq::empty()
    } else {
        let terms = terms_of(q);
        let ranked = stable_sort_by(score_desc_leq(), matching_hits(docs, terms, f, 0));
        page(ranked, offset, limit)
    }
}

/// The documents of one conversation, one per message.
pub open spec fn docs_for(id: i64, c: ConversationV, i: int) -> Seq<DocV>
    decreases c.messages.len() - i,
{
    if i < 0 || i >= c.messages.len() {
        Seq::empty()
    } else {
        seq![doc_of(id, c, c.messages[i])] + docs_for(id, c, i + 1)
    }
}

/// The document one message yields.
pub open spec fn doc_of(id: i64, c: ConversationV, m: MessageV) -> DocV {
    DocV {
        conversation_id: id,
        idx: m.idx,
        agent: c.agent_slug,
        workspace: c.workspace,
        role: m.role,
        author: m.author,
        created_at: m.created_at,
        title: c.title,
        content: m.content,
    }
}

/// The documents that do not belong to conversation `id`.
pub open spec fn keep_docs(docs: Seq<DocV>, id: i64, i: int) -> Seq<DocV>
    decreases docs.len() - i,
{
    if i < 0 || i >= docs.len() {
        Seq::empty()
    } else {
        let rest = keep_docs(docs, id, i + 1);
        if docs[i].conversation_id == id {
            rest
        } else {
            seq![docs[i]] + rest
        }
    }
}

impl SearchIndex {
    /// An empty index.
    pub fn new() -> (r: SearchIndex)
        ensures
            r.docs@.len() == 0,
    {
        SearchIndex { docs: Vec::new() }
    }

    /// Empties the index, for a full rebuild.
    pub fn clear(&mut self)
        ensures
            final(self).docs@.len() == 0,
    {
        self.docs = Vec::new();
    }

    /// Drops every document of conversation `id`, keeping the rest in
    /// order.
    #[verifier::loop_isolation(false)]
    pub fn remove_conversation(&mut self, id: i64)
        ensures
            final(self).docs@.map_values(|d: Doc| d@) == keep_docs(
                old(self).docs@.map_values(|d: Doc| d@),
                id,
                0,
            ),
    {
        let ghost docs0 = self.docs@.map_values(|d: Doc| d@);
        let mut kept: Vec<Doc> = Vec::new();
        while self.docs.len() > 0
            invariant
                keep_docs(docs0, id, 0) =~= kept@.map_values(|d: Doc| d@) + keep_docs(
                    self.docs@.map_values(|d: Doc| d@),
                    id,
                    0,
                ),
            decreases self.docs@.len(),
        {
            let ghost remv = self.docs@.map_values(|d: Doc| d@);
            let d = self.docs.remove(0);
            proof {
                assert(remv[0] == d@);
                assert(remv.drop_first() =~= self.docs@.map_values(|x: Doc| x@));
                lemma_keep_docs_step(remv, id);
            }
            if d.conversation_id != id {
                let ghost prev = kept@.map_values(|x: Doc| x@);
                kept.push(d);
                proof {
                    assert(kept@.map_values(|x: Doc| x@) =~= prev + seq![remv[0]]);
                }
            }
        }
        proof {
            assert(keep_docs(self.docs@.map_values(|d: Doc| d@), id, 0) =~= Seq::<
                DocV,
            >::empty());
            assert(kept@.map_values(|d: Doc| d@) =~= keep_docs(docs0, id, 0));
        }
        self.docs = kept;
    }

    /// Replaces the documents of one stored conversation: whatever
    /// stood under its identifier goes, one document per message
    /// comes.
    #[verifier::loop_isolation(false)]
    pub fn add_conversation(&mut self, sc: &StoredConversation)
        ensures
            final(self).docs@.map_values(|d: Doc| d@) == keep_docs(
                old(self).docs@.map_values(|d: Doc| d@),
                sc.id,
                0,
            ) + docs_for(sc.id, sc.data@, 0),
    {
        let ghost docs0 = self.docs@.map_values(|d: Doc| d@);
        self.remove_conversation(sc.id);
        let mut kept = Vec::new();
        core::mem::swap(&mut kept, &mut self.docs);
        proof {
            lemma_docs_for_len(sc.id, sc.data@, 0);
            assert(docs_for(sc.id, sc.data@, 0).take(0) =~= Seq::<DocV>::empty());
            assert(kept@.map_values(|d: Doc| d@) =~= keep_docs(docs0, sc.id, 0));
        }
        let n = sc.data.messages.len();
        let mut i: usize = 0;
        while i < n
            invariant
                n == sc.data.messages@.len(),
                0 <= i <= n,
                kept@.map_values(|d: Doc| d@) =~= keep_docs(docs0, sc.id, 0) + docs_for(
                    sc.id,
                    sc.data@,
                    0,
                ).take(i as int),
                docs_for(sc.id, sc.data@, 0).len() == n,
            decreases n - i,
        {
            let m = &sc.data.messages[i];
            let doc = Doc {
                conversation_id: sc.id,
                idx: m.idx,
                agent: sc.data.agent_slug.clone(),
                workspace: match &sc.data.workspace {
                    Some(w) => Some(w.clone()),
                    None => None,
                },
                role: m.role.clone(),
                author: match &m.author {
                    Some(a) => Some(a.clone()),
                    None => None,
                },
                created_at: m.created_at,
                title: match &sc.data.title {
                    Some(t) => Some(t.clone()),
                    None => None,
                },
                content: m.content.clone(),
            };
            proof {
                lemma_docs_for_index(sc.id, sc.data@, 0, i as int);
                assert(sc.data@.messages[i as int] == sc.data.messages@[i as int]@);
                assert(doc@ =~= docs_for(sc.id, sc.data@, 0)[i as int]);
            }
            let ghost prev = kept@.map_values(|d: Doc| d@);
            kept.push(doc);
            proof {
                assert(kept@.map_values(|d: Doc| d@) =~= prev + seq![
                    docs_for(sc.id, sc.data@, 0)[i as int]]);
                assert(docs_for(sc.id, sc.data@, 0).take(i + 1) =~= docs_for(
                    sc.id,
                    sc.data@,
                    0,
                ).take(i as int).push(docs_for(sc.id, sc.data@, 0)[i as int]));
            }
            i += 1;
        }
        self.docs = kept;
        proof {
            assert(docs_for(sc.id, sc.data@, 0).take(n as int) =~= docs_for(sc.id, sc.data@, 0));
            assert(final(self).docs@.map_values(|d: Doc| d@) =~= keep_docs(docs0, sc.id, 0)
                + docs_for(sc.id, sc.data@, 0));
        }
    }

    /// Answers a query: the filtered, matching documents as ranked,
    /// paged hits with snippets.
    #[verifier::loop_isolation(false)]
    pub fn search(&self, query: &str, filters: &QueryFilters, limit: usize, offset: usize) -> (r:
        Vec<Hit>)
        ensures
            r@.map_values(|h: Hit| h@) == search_results(
                self.docs@.map_values(|d: Doc| d@),
                query@,
                filters@,
                limit as int,
                offset as int,
            ),
    {
        let ghost dv = self.docs@.map_values(|d: Doc| d@);
        if query.unicode_len() > MAX_QUERY_CHARS {
            return Vec::new();
        }
        let terms = parse_terms(query, 0);
        if terms.len() > MAX_QUERY_CHARS {
            return Vec::new();
        }
        let ghost termv = terms@.map_values(|t: Term| t@);
        let ghost leq = score_desc_leq();
        let n = self.docs.len();
        let mut hits: Vec<Hit> = Vec::new();
        let mut i: usize = 0;
        while i < n
            invariant
                n == dv.len(),
                0 <= i <= n,
                termv == terms_of(query@),
                termv == terms@.map_values(|t: Term| t@),
                hits@.map_values(|h: Hit| h@) =~= matching_hits(dv.take(i as int), termv, filters@, 0),
            decreases n - i,
        {
            let d = &self.docs[i];
            proof {
                assert(dv[i as int] == d@);
                assert(dv.take(i + 1).drop_last() =~= dv.take(i as int));
                assert(dv.take(i + 1).last() == dv[i as int]);
                lemma_matching_push(dv.take(i + 1), termv, filters@);
            }
            if filter_ok_exec(d, filters) && doc_matches_exec(d, &terms) {
                let h = hit_exec(d, &terms);
                let ghost prev = hits@.map_values(|h: Hit| h@);
                hits.push(h);
                proof {
                    assert(hits@.map_values(|h: Hit| h@) =~= prev + seq![hit_of(dv[i as int], termv)]);
                }
            }
            i += 1;
        }
        proof {
            assert(dv.take(n as int) =~= dv);
        }
        // Rank by score, keeping the index order between ties.
        let mut sorted: Vec<Hit> = Vec::new();
        let mut rest = hits;
        let ghost input = rest@.map_values(|h: Hit| h@);
        let ghost mut done = 0int;
        proof {
            assert(input.take(0) =~= Seq::<HitV>::empty());
        }
        while rest.len() > 0
            invariant
                0 <= done <= input.len(),
                rest@.map_values(|h: Hit| h@) =~= input.skip(done),
                sorted@.map_values(|h: Hit| h@) == stable_sort_by(leq, input.take(done)),
                leq == score_desc_leq(),
            decreases rest@.len(),
        {
            let x = rest.remove(0);
            proof {
                assert(input.skip(done)[0] == x@);
                assert(input.skip(done).drop_first() =~= input.skip(done + 1));
                assert(input[done] == x@);
            }
            let ghost sorted_view = sorted@.map_values(|h: Hit| h@);
            let mut j: usize = sorted.len();
            while j > 0 && sorted[j - 1].score < x.score
                invariant
                    0 <= j <= sorted@.len(),
                    sorted_view == sorted@.map_values(|h: Hit| h@),
                    forall|k: int|
                        j <= k < sorted_view.len() ==> !leq(#[trigger] sorted_view[k], x@),
                    leq == score_desc_leq(),
                decreases j,
            {
                j -= 1;
            }
            proof {
                crate::sort::lemma_insert_at(leq, sorted_view, x@, j as int);
            }
            sorted.insert(j, x);
            proof {
                done = done + 1;
                assert(input.take(done).drop_last() =~= input.take(done - 1));
                assert(input.take(done).last() == input[done - 1]);
                assert(sorted@.map_values(|h: Hit| h@) =~= sorted_view.take(j as int) + seq![
                    input[done - 1]] + sorted_view.skip(j as int));
            }
        }
        proof {
            assert(input.take(done) =~= input);
        }
        // Page.
        let total = sorted.len();
        let start = if offset < total {
            offset
        } else {
            total
        };
        let end = if limit < total - start {
            start + limit
        } else {
            total
        };
        let mut out: Vec<Hit> = Vec::new();
        let mut k: usize = start;
        while k < end
            invariant
                start <= k <= end <= total,
                total == sorted@.len(),
                out@.map_values(|h: Hit| h@) =~= page(
                    sorted@.map_values(|h: Hit| h@),
                    start as int,
                    (k - start) as int,
                ),
            decreases end - k,
        {
            let h = clone_hit(&sorted[k]);
            out.push(h);
            proof {
                assert(sorted@.map_values(|x: Hit| x@)[k as int] == sorted@[k as int]@);
                assert(out@.map_values(|x: Hit| x@) =~= page(
                    sorted@.map_values(|x: Hit| x@),
                    start as int,
                    (k + 1 - start) as int,
                ));
            }
            k += 1;
        }
        proof {
            assert(page(sorted@.map_values(|h: Hit| h@), start as int, (end - start) as int)
                =~= page(sorted@.map_values(|h: Hit| h@), offset as int, limit as int));
        }
        out
    }
}

/// A copy of a hit with the same view.
fn clone_hit(h: &Hit) -> (r: Hit)
    ensures
        r@ == h@,
{
    let r = Hit {
        conversation_id: h.conversation_id,
        idx: h.idx,
        score: h.score,
        agent: h.agent.clone(),
        workspace: match &h.workspace {
            Some(w) => Some(w.clone()),
            None => None,
        },
        role: h.role.clone(),
        created_at: h.created_at,
        title: match &h.title {
            Some(t) => Some(t.clone()),
            None => None,
        },
        snippet: h.snippet.clone(),
    };
    proof {
        assert(r@ =~= h@);
    }
    r
}

/// Whether every term matches the document.
#[verifier::loop_isolation(false)]
fn doc_matches_exec(d: &Doc, terms: &Vec<Term>) -> (r: bool)
    ensures
        r == doc_matches(d@, terms@.map_values(|t: Term| t@)),
{
    let ghost termv = terms@.map_values(|t: Term| t@);
    let content_toks = tokenize(d.content.as_str());
    let title_toks: Vec<String> = match &d.title {
        Some(t) => tokenize(t.as_str()),
        None => Vec::new(),
    };
    proof {
        assert(content_toks@.map_values(|t: String| t@) =~= tokens_of(d@.content));
        assert(title_toks@.map_values(|t: String| t@) =~= title_tokens(d@.title));
    }
    let n = terms.len();
    let mut i: usize = 0;
    while i < n
        invariant
            n == termv.len(),
            termv == terms@.map_values(|t: Term| t@),
            content_toks@.map_values(|t: String| t@) == tokens_of(d@.content),
            title_toks@.map_values(|t: String| t@) == title_tokens(d@.title),
            0 <= i <= n,
            forall|k: int|
                0 <= k < i ==> term_matches(tokens_of(d@.content), #[trigger] termv[k])
                    || term_matches(title_tokens(d@.title), termv[k]),
        decreases n - i,
    {
        proof {
            assert(termv[i as int] == terms@[i as int]@);
        }
        let in_content = term_matches_exec(&content_toks, &terms[i]);
        let in_title = term_matches_exec(&title_toks, &terms[i]);
        if !in_content && !in_title {
            return false;
        }
        i += 1;
    }
    true
}

/// The score of one document under the terms, from term `i` on.
#[verifier::loop_isolation(false)]
fn score_exec(d: &Doc, terms: &Vec<Term>, i: usize) -> (r: usize)
    requires
        i <= terms@.len(),
        terms@.len() <= MAX_QUERY_CHARS,
    ensures
        r as int == score_of(d@, terms@.map_values(|t: Term| t@), i as int),
        r <= 3 * (terms@.len() - i),
    decreases terms@.len() - i,
{
    let ghost termv = terms@.map_values(|t: Term| t@);
    if i == terms.len() {
        0
    } else {
        proof {
            assert(termv[i as int] == terms@[i as int]@);
        }
        let content_toks = tokenize(d.content.as_str());
        let title_toks: Vec<String> = match &d.title {
            Some(t) => tokenize(t.as_str()),
            None => Vec::new(),
        };
        proof {
            assert(content_toks@.map_values(|t: String| t@) =~= tokens_of(d@.content));
            assert(title_toks@.map_values(|t: String| t@) =~= title_tokens(d@.title));
        }
        let c: usize = if term_matches_exec(&content_toks, &terms[i]) {
            1
        } else {
            0
        };
        let t: usize = if term_matches_exec(&title_toks, &terms[i]) {
            2
        } else {
            0
        };
        let rest = score_exec(d, terms, i + 1);
        c + t + rest
    }
}

/// The hit one matching document yields.
fn hit_exec(d: &Doc, terms: &Vec<Term>) -> (r: Hit)
    requires
        terms@.len() <= MAX_QUERY_CHARS,
    ensures
        r@ == hit_of(d@, terms@.map_values(|t: Term| t@)),
{
    let score = score_exec(d, terms, 0);
    let snippet = snippet_exec(d.content.as_str(), terms);
    let r = Hit {
        conversation_id: d.conversation_id,
        idx: d.idx,
        score,
        agent: d.agent.clone(),
        workspace: match &d.workspace {
            Some(w) => Some(w.clone()),
            None => None,
        },
        role: d.role.clone(),
        created_at: d.created_at,
        title: match &d.title {
            Some(t) => Some(t.clone()),
            None => None,
        },
        snippet,
    };
    proof {
        assert(r@ =~= hit_of(d@, terms@.map_values(|t: Term| t@)));
    }
    r
}

/// Kept documents split over a concatenation.
pub proof fn lemma_keep_docs_concat(a: Seq<DocV>, b: Seq<DocV>, id: i64)
    ensures
        keep_docs(a + b, id, 0) =~= keep_docs(a, id, 0) + keep_docs(b, id, 0),
    decreases a.len(),
{
    if a.len() == 0 {
        assert(a + b =~= b);
    } else {
        lemma_keep_docs_concat(a.drop_first(), b, id);
        lemma_keep_docs_step(a + b, id);
        lemma_keep_docs_step(a, id);
        assert((a + b).drop_first() =~= a.drop_first() + b);
        assert((a + b)[0] == a[0]);
    }
}

/// No kept document carries the dropped identifier.
pub proof fn lemma_keep_docs_free(docs: Seq<DocV>, id: i64)
    ensures
        forall|k: int|
            0 <= k < keep_docs(docs, id, 0).len() ==> (
            #[trigger] keep_docs(docs, id, 0)[k]).conversation_id != id,
    decreases docs.len(),
{
    if docs.len() > 0 {
        lemma_keep_docs_step(docs, id);
        lemma_keep_docs_free(docs.drop_first(), id);
    }
}

/// Documents free of the identifier are all kept.
pub proof fn lemma_keep_docs_of_free(docs: Seq<DocV>, id: i64)
    requires
        forall|k: int| 0 <= k < docs.len() ==> (#[trigger] docs[k]).conversation_id != id,
    ensures
        keep_docs(docs, id, 0) =~= docs,
    decreases docs.len(),
{
    if docs.len() > 0 {
        lemma_keep_docs_step(docs, id);
        assert(forall|k: int|
            0 <= k < docs.drop_first().len() ==> (#[trigger] docs.drop_first()[k]).conversation_id
                != id);
        lemma_keep_docs_of_free(docs.drop_first(), id);
    }
}

/// Dropping the same identifier twice drops nothing more.
pub proof fn lemma_keep_docs_idempotent(docs: Seq<DocV>, id: i64)
    ensures
        keep_docs(keep_docs(docs, id, 0), id, 0) =~= keep_docs(docs, id, 0),
{
    lemma_keep_docs_free(docs, id);
    lemma_keep_docs_of_free(keep_docs(docs, id, 0), id);
}

/// Documents that all carry the identifier are all dropped.
pub proof fn lemma_keep_docs_of_own(docs: Seq<DocV>, id: i64)
    requires
        forall|k: int| 0 <= k < docs.len() ==> (#[trigger] docs[k]).conversation_id == id,
    ensures
        keep_docs(docs, id, 0).len() == 0,
    decreases docs.len(),
{
    if docs.len() > 0 {
        lemma_keep_docs_step(docs, id);
        assert(forall|k: int|
            0 <= k < docs.drop_first().len() ==> (#[trigger] docs.drop_first()[k]).conversation_id
                == id);
        lemma_keep_docs_of_own(docs.drop_first(), id);
    }
}

/// Every document of a conversation carries that conversation's
/// identifier.
pub proof fn lemma_docs_for_own_ids(id: i64, c: ConversationV, i: int)
    ensures
        forall|k: int|
            0 <= k < docs_for(id, c, i).len() ==> (#[trigger] docs_for(id, c, i)[k]).conversation_id
                == id,
    decreases c.messages.len() - i,
{
    if 0 <= i < c.messages.len() {
        lemma_docs_for_own_ids(id, c, i + 1);
    }
}

/// One step of `keep_docs`.
proof fn lemma_keep_docs_step(docs: Seq<DocV>, id: i64)
    requires
        docs.len() > 0,
    ensures
        keep_docs(docs, id, 0) == (if docs[0].conversation_id == id {
            Seq::empty()
        } else {
            seq![docs[0]]
        }) + keep_docs(docs.drop_first(), id, 0),
{
    lemma_keep_docs_from(docs, id, 1);
}

proof fn lemma_keep_docs_from(docs: Seq<DocV>, id: i64, i: int)
    requires
        1 <= i <= docs.len(),
    ensures
        keep_docs(docs, id, i) == keep_docs(docs.drop_first(), id, i - 1),
    decreases docs.len() - i,
{
    if i < docs.len() {
        lemma_keep_docs_from(docs, id, i + 1);
        assert(docs.drop_first()[i - 1] == docs[i]);
    }
}

/// `docs_for` has one document per message, in order.
proof fn lemma_docs_for_index(id: i64, c: ConversationV, i: int, k: int)
    requires
        0 <= i <= k < c.messages.len(),
    ensures
        docs_for(id, c, i).len() == c.messages.len() - i,
        docs_for(id, c, i)[k - i] == doc_of(id, c, c.messages[k]),
    decreases k - i,
{
    lemma_docs_for_len(id, c, i + 1);
    if i < k {
        lemma_docs_for_index(id, c, i + 1, k);
    }
}

/// The length of `docs_for`.
proof fn lemma_docs_for_len(id: i64, c: ConversationV, i: int)
    ensures
        0 <= i <= c.messages.len() ==> docs_for(id, c, i).len() == c.messages.len() - i,
    decreases c.messages.len() - i,
{
    if 0 <= i < c.messages.len() {
        lemma_docs_for_len(id, c, i + 1);
    }
}

/// Appending a matching document appends its hit.
proof fn lemma_matching_push(docs: Seq<DocV>, terms: Seq<TermV>, f: FiltersV)
    requires
        docs.len() > 0,
    ensures
        matching_hits(docs, terms, f, 0) =~= matching_hits(docs.drop_last(), terms, f, 0) + (
        if filter_ok(docs.last(), f) && doc_matches(docs.last(), terms) {
            seq![hit_of(docs.last(), terms)]
        } else {
            Seq::empty()
        }),
{
    lemma_matching_push_at(docs, terms, f, 0);
}

proof fn lemma_matching_push_at(docs: Seq<DocV>, terms: Seq<TermV>, f: FiltersV, i: int)
    requires
        0 <= i <= docs.len(),
        docs.len() > 0,
    ensures
        matching_hits(docs, terms, f, i) =~= matching_hits(docs.drop_last(), terms, f, i) + (
        if i < docs.len() && filter_ok(docs.last(), f) && doc_matches(docs.last(), terms) {
            seq![hit_of(docs.last(), terms)]
        } else {
            Seq::empty()
        }),
    decreases docs.len() - i,
{
    if i < docs.len() - 1 {
        lemma_matching_push_at(docs, terms, f, i + 1);
        assert(docs.drop_last()[i] == docs[i]);
    } else if i == docs.len() - 1 {
        assert(matching_hits(docs.drop_last(), terms, f, i).len() == 0);
        assert(docs[i] == docs.last());
        assert(matching_hits(docs, terms, f, i + 1).len() == 0);
    } else {
        assert(matching_hits(docs.drop_last(), terms, f, i).len() == 0);
    }
}

} // verus!
