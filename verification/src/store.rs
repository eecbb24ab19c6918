//! The relational store.
//!
//! The authoritative side of the dual store: conversations with their
//! messages, workspaces, and per-agent scan watermarks. A conversation
//! is keyed by `(agent_slug, source_path)`, and also by
//! `(agent_slug, external_id)` where the source gives an identifier; an
//! upsert replaces every row either key matches, so both keys stay
//! unique and a message set is only ever seen whole.

use vstd::prelude::*;
use crate::model::{wf_conversation, ConversationV, NormalizedConversation};
use crate::sort::stable_sort_by;

verus! {

/// A workspace row: a directory sighted in some conversation.
pub struct Workspace {
    pub id: i64,
    pub path: String,
    pub display_name: Option<String>,
}

/// A stored conversation: the normalized record under a row identity.
pub struct StoredConversation {
    pub id: i64,
    pub workspace_id: Option<i64>,
    pub data: NormalizedConversation,
}

/// The store: workspaces, conversations with their messages, and
/// per-agent watermarks.
pub struct Store {
    pub workspaces: Vec<Workspace>,
    pub conversations: Vec<StoredConversation>,
    pub watermarks: Vec<(String, i64)>,
    pub next_id: i64,
}

/// Whether an incoming conversation `c` claims the row `row`: same
/// agent and same source path, or same agent and the same present
/// external identifier.
pub open spec fn claims(c: ConversationV, row: ConversationV) -> bool {
    c.agent_slug == row.agent_slug && (c.source_path == row.source_path || (
    c.external_id matches Some(e) && row.external_id matches Some(e2) && e == e2))
}

/// The stored rows not claimed by `c`, in order.
pub open spec fn surviving(rows: Seq<StoredConversation>, c: ConversationV, i: int) -> Seq<
    StoredConversation,
>
    decreases rows.len() - i,
{
    if i < 0 || i >= rows.len() {
        Seq::empty()
    } else {
        let rest = surviving(rows, c, i + 1);
        if claims(c, rows[i].data@) {
            rest
        } else {
            seq![rows[i]] + rest
        }
    }
}

impl Store {
    /// Whether the store is well formed: row identifiers unique and
    /// below the allocator, both conversation keys unique, workspace
    /// paths unique, watermark agents unique, and every message set
    /// dense and non-empty.
    pub open spec fn wf(self) -> bool {
        &&& 1 <= self.next_id
        &&& forall|i: int|
            0 <= i < self.conversations@.len() ==> 0 < (#[trigger] self.conversations@[i]).id
                < self.next_id
        &&& forall|i: int, j: int|
            0 <= i < j < self.conversations@.len() ==> (#[trigger] self.conversations@[i]).id != (
            #[trigger] self.conversations@[j]).id
        &&& forall|i: int, j: int|
            0 <= i < j < self.conversations@.len() ==> !claims(
                (#[trigger] self.conversations@[i]).data@,
                (#[trigger] self.conversations@[j]).data@,
            )
        &&& forall|i: int|
            0 <= i < self.conversations@.len() ==> wf_conversation(
                (#[trigger] self.conversations@[i]).data@,
            )
        &&& forall|i: int|
            0 <= i < self.workspaces@.len() ==> 0 < (#[trigger] self.workspaces@[i]).id
                < self.next_id
        &&& forall|i: int, j: int|
            0 <= i < j < self.workspaces@.len() ==> (#[trigger] self.workspaces@[i]).path@ != (
            #[trigger] self.workspaces@[j]).path@
        &&& forall|i: int, j: int|
            0 <= i < j < self.workspaces@.len() ==> (#[trigger] self.workspaces@[i]).id != (
            #[trigger] self.workspaces@[j]).id
        &&& forall|i: int, j: int|
            0 <= i < j < self.watermarks@.len() ==> (#[trigger] self.watermarks@[i]).0@ != (
            #[trigger] self.watermarks@[j]).0@
    }

    /// An empty store.
    pub fn new() -> (r: Store)
        ensures
            r.wf(),
            r.conversations@.len() == 0,
            r.workspaces@.len() == 0,
            r.watermarks@.len() == 0,
    {
        Store { workspaces: Vec::new(), conversations: Vec::new(), watermarks: Vec::new(), next_id: 1 }
    }

    /// The position of the conversation row with identifier `id`.
    pub fn find_conversation(&self, id: i64) -> (r: Option<usize>)
        ensures
            match r {
                Some(i) => i < self.conversations@.len() && self.conversations@[i as int].id == id,
                None => forall|i: int|
                    0 <= i < self.conversations@.len() ==> (#[trigger] self.conversations@[i]).id
                        != id,
            },
    {
        let n = self.conversations.len();
        let mut i: usize = 0;
        while i < n
            invariant
                n == self.conversations@.len(),
                0 <= i <= n,
                forall|k: int|
                    0 <= k < i ==> (#[trigger] self.conversations@[k]).id != id,
            decreases n - i,
        {
            if self.conversations[i].id == id {
                return Some(i);
            }
            i += 1;
        }
        None
    }

    /// The watermark stored for `agent`, if any.
    pub fn get_watermark(&self, agent: &str) -> (r: Option<i64>)
        ensures
            match watermark_of(self.watermarks@, agent@) {
                Some(t) => r == Some(t),
                None => r is None,
            },
    {
        let ghost wv = self.watermarks@;
        let n = self.watermarks.len();
        let mut i: usize = 0;
        proof {
            lemma_watermark_scan(wv, agent@, 0);
        }
        while i < n
            invariant
                n == wv.len(),
                wv == self.watermarks@,
                0 <= i <= n,
                forall|k: int| 0 <= k < i ==> (#[trigger] wv[k]).0@ != agent@,
            decreases n - i,
        {
            if crate::json::str_eq(self.watermarks[i].0.as_str(), agent) {
                proof {
                    lemma_watermark_scan(wv, agent@, i as int);
                }
                return Some(self.watermarks[i].1);
            }
            i += 1;
        }
        proof {
            lemma_watermark_scan(wv, agent@, n as int);
        }
        None
    }

    /// Writes the watermark for `agent`, adding its row when it has
    /// none.
    #[verifier::loop_isolation(false)]
    pub fn set_watermark(&mut self, agent: &str, ts: i64)
        requires
            old(self).wf(),
        ensures
            final(self).wf(),
            watermark_of(final(self).watermarks@, agent@) == Some(ts),
            final(self).conversations@ == old(self).conversations@,
            final(self).workspaces@ == old(self).workspaces@,
            final(self).next_id == old(self).next_id,
            forall|a: Seq<char>|
                a != agent@ ==> #[trigger] watermark_of(final(self).watermarks@, a)
                    == watermark_of(old(self).watermarks@, a),
    {
        let ghost wv0 = self.watermarks@;
        let n = self.watermarks.len();
        let mut i: usize = 0;
        while i < n
            invariant
                n == self.watermarks@.len(),
                self.watermarks@ == wv0,
                self.conversations@ == old(self).conversations@,
                self.workspaces@ == old(self).workspaces@,
                self.next_id == old(self).next_id,
                0 <= i <= n,
                forall|k: int| 0 <= k < i ==> (#[trigger] wv0[k]).0@ != agent@,
            decreases n - i,
        {
            if crate::json::str_eq(self.watermarks[i].0.as_str(), agent) {
                let name = self.watermarks[i].0.clone();
                let ghost before = self.watermarks@;
                self.watermarks.set(i, (name, ts));
                proof {
                    assert(forall|k: int|
                        0 <= k < self.watermarks@.len() ==> (#[trigger] self.watermarks@[k]).0@
                            == before[k].0@);
                    assert(self.watermarks@[i as int].0@ == agent@);
                    lemma_watermark_scan(self.watermarks@, agent@, i as int);
                    assert forall|a: Seq<char>| a != agent@ implies #[trigger] watermark_of(
                        self.watermarks@,
                        a,
                    ) == watermark_of(before, a) by {
                        lemma_watermark_update_other(before, self.watermarks@, a, i as int);
                    }
                }
                return ;
            }
            i += 1;
        }
        let ghost before = self.watermarks@;
        self.watermarks.push((agent.to_owned(), ts));
        proof {
            assert(self.watermarks@.drop_last() =~= before);
            lemma_watermark_scan_push(before, self.watermarks@, agent@, ts);
            assert forall|a: int, b: int|
                0 <= a < b < self.watermarks@.len() implies (#[trigger] self.watermarks@[a]).0@
                != (#[trigger] self.watermarks@[b]).0@ by {
                if b == before.len() {
                    assert(self.watermarks@[a] == before[a]);
                    assert(before[a].0@ != agent@);
                }
            }
        }
    }
}

/// The row identifiers of every stored row that `c` claims, in store
/// order.
pub open spec fn claimed_ids(rows: Seq<StoredConversation>, c: ConversationV, i: int) -> Seq<i64>
    decreases rows.len() - i,
{
    if i < 0 || i >= rows.len() {
        Seq::empty()
    } else {
        let rest = claimed_ids(rows, c, i + 1);
        if claims(c, rows[i].data@) {
            seq![rows[i].id] + rest
        } else {
            rest
        }
    }
}

/// The row identifier of the first stored row that `c` claims.
pub open spec fn first_claimed_id(rows: Seq<StoredConversation>, c: ConversationV, i: int) -> Option<
    i64,
>
    decreases rows.len() - i,
{
    if i < 0 || i >= rows.len() {
        None
    } else if claims(c, rows[i].data@) {
        Some(rows[i].id)
    } else {
        first_claimed_id(rows, c, i + 1)
    }
}

/// The path of the workspace with identifier `id`, if any.
pub open spec fn workspace_path_of(ws: Seq<Workspace>, id: i64) -> Option<Seq<char>>
    decreases ws.len(),
{
    if ws.len() == 0 {
        None
    } else if ws[0].id == id {
        Some(ws[0].path@)
    } else {
        workspace_path_of(ws.drop_first(), id)
    }
}

/// The identifier of the workspace at `path`, if any.
pub open spec fn workspace_id_of(ws: Seq<Workspace>, path: Seq<char>) -> Option<i64>
    decreases ws.len(),
{
    if ws.len() == 0 {
        None
    } else if ws[0].path@ == path {
        Some(ws[0].id)
    } else {
        workspace_id_of(ws.drop_first(), path)
    }
}

impl Store {
    /// The identifier of the workspace at `path`, which is created on
    /// first sighting and never moves.
    #[verifier::loop_isolation(false)]
    pub fn find_or_create_workspace(&mut self, path: &str) -> (r: i64)
        requires
            old(self).wf(),
            old(self).next_id < 0x7fff_ffff_ffff_ffff,
        ensures
            final(self).wf(),
            workspace_id_of(final(self).workspaces@, path@) == Some(r),
            final(self).conversations@ == old(self).conversations@,
            final(self).watermarks@ == old(self).watermarks@,
            old(self).next_id <= final(self).next_id <= old(self).next_id + 1,
            final(self).workspaces@.len() >= old(self).workspaces@.len(),
            forall|k: int|
                0 <= k < old(self).workspaces@.len() ==> final(self).workspaces@[k] == old(
                    self,
                ).workspaces@[k],
            0 < r < final(self).next_id,
    {
        let ghost ws0 = self.workspaces@;
        let n = self.workspaces.len();
        let mut i: usize = 0;
        while i < n
            invariant
                n == self.workspaces@.len(),
                self.workspaces@ == ws0,
                self.conversations@ == old(self).conversations@,
                self.watermarks@ == old(self).watermarks@,
                self.next_id == old(self).next_id,
                0 <= i <= n,
                forall|k: int| 0 <= k < i ==> (#[trigger] ws0[k]).path@ != path@,
            decreases n - i,
        {
            if crate::json::str_eq(self.workspaces[i].path.as_str(), path) {
                proof {
                    lemma_workspace_id_scan(ws0, path@, i as int);
                }
                return self.workspaces[i].id;
            }
            i += 1;
        }
        let id = self.next_id;
        self.next_id = self.next_id + 1;
        self.workspaces.push(Workspace { id, path: path.to_owned(), display_name: None });
        proof {
            assert(self.workspaces@.drop_last() =~= ws0);
            lemma_workspace_id_scan(self.workspaces@, path@, n as int);
            assert forall|a: int, b: int|
                0 <= a < b < self.workspaces@.len() implies (#[trigger] self.workspaces@[a]).path@
                != (#[trigger] self.workspaces@[b]).path@ && (
            #[trigger] self.workspaces@[a]).id != (#[trigger] self.workspaces@[b]).id by {
                if b == ws0.len() {
                    assert(self.workspaces@[a] == ws0[a]);
                }
            }
        }
        id
    }

    /// Whether `c` claims the same row as `row` under either key.
    fn claims_exec(c: &NormalizedConversation, row: &NormalizedConversation) -> (r: bool)
        ensures
            r == claims(c@, row@),
    {
        if !crate::json::str_eq(c.agent_slug.as_str(), row.agent_slug.as_str()) {
            return false;
        }
        if crate::json::str_eq(c.source_path.as_str(), row.source_path.as_str()) {
            return true;
        }
        match (&c.external_id, &row.external_id) {
            (Some(e), Some(e2)) => crate::json::str_eq(e.as_str(), e2.as_str()),
            _ => false,
        }
    }

    /// The identifiers of every stored row that `c` claims: the rows
    /// an upsert of `c` will replace.
    #[verifier::loop_isolation(false)]
    pub fn claimed_row_ids(&self, c: &NormalizedConversation) -> (r: Vec<i64>)
        ensures
            r@ == claimed_ids(self.conversations@, c@, 0),
    {
        let ghost rows = self.conversations@;
        let n = self.conversations.len();
        let mut out: Vec<i64> = Vec::new();
        let mut i: usize = 0;
        proof {
            lemma_claimed_ids_take(rows, c@, 0);
        }
        while i < n
            invariant
                n == rows.len(),
                rows == self.conversations@,
                0 <= i <= n,
                out@ =~= claimed_ids(rows.take(i as int), c@, 0),
            decreases n - i,
        {
            proof {
                assert(rows.take(i + 1).drop_last() =~= rows.take(i as int));
                assert(rows.take(i + 1).last() == rows[i as int]);
                lemma_claimed_ids_push(rows.take(i + 1), c@);
            }
            if Self::claims_exec(c, &self.conversations[i].data) {
                out.push(self.conversations[i].id);
            }
            i += 1;
        }
        proof {
            assert(rows.take(n as int) =~= rows);
        }
        out
    }

    /// Inserts or replaces `c`: every row either key claims goes, one
    /// new row comes, under the claimed row's identity where one
    /// existed. `None` only when the identifier space is spent.
    #[verifier::loop_isolation(false)]
    #[verifier::rlimit(60)]
    pub fn upsert_conversation(&mut self, c: NormalizedConversation) -> (r: Option<i64>)
        requires
            old(self).wf(),
            wf_conversation(c@),
        ensures
            final(self).wf(),
            final(self).watermarks@ == old(self).watermarks@,
            match r {
                Some(id) => {
                    &&& final(self).conversations@.len() >= 1
                    &&& final(self).conversations@ =~= surviving(old(self).conversations@, c@, 0)
                        + seq![final(self).conversations@.last()]
                    &&& final(self).conversations@.last().id == id
                    &&& final(self).conversations@.last().data@ == c@
                    &&& (match first_claimed_id(old(self).conversations@, c@, 0) {
                        Some(oid) => id == oid,
                        None => id >= old(self).next_id && id < final(self).next_id,
                    })
                    &&& (match c@.workspace {
                        Some(w) => final(self).conversations@.last().workspace_id matches Some(wid)
                            && workspace_path_of(final(self).workspaces@, wid) == Some(w),
                        None => final(self).conversations@.last().workspace_id is None,
                    })
                    &&& final(self).workspaces@.len() >= old(self).workspaces@.len()
                    &&& forall|k: int|
                        0 <= k < old(self).workspaces@.len() ==> final(self).workspaces@[k] == old(
                            self,
                        ).workspaces@[k]
                },
                None => *final(self) == *old(self) && old(self).next_id >= 0x7fff_ffff_ffff_fffd,
            },
    {
        if self.next_id >= 0x7fff_ffff_ffff_fffd {
            return None;
        }
        let workspace_id = match &c.workspace {
            Some(w) => {
                let wid = self.find_or_create_workspace(w.as_str());
                proof {
                    lemma_workspace_id_to_path(self.workspaces@, w@, wid);
                }
                Some(wid)
            },
            None => None,
        };
        let ghost rows0 = self.conversations@;
        let ghost mid_ws = self.workspaces@;
        let ghost mid_next = self.next_id;
        let mut kept: Vec<StoredConversation> = Vec::new();
        let mut keep_id: Option<i64> = None;
        while self.conversations.len() > 0
            invariant
                self.workspaces@ == mid_ws,
                self.watermarks@ == old(self).watermarks@,
                self.next_id == mid_next,
                surviving(rows0, c@, 0) =~= kept@ + surviving(self.conversations@, c@, 0),
                first_claimed_id(rows0, c@, 0) == (match keep_id {
                    Some(x) => Some(x),
                    None => first_claimed_id(self.conversations@, c@, 0),
                }),
                forall|a: int, b: int|
                    0 <= a < b < kept@.len() ==> (#[trigger] kept@[a]).id != (
                    #[trigger] kept@[b]).id && !claims(kept@[a].data@, kept@[b].data@),
                forall|a: int|
                    0 <= a < kept@.len() ==> 0 < (#[trigger] kept@[a]).id < mid_next
                        && wf_conversation(kept@[a].data@) && !claims(c@, kept@[a].data@),
                forall|a: int, b: int|
                    0 <= a < b < self.conversations@.len() ==> (
                    #[trigger] self.conversations@[a]).id != (#[trigger] self.conversations@[b]).id
                        && !claims(self.conversations@[a].data@, self.conversations@[b].data@),
                forall|a: int|
                    0 <= a < self.conversations@.len() ==> 0 < (
                    #[trigger] self.conversations@[a]).id < mid_next && wf_conversation(
                        self.conversations@[a].data@,
                    ),
                forall|a: int, b: int|
                    0 <= a < kept@.len() && 0 <= b < self.conversations@.len() ==> (
                    #[trigger] kept@[a]).id != (#[trigger] self.conversations@[b]).id && !claims(
                        kept@[a].data@,
                        self.conversations@[b].data@,
                    ),
                keep_id matches Some(x) ==> forall|a: int|
                    0 <= a < kept@.len() ==> (#[trigger] kept@[a]).id != x,
                keep_id matches Some(x) ==> forall|b: int|
                    0 <= b < self.conversations@.len() ==> (#[trigger] self.conversations@[b]).id
                        != x,
                keep_id matches Some(x) ==> 0 < x < mid_next,
            decreases self.conversations@.len(),
        {
            let ghost remv = self.conversations@;
            let row = self.conversations.remove(0);
            proof {
                assert(remv[0] == row);
                assert(remv.drop_first() =~= self.conversations@);
                lemma_surviving_step(remv, c@);
                lemma_first_claimed_step(remv, c@);
            }
            if Self::claims_exec(&c, &row.data) {
                proof {
                    assert(first_claimed_id(remv, c@, 0) == Some(row.id) || keep_id is Some);
                }
                if keep_id.is_none() {
                    keep_id = Some(row.id);
                }
            } else {
                let ghost prev = kept@;
                kept.push(row);
                proof {
                    assert(kept@ =~= prev + seq![remv[0]]);
                }
            }
        }
        let id = match keep_id {
            Some(x) => x,
            None => {
                let id = self.next_id;
                self.next_id = self.next_id + 1;
                id
            },
        };
        let new_row = StoredConversation { id, workspace_id, data: c };
        kept.push(new_row);
        self.conversations = kept;
        proof {
            assert(surviving(rows0, c@, 0) =~= self.conversations@.drop_last());
            assert(self.conversations@ =~= surviving(rows0, c@, 0) + seq![
                self.conversations@.last()]);
            assert forall|a: int, b: int|
                0 <= a < b < self.conversations@.len() implies (
            #[trigger] self.conversations@[a]).id != (#[trigger] self.conversations@[b]).id
                && !claims(self.conversations@[a].data@, self.conversations@[b].data@) by {
                if b == self.conversations@.len() - 1 {
                    assert(!claims(c@, self.conversations@[a].data@));
                }
            }
        }
        Some(id)
    }

    /// The conversations under `workspace` (all of them where none is
    /// named), newest first by start time with unstarted ones last,
    /// paged by `offset` and `limit`: each with its row identifier and
    /// its message count.
    #[verifier::loop_isolation(false)]
    pub fn list_conversations_for_workspace(
        &self,
        workspace: Option<&str>,
        limit: usize,
        offset: usize,
    ) -> (r: Vec<(i64, usize)>)
        ensures
            r@ == page(
                stable_sort_by_start(
                    listed_entries(
                        self.conversations@,
                        match workspace {
                            Some(w) => Some(w@),
                            None => None,
                        },
                        0,
                    ),
                ),
                offset as int,
                limit as int,
            ).map_values(|e: (i64, usize, Option<i64>)| (e.0, e.1)),
    {
        let ghost wsv = match workspace {
            Some(w) => Some(w@),
            None => None,
        };
        let ghost leq = start_desc_leq();
        let n = self.conversations.len();
        let mut entries: Vec<(i64, usize, Option<i64>)> = Vec::new();
        let mut i: usize = 0;
        while i < n
            invariant
                n == self.conversations@.len(),
                0 <= i <= n,
                entries@ =~= listed_entries(self.conversations@.take(i as int), wsv, 0),
            decreases n - i,
        {
            let row = &self.conversations[i];
            let included = match workspace {
                Some(w) => match &row.data.workspace {
                    Some(rw) => crate::paths::str_starts_with(rw.as_str(), w),
                    None => false,
                },
                None => true,
            };
            proof {
                assert(self.conversations@.take(i + 1).drop_last() =~= self.conversations@.take(
                    i as int,
                ));
                assert(self.conversations@.take(i + 1).last() == self.conversations@[i as int]);
                lemma_listed_entries_push(self.conversations@.take(i + 1), wsv);
            }
            if included {
                entries.push((row.id, row.data.messages.len(), row.data.started_at));
            }
            i += 1;
        }
        proof {
            assert(self.conversations@.take(n as int) =~= self.conversations@);
        }
        // Order newest first, unstarted last, stably.
        let mut sorted: Vec<(i64, usize, Option<i64>)> = Vec::new();
        let mut rest = entries;
        let ghost input = rest@;
        let ghost mut done = 0int;
        proof {
            assert(input.take(0) =~= Seq::<(i64, usize, Option<i64>)>::empty());
        }
        while rest.len() > 0
            invariant
                0 <= done <= input.len(),
                rest@ =~= input.skip(done),
                sorted@ == stable_sort_by(leq, input.take(done)),
                leq == start_desc_leq(),
            decreases rest@.len(),
        {
            let x = rest.remove(0);
            proof {
                assert(input.skip(done)[0] == x);
                assert(input.skip(done).drop_first() =~= input.skip(done + 1));
                assert(input[done] == x);
            }
            let ghost sorted_view = sorted@;
            let mut j: usize = sorted.len();
            while j > 0 && !start_leq(sorted[j - 1].2, x.2)
                invariant
                    0 <= j <= sorted@.len(),
                    sorted_view == sorted@,
                    forall|k: int|
                        j <= k < sorted_view.len() ==> !leq(#[trigger] sorted_view[k], x),
                    leq == start_desc_leq(),
                decreases j,
            {
                j -= 1;
            }
            proof {
                crate::sort::lemma_insert_at(leq, sorted_view, x, j as int);
            }
            sorted.insert(j, x);
            proof {
                done = done + 1;
                assert(input.take(done).drop_last() =~= input.take(done - 1));
                assert(input.take(done).last() == input[done - 1]);
                assert(sorted@ =~= sorted_view.take(j as int) + seq![input[done - 1]]
                    + sorted_view.skip(j as int));
            }
        }
        proof {
            assert(input.take(done) =~= input);
        }
        // Page.
        let total = sorted.len();
        let start = if offset < total {
            offset
        } else {
            total
        };
        let end = if limit < total - start {
            start + limit
        } else {
            total
        };
        let mut out: Vec<(i64, usize)> = Vec::new();
        let mut k: usize = start;
        while k < end
            invariant
                start <= k <= end <= total,
                total == sorted@.len(),
                out@ =~= page(sorted@, start as int, (k - start) as int).map_values(
                    |e: (i64, usize, Option<i64>)| (e.0, e.1),
                ),
            decreases end - k,
        {
            out.push((sorted[k].0, sorted[k].1));
            proof {
                assert(out@ =~= page(sorted@, start as int, (k + 1 - start) as int).map_values(
                    |e: (i64, usize, Option<i64>)| (e.0, e.1),
                ));
            }
            k += 1;
        }
        proof {
            assert(page(sorted@, start as int, (end - start) as int) =~= page(
                sorted@,
                offset as int,
                limit as int,
            ));
        }
        out
    }
}

/// One step of `surviving`: the head decides, the tail follows.
proof fn lemma_surviving_step(rows: Seq<StoredConversation>, c: ConversationV)
    requires
        rows.len() > 0,
    ensures
        surviving(rows, c, 0) == (if claims(c, rows[0].data@) {
            Seq::empty()
        } else {
            seq![rows[0]]
        }) + surviving(rows.drop_first(), c, 0),
{
    lemma_surviving_from(rows, c, 1);
}

/// The shifted runs agree at every offset.
proof fn lemma_surviving_from(rows: Seq<StoredConversation>, c: ConversationV, i: int)
    requires
        1 <= i <= rows.len(),
    ensures
        surviving(rows, c, i) == surviving(rows.drop_first(), c, i - 1),
    decreases rows.len() - i,
{
    if i < rows.len() {
        lemma_surviving_from(rows, c, i + 1);
        assert(rows.drop_first()[i - 1] == rows[i]);
    }
}

/// An empty prefix claims nothing.
proof fn lemma_claimed_ids_take(rows: Seq<StoredConversation>, c: ConversationV, i: int)
    ensures
        claimed_ids(rows.take(0), c, 0) =~= Seq::<i64>::empty(),
{
}

/// Appending a row appends its identifier exactly when it is claimed.
proof fn lemma_claimed_ids_push(rows: Seq<StoredConversation>, c: ConversationV)
    requires
        rows.len() > 0,
    ensures
        claimed_ids(rows, c, 0) =~= claimed_ids(rows.drop_last(), c, 0) + (
        if claims(c, rows.last().data@) {
            seq![rows.last().id]
        } else {
            Seq::empty()
        }),
{
    lemma_claimed_ids_push_at(rows, c, 0);
}

proof fn lemma_claimed_ids_push_at(rows: Seq<StoredConversation>, c: ConversationV, i: int)
    requires
        0 <= i <= rows.len(),
        rows.len() > 0,
    ensures
        claimed_ids(rows, c, i) =~= claimed_ids(rows.drop_last(), c, i) + (
        if i < rows.len() && claims(c, rows.last().data@) {
            seq![rows.last().id]
        } else {
            Seq::empty()
        }),
    decreases rows.len() - i,
{
    if i < rows.len() - 1 {
        lemma_claimed_ids_push_at(rows, c, i + 1);
        assert(rows.drop_last()[i] == rows[i]);
    } else if i == rows.len() - 1 {
        assert(claimed_ids(rows.drop_last(), c, i).len() == 0);
        assert(rows[i] == rows.last());
        assert(claimed_ids(rows, c, i + 1).len() == 0);
    } else {
        assert(claimed_ids(rows.drop_last(), c, i).len() == 0);
    }
}

/// One step of `first_claimed_id`.
proof fn lemma_first_claimed_step(rows: Seq<StoredConversation>, c: ConversationV)
    requires
        rows.len() > 0,
    ensures
        first_claimed_id(rows, c, 0) == (if claims(c, rows[0].data@) {
            Some(rows[0].id)
        } else {
            first_claimed_id(rows.drop_first(), c, 0)
        }),
{
    lemma_first_claimed_from(rows, c, 1);
}

/// The shifted runs agree at every offset.
proof fn lemma_first_claimed_from(rows: Seq<StoredConversation>, c: ConversationV, i: int)
    requires
        1 <= i <= rows.len(),
    ensures
        first_claimed_id(rows, c, i) == first_claimed_id(rows.drop_first(), c, i - 1),
    decreases rows.len() - i,
{
    if i < rows.len() {
        lemma_first_claimed_from(rows, c, i + 1);
        assert(rows.drop_first()[i - 1] == rows[i]);
    }
}

/// A scan that saw no matching path before `i` pins the lookup.
proof fn lemma_workspace_id_scan(ws: Seq<Workspace>, path: Seq<char>, i: int)
    requires
        0 <= i <= ws.len(),
        forall|k: int| 0 <= k < i ==> (#[trigger] ws[k]).path@ != path,
    ensures
        i < ws.len() && ws[i].path@ == path ==> workspace_id_of(ws, path) == Some(ws[i].id),
        i == ws.len() ==> workspace_id_of(ws, path) is None,
    decreases i,
{
    if i > 0 {
        assert(forall|k: int|
            0 <= k < i - 1 ==> (#[trigger] ws.drop_first()[k]).path@ == ws[k + 1].path@);
        lemma_workspace_id_scan(ws.drop_first(), path, i - 1);
        if i < ws.len() {
            assert(ws.drop_first()[i - 1] == ws[i]);
        }
    }
}

/// In a store with unique workspace paths and identifiers, the
/// identifier found for a path leads back to that path.
proof fn lemma_workspace_id_to_path(ws: Seq<Workspace>, path: Seq<char>, id: i64)
    requires
        workspace_id_of(ws, path) == Some(id),
        forall|a: int, b: int|
            0 <= a < b < ws.len() ==> (#[trigger] ws[a]).id != (#[trigger] ws[b]).id,
    ensures
        workspace_path_of(ws, id) == Some(path),
    decreases ws.len(),
{
    if ws.len() > 0 {
        if ws[0].path@ == path {
        } else {
            assert(forall|a: int, b: int|
                0 <= a < b < ws.drop_first().len() ==> (#[trigger] ws.drop_first()[a]).id != (
                #[trigger] ws.drop_first()[b]).id);
            lemma_workspace_id_to_path(ws.drop_first(), path, id);
            assert(ws[0].id != id) by {
                lemma_workspace_id_member(ws.drop_first(), path, id);
            }
        }
    }
}

/// A found workspace identifier belongs to some row.
proof fn lemma_workspace_id_member(ws: Seq<Workspace>, path: Seq<char>, id: i64)
    requires
        workspace_id_of(ws, path) == Some(id),
    ensures
        exists|k: int| 0 <= k < ws.len() && (#[trigger] ws[k]).id == id,
    decreases ws.len(),
{
    if ws.len() > 0 {
        if ws[0].path@ == path {
            assert(ws[0].id == id);
        } else {
            lemma_workspace_id_member(ws.drop_first(), path, id);
            let k = choose|k: int|
                0 <= k < ws.drop_first().len() && (#[trigger] ws.drop_first()[k]).id == id;
            assert(ws[k + 1].id == id);
        }
    }
}

/// The listing key order: newest start first, unstarted last; ties
/// keep the store order.
pub open spec fn start_desc_leq() -> spec_fn(
    (i64, usize, Option<i64>),
    (i64, usize, Option<i64>),
) -> bool {
    |a: (i64, usize, Option<i64>), b: (i64, usize, Option<i64>)| start_leq_spec(a.2, b.2)
}

/// Whether start time `a` sorts no later than `b`: larger times
/// first, absent times last.
pub open spec fn start_leq_spec(a: Option<i64>, b: Option<i64>) -> bool {
    match (a, b) {
        (Some(x), Some(y)) => x >= y,
        (Some(_), None) => true,
        (None, Some(_)) => false,
        (None, None) => true,
    }
}

/// Whether start time `a` sorts no later than `b`.
fn start_leq(a: Option<i64>, b: Option<i64>) -> (r: bool)
    ensures
        r == start_leq_spec(a, b),
{
    match (a, b) {
        (Some(x), Some(y)) => x >= y,
        (Some(_), None) => true,
        (None, Some(_)) => false,
        (None, None) => true,
    }
}

/// A stable sort under the listing order.
pub open spec fn stable_sort_by_start(s: Seq<(i64, usize, Option<i64>)>) -> Seq<
    (i64, usize, Option<i64>),
> {
    stable_sort_by(start_desc_leq(), s)
}

/// The listing entries: identifier, message count and start time of
/// every row under the workspace filter, in store order.
pub open spec fn listed_entries(
    rows: Seq<StoredConversation>,
    workspace: Option<Seq<char>>,
    i: int,
) -> Seq<(i64, usize, Option<i64>)>
    decreases rows.len() - i,
{
    if i < 0 || i >= rows.len() {
        Seq::empty()
    } else {
        let rest = listed_entries(rows, workspace, i + 1);
        let included = match workspace {
            Some(w) => match rows[i].data@.workspace {
                Some(rw) => w.is_prefix_of(rw),
                None => false,
            },
            None => true,
        };
        if included {
            seq![
                (rows[i].id, rows[i].data.messages@.len() as usize, rows[i].data.started_at)] + rest
        } else {
            rest
        }
    }
}

/// Appending a row extends the listing by exactly its entry.
proof fn lemma_listed_entries_push(rows: Seq<StoredConversation>, workspace: Option<Seq<char>>)
    requires
        rows.len() > 0,
    ensures
        listed_entries(rows, workspace, 0) =~= listed_entries(rows.drop_last(), workspace, 0)
            + listing_entry(rows.last(), workspace),
{
    lemma_listed_push_at(rows, workspace, 0);
}

/// The entry a row contributes to the listing, if any.
pub open spec fn listing_entry(
    row: StoredConversation,
    workspace: Option<Seq<char>>,
) -> Seq<(i64, usize, Option<i64>)> {
    let included = match workspace {
        Some(w) => match row.data@.workspace {
            Some(rw) => w.is_prefix_of(rw),
            None => false,
        },
        None => true,
    };
    if included {
        seq![(row.id, row.data.messages@.len() as usize, row.data.started_at)]
    } else {
        Seq::empty()
    }
}

/// One step of the listing.
proof fn lemma_listed_unfold(rows: Seq<StoredConversation>, workspace: Option<Seq<char>>, i: int)
    requires
        0 <= i < rows.len(),
    ensures
        listed_entries(rows, workspace, i) =~= listing_entry(rows[i], workspace) + listed_entries(
            rows,
            workspace,
            i + 1,
        ),
{
    let inc = match workspace {
        Some(w) => match rows[i].data@.workspace {
            Some(rw) => w.is_prefix_of(rw),
            None => false,
        },
        None => true,
    };
    if inc {
        assert(listing_entry(rows[i], workspace) =~= seq![
            (rows[i].id, rows[i].data.messages@.len() as usize, rows[i].data.started_at)]);
    } else {
        assert(listing_entry(rows[i], workspace) =~= Seq::<(i64, usize, Option<i64>)>::empty());
    }
}

/// The push lemma generalized over the start position.
proof fn lemma_listed_push_at(rows: Seq<StoredConversation>, workspace: Option<Seq<char>>, i: int)
    requires
        0 <= i <= rows.len(),
        rows.len() > 0,
    ensures
        listed_entries(rows, workspace, i) =~= listed_entries(rows.drop_last(), workspace, i) + (
        if i < rows.len() {
            listing_entry(rows.last(), workspace)
        } else {
            Seq::empty()
        }),
    decreases rows.len() - i,
{
    if i < rows.len() - 1 {
        lemma_listed_push_at(rows, workspace, i + 1);
        assert(rows.drop_last()[i] == rows[i]);
        lemma_listed_unfold(rows, workspace, i);
        lemma_listed_unfold(rows.drop_last(), workspace, i);
        assert(listing_entry(rows.drop_last()[i], workspace) == listing_entry(
            rows[i],
            workspace,
        ));
    } else if i == rows.len() - 1 {
        assert(listed_entries(rows.drop_last(), workspace, i).len() == 0);
        assert(rows[i] == rows.last());
        lemma_listed_unfold(rows, workspace, i);
        assert(listed_entries(rows, workspace, i + 1).len() == 0);
    } else {
        assert(listed_entries(rows.drop_last(), workspace, i).len() == 0);
    }
}

/// The `count` entries of `s` from position `from`, clamped to its
/// end.
pub open spec fn page<T>(s: Seq<T>, from: int, count: int) -> Seq<T> {
    let lo = if from < s.len() {
        from
    } else {
        s.len() as int
    };
    let hi = if lo + count < s.len() {
        lo + count
    } else {
        s.len() as int
    };
    s.subrange(lo, hi)
}

/// The watermark recorded for `agent` among `rows`: the first row with
/// that agent.
pub open spec fn watermark_of(rows: Seq<(String, i64)>, agent: Seq<char>) -> Option<i64>
    decreases rows.len(),
{
    if rows.len() == 0 {
        None
    } else if rows[0].0@ == agent {
        Some(rows[0].1)
    } else {
        watermark_of(rows.drop_first(), agent)
    }
}

/// A scan that saw no matching agent before `i` leaves the lookup to
/// the rest.
proof fn lemma_watermark_scan(rows: Seq<(String, i64)>, agent: Seq<char>, i: int)
    requires
        0 <= i <= rows.len(),
        forall|k: int| 0 <= k < i ==> (#[trigger] rows[k]).0@ != agent,
    ensures
        i < rows.len() && rows[i].0@ == agent ==> watermark_of(rows, agent) == Some(rows[i].1),
        i == rows.len() ==> watermark_of(rows, agent) is None,
    decreases i,
{
    if i > 0 {
        assert(rows.drop_first().len() == rows.len() - 1);
        assert(forall|k: int|
            0 <= k < i - 1 ==> (#[trigger] rows.drop_first()[k]).0@ == rows[k + 1].0@);
        lemma_watermark_scan(rows.drop_first(), agent, i - 1);
        if i < rows.len() {
            assert(rows.drop_first()[i - 1] == rows[i]);
        }
    }
}

/// Updating one row changes no other agent's lookup.
proof fn lemma_watermark_update_other(
    before: Seq<(String, i64)>,
    after: Seq<(String, i64)>,
    a: Seq<char>,
    i: int,
)
    requires
        0 <= i < before.len(),
        after.len() == before.len(),
        forall|k: int| 0 <= k < before.len() && k != i ==> after[k] == before[k],
        after[i].0@ == before[i].0@,
        a != after[i].0@,
    ensures
        watermark_of(after, a) == watermark_of(before, a),
    decreases before.len(),
{
    if before.len() > 0 {
        if i == 0 {
            assert(after.drop_first() =~= before.drop_first());
        } else {
            assert(after[0] == before[0]);
            if before[0].0@ != a {
                assert(forall|k: int|
                    0 <= k < before.drop_first().len() && k != i - 1
                        ==> #[trigger] after.drop_first()[k] == before.drop_first()[k]);
                assert(after.drop_first()[i - 1] == after[i]);
                assert(before.drop_first()[i - 1] == before[i]);
                lemma_watermark_update_other(
                    before.drop_first(),
                    after.drop_first(),
                    a,
                    i - 1,
                );
            }
        }
    }
}

/// Pushing a new agent's row serves that agent and no other.
proof fn lemma_watermark_scan_push(
    before: Seq<(String, i64)>,
    after: Seq<(String, i64)>,
    agent: Seq<char>,
    ts: i64,
)
    requires
        after.len() == before.len() + 1,
        forall|k: int| 0 <= k < before.len() ==> after[k] == before[k],
        after.last().0@ == agent,
        after.last().1 == ts,
        forall|k: int| 0 <= k < before.len() ==> (#[trigger] before[k]).0@ != agent,
    ensures
        watermark_of(after, agent) == Some(ts),
        forall|a: Seq<char>|
            a != agent ==> #[trigger] watermark_of(after, a) == watermark_of(before, a),
    decreases before.len(),
{
    if before.len() == 0 {
        assert(after[0] == after.last());
        assert forall|a: Seq<char>| a != agent implies #[trigger] watermark_of(after, a)
            == watermark_of(before, a) by {
            assert(after.drop_first().len() == 0);
            assert(after[0].0@ != a);
            assert(watermark_of(after, a) == watermark_of(after.drop_first(), a));
            assert(watermark_of(after.drop_first(), a) is None);
            assert(watermark_of(before, a) is None);
        }
    } else {
        assert(after[0] == before[0]);
        assert(forall|k: int|
            0 <= k < before.drop_first().len() ==> #[trigger] after.drop_first()[k]
                == before.drop_first()[k]);
        assert(after.drop_first().last() == after.last());
        assert(after.drop_first().len() == before.drop_first().len() + 1);
        lemma_watermark_scan_push(before.drop_first(), after.drop_first(), agent, ts);
        assert forall|a: Seq<char>| a != agent implies #[trigger] watermark_of(after, a)
            == watermark_of(before, a) by {
            if after[0].0@ == a {
                assert(watermark_of(after, a) == Some(after[0].1));
                assert(watermark_of(before, a) == Some(before[0].1));
            } else {
                assert(watermark_of(after, a) == watermark_of(after.drop_first(), a));
                assert(watermark_of(before, a) == watermark_of(before.drop_first(), a));
                assert(watermark_of(after.drop_first(), a) == watermark_of(
                    before.drop_first(),
                    a,
                ));
            }
        }
    }
}

} // verus!
