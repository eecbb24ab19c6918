//! The indexing step.
//!
//! The loop around it — enumerating files, reading them, sleeping in
//! watch mode — lives outside; what is decided per conversation and per
//! agent run lives here. A conversation goes into the relational store
//! first and into the full-text index second, in one call, so the index
//! never shows a message set the store does not hold. The watermark of
//! an agent moves only when its whole scan went through without
//! errors, and never backwards.

use vstd::prelude::*;
use crate::index::{docs_for, keep_docs, Doc, DocV, SearchIndex};
use crate::model::{wf_conversation, NormalizedConversation};
use crate::store::{claimed_ids, watermark_of, Store, StoredConversation};

verus! {

/// The documents left after every conversation named in `ids`, from
/// position `i` on, has been dropped, in that order.
pub open spec fn drop_conversations(docs: Seq<DocV>, ids: Seq<i64>, i: int) -> Seq<DocV>
    decreases ids.len() - i,
{
    if i < 0 || i >= ids.len() {
        docs
    } else {
        drop_conversations(keep_docs(docs, ids[i], 0), ids, i + 1)
    }
}

/// Puts `c` into both halves of the dual store: the relational row
/// first, then its index documents, so readers of the index only see
/// stored conversations. Every row the upsert replaces loses its
/// documents, the claimed rows' and the kept identity's alike, so the
/// index never holds documents of a conversation the store dropped.
/// `None` only when the identifier space is spent, in which case
/// nothing changes.
pub fn ingest_conversation(
    store: &mut Store,
    index: &mut SearchIndex,
    c: NormalizedConversation,
) -> (r: Option<i64>)
    requires
        old(store).wf(),
        wf_conversation(c@),
    ensures
        final(store).wf(),
        final(store).watermarks@ == old(store).watermarks@,
        match r {
            Some(id) => {
                &&& final(store).conversations@.len() >= 1
                &&& final(store).conversations@ =~= crate::store::surviving(
                    old(store).conversations@,
                    c@,
                    0,
                ) + seq![final(store).conversations@.last()]
                &&& final(store).conversations@.last().id == id
                &&& final(store).conversations@.last().data@ == c@
                &&& final(index).docs@.map_values(|d: Doc| d@) == keep_docs(
                    drop_conversations(
                        old(index).docs@.map_values(|d: Doc| d@),
                        claimed_ids(old(store).conversations@, c@, 0),
                        0,
                    ),
                    id,
                    0,
                ) + docs_for(id, c@, 0)
            },
            None => *final(store) == *old(store) && *final(index) == *old(index),
        },
{
    let removed = store.claimed_row_ids(&c);
    let ghost removedv = removed@;
    let ghost docs0 = index.docs@.map_values(|d: Doc| d@);
    match store.upsert_conversation(c) {
        Some(id) => {
            let m = removed.len();
            let mut k: usize = 0;
            proof {
                lemma_drop_conversations_take(docs0, removedv);
            }
            while k < m
                invariant
                    m == removedv.len(),
                    removed@ == removedv,
                    0 <= k <= m,
                    index.docs@.map_values(|d: Doc| d@) == drop_conversations(
                        docs0,
                        removedv.take(k as int),
                        0,
                    ),
                decreases m - k,
            {
                index.remove_conversation(removed[k]);
                proof {
                    lemma_drop_conversations_push(docs0, removedv, k as int);
                }
                k += 1;
            }
            proof {
                assert(removedv.take(m as int) =~= removedv);
            }
            let pos = store.conversations.len() - 1;
            index.add_conversation(&store.conversations[pos]);
            Some(id)
        },
        None => None,
    }
}

/// Dropping an empty list of conversations drops nothing.
proof fn lemma_drop_conversations_take(docs: Seq<DocV>, ids: Seq<i64>)
    ensures
        drop_conversations(docs, ids.take(0), 0) == docs,
{
    assert(ids.take(0).len() == 0);
}

/// Dropping one more conversation applies one more `keep_docs`.
proof fn lemma_drop_conversations_push(docs: Seq<DocV>, ids: Seq<i64>, k: int)
    requires
        0 <= k < ids.len(),
    ensures
        drop_conversations(docs, ids.take(k + 1), 0) == keep_docs(
            drop_conversations(docs, ids.take(k), 0),
            ids[k],
            0,
        ),
{
    lemma_drop_conversations_push_at(docs, ids, k, 0);
}

proof fn lemma_drop_conversations_push_at(docs: Seq<DocV>, ids: Seq<i64>, k: int, i: int)
    requires
        0 <= i <= k < ids.len(),
    ensures
        drop_conversations(docs, ids.take(k + 1), i) == keep_docs(
            drop_conversations(docs, ids.take(k), i),
            ids[k],
            0,
        ),
    decreases k - i,
{
    if i < k {
        assert(ids.take(k + 1)[i] == ids[i]);
        assert(ids.take(k)[i] == ids[i]);
        lemma_drop_conversations_push_at(keep_docs(docs, ids[i], 0), ids, k, i + 1);
    } else {
        assert(ids.take(k + 1)[i] == ids[k]);
        assert(drop_conversations(docs, ids.take(k), i) == docs);
        assert(drop_conversations(keep_docs(docs, ids[k], 0), ids.take(k + 1), i + 1)
            == keep_docs(docs, ids[k], 0));
    }
}

/// The ingest order: not-greater file modification times.
pub open spec fn mtime_leq_f() -> spec_fn(
    (crate::model::ConversationV, i64),
    (crate::model::ConversationV, i64),
) -> bool {
    |a: (crate::model::ConversationV, i64), b: (crate::model::ConversationV, i64)| a.1 <= b.1
}

/// The conversations of one scan in ingest order: oldest file first,
/// enumeration order between equal times. Ingesting in this order
/// makes the newest file win every key through the upsert, which
/// replaces whatever an earlier conversation claimed.
pub fn order_by_mtime(convs: Vec<(NormalizedConversation, i64)>) -> (r: Vec<
    NormalizedConversation,
>)
    ensures
        r@.map_values(|c: NormalizedConversation| c@) == crate::sort::stable_sort_by(
            mtime_leq_f(),
            convs@.map_values(|p: (NormalizedConversation, i64)| (p.0@, p.1)),
        ).map_values(|p: (crate::model::ConversationV, i64)| p.0),
{
    let ghost leq = mtime_leq_f();
    let ghost input = convs@.map_values(|p: (NormalizedConversation, i64)| (p.0@, p.1));
    let mut sorted: Vec<(NormalizedConversation, i64)> = Vec::new();
    let mut rest = convs;
    let ghost mut done = 0int;
    proof {
        assert(input.take(0) =~= Seq::<(crate::model::ConversationV, i64)>::empty());
    }
    while rest.len() > 0
        invariant
            0 <= done <= input.len(),
            rest@.map_values(|p: (NormalizedConversation, i64)| (p.0@, p.1)) =~= input.skip(done),
            sorted@.map_values(|p: (NormalizedConversation, i64)| (p.0@, p.1))
                == crate::sort::stable_sort_by(leq, input.take(done)),
            leq == mtime_leq_f(),
        decreases rest@.len(),
    {
        let x = rest.remove(0);
        proof {
            assert(input.skip(done)[0] == (x.0@, x.1));
            assert(input.skip(done).drop_first() =~= input.skip(done + 1));
            assert(input[done] == (x.0@, x.1));
        }
        let ghost xv = (x.0@, x.1);
        let ghost sorted_view = sorted@.map_values(
            |p: (NormalizedConversation, i64)| (p.0@, p.1),
        );
        let mut j: usize = sorted.len();
        while j > 0 && sorted[j - 1].1 > x.1
            invariant
                0 <= j <= sorted@.len(),
                sorted_view == sorted@.map_values(|p: (NormalizedConversation, i64)| (p.0@, p.1)),
                xv == (x.0@, x.1),
                forall|k: int| j <= k < sorted_view.len() ==> !leq(#[trigger] sorted_view[k], xv),
                leq == mtime_leq_f(),
            decreases j,
        {
            j -= 1;
        }
        proof {
            crate::sort::lemma_insert_at(leq, sorted_view, xv, j as int);
        }
        sorted.insert(j, x);
        proof {
            done = done + 1;
            assert(input.take(done).drop_last() =~= input.take(done - 1));
            assert(input.take(done).last() == input[done - 1]);
            assert(sorted@.map_values(|p: (NormalizedConversation, i64)| (p.0@, p.1))
                =~= sorted_view.take(j as int) + seq![input[done - 1]] + sorted_view.skip(
                j as int,
            ));
        }
    }
    proof {
        assert(input.take(done) =~= input);
    }
    let ghost ranked = crate::sort::stable_sort_by(leq, input);
    let mut out: Vec<NormalizedConversation> = Vec::new();
    let mut remaining = sorted;
    proof {
        assert(ranked.map_values(|p: (crate::model::ConversationV, i64)| p.0).take(0) =~= Seq::<
            crate::model::ConversationV,
        >::empty());
    }
    while remaining.len() > 0
        invariant
            out@.len() + remaining@.len() == ranked.len(),
            remaining@.map_values(|p: (NormalizedConversation, i64)| (p.0@, p.1)) =~= ranked.skip(
                out@.len() as int,
            ),
            out@.map_values(|c: NormalizedConversation| c@) =~= ranked.map_values(
                |p: (crate::model::ConversationV, i64)| p.0,
            ).take(out@.len() as int),
        decreases remaining@.len(),
    {
        let ghost k = out@.len() as int;
        let x = remaining.remove(0);
        proof {
            assert(ranked.skip(k)[0] == (x.0@, x.1));
            assert(ranked.skip(k).drop_first() =~= ranked.skip(k + 1));
            assert(ranked[k] == (x.0@, x.1));
        }
        out.push(x.0);
        proof {
            assert(out@.map_values(|c: NormalizedConversation| c@) =~= ranked.map_values(
                |p: (crate::model::ConversationV, i64)| p.0,
            ).take(k + 1));
        }
    }
    proof {
        assert(ranked.map_values(|p: (crate::model::ConversationV, i64)| p.0).take(
            ranked.len() as int,
        ) =~= ranked.map_values(|p: (crate::model::ConversationV, i64)| p.0));
    }
    out
}

/// Moves the watermark of `agent` after a scan: only when the scan saw
/// no errors and observed a newest file time, and only forward, to the
/// larger of the old mark and that time.
pub fn advance_watermark(
    store: &mut Store,
    agent: &str,
    observed_max: Option<i64>,
    had_errors: bool,
)
    requires
        old(store).wf(),
    ensures
        final(store).wf(),
        final(store).conversations@ == old(store).conversations@,
        had_errors || observed_max is None ==> final(store).watermarks@ == old(store).watermarks@,
        !had_errors ==> (match observed_max {
            Some(m) => watermark_of(final(store).watermarks@, agent@) == Some(
                match watermark_of(old(store).watermarks@, agent@) {
                    Some(prev) => if prev > m {
                        prev
                    } else {
                        m
                    },
                    None => m,
                },
            ),
            None => true,
        }),
        forall|a: Seq<char>|
            a != agent@ ==> #[trigger] watermark_of(final(store).watermarks@, a) == watermark_of(
                old(store).watermarks@,
                a,
            ),
{
    if had_errors {
        return ;
    }
    let m = match observed_max {
        Some(m) => m,
        None => {
            return ;
        },
    };
    let new_mark = match store.get_watermark(agent) {
        Some(prev) => if prev > m {
            prev
        } else {
            m
        },
        None => m,
    };
    store.set_watermark(agent, new_mark);
}

/// The index documents a full rebuild derives from the stored rows.
pub open spec fn rebuilt_docs(rows: Seq<StoredConversation>, i: int) -> Seq<crate::index::DocV>
    decreases rows.len() - i,
{
    if i < 0 || i >= rows.len() {
        Seq::empty()
    } else {
        docs_for(rows[i].id, rows[i].data@, 0) + rebuilt_docs(rows, i + 1)
    }
}

/// Rebuilds the index from the store alone: afterwards it holds
/// exactly the documents the stored rows derive, so any two rebuilds
/// from equal relational state leave equal indexes.
#[verifier::loop_isolation(false)]
pub fn rebuild_index(store: &Store, index: &mut SearchIndex)
    requires
        store.wf(),
    ensures
        final(index).docs@.map_values(|d: Doc| d@) == rebuilt_docs(store.conversations@, 0),
{
    index.clear();
    let ghost rows = store.conversations@;
    let n = store.conversations.len();
    let mut i: usize = 0;
    proof {
        lemma_rebuilt_take(rows, 0);
        assert(index.docs@.map_values(|d: Doc| d@) =~= rebuilt_docs(rows.take(0), 0));
    }
    while i < n
        invariant
            n == rows.len(),
            rows == store.conversations@,
            0 <= i <= n,
            index.docs@.map_values(|d: Doc| d@) == rebuilt_docs(rows.take(i as int), 0),
        decreases n - i,
    {
        let ghost before = index.docs@.map_values(|d: Doc| d@);
        index.add_conversation(&store.conversations[i]);
        proof {
            lemma_rebuilt_fresh_id(rows, i as int, before);
            assert(keep_docs(before, rows[i as int].id, 0) =~= before);
            lemma_rebuilt_push(rows, i as int);
            assert(index.docs@.map_values(|d: Doc| d@) =~= rebuilt_docs(rows.take(i + 1), 0));
        }
        i += 1;
    }
    proof {
        assert(rows.take(n as int) =~= rows);
    }
}

/// An empty prefix rebuilds to no documents.
proof fn lemma_rebuilt_take(rows: Seq<StoredConversation>, i: int)
    ensures
        rebuilt_docs(rows.take(0), 0) =~= Seq::<crate::index::DocV>::empty(),
{
}

/// Rebuilding one more row appends exactly its documents.
proof fn lemma_rebuilt_push(rows: Seq<StoredConversation>, i: int)
    requires
        0 <= i < rows.len(),
    ensures
        rebuilt_docs(rows.take(i + 1), 0) =~= rebuilt_docs(rows.take(i), 0) + docs_for(
            rows[i].id,
            rows[i].data@,
            0,
        ),
{
    lemma_rebuilt_push_at(rows, i, 0);
}

proof fn lemma_rebuilt_push_at(rows: Seq<StoredConversation>, i: int, j: int)
    requires
        0 <= j <= i < rows.len(),
    ensures
        rebuilt_docs(rows.take(i + 1), j) =~= rebuilt_docs(rows.take(i), j) + docs_for(
            rows[i].id,
            rows[i].data@,
            0,
        ),
    decreases i - j,
{
    if j < i {
        lemma_rebuilt_push_at(rows, i, j + 1);
        assert(rows.take(i + 1)[j] == rows[j]);
        assert(rows.take(i)[j] == rows[j]);
    } else {
        assert(rows.take(i + 1)[j] == rows[i]);
        assert(rebuilt_docs(rows.take(i), j).len() == 0);
        assert(rebuilt_docs(rows.take(i + 1), j + 1).len() == 0);
    }
}

/// In a well-formed store, a row's documents carry its own identifier,
/// which no earlier row's documents carry.
proof fn lemma_rebuilt_fresh_id(rows: Seq<StoredConversation>, i: int, built: Seq<
    crate::index::DocV,
>)
    requires
        0 <= i < rows.len(),
        built == rebuilt_docs(rows.take(i), 0),
        forall|a: int, b: int|
            0 <= a < b < rows.len() ==> (#[trigger] rows[a]).id != (#[trigger] rows[b]).id,
    ensures
        keep_docs(built, rows[i].id, 0) =~= built,
{
    lemma_rebuilt_ids(rows, i, 0);
    lemma_keep_docs_all(built, rows[i].id, 0);
}

/// Every document rebuilt from the first `i` rows carries one of their
/// identifiers.
proof fn lemma_rebuilt_ids(rows: Seq<StoredConversation>, i: int, j: int)
    requires
        0 <= j <= i <= rows.len(),
        forall|a: int, b: int|
            0 <= a < b < rows.len() ==> (#[trigger] rows[a]).id != (#[trigger] rows[b]).id,
        i < rows.len() || i == rows.len(),
    ensures
        i < rows.len() ==> forall|k: int|
            0 <= k < rebuilt_docs(rows.take(i), j).len() ==> (#[trigger] rebuilt_docs(
                rows.take(i),
                j,
            )[k]).conversation_id != rows[i].id,
    decreases i - j,
{
    if j < i && i < rows.len() {
        lemma_rebuilt_ids(rows, i, j + 1);
        assert(rows.take(i)[j] == rows[j]);
        lemma_docs_for_ids(rows[j].id, rows[j].data@, 0);
        assert(rows[j].id != rows[i].id);
    }
}

/// Every document of a conversation carries that conversation's
/// identifier.
proof fn lemma_docs_for_ids(id: i64, c: crate::model::ConversationV, i: int)
    ensures
        forall|k: int|
            0 <= k < docs_for(id, c, i).len() ==> (#[trigger] docs_for(id, c, i)[k]).conversation_id
                == id,
    decreases c.messages.len() - i,
{
    if 0 <= i < c.messages.len() {
        lemma_docs_for_ids(id, c, i + 1);
    }
}

/// Keeping the documents of other conversations keeps everything when
/// none carries the dropped identifier.
proof fn lemma_keep_docs_all(docs: Seq<crate::index::DocV>, id: i64, i: int)
    requires
        0 <= i <= docs.len(),
        forall|k: int| 0 <= k < docs.len() ==> (#[trigger] docs[k]).conversation_id != id,
    ensures
        keep_docs(docs, id, i) =~= docs.skip(i),
    decreases docs.len() - i,
{
    if i < docs.len() {
        lemma_keep_docs_all(docs, id, i + 1);
        assert(keep_docs(docs, id, i) =~= seq![docs[i]] + docs.skip(i + 1));
        assert(docs.skip(i)[0] == docs[i]);
        assert(docs.skip(i).drop_first() =~= docs.skip(i + 1));
    } else {
        assert(docs.skip(i).len() == 0);
    }
}

} // verus!
