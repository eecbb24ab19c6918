//! The laws the dual store obeys, stated and proved once over the
//! specifications of its operations.

use vstd::prelude::*;
use crate::index::{
    doc_matches, filter_ok, matching_hits, score_desc_leq, search_results, DocV, TermV,
    MAX_QUERY_CHARS,
};
use crate::store::page;
use crate::model::{wf_messages, ConversationV};
use crate::sort::{lemma_stable_sort_multiset, stable_sort_by};
use crate::store::{claims, first_claimed_id, surviving, Store, StoredConversation};

verus! {

/// No stored row survives its own upsert key: every survivor is
/// unclaimed.
pub proof fn lemma_surviving_unclaimed(rows: Seq<StoredConversation>, c: ConversationV, i: int)
    ensures
        forall|k: int|
            0 <= k < surviving(rows, c, i).len() ==> !claims(
                c,
                (#[trigger] surviving(rows, c, i)[k]).data@,
            ),
    decreases rows.len() - i,
{
    if 0 <= i < rows.len() {
        lemma_surviving_unclaimed(rows, c, i + 1);
    }
}

/// When every earlier row is unclaimed and the last row is claimed,
/// the first claimed row is the last.
pub proof fn lemma_first_claimed_at_last(rows: Seq<StoredConversation>, c: ConversationV, i: int)
    requires
        0 <= i <= rows.len(),
        rows.len() > 0,
        forall|k: int| 0 <= k < rows.len() - 1 ==> !claims(c, (#[trigger] rows[k]).data@),
        claims(c, rows.last().data@),
    ensures
        i < rows.len() ==> first_claimed_id(rows, c, i) == Some(rows.last().id),
        i == rows.len() ==> first_claimed_id(rows, c, i) is None,
    decreases rows.len() - i,
{
    if i < rows.len() {
        lemma_first_claimed_at_last(rows, c, i + 1);
    }
}

/// Upserting the same conversation twice changes nothing the second
/// time: the surviving rows, the new row's identity and its whole
/// record come out the same, so the derived index documents do too.
pub proof fn lemma_upsert_idempotent(
    rows0: Seq<StoredConversation>,
    rows1: Seq<StoredConversation>,
    rows2: Seq<StoredConversation>,
    c: ConversationV,
    id1: i64,
    id2: i64,
)
    requires
        rows1.len() >= 1,
        rows1 == surviving(rows0, c, 0) + seq![rows1.last()],
        rows1.last().id == id1,
        rows1.last().data@ == c,
        rows2.len() >= 1,
        rows2 == surviving(rows1, c, 0) + seq![rows2.last()],
        rows2.last().id == id2,
        rows2.last().data@ == c,
        id2 == (match first_claimed_id(rows1, c, 0) {
            Some(oid) => oid,
            None => id2,
        }),
    ensures
        id2 == id1,
        rows2.len() == rows1.len(),
        forall|k: int|
            0 <= k < rows2.len() ==> (#[trigger] rows2[k]).id == rows1[k].id && rows2[k].data@
                == rows1[k].data@,
{
    let survivors = surviving(rows0, c, 0);
    assert(claims(c, c));
    lemma_surviving_unclaimed(rows0, c, 0);
    assert(forall|k: int|
        0 <= k < rows1.len() - 1 ==> !claims(c, (#[trigger] rows1[k]).data@)) by {
        assert(forall|k: int| 0 <= k < survivors.len() ==> rows1[k] == survivors[k]);
    }
    lemma_first_claimed_at_last(rows1, c, 0);
    assert(first_claimed_id(rows1, c, 0) == Some(id1));
    lemma_surviving_all_unclaimed_but_last(rows1, c);
    assert(surviving(rows1, c, 0) =~= survivors);
    assert(forall|k: int|
        0 <= k < rows2.len() - 1 ==> (#[trigger] rows2[k]) == survivors[k]);
}

/// A run over rows whose last alone is claimed keeps exactly the rest.
pub proof fn lemma_surviving_all_unclaimed_but_last(rows: Seq<StoredConversation>, c: ConversationV)
    requires
        rows.len() > 0,
        forall|k: int| 0 <= k < rows.len() - 1 ==> !claims(c, (#[trigger] rows[k]).data@),
        claims(c, rows.last().data@),
    ensures
        surviving(rows, c, 0) =~= rows.drop_last(),
{
    lemma_surviving_prefix(rows, c, 0);
}

proof fn lemma_surviving_prefix(rows: Seq<StoredConversation>, c: ConversationV, i: int)
    requires
        0 <= i <= rows.len(),
        rows.len() > 0,
        forall|k: int| 0 <= k < rows.len() - 1 ==> !claims(c, (#[trigger] rows[k]).data@),
        claims(c, rows.last().data@),
    ensures
        surviving(rows, c, i) =~= rows.drop_last().skip(
            if i <= rows.len() - 1 {
                i
            } else {
                rows.len() - 1
            },
        ),
    decreases rows.len() - i,
{
    if i < rows.len() {
        lemma_surviving_prefix(rows, c, i + 1);
        if i < rows.len() - 1 {
            assert(rows.drop_last().skip(i)[0] == rows[i]);
            assert(rows.drop_last().skip(i).drop_first() =~= rows.drop_last().skip(i + 1));
        } else {
            assert(rows.drop_last().skip(rows.len() - 1).len() == 0);
        }
    } else {
        assert(rows.drop_last().skip(rows.len() - 1).len() == 0);
    }
}

/// Message indices in a well-formed store are dense: in every stored
/// conversation they run from zero without gaps.
pub proof fn lemma_store_indices_dense(s: Store, i: int)
    requires
        s.wf(),
        0 <= i < s.conversations@.len(),
    ensures
        s.conversations@[i].data@.messages.len() > 0,
        forall|k: int|
            0 <= k < s.conversations@[i].data@.messages.len() ==> (
            #[trigger] s.conversations@[i].data@.messages[k]).idx == k,
{
    assert(wf_messages(s.conversations@[i].data@.messages));
}

/// When every earlier row is unclaimed and the last row is claimed,
/// it is the only claimed row.
pub proof fn lemma_claimed_only_last(rows: Seq<StoredConversation>, c: ConversationV)
    requires
        rows.len() > 0,
        forall|k: int| 0 <= k < rows.len() - 1 ==> !claims(c, (#[trigger] rows[k]).data@),
        claims(c, rows.last().data@),
    ensures
        crate::store::claimed_ids(rows, c, 0) =~= seq![rows.last().id],
{
    lemma_claimed_only_last_at(rows, c, 0);
}

proof fn lemma_claimed_only_last_at(rows: Seq<StoredConversation>, c: ConversationV, i: int)
    requires
        0 <= i <= rows.len(),
        rows.len() > 0,
        forall|k: int| 0 <= k < rows.len() - 1 ==> !claims(c, (#[trigger] rows[k]).data@),
        claims(c, rows.last().data@),
    ensures
        crate::store::claimed_ids(rows, c, i) =~= if i < rows.len() {
            seq![rows.last().id]
        } else {
            Seq::<i64>::empty()
        },
    decreases rows.len() - i,
{
    if i < rows.len() {
        lemma_claimed_only_last_at(rows, c, i + 1);
    }
}

/// Ingesting the same conversation a second time leaves the index
/// documents exactly as they were: the only claimed row is the kept
/// one, its old documents go and come back identical, and every other
/// document stays. With the store's idempotence this closes the
/// round: repeating an ingest changes neither half of the dual store.
pub proof fn lemma_ingest_idempotent_docs(
    base: Seq<DocV>,
    docs1: Seq<DocV>,
    docs2: Seq<DocV>,
    id: i64,
    c: ConversationV,
)
    requires
        docs1 == crate::index::keep_docs(base, id, 0) + crate::index::docs_for(id, c, 0),
        docs2 == crate::index::keep_docs(
            crate::indexer::drop_conversations(docs1, seq![id], 0),
            id,
            0,
        ) + crate::index::docs_for(id, c, 0),
    ensures
        docs2 == docs1,
{
    let ids = seq![id];
    assert(crate::indexer::drop_conversations(docs1, ids, 0) == crate::index::keep_docs(
        docs1,
        id,
        0,
    )) by {
        assert(ids[0] == id);
        assert(crate::indexer::drop_conversations(
            crate::index::keep_docs(docs1, id, 0),
            ids,
            1,
        ) == crate::index::keep_docs(docs1, id, 0));
    }
    crate::index::lemma_keep_docs_concat(
        crate::index::keep_docs(base, id, 0),
        crate::index::docs_for(id, c, 0),
        id,
    );
    crate::index::lemma_keep_docs_idempotent(base, id);
    crate::index::lemma_docs_for_own_ids(id, c, 0);
    crate::index::lemma_keep_docs_of_own(crate::index::docs_for(id, c, 0), id);
    assert(crate::index::keep_docs(
        crate::index::keep_docs(docs1, id, 0),
        id,
        0,
    ) =~= crate::index::keep_docs(base, id, 0)) by {
        crate::index::lemma_keep_docs_free(docs1, id);
        crate::index::lemma_keep_docs_of_free(crate::index::keep_docs(docs1, id, 0), id);
        assert(crate::index::keep_docs(docs1, id, 0) =~= crate::index::keep_docs(
            crate::index::keep_docs(base, id, 0),
            id,
            0,
        ) + crate::index::keep_docs(crate::index::docs_for(id, c, 0), id, 0));
    }
    assert(docs2 =~= docs1);
}

/// Whether some document among `docs` matches every one of `terms`.
pub open spec fn some_doc_matches(docs: Seq<DocV>, terms: Seq<TermV>) -> bool {
    exists|k: int| 0 <= k < docs.len() && doc_matches(#[trigger] docs[k], terms)
}

/// Whatever matched a set of documents still matches any index that
/// kept them all: re-indexing that only adds or rewrites messages with
/// their content intact loses no searchable term.
pub proof fn lemma_kept_docs_still_match(docs1: Seq<DocV>, docs2: Seq<DocV>, terms: Seq<TermV>)
    requires
        forall|k: int|
            0 <= k < docs1.len() ==> exists|j: int|
                0 <= j < docs2.len() && #[trigger] docs2[j] == #[trigger] docs1[k],
        some_doc_matches(docs1, terms),
    ensures
        some_doc_matches(docs2, terms),
{
    let k = choose|k: int| 0 <= k < docs1.len() && doc_matches(#[trigger] docs1[k], terms);
    let j = choose|j: int| 0 <= j < docs2.len() && #[trigger] docs2[j] == docs1[k];
    assert(doc_matches(docs2[j], terms));
}

/// A matching document always surfaces: with open filters, the first
/// page large enough, and a readable query, the answer is never empty
/// while some document passes the filters and matches every term.
pub proof fn lemma_search_finds(
    docs: Seq<DocV>,
    q: Seq<char>,
    f: crate::index::FiltersV,
    limit: int,
    k: int,
)
    requires
        q.len() <= MAX_QUERY_CHARS,
        crate::index::terms_of(q).len() <= MAX_QUERY_CHARS,
        0 <= k < docs.len(),
        filter_ok(docs[k], f),
        doc_matches(docs[k], crate::index::terms_of(q)),
        limit >= docs.len(),
    ensures
        search_results(docs, q, f, limit, 0).len() >= 1,
{
    broadcast use vstd::seq_lib::group_to_multiset_ensures;

    let terms = crate::index::terms_of(q);
    lemma_matching_hits_nonempty(docs, terms, f, 0, k);
    let hits = matching_hits(docs, terms, f, 0);
    lemma_stable_sort_multiset(score_desc_leq(), hits);
    assert(stable_sort_by(score_desc_leq(), hits).to_multiset().len() == hits.to_multiset().len());
    assert(stable_sort_by(score_desc_leq(), hits).len() == hits.len());
    lemma_matching_hits_bound(docs, terms, f, 0);
    assert(search_results(docs, q, f, limit, 0) =~= page(
        stable_sort_by(score_desc_leq(), hits),
        0,
        limit,
    ));
}

/// A matching document puts at least one hit in the match list.
proof fn lemma_matching_hits_nonempty(
    docs: Seq<DocV>,
    terms: Seq<TermV>,
    f: crate::index::FiltersV,
    i: int,
    k: int,
)
    requires
        0 <= i <= k < docs.len(),
        filter_ok(docs[k], f),
        doc_matches(docs[k], terms),
    ensures
        matching_hits(docs, terms, f, i).len() >= 1,
    decreases k - i,
{
    if i < k {
        lemma_matching_hits_nonempty(docs, terms, f, i + 1, k);
    }
}

/// There are never more hits than documents.
proof fn lemma_matching_hits_bound(
    docs: Seq<DocV>,
    terms: Seq<TermV>,
    f: crate::index::FiltersV,
    i: int,
)
    requires
        0 <= i <= docs.len(),
    ensures
        matching_hits(docs, terms, f, i).len() <= docs.len() - i,
    decreases docs.len() - i,
{
    if i < docs.len() {
        lemma_matching_hits_bound(docs, terms, f, i + 1);
    }
}

/// Two indexes over the same documents answer every query alike; a
/// full rebuild from one relational state is one such pair, as
/// rebuilding pins the documents down as a function of the rows.
pub proof fn lemma_search_deterministic(
    docs1: Seq<DocV>,
    docs2: Seq<DocV>,
    q: Seq<char>,
    f: crate::index::FiltersV,
    limit: int,
    offset: int,
)
    requires
        docs1 == docs2,
    ensures
        search_results(docs1, q, f, limit, offset) == search_results(docs2, q, f, limit, offset),
{
}

} // verus!
