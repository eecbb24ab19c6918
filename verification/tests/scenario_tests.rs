//! End-to-end scenarios over the dual store.

use coding_agent_search::connectors::chatgpt::{classify_conversation_dir, ChatGptConnector};
use coding_agent_search::connectors::opencode::OpenCodeConnector;
use coding_agent_search::index::{QueryFilters, SearchIndex};
use coding_agent_search::indexer::{
    advance_watermark, ingest_conversation, order_by_mtime, rebuild_index,
};
use coding_agent_search::watch::WatchState;
use coding_agent_search::json::{JsonMember, JsonValue};
use coding_agent_search::model::NormalizedConversation;
use coding_agent_search::store::Store;

fn s(x: &str) -> JsonValue {
    JsonValue::Str(x.to_string())
}

fn n(x: &str) -> JsonValue {
    JsonValue::Num(x.to_string())
}

fn obj(pairs: Vec<(&str, JsonValue)>) -> JsonValue {
    JsonValue::Obj(
        pairs
            .into_iter()
            .map(|(k, v)| JsonMember { key: k.to_string(), value: v })
            .collect(),
    )
}

fn arr(items: Vec<JsonValue>) -> JsonValue {
    JsonValue::Arr(items)
}

fn chatgpt_round_trip_hits() -> (Store, SearchIndex, Vec<coding_agent_search::index::Hit>) {
    let file = obj(vec![
        ("id", s("abc")),
        ("title", s("two turns")),
        (
            "mapping",
            obj(vec![
                (
                    "node-1",
                    obj(vec![(
                        "message",
                        obj(vec![
                            ("author", obj(vec![("role", s("user"))])),
                            ("create_time", n("1714584001")),
                            ("content", obj(vec![("parts", arr(vec![s("hello")]))])),
                        ]),
                    )]),
                ),
                (
                    "node-2",
                    obj(vec![(
                        "message",
                        obj(vec![
                            ("author", obj(vec![("role", s("user"))])),
                            ("create_time", n("1714584002")),
                            ("content", obj(vec![("parts", arr(vec![s("rate limiting")]))])),
                        ]),
                    )]),
                ),
            ]),
        ),
    ]);
    let conv =
        ChatGptConnector::parse_conversation(&file, None, "/root-dir/conversations-1/abc.json")
            .expect("conversation");
    let mut store = Store::new();
    let mut index = SearchIndex::new();
    ingest_conversation(&mut store, &mut index, conv).expect("ingest");
    let hits = index.search("rate", &QueryFilters::none(), 10, 0);
    (store, index, hits)
}

#[test]
fn round_trip_search_finds_second_turn() {
    let (_store, _index, hits) = chatgpt_round_trip_hits();
    assert_eq!(hits.len(), 1);
    assert_eq!(hits[0].idx, 1);
    assert_eq!(hits[0].agent, "chatgpt");
    assert!(hits[0].snippet.contains("rate limiting"));
}

#[test]
fn encrypted_directories_are_recognized_and_skipped() {
    // The enumeration asks the library what a directory name means and
    // skips encrypted stores; the readable result stays as before.
    assert_eq!(classify_conversation_dir("conversations-1"), Some(false));
    assert_eq!(classify_conversation_dir("conversations-v2-xyz"), Some(true));
    assert_eq!(classify_conversation_dir("conversations-v3-xyz"), Some(true));
    assert_eq!(classify_conversation_dir("unrelated"), None);
    let (_store, _index, hits) = chatgpt_round_trip_hits();
    assert_eq!(hits.len(), 1);
    assert!(hits[0].snippet.contains("rate limiting"));
}

fn oc_message(id: &str, created: i64, body: &str) -> (JsonValue, Vec<JsonValue>) {
    (
        obj(vec![
            ("id", s(id)),
            ("sessionID", s("ses1")),
            ("role", s("user")),
            ("time", obj(vec![("created", n(&created.to_string()))])),
            ("summary", obj(vec![("body", s(body))])),
        ]),
        vec![],
    )
}

#[test]
fn incremental_reindex_preserves_searchable_messages() {
    let session = obj(vec![
        ("id", s("ses1")),
        ("projectID", s("proj1")),
        ("title", s("terms")),
        ("time", obj(vec![("created", n("1000"))])),
    ]);
    let first = vec![
        oc_message("m1", 1000, "UNIQUE_ALPHA"),
        oc_message("m2", 2000, "UNIQUE_BETA"),
        oc_message("m3", 3000, "UNIQUE_GAMMA"),
        oc_message("m4", 4000, "UNIQUE_DELTA"),
        oc_message("m5", 5000, "UNIQUE_EPSILON"),
    ];
    let conv = OpenCodeConnector::normalize_session(&session, "/st/ses1.json", first, None)
        .expect("conversation");
    let mut store = Store::new();
    let mut index = SearchIndex::new();
    ingest_conversation(&mut store, &mut index, conv).expect("ingest");
    advance_watermark(&mut store, "opencode", Some(5000), false);
    for term in ["UNIQUE_ALPHA", "UNIQUE_BETA", "UNIQUE_GAMMA", "UNIQUE_DELTA", "UNIQUE_EPSILON"] {
        let hits = index.search(term, &QueryFilters::none(), 10, 0);
        assert!(hits.len() >= 1, "term {term} should match before the re-index");
    }
    // The file grows by two messages and is re-read whole, as a changed
    // file is.
    let second = vec![
        oc_message("m1", 1000, "UNIQUE_ALPHA"),
        oc_message("m2", 2000, "UNIQUE_BETA"),
        oc_message("m3", 3000, "UNIQUE_GAMMA"),
        oc_message("m4", 4000, "UNIQUE_DELTA"),
        oc_message("m5", 5000, "UNIQUE_EPSILON"),
        oc_message("m6", 6000, "UNIQUE_ZETA"),
        oc_message("m7", 7000, "UNIQUE_ETA"),
    ];
    let conv2 = OpenCodeConnector::normalize_session(&session, "/st/ses1.json", second, None)
        .expect("conversation");
    ingest_conversation(&mut store, &mut index, conv2).expect("ingest");
    advance_watermark(&mut store, "opencode", Some(7000), false);
    for term in [
        "UNIQUE_ALPHA",
        "UNIQUE_BETA",
        "UNIQUE_GAMMA",
        "UNIQUE_DELTA",
        "UNIQUE_EPSILON",
        "UNIQUE_ZETA",
        "UNIQUE_ETA",
    ] {
        let hits = index.search(term, &QueryFilters::none(), 10, 0);
        assert!(hits.len() >= 1, "term {term} should still match after the re-index");
    }
    assert_eq!(store.conversations.len(), 1);
    assert_eq!(store.get_watermark("opencode"), Some(7000));
}

fn simple_conversation(
    external_id: Option<&str>,
    source_path: &str,
    workspace: Option<&str>,
    started_at: Option<i64>,
    contents: Vec<&str>,
) -> NormalizedConversation {
    let mut messages = Vec::new();
    for (i, c) in contents.iter().enumerate() {
        messages.push(coding_agent_search::model::NormalizedMessage {
            idx: i as i64,
            role: "user".to_string(),
            author: None,
            created_at: started_at,
            content: c.to_string(),
            extra: JsonValue::Null,
        });
    }
    NormalizedConversation {
        agent_slug: "codebuff".to_string(),
        external_id: external_id.map(|x| x.to_string()),
        title: Some("t".to_string()),
        workspace: workspace.map(|x| x.to_string()),
        source_path: source_path.to_string(),
        started_at,
        ended_at: started_at,
        metadata: JsonValue::Null,
        messages,
    }
}

#[test]
fn dedup_same_external_id_keeps_newest_path() {
    let mut store = Store::new();
    let mut index = SearchIndex::new();
    // The newer file is enumerated first; the ingest order sorts by
    // modification time, so the newest file still wins the key.
    let newer = simple_conversation(
        Some("abc"),
        "/data/two.json",
        None,
        Some(2000),
        vec!["second"],
    );
    let older = simple_conversation(Some("abc"), "/data/one.json", None, Some(1000), vec!["first"]);
    let ordered = order_by_mtime(vec![(newer, 2000), (older, 1000)]);
    assert_eq!(ordered.len(), 2);
    assert_eq!(ordered[0].source_path, "/data/one.json");
    for conv in ordered {
        ingest_conversation(&mut store, &mut index, conv).expect("ingest");
    }
    assert_eq!(store.conversations.len(), 1);
    assert_eq!(store.conversations[0].data.source_path, "/data/two.json");
    assert_eq!(store.conversations[0].data.external_id, Some("abc".to_string()));
}

#[test]
fn dedup_upsert_replaces_in_ingest_order() {
    let mut store = Store::new();
    let mut index = SearchIndex::new();
    let older = simple_conversation(Some("abc"), "/data/one.json", None, Some(1000), vec!["first"]);
    let newer = simple_conversation(
        Some("abc"),
        "/data/two.json",
        None,
        Some(2000),
        vec!["second"],
    );
    ingest_conversation(&mut store, &mut index, older).expect("ingest");
    ingest_conversation(&mut store, &mut index, newer).expect("ingest");
    assert_eq!(store.conversations.len(), 1);
    assert_eq!(store.conversations[0].data.source_path, "/data/two.json");
    assert_eq!(store.conversations[0].data.external_id, Some("abc".to_string()));
}

#[test]
fn workspace_filter_lists_only_its_conversations() {
    let mut store = Store::new();
    let mut index = SearchIndex::new();
    let a = simple_conversation(Some("a1"), "/p/a.json", Some("/a"), Some(2000), vec![
        "alpha one",
        "alpha two",
    ]);
    let b = simple_conversation(Some("b1"), "/p/b.json", Some("/b"), Some(1000), vec!["beta"]);
    let a_id = ingest_conversation(&mut store, &mut index, a).expect("ingest");
    ingest_conversation(&mut store, &mut index, b).expect("ingest");
    let listed = store.list_conversations_for_workspace(Some("/a"), 10, 0);
    assert_eq!(listed.len(), 1);
    assert_eq!(listed[0].0, a_id);
    assert_eq!(listed[0].1, 2);
    let all = store.list_conversations_for_workspace(None, 10, 0);
    assert_eq!(all.len(), 2);
    // Newest start first.
    assert_eq!(all[0].0, a_id);
}

#[test]
fn prefix_query_matches_where_bare_word_does_not() {
    let mut store = Store::new();
    let mut index = SearchIndex::new();
    let conv = simple_conversation(Some("s1"), "/p/s.json", None, Some(1000), vec![
        "authentication implementation",
    ]);
    ingest_conversation(&mut store, &mut index, conv).expect("ingest");
    let wildcard = index.search("auth*", &QueryFilters::none(), 10, 0);
    assert!(wildcard.len() >= 1, "the prefix pattern should match");
    let bare = index.search("auth", &QueryFilters::none(), 10, 0);
    assert_eq!(bare.len(), 0, "the bare word is no whole token and stemming is off");
    let whole = index.search("authentication", &QueryFilters::none(), 10, 0);
    assert_eq!(whole.len(), 1);
}

#[test]
fn rebuilds_from_same_store_answer_alike() {
    let mut store = Store::new();
    let mut scratch = SearchIndex::new();
    let a = simple_conversation(Some("a1"), "/p/a.json", None, Some(1000), vec![
        "authentication with tokens",
    ]);
    let b = simple_conversation(Some("b1"), "/p/b.json", None, Some(2000), vec![
        "tokens for the bucket",
    ]);
    ingest_conversation(&mut store, &mut scratch, a).expect("ingest");
    ingest_conversation(&mut store, &mut scratch, b).expect("ingest");
    let mut index1 = SearchIndex::new();
    let mut index2 = SearchIndex::new();
    rebuild_index(&store, &mut index1);
    rebuild_index(&store, &mut index2);
    let r1 = index1.search("tokens", &QueryFilters::none(), 10, 0);
    let r2 = index2.search("tokens", &QueryFilters::none(), 10, 0);
    assert_eq!(r1.len(), 2);
    assert_eq!(r1.len(), r2.len());
    for (h1, h2) in r1.iter().zip(r2.iter()) {
        assert_eq!(h1.conversation_id, h2.conversation_id);
        assert_eq!(h1.idx, h2.idx);
        assert_eq!(h1.score, h2.score);
        assert_eq!(h1.snippet, h2.snippet);
    }
}

#[test]
fn agent_filter_only_returns_matching_agent() {
    let mut store = Store::new();
    let mut index = SearchIndex::new();
    let mut codex_like =
        simple_conversation(Some("c1"), "/p/c.json", None, Some(1000), vec![
            "FILTER_TEST_SHARED from one agent",
        ]);
    codex_like.agent_slug = "codex".to_string();
    let mut claude_like =
        simple_conversation(Some("c2"), "/p/d.json", None, Some(1000), vec![
            "FILTER_TEST_SHARED from the other agent",
        ]);
    claude_like.agent_slug = "claude_code".to_string();
    ingest_conversation(&mut store, &mut index, codex_like).expect("ingest");
    ingest_conversation(&mut store, &mut index, claude_like).expect("ingest");
    let filters = QueryFilters {
        agents: Some(vec!["codex".to_string()]),
        workspace: None,
        role: None,
        author: None,
        since: None,
        until: None,
    };
    let hits = index.search("FILTER_TEST_SHARED", &filters, 10, 0);
    assert_eq!(hits.len(), 1);
    assert_eq!(hits[0].agent, "codex");
    let open = index.search("FILTER_TEST_SHARED", &QueryFilters::none(), 10, 0);
    assert_eq!(open.len(), 2);
}

#[test]
fn empty_query_matches_everything() {
    let mut store = Store::new();
    let mut index = SearchIndex::new();
    let conv = simple_conversation(Some("s1"), "/p/s.json", None, Some(1000), vec![
        "test", "response",
    ]);
    ingest_conversation(&mut store, &mut index, conv).expect("ingest");
    let hits = index.search("", &QueryFilters::none(), 10, 0);
    assert_eq!(hits.len(), 2);
    let spaced = index.search("   ", &QueryFilters::none(), 10, 0);
    assert_eq!(spaced.len(), 2);
}

#[test]
fn very_long_query_handled_gracefully() {
    let mut store = Store::new();
    let mut index = SearchIndex::new();
    let conv = simple_conversation(Some("s1"), "/p/s.json", None, Some(1000), vec!["test"]);
    ingest_conversation(&mut store, &mut index, conv).expect("ingest");
    let long_query = "word ".repeat(100);
    let hits = index.search(&long_query, &QueryFilters::none(), 10, 0);
    assert_eq!(hits.len(), 0);
}

#[test]
fn phrase_query_requires_adjacent_tokens() {
    let mut store = Store::new();
    let mut index = SearchIndex::new();
    let conv = simple_conversation(Some("s1"), "/p/s.json", None, Some(1000), vec![
        "rate limiting works",
        "limiting the rate",
    ]);
    ingest_conversation(&mut store, &mut index, conv).expect("ingest");
    let hits = index.search("\"rate limiting\"", &QueryFilters::none(), 10, 0);
    assert_eq!(hits.len(), 1);
    assert_eq!(hits[0].idx, 0);
}

#[test]
fn watermark_only_advances_on_clean_scans() {
    let mut store = Store::new();
    assert_eq!(store.get_watermark("codex"), None);
    advance_watermark(&mut store, "codex", Some(5000), false);
    assert_eq!(store.get_watermark("codex"), Some(5000));
    // A failed scan leaves the mark where it was, so the files are
    // retried next run.
    advance_watermark(&mut store, "codex", Some(9000), true);
    assert_eq!(store.get_watermark("codex"), Some(5000));
    // The mark never moves backwards.
    advance_watermark(&mut store, "codex", Some(3000), false);
    assert_eq!(store.get_watermark("codex"), Some(5000));
    advance_watermark(&mut store, "codex", Some(8000), false);
    assert_eq!(store.get_watermark("codex"), Some(8000));
}

#[test]
fn upsert_twice_is_idempotent() {
    let mut store = Store::new();
    let mut index = SearchIndex::new();
    let one = simple_conversation(Some("abc"), "/p/a.json", None, Some(1000), vec!["hello"]);
    let two = simple_conversation(Some("abc"), "/p/a.json", None, Some(1000), vec!["hello"]);
    let id1 = ingest_conversation(&mut store, &mut index, one).expect("ingest");
    let docs_before = index.docs.len();
    let id2 = ingest_conversation(&mut store, &mut index, two).expect("ingest");
    assert_eq!(id1, id2);
    assert_eq!(store.conversations.len(), 1);
    assert_eq!(index.docs.len(), docs_before);
    assert_eq!(store.conversations[0].data.messages[0].content, "hello");
}

#[test]
fn listing_puts_unstarted_conversations_last() {
    let mut store = Store::new();
    let mut index = SearchIndex::new();
    let dated = simple_conversation(Some("d1"), "/p/d.json", None, Some(1000), vec!["dated"]);
    let undated = simple_conversation(Some("u1"), "/p/u.json", None, None, vec!["undated"]);
    let u_id = ingest_conversation(&mut store, &mut index, undated).expect("ingest");
    let d_id = ingest_conversation(&mut store, &mut index, dated).expect("ingest");
    let all = store.list_conversations_for_workspace(None, 10, 0);
    assert_eq!(all.len(), 2);
    assert_eq!(all[0].0, d_id);
    assert_eq!(all[1].0, u_id);
}

#[test]
fn search_pages_by_offset_and_limit() {
    let mut store = Store::new();
    let mut index = SearchIndex::new();
    let conv = simple_conversation(Some("p1"), "/p/p.json", None, Some(1000), vec![
        "shared word one",
        "shared word two",
        "shared word three",
    ]);
    ingest_conversation(&mut store, &mut index, conv).expect("ingest");
    let first = index.search("shared", &QueryFilters::none(), 2, 0);
    assert_eq!(first.len(), 2);
    let second = index.search("shared", &QueryFilters::none(), 2, 2);
    assert_eq!(second.len(), 1);
    let beyond = index.search("shared", &QueryFilters::none(), 2, 5);
    assert_eq!(beyond.len(), 0);
}

#[test]
fn role_filter_narrows_hits() {
    let mut store = Store::new();
    let mut index = SearchIndex::new();
    let mut conv = simple_conversation(Some("r1"), "/p/r.json", None, Some(1000), vec![
        "asked about roles",
        "answered about roles",
    ]);
    conv.messages[1].role = "assistant".to_string();
    ingest_conversation(&mut store, &mut index, conv).expect("ingest");
    let filters = QueryFilters {
        agents: None,
        workspace: None,
        role: Some("assistant".to_string()),
        author: None,
        since: None,
        until: None,
    };
    let hits = index.search("roles", &filters, 10, 0);
    assert_eq!(hits.len(), 1);
    assert_eq!(hits[0].role, "assistant");
}

#[test]
fn double_claimed_rows_leave_no_documents_behind() {
    let mut store = Store::new();
    let mut index = SearchIndex::new();
    // One row is claimed by external id, another by source path.
    let by_id = simple_conversation(Some("abc"), "/data/one.json", None, Some(1000), vec!["one"]);
    let by_path = simple_conversation(None, "/data/two.json", None, Some(1100), vec!["two"]);
    let id_a = ingest_conversation(&mut store, &mut index, by_id).expect("ingest");
    let id_b = ingest_conversation(&mut store, &mut index, by_path).expect("ingest");
    assert_eq!(store.conversations.len(), 2);
    let both = simple_conversation(
        Some("abc"),
        "/data/two.json",
        None,
        Some(1200),
        vec!["merged"],
    );
    let kept = ingest_conversation(&mut store, &mut index, both).expect("ingest");
    assert_eq!(store.conversations.len(), 1);
    assert_eq!(kept, id_a);
    // The store dropped both old rows; the index holds no document of
    // the vanished row either.
    for doc in &index.docs {
        assert_eq!(doc.conversation_id, kept);
    }
    assert_eq!(index.docs.len(), 1);
    let _ = id_b;
}

#[test]
fn watch_debounce_coalesces_and_releases() {
    let mut state = WatchState::new();
    state.record_event("codex", 1000);
    // Before the window closes, nothing is due.
    assert!(state.take_due(1200).is_empty());
    // A burst within the window coalesces: the deadline stands.
    state.record_event("codex", 1400);
    assert!(state.take_due(1499).is_empty());
    // At the deadline the agent is handed out exactly once.
    let due = state.take_due(1500);
    assert_eq!(due, vec!["codex".to_string()]);
    assert!(state.take_due(2000).is_empty());
    // Two agents debounce independently.
    state.record_event("codex", 3000);
    state.record_event("gemini", 3100);
    let first = state.take_due(3550);
    assert_eq!(first, vec!["codex".to_string()]);
    let second = state.take_due(3600);
    assert_eq!(second, vec!["gemini".to_string()]);
}
