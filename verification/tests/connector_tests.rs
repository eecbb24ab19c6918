//! Connector behaviour on concrete source values.

use coding_agent_search::connectors::chatgpt::ChatGptConnector;
use coding_agent_search::connectors::codebuff;
use coding_agent_search::connectors::codebuff::CodebuffConnector;
use coding_agent_search::connectors::gemini::GeminiConnector;
use coding_agent_search::connectors::opencode::OpenCodeConnector;
use coding_agent_search::json::{JsonMember, JsonValue};

fn s(x: &str) -> JsonValue {
    JsonValue::Str(x.to_string())
}

fn n(x: &str) -> JsonValue {
    JsonValue::Num(x.to_string())
}

fn obj(pairs: Vec<(&str, JsonValue)>) -> JsonValue {
    JsonValue::Obj(
        pairs
            .into_iter()
            .map(|(k, v)| JsonMember { key: k.to_string(), value: v })
            .collect(),
    )
}

fn arr(items: Vec<JsonValue>) -> JsonValue {
    JsonValue::Arr(items)
}

// An OpenCode message record as the application writes it.
fn oc_message(
    session_id: &str,
    message_id: &str,
    role: &str,
    created: i64,
    model_id: Option<&str>,
    summary_body: Option<&str>,
) -> JsonValue {
    let mut pairs = vec![
        ("id", s(message_id)),
        ("sessionID", s(session_id)),
        ("role", s(role)),
        ("time", obj(vec![("created", n(&created.to_string()))])),
    ];
    if let Some(model) = model_id {
        pairs.push(("modelID", s(model)));
    }
    if let Some(body) = summary_body {
        pairs.push(("summary", obj(vec![("title", s("Summary")), ("body", s(body))])));
    }
    obj(pairs)
}

fn oc_text_part(session_id: &str, message_id: &str, part_id: &str, text: &str) -> JsonValue {
    obj(vec![
        ("id", s(part_id)),
        ("sessionID", s(session_id)),
        ("messageID", s(message_id)),
        ("type", s("text")),
        ("text", s(text)),
    ])
}

fn oc_tool_part(
    session_id: &str,
    message_id: &str,
    part_id: &str,
    tool_name: &str,
    title: Option<&str>,
    output: Option<&str>,
) -> JsonValue {
    let mut state = vec![("status", s("completed")), ("input", obj(vec![]))];
    if let Some(t) = title {
        state.push(("title", s(t)));
    }
    if let Some(o) = output {
        state.push(("output", s(o)));
    }
    obj(vec![
        ("id", s(part_id)),
        ("sessionID", s(session_id)),
        ("messageID", s(message_id)),
        ("type", s("tool")),
        ("tool", s(tool_name)),
        ("callID", s("toolu_test")),
        ("state", obj(state)),
    ])
}

fn oc_session(
    project_id: &str,
    session_id: &str,
    title: Option<&str>,
    directory: Option<&str>,
    created: i64,
    updated: Option<i64>,
) -> JsonValue {
    let mut time = vec![("created", n(&created.to_string()))];
    if let Some(u) = updated {
        time.push(("updated", n(&u.to_string())));
    }
    let mut pairs = vec![
        ("id", s(session_id)),
        ("version", s("1.0.138")),
        ("projectID", s(project_id)),
        ("time", obj(time)),
        (
            "summary",
            obj(vec![("additions", n("0")), ("deletions", n("0")), ("files", n("0"))]),
        ),
    ];
    if let Some(t) = title {
        pairs.push(("title", s(t)));
    }
    if let Some(d) = directory {
        pairs.push(("directory", s(d)));
    }
    obj(pairs)
}

#[test]
fn test_extract_path_info() {
    let path =
        "/Users/test/.config/manicode/projects/myproject/chats/2025-12-19T09-07-21.203Z/chat-messages.json";
    let (project, session) = codebuff::extract_path_info(path);
    assert_eq!(project, Some("myproject".to_string()));
    assert_eq!(session, Some("2025-12-19T09-07-21.203Z".to_string()));
}

#[test]
fn test_parse_codebuff_timestamp_from_id() {
    let msg = obj(vec![("id", s("ai-1766137957398-bf2216fd8cd09")), ("variant", s("ai"))]);
    let ts = codebuff::parse_codebuff_timestamp(&msg);
    assert_eq!(ts, Some(1766137957398));
}

#[test]
fn test_extract_content_with_tool_blocks() {
    let msg = obj(vec![
        ("variant", s("ai")),
        ("content", s("")),
        (
            "blocks",
            arr(vec![
                obj(vec![
                    ("type", s("tool")),
                    ("toolName", s("run_terminal_command")),
                    ("input", obj(vec![("command", s("git status"))])),
                    ("output", s("On branch main\nnothing to commit")),
                ]),
                obj(vec![
                    ("type", s("text")),
                    ("content", s("The git status shows everything is clean.")),
                ]),
            ]),
        ),
    ]);
    let content = codebuff::assemble_content(&msg);
    assert!(content.contains("git status"));
    assert!(content.contains("On branch main"));
    assert!(content.contains("everything is clean"));
}

#[test]
fn codebuff_parses_whole_chat_file() {
    let val = arr(vec![
        obj(vec![
            ("id", s("human-1766137957000-aa")),
            ("variant", s("human")),
            ("content", s("please check the build")),
        ]),
        obj(vec![
            ("id", s("ai-1766137957398-bf")),
            ("variant", s("ai")),
            ("content", s("the build is green")),
        ]),
    ]);
    let path = "/h/.config/manicode/projects/myproject/chats/stamp-1/chat-messages.json";
    let conv = CodebuffConnector::parse_chat(&val, path).expect("conversation");
    assert_eq!(conv.agent_slug, "codebuff");
    assert_eq!(conv.external_id, Some("stamp-1".to_string()));
    assert_eq!(conv.title, Some("myproject".to_string()));
    assert_eq!(conv.messages.len(), 2);
    assert_eq!(conv.messages[0].role, "user");
    assert_eq!(conv.messages[1].role, "assistant");
    assert_eq!(conv.messages[0].idx, 0);
    assert_eq!(conv.messages[1].idx, 1);
    assert_eq!(conv.messages[1].created_at, Some(1766137957398));
}

#[test]
fn opencode_parses_created_storage() {
    let session = oc_session("proj1", "ses1", Some("My Session"), Some("/tmp"), 1000, Some(2000));
    let messages = vec![
        (oc_message("ses1", "msg1", "user", 1000, None, None), vec![oc_text_part(
            "ses1", "msg1", "prt1", "hello",
        )]),
        (oc_message("ses1", "msg2", "assistant", 2000, Some("model-3"), None), vec![
            oc_text_part("ses1", "msg2", "prt2", "hi there"),
        ]),
    ];
    let conv = OpenCodeConnector::normalize_session(&session, "/store/ses1.json", messages, None)
        .expect("conversation");
    assert_eq!(conv.title, Some("My Session".to_string()));
    assert_eq!(conv.workspace, Some("/tmp".to_string()));
    assert_eq!(conv.messages.len(), 2);
    assert_eq!(conv.messages[0].content, "hello");
    assert_eq!(conv.messages[1].content, "hi there");
    assert_eq!(conv.messages[1].author, Some("model-3".to_string()));
}

#[test]
fn opencode_handles_session_without_messages() {
    let session = oc_session("proj1", "ses1", Some("Empty Session"), None, 1000, None);
    let conv = OpenCodeConnector::normalize_session(&session, "/store/ses1.json", vec![], None);
    assert!(conv.is_none());
}

#[test]
fn opencode_handles_message_without_parts() {
    let session = oc_session("proj1", "ses1", Some("Test"), None, 1000, None);
    let messages = vec![
        (oc_message("ses1", "msg1", "user", 1000, None, Some("User message body")), vec![]),
    ];
    let conv = OpenCodeConnector::normalize_session(&session, "/store/ses1.json", messages, None)
        .expect("conversation");
    assert!(conv.messages[0].content.contains("User message body"));
}

#[test]
fn opencode_sets_correct_agent_slug() {
    let session = oc_session("proj1", "ses1", Some("Test"), None, 1000, None);
    let messages = vec![(oc_message("ses1", "msg1", "user", 1000, None, Some("test")), vec![])];
    let conv = OpenCodeConnector::normalize_session(&session, "/store/ses1.json", messages, None)
        .expect("conversation");
    assert_eq!(conv.agent_slug, "opencode");
}

#[test]
fn opencode_sets_external_id_to_session_id() {
    let session = oc_session("proj1", "ses_abc123", Some("Test"), None, 1000, None);
    let messages = vec![
        (oc_message("ses_abc123", "msg1", "user", 1000, None, Some("test")), vec![]),
    ];
    let conv = OpenCodeConnector::normalize_session(&session, "/store/x.json", messages, None)
        .expect("conversation");
    assert_eq!(conv.external_id, Some("ses_abc123".to_string()));
}

#[test]
fn opencode_computes_started_ended_at() {
    let session = oc_session("proj1", "ses1", Some("Test"), None, 500, Some(3500));
    let messages = vec![
        (oc_message("ses1", "msg1", "user", 1000, None, Some("first")), vec![]),
        (oc_message("ses1", "msg2", "assistant", 2000, None, None), vec![oc_text_part(
            "ses1", "msg2", "prt1", "response",
        )]),
        (oc_message("ses1", "msg3", "user", 3000, None, Some("third")), vec![]),
    ];
    let conv = OpenCodeConnector::normalize_session(&session, "/store/ses1.json", messages, None)
        .expect("conversation");
    assert_eq!(conv.started_at, Some(500));
    assert_eq!(conv.ended_at, Some(3500));
}

#[test]
fn opencode_assigns_sequential_indices() {
    let session = oc_session("proj1", "ses1", Some("Test"), None, 1000, None);
    let messages = vec![
        (oc_message("ses1", "msg1", "user", 1000, None, Some("m0")), vec![]),
        (oc_message("ses1", "msg2", "assistant", 2000, None, None), vec![oc_text_part(
            "ses1", "msg2", "prt1", "m1",
        )]),
        (oc_message("ses1", "msg3", "user", 3000, None, Some("m2")), vec![]),
    ];
    let conv = OpenCodeConnector::normalize_session(&session, "/store/ses1.json", messages, None)
        .expect("conversation");
    for (i, msg) in conv.messages.iter().enumerate() {
        assert_eq!(msg.idx, i as i64);
    }
}

#[test]
fn opencode_orders_messages_by_timestamp() {
    let session = oc_session("proj1", "ses1", Some("Test"), None, 1000, None);
    let messages = vec![
        (oc_message("ses1", "msg3", "user", 3000, None, Some("third")), vec![]),
        (oc_message("ses1", "msg1", "user", 1000, None, Some("first")), vec![]),
        (oc_message("ses1", "msg2", "assistant", 2000, None, None), vec![oc_text_part(
            "ses1", "msg2", "prt1", "second",
        )]),
    ];
    let conv = OpenCodeConnector::normalize_session(&session, "/store/ses1.json", messages, None)
        .expect("conversation");
    assert!(conv.messages[0].content.contains("first"));
    assert!(conv.messages[1].content.contains("second"));
    assert!(conv.messages[2].content.contains("third"));
}

#[test]
fn opencode_since_ts_logic() {
    let session = oc_session("proj1", "ses1", Some("Test"), None, 1000, None);
    let messages = vec![
        (oc_message("ses1", "msg1", "user", 1000, None, Some("old")), vec![]),
        (oc_message("ses1", "msg2", "user", 3000, None, Some("new")), vec![]),
    ];
    let conv = OpenCodeConnector::normalize_session(
        &session,
        "/store/ses1.json",
        messages,
        Some(2000),
    )
    .expect("conversation");
    assert_eq!(conv.messages.len(), 1);
    assert!(conv.messages[0].content.contains("new"));
}

#[test]
fn opencode_multiple_sessions() {
    let session1 = oc_session("proj1", "ses1", Some("Session 1"), None, 1000, None);
    let messages1 = vec![
        (oc_message("ses1", "msg1", "user", 1000, None, Some("s1m1")), vec![]),
        (oc_message("ses1", "msg2", "assistant", 1500, None, None), vec![oc_text_part(
            "ses1", "msg2", "prt1", "s1m2",
        )]),
    ];
    let session2 = oc_session("proj1", "ses2", Some("Session 2"), None, 2000, None);
    let messages2 = vec![(oc_message("ses2", "msg3", "user", 2000, None, Some("s2m1")), vec![])];
    let c1 = OpenCodeConnector::normalize_session(&session1, "/store/ses1.json", messages1, None)
        .expect("first");
    let c2 = OpenCodeConnector::normalize_session(&session2, "/store/ses2.json", messages2, None)
        .expect("second");
    assert_eq!(c1.title, Some("Session 1".to_string()));
    assert_eq!(c2.title, Some("Session 2".to_string()));
    assert_eq!(c1.messages.len(), 2);
    assert_eq!(c2.messages.len(), 1);
}

#[test]
fn opencode_title_fallback_to_first_message_summary() {
    let session = obj(vec![
        ("id", s("ses1")),
        ("projectID", s("proj1")),
        ("time", obj(vec![("created", n("1000"))])),
    ]);
    let message = obj(vec![
        ("id", s("msg1")),
        ("sessionID", s("ses1")),
        ("role", s("user")),
        ("time", obj(vec![("created", n("1000"))])),
        ("summary", obj(vec![("title", s("Fallback Title")), ("body", s("message body"))])),
    ]);
    let conv = OpenCodeConnector::normalize_session(
        &session,
        "/store/ses1.json",
        vec![(message, vec![])],
        None,
    )
    .expect("conversation");
    assert_eq!(conv.title, Some("Fallback Title".to_string()));
}

#[test]
fn opencode_assembles_tool_parts() {
    let session = oc_session("proj1", "ses1", Some("Test"), None, 1000, None);
    let messages = vec![
        (oc_message("ses1", "msg1", "assistant", 1000, None, None), vec![oc_tool_part(
            "ses1",
            "msg1",
            "prt1",
            "bash",
            Some("Run command"),
            Some("output"),
        )]),
    ];
    let conv = OpenCodeConnector::normalize_session(&session, "/store/ses1.json", messages, None)
        .expect("conversation");
    assert!(conv.messages[0].content.contains("[Tool: bash"));
    assert!(conv.messages[0].content.contains("Run command"));
    assert!(conv.messages[0].content.contains("output"));
}

#[test]
fn opencode_assembles_multiple_parts() {
    let session = oc_session("proj1", "ses1", Some("Test"), None, 1000, None);
    let messages = vec![
        (oc_message("ses1", "msg1", "assistant", 1000, None, None), vec![
            oc_text_part("ses1", "msg1", "prt1", "First part."),
            oc_text_part("ses1", "msg1", "prt2", "Second part."),
        ]),
    ];
    let conv = OpenCodeConnector::normalize_session(&session, "/store/ses1.json", messages, None)
        .expect("conversation");
    assert!(conv.messages[0].content.contains("First part."));
    assert!(conv.messages[0].content.contains("Second part."));
}

#[test]
fn opencode_metadata_contains_session_info() {
    let session = oc_session("proj1", "ses1", Some("Test"), None, 1000, None);
    let messages = vec![(oc_message("ses1", "msg1", "user", 1000, None, Some("test")), vec![])];
    let conv = OpenCodeConnector::normalize_session(&session, "/store/ses1.json", messages, None)
        .expect("conversation");
    let sid = conv.metadata.get("session_id").expect("session_id");
    assert_eq!(sid.as_str(), Some("ses1"));
    let pid = conv.metadata.get("project_id").expect("project_id");
    assert_eq!(pid.as_str(), Some("proj1"));
}

#[test]
fn opencode_message_extra_contains_metadata() {
    let message = obj(vec![
        ("id", s("msg1")),
        ("sessionID", s("ses1")),
        ("role", s("assistant")),
        ("time", obj(vec![("created", n("1000"))])),
        ("modelID", s("model-3")),
        ("providerID", s("acme")),
        ("mode", s("build")),
        ("cost", n("0.05")),
        (
            "tokens",
            obj(vec![("input", n("100")), ("output", n("50")), ("reasoning", n("0"))]),
        ),
        ("finish", s("end_turn")),
    ]);
    let session = oc_session("proj1", "ses1", Some("Test"), None, 1000, None);
    let conv = OpenCodeConnector::normalize_session(
        &session,
        "/store/ses1.json",
        vec![(message, vec![oc_text_part("ses1", "msg1", "prt1", "response")])],
        None,
    )
    .expect("conversation");
    let extra = &conv.messages[0].extra;
    assert_eq!(extra.get("provider").and_then(|v| v.as_str()), Some("acme"));
    assert_eq!(extra.get("mode").and_then(|v| v.as_str()), Some("build"));
    assert_eq!(extra.get("finish").and_then(|v| v.as_str()), Some("end_turn"));
    assert!(extra.get("cost").is_some());
    assert!(extra.get("tokens").is_some());
    assert_eq!(conv.messages[0].author, Some("model-3".to_string()));
}

#[test]
fn gemini_parses_session_file() {
    let val = obj(vec![
        ("sessionId", s("session-42")),
        ("projectHash", s("abc123")),
        ("startTime", s("2024-01-01T00:00:00Z")),
        (
            "messages",
            arr(vec![
                obj(vec![
                    ("type", s("user")),
                    ("timestamp", n("1700000001")),
                    ("content", s("explain async")),
                ]),
                obj(vec![
                    ("type", s("model")),
                    ("timestamp", n("1700000002")),
                    ("content", obj(vec![("parts", arr(vec![s("futures"), s("executors")]))])),
                ]),
            ]),
        ),
    ]);
    let conv = GeminiConnector::parse_session(&val, "/g/hash9/chats/session-42.json")
        .expect("conversation");
    assert_eq!(conv.agent_slug, "gemini");
    assert_eq!(conv.external_id, Some("session-42".to_string()));
    assert_eq!(conv.workspace, Some("/g/hash9".to_string()));
    assert_eq!(conv.messages.len(), 2);
    assert_eq!(conv.messages[0].role, "user");
    assert_eq!(conv.messages[1].role, "assistant");
    assert_eq!(conv.messages[1].content, "futures\nexecutors");
    assert_eq!(conv.messages[0].created_at, Some(1_700_000_001_000));
    // The session start time decides started_at.
    assert_eq!(conv.started_at, Some(1_704_067_200_000));
    assert_eq!(conv.title, Some("explain async".to_string()));
}

#[test]
fn gemini_skips_blank_and_requires_messages() {
    let no_messages = obj(vec![("sessionId", s("x"))]);
    assert!(GeminiConnector::parse_session(&no_messages, "/g/h/chats/session-x.json").is_none());
    let all_blank = obj(vec![(
        "messages",
        arr(vec![obj(vec![("type", s("user")), ("content", s("  \n"))])]),
    )]);
    assert!(GeminiConnector::parse_session(&all_blank, "/g/h/chats/session-x.json").is_none());
}

#[test]
fn chatgpt_parses_mapping_ordered_by_create_time() {
    let val = obj(vec![
        ("id", s("conv-1")),
        ("title", s("rate limiting chat")),
        (
            "mapping",
            obj(vec![
                (
                    "node-b",
                    obj(vec![(
                        "message",
                        obj(vec![
                            ("author", obj(vec![("role", s("user"))])),
                            ("create_time", n("1714584006.5")),
                            ("content", obj(vec![("parts", arr(vec![s("rate limiting")]))])),
                        ]),
                    )]),
                ),
                (
                    "node-a",
                    obj(vec![(
                        "message",
                        obj(vec![
                            ("author", obj(vec![("role", s("user"))])),
                            ("create_time", n("1714584005.25")),
                            ("content", obj(vec![("parts", arr(vec![s("hello")]))])),
                        ]),
                    )]),
                ),
                (
                    "node-c",
                    obj(vec![(
                        "message",
                        obj(vec![
                            ("author", obj(vec![("role", s("system"))])),
                            ("create_time", n("1714584000")),
                            ("content", obj(vec![("parts", arr(vec![s("you are an agent")]))])),
                        ]),
                    )]),
                ),
            ]),
        ),
    ]);
    let conv = ChatGptConnector::parse_conversation(&val, None, "/c/conversations-1/conv-1.json")
        .expect("conversation");
    assert_eq!(conv.agent_slug, "chatgpt");
    assert_eq!(conv.external_id, Some("conv-1".to_string()));
    assert_eq!(conv.title, Some("rate limiting chat".to_string()));
    // The system turn is dropped; the rest are ordered by create_time.
    assert_eq!(conv.messages.len(), 2);
    assert_eq!(conv.messages[0].content, "hello");
    assert_eq!(conv.messages[1].content, "rate limiting");
    assert_eq!(conv.messages[0].created_at, Some(1_714_584_005_250));
    assert_eq!(conv.messages[1].created_at, Some(1_714_584_006_500));
    assert_eq!(conv.started_at, Some(1_714_584_005_250));
    assert_eq!(conv.ended_at, Some(1_714_584_006_500));
}

#[test]
fn chatgpt_falls_back_to_messages_array() {
    let val = obj(vec![
        ("conversation_id", s("conv-2")),
        (
            "messages",
            arr(vec![
                obj(vec![("role", s("user")), ("content", s("hello")), ("timestamp", n("1700000000"))]),
                obj(vec![("role", s("assistant")), ("content", s("hi"))]),
                obj(vec![("role", s("system")), ("content", s("dropped"))]),
            ]),
        ),
    ]);
    let conv = ChatGptConnector::parse_conversation(&val, None, "/c/conversations-1/conv-2.json")
        .expect("conversation");
    assert_eq!(conv.external_id, Some("conv-2".to_string()));
    assert_eq!(conv.messages.len(), 2);
    // The fallback branch is ordered by creation time too: the undated
    // entry keys at zero and comes first.
    assert_eq!(conv.messages[0].created_at, None);
    assert_eq!(conv.messages[1].created_at, Some(1_700_000_000_000));
    assert_eq!(conv.messages[0].content, "hi");
    assert_eq!(conv.messages[1].content, "hello");
    assert_eq!(conv.messages[0].idx, 0);
    assert_eq!(conv.messages[1].idx, 1);
    assert_eq!(conv.started_at, Some(1_700_000_000_000));
    assert_eq!(conv.ended_at, Some(1_700_000_000_000));
}

#[test]
fn chatgpt_since_filter_drops_older_messages() {
    let val = obj(vec![(
        "messages",
        arr(vec![
            obj(vec![("role", s("user")), ("content", s("old")), ("timestamp", n("1000"))]),
            obj(vec![("role", s("user")), ("content", s("new")), ("timestamp", n("2000"))]),
        ]),
    )]);
    let conv = ChatGptConnector::parse_conversation(
        &val,
        Some(1_000_000),
        "/c/conversations-1/x.json",
    )
    .expect("conversation");
    assert_eq!(conv.messages.len(), 1);
    assert_eq!(conv.messages[0].content, "new");
    let all_old = ChatGptConnector::parse_conversation(
        &val,
        Some(2_000_000),
        "/c/conversations-1/x.json",
    );
    assert!(all_old.is_none());
}

#[test]
fn codebuff_infers_workspace_from_file_context() {
    let val = arr(vec![obj(vec![
        ("variant", s("human")),
        ("content", s("hi")),
        (
            "metadata",
            obj(vec![(
                "runState",
                obj(vec![(
                    "sessionState",
                    obj(vec![("fileContext", obj(vec![("projectRoot", s("/work/repo"))]))]),
                )]),
            )]),
        ),
    ])]);
    let conv = CodebuffConnector::parse_chat(&val, "/h/projects/p/chats/s/chat-messages.json")
        .expect("conversation");
    assert_eq!(conv.workspace, Some("/work/repo".to_string()));
}

#[test]
fn codebuff_truncates_long_tool_output() {
    let long_output = "x".repeat(1500);
    let val = arr(vec![obj(vec![
        ("variant", s("ai")),
        (
            "blocks",
            arr(vec![obj(vec![
                ("type", s("tool")),
                ("toolName", s("bash")),
                ("input", obj(vec![("command", s("make"))])),
                ("output", s(&long_output)),
            ])]),
        ),
    ])]);
    let conv = CodebuffConnector::parse_chat(&val, "/h/projects/p/chats/s/chat-messages.json")
        .expect("conversation");
    let content = &conv.messages[0].content;
    assert!(content.contains("[Tool: bash] make"));
    assert!(content.contains("... [truncated]"));
    // One thousand bytes of output, the marker, and the tool line.
    assert!(content.len() < 1100);
}

#[test]
fn chatgpt_text_parsing_decodes_json() {
    let text = "{\"id\": \"conv-9\", \"messages\": [{\"role\": \"user\", \"content\": \"from text\"}]}";
    let conv = ChatGptConnector::parse_conversation_text(text, None, "/c/conversations-1/t.json")
        .expect("conversation");
    assert_eq!(conv.external_id, Some("conv-9".to_string()));
    assert_eq!(conv.messages[0].content, "from text");
    assert!(ChatGptConnector::parse_conversation_text("{ broken", None, "/c/x.json").is_none());
}
