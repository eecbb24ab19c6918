//! The Gemini connector.
//!
//! Gemini keeps one JSON file per session, under
//! `<root>/<hash>/chats/session-*.json`, with a `messages` array whose
//! entries carry a `type` (`user` or `model`), a `timestamp`, and a
//! `content` in any of the shapes [`crate::text::flatten_content`]
//! accepts. The surrounding binary finds and reads the files; parsing a
//! session from its decoded JSON is done, and specified, here.

use vstd::prelude::*;
use crate::json::{jv_get, JsonMember, JsonV, JsonValue};
use crate::model::{
    first_created, first_created_exec, last_created, last_created_exec, with_indices,
    wf_conversation, ConversationV, MessageV, NormalizedConversation, NormalizedMessage,
};
use crate::paths::{parent_of, stem_of};
use crate::text::{first_line_of, flatten_of, is_blank};
use crate::time::timestamp64_of;

verus! {

/// The role of one source entry: its `type`, with `model` rewritten to
/// `assistant`, and `assistant` where no usable `type` is given.
pub open spec fn role_of_item(item: JsonV) -> Seq<char> {
    match jv_get(item, "type"@) {
        Some(JsonV::Str(t)) => if t == "model"@ {
            "assistant"@
        } else {
            t
        },
        _ => "assistant"@,
    }
}

/// The creation time of one source entry, from its `timestamp`.
pub open spec fn created_of_item(item: JsonV) -> Option<i64> {
    match jv_get(item, "timestamp"@) {
        Some(ts) => timestamp64_of(ts),
        None => None,
    }
}

/// The assembled text of one source entry, from its `content`.
pub open spec fn content_of_item(item: JsonV) -> Seq<char> {
    match jv_get(item, "content"@) {
        Some(c) => flatten_of(c),
        None => Seq::empty(),
    }
}

/// The messages parsed from `items` at position `i` on, blank entries
/// dropped; indices are assigned afterwards.
pub open spec fn gemini_msgs(items: Seq<JsonV>, i: int) -> Seq<MessageV>
    decreases items.len() - i,
{
    if i < 0 || i >= items.len() {
        Seq::empty()
    } else {
        let rest = gemini_msgs(items, i + 1);
        if is_blank(content_of_item(items[i])) {
            rest
        } else {
            seq![
                MessageV {
                    idx: 0,
                    role: role_of_item(items[i]),
                    author: None,
                    created_at: created_of_item(items[i]),
                    content: content_of_item(items[i]),
                    extra: items[i],
                },
            ] + rest
        }
    }
}

/// The first message whose role is `user`, from position `i` on.
pub open spec fn first_user(msgs: Seq<MessageV>, i: int) -> Option<MessageV>
    decreases msgs.len() - i,
{
    if i < 0 || i >= msgs.len() {
        None
    } else if msgs[i].role == "user"@ {
        Some(msgs[i])
    } else {
        first_user(msgs, i + 1)
    }
}

/// The first line of `s`, cut to one hundred characters.
pub open spec fn clipped_line(s: Seq<char>) -> Seq<char> {
    let line = first_line_of(s);
    line.take(
        if 100 <= line.len() {
            100int
        } else {
            line.len() as int
        },
    )
}

/// The title of a session: the first line of the first user message,
/// else of the first message.
pub open spec fn title_of(msgs: Seq<MessageV>) -> Option<Seq<char>> {
    match first_user(msgs, 0) {
        Some(m) => Some(clipped_line(m.content)),
        None => if msgs.len() > 0 {
            Some(clipped_line(msgs[0].content))
        } else {
            None
        },
    }
}

/// The diagnostics kept with a session: its source and project hash.
pub open spec fn gemini_metadata(v: JsonV) -> JsonV {
    JsonV::Obj(
        seq![
            (
                "project_hash"@,
                match jv_get(v, "projectHash"@) {
                    Some(JsonV::Str(h)) => JsonV::Str(h),
                    _ => JsonV::Null,
                },
            ),
            ("source"@, JsonV::Str("gemini"@)),
        ],
    )
}

/// What one session file denotes: `None` where it has no `messages`
/// array or every entry is blank; otherwise the conversation, with
/// dense message indices, times from the session falling back to the
/// messages, and the file stem as identifier when no `sessionId` is
/// given.
pub open spec fn gemini_conversation_of(v: JsonV, source_path: Seq<char>) -> Option<
    ConversationV,
> {
    match jv_get(v, "messages"@) {
        Some(JsonV::Arr(items)) => {
            let msgs = with_indices(gemini_msgs(items, 0));
            if msgs.len() == 0 || msgs.len() >= 0x8000_0000_0000_0000 {
                None
            } else {
                let start_time = match jv_get(v, "startTime"@) {
                    Some(t) => timestamp64_of(t),
                    None => None,
                };
                let last_updated = match jv_get(v, "lastUpdated"@) {
                    Some(t) => timestamp64_of(t),
                    None => None,
                };
                Some(
                    ConversationV {
                        agent_slug: "gemini"@,
                        external_id: Some(
                            match jv_get(v, "sessionId"@) {
                                Some(JsonV::Str(sid)) => sid,
                                _ => stem_of(source_path),
                            },
                        ),
                        title: title_of(msgs),
                        workspace: Some(parent_of(parent_of(source_path))),
                        source_path: source_path,
                        started_at: match start_time {
                            Some(t) => Some(t),
                            None => first_created(msgs),
                        },
                        ended_at: match last_created(msgs) {
                            Some(c) => Some(c),
                            None => last_updated,
                        },
                        metadata: gemini_metadata(v),
                        messages: msgs,
                    },
                )
            }
        },
        _ => None,
    }
}

/// Parsed messages are never blank.
proof fn lemma_gemini_msgs_wf(items: Seq<JsonV>, i: int)
    ensures
        forall|k: int|
            0 <= k < gemini_msgs(items, i).len() ==> !is_blank(
                #[trigger] gemini_msgs(items, i)[k].content,
            ),
    decreases items.len() - i,
{
    if 0 <= i < items.len() {
        lemma_gemini_msgs_wf(items, i + 1);
    }
}

pub struct GeminiConnector;

impl GeminiConnector {
    pub fn new() -> (r: GeminiConnector) {
        GeminiConnector
    }

    /// The root a scan looks under: the given override, else the home
    /// directory's dot directory, else a relative fallback.
    pub fn root_path(gemini_home: Option<&str>) -> (r: String)
        ensures
            match gemini_home {
                Some(h) => r@ == h@,
                None => "/.gemini/tmp"@.is_suffix_of(r@) || r@ == ".gemini/tmp"@,
            },
    {
        proof {
            reveal_strlit("/.gemini/tmp");
            reveal_strlit(".gemini/tmp");
        }
        match gemini_home {
            Some(h) => h.to_owned(),
            None => match crate::home_dir() {
                Some(home) => {
                    let mut out = home;
                    out.append("/.gemini/tmp");
                    out
                },
                None => ".gemini/tmp".to_owned(),
            },
        }
    }

    /// The conversation denoted by one session file's text: the text
    /// is decoded as JSON and read as `parse_session` does; text that
    /// is not JSON yields nothing, as a skipped file does.
    pub fn parse_session_text(text: &str, source_path: &str) -> (r: Option<
        NormalizedConversation,
    >)
        ensures
            match crate::json::json_of(text@) {
                Some(j) => (match gemini_conversation_of(j, source_path@) {
                    Some(c) => r matches Some(conv) && conv@ == c && wf_conversation(conv@),
                    None => r is None,
                }),
                None => r is None,
            },
    {
        match crate::json::parse_json(text) {
            Some(v) => Self::parse_session(&v, source_path),
            None => None,
        }
    }

    /// The conversation denoted by one decoded session file.
    pub fn parse_session(v: &JsonValue, source_path: &str) -> (r: Option<NormalizedConversation>)
        ensures
            match gemini_conversation_of(v@, source_path@) {
                Some(c) => r matches Some(conv) && conv@ == c && wf_conversation(conv@),
                None => r is None,
            },
    {
        let items = match v.get("messages") {
            Some(m) => match m.as_arr() {
                Some(items) => items,
                None => {
                    return None;
                },
            },
            None => {
                return None;
            },
        };
        let ghost ev = crate::json::elems_view(items@);
        let mut msgs = parse_msgs(items, 0);
        if msgs.len() == 0 || (msgs.len() as u64) >= 0x8000_0000_0000_0000u64 {
            return None;
        }
        crate::model::reindex_messages(&mut msgs);
        let ghost msv = msgs@.map_values(|m: NormalizedMessage| m@);
        proof {
            lemma_gemini_msgs_wf(ev, 0);
            assert(forall|k: int|
                0 <= k < msv.len() ==> msv[k] == (#[trigger] with_indices(gemini_msgs(ev, 0))[k]));
            assert(msv =~= with_indices(gemini_msgs(ev, 0)));
        }
        let started_at = match v.get("startTime") {
            Some(t) => crate::time::parse_timestamp(t),
            None => None,
        };
        let started_at = match started_at {
            Some(t) => Some(t),
            None => first_created_exec(&msgs),
        };
        let ended_at = match last_created_exec(&msgs) {
            Some(c) => Some(c),
            None => match v.get("lastUpdated") {
                Some(t) => crate::time::parse_timestamp(t),
                None => None,
            },
        };
        let title = match find_user_title(&msgs) {
            Some(t) => Some(t),
            None => Some(crate::text::take_chars(crate::text::first_line(
                msgs[0].content.as_str(),
            ).as_str(), 100)),
        };
        let external_id = match v.get("sessionId") {
            Some(sid) => match sid.as_str() {
                Some(s) => s.to_owned(),
                None => crate::paths::file_stem(source_path),
            },
            None => crate::paths::file_stem(source_path),
        };
        let workspace = crate::paths::parent_path(crate::paths::parent_path(source_path).as_str());
        let project_hash = match v.get("projectHash") {
            Some(h) => match h.as_str() {
                Some(s) => JsonValue::Str(s.to_owned()),
                None => JsonValue::Null,
            },
            None => JsonValue::Null,
        };
        let mut members: Vec<JsonMember> = Vec::new();
        members.push(JsonMember { key: project_hash_key(), value: project_hash });
        members.push(JsonMember { key: source_key(), value: JsonValue::Str(gemini_word()) });
        let metadata = JsonValue::Obj(members);
        proof {
            crate::json::lemma_obj_view(members);
            assert(crate::json::members_view(members@) =~= gemini_metadata(v@)->Obj_0);
        }
        let conv = NormalizedConversation {
            agent_slug: gemini_word(),
            external_id: Some(external_id),
            title,
            workspace: Some(workspace),
            source_path: source_path.to_owned(),
            started_at,
            ended_at,
            metadata,
            messages: msgs,
        };
        proof {
            assert(conv@ =~= gemini_conversation_of(v@, source_path@)->Some_0);
        }
        Some(conv)
    }
}

/// The word `gemini`.
fn gemini_word() -> (r: String)
    ensures
        r@ == "gemini"@,
{
    "gemini".to_owned()
}

/// The key `project_hash`.
fn project_hash_key() -> (r: String)
    ensures
        r@ == "project_hash"@,
{
    "project_hash".to_owned()
}

/// The key `source`.
fn source_key() -> (r: String)
    ensures
        r@ == "source"@,
{
    "source".to_owned()
}

/// The messages parsed from `items` at position `idx` on, each with a
/// zero index.
fn parse_msgs(items: &Vec<JsonValue>, idx: usize) -> (r: Vec<NormalizedMessage>)
    requires
        idx <= items@.len(),
    ensures
        r@.map_values(|m: NormalizedMessage| m@) == gemini_msgs(
            crate::json::elems_view(items@),
            idx as int,
        ),
    decreases items@.len() - idx,
{
    let ghost ev = crate::json::elems_view(items@);
    if idx == items.len() {
        Vec::new()
    } else {
        let item = &items[idx];
        proof {
            assert(ev[idx as int] == items@[idx as int]@);
        }
        let mut rest = parse_msgs(items, idx + 1);
        let content = match item.get("content") {
            Some(c) => crate::text::flatten_content(c),
            None => String::new(),
        };
        if crate::text::blank(content.as_str()) {
            rest
        } else {
            let role = match item.get("type") {
                Some(t) => match t.as_str() {
                    Some(st) => if crate::json::str_eq(st, "model") {
                        "assistant".to_owned()
                    } else {
                        st.to_owned()
                    },
                    None => "assistant".to_owned(),
                },
                None => "assistant".to_owned(),
            };
            let created_at = match item.get("timestamp") {
                Some(ts) => crate::time::parse_timestamp(ts),
                None => None,
            };
            let msg = NormalizedMessage {
                idx: 0,
                role,
                author: None,
                created_at,
                content,
                extra: item.deep_copy(),
            };
            proof {
                assert(msg@ =~= gemini_msgs(ev, idx as int)[0]);
            }
            rest.insert(0, msg);
            proof {
                assert(rest@.map_values(|m: NormalizedMessage| m@) =~= gemini_msgs(
                    ev,
                    idx as int,
                ));
            }
            rest
        }
    }
}

/// The clipped first line of the first user message, if one exists.
fn find_user_title(msgs: &Vec<NormalizedMessage>) -> (r: Option<String>)
    ensures
        match first_user(msgs@.map_values(|m: NormalizedMessage| m@), 0) {
            Some(m) => r matches Some(t) && t@ == clipped_line(m.content),
            None => r is None,
        },
{
    let ghost mv = msgs@.map_values(|m: NormalizedMessage| m@);
    let n = msgs.len();
    let mut i: usize = 0;
    while i < n
        invariant
            n == msgs@.len(),
            mv == msgs@.map_values(|m: NormalizedMessage| m@),
            0 <= i <= n,
            first_user(mv, 0) == first_user(mv, i as int),
        decreases n - i,
    {
        if crate::json::str_eq(msgs[i].role.as_str(), "user") {
            let line = crate::text::first_line(msgs[i].content.as_str());
            return Some(crate::text::take_chars(line.as_str(), 100));
        }
        i += 1;
    }
    None
}

} // verus!
