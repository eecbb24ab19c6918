//! The Codebuff connector.
//!
//! Codebuff keeps each session as a JSON array in
//! `~/.config/manicode/projects/{project}/chats/{stamp}/chat-messages.json`.
//! A message carries a `variant` (`ai` or `human`), a direct `content`
//! string, and a `blocks` array mixing text, tool calls with their
//! command and truncated output, and nested agent blocks. Timestamps
//! come from the metadata, from direct fields, or from the middle part
//! of the message id.

use vstd::prelude::*;
use crate::text::join_nl;
use crate::json::{jv_get, JsonV, JsonValue};
use crate::model::{
    with_indices, wf_conversation, ConversationV, MessageV, NormalizedConversation,
    NormalizedMessage,
};
use crate::paths::{components_of, file_name_of, parent_of, split_of};
use crate::text::{first_line_of, is_blank, join_parts_exec, truncated_text};
use crate::time::timestamp64_of;

verus! {

/// The byte budget for a tool's output inside message content.
pub const TOOL_OUTPUT_BUDGET: i64 = 1000;

/// The component following the last component equal to `key`.
pub open spec fn follower(comps: Seq<Seq<char>>, key: Seq<char>) -> Option<Seq<char>>
    decreases comps.len(),
{
    if comps.len() < 2 {
        None
    } else if comps[comps.len() - 2] == key {
        Some(comps.last())
    } else {
        follower(comps.drop_last(), key)
    }
}

/// The project name and session stamp read off a chat file's path:
/// what follows `projects`, and what follows `chats`.
pub open spec fn path_info_of(path: Seq<char>) -> (Option<Seq<char>>, Option<Seq<char>>) {
    (follower(components_of(path), "projects"@), follower(components_of(path), "chats"@))
}

/// The component after the last `key` among `comps`.
fn find_follower(comps: &Vec<String>, key: &str) -> (r: Option<String>)
    ensures
        ({
            let cv = comps@.map_values(|t: String| t@);
            match follower(cv, key@) {
                Some(t) => r matches Some(found) && found@ == t,
                None => r is None,
            }
        }),
{
    let ghost cv = comps@.map_values(|t: String| t@);
    let mut i: usize = comps.len();
    proof {
        assert(cv.take(comps@.len() as int) =~= cv);
    }
    while i >= 2
        invariant
            0 <= i <= comps@.len(),
            cv == comps@.map_values(|t: String| t@),
            follower(cv, key@) == follower(cv.take(i as int), key@),
        decreases i,
    {
        proof {
            assert(cv.take(i as int)[i - 2] == cv[i - 2]);
            assert(cv.take(i as int).last() == cv[i - 1]);
            assert(cv.take(i as int).drop_last() =~= cv.take(i as int - 1));
        }
        if crate::json::str_eq(comps[i - 2].as_str(), key) {
            return Some(comps[i - 1].clone());
        }
        i -= 1;
    }
    None
}

/// The project name and session stamp read off a chat file's path.
pub fn extract_path_info(path: &str) -> (r: (Option<String>, Option<String>))
    ensures
        ({
            let info = path_info_of(path@);
            &&& match info.0 {
                Some(t) => r.0 matches Some(p) && p@ == t,
                None => r.0 is None,
            }
            &&& match info.1 {
                Some(t) => r.1 matches Some(s) && s@ == t,
                None => r.1 is None,
            }
        }),
{
    let comps = crate::paths::split_components(path);
    let project = find_follower(&comps, "projects");
    let session = find_follower(&comps, "chats");
    (project, session)
}

/// The first of three members of `v`, by name, that is present.
pub open spec fn first_of_three(v: JsonV, k1: Seq<char>, k2: Seq<char>, k3: Seq<char>) -> Option<
    JsonV,
> {
    match jv_get(v, k1) {
        Some(x) => Some(x),
        None => match jv_get(v, k2) {
            Some(x) => Some(x),
            None => jv_get(v, k3),
        },
    }
}

/// The timestamp fields tried on a message or its metadata.
pub open spec fn ts_field_of(v: JsonV) -> Option<JsonV> {
    first_of_three(v, "timestamp"@, "createdAt"@, "created_at"@)
}

/// The earliest and latest plausible message-id timestamps: the years
/// from 2020 up to 2033, in milliseconds.
pub const ID_TS_MIN: i64 = 1_577_836_800_000;

pub const ID_TS_MAX: i64 = 2_000_000_000_000;

/// The timestamp hidden in a message id such as `ai-{millis}-{hash}`:
/// its second dash-separated part, when that is an integer in the
/// plausible range.
pub open spec fn id_ts_of(v: JsonV) -> Option<i64> {
    match jv_get(v, "id"@) {
        Some(JsonV::Str(id)) => {
            let parts = split_of(id, '-');
            if parts.len() >= 2 {
                match crate::time::strict_int(parts[1]) {
                    Some(t) => if ID_TS_MIN < t < ID_TS_MAX {
                        Some(t as i64)
                    } else {
                        None
                    },
                    None => None,
                }
            } else {
                None
            }
        },
        _ => None,
    }
}

/// The creation time of a message: a readable timestamp from its
/// metadata, else from its direct fields, else from its id.
pub open spec fn codebuff_ts_of(m: JsonV) -> Option<i64> {
    let from_meta = match jv_get(m, "metadata"@) {
        Some(md) => match ts_field_of(md) {
            Some(ts) => timestamp64_of(ts),
            None => None,
        },
        None => None,
    };
    match from_meta {
        Some(t) => Some(t),
        None => match ts_field_of(m) {
            Some(ts) => match timestamp64_of(ts) {
                Some(t) => Some(t),
                None => id_ts_of(m),
            },
            None => id_ts_of(m),
        },
    }
}

/// The `type` of a block, where it has a string one.
pub open spec fn block_type(b: JsonV) -> Seq<char> {
    match jv_get(b, "type"@) {
        Some(JsonV::Str(t)) => t,
        _ => Seq::empty(),
    }
}

/// The non-empty string `content` of a block, as a one-entry list.
pub open spec fn content_part(b: JsonV) -> Seq<Seq<char>> {
    match jv_get(b, "content"@) {
        Some(JsonV::Str(c)) => if c.len() > 0 {
            seq![c]
        } else {
            Seq::empty()
        },
        _ => Seq::empty(),
    }
}

/// The text describing a tool call: its name with the command or path
/// it was given.
pub open spec fn tool_desc(b: JsonV) -> Seq<Seq<char>> {
    let name = match jv_get(b, "toolName"@) {
        Some(JsonV::Str(n)) => n,
        _ => "unknown"@,
    };
    match jv_get(b, "input"@) {
        Some(input) => {
            let head = "[Tool: "@ + name + "]"@;
            match jv_get(input, "command"@) {
                Some(JsonV::Str(cmd)) => seq![head + " "@ + cmd],
                _ => match jv_get(input, "path"@) {
                    Some(JsonV::Str(p)) => seq![head + " "@ + p],
                    _ => seq![head],
                },
            }
        },
        None => Seq::empty(),
    }
}

/// The truncated output of a tool call, where it has any.
pub open spec fn tool_output(b: JsonV) -> Seq<Seq<char>> {
    match jv_get(b, "output"@) {
        Some(JsonV::Str(o)) => {
            let cut = truncated_text(o, TOOL_OUTPUT_BUDGET as int, "... [truncated]"@);
            if cut.len() > 0 {
                seq![cut]
            } else {
                Seq::empty()
            }
        },
        _ => Seq::empty(),
    }
}

/// The text fragments of one block: its text, its tool description and
/// output, or, for agent blocks, its content and its nested blocks.
pub open spec fn block_parts_of(b: JsonV) -> Seq<Seq<char>>
    decreases b, 4int, 0int,
{
    let ty = block_type(b);
    if ty == "text"@ {
        content_part(b)
    } else if ty == "tool"@ {
        tool_desc(b) + tool_output(b)
    } else if ty == "agent"@ {
        content_part(b) + (match b {
            JsonV::Obj(pairs) => blocks_member_parts(pairs, 0),
            _ => Seq::empty(),
        })
    } else {
        content_part(b)
    }
}

/// The fragments of the `blocks` member among `pairs`, if one stands
/// there.
pub open spec fn blocks_member_parts(pairs: Seq<(Seq<char>, JsonV)>, i: int) -> Seq<Seq<char>>
    decreases pairs, pairs.len() - i, 0int,
{
    if i < 0 || i >= pairs.len() {
        Seq::empty()
    } else if pairs[i].0 == "blocks"@ {
        pair_blocks(pairs[i])
    } else {
        blocks_member_parts(pairs, i + 1)
    }
}

/// The fragments of one member's value, read as a block list.
pub open spec fn pair_blocks(pair: (Seq<char>, JsonV)) -> Seq<Seq<char>>
    decreases pair, 6int, 0int,
{
    val_blocks(pair.1)
}

/// The fragments of a value that is an array of blocks.
pub open spec fn val_blocks(v: JsonV) -> Seq<Seq<char>>
    decreases v, 6int, 0int,
{
    match v {
        JsonV::Arr(items) => blocks_list(items, 0),
        _ => Seq::empty(),
    }
}

/// The fragments of the blocks from position `i` on.
pub open spec fn blocks_list(items: Seq<JsonV>, i: int) -> Seq<Seq<char>>
    decreases items, items.len() - i, 5int,
{
    if i < 0 || i >= items.len() {
        Seq::empty()
    } else {
        block_parts_of(items[i]) + blocks_list(items, i + 1)
    }
}

/// The text fragments of a whole message: its direct `content`, then
/// its blocks.
pub open spec fn message_parts(m: JsonV) -> Seq<Seq<char>> {
    content_part(m) + (match m {
        JsonV::Obj(pairs) => blocks_member_parts(pairs, 0),
        _ => Seq::empty(),
    })
}

/// The assembled content of a message: its fragments joined by
/// newlines.
pub open spec fn content_of_msg(m: JsonV) -> Seq<char> {
    join_nl(message_parts(m))
}

/// The role of a message: `ai` maps to `assistant`, `human` to `user`,
/// anything else stays, and `unknown` stands in for a missing variant.
pub open spec fn role_of_msg(m: JsonV) -> Seq<char> {
    let variant = match jv_get(m, "variant"@) {
        Some(JsonV::Str(v)) => v,
        _ => "unknown"@,
    };
    if variant == "ai"@ {
        "assistant"@
    } else if variant == "human"@ {
        "user"@
    } else {
        variant
    }
}

/// The author of a message: its `author`, else its `agentName`, where
/// the chosen one is a string.
pub open spec fn author_of_msg(m: JsonV) -> Option<Seq<char>> {
    let chosen = match jv_get(m, "author"@) {
        Some(x) => Some(x),
        None => jv_get(m, "agentName"@),
    };
    match chosen {
        Some(JsonV::Str(a)) => Some(a),
        _ => None,
    }
}

/// The messages kept from the session array at position `i` on, blank
/// content dropped; indices are assigned afterwards.
pub open spec fn codebuff_msgs(items: Seq<JsonV>, i: int) -> Seq<MessageV>
    decreases items.len() - i,
{
    if i < 0 || i >= items.len() {
        Seq::empty()
    } else {
        let rest = codebuff_msgs(items, i + 1);
        let m = items[i];
        if is_blank(content_of_msg(m)) {
            rest
        } else {
            seq![
                MessageV {
                    idx: 0,
                    role: role_of_msg(m),
                    author: author_of_msg(m),
                    created_at: codebuff_ts_of(m),
                    content: content_of_msg(m),
                    extra: m,
                },
            ] + rest
        }
    }
}

/// The workspace of a session: the `fileContext` of the first message
/// that has one decides, by `projectRoot` then `cwd`; the project name
/// from the path stands in where none does.
pub open spec fn workspace_of(items: Seq<JsonV>, i: int, path: Seq<char>) -> Option<Seq<char>>
    decreases items.len() - i,
{
    if i < 0 || i >= items.len() {
        path_info_of(path).0
    } else {
        let fc = file_context_of(items[i]);
        match fc {
            Some(ctx) => match jv_get(ctx, "projectRoot"@) {
                Some(JsonV::Str(root)) => Some(root),
                _ => match jv_get(ctx, "cwd"@) {
                    Some(JsonV::Str(cwd)) => Some(cwd),
                    _ => workspace_of(items, i + 1, path),
                },
            },
            None => workspace_of(items, i + 1, path),
        }
    }
}

/// The `metadata.runState.sessionState.fileContext` of a message.
pub open spec fn file_context_of(m: JsonV) -> Option<JsonV> {
    match jv_get(m, "metadata"@) {
        Some(md) => match jv_get(md, "runState"@) {
            Some(rs) => match jv_get(rs, "sessionState"@) {
                Some(ss) => jv_get(ss, "fileContext"@),
                None => None,
            },
            None => None,
        },
        None => None,
    }
}

/// What one chat file denotes: `None` where it is not an array or
/// every message is blank; otherwise the conversation, titled by the
/// project name or the first message's first line, identified by the
/// session stamp or the chat directory's name, and timed by its first
/// and last messages.
pub open spec fn codebuff_conversation_of(v: JsonV, path: Seq<char>) -> Option<ConversationV> {
    match v {
        JsonV::Arr(items) => {
            let msgs = with_indices(codebuff_msgs(items, 0));
            if msgs.len() == 0 || msgs.len() >= 0x8000_0000_0000_0000 {
                None
            } else {
                let info = path_info_of(path);
                Some(
                    ConversationV {
                        agent_slug: "codebuff"@,
                        external_id: Some(
                            match info.1 {
                                Some(stamp) => stamp,
                                None => file_name_of(parent_of(path)),
                            },
                        ),
                        title: match info.0 {
                            Some(p) => Some(p),
                            None => Some(
                                first_line_of(msgs[0].content).take(
                                    if 80 <= first_line_of(msgs[0].content).len() {
                                        80int
                                    } else {
                                        first_line_of(msgs[0].content).len() as int
                                    },
                                ),
                            ),
                        },
                        workspace: workspace_of(items, 0, path),
                        source_path: path,
                        started_at: msgs[0].created_at,
                        ended_at: msgs.last().created_at,
                        metadata: v,
                        messages: msgs,
                    },
                )
            }
        },
        _ => None,
    }
}

/// Kept messages are never blank.
proof fn lemma_codebuff_msgs_wf(items: Seq<JsonV>, i: int)
    ensures
        forall|k: int|
            0 <= k < codebuff_msgs(items, i).len() ==> !is_blank(
                #[trigger] codebuff_msgs(items, i)[k].content,
            ),
    decreases items.len() - i,
{
    if 0 <= i < items.len() {
        lemma_codebuff_msgs_wf(items, i + 1);
    }
}

pub struct CodebuffConnector;

impl CodebuffConnector {
    pub fn new() -> (r: CodebuffConnector) {
        CodebuffConnector
    }

    /// The projects directory under a home directory.
    pub fn projects_root(home: &str) -> (r: String)
        ensures
            r@ == home@ + "/.config/manicode/projects"@,
    {
        let mut out = home.to_owned();
        out.append("/.config/manicode/projects");
        proof {
            reveal_strlit("/.config/manicode/projects");
        }
        out
    }

    /// The roots a scan looks under: the projects directory of the
    /// given home directory, or of the current directory where none is
    /// known.
    pub fn candidate_roots(home: Option<&str>) -> (r: Vec<String>)
        ensures
            r@.len() == 1,
            r@[0]@ == (match home {
                Some(h) => h@,
                None => "."@,
            }) + "/.config/manicode/projects"@,
    {
        let root = match home {
            Some(h) => Self::projects_root(h),
            None => {
                proof {
                    reveal_strlit(".");
                }
                Self::projects_root(".")
            },
        };
        let mut out: Vec<String> = Vec::new();
        out.push(root);
        out
    }

    /// The roots a scan looks under, taken from the platform's idea of
    /// the home directory: always one path ending in the projects
    /// directory.
    pub fn default_roots() -> (r: Vec<String>)
        ensures
            r@.len() == 1,
            "/.config/manicode/projects"@.is_suffix_of(r@[0]@),
    {
        proof {
            reveal_strlit("/.config/manicode/projects");
        }
        match crate::home_dir() {
            Some(h) => Self::candidate_roots(Some(h.as_str())),
            None => Self::candidate_roots(None),
        }
    }

    /// The conversation denoted by one chat file's text: the text is
    /// decoded as JSON and read as `parse_chat` does; text that is not
    /// JSON yields nothing, as a skipped file does.
    pub fn parse_chat_text(text: &str, path: &str) -> (r: Option<NormalizedConversation>)
        ensures
            match crate::json::json_of(text@) {
                Some(j) => (match codebuff_conversation_of(j, path@) {
                    Some(c) => r matches Some(conv) && conv@ == c && wf_conversation(conv@),
                    None => r is None,
                }),
                None => r is None,
            },
    {
        match crate::json::parse_json(text) {
            Some(v) => Self::parse_chat(&v, path),
            None => None,
        }
    }

    /// The conversation denoted by one decoded chat file.
    pub fn parse_chat(v: &JsonValue, path: &str) -> (r: Option<NormalizedConversation>)
        ensures
            match codebuff_conversation_of(v@, path@) {
                Some(c) => r matches Some(conv) && conv@ == c && wf_conversation(conv@),
                None => r is None,
            },
    {
        let items = match v.as_arr() {
            Some(items) => items,
            None => {
                return None;
            },
        };
        let ghost ev = crate::json::elems_view(items@);
        let mut msgs = parse_msgs(items, 0);
        if msgs.len() == 0 || (msgs.len() as u64) >= 0x8000_0000_0000_0000u64 {
            return None;
        }
        crate::model::reindex_messages(&mut msgs);
        let ghost msv = msgs@.map_values(|m: NormalizedMessage| m@);
        proof {
            lemma_codebuff_msgs_wf(ev, 0);
            assert(msv =~= with_indices(codebuff_msgs(ev, 0)));
        }
        let (project, session) = extract_path_info(path);
        let external_id = match session {
            Some(stamp) => stamp,
            None => crate::paths::file_name(crate::paths::parent_path(path).as_str()),
        };
        let title = match project {
            Some(p) => Some(p),
            None => Some(
                crate::text::take_chars(
                    crate::text::first_line(msgs[0].content.as_str()).as_str(),
                    80,
                ),
            ),
        };
        let workspace = find_workspace(items, 0, path);
        let started_at = msgs[0].created_at;
        let ended_at = msgs[msgs.len() - 1].created_at;
        let conv = NormalizedConversation {
            agent_slug: word_codebuff(),
            external_id: Some(external_id),
            title,
            workspace,
            source_path: path.to_owned(),
            started_at,
            ended_at,
            metadata: v.deep_copy(),
            messages: msgs,
        };
        proof {
            assert(msv.last() == codebuff_conversation_of(v@, path@)->Some_0.messages.last());
            assert(conv@ =~= codebuff_conversation_of(v@, path@)->Some_0);
        }
        Some(conv)
    }
}

/// The word `codebuff`.
fn word_codebuff() -> (r: String)
    ensures
        r@ == "codebuff"@,
{
    "codebuff".to_owned()
}

/// The messages kept from the session array, from `idx` on.
fn parse_msgs(items: &Vec<JsonValue>, idx: usize) -> (r: Vec<NormalizedMessage>)
    requires
        idx <= items@.len(),
    ensures
        r@.map_values(|m: NormalizedMessage| m@) == codebuff_msgs(
            crate::json::elems_view(items@),
            idx as int,
        ),
    decreases items@.len() - idx,
{
    let ghost ev = crate::json::elems_view(items@);
    if idx == items.len() {
        Vec::new()
    } else {
        proof {
            assert(ev[idx as int] == items@[idx as int]@);
        }
        let m = &items[idx];
        let mut rest = parse_msgs(items, idx + 1);
        let content = assemble_content(m);
        if crate::text::blank(content.as_str()) {
            rest
        } else {
            let role = role_exec(m);
            let author = author_exec(m);
            let created_at = parse_codebuff_timestamp(m);
            let msg = NormalizedMessage {
                idx: 0,
                role,
                author,
                created_at,
                content,
                extra: m.deep_copy(),
            };
            proof {
                assert(msg@ =~= codebuff_msgs(ev, idx as int)[0]);
            }
            rest.insert(0, msg);
            proof {
                assert(rest@.map_values(|m: NormalizedMessage| m@) =~= codebuff_msgs(
                    ev,
                    idx as int,
                ));
            }
            rest
        }
    }
}

/// The role of one message.
fn role_exec(m: &JsonValue) -> (r: String)
    ensures
        r@ == role_of_msg(m@),
{
    let variant = match m.get("variant") {
        Some(v) => match v.as_str() {
            Some(s) => s.to_owned(),
            None => "unknown".to_owned(),
        },
        None => "unknown".to_owned(),
    };
    if crate::json::str_eq(variant.as_str(), "ai") {
        "assistant".to_owned()
    } else if crate::json::str_eq(variant.as_str(), "human") {
        "user".to_owned()
    } else {
        variant
    }
}

/// The author of one message.
fn author_exec(m: &JsonValue) -> (r: Option<String>)
    ensures
        match author_of_msg(m@) {
            Some(a) => r matches Some(s) && s@ == a,
            None => r is None,
        },
{
    let chosen = match m.get("author") {
        Some(x) => Some(x),
        None => m.get("agentName"),
    };
    match chosen {
        Some(x) => match x.as_str() {
            Some(s) => Some(s.to_owned()),
            None => None,
        },
        None => None,
    }
}

/// The first of three members of `v` that is present.
fn first_of_three_exec<'a>(v: &'a JsonValue, k1: &str, k2: &str, k3: &str) -> (r: Option<
    &'a JsonValue,
>)
    ensures
        match first_of_three(v@, k1@, k2@, k3@) {
            Some(x) => r matches Some(found) && found@ == x,
            None => r is None,
        },
{
    match v.get(k1) {
        Some(x) => Some(x),
        None => match v.get(k2) {
            Some(x) => Some(x),
            None => v.get(k3),
        },
    }
}

/// The creation time of one message, read as the specification says.
pub fn parse_codebuff_timestamp(m: &JsonValue) -> (r: Option<i64>)
    ensures
        r == codebuff_ts_of(m@),
{
    let from_meta = match m.get("metadata") {
        Some(md) => match first_of_three_exec(md, "timestamp", "createdAt", "created_at") {
            Some(ts) => crate::time::parse_timestamp(ts),
            None => None,
        },
        None => None,
    };
    match from_meta {
        Some(t) => Some(t),
        None => {
            match first_of_three_exec(m, "timestamp", "createdAt", "created_at") {
                Some(ts) => match crate::time::parse_timestamp(ts) {
                    Some(t) => Some(t),
                    None => id_ts_exec(m),
                },
                None => id_ts_exec(m),
            }
        },
    }
}

/// The timestamp hidden in the message id, where one is.
fn id_ts_exec(m: &JsonValue) -> (r: Option<i64>)
    ensures
        r == id_ts_of(m@),
{
    match m.get("id") {
        Some(idv) => match idv.as_str() {
            Some(id) => {
                let parts = crate::paths::split_on(id, '-');
                if parts.len() >= 2 {
                    proof {
                        assert(parts@.map_values(|t: String| t@)[1] == parts@[1]@);
                    }
                    match crate::time::strict_int_exec(parts[1].as_str()) {
                        Some(t) => {
                            if ID_TS_MIN < t && t < ID_TS_MAX {
                                Some(t)
                            } else {
                                None
                            }
                        },
                        None => None,
                    }
                } else {
                    None
                }
            },
            None => None,
        },
        None => None,
    }
}

/// Assembles the searchable content of one message.
pub fn assemble_content(m: &JsonValue) -> (r: String)
    ensures
        r@ == content_of_msg(m@),
{
    let parts = collect_message_parts(m);
    let r = join_parts_exec(&parts, 0);
    proof {
        assert(parts@.map_values(|t: String| t@).skip(0) =~= message_parts(m@));
    }
    r
}

/// The text fragments of one message.
fn collect_message_parts(m: &JsonValue) -> (r: Vec<String>)
    ensures
        r@.map_values(|t: String| t@) == message_parts(m@),
{
    let mut parts: Vec<String> = Vec::new();
    match m.get("content") {
        Some(c) => match c.as_str() {
            Some(s) => {
                if s.unicode_len() > 0 {
                    parts.push(s.to_owned());
                }
            },
            None => {},
        },
        None => {},
    }
    let ghost direct = parts@.map_values(|t: String| t@);
    proof {
        assert(direct =~= content_part(m@));
    }
    match m {
        JsonValue::Obj(members) => {
            proof {
                crate::json::lemma_obj_view(*members);
            }
            let more = blocks_member_exec(members, 0);
            let mut out = parts;
            append_all(&mut out, more);
            proof {
                assert(out@.map_values(|t: String| t@) =~= message_parts(m@));
            }
            out
        },
        _ => {
            proof {
                assert(parts@.map_values(|t: String| t@) =~= message_parts(m@));
            }
            parts
        },
    }
}

/// Moves every string of `more` onto the end of `out`.
fn append_all(out: &mut Vec<String>, more: Vec<String>)
    ensures
        final(out)@.map_values(|t: String| t@) == old(out)@.map_values(|t: String| t@)
            + more@.map_values(|t: String| t@),
{
    let ghost total = old(out)@.map_values(|t: String| t@) + more@.map_values(|t: String| t@);
    let mut rest = more;
    proof {
        assert(out@.map_values(|t: String| t@) + rest@.map_values(|t: String| t@) =~= total);
    }
    while rest.len() > 0
        invariant
            out@.map_values(|t: String| t@) + rest@.map_values(|t: String| t@) == total,
            total == old(out)@.map_values(|t: String| t@) + more@.map_values(|t: String| t@),
        decreases rest@.len(),
    {
        let x = rest.remove(0);
        out.push(x);
        proof {
            assert(out@.map_values(|t: String| t@) + rest@.map_values(|t: String| t@)
                =~= total);
        }
    }
    proof {
        assert(out@.map_values(|t: String| t@) =~= total);
    }
}

/// The fragments of the `blocks` member, from member `idx` on.
fn blocks_member_exec(members: &Vec<crate::json::JsonMember>, idx: usize) -> (r: Vec<String>)
    requires
        idx <= members@.len(),
    ensures
        r@.map_values(|t: String| t@) == blocks_member_parts(
            crate::json::members_view(members@),
            idx as int,
        ),
    decreases members, members@.len() - idx, 0int,
{
    let ghost mv = crate::json::members_view(members@);
    if idx == members.len() {
        Vec::new()
    } else {
        proof {
            assert(mv[idx as int] == (members@[idx as int].key@, crate::json::jv_of(
                members@[idx as int].value,
            )));
        }
        if crate::json::str_eq(members[idx].key.as_str(), "blocks") {
            let r = member_blocks_exec(&members[idx]);
            proof {
                assert(blocks_member_parts(mv, idx as int) == pair_blocks(mv[idx as int]));
            }
            r
        } else {
            blocks_member_exec(members, idx + 1)
        }
    }
}

/// The fragments of one member's value, read as a block list.
fn member_blocks_exec(m: &crate::json::JsonMember) -> (r: Vec<String>)
    ensures
        r@.map_values(|t: String| t@) == pair_blocks((m.key@, m.value@)),
    decreases m, 7int, 0int,
{
    match &m.value {
        JsonValue::Arr(items) => {
            proof {
                crate::json::lemma_arr_view(*items);
            }
            blocks_list_exec(items, 0)
        },
        _ => Vec::new(),
    }
}

/// The fragments of the blocks from `idx` on.
fn blocks_list_exec(items: &Vec<JsonValue>, idx: usize) -> (r: Vec<String>)
    requires
        idx <= items@.len(),
    ensures
        r@.map_values(|t: String| t@) == blocks_list(
            crate::json::elems_view(items@),
            idx as int,
        ),
    decreases items, items@.len() - idx, 0int,
{
    let ghost ev = crate::json::elems_view(items@);
    if idx == items.len() {
        Vec::new()
    } else {
        proof {
            assert(ev[idx as int] == items@[idx as int]@);
        }
        let mut head = block_parts_exec(&items[idx]);
        let tail = blocks_list_exec(items, idx + 1);
        append_all(&mut head, tail);
        proof {
            assert(head@.map_values(|t: String| t@) =~= blocks_list(ev, idx as int));
        }
        head
    }
}

/// The fragments of one block.
fn block_parts_exec(b: &JsonValue) -> (r: Vec<String>)
    ensures
        r@.map_values(|t: String| t@) == block_parts_of(b@),
    decreases b, 5int, 0int,
{
    let ty = match b.get("type") {
        Some(t) => match t.as_str() {
            Some(s) => s.to_owned(),
            None => String::new(),
        },
        None => String::new(),
    };
    if crate::json::str_eq(ty.as_str(), "text") {
        let r = content_part_exec(b);
        proof {
            assert(r@.map_values(|t: String| t@) =~= block_parts_of(b@));
        }
        r
    } else if crate::json::str_eq(ty.as_str(), "tool") {
        let mut out = tool_desc_exec(b);
        let outp = tool_output_exec(b);
        append_all(&mut out, outp);
        proof {
            assert(out@.map_values(|t: String| t@) =~= block_parts_of(b@));
        }
        out
    } else if crate::json::str_eq(ty.as_str(), "agent") {
        let mut out = content_part_exec(b);
        let nested = match b {
            JsonValue::Obj(members) => {
                proof {
                    crate::json::lemma_obj_view(*members);
                }
                blocks_member_exec(members, 0)
            },
            _ => Vec::new(),
        };
        append_all(&mut out, nested);
        proof {
            assert(out@.map_values(|t: String| t@) =~= block_parts_of(b@));
        }
        out
    } else {
        let r = content_part_exec(b);
        proof {
            assert(r@.map_values(|t: String| t@) =~= block_parts_of(b@));
        }
        r
    }
}

/// The non-empty string `content` of a block, as fragments.
fn content_part_exec(b: &JsonValue) -> (r: Vec<String>)
    ensures
        r@.map_values(|t: String| t@) == content_part(b@),
{
    let mut out: Vec<String> = Vec::new();
    match b.get("content") {
        Some(c) => match c.as_str() {
            Some(s) => {
                if s.unicode_len() > 0 {
                    out.push(s.to_owned());
                }
            },
            None => {},
        },
        None => {},
    }
    proof {
        assert(out@.map_values(|t: String| t@) =~= content_part(b@));
    }
    out
}

/// The description fragment of a tool block.
fn tool_desc_exec(b: &JsonValue) -> (r: Vec<String>)
    ensures
        r@.map_values(|t: String| t@) == tool_desc(b@),
{
    let name = match b.get("toolName") {
        Some(n) => match n.as_str() {
            Some(s) => s.to_owned(),
            None => "unknown".to_owned(),
        },
        None => "unknown".to_owned(),
    };
    let mut out: Vec<String> = Vec::new();
    match b.get("input") {
        Some(input) => {
            let mut head = "[Tool: ".to_owned();
            head.append(name.as_str());
            head.append("]");
            proof {
                reveal_strlit("[Tool: ");
                reveal_strlit("]");
            }
            let chosen = match input.get("command") {
                Some(cmd) => match cmd.as_str() {
                    Some(s) => Some(s.to_owned()),
                    None => match input.get("path") {
                        Some(p) => match p.as_str() {
                            Some(s) => Some(s.to_owned()),
                            None => None,
                        },
                        None => None,
                    },
                },
                None => match input.get("path") {
                    Some(p) => match p.as_str() {
                        Some(s) => Some(s.to_owned()),
                        None => None,
                    },
                    None => None,
                },
            };
            match chosen {
                Some(arg) => {
                    let mut line = head;
                    line.append(" ");
                    line.append(arg.as_str());
                    proof {
                        reveal_strlit(" ");
                        assert(" "@ =~= " "@);
                    }
                    out.push(line);
                },
                None => {
                    out.push(head);
                },
            }
        },
        None => {},
    }
    proof {
        assert(out@.map_values(|t: String| t@) =~= tool_desc(b@));
    }
    out
}

/// The truncated output fragment of a tool block.
fn tool_output_exec(b: &JsonValue) -> (r: Vec<String>)
    ensures
        r@.map_values(|t: String| t@) == tool_output(b@),
{
    let mut out: Vec<String> = Vec::new();
    match b.get("output") {
        Some(o) => match o.as_str() {
            Some(s) => {
                let cut = crate::text::truncate_text(s, TOOL_OUTPUT_BUDGET, "... [truncated]");
                if cut.unicode_len() > 0 {
                    out.push(cut);
                }
            },
            None => {},
        },
        None => {},
    }
    proof {
        assert(out@.map_values(|t: String| t@) =~= tool_output(b@));
    }
    out
}

/// The workspace of a session, scanning messages from `idx` on.
fn find_workspace(items: &Vec<JsonValue>, idx: usize, path: &str) -> (r: Option<String>)
    requires
        idx <= items@.len(),
    ensures
        match workspace_of(crate::json::elems_view(items@), idx as int, path@) {
            Some(w) => r matches Some(s) && s@ == w,
            None => r is None,
        },
    decreases items@.len() - idx,
{
    let ghost ev = crate::json::elems_view(items@);
    if idx == items.len() {
        let (project, _) = extract_path_info(path);
        project
    } else {
        proof {
            assert(ev[idx as int] == items@[idx as int]@);
        }
        let m = &items[idx];
        let fc = match m.get("metadata") {
            Some(md) => match md.get("runState") {
                Some(rs) => match rs.get("sessionState") {
                    Some(ss) => ss.get("fileContext"),
                    None => None,
                },
                None => None,
            },
            None => None,
        };
        match fc {
            Some(ctx) => {
                match ctx.get("projectRoot") {
                    Some(root) => match root.as_str() {
                        Some(s) => Some(s.to_owned()),
                        None => match ctx.get("cwd") {
                            Some(cwd) => match cwd.as_str() {
                                Some(s) => Some(s.to_owned()),
                                None => find_workspace(items, idx + 1, path),
                            },
                            None => find_workspace(items, idx + 1, path),
                        },
                    },
                    None => match ctx.get("cwd") {
                        Some(cwd) => match cwd.as_str() {
                            Some(s) => Some(s.to_owned()),
                            None => find_workspace(items, idx + 1, path),
                        },
                        None => find_workspace(items, idx + 1, path),
                    },
                }
            },
            None => find_workspace(items, idx + 1, path),
        }
    }
}

} // verus!
