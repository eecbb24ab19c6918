//! The ChatGPT desktop connector.
//!
//! The desktop application keeps plain JSON conversation files in
//! `conversations-{uuid}` directories; `-v2-` and `-v3-` directories
//! are encrypted and skipped by the enumeration outside. A file holds
//! either a `mapping` of graph nodes or a flat `messages` array, the
//! latter read only when the mapping yields nothing. Both shapes are
//! ordered by creation time, the source order kept between ties at
//! millisecond precision, so a conversation's kept times ascend.
//! `system` turns are dropped, and message times are float seconds,
//! widened to milliseconds.

use vstd::prelude::*;
use crate::json::{jv_get, JsonMember, JsonV, JsonValue};
use crate::model::{
    first_created, with_indices, wf_conversation, ConversationV, MessageV,
    NormalizedConversation, NormalizedMessage,
};
use crate::paths::stem_of;
use crate::sort::stable_sort_by;
use crate::text::{is_blank, join_nl};
use crate::time::{num_millis, timestamp64_of};

verus! {

/// The ordering key of a mapping node: its `create_time` widened to
/// milliseconds, zero where it is missing or unreadable.
pub open spec fn node_key(msg: JsonV) -> int {
    match jv_get(msg, "create_time"@) {
        Some(JsonV::Num(s)) => match num_millis(s) {
            Some(v) => v,
            None => 0,
        },
        _ => 0,
    }
}

/// The node order: not-greater `create_time` keys.
pub open spec fn node_leq_f() -> spec_fn(JsonV, JsonV) -> bool {
    |a: JsonV, b: JsonV| node_key(a) <= node_key(b)
}

/// The message values of the mapping's nodes, in mapping order, for
/// nodes that carry a `message`.
pub open spec fn mapping_msgs_of(pairs: Seq<(Seq<char>, JsonV)>, i: int) -> Seq<JsonV>
    decreases pairs.len() - i,
{
    if i < 0 || i >= pairs.len() {
        Seq::empty()
    } else {
        let rest = mapping_msgs_of(pairs, i + 1);
        match jv_get(pairs[i].1, "message"@) {
            Some(m) => seq![m] + rest,
            None => rest,
        }
    }
}

/// The strings among `parts`, in order.
pub open spec fn strs_of(parts: Seq<JsonV>, i: int) -> Seq<Seq<char>>
    decreases parts.len() - i,
{
    if i < 0 || i >= parts.len() {
        Seq::empty()
    } else {
        let rest = strs_of(parts, i + 1);
        match parts[i] {
            JsonV::Str(s) => seq![s] + rest,
            _ => rest,
        }
    }
}

/// The role of a mapping message: `author.role`, else `assistant`.
pub open spec fn role_of_msg(msg: JsonV) -> Seq<char> {
    match jv_get(msg, "author"@) {
        Some(a) => match jv_get(a, "role"@) {
            Some(JsonV::Str(r)) => r,
            _ => "assistant"@,
        },
        None => "assistant"@,
    }
}

/// The text of a mapping message: its `content.parts` joined by
/// newlines where `parts` is an array, else its `content.text`, else
/// nothing.
pub open spec fn content_of_msg(msg: JsonV) -> Option<Seq<char>> {
    match jv_get(msg, "content"@) {
        Some(c) => match jv_get(c, "parts"@) {
            Some(JsonV::Arr(parts)) => Some(join_nl(strs_of(parts, 0))),
            _ => match jv_get(c, "text"@) {
                Some(JsonV::Str(t)) => Some(t),
                _ => None,
            },
        },
        None => None,
    }
}

/// The creation time of a mapping message: its float-second
/// `create_time`, widened to milliseconds.
pub open spec fn created_of_msg(msg: JsonV) -> Option<i64> {
    match jv_get(msg, "create_time"@) {
        Some(JsonV::Num(s)) => match num_millis(s) {
            Some(v) => Some(v as i64),
            None => None,
        },
        _ => None,
    }
}

/// The author of a mapping message: its `metadata.model_slug`.
pub open spec fn author_of_msg(msg: JsonV) -> Option<Seq<char>> {
    match jv_get(msg, "metadata"@) {
        Some(md) => match jv_get(md, "model_slug"@) {
            Some(JsonV::Str(m)) => Some(m),
            _ => None,
        },
        None => None,
    }
}

/// Whether a message parsed with time `created` survives the
/// incremental cut-off `since`.
pub open spec fn passes_since(created: Option<i64>, since: Option<i64>) -> bool {
    match (since, created) {
        (Some(w), Some(t)) => t > w,
        _ => true,
    }
}

/// The messages kept from the ordered mapping nodes at position `i`
/// on: `system` turns, blank or absent content, and turns at or before
/// `since` are dropped. Indices are assigned afterwards.
pub open spec fn msgs_from_mapping(nodes: Seq<JsonV>, i: int, since: Option<i64>) -> Seq<
    MessageV,
>
    decreases nodes.len() - i,
{
    if i < 0 || i >= nodes.len() {
        Seq::empty()
    } else {
        let rest = msgs_from_mapping(nodes, i + 1, since);
        let msg = nodes[i];
        let keep = role_of_msg(msg) != "system"@ && match content_of_msg(msg) {
            Some(c) => !is_blank(c),
            None => false,
        } && passes_since(created_of_msg(msg), since);
        if keep {
            seq![
                MessageV {
                    idx: 0,
                    role: role_of_msg(msg),
                    author: author_of_msg(msg),
                    created_at: created_of_msg(msg),
                    content: content_of_msg(msg)->Some_0,
                    extra: msg,
                },
            ] + rest
        } else {
            rest
        }
    }
}

/// The role of a flat-array entry: its `role`, else `assistant`.
pub open spec fn role_of_item(item: JsonV) -> Seq<char> {
    match jv_get(item, "role"@) {
        Some(JsonV::Str(r)) => r,
        _ => "assistant"@,
    }
}

/// The text of a flat-array entry: its string `content`, else nothing.
pub open spec fn content_of_item(item: JsonV) -> Seq<char> {
    match jv_get(item, "content"@) {
        Some(JsonV::Str(s)) => s,
        _ => Seq::empty(),
    }
}

/// The creation time of a flat-array entry: its `timestamp`, else its
/// `create_time`, read as any timestamp shape.
pub open spec fn created_of_item(item: JsonV) -> Option<i64> {
    let chosen = match jv_get(item, "timestamp"@) {
        Some(t) => Some(t),
        None => jv_get(item, "create_time"@),
    };
    match chosen {
        Some(ts) => timestamp64_of(ts),
        None => None,
    }
}

/// The ordering key of a flat-array entry: its creation time, zero
/// where none is readable.
pub open spec fn item_key(item: JsonV) -> int {
    match created_of_item(item) {
        Some(t) => t as int,
        None => 0,
    }
}

/// The flat-array order: not-greater creation times.
pub open spec fn item_leq_f() -> spec_fn(JsonV, JsonV) -> bool {
    |a: JsonV, b: JsonV| item_key(a) <= item_key(b)
}

/// The messages kept from the flat `messages` array at position `i`
/// on, under the same dropping rules as the mapping.
pub open spec fn msgs_from_array(items: Seq<JsonV>, i: int, since: Option<i64>) -> Seq<MessageV>
    decreases items.len() - i,
{
    if i < 0 || i >= items.len() {
        Seq::empty()
    } else {
        let rest = msgs_from_array(items, i + 1, since);
        let item = items[i];
        let keep = role_of_item(item) != "system"@ && !is_blank(content_of_item(item))
            && passes_since(created_of_item(item), since);
        if keep {
            seq![
                MessageV {
                    idx: 0,
                    role: role_of_item(item),
                    author: None,
                    created_at: created_of_item(item),
                    content: content_of_item(item),
                    extra: item,
                },
            ] + rest
        } else {
            rest
        }
    }
}

/// The identifier of a conversation: its string `id`, else its string
/// `conversation_id` when `id` is absent, else the file stem.
pub open spec fn external_id_of(v: JsonV, source_path: Seq<char>) -> Seq<char> {
    let chosen = match jv_get(v, "id"@) {
        Some(x) => Some(x),
        None => jv_get(v, "conversation_id"@),
    };
    match chosen {
        Some(JsonV::Str(s)) => s,
        _ => stem_of(source_path),
    }
}

/// The diagnostics kept with a conversation: its source and the
/// file-level model, where one is given.
pub open spec fn chatgpt_metadata(v: JsonV) -> JsonV {
    JsonV::Obj(
        seq![
            (
                "model"@,
                match jv_get(v, "model"@) {
                    Some(JsonV::Str(m)) => JsonV::Str(m),
                    _ => JsonV::Null,
                },
            ),
            ("source"@, JsonV::Str("chatgpt_desktop"@)),
        ],
    )
}

/// What one conversation file denotes under the cut-off `since`:
/// `None` where neither the mapping nor the flat array yields a
/// message; otherwise the conversation, with dense message indices and
/// the first and last kept times. Both branches are ordered by
/// creation time before messages are kept, so the kept times ascend.
pub open spec fn chatgpt_conversation_of(
    v: JsonV,
    since: Option<i64>,
    source_path: Seq<char>,
) -> Option<ConversationV> {
    let nodes = match jv_get(v, "mapping"@) {
        Some(JsonV::Obj(pairs)) => mapping_msgs_of(pairs, 0),
        _ => Seq::empty(),
    };
    let from_mapping = msgs_from_mapping(stable_sort_by(node_leq_f(), nodes), 0, since);
    let raw = if from_mapping.len() > 0 {
        from_mapping
    } else {
        match jv_get(v, "messages"@) {
            Some(JsonV::Arr(items)) => msgs_from_array(
                stable_sort_by(item_leq_f(), items),
                0,
                since,
            ),
            _ => Seq::empty(),
        }
    };
    let msgs = with_indices(raw);
    if msgs.len() == 0 || msgs.len() >= 0x8000_0000_0000_0000 {
        None
    } else {
        Some(
            ConversationV {
                agent_slug: "chatgpt"@,
                external_id: Some(external_id_of(v, source_path)),
                title: match jv_get(v, "title"@) {
                    Some(JsonV::Str(t)) => Some(t),
                    _ => None,
                },
                workspace: None,
                source_path: source_path,
                started_at: first_created(msgs),
                ended_at: msgs.last().created_at,
                metadata: chatgpt_metadata(v),
                messages: msgs,
            },
        )
    }
}

/// Under a watermark, no kept mapping message is dated at or before
/// it: the incremental cut drops every turn the previous run already
/// covered, and only undated turns pass regardless.
pub proof fn lemma_mapping_since_respected(nodes: Seq<JsonV>, i: int, w: i64)
    ensures
        forall|k: int|
            0 <= k < msgs_from_mapping(nodes, i, Some(w)).len() ==> (match (
            #[trigger] msgs_from_mapping(nodes, i, Some(w))[k]).created_at {
                Some(t) => t > w,
                None => true,
            }),
    decreases nodes.len() - i,
{
    if 0 <= i < nodes.len() {
        lemma_mapping_since_respected(nodes, i + 1, w);
    }
}

/// Under a watermark, no kept flat-array message is dated at or
/// before it.
pub proof fn lemma_array_since_respected(items: Seq<JsonV>, i: int, w: i64)
    ensures
        forall|k: int|
            0 <= k < msgs_from_array(items, i, Some(w)).len() ==> (match (
            #[trigger] msgs_from_array(items, i, Some(w))[k]).created_at {
                Some(t) => t > w,
                None => true,
            }),
    decreases items.len() - i,
{
    if 0 <= i < items.len() {
        lemma_array_since_respected(items, i + 1, w);
    }
}

/// A mapping message's ordering key is its kept creation time, or
/// zero where it has none.
proof fn lemma_node_key_created(nd: JsonV)
    ensures
        created_of_msg(nd) matches Some(t) ==> node_key(nd) == t,
        created_of_msg(nd) is None ==> node_key(nd) == 0,
{
    if let Some(JsonV::Num(txt)) = jv_get(nd, "create_time"@) {
        crate::time::lemma_num_millis_bound(txt);
    }
}

/// Under a sorted node list, keys ascend pairwise.
proof fn lemma_nodes_key_chain(nodes: Seq<JsonV>, a: int, b: int)
    requires
        crate::sort::sorted_by(node_leq_f(), nodes),
        0 <= a <= b < nodes.len(),
    ensures
        node_key(nodes[a]) <= node_key(nodes[b]),
    decreases b - a,
{
    if a < b {
        lemma_nodes_key_chain(nodes, a, b - 1);
        assert(node_leq_f()(nodes[b - 1], nodes[b]));
    }
}

/// Every message kept from position `i` on has a key at or above a
/// bound the remaining nodes respect.
proof fn lemma_mapping_msgs_lower(nodes: Seq<JsonV>, i: int, since: Option<i64>, bound: int)
    requires
        forall|j: int| i <= j < nodes.len() ==> bound <= node_key(#[trigger] nodes[j]),
    ensures
        forall|k: int|
            0 <= k < msgs_from_mapping(nodes, i, since).len() ==> bound <= crate::model::created_key(
                #[trigger] msgs_from_mapping(nodes, i, since)[k],
            ),
    decreases nodes.len() - i,
{
    if 0 <= i < nodes.len() {
        lemma_mapping_msgs_lower(nodes, i + 1, since, bound);
        lemma_node_key_created(nodes[i]);
        let msgs = msgs_from_mapping(nodes, i, since);
        let rest = msgs_from_mapping(nodes, i + 1, since);
        assert forall|k: int|
            0 <= k < msgs.len() implies bound <= crate::model::created_key(
            #[trigger] msgs[k],
        ) by {
            if msgs.len() > rest.len() {
                if k > 0 {
                    assert(msgs[k] == rest[k - 1]);
                } else {
                    assert(crate::model::created_key(msgs[0]) == node_key(nodes[i]));
                }
            } else {
                assert(msgs[k] == rest[k]);
            }
        }
    }
}

/// Messages kept from a sorted node list keep ascending keys.
proof fn lemma_mapping_msgs_monotone(nodes: Seq<JsonV>, i: int, since: Option<i64>)
    requires
        crate::sort::sorted_by(node_leq_f(), nodes),
        0 <= i,
    ensures
        forall|a: int, b: int|
            0 <= a <= b < msgs_from_mapping(nodes, i, since).len() ==> crate::model::created_key(
                #[trigger] msgs_from_mapping(nodes, i, since)[a],
            ) <= crate::model::created_key(#[trigger] msgs_from_mapping(nodes, i, since)[b]),
    decreases nodes.len() - i,
{
    if i < nodes.len() {
        lemma_mapping_msgs_monotone(nodes, i + 1, since);
        let msgs = msgs_from_mapping(nodes, i, since);
        let rest = msgs_from_mapping(nodes, i + 1, since);
        lemma_node_key_created(nodes[i]);
        assert forall|j: int| i + 1 <= j < nodes.len() implies node_key(nodes[i]) <= node_key(
            #[trigger] nodes[j],
        ) by {
            lemma_nodes_key_chain(nodes, i, j);
        }
        lemma_mapping_msgs_lower(nodes, i + 1, since, node_key(nodes[i]));
        assert forall|a: int, b: int|
            0 <= a <= b < msgs.len() implies crate::model::created_key(#[trigger] msgs[a])
            <= crate::model::created_key(#[trigger] msgs[b]) by {
            if msgs.len() > rest.len() {
                if a > 0 {
                    assert(msgs[a] == rest[a - 1]);
                    assert(msgs[b] == rest[b - 1]);
                } else if b > 0 {
                    assert(msgs[b] == rest[b - 1]);
                }
            }
        }
    }
}

/// Under a sorted item list, keys ascend pairwise.
proof fn lemma_items_key_chain(items: Seq<JsonV>, a: int, b: int)
    requires
        crate::sort::sorted_by(item_leq_f(), items),
        0 <= a <= b < items.len(),
    ensures
        item_key(items[a]) <= item_key(items[b]),
    decreases b - a,
{
    if a < b {
        lemma_items_key_chain(items, a, b - 1);
        assert(item_leq_f()(items[b - 1], items[b]));
    }
}

/// Every message kept from position `i` on has a key at or above a
/// bound the remaining items respect.
proof fn lemma_array_msgs_lower(items: Seq<JsonV>, i: int, since: Option<i64>, bound: int)
    requires
        forall|j: int| i <= j < items.len() ==> bound <= item_key(#[trigger] items[j]),
    ensures
        forall|k: int|
            0 <= k < msgs_from_array(items, i, since).len() ==> bound <= crate::model::created_key(
                #[trigger] msgs_from_array(items, i, since)[k],
            ),
    decreases items.len() - i,
{
    if 0 <= i < items.len() {
        lemma_array_msgs_lower(items, i + 1, since, bound);
        let msgs = msgs_from_array(items, i, since);
        let rest = msgs_from_array(items, i + 1, since);
        assert forall|k: int|
            0 <= k < msgs.len() implies bound <= crate::model::created_key(
            #[trigger] msgs[k],
        ) by {
            if msgs.len() > rest.len() {
                if k > 0 {
                    assert(msgs[k] == rest[k - 1]);
                } else {
                    assert(crate::model::created_key(msgs[0]) == item_key(items[i]));
                }
            } else {
                assert(msgs[k] == rest[k]);
            }
        }
    }
}

/// Messages kept from a sorted item list keep ascending keys.
proof fn lemma_array_msgs_monotone(items: Seq<JsonV>, i: int, since: Option<i64>)
    requires
        crate::sort::sorted_by(item_leq_f(), items),
        0 <= i,
    ensures
        forall|a: int, b: int|
            0 <= a <= b < msgs_from_array(items, i, since).len() ==> crate::model::created_key(
                #[trigger] msgs_from_array(items, i, since)[a],
            ) <= crate::model::created_key(#[trigger] msgs_from_array(items, i, since)[b]),
    decreases items.len() - i,
{
    if i < items.len() {
        lemma_array_msgs_monotone(items, i + 1, since);
        let msgs = msgs_from_array(items, i, since);
        let rest = msgs_from_array(items, i + 1, since);
        assert forall|j: int| i + 1 <= j < items.len() implies item_key(items[i]) <= item_key(
            #[trigger] items[j],
        ) by {
            lemma_items_key_chain(items, i, j);
        }
        lemma_array_msgs_lower(items, i + 1, since, item_key(items[i]));
        assert forall|a: int, b: int|
            0 <= a <= b < msgs.len() implies crate::model::created_key(#[trigger] msgs[a])
            <= crate::model::created_key(#[trigger] msgs[b]) by {
            if msgs.len() > rest.len() {
                if a > 0 {
                    assert(msgs[a] == rest[a - 1]);
                    assert(msgs[b] == rest[b - 1]);
                } else if b > 0 {
                    assert(msgs[b] == rest[b - 1]);
                }
            }
        }
    }
}

/// The node order is total and transitive.
proof fn lemma_node_leq_total(leq: spec_fn(JsonV, JsonV) -> bool)
    requires
        leq == node_leq_f() || leq == item_leq_f(),
    ensures
        forall|a: JsonV, b: JsonV| #[trigger] leq(a, b) || #[trigger] leq(b, a),
        forall|a: JsonV, b: JsonV, c: JsonV|
            #![trigger leq(a, b), leq(b, c)]
            leq(a, b) && leq(b, c) ==> leq(a, c),
{
}

/// A conversation's kept times ascend: wherever both the first and the
/// last kept time are present, the start is at or before the end, in
/// the mapping branch and the flat-array branch alike.
pub proof fn lemma_chatgpt_times_ordered(v: JsonV, since: Option<i64>, source_path: Seq<char>)
    ensures
        match chatgpt_conversation_of(v, since, source_path) {
            Some(c) => (match (c.started_at, c.ended_at) {
                (Some(s0), Some(e0)) => s0 <= e0,
                _ => true,
            }),
            None => true,
        },
{
    if let Some(c) = chatgpt_conversation_of(v, since, source_path) {
        let nodes = match jv_get(v, "mapping"@) {
            Some(JsonV::Obj(pairs)) => mapping_msgs_of(pairs, 0),
            _ => Seq::empty(),
        };
        let sorted_nodes = stable_sort_by(node_leq_f(), nodes);
        let from_mapping = msgs_from_mapping(sorted_nodes, 0, since);
        let raw = if from_mapping.len() > 0 {
            from_mapping
        } else {
            match jv_get(v, "messages"@) {
                Some(JsonV::Arr(items)) => msgs_from_array(
                    stable_sort_by(item_leq_f(), items),
                    0,
                    since,
                ),
                _ => Seq::empty(),
            }
        };
        let msgs = with_indices(raw);
        assert(c.started_at == first_created(msgs));
        assert(c.ended_at == msgs.last().created_at);
        assert(forall|k: int|
            0 <= k < msgs.len() ==> (#[trigger] msgs[k]).created_at == raw[k].created_at);
        lemma_node_leq_total(node_leq_f());
        lemma_node_leq_total(item_leq_f());
        if from_mapping.len() > 0 {
            crate::sort::lemma_stable_sort_sorted(node_leq_f(), nodes);
            lemma_mapping_msgs_monotone(sorted_nodes, 0, since);
        } else {
            if let Some(JsonV::Arr(items)) = jv_get(v, "messages"@) {
                crate::sort::lemma_stable_sort_sorted(item_leq_f(), items);
                lemma_array_msgs_monotone(stable_sort_by(item_leq_f(), items), 0, since);
            }
        }
        assert(forall|a: int, b: int|
            0 <= a <= b < msgs.len() ==> crate::model::created_key(#[trigger] msgs[a])
                <= crate::model::created_key(#[trigger] msgs[b]));
        crate::model::lemma_first_le_last(msgs);
    }
}

/// Kept mapping messages are never blank.
proof fn lemma_mapping_msgs_wf(nodes: Seq<JsonV>, i: int, since: Option<i64>)
    ensures
        forall|k: int|
            0 <= k < msgs_from_mapping(nodes, i, since).len() ==> !is_blank(
                #[trigger] msgs_from_mapping(nodes, i, since)[k].content,
            ),
    decreases nodes.len() - i,
{
    if 0 <= i < nodes.len() {
        lemma_mapping_msgs_wf(nodes, i + 1, since);
    }
}

/// Kept flat-array messages are never blank.
proof fn lemma_array_msgs_wf(items: Seq<JsonV>, i: int, since: Option<i64>)
    ensures
        forall|k: int|
            0 <= k < msgs_from_array(items, i, since).len() ==> !is_blank(
                #[trigger] msgs_from_array(items, i, since)[k].content,
            ),
    decreases items.len() - i,
{
    if 0 <= i < items.len() {
        lemma_array_msgs_wf(items, i + 1, since);
    }
}

/// What a directory name under the application's root means: `None`
/// for an unrelated name, otherwise whether the conversations in it
/// are encrypted (`-v2-` and `-v3-` stores need a key and are skipped).
pub open spec fn conversation_dir_kind(name: Seq<char>) -> Option<bool> {
    if "conversations-"@.is_prefix_of(name) {
        Some(
            crate::paths::has_sub(name, "-v2-"@) || crate::paths::has_sub(name, "-v3-"@),
        )
    } else {
        None
    }
}

/// Classifies a directory name under the application's root.
pub fn classify_conversation_dir(name: &str) -> (r: Option<bool>)
    ensures
        r == conversation_dir_kind(name@),
{
    if crate::paths::str_starts_with(name, "conversations-") {
        Some(
            crate::paths::str_contains(name, "-v2-") || crate::paths::str_contains(name, "-v3-"),
        )
    } else {
        None
    }
}

pub struct ChatGptConnector;

impl ChatGptConnector {
    pub fn new() -> (r: ChatGptConnector) {
        ChatGptConnector
    }

    /// The conversation denoted by one conversation file's text,
    /// under the incremental cut-off `since_ts`: the text is decoded
    /// as JSON and read as `parse_conversation` does; text that is not
    /// JSON yields nothing, as a skipped file does.
    pub fn parse_conversation_text(
        text: &str,
        since_ts: Option<i64>,
        source_path: &str,
    ) -> (r: Option<NormalizedConversation>)
        ensures
            match crate::json::json_of(text@) {
                Some(j) => (match chatgpt_conversation_of(j, since_ts, source_path@) {
                    Some(c) => r matches Some(conv) && conv@ == c && wf_conversation(conv@),
                    None => r is None,
                }),
                None => r is None,
            },
    {
        match crate::json::parse_json(text) {
            Some(v) => Self::parse_conversation(&v, since_ts, source_path),
            None => None,
        }
    }

    /// The conversation denoted by one decoded conversation file,
    /// under the incremental cut-off `since_ts`.
    pub fn parse_conversation(
        v: &JsonValue,
        since_ts: Option<i64>,
        source_path: &str,
    ) -> (r: Option<NormalizedConversation>)
        ensures
            match chatgpt_conversation_of(v@, since_ts, source_path@) {
                Some(c) => r matches Some(conv) && conv@ == c && wf_conversation(conv@),
                None => r is None,
            },
    {
        let nodes = match v.get("mapping") {
            Some(m) => match m.as_obj() {
                Some(pairs) => collect_mapping_nodes(pairs, 0),
                None => Vec::new(),
            },
            None => Vec::new(),
        };
        proof {
            if !(jv_get(v@, "mapping"@) matches Some(JsonV::Obj(_))) {
                assert(nodes@.map_values(|x: JsonValue| x@) =~= Seq::<JsonV>::empty());
            }
        }
        let sorted = sort_nodes(nodes);
        let mut raw = mapping_msgs_exec(&sorted, 0, since_ts);
        if raw.len() == 0 {
            raw = match v.get("messages") {
                Some(m) => match m.as_arr() {
                    Some(items) => {
                        let sorted = sort_array_items(items);
                        let r = array_msgs_exec(&sorted, 0, since_ts);
                        proof {
                            assert(crate::json::elems_view(sorted@) =~= sorted@.map_values(
                                |x: JsonValue| x@,
                            ));
                            assert(crate::json::elems_view(items@) =~= items@.map_values(
                                |x: JsonValue| x@,
                            ));
                        }
                        r
                    },
                    None => Vec::new(),
                },
                None => Vec::new(),
            };
            proof {
                if !(jv_get(v@, "messages"@) matches Some(JsonV::Arr(_))) {
                    assert(raw@.map_values(|m: NormalizedMessage| m@) =~= Seq::<
                        MessageV,
                    >::empty());
                }
            }
        }
        let mut msgs = raw;
        if msgs.len() == 0 || (msgs.len() as u64) >= 0x8000_0000_0000_0000u64 {
            return None;
        }
        crate::model::reindex_messages(&mut msgs);
        let ghost msv = msgs@.map_values(|m: NormalizedMessage| m@);
        let ghost cspec = chatgpt_conversation_of(v@, since_ts, source_path@);
        proof {
            let nv = match jv_get(v@, "mapping"@) {
                Some(JsonV::Obj(pairs)) => mapping_msgs_of(pairs, 0),
                _ => Seq::empty(),
            };
            lemma_mapping_msgs_wf(stable_sort_by(node_leq_f(), nv), 0, since_ts);
            if let Some(JsonV::Arr(items)) = jv_get(v@, "messages"@) {
                lemma_array_msgs_wf(stable_sort_by(item_leq_f(), items), 0, since_ts);
            }
            assert(msv =~= cspec->Some_0.messages);
        }
        let external_id = match v.get("id") {
            Some(x) => match x.as_str() {
                Some(s) => s.to_owned(),
                None => crate::paths::file_stem(source_path),
            },
            None => match v.get("conversation_id") {
                Some(x) => match x.as_str() {
                    Some(s) => s.to_owned(),
                    None => crate::paths::file_stem(source_path),
                },
                None => crate::paths::file_stem(source_path),
            },
        };
        let title = match v.get("title") {
            Some(t) => match t.as_str() {
                Some(s) => Some(s.to_owned()),
                None => None,
            },
            None => None,
        };
        let model = match v.get("model") {
            Some(m) => match m.as_str() {
                Some(s) => JsonValue::Str(s.to_owned()),
                None => JsonValue::Null,
            },
            None => JsonValue::Null,
        };
        let mut members: Vec<JsonMember> = Vec::new();
        members.push(JsonMember { key: word_model(), value: model });
        members.push(
            JsonMember { key: word_source(), value: JsonValue::Str(word_chatgpt_desktop()) },
        );
        let metadata = JsonValue::Obj(members);
        proof {
            crate::json::lemma_obj_view(members);
            assert(crate::json::members_view(members@) =~= chatgpt_metadata(v@)->Obj_0);
        }
        let started_at = crate::model::first_created_exec(&msgs);
        let ended_at = msgs[msgs.len() - 1].created_at;
        let conv = NormalizedConversation {
            agent_slug: word_chatgpt(),
            external_id: Some(external_id),
            title,
            workspace: None,
            source_path: source_path.to_owned(),
            started_at,
            ended_at,
            metadata,
            messages: msgs,
        };
        proof {
            assert(msv.last() == cspec->Some_0.messages.last());
            assert(conv@ =~= cspec->Some_0);
        }
        Some(conv)
    }
}

/// The word `chatgpt`.
fn word_chatgpt() -> (r: String)
    ensures
        r@ == "chatgpt"@,
{
    "chatgpt".to_owned()
}

/// The word `chatgpt_desktop`.
fn word_chatgpt_desktop() -> (r: String)
    ensures
        r@ == "chatgpt_desktop"@,
{
    "chatgpt_desktop".to_owned()
}

/// The key `model`.
fn word_model() -> (r: String)
    ensures
        r@ == "model"@,
{
    "model".to_owned()
}

/// The key `source`.
fn word_source() -> (r: String)
    ensures
        r@ == "source"@,
{
    "source".to_owned()
}

/// The message values among the mapping's members, from `idx` on.
fn collect_mapping_nodes(members: &Vec<JsonMember>, idx: usize) -> (r: Vec<JsonValue>)
    requires
        idx <= members@.len(),
    ensures
        r@.map_values(|x: JsonValue| x@) == mapping_msgs_of(
            crate::json::members_view(members@),
            idx as int,
        ),
    decreases members@.len() - idx,
{
    let ghost mv = crate::json::members_view(members@);
    if idx == members.len() {
        Vec::new()
    } else {
        proof {
            assert(mv[idx as int] == (members@[idx as int].key@, crate::json::jv_of(
                members@[idx as int].value,
            )));
        }
        let mut rest = collect_mapping_nodes(members, idx + 1);
        match members[idx].value.get("message") {
            Some(m) => {
                let copied = m.deep_copy();
                rest.insert(0, copied);
                proof {
                    assert(rest@.map_values(|x: JsonValue| x@) =~= mapping_msgs_of(
                        mv,
                        idx as int,
                    ));
                }
                rest
            },
            None => rest,
        }
    }
}

/// The ordering key of one node, as a machine integer.
fn node_key_exec(v: &JsonValue) -> (r: i64)
    ensures
        r as int == node_key(v@),
{
    match v.get("create_time") {
        Some(ct) => match ct.as_num_text() {
            Some(text) => match crate::time::text_seconds_to_millis(text) {
                Some(ms) => ms,
                None => 0,
            },
            None => 0,
        },
        None => 0,
    }
}

/// The nodes ordered by `create_time`, source order kept between
/// equal keys.
fn sort_nodes(nodes: Vec<JsonValue>) -> (r: Vec<JsonValue>)
    ensures
        r@.map_values(|x: JsonValue| x@) == stable_sort_by(
            node_leq_f(),
            nodes@.map_values(|x: JsonValue| x@),
        ),
{
    let ghost leq = node_leq_f();
    let ghost input = nodes@.map_values(|x: JsonValue| x@);
    let mut out: Vec<JsonValue> = Vec::new();
    let n = nodes.len();
    let mut i: usize = 0;
    proof {
        assert(input.take(0) =~= Seq::<JsonV>::empty());
        assert(forall|a: JsonV, b: JsonV| #[trigger] leq(a, b) || #[trigger] leq(b, a));
    }
    while i < n
        invariant
            n == nodes@.len(),
            input == nodes@.map_values(|x: JsonValue| x@),
            leq == node_leq_f(),
            0 <= i <= n,
            out@.map_values(|x: JsonValue| x@) == stable_sort_by(leq, input.take(i as int)),
        decreases n - i,
    {
        let x = nodes[i].deep_copy();
        let kx = node_key_exec(&x);
        let ghost sorted_view = out@.map_values(|x: JsonValue| x@);
        let mut j: usize = out.len();
        while j > 0 && node_key_exec(&out[j - 1]) > kx
            invariant
                0 <= j <= out@.len(),
                sorted_view == out@.map_values(|x: JsonValue| x@),
                kx as int == node_key(x@),
                forall|k: int| j <= k < sorted_view.len() ==> !leq(#[trigger] sorted_view[k], x@),
                leq == node_leq_f(),
            decreases j,
        {
            j -= 1;
        }
        proof {
            crate::sort::lemma_insert_at(leq, sorted_view, x@, j as int);
        }
        out.insert(j, x);
        i += 1;
        proof {
            assert(input.take(i as int).drop_last() =~= input.take(i as int - 1));
            assert(input.take(i as int).last() == input[i as int - 1]);
            assert(out@.map_values(|y: JsonValue| y@) =~= sorted_view.take(j as int) + seq![x@]
                + sorted_view.skip(j as int));
        }
    }
    proof {
        assert(input.take(n as int) =~= input);
    }
    out
}

/// The messages kept from the ordered nodes, from `idx` on.
fn mapping_msgs_exec(nodes: &Vec<JsonValue>, idx: usize, since: Option<i64>) -> (r: Vec<
    NormalizedMessage,
>)
    requires
        idx <= nodes@.len(),
    ensures
        r@.map_values(|m: NormalizedMessage| m@) == msgs_from_mapping(
            nodes@.map_values(|x: JsonValue| x@),
            idx as int,
            since,
        ),
    decreases nodes@.len() - idx,
{
    let ghost nv = nodes@.map_values(|x: JsonValue| x@);
    if idx == nodes.len() {
        Vec::new()
    } else {
        let msg = &nodes[idx];
        let mut rest = mapping_msgs_exec(nodes, idx + 1, since);
        let role = role_exec(msg);
        let content = content_exec(msg);
        let created_at = created_exec(msg);
        let keep = !crate::json::str_eq(role.as_str(), "system") && match &content {
            Some(c) => !crate::text::blank(c.as_str()),
            None => false,
        } && match (since, created_at) {
            (Some(w), Some(t)) => t > w,
            _ => true,
        };
        if keep {
            let author = match msg.get("metadata") {
                Some(md) => match md.get("model_slug") {
                    Some(m) => match m.as_str() {
                        Some(s) => Some(s.to_owned()),
                        None => None,
                    },
                    None => None,
                },
                None => None,
            };
            let m = NormalizedMessage {
                idx: 0,
                role,
                author,
                created_at,
                content: match content {
                    Some(c) => c,
                    None => String::new(),
                },
                extra: msg.deep_copy(),
            };
            proof {
                assert(m@ =~= msgs_from_mapping(nv, idx as int, since)[0]);
            }
            rest.insert(0, m);
            proof {
                assert(rest@.map_values(|m: NormalizedMessage| m@) =~= msgs_from_mapping(
                    nv,
                    idx as int,
                    since,
                ));
            }
            rest
        } else {
            rest
        }
    }
}

/// The creation time of one mapping message.
fn created_exec(msg: &JsonValue) -> (r: Option<i64>)
    ensures
        r == created_of_msg(msg@),
{
    match msg.get("create_time") {
        Some(ct) => match ct.as_num_text() {
            Some(text) => crate::time::text_seconds_to_millis(text),
            None => None,
        },
        None => None,
    }
}

/// The role of one mapping message.
fn role_exec(msg: &JsonValue) -> (r: String)
    ensures
        r@ == role_of_msg(msg@),
{
    match msg.get("author") {
        Some(a) => match a.get("role") {
            Some(rv) => match rv.as_str() {
                Some(s) => s.to_owned(),
                None => "assistant".to_owned(),
            },
            None => "assistant".to_owned(),
        },
        None => "assistant".to_owned(),
    }
}

/// The text of one mapping message, where it has any.
fn content_exec(msg: &JsonValue) -> (r: Option<String>)
    ensures
        match content_of_msg(msg@) {
            Some(c) => r matches Some(s) && s@ == c,
            None => r is None,
        },
{
    match msg.get("content") {
        Some(c) => {
            match c.get("parts") {
                Some(p) => match p.as_arr() {
                    Some(parts) => {
                        let joined = join_parts(parts, 0);
                        Some(
                            match joined {
                                Some(s) => s,
                                None => String::new(),
                            },
                        )
                    },
                    None => text_of(c),
                },
                None => text_of(c),
            }
        },
        None => None,
    }
}

/// The `text` member of a content value, where it is a string.
fn text_of(c: &JsonValue) -> (r: Option<String>)
    ensures
        match (match jv_get(c@, "text"@) {
            Some(JsonV::Str(t)) => Some(t),
            _ => None::<Seq<char>>,
        }) {
            Some(t) => r matches Some(s) && s@ == t,
            None => r is None,
        },
{
    match c.get("text") {
        Some(t) => match t.as_str() {
            Some(s) => Some(s.to_owned()),
            None => None,
        },
        None => None,
    }
}

/// The string parts from `idx` on, joined by newlines; `None` where
/// there are none at all.
fn join_parts(parts: &Vec<JsonValue>, idx: usize) -> (r: Option<String>)
    requires
        idx <= parts@.len(),
    ensures
        ({
            let list = strs_of(crate::json::elems_view(parts@), idx as int);
            match r {
                Some(s) => list.len() > 0 && s@ == join_nl(list),
                None => list.len() == 0,
            }
        }),
    decreases parts@.len() - idx,
{
    let ghost ev = crate::json::elems_view(parts@);
    if idx == parts.len() {
        None
    } else {
        proof {
            assert(ev[idx as int] == parts@[idx as int]@);
        }
        let rest = join_parts(parts, idx + 1);
        match parts[idx].as_str() {
            Some(s) => {
                match rest {
                    Some(tail) => {
                        let mut out = s.to_owned();
                        out.append("\n");
                        out.append(tail.as_str());
                        proof {
                            reveal_strlit("\n");
                            assert("\n"@ =~= seq!['\n']);
                            let list = strs_of(ev, idx as int);
                            assert(list[0] == s@);
                            assert(list.drop_first() =~= strs_of(ev, idx as int + 1));
                            assert(out@ =~= join_nl(list));
                        }
                        Some(out)
                    },
                    None => {
                        proof {
                            let list = strs_of(ev, idx as int);
                            assert(list =~= seq![s@]);
                        }
                        Some(s.to_owned())
                    },
                }
            },
            None => rest,
        }
    }
}

/// The ordering key of one flat-array entry, as a machine integer.
fn item_key_exec(v: &JsonValue) -> (r: i64)
    ensures
        r as int == item_key(v@),
{
    let created = match v.get("timestamp") {
        Some(ts) => crate::time::parse_timestamp(ts),
        None => match v.get("create_time") {
            Some(ts) => crate::time::parse_timestamp(ts),
            None => None,
        },
    };
    match created {
        Some(t) => t,
        None => 0,
    }
}

/// The flat-array entries ordered by creation time, source order kept
/// between equal keys.
fn sort_array_items(items: &Vec<JsonValue>) -> (r: Vec<JsonValue>)
    ensures
        r@.map_values(|x: JsonValue| x@) == stable_sort_by(
            item_leq_f(),
            items@.map_values(|x: JsonValue| x@),
        ),
{
    let ghost leq = item_leq_f();
    let ghost input = items@.map_values(|x: JsonValue| x@);
    let mut out: Vec<JsonValue> = Vec::new();
    let n = items.len();
    let mut i: usize = 0;
    proof {
        assert(input.take(0) =~= Seq::<JsonV>::empty());
    }
    while i < n
        invariant
            n == items@.len(),
            input == items@.map_values(|x: JsonValue| x@),
            leq == item_leq_f(),
            0 <= i <= n,
            out@.map_values(|x: JsonValue| x@) == stable_sort_by(leq, input.take(i as int)),
        decreases n - i,
    {
        let x = items[i].deep_copy();
        let kx = item_key_exec(&x);
        let ghost sorted_view = out@.map_values(|x: JsonValue| x@);
        let mut j: usize = out.len();
        while j > 0 && item_key_exec(&out[j - 1]) > kx
            invariant
                0 <= j <= out@.len(),
                sorted_view == out@.map_values(|x: JsonValue| x@),
                kx as int == item_key(x@),
                forall|k: int| j <= k < sorted_view.len() ==> !leq(#[trigger] sorted_view[k], x@),
                leq == item_leq_f(),
            decreases j,
        {
            j -= 1;
        }
        proof {
            crate::sort::lemma_insert_at(leq, sorted_view, x@, j as int);
        }
        out.insert(j, x);
        i += 1;
        proof {
            assert(input.take(i as int).drop_last() =~= input.take(i as int - 1));
            assert(input.take(i as int).last() == input[i as int - 1]);
            assert(out@.map_values(|y: JsonValue| y@) =~= sorted_view.take(j as int) + seq![x@]
                + sorted_view.skip(j as int));
        }
    }
    proof {
        assert(input.take(n as int) =~= input);
    }
    out
}

/// The messages kept from the flat array, from `idx` on.
fn array_msgs_exec(items: &Vec<JsonValue>, idx: usize, since: Option<i64>) -> (r: Vec<
    NormalizedMessage,
>)
    requires
        idx <= items@.len(),
    ensures
        r@.map_values(|m: NormalizedMessage| m@) == msgs_from_array(
            crate::json::elems_view(items@),
            idx as int,
            since,
        ),
    decreases items@.len() - idx,
{
    let ghost ev = crate::json::elems_view(items@);
    if idx == items.len() {
        Vec::new()
    } else {
        proof {
            assert(ev[idx as int] == items@[idx as int]@);
        }
        let item = &items[idx];
        let mut rest = array_msgs_exec(items, idx + 1, since);
        let role = match item.get("role") {
            Some(rv) => match rv.as_str() {
                Some(s) => s.to_owned(),
                None => "assistant".to_owned(),
            },
            None => "assistant".to_owned(),
        };
        let content = match item.get("content") {
            Some(cv) => match cv.as_str() {
                Some(s) => s.to_owned(),
                None => String::new(),
            },
            None => String::new(),
        };
        let created_at = match item.get("timestamp") {
            Some(ts) => crate::time::parse_timestamp(ts),
            None => match item.get("create_time") {
                Some(ts) => crate::time::parse_timestamp(ts),
                None => None,
            },
        };
        let keep = !crate::json::str_eq(role.as_str(), "system") && !crate::text::blank(
            content.as_str(),
        ) && match (since, created_at) {
            (Some(w), Some(t)) => t > w,
            _ => true,
        };
        if keep {
            let m = NormalizedMessage {
                idx: 0,
                role,
                author: None,
                created_at,
                content,
                extra: item.deep_copy(),
            };
            proof {
                assert(m@ =~= msgs_from_array(ev, idx as int, since)[0]);
            }
            rest.insert(0, m);
            proof {
                assert(rest@.map_values(|m: NormalizedMessage| m@) =~= msgs_from_array(
                    ev,
                    idx as int,
                    since,
                ));
            }
            rest
        } else {
            rest
        }
    }
}

} // verus!
