//! The OpenCode connector.
//!
//! OpenCode spreads one session over many JSON files: a session record,
//! one file per message, and one file per part, the parts carrying the
//! actual text, tool calls, patches and attachments. The surrounding
//! binary walks the storage tree and hands the decoded values in here:
//! one session value, and for each message its value and its part
//! values. Messages are ordered by creation time, parts by identifier;
//! a record without its required string fields is dropped, as an
//! undecodable file would be.

use vstd::prelude::*;
use crate::json::{jv_get, JsonMember, JsonV, JsonValue};
use crate::model::{
    with_indices, wf_conversation, ConversationV, MessageV, NormalizedConversation,
    NormalizedMessage,
};
use crate::sort::stable_sort_by;
use crate::text::{is_blank, join_nl, join_parts_exec, lex_leq, truncated_text, utf8_len_from};
use crate::time::strict_int;

verus! {

/// The byte budget for a tool command echoed into content.
pub const COMMAND_BUDGET: i64 = 100;

/// The largest tool output, in bytes, echoed into content whole.
pub const OUTPUT_LIMIT: i64 = 500;

/// The string member of `v` named `key`, where it is one.
pub open spec fn opt_str(v: JsonV, key: Seq<char>) -> Option<Seq<char>> {
    match jv_get(v, key) {
        Some(JsonV::Str(s)) => Some(s),
        _ => None,
    }
}

/// The integer member of `v` named `key`, where it is a plain integer.
pub open spec fn opt_int(v: JsonV, key: Seq<char>) -> Option<i64> {
    match jv_get(v, key) {
        Some(JsonV::Num(s)) => match strict_int(s) {
            Some(t) => Some(t as i64),
            None => None,
        },
        _ => None,
    }
}

/// The field named `sub` of the `time` member of `v`.
pub open spec fn time_field(v: JsonV, sub: Seq<char>) -> Option<i64> {
    match jv_get(v, "time"@) {
        Some(t) => opt_int(t, sub),
        None => None,
    }
}

/// Whether a message record carries its required fields: `id`,
/// `sessionID` and `role`, all strings.
pub open spec fn valid_msg(m: JsonV) -> bool {
    opt_str(m, "id"@) is Some && opt_str(m, "sessionID"@) is Some && opt_str(m, "role"@) is Some
}

/// Whether a part record carries its required fields.
pub open spec fn valid_part(p: JsonV) -> bool {
    opt_str(p, "id"@) is Some && opt_str(p, "sessionID"@) is Some && opt_str(p, "messageID"@)
        is Some && opt_str(p, "type"@) is Some
}

/// Whether a session record carries its required fields.
pub open spec fn valid_session(s: JsonV) -> bool {
    opt_str(s, "id"@) is Some && opt_str(s, "projectID"@) is Some
}

/// The part order: by identifier, in character order.
pub open spec fn part_leq_f() -> spec_fn(JsonV, JsonV) -> bool {
    |a: JsonV, b: JsonV| lex_leq(part_id(a), part_id(b))
}

/// The identifier of a part, empty where it has none.
pub open spec fn part_id(p: JsonV) -> Seq<char> {
    match opt_str(p, "id"@) {
        Some(id) => id,
        None => Seq::empty(),
    }
}

/// The valid parts among `items`, from position `i` on.
pub open spec fn valid_parts(items: Seq<JsonV>, i: int) -> Seq<JsonV>
    decreases items.len() - i,
{
    if i < 0 || i >= items.len() {
        Seq::empty()
    } else {
        let rest = valid_parts(items, i + 1);
        if valid_part(items[i]) {
            seq![items[i]] + rest
        } else {
            rest
        }
    }
}

/// The describing line of a tool part: the tool's name with its title,
/// description, file path or clipped command, and its short output.
pub open spec fn tool_fragment(p: JsonV) -> Seq<char> {
    let name = match opt_str(p, "tool"@) {
        Some(n) => n,
        None => "unknown"@,
    };
    let base = match jv_get(p, "state"@) {
        Some(st) => match opt_str(st, "title"@) {
            Some(t) => "[Tool: "@ + name + " - "@ + t + "]"@,
            None => match jv_get(st, "input"@) {
                Some(input) => match opt_str(input, "description"@) {
                    Some(d) => "[Tool: "@ + name + " - "@ + d + "]"@,
                    None => match opt_str(input, "filePath"@) {
                        Some(fp) => "[Tool: "@ + name + " - "@ + fp + "]"@,
                        None => match opt_str(input, "command"@) {
                            Some(cmd) => "[Tool: "@ + name + " - "@ + truncated_text(
                                cmd,
                                COMMAND_BUDGET as int,
                                "..."@,
                            ) + "]"@,
                            None => "[Tool: "@ + name + "]"@,
                        },
                    },
                },
                None => "[Tool: "@ + name + "]"@,
            },
        },
        None => "[Tool: "@ + name + "]"@,
    };
    match jv_get(p, "state"@) {
        Some(st) => match opt_str(st, "output"@) {
            Some(o) => if o.len() > 0 && utf8_len_from(o, 0) < OUTPUT_LIMIT {
                base + seq!['\n'] + o
            } else {
                base
            },
            None => base,
        },
        None => base,
    }
}

/// The strings among `items`, joined with a comma and a space.
pub open spec fn file_list(items: Seq<JsonV>, i: int) -> Seq<char>
    decreases items.len() - i,
{
    if i < 0 || i >= items.len() {
        Seq::empty()
    } else {
        let rest = file_list(items, i + 1);
        match items[i] {
            JsonV::Str(f) => if rest.len() == 0 && i + 1 >= items.len() {
                f
            } else {
                f + ", "@ + rest
            },
            _ => rest,
        }
    }
}

/// The content fragments of one part, by its type.
pub open spec fn part_fragments(p: JsonV) -> Seq<Seq<char>> {
    let ty = match opt_str(p, "type"@) {
        Some(t) => t,
        None => Seq::empty(),
    };
    if ty == "text"@ {
        match opt_str(p, "text"@) {
            Some(t) => if t.len() > 0 {
                seq![t]
            } else {
                Seq::empty()
            },
            None => Seq::empty(),
        }
    } else if ty == "reasoning"@ {
        match opt_str(p, "text"@) {
            Some(t) => if t.len() > 0 {
                seq!["[Reasoning]\n"@ + t]
            } else {
                Seq::empty()
            },
            None => Seq::empty(),
        }
    } else if ty == "tool"@ {
        seq![tool_fragment(p)]
    } else if ty == "patch"@ {
        match jv_get(p, "files"@) {
            Some(JsonV::Arr(fs)) => seq!["[Patch: "@ + file_list(fs, 0) + "]"@],
            _ => Seq::empty(),
        }
    } else if ty == "file"@ {
        match opt_str(p, "filename"@) {
            Some(f) => seq!["[File: "@ + f + "]"@],
            None => Seq::empty(),
        }
    } else {
        Seq::empty()
    }
}

/// The content fragments of the parts from position `i` on.
pub open spec fn parts_fragments(parts: Seq<JsonV>, i: int) -> Seq<Seq<char>>
    decreases parts.len() - i,
{
    if i < 0 || i >= parts.len() {
        Seq::empty()
    } else {
        part_fragments(parts[i]) + parts_fragments(parts, i + 1)
    }
}

/// The `body` of a message's summary, where the summary is an object.
pub open spec fn summary_body(m: JsonV) -> Option<Seq<char>> {
    match jv_get(m, "summary"@) {
        Some(s) => opt_str(s, "body"@),
        None => None,
    }
}

/// The `title` of a message's summary, where the summary is an object.
pub open spec fn summary_title(m: JsonV) -> Option<Seq<char>> {
    match jv_get(m, "summary"@) {
        Some(s) => opt_str(s, "title"@),
        None => None,
    }
}

/// The content of a message: its parts' fragments joined by newlines,
/// with a user message's summary body put first.
pub open spec fn msg_content(m: JsonV, parts: Seq<JsonV>) -> Seq<char> {
    let c0 = join_nl(parts_fragments(parts, 0));
    let body = if opt_str(m, "role"@) == Some("user"@) {
        summary_body(m)
    } else {
        None
    };
    match body {
        Some(b) => if b.len() == 0 {
            c0
        } else if c0.len() == 0 {
            b
        } else {
            b + "\n\n"@ + c0
        },
        None => c0,
    }
}

/// The author of a message: its `modelID`, else its `model.modelID`,
/// else its `agent`.
pub open spec fn author_of(m: JsonV) -> Option<Seq<char>> {
    match opt_str(m, "modelID"@) {
        Some(a) => Some(a),
        None => match jv_get(m, "model"@) {
            Some(model) => match opt_str(model, "modelID"@) {
                Some(a) => Some(a),
                None => opt_str(m, "agent"@),
            },
            None => opt_str(m, "agent"@),
        },
    }
}

/// A one-member list holding (`key`, the string member `from` of `m`),
/// where that member exists.
pub open spec fn str_frag(m: JsonV, from: Seq<char>, key: Seq<char>) -> Seq<(Seq<char>, JsonV)> {
    match opt_str(m, from) {
        Some(s) => seq![(key, JsonV::Str(s))],
        None => Seq::empty(),
    }
}

/// The token counts kept with a message, nulls standing in for absent
/// ones.
pub open spec fn tokens_frag(m: JsonV) -> Seq<(Seq<char>, JsonV)> {
    match jv_get(m, "tokens"@) {
        Some(tk) => seq![
            (
                "tokens"@,
                JsonV::Obj(
                    seq![
                        ("input"@, num_or_null(tk, "input"@)),
                        ("output"@, num_or_null(tk, "output"@)),
                        ("reasoning"@, num_or_null(tk, "reasoning"@)),
                    ],
                ),
            ),
        ],
        None => Seq::empty(),
    }
}

/// The numeric member of `v` named `key`, or null.
pub open spec fn num_or_null(v: JsonV, key: Seq<char>) -> JsonV {
    match jv_get(v, key) {
        Some(JsonV::Num(t)) => JsonV::Num(t),
        _ => JsonV::Null,
    }
}

/// The per-source details kept with a message: provider, mode, cost,
/// token counts, finish reason and parent, where present.
pub open spec fn extra_of(m: JsonV) -> JsonV {
    JsonV::Obj(
        (match jv_get(m, "cost"@) {
            Some(JsonV::Num(t)) => seq![("cost"@, JsonV::Num(t))],
            _ => Seq::empty(),
        }) + str_frag(m, "finish"@, "finish"@) + str_frag(m, "mode"@, "mode"@) + str_frag(
            m,
            "parentID"@,
            "parent_id"@,
        ) + str_frag(m, "providerID"@, "provider"@) + tokens_frag(m),
    )
}

/// The message order: by creation time, missing times first.
pub open spec fn msg_leq_f() -> spec_fn((JsonV, Seq<JsonV>), (JsonV, Seq<JsonV>)) -> bool {
    |a: (JsonV, Seq<JsonV>), b: (JsonV, Seq<JsonV>)| msg_key(a.0) <= msg_key(b.0)
}

/// The ordering key of a message: its creation time, zero where none
/// is readable.
pub open spec fn msg_key(m: JsonV) -> int {
    match time_field(m, "created"@) {
        Some(t) => t as int,
        None => 0,
    }
}

/// The valid messages among `ms`, each paired with its valid parts in
/// identifier order.
pub open spec fn prepared_pairs(ms: Seq<(JsonV, Seq<JsonV>)>, i: int) -> Seq<(JsonV, Seq<JsonV>)>
    decreases ms.len() - i,
{
    if i < 0 || i >= ms.len() {
        Seq::empty()
    } else {
        let rest = prepared_pairs(ms, i + 1);
        if valid_msg(ms[i].0) {
            seq![(ms[i].0, stable_sort_by(part_leq_f(), valid_parts(ms[i].1, 0)))] + rest
        } else {
            rest
        }
    }
}

/// Whether a message with creation time `created` survives the
/// cut-off `since`: with a watermark set, only dated, newer messages
/// stay.
pub open spec fn oc_passes_since(created: Option<i64>, since: Option<i64>) -> bool {
    match since {
        Some(w) => created matches Some(t) && t > w,
        None => true,
    }
}

/// The messages kept from the ordered pairs at position `i` on, blank
/// content and messages at or before `since` dropped; indices are
/// assigned afterwards.
pub open spec fn oc_msgs(pairs: Seq<(JsonV, Seq<JsonV>)>, i: int, since: Option<i64>) -> Seq<
    MessageV,
>
    decreases pairs.len() - i,
{
    if i < 0 || i >= pairs.len() {
        Seq::empty()
    } else {
        let rest = oc_msgs(pairs, i + 1, since);
        let m = pairs[i].0;
        let content = msg_content(m, pairs[i].1);
        let created = time_field(m, "created"@);
        if is_blank(content) || !oc_passes_since(created, since) {
            rest
        } else {
            seq![
                MessageV {
                    idx: 0,
                    role: match opt_str(m, "role"@) {
                        Some(rr) => rr,
                        None => Seq::empty(),
                    },
                    author: author_of(m),
                    created_at: created,
                    content: content,
                    extra: extra_of(m),
                },
            ] + rest
        }
    }
}

/// The first summary title among the ordered pairs, from `i` on.
pub open spec fn first_summary_title(pairs: Seq<(JsonV, Seq<JsonV>)>, i: int) -> Option<Seq<char>>
    decreases pairs.len() - i,
{
    if i < 0 || i >= pairs.len() {
        None
    } else {
        match summary_title(pairs[i].0) {
            Some(t) => Some(t),
            None => first_summary_title(pairs, i + 1),
        }
    }
}

/// The member (`key`, string-or-null `from` of `v`).
pub open spec fn str_or_null(v: JsonV, from: Seq<char>, key: Seq<char>) -> (Seq<char>, JsonV) {
    match opt_str(v, from) {
        Some(s) => (key, JsonV::Str(s)),
        None => (key, JsonV::Null),
    }
}

/// The diagnostics kept with a session: its identifiers, version,
/// parent, and change summary.
pub open spec fn oc_metadata(s: JsonV) -> JsonV {
    JsonV::Obj(
        seq![
            str_or_null(s, "parentID"@, "parent_session"@),
            str_or_null(s, "projectID"@, "project_id"@),
            str_or_null(s, "id"@, "session_id"@),
            (
                "summary"@,
                match jv_get(s, "summary"@) {
                    Some(sm) => JsonV::Obj(
                        seq![
                            ("additions"@, num_or_null(sm, "additions"@)),
                            ("deletions"@, num_or_null(sm, "deletions"@)),
                            ("files"@, num_or_null(sm, "files"@)),
                        ],
                    ),
                    None => JsonV::Null,
                },
            ),
            str_or_null(s, "version"@, "version"@),
        ],
    )
}

/// What one session denotes, given its decoded record, its path, its
/// decoded messages each with their decoded parts, and the cut-off:
/// `None` where the session lacks its required fields or no message
/// survives; otherwise the conversation, messages in time order with
/// dense indices.
pub open spec fn oc_conversation_of(
    session: JsonV,
    path: Seq<char>,
    ms: Seq<(JsonV, Seq<JsonV>)>,
    since: Option<i64>,
) -> Option<ConversationV> {
    if !valid_session(session) {
        None
    } else {
        let sorted = stable_sort_by(msg_leq_f(), prepared_pairs(ms, 0));
        let msgs = with_indices(oc_msgs(sorted, 0, since));
        if msgs.len() == 0 || msgs.len() >= 0x8000_0000_0000_0000 {
            None
        } else {
            Some(
                ConversationV {
                    agent_slug: "opencode"@,
                    external_id: Some(opt_str(session, "id"@)->Some_0),
                    title: match opt_str(session, "title"@) {
                        Some(t) => Some(t),
                        None => first_summary_title(sorted, 0),
                    },
                    workspace: opt_str(session, "directory"@),
                    source_path: path,
                    started_at: match time_field(session, "created"@) {
                        Some(t) => Some(t),
                        None => msgs[0].created_at,
                    },
                    ended_at: match time_field(session, "updated"@) {
                        Some(t) => Some(t),
                        None => match time_field(session, "completed"@) {
                            Some(t) => Some(t),
                            None => msgs.last().created_at,
                        },
                    },
                    metadata: oc_metadata(session),
                    messages: msgs,
                },
            )
        }
    }
}

/// Under a watermark, every kept message is dated strictly after it:
/// the incremental cut drops both covered and undated messages.
pub proof fn lemma_oc_since_respected(pairs: Seq<(JsonV, Seq<JsonV>)>, i: int, w: i64)
    ensures
        forall|k: int|
            0 <= k < oc_msgs(pairs, i, Some(w)).len() ==> ((#[trigger] oc_msgs(
                pairs,
                i,
                Some(w),
            )[k]).created_at matches Some(t) && t > w),
    decreases pairs.len() - i,
{
    if 0 <= i < pairs.len() {
        lemma_oc_since_respected(pairs, i + 1, w);
    }
}

/// Kept messages are never blank.
proof fn lemma_oc_msgs_wf(pairs: Seq<(JsonV, Seq<JsonV>)>, i: int, since: Option<i64>)
    ensures
        forall|k: int|
            0 <= k < oc_msgs(pairs, i, since).len() ==> !is_blank(
                #[trigger] oc_msgs(pairs, i, since)[k].content,
            ),
    decreases pairs.len() - i,
{
    if 0 <= i < pairs.len() {
        lemma_oc_msgs_wf(pairs, i + 1, since);
    }
}

/// The storage directories worth probing, in probe order.
pub open spec fn candidate_dirs(
    xdg_data_home: Option<Seq<char>>,
    home: Option<Seq<char>>,
    data_dir: Option<Seq<char>>,
) -> Seq<Seq<char>> {
    (match xdg_data_home {
        Some(x) => seq![x + "/opencode/storage"@],
        None => Seq::empty(),
    }) + (match home {
        Some(h) => seq![h + "/.local/share/opencode/storage"@],
        None => Seq::empty(),
    }) + (match data_dir {
        Some(d) => seq![d + "/opencode/storage"@],
        None => Seq::empty(),
    }) + (match home {
        Some(h) => seq![h + "/.opencode/storage"@],
        None => Seq::empty(),
    })
}

/// A concatenation ends in its second half.
proof fn lemma_concat_suffix(a: Seq<char>, b: Seq<char>)
    ensures
        b.is_suffix_of(a + b),
{
    assert(b =~= (a + b).subrange(a.len() as int, (a.len() + b.len()) as int));
}

/// A suffix of the second half is a suffix of the concatenation.
proof fn lemma_suffix_of_concat(a: Seq<char>, b: Seq<char>, s: Seq<char>)
    requires
        s.is_suffix_of(b),
    ensures
        s.is_suffix_of(a + b),
{
    assert(s =~= (a + b).subrange(
        (a.len() + b.len() - s.len()) as int,
        (a.len() + b.len()) as int,
    ));
}

pub struct OpenCodeConnector;

impl OpenCodeConnector {
    pub fn new() -> (r: OpenCodeConnector) {
        OpenCodeConnector
    }

    /// The storage directories worth probing, under the given
    /// environment: the XDG data home, the home directory's local
    /// share, the platform data directory, and a legacy dot directory.
    pub fn dir_candidates(
        xdg_data_home: Option<&str>,
        home: Option<&str>,
        data_dir: Option<&str>,
    ) -> (r: Vec<String>)
        ensures
            r@.map_values(|t: String| t@) == candidate_dirs(
                match xdg_data_home {
                    Some(x) => Some(x@),
                    None => None,
                },
                match home {
                    Some(h) => Some(h@),
                    None => None,
                },
                match data_dir {
                    Some(d) => Some(d@),
                    None => None,
                },
            ),
            xdg_data_home matches Some(x) ==> r@.len() >= 1 && r@[0]@ == x@
                + "/opencode/storage"@,
            forall|k: int|
                0 <= k < r@.len() ==> "/opencode/storage"@.is_suffix_of((#[trigger] r@[k])@)
                    || "/.opencode/storage"@.is_suffix_of(r@[k]@),
    {
        let mut out: Vec<String> = Vec::new();
        proof {
            reveal_strlit("/opencode/storage");
            reveal_strlit("/.local/share/opencode/storage");
            reveal_strlit("/.opencode/storage");
        }
        if let Some(x) = xdg_data_home {
            let mut p = x.to_owned();
            p.append("/opencode/storage");
            out.push(p);
        }
        if let Some(h) = home {
            let mut p = h.to_owned();
            p.append("/.local/share/opencode/storage");
            out.push(p);
        }
        if let Some(d) = data_dir {
            let mut p = d.to_owned();
            p.append("/opencode/storage");
            out.push(p);
        }
        if let Some(h) = home {
            let mut p = h.to_owned();
            p.append("/.opencode/storage");
            out.push(p);
        }
        proof {
            assert forall|k: int|
                0 <= k < out@.len() implies "/opencode/storage"@.is_suffix_of(
                (#[trigger] out@[k])@,
            ) || "/.opencode/storage"@.is_suffix_of(out@[k]@) by {
                if let Some(x) = xdg_data_home {
                    lemma_concat_suffix(x@, "/opencode/storage"@);
                }
                if let Some(h) = home {
                    assert("/opencode/storage"@.is_suffix_of("/.local/share/opencode/storage"@));
                    lemma_suffix_of_concat(h@, "/.local/share/opencode/storage"@,
                        "/opencode/storage"@);
                    lemma_concat_suffix(h@, "/.opencode/storage"@);
                }
                if let Some(d) = data_dir {
                    lemma_concat_suffix(d@, "/opencode/storage"@);
                }
            }
            assert(out@.map_values(|t: String| t@) =~= candidate_dirs(
                match xdg_data_home {
                    Some(x) => Some(x@),
                    None => None,
                },
                match home {
                    Some(h) => Some(h@),
                    None => None,
                },
                match data_dir {
                    Some(d) => Some(d@),
                    None => None,
                },
            ));
        }
        out
    }

    /// The storage directories worth probing, with the home and
    /// platform data directories taken from the platform itself. What
    /// holds of every environment: the XDG entry always leads, every
    /// entry is an `opencode/storage` or `.opencode/storage` path, and
    /// with a home directory at hand there is something to probe.
    pub fn default_dir_candidates(xdg_data_home: Option<&str>) -> (r: Vec<String>)
        ensures
            r@.len() <= 4,
            xdg_data_home matches Some(x) ==> r@.len() >= 1 && r@[0]@ == x@
                + "/opencode/storage"@,
            forall|k: int|
                0 <= k < r@.len() ==> "/opencode/storage"@.is_suffix_of((#[trigger] r@[k])@)
                    || "/.opencode/storage"@.is_suffix_of(r@[k]@),
    {
        let home = crate::home_dir();
        let data = crate::data_dir();
        let ghost xv = match xdg_data_home {
            Some(x) => Some(x@),
            None => None::<Seq<char>>,
        };
        let r = match (&home, &data) {
            (Some(h), Some(d)) => Self::dir_candidates(
                xdg_data_home,
                Some(h.as_str()),
                Some(d.as_str()),
            ),
            (Some(h), None) => Self::dir_candidates(xdg_data_home, Some(h.as_str()), None),
            (None, Some(d)) => Self::dir_candidates(xdg_data_home, None, Some(d.as_str())),
            (None, None) => Self::dir_candidates(xdg_data_home, None, None),
        };
        proof {
            assert(r@.len() == r@.map_values(|t: String| t@).len());
        }
        r
    }

    /// The conversation denoted by one session: its decoded record,
    /// its path, its decoded messages each with their decoded parts,
    /// under the cut-off `since_ts`.
    pub fn normalize_session(
        session: &JsonValue,
        source_path: &str,
        messages: Vec<(JsonValue, Vec<JsonValue>)>,
        since_ts: Option<i64>,
    ) -> (r: Option<NormalizedConversation>)
        ensures
            match oc_conversation_of(
                session@,
                source_path@,
                messages@.map_values(
                    |p: (JsonValue, Vec<JsonValue>)|
                        (p.0@, crate::json::elems_view(p.1@)),
                ),
                since_ts,
            ) {
                Some(c) => r matches Some(conv) && conv@ == c && wf_conversation(conv@),
                None => r is None,
            },
    {
        let ghost msv0 = messages@.map_values(
            |p: (JsonValue, Vec<JsonValue>)| (p.0@, crate::json::elems_view(p.1@)),
        );
        let session_id = match session.get("id") {
            Some(x) => match x.as_str() {
                Some(s) => s.to_owned(),
                None => {
                    return None;
                },
            },
            None => {
                return None;
            },
        };
        match session.get("projectID") {
            Some(x) => match x.as_str() {
                Some(_) => {},
                None => {
                    return None;
                },
            },
            None => {
                return None;
            },
        };
        let prepared = prepare_pairs(messages);
        proof {
            assert(prepared@.map_values(
                |p: (JsonValue, Vec<JsonValue>)| (p.0@, crate::json::elems_view(p.1@)),
            ) =~= prepared_pairs(msv0, 0));
        }
        let sorted = sort_pairs(prepared);
        let ghost sortedv = stable_sort_by(msg_leq_f(), prepared_pairs(msv0, 0));
        let mut msgs = normalize_msgs(&sorted, 0, since_ts);
        if msgs.len() == 0 || (msgs.len() as u64) >= 0x8000_0000_0000_0000u64 {
            return None;
        }
        crate::model::reindex_messages(&mut msgs);
        let ghost msgv = msgs@.map_values(|m: NormalizedMessage| m@);
        proof {
            lemma_oc_msgs_wf(sortedv, 0, since_ts);
            assert(msgv =~= with_indices(oc_msgs(sortedv, 0, since_ts)));
        }
        let title = match session.get("title") {
            Some(t) => match t.as_str() {
                Some(s) => Some(s.to_owned()),
                None => find_summary_title(&sorted, 0),
            },
            None => find_summary_title(&sorted, 0),
        };
        let workspace = match session.get("directory") {
            Some(d) => match d.as_str() {
                Some(s) => Some(s.to_owned()),
                None => None,
            },
            None => None,
        };
        let started_at = match time_field_exec(session, "created") {
            Some(t) => Some(t),
            None => msgs[0].created_at,
        };
        let ended_at = match time_field_exec(session, "updated") {
            Some(t) => Some(t),
            None => match time_field_exec(session, "completed") {
                Some(t) => Some(t),
                None => msgs[msgs.len() - 1].created_at,
            },
        };
        let metadata = build_metadata(session);
        let conv = NormalizedConversation {
            agent_slug: word_opencode(),
            external_id: Some(session_id),
            title,
            workspace,
            source_path: source_path.to_owned(),
            started_at,
            ended_at,
            metadata,
            messages: msgs,
        };
        proof {
            let cspec = oc_conversation_of(session@, source_path@, msv0, since_ts);
            assert(msgv.last() == cspec->Some_0.messages.last());
            assert(conv@ =~= cspec->Some_0);
        }
        Some(conv)
    }
}

/// The view of a borrowed value.
pub open spec fn jv_of_ref(v: &JsonValue) -> JsonV {
    crate::json::jv_of(*v)
}

/// The word `opencode`.
fn word_opencode() -> (r: String)
    ensures
        r@ == "opencode"@,
{
    "opencode".to_owned()
}

/// The string member of `v` named `key`, where it is one.
fn opt_str_exec(v: &JsonValue, key: &str) -> (r: Option<String>)
    ensures
        match opt_str(v@, key@) {
            Some(s) => r matches Some(found) && found@ == s,
            None => r is None,
        },
{
    match v.get(key) {
        Some(x) => match x.as_str() {
            Some(s) => Some(s.to_owned()),
            None => None,
        },
        None => None,
    }
}

/// The field named `sub` of the `time` member of `v`.
fn time_field_exec(v: &JsonValue, sub: &str) -> (r: Option<i64>)
    ensures
        r == time_field(v@, sub@),
{
    match v.get("time") {
        Some(t) => match t.get(sub) {
            Some(x) => match x.as_num_text() {
                Some(text) => crate::time::strict_int_exec(text),
                None => None,
            },
            None => None,
        },
        None => None,
    }
}

/// Whether `m` carries the required message fields.
fn valid_msg_exec(m: &JsonValue) -> (r: bool)
    ensures
        r == valid_msg(m@),
{
    let a = opt_str_exec(m, "id");
    let b = opt_str_exec(m, "sessionID");
    let c = opt_str_exec(m, "role");
    a.is_some() && b.is_some() && c.is_some()
}

/// Whether `p` carries the required part fields.
fn valid_part_exec(p: &JsonValue) -> (r: bool)
    ensures
        r == valid_part(p@),
{
    let a = opt_str_exec(p, "id");
    let b = opt_str_exec(p, "sessionID");
    let c = opt_str_exec(p, "messageID");
    let d = opt_str_exec(p, "type");
    a.is_some() && b.is_some() && c.is_some() && d.is_some()
}

/// The valid messages, each with its valid parts in identifier order.
fn prepare_pairs(messages: Vec<(JsonValue, Vec<JsonValue>)>) -> (r: Vec<(JsonValue, Vec<JsonValue>)>)
    ensures
        r@.map_values(|p: (JsonValue, Vec<JsonValue>)| (p.0@, crate::json::elems_view(p.1@)))
            == prepared_pairs(
            messages@.map_values(
                |p: (JsonValue, Vec<JsonValue>)| (p.0@, crate::json::elems_view(p.1@)),
            ),
            0,
        ),
{
    let ghost msv0 = messages@.map_values(
        |p: (JsonValue, Vec<JsonValue>)| (p.0@, crate::json::elems_view(p.1@)),
    );
    let mut rest = messages;
    let mut out: Vec<(JsonValue, Vec<JsonValue>)> = Vec::new();
    let ghost taken = 0int;
    let mut i: usize = 0;
    proof {
        assert(msv0.skip(0) =~= msv0);
    }
    while rest.len() > 0
        invariant
            prepared_pairs(msv0, 0) == out@.map_values(
                |p: (JsonValue, Vec<JsonValue>)| (p.0@, crate::json::elems_view(p.1@)),
            ) + prepared_pairs(
                rest@.map_values(
                    |p: (JsonValue, Vec<JsonValue>)| (p.0@, crate::json::elems_view(p.1@)),
                ),
                0,
            ),
        decreases rest@.len(),
    {
        let ghost restv = rest@.map_values(
            |p: (JsonValue, Vec<JsonValue>)| (p.0@, crate::json::elems_view(p.1@)),
        );
        let (m, parts) = rest.remove(0);
        proof {
            assert(restv[0] == (m@, crate::json::elems_view(parts@)));
            assert(restv.drop_first() =~= rest@.map_values(
                |p: (JsonValue, Vec<JsonValue>)| (p.0@, crate::json::elems_view(p.1@)),
            ));
            lemma_prepared_step(restv);
        }
        if valid_msg_exec(&m) {
            let kept = filter_parts(parts);
            let sorted = sort_parts(kept);
            let ghost prev = out@.map_values(
                |p: (JsonValue, Vec<JsonValue>)| (p.0@, crate::json::elems_view(p.1@)),
            );
            proof {
                assert(crate::json::elems_view(sorted@) =~= stable_sort_by(
                    part_leq_f(),
                    valid_parts(restv[0].1, 0),
                )) by {
                    assert(crate::json::elems_view(sorted@) =~= sorted@.map_values(
                        |x: JsonValue| x@,
                    ));
                    assert(crate::json::elems_view(kept@) =~= kept@.map_values(
                        |x: JsonValue| x@,
                    ));
                    assert(kept@.map_values(|x: JsonValue| x@) =~= valid_parts(
                        crate::json::elems_view(parts@),
                        0,
                    ));
                }
            }
            out.push((m, sorted));
            proof {
                assert(out@.map_values(
                    |p: (JsonValue, Vec<JsonValue>)| (p.0@, crate::json::elems_view(p.1@)),
                ) =~= prev + seq![
                    (restv[0].0, stable_sort_by(part_leq_f(), valid_parts(restv[0].1, 0)))]);
            }
        }
    }
    proof {
        assert(prepared_pairs(
            rest@.map_values(
                |p: (JsonValue, Vec<JsonValue>)| (p.0@, crate::json::elems_view(p.1@)),
            ),
            0,
        ) =~= Seq::<(JsonV, Seq<JsonV>)>::empty());
        assert(out@.map_values(
            |p: (JsonValue, Vec<JsonValue>)| (p.0@, crate::json::elems_view(p.1@)),
        ) =~= prepared_pairs(msv0, 0));
    }
    out
}

/// One step of `prepared_pairs`: the head decides, the tail follows.
proof fn lemma_prepared_step(ms: Seq<(JsonV, Seq<JsonV>)>)
    requires
        ms.len() > 0,
    ensures
        prepared_pairs(ms, 0) == (if valid_msg(ms[0].0) {
            seq![(ms[0].0, stable_sort_by(part_leq_f(), valid_parts(ms[0].1, 0)))]
        } else {
            Seq::empty()
        }) + prepared_pairs(ms.drop_first(), 0),
{
    lemma_prepared_shift_from(ms, 1);
}

/// The shifted runs agree at every offset.
proof fn lemma_prepared_shift_from(ms: Seq<(JsonV, Seq<JsonV>)>, i: int)
    requires
        1 <= i <= ms.len(),
    ensures
        prepared_pairs(ms, i) == prepared_pairs(ms.drop_first(), i - 1),
    decreases ms.len() - i,
{
    if i < ms.len() {
        lemma_prepared_shift_from(ms, i + 1);
        assert(ms.drop_first()[i - 1] == ms[i]);
    }
}

/// The valid parts among `parts`, in the given order.
fn filter_parts(parts: Vec<JsonValue>) -> (r: Vec<JsonValue>)
    ensures
        r@.map_values(|x: JsonValue| x@) == valid_parts(crate::json::elems_view(parts@), 0),
{
    let ghost pv = crate::json::elems_view(parts@);
    let n = parts.len();
    let mut out: Vec<JsonValue> = Vec::new();
    let mut rest = parts;
    proof {
        assert(pv.skip(0) =~= pv);
    }
    while rest.len() > 0
        invariant
            valid_parts(pv, 0) == out@.map_values(|x: JsonValue| x@) + valid_parts(
                crate::json::elems_view(rest@),
                0,
            ),
        decreases rest@.len(),
    {
        let ghost restv = crate::json::elems_view(rest@);
        let x = rest.remove(0);
        proof {
            assert(restv[0] == x@);
            assert(restv.drop_first() =~= crate::json::elems_view(rest@));
            lemma_valid_parts_step(restv);
        }
        if valid_part_exec(&x) {
            let ghost prev = out@.map_values(|y: JsonValue| y@);
            out.push(x);
            proof {
                assert(out@.map_values(|y: JsonValue| y@) =~= prev + seq![restv[0]]);
            }
        }
    }
    proof {
        assert(valid_parts(crate::json::elems_view(rest@), 0) =~= Seq::<JsonV>::empty());
        assert(out@.map_values(|x: JsonValue| x@) =~= valid_parts(pv, 0));
    }
    out
}

/// One step of `valid_parts`.
proof fn lemma_valid_parts_step(items: Seq<JsonV>)
    requires
        items.len() > 0,
    ensures
        valid_parts(items, 0) == (if valid_part(items[0]) {
            seq![items[0]]
        } else {
            Seq::empty()
        }) + valid_parts(items.drop_first(), 0),
{
    lemma_valid_parts_from(items, 1);
}

/// The shifted runs agree at every offset.
proof fn lemma_valid_parts_from(items: Seq<JsonV>, i: int)
    requires
        1 <= i <= items.len(),
    ensures
        valid_parts(items, i) == valid_parts(items.drop_first(), i - 1),
    decreases items.len() - i,
{
    if i < items.len() {
        lemma_valid_parts_from(items, i + 1);
        assert(items.drop_first()[i - 1] == items[i]);
    }
}

/// The parts ordered by identifier, source order kept between equal
/// identifiers.
fn sort_parts(parts: Vec<JsonValue>) -> (r: Vec<JsonValue>)
    ensures
        r@.map_values(|x: JsonValue| x@) == stable_sort_by(
            part_leq_f(),
            parts@.map_values(|x: JsonValue| x@),
        ),
{
    let ghost leq = part_leq_f();
    let ghost input = parts@.map_values(|x: JsonValue| x@);
    let mut out: Vec<JsonValue> = Vec::new();
    let mut rest = parts;
    let ghost mut done = 0int;
    proof {
        assert(input.take(0) =~= Seq::<JsonV>::empty());
    }
    while rest.len() > 0
        invariant
            0 <= done <= input.len(),
            rest@.map_values(|x: JsonValue| x@) =~= input.skip(done),
            out@.map_values(|x: JsonValue| x@) == stable_sort_by(leq, input.take(done)),
            leq == part_leq_f(),
        decreases rest@.len(),
    {
        let x = rest.remove(0);
        proof {
            assert(input.skip(done)[0] == x@);
            assert(input.skip(done).drop_first() =~= input.skip(done + 1));
            assert(input[done] == x@);
        }
        let idx = part_id_exec(&x);
        let ghost sorted_view = out@.map_values(|y: JsonValue| y@);
        let mut j: usize = out.len();
        while j > 0 && !part_leq_at(&out[j - 1], idx.as_str())
            invariant
                0 <= j <= out@.len(),
                sorted_view == out@.map_values(|y: JsonValue| y@),
                idx@ == part_id(x@),
                forall|k: int| j <= k < sorted_view.len() ==> !leq(#[trigger] sorted_view[k], x@),
                leq == part_leq_f(),
            decreases j,
        {
            j -= 1;
        }
        proof {
            crate::sort::lemma_insert_at(leq, sorted_view, x@, j as int);
        }
        out.insert(j, x);
        proof {
            done = done + 1;
            assert(input.take(done).drop_last() =~= input.take(done - 1));
            assert(input.take(done).last() == input[done - 1]);
            assert(out@.map_values(|y: JsonValue| y@) =~= sorted_view.take(j as int) + seq![
                input[done - 1]] + sorted_view.skip(j as int));
        }
    }
    proof {
        assert(input.take(done) =~= input);
    }
    out
}

/// The identifier of one part.
fn part_id_exec(p: &JsonValue) -> (r: String)
    ensures
        r@ == part_id(p@),
{
    match opt_str_exec(p, "id") {
        Some(id) => id,
        None => String::new(),
    }
}

/// Whether `a` comes no later than the identifier `bid` in part order.
fn part_leq_at(a: &JsonValue, bid: &str) -> (r: bool)
    ensures
        r == lex_leq(part_id(a@), bid@),
{
    let aid = part_id_exec(a);
    crate::text::lex_leq_exec(aid.as_str(), bid)
}

/// The pairs ordered by message creation time, source order kept
/// between equal times.
fn sort_pairs(pairs: Vec<(JsonValue, Vec<JsonValue>)>) -> (r: Vec<(JsonValue, Vec<JsonValue>)>)
    ensures
        r@.map_values(|p: (JsonValue, Vec<JsonValue>)| (p.0@, crate::json::elems_view(p.1@)))
            == stable_sort_by(
            msg_leq_f(),
            pairs@.map_values(
                |p: (JsonValue, Vec<JsonValue>)| (p.0@, crate::json::elems_view(p.1@)),
            ),
        ),
{
    let ghost leq = msg_leq_f();
    let ghost input = pairs@.map_values(
        |p: (JsonValue, Vec<JsonValue>)| (p.0@, crate::json::elems_view(p.1@)),
    );
    let mut out: Vec<(JsonValue, Vec<JsonValue>)> = Vec::new();
    let mut rest = pairs;
    let ghost mut done = 0int;
    proof {
        assert(input.take(0) =~= Seq::<(JsonV, Seq<JsonV>)>::empty());
    }
    while rest.len() > 0
        invariant
            0 <= done <= input.len(),
            rest@.map_values(|p: (JsonValue, Vec<JsonValue>)| (p.0@, crate::json::elems_view(p.1@)))
                =~= input.skip(done),
            out@.map_values(|p: (JsonValue, Vec<JsonValue>)| (p.0@, crate::json::elems_view(p.1@)))
                == stable_sort_by(leq, input.take(done)),
            leq == msg_leq_f(),
        decreases rest@.len(),
    {
        let x = rest.remove(0);
        proof {
            assert(input.skip(done)[0] == (x.0@, crate::json::elems_view(x.1@)));
            assert(input.skip(done).drop_first() =~= input.skip(done + 1));
            assert(input[done] == (x.0@, crate::json::elems_view(x.1@)));
        }
        let kx = msg_key_exec(&x.0);
        let ghost xv = (x.0@, crate::json::elems_view(x.1@));
        let ghost sorted_view = out@.map_values(
            |p: (JsonValue, Vec<JsonValue>)| (p.0@, crate::json::elems_view(p.1@)),
        );
        let mut j: usize = out.len();
        while j > 0 && msg_key_exec(&out[j - 1].0) > kx
            invariant
                0 <= j <= out@.len(),
                sorted_view == out@.map_values(
                    |p: (JsonValue, Vec<JsonValue>)| (p.0@, crate::json::elems_view(p.1@)),
                ),
                kx as int == msg_key(xv.0),
                xv == (x.0@, crate::json::elems_view(x.1@)),
                forall|k: int| j <= k < sorted_view.len() ==> !leq(#[trigger] sorted_view[k], xv),
                leq == msg_leq_f(),
            decreases j,
        {
            j -= 1;
        }
        proof {
            crate::sort::lemma_insert_at(leq, sorted_view, xv, j as int);
        }
        out.insert(j, x);
        proof {
            done = done + 1;
            assert(input.take(done).drop_last() =~= input.take(done - 1));
            assert(input.take(done).last() == input[done - 1]);
            assert(out@.map_values(
                |p: (JsonValue, Vec<JsonValue>)| (p.0@, crate::json::elems_view(p.1@)),
            ) =~= sorted_view.take(j as int) + seq![input[done - 1]] + sorted_view.skip(
                j as int,
            ));
        }
    }
    proof {
        assert(input.take(done) =~= input);
    }
    out
}

/// The ordering key of one message.
fn msg_key_exec(m: &JsonValue) -> (r: i64)
    ensures
        r as int == msg_key(m@),
{
    match time_field_exec(m, "created") {
        Some(t) => t,
        None => 0,
    }
}

/// The messages kept from the ordered pairs, from `idx` on.
fn normalize_msgs(pairs: &Vec<(JsonValue, Vec<JsonValue>)>, idx: usize, since: Option<i64>) -> (r:
    Vec<NormalizedMessage>)
    requires
        idx <= pairs@.len(),
    ensures
        r@.map_values(|m: NormalizedMessage| m@) == oc_msgs(
            pairs@.map_values(
                |p: (JsonValue, Vec<JsonValue>)| (p.0@, crate::json::elems_view(p.1@)),
            ),
            idx as int,
            since,
        ),
    decreases pairs@.len() - idx,
{
    let ghost pv = pairs@.map_values(
        |p: (JsonValue, Vec<JsonValue>)| (p.0@, crate::json::elems_view(p.1@)),
    );
    if idx == pairs.len() {
        Vec::new()
    } else {
        proof {
            assert(pv[idx as int] == (pairs@[idx as int].0@, crate::json::elems_view(
                pairs@[idx as int].1@,
            )));
        }
        let m = &pairs[idx].0;
        let parts = &pairs[idx].1;
        let mut rest = normalize_msgs(pairs, idx + 1, since);
        let content = assemble_message_content(m, parts);
        let created = time_field_exec(m, "created");
        let keep = !crate::text::blank(content.as_str()) && match since {
            Some(w) => match created {
                Some(t) => t > w,
                None => false,
            },
            None => true,
        };
        if keep {
            let role = match opt_str_exec(m, "role") {
                Some(rr) => rr,
                None => String::new(),
            };
            let author = author_exec(m);
            let extra = build_extra(m);
            let msg = NormalizedMessage {
                idx: 0,
                role,
                author,
                created_at: created,
                content,
                extra,
            };
            proof {
                assert(msg@ =~= oc_msgs(pv, idx as int, since)[0]);
            }
            rest.insert(0, msg);
            proof {
                assert(rest@.map_values(|m: NormalizedMessage| m@) =~= oc_msgs(
                    pv,
                    idx as int,
                    since,
                ));
            }
            rest
        } else {
            rest
        }
    }
}

/// The assembled content of one message from its ordered parts.
pub fn assemble_message_content(m: &JsonValue, parts: &Vec<JsonValue>) -> (r: String)
    ensures
        r@ == msg_content(m@, crate::json::elems_view(parts@)),
{
    let fragments = collect_fragments(parts, 0);
    let c0 = join_parts_exec(&fragments, 0);
    proof {
        assert(fragments@.map_values(|t: String| t@).skip(0) =~= parts_fragments(
            crate::json::elems_view(parts@),
            0,
        ));
    }
    let is_user = match opt_str_exec(m, "role") {
        Some(rr) => crate::json::str_eq(rr.as_str(), "user"),
        None => false,
    };
    let body = if is_user {
        match m.get("summary") {
            Some(s) => match s.get("body") {
                Some(b) => match b.as_str() {
                    Some(t) => Some(t.to_owned()),
                    None => None,
                },
                None => None,
            },
            None => None,
        }
    } else {
        None
    };
    match body {
        Some(b) => {
            if b.unicode_len() == 0 {
                c0
            } else if c0.unicode_len() == 0 {
                b
            } else {
                let mut out = b;
                out.append("\n\n");
                out.append(c0.as_str());
                proof {
                    reveal_strlit("\n\n");
                    assert(out@ =~= msg_content(m@, crate::json::elems_view(parts@)));
                }
                out
            }
        },
        None => c0,
    }
}

/// The content fragments of the parts, from `idx` on.
fn collect_fragments(parts: &Vec<JsonValue>, idx: usize) -> (r: Vec<String>)
    requires
        idx <= parts@.len(),
    ensures
        r@.map_values(|t: String| t@) == parts_fragments(
            crate::json::elems_view(parts@),
            idx as int,
        ),
    decreases parts@.len() - idx,
{
    let ghost pv = crate::json::elems_view(parts@);
    if idx == parts.len() {
        Vec::new()
    } else {
        proof {
            assert(pv[idx as int] == parts@[idx as int]@);
        }
        let mut head = fragment_of_part(&parts[idx]);
        let tail = collect_fragments(parts, idx + 1);
        append_strings(&mut head, tail);
        proof {
            assert(head@.map_values(|t: String| t@) =~= parts_fragments(pv, idx as int));
        }
        head
    }
}

/// Moves every string of `more` onto the end of `out`.
fn append_strings(out: &mut Vec<String>, more: Vec<String>)
    ensures
        final(out)@.map_values(|t: String| t@) == old(out)@.map_values(|t: String| t@)
            + more@.map_values(|t: String| t@),
{
    let ghost total = old(out)@.map_values(|t: String| t@) + more@.map_values(|t: String| t@);
    let mut rest = more;
    proof {
        assert(out@.map_values(|t: String| t@) + rest@.map_values(|t: String| t@) =~= total);
    }
    while rest.len() > 0
        invariant
            out@.map_values(|t: String| t@) + rest@.map_values(|t: String| t@) == total,
        decreases rest@.len(),
    {
        let x = rest.remove(0);
        out.push(x);
        proof {
            assert(out@.map_values(|t: String| t@) + rest@.map_values(|t: String| t@) =~= total);
        }
    }
    proof {
        assert(out@.map_values(|t: String| t@) =~= total);
    }
}

/// The content fragments of one part.
fn fragment_of_part(p: &JsonValue) -> (r: Vec<String>)
    ensures
        r@.map_values(|t: String| t@) == part_fragments(p@),
{
    let ty = match opt_str_exec(p, "type") {
        Some(t) => t,
        None => String::new(),
    };
    let mut out: Vec<String> = Vec::new();
    if crate::json::str_eq(ty.as_str(), "text") {
        match opt_str_exec(p, "text") {
            Some(t) => {
                if t.unicode_len() > 0 {
                    out.push(t);
                }
            },
            None => {},
        }
    } else if crate::json::str_eq(ty.as_str(), "reasoning") {
        match opt_str_exec(p, "text") {
            Some(t) => {
                if t.unicode_len() > 0 {
                    let mut line = "[Reasoning]\n".to_owned();
                    line.append(t.as_str());
                    proof {
                        reveal_strlit("[Reasoning]\n");
                    }
                    out.push(line);
                }
            },
            None => {},
        }
    } else if crate::json::str_eq(ty.as_str(), "tool") {
        out.push(tool_fragment_exec(p));
    } else if crate::json::str_eq(ty.as_str(), "patch") {
        match p.get("files") {
            Some(fv) => match fv.as_arr() {
                Some(fs) => {
                    let mut line = "[Patch: ".to_owned();
                    line.append(file_list_exec(fs, 0).as_str());
                    line.append("]");
                    proof {
                        reveal_strlit("[Patch: ");
                        reveal_strlit("]");
                    }
                    out.push(line);
                },
                None => {},
            },
            None => {},
        }
    } else if crate::json::str_eq(ty.as_str(), "file") {
        match opt_str_exec(p, "filename") {
            Some(f) => {
                let mut line = "[File: ".to_owned();
                line.append(f.as_str());
                line.append("]");
                proof {
                    reveal_strlit("[File: ");
                    reveal_strlit("]");
                }
                out.push(line);
            },
            None => {},
        }
    }
    proof {
        assert(out@.map_values(|t: String| t@) =~= part_fragments(p@));
    }
    out
}

/// The describing line of a tool part.
fn tool_fragment_exec(p: &JsonValue) -> (r: String)
    ensures
        r@ == tool_fragment(p@),
{
    let name = match opt_str_exec(p, "tool") {
        Some(n) => n,
        None => "unknown".to_owned(),
    };
    let mut base = "[Tool: ".to_owned();
    base.append(name.as_str());
    proof {
        reveal_strlit("[Tool: ");
        reveal_strlit(" - ");
        reveal_strlit("]");
        reveal_strlit("...");
    }
    let detail: Option<String> = match p.get("state") {
        Some(st) => match opt_str_exec(st, "title") {
            Some(t) => Some(t),
            None => match st.get("input") {
                Some(input) => match opt_str_exec(input, "description") {
                    Some(d) => Some(d),
                    None => match opt_str_exec(input, "filePath") {
                        Some(fp) => Some(fp),
                        None => match opt_str_exec(input, "command") {
                            Some(cmd) => Some(
                                crate::text::truncate_text(cmd.as_str(), COMMAND_BUDGET, "..."),
                            ),
                            None => None,
                        },
                    },
                },
                None => None,
            },
        },
        None => None,
    };
    match detail {
        Some(d) => {
            base.append(" - ");
            base.append(d.as_str());
            base.append("]");
        },
        None => {
            base.append("]");
        },
    }
    let with_output = match p.get("state") {
        Some(st) => match opt_str_exec(st, "output") {
            Some(o) => {
                if o.unicode_len() > 0 && !crate::text::exceeds_budget(
                    o.as_str(),
                    OUTPUT_LIMIT - 1,
                ) {
                    let mut ext = base;
                    ext.append("\n");
                    ext.append(o.as_str());
                    proof {
                        reveal_strlit("\n");
                        assert("\n"@ =~= seq!['\n']);
                    }
                    ext
                } else {
                    base
                }
            },
            None => base,
        },
        None => base,
    };
    proof {
        assert(with_output@ =~= tool_fragment(p@));
    }
    with_output
}

/// The strings among `items` from `idx` on, joined by a comma and a
/// space.
fn file_list_exec(items: &Vec<JsonValue>, idx: usize) -> (r: String)
    requires
        idx <= items@.len(),
    ensures
        r@ == file_list(crate::json::elems_view(items@), idx as int),
    decreases items@.len() - idx,
{
    let ghost ev = crate::json::elems_view(items@);
    if idx == items.len() {
        String::new()
    } else {
        proof {
            assert(ev[idx as int] == items@[idx as int]@);
        }
        let rest = file_list_exec(items, idx + 1);
        match items[idx].as_str() {
            Some(f) => {
                if rest.unicode_len() == 0 && idx + 1 >= items.len() {
                    f.to_owned()
                } else {
                    let mut line = f.to_owned();
                    line.append(", ");
                    line.append(rest.as_str());
                    proof {
                        reveal_strlit(", ");
                        assert(line@ =~= file_list(ev, idx as int));
                    }
                    line
                }
            },
            None => rest,
        }
    }
}

/// The author of one message.
fn author_exec(m: &JsonValue) -> (r: Option<String>)
    ensures
        match author_of(m@) {
            Some(a) => r matches Some(s) && s@ == a,
            None => r is None,
        },
{
    match opt_str_exec(m, "modelID") {
        Some(a) => Some(a),
        None => match m.get("model") {
            Some(model) => match opt_str_exec(model, "modelID") {
                Some(a) => Some(a),
                None => opt_str_exec(m, "agent"),
            },
            None => opt_str_exec(m, "agent"),
        },
    }
}

/// Pushes the member (`key`, string `from` of `m`), where present.
fn push_str_frag(out: &mut Vec<JsonMember>, m: &JsonValue, from: &str, key: &str)
    ensures
        crate::json::members_view(final(out)@) == crate::json::members_view(old(out)@)
            + str_frag(m@, from@, key@),
{
    match opt_str_exec(m, from) {
        Some(s) => {
            let ghost prev = crate::json::members_view(out@);
            out.push(JsonMember { key: key.to_owned(), value: JsonValue::Str(s) });
            proof {
                assert(crate::json::members_view(out@) =~= prev + str_frag(m@, from@, key@));
            }
        },
        None => {
            proof {
                assert(crate::json::members_view(out@) =~= crate::json::members_view(out@)
                    + str_frag(m@, from@, key@));
            }
        },
    }
}

/// The numeric member of `v` named `key`, or null.
fn num_or_null_exec(v: &JsonValue, key: &str) -> (r: JsonValue)
    ensures
        r@ == num_or_null(v@, key@),
{
    match v.get(key) {
        Some(x) => match x.as_num_text() {
            Some(t) => JsonValue::Num(t.to_owned()),
            None => JsonValue::Null,
        },
        None => JsonValue::Null,
    }
}

/// The per-source details kept with one message.
fn build_extra(m: &JsonValue) -> (r: JsonValue)
    ensures
        r@ == extra_of(m@),
{
    let mut members: Vec<JsonMember> = Vec::new();
    match m.get("cost") {
        Some(c) => match c.as_num_text() {
            Some(t) => {
                members.push(JsonMember { key: "cost".to_owned(), value: JsonValue::Num(
                    t.to_owned(),
                ) });
            },
            None => {},
        },
        None => {},
    }
    let ghost cost_frag = crate::json::members_view(members@);
    proof {
        assert(cost_frag =~= (match jv_get(m@, "cost"@) {
            Some(JsonV::Num(t)) => seq![("cost"@, JsonV::Num(t))],
            _ => Seq::<(Seq<char>, JsonV)>::empty(),
        }));
    }
    push_str_frag(&mut members, m, "finish", "finish");
    push_str_frag(&mut members, m, "mode", "mode");
    push_str_frag(&mut members, m, "parentID", "parent_id");
    push_str_frag(&mut members, m, "providerID", "provider");
    match m.get("tokens") {
        Some(tk) => {
            let mut inner: Vec<JsonMember> = Vec::new();
            inner.push(JsonMember { key: "input".to_owned(), value: num_or_null_exec(tk, "input") });
            inner.push(
                JsonMember { key: "output".to_owned(), value: num_or_null_exec(tk, "output") },
            );
            inner.push(
                JsonMember {
                    key: "reasoning".to_owned(),
                    value: num_or_null_exec(tk, "reasoning"),
                },
            );
            let ghost prev = crate::json::members_view(members@);
            proof {
                crate::json::lemma_obj_view(inner);
                assert(crate::json::members_view(inner@) =~= seq![
                    ("input"@, num_or_null(jv_of_ref(tk), "input"@)),
                    ("output"@, num_or_null(jv_of_ref(tk), "output"@)),
                    ("reasoning"@, num_or_null(jv_of_ref(tk), "reasoning"@)),
                ]);
            }
            members.push(JsonMember { key: "tokens".to_owned(), value: JsonValue::Obj(inner) });
            proof {
                assert(crate::json::members_view(members@) =~= prev + tokens_frag(m@));
            }
        },
        None => {
            proof {
                assert(crate::json::members_view(members@) =~= crate::json::members_view(members@)
                    + tokens_frag(m@));
            }
        },
    }
    let r = JsonValue::Obj(members);
    proof {
        crate::json::lemma_obj_view(members);
        assert(crate::json::members_view(members@) =~= extra_of(m@)->Obj_0);
    }
    r
}

/// The first summary title among the ordered pairs, from `idx` on.
fn find_summary_title(pairs: &Vec<(JsonValue, Vec<JsonValue>)>, idx: usize) -> (r: Option<String>)
    requires
        idx <= pairs@.len(),
    ensures
        match first_summary_title(
            pairs@.map_values(
                |p: (JsonValue, Vec<JsonValue>)| (p.0@, crate::json::elems_view(p.1@)),
            ),
            idx as int,
        ) {
            Some(t) => r matches Some(s) && s@ == t,
            None => r is None,
        },
    decreases pairs@.len() - idx,
{
    let ghost pv = pairs@.map_values(
        |p: (JsonValue, Vec<JsonValue>)| (p.0@, crate::json::elems_view(p.1@)),
    );
    if idx == pairs.len() {
        None
    } else {
        proof {
            assert(pv[idx as int] == (pairs@[idx as int].0@, crate::json::elems_view(
                pairs@[idx as int].1@,
            )));
        }
        let found = match pairs[idx].0.get("summary") {
            Some(s) => match s.get("title") {
                Some(t) => match t.as_str() {
                    Some(text) => Some(text.to_owned()),
                    None => None,
                },
                None => None,
            },
            None => None,
        };
        match found {
            Some(t) => Some(t),
            None => find_summary_title(pairs, idx + 1),
        }
    }
}

/// The diagnostics kept with one session.
fn build_metadata(s: &JsonValue) -> (r: JsonValue)
    ensures
        r@ == oc_metadata(s@),
{
    let mut members: Vec<JsonMember> = Vec::new();
    members.push(str_or_null_member(s, "parentID", "parent_session"));
    members.push(str_or_null_member(s, "projectID", "project_id"));
    members.push(str_or_null_member(s, "id", "session_id"));
    let summary = match s.get("summary") {
        Some(sm) => {
            let mut inner: Vec<JsonMember> = Vec::new();
            inner.push(
                JsonMember { key: "additions".to_owned(), value: num_or_null_exec(sm, "additions") },
            );
            inner.push(
                JsonMember { key: "deletions".to_owned(), value: num_or_null_exec(sm, "deletions") },
            );
            inner.push(JsonMember { key: "files".to_owned(), value: num_or_null_exec(sm, "files") });
            proof {
                crate::json::lemma_obj_view(inner);
                assert(crate::json::members_view(inner@) =~= seq![
                    ("additions"@, num_or_null(jv_of_ref(sm), "additions"@)),
                    ("deletions"@, num_or_null(jv_of_ref(sm), "deletions"@)),
                    ("files"@, num_or_null(jv_of_ref(sm), "files"@)),
                ]);
            }
            JsonValue::Obj(inner)
        },
        None => JsonValue::Null,
    };
    members.push(JsonMember { key: "summary".to_owned(), value: summary });
    members.push(str_or_null_member(s, "version", "version"));
    let r = JsonValue::Obj(members);
    proof {
        crate::json::lemma_obj_view(members);
        assert(crate::json::members_view(members@) =~= oc_metadata(s@)->Obj_0);
    }
    r
}

/// The member (`key`, string-or-null `from` of `v`).
fn str_or_null_member(v: &JsonValue, from: &str, key: &str) -> (r: JsonMember)
    ensures
        (r.key@, r.value@) == str_or_null(v@, from@, key@),
{
    match opt_str_exec(v, from) {
        Some(s) => JsonMember { key: key.to_owned(), value: JsonValue::Str(s) },
        None => JsonMember { key: key.to_owned(), value: JsonValue::Null },
    }
}

} // verus!
