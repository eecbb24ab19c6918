//! The normalized record model.
//!
//! Every connector turns its vendor format into these records: a
//! conversation owning an ordered set of messages, each with a dense
//! index, a role, assembled non-blank content, and the source value it
//! came from. Paths are carried as plain strings.

use vstd::prelude::*;
use crate::json::{JsonV, JsonValue};
use crate::text::is_blank;

verus! {

/// One turn of a conversation.
pub struct NormalizedMessage {
    /// Dense position within the conversation, from zero up.
    pub idx: i64,
    /// `user`, `assistant`, `tool`, `system`, or a source-specific word.
    pub role: String,
    /// The model or agent name, where the source gives one.
    pub author: Option<String>,
    /// Milliseconds since the epoch, where the source gives a time.
    pub created_at: Option<i64>,
    /// The assembled plain text; never blank.
    pub content: String,
    /// The source value this message was read from, kept verbatim.
    pub extra: JsonValue,
}

/// The mathematical shape of a message.
#[verifier::ext_equal]
pub struct MessageV {
    pub idx: int,
    pub role: Seq<char>,
    pub author: Option<Seq<char>>,
    pub created_at: Option<i64>,
    pub content: Seq<char>,
    pub extra: JsonV,
}

impl View for NormalizedMessage {
    type V = MessageV;

    open spec fn view(&self) -> MessageV {
        MessageV {
            idx: self.idx as int,
            role: self.role@,
            author: match self.author {
                Some(a) => Some(a@),
                None => None,
            },
            created_at: self.created_at,
            content: self.content@,
            extra: self.extra@,
        }
    }
}

/// One session with one agent.
pub struct NormalizedConversation {
    /// Lowercase stable tag of the agent, such as `codex`.
    pub agent_slug: String,
    /// Stable identifier from the source, where it has one.
    pub external_id: Option<String>,
    /// First available of source title, summary, or first user line.
    pub title: Option<String>,
    /// The workspace path this session worked in, where known.
    pub workspace: Option<String>,
    /// Absolute path of the originating file or directory.
    pub source_path: String,
    /// Milliseconds since the epoch, where known.
    pub started_at: Option<i64>,
    /// Milliseconds since the epoch, where known.
    pub ended_at: Option<i64>,
    /// Source-level details, kept verbatim for diagnostics.
    pub metadata: JsonValue,
    /// The turns, in order; never empty.
    pub messages: Vec<NormalizedMessage>,
}

/// The mathematical shape of a conversation.
#[verifier::ext_equal]
pub struct ConversationV {
    pub agent_slug: Seq<char>,
    pub external_id: Option<Seq<char>>,
    pub title: Option<Seq<char>>,
    pub workspace: Option<Seq<char>>,
    pub source_path: Seq<char>,
    pub started_at: Option<i64>,
    pub ended_at: Option<i64>,
    pub metadata: JsonV,
    pub messages: Seq<MessageV>,
}

/// The view of an optional string.
pub open spec fn opt_view(o: Option<String>) -> Option<Seq<char>> {
    match o {
        Some(s) => Some(s@),
        None => None,
    }
}

impl View for NormalizedConversation {
    type V = ConversationV;

    open spec fn view(&self) -> ConversationV {
        ConversationV {
            agent_slug: self.agent_slug@,
            external_id: opt_view(self.external_id),
            title: opt_view(self.title),
            workspace: opt_view(self.workspace),
            source_path: self.source_path@,
            started_at: self.started_at,
            ended_at: self.ended_at,
            metadata: self.metadata@,
            messages: self.messages@.map_values(|m: NormalizedMessage| m@),
        }
    }
}

/// The same messages, re-numbered densely from zero.
pub open spec fn with_indices(s: Seq<MessageV>) -> Seq<MessageV> {
    Seq::new(s.len(), |i: int| MessageV { idx: i, ..s[i] })
}

/// The ordering key of a message: its creation time, zero where it
/// has none.
pub open spec fn created_key(m: MessageV) -> int {
    match m.created_at {
        Some(t) => t as int,
        None => 0,
    }
}

/// A first creation time is some message's creation time.
pub proof fn lemma_first_created_witness(msgs: Seq<MessageV>)
    ensures
        first_created(msgs) matches Some(v) ==> exists|j: int|
            0 <= j < msgs.len() && (#[trigger] msgs[j]).created_at == Some(v),
    decreases msgs.len(),
{
    if msgs.len() > 0 {
        match msgs[0].created_at {
            Some(c) => {
                assert(msgs[0].created_at == Some(c));
            },
            None => {
                lemma_first_created_witness(msgs.drop_first());
                if let Some(v) = first_created(msgs) {
                    let j = choose|j: int|
                        0 <= j < msgs.drop_first().len() && (
                        #[trigger] msgs.drop_first()[j]).created_at == Some(v);
                    assert(msgs[j + 1].created_at == Some(v));
                }
            },
        }
    }
}

/// When message keys ascend, the first creation time is at or before
/// the last message's.
pub proof fn lemma_first_le_last(msgs: Seq<MessageV>)
    requires
        msgs.len() > 0,
        forall|a: int, b: int|
            0 <= a <= b < msgs.len() ==> created_key(#[trigger] msgs[a]) <= created_key(
                #[trigger] msgs[b],
            ),
    ensures
        match (first_created(msgs), msgs.last().created_at) {
            (Some(v), Some(t)) => v <= t,
            _ => true,
        },
{
    lemma_first_created_witness(msgs);
    if let Some(v) = first_created(msgs) {
        if let Some(t) = msgs.last().created_at {
            let j = choose|j: int|
                0 <= j < msgs.len() && (#[trigger] msgs[j]).created_at == Some(v);
            assert(created_key(msgs[j]) <= created_key(msgs[msgs.len() - 1]));
        }
    }
}

/// The first creation time among `msgs`.
pub open spec fn first_created(msgs: Seq<MessageV>) -> Option<i64>
    decreases msgs.len(),
{
    if msgs.len() == 0 {
        None
    } else {
        match msgs[0].created_at {
            Some(c) => Some(c),
            None => first_created(msgs.drop_first()),
        }
    }
}

/// The last creation time among `msgs`.
pub open spec fn last_created(msgs: Seq<MessageV>) -> Option<i64>
    decreases msgs.len(),
{
    if msgs.len() == 0 {
        None
    } else {
        match msgs.last().created_at {
            Some(c) => Some(c),
            None => last_created(msgs.drop_last()),
        }
    }
}

/// Whether `msgs` is a well-formed message set: indices dense from
/// zero, and no blank content.
pub open spec fn wf_messages(msgs: Seq<MessageV>) -> bool {
    forall|i: int|
        0 <= i < msgs.len() ==> (#[trigger] msgs[i]).idx == i && !is_blank(msgs[i].content)
}

/// Whether `c` is a well-formed conversation: at least one message,
/// and a well-formed message set.
pub open spec fn wf_conversation(c: ConversationV) -> bool {
    &&& c.messages.len() > 0
    &&& wf_messages(c.messages)
}

/// What a cheap detection probe reported: whether the agent's data
/// root was found, and the paths or notes that say why.
pub struct DetectionResult {
    pub detected: bool,
    pub evidence: Vec<String>,
}

impl DetectionResult {
    /// The report of a probe that found nothing.
    pub fn not_found() -> (r: DetectionResult)
        ensures
            !r.detected,
            r.evidence@.len() == 0,
    {
        DetectionResult { detected: false, evidence: Vec::new() }
    }
}

/// Whether a file modified at `mtime_ms` has changed since the
/// watermark `since_ts`: true where no watermark is set, or where the
/// file is strictly newer.
pub open spec fn modified_since(mtime_ms: i64, since_ts: Option<i64>) -> bool {
    match since_ts {
        Some(w) => mtime_ms > w,
        None => true,
    }
}

/// Whether a file modified at `mtime_ms` has changed since `since_ts`.
pub fn file_modified_since(mtime_ms: i64, since_ts: Option<i64>) -> (r: bool)
    ensures
        r == modified_since(mtime_ms, since_ts),
{
    match since_ts {
        Some(w) => mtime_ms > w,
        None => true,
    }
}

/// A file at or before the watermark is never scanned: the incremental
/// cut-off admits only strictly newer files.
pub proof fn lemma_watermark_excludes(mtime_ms: i64, w: i64)
    requires
        mtime_ms <= w,
    ensures
        !modified_since(mtime_ms, Some(w)),
{
}

/// The first creation time among `msgs`.
pub fn first_created_exec(msgs: &Vec<NormalizedMessage>) -> (r: Option<i64>)
    ensures
        r == first_created(msgs@.map_values(|m: NormalizedMessage| m@)),
{
    let ghost mv = msgs@.map_values(|m: NormalizedMessage| m@);
    let n = msgs.len();
    proof {
        assert(mv.skip(0) =~= mv);
    }
    let mut i: usize = 0;
    while i < n
        invariant
            n == msgs@.len(),
            mv == msgs@.map_values(|m: NormalizedMessage| m@),
            0 <= i <= n,
            first_created(mv) == first_created(mv.skip(i as int)),
            forall|k: int| 0 <= k < i ==> (#[trigger] mv[k]).created_at is None,
        decreases n - i,
    {
        proof {
            assert(mv.skip(i as int)[0] == mv[i as int]);
        }
        match msgs[i].created_at {
            Some(c) => {
                return Some(c);
            },
            None => {
                proof {
                    assert(mv.skip(i as int).drop_first() =~= mv.skip(i as int + 1));
                }
            },
        }
        i += 1;
    }
    None
}

/// The last creation time among `msgs`.
pub fn last_created_exec(msgs: &Vec<NormalizedMessage>) -> (r: Option<i64>)
    ensures
        r == last_created(msgs@.map_values(|m: NormalizedMessage| m@)),
{
    let ghost mv = msgs@.map_values(|m: NormalizedMessage| m@);
    let mut i: usize = msgs.len();
    proof {
        assert(mv.take(msgs@.len() as int) =~= mv);
    }
    while i > 0
        invariant
            mv == msgs@.map_values(|m: NormalizedMessage| m@),
            0 <= i <= msgs@.len(),
            last_created(mv) == last_created(mv.take(i as int)),
        decreases i,
    {
        i -= 1;
        proof {
            assert(mv.take(i as int + 1).last() == mv[i as int]);
            assert(mv.take(i as int + 1).drop_last() =~= mv.take(i as int));
        }
        if let Some(c) = msgs[i].created_at {
            return Some(c);
        }
    }
    proof {
        assert(mv.take(0).len() == 0);
    }
    None
}


/// Renumbers `msgs` densely from zero.
pub fn reindex_messages(msgs: &mut Vec<NormalizedMessage>)
    requires
        old(msgs)@.len() < 0x8000_0000_0000_0000,
    ensures
        final(msgs)@.map_values(|m: NormalizedMessage| m@) == with_indices(
            old(msgs)@.map_values(|m: NormalizedMessage| m@),
        ),
{
    let n = msgs.len();
    let mut i: usize = 0;
    while i < n
        invariant
            n == msgs@.len(),
            n == old(msgs)@.len(),
            n < 0x8000_0000_0000_0000,
            0 <= i <= n,
            forall|k: int| i <= k < n ==> msgs@[k] == old(msgs)@[k],
            forall|k: int|
                0 <= k < i ==> (#[trigger] msgs@[k])@ == (MessageV {
                    idx: k,
                    ..old(msgs)@[k]@
                }),
        decreases n - i,
    {
        let mut m = msgs.remove(i);
        m.idx = i as i64;
        msgs.insert(i, m);
        i += 1;
    }
    proof {
        assert(final(msgs)@.map_values(|m: NormalizedMessage| m@) =~= with_indices(
            old(msgs)@.map_values(|m: NormalizedMessage| m@),
        ));
    }
}

} // verus!
