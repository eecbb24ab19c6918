//! The watch-mode debounce decisions.
//!
//! In watch mode, filesystem events arrive in bursts. The loop that
//! listens and sleeps lives outside; what is decided lives here: an
//! agent whose root changed is re-scanned no earlier than the debounce
//! window after its first pending event, later events within the
//! window coalesce into the same re-scan, and a due agent is handed
//! out exactly once. Times are milliseconds since the epoch.

use vstd::prelude::*;

verus! {

/// How long a burst of events is allowed to coalesce before the
/// re-scan runs.
pub const DEBOUNCE_MILLIS: i64 = 500;

/// The pending re-scans: each agent with the time its re-scan falls
/// due.
pub struct WatchState {
    pub pending: Vec<(String, i64)>,
}

/// The due time recorded for `agent` among `entries`: the first entry
/// with that agent.
pub open spec fn due_of(entries: Seq<(String, i64)>, agent: Seq<char>) -> Option<i64>
    decreases entries.len(),
{
    if entries.len() == 0 {
        None
    } else if entries[0].0@ == agent {
        Some(entries[0].1)
    } else {
        due_of(entries.drop_first(), agent)
    }
}

/// The entries still waiting at `now`: those due strictly later.
pub open spec fn still_pending(entries: Seq<(String, i64)>, now: i64, i: int) -> Seq<
    (String, i64),
>
    decreases entries.len() - i,
{
    if i < 0 || i >= entries.len() {
        Seq::empty()
    } else {
        let rest = still_pending(entries, now, i + 1);
        if entries[i].1 <= now {
            rest
        } else {
            seq![entries[i]] + rest
        }
    }
}

/// The agents due at `now`, in entry order.
pub open spec fn due_agents(entries: Seq<(String, i64)>, now: i64, i: int) -> Seq<Seq<char>>
    decreases entries.len() - i,
{
    if i < 0 || i >= entries.len() {
        Seq::empty()
    } else {
        let rest = due_agents(entries, now, i + 1);
        if entries[i].1 <= now {
            seq![entries[i].0@] + rest
        } else {
            rest
        }
    }
}

impl WatchState {
    /// Whether the state is well formed: one entry per agent.
    pub open spec fn wf(self) -> bool {
        forall|i: int, j: int|
            0 <= i < j < self.pending@.len() ==> (#[trigger] self.pending@[i]).0@ != (
            #[trigger] self.pending@[j]).0@
    }

    /// A state with nothing pending.
    pub fn new() -> (r: WatchState)
        ensures
            r.wf(),
            r.pending@.len() == 0,
    {
        WatchState { pending: Vec::new() }
    }

    /// Notes one filesystem event under `agent` at time `now`: a first
    /// event opens a debounce window closing at `now` plus the
    /// debounce; further events within the window change nothing, so a
    /// burst coalesces into one re-scan while its deadline stands.
    #[verifier::loop_isolation(false)]
    pub fn record_event(&mut self, agent: &str, now: i64)
        requires
            old(self).wf(),
            now <= i64::MAX - DEBOUNCE_MILLIS,
        ensures
            final(self).wf(),
            due_of(final(self).pending@, agent@) == Some(
                match due_of(old(self).pending@, agent@) {
                    Some(d) => d,
                    None => (now + DEBOUNCE_MILLIS) as i64,
                },
            ),
            forall|a: Seq<char>|
                a != agent@ ==> #[trigger] due_of(final(self).pending@, a) == due_of(
                    old(self).pending@,
                    a,
                ),
    {
        let ghost entries0 = self.pending@;
        let n = self.pending.len();
        let mut i: usize = 0;
        while i < n
            invariant
                n == self.pending@.len(),
                self.pending@ == entries0,
                0 <= i <= n,
                forall|k: int| 0 <= k < i ==> (#[trigger] entries0[k]).0@ != agent@,
            decreases n - i,
        {
            if crate::json::str_eq(self.pending[i].0.as_str(), agent) {
                proof {
                    lemma_due_scan(entries0, agent@, i as int);
                }
                return ;
            }
            i += 1;
        }
        proof {
            lemma_due_scan(entries0, agent@, n as int);
        }
        self.pending.push((agent.to_owned(), now + DEBOUNCE_MILLIS));
        proof {
            assert(self.pending@.drop_last() =~= entries0);
            lemma_due_push(entries0, self.pending@, agent@, (now + DEBOUNCE_MILLIS) as i64);
            assert forall|a: int, b: int|
                0 <= a < b < self.pending@.len() implies (#[trigger] self.pending@[a]).0@ != (
            #[trigger] self.pending@[b]).0@ by {
                if b == entries0.len() {
                    assert(self.pending@[a] == entries0[a]);
                }
            }
        }
    }

    /// Hands out every agent whose window has closed by `now`, each at
    /// most once, and keeps the rest pending: a recorded agent is
    /// returned by exactly one sufficiently late call, never before
    /// its window closes.
    #[verifier::loop_isolation(false)]
    pub fn take_due(&mut self, now: i64) -> (r: Vec<String>)
        requires
            old(self).wf(),
        ensures
            final(self).wf(),
            r@.map_values(|a: String| a@) == due_agents(old(self).pending@, now, 0),
            final(self).pending@ == still_pending(old(self).pending@, now, 0),
    {
        let ghost entries0 = self.pending@;
        let mut due: Vec<String> = Vec::new();
        let mut kept: Vec<(String, i64)> = Vec::new();
        while self.pending.len() > 0
            invariant
                due_agents(entries0, now, 0) =~= due@.map_values(|a: String| a@) + due_agents(
                    self.pending@,
                    now,
                    0,
                ),
                still_pending(entries0, now, 0) =~= kept@ + still_pending(
                    self.pending@,
                    now,
                    0,
                ),
            decreases self.pending@.len(),
        {
            let ghost remv = self.pending@;
            let entry = self.pending.remove(0);
            proof {
                assert(remv[0] == entry);
                assert(remv.drop_first() =~= self.pending@);
                lemma_due_agents_step(remv, now);
                lemma_still_pending_step(remv, now);
            }
            if entry.1 <= now {
                let ghost prev = due@.map_values(|a: String| a@);
                due.push(entry.0);
                proof {
                    assert(due@.map_values(|a: String| a@) =~= prev + seq![remv[0].0@]);
                }
            } else {
                let ghost prev = kept@;
                kept.push(entry);
                proof {
                    assert(kept@ =~= prev + seq![remv[0]]);
                }
            }
        }
        proof {
            assert(due_agents(self.pending@, now, 0) =~= Seq::<Seq<char>>::empty());
            assert(still_pending(self.pending@, now, 0) =~= Seq::<(String, i64)>::empty());
            assert(due@.map_values(|a: String| a@) =~= due_agents(entries0, now, 0));
            assert(kept@ =~= still_pending(entries0, now, 0));
            lemma_still_pending_wf(entries0, now);
        }
        self.pending = kept;
        due
    }
}

/// A re-scan never runs before its window closes: an agent recorded
/// and still due later than `now` is neither handed out at `now` nor
/// forgotten.
pub proof fn lemma_debounce_holds(entries: Seq<(String, i64)>, agent: Seq<char>, now: i64)
    requires
        forall|i: int, j: int|
            0 <= i < j < entries.len() ==> (#[trigger] entries[i]).0@ != (
            #[trigger] entries[j]).0@,
        due_of(entries, agent) matches Some(d) && d > now,
    ensures
        !due_agents(entries, now, 0).contains(agent),
        due_of(still_pending(entries, now, 0), agent) == due_of(entries, agent),
    decreases entries.len(),
{
    if entries.len() > 0 {
        lemma_due_agents_step(entries, now);
        lemma_still_pending_step(entries, now);
        if entries[0].0@ == agent {
            if entries[0].1 <= now {
            } else {
                assert(still_pending(entries, now, 0)[0] == entries[0]);
                assert forall|k: int|
                    0 <= k < due_agents(entries, now, 0).len() implies #[trigger] due_agents(
                    entries,
                    now,
                    0,
                )[k] != agent by {
                    lemma_due_agents_not_first(entries, now, agent);
                }
            }
        } else {
            assert(forall|i: int, j: int|
                0 <= i < j < entries.drop_first().len() ==> (
                #[trigger] entries.drop_first()[i]).0@ != (
                #[trigger] entries.drop_first()[j]).0@);
            lemma_debounce_holds(entries.drop_first(), agent, now);
            assert forall|k: int|
                0 <= k < due_agents(entries, now, 0).len() implies #[trigger] due_agents(
                entries,
                now,
                0,
            )[k] != agent by {
                let tail = due_agents(entries.drop_first(), now, 0);
                if entries[0].1 <= now {
                    if k > 0 {
                        assert(due_agents(entries, now, 0)[k] == tail[k - 1]);
                        assert(!tail.contains(agent));
                    }
                } else {
                    assert(due_agents(entries, now, 0)[k] == tail[k]);
                    assert(!tail.contains(agent));
                }
            }
            if still_pending(entries, now, 0).len() > still_pending(
                entries.drop_first(),
                now,
                0,
            ).len() {
                assert(still_pending(entries, now, 0).drop_first() =~= still_pending(
                    entries.drop_first(),
                    now,
                    0,
                ));
            }
        }
    }
}

/// Inside `lemma_debounce_holds`: with the first entry the agent's and
/// not yet due, no due agent is that agent.
proof fn lemma_due_agents_not_first(entries: Seq<(String, i64)>, now: i64, agent: Seq<char>)
    requires
        entries.len() > 0,
        entries[0].0@ == agent,
        entries[0].1 > now,
        forall|i: int, j: int|
            0 <= i < j < entries.len() ==> (#[trigger] entries[i]).0@ != (
            #[trigger] entries[j]).0@,
    ensures
        forall|k: int|
            0 <= k < due_agents(entries, now, 0).len() ==> #[trigger] due_agents(
                entries,
                now,
                0,
            )[k] != agent,
    decreases entries.len(),
{
    lemma_due_agents_members(entries, now, 0);
}

/// Every due agent is some entry's agent with its time due.
proof fn lemma_due_agents_members(entries: Seq<(String, i64)>, now: i64, i: int)
    ensures
        forall|k: int|
            0 <= k < due_agents(entries, now, i).len() ==> exists|j: int|
                i <= j < entries.len() && (#[trigger] entries[j]).1 <= now && #[trigger] due_agents(
                    entries,
                    now,
                    i,
                )[k] == entries[j].0@,
    decreases entries.len() - i,
{
    if 0 <= i < entries.len() {
        lemma_due_agents_members(entries, now, i + 1);
        let ghost cur = due_agents(entries, now, i);
        let ghost rest = due_agents(entries, now, i + 1);
        assert forall|k: int|
            0 <= k < due_agents(entries, now, i).len() implies exists|j: int|
            i <= j < entries.len() && (#[trigger] entries[j]).1 <= now && #[trigger] due_agents(
                entries,
                now,
                i,
            )[k] == entries[j].0@ by {
            if cur.len() > rest.len() {
                if k == 0 {
                    assert((entries[i]).1 <= now && cur[0] == entries[i].0@);
                } else {
                    assert(cur[k] == rest[k - 1]);
                }
            } else {
                assert(cur[k] == rest[k]);
            }
        }
    }
}

/// The entries kept pending keep one entry per agent.
proof fn lemma_still_pending_wf(entries: Seq<(String, i64)>, now: i64)
    requires
        forall|i: int, j: int|
            0 <= i < j < entries.len() ==> (#[trigger] entries[i]).0@ != (
            #[trigger] entries[j]).0@,
    ensures
        forall|a: int, b: int|
            0 <= a < b < still_pending(entries, now, 0).len() ==> (#[trigger] still_pending(
                entries,
                now,
                0,
            )[a]).0@ != (#[trigger] still_pending(entries, now, 0)[b]).0@,
    decreases entries.len(),
{
    if entries.len() > 0 {
        lemma_still_pending_step(entries, now);
        assert(forall|i: int, j: int|
            0 <= i < j < entries.drop_first().len() ==> (
            #[trigger] entries.drop_first()[i]).0@ != (#[trigger] entries.drop_first()[j]).0@);
        lemma_still_pending_wf(entries.drop_first(), now);
        let cur = still_pending(entries, now, 0);
        let rest = still_pending(entries.drop_first(), now, 0);
        lemma_still_pending_members(entries.drop_first(), now, 0);
        assert forall|a: int, b: int|
            0 <= a < b < cur.len() implies (#[trigger] cur[a]).0@ != (
        #[trigger] cur[b]).0@ by {
            if cur.len() > rest.len() {
                if a > 0 {
                    assert(cur[a] == rest[a - 1]);
                    assert(cur[b] == rest[b - 1]);
                } else {
                    assert(cur[b] == rest[b - 1]);
                }
            } else {
                assert(cur[a] == rest[a]);
                assert(cur[b] == rest[b]);
            }
        }
    }
}

/// Every kept entry is one of the entries.
proof fn lemma_still_pending_members(entries: Seq<(String, i64)>, now: i64, i: int)
    ensures
        forall|k: int|
            0 <= k < still_pending(entries, now, i).len() ==> exists|j: int|
                i <= j < entries.len() && #[trigger] still_pending(entries, now, i)[k]
                    == entries[j],
    decreases entries.len() - i,
{
    if 0 <= i < entries.len() {
        lemma_still_pending_members(entries, now, i + 1);
        let cur = still_pending(entries, now, i);
        let rest = still_pending(entries, now, i + 1);
        assert forall|k: int| #![trigger cur[k]]
            0 <= k < cur.len() implies exists|j: int|
            i <= j < entries.len() && cur[k] == entries[j] by {
            if cur.len() > rest.len() {
                if k == 0 {
                    assert(cur[0] == entries[i]);
                } else {
                    assert(cur[k] == rest[k - 1]);
                }
            } else {
                assert(cur[k] == rest[k]);
            }
        }
    }
}

/// One step of `due_agents`.
proof fn lemma_due_agents_step(entries: Seq<(String, i64)>, now: i64)
    requires
        entries.len() > 0,
    ensures
        due_agents(entries, now, 0) == (if entries[0].1 <= now {
            seq![entries[0].0@]
        } else {
            Seq::empty()
        }) + due_agents(entries.drop_first(), now, 0),
{
    lemma_due_agents_from(entries, now, 1);
}

proof fn lemma_due_agents_from(entries: Seq<(String, i64)>, now: i64, i: int)
    requires
        1 <= i <= entries.len(),
    ensures
        due_agents(entries, now, i) == due_agents(entries.drop_first(), now, i - 1),
    decreases entries.len() - i,
{
    if i < entries.len() {
        lemma_due_agents_from(entries, now, i + 1);
        assert(entries.drop_first()[i - 1] == entries[i]);
    }
}

/// One step of `still_pending`.
proof fn lemma_still_pending_step(entries: Seq<(String, i64)>, now: i64)
    requires
        entries.len() > 0,
    ensures
        still_pending(entries, now, 0) == (if entries[0].1 <= now {
            Seq::empty()
        } else {
            seq![entries[0]]
        }) + still_pending(entries.drop_first(), now, 0),
{
    lemma_still_pending_from(entries, now, 1);
}

proof fn lemma_still_pending_from(entries: Seq<(String, i64)>, now: i64, i: int)
    requires
        1 <= i <= entries.len(),
    ensures
        still_pending(entries, now, i) == still_pending(entries.drop_first(), now, i - 1),
    decreases entries.len() - i,
{
    if i < entries.len() {
        lemma_still_pending_from(entries, now, i + 1);
        assert(entries.drop_first()[i - 1] == entries[i]);
    }
}

/// A scan that saw no matching agent before `i` pins the due time.
proof fn lemma_due_scan(entries: Seq<(String, i64)>, agent: Seq<char>, i: int)
    requires
        0 <= i <= entries.len(),
        forall|k: int| 0 <= k < i ==> (#[trigger] entries[k]).0@ != agent,
    ensures
        i < entries.len() && entries[i].0@ == agent ==> due_of(entries, agent) == Some(
            entries[i].1,
        ),
        i == entries.len() ==> due_of(entries, agent) is None,
    decreases i,
{
    if i > 0 {
        assert(forall|k: int|
            0 <= k < i - 1 ==> (#[trigger] entries.drop_first()[k]).0@ == entries[k + 1].0@);
        lemma_due_scan(entries.drop_first(), agent, i - 1);
        if i < entries.len() {
            assert(entries.drop_first()[i - 1] == entries[i]);
        }
    }
}

/// Pushing a new agent's entry serves that agent and no other.
proof fn lemma_due_push(
    before: Seq<(String, i64)>,
    after: Seq<(String, i64)>,
    agent: Seq<char>,
    due: i64,
)
    requires
        after.len() == before.len() + 1,
        forall|k: int| 0 <= k < before.len() ==> after[k] == before[k],
        after.last().0@ == agent,
        after.last().1 == due,
        forall|k: int| 0 <= k < before.len() ==> (#[trigger] before[k]).0@ != agent,
    ensures
        due_of(after, agent) == Some(due),
        forall|a: Seq<char>| a != agent ==> #[trigger] due_of(after, a) == due_of(before, a),
    decreases before.len(),
{
    if before.len() == 0 {
        assert(after[0] == after.last());
        assert forall|a: Seq<char>| a != agent implies #[trigger] due_of(after, a) == due_of(
            before,
            a,
        ) by {
            assert(after.drop_first().len() == 0);
            assert(after[0].0@ != a);
            assert(due_of(after, a) == due_of(after.drop_first(), a));
            assert(due_of(after.drop_first(), a) is None);
            assert(due_of(before, a) is None);
        }
    } else {
        assert(after[0] == before[0]);
        assert(forall|k: int|
            0 <= k < before.drop_first().len() ==> #[trigger] after.drop_first()[k]
                == before.drop_first()[k]);
        assert(after.drop_first().last() == after.last());
        assert(after.drop_first().len() == before.drop_first().len() + 1);
        lemma_due_push(before.drop_first(), after.drop_first(), agent, due);
        assert forall|a: Seq<char>| a != agent implies #[trigger] due_of(after, a) == due_of(
            before,
            a,
        ) by {
            if after[0].0@ == a {
                assert(due_of(after, a) == Some(after[0].1));
                assert(due_of(before, a) == Some(before[0].1));
            } else {
                assert(due_of(after, a) == due_of(after.drop_first(), a));
                assert(due_of(before, a) == due_of(before.drop_first(), a));
                assert(due_of(after.drop_first(), a) == due_of(before.drop_first(), a));
            }
        }
    }
}

} // verus!
