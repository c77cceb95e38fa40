//! Per-session queue of finished detached background sub-agents awaiting
//! delivery back into the chat.
//!
//! A finished sub-agent's result is recorded under its parent session. The
//! session runtime drains the queue when the session is idle and injects a
//! single notice carrying every result ready at that moment, each tagged with
//! its sub-agent process id.

use vstd::prelude::*;
use crate::text::{chars_eq, chars_of, decimal, push_decimal, push_str, string_from_chars, trim, trim_chars, push_chars};

verus! {

/// One finished background sub-agent's deliverable result.
#[derive(Clone, Debug, PartialEq, Eq)]
pub struct CompletedBackgroundAgent {
    /// Spawn process id (`sub-…`) — the tag the agent uses to reference it.
    pub task_id: String,
    /// Sub-agent definition id (e.g. `researcher`).
    pub agent_id: String,
    /// The sub-agent's final output / summary.
    pub summary: String,
}

/// `(task id, agent id, summary)` of a completed sub-agent.
pub open spec fn completed_view(c: CompletedBackgroundAgent) -> (Seq<char>, Seq<char>, Seq<char>) {
    (c.task_id@, c.agent_id@, c.summary@)
}

/// The views of a list of completed sub-agents.
pub open spec fn completed_views(cs: Seq<CompletedBackgroundAgent>) -> Seq<(Seq<char>, Seq<char>, Seq<char>)> {
    cs.map_values(|c: CompletedBackgroundAgent| completed_view(c))
}

/// True when a result with task id `task` is among `cs`.
pub open spec fn has_task(cs: Seq<(Seq<char>, Seq<char>, Seq<char>)>, task: Seq<char>) -> bool {
    exists|i: int| 0 <= i < cs.len() && cs[i].0 == task
}

/// No task id occurs twice among `cs`.
pub open spec fn distinct_tasks(cs: Seq<(Seq<char>, Seq<char>, Seq<char>)>) -> bool {
    forall|i: int, j: int| 0 <= i < j < cs.len() ==> #[trigger] cs[i].0 != #[trigger] cs[j].0
}

/// The results pending for a session once `(task, agent, summary)` is
/// recorded on top of `cs`: appended, unless a result with that task id is
/// already there.
pub open spec fn recorded(
    cs: Seq<(Seq<char>, Seq<char>, Seq<char>)>,
    task: Seq<char>,
    agent: Seq<char>,
    summary: Seq<char>,
) -> Seq<(Seq<char>, Seq<char>, Seq<char>)> {
    if has_task(cs, task) {
        cs
    } else {
        cs.push((task, agent, summary))
    }
}

/// Recording is idempotent on the task id: the task is pending once it is
/// recorded, recording it again (whatever its payload) changes nothing, and
/// task ids stay distinct, so a double-fire cannot duplicate a result.
pub proof fn lemma_record_idempotent(
    cs: Seq<(Seq<char>, Seq<char>, Seq<char>)>,
    task: Seq<char>,
    agent: Seq<char>,
    summary: Seq<char>,
    agent2: Seq<char>,
    summary2: Seq<char>,
)
    ensures
        has_task(recorded(cs, task, agent, summary), task),
        recorded(recorded(cs, task, agent, summary), task, agent2, summary2) == recorded(cs, task, agent, summary),
        distinct_tasks(cs) ==> distinct_tasks(recorded(cs, task, agent, summary)),
{
    let r = recorded(cs, task, agent, summary);
    if !has_task(cs, task) {
        assert(r[cs.len() as int].0 == task);
        assert forall|i: int, j: int| distinct_tasks(cs) && 0 <= i < j < r.len() implies #[trigger] r[i].0 != #[trigger] r[j].0 by {
            if j == cs.len() {
                assert(r[i] == cs[i]);
            } else {
                assert(r[i] == cs[i] && r[j] == cs[j]);
            }
        }
    }
}

/// The results pending for `session` in `entries`: the list stored under
/// that session, or none.
pub open spec fn pending_in(entries: Seq<(Seq<char>, Seq<(Seq<char>, Seq<char>, Seq<char>)>)>, session: Seq<char>) -> Seq<
    (Seq<char>, Seq<char>, Seq<char>),
> {
    if exists|i: int| 0 <= i < entries.len() && entries[i].0 == session {
        entries[choose|i: int| 0 <= i < entries.len() && entries[i].0 == session].1
    } else {
        seq![]
    }
}

/// Results recorded per parent session, in completion order.
pub struct CompletionQueue {
    sessions: Vec<(Vec<char>, Vec<CompletedBackgroundAgent>)>,
}

impl CompletionQueue {
    /// `(session, results)` for every session with a list.
    pub closed spec fn entries(&self) -> Seq<(Seq<char>, Seq<(Seq<char>, Seq<char>, Seq<char>)>)> {
        self.sessions@.map_values(
            |e: (Vec<char>, Vec<CompletedBackgroundAgent>)| (e.0@, completed_views(e.1@)),
        )
    }

    /// The results waiting for `session`, in completion order.
    pub open spec fn pending(&self, session: Seq<char>) -> Seq<(Seq<char>, Seq<char>, Seq<char>)> {
        pending_in(self.entries(), session)
    }

    /// Each session has at most one list, and no task id occurs twice in a
    /// list.
    pub closed spec fn wf(&self) -> bool {
        &&& forall|i: int, j: int|
            0 <= i < j < self.sessions@.len() ==> #[trigger] self.sessions@[i].0@
                != #[trigger] self.sessions@[j].0@
        &&& forall|i: int| 0 <= i < self.sessions@.len() ==> distinct_tasks(completed_views(#[trigger] self.sessions@[i].1@))
    }

    /// An empty queue.
    pub fn new() -> (q: CompletionQueue)
        ensures
            q.wf(),
            forall|s: Seq<char>| #[trigger] q.pending(s) == Seq::<(Seq<char>, Seq<char>, Seq<char>)>::empty(),
    {
        CompletionQueue { sessions: Vec::new() }
    }
}

proof fn lemma_pending_at(q: &CompletionQueue, i: int)
    requires
        q.wf(),
        0 <= i < q.sessions@.len(),
    ensures
        q.pending(q.sessions@[i].0@) == completed_views(q.sessions@[i].1@),
{
    let e = q.entries();
    let s = q.sessions@[i].0@;
    assert(e[i].0 == s);
    let j = choose|j: int| 0 <= j < e.len() && e[j].0 == s;
    assert(e[j].0 == q.sessions@[j].0@);
    if j != i {
        if j < i {
            assert(q.sessions@[j].0@ != q.sessions@[i].0@);
        } else {
            assert(q.sessions@[i].0@ != q.sessions@[j].0@);
        }
    }
}

proof fn lemma_pending_absent(q: &CompletionQueue, s: Seq<char>)
    requires
        forall|i: int| 0 <= i < q.sessions@.len() ==> q.sessions@[i].0@ != s,
    ensures
        q.pending(s) == Seq::<(Seq<char>, Seq<char>, Seq<char>)>::empty(),
{
    let e = q.entries();
    assert forall|i: int| 0 <= i < e.len() implies e[i].0 != s by {
        assert(e[i].0 == q.sessions@[i].0@);
    }
}

fn find_session(q: &CompletionQueue, session: &Vec<char>) -> (r: Option<usize>)
    ensures
        match r {
            Some(i) => i < q.sessions@.len() && q.sessions@[i as int].0@ == session@,
            None => forall|i: int| 0 <= i < q.sessions@.len() ==> q.sessions@[i].0@ != session@,
        },
{
    let mut i: usize = 0;
    while i < q.sessions.len()
        invariant
            i <= q.sessions@.len(),
            forall|k: int| 0 <= k < i ==> q.sessions@[k].0@ != session@,
        decreases q.sessions@.len() - i,
    {
        if chars_eq(&q.sessions[i].0, session) {
            return Some(i);
        }
        i = i + 1;
    }
    None
}

/// Replacing one session's list keeps every other session's results.
proof fn lemma_update_keeps_others(old_q: &CompletionQueue, new_q: &CompletionQueue, i: int)
    requires
        old_q.wf(),
        new_q.wf(),
        0 <= i < old_q.sessions@.len(),
        new_q.sessions@.len() == old_q.sessions@.len(),
        new_q.sessions@[i].0@ == old_q.sessions@[i].0@,
        forall|j: int| 0 <= j < old_q.sessions@.len() && j != i ==> new_q.sessions@[j] == old_q.sessions@[j],
    ensures
        forall|s: Seq<char>| s != old_q.sessions@[i].0@ ==> #[trigger] new_q.pending(s) == old_q.pending(s),
{
    assert forall|s: Seq<char>| s != old_q.sessions@[i].0@ implies #[trigger] new_q.pending(s) == old_q.pending(s) by {
        if exists|j: int| 0 <= j < old_q.sessions@.len() && old_q.sessions@[j].0@ == s {
            let j = choose|j: int| 0 <= j < old_q.sessions@.len() && old_q.sessions@[j].0@ == s;
            lemma_pending_at(old_q, j);
            lemma_pending_at(new_q, j);
        } else {
            lemma_pending_absent(old_q, s);
            assert forall|j: int| 0 <= j < new_q.sessions@.len() implies new_q.sessions@[j].0@ != s by {
                if j != i {
                    assert(new_q.sessions@[j] == old_q.sessions@[j]);
                }
            }
            lemma_pending_absent(new_q, s);
        }
    }
}

fn list_has_task(list: &Vec<CompletedBackgroundAgent>, task: &Vec<char>) -> (b: bool)
    ensures
        b == has_task(completed_views(list@), task@),
{
    let mut i: usize = 0;
    while i < list.len()
        invariant
            i <= list@.len(),
            forall|k: int| 0 <= k < i ==> list@[k].task_id@ != task@,
        decreases list@.len() - i,
    {
        let t = chars_of(list[i].task_id.as_str());
        if chars_eq(&t, task) {
            proof {
                assert(completed_views(list@)[i as int].0 == task@);
            }
            return true;
        }
        i = i + 1;
    }
    proof {
        assert forall|k: int| 0 <= k < completed_views(list@).len() implies completed_views(list@)[k].0 != task@ by {
            assert(completed_views(list@)[k].0 == list@[k].task_id@);
        }
    }
    false
}

/// Record a finished background sub-agent for later idle delivery.
/// Idempotent on `task_id` within a session, so a double-fire cannot
/// duplicate a result in the batch.
pub fn record_completion(queue: &mut CompletionQueue, parent_session: &str, task_id: &str, agent_id: &str, summary: &str)
    requires
        old(queue).wf(),
    ensures
        final(queue).wf(),
        final(queue).pending(parent_session@) == recorded(old(queue).pending(parent_session@), task_id@, agent_id@, summary@),
        forall|s: Seq<char>| s != parent_session@ ==> #[trigger] final(queue).pending(s) == old(queue).pending(s),
{
    let key = chars_of(parent_session);
    let task = chars_of(task_id);
    let entry = CompletedBackgroundAgent {
        task_id: task_id.to_owned(),
        agent_id: agent_id.to_owned(),
        summary: summary.to_owned(),
    };
    let ghost ev = completed_view(entry);
    match find_session(queue, &key) {
        Some(i) => {
            proof {
                lemma_pending_at(queue, i as int);
            }
            if list_has_task(&queue.sessions[i].1, &task) {
                return;
            }
            let ghost old_q = *queue;
            let (k, mut list) = queue.sessions.remove(i);
            let ghost old_list = list@;
            list.push(entry);
            queue.sessions.insert(i, (k, list));
            proof {
                assert(queue.sessions@ =~= old_q.sessions@.update(i as int, queue.sessions@[i as int]));
                assert(completed_views(queue.sessions@[i as int].1@) =~= completed_views(old_list).push(ev));
                lemma_pending_at(queue, i as int);
                lemma_update_keeps_others(&old_q, queue, i as int);
            }
        },
        None => {
            let ghost old_q = *queue;
            proof {
                lemma_pending_absent(&old_q, key@);
            }
            let mut list: Vec<CompletedBackgroundAgent> = Vec::new();
            list.push(entry);
            queue.sessions.push((key, list));
            let ghost n = old_q.sessions@.len();
            proof {
                assert(completed_views(queue.sessions@[n as int].1@) =~= seq![ev]);
                lemma_pending_at(queue, n as int);
                assert(Seq::<(Seq<char>, Seq<char>, Seq<char>)>::empty().push(ev) =~= seq![ev]);
                assert forall|s: Seq<char>| s != key@ implies #[trigger] queue.pending(s) == old_q.pending(s) by {
                    if exists|j: int| 0 <= j < n && old_q.sessions@[j].0@ == s {
                        let j = choose|j: int| 0 <= j < n && old_q.sessions@[j].0@ == s;
                        lemma_pending_at(&old_q, j);
                        assert(queue.sessions@[j] == old_q.sessions@[j]);
                        lemma_pending_at(queue, j);
                    } else {
                        lemma_pending_absent(&old_q, s);
                        lemma_pending_absent(queue, s);
                    }
                }
            }
        },
    }
}

/// A session's pending results never carry the same task id twice.
pub proof fn lemma_pending_distinct(queue: &CompletionQueue, session: Seq<char>)
    requires
        queue.wf(),
    ensures
        distinct_tasks(queue.pending(session)),
{
    if exists|i: int| 0 <= i < queue.sessions@.len() && queue.sessions@[i].0@ == session {
        let i = choose|i: int| 0 <= i < queue.sessions@.len() && queue.sessions@[i].0@ == session;
        lemma_pending_at(queue, i);
    } else {
        lemma_pending_absent(queue, session);
    }
}

/// Is anything waiting to be delivered for this session?
pub fn has_pending(queue: &CompletionQueue, parent_session: &str) -> (b: bool)
    requires
        queue.wf(),
    ensures
        b == (queue.pending(parent_session@).len() > 0),
{
    let key = chars_of(parent_session);
    match find_session(queue, &key) {
        Some(i) => {
            proof {
                lemma_pending_at(queue, i as int);
            }
            queue.sessions[i].1.len() > 0
        },
        None => {
            proof {
                lemma_pending_absent(queue, key@);
            }
            false
        },
    }
}

/// Number of results pending for a session.
pub fn pending_count(queue: &CompletionQueue, parent_session: &str) -> (n: usize)
    requires
        queue.wf(),
    ensures
        n == queue.pending(parent_session@).len(),
{
    let key = chars_of(parent_session);
    match find_session(queue, &key) {
        Some(i) => {
            proof {
                lemma_pending_at(queue, i as int);
            }
            queue.sessions[i].1.len()
        },
        None => {
            proof {
                lemma_pending_absent(queue, key@);
            }
            0
        },
    }
}

/// Drain all results currently ready for this session, in completion order,
/// and clear them so they are never re-delivered.
pub fn take_pending(queue: &mut CompletionQueue, parent_session: &str) -> (r: Vec<CompletedBackgroundAgent>)
    requires
        old(queue).wf(),
    ensures
        final(queue).wf(),
        completed_views(r@) == old(queue).pending(parent_session@),
        final(queue).pending(parent_session@) == Seq::<(Seq<char>, Seq<char>, Seq<char>)>::empty(),
        forall|s: Seq<char>| s != parent_session@ ==> #[trigger] final(queue).pending(s) == old(queue).pending(s),
{
    let key = chars_of(parent_session);
    match find_session(queue, &key) {
        Some(i) => {
            let ghost old_q = *queue;
            proof {
                lemma_pending_at(queue, i as int);
            }
            let (_k, list) = queue.sessions.remove(i);
            proof {
                let n = old_q.sessions@.len();
                assert forall|j: int| 0 <= j < queue.sessions@.len() implies queue.sessions@[j].0@ != key@ by {
                    if j < i {
                        assert(queue.sessions@[j] == old_q.sessions@[j]);
                    } else {
                        assert(queue.sessions@[j] == old_q.sessions@[j + 1]);
                    }
                }
                lemma_pending_absent(queue, key@);
                assert forall|s: Seq<char>| s != parent_session@ implies #[trigger] queue.pending(s) == old_q.pending(s) by {
                    if exists|j: int| 0 <= j < n && old_q.sessions@[j].0@ == s {
                        let j = choose|j: int| 0 <= j < n && old_q.sessions@[j].0@ == s;
                        lemma_pending_at(&old_q, j);
                        if j < i {
                            assert(queue.sessions@[j] == old_q.sessions@[j]);
                            lemma_pending_at(queue, j);
                        } else {
                            assert(j != i);
                            assert(queue.sessions@[j - 1] == old_q.sessions@[j]);
                            lemma_pending_at(queue, j - 1);
                        }
                    } else {
                        lemma_pending_absent(&old_q, s);
                        assert forall|j: int| 0 <= j < queue.sessions@.len() implies queue.sessions@[j].0@ != s by {
                            if j < i {
                                assert(queue.sessions@[j] == old_q.sessions@[j]);
                            } else {
                                assert(queue.sessions@[j] == old_q.sessions@[j + 1]);
                            }
                        }
                        lemma_pending_absent(queue, s);
                    }
                }
            }
            list
        },
        None => {
            proof {
                lemma_pending_absent(queue, key@);
            }
            let r: Vec<CompletedBackgroundAgent> = Vec::new();
            proof {
                assert(completed_views(r@) =~= Seq::<(Seq<char>, Seq<char>, Seq<char>)>::empty());
            }
            r
        },
    }
}

/// A result's text: its trimmed summary, or a placeholder when it is blank.
pub open spec fn summary_text(summary: Seq<char>) -> Seq<char> {
    if trim(summary).len() == 0 {
        "(no output reported)"@
    } else {
        trim(summary)
    }
}

/// One result, tagged with its sub-agent process id and agent id.
pub open spec fn result_block(c: (Seq<char>, Seq<char>, Seq<char>)) -> Seq<char> {
    "\n<background_agent_result id=\""@ + c.0 + "\" agent=\""@ + c.1 + "\">\n"@ + summary_text(c.2)
        + "\n</background_agent_result>\n"@
}

/// The blocks of the first `upto` results.
pub open spec fn result_blocks(cs: Seq<(Seq<char>, Seq<char>, Seq<char>)>, upto: int) -> Seq<char>
    decreases upto,
{
    if upto <= 0 {
        seq![]
    } else {
        result_blocks(cs, upto - 1) + result_block(cs[upto - 1])
    }
}

/// The opening line of a notice for `n` results.
pub open spec fn notice_intro(n: nat) -> Seq<char> {
    "["@ + decimal(n) + " background sub-agent"@ + (if n == 1 {
        seq![]
    } else {
        "s"@
    }) + " finished while you were busy. Review each result below and present what is relevant to the user. Each is tagged with its sub-agent process id.]\n"@
}

/// The notice for a batch: `None` for an empty batch.
pub open spec fn batched_notice(cs: Seq<(Seq<char>, Seq<char>, Seq<char>)>) -> Option<Seq<char>> {
    if cs.len() == 0 {
        None
    } else {
        Some(notice_intro(cs.len()) + result_blocks(cs, cs.len() as int))
    }
}

/// Build the single batched notice for a set of finished background
/// sub-agents. Returns `None` for an empty batch.
pub fn build_batched_notice(completed: &[CompletedBackgroundAgent]) -> (r: Option<String>)
    ensures
        match r {
            Some(s) => batched_notice(completed_views(completed@)) == Some(s@),
            None => batched_notice(completed_views(completed@)) is None,
        },
{
    let ghost cv = completed_views(completed@);
    let n = completed.len();
    if n == 0 {
        return None;
    }
    let mut out: Vec<char> = Vec::new();
    push_str(&mut out, "[");
    push_decimal(&mut out, n as u64);
    push_str(&mut out, " background sub-agent");
    if n != 1 {
        push_str(&mut out, "s");
    }
    push_str(&mut out, " finished while you were busy. Review each result below and present what is relevant to the user. Each is tagged with its sub-agent process id.]\n");
    proof {
        assert(out@ =~= notice_intro(n as nat));
    }
    let ghost head = out@;
    let mut i: usize = 0;
    while i < n
        invariant
            n == completed@.len() == cv.len(),
            cv == completed_views(completed@),
            i <= n,
            out@ == head + result_blocks(cv, i as int),
        decreases n - i,
    {
        let c = &completed[i];
        let ghost before = out@;
        let summary = trimmed_summary(&c.summary);
        push_str(&mut out, "\n<background_agent_result id=\"");
        push_str(&mut out, c.task_id.as_str());
        push_str(&mut out, "\" agent=\"");
        push_str(&mut out, c.agent_id.as_str());
        push_str(&mut out, "\">\n");
        push_chars(&mut out, &summary);
        push_str(&mut out, "\n</background_agent_result>\n");
        proof {
            assert(cv[i as int] == completed_view(completed@[i as int]));
            assert(out@ =~= before + result_block(cv[i as int]));
        }
        i = i + 1;
    }
    Some(string_from_chars(&out))
}

fn trimmed_summary(summary: &String) -> (t: Vec<char>)
    ensures
        t@ == summary_text(summary@),
{
    let chars = chars_of(summary.as_str());
    let t = trim_chars(&chars);
    if t.len() == 0 {
        chars_of("(no output reported)")
    } else {
        t
    }
}

} // verus!
