//! Deterministic task-card dispatcher: which cards the board poller may
//! dispatch, the prompt a card becomes, how the autonomous run is set up,
//! and the board write-back of a run's outcome.

use vstd::prelude::*;
use crate::task_board::{meta_get, meta_get_exec, meta_view, SourceMetadata, TaskBoardCard, TaskCardStatus};
use crate::text::{
    chars_of, decimal, join, push_chars, push_decimal, push_joined, push_str, string_from_chars,
    trim, trim_chars, trimmed, byte_len, contains_text, lemma_join_has_part, utf8_width, lemma_encode_utf8_concat,
};
use vstd::utf8::*;

verus! {

/// Max chars of the agent's final output retained as board evidence.
pub const EVIDENCE_MAX_CHARS: usize = 2_000;

/// `s` cut to at most `max` characters: unchanged when it fits, otherwise its
/// first `max - 1` characters followed by `…`.
pub open spec fn truncated(s: Seq<char>, max: nat) -> Seq<char> {
    if s.len() <= max {
        s
    } else {
        s.take(if max > 0 {
            max - 1
        } else {
            0
        }).push('…')
    }
}

/// Cut `s` to at most `max` characters, marking a cut with `…`.
pub fn truncate_chars(s: &str, max: usize) -> (r: String)
    ensures
        r@ == truncated(s@, max as nat),
{
    let v = chars_of(s);
    if v.len() <= max {
        return string_from_chars(&v);
    }
    let keep = if max > 0 {
        max - 1
    } else {
        0
    };
    let mut out: Vec<char> = Vec::new();
    let mut i: usize = 0;
    while i < keep
        invariant
            keep < v@.len(),
            i <= keep,
            out@ == v@.take(i as int),
        decreases keep - i,
    {
        out.push(v[i]);
        i = i + 1;
        proof {
            assert(v@.take(i as int) =~= v@.take(i - 1).push(v@[i - 1]));
        }
    }
    out.push('…');
    string_from_chars(&out)
}

/// A cut output never exceeds `max` characters (for `max >= 1`).
pub proof fn lemma_truncated_fits(s: Seq<char>, max: nat)
    requires
        max >= 1,
    ensures
        truncated(s, max).len() <= max,
{
}

/// The edit applied to a card once its run finished.
#[derive(Clone, Debug)]
pub struct CardPatch {
    pub status: Option<TaskCardStatus>,
    pub evidence: Option<Vec<String>>,
    pub blocker: Option<String>,
}

/// The board write-back for a run's outcome: success marks the card `Done`
/// with the trimmed output (cut to `EVIDENCE_MAX_CHARS`) as its evidence;
/// failure marks it `Blocked` with the error (cut likewise) as the blocker.
pub fn write_back_patch(outcome: &Result<String, String>) -> (p: CardPatch)
    ensures
        match outcome {
            Ok(output) => {
                &&& p.status == Some(TaskCardStatus::Done)
                &&& p.blocker is None
                &&& p.evidence matches Some(ev) && ev@.len() == 1 && ev@[0]@ == truncated(
                    trim(output@),
                    EVIDENCE_MAX_CHARS as nat,
                )
            },
            Err(err) => {
                &&& p.status == Some(TaskCardStatus::Blocked)
                &&& p.evidence is None
                &&& p.blocker matches Some(b) && b@ == truncated(err@, EVIDENCE_MAX_CHARS as nat)
            },
        },
{
    match outcome {
        Ok(output) => {
            let t = string_from_chars(&trimmed(output.as_str()));
            let mut evidence: Vec<String> = Vec::new();
            evidence.push(truncate_chars(t.as_str(), EVIDENCE_MAX_CHARS));
            CardPatch { status: Some(TaskCardStatus::Done), evidence: Some(evidence), blocker: None }
        },
        Err(err) => CardPatch {
            status: Some(TaskCardStatus::Blocked),
            evidence: None,
            blocker: Some(truncate_chars(err.as_str(), EVIDENCE_MAX_CHARS)),
        },
    }
}

// ── The goal prompt of a card ───────────────────────────────────────────────

/// The card's objective: its trimmed `objective` when non-blank, else its
/// trimmed title.
pub open spec fn objective_of(card: TaskBoardCard) -> Seq<char> {
    match card.objective {
        Some(o) => if trim(o@).len() > 0 {
            trim(o@)
        } else {
            trim(card.title@)
        },
        None => trim(card.title@),
    }
}

/// Numbered plan steps, `1. step`.
pub open spec fn plan_lines(plan: Seq<String>) -> Seq<Seq<char>> {
    Seq::new(plan.len(), |i: int| decimal((i + 1) as nat) + ". "@ + trim(plan[i]@))
}

/// Acceptance criteria as `- criterion` bullets.
pub open spec fn criteria_lines(criteria: Seq<String>) -> Seq<Seq<char>> {
    Seq::new(criteria.len(), |i: int| "- "@ + trim(criteria[i]@))
}

/// `provider repo#id` from whichever of the three are JSON strings.
pub open spec fn origin_of(fields: Seq<(Seq<char>, Option<Seq<char>>)>) -> Seq<char> {
    (match meta_get(fields, "provider"@) {
        Some(p) => p,
        None => seq![],
    }) + (match meta_get(fields, "repo"@) {
        Some(r) => " "@ + r,
        None => seq![],
    }) + (match meta_get(fields, "external_id"@) {
        Some(id) => "#"@ + id,
        None => seq![],
    })
}

/// The lines pointing the agent at the task's source and its memory.
pub open spec fn source_lines(fields: Seq<(Seq<char>, Option<Seq<char>>)>) -> Seq<Seq<char>> {
    let origin = trim(origin_of(fields));
    (if origin.len() > 0 {
        seq![
            "\nThis task originates from "@ + origin
                + ". Its activity has been ingested into memory — use your memory_recall tool to pull related context (prior discussion, linked items) before and while you work."@,
        ]
    } else {
        seq![]
    }) + (match meta_get(fields, "url"@) {
        Some(u) => seq!["Source link: "@ + u],
        None => seq![],
    })
}

/// The source section of the prompt (none without metadata).
pub open spec fn source_section(card: TaskBoardCard) -> Seq<Seq<char>> {
    match card.source_metadata {
        Some(m) => source_lines(meta_view(m)),
        None => seq![],
    }
}

/// The prompt's lines, in order.
pub open spec fn prompt_lines(card: TaskBoardCard) -> Seq<Seq<char>> {
    seq!["You are autonomously executing one task to completion. Objective:\n"@ + objective_of(card)]
        + (if card.plan@.len() > 0 {
        seq!["\nPlan:"@] + plan_lines(card.plan@)
    } else {
        seq![]
    }) + (if card.acceptance_criteria@.len() > 0 {
        seq!["\nAcceptance criteria (the task is done only when all hold):"@] + criteria_lines(
            card.acceptance_criteria@,
        )
    } else {
        seq![]
    }) + (match card.source_metadata {
        Some(m) => source_lines(meta_view(m)),
        None => seq![],
    }) + seq![
        "\nWork the task to completion. Do not pick up unrelated work. When finished, your final message should summarise what you did and the evidence (commits, PRs, results)."@,
    ]
}

/// The goal prompt handed to the autonomous run: the prompt lines joined by
/// newlines.
pub open spec fn task_prompt(card: TaskBoardCard) -> Seq<char> {
    join(prompt_lines(card), "\n"@)
}

/// A line made of a literal prefix followed by `rest`.
fn prefixed(prefix: &str, rest: &Vec<char>) -> (r: Vec<char>)
    ensures
        r@ == prefix@ + rest@,
{
    let mut r: Vec<char> = Vec::new();
    push_str(&mut r, prefix);
    push_chars(&mut r, rest);
    r
}

/// `lines` pointwise equal to `lv`.
pub open spec fn lines_are(lines: Seq<Vec<char>>, lv: Seq<Seq<char>>) -> bool {
    lines.len() == lv.len() && forall|k: int| 0 <= k < lv.len() ==> #[trigger] lines[k]@ == lv[k]
}

fn append_lines(lines: &mut Vec<Vec<char>>, Ghost(lv): Ghost<Seq<Seq<char>>>, more: Vec<Vec<char>>, Ghost(mv): Ghost<Seq<Seq<char>>>)
    requires
        lines_are(old(lines)@, lv),
        lines_are(more@, mv),
    ensures
        lines_are(final(lines)@, lv + mv),
{
    let mut more = more;
    let mut rest: Vec<Vec<char>> = Vec::new();
    // Reverse `more` into `rest` so lines can be popped in order.
    while more.len() > 0
        invariant
            lines_are(more@ + rest@.reverse(), mv),
        decreases more@.len(),
    {
        let ghost before = more@ + rest@.reverse();
        let x = more.pop().unwrap();
        rest.push(x);
        proof {
            assert(more@ + rest@.reverse() =~= before);
        }
    }
    let ghost base = lines@;
    proof {
        assert(rest@.reverse() =~= more@ + rest@.reverse());
    }
    while rest.len() > 0
        invariant
            lines_are(base, lv),
            lines_are(rest@.reverse(), mv.skip(lines@.len() - base.len())),
            base.len() <= lines@.len() <= base.len() + mv.len(),
            lines@.subrange(0, base.len() as int) == base,
            forall|k: int| base.len() <= k < lines@.len() ==> #[trigger] lines@[k]@ == mv[k - base.len()],
        decreases rest@.len(),
    {
        let ghost r0 = rest@.reverse();
        let ghost done = lines@.len() - base.len();
        let x = rest.pop().unwrap();
        proof {
            assert(r0[0] == x);
            assert(rest@.reverse() =~= r0.drop_first());
            assert(mv.skip(done).drop_first() =~= mv.skip(done + 1));
        }
        lines.push(x);
    }
    proof {
        assert(lines@.len() == base.len() + mv.len());
        assert forall|k: int| 0 <= k < lv.len() + mv.len() implies #[trigger] lines@[k]@ == (lv + mv)[k] by {
            if k < base.len() {
                assert(lines@[k] == lines@.subrange(0, base.len() as int)[k]);
            }
        }
    }
}

/// The plan section of the prompt.
pub open spec fn plan_section(plan: Seq<String>) -> Seq<Seq<char>> {
    if plan.len() > 0 {
        seq!["\nPlan:"@] + plan_lines(plan)
    } else {
        seq![]
    }
}

/// The acceptance-criteria section of the prompt.
pub open spec fn criteria_section(criteria: Seq<String>) -> Seq<Seq<char>> {
    if criteria.len() > 0 {
        seq!["\nAcceptance criteria (the task is done only when all hold):"@] + criteria_lines(criteria)
    } else {
        seq![]
    }
}

fn build_plan_section(plan: &Vec<String>) -> (lines: Vec<Vec<char>>)
    ensures
        lines_are(lines@, plan_section(plan@)),
{
    let mut lines: Vec<Vec<char>> = Vec::new();
    if plan.len() == 0 {
        return lines;
    }
    lines.push(chars_of("\nPlan:"));
    let ghost mut lv: Seq<Seq<char>> = seq!["\nPlan:"@];
    let mut i: usize = 0;
    while i < plan.len()
        invariant
            i <= plan@.len(),
            lines_are(lines@, lv),
            lv == seq!["\nPlan:"@] + plan_lines(plan@).take(i as int),
        decreases plan@.len() - i,
    {
        let mut line: Vec<char> = Vec::new();
        push_decimal(&mut line, (i as u64) + 1);
        push_str(&mut line, ". ");
        let step = trimmed(plan[i].as_str());
        push_chars(&mut line, &step);
        proof {
            assert(plan_lines(plan@).take(i + 1) =~= plan_lines(plan@).take(i as int).push(line@));
            lv = lv.push(line@);
        }
        lines.push(line);
        i = i + 1;
    }
    proof {
        assert(plan_lines(plan@).take(plan@.len() as int) =~= plan_lines(plan@));
    }
    lines
}

fn build_criteria_section(criteria: &Vec<String>) -> (lines: Vec<Vec<char>>)
    ensures
        lines_are(lines@, criteria_section(criteria@)),
{
    let mut lines: Vec<Vec<char>> = Vec::new();
    if criteria.len() == 0 {
        return lines;
    }
    lines.push(chars_of("\nAcceptance criteria (the task is done only when all hold):"));
    let ghost mut lv: Seq<Seq<char>> = seq!["\nAcceptance criteria (the task is done only when all hold):"@];
    let mut i: usize = 0;
    while i < criteria.len()
        invariant
            i <= criteria@.len(),
            lines_are(lines@, lv),
            lv == seq!["\nAcceptance criteria (the task is done only when all hold):"@]
                + criteria_lines(criteria@).take(i as int),
        decreases criteria@.len() - i,
    {
        let c = trimmed(criteria[i].as_str());
        let line = prefixed("- ", &c);
        proof {
            assert(criteria_lines(criteria@).take(i + 1) =~= criteria_lines(criteria@).take(i as int).push(line@));
            lv = lv.push(line@);
        }
        lines.push(line);
        i = i + 1;
    }
    proof {
        assert(criteria_lines(criteria@).take(criteria@.len() as int) =~= criteria_lines(criteria@));
    }
    lines
}

fn build_source_section(meta: &SourceMetadata) -> (lines: Vec<Vec<char>>)
    ensures
        lines_are(lines@, source_lines(meta_view(*meta))),
{
    let ghost fv = meta_view(*meta);
    let mut lines: Vec<Vec<char>> = Vec::new();
    let mut origin: Vec<char> = Vec::new();
    match meta_get_exec(meta, "provider") {
        Some(p) => push_chars(&mut origin, &p),
        None => {},
    }
    match meta_get_exec(meta, "repo") {
        Some(r) => {
            push_str(&mut origin, " ");
            push_chars(&mut origin, &r);
        },
        None => {},
    }
    match meta_get_exec(meta, "external_id") {
        Some(id) => {
            push_str(&mut origin, "#");
            push_chars(&mut origin, &id);
        },
        None => {},
    }
    proof {
        assert(origin@ =~= origin_of(fv));
    }
    let ghost mut lv: Seq<Seq<char>> = seq![];
    let t = trim_chars(&origin);
    if t.len() > 0 {
        let mut line = prefixed("\nThis task originates from ", &t);
        push_str(&mut line, ". Its activity has been ingested into memory — use your memory_recall tool to pull related context (prior discussion, linked items) before and while you work.");
        proof {
            lv = lv.push(line@);
        }
        lines.push(line);
    }
    match meta_get_exec(meta, "url") {
        Some(u) => {
            let line = prefixed("Source link: ", &u);
            proof {
                lv = lv.push(line@);
            }
            lines.push(line);
        },
        None => {},
    }
    proof {
        assert(lv =~= source_lines(fv));
    }
    lines
}

/// Render a card into the goal prompt handed to the autonomous run: the
/// objective, the numbered plan, the acceptance criteria, a pointer to the
/// originating source (so the agent can recall related context from
/// memory), and the closing instructions.
pub fn build_task_prompt(card: &TaskBoardCard) -> (r: String)
    ensures
        r@ == task_prompt(*card),
        card.plan@.len() > 0 ==> contains_text(r@, "\n"@ + "\nPlan:"@),
        forall|k: int|
            0 <= k < card.plan@.len() ==> contains_text(
                r@,
                "\n"@ + (decimal((k + 1) as nat) + ". "@ + trim(#[trigger] card.plan@[k]@)),
            ),
        card.acceptance_criteria@.len() > 0 ==> contains_text(
            r@,
            "\n"@ + "\nAcceptance criteria (the task is done only when all hold):"@,
        ),
        forall|k: int|
            0 <= k < card.acceptance_criteria@.len() ==> contains_text(
                r@,
                "\n"@ + ("- "@ + trim(#[trigger] card.acceptance_criteria@[k]@)),
            ),
{
    let objective = match &card.objective {
        Some(o) => {
            let t = trimmed(o.as_str());
            if t.len() > 0 {
                t
            } else {
                trimmed(card.title.as_str())
            }
        },
        None => trimmed(card.title.as_str()),
    };
    let mut lines: Vec<Vec<char>> = Vec::new();
    lines.push(prefixed("You are autonomously executing one task to completion. Objective:\n", &objective));
    let ghost l0 = seq!["You are autonomously executing one task to completion. Objective:\n"@ + objective_of(*card)];
    append_lines(&mut lines, Ghost(l0), build_plan_section(&card.plan), Ghost(plan_section(card.plan@)));
    let ghost l1 = l0 + plan_section(card.plan@);
    append_lines(&mut lines, Ghost(l1), build_criteria_section(&card.acceptance_criteria), Ghost(criteria_section(card.acceptance_criteria@)));
    let ghost l2 = l1 + criteria_section(card.acceptance_criteria@);
    let ghost sv = source_section(*card);
    let source = match &card.source_metadata {
        Some(meta) => build_source_section(meta),
        None => Vec::new(),
    };
    append_lines(&mut lines, Ghost(l2), source, Ghost(sv));
    lines.push(chars_of("\nWork the task to completion. Do not pick up unrelated work. When finished, your final message should summarise what you did and the evidence (commits, PRs, results)."));
    let ghost lv = (l2 + sv).push("\nWork the task to completion. Do not pick up unrelated work. When finished, your final message should summarise what you did and the evidence (commits, PRs, results)."@);
    proof {
        assert(lv =~= prompt_lines(*card));
    }
    let mut out: Vec<char> = Vec::new();
    push_joined(&mut out, &lines, Ghost(lv), "\n");
    proof {
        assert(out@ =~= task_prompt(*card));
        let pl = prompt_lines(*card);
        let ps = plan_section(card.plan@);
        let cs = criteria_section(card.acceptance_criteria@);
        assert(pl == seq!["You are autonomously executing one task to completion. Objective:\n"@ + objective_of(*card)] + ps + cs + source_section(*card) + seq![
            "\nWork the task to completion. Do not pick up unrelated work. When finished, your final message should summarise what you did and the evidence (commits, PRs, results)."@,
        ]);
        if card.plan@.len() > 0 {
            assert(pl[1] == ps[0]);
            lemma_join_has_part(pl, "\n"@, 1);
        }
        assert forall|k: int| 0 <= k < card.plan@.len() implies contains_text(
            out@,
            "\n"@ + (decimal((k + 1) as nat) + ". "@ + trim(#[trigger] card.plan@[k]@)),
        ) by {
            assert(pl[2 + k] == ps[1 + k]);
            lemma_join_has_part(pl, "\n"@, 2 + k);
        }
        let base: int = 1 + ps.len() as int;
        if card.acceptance_criteria@.len() > 0 {
            assert(pl[base] == cs[0]);
            lemma_join_has_part(pl, "\n"@, base);
        }
        assert forall|k: int| 0 <= k < card.acceptance_criteria@.len() implies contains_text(
            out@,
            "\n"@ + ("- "@ + trim(#[trigger] card.acceptance_criteria@[k]@)),
        ) by {
            assert(pl[base + 1 + k] == cs[1 + k]);
            lemma_join_has_part(pl, "\n"@, base + 1 + k);
        }
    }
    string_from_chars(&out)
}


// ── The board poller ────────────────────────────────────────────────────────

/// Tool-iteration ceiling for an autonomous task run.
pub const TASK_RUN_MAX_ITERATIONS: usize = 200;

/// The cards a poller tick may dispatch: none while a card is in progress
/// (the board runs one card at a time), otherwise the indices of the `todo`
/// cards in board order.
pub open spec fn candidates(cards: Seq<TaskBoardCard>) -> Seq<int> {
    if exists|i: int| 0 <= i < cards.len() && cards[i].status == TaskCardStatus::InProgress {
        seq![]
    } else {
        Seq::new(cards.len(), |i: int| i).filter(|i: int| cards[i].status == TaskCardStatus::Todo)
    }
}

/// The indices of the cards a poller tick may dispatch (the most urgent of
/// them is then picked).
pub fn dispatch_candidates(cards: &Vec<TaskBoardCard>) -> (r: Vec<usize>)
    ensures
        r@.map_values(|i: usize| i as int) == candidates(cards@),
        forall|k: int| 0 <= k < r@.len() ==> r@[k] < cards@.len() && cards@[r@[k] as int].status
            == TaskCardStatus::Todo,
        forall|k: int, j: int| 0 <= k < j < r@.len() ==> r@[k] < r@[j],
        (exists|i: int| 0 <= i < cards@.len() && cards@[i].status == TaskCardStatus::InProgress) ==> r@.len()
            == 0,
        (forall|i: int| 0 <= i < cards@.len() ==> cards@[i].status != TaskCardStatus::InProgress) ==> forall|
            i: int,
        |
            0 <= i < cards@.len() && cards@[i].status == TaskCardStatus::Todo ==> exists|k: int|
                0 <= k < r@.len() && r@[k] == i,
{
    let ghost all = Seq::new(cards@.len(), |i: int| i);
    let ghost pred = |i: int| cards@[i].status == TaskCardStatus::Todo;
    let mut r: Vec<usize> = Vec::new();
    let mut i: usize = 0;
    proof {
        assert(all.take(0).filter(pred) =~= Seq::<int>::empty());
    }
    while i < cards.len()
        invariant
            i <= cards@.len(),
            all == Seq::new(cards@.len(), |i: int| i),
            pred == (|i: int| cards@[i].status == TaskCardStatus::Todo),
            forall|k: int| 0 <= k < i ==> cards@[k].status != TaskCardStatus::InProgress,
            r@.map_values(|i: usize| i as int) == all.take(i as int).filter(pred),
            forall|k: int| 0 <= k < r@.len() ==> r@[k] < i && cards@[r@[k] as int].status == TaskCardStatus::Todo,
            forall|k: int, j: int| 0 <= k < j < r@.len() ==> r@[k] < r@[j],
            forall|j: int| 0 <= j < i && cards@[j].status == TaskCardStatus::Todo ==> exists|k: int|
                0 <= k < r@.len() && r@[k] == j,
        decreases cards@.len() - i,
    {
        match cards[i].status {
            TaskCardStatus::InProgress => {
                let empty: Vec<usize> = Vec::new();
                proof {
                    assert(empty@.map_values(|i: usize| i as int) =~= Seq::<int>::empty());
                    assert(cards@[i as int].status == TaskCardStatus::InProgress);
                }
                return empty;
            },
            _ => {},
        }
        proof {
            assert(all.take(i + 1) =~= all.take(i as int).push(i as int));
            all.take(i as int).lemma_filter_push(i as int, pred);
        }
        let ghost before = r@;
        if matches!(cards[i].status, TaskCardStatus::Todo) {
            r.push(i);
            proof {
                assert(r@.map_values(|i: usize| i as int) =~= all.take(i as int).filter(pred).push(i as int));
                assert(r@[before.len() as int] == i);
            }
        }
        proof {
            assert forall|j: int| 0 <= j < i + 1 && cards@[j].status == TaskCardStatus::Todo implies exists|k: int|
                0 <= k < r@.len() && r@[k] == j by {
                if j < i {
                    let k = choose|k: int| 0 <= k < before.len() && before[k] == j;
                    assert(r@[k] == before[k]);
                } else {
                    assert(r@[before.len() as int] == j);
                }
            }
        }
        i = i + 1;
    }
    proof {
        assert(all.take(cards@.len() as int) =~= all);
    }
    r
}

/// The characters of `s` that make up exactly its first `n` bytes, when a
/// character boundary falls there (`str::get(..n)`).
pub open spec fn byte_prefix(s: Seq<char>, n: nat) -> Option<Seq<char>> {
    if exists|k: int| 0 <= k <= s.len() && byte_len(s.take(k)) == n {
        Some(s.take(choose|k: int| 0 <= k <= s.len() && byte_len(s.take(k)) == n))
    } else {
        None
    }
}

proof fn lemma_byte_len_step(s: Seq<char>, k: int)
    requires
        0 <= k < s.len(),
    ensures
        byte_len(s.take(k + 1)) >= byte_len(s.take(k)) + 1,
        byte_len(s.take(k + 1)) <= byte_len(s.take(k)) + 4,
{
    let one = seq![s[k]];
    assert(s.take(k + 1) =~= s.take(k) + one);
    lemma_encode_utf8_concat(s.take(k), one);
    assert(one.drop_first() =~= Seq::<char>::empty());
    assert(encode_utf8(one.drop_first()) =~= Seq::<u8>::empty());
    assert(encode_utf8(one) =~= encode_scalar(s[k] as u32) + encode_utf8(one.drop_first()));
}

/// Longer prefixes take more bytes.
proof fn lemma_byte_len_increasing(s: Seq<char>, j: int, k: int)
    requires
        0 <= j < k <= s.len(),
    ensures
        byte_len(s.take(j)) < byte_len(s.take(k)),
    decreases k - j,
{
    lemma_byte_len_step(s, k - 1);
    if j < k - 1 {
        lemma_byte_len_increasing(s, j, k - 1);
    }
}

/// The name a task run's agent gets: `orchestrator-task-` and the first
/// eight bytes of the run id, or the whole id when those do not end on a
/// character boundary.
pub open spec fn task_agent_name_of(run_id: Seq<char>) -> Seq<char> {
    "orchestrator-task-"@ + match byte_prefix(run_id, 8) {
        Some(p) => p,
        None => run_id,
    }
}

/// The agent name of a task run.
pub fn task_agent_name(run_id: &str) -> (r: String)
    ensures
        r@ == task_agent_name_of(run_id@),
{
    let v = chars_of(run_id);
    let ghost s = v@;
    let mut n: usize = 0;
    let mut i: usize = 0;
    proof {
        assert(s.take(0) =~= Seq::<char>::empty());
    }
    while i < v.len() && n < 8
        invariant
            s == v@,
            i <= v.len(),
            n as nat == byte_len(s.take(i as int)),
            n < 12,
            i > 0 ==> byte_len(s.take(i - 1)) < 8,
        decreases v.len() - i,
    {
        proof {
            lemma_byte_len_step(s, i as int);
        }
        let w = utf8_width(v[i]);
        proof {
            let one = seq![s[i as int]];
            assert(s.take(i + 1) =~= s.take(i as int) + one);
            lemma_encode_utf8_concat(s.take(i as int), one);
            assert(one.drop_first() =~= Seq::<char>::empty());
            assert(encode_utf8(one.drop_first()) =~= Seq::<u8>::empty());
            assert(encode_utf8(one) =~= encode_scalar(s[i as int] as u32) + encode_utf8(one.drop_first()));
        }
        n = n + w as usize;
        i = i + 1;
    }
    let mut out: Vec<char> = Vec::new();
    push_str(&mut out, "orchestrator-task-");
    if n == 8 {
        proof {
            assert(byte_len(s.take(i as int)) == 8);
            let k = choose|k: int| 0 <= k <= s.len() && byte_len(s.take(k)) == 8;
            if k < i {
                lemma_byte_len_increasing(s, k, i as int);
            } else if k > i {
                lemma_byte_len_increasing(s, i as int, k);
            }
        }
        let mut j: usize = 0;
        let ghost start = out@;
        while j < i
            invariant
                s == v@,
                j <= i <= v.len(),
                out@ == start + s.take(j as int),
            decreases i - j,
        {
            out.push(v[j]);
            j = j + 1;
            proof {
                assert(s.take(j as int) =~= s.take(j - 1).push(s[j - 1]));
            }
        }
    } else {
        proof {
            assert forall|k: int| 0 <= k <= s.len() implies byte_len(#[trigger] s.take(k)) != 8 by {
                if n > 8 {
                    if k < i - 1 {
                        lemma_byte_len_increasing(s, k, i - 1);
                    } else if k > i {
                        lemma_byte_len_increasing(s, i as int, k);
                    }
                } else {
                    assert(i == v.len());
                    if k < i {
                        lemma_byte_len_increasing(s, k, i as int);
                    }
                }
            }
        }
        push_chars(&mut out, &v);
    }
    string_from_chars(&out)
}

/// The egress allow-list of a task run: the configured one, or every domain
/// when none is configured.
pub fn egress_allow_list(configured: Vec<String>) -> (r: Vec<String>)
    ensures
        configured@.len() == 0 ==> r@.map_values(|d: String| d@) == seq!["*"@],
        configured@.len() > 0 ==> r@ == configured@,
{
    if configured.len() == 0 {
        let mut r: Vec<String> = Vec::new();
        r.push("*".to_owned());
        proof {
            assert(r@.map_values(|d: String| d@) =~= seq!["*"@]);
        }
        r
    } else {
        configured
    }
}


// ── Laws ────────────────────────────────────────────────────────────────────

/// The poller only ever considers `todo` cards, in board order, and every
/// `todo` card while nothing is in progress; nothing while a card is in
/// progress.
pub proof fn lemma_candidates_are_todo_cards(cards: Seq<TaskBoardCard>)
    ensures
        forall|k: int| 0 <= k < candidates(cards).len() ==> 0 <= #[trigger] candidates(cards)[k] < cards.len()
            && cards[candidates(cards)[k]].status == TaskCardStatus::Todo,
        (exists|i: int| 0 <= i < cards.len() && cards[i].status == TaskCardStatus::InProgress) ==> candidates(
            cards,
        ).len() == 0,
        (forall|i: int| 0 <= i < cards.len() ==> cards[i].status != TaskCardStatus::InProgress) ==> forall|i: int|
            0 <= i < cards.len() && cards[i].status == TaskCardStatus::Todo ==> candidates(cards).contains(i),
{
    let all = Seq::new(cards.len(), |i: int| i);
    let pred = |i: int| cards[i].status == TaskCardStatus::Todo;
    if !(exists|i: int| 0 <= i < cards.len() && cards[i].status == TaskCardStatus::InProgress) {
        all.filter_lemma(pred);
        assert forall|k: int| 0 <= k < candidates(cards).len() implies 0 <= #[trigger] candidates(cards)[k]
            < cards.len() && cards[candidates(cards)[k]].status == TaskCardStatus::Todo by {
            let x = all.filter(pred)[k];
            assert(all.filter(pred).contains(x));
            all.lemma_filter_contains_rev(pred, x);
            let j = choose|j: int| 0 <= j < all.len() && all[j] == x;
            assert(pred(x));
        }
        assert forall|i: int| 0 <= i < cards.len() && cards[i].status == TaskCardStatus::Todo implies candidates(
            cards,
        ).contains(i) by {
            assert(all[i] == i);
            assert(all.contains(i));
        }
    }
}

/// The prompt lists every acceptance criterion, each on a line of its own
/// after the criteria header, whatever the plan; and every plan step,
/// numbered, after the plan header.
pub proof fn lemma_prompt_lists_plan_and_criteria(card: TaskBoardCard)
    ensures
        card.acceptance_criteria@.len() > 0 ==> contains_text(
            task_prompt(card),
            "\n"@ + "\nAcceptance criteria (the task is done only when all hold):"@,
        ),
        forall|k: int|
            0 <= k < card.acceptance_criteria@.len() ==> contains_text(
                task_prompt(card),
                "\n"@ + ("- "@ + trim(#[trigger] card.acceptance_criteria@[k]@)),
            ),
        card.plan@.len() > 0 ==> contains_text(task_prompt(card), "\n"@ + "\nPlan:"@),
        forall|k: int|
            0 <= k < card.plan@.len() ==> contains_text(
                task_prompt(card),
                "\n"@ + (decimal((k + 1) as nat) + ". "@ + trim(#[trigger] card.plan@[k]@)),
            ),
{
    let pl = prompt_lines(card);
    let ps = if card.plan@.len() > 0 {
        seq!["\nPlan:"@] + plan_lines(card.plan@)
    } else {
        seq![]
    };
    let base: int = 1 + ps.len() as int;
    if card.plan@.len() > 0 {
        assert(pl[1] == ps[0]);
        lemma_join_has_part(pl, "\n"@, 1);
    }
    assert forall|k: int| 0 <= k < card.plan@.len() implies contains_text(
        task_prompt(card),
        "\n"@ + (decimal((k + 1) as nat) + ". "@ + trim(#[trigger] card.plan@[k]@)),
    ) by {
        assert(pl[2 + k] == ps[1 + k]);
        lemma_join_has_part(pl, "\n"@, 2 + k);
    }
    if card.acceptance_criteria@.len() > 0 {
        assert(pl[base] == "\nAcceptance criteria (the task is done only when all hold):"@);
        lemma_join_has_part(pl, "\n"@, base);
    }
    assert forall|k: int| 0 <= k < card.acceptance_criteria@.len() implies contains_text(
        task_prompt(card),
        "\n"@ + ("- "@ + trim(#[trigger] card.acceptance_criteria@[k]@)),
    ) by {
        assert(pl[base + 1 + k] == criteria_lines(card.acceptance_criteria@)[k]);
        lemma_join_has_part(pl, "\n"@, base + 1 + k);
    }
}

} // verus!
