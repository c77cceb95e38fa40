//! Archivist helpers: what a finished turn contributes to episodic memory.
//!
//! The rows a finished turn writes, the prose of an assistant response
//! without its tool-call markup (the only assistant text that reaches the
//! memory tree), the lesson recorded from failed tool calls, how a turn moves
//! the session's segments, and the key under which an extracted preference or
//! fact is stored in the user profile.

use vstd::prelude::*;
use crate::text::{
    lemma_trim_idempotent, lemma_trim_is_subrange,
    chars_of, is_ws, is_ws_char, join, lines_of, occurs_at, push_chars, push_joined, push_str,
    slice, split_lines, string_from_chars, trim, trim_chars, trim_end, trim_end_chars, byte_len,
    utf8_len,
};

verus! {

// ── Tool-call markup ────────────────────────────────────────────────────────

/// First index at or after `i` where `pat` occurs in `s`.
pub open spec fn find_from(s: Seq<char>, pat: Seq<char>, i: int) -> Option<int>
    decreases s.len() + 1 - i,
{
    if i < 0 || i + pat.len() > s.len() {
        None
    } else if s.subrange(i, i + pat.len()) == pat {
        Some(i)
    } else {
        find_from(s, pat, i + 1)
    }
}

/// `s.find(pat)`.
pub open spec fn find(s: Seq<char>, pat: Seq<char>) -> Option<int> {
    find_from(s, pat, 0)
}

/// Whether `pat` occurs in `s`.
pub open spec fn contains_seq(s: Seq<char>, pat: Seq<char>) -> bool {
    find(s, pat) is Some
}

/// Where `find_from` points, `pat` occurs, at or after `i`.
pub proof fn lemma_find_from_bounds(s: Seq<char>, pat: Seq<char>, i: int)
    ensures
        find_from(s, pat, i) matches Some(k) ==> i <= k && k + pat.len() <= s.len() && s.subrange(
            k,
            k + pat.len(),
        ) == pat,
    decreases s.len() + 1 - i,
{
    if !(i < 0 || i + pat.len() > s.len()) && s.subrange(i, i + pat.len()) != pat {
        lemma_find_from_bounds(s, pat, i + 1);
    }
}

/// `<tool_call>`.
pub open spec fn open_tag() -> Seq<char> {
    seq!['<', 't', 'o', 'o', 'l', '_', 'c', 'a', 'l', 'l', '>']
}

/// `</tool_call>`.
pub open spec fn close_tag() -> Seq<char> {
    seq!['<', '/', 't', 'o', 'o', 'l', '_', 'c', 'a', 'l', 'l', '>']
}

/// `s` with every `<tool_call>…</tool_call>` span removed, searching again
/// from the start after each removal; an unclosed tag cuts the rest.
pub open spec fn remove_blocks(s: Seq<char>) -> Seq<char>
    decreases s.len(),
{
    match find(s, open_tag()) {
        None => s,
        Some(i) => match find(s.skip(i), close_tag()) {
            Some(e) => {
                proof {
                    lemma_find_from_bounds(s, open_tag(), 0);
                    lemma_find_from_bounds(s.skip(i), close_tag(), 0);
                }
                remove_blocks(s.take(i) + s.skip(i + e + close_tag().len()))
            },
            None => s.take(i),
        },
    }
}

/// `{"tool_calls":`, the start of a raw tool-call JSON object.
pub open spec fn json_marker() -> Seq<char> {
    seq!['{', '"', 't', 'o', 'o', 'l', '_', 'c', 'a', 'l', 'l', 's', '"', ':']
}

/// Index just past the brace that closes the JSON object being scanned from
/// `i`, with `depth` braces open, inside a string or not, right after a
/// backslash in a string or not; `s.len()` when the object never closes.
/// Braces inside strings do not count.
pub open spec fn object_end(s: Seq<char>, i: int, depth: nat, in_str: bool, esc: bool) -> int
    decreases s.len() - i,
{
    if i < 0 || i >= s.len() {
        s.len() as int
    } else if in_str {
        if esc {
            object_end(s, i + 1, depth, true, false)
        } else if s[i] == '\\' {
            object_end(s, i + 1, depth, true, true)
        } else if s[i] == '"' {
            object_end(s, i + 1, depth, false, false)
        } else {
            object_end(s, i + 1, depth, true, false)
        }
    } else if s[i] == '"' {
        object_end(s, i + 1, depth, true, false)
    } else if s[i] == '{' {
        object_end(s, i + 1, depth + 1, false, false)
    } else if s[i] == '}' && depth <= 1 {
        i + 1
    } else if s[i] == '}' {
        object_end(s, i + 1, (depth - 1) as nat, false, false)
    } else {
        object_end(s, i + 1, depth, false, false)
    }
}

/// The scan ends within `s`, and past where it starts when it starts inside.
pub proof fn lemma_object_end_bounds(s: Seq<char>, i: int, depth: nat, in_str: bool, esc: bool)
    requires
        0 <= i <= s.len(),
    ensures
        object_end(s, i, depth, in_str, esc) <= s.len(),
        i < s.len() ==> i < object_end(s, i, depth, in_str, esc),
    decreases s.len() - i,
{
    if i < s.len() {
        lemma_object_end_bounds(s, i + 1, (depth + 1) as nat, false, false);
        lemma_object_end_bounds(s, i + 1, depth, false, false);
        lemma_object_end_bounds(s, i + 1, depth, true, false);
        lemma_object_end_bounds(s, i + 1, depth, true, true);
        if depth > 1 {
            lemma_object_end_bounds(s, i + 1, (depth - 1) as nat, false, false);
        }
    }
}

/// `s` with every raw JSON object that begins with `{"tool_calls":` removed,
/// searching again from the start after each removal; an object that never
/// closes cuts the rest.
pub open spec fn remove_json_calls(s: Seq<char>) -> Seq<char>
    decreases s.len(),
{
    match find(s, json_marker()) {
        None => s,
        Some(p) => {
            proof {
                lemma_find_from_bounds(s, json_marker(), 0);
                lemma_object_end_bounds(s, p, 0, false, false);
            }
            remove_json_calls(s.take(p) + s.skip(object_end(s, p, 0, false, false)))
        },
    }
}

/// Removing `<tool_call>` blocks never lengthens the text, and shortens it
/// whenever a block opens in it.
pub proof fn lemma_remove_blocks_len(s: Seq<char>)
    ensures
        remove_blocks(s).len() <= s.len(),
        find(s, open_tag()) is Some ==> remove_blocks(s).len() < s.len(),
        find(s, open_tag()) is None ==> remove_blocks(s) == s,
    decreases s.len(),
{
    match find(s, open_tag()) {
        None => {},
        Some(i) => {
            lemma_find_from_bounds(s, open_tag(), 0);
            match find(s.skip(i), close_tag()) {
                Some(e) => {
                    lemma_find_from_bounds(s.skip(i), close_tag(), 0);
                    lemma_remove_blocks_len(s.take(i) + s.skip(i + e + close_tag().len()));
                },
                None => {},
            }
        },
    }
}

/// Removing raw tool-call objects never lengthens the text, and shortens
/// it whenever such an object starts in it.
pub proof fn lemma_remove_json_calls_len(s: Seq<char>)
    ensures
        remove_json_calls(s).len() <= s.len(),
        find(s, json_marker()) is Some ==> remove_json_calls(s).len() < s.len(),
    decreases s.len(),
{
    match find(s, json_marker()) {
        None => {},
        Some(p) => {
            lemma_find_from_bounds(s, json_marker(), 0);
            lemma_object_end_bounds(s, p, 0, false, false);
            lemma_remove_json_calls_len(s.take(p) + s.skip(object_end(s, p, 0, false, false)));
        },
    }
}

/// `s` with tool-call markup removed until none is left: `<tool_call>`
/// blocks and raw `{"tool_calls":` objects are removed in turn, again and
/// again, since removing one may join the text around it into another.
pub open spec fn purge(s: Seq<char>) -> Seq<char>
    decreases s.len(),
{
    if find(s, open_tag()) is None && find(s, json_marker()) is None {
        s
    } else {
        proof {
            lemma_remove_blocks_len(s);
            lemma_remove_json_calls_len(remove_blocks(s));
        }
        purge(remove_json_calls(remove_blocks(s)))
    }
}

/// Purged text holds no `<tool_call>` tag and no raw tool-call object.
pub proof fn lemma_purge_clean(s: Seq<char>)
    ensures
        find(purge(s), open_tag()) is None,
        find(purge(s), json_marker()) is None,
    decreases s.len(),
{
    if !(find(s, open_tag()) is None && find(s, json_marker()) is None) {
        lemma_remove_blocks_len(s);
        lemma_remove_json_calls_len(remove_blocks(s));
        lemma_purge_clean(remove_json_calls(remove_blocks(s)));
    }
}

/// `find_from` finds nothing exactly when `pat` occurs nowhere at or after
/// `i`.
proof fn lemma_find_from_none(s: Seq<char>, pat: Seq<char>, i: int)
    requires
        0 <= i,
    ensures
        find_from(s, pat, i) is None <==> forall|k: int| i <= k ==> !#[trigger] occurs_at(s, pat, k),
    decreases s.len() + 1 - i,
{
    if i + pat.len() > s.len() {
    } else if s.subrange(i, i + pat.len()) == pat {
        assert(occurs_at(s, pat, i));
    } else {
        lemma_find_from_none(s, pat, i + 1);
        assert forall|k: int| i <= k && (forall|k2: int| i + 1 <= k2 ==> !#[trigger] occurs_at(s, pat, k2))
            implies !#[trigger] occurs_at(s, pat, k) by {
            if k > i {
                assert(!occurs_at(s, pat, k));
            }
        }
    }
}

/// What does not occur in `s` does not occur in a piece of it.
proof fn lemma_find_none_subrange(s: Seq<char>, pat: Seq<char>, a: int, b: int)
    requires
        0 <= a <= b <= s.len(),
        find(s, pat) is None,
    ensures
        find(s.subrange(a, b), pat) is None,
{
    let t = s.subrange(a, b);
    lemma_find_from_none(s, pat, 0);
    lemma_find_from_none(t, pat, 0);
    assert forall|k: int| 0 <= k implies !#[trigger] occurs_at(t, pat, k) by {
        if occurs_at(t, pat, k) {
            assert(s.subrange(a + k, a + k + pat.len()) =~= t.subrange(k, k + pat.len()));
            assert(occurs_at(s, pat, a + k));
        }
    }
}

/// Where `q` is a prefix of `p` and does not occur in `s`, `p` does not
/// either.
proof fn lemma_find_none_prefix(s: Seq<char>, p: Seq<char>, q: Seq<char>)
    requires
        q.len() <= p.len(),
        p.take(q.len() as int) == q,
        find(s, q) is None,
    ensures
        find(s, p) is None,
{
    lemma_find_from_none(s, q, 0);
    lemma_find_from_none(s, p, 0);
    assert forall|k: int| 0 <= k implies !#[trigger] occurs_at(s, p, k) by {
        if occurs_at(s, p, k) {
            assert(s.subrange(k, k + q.len()) =~= s.subrange(k, k + p.len()).take(q.len() as int));
            assert(occurs_at(s, q, k));
        }
    }
}

/// Blank-line runs longer than two collapsed: each non-empty line followed
/// by a newline, each empty line a newline while the run of empty lines is
/// at most two long (`run` empty lines precede).
pub open spec fn collapse_from(lines: Seq<Seq<char>>, run: nat) -> Seq<char>
    decreases lines.len(),
{
    if lines.len() == 0 {
        seq![]
    } else if lines[0].len() == 0 {
        (if run + 1 <= 2 {
            seq!['\n']
        } else {
            seq![]
        }) + collapse_from(lines.drop_first(), run + 1)
    } else {
        lines[0] + seq!['\n'] + collapse_from(lines.drop_first(), 0)
    }
}

/// Whether a response may hold tool-call markup.
pub open spec fn has_tool_markers(r: Seq<char>) -> bool {
    contains_seq(r, open_tag()) || contains_seq(r, "{\"tool_calls\""@) || contains_seq(
        r,
        "\"tool_use\""@,
    )
}

/// Trailing whitespace of each line trimmed and runs of blank lines
/// collapsed to two.
pub open spec fn tidy_lines(s: Seq<char>) -> Seq<char> {
    let joined = join(lines_of(s).map_values(|l: Seq<char>| trim_end(l)), "\n"@);
    collapse_from(lines_of(joined), 0)
}

/// The prose of an assistant response: unchanged when it has no tool-call
/// markers; otherwise purged of tool-call markup, its lines tidied, purged
/// again should tidying have brought markup together, and trimmed.
pub open spec fn stripped(r: Seq<char>) -> Seq<char> {
    if !has_tool_markers(r) {
        r
    } else {
        trim(purge(tidy_lines(purge(r))))
    }
}

/// Stripped prose holds no `<tool_call>` tag (so no tool-call block) and no
/// raw `{"tool_calls":` object, and for a marked response it is trimmed.
pub proof fn lemma_stripped_is_clean(r: Seq<char>)
    ensures
        find(stripped(r), open_tag()) is None,
        find(stripped(r), json_marker()) is None,
        has_tool_markers(r) ==> trim(stripped(r)) == stripped(r),
{
    if !has_tool_markers(r) {
        reveal_strlit("{\"tool_calls\"");
        assert(json_marker().take(13) =~= "{\"tool_calls\""@);
        lemma_find_none_prefix(r, json_marker(), "{\"tool_calls\""@);
    } else {
        let c = purge(tidy_lines(purge(r)));
        lemma_purge_clean(tidy_lines(purge(r)));
        let (a, b) = lemma_trim_is_subrange(c);
        lemma_find_none_subrange(c, open_tag(), a, b);
        lemma_find_none_subrange(c, json_marker(), a, b);
        lemma_trim_idempotent(c);
    }
}

fn find_exec(s: &Vec<char>, pat: &Vec<char>, from: usize) -> (r: Option<usize>)
    requires
        from <= s@.len(),
    ensures
        match r {
            Some(k) => find_from(s@, pat@, from as int) == Some(k as int),
            None => find_from(s@, pat@, from as int) is None,
        },
{
    let n = s.len();
    let mut i = from;
    while pat.len() <= n - i
        invariant
            n == s@.len(),
            from <= i <= s@.len(),
            find_from(s@, pat@, from as int) == find_from(s@, pat@, i as int),
        decreases s@.len() - i,
    {
        let mut k: usize = 0;
        let mut ok = true;
        while k < pat.len()
            invariant
                n == s@.len(),
                i <= s@.len(),
                pat@.len() <= s@.len() - i,
                k <= pat@.len(),
                ok == (forall|q: int| 0 <= q < k ==> #[trigger] s@[i + q] == pat@[q]),
            decreases pat@.len() - k,
        {
            if s[i + k] != pat[k] {
                ok = false;
            }
            k = k + 1;
        }
        proof {
            if ok {
                assert forall|q: int| 0 <= q < pat@.len() implies s@.subrange(i as int, i + pat@.len())[q] == pat@[q] by {
                    assert(s@[i + q] == pat@[q]);
                }
                assert(s@.subrange(i as int, i + pat@.len()) =~= pat@);
            } else {
                let q = choose|q: int| 0 <= q < pat@.len() && s@[i + q] != pat@[q];
                assert(s@.subrange(i as int, i + pat@.len())[q] != pat@[q]);
            }
        }
        if ok {
            return Some(i);
        }
        if i == n {
            return None;
        }
        i = i + 1;
    }
    None
}

/// `a` followed by `b[from..]`.
fn splice(a: &Vec<char>, b: &Vec<char>, from: usize) -> (r: Vec<char>)
    requires
        from <= b@.len(),
    ensures
        r@ == a@ + b@.skip(from as int),
{
    let mut r = slice(a, 0, a.len());
    let tail = slice(b, from, b.len());
    push_chars(&mut r, &tail);
    proof {
        assert(a@.subrange(0, a@.len() as int) =~= a@);
        assert(b@.subrange(from as int, b@.len() as int) =~= b@.skip(from as int));
    }
    r
}

fn remove_blocks_exec(s: &Vec<char>) -> (r: Vec<char>)
    ensures
        r@ == remove_blocks(s@),
{
    let open = vec!['<', 't', 'o', 'o', 'l', '_', 'c', 'a', 'l', 'l', '>'];
    let close = vec!['<', '/', 't', 'o', 'o', 'l', '_', 'c', 'a', 'l', 'l', '>'];
    let mut cur = slice(s, 0, s.len());
    proof {
        assert(s@.subrange(0, s@.len() as int) =~= s@);
        assert(open@ =~= open_tag());
        assert(close@ =~= close_tag());
    }
    loop
        invariant
            open@ == open_tag(),
            close@ == close_tag(),
            remove_blocks(cur@) == remove_blocks(s@),
        decreases cur@.len(),
    {
        match find_exec(&cur, &open, 0) {
            None => {
                return cur;
            },
            Some(i) => {
                proof {
                    lemma_find_from_bounds(cur@, open_tag(), 0);
                }
                let rest = slice(&cur, i, cur.len());
                proof {
                    assert(rest@ =~= cur@.skip(i as int));
                }
                match find_exec(&rest, &close, 0) {
                    None => {
                        return slice(&cur, 0, i);
                    },
                    Some(e) => {
                        proof {
                            lemma_find_from_bounds(rest@, close_tag(), 0);
                        }
                        let head = slice(&cur, 0, i);
                        let next = splice(&head, &cur, i + e + close.len());
                        proof {
                            assert(head@ =~= cur@.take(i as int));
                        }
                        cur = next;
                    },
                }
            },
        }
    }
}

fn object_end_exec(s: &Vec<char>, start: usize) -> (e: usize)
    requires
        start <= s@.len(),
    ensures
        e as int == object_end(s@, start as int, 0, false, false),
{
    let mut i = start;
    let mut depth: usize = 0;
    let mut in_str = false;
    let mut esc = false;
    while i < s.len()
        invariant
            start <= i <= s@.len(),
            depth <= i,
            esc ==> in_str,
            object_end(s@, start as int, 0, false, false) == object_end(s@, i as int, depth as nat, in_str, esc),
        decreases s@.len() - i,
    {
        let c = s[i];
        if in_str {
            if esc {
                esc = false;
            } else if c == '\\' {
                esc = true;
            } else if c == '"' {
                in_str = false;
            }
        } else if c == '"' {
            in_str = true;
        } else if c == '{' {
            depth = depth + 1;
        } else if c == '}' {
            if depth <= 1 {
                return i + 1;
            }
            depth = depth - 1;
        }
        i = i + 1;
    }
    s.len()
}

fn remove_json_calls_exec(s: &Vec<char>) -> (r: Vec<char>)
    ensures
        r@ == remove_json_calls(s@),
{
    let marker = vec!['{', '"', 't', 'o', 'o', 'l', '_', 'c', 'a', 'l', 'l', 's', '"', ':'];
    let mut cur = slice(s, 0, s.len());
    proof {
        assert(s@.subrange(0, s@.len() as int) =~= s@);
        assert(marker@ =~= json_marker());
    }
    loop
        invariant
            marker@ == json_marker(),
            remove_json_calls(cur@) == remove_json_calls(s@),
        decreases cur@.len(),
    {
        match find_exec(&cur, &marker, 0) {
            None => {
                return cur;
            },
            Some(p) => {
                proof {
                    lemma_find_from_bounds(cur@, json_marker(), 0);
                    lemma_object_end_bounds(cur@, p as int, 0, false, false);
                }
                let e = object_end_exec(&cur, p);
                let head = slice(&cur, 0, p);
                let next = splice(&head, &cur, e);
                proof {
                    assert(head@ =~= cur@.take(p as int));
                }
                cur = next;
            },
        }
    }
}

fn purge_exec(s: &Vec<char>) -> (r: Vec<char>)
    ensures
        r@ == purge(s@),
{
    let open = vec!['<', 't', 'o', 'o', 'l', '_', 'c', 'a', 'l', 'l', '>'];
    let marker = vec!['{', '"', 't', 'o', 'o', 'l', '_', 'c', 'a', 'l', 'l', 's', '"', ':'];
    let mut cur = slice(s, 0, s.len());
    proof {
        assert(s@.subrange(0, s@.len() as int) =~= s@);
        assert(open@ =~= open_tag());
        assert(marker@ =~= json_marker());
    }
    loop
        invariant
            open@ == open_tag(),
            marker@ == json_marker(),
            purge(cur@) == purge(s@),
        decreases cur@.len(),
    {
        let has_open = find_exec(&cur, &open, 0).is_some();
        let has_json = find_exec(&cur, &marker, 0).is_some();
        if !has_open && !has_json {
            return cur;
        }
        proof {
            lemma_remove_blocks_len(cur@);
            lemma_remove_json_calls_len(remove_blocks(cur@));
        }
        cur = remove_json_calls_exec(&remove_blocks_exec(&cur));
    }
}

fn contains_exec(s: &Vec<char>, pat: &str) -> (b: bool)
    ensures
        b == contains_seq(s@, pat@),
{
    let p = chars_of(pat);
    find_exec(s, &p, 0).is_some()
}

/// Strip tool-call markup from an assistant response, leaving its prose.
/// A response without tool-call markers is returned unchanged.
pub fn strip_tool_calls_from_response(response: &str) -> (r: String)
    ensures
        r@ == stripped(response@),
        find(r@, open_tag()) is None,
        find(r@, json_marker()) is None,
        has_tool_markers(response@) ==> trim(r@) == r@,
{
    proof {
        lemma_stripped_is_clean(response@);
    }
    let v = chars_of(response);
    let open = vec!['<', 't', 'o', 'o', 'l', '_', 'c', 'a', 'l', 'l', '>'];
    proof {
        assert(open@ =~= open_tag());
    }
    let marked = find_exec(&v, &open, 0).is_some() || contains_exec(&v, "{\"tool_calls\"")
        || contains_exec(&v, "\"tool_use\"");
    if !marked {
        return string_from_chars(&v);
    }
    let cleaned = purge_exec(&v);
    let lines = split_lines(&cleaned);
    let ghost lv = lines_of(cleaned@);
    let ghost tv = lv.map_values(|l: Seq<char>| trim_end(l));
    let mut trimmed_lines: Vec<Vec<char>> = Vec::new();
    let mut i: usize = 0;
    while i < lines.len()
        invariant
            lines@.len() == lv.len() == tv.len(),
            forall|k: int| 0 <= k < lv.len() ==> #[trigger] lines@[k]@ == lv[k],
            tv == lv.map_values(|l: Seq<char>| trim_end(l)),
            i <= lines@.len(),
            trimmed_lines@.len() == i,
            forall|k: int| 0 <= k < i ==> #[trigger] trimmed_lines@[k]@ == tv[k],
        decreases lines@.len() - i,
    {
        trimmed_lines.push(trim_end_chars(&lines[i]));
        i = i + 1;
    }
    let mut joined: Vec<char> = Vec::new();
    push_joined(&mut joined, &trimmed_lines, Ghost(tv), "\n");
    proof {
        assert(joined@ =~= join(tv, "\n"@));
    }
    let lines2 = split_lines(&joined);
    let ghost l2 = lines_of(joined@);
    let mut out: Vec<char> = Vec::new();
    let mut run: usize = 0;
    let mut k: usize = 0;
    proof {
        assert(l2.skip(0) =~= l2);
        assert(out@ + collapse_from(l2, 0) =~= collapse_from(l2, 0));
    }
    while k < lines2.len()
        invariant
            lines2@.len() == l2.len(),
            forall|q: int| 0 <= q < l2.len() ==> #[trigger] lines2@[q]@ == l2[q],
            k <= lines2@.len(),
            run <= k,
            collapse_from(l2, 0) == out@ + collapse_from(l2.skip(k as int), run as nat),
        decreases lines2@.len() - k,
    {
        let ghost before = out@;
        proof {
            assert(l2.skip(k as int)[0] == l2[k as int]);
            assert(l2.skip(k as int).drop_first() =~= l2.skip(k + 1));
        }
        let line = &lines2[k];
        if line.len() == 0 {
            run = run + 1;
            if run <= 2 {
                out.push('\n');
            }
            proof {
                assert(out@ + collapse_from(l2.skip(k + 1), run as nat) =~= before + collapse_from(
                    l2.skip(k as int),
                    (run - 1) as nat,
                ));
            }
        } else {
            let ghost old_run = run;
            push_chars(&mut out, line);
            out.push('\n');
            run = 0;
            proof {
                assert(out@ + collapse_from(l2.skip(k + 1), 0) =~= before + collapse_from(
                    l2.skip(k as int),
                    old_run as nat,
                ));
            }
        }
        k = k + 1;
    }
    proof {
        assert(l2.skip(k as int) =~= Seq::<Seq<char>>::empty());
        assert(out@ =~= collapse_from(l2, 0));
        assert(out@ == tidy_lines(cleaned@));
    }
    let result = trim_chars(&purge_exec(&out));
    string_from_chars(&result)
}

// ── Lessons from failed tool calls ──────────────────────────────────────────

/// One tool call of a turn, as the archivist reads it.
#[derive(Clone, Debug)]
pub struct ToolCallRecord {
    pub name: String,
    pub success: bool,
    pub output_summary: String,
    pub duration_ms: u64,
}

/// Names of the failed calls, in order.
pub open spec fn failed_names(calls: Seq<ToolCallRecord>) -> Seq<Seq<char>>
    decreases calls.len(),
{
    if calls.len() == 0 {
        seq![]
    } else {
        let prev = failed_names(calls.drop_last());
        if !calls.last().success {
            prev.push(calls.last().name@)
        } else {
            prev
        }
    }
}

/// The lesson of a turn: the failed tools, or none when all succeeded.
pub open spec fn lesson_of(calls: Seq<ToolCallRecord>) -> Option<Seq<char>> {
    if failed_names(calls).len() == 0 {
        None
    } else {
        Some("Tools that failed in this turn: "@ + join(failed_names(calls), ", "@))
    }
}

/// Extract a simple lesson from tool call outcomes.
pub fn extract_lesson_from_tools(tool_calls: &Vec<ToolCallRecord>) -> (r: Option<String>)
    ensures
        match r {
            Some(s) => lesson_of(tool_calls@) == Some(s@),
            None => lesson_of(tool_calls@) is None,
        },
{
    let mut names: Vec<Vec<char>> = Vec::new();
    let mut i: usize = 0;
    while i < tool_calls.len()
        invariant
            i <= tool_calls@.len(),
            names@.len() == failed_names(tool_calls@.take(i as int)).len(),
            forall|k: int| 0 <= k < names@.len() ==> #[trigger] names@[k]@ == failed_names(tool_calls@.take(i as int))[k],
        decreases tool_calls@.len() - i,
    {
        proof {
            assert(tool_calls@.take(i + 1).drop_last() =~= tool_calls@.take(i as int));
            assert(tool_calls@.take(i + 1).last() == tool_calls@[i as int]);
        }
        if !tool_calls[i].success {
            names.push(chars_of(tool_calls[i].name.as_str()));
        }
        i = i + 1;
    }
    proof {
        assert(tool_calls@.take(tool_calls@.len() as int) =~= tool_calls@);
    }
    if names.len() == 0 {
        return None;
    }
    let mut out: Vec<char> = Vec::new();
    push_str(&mut out, "Tools that failed in this turn: ");
    push_joined(&mut out, &names, Ghost(failed_names(tool_calls@)), ", ");
    Some(string_from_chars(&out))
}

// ── Profile keys ────────────────────────────────────────────────────────────

/// The whitespace-separated words of `rest`, `cur` being the word read so far
/// (`str::split_whitespace`).
pub open spec fn words_from(rest: Seq<char>, cur: Seq<char>) -> Seq<Seq<char>>
    decreases rest.len(),
{
    if rest.len() == 0 {
        if cur.len() == 0 {
            seq![]
        } else {
            seq![cur]
        }
    } else if is_ws(rest[0]) {
        (if cur.len() == 0 {
            seq![]
        } else {
            seq![cur]
        }) + words_from(rest.drop_first(), seq![])
    } else {
        words_from(rest.drop_first(), cur.push(rest[0]))
    }
}

/// `str::split_whitespace`.
pub open spec fn words_of(s: Seq<char>) -> Seq<Seq<char>> {
    words_from(s, seq![])
}

/// The first four words longer than two bytes, among the first `upto`.
pub open spec fn key_words(ws: Seq<Seq<char>>, upto: int) -> Seq<Seq<char>>
    decreases upto,
{
    if upto <= 0 {
        seq![]
    } else {
        let prev = key_words(ws, upto - 1);
        if prev.len() < 4 && byte_len(ws[upto - 1]) > 2 {
            prev.push(ws[upto - 1])
        } else {
            prev
        }
    }
}

/// What `str::to_lowercase` yields for `s`.
pub uninterp spec fn lowercase(s: Seq<char>) -> Seq<char>;

/// `str::to_lowercase`: the Unicode lowercase of `s`, which for ASCII text
/// lowercases each ASCII letter. For other text the mapping is not stated.
#[verifier::external_body]
fn to_lowercase(s: &str) -> (r: String)
    ensures
        r@ == lowercase(s@),
        (forall|i: int| 0 <= i < s@.len() ==> (s@[i] as u32) < 128) ==> r@ == s@.map_values(
            |c: char| crate::text::ascii_lower(c),
        ),
{
    s.to_lowercase()
}

/// Characters kept in a profile key: ASCII letters and digits, and `_`.
pub open spec fn key_char(c: char) -> bool {
    ('a' <= c <= 'z') || ('A' <= c <= 'Z') || ('0' <= c <= '9') || c == '_'
}

/// The characters of `s` kept in a profile key.
pub open spec fn key_chars(s: Seq<char>) -> Seq<char>
    decreases s.len(),
{
    if s.len() == 0 {
        seq![]
    } else if key_char(s.last()) {
        key_chars(s.drop_last()).push(s.last())
    } else {
        key_chars(s.drop_last())
    }
}

/// A short profile key for extracted content: `prefix_` followed by its
/// first four words longer than two bytes, joined with `_`, lowercased and
/// reduced to ASCII letters, digits and `_`; `prefix_unknown` when nothing
/// is left.
pub open spec fn profile_key(content: Seq<char>, prefix: Seq<char>) -> Seq<char> {
    let ws = words_of(content);
    let key = key_chars(lowercase(join(key_words(ws, ws.len() as int), "_"@)));
    if key.len() == 0 {
        prefix + "_unknown"@
    } else {
        prefix + "_"@ + key
    }
}

proof fn lemma_words_step(s: Seq<char>, i: int, cur: Seq<char>)
    requires
        0 <= i < s.len(),
    ensures
        is_ws(s[i]) ==> words_from(s.skip(i), cur) == (if cur.len() == 0 {
            Seq::<Seq<char>>::empty()
        } else {
            seq![cur]
        }) + words_from(s.skip(i + 1), seq![]),
        !is_ws(s[i]) ==> words_from(s.skip(i), cur) == words_from(s.skip(i + 1), cur.push(s[i])),
{
    assert(s.skip(i).drop_first() =~= s.skip(i + 1));
}

fn split_words(s: &Vec<char>) -> (words: Vec<Vec<char>>)
    ensures
        words@.len() == words_of(s@).len(),
        forall|k: int| 0 <= k < words@.len() ==> #[trigger] words@[k]@ == words_of(s@)[k],
{
    let mut out: Vec<Vec<char>> = Vec::new();
    let mut cur: Vec<char> = Vec::new();
    let ghost mut done: Seq<Seq<char>> = seq![];
    let mut i: usize = 0;
    proof {
        assert(s@.skip(0) =~= s@);
        assert(done + words_from(s@, cur@) =~= words_from(s@, cur@));
    }
    while i < s.len()
        invariant
            i <= s@.len(),
            out@.len() == done.len(),
            forall|k: int| 0 <= k < out@.len() ==> #[trigger] out@[k]@ == done[k],
            words_of(s@) == done + words_from(s@.skip(i as int), cur@),
        decreases s@.len() - i,
    {
        proof {
            lemma_words_step(s@, i as int, cur@);
        }
        if is_ws_char(s[i]) {
            if cur.len() > 0 {
                proof {
                    assert(done.push(cur@) + words_from(s@.skip(i + 1), seq![]) =~= done + (seq![cur@]
                        + words_from(s@.skip(i + 1), seq![])));
                    done = done.push(cur@);
                }
                out.push(cur);
            } else {
                proof {
                    assert(done + words_from(s@.skip(i + 1), seq![]) =~= done + (Seq::<Seq<char>>::empty()
                        + words_from(s@.skip(i + 1), seq![])));
                }
            }
            cur = Vec::new();
        } else {
            cur.push(s[i]);
        }
        i = i + 1;
    }
    proof {
        assert(s@.skip(s@.len() as int) =~= Seq::<char>::empty());
    }
    if cur.len() > 0 {
        proof {
            done = done.push(cur@);
        }
        out.push(cur);
    }
    proof {
        assert(words_of(s@) =~= done);
    }
    out
}

/// Extract a short profile key from event content (first few meaningful
/// words).
pub fn extract_profile_key(content: &str, prefix: &str) -> (r: String)
    ensures
        r@ == profile_key(content@, prefix@),
{
    let words = split_words(&chars_of(content));
    let ghost wv = words_of(content@);
    let mut kept: Vec<Vec<char>> = Vec::new();
    let mut i: usize = 0;
    while i < words.len()
        invariant
            words@.len() == wv.len(),
            forall|k: int| 0 <= k < wv.len() ==> #[trigger] words@[k]@ == wv[k],
            i <= words@.len(),
            kept@.len() == key_words(wv, i as int).len(),
            forall|k: int| 0 <= k < kept@.len() ==> #[trigger] kept@[k]@ == key_words(wv, i as int)[k],
        decreases words@.len() - i,
    {
        if kept.len() < 4 && utf8_len(&words[i]) > 2 {
            kept.push(slice(&words[i], 0, words[i].len()));
            proof {
                assert(words@[i as int]@.subrange(0, words@[i as int]@.len() as int) =~= words@[i as int]@);
            }
        }
        i = i + 1;
    }
    let mut joined: Vec<char> = Vec::new();
    push_joined(&mut joined, &kept, Ghost(key_words(wv, wv.len() as int)), "_");
    proof {
        assert(joined@ =~= join(key_words(wv, wv.len() as int), "_"@));
    }
    let lowered = to_lowercase(string_from_chars(&joined).as_str());
    let lv = chars_of(lowered.as_str());
    let mut key: Vec<char> = Vec::new();
    let mut j: usize = 0;
    while j < lv.len()
        invariant
            j <= lv@.len(),
            key@ == key_chars(lv@.take(j as int)),
        decreases lv@.len() - j,
    {
        proof {
            assert(lv@.take(j + 1).drop_last() =~= lv@.take(j as int));
            assert(lv@.take(j + 1).last() == lv@[j as int]);
        }
        let c = lv[j];
        if ('a' <= c && c <= 'z') || ('A' <= c && c <= 'Z') || ('0' <= c && c <= '9') || c == '_' {
            key.push(c);
        }
        j = j + 1;
    }
    proof {
        assert(lv@.take(lv@.len() as int) =~= lv@);
    }
    let mut out: Vec<char> = Vec::new();
    push_str(&mut out, prefix);
    if key.len() == 0 {
        push_str(&mut out, "_unknown");
    } else {
        push_str(&mut out, "_");
        push_chars(&mut out, &key);
    }
    string_from_chars(&out)
}

// ── Segments ────────────────────────────────────────────────────────────────

/// The boundary detector's verdict on a turn for the open segment.
#[derive(Clone, Copy, Debug, PartialEq, Eq)]
pub enum BoundaryDecision {
    Continue,
    Boundary,
}

/// A segment to open for a session.
#[derive(Clone, Debug)]
pub struct NewSegment {
    pub segment_id: String,
    pub session_id: String,
    pub namespace: String,
    /// The episodic entry the segment starts at.
    pub start_episodic_id: i64,
}

/// The segment opened at episodic entry `episodic_id` of `session_id`, with
/// id `seg-` and the fresh id, in the `global` namespace.
pub open spec fn opens(seg: NewSegment, session_id: Seq<char>, episodic_id: i64, fresh_id: Seq<char>) -> bool {
    &&& seg.segment_id@ == "seg-"@ + fresh_id
    &&& seg.session_id@ == session_id
    &&& seg.namespace@ == "global"@
    &&& seg.start_episodic_id == episodic_id
}

/// What the segment bookkeeping of a turn learned from its last step.
#[derive(Clone, Debug)]
pub enum SegmentEvent {
    /// Looking up the session's open segment failed.
    LookupFailed,
    /// The session has no open segment.
    NoOpenSegment,
    /// The session's open segment, with the boundary detector's verdict on
    /// the turn.
    Open { segment_id: String, verdict: BoundaryDecision },
    /// Closing the open segment succeeded (`ok`) or failed.
    Closed { segment_id: String, ok: bool },
    /// The turn was appended to its segment (a failure is only logged).
    Appended,
    /// A new segment was written (a failure is only logged); `closed` is the
    /// segment closed just before, if any.
    Created { closed: Option<String> },
}

/// The next step of the segment bookkeeping of a turn.
#[derive(Clone, Debug)]
pub enum SegmentAction {
    /// Open this segment; `closed` is the segment closed just before, if any.
    Create { segment: NewSegment, closed: Option<String> },
    /// Append the turn's episodic entry to the open segment.
    Append { segment_id: String, episodic_id: i64 },
    /// Close the open segment.
    Close { segment_id: String },
    /// Done: the segment this turn closed, whose recap is now due, if any.
    Finish(Option<String>),
}

/// The next step of the segment bookkeeping for the turn at episodic entry
/// `episodic_id` of `session_id` (`fresh_id` names a segment it may open):
/// with no open segment the first one is opened and nothing is returned; a
/// turn that continues the open segment is appended to it; a topic boundary
/// closes the open segment, opens a new one at this turn and returns the
/// closed one. A failed lookup, or a failed close, ends with nothing
/// returned and nothing opened.
pub fn segment_next(session_id: &str, episodic_id: i64, fresh_id: &str, event: SegmentEvent) -> (a: SegmentAction)
    ensures
        match event {
            SegmentEvent::LookupFailed => a == SegmentAction::Finish(None),
            SegmentEvent::NoOpenSegment => a matches SegmentAction::Create { segment, closed } && closed
                is None && opens(segment, session_id@, episodic_id, fresh_id@),
            SegmentEvent::Open { segment_id, verdict } => match verdict {
                BoundaryDecision::Continue => a == (SegmentAction::Append { segment_id, episodic_id }),
                BoundaryDecision::Boundary => a == (SegmentAction::Close { segment_id }),
            },
            SegmentEvent::Closed { segment_id, ok } => if ok {
                a matches SegmentAction::Create { segment, closed } && closed == Some(segment_id)
                    && opens(segment, session_id@, episodic_id, fresh_id@)
            } else {
                a == SegmentAction::Finish(None)
            },
            SegmentEvent::Appended => a == SegmentAction::Finish(None),
            SegmentEvent::Created { closed } => a == SegmentAction::Finish(closed),
        },
{
    match event {
        SegmentEvent::LookupFailed => SegmentAction::Finish(None),
        SegmentEvent::NoOpenSegment => SegmentAction::Create {
            segment: new_segment(session_id, episodic_id, fresh_id),
            closed: None,
        },
        SegmentEvent::Open { segment_id, verdict } => match verdict {
            BoundaryDecision::Continue => SegmentAction::Append { segment_id, episodic_id },
            BoundaryDecision::Boundary => SegmentAction::Close { segment_id },
        },
        SegmentEvent::Closed { segment_id, ok } => if ok {
            SegmentAction::Create {
                segment: new_segment(session_id, episodic_id, fresh_id),
                closed: Some(segment_id),
            }
        } else {
            SegmentAction::Finish(None)
        },
        SegmentEvent::Appended => SegmentAction::Finish(None),
        SegmentEvent::Created { closed } => SegmentAction::Finish(closed),
    }
}

fn new_segment(session_id: &str, episodic_id: i64, fresh_id: &str) -> (seg: NewSegment)
    ensures
        opens(seg, session_id@, episodic_id, fresh_id@),
{
    let mut id: Vec<char> = Vec::new();
    push_str(&mut id, "seg-");
    push_str(&mut id, fresh_id);
    NewSegment {
        segment_id: string_from_chars(&id),
        session_id: session_id.to_owned(),
        namespace: "global".to_owned(),
        start_episodic_id: episodic_id,
    }
}

/// One episodic entry of a segment.
#[derive(Clone, Debug)]
pub struct EpisodicTurn {
    /// `user` or `assistant`.
    pub role: String,
    pub content: String,
}

/// The user messages of a segment, in order.
pub open spec fn user_messages(entries: Seq<EpisodicTurn>) -> Seq<Seq<char>>
    decreases entries.len(),
{
    if entries.len() == 0 {
        seq![]
    } else {
        let prev = user_messages(entries.drop_last());
        if entries.last().role@ == "user"@ {
            prev.push(entries.last().content@)
        } else {
            prev
        }
    }
}

/// The text events are extracted from: the segment's user messages joined
/// with `. `.
pub fn segment_text(entries: &Vec<EpisodicTurn>) -> (r: String)
    ensures
        r@ == join(user_messages(entries@), ". "@),
{
    let mut users: Vec<Vec<char>> = Vec::new();
    let mut i: usize = 0;
    while i < entries.len()
        invariant
            i <= entries@.len(),
            users@.len() == user_messages(entries@.take(i as int)).len(),
            forall|k: int| 0 <= k < users@.len() ==> #[trigger] users@[k]@ == user_messages(entries@.take(i as int))[k],
        decreases entries@.len() - i,
    {
        proof {
            assert(entries@.take(i + 1).drop_last() =~= entries@.take(i as int));
            assert(entries@.take(i + 1).last() == entries@[i as int]);
        }
        if crate::text::chars_eq_str(&chars_of(entries[i].role.as_str()), "user") {
            users.push(chars_of(entries[i].content.as_str()));
        }
        i = i + 1;
    }
    proof {
        assert(entries@.take(entries@.len() as int) =~= entries@);
    }
    let mut out: Vec<char> = Vec::new();
    push_joined(&mut out, &users, Ghost(user_messages(entries@)), ". ");
    proof {
        assert(out@ =~= join(user_messages(entries@), ". "@));
    }
    string_from_chars(&out)
}

/// The first and last entries' content, from which the heuristic recap is
/// made: empty when there is no entry.
pub fn recap_endpoints(entries: &Vec<EpisodicTurn>) -> (r: (String, String))
    ensures
        entries@.len() == 0 ==> r.0@.len() == 0 && r.1@.len() == 0,
        entries@.len() > 0 ==> r.0@ == entries@[0].content@ && r.1@ == entries@.last().content@,
{
    if entries.len() == 0 {
        return (String::new(), String::new());
    }
    let first = entries[0].content.as_str().to_owned();
    let last = entries[entries.len() - 1].content.as_str().to_owned();
    (first, last)
}

/// Where a closed segment's recap comes from.
#[derive(Clone, Debug, PartialEq, Eq)]
pub enum RecapChoice {
    /// The model's summary.
    Model(String),
    /// The heuristic summary made from the segment's first and last entries.
    Fallback { first: String, last: String },
}

/// The model's summary when the model produced a non-empty one.
pub open spec fn model_summary(model: Option<Result<String, String>>) -> Option<String> {
    match model {
        Some(Ok(s)) => if s@.len() > 0 {
            Some(s)
        } else {
            None
        },
        _ => None,
    }
}

/// The recap of a closed segment with `entries`: the model's summary when a
/// chat provider is configured (`model` is its outcome) and the summary is
/// not empty; otherwise the heuristic summary of the first and last entries.
pub fn choose_recap(model: Option<Result<String, String>>, entries: &Vec<EpisodicTurn>) -> (r: RecapChoice)
    ensures
        match model_summary(model) {
            Some(s) => r == RecapChoice::Model(s),
            None => (r matches RecapChoice::Fallback { first, last } && if entries@.len() == 0 {
                first@.len() == 0 && last@.len() == 0
            } else {
                first@ == entries@[0].content@ && last@ == entries@.last().content@
            }),
        },
{
    match model {
        Some(Ok(s)) => {
            if s.as_str().is_empty() {
                let (first, last) = recap_endpoints(entries);
                RecapChoice::Fallback { first, last }
            } else {
                RecapChoice::Model(s)
            }
        },
        _ => {
            let (first, last) = recap_endpoints(entries);
            RecapChoice::Fallback { first, last }
        },
    }
}

/// What a finished turn is indexed into.
#[derive(Clone, Copy, Debug, PartialEq, Eq)]
pub struct TurnPlan {
    /// Write the turn to episodic memory and run segmentation.
    pub index: bool,
    /// Also pipe the turn into the memory tree.
    pub pipe_to_tree: bool,
}

/// A turn is indexed only by an enabled archivist that has a connection;
/// it is piped into the memory tree as well only when runtime config is
/// attached (`chat_to_tree` is its setting) and turns chat-to-tree on.
pub fn turn_plan(enabled: bool, has_connection: bool, chat_to_tree: Option<bool>) -> (p: TurnPlan)
    ensures
        p.index == (enabled && has_connection),
        p.pipe_to_tree == (enabled && has_connection && chat_to_tree == Some(true)),
{
    let index = enabled && has_connection;
    let pipe_to_tree = index && match chat_to_tree {
        Some(on) => on,
        None => false,
    };
    TurnPlan { index, pipe_to_tree }
}

/// Kinds of event the heuristic extractor reports.
#[derive(Clone, Copy, Debug, PartialEq, Eq)]
pub enum EventType {
    Preference,
    Fact,
    Decision,
    Commitment,
    Other,
}

/// Profile facets a user-profile entry is filed under.
#[derive(Clone, Copy, Debug, PartialEq, Eq)]
pub enum FacetType {
    Preference,
    Context,
}

/// The profile update an extracted event makes: preferences are filed as
/// preference facets keyed `preference_…`, facts as context facets keyed
/// `fact_…`; other events update no profile.
pub fn profile_facet(event_type: EventType) -> (r: Option<(FacetType, &'static str)>)
    ensures
        match event_type {
            EventType::Preference => r matches Some(f) && f.0 == FacetType::Preference && f.1@ == "preference"@,
            EventType::Fact => r matches Some(f) && f.0 == FacetType::Context && f.1@ == "fact"@,
            _ => r is None,
        },
{
    match event_type {
        EventType::Preference => Some((FacetType::Preference, "preference")),
        EventType::Fact => Some((FacetType::Context, "fact")),
        _ => None,
    }
}

// ── Record ids ──────────────────────────────────────────────────────────────

/// Lowercase hex digit for `d < 16`.
pub open spec fn hex_char(d: nat) -> char {
    if d < 10 {
        ((48 + d) as u8) as char
    } else {
        ((87 + d) as u8) as char
    }
}

/// `{:x}` of `n`: lowercase hex without leading zeros.
pub open spec fn hex_min(n: nat) -> Seq<char>
    decreases n,
{
    if n < 16 {
        seq![hex_char(n)]
    } else {
        hex_min(n / 16).push(hex_char(n % 16))
    }
}

/// The last `k` hex digits of `n`, zero-padded (`{:08x}` for `k == 8` and
/// `n < 16^8`).
pub open spec fn hex_fixed(n: nat, k: nat) -> Seq<char>
    decreases k,
{
    if k == 0 {
        seq![]
    } else {
        hex_fixed(n / 16, (k - 1) as nat).push(hex_char(n % 16))
    }
}

fn hex_char_exec(d: u8) -> (c: char)
    requires
        d < 16,
    ensures
        c == hex_char(d as nat),
{
    if d < 10 {
        (48u8 + d) as char
    } else {
        (87u8 + d) as char
    }
}

fn push_hex_min(out: &mut Vec<char>, n: u128)
    ensures
        final(out)@ == old(out)@ + hex_min(n as nat),
    decreases n,
{
    if n >= 16 {
        push_hex_min(out, n / 16);
    }
    out.push(hex_char_exec((n % 16) as u8));
}

fn push_hex_fixed(out: &mut Vec<char>, n: u32, k: u32)
    ensures
        final(out)@ == old(out)@ + hex_fixed(n as nat, k as nat),
    decreases k,
{
    if k > 0 {
        push_hex_fixed(out, n / 16, k - 1);
        out.push(hex_char_exec((n % 16) as u8));
    }
}

/// A record id suffix from a nanosecond timestamp and 32 bits of entropy:
/// the timestamp in hex, then the entropy as eight hex digits.
pub fn record_id(nanos: u128, entropy: u32) -> (r: String)
    ensures
        r@ == hex_min(nanos as nat) + hex_fixed(entropy as nat, 8),
{
    let mut out: Vec<char> = Vec::new();
    push_hex_min(&mut out, nanos);
    push_hex_fixed(&mut out, entropy, 8);
    string_from_chars(&out)
}


// ── A finished turn ─────────────────────────────────────────────────────────

/// The episodic rows a finished turn adds (their timestamps aside).
#[derive(Clone, Debug)]
pub struct TurnRecords {
    /// The turn's session, `unknown` when it has none.
    pub session_id: String,
    /// The user message, under role `user`.
    pub user: EpisodicTurn,
    /// The assistant response, under role `assistant`.
    pub assistant: EpisodicTurn,
    /// The lesson drawn from the turn's failed tool calls.
    pub lesson: Option<String>,
    /// Whether the assistant row carries the turn's tool calls.
    pub records_tool_calls: bool,
}

/// The session a turn is filed under.
pub open spec fn turn_session(session_id: Option<String>) -> Seq<char> {
    match session_id {
        Some(s) => s@,
        None => "unknown"@,
    }
}

/// The episodic rows for a finished turn: the user message, then the
/// assistant response with the lesson of its failed tool calls and, when
/// there were any, the tool calls themselves.
pub fn turn_records(
    session_id: Option<String>,
    user_message: &str,
    assistant_response: &str,
    tool_calls: &Vec<ToolCallRecord>,
) -> (r: TurnRecords)
    ensures
        r.session_id@ == turn_session(session_id),
        r.user.role@ == "user"@,
        r.user.content@ == user_message@,
        r.assistant.role@ == "assistant"@,
        r.assistant.content@ == assistant_response@,
        match r.lesson {
            Some(l) => lesson_of(tool_calls@) == Some(l@),
            None => lesson_of(tool_calls@) is None,
        },
        r.records_tool_calls == (tool_calls@.len() > 0),
{
    let session = match session_id {
        Some(s) => s,
        None => "unknown".to_owned(),
    };
    TurnRecords {
        session_id: session,
        user: EpisodicTurn { role: "user".to_owned(), content: user_message.to_owned() },
        assistant: EpisodicTurn { role: "assistant".to_owned(), content: assistant_response.to_owned() },
        lesson: extract_lesson_from_tools(tool_calls),
        records_tool_calls: tool_calls.len() > 0,
    }
}

/// One chat message piped into the memory tree.
#[derive(Clone, Debug)]
pub struct TreeMessage {
    pub author: String,
    pub text: String,
    /// Link back to the session the message came from.
    pub source_ref: String,
}

/// A finished turn as a chat batch for the memory tree.
#[derive(Clone, Debug)]
pub struct TreeBatch {
    pub platform: String,
    pub channel_label: String,
    pub messages: Vec<TreeMessage>,
    /// The tree source the batch is ingested under.
    pub source_id: String,
    /// The owner / identity tag of the batch.
    pub owner: String,
    pub tags: Vec<String>,
}

/// The link from a tree message back to its session.
pub open spec fn session_ref(session_id: Seq<char>) -> Seq<char> {
    "agent://session/"@ + session_id
}

/// `(author, text, source_ref)` of a tree message.
pub open spec fn tree_message_view(m: TreeMessage) -> (Seq<char>, Seq<char>, Seq<char>) {
    (m.author@, m.text@, m.source_ref@)
}

/// A finished turn as a tree batch on platform `agent`, labelled and owned
/// by its session, under source `conversations:agent` with tag `agent_chat`:
/// the user message, then the assistant's prose with its tool-call markup
/// stripped (tool payloads never reach the tree).
pub fn tree_batch(session_id: &str, user_message: &str, assistant_response: &str) -> (b: TreeBatch)
    ensures
        b.platform@ == "agent"@,
        b.channel_label@ == session_id@,
        b.messages@.map_values(|m: TreeMessage| tree_message_view(m)) == seq![
            ("user"@, user_message@, session_ref(session_id@)),
            ("assistant"@, stripped(assistant_response@), session_ref(session_id@)),
        ],
        b.source_id@ == "conversations:agent"@,
        b.owner@ == session_id@,
        b.tags@.map_values(|t: String| t@) == seq!["agent_chat"@],
{
    let mut link: Vec<char> = Vec::new();
    push_str(&mut link, "agent://session/");
    push_str(&mut link, session_id);
    let source_ref = string_from_chars(&link);
    let prose = strip_tool_calls_from_response(assistant_response);
    let user = TreeMessage {
        author: "user".to_owned(),
        text: user_message.to_owned(),
        source_ref: source_ref.as_str().to_owned(),
    };
    let assistant = TreeMessage { author: "assistant".to_owned(), text: prose, source_ref };
    let ghost uv = tree_message_view(user);
    let ghost av = tree_message_view(assistant);
    let mut messages: Vec<TreeMessage> = Vec::new();
    messages.push(user);
    messages.push(assistant);
    let mut tags: Vec<String> = Vec::new();
    tags.push("agent_chat".to_owned());
    proof {
        assert(messages@.map_values(|m: TreeMessage| tree_message_view(m)) =~= seq![uv, av]);
        assert(tags@.map_values(|t: String| t@) =~= seq!["agent_chat"@]);
    }
    TreeBatch {
        platform: "agent".to_owned(),
        channel_label: session_id.to_owned(),
        messages,
        source_id: "conversations:agent".to_owned(),
        owner: session_id.to_owned(),
        tags,
    }
}

} // verus!
