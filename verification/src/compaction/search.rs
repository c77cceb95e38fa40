//! Search-result compressor (grep / ripgrep output).
//!
//! Parses `path:line:content` lines, groups them by file, keeps the
//! highest-signal files and, per file, the first, the last and the
//! highest-signal matches, and reports how many matches and files were left
//! out. The output is never larger than the input.

use vstd::prelude::*;
use vstd::set_lib::{lemma_int_range, lemma_len_subset, lemma_map_size, lemma_subset_equality, set_int_range};
use crate::text::{lemma_trim_end_bytes, utf8_len, byte_len, chars_eq, chars_of, contains_ci, contains_ci_chars, decimal, digit_char, is_blank, lines_of, push_chars, push_decimal, push_str, slice, split_lines, string_from_chars, trim_chars, trim_end, trim_end_chars};

verus! {

/// Max matches kept per file before the rest collapse into a summary line.
pub const MAX_PER_FILE: usize = 5;
/// Max matches kept across the whole result.
pub const MAX_TOTAL: usize = 30;
/// Max files kept before lower-scoring files are dropped entirely.
pub const MAX_FILES: usize = 15;

// ── Parsing one `path:line:content` line ────────────────────────────────────

pub open spec fn is_digit(c: char) -> bool {
    '0' <= c <= '9'
}

pub open spec fn is_ascii_letter(c: char) -> bool {
    ('a' <= c <= 'z') || ('A' <= c <= 'Z')
}

/// Value of a run of decimal digits.
pub open spec fn digits_value(d: Seq<char>) -> nat
    decreases d.len(),
{
    if d.len() == 0 {
        0
    } else {
        digits_value(d.drop_last()) * 10 + ((d.last() as nat) - 48) as nat
    }
}

pub open spec fn all_digits(d: Seq<char>) -> bool {
    forall|k: int| 0 <= k < d.len() ==> is_digit(#[trigger] d[k])
}

/// A Windows drive prefix such as `C:\` or `C:/`, whose colon is not a field
/// separator.
pub open spec fn drive_prefix(line: Seq<char>) -> bool {
    &&& line.len() >= 3
    &&& is_ascii_letter(line[0])
    &&& line[1] == ':'
    &&& (line[2] == '\\' || line[2] == '/')
}

/// Index of the first `':'` at or after `i`, or `line.len()` when there is none.
pub open spec fn colon_from(line: Seq<char>, i: int) -> int
    decreases line.len() - i,
{
    if i < 0 || i >= line.len() {
        line.len() as int
    } else if line[i] == ':' {
        i
    } else {
        colon_from(line, i + 1)
    }
}

/// A search hit `(path, line number, matched text)`, or `None` when `line` is
/// not of the form `path:digits:text` (the path may start with a drive
/// prefix; the line number must fit in a `u64`).
pub open spec fn parse_hit(line: Seq<char>) -> Option<(Seq<char>, u64, Seq<char>)> {
    let start: int = if drive_prefix(line) { 2 } else { 0 };
    let p = colon_from(line, start);
    let q = colon_from(line, p + 1);
    let digits = line.subrange(p + 1, q);
    if 0 < p < line.len() && p + 1 < q < line.len() && all_digits(digits) && digits_value(digits)
        <= u64::MAX {
        Some((line.take(p), digits_value(digits) as u64, line.skip(q + 1)))
    } else {
        None
    }
}

// ── Signal score of a matched line ──────────────────────────────────────────

/// 2 for lines that mention an error, a failure, a panic or a fatal
/// condition; 1 for warnings; 0 otherwise (ASCII case ignored).
pub open spec fn signal_score(body: Seq<char>) -> nat {
    if contains_ci(body, "error"@) || contains_ci(body, "fail"@) || contains_ci(body, "panic"@)
        || contains_ci(body, "fatal"@) {
        2
    } else if contains_ci(body, "warn"@) {
        1
    } else {
        0
    }
}

// ── The hits of a whole output ──────────────────────────────────────────────

/// All hits of `lines`, in order.
pub open spec fn hits_of(lines: Seq<Seq<char>>) -> Seq<(Seq<char>, u64, Seq<char>)>
    decreases lines.len(),
{
    if lines.len() == 0 {
        seq![]
    } else {
        let prev = hits_of(lines.drop_last());
        match parse_hit(lines.last()) {
            Some(h) => prev.push(h),
            None => prev,
        }
    }
}

/// The first line that is neither a hit nor blank (the tool's summary line).
pub open spec fn header_of(lines: Seq<Seq<char>>) -> Option<Seq<char>>
    decreases lines.len(),
{
    if lines.len() == 0 {
        None
    } else {
        let prev = header_of(lines.drop_last());
        if prev is Some {
            prev
        } else if parse_hit(lines.last()) is None && !is_blank(lines.last()) {
            Some(lines.last())
        } else {
            None
        }
    }
}

/// The distinct paths of `hits`, in order of first appearance.
pub open spec fn paths_of(hits: Seq<(Seq<char>, u64, Seq<char>)>) -> Seq<Seq<char>>
    decreases hits.len(),
{
    if hits.len() == 0 {
        seq![]
    } else {
        let prev = paths_of(hits.drop_last());
        if prev.contains(hits.last().0) {
            prev
        } else {
            prev.push(hits.last().0)
        }
    }
}

/// The `(line number, text)` of the hits in file `path`, in order.
pub open spec fn hits_in(hits: Seq<(Seq<char>, u64, Seq<char>)>, path: Seq<char>) -> Seq<
    (u64, Seq<char>),
>
    decreases hits.len(),
{
    if hits.len() == 0 {
        seq![]
    } else {
        let prev = hits_in(hits.drop_last(), path);
        if hits.last().0 == path {
            prev.push((hits.last().1, hits.last().2))
        } else {
            prev
        }
    }
}

// ── Executable parsing ──────────────────────────────────────────────────────

struct Hit {
    path: Vec<char>,
    line_number: u64,
    body: Vec<char>,
}

spec fn hit_view(h: Hit) -> (Seq<char>, u64, Seq<char>) {
    (h.path@, h.line_number, h.body@)
}

fn colon_index(line: &Vec<char>, i: usize) -> (r: usize)
    requires
        i <= line.len(),
    ensures
        r as int == colon_from(line@, i as int),
        i <= r <= line.len(),
{
    let mut j = i;
    while j < line.len() && line[j] != ':'
        invariant
            i <= j <= line.len(),
            colon_from(line@, i as int) == colon_from(line@, j as int),
        decreases line.len() - j,
    {
        j = j + 1;
    }
    j
}

proof fn lemma_digits_value_monotone(d: Seq<char>, k: int)
    requires
        0 <= k <= d.len(),
        all_digits(d),
    ensures
        digits_value(d.take(k)) <= digits_value(d),
    decreases d.len() - k,
{
    if k < d.len() {
        lemma_digits_value_monotone(d, k + 1);
        assert(d.take(k + 1).drop_last() =~= d.take(k));
        assert(is_digit(d[k]));
    } else {
        assert(d.take(k) =~= d);
    }
}

/// Value of the digits `line[lo..hi]`, or `None` when one is not a digit or
/// the value does not fit in a `u64`.
fn parse_digits(line: &Vec<char>, lo: usize, hi: usize) -> (r: Option<u64>)
    requires
        lo <= hi <= line.len(),
    ensures
        ({
            let d = line@.subrange(lo as int, hi as int);
            match r {
                Some(v) => all_digits(d) && v as nat == digits_value(d),
                None => !all_digits(d) || digits_value(d) > u64::MAX,
            }
        }),
{
    let ghost d = line@.subrange(lo as int, hi as int);
    let mut i = lo;
    while i < hi
        invariant
            lo <= i <= hi <= line.len(),
            d == line@.subrange(lo as int, hi as int),
            forall|k: int| 0 <= k < i - lo ==> is_digit(#[trigger] d[k]),
        decreases hi - i,
    {
        if !('0' <= line[i] && line[i] <= '9') {
            assert(!is_digit(d[i - lo]));
            return None;
        }
        i = i + 1;
    }
    assert(all_digits(d));
    let mut acc: u64 = 0;
    let mut i = lo;
    proof {
        assert(d.take(0) =~= Seq::<char>::empty());
    }
    while i < hi
        invariant
            lo <= i <= hi <= line.len(),
            d == line@.subrange(lo as int, hi as int),
            all_digits(d),
            acc as nat == digits_value(d.take(i - lo)),
        decreases hi - i,
    {
        let c = line[i];
        proof {
            assert(d.take(i - lo + 1).drop_last() =~= d.take(i - lo));
            assert(d.take(i - lo + 1).last() == c);
            assert(is_digit(d[i - lo]));
        }
        let dv = ((c as u32) - 48) as u64;
        match acc.checked_mul(10) {
            Some(m) => match m.checked_add(dv) {
                Some(s) => {
                    acc = s;
                },
                None => {
                    proof {
                        lemma_digits_value_monotone(d, i - lo + 1);
                    }
                    return None;
                },
            },
            None => {
                proof {
                    lemma_digits_value_monotone(d, i - lo + 1);
                }
                return None;
            },
        }
        i = i + 1;
    }
    proof {
        assert(d.take(hi - lo) =~= d);
    }
    Some(acc)
}

fn parse_hit_exec(line: &Vec<char>) -> (r: Option<Hit>)
    ensures
        match r {
            Some(h) => parse_hit(line@) == Some(hit_view(h)),
            None => parse_hit(line@) is None,
        },
{
    let n = line.len();
    let drive = n >= 3 && (('a' <= line[0] && line[0] <= 'z') || ('A' <= line[0] && line[0]
        <= 'Z')) && line[1] == ':' && (line[2] == '\\' || line[2] == '/');
    let start: usize = if drive {
        2
    } else {
        0
    };
    let p = colon_index(line, start);
    if p == 0 || p >= n {
        return None;
    }
    let q = colon_index(line, p + 1);
    if q <= p + 1 || q >= n {
        return None;
    }
    match parse_digits(line, p + 1, q) {
        Some(v) => {
            let path = slice(line, 0, p);
            let body = slice(line, q + 1, n);
            proof {
                assert(line@.take(p as int) =~= line@.subrange(0, p as int));
                assert(line@.skip(q + 1) =~= line@.subrange(q + 1, n as int));
            }
            Some(Hit { path, line_number: v, body })
        },
        None => None,
    }
}

/// Parse one `path:line:content` search line into its path, line number and
/// matched text.
pub fn parse_search_line(line: &str) -> (r: Option<(String, u64, String)>)
    ensures
        match r {
            Some(h) => parse_hit(line@) == Some((h.0@, h.1, h.2@)),
            None => parse_hit(line@) is None,
        },
{
    let v = chars_of(line);
    match parse_hit_exec(&v) {
        Some(h) => Some((string_from_chars(&h.path), h.line_number, string_from_chars(&h.body))),
        None => None,
    }
}

/// The signal score of a matched line's text.
pub fn line_score(body: &str) -> (s: u64)
    ensures
        s as nat == signal_score(body@),
{
    line_score_exec(&chars_of(body))
}

fn line_score_exec(body: &Vec<char>) -> (s: u64)
    ensures
        s as nat == signal_score(body@),
        s <= 2,
{
    let error = chars_of("error");
    let fail = chars_of("fail");
    let panic = chars_of("panic");
    let fatal = chars_of("fatal");
    let warn = chars_of("warn");
    if contains_ci_chars(body, &error) || contains_ci_chars(body, &fail) || contains_ci_chars(
        body,
        &panic,
    ) || contains_ci_chars(body, &fatal) {
        2
    } else if contains_ci_chars(body, &warn) {
        1
    } else {
        0
    }
}

// ── Which matches of a file survive ─────────────────────────────────────────

/// Signal scores of a file's matches.
pub open spec fn scores_of(ms: Seq<(u64, Seq<char>)>) -> Seq<nat> {
    ms.map_values(|m: (u64, Seq<char>)| signal_score(m.1))
}

/// Match `j` ranks ahead of match `i`: higher score, or the same score and
/// earlier in the output.
pub open spec fn ranks_ahead(scores: Seq<nat>, j: int, i: int) -> bool {
    scores[j] > scores[i] || (scores[j] == scores[i] && j < i)
}

/// Number of matches `j` with `1 <= j < upto` that rank ahead of `i`.
pub open spec fn ahead_count(scores: Seq<nat>, i: int, upto: int) -> nat
    decreases upto,
{
    if upto <= 1 {
        0
    } else {
        ahead_count(scores, i, upto - 1) + if ranks_ahead(scores, upto - 1, i) {
            1nat
        } else {
            0nat
        }
    }
}

/// Whether match `i` of a file is kept when at most `cap` may be: all of
/// them when they fit; otherwise the first, the last (when `cap >= 2`), and
/// the middle matches of highest rank that fill the remaining slots.
pub open spec fn keeps(scores: Seq<nat>, cap: nat, i: int) -> bool {
    let n = scores.len();
    if n <= cap {
        true
    } else if cap == 0 {
        false
    } else if i == 0 {
        true
    } else if cap == 1 {
        false
    } else if i == n - 1 {
        true
    } else {
        ahead_count(scores, i, n - 1) < cap - 2
    }
}

/// How many of the first `upto` matches are kept.
pub open spec fn kept_count(scores: Seq<nat>, cap: nat, upto: int) -> nat
    decreases upto,
{
    if upto <= 0 {
        0
    } else {
        kept_count(scores, cap, upto - 1) + if keeps(scores, cap, upto - 1) {
            1nat
        } else {
            0nat
        }
    }
}

/// The output line of one kept match.
pub open spec fn hit_line(path: Seq<char>, m: (u64, Seq<char>)) -> Seq<char> {
    path + ":"@ + decimal(m.0 as nat) + ":"@ + m.1 + "\n"@
}

/// Output lines of the kept matches among the first `upto`, in order.
pub open spec fn kept_lines(path: Seq<char>, ms: Seq<(u64, Seq<char>)>, cap: nat, upto: int) -> Seq<
    char,
>
    decreases upto,
{
    if upto <= 0 {
        seq![]
    } else {
        kept_lines(path, ms, cap, upto - 1) + if keeps(scores_of(ms), cap, upto - 1) {
            hit_line(path, ms[upto - 1])
        } else {
            seq![]
        }
    }
}

/// The summary line for `omitted` dropped matches of `path` (none for 0).
pub open spec fn omitted_line(path: Seq<char>, omitted: nat) -> Seq<char> {
    if omitted > 0 {
        "[... and "@ + decimal(omitted) + " more match(es) in "@ + path + "]\n"@
    } else {
        seq![]
    }
}

/// The output block of one file: its kept matches, then the count of the
/// others.
pub open spec fn file_block(path: Seq<char>, ms: Seq<(u64, Seq<char>)>, cap: nat) -> Seq<char> {
    kept_lines(path, ms, cap, ms.len() as int) + omitted_line(
        path,
        (ms.len() - kept_count(scores_of(ms), cap, ms.len() as int)) as nat,
    )
}

// ── Which files survive ─────────────────────────────────────────────────────

/// Sum of the scores of a file's matches.
pub open spec fn total_score(ms: Seq<(u64, Seq<char>)>) -> nat
    decreases ms.len(),
{
    if ms.len() == 0 {
        0
    } else {
        total_score(ms.drop_last()) + signal_score(ms.last().1)
    }
}

/// File `j` ranks ahead of file `i`: higher total score, or the same total
/// and first seen earlier.
pub open spec fn file_ahead(totals: Seq<nat>, j: int, i: int) -> bool {
    totals[j] > totals[i] || (totals[j] == totals[i] && j < i)
}

/// Number of files `j < upto` that rank ahead of file `i`.
pub open spec fn file_rank(totals: Seq<nat>, i: int, upto: int) -> nat
    decreases upto,
{
    if upto <= 0 {
        0
    } else {
        file_rank(totals, i, upto - 1) + if file_ahead(totals, upto - 1, i) {
            1nat
        } else {
            0nat
        }
    }
}

/// The files with their matches, in order of first appearance.
pub open spec fn files_of(hits: Seq<(Seq<char>, u64, Seq<char>)>) -> Seq<
    (Seq<char>, Seq<(u64, Seq<char>)>),
> {
    let paths = paths_of(hits);
    Seq::new(paths.len(), |i: int| (paths[i], hits_in(hits, paths[i])))
}

/// Total score of each file.
pub open spec fn totals_of(files: Seq<(Seq<char>, Seq<(u64, Seq<char>)>)>) -> Seq<nat> {
    files.map_values(|f: (Seq<char>, Seq<(u64, Seq<char>)>)| total_score(f.1))
}

/// Among the first `upto` files, the `MAX_FILES` best ranked, in order of
/// first appearance.
pub open spec fn kept_files(files: Seq<(Seq<char>, Seq<(u64, Seq<char>)>)>, upto: int) -> Seq<
    (Seq<char>, Seq<(u64, Seq<char>)>),
>
    decreases upto,
{
    if upto <= 0 {
        seq![]
    } else {
        let prev = kept_files(files, upto - 1);
        if file_rank(totals_of(files), upto - 1, files.len() as int) < MAX_FILES {
            prev.push(files[upto - 1])
        } else {
            prev
        }
    }
}

/// The blocks of `files` under a shared budget of `remaining` matches: each
/// file may keep up to `MAX_PER_FILE` of what is left; once the budget is
/// spent a file keeps none, and its block is just the count of its matches.
pub open spec fn emit(files: Seq<(Seq<char>, Seq<(u64, Seq<char>)>)>, remaining: nat) -> Seq<char>
    decreases files.len(),
{
    if files.len() == 0 {
        seq![]
    } else {
        let cap: nat = if remaining < MAX_PER_FILE {
            remaining
        } else {
            MAX_PER_FILE as nat
        };
        let kc = kept_count(scores_of(files[0].1), cap, files[0].1.len() as int);
        file_block(files[0].0, files[0].1, cap) + emit(
            files.drop_first(),
            if kc >= remaining {
                0
            } else {
                (remaining - kc) as nat
            },
        )
    }
}

/// The line reporting `dropped` omitted files (none for 0).
pub open spec fn dropped_line(dropped: nat) -> Seq<char> {
    if dropped > 0 {
        "[... and "@ + decimal(dropped) + " more file(s) with lower-signal matches omitted]\n"@
    } else {
        seq![]
    }
}

/// The full compacted rendering of a search output, before the size guard.
pub open spec fn rendering(content: Seq<char>) -> Seq<char> {
    let lines = lines_of(content);
    let hits = hits_of(lines);
    let files = files_of(hits);
    let header = match header_of(lines) {
        Some(h) => h + "\n"@,
        None => seq![],
    };
    let dropped: nat = if files.len() > MAX_FILES {
        (files.len() - MAX_FILES) as nat
    } else {
        0
    };
    header + emit(kept_files(files, files.len() as int), MAX_TOTAL as nat) + dropped_line(dropped)
}

/// What `compress` returns for `content`: `None` when no line is a search
/// hit or when the rendering is not smaller (in bytes) than the input;
/// otherwise the rendering without trailing whitespace.
pub open spec fn compressed(content: Seq<char>) -> Option<Seq<char>> {
    if hits_of(lines_of(content)).len() == 0 {
        None
    } else if byte_len(rendering(content)) >= byte_len(content) {
        None
    } else {
        Some(trim_end(rendering(content)))
    }
}

// ── Executable selection and rendering ──────────────────────────────────────

struct Member {
    line_number: u64,
    body: Vec<char>,
    score: u64,
}

spec fn member_is(m: Member, v: (u64, Seq<char>)) -> bool {
    m.line_number == v.0 && m.body@ == v.1 && m.score as nat == signal_score(v.1)
}

spec fn members_are(ms: Seq<Member>, vs: Seq<(u64, Seq<char>)>) -> bool {
    ms.len() == vs.len() && forall|k: int| 0 <= k < ms.len() ==> member_is(#[trigger] ms[k], vs[k])
}

/// Number of middle matches ranking ahead of match `i`.
fn ahead_count_exec(members: &Vec<Member>, Ghost(vs): Ghost<Seq<(u64, Seq<char>)>>, i: usize) -> (c: usize)
    requires
        members_are(members@, vs),
        i < members.len(),
    ensures
        c as nat == ahead_count(scores_of(vs), i as int, members.len() - 1),
        c <= members.len(),
{
    let n = members.len();
    if n < 2 {
        return 0;
    }
    let mut c: usize = 0;
    let mut j: usize = 1;
    while j < n - 1
        invariant
            members_are(members@, vs),
            i < n == members.len(),
            n >= 2,
            1 <= j <= n - 1,
            c as nat == ahead_count(scores_of(vs), i as int, j as int),
            c <= j,
        decreases n - j,
    {
        let a = members[j].score;
        let b = members[i].score;
        proof {
            assert(scores_of(vs)[j as int] == a as nat);
            assert(scores_of(vs)[i as int] == b as nat);
        }
        if a > b || (a == b && j < i) {
            c = c + 1;
        }
        j = j + 1;
    }
    c
}

fn keeps_exec(members: &Vec<Member>, Ghost(vs): Ghost<Seq<(u64, Seq<char>)>>, cap: usize, i: usize) -> (b: bool)
    requires
        members_are(members@, vs),
        i < members.len(),
    ensures
        b == keeps(scores_of(vs), cap as nat, i as int),
{
    let n = members.len();
    if n <= cap {
        true
    } else if cap == 0 {
        false
    } else if i == 0 {
        true
    } else if cap == 1 {
        false
    } else if i == n - 1 {
        true
    } else {
        let c = ahead_count_exec(members, Ghost(vs), i);
        c < cap - 2
    }
}

/// Append `path:line:text\n`.
fn push_hit_line(out: &mut Vec<char>, path: &Vec<char>, m: &Member)
    ensures
        final(out)@ == old(out)@ + hit_line(path@, (m.line_number, m.body@)),
{
    let ghost start = out@;
    push_chars(out, path);
    push_str(out, ":");
    push_decimal(out, m.line_number);
    push_str(out, ":");
    push_chars(out, &m.body);
    push_str(out, "\n");
    proof {
        assert(out@ =~= start + hit_line(path@, (m.line_number, m.body@)));
    }
}

/// Append the block of one file and return how many of its matches it kept.
fn emit_file(path: &Vec<char>, members: &Vec<Member>, Ghost(vs): Ghost<Seq<(u64, Seq<char>)>>, cap: usize, out: &mut Vec<char>) -> (kc: usize)
    requires
        members_are(members@, vs),
    ensures
        final(out)@ == old(out)@ + file_block(path@, vs, cap as nat),
        kc as nat == kept_count(scores_of(vs), cap as nat, vs.len() as int),
        kc <= vs.len(),
{
    let ghost start = out@;
    let n = members.len();
    let mut kc: usize = 0;
    let mut i: usize = 0;
    while i < n
        invariant
            members_are(members@, vs),
            n == members.len(),
            i <= n,
            out@ == start + kept_lines(path@, vs, cap as nat, i as int),
            kc as nat == kept_count(scores_of(vs), cap as nat, i as int),
            kc <= i,
        decreases n - i,
    {
        let k = keeps_exec(members, Ghost(vs), cap, i);
        if k {
            proof {
                assert(member_is(members@[i as int], vs[i as int]));
            }
            push_hit_line(out, path, &members[i]);
            kc = kc + 1;
        }
        i = i + 1;
        proof {
            assert(out@ =~= start + kept_lines(path@, vs, cap as nat, i as int));
        }
    }
    let omitted = n - kc;
    if omitted > 0 {
        let ghost before = out@;
        push_str(out, "[... and ");
        push_decimal(out, omitted as u64);
        push_str(out, " more match(es) in ");
        push_chars(out, path);
        push_str(out, "]\n");
        proof {
            assert(out@ =~= before + omitted_line(path@, omitted as nat));
        }
    }
    proof {
        assert(out@ =~= start + file_block(path@, vs, cap as nat));
    }
    kc
}

struct FileGroup {
    path: Vec<char>,
    members: Vec<Member>,
}

/// The hits and the header of the given lines.
fn collect_hits(lines: &Vec<Vec<char>>, Ghost(ls): Ghost<Seq<Seq<char>>>) -> (r: (Vec<Hit>, Option<Vec<char>>))
    requires
        lines@.len() == ls.len(),
        forall|k: int| 0 <= k < ls.len() ==> #[trigger] lines@[k]@ == ls[k],
    ensures
        r.0@.len() == hits_of(ls).len(),
        forall|k: int| 0 <= k < r.0@.len() ==> hit_view(#[trigger] r.0@[k]) == hits_of(ls)[k],
        match r.1 {
            Some(h) => header_of(ls) == Some(h@),
            None => header_of(ls) is None,
        },
{
    let mut hits: Vec<Hit> = Vec::new();
    let mut header: Option<Vec<char>> = None;
    let mut i: usize = 0;
    while i < lines.len()
        invariant
            i <= lines@.len() == ls.len(),
            forall|k: int| 0 <= k < ls.len() ==> #[trigger] lines@[k]@ == ls[k],
            hits@.len() == hits_of(ls.take(i as int)).len(),
            forall|k: int| 0 <= k < hits@.len() ==> hit_view(#[trigger] hits@[k]) == hits_of(ls.take(i as int))[k],
            match header {
                Some(h) => header_of(ls.take(i as int)) == Some(h@),
                None => header_of(ls.take(i as int)) is None,
            },
        decreases lines@.len() - i,
    {
        let line = &lines[i];
        proof {
            assert(ls.take(i + 1).drop_last() =~= ls.take(i as int));
            assert(ls.take(i + 1).last() == ls[i as int]);
        }
        match parse_hit_exec(line) {
            Some(h) => {
                hits.push(h);
            },
            None => {
                if header.is_none() {
                    let t = trim_chars(line);
                    if t.len() > 0 {
                        header = Some(slice(line, 0, line.len()));
                        proof {
                            assert(line@.subrange(0, line@.len() as int) =~= line@);
                        }
                    }
                }
            },
        }
        i = i + 1;
    }
    proof {
        assert(ls.take(ls.len() as int) =~= ls);
    }
    (hits, header)
}

/// The distinct paths of the hits, in order of first appearance.
fn collect_paths(hits: &Vec<Hit>, Ghost(hv): Ghost<Seq<(Seq<char>, u64, Seq<char>)>>) -> (paths: Vec<Vec<char>>)
    requires
        hits@.len() == hv.len(),
        forall|k: int| 0 <= k < hv.len() ==> hit_view(#[trigger] hits@[k]) == hv[k],
    ensures
        paths@.len() == paths_of(hv).len(),
        forall|k: int| 0 <= k < paths@.len() ==> #[trigger] paths@[k]@ == paths_of(hv)[k],
{
    let mut paths: Vec<Vec<char>> = Vec::new();
    let mut i: usize = 0;
    while i < hits.len()
        invariant
            i <= hits@.len() == hv.len(),
            forall|k: int| 0 <= k < hv.len() ==> hit_view(#[trigger] hits@[k]) == hv[k],
            paths@.len() == paths_of(hv.take(i as int)).len(),
            forall|k: int| 0 <= k < paths@.len() ==> #[trigger] paths@[k]@ == paths_of(hv.take(i as int))[k],
        decreases hits@.len() - i,
    {
        let ghost prev = paths_of(hv.take(i as int));
        proof {
            assert(hv.take(i + 1).drop_last() =~= hv.take(i as int));
            assert(hv.take(i + 1).last() == hv[i as int]);
            assert(hit_view(hits@[i as int]) == hv[i as int]);
        }
        let p = &hits[i].path;
        let mut found = false;
        let mut j: usize = 0;
        while j < paths.len()
            invariant
                j <= paths@.len() == prev.len(),
                forall|k: int| 0 <= k < paths@.len() ==> #[trigger] paths@[k]@ == prev[k],
                found == (exists|k: int| 0 <= k < j && prev[k] == p@),
            decreases paths@.len() - j,
        {
            if chars_eq(&paths[j], p) {
                found = true;
            }
            j = j + 1;
        }
        proof {
            if found {
                assert(prev.contains(p@));
            } else {
                assert(!prev.contains(p@));
            }
        }
        if !found {
            paths.push(slice(p, 0, p.len()));
            proof {
                assert(p@.subrange(0, p@.len() as int) =~= p@);
            }
        }
        i = i + 1;
    }
    proof {
        assert(hv.take(hv.len() as int) =~= hv);
    }
    paths
}

/// The matches of the hits in file `path`, with their scores.
fn collect_members(hits: &Vec<Hit>, Ghost(hv): Ghost<Seq<(Seq<char>, u64, Seq<char>)>>, path: &Vec<char>) -> (ms: Vec<Member>)
    requires
        hits@.len() == hv.len(),
        forall|k: int| 0 <= k < hv.len() ==> hit_view(#[trigger] hits@[k]) == hv[k],
    ensures
        members_are(ms@, hits_in(hv, path@)),
{
    let mut ms: Vec<Member> = Vec::new();
    let mut i: usize = 0;
    while i < hits.len()
        invariant
            i <= hits@.len() == hv.len(),
            forall|k: int| 0 <= k < hv.len() ==> hit_view(#[trigger] hits@[k]) == hv[k],
            members_are(ms@, hits_in(hv.take(i as int), path@)),
        decreases hits@.len() - i,
    {
        proof {
            assert(hv.take(i + 1).drop_last() =~= hv.take(i as int));
            assert(hv.take(i + 1).last() == hv[i as int]);
            assert(hit_view(hits@[i as int]) == hv[i as int]);
        }
        let h = &hits[i];
        if chars_eq(&h.path, path) {
            let body = slice(&h.body, 0, h.body.len());
            proof {
                assert(h.body@.subrange(0, h.body@.len() as int) =~= h.body@);
            }
            let score = line_score_exec(&body);
            let ghost prev = ms@;
            ms.push(Member { line_number: h.line_number, body, score });
            proof {
                let vs = hits_in(hv.take(i + 1), path@);
                assert forall|k: int| 0 <= k < ms@.len() implies member_is(#[trigger] ms@[k], vs[k]) by {
                    if k < prev.len() {
                        assert(ms@[k] == prev[k]);
                    }
                }
            }
        }
        i = i + 1;
    }
    proof {
        assert(hv.take(hv.len() as int) =~= hv);
    }
    ms
}

fn total_exec(members: &Vec<Member>, Ghost(vs): Ghost<Seq<(u64, Seq<char>)>>) -> (t: u128)
    requires
        members_are(members@, vs),
    ensures
        t as nat == total_score(vs),
{
    let mut t: u128 = 0;
    let mut i: usize = 0;
    while i < members.len()
        invariant
            members_are(members@, vs),
            i <= members@.len(),
            t as nat == total_score(vs.take(i as int)),
            t <= 2 * i,
        decreases members@.len() - i,
    {
        proof {
            assert(vs.take(i + 1).drop_last() =~= vs.take(i as int));
            assert(member_is(members@[i as int], vs[i as int]));
        }
        t = t + members[i].score as u128;
        i = i + 1;
    }
    proof {
        assert(vs.take(vs.len() as int) =~= vs);
    }
    t
}

/// Compress grep/ripgrep output. Returns `None` when the content has no
/// parseable matches (the caller passes it through unchanged) or when the
/// compacted form would not be smaller than the input.
pub fn compress(content: &str) -> (r: Option<String>)
    ensures
        match r {
            Some(s) => compressed(content@) == Some(s@),
            None => compressed(content@) is None,
        },
{
    let chars = chars_of(content);
    let lines = split_lines(&chars);
    let ghost ls = lines_of(content@);
    let (hits, header) = collect_hits(&lines, Ghost(ls));
    let ghost hv = hits_of(ls);
    if hits.len() == 0 {
        return None;
    }
    let paths = collect_paths(&hits, Ghost(hv));
    let ghost files = files_of(hv);
    let ghost totals_v = totals_of(files);
    let n_files = paths.len();

    // Each file with its matches, in order of first appearance.
    let mut groups: Vec<FileGroup> = Vec::new();
    let mut totals: Vec<u128> = Vec::new();
    let mut g: usize = 0;
    while g < n_files
        invariant
            n_files == paths@.len() == files.len(),
            files == files_of(hv),
            totals_v == totals_of(files),
            hits@.len() == hv.len(),
            forall|k: int| 0 <= k < hv.len() ==> hit_view(#[trigger] hits@[k]) == hv[k],
            forall|k: int| 0 <= k < paths@.len() ==> #[trigger] paths@[k]@ == paths_of(hv)[k],
            g <= n_files,
            groups@.len() == g,
            totals@.len() == g,
            forall|k: int| 0 <= k < g ==> (#[trigger] groups@[k]).path@ == files[k].0
                && members_are(groups@[k].members@, files[k].1),
            forall|k: int| 0 <= k < g ==> #[trigger] totals@[k] as nat == totals_v[k],
        decreases n_files - g,
    {
        let members = collect_members(&hits, Ghost(hv), &paths[g]);
        let t = total_exec(&members, Ghost(files[g as int].1));
        let path = slice(&paths[g], 0, paths[g].len());
        proof {
            assert(paths@[g as int]@.subrange(0, paths@[g as int]@.len() as int) =~= paths@[g as int]@);
        }
        groups.push(FileGroup { path, members });
        totals.push(t);
        g = g + 1;
    }

    // The best-ranked files, in order of first appearance.
    let mut kept: Vec<usize> = Vec::new();
    let mut g: usize = 0;
    while g < n_files
        invariant
            n_files == files.len() == totals@.len(),
            totals_v == totals_of(files),
            forall|k: int| 0 <= k < n_files ==> #[trigger] totals@[k] as nat == totals_v[k],
            g <= n_files,
            forall|k: int| 0 <= k < kept@.len() ==> #[trigger] kept@[k] < n_files,
            kept_files(files, g as int) =~= Seq::new(kept@.len(), |k: int| files[kept@[k] as int]),
        decreases n_files - g,
    {
        let mut rank: usize = 0;
        let mut j: usize = 0;
        while j < n_files
            invariant
                n_files == files.len() == totals@.len(),
                totals_v == totals_of(files),
                forall|k: int| 0 <= k < n_files ==> #[trigger] totals@[k] as nat == totals_v[k],
                g < n_files,
                j <= n_files,
                rank as nat == file_rank(totals_v, g as int, j as int),
                rank <= j,
            decreases n_files - j,
        {
            if totals[j] > totals[g] || (totals[j] == totals[g] && j < g) {
                rank = rank + 1;
            }
            j = j + 1;
        }
        let ghost prev = kept@;
        if rank < MAX_FILES {
            kept.push(g);
        }
        g = g + 1;
        proof {
            assert(kept_files(files, g as int) =~= Seq::new(kept@.len(), |k: int| files[kept@[k] as int]));
        }
    }
    let ghost kf = kept_files(files, n_files as int);

    // Header, then the blocks of the kept files under the shared budget.
    let mut out: Vec<char> = Vec::new();
    match &header {
        Some(h) => {
            push_chars(&mut out, h);
            push_str(&mut out, "\n");
        },
        None => {},
    }
    let ghost head = out@;
    let mut remaining: usize = MAX_TOTAL;
    let mut t: usize = 0;
    proof {
        assert(kf.skip(0) =~= kf);
    }
    while t < kept.len()
        invariant
            n_files == files.len() == groups@.len(),
            forall|k: int| 0 <= k < n_files ==> (#[trigger] groups@[k]).path@ == files[k].0
                && members_are(groups@[k].members@, files[k].1),
            forall|k: int| 0 <= k < kept@.len() ==> #[trigger] kept@[k] < n_files,
            kf =~= Seq::new(kept@.len(), |k: int| files[kept@[k] as int]),
            t <= kept@.len(),
            head + emit(kf, MAX_TOTAL as nat) == out@ + emit(kf.skip(t as int), remaining as nat),
        decreases kept@.len() - t,
    {
        let gi = kept[t];
        let cap: usize = if remaining < MAX_PER_FILE {
            remaining
        } else {
            MAX_PER_FILE
        };
        let ghost before = out@;
        let kc = emit_file(&groups[gi].path, &groups[gi].members, Ghost(files[gi as int].1), cap, &mut out);
        let new_remaining: usize = if kc >= remaining {
            0
        } else {
            remaining - kc
        };
        proof {
            let rest = kf.skip(t as int);
            assert(rest[0] == files[gi as int]);
            assert(rest.drop_first() =~= kf.skip(t + 1));
            assert(emit(rest, remaining as nat) == file_block(rest[0].0, rest[0].1, cap as nat)
                + emit(rest.drop_first(), new_remaining as nat));
            assert(out@ + emit(kf.skip(t + 1), new_remaining as nat) =~= before + emit(rest, remaining as nat));
        }
        remaining = new_remaining;
        t = t + 1;
    }
    proof {
        assert(emit(kf.skip(t as int), remaining as nat) == Seq::<char>::empty());
    }
    let ghost body = out@;
    if n_files > MAX_FILES {
        let dropped = n_files - MAX_FILES;
        push_str(&mut out, "[... and ");
        push_decimal(&mut out, dropped as u64);
        push_str(&mut out, " more file(s) with lower-signal matches omitted]\n");
        proof {
            assert(out@ =~= body + dropped_line(dropped as nat));
        }
    }
    proof {
        assert(out@ =~= rendering(content@));
    }
    if utf8_len(&out) >= utf8_len(&chars) {
        return None;
    }
    let trimmed = trim_end_chars(&out);
    Some(string_from_chars(&trimmed))
}


// ── Laws of the selection ───────────────────────────────────────────────────

/// If match `j` ranks ahead of match `i`, everything ahead of `j` is ahead
/// of `i` too, and so is `j` itself.
proof fn lemma_ahead_monotone(scores: Seq<nat>, j: int, i: int, upto: int)
    requires
        0 <= i < scores.len(),
        0 <= j < scores.len(),
        upto <= scores.len(),
        ranks_ahead(scores, j, i),
    ensures
        ahead_count(scores, j, upto) + (if 1 <= j < upto { 1int } else { 0int }) <= ahead_count(
            scores,
            i,
            upto,
        ),
    decreases upto,
{
    if upto > 1 {
        lemma_ahead_monotone(scores, j, i, upto - 1);
    }
}

/// A match has at most `upto - 1` matches `1 <= j < upto` ahead of it, one
/// fewer when it is itself among them.
proof fn lemma_ahead_bound(scores: Seq<nat>, i: int, upto: int)
    requires
        0 <= i < scores.len(),
        upto <= scores.len(),
    ensures
        ahead_count(scores, i, upto) + (if 1 <= i < upto { 1int } else { 0int }) <= if upto <= 1 {
            0int
        } else {
            upto - 1
        },
    decreases upto,
{
    if upto > 1 {
        lemma_ahead_bound(scores, i, upto - 1);
    }
}

/// Among the middle matches `1 <= i < n - 1`, exactly `k` rank below `k`
/// (for `k <= n - 2`): the ranks of the middle matches are `0 .. n - 2`,
/// each taken once.
proof fn lemma_top_ranks(scores: Seq<nat>, k: int)
    requires
        scores.len() >= 2,
        0 <= k <= scores.len() - 2,
    ensures
        Set::new(|i: int| 1 <= i < scores.len() - 1 && ahead_count(scores, i, scores.len() - 1) < k).finite(),
        Set::new(|i: int| 1 <= i < scores.len() - 1 && ahead_count(scores, i, scores.len() - 1) < k).len() == k,
{
    let n = scores.len() as int;
    let m = n - 2;
    let mid = set_int_range(1, n - 1);
    let f = |i: int| ahead_count(scores, i, n - 1) as int;
    lemma_int_range(1, n - 1);
    lemma_int_range(0, m);
    lemma_int_range(0, k);
    assert forall|a: int, b: int| #![trigger f(a), f(b)]
        mid.contains(a) && mid.contains(b) && f(a) == f(b) implies a == b by {
        if a != b {
            if ranks_ahead(scores, b, a) {
                lemma_ahead_monotone(scores, b, a, n - 1);
            } else {
                lemma_ahead_monotone(scores, a, b, n - 1);
            }
        }
    }
    let img = mid.map(f);
    lemma_map_size(mid, img, f);
    assert forall|r: int| img.contains(r) implies set_int_range(0, m).contains(r) by {
        let a = choose|a: int| mid.contains(a) && r == f(a);
        lemma_ahead_bound(scores, a, n - 1);
    }
    lemma_subset_equality(img, set_int_range(0, m));
    let top = Set::new(|i: int| 1 <= i < n - 1 && ahead_count(scores, i, n - 1) < k);
    assert(top.subset_of(mid));
    lemma_len_subset(top, mid);
    assert forall|r: int| top.map(f).contains(r) <==> set_int_range(0, k).contains(r) by {
        if set_int_range(0, k).contains(r) {
            assert(img.contains(r));
            let a = choose|a: int| mid.contains(a) && r == f(a);
            assert(top.contains(a));
        }
        if top.map(f).contains(r) {
            let a = choose|a: int| top.contains(a) && r == f(a);
        }
    }
    assert(top.map(f) =~= set_int_range(0, k));
    lemma_map_size(top, set_int_range(0, k), f);
}

/// `kept_count` counts the kept matches among the first `upto`.
proof fn lemma_kept_count_set(scores: Seq<nat>, cap: nat, upto: int)
    requires
        0 <= upto,
    ensures
        Set::new(|i: int| 0 <= i < upto && keeps(scores, cap, i)).finite(),
        kept_count(scores, cap, upto) == Set::new(|i: int| 0 <= i < upto && keeps(scores, cap, i)).len(),
    decreases upto,
{
    let s = Set::new(|i: int| 0 <= i < upto && keeps(scores, cap, i));
    if upto == 0 {
        assert(s =~= Set::<int>::empty());
    } else {
        lemma_kept_count_set(scores, cap, upto - 1);
        let p = Set::new(|i: int| 0 <= i < upto - 1 && keeps(scores, cap, i));
        if keeps(scores, cap, upto - 1) {
            assert(s =~= p.insert(upto - 1));
        } else {
            assert(s =~= p);
        }
    }
}

/// Of a file's `n` matches, exactly `min(n, cap)` survive a cap of `cap`:
/// the first whenever one may, the last whenever two may, and the others by
/// rank, so that a surviving middle match has every middle match ranked
/// ahead of it (higher signal, or as high and earlier) surviving too.
pub proof fn lemma_file_selection(scores: Seq<nat>, cap: nat)
    ensures
        kept_count(scores, cap, scores.len() as int) == if scores.len() <= cap {
            scores.len()
        } else {
            cap
        },
        scores.len() > 0 && cap >= 1 ==> keeps(scores, cap, 0),
        scores.len() > 1 && cap >= 2 ==> keeps(scores, cap, scores.len() - 1),
        forall|i: int, j: int|
            0 < i < scores.len() - 1 && 0 < j < scores.len() - 1 && #[trigger] keeps(scores, cap, i)
                && #[trigger] ranks_ahead(scores, j, i) ==> keeps(scores, cap, j),
{
    let n = scores.len() as int;
    assert forall|i: int, j: int|
        0 < i < n - 1 && 0 < j < n - 1 && #[trigger] keeps(scores, cap, i) && #[trigger] ranks_ahead(
            scores,
            j,
            i,
        ) implies keeps(scores, cap, j) by {
        lemma_ahead_monotone(scores, j, i, n - 1);
    }
    lemma_kept_count_set(scores, cap, n);
    let s = Set::new(|i: int| 0 <= i < n && keeps(scores, cap, i));
    if n <= cap {
        lemma_int_range(0, n);
        assert(s =~= set_int_range(0, n));
    } else if cap == 0 {
        assert(s =~= Set::<int>::empty());
    } else if cap == 1 {
        assert(s =~= Set::<int>::empty().insert(0));
    } else {
        let k = cap - 2;
        lemma_top_ranks(scores, k);
        let top = Set::new(|i: int| 1 <= i < n - 1 && ahead_count(scores, i, n - 1) < k);
        assert(s =~= top.insert(0).insert(n - 1));
        assert(!top.contains(0));
        assert(!top.insert(0).contains(n - 1));
    }
}

/// If file `j` ranks ahead of file `i`, every file ahead of `j` is ahead of
/// `i` too, and so is `j` itself.
proof fn lemma_file_ahead_monotone(totals: Seq<nat>, j: int, i: int, upto: int)
    requires
        0 <= i < totals.len(),
        0 <= j < totals.len(),
        upto <= totals.len(),
        file_ahead(totals, j, i),
    ensures
        file_rank(totals, j, upto) + (if 0 <= j < upto { 1int } else { 0int }) <= file_rank(totals, i, upto),
    decreases upto,
{
    if upto > 0 {
        lemma_file_ahead_monotone(totals, j, i, upto - 1);
    }
}

/// A file has at most `upto` files `j < upto` ahead of it, one fewer when it
/// is itself among them.
proof fn lemma_file_rank_bound(totals: Seq<nat>, i: int, upto: int)
    requires
        0 <= i < totals.len(),
        0 <= upto <= totals.len(),
    ensures
        file_rank(totals, i, upto) + (if i < upto { 1int } else { 0int }) <= upto,
    decreases upto,
{
    if upto > 0 {
        lemma_file_rank_bound(totals, i, upto - 1);
    }
}

/// Exactly `k` of the files rank below `k` (for `k <= n`): the ranks of the
/// files are `0 .. n`, each taken once.
proof fn lemma_top_files(totals: Seq<nat>, k: int)
    requires
        0 <= k <= totals.len(),
    ensures
        Set::new(|i: int| 0 <= i < totals.len() && file_rank(totals, i, totals.len() as int) < k).finite(),
        Set::new(|i: int| 0 <= i < totals.len() && file_rank(totals, i, totals.len() as int) < k).len() == k,
{
    let n = totals.len() as int;
    let all = set_int_range(0, n);
    let f = |i: int| file_rank(totals, i, n) as int;
    lemma_int_range(0, n);
    lemma_int_range(0, k);
    assert forall|a: int, b: int| #![trigger f(a), f(b)]
        all.contains(a) && all.contains(b) && f(a) == f(b) implies a == b by {
        if a != b {
            if file_ahead(totals, b, a) {
                lemma_file_ahead_monotone(totals, b, a, n);
            } else {
                lemma_file_ahead_monotone(totals, a, b, n);
            }
        }
    }
    let img = all.map(f);
    lemma_map_size(all, img, f);
    assert forall|r: int| img.contains(r) implies set_int_range(0, n).contains(r) by {
        let a = choose|a: int| all.contains(a) && r == f(a);
        lemma_file_rank_bound(totals, a, n);
    }
    lemma_subset_equality(img, set_int_range(0, n));
    let top = Set::new(|i: int| 0 <= i < n && file_rank(totals, i, n) < k);
    assert(top.subset_of(all));
    lemma_len_subset(top, all);
    assert forall|r: int| top.map(f).contains(r) <==> set_int_range(0, k).contains(r) by {
        if set_int_range(0, k).contains(r) {
            assert(img.contains(r));
            let a = choose|a: int| all.contains(a) && r == f(a);
            assert(top.contains(a));
        }
        if top.map(f).contains(r) {
            let a = choose|a: int| top.contains(a) && r == f(a);
        }
    }
    assert(top.map(f) =~= set_int_range(0, k));
    lemma_map_size(top, set_int_range(0, k), f);
}

/// `kept_files` keeps, in order, the files among the first `upto` that rank
/// below `MAX_FILES`.
proof fn lemma_kept_files_set(files: Seq<(Seq<char>, Seq<(u64, Seq<char>)>)>, upto: int)
    requires
        0 <= upto,
    ensures
        Set::new(
            |i: int| 0 <= i < upto && file_rank(totals_of(files), i, files.len() as int) < MAX_FILES,
        ).finite(),
        kept_files(files, upto).len() == Set::new(
            |i: int| 0 <= i < upto && file_rank(totals_of(files), i, files.len() as int) < MAX_FILES,
        ).len(),
    decreases upto,
{
    let s = Set::new(
        |i: int| 0 <= i < upto && file_rank(totals_of(files), i, files.len() as int) < MAX_FILES,
    );
    if upto == 0 {
        assert(s =~= Set::<int>::empty());
    } else {
        lemma_kept_files_set(files, upto - 1);
        let p = Set::new(
            |i: int| 0 <= i < upto - 1 && file_rank(totals_of(files), i, files.len() as int) < MAX_FILES,
        );
        if file_rank(totals_of(files), upto - 1, files.len() as int) < MAX_FILES {
            assert(s =~= p.insert(upto - 1));
        } else {
            assert(s =~= p);
        }
    }
}

/// Of `n` files, exactly `min(n, MAX_FILES)` are kept: those of highest
/// total signal (ties to the file seen first), so that a kept file has every
/// file ranked ahead of it kept too.
pub proof fn lemma_files_selection(files: Seq<(Seq<char>, Seq<(u64, Seq<char>)>)>)
    ensures
        kept_files(files, files.len() as int).len() == if files.len() <= MAX_FILES {
            files.len()
        } else {
            MAX_FILES as nat
        },
        forall|i: int, j: int|
            0 <= i < files.len() && 0 <= j < files.len() && file_rank(totals_of(files), i, files.len() as int)
                < MAX_FILES && #[trigger] file_ahead(totals_of(files), j, i) ==> file_rank(
                totals_of(files),
                j,
                files.len() as int,
            ) < MAX_FILES,
{
    let n = files.len() as int;
    let totals = totals_of(files);
    assert forall|i: int, j: int|
        0 <= i < n && 0 <= j < n && file_rank(totals, i, n) < MAX_FILES && #[trigger] file_ahead(
            totals,
            j,
            i,
        ) implies file_rank(totals, j, n) < MAX_FILES by {
        lemma_file_ahead_monotone(totals, j, i, n);
    }
    lemma_kept_files_set(files, n);
    let s = Set::new(|i: int| 0 <= i < n && file_rank(totals, i, n) < MAX_FILES);
    if n <= MAX_FILES {
        lemma_int_range(0, n);
        assert forall|i: int| 0 <= i < n implies file_rank(totals, i, n) < MAX_FILES by {
            lemma_file_rank_bound(totals, i, n);
        }
        assert(s =~= set_int_range(0, n));
    } else {
        lemma_top_files(totals, MAX_FILES as int);
    }
}

proof fn lemma_no_kept_lines(path: Seq<char>, ms: Seq<(u64, Seq<char>)>, upto: int)
    requires
        ms.len() > 0,
        upto <= ms.len(),
    ensures
        kept_lines(path, ms, 0, upto) == Seq::<char>::empty(),
    decreases upto,
{
    if upto > 0 {
        lemma_no_kept_lines(path, ms, upto - 1);
    }
}

/// Once the match budget is spent, a file keeps no match and its block
/// still reports all of its matches as omitted.
pub proof fn lemma_spent_budget_reports_count(path: Seq<char>, ms: Seq<(u64, Seq<char>)>)
    requires
        ms.len() > 0,
    ensures
        file_block(path, ms, 0) == omitted_line(path, ms.len()),
{
    lemma_no_kept_lines(path, ms, ms.len() as int);
    lemma_file_selection(scores_of(ms), 0);
    assert(seq![] + omitted_line(path, ms.len()) =~= omitted_line(path, ms.len()));
}

/// Where the first colon at or after `i` is, and that none comes before.
proof fn lemma_colon_from_facts(s: Seq<char>, i: int)
    requires
        0 <= i <= s.len(),
    ensures
        i <= colon_from(s, i) <= s.len(),
        colon_from(s, i) < s.len() ==> s[colon_from(s, i)] == ':',
        forall|k: int| i <= k < colon_from(s, i) ==> s[k] != ':',
    decreases s.len() - i,
{
    if i < s.len() && s[i] != ':' {
        lemma_colon_from_facts(s, i + 1);
    }
}

/// The first colon at or after `i` is at `p` when `s[p]` is one and none
/// comes before.
proof fn lemma_colon_from_at(s: Seq<char>, i: int, p: int)
    requires
        0 <= i <= p < s.len(),
        s[p] == ':',
        forall|k: int| i <= k < p ==> s[k] != ':',
    ensures
        colon_from(s, i) == p,
    decreases p - i,
{
    if i < p {
        lemma_colon_from_at(s, i + 1, p);
    }
}

/// The decimal rendering of `n` is a non-empty run of digits worth `n`.
proof fn lemma_decimal_digits(n: nat)
    ensures
        decimal(n).len() >= 1,
        all_digits(decimal(n)),
        digits_value(decimal(n)) == n,
    decreases n,
{
    let d = (n % 10) as nat;
    assert(((48 + d) as u8) as char as nat == 48 + d) by {
        assert(d < 10);
    }
    if n >= 10 {
        lemma_decimal_digits(n / 10);
        let s = decimal(n);
        assert(s.drop_last() == decimal(n / 10));
        assert(s.last() == digit_char(d));
        assert(digit_char(d) as nat == 48 + d);
        assert(n == (n / 10) * 10 + n % 10) by (nonlinear_arith);
        assert(digits_value(s) == digits_value(s.drop_last()) * 10 + ((s.last() as nat) - 48) as nat);
        assert forall|k: int| 0 <= k < s.len() implies is_digit(#[trigger] s[k]) by {
            if k < s.len() - 1 {
                assert(s[k] == decimal(n / 10)[k]);
            }
        }
    } else {
        assert(decimal(n).drop_last() =~= Seq::<char>::empty());
        assert(decimal(n).last() == digit_char(d));
        assert(digit_char(d) as nat == 48 + d);
        assert(digits_value(decimal(n)) == digits_value(decimal(n).drop_last()) * 10 + ((decimal(n).last() as nat) - 48) as nat);
    }
}

/// A parsed hit rendered as `path:line:text` parses back to the same hit.
pub proof fn lemma_hit_line_parses_back(line: Seq<char>)
    requires
        parse_hit(line) is Some,
    ensures
        ({
            let h = parse_hit(line)->0;
            parse_hit(hit_line(h.0, (h.1, h.2)).drop_last()) == Some(h)
        }),
{
    reveal_strlit(":");
    reveal_strlit("\n");
    let h = parse_hit(line)->0;
    let (path, n, body) = h;
    let start: int = if drive_prefix(line) { 2 } else { 0 };
    let p = colon_from(line, start);
    lemma_colon_from_facts(line, start);
    let dec = decimal(n as nat);
    lemma_decimal_digits(n as nat);
    let r = path + ":"@ + dec + ":"@ + body;
    assert(hit_line(path, (n, body)).drop_last() =~= r);
    assert(path =~= line.take(p));
    assert(r.len() == p + 1 + dec.len() + 1 + body.len());
    assert forall|k: int| 0 <= k < p implies r[k] == line[k] by {}
    assert(r[p] == ':');
    assert forall|k: int| 0 <= k < dec.len() implies r[p + 1 + k] == dec[k] by {}
    assert(r[p + 1 + dec.len()] == ':');
    // the same drive prefix, hence the same start
    if drive_prefix(line) {
        assert(p >= 3) by {
            if p == 2 {
                assert(line[2] == ':');
            }
        }
        assert(drive_prefix(r));
    } else {
        assert(!drive_prefix(r)) by {
            if drive_prefix(r) {
                if p >= 3 {
                    assert(drive_prefix(line));
                } else if p == 2 {
                    assert(r[1] == line[1]);
                } else {
                    assert(r[2] == dec[0]);
                    assert(is_digit(dec[0]));
                }
            }
        }
    }
    lemma_colon_from_at(r, start, p);
    assert forall|k: int| p + 1 <= k < p + 1 + dec.len() implies r[k] != ':' by {
        assert(r[k] == dec[k - (p + 1)]);
        assert(is_digit(dec[k - (p + 1)]));
    }
    lemma_colon_from_at(r, p + 1, p + 1 + dec.len());
    let q = p + 1 + dec.len();
    assert(r.subrange(p + 1, q) =~= dec);
    assert(r.take(p) =~= path);
    assert(r.skip(q + 1) =~= body);
}

proof fn lemma_hits_from_lines(lines: Seq<Seq<char>>)
    ensures
        forall|i: int| 0 <= i < hits_of(lines).len() ==> exists|j: int|
            0 <= j < lines.len() && parse_hit(lines[j]) == Some(#[trigger] hits_of(lines)[i]),
    decreases lines.len(),
{
    if lines.len() > 0 {
        let init = lines.drop_last();
        lemma_hits_from_lines(init);
        let prev = hits_of(init);
        assert forall|i: int| 0 <= i < hits_of(lines).len() implies exists|j: int|
            0 <= j < lines.len() && parse_hit(lines[j]) == Some(#[trigger] hits_of(lines)[i]) by {
            if i < prev.len() {
                assert(hits_of(lines)[i] == prev[i]);
                let j = choose|j: int| 0 <= j < init.len() && parse_hit(init[j]) == Some(prev[i]);
                assert(lines[j] == init[j]);
            } else {
                assert(parse_hit(lines[lines.len() - 1]) == Some(hits_of(lines)[i]));
            }
        }
    }
}

proof fn lemma_hits_in_from(hits: Seq<(Seq<char>, u64, Seq<char>)>, path: Seq<char>)
    ensures
        forall|j: int| 0 <= j < hits_in(hits, path).len() ==> exists|i: int|
            0 <= i < hits.len() && hits[i] == (path, (#[trigger] hits_in(hits, path)[j]).0, hits_in(hits, path)[j].1),
    decreases hits.len(),
{
    if hits.len() > 0 {
        let init = hits.drop_last();
        lemma_hits_in_from(init, path);
        let prev = hits_in(init, path);
        let cur = hits_in(hits, path);
        assert forall|j: int| 0 <= j < cur.len() implies exists|i: int|
            0 <= i < hits.len() && hits[i] == (path, (#[trigger] cur[j]).0, cur[j].1) by {
            if j < prev.len() {
                assert(cur[j] == prev[j]);
                let i = choose|i: int| 0 <= i < init.len() && init[i] == (path, (#[trigger] prev[j]).0, prev[j].1);
                assert(hits[i] == init[i]);
            } else {
                assert(hits[hits.len() - 1] == (path, cur[j].0, cur[j].1));
            }
        }
    }
}

proof fn lemma_kept_files_from(files: Seq<(Seq<char>, Seq<(u64, Seq<char>)>)>, upto: int)
    requires
        upto <= files.len(),
    ensures
        forall|k: int| 0 <= k < kept_files(files, upto).len() ==> exists|t: int|
            0 <= t < upto && files[t] == #[trigger] kept_files(files, upto)[k],
    decreases upto,
{
    if upto > 0 {
        lemma_kept_files_from(files, upto - 1);
        let prev = kept_files(files, upto - 1);
        let cur = kept_files(files, upto);
        assert forall|k: int| 0 <= k < cur.len() implies exists|t: int| 0 <= t < upto && files[t] == #[trigger] cur[k] by {
            if k < prev.len() {
                assert(cur[k] == prev[k]);
                let t = choose|t: int| 0 <= t < upto - 1 && files[t] == #[trigger] prev[k];
            } else {
                assert(cur[k] == files[upto - 1]);
            }
        }
    }
}

/// Every match line a compacted search output may keep, rendered as
/// `path:line:text`, parses back to the hit of one of the input's lines.
pub proof fn lemma_kept_lines_parse_back(content: Seq<char>, t: int, j: int)
    requires
        0 <= t < kept_files(files_of(hits_of(lines_of(content))), files_of(hits_of(lines_of(content))).len() as int).len(),
        0 <= j < kept_files(files_of(hits_of(lines_of(content))), files_of(hits_of(lines_of(content))).len() as int)[t].1.len(),
    ensures
        ({
            let lines = lines_of(content);
            let f = kept_files(files_of(hits_of(lines)), files_of(hits_of(lines)).len() as int)[t];
            exists|i: int|
                0 <= i < lines.len() && parse_hit(lines[i]) == Some((f.0, f.1[j].0, f.1[j].1)) && parse_hit(
                    hit_line(f.0, f.1[j]).drop_last(),
                ) == parse_hit(#[trigger] lines[i])
        }),
{
    let lines = lines_of(content);
    let hits = hits_of(lines);
    let files = files_of(hits);
    let f = kept_files(files, files.len() as int)[t];
    lemma_kept_files_from(files, files.len() as int);
    let ft = choose|ft: int| 0 <= ft < files.len() && files[ft] == kept_files(files, files.len() as int)[t];
    let path = paths_of(hits)[ft];
    assert(f == (path, hits_in(hits, path)));
    lemma_hits_in_from(hits, path);
    let hi = choose|hi: int| 0 <= hi < hits.len() && hits[hi] == (path, (#[trigger] hits_in(hits, path)[j]).0, hits_in(hits, path)[j].1);
    lemma_hits_from_lines(lines);
    let i = choose|i: int| 0 <= i < lines.len() && parse_hit(lines[i]) == Some(#[trigger] hits[hi]);
    lemma_hit_line_parses_back(lines[i]);
    assert(f.1[j] == (hits[hi].1, hits[hi].2));
}

/// How many matches `emit` keeps in all.
pub open spec fn emitted_count(files: Seq<(Seq<char>, Seq<(u64, Seq<char>)>)>, remaining: nat) -> nat
    decreases files.len(),
{
    if files.len() == 0 {
        0
    } else {
        let cap: nat = if remaining < MAX_PER_FILE {
            remaining
        } else {
            MAX_PER_FILE as nat
        };
        let kc = kept_count(scores_of(files[0].1), cap, files[0].1.len() as int);
        kc + emitted_count(
            files.drop_first(),
            if kc >= remaining {
                0
            } else {
                (remaining - kc) as nat
            },
        )
    }
}

/// Under a budget of `remaining` matches, no file keeps more than
/// `MAX_PER_FILE` and all files together keep no more than the budget.
pub proof fn lemma_emit_within_budget(files: Seq<(Seq<char>, Seq<(u64, Seq<char>)>)>, remaining: nat)
    ensures
        emitted_count(files, remaining) <= remaining,
        forall|t: int|
            0 <= t < files.len() ==> kept_count(
                scores_of(#[trigger] files[t].1),
                MAX_PER_FILE as nat,
                files[t].1.len() as int,
            ) <= MAX_PER_FILE,
    decreases files.len(),
{
    assert forall|t: int| 0 <= t < files.len() implies kept_count(
        scores_of(#[trigger] files[t].1),
        MAX_PER_FILE as nat,
        files[t].1.len() as int,
    ) <= MAX_PER_FILE by {
        lemma_file_selection(scores_of(files[t].1), MAX_PER_FILE as nat);
    }
    if files.len() > 0 {
        let cap: nat = if remaining < MAX_PER_FILE {
            remaining
        } else {
            MAX_PER_FILE as nat
        };
        lemma_file_selection(scores_of(files[0].1), cap);
        let kc = kept_count(scores_of(files[0].1), cap, files[0].1.len() as int);
        lemma_emit_within_budget(
            files.drop_first(),
            if kc >= remaining {
                0
            } else {
                (remaining - kc) as nat
            },
        );
    }
}

/// A compressed search output is strictly smaller, in bytes, than its
/// input.
pub proof fn lemma_compressed_is_smaller(content: Seq<char>)
    ensures
        compressed(content) matches Some(out) ==> byte_len(out) < byte_len(content),
{
    lemma_trim_end_bytes(rendering(content));
}

/// A compacted search output keeps at most `MAX_TOTAL` matches in all.
pub proof fn lemma_search_total_bounded(content: Seq<char>)
    ensures
        emitted_count(
            kept_files(files_of(hits_of(lines_of(content))), files_of(hits_of(lines_of(content))).len() as int),
            MAX_TOTAL as nat,
        ) <= MAX_TOTAL,
{
    let files = files_of(hits_of(lines_of(content)));
    lemma_emit_within_budget(kept_files(files, files.len() as int), MAX_TOTAL as nat);
}

} // verus!
