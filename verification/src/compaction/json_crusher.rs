//! JSON-array crusher.
//!
//! An array of objects that repeat the same keys is re-rendered as a table
//! that names each key once. The table is lossless: every value is kept
//! (nested values as compact JSON in their cell).

use vstd::prelude::*;
use crate::text::{
    byte_len, chars_eq, chars_of, decimal, has_char, has_char_exec, join, push_chars,
    push_decimal, push_joined, push_str, slice, string_from_chars, trim, trim_chars, trim_end,
    trim_end_chars, utf8_len,
};

verus! {

/// Minimum rows before tabular rendering is worth the header overhead.
pub const MIN_ROWS: usize = 3;

/// One member of a JSON object: its key, its text when the value is a JSON
/// string, and the value in compact JSON.
pub type Member = (Seq<char>, Option<Seq<char>>, Seq<char>);

/// What `serde_json` parses from `text`, as the crusher reads it: `None`
/// unless `text` is a JSON array; otherwise one entry per element, `None`
/// for an element that is not an object and the object's members (in the
/// order `serde_json` iterates them) for one that is.
pub uninterp spec fn json_array_members(text: Seq<char>) -> Option<
    Seq<Option<Seq<(Seq<char>, Option<Seq<char>>, Seq<char>)>>>,
>;

/// `serde_json::from_str` of `text` projected as `json_array_members`
/// describes: a JSON string member keeps its text, every member its compact
/// JSON rendering (`Value`'s `Display`).
#[verifier::external_body]
fn parse_array_members(text: &str) -> (r: Option<Vec<Option<Vec<(String, Option<String>, String)>>>>)
    ensures
        r.deep_view() == json_array_members(text@),
{
    match serde_json::from_str::<serde_json::Value>(text) {
        Ok(serde_json::Value::Array(items)) => Some(items.iter().map(|item| match item {
            serde_json::Value::Object(map) => Some(map.iter().map(|(k, v)| (k.clone(), match v {
                serde_json::Value::String(s) => Some(s.clone()),
                _ => None,
            }, v.to_string())).collect()),
            _ => None,
        }).collect()),
        _ => None,
    }
}

// ── Specification ───────────────────────────────────────────────────────────

/// The keys of a row's members, in order.
pub open spec fn keys_of(row: Seq<Member>) -> Seq<Seq<char>> {
    row.map_values(|m: Member| m.0)
}

/// Distinct elements of `xs` in order of first appearance.
pub open spec fn distinct(xs: Seq<Seq<char>>) -> Seq<Seq<char>>
    decreases xs.len(),
{
    if xs.len() == 0 {
        seq![]
    } else {
        let prev = distinct(xs.drop_last());
        if prev.contains(xs.last()) {
            prev
        } else {
            prev.push(xs.last())
        }
    }
}

/// The keys of all rows, in order.
pub open spec fn all_keys(rows: Seq<Seq<Member>>) -> Seq<Seq<char>>
    decreases rows.len(),
{
    if rows.len() == 0 {
        seq![]
    } else {
        all_keys(rows.drop_last()) + keys_of(rows.last())
    }
}

/// The table's columns: every key, once, in order of first appearance.
pub open spec fn columns_of(rows: Seq<Seq<Member>>) -> Seq<Seq<char>> {
    distinct(all_keys(rows))
}

/// The first member of `row` with key `key`.
pub open spec fn lookup(row: Seq<Member>, key: Seq<char>) -> Option<Member>
    decreases row.len(),
{
    if row.len() == 0 {
        None
    } else if row[0].0 == key {
        Some(row[0])
    } else {
        lookup(row.drop_first(), key)
    }
}

/// A string member whose text holds the column separator or a newline,
/// which printed bare would break the table's columns or rows.
pub open spec fn breaks_table(m: Member) -> bool {
    match m.1 {
        Some(s) => has_char(s, '|') || has_char(s, '\n'),
        None => false,
    }
}

/// A cell's text: a string bare unless it holds the column separator or a
/// newline, anything else as compact JSON.
pub open spec fn render_cell(m: Member) -> Seq<char> {
    match m.1 {
        Some(s) => if !has_char(s, '|') && !has_char(s, '\n') {
            s
        } else {
            m.2
        },
        None => m.2,
    }
}

/// The cell of column `key` in `row`: empty when the key is absent or null.
pub open spec fn cell_of(row: Seq<Member>, key: Seq<char>) -> Seq<char> {
    match lookup(row, key) {
        Some(m) => if m.2 == "null"@ {
            seq![]
        } else {
            render_cell(m)
        },
        None => seq![],
    }
}

/// The table line of one row.
pub open spec fn row_line(row: Seq<Member>, cols: Seq<Seq<char>>) -> Seq<char> {
    join(cols.map_values(|c: Seq<char>| cell_of(row, c)), " | "@)
}

/// The lines of the first `upto` rows.
pub open spec fn row_lines(rows: Seq<Seq<Member>>, cols: Seq<Seq<char>>, upto: int) -> Seq<char>
    decreases upto,
{
    if upto <= 0 {
        seq![]
    } else {
        row_lines(rows, cols, upto - 1) + row_line(rows[upto - 1], cols) + "\n"@
    }
}

/// The full table for `rows`, before trailing whitespace is trimmed.
pub open spec fn table(rows: Seq<Seq<Member>>) -> Seq<char> {
    let cols = columns_of(rows);
    "[json table: "@ + decimal(rows.len()) + " rows × "@ + decimal(cols.len())
        + " columns — values are JSON; empty = key absent]\n"@ + join(cols, " | "@) + "\n"@
        + row_lines(rows, cols, rows.len() as int)
}

/// The rows when every element is an object.
pub open spec fn object_rows(items: Seq<Option<Seq<Member>>>) -> Option<Seq<Seq<Member>>>
    decreases items.len(),
{
    if items.len() == 0 {
        Some(seq![])
    } else {
        match (object_rows(items.drop_last()), items.last()) {
            (Some(prev), Some(row)) => Some(prev.push(row)),
            _ => None,
        }
    }
}

/// What the crusher makes of the parsed array `items` of `content`: a table
/// when there are at least `MIN_ROWS` elements, all objects, with at least
/// two distinct keys between them, and the table is smaller (in bytes) than
/// `content`; `None` otherwise.
pub open spec fn crushed_items(items: Seq<Option<Seq<Member>>>, content: Seq<char>) -> Option<Seq<char>> {
    if items.len() < MIN_ROWS {
        None
    } else {
        match object_rows(items) {
            None => None,
            Some(rows) => if columns_of(rows).len() < 2 {
                None
            } else if byte_len(trim_end(table(rows))) >= byte_len(content) {
                None
            } else {
                Some(trim_end(table(rows)))
            },
        }
    }
}

/// What `compress` returns: `None` unless `content` (trimmed) parses as a
/// JSON array; otherwise what the crusher makes of its elements.
pub open spec fn crushed(content: Seq<char>) -> Option<Seq<char>> {
    match json_array_members(trim(content)) {
        None => None,
        Some(items) => crushed_items(items, content),
    }
}

// ── Executable rendering ────────────────────────────────────────────────────

struct Cell {
    key: Vec<char>,
    text: Option<Vec<char>>,
    json: Vec<char>,
}

spec fn cell_view(c: Cell) -> Member {
    (c.key@, match c.text {
        Some(t) => Some(t@),
        None => None,
    }, c.json@)
}

spec fn row_is(r: Seq<Cell>, v: Seq<Member>) -> bool {
    r.len() == v.len() && forall|k: int| 0 <= k < r.len() ==> cell_view(#[trigger] r[k]) == v[k]
}

fn cell_from(e: &(String, Option<String>, String)) -> (c: Cell)
    ensures
        cell_view(c) == e.deep_view(),
{
    let key = chars_of(e.0.as_str());
    let text = match &e.1 {
        Some(s) => Some(chars_of(s.as_str())),
        None => None,
    };
    let json = chars_of(e.2.as_str());
    Cell { key, text, json }
}

fn row_from(members: &Vec<(String, Option<String>, String)>) -> (r: Vec<Cell>)
    ensures
        row_is(r@, members.deep_view()),
{
    let mut r: Vec<Cell> = Vec::new();
    let mut k: usize = 0;
    while k < members.len()
        invariant
            k <= members@.len(),
            r@.len() == k,
            forall|q: int| 0 <= q < k ==> cell_view(#[trigger] r@[q]) == members.deep_view()[q],
        decreases members@.len() - k,
    {
        let c = cell_from(&members[k]);
        r.push(c);
        k = k + 1;
    }
    r
}

fn lookup_exec(row: &Vec<Cell>, Ghost(rv): Ghost<Seq<Member>>, key: &Vec<char>) -> (r: Option<usize>)
    requires
        row_is(row@, rv),
    ensures
        match r {
            Some(k) => k < row@.len() && lookup(rv, key@) == Some(rv[k as int]),
            None => lookup(rv, key@) is None,
        },
{
    let mut k: usize = 0;
    proof {
        assert(rv.skip(0) =~= rv);
    }
    while k < row.len()
        invariant
            row_is(row@, rv),
            k <= row@.len(),
            lookup(rv, key@) == lookup(rv.skip(k as int), key@),
        decreases row@.len() - k,
    {
        proof {
            assert(rv.skip(k as int)[0] == rv[k as int]);
            assert(rv.skip(k as int).drop_first() =~= rv.skip(k + 1));
            assert(cell_view(row@[k as int]) == rv[k as int]);
        }
        if chars_eq(&row[k].key, key) {
            return Some(k);
        }
        k = k + 1;
    }
    None
}

fn cell_text_exec(row: &Vec<Cell>, Ghost(rv): Ghost<Seq<Member>>, key: &Vec<char>) -> (t: Vec<char>)
    requires
        row_is(row@, rv),
    ensures
        t@ == cell_of(rv, key@),
        t@.len() == 0 || (lookup(rv, key@) matches Some(m) && (t@ == m.2 || (m.1 == Some(t@) && !has_char(
            t@,
            '|',
        ) && !has_char(t@, '\n')))),
        match lookup(rv, key@) {
            Some(m) => m.2 != "null"@ && breaks_table(m) ==> t@ == m.2,
            None => true,
        },
{
    match lookup_exec(row, Ghost(rv), key) {
        None => Vec::new(),
        Some(k) => {
            let c = &row[k];
            proof {
                assert(cell_view(row@[k as int]) == rv[k as int]);
            }
            if chars_eq_literal_null(&c.json) {
                Vec::new()
            } else {
                match &c.text {
                    Some(s) => if !has_char_exec(s, '|') && !has_char_exec(s, '\n') {
                        slice(s, 0, s.len())
                    } else {
                        slice(&c.json, 0, c.json.len())
                    },
                    None => slice(&c.json, 0, c.json.len()),
                }
            }
        },
    }
}

fn chars_eq_literal_null(v: &Vec<char>) -> (b: bool)
    ensures
        b == (v@ == "null"@),
{
    let n = chars_of("null");
    chars_eq(v, &n)
}

/// The rows of a parsed array when every element is an object.
fn rows_from(items: &Vec<Option<Vec<(String, Option<String>, String)>>>) -> (r: Option<Vec<Vec<Cell>>>)
    ensures
        match r {
            Some(rows) => object_rows(items.deep_view()) matches Some(rv) && rows@.len() == rv.len()
                && forall|k: int| 0 <= k < rv.len() ==> row_is(#[trigger] rows@[k]@, rv[k]),
            None => object_rows(items.deep_view()) is None,
        },
{
    let ghost iv = items.deep_view();
    let mut rows: Vec<Vec<Cell>> = Vec::new();
    let ghost mut rv: Seq<Seq<Member>> = seq![];
    let mut i: usize = 0;
    proof {
        assert(iv.take(0) =~= Seq::<Option<Seq<Member>>>::empty());
    }
    while i < items.len()
        invariant
            iv == items.deep_view(),
            i <= items@.len(),
            object_rows(iv.take(i as int)) == Some(rv),
            rows@.len() == rv.len(),
            forall|k: int| 0 <= k < rv.len() ==> row_is(#[trigger] rows@[k]@, rv[k]),
        decreases items@.len() - i,
    {
        proof {
            assert(iv.take(i + 1).drop_last() =~= iv.take(i as int));
            assert(iv.take(i + 1).last() == iv[i as int]);
            assert(iv[i as int] == items@[i as int].deep_view());
        }
        match &items[i] {
            None => {
                proof {
                    lemma_object_rows_prefix(iv, i + 1);
                }
                return None;
            },
            Some(members) => {
                let row = row_from(members);
                proof {
                    rv = rv.push(members.deep_view());
                }
                rows.push(row);
            },
        }
        i = i + 1;
    }
    proof {
        assert(iv.take(iv.len() as int) =~= iv);
    }
    Some(rows)
}

proof fn lemma_object_rows_prefix(items: Seq<Option<Seq<Member>>>, k: int)
    requires
        0 <= k <= items.len(),
        object_rows(items.take(k)) is None,
    ensures
        object_rows(items) is None,
    decreases items.len() - k,
{
    if k < items.len() {
        assert(items.take(k + 1).drop_last() =~= items.take(k));
        lemma_object_rows_prefix(items, k + 1);
    } else {
        assert(items.take(k) =~= items);
    }
}

/// The distinct keys of the rows, in order of first appearance.
fn collect_columns(rows: &Vec<Vec<Cell>>, Ghost(rv): Ghost<Seq<Seq<Member>>>) -> (cols: Vec<Vec<char>>)
    requires
        rows@.len() == rv.len(),
        forall|k: int| 0 <= k < rv.len() ==> row_is(#[trigger] rows@[k]@, rv[k]),
    ensures
        cols@.len() == columns_of(rv).len(),
        forall|k: int| 0 <= k < cols@.len() ==> #[trigger] cols@[k]@ == columns_of(rv)[k],
{
    let mut cols: Vec<Vec<char>> = Vec::new();
    let ghost mut flat: Seq<Seq<char>> = seq![];
    let mut r: usize = 0;
    proof {
        assert(rv.take(0) =~= Seq::<Seq<Member>>::empty());
    }
    while r < rows.len()
        invariant
            rows@.len() == rv.len(),
            forall|k: int| 0 <= k < rv.len() ==> row_is(#[trigger] rows@[k]@, rv[k]),
            r <= rows@.len(),
            flat == all_keys(rv.take(r as int)),
            cols@.len() == distinct(flat).len(),
            forall|k: int| 0 <= k < cols@.len() ==> #[trigger] cols@[k]@ == distinct(flat)[k],
        decreases rows@.len() - r,
    {
        let row = &rows[r];
        let ghost base = flat;
        let mut m: usize = 0;
        proof {
            assert(row_is(rows@[r as int]@, rv[r as int]));
            assert(base + keys_of(rv[r as int]).take(0) =~= base);
        }
        while m < row.len()
            invariant
                row_is(row@, rv[r as int]),
                r < rv.len(),
                m <= row@.len(),
                flat == base + keys_of(rv[r as int]).take(m as int),
                cols@.len() == distinct(flat).len(),
                forall|k: int| 0 <= k < cols@.len() ==> #[trigger] cols@[k]@ == distinct(flat)[k],
            decreases row@.len() - m,
        {
            let key = &row[m].key;
            let ghost prev = distinct(flat);
            proof {
                assert(cell_view(row@[m as int]) == rv[r as int][m as int]);
                assert(keys_of(rv[r as int])[m as int] == key@);
            }
            let mut found = false;
            let mut j: usize = 0;
            while j < cols.len()
                invariant
                    j <= cols@.len() == prev.len(),
                    forall|k: int| 0 <= k < cols@.len() ==> #[trigger] cols@[k]@ == prev[k],
                    found == (exists|k: int| 0 <= k < j && prev[k] == key@),
                decreases cols@.len() - j,
            {
                if chars_eq(&cols[j], key) {
                    found = true;
                }
                j = j + 1;
            }
            proof {
                let nf = flat.push(key@);
                assert(nf.drop_last() =~= flat);
                assert(base + keys_of(rv[r as int]).take(m + 1) =~= nf);
                if found {
                    assert(prev.contains(key@));
                } else {
                    assert(!prev.contains(key@));
                }
                flat = nf;
            }
            if !found {
                cols.push(slice(key, 0, key.len()));
                proof {
                    assert(key@.subrange(0, key@.len() as int) =~= key@);
                }
            }
            m = m + 1;
        }
        proof {
            assert(keys_of(rv[r as int]).take(row@.len() as int) =~= keys_of(rv[r as int]));
            assert(rv.take(r + 1).drop_last() =~= rv.take(r as int));
            assert(rv.take(r + 1).last() == rv[r as int]);
        }
        r = r + 1;
    }
    proof {
        assert(rv.take(rv.len() as int) =~= rv);
    }
    cols
}

/// Append the table line of one row.
fn push_row_line(out: &mut Vec<char>, row: &Vec<Cell>, Ghost(rv): Ghost<Seq<Member>>, cols: &Vec<Vec<char>>, Ghost(cv): Ghost<Seq<Seq<char>>>)
    requires
        row_is(row@, rv),
        cols@.len() == cv.len(),
        forall|k: int| 0 <= k < cv.len() ==> #[trigger] cols@[k]@ == cv[k],
    ensures
        final(out)@ == old(out)@ + row_line(rv, cv),
{
    let ghost cells_v = cv.map_values(|c: Seq<char>| cell_of(rv, c));
    let mut cells: Vec<Vec<char>> = Vec::new();
    let mut k: usize = 0;
    while k < cols.len()
        invariant
            row_is(row@, rv),
            cols@.len() == cv.len(),
            forall|q: int| 0 <= q < cv.len() ==> #[trigger] cols@[q]@ == cv[q],
            cells_v == cv.map_values(|c: Seq<char>| cell_of(rv, c)),
            k <= cols@.len(),
            cells@.len() == k,
            forall|q: int| 0 <= q < k ==> #[trigger] cells@[q]@ == cells_v[q],
        decreases cols@.len() - k,
    {
        let t = cell_text_exec(row, Ghost(rv), &cols[k]);
        cells.push(t);
        k = k + 1;
    }
    push_joined(out, &cells, Ghost(cells_v), " | ");
}

/// Compress a JSON array of objects into a compact table. Returns `None`
/// when the content is not such an array (of at least `MIN_ROWS` objects,
/// with at least two keys) or when the table would not be smaller.
pub fn compress(content: &str) -> (r: Option<String>)
    ensures
        match r {
            Some(s) => crushed(content@) == Some(s@),
            None => crushed(content@) is None,
        },
{
    let chars = chars_of(content);
    let t = trim_chars(&chars);
    let ts = string_from_chars(&t);
    match parse_array_members(ts.as_str()) {
        None => None,
        Some(items) => crush_members(&items, content),
    }
}

/// Render the parsed elements `items` of `content` as a table, when that
/// is worth it.
pub fn crush_members(items: &Vec<Option<Vec<(String, Option<String>, String)>>>, content: &str) -> (r: Option<String>)
    ensures
        match r {
            Some(s) => crushed_items(items.deep_view(), content@) == Some(s@),
            None => crushed_items(items.deep_view(), content@) is None,
        },
{
    let chars = chars_of(content);
    if items.len() < MIN_ROWS {
        return None;
    }
    let rows = match rows_from(items) {
        None => {
            return None;
        },
        Some(rows) => rows,
    };
    let ghost rv = object_rows(items.deep_view())->0;
    let cols = collect_columns(&rows, Ghost(rv));
    let ghost cv = columns_of(rv);
    if cols.len() < 2 {
        return None;
    }
    let mut out: Vec<char> = Vec::new();
    push_str(&mut out, "[json table: ");
    push_decimal(&mut out, rows.len() as u64);
    push_str(&mut out, " rows × ");
    push_decimal(&mut out, cols.len() as u64);
    push_str(&mut out, " columns — values are JSON; empty = key absent]\n");
    push_joined(&mut out, &cols, Ghost(cv), " | ");
    push_str(&mut out, "\n");
    let ghost head = out@;
    let mut i: usize = 0;
    while i < rows.len()
        invariant
            rows@.len() == rv.len(),
            forall|k: int| 0 <= k < rv.len() ==> row_is(#[trigger] rows@[k]@, rv[k]),
            cols@.len() == cv.len(),
            forall|k: int| 0 <= k < cv.len() ==> #[trigger] cols@[k]@ == cv[k],
            i <= rows@.len(),
            out@ == head + row_lines(rv, cv, i as int),
        decreases rows@.len() - i,
    {
        push_row_line(&mut out, &rows[i], Ghost(rv[i as int]), &cols, Ghost(cv));
        push_str(&mut out, "\n");
        i = i + 1;
        proof {
            assert(out@ =~= head + row_lines(rv, cv, i as int));
        }
    }
    proof {
        assert(out@ =~= table(rv));
    }
    let trimmed = trim_end_chars(&out);
    if utf8_len(&trimmed) >= utf8_len(&chars) {
        return None;
    }
    Some(string_from_chars(&trimmed))
}


// ── Laws ────────────────────────────────────────────────────────────────────

proof fn lemma_distinct(xs: Seq<Seq<char>>)
    ensures
        forall|x: Seq<char>| xs.contains(x) <==> #[trigger] distinct(xs).contains(x),
        forall|a: int, b: int| 0 <= a < b < distinct(xs).len() ==> #[trigger] distinct(xs)[a] != #[trigger] distinct(xs)[b],
    decreases xs.len(),
{
    if xs.len() > 0 {
        let init = xs.drop_last();
        lemma_distinct(init);
        let prev = distinct(init);
        assert forall|x: Seq<char>| xs.contains(x) <==> #[trigger] distinct(xs).contains(x) by {
            let d = distinct(xs);
            if xs.contains(x) {
                let i = choose|i: int| 0 <= i < xs.len() && xs[i] == x;
                if i < xs.len() - 1 {
                    assert(init[i] == x);
                    assert(init.contains(x));
                    assert(prev.contains(x));
                    let k = choose|k: int| 0 <= k < prev.len() && prev[k] == x;
                    assert(d[k] == x);
                } else if prev.contains(x) {
                    let k = choose|k: int| 0 <= k < prev.len() && prev[k] == x;
                    assert(d[k] == x);
                } else {
                    assert(d[prev.len() as int] == x);
                }
            }
            if distinct(xs).contains(x) {
                let i = choose|i: int| 0 <= i < distinct(xs).len() && distinct(xs)[i] == x;
                if !prev.contains(xs.last()) && i == prev.len() {
                    assert(xs[xs.len() - 1] == x);
                } else {
                    assert(prev[i] == x);
                    assert(prev.contains(x));
                    let k = choose|k: int| 0 <= k < init.len() && init[k] == x;
                    assert(xs[k] == x);
                }
            }
        }
    }
}

proof fn lemma_all_keys(rows: Seq<Seq<Member>>)
    ensures
        forall|i: int, j: int|
            0 <= i < rows.len() && 0 <= j < rows[i].len() ==> all_keys(rows).contains(#[trigger] rows[i][j].0),
    decreases rows.len(),
{
    if rows.len() > 0 {
        let init = rows.drop_last();
        lemma_all_keys(init);
        let prefix = all_keys(init);
        let last = keys_of(rows.last());
        assert forall|i: int, j: int| 0 <= i < rows.len() && 0 <= j < rows[i].len() implies all_keys(rows).contains(
            #[trigger] rows[i][j].0,
        ) by {
            if i < rows.len() - 1 {
                assert(init[i] == rows[i]);
                assert(prefix.contains(init[i][j].0));
                let k = choose|k: int| 0 <= k < prefix.len() && prefix[k] == rows[i][j].0;
                assert((prefix + last)[k] == rows[i][j].0);
            } else {
                assert(last[j] == rows[i][j].0);
                assert((prefix + last)[prefix.len() + j] == rows[i][j].0);
            }
        }
    }
}

/// A crushed array is strictly smaller, in bytes, than its input.
pub proof fn lemma_crushed_is_smaller(content: Seq<char>)
    ensures
        crushed(content) matches Some(out) ==> byte_len(out) < byte_len(content),
{
}

/// A table cell never carries a bare newline or column separator of a
/// string: it is empty, a member's compact JSON, or a string member's text
/// holding neither; a string holding either is rendered as its compact JSON.
pub proof fn lemma_cells_keep_rows_apart(row: Seq<Member>, key: Seq<char>)
    ensures
        cell_of(row, key).len() == 0 || (lookup(row, key) matches Some(m) && (cell_of(row, key) == m.2 || (
        m.1 == Some(cell_of(row, key)) && !has_char(cell_of(row, key), '|') && !has_char(
            cell_of(row, key),
            '\n',
        )))),
        match lookup(row, key) {
            Some(m) => m.2 != "null"@ && breaks_table(m) ==> cell_of(row, key) == m.2,
            None => true,
        },
{
}

/// The table drops no member's key and names each key once: every key of
/// every row is a column, and no two columns are the same key.
pub proof fn lemma_columns_cover_every_key(rows: Seq<Seq<Member>>)
    ensures
        forall|i: int, j: int|
            0 <= i < rows.len() && 0 <= j < rows[i].len() ==> columns_of(rows).contains(#[trigger] rows[i][j].0),
        forall|a: int, b: int|
            0 <= a < b < columns_of(rows).len() ==> #[trigger] columns_of(rows)[a] != #[trigger] columns_of(rows)[b],
{
    lemma_all_keys(rows);
    lemma_distinct(all_keys(rows));
}

} // verus!
