use openhuman_core::compaction::json_crusher;
use openhuman_core::compaction::search::{self, parse_search_line, MAX_PER_FILE, MAX_TOTAL};
use openhuman_core::compaction::store::{offload, retrieve, short_hash, CcrStore, HASH_BYTES, MAX_ENTRIES};
use openhuman_core::compaction::{compact_tool_output, MIN_BYTES_TO_COMPRESS};

// ── routing ─────────────────────────────────────────────────────────────────

#[test]
fn disabled_is_passthrough() {
    let big = "x".repeat(MIN_BYTES_TO_COMPRESS + 10);
    assert_eq!(compact_tool_output(big.clone(), "grep", false), big);
}

#[test]
fn small_output_passthrough() {
    let small = "a.rs:1:hit\nb.rs:2:hit".to_string();
    assert_eq!(compact_tool_output(small.clone(), "grep", true), small);
}

#[test]
fn large_search_is_compacted() {
    let mut s = String::from("80 match(es); scanned 2 file(s)\n");
    for i in 1..=40 {
        s.push_str(&format!("src/a.rs:{i}:let value_{i} = compute_something_long_{i}();\n"));
    }
    for i in 1..=40 {
        s.push_str(&format!("src/b.rs:{i}:fn helper_function_number_{i}() {{ /* body */ }}\n"));
    }
    assert!(s.len() >= MIN_BYTES_TO_COMPRESS);
    let out = compact_tool_output(s.clone(), "grep", true);
    assert!(out.len() < s.len(), "expected compaction");
    assert!(out.contains("more match(es) in"));
}

#[test]
fn unknown_tool_plain_text_passthrough() {
    let prose = "lorem ipsum ".repeat(400);
    let out = compact_tool_output(prose.clone(), "some_tool", true);
    assert_eq!(out, prose);
}

#[test]
fn unknown_tool_json_array_is_crushed() {
    let mut rows = Vec::new();
    for i in 0..60 {
        rows.push(format!(r#"{{"id":{i},"name":"row number {i}","status":"active"}}"#));
    }
    let input = format!("[{}]", rows.join(","));
    assert!(input.len() >= MIN_BYTES_TO_COMPRESS);
    let out = compact_tool_output(input.clone(), "list_records", true);
    assert!(out.starts_with("[json table: 60 rows × 3 columns"), "{out}");
    assert!(out.len() < input.len());
}

// ── search ──────────────────────────────────────────────────────────────────

fn big_search() -> String {
    let mut s = String::from("40 match(es); scanned 3 file(s)\n");
    for i in 1..=20 {
        s.push_str(&format!("src/a.rs:{i}:let value_{i} = compute();\n"));
    }
    for i in 1..=20 {
        s.push_str(&format!("src/b.rs:{i}:fn helper_{i}() {{}}\n"));
    }
    s
}

#[test]
fn caps_per_file_and_keeps_first_last() {
    let out = search::compress(&big_search()).expect("compresses");
    assert!(out.contains("src/a.rs:1:"), "{out}");
    assert!(out.contains("src/a.rs:20:"), "{out}");
    let a_lines = out.matches("src/a.rs:").count();
    assert!(a_lines <= MAX_PER_FILE, "a.rs kept {a_lines}");
    assert!(out.contains("more match(es) in src/a.rs"), "{out}");
    assert!(out.contains("scanned 3 file(s)"));
    assert!(out.len() < big_search().len());
}

#[test]
fn total_cap_enforced() {
    let mut s = String::new();
    for f in 0..20 {
        for i in 1..=10 {
            s.push_str(&format!("f{f}.rs:{i}:line {i}\n"));
        }
    }
    let out = search::compress(&s).expect("compresses");
    let kept: usize = out.lines().filter(|l| parse_search_line(l).is_some()).count();
    assert!(kept <= MAX_TOTAL, "kept {kept} > {MAX_TOTAL}");
}

#[test]
fn error_lines_preferred() {
    let mut s = String::new();
    for i in 1..=20 {
        if i == 10 {
            s.push_str(&format!("x.rs:{i}:ERROR something went badly wrong right here\n"));
        } else {
            s.push_str(&format!("x.rs:{i}:ordinary matching line number {i} nothing notable\n"));
        }
    }
    let out = search::compress(&s).expect("compresses");
    assert!(out.contains("ERROR something went badly wrong"), "{out}");
}

#[test]
fn no_matches_returns_none() {
    assert!(search::compress("just prose\nmore prose").is_none());
}

#[test]
fn search_output_exact_for_one_file() {
    let mut s = String::new();
    for i in 1..=8 {
        s.push_str(&format!("lib.rs:{i}:some fairly long matching line of text number {i}\n"));
    }
    let out = search::compress(&s).expect("compresses");
    let expected = "lib.rs:1:some fairly long matching line of text number 1\n\
lib.rs:2:some fairly long matching line of text number 2\n\
lib.rs:3:some fairly long matching line of text number 3\n\
lib.rs:4:some fairly long matching line of text number 4\n\
lib.rs:8:some fairly long matching line of text number 8\n\
[... and 3 more match(es) in lib.rs]";
    assert_eq!(out, expected);
}

#[test]
fn parse_search_line_handles_drive_prefix() {
    assert_eq!(
        parse_search_line("C:\\src\\a.rs:12:hit"),
        Some(("C:\\src\\a.rs".to_string(), 12, "hit".to_string()))
    );
    assert_eq!(parse_search_line("a.rs:007:x:y"), Some(("a.rs".to_string(), 7, "x:y".to_string())));
    assert_eq!(parse_search_line("a.rs:x7:y"), None);
    assert_eq!(parse_search_line(":1:y"), None);
    assert_eq!(parse_search_line("a.rs:99999999999999999999:y"), None);
}

#[test]
fn signal_scores() {
    assert_eq!(search::line_score("Error: boom"), 2);
    assert_eq!(search::line_score("a WARNING here"), 1);
    assert_eq!(search::line_score("plain"), 0);
}

#[test]
fn many_files_reports_dropped_files() {
    let mut s = String::new();
    for f in 0..20 {
        for i in 1..=3 {
            s.push_str(&format!("dir/file_number_{f}.rs:{i}:matching line {i} of the file number {f}\n"));
        }
    }
    let out = search::compress(&s).expect("compresses");
    assert!(out.ends_with("[... and 5 more file(s) with lower-signal matches omitted]"), "{out}");
}

// ── JSON crusher ────────────────────────────────────────────────────────────

#[test]
fn crushes_uniform_array() {
    let mut rows = Vec::new();
    for i in 0..20 {
        rows.push(format!(
            r#"{{"id":{i},"name":"item number {i}","status":"active","owner":"team-alpha"}}"#
        ));
    }
    let input = format!("[{}]", rows.join(","));
    let out = json_crusher::compress(&input).expect("compresses");
    assert_eq!(out.matches("status").count(), 1, "{out}");
    for col in ["id", "name", "status", "owner"] {
        assert!(out.lines().nth(1).unwrap().contains(col), "missing {col}");
    }
    assert!(out.contains("item number 7"));
    assert!(out.contains("19"));
    assert!(out.len() < input.len(), "expected shrink");
}

#[test]
fn preserves_nested_values_losslessly() {
    let input = r#"[
          {"id":1,"tags":["a","b"],"meta":{"k":1}},
          {"id":2,"tags":["c"],"meta":{"k":2}},
          {"id":3,"tags":[],"meta":{"k":3}}
        ]"#;
    let out = json_crusher::compress(input).expect("compresses");
    assert!(out.contains(r#"["a","b"]"#), "{out}");
    assert!(out.contains(r#"{"k":1}"#), "{out}");
}

#[test]
fn handles_missing_keys() {
    let mut rows = Vec::new();
    for i in 0..12 {
        rows.push(format!(
            r#"{{"alpha":{i},"bravo":"value string {i}","charlie":"another value {i}"}}"#
        ));
    }
    rows.push(r#"{"alpha":99}"#.to_string());
    let input = format!("[{}]", rows.join(","));
    let out = json_crusher::compress(&input).expect("compresses");
    let header = out.lines().nth(1).unwrap();
    for col in ["alpha", "bravo", "charlie"] {
        assert!(header.contains(col), "header missing {col}: {header}");
    }
    assert!(out.len() < input.len());
}

#[test]
fn non_array_returns_none() {
    assert!(json_crusher::compress(r#"{"a":1}"#).is_none());
    assert!(json_crusher::compress("[1,2,3]").is_none());
    assert!(json_crusher::compress(r#"[{"a":1}]"#).is_none());
}

#[test]
fn crusher_exact_table() {
    let input = r#"[{"alpha_column":"x|y","beta_column":null,"gamma_column":true},{"alpha_column":"plain","beta_column":2,"gamma_column":false},{"alpha_column":"multi word value","beta_column":3.5,"gamma_column":null}]   "#;
    let out = json_crusher::compress(input).expect("compresses");
    assert_eq!(
        out,
        "[json table: 3 rows × 3 columns — values are JSON; empty = key absent]\n\
alpha_column | beta_column | gamma_column\n\
\"x|y\" |  | true\n\
plain | 2 | false\n\
multi word value | 3.5 |"
    );
}

#[test]
fn crusher_needs_two_columns() {
    let input = r#"[{"only":"aaaaaaaaaa"},{"only":"bbbbbbbbbb"},{"only":"cccccccccc"}]"#;
    assert!(json_crusher::compress(input).is_none());
}

// ── CCR store ───────────────────────────────────────────────────────────────

#[test]
fn round_trips() {
    let mut store = CcrStore::new();
    let original = "the quick brown fox ".repeat(50);
    let hash = offload(&mut store, &original);
    assert_eq!(hash.len(), HASH_BYTES * 2);
    assert_eq!(retrieve(&store, &hash).as_deref(), Some(original.as_str()));
}

#[test]
fn idempotent_hash() {
    let mut store = CcrStore::new();
    let a = offload(&mut store, "identical payload content here");
    let b = offload(&mut store, "identical payload content here");
    assert_eq!(a, b);
    assert_eq!(store.len(), 1);
}

#[test]
fn missing_hash_is_none() {
    let store = CcrStore::new();
    assert!(retrieve(&store, "ffffffffffff").is_none() || retrieve(&store, "000000000000").is_none());
}

#[test]
fn eviction_bounds_size() {
    let mut store = CcrStore::new();
    let first = offload(&mut store, &format!("entry-{}", 0));
    for i in 1..(MAX_ENTRIES + 50) {
        offload(&mut store, &format!("entry-{i}"));
    }
    assert!(retrieve(&store, &first).is_none(), "oldest entry should evict");
    assert_eq!(store.len(), MAX_ENTRIES);
}

#[test]
fn short_hash_is_sha256_prefix() {
    // SHA-256("abc") = ba7816bf8f01cfea414140de5dae2223...
    assert_eq!(short_hash("abc"), "ba7816bf8f01");
}

fn grep_fixture() -> String {
    let mut s = String::from("120 match(es); scanned 6 file(s)\n");
    for f in 0..6 {
        for i in 1..=20 {
            s.push_str(&format!(
                "src/module_{f}/handler.rs:{i}:    let result = process_request(&ctx, payload_{i})?;\n"
            ));
        }
    }
    s
}

#[test]
fn disabled_yields_zero_savings() {
    // With the kill-switch off the output is the input, so nothing is saved.
    let raw = grep_fixture();
    assert_eq!(compact_tool_output(raw.clone(), "grep", false), raw);
}

#[test]
fn every_kept_file_reports_its_omitted_count() {
    let mut content = String::new();
    for f in 0..20 {
        for i in 1..=10 {
            content.push_str(&format!("f{f}.rs:{i}:line {i}\n"));
        }
    }
    let out = search::compress(&content).expect("compresses");
    for k in 0..15 {
        let path = format!("f{k}.rs");
        let kept = out.lines().filter(|l| l.starts_with(&format!("{path}:"))).count();
        let summary = format!("[... and {} more match(es) in {path}]", 10 - kept);
        assert!(kept == 10 || out.contains(&summary), "{path}: kept {kept}, no count\n{out}");
    }
    let total: usize = out.lines().filter(|l| !l.starts_with('[')).count();
    assert_eq!(total, MAX_TOTAL);
    assert!(out.contains("[... and 10 more match(es) in f14.rs]"), "{out}");
    assert!(out.ends_with("[... and 5 more file(s) with lower-signal matches omitted]"), "{out}");
}

#[test]
fn crush_members_renders_parsed_rows() {
    fn row(id: u32) -> Option<Vec<(String, Option<String>, String)>> {
        Some(vec![
            ("id".to_string(), None, id.to_string()),
            ("name".to_string(), Some(format!("n{id}")), format!("\"n{id}\"")),
        ])
    }
    let items = vec![row(1), row(2), row(3)];
    let content = " ".repeat(400);
    let out = json_crusher::crush_members(&items, &content).expect("table");
    assert_eq!(
        out,
        "[json table: 3 rows × 2 columns — values are JSON; empty = key absent]\nid | name\n1 | n1\n2 | n2\n3 | n3"
    );
    assert_eq!(json_crusher::crush_members(&items[..2].to_vec(), &content), None);
    assert_eq!(json_crusher::crush_members(&vec![row(1), None, row(3)], &content), None);
}

#[test]
fn stowed_content_survives_fewer_than_capacity_new_stows() {
    let mut store = CcrStore::new();
    let first = offload(&mut store, "the first original");
    for i in 0..(MAX_ENTRIES - 1) {
        offload(&mut store, &format!("later-{i}"));
        offload(&mut store, "the first original");
    }
    assert_eq!(retrieve(&store, &first).as_deref(), Some("the first original"));
    offload(&mut store, "one more new original");
    assert!(retrieve(&store, &first).is_none());
}

#[test]
fn kept_lines_parse_back_to_input_hits() {
    let mut content = String::new();
    for i in 1..=40 {
        content.push_str(&format!("C:\\src\\lib.rs:{i:03}:error in step {i}\n"));
    }
    let out = search::compress(&content).expect("compresses");
    let inputs: Vec<(String, u64, String)> =
        content.lines().filter_map(parse_search_line).collect();
    let mut kept = 0;
    for line in out.lines().filter(|l| !l.starts_with('[')) {
        let hit = parse_search_line(line).expect("a kept line parses");
        assert!(inputs.contains(&hit), "{line}");
        kept += 1;
    }
    assert_eq!(kept, MAX_PER_FILE);
}
