//! Parsing of marker payloads and diagram declarations, and entry paths.

use rust2seq::discover::{
    extract_marker, is_diagram_const, is_escaped, join_path_of, lookup_str, module_local_segs,
    normalize_entry_path, parse_flow_decl, parse_label_payload, parse_str_value, resolve_entry,
    split_kv_pairs, split_path_in, unescape_newlines_in, unquote, DiscoveryReport, EntryCandidate,
    FlowDecl, Unquoted,
};

fn pairs(v: &[(&str, &str)]) -> Vec<(String, String)> {
    v.iter().map(|(k, x)| (k.to_string(), x.to_string())).collect()
}

fn segs(v: &[&str]) -> Vec<String> {
    v.iter().map(|s| s.to_string()).collect()
}

// ---------------------------------------------------------------------------
// Key/value payloads.
// ---------------------------------------------------------------------------

#[test]
fn kv_pairs_split_at_top_level_commas() {
    let got = split_kv_pairs("name = \"a, b\", participants = [X, Y], entry = f(1, 2)");
    assert_eq!(
        got,
        pairs(&[("name", "\"a, b\""), ("participants", "[X, Y]"), ("entry", "f(1, 2)")])
    );
}

#[test]
fn kv_pairs_skip_empty_chunks_and_chunks_without_equals() {
    let got = split_kv_pairs(" , lonely , k = v ,, ");
    assert_eq!(got, pairs(&[("k", "v")]));
    assert!(split_kv_pairs("").is_empty());
}

#[test]
fn kv_pairs_split_value_at_first_equals() {
    let got = split_kv_pairs("k = a = b");
    assert_eq!(got, pairs(&[("k", "a = b")]));
}

#[test]
fn kv_pairs_respect_escaped_quotes() {
    let got = split_kv_pairs(r#"label = "say \"hi, there\"", color = "red""#);
    assert_eq!(got, pairs(&[("label", r#""say \"hi, there\"""#), ("color", "\"red\"")]));
}

#[test]
fn escaped_looks_one_char_back() {
    assert!(!is_escaped("\"abc", 0));
    assert!(is_escaped("a\\\"", 2));
    assert!(!is_escaped("a \"", 2));
    assert!(is_escaped("x\\\"", 2));
    assert!(is_escaped("a\\", 2));
    assert!(!is_escaped("ab", 2));
    assert!(!is_escaped("", 0));
}

#[test]
fn lookup_takes_first_key_and_unquotes() {
    let p = pairs(&[("color", " \"#fff\" "), ("color", "\"#000\""), ("display", "bare")]);
    assert_eq!(lookup_str(&p, "color").as_deref(), Some("#fff"));
    assert_eq!(lookup_str(&p, "display"), None);
    assert_eq!(lookup_str(&p, "missing"), None);
}

#[test]
fn unquote_reports_why() {
    match unquote("  \"x\" y \"z\"  ") {
        Unquoted::Inner(s) => assert_eq!(s, "x\" y \"z"),
        _ => panic!("expected a quoted value"),
    }
    assert!(matches!(unquote("abc"), Unquoted::NoOpeningQuote));
    assert!(matches!(unquote(""), Unquoted::NoOpeningQuote));
    assert!(matches!(unquote(" \"abc"), Unquoted::NoClosingQuote));
}

#[test]
fn label_payload_is_the_quoted_text() {
    assert_eq!(parse_label_payload("\"POST /token\"").as_deref(), Some("POST /token"));
    assert_eq!(parse_label_payload("POST"), None);
}

#[test]
fn str_values_and_their_errors() {
    assert_eq!(parse_str_value(" \"ok\" "), Ok("ok".to_string()));
    assert_eq!(parse_str_value(" bare "), Err("expected string literal, got `bare`".to_string()));
    assert_eq!(parse_str_value(" \"open "), Err("unterminated string in `\"open`".to_string()));
}

// ---------------------------------------------------------------------------
// Diagram declarations.
// ---------------------------------------------------------------------------

#[test]
fn flow_decl_with_every_field() {
    let d = parse_flow_decl(
        "name = \"demo\", title = \"Demo\", entry = crate::a::F::go, output = \"out/demo.puml\",",
        42,
    )
    .unwrap();
    assert_eq!(d.name, "demo");
    assert_eq!(d.title.as_deref(), Some("Demo"));
    assert_eq!(d.entry_path, "crate::a::F::go");
    assert_eq!(d.output.as_deref(), Some("out/demo.puml"));
    assert_eq!(d.call_site_mod, 42);
}

#[test]
fn flow_decl_later_key_overrides() {
    let d = parse_flow_decl("name = \"a\", entry = X::y, name = \"b\"", 0).unwrap();
    assert_eq!(d.name, "b");
    assert_eq!(d.title, None);
    assert_eq!(d.output, None);
}

#[test]
fn flow_decl_errors() {
    assert_eq!(
        parse_flow_decl("entry = X::y", 0).unwrap_err(),
        "diagram! missing required `name`"
    );
    assert_eq!(
        parse_flow_decl("name = \"a\"", 0).unwrap_err(),
        "diagram! missing required `entry`"
    );
    assert_eq!(
        parse_flow_decl("name = \"a\", participants = [A], entry = X::y", 0).unwrap_err(),
        "unknown diagram! key `participants` (allowed: name, title, entry, output)"
    );
    assert_eq!(
        parse_flow_decl("name = a, entry = X::y", 0).unwrap_err(),
        "expected string literal, got `a`"
    );
    assert_eq!(
        parse_flow_decl("title = \"t, entry = X::y", 0).unwrap_err(),
        "unterminated string in `\"t, entry = X::y`"
    );
}

// ---------------------------------------------------------------------------
// Markers.
// ---------------------------------------------------------------------------

#[test]
fn markers_are_recognised_by_prefix() {
    assert_eq!(extract_marker("__rust2seq_marker__:msg:").as_deref(), Some("msg:"));
    assert_eq!(extract_marker(" __rust2seq_marker__:msg:"), None);
    assert_eq!(extract_marker("plain doc"), None);
    assert!(is_diagram_const("__RUST2SEQ_DIAGRAM_3"));
    assert!(!is_diagram_const("OTHER"));
}

#[test]
fn newline_escapes_are_read() {
    assert_eq!(unescape_newlines_in("a\\nb\\\\n"), "a\nb\\\n");
    assert_eq!(unescape_newlines_in("no escapes"), "no escapes");
}

#[test]
fn record_marker_kinds() {
    let mut r = DiscoveryReport::default();
    r.record_marker(1, "Browser", "participant:display = \"Two\\nlines\", color = \"#abc\"");
    r.record_marker(2, "Server", "participant:");
    r.record_marker(3, "go", "msg:color = \"red\"");
    r.record_marker(4, "stop", "msg:");
    r.record_marker(3, "go", "label:\"custom\"");
    r.record_marker(4, "stop", "label:unquoted");
    r.record_marker(5, "x", "other:payload");
    r.record_marker(6, "y", "no separator");
    assert_eq!(r.participants[&1].display, "Two\nlines");
    assert_eq!(r.participants[&1].color.as_deref(), Some("#abc"));
    assert_eq!(r.participants[&2].display, "Server");
    assert_eq!(r.participants[&2].color, None);
    assert_eq!(r.msgs[&3].as_deref(), Some("red"));
    assert_eq!(r.msgs[&4], None);
    assert_eq!(r.labels.get(&3).map(String::as_str), Some("custom"));
    assert!(!r.labels.contains_key(&4));
    assert_eq!(r.participants.len(), 2);
    assert_eq!(r.msgs.len(), 2);
    assert_eq!(r.labels.len(), 1);
}

fn decl(name: &str, entry: &str) -> FlowDecl {
    FlowDecl {
        name: name.to_string(),
        title: None,
        entry_path: entry.to_string(),
        output: None,
        call_site_mod: 0,
    }
}

#[test]
fn flows_are_kept_sorted_and_first_name_wins() {
    let mut r = DiscoveryReport::default();
    r.record_flow(decl("beta", "B::x"));
    r.record_flow(decl("alpha", "A::x"));
    r.record_flow(decl("beta", "Other::x"));
    r.record_flow(decl("gamma", "C::x"));
    let names: Vec<&str> = r.flows.iter().map(|f| f.name.as_str()).collect();
    assert_eq!(names, vec!["alpha", "beta", "gamma"]);
    assert_eq!(r.flows[1].entry_path, "B::x");
}

#[test]
fn record_diagram_reports_malformed_bodies() {
    let mut r = DiscoveryReport::default();
    assert_eq!(r.record_diagram("name = \"d\", entry = A::b", 9), Ok(()));
    assert_eq!(
        r.record_diagram("entry = A::b", 9),
        Err("diagram! missing required `name`".to_string())
    );
    assert_eq!(r.flows.len(), 1);
    assert_eq!(r.flows[0].call_site_mod, 9);
}

// ---------------------------------------------------------------------------
// Entry paths.
// ---------------------------------------------------------------------------

#[test]
fn paths_split_and_join_on_double_colons() {
    assert_eq!(split_path_in("a::b::c"), segs(&["a", "b", "c"]));
    assert_eq!(split_path_in("a"), segs(&["a"]));
    assert_eq!(split_path_in("a::"), segs(&["a", ""]));
    assert_eq!(split_path_in(""), segs(&[""]));
    assert_eq!(split_path_in("a:b"), segs(&["a:b"]));
    assert_eq!(join_path_of(&segs(&["a", "b"])), "a::b");
    assert_eq!(join_path_of(&segs(&[])), "");
    for p in ["a::b:::c", "::", "", "x::::y", "crate :: a"] {
        assert_eq!(join_path_of(&split_path_in(p)), p);
    }
}

#[test]
fn module_segments() {
    assert!(module_local_segs(true, "ignored").is_empty());
    assert!(module_local_segs(false, "").is_empty());
    assert_eq!(module_local_segs(false, "a::b"), segs(&["a", "b"]));
}

#[test]
fn normalize_each_prefix() {
    let m = segs(&["a", "b"]);
    assert_eq!(normalize_entry_path("crate::x::F::go", &m).as_deref(), Some("x::F::go"));
    assert_eq!(normalize_entry_path("self::F::go", &m).as_deref(), Some("a::b::F::go"));
    assert_eq!(normalize_entry_path("super::F::go", &m).as_deref(), Some("a::F::go"));
    assert_eq!(normalize_entry_path("super :: super :: F::go", &m).as_deref(), Some("F::go"));
    assert_eq!(normalize_entry_path("super::super::super::F::go", &m), None);
    assert_eq!(normalize_entry_path("F :: go", &m).as_deref(), Some("a::b::F::go"));
    assert_eq!(normalize_entry_path("F::::go", &m), None);
    assert_eq!(normalize_entry_path("", &m), None);
    assert_eq!(normalize_entry_path("F::go", &segs(&[])).as_deref(), Some("F::go"));
    assert_eq!(normalize_entry_path("self::F::go", &m), normalize_entry_path("F::go", &m));
}

#[test]
fn resolve_picks_first_fn_with_the_path() {
    let c = vec![
        EntryCandidate { id: 1, is_fn: false, path: "a::F::go".to_string() },
        EntryCandidate { id: 2, is_fn: true, path: "a::F::go".to_string() },
        EntryCandidate { id: 3, is_fn: true, path: "a::F::go".to_string() },
        EntryCandidate { id: 4, is_fn: true, path: "b::F::go".to_string() },
    ];
    assert_eq!(resolve_entry(&c, "F::go", &segs(&["a"])), Some(2));
    assert_eq!(resolve_entry(&c, "F::go", &segs(&["b"])), Some(4));
    assert_eq!(resolve_entry(&c, "crate::b::F::go", &segs(&["a"])), Some(4));
    assert_eq!(resolve_entry(&c, "crate::b::F::go", &segs(&["c", "d"])), Some(4));
    assert_eq!(resolve_entry(&c, "F::go", &segs(&["c"])), None);
    assert_eq!(resolve_entry(&c, "super::super::F::go", &segs(&["a"])), None);
}
