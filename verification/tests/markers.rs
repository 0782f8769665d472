//! The source text that the macros expand to.

use rust2seq::discover::parse_label_payload;
use rust2seq::markers::{diagram_const_source, emit_marker, escape_str_literal, next_id};

#[test]
fn literal_escapes_quotes_backslashes_and_controls() {
    assert_eq!(escape_str_literal("plain"), "\"plain\"");
    assert_eq!(escape_str_literal(""), "\"\"");
    assert_eq!(escape_str_literal("a\"b\\c"), "\"a\\\"b\\\\c\"");
    assert_eq!(escape_str_literal("l1\nl2\r\tx"), "\"l1\\nl2\\r\\tx\"");
    assert_eq!(escape_str_literal("→ ü"), "\"→ ü\"");
}

#[test]
fn marker_attribute_text() {
    assert_eq!(
        emit_marker("msg", "color = \"#cc3333\""),
        "#[doc = \"__rust2seq_marker__:msg:color = \\\"#cc3333\\\"\"]"
    );
    assert_eq!(emit_marker("participant", ""), "#[doc = \"__rust2seq_marker__:participant:\"]");
}

#[test]
fn diagram_const_text() {
    assert_eq!(
        diagram_const_source(7, "name = \"d\", entry = A::b"),
        "#[doc(hidden)]\n#[allow(non_upper_case_globals, dead_code)]\nconst __RUST2SEQ_DIAGRAM_7: &str = \"name = \\\"d\\\", entry = A::b\";\n"
    );
    assert!(diagram_const_source(18446744073709551615, "").contains("__RUST2SEQ_DIAGRAM_18446744073709551615: &str = \"\";"));
    assert!(diagram_const_source(0, "").contains("__RUST2SEQ_DIAGRAM_0:"));
}

#[test]
fn ids_count_up_and_wrap() {
    let mut c: u64 = 0;
    assert_eq!(next_id(&mut c), 0);
    assert_eq!(next_id(&mut c), 1);
    assert_eq!(c, 2);
    let mut top = u64::MAX;
    assert_eq!(next_id(&mut top), u64::MAX);
    assert_eq!(top, 0);
}

#[test]
fn label_literal_reads_back() {
    for s in ["POST /token { code, code_verifier }", "", "→ consent → 302"] {
        assert_eq!(parse_label_payload(&escape_str_literal(s)).as_deref(), Some(s));
    }
}

#[test]
fn diagram_consts_get_distinct_names() {
    let a = diagram_const_source(1, "x");
    let b = diagram_const_source(10, "x");
    assert!(a.contains("const __RUST2SEQ_DIAGRAM_1: &str"));
    assert!(b.contains("const __RUST2SEQ_DIAGRAM_10: &str"));
    assert_ne!(a, b);
}

#[test]
fn successive_diagrams_get_successive_consts() {
    let mut c: u64 = 4;
    let a = rust2seq::markers::expand_diagram(&mut c, "name = \"a\"");
    let b = rust2seq::markers::expand_diagram(&mut c, "name = \"b\"");
    assert!(a.contains("const __RUST2SEQ_DIAGRAM_4: &str = \"name = \\\"a\\\"\";"));
    assert!(b.contains("const __RUST2SEQ_DIAGRAM_5: &str"));
    assert_eq!(c, 6);
}
