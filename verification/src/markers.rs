//! The source text that the attribute macros and `seq::diagram!` expand to.
use vstd::prelude::*;
use vstd::string::*;

use crate::discover::unquote_spec;
use crate::text::{decimal_text, digit_char, is_white_space, push_decimal, rfind_char, trim, trim_end, trim_start};

verus! {

/// How one character is written inside a Rust string literal.
pub open spec fn literal_char(c: char) -> Seq<char> {
    if c == '\\' {
        "\\\\"@
    } else if c == '"' {
        "\\\""@
    } else if c == '\n' {
        "\\n"@
    } else if c == '\r' {
        "\\r"@
    } else if c == '\t' {
        "\\t"@
    } else {
        seq![c]
    }
}

/// The characters of `s` as written inside a string literal.
pub open spec fn literal_body(s: Seq<char>) -> Seq<char>
    decreases s.len(),
{
    if s.len() == 0 {
        Seq::empty()
    } else {
        literal_body(s.drop_last()) + literal_char(s.last())
    }
}

/// `s` as a Rust string literal: quoted, with `\`, `"`, newline, carriage
/// return and tab escaped, every other character as it is.
pub open spec fn literal_spec(s: Seq<char>) -> Seq<char> {
    seq!['"'] + literal_body(s) + seq!['"']
}

/// Renders `s` as a valid Rust string literal.
pub fn escape_str_literal(s: &str) -> (r: String)
    ensures
        r@ == literal_spec(s@),
{
    let n = s.unicode_len();
    let mut body = String::new();
    let mut i: usize = 0;
    assert(s@.subrange(0, 0) =~= Seq::<char>::empty());
    while i < n
        invariant
            n == s@.len(),
            i <= n,
            body@ == literal_body(s@.subrange(0, i as int)),
        decreases n - i,
    {
        let c = s.get_char(i);
        if c == '\\' {
            body.append("\\\\");
        } else if c == '"' {
            body.append("\\\"");
        } else if c == '\n' {
            body.append("\\n");
        } else if c == '\r' {
            body.append("\\r");
        } else if c == '\t' {
            body.append("\\t");
        } else {
            body.append(s.substring_char(i, i + 1));
            assert(s@.subrange(i as int, i + 1) =~= seq![c]);
        }
        assert(s@.subrange(0, i + 1).drop_last() =~= s@.subrange(0, i as int));
        i = i + 1;
    }
    assert(s@.subrange(0, n as int) =~= s@);
    let mut out = String::new();
    out.append("\"");
    proof {
        reveal_strlit("\"");
    }
    assert(out@ =~= seq!['"']);
    out.append(body.as_str());
    out.append("\"");
    out
}

/// The body of a Rust string literal made only of characters that stand for
/// themselves (anything but `\`, `"` and a carriage return) and of the
/// escapes `\\`, `\"`, `\n`, `\r` and `\t`. Such a body holds no quote that
/// would end the literal early, so quoted it is exactly one string-literal
/// token.
pub open spec fn rust_str_body(t: Seq<char>) -> bool
    decreases t.len(),
{
    if t.len() == 0 {
        true
    } else if t[0] == '\\' {
        &&& t.len() >= 2
        &&& (t[1] == '\\' || t[1] == '"' || t[1] == 'n' || t[1] == 'r' || t[1] == 't')
        &&& rust_str_body(t.skip(2))
    } else {
        t[0] != '"' && t[0] != '\r' && rust_str_body(t.skip(1))
    }
}

/// Reading a literal body back as Rust reads those escapes: `\n` a newline,
/// `\r` a carriage return, `\t` a tab, `\\` and `\"` the character escaped.
pub open spec fn read_literal_body(t: Seq<char>) -> Seq<char>
    decreases t.len(),
{
    if t.len() == 0 {
        Seq::empty()
    } else if t.len() >= 2 && t[0] == '\\' {
        let c = if t[1] == 'n' {
            '\n'
        } else if t[1] == 'r' {
            '\r'
        } else if t[1] == 't' {
            '\t'
        } else {
            t[1]
        };
        seq![c] + read_literal_body(t.skip(2))
    } else {
        seq![t[0]] + read_literal_body(t.skip(1))
    }
}

/// The marker text carried by a doc attribute: `__rust2seq_marker__:<kind>:<payload>`.
pub open spec fn marker_text(kind: Seq<char>, payload: Seq<char>) -> Seq<char> {
    "__rust2seq_marker__:"@ + kind + ":"@ + payload
}

/// `#[doc = "<marker>"]`: the attribute an attribute macro puts before its item.
pub open spec fn marker_attr_spec(kind: Seq<char>, payload: Seq<char>) -> Seq<char> {
    "#[doc = "@ + literal_spec(marker_text(kind, payload)) + "]"@
}

/// The attribute source that marks an item with `kind` and the macro's own
/// arguments `payload`.
pub fn emit_marker(kind: &str, payload: &str) -> (r: String)
    ensures
        r@ == marker_attr_spec(kind@, payload@),
{
    let mut marker = String::new();
    marker.append("__rust2seq_marker__:");
    assert(marker@ =~= "__rust2seq_marker__:"@);
    marker.append(kind);
    marker.append(":");
    marker.append(payload);
    let lit = escape_str_literal(marker.as_str());
    let mut out = String::new();
    out.append("#[doc = ");
    assert(out@ =~= "#[doc = "@);
    out.append(lit.as_str());
    out.append("]");
    out
}

/// The name of the const of the `id`-th `seq::diagram!`.
pub open spec fn diagram_const_name(id: nat) -> Seq<char> {
    "__RUST2SEQ_DIAGRAM_"@ + decimal_text(id)
}

/// The hidden const that one `seq::diagram!` expands to, numbered `id`, whose
/// value is the macro's body as a string.
pub open spec fn diagram_const_spec(id: nat, body: Seq<char>) -> Seq<char> {
    "#[doc(hidden)]\n#[allow(non_upper_case_globals, dead_code)]\nconst "@ + diagram_const_name(id)
        + ": &str = "@ + literal_spec(body) + ";\n"@
}

/// The source of the const for the `id`-th `seq::diagram!` with body `body`.
pub fn diagram_const_source(id: u64, body: &str) -> (r: String)
    ensures
        r@ == diagram_const_spec(id as nat, body@),
{
    let mut out = String::new();
    out.append("#[doc(hidden)]\n#[allow(non_upper_case_globals, dead_code)]\nconst ");
    assert(out@ =~= "#[doc(hidden)]\n#[allow(non_upper_case_globals, dead_code)]\nconst "@);
    let ghost head = out@;
    out.append("__RUST2SEQ_DIAGRAM_");
    push_decimal(&mut out, id);
    assert(out@ =~= head + diagram_const_name(id as nat));
    out.append(": &str = ");
    let lit = escape_str_literal(body);
    out.append(lit.as_str());
    out.append(";\n");
    out
}

/// The counter after handing out `c`.
pub open spec fn next_counter(c: u64) -> u64 {
    if c == u64::MAX {
        0
    } else {
        (c + 1) as u64
    }
}

/// Hands out the current number and moves the counter on, wrapping at the top.
pub fn next_id(counter: &mut u64) -> (r: u64)
    ensures
        r == *old(counter),
        *final(counter) == next_counter(*old(counter)),
{
    let id = *counter;
    *counter = if id == u64::MAX { 0 } else { id + 1 };
    id
}

/// What one `seq::diagram!` with body `body` expands to: the const numbered
/// by `counter`, which then moves on, so the next expansion names another
/// const.
pub fn expand_diagram(counter: &mut u64, body: &str) -> (r: String)
    ensures
        r@ == diagram_const_spec(*old(counter) as nat, body@),
        *final(counter) == next_counter(*old(counter)),
{
    let id = next_id(counter);
    diagram_const_source(id, body)
}

proof fn lemma_literal_body_front(s: Seq<char>)
    requires
        s.len() > 0,
    ensures
        literal_body(s) == literal_char(s[0]) + literal_body(s.drop_first()),
    decreases s.len(),
{
    if s.len() == 1 {
        assert(s.drop_last() =~= Seq::<char>::empty());
        assert(s.drop_first() =~= Seq::<char>::empty());
        assert(literal_body(s) =~= literal_char(s[0]) + literal_body(s.drop_first()));
    } else {
        lemma_literal_body_front(s.drop_last());
        assert(s.drop_last().drop_first() =~= s.drop_first().drop_last());
        assert(s.drop_first().last() == s.last());
        assert(literal_body(s) =~= literal_char(s[0]) + literal_body(s.drop_first()));
    }
}

proof fn lemma_read_literal_char(c: char, rest: Seq<char>)
    ensures
        read_literal_body(literal_char(c) + rest) == seq![c] + read_literal_body(rest),
{
    reveal_strlit("\\\\");
    reveal_strlit("\\\"");
    reveal_strlit("\\n");
    reveal_strlit("\\r");
    reveal_strlit("\\t");
    let t = literal_char(c) + rest;
    if c == '\\' || c == '"' || c == '\n' || c == '\r' || c == '\t' {
        assert(t.skip(2) =~= rest);
    } else {
        assert(t.skip(1) =~= rest);
    }
}

proof fn lemma_lex_literal_char(c: char, rest: Seq<char>)
    requires
        rust_str_body(rest),
    ensures
        rust_str_body(literal_char(c) + rest),
{
    reveal_strlit("\\\\");
    reveal_strlit("\\\"");
    reveal_strlit("\\n");
    reveal_strlit("\\r");
    reveal_strlit("\\t");
    let t = literal_char(c) + rest;
    if c == '\\' || c == '"' || c == '\n' || c == '\r' || c == '\t' {
        assert(t.skip(2) =~= rest);
    } else {
        assert(t.skip(1) =~= rest);
    }
}

/// Reading back the literal of any text gives that text: the body between
/// the quotes decodes to `s`, and it is a valid string-literal body with no
/// quote left unescaped, so the literal is one token whose value is `s`.
pub proof fn lemma_literal_roundtrip(s: Seq<char>)
    ensures
        read_literal_body(literal_body(s)) == s,
        rust_str_body(literal_body(s)),
        literal_spec(s).len() >= 2,
        literal_spec(s)[0] == '"',
        literal_spec(s).last() == '"',
    decreases s.len(),
{
    if s.len() > 0 {
        lemma_literal_body_front(s);
        lemma_literal_roundtrip(s.drop_first());
        lemma_read_literal_char(s[0], literal_body(s.drop_first()));
        lemma_lex_literal_char(s[0], literal_body(s.drop_first()));
        assert(seq![s[0]] + s.drop_first() =~= s);
    }
}

/// Characters a string literal writes as they are.
pub open spec fn plain_literal_char(c: char) -> bool {
    c != '\\' && c != '"' && c != '\n' && c != '\r' && c != '\t'
}

proof fn lemma_literal_body_plain(s: Seq<char>)
    requires
        forall|i: int| 0 <= i < s.len() ==> plain_literal_char(#[trigger] s[i]),
    ensures
        literal_body(s) == s,
    decreases s.len(),
{
    if s.len() > 0 {
        lemma_literal_body_plain(s.drop_last());
        assert(plain_literal_char(s[s.len() - 1]));
        assert(s.drop_last() + seq![s.last()] =~= s);
    }
}

/// A label written as a string literal by the `label` attribute reads back,
/// through the label parser, as the text it was given, for text that the
/// literal writes as it is (no `\`, `"`, newline, carriage return or tab).
pub proof fn lemma_label_literal_roundtrip(s: Seq<char>)
    requires
        forall|i: int| 0 <= i < s.len() ==> plain_literal_char(#[trigger] s[i]),
    ensures
        unquote_spec(literal_spec(s)) == Some(s),
{
    lemma_literal_body_plain(s);
    let t = literal_spec(s);
    assert(t =~= seq!['"'] + s + seq!['"']);
    assert(!is_white_space('"'));
    assert(trim_start(t) == t);
    assert(t.last() == '"');
    assert(trim_end(t) == t);
    assert(trim(t) == t);
    let u = t.drop_first();
    assert(u =~= s + seq!['"']);
    assert(u[s.len() as int] == '"');
    assert forall|i: int| 0 <= i < u.len() && u[i] == '"' implies i == s.len() by {
        if i < s.len() {
            assert(u[i] == s[i]);
            assert(plain_literal_char(s[i]));
        }
    }
    assert(rfind_char(u, '"') == Some(s.len() as int));
    assert(u.subrange(0, s.len() as int) =~= s);
}

proof fn lemma_digit_chars()
    ensures
        forall|d: nat| d < 10 ==> "0123456789"@.contains(#[trigger] digit_char(d)),
        forall|a: nat, b: nat| a < 10 && b < 10 && #[trigger] digit_char(a) == #[trigger] digit_char(b) ==> a == b,
        !"0123456789"@.contains(':'),
{
    reveal_strlit("0123456789");
    assert forall|d: nat| d < 10 implies "0123456789"@.contains(#[trigger] digit_char(d)) by {
        assert("0123456789"@[d as int] == digit_char(d));
    }
}

proof fn lemma_decimal_digits(n: nat)
    ensures
        decimal_text(n).len() >= 1,
        forall|i: int| 0 <= i < decimal_text(n).len() ==> "0123456789"@.contains(#[trigger] decimal_text(n)[i]),
        n >= 10 ==> decimal_text(n).len() >= 2,
    decreases n,
{
    lemma_digit_chars();
    if n >= 10 {
        lemma_decimal_digits(n / 10);
        let a = decimal_text(n / 10);
        let t = a + seq![digit_char(n % 10)];
        assert forall|i: int| 0 <= i < t.len() implies "0123456789"@.contains(#[trigger] t[i]) by {
            if i < a.len() {
                assert(t[i] == a[i]);
            }
        }
    }
}

/// Different numbers have different decimal numerals.
proof fn lemma_decimal_injective(a: nat, b: nat)
    requires
        decimal_text(a) == decimal_text(b),
    ensures
        a == b,
    decreases a,
{
    lemma_digit_chars();
    lemma_decimal_digits(a);
    lemma_decimal_digits(b);
    if a < 10 && b < 10 {
        assert(decimal_text(a)[0] == digit_char(a));
        assert(decimal_text(b)[0] == digit_char(b));
        assert(digit_char(a) == digit_char(b));
    } else if a >= 10 && b >= 10 {
        let ta = decimal_text(a);
        let tb = decimal_text(b);
        assert(ta.drop_last() =~= decimal_text(a / 10));
        assert(tb.drop_last() =~= decimal_text(b / 10));
        assert(ta.last() == digit_char(a % 10));
        assert(tb.last() == digit_char(b % 10));
        assert(digit_char(a % 10) == digit_char(b % 10));
        assert(a % 10 == b % 10);
        lemma_decimal_injective(a / 10, b / 10);
        assert(a == 10 * (a / 10) + a % 10);
        assert(b == 10 * (b / 10) + b % 10);
    } else {
        assert(decimal_text(a).len() != decimal_text(b).len());
    }
}

/// Two `seq::diagram!`s with different numbers expand to consts with
/// different names, and successive numbers from the counter differ: two
/// expansions one after the other (`expand_diagram`) never collide.
pub proof fn lemma_diagram_const_names_distinct(a: nat, b: nat, c: u64)
    ensures
        a != b ==> diagram_const_name(a) != diagram_const_name(b),
        next_counter(c) != c,
        diagram_const_name(c as nat) != diagram_const_name(next_counter(c) as nat),
{
    lemma_names_distinct(c as nat, next_counter(c) as nat);
    lemma_names_distinct(a, b);
}

proof fn lemma_names_distinct(a: nat, b: nat)
    ensures
        a != b ==> diagram_const_name(a) != diagram_const_name(b),
{
    if a != b && diagram_const_name(a) == diagram_const_name(b) {
        let p = "__RUST2SEQ_DIAGRAM_"@;
        assert(diagram_const_name(a).skip(p.len() as int) =~= decimal_text(a));
        assert(diagram_const_name(b).skip(p.len() as int) =~= decimal_text(b));
        lemma_decimal_injective(a, b);
    }
}

} // verus!
