//! PlantUML rendering of a flow.
use vstd::prelude::*;
use vstd::string::*;

use crate::config::StyleConfig;
use crate::discover::unescape_newlines;
use crate::text::{decimal_text, push_decimal};
use crate::model::{arrow_text_spec, block_keyword_spec, ArrowStyle, BlockKind, Branch, FlowEvent, FlowSpec, MessageSpec, Participant};

verus! {

broadcast use vstd::std_specs::vec::group_vec_axioms;

// ---------------------------------------------------------------------------
// The text of a diagram, stated over character sequences.
// ---------------------------------------------------------------------------

/// A newline inside one-line text is written as the two characters `\n`.
pub open spec fn escape_char(c: char) -> Seq<char> {
    if c == '\n' {
        "\\n"@
    } else {
        seq![c]
    }
}

/// `s` with every newline written as `\n`; every other character unchanged.
pub open spec fn escape_text(s: Seq<char>) -> Seq<char>
    decreases s.len(),
{
    if s.len() == 0 {
        Seq::empty()
    } else {
        escape_text(s.drop_last()) + escape_char(s.last())
    }
}

pub open spec fn bool_text(b: bool) -> Seq<char> {
    if b {
        "true"@
    } else {
        "false"@
    }
}

/// The comment line that marks the file as produced from code.
pub open spec fn banner_line() -> Seq<char> {
    "' !!! GENERATED by rust2seq — do not edit; regenerated on `cargo rust2seq` !!!\n"@
}

/// `@startuml <name>`, the banner, and `title <title>` when there is one.
pub open spec fn header_text(name: Seq<char>, title: Option<String>) -> Seq<char> {
    "@startuml "@ + name + "\n"@ + banner_line() + match title {
        Some(t) => "title "@ + escape_text(t@) + "\n"@,
        None => Seq::empty(),
    }
}

/// The `skinparam` block, one line per setting, in a fixed order.
pub open spec fn style_text(s: StyleConfig) -> Seq<char> {
    "skinparam shadowing "@ + bool_text(s.shadowing) + "\n"@
    + "skinparam roundCorner "@ + decimal_text(s.round_corner as nat) + "\n"@
    + "skinparam defaultFontName \""@ + s.default_font_name@ + "\"\n"@
    + "skinparam defaultFontSize "@ + decimal_text(s.default_font_size as nat) + "\n"@
    + "skinparam sequenceArrowThickness "@ + s.sequence_arrow_thickness@ + "\n"@
    + "skinparam sequenceMessageAlign "@ + s.sequence_message_align@ + "\n"@
    + "skinparam responseMessageBelowArrow "@ + bool_text(s.response_message_below_arrow) + "\n"@
    + "skinparam ParticipantPadding "@ + decimal_text(s.participant_padding as nat) + "\n"@
    + "skinparam BoxPadding "@ + decimal_text(s.box_padding as nat) + "\n"@
}

/// `participant "<display>" as <alias>`, followed by ` <color>` when set.
pub open spec fn participant_line(p: Participant) -> Seq<char> {
    "participant \""@ + escape_text(p.display@) + "\" as "@ + p.alias@ + match p.color {
        Some(c) => " "@ + c@,
        None => Seq::empty(),
    } + "\n"@
}

pub open spec fn participants_text(ps: Seq<Participant>) -> Seq<char>
    decreases ps.len(),
{
    if ps.len() == 0 {
        Seq::empty()
    } else {
        participants_text(ps.drop_last()) + participant_line(ps.last())
    }
}

/// What follows the leading `-` of an arrow.
pub open spec fn arrow_tail(s: ArrowStyle) -> Seq<char> {
    match s {
        ArrowStyle::Solid => ">"@,
        ArrowStyle::AsyncSolid => ">>"@,
        ArrowStyle::Dashed => "->"@,
        ArrowStyle::AsyncDashed => "->>"@,
    }
}

/// The arrow; a color is written as `-[<color>]` in place of the leading `-`.
pub open spec fn arrow_with_color(s: ArrowStyle, color: Option<String>) -> Seq<char> {
    match color {
        Some(c) => "-["@ + c@ + "]"@ + arrow_tail(s),
        None => arrow_text_spec(s),
    }
}

/// `<from> <arrow> <to> : <label>`, then `note over <from>, <to>: <note>` when set.
pub open spec fn message_text(m: MessageSpec, ind: Seq<char>) -> Seq<char> {
    ind + m.from@ + " "@ + arrow_with_color(m.style, m.color) + " "@ + m.to@ + " : "@
        + escape_text(m.label@) + "\n"@ + match m.note {
        Some(n) => ind + "note over "@ + m.from@ + ", "@ + m.to@ + ": "@ + escape_text(n@) + "\n"@,
        None => Seq::empty(),
    }
}

/// The opening line of a branch: the block keyword for the first branch,
/// `else` for every later one, then ` <label>` unless the label is empty.
pub open spec fn branch_header(kind: BlockKind, first: bool, label: Seq<char>, ind: Seq<char>) -> Seq<char> {
    ind + (if first {
        block_keyword_spec(kind)
    } else {
        "else"@
    }) + (if label.len() == 0 {
        Seq::<char>::empty()
    } else {
        " "@ + escape_text(label)
    }) + "\n"@
}

/// One indentation step for the contents of a block.
pub open spec fn indent_step() -> Seq<char> {
    "    "@
}

/// The lines of a sequence of events, each at indentation `ind`.
pub open spec fn events_text(es: Seq<FlowEvent>, ind: Seq<char>) -> Seq<char>
    decreases es,
{
    if es.len() == 0 {
        Seq::empty()
    } else {
        events_text(es.drop_last(), ind) + event_text(es.last(), ind)
    }
}

/// One arrow, or one block: its branches then `end`. A block without branches
/// writes nothing.
pub open spec fn event_text(e: FlowEvent, ind: Seq<char>) -> Seq<char>
    decreases e,
{
    match e {
        FlowEvent::Message(m) => message_text(m, ind),
        FlowEvent::Block(b) => if b.branches@.len() == 0 {
            Seq::empty()
        } else {
            branches_text(b.kind, b.branches@, ind) + ind + "end\n"@
        },
    }
}

pub open spec fn branches_text(kind: BlockKind, bs: Seq<Branch>, ind: Seq<char>) -> Seq<char>
    decreases bs,
{
    if bs.len() == 0 {
        Seq::empty()
    } else {
        branches_text(kind, bs.drop_last(), ind)
            + branch_header(kind, bs.len() == 1, bs.last().label@, ind)
            + events_text(bs.last().events@, ind + indent_step())
    }
}

/// The whole diagram: header, style, `autonumber`, participants, events, `@enduml`.
pub open spec fn flow_text(f: FlowSpec, style: StyleConfig) -> Seq<char> {
    header_text(f.name@, f.title) + style_text(style) + "\n"@ + "autonumber\n"@ + "\n"@
        + participants_text(f.participants@) + "\n"@ + events_text(f.events@, Seq::empty())
        + "\n"@ + "@enduml\n"@
}

// ---------------------------------------------------------------------------
// Rendering.
// ---------------------------------------------------------------------------

/// Appends `s` with every newline written as `\n`.
fn push_escaped(out: &mut String, s: &str)
    ensures
        final(out)@ == old(out)@ + escape_text(s@),
{
    let n = s.unicode_len();
    let mut i: usize = 0;
    assert(s@.subrange(0, 0) =~= Seq::<char>::empty());
    while i < n
        invariant
            n == s@.len(),
            i <= n,
            out@ == old(out)@ + escape_text(s@.subrange(0, i as int)),
        decreases n - i,
    {
        let c = s.get_char(i);
        let ghost before = out@;
        if c == '\n' {
            out.append("\\n");
        } else {
            out.append(s.substring_char(i, i + 1));
            assert(s@.subrange(i as int, i + 1) =~= seq![c]);
        }
        assert(s@.subrange(0, i + 1).drop_last() =~= s@.subrange(0, i as int));
        assert(escape_text(s@.subrange(0, i + 1)) == escape_text(s@.subrange(0, i as int)) + escape_char(c));
        assert(out@ =~= old(out)@ + escape_text(s@.subrange(0, i + 1)));
        i = i + 1;
    }
    assert(s@.subrange(0, n as int) =~= s@);
}

fn push_bool(out: &mut String, b: bool)
    ensures
        final(out)@ == old(out)@ + bool_text(b),
{
    if b {
        out.append("true");
    } else {
        out.append("false");
    }
}

fn style_string(s: &StyleConfig) -> (r: String)
    ensures
        r@ == style_text(*s),
{
    let mut t = String::new();
    t.append("skinparam shadowing ");
    assert(t@ =~= "skinparam shadowing "@);
    push_bool(&mut t, s.shadowing);
    t.append("\n");
    t.append("skinparam roundCorner ");
    push_decimal(&mut t, s.round_corner as u64);
    t.append("\n");
    t.append("skinparam defaultFontName \"");
    t.append(s.default_font_name.as_str());
    t.append("\"\n");
    t.append("skinparam defaultFontSize ");
    push_decimal(&mut t, s.default_font_size as u64);
    t.append("\n");
    t.append("skinparam sequenceArrowThickness ");
    t.append(s.sequence_arrow_thickness.as_str());
    t.append("\n");
    t.append("skinparam sequenceMessageAlign ");
    t.append(s.sequence_message_align.as_str());
    t.append("\n");
    t.append("skinparam responseMessageBelowArrow ");
    push_bool(&mut t, s.response_message_below_arrow);
    t.append("\n");
    t.append("skinparam ParticipantPadding ");
    push_decimal(&mut t, s.participant_padding as u64);
    t.append("\n");
    t.append("skinparam BoxPadding ");
    push_decimal(&mut t, s.box_padding as u64);
    t.append("\n");
    t
}

fn participant_string(p: &Participant) -> (r: String)
    ensures
        r@ == participant_line(*p),
{
    let mut t = String::new();
    t.append("participant \"");
    assert(t@ =~= "participant \""@);
    push_escaped(&mut t, p.display.as_str());
    t.append("\" as ");
    t.append(p.alias.as_str());
    let ghost before = t@;
    match &p.color {
        Some(c) => {
            let mut u = String::new();
            u.append(" ");
            assert(u@ =~= " "@);
            u.append(c.as_str());
            t.append(u.as_str());
        },
        None => {
            assert(before + Seq::<char>::empty() =~= before);
        },
    }
    t.append("\n");
    t
}

fn participants_string(ps: &Vec<Participant>) -> (r: String)
    ensures
        r@ == participants_text(ps@),
{
    let mut t = String::new();
    let mut i: usize = 0;
    assert(ps@.subrange(0, 0) =~= Seq::<Participant>::empty());
    while i < ps.len()
        invariant
            i <= ps.len(),
            t@ == participants_text(ps@.subrange(0, i as int)),
        decreases ps.len() - i,
    {
        let line = participant_string(&ps[i]);
        t.append(line.as_str());
        assert(ps@.subrange(0, i + 1).drop_last() =~= ps@.subrange(0, i as int));
        i = i + 1;
    }
    assert(ps@.subrange(0, ps.len() as int) =~= ps@);
    t
}

fn arrow_string(style: ArrowStyle, color: &Option<String>) -> (r: String)
    ensures
        r@ == arrow_with_color(style, *color),
{
    match color {
        Some(c) => {
            let mut t = String::new();
            t.append("-[");
            assert(t@ =~= "-["@);
            t.append(c.as_str());
            t.append("]");
            let tail = match style {
                ArrowStyle::Solid => ">",
                ArrowStyle::AsyncSolid => ">>",
                ArrowStyle::Dashed => "->",
                ArrowStyle::AsyncDashed => "->>",
            };
            t.append(tail);
            t
        },
        None => style.as_str().to_owned(),
    }
}

fn message_string(m: &MessageSpec, ind: &str) -> (r: String)
    ensures
        r@ == message_text(*m, ind@),
{
    let mut t = String::new();
    t.append(ind);
    assert(t@ =~= ind@);
    t.append(m.from.as_str());
    t.append(" ");
    let arrow = arrow_string(m.style, &m.color);
    t.append(arrow.as_str());
    t.append(" ");
    t.append(m.to.as_str());
    t.append(" : ");
    push_escaped(&mut t, m.label.as_str());
    t.append("\n");
    let ghost before = t@;
    match &m.note {
        Some(n) => {
            let mut u = String::new();
            u.append(ind);
            assert(u@ =~= ind@);
            u.append("note over ");
            u.append(m.from.as_str());
            u.append(", ");
            u.append(m.to.as_str());
            u.append(": ");
            push_escaped(&mut u, n.as_str());
            u.append("\n");
            t.append(u.as_str());
        },
        None => {
            assert(before + Seq::<char>::empty() =~= before);
        },
    }
    t
}

fn events_string(es: &Vec<FlowEvent>, ind: &str) -> (r: String)
    ensures
        r@ == events_text(es@, ind@),
    decreases es,
{
    let mut t = String::new();
    let mut i: usize = 0;
    assert(es@.subrange(0, 0) =~= Seq::<FlowEvent>::empty());
    while i < es.len()
        invariant
            i <= es.len(),
            t@ == events_text(es@.subrange(0, i as int), ind@),
        decreases es.len() - i,
    {
        let piece = event_string(&es[i], ind);
        t.append(piece.as_str());
        assert(es@.subrange(0, i + 1).drop_last() =~= es@.subrange(0, i as int));
        i = i + 1;
    }
    assert(es@.subrange(0, es.len() as int) =~= es@);
    t
}

fn event_string(e: &FlowEvent, ind: &str) -> (r: String)
    ensures
        r@ == event_text(*e, ind@),
    decreases e,
{
    match e {
        FlowEvent::Message(m) => message_string(m, ind),
        FlowEvent::Block(b) => {
            if b.branches.len() > 0 {
                let mut t = branches_string(b.kind, &b.branches, ind);
                t.append(ind);
                t.append("end\n");
                t
            } else {
                String::new()
            }
        },
    }
}

fn branch_header_string(kind: BlockKind, first: bool, label: &String, ind: &str) -> (r: String)
    ensures
        r@ == branch_header(kind, first, label@, ind@),
{
    let mut t = String::new();
    t.append(ind);
    assert(t@ =~= ind@);
    if first {
        t.append(kind.keyword());
    } else {
        t.append("else");
    }
    let ghost before = t@;
    if label.unicode_len() > 0 {
        let mut u = String::new();
        u.append(" ");
        assert(u@ =~= " "@);
        push_escaped(&mut u, label.as_str());
        t.append(u.as_str());
    } else {
        assert(before + Seq::<char>::empty() =~= before);
    }
    t.append("\n");
    t
}

fn branches_string(kind: BlockKind, bs: &Vec<Branch>, ind: &str) -> (r: String)
    ensures
        r@ == branches_text(kind, bs@, ind@),
    decreases bs,
{
    let mut inner = ind.to_owned();
    inner.append("    ");
    let mut t = String::new();
    let mut i: usize = 0;
    assert(bs@.subrange(0, 0) =~= Seq::<Branch>::empty());
    while i < bs.len()
        invariant
            i <= bs.len(),
            inner@ == ind@ + indent_step(),
            t@ == branches_text(kind, bs@.subrange(0, i as int), ind@),
        decreases bs.len() - i,
    {
        let br = &bs[i];
        let header = branch_header_string(kind, i == 0, &br.label, ind);
        t.append(header.as_str());
        let body = events_string(&br.events, inner.as_str());
        t.append(body.as_str());
        assert(bs@.subrange(0, i + 1).drop_last() =~= bs@.subrange(0, i as int));
        assert(bs@.subrange(0, i + 1).last() == bs@[i as int]);
        i = i + 1;
    }
    assert(bs@.subrange(0, bs.len() as int) =~= bs@);
    t
}

/// Renders `flow` as a PlantUML sequence diagram.
pub fn emit_plantuml(flow: &FlowSpec, style: &StyleConfig) -> (r: String)
    ensures
        r@ == flow_text(*flow, *style),
{
    let mut out = String::new();
    out.append("@startuml ");
    assert(out@ =~= "@startuml "@);
    out.append(flow.name.as_str());
    out.append("\n");
    out.append("' !!! GENERATED by rust2seq — do not edit; regenerated on `cargo rust2seq` !!!\n");
    let ghost before = out@;
    match &flow.title {
        Some(t) => {
            let mut u = String::new();
            u.append("title ");
            assert(u@ =~= "title "@);
            push_escaped(&mut u, t.as_str());
            u.append("\n");
            out.append(u.as_str());
        },
        None => {
            assert(before + Seq::<char>::empty() =~= before);
        },
    }
    let st = style_string(style);
    out.append(st.as_str());
    out.append("\n");
    out.append("autonumber\n");
    out.append("\n");
    let ps = participants_string(&flow.participants);
    out.append(ps.as_str());
    out.append("\n");
    proof {
        reveal_strlit("");
    }
    assert(""@ =~= Seq::<char>::empty());
    let es = events_string(&flow.events, "");
    out.append(es.as_str());
    out.append("\n");
    out.append("@enduml\n");
    out
}

// ---------------------------------------------------------------------------
// What every diagram looks like.
// ---------------------------------------------------------------------------

/// Escaped text never holds a newline, so a label or title stays on its line.
pub proof fn lemma_escape_text_one_line(s: Seq<char>)
    ensures
        !escape_text(s).contains('\n'),
    decreases s.len(),
{
    if s.len() > 0 {
        lemma_escape_text_one_line(s.drop_last());
        let a = escape_text(s.drop_last());
        let b = escape_char(s.last());
        reveal_strlit("\\n");
        assert(!b.contains('\n')) by {
            if s.last() == '\n' {
                assert(b =~= seq!['\\', 'n']);
            } else {
                assert(b =~= seq![s.last()]);
            }
        }
        assert forall|i: int| 0 <= i < (a + b).len() implies (a + b)[i] != '\n' by {
            if i < a.len() {
                assert((a + b)[i] == a[i]);
                assert(a.contains(a[i]));
            } else {
                assert((a + b)[i] == b[i - a.len()]);
                assert(b.contains(b[i - a.len()]));
            }
        }
    }
}

/// Text without newlines is written unchanged.
pub proof fn lemma_escape_text_plain(s: Seq<char>)
    requires
        !s.contains('\n'),
    ensures
        escape_text(s) == s,
    decreases s.len(),
{
    if s.len() > 0 {
        assert(!s.drop_last().contains('\n')) by {
            if s.drop_last().contains('\n') {
                let i = choose|i: int| 0 <= i < s.drop_last().len() && s.drop_last()[i] == '\n';
                assert(s[i] == '\n');
            }
        }
        lemma_escape_text_plain(s.drop_last());
        assert(s.last() != '\n') by {
            assert(s[s.len() - 1] == s.last());
        }
        assert(s.drop_last() + seq![s.last()] =~= s);
    }
}

proof fn lemma_prefix_extends(a: Seq<char>, b: Seq<char>, c: Seq<char>)
    requires
        a.is_prefix_of(b),
    ensures
        a.is_prefix_of(b + c),
{
    assert(a =~= (b + c).subrange(0, a.len() as int)) by {
        assert forall|i: int| 0 <= i < a.len() implies (b + c)[i] == a[i] by {
            assert(b.subrange(0, a.len() as int)[i] == b[i]);
        }
    }
}

/// Every diagram opens with `@startuml <name>` on its first line and closes
/// with `@enduml`.
pub proof fn lemma_flow_text_frame(f: FlowSpec, style: StyleConfig)
    ensures
        ("@startuml "@ + f.name@ + "\n"@).is_prefix_of(flow_text(f, style)),
        flow_text(f, style).len() >= 8,
        flow_text(f, style).subrange(flow_text(f, style).len() - 8, flow_text(f, style).len() as int)
            == "@enduml\n"@,
{
    let head = "@startuml "@ + f.name@ + "\n"@;
    let title = match f.title {
        Some(x) => "title "@ + escape_text(x@) + "\n"@,
        None => Seq::empty(),
    };
    let h1 = head + banner_line();
    let h = h1 + title;
    assert(head.is_prefix_of(head)) by {
        assert(head =~= head.subrange(0, head.len() as int));
    }
    lemma_prefix_extends(head, head, banner_line());
    lemma_prefix_extends(head, h1, title);
    assert(h == header_text(f.name@, f.title));
    let t1 = h + style_text(style);
    let t2 = t1 + "\n"@;
    let t3 = t2 + "autonumber\n"@;
    let t4 = t3 + "\n"@;
    let t5 = t4 + participants_text(f.participants@);
    let t6 = t5 + "\n"@;
    let t7 = t6 + events_text(f.events@, Seq::empty());
    let t8 = t7 + "\n"@;
    lemma_prefix_extends(head, h, style_text(style));
    lemma_prefix_extends(head, t1, "\n"@);
    lemma_prefix_extends(head, t2, "autonumber\n"@);
    lemma_prefix_extends(head, t3, "\n"@);
    lemma_prefix_extends(head, t4, participants_text(f.participants@));
    lemma_prefix_extends(head, t5, "\n"@);
    lemma_prefix_extends(head, t6, events_text(f.events@, Seq::empty()));
    lemma_prefix_extends(head, t7, "\n"@);
    lemma_prefix_extends(head, t8, "@enduml\n"@);
    let t = flow_text(f, style);
    assert(t == t8 + "@enduml\n"@);
    reveal_strlit("@enduml\n");
    assert(t.subrange(t.len() - 8, t.len() as int) =~= "@enduml\n"@);
}

/// Escaping text piece by piece is escaping it whole.
pub proof fn lemma_escape_text_append(a: Seq<char>, b: Seq<char>)
    ensures
        escape_text(a + b) == escape_text(a) + escape_text(b),
    decreases b.len(),
{
    if b.len() == 0 {
        assert(a + b =~= a);
        assert(escape_text(a) + escape_text(b) =~= escape_text(a));
    } else {
        lemma_escape_text_append(a, b.drop_last());
        assert((a + b).drop_last() =~= a + b.drop_last());
        assert((a + b).last() == b.last());
        assert(escape_text(a) + escape_text(b.drop_last()) + escape_char(b.last())
            =~= escape_text(a) + (escape_text(b.drop_last()) + escape_char(b.last())));
    }
}

/// A participant's display text as written in its marker (with `\n` for a
/// line break) is written into the diagram exactly as it was given: reading
/// the `\n`s as newlines and escaping the newlines again gives the text back,
/// for any text without a raw newline.
pub proof fn lemma_display_text_roundtrip(s: Seq<char>)
    requires
        !s.contains('\n'),
    ensures
        escape_text(unescape_newlines(s)) == s,
    decreases s.len(),
{
    if s.len() > 0 {
        reveal_strlit("\\n");
        let k: int = if s.len() >= 2 && s[0] == '\\' && s[1] == 'n' { 2 } else { 1 };
        let rest = s.skip(k);
        assert(!rest.contains('\n')) by {
            if rest.contains('\n') {
                let j = choose|j: int| 0 <= j < rest.len() && rest[j] == '\n';
                assert(s[j + k] == '\n');
            }
        }
        lemma_display_text_roundtrip(rest);
        let first = if k == 2 { seq!['\n'] } else { seq![s[0]] };
        assert(unescape_newlines(s) == first + unescape_newlines(rest));
        lemma_escape_text_append(first, unescape_newlines(rest));
        assert(first.drop_last() =~= Seq::<char>::empty());
        assert(first.last() == first[0]);
        assert(escape_text(Seq::<char>::empty()) == Seq::<char>::empty());
        assert(escape_text(first) == escape_char(first[0]));
        if k == 2 {
            assert(escape_char('\n') =~= seq!['\\', 'n']);
            assert(seq!['\\', 'n'] + rest =~= s);
        } else {
            assert(s[0] != '\n') by {
                assert(s.contains(s[0]));
            }
            assert(escape_char(s[0]) =~= seq![s[0]]);
            assert(seq![s[0]] + rest =~= s);
        }
    }
}

// ---------------------------------------------------------------------------
// The text depends on the views alone.
// ---------------------------------------------------------------------------

/// Events with the same view are written the same way.
pub proof fn lemma_events_text_view(a: Seq<FlowEvent>, b: Seq<FlowEvent>, ind: Seq<char>)
    requires
        crate::model::events_view(a) == crate::model::events_view(b),
    ensures
        events_text(a, ind) == events_text(b, ind),
    decreases a,
{
    crate::model::lemma_events_view_len(a);
    crate::model::lemma_events_view_len(b);
    if a.len() > 0 {
        let va = crate::model::events_view(a);
        assert(crate::model::events_view(a.drop_last()) == va.drop_last());
        assert(crate::model::events_view(b.drop_last()) == crate::model::events_view(b).drop_last());
        assert(crate::model::event_view(a.last()) == va.last());
        assert(crate::model::event_view(b.last()) == crate::model::events_view(b).last());
        lemma_events_text_view(a.drop_last(), b.drop_last(), ind);
        lemma_event_text_view(a.last(), b.last(), ind);
    }
}

/// An event with the same view as another is written the same way.
pub proof fn lemma_event_text_view(x: FlowEvent, y: FlowEvent, ind: Seq<char>)
    requires
        crate::model::event_view(x) == crate::model::event_view(y),
    ensures
        event_text(x, ind) == event_text(y, ind),
    decreases x,
{
    match x {
        FlowEvent::Message(m1) => {
            let m2 = y->Message_0;
            assert(m1@ == m2@);
            assert(crate::model::opt_text(m1.note) == crate::model::opt_text(m2.note));
            assert(crate::model::opt_text(m1.color) == crate::model::opt_text(m2.color));
            assert(arrow_with_color(m1.style, m1.color) == arrow_with_color(m2.style, m2.color));
            assert(message_text(m1, ind) == message_text(m2, ind));
        },
        FlowEvent::Block(b1) => {
            let b2 = y->Block_0;
            crate::model::lemma_branches_view_len(b1.branches@);
            crate::model::lemma_branches_view_len(b2.branches@);
            lemma_branches_text_view(b1.kind, b1.branches@, b2.branches@, ind);
        },
    }
}

/// Branches with the same view are written the same way.
pub proof fn lemma_branches_text_view(kind: BlockKind, a: Seq<Branch>, b: Seq<Branch>, ind: Seq<char>)
    requires
        crate::model::branches_view(a) == crate::model::branches_view(b),
    ensures
        branches_text(kind, a, ind) == branches_text(kind, b, ind),
    decreases a,
{
    crate::model::lemma_branches_view_len(a);
    crate::model::lemma_branches_view_len(b);
    if a.len() > 0 {
        let n = a.len() - 1;
        let la = crate::model::branches_view(a).last();
        let lb = crate::model::branches_view(b).last();
        assert(la == lb);
        assert(la.label == a.last().label@);
        assert(lb.label == b.last().label@);
        assert(la.events == crate::model::events_view(a.last().events@));
        assert(lb.events == crate::model::events_view(b.last().events@));
        assert(a.last().label@ == b.last().label@);
        assert(crate::model::events_view(a.last().events@) == crate::model::events_view(b.last().events@));
        assert(crate::model::branches_view(a).drop_last() =~= crate::model::branches_view(a.drop_last()));
        assert(crate::model::branches_view(b).drop_last() =~= crate::model::branches_view(b.drop_last()));
        lemma_branches_text_view(kind, a.drop_last(), b.drop_last(), ind);
        lemma_events_text_view(a.last().events@, b.last().events@, ind + indent_step());
    }
}

/// Participants whose lines are written alike give the same lines.
pub proof fn lemma_participants_text_eq(a: Seq<Participant>, b: Seq<Participant>)
    requires
        a.len() == b.len(),
        forall|i: int| 0 <= i < a.len() ==> participant_line(#[trigger] a[i]) == participant_line(b[i]),
    ensures
        participants_text(a) == participants_text(b),
    decreases a.len(),
{
    if a.len() > 0 {
        assert forall|i: int| 0 <= i < a.len() - 1 implies participant_line(#[trigger] a.drop_last()[i])
            == participant_line(b.drop_last()[i]) by {
            assert(participant_line(a[i]) == participant_line(b[i]));
        }
        lemma_participants_text_eq(a.drop_last(), b.drop_last());
        assert(participant_line(a[a.len() - 1]) == participant_line(b[a.len() - 1]));
    }
}

// ---------------------------------------------------------------------------
// How a block is written.
// ---------------------------------------------------------------------------

/// The text a label adds after a branch keyword: nothing for an empty label,
/// else a space and the label escaped.
pub open spec fn label_suffix(label: Seq<char>) -> Seq<char> {
    if label.len() == 0 {
        Seq::empty()
    } else {
        " "@ + escape_text(label)
    }
}

/// The lines of a two-branch block: the keyword line with the first label,
/// the first branch's events one step in, an `else` line with the second label,
/// the second branch's events one step in, and `end`. A later branch keeps its
/// label: an arm's pattern is written after its `else`.
pub proof fn lemma_two_branch_block_text(kind: BlockKind, b0: Branch, b1: Branch, ind: Seq<char>)
    ensures
        branches_text(kind, seq![b0, b1], ind) + ind + "end\n"@ ==
            ind + block_keyword_spec(kind) + label_suffix(b0.label@) + "\n"@
            + events_text(b0.events@, ind + "    "@)
            + ind + "else"@ + label_suffix(b1.label@) + "\n"@
            + events_text(b1.events@, ind + "    "@)
            + ind + "end\n"@,
{
    let bs = seq![b0, b1];
    assert(bs.drop_last() =~= seq![b0]);
    assert(seq![b0].drop_last() =~= Seq::<Branch>::empty());
    assert(branches_text(kind, Seq::<Branch>::empty(), ind) == Seq::<char>::empty());
    assert(branches_text(kind, seq![b0], ind) =~= branch_header(kind, true, b0.label@, ind)
        + events_text(b0.events@, ind + indent_step()));
    assert(branch_header(kind, true, b0.label@, ind) =~= ind + block_keyword_spec(kind) + label_suffix(b0.label@) + "\n"@);
    assert(branch_header(kind, false, b1.label@, ind) =~= ind + "else"@ + label_suffix(b1.label@) + "\n"@);
    assert(branches_text(kind, bs, ind) =~= branches_text(kind, seq![b0], ind)
        + branch_header(kind, false, b1.label@, ind) + events_text(b1.events@, ind + indent_step()));
}

/// Every branch after the first opens with `else`, followed by a space and its
/// label when it has one; the first opens with the block's keyword the same way.
pub proof fn lemma_branch_header_text(kind: BlockKind, first: bool, label: Seq<char>, ind: Seq<char>)
    ensures
        !first && label.len() > 0 ==> branch_header(kind, first, label, ind) == ind + "else "@ + escape_text(label) + "\n"@,
        !first && label.len() == 0 ==> branch_header(kind, first, label, ind) == ind + "else\n"@,
        first ==> branch_header(kind, first, label, ind) == ind + block_keyword_spec(kind) + label_suffix(label) + "\n"@,
{
    reveal_strlit("else ");
    reveal_strlit("else");
    reveal_strlit(" ");
    reveal_strlit("\n");
    reveal_strlit("else\n");
    if !first && label.len() > 0 {
        assert(branch_header(kind, first, label, ind) =~= ind + "else "@ + escape_text(label) + "\n"@);
    }
    if !first && label.len() == 0 {
        assert(branch_header(kind, first, label, ind) =~= ind + "else\n"@);
    }
    if first {
        assert(branch_header(kind, first, label, ind) =~= ind + block_keyword_spec(kind) + label_suffix(label) + "\n"@);
    }
}

} // verus!
