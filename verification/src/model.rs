//! Data model of one sequence diagram: participants, arrows and blocks.
use vstd::prelude::*;

use crate::text::str_eq;

verus! {

/// Opaque handle for a filesystem path, carried through the model unchanged.
#[verifier::external_type_specification]
#[verifier::external_body]
pub struct ExPathBuf(std::path::PathBuf);

/// `PathBuf::clone`, so that a flow can be cloned; nothing is claimed of the copy.
pub assume_specification[ <std::path::PathBuf as Clone>::clone ](p: &std::path::PathBuf) -> std::path::PathBuf;

/// One sequence diagram: its name, optional title, lanes, output location and
/// the conversation tree.
#[derive(Debug, Clone)]
pub struct FlowSpec {
    pub name: String,
    pub title: Option<String>,
    pub participants: Vec<Participant>,
    /// Where the rendered diagram is to be written.
    pub output: std::path::PathBuf,
    /// Flat arrows are `Message`s; control flow produces nested `Block`s.
    pub events: Vec<FlowEvent>,
}

/// One lane of the diagram.
#[derive(Debug, Clone)]
pub struct Participant {
    pub alias: String,
    pub display: String,
    pub color: Option<String>,
}

/// One element of a flow's conversation tree.
#[derive(Debug)]
pub enum FlowEvent {
    /// One arrow between two participants.
    Message(MessageSpec),
    /// A control-flow block (alt / loop / opt) wrapping nested events.
    Block(Block),
}

/// A control-flow block. The first branch is opened with the block's keyword,
/// every later branch with `else`.
#[derive(Debug)]
pub struct Block {
    pub kind: BlockKind,
    pub branches: Vec<Branch>,
}

/// One arm of a block; an empty label prints the bare keyword.
#[derive(Debug)]
pub struct Branch {
    pub label: String,
    pub events: Vec<FlowEvent>,
}

/// Shape of a control-flow block on the diagram.
#[derive(Clone, Copy, Debug, PartialEq, Eq, Structural)]
pub enum BlockKind {
    /// `if`/`match` with several arms: `alt ... else ... end`.
    Alt,
    /// `if` without `else`: `opt cond ... end`. Single branch.
    Opt,
    /// `for`/`while`/`loop`: `loop ... end`. Single branch.
    Loop,
}

/// The PlantUML keyword of each block kind.
pub open spec fn block_keyword_spec(k: BlockKind) -> Seq<char> {
    match k {
        BlockKind::Alt => "alt"@,
        BlockKind::Opt => "opt"@,
        BlockKind::Loop => "loop"@,
    }
}

impl BlockKind {
    /// The PlantUML keyword that opens a block of this kind.
    pub fn keyword(self) -> (r: &'static str)
        ensures
            r@ == block_keyword_spec(self),
    {
        match self {
            BlockKind::Alt => "alt",
            BlockKind::Opt => "opt",
            BlockKind::Loop => "loop",
        }
    }
}

/// One arrow between two participants.
#[derive(Debug, Clone)]
pub struct MessageSpec {
    pub from: String,
    pub to: String,
    pub label: String,
    pub style: ArrowStyle,
    pub note: Option<String>,
    pub color: Option<String>,
}

fn clone_events(v: &Vec<FlowEvent>) -> (r: Vec<FlowEvent>)
    ensures
        events_view(r@) == events_view(v@),
    decreases v,
{
    let mut out: Vec<FlowEvent> = Vec::new();
    let mut i: usize = 0;
    assert(v@.subrange(0, 0) =~= Seq::<FlowEvent>::empty());
    while i < v.len()
        invariant
            i <= v.len(),
            events_view(out@) == events_view(v@.subrange(0, i as int)),
        decreases v.len() - i,
    {
        proof {
            broadcast use vstd::std_specs::vec::axiom_vec_index_decreases;
        }
        let e = clone_event(&v[i]);
        proof {
            lemma_events_view_push(out@, e);
            assert(v@.subrange(0, i + 1).drop_last() =~= v@.subrange(0, i as int));
        }
        out.push(e);
        i = i + 1;
    }
    assert(v@.subrange(0, v@.len() as int) =~= v@);
    out
}

fn clone_branches(v: &Vec<Branch>) -> (r: Vec<Branch>)
    ensures
        branches_view(r@) == branches_view(v@),
    decreases v,
{
    let mut out: Vec<Branch> = Vec::new();
    let mut i: usize = 0;
    assert(v@.subrange(0, 0) =~= Seq::<Branch>::empty());
    while i < v.len()
        invariant
            i <= v.len(),
            branches_view(out@) == branches_view(v@.subrange(0, i as int)),
        decreases v.len() - i,
    {
        proof {
            broadcast use vstd::std_specs::vec::axiom_vec_index_decreases;
        }
        let br = &v[i];
        let events = clone_events(&br.events);
        let b = Branch { label: br.label.clone(), events };
        proof {
            assert(out@.push(b).drop_last() =~= out@);
            assert(v@.subrange(0, i + 1).drop_last() =~= v@.subrange(0, i as int));
        }
        out.push(b);
        i = i + 1;
    }
    assert(v@.subrange(0, v@.len() as int) =~= v@);
    out
}

fn clone_opt(o: &Option<String>) -> (r: Option<String>)
    ensures
        r == *o,
{
    match o {
        Some(s) => Some(s.clone()),
        None => None,
    }
}

fn clone_event(e: &FlowEvent) -> (r: FlowEvent)
    ensures
        event_view(r) == event_view(*e),
    decreases e,
{
    match e {
        FlowEvent::Message(m) => FlowEvent::Message(
            MessageSpec {
                from: m.from.clone(),
                to: m.to.clone(),
                label: m.label.clone(),
                style: m.style,
                note: clone_opt(&m.note),
                color: clone_opt(&m.color),
            },
        ),
        FlowEvent::Block(b) => FlowEvent::Block(
            Block { kind: b.kind, branches: clone_branches(&b.branches) },
        ),
    }
}

impl Clone for FlowEvent {
    /// A copy with the same view.
    fn clone(&self) -> (r: Self)
        ensures
            event_view(r) == event_view(*self),
    {
        clone_event(self)
    }
}

impl Clone for Block {
    /// A copy of the same kind whose branches have the same view.
    fn clone(&self) -> (r: Self)
        ensures
            r.kind == self.kind,
            branches_view(r.branches@) == branches_view(self.branches@),
    {
        Block { kind: self.kind, branches: clone_branches(&self.branches) }
    }
}

impl Clone for Branch {
    /// A copy with the same label and the same view of its events.
    fn clone(&self) -> (r: Self)
        ensures
            r.label@ == self.label@,
            events_view(r.events@) == events_view(self.events@),
    {
        Branch { label: self.label.clone(), events: clone_events(&self.events) }
    }
}

/// The four PlantUML arrow shapes.
#[derive(Clone, Copy, Debug, PartialEq, Eq, Structural)]
pub enum ArrowStyle {
    Solid,
    AsyncSolid,
    Dashed,
    AsyncDashed,
}

/// The PlantUML spelling of each arrow style.
pub open spec fn arrow_text_spec(s: ArrowStyle) -> Seq<char> {
    match s {
        ArrowStyle::Solid => "->"@,
        ArrowStyle::AsyncSolid => "->>"@,
        ArrowStyle::Dashed => "-->"@,
        ArrowStyle::AsyncDashed => "-->>"@,
    }
}

/// The style spelled `s`, if any.
pub open spec fn parse_arrow_spec(s: Seq<char>) -> Option<ArrowStyle> {
    if s == "->"@ {
        Some(ArrowStyle::Solid)
    } else if s == "->>"@ {
        Some(ArrowStyle::AsyncSolid)
    } else if s == "-->"@ {
        Some(ArrowStyle::Dashed)
    } else if s == "-->>"@ {
        Some(ArrowStyle::AsyncDashed)
    } else {
        None
    }
}

impl ArrowStyle {
    /// Reads an arrow spelled as in PlantUML (`->`, `->>`, `-->`, `-->>`).
    pub fn parse(s: &str) -> (r: Option<Self>)
        ensures
            r == parse_arrow_spec(s@),
    {
        if str_eq(s, "->") {
            Some(ArrowStyle::Solid)
        } else if str_eq(s, "->>") {
            Some(ArrowStyle::AsyncSolid)
        } else if str_eq(s, "-->") {
            Some(ArrowStyle::Dashed)
        } else if str_eq(s, "-->>") {
            Some(ArrowStyle::AsyncDashed)
        } else {
            None
        }
    }

    /// The PlantUML spelling of this arrow.
    pub fn as_str(self) -> (r: &'static str)
        ensures
            r@ == arrow_text_spec(self),
    {
        match self {
            ArrowStyle::Solid => "->",
            ArrowStyle::AsyncSolid => "->>",
            ArrowStyle::Dashed => "-->",
            ArrowStyle::AsyncDashed => "-->>",
        }
    }
}

impl Default for ArrowStyle {
    fn default() -> (r: Self)
        ensures
            r == ArrowStyle::Solid,
    {
        ArrowStyle::Solid
    }
}

/// Reading back the spelling of any style gives that style.
pub proof fn lemma_arrow_parse_as_str(s: ArrowStyle)
    ensures
        parse_arrow_spec(arrow_text_spec(s)) == Some(s),
{
    reveal_strlit("->");
    reveal_strlit("->>");
    reveal_strlit("-->");
    reveal_strlit("-->>");
    assert("->"@.len() == 2 && "->>"@.len() == 3 && "-->"@.len() == 3 && "-->>"@.len() == 4);
    assert("->>"@[1] != "-->"@[1]);
    assert("->"@ != "->>"@);
    assert("->"@ != "-->"@);
    assert("->"@ != "-->>"@);
    assert("->>"@ != "-->"@);
    assert("->>"@ != "-->>"@);
    assert("-->"@ != "-->>"@);
}

/// Whatever `parse` accepts is spelled back exactly by `as_str`.
pub proof fn lemma_arrow_as_str_parse(t: Seq<char>)
    ensures
        parse_arrow_spec(t) matches Some(s) ==> arrow_text_spec(s) == t,
{
}

// ---------------------------------------------------------------------------
// Mathematical views of the conversation tree.
// ---------------------------------------------------------------------------

/// An arrow with its strings taken as character sequences.
pub struct MessageView {
    pub from: Seq<char>,
    pub to: Seq<char>,
    pub label: Seq<char>,
    pub style: ArrowStyle,
    pub note: Option<Seq<char>>,
    pub color: Option<Seq<char>>,
}

/// The conversation tree with vectors taken as sequences.
pub enum EventView {
    Message(MessageView),
    Block(BlockKind, Seq<BranchView>),
}

pub struct BranchView {
    pub label: Seq<char>,
    pub events: Seq<EventView>,
}

pub open spec fn opt_text(o: Option<String>) -> Option<Seq<char>> {
    match o {
        Some(s) => Some(s@),
        None => None,
    }
}

impl View for MessageSpec {
    type V = MessageView;

    open spec fn view(&self) -> MessageView {
        MessageView {
            from: self.from@,
            to: self.to@,
            label: self.label@,
            style: self.style,
            note: opt_text(self.note),
            color: opt_text(self.color),
        }
    }
}

pub open spec fn event_view(e: FlowEvent) -> EventView
    decreases e,
{
    match e {
        FlowEvent::Message(m) => EventView::Message(m@),
        FlowEvent::Block(b) => EventView::Block(b.kind, branches_view(b.branches@)),
    }
}

pub open spec fn events_view(es: Seq<FlowEvent>) -> Seq<EventView>
    decreases es,
{
    if es.len() == 0 {
        Seq::empty()
    } else {
        events_view(es.drop_last()).push(event_view(es.last()))
    }
}

pub open spec fn branches_view(bs: Seq<Branch>) -> Seq<BranchView>
    decreases bs,
{
    if bs.len() == 0 {
        Seq::empty()
    } else {
        branches_view(bs.drop_last()).push(
            BranchView { label: bs.last().label@, events: events_view(bs.last().events@) },
        )
    }
}

/// The view of a sequence of events keeps its length, element by element.
pub proof fn lemma_events_view_len(es: Seq<FlowEvent>)
    ensures
        events_view(es).len() == es.len(),
        forall|i: int| 0 <= i < es.len() ==> #[trigger] events_view(es)[i] == event_view(es[i]),
    decreases es.len(),
{
    if es.len() > 0 {
        lemma_events_view_len(es.drop_last());
    }
}

/// The view of a sequence of branches keeps its length, element by element.
pub proof fn lemma_branches_view_len(bs: Seq<Branch>)
    ensures
        branches_view(bs).len() == bs.len(),
        forall|i: int|
            0 <= i < bs.len() ==> #[trigger] branches_view(bs)[i] == (BranchView {
                label: bs[i].label@,
                events: events_view(bs[i].events@),
            }),
    decreases bs.len(),
{
    if bs.len() > 0 {
        lemma_branches_view_len(bs.drop_last());
    }
}

/// Pushing one event extends the view by that event's view.
pub proof fn lemma_events_view_push(es: Seq<FlowEvent>, e: FlowEvent)
    ensures
        events_view(es.push(e)) == events_view(es).push(event_view(e)),
{
    assert(es.push(e).drop_last() =~= es);
}

/// The view of two sequences of events one after the other is the two views
/// one after the other.
pub proof fn lemma_events_view_append(a: Seq<FlowEvent>, b: Seq<FlowEvent>)
    ensures
        events_view(a + b) == events_view(a) + events_view(b),
    decreases b.len(),
{
    if b.len() == 0 {
        assert(a + b =~= a);
        assert(events_view(a) + events_view(b) =~= events_view(a));
    } else {
        lemma_events_view_append(a, b.drop_last());
        assert((a + b).drop_last() =~= a + b.drop_last());
        assert((a + b).last() == b.last());
        assert(events_view(a) + events_view(b.drop_last()).push(event_view(b.last()))
            =~= (events_view(a) + events_view(b.drop_last())).push(event_view(b.last())));
    }
}

} // verus!
