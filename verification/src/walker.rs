//! The walk over an entry fn's body: calls between participants become
//! arrows, `if`/`match`/loops become blocks, and the lanes are collected in
//! order of first appearance.
use std::collections::{HashMap, HashSet};
use vstd::prelude::*;
use vstd::string::*;

use crate::discover::{DiscoveryReport, ParticipantInfo};
use crate::model::{
    event_view, events_view, opt_text, ArrowStyle, Block, BlockKind, Branch, BranchView, EventView,
    FlowEvent, MessageSpec, MessageView, Participant,
};

verus! {

broadcast use {vstd::std_specs::hash::group_hash_axioms, vstd::std_specs::vec::group_vec_axioms};

// ---------------------------------------------------------------------------
// The walked program, as plain values.
// ---------------------------------------------------------------------------

/// The shape of a function body as far as the walk reads it.
#[derive(Debug)]
pub enum HirExpr {
    /// A call or method call. `target` is the resolved callee, when known;
    /// `parts` are the callee expression (or receiver) followed by the
    /// arguments. They run before the call, so their arrows come first.
    Call { target: Option<u64>, parts: Vec<HirExpr> },
    /// `if`, with the source text of its condition.
    If {
        cond: Box<HirExpr>,
        cond_label: String,
        then_branch: Box<HirExpr>,
        else_branch: Option<Box<HirExpr>>,
    },
    /// `match`, with the source text of its scrutinee.
    Match { scrutinee: Box<HirExpr>, scrutinee_label: String, arms: Vec<HirArm> },
    /// `loop`/`while`/`for`, with its header text and the expressions of its body.
    Loop { header: String, body: Vec<HirExpr> },
    /// Any other expression with subexpressions (blocks, operators, tuples,
    /// struct literals, `let` initialisers), in evaluation order.
    Group(Vec<HirExpr>),
    /// An expression with nothing to walk into.
    Leaf,
}

/// One arm of a `match`, with the source text of its pattern.
#[derive(Debug)]
pub struct HirArm {
    pub pat_label: String,
    pub body: HirExpr,
}

/// What the walk needs to know of one item (fn or type) of the crate.
#[derive(Debug)]
pub struct ItemFacts {
    /// The item's own name.
    pub name: String,
    /// The type whose lane the item belongs to: the self type of its impl
    /// block, the item itself otherwise; `None` when the impl's self type is
    /// not a struct, enum or union.
    pub lane: Option<u64>,
    /// The body, for a fn of the walked crate.
    pub body: Option<HirExpr>,
    /// The fn returns something other than `()`.
    pub has_response: bool,
    /// The printed return type.
    pub return_label: String,
}

/// The items of the walked crate, by id.
#[derive(Debug)]
pub struct CrateFacts {
    pub items: HashMap<u64, ItemFacts>,
}

/// Output of `walk`: the conversation tree and the lanes in order of first appearance.
pub struct WalkOutcome {
    pub events: Vec<FlowEvent>,
    pub participants: Vec<Participant>,
}

// ---------------------------------------------------------------------------
// What a walk produces, stated over the model.
// ---------------------------------------------------------------------------

/// Arrows produced by part of a walk, and the participants it touched, in order.
pub struct Trace {
    pub events: Seq<EventView>,
    pub touches: Seq<u64>,
}

pub open spec fn no_trace() -> Trace {
    Trace { events: Seq::empty(), touches: Seq::empty() }
}

pub open spec fn then_trace(a: Trace, b: Trace) -> Trace {
    Trace { events: a.events + b.events, touches: a.touches + b.touches }
}

/// Ids of the fns whose body the walk can enter.
pub open spec fn body_ids(facts: CrateFacts) -> Set<u64> {
    facts.items@.dom().filter(|id: u64| facts.items@[id].body is Some)
}

/// How many bodies are not being walked already; shrinks with every descent.
pub open spec fn rank(facts: CrateFacts, active: Set<u64>) -> nat {
    body_ids(facts).difference(active).len()
}

/// The participant type owning `id`, if that type is marked as a participant.
pub open spec fn lane_of(facts: CrateFacts, report: DiscoveryReport, id: u64) -> Option<u64> {
    if facts.items@.contains_key(id) {
        match facts.items@[id].lane {
            Some(p) => if report.participants@.contains_key(p) {
                Some(p)
            } else {
                None
            },
            None => None,
        }
    } else {
        None
    }
}

pub open spec fn name_of(facts: CrateFacts, id: u64) -> Seq<char> {
    if facts.items@.contains_key(id) {
        facts.items@[id].name@
    } else {
        Seq::empty()
    }
}

/// `_` read as a space.
pub open spec fn spaced(s: Seq<char>) -> Seq<char> {
    s.map_values(|c: char| if c == '_' { ' ' } else { c })
}

/// The arrow label of a fn: its `#[seq::label]` override, else its name with
/// underscores read as spaces.
pub open spec fn label_of(facts: CrateFacts, report: DiscoveryReport, id: u64) -> Seq<char> {
    if report.labels@.contains_key(id) {
        report.labels@[id]@
    } else {
        spaced(name_of(facts, id))
    }
}

/// The note placed on an arrow into a fn that is already being walked.
pub open spec fn recursion_note() -> Seq<char> {
    "↻ recursive — walk did not descend"@
}

/// A block is shown only when some branch holds at least one event.
pub open spec fn shown_block(kind: BlockKind, branches: Seq<BranchView>) -> Seq<EventView> {
    if exists|i: int| 0 <= i < branches.len() && branches[i].events.len() > 0 {
        seq![EventView::Block(kind, branches)]
    } else {
        Seq::empty()
    }
}

/// What a `match` shows: an `alt` block of its arms when it has several, the
/// events of its one arm without a block when it has one (a `for` loop is
/// such a match), nothing when it has none.
pub open spec fn match_events(branches: Seq<BranchView>) -> Seq<EventView> {
    if branches.len() >= 2 {
        shown_block(BlockKind::Alt, branches)
    } else if branches.len() == 1 {
        branches[0].events
    } else {
        Seq::empty()
    }
}

/// The arrows of one call from `caller` into `callee`; `inner` is what walking
/// the callee's body yields.
pub open spec fn call_trace(
    facts: CrateFacts,
    report: DiscoveryReport,
    caller: u64,
    callee: u64,
    active: Set<u64>,
    inner: Trace,
) -> Trace {
    match lane_of(facts, report, caller) {
        None => no_trace(),
        Some(fp) => match lane_of(facts, report, callee) {
            None => Trace { events: Seq::empty(), touches: seq![fp] },
            Some(tp) => if !report.msgs@.contains_key(callee) {
                Trace { events: inner.events, touches: seq![fp, tp] + inner.touches }
            } else {
                let from = name_of(facts, fp);
                let to = name_of(facts, tp);
                let cycle = active.contains(callee);
                let color = opt_text(report.msgs@[callee]);
                let arrow = EventView::Message(
                    MessageView {
                        from,
                        to,
                        label: label_of(facts, report, callee),
                        style: ArrowStyle::Solid,
                        note: if cycle {
                            Some(recursion_note())
                        } else {
                            None
                        },
                        color,
                    },
                );
                if cycle {
                    Trace { events: seq![arrow], touches: seq![fp, tp] }
                } else {
                    let reply = if facts.items@[callee].has_response && from != to {
                        seq![
                            EventView::Message(
                                MessageView {
                                    from: to,
                                    to: from,
                                    label: facts.items@[callee].return_label@,
                                    style: ArrowStyle::Dashed,
                                    note: None,
                                    color,
                                },
                            ),
                        ]
                    } else {
                        Seq::empty()
                    };
                    Trace {
                        events: seq![arrow] + inner.events + reply,
                        touches: seq![fp, tp] + inner.touches,
                    }
                }
            },
        },
    }
}

/// What walking `e`, inside the body of `owner`, yields.
pub open spec fn walk_trace(
    facts: CrateFacts,
    report: DiscoveryReport,
    e: HirExpr,
    owner: u64,
    active: Set<u64>,
) -> Trace
    decreases rank(facts, active), e,
{
    match e {
        HirExpr::Call { target, parts } => {
            let c = match target {
                Some(t) => {
                    let inner = if active.contains(t) || !facts.items@.contains_key(t)
                        || facts.items@[t].body is None {
                        no_trace()
                    } else {
                        proof {
                            lemma_rank_shrinks(facts, active, t);
                        }
                        walk_trace(facts, report, facts.items@[t].body->0, t, active.insert(t))
                    };
                    call_trace(facts, report, owner, t, active, inner)
                },
                None => no_trace(),
            };
            then_trace(parts_trace(facts, report, parts@, owner, active), c)
        },
        HirExpr::If { cond, cond_label, then_branch, else_branch } => {
            let c = walk_trace(facts, report, *cond, owner, active);
            let t = walk_trace(facts, report, *then_branch, owner, active);
            match else_branch {
                Some(el) => {
                    let f = walk_trace(facts, report, *el, owner, active);
                    Trace {
                        events: c.events + shown_block(
                            BlockKind::Alt,
                            seq![
                                BranchView { label: cond_label@, events: t.events },
                                BranchView { label: Seq::empty(), events: f.events },
                            ],
                        ),
                        touches: c.touches + t.touches + f.touches,
                    }
                },
                None => Trace {
                    events: c.events + shown_block(
                        BlockKind::Opt,
                        seq![BranchView { label: cond_label@, events: t.events }],
                    ),
                    touches: c.touches + t.touches,
                },
            }
        },
        HirExpr::Match { scrutinee, scrutinee_label, arms } => {
            let s = walk_trace(facts, report, *scrutinee, owner, active);
            let a = arms_trace(facts, report, scrutinee_label@, arms@, owner, active);
            Trace {
                events: s.events + match_events(a.branches),
                touches: s.touches + a.touches,
            }
        },
        HirExpr::Loop { header, body } => {
            let b = parts_trace(facts, report, body@, owner, active);
            Trace {
                events: shown_block(
                    BlockKind::Loop,
                    seq![BranchView { label: header@, events: b.events }],
                ),
                touches: b.touches,
            }
        },
        HirExpr::Group(parts) => parts_trace(facts, report, parts@, owner, active),
        HirExpr::Leaf => no_trace(),
    }
}

/// What walking the body of `id` yields: nothing when it is already being
/// walked or has no body.
pub open spec fn descend_trace(facts: CrateFacts, report: DiscoveryReport, id: u64, active: Set<u64>) -> Trace {
    if active.contains(id) || !facts.items@.contains_key(id) || facts.items@[id].body is None {
        no_trace()
    } else {
        walk_trace(facts, report, facts.items@[id].body->0, id, active.insert(id))
    }
}

/// Walking expressions one after another.
pub open spec fn parts_trace(
    facts: CrateFacts,
    report: DiscoveryReport,
    es: Seq<HirExpr>,
    owner: u64,
    active: Set<u64>,
) -> Trace
    decreases rank(facts, active), es,
{
    if es.len() == 0 {
        no_trace()
    } else {
        then_trace(
            parts_trace(facts, report, es.drop_last(), owner, active),
            walk_trace(facts, report, es.last(), owner, active),
        )
    }
}

/// The branches of a `match`, one per arm, and the participants touched.
pub struct ArmsTrace {
    pub branches: Seq<BranchView>,
    pub touches: Seq<u64>,
}

/// The label of a `match` branch: `match <scrutinee> → <pattern>` for the
/// first arm, the pattern alone for the others.
pub open spec fn arm_label(scrutinee: Seq<char>, first: bool, pat: Seq<char>) -> Seq<char> {
    if first {
        "match "@ + scrutinee + " → "@ + pat
    } else {
        pat
    }
}

pub open spec fn arms_trace(
    facts: CrateFacts,
    report: DiscoveryReport,
    scrutinee: Seq<char>,
    arms: Seq<HirArm>,
    owner: u64,
    active: Set<u64>,
) -> ArmsTrace
    decreases rank(facts, active), arms,
{
    if arms.len() == 0 {
        ArmsTrace { branches: Seq::empty(), touches: Seq::empty() }
    } else {
        let prev = arms_trace(facts, report, scrutinee, arms.drop_last(), owner, active);
        let t = walk_trace(facts, report, arms.last().body, owner, active);
        ArmsTrace {
            branches: prev.branches.push(
                BranchView {
                    label: arm_label(scrutinee, arms.len() == 1, arms.last().pat_label@),
                    events: t.events,
                },
            ),
            touches: prev.touches + t.touches,
        }
    }
}

/// Entering a body not yet being walked shrinks the rank.
pub proof fn lemma_rank_shrinks(facts: CrateFacts, active: Set<u64>, id: u64)
    requires
        !active.contains(id),
        facts.items@.contains_key(id),
        facts.items@[id].body is Some,
    ensures
        rank(facts, active.insert(id)) < rank(facts, active),
{
    let b = body_ids(facts);
    assert(facts.items@.dom().finite());
    assert(b.finite()) by {
        facts.items@.dom().lemma_len_filter(|id: u64| facts.items@[id].body is Some);
    }
    let d0 = b.difference(active);
    let d1 = b.difference(active.insert(id));
    assert(d0.contains(id));
    assert(d1 =~= d0.remove(id));
}

/// The lanes after recording each of `ts` in turn: an id is appended the
/// first time it is seen.
pub open spec fn record_lanes(seen: Seq<u64>, ts: Seq<u64>) -> Seq<u64>
    decreases ts.len(),
{
    if ts.len() == 0 {
        seen
    } else {
        let p = record_lanes(seen, ts.drop_last());
        if p.contains(ts.last()) {
            p
        } else {
            p.push(ts.last())
        }
    }
}

/// Recording one id appends it unless already present.
pub proof fn lemma_record_one(seen: Seq<u64>, p: u64)
    ensures
        record_lanes(seen, seq![p]) == if seen.contains(p) {
            seen
        } else {
            seen.push(p)
        },
{
    assert(seq![p].drop_last() =~= Seq::<u64>::empty());
    assert(record_lanes(seen, Seq::<u64>::empty()) == seen);
    assert(seq![p].last() == p);
}

/// Recording `a` then `b` is recording `a + b`.
pub proof fn lemma_record_lanes_append(seen: Seq<u64>, a: Seq<u64>, b: Seq<u64>)
    ensures
        record_lanes(record_lanes(seen, a), b) == record_lanes(seen, a + b),
    decreases b.len(),
{
    if b.len() == 0 {
        assert(a + b =~= a);
    } else {
        lemma_record_lanes_append(seen, a, b.drop_last());
        assert((a + b).drop_last() =~= a + b.drop_last());
        assert((a + b).last() == b.last());
    }
}

/// How the participant for lane `p` is shown: named after its type, with the
/// display text and color of its `#[seq::participant]` marker.
pub open spec fn shows_lane(facts: CrateFacts, report: DiscoveryReport, part: Participant, p: u64) -> bool {
    &&& part.alias@ == name_of(facts, p)
    &&& part.display@ == if report.participants@.contains_key(p) {
        report.participants@[p].display@
    } else {
        name_of(facts, p)
    }
    &&& opt_text(part.color) == if report.participants@.contains_key(p) {
        opt_text(report.participants@[p].color)
    } else {
        None
    }
}

/// `parts[i]` shows `lanes[i]`, for every `i`.
pub open spec fn shows_lanes(
    facts: CrateFacts,
    report: DiscoveryReport,
    parts: Seq<Participant>,
    lanes: Seq<u64>,
) -> bool {
    &&& parts.len() == lanes.len()
    &&& forall|i: int| 0 <= i < parts.len() ==> shows_lane(facts, report, #[trigger] parts[i], lanes[i])
}

// ---------------------------------------------------------------------------
// Loop headers.
// ---------------------------------------------------------------------------

/// How a loop was written in the source.
#[derive(Clone, Copy, Debug, PartialEq, Eq)]
pub enum LoopKind {
    Loop,
    While,
    For,
}

pub open spec fn loop_keyword(k: LoopKind) -> Seq<char> {
    match k {
        LoopKind::Loop => "loop"@,
        LoopKind::While => "while"@,
        LoopKind::For => "for"@,
    }
}

/// The label of a loop block: its keyword, then ` '<label>` when it is labelled.
pub open spec fn loop_header_spec(k: LoopKind, label: Option<Seq<char>>) -> Seq<char> {
    match label {
        Some(l) => loop_keyword(k) + " '"@ + l,
        None => loop_keyword(k),
    }
}

/// The header text shown on a `loop` block for a loop of kind `kind` with
/// label `label`, written after ` '` exactly as given (a label name that
/// already starts with `'`, as rustc's does, shows two).
pub fn loop_header(kind: LoopKind, label: &Option<String>) -> (r: String)
    ensures
        r@ == loop_header_spec(kind, opt_text(*label)),
{
    let word = match kind {
        LoopKind::Loop => "loop",
        LoopKind::While => "while",
        LoopKind::For => "for",
    };
    proof {
        reveal_strlit("loop");
        reveal_strlit("while");
        reveal_strlit("for");
    }
    let mut out = String::new();
    out.append(word);
    assert(out@ =~= loop_keyword(kind));
    match label {
        Some(l) => {
            out.append(" '");
            out.append(l.as_str());
        },
        None => {},
    }
    out
}

// ---------------------------------------------------------------------------
// The walk.
// ---------------------------------------------------------------------------

struct Walker<'a> {
    facts: &'a CrateFacts,
    report: &'a DiscoveryReport,
    /// Fns whose bodies are being walked right now.
    active: HashSet<u64>,
    /// Participants found so far, in first-appearance order.
    participants: Vec<Participant>,
    /// Lanes already in `participants`.
    seen: HashSet<u64>,
    lanes: Ghost<Seq<u64>>,
}

impl<'a> Walker<'a> {
    spec fn wf(&self) -> bool {
        &&& forall|x: u64| self.seen@.contains(x) <==> self.lanes@.contains(x)
        &&& shows_lanes(*self.facts, *self.report, self.participants@, self.lanes@)
    }

    spec fn same_input(&self, other: &Walker<'a>) -> bool {
        &&& self.facts == other.facts
        &&& self.report == other.report
    }

    fn name_string(&self, id: u64) -> (r: String)
        ensures
            r@ == name_of(*self.facts, id),
    {
        match self.facts.items.get(&id) {
            Some(item) => item.name.clone(),
            None => String::new(),
        }
    }

    fn lane_for(&self, id: u64) -> (r: Option<u64>)
        ensures
            r == lane_of(*self.facts, *self.report, id),
    {
        match self.facts.items.get(&id) {
            Some(item) => match item.lane {
                Some(p) => if self.report.participants.contains_key(&p) {
                    Some(p)
                } else {
                    None
                },
                None => None,
            },
            None => None,
        }
    }

    /// Adds lane `p` to the participants unless it is there already.
    fn record_participant(&mut self, p: u64)
        requires
            old(self).wf(),
        ensures
            final(self).wf(),
            final(self).same_input(old(self)),
            final(self).active@ == old(self).active@,
            final(self).lanes@ == record_lanes(old(self).lanes@, seq![p]),
    {
        proof {
            lemma_record_one(old(self).lanes@, p);
        }
        if self.seen.contains(&p) {
            return;
        }
        self.seen.insert(p);
        let alias = self.name_string(p);
        let (display, color) = match self.report.participants.get(&p) {
            Some(info) => (info.display.clone(), clone_text(&info.color)),
            None => (alias.clone(), None),
        };
        self.participants.push(Participant { alias, display, color });
        proof {
            self.lanes@ = self.lanes@.push(p);
            assert forall|x: u64| self.seen@.contains(x) <==> self.lanes@.contains(x) by {
                if x != p {
                    assert(old(self).lanes@.contains(x) ==> self.lanes@.contains(x)) by {
                        if old(self).lanes@.contains(x) {
                            let j = choose|j: int| 0 <= j < old(self).lanes@.len() && old(self).lanes@[j] == x;
                            assert(self.lanes@[j] == x);
                        }
                    }
                    assert(self.lanes@.contains(x) ==> old(self).lanes@.contains(x)) by {
                        if self.lanes@.contains(x) {
                            let j = choose|j: int| 0 <= j < self.lanes@.len() && self.lanes@[j] == x;
                            assert(j < old(self).lanes@.len());
                        }
                    }
                } else {
                    assert(self.lanes@[self.lanes@.len() - 1] == p);
                }
            }
            assert forall|i: int| 0 <= i < self.participants@.len() implies shows_lane(
                *self.facts,
                *self.report,
                #[trigger] self.participants@[i],
                self.lanes@[i],
            ) by {
                if i < old(self).participants@.len() {
                    assert(self.participants@[i] == old(self).participants@[i]);
                }
            }
        }
    }

    /// The alias of the lane owning `id`, recording that lane.
    fn alias_for(&mut self, id: u64) -> (r: Option<String>)
        requires
            old(self).wf(),
        ensures
            final(self).wf(),
            final(self).same_input(old(self)),
            final(self).active@ == old(self).active@,
            match lane_of(*old(self).facts, *old(self).report, id) {
                Some(p) => {
                    &&& r matches Some(a) && a@ == name_of(*old(self).facts, p)
                    &&& final(self).lanes@ == record_lanes(old(self).lanes@, seq![p])
                },
                None => r is None && final(self).lanes@ == old(self).lanes@,
            },
    {
        let p = match self.lane_for(id) {
            Some(p) => p,
            None => return None,
        };
        let alias = self.name_string(p);
        self.record_participant(p);
        Some(alias)
    }

    /// The arrow label for fn `id`.
    fn label_for(&self, id: u64) -> (r: String)
        ensures
            r@ == label_of(*self.facts, *self.report, id),
    {
        match self.report.labels.get(&id) {
            Some(custom) => custom.clone(),
            None => {
                let name = self.name_string(id);
                spaced_string(name.as_str())
            },
        }
    }
}

fn clone_text(o: &Option<String>) -> (r: Option<String>)
    ensures
        opt_text(r) == opt_text(*o),
{
    match o {
        Some(s) => Some(s.clone()),
        None => None,
    }
}

/// `s` with every `_` replaced by a space.
fn spaced_string(s: &str) -> (r: String)
    ensures
        r@ == spaced(s@),
{
    let n = s.unicode_len();
    let mut out = String::new();
    let mut i: usize = 0;
    while i < n
        invariant
            n == s@.len(),
            i <= n,
            out@ == spaced(s@.subrange(0, i as int)),
        decreases n - i,
    {
        let c = s.get_char(i);
        if c == '_' {
            out.append(" ");
            proof {
                reveal_strlit(" ");
            }
        } else {
            out.append(s.substring_char(i, i + 1));
        }
        assert(out@ =~= spaced(s@.subrange(0, i + 1)));
        i = i + 1;
    }
    assert(s@.subrange(0, n as int) =~= s@);
    out
}

/// Appends `block` unless all of its branches are empty.
fn push_block(out: &mut Vec<FlowEvent>, block: Block)
    ensures
        events_view(final(out)@) == events_view(old(out)@) + shown_block(
            block.kind,
            crate::model::branches_view(block.branches@),
        ),
{
    let ghost bv = crate::model::branches_view(block.branches@);
    proof {
        crate::model::lemma_branches_view_len(block.branches@);
        crate::model::lemma_events_view_len(old(out)@);
    }
    let mut has_any = false;
    let mut i: usize = 0;
    while i < block.branches.len()
        invariant
            i <= block.branches.len(),
            bv == crate::model::branches_view(block.branches@),
            bv.len() == block.branches@.len(),
            forall|j: int| 0 <= j < block.branches@.len() ==> #[trigger] bv[j].events == events_view(block.branches@[j].events@),
            has_any == exists|j: int| 0 <= j < i && bv[j].events.len() > 0,
        decreases block.branches.len() - i,
    {
        proof {
            crate::model::lemma_events_view_len(block.branches@[i as int].events@);
            assert(bv[i as int].events.len() == block.branches@[i as int].events@.len());
        }
        if block.branches[i].events.len() > 0 {
            has_any = true;
        }
        i = i + 1;
    }
    if has_any {
        let ghost kind = block.kind;
        let ghost old_out = out@;
        let ghost ev = FlowEvent::Block(block);
        out.push(FlowEvent::Block(block));
        assert(out@.drop_last() =~= old_out);
        assert(out@.last() == ev);
        assert(event_view(ev) == EventView::Block(kind, bv));
        assert(events_view(out@) == events_view(old_out).push(EventView::Block(kind, bv)));
        assert(events_view(out@) =~= events_view(old_out) + shown_block(kind, bv));
    } else {
        assert(events_view(out@) =~= events_view(out@) + shown_block(block.kind, bv));
    }
}

/// Appends one arrow.
fn push_message(out: &mut Vec<FlowEvent>, m: MessageSpec)
    ensures
        events_view(final(out)@) == events_view(old(out)@) + seq![EventView::Message(m@)],
{
    let ghost e = FlowEvent::Message(m);
    proof {
        crate::model::lemma_events_view_push(old(out)@, e);
    }
    out.push(FlowEvent::Message(m));
    assert(events_view(out@) =~= events_view(old(out)@) + seq![EventView::Message(m@)]);
}

/// `match <scrutinee> → <pattern>`.
fn first_arm_label(scrutinee: &String, pat: &String) -> (r: String)
    ensures
        r@ == arm_label(scrutinee@, true, pat@),
{
    let mut t = String::new();
    t.append("match ");
    assert(t@ =~= "match "@);
    t.append(scrutinee.as_str());
    t.append(" → ");
    t.append(pat.as_str());
    t
}

impl<'a> Walker<'a> {
    /// `self` came from `old` by a walk that yielded `t`, appending its events to `out`.
    spec fn advanced(&self, old: &Walker<'a>, old_out: Seq<FlowEvent>, new_out: Seq<FlowEvent>, t: Trace) -> bool {
        &&& self.wf()
        &&& self.same_input(old)
        &&& self.active@ == old.active@
        &&& events_view(new_out) == events_view(old_out) + t.events
        &&& self.lanes@ == record_lanes(old.lanes@, t.touches)
    }

    proof fn lemma_advanced_then(
        w0: &Walker<'a>,
        w1: &Walker<'a>,
        w2: &Walker<'a>,
        o0: Seq<FlowEvent>,
        o1: Seq<FlowEvent>,
        o2: Seq<FlowEvent>,
        a: Trace,
        b: Trace,
    )
        requires
            w1.advanced(w0, o0, o1, a),
            w2.advanced(w1, o1, o2, b),
        ensures
            w2.advanced(w0, o0, o2, then_trace(a, b)),
    {
        lemma_record_lanes_append(w0.lanes@, a.touches, b.touches);
        assert(events_view(o0) + a.events + b.events =~= events_view(o0) + (a.events + b.events));
    }

    proof fn lemma_advanced_none(w0: &Walker<'a>, o0: Seq<FlowEvent>)
        requires
            w0.wf(),
        ensures
            w0.advanced(w0, o0, o0, no_trace()),
    {
        assert(events_view(o0) + Seq::<EventView>::empty() =~= events_view(o0));
        assert(record_lanes(w0.lanes@, Seq::<u64>::empty()) == w0.lanes@);
    }

    /// Walks the body of `id` unless it is already being walked or has no body.
    fn descend(&mut self, id: u64, Ghost(site): Ghost<HirExpr>, out: &mut Vec<FlowEvent>)
        requires
            old(self).wf(),
        ensures
            final(self).advanced(
                old(self),
                old(out)@,
                final(out)@,
                descend_trace(*old(self).facts, *old(self).report, id, old(self).active@),
            ),
        decreases rank(*old(self).facts, old(self).active@), site, 0nat,
    {
        proof {
            Self::lemma_advanced_none(&*self, out@);
        }
        if self.active.contains(&id) {
            return;
        }
        let facts = self.facts;
        match facts.items.get(&id) {
            Some(item) => match &item.body {
                Some(body) => {
                    proof {
                        lemma_rank_shrinks(*self.facts, self.active@, id);
                    }
                    let ghost a0 = self.active@;
                    self.active.insert(id);
                    self.walk_expr(body, id, out);
                    self.active.remove(&id);
                    assert(self.active@ =~= a0);
                },
                None => {},
            },
            None => {},
        }
    }

    /// Walks `e`, part of the body of `owner`, appending its events to `out`.
    fn walk_expr(&mut self, e: &HirExpr, owner: u64, out: &mut Vec<FlowEvent>)
        requires
            old(self).wf(),
        ensures
            final(self).advanced(
                old(self),
                old(out)@,
                final(out)@,
                walk_trace(*old(self).facts, *old(self).report, *e, owner, old(self).active@),
            ),
        decreases rank(*old(self).facts, old(self).active@), *e, 2nat,
    {
        let ghost w0 = *self;
        let ghost o0 = out@;
        match e {
            HirExpr::Call { target, parts } => {
                let ghost c = match target {
                    Some(t) => call_trace(*self.facts, *self.report, owner, *t, self.active@,
                        descend_trace(*self.facts, *self.report, *t, self.active@)),
                    None => no_trace(),
                };
                self.walk_parts(parts, owner, out);
                let ghost w1 = *self;
                let ghost o1 = out@;
                match target {
                    Some(t) => self.maybe_emit_call(owner, *t, Ghost(*e), out),
                    None => {
                        proof {
                            Self::lemma_advanced_none(&*self, out@);
                        }
                    },
                }
                proof {
                    Self::lemma_advanced_then(&w0, &w1, &*self, o0, o1, out@,
                        parts_trace(*w0.facts, *w0.report, parts@, owner, w0.active@), c);
                }
            },
            HirExpr::If { cond, cond_label, then_branch, else_branch } => {
                self.walk_expr(cond, owner, out);
                let ghost w1 = *self;
                let ghost o1 = out@;
                let ghost c = walk_trace(*w0.facts, *w0.report, **cond, owner, w0.active@);
                let ghost t = walk_trace(*w0.facts, *w0.report, **then_branch, owner, w0.active@);
                let mut then_events: Vec<FlowEvent> = Vec::new();
                self.walk_expr(then_branch, owner, &mut then_events);
                assert(events_view(then_events@) =~= t.events);
                match else_branch {
                    Some(el) => {
                        let ghost w2 = *self;
                        let ghost f = walk_trace(*w0.facts, *w0.report, **el, owner, w0.active@);
                        let mut else_events: Vec<FlowEvent> = Vec::new();
                        self.walk_expr(el, owner, &mut else_events);
                        assert(events_view(else_events@) =~= f.events);
                        let ghost lbl = cond_label@;
                        let branches = vec![
                            Branch { label: cond_label.clone(), events: then_events },
                            Branch { label: String::new(), events: else_events },
                        ];
                        let ghost bv = seq![
                            BranchView { label: lbl, events: t.events },
                            BranchView { label: Seq::empty(), events: f.events },
                        ];
                        proof {
                            crate::model::lemma_branches_view_len(branches@);
                            assert(crate::model::branches_view(branches@) =~= bv);
                        }
                        push_block(out, Block { kind: BlockKind::Alt, branches });
                        proof {
                            lemma_record_lanes_append(w0.lanes@, c.touches, t.touches);
                            lemma_record_lanes_append(w0.lanes@, c.touches + t.touches, f.touches);
                            assert(events_view(out@) =~= events_view(o0) + (c.events + shown_block(BlockKind::Alt, bv)));
                        }
                    },
                    None => {
                        let ghost lbl = cond_label@;
                        let branches = vec![Branch { label: cond_label.clone(), events: then_events }];
                        let ghost bv = seq![BranchView { label: lbl, events: t.events }];
                        proof {
                            crate::model::lemma_branches_view_len(branches@);
                            assert(crate::model::branches_view(branches@) =~= bv);
                        }
                        push_block(out, Block { kind: BlockKind::Opt, branches });
                        proof {
                            lemma_record_lanes_append(w0.lanes@, c.touches, t.touches);
                            assert(events_view(out@) =~= events_view(o0) + (c.events + shown_block(BlockKind::Opt, bv)));
                        }
                    },
                }
            },
            HirExpr::Match { scrutinee, scrutinee_label, arms } => {
                self.walk_expr(scrutinee, owner, out);
                let ghost s = walk_trace(*w0.facts, *w0.report, **scrutinee, owner, w0.active@);
                let ghost w1 = *self;
                let mut branches: Vec<Branch> = Vec::new();
                let mut i: usize = 0;
                assert(arms@.subrange(0, 0) =~= Seq::<HirArm>::empty());
                assert(record_lanes(w1.lanes@, Seq::<u64>::empty()) == w1.lanes@);
                #[verifier::loop_isolation(false)]
                while i < arms.len()
                    invariant
                        i <= arms.len(),
                        self.facts == old(self).facts,
                        self.active@ == old(self).active@,
                        self.wf(),
                        self.same_input(&w0),
                        self.active@ == w0.active@,
                        w1.lanes@ == record_lanes(w0.lanes@, s.touches),
                        events_view(out@) == events_view(o0) + s.events,
                        crate::model::branches_view(branches@) == arms_trace(*w0.facts, *w0.report,
                            scrutinee_label@, arms@.subrange(0, i as int), owner, w0.active@).branches,
                        self.lanes@ == record_lanes(w1.lanes@, arms_trace(*w0.facts, *w0.report,
                            scrutinee_label@, arms@.subrange(0, i as int), owner, w0.active@).touches),
                    decreases arms.len() - i,
                {
                    let arm = &arms[i];
                    let ghost wi = *self;
                    let ghost prev = arms_trace(*w0.facts, *w0.report, scrutinee_label@, arms@.subrange(0, i as int), owner, w0.active@);
                    let ghost t = walk_trace(*w0.facts, *w0.report, arm.body, owner, w0.active@);
                    let mut events: Vec<FlowEvent> = Vec::new();
                    proof {
                        assert(decreases_to!(*e => *arms));
                        assert(decreases_to!(*arms => arms[i as int]));
                        assert(decreases_to!(arms[i as int] => arms[i as int].body));
                        assert(decreases_to!(*e => arms[i as int].body));
                    }
                    self.walk_expr(&arm.body, owner, &mut events);
                    assert(events_view(events@) =~= t.events);
                    let label = if i == 0 {
                        first_arm_label(scrutinee_label, &arm.pat_label)
                    } else {
                        arm.pat_label.clone()
                    };
                    let ghost b = Branch { label, events };
                    let ghost bs0 = branches@;
                    branches.push(Branch { label, events });
                    proof {
                        let sub = arms@.subrange(0, i + 1);
                        assert(sub.drop_last() =~= arms@.subrange(0, i as int));
                        assert(sub.last() == arms@[i as int]);
                        assert(branches@.drop_last() =~= bs0);
                        lemma_record_lanes_append(w1.lanes@, prev.touches, t.touches);
                    }
                    i = i + 1;
                }
                assert(arms@.subrange(0, arms.len() as int) =~= arms@);
                let ghost a = arms_trace(*w0.facts, *w0.report, scrutinee_label@, arms@, owner, w0.active@);
                proof {
                    crate::model::lemma_branches_view_len(branches@);
                }
                if branches.len() >= 2 {
                    push_block(out, Block { kind: BlockKind::Alt, branches });
                } else if branches.len() == 1 {
                    let ghost o2 = out@;
                    let ghost bs = branches@;
                    match branches.pop() {
                        Some(br) => {
                            let mut evs = br.events;
                            let ghost ev0 = evs@;
                            assert(events_view(ev0) == a.branches[0].events);
                            out.append(&mut evs);
                            proof {
                                crate::model::lemma_events_view_append(o2, ev0);
                            }
                        },
                        None => {},
                    }
                } else {
                    assert(events_view(out@) =~= events_view(out@) + Seq::<EventView>::empty());
                }
                proof {
                    lemma_record_lanes_append(w0.lanes@, s.touches, a.touches);
                    assert(events_view(out@) =~= events_view(o0) + (s.events + match_events(a.branches)));
                }
            },
            HirExpr::Loop { header, body } => {
                let ghost b = parts_trace(*w0.facts, *w0.report, body@, owner, w0.active@);
                let mut events: Vec<FlowEvent> = Vec::new();
                self.walk_parts(body, owner, &mut events);
                assert(events_view(events@) =~= b.events);
                let ghost lbl = header@;
                let branches = vec![Branch { label: header.clone(), events }];
                let ghost bv = seq![BranchView { label: lbl, events: b.events }];
                proof {
                    crate::model::lemma_branches_view_len(branches@);
                    assert(crate::model::branches_view(branches@) =~= bv);
                }
                push_block(out, Block { kind: BlockKind::Loop, branches });
            },
            HirExpr::Group(parts) => {
                self.walk_parts(parts, owner, out);
            },
            HirExpr::Leaf => {
                proof {
                    Self::lemma_advanced_none(&*self, out@);
                }
            },
        }
    }

    fn walk_parts(&mut self, es: &Vec<HirExpr>, owner: u64, out: &mut Vec<FlowEvent>)
        requires
            old(self).wf(),
        ensures
            final(self).advanced(
                old(self),
                old(out)@,
                final(out)@,
                parts_trace(*old(self).facts, *old(self).report, es@, owner, old(self).active@),
            ),
        decreases rank(*old(self).facts, old(self).active@), *es, 2nat,
    {
        let ghost w0 = *self;
        let ghost o0 = out@;
        let mut i: usize = 0;
        assert(es@.subrange(0, 0) =~= Seq::<HirExpr>::empty());
        proof {
            Self::lemma_advanced_none(&*self, out@);
        }
        while i < es.len()
            invariant
                i <= es.len(),
                self.facts == old(self).facts,
                self.active@ == old(self).active@,
                self.advanced(&w0, o0, out@, parts_trace(*w0.facts, *w0.report, es@.subrange(0, i as int), owner, w0.active@)),
            decreases es.len() - i,
        {
            let ghost w1 = *self;
            let ghost o1 = out@;
            let ghost prev = parts_trace(*w0.facts, *w0.report, es@.subrange(0, i as int), owner, w0.active@);
            proof {
                assert(decreases_to!(*es => es[i as int]));
            }
            self.walk_expr(&es[i], owner, out);
            proof {
                Self::lemma_advanced_then(&w0, &w1, &*self, o0, o1, out@, prev,
                    walk_trace(*w0.facts, *w0.report, es@[i as int], owner, w0.active@));
                let sub = es@.subrange(0, i + 1);
                assert(sub.drop_last() =~= es@.subrange(0, i as int));
                assert(sub.last() == es@[i as int]);
            }
            i = i + 1;
        }
        assert(es@.subrange(0, es.len() as int) =~= es@);
    }

    fn maybe_emit_call(&mut self, caller: u64, callee: u64, Ghost(site): Ghost<HirExpr>, out: &mut Vec<FlowEvent>)
        requires
            old(self).wf(),
        ensures
            final(self).advanced(
                old(self),
                old(out)@,
                final(out)@,
                call_trace(*old(self).facts, *old(self).report, caller, callee, old(self).active@,
                    descend_trace(*old(self).facts, *old(self).report, callee, old(self).active@)),
            ),
        decreases rank(*old(self).facts, old(self).active@), site, 1nat,
    {
        let ghost w0 = *self;
        let ghost o0 = out@;
        let ghost inner = descend_trace(*w0.facts, *w0.report, callee, w0.active@);
        proof {
            Self::lemma_advanced_none(&*self, out@);
        }
        let from_alias = match self.alias_for(caller) {
            Some(a) => a,
            None => return,
        };
        let ghost fp = lane_of(*w0.facts, *w0.report, caller)->0;
        let to_alias = match self.alias_for(callee) {
            Some(a) => a,
            None => {
                assert(events_view(out@) =~= events_view(o0) + Seq::<EventView>::empty());
                return;
            },
        };
        let ghost tp = lane_of(*w0.facts, *w0.report, callee)->0;
        proof {
            lemma_record_lanes_append(w0.lanes@, seq![fp], seq![tp]);
            assert(seq![fp] + seq![tp] =~= seq![fp, tp]);
        }
        let ghost w1 = *self;
        let ghost o1 = out@;
        if !self.report.msgs.contains_key(&callee) {
            self.descend(callee, Ghost(site), out);
            proof {
                lemma_record_lanes_append(w0.lanes@, seq![fp, tp], inner.touches);
                assert(events_view(o1) =~= events_view(o0) + Seq::<EventView>::empty());
            }
            return;
        }
        let label = self.label_for(callee);
        let cycle = self.active.contains(&callee);
        let note = if cycle {
            Some("↻ recursive — walk did not descend".to_owned())
        } else {
            None
        };
        let color = match self.report.msgs.get(&callee) {
            Some(c) => clone_text(c),
            None => None,
        };
        let arrow = MessageSpec {
            from: from_alias.clone(),
            to: to_alias.clone(),
            label,
            style: ArrowStyle::Solid,
            note,
            color: clone_text(&color),
        };
        push_message(out, arrow);
        let ghost o2 = out@;
        if !cycle {
            self.descend(callee, Ghost(site), out);
            let ghost o3 = out@;
            let facts = self.facts;
            let item = match facts.items.get(&callee) {
                Some(item) => item,
                None => {
                    assert(false);
                    return;
                },
            };
            if item.has_response && !(from_alias == to_alias) {
                let reply = MessageSpec {
                    from: to_alias,
                    to: from_alias,
                    label: item.return_label.clone(),
                    style: ArrowStyle::Dashed,
                    note: None,
                    color,
                };
                push_message(out, reply);
            }
            proof {
                lemma_record_lanes_append(w0.lanes@, seq![fp, tp], inner.touches);
                assert(events_view(out@) =~= events_view(o0) + call_trace(*w0.facts, *w0.report, caller, callee, w0.active@, inner).events);
            }
        } else {
            assert(events_view(out@) =~= events_view(o0) + call_trace(*w0.facts, *w0.report, caller, callee, w0.active@, inner).events);
        }
    }
}

/// The lane of the entry fn, if any: it is recorded first, so it gets the
/// leftmost column.
pub open spec fn entry_touches(facts: CrateFacts, report: DiscoveryReport, entry: u64) -> Seq<u64> {
    match lane_of(facts, report, entry) {
        Some(p) => seq![p],
        None => Seq::empty(),
    }
}

/// The self-arrow on the entry's lane used when its body yields no events.
pub open spec fn fallback_trace(facts: CrateFacts, report: DiscoveryReport, entry: u64) -> Trace {
    match lane_of(facts, report, entry) {
        Some(p) => Trace {
            events: seq![
                EventView::Message(
                    MessageView {
                        from: name_of(facts, p),
                        to: name_of(facts, p),
                        label: label_of(facts, report, entry),
                        style: ArrowStyle::Solid,
                        note: None,
                        color: None,
                    },
                ),
            ],
            touches: seq![p],
        },
        None => no_trace(),
    }
}

/// The whole walk from `entry`: the entry's lane, then its body; when the
/// body yields no events, the fallback self-arrow.
pub open spec fn walk_result(facts: CrateFacts, report: DiscoveryReport, entry: u64) -> Trace {
    let body = descend_trace(facts, report, entry, Set::empty());
    let t = Trace { events: body.events, touches: entry_touches(facts, report, entry) + body.touches };
    if body.events.len() == 0 {
        then_trace(t, fallback_trace(facts, report, entry))
    } else {
        t
    }
}

/// The lanes of a walk from `entry`, in first-appearance order.
pub open spec fn walk_lanes(facts: CrateFacts, report: DiscoveryReport, entry: u64) -> Seq<u64> {
    record_lanes(Seq::empty(), walk_result(facts, report, entry).touches)
}

impl<'a> Walker<'a> {
    /// A self-arrow on the entry's lane, labelled like the entry.
    fn emit_fallback_self_arrow(&mut self, entry: u64, out: &mut Vec<FlowEvent>)
        requires
            old(self).wf(),
        ensures
            final(self).advanced(old(self), old(out)@, final(out)@,
                fallback_trace(*old(self).facts, *old(self).report, entry)),
    {
        let ghost w0 = *self;
        let alias = match self.alias_for(entry) {
            Some(a) => a,
            None => {
                proof {
                    Self::lemma_advanced_none(&*self, out@);
                }
                return;
            },
        };
        let label = self.label_for(entry);
        push_message(out, MessageSpec {
            from: alias.clone(),
            to: alias,
            label,
            style: ArrowStyle::Solid,
            note: None,
            color: None,
        });
    }
}

/// Walks the body of `entry` and the annotated fns it reaches.
pub fn walk(facts: &CrateFacts, report: &DiscoveryReport, entry: u64) -> (r: WalkOutcome)
    ensures
        events_view(r.events@) == walk_result(*facts, *report, entry).events,
        shows_lanes(*facts, *report, r.participants@, walk_lanes(*facts, *report, entry)),
{
    let mut walker = Walker {
        facts,
        report,
        active: HashSet::new(),
        participants: Vec::new(),
        seen: HashSet::new(),
        lanes: Ghost(Seq::empty()),
    };
    let ghost w0 = walker;
    match walker.lane_for(entry) {
        Some(p) => walker.record_participant(p),
        None => {},
    }
    proof {
        match lane_of(*facts, *report, entry) {
            Some(p) => lemma_record_one(Seq::empty(), p),
            None => assert(record_lanes(Seq::empty(), Seq::<u64>::empty()) == Seq::<u64>::empty()),
        }
        assert(walker.lanes@ == record_lanes(Seq::empty(), entry_touches(*facts, *report, entry)));
        assert(walker.active@ =~= Set::<u64>::empty());
    }
    let ghost w1 = walker;
    let mut events: Vec<FlowEvent> = Vec::new();
    walker.descend(entry, Ghost(HirExpr::Leaf), &mut events);
    let ghost body = descend_trace(*facts, *report, entry, Set::empty());
    proof {
        lemma_record_lanes_append(Seq::empty(), entry_touches(*facts, *report, entry), body.touches);
        assert(events_view(events@) =~= body.events);
    }
    if events.len() == 0 {
        let ghost w2 = walker;
        let ghost o2 = events@;
        proof {
            crate::model::lemma_events_view_len(events@);
        }
        walker.emit_fallback_self_arrow(entry, &mut events);
        proof {
            let t = Trace { events: body.events, touches: entry_touches(*facts, *report, entry) + body.touches };
            lemma_record_lanes_append(Seq::empty(), t.touches, fallback_trace(*facts, *report, entry).touches);
            assert(events_view(events@) =~= then_trace(t, fallback_trace(*facts, *report, entry)).events);
        }
    } else {
        proof {
            crate::model::lemma_events_view_len(events@);
        }
    }
    WalkOutcome { events, participants: walker.participants }
}

} // verus!
