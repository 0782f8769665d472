//! What holds of every walk: arrows connect listed lanes, reply arrows never
//! loop back on one lane, no block is shown empty or with the wrong number of
//! branches, lanes are listed once each
//! with the entry's lane first, and an entry with a lane always yields an arrow.
use vstd::prelude::*;

use crate::discover::DiscoveryReport;
use crate::model::{opt_text, ArrowStyle, BlockKind, BranchView, EventView, MessageView};
use crate::walker::{
    arm_label, arms_trace, call_trace, match_events, descend_trace, entry_touches, fallback_trace, lane_of,
    lemma_rank_shrinks, lemma_record_lanes_append, name_of, no_trace, parts_trace, rank,
    label_of, record_lanes, shown_block, then_trace, walk_lanes, walk_result, walk_trace, CrateFacts,
    HirArm, HirExpr, Trace,
};

verus! {

// ---------------------------------------------------------------------------
// Properties of every node of a conversation tree.
// ---------------------------------------------------------------------------

/// `pm` holds of every arrow and `pb` of the kind and branches of every block in `e`.
pub open spec fn event_all(
    e: EventView,
    pm: spec_fn(MessageView) -> bool,
    pb: spec_fn(BlockKind, Seq<BranchView>) -> bool,
) -> bool
    decreases e,
{
    match e {
        EventView::Message(m) => pm(m),
        EventView::Block(k, bs) => pb(k, bs) && branches_all(bs, pm, pb),
    }
}

/// `event_all` of every event of `es`.
pub open spec fn events_all(
    es: Seq<EventView>,
    pm: spec_fn(MessageView) -> bool,
    pb: spec_fn(BlockKind, Seq<BranchView>) -> bool,
) -> bool
    decreases es,
{
    if es.len() == 0 {
        true
    } else {
        events_all(es.drop_last(), pm, pb) && event_all(es.last(), pm, pb)
    }
}

/// `events_all` of the events of every branch of `bs`.
pub open spec fn branches_all(
    bs: Seq<BranchView>,
    pm: spec_fn(MessageView) -> bool,
    pb: spec_fn(BlockKind, Seq<BranchView>) -> bool,
) -> bool
    decreases bs,
{
    if bs.len() == 0 {
        true
    } else {
        branches_all(bs.drop_last(), pm, pb) && events_all(bs.last().events, pm, pb)
    }
}

proof fn lemma_events_all_append(
    a: Seq<EventView>,
    b: Seq<EventView>,
    pm: spec_fn(MessageView) -> bool,
    pb: spec_fn(BlockKind, Seq<BranchView>) -> bool,
)
    ensures
        events_all(a + b, pm, pb) == (events_all(a, pm, pb) && events_all(b, pm, pb)),
    decreases b.len(),
{
    if b.len() == 0 {
        assert(a + b =~= a);
    } else {
        lemma_events_all_append(a, b.drop_last(), pm, pb);
        assert((a + b).drop_last() =~= a + b.drop_last());
        assert((a + b).last() == b.last());
    }
}

proof fn lemma_events_all_weaken(
    es: Seq<EventView>,
    pm: spec_fn(MessageView) -> bool,
    pb: spec_fn(BlockKind, Seq<BranchView>) -> bool,
    qm: spec_fn(MessageView) -> bool,
    qb: spec_fn(BlockKind, Seq<BranchView>) -> bool,
)
    requires
        events_all(es, pm, pb),
        forall|m: MessageView| #[trigger] pm(m) ==> qm(m),
        forall|k: BlockKind, bs: Seq<BranchView>| #[trigger] pb(k, bs) ==> qb(k, bs),
    ensures
        events_all(es, qm, qb),
    decreases es,
{
    if es.len() > 0 {
        lemma_events_all_weaken(es.drop_last(), pm, pb, qm, qb);
        lemma_event_all_weaken(es.last(), pm, pb, qm, qb);
    }
}

proof fn lemma_event_all_weaken(
    e: EventView,
    pm: spec_fn(MessageView) -> bool,
    pb: spec_fn(BlockKind, Seq<BranchView>) -> bool,
    qm: spec_fn(MessageView) -> bool,
    qb: spec_fn(BlockKind, Seq<BranchView>) -> bool,
)
    requires
        event_all(e, pm, pb),
        forall|m: MessageView| #[trigger] pm(m) ==> qm(m),
        forall|k: BlockKind, bs: Seq<BranchView>| #[trigger] pb(k, bs) ==> qb(k, bs),
    ensures
        event_all(e, qm, qb),
    decreases e,
{
    match e {
        EventView::Message(m) => {},
        EventView::Block(_, bs) => {
            lemma_branches_all_weaken(bs, pm, pb, qm, qb);
        },
    }
}

proof fn lemma_branches_all_weaken(
    bs: Seq<BranchView>,
    pm: spec_fn(MessageView) -> bool,
    pb: spec_fn(BlockKind, Seq<BranchView>) -> bool,
    qm: spec_fn(MessageView) -> bool,
    qb: spec_fn(BlockKind, Seq<BranchView>) -> bool,
)
    requires
        branches_all(bs, pm, pb),
        forall|m: MessageView| #[trigger] pm(m) ==> qm(m),
        forall|k: BlockKind, bs: Seq<BranchView>| #[trigger] pb(k, bs) ==> qb(k, bs),
    ensures
        branches_all(bs, qm, qb),
    decreases bs,
{
    if bs.len() > 0 {
        lemma_branches_all_weaken(bs.drop_last(), pm, pb, qm, qb);
        lemma_events_all_weaken(bs.last().events, pm, pb, qm, qb);
    }
}

// ---------------------------------------------------------------------------
// The lane list.
// ---------------------------------------------------------------------------

/// Recording ids keeps what was there, in place, and only appends.
proof fn lemma_record_lanes_prefix(seen: Seq<u64>, ts: Seq<u64>)
    ensures
        seen.len() <= record_lanes(seen, ts).len(),
        forall|i: int| 0 <= i < seen.len() ==> #[trigger] record_lanes(seen, ts)[i] == seen[i],
    decreases ts.len(),
{
    if ts.len() > 0 {
        lemma_record_lanes_prefix(seen, ts.drop_last());
    }
}

/// The recorded lanes are exactly the ids seen before and the ids recorded.
proof fn lemma_record_lanes_contains(seen: Seq<u64>, ts: Seq<u64>, x: u64)
    ensures
        record_lanes(seen, ts).contains(x) <==> (seen.contains(x) || ts.contains(x)),
    decreases ts.len(),
{
    if ts.len() > 0 {
        let init = ts.drop_last();
        lemma_record_lanes_contains(seen, init, x);
        let p = record_lanes(seen, init);
        if ts.contains(x) && !init.contains(x) {
            let j = choose|j: int| 0 <= j < ts.len() && ts[j] == x;
            if j < ts.len() - 1 {
                assert(init[j] == x);
            }
        }
        if init.contains(x) {
            let j = choose|j: int| 0 <= j < init.len() && init[j] == x;
            assert(ts[j] == x);
        }
        if !p.contains(ts.last()) {
            assert(p.push(ts.last())[p.len() as int] == ts.last());
            if p.contains(x) {
                let j = choose|j: int| 0 <= j < p.len() && p[j] == x;
                assert(p.push(ts.last())[j] == x);
            }
            if p.push(ts.last()).contains(x) && x != ts.last() {
                let j = choose|j: int| 0 <= j < p.len() + 1 && p.push(ts.last())[j] == x;
                assert(p[j] == x);
            }
        }
        if x == ts.last() {
            assert(ts[ts.len() - 1] == x);
        }
    }
}

/// Recording never lists an id twice.
proof fn lemma_record_lanes_distinct(seen: Seq<u64>, ts: Seq<u64>)
    requires
        seen.no_duplicates(),
    ensures
        record_lanes(seen, ts).no_duplicates(),
    decreases ts.len(),
{
    if ts.len() > 0 {
        lemma_record_lanes_distinct(seen, ts.drop_last());
        let p = record_lanes(seen, ts.drop_last());
        if !p.contains(ts.last()) {
            let q = p.push(ts.last());
            assert forall|i: int, j: int| 0 <= i < q.len() && 0 <= j < q.len() && i != j implies q[i] != q[j] by {
                if i < p.len() && j < p.len() {
                } else if i < p.len() {
                    assert(p.contains(p[i]));
                } else {
                    assert(p.contains(p[j]));
                }
            }
        }
    }
}

/// Recording a lane lists it, and recording it again changes nothing: a
/// participant is added to the diagram once, the first time it is met.
pub proof fn lemma_record_lane_again(seen: Seq<u64>, p: u64)
    ensures
        record_lanes(seen, seq![p]).contains(p),
        record_lanes(record_lanes(seen, seq![p]), seq![p]) == record_lanes(seen, seq![p]),
{
    let once = record_lanes(seen, seq![p]);
    crate::walker::lemma_record_one(seen, p);
    crate::walker::lemma_record_one(once, p);
    if !seen.contains(p) {
        assert(seen.push(p)[seen.len() as int] == p);
    }
}

/// The walk lists each lane once.
pub proof fn lemma_walk_lanes_distinct(facts: CrateFacts, report: DiscoveryReport, entry: u64)
    ensures
        walk_lanes(facts, report, entry).no_duplicates(),
{
    lemma_record_lanes_distinct(Seq::empty(), walk_result(facts, report, entry).touches);
}

/// The lane of the entry fn, when it has one, is the first listed and leftmost.
pub proof fn lemma_walk_entry_lane_first(facts: CrateFacts, report: DiscoveryReport, entry: u64)
    requires
        lane_of(facts, report, entry) is Some,
    ensures
        walk_lanes(facts, report, entry).len() > 0,
        walk_lanes(facts, report, entry)[0] == lane_of(facts, report, entry)->0,
{
    let p = lane_of(facts, report, entry)->0;
    let body = descend_trace(facts, report, entry, Set::empty());
    let rest = if body.events.len() == 0 {
        body.touches + fallback_trace(facts, report, entry).touches
    } else {
        body.touches
    };
    assert(walk_result(facts, report, entry).touches =~= seq![p] + rest);
    lemma_record_lanes_append(Seq::empty(), seq![p], rest);
    crate::walker::lemma_record_one(Seq::empty(), p);
    assert(Seq::<u64>::empty().push(p) =~= seq![p]);
    lemma_record_lanes_prefix(seq![p], rest);
}

/// An entry fn that sits on a lane always yields at least one arrow: a body
/// with nothing to show gets a self-arrow on the entry's lane.
pub proof fn lemma_walk_entry_lane_shows_arrow(facts: CrateFacts, report: DiscoveryReport, entry: u64)
    requires
        lane_of(facts, report, entry) is Some,
    ensures
        walk_result(facts, report, entry).events.len() > 0,
{
}

// ---------------------------------------------------------------------------
// Arrows and blocks of a walk.
// ---------------------------------------------------------------------------

/// The names of the lanes `ts`.
pub open spec fn lane_names(facts: CrateFacts, ts: Seq<u64>) -> Set<Seq<char>> {
    Set::new(|n: Seq<char>| exists|i: int| 0 <= i < ts.len() && name_of(facts, ts[i]) == n)
}

/// An arrow runs between two of `names`, and a reply never points back at
/// the lane it leaves.
pub open spec fn arrow_ok(names: Set<Seq<char>>) -> spec_fn(MessageView) -> bool {
    |m: MessageView|
        names.contains(m.from) && names.contains(m.to) && (m.style is Dashed ==> m.from != m.to)
}

/// A block of `kind` may have `n` branches: an `alt` at least two, an `opt`
/// or a `loop` exactly one.
pub open spec fn block_shape_ok(kind: BlockKind, n: nat) -> bool {
    match kind {
        BlockKind::Alt => n >= 2,
        BlockKind::Opt => n == 1,
        BlockKind::Loop => n == 1,
    }
}

/// A block has the number of branches its kind calls for, and some branch
/// holds an event.
pub open spec fn block_ok() -> spec_fn(BlockKind, Seq<BranchView>) -> bool {
    |k: BlockKind, bs: Seq<BranchView>|
        block_shape_ok(k, bs.len()) && exists|i: int| 0 <= i < bs.len() && bs[i].events.len() > 0
}

/// Every arrow of `t` runs between lanes it touched, and every block shows something.
pub open spec fn trace_ok(facts: CrateFacts, t: Trace) -> bool {
    events_all(t.events, arrow_ok(lane_names(facts, t.touches)), block_ok())
}

proof fn lemma_lane_names_sub(facts: CrateFacts, a: Seq<u64>, b: Seq<u64>)
    requires
        forall|i: int| 0 <= i < a.len() ==> #[trigger] b.contains(a[i]),
    ensures
        lane_names(facts, a).subset_of(lane_names(facts, b)),
{
    assert forall|n: Seq<char>| lane_names(facts, a).contains(n) implies lane_names(facts, b).contains(n) by {
        let i = choose|i: int| 0 <= i < a.len() && name_of(facts, a[i]) == n;
        assert(b.contains(a[i]));
        let j = choose|j: int| 0 <= j < b.len() && b[j] == a[i];
        assert(name_of(facts, b[j]) == n);
    }
}

proof fn lemma_lane_names_concat(facts: CrateFacts, a: Seq<u64>, b: Seq<u64>)
    ensures
        lane_names(facts, a).subset_of(lane_names(facts, a + b)),
        lane_names(facts, b).subset_of(lane_names(facts, a + b)),
{
    assert forall|i: int| 0 <= i < a.len() implies #[trigger] (a + b).contains(a[i]) by {
        assert((a + b)[i] == a[i]);
    }
    lemma_lane_names_sub(facts, a, a + b);
    assert forall|i: int| 0 <= i < b.len() implies #[trigger] (a + b).contains(b[i]) by {
        assert((a + b)[a.len() + i] == b[i]);
    }
    lemma_lane_names_sub(facts, b, a + b);
}

/// More lanes touched keep a trace sound.
proof fn lemma_trace_ok_widen(facts: CrateFacts, t: Trace, touches: Seq<u64>)
    requires
        trace_ok(facts, t),
        lane_names(facts, t.touches).subset_of(lane_names(facts, touches)),
    ensures
        trace_ok(facts, Trace { events: t.events, touches }),
{
    let n0 = lane_names(facts, t.touches);
    let n1 = lane_names(facts, touches);
    assert forall|m: MessageView| #[trigger] arrow_ok(n0)(m) implies arrow_ok(n1)(m) by {}
    lemma_events_all_weaken(t.events, arrow_ok(n0), block_ok(), arrow_ok(n1), block_ok());
}

proof fn lemma_trace_ok_then(facts: CrateFacts, a: Trace, b: Trace)
    requires
        trace_ok(facts, a),
        trace_ok(facts, b),
    ensures
        trace_ok(facts, then_trace(a, b)),
{
    let all = a.touches + b.touches;
    lemma_lane_names_concat(facts, a.touches, b.touches);
    lemma_trace_ok_widen(facts, a, all);
    lemma_trace_ok_widen(facts, b, all);
    lemma_events_all_append(a.events, b.events, arrow_ok(lane_names(facts, all)), block_ok());
}

proof fn lemma_events_all_one(
    e: EventView,
    pm: spec_fn(MessageView) -> bool,
    pb: spec_fn(BlockKind, Seq<BranchView>) -> bool,
)
    ensures
        events_all(seq![e], pm, pb) == event_all(e, pm, pb),
{
    assert(seq![e].drop_last() =~= Seq::<EventView>::empty());
    assert(events_all(Seq::<EventView>::empty(), pm, pb));
    assert(seq![e].last() == e);
}

proof fn lemma_branches_all_push(
    bs: Seq<BranchView>,
    b: BranchView,
    pm: spec_fn(MessageView) -> bool,
    pb: spec_fn(BlockKind, Seq<BranchView>) -> bool,
)
    ensures
        branches_all(bs.push(b), pm, pb) == (branches_all(bs, pm, pb) && events_all(b.events, pm, pb)),
{
    assert(bs.push(b).drop_last() =~= bs);
    assert(bs.push(b).last() == b);
}

/// A block is only ever shown with something in it.
proof fn lemma_shown_block_ok(kind: BlockKind, bs: Seq<BranchView>, pm: spec_fn(MessageView) -> bool)
    requires
        block_shape_ok(kind, bs.len()),
        branches_all(bs, pm, block_ok()),
    ensures
        events_all(shown_block(kind, bs), pm, block_ok()),
{
    lemma_events_all_one(EventView::Block(kind, bs), pm, block_ok());
}

proof fn lemma_lane_names_has(facts: CrateFacts, ts: Seq<u64>, i: int)
    requires
        0 <= i < ts.len(),
    ensures
        lane_names(facts, ts).contains(name_of(facts, ts[i])),
{
}

proof fn lemma_call_trace_ok(
    facts: CrateFacts,
    report: DiscoveryReport,
    caller: u64,
    callee: u64,
    active: Set<u64>,
    inner: Trace,
)
    requires
        trace_ok(facts, inner),
    ensures
        trace_ok(facts, call_trace(facts, report, caller, callee, active, inner)),
{
    let c = call_trace(facts, report, caller, callee, active, inner);
    match lane_of(facts, report, caller) {
        None => {},
        Some(fp) => match lane_of(facts, report, callee) {
            None => {},
            Some(tp) => {
                let pre = seq![fp, tp];
                let all = pre + inner.touches;
                lemma_lane_names_concat(facts, pre, inner.touches);
                lemma_trace_ok_widen(facts, inner, all);
                if report.msgs@.contains_key(callee) {
                    let names = lane_names(facts, all);
                    lemma_lane_names_has(facts, all, 0);
                    lemma_lane_names_has(facts, all, 1);
                    lemma_lane_names_has(facts, pre, 0);
                    lemma_lane_names_has(facts, pre, 1);
                    let arrow = c.events[0];
                    if active.contains(callee) {
                        assert(c.events =~= seq![arrow]);
                        lemma_events_all_one(arrow, arrow_ok(lane_names(facts, pre)), block_ok());
                    } else {
                        let rest = c.events.subrange(1 + inner.events.len() as int, c.events.len() as int);
                        assert(c.events =~= seq![arrow] + inner.events + rest);
                        lemma_events_all_one(arrow, arrow_ok(names), block_ok());
                        lemma_events_all_append(seq![arrow], inner.events, arrow_ok(names), block_ok());
                        if rest.len() > 0 {
                            assert(rest =~= seq![rest[0]]);
                            lemma_events_all_one(rest[0], arrow_ok(names), block_ok());
                        }
                        lemma_events_all_append(seq![arrow] + inner.events, rest, arrow_ok(names), block_ok());
                    }
                }
            },
        },
    }
}

/// What walking any one expression appends keeps the same rules: every arrow
/// runs between lanes the step touched, no reply arrow points back at its own
/// lane, and every block it adds, at any depth, holds an event and has the
/// branches its kind calls for (an `alt` at least two, an `opt` or a `loop`
/// exactly one).
pub proof fn lemma_walk_trace_ok(facts: CrateFacts, report: DiscoveryReport, e: HirExpr, owner: u64, active: Set<u64>)
    ensures
        trace_ok(facts, walk_trace(facts, report, e, owner, active)),
    decreases rank(facts, active), e,
{
    match e {
        HirExpr::Call { target, parts } => {
            let c = match target {
                Some(t) => {
                    let inner = if active.contains(t) || !facts.items@.contains_key(t)
                        || facts.items@[t].body is None {
                        no_trace()
                    } else {
                        lemma_rank_shrinks(facts, active, t);
                        lemma_walk_trace_ok(facts, report, facts.items@[t].body->0, t, active.insert(t));
                        walk_trace(facts, report, facts.items@[t].body->0, t, active.insert(t))
                    };
                    lemma_call_trace_ok(facts, report, owner, t, active, inner);
                    call_trace(facts, report, owner, t, active, inner)
                },
                None => no_trace(),
            };
            lemma_parts_trace_ok(facts, report, parts@, owner, active);
            lemma_trace_ok_then(facts, parts_trace(facts, report, parts@, owner, active), c);
        },
        HirExpr::If { cond, cond_label, then_branch, else_branch } => {
            let c = walk_trace(facts, report, *cond, owner, active);
            let t = walk_trace(facts, report, *then_branch, owner, active);
            lemma_walk_trace_ok(facts, report, *cond, owner, active);
            lemma_walk_trace_ok(facts, report, *then_branch, owner, active);
            let b1 = BranchView { label: cond_label@, events: t.events };
            match else_branch {
                Some(el) => {
                    let f = walk_trace(facts, report, *el, owner, active);
                    lemma_walk_trace_ok(facts, report, *el, owner, active);
                    let all = c.touches + t.touches + f.touches;
                    let pm = arrow_ok(lane_names(facts, all));
                    lemma_lane_names_concat(facts, c.touches, t.touches);
                    lemma_lane_names_concat(facts, c.touches + t.touches, f.touches);
                    lemma_trace_ok_widen(facts, c, all);
                    lemma_trace_ok_widen(facts, t, all);
                    lemma_trace_ok_widen(facts, f, all);
                    let b2 = BranchView { label: Seq::empty(), events: f.events };
                    assert(seq![b1, b2] =~= Seq::<BranchView>::empty().push(b1).push(b2));
                    lemma_branches_all_push(Seq::<BranchView>::empty(), b1, pm, block_ok());
                    lemma_branches_all_push(Seq::<BranchView>::empty().push(b1), b2, pm, block_ok());
                    lemma_shown_block_ok(BlockKind::Alt, seq![b1, b2], pm);
                    lemma_events_all_append(c.events, shown_block(BlockKind::Alt, seq![b1, b2]), pm, block_ok());
                },
                None => {
                    let all = c.touches + t.touches;
                    let pm = arrow_ok(lane_names(facts, all));
                    lemma_lane_names_concat(facts, c.touches, t.touches);
                    lemma_trace_ok_widen(facts, c, all);
                    lemma_trace_ok_widen(facts, t, all);
                    assert(seq![b1] =~= Seq::<BranchView>::empty().push(b1));
                    lemma_branches_all_push(Seq::<BranchView>::empty(), b1, pm, block_ok());
                    lemma_shown_block_ok(BlockKind::Opt, seq![b1], pm);
                    lemma_events_all_append(c.events, shown_block(BlockKind::Opt, seq![b1]), pm, block_ok());
                },
            }
        },
        HirExpr::Match { scrutinee, scrutinee_label, arms } => {
            let s = walk_trace(facts, report, *scrutinee, owner, active);
            let a = arms_trace(facts, report, scrutinee_label@, arms@, owner, active);
            lemma_walk_trace_ok(facts, report, *scrutinee, owner, active);
            lemma_arms_trace_ok(facts, report, scrutinee_label@, arms@, owner, active);
            let all = s.touches + a.touches;
            let n1 = lane_names(facts, a.touches);
            let pm = arrow_ok(lane_names(facts, all));
            lemma_lane_names_concat(facts, s.touches, a.touches);
            lemma_trace_ok_widen(facts, s, all);
            assert forall|m: MessageView| #[trigger] arrow_ok(n1)(m) implies pm(m) by {}
            lemma_branches_all_weaken(a.branches, arrow_ok(n1), block_ok(), pm, block_ok());
            if a.branches.len() >= 2 {
                lemma_shown_block_ok(BlockKind::Alt, a.branches, pm);
            } else if a.branches.len() == 1 {
                assert(a.branches.last() == a.branches[0]);
            } else {
                assert(events_all(Seq::<EventView>::empty(), pm, block_ok()));
            }
            lemma_events_all_append(s.events, match_events(a.branches), pm, block_ok());
        },
        HirExpr::Loop { header, body } => {
            let b = parts_trace(facts, report, body@, owner, active);
            lemma_parts_trace_ok(facts, report, body@, owner, active);
            let pm = arrow_ok(lane_names(facts, b.touches));
            let b1 = BranchView { label: header@, events: b.events };
            assert(seq![b1] =~= Seq::<BranchView>::empty().push(b1));
            lemma_branches_all_push(Seq::<BranchView>::empty(), b1, pm, block_ok());
            lemma_shown_block_ok(BlockKind::Loop, seq![b1], pm);
        },
        HirExpr::Group(parts) => {
            lemma_parts_trace_ok(facts, report, parts@, owner, active);
        },
        HirExpr::Leaf => {},
    }
}

proof fn lemma_parts_trace_ok(
    facts: CrateFacts,
    report: DiscoveryReport,
    es: Seq<HirExpr>,
    owner: u64,
    active: Set<u64>,
)
    ensures
        trace_ok(facts, parts_trace(facts, report, es, owner, active)),
    decreases rank(facts, active), es,
{
    if es.len() > 0 {
        lemma_parts_trace_ok(facts, report, es.drop_last(), owner, active);
        lemma_walk_trace_ok(facts, report, es.last(), owner, active);
        lemma_trace_ok_then(
            facts,
            parts_trace(facts, report, es.drop_last(), owner, active),
            walk_trace(facts, report, es.last(), owner, active),
        );
    }
}

proof fn lemma_arms_trace_ok(
    facts: CrateFacts,
    report: DiscoveryReport,
    scrutinee: Seq<char>,
    arms: Seq<HirArm>,
    owner: u64,
    active: Set<u64>,
)
    ensures
        branches_all(
            arms_trace(facts, report, scrutinee, arms, owner, active).branches,
            arrow_ok(lane_names(facts, arms_trace(facts, report, scrutinee, arms, owner, active).touches)),
            block_ok(),
        ),
    decreases rank(facts, active), arms,
{
    if arms.len() > 0 {
        let prev = arms_trace(facts, report, scrutinee, arms.drop_last(), owner, active);
        let t = walk_trace(facts, report, arms.last().body, owner, active);
        lemma_arms_trace_ok(facts, report, scrutinee, arms.drop_last(), owner, active);
        lemma_walk_trace_ok(facts, report, arms.last().body, owner, active);
        let all = prev.touches + t.touches;
        let n0 = lane_names(facts, prev.touches);
        let pm = arrow_ok(lane_names(facts, all));
        lemma_lane_names_concat(facts, prev.touches, t.touches);
        assert forall|m: MessageView| #[trigger] arrow_ok(n0)(m) implies pm(m) by {}
        lemma_branches_all_weaken(prev.branches, arrow_ok(n0), block_ok(), pm, block_ok());
        lemma_trace_ok_widen(facts, t, all);
        let b = BranchView {
            label: arm_label(scrutinee, arms.len() == 1, arms.last().pat_label@),
            events: t.events,
        };
        lemma_branches_all_push(prev.branches, b, pm, block_ok());
    }
}

/// Every arrow of a walk runs between two listed lanes (so the diagram
/// declares every participant an arrow names), no reply arrow points back at
/// the lane it leaves, and every block shown holds at least one event and has
/// the branches its kind calls for: an `alt` at least two, an `opt` or a
/// `loop` exactly one.
pub proof fn lemma_walk_arrows_between_lanes(facts: CrateFacts, report: DiscoveryReport, entry: u64)
    ensures
        events_all(
            walk_result(facts, report, entry).events,
            arrow_ok(lane_names(facts, walk_lanes(facts, report, entry))),
            block_ok(),
        ),
{
    let body = descend_trace(facts, report, entry, Set::empty());
    if !(Set::<u64>::empty().contains(entry) || !facts.items@.contains_key(entry)
        || facts.items@[entry].body is None) {
        lemma_walk_trace_ok(facts, report, facts.items@[entry].body->0, entry, Set::<u64>::empty().insert(entry));
    }
    assert(trace_ok(facts, body));
    let et = entry_touches(facts, report, entry);
    let t = Trace { events: body.events, touches: et + body.touches };
    lemma_lane_names_concat(facts, et, body.touches);
    lemma_trace_ok_widen(facts, body, t.touches);
    let fb = fallback_trace(facts, report, entry);
    match lane_of(facts, report, entry) {
        Some(p) => {
            lemma_lane_names_has(facts, seq![p], 0);
            lemma_events_all_one(fb.events[0], arrow_ok(lane_names(facts, fb.touches)), block_ok());
            assert(fb.events =~= seq![fb.events[0]]);
        },
        None => {},
    }
    assert(trace_ok(facts, fb));
    lemma_trace_ok_then(facts, t, fb);
    let r = walk_result(facts, report, entry);
    assert(trace_ok(facts, r));
    let lanes = walk_lanes(facts, report, entry);
    assert forall|i: int| 0 <= i < r.touches.len() implies #[trigger] lanes.contains(r.touches[i]) by {
        lemma_record_lanes_contains(Seq::empty(), r.touches, r.touches[i]);
        assert(r.touches.contains(r.touches[i]));
    }
    lemma_lane_names_sub(facts, r.touches, lanes);
    lemma_trace_ok_widen(facts, r, lanes);
}

// ---------------------------------------------------------------------------
// One step of the walk, stated from its parts.
// ---------------------------------------------------------------------------

/// What walking the body of fn `t` yields, called from inside a walk where
/// `active` are being walked: nothing when `t` is already being walked or has
/// no body, else the walk of its body with `t` marked.
pub open spec fn body_events(facts: CrateFacts, report: DiscoveryReport, t: u64, active: Set<u64>) -> Seq<EventView> {
    if active.contains(t) || !facts.items@.contains_key(t) || facts.items@[t].body is None {
        Seq::empty()
    } else {
        walk_trace(facts, report, facts.items@[t].body->0, t, active.insert(t)).events
    }
}

/// A call from a lane into a fn on a lane that is not marked `#[seq::msg]` is
/// transparent: it draws no arrow, and what its body shows (the marked calls
/// inside it) is shown in its place, after what the call's own parts show.
pub proof fn lemma_unmarked_call_is_transparent(
    facts: CrateFacts,
    report: DiscoveryReport,
    t: u64,
    parts: Vec<HirExpr>,
    owner: u64,
    active: Set<u64>,
)
    requires
        lane_of(facts, report, owner) is Some,
        lane_of(facts, report, t) is Some,
        !report.msgs@.contains_key(t),
    ensures
        walk_trace(facts, report, HirExpr::Call { target: Some(t), parts }, owner, active).events
            == parts_trace(facts, report, parts@, owner, active).events + body_events(facts, report, t, active),
{
}

/// A call from a lane into a `#[seq::msg]` fn on a lane draws, after what the
/// call's parts show, a solid arrow from the caller's lane to the callee's,
/// labelled for the callee and colored with the callee's marker color. Into a
/// fn already being walked the arrow carries the recursion note and nothing
/// follows. Otherwise the callee's body follows, then, when the callee returns
/// something and the lanes differ, a dashed reply back with the same color,
/// labelled with the return type.
pub proof fn lemma_marked_call_arrows(
    facts: CrateFacts,
    report: DiscoveryReport,
    t: u64,
    parts: Vec<HirExpr>,
    owner: u64,
    active: Set<u64>,
)
    requires
        lane_of(facts, report, owner) is Some,
        lane_of(facts, report, t) is Some,
        report.msgs@.contains_key(t),
    ensures
        ({
            let from = name_of(facts, lane_of(facts, report, owner)->0);
            let to = name_of(facts, lane_of(facts, report, t)->0);
            let color = opt_text(report.msgs@[t]);
            let pre = parts_trace(facts, report, parts@, owner, active).events;
            let arrow = |note: Option<Seq<char>>| EventView::Message(
                MessageView { from, to, label: label_of(facts, report, t), style: ArrowStyle::Solid, note, color },
            );
            let reply = EventView::Message(
                MessageView {
                    from: to,
                    to: from,
                    label: facts.items@[t].return_label@,
                    style: ArrowStyle::Dashed,
                    note: None,
                    color,
                },
            );
            let events = walk_trace(facts, report, HirExpr::Call { target: Some(t), parts }, owner, active).events;
            &&& active.contains(t) ==> events == pre + seq![arrow(Some("↻ recursive — walk did not descend"@))]
            &&& !active.contains(t) && facts.items@[t].has_response && from != to ==> events == pre
                + seq![arrow(None)] + body_events(facts, report, t, active) + seq![reply]
            &&& !active.contains(t) && !(facts.items@[t].has_response && from != to) ==> events == pre
                + seq![arrow(None)] + body_events(facts, report, t, active)
        }),
{
    let from = name_of(facts, lane_of(facts, report, owner)->0);
    let to = name_of(facts, lane_of(facts, report, t)->0);
    let pre = parts_trace(facts, report, parts@, owner, active).events;
    let c = call_trace(facts, report, owner, t, active, descend_trace(facts, report, t, active));
    assert(descend_trace(facts, report, t, active).events == body_events(facts, report, t, active));
    assert(pre + c.events =~= pre + c.events);
    if !active.contains(t) {
        assert(pre + (seq![c.events[0]] + body_events(facts, report, t, active) + c.events.subrange(
            1 + body_events(facts, report, t, active).len() as int, c.events.len() as int)) =~= pre + c.events);
    }
}

/// An `if` with an `else` shows, after what its condition shows, an `alt`
/// block of the two branches (the condition's text on the first, nothing on
/// the second) whenever either branch shows anything, and no block when both
/// show nothing.
pub proof fn lemma_if_else_block(
    facts: CrateFacts,
    report: DiscoveryReport,
    cond: HirExpr,
    cond_label: String,
    then_branch: HirExpr,
    else_branch: HirExpr,
    owner: u64,
    active: Set<u64>,
)
    ensures
        ({
            let c = walk_trace(facts, report, cond, owner, active).events;
            let t = walk_trace(facts, report, then_branch, owner, active).events;
            let f = walk_trace(facts, report, else_branch, owner, active).events;
            let e = HirExpr::If {
                cond: Box::new(cond),
                cond_label,
                then_branch: Box::new(then_branch),
                else_branch: Some(Box::new(else_branch)),
            };
            walk_trace(facts, report, e, owner, active).events == if t.len() > 0 || f.len() > 0 {
                c + seq![
                    EventView::Block(
                        BlockKind::Alt,
                        seq![
                            BranchView { label: cond_label@, events: t },
                            BranchView { label: Seq::empty(), events: f },
                        ],
                    ),
                ]
            } else {
                c
            }
        }),
{
    let c = walk_trace(facts, report, cond, owner, active).events;
    let t = walk_trace(facts, report, then_branch, owner, active).events;
    let f = walk_trace(facts, report, else_branch, owner, active).events;
    let bs = seq![BranchView { label: cond_label@, events: t }, BranchView { label: Seq::empty(), events: f }];
    if t.len() > 0 {
        assert(bs[0].events.len() > 0);
    } else if f.len() > 0 {
        assert(bs[1].events.len() > 0);
    } else {
        assert(c + Seq::<EventView>::empty() =~= c);
    }
}

/// An `if` without `else` shows, after what its condition shows, an `opt`
/// block of its branch when the branch shows anything.
pub proof fn lemma_if_block(
    facts: CrateFacts,
    report: DiscoveryReport,
    cond: HirExpr,
    cond_label: String,
    then_branch: HirExpr,
    owner: u64,
    active: Set<u64>,
)
    ensures
        ({
            let c = walk_trace(facts, report, cond, owner, active).events;
            let t = walk_trace(facts, report, then_branch, owner, active).events;
            let e = HirExpr::If { cond: Box::new(cond), cond_label, then_branch: Box::new(then_branch), else_branch: None };
            walk_trace(facts, report, e, owner, active).events == if t.len() > 0 {
                c + seq![EventView::Block(BlockKind::Opt, seq![BranchView { label: cond_label@, events: t }])]
            } else {
                c
            }
        }),
{
    let c = walk_trace(facts, report, cond, owner, active).events;
    let t = walk_trace(facts, report, then_branch, owner, active).events;
    let bs = seq![BranchView { label: cond_label@, events: t }];
    if t.len() > 0 {
        assert(bs[0].events.len() > 0);
    } else {
        assert(c + Seq::<EventView>::empty() =~= c);
    }
}

/// A loop shows a `loop` block headed by its header around what its body
/// shows, and nothing when its body shows nothing.
pub proof fn lemma_loop_block(
    facts: CrateFacts,
    report: DiscoveryReport,
    header: String,
    body: Vec<HirExpr>,
    owner: u64,
    active: Set<u64>,
)
    ensures
        ({
            let b = parts_trace(facts, report, body@, owner, active).events;
            walk_trace(facts, report, HirExpr::Loop { header, body }, owner, active).events == if b.len() > 0 {
                seq![EventView::Block(BlockKind::Loop, seq![BranchView { label: header@, events: b }])]
            } else {
                Seq::<EventView>::empty()
            }
        }),
{
    let b = parts_trace(facts, report, body@, owner, active).events;
    let bs = seq![BranchView { label: header@, events: b }];
    if b.len() > 0 {
        assert(bs[0].events.len() > 0);
    }
}

} // verus!
