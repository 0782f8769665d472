//! The OAuth example crate, described as the scan and the walk see it, run
//! through resolution, the walk and rendering.

use std::collections::HashMap;
use std::path::PathBuf;

use rust2seq::callbacks::{CallSite, FlowPlan, Rust2SeqCallbacks};
use rust2seq::discover::{DiscoveryReport, EntryCandidate, FlowDecl};
use rust2seq::walker::{walk, CrateFacts, HirArm, HirExpr, ItemFacts};
use rust2seq::{BlockKind, FlowEvent};

const USER: u64 = 1;
const BROWSER: u64 = 2;
const AUTH: u64 = 3;
const RESOURCE: u64 = 4;

const CLICK: u64 = 10;
const HANDLE_LOGIN: u64 = 11;
const DERIVE_PKCE: u64 = 12;
const RENDER: u64 = 13;
const AUTHORIZE: u64 = 14;
const REJECT: u64 = 15;
const RECORD_CODE: u64 = 16;
const EXCHANGE: u64 = 17;
const FETCH: u64 = 18;
const LOG_MISSING: u64 = 19;
const IS_EMPTY: u64 = 99;

fn ty(name: &str, id: u64) -> ItemFacts {
    ItemFacts {
        name: name.to_string(),
        lane: Some(id),
        body: None,
        has_response: false,
        return_label: "()".to_string(),
    }
}

fn func(name: &str, lane: u64, body: HirExpr, ret: Option<&str>) -> ItemFacts {
    ItemFacts {
        name: name.to_string(),
        lane: Some(lane),
        body: Some(body),
        has_response: ret.is_some(),
        return_label: ret.unwrap_or("()").to_string(),
    }
}

fn call(target: u64, nargs: usize) -> HirExpr {
    let mut parts = vec![HirExpr::Leaf];
    for _ in 0..nargs {
        parts.push(HirExpr::Leaf);
    }
    HirExpr::Call { target: Some(target), parts }
}

fn oauth_facts() -> CrateFacts {
    let mut items = HashMap::new();
    items.insert(USER, ty("User", USER));
    items.insert(BROWSER, ty("Browser", BROWSER));
    items.insert(AUTH, ty("AuthServer", AUTH));
    items.insert(RESOURCE, ty("ResourceServer", RESOURCE));
    items.insert(
        CLICK,
        func("click_login_button", USER, HirExpr::Group(vec![HirExpr::Leaf, call(HANDLE_LOGIN, 0)]), None),
    );
    items.insert(
        HANDLE_LOGIN,
        func(
            "handle_login",
            BROWSER,
            HirExpr::Group(vec![
                call(DERIVE_PKCE, 0),
                call(AUTHORIZE, 1),
                call(EXCHANGE, 2),
                call(FETCH, 1),
                call(RENDER, 1),
            ]),
            Some("RenderedUi"),
        ),
    );
    items.insert(
        DERIVE_PKCE,
        func("derive_pkce", BROWSER, HirExpr::Group(vec![HirExpr::Leaf, HirExpr::Leaf]), Some("(Verifier, Challenge)")),
    );
    items.insert(RENDER, func("render", BROWSER, HirExpr::Leaf, Some("RenderedUi")));
    items.insert(
        AUTHORIZE,
        func(
            "authorize",
            AUTH,
            HirExpr::If {
                cond: Box::new(HirExpr::Call { target: Some(IS_EMPTY), parts: vec![HirExpr::Leaf] }),
                cond_label: "challenge.0.is_empty()".to_string(),
                then_branch: Box::new(HirExpr::Group(vec![call(REJECT, 0), HirExpr::Leaf])),
                else_branch: Some(Box::new(HirExpr::Group(vec![call(RECORD_CODE, 1), HirExpr::Leaf]))),
            },
            Some("AuthCode"),
        ),
    );
    items.insert(REJECT, func("reject_invalid_challenge", AUTH, HirExpr::Leaf, None));
    items.insert(RECORD_CODE, func("record_pending_code", AUTH, HirExpr::Leaf, None));
    items.insert(EXCHANGE, func("exchange", AUTH, HirExpr::Leaf, Some("Tokens")));
    items.insert(
        FETCH,
        func(
            "fetch",
            RESOURCE,
            HirExpr::Group(vec![
                HirExpr::If {
                    cond: Box::new(HirExpr::Call { target: Some(IS_EMPTY), parts: vec![HirExpr::Leaf] }),
                    cond_label: "token.0.is_empty()".to_string(),
                    then_branch: Box::new(HirExpr::Group(vec![call(LOG_MISSING, 0)])),
                    else_branch: None,
                },
                HirExpr::Leaf,
            ]),
            Some("ResourceData"),
        ),
    );
    items.insert(LOG_MISSING, func("log_missing_token", RESOURCE, HirExpr::Leaf, None));
    CrateFacts { items }
}

fn oauth_report() -> DiscoveryReport {
    let mut r = DiscoveryReport::default();
    r.record_marker(USER, "User", "participant:");
    r.record_marker(
        BROWSER,
        "Browser",
        "participant:display = \"User's browser\\n(SPA client)\", color = \"#ffe1a8\"",
    );
    r.record_marker(
        AUTH,
        "AuthServer",
        "participant:display = \"Authorization Server\\n(OAuth provider)\", color = \"#c1d7f0\"",
    );
    r.record_marker(
        RESOURCE,
        "ResourceServer",
        "participant:display = \"Resource Server\\n(API)\", color = \"#d6f5d6\"",
    );
    for (id, name) in [
        (CLICK, "click_login_button"),
        (HANDLE_LOGIN, "handle_login"),
        (DERIVE_PKCE, "derive_pkce"),
        (RENDER, "render"),
        (AUTHORIZE, "authorize"),
        (RECORD_CODE, "record_pending_code"),
        (EXCHANGE, "exchange"),
        (FETCH, "fetch"),
        (LOG_MISSING, "log_missing_token"),
    ] {
        r.record_marker(id, name, "msg:");
    }
    r.record_marker(REJECT, "reject_invalid_challenge", "msg:color = \"#cc3333\"");
    r.record_marker(CLICK, "click_login_button", "label:\"click \\\"Log in\\\"\"");
    r.record_marker(DERIVE_PKCE, "derive_pkce", "label:\"derive PKCE pair (verifier + SHA-256 challenge)\"");
    r.record_marker(AUTHORIZE, "authorize", "label:\"GET /authorize?code_challenge=… → consent → 302 ?code=…\"");
    r.record_marker(REJECT, "reject_invalid_challenge", "label:\"400 Bad Request — invalid PKCE challenge\"");
    r.record_marker(EXCHANGE, "exchange", "label:\"POST /token { code, code_verifier }\"");
    r.record_marker(FETCH, "fetch", "label:\"GET /api/resource (Authorization: Bearer …)\"");
    r.record_marker(LOG_MISSING, "log_missing_token", "label:\"log: missing bearer token\"");
    r
}

fn candidates() -> Vec<EntryCandidate> {
    let mut v = Vec::new();
    for (id, path) in [
        (CLICK, "User::click_login_button"),
        (HANDLE_LOGIN, "Browser::handle_login"),
        (AUTHORIZE, "AuthServer::authorize"),
        (FETCH, "ResourceServer::fetch"),
    ] {
        v.push(EntryCandidate { id, is_fn: true, path: path.to_string() });
    }
    v
}

fn oauth_decl() -> FlowDecl {
    let mut r = DiscoveryReport::default();
    r.record_diagram(
        "name = \"oauth_authorization_code\", title = \"OAuth 2.0 — Authorization Code grant with PKCE\", entry = User :: click_login_button,",
        0,
    )
    .unwrap();
    r.flows[0].clone()
}

fn render_oauth() -> String {
    let cb = Rust2SeqCallbacks::new();
    let site = CallSite { is_crate_root: true, path: String::new() };
    match cb.process_flow(
        &oauth_facts(),
        &oauth_report(),
        &candidates(),
        &oauth_decl(),
        &site,
        PathBuf::from("diagrams/oauth_authorization_code.puml"),
    ) {
        FlowPlan::Render { text, .. } => text,
        FlowPlan::Unresolved(m) => panic!("unexpected: {m}"),
    }
}

/// The example crate's diagrams have the expected shape, and sibling modules
/// that declare same-named entries do not leak into each other.
#[test]
fn driver_emits_expected_oauth_diagram_shape() {
    let body = render_oauth();
    assert!(body.starts_with("@startuml oauth_authorization_code"));
    assert!(body.contains("title OAuth"));
    assert!(body.contains("autonumber"));
    assert!(body.contains("participant \"User\" as User"));
    assert!(body.contains("participant \"User's browser"));
    assert!(body.contains("participant \"Authorization Server"));
    assert!(body.contains("User -> Browser : handle login"));
    assert!(body.contains("alt challenge.0.is_empty()"));
    assert!(body.lines().any(|l| l.trim_end() == "else"));
    assert!(body.contains("400 Bad Request"));
    assert!(body.contains("record pending code"));
    assert!(body.contains("derive PKCE pair"));
    assert!(body.contains("POST /token"));
    assert!(body.contains("GET /api/resource"));
    assert!(body.contains("AuthServer --> Browser : AuthCode"));
    assert!(body.contains("AuthServer --> Browser : Tokens"));
    assert!(body.contains("ResourceServer --> Browser : ResourceData"));
    assert!(body.contains("Browser --> User : RenderedUi"));
    assert!(body.trim_end().ends_with("@enduml"));

    let alpha = render_in("alpha_protocol", "name = \"alpha_protocol\", title = \"Alpha protocol\", entry = Frontend::start,");
    assert!(alpha.contains("handle alpha"), "alpha diagram missing its own call:\n{alpha}");
    assert!(!alpha.contains("handle beta"), "alpha diagram leaked beta_protocol contents:\n{alpha}");
    let beta = render_in("beta_protocol", "name = \"beta_protocol\", title = \"Beta protocol\", entry = Frontend::start,");
    assert!(beta.contains("handle beta"), "beta diagram missing its own call:\n{beta}");
    assert!(!beta.contains("handle alpha"), "beta diagram leaked alpha_protocol contents:\n{beta}");
    let cross = render_in(
        "alpha_protocol",
        "name = \"cross_module_qualified\", title = \"Cross-module qualified entry\", entry = crate::beta_protocol::Frontend::start,",
    );
    assert!(cross.contains("handle beta"), "cross-module diagram should follow beta:\n{cross}");
    assert!(!cross.contains("handle alpha"), "cross-module diagram must not include alpha:\n{cross}");
}

#[test]
fn oauth_lanes_follow_first_appearance() {
    let out = walk(&oauth_facts(), &oauth_report(), CLICK);
    let aliases: Vec<&str> = out.participants.iter().map(|p| p.alias.as_str()).collect();
    assert_eq!(aliases, vec!["User", "Browser", "AuthServer", "ResourceServer"]);
    assert_eq!(out.participants[1].display, "User's browser\n(SPA client)");
    assert_eq!(out.participants[1].color.as_deref(), Some("#ffe1a8"));
    assert_eq!(out.participants[0].color, None);
}

#[test]
fn oauth_participant_lines_are_escaped_and_colored() {
    let body = render_oauth();
    assert!(body.contains("participant \"User's browser\\n(SPA client)\" as Browser #ffe1a8\n"));
    assert!(body.contains("participant \"Resource Server\\n(API)\" as ResourceServer #d6f5d6\n"));
}

#[test]
fn oauth_colored_arrow_and_self_call() {
    let body = render_oauth();
    assert!(body.contains("AuthServer -[#cc3333]> AuthServer : 400 Bad Request — invalid PKCE challenge"));
    // A call within one lane has no reply arrow.
    assert!(body.contains("Browser -> Browser : derive PKCE pair (verifier + SHA-256 challenge)\n"));
    assert!(!body.contains("Browser --> Browser"));
    // An `if` without `else` is an `opt` block.
    assert!(body.contains("opt token.0.is_empty()"));
}

#[test]
fn oauth_event_tree_shape() {
    let out = walk(&oauth_facts(), &oauth_report(), CLICK);
    // User -> Browser, the body of handle_login, then the reply.
    match &out.events[0] {
        FlowEvent::Message(m) => {
            assert_eq!(m.from, "User");
            assert_eq!(m.to, "Browser");
            assert_eq!(m.label, "handle login");
        }
        _ => panic!("first event must be an arrow"),
    }
    match out.events.last().unwrap() {
        FlowEvent::Message(m) => {
            assert_eq!(m.from, "Browser");
            assert_eq!(m.to, "User");
            assert_eq!(m.label, "RenderedUi");
        }
        _ => panic!("last event must be the reply"),
    }
    let blocks: Vec<BlockKind> = out
        .events
        .iter()
        .filter_map(|e| match e {
            FlowEvent::Block(b) => Some(b.kind),
            _ => None,
        })
        .collect();
    assert_eq!(blocks, vec![BlockKind::Alt, BlockKind::Opt]);
}

// ---------------------------------------------------------------------------
// Scope-aware entry resolution across sibling modules.
// ---------------------------------------------------------------------------

const A_FRONT: u64 = 100;
const A_BACK: u64 = 101;
const A_START: u64 = 102;
const A_HANDLE: u64 = 103;
const B_FRONT: u64 = 200;
const B_BACK: u64 = 201;
const B_START: u64 = 202;
const B_HANDLE: u64 = 203;

fn sibling_facts() -> CrateFacts {
    let mut items = HashMap::new();
    items.insert(A_FRONT, ty("Frontend", A_FRONT));
    items.insert(A_BACK, ty("Backend", A_BACK));
    items.insert(B_FRONT, ty("Frontend", B_FRONT));
    items.insert(B_BACK, ty("Backend", B_BACK));
    items.insert(A_START, func("start", A_FRONT, HirExpr::Group(vec![call(A_HANDLE, 0)]), None));
    items.insert(A_HANDLE, func("handle_alpha", A_BACK, HirExpr::Leaf, None));
    items.insert(B_START, func("start", B_FRONT, HirExpr::Group(vec![call(B_HANDLE, 0)]), None));
    items.insert(B_HANDLE, func("handle_beta", B_BACK, HirExpr::Leaf, None));
    CrateFacts { items }
}

fn sibling_report() -> DiscoveryReport {
    let mut r = DiscoveryReport::default();
    for (id, name) in [(A_FRONT, "Frontend"), (A_BACK, "Backend"), (B_FRONT, "Frontend"), (B_BACK, "Backend")] {
        r.record_marker(id, name, "participant:");
    }
    for (id, name) in [(A_START, "start"), (A_HANDLE, "handle_alpha"), (B_START, "start"), (B_HANDLE, "handle_beta")] {
        r.record_marker(id, name, "msg:");
    }
    r
}

fn sibling_candidates() -> Vec<EntryCandidate> {
    vec![
        EntryCandidate { id: A_START, is_fn: true, path: "alpha_protocol::Frontend::start".to_string() },
        EntryCandidate { id: A_HANDLE, is_fn: true, path: "alpha_protocol::Backend::handle_alpha".to_string() },
        EntryCandidate { id: B_START, is_fn: true, path: "beta_protocol::Frontend::start".to_string() },
        EntryCandidate { id: B_HANDLE, is_fn: true, path: "beta_protocol::Backend::handle_beta".to_string() },
    ]
}

fn render_in(module: &str, body: &str) -> String {
    let mut r = DiscoveryReport::default();
    r.record_diagram(body, 7).unwrap();
    let decl = r.flows[0].clone();
    let site = CallSite { is_crate_root: false, path: module.to_string() };
    match Rust2SeqCallbacks::new().process_flow(
        &sibling_facts(),
        &sibling_report(),
        &sibling_candidates(),
        &decl,
        &site,
        PathBuf::from("out.puml"),
    ) {
        FlowPlan::Render { text, .. } => text,
        FlowPlan::Unresolved(m) => panic!("unexpected: {m}"),
    }
}

#[test]
fn sibling_modules_do_not_leak() {
    let alpha = render_in("alpha_protocol", "name = \"alpha_protocol\", title = \"Alpha protocol\", entry = Frontend::start,");
    assert!(alpha.contains("handle alpha"));
    assert!(!alpha.contains("handle beta"));
    let beta = render_in("beta_protocol", "name = \"beta_protocol\", title = \"Beta protocol\", entry = Frontend::start,");
    assert!(beta.contains("handle beta"));
    assert!(!beta.contains("handle alpha"));
}

#[test]
fn crate_qualified_entry_crosses_modules() {
    let cross = render_in(
        "alpha_protocol",
        "name = \"cross_module_qualified\", title = \"Cross-module qualified entry\", entry = crate::beta_protocol::Frontend::start,",
    );
    assert!(cross.contains("handle beta"));
    assert!(!cross.contains("handle alpha"));
}

#[test]
fn unresolved_entry_is_reported() {
    let mut r = DiscoveryReport::default();
    r.record_diagram("name = \"lost\", entry = Nowhere::start", 7).unwrap();
    let decl = r.flows[0].clone();
    let site = CallSite { is_crate_root: false, path: "alpha_protocol".to_string() };
    match Rust2SeqCallbacks::new().process_flow(
        &sibling_facts(),
        &sibling_report(),
        &sibling_candidates(),
        &decl,
        &site,
        PathBuf::from("out.puml"),
    ) {
        FlowPlan::Unresolved(m) => assert_eq!(
            m,
            "rust2seq: could not resolve entry `Nowhere::start` for diagram `lost` (looking from module `alpha_protocol`) — check the path matches a fn marked #[seq::msg] in a #[seq::participant] type, or qualify with `crate::`/`self::`/`super::`"
        ),
        FlowPlan::Render { .. } => panic!("must not resolve"),
    }
}

// ---------------------------------------------------------------------------
// Walk details.
// ---------------------------------------------------------------------------

#[test]
fn recursion_is_noted_not_followed() {
    let mut items = HashMap::new();
    items.insert(1, ty("A", 1));
    items.insert(2, ty("B", 2));
    items.insert(10, func("ping", 1, HirExpr::Group(vec![call(11, 0)]), None));
    items.insert(11, func("pong", 2, HirExpr::Group(vec![call(10, 0)]), Some("u8")));
    let facts = CrateFacts { items };
    let mut r = DiscoveryReport::default();
    r.record_marker(1, "A", "participant:");
    r.record_marker(2, "B", "participant:");
    r.record_marker(10, "ping", "msg:");
    r.record_marker(11, "pong", "msg:");
    let out = walk(&facts, &r, 10);
    assert_eq!(out.events.len(), 3);
    match &out.events[1] {
        FlowEvent::Message(m) => {
            assert_eq!((m.from.as_str(), m.to.as_str(), m.label.as_str()), ("B", "A", "ping"));
            assert_eq!(m.note.as_deref(), Some("↻ recursive — walk did not descend"));
        }
        _ => panic!("expected the recursive arrow"),
    }
    match &out.events[2] {
        FlowEvent::Message(m) => {
            assert_eq!((m.from.as_str(), m.to.as_str(), m.label.as_str()), ("B", "A", "u8"));
        }
        _ => panic!("expected the reply"),
    }
}

#[test]
fn empty_body_gets_self_arrow() {
    let mut items = HashMap::new();
    items.insert(1, ty("Solo", 1));
    items.insert(10, func("do_nothing", 1, HirExpr::Leaf, None));
    let facts = CrateFacts { items };
    let mut r = DiscoveryReport::default();
    r.record_marker(1, "Solo", "participant:display = \"Only one\"");
    r.record_marker(10, "do_nothing", "msg:");
    let out = walk(&facts, &r, 10);
    assert_eq!(out.events.len(), 1);
    match &out.events[0] {
        FlowEvent::Message(m) => {
            assert_eq!((m.from.as_str(), m.to.as_str(), m.label.as_str()), ("Solo", "Solo", "do nothing"));
        }
        _ => panic!("expected the self-arrow"),
    }
    assert_eq!(out.participants.len(), 1);
    assert_eq!(out.participants[0].display, "Only one");
}

#[test]
fn entry_without_lane_yields_nothing() {
    let mut items = HashMap::new();
    items.insert(10, ItemFacts {
        name: "free".to_string(),
        lane: None,
        body: Some(HirExpr::Leaf),
        has_response: false,
        return_label: "()".to_string(),
    });
    let out = walk(&CrateFacts { items }, &DiscoveryReport::default(), 10);
    assert!(out.events.is_empty());
    assert!(out.participants.is_empty());
}

#[test]
fn blocks_without_arrows_are_dropped_and_matches_label_arms() {
    let mut items = HashMap::new();
    items.insert(1, ty("A", 1));
    items.insert(2, ty("B", 2));
    items.insert(20, func("quiet", 2, HirExpr::Leaf, None));
    let body = HirExpr::Group(vec![
        HirExpr::Loop { header: "for".to_string(), body: vec![HirExpr::Leaf] },
        HirExpr::Match {
            scrutinee: Box::new(HirExpr::Leaf),
            scrutinee_label: "x".to_string(),
            arms: vec![
                HirArm { pat_label: "Some(v)".to_string(), body: call(20, 0) },
                HirArm { pat_label: "None".to_string(), body: HirExpr::Leaf },
            ],
        },
        HirExpr::Loop { header: "while 'outer".to_string(), body: vec![call(20, 0)] },
    ]);
    items.insert(10, func("run", 1, body, None));
    let facts = CrateFacts { items };
    let mut r = DiscoveryReport::default();
    r.record_marker(1, "A", "participant:");
    r.record_marker(2, "B", "participant:");
    r.record_marker(10, "run", "msg:");
    r.record_marker(20, "quiet", "msg:");
    let out = walk(&facts, &r, 10);
    // The empty `for` loop is not shown; the match and the second loop are.
    assert_eq!(out.events.len(), 2);
    match &out.events[0] {
        FlowEvent::Block(b) => {
            assert_eq!(b.kind, BlockKind::Alt);
            assert_eq!(b.branches[0].label, "match x → Some(v)");
            assert_eq!(b.branches[1].label, "None");
            assert_eq!(b.branches[1].events.len(), 0);
        }
        _ => panic!("expected the match block"),
    }
    match &out.events[1] {
        FlowEvent::Block(b) => {
            assert_eq!(b.kind, BlockKind::Loop);
            assert_eq!(b.branches[0].label, "while 'outer");
        }
        _ => panic!("expected the loop block"),
    }
}

fn arrows(events: &[FlowEvent], out: &mut Vec<(String, String, rust2seq::ArrowStyle)>) {
    for e in events {
        match e {
            FlowEvent::Message(m) => out.push((m.from.clone(), m.to.clone(), m.style)),
            FlowEvent::Block(b) => {
                assert!(b.branches.iter().any(|br| !br.events.is_empty()), "an empty block was shown");
                for br in &b.branches {
                    arrows(&br.events, out);
                }
            }
        }
    }
}

#[test]
fn every_arrow_runs_between_listed_lanes() {
    let out = walk(&oauth_facts(), &oauth_report(), CLICK);
    let aliases: Vec<String> = out.participants.iter().map(|p| p.alias.clone()).collect();
    let mut all = Vec::new();
    arrows(&out.events, &mut all);
    assert_eq!(all.len(), 13);
    for (from, to, style) in all {
        assert!(aliases.contains(&from), "{from} is not a listed lane");
        assert!(aliases.contains(&to), "{to} is not a listed lane");
        if style == rust2seq::ArrowStyle::Dashed {
            assert_ne!(from, to);
        }
    }
}

#[test]
fn every_declared_diagram_is_planned_in_name_order() {
    let mut report = oauth_report();
    report
        .record_diagram(
            "name = \"oauth_authorization_code\", title = \"OAuth\", entry = User::click_login_button",
            0,
        )
        .unwrap();
    report.record_diagram("name = \"lost\", entry = Nowhere::go", 0).unwrap();
    let sites = vec![
        CallSite { is_crate_root: true, path: String::new() },
        CallSite { is_crate_root: true, path: String::new() },
    ];
    let plans = Rust2SeqCallbacks::new().plan_flows(
        &oauth_facts(),
        &report,
        &candidates(),
        &sites,
        &PathBuf::from("/work/example"),
    );
    assert_eq!(plans.len(), 2);
    match &plans[0] {
        FlowPlan::Unresolved(m) => assert!(m.contains("could not resolve entry `Nowhere::go` for diagram `lost`")),
        FlowPlan::Render { .. } => panic!("`lost` names no fn"),
    }
    match &plans[1] {
        FlowPlan::Render { spec, text } => {
            assert_eq!(spec.output, PathBuf::from("/work/example/diagrams/oauth_authorization_code.puml"));
            assert!(text.starts_with("@startuml oauth_authorization_code\n"));
        }
        FlowPlan::Unresolved(m) => panic!("unexpected: {m}"),
    }
}

fn two_lane_setup(body: HirExpr) -> (CrateFacts, DiscoveryReport) {
    let mut items = HashMap::new();
    items.insert(1, ty("O", 1));
    items.insert(2, ty("A", 2));
    items.insert(3, ty("B", 3));
    items.insert(10, func("run", 1, body, None));
    items.insert(20, func("f", 2, HirExpr::Leaf, None));
    items.insert(30, func("g", 3, HirExpr::Leaf, None));
    let mut r = DiscoveryReport::default();
    for (id, name) in [(1, "O"), (2, "A"), (3, "B")] {
        r.record_marker(id, name, "participant:");
    }
    for (id, name) in [(10, "run"), (20, "f"), (30, "g")] {
        r.record_marker(id, name, "msg:");
    }
    (CrateFacts { items }, r)
}

#[test]
fn arguments_run_before_the_call() {
    // `A::f(B::g())`: g runs first, so its arrow comes first.
    let body = HirExpr::Call { target: Some(20), parts: vec![HirExpr::Leaf, call(30, 0)] };
    let (facts, r) = two_lane_setup(body);
    let out = walk(&facts, &r, 10);
    let labels: Vec<String> = out
        .events
        .iter()
        .map(|e| match e {
            FlowEvent::Message(m) => format!("{} -> {} : {}", m.from, m.to, m.label),
            FlowEvent::Block(_) => "block".to_string(),
        })
        .collect();
    assert_eq!(labels, vec!["O -> B : g", "O -> A : f"]);
    let lanes: Vec<&str> = out.participants.iter().map(|p| p.alias.as_str()).collect();
    assert_eq!(lanes, vec!["O", "B", "A"]);
}

#[test]
fn single_arm_match_shows_its_events_without_a_block() {
    // A `for` loop lowers to a loop around a one-arm match.
    let body = HirExpr::Match {
        scrutinee: Box::new(HirExpr::Leaf),
        scrutinee_label: "it.next()".to_string(),
        arms: vec![HirArm { pat_label: "x".to_string(), body: call(20, 0) }],
    };
    let (facts, r) = two_lane_setup(body);
    let out = walk(&facts, &r, 10);
    assert_eq!(out.events.len(), 1);
    match &out.events[0] {
        FlowEvent::Message(m) => assert_eq!((m.from.as_str(), m.to.as_str()), ("O", "A")),
        FlowEvent::Block(_) => panic!("a one-arm match must not become a block"),
    }
}

#[test]
fn second_run_renders_the_same_text() {
    let first = render_oauth();
    let second = render_oauth();
    assert_eq!(first, second);
    assert!(!rust2seq::callbacks::needs_write(&Some(first), &second));
}
