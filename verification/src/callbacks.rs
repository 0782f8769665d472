//! What happens to each declared diagram of a scanned crate: its entry is
//! resolved, its call graph walked, and its text rendered for a path.
use std::path::PathBuf;
use vstd::prelude::*;
use vstd::string::*;

use crate::config::{Config, StyleConfig};
use crate::discover::{
    flows_sorted, module_local_segs, module_segs_spec, resolve_entry, resolve_spec, texts_view,
    DiscoveryReport, EntryCandidate, FlowDecl,
};
use crate::emit::{emit_plantuml, flow_text, lemma_events_text_view, lemma_participants_text_eq, participant_line};
use crate::model::{events_view, opt_text, FlowSpec};
use crate::walker::{shows_lane, shows_lanes, walk, walk_lanes, walk_result, CrateFacts};

verus! {

// ---------------------------------------------------------------------------
// Paths.
// ---------------------------------------------------------------------------

/// A path text that is relative on every platform: empty, or neither starting
/// with a separator (`/` or `\`) nor holding a `:` (which a drive or scheme
/// prefix needs).
pub open spec fn relative_everywhere(s: Seq<char>) -> bool {
    s.len() == 0 || (s[0] != '/' && s[0] != '\\' && !s.contains(':'))
}

/// `Path::is_absolute` for `s` read as a path. What else counts as absolute
/// depends on the platform; it is claimed only that a text relative on every
/// platform is not absolute.
#[verifier::external_body]
fn path_is_absolute(s: &str) -> (r: bool)
    ensures
        relative_everywhere(s@) ==> !r,
{
    std::path::Path::new(s).is_absolute()
}

/// The path `PathBuf::from` makes of the text `s`.
pub uninterp spec fn path_of_text(s: Seq<char>) -> PathBuf;

/// The path `Path::join` makes of `part` joined onto `base`.
pub uninterp spec fn joined_path(base: PathBuf, part: Seq<char>) -> PathBuf;

/// `PathBuf::from` for `s`: the path named `path_of_text(s)`, a function of
/// the text alone.
#[verifier::external_body]
fn path_from(s: &str) -> (r: PathBuf)
    ensures
        r == path_of_text(s@),
{
    PathBuf::from(s)
}

/// `Path::join` of `part` onto `base`: the path named `joined_path(base,
/// part)`, a function of the two alone.
#[verifier::external_body]
pub(crate) fn path_join(base: &PathBuf, part: &str) -> (r: PathBuf)
    ensures
        r == joined_path(*base, part@),
{
    base.join(part)
}

/// `base` with each of `parts` joined on in turn.
pub open spec fn joined_all(base: PathBuf, parts: Seq<Seq<char>>) -> PathBuf
    decreases parts.len(),
{
    if parts.len() == 0 {
        base
    } else {
        joined_path(joined_all(base, parts.drop_last()), parts.last())
    }
}

/// Where the diagram of `flow` may go under `root`: an `output` that is
/// relative on every platform joined onto the root; any other `output` as
/// given (when the platform takes it as absolute) or joined onto the root;
/// without one, `<root>/diagrams/<name>.puml`.
pub open spec fn output_path_ok(root: PathBuf, flow: FlowDecl, p: PathBuf) -> bool {
    match flow.output {
        Some(rel) => if relative_everywhere(rel@) {
            p == joined_path(root, rel@)
        } else {
            p == path_of_text(rel@) || p == joined_path(root, rel@)
        },
        None => p == joined_path(joined_path(root, "diagrams"@), default_file_name(flow.name@)),
    }
}

/// The path `Path::parent` gives of `p`: its directory, if it has one.
pub uninterp spec fn parent_path(p: PathBuf) -> Option<PathBuf>;

/// `Path::parent` of `p`, as an owned path: the path named `parent_path(p)`,
/// a function of `p` alone.
#[verifier::external_body]
fn path_parent(p: &PathBuf) -> (r: Option<PathBuf>)
    ensures
        r == parent_path(*p),
{
    p.parent().map(std::path::Path::to_path_buf)
}

/// The crate root, from the path of the crate's first source file (usually
/// `<root>/src/lib.rs`): the directory two levels up; `None` when the path has
/// no such ancestor.
pub fn crate_root_of(source_file: &PathBuf) -> (r: Option<PathBuf>)
    ensures
        r == match parent_path(*source_file) {
            Some(dir) => parent_path(dir),
            None => None,
        },
{
    match path_parent(source_file) {
        Some(dir) => path_parent(&dir),
        None => None,
    }
}

/// Where a diagram goes, relative to nothing or to the crate root.
pub enum OutputPlan {
    /// An absolute path, kept as it is.
    AsGiven(String),
    /// Components joined one after another onto the crate root.
    UnderRoot(Vec<String>),
}

/// The file name of a diagram without an `output`: `<name>.puml`.
pub open spec fn default_file_name(name: Seq<char>) -> Seq<char> {
    name + ".puml"@
}

/// Absolute outputs are kept, relative ones go under the crate root, and a
/// missing one means `diagrams/<name>.puml` under the crate root.
pub open spec fn plan_matches(p: OutputPlan, flow: FlowDecl, given_is_absolute: bool) -> bool {
    match flow.output {
        Some(rel) => if given_is_absolute {
            p matches OutputPlan::AsGiven(x) && x@ == rel@
        } else {
            p matches OutputPlan::UnderRoot(v) && texts_view(v@) == seq![rel@]
        },
        None => p matches OutputPlan::UnderRoot(v) && texts_view(v@) == seq!["diagrams"@, default_file_name(flow.name@)],
    }
}

/// Where the diagram of `flow` goes, given whether its `output` is absolute.
pub fn output_plan(flow: &FlowDecl, given_is_absolute: bool) -> (r: OutputPlan)
    ensures
        plan_matches(r, *flow, given_is_absolute),
{
    match &flow.output {
        Some(rel) => if given_is_absolute {
            OutputPlan::AsGiven(rel.clone())
        } else {
            let v = vec![rel.clone()];
            assert(texts_view(v@) =~= seq![rel@]);
            OutputPlan::UnderRoot(v)
        },
        None => {
            let mut file = flow.name.clone();
            file.append(".puml");
            let v = vec!["diagrams".to_owned(), file];
            assert(texts_view(v@) =~= seq!["diagrams"@, default_file_name(flow.name@)]);
            OutputPlan::UnderRoot(v)
        },
    }
}

/// The path a diagram is written to: an absolute `output` as it is, a
/// relative one under the crate root, else `<crate_root>/diagrams/<name>.puml`.
/// Beyond texts that are relative everywhere, which paths count as absolute
/// depends on the platform; of such an `output` it is stated only that it is
/// kept or joined onto the root.
pub fn resolve_output(crate_root: &PathBuf, flow: &FlowDecl) -> (r: PathBuf)
    ensures
        output_path_ok(*crate_root, *flow, r),
{
    let absolute = match &flow.output {
        Some(rel) => path_is_absolute(rel.as_str()),
        None => false,
    };
    match output_plan(flow, absolute) {
        OutputPlan::AsGiven(p) => path_from(p.as_str()),
        OutputPlan::UnderRoot(parts) => {
            let ghost tv = texts_view(parts@);
            let mut path: Option<PathBuf> = None;
            let mut i: usize = 0;
            while i < parts.len()
                invariant
                    i <= parts.len(),
                    tv == texts_view(parts@),
                    tv.len() == parts@.len(),
                    i == 0 ==> path is None,
                    i > 0 ==> path == Some(joined_all(*crate_root, tv.take(i as int))),
                decreases parts.len() - i,
            {
                let next = match &path {
                    None => path_join(crate_root, parts[i].as_str()),
                    Some(q) => path_join(q, parts[i].as_str()),
                };
                proof {
                    let t = tv.take(i + 1);
                    assert(t.drop_last() =~= tv.take(i as int));
                    assert(t.last() == parts@[i as int]@);
                    assert(i == 0 ==> joined_all(*crate_root, tv.take(0)) == *crate_root) by {
                        assert(tv.take(0) =~= Seq::<Seq<char>>::empty());
                    }
                }
                path = Some(next);
                i = i + 1;
            }
            proof {
                let e = Seq::<Seq<char>>::empty();
                assert(tv.take(tv.len() as int) =~= tv);
                assert(joined_all(*crate_root, e) == *crate_root);
                if tv.len() >= 1 {
                    assert(seq![tv[0]].drop_last() =~= e);
                    assert(joined_all(*crate_root, seq![tv[0]]) == joined_path(*crate_root, tv[0]));
                }
                if tv.len() == 1 {
                    assert(tv =~= seq![tv[0]]);
                }
                if tv.len() == 2 {
                    assert(tv.drop_last() =~= seq![tv[0]]);
                }
            }
            match path {
                Some(p) => p,
                None => path_from(""),
            }
        },
    }
}

// ---------------------------------------------------------------------------
// One diagram.
// ---------------------------------------------------------------------------

/// The message for an entry path that names no fn.
pub open spec fn unresolved_message(flow: FlowDecl, mod_path: Seq<char>) -> Seq<char> {
    "rust2seq: could not resolve entry `"@ + flow.entry_path@ + "` for diagram `"@ + flow.name@
        + "` (looking from module `"@ + mod_path
        + "`) — check the path matches a fn marked #[seq::msg] in a #[seq::participant] type, or qualify with `crate::`/`self::`/`super::`"@
}

/// What to do for one declared diagram.
pub enum FlowPlan {
    /// The entry names no fn: this message is reported and nothing is written.
    Unresolved(String),
    /// The diagram, its text, and the path the text belongs at.
    Render { spec: FlowSpec, text: String },
}

/// The module a diagram is declared in: whether it is the crate root, and
/// its printed path.
pub struct CallSite {
    pub is_crate_root: bool,
    pub path: String,
}

/// What planning the diagram `flow`, declared at `site`, yields: the message
/// for an entry that names no fn, else the walk from the entry rendered in
/// `style`.
pub open spec fn flow_planned(
    style: StyleConfig,
    facts: CrateFacts,
    report: DiscoveryReport,
    candidates: Seq<EntryCandidate>,
    flow: FlowDecl,
    site: CallSite,
    r: FlowPlan,
) -> bool {
    match resolve_spec(candidates, flow.entry_path@, module_segs_spec(site.is_crate_root, site.path@)) {
        None => r matches FlowPlan::Unresolved(m) && m@ == unresolved_message(flow, site.path@),
        Some(entry) => r matches FlowPlan::Render { spec, text } && {
            &&& spec.name == flow.name
            &&& spec.title == flow.title
            &&& events_view(spec.events@) == walk_result(facts, report, entry).events
            &&& shows_lanes(facts, report, spec.participants@, walk_lanes(facts, report, entry))
            &&& text@ == flow_text(spec, style)
        },
    }
}

/// Settings and behaviour of the analysis of one crate.
pub struct Rust2SeqCallbacks {
    config: Config,
}

impl Rust2SeqCallbacks {
    pub closed spec fn style(&self) -> StyleConfig {
        self.config.style
    }

    /// Callbacks with the default style.
    pub fn new() -> (r: Self)
        ensures
            r.style().is_default(),
    {
        Rust2SeqCallbacks { config: Config::default() }
    }

    /// Resolves, walks and renders the diagram `flow`, declared at `site`.
    /// `candidates` are the crate's items an entry path can name, `facts` what
    /// the walk reads of them, and `output` where the text goes.
    pub fn process_flow(
        &self,
        facts: &CrateFacts,
        report: &DiscoveryReport,
        candidates: &Vec<EntryCandidate>,
        flow: &FlowDecl,
        site: &CallSite,
        output: PathBuf,
    ) -> (r: FlowPlan)
        ensures
            flow_planned(self.style(), *facts, *report, candidates@, *flow, *site, r),
            r matches FlowPlan::Render { spec, .. } ==> spec.output == output,
    {
        let segs = module_local_segs(site.is_crate_root, site.path.as_str());
        let entry = match resolve_entry(candidates, flow.entry_path.as_str(), &segs) {
            Some(e) => e,
            None => {
                let mut m = "rust2seq: could not resolve entry `".to_owned();
                m.append(flow.entry_path.as_str());
                m.append("` for diagram `");
                m.append(flow.name.as_str());
                m.append("` (looking from module `");
                m.append(site.path.as_str());
                m.append("`) — check the path matches a fn marked #[seq::msg] in a #[seq::participant] type, or qualify with `crate::`/`self::`/`super::`");
                return FlowPlan::Unresolved(m);
            },
        };
        let outcome = walk(facts, report, entry);
        let spec = FlowSpec {
            name: flow.name.clone(),
            title: match &flow.title {
                Some(t) => Some(t.clone()),
                None => None,
            },
            participants: outcome.participants,
            output,
            events: outcome.events,
        };
        let text = emit_plantuml(&spec, &self.config.style);
        FlowPlan::Render { spec, text }
    }
}

impl Rust2SeqCallbacks {
    /// Plans every diagram the scan found, in order of name: `sites[i]` is
    /// the module declaring `report.flows[i]`, and each text goes where
    /// `resolve_output` puts it under `crate_root`.
    pub fn plan_flows(
        &self,
        facts: &CrateFacts,
        report: &DiscoveryReport,
        candidates: &Vec<EntryCandidate>,
        sites: &Vec<CallSite>,
        crate_root: &PathBuf,
    ) -> (r: Vec<FlowPlan>)
        requires
            sites@.len() == report.flows@.len(),
        ensures
            r@.len() == report.flows@.len(),
            forall|i: int|
                0 <= i < r@.len() ==> flow_planned(
                    self.style(),
                    *facts,
                    *report,
                    candidates@,
                    report.flows@[i],
                    sites@[i],
                    #[trigger] r@[i],
                ),
            forall|i: int|
                0 <= i < r@.len() ==> (#[trigger] r@[i] matches FlowPlan::Render { spec, .. } ==> output_path_ok(
                    *crate_root,
                    report.flows@[i],
                    spec.output,
                )),
    {
        let mut plans: Vec<FlowPlan> = Vec::new();
        let mut i: usize = 0;
        while i < report.flows.len()
            invariant
                i <= report.flows@.len(),
                sites@.len() == report.flows@.len(),
                plans@.len() == i,
                forall|j: int|
                    0 <= j < i ==> flow_planned(
                        self.style(),
                        *facts,
                        *report,
                        candidates@,
                        report.flows@[j],
                        sites@[j],
                        #[trigger] plans@[j],
                    ),
                forall|j: int|
                    0 <= j < i ==> (#[trigger] plans@[j] matches FlowPlan::Render { spec, .. } ==> output_path_ok(
                        *crate_root,
                        report.flows@[j],
                        spec.output,
                    )),
            decreases report.flows@.len() - i,
        {
            let flow = &report.flows[i];
            let output = resolve_output(crate_root, flow);
            let plan = self.process_flow(facts, report, candidates, flow, &sites[i], output);
            plans.push(plan);
            i = i + 1;
        }
        plans
    }
}

impl Default for Rust2SeqCallbacks {
    fn default() -> (r: Self)
        ensures
            r.style().is_default(),
    {
        Self::new()
    }
}

/// A file holding `existing` (or no file, `None`) must be written to hold
/// `rendered` unless it holds exactly that text already.
pub open spec fn write_needed(existing: Option<Seq<char>>, rendered: Seq<char>) -> bool {
    existing != Some(rendered)
}

/// Whether rendered text must be written: unless the file already holds exactly it.
pub fn needs_write(existing: &Option<String>, rendered: &String) -> (r: bool)
    ensures
        r == write_needed(opt_text(*existing), rendered@),
{
    match existing {
        Some(e) => !(*e == *rendered),
        None => true,
    }
}

/// Planning a diagram twice on the same crate gives the same result; so once
/// the first run has written the text, a second run finds the file holding it
/// and writes nothing.
pub proof fn lemma_second_run_writes_nothing(
    style: StyleConfig,
    facts: CrateFacts,
    report: DiscoveryReport,
    candidates: Seq<EntryCandidate>,
    flow: FlowDecl,
    site: CallSite,
    first: FlowPlan,
    second: FlowPlan,
)
    requires
        flow_planned(style, facts, report, candidates, flow, site, first),
        flow_planned(style, facts, report, candidates, flow, site, second),
    ensures
        match (first, second) {
            (FlowPlan::Render { text: t1, .. }, FlowPlan::Render { text: t2, .. }) => t1@ == t2@
                && !write_needed(Some(t1@), t2@),
            (FlowPlan::Unresolved(m1), FlowPlan::Unresolved(m2)) => m1@ == m2@,
            _ => false,
        },
{
    match resolve_spec(candidates, flow.entry_path@, module_segs_spec(site.is_crate_root, site.path@)) {
        None => {},
        Some(entry) => {
            let s1 = first->spec;
            let s2 = second->spec;
            let lanes = walk_lanes(facts, report, entry);
            assert forall|i: int| 0 <= i < s1.participants@.len() implies participant_line(
                #[trigger] s1.participants@[i],
            ) == participant_line(s2.participants@[i]) by {
                assert(shows_lane(facts, report, s1.participants@[i], lanes[i]));
                assert(shows_lane(facts, report, s2.participants@[i], lanes[i]));
            }
            lemma_participants_text_eq(s1.participants@, s2.participants@);
            lemma_events_text_view(s1.events@, s2.events@, Seq::empty());
            assert(flow_text(s1, style) == flow_text(s2, style));
        },
    }
}

} // verus!
