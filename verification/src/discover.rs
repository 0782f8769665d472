//! What a scan of an annotated crate finds: diagram declarations, participant
//! types, message functions and label overrides, and the parsing of their
//! marker payloads.
use std::collections::HashMap;
use vstd::prelude::*;
use vstd::string::*;

use crate::model::opt_text;
use crate::text::{
    find_char, find_char_in, lemma_text_less_irreflexive, lemma_text_less_total,
    lemma_text_less_transitive, rfind_char, rfind_char_in, starts_with, str_eq, strip_prefix_str,
    text_less, text_lt, trim, trim_end, trim_start, trim_str, is_white_space,
};

verus! {

broadcast use vstd::std_specs::hash::group_hash_axioms;

/// How a `#[seq::participant]` type is shown: its column label and color.
#[derive(Debug, Clone)]
pub struct ParticipantInfo {
    pub display: String,
    pub color: Option<String>,
}

/// One `seq::diagram!` declaration.
#[derive(Debug, Clone)]
pub struct FlowDecl {
    pub name: String,
    pub title: Option<String>,
    /// Path to the entry fn as written in source (`Browser::start`).
    pub entry_path: String,
    /// Output path relative to the crate root; `None` means
    /// `<crate_root>/diagrams/<name>.puml`.
    pub output: Option<String>,
    /// Id of the module holding the declaration; `entry_path` is resolved
    /// relative to it.
    pub call_site_mod: u64,
}

/// Everything the scan of one crate found, keyed by item id.
#[derive(Debug)]
pub struct DiscoveryReport {
    /// Diagram declarations, in increasing order of name, at most one per name.
    pub flows: Vec<FlowDecl>,
    /// Every `#[seq::participant]`-marked type.
    pub participants: HashMap<u64, ParticipantInfo>,
    /// Every `#[seq::msg]`-marked fn, with its optional arrow color.
    pub msgs: HashMap<u64, Option<String>>,
    /// Label overrides from `#[seq::label("...")]`.
    pub labels: HashMap<u64, String>,
}

impl Default for DiscoveryReport {
    fn default() -> (r: Self)
        ensures
            r.flows@.len() == 0,
            r.participants@ == Map::<u64, ParticipantInfo>::empty(),
            r.msgs@ == Map::<u64, Option<String>>::empty(),
            r.labels@ == Map::<u64, String>::empty(),
    {
        DiscoveryReport {
            flows: Vec::new(),
            participants: HashMap::new(),
            msgs: HashMap::new(),
            labels: HashMap::new(),
        }
    }
}

// ---------------------------------------------------------------------------
// Quoted values.
// ---------------------------------------------------------------------------

/// How reading a quoted value went.
pub enum Unquoted {
    /// The text between the opening `"` and the last `"`.
    Inner(String),
    /// The trimmed text does not start with `"`.
    NoOpeningQuote,
    /// No `"` follows the opening one.
    NoClosingQuote,
}

/// After trimming: the text between a leading `"` and the last `"`.
pub open spec fn unquote_spec(s: Seq<char>) -> Option<Seq<char>> {
    let t = trim(s);
    if t.len() > 0 && t[0] == '"' {
        match rfind_char(t.drop_first(), '"') {
            Some(e) => Some(t.drop_first().subrange(0, e)),
            None => None,
        }
    } else {
        None
    }
}

/// Reads a quoted value, saying why when it is not one.
pub fn unquote(s: &str) -> (r: Unquoted)
    ensures
        match r {
            Unquoted::Inner(x) => unquote_spec(s@) == Some(x@),
            Unquoted::NoOpeningQuote => unquote_spec(s@) is None && !(trim(s@).len() > 0
                && trim(s@)[0] == '"'),
            Unquoted::NoClosingQuote => unquote_spec(s@) is None && trim(s@).len() > 0
                && trim(s@)[0] == '"',
        },
{
    let t = trim_str(s);
    let n = t.unicode_len();
    if n == 0 || t.get_char(0) != '"' {
        return Unquoted::NoOpeningQuote;
    }
    let rest = t.substring_char(1, n);
    assert(rest@ =~= t@.drop_first());
    match rfind_char_in(rest, '"') {
        Some(e) => Unquoted::Inner(rest.substring_char(0, e).to_owned()),
        None => Unquoted::NoClosingQuote,
    }
}

/// The string of a `#[seq::label("...")]` payload.
pub fn parse_label_payload(payload: &str) -> (r: Option<String>)
    ensures
        match r {
            Some(x) => unquote_spec(payload@) == Some(x@),
            None => unquote_spec(payload@) is None,
        },
{
    match unquote(payload) {
        Unquoted::Inner(x) => Some(x),
        _ => None,
    }
}

/// `expected string literal, got `<t>``.
pub open spec fn not_a_string_message(t: Seq<char>) -> Seq<char> {
    "expected string literal, got `"@ + t + "`"@
}

/// `unterminated string in `<t>``.
pub open spec fn unterminated_message(t: Seq<char>) -> Seq<char> {
    "unterminated string in `"@ + t + "`"@
}

/// The value of a `key = "..."` pair, or the message saying why it is not a string.
pub open spec fn str_value_spec(s: Seq<char>) -> Result<Seq<char>, Seq<char>> {
    match unquote_spec(s) {
        Some(x) => Ok(x),
        None => if trim(s).len() > 0 && trim(s)[0] == '"' {
            Err(unterminated_message(trim(s)))
        } else {
            Err(not_a_string_message(trim(s)))
        },
    }
}

fn quoted_message(prefix: &str, t: &str) -> (r: String)
    ensures
        r@ == prefix@ + t@ + "`"@,
{
    let mut m = prefix.to_owned();
    m.append(t);
    m.append("`");
    m
}

/// Reads a string-literal value.
pub fn parse_str_value(s: &str) -> (r: Result<String, String>)
    ensures
        match r {
            Ok(x) => str_value_spec(s@) == Ok::<Seq<char>, Seq<char>>(x@),
            Err(e) => str_value_spec(s@) == Err::<Seq<char>, Seq<char>>(e@),
        },
{
    match unquote(s) {
        Unquoted::Inner(x) => Ok(x),
        Unquoted::NoOpeningQuote => Err(quoted_message("expected string literal, got `", trim_str(s))),
        Unquoted::NoClosingQuote => Err(quoted_message("unterminated string in `", trim_str(s))),
    }
}

/// The first pair whose key is `key`.
pub open spec fn first_with_key(pairs: Seq<(Seq<char>, Seq<char>)>, key: Seq<char>) -> Option<int> {
    if exists|i: int| 0 <= i < pairs.len() && pairs[i].0 == key {
        Some(choose|i: int| 0 <= i < pairs.len() && pairs[i].0 == key && forall|j: int| 0 <= j < i ==> pairs[j].0 != key)
    } else {
        None
    }
}

/// The quoted value of the first pair with key `key`.
pub open spec fn lookup_spec(pairs: Seq<(Seq<char>, Seq<char>)>, key: Seq<char>) -> Option<Seq<char>> {
    match first_with_key(pairs, key) {
        Some(i) => unquote_spec(pairs[i].1),
        None => None,
    }
}

/// The string value of key `key`; `None` when the key is missing or its value
/// is not quoted.
pub fn lookup_str(pairs: &Vec<(String, String)>, key: &str) -> (r: Option<String>)
    ensures
        opt_text(r) == lookup_spec(pairs_view(pairs@), key@),
{
    let ghost ps = pairs_view(pairs@);
    let mut i: usize = 0;
    while i < pairs.len()
        invariant
            i <= pairs.len(),
            ps == pairs_view(pairs@),
            forall|j: int| 0 <= j < i ==> ps[j].0 != key@,
        decreases pairs.len() - i,
    {
        if str_eq(pairs[i].0.as_str(), key) {
            proof {
                let k = choose|k: int| 0 <= k < ps.len() && ps[k].0 == key@ && forall|j: int| 0 <= j < k ==> ps[j].0 != key@;
                assert(ps[i as int].0 == key@);
                assert(k == i as int) by {
                    if k > i {
                        assert(ps[i as int].0 == key@);
                    }
                }
            }
            return match unquote(pairs[i].1.as_str()) {
                Unquoted::Inner(x) => Some(x),
                _ => None,
            };
        }
        i = i + 1;
    }
    None
}

// ---------------------------------------------------------------------------
// `key = value, ...` lists.
// ---------------------------------------------------------------------------

pub open spec fn is_opener(c: char) -> bool {
    c == '[' || c == '(' || c == '{'
}

pub open spec fn is_closer(c: char) -> bool {
    c == ']' || c == ')' || c == '}'
}

/// A `"` at `i` that is not preceded by a backslash.
pub open spec fn is_bare_quote(s: Seq<char>, i: int) -> bool {
    s[i] == '"' && !(i > 0 && s[i - 1] == '\\')
}

/// The state of a left-to-right scan: bracket depth, whether inside a string,
/// and the positions of the commas that separate pairs.
pub struct KvScan {
    pub depth: int,
    pub in_str: bool,
    pub cuts: Seq<int>,
}

/// The scan after the first `n` characters of `s`. A comma separates pairs
/// only outside strings and brackets.
pub open spec fn kv_scan(s: Seq<char>, n: nat) -> KvScan
    decreases n,
{
    if n == 0 {
        KvScan { depth: 0, in_str: false, cuts: Seq::empty() }
    } else {
        let st = kv_scan(s, (n - 1) as nat);
        let i = n - 1;
        let c = s[i];
        if is_bare_quote(s, i) {
            KvScan { depth: st.depth, in_str: !st.in_str, cuts: st.cuts }
        } else if is_opener(c) && !st.in_str {
            KvScan { depth: st.depth + 1, in_str: st.in_str, cuts: st.cuts }
        } else if is_closer(c) && !st.in_str {
            KvScan { depth: st.depth - 1, in_str: st.in_str, cuts: st.cuts }
        } else if c == ',' && st.depth == 0 && !st.in_str {
            KvScan { depth: st.depth, in_str: st.in_str, cuts: st.cuts.push(i) }
        } else {
            st
        }
    }
}

/// Where chunk `k` starts: just after the previous separating comma.
pub open spec fn chunk_start(cuts: Seq<int>, k: int) -> int {
    if k == 0 {
        0
    } else {
        cuts[k - 1] + 1
    }
}

/// The chunks that end at a separating comma.
pub open spec fn closed_chunks(s: Seq<char>, cuts: Seq<int>) -> Seq<Seq<char>> {
    Seq::new(cuts.len(), |k: int| s.subrange(chunk_start(cuts, k), cuts[k]))
}

/// The text between separating commas.
pub open spec fn kv_chunks(s: Seq<char>) -> Seq<Seq<char>> {
    let cuts = kv_scan(s, s.len()).cuts;
    closed_chunks(s, cuts).push(s.subrange(chunk_start(cuts, cuts.len() as int), s.len() as int))
}

/// A chunk read as a pair: split at its first `=`, both sides trimmed. A
/// blank chunk, or one without `=`, gives no pair.
pub open spec fn chunk_pair(chunk: Seq<char>) -> Option<(Seq<char>, Seq<char>)> {
    let t = trim(chunk);
    if t.len() == 0 {
        None
    } else {
        match find_char(t, '=') {
            Some(e) => Some((trim(t.subrange(0, e)), trim(t.subrange(e + 1, t.len() as int)))),
            None => None,
        }
    }
}

pub open spec fn chunk_pairs(chunks: Seq<Seq<char>>) -> Seq<(Seq<char>, Seq<char>)>
    decreases chunks.len(),
{
    if chunks.len() == 0 {
        Seq::empty()
    } else {
        let prev = chunk_pairs(chunks.drop_last());
        match chunk_pair(chunks.last()) {
            Some(p) => prev.push(p),
            None => prev,
        }
    }
}

/// The pairs of a `key = value, ...` list.
pub open spec fn kv_pairs_spec(s: Seq<char>) -> Seq<(Seq<char>, Seq<char>)> {
    chunk_pairs(kv_chunks(s))
}

/// A character the scan passes over without change: no quote, no bracket.
pub open spec fn kv_plain(c: char) -> bool {
    c != '"' && !is_opener(c) && !is_closer(c)
}

/// Over plain characters the scan keeps its state, provided no comma meets
/// it at top level.
proof fn lemma_kv_scan_plain(s: Seq<char>, a: nat, b: nat)
    requires
        a <= b <= s.len(),
        forall|i: int| a <= i < b ==> kv_plain(#[trigger] s[i]),
        kv_scan(s, a).depth == 0 && !kv_scan(s, a).in_str ==> forall|i: int| a <= i < b ==> #[trigger] s[i] != ',',
    ensures
        kv_scan(s, b) == kv_scan(s, a),
    decreases b - a,
{
    if a < b {
        lemma_kv_scan_plain(s, a, (b - 1) as nat);
        assert(kv_plain(s[b - 1]));
    }
}

/// A comma inside a pair of brackets (`()`, `[]` or `{}`) does not separate
/// pairs: `<key> = <open><inner><close><rest>`, with no quotes or brackets in
/// key, inner and rest and no comma outside the brackets, is one chunk, so it
/// gives at most the one pair it spells, whatever commas `inner` holds.
pub proof fn lemma_bracketed_comma_keeps_pair(
    key: Seq<char>,
    open: char,
    inner: Seq<char>,
    close: char,
    rest: Seq<char>,
)
    requires
        (open == '(' && close == ')') || (open == '[' && close == ']') || (open == '{' && close == '}'),
        forall|i: int| 0 <= i < key.len() ==> kv_plain(#[trigger] key[i]) && key[i] != ',',
        forall|i: int| 0 <= i < inner.len() ==> kv_plain(#[trigger] inner[i]),
        forall|i: int| 0 <= i < rest.len() ==> kv_plain(#[trigger] rest[i]) && rest[i] != ',',
    ensures
        ({
            let s = key + " = "@ + seq![open] + inner + seq![close] + rest;
            &&& kv_chunks(s) == seq![s]
            &&& kv_pairs_spec(s) == match chunk_pair(s) {
                Some(p) => seq![p],
                None => Seq::<(Seq<char>, Seq<char>)>::empty(),
            }
        }),
{
    reveal_strlit(" = ");
    let head = key + " = "@;
    let s = head + seq![open] + inner + seq![close] + rest;
    let n0 = head.len();
    let n1 = n0 + 1;
    let n2 = n1 + inner.len();
    let n3 = n2 + 1;
    assert forall|i: int| 0 <= i < n0 implies kv_plain(#[trigger] s[i]) && s[i] != ',' by {
        if i < key.len() {
            assert(s[i] == key[i]);
        } else {
            assert(s[i] == " = "@[i - key.len()]);
        }
    }
    lemma_kv_scan_plain(s, 0, n0);
    assert(s[n0 as int] == open);
    assert(kv_scan(s, n1) == KvScan { depth: 1, in_str: false, cuts: Seq::<int>::empty() });
    assert forall|i: int| n1 <= i < n2 implies kv_plain(#[trigger] s[i]) by {
        assert(s[i] == inner[i - n1]);
    }
    lemma_kv_scan_plain(s, n1, n2);
    assert(s[n2 as int] == close);
    assert(kv_scan(s, n3) == KvScan { depth: 0, in_str: false, cuts: Seq::<int>::empty() });
    assert forall|i: int| n3 <= i < s.len() implies kv_plain(#[trigger] s[i]) && s[i] != ',' by {
        assert(s[i] == rest[i - n3]);
    }
    lemma_kv_scan_plain(s, n3, s.len());
    let cuts = kv_scan(s, s.len()).cuts;
    assert(cuts.len() == 0);
    assert(closed_chunks(s, cuts) =~= Seq::<Seq<char>>::empty());
    assert(s.subrange(0, s.len() as int) =~= s);
    assert(kv_chunks(s) =~= seq![s]);
    assert(seq![s].drop_last() =~= Seq::<Seq<char>>::empty());
    assert(chunk_pairs(Seq::<Seq<char>>::empty()) == Seq::<(Seq<char>, Seq<char>)>::empty());
    assert(Seq::<(Seq<char>, Seq<char>)>::empty().push(chunk_pair(s)->0) =~= seq![chunk_pair(s)->0]) ;
}

pub open spec fn pairs_view(v: Seq<(String, String)>) -> Seq<(Seq<char>, Seq<char>)> {
    Seq::new(v.len(), |i: int| (v[i].0@, v[i].1@))
}

/// Whether the character at `i` follows a backslash.
pub fn is_escaped(s: &str, i: usize) -> (r: bool)
    requires
        i <= s@.len(),
    ensures
        r == (i > 0 && s@[i - 1] == '\\'),
{
    i > 0 && s.get_char(i - 1) == '\\'
}

/// The pair in one chunk.
fn chunk_pair_of(chunk: &str) -> (r: Option<(String, String)>)
    ensures
        match r {
            Some(p) => chunk_pair(chunk@) == Some((p.0@, p.1@)),
            None => chunk_pair(chunk@) is None,
        },
{
    let t = trim_str(chunk);
    let n = t.unicode_len();
    if n == 0 {
        return None;
    }
    match find_char_in(t, '=') {
        Some(e) => {
            let k = trim_str(t.substring_char(0, e));
            let v = trim_str(t.substring_char(e + 1, n));
            Some((k.to_owned(), v.to_owned()))
        },
        None => None,
    }
}

/// Pushes the pair of `chunk`, if it has one.
fn push_pair(out: &mut Vec<(String, String)>, chunk: &str)
    ensures
        pairs_view(final(out)@) == match chunk_pair(chunk@) {
            Some(p) => pairs_view(old(out)@).push(p),
            None => pairs_view(old(out)@),
        },
{
    match chunk_pair_of(chunk) {
        Some(p) => {
            out.push(p);
            assert(pairs_view(out@) =~= pairs_view(old(out)@).push(chunk_pair(chunk@)->0));
        },
        None => {},
    }
}

/// Splits `key = value` pairs at commas that stand outside strings and brackets.
pub fn split_kv_pairs(body: &str) -> (r: Vec<(String, String)>)
    ensures
        pairs_view(r@) == kv_pairs_spec(body@),
{
    let n = body.unicode_len();
    let mut out: Vec<(String, String)> = Vec::new();
    let mut depth: i128 = 0;
    let mut in_str = false;
    let mut start: usize = 0;
    let mut i: usize = 0;
    let ghost s = body@;
    assert(pairs_view(out@) =~= chunk_pairs(closed_chunks(s, Seq::empty())));
    while i < n
        invariant
            n == s.len(),
            s == body@,
            i <= n,
            depth == kv_scan(s, i as nat).depth,
            in_str == kv_scan(s, i as nat).in_str,
            -(i as int) <= depth <= i as int,
            start as int == chunk_start(kv_scan(s, i as nat).cuts, kv_scan(s, i as nat).cuts.len() as int),
            start <= i,
            pairs_view(out@) == chunk_pairs(closed_chunks(s, kv_scan(s, i as nat).cuts)),
        decreases n - i,
    {
        let c = body.get_char(i);
        let escaped = is_escaped(body, i);
        let ghost st = kv_scan(s, i as nat);
        assert(kv_scan(s, (i + 1) as nat) == {
            let c = s[i as int];
            if is_bare_quote(s, i as int) {
                KvScan { depth: st.depth, in_str: !st.in_str, cuts: st.cuts }
            } else if is_opener(c) && !st.in_str {
                KvScan { depth: st.depth + 1, in_str: st.in_str, cuts: st.cuts }
            } else if is_closer(c) && !st.in_str {
                KvScan { depth: st.depth - 1, in_str: st.in_str, cuts: st.cuts }
            } else if c == ',' && st.depth == 0 && !st.in_str {
                KvScan { depth: st.depth, in_str: st.in_str, cuts: st.cuts.push(i as int) }
            } else {
                st
            }
        });
        if c == '"' && !escaped {
            in_str = !in_str;
        } else if (c == '[' || c == '(' || c == '{') && !in_str {
            depth = depth + 1;
        } else if (c == ']' || c == ')' || c == '}') && !in_str {
            depth = depth - 1;
        } else if c == ',' && depth == 0 && !in_str {
            let chunk = body.substring_char(start, i);
            push_pair(&mut out, chunk);
            proof {
                let cuts = st.cuts;
                let cuts2 = cuts.push(i as int);
                let cc = closed_chunks(s, cuts2);
                assert(cc.drop_last() =~= closed_chunks(s, cuts));
                assert(cc.last() =~= chunk@);
            }
            start = i + 1;
        }
        i = i + 1;
    }
    let last = body.substring_char(start, n);
    push_pair(&mut out, last);
    proof {
        let cuts = kv_scan(s, n as nat).cuts;
        let ch = kv_chunks(s);
        assert(ch.drop_last() =~= closed_chunks(s, cuts));
        assert(ch.last() =~= last@);
    }
    out
}

// ---------------------------------------------------------------------------
// `seq::diagram!` bodies.
// ---------------------------------------------------------------------------

/// The fields of a diagram declaration as read so far.
pub struct DeclFields {
    pub name: Option<Seq<char>>,
    pub title: Option<Seq<char>>,
    pub entry: Option<Seq<char>>,
    pub output: Option<Seq<char>>,
}

/// `unknown diagram! key `<k>` (allowed: name, title, entry, output)`.
pub open spec fn unknown_key_message(k: Seq<char>) -> Seq<char> {
    "unknown diagram! key `"@ + k + "` (allowed: name, title, entry, output)"@
}

pub open spec fn missing_name_message() -> Seq<char> {
    "diagram! missing required `name`"@
}

pub open spec fn missing_entry_message() -> Seq<char> {
    "diagram! missing required `entry`"@
}

/// One `key = value` pair applied to the fields read so far: `name`, `title`
/// and `output` take string values, `entry` takes its trimmed text, any other
/// key is an error.
pub open spec fn apply_field(f: DeclFields, k: Seq<char>, v: Seq<char>) -> Result<DeclFields, Seq<char>> {
    if k == "name"@ {
        match str_value_spec(v) {
            Ok(x) => Ok(DeclFields { name: Some(x), ..f }),
            Err(e) => Err(e),
        }
    } else if k == "title"@ {
        match str_value_spec(v) {
            Ok(x) => Ok(DeclFields { title: Some(x), ..f }),
            Err(e) => Err(e),
        }
    } else if k == "entry"@ {
        Ok(DeclFields { entry: Some(trim(v)), ..f })
    } else if k == "output"@ {
        match str_value_spec(v) {
            Ok(x) => Ok(DeclFields { output: Some(x), ..f }),
            Err(e) => Err(e),
        }
    } else {
        Err(unknown_key_message(k))
    }
}

/// Reading the pairs in order; a later pair overrides an earlier one, and the
/// first error stops the reading.
pub open spec fn read_fields(pairs: Seq<(Seq<char>, Seq<char>)>) -> Result<DeclFields, Seq<char>>
    decreases pairs.len(),
{
    if pairs.len() == 0 {
        Ok(DeclFields { name: None, title: None, entry: None, output: None })
    } else {
        match read_fields(pairs.drop_last()) {
            Err(e) => Err(e),
            Ok(f) => apply_field(f, pairs.last().0, pairs.last().1),
        }
    }
}

/// Once reading a prefix fails, reading any longer prefix fails the same way.
proof fn lemma_read_fields_err_sticks(ps: Seq<(Seq<char>, Seq<char>)>, i: int, e: Seq<char>)
    requires
        0 <= i <= ps.len(),
        read_fields(ps.subrange(0, i)) == Err::<DeclFields, Seq<char>>(e),
    ensures
        read_fields(ps.subrange(0, ps.len() as int)) == Err::<DeclFields, Seq<char>>(e),
    decreases ps.len() - i,
{
    if i < ps.len() {
        assert(ps.subrange(0, i + 1).drop_last() =~= ps.subrange(0, i));
        lemma_read_fields_err_sticks(ps, i + 1, e);
    }
}

struct FieldsRead {
    name: Option<String>,
    title: Option<String>,
    entry: Option<String>,
    output: Option<String>,
}

impl FieldsRead {
    spec fn fields(&self) -> DeclFields {
        DeclFields {
            name: opt_text(self.name),
            title: opt_text(self.title),
            entry: opt_text(self.entry),
            output: opt_text(self.output),
        }
    }

    fn apply(&mut self, key: &str, value: &str) -> (r: Result<(), String>)
        ensures
            match r {
                Ok(()) => apply_field(old(self).fields(), key@, value@) == Ok::<DeclFields, Seq<char>>(final(self).fields()),
                Err(e) => apply_field(old(self).fields(), key@, value@) == Err::<DeclFields, Seq<char>>(e@),
            },
    {
        if str_eq(key, "name") {
            self.name = Some(parse_str_value(value)?);
        } else if str_eq(key, "title") {
            self.title = Some(parse_str_value(value)?);
        } else if str_eq(key, "entry") {
            self.entry = Some(trim_str(value).to_owned());
        } else if str_eq(key, "output") {
            self.output = Some(parse_str_value(value)?);
        } else {
            let mut m = "unknown diagram! key `".to_owned();
            m.append(key);
            m.append("` (allowed: name, title, entry, output)");
            return Err(m);
        }
        Ok(())
    }
}

/// A diagram declaration: its fields, or the message saying what is wrong.
pub open spec fn flow_decl_spec(body: Seq<char>) -> Result<DeclFields, Seq<char>> {
    match read_fields(kv_pairs_spec(body)) {
        Err(e) => Err(e),
        Ok(f) => if f.name is None {
            Err(missing_name_message())
        } else if f.entry is None {
            Err(missing_entry_message())
        } else {
            Ok(f)
        },
    }
}

/// The fields that `d` holds.
pub open spec fn decl_fields(d: FlowDecl) -> DeclFields {
    DeclFields {
        name: Some(d.name@),
        title: opt_text(d.title),
        entry: Some(d.entry_path@),
        output: opt_text(d.output),
    }
}

/// Parses the body of a `seq::diagram!` declared in module `call_site_mod`.
pub fn parse_flow_decl(body: &str, call_site_mod: u64) -> (r: Result<FlowDecl, String>)
    ensures
        match r {
            Ok(d) => flow_decl_spec(body@) == Ok::<DeclFields, Seq<char>>(decl_fields(d))
                && d.call_site_mod == call_site_mod,
            Err(e) => flow_decl_spec(body@) == Err::<DeclFields, Seq<char>>(e@),
        },
{
    let pairs = split_kv_pairs(body);
    let ghost ps = pairs_view(pairs@);
    let mut fields = FieldsRead { name: None, title: None, entry: None, output: None };
    let mut i: usize = 0;
    assert(ps.subrange(0, 0) =~= Seq::<(Seq<char>, Seq<char>)>::empty());
    while i < pairs.len()
        invariant
            i <= pairs.len(),
            ps == pairs_view(pairs@),
            ps == kv_pairs_spec(body@),
            read_fields(ps.subrange(0, i as int)) == Ok::<DeclFields, Seq<char>>(fields.fields()),
        decreases pairs.len() - i,
    {
        proof {
            let sub = ps.subrange(0, i + 1);
            assert(sub.drop_last() =~= ps.subrange(0, i as int));
            assert(sub.last() == (pairs@[i as int].0@, pairs@[i as int].1@));
        }
        match fields.apply(pairs[i].0.as_str(), pairs[i].1.as_str()) {
            Ok(()) => {},
            Err(e) => {
                proof {
                    lemma_read_fields_err_sticks(ps, i + 1, e@);
                    assert(ps.subrange(0, ps.len() as int) =~= ps);
                }
                return Err(e);
            },
        }
        i = i + 1;
    }
    assert(ps.subrange(0, pairs.len() as int) =~= ps);
    let FieldsRead { name, title, entry, output } = fields;
    let name = match name {
        Some(n) => n,
        None => return Err("diagram! missing required `name`".to_owned()),
    };
    let entry_path = match entry {
        Some(e) => e,
        None => return Err("diagram! missing required `entry`".to_owned()),
    };
    Ok(FlowDecl { name, title, entry_path, output, call_site_mod })
}

// ---------------------------------------------------------------------------
// Markers.
// ---------------------------------------------------------------------------

/// The start of every doc comment written by the attribute macros.
pub open spec fn marker_prefix() -> Seq<char> {
    "__rust2seq_marker__:"@
}

/// The start of the name of every const written by `seq::diagram!`.
pub open spec fn diagram_const_prefix() -> Seq<char> {
    "__RUST2SEQ_DIAGRAM_"@
}

/// The marker carried by a doc comment: what follows the marker prefix.
pub open spec fn marker_of(comment: Seq<char>) -> Option<Seq<char>> {
    if starts_with(comment, marker_prefix()) {
        Some(comment.subrange(marker_prefix().len() as int, comment.len() as int))
    } else {
        None
    }
}

/// The marker in `comment`, if it is one written by the attribute macros.
pub fn extract_marker(comment: &str) -> (r: Option<String>)
    ensures
        opt_text(r) == marker_of(comment@),
{
    match strip_prefix_str(comment, "__rust2seq_marker__:") {
        Some(rest) => Some(rest.to_owned()),
        None => None,
    }
}

/// Whether a const of this name holds a `seq::diagram!` body.
pub fn is_diagram_const(name: &str) -> (r: bool)
    ensures
        r == starts_with(name@, diagram_const_prefix()),
{
    strip_prefix_str(name, "__RUST2SEQ_DIAGRAM_").is_some()
}

/// `s` with every two-character `\n` read as a newline, left to right.
pub open spec fn unescape_newlines(s: Seq<char>) -> Seq<char>
    decreases s.len(),
{
    if s.len() == 0 {
        Seq::empty()
    } else if s.len() >= 2 && s[0] == '\\' && s[1] == 'n' {
        seq!['\n'] + unescape_newlines(s.skip(2))
    } else {
        seq![s[0]] + unescape_newlines(s.skip(1))
    }
}

/// Reads every `\n` in `s` as a newline.
pub fn unescape_newlines_in(s: &str) -> (r: String)
    ensures
        r@ == unescape_newlines(s@),
{
    let n = s.unicode_len();
    let mut out = String::new();
    let mut i: usize = 0;
    assert(s@.skip(0) =~= s@);
    while i < n
        invariant
            n == s@.len(),
            i <= n,
            out@ + unescape_newlines(s@.skip(i as int)) == unescape_newlines(s@),
        decreases n - i,
    {
        let ghost rest = s@.skip(i as int);
        if i + 1 < n && s.get_char(i) == '\\' && s.get_char(i + 1) == 'n' {
            out.append("\n");
            proof {
                reveal_strlit("\n");
                assert(rest.skip(2) =~= s@.skip(i + 2));
                assert(out@ + unescape_newlines(s@.skip(i + 2)) =~= (out@.drop_last()) + (seq!['\n'] + unescape_newlines(rest.skip(2))));
            }
            i = i + 2;
        } else {
            let ghost before = out@;
            out.append(s.substring_char(i, i + 1));
            proof {
                assert(rest.skip(1) =~= s@.skip(i + 1));
                assert(s@.subrange(i as int, i + 1) =~= seq![rest[0]]);
                assert(out@ + unescape_newlines(s@.skip(i + 1)) =~= before + (seq![rest[0]] + unescape_newlines(rest.skip(1))));
            }
            i = i + 1;
        }
    }
    assert(s@.skip(n as int) =~= Seq::<char>::empty());
    assert(out@ + Seq::<char>::empty() =~= out@);
    out
}

/// A marker `<kind>:<payload>` split at its first `:`.
pub open spec fn split_marker(m: Seq<char>) -> Option<(Seq<char>, Seq<char>)> {
    match find_char(m, ':') {
        Some(e) => Some((m.subrange(0, e), m.subrange(e + 1, m.len() as int))),
        None => None,
    }
}

/// The column label of a participant: its `display = "..."` with `\n` read
/// as newlines, else the type's own name.
pub open spec fn participant_display(payload: Seq<char>, item_name: Seq<char>) -> Seq<char> {
    match lookup_spec(kv_pairs_spec(payload), "display"@) {
        Some(d) => unescape_newlines(d),
        None => item_name,
    }
}

/// The `color = "..."` of a marker payload.
pub open spec fn payload_color(payload: Seq<char>) -> Option<Seq<char>> {
    lookup_spec(kv_pairs_spec(payload), "color"@)
}

/// The three maps of `new` are those of `old`.
pub open spec fn same_markers(new: DiscoveryReport, old: DiscoveryReport) -> bool {
    &&& new.participants@ == old.participants@
    &&& new.msgs@ == old.msgs@
    &&& new.labels@ == old.labels@
}

/// What recording `marker` on item `id` (named `item_name`) does: a
/// `participant` marker sets the item's display and color, a `msg` marker its
/// arrow color, a `label` marker with a quoted payload its label; anything
/// else changes nothing.
pub open spec fn marker_recorded(new: DiscoveryReport, old: DiscoveryReport, id: u64, item_name: Seq<char>, marker: Seq<char>) -> bool {
    &&& new.flows@ == old.flows@
    &&& match split_marker(marker) {
        Some((kind, payload)) => if kind == "participant"@ {
            participant_recorded(new, old, id, item_name, payload)
        } else if kind == "msg"@ {
            msg_recorded(new, old, id, payload)
        } else if kind == "label"@ {
            label_recorded(new, old, id, payload)
        } else {
            same_markers(new, old)
        },
        None => same_markers(new, old),
    }
}

/// The effect of a `participant` marker with `payload` on item `id`.
pub open spec fn participant_recorded(new: DiscoveryReport, old: DiscoveryReport, id: u64, item_name: Seq<char>, payload: Seq<char>) -> bool {
    &&& new.participants@.dom() == old.participants@.dom().insert(id)
    &&& new.participants@.remove(id) == old.participants@.remove(id)
    &&& new.participants@[id].display@ == participant_display(payload, item_name)
    &&& opt_text(new.participants@[id].color) == payload_color(payload)
    &&& new.msgs@ == old.msgs@
    &&& new.labels@ == old.labels@
}

/// The effect of a `msg` marker with `payload` on item `id`.
pub open spec fn msg_recorded(new: DiscoveryReport, old: DiscoveryReport, id: u64, payload: Seq<char>) -> bool {
    &&& new.msgs@.dom() == old.msgs@.dom().insert(id)
    &&& new.msgs@.remove(id) == old.msgs@.remove(id)
    &&& opt_text(new.msgs@[id]) == payload_color(payload)
    &&& new.participants@ == old.participants@
    &&& new.labels@ == old.labels@
}

/// The effect of a `label` marker with `payload` on item `id`.
pub open spec fn label_recorded(new: DiscoveryReport, old: DiscoveryReport, id: u64, payload: Seq<char>) -> bool {
    match unquote_spec(payload) {
        Some(text) => {
            &&& new.labels@.dom() == old.labels@.dom().insert(id)
            &&& new.labels@.remove(id) == old.labels@.remove(id)
            &&& new.labels@[id]@ == text
            &&& new.participants@ == old.participants@
            &&& new.msgs@ == old.msgs@
        },
        None => same_markers(new, old),
    }
}

impl DiscoveryReport {
    fn record_participant_marker(&mut self, id: u64, item_name: &str, payload: &str)
        ensures
            final(self).flows@ == old(self).flows@,
            participant_recorded(*final(self), *old(self), id, item_name@, payload@),
    {
        let pairs = split_kv_pairs(payload);
        let display = match lookup_str(&pairs, "display") {
            Some(d) => unescape_newlines_in(d.as_str()),
            None => item_name.to_owned(),
        };
        let color = lookup_str(&pairs, "color");
        self.participants.insert(id, ParticipantInfo { display, color });
        assert(self.participants@.remove(id) =~= old(self).participants@.remove(id));
    }

    fn record_msg_marker(&mut self, id: u64, payload: &str)
        ensures
            final(self).flows@ == old(self).flows@,
            msg_recorded(*final(self), *old(self), id, payload@),
    {
        let pairs = split_kv_pairs(payload);
        let color = lookup_str(&pairs, "color");
        self.msgs.insert(id, color);
        assert(self.msgs@.remove(id) =~= old(self).msgs@.remove(id));
    }

    fn record_label_marker(&mut self, id: u64, payload: &str)
        ensures
            final(self).flows@ == old(self).flows@,
            label_recorded(*final(self), *old(self), id, payload@),
    {
        match parse_label_payload(payload) {
            Some(text) => {
                self.labels.insert(id, text);
                assert(self.labels@.remove(id) =~= old(self).labels@.remove(id));
            },
            None => {},
        }
    }

    /// Records one marker found on item `id`, whose own name is `item_name`.
    pub fn record_marker(&mut self, id: u64, item_name: &str, marker: &str)
        ensures
            marker_recorded(*final(self), *old(self), id, item_name@, marker@),
    {
        let e = match find_char_in(marker, ':') {
            Some(e) => e,
            None => return,
        };
        let n = marker.unicode_len();
        let kind = marker.substring_char(0, e);
        let payload = marker.substring_char(e + 1, n);
        assert(split_marker(marker@) == Some((kind@, payload@)));
        if str_eq(kind, "participant") {
            self.record_participant_marker(id, item_name, payload);
        } else if str_eq(kind, "msg") {
            self.record_msg_marker(id, payload);
        } else if str_eq(kind, "label") {
            self.record_label_marker(id, payload);
        }
    }
}

// ---------------------------------------------------------------------------
// Diagram declarations, by name.
// ---------------------------------------------------------------------------

/// Flow names strictly increase along `flows`.
pub open spec fn flows_sorted(flows: Seq<FlowDecl>) -> bool {
    forall|i: int, j: int| 0 <= i < j < flows.len() ==> text_less(#[trigger] flows[i].name@, #[trigger] flows[j].name@)
}

/// `flows` already holds a declaration named `name`.
pub open spec fn has_flow_named(flows: Seq<FlowDecl>, name: Seq<char>) -> bool {
    exists|i: int| 0 <= i < flows.len() && #[trigger] flows[i].name@ == name
}

/// `new` is `old` with `d` inserted where its name belongs.
pub open spec fn inserted_in_order(new: Seq<FlowDecl>, old: Seq<FlowDecl>, d: FlowDecl) -> bool {
    exists|p: int|
        0 <= p <= old.len() && new == old.insert(p, d) && (forall|j: int|
            0 <= j < p ==> text_less(#[trigger] old[j].name@, d.name@)) && (forall|j: int|
            p <= j < old.len() ==> text_less(d.name@, #[trigger] old[j].name@))
}

impl DiscoveryReport {
    /// Keeps `d` unless a declaration of the same name is there already; the
    /// first one of a name wins.
    pub fn record_flow(&mut self, d: FlowDecl)
        requires
            flows_sorted(old(self).flows@),
        ensures
            flows_sorted(final(self).flows@),
            same_markers(*final(self), *old(self)),
            if has_flow_named(old(self).flows@, d.name@) {
                final(self).flows@ == old(self).flows@
            } else {
                inserted_in_order(final(self).flows@, old(self).flows@, d)
            },
    {
        let ghost old_flows = self.flows@;
        let mut p: usize = 0;
        while p < self.flows.len() && text_lt(self.flows[p].name.as_str(), d.name.as_str())
            invariant
                self.flows@ == old_flows,
                flows_sorted(old_flows),
                p <= old_flows.len(),
                forall|j: int| 0 <= j < p ==> text_less(#[trigger] old_flows[j].name@, d.name@),
            decreases old_flows.len() - p,
        {
            p = p + 1;
        }
        proof {
            assert forall|j: int| p <= j < old_flows.len() implies !text_less(#[trigger] old_flows[j].name@, d.name@) by {
                if j > p {
                    lemma_text_less_total(old_flows[p as int].name@, d.name@);
                    if text_less(old_flows[j].name@, d.name@) {
                        lemma_text_less_transitive(old_flows[p as int].name@, old_flows[j].name@, d.name@);
                    }
                }
            }
        }
        if p < self.flows.len() && str_eq(self.flows[p].name.as_str(), d.name.as_str()) {
            return;
        }
        proof {
            assert forall|j: int| p <= j < old_flows.len() implies text_less(d.name@, #[trigger] old_flows[j].name@) by {
                lemma_text_less_total(old_flows[j].name@, d.name@);
                if j > p {
                    lemma_text_less_total(old_flows[p as int].name@, d.name@);
                    lemma_text_less_transitive(d.name@, old_flows[p as int].name@, old_flows[j].name@);
                }
            }
            assert(!has_flow_named(old_flows, d.name@)) by {
                if has_flow_named(old_flows, d.name@) {
                    let i = choose|i: int| 0 <= i < old_flows.len() && #[trigger] old_flows[i].name@ == d.name@;
                    lemma_text_less_irreflexive(d.name@);
                }
            }
        }
        let ghost dd = d;
        self.flows.insert(p, d);
        proof {
            let nf = self.flows@;
            assert(nf == old_flows.insert(p as int, dd));
            assert forall|i: int, j: int| 0 <= i < j < nf.len() implies text_less(#[trigger] nf[i].name@, #[trigger] nf[j].name@) by {
                if i < p && j < p {
                } else if i < p && j == p {
                } else if i < p && j > p {
                    lemma_text_less_transitive(nf[i].name@, dd.name@, nf[j].name@);
                } else if i == p {
                } else {
                }
            }
        }
    }

    /// Parses a `seq::diagram!` body declared in module `call_site_mod` and
    /// keeps it; the message of a malformed body comes back as the error.
    pub fn record_diagram(&mut self, body: &str, call_site_mod: u64) -> (r: Result<(), String>)
        requires
            flows_sorted(old(self).flows@),
        ensures
            flows_sorted(final(self).flows@),
            same_markers(*final(self), *old(self)),
            match flow_decl_spec(body@) {
                Ok(f) => r is Ok && exists|d: FlowDecl|
                    decl_fields(d) == f && d.call_site_mod == call_site_mod && if has_flow_named(old(self).flows@, d.name@) {
                        final(self).flows@ == old(self).flows@
                    } else {
                        inserted_in_order(final(self).flows@, old(self).flows@, d)
                    },
                Err(e) => r matches Err(m) && m@ == e && final(self).flows@ == old(self).flows@,
            },
    {
        match parse_flow_decl(body, call_site_mod) {
            Ok(d) => {
                let ghost dd = d;
                self.record_flow(d);
                assert(decl_fields(dd) == flow_decl_spec(body@)->Ok_0);
                Ok(())
            },
            Err(e) => Err(e),
        }
    }
}

// ---------------------------------------------------------------------------
// Entry paths.
// ---------------------------------------------------------------------------

/// A `::` starts at `i`.
pub open spec fn separator_at(s: Seq<char>, i: int) -> bool {
    0 <= i && i + 1 < s.len() && s[i] == ':' && s[i + 1] == ':'
}

/// Where the first `::` in `s` starts.
pub open spec fn find_separator(s: Seq<char>) -> Option<int> {
    if exists|i: int| #[trigger] separator_at(s, i) {
        Some(choose|i: int| #[trigger] separator_at(s, i) && forall|j: int| 0 <= j < i ==> !separator_at(s, j))
    } else {
        None
    }
}

/// `s` split at every `::`, left to right.
#[verifier::opaque]
pub open spec fn split_path(s: Seq<char>) -> Seq<Seq<char>>
    decreases s.len(),
{
    match find_separator(s) {
        Some(i) => if 0 <= i && i + 1 < s.len() {
            seq![s.subrange(0, i)] + split_path(s.skip(i + 2))
        } else {
            seq![s]
        },
        None => seq![s],
    }
}

/// Segments joined with `::`.
pub open spec fn join_path(segs: Seq<Seq<char>>) -> Seq<char>
    decreases segs.len(),
{
    if segs.len() == 0 {
        Seq::empty()
    } else if segs.len() == 1 {
        segs[0]
    } else {
        join_path(segs.drop_last()) + "::"@ + segs.last()
    }
}

pub open spec fn texts_view(v: Seq<String>) -> Seq<Seq<char>> {
    Seq::new(v.len(), |i: int| v[i]@)
}

proof fn lemma_texts_view_push(v: Seq<String>, x: String)
    ensures
        texts_view(v.push(x)) == texts_view(v).push(x@),
{
    assert(texts_view(v.push(x)) =~= texts_view(v).push(x@));
}

/// The first `::` in `s` at or after `from`.
fn find_separator_from(s: &str, from: usize) -> (r: Option<usize>)
    requires
        from <= s@.len(),
    ensures
        match r {
            Some(i) => find_separator(s@.skip(from as int)) == Some(i - from) && from <= i && i + 1 < s@.len(),
            None => find_separator(s@.skip(from as int)) is None,
        },
{
    let n = s.unicode_len();
    let ghost t = s@.skip(from as int);
    let mut i: usize = from;
    while i < n && i + 1 < n
        invariant
            n == s@.len(),
            from <= i,
            i <= n,
            t == s@.skip(from as int),
            forall|j: int| 0 <= j < i - from ==> !separator_at(t, j),
        decreases n - i,
    {
        if s.get_char(i) == ':' && s.get_char(i + 1) == ':' {
            proof {
                let k = (i - from) as int;
                assert(separator_at(t, k));
                let c = choose|c: int| #[trigger] separator_at(t, c) && forall|j: int| 0 <= j < c ==> !separator_at(t, j);
                assert(c == k) by {
                    if c > k {
                    } else if c < k {
                    }
                }
            }
            return Some(i);
        }
        i = i + 1;
    }
    proof {
        assert forall|c: int| #[trigger] separator_at(t, c) implies false by {
            assert(c < i - from);
        }
    }
    None
}

/// `s` split at every `::`.
#[verifier::rlimit(40)]
pub fn split_path_in(s: &str) -> (r: Vec<String>)
    ensures
        texts_view(r@) == split_path(s@),
{
    let n = s.unicode_len();
    let mut out: Vec<String> = Vec::new();
    let mut start: usize = 0;
    assert(s@.skip(0) =~= s@);
    assert(texts_view(out@) + split_path(s@.skip(0)) =~= split_path(s@));
    loop
        invariant
            n == s@.len(),
            start <= n,
            texts_view(out@) + split_path(s@.skip(start as int)) == split_path(s@),
        decreases n - start,
    {
        let ghost t = s@.skip(start as int);
        let ghost before = texts_view(out@);
        match find_separator_from(s, start) {
            Some(i) => {
                let seg = s.substring_char(start, i).to_owned();
                proof {
                    lemma_texts_view_push(out@, seg);
                    let k = i - start;
                    assert(t.subrange(0, k as int) =~= seg@);
                    assert(t.skip(k + 2) =~= s@.skip(i + 2));
                    reveal(split_path);
                    assert(split_path(t) == seq![seg@] + split_path(t.skip(k + 2)));
                }
                out.push(seg);
                proof {
                    assert(texts_view(out@) + split_path(s@.skip(i + 2)) =~= before + (seq![seg@] + split_path(t.skip(i - start + 2))));
                }
                start = i + 2;
            },
            None => {
                let seg = s.substring_char(start, n).to_owned();
                proof {
                    lemma_texts_view_push(out@, seg);
                    assert(t =~= seg@);
                    reveal(split_path);
                    assert(split_path(t) == seq![seg@]);
                }
                out.push(seg);
                proof {
                    assert(texts_view(out@) =~= before + seq![seg@]);
                }
                return out;
            },
        }
    }
}

/// Segments joined with `::`.
pub fn join_path_of(segs: &Vec<String>) -> (r: String)
    ensures
        r@ == join_path(texts_view(segs@)),
{
    let mut out = String::new();
    let mut i: usize = 0;
    let ghost v = texts_view(segs@);
    assert(v.subrange(0, 0) =~= Seq::<Seq<char>>::empty());
    while i < segs.len()
        invariant
            i <= segs.len(),
            v == texts_view(segs@),
            out@ == join_path(v.subrange(0, i as int)),
        decreases segs.len() - i,
    {
        if i > 0 {
            out.append("::");
        }
        out.append(segs[i].as_str());
        proof {
            let sub = v.subrange(0, i + 1);
            assert(sub.drop_last() =~= v.subrange(0, i as int));
            if i == 0 {
                assert(out@ =~= sub[0]);
            }
        }
        i = i + 1;
    }
    assert(v.subrange(0, segs.len() as int) =~= v);
    out
}

/// The path segments of a module, from the crate root down: none for the
/// root itself or an empty path.
pub open spec fn module_segs_spec(is_crate_root: bool, def_path: Seq<char>) -> Seq<Seq<char>> {
    if is_crate_root || def_path.len() == 0 {
        Seq::empty()
    } else {
        split_path(def_path)
    }
}

/// The path segments of a module given its printed path.
pub fn module_local_segs(is_crate_root: bool, def_path: &str) -> (r: Vec<String>)
    ensures
        texts_view(r@) == module_segs_spec(is_crate_root, def_path@),
{
    if is_crate_root || def_path.unicode_len() == 0 {
        let r: Vec<String> = Vec::new();
        assert(texts_view(r@) =~= Seq::<Seq<char>>::empty());
        r
    } else {
        split_path_in(def_path)
    }
}

/// How many segments at the front of `segs` are `super`.
pub open spec fn leading_supers(segs: Seq<Seq<char>>) -> nat
    decreases segs.len(),
{
    if segs.len() > 0 && segs[0] == "super"@ {
        1 + leading_supers(segs.drop_first())
    } else {
        0
    }
}

proof fn lemma_join_path_front(a: Seq<char>, rest: Seq<Seq<char>>)
    requires
        rest.len() >= 1,
    ensures
        join_path(seq![a] + rest) == a + "::"@ + join_path(rest),
    decreases rest.len(),
{
    let all = seq![a] + rest;
    if rest.len() == 1 {
        assert(all.drop_last() =~= seq![a]);
        assert(join_path(seq![a]) == a);
        assert(join_path(rest) == rest[0]);
    } else {
        lemma_join_path_front(a, rest.drop_last());
        assert(all.drop_last() =~= seq![a] + rest.drop_last());
        assert(all.last() == rest.last());
    }
}

/// When `s` holds a `::`, one of them comes first.
proof fn lemma_first_separator(s: Seq<char>, k: int)
    requires
        separator_at(s, k),
    ensures
        exists|i: int| #[trigger] separator_at(s, i) && forall|j: int| 0 <= j < i ==> !separator_at(s, j),
    decreases k,
{
    if exists|j: int| 0 <= j < k && #[trigger] separator_at(s, j) {
        let j = choose|j: int| 0 <= j < k && #[trigger] separator_at(s, j);
        lemma_first_separator(s, j);
    } else {
        assert(forall|j: int| 0 <= j < k ==> !separator_at(s, j));
    }
}

/// Splitting a path at every `::` and joining the segments with `::` gives
/// the path back.
pub proof fn lemma_join_split_path(s: Seq<char>)
    ensures
        join_path(split_path(s)) == s,
    decreases s.len(),
{
    match find_separator(s) {
        Some(i) => if 0 <= i && i + 1 < s.len() {
            let rest = s.skip(i + 2);
            let head = s.subrange(0, i);
            let k = choose|k: int| #[trigger] separator_at(s, k);
            lemma_first_separator(s, k);
            assert(split_path(s) == seq![head] + split_path(rest)) by {
                reveal(split_path);
            }
            assert(rest.len() < s.len());
            lemma_join_split_path(rest);
            lemma_split_path_nonempty(rest);
            lemma_join_path_front(head, split_path(rest));
            assert(separator_at(s, i));
            assert(head + "::"@ + rest =~= s) by {
                reveal_strlit("::");
            }
        } else {
            assert(split_path(s) == seq![s]) by {
                reveal(split_path);
            }
            assert(join_path(seq![s]) == s);
        },
        None => {
            assert(split_path(s) == seq![s]) by {
                reveal(split_path);
            }
            assert(join_path(seq![s]) == s);
        },
    }
}

/// The segments of an entry path, each trimmed.
pub open spec fn entry_segments(entry: Seq<char>) -> Seq<Seq<char>> {
    split_path(entry).map_values(|x: Seq<char>| trim(x))
}

/// The crate-relative path an entry names, written in module `mod_segs`:
/// `crate::` starts at the root, `self::` and unqualified paths at the module,
/// each leading `super::` one module up. `None` for an empty segment or a
/// `super` above the root.
pub open spec fn normalize_spec(entry: Seq<char>, mod_segs: Seq<Seq<char>>) -> Option<Seq<char>> {
    let segs = entry_segments(entry);
    if exists|i: int| 0 <= i < segs.len() && #[trigger] segs[i].len() == 0 {
        None
    } else if segs[0] == "crate"@ {
        Some(join_path(segs.drop_first()))
    } else if segs[0] == "self"@ {
        Some(join_path(mod_segs + segs.drop_first()))
    } else if segs[0] == "super"@ {
        let k = leading_supers(segs);
        if k > mod_segs.len() {
            None
        } else {
            Some(join_path(mod_segs.subrange(0, mod_segs.len() - k) + segs.skip(k as int)))
        }
    } else {
        Some(join_path(mod_segs + segs))
    }
}

proof fn lemma_split_path_nonempty(s: Seq<char>)
    ensures
        split_path(s).len() >= 1,
{
    reveal(split_path);
    match find_separator(s) {
        Some(i) => if 0 <= i && i + 1 < s.len() {
            assert(split_path(s) == seq![s.subrange(0, i)] + split_path(s.skip(i + 2)));
        },
        None => {},
    }
}

/// The trimmed segments of an entry path, or `None` when one is empty.
fn trimmed_segments(entry_path: &str) -> (r: Option<Vec<String>>)
    ensures
        match r {
            Some(v) => texts_view(v@) == entry_segments(entry_path@) && v@.len() >= 1
                && forall|i: int| 0 <= i < v@.len() ==> #[trigger] v@[i]@.len() > 0,
            None => exists|i: int| 0 <= i < entry_segments(entry_path@).len() && #[trigger] entry_segments(entry_path@)[i].len() == 0,
        },
{
    let raw = split_path_in(entry_path);
    proof {
        lemma_split_path_nonempty(entry_path@);
    }
    let ghost segs = entry_segments(entry_path@);
    let mut segments: Vec<String> = Vec::new();
    let mut i: usize = 0;
    while i < raw.len()
        invariant
            i <= raw.len(),
            texts_view(raw@) == split_path(entry_path@),
            segs == entry_segments(entry_path@),
            texts_view(segments@) == segs.subrange(0, i as int),
            forall|j: int| 0 <= j < i ==> #[trigger] segments@[j]@.len() > 0,
        decreases raw.len() - i,
    {
        let t = trim_str(raw[i].as_str());
        assert(t@ == segs[i as int]);
        if t.unicode_len() == 0 {
            return None;
        }
        let seg = t.to_owned();
        proof {
            lemma_texts_view_push(segments@, seg);
        }
        segments.push(seg);
        assert(texts_view(segments@) =~= segs.subrange(0, i + 1));
        i = i + 1;
    }
    assert(segs.subrange(0, raw.len() as int) =~= segs);
    Some(segments)
}

/// Appends `v[from..]` to `base`.
fn append_from(base: &mut Vec<String>, v: &Vec<String>, from: usize)
    requires
        from <= v@.len(),
    ensures
        texts_view(final(base)@) == texts_view(old(base)@) + texts_view(v@).skip(from as int),
{
    let mut m: usize = from;
    while m < v.len()
        invariant
            from <= m <= v.len(),
            texts_view(base@) == texts_view(old(base)@) + texts_view(v@).subrange(from as int, m as int),
        decreases v.len() - m,
    {
        let seg = v[m].clone();
        proof {
            lemma_texts_view_push(base@, seg);
        }
        base.push(seg);
        assert(texts_view(base@) =~= texts_view(old(base)@) + texts_view(v@).subrange(from as int, m + 1));
        m = m + 1;
    }
    assert(texts_view(v@).subrange(from as int, v.len() as int) =~= texts_view(v@).skip(from as int));
}

/// Resolves `entry_path` written in module `mod_segs` to a crate-relative path.
pub fn normalize_entry_path(entry_path: &str, mod_segs: &Vec<String>) -> (r: Option<String>)
    ensures
        opt_text(r) == normalize_spec(entry_path@, texts_view(mod_segs@)),
{
    let segments = match trimmed_segments(entry_path) {
        Some(v) => v,
        None => return None,
    };
    let ghost segs = entry_segments(entry_path@);
    let ghost ms = texts_view(mod_segs@);
    assert(!exists|i: int| 0 <= i < segs.len() && #[trigger] segs[i].len() == 0) by {
        assert forall|i: int| 0 <= i < segs.len() implies #[trigger] segs[i].len() != 0 by {
            assert(segs[i] == segments@[i]@);
        }
    }
    let first = segments[0].as_str();
    let mut base: Vec<String> = Vec::new();
    assert(texts_view(base@) =~= Seq::<Seq<char>>::empty());
    if str_eq(first, "crate") {
        append_from(&mut base, &segments, 1);
        assert(texts_view(base@) =~= segs.drop_first());
        return Some(join_path_of(&base));
    }
    append_from(&mut base, mod_segs, 0);
    assert(texts_view(base@) =~= ms);
    if str_eq(first, "self") {
        append_from(&mut base, &segments, 1);
        assert(texts_view(base@) =~= ms + segs.drop_first());
        return Some(join_path_of(&base));
    }
    if !str_eq(first, "super") {
        append_from(&mut base, &segments, 0);
        assert(segs.skip(0) =~= segs);
        return Some(join_path_of(&base));
    }
    let mut k: usize = 0;
    assert(segs.skip(0) =~= segs);
    assert(ms.subrange(0, ms.len() as int) =~= ms);
    #[verifier::loop_isolation(false)]
    while k < segments.len() && str_eq(segments[k].as_str(), "super")
        invariant
            k <= segments.len(),
            texts_view(segments@) == segs,
            k <= ms.len(),
            texts_view(base@) == ms.subrange(0, ms.len() - k),
            leading_supers(segs) == k + leading_supers(segs.skip(k as int)),
        decreases segments.len() - k,
    {
        proof {
            assert(segs.skip(k as int)[0] == segments@[k as int]@);
            assert(segs.skip(k as int)[0] == "super"@);
            assert(segs.skip(k as int).drop_first() =~= segs.skip(k + 1));
            assert(leading_supers(segs.skip(k as int)) == 1 + leading_supers(segs.skip(k + 1)));
        }
        if base.len() == 0 {
            assert(texts_view(base@).len() == base@.len());
            assert(leading_supers(segs) > ms.len());
            return None;
        }
        let ghost b0 = base@;
        base.pop();
        proof {
            assert(base@ =~= b0.drop_last());
            assert(texts_view(base@) =~= texts_view(b0).drop_last());
            assert(texts_view(base@) =~= ms.subrange(0, ms.len() - k - 1));
        }
        k = k + 1;
    }
    proof {
        if k < segs.len() {
            assert(segs.skip(k as int)[0] != "super"@);
        }
        assert(leading_supers(segs.skip(k as int)) == 0);
    }
    append_from(&mut base, &segments, k);
    Some(join_path_of(&base))
}

/// A fn of the crate that an entry path may name.
#[derive(Debug, Clone)]
pub struct EntryCandidate {
    pub id: u64,
    /// A free fn or an associated fn.
    pub is_fn: bool,
    /// Its crate-relative path, as printed.
    pub path: String,
}

/// The first fn among `candidates` whose path is `target`.
pub open spec fn first_fn_named(candidates: Seq<EntryCandidate>, target: Seq<char>) -> Option<int> {
    if exists|i: int| 0 <= i < candidates.len() && candidates[i].is_fn && candidates[i].path@ == target {
        Some(choose|i: int| 0 <= i < candidates.len() && candidates[i].is_fn && candidates[i].path@ == target
            && forall|j: int| 0 <= j < i ==> !(candidates[j].is_fn && candidates[j].path@ == target))
    } else {
        None
    }
}

/// The fn an entry path written in module `mod_segs` names.
pub open spec fn resolve_spec(candidates: Seq<EntryCandidate>, entry: Seq<char>, mod_segs: Seq<Seq<char>>) -> Option<u64> {
    match normalize_spec(entry, mod_segs) {
        Some(target) => match first_fn_named(candidates, target) {
            Some(i) => Some(candidates[i].id),
            None => None,
        },
        None => None,
    }
}

/// Resolves a diagram's entry path (`Browser::start`, `crate::a::Foo::bar`,
/// `self::Foo::bar`, `super::Foo::bar`) to the fn it names, looking from the
/// module `mod_segs` where the diagram is declared.
pub fn resolve_entry(candidates: &Vec<EntryCandidate>, entry_path: &str, mod_segs: &Vec<String>) -> (r: Option<u64>)
    ensures
        r == resolve_spec(candidates@, entry_path@, texts_view(mod_segs@)),
{
    let target = match normalize_entry_path(entry_path, mod_segs) {
        Some(t) => t,
        None => return None,
    };
    let mut i: usize = 0;
    assert(normalize_spec(entry_path@, texts_view(mod_segs@)) == Some(target@));
    while i < candidates.len()
        invariant
            normalize_spec(entry_path@, texts_view(mod_segs@)) == Some(target@),
            i <= candidates.len(),
            forall|j: int| 0 <= j < i ==> !(candidates@[j].is_fn && candidates@[j].path@ == target@),
        decreases candidates.len() - i,
    {
        if candidates[i].is_fn && str_eq(candidates[i].path.as_str(), target.as_str()) {
            proof {
                assert(candidates@[i as int].is_fn && candidates@[i as int].path@ == target@);
                let c = choose|c: int| 0 <= c < candidates@.len() && candidates@[c].is_fn && candidates@[c].path@ == target@
                    && forall|j: int| 0 <= j < c ==> !(candidates@[j].is_fn && candidates@[j].path@ == target@);
                assert(c == i as int) by {
                    if c > i {
                    }
                }
            }
            return Some(candidates[i].id);
        }
        i = i + 1;
    }
    None
}

/// A `crate::` entry path names the same fn whichever module declares the
/// diagram.
pub proof fn lemma_crate_path_ignores_module(
    candidates: Seq<EntryCandidate>,
    entry: Seq<char>,
    mod_a: Seq<Seq<char>>,
    mod_b: Seq<Seq<char>>,
)
    requires
        entry_segments(entry)[0] == "crate"@,
    ensures
        resolve_spec(candidates, entry, mod_a) == resolve_spec(candidates, entry, mod_b),
{
}

/// `self::` names the declaring module, as an unqualified path does: for a
/// path whose first segment is not `crate`, `self` or `super`, putting
/// `self::` in front of it changes nothing.
pub proof fn lemma_self_prefix_is_local(p: Seq<char>, mod_segs: Seq<Seq<char>>)
    requires
        entry_segments(p)[0] != "crate"@,
        entry_segments(p)[0] != "self"@,
        entry_segments(p)[0] != "super"@,
    ensures
        normalize_spec("self::"@ + p, mod_segs) == normalize_spec(p, mod_segs),
{
    reveal_strlit("self::");
    reveal_strlit("self");
    reveal_strlit("crate");
    let s = "self::"@ + p;
    assert(separator_at(s, 4));
    assert forall|j: int| 0 <= j < 4 implies !separator_at(s, j) by {
        assert(s[j] == "self::"@[j]);
    }
    assert(find_separator(s) == Some(4int)) by {
        let c = choose|c: int| #[trigger] separator_at(s, c) && forall|j: int| 0 <= j < c ==> !separator_at(s, j);
        assert(separator_at(s, c) && forall|j: int| 0 <= j < c ==> !separator_at(s, j));
        if c > 4 {
            assert(!separator_at(s, 4));
        }
    }
    assert(s.skip(6) =~= p);
    assert(s.subrange(0, 4) =~= "self"@);
    assert(split_path(s) == seq!["self"@] + split_path(p)) by {
        reveal(split_path);
    }
    lemma_split_path_nonempty(p);
    let e = entry_segments(p);
    assert(!is_white_space('s') && !is_white_space('f'));
    assert(trim_start("self"@) == "self"@);
    assert("self"@.last() == 'f');
    assert(trim_end("self"@) == "self"@);
    assert(trim("self"@) == "self"@);
    let segs = entry_segments(s);
    assert(segs =~= seq!["self"@] + e);
    assert(segs.drop_first() =~= e);
    assert(segs[0] == "self"@);
    assert("self"@ != "crate"@) by {
        assert("self"@[0] != "crate"@[0]);
    }
    assert((exists|i: int| 0 <= i < segs.len() && #[trigger] segs[i].len() == 0)
        == (exists|i: int| 0 <= i < e.len() && #[trigger] e[i].len() == 0)) by {
        if exists|i: int| 0 <= i < segs.len() && #[trigger] segs[i].len() == 0 {
            let i = choose|i: int| 0 <= i < segs.len() && #[trigger] segs[i].len() == 0;
            assert(i > 0);
            assert(e[i - 1].len() == 0);
        }
        if exists|i: int| 0 <= i < e.len() && #[trigger] e[i].len() == 0 {
            let i = choose|i: int| 0 <= i < e.len() && #[trigger] e[i].len() == 0;
            assert(segs[i + 1].len() == 0);
        }
    }
}

} // verus!
