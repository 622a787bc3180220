//! Decisions of the coding-assistant hook: how a tool call is summarised and
//! categorised, whether it failed, which files it touched, which graph
//! relations it records, and which test runs it reports.
//!
//! The hook binary reads the tool payload as JSON; it hands the fields read
//! here as plain values and turns the results back into request bodies.

use vstd::prelude::*;
use crate::metrics::{all_digits, digits_value, is_digit, lemma_digits_value_grows, unsigned_digits};
use crate::monitor::views;
use crate::status::clone_opt;
use crate::text::{
    chars_of, decimal, has_prefix, lemma_lex_asymmetric, lemma_split_nonempty, lines, lines_of, push_decimal, split_on,
    string_of, lowercase, lowercase_of, first_piece, piece_before, split3, three_fields, lemma_lex_irreflexive, lemma_lex_total, lemma_lex_transitive, lex_lt,
    owned, push_char, push_str, starts_with, str_eq, str_lt, trim_chars, trimmed,
};

verus! {

broadcast use vstd::string::group_string_axioms;

/// At most `max` characters of `s`; a longer text keeps its first `max`
/// characters and ends with `…`.
pub open spec fn truncated(s: Seq<char>, max: nat) -> Seq<char> {
    if s.len() <= max {
        s
    } else {
        s.take(max as int).push('\u{2026}')
    }
}

/// Shortens `s` to `max` characters followed by `…` when it is longer.
pub fn truncate(s: &str, max: usize) -> (r: String)
    ensures
        r@ == truncated(s@, max as nat),
{
    let cs = chars_of(s);
    if cs.len() <= max {
        return owned(s);
    }
    let mut out = String::new();
    let mut i: usize = 0;
    while i < max
        invariant
            i <= max < cs@.len(),
            out@ == cs@.take(i as int),
        decreases max - i,
    {
        push_char(&mut out, cs[i]);
        assert(cs@.take(i + 1) =~= cs@.take(i as int).push(cs@[i as int]));
        i += 1;
    }
    push_char(&mut out, '\u{2026}');
    out
}

/// The category a tool's calls are filed under.
pub open spec fn category(tool: Seq<char>) -> Seq<char> {
    if tool == "Bash"@ {
        "shell"@
    } else if tool == "Read"@ {
        "file_read"@
    } else if tool == "Write"@ || tool == "Edit"@ {
        "file_write"@
    } else if tool == "Agent"@ {
        "agent"@
    } else if tool == "WebFetch"@ || tool == "WebSearch"@ {
        "network"@
    } else if tool == "Glob"@ || tool == "Grep"@ || tool == "LS"@ {
        "file_read"@
    } else {
        "other"@
    }
}

pub fn tool_category(tool: &str) -> (r: &'static str)
    ensures
        r@ == category(tool@),
{
    if str_eq(tool, "Bash") {
        "shell"
    } else if str_eq(tool, "Read") {
        "file_read"
    } else if str_eq(tool, "Write") || str_eq(tool, "Edit") {
        "file_write"
    } else if str_eq(tool, "Agent") {
        "agent"
    } else if str_eq(tool, "WebFetch") || str_eq(tool, "WebSearch") {
        "network"
    } else if str_eq(tool, "Glob") || str_eq(tool, "Grep") || str_eq(tool, "LS") {
        "file_read"
    } else {
        "other"
    }
}

/// What the hook reads of a tool's input (the payload's `tool_input`, or
/// the payload itself when it has none): its text fields, the text items of
/// `paths`, and its JSON text.
#[derive(Debug)]
pub struct ToolInput {
    pub command: Option<String>,
    pub file_path: Option<String>,
    pub path: Option<String>,
    pub pattern: Option<String>,
    pub paths: Vec<String>,
    pub rendered: String,
}

/// `word`, followed by a space and the field when it is present.
pub open spec fn labelled(word: Seq<char>, field: Option<String>) -> Seq<char> {
    match field {
        Some(v) => word + " "@ + v@,
        None => word,
    }
}

fn label(word: &str, field: &Option<String>) -> (r: String)
    ensures
        r@ == labelled(word@, *field),
{
    let mut s = owned(word);
    match field {
        Some(v) => {
            push_str(&mut s, " ");
            push_str(&mut s, v.as_str());
        },
        None => {},
    }
    s
}

/// The one-line summary of a tool's input.
pub open spec fn input_summary(tool: Seq<char>, ti: ToolInput) -> Seq<char> {
    if tool == "Bash"@ {
        match ti.command {
            Some(c) => truncated(c@, 140),
            None => "bash"@,
        }
    } else if tool == "Read"@ {
        labelled("read"@, ti.file_path)
    } else if tool == "Write"@ || tool == "Edit"@ {
        labelled("write"@, ti.file_path)
    } else if tool == "Glob"@ {
        labelled("glob"@, ti.pattern)
    } else if tool == "Grep"@ {
        labelled("grep"@, ti.pattern)
    } else {
        truncated(ti.rendered@, 140)
    }
}

pub fn summarize_input(tool: &str, ti: &ToolInput) -> (r: String)
    ensures
        r@ == input_summary(tool@, *ti),
{
    if str_eq(tool, "Bash") {
        match &ti.command {
            Some(c) => truncate(c.as_str(), 140),
            None => owned("bash"),
        }
    } else if str_eq(tool, "Read") {
        label("read", &ti.file_path)
    } else if str_eq(tool, "Write") || str_eq(tool, "Edit") {
        label("write", &ti.file_path)
    } else if str_eq(tool, "Glob") {
        label("glob", &ti.pattern)
    } else if str_eq(tool, "Grep") {
        label("grep", &ti.pattern)
    } else {
        truncate(ti.rendered.as_str(), 140)
    }
}

/// What the hook reads of a tool's response: its `type` and `interrupted`
/// fields, its `stdout`, `stderr`, `output` and `error` texts, the response
/// itself when it is a text, and its JSON text.
#[derive(Debug)]
pub struct ToolResponse {
    pub kind: Option<String>,
    pub interrupted: Option<bool>,
    pub stdout: Option<String>,
    pub stderr: Option<String>,
    pub text: Option<String>,
    pub output: Option<String>,
    pub error: Option<String>,
    pub rendered: String,
}

/// The text of an optional field, empty when it is missing.
pub open spec fn text_of(o: Option<String>) -> Seq<char> {
    match o {
        Some(v) => v@,
        None => Seq::empty(),
    }
}

/// The one-line summary of a tool's response: its standard output (with
/// its standard error appended), else its standard error, else its text,
/// output or error, else its JSON text.
pub open spec fn response_summary(r: ToolResponse) -> Seq<char> {
    match r.stdout {
        Some(out) => if out@.len() > 0 {
            if text_of(r.stderr).len() > 0 {
                truncated(out@ + "\n[stderr: "@ + text_of(r.stderr) + "]"@, 200)
            } else {
                truncated(out@, 200)
            }
        } else if text_of(r.stderr).len() > 0 {
            "stderr: "@ + truncated(text_of(r.stderr), 190)
        } else {
            "(no output)"@
        },
        None => match r.text {
            Some(t) => truncated(t@, 200),
            None => match r.output {
                Some(o) => truncated(o@, 200),
                None => match r.error {
                    Some(e) => "error: "@ + truncated(e@, 180),
                    None => truncated(r.rendered@, 200),
                },
            },
        },
    }
}

pub fn summarize_response(r: &ToolResponse) -> (s: String)
    ensures
        s@ == response_summary(*r),
{
    match &r.stdout {
        Some(out) => {
            let err_len: usize = match &r.stderr {
                Some(e) => e.as_str().unicode_len(),
                None => 0,
            };
            if out.as_str().unicode_len() > 0 {
                if err_len > 0 {
                    let mut joined = out.clone();
                    push_str(&mut joined, "\n[stderr: ");
                    match &r.stderr {
                        Some(e) => push_str(&mut joined, e.as_str()),
                        None => {},
                    }
                    push_str(&mut joined, "]");
                    truncate(joined.as_str(), 200)
                } else {
                    truncate(out.as_str(), 200)
                }
            } else if err_len > 0 {
                let mut s = owned("stderr: ");
                match &r.stderr {
                    Some(e) => {
                        let t = truncate(e.as_str(), 190);
                        push_str(&mut s, t.as_str());
                    },
                    None => {},
                }
                s
            } else {
                owned("(no output)")
            }
        },
        None => match &r.text {
            Some(t) => truncate(t.as_str(), 200),
            None => match &r.output {
                Some(o) => truncate(o.as_str(), 200),
                None => match &r.error {
                    Some(e) => {
                        let mut s = owned("error: ");
                        let t = truncate(e.as_str(), 180);
                        push_str(&mut s, t.as_str());
                        s
                    },
                    None => truncate(r.rendered.as_str(), 200),
                },
            },
        },
    }
}

/// A response reports a failure: its type is `error` or `tool_error`, or
/// it was interrupted.
pub open spec fn failed(r: ToolResponse) -> bool {
    (r.kind matches Some(k) && (k@ == "error"@ || k@ == "tool_error"@)) || r.interrupted == Some(true)
}

/// The exit status of a call: `unknown` without a response, else `error`
/// or `success`.
pub open spec fn exit_of(resp: Option<ToolResponse>) -> Seq<char> {
    match resp {
        None => "unknown"@,
        Some(r) => if failed(r) {
            "error"@
        } else {
            "success"@
        },
    }
}

pub fn exit_status(resp: &Option<ToolResponse>) -> (s: &'static str)
    ensures
        s@ == exit_of(*resp),
{
    match resp {
        None => "unknown",
        Some(r) => {
            let by_kind = match &r.kind {
                Some(k) => str_eq(k.as_str(), "error") || str_eq(k.as_str(), "tool_error"),
                None => false,
            };
            let by_interrupt = match r.interrupted {
                Some(b) => b,
                None => false,
            };
            if by_kind || by_interrupt {
                "error"
            } else {
                "success"
            }
        },
    }
}

/// Tools that write the file they name.
pub open spec fn writes_file(tool: Seq<char>) -> bool {
    tool == "Write"@ || tool == "Edit"@
}

/// Tools whose input names paths they read.
pub open spec fn reads_paths(tool: Seq<char>) -> bool {
    tool == "Read"@ || tool == "LS"@ || tool == "Glob"@ || tool == "Grep"@
}

/// The file a `Write` or `Edit` call writes.
pub fn extract_file_path(tool: &str, ti: &ToolInput) -> (r: Option<String>)
    ensures
        r == if writes_file(tool@) {
            ti.file_path
        } else {
            None
        },
{
    if str_eq(tool, "Write") || str_eq(tool, "Edit") {
        clone_opt(&ti.file_path)
    } else {
        None
    }
}

/// The write type a file write is reported with.
pub open spec fn write_kind(tool: Seq<char>) -> Seq<char> {
    if tool == "Write"@ {
        "create"@
    } else {
        "edit"@
    }
}

pub fn write_type(tool: &str) -> (r: &'static str)
    ensures
        r@ == write_kind(tool@),
{
    if str_eq(tool, "Write") {
        "create"
    } else {
        "edit"
    }
}

/// A present field as a one-element sequence.
pub open spec fn opt_seq(o: Option<String>) -> Seq<Seq<char>> {
    match o {
        Some(v) => seq![v@],
        None => Seq::empty(),
    }
}

/// The paths an input names: `file_path`, `path`, then the items of `paths`.
pub open spec fn candidate_paths(ti: ToolInput) -> Seq<Seq<char>> {
    opt_seq(ti.file_path) + opt_seq(ti.path) + views(ti.paths@)
}

/// The paths a call reads: those its input names, for the reading tools.
pub open spec fn accessed_set(tool: Seq<char>, ti: ToolInput) -> Set<Seq<char>> {
    if reads_paths(tool) {
        candidate_paths(ti).to_set()
    } else {
        Set::empty()
    }
}

/// Each element sorts before the next ones; no element occurs twice.
pub open spec fn strictly_sorted(s: Seq<Seq<char>>) -> bool {
    forall|i: int, j: int| 0 <= i < j < s.len() ==> lex_lt(#[trigger] s[i], #[trigger] s[j])
}

/// The paths a call reads, sorted, each once.
pub open spec fn accessed_paths(tool: Seq<char>, ti: ToolInput) -> Seq<Seq<char>> {
    choose|s: Seq<Seq<char>>| strictly_sorted(s) && s.to_set() == accessed_set(tool, ti)
}

/// Two sorted sequences of the same elements are equal.
pub proof fn lemma_sorted_unique(a: Seq<Seq<char>>, b: Seq<Seq<char>>)
    requires
        strictly_sorted(a),
        strictly_sorted(b),
        a.to_set() == b.to_set(),
    ensures
        a == b,
    decreases a.len(),
{
    if a.len() == 0 {
        if b.len() > 0 {
            assert(b.to_set().contains(b[0]));
        }
        assert(a =~= b);
    } else {
        assert(a.to_set().contains(a[0]));
        assert(b.len() > 0);
        assert(b.to_set().contains(b[0]));
        let j = choose|j: int| 0 <= j < b.len() && b[j] == a[0];
        let i = choose|i: int| 0 <= i < a.len() && a[i] == b[0];
        if j > 0 && i > 0 {
            assert(lex_lt(b[0], b[j]));
            assert(lex_lt(a[0], a[i]));
            lemma_lex_asymmetric(a[0], b[0]);
        }
        if j == 0 {
            assert(a[0] == b[0]);
        } else if i == 0 {
            assert(a[0] == b[0]);
        }
        let ta = a.drop_first();
        let tb = b.drop_first();
        assert forall|x: Seq<char>| #[trigger] ta.to_set().contains(x) == tb.to_set().contains(x) by {
            if ta.to_set().contains(x) {
                let k = choose|k: int| 0 <= k < ta.len() && ta[k] == x;
                assert(a[k + 1] == x);
                assert(lex_lt(a[0], a[k + 1]));
                lemma_lex_irreflexive(x);
                assert(a.to_set().contains(x));
                let m = choose|m: int| 0 <= m < b.len() && b[m] == x;
                assert(m != 0);
                assert(tb[m - 1] == x);
            }
            if tb.to_set().contains(x) {
                let k = choose|k: int| 0 <= k < tb.len() && tb[k] == x;
                assert(b[k + 1] == x);
                assert(lex_lt(b[0], b[k + 1]));
                lemma_lex_irreflexive(x);
                assert(b.to_set().contains(x));
                let m = choose|m: int| 0 <= m < a.len() && a[m] == x;
                assert(m != 0);
                assert(ta[m - 1] == x);
            }
        }
        assert(ta.to_set() =~= tb.to_set());
        assert forall|p: int, q: int| 0 <= p < q < ta.len() implies lex_lt(#[trigger] ta[p], #[trigger] ta[q]) by {
            assert(ta[p] == a[p + 1] && ta[q] == a[q + 1]);
        }
        assert forall|p: int, q: int| 0 <= p < q < tb.len() implies lex_lt(#[trigger] tb[p], #[trigger] tb[q]) by {
            assert(tb[p] == b[p + 1] && tb[q] == b[q + 1]);
        }
        lemma_sorted_unique(ta, tb);
        assert(a =~= seq![a[0]] + ta);
        assert(b =~= seq![b[0]] + tb);
    }
}

/// Adds `x` to a sorted list of distinct paths, keeping it so.
fn insert_sorted(v: &mut Vec<String>, x: &str)
    requires
        strictly_sorted(views(old(v)@)),
    ensures
        strictly_sorted(views(final(v)@)),
        views(final(v)@).to_set() == views(old(v)@).to_set().insert(x@),
{
    let ghost s = views(v@);
    let n = v.len();
    let mut p: usize = 0;
    while p < n && str_lt(v[p].as_str(), x)
        invariant
            n == v@.len(),
            s == views(v@),
            p <= n,
            forall|q: int| 0 <= q < p ==> lex_lt(#[trigger] s[q], x@),
        decreases n - p,
    {
        p += 1;
    }
    if p < n && str_eq(v[p].as_str(), x) {
        proof {
            assert(s[p as int] == x@);
            assert(s.to_set().contains(x@));
            assert(s.to_set().insert(x@) =~= s.to_set());
        }
        return;
    }
    proof {
        if p < n {
            assert(s[p as int] != x@);
            lemma_lex_total(s[p as int], x@);
            assert(lex_lt(x@, s[p as int]));
            assert forall|q: int| p < q < s.len() implies lex_lt(x@, #[trigger] s[q]) by {
                assert(lex_lt(s[p as int], s[q]));
                lemma_lex_transitive(x@, s[p as int], s[q]);
            }
        }
    }
    v.insert(p, owned(x));
    proof {
        let t = views(v@);
        assert(t =~= s.insert(p as int, x@));
        assert forall|i: int, j: int| 0 <= i < j < t.len() implies lex_lt(#[trigger] t[i], #[trigger] t[j]) by {
            if j < p {
            } else if j == p {
            } else if i < p {
                assert(t[j] == s[j - 1]);
                assert(lex_lt(s[i], s[j - 1]));
            } else if i == p {
                assert(t[j] == s[j - 1]);
            } else {
                assert(t[i] == s[i - 1] && t[j] == s[j - 1]);
            }
        }
        assert forall|e: Seq<char>| #[trigger] t.to_set().contains(e) == s.to_set().insert(x@).contains(e) by {
            if t.to_set().contains(e) {
                let k = choose|k: int| 0 <= k < t.len() && t[k] == e;
                if k < p {
                    assert(s[k] == e);
                } else if k > p {
                    assert(s[k - 1] == e);
                }
            }
            if s.to_set().contains(e) {
                let k = choose|k: int| 0 <= k < s.len() && s[k] == e;
                if k < p {
                    assert(t[k] == e);
                } else {
                    assert(t[k + 1] == e);
                }
            }
            if e == x@ {
                assert(t[p as int] == e);
            }
        }
        assert(t.to_set() =~= s.to_set().insert(x@));
    }
}

/// The paths a reading tool's call names, sorted, each once.
pub fn extract_accessed_paths(tool: &str, ti: &ToolInput) -> (r: Vec<String>)
    ensures
        views(r@) == accessed_paths(tool@, *ti),
        strictly_sorted(views(r@)),
        views(r@).to_set() == accessed_set(tool@, *ti),
{
    let mut out: Vec<String> = Vec::new();
    let ghost cands = candidate_paths(*ti);
    assert(views(out@) =~= Seq::<Seq<char>>::empty());
    if str_eq(tool, "Read") || str_eq(tool, "LS") || str_eq(tool, "Glob") || str_eq(tool, "Grep") {
        let ghost head = opt_seq(ti.file_path) + opt_seq(ti.path);
        match &ti.file_path {
            Some(p) => insert_sorted(&mut out, p.as_str()),
            None => {},
        }
        match &ti.path {
            Some(p) => insert_sorted(&mut out, p.as_str()),
            None => {},
        }
        proof {
            assert(views(out@).to_set() =~= head.to_set()) by {
                assert(Seq::<Seq<char>>::empty().to_set() =~= Set::<Seq<char>>::empty());
                assert forall|e: Seq<char>| #[trigger] head.to_set().contains(e) == views(out@).to_set().contains(e) by {
                    if head.to_set().contains(e) {
                        let k = choose|k: int| 0 <= k < head.len() && head[k] == e;
                    }
                    if ti.file_path is Some {
                        assert(head[0] == text_of(ti.file_path));
                    }
                    if ti.path is Some {
                        assert(head[head.len() - 1] == text_of(ti.path));
                    }
                }
            }
        }
        let mut i: usize = 0;
        while i < ti.paths.len()
            invariant
                i <= ti.paths@.len(),
                head == opt_seq(ti.file_path) + opt_seq(ti.path),
                strictly_sorted(views(out@)),
                views(out@).to_set() == (head + views(ti.paths@).take(i as int)).to_set(),
            decreases ti.paths@.len() - i,
        {
            insert_sorted(&mut out, ti.paths[i].as_str());
            proof {
                let vp = views(ti.paths@);
                assert(head + vp.take(i as int + 1) =~= (head + vp.take(i as int)).push(vp[i as int]));
                (head + vp.take(i as int)).lemma_push_to_set_commute(vp[i as int]);
            }
            i += 1;
        }
        proof {
            assert(views(ti.paths@).take(ti.paths@.len() as int) =~= views(ti.paths@));
            assert(head + views(ti.paths@) =~= cands);
        }
    }
    proof {
        assert(strictly_sorted(views(out@)) && views(out@).to_set() == accessed_set(tool@, *ti));
        let c = accessed_paths(tool@, *ti);
        lemma_sorted_unique(views(out@), c);
    }
    out
}

/// The file a call writes, by its text.
pub open spec fn written_file(tool: Seq<char>, ti: ToolInput) -> Option<Seq<char>> {
    if writes_file(tool) {
        match ti.file_path {
            Some(p) => Some(p@),
            None => None,
        }
    } else {
        None
    }
}

/// The relation recorded for a call.
#[derive(Debug, Clone, Copy, PartialEq, Eq, Structural)]
pub enum RelationKind {
    /// The session read the file (`accessed`).
    Accessed,
    /// The session wrote the file (`modified`).
    Modified,
    /// The call failed (`observed_in`).
    Failure,
}

/// What an endpoint of a recorded edge stands for.
#[derive(Debug, Clone, Copy, PartialEq, Eq, Structural)]
pub enum EndpointKind {
    Session,
    File,
    Project,
    Failure,
}

/// One end of a recorded edge: its kind, its name, the file it is (for a
/// file) and its data fields.
#[derive(Debug)]
pub struct Endpoint {
    pub kind: EndpointKind,
    pub name: String,
    pub file_path: Option<String>,
    pub data: Vec<(String, String)>,
}

/// The kind of a recorded edge.
#[derive(Debug, Clone, Copy, PartialEq, Eq, Structural)]
pub enum EdgeKind {
    /// `accessed`: a session read a file.
    Accessed,
    /// `modified`: a session wrote a file.
    Modified,
    /// `observed_in`: a failure happened in a session.
    ObservedIn,
    /// `belongs_to_project`: a file or failure belongs to the project.
    BelongsToProject,
}

/// An edge the hook records: from one endpoint to another, with its data
/// fields.
#[derive(Debug)]
pub struct Relation {
    pub from: Endpoint,
    pub to: Endpoint,
    pub edge: EdgeKind,
    pub data: Vec<(String, String)>,
}

/// A graph event the hook records for a call.
#[derive(Debug)]
pub struct RelationEvent {
    pub session_id: String,
    pub tool_name: String,
    pub kind: RelationKind,
    pub file_path: Option<String>,
    pub entity_id: String,
    pub relations: Vec<Relation>,
}

impl EdgeKind {
    /// The edge's name in the graph.
    pub fn name(&self) -> (r: &'static str)
        ensures
            r@ == edge_name(*self),
    {
        match self {
            EdgeKind::Accessed => "accessed",
            EdgeKind::Modified => "modified",
            EdgeKind::ObservedIn => "observed_in",
            EdgeKind::BelongsToProject => "belongs_to_project",
        }
    }
}

impl RelationKind {
    /// The event type recorded for the relation.
    pub fn event_type(&self) -> (r: &'static str)
        ensures
            r@ == event_type_name(*self),
    {
        match self {
            RelationKind::Failure => "tool_failure",
            _ => "tool_relation",
        }
    }
}

pub open spec fn edge_name(e: EdgeKind) -> Seq<char> {
    match e {
        EdgeKind::Accessed => "accessed"@,
        EdgeKind::Modified => "modified"@,
        EdgeKind::ObservedIn => "observed_in"@,
        EdgeKind::BelongsToProject => "belongs_to_project"@,
    }
}

pub open spec fn event_type_name(k: RelationKind) -> Seq<char> {
    match k {
        RelationKind::Failure => "tool_failure"@,
        _ => "tool_relation"@,
    }
}

/// Data fields by their names and values.
pub type FieldsView = Seq<(Seq<char>, Seq<char>)>;

/// An endpoint by its kind, name, file and data.
pub type EndpointView = (EndpointKind, Seq<char>, Option<Seq<char>>, FieldsView);

/// An edge by its kind, endpoints and data.
pub type RelationView = (EdgeKind, EndpointView, EndpointView, FieldsView);

/// An event by its kind, file, entity id, edges, session and tool.
pub type EventView = (RelationKind, Option<Seq<char>>, Seq<char>, Seq<RelationView>, Seq<char>, Seq<char>);

pub open spec fn fields_view(v: Seq<(String, String)>) -> FieldsView {
    v.map_values(|f: (String, String)| (f.0@, f.1@))
}

pub open spec fn opt_view(o: Option<String>) -> Option<Seq<char>> {
    match o {
        Some(s) => Some(s@),
        None => None,
    }
}

pub open spec fn endpoint_view(e: Endpoint) -> EndpointView {
    (e.kind, e.name@, opt_view(e.file_path), fields_view(e.data@))
}

pub open spec fn relation_view(r: Relation) -> RelationView {
    (r.edge, endpoint_view(r.from), endpoint_view(r.to), fields_view(r.data@))
}

pub open spec fn event_view(e: RelationEvent) -> EventView {
    (
        e.kind,
        opt_view(e.file_path),
        e.entity_id@,
        e.relations@.map_values(|r: Relation| relation_view(r)),
        e.session_id@,
        e.tool_name@,
    )
}

/// The session endpoint: `{client}:{session}`, the client being the tool
/// whose session it is.
pub open spec fn session_ep(client: Seq<char>, sid: Seq<char>) -> EndpointView {
    (EndpointKind::Session, client + ":"@ + sid, None, seq![("session_id"@, sid)])
}

pub open spec fn file_ep(path: Seq<char>) -> EndpointView {
    (EndpointKind::File, path, Some(path), seq![("file_path"@, path)])
}

pub open spec fn project_ep(project: Seq<char>) -> EndpointView {
    (EndpointKind::Project, project, None, seq![("project_id"@, project)])
}

/// The failure endpoint: `tool:{tool}:error`.
pub open spec fn failure_ep(tool: Seq<char>) -> EndpointView {
    (EndpointKind::Failure, "tool:"@ + tool + ":error"@, None, seq![("tool_name"@, tool), ("failure_type"@, "tool_error"@)])
}

/// The data of a session's edge to a file: the tool and the source.
pub open spec fn tool_fields(tool: Seq<char>) -> FieldsView {
    seq![("tool_name"@, tool), ("source"@, "envoy-hook"@)]
}

/// The data of the other edges: the source.
pub open spec fn source_fields() -> FieldsView {
    seq![("source"@, "envoy-hook"@)]
}

/// The edges of a file event: the session to the file, the file to the
/// project.
pub open spec fn file_relations(client: Seq<char>, sid: Seq<char>, project: Seq<char>, tool: Seq<char>, path: Seq<char>, edge: EdgeKind) -> Seq<
    RelationView,
> {
    seq![
        (edge, session_ep(client, sid), file_ep(path), tool_fields(tool)),
        (EdgeKind::BelongsToProject, file_ep(path), project_ep(project), source_fields()),
    ]
}

/// The edges of a failure event: the failure to the session, the failure to
/// the project.
pub open spec fn failure_relations(client: Seq<char>, sid: Seq<char>, project: Seq<char>, tool: Seq<char>) -> Seq<RelationView> {
    seq![
        (EdgeKind::ObservedIn, failure_ep(tool), session_ep(client, sid), source_fields()),
        (EdgeKind::BelongsToProject, failure_ep(tool), project_ep(project), source_fields()),
    ]
}

/// The events of a call: one `accessed` per path read, a `modified` for the
/// file a successful write names, and a failure for a failed call; each
/// with its edges, the second tying the file or failure to the project.
pub open spec fn relation_events(
    client: Seq<char>,
    sid: Seq<char>,
    project: Seq<char>,
    tool: Seq<char>,
    paths: Seq<Seq<char>>,
    written: Option<Seq<char>>,
    exit: Seq<char>,
) -> Seq<EventView> {
    paths.map_values(
        |p: Seq<char>|
            (
                RelationKind::Accessed,
                Some(p),
                sid + ":"@ + tool + ":"@ + p + ":accessed"@,
                file_relations(client, sid, project, tool, p, EdgeKind::Accessed),
                sid,
                tool,
            ),
    ) + (if exit == "success"@ && written is Some {
        seq![
            (
                RelationKind::Modified,
                written,
                sid + ":"@ + tool + ":"@ + written->Some_0 + ":modified"@,
                file_relations(client, sid, project, tool, written->Some_0, EdgeKind::Modified),
                sid,
                tool,
            ),
        ]
    } else {
        Seq::empty()
    }) + (if exit == "error"@ {
        seq![
            (
                RelationKind::Failure,
                None,
                sid + ":"@ + tool + ":error"@,
                failure_relations(client, sid, project, tool),
                sid,
                tool,
            ),
        ]
    } else {
        Seq::empty()
    })
}

fn entity_id(sid: &str, tool: &str, path: &str, suffix: &str) -> (r: String)
    ensures
        r@ == sid@ + ":"@ + tool@ + ":"@ + path@ + suffix@,
{
    let mut s = owned(sid);
    push_str(&mut s, ":");
    push_str(&mut s, tool);
    push_str(&mut s, ":");
    push_str(&mut s, path);
    push_str(&mut s, suffix);
    s
}

/// A data field.
fn field(name: &str, value: &str) -> (r: (String, String))
    ensures
        r.0@ == name@,
        r.1@ == value@,
{
    (owned(name), owned(value))
}

fn one_field(name: &str, value: &str) -> (r: Vec<(String, String)>)
    ensures
        fields_view(r@) == seq![(name@, value@)],
{
    let mut v: Vec<(String, String)> = Vec::new();
    v.push(field(name, value));
    assert(fields_view(v@) =~= seq![(name@, value@)]);
    v
}

fn two_fields(n1: &str, v1: &str, n2: &str, v2: &str) -> (r: Vec<(String, String)>)
    ensures
        fields_view(r@) == seq![(n1@, v1@), (n2@, v2@)],
{
    let mut v: Vec<(String, String)> = Vec::new();
    v.push(field(n1, v1));
    v.push(field(n2, v2));
    assert(fields_view(v@) =~= seq![(n1@, v1@), (n2@, v2@)]);
    v
}

fn session_endpoint(client: &str, sid: &str) -> (r: Endpoint)
    ensures
        endpoint_view(r) == session_ep(client@, sid@),
{
    let mut name = owned(client);
    push_str(&mut name, ":");
    push_str(&mut name, sid);
    Endpoint { kind: EndpointKind::Session, name, file_path: None, data: one_field("session_id", sid) }
}

fn file_endpoint(path: &str) -> (r: Endpoint)
    ensures
        endpoint_view(r) == file_ep(path@),
{
    Endpoint { kind: EndpointKind::File, name: owned(path), file_path: Some(owned(path)), data: one_field("file_path", path) }
}

fn project_endpoint(project: &str) -> (r: Endpoint)
    ensures
        endpoint_view(r) == project_ep(project@),
{
    Endpoint { kind: EndpointKind::Project, name: owned(project), file_path: None, data: one_field("project_id", project) }
}

fn failure_endpoint(tool: &str) -> (r: Endpoint)
    ensures
        endpoint_view(r) == failure_ep(tool@),
{
    let mut name = owned("tool:");
    push_str(&mut name, tool);
    push_str(&mut name, ":error");
    Endpoint {
        kind: EndpointKind::Failure,
        name,
        file_path: None,
        data: two_fields("tool_name", tool, "failure_type", "tool_error"),
    }
}

/// The event for a file the session read or wrote.
fn file_event(client: &str, sid: &str, project: &str, tool: &str, path: &str, edge: EdgeKind) -> (r: RelationEvent)
    requires
        edge == EdgeKind::Accessed || edge == EdgeKind::Modified,
    ensures
        event_view(r) == (
            if edge == EdgeKind::Accessed { RelationKind::Accessed } else { RelationKind::Modified },
            Some(path@),
            sid@ + ":"@ + tool@ + ":"@ + path@ + (if edge == EdgeKind::Accessed { ":accessed"@ } else { ":modified"@ }),
            file_relations(client@, sid@, project@, tool@, path@, edge),
            sid@,
            tool@,
        ),
{
    let mut relations: Vec<Relation> = Vec::new();
    relations.push(
        Relation {
            from: session_endpoint(client, sid),
            to: file_endpoint(path),
            edge,
            data: two_fields("tool_name", tool, "source", "envoy-hook"),
        },
    );
    relations.push(
        Relation {
            from: file_endpoint(path),
            to: project_endpoint(project),
            edge: EdgeKind::BelongsToProject,
            data: one_field("source", "envoy-hook"),
        },
    );
    let (kind, suffix) = match edge {
        EdgeKind::Accessed => (RelationKind::Accessed, ":accessed"),
        _ => (RelationKind::Modified, ":modified"),
    };
    let r = RelationEvent {
        session_id: owned(sid),
        tool_name: owned(tool),
        kind,
        file_path: Some(owned(path)),
        entity_id: entity_id(sid, tool, path, suffix),
        relations,
    };
    assert(r.relations@.map_values(|x: Relation| relation_view(x)) =~= file_relations(client@, sid@, project@, tool@, path@, edge));
    r
}

/// The event for a failed call.
fn failure_event(client: &str, sid: &str, project: &str, tool: &str) -> (r: RelationEvent)
    ensures
        event_view(r) == (
            RelationKind::Failure,
            None::<Seq<char>>,
            sid@ + ":"@ + tool@ + ":error"@,
            failure_relations(client@, sid@, project@, tool@),
            sid@,
            tool@,
        ),
{
    let mut id = owned(sid);
    push_str(&mut id, ":");
    push_str(&mut id, tool);
    push_str(&mut id, ":error");
    let mut relations: Vec<Relation> = Vec::new();
    relations.push(
        Relation {
            from: failure_endpoint(tool),
            to: session_endpoint(client, sid),
            edge: EdgeKind::ObservedIn,
            data: one_field("source", "envoy-hook"),
        },
    );
    relations.push(
        Relation {
            from: failure_endpoint(tool),
            to: project_endpoint(project),
            edge: EdgeKind::BelongsToProject,
            data: one_field("source", "envoy-hook"),
        },
    );
    let r = RelationEvent {
        session_id: owned(sid),
        tool_name: owned(tool),
        kind: RelationKind::Failure,
        file_path: None,
        entity_id: id,
        relations,
    };
    assert(r.relations@.map_values(|x: Relation| relation_view(x)) =~= failure_relations(client@, sid@, project@, tool@));
    r
}

/// The graph events a call records for the session in the project;
/// `client` names the tool whose session it is (the session endpoint is
/// `{client}:{session}`).
pub fn tool_relation_events(client: &str, sid: &str, project: &str, tool: &str, ti: &ToolInput, exit: &str) -> (r: Vec<
    RelationEvent,
>)
    ensures
        r@.map_values(|e: RelationEvent| event_view(e)) == relation_events(
            client@,
            sid@,
            project@,
            tool@,
            accessed_paths(tool@, *ti),
            written_file(tool@, *ti),
            exit@,
        ),
{
    let paths = extract_accessed_paths(tool, ti);
    let ghost ps = views(paths@);
    let mut out: Vec<RelationEvent> = Vec::new();
    let mut i: usize = 0;
    while i < paths.len()
        invariant
            i <= paths@.len(),
            ps == views(paths@),
            out@.map_values(|e: RelationEvent| event_view(e)) == ps.take(i as int).map_values(
                |p: Seq<char>|
                    (
                        RelationKind::Accessed,
                        Some(p),
                        sid@ + ":"@ + tool@ + ":"@ + p + ":accessed"@,
                        file_relations(client@, sid@, project@, tool@, p, EdgeKind::Accessed),
                        sid@,
                        tool@,
                    ),
            ),
        decreases paths@.len() - i,
    {
        let p = paths[i].as_str();
        let ev = file_event(client, sid, project, tool, p, EdgeKind::Accessed);
        proof {
            assert(ps[i as int] == p@);
            assert(ps.take(i as int + 1) =~= ps.take(i as int).push(p@));
            assert(out@.push(ev).map_values(|e: RelationEvent| event_view(e)) =~= out@.map_values(
                |e: RelationEvent| event_view(e),
            ).push(event_view(ev)));
        }
        out.push(ev);
        i += 1;
    }
    proof {
        assert(ps.take(ps.len() as int) =~= ps);
    }
    let written = extract_file_path(tool, ti);
    if str_eq(exit, "success") {
        match &written {
            Some(w) => {
                let ev = file_event(client, sid, project, tool, w.as_str(), EdgeKind::Modified);
                proof {
                    assert(out@.push(ev).map_values(|e: RelationEvent| event_view(e)) =~= out@.map_values(
                        |e: RelationEvent| event_view(e),
                    ).push(event_view(ev)));
                }
                out.push(ev);
            },
            None => {},
        }
    }
    if str_eq(exit, "error") {
        let ev = failure_event(client, sid, project, tool);
        proof {
            assert(out@.push(ev).map_values(|e: RelationEvent| event_view(e)) =~= out@.map_values(
                |e: RelationEvent| event_view(e),
            ).push(event_view(ev)));
        }
        out.push(ev);
    }
    proof {
        reveal_strlit("success");
        reveal_strlit("error");
        assert("success"@ != "error"@) by {
            assert("success"@.len() != "error"@.len());
        }
        let w = written_file(tool@, *ti);
        let spec_seq = relation_events(client@, sid@, project@, tool@, ps, w, exit@);
        assert(out@.map_values(|e: RelationEvent| event_view(e)) =~= spec_seq);
    }
    out
}

/// The suite a shell command runs, judged by how it starts once trimmed.
pub open spec fn test_suite_of(command: Seq<char>) -> Option<Seq<char>> {
    let t = trimmed(command);
    if has_prefix(t, "cargo test"@) {
        Some("cargo"@)
    } else if has_prefix(t, "pytest"@) || has_prefix(t, "python -m pytest"@) {
        Some("pytest"@)
    } else if has_prefix(t, "go test"@) {
        Some("go"@)
    } else if has_prefix(t, "npm test"@) || has_prefix(t, "pnpm test"@) || has_prefix(t, "yarn test"@) || has_prefix(
        t,
        "bun test"@,
    ) {
        Some("js-test"@)
    } else {
        None
    }
}

/// Two prefixes that differ at a position they both have cannot both start
/// one text.
proof fn lemma_prefixes_clash(t: Seq<char>, a: Seq<char>, b: Seq<char>, i: int)
    requires
        0 <= i < a.len(),
        i < b.len(),
        a[i] != b[i],
    ensures
        !(has_prefix(t, a) && has_prefix(t, b)),
{
    if has_prefix(t, a) && has_prefix(t, b) {
        assert(t.take(a.len() as int)[i] == t[i]);
        assert(t.take(b.len() as int)[i] == t[i]);
    }
}

/// Which suite a shell command runs, by how it starts once trimmed:
/// `cargo test` is cargo's, `pytest` and `python -m pytest` are pytest's,
/// `go test` is go's, `npm test`, `pnpm test`, `yarn test` and `bun test`
/// are JavaScript test runs, and a command starting with none of these is
/// no test run.
pub proof fn law_test_suites(command: Seq<char>)
    ensures
        has_prefix(trimmed(command), "cargo test"@) ==> test_suite_of(command) == Some("cargo"@),
        has_prefix(trimmed(command), "pytest"@) || has_prefix(trimmed(command), "python -m pytest"@) ==> test_suite_of(
            command,
        ) == Some("pytest"@),
        has_prefix(trimmed(command), "go test"@) ==> test_suite_of(command) == Some("go"@),
        has_prefix(trimmed(command), "npm test"@) || has_prefix(trimmed(command), "pnpm test"@) || has_prefix(
            trimmed(command),
            "yarn test"@,
        ) || has_prefix(trimmed(command), "bun test"@) ==> test_suite_of(command) == Some("js-test"@),
        !has_prefix(trimmed(command), "cargo test"@) && !has_prefix(trimmed(command), "pytest"@) && !has_prefix(
            trimmed(command),
            "python -m pytest"@,
        ) && !has_prefix(trimmed(command), "go test"@) && !has_prefix(trimmed(command), "npm test"@) && !has_prefix(
            trimmed(command),
            "pnpm test"@,
        ) && !has_prefix(trimmed(command), "yarn test"@) && !has_prefix(trimmed(command), "bun test"@)
            ==> test_suite_of(command) is None,
{
    reveal_strlit("cargo test");
    reveal_strlit("pytest");
    reveal_strlit("python -m pytest");
    reveal_strlit("go test");
    reveal_strlit("npm test");
    reveal_strlit("pnpm test");
    reveal_strlit("yarn test");
    reveal_strlit("bun test");
    let t = trimmed(command);
    let cargo = "cargo test"@;
    let py = "pytest"@;
    let pym = "python -m pytest"@;
    let go = "go test"@;
    // the first letters tell the prefixes apart, and `pnpm` from `py…` the second
    lemma_prefixes_clash(t, py, cargo, 0);
    lemma_prefixes_clash(t, pym, cargo, 0);
    lemma_prefixes_clash(t, go, cargo, 0);
    lemma_prefixes_clash(t, go, py, 0);
    lemma_prefixes_clash(t, go, pym, 0);
    lemma_prefixes_clash(t, "npm test"@, cargo, 0);
    lemma_prefixes_clash(t, "npm test"@, py, 0);
    lemma_prefixes_clash(t, "npm test"@, pym, 0);
    lemma_prefixes_clash(t, "npm test"@, go, 0);
    lemma_prefixes_clash(t, "pnpm test"@, cargo, 0);
    lemma_prefixes_clash(t, "pnpm test"@, py, 1);
    lemma_prefixes_clash(t, "pnpm test"@, pym, 1);
    lemma_prefixes_clash(t, "pnpm test"@, go, 0);
    lemma_prefixes_clash(t, "yarn test"@, cargo, 0);
    lemma_prefixes_clash(t, "yarn test"@, py, 0);
    lemma_prefixes_clash(t, "yarn test"@, pym, 0);
    lemma_prefixes_clash(t, "yarn test"@, go, 0);
    lemma_prefixes_clash(t, "bun test"@, cargo, 0);
    lemma_prefixes_clash(t, "bun test"@, py, 0);
    lemma_prefixes_clash(t, "bun test"@, pym, 0);
    lemma_prefixes_clash(t, "bun test"@, go, 0);
}

pub fn infer_test_suite(command: &str) -> (r: Option<&'static str>)
    ensures
        match r {
            Some(s) => test_suite_of(command@) == Some(s@),
            None => test_suite_of(command@) is None,
        },
        has_prefix(trimmed(command@), "npm test"@) || has_prefix(trimmed(command@), "pnpm test"@) || has_prefix(
            trimmed(command@),
            "yarn test"@,
        ) || has_prefix(trimmed(command@), "bun test"@) ==> (r matches Some(s) && s@ == "js-test"@),
        has_prefix(trimmed(command@), "cargo test"@) ==> (r matches Some(s) && s@ == "cargo"@),
{
    proof {
        law_test_suites(command@);
    }
    let t = trim_chars(&chars_of(command));
    if starts_with(&t, "cargo test") {
        Some("cargo")
    } else if starts_with(&t, "pytest") || starts_with(&t, "python -m pytest") {
        Some("pytest")
    } else if starts_with(&t, "go test") {
        Some("go")
    } else if starts_with(&t, "npm test") || starts_with(&t, "pnpm test") || starts_with(&t, "yarn test")
        || starts_with(&t, "bun test") {
        Some("js-test")
    } else {
        None
    }
}

/// A test run the hook reports for a shell call.
#[derive(Debug)]
pub struct TestRun {
    pub test_name: String,
    pub test_suite: String,
    pub test_command: String,
    pub passed: bool,
}

/// A `Bash` call whose command runs a known test suite is reported as a
/// test run, named by its command shortened to 200 characters, passed when
/// the call succeeded.
pub fn maybe_test_run(tool: &str, ti: &ToolInput, exit: &str) -> (r: Option<TestRun>)
    ensures
        r is Some <==> (tool@ == "Bash"@ && (ti.command matches Some(c) && test_suite_of(c@) is Some)),
        r matches Some(t) ==> (ti.command matches Some(c) && test_suite_of(c@) == Some(t.test_suite@)
            && t.test_command@ == c@ && t.test_name@ == truncated(c@, 200)) && t.passed == (exit@ == "success"@),
{
    if !str_eq(tool, "Bash") {
        return None;
    }
    match &ti.command {
        None => None,
        Some(c) => match infer_test_suite(c.as_str()) {
            None => None,
            Some(suite) => Some(
                TestRun {
                    test_name: truncate(c.as_str(), 200),
                    test_suite: owned(suite),
                    test_command: c.clone(),
                    passed: str_eq(exit, "success"),
                },
            ),
        },
    }
}

/// Whether `u32::from_str` accepts `s`.
pub open spec fn parses_as_u32(s: Seq<char>) -> bool {
    &&& unsigned_digits(s).len() > 0
    &&& all_digits(unsigned_digits(s))
    &&& digits_value(unsigned_digits(s)) <= u32::MAX
}

/// `s.parse::<u32>().unwrap_or(0)`.
pub open spec fn u32_or_zero(s: Seq<char>) -> u32 {
    if parses_as_u32(s) {
        digits_value(unsigned_digits(s)) as u32
    } else {
        0
    }
}

fn parse_u32_or_zero(cs: &Vec<char>) -> (r: u32)
    ensures
        r == u32_or_zero(cs@),
{
    let start: usize = if cs.len() > 0 && cs[0] == '+' { 1 } else { 0 };
    let ghost d = unsigned_digits(cs@);
    assert(d =~= cs@.skip(start as int));
    if start >= cs.len() {
        return 0;
    }
    let mut value: u32 = 0;
    let mut i: usize = start;
    while i < cs.len()
        invariant
            start <= i <= cs@.len(),
            d == cs@.skip(start as int),
            d == unsigned_digits(cs@),
            d.len() > 0,
            forall|j: int| 0 <= j < i - start ==> is_digit(#[trigger] d[j]),
            value == digits_value(d.take(i - start)),
        decreases cs@.len() - i,
    {
        let c = cs[i];
        assert(d[i - start] == c);
        if !('0' <= c && c <= '9') {
            assert(!is_digit(d[i - start]));
            assert(!all_digits(d));
            return 0;
        }
        let digit = (c as u32 - 48) as u32;
        assert(d.take(i - start + 1).drop_last() =~= d.take(i - start));
        assert(d.take(i - start + 1).last() == c);
        assert(digits_value(d.take(i - start + 1)) == value * 10 + digit);
        if value > 429496729 || (value == 429496729 && digit > 5) {
            proof {
                assert(value * 10 + digit > u32::MAX) by (nonlinear_arith)
                    requires value > 429496729 || (value == 429496729 && digit > 5);
                lemma_digits_value_grows(d, i - start + 1);
            }
            return 0;
        }
        value = value * 10 + digit;
        i += 1;
    }
    assert(d.take(i - start) =~= d);
    value
}

/// One line of `git diff --numstat`: the file, lines added and deleted (a
/// count that does not read as a number counts 0).
pub open spec fn numstat_entry(l: Seq<char>) -> Option<(Seq<char>, u32, u32)> {
    match three_fields(l, '\t') {
        Some((a, d, f)) => Some((f, u32_or_zero(a), u32_or_zero(d))),
        None => None,
    }
}

pub open spec fn numstat_entries(ls: Seq<Seq<char>>) -> Seq<(Seq<char>, u32, u32)>
    decreases ls.len(),
{
    if ls.len() == 0 {
        Seq::empty()
    } else {
        let prev = numstat_entries(ls.drop_last());
        match numstat_entry(ls.last()) {
            Some(e) => prev.push(e),
            None => prev,
        }
    }
}

/// The first 50 entries of a trimmed `git diff --numstat` output.
pub open spec fn numstat_of(out: Seq<char>) -> Seq<(Seq<char>, u32, u32)> {
    let es = numstat_entries(lines_of(trimmed(out)));
    if es.len() > 50 {
        es.take(50)
    } else {
        es
    }
}

fn numstat_line(l: &Vec<char>) -> (r: Option<(String, u32, u32)>)
    ensures
        match r {
            Some((f, a, d)) => numstat_entry(l@) == Some((f@, a, d)),
            None => numstat_entry(l@) is None,
        },
{
    match split3(l, '\t') {
        Some((a, b, f)) => Some((string_of(&f), parse_u32_or_zero(&a), parse_u32_or_zero(&b))),
        None => None,
    }
}

/// The (file, added, deleted) triples of a `git diff --numstat` output,
/// at most 50.
pub fn parse_numstat(out: &str) -> (r: Vec<(String, u32, u32)>)
    ensures
        r@.map_values(|e: (String, u32, u32)| (e.0@, e.1, e.2)) == numstat_of(out@),
{
    let t = string_of(&trim_chars(&chars_of(out)));
    let ls = lines(t.as_str());
    let ghost lv = ls@.map_values(|l: Vec<char>| l@);
    let mut res: Vec<(String, u32, u32)> = Vec::new();
    let mut i: usize = 0;
    while i < ls.len() && res.len() < 50
        invariant
            i <= ls@.len(),
            lv == ls@.map_values(|l: Vec<char>| l@),
            lv == lines_of(trimmed(out@)),
            res@.len() <= 50,
            res@.map_values(|e: (String, u32, u32)| (e.0@, e.1, e.2)) == numstat_entries(lv.take(i as int)),
        decreases ls@.len() - i,
    {
        let e = numstat_line(&ls[i]);
        proof {
            assert(lv.take(i as int + 1).drop_last() =~= lv.take(i as int));
            assert(lv.take(i as int + 1).last() == ls@[i as int]@);
        }
        match e {
            Some(x) => {
                proof {
                    assert(res@.push(x).map_values(|e: (String, u32, u32)| (e.0@, e.1, e.2)) =~= res@.map_values(
                        |e: (String, u32, u32)| (e.0@, e.1, e.2),
                    ).push((x.0@, x.1, x.2)));
                }
                res.push(x);
            },
            None => {},
        }
        i += 1;
    }
    proof {
        lemma_entries_prefix(lv, i as int);
        if i == ls@.len() {
            assert(lv.take(i as int) =~= lv);
        }
        let es = numstat_entries(lv);
        let got = res@.map_values(|e: (String, u32, u32)| (e.0@, e.1, e.2));
        if es.len() > 50 {
            assert(got.len() == 50);
            assert(got =~= es.take(50));
        } else {
            assert(got.len() <= 50);
            if i < ls@.len() {
                assert(got.len() == 50);
            }
            assert(got =~= es);
        }
    }
    res
}

/// Entries of a prefix of the lines are a prefix of the entries.
proof fn lemma_entries_prefix(ls: Seq<Seq<char>>, i: int)
    requires
        0 <= i <= ls.len(),
    ensures
        numstat_entries(ls.take(i)).len() <= numstat_entries(ls).len(),
        numstat_entries(ls.take(i)) == numstat_entries(ls).take(numstat_entries(ls.take(i)).len() as int),
    decreases ls.len() - i,
{
    if i < ls.len() {
        lemma_entries_prefix(ls, i + 1);
        assert(ls.take(i + 1).drop_last() =~= ls.take(i));
        let a = numstat_entries(ls.take(i));
        let b = numstat_entries(ls.take(i + 1));
        assert(b.take(a.len() as int) =~= a);
        assert(numstat_entries(ls).take(b.len() as int).take(a.len() as int) =~= numstat_entries(ls).take(a.len() as int));
    } else {
        assert(ls.take(i) =~= ls);
        assert(numstat_entries(ls).take(numstat_entries(ls).len() as int) =~= numstat_entries(ls));
    }
}

/// The files named in a `git diff --stat` output: each line holding `|`
/// gives the text before it, trimmed; at most 20.
pub open spec fn stat_files(ls: Seq<Seq<char>>) -> Seq<Seq<char>>
    decreases ls.len(),
{
    if ls.len() == 0 {
        Seq::empty()
    } else {
        let prev = stat_files(ls.drop_last());
        if ls.last().contains('|') {
            prev.push(trimmed(first_piece(ls.last(), '|')))
        } else {
            prev
        }
    }
}

/// The discovery a failed call records: of type `ToolFailure`, aimed at
/// `tool:{tool}`, with the session and the call's summaries.
#[derive(Debug)]
pub struct ToolFailureDiscovery {
    pub discovery_type: String,
    pub target: String,
    pub session_id: String,
    pub input_summary: String,
    pub output_summary: String,
}

/// The discovery a call records: one for a failed call (`exit` is
/// `error`), with the output summary or an empty one; none otherwise.
pub fn tool_failure_discovery(
    sid: &str,
    tool: &str,
    input_summary: &str,
    output_summary: Option<&str>,
    exit: &str,
) -> (r: Option<ToolFailureDiscovery>)
    ensures
        r is Some <==> exit@ == "error"@,
        r matches Some(d) ==> d.discovery_type@ == "ToolFailure"@ && d.target@ == "tool:"@ + tool@ && d.session_id@ == sid@
            && d.input_summary@ == input_summary@ && d.output_summary@ == match output_summary {
            Some(o) => o@,
            None => ""@,
        },
{
    if !str_eq(exit, "error") {
        return None;
    }
    let mut target = owned("tool:");
    push_str(&mut target, tool);
    Some(
        ToolFailureDiscovery {
            discovery_type: owned("ToolFailure"),
            target,
            session_id: owned(sid),
            input_summary: owned(input_summary),
            output_summary: match output_summary {
                Some(o) => owned(o),
                None => owned(""),
            },
        },
    )
}

/// What a finished subagent hands over: a summary and the changed files.
#[derive(Debug)]
pub struct SubagentHandover {
    pub summary: String,
    pub files_changed: Vec<String>,
}

/// The handover of a subagent that stopped for `stop_reason`, from the
/// output of `git diff --stat`: a summary of at most 300 characters
/// (`subagent stop_reason=… diff:…`, the output trimmed) and the first 20
/// changed files.
pub fn subagent_handover(stop_reason: &str, diff_stat: &str) -> (r: SubagentHandover)
    ensures
        r.summary@ == truncated("subagent stop_reason="@ + stop_reason@ + " diff:"@ + trimmed(diff_stat@), 300),
        views(r.files_changed@) == (if stat_files(lines_of(trimmed(diff_stat@))).len() > 20 {
            stat_files(lines_of(trimmed(diff_stat@))).take(20)
        } else {
            stat_files(lines_of(trimmed(diff_stat@)))
        }),
{
    let stat = string_of(&trim_chars(&chars_of(diff_stat)));
    let mut text = owned("subagent stop_reason=");
    push_str(&mut text, stop_reason);
    push_str(&mut text, " diff:");
    push_str(&mut text, stat.as_str());
    let summary = truncate(text.as_str(), 300);
    let ls = lines(stat.as_str());
    let ghost lv = ls@.map_values(|l: Vec<char>| l@);
    let mut files: Vec<String> = Vec::new();
    let mut i: usize = 0;
    while i < ls.len() && files.len() < 20
        invariant
            i <= ls@.len(),
            lv == ls@.map_values(|l: Vec<char>| l@),
            lv == lines_of(trimmed(diff_stat@)),
            files@.len() <= 20,
            views(files@) == stat_files(lv.take(i as int)),
        decreases ls@.len() - i,
    {
        let l = &ls[i];
        proof {
            assert(lv.take(i as int + 1).drop_last() =~= lv.take(i as int));
            assert(lv.take(i as int + 1).last() == l@);
        }
        let mut has_bar = false;
        let mut j: usize = 0;
        while j < l.len()
            invariant
                j <= l@.len(),
                has_bar == exists|k: int| 0 <= k < j && l@[k] == '|',
            decreases l@.len() - j,
        {
            if l[j] == '|' {
                has_bar = true;
            }
            j += 1;
        }
        if has_bar {
            let name = string_of(&trim_chars(&piece_before(l, '|')));
            proof {
                assert(views(files@.push(name)) =~= views(files@).push(name@));
            }
            files.push(name);
        }
        i += 1;
    }
    proof {
        lemma_stat_prefix(lv, i as int);
        let fs = stat_files(lv);
        if i == ls@.len() {
            assert(lv.take(i as int) =~= lv);
        }
        if fs.len() > 20 {
            assert(files@.len() == 20);
            assert(views(files@) =~= fs.take(20));
        } else {
            assert(views(files@) =~= fs);
        }
    }
    SubagentHandover { summary, files_changed: files }
}

proof fn lemma_stat_prefix(ls: Seq<Seq<char>>, i: int)
    requires
        0 <= i <= ls.len(),
    ensures
        stat_files(ls.take(i)).len() <= stat_files(ls).len(),
        stat_files(ls.take(i)) == stat_files(ls).take(stat_files(ls.take(i)).len() as int),
    decreases ls.len() - i,
{
    if i < ls.len() {
        lemma_stat_prefix(ls, i + 1);
        assert(ls.take(i + 1).drop_last() =~= ls.take(i));
        let a = stat_files(ls.take(i));
        let b = stat_files(ls.take(i + 1));
        assert(b.take(a.len() as int) =~= a);
        assert(stat_files(ls).take(b.len() as int).take(a.len() as int) =~= stat_files(ls).take(a.len() as int));
    } else {
        assert(ls.take(i) =~= ls);
        assert(stat_files(ls).take(stat_files(ls).len() as int) =~= stat_files(ls));
    }
}

/// `s` with each space made a dash.
pub open spec fn dashed(s: Seq<char>) -> Seq<char> {
    s.map_values(|c: char| if c == ' ' { '-' } else { c })
}

/// The discovery target of a subagent's last tool, from the tool name
/// already lowercased: `subagent_` and the name with spaces made dashes.
pub fn discovery_target_from_lower(lower: &str) -> (r: String)
    ensures
        r@ == "subagent_"@ + dashed(lower@),
{
    let cs = chars_of(lower);
    let mut out = owned("subagent_");
    let mut i: usize = 0;
    while i < cs.len()
        invariant
            cs@ == lower@,
            i <= cs@.len(),
            out@ == "subagent_"@ + dashed(cs@.take(i as int)),
        decreases cs@.len() - i,
    {
        let c = if cs[i] == ' ' { '-' } else { cs[i] };
        push_char(&mut out, c);
        assert(dashed(cs@.take(i + 1)) =~= dashed(cs@.take(i as int)).push(c));
        i += 1;
    }
    assert(cs@.take(cs@.len() as int) =~= cs@);
    out
}

/// The discovery target of a subagent's last tool: `subagent_` and the
/// tool's name lowercased, spaces made dashes.
pub fn subagent_discovery_target(tool: &str) -> (r: String)
    ensures
        r@ == "subagent_"@ + dashed(lowercase_of(tool@)),
{
    let lower = lowercase(tool);
    discovery_target_from_lower(lower.as_str())
}

/// What the hook reads of a listed agent.
#[derive(Debug)]
pub struct AgentSummary {
    pub name: Option<String>,
    pub lifecycle: Option<String>,
}

/// An active agent whose name starts with the subagent prefix.
pub open spec fn active_subagent(a: AgentSummary, prefix: Seq<char>) -> bool {
    (a.name matches Some(n) && has_prefix(n@, prefix)) && (a.lifecycle matches Some(l) && l@ == "active"@)
}

/// The number of active agents named with the subagent prefix.
pub fn count_active_subagents(agents: &Vec<AgentSummary>, prefix: &str) -> (r: usize)
    ensures
        r == agents@.filter(|a: AgentSummary| active_subagent(a, prefix@)).len(),
{
    let mut n: usize = 0;
    let mut i: usize = 0;
    while i < agents.len()
        invariant
            i <= agents@.len(),
            n == agents@.take(i as int).filter(|a: AgentSummary| active_subagent(a, prefix@)).len(),
            n <= i,
        decreases agents@.len() - i,
    {
        let a = &agents[i];
        let named = match &a.name {
            Some(nm) => starts_with(&chars_of(nm.as_str()), prefix),
            None => false,
        };
        let active = match &a.lifecycle {
            Some(l) => str_eq(l.as_str(), "active"),
            None => false,
        };
        proof {
            let t = agents@.take(i as int + 1);
            assert(t.drop_last() =~= agents@.take(i as int));
            reveal_with_fuel(Seq::<_>::filter, 1);
            assert((named && active) == active_subagent(agents@[i as int], prefix@));
        }
        if named && active {
            n += 1;
        }
        i += 1;
    }
    assert(agents@.take(agents@.len() as int) =~= agents@);
    n
}

/// The name a session registers under: `main_name` for a top-level
/// session; for a subagent, the subagent prefix followed by `n + 1` when
/// `n` subagents are active.
pub fn session_agent_name(is_subagent: bool, active_subagents: usize, main_name: &str, sub_prefix: &str) -> (r: String)
    requires
        active_subagents < usize::MAX,
    ensures
        r@ == if is_subagent {
            sub_prefix@ + decimal((active_subagents + 1) as nat)
        } else {
            main_name@
        },
{
    if is_subagent {
        let mut s = owned(sub_prefix);
        push_decimal(&mut s, (active_subagents + 1) as u64);
        s
    } else {
        owned(main_name)
    }
}

/// How a session was started: `subagent` or `cli`.
pub fn session_trigger(is_subagent: bool) -> (r: &'static str)
    ensures
        r@ == (if is_subagent { "subagent"@ } else { "cli"@ }),
{
    if is_subagent {
        "subagent"
    } else {
        "cli"
    }
}

/// The stop reason a session ends with: the one given, else `end_turn`.
pub fn stop_reason(given: Option<&str>) -> (r: String)
    ensures
        r@ == match given {
            Some(s) => s@,
            None => "end_turn"@,
        },
{
    match given {
        Some(s) => owned(s),
        None => owned("end_turn"),
    }
}

/// The lowercase hexadecimal digit of `d` (below 16).
pub open spec fn hex_digit(d: nat) -> char {
    if d == 0 { '0' } else if d == 1 { '1' } else if d == 2 { '2' } else if d == 3 { '3' }
    else if d == 4 { '4' } else if d == 5 { '5' } else if d == 6 { '6' } else if d == 7 { '7' }
    else if d == 8 { '8' } else if d == 9 { '9' } else if d == 10 { 'a' } else if d == 11 { 'b' }
    else if d == 12 { 'c' } else if d == 13 { 'd' } else if d == 14 { 'e' } else { 'f' }
}

fn hex_char(d: u64) -> (c: char)
    requires
        d < 16,
    ensures
        c == hex_digit(d as nat),
{
    match d {
        0 => '0',
        1 => '1',
        2 => '2',
        3 => '3',
        4 => '4',
        5 => '5',
        6 => '6',
        7 => '7',
        8 => '8',
        9 => '9',
        10 => 'a',
        11 => 'b',
        12 => 'c',
        13 => 'd',
        14 => 'e',
        _ => 'f',
    }
}

/// Sixteen to the power `k`.
pub open spec fn pow16(k: nat) -> nat
    decreases k,
{
    if k == 0 {
        1
    } else {
        16 * pow16((k - 1) as nat)
    }
}

/// `v` in sixteen lowercase hexadecimal digits, most significant first.
pub open spec fn hex_text(v: nat) -> Seq<char> {
    Seq::new(16, |i: int| hex_digit((v / pow16((15 - i) as nat)) % 16))
}

/// `format!("{:016x}", v)`: sixteen lowercase hexadecimal digits.
pub fn hex16(v: u64) -> (r: String)
    ensures
        r@ == hex_text(v as nat),
{
    let mut out = String::new();
    let mut p: u64 = 1152921504606846976;
    let mut i: usize = 0;
    proof {
        reveal_with_fuel(pow16, 16);
        assert(pow16(15) == 1152921504606846976);
    }
    while i < 16
        invariant
            i <= 16,
            out@ == hex_text(v as nat).take(i as int),
            i < 16 ==> p as nat == pow16((15 - i) as nat),
            i < 16 ==> p > 0,
        decreases 16 - i,
    {
        let d: u64 = (v / p) % 16;
        let c = hex_char(d);
        push_char(&mut out, c);
        assert(out@ =~= hex_text(v as nat).take(i as int + 1));
        if i < 15 {
            proof {
                let k = (14 - i) as nat;
                assert(pow16(k + 1) == 16 * pow16(k));
                assert((16 * pow16(k)) / 16 == pow16(k)) by (nonlinear_arith);
                assert(pow16(k) > 0) by (nonlinear_arith)
                    requires
                        16 * pow16(k) > 0,
                ;
            }
            p = p / 16;
        }
        i += 1;
    }
    assert(hex_text(v as nat).take(16) =~= hex_text(v as nat));
    out
}

/// A hash of a text from ahash: `AHasher::default()`, `str::hash`, then
/// `finish`. The hasher's keys are drawn once per process, so nothing is
/// promised of the value.
#[verifier::external_body]
fn ahash_of(s: &str) -> u64 {
    let mut h = ahash::AHasher::default();
    std::hash::Hash::hash(s, &mut h);
    std::hash::Hasher::finish(&h)
}

/// The hash the hook reports of a payload: its ahash value in sixteen
/// hexadecimal digits (the value differs between processes).
pub fn ahash_hex(s: &str) -> (r: String)
    ensures
        exists|h: u64| r@ == #[trigger] hex_text(h as nat),
{
    let h = ahash_of(s);
    hex16(h)
}

} // verus!
