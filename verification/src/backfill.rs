//! Turning stored messages into knowledge-graph discoveries: who a message
//! is attributed to, what kind of discovery it makes and what it is about,
//! and the tally of a backfill run.

use vstd::prelude::*;
use crate::assoc::StrMap;
use crate::text::{chars_of, has_prefix, lowercase, lowercase_of, owned, push_str, starts_with, str_eq};
use vstd::utf8::{decode_utf8, encode_utf8, is_char_boundary};

verus! {

broadcast use vstd::string::group_string_axioms;

/// An agent as the backfill knows it.
#[derive(Debug)]
pub struct KnownAgent {
    pub agent_id: String,
    pub display_name: String,
    pub kind: String,
}

/// A stored agent record: its id, and its name and kind when recorded
/// (`unknown` and `worker` otherwise).
pub fn known_agent(agent_id: String, name: Option<String>, kind: Option<String>) -> (r: KnownAgent)
    ensures
        r.agent_id == agent_id,
        r.display_name@ == match name {
            Some(n) => n@,
            None => "unknown"@,
        },
        r.kind@ == match kind {
            Some(k) => k@,
            None => "worker"@,
        },
{
    KnownAgent {
        agent_id,
        display_name: match name {
            Some(n) => n,
            None => owned("unknown"),
        },
        kind: match kind {
            Some(k) => k,
            None => owned("worker"),
        },
    }
}

/// The name a message party is shown by: its display name when known,
/// else its id.
pub fn resolve_agent_name(agent_id: &str, agents: &StrMap<KnownAgent>) -> (r: String)
    requires
        agents.wf(),
    ensures
        r@ == if agents@.contains_key(agent_id@) {
            agents@[agent_id@].display_name@
        } else {
            agent_id@
        },
{
    match agents.get(agent_id) {
        Some(a) => a.display_name.clone(),
        None => owned(agent_id),
    }
}

/// Whether `p` occurs in `s`.
pub open spec fn occurs_in(s: Seq<char>, p: Seq<char>) -> bool {
    exists|i: int| 0 <= i && i + p.len() <= s.len() && #[trigger] s.subrange(i, i + p.len()) == p
}

/// `str::contains` on characters.
pub fn contains_text(s: &Vec<char>, p: &str) -> (r: bool)
    ensures
        r == occurs_in(s@, p@),
{
    let pc = chars_of(p);
    if pc.len() > s.len() {
        return false;
    }
    let last = s.len() - pc.len();
    assert(s@.len() == s.len());
    let mut i: usize = 0;
    while i <= last
        invariant
            pc@ == p@,
            pc@.len() <= s@.len(),
            s@.len() <= usize::MAX,
            last == s@.len() - pc@.len(),
            i <= last + 1,
            forall|k: int| 0 <= k < i ==> #[trigger] s@.subrange(k, k + pc@.len()) != pc@,
        decreases last + 1 - i,
    {
        let mut j: usize = 0;
        let mut same = true;
        while j < pc.len()
            invariant
                pc@ == p@,
                i <= last,
                last == s@.len() - pc@.len(),
                s@.len() <= usize::MAX,
                i + pc@.len() <= s@.len(),
                j <= pc@.len(),
                same == forall|m: int| 0 <= m < j ==> s@[i + m] == pc@[m],
            decreases pc@.len() - j,
        {
            if s[i + j] != pc[j] {
                same = false;
            }
            j += 1;
        }
        if same {
            assert(s@.subrange(i as int, i + pc@.len()) =~= pc@);
            return true;
        } else {
            proof {
                let m = choose|m: int| 0 <= m < pc@.len() && s@[i + m] != pc@[m];
                assert(s@.subrange(i as int, i + pc@.len())[m] != pc@[m]);
            }
        }
        if i == last {
            return false;
        }
        i += 1;
    }
    false
}

/// The kind of discovery a message context makes, read from the context
/// lowercased.
pub open spec fn discovery_kind(lower: Seq<char>) -> Seq<char> {
    if occurs_in(lower, "review"@) || occurs_in(lower, "pr"@) {
        "code_review"@
    } else if occurs_in(lower, "push"@) || occurs_in(lower, "commit"@) {
        "git_operation"@
    } else if occurs_in(lower, "doc"@) {
        "documentation"@
    } else if has_prefix(lower, "re:"@) {
        "response"@
    } else {
        "coordination"@
    }
}

/// The kind of discovery a message makes, from its context already
/// lowercased.
pub fn classify_lowered(lower: &str) -> (r: &'static str)
    ensures
        r@ == discovery_kind(lower@),
{
    let cs = chars_of(lower);
    if contains_text(&cs, "review") || contains_text(&cs, "pr") {
        "code_review"
    } else if contains_text(&cs, "push") || contains_text(&cs, "commit") {
        "git_operation"
    } else if contains_text(&cs, "doc") {
        "documentation"
    } else if starts_with(&cs, "re:") {
        "response"
    } else {
        "coordination"
    }
}

/// The kind of discovery a message with context `context_id` makes.
pub fn classify_discovery_type(context_id: &str) -> (r: &'static str)
    ensures
        r@ == discovery_kind(lowercase_of(context_id@)),
{
    let lower = lowercase(context_id);
    classify_lowered(lower.as_str())
}

/// What a direct message is about: its context, or `agent-coordination`
/// when it has none.
pub fn get_target(context_id: Option<&str>) -> (r: String)
    ensures
        r@ == match context_id {
            Some(c) => if c@.len() > 0 {
                c@
            } else {
                "agent-coordination"@
            },
            None => "agent-coordination"@,
        },
{
    match context_id {
        Some(c) => if c.unicode_len() > 0 {
            owned(c)
        } else {
            owned("agent-coordination")
        },
        None => owned("agent-coordination"),
    }
}

/// The texts of the parts that have one, joined by newlines.
pub open spec fn joined(texts: Seq<Option<String>>) -> Seq<char>
    decreases texts.len(),
{
    if texts.len() == 0 {
        Seq::empty()
    } else {
        let prev = joined(texts.drop_last());
        match texts.last() {
            Some(t) => if has_text_before(texts.drop_last()) {
                prev + "\n"@ + t@
            } else {
                t@
            },
            None => prev,
        }
    }
}

/// Whether any part has a text.
pub open spec fn has_text_before(texts: Seq<Option<String>>) -> bool {
    exists|i: int| 0 <= i < texts.len() && #[trigger] texts[i] is Some
}

/// A message's content: the texts of its parts, joined by newlines.
pub fn join_part_texts(texts: &Vec<Option<String>>) -> (r: String)
    ensures
        r@ == joined(texts@),
{
    let mut out = String::new();
    let mut any = false;
    let mut i: usize = 0;
    while i < texts.len()
        invariant
            i <= texts@.len(),
            any == has_text_before(texts@.take(i as int)),
            out@ == joined(texts@.take(i as int)),
        decreases texts@.len() - i,
    {
        let ghost t = texts@.take(i as int + 1);
        proof {
            assert(t.drop_last() =~= texts@.take(i as int));
            assert(t.last() == texts@[i as int]);
        }
        match &texts[i] {
            Some(s) => {
                if any {
                    push_str(&mut out, "\n");
                    push_str(&mut out, s.as_str());
                } else {
                    out = s.clone();
                    proof {
                        assert(!has_text_before(t.drop_last()));
                    }
                }
                proof {
                    assert(t[i as int] is Some);
                }
                any = true;
            },
            None => {
                proof {
                    if has_text_before(t) {
                        let k = choose|k: int| 0 <= k < t.len() && #[trigger] t[k] is Some;
                        assert(k < i);
                        assert(t.drop_last()[k] is Some);
                    }
                }
            },
        }
        proof {
            if any && !has_text_before(texts@.take(i as int)) {
                assert(t[i as int] is Some);
            }
            if has_text_before(texts@.take(i as int)) {
                let k = choose|k: int| 0 <= k < i && #[trigger] texts@.take(i as int)[k] is Some;
                assert(t[k] is Some);
            }
        }
        i += 1;
    }
    assert(texts@.take(texts@.len() as int) =~= texts@);
    out
}

/// A text cut to its first `max` bytes and marked `...[truncated]` when its
/// UTF-8 encoding is longer than `max` bytes.
pub open spec fn truncated_text(s: Seq<char>, max: nat) -> Seq<char> {
    if encode_utf8(s).len() > max {
        decode_utf8(encode_utf8(s).take(max as int)) + "...[truncated]"@
    } else {
        s
    }
}

/// Cuts a text to `max_len` bytes (which must fall on a character boundary
/// when the text is longer) and marks the cut.
pub fn truncate_text(s: &str, max_len: usize) -> (r: String)
    requires
        encode_utf8(s@).len() > max_len ==> is_char_boundary(encode_utf8(s@), max_len as int),
    ensures
        r@ == truncated_text(s@, max_len as nat),
{
    let bytes = s.as_bytes();
    if bytes.len() > max_len {
        let (head, _) = s.split_at(max_len);
        proof {
            vstd::utf8::encode_utf8_decode_utf8(head@);
            assert(encode_utf8(s@).subrange(0, max_len as int) =~= encode_utf8(s@).take(max_len as int));
        }
        let mut out = owned(head);
        push_str(&mut out, "...[truncated]");
        out
    } else {
        owned(s)
    }
}

/// What a direct message becomes in the knowledge graph.
pub struct DirectDiscovery {
    /// The sender's display name, under which the discovery is stored.
    pub from_name: String,
    /// The recipient's display name.
    pub to_name: String,
    /// What the message is about.
    pub target: String,
    /// The kind of discovery.
    pub discovery_type: &'static str,
    /// The content, cut to 10000 bytes.
    pub content: String,
    /// Whether the content was cut.
    pub truncated: bool,
}

/// A direct message as a discovery: attributed to the sender's display
/// name, about its target, classified by its context (or by the target when
/// it has none), with its content cut to 10000 bytes.
pub fn direct_discovery(
    from_agent: &str,
    to_agent: &str,
    context_id: Option<&str>,
    content: &str,
    agents: &StrMap<KnownAgent>,
) -> (r: DirectDiscovery)
    requires
        agents.wf(),
        encode_utf8(content@).len() > 10000 ==> is_char_boundary(encode_utf8(content@), 10000),
    ensures
        r.from_name@ == (if agents@.contains_key(from_agent@) {
            agents@[from_agent@].display_name@
        } else {
            from_agent@
        }),
        r.to_name@ == (if agents@.contains_key(to_agent@) {
            agents@[to_agent@].display_name@
        } else {
            to_agent@
        }),
        r.target@ == match context_id {
            Some(c) => if c@.len() > 0 {
                c@
            } else {
                "agent-coordination"@
            },
            None => "agent-coordination"@,
        },
        r.discovery_type@ == discovery_kind(
            lowercase_of(
                match context_id {
                    Some(c) => c@,
                    None => r.target@,
                },
            ),
        ),
        r.content@ == truncated_text(content@, 10000),
        r.truncated == (encode_utf8(content@).len() > 10000),
{
    let from_name = resolve_agent_name(from_agent, agents);
    let to_name = resolve_agent_name(to_agent, agents);
    let target = get_target(context_id);
    let discovery_type = match context_id {
        Some(c) => classify_discovery_type(c),
        None => classify_discovery_type(target.as_str()),
    };
    let truncated = content.as_bytes().len() > 10000;
    DirectDiscovery {
        from_name,
        to_name,
        target,
        discovery_type,
        content: truncate_text(content, 10000),
        truncated,
    }
}

/// What a system message reports: the event type it names (else
/// `system_event`), and what it is about: the hook it names, else the
/// project, else its context, else `system`.
pub fn system_discovery(
    event_type: Option<&str>,
    hook_name: Option<&str>,
    project: Option<&str>,
    context_id: Option<&str>,
) -> (r: (String, String))
    ensures
        r.0@ == match event_type {
            Some(e) => e@,
            None => "system_event"@,
        },
        r.1@ == match hook_name {
            Some(h) => h@,
            None => match project {
                Some(p) => p@,
                None => match context_id {
                    Some(c) => c@,
                    None => "system"@,
                },
            },
        },
{
    let kind = match event_type {
        Some(e) => owned(e),
        None => owned("system_event"),
    };
    let target = match hook_name {
        Some(h) => owned(h),
        None => match project {
            Some(p) => owned(p),
            None => match context_id {
                Some(c) => owned(c),
                None => owned("system"),
            },
        },
    };
    (kind, target)
}

/// Tally of a backfill run.
#[derive(Debug, Clone, Copy)]
pub struct BackfillStats {
    pub messages_processed: usize,
    pub direct_processed: usize,
    pub system_processed: usize,
    pub handoffs_processed: usize,
    pub errors: usize,
    pub discoveries_created: usize,
    pub handoffs_created: usize,
}

/// How storing one message went.
#[derive(Debug, Clone, Copy, PartialEq, Eq, Structural)]
pub enum BackfillOutcome {
    /// A direct message became a discovery.
    DirectStored,
    /// A system message became a discovery.
    SystemStored,
    /// A handoff was seen (handoffs are not stored).
    HandoffSeen,
    /// Storing failed, or the message kind is unknown.
    Failed,
}

impl BackfillStats {
    pub fn new() -> (r: Self)
        ensures
            r.messages_processed == 0 && r.direct_processed == 0 && r.system_processed == 0 && r.handoffs_processed == 0
                && r.errors == 0 && r.discoveries_created == 0 && r.handoffs_created == 0,
    {
        BackfillStats {
            messages_processed: 0,
            direct_processed: 0,
            system_processed: 0,
            handoffs_processed: 0,
            errors: 0,
            discoveries_created: 0,
            handoffs_created: 0,
        }
    }

    /// Counts one processed message and its outcome.
    pub fn record(&mut self, outcome: BackfillOutcome)
        requires
            old(self).messages_processed < usize::MAX,
            old(self).direct_processed < usize::MAX,
            old(self).system_processed < usize::MAX,
            old(self).handoffs_processed < usize::MAX,
            old(self).errors < usize::MAX,
            old(self).discoveries_created < usize::MAX,
        ensures
            final(self).messages_processed == old(self).messages_processed + 1,
            final(self).direct_processed == old(self).direct_processed + (if outcome == BackfillOutcome::DirectStored {
                1int
            } else {
                0
            }),
            final(self).system_processed == old(self).system_processed + (if outcome == BackfillOutcome::SystemStored {
                1int
            } else {
                0
            }),
            final(self).discoveries_created == old(self).discoveries_created + (if outcome
                == BackfillOutcome::DirectStored || outcome == BackfillOutcome::SystemStored {
                1int
            } else {
                0
            }),
            final(self).handoffs_processed == old(self).handoffs_processed + (if outcome == BackfillOutcome::HandoffSeen {
                1int
            } else {
                0
            }),
            final(self).errors == old(self).errors + (if outcome == BackfillOutcome::Failed {
                1int
            } else {
                0
            }),
            final(self).handoffs_created == old(self).handoffs_created,
    {
        self.messages_processed = self.messages_processed + 1;
        match outcome {
            BackfillOutcome::DirectStored => {
                self.direct_processed = self.direct_processed + 1;
                self.discoveries_created = self.discoveries_created + 1;
            },
            BackfillOutcome::SystemStored => {
                self.system_processed = self.system_processed + 1;
                self.discoveries_created = self.discoveries_created + 1;
            },
            BackfillOutcome::HandoffSeen => {
                self.handoffs_processed = self.handoffs_processed + 1;
            },
            BackfillOutcome::Failed => {
                self.errors = self.errors + 1;
            },
        }
    }
}

} // verus!
