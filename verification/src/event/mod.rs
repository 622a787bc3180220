//! Project events reported by hooks, CI, gates and doc monitors.

pub mod bus;

use vstd::prelude::*;
use crate::error::EnvoyError;
use crate::nudge::{push_signed, signed_decimal};
use crate::text::{chars_of, decimal, owned, push_char, push_decimal, push_str, str_eq};

verus! {

/// Storage kind of event records.
pub const KIND_EVENT: &'static str = "EnvoyEvent";

#[derive(Debug, Clone, Copy, PartialEq, Eq, Structural)]
pub enum EventType {
    CiStatus,
    HookResult,
    GateResult,
    DocSync,
    TaskHandoff,
    GateBlock,
    GraphRefresh,
    TaskVerify,
    AuditLog,
}

impl EventType {
    /// The wire name of an event type.
    pub open spec fn name(self) -> Seq<char> {
        match self {
            EventType::CiStatus => "ci_status"@,
            EventType::HookResult => "hook_result"@,
            EventType::GateResult => "gate_result"@,
            EventType::DocSync => "doc_sync"@,
            EventType::TaskHandoff => "task_handoff"@,
            EventType::GateBlock => "gate_block"@,
            EventType::GraphRefresh => "graph_refresh"@,
            EventType::TaskVerify => "task_verify"@,
            EventType::AuditLog => "audit_log"@,
        }
    }

    pub fn as_str(&self) -> (s: &'static str)
        ensures
            s@ == self.name(),
    {
        proof {
            reveal_strlit("ci_status");
            reveal_strlit("hook_result");
            reveal_strlit("gate_result");
            reveal_strlit("doc_sync");
            reveal_strlit("task_handoff");
            reveal_strlit("gate_block");
            reveal_strlit("graph_refresh");
            reveal_strlit("task_verify");
            reveal_strlit("audit_log");
        }
        match self {
            EventType::CiStatus => "ci_status",
            EventType::HookResult => "hook_result",
            EventType::GateResult => "gate_result",
            EventType::DocSync => "doc_sync",
            EventType::TaskHandoff => "task_handoff",
            EventType::GateBlock => "gate_block",
            EventType::GraphRefresh => "graph_refresh",
            EventType::TaskVerify => "task_verify",
            EventType::AuditLog => "audit_log",
        }
    }

    /// The event type whose wire name is `s`.
    pub fn parse(s: &str) -> (r: Result<EventType, EnvoyError>)
        ensures
            match r {
                Ok(t) => t.name() == s@,
                Err(e) => (forall|t: EventType| #[trigger] t.name() != s@) && (e matches EnvoyError::InvalidMessage(m)
                    && m@ == "unknown event type: "@ + s@),
            },
    {
        let all = [
            EventType::CiStatus,
            EventType::HookResult,
            EventType::GateResult,
            EventType::DocSync,
            EventType::TaskHandoff,
            EventType::GateBlock,
            EventType::GraphRefresh,
            EventType::TaskVerify,
            EventType::AuditLog,
        ];
        let mut i: usize = 0;
        while i < 9
            invariant
                i <= 9,
                all@ == seq![
                    EventType::CiStatus,
                    EventType::HookResult,
                    EventType::GateResult,
                    EventType::DocSync,
                    EventType::TaskHandoff,
                    EventType::GateBlock,
                    EventType::GraphRefresh,
                    EventType::TaskVerify,
                    EventType::AuditLog,
                ],
                forall|j: int| 0 <= j < i ==> all@[j].name() != s@,
            decreases 9 - i,
        {
            if str_eq(all[i].as_str(), s) {
                return Ok(all[i]);
            }
            i += 1;
        }
        proof {
            assert forall|t: EventType| #[trigger] t.name() != s@ by {
                match t {
                    EventType::CiStatus => assert(all@[0] == t),
                    EventType::HookResult => assert(all@[1] == t),
                    EventType::GateResult => assert(all@[2] == t),
                    EventType::DocSync => assert(all@[3] == t),
                    EventType::TaskHandoff => assert(all@[4] == t),
                    EventType::GateBlock => assert(all@[5] == t),
                    EventType::GraphRefresh => assert(all@[6] == t),
                    EventType::TaskVerify => assert(all@[7] == t),
                    EventType::AuditLog => assert(all@[8] == t),
                }
            }
        }
        let mut m = owned("unknown event type: ");
        push_str(&mut m, s);
        Err(EnvoyError::InvalidMessage(m))
    }
}

impl core::str::FromStr for EventType {
    type Err = EnvoyError;

    /// The event type whose wire name is `s`, as `parse` reads it.
    fn from_str(s: &str) -> (r: Result<Self, Self::Err>)
        ensures
            match r {
                Ok(t) => t.name() == s@,
                Err(e) => (forall|t: EventType| #[trigger] t.name() != s@) && (e matches EnvoyError::InvalidMessage(m)
                    && m@ == "unknown event type: "@ + s@),
            },
    {
        EventType::parse(s)
    }
}

#[derive(Debug, Clone, Copy, PartialEq, Eq, Structural)]
pub enum EventSeverity {
    Info,
    Warning,
    Blocking,
}

impl EventSeverity {
    pub open spec fn name(self) -> Seq<char> {
        match self {
            EventSeverity::Info => "info"@,
            EventSeverity::Warning => "warning"@,
            EventSeverity::Blocking => "blocking"@,
        }
    }

    pub fn as_str(&self) -> (s: &'static str)
        ensures
            s@ == self.name(),
    {
        proof {
            reveal_strlit("info");
            reveal_strlit("warning");
            reveal_strlit("blocking");
        }
        match self {
            EventSeverity::Info => "info",
            EventSeverity::Warning => "warning",
            EventSeverity::Blocking => "blocking",
        }
    }

    /// The severity a stored label reads as: `warning` and `blocking` by
    /// name, anything else as `info`.
    pub fn from_label(s: &str) -> (r: EventSeverity)
        ensures
            r == if s@ == "warning"@ {
                EventSeverity::Warning
            } else if s@ == "blocking"@ {
                EventSeverity::Blocking
            } else {
                EventSeverity::Info
            },
    {
        if str_eq(s, "warning") {
            EventSeverity::Warning
        } else if str_eq(s, "blocking") {
            EventSeverity::Blocking
        } else {
            EventSeverity::Info
        }
    }
}

#[derive(Debug, Clone)]
pub struct HookEventRequest {
    pub project: String,
    pub hook_name: String,
    pub exit_code: i32,
    pub output: String,
}

#[derive(Debug, Clone)]
pub struct GateEventRequest {
    pub project: String,
    pub gates_passed: u32,
    pub gates_total: u32,
    pub failures: Vec<String>,
}

#[derive(Debug, Clone)]
pub struct CiEventRequest {
    pub project: String,
    pub run_id: String,
    pub status: String,
    pub conclusion: Option<String>,
    pub head_branch: String,
    pub display_title: String,
}

#[derive(Debug, Clone)]
pub struct DocEventRequest {
    pub project: String,
    pub doc_files: Vec<String>,
    pub last_updated_seconds: i64,
}

#[derive(Debug, Clone)]
pub struct VerifyEventRequest {
    pub project: String,
    pub agent_id: String,
    pub task_type: String,
    pub claimed_files: Vec<String>,
    pub passed: usize,
    pub failed: usize,
    pub failures: Vec<String>,
}

/// How an incoming report becomes a project event: its type, severity,
/// source and message, and the kind under which it is broadcast to the
/// project's subscribers.
pub struct IngestPlan {
    pub event_type: EventType,
    pub severity: EventSeverity,
    pub source: String,
    pub message: String,
    pub broadcast_kind: &'static str,
}

/// The first 200 characters of a text.
pub open spec fn preview(s: Seq<char>) -> Seq<char> {
    if s.len() <= 200 {
        s
    } else {
        s.take(200)
    }
}

impl HookEventRequest {
    /// Exit code 2 blocks, any other failure warns, success informs.
    pub open spec fn severity_of(exit_code: i32) -> EventSeverity {
        if exit_code == 2 {
            EventSeverity::Blocking
        } else if exit_code != 0 {
            EventSeverity::Warning
        } else {
            EventSeverity::Info
        }
    }

    /// A hook result: source `hook:{name}`, message `Hook {name} exited
    /// {code}`, broadcast as `hook_event`.
    pub fn plan(&self) -> (r: IngestPlan)
        ensures
            r.event_type == EventType::HookResult,
            r.severity == Self::severity_of(self.exit_code),
            r.source@ == "hook:"@ + self.hook_name@,
            r.message@ == "Hook "@ + self.hook_name@ + " exited "@ + signed_decimal(self.exit_code as int),
            r.broadcast_kind@ == "hook_event"@,
    {
        let severity = if self.exit_code == 2 {
            EventSeverity::Blocking
        } else if self.exit_code != 0 {
            EventSeverity::Warning
        } else {
            EventSeverity::Info
        };
        let mut source = String::new();
        push_str(&mut source, "hook:");
        push_str(&mut source, self.hook_name.as_str());
        let mut message = String::new();
        push_str(&mut message, "Hook ");
        push_str(&mut message, self.hook_name.as_str());
        push_str(&mut message, " exited ");
        push_signed(&mut message, self.exit_code as i64);
        IngestPlan { event_type: EventType::HookResult, severity, source, message, broadcast_kind: "hook_event" }
    }

    /// The stored preview of the hook's output: its first 200 characters.
    pub fn output_preview(&self) -> (r: String)
        ensures
            r@ == preview(self.output@),
    {
        let cs = chars_of(self.output.as_str());
        let mut out = String::new();
        let mut i: usize = 0;
        while i < cs.len() && i < 200
            invariant
                i <= cs@.len(),
                i <= 200,
                out@ == cs@.take(i as int),
            decreases cs@.len() - i,
        {
            push_char(&mut out, cs[i]);
            assert(cs@.take(i + 1) =~= cs@.take(i as int).push(cs@[i as int]));
            i += 1;
        }
        assert(cs@.len() <= 200 ==> cs@.take(i as int) =~= cs@);
        out
    }
}

impl GateEventRequest {
    /// A gate result warns when some gate failed: source `gate:quality`,
    /// message `{passed}/{total} passed`, broadcast as `gate_event`.
    pub fn plan(&self) -> (r: IngestPlan)
        ensures
            r.event_type == EventType::GateResult,
            r.severity == (if self.gates_passed < self.gates_total {
                EventSeverity::Warning
            } else {
                EventSeverity::Info
            }),
            r.source@ == "gate:quality"@,
            r.message@ == decimal(self.gates_passed as nat) + "/"@ + decimal(self.gates_total as nat) + " passed"@,
            r.broadcast_kind@ == "gate_event"@,
    {
        let severity = if self.gates_passed < self.gates_total {
            EventSeverity::Warning
        } else {
            EventSeverity::Info
        };
        let mut message = String::new();
        push_decimal(&mut message, self.gates_passed as u64);
        push_str(&mut message, "/");
        push_decimal(&mut message, self.gates_total as u64);
        push_str(&mut message, " passed");
        IngestPlan {
            event_type: EventType::GateResult,
            severity,
            source: owned("gate:quality"),
            message,
            broadcast_kind: "gate_event",
        }
    }
}

impl CiEventRequest {
    /// A failed run blocks; anything else informs.
    pub open spec fn severity_of(conclusion: Option<String>) -> EventSeverity {
        match conclusion {
            Some(c) => if c@ == "failure"@ {
                EventSeverity::Blocking
            } else {
                EventSeverity::Info
            },
            None => EventSeverity::Info,
        }
    }

    /// A CI run: source `ci:github`, message `CI {run}: {conclusion}` (or
    /// `in_progress` while there is none), broadcast as `ci_event`.
    pub fn plan(&self) -> (r: IngestPlan)
        ensures
            r.event_type == EventType::CiStatus,
            r.severity == Self::severity_of(self.conclusion),
            r.source@ == "ci:github"@,
            r.message@ == "CI "@ + self.run_id@ + ": "@ + match self.conclusion {
                Some(c) => c@,
                None => "in_progress"@,
            },
            r.broadcast_kind@ == "ci_event"@,
    {
        let mut message = String::new();
        push_str(&mut message, "CI ");
        push_str(&mut message, self.run_id.as_str());
        push_str(&mut message, ": ");
        let severity = match &self.conclusion {
            Some(c) => {
                push_str(&mut message, c.as_str());
                if str_eq(c.as_str(), "failure") {
                    EventSeverity::Blocking
                } else {
                    EventSeverity::Info
                }
            },
            None => {
                push_str(&mut message, "in_progress");
                EventSeverity::Info
            },
        };
        IngestPlan {
            event_type: EventType::CiStatus,
            severity,
            source: owned("ci:github"),
            message,
            broadcast_kind: "ci_event",
        }
    }
}

impl DocEventRequest {
    /// Docs untouched for over a day warn: source `doc:wiki`, message `Docs
    /// last updated {n}s ago`, broadcast as `doc_event`.
    pub fn plan(&self) -> (r: IngestPlan)
        ensures
            r.event_type == EventType::DocSync,
            r.severity == (if self.last_updated_seconds > 86400 {
                EventSeverity::Warning
            } else {
                EventSeverity::Info
            }),
            r.source@ == "doc:wiki"@,
            r.message@ == "Docs last updated "@ + signed_decimal(self.last_updated_seconds as int) + "s ago"@,
            r.broadcast_kind@ == "doc_event"@,
    {
        let severity = if self.last_updated_seconds > 86400 {
            EventSeverity::Warning
        } else {
            EventSeverity::Info
        };
        let mut message = String::new();
        push_str(&mut message, "Docs last updated ");
        push_signed(&mut message, self.last_updated_seconds);
        push_str(&mut message, "s ago");
        IngestPlan {
            event_type: EventType::DocSync,
            severity,
            source: owned("doc:wiki"),
            message,
            broadcast_kind: "doc_event",
        }
    }
}

impl VerifyEventRequest {
    /// A deliverable check warns when any item failed: source
    /// `verify:{task_type}`, message `Deliverable verify: {passed}/{total}
    /// passed for {task_type}`, broadcast as `verify_event`.
    pub fn plan(&self) -> (r: IngestPlan)
        requires
            self.passed + self.failed <= usize::MAX,
        ensures
            r.event_type == EventType::TaskVerify,
            r.severity == (if self.failed > 0 {
                EventSeverity::Warning
            } else {
                EventSeverity::Info
            }),
            r.source@ == "verify:"@ + self.task_type@,
            r.message@ == "Deliverable verify: "@ + decimal(self.passed as nat) + "/"@ + decimal(
                (self.passed + self.failed) as nat,
            ) + " passed for "@ + self.task_type@,
            r.broadcast_kind@ == "verify_event"@,
    {
        let severity = if self.failed > 0 {
            EventSeverity::Warning
        } else {
            EventSeverity::Info
        };
        let mut source = String::new();
        push_str(&mut source, "verify:");
        push_str(&mut source, self.task_type.as_str());
        let total: usize = self.passed + self.failed;
        let mut message = String::new();
        push_str(&mut message, "Deliverable verify: ");
        push_decimal(&mut message, self.passed as u64);
        push_str(&mut message, "/");
        push_decimal(&mut message, total as u64);
        push_str(&mut message, " passed for ");
        push_str(&mut message, self.task_type.as_str());
        IngestPlan { event_type: EventType::TaskVerify, severity, source, message, broadcast_kind: "verify_event" }
    }
}

/// Distinct event types have distinct wire names, so parsing a type's name
/// gives that type back.
pub proof fn law_event_names_distinct(a: EventType, b: EventType)
    ensures
        a.name() == b.name() ==> a == b,
{
    reveal_strlit("ci_status");
    reveal_strlit("hook_result");
    reveal_strlit("gate_result");
    reveal_strlit("doc_sync");
    reveal_strlit("task_handoff");
    reveal_strlit("gate_block");
    reveal_strlit("graph_refresh");
    reveal_strlit("task_verify");
    reveal_strlit("audit_log");
    if a.name() == b.name() && a != b {
        assert(a.name().len() == b.name().len());
        assert(a.name()[0] == b.name()[0]);
        assert(a.name()[2] == b.name()[2]);
        assert(a.name()[5] == b.name()[5]);
    }
}

/// A type's wire name parses back as that type: whatever `parse` answers
/// for `t.name()` (a type with that name, or an error only when no type
/// has it) is `Ok(t)`.
pub proof fn law_event_name_roundtrip(t: EventType, r: Result<EventType, EnvoyError>)
    requires
        r matches Ok(u) ==> u.name() == t.name(),
        r is Err ==> forall|x: EventType| #[trigger] x.name() != t.name(),
    ensures
        r == Ok::<EventType, EnvoyError>(t),
{
    if r is Ok {
        law_event_names_distinct(r->Ok_0, t);
    } else {
        assert(exists|x: EventType| #[trigger] x.name() == t.name()) by {
            let n = t.name();
            assert(t.name() == n);
        }
    }
}

/// A severity's stored label reads back as that severity.
pub proof fn law_severity_label_roundtrip(sev: EventSeverity)
    ensures
        (if sev.name() == "warning"@ {
            EventSeverity::Warning
        } else if sev.name() == "blocking"@ {
            EventSeverity::Blocking
        } else {
            EventSeverity::Info
        }) == sev,
{
    reveal_strlit("info");
    reveal_strlit("warning");
    reveal_strlit("blocking");
    assert("info"@ != "warning"@) by {
        assert("info"@.len() != "warning"@.len());
    }
    assert("info"@ != "blocking"@) by {
        assert("info"@.len() != "blocking"@.len());
    }
    assert("warning"@ != "blocking"@) by {
        assert("warning"@[0] != "blocking"@[0]);
    }
}

} // verus!
