//! Audit records: events kept under a reserved project of the event bus,
//! and the filters a query applies to them.

use vstd::prelude::*;
use crate::event::bus::EventBus;
use crate::event::{EventSeverity, EventType};
use crate::message::MessageType;
use crate::text::{decimal, owned, push_decimal, push_str, str_eq};

verus! {

/// The reserved project under which audit records are stored.
pub const AUDIT_PROJECT: &'static str = "_envoy_audit";

/// What an audit query reads of a stored record: its event id, the
/// operation that wrote it, and the agent and task its data names.
#[derive(Debug)]
pub struct AuditEntry {
    pub id: String,
    pub operation: String,
    pub agent_id: Option<String>,
    pub task_id: Option<String>,
}

impl Clone for AuditEntry {
    fn clone(&self) -> (r: Self)
        ensures
            r == *self,
    {
        AuditEntry {
            id: self.id.clone(),
            operation: self.operation.clone(),
            agent_id: match &self.agent_id {
                Some(a) => Some(a.clone()),
                None => None,
            },
            task_id: match &self.task_id {
                Some(t) => Some(t.clone()),
                None => None,
            },
        }
    }
}

/// An optional text field equals `want`; a missing field never does.
pub open spec fn field_is(field: Option<String>, want: Seq<char>) -> bool {
    match field {
        Some(v) => v@ == want,
        None => false,
    }
}

/// Whether a record passes the query's filters: each filter that is given
/// must match, and a record without the filtered field is dropped.
pub open spec fn audit_matches(
    e: AuditEntry,
    agent_id: Option<Seq<char>>,
    operation: Option<Seq<char>>,
    task_id: Option<Seq<char>>,
) -> bool {
    &&& (agent_id matches Some(a) ==> field_is(e.agent_id, a))
    &&& (operation matches Some(o) ==> e.operation@ == o)
    &&& (task_id matches Some(t) ==> field_is(e.task_id, t))
}

/// The records an audit query returns.
pub open spec fn audit_results(
    events: Seq<AuditEntry>,
    agent_id: Option<Seq<char>>,
    operation: Option<Seq<char>>,
    task_id: Option<Seq<char>>,
) -> Seq<AuditEntry> {
    events.filter(|e: AuditEntry| audit_matches(e, agent_id, operation, task_id))
}

/// An audit query returns exactly the records that carry every filter it is
/// given: each result is a record carrying the filtered agent, operation
/// and task, and each record carrying them is among the results.
pub proof fn law_audit_query(
    events: Seq<AuditEntry>,
    agent_id: Option<Seq<char>>,
    operation: Option<Seq<char>>,
    task_id: Option<Seq<char>>,
)
    ensures
        forall|i: int|
            0 <= i < audit_results(events, agent_id, operation, task_id).len() ==> {
                let r = #[trigger] audit_results(events, agent_id, operation, task_id)[i];
                &&& events.contains(r)
                &&& agent_id matches Some(a) ==> r.agent_id is Some && r.agent_id->0@ == a
                &&& operation matches Some(o) ==> r.operation@ == o
                &&& task_id matches Some(t) ==> r.task_id is Some && r.task_id->0@ == t
            },
        forall|j: int|
            0 <= j < events.len() && (agent_id matches Some(a) ==> events[j].agent_id is Some && events[j].agent_id->0@ == a)
                && (operation matches Some(o) ==> events[j].operation@ == o) && (task_id matches Some(t) ==> events[j].task_id
                is Some && events[j].task_id->0@ == t) ==> audit_results(events, agent_id, operation, task_id).contains(
                #[trigger] events[j],
            ),
{
    let pred = |e: AuditEntry| audit_matches(e, agent_id, operation, task_id);
    let f = events.filter(pred);
    assert(f == audit_results(events, agent_id, operation, task_id));
    assert forall|i: int| 0 <= i < f.len() implies {
        let r = #[trigger] f[i];
        &&& events.contains(r)
        &&& agent_id matches Some(a) ==> r.agent_id is Some && r.agent_id->0@ == a
        &&& operation matches Some(o) ==> r.operation@ == o
        &&& task_id matches Some(t) ==> r.task_id is Some && r.task_id->0@ == t
    } by {
        events.lemma_filter_pred(pred, i);
        crate::agent::lemma_filter_from(events, pred, i);
    }
    assert forall|j: int|
        0 <= j < events.len() && (agent_id matches Some(a) ==> events[j].agent_id is Some && events[j].agent_id->0@ == a)
            && (operation matches Some(o) ==> events[j].operation@ == o) && (task_id matches Some(t) ==> events[j].task_id
            is Some && events[j].task_id->0@ == t) implies f.contains(#[trigger] events[j]) by {
        assert(pred(events[j]));
        events.lemma_filter_contains(pred, j);
    }
}

/// The view of an optional string slice.
pub open spec fn opt_view(o: Option<&str>) -> Option<Seq<char>> {
    match o {
        Some(s) => Some(s@),
        None => None,
    }
}

fn opt_field_is(field: &Option<String>, want: &str) -> (r: bool)
    ensures
        r == field_is(*field, want@),
{
    match field {
        Some(v) => str_eq(v.as_str(), want),
        None => false,
    }
}

/// Lightweight audit logging that reuses the event bus: all records are
/// events of the project `_envoy_audit`.
pub struct AuditStore {
    event_bus: EventBus,
}

impl Default for AuditStore {
    fn default() -> Self {
        AuditStore::new()
    }
}

impl AuditStore {
    /// The bus the records go to.
    pub closed spec fn bus(self) -> EventBus {
        self.event_bus
    }

    pub fn new() -> (r: Self)
        ensures
            r.bus() == EventBus,
    {
        AuditStore { event_bus: EventBus::new() }
    }

    /// The bus the records are written to.
    pub fn event_bus(&self) -> (r: &EventBus)
        ensures
            *r == self.bus(),
    {
        &self.event_bus
    }

    /// The records of `events` that pass the agent, operation and task
    /// filters, in their order.
    pub fn filter(
        &self,
        events: Vec<AuditEntry>,
        agent_id: Option<&str>,
        operation: Option<&str>,
        task_id: Option<&str>,
    ) -> (r: Vec<AuditEntry>)
        ensures
            r@ == events@.filter(
                |e: AuditEntry| audit_matches(e, opt_view(agent_id), opt_view(operation), opt_view(task_id)),
            ),
            forall|i: int|
                0 <= i < r@.len() ==> events@.contains(#[trigger] r@[i]) && (agent_id matches Some(a) ==> r@[i].agent_id
                    is Some && r@[i].agent_id->0@ == a@) && (operation matches Some(o) ==> r@[i].operation@ == o@) && (
                task_id matches Some(t) ==> r@[i].task_id is Some && r@[i].task_id->0@ == t@),
            forall|j: int|
                0 <= j < events@.len() && (agent_id matches Some(a) ==> events@[j].agent_id is Some
                    && events@[j].agent_id->0@ == a@) && (operation matches Some(o) ==> events@[j].operation@ == o@) && (
                task_id matches Some(t) ==> events@[j].task_id is Some && events@[j].task_id->0@ == t@) ==> r@.contains(
                    #[trigger] events@[j],
                ),
    {
        proof {
            law_audit_query(events@, opt_view(agent_id), opt_view(operation), opt_view(task_id));
        }
        let ghost pred = |e: AuditEntry| audit_matches(e, opt_view(agent_id), opt_view(operation), opt_view(task_id));
        let mut out: Vec<AuditEntry> = Vec::new();
        let mut i: usize = 0;
        while i < events.len()
            invariant
                i <= events@.len(),
                pred == (|e: AuditEntry| audit_matches(e, opt_view(agent_id), opt_view(operation), opt_view(task_id))),
                out@ == events@.take(i as int).filter(pred),
            decreases events@.len() - i,
        {
            let e = &events[i];
            let by_agent = match agent_id {
                Some(a) => opt_field_is(&e.agent_id, a),
                None => true,
            };
            let by_op = match operation {
                Some(o) => str_eq(e.operation.as_str(), o),
                None => true,
            };
            let by_task = match task_id {
                Some(t) => opt_field_is(&e.task_id, t),
                None => true,
            };
            let keep = by_agent && by_op && by_task;
            assert(keep == pred(events@[i as int]));
            if keep {
                out.push(e.clone());
            }
            proof {
                let t = events@.take(i as int + 1);
                assert(t.drop_last() =~= events@.take(i as int));
                reveal_with_fuel(Seq::<_>::filter, 1);
            }
            i += 1;
        }
        assert(events@.take(events@.len() as int) =~= events@);
        out
    }
}

/// What one audit log call stores as an event of the audit project: the
/// operation (the event's source), its severity, its message, and the
/// fields of its data (text fields in order, and the failure count where
/// one is recorded).
pub struct AuditRecord {
    pub operation: &'static str,
    pub severity: EventSeverity,
    pub message: String,
    pub fields: Vec<(&'static str, String)>,
    pub failure_count: Option<u32>,
}

/// The data fields as (key, text) pairs.
pub open spec fn fields_view(f: Seq<(&'static str, String)>) -> Seq<(Seq<char>, Seq<char>)> {
    f.map_values(|p: (&'static str, String)| (p.0@, p.1@))
}

fn field(key: &'static str, value: &str) -> (r: (&'static str, String))
    ensures
        r.0 == key,
        r.1@ == value@,
{
    (key, owned(value))
}

impl AuditStore {
    /// The record of a sent message: `Agent {from} sent {type:?} message to
    /// {to}`, with the sender, recipient, type, message id and (if any) task.
    pub fn log_message(
        &self,
        from: &str,
        to: &str,
        msg_type: MessageType,
        msg_id: &str,
        task_id: Option<&str>,
    ) -> (r: AuditRecord)
        ensures
            r.operation@ == "message_sent"@,
            r.severity == EventSeverity::Info,
            r.message@ == "Agent "@ + from@ + " sent "@ + msg_type.debug_name() + " message to "@ + to@,
            fields_view(r.fields@) == seq![
                ("agent_id"@, from@),
                ("target"@, to@),
                ("msg_type"@, msg_type.wire_name()),
                ("msg_id"@, msg_id@),
            ] + match task_id {
                Some(t) => seq![("task_id"@, t@)],
                None => Seq::empty(),
            },
            r.failure_count is None,
    {
        let mut message = String::new();
        push_str(&mut message, "Agent ");
        push_str(&mut message, from);
        push_str(&mut message, " sent ");
        push_str(&mut message, msg_type.debug_str());
        push_str(&mut message, " message to ");
        push_str(&mut message, to);
        let mut fields: Vec<(&'static str, String)> = Vec::new();
        fields.push(field("agent_id", from));
        fields.push(field("target", to));
        fields.push(field("msg_type", msg_type.as_str()));
        fields.push(field("msg_id", msg_id));
        match task_id {
            Some(t) => fields.push(field("task_id", t)),
            None => {},
        }
        assert(fields_view(fields@) =~= seq![
            ("agent_id"@, from@),
            ("target"@, to@),
            ("msg_type"@, msg_type.wire_name()),
            ("msg_id"@, msg_id@),
        ] + match task_id {
            Some(t) => seq![("task_id"@, t@)],
            None => Seq::empty(),
        });
        AuditRecord { operation: "message_sent", severity: EventSeverity::Info, message, fields, failure_count: None }
    }

    /// The record of an ingested event: `Event {type} ingested from {source}
    /// for project {project}`.
    pub fn log_event_ingested(&self, project: &str, source: &str, event_type: EventType) -> (r: AuditRecord)
        ensures
            r.operation@ == "event_ingested"@,
            r.severity == EventSeverity::Info,
            r.message@ == "Event "@ + event_type.name() + " ingested from "@ + source@ + " for project "@ + project@,
            fields_view(r.fields@) == seq![
                ("agent_id"@, source@),
                ("target"@, project@),
                ("event_type"@, event_type.name()),
            ],
            r.failure_count is None,
    {
        let mut message = String::new();
        push_str(&mut message, "Event ");
        push_str(&mut message, event_type.as_str());
        push_str(&mut message, " ingested from ");
        push_str(&mut message, source);
        push_str(&mut message, " for project ");
        push_str(&mut message, project);
        let mut fields: Vec<(&'static str, String)> = Vec::new();
        fields.push(field("agent_id", source));
        fields.push(field("target", project));
        fields.push(field("event_type", event_type.as_str()));
        assert(fields_view(fields@) =~= seq![
            ("agent_id"@, source@),
            ("target"@, project@),
            ("event_type"@, event_type.name()),
        ]);
        AuditRecord { operation: "event_ingested", severity: EventSeverity::Info, message, fields, failure_count: None }
    }

    /// The record of a registration: `Agent {id} ({name}) registered as
    /// {kind}`.
    pub fn log_agent_registered(&self, agent_id: &str, name: &str, kind: &str) -> (r: AuditRecord)
        ensures
            r.operation@ == "agent_registered"@,
            r.severity == EventSeverity::Info,
            r.message@ == "Agent "@ + agent_id@ + " ("@ + name@ + ") registered as "@ + kind@,
            fields_view(r.fields@) == seq![("agent_id"@, agent_id@), ("name"@, name@), ("kind"@, kind@)],
            r.failure_count is None,
    {
        let mut message = String::new();
        push_str(&mut message, "Agent ");
        push_str(&mut message, agent_id);
        push_str(&mut message, " (");
        push_str(&mut message, name);
        push_str(&mut message, ") registered as ");
        push_str(&mut message, kind);
        let mut fields: Vec<(&'static str, String)> = Vec::new();
        fields.push(field("agent_id", agent_id));
        fields.push(field("name", name));
        fields.push(field("kind", kind));
        assert(fields_view(fields@) =~= seq![("agent_id"@, agent_id@), ("name"@, name@), ("kind"@, kind@)]);
        AuditRecord { operation: "agent_registered", severity: EventSeverity::Info, message, fields, failure_count: None }
    }

    /// The record of a disconnection: `Agent {id} disconnected`.
    pub fn log_agent_disconnected(&self, agent_id: &str) -> (r: AuditRecord)
        ensures
            r.operation@ == "agent_disconnected"@,
            r.severity == EventSeverity::Info,
            r.message@ == "Agent "@ + agent_id@ + " disconnected"@,
            fields_view(r.fields@) == seq![("agent_id"@, agent_id@)],
            r.failure_count is None,
    {
        let mut message = String::new();
        push_str(&mut message, "Agent ");
        push_str(&mut message, agent_id);
        push_str(&mut message, " disconnected");
        let mut fields: Vec<(&'static str, String)> = Vec::new();
        fields.push(field("agent_id", agent_id));
        assert(fields_view(fields@) =~= seq![("agent_id"@, agent_id@)]);
        AuditRecord { operation: "agent_disconnected", severity: EventSeverity::Info, message, fields, failure_count: None }
    }

    /// The record of a circuit opening, a warning: `Circuit breaker opened
    /// for agent {id} after {n} failures`.
    pub fn log_circuit_opened(&self, agent_id: &str, failure_count: u32) -> (r: AuditRecord)
        ensures
            r.operation@ == "circuit_opened"@,
            r.severity == EventSeverity::Warning,
            r.message@ == "Circuit breaker opened for agent "@ + agent_id@ + " after "@ + decimal(failure_count as nat)
                + " failures"@,
            fields_view(r.fields@) == seq![("agent_id"@, agent_id@)],
            r.failure_count == Some(failure_count),
    {
        let mut message = String::new();
        push_str(&mut message, "Circuit breaker opened for agent ");
        push_str(&mut message, agent_id);
        push_str(&mut message, " after ");
        push_decimal(&mut message, failure_count as u64);
        push_str(&mut message, " failures");
        let mut fields: Vec<(&'static str, String)> = Vec::new();
        fields.push(field("agent_id", agent_id));
        assert(fields_view(fields@) =~= seq![("agent_id"@, agent_id@)]);
        AuditRecord {
            operation: "circuit_opened",
            severity: EventSeverity::Warning,
            message,
            fields,
            failure_count: Some(failure_count),
        }
    }

    /// The record of a circuit closing: `Circuit breaker closed for agent
    /// {id}`.
    pub fn log_circuit_closed(&self, agent_id: &str) -> (r: AuditRecord)
        ensures
            r.operation@ == "circuit_closed"@,
            r.severity == EventSeverity::Info,
            r.message@ == "Circuit breaker closed for agent "@ + agent_id@,
            fields_view(r.fields@) == seq![("agent_id"@, agent_id@)],
            r.failure_count is None,
    {
        let mut message = String::new();
        push_str(&mut message, "Circuit breaker closed for agent ");
        push_str(&mut message, agent_id);
        let mut fields: Vec<(&'static str, String)> = Vec::new();
        fields.push(field("agent_id", agent_id));
        assert(fields_view(fields@) =~= seq![("agent_id"@, agent_id@)]);
        AuditRecord { operation: "circuit_closed", severity: EventSeverity::Info, message, fields, failure_count: None }
    }

    /// The record of a claim: `Task {task} claimed by agent {agent}`.
    pub fn log_task_claimed(&self, task_id: &str, agent_id: &str) -> (r: AuditRecord)
        ensures
            r.operation@ == "task_claimed"@,
            r.severity == EventSeverity::Info,
            r.message@ == "Task "@ + task_id@ + " claimed by agent "@ + agent_id@,
            fields_view(r.fields@) == seq![("task_id"@, task_id@), ("agent_id"@, agent_id@)],
            r.failure_count is None,
    {
        let mut message = String::new();
        push_str(&mut message, "Task ");
        push_str(&mut message, task_id);
        push_str(&mut message, " claimed by agent ");
        push_str(&mut message, agent_id);
        let mut fields: Vec<(&'static str, String)> = Vec::new();
        fields.push(field("task_id", task_id));
        fields.push(field("agent_id", agent_id));
        assert(fields_view(fields@) =~= seq![("task_id"@, task_id@), ("agent_id"@, agent_id@)]);
        AuditRecord { operation: "task_claimed", severity: EventSeverity::Info, message, fields, failure_count: None }
    }
}

} // verus!
