//! Messages between agents: envelopes, parts and handoff reports, with the
//! limits every stored message must respect.

pub mod store;

use vstd::prelude::*;
use crate::error::EnvoyError;
use crate::text::owned;

verus! {

#[verifier::external_type_specification]
#[verifier::external_body]
pub struct ExJsonValue(serde_json::Value);

#[verifier::external_type_specification]
#[verifier::external_body]
#[verifier::reject_recursive_types(K)]
#[verifier::reject_recursive_types(V)]
pub struct ExJsonMap<K, V>(serde_json::Map<K, V>);

/// Content part — exactly one variant per part.
#[derive(Debug)]
pub enum PartContent {
    Text(String),
    Data(serde_json::Value),
    Url(String),
}

#[derive(Debug)]
pub struct Part {
    pub content: PartContent,
}

#[derive(Debug, Clone, Copy, PartialEq, Eq, Structural)]
pub enum MessageType {
    Direct,
    Handoff,
    Heartbeat,
    System,
}

impl MessageType {
    /// The variant's name as `{:?}` prints it.
    pub open spec fn debug_name(self) -> Seq<char> {
        match self {
            MessageType::Direct => "Direct"@,
            MessageType::Handoff => "Handoff"@,
            MessageType::Heartbeat => "Heartbeat"@,
            MessageType::System => "System"@,
        }
    }

    /// The wire name (snake case, as the type is serialised).
    pub open spec fn wire_name(self) -> Seq<char> {
        match self {
            MessageType::Direct => "direct"@,
            MessageType::Handoff => "handoff"@,
            MessageType::Heartbeat => "heartbeat"@,
            MessageType::System => "system"@,
        }
    }

    /// The variant's name as `{:?}` prints it.
    pub fn debug_str(&self) -> (s: &'static str)
        ensures
            s@ == self.debug_name(),
    {
        match self {
            MessageType::Direct => "Direct",
            MessageType::Handoff => "Handoff",
            MessageType::Heartbeat => "Heartbeat",
            MessageType::System => "System",
        }
    }

    /// The wire name of the type.
    pub fn as_str(&self) -> (s: &'static str)
        ensures
            s@ == self.wire_name(),
    {
        match self {
            MessageType::Direct => "direct",
            MessageType::Handoff => "handoff",
            MessageType::Heartbeat => "heartbeat",
            MessageType::System => "system",
        }
    }
}

/// Message envelope shared by all message types.
#[derive(Debug)]
pub struct MessageEnvelope {
    pub message_id: String,
    pub msg_type: MessageType,
    pub from: String,
    pub to: String,
    pub task_id: Option<String>,
    pub context_id: Option<String>,
    pub timestamp: String,
    pub sequence_id: i64,
    pub parts: Vec<Part>,
}

#[derive(Debug, Clone, Copy, PartialEq, Eq, Structural)]
pub enum CompletionStatus {
    Done,
    DoneWithConcerns,
    Blocked,
    NeedsContext,
}

#[derive(Debug, Clone)]
pub struct WhatWasDone {
    pub scope: String,
    pub change: String,
    pub verified: bool,
}

#[derive(Debug, Clone)]
pub struct WhatIsStubbed {
    pub location: String,
    pub reason: String,
}

#[derive(Debug, Clone, Copy)]
pub struct VerificationState {
    pub tests_passing: i64,
    pub tests_failing: i64,
    pub quality_gate: QualityGateResult,
    pub cargo_check_passed: bool,
}

#[derive(Debug, Clone, Copy)]
pub struct QualityGateResult {
    pub passed: bool,
    pub blocking: i64,
    pub warnings: i64,
}

#[derive(Debug)]
pub struct MagellanTracePayload {
    pub files_changed: Vec<String>,
    pub symbols_added: Vec<String>,
    pub symbols_removed: Vec<String>,
    pub refs_in: serde_json::Map<String, serde_json::Value>,
    pub refs_out: serde_json::Map<String, serde_json::Value>,
}

#[derive(Debug)]
pub struct HandoffData {
    pub completion_status: CompletionStatus,
    pub blocked_reason: Option<String>,
    pub context_remaining_pct: u8,
    pub what_was_done: Vec<WhatWasDone>,
    pub what_is_stubbed: Vec<WhatIsStubbed>,
    pub remaining_work: Vec<String>,
    pub verification_state: VerificationState,
    pub magellan_trace: MagellanTracePayload,
    pub grounded_queries_used: Vec<String>,
}

/// Whether a handoff report is acceptable: a BLOCKED report gives its
/// reason, and the context left is a percentage.
pub open spec fn handoff_ok(h: HandoffData) -> bool {
    !(h.completion_status == CompletionStatus::Blocked && h.blocked_reason is None) && h.context_remaining_pct <= 100
}

impl HandoffData {
    pub fn validate(&self) -> (r: Result<(), EnvoyError>)
        ensures
            r is Ok == handoff_ok(*self),
            (self.completion_status == CompletionStatus::Blocked && self.blocked_reason is None) ==> (r matches Err(
                EnvoyError::InvalidMessage(m),
            ) && m@ == "blocked_reason is required when status is BLOCKED"@),
            !(self.completion_status == CompletionStatus::Blocked && self.blocked_reason is None)
                && self.context_remaining_pct > 100 ==> (r matches Err(EnvoyError::InvalidMessage(m)) && m@
                == "context_remaining_pct must be 0-100"@),
    {
        if self.completion_status == CompletionStatus::Blocked && self.blocked_reason.is_none() {
            return Err(EnvoyError::InvalidMessage(owned("blocked_reason is required when status is BLOCKED")));
        }
        if self.context_remaining_pct > 100 {
            return Err(EnvoyError::InvalidMessage(owned("context_remaining_pct must be 0-100")));
        }
        Ok(())
    }
}

/// The largest text part, in UTF-8 bytes (1 MB).
pub const MAX_BODY_SIZE: usize = 1_048_576;

/// The most parts a message may carry.
pub const MAX_PARTS: usize = 20;

/// UTF-8 length of a text part, as `str::len` reports it; other parts count
/// as empty.
pub open spec fn text_len(p: Part) -> usize {
    match p.content {
        PartContent::Text(t) => vstd::utf8::encode_utf8(t@).len() as usize,
        _ => 0,
    }
}

/// Whether every part before index `n` is within the size limit.
pub open spec fn parts_fit(parts: Seq<Part>, n: int) -> bool {
    forall|i: int| 0 <= i < n ==> text_len(#[trigger] parts[i]) <= MAX_BODY_SIZE
}

impl MessageEnvelope {
    pub fn validate(&self) -> (r: Result<(), EnvoyError>)
        ensures
            r is Ok == (self.parts@.len() >= 1 && self.parts@.len() <= MAX_PARTS && parts_fit(
                self.parts@,
                self.parts@.len() as int,
            )),
            self.parts@.len() == 0 ==> (r matches Err(EnvoyError::InvalidMessage(m)) && m@ == "at least one part required"@),
            self.parts@.len() > MAX_PARTS ==> r == Err::<(), EnvoyError>(EnvoyError::TooManyParts(self.parts@.len() as usize)),
            1 <= self.parts@.len() <= MAX_PARTS ==> forall|i: int|
                0 <= i < self.parts@.len() && parts_fit(self.parts@, i) && text_len(#[trigger] self.parts@[i]) > MAX_BODY_SIZE
                    ==> r == Err::<(), EnvoyError>(EnvoyError::MessageTooLarge(text_len(self.parts@[i]))),
    {
        if self.parts.len() == 0 {
            return Err(EnvoyError::InvalidMessage(owned("at least one part required")));
        }
        if self.parts.len() > MAX_PARTS {
            return Err(EnvoyError::TooManyParts(self.parts.len()));
        }
        let mut i: usize = 0;
        while i < self.parts.len()
            invariant
                1 <= self.parts@.len() <= MAX_PARTS,
                i <= self.parts@.len(),
                parts_fit(self.parts@, i as int),
            decreases self.parts@.len() - i,
        {
            match &self.parts[i].content {
                PartContent::Text(text) => {
                    let n = text.as_str().len();
                    if n > MAX_BODY_SIZE {
                        proof {
                            assert forall|j: int|
                                0 <= j < self.parts@.len() && parts_fit(self.parts@, j) && text_len(#[trigger] self.parts@[j])
                                    > MAX_BODY_SIZE implies j == i by {
                                if j < i {
                                    assert(text_len(self.parts@[j]) <= MAX_BODY_SIZE);
                                }
                                if j > i {
                                    assert(text_len(self.parts@[i as int]) <= MAX_BODY_SIZE);
                                }
                            }
                        }
                        return Err(EnvoyError::MessageTooLarge(n));
                    }
                },
                _ => {},
            }
            assert(text_len(self.parts@[i as int]) <= MAX_BODY_SIZE);
            assert(parts_fit(self.parts@, i + 1)) by {
                assert forall|j: int| 0 <= j < i + 1 implies text_len(#[trigger] self.parts@[j]) <= MAX_BODY_SIZE by {
                    if j < i {
                    }
                }
            }
            i += 1;
        }
        Ok(())
    }
}

} // verus!
