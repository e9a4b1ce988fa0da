//! The decisions of the client API: which keys are taken, and what a write or a
//! read is answered.

use vstd::prelude::*;

use crate::driver::ProposalResult;
use crate::kv::{role_text, NodeRole, NodeStatus};
use crate::text::{decimal, to_decimal};
use crate::types::{LogIndex, NodeId};

verus! {

/// Values are intentionally kept well below the peer protocol's frame cap.
pub const MAX_VALUE_BYTES: usize = 64 * 1024;

pub const MAX_KEY_BYTES: usize = 1024;

/// How long a write is waited for.
pub const WRITE_TIMEOUT_MS: u64 = 2_000;

/// The key is short enough, in bytes.
pub open spec fn short_key(key: Seq<char>) -> bool {
    vstd::utf8::encode_utf8(key).len() as usize <= MAX_KEY_BYTES
}

/// Whether a key is short enough, in bytes.
pub fn key_fits(key: &str) -> (fits: bool)
    ensures
        fits == (vstd::utf8::encode_utf8(key@).len() as usize <= MAX_KEY_BYTES),
        fits == short_key(key@),
{
    key.len() <= MAX_KEY_BYTES
}

/// What became of a write.
#[derive(Clone, Copy, Debug, PartialEq, Eq)]
pub enum WriteOutcome {
    /// The driver answered.
    Answered(ProposalResult),
    /// The driver took the proposal and went away without an answer.
    AnswerLost,
    /// The proposal was not taken, or not answered in time.
    TimedOut,
    /// The key is too long: nothing was proposed.
    KeyTooLarge,
}

/// The body of an answer.
#[derive(Clone, Copy, Debug, PartialEq, Eq)]
pub enum WriteBody {
    /// `{"ok": true, "index": ..}`
    Written { index: LogIndex },
    /// `{"error": .., "leader_hint": ..}`
    Redirect { error: &'static str, leader_hint: Option<NodeId> },
    /// `{"error": ..}`
    Error { error: &'static str },
}

/// The answer to a write.
#[derive(Clone, Copy, Debug, PartialEq, Eq)]
pub struct WriteReply {
    pub status: u16,
    pub body: WriteBody,
}

/// Whether this is the answer to a write with that outcome.
pub open spec fn write_answers(outcome: WriteOutcome, reply: WriteReply) -> bool {
    match outcome {
        WriteOutcome::Answered(ProposalResult::Applied { index }) => {
            &&& reply.status == 200
            &&& reply.body == (WriteBody::Written { index })
        },
        WriteOutcome::Answered(ProposalResult::NotLeader { leader_hint: hint }) => {
            &&& reply.status == 503
            &&& redirects(reply, "not_leader"@, hint)
        },
        WriteOutcome::Answered(ProposalResult::OutcomeUnknown { leader_hint: hint }) => {
            &&& reply.status == 503
            &&& redirects(reply, "outcome_unknown"@, hint)
        },
        WriteOutcome::AnswerLost => {
            &&& reply.status == 503
            &&& redirects(reply, "outcome_unknown"@, None)
        },
        WriteOutcome::TimedOut => {
            &&& reply.status == 503
            &&& errs(reply, "timeout"@)
        },
        WriteOutcome::KeyTooLarge => {
            &&& reply.status == 413
            &&& errs(reply, "key_too_large"@)
        },
    }
}

/// The answer names an error and hints at the leader.
pub open spec fn redirects(reply: WriteReply, why: Seq<char>, hint: Option<NodeId>) -> bool {
    reply.body matches WriteBody::Redirect { error, leader_hint } && error@ == why && leader_hint
        == hint
}

/// The answer names an error.
pub open spec fn errs(reply: WriteReply, why: Seq<char>) -> bool {
    reply.body matches WriteBody::Error { error } && error@ == why
}

/// Success is answered only for an applied entry. A proposal whose fate is not
/// known is never answered as if it had not been made.
pub fn write_reply(outcome: WriteOutcome) -> (reply: WriteReply)
    ensures
        match outcome {
            WriteOutcome::Answered(ProposalResult::Applied { index }) => {
                &&& reply.status == 200
                &&& reply.body == (WriteBody::Written { index })
            },
            WriteOutcome::Answered(ProposalResult::NotLeader { leader_hint: hint }) => {
                &&& reply.status == 503
                &&& reply.body matches WriteBody::Redirect { error, leader_hint } && error@
                    == "not_leader"@ && leader_hint == hint
            },
            WriteOutcome::Answered(ProposalResult::OutcomeUnknown { leader_hint: hint }) => {
                &&& reply.status == 503
                &&& reply.body matches WriteBody::Redirect { error, leader_hint } && error@
                    == "outcome_unknown"@ && leader_hint == hint
            },
            WriteOutcome::AnswerLost => {
                &&& reply.status == 503
                &&& reply.body matches WriteBody::Redirect { error, leader_hint } && error@
                    == "outcome_unknown"@ && leader_hint is None
            },
            WriteOutcome::TimedOut => {
                &&& reply.status == 503
                &&& reply.body matches WriteBody::Error { error } && error@ == "timeout"@
            },
            WriteOutcome::KeyTooLarge => {
                &&& reply.status == 413
                &&& reply.body matches WriteBody::Error { error } && error@ == "key_too_large"@
            },
        },
        write_answers(outcome, reply),
{
    match outcome {
        WriteOutcome::Answered(ProposalResult::Applied { index }) => WriteReply {
            status: 200,
            body: WriteBody::Written { index },
        },
        WriteOutcome::Answered(ProposalResult::NotLeader { leader_hint }) => WriteReply {
            status: 503,
            body: WriteBody::Redirect { error: "not_leader", leader_hint },
        },
        WriteOutcome::Answered(ProposalResult::OutcomeUnknown { leader_hint }) => WriteReply {
            status: 503,
            body: WriteBody::Redirect { error: "outcome_unknown", leader_hint },
        },
        WriteOutcome::AnswerLost => WriteReply {
            status: 503,
            body: WriteBody::Redirect { error: "outcome_unknown", leader_hint: None },
        },
        WriteOutcome::TimedOut => WriteReply {
            status: 503,
            body: WriteBody::Error { error: "timeout" },
        },
        WriteOutcome::KeyTooLarge => WriteReply {
            status: 413,
            body: WriteBody::Error { error: "key_too_large" },
        },
    }
}

/// The answer to a read: the value if there is one, and how fresh it is.
#[derive(Debug)]
pub struct ReadReply {
    pub status: u16,
    pub value: Option<String>,
    /// The `x-raft-role` header.
    pub role: &'static str,
    /// The `x-raft-last-applied` header.
    pub last_applied: String,
}

/// Whether this is the answer to a read that found the value, if any, beside that
/// status.
pub open spec fn read_answers(
    status: NodeStatus,
    value: Option<String>,
    reply: ReadReply,
) -> bool {
    &&& reply.status == (if value is Some {
        200u16
    } else {
        404u16
    })
    &&& reply.value == value
    &&& reply.role@ == role_text(status.role)
    &&& reply.last_applied@ == decimal(status.last_applied as nat)
}

pub fn read_reply(status: NodeStatus, value: Option<String>) -> (reply: ReadReply)
    ensures
        reply.status == if value is Some {
            200u16
        } else {
            404u16
        },
        reply.value == value,
        reply.role@ == match status.role {
            NodeRole::Follower => "follower"@,
            NodeRole::Candidate => "candidate"@,
            NodeRole::Leader => "leader"@,
        },
        reply.last_applied@ == decimal(status.last_applied as nat),
        read_answers(status, value, reply),
{
    ReadReply {
        status: if value.is_some() {
            200
        } else {
            404
        },
        value,
        role: status.role.as_str(),
        last_applied: to_decimal(status.last_applied),
    }
}

/// A write succeeds just where its entry was applied, and the answer names the
/// entry's index. Nothing else is answered with success.
pub proof fn law_success_is_answered_for_applied_writes_only(
    outcome: WriteOutcome,
    reply: WriteReply,
)
    requires
        write_answers(outcome, reply),
    ensures
        reply.status == 200 <==> (outcome matches WriteOutcome::Answered(r) && r is Applied),
        reply.body is Written <==> reply.status == 200,
        reply.body matches WriteBody::Written { index } ==> outcome == WriteOutcome::Answered(
            ProposalResult::Applied { index },
        ),
        reply.status == 200 || reply.status == 503 || reply.status == 413,
        reply.status == 413 <==> outcome is KeyTooLarge,
{
}

/// A write that was not made says so, and one whose fate is open never says that
/// it was not made: a client is sent to the leader where one is known.
pub proof fn law_an_open_outcome_is_not_denied(outcome: WriteOutcome, reply: WriteReply)
    requires
        write_answers(outcome, reply),
    ensures
        outcome matches WriteOutcome::Answered(ProposalResult::NotLeader { leader_hint })
            ==> redirects(reply, "not_leader"@, leader_hint),
        outcome matches WriteOutcome::Answered(ProposalResult::OutcomeUnknown { leader_hint })
            ==> redirects(reply, "outcome_unknown"@, leader_hint),
        outcome is AnswerLost ==> redirects(reply, "outcome_unknown"@, None),
        outcome is TimedOut ==> errs(reply, "timeout"@),
        outcome is KeyTooLarge ==> errs(reply, "key_too_large"@),
{
}

/// A read gives the value that was found and says that it was; it says that there
/// is none just where there is none; and it always tells the node's role and how
/// far it has applied.
pub proof fn law_a_read_tells_what_was_found(
    status: NodeStatus,
    value: Option<String>,
    reply: ReadReply,
)
    requires
        read_answers(status, value, reply),
    ensures
        reply.value == value,
        reply.status == 200 <==> value is Some,
        reply.status == 404 <==> value is None,
        status.role == NodeRole::Leader ==> reply.role@ == "leader"@,
        status.role == NodeRole::Candidate ==> reply.role@ == "candidate"@,
        status.role == NodeRole::Follower ==> reply.role@ == "follower"@,
        crate::text::number(reply.last_applied@) == status.last_applied,
{
    crate::text::law_decimal_reads_back(status.last_applied as nat);
}

/// A key is taken just where its text is at most 1024 bytes long.
pub proof fn law_short_keys_are_taken(key: Seq<char>)
    ensures
        short_key(key) <==> vstd::utf8::encode_utf8(key).len() as usize <= 1024,
{
}

} // verus!
