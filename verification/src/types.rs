//! Core data types shared by the state machine, its drivers and the simulator,
//! and the mathematical values that their contracts speak of.

use std::collections::{BTreeMap, BTreeSet};

use vstd::prelude::*;

verus! {

/// Node identifier: 1, 2, 3, …
pub type NodeId = u8;

/// Logical epoch. Starts at 0; the first election produces term 1.
pub type Term = u64;

/// 1-based log position; 0 means "no entries" or "before the log".
pub type LogIndex = u64;

/// A state-machine command carried by a log entry.
#[derive(Debug, PartialEq)]
pub enum Command {
    Put { key: String, value: String },
    Delete { key: String },
    /// Appended by a leader when it wins an election, so that it has an entry
    /// of its own term to commit.
    NoOp,
}

/// A command with its strings as sequences of characters.
pub enum CommandView {
    Put { key: Seq<char>, value: Seq<char> },
    Delete { key: Seq<char> },
    NoOp,
}

impl View for Command {
    type V = CommandView;

    open spec fn view(&self) -> CommandView {
        match self {
            Command::Put { key, value } => CommandView::Put { key: key@, value: value@ },
            Command::Delete { key } => CommandView::Delete { key: key@ },
            Command::NoOp => CommandView::NoOp,
        }
    }
}

impl Clone for Command {
    fn clone(&self) -> (out: Self)
        ensures
            out == *self,
    {
        match self {
            Command::Put { key, value } => Command::Put { key: key.clone(), value: value.clone() },
            Command::Delete { key } => Command::Delete { key: key.clone() },
            Command::NoOp => Command::NoOp,
        }
    }
}

impl Command {
    /// Whether the two commands are the same, character for character.
    pub fn same(&self, other: &Command) -> (same: bool)
        ensures
            same == (self@ == other@),
    {
        match (self, other) {
            (Command::Put { key: k1, value: v1 }, Command::Put { key: k2, value: v2 }) => {
                *k1 == *k2 && *v1 == *v2
            },
            (Command::Delete { key: k1 }, Command::Delete { key: k2 }) => *k1 == *k2,
            (Command::NoOp, Command::NoOp) => true,
            _ => false,
        }
    }
}

/// One replicated log entry.
#[derive(Debug, PartialEq)]
pub struct Entry {
    pub index: LogIndex,
    pub term: Term,
    pub command: Command,
}

/// An entry with its command's strings as sequences of characters.
pub struct EntryView {
    pub index: LogIndex,
    pub term: Term,
    pub command: CommandView,
}

impl View for Entry {
    type V = EntryView;

    open spec fn view(&self) -> EntryView {
        EntryView { index: self.index, term: self.term, command: self.command@ }
    }
}

impl Clone for Entry {
    fn clone(&self) -> (out: Self)
        ensures
            out == *self,
    {
        Entry { index: self.index, term: self.term, command: self.command.clone() }
    }
}

impl Entry {
    /// Whether the two entries are the same: index, term and command.
    pub fn same(&self, other: &Entry) -> (same: bool)
        ensures
            same == (self@ == other@),
    {
        self.index == other.index && self.term == other.term && self.command.same(&other.command)
    }
}

/// The contents of a log, entry by entry.
pub open spec fn log_view(log: Seq<Entry>) -> Seq<EntryView> {
    log.map_values(|e: Entry| e@)
}

/// Whether the two logs hold the same entries in the same order.
pub fn same_log(a: &[Entry], b: &[Entry]) -> (same: bool)
    ensures
        same == (log_view(a@) == log_view(b@)),
{
    if a.len() != b.len() {
        assert(log_view(a@).len() != log_view(b@).len());
        return false;
    }
    let mut i: usize = 0;
    while i < a.len()
        invariant
            a@.len() == b@.len(),
            i <= a@.len(),
            forall|j: int| 0 <= j < i ==> a@[j]@ == b@[j]@,
        decreases a@.len() - i,
    {
        if !a[i].same(&b[i]) {
            assert(log_view(a@)[i as int] != log_view(b@)[i as int]);
            return false;
        }
        i = i + 1;
    }
    assert(log_view(a@) =~= log_view(b@));
    true
}

/// A copy of the entries.
pub fn copy_entries(entries: &[Entry]) -> (out: Vec<Entry>)
    ensures
        out@ == entries@,
{
    let mut out: Vec<Entry> = Vec::new();
    let mut i: usize = 0;
    while i < entries.len()
        invariant
            i <= entries@.len(),
            out@ == entries@.take(i as int),
        decreases entries@.len() - i,
    {
        out.push(entries[i].clone());
        assert(entries@.take(i + 1) =~= entries@.take(i as int).push(entries@[i as int]));
        i = i + 1;
    }
    assert(entries@.take(i as int) =~= entries@);
    out
}

/// The state that must survive a crash: the term and the vote cast in it.
#[derive(Debug, PartialEq, Eq)]
pub struct HardState {
    pub current_term: Term,
    pub voted_for: Option<NodeId>,
}

impl Clone for HardState {
    fn clone(&self) -> (out: Self)
        ensures
            out == *self,
    {
        HardState { current_term: self.current_term, voted_for: self.voted_for }
    }
}

impl Default for HardState {
    fn default() -> (out: Self)
        ensures
            out == (HardState { current_term: 0, voted_for: None }),
    {
        HardState { current_term: 0, voted_for: None }
    }
}

impl HardState {
    /// Whether the two hold the same term and the same vote.
    pub fn same(&self, other: &HardState) -> (same: bool)
        ensures
            same == (*self == *other),
    {
        self.current_term == other.current_term && match (self.voted_for, other.voted_for) {
            (Some(a), Some(b)) => a == b,
            (None, None) => true,
            _ => false,
        }
    }
}

/// A node's role, with the volatile state that belongs to it.
#[derive(Clone, Debug, PartialEq)]
pub enum Role {
    Follower,
    Candidate { votes_received: BTreeSet<NodeId> },
    Leader { next_index: BTreeMap<NodeId, LogIndex>, match_index: BTreeMap<NodeId, LogIndex> },
}

/// A role with its collections as mathematical sets and maps.
#[verifier::ext_equal]
pub enum RoleView {
    Follower,
    Candidate { votes_received: Set<NodeId> },
    Leader { next_index: Map<NodeId, LogIndex>, match_index: Map<NodeId, LogIndex> },
}

impl View for Role {
    type V = RoleView;

    open spec fn view(&self) -> RoleView {
        match self {
            Role::Follower => RoleView::Follower,
            Role::Candidate { votes_received } => RoleView::Candidate {
                votes_received: votes_received@,
            },
            Role::Leader { next_index, match_index } => RoleView::Leader {
                next_index: next_index@,
                match_index: match_index@,
            },
        }
    }
}

/// The log holds the entries of index 1, 2, 3 and so on, in that order.
pub open spec fn contiguous(log: Seq<Entry>) -> bool {
    forall|i: int| 0 <= i < log.len() ==> (#[trigger] log[i]).index == i + 1
}

/// Terms never decrease along the log.
pub open spec fn nondecreasing_terms(log: Seq<Entry>) -> bool {
    forall|i: int, j: int| 0 <= i <= j < log.len() ==> log[i].term <= log[j].term
}

/// The term of the entry at 1-based `index`; 0 before the log and past its end.
pub open spec fn term_at(log: Seq<Entry>, index: int) -> Term {
    if 1 <= index <= log.len() {
        log[index - 1].term
    } else {
        0
    }
}

/// The index of the last entry, 0 for an empty log.
pub open spec fn last_index(log: Seq<Entry>) -> LogIndex {
    if log.len() == 0 {
        0
    } else {
        log.last().index
    }
}

/// The term of the last entry, 0 for an empty log.
pub open spec fn last_term(log: Seq<Entry>) -> Term {
    if log.len() == 0 {
        0
    } else {
        log.last().term
    }
}

/// A log is seen as it is: two logs look the same just where they are as long, and
/// have the same index, term and command in every place.
pub proof fn law_a_log_is_seen_entry_by_entry(a: Seq<Entry>, b: Seq<Entry>)
    ensures
        log_view(a).len() == a.len(),
        log_view(a) == log_view(b) <==> a.len() == b.len() && forall|i: int|
            0 <= i < a.len() ==> (#[trigger] a[i]).index == b[i].index && a[i].term == b[i].term
                && same_command(a[i].command, b[i].command),
{
    if log_view(a) == log_view(b) {
        assert(log_view(a).len() == log_view(b).len());
        assert forall|i: int| 0 <= i < a.len() implies (#[trigger] a[i]).index == b[i].index
            && a[i].term == b[i].term && same_command(a[i].command, b[i].command) by {
            assert(log_view(a)[i] == a[i]@ && log_view(b)[i] == b[i]@);
        }
    }
    if a.len() == b.len() && forall|i: int|
        0 <= i < a.len() ==> (#[trigger] a[i]).index == b[i].index && a[i].term == b[i].term
            && same_command(a[i].command, b[i].command) {
        assert forall|i: int| 0 <= i < a.len() implies #[trigger] log_view(a)[i] == log_view(
            b,
        )[i] by {
            assert(a[i].index == b[i].index);
        }
        assert(log_view(a) =~= log_view(b));
    }
}

/// The same kind of command, on the same key, with the same value.
pub open spec fn same_command(a: Command, b: Command) -> bool {
    match (a, b) {
        (Command::Put { key: j, value: v }, Command::Put { key: k, value: w }) => j@ == k@ && v@
            == w@,
        (Command::Delete { key: j }, Command::Delete { key: k }) => j@ == k@,
        (Command::NoOp, Command::NoOp) => true,
        _ => false,
    }
}

/// Where a log ends, and what stands in it where: the entry of an index is the one
/// at that place, counted from 1.
pub proof fn law_a_log_by_its_indices(log: Seq<Entry>, index: int)
    requires
        contiguous(log),
        log.len() <= u64::MAX,
    ensures
        forall|i: int| 0 <= i < log.len() ==> (#[trigger] log[i]).index == i + 1,
        last_index(log) == log.len(),
        log.len() > 0 ==> last_term(log) == log[log.len() - 1].term,
        log.len() == 0 ==> last_term(log) == 0,
        1 <= index <= log.len() ==> term_at(log, index) == log[index - 1].term,
        index < 1 || index > log.len() ==> term_at(log, index) == 0,
        nondecreasing_terms(log) ==> forall|i: int|
            0 < i < log.len() ==> log[i - 1].term <= (#[trigger] log[i]).term,
{
}

} // verus!
