//! Applied key-value state, and the read-only node snapshot served to clients.

use vstd::prelude::*;

use crate::node::{NodeView, RaftNode};
use crate::types::{Command, CommandView, Entry, EntryView, LogIndex, NodeId, Role, RoleView, Term};

verus! {

/// The externally visible role of a node.
#[derive(Clone, Copy, Debug, PartialEq, Eq, Structural)]
pub enum NodeRole {
    Follower,
    Candidate,
    Leader,
}

/// The visible role that belongs to a role.
pub open spec fn visible_role(role: RoleView) -> NodeRole {
    match role {
        RoleView::Follower => NodeRole::Follower,
        RoleView::Candidate { .. } => NodeRole::Candidate,
        RoleView::Leader { .. } => NodeRole::Leader,
    }
}

/// The name of a visible role.
pub open spec fn role_text(role: NodeRole) -> Seq<char> {
    match role {
        NodeRole::Follower => "follower"@,
        NodeRole::Candidate => "candidate"@,
        NodeRole::Leader => "leader"@,
    }
}

impl NodeRole {
    pub fn as_str(self) -> (name: &'static str)
        ensures
            name@ == match self {
                NodeRole::Follower => "follower"@,
                NodeRole::Candidate => "candidate"@,
                NodeRole::Leader => "leader"@,
            },
            name@ == role_text(self),
    {
        match self {
            NodeRole::Follower => "follower",
            NodeRole::Candidate => "candidate",
            NodeRole::Leader => "leader",
        }
    }
}

impl From<&Role> for NodeRole {
    fn from(role: &Role) -> (visible: Self) {
        match role {
            Role::Follower => NodeRole::Follower,
            Role::Candidate { .. } => NodeRole::Candidate,
            Role::Leader { .. } => NodeRole::Leader,
        }
    }
}

impl vstd::std_specs::convert::FromSpecImpl<&Role> for NodeRole {
    open spec fn obeys_from_spec() -> bool {
        true
    }

    open spec fn from_spec(role: &Role) -> Self {
        visible_role(role@)
    }
}

/// A point-in-time status view of a node.
#[derive(Clone, Copy, Debug, PartialEq, Eq)]
pub struct NodeStatus {
    pub node_id: NodeId,
    pub role: NodeRole,
    pub term: Term,
    pub commit_index: LogIndex,
    pub last_applied: LogIndex,
    pub leader_hint: Option<NodeId>,
}

/// The status of a node; a leader names itself as the leader.
pub open spec fn status_of(node: NodeView, last_known_leader: Option<NodeId>) -> NodeStatus {
    NodeStatus {
        node_id: node.id,
        role: visible_role(node.role),
        term: node.hard.current_term,
        commit_index: node.commit_index,
        last_applied: node.last_applied,
        leader_hint: if node.is_leader() {
            Some(node.id)
        } else {
            last_known_leader
        },
    }
}

fn status_from_node(node: &RaftNode, last_known_leader: Option<NodeId>) -> (status: NodeStatus)
    ensures
        status == status_of(node@, last_known_leader),
{
    let role = NodeRole::from(&node.role);
    NodeStatus {
        node_id: node.id,
        role,
        term: node.hard.current_term,
        commit_index: node.commit_index,
        last_applied: node.last_applied,
        leader_hint: if role == NodeRole::Leader {
            Some(node.id)
        } else {
            last_known_leader
        },
    }
}

/// Keys and their values. No key occurs twice.
#[derive(Debug)]
pub struct KvMap {
    entries: Vec<(String, String)>,
}

impl View for KvMap {
    type V = Map<Seq<char>, Seq<char>>;

    closed spec fn view(&self) -> Map<Seq<char>, Seq<char>> {
        Map::new(
            |key: Seq<char>| self.holds(key),
            |key: Seq<char>| self.entries@[self.place(key)].1@,
        )
    }
}

impl KvMap {
    spec fn holds(&self, key: Seq<char>) -> bool {
        exists|i: int| 0 <= i < self.entries@.len() && (#[trigger] self.entries@[i]).0@ == key
    }

    spec fn place(&self, key: Seq<char>) -> int {
        choose|i: int| 0 <= i < self.entries@.len() && (#[trigger] self.entries@[i]).0@ == key
    }

    /// No key occurs twice.
    pub closed spec fn wf(&self) -> bool {
        forall|i: int, j: int|
            #![trigger self.entries@[i], self.entries@[j]]
            0 <= i < j < self.entries@.len() ==> self.entries@[i].0@ != self.entries@[j].0@
    }

    /// No keys at all.
    pub fn new() -> (map: Self)
        ensures
            map.wf(),
            map@ == Map::<Seq<char>, Seq<char>>::empty(),
    {
        let map = KvMap { entries: Vec::new() };
        assert(map@ =~= Map::empty());
        map
    }

    /// Where the key stands.
    fn find(&self, key: &str) -> (at: Option<usize>)
        requires
            self.wf(),
        ensures
            match at {
                Some(i) => i < self.entries@.len() && self.entries@[i as int].0@ == key@ && i
                    == self.place(key@) && self.holds(key@),
                None => !self.holds(key@),
            },
    {
        let wanted: String = key.to_owned();
        let mut i: usize = 0;
        while i < self.entries.len()
            invariant
                self.wf(),
                wanted@ == key@,
                i <= self.entries@.len(),
                forall|j: int| 0 <= j < i ==> (#[trigger] self.entries@[j]).0@ != key@,
            decreases self.entries@.len() - i,
        {
            if self.entries[i].0 == wanted {
                assert(self.entries@[i as int].0@ == key@);
                return Some(i);
            }
            i = i + 1;
        }
        None
    }

    /// The value of the key, if it has one.
    pub fn get(&self, key: &str) -> (value: Option<&String>)
        requires
            self.wf(),
        ensures
            match value {
                Some(v) => self@.contains_key(key@) && v@ == self@[key@],
                None => !self@.contains_key(key@),
            },
    {
        match self.find(key) {
            Some(i) => Some(&self.entries[i].1),
            None => None,
        }
    }

    pub fn contains_key(&self, key: &str) -> (found: bool)
        requires
            self.wf(),
        ensures
            found == self@.contains_key(key@),
    {
        self.find(key).is_some()
    }

    /// Gives the key this value, in place of any that it had.
    pub fn insert(&mut self, key: String, value: String)
        requires
            old(self).wf(),
        ensures
            final(self).wf(),
            final(self)@ == old(self)@.insert(key@, value@),
    {
        let ghost before = *self;
        match self.find(key.as_str()) {
            Some(i) => {
                self.entries.set(i, (key, value));
                proof {
                    assert forall|k: Seq<char>| #[trigger] self@.contains_key(k)
                        <==> before@.insert(key@, value@).contains_key(k) by {
                        lemma_same_keys(before, *self, i as int, k);
                    }
                }
            },
            None => {
                self.entries.push((key, value));
                proof {
                    assert(self.entries@.last().0@ == key@);
                    assert forall|k: Seq<char>| #[trigger] self@.contains_key(k)
                        <==> before@.insert(key@, value@).contains_key(k) by {
                        if before.holds(k) {
                            let j = before.place(k);
                            assert(self.entries@[j] == before.entries@[j]);
                        }
                        if self.holds(k) && k != key@ {
                            let j = self.place(k);
                            assert(before.entries@[j] == self.entries@[j]);
                        }
                    }
                    assert forall|i: int, j: int|
                        #![trigger self.entries@[i], self.entries@[j]]
                        0 <= i < j < self.entries@.len() implies self.entries@[i].0@
                        != self.entries@[j].0@ by {
                        if j == before.entries@.len() {
                            assert(before.entries@[i] == self.entries@[i]);
                        }
                    }
                }
            },
        }
        assert forall|k: Seq<char>| #[trigger] self@.contains_key(k) implies self@[k]
            == before@.insert(key@, value@)[k] by {
            let j = self.place(k);
            assert(self.entries@[j].0@ == k);
            if k == key@ {
                let at = choose|at: int|
                    0 <= at < self.entries@.len() && (#[trigger] self.entries@[at]) == (key, value);
                assert(self.entries@[at].0@ == self.entries@[j].0@);
                assert(at == j);
            } else {
                assert(j < before.entries@.len());
                assert(before.entries@[j] == self.entries@[j]);
                assert(before.entries@[before.place(k)].0@ == before.entries@[j].0@);
                assert(before.place(k) == j);
            }
        }
        assert(self@ =~= before@.insert(key@, value@));
    }

    /// Removes the key, if it is there.
    pub fn remove(&mut self, key: &str)
        requires
            old(self).wf(),
        ensures
            final(self).wf(),
            final(self)@ == old(self)@.remove(key@),
    {
        let ghost before = *self;
        match self.find(key) {
            Some(i) => {
                self.entries.remove(i);
                proof {
                    let at = i as int;
                    assert forall|j: int| 0 <= j < self.entries@.len() implies #[trigger]
                        self.entries@[j] == before.entries@[if j < at {
                        j
                    } else {
                        j + 1
                    }] by {}
                    assert forall|k: Seq<char>| #[trigger] self@.contains_key(k)
                        <==> before@.remove(key@).contains_key(k) by {
                        if before.holds(k) && k != key@ {
                            let j = before.place(k);
                            assert(j != at);
                            assert(self.entries@[if j < at {
                                j
                            } else {
                                j - 1
                            }].0@ == k);
                        }
                        if self.holds(k) {
                            let j = self.place(k);
                            let b = if j < at {
                                j
                            } else {
                                j + 1
                            };
                            assert(before.entries@[b].0@ == k);
                            assert(b != at);
                            assert(before.entries@[at].0@ != before.entries@[b].0@);
                        }
                    }
                    assert forall|k: Seq<char>| #[trigger] self@.contains_key(k) implies self@[k]
                        == before@.remove(key@)[k] by {
                        let j = self.place(k);
                        let b = if j < at {
                            j
                        } else {
                            j + 1
                        };
                        assert(self.entries@[j].0@ == k);
                        assert(before.entries@[b].0@ == k);
                        assert(before.entries@[before.place(k)].0@ == before.entries@[b].0@);
                        assert(before.place(k) == b);
                    }
                    assert forall|x: int, y: int|
                        #![trigger self.entries@[x], self.entries@[y]]
                        0 <= x < y < self.entries@.len() implies self.entries@[x].0@
                        != self.entries@[y].0@ by {}
                }
            },
            None => {},
        }
        assert(self@ =~= before@.remove(key@));
    }
}

proof fn lemma_same_keys(a: KvMap, b: KvMap, i: int, k: Seq<char>)
    requires
        0 <= i < a.entries@.len(),
        b.entries@.len() == a.entries@.len(),
        forall|j: int| 0 <= j < a.entries@.len() ==> (#[trigger] b.entries@[j]).0@ == a.entries@[j].0@,
    ensures
        a.holds(k) == b.holds(k),
{
    if a.holds(k) {
        assert(b.entries@[a.place(k)].0@ == k);
    }
    if b.holds(k) {
        assert(a.entries@[b.place(k)].0@ == k);
    }
}

impl Clone for KvMap {
    fn clone(&self) -> (out: Self)
        ensures
            out@ == self@,
            self.wf() ==> out.wf(),
    {
        let mut entries: Vec<(String, String)> = Vec::new();
        let mut i: usize = 0;
        while i < self.entries.len()
            invariant
                i <= self.entries@.len(),
                entries@ == self.entries@.take(i as int),
            decreases self.entries@.len() - i,
        {
            entries.push((self.entries[i].0.clone(), self.entries[i].1.clone()));
            assert(self.entries@.take(i + 1) =~= self.entries@.take(i as int).push(
                self.entries@[i as int],
            ));
            i = i + 1;
        }
        assert(entries@ =~= self.entries@);
        let out = KvMap { entries };
        assert(out@ =~= self@) by {
            assert forall|k: Seq<char>| out.holds(k) == self.holds(k) && out.place(k) == self.place(
                k,
            ) by {
                assert(out.entries@ == self.entries@);
            }
        }
        out
    }
}

/// A consistent read snapshot.
#[derive(Debug)]
pub struct ReadSnapshot {
    pub status: NodeStatus,
    pub values: KvMap,
}

/// The state that the single-writer driver keeps up to date and clients read:
/// the values, and the status that says how fresh they are.
#[derive(Debug)]
pub struct SharedReadState {
    pub status: NodeStatus,
    pub values: KvMap,
}

/// The values after a command.
pub open spec fn applied(
    values: Map<Seq<char>, Seq<char>>,
    command: CommandView,
) -> Map<Seq<char>, Seq<char>> {
    match command {
        CommandView::Put { key, value } => values.insert(key, value),
        CommandView::Delete { key } => values.remove(key),
        CommandView::NoOp => values,
    }
}

/// What a read of the key finds.
pub open spec fn read_value(values: Map<Seq<char>, Seq<char>>, key: Seq<char>) -> Option<Seq<char>> {
    if values.contains_key(key) {
        Some(values[key])
    } else {
        None
    }
}

/// The status once the entry at the index is applied.
pub open spec fn applied_status(status: NodeStatus, index: LogIndex) -> NodeStatus {
    NodeStatus {
        last_applied: index,
        commit_index: if status.commit_index > index {
            status.commit_index
        } else {
            index
        },
        ..status
    }
}

/// The values after the entries, in order.
pub open spec fn applied_all(
    values: Map<Seq<char>, Seq<char>>,
    entries: Seq<EntryView>,
) -> Map<Seq<char>, Seq<char>>
    decreases entries.len(),
{
    if entries.len() == 0 {
        values
    } else {
        applied(applied_all(values, entries.drop_last()), entries.last().command)
    }
}

/// A key that was put reads as the last value put, as long as it is not deleted.
pub proof fn law_last_write_wins(
    values: Map<Seq<char>, Seq<char>>,
    entries: Seq<EntryView>,
    at: int,
    key: Seq<char>,
    value: Seq<char>,
)
    requires
        0 <= at < entries.len(),
        entries[at].command == (CommandView::Put { key, value }),
        forall|i: int|
            at < i < entries.len() ==> match (#[trigger] entries[i]).command {
                CommandView::Put { key: k, .. } => k != key,
                CommandView::Delete { key: k } => k != key,
                CommandView::NoOp => true,
            },
    ensures
        applied_all(values, entries).contains_key(key),
        applied_all(values, entries)[key] == value,
    decreases entries.len(),
{
    if at < entries.len() - 1 {
        law_last_write_wins(values, entries.drop_last(), at, key, value);
    }
}

/// A deleted key reads as absent until it is put again.
pub proof fn law_deleted_reads_absent(
    values: Map<Seq<char>, Seq<char>>,
    entries: Seq<EntryView>,
    at: int,
    key: Seq<char>,
)
    requires
        0 <= at < entries.len(),
        entries[at].command == (CommandView::Delete { key }),
        forall|i: int|
            at < i < entries.len() ==> match (#[trigger] entries[i]).command {
                CommandView::Put { key: k, .. } => k != key,
                _ => true,
            },
    ensures
        !applied_all(values, entries).contains_key(key),
    decreases entries.len(),
{
    if at < entries.len() - 1 {
        law_deleted_reads_absent(values, entries.drop_last(), at, key);
    }
}

impl SharedReadState {
    pub fn from_node(node: &RaftNode) -> (state: Self)
        ensures
            state.status == status_of(node@, None),
            state.values.wf(),
            state.values@ == Map::<Seq<char>, Seq<char>>::empty(),
    {
        SharedReadState { status: status_from_node(node, None), values: KvMap::new() }
    }

    pub fn snapshot(&self) -> (snapshot: ReadSnapshot)
        ensures
            snapshot.status == self.status,
            snapshot.values@ == self.values@,
            self.values.wf() ==> snapshot.values.wf(),
    {
        ReadSnapshot { status: self.status, values: self.values.clone() }
    }

    pub fn status(&self) -> (status: NodeStatus)
        ensures
            status == self.status,
    {
        self.status
    }

    /// Reads one value together with its status watermark.
    pub fn get(&self, key: &str) -> (out: (NodeStatus, Option<String>))
        requires
            self.values.wf(),
        ensures
            out.0 == self.status,
            match out.1 {
                Some(value) => self.values@.contains_key(key@) && value@ == self.values@[key@],
                None => !self.values@.contains_key(key@),
            },
            read_value(self.values@, key@) == match out.1 {
                Some(value) => Some(value@),
                None => None,
            },
    {
        let value = match self.values.get(key) {
            Some(value) => Some(value.clone()),
            None => None,
        };
        (self.status, value)
    }

    /// Applies a committed entry. The values and their staleness watermark move
    /// together.
    pub fn apply(&mut self, entry: &Entry)
        requires
            old(self).values.wf(),
        ensures
            final(self).values.wf(),
            final(self).values@ == applied(old(self).values@, entry@.command),
            final(self).status == (NodeStatus {
                last_applied: entry.index,
                commit_index: if old(self).status.commit_index > entry.index {
                    old(self).status.commit_index
                } else {
                    entry.index
                },
                ..old(self).status
            }),
            final(self).status == applied_status(old(self).status, entry.index),
    {
        match &entry.command {
            Command::Put { key, value } => {
                self.values.insert(key.clone(), value.clone());
            },
            Command::Delete { key } => {
                self.values.remove(key.as_str());
            },
            Command::NoOp => {},
        }
        self.status.last_applied = entry.index;
        if entry.index > self.status.commit_index {
            self.status.commit_index = entry.index;
        }
    }

    /// Takes the status over from the node; the values stay.
    pub fn refresh_status(&mut self, node: &RaftNode, last_known_leader: Option<NodeId>)
        ensures
            final(self).status == status_of(node@, last_known_leader),
            final(self).values == old(self).values,
    {
        self.status = status_from_node(node, last_known_leader);
    }
}

/// A node is shown as leading just where it leads, as campaigning just where it
/// campaigns, and as following just where it follows.
pub proof fn law_the_role_is_shown_as_it_is(node: NodeView, last_known_leader: Option<NodeId>)
    ensures
        ({
            let role = status_of(node, last_known_leader).role;
            &&& role == NodeRole::Leader <==> node.role is Leader
            &&& role == NodeRole::Candidate <==> node.role is Candidate
            &&& role == NodeRole::Follower <==> node.role is Follower
            &&& role == visible_role(node.role)
        }),
{
}

/// A role becomes the visible one of the same name, and each has its own text.
pub proof fn law_roles_keep_their_names(role: Role)
    ensures
        ({
            let visible = <NodeRole as vstd::std_specs::convert::FromSpec<&Role>>::from_spec(&role);
            &&& role is Leader <==> visible == NodeRole::Leader
            &&& role is Candidate <==> visible == NodeRole::Candidate
            &&& role is Follower <==> visible == NodeRole::Follower
            &&& role is Leader ==> role_text(visible) == "leader"@
            &&& role is Candidate ==> role_text(visible) == "candidate"@
            &&& role is Follower ==> role_text(visible) == "follower"@
        }),
{
}

/// A leader names itself as the leader, and anyone else the one last known; the
/// rest of the status is the node's own.
pub proof fn law_the_status_is_the_nodes_own(node: NodeView, last_known_leader: Option<NodeId>)
    ensures
        ({
            let status = status_of(node, last_known_leader);
            &&& status.node_id == node.id
            &&& status.term == node.hard.current_term
            &&& status.commit_index == node.commit_index
            &&& status.last_applied == node.last_applied
            &&& node.role is Leader ==> status.leader_hint == Some(node.id)
            &&& !(node.role is Leader) ==> status.leader_hint == last_known_leader
        }),
{
}

/// A command touches no key but its own; a put gives it the value, a delete takes
/// it away, and a no-op does nothing.
pub proof fn law_a_command_touches_its_key_only(
    values: Map<Seq<char>, Seq<char>>,
    command: CommandView,
    k: Seq<char>,
)
    ensures
        ({
            let after = applied(values, command);
            let own = match command {
                CommandView::Put { key, .. } => key == k,
                CommandView::Delete { key } => key == k,
                CommandView::NoOp => false,
            };
            &&& !own ==> (after.contains_key(k) <==> values.contains_key(k)) && (
            values.contains_key(k) ==> after[k] == values[k])
            &&& own && command is Put ==> after.contains_key(k) && after[k] == command->value
            &&& own && command is Delete ==> !after.contains_key(k)
        }),
{
}

/// The watermark moves with the values: it is the index of the entry last applied,
/// what is committed is never shown as less, and nothing else of the status moves.
pub proof fn law_the_watermark_moves_with_the_values(status: NodeStatus, index: LogIndex)
    ensures
        ({
            let after = applied_status(status, index);
            &&& after.last_applied == index
            &&& after.commit_index >= index
            &&& after.commit_index >= status.commit_index
            &&& after.commit_index == index || after.commit_index == status.commit_index
            &&& after.node_id == status.node_id
            &&& after.role == status.role
            &&& after.term == status.term
            &&& after.leader_hint == status.leader_hint
        }),
{
}

/// A read finds a key just where it has a value, and then that value.
pub proof fn law_a_read_finds_what_is_there(
    values: Map<Seq<char>, Seq<char>>,
    key: Seq<char>,
    value: Seq<char>,
)
    ensures
        read_value(values, key) is Some <==> values.contains_key(key),
        values.contains_key(key) ==> read_value(values, key) == Some(values[key]),
        read_value(applied(values, CommandView::Put { key, value }), key) == Some(value),
        read_value(applied(values, CommandView::Delete { key }), key) is None,
{
}

} // verus!
