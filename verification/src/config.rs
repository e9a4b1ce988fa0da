//! The command line's view of the cluster: peers as `id@host:port`.

use vstd::prelude::*;
use vstd::string::StringExecFns;

use crate::text::{byte_value, decimal, parse_byte, push_decimal, NumberError};
use crate::types::NodeId;

verus! {

/// Why a peer's text is not taken.
#[derive(Clone, Copy, Debug, PartialEq, Eq)]
pub enum PeerError {
    /// There is no `@` in it.
    MissingAt,
    /// What stands before the first `@` is no node id.
    BadId(NumberError),
}

/// A peer's id, and the text of its address.
#[derive(Clone, Debug, PartialEq, Eq)]
pub struct PeerText {
    pub id: NodeId,
    pub addr: String,
}

/// The place of the first `@` from the `i`-th character on.
pub open spec fn first_at(s: Seq<char>, i: int) -> Option<int>
    decreases s.len() - i,
{
    if i >= s.len() {
        None
    } else if s[i] == '@' {
        Some(i)
    } else {
        first_at(s, i + 1)
    }
}

/// Whether this is what the text of a peer is read as.
pub open spec fn peer_read(s: Seq<char>, out: Result<PeerText, PeerError>) -> bool {
    match first_at(s, 0) {
        None => out == Err::<PeerText, _>(PeerError::MissingAt),
        Some(at) => match byte_value(s.take(at)) {
            Ok(id) => out matches Ok(peer) && peer.id == id && peer.addr@ == s.skip(at + 1),
            Err(e) => out == Err::<PeerText, _>(PeerError::BadId(e)),
        },
    }
}

/// Splits `id@addr` at the first `@` and reads the id.
pub fn split_peer(s: &str) -> (out: Result<PeerText, PeerError>)
    ensures
        match first_at(s@, 0) {
            None => out == Err::<PeerText, _>(PeerError::MissingAt),
            Some(at) => match byte_value(s@.take(at)) {
                Ok(id) => out matches Ok(peer) && peer.id == id && peer.addr@ == s@.skip(at + 1),
                Err(e) => out == Err::<PeerText, _>(PeerError::BadId(e)),
            },
        },
        peer_read(s@, out),
{
    let len: usize = s.unicode_len();
    let mut i: usize = 0;
    while i < len
        invariant
            len == s@.len(),
            i <= len,
            first_at(s@, 0) == first_at(s@, i as int),
        decreases len - i,
    {
        if s.get_char(i) == '@' {
            let id_text = s.substring_char(0, i);
            assert(id_text@ =~= s@.take(i as int));
            let addr_text = s.substring_char(i + 1, len);
            assert(addr_text@ =~= s@.skip(i + 1));
            return match parse_byte(id_text) {
                Ok(id) => Ok(PeerText { id, addr: addr_text.to_owned() }),
                Err(e) => Err(PeerError::BadId(e)),
            };
        }
        i = i + 1;
    }
    Err(PeerError::MissingAt)
}

/// Why a cluster configuration is not taken.
#[derive(Clone, Copy, Debug, PartialEq, Eq)]
pub enum ConfigError {
    /// The node lists itself among its peers.
    SelfListed { id: NodeId },
    /// A peer is listed twice.
    DuplicatePeer,
}

impl ConfigError {
    /// The error in words.
    pub fn describe(&self) -> (text: String)
        ensures
            text@ == match *self {
                ConfigError::SelfListed { id } =>
                    "--peers must list only other nodes, but contains this node's id "@ + decimal(
                    id as nat,
                ),
                ConfigError::DuplicatePeer => "--peers contains duplicate node ids"@,
            },
    {
        match self {
            ConfigError::SelfListed { id } => {
                let mut text = "--peers must list only other nodes, but contains this node's id ".to_owned();
                push_decimal(&mut text, *id as u64);
                text
            },
            ConfigError::DuplicatePeer => "--peers contains duplicate node ids".to_owned(),
        }
    }
}

/// What is wrong with the peers of a node, if anything.
pub open spec fn config_fault(id: NodeId, peers: Seq<NodeId>) -> Option<ConfigError> {
    if peers.contains(id) {
        Some(ConfigError::SelfListed { id })
    } else if !peers.no_duplicates() {
        Some(ConfigError::DuplicatePeer)
    } else {
        None
    }
}

/// Whether the peers are other nodes, each listed once; a node that lists itself
/// is told so first.
pub fn validate(id: NodeId, peers: &[NodeId]) -> (out: Result<(), ConfigError>)
    ensures
        out == if peers@.contains(id) {
            Err::<(), _>(ConfigError::SelfListed { id })
        } else if !peers@.no_duplicates() {
            Err::<(), _>(ConfigError::DuplicatePeer)
        } else {
            Ok(())
        },
        out == match config_fault(id, peers@) {
            Some(e) => Err::<(), _>(e),
            None => Ok(()),
        },
{
    let mut i: usize = 0;
    while i < peers.len()
        invariant
            i <= peers@.len(),
            forall|j: int| 0 <= j < i ==> #[trigger] peers@[j] != id,
        decreases peers@.len() - i,
    {
        if peers[i] == id {
            assert(peers@[i as int] == id);
            return Err(ConfigError::SelfListed { id });
        }
        i = i + 1;
    }
    let mut a: usize = 0;
    while a < peers.len()
        invariant
            a <= peers@.len(),
            !peers@.contains(id),
            forall|x: int, y: int|
                #![trigger peers@[x], peers@[y]]
                0 <= x < a && x < y < peers@.len() ==> peers@[x] != peers@[y],
        decreases peers@.len() - a,
    {
        let mut b: usize = a + 1;
        while b < peers.len()
            invariant
                a < b <= peers@.len(),
                !peers@.contains(id),
                forall|y: int| a < y < b ==> peers@[a as int] != #[trigger] peers@[y],
            decreases peers@.len() - b,
        {
            if peers[a] == peers[b] {
                assert(peers@[a as int] == peers@[b as int]);
                return Err(ConfigError::DuplicatePeer);
            }
            b = b + 1;
        }
        a = a + 1;
    }
    Ok(())
}

/// A peer's text is split at its first `@`, just where it has one.
pub proof fn law_the_first_at_splits(s: Seq<char>)
    ensures
        match first_at(s, 0) {
            Some(at) => 0 <= at < s.len() && s[at] == '@' && forall|i: int|
                0 <= i < at ==> #[trigger] s[i] != '@',
            None => forall|i: int| 0 <= i < s.len() ==> #[trigger] s[i] != '@',
        },
{
    lemma_first_at(s, 0);
}

/// The text of a peer is an id, an `@` and an address, and is read as these; the
/// address is all that follows, further `@` or not. A text without an `@` is
/// refused as such, and so is one whose id is not a byte.
pub proof fn law_a_peer_is_an_id_and_an_address(
    id: Seq<char>,
    addr: Seq<char>,
    out: Result<PeerText, PeerError>,
)
    requires
        forall|i: int| 0 <= i < id.len() ==> #[trigger] id[i] != '@',
        peer_read(id.push('@') + addr, out),
    ensures
        match byte_value(id) {
            Ok(n) => out matches Ok(peer) && peer.id == n && peer.addr@ == addr,
            Err(e) => out == Err::<PeerText, _>(PeerError::BadId(e)),
        },
        forall|other: Result<PeerText, PeerError>| #[trigger]
            peer_read(id, other) ==> other == Err::<PeerText, _>(PeerError::MissingAt),
{
    let s = id.push('@') + addr;
    let n = id.len() as int;
    law_the_first_at_splits(s);
    law_the_first_at_splits(id);
    assert(s[n] == '@');
    assert forall|i: int| 0 <= i < n implies #[trigger] s[i] != '@' by {
        assert(s[i] == id[i]);
    }
    assert(first_at(s, 0) == Some(n)) by {
        let at = first_at(s, 0)->0;
        if at < n {
            assert(s[at] != '@');
        }
    }
    assert(s.take(n) =~= id);
    assert(s.skip(n + 1) =~= addr);
}

proof fn lemma_first_at(s: Seq<char>, i: int)
    requires
        0 <= i,
    ensures
        match first_at(s, i) {
            Some(at) => i <= at < s.len() && s[at] == '@' && forall|j: int|
                i <= j < at ==> #[trigger] s[j] != '@',
            None => forall|j: int| i <= j < s.len() ==> #[trigger] s[j] != '@',
        },
    decreases s.len() - i,
{
    if i < s.len() && s[i] != '@' {
        lemma_first_at(s, i + 1);
    }
}

/// A configuration is taken just where no peer is the node itself and no two peers
/// are the same.
pub proof fn law_peers_are_other_nodes_each_once(id: NodeId, peers: Seq<NodeId>)
    ensures
        config_fault(id, peers) is None <==> {
            &&& forall|i: int| 0 <= i < peers.len() ==> #[trigger] peers[i] != id
            &&& forall|i: int, j: int| 0 <= i < j < peers.len() ==> peers[i] != peers[j]
        },
        config_fault(id, peers) == Some(ConfigError::SelfListed { id }) <==> exists|i: int|
            0 <= i < peers.len() && #[trigger] peers[i] == id,
{
    if peers.contains(id) {
        let i = choose|i: int| 0 <= i < peers.len() && peers[i] == id;
        assert(peers[i] == id);
    }
    if exists|i: int| 0 <= i < peers.len() && #[trigger] peers[i] == id {
        let i = choose|i: int| 0 <= i < peers.len() && #[trigger] peers[i] == id;
        assert(peers.contains(peers[i]));
    }
    if forall|i: int, j: int| 0 <= i < j < peers.len() ==> peers[i] != peers[j] {
        assert(peers.no_duplicates());
    }
}

} // verus!
