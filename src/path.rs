use vstd::prelude::*;

use crate::address::{token_eq, SocketAddress, Token};
use crate::error::Error;

verus! {

/// Where a path stands in its validation life cycle. `Closed` is terminal.
#[derive(Debug, Clone, Copy, PartialEq, Eq, Structural)]
pub enum PathState {
    Validating,
    Active,
    Closed,
}

/// One candidate network route of the connection.
#[derive(Debug)]
pub struct PathEntry {
    /// Identifier, equal to the position of the path in creation order.
    pub id: u64,
    /// The state of this path.
    pub state: PathState,
    /// The peer half of the 4-tuple.
    pub peer_addr: SocketAddress,
    /// The local half of the 4-tuple.
    pub local_addr: SocketAddress,
    /// Whether the peer address has passed anti-spoofing verification.
    pub verified_peer_addr: bool,
    /// The token of the PATH_CHALLENGE sent on this path and not yet answered.
    pub challenge: Option<Token>,
    /// Tokens of received PATH_CHALLENGE frames awaiting a PATH_RESPONSE,
    /// oldest first.
    pub responses: Vec<Token>,
}

/// Whether `e` is the path between `peer` and `local`.
pub open spec fn has_pair(e: PathEntry, peer: SocketAddress, local: SocketAddress) -> bool {
    e.peer_addr == peer && e.local_addr == local
}

/// Whether `e` is a path that was just created.
pub open spec fn is_fresh(
    e: PathEntry,
    id: u64,
    peer: SocketAddress,
    local: SocketAddress,
    verified: bool,
) -> bool {
    &&& e.id == id
    &&& e.state == PathState::Validating
    &&& has_pair(e, peer, local)
    &&& e.verified_peer_addr == verified
    &&& e.challenge is None
    &&& e.responses@.len() == 0
}

/// Whether `a` and `b` have the same identifier and addresses.
pub open spec fn same_route(a: PathEntry, b: PathEntry) -> bool {
    a.id == b.id && a.peer_addr == b.peer_addr && a.local_addr == b.local_addr
}

/// The table invariant: identifiers are positions, and no two paths share
/// an address pair.
pub open spec fn table_wf(s: Seq<PathEntry>) -> bool {
    &&& s.len() <= u64::MAX
    &&& forall|i: int| 0 <= i < s.len() ==> #[trigger] s[i].id == i
    &&& forall|i: int, j: int|
        0 <= i < s.len() && 0 <= j < s.len() && i != j ==> !has_pair(
            #[trigger] s[i],
            s[j].peer_addr,
            #[trigger] s[j].local_addr,
        )
}

/// Whether some path of `s` is the one between `peer` and `local`.
pub open spec fn pair_known(s: Seq<PathEntry>, peer: SocketAddress, local: SocketAddress) -> bool {
    exists|i: int| 0 <= i < s.len() && has_pair(#[trigger] s[i], peer, local)
}

/// What `activate` returns for the path at position `i` of `s`.
pub open spec fn activation_outcome(
    s: Seq<PathEntry>,
    i: int,
    presented: Option<Token>,
    r: Result<u64, Error>,
) -> bool {
    if s[i].state == PathState::Closed {
        r == Err::<u64, Error>(Error::InvalidState)
    } else if s[i].challenge != presented {
        r == Err::<u64, Error>(Error::ChallengeMismatch)
    } else {
        r == Ok::<u64, Error>(i as u64)
    }
}

/// Whether `t` is `s` with the path at position `i` activated.
pub open spec fn activated(s: Seq<PathEntry>, t: Seq<PathEntry>, i: int) -> bool {
    &&& 0 <= i < s.len()
    &&& t.len() == s.len()
    &&& forall|j: int| 0 <= j < s.len() && j != i ==> t[j] == s[j]
    &&& same_route(s[i], t[i])
    &&& t[i].state == PathState::Active
    &&& t[i].challenge is None
    &&& t[i].verified_peer_addr == s[i].verified_peer_addr
    &&& t[i].responses@ == s[i].responses@
}

/// Whether some path of `s` holds `token` as its outstanding challenge.
pub open spec fn challenge_known(s: Seq<PathEntry>, token: Token) -> bool {
    exists|i: int| 0 <= i < s.len() && #[trigger] s[i].challenge == Some(token)
}

/// Whether `b` is `a` after the verification of peer address `peer`.
pub open spec fn verified_update(a: PathEntry, b: PathEntry, peer: SocketAddress) -> bool {
    &&& same_route(a, b)
    &&& b.state == a.state
    &&& b.challenge == a.challenge
    &&& b.responses@ == a.responses@
    &&& b.verified_peer_addr == (a.verified_peer_addr || a.peer_addr == peer)
}

/// Whether `b` is `a` with its owed responses replaced by `q`.
pub open spec fn with_responses(a: PathEntry, b: PathEntry, q: Seq<Token>) -> bool {
    &&& same_route(a, b)
    &&& b.state == a.state
    &&& b.challenge == a.challenge
    &&& b.verified_peer_addr == a.verified_peer_addr
    &&& b.responses@ == q
}

/// Identifiers count up from 0 in creation order: each path's identifier
/// is its position, so they strictly increase, one at a time.
pub proof fn lemma_ids_count_up(s: Seq<PathEntry>)
    requires
        table_wf(s),
    ensures
        s.len() > 0 ==> s[0].id == 0,
        forall|i: int| 0 < i < s.len() ==> #[trigger] s[i].id == s[i - 1].id + 1,
        forall|i: int, j: int| 0 <= i < j < s.len() ==> #[trigger] s[i].id < #[trigger] s[j].id,
{
    assert forall|i: int| 0 < i < s.len() implies #[trigger] s[i].id == s[i - 1].id + 1 by {
        assert(s[i - 1].id == i - 1);
    }
}

/// A path that holds `token` as its outstanding challenge, which is what a
/// retransmission looks up, is activated by presenting that same token on
/// its address pair, unless it was closed: it is the only path with that
/// pair.
pub proof fn lemma_retransmit_then_activate(s: Seq<PathEntry>, token: Token, id: int)
    requires
        table_wf(s),
        0 <= id < s.len(),
        s[id].challenge == Some(token),
        s[id].state != PathState::Closed,
    ensures
        forall|i: int|
            0 <= i < s.len() && has_pair(#[trigger] s[i], s[id].peer_addr, s[id].local_addr) ==> i
                == id,
        activation_outcome(s, id, Some(token), Ok::<u64, Error>(id as u64)),
{
    assert forall|i: int|
        0 <= i < s.len() && has_pair(#[trigger] s[i], s[id].peer_addr, s[id].local_addr) implies i
        == id by {
        if i != id {
            assert(!has_pair(s[i], s[id].peer_addr, s[id].local_addr));
        }
    }
}

/// The paths of one connection, in creation order.
pub struct PathEntries {
    entries: Vec<PathEntry>,
    next_path_id: u64,
}

impl View for PathEntries {
    type V = Seq<PathEntry>;

    closed spec fn view(&self) -> Seq<PathEntry> {
        self.entries@
    }
}

impl PathEntries {
    /// The identifier that the next successful creation takes.
    pub closed spec fn next_id(&self) -> nat {
        self.next_path_id as nat
    }

    pub open spec fn wf(&self) -> bool {
        table_wf(self@) && self.next_id() == self@.len()
    }

    /// An empty table.
    pub fn new() -> (r: PathEntries)
        ensures
            r.wf(),
            r@.len() == 0,
    {
        PathEntries { entries: Vec::new(), next_path_id: 0 }
    }

    /// The number of paths.
    pub fn len(&self) -> (r: usize)
        ensures
            r == self@.len(),
    {
        self.entries.len()
    }

    /// The path with identifier `id`.
    pub fn get(&self, id: u64) -> (r: Option<&PathEntry>)
        requires
            self.wf(),
        ensures
            match r {
                Some(e) => id < self@.len() && *e == self@[id as int],
                None => id >= self@.len(),
            },
    {
        if id < self.entries.len() as u64 {
            Some(&self.entries[id as usize])
        } else {
            None
        }
    }

    /// The position of the path between `peer` and `local`.
    pub fn find_by_address_pair(&self, peer: SocketAddress, local: SocketAddress) -> (r: Option<
        usize,
    >)
        ensures
            match r {
                Some(i) => i < self@.len() && has_pair(self@[i as int], peer, local),
                None => !pair_known(self@, peer, local),
            },
    {
        let mut i: usize = 0;
        while i < self.entries.len()
            invariant
                0 <= i <= self@.len(),
                self@ == self.entries@,
                forall|j: int| 0 <= j < i ==> !has_pair(#[trigger] self@[j], peer, local),
            decreases self@.len() - i,
        {
            if self.entries[i].peer_addr == peer && self.entries[i].local_addr == local {
                return Some(i);
            }
            i = i + 1;
        }
        None
    }

    /// Creates the path between `peer` and `local`, in state `Validating`,
    /// with the next identifier.
    pub fn add(&mut self, peer: SocketAddress, verified: bool, local: SocketAddress) -> (r: Result<
        u64,
        Error,
    >)
        requires
            old(self).wf(),
            old(self)@.len() < u64::MAX,
        ensures
            final(self).wf(),
            r matches Ok(id) ==> id == old(self).next_id() && final(self).next_id() == id + 1,
            r is Err ==> final(self).next_id() == old(self).next_id(),
            pair_known(old(self)@, peer, local) ==> r == Err::<u64, Error>(
                Error::DuplicateAddressPair,
            ) && final(self)@ == old(self)@,
            !pair_known(old(self)@, peer, local) ==> {
                &&& r == Ok::<u64, Error>(old(self)@.len() as u64)
                &&& final(self)@.len() == old(self)@.len() + 1
                &&& final(self)@.drop_last() == old(self)@
                &&& is_fresh(final(self)@.last(), old(self)@.len() as u64, peer, local, verified)
            },
    {
        if let Some(_) = self.find_by_address_pair(peer, local) {
            return Err(Error::DuplicateAddressPair);
        }
        let id = self.next_path_id;
        self.entries.push(
            PathEntry {
                id,
                state: PathState::Validating,
                peer_addr: peer,
                local_addr: local,
                verified_peer_addr: verified,
                challenge: None,
                responses: Vec::new(),
            },
        );
        self.next_path_id = id + 1;
        assert(self@.drop_last() =~= old(self)@);
        Ok(id)
    }

    /// Marks the path between `peer` and `local` as `Active` if `presented`
    /// is its outstanding challenge (both absent included), and clears the
    /// challenge.
    pub fn activate(
        &mut self,
        peer: SocketAddress,
        local: SocketAddress,
        presented: Option<Token>,
    ) -> (r: Result<u64, Error>)
        requires
            old(self).wf(),
        ensures
            final(self).wf(),
            !pair_known(old(self)@, peer, local) ==> r == Err::<u64, Error>(Error::NotFound),
            forall|i: int|
                0 <= i < old(self)@.len() && has_pair(#[trigger] old(self)@[i], peer, local)
                    ==> activation_outcome(old(self)@, i, presented, r),
            r is Err ==> final(self)@ == old(self)@,
            r matches Ok(id) ==> activated(old(self)@, final(self)@, id as int),
    {
        match self.find_by_address_pair(peer, local) {
            None => Err(Error::NotFound),
            Some(i) => {
                if self.entries[i].state == PathState::Closed {
                    return Err(Error::InvalidState);
                }
                let same = match (self.entries[i].challenge, presented) {
                    (None, None) => true,
                    (Some(a), Some(b)) => token_eq(&a, &b),
                    _ => false,
                };
                if !same {
                    return Err(Error::ChallengeMismatch);
                }
                self.entries[i].state = PathState::Active;
                self.entries[i].challenge = None;
                Ok(i as u64)
            },
        }
    }

    /// Appends `token`, received in a PATH_CHALLENGE, to the responses that
    /// the path between `peer` and `local` owes, whatever its state.
    pub fn record_inbound_challenge(
        &mut self,
        peer: SocketAddress,
        local: SocketAddress,
        token: Token,
    ) -> (r: Result<u64, Error>)
        requires
            old(self).wf(),
        ensures
            final(self).wf(),
            !pair_known(old(self)@, peer, local) ==> r == Err::<u64, Error>(Error::NotFound)
                && final(self)@ == old(self)@,
            forall|i: int|
                0 <= i < old(self)@.len() && has_pair(#[trigger] old(self)@[i], peer, local) ==> r
                    == Ok::<u64, Error>(i as u64),
            r matches Ok(id) ==> {
                &&& id < old(self)@.len()
                &&& has_pair(old(self)@[id as int], peer, local)
                &&& final(self)@.len() == old(self)@.len()
                &&& forall|j: int|
                    0 <= j < old(self)@.len() && j != id ==> final(self)@[j] == old(self)@[j]
                &&& with_responses(
                    old(self)@[id as int],
                    final(self)@[id as int],
                    old(self)@[id as int].responses@.push(token),
                )
            },
    {
        match self.find_by_address_pair(peer, local) {
            None => Err(Error::NotFound),
            Some(i) => {
                self.entries[i].responses.push(token);
                Ok(i as u64)
            },
        }
    }

    /// The first path whose outstanding challenge is `token`.
    pub fn find_by_challenge_token(&self, token: Token) -> (r: Result<u64, Error>)
        requires
            self.wf(),
        ensures
            r is Err ==> r == Err::<u64, Error>(Error::NotFound),
            r is Err <==> !challenge_known(self@, token),
            r matches Ok(id) ==> {
                &&& id < self@.len()
                &&& self@[id as int].challenge == Some(token)
                &&& forall|j: int| 0 <= j < id ==> #[trigger] self@[j].challenge != Some(token)
            },
    {
        let mut i: usize = 0;
        while i < self.entries.len()
            invariant
                0 <= i <= self@.len(),
                self@ == self.entries@,
                forall|j: int| 0 <= j < i ==> #[trigger] self@[j].challenge != Some(token),
            decreases self@.len() - i,
        {
            if let Some(c) = self.entries[i].challenge {
                if token_eq(&c, &token) {
                    return Ok(i as u64);
                }
            }
            i = i + 1;
        }
        Err(Error::NotFound)
    }

    /// Attaches `token` as the outstanding challenge of path `id`, replacing
    /// an unanswered one.
    pub fn set_outstanding_challenge(&mut self, id: u64, token: Token) -> (r: Result<(), Error>)
        requires
            old(self).wf(),
        ensures
            final(self).wf(),
            id >= old(self)@.len() ==> r == Err::<(), Error>(Error::NotFound),
            id < old(self)@.len() && old(self)@[id as int].state == PathState::Closed ==> r == Err::<
                (),
                Error,
            >(Error::InvalidState),
            id < old(self)@.len() && old(self)@[id as int].state != PathState::Closed ==> r is Ok,
            r is Err ==> final(self)@ == old(self)@,
            r is Ok ==> {
                &&& final(self)@.len() == old(self)@.len()
                &&& forall|j: int|
                    0 <= j < old(self)@.len() && j != id ==> final(self)@[j] == old(self)@[j]
                &&& same_route(old(self)@[id as int], final(self)@[id as int])
                &&& final(self)@[id as int].state == old(self)@[id as int].state
                &&& final(self)@[id as int].challenge == Some(token)
                &&& final(self)@[id as int].verified_peer_addr
                    == old(self)@[id as int].verified_peer_addr
                &&& final(self)@[id as int].responses@ == old(self)@[id as int].responses@
            },
    {
        if id >= self.entries.len() as u64 {
            return Err(Error::NotFound);
        }
        let i = id as usize;
        if self.entries[i].state == PathState::Closed {
            return Err(Error::InvalidState);
        }
        self.entries[i].challenge = Some(token);
        Ok(())
    }

    /// Sets the verified flag of every path whose peer address is `peer`,
    /// whatever its state.
    pub fn mark_peer_verified(&mut self, peer: SocketAddress)
        requires
            old(self).wf(),
        ensures
            final(self).wf(),
            final(self)@.len() == old(self)@.len(),
            forall|j: int|
                0 <= j < old(self)@.len() ==> verified_update(
                    #[trigger] old(self)@[j],
                    final(self)@[j],
                    peer,
                ),
    {
        let mut i: usize = 0;
        while i < self.entries.len()
            invariant
                self.wf(),
                0 <= i <= self@.len(),
                self@.len() == old(self)@.len(),
                forall|j: int| 0 <= j < i ==> verified_update(#[trigger] old(self)@[j], self@[j], peer),
                forall|j: int| i <= j < self@.len() ==> #[trigger] self@[j] == old(self)@[j],
            decreases self@.len() - i,
        {
            if self.entries[i].peer_addr == peer {
                self.entries[i].verified_peer_addr = true;
            }
            i = i + 1;
        }
    }

    /// Retires path `id`: only its state changes, to `Closed`. Closing a
    /// closed path changes nothing.
    pub fn close(&mut self, id: u64) -> (r: Result<(), Error>)
        requires
            old(self).wf(),
        ensures
            final(self).wf(),
            r is Err <==> id >= old(self)@.len(),
            r is Err ==> r == Err::<(), Error>(Error::NotFound) && final(self)@ == old(self)@,
            r is Ok ==> {
                &&& final(self)@.len() == old(self)@.len()
                &&& forall|j: int|
                    0 <= j < old(self)@.len() && j != id ==> final(self)@[j] == old(self)@[j]
                &&& same_route(old(self)@[id as int], final(self)@[id as int])
                &&& final(self)@[id as int].state == PathState::Closed
                &&& final(self)@[id as int].challenge == old(self)@[id as int].challenge
                &&& final(self)@[id as int].verified_peer_addr
                    == old(self)@[id as int].verified_peer_addr
                &&& final(self)@[id as int].responses@ == old(self)@[id as int].responses@
            },
    {
        if id >= self.entries.len() as u64 {
            return Err(Error::NotFound);
        }
        self.entries[id as usize].state = PathState::Closed;
        Ok(())
    }

    /// Takes the oldest response token that path `i` owes.
    pub fn pop_response(&mut self, i: u64) -> (r: Token)
        requires
            old(self).wf(),
            i < old(self)@.len(),
            old(self)@[i as int].responses@.len() > 0,
        ensures
            final(self).wf(),
            r == old(self)@[i as int].responses@[0],
            final(self)@.len() == old(self)@.len(),
            forall|j: int| 0 <= j < old(self)@.len() && j != i ==> final(self)@[j] == old(self)@[j],
            with_responses(old(self)@[i as int], final(self)@[i as int], old(self)@[i as int].responses@.drop_first()),
    {
        let n = self.entries.len();
        assert(i < n as u64);
        let i = i as usize;
        self.entries[i].responses.remove(0)
    }
}

} // verus!
