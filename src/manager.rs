use vstd::prelude::*;

use crate::address::{
    locals_distinct, peer_known, peer_verified_update, peers_distinct, AddressRegistry,
    PeerAddressEntry, SocketAddress, Token,
};
use crate::error::Error;
use crate::frame::Frame;
use crate::path::{
    activated, activation_outcome, challenge_known, has_pair, is_fresh, pair_known, same_route,
    table_wf, verified_update, with_responses, PathEntries, PathEntry, PathState,
};
use crate::scheduler::ValidationScheduler;

verus! {

/// Whether path `e` is backed by a record of `peers` that carries the same
/// verified flag.
pub open spec fn peer_backed(e: PathEntry, peers: Seq<PeerAddressEntry>) -> bool {
    exists|k: int|
        0 <= k < peers.len() && #[trigger] peers[k].addr == e.peer_addr && peers[k].verified
            == e.verified_peer_addr
}

/// Every path joins a registered peer address, with that address's verified
/// flag, to a registered local address.
pub open spec fn paths_backed(
    paths: Seq<PathEntry>,
    peers: Seq<PeerAddressEntry>,
    locals: Seq<SocketAddress>,
) -> bool {
    forall|i: int|
        0 <= i < paths.len() ==> peer_backed(#[trigger] paths[i], peers) && locals.contains(
            paths[i].local_addr,
        )
}

/// The response queue holds one entry per owed token: path `i` stands in
/// it exactly as many times as it owes a PATH_RESPONSE, and every entry
/// names a path.
pub open spec fn responses_queued(paths: Seq<PathEntry>, queue: Seq<u64>) -> bool {
    &&& forall|j: int| 0 <= j < queue.len() ==> #[trigger] queue[j] < paths.len()
    &&& forall|i: int|
        0 <= i < paths.len() ==> #[trigger] paths[i].responses@.len() == queue.to_multiset().count(
            i as u64,
        )
}

/// A path appended with nothing owed keeps the response queue in step.
proof fn lemma_queued_new_path(before: Seq<PathEntry>, after: Seq<PathEntry>, q: Seq<u64>)
    requires
        responses_queued(before, q),
        after.len() == before.len() + 1,
        after.len() <= u64::MAX,
        after.drop_last() == before,
        after.last().responses@.len() == 0,
    ensures
        responses_queued(after, q),
{
    broadcast use vstd::seq_lib::group_to_multiset_ensures;

    assert forall|i: int| 0 <= i < before.len() implies #[trigger] after[i] == before[i] by {
        assert(after.drop_last()[i] == before[i]);
    }
    assert forall|i: int| 0 <= i < after.len() implies #[trigger] after[i].responses@.len()
        == q.to_multiset().count(i as u64) by {
        if i == before.len() {
            assert(!q.contains(i as u64)) by {
                if q.contains(i as u64) {
                    let j = choose|j: int| 0 <= j < q.len() && q[j] == i as u64;
                    assert(q[j] < before.len());
                }
            }
        }
    }
}

/// Changes that leave every owed token in place keep the response queue
/// in step.
proof fn lemma_queued_same_owed(before: Seq<PathEntry>, after: Seq<PathEntry>, q: Seq<u64>)
    requires
        responses_queued(before, q),
        after.len() == before.len(),
        forall|i: int| 0 <= i < before.len() ==> #[trigger] after[i].responses@ == before[i].responses@,
    ensures
        responses_queued(after, q),
{
    assert forall|i: int| 0 <= i < after.len() implies #[trigger] after[i].responses@.len()
        == q.to_multiset().count(i as u64) by {
        assert(after[i].responses@ == before[i].responses@);
    }
}

/// The token that entry `j` of the response queue `q` stands for: the
/// oldest token owed on its path that no earlier entry of the same path
/// stands for.
pub open spec fn queued_token(paths: Seq<PathEntry>, q: Seq<u64>, j: int) -> Token {
    paths[q[j] as int].responses@[q.subrange(0, j).to_multiset().count(q[j]) as int]
}

/// The owed tokens in the order in which the response queue hands them out.
pub open spec fn pending_responses(paths: Seq<PathEntry>, q: Seq<u64>) -> Seq<Token> {
    Seq::new(q.len(), |j: int| queued_token(paths, q, j))
}

proof fn lemma_prefix_count(q: Seq<u64>, j: int, k: int, x: u64)
    requires
        0 <= j <= k <= q.len(),
    ensures
        q.subrange(0, j).to_multiset().count(x) <= q.subrange(0, k).to_multiset().count(x),
    decreases k - j,
{
    broadcast use vstd::seq_lib::group_to_multiset_ensures;

    if j < k {
        lemma_prefix_count(q, j, k - 1, x);
        assert(q.subrange(0, k) =~= q.subrange(0, k - 1).push(q[k - 1]));
    }
}

/// An entry of the queue stands for a token that its path still owes.
proof fn lemma_entry_in_range(paths: Seq<PathEntry>, q: Seq<u64>, j: int)
    requires
        responses_queued(paths, q),
        0 <= j < q.len(),
    ensures
        q.subrange(0, j).to_multiset().count(q[j]) < paths[q[j] as int].responses@.len(),
{
    broadcast use vstd::seq_lib::group_to_multiset_ensures;

    lemma_prefix_count(q, j + 1, q.len() as int, q[j]);
    assert(q.subrange(0, j + 1) =~= q.subrange(0, j).push(q[j]));
    assert(q.subrange(0, q.len() as int) =~= q);
    assert(paths[q[j] as int].responses@.len() == q.to_multiset().count(q[j]));
}

/// A received challenge joins the end of the owed tokens, whatever path
/// it came on: receiving `t` on path `id` appends `id` to the response
/// queue and `t` to the path's owed tokens, and that appends `t` to the
/// tokens in the order in which they leave.
pub proof fn lemma_receipt_appends(
    paths0: Seq<PathEntry>,
    paths1: Seq<PathEntry>,
    q0: Seq<u64>,
    id: u64,
    t: Token,
)
    requires
        responses_queued(paths0, q0),
        id < paths0.len(),
        paths1.len() == paths0.len(),
        forall|j: int| 0 <= j < paths0.len() && j != id ==> paths1[j] == paths0[j],
        paths1[id as int].responses@ == paths0[id as int].responses@.push(t),
    ensures
        pending_responses(paths1, q0.push(id)) == pending_responses(paths0, q0).push(t),
{
    broadcast use vstd::seq_lib::group_to_multiset_ensures;

    let q1 = q0.push(id);
    let a = pending_responses(paths1, q1);
    let b = pending_responses(paths0, q0).push(t);
    assert forall|j: int| 0 <= j < q1.len() implies a[j] == b[j] by {
        if j < q0.len() {
            assert(q1.subrange(0, j) =~= q0.subrange(0, j));
            lemma_entry_in_range(paths0, q0, j);
            assert(q1[j] == q0[j]);
        } else {
            assert(q1.subrange(0, j) =~= q0);
            assert(paths0[id as int].responses@.len() == q0.to_multiset().count(id));
        }
    }
    assert(a =~= b);
}

/// Handing out a response takes the first of the owed tokens, whatever
/// path it is owed on: popping the head of the response queue and the
/// oldest token of its path removes the first token of the order in which
/// they leave, and keeps the rest in order.
pub proof fn lemma_drain_takes_first(paths0: Seq<PathEntry>, paths1: Seq<PathEntry>, q0: Seq<u64>)
    requires
        responses_queued(paths0, q0),
        q0.len() > 0,
        paths1.len() == paths0.len(),
        forall|j: int| 0 <= j < paths0.len() && j != q0[0] ==> paths1[j] == paths0[j],
        paths1[q0[0] as int].responses@ == paths0[q0[0] as int].responses@.drop_first(),
    ensures
        pending_responses(paths0, q0)[0] == paths0[q0[0] as int].responses@[0],
        pending_responses(paths1, q0.drop_first()) == pending_responses(paths0, q0).drop_first(),
{
    broadcast use vstd::seq_lib::group_to_multiset_ensures;

    let id = q0[0];
    let q1 = q0.drop_first();
    assert(q0.subrange(0, 0).to_multiset().count(id) == 0) by {
        assert(q0.subrange(0, 0) =~= Seq::<u64>::empty());
    }
    let a = pending_responses(paths1, q1);
    let b = pending_responses(paths0, q0).drop_first();
    assert forall|j: int| 0 <= j < q1.len() implies a[j] == b[j] by {
        let x = q0[j + 1];
        let pre = q0.subrange(0, j + 1);
        assert(q1[j] == x);
        assert(q1.subrange(0, j) =~= pre.remove(0));
        assert(pre[0] == id);
        lemma_entry_in_range(paths0, q0, j + 1);
        if x == id {
            assert(pre.to_multiset().count(id) > 0) by {
                assert(pre.contains(id));
            }
        }
    }
    assert(a =~= b);
}

/// Whether `b` is `a` with its `n` oldest owed tokens taken.
pub open spec fn drained_by(a: PathEntry, b: PathEntry, n: nat) -> bool {
    n <= a.responses@.len() && with_responses(
        a,
        b,
        a.responses@.subrange(n as int, a.responses@.len() as int),
    )
}

/// Whether `paths1` is `paths0` with, for each path, as many of its oldest
/// owed tokens taken as the entries of `taken` that name it.
pub open spec fn responses_drained(
    paths0: Seq<PathEntry>,
    paths1: Seq<PathEntry>,
    taken: Seq<u64>,
) -> bool {
    &&& paths1.len() == paths0.len()
    &&& forall|i: int|
        0 <= i < paths0.len() ==> drained_by(
            #[trigger] paths0[i],
            paths1[i],
            taken.to_multiset().count(i as u64),
        )
}

/// Whether `id` names a path of `paths` that is still `Validating`.
pub open spec fn awaits_challenge(paths: Seq<PathEntry>, id: u64) -> bool {
    id < paths.len() && paths[id as int].state == PathState::Validating
}

proof fn lemma_backed_push(e: PathEntry, peers: Seq<PeerAddressEntry>, x: PeerAddressEntry)
    requires
        peer_backed(e, peers),
    ensures
        peer_backed(e, peers.push(x)),
{
    let k = choose|k: int|
        0 <= k < peers.len() && #[trigger] peers[k].addr == e.peer_addr && peers[k].verified
            == e.verified_peer_addr;
    assert(peers.push(x)[k] == peers[k]);
}

proof fn lemma_contains_push<T>(s: Seq<T>, x: T, y: T)
    requires
        s.contains(y),
    ensures
        s.push(x).contains(y),
{
    let k = choose|k: int| 0 <= k < s.len() && s[k] == y;
    assert(s.push(x)[k] == s[k]);
}

/// The path validation state of one connection: its addresses, its paths
/// and the queued frame work.
pub struct PathManagement {
    paths: PathEntries,
    addrs: AddressRegistry,
    scheduler: ValidationScheduler,
}

impl PathManagement {
    /// All paths, in creation order; a path's identifier is its position.
    pub closed spec fn paths_view(&self) -> Seq<PathEntry> {
        self.paths@
    }

    /// The peer address records, in order of registration.
    pub closed spec fn peers_view(&self) -> Seq<PeerAddressEntry> {
        self.addrs.peers()
    }

    /// The local addresses, in order of registration.
    pub closed spec fn locals_view(&self) -> Seq<SocketAddress> {
        self.addrs.locals()
    }

    /// The paths awaiting a PATH_CHALLENGE, oldest first.
    pub closed spec fn challenge_queue(&self) -> Seq<u64> {
        self.scheduler.challenges()
    }

    /// The paths awaiting a PATH_RESPONSE, oldest first.
    pub closed spec fn response_queue(&self) -> Seq<u64> {
        self.scheduler.responses()
    }

    /// The identifier that the next path created takes.
    pub closed spec fn next_path_id(&self) -> nat {
        self.paths.next_id()
    }

    pub closed spec fn parts_wf(&self) -> bool {
        self.paths.wf() && self.addrs.wf()
    }

    pub open spec fn wf(&self) -> bool {
        &&& self.parts_wf()
        &&& table_wf(self.paths_view())
        &&& self.next_path_id() == self.paths_view().len()
        &&& peers_distinct(self.peers_view())
        &&& locals_distinct(self.locals_view())
        &&& paths_backed(self.paths_view(), self.peers_view(), self.locals_view())
        &&& responses_queued(self.paths_view(), self.response_queue())
    }

    /// The owed tokens in the order in which PATH_RESPONSE frames would carry
    /// them.
    pub open spec fn pending(&self) -> Seq<Token> {
        pending_responses(self.paths_view(), self.response_queue())
    }

    /// Whether `self` and `other` hold the same state.
    pub open spec fn same_as(&self, other: &PathManagement) -> bool {
        &&& self.paths_view() == other.paths_view()
        &&& self.peers_view() == other.peers_view()
        &&& self.locals_view() == other.locals_view()
        &&& self.challenge_queue() == other.challenge_queue()
        &&& self.response_queue() == other.response_queue()
    }

    /// A manager with no address, no path and no queued work.
    pub fn new() -> (r: PathManagement)
        ensures
            r.wf(),
            r.paths_view().len() == 0,
            r.peers_view().len() == 0,
            r.locals_view().len() == 0,
            r.challenge_queue().len() == 0,
            r.response_queue().len() == 0,
    {
        PathManagement {
            paths: PathEntries::new(),
            addrs: AddressRegistry::new(),
            scheduler: ValidationScheduler::new(),
        }
    }

    /// Registers a newly observed peer address and creates a path from it to
    /// every known local address, each queued for a PATH_CHALLENGE. Returns
    /// the new path identifiers in local address order.
    pub fn add_peer_addr(&mut self, peer_addr: SocketAddress) -> (r: Result<Vec<u64>, Error>)
        requires
            old(self).wf(),
            old(self).paths_view().len() + old(self).locals_view().len() <= u64::MAX,
        ensures
            final(self).wf(),
            peer_known(old(self).peers_view(), peer_addr) ==> r == Err::<Vec<u64>, Error>(
                Error::DuplicateAddress,
            ) && final(self).same_as(old(self)),
            !peer_known(old(self).peers_view(), peer_addr) ==> r is Ok,
            r is Err ==> final(self).next_path_id() == old(self).next_path_id(),
            r matches Ok(ids) ==> final(self).next_path_id() == old(self).next_path_id() + ids@.len()
                && forall|k: int|
                0 <= k < ids@.len() ==> #[trigger] ids@[k] == old(self).next_path_id() + k,
            r matches Ok(ids) ==> {
                let n = old(self).paths_view().len();
                let locals = old(self).locals_view();
                &&& ids@.len() == locals.len()
                &&& forall|k: int| 0 <= k < ids@.len() ==> #[trigger] ids@[k] == n + k
                &&& final(self).paths_view().len() == n + locals.len()
                &&& final(self).paths_view().subrange(0, n as int) == old(self).paths_view()
                &&& forall|k: int|
                    0 <= k < locals.len() ==> is_fresh(
                        #[trigger] final(self).paths_view()[n + k],
                        (n + k) as u64,
                        peer_addr,
                        locals[k],
                        false,
                    )
                &&& final(self).peers_view() == old(self).peers_view().push(
                    PeerAddressEntry { addr: peer_addr, verified: false },
                )
                &&& final(self).locals_view() == locals
                &&& final(self).challenge_queue() == old(self).challenge_queue() + ids@
                &&& final(self).response_queue() == old(self).response_queue()
            },
    {
        if let Err(e) = self.addrs.add_peer_address(peer_addr) {
            return Err(e);
        }
        let ghost n = old(self).paths_view().len();
        let ghost locals = old(self).locals_view();
        let mut new_path_ids: Vec<u64> = Vec::new();
        let count = self.addrs.local_count();
        let mut k: usize = 0;
        proof {
            assert forall|i: int| 0 <= i < self.paths@.len() implies #[trigger] self.paths@[i].peer_addr != peer_addr by {
                assert(peer_backed(self.paths@[i], old(self).peers_view()));
            }
            assert forall|i: int| 0 <= i < self.paths@.len() implies peer_backed(#[trigger] self.paths@[i], self.addrs.peers()) by {
                lemma_backed_push(self.paths@[i], old(self).peers_view(), PeerAddressEntry { addr: peer_addr, verified: false });
            }
        }
        while k < count
            invariant
                self.paths.wf(),
                self.addrs.wf(),
                count == locals.len(),
                0 <= k <= count,
                n + count <= u64::MAX,
                n == old(self).paths_view().len(),
                locals == old(self).locals_view(),
                !peer_known(old(self).peers_view(), peer_addr),
                self.addrs.peers() == old(self).peers_view().push(
                    PeerAddressEntry { addr: peer_addr, verified: false },
                ),
                self.addrs.locals() == locals,
                self.paths@.len() == n + k,
                self.paths@.subrange(0, n as int) == old(self).paths_view(),
                forall|i: int| 0 <= i < n ==> #[trigger] self.paths@[i].peer_addr != peer_addr,
                forall|j: int|
                    0 <= j < k ==> is_fresh(#[trigger] self.paths@[n + j], (n + j) as u64, peer_addr, locals[j], false),
                new_path_ids@.len() == k,
                forall|j: int| 0 <= j < k ==> #[trigger] new_path_ids@[j] == n + j,
                self.scheduler.challenges() == old(self).challenge_queue() + new_path_ids@,
                self.scheduler.responses() == old(self).response_queue(),
                paths_backed(self.paths@, self.addrs.peers(), self.addrs.locals()),
                responses_queued(self.paths@, self.scheduler.responses()),
            decreases count - k,
        {
            let local_addr = self.addrs.local_at(k);
            proof {
                assert forall|i: int| 0 <= i < self.paths@.len() implies !has_pair(#[trigger] self.paths@[i], peer_addr, local_addr) by {
                    if i < n {
                        assert(self.paths@[i] == self.paths@.subrange(0, n as int)[i]);
                    } else {
                        assert(is_fresh(self.paths@[n + (i - n)], (n + (i - n)) as u64, peer_addr, locals[i - n], false));
                    }
                }
            }
            let ghost before = self.paths@;
            match self.paths.add(peer_addr, false, local_addr) {
                Ok(path_id) => {
                    self.scheduler.enqueue_challenge(path_id);
                    new_path_ids.push(path_id);
                    proof {
                        let after = self.paths@;
                        assert forall|i: int| 0 <= i < before.len() implies #[trigger] after[i] == before[i] by {
                            assert(after.drop_last()[i] == before[i]);
                        }
                        assert(after.subrange(0, n as int) =~= before.subrange(0, n as int));
                        assert(self.scheduler.challenges() =~= old(self).challenge_queue() + new_path_ids@);
                        assert forall|i: int| 0 <= i < after.len() implies peer_backed(#[trigger] after[i], self.addrs.peers()) && locals.contains(after[i].local_addr) by {
                            if i == before.len() {
                                let m = self.addrs.peers().len() - 1;
                                assert(self.addrs.peers()[m].addr == after[i].peer_addr);
                                assert(locals[k as int] == local_addr);
                            } else {
                                assert(after[i] == before[i]);
                            }
                        }
                        lemma_queued_new_path(before, after, self.scheduler.responses());
                    }
                },
                Err(_) => {},
            }
            k = k + 1;
        }
        Ok(new_path_ids)
    }

    /// Registers a newly observed local address and creates a path to it from
    /// every known peer address, carrying that peer address's verified flag,
    /// each queued for a PATH_CHALLENGE. Returns the new path identifiers in
    /// peer address order.
    pub fn add_local_addr(&mut self, local_addr: SocketAddress) -> (r: Result<Vec<u64>, Error>)
        requires
            old(self).wf(),
            old(self).paths_view().len() + old(self).peers_view().len() <= u64::MAX,
        ensures
            final(self).wf(),
            old(self).locals_view().contains(local_addr) ==> r == Err::<Vec<u64>, Error>(
                Error::DuplicateAddress,
            ) && final(self).same_as(old(self)),
            !old(self).locals_view().contains(local_addr) ==> r is Ok,
            r is Err ==> final(self).next_path_id() == old(self).next_path_id(),
            r matches Ok(ids) ==> final(self).next_path_id() == old(self).next_path_id() + ids@.len()
                && forall|k: int|
                0 <= k < ids@.len() ==> #[trigger] ids@[k] == old(self).next_path_id() + k,
            r matches Ok(ids) ==> {
                let n = old(self).paths_view().len();
                let peers = old(self).peers_view();
                &&& ids@.len() == peers.len()
                &&& forall|k: int| 0 <= k < ids@.len() ==> #[trigger] ids@[k] == n + k
                &&& final(self).paths_view().len() == n + peers.len()
                &&& final(self).paths_view().subrange(0, n as int) == old(self).paths_view()
                &&& forall|k: int|
                    0 <= k < peers.len() ==> is_fresh(
                        #[trigger] final(self).paths_view()[n + k],
                        (n + k) as u64,
                        peers[k].addr,
                        local_addr,
                        peers[k].verified,
                    )
                &&& final(self).peers_view() == peers
                &&& final(self).locals_view() == old(self).locals_view().push(local_addr)
                &&& final(self).challenge_queue() == old(self).challenge_queue() + ids@
                &&& final(self).response_queue() == old(self).response_queue()
            },
    {
        if let Err(e) = self.addrs.add_local_address(local_addr) {
            return Err(e);
        }
        let ghost n = old(self).paths_view().len();
        let ghost peers = old(self).peers_view();
        let mut new_path_ids: Vec<u64> = Vec::new();
        let count = self.addrs.peer_count();
        let mut k: usize = 0;
        proof {
            assert forall|i: int| 0 <= i < self.paths@.len() implies #[trigger] self.paths@[i].local_addr != local_addr by {
                assert(old(self).locals_view().contains(self.paths@[i].local_addr));
            }
            assert forall|i: int| 0 <= i < self.paths@.len() implies self.addrs.locals().contains(#[trigger] self.paths@[i].local_addr) by {
                lemma_contains_push(old(self).locals_view(), local_addr, self.paths@[i].local_addr);
            }
        }
        while k < count
            invariant
                self.paths.wf(),
                self.addrs.wf(),
                count == peers.len(),
                0 <= k <= count,
                n + count <= u64::MAX,
                n == old(self).paths_view().len(),
                peers == old(self).peers_view(),
                !old(self).locals_view().contains(local_addr),
                self.addrs.locals() == old(self).locals_view().push(local_addr),
                self.addrs.peers() == peers,
                self.paths@.len() == n + k,
                self.paths@.subrange(0, n as int) == old(self).paths_view(),
                forall|i: int| 0 <= i < n ==> #[trigger] self.paths@[i].local_addr != local_addr,
                forall|j: int|
                    0 <= j < k ==> is_fresh(
                        #[trigger] self.paths@[n + j],
                        (n + j) as u64,
                        peers[j].addr,
                        local_addr,
                        peers[j].verified,
                    ),
                new_path_ids@.len() == k,
                forall|j: int| 0 <= j < k ==> #[trigger] new_path_ids@[j] == n + j,
                self.scheduler.challenges() == old(self).challenge_queue() + new_path_ids@,
                self.scheduler.responses() == old(self).response_queue(),
                paths_backed(self.paths@, self.addrs.peers(), self.addrs.locals()),
                responses_queued(self.paths@, self.scheduler.responses()),
            decreases count - k,
        {
            let e = self.addrs.peer_at(k);
            proof {
                assert forall|i: int| 0 <= i < self.paths@.len() implies !has_pair(#[trigger] self.paths@[i], e.addr, local_addr) by {
                    if i < n {
                        assert(self.paths@[i] == self.paths@.subrange(0, n as int)[i]);
                    } else {
                        let j = i - n;
                        assert(is_fresh(self.paths@[n + j], (n + j) as u64, peers[j].addr, local_addr, peers[j].verified));
                        assert(peers[j].addr != peers[k as int].addr);
                    }
                }
            }
            let ghost before = self.paths@;
            match self.paths.add(e.addr, e.verified, local_addr) {
                Ok(path_id) => {
                    self.scheduler.enqueue_challenge(path_id);
                    new_path_ids.push(path_id);
                    proof {
                        let after = self.paths@;
                        let locals = self.addrs.locals();
                        assert forall|i: int| 0 <= i < before.len() implies #[trigger] after[i] == before[i] by {
                            assert(after.drop_last()[i] == before[i]);
                        }
                        assert(after.subrange(0, n as int) =~= before.subrange(0, n as int));
                        assert(self.scheduler.challenges() =~= old(self).challenge_queue() + new_path_ids@);
                        assert forall|i: int| 0 <= i < after.len() implies peer_backed(#[trigger] after[i], peers) && locals.contains(after[i].local_addr) by {
                            if i == before.len() {
                                assert(peers[k as int].addr == after[i].peer_addr);
                                assert(locals[locals.len() - 1] == local_addr);
                            } else {
                                assert(after[i] == before[i]);
                            }
                        }
                        lemma_queued_new_path(before, after, self.scheduler.responses());
                    }
                },
                Err(_) => {},
            }
            k = k + 1;
        }
        Ok(new_path_ids)
    }

    /// Marks `peer_addr` verified, on its record and on every path from it,
    /// whatever the path's state. No path is activated by this.
    pub fn verify_peer_addr(&mut self, peer_addr: SocketAddress) -> (r: Result<(), Error>)
        requires
            old(self).wf(),
        ensures
            final(self).wf(),
            r is Ok,
            final(self).peers_view().len() == old(self).peers_view().len(),
            forall|j: int|
                0 <= j < old(self).peers_view().len() ==> peer_verified_update(
                    #[trigger] old(self).peers_view()[j],
                    final(self).peers_view()[j],
                    peer_addr,
                ),
            final(self).paths_view().len() == old(self).paths_view().len(),
            forall|j: int|
                0 <= j < old(self).paths_view().len() ==> verified_update(
                    #[trigger] old(self).paths_view()[j],
                    final(self).paths_view()[j],
                    peer_addr,
                ),
            final(self).locals_view() == old(self).locals_view(),
            final(self).challenge_queue() == old(self).challenge_queue(),
            final(self).response_queue() == old(self).response_queue(),
    {
        self.addrs.mark_peer_verified(peer_addr);
        self.paths.mark_peer_verified(peer_addr);
        proof {
            let peers0 = old(self).peers_view();
            let peers1 = self.addrs.peers();
            let paths0 = old(self).paths_view();
            let paths1 = self.paths@;
            assert forall|i: int| 0 <= i < paths1.len() implies peer_backed(#[trigger] paths1[i], peers1) && self.addrs.locals().contains(paths1[i].local_addr) by {
                assert(verified_update(paths0[i], paths1[i], peer_addr));
                assert(peer_backed(paths0[i], peers0));
                let k = choose|k: int|
                    0 <= k < peers0.len() && #[trigger] peers0[k].addr == paths0[i].peer_addr
                        && peers0[k].verified == paths0[i].verified_peer_addr;
                assert(peer_verified_update(peers0[k], peers1[k], peer_addr));
            }
            assert forall|i: int| 0 <= i < paths0.len() implies (#[trigger] paths1[i].state == PathState::Closed) == (
                paths0[i].state == PathState::Closed) && paths1[i].responses@ == paths0[i].responses@ by {
                assert(verified_update(paths0[i], paths1[i], peer_addr));
            }
            lemma_queued_same_owed(paths0, paths1, self.scheduler.responses());
        }
        Ok(())
    }

    /// Attaches `token`, drawn by the caller from a collision-free source, as
    /// the outstanding challenge of path `id`; an unanswered one is abandoned.
    pub fn issue_challenge(&mut self, id: u64, token: Token) -> (r: Result<(), Error>)
        requires
            old(self).wf(),
        ensures
            final(self).wf(),
            id >= old(self).paths_view().len() ==> r == Err::<(), Error>(Error::NotFound),
            id < old(self).paths_view().len() && old(self).paths_view()[id as int].state
                == PathState::Closed ==> r == Err::<(), Error>(Error::InvalidState),
            id < old(self).paths_view().len() && old(self).paths_view()[id as int].state
                != PathState::Closed ==> r is Ok,
            r is Err ==> final(self).same_as(old(self)),
            r is Ok ==> {
                let old_paths = old(self).paths_view();
                let new_paths = final(self).paths_view();
                &&& new_paths.len() == old_paths.len()
                &&& forall|j: int| 0 <= j < old_paths.len() && j != id ==> new_paths[j] == old_paths[j]
                &&& same_route(old_paths[id as int], new_paths[id as int])
                &&& new_paths[id as int].state == old_paths[id as int].state
                &&& new_paths[id as int].challenge == Some(token)
                &&& new_paths[id as int].verified_peer_addr == old_paths[id as int].verified_peer_addr
                &&& new_paths[id as int].responses@ == old_paths[id as int].responses@
                &&& final(self).peers_view() == old(self).peers_view()
                &&& final(self).locals_view() == old(self).locals_view()
                &&& final(self).challenge_queue() == old(self).challenge_queue()
                &&& final(self).response_queue() == old(self).response_queue()
            },
    {
        let r = self.paths.set_outstanding_challenge(id, token);
        proof {
            let paths1 = self.paths@;
            assert forall|i: int| 0 <= i < paths1.len() implies #[trigger] paths1[i].peer_addr == old(self).paths_view()[i].peer_addr
                && paths1[i].verified_peer_addr == old(self).paths_view()[i].verified_peer_addr
                && paths1[i].local_addr == old(self).paths_view()[i].local_addr
                && paths1[i].state == old(self).paths_view()[i].state
                && paths1[i].responses@ == old(self).paths_view()[i].responses@ by {
                if r is Ok && i == id {
                } else {
                    assert(paths1[i] == old(self).paths_view()[i]);
                }
            }
            assert(paths_backed(paths1, self.addrs.peers(), self.addrs.locals()));
            lemma_queued_same_owed(old(self).paths_view(), paths1, self.scheduler.responses());
        }
        r
    }

    /// Activates the path between `peer_addr` and `local_addr` if `challenge`
    /// equals its outstanding challenge, both absent included, and clears
    /// that challenge. A closed path stays closed.
    pub fn activate_path(
        &mut self,
        peer_addr: SocketAddress,
        local_addr: SocketAddress,
        challenge: Option<Token>,
    ) -> (r: Result<u64, Error>)
        requires
            old(self).wf(),
        ensures
            final(self).wf(),
            !pair_known(old(self).paths_view(), peer_addr, local_addr) ==> r == Err::<u64, Error>(
                Error::NotFound,
            ),
            forall|i: int|
                0 <= i < old(self).paths_view().len() && has_pair(
                    #[trigger] old(self).paths_view()[i],
                    peer_addr,
                    local_addr,
                ) ==> activation_outcome(old(self).paths_view(), i, challenge, r),
            r is Err ==> final(self).same_as(old(self)),
            r matches Ok(id) ==> activated(old(self).paths_view(), final(self).paths_view(), id as int),
            r is Ok ==> final(self).peers_view() == old(self).peers_view() && final(self).locals_view()
                == old(self).locals_view() && final(self).challenge_queue()
                == old(self).challenge_queue() && final(self).response_queue()
                == old(self).response_queue(),
    {
        let r = self.paths.activate(peer_addr, local_addr, challenge);
        proof {
            if let Ok(id) = r {
                let paths0 = old(self).paths_view();
                let paths1 = self.paths@;
                assert forall|i: int| 0 <= i < paths1.len() implies peer_backed(#[trigger] paths1[i], self.addrs.peers()) && self.addrs.locals().contains(paths1[i].local_addr) by {
                    assert(peer_backed(paths0[i], self.addrs.peers()));
                }
                assert forall|i: int| 0 <= i < paths0.len() implies (#[trigger] paths1[i].state == PathState::Closed) == (
                    paths0[i].state == PathState::Closed) && paths1[i].responses@ == paths0[i].responses@ by {
                    if i == id {
                        assert(activation_outcome(paths0, i, challenge, r));
                    }
                }
                lemma_queued_same_owed(paths0, paths1, self.scheduler.responses());
            }
        }
        r
    }

    /// Records `challenge`, received in a PATH_CHALLENGE on the path between
    /// `peer_addr` and `local_addr`, whatever its state, as owing a
    /// PATH_RESPONSE, and queues the path for one. The token joins the end of
    /// the owed tokens in the order in which they leave.
    pub fn receive_path_challenge(
        &mut self,
        peer_addr: SocketAddress,
        local_addr: SocketAddress,
        challenge: Token,
    ) -> (r: Result<u64, Error>)
        requires
            old(self).wf(),
        ensures
            final(self).wf(),
            !pair_known(old(self).paths_view(), peer_addr, local_addr) ==> r == Err::<u64, Error>(
                Error::NotFound,
            ) && final(self).same_as(old(self)),
            forall|i: int|
                0 <= i < old(self).paths_view().len() && has_pair(
                    #[trigger] old(self).paths_view()[i],
                    peer_addr,
                    local_addr,
                ) ==> r == Ok::<u64, Error>(i as u64),
            r matches Ok(id) ==> {
                let old_paths = old(self).paths_view();
                let new_paths = final(self).paths_view();
                &&& id < old_paths.len()
                &&& has_pair(old_paths[id as int], peer_addr, local_addr)
                &&& new_paths.len() == old_paths.len()
                &&& forall|j: int| 0 <= j < old_paths.len() && j != id ==> new_paths[j] == old_paths[j]
                &&& with_responses(
                    old_paths[id as int],
                    new_paths[id as int],
                    old_paths[id as int].responses@.push(challenge),
                )
                &&& final(self).peers_view() == old(self).peers_view()
                &&& final(self).locals_view() == old(self).locals_view()
                &&& final(self).challenge_queue() == old(self).challenge_queue()
                &&& final(self).response_queue() == old(self).response_queue().push(id)
                &&& final(self).pending() == old(self).pending().push(challenge)
            },
    {
        let path_id = match self.paths.record_inbound_challenge(peer_addr, local_addr, challenge) {
            Ok(id) => id,
            Err(e) => {
                return Err(e);
            },
        };
        self.scheduler.enqueue_response(path_id);
        proof {
            broadcast use vstd::seq_lib::group_to_multiset_ensures;

            let paths0 = old(self).paths_view();
            let paths1 = self.paths@;
            let q0 = old(self).response_queue();
            let q = self.scheduler.responses();
            assert forall|i: int| 0 <= i < paths1.len() implies peer_backed(#[trigger] paths1[i], self.addrs.peers()) && self.addrs.locals().contains(paths1[i].local_addr) by {
                assert(peer_backed(paths0[i], self.addrs.peers()));
            }
            assert forall|j: int| 0 <= j < q.len() implies #[trigger] q[j] < paths1.len() by {
                if j < q0.len() {
                    assert(q[j] == q0[j]);
                }
            }
            assert forall|i: int| 0 <= i < paths1.len() implies #[trigger] paths1[i].responses@.len()
                == q.to_multiset().count(i as u64) by {
                assert(paths0[i].responses@.len() == q0.to_multiset().count(i as u64));
            }
            lemma_receipt_appends(paths0, paths1, q0, path_id, challenge);
        }
        Ok(path_id)
    }

    /// Queues again, for a re-sent PATH_CHALLENGE, the path whose outstanding
    /// challenge is `challenge`.
    pub fn retransmit_path_challenge(&mut self, challenge: Token) -> (r: Result<u64, Error>)
        requires
            old(self).wf(),
        ensures
            final(self).wf(),
            r is Err <==> !challenge_known(old(self).paths_view(), challenge),
            r is Err ==> r == Err::<u64, Error>(Error::NotFound) && final(self).same_as(old(self)),
            r matches Ok(id) ==> {
                &&& id < old(self).paths_view().len()
                &&& old(self).paths_view()[id as int].challenge == Some(challenge)
                &&& forall|j: int|
                    0 <= j < id ==> #[trigger] old(self).paths_view()[j].challenge != Some(challenge)
                &&& final(self).paths_view() == old(self).paths_view()
                &&& final(self).peers_view() == old(self).peers_view()
                &&& final(self).locals_view() == old(self).locals_view()
                &&& final(self).challenge_queue() == old(self).challenge_queue().push(id)
                &&& final(self).response_queue() == old(self).response_queue()
            },
    {
        let path_id = match self.paths.find_by_challenge_token(challenge) {
            Ok(id) => id,
            Err(e) => {
                return Err(e);
            },
        };
        self.scheduler.enqueue_challenge(path_id);
        Ok(path_id)
    }

    /// Retires path `id`: only its state changes, to `Closed`. Work queued
    /// for it is skipped when the queues are drained.
    pub fn close_path(&mut self, id: u64) -> (r: Result<(), Error>)
        requires
            old(self).wf(),
        ensures
            final(self).wf(),
            r is Err <==> id >= old(self).paths_view().len(),
            r is Err ==> r == Err::<(), Error>(Error::NotFound) && final(self).same_as(old(self)),
            r is Ok ==> {
                let old_paths = old(self).paths_view();
                let new_paths = final(self).paths_view();
                &&& new_paths.len() == old_paths.len()
                &&& forall|j: int| 0 <= j < old_paths.len() && j != id ==> new_paths[j] == old_paths[j]
                &&& same_route(old_paths[id as int], new_paths[id as int])
                &&& new_paths[id as int].state == PathState::Closed
                &&& new_paths[id as int].challenge == old_paths[id as int].challenge
                &&& new_paths[id as int].verified_peer_addr == old_paths[id as int].verified_peer_addr
                &&& new_paths[id as int].responses@ == old_paths[id as int].responses@
                &&& final(self).peers_view() == old(self).peers_view()
                &&& final(self).locals_view() == old(self).locals_view()
                &&& final(self).challenge_queue() == old(self).challenge_queue()
                &&& final(self).response_queue() == old(self).response_queue()
            },
    {
        let r = self.paths.close(id);
        proof {
            if r is Ok {
                let paths0 = old(self).paths_view();
                let paths1 = self.paths@;
                assert forall|i: int| 0 <= i < paths1.len() implies peer_backed(#[trigger] paths1[i], self.addrs.peers()) && self.addrs.locals().contains(paths1[i].local_addr) by {
                    assert(peer_backed(paths0[i], self.addrs.peers()));
                }
                lemma_queued_same_owed(paths0, paths1, self.scheduler.responses());
            }
        }
        r
    }

    /// Pops identifiers off the challenge queue until one names a path that
    /// is still `Validating`, and returns it; the others are discarded.
    pub fn next_challenge_to_send(&mut self) -> (r: Option<u64>)
        requires
            old(self).wf(),
        ensures
            final(self).wf(),
            final(self).paths_view() == old(self).paths_view(),
            final(self).peers_view() == old(self).peers_view(),
            final(self).locals_view() == old(self).locals_view(),
            final(self).response_queue() == old(self).response_queue(),
            r matches Some(id) ==> exists|k: int|
                #![trigger old(self).challenge_queue()[k]]
                0 <= k < old(self).challenge_queue().len() && old(self).challenge_queue()[k] == id
                    && awaits_challenge(old(self).paths_view(), id) && (forall|j: int|
                    0 <= j < k ==> !awaits_challenge(
                        old(self).paths_view(),
                        #[trigger] old(self).challenge_queue()[j],
                    )) && final(self).challenge_queue() == old(self).challenge_queue().subrange(
                    k + 1,
                    old(self).challenge_queue().len() as int,
                ),
            r is None ==> final(self).challenge_queue().len() == 0 && forall|j: int|
                0 <= j < old(self).challenge_queue().len() ==> !awaits_challenge(
                    old(self).paths_view(),
                    #[trigger] old(self).challenge_queue()[j],
                ),
    {
        let ghost q0 = old(self).challenge_queue();
        let ghost mut c: int = 0;
        loop
            invariant
                self.wf(),
                self.paths@ == old(self).paths_view(),
                self.addrs.peers() == old(self).peers_view(),
                self.addrs.locals() == old(self).locals_view(),
                self.scheduler.responses() == old(self).response_queue(),
                q0 == old(self).challenge_queue(),
                0 <= c <= q0.len(),
                self.scheduler.challenges() == q0.subrange(c, q0.len() as int),
                forall|j: int| 0 <= j < c ==> !awaits_challenge(self.paths@, #[trigger] q0[j]),
            decreases q0.len() - c,
        {
            match self.scheduler.drain_one_challenge() {
                None => {
                    assert(c == q0.len());
                    assert forall|j: int| 0 <= j < q0.len() implies !awaits_challenge(old(self).paths_view(), #[trigger] q0[j]) by {
                        assert(!awaits_challenge(self.paths@, q0[j]));
                    }
                    return None;
                },
                Some(id) => {
                    let ghost k = c;
                    proof {
                        assert(q0[c] == id);
                        c = c + 1;
                        assert(self.scheduler.challenges() =~= q0.subrange(c, q0.len() as int));
                    }
                    match self.paths.get(id) {
                        Some(e) => {
                            if e.state == PathState::Validating {
                                assert(awaits_challenge(old(self).paths_view(), q0[k]));
                                assert(self.scheduler.challenges() == q0.subrange(k + 1, q0.len() as int));
                                return Some(id);
                            }
                        },
                        None => {},
                    }
                },
            }
        }
    }

    /// Pops entries off the response queue, each with the oldest token owed
    /// on its path, until one names a path that is not closed, and returns the
    /// PATH_RESPONSE frame that carries that token; the entries and tokens of
    /// closed paths passed over are discarded. The frame carries the first
    /// of the owed tokens of live paths, in the order in which they leave.
    /// `Done` when no queued entry names a live path.
    pub fn get_path_response_frame(&mut self) -> (r: Result<Frame, Error>)
        requires
            old(self).wf(),
        ensures
            final(self).wf(),
            final(self).peers_view() == old(self).peers_view(),
            final(self).locals_view() == old(self).locals_view(),
            final(self).challenge_queue() == old(self).challenge_queue(),
            old(self).response_queue().len() > 0 && old(self).paths_view()[old(
                self,
            ).response_queue()[0] as int].state != PathState::Closed ==> (r matches Ok(
                Frame::PathResponse { data },
            ) && data == old(self).pending()[0] && final(self).pending() == old(
                self,
            ).pending().drop_first()),
            r is Err <==> forall|j: int|
                0 <= j < old(self).response_queue().len() ==> old(self).paths_view()[#[trigger] old(
                    self,
                ).response_queue()[j] as int].state == PathState::Closed,
            r is Err ==> {
                &&& r == Err::<Frame, Error>(Error::Done)
                &&& responses_drained(
                    old(self).paths_view(),
                    final(self).paths_view(),
                    old(self).response_queue(),
                )
                &&& final(self).response_queue().len() == 0
                &&& forall|i: int|
                    0 <= i < old(self).paths_view().len() && old(self).paths_view()[i].state
                        != PathState::Closed ==> #[trigger] old(
                        self,
                    ).paths_view()[i].responses@.len() == 0
            },
            r is Ok ==> exists|k: int|
                #![trigger old(self).response_queue()[k]]
                0 <= k < old(self).response_queue().len() && {
                    let q0 = old(self).response_queue();
                    let paths0 = old(self).paths_view();
                    &&& forall|j: int|
                        0 <= j < k ==> paths0[#[trigger] q0[j] as int].state == PathState::Closed
                    &&& paths0[q0[k] as int].state != PathState::Closed
                    &&& r matches Ok(Frame::PathResponse { data }) && data == old(
                        self,
                    ).pending()[k]
                    &&& final(self).response_queue() == q0.subrange(k + 1, q0.len() as int)
                    &&& responses_drained(
                        paths0,
                        final(self).paths_view(),
                        q0.subrange(0, k + 1),
                    )
                    &&& final(self).pending() == old(self).pending().subrange(
                        k + 1,
                        q0.len() as int,
                    )
                },
    {
        let ghost paths0 = old(self).paths_view();
        let ghost q0 = old(self).response_queue();
        let ghost mut c: int = 0;
        proof {
            broadcast use vstd::seq_lib::group_to_multiset_ensures;

            assert(q0.subrange(0, 0) =~= Seq::<u64>::empty());
            assert(q0.subrange(0, q0.len() as int) =~= q0);
            assert(pending_responses(paths0, q0).subrange(0, q0.len() as int) =~= pending_responses(paths0, q0));
            assert forall|i: int| 0 <= i < paths0.len() implies drained_by(#[trigger] paths0[i], self.paths@[i], q0.subrange(0, 0).to_multiset().count(i as u64)) by {
                assert(paths0[i].responses@.subrange(0, paths0[i].responses@.len() as int) =~= paths0[i].responses@);
            }
        }
        loop
            invariant
                self.wf(),
                paths0 == old(self).paths_view(),
                q0 == old(self).response_queue(),
                responses_queued(paths0, q0),
                self.addrs.peers() == old(self).peers_view(),
                self.addrs.locals() == old(self).locals_view(),
                self.scheduler.challenges() == old(self).challenge_queue(),
                0 <= c <= q0.len(),
                self.scheduler.responses() == q0.subrange(c, q0.len() as int),
                forall|j: int| 0 <= j < c ==> paths0[#[trigger] q0[j] as int].state == PathState::Closed,
                responses_drained(paths0, self.paths@, q0.subrange(0, c)),
                pending_responses(self.paths@, self.scheduler.responses()) == pending_responses(
                    paths0,
                    q0,
                ).subrange(c, q0.len() as int),
            decreases q0.len() - c,
        {
            let ghost pb = self.paths@;
            let ghost qb = self.scheduler.responses();
            let id = match self.scheduler.drain_one_response() {
                None => {
                    proof {
                        broadcast use vstd::seq_lib::group_to_multiset_ensures;

                        assert(c == q0.len());
                        assert(q0.subrange(0, c) =~= q0);
                        if q0.len() > 0 {
                            assert(paths0[q0[0] as int].state == PathState::Closed);
                        }
                        assert forall|i: int| 0 <= i < paths0.len() && paths0[i].state != PathState::Closed implies #[trigger] paths0[i].responses@.len() == 0 by {
                            if q0.to_multiset().count(i as u64) > 0 {
                                assert(q0.contains(i as u64));
                                let j = choose|j: int| 0 <= j < q0.len() && q0[j] == i as u64;
                                assert(paths0[q0[j] as int].state == PathState::Closed);
                            }
                        }
                    }
                    return Err(Error::Done);
                },
                Some(id) => id,
            };
            proof {
                broadcast use vstd::seq_lib::group_to_multiset_ensures;

                assert(qb[0] == id);
                assert(q0[c] == id);
                assert(qb.contains(id));
            }
            let token = self.paths.pop_response(id);
            let closed = match self.paths.get(id) {
                Some(e) => e.state == PathState::Closed,
                None => true,
            };
            proof {
                broadcast use vstd::seq_lib::group_to_multiset_ensures;

                let pa = self.paths@;
                let q = self.scheduler.responses();
                lemma_drain_takes_first(pb, pa, qb);
                assert(q =~= qb.remove(0));
                assert(q =~= q0.subrange(c + 1, q0.len() as int));
                assert(pending_responses(pb, qb)[0] == pending_responses(paths0, q0)[c]);
                assert(pending_responses(pa, q) =~= pending_responses(paths0, q0).subrange(c + 1, q0.len() as int));
                assert(q0.subrange(0, c + 1) =~= q0.subrange(0, c).push(id));
                assert(pb[id as int].state == paths0[id as int].state);
                assert forall|i: int| 0 <= i < paths0.len() implies drained_by(#[trigger] paths0[i], pa[i], q0.subrange(0, c + 1).to_multiset().count(i as u64)) by {
                    assert(drained_by(paths0[i], pb[i], q0.subrange(0, c).to_multiset().count(i as u64)));
                    lemma_prefix_count(q0, c + 1, q0.len() as int, i as u64);
                    assert(q0.subrange(0, q0.len() as int) =~= q0);
                    assert(paths0[i].responses@.len() == q0.to_multiset().count(i as u64));
                    if i == id {
                        let rs = paths0[i].responses@;
                        let n = q0.subrange(0, c).to_multiset().count(i as u64);
                        assert(rs.subrange(n as int, rs.len() as int).drop_first() =~= rs.subrange(n + 1int, rs.len() as int));
                    }
                }
                assert forall|i: int| 0 <= i < pa.len() implies peer_backed(#[trigger] pa[i], self.addrs.peers()) && self.addrs.locals().contains(pa[i].local_addr) by {
                    assert(peer_backed(pb[i], self.addrs.peers()));
                }
                assert forall|j: int| 0 <= j < q.len() implies #[trigger] q[j] < pa.len() by {
                    assert(q[j] == qb[j + 1]);
                }
                assert forall|i: int| 0 <= i < pa.len() implies #[trigger] pa[i].responses@.len()
                    == q.to_multiset().count(i as u64) by {
                    assert(pb[i].responses@.len() == qb.to_multiset().count(i as u64));
                }
                c = c + 1;
            }
            if !closed {
                proof {
                    assert(old(self).response_queue()[c - 1] == id);
                    if paths0[q0[0] as int].state != PathState::Closed {
                        assert(c - 1 == 0);
                        assert(pending_responses(paths0, q0).subrange(1, q0.len() as int) =~= pending_responses(paths0, q0).drop_first());
                    }
                }
                return Ok(Frame::PathResponse { data: token });
            }
        }
    }

    /// The first path created, which is the connection's primary path.
    pub fn default_path(&self) -> (r: Result<&PathEntry, Error>)
        requires
            self.wf(),
        ensures
            self.paths_view().len() == 0 ==> r == Err::<&PathEntry, Error>(Error::InvalidState),
            self.paths_view().len() > 0 ==> (r matches Ok(e) && *e == self.paths_view()[0]),
    {
        match self.paths.get(0) {
            Some(e) => Ok(e),
            None => Err(Error::InvalidState),
        }
    }

    /// The path with identifier `id`.
    pub fn path(&self, id: u64) -> (r: Option<&PathEntry>)
        requires
            self.wf(),
        ensures
            match r {
                Some(e) => id < self.paths_view().len() && *e == self.paths_view()[id as int],
                None => id >= self.paths_view().len(),
            },
    {
        self.paths.get(id)
    }

    /// The number of paths, which is also the next identifier.
    pub fn path_count(&self) -> (r: usize)
        ensures
            r == self.paths_view().len(),
    {
        self.paths.len()
    }

    /// The identifier of the path between `peer_addr` and `local_addr`.
    pub fn find_path(&self, peer_addr: SocketAddress, local_addr: SocketAddress) -> (r: Option<u64>)
        requires
            self.wf(),
        ensures
            match r {
                Some(id) => id < self.paths_view().len() && has_pair(
                    self.paths_view()[id as int],
                    peer_addr,
                    local_addr,
                ),
                None => !pair_known(self.paths_view(), peer_addr, local_addr),
            },
    {
        match self.paths.find_by_address_pair(peer_addr, local_addr) {
            Some(i) => Some(i as u64),
            None => None,
        }
    }

    /// Every path's identifier and state, in creation order.
    pub fn path_states(&self) -> (r: Vec<(u64, PathState)>)
        requires
            self.wf(),
        ensures
            r@.len() == self.paths_view().len(),
            forall|i: int|
                0 <= i < r@.len() ==> #[trigger] r@[i] == (i as u64, self.paths_view()[i].state),
    {
        let mut out: Vec<(u64, PathState)> = Vec::new();
        let n = self.paths.len();
        let mut i: usize = 0;
        while i < n
            invariant
                self.wf(),
                n == self.paths_view().len(),
                0 <= i <= n,
                out@.len() == i,
                forall|j: int|
                    0 <= j < i ==> #[trigger] out@[j] == (j as u64, self.paths_view()[j].state),
            decreases n - i,
        {
            match self.paths.get(i as u64) {
                Some(e) => {
                    out.push((e.id, e.state));
                },
                None => {},
            }
            i = i + 1;
        }
        out
    }

    /// All peer address records, in order of registration.
    pub fn peer_addrs(&self) -> (r: &Vec<PeerAddressEntry>)
        ensures
            r@ == self.peers_view(),
    {
        self.addrs.peer_addresses()
    }

    /// All local addresses, in order of registration.
    pub fn local_addrs(&self) -> (r: &Vec<SocketAddress>)
        ensures
            r@ == self.locals_view(),
    {
        self.addrs.local_addresses()
    }

    /// Whether `peer_addr` is verified; `None` if it is not registered.
    pub fn is_peer_verified(&self, peer_addr: SocketAddress) -> (r: Option<bool>)
        requires
            self.wf(),
        ensures
            match r {
                Some(v) => exists|i: int|
                    0 <= i < self.peers_view().len() && #[trigger] self.peers_view()[i].addr
                        == peer_addr && self.peers_view()[i].verified == v,
                None => !peer_known(self.peers_view(), peer_addr),
            },
    {
        self.addrs.is_peer_verified(peer_addr)
    }
}

} // verus!
