use vstd::prelude::*;

use crate::error::Error;

verus! {

/// An IP address, held as plain integers.
#[derive(Debug, Clone, Copy, PartialEq, Eq, Structural, Hash)]
pub enum IpAddress {
    V4(u32),
    V6(u128),
}

/// A socket address: an IP address and a port.
#[derive(Debug, Clone, Copy, PartialEq, Eq, Structural, Hash)]
pub struct SocketAddress {
    pub ip: IpAddress,
    pub port: u16,
}

/// An eight-byte PATH_CHALLENGE / PATH_RESPONSE token.
pub type Token = [u8; 8];

/// Compares two tokens byte by byte.
pub fn token_eq(a: &Token, b: &Token) -> (r: bool)
    ensures
        r == (*a == *b),
{
    let mut i: usize = 0;
    while i < 8
        invariant
            0 <= i <= 8,
            forall|j: int| 0 <= j < i ==> a[j] == b[j],
        decreases 8 - i,
    {
        if a[i] != b[i] {
            return false;
        }
        i = i + 1;
    }
    proof {
        assert(*a =~= *b);
    }
    true
}

/// A peer address and whether it has passed anti-spoofing verification.
#[derive(Debug, Clone, Copy, PartialEq, Eq, Structural)]
pub struct PeerAddressEntry {
    pub addr: SocketAddress,
    pub verified: bool,
}

/// Whether some record of `s` is for `addr`.
pub open spec fn peer_known(s: Seq<PeerAddressEntry>, addr: SocketAddress) -> bool {
    exists|i: int| 0 <= i < s.len() && #[trigger] s[i].addr == addr
}

/// Whether no two records of `s` are for the same address.
pub open spec fn peers_distinct(s: Seq<PeerAddressEntry>) -> bool {
    forall|i: int, j: int| 0 <= i < s.len() && 0 <= j < s.len() && i != j ==> #[trigger] s[i].addr != #[trigger] s[j].addr
}

/// Whether no address occurs twice in `s`.
pub open spec fn locals_distinct(s: Seq<SocketAddress>) -> bool {
    forall|i: int, j: int| 0 <= i < s.len() && 0 <= j < s.len() && i != j ==> #[trigger] s[i] != #[trigger] s[j]
}

/// Whether `b` is `a` after the verification of `addr`.
pub open spec fn peer_verified_update(a: PeerAddressEntry, b: PeerAddressEntry, addr: SocketAddress) -> bool {
    b.addr == a.addr && b.verified == (a.verified || a.addr == addr)
}

/// The peer and local addresses known to a connection, in order of
/// registration.
pub struct AddressRegistry {
    peers: Vec<PeerAddressEntry>,
    locals: Vec<SocketAddress>,
}

impl AddressRegistry {
    pub closed spec fn peers(&self) -> Seq<PeerAddressEntry> {
        self.peers@
    }

    pub closed spec fn locals(&self) -> Seq<SocketAddress> {
        self.locals@
    }

    pub open spec fn wf(&self) -> bool {
        peers_distinct(self.peers()) && locals_distinct(self.locals())
    }

    /// A registry with no address.
    pub fn new() -> (r: AddressRegistry)
        ensures
            r.wf(),
            r.peers().len() == 0,
            r.locals().len() == 0,
    {
        AddressRegistry { peers: Vec::new(), locals: Vec::new() }
    }

    /// The position of the record for `addr`.
    pub fn find_peer(&self, addr: SocketAddress) -> (r: Option<usize>)
        ensures
            match r {
                Some(i) => i < self.peers().len() && self.peers()[i as int].addr == addr,
                None => !peer_known(self.peers(), addr),
            },
    {
        let mut i: usize = 0;
        while i < self.peers.len()
            invariant
                0 <= i <= self.peers@.len(),
                forall|j: int| 0 <= j < i ==> #[trigger] self.peers@[j].addr != addr,
            decreases self.peers@.len() - i,
        {
            if self.peers[i].addr == addr {
                return Some(i);
            }
            i = i + 1;
        }
        None
    }

    /// Whether `addr` is a registered local address.
    pub fn has_local(&self, addr: SocketAddress) -> (r: bool)
        ensures
            r == self.locals().contains(addr),
    {
        let mut i: usize = 0;
        while i < self.locals.len()
            invariant
                0 <= i <= self.locals@.len(),
                forall|j: int| 0 <= j < i ==> #[trigger] self.locals@[j] != addr,
            decreases self.locals@.len() - i,
        {
            if self.locals[i] == addr {
                return true;
            }
            i = i + 1;
        }
        false
    }

    /// Registers `addr` as a peer address, unverified.
    pub fn add_peer_address(&mut self, addr: SocketAddress) -> (r: Result<(), Error>)
        requires
            old(self).wf(),
        ensures
            final(self).wf(),
            final(self).locals() == old(self).locals(),
            peer_known(old(self).peers(), addr) ==> r == Err::<(), Error>(Error::DuplicateAddress)
                && final(self).peers() == old(self).peers(),
            !peer_known(old(self).peers(), addr) ==> r is Ok && final(self).peers()
                == old(self).peers().push(PeerAddressEntry { addr, verified: false }),
    {
        if self.find_peer(addr).is_some() {
            return Err(Error::DuplicateAddress);
        }
        self.peers.push(PeerAddressEntry { addr, verified: false });
        Ok(())
    }

    /// Registers `addr` as a local address.
    pub fn add_local_address(&mut self, addr: SocketAddress) -> (r: Result<(), Error>)
        requires
            old(self).wf(),
        ensures
            final(self).wf(),
            final(self).peers() == old(self).peers(),
            old(self).locals().contains(addr) ==> r == Err::<(), Error>(Error::DuplicateAddress)
                && final(self).locals() == old(self).locals(),
            !old(self).locals().contains(addr) ==> r is Ok && final(self).locals()
                == old(self).locals().push(addr),
    {
        if self.has_local(addr) {
            return Err(Error::DuplicateAddress);
        }
        self.locals.push(addr);
        Ok(())
    }

    /// Sets the verified flag of the record for `addr`, if there is one.
    pub fn mark_peer_verified(&mut self, addr: SocketAddress)
        requires
            old(self).wf(),
        ensures
            final(self).wf(),
            final(self).locals() == old(self).locals(),
            final(self).peers().len() == old(self).peers().len(),
            forall|j: int|
                0 <= j < old(self).peers().len() ==> peer_verified_update(
                    #[trigger] old(self).peers()[j],
                    final(self).peers()[j],
                    addr,
                ),
    {
        if let Some(i) = self.find_peer(addr) {
            self.peers.set(i, PeerAddressEntry { addr, verified: true });
        }
    }

    /// The peer address record at position `i`.
    pub fn peer_at(&self, i: usize) -> (r: PeerAddressEntry)
        requires
            i < self.peers().len(),
        ensures
            r == self.peers()[i as int],
    {
        self.peers[i]
    }

    /// The local address at position `i`.
    pub fn local_at(&self, i: usize) -> (r: SocketAddress)
        requires
            i < self.locals().len(),
        ensures
            r == self.locals()[i as int],
    {
        self.locals[i]
    }

    /// The number of peer addresses.
    pub fn peer_count(&self) -> (r: usize)
        ensures
            r == self.peers().len(),
    {
        self.peers.len()
    }

    /// The number of local addresses.
    pub fn local_count(&self) -> (r: usize)
        ensures
            r == self.locals().len(),
    {
        self.locals.len()
    }

    /// All peer address records, in order of registration.
    pub fn peer_addresses(&self) -> (r: &Vec<PeerAddressEntry>)
        ensures
            r@ == self.peers(),
    {
        &self.peers
    }

    /// All local addresses, in order of registration.
    pub fn local_addresses(&self) -> (r: &Vec<SocketAddress>)
        ensures
            r@ == self.locals(),
    {
        &self.locals
    }

    /// Whether `addr` is a verified peer address; `None` if it is unknown.
    pub fn is_peer_verified(&self, addr: SocketAddress) -> (r: Option<bool>)
        requires
            self.wf(),
        ensures
            match r {
                Some(v) => exists|i: int|
                    0 <= i < self.peers().len() && #[trigger] self.peers()[i].addr == addr
                        && self.peers()[i].verified == v,
                None => !peer_known(self.peers(), addr),
            },
    {
        match self.find_peer(addr) {
            Some(i) => Some(self.peers[i].verified),
            None => None,
        }
    }
}

} // verus!
