//! Who the peers are: their addresses and what discovery learned of them.

use crate::common::text::bytes_eq;
use vstd::prelude::*;

verus! {

/// The address of a peer: the text of its IP address and a port.
///
/// Two peers are the same host exactly when the texts of their IP addresses
/// are the same, so the text is what the protocol compares and files under.
#[derive(Debug, PartialEq, Eq, Hash)]
pub struct PeerAddr {
    pub ip: Vec<u8>,
    pub port: u16,
}

/// What a [`PeerAddr`] holds.
pub struct PeerAddrView {
    pub ip: Seq<u8>,
    pub port: u16,
}

impl View for PeerAddr {
    type V = PeerAddrView;

    open spec fn view(&self) -> PeerAddrView {
        PeerAddrView { ip: self.ip@, port: self.port }
    }
}

impl Clone for PeerAddr {
    fn clone(&self) -> (copy: Self)
        ensures
            copy@ == self@,
    {
        PeerAddr { ip: self.ip.clone(), port: self.port }
    }
}

/// The text `0.0.0.0` of the IPv4 address that stands for "no address".
pub open spec fn unspecified_ip() -> Seq<u8> {
    seq![48u8, 46u8, 48u8, 46u8, 48u8, 46u8, 48u8]
}

impl PeerAddr {
    /// The address with the given IP text and port.
    pub fn new(ip: Vec<u8>, port: u16) -> (addr: Self)
        ensures
            addr@ == (PeerAddrView { ip: ip@, port }),
    {
        PeerAddr { ip, port }
    }

    /// The address `0.0.0.0:0`, which no peer has.
    pub fn unspecified() -> (addr: Self)
        ensures
            addr@ == (PeerAddrView { ip: unspecified_ip(), port: 0 }),
    {
        let mut ip: Vec<u8> = Vec::new();
        ip.push(48);
        ip.push(46);
        ip.push(48);
        ip.push(46);
        ip.push(48);
        ip.push(46);
        ip.push(48);
        assert(ip@ =~= unspecified_ip());
        PeerAddr { ip, port: 0 }
    }

    /// The same host at another port.
    pub fn with_port(&self, port: u16) -> (addr: Self)
        ensures
            addr@ == (PeerAddrView { ip: self@.ip, port }),
    {
        PeerAddr { ip: self.ip.clone(), port }
    }

    /// Whether `ip` is the text of this address's IP address.
    pub fn has_ip(&self, ip: &[u8]) -> (same: bool)
        ensures
            same == (self@.ip == ip@),
    {
        bytes_eq(self.ip.as_slice(), ip)
    }

    /// Whether the two addresses are the same host and port.
    pub fn same(&self, other: &PeerAddr) -> (same: bool)
        ensures
            same == (self@ == other@),
    {
        self.port == other.port && bytes_eq(self.ip.as_slice(), other.ip.as_slice())
    }
}

/// What discovery learned of one reachable peer.
#[derive(Debug, PartialEq, Eq, Hash)]
pub struct PingResponse {
    /// Where the peer's reply came from.
    pub addr: PeerAddr,
    /// The label of the peer's operating system.
    pub os: Vec<u8>,
    /// The name under which the peer shows itself.
    pub hostname: Vec<u8>,
}

/// What a [`PingResponse`] holds.
pub struct PingResponseView {
    pub addr: PeerAddrView,
    pub os: Seq<u8>,
    pub hostname: Seq<u8>,
}

impl View for PingResponse {
    type V = PingResponseView;

    open spec fn view(&self) -> PingResponseView {
        PingResponseView { addr: self.addr@, os: self.os@, hostname: self.hostname@ }
    }
}

impl Clone for PingResponse {
    fn clone(&self) -> (copy: Self)
        ensures
            copy@ == self@,
    {
        PingResponse {
            addr: self.addr.clone(),
            os: self.os.clone(),
            hostname: self.hostname.clone(),
        }
    }
}

impl Default for PingResponse {
    /// A peer without a name at the address that no peer has.
    fn default() -> (peer: Self)
        ensures
            peer@ == (PingResponseView {
                addr: PeerAddrView { ip: unspecified_ip(), port: 0 },
                os: Seq::empty(),
                hostname: Seq::empty(),
            }),
    {
        PingResponse { addr: PeerAddr::unspecified(), os: Vec::new(), hostname: Vec::new() }
    }
}

impl PingResponse {
    /// The peer at `addr` that calls itself `hostname` and runs `os`.
    pub fn new(addr: PeerAddr, os: Vec<u8>, hostname: Vec<u8>) -> (peer: Self)
        ensures
            peer@ == (PingResponseView { addr: addr@, os: os@, hostname: hostname@ }),
    {
        PingResponse { addr, os, hostname }
    }

    /// Whether the two are equal in address, operating system and name.
    pub fn same(&self, other: &PingResponse) -> (same: bool)
        ensures
            same == (self@ == other@),
    {
        self.addr.same(&other.addr) && bytes_eq(self.os.as_slice(), other.os.as_slice())
            && bytes_eq(self.hostname.as_slice(), other.hostname.as_slice())
    }
}

/// The peers of `peers` whose IP address is not `ip`, in their order.
pub open spec fn others_than(peers: Seq<PingResponseView>, ip: Seq<u8>) -> Seq<
    PingResponseView,
>
    decreases peers.len(),
{
    if peers.len() == 0 {
        peers
    } else if peers.last().addr.ip == ip {
        others_than(peers.drop_last(), ip)
    } else {
        others_than(peers.drop_last(), ip).push(peers.last())
    }
}

/// The first peer of `peers` whose IP address is `ip`.
pub open spec fn first_with_ip(peers: Seq<PingResponseView>, ip: Seq<u8>) -> Option<
    PingResponseView,
>
    decreases peers.len(),
{
    if peers.len() == 0 {
        None
    } else if peers[0].addr.ip == ip {
        Some(peers[0])
    } else {
        first_with_ip(peers.drop_first(), ip)
    }
}

/// Every peer of `others_than(peers, ip)` is a peer of `peers`, and none of
/// them has the IP address `ip`.
pub proof fn lemma_others_than(peers: Seq<PingResponseView>, ip: Seq<u8>)
    ensures
        forall|p: PingResponseView| #[trigger]
            others_than(peers, ip).contains(p) <==> (peers.contains(p) && p.addr.ip != ip),
        peers.no_duplicates() ==> others_than(peers, ip).no_duplicates(),
    decreases peers.len(),
{
    let out = others_than(peers, ip);
    if peers.len() == 0 {
    } else {
        let rest = peers.drop_last();
        let last = peers.last();
        let kept = others_than(rest, ip);
        lemma_others_than(rest, ip);
        assert forall|p: PingResponseView| #[trigger]
            out.contains(p) <==> (peers.contains(p) && p.addr.ip != ip) by {
            if out.contains(p) {
                let i = choose|i: int| 0 <= i < out.len() && out[i] == p;
                if i < kept.len() {
                    assert(kept[i] == p);
                    assert(kept.contains(p));
                    let j = choose|j: int| 0 <= j < rest.len() && rest[j] == p;
                    assert(peers[j] == p);
                } else {
                    assert(p == last);
                    assert(peers[peers.len() - 1] == p);
                }
            }
            if peers.contains(p) && p.addr.ip != ip {
                let j = choose|j: int| 0 <= j < peers.len() && peers[j] == p;
                if j < rest.len() {
                    assert(rest[j] == p);
                    assert(rest.contains(p));
                    assert(kept.contains(p));
                    let i = choose|i: int| 0 <= i < kept.len() && kept[i] == p;
                    assert(out[i] == p);
                } else {
                    assert(out[out.len() - 1] == p);
                }
            }
        }
        if peers.no_duplicates() {
            assert(rest.no_duplicates());
            if last.addr.ip != ip {
                assert forall|i: int, j: int|
                    0 <= i < out.len() && 0 <= j < out.len() && i != j implies out[i] != out[j] by {
                    if i < kept.len() && j < kept.len() {
                    } else {
                        let k = if i < kept.len() {
                            i
                        } else {
                            j
                        };
                        assert(kept.contains(kept[k]));
                        let m = choose|m: int| 0 <= m < rest.len() && rest[m] == kept[k];
                        assert(peers[m] == kept[k]);
                        assert(peers[peers.len() - 1] == last);
                    }
                }
            }
        }
    }
}

/// A set of peers: no two of them are equal in address, operating system and
/// name. The peers keep the order in which they came in.
pub struct PeerSet {
    peers: Vec<PingResponse>,
}

impl View for PeerSet {
    type V = Seq<PingResponseView>;

    closed spec fn view(&self) -> Seq<PingResponseView> {
        self.peers@.map_values(|p: PingResponse| p@)
    }
}

impl PeerSet {
    /// What holds of every set: no peer is in it twice.
    pub open spec fn wf(&self) -> bool {
        self@.no_duplicates()
    }

    /// The set without peers.
    pub fn new() -> (set: Self)
        ensures
            set.wf(),
            set@ == Seq::<PingResponseView>::empty(),
    {
        let set = PeerSet { peers: Vec::new() };
        assert(set@ =~= Seq::<PingResponseView>::empty());
        set
    }

    /// The number of peers.
    pub fn len(&self) -> (n: usize)
        ensures
            n == self@.len(),
    {
        self.peers.len()
    }

    /// The peer at place `i`.
    pub fn get(&self, i: usize) -> (peer: Option<PingResponse>)
        ensures
            peer is Some <==> i < self@.len(),
            peer matches Some(p) ==> p@ == self@[i as int],
    {
        if i < self.peers.len() {
            Some(self.peers[i].clone())
        } else {
            None
        }
    }

    /// Whether `peer` is in the set.
    pub fn contains(&self, peer: &PingResponse) -> (found: bool)
        ensures
            found == self@.contains(peer@),
    {
        let mut i: usize = 0;
        while i < self.peers.len()
            invariant
                i <= self.peers.len(),
                forall|j: int| 0 <= j < i ==> self@[j] != peer@,
            decreases self.peers.len() - i,
        {
            if self.peers[i].same(peer) {
                assert(self@[i as int] == peer@);
                return true;
            }
            i += 1;
        }
        false
    }

    /// Puts `peer` into the set, unless an equal peer is in it already.
    pub fn insert(&mut self, peer: PingResponse) -> (added: bool)
        requires
            old(self).wf(),
        ensures
            final(self).wf(),
            added == !old(self)@.contains(peer@),
            final(self)@ == if added {
                old(self)@.push(peer@)
            } else {
                old(self)@
            },
    {
        if self.contains(&peer) {
            false
        } else {
            let ghost before = self@;
            let ghost added = peer@;
            self.peers.push(peer);
            assert(self@ =~= before.push(added));
            true
        }
    }

    /// The first peer of the set whose IP address is `ip`.
    pub fn find_by_ip(&self, ip: &[u8]) -> (peer: Option<PingResponse>)
        ensures
            match peer {
                Some(p) => first_with_ip(self@, ip@) == Some(p@),
                None => first_with_ip(self@, ip@) is None,
            },
    {
        let mut i: usize = 0;
        assert(self@.skip(0) =~= self@);
        while i < self.peers.len()
            invariant
                i <= self.peers.len(),
                first_with_ip(self@, ip@) == first_with_ip(self@.skip(i as int), ip@),
            decreases self.peers.len() - i,
        {
            let ghost rest = self@.skip(i as int);
            assert(rest[0] == self@[i as int]);
            assert(rest.drop_first() =~= self@.skip(i + 1));
            if self.peers[i].addr.has_ip(ip) {
                return Some(self.peers[i].clone());
            }
            i += 1;
        }
        None
    }

    /// The peers of the set whose IP address is not `ip`.
    pub fn without_ip(&self, ip: &[u8]) -> (set: Self)
        requires
            self.wf(),
        ensures
            set.wf(),
            set@ == others_than(self@, ip@),
    {
        let mut kept: Vec<PingResponse> = Vec::new();
        let mut i: usize = 0;
        assert(self@.take(0) =~= Seq::<PingResponseView>::empty());
        while i < self.peers.len()
            invariant
                i <= self.peers.len(),
                kept@.map_values(|p: PingResponse| p@) == others_than(self@.take(i as int), ip@),
            decreases self.peers.len() - i,
        {
            let ghost before = kept@.map_values(|p: PingResponse| p@);
            let ghost next = self@.take(i + 1);
            assert(next.drop_last() =~= self@.take(i as int));
            assert(next.last() == self@[i as int]);
            if !self.peers[i].addr.has_ip(ip) {
                let copy = self.peers[i].clone();
                kept.push(copy);
                assert(kept@.map_values(|p: PingResponse| p@) =~= before.push(copy@));
            }
            i += 1;
        }
        proof {
            assert(self@.take(i as int) =~= self@);
            lemma_others_than(self@, ip@);
        }
        PeerSet { peers: kept }
    }

    /// The peers of the set, in their order.
    pub fn to_vec(&self) -> (peers: Vec<PingResponse>)
        ensures
            peers@.map_values(|p: PingResponse| p@) == self@,
    {
        let mut out: Vec<PingResponse> = Vec::new();
        let mut i: usize = 0;
        while i < self.peers.len()
            invariant
                i <= self.peers.len(),
                out@.map_values(|p: PingResponse| p@) == self@.take(i as int),
            decreases self.peers.len() - i,
        {
            let ghost before = out@.map_values(|p: PingResponse| p@);
            let copy = self.peers[i].clone();
            out.push(copy);
            assert(out@.map_values(|p: PingResponse| p@) =~= before.push(copy@));
            assert(self@.take(i + 1) =~= self@.take(i as int).push(self@[i as int]));
            i += 1;
        }
        assert(self@.take(i as int) =~= self@);
        out
    }
}

impl Clone for PeerSet {
    fn clone(&self) -> (copy: Self)
        ensures
            copy@ == self@,
            copy.wf() == self.wf(),
    {
        PeerSet { peers: self.to_vec() }
    }
}

} // verus!
