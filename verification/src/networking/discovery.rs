//! Peer discovery: a probe that is broadcast, the replies that name the
//! peers, and the set of known peers that each cycle publishes anew.
//!
//! A reply is two lines: the name under which the peer shows itself, and the
//! label of its operating system.

use crate::common::text::is_line;
use crate::common::text::lemma_lines_concat;
use crate::common::text::lemma_lines_of_one;
use crate::common::text::lines;
use crate::common::text::push_bytes;
use crate::common::text::split_lines;
use crate::common::text::trim;
use crate::common::text::trim_bytes;
use crate::common::text::views;
use crate::common::text::NEWLINE;
use crate::networking::peers::lemma_others_than;
use crate::networking::peers::others_than;
use crate::networking::peers::PeerAddr;
use crate::networking::peers::PeerAddrView;
use crate::networking::peers::PeerSet;
use crate::networking::peers::PingResponse;
use crate::networking::peers::PingResponseView;
use vstd::prelude::*;

verus! {

/// The port on which a peer answers probes.
pub const DISCOVERY_PORT: u16 = 24934;

/// The port from which a peer sends its probes.
pub const PROBER_PORT: u16 = 24936;

/// The time in milliseconds for which replies to a probe are collected.
pub const LISTEN_WINDOW_MS: u64 = 2000;

/// The time in milliseconds between the end of one cycle and the next
/// probe.
pub const CYCLE_SLEEP_MS: u64 = 3000;

/// The error of the `local_ip_address` crate. It is opaque here: all that
/// is made of it is that the address was not found.
#[verifier::external_type_specification]
#[verifier::external_body]
pub struct ExLocalIpError(local_ip_address::Error);

/// `whoami::username`: the name of the user that runs the program, as the
/// system gives it. Nothing is claimed of it.
#[verifier::external_body]
fn current_username() -> (name: Vec<u8>) {
    whoami::username().into_bytes()
}

/// `local_ip_address::local_ip`: the address that this machine has in the
/// local network, as the system gives it, written as text; or the crate's
/// error. Nothing is claimed of either.
#[verifier::external_body]
fn local_network_ip() -> (ip: Result<Vec<u8>, local_ip_address::Error>) {
    match local_ip_address::local_ip() {
        Ok(ip) => Ok(ip.to_string().into_bytes()),
        Err(e) => Err(e),
    }
}

/// The payload `ping` of a probe.
pub open spec fn ping_word() -> Seq<u8> {
    seq![112u8, 105u8, 110u8, 103u8]
}

/// The reply of a peer that shows itself as `name` and runs `os`.
pub open spec fn reply_text(name: Seq<u8>, os: Seq<u8>) -> Seq<u8> {
    name + seq![NEWLINE] + os + seq![NEWLINE]
}

/// Whether a line holds nothing but white space.
pub open spec fn is_blank(line: Seq<u8>) -> bool {
    trim(line).len() == 0
}

/// The lines of `text` that are not blank, in their order.
pub open spec fn filled(text: Seq<Seq<u8>>) -> Seq<Seq<u8>>
    decreases text.len(),
{
    if text.len() == 0 {
        text
    } else if is_blank(text.last()) {
        filled(text.drop_last())
    } else {
        filled(text.drop_last()).push(text.last())
    }
}

/// The line at place `i` of `text`, or nothing where there is none.
pub open spec fn line_or_empty(text: Seq<Seq<u8>>, i: int) -> Seq<u8> {
    if 0 <= i < text.len() {
        text[i]
    } else {
        Seq::empty()
    }
}

/// The name that a reply gives: its first line that is not blank.
pub open spec fn reply_name(reply: Seq<u8>) -> Seq<u8> {
    line_or_empty(filled(lines(reply)), 0)
}

/// The operating system that a reply gives: its second line that is not
/// blank.
pub open spec fn reply_os(reply: Seq<u8>) -> Seq<u8> {
    line_or_empty(filled(lines(reply)), 1)
}

/// The peer that a reply from `src` tells of.
pub open spec fn peer_of(src: PeerAddrView, reply: Seq<u8>) -> PingResponseView {
    PingResponseView { addr: src, os: reply_os(reply), hostname: reply_name(reply) }
}

/// The payload of a probe.
pub fn probe_payload() -> (payload: Vec<u8>)
    ensures
        payload@ == ping_word(),
{
    let mut payload: Vec<u8> = Vec::new();
    payload.push(112);
    payload.push(105);
    payload.push(110);
    payload.push(103);
    assert(payload@ =~= ping_word());
    payload
}

/// Writes the reply of a peer that shows itself as `name` and runs `os`.
pub fn build_reply(name: &[u8], os: &[u8]) -> (reply: Vec<u8>)
    ensures
        reply@ == reply_text(name@, os@),
{
    let mut reply: Vec<u8> = Vec::new();
    push_bytes(&mut reply, name);
    reply.push(NEWLINE);
    push_bytes(&mut reply, os);
    reply.push(NEWLINE);
    assert(reply@ =~= reply_text(name@, os@));
    reply
}

/// Answers a probe: the reply of this peer, which runs `os` and shows
/// itself under the name of the user that runs the program.
///
/// Whatever the datagram holds, it is answered.
pub fn answer_probe(probe: &[u8], os: &[u8]) -> (reply: Vec<u8>)
    ensures
        exists|name: Seq<u8>| reply@ == reply_text(name, os@),
{
    let name = current_username();
    build_reply(name.as_slice(), os)
}

/// Reads a reply that came from `src`.
pub fn parse_reply(src: PeerAddr, reply: &[u8]) -> (peer: PingResponse)
    ensures
        peer@ == peer_of(src@, reply@),
{
    let text = split_lines(reply);
    let mut kept: Vec<Vec<u8>> = Vec::new();
    let mut i: usize = 0;
    let ghost all = views(text@);
    assert(all.take(0) =~= Seq::<Seq<u8>>::empty());
    assert(views(kept@) =~= Seq::<Seq<u8>>::empty());
    while i < text.len()
        invariant
            i <= text.len(),
            all == views(text@),
            views(kept@) == filled(all.take(i as int)),
        decreases text.len() - i,
    {
        let ghost before = views(kept@);
        let ghost next = all.take(i + 1);
        assert(next.drop_last() =~= all.take(i as int));
        assert(next.last() == text@[i as int]@);
        if trim_bytes(text[i].as_slice()).len() != 0 {
            kept.push(text[i].clone());
            assert(views(kept@) =~= before.push(text@[i as int]@));
        }
        i += 1;
    }
    assert(all.take(i as int) =~= all);
    let hostname: Vec<u8> = if kept.len() > 0 {
        assert(views(kept@)[0] == kept@[0]@);
        kept[0].clone()
    } else {
        Vec::new()
    };
    let os: Vec<u8> = if kept.len() > 1 {
        assert(views(kept@)[1] == kept@[1]@);
        kept[1].clone()
    } else {
        Vec::new()
    };
    PingResponse::new(src, os, hostname)
}

/// Why discovery could not start.
#[derive(Clone, Copy, Debug, PartialEq, Eq, Structural)]
pub enum DiscoveryError {
    /// The address of this machine in the local network is not known.
    NoLocalAddress,
}

/// Where a prober stands in its cycle.
#[derive(Clone, Copy, Debug, PartialEq, Eq, Structural)]
pub enum ProberPhase {
    /// Between two cycles.
    Idle,
    /// A probe is out, and replies are collected.
    Listening,
}

/// What the program around a prober is to do next.
#[derive(Clone, Copy, Debug, PartialEq, Eq, Structural)]
pub enum ProbeAction {
    /// Nothing: this was not the moment for what was reported.
    Ignore,
    /// Broadcast the probe to [`DISCOVERY_PORT`], then report every reply
    /// that comes in within [`LISTEN_WINDOW_MS`].
    Broadcast,
    /// Wait for [`CYCLE_SLEEP_MS`], then begin the next cycle.
    Sleep,
}

/// The prober: it collects the replies of one cycle and publishes the peers
/// that they tell of, but for this machine itself.
pub struct Prober {
    local_ip: Vec<u8>,
    phase: ProberPhase,
    candidates: PeerSet,
    known: PeerSet,
}

impl Prober {
    /// The text of the IP address of this machine.
    pub closed spec fn local_ip(&self) -> Seq<u8> {
        self.local_ip@
    }

    /// Where the prober stands in its cycle.
    pub closed spec fn phase(&self) -> ProberPhase {
        self.phase
    }

    /// The peers that replied in the cycle under way.
    pub closed spec fn candidates(&self) -> Seq<PingResponseView> {
        self.candidates@
    }

    /// The published set of known peers.
    pub closed spec fn known(&self) -> Seq<PingResponseView> {
        self.known@
    }

    /// What holds of every prober: no peer is twice in either of its sets,
    /// and no published peer has the address of this machine.
    pub open spec fn wf(&self) -> bool {
        &&& self.candidates().no_duplicates()
        &&& self.known().no_duplicates()
        &&& forall|i: int|
            0 <= i < self.known().len() ==> (#[trigger] self.known()[i]).addr.ip != self.local_ip()
    }

    /// The prober of the machine with the IP address `local_ip`. It knows
    /// no peer yet.
    pub fn new(local_ip: Vec<u8>) -> (prober: Self)
        ensures
            prober.wf(),
            prober.local_ip() == local_ip@,
            prober.phase() == ProberPhase::Idle,
            prober.candidates() == Seq::<PingResponseView>::empty(),
            prober.known() == Seq::<PingResponseView>::empty(),
    {
        Prober {
            local_ip,
            phase: ProberPhase::Idle,
            candidates: PeerSet::new(),
            known: PeerSet::new(),
        }
    }

    /// The prober of the machine whose address in the local network was
    /// looked up with the result `found`: there is none where the address
    /// was not found.
    pub fn for_address(found: Result<Vec<u8>, local_ip_address::Error>) -> (prober: Result<
        Self,
        DiscoveryError,
    >)
        ensures
            match found {
                Ok(ip) => prober matches Ok(p) && p.wf() && p.local_ip() == ip@ && p.phase()
                    == ProberPhase::Idle && p.candidates() == Seq::<PingResponseView>::empty()
                    && p.known() == Seq::<PingResponseView>::empty(),
                Err(_) => prober matches Err(e) && e == DiscoveryError::NoLocalAddress,
            },
    {
        match found {
            Ok(ip) => Ok(Prober::new(ip)),
            Err(_) => Err(DiscoveryError::NoLocalAddress),
        }
    }

    /// The prober of this machine, if the machine's address in the local
    /// network can be had.
    pub fn start() -> (prober: Result<Self, DiscoveryError>)
        ensures
            match prober {
                Ok(p) => p.wf() && p.phase() == ProberPhase::Idle && p.candidates() == Seq::<
                    PingResponseView,
                >::empty() && p.known() == Seq::<PingResponseView>::empty(),
                Err(e) => e == DiscoveryError::NoLocalAddress,
            },
    {
        Prober::for_address(local_network_ip())
    }

    /// Begins a cycle: the candidates of the cycle before are forgotten.
    /// What is published stays until the cycle ends.
    pub fn begin_cycle(&mut self) -> (action: ProbeAction)
        requires
            old(self).wf(),
        ensures
            final(self).wf(),
            final(self).local_ip() == old(self).local_ip(),
            final(self).known() == old(self).known(),
            old(self).phase() == ProberPhase::Idle ==> action == ProbeAction::Broadcast
                && final(self).phase() == ProberPhase::Listening && final(self).candidates()
                == Seq::<PingResponseView>::empty(),
            old(self).phase() != ProberPhase::Idle ==> action == ProbeAction::Ignore
                && final(self).phase() == old(self).phase() && final(self).candidates() == old(
                self,
            ).candidates(),
    {
        match self.phase {
            ProberPhase::Idle => {
                self.candidates = PeerSet::new();
                self.phase = ProberPhase::Listening;
                ProbeAction::Broadcast
            },
            _ => ProbeAction::Ignore,
        }
    }

    /// Takes a reply in that came from `src` while replies are collected:
    /// the peer that it tells of becomes a candidate, unless an equal one is
    /// a candidate already. Outside the listening window nothing changes.
    pub fn on_reply(&mut self, src: PeerAddr, reply: &[u8]) -> (added: bool)
        requires
            old(self).wf(),
        ensures
            final(self).wf(),
            final(self).local_ip() == old(self).local_ip(),
            final(self).known() == old(self).known(),
            final(self).phase() == old(self).phase(),
            added == (old(self).phase() == ProberPhase::Listening && !old(
                self,
            ).candidates().contains(peer_of(src@, reply@))),
            final(self).candidates() == if added {
                old(self).candidates().push(peer_of(src@, reply@))
            } else {
                old(self).candidates()
            },
    {
        match self.phase {
            ProberPhase::Listening => {
                let peer = parse_reply(src, reply);
                self.candidates.insert(peer)
            },
            _ => false,
        }
    }

    /// Ends the listening window: the candidates, but for those with the
    /// address of this machine, are published in place of what was
    /// published before.
    pub fn end_window(&mut self) -> (action: ProbeAction)
        requires
            old(self).wf(),
        ensures
            final(self).wf(),
            final(self).local_ip() == old(self).local_ip(),
            final(self).candidates() == old(self).candidates(),
            old(self).phase() == ProberPhase::Listening ==> action == ProbeAction::Sleep
                && final(self).phase() == ProberPhase::Idle && final(self).known() == others_than(
                old(self).candidates(),
                old(self).local_ip(),
            ),
            old(self).phase() != ProberPhase::Listening ==> action == ProbeAction::Ignore
                && final(self).phase() == old(self).phase() && final(self).known() == old(
                self,
            ).known(),
    {
        match self.phase {
            ProberPhase::Listening => {
                let published = self.candidates.without_ip(self.local_ip.as_slice());
                proof {
                    lemma_others_than(self.candidates@, self.local_ip@);
                    assert forall|i: int| 0 <= i < published@.len() implies (
                    #[trigger] published@[i]).addr.ip != self.local_ip@ by {
                        assert(published@.contains(published@[i]));
                    }
                }
                self.known = published;
                self.phase = ProberPhase::Idle;
                ProbeAction::Sleep
            },
            _ => ProbeAction::Ignore,
        }
    }

    /// The published set of known peers, as it stands.
    pub fn known_peers(&self) -> (peers: PeerSet)
        requires
            self.wf(),
        ensures
            peers.wf(),
            peers@ == self.known(),
            forall|i: int| 0 <= i < peers@.len() ==> (#[trigger] peers@[i]).addr.ip != self.local_ip(),
    {
        self.known.clone()
    }

    /// Whether a probe is out.
    pub fn is_listening(&self) -> (listening: bool)
        ensures
            listening == (self.phase() == ProberPhase::Listening),
    {
        match self.phase {
            ProberPhase::Listening => true,
            _ => false,
        }
    }
}

/// Whatever replies come in, no peer that a cycle publishes has the address
/// of the machine that probes.
pub proof fn lemma_never_publishes_itself(
    candidates: Seq<PingResponseView>,
    local_ip: Seq<u8>,
    i: int,
)
    requires
        0 <= i < others_than(candidates, local_ip).len(),
    ensures
        others_than(candidates, local_ip)[i].addr.ip != local_ip,
        candidates.contains(others_than(candidates, local_ip)[i]),
{
    lemma_others_than(candidates, local_ip);
    let published = others_than(candidates, local_ip);
    assert(published.contains(published[i]));
}

/// A reply is read back: the prober learns the name and the operating
/// system that the peer wrote, as long as each can stand on a line of its
/// own and is not blank.
pub proof fn lemma_reply_round_trip(src: PeerAddrView, name: Seq<u8>, os: Seq<u8>)
    requires
        is_line(name),
        is_line(os),
        !is_blank(name),
        !is_blank(os),
    ensures
        peer_of(src, reply_text(name, os)) == (PingResponseView { addr: src, os, hostname: name }),
{
    let first = name + seq![NEWLINE];
    let second = os + seq![NEWLINE];
    lemma_lines_of_one(name);
    lemma_lines_of_one(os);
    assert(first.last() == NEWLINE);
    lemma_lines_concat(first, second);
    assert(reply_text(name, os) =~= first + second);
    let text = lines(reply_text(name, os));
    assert(text =~= seq![name, os]);
    assert(text.drop_last() =~= seq![name]);
    assert(seq![name].drop_last() =~= Seq::<Seq<u8>>::empty());
    assert(filled(Seq::<Seq<u8>>::empty()) =~= Seq::<Seq<u8>>::empty());
    assert(filled(seq![name]) =~= seq![name]);
    assert(filled(text) =~= seq![name, os]);
}

} // verus!
