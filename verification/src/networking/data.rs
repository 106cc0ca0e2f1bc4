//! The data channel: one connection for one file.
//!
//! The sender writes a header of 296 bytes (the file's name in a field of
//! 256 bytes, padded with NUL bytes; its size in 8 bytes, least significant
//! first; its SHA-256 digest in 32 bytes), reads one line that accepts or
//! rejects the file, and then writes the file's bytes. The receiver takes
//! the file only if its name was promised to the sender's address, and
//! checks the digest of what it has written once the connection is closed.

use crate::common::counter::get_inc;
use crate::common::counter::IdGenerator;
use crate::common::hash::sha256;
use crate::common::text::bytes_eq;
use crate::common::text::copy_range;
use crate::common::text::push_bytes;
use crate::common::text::NEWLINE;
use crate::common::text::NUL;
use crate::common::transfer_state::phase_moved;
use crate::common::transfer_state::progress_noted;
use crate::common::transfer_state::Records;
use crate::common::transfer_state::TransferRegistry;
use crate::common::transfer_state::TransferState;
use crate::common::transfer_state::TransferStateView;
use crate::common::transfer_state::TransferType;
use crate::networking::control::accept_word;
use crate::networking::control::begins_with_accept;
use crate::networking::control::push_accept_word;
use crate::networking::control::push_reject_word;
use crate::networking::control::reject_word;
use crate::networking::ledger::after_redeem;
use crate::networking::ledger::multiplicity;
use crate::networking::ledger::outstanding;
use crate::networking::ledger::Ledger;
use crate::networking::ledger::Promises;
use crate::networking::peers::PeerAddr;
use crate::networking::peers::PeerAddrView;
use vstd::bytes::spec_u64_from_le_bytes;
use vstd::bytes::spec_u64_to_le_bytes;
use vstd::bytes::u64_from_le_bytes;
use vstd::bytes::u64_to_le_bytes;
use vstd::prelude::*;
use vstd::slice::slice_subrange;

verus! {

/// The port on which a peer listens for data connections.
pub const DATA_PORT: u16 = 24935;

/// The number of bytes that are read and written at a time.
pub const CHUNK_SIZE: usize = 65536;

/// The size of the header's field for the file name.
pub const NAME_FIELD_SIZE: usize = 256;

/// The size of the header.
pub const HEADER_SIZE: usize = 296;

/// How often the receiver looks into the ledger before it gives a
/// connection up.
pub const MAX_ITERATIONS: u32 = 50;

/// The time in milliseconds between two looks into the ledger.
pub const LEDGER_POLL_MS: u64 = 100;

/// The time in milliseconds between two attempts of the sender to connect.
pub const CONNECT_RETRY_MS: u64 = 100;

/// `s` without the NUL bytes at its end.
pub open spec fn strip_nuls(s: Seq<u8>) -> Seq<u8>
    decreases s.len(),
{
    if s.len() == 0 || s.last() != NUL {
        s
    } else {
        strip_nuls(s.drop_last())
    }
}

/// The header's field for the file name: the first 256 bytes of the name,
/// filled up with NUL bytes.
pub open spec fn name_field(name: Seq<u8>) -> Seq<u8> {
    if name.len() >= NAME_FIELD_SIZE {
        name.take(NAME_FIELD_SIZE as int)
    } else {
        name + Seq::new((NAME_FIELD_SIZE - name.len()) as nat, |i: int| NUL)
    }
}

/// The header for a file with this name, size and digest.
pub open spec fn header_bytes(name: Seq<u8>, size: u64, digest: Seq<u8>) -> Seq<u8> {
    name_field(name) + spec_u64_to_le_bytes(size) + digest
}

/// What a header says of a file.
#[derive(Debug, PartialEq, Eq)]
pub struct DataHeader {
    /// The name of the file.
    pub name: Vec<u8>,
    /// The size of the file in bytes.
    pub size: u64,
    /// The SHA-256 digest of the file's bytes.
    pub digest: Vec<u8>,
}

/// What a [`DataHeader`] holds.
pub struct DataHeaderView {
    pub name: Seq<u8>,
    pub size: u64,
    pub digest: Seq<u8>,
}

impl View for DataHeader {
    type V = DataHeaderView;

    open spec fn view(&self) -> DataHeaderView {
        DataHeaderView { name: self.name@, size: self.size, digest: self.digest@ }
    }
}

/// What the first 296 bytes of `bytes` say as a header; nothing where
/// `bytes` is shorter. The name is the name field without the NUL bytes at
/// its end.
pub open spec fn header_of(bytes: Seq<u8>) -> Option<DataHeaderView> {
    if bytes.len() < HEADER_SIZE {
        None
    } else {
        Some(
            DataHeaderView {
                name: strip_nuls(bytes.take(NAME_FIELD_SIZE as int)),
                size: spec_u64_from_le_bytes(bytes.subrange(NAME_FIELD_SIZE as int, 264)),
                digest: bytes.subrange(264, HEADER_SIZE as int),
            },
        )
    }
}

/// The line `ACCEPT` that lets the sender go on.
pub open spec fn accept_line() -> Seq<u8> {
    accept_word() + seq![NEWLINE]
}

/// The line `REJECT` that turns the sender away.
pub open spec fn reject_line() -> Seq<u8> {
    reject_word() + seq![NEWLINE]
}

/// A place with these properties is where the NUL bytes at the end of `s`
/// begin.
pub proof fn lemma_strip_nuls_is(s: Seq<u8>, end: int)
    requires
        0 <= end <= s.len(),
        forall|j: int| end <= j < s.len() ==> s[j] == NUL,
        end > 0 ==> s[end - 1] != NUL,
    ensures
        strip_nuls(s) == s.take(end),
    decreases s.len(),
{
    if s.len() == 0 || s.last() != NUL {
        assert(s.take(end) =~= s);
    } else {
        let rest = s.drop_last();
        assert forall|j: int| end <= j < rest.len() implies rest[j] == NUL by {
            assert(rest[j] == s[j]);
        }
        if end > 0 {
            assert(rest[end - 1] == s[end - 1]);
        }
        lemma_strip_nuls_is(rest, end);
        assert(rest.take(end) =~= s.take(end));
    }
}

/// A header says of a file what it was written for: the size and the
/// digest as they were given, and the name cut to the field's size and
/// without NUL bytes at its end.
pub proof fn lemma_header_round_trip(name: Seq<u8>, size: u64, digest: Seq<u8>)
    requires
        digest.len() == 32,
    ensures
        header_of(header_bytes(name, size, digest)) == Some(
            DataHeaderView { name: strip_nuls(name_field(name)), size, digest },
        ),
{
    vstd::bytes::lemma_auto_spec_u64_to_from_le_bytes();
    let bytes = header_bytes(name, size, digest);
    assert(name_field(name).len() == 256);
    assert(spec_u64_to_le_bytes(size).len() == 8);
    assert(bytes.take(NAME_FIELD_SIZE as int) =~= name_field(name));
    assert(bytes.subrange(NAME_FIELD_SIZE as int, 264) =~= spec_u64_to_le_bytes(size));
    assert(bytes.subrange(264, HEADER_SIZE as int) =~= digest);
}

/// A name that fits the field and does not end in a NUL byte comes out of
/// the header as it went in.
pub proof fn lemma_name_round_trip(name: Seq<u8>)
    requires
        name.len() <= NAME_FIELD_SIZE,
        name.len() > 0 ==> name.last() != NUL,
    ensures
        strip_nuls(name_field(name)) == name,
{
    let field = name_field(name);
    lemma_strip_nuls_is(field, name.len() as int);
    assert(field.take(name.len() as int) =~= name);
}

/// Writes the header for a file with this name, size and digest.
pub fn encode_header(name: &[u8], size: u64, digest: &[u8; 32]) -> (bytes: Vec<u8>)
    ensures
        bytes@ == header_bytes(name@, size, digest@),
        bytes@.len() == HEADER_SIZE,
{
    let mut bytes: Vec<u8> = if name.len() >= NAME_FIELD_SIZE {
        copy_range(name, 0, NAME_FIELD_SIZE)
    } else {
        let mut field = copy_range(name, 0, name.len());
        assert(field@ =~= name@);
        while field.len() < NAME_FIELD_SIZE
            invariant
                name@.len() <= field@.len() <= NAME_FIELD_SIZE,
                field@ == name@ + Seq::new((field@.len() - name@.len()) as nat, |i: int| NUL),
            decreases NAME_FIELD_SIZE - field.len(),
        {
            field.push(NUL);
            assert(field@ =~= name@ + Seq::new(
                (field@.len() - name@.len()) as nat,
                |i: int| NUL,
            ));
        }
        field
    };
    assert(bytes@ == name_field(name@));
    let size_field = u64_to_le_bytes(size);
    proof {
        vstd::bytes::lemma_auto_spec_u64_to_from_le_bytes();
    }
    push_bytes(&mut bytes, size_field.as_slice());
    push_bytes(&mut bytes, digest.as_slice());
    bytes
}

/// Reads the header at the start of `bytes`.
pub fn decode_header(bytes: &[u8]) -> (header: Option<DataHeader>)
    ensures
        match header {
            Some(h) => header_of(bytes@) == Some(h@),
            None => header_of(bytes@) is None,
        },
{
    if bytes.len() < HEADER_SIZE {
        return None;
    }
    let mut end: usize = NAME_FIELD_SIZE;
    while end > 0 && bytes[end - 1] == NUL
        invariant
            end <= NAME_FIELD_SIZE,
            bytes@.len() >= HEADER_SIZE,
            forall|j: int| end <= j < NAME_FIELD_SIZE ==> bytes@[j] == NUL,
        decreases end,
    {
        end -= 1;
    }
    proof {
        let field = bytes@.take(NAME_FIELD_SIZE as int);
        lemma_strip_nuls_is(field, end as int);
        assert(field.take(end as int) =~= bytes@.subrange(0, end as int));
    }
    let name = copy_range(bytes, 0, end);
    let size = u64_from_le_bytes(slice_subrange(bytes, NAME_FIELD_SIZE, 264));
    let digest = copy_range(bytes, 264, HEADER_SIZE);
    Some(DataHeader { name, size, digest })
}

/// The line `ACCEPT`, which the receiver writes to take a file.
pub fn accept_reply() -> (line: Vec<u8>)
    ensures
        line@ == accept_line(),
{
    let mut line: Vec<u8> = Vec::new();
    push_accept_word(&mut line);
    line.push(NEWLINE);
    assert(line@ =~= accept_line());
    line
}

/// The line `REJECT`, which the receiver writes to refuse a file.
pub fn reject_reply() -> (line: Vec<u8>)
    ensures
        line@ == reject_line(),
{
    let mut line: Vec<u8> = Vec::new();
    push_reject_word(&mut line);
    line.push(NEWLINE);
    assert(line@ =~= reject_line());
    line
}

/// Where the receiving side of a data connection stands.
#[derive(Clone, Copy, Debug, PartialEq, Eq, Structural)]
pub enum ReceiverPhase {
    /// Waiting until a name is promised to the peer.
    WaitingLedgerMatch,
    /// Reading the header.
    HeaderRead,
    /// The file was refused: its name is not promised to the peer.
    Rejected,
    /// The file was taken, and its bytes are being written.
    Receiving,
    /// The connection is closed, and the digest of what was written is
    /// being computed.
    Verifying,
    /// The file arrived as it was sent.
    Completed,
    /// The file did not arrive as it was sent.
    Corrupt,
    /// The connection was given up without a word to the peer.
    Dropped,
}

/// What the program around the receiving side is to do next.
#[derive(Clone, Copy, Debug, PartialEq, Eq, Structural)]
pub enum ReceiveAction {
    /// Nothing: this was not the moment for what was reported.
    Ignore,
    /// Wait for [`LEDGER_POLL_MS`], then look into the ledger again.
    Sleep,
    /// Read [`HEADER_SIZE`] bytes and report them.
    ReadHeader,
    /// Close the connection without writing anything.
    Drop,
    /// Write the line `REJECT` and close the connection.
    Reject,
    /// Write the line `ACCEPT`, create the file and report each chunk that
    /// is read and written.
    Accept,
    /// Go on reading.
    Continue,
    /// Compute the digest of the file as it was written, and report it.
    Verify,
    /// Nothing is left to do.
    Finished,
}

/// The receiving side of one data connection.
pub struct ReceiveSession {
    phase: ReceiverPhase,
    peer: PeerAddr,
    looks: u32,
    key: u32,
    name: Vec<u8>,
    size: u64,
    digest: Vec<u8>,
    received: u64,
}

/// What a [`ReceiveSession`] holds.
pub struct ReceiveSessionView {
    /// Where the session stands.
    pub phase: ReceiverPhase,
    /// The peer at the other end.
    pub peer: PeerAddrView,
    /// How often the ledger was looked into in vain.
    pub looks: u32,
    /// The identifier of the transfer's record.
    pub key: u32,
    /// The name of the file as the header declares it.
    pub name: Seq<u8>,
    /// The size of the file as the header declares it.
    pub size: u64,
    /// The digest of the file as the header declares it.
    pub digest: Seq<u8>,
    /// The number of bytes written so far.
    pub received: u64,
}

impl View for ReceiveSession {
    type V = ReceiveSessionView;

    closed spec fn view(&self) -> ReceiveSessionView {
        ReceiveSessionView {
            phase: self.phase,
            peer: self.peer@,
            looks: self.looks,
            key: self.key,
            name: self.name@,
            size: self.size,
            digest: self.digest@,
            received: self.received,
        }
    }
}

/// The session for a connection that has just come in from `peer`.
pub open spec fn fresh_session(peer: PeerAddrView) -> ReceiveSessionView {
    ReceiveSessionView {
        phase: ReceiverPhase::WaitingLedgerMatch,
        peer,
        looks: 0,
        key: 0,
        name: Seq::empty(),
        size: 0,
        digest: Seq::empty(),
        received: 0,
    }
}

/// The session and the action after a look into the ledger. `waiting` says
/// whether a name is promised to the peer, `next_id` is the identifier that
/// the transfer gets if the session goes on.
///
/// After [`MAX_ITERATIONS`] looks in vain the connection is dropped.
/// Before that, the session goes on to read the header if a name is
/// promised to the peer, and sleeps before the next look if none is.
pub open spec fn looked(session: ReceiveSessionView, waiting: bool, next_id: u32) -> (
    ReceiveSessionView,
    ReceiveAction,
) {
    if !(session.phase is WaitingLedgerMatch) {
        (session, ReceiveAction::Ignore)
    } else if session.looks >= MAX_ITERATIONS {
        (ReceiveSessionView { phase: ReceiverPhase::Dropped, ..session }, ReceiveAction::Drop)
    } else if waiting {
        (
            ReceiveSessionView { phase: ReceiverPhase::HeaderRead, key: next_id, ..session },
            ReceiveAction::ReadHeader,
        )
    } else {
        (
            ReceiveSessionView { looks: (session.looks + 1) as u32, ..session },
            ReceiveAction::Sleep,
        )
    }
}

/// The session and the action after the header was read.
///
/// A file whose name is promised to the peer is taken. Any other is
/// refused. Fewer bytes than a header has end the connection.
pub open spec fn admitted(session: ReceiveSessionView, promises: Promises, bytes: Seq<u8>) -> (
    ReceiveSessionView,
    ReceiveAction,
) {
    if !(session.phase is HeaderRead) {
        (session, ReceiveAction::Ignore)
    } else {
        match header_of(bytes) {
            None => (
                ReceiveSessionView { phase: ReceiverPhase::Dropped, ..session },
                ReceiveAction::Drop,
            ),
            Some(header) => if multiplicity(promises, session.peer.ip, header.name) > 0 {
                (
                    ReceiveSessionView {
                        phase: ReceiverPhase::Receiving,
                        name: header.name,
                        size: header.size,
                        digest: header.digest,
                        received: 0,
                        ..session
                    },
                    ReceiveAction::Accept,
                )
            } else {
                (
                    ReceiveSessionView { phase: ReceiverPhase::Rejected, ..session },
                    ReceiveAction::Reject,
                )
            },
        }
    }
}

/// The record with which the transfer of a session begins.
pub open spec fn receiving_record(session: ReceiveSessionView) -> TransferStateView {
    TransferStateView {
        ttype: TransferType::Receiving,
        original_filepath: Seq::empty(),
        dest_filepath: session.name,
        transferred: 0,
        size: session.size,
        peer: session.peer,
    }
}

/// The number of bytes moved after `n` more were.
pub open spec fn moved_after(moved: u64, n: usize) -> u64 {
    if moved + n > u64::MAX {
        u64::MAX
    } else {
        (moved + n) as u64
    }
}

/// The session and the action after a chunk of `n` bytes was written.
pub open spec fn chunk_received(session: ReceiveSessionView, n: usize) -> (
    ReceiveSessionView,
    ReceiveAction,
) {
    if session.phase is Receiving {
        (
            ReceiveSessionView { received: moved_after(session.received, n), ..session },
            ReceiveAction::Continue,
        )
    } else {
        (session, ReceiveAction::Ignore)
    }
}

/// The session and the action after the peer closed the connection.
pub open spec fn closed(session: ReceiveSessionView) -> (ReceiveSessionView, ReceiveAction) {
    if session.phase is Receiving {
        (ReceiveSessionView { phase: ReceiverPhase::Verifying, ..session }, ReceiveAction::Verify)
    } else {
        (session, ReceiveAction::Ignore)
    }
}

/// The session and the action after the digest of the written file was
/// computed: the transfer is complete if it is the digest that the header
/// declared, and corrupt if it is not.
pub open spec fn concluded(session: ReceiveSessionView, computed: Seq<u8>) -> (
    ReceiveSessionView,
    ReceiveAction,
) {
    if session.phase is Verifying {
        (
            ReceiveSessionView {
                phase: if computed == session.digest {
                    ReceiverPhase::Completed
                } else {
                    ReceiverPhase::Corrupt
                },
                ..session
            },
            ReceiveAction::Finished,
        )
    } else {
        (session, ReceiveAction::Ignore)
    }
}

/// The phase of the record with which a session ends.
pub open spec fn final_phase(phase: ReceiverPhase) -> TransferType {
    if phase is Completed {
        TransferType::CompletelyReceived
    } else {
        TransferType::Error
    }
}

/// The promises after a session was concluded: one promise of the file's
/// name to the peer is redeemed, whatever the digest was.
pub open spec fn promises_after_conclusion(
    session: ReceiveSessionView,
    promises: Promises,
) -> Promises {
    if session.phase is Verifying {
        after_redeem(promises, session.peer.ip, session.name)
    } else {
        promises
    }
}

/// The session after `n` looks into a ledger that promises the peer
/// nothing.
pub open spec fn after_idle_looks(session: ReceiveSessionView, n: nat) -> ReceiveSessionView
    decreases n,
{
    if n == 0 {
        session
    } else {
        looked(after_idle_looks(session, (n - 1) as nat), false, 0).0
    }
}

/// The wait for a promise is bounded, and no shorter than its bound: while
/// nothing is promised to the peer, each of the first [`MAX_ITERATIONS`]
/// looks into the ledger ends in a sleep, and the look after them drops the
/// connection, whatever the ledger holds by then.
pub proof fn lemma_bounded_wait(peer: PeerAddrView, n: nat, waiting: bool, next_id: u32)
    requires
        n <= MAX_ITERATIONS,
    ensures
        after_idle_looks(fresh_session(peer), n).phase is WaitingLedgerMatch,
        after_idle_looks(fresh_session(peer), n).looks == n,
        n < MAX_ITERATIONS ==> looked(after_idle_looks(fresh_session(peer), n), false, next_id).1
            == ReceiveAction::Sleep,
        n == MAX_ITERATIONS ==> looked(
            after_idle_looks(fresh_session(peer), n),
            waiting,
            next_id,
        ).1 == ReceiveAction::Drop,
    decreases n,
{
    if n > 0 {
        lemma_bounded_wait(peer, (n - 1) as nat, waiting, next_id);
    }
}

/// A file that arrives as it was sent is found complete: where the header
/// declares the digest of the bytes sent, and the bytes written are the
/// bytes sent, the session ends as completed and its record as completely
/// received.
pub proof fn lemma_unmodified_file_completes(
    session: ReceiveSessionView,
    sent: Seq<u8>,
    written: Seq<u8>,
)
    requires
        session.phase is Verifying,
        session.digest == sha256(sent),
        written == sent,
    ensures
        concluded(session, sha256(written)).0.phase is Completed,
        final_phase(concluded(session, sha256(written)).0.phase)
            == TransferType::CompletelyReceived,
{
}

/// A file whose digest is not the one that the header declares is found
/// corrupt, and its record ends in the phase of error.
pub proof fn lemma_corruption_detected(session: ReceiveSessionView, written: Seq<u8>)
    requires
        session.phase is Verifying,
        sha256(written) != session.digest,
    ensures
        concluded(session, sha256(written)).0.phase is Corrupt,
        final_phase(concluded(session, sha256(written)).0.phase) == TransferType::Error,
{
}

/// The ledger does not ask how a transfer ended: concluding a session
/// lowers the multiplicity of the file's name for the peer by exactly one if
/// it was above zero, and never below zero.
pub proof fn lemma_conclusion_redeems_once(session: ReceiveSessionView, promises: Promises)
    requires
        session.phase is Verifying,
    ensures
        multiplicity(promises, session.peer.ip, session.name) > 0 ==> multiplicity(
            promises_after_conclusion(session, promises),
            session.peer.ip,
            session.name,
        ) == multiplicity(promises, session.peer.ip, session.name) - 1,
        multiplicity(promises, session.peer.ip, session.name) == 0 ==> multiplicity(
            promises_after_conclusion(session, promises),
            session.peer.ip,
            session.name,
        ) == 0,
{
    crate::networking::ledger::lemma_redeem_counts(
        promises,
        session.peer.ip,
        session.name,
        session.peer.ip,
        session.name,
    );
}

impl ReceiveSession {
    /// The session for a connection that has just come in from `peer`.
    pub fn new(peer: PeerAddr) -> (session: Self)
        ensures
            session@ == fresh_session(peer@),
    {
        ReceiveSession {
            phase: ReceiverPhase::WaitingLedgerMatch,
            peer,
            looks: 0,
            key: 0,
            name: Vec::new(),
            size: 0,
            digest: Vec::new(),
            received: 0,
        }
    }

    /// Where the session stands.
    pub fn phase(&self) -> (phase: ReceiverPhase)
        ensures
            phase == self@.phase,
    {
        self.phase
    }

    /// The identifier of the transfer's record.
    pub fn key(&self) -> (key: u32)
        ensures
            key == self@.key,
    {
        self.key
    }

    /// The name of the file as the header declares it: the path under which
    /// the file is written.
    pub fn name(&self) -> (name: Vec<u8>)
        ensures
            name@ == self@.name,
    {
        self.name.clone()
    }

    /// The number of bytes written so far.
    pub fn received(&self) -> (received: u64)
        ensures
            received == self@.received,
    {
        self.received
    }

    /// Looks into the ledger for a promise to the peer. A session that goes
    /// on takes a fresh identifier for its transfer: the generator must not
    /// be used up.
    pub fn look(&mut self, ledger: &Ledger, counter: &mut IdGenerator) -> (action: ReceiveAction)
        requires
            ledger.wf(),
            old(counter)@ < u32::MAX,
        ensures
            (final(self)@, action) == looked(
                old(self)@,
                outstanding(ledger@, old(self)@.peer.ip) > 0,
                old(counter)@,
            ),
            final(counter)@ == if action is ReadHeader {
                (old(counter)@ + 1) as u32
            } else {
                old(counter)@
            },
    {
        match self.phase {
            ReceiverPhase::WaitingLedgerMatch => {
                if self.looks >= MAX_ITERATIONS {
                    self.phase = ReceiverPhase::Dropped;
                    ReceiveAction::Drop
                } else if ledger.is_waiting(self.peer.ip.as_slice()) {
                    self.key = get_inc(counter);
                    self.phase = ReceiverPhase::HeaderRead;
                    ReceiveAction::ReadHeader
                } else {
                    self.looks = self.looks + 1;
                    ReceiveAction::Sleep
                }
            },
            _ => ReceiveAction::Ignore,
        }
    }

    /// Takes the header in and decides whether the file is taken. A file
    /// that is taken gets its record, in the phase of receiving and with
    /// nothing received yet.
    pub fn on_header(
        &mut self,
        ledger: &Ledger,
        status: &mut TransferRegistry,
        bytes: &[u8],
    ) -> (action: ReceiveAction)
        requires
            ledger.wf(),
            old(status).wf(),
        ensures
            final(status).wf(),
            (final(self)@, action) == admitted(old(self)@, ledger@, bytes@),
            final(status)@ == if action is Accept {
                old(status)@.insert(final(self)@.key, receiving_record(final(self)@))
            } else {
                old(status)@
            },
    {
        match self.phase {
            ReceiverPhase::HeaderRead => {
                match decode_header(bytes) {
                    None => {
                        self.phase = ReceiverPhase::Dropped;
                        ReceiveAction::Drop
                    },
                    Some(header) => {
                        if ledger.accepts(self.peer.ip.as_slice(), &header.name) {
                            let record = TransferState {
                                ttype: TransferType::Receiving,
                                original_filepath: Vec::new(),
                                dest_filepath: header.name.clone(),
                                transferred: 0,
                                size: header.size,
                                peer: self.peer.clone(),
                            };
                            status.insert(self.key, record);
                            self.name = header.name;
                            self.size = header.size;
                            self.digest = header.digest;
                            self.received = 0;
                            self.phase = ReceiverPhase::Receiving;
                            ReceiveAction::Accept
                        } else {
                            self.phase = ReceiverPhase::Rejected;
                            ReceiveAction::Reject
                        }
                    },
                }
            },
            _ => ReceiveAction::Ignore,
        }
    }

    /// Notes that a chunk of `n` bytes was read and written.
    pub fn on_chunk(&mut self, status: &mut TransferRegistry, n: usize) -> (action: ReceiveAction)
        requires
            old(status).wf(),
        ensures
            final(status).wf(),
            (final(self)@, action) == chunk_received(old(self)@, n),
            final(status)@ == if action is Continue {
                progress_noted(
                    old(status)@,
                    final(self)@.key,
                    final(self)@.received,
                    final(self)@.size,
                )
            } else {
                old(status)@
            },
    {
        match self.phase {
            ReceiverPhase::Receiving => {
                self.received = add_moved(self.received, n);
                status.record_progress(self.key, self.received, self.size);
                ReceiveAction::Continue
            },
            _ => ReceiveAction::Ignore,
        }
    }

    /// Notes that the peer closed the connection: all that it sent is
    /// written.
    pub fn on_closed(&mut self, status: &mut TransferRegistry) -> (action: ReceiveAction)
        requires
            old(status).wf(),
        ensures
            final(status).wf(),
            (final(self)@, action) == closed(old(self)@),
            final(status)@ == if action is Verify {
                phase_moved(old(status)@, final(self)@.key, TransferType::VerifyingHash)
            } else {
                old(status)@
            },
    {
        match self.phase {
            ReceiverPhase::Receiving => {
                status.advance(self.key, TransferType::VerifyingHash);
                self.phase = ReceiverPhase::Verifying;
                ReceiveAction::Verify
            },
            _ => ReceiveAction::Ignore,
        }
    }

    /// Takes the digest of the written file in and concludes the transfer:
    /// its record ends as completely received or in error, and one promise
    /// of the file's name to the peer is redeemed either way.
    pub fn on_digest(
        &mut self,
        ledger: &mut Ledger,
        status: &mut TransferRegistry,
        computed: &[u8],
    ) -> (action: ReceiveAction)
        requires
            old(ledger).wf(),
            old(status).wf(),
        ensures
            final(ledger).wf(),
            final(status).wf(),
            (final(self)@, action) == concluded(old(self)@, computed@),
            final(ledger)@ == promises_after_conclusion(old(self)@, old(ledger)@),
            final(status)@ == if action is Finished {
                phase_moved(old(status)@, final(self)@.key, final_phase(final(self)@.phase))
            } else {
                old(status)@
            },
    {
        match self.phase {
            ReceiverPhase::Verifying => {
                if bytes_eq(computed, self.digest.as_slice()) {
                    self.phase = ReceiverPhase::Completed;
                    status.advance(self.key, TransferType::CompletelyReceived);
                } else {
                    self.phase = ReceiverPhase::Corrupt;
                    status.advance(self.key, TransferType::Error);
                }
                ledger.redeem(self.peer.ip.as_slice(), &self.name);
                ReceiveAction::Finished
            },
            _ => ReceiveAction::Ignore,
        }
    }
}

/// The number of bytes moved after `n` more were.
fn add_moved(moved: u64, n: usize) -> (total: u64)
    ensures
        total == moved_after(moved, n),
{
    let more: u64 = n as u64;
    if more > u64::MAX - moved {
        u64::MAX
    } else {
        moved + more
    }
}

/// Where the sending side of a data connection stands.
#[derive(Clone, Copy, Debug, PartialEq, Eq, Structural)]
pub enum SenderPhase {
    /// Trying to connect to the receiver.
    Connecting,
    /// Connected; the header is being written.
    HeaderSent,
    /// The header is written; the receiver's line is awaited.
    AwaitingDecision,
    /// The receiver took the file; its bytes are being written.
    Streaming,
    /// All bytes are written.
    Done,
    /// The receiver did not take the file.
    Aborted,
}

/// What the program around the sending side is to do next.
#[derive(Clone, Copy, Debug, PartialEq, Eq, Structural)]
pub enum SendAction {
    /// Nothing: this was not the moment for what was reported.
    Ignore,
    /// Wait for [`CONNECT_RETRY_MS`], then try to connect again.
    Retry,
    /// Write the header.
    WriteHeader,
    /// Read one line.
    ReadDecision,
    /// Read the next chunk of the file and write it.
    Stream,
    /// Close the connection: the file is sent.
    Finish,
    /// Close the connection: the file is not wanted.
    Abort,
}

/// The sending side of one data connection.
#[derive(Clone, Copy, Debug, PartialEq, Eq, Structural)]
pub struct SendSession {
    /// Where the session stands.
    pub phase: SenderPhase,
    /// The identifier of the transfer's record.
    pub key: u32,
    /// The number of bytes written so far.
    pub sent: u64,
    /// The size of the file.
    pub size: u64,
}

/// What can happen to the sending side.
#[derive(Clone, Copy, Debug, PartialEq, Eq, Structural)]
pub enum SendEvent {
    /// An attempt to connect failed.
    ConnectFailed,
    /// The connection stands; the file has this size.
    Connected { size: u64 },
    /// The header is written.
    HeaderWritten,
    /// The receiver's line was read; it begins with `ACCEPT` or does not.
    Decision { accepted: bool },
    /// A chunk of this many bytes was written.
    ChunkSent { len: usize },
    /// The file has no more bytes.
    EndOfFile,
}

/// The session and the action after an event.
///
/// The sender connects, however often it takes; writes the header; awaits
/// the receiver's line; writes the file if the line accepts it, and gives
/// up if it does not.
pub open spec fn sent_step(session: SendSession, event: SendEvent) -> (SendSession, SendAction) {
    match (session.phase, event) {
        (SenderPhase::Connecting, SendEvent::ConnectFailed) => (session, SendAction::Retry),
        (SenderPhase::Connecting, SendEvent::Connected { size }) => (
            SendSession { phase: SenderPhase::HeaderSent, size, ..session },
            SendAction::WriteHeader,
        ),
        (SenderPhase::HeaderSent, SendEvent::HeaderWritten) => (
            SendSession { phase: SenderPhase::AwaitingDecision, ..session },
            SendAction::ReadDecision,
        ),
        (SenderPhase::AwaitingDecision, SendEvent::Decision { accepted }) => if accepted {
            (SendSession { phase: SenderPhase::Streaming, ..session }, SendAction::Stream)
        } else {
            (SendSession { phase: SenderPhase::Aborted, ..session }, SendAction::Abort)
        },
        (SenderPhase::Streaming, SendEvent::ChunkSent { len }) => (
            SendSession { sent: moved_after(session.sent, len), ..session },
            SendAction::Stream,
        ),
        (SenderPhase::Streaming, SendEvent::EndOfFile) => (
            SendSession { phase: SenderPhase::Done, ..session },
            SendAction::Finish,
        ),
        _ => (session, SendAction::Ignore),
    }
}

/// The records after an event on the sending side: a chunk that was written
/// shows in the record of the transfer.
pub open spec fn records_after_send(records: Records, session: SendSession, event: SendEvent) -> Records {
    match (session.phase, event) {
        (SenderPhase::Streaming, SendEvent::ChunkSent { len }) => progress_noted(
            records,
            session.key,
            moved_after(session.sent, len),
            session.size,
        ),
        _ => records,
    }
}

/// How far a sending session has come.
pub open spec fn sender_rank(phase: SenderPhase) -> nat {
    match phase {
        SenderPhase::Connecting => 0,
        SenderPhase::HeaderSent => 1,
        SenderPhase::AwaitingDecision => 2,
        SenderPhase::Streaming => 3,
        SenderPhase::Done => 4,
        SenderPhase::Aborted => 4,
    }
}

/// How far a receiving session has come.
pub open spec fn receiver_rank(phase: ReceiverPhase) -> nat {
    match phase {
        ReceiverPhase::WaitingLedgerMatch => 0,
        ReceiverPhase::HeaderRead => 1,
        ReceiverPhase::Receiving => 2,
        ReceiverPhase::Verifying => 3,
        ReceiverPhase::Rejected => 4,
        ReceiverPhase::Completed => 4,
        ReceiverPhase::Corrupt => 4,
        ReceiverPhase::Dropped => 4,
    }
}

/// The session after `n` attempts to connect have failed.
pub open spec fn after_failed_connects(session: SendSession, n: nat) -> SendSession
    decreases n,
{
    if n == 0 {
        session
    } else {
        sent_step(after_failed_connects(session, (n - 1) as nat), SendEvent::ConnectFailed).0
    }
}

/// The sender never gives up connecting: however many attempts have failed,
/// it is still connecting, and the next failure makes it try again.
pub proof fn lemma_connecting_is_unbounded(key: u32, n: nat)
    ensures
        after_failed_connects(
            SendSession { phase: SenderPhase::Connecting, key, sent: 0, size: 0 },
            n,
        ) == (SendSession { phase: SenderPhase::Connecting, key, sent: 0, size: 0 }),
        sent_step(
            after_failed_connects(
                SendSession { phase: SenderPhase::Connecting, key, sent: 0, size: 0 },
                n,
            ),
            SendEvent::ConnectFailed,
        ).1 == SendAction::Retry,
    decreases n,
{
    if n > 0 {
        lemma_connecting_is_unbounded(key, (n - 1) as nat);
    }
}

/// The sending side only moves forward, and the number of bytes sent never
/// falls.
pub proof fn lemma_sender_moves_forward(session: SendSession, event: SendEvent)
    ensures
        sender_rank(sent_step(session, event).0.phase) >= sender_rank(session.phase),
        sent_step(session, event).0.sent >= session.sent,
        sent_step(session, event).0.key == session.key,
{
}

/// The receiving side only moves forward, and the number of bytes received
/// never falls while the file is being written.
pub proof fn lemma_receiver_moves_forward(
    session: ReceiveSessionView,
    waiting: bool,
    next_id: u32,
    promises: Promises,
    bytes: Seq<u8>,
    n: usize,
    computed: Seq<u8>,
)
    ensures
        receiver_rank(looked(session, waiting, next_id).0.phase) >= receiver_rank(session.phase),
        receiver_rank(admitted(session, promises, bytes).0.phase) >= receiver_rank(session.phase),
        receiver_rank(chunk_received(session, n).0.phase) >= receiver_rank(session.phase),
        chunk_received(session, n).0.received >= session.received,
        receiver_rank(closed(session).0.phase) >= receiver_rank(session.phase),
        receiver_rank(concluded(session, computed).0.phase) >= receiver_rank(session.phase),
{
}

impl SendSession {
    /// The session for the transfer whose record stands under `key`.
    pub fn new(key: u32) -> (session: Self)
        ensures
            session == (SendSession { phase: SenderPhase::Connecting, key, sent: 0, size: 0 }),
    {
        SendSession { phase: SenderPhase::Connecting, key, sent: 0, size: 0 }
    }

    /// Takes an event in and says what to do next.
    pub fn step(&mut self, status: &mut TransferRegistry, event: SendEvent) -> (action: SendAction)
        requires
            old(status).wf(),
        ensures
            final(status).wf(),
            (*final(self), action) == sent_step(*old(self), event),
            final(status)@ == records_after_send(old(status)@, *old(self), event),
    {
        match (self.phase, event) {
            (SenderPhase::Connecting, SendEvent::ConnectFailed) => SendAction::Retry,
            (SenderPhase::Connecting, SendEvent::Connected { size }) => {
                self.phase = SenderPhase::HeaderSent;
                self.size = size;
                SendAction::WriteHeader
            },
            (SenderPhase::HeaderSent, SendEvent::HeaderWritten) => {
                self.phase = SenderPhase::AwaitingDecision;
                SendAction::ReadDecision
            },
            (SenderPhase::AwaitingDecision, SendEvent::Decision { accepted }) => {
                if accepted {
                    self.phase = SenderPhase::Streaming;
                    SendAction::Stream
                } else {
                    self.phase = SenderPhase::Aborted;
                    SendAction::Abort
                }
            },
            (SenderPhase::Streaming, SendEvent::ChunkSent { len }) => {
                self.sent = add_moved(self.sent, len);
                status.record_progress(self.key, self.sent, self.size);
                SendAction::Stream
            },
            (SenderPhase::Streaming, SendEvent::EndOfFile) => {
                self.phase = SenderPhase::Done;
                SendAction::Finish
            },
            _ => SendAction::Ignore,
        }
    }
}

/// Reads the receiver's line: the file is taken if the line begins with
/// `ACCEPT`.
pub fn read_decision(line: &[u8]) -> (event: SendEvent)
    ensures
        event == (SendEvent::Decision { accepted: accept_word().is_prefix_of(line@) }),
{
    SendEvent::Decision { accepted: begins_with_accept(line) }
}

} // verus!
