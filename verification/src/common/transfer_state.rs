//! The records of the transfers in progress and finished, as the
//! presentation layer reads them.

use crate::common::registry::lemma_tracks_push;
use crate::common::registry::tracks;
use crate::networking::peers::unspecified_ip;
use crate::networking::peers::PeerAddr;
use crate::networking::peers::PeerAddrView;
use std::collections::HashMap;
use vstd::prelude::*;

verus! {

/// The phase that a transfer is in.
///
/// A file that is sent goes from `ComputingHash` over `Sending` to
/// `CompletelySent`; a file that is received goes from `Receiving` over
/// `VerifyingHash` to `CompletelyReceived`. Either may end in `Error`
/// instead.
#[derive(Clone, Copy, Debug, PartialEq, Eq, Structural)]
pub enum TransferType {
    Sending,
    Receiving,
    ComputingHash,
    VerifyingHash,
    CompletelySent,
    CompletelyReceived,
    Error,
}

/// Whether a transfer in phase `t` has ended.
pub open spec fn is_final(t: TransferType) -> bool {
    t is CompletelySent || t is CompletelyReceived || t is Error
}

/// Whether phase `t` belongs to a file that is sent.
pub open spec fn is_outbound(t: TransferType) -> bool {
    t is ComputingHash || t is Sending || t is CompletelySent
}

/// Whether phase `t` belongs to a file that is received.
pub open spec fn is_inbound(t: TransferType) -> bool {
    t is Receiving || t is VerifyingHash || t is CompletelyReceived
}

/// How far along its way a transfer in phase `t` is.
pub open spec fn stage(t: TransferType) -> nat {
    match t {
        TransferType::ComputingHash => 0,
        TransferType::Receiving => 0,
        TransferType::Sending => 1,
        TransferType::VerifyingHash => 1,
        TransferType::CompletelySent => 2,
        TransferType::CompletelyReceived => 2,
        TransferType::Error => 3,
    }
}

/// Whether a transfer in phase `from` may go on to phase `to`: phases only
/// move forward, a transfer keeps its direction, and only one that has not
/// ended can fail.
pub open spec fn may_follow(from: TransferType, to: TransferType) -> bool {
    &&& stage(from) < stage(to)
    &&& !is_final(from)
    &&& (to is Error || is_outbound(from) == is_outbound(to))
}

/// The share of `size` that `transferred` is, in whole percent. Nothing is
/// a share of a size of zero. A share too large for 64 bits counts as the
/// largest number.
pub open spec fn percent_of(transferred: u64, size: u64) -> u64 {
    if size == 0 {
        0
    } else if transferred * 100 / (size as int) > u64::MAX {
        u64::MAX
    } else {
        (transferred * 100 / (size as int)) as u64
    }
}

/// Moving more bytes never lowers the percentage.
pub proof fn lemma_percent_monotone(less: u64, more: u64, size: u64)
    requires
        less <= more,
    ensures
        percent_of(less, size) <= percent_of(more, size),
{
    if size > 0 {
        assert(less * 100 / (size as int) <= more * 100 / (size as int)) by (nonlinear_arith)
            requires
                less <= more,
                size > 0,
        ;
    }
}

/// A transfer whose bytes have all been moved stands at 100 percent.
pub proof fn lemma_percent_complete(size: u64)
    requires
        size > 0,
    ensures
        percent_of(size, size) == 100,
{
    assert(size * 100 / (size as int) == 100) by (nonlinear_arith)
        requires
            size > 0,
    ;
}

/// Whether `from` may go on to `to`.
pub fn can_follow(from: TransferType, to: TransferType) -> (allowed: bool)
    ensures
        allowed == may_follow(from, to),
{
    match from {
        TransferType::ComputingHash => match to {
            TransferType::Sending => true,
            TransferType::CompletelySent => true,
            TransferType::Error => true,
            _ => false,
        },
        TransferType::Sending => match to {
            TransferType::CompletelySent => true,
            TransferType::Error => true,
            _ => false,
        },
        TransferType::Receiving => match to {
            TransferType::VerifyingHash => true,
            TransferType::CompletelyReceived => true,
            TransferType::Error => true,
            _ => false,
        },
        TransferType::VerifyingHash => match to {
            TransferType::CompletelyReceived => true,
            TransferType::Error => true,
            _ => false,
        },
        _ => false,
    }
}

/// One file transfer, in progress or finished.
#[derive(Debug, PartialEq, Eq)]
pub struct TransferState {
    /// The phase that the transfer is in.
    pub ttype: TransferType,
    /// The local path of a file that is sent.
    pub original_filepath: Vec<u8>,
    /// The path under which a received file is written.
    pub dest_filepath: Vec<u8>,
    /// The number of bytes moved so far.
    pub transferred: u64,
    /// The size of the file as the sender declared it.
    pub size: u64,
    /// The peer at the other end.
    pub peer: PeerAddr,
}

/// What a [`TransferState`] holds.
pub struct TransferStateView {
    pub ttype: TransferType,
    pub original_filepath: Seq<u8>,
    pub dest_filepath: Seq<u8>,
    pub transferred: u64,
    pub size: u64,
    pub peer: PeerAddrView,
}

impl TransferStateView {
    /// How much of the file has been moved, in whole percent.
    pub open spec fn percentage(self) -> u64 {
        percent_of(self.transferred, self.size)
    }

    /// This record after `transferred` of `size` bytes have been moved.
    pub open spec fn with_progress(self, transferred: u64, size: u64) -> TransferStateView {
        TransferStateView { transferred, size, ..self }
    }

    /// This record in phase `ttype`.
    pub open spec fn with_phase(self, ttype: TransferType) -> TransferStateView {
        TransferStateView { ttype, ..self }
    }
}

impl View for TransferState {
    type V = TransferStateView;

    open spec fn view(&self) -> TransferStateView {
        TransferStateView {
            ttype: self.ttype,
            original_filepath: self.original_filepath@,
            dest_filepath: self.dest_filepath@,
            transferred: self.transferred,
            size: self.size,
            peer: self.peer@,
        }
    }
}

impl Clone for TransferState {
    fn clone(&self) -> (copy: Self)
        ensures
            copy@ == self@,
    {
        TransferState {
            ttype: self.ttype,
            original_filepath: self.original_filepath.clone(),
            dest_filepath: self.dest_filepath.clone(),
            transferred: self.transferred,
            size: self.size,
            peer: self.peer.clone(),
        }
    }
}

impl Default for TransferState {
    /// A transfer to nobody of no file, about to be sent.
    fn default() -> (state: Self)
        ensures
            state@ == (TransferStateView {
                ttype: TransferType::Sending,
                original_filepath: Seq::empty(),
                dest_filepath: Seq::empty(),
                transferred: 0,
                size: 0,
                peer: PeerAddrView { ip: unspecified_ip(), port: 0 },
            }),
    {
        TransferState {
            ttype: TransferType::Sending,
            original_filepath: Vec::new(),
            dest_filepath: Vec::new(),
            transferred: 0,
            size: 0,
            peer: PeerAddr::unspecified(),
        }
    }
}

impl TransferState {
    /// How much of the file has been moved, in whole percent.
    pub fn percentage(&self) -> (percent: u64)
        ensures
            percent == self@.percentage(),
    {
        if self.size == 0 {
            0
        } else {
            let share: u128 = (self.transferred as u128) * 100 / (self.size as u128);
            if share > u64::MAX as u128 {
                u64::MAX
            } else {
                share as u64
            }
        }
    }
}

/// What a registry holds: the record of every transfer, by its identifier.
pub type Records = Map<u32, TransferStateView>;

/// The records after it was noted that `transferred` of the `size` bytes of
/// the transfer under `key` have been moved. Without a record under `key`
/// nothing changes.
pub open spec fn progress_noted(records: Records, key: u32, transferred: u64, size: u64) -> Records {
    if records.contains_key(key) {
        records.insert(key, records[key].with_progress(transferred, size))
    } else {
        records
    }
}

/// The records after the transfer under `key` was moved on to phase `to`.
/// Without a record under `key`, or where its phase may not go on to `to`,
/// nothing changes.
pub open spec fn phase_moved(records: Records, key: u32, to: TransferType) -> Records {
    if records.contains_key(key) && may_follow(records[key].ttype, to) {
        records.insert(key, records[key].with_phase(to))
    } else {
        records
    }
}

/// A phase never goes back: after a move, the record's phase is the one it
/// had or one that may follow it.
pub proof fn lemma_phase_only_forward(records: Records, key: u32, to: TransferType)
    requires
        records.contains_key(key),
    ensures
        phase_moved(records, key, to).contains_key(key),
        phase_moved(records, key, to)[key].ttype == records[key].ttype || may_follow(
            records[key].ttype,
            phase_moved(records, key, to)[key].ttype,
        ),
        stage(phase_moved(records, key, to)[key].ttype) >= stage(records[key].ttype),
{
}

/// While more and more bytes are noted as moved, the percentage of the
/// record never falls.
pub proof fn lemma_progress_monotone(records: Records, key: u32, more: u64)
    requires
        records.contains_key(key),
        records[key].transferred <= more,
    ensures
        progress_noted(records, key, more, records[key].size)[key].percentage()
            >= records[key].percentage(),
{
    lemma_percent_monotone(records[key].transferred, more, records[key].size);
}

/// The transfer status registry: the record of every transfer, by its
/// identifier. Records are never taken out.
pub struct TransferRegistry {
    records: HashMap<u32, TransferState>,
    order: Vec<u32>,
}

impl View for TransferRegistry {
    type V = Records;

    closed spec fn view(&self) -> Records {
        Map::new(|key: u32| self.records@.contains_key(key), |key: u32| self.records@[key]@)
    }
}

impl TransferRegistry {
    /// The identifiers of the records, in the order in which they came in.
    pub closed spec fn keys(&self) -> Seq<u32> {
        self.order@
    }

    /// What holds of every registry: the identifiers are those of the
    /// records, each once.
    pub open spec fn wf(&self) -> bool {
        tracks(self.keys(), self@.dom())
    }

    /// The registry without records.
    pub fn new() -> (registry: Self)
        ensures
            registry.wf(),
            registry@ == Map::<u32, TransferStateView>::empty(),
            registry.keys() == Seq::<u32>::empty(),
    {
        let registry = TransferRegistry { records: HashMap::new(), order: Vec::new() };
        assert(registry@ =~= Map::<u32, TransferStateView>::empty());
        assert(registry@.dom() =~= Set::<u32>::empty());
        registry
    }

    /// Whether a record stands under `key`.
    pub fn contains(&self, key: u32) -> (found: bool)
        ensures
            found == self@.contains_key(key),
    {
        self.records.contains_key(&key)
    }

    /// The record under `key`.
    pub fn get(&self, key: u32) -> (state: Option<TransferState>)
        ensures
            match state {
                Some(s) => self@.contains_key(key) && s@ == self@[key],
                None => !self@.contains_key(key),
            },
    {
        match self.records.get(&key) {
            Some(s) => Some(s.clone()),
            None => None,
        }
    }

    /// The identifiers of the records, in the order in which they came in.
    pub fn keys_in_order(&self) -> (keys: Vec<u32>)
        ensures
            keys@ == self.keys(),
    {
        self.order.clone()
    }

    /// Puts `state` under `key`, in place of what stood there.
    pub fn insert(&mut self, key: u32, state: TransferState)
        requires
            old(self).wf(),
        ensures
            final(self).wf(),
            final(self)@ == old(self)@.insert(key, state@),
            final(self).keys() == if old(self)@.contains_key(key) {
                old(self).keys()
            } else {
                old(self).keys().push(key)
            },
    {
        let ghost before = self@;
        let ghost keys_before = self.keys();
        let ghost added = state@;
        let known = self.records.contains_key(&key);
        self.records.insert(key, state);
        if !known {
            self.order.push(key);
        }
        proof {
            assert(self@ =~= before.insert(key, added));
            if !known {
                lemma_tracks_push(keys_before, before.dom(), key);
                assert(self@.dom() =~= before.dom().insert(key));
            } else {
                assert(self@.dom() =~= before.dom());
            }
        }
    }

    /// Notes that `transferred` of the `size` bytes of the transfer under
    /// `key` have been moved. Without a record under `key` nothing changes.
    pub fn record_progress(&mut self, key: u32, transferred: u64, size: u64)
        requires
            old(self).wf(),
        ensures
            final(self).wf(),
            final(self).keys() == old(self).keys(),
            final(self)@ == progress_noted(old(self)@, key, transferred, size),
    {
        let ghost before = self@;
        match self.records.remove(&key) {
            Some(mut state) => {
                state.transferred = transferred;
                state.size = size;
                self.records.insert(key, state);
                assert(self@ =~= before.insert(key, before[key].with_progress(transferred, size)));
                assert(self@.dom() =~= before.dom());
            },
            None => {
                assert(self@ =~= before);
            },
        }
    }

    /// Moves the transfer under `key` on to phase `to`, if it may go there.
    pub fn advance(&mut self, key: u32, to: TransferType) -> (moved: bool)
        requires
            old(self).wf(),
        ensures
            final(self).wf(),
            final(self).keys() == old(self).keys(),
            moved == (old(self)@.contains_key(key) && may_follow(old(self)@[key].ttype, to)),
            final(self)@ == phase_moved(old(self)@, key, to),
    {
        let ghost before = self@;
        match self.records.remove(&key) {
            Some(mut state) => {
                let moved = can_follow(state.ttype, to);
                if moved {
                    state.ttype = to;
                }
                self.records.insert(key, state);
                proof {
                    if moved {
                        assert(self@ =~= before.insert(key, before[key].with_phase(to)));
                    } else {
                        assert(self@ =~= before);
                    }
                    assert(self@.dom() =~= before.dom());
                }
                moved
            },
            None => {
                assert(self@ =~= before);
                false
            },
        }
    }
}

} // verus!
