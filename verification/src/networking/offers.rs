//! The offer registry: the requests that came in over the control channel,
//! and what was decided about each.

use crate::common::registry::lemma_tracks_push;
use crate::common::registry::tracks;
use crate::common::text::views;
use crate::networking::control::files_view;
use crate::networking::peers::unspecified_ip;
use crate::networking::peers::PeerAddrView;
use crate::networking::peers::PingResponse;
use crate::networking::peers::PingResponseView;
use std::collections::HashMap;
use vstd::prelude::*;

verus! {

/// A copy of a list of names.
pub fn copy_names(names: &Vec<Vec<u8>>) -> (copy: Vec<Vec<u8>>)
    ensures
        views(copy@) == views(names@),
{
    let mut copy: Vec<Vec<u8>> = Vec::new();
    let mut i: usize = 0;
    while i < names.len()
        invariant
            i <= names.len(),
            copy@.len() == i,
            forall|j: int| 0 <= j < i ==> (#[trigger] copy@[j])@ == names@[j]@,
        decreases names.len() - i,
    {
        copy.push(names[i].clone());
        i += 1;
    }
    assert(views(copy@) =~= views(names@));
    copy
}

/// A copy of a list of files.
pub fn copy_files(files: &Vec<(Vec<u8>, u64)>) -> (copy: Vec<(Vec<u8>, u64)>)
    ensures
        files_view(copy@) == files_view(files@),
{
    let mut copy: Vec<(Vec<u8>, u64)> = Vec::new();
    let mut i: usize = 0;
    while i < files.len()
        invariant
            i <= files.len(),
            copy@.len() == i,
            forall|j: int|
                0 <= j < i ==> (#[trigger] copy@[j]).0@ == files@[j].0@ && copy@[j].1
                    == files@[j].1,
        decreases files.len() - i,
    {
        copy.push((files[i].0.clone(), files[i].1));
        i += 1;
    }
    assert(files_view(copy@) =~= files_view(files@));
    copy
}

/// An offer: a peer's request to send files, and the decision about it once
/// there is one.
#[derive(Debug, PartialEq, Eq)]
pub struct RequestData {
    /// The peer that asks.
    pub from: PingResponse,
    /// The files on offer, each with its base name and its size in bytes.
    pub files: Vec<(Vec<u8>, u64)>,
    /// The names that were accepted, once that is decided. No name means
    /// that the offer is rejected.
    pub accepted_files: Option<Vec<Vec<u8>>>,
}

/// What a [`RequestData`] holds.
pub struct RequestDataView {
    pub from: PingResponseView,
    pub files: Seq<(Seq<u8>, u64)>,
    pub accepted_files: Option<Seq<Seq<u8>>>,
}

impl RequestDataView {
    /// This offer with `accepted` decided.
    pub open spec fn with_decision(self, accepted: Seq<Seq<u8>>) -> RequestDataView {
        RequestDataView { accepted_files: Some(accepted), ..self }
    }
}

impl View for RequestData {
    type V = RequestDataView;

    open spec fn view(&self) -> RequestDataView {
        RequestDataView {
            from: self.from@,
            files: files_view(self.files@),
            accepted_files: match self.accepted_files {
                Some(names) => Some(views(names@)),
                None => None,
            },
        }
    }
}

impl Clone for RequestData {
    fn clone(&self) -> (copy: Self)
        ensures
            copy@ == self@,
    {
        RequestData {
            from: self.from.clone(),
            files: copy_files(&self.files),
            accepted_files: match &self.accepted_files {
                Some(names) => Some(copy_names(names)),
                None => None,
            },
        }
    }
}

impl Default for RequestData {
    /// An offer of nothing from nobody, not decided.
    fn default() -> (offer: Self)
        ensures
            offer@ == (RequestDataView {
                from: PingResponseView {
                    addr: PeerAddrView { ip: unspecified_ip(), port: 0 },
                    os: Seq::empty(),
                    hostname: Seq::empty(),
                },
                files: Seq::empty(),
                accepted_files: None,
            }),
    {
        let offer = RequestData {
            from: PingResponse::default(),
            files: Vec::new(),
            accepted_files: None,
        };
        assert(files_view(offer.files@) =~= Seq::empty());
        offer
    }
}

impl RequestData {
    /// The offer of `files` from `from`, still to be decided.
    pub fn new(from: PingResponse, files: Vec<(Vec<u8>, u64)>) -> (offer: Self)
        ensures
            offer@ == (RequestDataView {
                from: from@,
                files: files_view(files@),
                accepted_files: None,
            }),
    {
        RequestData { from, files, accepted_files: None }
    }
}

/// What a registry holds: every offer, by its identifier.
pub type Offers = Map<u32, RequestDataView>;

/// The offers after the offer under `id` was decided with `accepted`. An
/// offer that is decided already keeps its decision, and without an offer
/// under `id` nothing changes.
pub open spec fn after_decision(offers: Offers, id: u32, accepted: Seq<Seq<u8>>) -> Offers {
    if offers.contains_key(id) && offers[id].accepted_files is None {
        offers.insert(id, offers[id].with_decision(accepted))
    } else {
        offers
    }
}

/// A decision is made once: whatever is decided later about any offer, an
/// offer that is decided keeps its decision, its files and its sender.
pub proof fn lemma_decision_stands(offers: Offers, id: u32, later: u32, accepted: Seq<Seq<u8>>)
    requires
        offers.contains_key(id),
        offers[id].accepted_files is Some,
    ensures
        after_decision(offers, later, accepted).contains_key(id),
        after_decision(offers, later, accepted)[id] == offers[id],
{
}

/// Deciding an offer twice is deciding it once, with the first decision.
pub proof fn lemma_second_decision_is_lost(
    offers: Offers,
    id: u32,
    first: Seq<Seq<u8>>,
    second: Seq<Seq<u8>>,
)
    ensures
        after_decision(after_decision(offers, id, first), id, second) == after_decision(
            offers,
            id,
            first,
        ),
{
}

/// The offer registry: every offer that came in, by its identifier. Offers
/// are never taken out.
pub struct OfferRegistry {
    offers: HashMap<u32, RequestData>,
    order: Vec<u32>,
}

impl View for OfferRegistry {
    type V = Offers;

    closed spec fn view(&self) -> Offers {
        Map::new(|id: u32| self.offers@.contains_key(id), |id: u32| self.offers@[id]@)
    }
}

impl OfferRegistry {
    /// The identifiers of the offers, in the order in which they came in.
    pub closed spec fn keys(&self) -> Seq<u32> {
        self.order@
    }

    /// What holds of every registry: the identifiers are those of the
    /// offers, each once.
    pub open spec fn wf(&self) -> bool {
        tracks(self.keys(), self@.dom())
    }

    /// The registry without offers.
    pub fn new() -> (registry: Self)
        ensures
            registry.wf(),
            registry@ == Map::<u32, RequestDataView>::empty(),
            registry.keys() == Seq::<u32>::empty(),
    {
        let registry = OfferRegistry { offers: HashMap::new(), order: Vec::new() };
        assert(registry@ =~= Map::<u32, RequestDataView>::empty());
        assert(registry@.dom() =~= Set::<u32>::empty());
        registry
    }

    /// Whether an offer stands under `id`.
    pub fn contains(&self, id: u32) -> (found: bool)
        ensures
            found == self@.contains_key(id),
    {
        self.offers.contains_key(&id)
    }

    /// The offer under `id`.
    pub fn get(&self, id: u32) -> (offer: Option<RequestData>)
        ensures
            match offer {
                Some(o) => self@.contains_key(id) && o@ == self@[id],
                None => !self@.contains_key(id),
            },
    {
        match self.offers.get(&id) {
            Some(o) => Some(o.clone()),
            None => None,
        }
    }

    /// The identifiers of the offers, in the order in which they came in.
    pub fn keys_in_order(&self) -> (keys: Vec<u32>)
        ensures
            keys@ == self.keys(),
    {
        self.order.clone()
    }

    /// Puts `offer` under `id`, in place of what stood there.
    pub fn insert(&mut self, id: u32, offer: RequestData)
        requires
            old(self).wf(),
        ensures
            final(self).wf(),
            final(self)@ == old(self)@.insert(id, offer@),
            final(self).keys() == if old(self)@.contains_key(id) {
                old(self).keys()
            } else {
                old(self).keys().push(id)
            },
    {
        let ghost before = self@;
        let ghost keys_before = self.keys();
        let ghost added = offer@;
        let known = self.offers.contains_key(&id);
        self.offers.insert(id, offer);
        if !known {
            self.order.push(id);
        }
        proof {
            assert(self@ =~= before.insert(id, added));
            if !known {
                lemma_tracks_push(keys_before, before.dom(), id);
                assert(self@.dom() =~= before.dom().insert(id));
            } else {
                assert(self@.dom() =~= before.dom());
            }
        }
    }

    /// Decides the offer under `id`: `accepted` are the names taken, none
    /// of them to reject it.
    ///
    /// A decision stands: where the offer is decided already, or there is
    /// none, nothing changes and `false` is returned.
    pub fn decide(&mut self, id: u32, accepted: Vec<Vec<u8>>) -> (decided: bool)
        requires
            old(self).wf(),
        ensures
            final(self).wf(),
            final(self).keys() == old(self).keys(),
            decided == (old(self)@.contains_key(id) && old(self)@[id].accepted_files is None),
            final(self)@ == after_decision(old(self)@, id, views(accepted@)),
    {
        let ghost before = self@;
        match self.offers.remove(&id) {
            Some(mut offer) => {
                let decided = offer.accepted_files.is_none();
                if decided {
                    offer.accepted_files = Some(accepted);
                }
                self.offers.insert(id, offer);
                proof {
                    if decided {
                        assert(self@ =~= before.insert(
                            id,
                            before[id].with_decision(views(accepted@)),
                        ));
                    } else {
                        assert(self@ =~= before);
                    }
                    assert(self@.dom() =~= before.dom());
                }
                decided
            },
            None => {
                assert(self@ =~= before);
                false
            },
        }
    }
}

} // verus!
