//! The form on which a person ticks the files of an offer that are to be
//! taken, and from which the decision about the offer is made.

use crate::common::text::bytes_eq;
use crate::common::text::views;
use crate::networking::offers::after_decision;
use crate::networking::offers::copy_names;
use crate::networking::offers::OfferRegistry;
use vstd::prelude::*;

verus! {

/// `names` without `name`.
pub open spec fn without(names: Seq<Seq<u8>>, name: Seq<u8>) -> Seq<Seq<u8>>
    decreases names.len(),
{
    if names.len() == 0 {
        names
    } else if names.last() == name {
        without(names.drop_last(), name)
    } else {
        without(names.drop_last(), name).push(names.last())
    }
}

/// What is left of `names` without `name`: all the other names, and each of
/// them once if it stood there once.
pub proof fn lemma_without(names: Seq<Seq<u8>>, name: Seq<u8>)
    ensures
        forall|other: Seq<u8>| #[trigger]
            without(names, name).contains(other) <==> (names.contains(other) && other != name),
        names.no_duplicates() ==> without(names, name).no_duplicates(),
    decreases names.len(),
{
    let out = without(names, name);
    if names.len() > 0 {
        let rest = names.drop_last();
        let last = names.last();
        let kept = without(rest, name);
        lemma_without(rest, name);
        assert forall|other: Seq<u8>| #[trigger]
            out.contains(other) <==> (names.contains(other) && other != name) by {
            if out.contains(other) {
                let i = choose|i: int| 0 <= i < out.len() && out[i] == other;
                if i < kept.len() {
                    assert(kept[i] == other);
                    assert(kept.contains(other));
                    let j = choose|j: int| 0 <= j < rest.len() && rest[j] == other;
                    assert(names[j] == other);
                } else {
                    assert(names[names.len() - 1] == other);
                }
            }
            if names.contains(other) && other != name {
                let j = choose|j: int| 0 <= j < names.len() && names[j] == other;
                if j < rest.len() {
                    assert(rest[j] == other);
                    assert(rest.contains(other));
                    assert(kept.contains(other));
                    let i = choose|i: int| 0 <= i < kept.len() && kept[i] == other;
                    assert(out[i] == other);
                } else {
                    assert(out[out.len() - 1] == other);
                }
            }
        }
        if names.no_duplicates() {
            assert(rest.no_duplicates());
            if last != name {
                assert forall|i: int, j: int|
                    0 <= i < out.len() && 0 <= j < out.len() && i != j implies out[i] != out[j] by {
                    if i < kept.len() && j < kept.len() {
                    } else {
                        let k = if i < kept.len() {
                            i
                        } else {
                            j
                        };
                        assert(kept.contains(kept[k]));
                        let m = choose|m: int| 0 <= m < rest.len() && rest[m] == kept[k];
                        assert(names[m] == kept[k]);
                        assert(names[names.len() - 1] == last);
                    }
                }
            }
        }
    }
}

/// The form for one offer: the names that are ticked, each once, in the
/// order in which they were ticked.
pub struct RequestDetails {
    key: u32,
    accepted_files: Vec<Vec<u8>>,
}

impl RequestDetails {
    /// The identifier of the offer.
    pub closed spec fn key(&self) -> u32 {
        self.key
    }

    /// The names that are ticked.
    pub closed spec fn accepted(&self) -> Seq<Seq<u8>> {
        views(self.accepted_files@)
    }

    /// What holds of every form: no name is ticked twice.
    pub open spec fn wf(&self) -> bool {
        self.accepted().no_duplicates()
    }

    /// The form for the offer under `key`, with nothing ticked.
    pub fn new(key: u32) -> (details: Self)
        ensures
            details.wf(),
            details.key() == key,
            details.accepted() == Seq::<Seq<u8>>::empty(),
    {
        let details = RequestDetails { key, accepted_files: Vec::new() };
        assert(details.accepted() =~= Seq::<Seq<u8>>::empty());
        details
    }

    /// The identifier of the offer.
    pub fn offer_key(&self) -> (key: u32)
        ensures
            key == self.key(),
    {
        self.key
    }

    /// Whether `name` is ticked.
    pub fn is_accepted(&self, name: &[u8]) -> (ticked: bool)
        ensures
            ticked == self.accepted().contains(name@),
    {
        let mut i: usize = 0;
        while i < self.accepted_files.len()
            invariant
                i <= self.accepted_files.len(),
                forall|j: int| 0 <= j < i ==> self.accepted()[j] != name@,
            decreases self.accepted_files.len() - i,
        {
            assert(self.accepted()[i as int] == self.accepted_files@[i as int]@);
            if bytes_eq(self.accepted_files[i].as_slice(), name) {
                return true;
            }
            i += 1;
        }
        false
    }

    /// Ticks `name`, unless it is ticked already.
    pub fn accept(&mut self, name: Vec<u8>) -> (added: bool)
        requires
            old(self).wf(),
        ensures
            final(self).wf(),
            final(self).key() == old(self).key(),
            added == !old(self).accepted().contains(name@),
            final(self).accepted() == if added {
                old(self).accepted().push(name@)
            } else {
                old(self).accepted()
            },
    {
        if self.is_accepted(name.as_slice()) {
            false
        } else {
            let ghost before = self.accepted();
            let ghost ticked = name@;
            self.accepted_files.push(name);
            assert(self.accepted() =~= before.push(ticked));
            true
        }
    }

    /// Takes the tick off `name`.
    pub fn decline(&mut self, name: &[u8]) -> (removed: bool)
        requires
            old(self).wf(),
        ensures
            final(self).wf(),
            final(self).key() == old(self).key(),
            removed == old(self).accepted().contains(name@),
            final(self).accepted() == without(old(self).accepted(), name@),
    {
        let ghost before = self.accepted();
        let mut kept: Vec<Vec<u8>> = Vec::new();
        let mut removed = false;
        let mut i: usize = 0;
        assert(before.take(0) =~= Seq::<Seq<u8>>::empty());
        assert(views(kept@) =~= Seq::<Seq<u8>>::empty());
        while i < self.accepted_files.len()
            invariant
                i <= self.accepted_files.len(),
                before == self.accepted(),
                views(kept@) == without(before.take(i as int), name@),
                removed == before.take(i as int).contains(name@),
            decreases self.accepted_files.len() - i,
        {
            let ghost kept_before = views(kept@);
            let ghost earlier = before.take(i as int);
            let ghost next = before.take(i + 1);
            proof {
                assert(next.drop_last() =~= earlier);
                assert(next.last() == self.accepted_files@[i as int]@);
            }
            if bytes_eq(self.accepted_files[i].as_slice(), name) {
                removed = true;
                assert(next[i as int] == name@);
            } else {
                kept.push(self.accepted_files[i].clone());
                proof {
                    assert(views(kept@) =~= kept_before.push(next.last()));
                    if next.contains(name@) {
                        let j = choose|j: int| 0 <= j < next.len() && next[j] == name@;
                        assert(earlier[j] == name@);
                    }
                    if earlier.contains(name@) {
                        let j = choose|j: int| 0 <= j < earlier.len() && earlier[j] == name@;
                        assert(next[j] == name@);
                    }
                }
            }
            i += 1;
        }
        proof {
            assert(before.take(i as int) =~= before);
            lemma_without(before, name@);
        }
        self.accepted_files = kept;
        removed
    }

    /// The decision that the form stands for: the names that are ticked.
    pub fn decision(&self) -> (names: Vec<Vec<u8>>)
        ensures
            views(names@) == self.accepted(),
    {
        copy_names(&self.accepted_files)
    }

    /// Sends the response: the offer is decided as the form stands.
    ///
    /// Nothing changes, and `false` is returned, where the offer is decided
    /// already or there is no such offer.
    pub fn confirm(&self, offers: &mut OfferRegistry) -> (decided: bool)
        requires
            old(offers).wf(),
        ensures
            final(offers).wf(),
            final(offers).keys() == old(offers).keys(),
            decided == (old(offers)@.contains_key(self.key()) && old(
                offers,
            )@[self.key()].accepted_files is None),
            final(offers)@ == after_decision(old(offers)@, self.key(), self.accepted()),
    {
        offers.decide(self.key, self.decision())
    }
}

} // verus!
