//! The accepted-file ledger: for every peer, the file names that were
//! promised to it and have not been redeemed by a transfer yet.

use crate::common::text::bytes_eq;
use multiset::HashMultiSet;
use vstd::multiset::Multiset;
use vstd::prelude::*;

verus! {

/// The hash-based multiset of the `multiset` crate. It is opaque here: what
/// it holds is spoken of through `bucket_names` and `bucket_size` alone.
#[verifier::external_type_specification]
#[verifier::external_body]
#[verifier::reject_recursive_types(K)]
pub struct ExHashMultiSet<K>(HashMultiSet<K>);

/// The names that a multiset of names holds, each as often as the multiset
/// counts it.
pub uninterp spec fn bucket_names(bucket: HashMultiSet<Vec<u8>>) -> Multiset<Seq<u8>>;

/// The total that a multiset of names keeps of its entries.
pub uninterp spec fn bucket_size(bucket: HashMultiSet<Vec<u8>>) -> nat;

/// `HashMultiSet::new`: a multiset that holds no name and keeps a total of
/// zero.
#[verifier::external_body]
fn bucket_new() -> (bucket: HashMultiSet<Vec<u8>>)
    ensures
        bucket_names(bucket) == Multiset::<Seq<u8>>::empty(),
        bucket_size(bucket) == 0,
{
    HashMultiSet::new()
}

/// `HashMultiSet::insert`: `name` is counted once more, and the total is
/// one higher. The total must have room for that: the crate adds to it
/// without a check.
#[verifier::external_body]
fn bucket_insert(bucket: &mut HashMultiSet<Vec<u8>>, name: Vec<u8>)
    requires
        bucket_size(*old(bucket)) < usize::MAX,
    ensures
        bucket_names(*final(bucket)) == bucket_names(*old(bucket)).insert(name@),
        bucket_size(*final(bucket)) == bucket_size(*old(bucket)) + 1,
{
    bucket.insert(name);
}

/// `HashMultiSet::remove`: where `name` is counted, it is counted once
/// less, the total is one lower, and `true` is returned; where it is not,
/// nothing changes and `false` is returned. The total must not be zero while
/// `name` is counted: the crate takes from it without a check.
#[verifier::external_body]
fn bucket_remove(bucket: &mut HashMultiSet<Vec<u8>>, name: &Vec<u8>) -> (removed: bool)
    requires
        bucket_names(*old(bucket)).count(name@) > 0 ==> bucket_size(*old(bucket)) > 0,
    ensures
        removed == (bucket_names(*old(bucket)).count(name@) > 0),
        bucket_names(*final(bucket)) == bucket_names(*old(bucket)).remove(name@),
        bucket_size(*final(bucket)) == if removed {
            (bucket_size(*old(bucket)) - 1) as nat
        } else {
            bucket_size(*old(bucket))
        },
{
    bucket.remove(name)
}

/// `HashMultiSet::count_of`: how often `name` is counted.
#[verifier::external_body]
fn bucket_count_of(bucket: &HashMultiSet<Vec<u8>>, name: &Vec<u8>) -> (count: usize)
    ensures
        count == bucket_names(*bucket).count(name@),
{
    bucket.count_of(name)
}

/// `HashMultiSet::len`: the total that the multiset keeps of its entries.
#[verifier::external_body]
fn bucket_len(bucket: &HashMultiSet<Vec<u8>>) -> (len: usize)
    ensures
        len == bucket_size(*bucket),
{
    bucket.len()
}

/// The names promised to one peer.
struct Bucket {
    peer: Vec<u8>,
    names: HashMultiSet<Vec<u8>>,
}

/// Whether some bucket belongs to the peer with IP address `ip`.
spec fn holds(buckets: Seq<Bucket>, ip: Seq<u8>) -> bool {
    exists|i: int| 0 <= i < buckets.len() && (#[trigger] buckets[i]).peer@ == ip
}

/// The place of the bucket of the peer with IP address `ip`.
spec fn place(buckets: Seq<Bucket>, ip: Seq<u8>) -> int {
    choose|i: int| 0 <= i < buckets.len() && (#[trigger] buckets[i]).peer@ == ip
}

/// Whether no two buckets belong to the same peer.
spec fn distinct(buckets: Seq<Bucket>) -> bool {
    forall|i: int, j: int|
        0 <= i < buckets.len() && 0 <= j < buckets.len() && i != j ==> (#[trigger] buckets[i]).peer@
            != (#[trigger] buckets[j]).peer@
}

/// Whether every bucket counts as many entries as it holds names.
spec fn counted(buckets: Seq<Bucket>) -> bool {
    forall|i: int|
        0 <= i < buckets.len() ==> bucket_size((#[trigger] buckets[i]).names) == bucket_names(
            buckets[i].names,
        ).len()
}

/// What the buckets hold, by peer.
spec fn contents(buckets: Seq<Bucket>) -> Map<Seq<u8>, Multiset<Seq<u8>>> {
    Map::new(
        |ip: Seq<u8>| holds(buckets, ip),
        |ip: Seq<u8>| bucket_names(buckets[place(buckets, ip)].names),
    )
}

/// Among distinct buckets, a bucket is found at its own place.
proof fn lemma_place(buckets: Seq<Bucket>, i: int)
    requires
        distinct(buckets),
        0 <= i < buckets.len(),
    ensures
        holds(buckets, buckets[i].peer@),
        place(buckets, buckets[i].peer@) == i,
{
}

/// Replacing the bucket of a peer replaces what the ledger holds for it.
proof fn lemma_replace(buckets: Seq<Bucket>, i: int, bucket: Bucket)
    requires
        distinct(buckets),
        0 <= i < buckets.len(),
        bucket.peer@ == buckets[i].peer@,
    ensures
        distinct(buckets.update(i, bucket)),
        contents(buckets.update(i, bucket)) == contents(buckets).insert(
            bucket.peer@,
            bucket_names(bucket.names),
        ),
{
    let after = buckets.update(i, bucket);
    assert(distinct(after)) by {
        assert forall|a: int, b: int|
            0 <= a < after.len() && 0 <= b < after.len() && a != b implies (#[trigger] after[a]).peer@
            != (#[trigger] after[b]).peer@ by {
            assert(after[a].peer@ == buckets[a].peer@);
            assert(after[b].peer@ == buckets[b].peer@);
        }
    }
    let want = contents(buckets).insert(bucket.peer@, bucket_names(bucket.names));
    assert forall|ip: Seq<u8>| contents(after).dom().contains(ip) == want.dom().contains(ip) by {
        if holds(after, ip) {
            let k = place(after, ip);
            assert(buckets[k].peer@ == ip);
        }
        if holds(buckets, ip) {
            let k = place(buckets, ip);
            assert(after[k].peer@ == ip);
        }
        if ip == bucket.peer@ {
            assert(after[i].peer@ == ip);
        }
    }
    assert forall|ip: Seq<u8>| contents(after).dom().contains(ip) implies contents(after)[ip]
        == want[ip] by {
        let k = place(after, ip);
        lemma_place(after, k);
        assert(buckets[k].peer@ == ip);
        lemma_place(buckets, k);
    }
    assert(contents(after) =~= want);
}

/// A bucket for a peer that has none yet adds what it holds to the ledger.
proof fn lemma_append(buckets: Seq<Bucket>, bucket: Bucket)
    requires
        distinct(buckets),
        !holds(buckets, bucket.peer@),
    ensures
        distinct(buckets.push(bucket)),
        contents(buckets.push(bucket)) == contents(buckets).insert(
            bucket.peer@,
            bucket_names(bucket.names),
        ),
{
    let after = buckets.push(bucket);
    assert(distinct(after)) by {
        assert forall|a: int, b: int|
            0 <= a < after.len() && 0 <= b < after.len() && a != b implies (#[trigger] after[a]).peer@
            != (#[trigger] after[b]).peer@ by {
            if a < buckets.len() {
                assert(after[a] == buckets[a]);
            }
            if b < buckets.len() {
                assert(after[b] == buckets[b]);
            }
        }
    }
    let want = contents(buckets).insert(bucket.peer@, bucket_names(bucket.names));
    assert forall|ip: Seq<u8>| contents(after).dom().contains(ip) == want.dom().contains(ip) by {
        if holds(after, ip) {
            let k = place(after, ip);
            if k < buckets.len() {
                assert(buckets[k].peer@ == ip);
            }
        }
        if holds(buckets, ip) {
            let k = place(buckets, ip);
            assert(after[k].peer@ == ip);
        }
        if ip == bucket.peer@ {
            assert(after[buckets.len() as int].peer@ == ip);
        }
    }
    assert forall|ip: Seq<u8>| contents(after).dom().contains(ip) implies contents(after)[ip]
        == want[ip] by {
        let k = place(after, ip);
        lemma_place(after, k);
        if k < buckets.len() {
            assert(buckets[k].peer@ == ip);
            lemma_place(buckets, k);
        }
    }
    assert(contents(after) =~= want);
}

/// What a ledger holds: for every peer that was ever promised a name, by the
/// text of its IP address, the names that are promised to it now.
pub type Promises = Map<Seq<u8>, Multiset<Seq<u8>>>;

/// How often `name` is promised to the peer with IP address `ip`.
pub open spec fn multiplicity(promises: Promises, ip: Seq<u8>, name: Seq<u8>) -> nat {
    if promises.contains_key(ip) {
        promises[ip].count(name)
    } else {
        0
    }
}

/// How many names are promised to the peer with IP address `ip`, each
/// counted as often as it is promised.
pub open spec fn outstanding(promises: Promises, ip: Seq<u8>) -> nat {
    if promises.contains_key(ip) {
        promises[ip].len()
    } else {
        0
    }
}

/// The promises after `name` has been promised once more to the peer with
/// IP address `ip`. Nothing is added for a peer that holds as many promises
/// as can be counted.
pub open spec fn after_promise(promises: Promises, ip: Seq<u8>, name: Seq<u8>) -> Promises {
    if outstanding(promises, ip) >= usize::MAX {
        promises
    } else if promises.contains_key(ip) {
        promises.insert(ip, promises[ip].insert(name))
    } else {
        promises.insert(ip, Multiset::empty().insert(name))
    }
}

/// The promises after one promise of `name` to the peer with IP address
/// `ip` has been redeemed. Where there is none, nothing changes.
pub open spec fn after_redeem(promises: Promises, ip: Seq<u8>, name: Seq<u8>) -> Promises {
    if promises.contains_key(ip) {
        promises.insert(ip, promises[ip].remove(name))
    } else {
        promises
    }
}

/// The promises after each name of `names` has been promised once to the
/// peer with IP address `ip`.
pub open spec fn after_promises(promises: Promises, ip: Seq<u8>, names: Seq<Seq<u8>>) -> Promises
    decreases names.len(),
{
    if names.len() == 0 {
        promises
    } else {
        after_promise(after_promises(promises, ip, names.drop_last()), ip, names.last())
    }
}

/// A promise raises the multiplicity of its name for its peer by one, and
/// leaves every other multiplicity as it was.
pub proof fn lemma_promise_counts(
    promises: Promises,
    ip: Seq<u8>,
    name: Seq<u8>,
    other_ip: Seq<u8>,
    other: Seq<u8>,
)
    requires
        outstanding(promises, ip) < usize::MAX,
    ensures
        multiplicity(after_promise(promises, ip, name), ip, name) == multiplicity(
            promises,
            ip,
            name,
        ) + 1,
        outstanding(after_promise(promises, ip, name), ip) == outstanding(promises, ip) + 1,
        (other_ip != ip || other != name) ==> multiplicity(
            after_promise(promises, ip, name),
            other_ip,
            other,
        ) == multiplicity(promises, other_ip, other),
{
    broadcast use vstd::multiset::group_multiset_axioms;

}

/// Promising the same name to the same peer twice raises its multiplicity
/// by two.
pub proof fn lemma_promised_twice(promises: Promises, ip: Seq<u8>, name: Seq<u8>)
    requires
        outstanding(promises, ip) + 1 < usize::MAX,
    ensures
        multiplicity(after_promise(after_promise(promises, ip, name), ip, name), ip, name)
            == multiplicity(promises, ip, name) + 2,
{
    lemma_promise_counts(promises, ip, name, ip, name);
    lemma_promise_counts(after_promise(promises, ip, name), ip, name, ip, name);
}

/// Redeeming lowers the multiplicity of its name for its peer by exactly one
/// where it is above zero, never below zero, and leaves every other
/// multiplicity as it was.
pub proof fn lemma_redeem_counts(
    promises: Promises,
    ip: Seq<u8>,
    name: Seq<u8>,
    other_ip: Seq<u8>,
    other: Seq<u8>,
)
    ensures
        multiplicity(promises, ip, name) > 0 ==> multiplicity(
            after_redeem(promises, ip, name),
            ip,
            name,
        ) == multiplicity(promises, ip, name) - 1,
        multiplicity(promises, ip, name) == 0 ==> multiplicity(
            after_redeem(promises, ip, name),
            ip,
            name,
        ) == 0,
        (other_ip != ip || other != name) ==> multiplicity(
            after_redeem(promises, ip, name),
            other_ip,
            other,
        ) == multiplicity(promises, other_ip, other),
{
    broadcast use vstd::multiset::group_multiset_axioms;

}

/// A promise that is redeemed leaves the multiplicity of its name where it
/// was before the promise.
pub proof fn lemma_promise_then_redeem(promises: Promises, ip: Seq<u8>, name: Seq<u8>)
    requires
        outstanding(promises, ip) < usize::MAX,
    ensures
        multiplicity(after_redeem(after_promise(promises, ip, name), ip, name), ip, name)
            == multiplicity(promises, ip, name),
{
    lemma_promise_counts(promises, ip, name, ip, name);
    lemma_redeem_counts(after_promise(promises, ip, name), ip, name, ip, name);
}

/// The ledger. A name stands in it once for every time it was promised to a
/// peer and not redeemed since.
pub struct Ledger {
    buckets: Vec<Bucket>,
}

impl View for Ledger {
    type V = Promises;

    closed spec fn view(&self) -> Promises {
        contents(self.buckets@)
    }
}

impl Ledger {
    /// What holds of every ledger: it keeps one account for each peer.
    pub closed spec fn wf(&self) -> bool {
        distinct(self.buckets@) && counted(self.buckets@)
    }

    /// The ledger in which nothing was ever promised.
    pub fn new() -> (ledger: Self)
        ensures
            ledger.wf(),
            ledger@ == Map::<Seq<u8>, Multiset<Seq<u8>>>::empty(),
    {
        let ledger = Ledger { buckets: Vec::new() };
        assert(ledger@ =~= Map::<Seq<u8>, Multiset<Seq<u8>>>::empty());
        ledger
    }

    /// The place of the bucket of the peer with IP address `ip`.
    fn find(&self, ip: &[u8]) -> (at: Option<usize>)
        requires
            self.wf(),
        ensures
            match at {
                Some(i) => i < self.buckets@.len() && self.buckets@[i as int].peer@ == ip@
                    && self@.contains_key(ip@) && self@[ip@] == bucket_names(
                    self.buckets@[i as int].names,
                ),
                None => !self@.contains_key(ip@),
            },
    {
        let mut i: usize = 0;
        while i < self.buckets.len()
            invariant
                self.wf(),
                i <= self.buckets.len(),
                forall|j: int| 0 <= j < i ==> (#[trigger] self.buckets@[j]).peer@ != ip@,
            decreases self.buckets.len() - i,
        {
            if bytes_eq(self.buckets[i].peer.as_slice(), ip) {
                proof {
                    lemma_place(self.buckets@, i as int);
                }
                return Some(i);
            }
            i += 1;
        }
        None
    }

    /// Whether a name is promised to the peer with IP address `ip`.
    pub fn is_waiting(&self, ip: &[u8]) -> (waiting: bool)
        requires
            self.wf(),
        ensures
            waiting == (outstanding(self@, ip@) > 0),
    {
        match self.find(ip) {
            Some(i) => bucket_len(&self.buckets[i].names) > 0,
            None => false,
        }
    }

    /// Whether `name` is promised to the peer with IP address `ip`.
    pub fn accepts(&self, ip: &[u8], name: &Vec<u8>) -> (accepted: bool)
        requires
            self.wf(),
        ensures
            accepted == (multiplicity(self@, ip@, name@) > 0),
    {
        match self.find(ip) {
            Some(i) => bucket_count_of(&self.buckets[i].names, name) > 0,
            None => false,
        }
    }

    /// How often `name` is promised to the peer with IP address `ip`.
    pub fn count(&self, ip: &[u8], name: &Vec<u8>) -> (count: usize)
        requires
            self.wf(),
        ensures
            count == multiplicity(self@, ip@, name@),
    {
        match self.find(ip) {
            Some(i) => bucket_count_of(&self.buckets[i].names, name),
            None => 0,
        }
    }

    /// Promises `name` once more to the peer with IP address `ip`.
    ///
    /// The ledger stays as it is, and `false` is returned, only where the
    /// peer holds as many promises as can be counted.
    pub fn promise(&mut self, ip: &[u8], name: Vec<u8>) -> (added: bool)
        requires
            old(self).wf(),
        ensures
            final(self).wf(),
            added == (outstanding(old(self)@, ip@) < usize::MAX),
            final(self)@ == after_promise(old(self)@, ip@, name@),
    {
        broadcast use vstd::multiset::group_multiset_axioms;

        let ghost before = self.buckets@;
        match self.find(ip) {
            Some(i) => {
                if bucket_len(&self.buckets[i].names) == usize::MAX {
                    return false;
                }
                let mut bucket = self.buckets.remove(i);
                bucket_insert(&mut bucket.names, name);
                let ghost updated = bucket;
                self.buckets.insert(i, bucket);
                proof {
                    assert(self.buckets@ =~= before.update(i as int, updated));
                    lemma_replace(before, i as int, updated);
                    assert forall|j: int| 0 <= j < self.buckets@.len() implies bucket_size(
                        (#[trigger] self.buckets@[j]).names,
                    ) == bucket_names(self.buckets@[j].names).len() by {
                        if j != i {
                            assert(self.buckets@[j] == before[j]);
                        }
                    }
                }
                true
            },
            None => {
                let mut names = bucket_new();
                bucket_insert(&mut names, name);
                let bucket = Bucket { peer: crate::common::text::copy_range(ip, 0, ip.len()), names };
                let ghost added = bucket;
                self.buckets.push(bucket);
                proof {
                    assert(added.peer@ =~= ip@);
                    lemma_append(before, added);
                    assert forall|j: int| 0 <= j < self.buckets@.len() implies bucket_size(
                        (#[trigger] self.buckets@[j]).names,
                    ) == bucket_names(self.buckets@[j].names).len() by {
                        if j < before.len() {
                            assert(self.buckets@[j] == before[j]);
                        }
                    }
                }
                true
            },
        }
    }

    /// Redeems one promise of `name` to the peer with IP address `ip`, if
    /// there is one. Returns whether there was one.
    pub fn redeem(&mut self, ip: &[u8], name: &Vec<u8>) -> (redeemed: bool)
        requires
            old(self).wf(),
        ensures
            final(self).wf(),
            redeemed == (multiplicity(old(self)@, ip@, name@) > 0),
            final(self)@ == after_redeem(old(self)@, ip@, name@),
    {
        broadcast use vstd::multiset::group_multiset_axioms;

        let ghost before = self.buckets@;
        match self.find(ip) {
            Some(i) => {
                let mut bucket = self.buckets.remove(i);
                let ghost names_before = bucket_names(bucket.names);
                let redeemed = bucket_remove(&mut bucket.names, name);
                let ghost updated = bucket;
                self.buckets.insert(i, bucket);
                proof {
                    assert(self.buckets@ =~= before.update(i as int, updated));
                    lemma_replace(before, i as int, updated);
                    if redeemed {
                        assert(Multiset::singleton(name@).subset_of(names_before)) by {
                            assert forall|v: Seq<u8>|
                                Multiset::singleton(name@).count(v) <= names_before.count(v) by {
                                if v != name@ {
                                }
                            }
                        }
                    } else {
                        assert(names_before.remove(name@) =~= names_before);
                    }
                    assert forall|j: int| 0 <= j < self.buckets@.len() implies bucket_size(
                        (#[trigger] self.buckets@[j]).names,
                    ) == bucket_names(self.buckets@[j].names).len() by {
                        if j != i {
                            assert(self.buckets@[j] == before[j]);
                        }
                    }
                }
                redeemed
            },
            None => false,
        }
    }
}

} // verus!
