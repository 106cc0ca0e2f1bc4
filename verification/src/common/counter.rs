//! Source of the identifiers that key offers and transfers.

use vstd::prelude::*;

verus! {

/// A counter that hands out identifiers in rising order: each identifier is
/// one above the one before it, and none is handed out twice.
///
/// One generator is made when the program starts and is shared by every
/// component that needs fresh identifiers. It can hand out every number
/// below `u32::MAX`, and is used up after that.
pub struct IdGenerator {
    next: u32,
}

impl View for IdGenerator {
    type V = u32;

    /// The identifier that the next call of [`get_inc`] returns. All
    /// identifiers below it have been handed out, and none at or above it.
    closed spec fn view(&self) -> u32 {
        self.next
    }
}

/// The identifier handed out by the `n`-th call (counting from zero) on a
/// generator whose next identifier is `start`, as long as the generator is
/// not used up by then.
pub open spec fn nth_id(start: u32, n: nat) -> u32 {
    (start + n) as u32
}

/// Whether every key of `keys` has been handed out by a generator whose
/// next identifier is `next`.
pub open spec fn all_below(keys: Set<u32>, next: u32) -> bool {
    forall|key: u32| keys.contains(key) ==> key < next
}

/// Whether none of the next `n` identifiers of a generator whose next
/// identifier is `next` is a key of `keys`.
pub open spec fn unused(keys: Set<u32>, next: u32, n: nat) -> bool {
    forall|i: nat| i < n ==> !keys.contains(#[trigger] nth_id(next, i))
}

/// A generator whose first identifier is zero.
pub fn get_counter() -> (counter: IdGenerator)
    ensures
        counter@ == 0,
{
    IdGenerator { next: 0 }
}

impl IdGenerator {
    /// A generator whose first identifier is `first`: one that takes up
    /// where a generator that handed out the identifiers below `first` left
    /// off.
    pub fn starting_at(first: u32) -> (counter: Self)
        ensures
            counter@ == first,
    {
        IdGenerator { next: first }
    }
}

/// Returns the current identifier and moves the generator to the next one.
/// The generator must not be used up; [`next_id`] tests that.
pub fn get_inc(counter: &mut IdGenerator) -> (id: u32)
    requires
        old(counter)@ < u32::MAX,
    ensures
        id == old(counter)@,
        final(counter)@ == old(counter)@ + 1,
{
    let id: u32 = counter.next;
    counter.next = id + 1;
    id
}

/// The number of identifiers that the generator can still hand out.
pub fn remaining(counter: &IdGenerator) -> (left: u32)
    ensures
        left == u32::MAX - counter@,
{
    u32::MAX - counter.next
}

/// Returns the current identifier and moves the generator to the next one,
/// unless the generator is used up: then it stays as it is and nothing is
/// returned.
pub fn next_id(counter: &mut IdGenerator) -> (id: Option<u32>)
    ensures
        old(counter)@ < u32::MAX ==> id == Some(old(counter)@) && final(counter)@ == old(
            counter,
        )@ + 1,
        old(counter)@ == u32::MAX ==> id is None && final(counter)@ == old(counter)@,
{
    if remaining(counter) > 0 {
        Some(get_inc(counter))
    } else {
        None
    }
}

/// Identifiers only rise: of two calls, the later returns the higher
/// identifier.
pub proof fn lemma_ids_rise(start: u32, i: nat, j: nat)
    requires
        i < j,
        start + j <= u32::MAX,
    ensures
        nth_id(start, i) < nth_id(start, j),
        nth_id(start, 0) == start,
{
}

/// Identifiers that were not handed out yet are no keys: where every key
/// has been handed out, none of the identifiers to come is a key.
pub proof fn lemma_below_is_unused(keys: Set<u32>, next: u32, n: nat)
    requires
        all_below(keys, next),
        next + n <= u32::MAX,
    ensures
        unused(keys, next, n),
{
    assert forall|i: nat| i < n implies !keys.contains(#[trigger] nth_id(next, i)) by {
        assert(nth_id(next, i) >= next);
    }
}

/// Keys stay behind the generator: where every key has been handed out,
/// that is still so after the generator has moved on and its identifiers
/// have become keys.
pub proof fn lemma_keys_stay_below(keys: Set<u32>, next: u32, n: nat, after: Set<u32>)
    requires
        all_below(keys, next),
        next + n <= u32::MAX,
        forall|key: u32|
            after.contains(key) ==> keys.contains(key) || exists|i: nat|
                i < n && key == #[trigger] nth_id(next, i),
    ensures
        all_below(after, nth_id(next, n)),
{
    assert forall|key: u32| after.contains(key) implies key < nth_id(next, n) by {
        if !keys.contains(key) {
            let i = choose|i: nat| i < n && key == #[trigger] nth_id(next, i);
            assert(key == next + i);
        }
    }
}

/// A record that is entered under the generator's next identifier is a new
/// record: where every key has been handed out, the next identifier is no
/// key, the records that stand there stay as they are, and every key has
/// been handed out once the generator has moved on.
pub proof fn lemma_next_key_is_new<V>(records: Map<u32, V>, next: u32, value: V)
    requires
        all_below(records.dom(), next),
        next < u32::MAX,
    ensures
        !records.contains_key(next),
        forall|key: u32|
            records.contains_key(key) ==> #[trigger] records.insert(next, value).contains_key(
                key,
            ) && records.insert(next, value)[key] == records[key],
        records.insert(next, value).dom() == records.dom().insert(next),
        all_below(records.insert(next, value).dom(), (next + 1) as u32),
{
    if records.contains_key(next) {
        assert(records.dom().contains(next));
    }
    assert(records.insert(next, value).dom() =~= records.dom().insert(next));
    assert forall|key: u32| records.insert(next, value).dom().contains(key) implies key < next
        + 1 by {
        if key != next {
            assert(records.dom().contains(key));
        }
    }
}

} // verus!
