//! What the registries share: a list of the keys under which they hold
//! something, in the order in which the keys came in.

use vstd::prelude::*;

verus! {

/// Whether `keys` lists the members of `dom`, each once.
pub open spec fn tracks(keys: Seq<u32>, dom: Set<u32>) -> bool {
    &&& keys.no_duplicates()
    &&& forall|key: u32| #[trigger] keys.contains(key) <==> dom.contains(key)
}

/// A list stays right when a new key is put at its end.
pub proof fn lemma_tracks_push(keys: Seq<u32>, dom: Set<u32>, key: u32)
    requires
        tracks(keys, dom),
        !dom.contains(key),
    ensures
        tracks(keys.push(key), dom.insert(key)),
{
    let after = keys.push(key);
    assert forall|k: u32| #[trigger] after.contains(k) <==> dom.insert(key).contains(k) by {
        if after.contains(k) {
            let i = choose|i: int| 0 <= i < after.len() && after[i] == k;
            if i < keys.len() {
                assert(keys[i] == k);
                assert(keys.contains(k));
            }
        }
        if dom.insert(key).contains(k) {
            if k == key {
                assert(after[keys.len() as int] == k);
            } else {
                assert(keys.contains(k));
                let i = choose|i: int| 0 <= i < keys.len() && keys[i] == k;
                assert(after[i] == k);
            }
        }
    }
    assert forall|i: int, j: int| 0 <= i < after.len() && 0 <= j < after.len() && i != j implies after[i]
        != after[j] by {
        if i < keys.len() && j < keys.len() {
        } else {
            let m = if i < keys.len() {
                i
            } else {
                j
            };
            assert(keys.contains(keys[m]));
        }
    }
}

/// A list that lists a set shows that the set is finite, and how many
/// members it has.
pub proof fn lemma_tracks_len(keys: Seq<u32>, dom: Set<u32>)
    requires
        tracks(keys, dom),
    ensures
        dom.finite(),
        dom.len() == keys.len(),
{
    assert(dom =~= keys.to_set()) by {
        assert forall|key: u32| dom.contains(key) == keys.to_set().contains(key) by {
            assert(keys.contains(key) <==> dom.contains(key));
        }
    }
    vstd::seq_lib::seq_to_set_is_finite(keys);
    keys.unique_seq_to_set();
}

} // verus!
