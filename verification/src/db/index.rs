//! The places of the stored keys, found by the hash of a key.

use std::collections::HashMap;
use vstd::prelude::*;

verus! {

broadcast use vstd::std_specs::hash::group_hash_axioms;

/// The hash of no bytes.
pub const HASH_OFFSET: u64 = 0xcbf29ce484222325;

/// What the hash is multiplied by for each byte.
pub const HASH_PRIME: u64 = 0x100000001b3;

/// The hash of a byte sequence: each byte in turn is mixed into the hash
/// of the bytes before it.
pub open spec fn hash_of(bytes: Seq<u8>) -> u64
    decreases bytes.len(),
{
    if bytes.len() == 0 {
        HASH_OFFSET
    } else {
        (hash_of(bytes.drop_last()) ^ (bytes.last() as u64)).wrapping_mul(HASH_PRIME)
    }
}

/// The hash of the given bytes.
pub fn hash_bytes(bytes: &[u8]) -> (h: u64)
    ensures
        h == hash_of(bytes@),
{
    let mut h: u64 = HASH_OFFSET;
    let mut i: usize = 0;
    while i < bytes.len()
        invariant
            i <= bytes.len(),
            h == hash_of(bytes@.take(i as int)),
        decreases bytes.len() - i,
    {
        proof {
            assert(bytes@.take(i + 1).drop_last() =~= bytes@.take(i as int));
        }
        h = (h ^ (bytes[i] as u64)).wrapping_mul(HASH_PRIME);
        i += 1;
    }
    assert(bytes@.take(bytes.len() as int) =~= bytes@);
    h
}

/// For each hash, the places that are filed under it.
#[derive(Debug, PartialEq)]
pub struct PlaceIndex {
    buckets: HashMap<u64, Vec<usize>>,
}

impl PlaceIndex {
    /// The place is filed under the hash.
    pub closed spec fn holds(&self, h: u64, place: usize) -> bool {
        self.buckets@.contains_key(h) && self.buckets@[h]@.contains(place)
    }

    /// An index that holds nothing.
    pub fn new() -> (r: Self)
        ensures
            forall|h: u64, place: usize| !r.holds(h, place),
    {
        PlaceIndex { buckets: HashMap::new() }
    }

    /// The places that are filed under a hash.
    pub fn bucket(&self, h: u64) -> (r: Option<&Vec<usize>>)
        ensures
            match r {
                Some(places) => forall|place: usize|
                    places@.contains(place) <==> self.holds(h, place),
                None => forall|place: usize| !self.holds(h, place),
            },
    {
        self.buckets.get(&h)
    }

    /// Files a place under a hash.
    pub fn add(&mut self, h: u64, place: usize)
        ensures
            forall|g: u64, p: usize|
                final(self).holds(g, p) <==> old(self).holds(g, p) || (g == h && p == place),
    {
        let mut places = match self.buckets.remove(&h) {
            Some(places) => places,
            None => Vec::new(),
        };
        let ghost before = places@;
        assert forall|p: usize| before.contains(p) <==> old(self).holds(h, p) by {
            if !old(self).buckets@.contains_key(h) {
                assert(before.len() == 0);
            }
        }
        places.push(place);
        assert forall|p: usize| places@.contains(p) <==> before.contains(p) || p == place by {
            if before.contains(p) {
                let i = choose|i: int| 0 <= i < before.len() && before[i] == p;
                assert(places@[i] == p);
            }
            if p == place {
                assert(places@[before.len() as int] == p);
            }
        }
        self.buckets.insert(h, places);
        assert forall|g: u64, p: usize|
            self.holds(g, p) <==> old(self).holds(g, p) || (g == h && p == place) by {
            if g == h {
                assert(self.buckets@[h]@ == places@);
                assert(places@.contains(p) <==> before.contains(p) || p == place);
                assert(before.contains(p) <==> old(self).holds(h, p));
            } else {
                assert(self.buckets@.contains_key(g) == old(self).buckets@.contains_key(g));
            }
        }
    }

    /// Takes a place out from under a hash.
    pub fn drop(&mut self, h: u64, place: usize)
        ensures
            forall|g: u64, p: usize|
                final(self).holds(g, p) <==> old(self).holds(g, p) && !(g == h && p == place),
    {
        match self.buckets.remove(&h) {
            Some(places) => {
                let mut kept: Vec<usize> = Vec::new();
                let mut i: usize = 0;
                while i < places.len()
                    invariant
                        i <= places.len(),
                        forall|p: usize|
                            kept@.contains(p) <==> places@.take(i as int).contains(p) && p
                                != place,
                    decreases places.len() - i,
                {
                    let ghost before = kept@;
                    let ghost seen = places@.take(i as int);
                    let ghost next = places@.take(i + 1);
                    let item = places[i];
                    if item != place {
                        kept.push(item);
                    }
                    proof {
                        assert(next =~= seen.push(item));
                        assert forall|p: usize| kept@.contains(p) <==> next.contains(p) && p
                            != place by {
                            if seen.contains(p) {
                                let k = choose|k: int| 0 <= k < seen.len() && seen[k] == p;
                                assert(next[k] == p);
                            }
                            if next.contains(p) {
                                let k = choose|k: int| 0 <= k < next.len() && next[k] == p;
                                if k < seen.len() {
                                    assert(seen[k] == p);
                                }
                            }
                            if before.contains(p) {
                                let k = choose|k: int| 0 <= k < before.len() && before[k] == p;
                                assert(kept@[k] == p);
                            }
                            if kept@.contains(p) {
                                let k = choose|k: int| 0 <= k < kept@.len() && kept@[k] == p;
                                if k < before.len() {
                                    assert(before[k] == p);
                                } else {
                                    assert(p == item);
                                    assert(next[i as int] == p);
                                }
                            }
                            if p == item && item != place {
                                assert(kept@[before.len() as int] == p);
                            }
                        }
                    }
                    i += 1;
                }
                assert(places@.take(places.len() as int) =~= places@);
                self.buckets.insert(h, kept);
            },
            None => {},
        }
    }
}

} // verus!
