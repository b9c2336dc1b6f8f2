//! The set of positions, named by their keys, that a search has seen.

use std::collections::HashMap;
use vstd::prelude::*;
use vstd::utf8::encode_utf8;

verus! {

broadcast use vstd::std_specs::hash::group_hash_axioms;

/// The number that a sequence of bytes is filed under.
pub closed spec fn hash_bytes(bytes: Seq<u8>) -> u64
    decreases bytes.len(),
{
    if bytes.len() == 0 {
        0xcbf2_9ce4_8422_2325u64
    } else {
        (hash_bytes(bytes.drop_last()) ^ (bytes.last() as u64)).wrapping_mul(
            0x0000_0100_0000_01b3u64,
        )
    }
}

/// The number that a key is filed under.
pub closed spec fn hash_key(key: Seq<char>) -> u64 {
    hash_bytes(encode_utf8(key))
}

/// A set of keys. Every key is held once, in `keys`; `index` files the places
/// of the keys in `keys` under the number of each key.
pub struct Visited {
    keys: Vec<String>,
    index: HashMap<u64, Vec<usize>>,
}

impl View for Visited {
    type V = Set<Seq<char>>;

    /// The keys in the set.
    closed spec fn view(&self) -> Set<Seq<char>> {
        self.key_views().to_set()
    }
}

impl Visited {
    /// The keys in the order in which they came.
    pub closed spec fn key_views(&self) -> Seq<Seq<char>> {
        self.keys@.map_values(|key: String| key@)
    }

    /// No key is held twice, every place filed in the index is the place of a
    /// key with that number, and the place of every key is filed under its
    /// number.
    #[verifier::opaque]
    pub closed spec fn wf(&self) -> bool {
        &&& self.key_views().no_duplicates()
        &&& forall|h: u64, p: int|
            #![trigger self.index@[h]@[p]]
            self.index@.contains_key(h) && 0 <= p < self.index@[h]@.len() ==> {
                &&& self.index@[h]@[p] < self.keys@.len()
                &&& hash_key(self.keys@[self.index@[h]@[p] as int]@) == h
            }
        &&& forall|i: int| 0 <= i < self.keys@.len() ==> #[trigger] self.is_filed(i)
    }

    /// The place `i` is filed under the number of the key held there.
    closed spec fn is_filed(&self, i: int) -> bool {
        &&& self.index@.contains_key(hash_key(self.keys@[i]@))
        &&& self.index@[hash_key(self.keys@[i]@)]@.contains(i as usize)
    }

    /// The set is finite, and it has as many keys as `keys` is long.
    proof fn lemma_len(&self)
        requires
            self.wf(),
        ensures
            self@.finite(),
            self@.len() == self.keys@.len(),
    {
        reveal(Visited::wf);
        self.key_views().unique_seq_to_set();
        vstd::seq_lib::seq_to_set_is_finite(self.key_views());
    }

    /// A key is in the set exactly if it is held at some place.
    proof fn lemma_contains(&self, key: Seq<char>)
        ensures
            self@.contains(key) <==> exists|i: int|
                0 <= i < self.keys@.len() && #[trigger] self.keys@[i]@ == key,
    {
        let views = self.key_views();
        if self@.contains(key) {
            let i = choose|i: int| 0 <= i < views.len() && views[i] == key;
            assert(self.keys@[i]@ == key);
        }
        if exists|i: int| 0 <= i < self.keys@.len() && #[trigger] self.keys@[i]@ == key {
            let i = choose|i: int| 0 <= i < self.keys@.len() && #[trigger] self.keys@[i]@ == key;
            assert(views[i] == key);
        }
    }

    /// The empty set.
    pub fn new() -> (visited: Visited)
        ensures
            visited.wf(),
            visited@ == Set::<Seq<char>>::empty(),
    {
        let visited = Visited { keys: Vec::new(), index: HashMap::new() };
        reveal(Visited::wf);
        assert(visited.key_views() =~= Seq::<Seq<char>>::empty());
        assert(visited@ =~= Set::<Seq<char>>::empty());
        visited
    }

    /// How many keys the set has.
    pub fn len(&self) -> (len: usize)
        requires
            self.wf(),
        ensures
            self@.finite(),
            len == self@.len(),
    {
        proof {
            self.lemma_len();
        }
        self.keys.len()
    }

    /// The number that `key` is filed under.
    fn number_of(key: &String) -> (h: u64)
        ensures
            h == hash_key(key@),
    {
        let bytes: &[u8] = key.as_str().as_bytes();
        let mut h: u64 = 0xcbf2_9ce4_8422_2325u64;
        let mut i: usize = 0;
        while i < bytes.len()
            invariant
                i <= bytes@.len(),
                h == hash_bytes(bytes@.take(i as int)),
            decreases bytes@.len() - i,
        {
            assert(bytes@.take(i + 1).drop_last() == bytes@.take(i as int));
            h = (h ^ (bytes[i] as u64)).wrapping_mul(0x0000_0100_0000_01b3u64);
            i += 1;
        }
        assert(bytes@.take(i as int) == bytes@);
        h
    }

    /// A key that is held at none of the places filed under its number is not
    /// in the set.
    proof fn lemma_absent(&self, key: Seq<char>)
        requires
            self.wf(),
            self.index@.contains_key(hash_key(key)) ==> forall|q: int|
                0 <= q < self.index@[hash_key(key)]@.len() ==> self.keys@[#[trigger] self.index@[hash_key(
                    key,
                )]@[q] as int]@ != key,
        ensures
            !self@.contains(key),
    {
        reveal(Visited::wf);
        self.lemma_contains(key);
        if self@.contains(key) {
            let i = choose|i: int| 0 <= i < self.keys@.len() && #[trigger] self.keys@[i]@ == key;
            assert(self.is_filed(i));
            assert(self.keys.len() == self.keys@.len());
            let places = self.index@[hash_key(key)]@;
            let q = places.index_of(i as usize);
            assert(places[q] as int == i);
        }
    }

    /// A place filed in the index is the place of a key.
    proof fn lemma_place(&self, h: u64, p: int)
        requires
            self.wf(),
            self.index@.contains_key(h),
            0 <= p < self.index@[h]@.len(),
        ensures
            self.index@[h]@[p] < self.keys@.len(),
    {
        reveal(Visited::wf);
    }

    /// Whether `key` is in the set.
    pub fn contains(&self, key: &String) -> (found: bool)
        requires
            self.wf(),
        ensures
            found == self@.contains(key@),
    {
        let h: u64 = Visited::number_of(key);
        match self.index.get(&h) {
            None => {
                proof {
                    self.lemma_absent(key@);
                }
                false
            },
            Some(places) => {
                let mut p: usize = 0;
                while p < places.len()
                    invariant
                        self.wf(),
                        h == hash_key(key@),
                        self.index@.contains_key(h),
                        self.index@[h] == *places,
                        p <= places@.len(),
                        forall|q: int|
                            0 <= q < p ==> self.keys@[#[trigger] places@[q] as int]@ != key@,
                    decreases places@.len() - p,
                {
                    let place: usize = places[p];
                    proof {
                        self.lemma_place(h, p as int);
                    }
                    if self.keys[place] == *key {
                        proof {
                            self.lemma_contains(key@);
                            assert(self.keys@[place as int]@ == key@);
                        }
                        return true;
                    }
                    p += 1;
                }
                proof {
                    self.lemma_absent(key@);
                }
                false
            },
        }
    }

    /// Puts `key` into the set and says whether it was new.
    pub fn insert(&mut self, key: String) -> (added: bool)
        requires
            old(self).wf(),
        ensures
            final(self).wf(),
            final(self)@ == old(self)@.insert(key@),
            added == !old(self)@.contains(key@),
    {
        if self.contains(&key) {
            assert(self@.insert(key@) =~= self@);
            return false;
        }
        let h: u64 = Visited::number_of(&key);
        let place: usize = self.keys.len();
        let ghost before = *self;
        proof {
            reveal(Visited::wf);
            before.lemma_contains(key@);
            assert(forall|i: int| 0 <= i < place ==> before.keys@[i]@ != key@);
        }
        let mut places: Vec<usize> = match self.index.remove(&h) {
            Some(places) => places,
            None => Vec::new(),
        };
        let ghost old_places = places@;
        places.push(place);
        self.index.insert(h, places);
        self.keys.push(key);
        proof {
            let views = self.key_views();
            assert(views =~= before.key_views().push(key@));
            assert(views.no_duplicates()) by {
                assert forall|i: int, j: int|
                    0 <= i < views.len() && 0 <= j < views.len() && i != j implies views[i]
                    != views[j] by {
                    if i < place && j < place {
                        assert(before.key_views()[i] != before.key_views()[j]);
                    } else if i < place {
                        assert(before.keys@[i]@ != key@);
                    } else {
                        assert(before.keys@[j]@ != key@);
                    }
                }
            }
            assert forall|g: u64, p: int|
                #![trigger self.index@[g]@[p]]
                self.index@.contains_key(g) && 0 <= p < self.index@[g]@.len() implies {
                &&& self.index@[g]@[p] < self.keys@.len()
                &&& hash_key(self.keys@[self.index@[g]@[p] as int]@) == g
            } by {
                if g == h {
                    if p < old_places.len() {
                        assert(before.index@[h]@[p] == old_places[p]);
                    }
                } else {
                    assert(before.index@[g]@[p] == self.index@[g]@[p]);
                }
            }
            assert forall|i: int| 0 <= i < self.keys@.len() implies #[trigger] self.is_filed(
                i,
            ) by {
                if i < place {
                    let g = hash_key(before.keys@[i]@);
                    assert(before.is_filed(i));
                    if g == h {
                        let q = old_places.index_of(i as usize);
                        assert(self.index@[h]@[q] == i as usize);
                    }
                } else {
                    assert(self.index@[h]@[old_places.len() as int] == place);
                }
            }
            assert(self@ =~= before@.insert(key@)) by {
                assert forall|k: Seq<char>| self@.contains(k) <==> before@.insert(
                    key@,
                ).contains(k) by {
                    self.lemma_contains(k);
                    before.lemma_contains(k);
                    if before@.contains(k) {
                        let i = choose|i: int|
                            0 <= i < before.keys@.len() && #[trigger] before.keys@[i]@ == k;
                        assert(self.keys@[i]@ == k);
                    }
                    if k == key@ {
                        assert(self.keys@[place as int]@ == k);
                    }
                    if self@.contains(k) {
                        let i = choose|i: int|
                            0 <= i < self.keys@.len() && #[trigger] self.keys@[i]@ == k;
                        if i < place {
                            assert(before.keys@[i]@ == k);
                        }
                    }
                }
            }
        }
        true
    }
}

} // verus!
