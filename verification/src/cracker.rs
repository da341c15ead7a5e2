//! What a worker keeps of the document: its bytes, and the results of work
//! on the document's objects that is done once and used again.

use vstd::prelude::*;
use std::collections::hash_map::HashMap;

verus! {

/// The bytes of the document whose password is sought.
pub struct PDFCracker(Vec<u8>);

impl View for PDFCracker {
    type V = Seq<u8>;

    closed spec fn view(&self) -> Seq<u8> {
        self.0@
    }
}

impl PDFCracker {
    /// Keeps the bytes of a document.
    pub fn from_bytes(bytes: Vec<u8>) -> (cracker: PDFCracker)
        ensures
            cracker@ == bytes@,
    {
        PDFCracker(bytes)
    }

    /// The bytes of the document.
    pub fn bytes(&self) -> (bytes: &Vec<u8>)
        ensures
            bytes@ == self@,
    {
        &self.0
    }
}

impl Clone for PDFCracker {
    fn clone(&self) -> (copy: PDFCracker)
        ensures
            copy@ == self@,
    {
        PDFCracker(self.0.clone())
    }
}

/// The key under which the object with number `id` and generation `gen`
/// is kept. Different objects have different keys.
pub open spec fn key_of(id: u64, gen: u64) -> u128 {
    (id * 0x1_0000_0000_0000_0000 + gen) as u128
}

/// Different objects have different keys.
pub proof fn lemma_key_of_injective(id1: u64, gen1: u64, id2: u64, gen2: u64)
    requires
        key_of(id1, gen1) == key_of(id2, gen2),
    ensures
        id1 == id2,
        gen1 == gen2,
{
}

/// A store of results by object: what was computed for an object once is
/// handed out again, and not computed a second time.
pub struct SimpleCache<T> {
    entries: HashMap<u128, T>,
}

impl<T: Clone> SimpleCache<T> {
    /// The results that are kept, by key.
    pub closed spec fn view(&self) -> Map<u128, T> {
        self.entries@
    }

    /// A store that holds nothing.
    pub fn new() -> (cache: SimpleCache<T>)
        ensures
            cache@ == Map::<u128, T>::empty(),
    {
        SimpleCache { entries: HashMap::new() }
    }

    /// The result for the object `(id, gen)`. Where one is kept, a copy of
    /// it is handed out and `compute` is not called. Where none is kept,
    /// `compute` is called, a copy of what it gives is kept, and what it
    /// gives is handed out.
    pub fn get_or_compute<F: FnOnce() -> T>(&mut self, id: u64, gen: u64, compute: F) -> (value: T)
        requires
            compute.requires(()),
        ensures
            old(self)@.contains_key(key_of(id, gen)) ==> {
                &&& final(self)@ == old(self)@
                &&& cloned(old(self)@[key_of(id, gen)], value)
            },
            !old(self)@.contains_key(key_of(id, gen)) ==> {
                &&& compute.ensures((), value)
                &&& final(self)@.contains_key(key_of(id, gen))
                &&& cloned(value, final(self)@[key_of(id, gen)])
                &&& final(self)@.remove(key_of(id, gen)) == old(self)@
            },
    {
        let key: u128 = (id as u128) * 0x1_0000_0000_0000_0000u128 + (gen as u128);
        broadcast use vstd::std_specs::hash::group_hash_axioms;

        match self.entries.get(&key) {
            Some(kept) => kept.clone(),
            None => {
                let value: T = compute();
                let copy: T = value.clone();
                self.entries.insert(key, copy);
                assert(self@.remove(key) =~= old(self)@);
                value
            },
        }
    }
}

} // verus!
