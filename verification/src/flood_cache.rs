//! Flood results kept per bucket of requests.

use crate::queries::FloodKey;
use std::collections::HashMap;
use vstd::prelude::*;

verus! {

/// Results by the key of their bucket.
#[derive(Debug)]
pub struct FloodCache<T> {
    results: HashMap<u128, T>,
}

/// A key as one number.
spec fn spec_packed(key: FloodKey) -> u128 {
    ((key.0 + 0x8000_0000) * 0x1_0000_0000_0000_0000 + (key.1 + 0x8000_0000) * 0x1_0000_0000 + (
    key.2 + 0x8000_0000)) as u128
}

/// A key as one number.
#[verifier::when_used_as_spec(spec_packed)]
fn packed(key: FloodKey) -> (r: u128)
    ensures
        r == packed(key),
{
    let a: i128 = key.0 as i128 + 0x8000_0000;
    let b: i128 = key.1 as i128 + 0x8000_0000;
    let c: i128 = key.2 as i128 + 0x8000_0000;
    (a * 0x1_0000_0000_0000_0000 + b * 0x1_0000_0000 + c) as u128
}

/// Different keys are different numbers.
proof fn lemma_packed(a: FloodKey, b: FloodKey)
    requires
        packed(a) == packed(b),
    ensures
        a == b,
{
}

impl<T> View for FloodCache<T> {
    type V = Map<FloodKey, T>;

    /// The results by their keys.
    closed spec fn view(&self) -> Map<FloodKey, T> {
        Map::new(
            |k: FloodKey| self.results@.contains_key(packed(k)),
            |k: FloodKey| self.results@[packed(k)],
        )
    }
}

impl<T> FloodCache<T> {
    /// A cache without results.
    pub fn new() -> (r: Self)
        ensures
            r@ == Map::<FloodKey, T>::empty(),
    {
        let r = FloodCache { results: HashMap::new() };
        assert(r@ =~= Map::<FloodKey, T>::empty());
        r
    }

    /// The result of a bucket, if there is one.
    pub fn get(&self, key: FloodKey) -> (r: Option<&T>)
        ensures
            match r {
                Some(t) => self@.contains_key(key) && *t == self@[key],
                None => !self@.contains_key(key),
            },
    {
        broadcast use vstd::std_specs::hash::group_hash_axioms;

        let number: u128 = packed(key);
        self.results.get(&number)
    }

    /// Keeps a result for a bucket, in place of the one that was there.
    pub fn insert(&mut self, key: FloodKey, result: T)
        ensures
            final(self)@ == old(self)@.insert(key, result),
    {
        broadcast use vstd::std_specs::hash::group_hash_axioms;

        let ghost before = *self;
        self.results.insert(packed(key), result);
        proof {
            assert forall|k: FloodKey| packed(k) == packed(key) implies k == key by {
                lemma_packed(k, key);
            }
            assert(self@ =~= before@.insert(key, result));
        }
    }
}

} // verus!
