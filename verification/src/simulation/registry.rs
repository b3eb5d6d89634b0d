use slotmap::SlotMap;
use vstd::prelude::*;

use crate::religion::{Religion, ReligionKey};

verus! {

/// The living religions, held in a `slotmap::SlotMap` that hands out a fresh
/// key for every religion inserted.
#[verifier::external_body]
pub struct ReligionSlots {
    map: SlotMap<ReligionKey, Religion>,
}

/// What the slot map holds: each live key with its religion.
pub uninterp spec fn religions_in(m: ReligionSlots) -> Map<ReligionKey, Religion>;

/// The live keys of the slot map in the order it walks its slots, which is
/// fixed by the slot map's state.
pub uninterp spec fn key_order(m: ReligionSlots) -> Seq<ReligionKey>;

impl ReligionSlots {
    /// `SlotMap::with_key`: an empty slot map.
    #[verifier::external_body]
    pub(crate) fn with_key() -> (r: ReligionSlots)
        ensures
            religions_in(r).dom() == Set::<ReligionKey>::empty(),
    {
        ReligionSlots { map: SlotMap::with_key() }
    }

    /// `SlotMap::insert`: stores `value` under a key that is not live, and
    /// returns that key. The slot map panics once it holds
    /// `u32::MAX - 1` values, so fewer are required.
    #[verifier::external_body]
    pub(crate) fn insert(&mut self, value: Religion) -> (r: ReligionKey)
        requires
            religions_in(*old(self)).dom().finite(),
            religions_in(*old(self)).len() < u32::MAX - 1,
        ensures
            !religions_in(*old(self)).dom().contains(r),
            religions_in(*final(self)) == religions_in(*old(self)).insert(r, value),
    {
        self.map.insert(value)
    }

    /// `SlotMap::remove`: takes out the religion under `key`, if there is one.
    #[verifier::external_body]
    pub(crate) fn remove(&mut self, key: ReligionKey) -> (r: Option<Religion>)
        ensures
            religions_in(*old(self)).dom().contains(key) ==> r == Some(
                religions_in(*old(self))[key],
            ) && religions_in(*final(self)) == religions_in(*old(self)).remove(key),
            !religions_in(*old(self)).dom().contains(key) ==> r is None && religions_in(
                *final(self),
            ) == religions_in(*old(self)),
    {
        self.map.remove(key)
    }

    /// `SlotMap::get`: the religion under `key`, if there is one.
    #[verifier::external_body]
    pub(crate) fn get(&self, key: ReligionKey) -> (r: Option<&Religion>)
        ensures
            religions_in(*self).dom().contains(key) ==> r == Some(&religions_in(*self)[key]),
            !religions_in(*self).dom().contains(key) ==> r is None,
    {
        self.map.get(key)
    }

    /// `SlotMap::keys`, collected: every live key, once each, in the order
    /// the slot map walks its slots.
    #[verifier::external_body]
    pub(crate) fn keys(&self) -> (r: Vec<ReligionKey>)
        ensures
            r@ == key_order(*self),
            r@.no_duplicates(),
            forall|k: ReligionKey| religions_in(*self).dom().contains(k) <==> r@.contains(k),
    {
        self.map.keys().collect()
    }

    /// `IndexMut::index_mut` of the slot map under `key`, swapped with
    /// `value` by `core::mem::replace`: the religion that was there comes
    /// back and `value` takes its place under the same key. Indexing panics
    /// on a key that is not live, so the key is required to be live.
    #[verifier::external_body]
    pub(crate) fn replace(&mut self, key: ReligionKey, value: Religion) -> (r: Religion)
        requires
            religions_in(*old(self)).dom().contains(key),
        ensures
            r == religions_in(*old(self))[key],
            religions_in(*final(self)) == religions_in(*old(self)).insert(key, value),
    {
        core::mem::replace(&mut self.map[key], value)
    }
}

/// `PartialEq::eq` of two keys, which `slotmap` derives: the keys are equal
/// exactly when they are the same key.
#[verifier::external_body]
pub(crate) fn keys_equal(a: ReligionKey, b: ReligionKey) -> (r: bool)
    ensures
        r == (a == b),
{
    a == b
}

} // verus!
