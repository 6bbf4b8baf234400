//! A sparse table of per-entity component values, ordered by entity.
use std::collections::{BTreeMap, BTreeSet};
use vstd::prelude::*;
use vstd::std_specs::btree::{spec_btree_keys_iter, spec_keys_iter};
use vstd::std_specs::cmp::OrdSpec;
use vstd::std_specs::iter::IteratorSpec;

use crate::common::{Delete, Duplicate};
use crate::Entity;

verus! {

broadcast use {vstd::std_specs::btree::group_btree_axioms, vstd::laws_cmp::group_laws_cmp};

/// Whether `s` holds its entities in strictly increasing order.
pub open spec fn strictly_increasing(s: Seq<Entity>) -> bool {
    forall|i: int, j: int| 0 <= i < j < s.len() ==> s[i] < s[j]
}

/// The entities of a set, in increasing order.
pub fn sorted_members(s: &BTreeSet<Entity>) -> (r: Vec<Entity>)
    ensures
        r@.to_set() == s@,
        r@.no_duplicates(),
        strictly_increasing(r@),
{
    let ghost keys = spec_btree_keys_iter(s).remaining();
    let mut r: Vec<Entity> = Vec::new();
    for x in it: s.iter()
        invariant
            it.seq() == keys,
            r@ == keys.take(it.index() as int).unref(),
    {
        r.push(*x);
        assert(r@ =~= keys.take(it.index() + 1).unref());
    }
    assert(r@ =~= keys.unref());
    assert(vstd::laws_cmp::obeys_cmp::<&Entity>());
    assert(vstd::std_specs::btree::increasing_seq(keys));
    proof { vstd::std_specs::btree::axiom_increasing_seq_meaning(keys); }
    assert(strictly_increasing(r@)) by {
        assert forall|i: int, j: int| 0 <= i < j < r@.len() implies r@[i] < r@[j] by {
            assert(<&Entity as OrdSpec>::cmp_spec(&keys[i], &keys[j]) is Less);
        }
    }
    r
}

/// The table `m` after copying the value of `src`, if any, to `dst`.
pub open spec fn copied_entry<V>(m: Map<Entity, V>, src: Entity, dst: Entity) -> Map<Entity, V> {
    if m.contains_key(src) {
        m.insert(dst, m[src])
    } else {
        m
    }
}

/// Relies on `BTreeMap::get_mut`: a mutable reference to the value under
/// `key` when there is one; writes through it land in the map.
#[verifier::external_body]
fn map_get_mut<'a, V>(m: &'a mut BTreeMap<Entity, V>, key: Entity) -> (r: Option<&'a mut V>)
    ensures
        match r {
            Some(v) => old(m)@.contains_key(key) && *v == old(m)@[key] && final(m)@ == old(m)@.insert(
                key,
                *final(v),
            ),
            None => !old(m)@.contains_key(key) && final(m)@ == old(m)@,
        },
{
    m.get_mut(&key)
}

/// A sparse mapping from entity to a component value of type `V`.
/// Keys are unique; `keys` lists them in increasing order.
pub struct Table<V> {
    map: BTreeMap<Entity, V>,
}

impl<V> View for Table<V> {
    type V = Map<Entity, V>;

    closed spec fn view(&self) -> Map<Entity, V> {
        self.map@
    }
}

impl<V> Table<V> {
    /// An empty table.
    pub fn new() -> (r: Self)
        ensures
            r@ == Map::<Entity, V>::empty(),
    {
        Table { map: BTreeMap::new() }
    }

    /// The number of entities that hold a value.
    pub fn len(&self) -> (r: usize)
        ensures
            r == self@.len(),
            self@.dom().finite(),
    {
        self.map.len()
    }

    /// Whether `key` holds a value.
    pub fn contains(&self, key: Entity) -> (r: bool)
        ensures
            r == self@.contains_key(key),
    {
        self.map.contains_key(&key)
    }

    /// The value held under `key`, if any.
    pub fn get(&self, key: Entity) -> (r: Option<&V>)
        ensures
            match r {
                Some(v) => self@.contains_key(key) && *v == self@[key],
                None => !self@.contains_key(key),
            },
    {
        self.map.get(&key)
    }

    /// The value held under `key`, if any, to change in place.
    pub fn get_mut(&mut self, key: Entity) -> (r: Option<&mut V>)
        ensures
            match r {
                Some(v) => old(self)@.contains_key(key) && *v == old(self)@[key] && final(self)@
                    == old(self)@.insert(key, *final(v)),
                None => !old(self)@.contains_key(key) && final(self)@ == old(self)@,
            },
    {
        map_get_mut(&mut self.map, key)
    }

    /// Stores `value` under `key`, replacing and returning what was there.
    pub fn insert(&mut self, key: Entity, value: V) -> (r: Option<V>)
        ensures
            final(self)@ == old(self)@.insert(key, value),
            match r {
                Some(v) => old(self)@.contains_key(key) && v == old(self)@[key],
                None => !old(self)@.contains_key(key),
            },
    {
        self.map.insert(key, value)
    }

    /// Removes the value under `key`; returns whether there was one.
    pub fn remove(&mut self, key: Entity) -> (r: bool)
        ensures
            final(self)@ == old(self)@.remove(key),
            r == old(self)@.contains_key(key),
    {
        self.map.remove(&key).is_some()
    }

    /// Removes the value under `key` and hands it back.
    pub fn take(&mut self, key: Entity) -> (r: Option<V>)
        ensures
            final(self)@ == old(self)@.remove(key),
            match r {
                Some(v) => old(self)@.contains_key(key) && v == old(self)@[key],
                None => !old(self)@.contains_key(key),
            },
    {
        self.map.remove(&key)
    }

    /// The entities that hold a value, in increasing order.
    pub fn keys(&self) -> (r: Vec<Entity>)
        ensures
            r@.to_set() == self@.dom(),
            r@.no_duplicates(),
            strictly_increasing(r@),
    {
        let ghost keys = spec_keys_iter(&self.map).remaining();
        let mut r: Vec<Entity> = Vec::new();
        for x in it: self.map.keys()
            invariant
                it.seq() == keys,
                r@ == keys.take(it.index() as int).unref(),
        {
            r.push(*x);
            assert(r@ =~= keys.take(it.index() + 1).unref());
        }
        assert(r@ =~= keys.unref());
        assert(vstd::laws_cmp::obeys_cmp::<&Entity>());
        assert(vstd::std_specs::btree::increasing_seq(keys));
        proof { vstd::std_specs::btree::axiom_increasing_seq_meaning(keys); }
        assert(strictly_increasing(r@)) by {
            assert forall|i: int, j: int| 0 <= i < j < r@.len() implies r@[i] < r@[j] by {
                assert(<&Entity as OrdSpec>::cmp_spec(&keys[i], &keys[j]) is Less);
            }
        }
        r
    }
}

impl<V: Copy> Duplicate for Table<V> {
    /// Copies the value of `src`, if any, to `dst`. Values are copied by
    /// value, so the two entries never share anything.
    fn duplicate(&mut self, src: Entity, dst: Entity)
        ensures
            final(self)@ == copied_entry(old(self)@, src, dst),
    {
        match self.map.get(&src) {
            Some(v) => {
                let x = *v;
                self.map.insert(dst, x);
            },
            None => {},
        }
    }
}

impl<V> Delete for Table<V> {
    /// Removes the value of `oid`; returns whether there was one.
    fn delete(&mut self, oid: Entity) -> (r: bool)
        ensures
            final(self)@ == old(self)@.remove(oid),
            r == old(self)@.contains_key(oid),
    {
        self.remove(oid)
    }
}

/// A copied entry equals its source, and later writes to the source
/// leave the copy as it was.
pub proof fn lemma_copy_is_independent<V>(m: Map<Entity, V>, src: Entity, dst: Entity, w: V)
    requires
        m.contains_key(src),
        src != dst,
    ensures
        copied_entry(m, src, dst).contains_key(dst),
        copied_entry(m, src, dst)[dst] == m[src],
        copied_entry(m, src, dst).insert(src, w)[dst] == m[src],
{
}

impl<V: Clone> Clone for Table<V> {
    /// An independent table holding the same values.
    fn clone(&self) -> (r: Self)
        ensures
            r@ == self@,
    {
        Table { map: self.map.clone() }
    }
}

} // verus!
