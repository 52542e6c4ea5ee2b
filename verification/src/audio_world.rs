//! The source bookkeeping of the spatial audio world: which renderer source
//! each entity plays through, which entities have a transform, and the
//! cached list of entity keys that the per-frame update walks.
use std::collections::{HashMap, HashSet};
use vstd::prelude::*;

verus! {

/// Entity keys and the renderer sources they play through, and the entities
/// that have a transform. Adding a source for an entity that has one
/// replaces it and caches the key again; removing it drops the first cached
/// occurrence of the key by moving the last key into its place.
pub struct SourceRegistry {
    sources: HashMap<u32, i32>,
    transforms: HashSet<u32>,
    active_source_keys: Vec<u32>,
}

/// `keys` with entry `i` removed by moving the last entry into its place.
pub open spec fn swap_removed(keys: Seq<u32>, i: int) -> Seq<u32> {
    keys.update(i, keys.last()).drop_last()
}

/// The first position of `k` in `keys`.
pub open spec fn first_position(keys: Seq<u32>, k: u32) -> int
    decreases keys.len(),
{
    if keys.len() == 0 {
        0
    } else if keys[0] == k {
        0
    } else {
        1 + first_position(keys.drop_first(), k)
    }
}

/// What the update visits, in order: each cached key that has both a source
/// and a transform, with that source.
pub open spec fn update_plan(map: Map<u32, i32>, placed: Set<u32>, keys: Seq<u32>) -> Seq<(u32, i32)>
    decreases keys.len(),
{
    if keys.len() == 0 {
        Seq::empty()
    } else {
        let rest = update_plan(map, placed, keys.drop_last());
        let k = keys.last();
        if map.dom().contains(k) && placed.contains(k) {
            rest.push((k, map[k]))
        } else {
            rest
        }
    }
}

proof fn lemma_first_position(keys: Seq<u32>, k: u32)
    requires
        keys.contains(k),
    ensures
        0 <= first_position(keys, k) < keys.len(),
        keys[first_position(keys, k)] == k,
        forall|j: int| 0 <= j < first_position(keys, k) ==> keys[j] != k,
    decreases keys.len(),
{
    if keys[0] != k {
        let i = choose|i: int| 0 <= i < keys.len() && keys[i] == k;
        assert(keys.drop_first()[i - 1] == k);
        lemma_first_position(keys.drop_first(), k);
        assert forall|j: int| 0 <= j < first_position(keys, k) implies keys[j] != k by {
            if j > 0 {
                assert(keys[j] == keys.drop_first()[j - 1]);
            }
        }
    }
}

impl SourceRegistry {
    /// The source of each entity that has one.
    pub closed spec fn sources(&self) -> Map<u32, i32> {
        self.sources@
    }

    /// The cached keys, in update order.
    pub closed spec fn keys(&self) -> Seq<u32> {
        self.active_source_keys@
    }

    /// The entities that have a transform.
    pub closed spec fn placed(&self) -> Set<u32> {
        self.transforms@
    }

    pub fn new() -> (r: Self)
        ensures
            r.sources() == Map::<u32, i32>::empty(),
            r.placed() == Set::<u32>::empty(),
            r.keys() == Seq::<u32>::empty(),
    {
        SourceRegistry { sources: HashMap::new(), transforms: HashSet::new(), active_source_keys: Vec::new() }
    }

    /// Record that `entity` has a transform.
    pub fn add_transform(&mut self, entity: u32)
        ensures
            final(self).placed() == old(self).placed().insert(entity),
            final(self).sources() == old(self).sources(),
            final(self).keys() == old(self).keys(),
    {
        broadcast use vstd::std_specs::hash::group_hash_axioms;
        self.transforms.insert(entity);
    }

    /// Whether `entity` has a transform.
    pub fn has_transform(&self, entity: u32) -> (r: bool)
        ensures
            r == self.placed().contains(entity),
    {
        broadcast use vstd::std_specs::hash::group_hash_axioms;
        self.transforms.contains(&entity)
    }

    /// The source that `entity` plays through.
    pub fn source_of(&self, entity: u32) -> (r: Option<i32>)
        ensures
            r == (if self.sources().dom().contains(entity) {
                Some(self.sources()[entity])
            } else {
                None
            }),
    {
        broadcast use vstd::std_specs::hash::group_hash_axioms;
        match self.sources.get(&entity) {
            Some(s) => Some(*s),
            None => None,
        }
    }

    /// Record that `entity` plays through `source_id` and cache its key.
    pub fn add_audio_source(&mut self, entity: u32, source_id: i32)
        ensures
            final(self).sources() == old(self).sources().insert(entity, source_id),
            final(self).placed() == old(self).placed(),
            final(self).keys() == old(self).keys().push(entity),
    {
        broadcast use vstd::std_specs::hash::group_hash_axioms;
        self.sources.insert(entity, source_id);
        self.active_source_keys.push(entity);
    }

    /// Forget the source of `entity` and drop the first cached occurrence of
    /// its key; returns the source, which the renderer should destroy.
    pub fn remove_audio_source(&mut self, entity: u32) -> (r: Option<i32>)
        ensures
            r == (if old(self).sources().dom().contains(entity) {
                Some(old(self).sources()[entity])
            } else {
                None
            }),
            final(self).sources() == old(self).sources().remove(entity),
            final(self).placed() == old(self).placed(),
            final(self).keys() == if r is Some && old(self).keys().contains(entity) {
                swap_removed(old(self).keys(), first_position(old(self).keys(), entity))
            } else {
                old(self).keys()
            },
    {
        broadcast use vstd::std_specs::hash::group_hash_axioms;
        match self.sources.remove(&entity) {
            None => None,
            Some(removed) => {
                let keys_len = self.active_source_keys.len();
                let mut p: usize = 0;
                while p < keys_len && self.active_source_keys[p] != entity
                    invariant
                        keys_len == self.active_source_keys@.len(),
                        p <= keys_len,
                        forall|j: int| 0 <= j < p ==> self.active_source_keys@[j] != entity,
                    decreases keys_len - p,
                {
                    p = p + 1;
                }
                proof {
                    let keys = old(self).keys();
                    if keys.contains(entity) {
                        lemma_first_position(keys, entity);
                        assert(p < keys_len);
                        assert(p == first_position(keys, entity));
                    } else {
                        if p < keys_len {
                            assert(keys[p as int] == entity);
                        }
                    }
                }
                if p < keys_len {
                    let ghost before = self.active_source_keys@;
                    self.active_source_keys.swap_remove(p);
                    assert(self.active_source_keys@ =~= swap_removed(before, p as int));
                }
                Some(removed)
            },
        }
    }

    /// The cached keys that have a source and a transform, in cache order,
    /// with their sources: what the per-frame update visits.
    pub fn update_plan(&self) -> (plan: Vec<(u32, i32)>)
        ensures
            plan@ == update_plan(self.sources(), self.placed(), self.keys()),
            forall|i: int|
                0 <= i < self.keys().len() && self.sources().dom().contains(#[trigger] self.keys()[i])
                    && self.placed().contains(self.keys()[i]) ==> plan@.contains(
                    (self.keys()[i], self.sources()[self.keys()[i]]),
                ),
            forall|j: int|
                0 <= j < plan@.len() ==> {
                    let (k, s) = #[trigger] plan@[j];
                    &&& self.keys().contains(k)
                    &&& self.sources().dom().contains(k)
                    &&& self.placed().contains(k)
                    &&& s == self.sources()[k]
                },
    {
        proof {
            lemma_update_visits(self.sources(), self.placed(), self.keys());
        }
        let ghost keys = self.active_source_keys@;
        let mut plan: Vec<(u32, i32)> = Vec::new();
        let mut i: usize = 0;
        while i < self.active_source_keys.len()
            invariant
                keys == self.active_source_keys@,
                i <= keys.len(),
                plan@ == update_plan(self.sources(), self.placed(), keys.subrange(0, i as int)),
            decreases keys.len() - i,
        {
            let k = self.active_source_keys[i];
            assert(keys.subrange(0, i + 1).drop_last() =~= keys.subrange(0, i as int));
            assert(keys.subrange(0, i + 1).last() == k);
            match self.source_of(k) {
                Some(s) => {
                    if self.has_transform(k) {
                        plan.push((k, s));
                    }
                },
                None => {},
            }
            i = i + 1;
        }
        assert(keys.subrange(0, keys.len() as int) =~= keys);
        plan
    }
}

/// The per-frame update visits every cached key that has a source and a
/// transform, with that source, whatever its value; and it visits nothing
/// else.
pub proof fn lemma_update_visits(map: Map<u32, i32>, placed: Set<u32>, keys: Seq<u32>)
    ensures
        forall|i: int|
            0 <= i < keys.len() && map.dom().contains(#[trigger] keys[i]) && placed.contains(keys[i])
                ==> update_plan(map, placed, keys).contains((keys[i], map[keys[i]])),
        forall|j: int|
            0 <= j < update_plan(map, placed, keys).len() ==> {
                let (k, s) = #[trigger] update_plan(map, placed, keys)[j];
                &&& keys.contains(k)
                &&& map.dom().contains(k)
                &&& placed.contains(k)
                &&& s == map[k]
            },
    decreases keys.len(),
{
    if keys.len() > 0 {
        let d = keys.drop_last();
        lemma_update_visits(map, placed, d);
        let rest = update_plan(map, placed, d);
        let all = update_plan(map, placed, keys);
        let k = keys.last();
        assert forall|i: int|
            0 <= i < keys.len() && map.dom().contains(#[trigger] keys[i]) && placed.contains(keys[i]) implies all.contains(
            (keys[i], map[keys[i]]),
        ) by {
            if i < keys.len() - 1 {
                assert(keys[i] == d[i]);
                let j = choose|j: int| 0 <= j < rest.len() && rest[j] == (d[i], map[d[i]]);
                assert(all[j] == rest[j]);
            } else {
                assert(all[all.len() - 1] == (k, map[k]));
            }
        }
        assert forall|j: int| 0 <= j < all.len() implies {
            let (k2, s2) = #[trigger] all[j];
            &&& keys.contains(k2)
            &&& map.dom().contains(k2)
            &&& placed.contains(k2)
            &&& s2 == map[k2]
        } by {
            if j < rest.len() {
                assert(all[j] == rest[j]);
                let (k2, s2) = rest[j];
                assert(d.contains(k2));
                let i = choose|i: int| 0 <= i < d.len() && d[i] == k2;
                assert(keys[i] == d[i]);
            } else {
                assert(keys[keys.len() - 1] == k);
            }
        }
    }
}

/// Removing a source drops exactly one cached occurrence of its key when
/// there is one, and keeps every other key cached as often as before.
pub proof fn lemma_remove_drops_one_key(keys: Seq<u32>, entity: u32)
    requires
        keys.contains(entity),
    ensures
        swap_removed(keys, first_position(keys, entity)).to_multiset() == keys.to_multiset().remove(entity),
{
    broadcast use vstd::seq_lib::group_to_multiset_ensures;
    lemma_first_position(keys, entity);
    let i = first_position(keys, entity);
    let last = keys.last();
    let r = keys.remove(i);
    vstd::seq_lib::to_multiset_remove(keys, i);
    if i == keys.len() - 1 {
        assert(swap_removed(keys, i) =~= r);
    } else {
        let s = swap_removed(keys, i);
        let r2 = r.drop_last().insert(i, last);
        assert(s =~= r2);
        assert(r.drop_last().push(last) =~= r);
        vstd::seq_lib::to_multiset_insert(r.drop_last(), i, last);
        vstd::seq_lib::to_multiset_build(r.drop_last(), last);
    }
}

} // verus!
