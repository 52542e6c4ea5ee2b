//! The bookkeeping of world loading: the map from the string ids of a world
//! description to the entities spawned for them, and the parenting step that
//! follows spawning.
use vstd::prelude::*;

verus! {

/// Map from the string ids of a world description to entity handles. A
/// later insertion under the same id replaces the earlier one.
pub struct EntityIdMap {
    entries: Vec<(String, u64)>,
}

/// What the parenting step does for one entity description that names a
/// parent.
#[derive(Debug, Clone, Copy, PartialEq, Eq, Structural)]
pub enum ParentLink {
    /// Hang entity `child` under entity `parent`.
    Attach { child: u64, parent: u64 },
    /// The parent named by description `index` is not in the map.
    MissingParent { index: usize },
}

/// The ids of the entries.
pub open spec fn entry_ids(entries: Seq<(String, u64)>) -> Seq<Seq<char>> {
    entries.map_values(|e: (String, u64)| e.0@)
}

impl EntityIdMap {
    /// The map from ids to entity handles.
    pub closed spec fn view(&self) -> Map<Seq<char>, u64> {
        Map::new(
            |k: Seq<char>| entry_ids(self.entries@).contains(k),
            |k: Seq<char>| self.entries@[entry_ids(self.entries@).index_of(k)].1,
        )
    }

    /// No id is entered twice.
    pub closed spec fn wf(&self) -> bool {
        entry_ids(self.entries@).no_duplicates()
    }

    /// An empty map.
    pub fn new() -> (m: Self)
        ensures
            m.wf(),
            m.view() == Map::<Seq<char>, u64>::empty(),
    {
        let m = EntityIdMap { entries: Vec::new() };
        assert(m.view() =~= Map::<Seq<char>, u64>::empty());
        m
    }

    /// The number of ids mapped.
    pub fn len(&self) -> (n: usize)
        requires
            self.wf(),
        ensures
            n == self.view().dom().len(),
    {
        proof {
            self.lemma_dom_len();
        }
        self.entries.len()
    }

    proof fn lemma_dom_len(&self)
        requires
            self.wf(),
        ensures
            self.view().dom().len() == self.entries@.len(),
            self.view().dom().finite(),
    {
        let ids = entry_ids(self.entries@);
        assert(self.view().dom() =~= ids.to_set());
        ids.unique_seq_to_set();
    }

    /// The position of `id` among the entries, if it is there.
    fn find(&self, id: &String) -> (r: Option<usize>)
        requires
            self.wf(),
        ensures
            r is None <==> !entry_ids(self.entries@).contains(id@),
            r matches Some(i) ==> i < self.entries@.len() && self.entries@[i as int].0@ == id@
                && entry_ids(self.entries@).index_of(id@) == i,
    {
        let ghost ids = entry_ids(self.entries@);
        let mut i: usize = 0;
        while i < self.entries.len()
            invariant
                ids == entry_ids(self.entries@),
                ids.no_duplicates(),
                i <= self.entries@.len(),
                forall|k: int| 0 <= k < i ==> #[trigger] ids[k] != id@,
            decreases self.entries@.len() - i,
        {
            let same = self.entries[i].0 == *id;
            if same {
                proof {
                    assert(ids[i as int] == id@);
                    assert(ids.contains(id@));
                    let j = ids.index_of(id@);
                    assert(0 <= j < ids.len() && ids[j] == id@);
                    assert(ids.no_duplicates());
                    if j != i {
                        assert(ids[j] != ids[i as int]);
                    }
                }
                return Some(i);
            }
            i = i + 1;
        }
        None
    }

    /// The entity mapped to `id`.
    pub fn get(&self, id: &String) -> (r: Option<u64>)
        requires
            self.wf(),
        ensures
            r == (if self.view().dom().contains(id@) {
                Some(self.view()[id@])
            } else {
                None
            }),
    {
        match self.find(id) {
            Some(i) => Some(self.entries[i].1),
            None => None,
        }
    }

    /// Map `id` to `entity`, replacing what `id` was mapped to.
    pub fn insert(&mut self, id: String, entity: u64)
        requires
            old(self).wf(),
        ensures
            final(self).wf(),
            final(self).view() == old(self).view().insert(id@, entity),
    {
        let ghost old_ids = entry_ids(self.entries@);
        match self.find(&id) {
            Some(i) => {
                let ghost idv = id@;
                self.entries.set(i, (id, entity));
                proof {
                    assert(entry_ids(self.entries@) =~= old_ids);
                    assert(self.view() =~= old(self).view().insert(idv, entity));
                }
            },
            None => {
                let ghost idv = id@;
                self.entries.push((id, entity));
                proof {
                    let ids = entry_ids(self.entries@);
                    assert(ids =~= old_ids.push(idv));
                    assert(ids.no_duplicates()) by {
                        assert forall|a: int, b: int| 0 <= a < ids.len() && 0 <= b < ids.len() && a != b implies ids[a]
                            != ids[b] by {
                            if a < old_ids.len() && b < old_ids.len() {
                                assert(ids[a] == old_ids[a] && ids[b] == old_ids[b]);
                            } else if a < old_ids.len() {
                                assert(old_ids.contains(ids[a]));
                            } else {
                                assert(old_ids.contains(ids[b]));
                            }
                        }
                    }
                    assert forall|k: Seq<char>| #[trigger] ids.contains(k) == (old_ids.contains(k) || k == idv) by {
                        if ids.contains(k) && k != idv {
                            let j = choose|j: int| 0 <= j < ids.len() && ids[j] == k;
                            assert(old_ids[j] == k);
                        }
                        if old_ids.contains(k) {
                            let j = choose|j: int| 0 <= j < old_ids.len() && old_ids[j] == k;
                            assert(ids[j] == k);
                        }
                        if k == idv {
                            assert(ids[old_ids.len() as int] == k);
                        }
                    }
                    assert forall|k: Seq<char>| old_ids.contains(k) implies ids.index_of(k) == old_ids.index_of(k) by {
                        let j = old_ids.index_of(k);
                        assert(ids[j] == k);
                        let j2 = ids.index_of(k);
                        if j2 != j {
                            assert(ids[j2] == k);
                        }
                    }
                    assert(ids.index_of(idv) == old_ids.len()) by {
                        assert(ids[old_ids.len() as int] == idv);
                        let j2 = ids.index_of(idv);
                        if j2 != old_ids.len() {
                            assert(ids[j2] == idv);
                        }
                    }
                    assert(self.view() =~= old(self).view().insert(idv, entity));
                }
            },
        }
    }
}

/// The parenting actions for the descriptions `defs` (id, optional parent
/// id), in order: nothing for a description without a parent, an
/// attachment when the parent id is mapped, a report when it is not.
pub open spec fn parent_links(map: Map<Seq<char>, u64>, defs: Seq<(String, Option<String>)>) -> Seq<ParentLink>
    decreases defs.len(),
{
    if defs.len() == 0 {
        Seq::empty()
    } else {
        let rest = parent_links(map, defs.drop_last());
        let i = defs.len() - 1;
        match defs.last().1 {
            None => rest,
            Some(p) => if map.dom().contains(p@) {
                rest.push(ParentLink::Attach { child: map[defs.last().0@], parent: map[p@] })
            } else {
                rest.push(ParentLink::MissingParent { index: i as usize })
            },
        }
    }
}

/// Work out the parenting step once every description has been spawned and
/// entered into `map`.
pub fn link_parents(map: &EntityIdMap, defs: &Vec<(String, Option<String>)>) -> (links: Vec<ParentLink>)
    requires
        map.wf(),
        forall|i: int| 0 <= i < defs@.len() ==> map.view().dom().contains((#[trigger] defs@[i]).0@),
    ensures
        links@ == parent_links(map.view(), defs@),
        forall|i: int|
            0 <= i < defs@.len() && (#[trigger] defs@[i]).1 is Some && map.view().dom().contains(defs@[i].1->Some_0@)
                ==> links@.contains(ParentLink::Attach { child: map.view()[defs@[i].0@], parent: map.view()[defs@[i].1->Some_0@] }),
        forall|i: int|
            0 <= i < defs@.len() && (#[trigger] defs@[i]).1 is Some && !map.view().dom().contains(defs@[i].1->Some_0@)
                ==> links@.contains(ParentLink::MissingParent { index: i as usize }),
        links@.len() == defs@.filter(|d: (String, Option<String>)| d.1 is Some).len(),
{
    proof {
        assert(defs@.len() == defs.len());
        lemma_links_complete(map.view(), defs@);
    }
    let mut links: Vec<ParentLink> = Vec::new();
    let mut i: usize = 0;
    while i < defs.len()
        invariant
            map.wf(),
            i <= defs@.len(),
            forall|k: int| 0 <= k < defs@.len() ==> map.view().dom().contains((#[trigger] defs@[k]).0@),
            links@ == parent_links(map.view(), defs@.subrange(0, i as int)),
        decreases defs@.len() - i,
    {
        assert(defs@.subrange(0, i + 1).drop_last() =~= defs@.subrange(0, i as int));
        assert(defs@.subrange(0, i + 1).last() == defs@[i as int]);
        match &defs[i].1 {
            None => {},
            Some(p) => {
                match map.get(p) {
                    Some(parent) => {
                        let child = match map.get(&defs[i].0) {
                            Some(c) => c,
                            None => {
                                assert(map.view().dom().contains(defs@[i as int].0@));
                                0
                            },
                        };
                        links.push(ParentLink::Attach { child, parent });
                    },
                    None => {
                        links.push(ParentLink::MissingParent { index: i });
                    },
                }
            },
        }
        i = i + 1;
    }
    assert(defs@.subrange(0, defs@.len() as int) =~= defs@);
    links
}


/// The map after entering the id of each description of `defs`, in order,
/// with the entity at the same position of `entities`.
pub open spec fn entered(m: Map<Seq<char>, u64>, defs: Seq<(String, Option<String>)>, entities: Seq<u64>) -> Map<
    Seq<char>,
    u64,
>
    decreases defs.len(),
{
    if defs.len() == 0 {
        m
    } else {
        entered(m, defs.drop_last(), entities.take(defs.len() - 1)).insert(
            defs.last().0@,
            entities[defs.len() - 1],
        )
    }
}

/// Some description of `defs` has the id `k`.
pub open spec fn names_id(defs: Seq<(String, Option<String>)>, k: Seq<char>) -> bool {
    exists|i: int| 0 <= i < defs.len() && #[trigger] defs[i].0@ == k
}

/// No two descriptions share an id.
pub open spec fn distinct_ids(defs: Seq<(String, Option<String>)>) -> bool {
    forall|i: int, j: int| 0 <= i < j < defs.len() ==> (#[trigger] defs[i]).0@ != (#[trigger] defs[j]).0@
}

proof fn lemma_entered_dom(m: Map<Seq<char>, u64>, defs: Seq<(String, Option<String>)>, entities: Seq<u64>)
    requires
        entities.len() == defs.len(),
    ensures
        forall|i: int| 0 <= i < defs.len() ==> entered(m, defs, entities).dom().contains((#[trigger] defs[i]).0@),
    decreases defs.len(),
{
    if defs.len() > 0 {
        let d = defs.drop_last();
        lemma_entered_dom(m, d, entities.take(defs.len() - 1));
        assert forall|i: int| 0 <= i < defs.len() implies entered(m, defs, entities).dom().contains(
            (#[trigger] defs[i]).0@,
        ) by {
            if i < defs.len() - 1 {
                assert(defs[i] == d[i]);
            }
        }
    }
}

/// Enter the ids of a world description, each with the entity spawned for
/// it (`entities` in the order of `defs`), then work out the parenting step.
pub fn load_world(map: &mut EntityIdMap, defs: &Vec<(String, Option<String>)>, entities: &Vec<u64>) -> (links: Vec<
    ParentLink,
>)
    requires
        old(map).wf(),
        entities.len() == defs.len(),
    ensures
        final(map).wf(),
        final(map).view() == entered(old(map).view(), defs@, entities@),
        links@ == parent_links(final(map).view(), defs@),
        forall|i: int|
            0 <= i < defs@.len() && (#[trigger] defs@[i]).1 is Some && final(map).view().dom().contains(defs@[i].1->Some_0@)
                ==> links@.contains(ParentLink::Attach { child: final(map).view()[defs@[i].0@], parent: final(map).view()[defs@[i].1->Some_0@] }),
        forall|i: int|
            0 <= i < defs@.len() && (#[trigger] defs@[i]).1 is Some && !final(map).view().dom().contains(defs@[i].1->Some_0@)
                ==> links@.contains(ParentLink::MissingParent { index: i as usize }),
        links@.len() == defs@.filter(|d: (String, Option<String>)| d.1 is Some).len(),
{
    let mut i: usize = 0;
    while i < defs.len()
        invariant
            map.wf(),
            i <= defs@.len(),
            entities@.len() == defs@.len(),
            map.view() == entered(old(map).view(), defs@.subrange(0, i as int), entities@.take(i as int)),
        decreases defs@.len() - i,
    {
        let id = defs[i].0.clone();
        map.insert(id, entities[i]);
        proof {
            let d = defs@.subrange(0, i + 1);
            assert(d.drop_last() =~= defs@.subrange(0, i as int));
            assert(entities@.take(i + 1).take(i as int) =~= entities@.take(i as int));
            assert(d.last() == defs@[i as int]);
        }
        i = i + 1;
    }
    assert(defs@.subrange(0, defs@.len() as int) =~= defs@);
    assert(entities@.take(defs@.len() as int) =~= entities@);
    proof {
        lemma_entered_dom(old(map).view(), defs@, entities@);
    }
    link_parents(map, defs)
}

/// Description `i` names a parent that is mapped, to `parent`.
pub open spec fn names_known_parent(full: Map<Seq<char>, u64>, defs: Seq<(String, Option<String>)>, i: int, parent: u64) -> bool {
    &&& 0 <= i < defs.len()
    &&& match defs[i].1 {
        Some(p) => full.dom().contains(p@) && parent == full[p@],
        None => false,
    }
}

/// Description `i` names a parent that is not mapped.
pub open spec fn names_unknown_parent(full: Map<Seq<char>, u64>, defs: Seq<(String, Option<String>)>, i: int) -> bool {
    &&& 0 <= i < defs.len()
    &&& match defs[i].1 {
        Some(p) => !full.dom().contains(p@),
        None => false,
    }
}

/// Loading a world description whose ids are distinct maps every id to the
/// entity spawned for it and leaves every other id as it was; each parenting
/// step hangs the entity of a description under the entity of the parent it
/// names, which is mapped, or reports a description whose parent is unknown.
pub proof fn lemma_world_load(m: Map<Seq<char>, u64>, defs: Seq<(String, Option<String>)>, entities: Seq<u64>)
    requires
        entities.len() == defs.len(),
        defs.len() <= usize::MAX,
        distinct_ids(defs),
    ensures
        forall|i: int|
            0 <= i < defs.len() ==> entered(m, defs, entities).dom().contains((#[trigger] defs[i]).0@) && entered(
                m,
                defs,
                entities,
            )[defs[i].0@] == entities[i],
        forall|k: Seq<char>|
            !names_id(defs, k) ==> (#[trigger] entered(m, defs, entities).dom().contains(k) == m.dom().contains(k)
                && (m.dom().contains(k) ==> entered(m, defs, entities)[k] == m[k])),
        forall|l: int|
            0 <= l < parent_links(entered(m, defs, entities), defs).len() ==> match #[trigger] parent_links(
                entered(m, defs, entities),
                defs,
            )[l] {
                ParentLink::Attach { child, parent } => exists|i: int|
                    #[trigger] names_known_parent(entered(m, defs, entities), defs, i, parent) && child
                        == entities[i],
                ParentLink::MissingParent { index } => names_unknown_parent(entered(m, defs, entities), defs, index as int),
            },
{
    let full = entered(m, defs, entities);
    lemma_entered_values(m, defs, entities);
    assert forall|k: Seq<char>| !names_id(defs, k) implies (#[trigger] entered(m, defs, entities).dom().contains(k)
        == m.dom().contains(k) && (m.dom().contains(k) ==> entered(m, defs, entities)[k] == m[k])) by {
        lemma_entered_other(m, defs, entities, k);
    }
    lemma_links_shape(full, defs);
    assert forall|l: int| 0 <= l < parent_links(full, defs).len() implies match #[trigger] parent_links(full, defs)[l] {
        ParentLink::Attach { child, parent } => exists|i: int|
            #[trigger] names_known_parent(full, defs, i, parent) && child == entities[i],
        ParentLink::MissingParent { index } => names_unknown_parent(full, defs, index as int),
    } by {
        match parent_links(full, defs)[l] {
            ParentLink::Attach { child, parent } => {
                let i = choose|i: int| #[trigger] names_known_parent(full, defs, i, parent) && child == full[defs[i].0@];
                assert(full[defs[i].0@] == entities[i]);
            },
            ParentLink::MissingParent { index } => {},
        }
    }
}

proof fn lemma_entered_values(m: Map<Seq<char>, u64>, defs: Seq<(String, Option<String>)>, entities: Seq<u64>)
    requires
        entities.len() == defs.len(),
        distinct_ids(defs),
    ensures
        forall|i: int|
            0 <= i < defs.len() ==> entered(m, defs, entities).dom().contains((#[trigger] defs[i]).0@) && entered(
                m,
                defs,
                entities,
            )[defs[i].0@] == entities[i],
    decreases defs.len(),
{
    if defs.len() > 0 {
        let d = defs.drop_last();
        let e = entities.take(defs.len() - 1);
        assert forall|i: int, j: int| 0 <= i < j < d.len() implies (#[trigger] d[i]).0@ != (#[trigger] d[j]).0@ by {
            assert(d[i] == defs[i] && d[j] == defs[j]);
        }
        lemma_entered_values(m, d, e);
        let last = defs.len() - 1;
        assert forall|i: int| 0 <= i < defs.len() implies entered(m, defs, entities).dom().contains(
            (#[trigger] defs[i]).0@,
        ) && entered(m, defs, entities)[defs[i].0@] == entities[i] by {
            if i < last {
                assert(defs[i] == d[i]);
                assert(e[i] == entities[i]);
                assert(defs[i].0@ != defs[last].0@);
            }
        }
    }
}

proof fn lemma_entered_other(m: Map<Seq<char>, u64>, defs: Seq<(String, Option<String>)>, entities: Seq<u64>, k: Seq<char>)
    requires
        entities.len() == defs.len(),
        !names_id(defs, k),
    ensures
        entered(m, defs, entities).dom().contains(k) == m.dom().contains(k),
        m.dom().contains(k) ==> entered(m, defs, entities)[k] == m[k],
    decreases defs.len(),
{
    if defs.len() > 0 {
        let d = defs.drop_last();
        let e = entities.take(defs.len() - 1);
        if names_id(d, k) {
            let i = choose|i: int| 0 <= i < d.len() && #[trigger] d[i].0@ == k;
            assert(defs[i] == d[i]);
        }
        lemma_entered_other(m, d, e, k);
        if defs[defs.len() - 1].0@ == k {
            assert(names_id(defs, k));
        }
    }
}

proof fn lemma_links_shape(full: Map<Seq<char>, u64>, defs: Seq<(String, Option<String>)>)
    requires
        defs.len() <= usize::MAX,
    ensures
        forall|l: int|
            0 <= l < parent_links(full, defs).len() ==> match #[trigger] parent_links(full, defs)[l] {
                ParentLink::Attach { child, parent } => exists|i: int|
                    #[trigger] names_known_parent(full, defs, i, parent) && child == full[defs[i].0@],
                ParentLink::MissingParent { index } => names_unknown_parent(full, defs, index as int),
            },
    decreases defs.len(),
{
    if defs.len() > 0 {
        let d = defs.drop_last();
        lemma_links_shape(full, d);
        let rest = parent_links(full, d);
        let all = parent_links(full, defs);
        assert forall|l: int| 0 <= l < all.len() implies match #[trigger] all[l] {
            ParentLink::Attach { child, parent } => exists|i: int|
                #[trigger] names_known_parent(full, defs, i, parent) && child == full[defs[i].0@],
            ParentLink::MissingParent { index } => names_unknown_parent(full, defs, index as int),
        } by {
            if l < rest.len() {
                assert(all[l] == rest[l]);
                match rest[l] {
                    ParentLink::Attach { child, parent } => {
                        let i = choose|i: int| #[trigger] names_known_parent(full, d, i, parent) && child == full[d[i].0@];
                        assert(defs[i] == d[i]);
                        assert(names_known_parent(full, defs, i, parent));
                    },
                    ParentLink::MissingParent { index } => {
                        assert(defs[index as int] == d[index as int]);
                    },
                }
            } else {
                let last = defs.len() - 1;
                assert(defs[last] == defs.last());
                match all[l] {
                    ParentLink::Attach { child, parent } => {
                        assert(names_known_parent(full, defs, last, parent));
                    },
                    ParentLink::MissingParent { index } => {},
                }
            }
        }
    }
}

/// The parenting step is complete and in order: it has one step per
/// description that names a parent, and for each such description `i` it
/// hangs the entity of `i` under the entity of its parent when that parent is
/// mapped, and reports `i` otherwise; descriptions without a parent get no
/// step.
pub proof fn lemma_links_complete(map: Map<Seq<char>, u64>, defs: Seq<(String, Option<String>)>)
    requires
        defs.len() <= usize::MAX,
    ensures
        parent_links(map, defs).len() == defs.filter(|d: (String, Option<String>)| d.1 is Some).len(),
        forall|i: int|
            0 <= i < defs.len() && (#[trigger] defs[i]).1 is Some && map.dom().contains(defs[i].1->Some_0@)
                ==> parent_links(map, defs).contains(
                ParentLink::Attach { child: map[defs[i].0@], parent: map[defs[i].1->Some_0@] },
            ),
        forall|i: int|
            0 <= i < defs.len() && (#[trigger] defs[i]).1 is Some && !map.dom().contains(defs[i].1->Some_0@)
                ==> parent_links(map, defs).contains(ParentLink::MissingParent { index: i as usize }),
    decreases defs.len(),
{
    reveal_with_fuel(Seq::filter, 1);
    if defs.len() > 0 {
        let d = defs.drop_last();
        lemma_links_complete(map, d);
        let rest = parent_links(map, d);
        let all = parent_links(map, defs);
        let last = defs.len() - 1;
        assert(defs[last] == defs.last());
        assert forall|i: int|
            0 <= i < defs.len() && (#[trigger] defs[i]).1 is Some && map.dom().contains(defs[i].1->Some_0@)
                implies all.contains(ParentLink::Attach { child: map[defs[i].0@], parent: map[defs[i].1->Some_0@] }) by {
            if i < last {
                assert(defs[i] == d[i]);
                let j = choose|j: int|
                    0 <= j < rest.len() && rest[j] == ParentLink::Attach {
                        child: map[d[i].0@],
                        parent: map[d[i].1->Some_0@],
                    };
                assert(all[j] == rest[j]);
            } else {
                assert(all[all.len() - 1] == ParentLink::Attach {
                    child: map[defs[i].0@],
                    parent: map[defs[i].1->Some_0@],
                });
            }
        }
        assert forall|i: int|
            0 <= i < defs.len() && (#[trigger] defs[i]).1 is Some && !map.dom().contains(defs[i].1->Some_0@)
                implies all.contains(ParentLink::MissingParent { index: i as usize }) by {
            if i < last {
                assert(defs[i] == d[i]);
                let j = choose|j: int| 0 <= j < rest.len() && rest[j] == ParentLink::MissingParent { index: i as usize };
                assert(all[j] == rest[j]);
            } else {
                assert(all[all.len() - 1] == ParentLink::MissingParent { index: i as usize });
            }
        }
    }
}

/// Reading an id back after `insert` mapped it gives the entity just
/// stored, and mapping one id leaves every other id as it was: `before` and
/// `after` are the map before and after `insert(id, entity)`.
pub proof fn lemma_read_after_write(before: EntityIdMap, after: EntityIdMap, id: Seq<char>, entity: u64, other: Seq<char>)
    requires
        after.view() == before.view().insert(id, entity),
        other != id,
    ensures
        after.view().dom().contains(id),
        after.view()[id] == entity,
        after.view().dom().contains(other) == before.view().dom().contains(other),
        before.view().dom().contains(other) ==> after.view()[other] == before.view()[other],
{
}

} // verus!
