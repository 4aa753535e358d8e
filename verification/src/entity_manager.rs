use vstd::prelude::*;

use crate::archetype::ArchetypeId;
use crate::sparse_set::{SparseIndex, SparseSet};
use crate::world_container::ComponentId;

verus! {

/// An entity handle: the first field is the slot index in the per-entity
/// tables, the second the generation, bumped every time the slot is
/// re-issued so that stale copies of the handle can be told apart.
#[derive(Default, Debug, Eq, PartialEq, PartialOrd, Ord, Hash, Clone, Copy, Structural)]
pub struct Entity(pub u32, pub u32);

impl SparseIndex for Entity {
    open spec fn spec_index(&self) -> int {
        self.0 as int
    }

    fn index(&self) -> usize {
        self.0 as usize
    }
}

/// Everything recorded about a live entity: its generation, the set of
/// component ids it currently carries, and the archetype id of that set.
#[derive(Clone)]
pub struct EntityInfo {
    /// The entity's generation.
    pub generation: u32,
    /// The set of all the components belonging to this entity.
    pub components: SparseSet<ComponentId, ()>,
    /// The archetype id of this entity's current component set.
    pub archetype_id: ArchetypeId,
}

/// Mints monotonically increasing entity ids with a generation counter and
/// recycles destroyed ids with a bumped generation, so that an outstanding
/// handle of a destroyed entity is never equal to a re-issued one.
pub struct EntityAllocator {
    next_entity_id: u32,
    entity_info: SparseSet<Entity, EntityInfo>,
    dropped_entities: Vec<Entity>,
}

impl EntityAllocator {
    pub closed spec fn infos(self) -> SparseSet<Entity, EntityInfo> {
        self.entity_info
    }

    pub closed spec fn dropped(self) -> Seq<Entity> {
        self.dropped_entities@
    }

    pub closed spec fn next_id(self) -> int {
        self.next_entity_id as int
    }

    /// The handle under which slot index `k` is currently live.
    pub open spec fn handle_of(self, k: int) -> Entity {
        self.infos().spec_at(k).0
    }

    pub open spec fn info_of(self, k: int) -> EntityInfo {
        self.infos().spec_at(k).1
    }

    /// A handle is live when its slot is registered under the same
    /// generation.
    pub open spec fn spec_live(self, e: Entity) -> bool {
        &&& self.infos().spec_contains(e.0 as int)
        &&& self.handle_of(e.0 as int) == e
    }

    pub closed spec fn wf(self) -> bool {
        &&& self.entity_info.wf()
        // every registered slot is below the high-water mark and its
        // recorded generation matches its handle's
        &&& forall|i: int| 0 <= i < self.entity_info.spec_len() ==> {
            let e = (#[trigger] self.entity_info.entries()[i]).0;
            &&& (e.0 as int) < self.next_id()
            &&& self.entity_info.entries()[i].1.generation == e.1
        }
        // dropped slots are below the high-water mark, not live, mutually
        // distinct, and can still have their generation bumped
        &&& forall|i: int| 0 <= i < self.dropped().len() ==> {
            let d = #[trigger] self.dropped()[i];
            &&& (d.0 as int) < self.next_id()
            &&& !self.infos().spec_contains(d.0 as int)
            &&& d.1 < u32::MAX
        }
        &&& forall|i: int, j: int|
            0 <= i < self.dropped().len() && 0 <= j < self.dropped().len() && i != j
                ==> (#[trigger] self.dropped()[i]).0 != (#[trigger] self.dropped()[j]).0
    }

    /// In a well-formed allocator, a registered slot's handle points back
    /// at the slot and carries the recorded generation.
    pub proof fn lemma_slot(self, k: int)
        requires
            self.wf(),
            self.infos().spec_contains(k),
        ensures
            self.handle_of(k).0 as int == k,
            self.info_of(k).generation == self.handle_of(k).1,
            k < self.next_id(),
            self.spec_live(self.handle_of(k)),
    {
        self.entity_info.lemma_pos_valid(k);
        let p = self.entity_info.pos_of(k);
        assert(self.entity_info.entries()[p].0.spec_index()
            == self.entity_info.key_seq()[p]);
        assert(self.entity_info.entries()[p] == self.entity_info.spec_at(k));
    }

    /// The high-water mark of issued slot indices never exceeds the index
    /// range.
    pub proof fn lemma_next_bound(self)
        ensures
            self.next_id() <= u32::MAX,
    {
    }

    /// Creates an allocator with no entities.
    pub fn new() -> (r: Self)
        ensures
            r.wf(),
            r.infos().spec_len() == 0,
            r.dropped().len() == 0,
            r.next_id() == 0,
    {
        EntityAllocator {
            next_entity_id: 0,
            entity_info: SparseSet::new(),
            dropped_entities: Vec::new(),
        }
    }

    /// Allocates a handle and registers it, with an empty component set.
    pub fn new_entity(&mut self) -> (r: Entity)
        requires
            old(self).wf(),
            old(self).next_id() < u32::MAX,
        ensures
            final(self).wf(),
            final(self).spec_live(r),
            final(self).info_of(r.0 as int).components.spec_len() == 0,
            final(self).info_of(r.0 as int).components.wf(),
            final(self).info_of(r.0 as int).generation == r.1,
            !old(self).spec_live(r),
            forall|d: int| 0 <= d < old(self).dropped().len()
                ==> r != old(self).dropped()[d],
            forall|e: Entity| old(self).spec_live(e) ==> final(self).spec_live(e)
                && final(self).info_of(e.0 as int) == old(self).info_of(e.0 as int),
            forall|k: int| #[trigger] final(self).infos().spec_contains(k)
                <==> old(self).infos().spec_contains(k) || k == r.0 as int,
            old(self).next_id() <= final(self).next_id() <= old(self).next_id() + 1,
            old(self).dropped().len() > 0 ==> {
                &&& r == Entity(
                    old(self).dropped().last().0,
                    (old(self).dropped().last().1 + 1) as u32,
                )
                &&& final(self).dropped() =~= old(self).dropped().drop_last()
                &&& final(self).next_id() == old(self).next_id()
            },
            old(self).dropped().len() == 0 ==> {
                &&& r == Entity(old(self).next_id() as u32, 0)
                &&& final(self).dropped() =~= old(self).dropped()
                &&& final(self).next_id() == old(self).next_id() + 1
            },
    {
        let id = self.allocate_id();
        self.new_with_id(id);
        id
    }

    /// Mints a fresh handle: either a never-used slot index with generation
    /// zero, or a previously destroyed slot with its generation bumped. The
    /// result is never equal to any recorded dropped handle, nor live: an
    /// outstanding handle of a destroyed entity never matches it.
    pub fn allocate_id(&mut self) -> (r: Entity)
        requires
            old(self).wf(),
            old(self).next_id() < u32::MAX,
        ensures
            final(self).wf(),
            final(self).infos() == old(self).infos(),
            !old(self).spec_live(r),
            !final(self).spec_live(r),
            (r.0 as int) < final(self).next_id(),
            forall|d: int| 0 <= d < old(self).dropped().len()
                ==> r != old(self).dropped()[d],
            forall|d: int| 0 <= d < final(self).dropped().len()
                ==> (#[trigger] final(self).dropped()[d]).0 != r.0,
            old(self).dropped().len() > 0 ==> {
                &&& r == Entity(old(self).dropped().last().0, (old(self).dropped().last().1 + 1) as u32)
                &&& final(self).dropped() =~= old(self).dropped().drop_last()
                &&& final(self).next_id() == old(self).next_id()
            },
            old(self).dropped().len() == 0 ==> {
                &&& r == Entity(old(self).next_id() as u32, 0)
                &&& final(self).dropped() =~= old(self).dropped()
                &&& final(self).next_id() == old(self).next_id() + 1
            },
    {
        if self.dropped_entities.len() > 0 {
            let mut entity = self.dropped_entities.pop().unwrap();
            proof {
                assert(entity == old(self).dropped().last());
                assert(forall|d: int| 0 <= d < self.dropped().len()
                    ==> self.dropped()[d] == old(self).dropped()[d]);
            }
            entity.1 = entity.1 + 1;
            return entity;
        }
        let id = self.next_entity_id;
        self.next_entity_id = id + 1;
        Entity(id, 0)
    }

    /// Registers a pre-allocated handle with an empty component set.
    pub fn new_with_id(&mut self, id: Entity)
        requires
            old(self).wf(),
            !old(self).infos().spec_contains(id.0 as int),
            (id.0 as int) < old(self).next_id(),
            forall|d: int| 0 <= d < old(self).dropped().len()
                ==> (#[trigger] old(self).dropped()[d]).0 != id.0,
        ensures
            final(self).wf(),
            final(self).spec_live(id),
            final(self).info_of(id.0 as int).components.spec_len() == 0,
            final(self).info_of(id.0 as int).components.wf(),
            final(self).info_of(id.0 as int).generation == id.1,
            final(self).info_of(id.0 as int).archetype_id == ArchetypeId(0),
            final(self).dropped() == old(self).dropped(),
            final(self).next_id() == old(self).next_id(),
            forall|e: Entity| old(self).spec_live(e) ==> final(self).spec_live(e)
                && final(self).info_of(e.0 as int) == old(self).info_of(e.0 as int),
            forall|k: int| #[trigger] final(self).infos().spec_contains(k)
                <==> old(self).infos().spec_contains(k) || k == id.0 as int,
    {
        let info = EntityInfo {
            generation: id.1,
            components: SparseSet::new(),
            archetype_id: ArchetypeId::default(),
        };
        self.entity_info.insert(id, info);
        proof {
            assert forall|e: Entity| old(self).spec_live(e)
                implies self.spec_live(e)
                    && self.info_of(e.0 as int) == old(self).info_of(e.0 as int) by {
                assert(self.entity_info.spec_at(e.0 as int)
                    == old(self).entity_info.spec_at(e.0 as int));
            }
            assert forall|i: int| 0 <= i < self.entity_info.spec_len() implies {
                let e = (#[trigger] self.entity_info.entries()[i]).0;
                &&& (e.0 as int) < self.next_id()
                &&& self.entity_info.entries()[i].1.generation == e.1
            } by {
                if i < old(self).entity_info.spec_len() {
                    assert(self.entity_info.entries()[i]
                        == old(self).entity_info.entries()[i]);
                } else {
                    assert(self.entity_info.entries()[i] == (id, info));
                }
            }
            assert forall|i: int| 0 <= i < self.dropped().len() implies {
                let d = #[trigger] self.dropped()[i];
                &&& (d.0 as int) < self.next_id()
                &&& !self.infos().spec_contains(d.0 as int)
                &&& d.1 < u32::MAX
            } by {
                assert(self.dropped()[i] == old(self).dropped()[i]);
                assert(old(self).dropped()[i].0 != id.0);
                assert(!old(self).infos().spec_contains(
                    old(self).dropped()[i].0 as int));
            }
        }
    }

    /// Destroys an entity: removes its info and queues the slot for
    /// re-issue under a later generation. A handle that is not live (stale
    /// generation, or never registered) is ignored.
    pub fn destroy_entity(&mut self, entity: Entity)
        requires
            old(self).wf(),
        ensures
            final(self).wf(),
            !final(self).spec_live(entity),
            old(self).spec_live(entity) ==> !final(self).infos().spec_contains(entity.0 as int),
            old(self).spec_live(entity) && entity.1 < u32::MAX
                ==> final(self).dropped() =~= old(self).dropped().push(entity),
            !(old(self).spec_live(entity) && entity.1 < u32::MAX)
                ==> final(self).dropped() == old(self).dropped(),
            !old(self).spec_live(entity) ==> final(self).infos() == old(self).infos(),
            forall|e: Entity| old(self).spec_live(e) && e != entity
                ==> final(self).spec_live(e)
                    && final(self).info_of(e.0 as int) == old(self).info_of(e.0 as int),
            forall|k: int| #[trigger] final(self).infos().spec_contains(k)
                <==> old(self).infos().spec_contains(k)
                    && !(old(self).spec_live(entity) && k == entity.0 as int),
            final(self).next_id() == old(self).next_id(),
    {
        let is_live = match self.entity_info.get(&entity) {
            Some(info) => info.generation == entity.1,
            None => false,
        };
        proof {
            if self.infos().spec_contains(entity.0 as int) {
                self.lemma_slot(entity.0 as int);
            }
            assert(is_live == self.spec_live(entity));
        }
        if is_live {
            self.entity_info.remove(entity);
            if entity.1 < u32::MAX {
                self.dropped_entities.push(entity);
            }
            proof {
                assert forall|e: Entity| old(self).spec_live(e) && e != entity
                    implies self.spec_live(e)
                        && self.info_of(e.0 as int) == old(self).info_of(e.0 as int) by {
                    old(self).lemma_slot(e.0 as int);
                    assert(e.0 != entity.0);
                    assert(self.entity_info.spec_contains(e.0 as int));
                    assert(self.entity_info.spec_at(e.0 as int)
                        == old(self).entity_info.spec_at(e.0 as int));
                }
                assert forall|i: int| 0 <= i < self.dropped().len() implies {
                    let d = #[trigger] self.dropped()[i];
                    &&& (d.0 as int) < self.next_id()
                    &&& !self.infos().spec_contains(d.0 as int)
                    &&& d.1 < u32::MAX
                } by {
                    if i < old(self).dropped().len() {
                        assert(self.dropped()[i] == old(self).dropped()[i]);
                        assert(!old(self).infos().spec_contains(self.dropped()[i].0 as int));
                    } else {
                        assert(self.dropped()[i] == entity);
                        old(self).lemma_slot(entity.0 as int);
                    }
                }
                assert forall|i: int, j: int|
                    0 <= i < self.dropped().len() && 0 <= j < self.dropped().len()
                        && i != j
                    implies (#[trigger] self.dropped()[i]).0
                        != (#[trigger] self.dropped()[j]).0 by {
                    if i < old(self).dropped().len() && j < old(self).dropped().len() {
                    } else if i < old(self).dropped().len() {
                        assert(!old(self).infos().spec_contains(
                            old(self).dropped()[i].0 as int));
                    } else {
                        assert(!old(self).infos().spec_contains(
                            old(self).dropped()[j].0 as int));
                    }
                }
            }
        }
    }

    /// Gets the info for a handle; a stale handle (mismatched generation)
    /// silently misses, exactly like an absent one.
    pub fn entity_info(&self, id: Entity) -> (r: Option<&EntityInfo>)
        requires
            self.wf(),
        ensures
            match r {
                Some(info) => {
                    &&& self.spec_live(id)
                    &&& *info == self.info_of(id.0 as int)
                },
                None => !self.spec_live(id),
            },
    {
        proof {
            if self.infos().spec_contains(id.0 as int) {
                self.lemma_slot(id.0 as int);
            }
        }
        match self.entity_info.get(&id) {
            Some(info) => {
                if info.generation == id.1 {
                    Some(info)
                } else {
                    None
                }
            },
            None => None,
        }
    }

    /// Gets mutable access to the info of a live handle.
    pub fn entity_info_mut(&mut self, id: Entity) -> (r: &mut EntityInfo)
        requires
            old(self).wf(),
            old(self).spec_live(id),
        ensures
            *r == old(self).info_of(id.0 as int),
            final(self).infos().entries() =~= old(self).infos().entries().update(
                old(self).infos().pos_of(id.0 as int),
                (id, *final(r)),
            ),
            final(self).infos().wf(),
            final(self).infos().key_seq() =~= old(self).infos().key_seq(),
            final(self).dropped() == old(self).dropped(),
            final(self).next_id() == old(self).next_id(),
    {
        proof {
            old(self).lemma_slot(id.0 as int);
        }
        self.entity_info.get_mut(id)
    }

    /// Re-establishes well-formedness after a mutation through
    /// [`Self::entity_info_mut`] that kept the stored generation.
    pub proof fn lemma_info_update(pre: Self, post: Self, id: Entity, info: EntityInfo)
        requires
            pre.wf(),
            pre.spec_live(id),
            info.generation == id.1,
            post.infos().entries() =~= pre.infos().entries().update(
                pre.infos().pos_of(id.0 as int),
                (id, info),
            ),
            post.infos().wf(),
            post.dropped() == pre.dropped(),
            post.next_id() == pre.next_id(),
        ensures
            post.wf(),
            post.spec_live(id),
            post.info_of(id.0 as int) == info,
            forall|e: Entity| pre.spec_live(e) && e != id
                ==> post.spec_live(e) && post.info_of(e.0 as int) == pre.info_of(e.0 as int),
            forall|k: int| #[trigger] post.infos().spec_contains(k)
                <==> pre.infos().spec_contains(k),
    {
        pre.infos().lemma_pos_valid(id.0 as int);
        SparseSet::lemma_update_at(pre.infos(), post.infos(), id.0 as int, (id, info));
        let p = pre.infos().pos_of(id.0 as int);
        assert forall|i: int| 0 <= i < post.entity_info.spec_len() implies {
            let e = (#[trigger] post.entity_info.entries()[i]).0;
            &&& (e.0 as int) < post.next_id()
            &&& post.entity_info.entries()[i].1.generation == e.1
        } by {
            if i != p {
                assert(post.entity_info.entries()[i] == pre.entity_info.entries()[i]);
            } else {
                assert(post.entity_info.entries()[i] == (id, info));
                pre.lemma_slot(id.0 as int);
            }
        }
        assert forall|i: int| 0 <= i < post.dropped().len() implies {
            let d = #[trigger] post.dropped()[i];
            &&& (d.0 as int) < post.next_id()
            &&& !post.infos().spec_contains(d.0 as int)
            &&& d.1 < u32::MAX
        } by {
            assert(post.dropped()[i] == pre.dropped()[i]);
            assert(!pre.infos().spec_contains(pre.dropped()[i].0 as int));
        }
        assert forall|e: Entity| pre.spec_live(e) && e != id
            implies post.spec_live(e)
                && post.info_of(e.0 as int) == pre.info_of(e.0 as int) by {
            pre.lemma_slot(e.0 as int);
            assert(e.0 != id.0);
            assert(post.infos().spec_at(e.0 as int) == pre.infos().spec_at(e.0 as int));
        }
    }

    /// All live entity handles, in dense order.
    pub fn iter_all_entities(&self) -> (r: Vec<Entity>)
        requires
            self.wf(),
        ensures
            r@.len() == self.infos().spec_len(),
            forall|i: int| 0 <= i < r@.len()
                ==> r@[i] == self.infos().entries()[i].0,
            forall|i: int| 0 <= i < r@.len() ==> self.spec_live(#[trigger] r@[i]),
    {
        let mut out: Vec<Entity> = Vec::new();
        let n = self.entity_info.len();
        let mut i: usize = 0;
        while i < n
            invariant
                self.wf(),
                n == self.infos().spec_len(),
                i <= n,
                out@.len() == i as int,
                forall|j: int| 0 <= j < i as int
                    ==> out@[j] == self.infos().entries()[j].0,
                forall|j: int| 0 <= j < i as int ==> self.spec_live(#[trigger] out@[j]),
            decreases n - i,
        {
            let e = self.entity_info.key_at(i);
            proof {
                self.entity_info.lemma_pos_unique(i as int);
                self.lemma_slot(self.entity_info.key_seq()[i as int]);
            }
            out.push(e);
            i = i + 1;
        }
        out
    }
}

} // verus!
