use vstd::prelude::*;

use crate::archetype::{ArchetypeId, ArchetypeManager};
use crate::entity_manager::{Entity, EntityInfo};
use crate::sparse_set::{SparseIndex, SparseSet};
use crate::world_container::{ComponentId, WorldContainer};

verus! {

/// How a system parameter accesses a component: shared or exclusive.
#[derive(Clone, Copy, Eq, PartialEq, PartialOrd, Ord, Hash, Debug, Structural)]
pub enum AccessMode {
    Read,
    Write,
}

/// The cached state of one query: the archetype its component set
/// canonicalizes to, plus the set of entities currently matching it. The
/// set is maintained by change notifications.
pub struct QueryState {
    /// The entities currently matching the query.
    pub entities: SparseSet<Entity, ()>,
    /// The archetype canonicalizing the query's component set.
    pub query_archetype: ArchetypeId,
}

impl QueryState {
    pub open spec fn wf(self, world: WorldContainer) -> bool {
        &&& self.entities.wf()
        &&& (self.query_archetype.0 as int) < world.spec_mgr().spec_archetypes().len()
    }

    /// The component set the query requires.
    pub open spec fn query_set(self, world: WorldContainer) -> Set<int> {
        world.spec_mgr().spec_archetypes()[self.query_archetype.0 as int].component_set()
    }

    /// Whether the entity registered at slot `k` matches the query: its
    /// component set includes the query's component set.
    pub open spec fn spec_matches(self, world: WorldContainer, k: int) -> bool {
        &&& world.spec_allocator().infos().spec_contains(k)
        &&& self.query_set(world).subset_of(
            world.spec_info_of(k).components.key_set(),
        )
    }

    /// The match set is exact: a slot is cached if and only if a live
    /// entity whose component set includes the query's occupies it.
    pub open spec fn match_set_ok(self, world: WorldContainer) -> bool {
        forall|k: int| #[trigger] self.entities.spec_contains(k)
            <==> self.spec_matches(world, k)
    }

    /// Creates the state of a query over the given component set: its
    /// archetype is canonicalized now, its match set starts empty.
    pub fn create_initial_state(
        world: &mut WorldContainer,
        component_set: &SparseSet<ComponentId, AccessMode>,
    ) -> (r: QueryState)
        requires
            old(world).wf(),
            component_set.wf(),
            forall|j: int| 0 <= j < component_set.spec_len()
                ==> #[trigger] component_set.key_seq()[j] < usize::MAX,
        ensures
            final(world).wf(),
            r.wf(*final(world)),
            r.query_set(*final(world)) =~= component_set.key_set(),
            r.entities.spec_len() == 0,
            final(world).spec_allocator() == old(world).spec_allocator(),
            final(world).spec_storage() == old(world).spec_storage(),
            final(world).spec_registrar() == old(world).spec_registrar(),
            old(world).columns_registered() ==> final(world).columns_registered(),
    {
        let query_archetype = world.query_archetype_of(component_set);
        QueryState { entities: SparseSet::new(), query_archetype }
    }

    /// Re-tests one entity against the query after its component set
    /// changed, inserting it into or removing it from the match set. The
    /// membership of every other slot is untouched.
    pub fn on_entity_changed(
        &mut self,
        mgr: &ArchetypeManager,
        entity: Entity,
        info: &EntityInfo,
    )
        requires
            old(self).entities.wf(),
            mgr.wf(),
            (old(self).query_archetype.0 as int) < mgr.spec_archetypes().len(),
            (info.archetype_id.0 as int) < mgr.spec_archetypes().len(),
            entity.0 < u32::MAX,
        ensures
            final(self).entities.wf(),
            final(self).query_archetype == old(self).query_archetype,
            final(self).entities.spec_contains(entity.0 as int)
                <==> mgr.spec_archetypes()[old(self).query_archetype.0 as int]
                    .component_set().subset_of(
                        mgr.spec_archetypes()[info.archetype_id.0 as int]
                            .component_set(),
                    ),
            forall|k: int| k != entity.0 as int
                ==> (#[trigger] final(self).entities.spec_contains(k)
                    <==> old(self).entities.spec_contains(k)),
    {
        let system_archetype = match mgr.get_archetype(self.query_archetype) {
            Some(a) => a,
            None => vstd::pervasive::unreached(),
        };
        let entity_archetype = match mgr.get_archetype(info.archetype_id) {
            Some(a) => a,
            None => vstd::pervasive::unreached(),
        };
        proof {
            assert(mgr.spec_archetypes()[self.query_archetype.0 as int].wf());
            assert(mgr.spec_archetypes()[info.archetype_id.0 as int].wf());
        }
        if entity_archetype.includes_fully(system_archetype) {
            self.entities.insert(entity, ());
        } else {
            self.entities.remove(entity);
        }
    }

    /// Removes a destroyed entity from the match set; the membership of
    /// every other slot is untouched.
    pub fn on_entity_destroyed(&mut self, entity: Entity)
        requires
            old(self).entities.wf(),
        ensures
            final(self).entities.wf(),
            final(self).query_archetype == old(self).query_archetype,
            !final(self).entities.spec_contains(entity.0 as int),
            forall|k: int| k != entity.0 as int
                ==> (#[trigger] final(self).entities.spec_contains(k)
                    <==> old(self).entities.spec_contains(k)),
    {
        self.entities.remove(entity);
    }

    /// The match set stays exact across a world change that touched the
    /// component set of a single entity slot, once the query was notified
    /// of the change: the notification re-tests exactly the touched slot,
    /// and every untouched slot matches in the new world exactly when it
    /// matched in the old one.
    pub proof fn lemma_match_set_restored(
        pre_state: Self,
        post_state: Self,
        pre_world: WorldContainer,
        post_world: WorldContainer,
        entity: Entity,
    )
        requires
            pre_state.match_set_ok(pre_world),
            post_state.query_archetype == pre_state.query_archetype,
            pre_state.wf(pre_world),
            post_state.wf(post_world),
            pre_state.query_set(pre_world) =~= post_state.query_set(post_world),
            // only the notified slot changed in the world
            forall|k: int| k != entity.0 as int
                ==> (#[trigger] post_world.spec_allocator().infos().spec_contains(k)
                    <==> pre_world.spec_allocator().infos().spec_contains(k)),
            forall|k: int| k != entity.0 as int
                    && pre_world.spec_allocator().infos().spec_contains(k)
                ==> #[trigger] post_world.spec_info_of(k) == pre_world.spec_info_of(k),
            // the notification re-tested exactly the touched slot
            post_state.entities.spec_contains(entity.0 as int)
                <==> post_state.spec_matches(post_world, entity.0 as int),
            forall|k: int| k != entity.0 as int
                ==> (#[trigger] post_state.entities.spec_contains(k)
                    <==> pre_state.entities.spec_contains(k)),
        ensures
            post_state.match_set_ok(post_world),
    {
        assert forall|k: int| #[trigger] post_state.entities.spec_contains(k)
            <==> post_state.spec_matches(post_world, k) by {
            if k != entity.0 as int {
                assert(pre_state.entities.spec_contains(k)
                    <==> pre_state.spec_matches(pre_world, k));
                if pre_world.spec_allocator().infos().spec_contains(k) {
                    assert(post_world.spec_info_of(k) == pre_world.spec_info_of(k));
                }
            }
        }
    }
}

} // verus!
