use vstd::prelude::*;

use vstd::pervasive::unreached;

use crate::archetype::{ArchetypeId, ArchetypeManager};
use crate::entity_manager::{Entity, EntityAllocator, EntityInfo};
use crate::erased_data_vec::ErasedVec;
use crate::resources::Resources;
use crate::sparse_set::{SparseIndex, SparseSet};
use crate::storage::TableStorage;
use crate::type_registrar::{TypeRegistrar, UniqueTypeId};

verus! {

/// The unique id of any component type.
#[derive(Debug, Hash, PartialEq, Eq, PartialOrd, Ord, Default, Clone, Copy, Structural)]
pub struct ComponentId(pub UniqueTypeId);

impl ComponentId {
    /// Builds a component id from its raw integer form.
    pub fn from_usize(value: usize) -> (r: ComponentId)
        ensures
            r.0.0 == value,
    {
        ComponentId(UniqueTypeId(value))
    }

    /// The raw integer form of this component id.
    pub fn as_usize(&self) -> (r: usize)
        ensures
            r == self.0.0,
    {
        self.0.0
    }
}

impl SparseIndex for ComponentId {
    open spec fn spec_index(&self) -> int {
        self.0.0 as int
    }

    fn index(&self) -> usize {
        self.0.0
    }
}

/// The world container holds all the state of the entity-component store:
/// the entity allocator, the columnar component storage, the type registry,
/// the archetype index, and the two resource registries. It is the sole
/// argument handed to systems.
pub struct WorldContainer {
    storage: TableStorage,
    registrar: TypeRegistrar,
    entity_manager: EntityAllocator,
    archetype_manager: ArchetypeManager,
    send_resources: Resources<true>,
    non_send_resources: Resources<false>,
    resource_sendness: SparseSet<ComponentId, bool>,
}

impl WorldContainer {
    pub closed spec fn spec_storage(self) -> TableStorage {
        self.storage
    }

    pub closed spec fn spec_registrar(self) -> TypeRegistrar {
        self.registrar
    }

    pub closed spec fn spec_allocator(self) -> EntityAllocator {
        self.entity_manager
    }

    pub closed spec fn spec_mgr(self) -> ArchetypeManager {
        self.archetype_manager
    }

    pub closed spec fn spec_send_resources(self) -> Resources<true> {
        self.send_resources
    }

    pub closed spec fn spec_non_send_resources(self) -> Resources<false> {
        self.non_send_resources
    }

    pub closed spec fn spec_sendness(self) -> SparseSet<ComponentId, bool> {
        self.resource_sendness
    }

    /// A handle is live when the allocator has it registered under the same
    /// generation.
    pub open spec fn spec_live(self, e: Entity) -> bool {
        self.spec_allocator().spec_live(e)
    }

    pub open spec fn spec_info_of(self, k: int) -> EntityInfo {
        self.spec_allocator().info_of(k)
    }

    /// The set of component id indices a live entity currently carries.
    pub open spec fn spec_components_of(self, e: Entity) -> Set<int> {
        self.spec_info_of(e.0 as int).components.key_set()
    }

    pub open spec fn spec_has_component(self, e: Entity, c: int) -> bool {
        &&& self.spec_live(e)
        &&& self.spec_components_of(e).contains(c)
    }

    /// The stored bytes of component `c` of entity slot `k`.
    pub open spec fn spec_component_value(self, e: Entity, c: int) -> Seq<u8> {
        self.spec_storage().spec_slot(c, e.0 as int)
    }

    pub open spec fn spec_registered(self, token: u64) -> bool {
        self.spec_registrar().spec_registered(token)
    }

    /// The component id index assigned to a registered type token.
    pub open spec fn spec_token_id(self, token: u64) -> int {
        self.spec_registrar().spec_id_of(token)
    }

    /// The component-set bookkeeping of one live entity slot: a well-formed
    /// set of registered component ids, each backed by a storage column.
    pub open spec fn entity_sets_ok(self, k: int) -> bool {
        let info = self.spec_allocator().info_of(k);
        &&& info.components.wf()
        &&& forall|j: int| 0 <= j < info.components.spec_len() ==> {
            &&& #[trigger] info.components.key_seq()[j]
                < self.spec_registrar().tokens().len()
            &&& self.spec_storage().spec_has_column(info.components.key_seq()[j])
        }
    }

    /// The archetype bookkeeping of one live entity slot: its recorded
    /// archetype id points at the archetype holding exactly its component
    /// set, and the entity is a member of that archetype's entity set.
    pub open spec fn entity_arch_ok(self, k: int) -> bool {
        let info = self.spec_allocator().info_of(k);
        let aid = info.archetype_id.0 as int;
        &&& aid < self.spec_mgr().spec_archetypes().len()
        &&& self.spec_mgr().spec_archetypes()[aid].component_set()
            =~= info.components.key_set()
        &&& self.spec_mgr().spec_archetypes()[aid].entities.spec_contains(k)
    }

    pub open spec fn entity_ok(self, k: int) -> bool {
        &&& self.entity_sets_ok(k)
        &&& self.entity_arch_ok(k)
    }

    /// Each recorded resource id is present in the registry its sendness
    /// flag names.
    pub open spec fn resources_ok(self) -> bool {
        forall|i: int| 0 <= i < self.spec_sendness().spec_len() ==> {
            let k = #[trigger] self.spec_sendness().key_seq()[i];
            if self.spec_sendness().entries()[i].1 {
                self.spec_send_resources().spec_has(k)
            } else {
                self.spec_non_send_resources().spec_has(k)
            }
        }
    }

    /// Every entity-set entry of every archetype points back at a live
    /// entity whose recorded archetype id is that archetype: an entity
    /// appears in exactly one archetype's entity set, and a destroyed
    /// entity in none.
    pub open spec fn arch_members_ok(self) -> bool {
        forall|i: int, j: int|
            0 <= i < self.spec_mgr().spec_archetypes().len()
                && 0 <= j < self.spec_mgr().spec_archetypes()[i].entities.spec_len()
            ==> {
                let k = #[trigger] self.spec_mgr().spec_archetypes()[i].entities
                    .key_seq()[j];
                &&& self.spec_allocator().infos().spec_contains(k)
                &&& self.spec_info_of(k).archetype_id.0 == i
            }
    }

    /// The well-formedness of all the parts, short of any per-entity
    /// bookkeeping.
    pub open spec fn frame_ok(self) -> bool {
        &&& self.spec_registrar().wf()
        &&& self.spec_registrar().tokens().len() <= usize::MAX
        &&& self.spec_allocator().wf()
        &&& self.spec_storage().wf()
        &&& self.spec_mgr().wf()
        &&& self.spec_send_resources().wf()
        &&& self.spec_non_send_resources().wf()
        &&& self.spec_sendness().wf()
        &&& self.resources_ok()
        &&& self.arch_members_ok()
        &&& self.spec_storage().spec_num_entities() >= self.spec_allocator().next_id()
    }

    /// The world invariant: all parts are well-formed and every live entity
    /// slot has consistent component-set and archetype bookkeeping.
    pub open spec fn wf(self) -> bool {
        &&& self.frame_ok()
        &&& forall|k: int| #[trigger] self.spec_allocator().infos().spec_contains(k)
            ==> self.entity_ok(k)
    }

    /// The world invariant with the archetype bookkeeping of one entity
    /// slot suspended: the state between changing an entity's component set
    /// and re-canonicalizing its archetype.
    pub open spec fn wf_except(self, t: int) -> bool {
        &&& self.frame_ok()
        &&& forall|k: int| #[trigger] self.spec_allocator().infos().spec_contains(k)
            ==> self.entity_sets_ok(k)
        &&& forall|k: int| #[trigger] self.spec_allocator().infos().spec_contains(k)
                && k != t
            ==> self.entity_arch_ok(k)
    }

    /// A live entity's archetype id is exactly the id its current component
    /// set canonicalizes to: the stored archetype always reflects the
    /// current component set.
    pub proof fn lemma_archetype_reflects_components(self, e: Entity)
        requires
            self.wf(),
            self.spec_live(e),
        ensures
            self.spec_info_of(e.0 as int).archetype_id.0
                == self.spec_mgr().spec_archetype_of(self.spec_components_of(e)),
    {
        let k = e.0 as int;
        let info = self.spec_info_of(k);
        let aid = info.archetype_id.0 as int;
        let s = self.spec_components_of(e);
        assert(self.entity_ok(k));
        assert(self.spec_mgr().spec_archetypes()[aid].component_set() =~= s);
        assert(self.spec_mgr().spec_has_set(s));
        let w = self.spec_mgr().spec_archetype_of(s);
        assert(self.spec_mgr().spec_archetypes()[w].component_set() =~= s);
        if w != aid {
            assert(self.spec_mgr().spec_archetypes()[w].component_set()
                =~= self.spec_mgr().spec_archetypes()[aid].component_set());
        }
    }

    /// Re-establishes the archetype-membership bookkeeping across an
    /// operation that left the archetype index unchanged, kept every
    /// member's slot registered, and did not change any member's recorded
    /// archetype id.
    proof fn lemma_arch_members_preserved(pre: Self, post: Self)
        requires
            pre.arch_members_ok(),
            pre.spec_mgr() == post.spec_mgr(),
            pre.spec_mgr().wf(),
            forall|k: int| pre.spec_allocator().infos().spec_contains(k)
                ==> #[trigger] post.spec_allocator().infos().spec_contains(k),
            forall|k: int| pre.spec_allocator().infos().spec_contains(k)
                ==> #[trigger] post.spec_info_of(k).archetype_id
                    == pre.spec_info_of(k).archetype_id,
        ensures
            post.arch_members_ok(),
    {
        assert forall|i: int, j: int|
            0 <= i < post.spec_mgr().spec_archetypes().len()
                && 0 <= j < post.spec_mgr().spec_archetypes()[i].entities.spec_len()
            implies {
                let k = #[trigger] post.spec_mgr().spec_archetypes()[i].entities
                    .key_seq()[j];
                &&& post.spec_allocator().infos().spec_contains(k)
                &&& post.spec_info_of(k).archetype_id.0 == i
            } by {
            let k = post.spec_mgr().spec_archetypes()[i].entities.key_seq()[j];
            assert(pre.spec_mgr().spec_archetypes()[i].entities.key_seq()[j] == k);
            assert(pre.spec_allocator().infos().spec_contains(k));
            assert(pre.spec_info_of(k).archetype_id.0 == i);
        }
    }

    /// Re-establishes the archetype-membership bookkeeping after the
    /// archetype index grew by fresh, empty archetypes and nothing else
    /// changed.
    proof fn lemma_arch_members_mgr_grown(pre: Self, post: Self)
        requires
            pre.arch_members_ok(),
            post.spec_allocator() == pre.spec_allocator(),
            post.spec_mgr().spec_archetypes().len()
                >= pre.spec_mgr().spec_archetypes().len(),
            forall|i: int| 0 <= i < pre.spec_mgr().spec_archetypes().len()
                ==> #[trigger] post.spec_mgr().spec_archetypes()[i]
                    == pre.spec_mgr().spec_archetypes()[i],
            forall|i: int| pre.spec_mgr().spec_archetypes().len() <= i
                    < post.spec_mgr().spec_archetypes().len()
                ==> (#[trigger] post.spec_mgr().spec_archetypes()[i]).entities
                    .spec_len() == 0,
        ensures
            post.arch_members_ok(),
    {
        assert forall|i: int, j: int|
            0 <= i < post.spec_mgr().spec_archetypes().len()
                && 0 <= j < post.spec_mgr().spec_archetypes()[i].entities.spec_len()
            implies {
                let k = #[trigger] post.spec_mgr().spec_archetypes()[i].entities
                    .key_seq()[j];
                &&& post.spec_allocator().infos().spec_contains(k)
                &&& post.spec_info_of(k).archetype_id.0 == i
            } by {
            let k = post.spec_mgr().spec_archetypes()[i].entities.key_seq()[j];
            assert(i < pre.spec_mgr().spec_archetypes().len());
            assert(pre.spec_mgr().spec_archetypes()[i].entities.key_seq()[j] == k);
            assert(pre.spec_allocator().infos().spec_contains(k));
            assert(pre.spec_info_of(k).archetype_id.0 == i);
        }
    }

    /// A live entity is a member of exactly one archetype's entity set:
    /// the one its recorded archetype id names.
    pub proof fn lemma_entity_in_exactly_one_archetype(self, e: Entity, i: int)
        requires
            self.wf(),
            self.spec_live(e),
            0 <= i < self.spec_mgr().spec_archetypes().len(),
            i != self.spec_info_of(e.0 as int).archetype_id.0,
        ensures
            !self.spec_mgr().spec_archetypes()[i].entities.spec_contains(e.0 as int),
    {
        let k = e.0 as int;
        if self.spec_mgr().spec_archetypes()[i].entities.spec_contains(k) {
            assert(self.spec_mgr().spec_archetypes()[i].wf());
            self.spec_mgr().spec_archetypes()[i].entities.lemma_pos_valid(k);
            let j = self.spec_mgr().spec_archetypes()[i].entities.pos_of(k);
            assert(self.spec_mgr().spec_archetypes()[i].entities.key_seq()[j] == k);
            assert(self.spec_info_of(k).archetype_id.0 == i);
        }
    }

    /// Every column of the storage covers every entity slot that was ever
    /// alive.
    pub proof fn lemma_column_covers_entities(self, c: int)
        requires
            self.wf(),
            self.spec_storage().spec_has_column(c),
        ensures
            self.spec_storage().spec_column(c).spec_len()
                >= self.spec_allocator().next_id(),
    {
        self.spec_storage().lemma_column_covers(c);
    }

    /// Creates an empty world.
    pub fn new() -> (r: Self)
        ensures
            r.wf(),
            r.spec_allocator().infos().spec_len() == 0,
            r.spec_allocator().next_id() == 0,
            r.spec_allocator().dropped().len() == 0,
            r.spec_registrar().tokens().len() == 0,
            r.spec_storage().spec_num_entities() == 0,
            r.spec_mgr().spec_archetypes().len() == 0,
            r.spec_sendness().spec_len() == 0,
            forall|c: int| !(#[trigger] r.spec_send_resources().spec_has(c)),
            forall|c: int| !(#[trigger] r.spec_non_send_resources().spec_has(c)),
            forall|c: int| !(#[trigger] r.spec_sendness().spec_contains(c)),
    {
        WorldContainer {
            storage: TableStorage::new(),
            registrar: TypeRegistrar::new(),
            entity_manager: EntityAllocator::new(),
            archetype_manager: ArchetypeManager::new(),
            send_resources: Resources::new(),
            non_send_resources: Resources::new(),
            resource_sendness: SparseSet::new(),
        }
    }

    /// Whether a new entity can be spawned within machine limits.
    pub open spec fn can_spawn(self) -> bool {
        &&& self.spec_allocator().next_id() < u32::MAX
        &&& self.spec_storage().can_register()
    }

    /// Re-canonicalizes the archetype of one live entity after its
    /// component set changed: the entity leaves its old archetype's entity
    /// set, its component set is canonicalized (lazily creating the
    /// archetype), and it joins the new archetype's entity set.
    pub fn update_entity_archetype(&mut self, entity: Entity)
        requires
            old(self).wf_except(entity.0 as int),
            old(self).spec_live(entity),
        ensures
            final(self).wf(),
            final(self).spec_storage() == old(self).spec_storage(),
            final(self).spec_registrar() == old(self).spec_registrar(),
            final(self).spec_send_resources() == old(self).spec_send_resources(),
            final(self).spec_non_send_resources() == old(self).spec_non_send_resources(),
            final(self).spec_sendness() == old(self).spec_sendness(),
            final(self).spec_allocator().next_id() == old(self).spec_allocator().next_id(),
            final(self).spec_allocator().dropped() == old(self).spec_allocator().dropped(),
            forall|e: Entity| #[trigger] final(self).spec_live(e)
                <==> old(self).spec_live(e),
            forall|e: Entity| old(self).spec_live(e)
                ==> #[trigger] final(self).spec_components_of(e)
                    == old(self).spec_components_of(e),
            forall|e: Entity| old(self).spec_live(e) && e != entity
                ==> #[trigger] final(self).spec_info_of(e.0 as int)
                    == old(self).spec_info_of(e.0 as int),
            final(self).spec_info_of(entity.0 as int).components
                == old(self).spec_info_of(entity.0 as int).components,
            final(self).spec_info_of(entity.0 as int).generation
                == old(self).spec_info_of(entity.0 as int).generation,
            forall|i: int| 0 <= i < old(self).spec_mgr().spec_archetypes().len()
                ==> (#[trigger] final(self).spec_mgr().spec_archetypes()[i])
                    .component_set()
                    =~= old(self).spec_mgr().spec_archetypes()[i].component_set(),
            final(self).spec_mgr().spec_archetypes().len()
                >= old(self).spec_mgr().spec_archetypes().len(),
    {
        let ghost pre = *self;
        let ghost t = entity.0 as int;
        let old_aid = match self.entity_manager.entity_info(entity) {
            Some(info) => info.archetype_id,
            None => unreached(),
        };
        // leave the old archetype's entity set, if the recorded id is a
        // real archetype
        if old_aid.0 < self.archetype_manager.archetype_count() {
            let arch = self.archetype_manager.get_archetype_mut(old_aid);
            proof {
                assert(pre.spec_mgr().spec_archetypes()[old_aid.0 as int].wf());
            }
            arch.entities.remove(entity);
        }
        let ghost mid1 = *self;
        proof {
            assert(mid1.arch_members_ok()) by {
                assert forall|i: int, j: int|
                    0 <= i < mid1.spec_mgr().spec_archetypes().len()
                        && 0 <= j < mid1.spec_mgr().spec_archetypes()[i].entities
                            .spec_len()
                    implies {
                        let k = #[trigger] mid1.spec_mgr().spec_archetypes()[i]
                            .entities.key_seq()[j];
                        &&& mid1.spec_allocator().infos().spec_contains(k)
                        &&& mid1.spec_info_of(k).archetype_id.0 == i
                    } by {
                    let k = mid1.spec_mgr().spec_archetypes()[i].entities.key_seq()[j];
                    assert(pre.spec_mgr().spec_archetypes()[i].wf());
                    mid1.spec_mgr().spec_archetypes()[i].entities.lemma_pos_unique(j);
                    assert(mid1.spec_mgr().spec_archetypes()[i].entities
                        .spec_contains(k));
                    assert(pre.spec_mgr().spec_archetypes()[i].entities
                        .spec_contains(k));
                    pre.spec_mgr().spec_archetypes()[i].entities.lemma_pos_valid(k);
                    let j0 = pre.spec_mgr().spec_archetypes()[i].entities.pos_of(k);
                    assert(pre.spec_mgr().spec_archetypes()[i].entities
                        .key_seq()[j0] == k);
                }
            }
            // the entity has left its only entity set
            assert forall|i: int|
                0 <= i < mid1.spec_mgr().spec_archetypes().len()
                implies !(#[trigger] mid1.spec_mgr().spec_archetypes()[i].entities
                    .spec_contains(t)) by {
                if mid1.spec_mgr().spec_archetypes()[i].entities.spec_contains(t) {
                    assert(pre.spec_mgr().spec_archetypes()[i].wf());
                    mid1.spec_mgr().spec_archetypes()[i].entities.lemma_pos_valid(t);
                    let j = mid1.spec_mgr().spec_archetypes()[i].entities.pos_of(t);
                    assert(mid1.spec_mgr().spec_archetypes()[i].entities
                        .key_seq()[j] == t);
                    assert(mid1.spec_info_of(t).archetype_id.0 == i);
                    assert(i == old_aid.0);
                    assert(pre.spec_mgr().spec_archetypes()[i].entities
                        .spec_contains(t));
                }
            }
            assert(mid1.spec_mgr().wf()) by {
                assert forall|i: int|
                    0 <= i < mid1.spec_mgr().spec_archetypes().len()
                    implies (#[trigger] mid1.spec_mgr().spec_archetypes()[i]).wf() by {
                    if i != old_aid.0 as int {
                        assert(mid1.spec_mgr().spec_archetypes()[i]
                            == pre.spec_mgr().spec_archetypes()[i]);
                    }
                }
                assert forall|i: int, j: int|
                    0 <= i < mid1.spec_mgr().spec_archetypes().len()
                        && 0 <= j < mid1.spec_mgr().spec_archetypes().len() && i != j
                    implies !((#[trigger] mid1.spec_mgr().spec_archetypes()[i])
                        .component_set()
                        =~= (#[trigger] mid1.spec_mgr().spec_archetypes()[j])
                            .component_set()) by {
                    assert(mid1.spec_mgr().spec_archetypes()[i].component_set()
                        =~= pre.spec_mgr().spec_archetypes()[i].component_set());
                    assert(mid1.spec_mgr().spec_archetypes()[j].component_set()
                        =~= pre.spec_mgr().spec_archetypes()[j].component_set());
                }
            }
            assert forall|k: int|
                #[trigger] mid1.spec_allocator().infos().spec_contains(k) && k != t
                implies mid1.entity_arch_ok(k) by {
                assert(pre.entity_arch_ok(k));
                pre.spec_allocator().lemma_slot(k);
                let aid = pre.spec_allocator().info_of(k).archetype_id.0 as int;
                if aid == old_aid.0 as int {
                    assert(pre.spec_allocator().handle_of(k).0 as int == k);
                    assert(k != entity.0 as int);
                }
            }
        }
        // canonicalize the new component set
        let new_aid = {
            let info = match self.entity_manager.entity_info(entity) {
                Some(info) => info,
                None => unreached(),
            };
            self.archetype_manager.archetype_of(&info.components)
        };
        let ghost mid2 = *self;
        proof {
            assert forall|k: int|
                #[trigger] mid2.spec_allocator().infos().spec_contains(k) && k != t
                implies mid2.entity_arch_ok(k) by {
                assert(mid1.entity_arch_ok(k));
                let aid = mid1.spec_allocator().info_of(k).archetype_id.0 as int;
                assert(mid2.spec_mgr().spec_archetypes()[aid]
                    == mid1.spec_mgr().spec_archetypes()[aid]);
            }
        }
        // record the new archetype id
        proof {
            mid2.spec_allocator().lemma_slot(t);
            mid2.spec_allocator().lemma_next_bound();
        }
        let info = self.entity_manager.entity_info_mut(entity);
        let ghost new_info = EntityInfo {
            generation: info.generation,
            components: info.components,
            archetype_id: new_aid,
        };
        info.archetype_id = new_aid;
        proof {
            EntityAllocator::lemma_info_update(
                mid2.spec_allocator(),
                self.spec_allocator(),
                entity,
                new_info,
            );
        }
        let ghost mid3 = *self;
        // join the new archetype's entity set
        let arch = self.archetype_manager.get_archetype_mut(new_aid);
        proof {
            assert(mid3.spec_mgr().spec_archetypes()[new_aid.0 as int].wf());
            assert(0 <= entity.spec_index() < usize::MAX) by {
                mid2.spec_allocator().lemma_slot(t);
                mid2.spec_allocator().lemma_next_bound();
            }
        }
        arch.entities.insert(entity, ());
        proof {
            let post = *self;
            assert(post.spec_mgr().wf()) by {
                assert forall|i: int|
                    0 <= i < post.spec_mgr().spec_archetypes().len()
                    implies (#[trigger] post.spec_mgr().spec_archetypes()[i]).wf() by {
                    if i != new_aid.0 as int {
                        assert(post.spec_mgr().spec_archetypes()[i]
                            == mid3.spec_mgr().spec_archetypes()[i]);
                    }
                }
                assert forall|i: int, j: int|
                    0 <= i < post.spec_mgr().spec_archetypes().len()
                        && 0 <= j < post.spec_mgr().spec_archetypes().len() && i != j
                    implies !((#[trigger] post.spec_mgr().spec_archetypes()[i])
                        .component_set()
                        =~= (#[trigger] post.spec_mgr().spec_archetypes()[j])
                            .component_set()) by {
                    assert(post.spec_mgr().spec_archetypes()[i].component_set()
                        =~= mid3.spec_mgr().spec_archetypes()[i].component_set());
                    assert(post.spec_mgr().spec_archetypes()[j].component_set()
                        =~= mid3.spec_mgr().spec_archetypes()[j].component_set());
                }
            }
            assert forall|k: int|
                #[trigger] post.spec_allocator().infos().spec_contains(k)
                implies post.entity_ok(k) by {
                assert(mid3.spec_allocator().infos().spec_contains(k));
                assert(pre.entity_sets_ok(k));
                if k == t {
                    assert(post.spec_info_of(k) == new_info);
                    assert(post.entity_sets_ok(k));
                    assert(post.spec_mgr().spec_archetypes()[new_aid.0 as int]
                        .component_set()
                        =~= new_info.components.key_set());
                    assert(post.spec_mgr().spec_archetypes()[new_aid.0 as int]
                        .entities.spec_contains(k));
                    assert(post.entity_arch_ok(k));
                } else {
                    assert(mid2.entity_arch_ok(k));
                    assert(post.spec_info_of(k) == mid2.spec_info_of(k));
                    assert(post.entity_sets_ok(k)) by {
                        assert(post.spec_info_of(k) == pre.spec_info_of(k));
                    }
                    let aid = post.spec_info_of(k).archetype_id.0 as int;
                    if aid == new_aid.0 as int {
                        mid2.spec_allocator().lemma_slot(k);
                        assert(k != entity.0 as int);
                        assert(post.spec_mgr().spec_archetypes()[aid]
                            .entities.spec_contains(k));
                    } else {
                        assert(post.spec_mgr().spec_archetypes()[aid]
                            == mid3.spec_mgr().spec_archetypes()[aid]);
                    }
                    assert(post.entity_arch_ok(k));
                }
            }
            assert forall|e: Entity| pre.spec_live(e)
                implies #[trigger] post.spec_components_of(e)
                    == pre.spec_components_of(e) by {
                if e.0 as int == t {
                    assert(post.spec_info_of(t).components
                        == pre.spec_info_of(t).components);
                } else {
                    assert(post.spec_info_of(e.0 as int) == pre.spec_info_of(e.0 as int));
                }
            }
            assert(post.arch_members_ok()) by {
                assert forall|i: int, j: int|
                    0 <= i < post.spec_mgr().spec_archetypes().len()
                        && 0 <= j < post.spec_mgr().spec_archetypes()[i].entities
                            .spec_len()
                    implies {
                        let k = #[trigger] post.spec_mgr().spec_archetypes()[i]
                            .entities.key_seq()[j];
                        &&& post.spec_allocator().infos().spec_contains(k)
                        &&& post.spec_info_of(k).archetype_id.0 == i
                    } by {
                    let k = post.spec_mgr().spec_archetypes()[i].entities.key_seq()[j];
                    assert(post.spec_mgr().spec_archetypes()[i].wf());
                    post.spec_mgr().spec_archetypes()[i].entities.lemma_pos_unique(j);
                    assert(post.spec_mgr().spec_archetypes()[i].entities
                        .spec_contains(k));
                    if i == new_aid.0 as int && k == t {
                        assert(post.spec_info_of(t).archetype_id == new_aid);
                    } else {
                        // a member other than the moved entity was already a
                        // member before the move, under the same archetype id
                        if i == new_aid.0 as int {
                            assert(mid3.spec_mgr().spec_archetypes()[i].entities
                                .spec_contains(k));
                        } else {
                            assert(post.spec_mgr().spec_archetypes()[i]
                                == mid3.spec_mgr().spec_archetypes()[i]);
                        }
                        assert(mid2.spec_mgr().spec_archetypes()[i].entities
                            .spec_contains(k));
                        if i < mid1.spec_mgr().spec_archetypes().len() {
                            assert(mid1.spec_mgr().spec_archetypes()[i].entities
                                .spec_contains(k));
                            assert(mid1.spec_mgr().spec_archetypes()[i].wf());
                            mid1.spec_mgr().spec_archetypes()[i].entities
                                .lemma_pos_valid(k);
                            let j1 = mid1.spec_mgr().spec_archetypes()[i].entities
                                .pos_of(k);
                            assert(mid1.spec_mgr().spec_archetypes()[i].entities
                                .key_seq()[j1] == k);
                            assert(mid1.spec_allocator().infos().spec_contains(k));
                            assert(mid1.spec_info_of(k).archetype_id.0 == i);
                            assert(k != t);
                            mid2.spec_allocator().lemma_slot(k);
                            let e2 = mid2.spec_allocator().handle_of(k);
                            assert(e2 != entity);
                            assert(mid3.spec_allocator().spec_live(e2)
                                && mid3.spec_allocator().info_of(k)
                                    == mid2.spec_allocator().info_of(k));
                            assert(post.spec_info_of(k) == mid1.spec_info_of(k));
                        } else {
                            assert(mid2.spec_mgr().spec_archetypes()[i].entities
                                .spec_len() == 0);
                            assert(false);
                        }
                    }
                }
            }
        }
    }

    /// Every storage column belongs to a registered component id.
    pub open spec fn columns_registered(self) -> bool {
        forall|j: int| 0 <= j < self.spec_storage().spec_columns().spec_len()
            ==> #[trigger] self.spec_storage().spec_columns().key_seq()[j]
                < self.spec_registrar().tokens().len()
    }

    /// Propagates column-id registration across an operation that at most
    /// added the column of one registered id and did not shrink the
    /// registry.
    pub proof fn lemma_columns_registered_step(pre: Self, post: Self, c: int)
        requires
            pre.columns_registered(),
            pre.spec_storage().wf(),
            post.spec_storage().wf(),
            pre.spec_registrar().tokens().len() <= post.spec_registrar().tokens().len(),
            c < post.spec_registrar().tokens().len(),
            forall|c2: int| #[trigger] post.spec_storage().spec_has_column(c2)
                ==> pre.spec_storage().spec_has_column(c2) || c2 == c,
        ensures
            post.columns_registered(),
    {
        post.spec_storage().lemma_columns_wf();
        pre.spec_storage().lemma_columns_wf();
        assert forall|j: int|
            0 <= j < post.spec_storage().spec_columns().spec_len()
            implies #[trigger] post.spec_storage().spec_columns().key_seq()[j]
                < post.spec_registrar().tokens().len() by {
            post.spec_storage().spec_columns().lemma_pos_unique(j);
            let c2 = post.spec_storage().spec_columns().key_seq()[j];
            assert(post.spec_storage().spec_has_column(c2));
            if pre.spec_storage().spec_has_column(c2) {
                pre.spec_storage().spec_columns().lemma_pos_valid(c2);
                let p2 = pre.spec_storage().spec_columns().pos_of(c2);
                assert(pre.spec_storage().spec_columns().key_seq()[p2] == c2);
            }
        }
    }

    /// The id a token will be under after registration: its current id, or
    /// the next fresh one.
    pub open spec fn spec_id_after(self, token: u64) -> int {
        if self.spec_registered(token) {
            self.spec_token_id(token)
        } else {
            self.spec_registrar().tokens().len() as int
        }
    }

    /// Creates a new entity with an empty component set. The handle is
    /// fresh: not equal to any live handle, nor to any recorded handle of a
    /// destroyed entity.
    pub fn new_entity(&mut self) -> (r: Entity)
        requires
            old(self).wf(),
            old(self).can_spawn(),
        ensures
            final(self).wf(),
            final(self).spec_live(r),
            final(self).spec_components_of(r) =~= Set::<int>::empty(),
            !old(self).spec_live(r),
            forall|d: int| 0 <= d < old(self).spec_allocator().dropped().len()
                ==> r != old(self).spec_allocator().dropped()[d],
            forall|e: Entity| old(self).spec_live(e) ==> #[trigger] final(self).spec_live(e)
                && final(self).spec_components_of(e) == old(self).spec_components_of(e),
            forall|e: Entity| #[trigger] final(self).spec_live(e)
                ==> old(self).spec_live(e) || e == r,
            final(self).spec_registrar() == old(self).spec_registrar(),
            final(self).spec_send_resources() == old(self).spec_send_resources(),
            final(self).spec_non_send_resources() == old(self).spec_non_send_resources(),
            final(self).spec_sendness() == old(self).spec_sendness(),
            final(self).spec_storage().spec_num_entities()
                == old(self).spec_storage().spec_num_entities() + 1,
            forall|c: int| #[trigger] final(self).spec_storage().spec_has_column(c)
                <==> old(self).spec_storage().spec_has_column(c),
            forall|c: int, k: int|
                old(self).spec_storage().spec_has_column(c)
                    && 0 <= k < old(self).spec_storage().spec_num_entities()
                    ==> #[trigger] final(self).spec_storage().spec_slot(c, k)
                        =~= old(self).spec_storage().spec_slot(c, k),
            old(self).spec_allocator().dropped().len() > 0
                ==> r == Entity(
                    old(self).spec_allocator().dropped().last().0,
                    (old(self).spec_allocator().dropped().last().1 + 1) as u32,
                ),
            old(self).spec_allocator().dropped().len() == 0
                ==> r == Entity(old(self).spec_allocator().next_id() as u32, 0),
    {
        let ghost pre = *self;
        let id = self.entity_manager.new_entity();
        let ghost t = id.0 as int;
        proof {
            assert forall|k: int|
                #[trigger] self.spec_allocator().infos().spec_contains(k) && k != t
                implies self.entity_sets_ok(k) && self.entity_arch_ok(k) by {
                pre.spec_allocator().lemma_slot(k);
                assert(pre.entity_ok(k));
                assert(self.spec_info_of(k) == pre.spec_info_of(k));
            }
        }
        let ghost mid1 = *self;
        self.storage.register_new_entity(id);
        proof {
            assert forall|k: int|
                #[trigger] self.spec_allocator().infos().spec_contains(k)
                implies self.entity_sets_ok(k) by {
                if k != t {
                    assert(mid1.entity_sets_ok(k));
                    assert(self.spec_info_of(k) == mid1.spec_info_of(k));
                } else {
                    assert(self.spec_info_of(t).components.spec_len() == 0);
                }
            }
            assert forall|k: int|
                #[trigger] self.spec_allocator().infos().spec_contains(k) && k != t
                implies self.entity_arch_ok(k) by {
                assert(mid1.entity_arch_ok(k));
            }
            assert forall|k: int| pre.spec_allocator().infos().spec_contains(k)
                implies #[trigger] self.spec_info_of(k).archetype_id
                    == pre.spec_info_of(k).archetype_id by {
                pre.spec_allocator().lemma_slot(k);
                let e2 = pre.spec_allocator().handle_of(k);
                assert(mid1.spec_live(e2));
                assert(self.spec_info_of(k) == pre.spec_info_of(k));
            }
            Self::lemma_arch_members_preserved(pre, *self);
            assert(self.wf_except(t));
        }
        let ghost mid2 = *self;
        self.update_entity_archetype(id);
        proof {
            assert(self.spec_components_of(id) =~= Set::<int>::empty()) by {
                assert(mid2.spec_info_of(t).components.spec_len() == 0);
                assert(self.spec_info_of(t).components
                    == mid2.spec_info_of(t).components);
            }
            assert forall|e: Entity| pre.spec_live(e)
                implies #[trigger] self.spec_live(e)
                    && self.spec_components_of(e) == pre.spec_components_of(e) by {
                pre.spec_allocator().lemma_slot(e.0 as int);
                assert(e.0 as int != t);
                assert(mid2.spec_live(e));
                assert(mid2.spec_info_of(e.0 as int) == pre.spec_info_of(e.0 as int));
            }
            assert forall|e: Entity| #[trigger] self.spec_live(e)
                implies pre.spec_live(e) || e == id by {
                assert(mid2.spec_live(e));
                if e.0 as int != t {
                    assert(pre.spec_allocator().infos().spec_contains(e.0 as int));
                    pre.spec_allocator().lemma_slot(e.0 as int);
                    assert(pre.spec_allocator().handle_of(e.0 as int) == e);
                } else {
                    mid2.spec_allocator().lemma_slot(t);
                    assert(e == id);
                }
            }
        }
        id
    }

    /// Registers an entity under a pre-allocated handle, with an empty
    /// component set: the ingestion path for ids that were minted ahead of
    /// time for deferred commands.
    pub fn new_entity_with_id(&mut self, id: Entity)
        requires
            old(self).wf(),
            old(self).can_spawn(),
            !old(self).spec_allocator().infos().spec_contains(id.0 as int),
            (id.0 as int) < old(self).spec_allocator().next_id(),
            forall|d: int| 0 <= d < old(self).spec_allocator().dropped().len()
                ==> (#[trigger] old(self).spec_allocator().dropped()[d]).0 != id.0,
        ensures
            final(self).wf(),
            final(self).spec_live(id),
            final(self).spec_components_of(id) =~= Set::<int>::empty(),
            forall|e: Entity| old(self).spec_live(e) ==> #[trigger] final(self).spec_live(e)
                && final(self).spec_components_of(e) == old(self).spec_components_of(e),
            forall|e: Entity| #[trigger] final(self).spec_live(e)
                ==> old(self).spec_live(e) || e == id,
            final(self).spec_registrar() == old(self).spec_registrar(),
            final(self).spec_send_resources() == old(self).spec_send_resources(),
            final(self).spec_non_send_resources() == old(self).spec_non_send_resources(),
            final(self).spec_sendness() == old(self).spec_sendness(),
            forall|c: int, k: int|
                old(self).spec_storage().spec_has_column(c)
                    && 0 <= k < old(self).spec_storage().spec_num_entities()
                    ==> #[trigger] final(self).spec_storage().spec_slot(c, k)
                        =~= old(self).spec_storage().spec_slot(c, k),
    {
        let ghost pre = *self;
        self.entity_manager.new_with_id(id);
        let ghost t = id.0 as int;
        proof {
            assert forall|k: int|
                #[trigger] self.spec_allocator().infos().spec_contains(k) && k != t
                implies self.entity_sets_ok(k) && self.entity_arch_ok(k) by {
                pre.spec_allocator().lemma_slot(k);
                assert(pre.entity_ok(k));
                assert(self.spec_info_of(k) == pre.spec_info_of(k));
            }
        }
        let ghost mid1 = *self;
        self.storage.register_new_entity(id);
        proof {
            assert forall|k: int|
                #[trigger] self.spec_allocator().infos().spec_contains(k)
                implies self.entity_sets_ok(k) by {
                if k != t {
                    assert(mid1.entity_sets_ok(k));
                    assert(self.spec_info_of(k) == mid1.spec_info_of(k));
                } else {
                    assert(self.spec_info_of(t).components.spec_len() == 0);
                }
            }
            assert forall|k: int|
                #[trigger] self.spec_allocator().infos().spec_contains(k) && k != t
                implies self.entity_arch_ok(k) by {
                assert(mid1.entity_arch_ok(k));
            }
            assert(self.wf_except(t));
        }
        let ghost mid2 = *self;
        self.update_entity_archetype(id);
        proof {
            assert(self.spec_components_of(id) =~= Set::<int>::empty()) by {
                assert(mid2.spec_info_of(t).components.spec_len() == 0);
                assert(self.spec_info_of(t).components
                    == mid2.spec_info_of(t).components);
            }
            assert forall|e: Entity| pre.spec_live(e)
                implies #[trigger] self.spec_live(e)
                    && self.spec_components_of(e) == pre.spec_components_of(e) by {
                pre.spec_allocator().lemma_slot(e.0 as int);
                assert(e.0 as int != t);
                assert(mid2.spec_live(e));
                assert(mid2.spec_info_of(e.0 as int) == pre.spec_info_of(e.0 as int));
            }
            assert forall|e: Entity| #[trigger] self.spec_live(e)
                implies pre.spec_live(e) || e == id by {
                assert(mid2.spec_live(e));
                if e.0 as int != t {
                    assert(pre.spec_allocator().infos().spec_contains(e.0 as int));
                    pre.spec_allocator().lemma_slot(e.0 as int);
                    assert(pre.spec_allocator().handle_of(e.0 as int) == e);
                } else {
                    mid2.spec_allocator().lemma_slot(t);
                    assert(e == id);
                }
            }
        }
    }

    /// Writes one component of a live entity, with the component id already
    /// resolved: replaces the old value if the entity has the component,
    /// otherwise installs the component and re-canonicalizes the entity's
    /// archetype.
    fn add_component_core(
        &mut self,
        entity: Entity,
        component_id: ComponentId,
        elem_size: usize,
        align: usize,
        value: &Vec<u8>,
    )
        requires
            old(self).wf(),
            old(self).columns_registered(),
            old(self).spec_live(entity),
            component_id.spec_index() < old(self).spec_registrar().tokens().len(),
            value@.len() == elem_size,
            align >= 1,
            elem_size as int % align as int == 0,
            old(self).spec_storage().spec_num_entities() * elem_size <= usize::MAX,
            old(self).spec_storage().layout_ok(
                component_id.spec_index(),
                elem_size as int,
                align as int,
            ),
        ensures
            final(self).wf(),
            final(self).columns_registered(),
            final(self).spec_has_component(entity, component_id.spec_index()),
            final(self).spec_component_value(entity, component_id.spec_index())
                =~= value@,
            final(self).spec_components_of(entity)
                =~= old(self).spec_components_of(entity).insert(component_id.spec_index()),
            forall|e: Entity| #[trigger] final(self).spec_live(e)
                <==> old(self).spec_live(e),
            forall|e: Entity| old(self).spec_live(e) && e != entity
                ==> #[trigger] final(self).spec_info_of(e.0 as int)
                    == old(self).spec_info_of(e.0 as int),
            final(self).spec_registrar() == old(self).spec_registrar(),
            final(self).spec_send_resources() == old(self).spec_send_resources(),
            final(self).spec_non_send_resources() == old(self).spec_non_send_resources(),
            final(self).spec_sendness() == old(self).spec_sendness(),
            final(self).spec_allocator().next_id() == old(self).spec_allocator().next_id(),
            final(self).spec_allocator().dropped() == old(self).spec_allocator().dropped(),
            old(self).spec_has_component(entity, component_id.spec_index()) ==> {
                &&& final(self).spec_mgr() == old(self).spec_mgr()
                &&& final(self).spec_allocator() == old(self).spec_allocator()
            },
            final(self).spec_mgr().spec_archetypes().len()
                >= old(self).spec_mgr().spec_archetypes().len(),
            forall|i: int| 0 <= i < old(self).spec_mgr().spec_archetypes().len()
                ==> (#[trigger] final(self).spec_mgr().spec_archetypes()[i])
                    .component_set()
                    =~= old(self).spec_mgr().spec_archetypes()[i].component_set(),
            final(self).spec_storage().spec_num_entities()
                == old(self).spec_storage().spec_num_entities(),
            forall|c: int| #[trigger] final(self).spec_storage().spec_has_column(c)
                <==> old(self).spec_storage().spec_has_column(c)
                    || c == component_id.spec_index(),
            forall|c: int, k: int|
                old(self).spec_storage().spec_has_column(c)
                    && !(c == component_id.spec_index() && k == entity.0 as int)
                    && 0 <= k < old(self).spec_storage().spec_num_entities()
                    ==> #[trigger] final(self).spec_storage().spec_slot(c, k)
                        =~= old(self).spec_storage().spec_slot(c, k),
    {
        let ghost pre = *self;
        let ghost t = entity.0 as int;
        let ghost c = component_id.spec_index();
        proof {
            pre.spec_allocator().lemma_slot(t);
            pre.spec_allocator().lemma_next_bound();
            assert(pre.entity_ok(t));
        }
        let has = match self.entity_manager.entity_info(entity) {
            Some(info) => info.components.contains(&component_id),
            None => unreached(),
        };
        if has {
            self.storage.replace_entity_component(
                entity,
                component_id,
                elem_size,
                align,
                value,
            );
            proof {
                assert forall|k: int|
                    #[trigger] self.spec_allocator().infos().spec_contains(k)
                    implies self.entity_ok(k) by {
                    assert(pre.entity_ok(k));
                }
                assert(pre.spec_components_of(entity).contains(c)) by {
                    assert(pre.spec_info_of(t).components.spec_contains(c));
                }
                assert(self.spec_components_of(entity)
                    =~= pre.spec_components_of(entity).insert(c));
                Self::lemma_columns_registered_step(pre, *self, c);
            }
        } else {
            let info = self.entity_manager.entity_info_mut(entity);
            info.components.insert(component_id, ());
            proof {
                let p = pre.spec_allocator().infos().pos_of(t);
                pre.spec_allocator().infos().lemma_pos_valid(t);
                let e = self.spec_allocator().infos().entries()[p];
                assert(e.0 == entity);
                EntityAllocator::lemma_info_update(
                    pre.spec_allocator(),
                    self.spec_allocator(),
                    entity,
                    e.1,
                );
            }
            let ghost mid1 = *self;
            self.storage.add_entity_component(
                entity,
                component_id,
                elem_size,
                align,
                value,
            );
            proof {
                assert forall|k: int|
                    #[trigger] self.spec_allocator().infos().spec_contains(k)
                    implies self.entity_sets_ok(k) by {
                    assert(pre.entity_sets_ok(k));
                    if k != t {
                        assert(self.spec_info_of(k) == pre.spec_info_of(k));
                    } else {
                        let newset = self.spec_info_of(t).components;
                        let oldset = pre.spec_info_of(t).components;
                        assert(newset.wf());
                        assert forall|j: int| 0 <= j < newset.spec_len() implies {
                            &&& #[trigger] newset.key_seq()[j]
                                < self.spec_registrar().tokens().len()
                            &&& self.spec_storage().spec_has_column(newset.key_seq()[j])
                        } by {
                            newset.lemma_pos_unique(j);
                            let k2 = newset.key_seq()[j];
                            assert(newset.spec_contains(k2));
                            if k2 == c {
                            } else {
                                assert(oldset.spec_contains(k2));
                                oldset.lemma_pos_valid(k2);
                            }
                        }
                    }
                }
                assert forall|k: int|
                    #[trigger] self.spec_allocator().infos().spec_contains(k) && k != t
                    implies self.entity_arch_ok(k) by {
                    assert(pre.entity_arch_ok(k));
                    assert(self.spec_info_of(k) == pre.spec_info_of(k));
                }
                assert(self.wf_except(t));
            }
            let ghost mid2 = *self;
            proof {
                assert(mid2.spec_components_of(entity)
                    =~= pre.spec_components_of(entity).insert(c)) by {
                    let newset = mid2.spec_info_of(t).components;
                    let oldset = pre.spec_info_of(t).components;
                    assert forall|k2: int| newset.key_set().contains(k2)
                        implies oldset.key_set().insert(c).contains(k2) by {
                        assert(newset.spec_contains(k2));
                        if k2 != c {
                            assert(oldset.spec_contains(k2));
                        }
                    }
                    assert forall|k2: int| oldset.key_set().insert(c).contains(k2)
                        implies newset.key_set().contains(k2) by {
                        if k2 == c {
                            assert(newset.spec_contains(k2));
                        } else {
                            assert(oldset.spec_contains(k2));
                            assert(newset.spec_contains(k2));
                        }
                    }
                }
                Self::lemma_columns_registered_step(pre, mid2, c);
            }
            self.update_entity_archetype(entity);
            proof {
                assert(self.spec_components_of(entity)
                    =~= pre.spec_components_of(entity).insert(c)) by {
                    assert(self.spec_info_of(t).components
                        == mid2.spec_info_of(t).components);
                    assert(mid2.spec_components_of(entity)
                        =~= pre.spec_components_of(entity).insert(c));
                }
                Self::lemma_columns_registered_step(mid2, *self, c);
            }
            proof {
                assert(self.spec_component_value(entity, c)
                    =~= mid2.spec_component_value(entity, c));
                assert forall|e: Entity| #[trigger] self.spec_live(e)
                    <==> pre.spec_live(e) by {
                    assert(self.spec_live(e) <==> mid2.spec_live(e));
                    if mid2.spec_live(e) {
                        if e.0 as int != t {
                            assert(mid2.spec_info_of(e.0 as int)
                                == pre.spec_info_of(e.0 as int));
                        } else {
                            mid2.spec_allocator().lemma_slot(t);
                            assert(e == entity);
                        }
                    }
                    if pre.spec_live(e) {
                        if e.0 as int != t {
                            assert(mid2.spec_info_of(e.0 as int)
                                == pre.spec_info_of(e.0 as int));
                        }
                    }
                }
                assert forall|e: Entity| pre.spec_live(e) && e != entity
                    implies #[trigger] self.spec_info_of(e.0 as int)
                        == pre.spec_info_of(e.0 as int) by {
                    pre.spec_allocator().lemma_slot(e.0 as int);
                    assert(e.0 as int != t);
                    assert(mid2.spec_live(e));
                }
                assert forall|c2: int, k: int|
                    pre.spec_storage().spec_has_column(c2)
                        && !(c2 == c && k == t)
                        && 0 <= k < pre.spec_storage().spec_num_entities()
                    implies #[trigger] self.spec_storage().spec_slot(c2, k)
                        =~= pre.spec_storage().spec_slot(c2, k) by {
                    assert(mid2.spec_storage().spec_slot(c2, k)
                        =~= pre.spec_storage().spec_slot(c2, k));
                }
            }
        }
    }

    /// Adds a component to a live entity, registering its type token on
    /// first sight; if the entity already has the component, the value is
    /// replaced.
    pub fn add_component(
        &mut self,
        entity: Entity,
        token: u64,
        elem_size: usize,
        align: usize,
        value: &Vec<u8>,
    )
        requires
            old(self).wf(),
            old(self).columns_registered(),
            old(self).spec_live(entity),
            old(self).spec_registrar().tokens().len() < usize::MAX,
            value@.len() == elem_size,
            align >= 1,
            elem_size as int % align as int == 0,
            old(self).spec_storage().spec_num_entities() * elem_size <= usize::MAX,
            old(self).spec_storage().layout_ok(
                old(self).spec_id_after(token),
                elem_size as int,
                align as int,
            ),
        ensures
            final(self).wf(),
            final(self).columns_registered(),
            final(self).spec_registered(token),
            final(self).spec_token_id(token) == old(self).spec_id_after(token),
            final(self).spec_has_component(entity, old(self).spec_id_after(token)),
            final(self).spec_component_value(entity, old(self).spec_id_after(token))
                =~= value@,
            final(self).spec_components_of(entity)
                =~= old(self).spec_components_of(entity)
                    .insert(old(self).spec_id_after(token)),
            forall|e: Entity| #[trigger] final(self).spec_live(e)
                <==> old(self).spec_live(e),
            forall|e: Entity| old(self).spec_live(e) && e != entity
                ==> #[trigger] final(self).spec_info_of(e.0 as int)
                    == old(self).spec_info_of(e.0 as int),
            final(self).spec_send_resources() == old(self).spec_send_resources(),
            final(self).spec_non_send_resources() == old(self).spec_non_send_resources(),
            final(self).spec_sendness() == old(self).spec_sendness(),
            final(self).spec_registrar().tokens() =~= if old(self).spec_registered(
                token,
            ) {
                old(self).spec_registrar().tokens()
            } else {
                old(self).spec_registrar().tokens().push(token)
            },
            old(self).spec_registered(token)
                && old(self).spec_has_component(entity, old(self).spec_token_id(token))
                ==> {
                &&& final(self).spec_mgr() == old(self).spec_mgr()
                &&& final(self).spec_allocator() == old(self).spec_allocator()
                &&& final(self).spec_registrar() == old(self).spec_registrar()
            },
            final(self).spec_mgr().spec_archetypes().len()
                >= old(self).spec_mgr().spec_archetypes().len(),
            forall|i: int| 0 <= i < old(self).spec_mgr().spec_archetypes().len()
                ==> (#[trigger] final(self).spec_mgr().spec_archetypes()[i])
                    .component_set()
                    =~= old(self).spec_mgr().spec_archetypes()[i].component_set(),
            final(self).spec_storage().spec_num_entities()
                == old(self).spec_storage().spec_num_entities(),
            forall|c: int, k: int|
                old(self).spec_storage().spec_has_column(c)
                    && !(c == old(self).spec_id_after(token) && k == entity.0 as int)
                    && 0 <= k < old(self).spec_storage().spec_num_entities()
                    ==> #[trigger] final(self).spec_storage().spec_slot(c, k)
                        =~= old(self).spec_storage().spec_slot(c, k),
    {
        let ghost pre = *self;
        let uid = self.registrar.get_registration(token);
        let component_id = ComponentId(uid);
        proof {
            self.spec_registrar().lemma_id_valid(token);
            assert forall|k: int|
                #[trigger] self.spec_allocator().infos().spec_contains(k)
                implies self.entity_ok(k) by {
                assert(pre.entity_ok(k));
            }
            assert(self.wf());
            assert(self.columns_registered());
        }
        self.add_component_core(entity, component_id, elem_size, align, value);
    }

    /// Reads the current value of one component of an entity. A stale
    /// handle, an unregistered token or an absent component all quietly
    /// miss.
    pub fn get_component(&self, entity: Entity, token: u64) -> (r: Option<Vec<u8>>)
        requires
            self.wf(),
        ensures
            match r {
                Some(b) => {
                    &&& self.spec_registered(token)
                    &&& self.spec_has_component(entity, self.spec_token_id(token))
                    &&& b@ =~= self.spec_component_value(
                        entity,
                        self.spec_token_id(token),
                    )
                },
                None => !(self.spec_registered(token)
                    && self.spec_has_component(entity, self.spec_token_id(token))),
            },
    {
        let uid = match self.registrar.get_maybe(token) {
            Some(uid) => uid,
            None => {
                return None;
            },
        };
        let component_id = ComponentId(uid);
        let info = match self.entity_manager.entity_info(entity) {
            Some(info) => info,
            None => {
                return None;
            },
        };
        if info.components.contains(&component_id) {
            proof {
                let t = entity.0 as int;
                self.spec_allocator().lemma_slot(t);
                assert(self.entity_sets_ok(t));
                let comps = self.spec_info_of(t).components;
                comps.lemma_pos_valid(component_id.spec_index());
                let j = comps.pos_of(component_id.spec_index());
                assert(comps.key_seq()[j] == component_id.spec_index());
                assert(self.spec_storage().spec_has_column(component_id.spec_index()));
                self.spec_allocator().lemma_next_bound();
            }
            Some(self.storage.get_component(entity, component_id))
        } else {
            None
        }
    }

    /// Removes one component from an entity, if the entity is live and has
    /// it; the type token is registered on first sight either way. The
    /// component's storage slot is scrubbed and left vacant.
    pub fn remove_component(&mut self, entity: Entity, token: u64)
        requires
            old(self).wf(),
            old(self).columns_registered(),
            old(self).spec_registrar().tokens().len() < usize::MAX,
        ensures
            final(self).wf(),
            final(self).columns_registered(),
            final(self).spec_registered(token),
            final(self).spec_token_id(token) == old(self).spec_id_after(token),
            !final(self).spec_has_component(entity, old(self).spec_id_after(token)),
            old(self).spec_live(entity) ==> final(self).spec_components_of(entity)
                =~= old(self).spec_components_of(entity)
                    .remove(old(self).spec_id_after(token)),
            forall|e: Entity| #[trigger] final(self).spec_live(e)
                <==> old(self).spec_live(e),
            forall|e: Entity| old(self).spec_live(e) && e != entity
                ==> #[trigger] final(self).spec_info_of(e.0 as int)
                    == old(self).spec_info_of(e.0 as int),
            final(self).spec_send_resources() == old(self).spec_send_resources(),
            final(self).spec_non_send_resources() == old(self).spec_non_send_resources(),
            final(self).spec_sendness() == old(self).spec_sendness(),
            final(self).spec_registrar().tokens() =~= if old(self).spec_registered(
                token,
            ) {
                old(self).spec_registrar().tokens()
            } else {
                old(self).spec_registrar().tokens().push(token)
            },
            final(self).spec_mgr().spec_archetypes().len()
                >= old(self).spec_mgr().spec_archetypes().len(),
            forall|i: int| 0 <= i < old(self).spec_mgr().spec_archetypes().len()
                ==> (#[trigger] final(self).spec_mgr().spec_archetypes()[i])
                    .component_set()
                    =~= old(self).spec_mgr().spec_archetypes()[i].component_set(),
            final(self).spec_storage().spec_num_entities()
                == old(self).spec_storage().spec_num_entities(),
            forall|c: int, k: int|
                old(self).spec_storage().spec_has_column(c)
                    && !(c == old(self).spec_id_after(token) && k == entity.0 as int)
                    && 0 <= k < old(self).spec_storage().spec_num_entities()
                    ==> #[trigger] final(self).spec_storage().spec_slot(c, k)
                        =~= old(self).spec_storage().spec_slot(c, k),
    {
        let ghost pre = *self;
        let ghost t = entity.0 as int;
        let uid = self.registrar.get_registration(token);
        let component_id = ComponentId(uid);
        let ghost c = component_id.spec_index();
        let ghost reg = *self;
        proof {
            self.spec_registrar().lemma_id_valid(token);
            assert forall|k: int|
                #[trigger] self.spec_allocator().infos().spec_contains(k)
                implies self.entity_ok(k) by {
                assert(pre.entity_ok(k));
            }
            assert(self.wf());
            assert(self.columns_registered());
        }
        let has = match self.entity_manager.entity_info(entity) {
            Some(info) => info.components.contains(&component_id),
            None => false,
        };
        if has == false {
            proof {
                if reg.spec_live(entity) {
                    assert(self.spec_components_of(entity)
                        =~= pre.spec_components_of(entity).remove(c)) by {
                        assert(!self.spec_info_of(t).components.spec_contains(c));
                        assert forall|k2: int|
                            self.spec_components_of(entity).contains(k2)
                            implies pre.spec_components_of(entity)
                                .remove(c).contains(k2) by {
                            assert(self.spec_info_of(t).components.spec_contains(k2));
                        }
                    }
                }
            }
            return ;
        }
        proof {
            reg.spec_allocator().lemma_slot(t);
            reg.spec_allocator().lemma_next_bound();
            assert(reg.entity_ok(t));
            let comps = reg.spec_info_of(t).components;
            comps.lemma_pos_valid(c);
            let j = comps.pos_of(c);
            assert(comps.key_seq()[j] == c);
            assert(reg.spec_storage().spec_has_column(c));
        }
        self.storage.erase_entity_component(entity, component_id);
        let ghost mid1 = *self;
        proof {
            assert forall|k: int|
                #[trigger] mid1.spec_allocator().infos().spec_contains(k)
                implies mid1.entity_ok(k) by {
                assert(reg.entity_ok(k));
            }
        }
        let info = self.entity_manager.entity_info_mut(entity);
        info.components.remove(component_id);
        proof {
            let p = mid1.spec_allocator().infos().pos_of(t);
            mid1.spec_allocator().infos().lemma_pos_valid(t);
            let e = self.spec_allocator().infos().entries()[p];
            assert(e.0 == entity);
            EntityAllocator::lemma_info_update(
                mid1.spec_allocator(),
                self.spec_allocator(),
                entity,
                e.1,
            );
            assert forall|k: int|
                #[trigger] self.spec_allocator().infos().spec_contains(k)
                implies self.entity_sets_ok(k) by {
                assert(mid1.entity_sets_ok(k));
                if k != t {
                    assert(self.spec_info_of(k) == mid1.spec_info_of(k));
                } else {
                    let newset = self.spec_info_of(t).components;
                    let oldset = mid1.spec_info_of(t).components;
                    assert(newset.wf());
                    assert forall|j: int| 0 <= j < newset.spec_len() implies {
                        &&& #[trigger] newset.key_seq()[j]
                            < self.spec_registrar().tokens().len()
                        &&& self.spec_storage().spec_has_column(newset.key_seq()[j])
                    } by {
                        newset.lemma_pos_unique(j);
                        let k2 = newset.key_seq()[j];
                        assert(newset.spec_contains(k2));
                        assert(oldset.spec_contains(k2));
                        oldset.lemma_pos_valid(k2);
                    }
                }
            }
            assert forall|k: int|
                #[trigger] self.spec_allocator().infos().spec_contains(k) && k != t
                implies self.entity_arch_ok(k) by {
                assert(mid1.entity_arch_ok(k));
                assert(self.spec_info_of(k) == mid1.spec_info_of(k));
            }
            assert(self.wf_except(t));
        }
        let ghost mid2 = *self;
        self.update_entity_archetype(entity);
        proof {
            assert(self.spec_components_of(entity)
                =~= pre.spec_components_of(entity).remove(c)) by {
                assert(self.spec_info_of(t).components
                    == mid2.spec_info_of(t).components);
                let newset = mid2.spec_info_of(t).components;
                let oldset = reg.spec_info_of(t).components;
                assert forall|k2: int| newset.key_set().contains(k2)
                    implies oldset.key_set().remove(c).contains(k2) by {
                    assert(newset.spec_contains(k2));
                    assert(oldset.spec_contains(k2) && k2 != c);
                }
                assert forall|k2: int| oldset.key_set().remove(c).contains(k2)
                    implies newset.key_set().contains(k2) by {
                    assert(oldset.spec_contains(k2));
                    assert(newset.spec_contains(k2));
                }
            }
            assert(!self.spec_has_component(entity, c)) by {
                assert(!mid2.spec_info_of(t).components.spec_contains(c));
            }
            Self::lemma_columns_registered_step(reg, *self, c);
            assert forall|e: Entity| #[trigger] self.spec_live(e)
                <==> pre.spec_live(e) by {
                assert(self.spec_live(e) <==> mid2.spec_live(e));
                if mid2.spec_live(e) && e.0 as int != t {
                    assert(mid2.spec_info_of(e.0 as int) == reg.spec_info_of(e.0 as int));
                }
                if mid2.spec_live(e) && e.0 as int == t {
                    mid2.spec_allocator().lemma_slot(t);
                    assert(e == entity);
                }
                if pre.spec_live(e) && e.0 as int != t {
                    assert(mid2.spec_info_of(e.0 as int) == reg.spec_info_of(e.0 as int));
                }
            }
            assert forall|e: Entity| pre.spec_live(e) && e != entity
                implies #[trigger] self.spec_info_of(e.0 as int)
                    == pre.spec_info_of(e.0 as int) by {
                pre.spec_allocator().lemma_slot(e.0 as int);
                assert(e.0 as int != t);
                assert(mid2.spec_live(e));
            }
            assert forall|c2: int, k: int|
                pre.spec_storage().spec_has_column(c2)
                    && !(c2 == c && k == t)
                    && 0 <= k < pre.spec_storage().spec_num_entities()
                implies #[trigger] self.spec_storage().spec_slot(c2, k)
                    =~= pre.spec_storage().spec_slot(c2, k) by {
                assert(mid2.spec_storage().spec_slot(c2, k)
                    =~= pre.spec_storage().spec_slot(c2, k));
            }
        }
    }

    /// Destroys an entity: every component it carries is removed from the
    /// storage, then its info record is released and the slot queued for
    /// re-issue under a later generation. A stale or unknown handle is
    /// quietly ignored.
    pub fn remove_entity(&mut self, entity: Entity)
        requires
            old(self).wf(),
            old(self).columns_registered(),
        ensures
            final(self).wf(),
            final(self).columns_registered(),
            !final(self).spec_live(entity),
            !old(self).spec_live(entity) ==> *final(self) == *old(self),
            forall|e: Entity| #[trigger] final(self).spec_live(e)
                <==> old(self).spec_live(e) && e != entity,
            forall|e: Entity| old(self).spec_live(e) && e != entity
                ==> #[trigger] final(self).spec_info_of(e.0 as int)
                    == old(self).spec_info_of(e.0 as int),
            final(self).spec_registrar() == old(self).spec_registrar(),
            final(self).spec_send_resources() == old(self).spec_send_resources(),
            final(self).spec_non_send_resources() == old(self).spec_non_send_resources(),
            final(self).spec_sendness() == old(self).spec_sendness(),
            final(self).spec_storage().spec_num_entities()
                == old(self).spec_storage().spec_num_entities(),
            forall|c: int, k: int|
                old(self).spec_storage().spec_has_column(c)
                    && k != entity.0 as int
                    && 0 <= k < old(self).spec_storage().spec_num_entities()
                    ==> #[trigger] final(self).spec_storage().spec_slot(c, k)
                        =~= old(self).spec_storage().spec_slot(c, k),
            old(self).spec_live(entity) && entity.1 < u32::MAX
                ==> final(self).spec_allocator().dropped()
                    =~= old(self).spec_allocator().dropped().push(entity),
    {
        let ghost pre = *self;
        let ghost t = entity.0 as int;
        let is_live = match self.entity_manager.entity_info(entity) {
            Some(_) => true,
            None => false,
        };
        if !is_live {
            return ;
        }
        proof {
            pre.spec_allocator().lemma_slot(t);
            pre.spec_allocator().lemma_next_bound();
        }
        loop
            invariant
                pre.wf(),
                pre.spec_live(entity),
                self.frame_ok(),
                self.columns_registered(),
                self.spec_live(entity),
                entity.0 as int == t,
                forall|k: int| #[trigger] self.spec_allocator().infos().spec_contains(k)
                    ==> self.entity_sets_ok(k),
                forall|k: int| #[trigger] self.spec_allocator().infos().spec_contains(k)
                        && k != t
                    ==> self.entity_arch_ok(k),
                self.spec_registrar() == pre.spec_registrar(),
                self.spec_send_resources() == pre.spec_send_resources(),
                self.spec_non_send_resources() == pre.spec_non_send_resources(),
                self.spec_sendness() == pre.spec_sendness(),
                self.spec_mgr() == pre.spec_mgr(),
                self.spec_allocator().dropped() == pre.spec_allocator().dropped(),
                self.spec_allocator().next_id() == pre.spec_allocator().next_id(),
                self.spec_allocator().infos().key_seq()
                    =~= pre.spec_allocator().infos().key_seq(),
                forall|e: Entity| pre.spec_live(e) && e != entity
                    ==> #[trigger] self.spec_live(e)
                        && self.spec_info_of(e.0 as int) == pre.spec_info_of(e.0 as int),
                forall|e: Entity| #[trigger] self.spec_live(e) <==> pre.spec_live(e),
                self.spec_storage().spec_num_entities()
                    == pre.spec_storage().spec_num_entities(),
                forall|c: int| #[trigger] self.spec_storage().spec_has_column(c)
                    <==> pre.spec_storage().spec_has_column(c),
                forall|c: int, k: int|
                    pre.spec_storage().spec_has_column(c)
                        && k != t
                        && 0 <= k < pre.spec_storage().spec_num_entities()
                        ==> #[trigger] self.spec_storage().spec_slot(c, k)
                            =~= pre.spec_storage().spec_slot(c, k),
            ensures
                self.spec_info_of(t).components.spec_len() == 0,
            decreases self.spec_info_of(t).components.spec_len(),
        {
            let ghost round = *self;
            let component_id = {
                let info = match self.entity_manager.entity_info(entity) {
                    Some(info) => info,
                    None => unreached(),
                };
                if info.components.len() == 0 {
                    break ;
                }
                info.components.key_at(0)
            };
            let ghost c = component_id.spec_index();
            proof {
                round.spec_allocator().lemma_slot(t);
                round.spec_allocator().lemma_next_bound();
                assert(round.entity_sets_ok(t));
                let comps = round.spec_info_of(t).components;
                comps.lemma_pos_unique(0);
                assert(comps.spec_contains(c));
                assert(round.spec_storage().spec_has_column(c));
            }
            self.storage.erase_entity_component(entity, component_id);
            let ghost mid1 = *self;
            let info = self.entity_manager.entity_info_mut(entity);
            info.components.remove(component_id);
            proof {
                let p = mid1.spec_allocator().infos().pos_of(t);
                mid1.spec_allocator().infos().lemma_pos_valid(t);
                let e = self.spec_allocator().infos().entries()[p];
                assert(e.0 == entity);
                EntityAllocator::lemma_info_update(
                    mid1.spec_allocator(),
                    self.spec_allocator(),
                    entity,
                    e.1,
                );
                assert forall|k: int|
                    #[trigger] self.spec_allocator().infos().spec_contains(k)
                    implies self.entity_sets_ok(k) by {
                    assert(round.entity_sets_ok(k));
                    if k != t {
                        assert(self.spec_info_of(k) == round.spec_info_of(k));
                    } else {
                        let newset = self.spec_info_of(t).components;
                        let oldset = round.spec_info_of(t).components;
                        assert(newset.wf());
                        assert forall|j: int| 0 <= j < newset.spec_len() implies {
                            &&& #[trigger] newset.key_seq()[j]
                                < self.spec_registrar().tokens().len()
                            &&& self.spec_storage().spec_has_column(newset.key_seq()[j])
                        } by {
                            newset.lemma_pos_unique(j);
                            let k2 = newset.key_seq()[j];
                            assert(newset.spec_contains(k2));
                            assert(oldset.spec_contains(k2));
                            oldset.lemma_pos_valid(k2);
                        }
                    }
                }
                assert forall|k: int|
                    #[trigger] self.spec_allocator().infos().spec_contains(k)
                        && k != t
                    implies self.entity_arch_ok(k) by {
                    assert(round.entity_arch_ok(k));
                    assert(self.spec_info_of(k) == round.spec_info_of(k));
                }
                assert forall|e: Entity| pre.spec_live(e) && e != entity
                    implies #[trigger] self.spec_live(e)
                        && self.spec_info_of(e.0 as int)
                            == pre.spec_info_of(e.0 as int) by {
                    pre.spec_allocator().lemma_slot(e.0 as int);
                    assert(e.0 as int != t);
                    assert(round.spec_live(e));
                    assert(self.spec_info_of(e.0 as int)
                        == round.spec_info_of(e.0 as int));
                }
                assert(self.spec_info_of(t).components.spec_len()
                    == round.spec_info_of(t).components.spec_len() - 1);
                assert forall|k: int| round.spec_allocator().infos().spec_contains(k)
                    implies #[trigger] self.spec_info_of(k).archetype_id
                        == round.spec_info_of(k).archetype_id by {
                    if k != t {
                        round.spec_allocator().lemma_slot(k);
                        let e2 = round.spec_allocator().handle_of(k);
                        assert(round.spec_live(e2) && e2 != entity);
                        assert(self.spec_info_of(k) == round.spec_info_of(k));
                    }
                }
                Self::lemma_arch_members_preserved(round, *self);
                Self::lemma_columns_registered_step(round, *self, c);
                assert forall|e2: Entity| #[trigger] self.spec_live(e2)
                    <==> round.spec_live(e2) by {
                    let k2 = e2.0 as int;
                    if k2 == t {
                        assert(self.spec_allocator().spec_live(entity));
                        if self.spec_live(e2) {
                            self.spec_allocator().lemma_slot(t);
                            assert(e2 == entity);
                        }
                        if round.spec_live(e2) {
                            round.spec_allocator().lemma_slot(t);
                            assert(e2 == entity);
                        }
                    } else {
                        if self.spec_allocator().infos().spec_contains(k2) {
                            assert(round.spec_allocator().infos().spec_contains(k2));
                            let h = round.spec_allocator().handle_of(k2);
                            round.spec_allocator().lemma_slot(k2);
                            assert(h != entity);
                            assert(self.spec_allocator().spec_live(h));
                            assert(self.spec_allocator().handle_of(k2) == h);
                        }
                    }
                }
            }
        }
        let ghost cleared = *self;
        // a destroyed entity appears in no archetype's entity set: leave
        // the recorded archetype's set before releasing the slot
        let old_aid = match self.entity_manager.entity_info(entity) {
            Some(info) => info.archetype_id,
            None => unreached(),
        };
        if old_aid.0 < self.archetype_manager.archetype_count() {
            let arch = self.archetype_manager.get_archetype_mut(old_aid);
            proof {
                assert(cleared.spec_mgr().spec_archetypes()[old_aid.0 as int].wf());
            }
            arch.entities.remove(entity);
        }
        proof {
            assert(self.spec_mgr().wf()) by {
                assert forall|i: int|
                    0 <= i < self.spec_mgr().spec_archetypes().len()
                    implies (#[trigger] self.spec_mgr().spec_archetypes()[i]).wf() by {
                    if i != old_aid.0 as int {
                        assert(self.spec_mgr().spec_archetypes()[i]
                            == cleared.spec_mgr().spec_archetypes()[i]);
                    }
                }
                assert forall|i: int, j: int|
                    0 <= i < self.spec_mgr().spec_archetypes().len()
                        && 0 <= j < self.spec_mgr().spec_archetypes().len() && i != j
                    implies !((#[trigger] self.spec_mgr().spec_archetypes()[i])
                        .component_set()
                        =~= (#[trigger] self.spec_mgr().spec_archetypes()[j])
                            .component_set()) by {
                    assert(self.spec_mgr().spec_archetypes()[i].component_set()
                        =~= cleared.spec_mgr().spec_archetypes()[i].component_set());
                    assert(self.spec_mgr().spec_archetypes()[j].component_set()
                        =~= cleared.spec_mgr().spec_archetypes()[j].component_set());
                }
            }
            assert(self.arch_members_ok()) by {
                assert forall|i: int, j: int|
                    0 <= i < self.spec_mgr().spec_archetypes().len()
                        && 0 <= j < self.spec_mgr().spec_archetypes()[i].entities
                            .spec_len()
                    implies {
                        let k = #[trigger] self.spec_mgr().spec_archetypes()[i]
                            .entities.key_seq()[j];
                        &&& self.spec_allocator().infos().spec_contains(k)
                        &&& self.spec_info_of(k).archetype_id.0 == i
                    } by {
                    let k = self.spec_mgr().spec_archetypes()[i].entities
                        .key_seq()[j];
                    assert(cleared.spec_mgr().spec_archetypes()[i].wf());
                    self.spec_mgr().spec_archetypes()[i].entities.lemma_pos_unique(j);
                    assert(self.spec_mgr().spec_archetypes()[i].entities
                        .spec_contains(k));
                    assert(cleared.spec_mgr().spec_archetypes()[i].entities
                        .spec_contains(k));
                    cleared.spec_mgr().spec_archetypes()[i].entities
                        .lemma_pos_valid(k);
                    let j0 = cleared.spec_mgr().spec_archetypes()[i].entities
                        .pos_of(k);
                    assert(cleared.spec_mgr().spec_archetypes()[i].entities
                        .key_seq()[j0] == k);
                }
            }
            // the entity is now in no archetype's entity set
            assert forall|i: int|
                0 <= i < self.spec_mgr().spec_archetypes().len()
                implies !(#[trigger] self.spec_mgr().spec_archetypes()[i].entities
                    .spec_contains(t)) by {
                if self.spec_mgr().spec_archetypes()[i].entities.spec_contains(t) {
                    assert(cleared.spec_mgr().spec_archetypes()[i].wf());
                    self.spec_mgr().spec_archetypes()[i].entities.lemma_pos_valid(t);
                    let j = self.spec_mgr().spec_archetypes()[i].entities.pos_of(t);
                    assert(self.spec_mgr().spec_archetypes()[i].entities
                        .key_seq()[j] == t);
                    assert(self.spec_info_of(t).archetype_id.0 == i);
                    assert(i == old_aid.0);
                    assert(cleared.spec_mgr().spec_archetypes()[i].entities
                        .spec_contains(t));
                }
            }
            assert forall|k: int|
                #[trigger] self.spec_allocator().infos().spec_contains(k) && k != t
                implies self.entity_arch_ok(k) by {
                assert(cleared.entity_arch_ok(k));
                let aid = cleared.spec_info_of(k).archetype_id.0 as int;
                if aid == old_aid.0 as int {
                    cleared.spec_allocator().lemma_slot(k);
                    assert(k != entity.0 as int);
                    assert(self.spec_mgr().spec_archetypes()[aid].entities
                        .spec_contains(k));
                } else {
                    assert(self.spec_mgr().spec_archetypes()[aid]
                        == cleared.spec_mgr().spec_archetypes()[aid]);
                }
            }
        }
        let ghost stripped = *self;
        self.entity_manager.destroy_entity(entity);
        proof {
            assert(stripped.spec_live(entity));
            assert(stripped.spec_allocator() == cleared.spec_allocator());
            assert(stripped.spec_storage() == cleared.spec_storage());
            assert(stripped.spec_registrar() == cleared.spec_registrar());
            assert(self.arch_members_ok()) by {
                assert forall|i: int, j: int|
                    0 <= i < self.spec_mgr().spec_archetypes().len()
                        && 0 <= j < self.spec_mgr().spec_archetypes()[i].entities
                            .spec_len()
                    implies {
                        let k = #[trigger] self.spec_mgr().spec_archetypes()[i]
                            .entities.key_seq()[j];
                        &&& self.spec_allocator().infos().spec_contains(k)
                        &&& self.spec_info_of(k).archetype_id.0 == i
                    } by {
                    let k = self.spec_mgr().spec_archetypes()[i].entities
                        .key_seq()[j];
                    assert(stripped.spec_mgr().spec_archetypes()[i].entities
                        .key_seq()[j] == k);
                    assert(stripped.spec_allocator().infos().spec_contains(k));
                    assert(stripped.spec_info_of(k).archetype_id.0 == i);
                    assert(stripped.spec_mgr().spec_archetypes()[i].wf());
                    stripped.spec_mgr().spec_archetypes()[i].entities
                        .lemma_pos_unique(j);
                    assert(stripped.spec_mgr().spec_archetypes()[i].entities
                        .spec_contains(k));
                    assert(k != t);
                    let e2 = stripped.spec_allocator().handle_of(k);
                    stripped.spec_allocator().lemma_slot(k);
                    assert(e2 != entity);
                    assert(self.spec_allocator().spec_live(e2)
                        && self.spec_allocator().info_of(k)
                            == stripped.spec_allocator().info_of(k));
                }
            }
            assert forall|k: int|
                #[trigger] self.spec_allocator().infos().spec_contains(k)
                implies self.entity_ok(k) by {
                assert(stripped.spec_allocator().infos().spec_contains(k));
                assert(k != t);
                let e2 = stripped.spec_allocator().handle_of(k);
                stripped.spec_allocator().lemma_slot(k);
                assert(e2 != entity);
                assert(self.spec_allocator().spec_live(e2));
                assert(self.spec_info_of(k) == stripped.spec_info_of(k));
                assert(cleared.spec_live(e2));
                assert(cleared.entity_sets_ok(k));
                assert(stripped.entity_sets_ok(k));
                assert(stripped.entity_arch_ok(k));
            }
            assert forall|e: Entity| #[trigger] self.spec_live(e)
                implies old(self).spec_live(e) && e != entity by {
                let k = e.0 as int;
                assert(self.spec_allocator().infos().spec_contains(k));
                assert(stripped.spec_allocator().infos().spec_contains(k));
                assert(k != t);
                let e2 = stripped.spec_allocator().handle_of(k);
                stripped.spec_allocator().lemma_slot(k);
                assert(e2 != entity);
                assert(self.spec_allocator().spec_live(e2));
                assert(self.spec_allocator().handle_of(k) == e2);
                assert(e == e2);
                assert(stripped.spec_live(e));
                assert(cleared.spec_live(e));
                assert(pre.spec_live(e));
            }
            assert forall|e: Entity| old(self).spec_live(e) && e != entity
                implies #[trigger] self.spec_live(e) by {
                assert(pre.spec_live(e));
                assert(cleared.spec_live(e));
                assert(stripped.spec_live(e));
                assert(stripped.spec_allocator().spec_live(e));
                assert(self.spec_allocator().spec_live(e));
            }
            assert forall|e: Entity| old(self).spec_live(e) && e != entity
                implies #[trigger] self.spec_info_of(e.0 as int)
                    == old(self).spec_info_of(e.0 as int) by {
                assert(pre.spec_live(e));
                assert(cleared.spec_live(e));
                assert(stripped.spec_live(e));
                assert(stripped.spec_allocator().spec_live(e));
                assert(self.spec_allocator().spec_live(e)
                    && self.spec_allocator().info_of(e.0 as int)
                        == stripped.spec_allocator().info_of(e.0 as int));
                assert(cleared.spec_info_of(e.0 as int) == pre.spec_info_of(e.0 as int));
                assert(stripped.spec_info_of(e.0 as int) == pre.spec_info_of(e.0 as int));
            }
        }
    }

    /// Gets the component id for a type token, registering the token on
    /// first sight.
    pub fn get_or_create_component_id(&mut self, token: u64) -> (r: ComponentId)
        requires
            old(self).wf(),
            old(self).spec_registrar().tokens().len() < usize::MAX,
        ensures
            final(self).wf(),
            final(self).spec_registered(token),
            r.spec_index() == old(self).spec_id_after(token),
            r.spec_index() == final(self).spec_token_id(token),
            old(self).spec_registered(token) ==> *final(self) == *old(self),
            final(self).spec_registrar().tokens() =~= if old(self).spec_registered(
                token,
            ) {
                old(self).spec_registrar().tokens()
            } else {
                old(self).spec_registrar().tokens().push(token)
            },
            final(self).spec_allocator() == old(self).spec_allocator(),
            final(self).spec_storage() == old(self).spec_storage(),
            final(self).spec_mgr() == old(self).spec_mgr(),
            final(self).spec_send_resources() == old(self).spec_send_resources(),
            final(self).spec_non_send_resources() == old(self).spec_non_send_resources(),
            final(self).spec_sendness() == old(self).spec_sendness(),
            old(self).columns_registered() ==> final(self).columns_registered(),
    {
        let ghost pre = *self;
        let uid = self.registrar.get_registration(token);
        proof {
            assert forall|k: int|
                #[trigger] self.spec_allocator().infos().spec_contains(k)
                implies self.entity_ok(k) by {
                assert(pre.entity_ok(k));
            }
        }
        ComponentId(uid)
    }

    /// Gets the component id for a type token, if the token was ever
    /// registered.
    pub fn get_component_id(&self, token: u64) -> (r: Option<ComponentId>)
        requires
            self.wf(),
        ensures
            match r {
                Some(id) => {
                    &&& self.spec_registered(token)
                    &&& id.spec_index() == self.spec_token_id(token)
                },
                None => !self.spec_registered(token),
            },
    {
        match self.registrar.get_maybe(token) {
            Some(uid) => Some(ComponentId(uid)),
            None => None,
        }
    }

    /// Gets the component id for a type token that the caller knows was
    /// registered.
    pub fn get_component_id_assertive(&self, token: u64) -> (r: ComponentId)
        requires
            self.wf(),
            self.spec_registered(token),
        ensures
            r.spec_index() == self.spec_token_id(token),
    {
        ComponentId(self.registrar.get(token))
    }

    /// Returns true if the entity is live and has a component of the type
    /// named by the token.
    pub fn entity_has_component(&self, entity: Entity, token: u64) -> (r: bool)
        requires
            self.wf(),
        ensures
            r == (self.spec_registered(token)
                && self.spec_has_component(entity, self.spec_token_id(token))),
    {
        let uid = match self.registrar.get_maybe(token) {
            Some(uid) => uid,
            None => {
                return false;
            },
        };
        let component_id = ComponentId(uid);
        match self.entity_manager.entity_info(entity) {
            Some(info) => info.components.contains(&component_id),
            None => false,
        }
    }

    /// Gets the info record of a live entity; a stale handle misses.
    pub fn get_entity_info(&self, e: Entity) -> (r: Option<&EntityInfo>)
        requires
            self.wf(),
        ensures
            match r {
                Some(info) => {
                    &&& self.spec_live(e)
                    &&& *info == self.spec_info_of(e.0 as int)
                },
                None => !self.spec_live(e),
            },
    {
        self.entity_manager.entity_info(e)
    }

    /// All live entity handles.
    pub fn iter_all_entities(&self) -> (r: Vec<Entity>)
        requires
            self.wf(),
        ensures
            r@.len() == self.spec_allocator().infos().spec_len(),
            forall|i: int| 0 <= i < r@.len()
                ==> r@[i] == self.spec_allocator().infos().entries()[i].0,
            forall|i: int| 0 <= i < r@.len() ==> self.spec_live(#[trigger] r@[i]),
    {
        self.entity_manager.iter_all_entities()
    }

    /// Read access to the archetype index.
    pub fn get_archetype_manager(&self) -> (r: &ArchetypeManager)
        ensures
            *r == self.spec_mgr(),
    {
        &self.archetype_manager
    }

    /// The archetype id that a query's component set canonicalizes to,
    /// creating the archetype lazily.
    pub fn query_archetype_of<T>(&mut self, ids: &SparseSet<ComponentId, T>) -> (r: ArchetypeId)
        requires
            old(self).wf(),
            ids.wf(),
            forall|j: int| 0 <= j < ids.spec_len()
                ==> #[trigger] ids.key_seq()[j] < usize::MAX,
        ensures
            final(self).wf(),
            r.0 == old(self).spec_mgr().spec_archetype_of(ids.key_set()),
            r.0 < final(self).spec_mgr().spec_archetypes().len(),
            final(self).spec_mgr().spec_archetypes()[r.0 as int].component_set()
                =~= ids.key_set(),
            final(self).spec_allocator() == old(self).spec_allocator(),
            final(self).spec_storage() == old(self).spec_storage(),
            final(self).spec_registrar() == old(self).spec_registrar(),
            final(self).spec_send_resources() == old(self).spec_send_resources(),
            final(self).spec_non_send_resources() == old(self).spec_non_send_resources(),
            final(self).spec_sendness() == old(self).spec_sendness(),
            old(self).columns_registered() ==> final(self).columns_registered(),
    {
        let ghost pre = *self;
        let r = self.archetype_manager.archetype_of(ids);
        proof {
            assert forall|k: int|
                #[trigger] self.spec_allocator().infos().spec_contains(k)
                implies self.entity_ok(k) by {
                assert(pre.entity_ok(k));
                assert(pre.entity_arch_ok(k));
                let aid = self.spec_info_of(k).archetype_id.0 as int;
                assert(self.spec_mgr().spec_archetypes()[aid]
                    == pre.spec_mgr().spec_archetypes()[aid]);
            }
        }
        r
    }

    /// The value currently installed for the resource with id `c`, if any:
    /// the sendness record names the registry holding it.
    pub open spec fn spec_resource_value(self, c: int) -> Option<Seq<u8>> {
        if self.spec_sendness().spec_contains(c) {
            if self.spec_sendness().spec_get(c) {
                Some(self.spec_send_resources().spec_value(c))
            } else {
                Some(self.spec_non_send_resources().spec_value(c))
            }
        } else {
            None
        }
    }

    /// Installs a resource reachable from any thread, registering its type
    /// token on first sight. An already installed value under the same id
    /// is replaced; its slot is scrubbed exactly once before the write.
    pub fn add_resource(
        &mut self,
        token: u64,
        elem_size: usize,
        align: usize,
        value: &Vec<u8>,
        debug_name: String,
    )
        requires
            old(self).wf(),
            old(self).spec_registrar().tokens().len() < usize::MAX,
            value@.len() == elem_size,
            align >= 1,
            elem_size as int % align as int == 0,
            old(self).spec_send_resources().spec_has(old(self).spec_id_after(token))
                ==> old(self).spec_send_resources().table()
                    .spec_get(old(self).spec_id_after(token))
                    .storage().spec_elem_size() == elem_size
                    && old(self).spec_send_resources().table()
                        .spec_get(old(self).spec_id_after(token))
                        .storage().spec_align() == align,
        ensures
            final(self).spec_send_resources().spec_has(old(self).spec_id_after(token)),
            final(self).spec_send_resources().table()
                .spec_get(old(self).spec_id_after(token))
                .storage().spec_elem_size() == elem_size,
            final(self).spec_send_resources().table()
                .spec_get(old(self).spec_id_after(token))
                .storage().spec_align() == align,
            forall|c: int| #[trigger] final(self).spec_send_resources().spec_has(c)
                <==> old(self).spec_send_resources().spec_has(c)
                    || c == old(self).spec_id_after(token),
            forall|c: int| old(self).spec_send_resources().spec_has(c)
                    && c != old(self).spec_id_after(token)
                ==> #[trigger] final(self).spec_send_resources().table().spec_get(c)
                    == old(self).spec_send_resources().table().spec_get(c),
            final(self).spec_sendness().spec_contains(old(self).spec_id_after(token)),
            final(self).spec_sendness().spec_get(old(self).spec_id_after(token))
                == true,
            final(self).wf(),
            final(self).spec_registered(token),
            final(self).spec_token_id(token) == old(self).spec_id_after(token),
            final(self).spec_resource_value(old(self).spec_id_after(token))
                == Some(value@),
            forall|c: int| c != old(self).spec_id_after(token)
                ==> #[trigger] final(self).spec_resource_value(c)
                    == old(self).spec_resource_value(c),
            final(self).spec_allocator() == old(self).spec_allocator(),
            final(self).spec_storage() == old(self).spec_storage(),
            final(self).spec_mgr() == old(self).spec_mgr(),
            final(self).spec_registrar().tokens() =~= if old(self).spec_registered(
                token,
            ) {
                old(self).spec_registrar().tokens()
            } else {
                old(self).spec_registrar().tokens().push(token)
            },
            old(self).columns_registered() ==> final(self).columns_registered(),
    {
        let ghost pre = *self;
        let uid = self.registrar.get_registration(token);
        let id = ComponentId(uid);
        let ghost c = id.spec_index();
        proof {
            self.spec_registrar().lemma_id_valid(token);
            assert forall|k: int|
                #[trigger] self.spec_allocator().infos().spec_contains(k)
                implies self.entity_ok(k) by {
                assert(pre.entity_ok(k));
            }
        }
        let ghost reg = *self;
        self.resource_sendness.insert(id, true);
        let ghost mid = *self;
        self.send_resources.add(id, elem_size, align, value, debug_name);
        proof {
            assert(self.resources_ok()) by {
                assert forall|i: int|
                    0 <= i < self.spec_sendness().spec_len() implies {
                    let k = #[trigger] self.spec_sendness().key_seq()[i];
                    if self.spec_sendness().entries()[i].1 {
                        self.spec_send_resources().spec_has(k)
                    } else {
                        self.spec_non_send_resources().spec_has(k)
                    }
                } by {
                    let k = self.spec_sendness().key_seq()[i];
                    mid.spec_sendness().lemma_pos_unique(i);
                    if k == c {
                        assert(mid.spec_sendness().spec_at(c)
                            == self.spec_sendness().entries()[i]);
                        assert(mid.spec_sendness().spec_get(c) == true);
                    } else {
                        assert(mid.spec_sendness().spec_at(k)
                            == reg.spec_sendness().spec_at(k));
                        reg.spec_sendness().lemma_pos_valid(k);
                        reg.spec_sendness().lemma_pos_unique(
                            reg.spec_sendness().pos_of(k));
                        assert(reg.resources_ok());
                        assert(mid.spec_sendness().entries()[i]
                            == reg.spec_sendness().spec_at(k));
                    }
                }
            }
            assert forall|k: int|
                #[trigger] self.spec_allocator().infos().spec_contains(k)
                implies self.entity_ok(k) by {
                assert(reg.entity_ok(k));
            }
            assert(self.spec_resource_value(c) == Some(value@)) by {
                assert(self.spec_sendness().spec_contains(c));
                assert(self.spec_sendness().spec_get(c) == true);
                assert(self.spec_send_resources().spec_value(c) =~= value@);
            }
            assert forall|c2: int| c2 != c
                implies #[trigger] self.spec_resource_value(c2)
                    == pre.spec_resource_value(c2) by {
                if reg.spec_sendness().spec_contains(c2) {
                    assert(self.spec_sendness().spec_at(c2)
                        == reg.spec_sendness().spec_at(c2));
                    assert(reg.resources_ok());
                    reg.spec_sendness().lemma_pos_valid(c2);
                    reg.spec_sendness().lemma_pos_unique(
                        reg.spec_sendness().pos_of(c2));
                    if reg.spec_sendness().spec_get(c2) {
                        assert(reg.spec_send_resources().spec_has(c2));
                        assert(self.spec_send_resources().spec_value(c2)
                            == reg.spec_send_resources().spec_value(c2));
                    }
                }
            }
        }
    }

    /// Installs a resource pinned to its creating thread, registering its
    /// type token on first sight. The embedding layer enforces the pin at
    /// access time.
    pub fn add_non_send_resource(
        &mut self,
        token: u64,
        elem_size: usize,
        align: usize,
        value: &Vec<u8>,
        debug_name: String,
    )
        requires
            old(self).wf(),
            old(self).spec_registrar().tokens().len() < usize::MAX,
            value@.len() == elem_size,
            align >= 1,
            elem_size as int % align as int == 0,
            old(self).spec_non_send_resources().spec_has(old(self).spec_id_after(token))
                ==> old(self).spec_non_send_resources().table()
                    .spec_get(old(self).spec_id_after(token))
                    .storage().spec_elem_size() == elem_size
                    && old(self).spec_non_send_resources().table()
                        .spec_get(old(self).spec_id_after(token))
                        .storage().spec_align() == align,
        ensures
            final(self).spec_non_send_resources().spec_has(old(self).spec_id_after(token)),
            final(self).spec_non_send_resources().table()
                .spec_get(old(self).spec_id_after(token))
                .storage().spec_elem_size() == elem_size,
            final(self).spec_non_send_resources().table()
                .spec_get(old(self).spec_id_after(token))
                .storage().spec_align() == align,
            forall|c: int| #[trigger] final(self).spec_non_send_resources().spec_has(c)
                <==> old(self).spec_non_send_resources().spec_has(c)
                    || c == old(self).spec_id_after(token),
            forall|c: int| old(self).spec_non_send_resources().spec_has(c)
                    && c != old(self).spec_id_after(token)
                ==> #[trigger] final(self).spec_non_send_resources().table().spec_get(c)
                    == old(self).spec_non_send_resources().table().spec_get(c),
            final(self).spec_sendness().spec_contains(old(self).spec_id_after(token)),
            final(self).spec_sendness().spec_get(old(self).spec_id_after(token))
                == false,
            final(self).wf(),
            final(self).spec_registered(token),
            final(self).spec_token_id(token) == old(self).spec_id_after(token),
            final(self).spec_resource_value(old(self).spec_id_after(token))
                == Some(value@),
            forall|c: int| c != old(self).spec_id_after(token)
                ==> #[trigger] final(self).spec_resource_value(c)
                    == old(self).spec_resource_value(c),
            final(self).spec_allocator() == old(self).spec_allocator(),
            final(self).spec_storage() == old(self).spec_storage(),
            final(self).spec_mgr() == old(self).spec_mgr(),
            final(self).spec_registrar().tokens() =~= if old(self).spec_registered(
                token,
            ) {
                old(self).spec_registrar().tokens()
            } else {
                old(self).spec_registrar().tokens().push(token)
            },
            old(self).columns_registered() ==> final(self).columns_registered(),
    {
        let ghost pre = *self;
        let uid = self.registrar.get_registration(token);
        let id = ComponentId(uid);
        let ghost c = id.spec_index();
        proof {
            self.spec_registrar().lemma_id_valid(token);
            assert forall|k: int|
                #[trigger] self.spec_allocator().infos().spec_contains(k)
                implies self.entity_ok(k) by {
                assert(pre.entity_ok(k));
            }
        }
        let ghost reg = *self;
        self.resource_sendness.insert(id, false);
        let ghost mid = *self;
        self.non_send_resources.add(id, elem_size, align, value, debug_name);
        proof {
            assert(self.resources_ok()) by {
                assert forall|i: int|
                    0 <= i < self.spec_sendness().spec_len() implies {
                    let k = #[trigger] self.spec_sendness().key_seq()[i];
                    if self.spec_sendness().entries()[i].1 {
                        self.spec_send_resources().spec_has(k)
                    } else {
                        self.spec_non_send_resources().spec_has(k)
                    }
                } by {
                    let k = self.spec_sendness().key_seq()[i];
                    mid.spec_sendness().lemma_pos_unique(i);
                    if k == c {
                        assert(mid.spec_sendness().spec_at(c)
                            == self.spec_sendness().entries()[i]);
                        assert(mid.spec_sendness().spec_get(c) == false);
                    } else {
                        assert(mid.spec_sendness().spec_at(k)
                            == reg.spec_sendness().spec_at(k));
                        reg.spec_sendness().lemma_pos_valid(k);
                        reg.spec_sendness().lemma_pos_unique(
                            reg.spec_sendness().pos_of(k));
                        assert(reg.resources_ok());
                        assert(mid.spec_sendness().entries()[i]
                            == reg.spec_sendness().spec_at(k));
                    }
                }
            }
            assert forall|k: int|
                #[trigger] self.spec_allocator().infos().spec_contains(k)
                implies self.entity_ok(k) by {
                assert(reg.entity_ok(k));
            }
            assert(self.spec_resource_value(c) == Some(value@)) by {
                assert(self.spec_sendness().spec_contains(c));
                assert(self.spec_sendness().spec_get(c) == false);
                assert(self.spec_non_send_resources().spec_value(c) =~= value@);
            }
            assert forall|c2: int| c2 != c
                implies #[trigger] self.spec_resource_value(c2)
                    == pre.spec_resource_value(c2) by {
                if reg.spec_sendness().spec_contains(c2) {
                    assert(self.spec_sendness().spec_at(c2)
                        == reg.spec_sendness().spec_at(c2));
                    assert(reg.resources_ok());
                    reg.spec_sendness().lemma_pos_valid(c2);
                    reg.spec_sendness().lemma_pos_unique(
                        reg.spec_sendness().pos_of(c2));
                    if reg.spec_sendness().spec_get(c2) == false {
                        assert(reg.spec_non_send_resources().spec_has(c2));
                        assert(self.spec_non_send_resources().spec_value(c2)
                            == reg.spec_non_send_resources().spec_value(c2));
                    }
                }
            }
        }
    }

    /// Reads the bytes of the resource registered under a type token, if
    /// one was installed.
    pub fn get_resource(&self, token: u64) -> (r: Option<Vec<u8>>)
        requires
            self.wf(),
        ensures
            match r {
                Some(b) => {
                    &&& self.spec_registered(token)
                    &&& self.spec_resource_value(self.spec_token_id(token))
                        == Some(b@)
                },
                None => !self.spec_registered(token)
                    || self.spec_resource_value(self.spec_token_id(token)).is_none(),
            },
    {
        let uid = match self.registrar.get_maybe(token) {
            Some(uid) => uid,
            None => {
                return None;
            },
        };
        let id = ComponentId(uid);
        let ghost c = id.spec_index();
        let is_send = match self.resource_sendness.get(&id) {
            Some(b) => *b,
            None => {
                return None;
            },
        };
        proof {
            self.spec_sendness().lemma_pos_valid(c);
            self.spec_sendness().lemma_pos_unique(self.spec_sendness().pos_of(c));
            assert(self.resources_ok());
        }
        if is_send {
            let r = self.send_resources.get_ptr(id);
            proof {
                assert(self.spec_send_resources().spec_has(c));
            }
            match r {
                Some(b) => {
                    proof {
                        assert(self.spec_resource_value(c) == Some(b@));
                    }
                    Some(b)
                },
                None => unreached(),
            }
        } else {
            let r = self.non_send_resources.get_ptr(id);
            proof {
                assert(self.spec_non_send_resources().spec_has(c));
            }
            match r {
                Some(b) => {
                    proof {
                        assert(self.spec_resource_value(c) == Some(b@));
                    }
                    Some(b)
                },
                None => unreached(),
            }
        }
    }

    /// Ingests one component value carried by a typed blob: a one-element
    /// erased column plus the type token of the value it holds. This is the
    /// path deferred commands use to apply a component addition whose
    /// static type was erased at enqueue time.
    pub fn add_component_from_type_id(
        &mut self,
        entity: Entity,
        token: u64,
        data: &ErasedVec,
    )
        requires
            old(self).wf(),
            old(self).columns_registered(),
            old(self).spec_live(entity),
            old(self).spec_registrar().tokens().len() < usize::MAX,
            data.wf(),
            data.spec_len() >= 1,
            old(self).spec_storage().spec_num_entities() * data.spec_elem_size()
                <= usize::MAX,
            old(self).spec_storage().layout_ok(
                old(self).spec_id_after(token),
                data.spec_elem_size(),
                data.spec_align(),
            ),
        ensures
            final(self).wf(),
            final(self).columns_registered(),
            final(self).spec_registered(token),
            final(self).spec_has_component(entity, old(self).spec_id_after(token)),
            final(self).spec_component_value(entity, old(self).spec_id_after(token))
                =~= data.slot(0),
            final(self).spec_registrar().tokens() =~= if old(self).spec_registered(
                token,
            ) {
                old(self).spec_registrar().tokens()
            } else {
                old(self).spec_registrar().tokens().push(token)
            },
    {
        let value = data.get(0);
        proof {
            data.lemma_slot_len(0);
            data.lemma_wf_layout();
        }
        let elem_size = data.elem_size_of();
        let align = data.align_of();
        self.add_component(entity, token, elem_size, align, &value);
    }

    /// Removes the component named by an erased type token, the path
    /// deferred commands use to apply a removal.
    pub fn remove_component_from_type_id(&mut self, entity: Entity, token: u64)
        requires
            old(self).wf(),
            old(self).columns_registered(),
            old(self).spec_registrar().tokens().len() < usize::MAX,
        ensures
            final(self).wf(),
            final(self).columns_registered(),
            !final(self).spec_has_component(entity, old(self).spec_id_after(token)),
            forall|e: Entity| #[trigger] final(self).spec_live(e)
                <==> old(self).spec_live(e),
            final(self).spec_registrar().tokens() =~= if old(self).spec_registered(
                token,
            ) {
                old(self).spec_registrar().tokens()
            } else {
                old(self).spec_registrar().tokens().push(token)
            },
    {
        self.remove_component(entity, token);
    }
}

} // verus!
