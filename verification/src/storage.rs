use vstd::prelude::*;

use vstd::pervasive::unreached;

use crate::entity_manager::Entity;
use crate::erased_data_vec::ErasedVec;
use crate::sparse_set::{SparseIndex, SparseSet};
use crate::world_container::ComponentId;

verus! {

/// A columnar, slot-indexed store: one erased column per component id,
/// addressed by entity index. Every column always covers every entity slot
/// ever registered, so adding or removing one component of an entity never
/// relocates another.
pub struct TableStorage {
    columns: SparseSet<ComponentId, ErasedVec>,
    num_entities: usize,
}

impl TableStorage {
    pub closed spec fn spec_columns(self) -> SparseSet<ComponentId, ErasedVec> {
        self.columns
    }

    /// The count of entity slots ever registered (the highest entity index
    /// seen, plus one, or more).
    pub closed spec fn spec_num_entities(self) -> int {
        self.num_entities as int
    }

    pub open spec fn spec_has_column(self, c: int) -> bool {
        self.spec_columns().spec_contains(c)
    }

    pub open spec fn spec_column(self, c: int) -> ErasedVec {
        self.spec_columns().spec_get(c)
    }

    /// The bytes of entity slot `k` in the column of component `c`.
    pub open spec fn spec_slot(self, c: int, k: int) -> Seq<u8> {
        self.spec_column(c).slot(k)
    }

    /// Every live column is well-formed and covers exactly the entity slots
    /// registered so far.
    pub closed spec fn wf(self) -> bool {
        &&& self.columns.wf()
        &&& forall|i: int| 0 <= i < self.columns.spec_len() ==> {
            let col = (#[trigger] self.columns.entries()[i]).1;
            &&& col.wf()
            &&& col.spec_len() == self.spec_num_entities()
        }
    }

    /// The column table of a well-formed storage is well-formed.
    pub proof fn lemma_columns_wf(self)
        requires
            self.wf(),
        ensures
            self.spec_columns().wf(),
    {
    }

    /// The column of a component always covers every registered entity slot.
    pub proof fn lemma_column_covers(self, c: int)
        requires
            self.wf(),
            self.spec_has_column(c),
        ensures
            self.spec_column(c).wf(),
            self.spec_column(c).spec_len() >= self.spec_num_entities(),
    {
        self.columns.lemma_pos_valid(c);
        let p = self.columns.pos_of(c);
        assert(self.columns.entries()[p] == self.columns.spec_at(c));
    }

    /// Growing a column's storage is possible without arithmetic overflow.
    pub open spec fn can_register(self) -> bool {
        &&& self.spec_num_entities() < usize::MAX
        &&& forall|i: int| 0 <= i < self.spec_columns().spec_len()
            ==> (self.spec_num_entities() + 1)
                * ((#[trigger] self.spec_columns().entries()[i]).1).spec_elem_size()
                <= usize::MAX
    }

    /// Creates an empty table with no columns and no entities.
    pub fn new() -> (r: Self)
        ensures
            r.wf(),
            r.spec_num_entities() == 0,
            r.spec_columns().spec_len() == 0,
    {
        TableStorage { columns: SparseSet::new(), num_entities: 0 }
    }

    /// Registers a new entity slot: every existing column's logical length
    /// is extended to cover it.
    pub fn register_new_entity(&mut self, _entity: Entity)
        requires
            old(self).wf(),
            old(self).can_register(),
        ensures
            final(self).wf(),
            final(self).spec_num_entities() == old(self).spec_num_entities() + 1,
            final(self).spec_columns().key_seq() =~= old(self).spec_columns().key_seq(),
            forall|c: int| #[trigger] final(self).spec_has_column(c)
                <==> old(self).spec_has_column(c),
            forall|c: int| old(self).spec_has_column(c) ==> {
                &&& (#[trigger] final(self).spec_column(c)).spec_elem_size()
                    == old(self).spec_column(c).spec_elem_size()
                &&& final(self).spec_column(c).spec_align()
                    == old(self).spec_column(c).spec_align()
            },
            forall|c: int, k: int|
                old(self).spec_has_column(c) && 0 <= k < old(self).spec_num_entities()
                    ==> #[trigger] final(self).spec_slot(c, k) =~= old(self).spec_slot(c, k),
    {
        let ghost pre = *self;
        self.num_entities = self.num_entities + 1;
        let n = self.columns.len();
        let mut i: usize = 0;
        while i < n
            invariant
                pre.wf(),
                pre.can_register(),
                n == pre.columns.spec_len(),
                i <= n,
                self.num_entities == pre.num_entities + 1,
                self.columns.wf(),
                self.columns.spec_len() == n,
                self.columns.key_seq() =~= pre.columns.key_seq(),
                forall|j: int| 0 <= j < n ==> (#[trigger] self.columns.entries()[j]).0
                    == pre.columns.entries()[j].0,
                forall|j: int| 0 <= j < i as int ==> {
                    let col = (#[trigger] self.columns.entries()[j]).1;
                    &&& col.wf()
                    &&& col.spec_len() == pre.spec_num_entities() + 1
                    &&& col.spec_elem_size() == pre.columns.entries()[j].1.spec_elem_size()
                    &&& col.spec_align() == pre.columns.entries()[j].1.spec_align()
                    &&& forall|k: int| 0 <= k < pre.spec_num_entities()
                        ==> #[trigger] col.slot(k) =~= pre.columns.entries()[j].1.slot(k)
                },
                forall|j: int| i as int <= j < n
                    ==> (#[trigger] self.columns.entries()[j]).1
                        == pre.columns.entries()[j].1,
            decreases n - i,
        {
            let ghost snap = self.columns;
            let target = self.num_entities;
            proof {
                assert(snap.entries()[i as int].1 == pre.columns.entries()[i as int].1);
                assert(pre.spec_columns().entries()[i as int]
                    == pre.columns.entries()[i as int]);
                assert((pre.spec_num_entities() + 1)
                    * (pre.spec_columns().entries()[i as int]).1.spec_elem_size()
                    <= usize::MAX);
            }
            let col = self.columns.value_at_mut(i);
            col.ensure_len(target);
            proof {
                assert forall|j: int| 0 <= j < n implies
                    (#[trigger] self.columns.entries()[j]).0
                        == pre.columns.entries()[j].0 by {
                    assert(snap.entries()[j].0 == pre.columns.entries()[j].0);
                }
            }
            i = i + 1;
        }
        proof {
            assert forall|c: int| #[trigger] self.spec_has_column(c)
                implies pre.spec_has_column(c) by {}
            assert forall|c: int| pre.spec_has_column(c)
                implies #[trigger] self.spec_has_column(c) by {}
            assert forall|c: int| pre.spec_has_column(c) implies {
                &&& (#[trigger] self.spec_column(c)).spec_elem_size()
                    == pre.spec_column(c).spec_elem_size()
                &&& self.spec_column(c).spec_align() == pre.spec_column(c).spec_align()
                &&& forall|k: int| 0 <= k < pre.spec_num_entities()
                    ==> #[trigger] self.spec_column(c).slot(k) =~= pre.spec_column(c).slot(k)
            } by {
                pre.columns.lemma_pos_valid(c);
                let p = pre.columns.pos_of(c);
                self.columns.lemma_pos_unique(p);
                assert(self.columns.spec_at(c) == self.columns.entries()[p]);
                assert(pre.columns.spec_at(c) == pre.columns.entries()[p]);
            }
            assert forall|c: int, k: int|
                pre.spec_has_column(c) && 0 <= k < pre.spec_num_entities()
                implies #[trigger] self.spec_slot(c, k) =~= pre.spec_slot(c, k) by {
                assert(self.spec_column(c).slot(k) =~= pre.spec_column(c).slot(k));
            }
        }
    }

    /// The layout under which component `c` is stored, if it has a column.
    pub open spec fn layout_ok(self, c: int, elem_size: int, align: int) -> bool {
        self.spec_has_column(c) ==> {
            &&& self.spec_column(c).spec_elem_size() == elem_size
            &&& self.spec_column(c).spec_align() == align
        }
    }

    /// Writes one component value for an entity, creating the component's
    /// column on first sight. The slot is written in place: no other
    /// element moves.
    pub fn add_entity_component(
        &mut self,
        entity: Entity,
        component_id: ComponentId,
        elem_size: usize,
        align: usize,
        value: &Vec<u8>,
    )
        requires
            old(self).wf(),
            (entity.0 as int) < old(self).spec_num_entities(),
            value@.len() == elem_size,
            align >= 1,
            elem_size as int % align as int == 0,
            old(self).spec_num_entities() * elem_size <= usize::MAX,
            old(self).layout_ok(component_id.spec_index(), elem_size as int, align as int),
            component_id.spec_index() < usize::MAX,
        ensures
            final(self).wf(),
            final(self).spec_num_entities() == old(self).spec_num_entities(),
            final(self).spec_has_column(component_id.spec_index()),
            forall|c: int| #[trigger] final(self).spec_has_column(c)
                <==> old(self).spec_has_column(c) || c == component_id.spec_index(),
            final(self).spec_slot(component_id.spec_index(), entity.0 as int) =~= value@,
            final(self).spec_column(component_id.spec_index()).spec_elem_size() == elem_size,
            final(self).spec_column(component_id.spec_index()).spec_align() == align,
            forall|c: int, k: int|
                old(self).spec_has_column(c)
                    && !(c == component_id.spec_index() && k == entity.0 as int)
                    && 0 <= k < old(self).spec_num_entities()
                    ==> #[trigger] final(self).spec_slot(c, k) =~= old(self).spec_slot(c, k),
            forall|c: int| old(self).spec_has_column(c) && c != component_id.spec_index()
                ==> #[trigger] final(self).spec_column(c) == old(self).spec_column(c),
    {
        let ghost pre = *self;
        let mut fresh = ErasedVec::new(elem_size, align, self.num_entities);
        fresh.ensure_len(self.num_entities);
        let ghost had = self.columns.spec_contains(component_id.spec_index());
        let ghost stored = self.columns.spec_get(component_id.spec_index());
        proof {
            if had {
                pre.lemma_column_covers(component_id.spec_index());
            }
        }
        let col = self.columns.get_or_insert(component_id, fresh);
        col.insert_at(entity.0 as usize, value);
        proof {
            let c = component_id.spec_index();
            if had {
                let p = pre.columns.pos_of(c);
                pre.columns.lemma_pos_valid(c);
                let e = self.columns.entries()[p];
                assert(e.0.spec_index() == c);
                SparseSet::lemma_update_at(pre.columns, self.columns, c, e);
            } else {
                let n = pre.columns.spec_len() as int;
                let e = self.columns.entries()[n];
                SparseSet::lemma_push(pre.columns, self.columns, e);
            }
            assert forall|i: int| 0 <= i < self.columns.spec_len() implies {
                let col2 = (#[trigger] self.columns.entries()[i]).1;
                &&& col2.wf()
                &&& col2.spec_len() == self.spec_num_entities()
            } by {
                self.columns.lemma_pos_unique(i);
                let k2 = self.columns.key_seq()[i];
                if k2 == c {
                } else {
                    assert(self.columns.spec_at(k2) == pre.columns.spec_at(k2));
                    pre.columns.lemma_pos_valid(k2);
                    pre.columns.lemma_pos_unique(pre.columns.pos_of(k2));
                    assert(pre.columns.entries()[pre.columns.pos_of(k2)]
                        == pre.columns.spec_at(k2));
                }
            }
            assert forall|c2: int, k: int|
                pre.spec_has_column(c2) && !(c2 == c && k == entity.0 as int)
                    && 0 <= k < pre.spec_num_entities()
                implies #[trigger] self.spec_slot(c2, k) =~= pre.spec_slot(c2, k) by {
                if c2 == c {
                    assert(had);
                } else {
                    assert(self.columns.spec_at(c2) == pre.columns.spec_at(c2));
                }
            }
        }
    }

    /// Writes one component value for an entity out of a one-element blob
    /// column carrying the value's bytes and layout.
    pub fn add_entity_component_dynamic(
        &mut self,
        entity: Entity,
        component_id: ComponentId,
        data: &ErasedVec,
    )
        requires
            old(self).wf(),
            data.wf(),
            data.spec_len() >= 1,
            (entity.0 as int) < old(self).spec_num_entities(),
            old(self).spec_num_entities() * data.spec_elem_size() <= usize::MAX,
            old(self).layout_ok(
                component_id.spec_index(),
                data.spec_elem_size(),
                data.spec_align(),
            ),
            component_id.spec_index() < usize::MAX,
        ensures
            final(self).wf(),
            final(self).spec_num_entities() == old(self).spec_num_entities(),
            final(self).spec_has_column(component_id.spec_index()),
            forall|c: int| #[trigger] final(self).spec_has_column(c)
                <==> old(self).spec_has_column(c) || c == component_id.spec_index(),
            final(self).spec_slot(component_id.spec_index(), entity.0 as int)
                =~= data.slot(0),
            forall|c: int, k: int|
                old(self).spec_has_column(c)
                    && !(c == component_id.spec_index() && k == entity.0 as int)
                    && 0 <= k < old(self).spec_num_entities()
                    ==> #[trigger] final(self).spec_slot(c, k) =~= old(self).spec_slot(c, k),
    {
        let value = data.get(0);
        proof {
            data.lemma_slot_len(0);
            data.lemma_wf_layout();
        }
        let elem_size = data.elem_size_of();
        let align = data.align_of();
        self.add_entity_component(entity, component_id, elem_size, align, &value);
    }

    /// Scrubs the slot of one component of one entity, leaving it vacant.
    /// Disposal of the typed value is the business of the embedding layer.
    pub fn erase_entity_component(&mut self, entity: Entity, component_id: ComponentId)
        requires
            old(self).wf(),
            old(self).spec_has_column(component_id.spec_index()),
            (entity.0 as int) < old(self).spec_num_entities(),
        ensures
            final(self).wf(),
            final(self).spec_num_entities() == old(self).spec_num_entities(),
            forall|c: int| #[trigger] final(self).spec_has_column(c)
                <==> old(self).spec_has_column(c),
            forall|c: int, k: int|
                old(self).spec_has_column(c)
                    && !(c == component_id.spec_index() && k == entity.0 as int)
                    && 0 <= k < old(self).spec_num_entities()
                    ==> #[trigger] final(self).spec_slot(c, k) =~= old(self).spec_slot(c, k),
            forall|c: int| old(self).spec_has_column(c)
                ==> (#[trigger] final(self).spec_column(c)).spec_elem_size()
                    == old(self).spec_column(c).spec_elem_size()
                    && final(self).spec_column(c).spec_align()
                        == old(self).spec_column(c).spec_align(),
    {
        let ghost pre = *self;
        proof {
            pre.lemma_column_covers(component_id.spec_index());
        }
        let col = self.columns.get_mut(component_id);
        col.drop_at(entity.0 as usize);
        proof {
            let c = component_id.spec_index();
            let p = pre.columns.pos_of(c);
            pre.columns.lemma_pos_valid(c);
            let e = self.columns.entries()[p];
            assert(e.0.spec_index() == c);
            SparseSet::lemma_update_at(pre.columns, self.columns, c, e);
            assert forall|i: int| 0 <= i < self.columns.spec_len() implies {
                let col2 = (#[trigger] self.columns.entries()[i]).1;
                &&& col2.wf()
                &&& col2.spec_len() == self.spec_num_entities()
            } by {
                self.columns.lemma_pos_unique(i);
                let k2 = self.columns.key_seq()[i];
                if k2 != c {
                    assert(self.columns.spec_at(k2) == pre.columns.spec_at(k2));
                    pre.columns.lemma_pos_valid(k2);
                    pre.columns.lemma_pos_unique(pre.columns.pos_of(k2));
                }
            }
            assert forall|c2: int, k: int|
                pre.spec_has_column(c2) && !(c2 == c && k == entity.0 as int)
                    && 0 <= k < pre.spec_num_entities()
                implies #[trigger] self.spec_slot(c2, k) =~= pre.spec_slot(c2, k) by {
                if c2 != c {
                    assert(self.columns.spec_at(c2) == pre.columns.spec_at(c2));
                }
            }
            assert forall|c2: int| pre.spec_has_column(c2)
                implies (#[trigger] self.spec_column(c2)).spec_elem_size()
                    == pre.spec_column(c2).spec_elem_size()
                    && self.spec_column(c2).spec_align()
                        == pre.spec_column(c2).spec_align() by {
                if c2 != c {
                    assert(self.columns.spec_at(c2) == pre.columns.spec_at(c2));
                }
            }
        }
    }

    /// Replaces the component value of one entity: the old value's slot is
    /// scrubbed, then the new value is written in place.
    pub fn replace_entity_component(
        &mut self,
        entity: Entity,
        component_id: ComponentId,
        elem_size: usize,
        align: usize,
        value: &Vec<u8>,
    )
        requires
            old(self).wf(),
            old(self).spec_has_column(component_id.spec_index()),
            (entity.0 as int) < old(self).spec_num_entities(),
            value@.len() == elem_size,
            align >= 1,
            elem_size as int % align as int == 0,
            old(self).spec_num_entities() * elem_size <= usize::MAX,
            old(self).layout_ok(component_id.spec_index(), elem_size as int, align as int),
            component_id.spec_index() < usize::MAX,
        ensures
            final(self).wf(),
            final(self).spec_num_entities() == old(self).spec_num_entities(),
            forall|c: int| #[trigger] final(self).spec_has_column(c)
                <==> old(self).spec_has_column(c),
            final(self).spec_slot(component_id.spec_index(), entity.0 as int) =~= value@,
            forall|c: int, k: int|
                old(self).spec_has_column(c)
                    && !(c == component_id.spec_index() && k == entity.0 as int)
                    && 0 <= k < old(self).spec_num_entities()
                    ==> #[trigger] final(self).spec_slot(c, k) =~= old(self).spec_slot(c, k),
    {
        let ghost pre = *self;
        self.erase_entity_component(entity, component_id);
        let ghost mid = *self;
        self.add_entity_component(entity, component_id, elem_size, align, value);
        proof {
            assert forall|c: int, k: int|
                pre.spec_has_column(c)
                    && !(c == component_id.spec_index() && k == entity.0 as int)
                    && 0 <= k < pre.spec_num_entities()
                implies #[trigger] self.spec_slot(c, k) =~= pre.spec_slot(c, k) by {
                assert(self.spec_slot(c, k) =~= mid.spec_slot(c, k));
                assert(mid.spec_slot(c, k) =~= pre.spec_slot(c, k));
            }
        }
    }

    /// Reads the bytes of one component of one entity. Whether the slot
    /// holds an initialized value is the caller's knowledge (tracked by the
    /// entity's info record).
    pub fn get_component(&self, entity: Entity, component_id: ComponentId) -> (r: Vec<u8>)
        requires
            self.wf(),
            self.spec_has_column(component_id.spec_index()),
            (entity.0 as int) < self.spec_num_entities(),
        ensures
            r@ =~= self.spec_slot(component_id.spec_index(), entity.0 as int),
    {
        proof {
            self.lemma_column_covers(component_id.spec_index());
        }
        let col = match self.columns.get(&component_id) {
            Some(col) => col,
            None => unreached(),
        };
        col.get(entity.0 as usize)
    }
}

} // verus!
