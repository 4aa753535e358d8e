use vstd::prelude::*;

use crate::erased_data_vec::ErasedVec;
use crate::sparse_set::{SparseIndex, SparseSet};
use crate::world_container::ComponentId;

verus! {

/// The singleton storage of one resource: a one-element erased column plus
/// the recorded name of the resource's type, kept for diagnostics. The
/// `SEND` parameter distinguishes the registry of values that may be read
/// from any thread from the registry of values pinned to their creating
/// thread; enforcing the pin is the business of the embedding layer, which
/// owns the threads.
pub struct ResourceData<const SEND: bool> {
    data_storage: ErasedVec,
    debug_name: String,
}

impl<const SEND: bool> ResourceData<SEND> {
    pub closed spec fn storage(self) -> ErasedVec {
        self.data_storage
    }

    pub closed spec fn spec_debug_name(self) -> Seq<char> {
        self.debug_name@
    }

    /// The stored value's bytes.
    pub open spec fn value(self) -> Seq<u8> {
        self.storage().slot(0)
    }

    pub open spec fn wf(self) -> bool {
        &&& self.storage().wf()
        &&& self.storage().spec_len() == 1
    }

    /// The recorded name of the stored type, for diagnostics.
    pub fn debug_name(&self) -> (r: &String)
        ensures
            r@ == self.spec_debug_name(),
    {
        &self.debug_name
    }
}

/// A registry mapping a component id to a singleton resource value.
/// Adding under an id that is already present replaces the stored value in
/// place, after the old value's slot was scrubbed exactly once.
pub struct Resources<const SEND: bool> {
    pub(crate) resources: SparseSet<ComponentId, ResourceData<SEND>>,
}

impl<const SEND: bool> Resources<SEND> {
    pub closed spec fn table(self) -> SparseSet<ComponentId, ResourceData<SEND>> {
        self.resources
    }

    pub open spec fn spec_has(self, c: int) -> bool {
        self.table().spec_contains(c)
    }

    /// The bytes of the resource stored under id `c`.
    pub open spec fn spec_value(self, c: int) -> Seq<u8> {
        self.table().spec_get(c).value()
    }

    pub closed spec fn wf(self) -> bool {
        &&& self.resources.wf()
        &&& forall|i: int| 0 <= i < self.resources.spec_len()
            ==> ((#[trigger] self.resources.entries()[i]).1).wf()
    }

    pub proof fn lemma_stored_wf(self, c: int)
        requires
            self.wf(),
            self.spec_has(c),
        ensures
            self.table().spec_get(c).wf(),
    {
        self.resources.lemma_pos_valid(c);
        let p = self.resources.pos_of(c);
        assert(self.resources.entries()[p] == self.resources.spec_at(c));
    }

    /// Creates an empty registry.
    pub fn new() -> (r: Self)
        ensures
            r.wf(),
            r.table().spec_len() == 0,
            forall|c: int| !(#[trigger] r.spec_has(c)),
    {
        let r = Resources { resources: SparseSet::new() };
        proof {
            assert forall|c: int| !(#[trigger] r.spec_has(c)) by {}
        }
        r
    }

    /// Installs a resource value under an id, replacing any old value. The
    /// old value's slot is scrubbed exactly once before the new value is
    /// written; running the old value's typed destructor at that point is
    /// the business of the embedding layer.
    pub fn add(
        &mut self,
        id: ComponentId,
        elem_size: usize,
        align: usize,
        value: &Vec<u8>,
        debug_name: String,
    )
        requires
            old(self).wf(),
            value@.len() == elem_size,
            align >= 1,
            elem_size as int % align as int == 0,
            id.spec_index() < usize::MAX,
            old(self).spec_has(id.spec_index())
                ==> old(self).table().spec_get(id.spec_index())
                    .storage().spec_elem_size() == elem_size
                    && old(self).table().spec_get(id.spec_index())
                        .storage().spec_align() == align,
        ensures
            final(self).wf(),
            final(self).spec_has(id.spec_index()),
            final(self).spec_value(id.spec_index()) =~= value@,
            final(self).table().spec_get(id.spec_index()).storage().spec_elem_size()
                == elem_size,
            final(self).table().spec_get(id.spec_index()).storage().spec_align()
                == align,
            forall|c: int| #[trigger] final(self).spec_has(c)
                <==> old(self).spec_has(c) || c == id.spec_index(),
            forall|c: int| old(self).spec_has(c) && c != id.spec_index()
                ==> #[trigger] final(self).table().spec_get(c)
                    == old(self).table().spec_get(c),
            forall|c: int| old(self).spec_has(c) && c != id.spec_index()
                ==> #[trigger] final(self).spec_value(c) == old(self).spec_value(c),
    {
        let ghost pre = *self;
        let ghost c = id.spec_index();
        let ghost had = pre.spec_has(c);
        proof {
            if had {
                pre.lemma_stored_wf(c);
            }
        }
        let mut fresh_store = ErasedVec::new(elem_size, align, 1);
        fresh_store.ensure_len(1);
        let fresh = ResourceData { data_storage: fresh_store, debug_name };
        let slot = self.resources.get_or_insert(id, fresh);
        slot.data_storage.drop_at(0);
        slot.data_storage.insert_at(0, value);
        proof {
            if had {
                let p = pre.resources.pos_of(c);
                pre.resources.lemma_pos_valid(c);
                let e = self.resources.entries()[p];
                assert(e.0.spec_index() == c);
                SparseSet::lemma_update_at(pre.resources, self.resources, c, e);
            } else {
                let n = pre.resources.spec_len() as int;
                let e = self.resources.entries()[n];
                SparseSet::lemma_push(pre.resources, self.resources, e);
            }
            assert forall|i: int| 0 <= i < self.resources.spec_len() implies
                ((#[trigger] self.resources.entries()[i]).1).wf() by {
                self.resources.lemma_pos_unique(i);
                let k2 = self.resources.key_seq()[i];
                if k2 != c {
                    assert(self.resources.spec_at(k2) == pre.resources.spec_at(k2));
                    pre.resources.lemma_pos_valid(k2);
                    pre.resources.lemma_pos_unique(pre.resources.pos_of(k2));
                }
            }
            assert forall|c2: int| pre.spec_has(c2) && c2 != c
                implies #[trigger] self.spec_value(c2) == pre.spec_value(c2) by {
                assert(self.resources.spec_at(c2) == pre.resources.spec_at(c2));
            }
        }
    }

    /// Reads the bytes of the resource stored under an id, if present.
    pub fn get_ptr(&self, id: ComponentId) -> (r: Option<Vec<u8>>)
        requires
            self.wf(),
        ensures
            match r {
                Some(b) => {
                    &&& self.spec_has(id.spec_index())
                    &&& b@ =~= self.spec_value(id.spec_index())
                },
                None => !self.spec_has(id.spec_index()),
            },
    {
        proof {
            if self.spec_has(id.spec_index()) {
                self.lemma_stored_wf(id.spec_index());
            }
        }
        match self.resources.get(&id) {
            Some(data) => Some(data.data_storage.get(0)),
            None => None,
        }
    }

    /// Whether a resource is stored under this id.
    pub fn contains(&self, id: &ComponentId) -> (r: bool)
        requires
            self.wf(),
        ensures
            r == self.spec_has(id.spec_index()),
    {
        self.resources.contains(id)
    }
}

} // verus!
