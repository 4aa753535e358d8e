use vstd::prelude::*;

use crate::entity_manager::Entity;
use crate::sparse_set::{SparseIndex, SparseSet};
use crate::world_container::ComponentId;

verus! {

/// The unique id of an [`Archetype`]: the position at which its component
/// set was first canonicalized. Equal component sets always canonicalize to
/// the same id, whatever order their elements were inserted in.
#[derive(Copy, Clone, Eq, PartialEq, Ord, PartialOrd, Hash, Debug, Structural)]
pub struct ArchetypeId(pub usize);

impl Default for ArchetypeId {
    /// The id an entity carries before its component set was ever
    /// canonicalized: the id of the empty component set.
    fn default() -> (r: Self)
        ensures
            r.0 == 0,
    {
        ArchetypeId(0)
    }
}

/// An archetype: a distinct set of component ids, together with the set of
/// entities whose component set currently equals it.
pub struct Archetype {
    /// The components that compose this archetype.
    pub components: SparseSet<ComponentId, ()>,
    /// Which entities are associated to this archetype.
    pub entities: SparseSet<Entity, ()>,
}

impl Archetype {
    pub open spec fn wf(self) -> bool {
        &&& self.components.wf()
        &&& self.entities.wf()
    }

    /// The set of component id indices of this archetype.
    pub open spec fn component_set(self) -> Set<int> {
        self.components.key_set()
    }

    /// Checks whether `other`'s component set is included in `self`'s
    /// component set.
    pub fn includes_fully(&self, other: &Archetype) -> (r: bool)
        requires
            self.wf(),
            other.wf(),
        ensures
            r == other.component_set().subset_of(self.component_set()),
    {
        let n = other.components.len();
        let mut i: usize = 0;
        while i < n
            invariant
                self.wf(),
                other.wf(),
                n == other.components.spec_len(),
                i <= n,
                forall|j: int| 0 <= j < i as int
                    ==> self.components.spec_contains(
                        #[trigger] other.components.key_seq()[j]),
            decreases n - i,
        {
            let component = other.components.key_at(i);
            if !self.components.contains(&component) {
                proof {
                    assert(other.component_set().contains(
                        other.components.key_seq()[i as int]));
                }
                return false;
            }
            i = i + 1;
        }
        proof {
            assert forall|k: int| other.component_set().contains(k)
                implies self.component_set().contains(k) by {
                let j = choose|j: int|
                    0 <= j < other.components.key_seq().len()
                        && other.components.key_seq()[j] == k;
                assert(self.components.spec_contains(other.components.key_seq()[j]));
                assert(self.components.spec_contains(k));
            }
        }
        true
    }
}

/// Canonicalizes component sets into stable [`ArchetypeId`]s and keeps, for
/// every archetype ever observed, the set of entities currently in it.
/// Archetypes are never deleted, so ids stay stable for the manager's
/// lifetime.
pub struct ArchetypeManager {
    archetypes: Vec<Archetype>,
}

impl ArchetypeManager {
    pub closed spec fn spec_archetypes(self) -> Seq<Archetype> {
        self.archetypes@
    }

    pub open spec fn wf(self) -> bool {
        &&& forall|i: int| 0 <= i < self.spec_archetypes().len()
            ==> (#[trigger] self.spec_archetypes()[i]).wf()
        &&& forall|i: int, j: int|
            0 <= i < self.spec_archetypes().len()
                && 0 <= j < self.spec_archetypes().len() && i != j
                ==> !((#[trigger] self.spec_archetypes()[i]).component_set()
                    =~= (#[trigger] self.spec_archetypes()[j]).component_set())
    }

    /// Whether some archetype already canonicalizes the component set `s`.
    pub open spec fn spec_has_set(self, s: Set<int>) -> bool {
        exists|i: int| 0 <= i < self.spec_archetypes().len()
            && (#[trigger] self.spec_archetypes()[i]).component_set() =~= s
    }

    /// The id that the component set `s` canonicalizes to: the position of
    /// the archetype holding `s`, or the position a fresh archetype for `s`
    /// would be created at. A function of the set alone.
    pub open spec fn spec_archetype_of(self, s: Set<int>) -> int {
        if self.spec_has_set(s) {
            choose|i: int| 0 <= i < self.spec_archetypes().len()
                && (#[trigger] self.spec_archetypes()[i]).component_set() =~= s
        } else {
            self.spec_archetypes().len() as int
        }
    }

    /// The id of a component set depends on the set alone: equal sets get
    /// equal ids, regardless of the order their elements were inserted in.
    pub proof fn lemma_archetype_id_set_determined(self, s1: Set<int>, s2: Set<int>)
        requires
            s1 =~= s2,
        ensures
            self.spec_archetype_of(s1) == self.spec_archetype_of(s2),
    {
    }

    /// Creates a manager with no archetypes.
    pub fn new() -> (r: Self)
        ensures
            r.wf(),
            r.spec_archetypes().len() == 0,
    {
        ArchetypeManager { archetypes: Vec::new() }
    }

    /// Checks whether the component key set of `ids` equals the component
    /// set of archetype `arch`.
    fn sets_equal<T>(arch: &Archetype, ids: &SparseSet<ComponentId, T>) -> (r: bool)
        requires
            arch.wf(),
            ids.wf(),
        ensures
            r == (arch.component_set() =~= ids.key_set()),
    {
        let n = ids.len();
        let mut i: usize = 0;
        while i < n
            invariant
                arch.wf(),
                ids.wf(),
                n == ids.spec_len(),
                i <= n,
                forall|j: int| 0 <= j < i as int
                    ==> arch.components.spec_contains(#[trigger] ids.key_seq()[j]),
            decreases n - i,
        {
            let component = ids.key_at(i);
            if !arch.components.contains(&component) {
                proof {
                    assert(ids.key_set().contains(ids.key_seq()[i as int]));
                }
                return false;
            }
            i = i + 1;
        }
        let m = arch.components.len();
        let mut i: usize = 0;
        while i < m
            invariant
                arch.wf(),
                ids.wf(),
                m == arch.components.spec_len(),
                i <= m,
                forall|j: int| 0 <= j < i as int
                    ==> ids.spec_contains(#[trigger] arch.components.key_seq()[j]),
            decreases m - i,
        {
            let component = arch.components.key_at(i);
            if !ids.contains(&component) {
                proof {
                    assert(arch.component_set().contains(
                        arch.components.key_seq()[i as int]));
                }
                return false;
            }
            i = i + 1;
        }
        proof {
            assert forall|k: int| arch.component_set().contains(k)
                implies ids.key_set().contains(k) by {
                let j = choose|j: int|
                    0 <= j < arch.components.key_seq().len()
                        && arch.components.key_seq()[j] == k;
                assert(ids.spec_contains(arch.components.key_seq()[j]));
                assert(ids.spec_contains(k));
            }
            assert forall|k: int| ids.key_set().contains(k)
                implies arch.component_set().contains(k) by {
                let j = choose|j: int|
                    0 <= j < ids.key_seq().len() && ids.key_seq()[j] == k;
                assert(arch.components.spec_contains(ids.key_seq()[j]));
                assert(arch.components.spec_contains(k));
            }
        }
        true
    }

    /// Copies the key set of `ids` into a fresh component set.
    fn copy_key_set<T>(ids: &SparseSet<ComponentId, T>) -> (r: SparseSet<ComponentId, ()>)
        requires
            ids.wf(),
            forall|j: int| 0 <= j < ids.spec_len()
                ==> #[trigger] ids.key_seq()[j] < usize::MAX,
        ensures
            r.wf(),
            r.key_set() =~= ids.key_set(),
    {
        let mut out: SparseSet<ComponentId, ()> = SparseSet::new();
        let n = ids.len();
        let mut i: usize = 0;
        while i < n
            invariant
                ids.wf(),
                out.wf(),
                n == ids.spec_len(),
                i <= n,
                out.spec_len() <= i as int,
                forall|j: int| 0 <= j < ids.spec_len()
                    ==> #[trigger] ids.key_seq()[j] < usize::MAX,
                forall|k: int| #[trigger] out.spec_contains(k)
                    <==> ids.key_seq().take(i as int).contains(k),
            decreases n - i,
        {
            let component = ids.key_at(i);
            proof {
                ids.lemma_pos_unique(i as int);
                assert(component.spec_index() == ids.key_seq()[i as int]);
                assert(0 <= component.spec_index() < usize::MAX);
            }
            out.insert(component, ());
            proof {
                assert forall|k: int| #[trigger] out.spec_contains(k)
                    implies ids.key_seq().take(i as int + 1).contains(k) by {
                    if k == component.spec_index() {
                        assert(ids.key_seq().take(i as int + 1)[i as int] == k);
                    } else {
                        let j = choose|j: int|
                            0 <= j < i as int
                                && #[trigger] ids.key_seq().take(i as int)[j] == k;
                        assert(ids.key_seq().take(i as int + 1)[j] == k);
                    }
                }
                assert forall|k: int| ids.key_seq().take(i as int + 1).contains(k)
                    implies #[trigger] out.spec_contains(k) by {
                    let j = choose|j: int|
                        0 <= j < i as int + 1
                            && #[trigger] ids.key_seq().take(i as int + 1)[j] == k;
                    if j < i as int {
                        assert(ids.key_seq().take(i as int)[j] == k);
                    }
                }
            }
            i = i + 1;
        }
        proof {
            assert(ids.key_seq().take(n as int) =~= ids.key_seq());
            assert(out.key_set() =~= ids.key_set()) by {
                assert forall|k: int| out.key_set().contains(k)
                    implies ids.key_set().contains(k) by {
                    assert(out.spec_contains(k));
                    assert(ids.key_seq().contains(k));
                }
                assert forall|k: int| ids.key_set().contains(k)
                    implies out.key_set().contains(k) by {
                    assert(ids.key_seq().contains(k));
                    assert(out.spec_contains(k));
                }
            }
        }
        out
    }

    /// Gets the archetype id of this component set, creating the archetype
    /// lazily if the set was never observed. Equal sets always yield equal
    /// ids, independent of insertion order.
    pub fn archetype_of<T>(&mut self, ids: &SparseSet<ComponentId, T>) -> (r: ArchetypeId)
        requires
            old(self).wf(),
            ids.wf(),
            forall|j: int| 0 <= j < ids.spec_len()
                ==> #[trigger] ids.key_seq()[j] < usize::MAX,
        ensures
            final(self).wf(),
            r.0 == old(self).spec_archetype_of(ids.key_set()),
            r.0 < final(self).spec_archetypes().len(),
            final(self).spec_archetypes()[r.0 as int].component_set() =~= ids.key_set(),
            final(self).spec_has_set(ids.key_set()),
            final(self).spec_archetype_of(ids.key_set()) == r.0,
            old(self).spec_has_set(ids.key_set()) ==> *final(self) == *old(self),
            !old(self).spec_has_set(ids.key_set()) ==> {
                &&& final(self).spec_archetypes().len()
                    == old(self).spec_archetypes().len() + 1
                &&& forall|i: int| 0 <= i < old(self).spec_archetypes().len()
                    ==> final(self).spec_archetypes()[i] == old(self).spec_archetypes()[i]
                &&& final(self).spec_archetypes()[r.0 as int].entities.spec_len() == 0
                &&& final(self).spec_archetypes()[r.0 as int].entities.wf()
            },
    {
        let n = self.archetypes.len();
        let mut i: usize = 0;
        while i < n
            invariant
                self.wf(),
                ids.wf(),
                n == self.spec_archetypes().len(),
                i <= n,
                forall|j: int| 0 <= j < i as int
                    ==> !((#[trigger] self.spec_archetypes()[j]).component_set()
                        =~= ids.key_set()),
            decreases n - i,
        {
            if Self::sets_equal(&self.archetypes[i], ids) {
                proof {
                    assert(self.spec_has_set(ids.key_set()));
                    let w = self.spec_archetype_of(ids.key_set());
                    assert(self.spec_archetypes()[w].component_set() =~= ids.key_set());
                    assert(w == i as int);
                }
                return ArchetypeId(i);
            }
            i = i + 1;
        }
        proof {
            assert(!self.spec_has_set(ids.key_set()));
        }
        let components = Self::copy_key_set(ids);
        let arch = Archetype { components, entities: SparseSet::new() };
        self.archetypes.push(arch);
        proof {
            assert(self.spec_archetypes()[n as int].component_set() =~= ids.key_set());
            assert(self.spec_has_set(ids.key_set()));
            let w = self.spec_archetype_of(ids.key_set());
            assert(self.spec_archetypes()[w].component_set() =~= ids.key_set());
            assert forall|j: int| 0 <= j < n as int
                implies !((#[trigger] self.spec_archetypes()[j]).component_set()
                    =~= ids.key_set()) by {
                assert(self.spec_archetypes()[j] == old(self).spec_archetypes()[j]);
            }
            assert(w == n as int);
        }
        ArchetypeId(n)
    }

    /// The number of archetypes ever canonicalized.
    pub fn archetype_count(&self) -> (r: usize)
        ensures
            r == self.spec_archetypes().len(),
    {
        self.archetypes.len()
    }

    /// Gets the archetype with this id if it exists.
    pub fn get_archetype(&self, id: ArchetypeId) -> (r: Option<&Archetype>)
        ensures
            match r {
                Some(a) => {
                    &&& id.0 < self.spec_archetypes().len()
                    &&& *a == self.spec_archetypes()[id.0 as int]
                },
                None => id.0 >= self.spec_archetypes().len(),
            },
    {
        if id.0 < self.archetypes.len() {
            Some(&self.archetypes[id.0])
        } else {
            None
        }
    }

    /// Gets mutable access to the archetype with this id.
    pub fn get_archetype_mut(&mut self, id: ArchetypeId) -> (r: &mut Archetype)
        requires
            id.0 < old(self).spec_archetypes().len(),
        ensures
            *r == old(self).spec_archetypes()[id.0 as int],
            final(self).spec_archetypes() =~= old(self).spec_archetypes().update(
                id.0 as int,
                *final(r),
            ),
    {
        &mut self.archetypes[id.0]
    }
}

} // verus!
