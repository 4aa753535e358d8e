use vstd::prelude::*;

use crate::query::AccessMode;
use crate::sparse_set::{SparseIndex, SparseSet};
use crate::world_container::ComponentId;

verus! {

/// Merges the dependency contributions of one system parameter into the
/// system's dependency map: a component acquires the parameter's mode on
/// first sight, and an exclusive `Write` always overrides a shared `Read`.
pub fn add_dependencies(
    param_deps: &SparseSet<ComponentId, AccessMode>,
    system_deps: &mut SparseSet<ComponentId, AccessMode>,
)
    requires
        param_deps.wf(),
        old(system_deps).wf(),
        forall|j: int| 0 <= j < param_deps.spec_len()
            ==> 0 <= #[trigger] param_deps.key_seq()[j] < usize::MAX,
    ensures
        final(system_deps).wf(),
        forall|c: int| #[trigger] final(system_deps).spec_contains(c)
            <==> old(system_deps).spec_contains(c) || param_deps.spec_contains(c),
        forall|c: int| param_deps.spec_contains(c)
            && #[trigger] param_deps.spec_get(c) == AccessMode::Write
            ==> final(system_deps).spec_get(c) == AccessMode::Write,
        forall|c: int| old(system_deps).spec_contains(c)
            && #[trigger] old(system_deps).spec_get(c) == AccessMode::Write
            ==> final(system_deps).spec_get(c) == AccessMode::Write,
        forall|c: int| old(system_deps).spec_contains(c) && !param_deps.spec_contains(c)
            ==> #[trigger] final(system_deps).spec_get(c)
                == old(system_deps).spec_get(c),
        forall|c: int| param_deps.spec_contains(c) && !old(system_deps).spec_contains(c)
            ==> #[trigger] final(system_deps).spec_get(c) == param_deps.spec_get(c),
{
    let ghost pre = *old(system_deps);
    let n = param_deps.len();
    let mut i: usize = 0;
    while i < n
        invariant
            param_deps.wf(),
            system_deps.wf(),
            n == param_deps.spec_len(),
            i <= n,
            forall|j: int| 0 <= j < param_deps.spec_len()
                ==> 0 <= #[trigger] param_deps.key_seq()[j] < usize::MAX,
            forall|c: int| #[trigger] system_deps.spec_contains(c)
                <==> pre.spec_contains(c)
                    || param_deps.key_seq().take(i as int).contains(c),
            forall|c: int| param_deps.key_seq().take(i as int).contains(c)
                && #[trigger] param_deps.spec_get(c) == AccessMode::Write
                ==> system_deps.spec_get(c) == AccessMode::Write,
            forall|c: int| pre.spec_contains(c)
                && #[trigger] pre.spec_get(c) == AccessMode::Write
                ==> system_deps.spec_get(c) == AccessMode::Write,
            forall|c: int| pre.spec_contains(c)
                && !param_deps.key_seq().take(i as int).contains(c)
                ==> #[trigger] system_deps.spec_get(c) == pre.spec_get(c),
            forall|c: int| param_deps.key_seq().take(i as int).contains(c)
                && !pre.spec_contains(c)
                ==> #[trigger] system_deps.spec_get(c) == param_deps.spec_get(c),
        decreases n - i,
    {
        let component = param_deps.key_at(i);
        let access = *param_deps.value_at(i);
        let ghost c = component.spec_index();
        let ghost snap = *system_deps;
        proof {
            param_deps.lemma_pos_unique(i as int);
        }
        let has = system_deps.contains(&component);
        let is_write = match access {
            AccessMode::Write => true,
            AccessMode::Read => false,
        };
        if has == false || is_write {
            system_deps.insert(component, access);
        }
        proof {
            assert(param_deps.spec_get(c) == access);
            assert forall|c2: int| #[trigger] system_deps.spec_contains(c2)
                <==> pre.spec_contains(c2)
                    || param_deps.key_seq().take(i as int + 1).contains(c2) by {
                if c2 == c {
                    assert(param_deps.key_seq().take(i as int + 1)[i as int] == c);
                    assert(param_deps.key_seq().take(i as int + 1).contains(c));
                    assert(system_deps.spec_contains(c));
                } else {
                    assert(system_deps.spec_contains(c2) <==> snap.spec_contains(c2));
                    assert(param_deps.key_seq().take(i as int + 1).contains(c2)
                        <==> param_deps.key_seq().take(i as int).contains(c2)) by {
                        if param_deps.key_seq().take(i as int + 1).contains(c2) {
                            let j = choose|j: int| 0 <= j < i as int + 1
                                && #[trigger] param_deps.key_seq().take(
                                i as int + 1)[j] == c2;
                            assert(j < i as int);
                            assert(param_deps.key_seq().take(i as int)[j] == c2);
                        }
                        if param_deps.key_seq().take(i as int).contains(c2) {
                            let j = choose|j: int| 0 <= j < i as int
                                && #[trigger] param_deps.key_seq().take(
                                i as int)[j] == c2;
                            assert(param_deps.key_seq().take(i as int + 1)[j] == c2);
                        }
                    }
                }
            }
            assert forall|c2: int| system_deps.spec_contains(c2) && c2 != c
                implies #[trigger] system_deps.spec_get(c2) == snap.spec_get(c2) by {
                if has == false || is_write {
                    assert(system_deps.spec_at(c2) == snap.spec_at(c2));
                }
            }
            assert(param_deps.key_seq().take(i as int + 1)[i as int] == c);
        }
        i = i + 1;
    }
    proof {
        assert(param_deps.key_seq().take(n as int) =~= param_deps.key_seq());
    }
}

} // verus!
