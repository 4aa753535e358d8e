use vstd::prelude::*;

verus! {

/// Trait for the key types a [`SparseSet`] can be indexed by.
pub trait SparseIndex: Sized + Copy {
    /// The key's position in the sparse lookup table, as a mathematical int.
    spec fn spec_index(&self) -> int;

    /// Returns the key's unique index.
    fn index(&self) -> (r: usize)
        ensures
            r as int == self.spec_index(),
    ;
}

impl SparseIndex for usize {
    open spec fn spec_index(&self) -> int {
        *self as int
    }

    fn index(&self) -> usize {
        *self
    }
}

#[derive(Clone)]
struct SparseKey<I, T> {
    index: I,
    value: T,
}

/// A sparse set: a dense vector of (key, value) entries plus a sparse vector
/// that maps a key's index to its position in the dense vector. Insert,
/// remove and lookup are constant time; iteration is linear over the dense
/// entries.
#[derive(Clone)]
pub struct SparseSet<I, T> {
    dense: Vec<SparseKey<I, T>>,
    sparse: Vec<usize>,
}

impl<I: SparseIndex, T> SparseSet<I, T> {
    /// The dense entries, in dense order.
    pub closed spec fn entries(self) -> Seq<(I, T)> {
        self.dense@.map(|_i: int, e: SparseKey<I, T>| (e.index, e.value))
    }

    /// The keys' indices, in dense order.
    pub open spec fn key_seq(self) -> Seq<int> {
        Seq::new(self.entries().len(), |i: int| self.entries()[i].0.spec_index())
    }

    pub open spec fn spec_len(self) -> nat {
        self.entries().len()
    }

    /// The set of key indices currently present.
    pub open spec fn key_set(self) -> Set<int> {
        self.key_seq().to_set()
    }

    pub open spec fn spec_contains(self, k: int) -> bool {
        self.key_seq().contains(k)
    }

    /// Position of the entry with key index `k` in the dense order.
    pub open spec fn pos_of(self, k: int) -> int {
        self.key_seq().index_of(k)
    }

    /// The (key, value) entry stored under key index `k`.
    pub open spec fn spec_at(self, k: int) -> (I, T) {
        self.entries()[self.pos_of(k)]
    }

    /// The value stored under key index `k`.
    pub open spec fn spec_get(self, k: int) -> T {
        self.spec_at(k).1
    }

    /// Internal consistency: every dense entry's key points back at it
    /// through the sparse table. This forces the keys to be distinct.
    pub closed spec fn wf(self) -> bool {
        forall|i: int|
            0 <= i < self.dense@.len() ==> {
                let k = #[trigger] self.dense@[i].index.spec_index();
                &&& 0 <= k < self.sparse@.len()
                &&& self.sparse@[k] == i
            }
    }

    /// In a well-formed set, distinct dense positions hold distinct keys.
    pub proof fn lemma_keys_distinct(self)
        requires
            self.wf(),
        ensures
            forall|i: int, j: int|
                0 <= i < self.spec_len() && 0 <= j < self.spec_len() && i != j
                    ==> self.key_seq()[i] != self.key_seq()[j],
    {
        assert forall|i: int, j: int|
            0 <= i < self.spec_len() && 0 <= j < self.spec_len() && i != j
            implies self.key_seq()[i] != self.key_seq()[j] by {
            assert(self.dense@[i].index.spec_index() == self.key_seq()[i]);
            assert(self.dense@[j].index.spec_index() == self.key_seq()[j]);
        }
    }

    /// A key occurring at dense position `p` occurs nowhere else, so `p` is
    /// its canonical position.
    pub proof fn lemma_pos_unique(self, p: int)
        requires
            self.wf(),
            0 <= p < self.spec_len(),
        ensures
            self.pos_of(self.key_seq()[p]) == p,
            self.spec_contains(self.key_seq()[p]),
            self.spec_at(self.key_seq()[p]) == self.entries()[p],
    {
        self.lemma_keys_distinct();
        let k = self.key_seq()[p];
        assert(self.spec_contains(k));
        self.lemma_pos_valid(k);
    }

    /// For a key that is present, its canonical position is in range and
    /// holds that key.
    pub proof fn lemma_pos_valid(self, k: int)
        requires
            self.spec_contains(k),
        ensures
            0 <= self.pos_of(k) < self.spec_len(),
            self.key_seq()[self.pos_of(k)] == k,
    {
        assert(exists|i: int| 0 <= i < self.key_seq().len() && self.key_seq()[i] == k);
    }

    /// Creates a new, empty, sparse set.
    pub fn new() -> (r: Self)
        ensures
            r.wf(),
            r.spec_len() == 0,
            r.entries() =~= Seq::<(I, T)>::empty(),
    {
        SparseSet { dense: Vec::new(), sparse: Vec::new() }
    }

    /// The number of entries in this sparse set.
    pub fn len(&self) -> (r: usize)
        ensures
            r == self.spec_len(),
    {
        self.dense.len()
    }

    /// Returns true if the sparse set has no entries.
    pub fn is_empty(&self) -> (r: bool)
        ensures
            r == (self.spec_len() == 0),
    {
        self.dense.len() == 0
    }

    /// Looks up the dense position of the key with sparse index `index`.
    fn get_key(&self, index: usize) -> (r: Option<usize>)
        requires
            self.wf(),
        ensures
            match r {
                Some(p) => {
                    &&& p < self.spec_len()
                    &&& self.key_seq()[p as int] == index as int
                    &&& self.spec_contains(index as int)
                    &&& self.pos_of(index as int) == p as int
                },
                None => !self.spec_contains(index as int),
            },
    {
        if index >= self.sparse.len() {
            proof {
                if self.spec_contains(index as int) {
                    let p = self.pos_of(index as int);
                    self.lemma_pos_valid(index as int);
                    assert(self.dense@[p].index.spec_index() == index as int);
                }
            }
            return None;
        }
        let key_index = self.sparse[index];
        if key_index >= self.dense.len() {
            proof {
                if self.spec_contains(index as int) {
                    self.lemma_pos_valid(index as int);
                    let p = self.pos_of(index as int);
                    assert(self.dense@[p].index.spec_index() == index as int);
                }
            }
            return None;
        }
        let stored = self.dense[key_index].index.index();
        if index == stored {
            proof {
                self.lemma_pos_unique(key_index as int);
            }
            Some(key_index)
        } else {
            proof {
                if self.spec_contains(index as int) {
                    self.lemma_pos_valid(index as int);
                    let p = self.pos_of(index as int);
                    assert(self.dense@[p].index.spec_index() == index as int);
                }
            }
            None
        }
    }

    /// Adds a new entry to the sparse set, or overwrites the value already
    /// stored under the same key index. Returns true if the key index was
    /// not present in the set, false otherwise.
    pub fn insert(&mut self, index: I, value: T) -> (r: bool)
        requires
            old(self).wf(),
            0 <= index.spec_index() < usize::MAX,
        ensures
            final(self).wf(),
            r == !old(self).spec_contains(index.spec_index()),
            r ==> final(self).entries() =~= old(self).entries().push((index, value)),
            !r ==> final(self).entries() =~= old(self).entries().update(
                old(self).pos_of(index.spec_index()),
                (old(self).spec_at(index.spec_index()).0, value),
            ),
            forall|k2: int| #[trigger] final(self).spec_contains(k2)
                <==> old(self).spec_contains(k2) || k2 == index.spec_index(),
            final(self).spec_get(index.spec_index()) == value,
            final(self).spec_at(index.spec_index()).0 == (if r {
                index
            } else {
                old(self).spec_at(index.spec_index()).0
            }),
            forall|k2: int| old(self).spec_contains(k2) && k2 != index.spec_index()
                ==> #[trigger] final(self).spec_at(k2) == old(self).spec_at(k2),
            final(self).spec_len() == old(self).spec_len() + (if r { 1int } else { 0 }),
    {
        let ghost pre = *old(self);
        let index_value = index.index();
        if let Some(key) = self.get_key(index_value) {
            self.dense[key].value = value;
            proof {
                assert(self.wf());
                assert(self.entries() =~= pre.entries().update(
                    pre.pos_of(index.spec_index()),
                    (pre.spec_at(index.spec_index()).0, value),
                ));
                Self::lemma_update_at(pre, *self, index.spec_index(),
                    (pre.spec_at(index.spec_index()).0, value));
            }
            false
        } else {
            let len = self.dense.len();
            self.dense.push(SparseKey { index, value });

            self.ensure_capacity_for(index_value);

            self.sparse[index_value] = len;
            proof {
                assert forall|i: int| 0 <= i < self.dense@.len() implies {
                    let k = #[trigger] self.dense@[i].index.spec_index();
                    &&& 0 <= k < self.sparse@.len()
                    &&& self.sparse@[k] == i
                } by {
                    if i < old(self).dense@.len() {
                        assert(old(self).dense@[i].index.spec_index()
                            == self.dense@[i].index.spec_index());
                        assert(self.dense@[i].index.spec_index() != index_value as int) by {
                            if self.dense@[i].index.spec_index() == index_value as int {
                                assert(old(self).key_seq()[i] == index_value as int);
                                assert(old(self).spec_contains(index_value as int));
                            }
                        }
                    }
                }
                assert(self.entries() =~= pre.entries().push((index, value)));
                Self::lemma_push(pre, *self, (index, value));
            }
            true
        }
    }

    /// Replacing the entry at a key's canonical position with an entry
    /// bearing the same key index leaves every other lookup unchanged.
    pub proof fn lemma_update_at(pre: Self, post: Self, k: int, e: (I, T))
        requires
            pre.wf(),
            post.wf(),
            pre.spec_contains(k),
            e.0.spec_index() == k,
            post.entries() =~= pre.entries().update(pre.pos_of(k), e),
        ensures
            forall|k2: int| #[trigger] post.spec_contains(k2) <==> pre.spec_contains(k2),
            post.spec_at(k) == e,
            forall|k2: int| pre.spec_contains(k2) && k2 != k
                ==> #[trigger] post.spec_at(k2) == pre.spec_at(k2),
            post.spec_len() == pre.spec_len(),
    {
        pre.lemma_keys_distinct();
        post.lemma_keys_distinct();
        pre.lemma_pos_valid(k);
        let p = pre.pos_of(k);
        assert(post.key_seq() =~= pre.key_seq());
        assert(post.key_seq()[p] == k);
        post.lemma_pos_unique(p);
        assert forall|k2: int| pre.spec_contains(k2) && k2 != k
            implies #[trigger] post.spec_at(k2) == pre.spec_at(k2) by {
            pre.lemma_pos_valid(k2);
            let q = pre.pos_of(k2);
            pre.lemma_pos_unique(q);
            post.lemma_pos_unique(q);
        }
    }

    /// Appending an entry with a fresh key index adds exactly that entry.
    pub proof fn lemma_push(pre: Self, post: Self, e: (I, T))
        requires
            pre.wf(),
            post.wf(),
            !pre.spec_contains(e.0.spec_index()),
            post.entries() =~= pre.entries().push(e),
        ensures
            forall|k2: int| #[trigger] post.spec_contains(k2)
                <==> pre.spec_contains(k2) || k2 == e.0.spec_index(),
            post.spec_at(e.0.spec_index()) == e,
            forall|k2: int| pre.spec_contains(k2)
                ==> #[trigger] post.spec_at(k2) == pre.spec_at(k2),
            post.spec_len() == pre.spec_len() + 1,
    {
        pre.lemma_keys_distinct();
        post.lemma_keys_distinct();
        let n = pre.spec_len() as int;
        assert(post.key_seq() =~= pre.key_seq().push(e.0.spec_index()));
        assert forall|k2: int| #[trigger] post.spec_contains(k2)
            implies pre.spec_contains(k2) || k2 == e.0.spec_index() by {
            let i = choose|i: int|
                0 <= i < post.key_seq().len() && post.key_seq()[i] == k2;
            if i < n {
                assert(pre.key_seq()[i] == k2);
            }
        }
        assert forall|k2: int| pre.spec_contains(k2)
            implies #[trigger] post.spec_contains(k2) by {
            pre.lemma_pos_valid(k2);
            assert(post.key_seq()[pre.pos_of(k2)] == k2);
        }
        assert(post.key_seq()[n] == e.0.spec_index());
        post.lemma_pos_unique(n);
        assert forall|k2: int| pre.spec_contains(k2)
            implies #[trigger] post.spec_at(k2) == pre.spec_at(k2) by {
            pre.lemma_pos_valid(k2);
            let q = pre.pos_of(k2);
            pre.lemma_pos_unique(q);
            post.lemma_pos_unique(q);
        }
    }

    /// Returns true if the sparse set contains the given `index`.
    pub fn contains(&self, index: &I) -> (r: bool)
        requires
            self.wf(),
        ensures
            r == self.spec_contains(index.spec_index()),
    {
        self.get(index).is_some()
    }

    /// Gets a reference to the entry's value for the given `index` if it
    /// exists.
    pub fn get(&self, index: &I) -> (r: Option<&T>)
        requires
            self.wf(),
        ensures
            match r {
                Some(v) => {
                    &&& self.spec_contains(index.spec_index())
                    &&& *v == self.spec_get(index.spec_index())
                },
                None => !self.spec_contains(index.spec_index()),
            },
    {
        let index_value = index.index();
        match self.get_key(index_value) {
            Some(s) => Some(&self.dense[s].value),
            None => None,
        }
    }

    /// Gets a mutable reference to the value stored under `index`.
    /// Unlike the lookup by shared reference, the caller must know that the
    /// entry is present.
    pub fn get_mut(&mut self, index: I) -> (r: &mut T)
        requires
            old(self).wf(),
            old(self).spec_contains(index.spec_index()),
        ensures
            *r == old(self).spec_get(index.spec_index()),
            final(self).entries() =~= old(self).entries().update(
                old(self).pos_of(index.spec_index()),
                (old(self).spec_at(index.spec_index()).0, *final(r)),
            ),
            final(self).wf(),
            final(self).key_seq() =~= old(self).key_seq(),
    {
        let index_value = index.index();
        let key = self.get_key(index_value).unwrap();
        proof {
            assert(self.dense@[key as int].index.spec_index() == index.spec_index());
        }
        &mut self.dense[key].value
    }

    /// Tries to remove an entry from the sparse set; the last dense entry is
    /// swapped into the vacated position. Returns `true` if an entry with
    /// index `index` was present.
    pub fn remove(&mut self, index: I) -> (r: bool)
        requires
            old(self).wf(),
        ensures
            final(self).wf(),
            r == old(self).spec_contains(index.spec_index()),
            !r ==> *final(self) == *old(self),
            r ==> final(self).entries() =~= old(self).entries().update(
                old(self).pos_of(index.spec_index()),
                old(self).entries().last(),
            ).drop_last(),
            r ==> final(self).key_set() =~= old(self).key_set().remove(index.spec_index()),
            r ==> final(self).spec_len() == old(self).spec_len() - 1,
            r ==> forall|k: int| final(self).spec_contains(k)
                ==> #[trigger] final(self).spec_at(k) == old(self).spec_at(k),
            !final(self).spec_contains(index.spec_index()),
            forall|k: int| #[trigger] final(self).spec_contains(k)
                <==> old(self).spec_contains(k) && k != index.spec_index(),
    {
        let ghost pre = *old(self);
        let index_value = index.index();
        match self.get_key(index_value) {
            Some(pos) => {
                proof {
                    pre.lemma_keys_distinct();
                }
                let n = self.dense.len() - 1;
                let last_index = self.dense[n].index;
                let moved = self.dense.swap_remove(pos);
                proof {
                    let _ = moved;
                }
                if pos < self.dense.len() {
                    let slot = self.sparse[last_index.index()];
                    proof {
                        let _ = slot;
                    }
                    self.sparse[last_index.index()] = pos;
                }
                proof {
                    assert(self.dense@ =~= pre.dense@.update(
                        pos as int,
                        pre.dense@.last(),
                    ).drop_last());
                    assert forall|i: int| 0 <= i < self.dense@.len() implies {
                        let k = #[trigger] self.dense@[i].index.spec_index();
                        &&& 0 <= k < self.sparse@.len()
                        &&& self.sparse@[k] == i
                    } by {
                        if i == pos as int {
                            assert(self.dense@[i] == pre.dense@[pre.dense@.len() - 1]);
                        } else {
                            assert(self.dense@[i] == pre.dense@[i]);
                            assert(pre.dense@[i].index.spec_index()
                                != pre.dense@[pre.dense@.len() - 1].index.spec_index());
                            assert(pre.dense@[i].index.spec_index() != index_value as int);
                        }
                    }
                    self.lemma_remove_post(pre, index.spec_index(), pos as int);
                }
                true
            },
            None => false,
        }
    }

    /// Relates the entries after a swap-removal to the entries before it.
    proof fn lemma_remove_post(self, pre: Self, k: int, pos: int)
        requires
            pre.wf(),
            self.wf(),
            0 <= pos < pre.spec_len(),
            pre.key_seq()[pos] == k,
            pre.pos_of(k) == pos,
            self.entries() =~= pre.entries().update(pos, pre.entries().last()).drop_last(),
        ensures
            self.key_set() =~= pre.key_set().remove(k),
            !self.spec_contains(k),
            forall|k2: int| #[trigger] self.spec_contains(k2)
                <==> pre.spec_contains(k2) && k2 != k,
            forall|k2: int| self.spec_contains(k2)
                ==> #[trigger] self.spec_at(k2) == pre.spec_at(k2),
    {
        pre.lemma_keys_distinct();
        self.lemma_keys_distinct();
        let n = pre.spec_len() - 1;
        assert forall|k2: int| #[trigger] self.spec_contains(k2)
            implies pre.spec_contains(k2) && k2 != k by {
            let p = choose|p: int| 0 <= p < self.spec_len() && self.key_seq()[p] == k2;
            if p == pos {
                assert(pre.key_seq()[n] == k2);
            } else {
                assert(pre.key_seq()[p] == k2);
            }
            assert(k2 != k);
        }
        assert forall|k2: int| pre.spec_contains(k2) && k2 != k
            implies #[trigger] self.spec_contains(k2) by {
            let p = pre.pos_of(k2);
            pre.lemma_pos_valid(k2);
            assert(pre.key_seq()[p] == k2);
            if p == n {
                if pos < n {
                    assert(self.key_seq()[pos] == k2);
                }
            } else {
                assert(self.key_seq()[p] == k2);
            }
        }
        assert forall|k2: int| self.spec_contains(k2)
            implies #[trigger] self.spec_at(k2) == pre.spec_at(k2) by {
            let p = self.pos_of(k2);
            self.lemma_pos_valid(k2);
            assert(self.key_seq()[p] == k2);
            self.lemma_pos_unique(p);
            if p == pos {
                assert(self.entries()[p] == pre.entries()[n]);
                assert(pre.key_seq()[n] == k2);
                pre.lemma_pos_unique(n);
            } else {
                assert(self.entries()[p] == pre.entries()[p]);
                assert(pre.key_seq()[p] == k2);
                pre.lemma_pos_unique(p);
            }
        }
        assert(self.key_set() =~= pre.key_set().remove(k)) by {
            assert forall|k2: int| self.key_set().contains(k2)
                implies pre.key_set().contains(k2) && k2 != k by {
                assert(self.spec_contains(k2));
            }
            assert forall|k2: int| pre.key_set().contains(k2) && k2 != k
                implies self.key_set().contains(k2) by {
                assert(pre.spec_contains(k2));
                assert(self.spec_contains(k2));
            }
        }
    }

    /// The entries, copied out in dense order.
    pub fn iter(&self) -> (r: Vec<(I, T)>) where T: Copy
        requires
            self.wf(),
        ensures
            r@ =~= self.entries(),
    {
        let mut out: Vec<(I, T)> = Vec::new();
        let mut i: usize = 0;
        while i < self.dense.len()
            invariant
                i <= self.dense@.len(),
                out@ =~= self.entries().take(i as int),
            decreases self.dense@.len() - i,
        {
            out.push((self.dense[i].index, self.dense[i].value));
            i = i + 1;
        }
        out
    }

    /// The key stored at dense position `i`.
    pub fn key_at(&self, i: usize) -> (r: I)
        requires
            i < self.spec_len(),
        ensures
            r == self.entries()[i as int].0,
    {
        self.dense[i].index
    }

    /// A reference to the value stored at dense position `i`.
    pub fn value_at(&self, i: usize) -> (r: &T)
        requires
            i < self.spec_len(),
        ensures
            *r == self.entries()[i as int].1,
    {
        &self.dense[i].value
    }

    /// A mutable reference to the value stored at dense position `i`.
    pub fn value_at_mut(&mut self, i: usize) -> (r: &mut T)
        requires
            old(self).wf(),
            i < old(self).spec_len(),
        ensures
            *r == old(self).entries()[i as int].1,
            final(self).entries() =~= old(self).entries().update(
                i as int,
                (old(self).entries()[i as int].0, *final(r)),
            ),
            final(self).wf(),
            final(self).key_seq() =~= old(self).key_seq(),
    {
        &mut self.dense[i].value
    }

    /// Removes all entries from the sparse set.
    pub fn clear(&mut self)
        ensures
            final(self).wf(),
            final(self).spec_len() == 0,
            final(self).entries() =~= Seq::<(I, T)>::empty(),
    {
        self.dense.clear();
    }

    /// Grows the sparse table so that `index` is a valid slot.
    fn ensure_capacity_for(&mut self, index: usize)
        requires
            index < usize::MAX,
        ensures
            final(self).dense == old(self).dense,
            final(self).sparse@.len() > index,
            old(self).sparse@.len() > index ==> final(self).sparse == old(self).sparse,
            forall|i: int| 0 <= i < old(self).sparse@.len()
                ==> final(self).sparse@[i] == old(self).sparse@[i],
    {
        while self.sparse.len() <= index
            invariant
                index < usize::MAX,
                self.dense == old(self).dense,
                self.sparse@.len() >= old(self).sparse@.len(),
                old(self).sparse@.len() > index ==> self.sparse == old(self).sparse,
                forall|i: int| 0 <= i < old(self).sparse@.len()
                    ==> self.sparse@[i] == old(self).sparse@[i],
            decreases index + 1 - self.sparse@.len(),
        {
            self.sparse.push(usize::MAX);
        }
    }

    /// Gets a mutable reference to the value at the specified `index` if it
    /// exists, or inserts the given value first.
    pub fn get_or_insert(&mut self, index: I, value: T) -> (r: &mut T)
        requires
            old(self).wf(),
            0 <= index.spec_index() < usize::MAX,
        ensures
            final(self).wf(),
            old(self).spec_contains(index.spec_index())
                ==> *r == old(self).spec_get(index.spec_index()),
            !old(self).spec_contains(index.spec_index()) ==> *r == value,
            !old(self).spec_contains(index.spec_index())
                ==> final(self).entries() =~= old(self).entries().push((index, *final(r))),
            old(self).spec_contains(index.spec_index())
                ==> final(self).entries() =~= old(self).entries().update(
                    old(self).pos_of(index.spec_index()),
                    (old(self).spec_at(index.spec_index()).0, *final(r)),
                ),
            final(self).key_seq() =~= if old(self).spec_contains(index.spec_index()) {
                old(self).key_seq()
            } else {
                old(self).key_seq().push(index.spec_index())
            },
    {
        let ghost pre = *old(self);
        if !self.contains(&index) {
            self.insert(index, value);
        }
        let ghost mid = *self;
        proof {
            if pre.spec_contains(index.spec_index()) {
                pre.lemma_pos_valid(index.spec_index());
            } else {
                mid.lemma_keys_distinct();
                assert(mid.key_seq()[mid.spec_len() - 1] == index.spec_index());
                mid.lemma_pos_unique(mid.spec_len() - 1);
            }
        }
        self.get_mut(index)
    }
}

} // verus!
