use vstd::prelude::*;

verus! {

/// A dense identifier assigned by the [`TypeRegistrar`] to each distinct
/// runtime component type on first sight.
#[derive(Copy, Clone, Eq, PartialEq, Ord, PartialOrd, Hash, Debug, Default, Structural)]
pub struct UniqueTypeId(pub usize);

/// Assigns dense [`UniqueTypeId`]s to runtime types. A type is represented
/// here by an opaque token: the caller hands in the same token whenever it
/// means the same type, and distinct tokens for distinct types.
#[derive(Debug, Default)]
pub struct TypeRegistrar {
    registrations: Vec<u64>,
}

impl TypeRegistrar {
    /// The registered type tokens; the position of a token is its id.
    pub closed spec fn tokens(self) -> Seq<u64> {
        self.registrations@
    }

    /// Tokens are registered at most once.
    pub closed spec fn wf(self) -> bool {
        forall|i: int, j: int|
            0 <= i < self.tokens().len() && 0 <= j < self.tokens().len() && i != j
                ==> self.tokens()[i] != self.tokens()[j]
    }

    pub open spec fn spec_registered(self, token: u64) -> bool {
        self.tokens().contains(token)
    }

    /// The id assigned to a registered token.
    pub open spec fn spec_id_of(self, token: u64) -> int {
        self.tokens().index_of(token)
    }

    pub proof fn lemma_id_valid(self, token: u64)
        requires
            self.spec_registered(token),
        ensures
            0 <= self.spec_id_of(token) < self.tokens().len(),
            self.tokens()[self.spec_id_of(token)] == token,
    {
        assert(exists|i: int|
            0 <= i < self.tokens().len() && self.tokens()[i] == token);
    }

    /// Creates a registrar with no registrations.
    pub fn new() -> (r: Self)
        ensures
            r.wf(),
            r.tokens() =~= Seq::<u64>::empty(),
    {
        TypeRegistrar { registrations: Vec::new() }
    }

    /// Finds the position of a token, if it was registered.
    fn find(&self, token: u64) -> (r: Option<usize>)
        requires
            self.wf(),
        ensures
            match r {
                Some(p) => {
                    &&& p < self.tokens().len()
                    &&& self.tokens()[p as int] == token
                    &&& self.spec_id_of(token) == p as int
                },
                None => !self.spec_registered(token),
            },
    {
        let mut i: usize = 0;
        while i < self.registrations.len()
            invariant
                self.wf(),
                i <= self.tokens().len(),
                forall|j: int| 0 <= j < i ==> self.tokens()[j] != token,
            decreases self.tokens().len() - i,
        {
            if self.registrations[i] == token {
                proof {
                    self.lemma_id_valid(token);
                    let p = self.spec_id_of(token);
                    assert(self.tokens()[p] == token);
                    assert(p == i as int);
                }
                return Some(i);
            }
            i = i + 1;
        }
        None
    }

    /// Gets the id registered for this type token, registering a fresh one
    /// on first sight.
    pub fn get_registration(&mut self, token: u64) -> (r: UniqueTypeId)
        requires
            old(self).wf(),
        ensures
            final(self).wf(),
            old(self).spec_registered(token) ==> {
                &&& *final(self) == *old(self)
                &&& r.0 == old(self).spec_id_of(token)
            },
            !old(self).spec_registered(token) ==> {
                &&& final(self).tokens() =~= old(self).tokens().push(token)
                &&& r.0 == old(self).tokens().len()
            },
            final(self).spec_registered(token),
            r.0 == final(self).spec_id_of(token),
            r.0 < final(self).tokens().len(),
    {
        let ghost pre = *self;
        match self.find(token) {
            Some(p) => UniqueTypeId(p),
            None => {
                let id = self.registrations.len();
                self.registrations.push(token);
                proof {
                    assert(self.tokens()[id as int] == token);
                    assert forall|j: int| 0 <= j < self.tokens().len()
                        && self.tokens()[j] == token implies j == id as int by {
                        if j < id as int {
                            assert(pre.tokens()[j] == token);
                        }
                    }
                    self.lemma_id_valid(token);
                }
                UniqueTypeId(id)
            },
        }
    }

    /// Gets the id registered for this type token. The caller must know that
    /// the token was registered.
    pub fn get(&self, token: u64) -> (r: UniqueTypeId)
        requires
            self.wf(),
            self.spec_registered(token),
        ensures
            r.0 == self.spec_id_of(token),
            r.0 < self.tokens().len(),
    {
        proof {
            self.lemma_id_valid(token);
        }
        UniqueTypeId(self.find(token).unwrap())
    }

    /// Gets the id registered for this type token, if there is one.
    pub fn get_maybe(&self, token: u64) -> (r: Option<UniqueTypeId>)
        requires
            self.wf(),
        ensures
            match r {
                Some(id) => {
                    &&& self.spec_registered(token)
                    &&& id.0 == self.spec_id_of(token)
                    &&& id.0 < self.tokens().len()
                },
                None => !self.spec_registered(token),
            },
    {
        proof {
            if self.spec_registered(token) {
                self.lemma_id_valid(token);
            }
        }
        match self.find(token) {
            Some(p) => Some(UniqueTypeId(p)),
            None => None,
        }
    }

    /// Gets the id for a type token carried by a deferred command blob,
    /// registering it on first sight.
    pub fn get_from_type_id(&mut self, token: u64) -> (r: UniqueTypeId)
        requires
            old(self).wf(),
        ensures
            final(self).wf(),
            old(self).spec_registered(token) ==> {
                &&& *final(self) == *old(self)
                &&& r.0 == old(self).spec_id_of(token)
            },
            !old(self).spec_registered(token) ==> {
                &&& final(self).tokens() =~= old(self).tokens().push(token)
                &&& r.0 == old(self).tokens().len()
            },
            final(self).spec_registered(token),
            r.0 == final(self).spec_id_of(token),
            r.0 < final(self).tokens().len(),
    {
        self.get_registration(token)
    }
}

} // verus!
