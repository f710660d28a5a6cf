//! Interning of region, loan and variable names to dense integer ids: an
//! injective name-to-id service shared by lowering and any fact loader.

use vstd::prelude::*;

verus! {

/// A growable arena of distinct names; a name's id is its index.
#[derive(Debug)]
pub struct Interner {
    pub names: Vec<String>,
}

impl Interner {
    /// No two stored names are equal.
    pub open spec fn wf(&self) -> bool {
        forall|i: int, j: int|
            0 <= i < j < self.names@.len() ==> self.names@[i]@ != self.names@[j]@
    }

    pub fn new() -> (r: Interner)
        ensures
            r.wf(),
            r.names@.len() == 0,
    {
        Interner { names: Vec::new() }
    }

    /// The id of `name`, allocating a fresh id on first sight. Ids are stable:
    /// previously interned names keep their id, and equal names get equal ids.
    #[verifier::loop_isolation(false)]
    pub fn intern(&mut self, name: &String) -> (id: usize)
        requires
            old(self).wf(),
        ensures
            final(self).wf(),
            id < final(self).names@.len(),
            final(self).names@[id as int]@ == name@,
            old(self).names@.len() <= final(self).names@.len() <= old(self).names@.len() + 1,
            forall|k: int|
                0 <= k < old(self).names@.len()
                    ==> final(self).names@[k] == old(self).names@[k],
    {
        let mut i: usize = 0;
        while i < self.names.len()
            invariant
                i <= self.names@.len(),
                forall|j: int| 0 <= j < i ==> self.names@[j]@ != name@,
        decreases self.names@.len() - i,
        {
            if self.names[i].eq(name) {
                proof {
                    assert(self.wf());
                    assert(self.names@[i as int]@ == name@);
                }
                return i;
            }
            i += 1;
        }
        let id = self.names.len();
        let ghost pre = self.names@;
        let copy = name.clone();
        proof {
            assert(copy@ == name@);
        }
        self.names.push(copy);
        proof {
            assert forall|i: int, j: int|
                0 <= i < j < self.names@.len()
                implies self.names@[i]@ != self.names@[j]@ by {
                if j == pre.len() as int {
                    assert(self.names@[i] == pre[i]);
                    assert(pre[i]@ != name@);
                }
            }
        }
        id
    }

    /// How many distinct names have been interned.
    pub fn len(&self) -> (n: usize)
        ensures
            n == self.names@.len(),
    {
        self.names.len()
    }
}

/// One interner per entity kind.
#[derive(Debug)]
pub struct InternerTables {
    pub regions: Interner,
    pub loans: Interner,
    pub variables: Interner,
}

impl InternerTables {
    pub open spec fn wf(&self) -> bool {
        self.regions.wf() && self.loans.wf() && self.variables.wf()
    }

    pub fn new() -> (r: InternerTables)
        ensures
            r.wf(),
    {
        InternerTables {
            regions: Interner::new(),
            loans: Interner::new(),
            variables: Interner::new(),
        }
    }
}

} // verus!
