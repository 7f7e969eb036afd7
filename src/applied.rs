//! The applied-set: which migrations a store records as applied, in the order
//! in which they were applied.
use vstd::prelude::*;

use crate::ident::{decoded_id, id_from_record, MigrationId};
use crate::registry::MigrateError;

verus! {

broadcast use vstd::seq_lib::group_seq_properties;

/// The identifiers that a store records as applied, each once, oldest first.
pub struct AppliedSet {
    ids: Vec<MigrationId>,
}

impl View for AppliedSet {
    type V = Seq<MigrationId>;

    closed spec fn view(&self) -> Seq<MigrationId> {
        self.ids@
    }
}

impl AppliedSet {
    /// No identifier is recorded twice.
    pub open spec fn wf(&self) -> bool {
        self@.no_duplicates()
    }

    pub open spec fn has(&self, x: MigrationId) -> bool {
        self@.contains(x)
    }

    /// The applied-set of a store on which nothing has run yet.
    pub fn new() -> (r: AppliedSet)
        ensures
            r@ == Seq::<MigrationId>::empty(),
            r.wf(),
    {
        AppliedSet { ids: Vec::new() }
    }

    pub fn len(&self) -> (r: usize)
        ensures
            r == self@.len(),
    {
        self.ids.len()
    }

    pub fn get(&self, i: usize) -> (r: MigrationId)
        requires
            i < self@.len(),
        ensures
            r == self@[i as int],
    {
        self.ids[i]
    }

    pub fn contains(&self, x: MigrationId) -> (r: bool)
        ensures
            r == self.has(x),
    {
        let mut i: usize = 0;
        while i < self.ids.len()
            invariant
                0 <= i <= self@.len(),
                forall|k: int| 0 <= k < i ==> self@[k] != x,
            decreases self@.len() - i,
        {
            if self.ids[i] == x {
                return true;
            }
            i = i + 1;
        }
        false
    }

    /// Records `x` as the latest applied migration, unless it is recorded
    /// already.
    pub fn insert(&mut self, x: MigrationId)
        requires
            old(self).wf(),
        ensures
            final(self).wf(),
            old(self).has(x) ==> final(self)@ == old(self)@,
            !old(self).has(x) ==> final(self)@ == old(self)@.push(x),
    {
        if !self.contains(x) {
            self.ids.push(x);
        }
    }

    /// Takes `x` out of the record; the others keep their order.
    pub fn remove(&mut self, x: MigrationId)
        requires
            old(self).wf(),
        ensures
            final(self).wf(),
            !old(self).has(x) ==> final(self)@ == old(self)@,
            old(self).has(x) ==> exists|p: int|
                0 <= p < old(self)@.len() && old(self)@[p] == x && final(self)@ == old(
                    self,
                )@.remove(p),
            forall|y: MigrationId| final(self).has(y) <==> (old(self).has(y) && y != x),
    {
        let mut i: usize = 0;
        while i < self.ids.len()
            invariant
                0 <= i <= self@.len(),
                self@ == old(self)@,
                old(self).wf(),
                forall|k: int| 0 <= k < i ==> self@[k] != x,
            decreases self@.len() - i,
        {
            if self.ids[i] == x {
                let ghost start = self@;
                self.ids.remove(i);
                proof {
                    assert forall|y: MigrationId| self.has(y) <==> (start.contains(y) && y != x) by {
                        if start.contains(y) && y != x {
                            let k = choose|k: int| 0 <= k < start.len() && start[k] == y;
                            if k < i {
                                assert(self@[k] == y);
                            } else {
                                assert(self@[k - 1] == y);
                            }
                        }
                        if self.has(y) {
                            let k = choose|k: int| 0 <= k < self@.len() && self@[k] == y;
                            if k < i {
                                assert(start[k] == y);
                            } else {
                                assert(start[k + 1] == y);
                            }
                        }
                    }
                }
                return;
            }
            i = i + 1;
        }
    }

    /// Reads the applied-set from the rows of a store's applied-set table.
    /// Fails on the first row that holds no identifier.
    pub fn from_records(rows: &Vec<Vec<u8>>) -> (r: Result<AppliedSet, MigrateError>)
        ensures
            r is Ok <==> forall|k: int| 0 <= k < rows@.len() ==> #[trigger] rows@[k]@.len() == 16,
            r matches Ok(a) ==> a.wf() && forall|x: MigrationId|
                a.has(x) <==> recorded(rows@, rows@.len() as int, x),
            r matches Ok(a) ==> a@ == decoded_in_order(rows@),
            r matches Err(e) ==> exists|k: int|
                0 <= k < rows@.len() && rows@[k]@.len() != 16 && e == (MigrateError::MalformedRecord {
                    length: rows@[k].len(),
                }) && forall|q: int| 0 <= q < k ==> #[trigger] rows@[q]@.len() == 16,
    {
        let mut a = AppliedSet::new();
        let mut i: usize = 0;
        while i < rows.len()
            invariant
                0 <= i <= rows@.len(),
                a.wf(),
                forall|k: int| 0 <= k < i ==> #[trigger] rows@[k]@.len() == 16,
                forall|x: MigrationId| a.has(x) <==> recorded(rows@, i as int, x),
                a@ == decoded_in_order(rows@.take(i as int)),
            decreases rows@.len() - i,
        {
            match id_from_record(rows[i].as_slice()) {
                None => {
                    return Err(MigrateError::MalformedRecord { length: rows[i].len() });
                },
                Some(x) => {
                    let ghost prev = a;
                    a.insert(x);
                    proof {
                        assert(rows@.take(i + 1).drop_last() =~= rows@.take(i as int));
                        assert forall|z: MigrationId| a.has(z) <==> recorded(rows@, i + 1, z) by {
                            if recorded(rows@, i + 1, z) {
                                let k = choose|k: int|
                                    0 <= k < i + 1 && decoded_id(#[trigger] rows@[k]@) == Some(z);
                                if k < i {
                                    assert(recorded(rows@, i as int, z));
                                }
                            }
                            assert(prev.has(z) <==> recorded(rows@, i as int, z));
                            if a.has(z) && z != x {
                                assert(prev.has(z));
                                let k = choose|k: int|
                                    0 <= k < i && decoded_id(#[trigger] rows@[k]@) == Some(z);
                                assert(recorded(rows@, i + 1, z));
                            }
                            if z == x {
                                assert(decoded_id(rows@[i as int]@) == Some(z));
                            }
                        }
                    }
                },
            }
            i = i + 1;
        }
        Ok(a)
    }
}

/// The identifiers that `rows` record, in order, each at its first
/// occurrence; rows that hold no identifier are passed over.
pub open spec fn decoded_in_order(rows: Seq<Vec<u8>>) -> Seq<MigrationId>
    decreases rows.len(),
{
    if rows.len() == 0 {
        Seq::empty()
    } else {
        let before = decoded_in_order(rows.drop_last());
        match decoded_id(rows.last()@) {
            Some(x) => if before.contains(x) {
                before
            } else {
                before.push(x)
            },
            None => before,
        }
    }
}

/// Some of the first `n` rows records `x`.
pub open spec fn recorded(rows: Seq<Vec<u8>>, n: int, x: MigrationId) -> bool {
    exists|k: int| 0 <= k < n && decoded_id(#[trigger] rows[k]@) == Some(x)
}

} // verus!
