//! The ledger of applied change-sets: one table per kind, each row holding
//! the id and name of an applied change-set and when it was applied.
//!
//! A row exists exactly while its change-set is applied and not yet
//! reverted: a successful forward execution inserts it, a successful reverse
//! execution deletes it, and nothing else touches it. The two kinds are
//! independent namespaces: writing one table never changes the other.

use vstd::prelude::*;

use crate::Kind;
use crate::clock::timestamp_ms;
use crate::engine::id_set;
use crate::names::str_eq;

verus! {

/// Why a ledger write is refused.
#[derive(Clone, Copy, PartialEq, Eq, Structural, Debug)]
pub enum LedgerError {
    /// The id is already recorded for this kind.
    DuplicateId,
}

/// One ledger row: an applied change-set's id and name, and the clock
/// reading when it was recorded.
pub struct LedgerEntry {
    pub id: String,
    pub name: String,
    pub applied_at: u128,
}

/// The namespace that the other kind's operations leave untouched.
pub open spec fn other_kind(kind: Kind) -> Kind {
    match kind {
        Kind::Migration => Kind::Seed,
        Kind::Seed => Kind::Migration,
    }
}

/// No id occurs twice among the rows.
pub open spec fn unique_ids(rows: Seq<LedgerEntry>) -> bool {
    forall|i: int, j: int| 0 <= i < j < rows.len() ==> rows[i].id@ != rows[j].id@
}

/// The ledger: the applied change-sets of each kind, in application order.
pub struct Ledger {
    migrations: Vec<LedgerEntry>,
    seeders: Vec<LedgerEntry>,
}

impl Ledger {
    /// The rows recorded for one kind, oldest first.
    pub closed spec fn rows(&self, kind: Kind) -> Seq<LedgerEntry> {
        match kind {
            Kind::Migration => self.migrations@,
            Kind::Seed => self.seeders@,
        }
    }

    /// The ids recorded for one kind.
    pub open spec fn ids(&self, kind: Kind) -> Set<Seq<char>> {
        Set::new(
            |x: Seq<char>|
                exists|k: int|
                    0 <= k < self.rows(kind).len() && (#[trigger] self.rows(kind)[k]).id@ == x,
        )
    }

    /// Each kind records an id at most once.
    pub open spec fn wf(&self) -> bool {
        unique_ids(self.rows(Kind::Migration)) && unique_ids(self.rows(Kind::Seed))
    }

    /// An empty ledger: nothing applied in either namespace.
    pub fn new() -> (l: Ledger)
        ensures
            l.wf(),
            l.rows(Kind::Migration).len() == 0,
            l.rows(Kind::Seed).len() == 0,
    {
        Ledger { migrations: Vec::new(), seeders: Vec::new() }
    }

    /// Whether the id is recorded as applied for this kind.
    pub fn is_applied(&self, kind: Kind, id: &str) -> (r: bool)
        ensures
            r == self.ids(kind).contains(id@),
    {
        let rows = match kind {
            Kind::Migration => &self.migrations,
            Kind::Seed => &self.seeders,
        };
        let mut i: usize = 0;
        while i < rows.len()
            invariant
                i <= rows@.len(),
                rows@ == self.rows(kind),
                forall|j: int| 0 <= j < i ==> (#[trigger] rows@[j]).id@ != id@,
            decreases rows@.len() - i,
        {
            if str_eq(rows[i].id.as_str(), id) {
                return true;
            }
            i = i + 1;
        }
        false
    }

    /// Every recorded id of one kind, in application order: the ledger
    /// snapshot that a run plans against.
    pub fn applied_ids(&self, kind: Kind) -> (r: Vec<String>)
        ensures
            r@.len() == self.rows(kind).len(),
            forall|i: int| 0 <= i < r@.len() ==> r@[i] == (#[trigger] self.rows(kind)[i]).id,
            id_set(r@) == self.ids(kind),
    {
        let rows = match kind {
            Kind::Migration => &self.migrations,
            Kind::Seed => &self.seeders,
        };
        let mut r: Vec<String> = Vec::new();
        let mut i: usize = 0;
        while i < rows.len()
            invariant
                i <= rows@.len(),
                rows@ == self.rows(kind),
                r@.len() == i,
                forall|j: int| 0 <= j < i ==> r@[j] == (#[trigger] rows@[j]).id,
            decreases rows@.len() - i,
        {
            r.push(rows[i].id.clone());
            i = i + 1;
        }
        proof {
            assert(id_set(r@) =~= self.ids(kind)) by {
                assert forall|x: Seq<char>| id_set(r@).contains(x) implies self.ids(kind).contains(
                    x,
                ) by {
                    let k = choose|k: int| 0 <= k < r@.len() && (#[trigger] r@[k])@ == x;
                    assert(self.rows(kind)[k].id@ == x);
                }
                assert forall|x: Seq<char>| self.ids(kind).contains(x) implies id_set(
                    r@,
                ).contains(x) by {
                    let k = choose|k: int|
                        0 <= k < self.rows(kind).len() && (#[trigger] self.rows(kind)[k]).id@ == x;
                    assert(r@[k]@ == x);
                }
            }
        }
        r
    }

    /// Records a change-set as applied: inserts a row with the id, the name
    /// and the clock reading. Refuses a duplicate id and changes nothing
    /// then. The other kind's table is never touched, whatever happens.
    pub fn mark_applied(&mut self, kind: Kind, id: &str, name: &str) -> (r: Result<
        (),
        LedgerError,
    >)
        requires
            old(self).wf(),
        ensures
            final(self).wf(),
            final(self).rows(other_kind(kind)) == old(self).rows(other_kind(kind)),
            match r {
                Ok(()) => {
                    &&& !old(self).ids(kind).contains(id@)
                    &&& final(self).rows(kind).len() == old(self).rows(kind).len() + 1
                    &&& final(self).rows(kind).take(old(self).rows(kind).len() as int) == old(
                        self,
                    ).rows(kind)
                    &&& final(self).rows(kind).last().id@ == id@
                    &&& final(self).rows(kind).last().name@ == name@
                    &&& final(self).ids(kind) == old(self).ids(kind).insert(id@)
                },
                Err(e) => {
                    &&& e == LedgerError::DuplicateId
                    &&& old(self).ids(kind).contains(id@)
                    &&& *final(self) == *old(self)
                },
            },
    {
        if self.is_applied(kind, id) {
            return Err(LedgerError::DuplicateId);
        }
        let entry = LedgerEntry {
            id: id.to_owned(),
            name: name.to_owned(),
            applied_at: timestamp_ms(),
        };
        match kind {
            Kind::Migration => self.migrations.push(entry),
            Kind::Seed => self.seeders.push(entry),
        }
        proof {
            let old_rows = old(self).rows(kind);
            let new_rows = self.rows(kind);
            assert(new_rows == old_rows.push(new_rows.last()));
            assert(new_rows.take(old_rows.len() as int) =~= old_rows);
            assert forall|i: int, j: int| 0 <= i < j < new_rows.len() implies new_rows[i].id@
                != new_rows[j].id@ by {
                if j == new_rows.len() - 1 {
                    // A row with this id would have made the membership test succeed.
                    assert(old_rows[i].id@ != id@);
                }
            }
            assert(self.ids(kind) =~= old(self).ids(kind).insert(id@)) by {
                assert forall|x: Seq<char>| self.ids(kind).contains(x) implies old(self).ids(
                    kind,
                ).insert(id@).contains(x) by {
                    let k = choose|k: int|
                        0 <= k < new_rows.len() && (#[trigger] new_rows[k]).id@ == x;
                    if k < old_rows.len() {
                        assert(old_rows[k].id@ == x);
                    }
                }
                assert forall|x: Seq<char>| old(self).ids(kind).insert(id@).contains(x) implies
                    self.ids(kind).contains(x) by {
                    if x == id@ {
                        assert(new_rows[new_rows.len() - 1].id@ == x);
                    } else {
                        let k = choose|k: int|
                            0 <= k < old_rows.len() && (#[trigger] old_rows[k]).id@ == x;
                        assert(new_rows[k].id@ == x);
                    }
                }
            }
        }
        Ok(())
    }

    /// Deletes the row recorded for this id, if any: the id is no longer
    /// applied afterwards, and every other id's standing is untouched.
    /// Deleting an absent id is a no-op, not an error. The other kind's
    /// table is never touched.
    pub fn unmark_applied(&mut self, kind: Kind, id: &str)
        requires
            old(self).wf(),
        ensures
            final(self).wf(),
            final(self).rows(other_kind(kind)) == old(self).rows(other_kind(kind)),
            final(self).ids(kind) == old(self).ids(kind).remove(id@),
            !old(self).ids(kind).contains(id@) ==> *final(self) == *old(self),
            old(self).ids(kind).contains(id@) ==> exists|j: int|
                0 <= j < old(self).rows(kind).len() && (#[trigger] old(self).rows(kind)[j]).id@
                    == id@ && final(self).rows(kind) == old(self).rows(kind).remove(j),
    {
        let rows = match kind {
            Kind::Migration => &self.migrations,
            Kind::Seed => &self.seeders,
        };
        let mut i: usize = 0;
        let mut found: Option<usize> = None;
        while i < rows.len()
            invariant
                i <= rows@.len(),
                rows@ == old(self).rows(kind),
                self == old(self),
                match found {
                    Some(j) => j < i && rows@[j as int].id@ == id@,
                    None => forall|j: int| 0 <= j < i ==> (#[trigger] rows@[j]).id@ != id@,
                },
            decreases rows@.len() - i,
        {
            if found.is_none() && str_eq(rows[i].id.as_str(), id) {
                found = Some(i);
            }
            i = i + 1;
        }
        match found {
            Some(j) => {
                match kind {
                    Kind::Migration => {
                        self.migrations.remove(j);
                    },
                    Kind::Seed => {
                        self.seeders.remove(j);
                    },
                }
                proof {
                    let old_rows = old(self).rows(kind);
                    let new_rows = self.rows(kind);
                    assert(new_rows == old_rows.remove(j as int));
                    assert forall|k: int| 0 <= k < new_rows.len() implies new_rows[k] == (if k < j {
                        old_rows[k]
                    } else {
                        old_rows[k + 1]
                    }) by {
                        assert(old_rows.remove(j as int) == old_rows.subrange(0, j as int)
                            + old_rows.subrange(j + 1, old_rows.len() as int));
                    }
                    assert forall|a: int, b: int| 0 <= a < b < new_rows.len() implies
                        new_rows[a].id@ != new_rows[b].id@ by {}
                    assert(self.ids(kind) =~= old(self).ids(kind).remove(id@)) by {
                        assert forall|x: Seq<char>| self.ids(kind).contains(x) implies old(
                            self,
                        ).ids(kind).remove(id@).contains(x) by {
                            let k = choose|k: int|
                                0 <= k < new_rows.len() && (#[trigger] new_rows[k]).id@ == x;
                            if k < j {
                                assert(old_rows[k].id@ == x);
                                // Uniqueness: only row `j` holds the removed id.
                                assert(old_rows[k].id@ != old_rows[j as int].id@);
                            } else {
                                assert(old_rows[k + 1].id@ == x);
                                assert(old_rows[k + 1].id@ != old_rows[j as int].id@);
                            }
                        }
                        assert forall|x: Seq<char>| old(self).ids(kind).remove(id@).contains(
                            x,
                        ) implies self.ids(kind).contains(x) by {
                            let k = choose|k: int|
                                0 <= k < old_rows.len() && (#[trigger] old_rows[k]).id@ == x;
                            if k < j {
                                assert(new_rows[k].id@ == x);
                            } else if k > j {
                                assert(new_rows[k - 1].id@ == x);
                            }
                        }
                    }
                }
            },
            None => {
                proof {
                    assert(self.ids(kind) =~= old(self).ids(kind).remove(id@)) by {
                        assert forall|x: Seq<char>| self.ids(kind).contains(x) implies x != id@ by {
                            let k = choose|k: int|
                                0 <= k < self.rows(kind).len() && (#[trigger] self.rows(
                                    kind,
                                )[k]).id@ == x;
                        }
                    }
                }
            },
        }
    }
}

} // verus!
