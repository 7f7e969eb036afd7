//! Migration descriptors, the registry that holds them, and the error kinds of
//! the engine.
use vstd::prelude::*;

use crate::ident::MigrationId;

verus! {

/// One migration: its identifier, the migrations it depends on, and the SQL
/// batches that it runs, in order, inside a single transaction.
///
/// `down` is `None` for a migration that cannot be reverted: that refusal is
/// part of the descriptor, so a revert plan can be checked before anything
/// runs.
pub struct Migration {
    pub id: MigrationId,
    pub dependencies: Vec<MigrationId>,
    pub description: &'static str,
    pub up: Vec<&'static str>,
    pub down: Option<Vec<&'static str>>,
}

impl Migration {
    pub open spec fn depends_on(&self, d: MigrationId) -> bool {
        self.dependencies@.contains(d)
    }

    pub open spec fn reversible(&self) -> bool {
        self.down.is_some()
    }

    /// Whether this migration can be reverted.
    pub fn is_reversible(&self) -> (r: bool)
        ensures
            r == self.reversible(),
    {
        self.down.is_some()
    }
}

/// The direction in which a migration is run.
#[derive(Clone, Copy, Debug, PartialEq, Eq, Structural)]
pub enum Direction {
    Up,
    Down,
}

/// What can go wrong while planning or running migrations. Every kind names
/// the migration concerned.
#[derive(Clone, Debug)]
pub enum MigrateError {
    /// Two registered migrations share an identifier.
    DuplicateId { migration: MigrationId },
    /// `migration` depends on `missing`, which is not registered.
    UnresolvedDependency { migration: MigrationId, missing: MigrationId },
    /// `migration` lies on a cycle of dependencies.
    CyclicDependency { migration: MigrationId },
    /// `migration` failed while run in `direction`; its transaction was
    /// rolled back.
    MigrationFailed { migration: MigrationId, direction: Direction, cause: String },
    /// A revert was asked of a migration that cannot be reverted.
    IrreversibleMigration { migration: MigrationId },
    /// A target names `migration`, which is not registered.
    UnknownMigration { migration: MigrationId },
    /// A target holds `migration` but neither holds nor keeps applied
    /// `dependency`, which it depends on.
    TargetNotClosed { migration: MigrationId, dependency: MigrationId },
    /// A set of migrations to keep names `migration`, which is not applied.
    NotApplied { migration: MigrationId },
    /// A row of the applied-set table holds no identifier.
    MalformedRecord { length: usize },
}

/// Whether some entry of `ms` has identifier `id`.
pub open spec fn has_id(ms: Seq<Migration>, id: MigrationId) -> bool {
    exists|i: int| 0 <= i < ms.len() && #[trigger] ms[i].id == id
}

/// No two entries of `ms` share an identifier.
pub open spec fn unique_ids(ms: Seq<Migration>) -> bool {
    forall|i: int, j: int|
        0 <= i < ms.len() && 0 <= j < ms.len() && #[trigger] ms[i].id == #[trigger] ms[j].id
            ==> i == j
}

/// The set of migrations known to the engine, in registration order.
pub struct Registry {
    migrations: Vec<Migration>,
}

impl View for Registry {
    type V = Seq<Migration>;

    closed spec fn view(&self) -> Seq<Migration> {
        self.migrations@
    }
}

impl Registry {
    /// Identifiers are unique.
    pub open spec fn wf(&self) -> bool {
        unique_ids(self@)
    }

    pub fn new() -> (r: Registry)
        ensures
            r@ == Seq::<Migration>::empty(),
            r.wf(),
    {
        Registry { migrations: Vec::new() }
    }

    /// Adds `m` after the migrations already registered; refused where its
    /// identifier is taken.
    pub fn register(&mut self, m: Migration) -> (r: Result<(), MigrateError>)
        requires
            old(self).wf(),
        ensures
            final(self).wf(),
            r is Ok <==> !has_id(old(self)@, m.id),
            r is Ok ==> final(self)@ == old(self)@.push(m),
            r is Err ==> final(self)@ == old(self)@,
            r matches Err(e) ==> e == (MigrateError::DuplicateId { migration: m.id }),
    {
        let mut i: usize = 0;
        while i < self.migrations.len()
            invariant
                0 <= i <= self@.len(),
                self@ == old(self)@,
                old(self).wf(),
                forall|k: int| 0 <= k < i ==> self@[k].id != m.id,
            decreases self@.len() - i,
        {
            if self.migrations[i].id == m.id {
                return Err(MigrateError::DuplicateId { migration: m.id });
            }
            i = i + 1;
        }
        self.migrations.push(m);
        Ok(())
    }

    pub fn len(&self) -> (r: usize)
        ensures
            r == self@.len(),
    {
        self.migrations.len()
    }

    pub fn get(&self, i: usize) -> (r: &Migration)
        requires
            i < self@.len(),
        ensures
            *r == self@[i as int],
    {
        &self.migrations[i]
    }

    /// The position of the migration with identifier `id`.
    pub fn position(&self, id: MigrationId) -> (r: Option<usize>)
        requires
            self.wf(),
        ensures
            r matches Some(i) ==> i < self@.len() && self@[i as int].id == id,
            r is None <==> !has_id(self@, id),
    {
        let mut i: usize = 0;
        while i < self.migrations.len()
            invariant
                0 <= i <= self@.len(),
                forall|k: int| 0 <= k < i ==> self@[k].id != id,
            decreases self@.len() - i,
        {
            if self.migrations[i].id == id {
                return Some(i);
            }
            i = i + 1;
        }
        None
    }
}

} // verus!
