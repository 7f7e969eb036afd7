//! The execution engine as a state machine. The embedding application opens
//! one transaction per step that the machine names, runs the migration and
//! the applied-set bookkeeping in it, commits or rolls back, and reports the
//! outcome back.
use vstd::prelude::*;

use crate::applied::AppliedSet;
use crate::ident::MigrationId;
use crate::registry::{has_id, Direction, MigrateError, Migration, Registry};
use crate::resolve::{
    all_reversible, forward_plan, forward_plan_for, kahn_order, keep_ok, target_closed, target_known, pending_ids, plan_for, resolvable, resolve, revert_plan,
    revert_plan_for, reverted_ids,
};

verus! {

broadcast use vstd::seq_lib::group_seq_properties;

/// Where a migration run should take the store.
pub enum Target {
    /// Apply every registered migration that is not applied yet.
    Latest,
    /// Apply every migration of the given set that is not applied yet. The
    /// set must be registered and closed under dependencies, counting the
    /// applied migrations.
    Apply(AppliedSet),
    /// Revert every applied migration that the given set leaves out. The set
    /// must be registered, applied, and closed under dependencies.
    Keep(AppliedSet),
}

/// What the application is to do next.
#[derive(Debug)]
pub enum Step {
    /// Run this migration forward in a transaction of its own, and record it.
    Apply(MigrationId),
    /// Run this migration backward in a transaction of its own, and unrecord
    /// it.
    Revert(MigrationId),
    /// The plan is through.
    Finished,
    /// A migration failed; nothing more is to run.
    Stopped,
}

/// A plan being carried out, one migration at a time.
pub struct Run {
    plan: Vec<MigrationId>,
    direction: Direction,
    next: usize,
    applied: AppliedSet,
    failure: Option<MigrateError>,
    start: Ghost<Seq<MigrationId>>,
}

/// `applied` is what a run from `start` has left after the first `done`
/// migrations of `plan` in `direction` committed.
pub open spec fn after_steps(
    start: Seq<MigrationId>,
    plan: Seq<MigrationId>,
    direction: Direction,
    done: int,
    applied: Seq<MigrationId>,
) -> bool {
    forall|x: MigrationId| #[trigger] applied.contains(x) <==> match direction {
        Direction::Up => start.contains(x) || plan.take(done).contains(x),
        Direction::Down => start.contains(x) && !plan.take(done).contains(x),
    }
}

impl Run {
    pub closed spec fn plan(&self) -> Seq<MigrationId> {
        self.plan@
    }

    pub closed spec fn direction(&self) -> Direction {
        self.direction
    }

    /// How many migrations of the plan have committed.
    pub closed spec fn done(&self) -> int {
        self.next as int
    }

    pub closed spec fn applied_now(&self) -> Seq<MigrationId> {
        self.applied@
    }

    /// The applied-set that the run started from.
    pub closed spec fn start(&self) -> Seq<MigrationId> {
        self.start@
    }

    pub closed spec fn failure(&self) -> Option<MigrateError> {
        self.failure
    }

    pub open spec fn failed(&self) -> bool {
        self.failure() is Some
    }

    /// The applied-set is the start's, changed by exactly the committed
    /// steps; the plan has no repeats.
    pub open spec fn wf(&self) -> bool {
        &&& 0 <= self.done() <= self.plan().len()
        &&& self.plan().no_duplicates()
        &&& self.applied_now().no_duplicates()
        &&& after_steps(self.start(), self.plan(), self.direction(), self.done(), self.applied_now())
    }

    /// Starts carrying out `plan` in `direction` on a store whose
    /// applied-set is `applied`.
    pub fn start_run(plan: Vec<MigrationId>, direction: Direction, applied: AppliedSet) -> (r: Run)
        requires
            plan@.no_duplicates(),
            applied.wf(),
        ensures
            r.wf(),
            r.plan() == plan@,
            r.direction() == direction,
            r.done() == 0,
            r.start() == applied@,
            r.applied_now() == applied@,
            !r.failed(),
    {
        let ghost start = applied@;
        proof {
            assert(plan@.take(0) =~= Seq::<MigrationId>::empty());
        }
        Run { plan, direction, next: 0, applied, failure: None, start: Ghost(start) }
    }

    /// The step the application is to take now.
    pub fn next_step(&self) -> (r: Step)
        requires
            self.wf(),
        ensures
            self.failed() ==> r is Stopped,
            !self.failed() && self.done() == self.plan().len() ==> r is Finished,
            !self.failed() && self.done() < self.plan().len() && self.direction() == Direction::Up
                ==> r == Step::Apply(self.plan()[self.done()]),
            !self.failed() && self.done() < self.plan().len() && self.direction() == Direction::Down
                ==> r == Step::Revert(self.plan()[self.done()]),
    {
        if self.failure.is_some() {
            Step::Stopped
        } else if self.next == self.plan.len() {
            Step::Finished
        } else {
            match self.direction {
                Direction::Up => Step::Apply(self.plan[self.next]),
                Direction::Down => Step::Revert(self.plan[self.next]),
            }
        }
    }

    /// The current step's transaction committed: its migration is now
    /// recorded as applied (or, reverting, no longer recorded).
    pub fn step_committed(&mut self)
        requires
            old(self).wf(),
            !old(self).failed(),
            old(self).done() < old(self).plan().len(),
        ensures
            final(self).wf(),
            !final(self).failed(),
            final(self).done() == old(self).done() + 1,
            final(self).plan() == old(self).plan(),
            final(self).direction() == old(self).direction(),
            final(self).start() == old(self).start(),
            forall|x: MigrationId| #[trigger] final(self).applied_now().contains(x) <==> match old(
                self,
            ).direction() {
                Direction::Up => old(self).applied_now().contains(x) || x == old(self).plan()[old(
                    self,
                ).done()],
                Direction::Down => old(self).applied_now().contains(x) && x != old(self).plan()[old(
                    self,
                ).done()],
            },
    {
        let len = self.plan.len();
        assert(self.next < len);
        let id = self.plan[self.next];
        let ghost k = self.next as int;
        let ghost prev = self.applied@;
        let ghost plan = self.plan@;
        let ghost start = self.start@;
        assert(plan.take(k + 1) =~= plan.take(k).push(id));
        match self.direction {
            Direction::Up => {
                self.applied.insert(id);
                assert forall|x: MigrationId| #[trigger] self.applied@.contains(x) <==> (prev.contains(x) || x == id) by {
                    if !prev.contains(id) {
                        assert(self.applied@ == prev.push(id));
                    }
                }
                assert forall|x: MigrationId| #[trigger] self.applied@.contains(x) <==> (start.contains(x) || plan.take(k + 1).contains(x)) by {
                    assert(prev.contains(x) <==> (start.contains(x) || plan.take(k).contains(x)));
                }
            },
            Direction::Down => {
                assert(!plan.take(k).contains(id)) by {
                    if plan.take(k).contains(id) {
                        let j = choose|j: int| 0 <= j < k && plan.take(k)[j] == id;
                        assert(plan[j] == plan[k]);
                    }
                }
                self.applied.remove(id);
                assert forall|x: MigrationId| #[trigger] self.applied@.contains(x) <==> (start.contains(x) && !plan.take(k + 1).contains(x)) by {
                    assert(prev.contains(x) <==> (start.contains(x) && !plan.take(k).contains(x)));
                }
            },
        }
        self.next = self.next + 1;
        assert(after_steps(start, plan, self.direction, k + 1, self.applied@));
    }

    /// The current step's transaction failed and was rolled back: the run
    /// stops, and the applied-set stays as it was.
    pub fn step_failed(&mut self, cause: String)
        requires
            old(self).wf(),
            !old(self).failed(),
            old(self).done() < old(self).plan().len(),
        ensures
            final(self).wf(),
            final(self).done() == old(self).done(),
            final(self).plan() == old(self).plan(),
            final(self).direction() == old(self).direction(),
            final(self).start() == old(self).start(),
            final(self).applied_now() == old(self).applied_now(),
            final(self).failure() == Some(
                MigrateError::MigrationFailed {
                    migration: old(self).plan()[old(self).done()],
                    direction: old(self).direction(),
                    cause,
                },
            ),
    {
        let migration = self.plan[self.next];
        self.failure = Some(MigrateError::MigrationFailed { migration, direction: self.direction, cause });
    }

    /// The applied-set as the run has left it so far.
    pub fn applied(&self) -> (r: &AppliedSet)
        ensures
            r@ == self.applied_now(),
    {
        &self.applied
    }

    /// Ends the run: the applied-set it leaves, or the failure that stopped
    /// it.
    pub fn finish(self) -> (r: Result<AppliedSet, MigrateError>)
        ensures
            self.failure() matches Some(e) ==> r == Err::<AppliedSet, MigrateError>(e),
            self.failure() is None ==> (r matches Ok(a) && a@ == self.applied_now()),
    {
        match self.failure {
            Some(e) => Err(e),
            None => Ok(self.applied),
        }
    }
}

/// Plans a run that takes a store with applied-set `applied` to `target`:
/// forward, in dependency order, for `Latest` and `Apply`; backward,
/// dependents first, for `Keep`. Fails as `resolve`, `forward_plan` or
/// `revert_plan` does, before anything runs.
pub fn migrate_to(registry: &Registry, applied: AppliedSet, target: &Target) -> (r: Result<Run, MigrateError>)
    requires
        registry.wf(),
        applied.wf(),
    ensures
        r matches Ok(run) ==> run.wf() && run.done() == 0 && !run.failed() && run.start() == applied@
            && run.applied_now() == applied@,
        target is Latest ==> {
            &&& r is Ok <==> resolvable(registry@)
            &&& r matches Ok(run) ==> run.direction() == Direction::Up && plan_for(registry@, applied@, run.plan())
                && run.plan() == pending_ids(registry@, kahn_order(registry@), applied@)
            &&& r matches Err(e) ==> e is UnresolvedDependency || e is CyclicDependency
        },
        target matches Target::Apply(want) ==> {
            &&& r is Ok <==> resolvable(registry@) && target_known(registry@, want@) && target_closed(
                registry@,
                applied@,
                want@,
            )
            &&& r matches Ok(run) ==> run.direction() == Direction::Up && forward_plan_for(
                registry@,
                applied@,
                want@,
                run.plan(),
            )
            &&& r matches Err(e) ==> e is UnknownMigration || e is TargetNotClosed || e is UnresolvedDependency
                || e is CyclicDependency
        },
        target matches Target::Keep(keep) ==> {
            &&& r is Ok <==> keep_ok(registry@, applied@, keep@) && resolvable(registry@) && all_reversible(
                registry@,
                applied@,
                keep@,
            )
            &&& r matches Ok(run) ==> run.direction() == Direction::Down && revert_plan_for(
                registry@,
                applied@,
                keep@,
                run.plan(),
            ) && run.plan() == reverted_ids(registry@, kahn_order(registry@), applied@, keep@)
            &&& r matches Err(e) ==> e is UnknownMigration || e is TargetNotClosed || e is NotApplied
                || e is UnresolvedDependency || e is CyclicDependency || e is IrreversibleMigration
        },
{
    match target {
        Target::Latest => match resolve(registry, &applied) {
            Ok(plan) => Ok(Run::start_run(plan, Direction::Up, applied)),
            Err(e) => Err(e),
        },
        Target::Apply(want) => match forward_plan(registry, &applied, want) {
            Ok(plan) => Ok(Run::start_run(plan, Direction::Up, applied)),
            Err(e) => Err(e),
        },
        Target::Keep(keep) => match revert_plan(registry, &applied, keep) {
            Ok(plan) => Ok(Run::start_run(plan, Direction::Down, applied)),
            Err(e) => Err(e),
        },
    }
}

/// Migrating to the latest state twice in a row: once a run of the plan that
/// `resolve` gave has committed every step, `resolve` on the applied-set it
/// left finds nothing more to apply. (Whether `resolve` succeeds depends on
/// the registry alone, so the second call succeeds where the first did.)
pub proof fn lemma_latest_twice(
    ms: Seq<Migration>,
    start: Seq<MigrationId>,
    first: Seq<MigrationId>,
    finished: Seq<MigrationId>,
    second: Seq<MigrationId>,
)
    requires
        plan_for(ms, start, first),
        after_steps(start, first, Direction::Up, first.len() as int, finished),
        plan_for(ms, finished, second),
    ensures
        second.len() == 0,
        forall|x: MigrationId| #[trigger] finished.contains(x) <==> (start.contains(x) || has_id(ms, x)),
{
    assert(first.take(first.len() as int) =~= first);
    if second.len() > 0 {
        let x = second[0];
        assert(second.contains(x));
        assert(finished.contains(x) <==> (start.contains(x) || first.contains(x)));
    }
    assert forall|x: MigrationId| #[trigger] finished.contains(x) <==> (start.contains(x) || has_id(ms, x)) by {
        assert(finished.contains(x) <==> (start.contains(x) || first.contains(x)));
    }
}

/// A forward run to a target reaches it: once every step of the plan that
/// `forward_plan` gave has committed, each registered migration of the
/// target is applied, and nothing else was added.
pub proof fn lemma_target_reached(
    ms: Seq<Migration>,
    start: Seq<MigrationId>,
    want: Seq<MigrationId>,
    plan: Seq<MigrationId>,
    finished: Seq<MigrationId>,
)
    requires
        forward_plan_for(ms, start, want, plan),
        after_steps(start, plan, Direction::Up, plan.len() as int, finished),
    ensures
        forall|x: MigrationId| #[trigger] finished.contains(x) <==> (start.contains(x) || (want.contains(x)
            && has_id(ms, x))),
{
    assert(plan.take(plan.len() as int) =~= plan);
    assert forall|x: MigrationId| #[trigger] finished.contains(x) <==> (start.contains(x) || (want.contains(x)
        && has_id(ms, x))) by {
        assert(finished.contains(x) <==> (start.contains(x) || plan.contains(x)));
    }
}

} // verus!
