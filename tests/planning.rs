use wallet_migrations::applied::AppliedSet;
use wallet_migrations::engine::{migrate_to, Run, Step, Target};
use wallet_migrations::ident::{id_from_record, id_to_record};
use wallet_migrations::registry::{Direction, MigrateError, Migration, Registry};
use wallet_migrations::resolve::{forward_plan, resolve, revert_plan};
use wallet_migrations::zip48_multisig;

const M1: u128 = 0x1111_0000_0000_0000_0000_0000_0000_0001;
const M2: u128 = 0x2222_0000_0000_0000_0000_0000_0000_0002;
const M3: u128 = 0x3333_0000_0000_0000_0000_0000_0000_0003;

fn mig(id: u128, deps: &[u128], reversible: bool) -> Migration {
    Migration {
        id,
        dependencies: deps.to_vec(),
        description: "test migration",
        up: vec!["SELECT 1;"],
        down: if reversible { Some(vec!["SELECT 1;"]) } else { None },
    }
}

fn registry(ms: Vec<Migration>) -> Registry {
    let mut r = Registry::new();
    for m in ms {
        r.register(m).unwrap();
    }
    r
}

fn applied(ids: &[u128]) -> AppliedSet {
    let mut a = AppliedSet::new();
    for id in ids {
        a.insert(*id);
    }
    a
}

fn ids(a: &AppliedSet) -> Vec<u128> {
    (0..a.len()).map(|i| a.get(i)).collect()
}

#[test]
fn resolve_puts_dependency_first() {
    let reg = registry(vec![mig(M1, &[], true), mig(M2, &[M1], true)]);
    assert_eq!(resolve(&reg, &AppliedSet::new()).unwrap(), vec![M1, M2]);
}

#[test]
fn resolve_dependency_registered_later() {
    let reg = registry(vec![mig(M2, &[M1], true), mig(M1, &[], true)]);
    assert_eq!(resolve(&reg, &AppliedSet::new()).unwrap(), vec![M1, M2]);
}

#[test]
fn resolve_ties_follow_registration_order() {
    let reg = registry(vec![mig(M3, &[], true), mig(M1, &[], true), mig(M2, &[], true)]);
    assert_eq!(resolve(&reg, &AppliedSet::new()).unwrap(), vec![M3, M1, M2]);
}

#[test]
fn resolve_skips_applied() {
    let reg = registry(vec![mig(M1, &[], true), mig(M2, &[M1], true), mig(M3, &[M2], true)]);
    assert_eq!(resolve(&reg, &applied(&[M1])).unwrap(), vec![M2, M3]);
    assert_eq!(resolve(&reg, &applied(&[M1, M2, M3])).unwrap(), Vec::<u128>::new());
}

#[test]
fn resolve_empty_registry() {
    let reg = Registry::new();
    assert_eq!(resolve(&reg, &AppliedSet::new()).unwrap(), Vec::<u128>::new());
}

#[test]
fn resolve_unknown_dependency() {
    let reg = registry(vec![mig(M1, &[], true), mig(M2, &[M3], true)]);
    match resolve(&reg, &AppliedSet::new()) {
        Err(MigrateError::UnresolvedDependency { migration, missing }) => {
            assert_eq!(migration, M2);
            assert_eq!(missing, M3);
        }
        other => panic!("unexpected {:?}", other),
    }
}

#[test]
fn resolve_cycle() {
    let reg = registry(vec![mig(M3, &[], true), mig(M1, &[M2], true), mig(M2, &[M1], true)]);
    let before = applied(&[M3]);
    match resolve(&reg, &before) {
        Err(MigrateError::CyclicDependency { migration }) => assert_eq!(migration, M1),
        other => panic!("unexpected {:?}", other),
    }
    assert_eq!(ids(&before), vec![M3]);
}

#[test]
fn resolve_cycle_among_applied() {
    let reg = registry(vec![mig(M1, &[M2], true), mig(M2, &[M1], true)]);
    assert!(matches!(
        resolve(&reg, &applied(&[M1, M2])),
        Err(MigrateError::CyclicDependency { .. })
    ));
}

#[test]
fn resolve_self_dependency() {
    let reg = registry(vec![mig(M1, &[M1], true)]);
    assert!(matches!(
        resolve(&reg, &AppliedSet::new()),
        Err(MigrateError::CyclicDependency { migration }) if migration == M1
    ));
}

#[test]
fn register_refuses_duplicate_id() {
    let mut reg = registry(vec![mig(M1, &[], true)]);
    assert!(matches!(
        reg.register(mig(M1, &[], true)),
        Err(MigrateError::DuplicateId { migration }) if migration == M1
    ));
    assert_eq!(reg.len(), 1);
}

fn commit_all(run: &mut Run) {
    loop {
        match run.next_step() {
            Step::Apply(_) | Step::Revert(_) => run.step_committed(),
            Step::Finished => break,
            Step::Stopped => panic!("stopped"),
        }
    }
}

#[test]
fn latest_twice_is_idempotent() {
    let reg = registry(vec![mig(M1, &[], true), mig(M2, &[M1], true)]);
    let mut run = migrate_to(&reg, AppliedSet::new(), &Target::Latest).unwrap();
    commit_all(&mut run);
    let first = run.finish().unwrap();
    assert_eq!(ids(&first), vec![M1, M2]);
    let mut again = migrate_to(&reg, first, &Target::Latest).unwrap();
    assert!(matches!(again.next_step(), Step::Finished));
    commit_all(&mut again);
    assert_eq!(ids(&again.finish().unwrap()), vec![M1, M2]);
}

#[test]
fn failed_step_keeps_earlier_commits() {
    let reg = registry(vec![mig(M1, &[], true), mig(M2, &[M1], true), mig(M3, &[M2], true)]);
    let mut run = migrate_to(&reg, AppliedSet::new(), &Target::Latest).unwrap();
    assert!(matches!(run.next_step(), Step::Apply(id) if id == M1));
    run.step_committed();
    assert!(matches!(run.next_step(), Step::Apply(id) if id == M2));
    run.step_failed("no such table: addresses".to_string());
    assert!(matches!(run.next_step(), Step::Stopped));
    assert_eq!(ids(run.applied()), vec![M1]);
    match run.finish() {
        Err(MigrateError::MigrationFailed { migration, direction, cause }) => {
            assert_eq!(migration, M2);
            assert_eq!(direction, Direction::Up);
            assert_eq!(cause, "no such table: addresses");
        }
        other => panic!("unexpected {:?}", other.is_ok()),
    }
}

#[test]
fn revert_through_irreversible_is_refused() {
    let reg = registry(vec![mig(M1, &[], true), mig(M2, &[M1], false)]);
    let before = applied(&[M1, M2]);
    match revert_plan(&reg, &before, &AppliedSet::new()) {
        Err(MigrateError::IrreversibleMigration { migration }) => assert_eq!(migration, M2),
        other => panic!("unexpected {:?}", other),
    }
    assert_eq!(ids(&before), vec![M1, M2]);
    assert!(matches!(
        migrate_to(&reg, before, &Target::Keep(AppliedSet::new())),
        Err(MigrateError::IrreversibleMigration { migration }) if migration == M2
    ));
}

#[test]
fn revert_short_of_irreversible() {
    let reg = registry(vec![mig(M1, &[], false), mig(M2, &[M1], true), mig(M3, &[M2], true)]);
    let before = applied(&[M1, M2, M3]);
    assert_eq!(revert_plan(&reg, &before, &applied(&[M1])).unwrap(), vec![M3, M2]);
}

#[test]
fn revert_run_removes_records() {
    let reg = registry(vec![mig(M1, &[], true), mig(M2, &[M1], true), mig(M3, &[M1], true)]);
    let mut run = migrate_to(&reg, applied(&[M1, M2, M3]), &Target::Keep(applied(&[M1]))).unwrap();
    assert!(matches!(run.next_step(), Step::Revert(id) if id == M3));
    run.step_committed();
    assert!(matches!(run.next_step(), Step::Revert(id) if id == M2));
    run.step_committed();
    assert!(matches!(run.next_step(), Step::Finished));
    assert_eq!(ids(&run.finish().unwrap()), vec![M1]);
}

#[test]
fn applied_set_insert_and_remove() {
    let mut a = applied(&[M1, M2, M1]);
    assert_eq!(ids(&a), vec![M1, M2]);
    assert!(a.contains(M2));
    a.remove(M1);
    assert_eq!(ids(&a), vec![M2]);
    a.remove(M3);
    assert_eq!(ids(&a), vec![M2]);
}

#[test]
fn id_record_is_big_endian() {
    let id: u128 = 0x0102_0304_0506_0708_090a_0b0c_0d0e_0f10;
    assert_eq!(id_to_record(id), (1u8..=16).collect::<Vec<u8>>());
    assert_eq!(id_from_record(&id_to_record(id)), Some(id));
    assert_eq!(id_from_record(&[1u8; 15]), None);
    assert_eq!(id_from_record(&[]), None);
}

#[test]
fn applied_set_from_records() {
    let rows = vec![id_to_record(M2), id_to_record(M1)];
    let a = AppliedSet::from_records(&rows).unwrap();
    assert_eq!(ids(&a), vec![M2, M1]);
    let bad = vec![id_to_record(M1), vec![0u8; 3]];
    assert!(matches!(
        AppliedSet::from_records(&bad),
        Err(MigrateError::MalformedRecord { length: 3 })
    ));
}

#[test]
fn zip48_descriptor() {
    let m = zip48_multisig::migration(M1);
    assert_eq!(m.id, 0x8a7b6c5d_4e3f_2a1b_9c8d_7e6f5a4b3c2d);
    assert_eq!(m.dependencies, vec![M1]);
    assert_eq!(m.up.len(), 3);
    assert!(m.up[0].contains("CREATE TABLE accounts_new"));
    assert!(m.up[2].contains("redeem_script"));
    assert!(!m.is_reversible());
    assert_eq!(
        m.description,
        "Adds support for tracking ZIP 48 transparent P2SH multisig wallets."
    );
}

#[test]
fn forward_to_target_stops_short_of_latest() {
    let reg = registry(vec![mig(M1, &[], true), mig(M2, &[M1], true), mig(M3, &[M2], true)]);
    assert_eq!(forward_plan(&reg, &AppliedSet::new(), &applied(&[M2, M1])).unwrap(), vec![M1, M2]);
    assert_eq!(forward_plan(&reg, &applied(&[M1]), &applied(&[M2])).unwrap(), vec![M2]);
    let mut run = migrate_to(&reg, AppliedSet::new(), &Target::Apply(applied(&[M1, M2]))).unwrap();
    commit_all(&mut run);
    assert_eq!(ids(&run.finish().unwrap()), vec![M1, M2]);
}

#[test]
fn forward_target_must_be_closed() {
    let reg = registry(vec![mig(M1, &[], true), mig(M2, &[M1], true)]);
    assert!(matches!(
        forward_plan(&reg, &AppliedSet::new(), &applied(&[M2])),
        Err(MigrateError::TargetNotClosed { migration, dependency }) if migration == M2 && dependency == M1
    ));
    assert!(matches!(
        migrate_to(&reg, AppliedSet::new(), &Target::Apply(applied(&[M3]))),
        Err(MigrateError::UnknownMigration { migration }) if migration == M3
    ));
}

#[test]
fn keep_must_be_closed_and_applied() {
    let reg = registry(vec![mig(M1, &[], true), mig(M2, &[M1], true), mig(M3, &[], true)]);
    let before = applied(&[M1, M2]);
    assert!(matches!(
        revert_plan(&reg, &before, &applied(&[M2])),
        Err(MigrateError::TargetNotClosed { migration, dependency }) if migration == M2 && dependency == M1
    ));
    assert!(matches!(
        revert_plan(&reg, &before, &applied(&[M3])),
        Err(MigrateError::NotApplied { migration }) if migration == M3
    ));
    assert_eq!(ids(&before), vec![M1, M2]);
}

#[test]
fn applied_set_from_records_keeps_first_occurrence() {
    let rows = vec![id_to_record(M3), id_to_record(M1), id_to_record(M3), id_to_record(M2)];
    assert_eq!(ids(&AppliedSet::from_records(&rows).unwrap()), vec![M3, M1, M2]);
    let bad = vec![vec![0u8; 5], id_to_record(M1), vec![0u8; 7]];
    assert!(matches!(
        AppliedSet::from_records(&bad),
        Err(MigrateError::MalformedRecord { length: 5 })
    ));
}

#[test]
fn cycle_error_names_a_migration_on_the_cycle() {
    let a: u128 = 0xa;
    let z = zip48_multisig::MIGRATION_ID;
    let v: u128 = 0xb;
    let reg = registry(vec![mig(a, &[z], true), mig(z, &[v], true), mig(v, &[z], true)]);
    match resolve(&reg, &AppliedSet::new()) {
        Err(MigrateError::CyclicDependency { migration }) => assert_eq!(migration, z),
        other => panic!("unexpected {:?}", other),
    }
}
