use rusqlite::Connection;
use wallet_migrations::applied::AppliedSet;
use wallet_migrations::engine::{migrate_to, Run, Step, Target};
use wallet_migrations::ident::id_to_record;
use wallet_migrations::registry::{MigrateError, Migration, Registry};
use wallet_migrations::zip48_multisig;

const BASE: u128 = 0x0b0b_0000_0000_0000_0000_0000_0000_0001;
const LATER: u128 = 0x0c0c_0000_0000_0000_0000_0000_0000_0002;

const BASE_SCHEMA: &str = "
    CREATE TABLE accounts (
        id INTEGER NOT NULL PRIMARY KEY AUTOINCREMENT,
        name TEXT,
        uuid BLOB NOT NULL,
        account_kind INTEGER NOT NULL DEFAULT 0,
        key_source TEXT,
        hd_seed_fingerprint BLOB,
        hd_account_index INTEGER,
        ufvk TEXT,
        uivk TEXT NOT NULL,
        orchard_fvk_item_cache BLOB,
        sapling_fvk_item_cache BLOB,
        p2pkh_fvk_item_cache BLOB,
        birthday_height INTEGER NOT NULL,
        birthday_sapling_tree_size INTEGER,
        birthday_orchard_tree_size INTEGER,
        recover_until_height INTEGER,
        has_spend_key INTEGER NOT NULL DEFAULT 1,
        zcashd_legacy_address_index INTEGER NOT NULL DEFAULT -1
    );
    CREATE UNIQUE INDEX accounts_uuid ON accounts (uuid);
    CREATE UNIQUE INDEX accounts_ufvk ON accounts (ufvk);
    CREATE UNIQUE INDEX accounts_uivk ON accounts (uivk);
    CREATE UNIQUE INDEX hd_account ON accounts (hd_seed_fingerprint, hd_account_index, zcashd_legacy_address_index);
";

const ADDRESSES: &str = "CREATE TABLE addresses (id INTEGER PRIMARY KEY, account_id INTEGER NOT NULL);";

fn base(with_addresses: bool) -> Migration {
    let mut up = vec![BASE_SCHEMA];
    if with_addresses {
        up.push(ADDRESSES);
    }
    Migration { id: BASE, dependencies: vec![], description: "base schema", up, down: None }
}

fn wallet_registry(with_addresses: bool) -> Registry {
    let mut r = Registry::new();
    r.register(base(with_addresses)).unwrap();
    r.register(zip48_multisig::migration(BASE)).unwrap();
    r
}

fn applied_from_store(conn: &Connection) -> AppliedSet {
    conn.execute_batch("CREATE TABLE IF NOT EXISTS _schemerz (id blob PRIMARY KEY);").unwrap();
    let mut stmt = conn.prepare("SELECT id FROM _schemerz ORDER BY rowid;").unwrap();
    let rows: Vec<Vec<u8>> =
        stmt.query_map([], |row| row.get::<_, Vec<u8>>(0)).unwrap().map(|r| r.unwrap()).collect();
    AppliedSet::from_records(&rows).unwrap()
}

fn run_step(conn: &mut Connection, reg: &Registry, id: u128) -> Result<(), String> {
    let m = reg.get(reg.position(id).unwrap());
    let tx = conn.transaction().map_err(|e| e.to_string())?;
    for batch in &m.up {
        tx.execute_batch(batch).map_err(|e| e.to_string())?;
    }
    tx.execute("INSERT INTO _schemerz (id) VALUES (?1);", [id_to_record(id)])
        .map_err(|e| e.to_string())?;
    tx.commit().map_err(|e| e.to_string())
}

fn drive(conn: &mut Connection, reg: &Registry) -> Result<AppliedSet, MigrateError> {
    drive_to(conn, reg, &Target::Latest)
}

fn drive_to(conn: &mut Connection, reg: &Registry, target: &Target) -> Result<AppliedSet, MigrateError> {
    let start = applied_from_store(conn);
    let mut run: Run = migrate_to(reg, start, target)?;
    loop {
        match run.next_step() {
            Step::Apply(id) => match run_step(conn, reg, id) {
                Ok(()) => run.step_committed(),
                Err(cause) => run.step_failed(cause),
            },
            Step::Revert(_) => unreachable!(),
            Step::Finished | Step::Stopped => break,
        }
    }
    run.finish()
}

fn schema(conn: &Connection) -> Vec<(String, String)> {
    let mut stmt = conn
        .prepare("SELECT name, IFNULL(sql, '') FROM sqlite_master WHERE name != '_schemerz' ORDER BY name;")
        .unwrap();
    stmt.query_map([], |row| Ok((row.get(0)?, row.get(1)?))).unwrap().map(|r| r.unwrap()).collect()
}

fn ids(a: &AppliedSet) -> Vec<u128> {
    (0..a.len()).map(|i| a.get(i)).collect()
}

fn up_to(ids: &[u128]) -> Target {
    let mut a = AppliedSet::new();
    for id in ids {
        a.insert(*id);
    }
    Target::Apply(a)
}

#[test]
fn migrate() {
    let mut conn = Connection::open_in_memory().unwrap();
    let mut reg = wallet_registry(true);
    reg.register(Migration {
        id: LATER,
        dependencies: vec![zip48_multisig::MIGRATION_ID],
        description: "a later migration",
        up: vec!["CREATE TABLE later (id INTEGER PRIMARY KEY);"],
        down: None,
    })
    .unwrap();
    let done = drive_to(&mut conn, &reg, &up_to(&[BASE, zip48_multisig::MIGRATION_ID])).unwrap();
    assert_eq!(ids(&done), vec![BASE, zip48_multisig::MIGRATION_ID]);
    conn.execute(
        "INSERT INTO accounts (uuid, account_kind, uivk, birthday_height, zip48_fvk) VALUES (x'01', 2, 'k', 1, x'02');",
        [],
    )
    .unwrap();
    conn.execute("INSERT INTO addresses (account_id, redeem_script) VALUES (1, x'03');", []).unwrap();
    assert_eq!(ids(&applied_from_store(&conn)), vec![BASE, zip48_multisig::MIGRATION_ID]);
    let again = drive(&mut conn, &wallet_registry(true)).unwrap();
    assert_eq!(ids(&again), vec![BASE, zip48_multisig::MIGRATION_ID]);
}

#[test]
fn failed_rewrite_leaves_schema_untouched() {
    let mut conn = Connection::open_in_memory().unwrap();
    let reg = wallet_registry(false);
    let base_only = {
        let mut r = Registry::new();
        r.register(base(false)).unwrap();
        r
    };
    drive(&mut conn, &base_only).unwrap();
    let before = schema(&conn);
    match drive(&mut conn, &reg) {
        Err(MigrateError::MigrationFailed { migration, .. }) => {
            assert_eq!(migration, zip48_multisig::MIGRATION_ID)
        }
        other => panic!("unexpected {:?}", other.is_ok()),
    }
    assert_eq!(schema(&conn), before);
    assert_eq!(ids(&applied_from_store(&conn)), vec![BASE]);
}
