//! Support for tracking ZIP 48 transparent P2SH multisig wallets.
//!
//! Schema changes:
//! - adds a `zip48_fvk BLOB` column to `accounts`, for the ZIP 48 full viewing
//!   key;
//! - adds a `redeem_script BLOB` column to `addresses`, for P2SH addresses;
//! - widens the `accounts` CHECK constraint to admit `account_kind = 2`
//!   (transparent multisig).
//!
//! SQLite cannot drop a constraint in place, so `accounts` is rebuilt under a
//! new name, its rows copied, and the new table swapped in; all of it runs in
//! the one transaction that the engine opens for the migration. The rebuild
//! cannot be undone without losing the new column, so the migration does not
//! revert.
use vstd::prelude::*;

use crate::ident::MigrationId;
use crate::registry::Migration;

verus! {

pub const MIGRATION_ID: MigrationId = 0x8a7b6c5d_4e3f_2a1b_9c8d_7e6f5a4b3c2d;

pub const DESCRIPTION: &'static str = "Adds support for tracking ZIP 48 transparent P2SH multisig wallets.";

/// The new shape of `accounts`, under a temporary name.
pub const CREATE_ACCOUNTS_NEW: &'static str = "
    CREATE TABLE accounts_new (
        id INTEGER NOT NULL PRIMARY KEY AUTOINCREMENT,
        name TEXT,
        uuid BLOB NOT NULL,
        account_kind INTEGER NOT NULL DEFAULT 0,
        key_source TEXT,
        hd_seed_fingerprint BLOB,
        hd_account_index INTEGER,
        ufvk TEXT,
        uivk TEXT NOT NULL,
        orchard_fvk_item_cache BLOB,
        sapling_fvk_item_cache BLOB,
        p2pkh_fvk_item_cache BLOB,
        birthday_height INTEGER NOT NULL,
        birthday_sapling_tree_size INTEGER,
        birthday_orchard_tree_size INTEGER,
        recover_until_height INTEGER,
        has_spend_key INTEGER NOT NULL DEFAULT 1,
        zcashd_legacy_address_index INTEGER NOT NULL DEFAULT -1,
        zip48_fvk BLOB,
        CHECK (
          (
            account_kind = 0
            AND hd_seed_fingerprint IS NOT NULL
            AND hd_account_index IS NOT NULL
            AND ufvk IS NOT NULL
            AND zip48_fvk IS NULL
          )
          OR
          (
            account_kind = 1
            AND (hd_seed_fingerprint IS NULL) = (hd_account_index IS NULL)
            AND zip48_fvk IS NULL
          )
          OR
          (
            account_kind = 2
            AND zip48_fvk IS NOT NULL
            AND hd_seed_fingerprint IS NULL
            AND hd_account_index IS NULL
            AND ufvk IS NULL
            AND orchard_fvk_item_cache IS NULL
            AND sapling_fvk_item_cache IS NULL
            AND p2pkh_fvk_item_cache IS NULL
          )
        )
    );
";

/// Copies the rows over, swaps the new table in, and recreates the indices of
/// the old one.
pub const COPY_AND_SWAP_ACCOUNTS: &'static str = "
    INSERT INTO accounts_new (
        id, name, uuid, account_kind, key_source,
        hd_seed_fingerprint, hd_account_index,
        ufvk, uivk,
        orchard_fvk_item_cache, sapling_fvk_item_cache, p2pkh_fvk_item_cache,
        birthday_height, birthday_sapling_tree_size, birthday_orchard_tree_size,
        recover_until_height, has_spend_key, zcashd_legacy_address_index
    )
    SELECT
        id, name, uuid, account_kind, key_source,
        hd_seed_fingerprint, hd_account_index,
        ufvk, uivk,
        orchard_fvk_item_cache, sapling_fvk_item_cache, p2pkh_fvk_item_cache,
        birthday_height, birthday_sapling_tree_size, birthday_orchard_tree_size,
        recover_until_height, has_spend_key, zcashd_legacy_address_index
    FROM accounts;

    PRAGMA legacy_alter_table = ON;

    DROP TABLE accounts;
    ALTER TABLE accounts_new RENAME TO accounts;

    PRAGMA legacy_alter_table = OFF;

    CREATE UNIQUE INDEX accounts_uuid ON accounts (uuid);
    CREATE UNIQUE INDEX accounts_ufvk ON accounts (ufvk);
    CREATE UNIQUE INDEX accounts_uivk ON accounts (uivk);
    CREATE UNIQUE INDEX hd_account ON accounts (hd_seed_fingerprint, hd_account_index, zcashd_legacy_address_index);
";

/// The script needed to spend funds at a P2SH multisig address.
pub const ADD_REDEEM_SCRIPT: &'static str = "
    ALTER TABLE addresses ADD COLUMN redeem_script BLOB;
";

/// The migration, depending on the one that precedes it in the wallet's
/// history (`previous`, the migration that scoped transaction outputs by key).
pub fn migration(previous: MigrationId) -> (r: Migration)
    requires
        previous != MIGRATION_ID,
    ensures
        r.id == MIGRATION_ID,
        r.dependencies@ == seq![previous],
        r.description == DESCRIPTION,
        r.up@ == seq![CREATE_ACCOUNTS_NEW, COPY_AND_SWAP_ACCOUNTS, ADD_REDEEM_SCRIPT],
        r.down is None,
{
    let mut dependencies: Vec<MigrationId> = Vec::new();
    dependencies.push(previous);
    let mut up: Vec<&'static str> = Vec::new();
    up.push(CREATE_ACCOUNTS_NEW);
    up.push(COPY_AND_SWAP_ACCOUNTS);
    up.push(ADD_REDEEM_SCRIPT);
    proof {
        assert(dependencies@ =~= seq![previous]);
        assert(up@ =~= seq![CREATE_ACCOUNTS_NEW, COPY_AND_SWAP_ACCOUNTS, ADD_REDEEM_SCRIPT]);
    }
    Migration { id: MIGRATION_ID, dependencies, description: DESCRIPTION, up, down: None }
}

} // verus!
