use trie_db::hash::unpack_key;
use trie_db::node::B256;
use trie_db::prefix_set::PrefixSetLoader;
use trie_db::{
    AccountChange, DbTxRefWrapper, Nibbles, StateRootProgress, StorageChange, RecoveryError,
    state_root, storage_root, recover,
};

fn b256(fill: u8) -> B256 {
    B256::from_vec(vec![fill; 32])
}

/// A small hashed state: a few accounts, two with storage slots.
fn demo_tx() -> DbTxRefWrapper {
    let mut tx = DbTxRefWrapper::new();
    for i in 0u8..6 {
        tx.hashed_accounts
            .upsert(b256(0x10 + i), vec![0xc0, i, i, i]);
    }
    tx.hashed_storages
        .upsert(b256(0x10), b256(0x51), vec![0x01, 0x02]);
    tx.hashed_storages
        .upsert(b256(0x10), b256(0x52), vec![0x03]);
    tx.hashed_storages
        .upsert(b256(0x12), b256(0x53), vec![0x04]);
    tx
}

#[test]
fn test_unpack_key_nibbles() {
    let mut bytes = vec![0u8; 32];
    bytes[0] = 0xab;
    bytes[1] = 0x01;
    bytes[31] = 0xf0;
    let path = unpack_key(&B256::from_vec(bytes));
    assert_eq!(path.len(), 64);
    assert_eq!(path.get(0), 0xa);
    assert_eq!(path.get(1), 0xb);
    assert_eq!(path.get(2), 0x0);
    assert_eq!(path.get(3), 0x1);
    assert_eq!(path.get(62), 0xf);
    assert_eq!(path.get(63), 0x0);
}

#[test]
fn test_state_root_idempotent() {
    let tx = demo_tx();
    let r1 = state_root::from_tx(&tx).root(&tx).unwrap();
    let r2 = state_root::from_tx(&tx).root(&tx).unwrap();
    assert_eq!(r1.bytes, r2.bytes);
    assert_eq!(r1.bytes.len(), 32);
}

#[test]
fn test_state_root_depends_on_state() {
    // the digest and encoding wrappers do real work: different states give
    // different roots, and a root never echoes its input
    let empty = DbTxRefWrapper::new();
    let tx = demo_tx();
    let r_empty = state_root::from_tx(&empty).root(&empty).unwrap();
    let r_full = state_root::from_tx(&tx).root(&tx).unwrap();
    assert_eq!(r_empty.bytes.len(), 32);
    assert_ne!(r_empty.bytes, r_full.bytes);

    let mut tx2 = demo_tx();
    tx2.hashed_accounts.upsert(b256(0x10), vec![0xff]);
    let r_changed = state_root::from_tx(&tx2).root(&tx2).unwrap();
    assert_ne!(r_full.bytes, r_changed.bytes);
}

#[test]
fn test_storage_root_per_account() {
    let tx = demo_tx();
    let with_slots = storage_root::from_tx_hashed(&tx, b256(0x10)).root(&tx).unwrap();
    let no_slots = storage_root::from_tx_hashed(&tx, b256(0x11)).root(&tx).unwrap();
    let other_slots = storage_root::from_tx_hashed(&tx, b256(0x12)).root(&tx).unwrap();
    assert_ne!(with_slots.bytes, no_slots.bytes);
    assert_ne!(with_slots.bytes, other_slots.bytes);

    // hashing the raw address and handing the hash over agree
    let addr = vec![0x99u8; 20];
    let raw_calculator = storage_root::from_tx(&tx, &addr);
    let hashed = raw_calculator.hashed_address.clone();
    let via_raw = raw_calculator.root(&tx).unwrap();
    let via_hashed = storage_root::from_tx_hashed(&tx, hashed).root(&tx).unwrap();
    assert_eq!(via_raw.bytes, via_hashed.bytes);
}

#[test]
fn test_incremental_root_matches_scratch() {
    let mut tx = demo_tx();
    let scratch = state_root::from_tx(&tx).root(&tx).unwrap();

    // persist the updates of a full walk, then recompute incrementally
    // over a range with no recorded changes: same root
    let (first, updates) = state_root::from_tx(&tx).root_with_updates(&tx).unwrap();
    assert_eq!(first.bytes, scratch.bytes);
    trie_db::root::apply_updates(&mut tx.accounts_trie, &updates);
    assert!(tx.accounts_trie.len() > 0);

    let incremental = state_root::incremental_root(&tx, 1, 2).unwrap();
    assert_eq!(incremental.bytes, scratch.bytes);
}

#[test]
fn test_threshold_progress_and_resume() {
    let mut tx = DbTxRefWrapper::new();
    for i in 0u8..24 {
        tx.hashed_accounts.upsert(b256(i), vec![0xc1, i]);
    }
    let direct = state_root::from_tx(&tx).root(&tx).unwrap();

    // a budget below the leaf count suspends the walk
    let calculator = state_root::from_tx(&tx).with_threshold(0);
    let mut progress = calculator.root_with_progress(&tx).unwrap();
    let mut suspended = 0u32;
    let finished = loop {
        match progress {
            StateRootProgress::Complete(h) => break h,
            StateRootProgress::Intermediate(st) => {
                suspended += 1;
                assert!(suspended < 64, "walk did not finish");
                progress = calculator.root_with_progress_from(&tx, st).unwrap();
            }
        }
    };
    assert!(suspended > 0, "threshold below trie size must suspend the walk");
    // resuming to completion matches the unthresholded walk
    assert_eq!(finished.bytes, direct.bytes);
}

#[test]
fn test_incremental_variants_agree() {
    let mut tx = demo_tx();
    tx.account_changes.push(AccountChange { block: 3, address: vec![0x05; 20], created: false });
    let plain = state_root::incremental_root(&tx, 1, 4).unwrap();
    let (with_updates, _updates) = state_root::incremental_root_with_updates(&tx, 1, 4).unwrap();
    assert_eq!(plain.bytes, with_updates.bytes);
    match state_root::incremental_root_with_progress(&tx, 1, 4).unwrap() {
        StateRootProgress::Complete(h) => assert_eq!(h.bytes, plain.bytes),
        StateRootProgress::Intermediate(_) => {
            panic!("default threshold must let a tiny walk finish")
        }
    }
}

#[test]
fn test_prefix_set_loader_range() {
    let mut tx = DbTxRefWrapper::new();
    tx.account_changes.push(AccountChange { block: 5, address: vec![0x01; 20], created: false });
    tx.account_changes.push(AccountChange { block: 9, address: vec![0x02; 20], created: true });
    tx.storage_changes.push(StorageChange {
        block: 5,
        address: vec![0x01; 20],
        slot: vec![0x07; 32],
    });

    // both ends of the range are inclusive; the storage change records its
    // owning account's path in the account set as well
    let sets = PrefixSetLoader::load(&tx, 5, 9);
    assert_eq!(sets.account_prefix_set.keys.len(), 3);
    assert_eq!(sets.storage_prefix_sets.len(), 2);
    let hashed_one = unpack_key(&storage_root::from_tx(&tx, &vec![0x01u8; 20]).hashed_address);
    assert!(sets.account_prefix_set.contains(&hashed_one));
    // the created account's storage set is marked for full rebuild
    let hashed_two = storage_root::from_tx(&tx, &vec![0x02u8; 20]).hashed_address;
    let mut found_rebuild = false;
    for i in 0..sets.storage_prefix_sets.len() {
        if sets.storage_prefix_sets[i].0.bytes == hashed_two.bytes {
            found_rebuild = sets.storage_prefix_sets[i].1.all;
        }
    }
    assert!(found_rebuild);

    let before = PrefixSetLoader::load(&tx, 1, 4);
    assert_eq!(before.account_prefix_set.keys.len(), 0);
    assert_eq!(before.storage_prefix_sets.len(), 0);

    let partial = PrefixSetLoader::load(&tx, 6, 12);
    assert_eq!(partial.account_prefix_set.keys.len(), 1);

    // a prefix query matches stored paths by prefix
    let short = Nibbles::from_vec(vec![hashed_one.get(0), hashed_one.get(1)]);
    assert!(sets.account_prefix_set.contains(&short));
    let absent = Nibbles::from_vec(vec![
        15 - hashed_one.get(0),
        15 - hashed_one.get(1),
        15 - hashed_one.get(2),
    ]);
    let hashed_two_path = unpack_key(&hashed_two);
    let misses = absent.get(0) != hashed_two_path.get(0)
        || absent.get(1) != hashed_two_path.get(1)
        || absent.get(2) != hashed_two_path.get(2);
    if misses {
        assert!(!sets.account_prefix_set.contains(&absent));
    }
}

#[test]
fn test_recovery_scenario() {
    // storage-trie rows for accounts {H1, H2}; H2 is missing from hashed
    // state, so the sweep must drop exactly H2's rows, and the root must
    // match the expected value
    let mut tx = demo_tx();
    let h1 = b256(0x10);
    let h2 = b256(0x77);
    let k = Nibbles::from_vec(vec![0x1, 0x2]);
    let node = trie_db::BranchNodeCompact::new(1, 0, 0, Vec::new(), None);
    let mut dup_cursor = tx.storage_tries_cursor_rw().unwrap();
    dup_cursor
        .upsert(
            &mut tx.storages_trie,
            h1.clone(),
            trie_db::StorageTrieEntry { nibbles: k.clone(), node: node.clone() },
        )
        .unwrap();
    dup_cursor
        .upsert(
            &mut tx.storages_trie,
            h2.clone(),
            trie_db::StorageTrieEntry { nibbles: k.clone(), node },
        )
        .unwrap();

    let reference = demo_tx();
    let expected = state_root::from_tx(&reference).root(&reference).unwrap();

    recover::recover_storage_tries(&mut tx, &expected).unwrap();
    let mut h2_cursor = tx.storage_tries_cursor(h2).unwrap();
    assert!(h2_cursor.seek_exact(&tx.storages_trie, k.clone()).unwrap().is_none());
    let mut h1_cursor = tx.storage_tries_cursor(h1).unwrap();
    assert!(h1_cursor.seek_exact(&tx.storages_trie, k).unwrap().is_some());
}

#[test]
fn test_recovery_mismatch_reported() {
    let mut tx = demo_tx();
    let wrong = b256(0xee);
    let err = recover::recover_storage_tries(&mut tx, &wrong).unwrap_err();
    match err {
        RecoveryError::RootMismatch { expected, got } => {
            assert_eq!(expected.bytes, wrong.bytes);
            let reference = demo_tx();
            let real = state_root::from_tx(&reference).root(&reference).unwrap();
            assert_eq!(got.bytes, real.bytes);
        }
        RecoveryError::Database(_) => panic!("the in-memory engine cannot fail"),
    }
}

#[test]
fn test_incremental_sees_storage_only_change() {
    // accounts keyed by their real hashed addresses, so that change-log
    // rows and hashed state line up
    let addr1 = vec![0x11u8; 20];
    let addr2 = vec![0x22u8; 20];
    let h1 = storage_root::from_tx(&DbTxRefWrapper::new(), &addr1).hashed_address;
    let h2 = storage_root::from_tx(&DbTxRefWrapper::new(), &addr2).hashed_address;
    let mut tx = DbTxRefWrapper::new();
    tx.hashed_accounts.upsert(h1.clone(), vec![0xc0, 0x01]);
    tx.hashed_accounts.upsert(h2.clone(), vec![0xc0, 0x02]);
    tx.hashed_storages.upsert(h1.clone(), b256(0x51), vec![0x01]);

    // persist the stored nodes of the pre-range state
    let (_pre_root, updates) = state_root::from_tx(&tx).root_with_updates(&tx).unwrap();
    trie_db::root::apply_updates(&mut tx.accounts_trie, &updates);
    assert!(tx.accounts_trie.len() > 0);

    // one block changes only a storage slot of the first account
    tx.hashed_storages.upsert(h1.clone(), b256(0x51), vec![0x09]);
    tx.storage_changes.push(StorageChange { block: 7, address: addr1, slot: vec![0x51; 32] });

    let scratch = {
        let mut fresh = DbTxRefWrapper::new();
        fresh.hashed_accounts.upsert(h1.clone(), vec![0xc0, 0x01]);
        fresh.hashed_accounts.upsert(h2, vec![0xc0, 0x02]);
        fresh.hashed_storages.upsert(h1, b256(0x51), vec![0x09]);
        state_root::from_tx(&fresh).root(&fresh).unwrap()
    };
    // the incremental walk must not reuse the stale stored nodes
    let incremental = state_root::incremental_root(&tx, 7, 7).unwrap();
    assert_eq!(incremental.bytes, scratch.bytes);
}
