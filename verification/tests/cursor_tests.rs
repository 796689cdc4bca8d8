use trie_db::nibbles::{bytes_eq, bytes_lt};
use trie_db::node::{B256, BranchNodeCompact};
use trie_db::{DbTxRefWrapper, Nibbles, StorageTrieEntry, TrieKey};

fn nib(data: &[u8]) -> Nibbles {
    Nibbles::from_vec(data.to_vec())
}

fn b256(fill: u8) -> B256 {
    B256::from_vec(vec![fill; 32])
}

fn demo_node() -> BranchNodeCompact {
    BranchNodeCompact::new(0b0000_0010_0000_0001, 0b0000_0010_0000_0001, 0, Vec::new(), None)
}

#[test]
fn test_account_trie_order() {
    let mut tx = DbTxRefWrapper::new();
    let mut cursor = tx.account_trie_cursor_rw().unwrap();

    let data = vec![
        vec![0x03u8, 0x03, 0x04, 0x0e],
        vec![0x03u8, 0x03, 0x05],
        vec![0x03u8, 0x03, 0x05, 0x00],
        vec![0x03u8, 0x03, 0x05, 0x0a],
    ];

    // insert out of order: the table keeps nibble-lexicographic order
    for key in [3usize, 1, 0, 2] {
        cursor
            .upsert(&mut tx.accounts_trie, nib(&data[key]), demo_node())
            .unwrap();
    }

    assert_eq!(tx.accounts_trie.len(), 4);
    for (i, expected) in data.iter().enumerate() {
        let (k, _) = tx.accounts_trie.get(i);
        assert_eq!(k.data, *expected);
    }

    let found = cursor
        .seek(&tx.accounts_trie, nib(&[0x03, 0x03, 0x04, 0x0f]))
        .unwrap()
        .unwrap();
    assert_eq!(found.0.data, data[1]);

    let current = cursor.current().unwrap().unwrap();
    match current {
        TrieKey::AccountNode(p) => assert_eq!(p.data, data[1]),
        TrieKey::StorageNode(_, _) => panic!("account cursor yielded a storage key"),
    }
}

#[test]
fn test_storage_cursor_abstraction() {
    let mut tx = DbTxRefWrapper::new();
    let hashed_address = b256(0x11);
    let key = nib(&[0x2, 0x3]);
    let child = B256::from_vec((0u8..32).collect());
    let value = BranchNodeCompact::new(1, 1, 1, vec![child.clone()], None);

    let mut dup_cursor = tx.storage_tries_cursor_rw().unwrap();
    dup_cursor
        .upsert(
            &mut tx.storages_trie,
            hashed_address.clone(),
            StorageTrieEntry { nibbles: key.clone(), node: value },
        )
        .unwrap();

    let mut cursor = tx.storage_tries_cursor(hashed_address).unwrap();
    let found = cursor.seek(&tx.storages_trie, key.clone()).unwrap().unwrap();
    assert_eq!(found.0.data, key.data);
    assert_eq!(found.1.state_mask, 1);
    assert_eq!(found.1.tree_mask, 1);
    assert_eq!(found.1.hash_mask, 1);
    assert_eq!(found.1.hashes.len(), 1);
    assert_eq!(found.1.hashes[0].bytes, child.bytes);
    assert!(found.1.root_hash.is_none());
}

#[test]
fn test_storage_seek_exact_recheck() {
    // sub-keys {A, B} with A < B: seek_exact(A) yields exactly A, and
    // seek_exact of an absent key yields nothing even though a raw group
    // seek would land on B
    let mut tx = DbTxRefWrapper::new();
    let addr = b256(0x22);
    let a = nib(&[0x1, 0x2]);
    let b = nib(&[0x1, 0x5]);
    let absent = nib(&[0x1, 0x3]);

    let mut cursor = tx.storage_tries_cursor(addr.clone()).unwrap();
    cursor
        .upsert(&mut tx.storages_trie, a.clone(), demo_node())
        .unwrap();
    cursor
        .upsert(&mut tx.storages_trie, b.clone(), demo_node())
        .unwrap();

    let hit = cursor.seek_exact(&tx.storages_trie, a.clone()).unwrap().unwrap();
    assert_eq!(hit.0.data, a.data);

    // the raw range seek lands on B...
    let ranged = cursor.seek(&tx.storages_trie, absent.clone()).unwrap().unwrap();
    assert_eq!(ranged.0.data, b.data);
    // ...but the exact seek re-checks the sub-key and reports a miss
    assert!(cursor.seek_exact(&tx.storages_trie, absent).unwrap().is_none());
}

#[test]
fn test_dup_delete_scoping() {
    // deleting all duplicates of account X leaves account Y's group intact
    let mut tx = DbTxRefWrapper::new();
    let x = b256(0x33);
    let y = b256(0x44);
    let k1 = nib(&[0x1]);
    let k2 = nib(&[0x2]);

    let mut dup_cursor = tx.storage_tries_cursor_rw().unwrap();
    for key in [&k1, &k2] {
        dup_cursor
            .upsert(
                &mut tx.storages_trie,
                x.clone(),
                StorageTrieEntry { nibbles: key.clone(), node: demo_node() },
            )
            .unwrap();
        dup_cursor
            .upsert(
                &mut tx.storages_trie,
                y.clone(),
                StorageTrieEntry { nibbles: key.clone(), node: demo_node() },
            )
            .unwrap();
    }
    assert_eq!(tx.storages_trie.len(), 4);

    let mut x_cursor = tx.storage_tries_cursor(x.clone()).unwrap();
    x_cursor.delete_current_duplicates(&mut tx.storages_trie).unwrap();

    assert_eq!(tx.storages_trie.len(), 2);
    assert!(x_cursor.seek_exact(&tx.storages_trie, k1.clone()).unwrap().is_none());
    assert!(x_cursor.seek_exact(&tx.storages_trie, k2.clone()).unwrap().is_none());

    let mut y_cursor = tx.storage_tries_cursor(y).unwrap();
    assert!(y_cursor.seek_exact(&tx.storages_trie, k1).unwrap().is_some());
    assert!(y_cursor.seek_exact(&tx.storages_trie, k2).unwrap().is_some());
}

#[test]
fn test_dup_cursor_group_seeks() {
    let mut tx = DbTxRefWrapper::new();
    let x = b256(0x0a);
    let y = b256(0x0b);
    let mut dup_cursor = tx.storage_tries_cursor_rw().unwrap();
    dup_cursor
        .upsert(
            &mut tx.storages_trie,
            x.clone(),
            StorageTrieEntry { nibbles: nib(&[0x7]), node: demo_node() },
        )
        .unwrap();
    dup_cursor
        .upsert(
            &mut tx.storages_trie,
            y.clone(),
            StorageTrieEntry { nibbles: nib(&[0x1]), node: demo_node() },
        )
        .unwrap();

    // seek_exact on an outer key lands on that group's first sub-key
    let first = dup_cursor.seek_exact(&tx.storages_trie, x.clone()).unwrap().unwrap();
    assert_eq!(first.0.data, vec![0x7]);
    // a group-scoped range seek never leaves the group
    assert!(dup_cursor
        .seek_by_key_subkey(&tx.storages_trie, x.clone(), nib(&[0x8]))
        .unwrap()
        .is_none());
    let in_y = dup_cursor
        .seek_by_key_subkey(&tx.storages_trie, y, nib(&[0x0]))
        .unwrap()
        .unwrap();
    assert_eq!(in_y.0.data, vec![0x1]);
}

#[test]
fn test_account_delete_current() {
    let mut tx = DbTxRefWrapper::new();
    let mut cursor = tx.account_trie_cursor_rw().unwrap();
    let k = nib(&[0x4, 0x2]);
    cursor.upsert(&mut tx.accounts_trie, k.clone(), demo_node()).unwrap();
    assert!(cursor.seek_exact(&tx.accounts_trie, k.clone()).unwrap().is_some());
    cursor.delete_current(&mut tx.accounts_trie).unwrap();
    assert!(cursor.seek_exact(&tx.accounts_trie, k).unwrap().is_none());
    assert_eq!(tx.accounts_trie.len(), 0);
}

#[test]
fn test_lex_order_prefix_rule() {
    // a proper prefix sorts before its extensions; otherwise the first
    // differing byte decides
    let a = vec![0x3u8, 0x3, 0x5];
    let b = vec![0x3u8, 0x3, 0x5, 0x0];
    let c = vec![0x3u8, 0x3, 0x6];
    assert!(bytes_lt(&a, &b));
    assert!(!bytes_lt(&b, &a));
    assert!(bytes_lt(&b, &c));
    assert!(!bytes_lt(&a, &a));
    assert!(bytes_eq(&a, &a));
    assert!(!bytes_eq(&a, &b));
}

#[test]
fn test_merkle_proofs_multi_target() {
    let mut tx = DbTxRefWrapper::new();
    let mut cursor = tx.account_trie_cursor_rw().unwrap();
    cursor.upsert(&mut tx.accounts_trie, nib(&[0x3]), demo_node()).unwrap();
    cursor.upsert(&mut tx.accounts_trie, nib(&[0x5]), demo_node()).unwrap();

    let targets = vec![nib(&[0x3, 0x1]), nib(&[0x5]), nib(&[0x9])];
    let proofs = trie_db::merkle_proof::account_proofs(&tx.accounts_trie, &targets);
    assert_eq!(proofs.len(), 3);
    assert_eq!(proofs[0].len(), 1);
    assert_eq!(proofs[0][0].0.data, vec![0x3]);
    assert_eq!(proofs[1].len(), 1);
    assert_eq!(proofs[1][0].0.data, vec![0x5]);
    assert!(proofs[2].is_empty());
}

#[test]
fn test_merkle_proof_collects_path_nodes() {
    let mut tx = DbTxRefWrapper::new();
    let mut cursor = tx.account_trie_cursor_rw().unwrap();
    // nodes at the empty path, at [3], and at [3, 3]; one off-path at [5]
    cursor.upsert(&mut tx.accounts_trie, nib(&[]), demo_node()).unwrap();
    cursor.upsert(&mut tx.accounts_trie, nib(&[0x3]), demo_node()).unwrap();
    cursor.upsert(&mut tx.accounts_trie, nib(&[0x3, 0x3]), demo_node()).unwrap();
    cursor.upsert(&mut tx.accounts_trie, nib(&[0x5]), demo_node()).unwrap();

    let collected = trie_db::merkle_proof::account_proof(&tx.accounts_trie, &nib(&[0x3, 0x3, 0x7]));
    let paths: Vec<Vec<u8>> = collected.iter().map(|e| e.0.data.clone()).collect();
    assert_eq!(paths, vec![vec![], vec![0x3], vec![0x3, 0x3]]);
}
