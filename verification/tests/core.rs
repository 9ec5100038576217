//! Tests of the storage engine: crypto, codec, block store, index.

use lethe::codec::{decode_index, encode_index};
use lethe::daemon::{
    complete_toggle, handle_event, toggle_vault, AppState, MountAction, SentinelEvent,
    SentinelKey, VaultState,
};
use lethe::crypto::CryptoEngine;
use lethe::errors::VaultError;
use lethe::index::{FileEntry, IndexManager, VaultIndex};
use lethe::storage::BlockManager;

fn test_key() -> lethe::crypto::MasterKey {
    let (key, _salt) = CryptoEngine::derive_key_with_salt("test-password", "0123456789abcdef")
        .unwrap();
    key
}

#[test]
fn test_full_flow() {
    let mut manager = BlockManager::new();

    let password = "my_secret_password";
    let (key, _salt) = CryptoEngine::derive_key(password).unwrap();

    let my_secret = b"Launch codes: 9999";
    let block_id = manager.write_block(my_secret, &key).unwrap();
    println!("Written block: {}", block_id);

    let recovered = manager.read_block(&block_id, &key).unwrap();
    assert_eq!(recovered, my_secret);
}

#[test]
fn test_index_replication() {
    let (key, salt) = CryptoEngine::derive_key("password123").unwrap();

    let mut manager = IndexManager::new_empty(salt);
    manager.add_file("/docs/secret.txt".to_string(), vec!["blk_1".to_string()], 1024);

    let mut replicas: Vec<Vec<u8>> = Vec::new();
    manager.save(&key, &mut replicas).unwrap();

    assert_eq!(replicas.len(), 3);
    assert!(!replicas[0].is_empty());
    assert!(!replicas[1].is_empty());
    assert!(!replicas[2].is_empty());

    let loaded_manager = IndexManager::load(&replicas, &key).unwrap();

    let file_entry = loaded_manager.get_file("/docs/secret.txt").unwrap();
    assert_eq!(file_entry.blocks[0], "blk_1");
    assert_eq!(file_entry.size, 1024);
}

#[test]
fn crypto_round_trip() {
    let key = test_key();
    let payload = b"attack at dawn, or maybe later".to_vec();
    let (ct, nonce) = CryptoEngine::encrypt(&payload, &key).unwrap();
    assert_eq!(nonce.len(), 24);
    assert_ne!(ct, payload);
    let plain = CryptoEngine::decrypt(&ct, &nonce, &key).unwrap();
    assert_eq!(plain, payload);
}

#[test]
fn crypto_wrong_key_rejected() {
    let k1 = test_key();
    let (k2, _) = CryptoEngine::derive_key_with_salt("another-password", "0123456789abcdef")
        .unwrap();
    let (ct, nonce) = CryptoEngine::encrypt(b"secret", &k1).unwrap();
    let err = CryptoEngine::decrypt(&ct, &nonce, &k2).unwrap_err();
    assert_eq!(err, VaultError::AuthenticationError);
}

#[test]
fn crypto_bad_nonce_length_rejected() {
    let key = test_key();
    let (ct, _nonce) = CryptoEngine::encrypt(b"secret", &key).unwrap();
    let err = CryptoEngine::decrypt(&ct, &[0u8; 12], &key).unwrap_err();
    assert_eq!(err, VaultError::AuthenticationError);
}

#[test]
fn crypto_same_inputs_same_key() {
    let (a, _) = CryptoEngine::derive_key_with_salt("p", "0123456789abcdef").unwrap();
    let (b, _) = CryptoEngine::derive_key_with_salt("p", "0123456789abcdef").unwrap();
    assert_eq!(a.as_bytes(), b.as_bytes());
    let (c, _) = CryptoEngine::derive_key_with_salt("q", "0123456789abcdef").unwrap();
    assert_ne!(a.as_bytes(), c.as_bytes());
}

#[test]
fn crypto_short_salt_rejected() {
    let err = CryptoEngine::derive_key_with_salt("p", "tiny").unwrap_err();
    assert_eq!(err, VaultError::KeyDerivationError);
}

#[test]
fn codec_round_trip() {
    let idx = VaultIndex {
        version: 1,
        revision: 7,
        salt: "somesalt".to_string(),
        files: vec![
            FileEntry {
                path: "/docs/α.txt".to_string(),
                size: 5,
                modified: 1700000000,
                blocks: vec!["id-1".to_string(), "id-2".to_string()],
                is_dir: false,
            },
            FileEntry {
                path: "/docs".to_string(),
                size: 0,
                modified: 3,
                blocks: vec![],
                is_dir: true,
            },
        ],
    };
    let bytes = encode_index(&idx);
    let back = decode_index(&bytes).unwrap();
    assert_eq!(back.version, 1);
    assert_eq!(back.revision, 7);
    assert_eq!(back.salt, "somesalt");
    assert_eq!(back.files.len(), 2);
    assert_eq!(back.files[0].path, "/docs/α.txt");
    assert_eq!(back.files[0].blocks, vec!["id-1", "id-2"]);
    assert!(!back.files[0].is_dir);
    assert!(back.files[1].is_dir);
}

#[test]
fn codec_rejects_garbage() {
    assert!(decode_index(b"not an index at all").is_none());
    assert!(decode_index(b"").is_none());
}

#[test]
fn index_revision_monotonicity() {
    let key = test_key();
    let mut manager = IndexManager::new_empty("0123456789abcdef".to_string());
    assert_eq!(manager.data.revision, 0);

    let mut replicas: Vec<Vec<u8>> = Vec::new();
    manager.add_file("/a.txt".to_string(), vec![], 0);
    manager.save(&key, &mut replicas).unwrap();
    assert_eq!(manager.data.revision, 1);

    let snapshot_rev1 = replicas.clone();

    manager.add_file("/b.txt".to_string(), vec![], 0);
    manager.save(&key, &mut replicas).unwrap();
    manager.save(&key, &mut replicas).unwrap();
    assert_eq!(manager.data.revision, 3);

    // The latest replicas win; an older surviving replica set loads the
    // older entry set.
    let latest = IndexManager::load(&replicas, &key).unwrap();
    assert_eq!(latest.data.revision, 3);
    assert!(latest.get_file("/b.txt").is_some());

    let older = IndexManager::load(&snapshot_rev1, &key).unwrap();
    assert_eq!(older.data.revision, 1);
    assert!(older.get_file("/b.txt").is_none());

    // Mixing the sets: the highest surviving revision wins.
    let mut mixed = snapshot_rev1.clone();
    mixed[1] = replicas[1].clone();
    let best = IndexManager::load(&mixed, &key).unwrap();
    assert_eq!(best.data.revision, 3);
    assert!(best.get_file("/b.txt").is_some());
}

#[test]
fn index_replica_durability() {
    let key = test_key();
    let mut manager = IndexManager::new_empty("0123456789abcdef".to_string());
    manager.add_file("/keep.txt".to_string(), vec!["b1".to_string()], 9);
    let mut replicas: Vec<Vec<u8>> = Vec::new();
    manager.save(&key, &mut replicas).unwrap();

    // Corrupt one replica: flip a ciphertext byte.
    let mut damaged = replicas.clone();
    let n = damaged[0].len();
    damaged[0][n - 1] ^= 0xff;
    let loaded = IndexManager::load(&damaged, &key).unwrap();
    assert_eq!(loaded.get_file("/keep.txt").unwrap().size, 9);

    // Delete one replica entirely.
    let mut shorter = replicas.clone();
    shorter[2] = Vec::new();
    let loaded = IndexManager::load(&shorter, &key).unwrap();
    assert_eq!(loaded.get_file("/keep.txt").unwrap().blocks, vec!["b1"]);

    // All replicas damaged: unrecoverable.
    let bad: Vec<Vec<u8>> = vec![vec![0u8; 5], vec![], vec![1, 2, 3]];
    let err = IndexManager::load(&bad, &key).unwrap_err();
    assert_eq!(err, VaultError::IndexUnrecoverable);
}

#[test]
fn block_store_errors() {
    let key = test_key();
    let mut store = BlockManager::new();

    let err = store.read_block("missing", &key).unwrap_err();
    assert_eq!(err, VaultError::BlockNotFound);

    store.restore_block("shorty".to_string(), vec![1, 2, 3]);
    let err = store.read_block("shorty", &key).unwrap_err();
    assert_eq!(err, VaultError::CorruptBlock);

    // A full-size block whose tag does not verify.
    let id = store.write_block(b"some payload", &key).unwrap();
    let mut raw = store.get_raw(&id).unwrap().clone();
    let n = raw.len();
    raw[n - 1] ^= 0x01;
    store.restore_block("tampered".to_string(), raw);
    let err = store.read_block("tampered", &key).unwrap_err();
    assert_eq!(err, VaultError::AuthenticationError);

    // Authentic ciphertext that does not hold a zstd frame.
    let (ct, nonce) = CryptoEngine::encrypt(b"not compressed data", &key).unwrap();
    let mut file = nonce.clone();
    file.extend_from_slice(&ct);
    store.restore_block("notzstd".to_string(), file);
    let err = store.read_block("notzstd", &key).unwrap_err();
    assert_eq!(err, VaultError::DecompressionError);
}

#[test]
fn block_store_compresses_and_draws_fresh_ids() {
    let key = test_key();
    let mut store = BlockManager::new();
    let payload = vec![7u8; 50_000];
    let id1 = store.write_block(&payload, &key).unwrap();
    let id2 = store.write_block(&payload, &key).unwrap();
    assert_ne!(id1, id2);
    // Repetitive data shrinks: the stored file is far smaller than the
    // payload, so compression really happened before encryption.
    assert!(store.get_raw(&id1).unwrap().len() < payload.len() / 2);
    let back = store.read_block(&id1, &key).unwrap();
    assert_eq!(back, payload);
}

#[test]
fn block_store_delete_is_idempotent() {
    let key = test_key();
    let mut store = BlockManager::new();
    let id = store.write_block(b"bytes", &key).unwrap();
    assert!(store.contains_block(&id));
    store.delete_block(&id).unwrap();
    assert!(!store.contains_block(&id));
    store.delete_block(&id).unwrap();
    assert!(!store.contains_block(&id));
}

#[test]
fn orphan_reclamation() {
    let key = test_key();
    let mut store = BlockManager::new();
    let mut ids = Vec::new();
    for i in 0..5u8 {
        ids.push(store.write_block(&[i; 100], &key).unwrap());
    }
    let valid: Vec<String> = ids[0..3].to_vec();
    let orphan_bytes: u64 = store.get_raw(&ids[3]).unwrap().len() as u64
        + store.get_raw(&ids[4]).unwrap().len() as u64;

    // A dry run reports the same numbers and deletes nothing.
    let dry = store.reclaim(&valid, true);
    assert_eq!(dry.removed, 2);
    assert_eq!(dry.kept, 3);
    assert_eq!(dry.bytes_reclaimed, orphan_bytes);
    assert!(store.contains_block(&ids[4]));

    let report = store.reclaim(&valid, false);
    assert_eq!(report.removed, 2);
    assert_eq!(report.kept, 3);
    assert_eq!(report.bytes_reclaimed, orphan_bytes);
    assert!(store.contains_block(&ids[0]));
    assert!(!store.contains_block(&ids[3]));
    assert!(!store.contains_block(&ids[4]));

    // Re-running afterwards deletes nothing.
    let again = store.reclaim(&valid, false);
    assert_eq!(again.removed, 0);
    assert_eq!(again.kept, 3);
    assert_eq!(again.bytes_reclaimed, 0);
}

#[test]
fn number_rendering() {
    assert_eq!(lethe::numfmt::u64_to_hex(255), "ff");
    assert_eq!(lethe::numfmt::u64_to_hex(0), "0");
    assert_eq!(lethe::numfmt::u64_to_hex(4096), "1000");
    assert_eq!(lethe::numfmt::u64_to_dec(1234), "1234");
    assert_eq!(lethe::numfmt::u64_to_dec(0), "0");
    assert_eq!(lethe::numfmt::bytes_to_hex(&[0xde, 0xad, 0x01]), "dead01");
}

#[test]
fn error_messages_exist() {
    assert_eq!(
        VaultError::AuthenticationError.message(),
        "wrong password or corrupted data"
    );
    assert!(!VaultError::NotFound.message().is_empty());
}

#[test]
fn config_defaults() {
    let cfg = lethe::config::VaultConfig::default();
    assert_eq!(cfg.block_size, 65536);
    assert_eq!(cfg.compression_level, 3);
}

#[test]
fn sentinel_state_machine() {
    let mut st = AppState::new();
    assert!(!handle_event(&mut st, SentinelEvent::Press(SentinelKey::ControlKey)));
    assert!(!handle_event(&mut st, SentinelEvent::Press(SentinelKey::AltKey)));
    // Chord fires only with both modifiers held.
    assert!(handle_event(&mut st, SentinelEvent::Press(SentinelKey::RightBracket)));
    assert_eq!(toggle_vault(&st), MountAction::Mount);
    complete_toggle(&mut st, true);
    assert_eq!(st.vault_state, VaultState::Mounted);
    assert_eq!(toggle_vault(&st), MountAction::Unmount);
    complete_toggle(&mut st, false);
    assert_eq!(st.vault_state, VaultState::Locked);
    // Releasing a modifier disarms the chord.
    assert!(!handle_event(&mut st, SentinelEvent::Release(SentinelKey::AltKey)));
    assert!(!handle_event(&mut st, SentinelEvent::Press(SentinelKey::RightBracket)));
}

#[test]
fn string_helpers() {
    assert!(lethe::strutil::str_eq("abc", "abc"));
    assert!(!lethe::strutil::str_eq("abc", "abd"));
    assert!(lethe::strutil::str_starts_with("/a/b", "/a"));
    assert!(!lethe::strutil::str_starts_with("/a", "/a/b"));
    assert_eq!(lethe::strutil::path_join("/", "x"), "/x");
    assert_eq!(lethe::strutil::path_join("/a", "x"), "/a/x");
}
