//! Tests of the filesystem adapter: sessions, handles, listings, renames.

use lethe::crypto::CryptoEngine;
use lethe::errors::VaultError;
use lethe::index::IndexManager;
use lethe::storage::BlockManager;
use lethe::vfs::{ActiveVault, LetheState, SeekFrom};

fn fresh_session() -> ActiveVault {
    let (key, salt) = CryptoEngine::derive_key_with_salt("test-password", "0123456789abcdef")
        .unwrap();
    let index = IndexManager::new_empty(salt);
    let storage = BlockManager::new();
    ActiveVault::unlock(index, storage, Vec::new(), key).unwrap()
}

fn write_file(v: &mut ActiveVault, path: &str, content: &[u8]) {
    let mut h = v.open(path, true, true).unwrap();
    h.write_bytes(v, content).unwrap();
    h.flush(v).unwrap();
}

fn read_file(v: &ActiveVault, path: &str) -> Vec<u8> {
    let mut h = v.open(path, false, false).unwrap();
    h.read_bytes(v, usize::MAX / 2).unwrap()
}

#[test]
fn handle_round_trip() {
    let mut v = fresh_session();
    write_file(&mut v, "/docs/note.txt", b"hello world");
    assert_eq!(read_file(&v, "/docs/note.txt"), b"hello world");
    let meta = v.metadata("/docs/note.txt").unwrap();
    assert_eq!(meta.len, 11);
    assert!(!meta.is_dir);
}

#[test]
fn handle_overwrite_replaces_content() {
    let mut v = fresh_session();
    write_file(&mut v, "/f.txt", b"first version");
    write_file(&mut v, "/f.txt", b"second");
    assert_eq!(read_file(&v, "/f.txt"), b"second");
    assert_eq!(v.metadata("/f.txt").unwrap().len, 6);
}

#[test]
fn handle_large_write_splits_blocks() {
    let mut v = fresh_session();
    let mut content = Vec::new();
    for i in 0..200_000u32 {
        content.push((i % 251) as u8);
    }
    let mut h = v.open("/big.bin", true, true).unwrap();
    // Write in uneven chunks so the 64 KiB buffer flushes mid-stream.
    for chunk in content.chunks(30_000) {
        h.write_bytes(&mut v, chunk).unwrap();
    }
    h.flush(&mut v).unwrap();
    let entry_blocks = v.index.get_file("/big.bin").unwrap().blocks.len();
    assert!(entry_blocks >= 2);
    assert_eq!(read_file(&v, "/big.bin"), content);
}

#[test]
fn handle_seek_and_partial_reads() {
    let mut v = fresh_session();
    write_file(&mut v, "/s.txt", b"hello world");
    let mut h = v.open("/s.txt", false, false).unwrap();

    let p = h.seek(SeekFrom::Start(6)).unwrap();
    assert_eq!(p, 6);
    assert_eq!(h.read_bytes(&v, 5).unwrap(), b"world");

    let p = h.seek(SeekFrom::End(-5)).unwrap();
    assert_eq!(p, 6);
    assert_eq!(h.read_bytes(&v, 100).unwrap(), b"world");

    h.seek(SeekFrom::Start(0)).unwrap();
    assert_eq!(h.read_bytes(&v, 5).unwrap(), b"hello");
    let p = h.seek(SeekFrom::Current(1)).unwrap();
    assert_eq!(p, 6);
    assert_eq!(h.read_bytes(&v, 2).unwrap(), b"wo");

    // Reading past the end returns empty, never an error.
    h.seek(SeekFrom::Start(100)).unwrap();
    assert_eq!(h.read_bytes(&v, 10).unwrap(), b"");
}

#[test]
fn implicit_directory_consistency() {
    let mut v = fresh_session();
    write_file(&mut v, "/a/b/c.txt", b"x");

    let listing = v.read_dir("/a").unwrap();
    assert_eq!(listing.len(), 1);
    assert_eq!(listing[0].name, "b");
    assert!(listing[0].meta.is_dir);

    let listing = v.read_dir("/a/b").unwrap();
    assert_eq!(listing.len(), 1);
    assert_eq!(listing[0].name, "c.txt");
    assert!(!listing[0].meta.is_dir);

    let meta = v.metadata("/a").unwrap();
    assert!(meta.is_dir);
    assert_eq!(meta.etag, format!("\"implicit-{}\"", fxhash::hash64("/a")));
}

#[test]
fn read_dir_deduplicates_and_annotates() {
    let mut v = fresh_session();
    write_file(&mut v, "/d/one.txt", b"1");
    write_file(&mut v, "/d/sub/two.txt", b"22");
    write_file(&mut v, "/d/sub/three.txt", b"333");
    v.create_dir("/d/explicit").unwrap();

    let mut names: Vec<String> = v.read_dir("/d").unwrap().into_iter().map(|e| e.name).collect();
    names.sort();
    assert_eq!(names, vec!["explicit", "one.txt", "sub"]);

    let root = v.read_dir("/").unwrap();
    assert_eq!(root.len(), 1);
    assert_eq!(root[0].name, "d");
}

#[test]
fn metadata_etags_are_stable() {
    let mut v = fresh_session();
    let root = v.metadata("/").unwrap();
    assert_eq!(root.etag, "\"root\"");
    assert!(root.is_dir);

    write_file(&mut v, "/e.txt", b"0123456789");
    let m1 = v.metadata("/e.txt").unwrap();
    let m2 = v.metadata("/e.txt").unwrap();
    assert_eq!(m1.etag, m2.etag);
    assert_eq!(m1.etag, format!("\"{:x}-{:x}\"", 10, m1.modified));

    let err = v.metadata("/absent").unwrap_err();
    assert_eq!(err, VaultError::NotFound);
}

#[test]
fn directory_operations() {
    let mut v = fresh_session();
    v.create_dir("/dir").unwrap();
    assert_eq!(v.create_dir("/dir").unwrap_err(), VaultError::Exists);

    write_file(&mut v, "/dir/inner.txt", b"x");
    assert_eq!(v.remove_dir("/dir").unwrap_err(), VaultError::Forbidden);

    v.remove_file("/dir/inner.txt").unwrap();
    v.remove_dir("/dir").unwrap();
    assert_eq!(v.remove_dir("/dir").unwrap_err(), VaultError::NotFound);
    assert_eq!(v.remove_file("/gone").unwrap_err(), VaultError::NotFound);

    // Directories cannot be opened as files.
    v.create_dir("/d2").unwrap();
    assert_eq!(v.open("/d2", false, false).unwrap_err(), VaultError::Forbidden);
    assert_eq!(v.open("/nowhere", false, false).unwrap_err(), VaultError::NotFound);
}

#[test]
fn rename_subtree() {
    let mut v = fresh_session();
    write_file(&mut v, "/a/x.txt", b"x");
    write_file(&mut v, "/a/y/z.txt", b"z");

    v.rename("/a", "/b").unwrap();

    assert!(v.index.get_file("/b/x.txt").is_some());
    assert!(v.index.get_file("/b/y/z.txt").is_some());
    assert!(v.index.get_file("/a/x.txt").is_none());
    assert!(v.index.get_file("/a/y/z.txt").is_none());
    assert_eq!(v.index.data.files.len(), 2);
    assert_eq!(read_file(&v, "/b/x.txt"), b"x");
    assert_eq!(read_file(&v, "/b/y/z.txt"), b"z");

    let root: Vec<String> = v.read_dir("/").unwrap().into_iter().map(|e| e.name).collect();
    assert_eq!(root, vec!["b"]);

    assert_eq!(v.rename("/a", "/c").unwrap_err(), VaultError::NotFound);
}

#[test]
fn session_reclaim_sweeps_orphans() {
    let mut v = fresh_session();
    write_file(&mut v, "/keep.txt", b"keep me around");
    write_file(&mut v, "/drop.txt", b"doomed");
    // Overwriting and deleting abandon blocks on disk.
    write_file(&mut v, "/keep.txt", b"new content");
    v.remove_file("/drop.txt").unwrap();

    let report = v.reclaim(false);
    assert_eq!(report.removed, 2);
    assert_eq!(report.kept, 1);
    assert!(report.bytes_reclaimed > 0);
    assert_eq!(read_file(&v, "/keep.txt"), b"new content");

    let again = v.reclaim(false);
    assert_eq!(again.removed, 0);
}

#[test]
fn end_to_end_vault_lifecycle() {
    // Initialize a vault with password "p".
    let (key, salt) = CryptoEngine::derive_key("p").unwrap();
    let index = IndexManager::new_empty(salt.clone());
    let storage = BlockManager::new();
    let mut v = ActiveVault::unlock(index, storage, Vec::new(), key).unwrap();

    // Write /docs/note.txt with content "hello" and persist.
    write_file(&mut v, "/docs/note.txt", b"hello");
    let replicas = v.replicas.clone();

    // Reload with the same password: the entry and its content survive.
    let (key2, _) = CryptoEngine::derive_key_with_salt("p", &salt).unwrap();
    let reloaded = IndexManager::load(&replicas, &key2).unwrap();
    let entry = reloaded.get_file("/docs/note.txt").unwrap();
    assert_eq!(entry.size, 5);
    let mut content = Vec::new();
    for id in &entry.blocks {
        content.extend_from_slice(&v.storage.read_block(id, &key2).unwrap());
    }
    assert_eq!(content, b"hello");

    // Reloading with a wrong password fails on every replica.
    let (wrong, _) = CryptoEngine::derive_key_with_salt("wrong", &salt).unwrap();
    let err = IndexManager::load(&replicas, &wrong).unwrap_err();
    assert_eq!(err, VaultError::IndexUnrecoverable);
}

#[test]
fn lock_state_lifecycle() {
    let mut state = LetheState::new();
    assert!(state.get_resources().is_none());
    let v = fresh_session();
    state.unlock(v);
    assert!(state.get_resources().is_some());
    state.lock();
    assert!(state.get_resources().is_none());
}

#[test]
fn handle_metadata_reports_buffered_size() {
    let mut v = fresh_session();
    let mut h = v.open("/buf.txt", true, true).unwrap();
    h.write_bytes(&mut v, b"abc").unwrap();
    let m = h.metadata();
    assert_eq!(m.len, 3);
    assert!(!m.is_dir);
    assert_eq!(m.etag, "\"mem-3\"");
    assert_eq!(h.total_size(), 3);
}
