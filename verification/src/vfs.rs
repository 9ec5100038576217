//! The virtual filesystem adapter: presents the flat path-to-entry map as
//! a hierarchical filesystem, independent of any particular mount
//! technology, and manages per-handle read/write buffering.
//!
//! A path is a directory if it has an explicit directory entry, or if some
//! other indexed path lies strictly below it (an implicit directory). Every
//! index-mutating operation persists the index replicas before returning
//! success.

use vstd::prelude::*;
use vstd::string::*;

use crate::crypto::MasterKey;
use crate::errors::VaultError;
use crate::index::{
    entries_view, files_map_of, lemma_files_map_dom, lemma_files_map_index, replica_index,
    strs_view, unique_paths, FileEntry, FileEntryV, IndexManager,
};
use crate::numfmt::{u64_dec_digits, u64_hex_digits, u64_to_dec, u64_to_hex};
use crate::storage::{block_payload, BlockManager, ReclaimReport};
use crate::strutil::{find_char_from, str_eq, str_starts_with};
use crate::REPLICA_COUNT;

verus! {

/// Bytes a handle buffers before they are flushed as one block.
pub const BLOCK_SIZE: usize = 65536;

/// What the fxhash 64-bit hash of a string is.
pub uninterp spec fn fxhash64_of(s: Seq<char>) -> u64;

/// Relies on `fxhash::hash64` of the fxhash crate: a deterministic,
/// unseeded hash, a pure function of the string's bytes.
#[verifier::external_body]
fn fx_hash64(s: &str) -> (r: u64)
    ensures
        r == fxhash64_of(s@),
{
    fxhash::hash64(s)
}

// ---------------------------------------------------------------------------
// File content as a function of the store and a block list.
// ---------------------------------------------------------------------------
/// The payload of one block id under a key; empty when absent or unreadable
/// (well-formed sessions exclude that case).
pub open spec fn payload_of(store: Map<Seq<char>, Seq<u8>>, key: Seq<u8>, id: Seq<char>) -> Seq<
    u8,
> {
    if store.contains_key(id) {
        match block_payload(store.index(id), key) {
            Option::Some(p) => p,
            Option::None => Seq::empty(),
        }
    } else {
        Seq::empty()
    }
}

/// Every listed block exists and decodes.
pub open spec fn blocks_ok(
    store: Map<Seq<char>, Seq<u8>>,
    key: Seq<u8>,
    blocks: Seq<Seq<char>>,
) -> bool {
    forall|i: int|
        0 <= i < blocks.len() ==> store.contains_key(#[trigger] blocks[i]) && block_payload(
            store.index(blocks[i]),
            key,
        ) is Some
}

/// The concatenated payloads of a block list, in order.
pub open spec fn blocks_content(
    store: Map<Seq<char>, Seq<u8>>,
    key: Seq<u8>,
    blocks: Seq<Seq<char>>,
) -> Seq<u8>
    decreases blocks.len(),
{
    if blocks.len() == 0 {
        Seq::empty()
    } else {
        payload_of(store, key, blocks[0]) + blocks_content(store, key, blocks.skip(1))
    }
}

pub proof fn lemma_blocks_content_snoc(
    store: Map<Seq<char>, Seq<u8>>,
    key: Seq<u8>,
    blocks: Seq<Seq<char>>,
)
    requires
        blocks.len() > 0,
    ensures
        blocks_content(store, key, blocks) == blocks_content(store, key, blocks.drop_last())
            + payload_of(store, key, blocks.last()),
    decreases blocks.len(),
{
    if blocks.len() == 1 {
        assert(blocks.skip(1) =~= Seq::<Seq<char>>::empty());
        assert(blocks.drop_last() =~= Seq::<Seq<char>>::empty());
        assert(blocks_content(store, key, blocks) =~= blocks_content(
            store,
            key,
            blocks.drop_last(),
        ) + payload_of(store, key, blocks.last()));
    } else {
        lemma_blocks_content_snoc(store, key, blocks.skip(1));
        assert(blocks.skip(1).drop_last() =~= blocks.drop_last().skip(1));
        assert(blocks.skip(1).last() == blocks.last());
        assert(blocks.drop_last()[0] == blocks[0]);
        assert(blocks_content(store, key, blocks) =~= blocks_content(
            store,
            key,
            blocks.drop_last(),
        ) + payload_of(store, key, blocks.last()));
    }
}

pub proof fn lemma_blocks_content_split(
    store: Map<Seq<char>, Seq<u8>>,
    key: Seq<u8>,
    blocks: Seq<Seq<char>>,
    i: int,
)
    requires
        0 <= i <= blocks.len(),
    ensures
        blocks_content(store, key, blocks) == blocks_content(store, key, blocks.take(i))
            + blocks_content(store, key, blocks.skip(i)),
    decreases i,
{
    if i == 0 {
        assert(blocks.take(0) =~= Seq::<Seq<char>>::empty());
        assert(blocks.skip(0) =~= blocks);
        assert(blocks_content(store, key, blocks) =~= blocks_content(store, key, blocks.take(0))
            + blocks_content(store, key, blocks.skip(0)));
    } else {
        lemma_blocks_content_split(store, key, blocks, i - 1);
        let t = blocks.take(i);
        assert(t.drop_last() =~= blocks.take(i - 1));
        assert(t.last() == blocks[i - 1]);
        lemma_blocks_content_snoc(store, key, t);
        let s1 = blocks.skip(i - 1);
        assert(s1.len() > 0);
        assert(s1[0] == blocks[i - 1]);
        assert(s1.skip(1) =~= blocks.skip(i));
        assert(blocks_content(store, key, s1) == payload_of(store, key, blocks[i - 1])
            + blocks_content(store, key, blocks.skip(i)));
        assert(blocks_content(store, key, blocks) =~= blocks_content(store, key, blocks.take(i))
            + blocks_content(store, key, blocks.skip(i)));
    }
}

/// A store that agrees with the old one on a list's blocks gives the same
/// content for that list: growing the store, or sweeping unrelated
/// orphans, changes nothing about it.
pub proof fn lemma_blocks_content_agree(
    store1: Map<Seq<char>, Seq<u8>>,
    store2: Map<Seq<char>, Seq<u8>>,
    key: Seq<u8>,
    blocks: Seq<Seq<char>>,
)
    requires
        blocks_ok(store1, key, blocks),
        forall|i: int|
            0 <= i < blocks.len() ==> store2.contains_key(#[trigger] blocks[i])
                && store2.index(blocks[i]) == store1.index(blocks[i]),
    ensures
        blocks_ok(store2, key, blocks),
        blocks_content(store2, key, blocks) == blocks_content(store1, key, blocks),
    decreases blocks.len(),
{
    if blocks.len() > 0 {
        assert forall|i: int|
            0 <= i < blocks.skip(1).len() implies store1.contains_key(
            #[trigger] blocks.skip(1)[i],
        ) && block_payload(store1.index(blocks.skip(1)[i]), key) is Some && store2.contains_key(
            blocks.skip(1)[i],
        ) && store2.index(blocks.skip(1)[i]) == store1.index(blocks.skip(1)[i]) by {
            assert(blocks.skip(1)[i] == blocks[i + 1]);
        }
        lemma_blocks_content_agree(store1, store2, key, blocks.skip(1));
        assert(store1.contains_key(blocks[0]));
        assert(store2.contains_key(blocks[0]));
        assert forall|i: int|
            0 <= i < blocks.len() implies store2.contains_key(#[trigger] blocks[i])
            && block_payload(store2.index(blocks[i]), key) is Some by {
            assert(store1.contains_key(blocks[i]));
        }
    }
}

/// An entry is consistent with the store: a directory is empty and sized
/// zero; a file's blocks exist, decode, and concatenate to exactly its
/// size.
pub open spec fn entry_ok(e: FileEntryV, store: Map<Seq<char>, Seq<u8>>, key: Seq<u8>) -> bool {
    if e.is_dir {
        e.blocks.len() == 0 && e.size == 0
    } else {
        blocks_ok(store, key, e.blocks) && blocks_content(store, key, e.blocks).len() == e.size
    }
}

// ---------------------------------------------------------------------------
// Entity tags.
// ---------------------------------------------------------------------------
/// The stable tag of an explicit entry: size and mtime in hexadecimal.
pub open spec fn etag_entry(size: u64, modified: u64) -> Seq<char> {
    seq!['"'] + u64_hex_digits(size) + seq!['-'] + u64_hex_digits(modified) + seq!['"']
}

/// The stable tag of an implicit directory, from a hash of its path.
pub open spec fn etag_implicit(path: Seq<char>) -> Seq<char> {
    "\"implicit-"@ + u64_dec_digits(fxhash64_of(path)) + seq!['"']
}

/// The stable tag of a listed implicit child, from a hash of its name.
pub open spec fn etag_dir_name(name: Seq<char>) -> Seq<char> {
    "\"dir-"@ + u64_dec_digits(fxhash64_of(name)) + seq!['"']
}

/// What `metadata` and `read_dir` report for one path.
#[derive(Debug)]
pub struct LetheMetaData {
    pub len: u64,
    pub modified: u64,
    pub is_dir: bool,
    pub etag: String,
}

/// One entry of a directory listing.
#[derive(Debug)]
pub struct LetheDavEntry {
    pub name: String,
    pub meta: LetheMetaData,
}

// ---------------------------------------------------------------------------
// The unlocked session.
// ---------------------------------------------------------------------------
/// Everything that exists only while the vault is unlocked: the in-memory
/// index, the block store, the replica images, and the key.
#[derive(Debug)]
pub struct ActiveVault {
    pub index: IndexManager,
    pub storage: BlockManager,
    pub replicas: Vec<Vec<u8>>,
    pub key: MasterKey,
}

impl ActiveVault {
    /// Session well-formedness: the index is well-formed, block ids are
    /// unique, and every entry is consistent with the store.
    pub open spec fn wf(self) -> bool {
        &&& self.index.data@.wf()
        &&& self.storage.wf()
        &&& forall|p: Seq<char>| #[trigger]
            self.index.data@.file_map().contains_key(p) ==> entry_ok(
                self.index.data@.file_map().index(p),
                self.storage@,
                self.key@,
            )
    }

    /// The path-to-entry map of the session.
    pub open spec fn fmap(self) -> Map<Seq<char>, FileEntryV> {
        self.index.data@.file_map()
    }

    /// Builds a session after verifying that every index entry is
    /// consistent with the store: every referenced block decrypts and the
    /// payload sizes add up. Success is owed whenever that holds.
    pub fn unlock(
        index: IndexManager,
        storage: BlockManager,
        replicas: Vec<Vec<u8>>,
        key: MasterKey,
    ) -> (r: Result<ActiveVault, VaultError>)
        requires
            index.data@.wf(),
            storage.wf(),
        ensures
            match r {
                Ok(v) => {
                    &&& v.wf()
                    &&& v.index.data@ == index.data@
                    &&& v.storage@ == storage@
                    &&& v.replicas@ == replicas@
                    &&& v.key@ == key@
                },
                Err(e) => e == VaultError::CorruptBlock,
            },
            (forall|p: Seq<char>| #[trigger]
                index.data@.file_map().contains_key(p) ==> entry_ok(
                    index.data@.file_map().index(p),
                    storage@,
                    key@,
                )) ==> r is Ok,
    {
        let ghost fm = index.data@.file_map();
        let n = index.data.files.len();
        let mut i: usize = 0;
        while i < n
            invariant
                i <= n,
                n == index.data.files@.len(),
                index.data@.wf(),
                storage.wf(),
                forall|j: int|
                    0 <= j < i ==> entry_ok(
                        #[trigger] entries_view(index.data.files@)[j],
                        storage@,
                        key@,
                    ),
            decreases n - i,
        {
            if !check_entry(&index.data.files[i], &storage, &key) {
                proof {
                    let fv = entries_view(index.data.files@);
                    lemma_files_map_index(fv, i as int);
                    assert(index.data@.file_map().contains_key(fv[i as int].path));
                    assert(!entry_ok(
                        index.data@.file_map().index(fv[i as int].path),
                        storage@,
                        key@,
                    ));
                }
                return Err(VaultError::CorruptBlock);
            }
            i += 1;
        }
        proof {
            assert forall|p: Seq<char>| #[trigger]
                fm.contains_key(p) implies entry_ok(fm.index(p), storage@, key@) by {
                lemma_files_map_dom(entries_view(index.data.files@), p);
                let j = choose|j: int|
                    0 <= j < entries_view(index.data.files@).len() && entries_view(
                        index.data.files@,
                    )[j].path == p;
                lemma_files_map_index(entries_view(index.data.files@), j);
            }
        }
        Ok(ActiveVault { index, storage, replicas, key })
    }

}

/// Whether `e` is consistent with the store, checked by decrypting its
/// blocks and summing their payload sizes.
fn check_entry(e: &FileEntry, storage: &BlockManager, key: &MasterKey) -> (r: bool)
    requires
        storage.wf(),
    ensures
        r == entry_ok(e@, storage@, key@),
{
    if e.is_dir {
        return e.blocks.len() == 0 && e.size == 0;
    }
    let ghost bl = strs_view(e.blocks@);
    let n = e.blocks.len();
    let mut sum: u64 = 0;
    let mut i: usize = 0;
    while i < n
        invariant
            i <= n,
            n == e.blocks@.len(),
            bl == strs_view(e.blocks@),
            storage.wf(),
            blocks_ok(storage@, key@, bl.take(i as int)),
            sum as int == blocks_content(storage@, key@, bl.take(i as int)).len(),
        decreases n - i,
    {
        proof {
            let t = bl.take(i as int + 1);
            assert(t.drop_last() =~= bl.take(i as int));
            assert(t.last() == bl[i as int]);
            lemma_blocks_content_snoc(storage@, key@, t);
        }
        let p = match storage.read_block(e.blocks[i].as_str(), key) {
            Ok(p) => p,
            Err(_) => {
                proof {
                    assert(!blocks_ok(storage@, key@, bl));
                }
                return false;
            },
        };
        proof {
            assert(blocks_ok(storage@, key@, bl.take(i as int + 1))) by {
                assert forall|j: int|
                    0 <= j < i + 1 implies storage@.contains_key(
                    #[trigger] bl.take(i as int + 1)[j],
                ) && block_payload(storage@.index(bl.take(i as int + 1)[j]), key@) is Some by {
                    assert(bl.take(i as int + 1)[j] == bl[j]);
                    if j < i {
                        assert(bl.take(i as int)[j] == bl[j]);
                    }
                }
            }
            assert(payload_of(storage@, key@, bl[i as int]) == p@);
        }
        sum = match sum.checked_add(p.len() as u64) {
            Some(v) => v,
            None => {
                proof {
                    lemma_blocks_content_split(storage@, key@, bl, i as int + 1);
                }
                return false;
            },
        };
        i += 1;
    }
    proof {
        assert(bl.take(n as int) =~= bl);
    }
    sum == e.size
}

// ---------------------------------------------------------------------------
// Directory structure.
// ---------------------------------------------------------------------------
/// `path` followed by a slash: the prefix all strictly-contained paths
/// share.
pub open spec fn dir_prefix(path: Seq<char>) -> Seq<char> {
    path + seq!['/']
}

/// Some indexed path lies strictly below `path`.
pub open spec fn has_strict_child(m: Map<Seq<char>, FileEntryV>, path: Seq<char>) -> bool {
    exists|p: Seq<char>| #[trigger]
        m.contains_key(p) && p.len() >= dir_prefix(path).len() && p.take(
            dir_prefix(path).len() as int,
        ) == dir_prefix(path)
}

impl ActiveVault {
    /// Builds the `path + "/"` prefix string.
    fn dir_prefix_string(path: &str) -> (r: String)
        ensures
            r@ == dir_prefix(path@),
    {
        let mut out = path.to_owned();
        out.append("/");
        proof {
            reveal_strlit("/");
            assert(out@ =~= dir_prefix(path@));
        }
        out
    }

    /// Whether some indexed path lies strictly below `path`.
    fn has_child(&self, path: &str) -> (r: bool)
        requires
            self.index.data@.wf(),
        ensures
            r == has_strict_child(self.fmap(), path@),
    {
        let prefix = Self::dir_prefix_string(path);
        let ghost fv = entries_view(self.index.data.files@);
        let n = self.index.data.files.len();
        let mut i: usize = 0;
        while i < n
            invariant
                i <= n,
                n == self.index.data.files@.len(),
                fv == entries_view(self.index.data.files@),
                self.index.data@.wf(),
                prefix@ == dir_prefix(path@),
                forall|j: int|
                    0 <= j < i ==> !(fv[j].path.len() >= dir_prefix(path@).len() && (
                    #[trigger] fv[j].path).take(dir_prefix(path@).len() as int) == dir_prefix(
                        path@,
                    )),
            decreases n - i,
        {
            if str_starts_with(self.index.data.files[i].path.as_str(), prefix.as_str()) {
                proof {
                    lemma_files_map_index(fv, i as int);
                }
                return true;
            }
            i += 1;
        }
        proof {
            if has_strict_child(self.fmap(), path@) {
                let p = choose|p: Seq<char>| #[trigger]
                    self.fmap().contains_key(p) && p.len() >= dir_prefix(path@).len() && p.take(
                        dir_prefix(path@).len() as int,
                    ) == dir_prefix(path@);
                lemma_files_map_dom(fv, p);
            }
        }
        false
    }

    /// Metadata for one path: explicit entries report their own size and
    /// mtime; the root and implicit directories report size zero, epoch
    /// mtime, and a stable tag.
    pub fn metadata(&self, path: &str) -> (r: Result<LetheMetaData, VaultError>)
        requires
            self.index.data@.wf(),
        ensures
            match r {
                Ok(m) => {
                    &&& (path@ == "/"@ ==> m.len == 0 && m.modified == 0 && m.is_dir && m.etag@
                        == "\"root\""@)
                    &&& (path@ != "/"@ && self.fmap().contains_key(path@) ==> {
                        let e = self.fmap().index(path@);
                        m.len == e.size && m.modified == e.modified && m.is_dir == e.is_dir
                            && m.etag@ == etag_entry(e.size, e.modified)
                    })
                    &&& (path@ != "/"@ && !self.fmap().contains_key(path@) ==> m.len == 0
                        && m.modified == 0 && m.is_dir && m.etag@ == etag_implicit(path@)
                        && has_strict_child(self.fmap(), path@))
                },
                Err(e) => {
                    &&& e == VaultError::NotFound
                    &&& path@ != "/"@
                    &&& !self.fmap().contains_key(path@)
                    &&& !has_strict_child(self.fmap(), path@)
                },
            },
    {
        if str_eq(path, "/") {
            proof {
                reveal_strlit("\"root\"");
            }
            return Ok(
                LetheMetaData {
                    len: 0,
                    modified: 0,
                    is_dir: true,
                    etag: "\"root\"".to_owned(),
                },
            );
        }
        match self.index.get_file(path) {
            Some(e) => {
                let etag = make_entry_etag(e.size, e.modified);
                return Ok(
                    LetheMetaData {
                        len: e.size,
                        modified: e.modified,
                        is_dir: e.is_dir,
                        etag,
                    },
                );
            },
            None => {},
        }
        if self.has_child(path) {
            let etag = make_implicit_etag(path);
            return Ok(LetheMetaData { len: 0, modified: 0, is_dir: true, etag });
        }
        Err(VaultError::NotFound)
    }
}

/// Renders the stable tag of an explicit entry.
fn make_entry_etag(size: u64, modified: u64) -> (r: String)
    ensures
        r@ == etag_entry(size, modified),
{
    proof {
        reveal_strlit("\"");
        reveal_strlit("-");
    }
    let mut out = "\"".to_owned();
    let hex_size = u64_to_hex(size);
    out.append(hex_size.as_str());
    out.append("-");
    let hex_mod = u64_to_hex(modified);
    out.append(hex_mod.as_str());
    out.append("\"");
    proof {
        assert(out@ =~= etag_entry(size, modified));
    }
    out
}

/// Renders the stable tag of an implicit directory.
fn make_implicit_etag(path: &str) -> (r: String)
    ensures
        r@ == etag_implicit(path@),
{
    proof {
        reveal_strlit("\"implicit-");
        reveal_strlit("\"");
    }
    let h = fx_hash64(path);
    let mut out = "\"implicit-".to_owned();
    let dec = u64_to_dec(h);
    out.append(dec.as_str());
    out.append("\"");
    proof {
        assert(out@ =~= etag_implicit(path@));
    }
    out
}

/// Renders the stable tag of a listed implicit child.
fn make_dir_name_etag(name: &str) -> (r: String)
    ensures
        r@ == etag_dir_name(name@),
{
    proof {
        reveal_strlit("\"dir-");
        reveal_strlit("\"");
    }
    let h = fx_hash64(name);
    let mut out = "\"dir-".to_owned();
    let dec = u64_to_dec(h);
    out.append(dec.as_str());
    out.append("\"");
    proof {
        assert(out@ =~= etag_dir_name(name@));
    }
    out
}

impl ActiveVault {
    /// Creates an explicit directory entry and persists the index.
    /// Fails with `Exists` when any entry occupies the path.
    pub fn create_dir(&mut self, path: &str) -> (r: Result<(), VaultError>)
        requires
            old(self).wf(),
            old(self).index.data@.revision < u64::MAX,
        ensures
            match r {
                Ok(()) => {
                    &&& final (self).wf()
                    &&& !old(self).fmap().contains_key(path@)
                    &&& exists|m: u64|
                        final (self).fmap() == old(self).fmap().insert(
                            path@,
                            FileEntryV {
                                path: path@,
                                size: 0,
                                modified: m,
                                blocks: Seq::empty(),
                                is_dir: true,
                            },
                        )
                    &&& final (self).index.data@.revision == old(self).index.data@.revision + 1
                    &&& replicas_synced(*final (self))
                    &&& final (self).storage@ == old(self).storage@
                },
                Err(e) => {
                    &&& (e == VaultError::Exists || e == VaultError::EncryptionError)
                    &&& (e == VaultError::Exists <==> old(self).fmap().contains_key(path@))
                    &&& (e == VaultError::Exists ==> *final (self) == *old(self))
                },
            },
    {
        if self.index.get_file(path).is_some() {
            return Err(VaultError::Exists);
        }
        self.index.add_dir(path.to_owned());
        proof {
            lemma_wf_after_index_change(*old(self), *self);
        }
        self.persist()
    }

    /// Removes an explicit directory entry and persists the index. Fails
    /// with `Forbidden` when any path lies strictly below it, `NotFound`
    /// when no entry exists.
    pub fn remove_dir(&mut self, path: &str) -> (r: Result<(), VaultError>)
        requires
            old(self).wf(),
            old(self).index.data@.revision < u64::MAX,
        ensures
            match r {
                Ok(()) => {
                    &&& final (self).wf()
                    &&& !has_strict_child(old(self).fmap(), path@)
                    &&& old(self).fmap().contains_key(path@)
                    &&& final (self).fmap() == old(self).fmap().remove(path@)
                    &&& final (self).index.data@.revision == old(self).index.data@.revision + 1
                    &&& replicas_synced(*final (self))
                    &&& final (self).storage@ == old(self).storage@
                },
                Err(e) => {
                    &&& (e == VaultError::Forbidden || e == VaultError::NotFound || e
                        == VaultError::EncryptionError)
                    &&& (e == VaultError::Forbidden <==> has_strict_child(
                        old(self).fmap(),
                        path@,
                    ))
                    &&& (e == VaultError::NotFound ==> !old(self).fmap().contains_key(path@))
                    &&& (e == VaultError::Forbidden || e == VaultError::NotFound ==> {
                        &&& final (self).index.data@ == old(self).index.data@
                        &&& final (self).storage == old(self).storage
                        &&& final (self).replicas@ == old(self).replicas@
                    })
                },
            },
    {
        if self.has_child(path) {
            return Err(VaultError::Forbidden);
        }
        match self.index.remove_path(path) {
            Some(_) => {
                proof {
                    lemma_wf_after_index_change(*old(self), *self);
                }
                self.persist()
            },
            None => Err(VaultError::NotFound),
        }
    }

    /// Removes the entry at `path` and persists the index. Fails with
    /// `NotFound` when no entry exists. The entry's blocks stay on disk as
    /// orphans until the next reclamation pass.
    pub fn remove_file(&mut self, path: &str) -> (r: Result<(), VaultError>)
        requires
            old(self).wf(),
            old(self).index.data@.revision < u64::MAX,
        ensures
            match r {
                Ok(()) => {
                    &&& final (self).wf()
                    &&& old(self).fmap().contains_key(path@)
                    &&& final (self).fmap() == old(self).fmap().remove(path@)
                    &&& final (self).index.data@.revision == old(self).index.data@.revision + 1
                    &&& replicas_synced(*final (self))
                    &&& final (self).storage@ == old(self).storage@
                },
                Err(e) => {
                    &&& (e == VaultError::NotFound || e == VaultError::EncryptionError)
                    &&& (e == VaultError::NotFound <==> !old(self).fmap().contains_key(path@))
                    &&& (e == VaultError::NotFound ==> {
                        &&& final (self).index.data@ == old(self).index.data@
                        &&& final (self).storage == old(self).storage
                        &&& final (self).replicas@ == old(self).replicas@
                    })
                },
            },
    {
        match self.index.remove_path(path) {
            Some(_) => {
                proof {
                    lemma_wf_after_index_change(*old(self), *self);
                }
                self.persist()
            },
            None => Err(VaultError::NotFound),
        }
    }

    /// Saves the index into the replica slots. Internal: every mutating
    /// operation ends with this.
    fn persist(&mut self) -> (r: Result<(), VaultError>)
        requires
            old(self).wf(),
            old(self).index.data@.revision < u64::MAX,
        ensures
            final (self).wf(),
            final (self).index.data@.files == old(self).index.data@.files,
            final (self).fmap() == old(self).fmap(),
            final (self).index.data@.revision == old(self).index.data@.revision + 1,
            final (self).storage@ == old(self).storage@,
            final (self).key@ == old(self).key@,
            match r {
                Ok(()) => replicas_synced(*final (self)),
                Err(e) => e == VaultError::EncryptionError,
            },
    {
        let r = self.index.save(&self.key, &mut self.replicas);
        proof {
            lemma_wf_after_index_change(*old(self), *self);
        }
        r
    }
}

// ---------------------------------------------------------------------------
// Directory listing.
// ---------------------------------------------------------------------------
/// The prefix all children of `d` share: `d` plus a slash, or just `/` for
/// the root.
pub open spec fn child_prefix(d: Seq<char>) -> Seq<char> {
    if d == seq!['/'] {
        d
    } else {
        d + seq!['/']
    }
}

/// The leading path segment of `rest`: everything up to the first slash.
pub open spec fn first_component(rest: Seq<char>) -> Seq<char>
    decreases rest.len(),
{
    if rest.len() == 0 {
        Seq::empty()
    } else if rest[0] == '/' {
        Seq::empty()
    } else {
        seq![rest[0]] + first_component(rest.skip(1))
    }
}

pub proof fn lemma_first_component(rest: Seq<char>, k: int)
    requires
        0 <= k <= rest.len(),
        forall|j: int| 0 <= j < k ==> rest[j] != '/',
        k < rest.len() ==> rest[k as int] == '/',
    ensures
        first_component(rest) == rest.take(k),
    decreases k,
{
    if rest.len() == 0 {
        assert(rest.take(k) =~= Seq::<char>::empty());
    } else if k == 0 {
        assert(rest.take(0) =~= Seq::<char>::empty());
    } else {
        assert(rest[0] != '/');
        lemma_first_component(rest.skip(1), k - 1);
        assert(first_component(rest) == seq![rest[0]] + rest.skip(1).take(k - 1));
        assert(rest.take(k) =~= seq![rest[0]] + rest.skip(1).take(k - 1));
    }
}

/// The immediate child name `p` contributes under directory `d`, if any.
pub open spec fn child_name_of(d: Seq<char>, p: Seq<char>) -> Option<Seq<char>> {
    if p.len() > child_prefix(d).len() && p.take(child_prefix(d).len() as int) == child_prefix(
        d,
    ) {
        Some(first_component(p.skip(child_prefix(d).len() as int)))
    } else {
        None
    }
}

/// `n` is a name `read_dir(d)` must report.
pub open spec fn is_child_name(m: Map<Seq<char>, FileEntryV>, d: Seq<char>, n: Seq<char>) -> bool {
    n.len() > 0 && exists|p: Seq<char>| #[trigger]
        m.contains_key(p) && child_name_of(d, p) == Some(n)
}

/// The metadata a listing reports for child `n` of `d`: the explicit entry
/// at the child path when one exists, an implicit directory otherwise.
pub open spec fn meta_matches_child(
    m: Map<Seq<char>, FileEntryV>,
    d: Seq<char>,
    n: Seq<char>,
    meta: LetheMetaData,
) -> bool {
    if m.contains_key(child_prefix(d) + n) {
        let e = m.index(child_prefix(d) + n);
        meta.len == e.size && meta.modified == e.modified && meta.is_dir == e.is_dir && meta.etag@
            == etag_entry(e.size, e.modified)
    } else {
        meta.len == 0 && meta.modified == 0 && meta.is_dir && meta.etag@ == etag_dir_name(n)
    }
}

/// Builds the shared prefix of the children of `path`.
fn child_prefix_string(path: &str) -> (r: String)
    ensures
        r@ == child_prefix(path@),
{
    if str_eq(path, "/") {
        let r = path.to_owned();
        proof {
            reveal_strlit("/");
            assert(path@ =~= seq!['/']);
        }
        r
    } else {
        let mut r = path.to_owned();
        r.append("/");
        proof {
            reveal_strlit("/");
            assert("/"@ =~= seq!['/']);
            assert(r@ =~= child_prefix(path@));
        }
        r
    }
}

/// The listing carries an entry named `nm`.
pub open spec fn listing_has(out: Seq<LetheDavEntry>, nm: Seq<char>) -> bool {
    exists|k: int| 0 <= k < out.len() && (#[trigger] out[k]).name@ == nm
}

/// The listing accounts for the child name `p` contributes under `d`, if
/// any.
pub open spec fn entry_listed(out: Seq<LetheDavEntry>, d: Seq<char>, p: Seq<char>) -> bool {
    match child_name_of(d, p) {
        Option::Some(nm) => nm.len() > 0 ==> listing_has(out, nm),
        Option::None => true,
    }
}

proof fn lemma_listing_has_push(out: Seq<LetheDavEntry>, e: LetheDavEntry, nm: Seq<char>)
    requires
        listing_has(out, nm) || e.name@ == nm,
    ensures
        listing_has(out.push(e), nm),
{
    if listing_has(out, nm) {
        let k = choose|k: int| 0 <= k < out.len() && (#[trigger] out[k]).name@ == nm;
        assert(out.push(e)[k].name@ == nm);
    } else {
        assert(out.push(e)[out.len() as int].name@ == nm);
    }
}

/// Whether a listing already carries `name`.
fn contains_name(out: &Vec<LetheDavEntry>, name: &str) -> (r: bool)
    ensures
        r == listing_has(out@, name@),
{
    let mut k: usize = 0;
    while k < out.len()
        invariant
            k <= out@.len(),
            forall|j: int| 0 <= j < k ==> (#[trigger] out@[j]).name@ != name@,
        decreases out@.len() - k,
    {
        if str_eq(out[k].name.as_str(), name) {
            return true;
        }
        k += 1;
    }
    false
}

impl ActiveVault {
    /// Lists the immediate children of `path`: one entry per distinct
    /// first segment below it, annotated like `metadata` annotates the
    /// child path, implicit directories included.
    #[verifier::rlimit(60)]
    pub fn read_dir(&self, path: &str) -> (r: Result<Vec<LetheDavEntry>, VaultError>)
        requires
            self.index.data@.wf(),
        ensures
            match r {
                Ok(l) => {
                    &&& forall|k: int|
                        0 <= k < l@.len() ==> is_child_name(
                            self.fmap(),
                            path@,
                            (#[trigger] l@[k]).name@,
                        )
                    &&& forall|k1: int, k2: int|
                        0 <= k1 < k2 < l@.len() ==> l@[k1].name@ != l@[k2].name@
                    &&& forall|n: Seq<char>|
                        #[trigger] is_child_name(self.fmap(), path@, n) ==> listing_has(l@, n)
                    &&& forall|k: int|
                        0 <= k < l@.len() ==> meta_matches_child(
                            self.fmap(),
                            path@,
                            (#[trigger] l@[k]).name@,
                            l@[k].meta,
                        )
                },
                Err(_) => false,
            },
    {
        let prefix = child_prefix_string(path);
        let plen = prefix.as_str().unicode_len();
        let ghost fv = entries_view(self.index.data.files@);
        let ghost m = self.fmap();
        let n = self.index.data.files.len();
        let mut out: Vec<LetheDavEntry> = Vec::new();
        let mut i: usize = 0;
        while i < n
            invariant
                i <= n,
                n == self.index.data.files@.len(),
                fv == entries_view(self.index.data.files@),
                m == self.fmap(),
                self.index.data@.wf(),
                prefix@ == child_prefix(path@),
                plen == prefix@.len(),
                forall|k: int|
                    0 <= k < out@.len() ==> is_child_name(m, path@, (#[trigger] out@[k]).name@),
                forall|k1: int, k2: int|
                    0 <= k1 < k2 < out@.len() ==> out@[k1].name@ != out@[k2].name@,
                forall|j: int| 0 <= j < i ==> entry_listed(out@, path@, (#[trigger] fv[j]).path),
                forall|k: int|
                    0 <= k < out@.len() ==> meta_matches_child(
                        m,
                        path@,
                        (#[trigger] out@[k]).name@,
                        out@[k].meta,
                    ),
            decreases n - i,
        {
            let ghost out0 = out@;
            let p = &self.index.data.files[i].path;
            proof {
                assert(fv[i as int].path == p@);
            }
            let p_len = p.as_str().unicode_len();
            if !(str_starts_with(p.as_str(), prefix.as_str()) && p_len > plen) {
                proof {
                    assert(child_name_of(path@, p@) is None);
                    assert(entry_listed(out@, path@, fv[i as int].path));
                }
            } else {
                let end = match find_char_from(p.as_str(), plen, '/') {
                    Some(k) => k,
                    None => p_len,
                };
                let name = p.as_str().substring_char(plen, end);
                proof {
                    lemma_first_component(p@.skip(plen as int), end - plen);
                    assert(p@.skip(plen as int).take(end - plen) =~= p@.subrange(
                        plen as int,
                        end as int,
                    ));
                    assert(child_name_of(path@, p@) == Some(name@));
                }
                if name.unicode_len() == 0 {
                    proof {
                        assert(entry_listed(out@, path@, fv[i as int].path));
                    }
                } else {
                    if contains_name(&out, name) {
                        proof {
                            assert(entry_listed(out@, path@, fv[i as int].path));
                        }
                    } else {
                        let mut full = prefix.clone();
                        full.append(name);
                        let meta = match self.index.get_file(full.as_str()) {
                            Some(e) => {
                                let etag = make_entry_etag(e.size, e.modified);
                                LetheMetaData {
                                    len: e.size,
                                    modified: e.modified,
                                    is_dir: e.is_dir,
                                    etag,
                                }
                            },
                            None => {
                                let etag = make_dir_name_etag(name);
                                LetheMetaData { len: 0, modified: 0, is_dir: true, etag }
                            },
                        };
                        proof {
                            lemma_files_map_index(fv, i as int);
                            assert(is_child_name(m, path@, name@));
                            assert(meta_matches_child(m, path@, name@, meta));
                        }
                        let entry = LetheDavEntry { name: name.to_owned(), meta };
                        let ghost ev = entry;
                        out.push(entry);
                        proof {
                            assert(out@ == out0.push(ev));
                            assert(out@[out0.len() as int].name@ == name@);
                            assert(listing_has(out@, name@));
                            assert(entry_listed(out@, path@, fv[i as int].path));
                            assert forall|nm: Seq<char>| #[trigger]
                                listing_has(out0, nm) implies listing_has(out@, nm) by {
                                lemma_listing_has_push(out0, ev, nm);
                            }
                        }
                    }
                }
            }
            proof {
                assert forall|j: int| 0 <= j < i + 1 implies entry_listed(
                    out@,
                    path@,
                    (#[trigger] fv[j]).path,
                ) by {
                    if j < i {
                        assert(entry_listed(out0, path@, fv[j].path));
                        match child_name_of(path@, fv[j].path) {
                            Option::Some(nm) => {
                                if nm.len() > 0 {
                                    assert(listing_has(out0, nm));
                                }
                            },
                            Option::None => {},
                        }
                    }
                }
            }
            i += 1;
        }
        proof {
            assert forall|nm: Seq<char>|
                #[trigger] is_child_name(m, path@, nm) implies listing_has(out@, nm) by {
                let p = choose|p: Seq<char>| #[trigger]
                    m.contains_key(p) && child_name_of(path@, p) == Some(nm);
                lemma_files_map_dom(fv, p);
                let j = choose|j: int| 0 <= j < fv.len() && fv[j].path == p;
                assert(entry_listed(out@, path@, fv[j].path));
            }
        }
        Ok(out)
    }
}

// ---------------------------------------------------------------------------
// Rename.
// ---------------------------------------------------------------------------
/// Whether a rename of `from` moves the entry at `q`: the path itself, or
/// anything strictly below it.
pub open spec fn renames(from: Seq<char>, q: Seq<char>) -> bool {
    q == from || (q.len() >= dir_prefix(from).len() && q.take(dir_prefix(from).len() as int)
        == dir_prefix(from))
}

/// Where the entry at `q` lands: `to` plus the preserved suffix.
pub open spec fn renamed_path(from: Seq<char>, to: Seq<char>, q: Seq<char>) -> Seq<char> {
    to + q.skip(from.len() as int)
}

/// The same entry under a new path.
pub open spec fn with_path(e: FileEntryV, p: Seq<char>) -> FileEntryV {
    FileEntryV { path: p, size: e.size, modified: e.modified, blocks: e.blocks, is_dir: e.is_dir }
}

/// The entries a rename of `from` leaves in place, in order.
pub open spec fn kept_entries(s: Seq<FileEntryV>, from: Seq<char>) -> Seq<FileEntryV>
    decreases s.len(),
{
    if s.len() == 0 {
        Seq::empty()
    } else if renames(from, s.last().path) {
        kept_entries(s.drop_last(), from)
    } else {
        kept_entries(s.drop_last(), from).push(s.last())
    }
}

/// The entries a rename of `from` moves, in order.
pub open spec fn moved_entries(s: Seq<FileEntryV>, from: Seq<char>) -> Seq<FileEntryV>
    decreases s.len(),
{
    if s.len() == 0 {
        Seq::empty()
    } else if renames(from, s.last().path) {
        moved_entries(s.drop_last(), from).push(s.last())
    } else {
        moved_entries(s.drop_last(), from)
    }
}

/// The moved entries reinserted under their new paths, in order; a later
/// insert wins over anything at the target.
pub open spec fn insert_moved(
    base: Map<Seq<char>, FileEntryV>,
    moved: Seq<FileEntryV>,
    from: Seq<char>,
    to: Seq<char>,
) -> Map<Seq<char>, FileEntryV>
    decreases moved.len(),
{
    if moved.len() == 0 {
        base
    } else {
        insert_moved(base, moved.drop_last(), from, to).insert(
            renamed_path(from, to, moved.last().path),
            with_path(moved.last(), renamed_path(from, to, moved.last().path)),
        )
    }
}

/// What the index map becomes when `from` is renamed to `to`.
pub open spec fn rename_result(s: Seq<FileEntryV>, from: Seq<char>, to: Seq<char>) -> Map<
    Seq<char>,
    FileEntryV,
> {
    insert_moved(files_map_of(kept_entries(s, from)), moved_entries(s, from), from, to)
}

proof fn lemma_partition_props(s: Seq<FileEntryV>, from: Seq<char>)
    requires
        unique_paths(s),
    ensures
        unique_paths(kept_entries(s, from)),
        forall|i: int|
            0 <= i < moved_entries(s, from).len() ==> renames(
                from,
                (#[trigger] moved_entries(s, from)[i]).path,
            ) && exists|j: int| 0 <= j < s.len() && (#[trigger] s[j]) == moved_entries(s, from)[i],
        forall|i: int|
            0 <= i < kept_entries(s, from).len() ==> exists|j: int|
                0 <= j < s.len() && (#[trigger] s[j]) == (#[trigger] kept_entries(s, from)[i]),
        forall|k: Seq<char>| #[trigger]
            files_map_of(kept_entries(s, from)).contains_key(k) ==> files_map_of(s).contains_key(
                k,
            ) && files_map_of(kept_entries(s, from)).index(k) == files_map_of(s).index(k)
                && !renames(from, k),
        (moved_entries(s, from).len() == 0 <==> forall|i: int|
            0 <= i < s.len() ==> !renames(from, (#[trigger] s[i]).path)),
    decreases s.len(),
{
    if s.len() > 0 {
        assert(unique_paths(s.drop_last()));
        lemma_partition_props(s.drop_last(), from);
        let k = kept_entries(s, from);
        let kd = kept_entries(s.drop_last(), from);
        let mv = moved_entries(s, from);
        let md = moved_entries(s.drop_last(), from);
        if renames(from, s.last().path) {
            assert(mv == md.push(s.last()));
            assert(mv.drop_last() =~= md);
            assert(mv.last() == s.last());
            assert(renames(from, s[s.len() - 1].path));
        } else {
            assert(mv == md);
            assert(k == kd.push(s.last()));
        }
        if mv.len() == 0 {
            assert forall|i: int| 0 <= i < s.len() implies !renames(
                from,
                (#[trigger] s[i]).path,
            ) by {
                if i < s.len() - 1 {
                    assert(s.drop_last()[i] == s[i]);
                    assert(!renames(from, s.drop_last()[i].path));
                }
            }
        } else {
            if renames(from, s.last().path) {
                assert(renames(from, s[s.len() - 1].path));
            } else {
                assert(md.len() > 0);
                let i0 = choose|i: int|
                    0 <= i < s.drop_last().len() && renames(
                        from,
                        (#[trigger] s.drop_last()[i]).path,
                    );
                assert(s[i0] == s.drop_last()[i0]);
                assert(renames(from, s[i0].path));
            }
        }
        assert forall|i: int| 0 <= i < mv.len() implies renames(from, (#[trigger] mv[i]).path)
            && exists|j: int| 0 <= j < s.len() && (#[trigger] s[j]) == mv[i] by {
            if renames(from, s.last().path) && i == mv.len() - 1 {
                assert(mv[i] == s[s.len() - 1]);
            } else {
                assert(mv[i] == md[i]);
                let j = choose|j: int|
                    0 <= j < s.drop_last().len() && (#[trigger] s.drop_last()[j]) == md[i];
                assert(s[j] == mv[i]);
            }
        }
        assert forall|i: int| 0 <= i < k.len() implies exists|j: int|
            0 <= j < s.len() && (#[trigger] s[j]) == (#[trigger] k[i]) by {
            if !renames(from, s.last().path) && i == k.len() - 1 {
                assert(s[s.len() - 1] == k[i]);
            } else {
                assert(k[i] == kd[i]);
                let j = choose|j: int|
                    0 <= j < s.drop_last().len() && (#[trigger] s.drop_last()[j]) == kd[i];
                assert(s[j] == k[i]);
            }
        }
        if !renames(from, s.last().path) {
            assert(k == kd.push(s.last()));
            assert(k.drop_last() =~= kd);
            assert(k.last() == s.last());
            assert forall|x: int, y: int| 0 <= x < y < k.len() implies k[x].path != k[y].path by {
                if y == k.len() - 1 {
                    assert(k[x] == kd[x]);
                    let j = choose|j: int|
                        0 <= j < s.drop_last().len() && (#[trigger] s.drop_last()[j]) == kd[x];
                    assert(s[j] == kd[x]);
                    assert(s[j].path != s[s.len() - 1].path);
                } else {
                    assert(kd[x].path != kd[y].path);
                }
            }
            assert(files_map_of(k) == files_map_of(kd).insert(s.last().path, s.last()));
            assert forall|q: Seq<char>| #[trigger]
                files_map_of(k).contains_key(q) implies files_map_of(s).contains_key(q)
                && files_map_of(k).index(q) == files_map_of(s).index(q) && !renames(from, q) by {
                lemma_files_map_dom(s, q);
                lemma_files_map_dom(s.drop_last(), q);
                if q == s.last().path {
                    lemma_files_map_index(s, s.len() - 1);
                } else {
                    assert(files_map_of(kd).contains_key(q));
                    let j = choose|j: int|
                        0 <= j < s.drop_last().len() && s.drop_last()[j].path == q;
                    lemma_files_map_index(s, j);
                }
            }
        } else {
            assert(k == kd);
            assert forall|q: Seq<char>| #[trigger]
                files_map_of(k).contains_key(q) implies files_map_of(s).contains_key(q)
                && files_map_of(k).index(q) == files_map_of(s).index(q) && !renames(from, q) by {
                lemma_files_map_dom(s.drop_last(), q);
                let j = choose|j: int| 0 <= j < s.drop_last().len() && s.drop_last()[j].path == q;
                lemma_files_map_index(s, j);
            }
        }
    }
}

/// Completeness of the partition: every moved entry of `s` appears in
/// `moved_entries`, every kept one in `kept_entries`, and the moved list
/// keeps paths unique.
proof fn lemma_partition_complete(s: Seq<FileEntryV>, from: Seq<char>)
    requires
        unique_paths(s),
    ensures
        unique_paths(moved_entries(s, from)),
        forall|j: int|
            0 <= j < s.len() && renames(from, (#[trigger] s[j]).path) ==> exists|i: int|
                0 <= i < moved_entries(s, from).len() && (#[trigger] moved_entries(s, from)[i])
                    == s[j],
        forall|j: int|
            0 <= j < s.len() && !renames(from, (#[trigger] s[j]).path) ==> exists|i: int|
                0 <= i < kept_entries(s, from).len() && (#[trigger] kept_entries(s, from)[i])
                    == s[j],
    decreases s.len(),
{
    if s.len() > 0 {
        assert(unique_paths(s.drop_last()));
        lemma_partition_complete(s.drop_last(), from);
        lemma_partition_props(s.drop_last(), from);
        let k = kept_entries(s, from);
        let kd = kept_entries(s.drop_last(), from);
        let mv = moved_entries(s, from);
        let md = moved_entries(s.drop_last(), from);
        if renames(from, s.last().path) {
            assert(mv == md.push(s.last()));
            assert(mv.drop_last() =~= md);
            assert(k == kd);
        } else {
            assert(mv == md);
            assert(k == kd.push(s.last()));
            assert(k.drop_last() =~= kd);
        }
        assert forall|j: int|
            0 <= j < s.len() && renames(from, (#[trigger] s[j]).path) implies exists|i: int|
            0 <= i < mv.len() && (#[trigger] mv[i]) == s[j] by {
            if j == s.len() - 1 {
                assert(mv[mv.len() - 1] == s[j]);
            } else {
                assert(s.drop_last()[j] == s[j]);
                let i = choose|i: int| 0 <= i < md.len() && (#[trigger] md[i]) == s.drop_last()[j];
                assert(mv[i] == md[i]);
            }
        }
        assert forall|j: int|
            0 <= j < s.len() && !renames(from, (#[trigger] s[j]).path) implies exists|i: int|
            0 <= i < k.len() && (#[trigger] k[i]) == s[j] by {
            if j == s.len() - 1 {
                assert(k[k.len() - 1] == s[j]);
            } else {
                assert(s.drop_last()[j] == s[j]);
                let i = choose|i: int| 0 <= i < kd.len() && (#[trigger] kd[i]) == s.drop_last()[j];
                assert(k[i] == kd[i]);
            }
        }
        assert forall|x: int, y: int| 0 <= x < y < mv.len() implies mv[x].path != mv[y].path by {
            if renames(from, s.last().path) && y == mv.len() - 1 {
                assert(mv[x] == md[x]);
                let j = choose|j: int|
                    0 <= j < s.drop_last().len() && (#[trigger] s.drop_last()[j]) == md[x];
                assert(s[j] == mv[x]);
                assert(s[j].path != s[s.len() - 1].path);
            } else {
                assert(mv[x] == md[x] && mv[y] == md[y]);
            }
        }
    }
}

proof fn lemma_concat_cancel(a: Seq<char>, x: Seq<char>, y: Seq<char>)
    requires
        a + x == a + y,
    ensures
        x == y,
{
    assert(x =~= (a + x).skip(a.len() as int));
    assert(y =~= (a + y).skip(a.len() as int));
}

/// Distinct moved paths land on distinct target paths.
pub proof fn lemma_renamed_injective(from: Seq<char>, to: Seq<char>, q1: Seq<char>, q2: Seq<char>)
    requires
        renames(from, q1),
        renames(from, q2),
        renamed_path(from, to, q1) == renamed_path(from, to, q2),
    ensures
        q1 == q2,
{
    lemma_concat_cancel(to, q1.skip(from.len() as int), q2.skip(from.len() as int));
    assert(q1.take(from.len() as int) =~= from) by {
        if q1 != from {
            assert(q1.take(dir_prefix(from).len() as int) == dir_prefix(from));
            assert forall|i: int| 0 <= i < from.len() implies q1[i] == from[i] by {
                assert(q1.take(dir_prefix(from).len() as int)[i] == dir_prefix(from)[i]);
            }
        }
    }
    assert(q2.take(from.len() as int) =~= from) by {
        if q2 != from {
            assert(q2.take(dir_prefix(from).len() as int) == dir_prefix(from));
            assert forall|i: int| 0 <= i < from.len() implies q2[i] == from[i] by {
                assert(q2.take(dir_prefix(from).len() as int)[i] == dir_prefix(from)[i]);
            }
        }
    }
    assert(q1 =~= q1.take(from.len() as int) + q1.skip(from.len() as int));
    assert(q2 =~= q2.take(from.len() as int) + q2.skip(from.len() as int));
    assert(q1 =~= q2);
}

/// What folding the moved entries into a base map yields: the base keys
/// plus one target key per moved entry, carrying the moved entry under its
/// new path; base keys that are not targets keep their value.
proof fn lemma_insert_moved_props(
    base: Map<Seq<char>, FileEntryV>,
    moved: Seq<FileEntryV>,
    from: Seq<char>,
    to: Seq<char>,
)
    requires
        forall|x: int| 0 <= x < moved.len() ==> renames(from, (#[trigger] moved[x]).path),
        unique_paths(moved),
    ensures
        forall|k: Seq<char>|
            #[trigger] insert_moved(base, moved, from, to).contains_key(k) <==> (base.contains_key(
                k,
            ) || exists|x: int|
                0 <= x < moved.len() && renamed_path(from, to, (#[trigger] moved[x]).path) == k),
        forall|x: int|
            0 <= x < moved.len() ==> insert_moved(base, moved, from, to).contains_key(
                renamed_path(from, to, (#[trigger] moved[x]).path),
            ) && insert_moved(base, moved, from, to).index(
                renamed_path(from, to, (#[trigger] moved[x]).path),
            ) == with_path(moved[x], renamed_path(from, to, moved[x].path)),
        forall|k: Seq<char>|
            #[trigger] base.contains_key(k) && !(exists|x: int|
                0 <= x < moved.len() && renamed_path(from, to, (#[trigger] moved[x]).path) == k)
                ==> insert_moved(base, moved, from, to).contains_key(k) && insert_moved(
                base,
                moved,
                from,
                to,
            ).index(k) == base.index(k),
    decreases moved.len(),
{
    if moved.len() > 0 {
        assert(unique_paths(moved.drop_last()));
        lemma_insert_moved_props(base, moved.drop_last(), from, to);
        let m0 = insert_moved(base, moved.drop_last(), from, to);
        let last = moved.last();
        let tk = renamed_path(from, to, last.path);
        let m = insert_moved(base, moved, from, to);
        assert(m == m0.insert(tk, with_path(last, tk)));
        assert forall|k: Seq<char>| #[trigger] m.contains_key(k) implies (base.contains_key(k)
            || exists|x: int|
            0 <= x < moved.len() && renamed_path(from, to, (#[trigger] moved[x]).path) == k) by {
            if k == tk {
                assert(renamed_path(from, to, moved[moved.len() - 1].path) == k);
            } else {
                assert(m0.contains_key(k));
                if !base.contains_key(k) {
                    let x = choose|x: int|
                        0 <= x < moved.drop_last().len() && renamed_path(
                            from,
                            to,
                            (#[trigger] moved.drop_last()[x]).path,
                        ) == k;
                    assert(renamed_path(from, to, moved[x].path) == k);
                }
            }
        }
        assert forall|k: Seq<char>|
            (base.contains_key(k) || exists|x: int|
                0 <= x < moved.len() && renamed_path(from, to, (#[trigger] moved[x]).path)
                    == k) implies #[trigger] m.contains_key(k) by {
            if k != tk {
                if !base.contains_key(k) {
                    let x = choose|x: int|
                        0 <= x < moved.len() && renamed_path(from, to, (#[trigger] moved[x]).path)
                            == k;
                    assert(x < moved.len() - 1);
                    assert(moved.drop_last()[x] == moved[x]);
                    assert(m0.contains_key(k));
                } else {
                    assert(m0.contains_key(k));
                }
            }
        }
        assert forall|x: int| 0 <= x < moved.len() implies m.contains_key(
            renamed_path(from, to, (#[trigger] moved[x]).path),
        ) && m.index(renamed_path(from, to, (#[trigger] moved[x]).path)) == with_path(
            moved[x],
            renamed_path(from, to, moved[x].path),
        ) by {
            let tx = renamed_path(from, to, moved[x].path);
            if x == moved.len() - 1 {
                assert(m.index(tx) == with_path(last, tk));
            } else {
                assert(moved.drop_last()[x] == moved[x]);
                if tx == tk {
                    lemma_renamed_injective(from, to, moved[x].path, last.path);
                    assert(moved[x].path == moved[moved.len() - 1].path);
                    assert(false);
                }
                assert(m.index(tx) == m0.index(tx));
            }
        }
        assert forall|k: Seq<char>|
            #[trigger] base.contains_key(k) && !(exists|x: int|
                0 <= x < moved.len() && renamed_path(from, to, (#[trigger] moved[x]).path)
                    == k) implies m.contains_key(k) && m.index(k) == base.index(k) by {
            assert(renamed_path(from, to, moved[moved.len() - 1].path) != k);
            assert(k != tk);
            assert(!(exists|x: int|
                0 <= x < moved.drop_last().len() && renamed_path(
                    from,
                    to,
                    (#[trigger] moved.drop_last()[x]).path,
                ) == k)) by {
                if exists|x: int|
                    0 <= x < moved.drop_last().len() && renamed_path(
                        from,
                        to,
                        (#[trigger] moved.drop_last()[x]).path,
                    ) == k {
                    let x = choose|x: int|
                        0 <= x < moved.drop_last().len() && renamed_path(
                            from,
                            to,
                            (#[trigger] moved.drop_last()[x]).path,
                        ) == k;
                    assert(renamed_path(from, to, moved[x].path) == k);
                }
            }
        }
    }
}

/// Law of subtree rename, declaratively: renaming `from` to `to` moves
/// exactly the entries at or strictly below `from` to their target path
/// with every other field preserved; entries elsewhere survive unchanged
/// unless a moved entry lands on them; nothing else exists in the result.
pub proof fn lemma_rename_result_props(s: Seq<FileEntryV>, from: Seq<char>, to: Seq<char>)
    requires
        unique_paths(s),
    ensures
        forall|q: Seq<char>|
            (#[trigger] files_map_of(s).contains_key(q)) && renames(from, q)
                ==> rename_result(s, from, to).contains_key(renamed_path(from, to, q))
                && rename_result(s, from, to).index(renamed_path(from, to, q)) == with_path(
                files_map_of(s).index(q),
                renamed_path(from, to, q),
            ),
        forall|k: Seq<char>|
            #[trigger] rename_result(s, from, to).contains_key(k) ==> (files_map_of(
                s,
            ).contains_key(k) && !renames(from, k)) || exists|q: Seq<char>|
                (#[trigger] files_map_of(s).contains_key(q)) && renames(from, q) && renamed_path(
                    from,
                    to,
                    q,
                ) == k,
        forall|k: Seq<char>|
            (#[trigger] files_map_of(s).contains_key(k)) && !renames(from, k) && !(exists|
                q: Seq<char>,
            |
                (#[trigger] files_map_of(s).contains_key(q)) && renames(from, q) && renamed_path(
                    from,
                    to,
                    q,
                ) == k) ==> rename_result(s, from, to).contains_key(k) && rename_result(
                s,
                from,
                to,
            ).index(k) == files_map_of(s).index(k),
{
    lemma_partition_props(s, from);
    lemma_partition_complete(s, from);
    let mv = moved_entries(s, from);
    let base = files_map_of(kept_entries(s, from));
    let r = rename_result(s, from, to);
    assert forall|x: int| 0 <= x < mv.len() implies renames(from, (#[trigger] mv[x]).path)
        && files_map_of(s).contains_key(mv[x].path) && files_map_of(s).index(mv[x].path)
        == mv[x] by {
        let j = choose|j: int| 0 <= j < s.len() && (#[trigger] s[j]) == mv[x];
        lemma_files_map_index(s, j);
    }
    lemma_insert_moved_props(base, mv, from, to);
    // Moved entries land at their targets with their new path.
    assert forall|q: Seq<char>|
        (#[trigger] files_map_of(s).contains_key(q)) && renames(from, q) implies r.contains_key(
        renamed_path(from, to, q),
    ) && r.index(renamed_path(from, to, q)) == with_path(
        files_map_of(s).index(q),
        renamed_path(from, to, q),
    ) by {
        lemma_files_map_dom(s, q);
        let j = choose|j: int| 0 <= j < s.len() && s[j].path == q;
        lemma_files_map_index(s, j);
        let x = choose|x: int| 0 <= x < mv.len() && (#[trigger] mv[x]) == s[j];
    }
    // Everything in the result is accounted for.
    assert forall|k: Seq<char>| #[trigger] r.contains_key(k) implies (files_map_of(
        s,
    ).contains_key(k) && !renames(from, k)) || exists|q: Seq<char>|
        (#[trigger] files_map_of(s).contains_key(q)) && renames(from, q) && renamed_path(
            from,
            to,
            q,
        ) == k by {
        if base.contains_key(k) {
        } else {
            let x = choose|x: int|
                0 <= x < mv.len() && renamed_path(from, to, (#[trigger] mv[x]).path) == k;
            assert(files_map_of(s).contains_key(mv[x].path) && renames(from, mv[x].path)
                && renamed_path(from, to, mv[x].path) == k);
        }
    }
    // Untouched entries survive unless shadowed by a target.
    assert forall|k: Seq<char>|
        (#[trigger] files_map_of(s).contains_key(k)) && !renames(from, k) && !(exists|
            q: Seq<char>,
        |
            (#[trigger] files_map_of(s).contains_key(q)) && renames(from, q) && renamed_path(
                from,
                to,
                q,
            ) == k) implies r.contains_key(k) && r.index(k) == files_map_of(s).index(k) by {
        lemma_files_map_dom(s, k);
        let j = choose|j: int| 0 <= j < s.len() && s[j].path == k;
        lemma_files_map_index(s, j);
        let i = choose|i: int|
            0 <= i < kept_entries(s, from).len() && (#[trigger] kept_entries(s, from)[i]) == s[j];
        lemma_files_map_index(kept_entries(s, from), i);
        assert(base.contains_key(k));
        assert(!(exists|x: int|
            0 <= x < mv.len() && renamed_path(from, to, (#[trigger] mv[x]).path) == k)) by {
            if exists|x: int|
                0 <= x < mv.len() && renamed_path(from, to, (#[trigger] mv[x]).path) == k {
                let x = choose|x: int|
                    0 <= x < mv.len() && renamed_path(from, to, (#[trigger] mv[x]).path) == k;
                assert(files_map_of(s).contains_key(mv[x].path) && renames(from, mv[x].path)
                    && renamed_path(from, to, mv[x].path) == k);
            }
        }
    }
}

impl ActiveVault {
    /// Moves the entry at `from`, and every entry strictly below it, under
    /// `to` with the matching suffix preserved; an entry already at a
    /// target path is overwritten. Persists the index. Fails with
    /// `NotFound` when nothing is at or below `from`.
    #[verifier::rlimit(100)]
    pub fn rename(&mut self, from: &str, to: &str) -> (r: Result<(), VaultError>)
        requires
            old(self).wf(),
            old(self).index.data@.revision < u64::MAX,
        ensures
            match r {
                Ok(()) => {
                    &&& final (self).wf()
                    &&& moved_entries(
                        entries_view(old(self).index.data.files@),
                        from@,
                    ).len() > 0
                    &&& final (self).fmap() == rename_result(
                        entries_view(old(self).index.data.files@),
                        from@,
                        to@,
                    )
                    &&& final (self).index.data@.revision == old(self).index.data@.revision + 1
                    &&& replicas_synced(*final (self))
                    &&& final (self).storage@ == old(self).storage@
                },
                Err(e) => {
                    &&& (e == VaultError::NotFound || e == VaultError::EncryptionError)
                    &&& (e == VaultError::NotFound <==> moved_entries(
                        entries_view(old(self).index.data.files@),
                        from@,
                    ).len() == 0)
                    &&& (e == VaultError::NotFound ==> {
                        &&& final (self).index.data@ == old(self).index.data@
                        &&& final (self).storage == old(self).storage
                        &&& final (self).replicas@ == old(self).replicas@
                    })
                },
            },
    {
        let ghost fv = entries_view(self.index.data.files@);
        let ghost m = self.fmap();
        let from_prefix = Self::dir_prefix_string(from);
        let from_len = from.unicode_len();
        let n = self.index.data.files.len();
        let mut kept: Vec<FileEntry> = Vec::new();
        let mut moved: Vec<FileEntry> = Vec::new();
        let mut i: usize = 0;
        while i < n
            invariant
                i <= n,
                n == self.index.data.files@.len(),
                fv == entries_view(self.index.data.files@),
                from_prefix@ == dir_prefix(from@),
                from_len == from@.len(),
                entries_view(kept@) == kept_entries(fv.take(i as int), from@),
                entries_view(moved@) == moved_entries(fv.take(i as int), from@),
            decreases n - i,
        {
            let e = &self.index.data.files[i];
            proof {
                assert(fv[i as int] == e@);
                let t = fv.take(i as int + 1);
                assert(t.drop_last() =~= fv.take(i as int));
                assert(t.last() == fv[i as int]);
            }
            let is_moved = str_eq(e.path.as_str(), from) || str_starts_with(
                e.path.as_str(),
                from_prefix.as_str(),
            );
            proof {
                assert(is_moved == renames(from@, fv[i as int].path));
            }
            if is_moved {
                moved.push(e.clone());
                proof {
                    assert(entries_view(moved@).drop_last() =~= moved_entries(
                        fv.take(i as int),
                        from@,
                    ));
                    assert(entries_view(moved@).last() == fv[i as int]);
                    assert(entries_view(moved@) =~= moved_entries(fv.take(i as int + 1), from@));
                    assert(entries_view(kept@) =~= kept_entries(fv.take(i as int + 1), from@));
                }
            } else {
                kept.push(e.clone());
                proof {
                    assert(entries_view(kept@).drop_last() =~= kept_entries(
                        fv.take(i as int),
                        from@,
                    ));
                    assert(entries_view(kept@).last() == fv[i as int]);
                    assert(entries_view(kept@) =~= kept_entries(fv.take(i as int + 1), from@));
                    assert(entries_view(moved@) =~= moved_entries(fv.take(i as int + 1), from@));
                }
            }
            i += 1;
        }
        proof {
            assert(fv.take(n as int) =~= fv);
            lemma_partition_props(fv, from@);
        }
        if moved.len() == 0 {
            return Err(VaultError::NotFound);
        }
        let ghost mv = moved_entries(fv, from@);
        proof {
            assert forall|x: int|
                0 <= x < mv.len() implies renames(from@, (#[trigger] mv[x]).path) && entry_ok(
                mv[x],
                old(self).storage@,
                old(self).key@,
            ) by {
                let j = choose|j: int| 0 <= j < fv.len() && (#[trigger] fv[j]) == mv[x];
                lemma_files_map_index(fv, j);
                assert(old(self).fmap().contains_key(fv[j].path));
                assert(old(self).fmap().index(fv[j].path) == fv[j]);
            }
        }
        self.index.data.files = kept;
        proof {
            assert(self.index.data@.file_map() == files_map_of(kept_entries(fv, from@)));
            lemma_wf_after_index_change(*old(self), *self);
        }
        let nm = moved.len();
        let mut j: usize = 0;
        while j < nm
            invariant
                j <= nm,
                nm == moved@.len(),
                entries_view(moved@) == mv,
                self.wf(),
                self.storage == old(self).storage,
                self.key == old(self).key,
                self.replicas@ == old(self).replicas@,
                self.index.data@.version == old(self).index.data@.version,
                self.index.data@.revision == old(self).index.data@.revision,
                self.index.data@.salt == old(self).index.data@.salt,
                from_len == from@.len(),
                forall|x: int|
                    0 <= x < mv.len() ==> renames(from@, (#[trigger] mv[x]).path) && entry_ok(
                        mv[x],
                        old(self).storage@,
                        old(self).key@,
                    ),
                self.fmap() == insert_moved(
                    files_map_of(kept_entries(fv, from@)),
                    mv.take(j as int),
                    from@,
                    to@,
                ),
            decreases nm - j,
        {
            let ec = moved[j].clone();
            proof {
                assert(ec@ == mv[j as int]);
                assert(renames(from@, ec@.path));
                let t = mv.take(j as int + 1);
                assert(t.drop_last() =~= mv.take(j as int));
                assert(t.last() == mv[j as int]);
            }
            let p_len = ec.path.as_str().unicode_len();
            let suffix = ec.path.as_str().substring_char(from_len, p_len);
            let mut newp = to.to_owned();
            newp.append(suffix);
            proof {
                assert(newp@ =~= renamed_path(from@, to@, ec@.path));
            }
            let ghost pre_vault = *self;
            let entry2 = FileEntry {
                path: newp,
                size: ec.size,
                modified: ec.modified,
                blocks: ec.blocks,
                is_dir: ec.is_dir,
            };
            proof {
                assert(entry2@ == with_path(mv[j as int], renamed_path(from@, to@, mv[j as int].path)));
            }
            crate::index::upsert(&mut self.index.data.files, entry2);
            proof {
                assert(self.fmap() == insert_moved(
                    files_map_of(kept_entries(fv, from@)),
                    mv.take(j as int + 1),
                    from@,
                    to@,
                ));
                assert(entry_ok(entry2@, self.storage@, self.key@));
                lemma_wf_after_index_change(pre_vault, *self);
            }
            j += 1;
        }
        proof {
            assert(mv.take(nm as int) =~= mv);
        }
        self.persist()
    }
}

/// Every replica slot decrypts and decodes to the session's index.
pub open spec fn replicas_synced(v: ActiveVault) -> bool {
    &&& v.replicas@.len() == REPLICA_COUNT
    &&& forall|i: int|
        0 <= i < REPLICA_COUNT ==> replica_index(#[trigger] v.replicas@[i]@, v.key@) == Some(
            v.index.data@,
        )
}

/// Index changes that leave every entry of the new map either unchanged
/// from the old map or consistent by construction preserve session
/// well-formedness; here: when the new map's entries all satisfy
/// `entry_ok`, established from the old session plus the change.
proof fn lemma_wf_after_index_change(pre: ActiveVault, post: ActiveVault)
    requires
        pre.wf(),
        post.storage == pre.storage,
        post.key@ == pre.key@,
        post.index.data@.wf(),
        forall|p: Seq<char>| #[trigger]
            post.fmap().contains_key(p) ==> (pre.fmap().contains_key(p) && post.fmap().index(p)
                == pre.fmap().index(p)) || entry_ok(post.fmap().index(p), post.storage@, post.key@),
    ensures
        post.wf(),
{
    let m = post.index.data@.file_map();
    assert(post.fmap() == m);
    assert forall|p: Seq<char>| #[trigger] m.contains_key(p) implies entry_ok(
        m.index(p),
        post.storage@,
        post.key@,
    ) by {
        assert(post.fmap().contains_key(p));
        if pre.fmap().contains_key(p) && post.fmap().index(p) == pre.fmap().index(p) {
            assert(pre.index.data@.file_map().contains_key(p));
            assert(entry_ok(pre.index.data@.file_map().index(p), pre.storage@, pre.key@));
        }
    }
}


// ---------------------------------------------------------------------------
// File handles.
// ---------------------------------------------------------------------------
/// A seek target: absolute, relative to the end, or relative to the
/// current position.
pub enum SeekFrom {
    Start(u64),
    End(i64),
    Current(i64),
}

/// The tag of a handle's in-memory metadata, from its current size.
pub open spec fn etag_mem(len: u64) -> Seq<char> {
    "\"mem-"@ + u64_hex_digits(len) + seq!['"']
}

/// Per-open-file state: the block list and size seeded for reading, the
/// read cursor, and the buffered write state.
#[derive(Debug)]
pub struct FileHandle {
    pub path: String,
    pub read_blocks: Vec<String>,
    pub file_size: u64,
    pub pos: u64,
    pub write_buffer: Vec<u8>,
    pub new_block_ids: Vec<String>,
    pub written_len: u64,
    pub is_dirty: bool,
}

impl FileHandle {
    /// The readable content behind the handle.
    pub open spec fn read_content(self, v: ActiveVault) -> Seq<u8> {
        blocks_content(v.storage@, v.key@, strs_view(self.read_blocks@))
    }

    /// Everything written through the handle so far: flushed chunks, then
    /// the buffered tail.
    pub open spec fn written_content(self, v: ActiveVault) -> Seq<u8> {
        blocks_content(v.storage@, v.key@, strs_view(self.new_block_ids@)) + self.write_buffer@
    }

    /// Handle well-formedness against a session: both block lists decode,
    /// and the tracked lengths are truthful.
    pub open spec fn wf(self, v: ActiveVault) -> bool {
        &&& blocks_ok(v.storage@, v.key@, strs_view(self.read_blocks@))
        &&& self.read_content(v).len() == self.file_size
        &&& blocks_ok(v.storage@, v.key@, strs_view(self.new_block_ids@))
        &&& self.written_content(v).len() == self.written_len
        &&& (!self.is_dirty ==> self.write_buffer@.len() == 0 && self.new_block_ids@.len() == 0)
    }
}

/// Clones a list of block ids.
fn clone_strings(v: &Vec<String>) -> (r: Vec<String>)
    ensures
        strs_view(r@) == strs_view(v@),
{
    let mut out: Vec<String> = Vec::new();
    let mut i: usize = 0;
    while i < v.len()
        invariant
            i <= v@.len(),
            out@.len() == i,
            forall|j: int| 0 <= j < i ==> out@[j]@ == v@[j]@,
        decreases v@.len() - i,
    {
        out.push(v[i].clone());
        i += 1;
    }
    proof {
        assert(strs_view(out@) =~= strs_view(v@));
    }
    out
}

/// The stores of two sessions agree on every id the first one holds.
pub open spec fn store_extends(pre: ActiveVault, post: ActiveVault) -> bool {
    forall|k: Seq<char>| #[trigger]
        pre.storage@.contains_key(k) ==> post.storage@.contains_key(k) && post.storage@.index(k)
            == pre.storage@.index(k)
}

/// A store extension preserves session well-formedness when the index is
/// untouched.
proof fn lemma_wf_store_grow(pre: ActiveVault, post: ActiveVault)
    requires
        pre.wf(),
        post.index == pre.index,
        post.key@ == pre.key@,
        post.storage.wf(),
        store_extends(pre, post),
    ensures
        post.wf(),
{
    let m = post.index.data@.file_map();
    assert forall|p: Seq<char>| #[trigger] m.contains_key(p) implies entry_ok(
        m.index(p),
        post.storage@,
        post.key@,
    ) by {
        assert(pre.index.data@.file_map().contains_key(p));
        let e = pre.index.data@.file_map().index(p);
        assert(entry_ok(e, pre.storage@, pre.key@));
        if !e.is_dir {
            lemma_blocks_content_agree(pre.storage@, post.storage@, pre.key@, e.blocks);
        }
    }
}

impl ActiveVault {
    /// Opens a path. With `write && truncate`, or when nothing exists at
    /// the path and write access is requested, the handle starts empty and
    /// the content is fully replaced on flush. Otherwise an existing entry
    /// seeds the handle for reading. Directories cannot be opened;
    /// a missing path without write access is `NotFound`.
    pub fn open(&self, path: &str, write: bool, truncate: bool) -> (r: Result<
        FileHandle,
        VaultError,
    >)
        requires
            self.wf(),
        ensures
            match r {
                Ok(h) => {
                    &&& h.wf(*self)
                    &&& h.path@ == path@
                    &&& h.pos == 0
                    &&& h.write_buffer@.len() == 0
                    &&& h.new_block_ids@.len() == 0
                    &&& h.written_len == 0
                    &&& !h.is_dirty
                    &&& if (write && truncate) || !self.fmap().contains_key(path@) {
                        h.read_blocks@.len() == 0 && h.file_size == 0
                    } else {
                        strs_view(h.read_blocks@) == self.fmap().index(path@).blocks
                            && h.file_size == self.fmap().index(path@).size
                    }
                    &&& (self.fmap().contains_key(path@) ==> !self.fmap().index(path@).is_dir)
                },
                Err(e) => {
                    &&& (e == VaultError::Forbidden <==> self.fmap().contains_key(path@)
                        && self.fmap().index(path@).is_dir)
                    &&& (e == VaultError::NotFound <==> !self.fmap().contains_key(path@)
                        && !write)
                    &&& (e == VaultError::Forbidden || e == VaultError::NotFound)
                },
            },
    {
        match self.index.get_file(path) {
            Some(e) => {
                if e.is_dir {
                    return Err(VaultError::Forbidden);
                }
                if write && truncate {
                    Ok(
                        FileHandle {
                            path: path.to_owned(),
                            read_blocks: Vec::new(),
                            file_size: 0,
                            pos: 0,
                            write_buffer: Vec::new(),
                            new_block_ids: Vec::new(),
                            written_len: 0,
                            is_dirty: false,
                        },
                    )
                } else {
                    let read_blocks = clone_strings(&e.blocks);
                    proof {
                        assert(entry_ok(
                            self.fmap().index(path@),
                            self.storage@,
                            self.key@,
                        ));
                    }
                    Ok(
                        FileHandle {
                            path: path.to_owned(),
                            read_blocks,
                            file_size: e.size,
                            pos: 0,
                            write_buffer: Vec::new(),
                            new_block_ids: Vec::new(),
                            written_len: 0,
                            is_dirty: false,
                        },
                    )
                }
            },
            None => {
                if write {
                    Ok(
                        FileHandle {
                            path: path.to_owned(),
                            read_blocks: Vec::new(),
                            file_size: 0,
                            pos: 0,
                            write_buffer: Vec::new(),
                            new_block_ids: Vec::new(),
                            written_len: 0,
                            is_dirty: false,
                        },
                    )
                } else {
                    Err(VaultError::NotFound)
                }
            },
        }
    }
}

impl FileHandle {
    /// The size `seek` measures against: the seeded size plus any buffered
    /// but unflushed bytes.
    pub fn total_size(&self) -> (r: u64)
        requires
            self.file_size + self.write_buffer@.len() <= u64::MAX,
        ensures
            r == self.file_size + self.write_buffer@.len(),
    {
        self.file_size + self.write_buffer.len() as u64
    }

    /// Reads up to `count` bytes at the cursor from the handle's block
    /// list, decrypting blocks one at a time until enough bytes are in
    /// hand, and advances the cursor by the bytes returned. Reading at or
    /// past end of file returns an empty buffer, never an error.
    pub fn read_bytes(&mut self, v: &ActiveVault, count: usize) -> (r: Result<Vec<u8>, VaultError>)
        requires
            v.wf(),
            old(self).wf(*v),
        ensures
            final (self).wf(*v),
            final (self).path == old(self).path,
            final (self).read_blocks == old(self).read_blocks,
            final (self).file_size == old(self).file_size,
            final (self).write_buffer == old(self).write_buffer,
            final (self).new_block_ids == old(self).new_block_ids,
            final (self).written_len == old(self).written_len,
            final (self).is_dirty == old(self).is_dirty,
            match r {
                Ok(b) => {
                    let c = old(self).read_content(*v);
                    let start = if old(self).pos <= c.len() {
                        old(self).pos as int
                    } else {
                        c.len() as int
                    };
                    let end = if old(self).pos + count <= c.len() {
                        old(self).pos + count
                    } else {
                        c.len() as int
                    };
                    b@ == c.subrange(start, end) && final (self).pos == old(self).pos + (end
                        - start)
                },
                Err(_) => false,
            },
    {
        let ghost bl = strs_view(self.read_blocks@);
        let ghost c = self.read_content(*v);
        let start: u64 = if self.pos <= self.file_size {
            self.pos
        } else {
            self.file_size
        };
        let room: u64 = self.file_size - start;
        let take_n: u64 = if (count as u64) <= room {
            count as u64
        } else {
            room
        };
        let end: u64 = start + take_n;
        let n = self.read_blocks.len();
        let mut full: Vec<u8> = Vec::new();
        let mut i: usize = 0;
        while i < n && (full.len() as u64) < end
            invariant
                i <= n,
                n == self.read_blocks@.len(),
                bl == strs_view(self.read_blocks@),
                c == blocks_content(v.storage@, v.key@, bl),
                v.wf(),
                blocks_ok(v.storage@, v.key@, bl),
                full@ == blocks_content(v.storage@, v.key@, bl.take(i as int)),
                end <= c.len(),
            decreases n - i,
        {
            proof {
                let t = bl.take(i as int + 1);
                assert(t.drop_last() =~= bl.take(i as int));
                assert(t.last() == bl[i as int]);
                lemma_blocks_content_snoc(v.storage@, v.key@, t);
            }
            let p = match v.storage.read_block(self.read_blocks[i].as_str(), &v.key) {
                Ok(p) => p,
                Err(_) => {
                    // Unreachable: every block of a well-formed handle
                    // exists in the store and decodes under the session
                    // key.
                    proof {
                        assert(false);
                    }
                    return Err(VaultError::CorruptBlock);
                },
            };
            proof {
                assert(payload_of(v.storage@, v.key@, bl[i as int]) == p@);
            }
            let mut tail = p;
            full.append(&mut tail);
            i += 1;
        }
        proof {
            lemma_blocks_content_split(v.storage@, v.key@, bl, i as int);
            if i == n {
                assert(bl.take(n as int) =~= bl);
            }
            assert(end <= full@.len());
            assert forall|j: int| 0 <= j < full@.len() implies c[j] == full@[j] by {}
            assert(c.subrange(start as int, end as int) =~= full@.subrange(
                start as int,
                end as int,
            ));
        }
        let fl = full.len();
        proof {
            assert(end <= fl as u64);
        }
        let sl = vstd::slice::slice_subrange(full.as_slice(), start as usize, end as usize);
        let out = vstd::slice::slice_to_vec(sl);
        self.pos = self.pos + take_n;
        Ok(out)
    }

    /// Flushes the buffered bytes as one new block. Internal: called when
    /// the buffer crosses the threshold and at the final flush.
    fn flush_chunk(&mut self, v: &mut ActiveVault) -> (r: Result<(), VaultError>)
        requires
            old(v).wf(),
            old(self).wf(*old(v)),
        ensures
            final (v).wf(),
            final (v).index == old(v).index,
            final (v).replicas == old(v).replicas,
            final (v).key == old(v).key,
            store_extends(*old(v), *final (v)),
            final (self).wf(*final (v)),
            final (self).written_content(*final (v)) == old(self).written_content(*old(v)),
            final (self).read_content(*final (v)) == old(self).read_content(*old(v)),
            final (self).path == old(self).path,
            final (self).read_blocks == old(self).read_blocks,
            final (self).file_size == old(self).file_size,
            final (self).pos == old(self).pos,
            final (self).written_len == old(self).written_len,
            final (self).is_dirty == old(self).is_dirty,
            old(self).write_buffer@.len() == 0 ==> r is Ok && *final (self) == *old(self)
                && *final (v) == *old(v),
            match r {
                Ok(()) => final (self).write_buffer@.len() == 0,
                Err(e) => e == VaultError::EncryptionError && final (self).write_buffer == old(
                    self,
                ).write_buffer && final (v).storage@ == old(v).storage@,
            },
    {
        if self.write_buffer.len() == 0 {
            return Ok(());
        }
        let ghost ids0 = strs_view(self.new_block_ids@);
        let ghost buf0 = self.write_buffer@;
        let id = match v.storage.write_block(self.write_buffer.as_slice(), &v.key) {
            Ok(id) => id,
            Err(e) => {
                proof {
                    lemma_wf_store_grow(*old(v), *v);
                }
                return Err(e);
            },
        };
        proof {
            lemma_wf_store_grow(*old(v), *v);
            lemma_blocks_content_agree(old(v).storage@, v.storage@, v.key@, ids0);
            lemma_blocks_content_agree(
                old(v).storage@,
                v.storage@,
                v.key@,
                strs_view(self.read_blocks@),
            );
        }
        self.new_block_ids.push(id);
        self.write_buffer = Vec::new();
        proof {
            let ids1 = strs_view(self.new_block_ids@);
            assert(ids1.drop_last() =~= ids0);
            lemma_blocks_content_snoc(v.storage@, v.key@, ids1);
            assert(payload_of(v.storage@, v.key@, ids1.last()) == buf0);
            assert forall|j: int|
                0 <= j < ids1.len() implies v.storage@.contains_key(#[trigger] ids1[j])
                && block_payload(v.storage@.index(ids1[j]), v.key@) is Some by {
                if j < ids1.len() - 1 {
                    assert(ids1[j] == ids0[j]);
                }
            }
            assert(self.written_content(*v) =~= old(self).written_content(*old(v)));
        }
        Ok(())
    }

    /// Appends bytes to the handle's write buffer and marks it dirty; once
    /// the buffer reaches [`BLOCK_SIZE`] it is flushed as one new block,
    /// keeping memory bounded regardless of total file size.
    pub fn write_bytes(&mut self, v: &mut ActiveVault, buf: &[u8]) -> (r: Result<(), VaultError>)
        requires
            old(v).wf(),
            old(self).wf(*old(v)),
            old(self).written_len + buf@.len() <= u64::MAX,
        ensures
            final (v).wf(),
            final (v).index == old(v).index,
            final (v).replicas == old(v).replicas,
            final (v).key == old(v).key,
            store_extends(*old(v), *final (v)),
            final (self).wf(*final (v)),
            final (self).written_content(*final (v)) == old(self).written_content(*old(v))
                + buf@,
            final (self).written_len == old(self).written_len + buf@.len(),
            final (self).read_content(*final (v)) == old(self).read_content(*old(v)),
            final (self).is_dirty,
            final (self).path == old(self).path,
            final (self).read_blocks == old(self).read_blocks,
            final (self).file_size == old(self).file_size,
            final (self).pos == old(self).pos,
            r is Ok || r == Err::<(), VaultError>(VaultError::EncryptionError),
    {
        let mut tail = vstd::slice::slice_to_vec(buf);
        self.write_buffer.append(&mut tail);
        self.written_len = self.written_len + buf.len() as u64;
        self.is_dirty = true;
        proof {
            assert(self.written_content(*old(v)) =~= old(self).written_content(*old(v)) + buf@);
        }
        if self.write_buffer.len() >= BLOCK_SIZE {
            self.flush_chunk(v)
        } else {
            Ok(())
        }
    }

    /// Repositions the read cursor. Arithmetic past the ends wraps as
    /// 64-bit arithmetic does.
    pub fn seek(&mut self, pos: SeekFrom) -> (r: Result<u64, VaultError>)
        requires
            old(self).file_size + old(self).write_buffer@.len() <= u64::MAX,
        ensures
            final (self).path == old(self).path,
            final (self).read_blocks == old(self).read_blocks,
            final (self).file_size == old(self).file_size,
            final (self).write_buffer == old(self).write_buffer,
            final (self).new_block_ids == old(self).new_block_ids,
            final (self).written_len == old(self).written_len,
            final (self).is_dirty == old(self).is_dirty,
            match r {
                Ok(p) => {
                    &&& p == final (self).pos
                    &&& match pos {
                        SeekFrom::Start(o) => final (self).pos == o,
                        SeekFrom::End(o) => final (self).pos
                            == vstd::wrapping::u64_specs::wrapping_add_signed(
                            (old(self).file_size + old(self).write_buffer@.len()) as u64,
                            o,
                        ),
                        SeekFrom::Current(o) => final (self).pos
                            == vstd::wrapping::u64_specs::wrapping_add_signed(old(self).pos, o),
                    }
                },
                Err(_) => false,
            },
    {
        let new_pos: u64 = match pos {
            SeekFrom::Start(o) => o,
            SeekFrom::End(o) => self.total_size().wrapping_add_signed(o),
            SeekFrom::Current(o) => self.pos.wrapping_add_signed(o),
        };
        self.pos = new_pos;
        Ok(new_pos)
    }

    /// The handle's own metadata: its current total size, the present
    /// moment as mtime, and a size-derived tag.
    pub fn metadata(&self) -> (r: LetheMetaData)
        requires
            self.file_size + self.write_buffer@.len() <= u64::MAX,
        ensures
            r.len == self.file_size + self.write_buffer@.len(),
            !r.is_dir,
            r.etag@ == etag_mem(r.len),
    {
        let len = self.total_size();
        proof {
            reveal_strlit("\"mem-");
            reveal_strlit("\"");
        }
        let mut etag = "\"mem-".to_owned();
        let hex = u64_to_hex(len);
        etag.append(hex.as_str());
        etag.append("\"");
        proof {
            assert(etag@ =~= etag_mem(len));
        }
        LetheMetaData {
            len,
            modified: crate::index::now_unix_secs(),
            is_dir: false,
            etag,
        }
    }

    /// Flushes any remaining buffered bytes as a final block; then, only
    /// if the handle is dirty, replaces the index entry at its path with
    /// the accumulated block list and total written size, and persists the
    /// index. A clean handle's flush changes nothing.
    pub fn flush(&mut self, v: &mut ActiveVault) -> (r: Result<(), VaultError>)
        requires
            old(v).wf(),
            old(self).wf(*old(v)),
            old(v).index.data@.revision < u64::MAX,
        ensures
            final (v).wf(),
            final (self).wf(*final (v)),
            store_extends(*old(v), *final (v)),
            final (v).key@ == old(v).key@,
            !old(self).is_dirty ==> {
                &&& r is Ok
                &&& final (v).index == old(v).index
                &&& final (v).replicas == old(v).replicas
            },
            old(self).is_dirty ==> match r {
                Ok(()) => {
                    &&& exists|mtime: u64|
                        final (v).fmap() == old(v).fmap().insert(
                            old(self).path@,
                            FileEntryV {
                                path: old(self).path@,
                                size: old(self).written_len,
                                modified: mtime,
                                blocks: strs_view(final (self).new_block_ids@),
                                is_dir: false,
                            },
                        )
                    &&& blocks_content(
                        final (v).storage@,
                        final (v).key@,
                        strs_view(final (self).new_block_ids@),
                    ) == old(self).written_content(*old(v))
                    &&& final (v).index.data@.revision == old(v).index.data@.revision + 1
                    &&& replicas_synced(*final (v))
                },
                Err(e) => e == VaultError::EncryptionError,
            },
    {
        match self.flush_chunk(v) {
            Ok(()) => {},
            Err(e) => {
                return Err(e);
            },
        }
        if self.is_dirty {
            let ghost mid_v = *v;
            let blocks = clone_strings(&self.new_block_ids);
            let path = self.path.clone();
            v.index.add_file(path, blocks, self.written_len);
            proof {
                assert(self.written_content(mid_v) =~= blocks_content(
                    mid_v.storage@,
                    mid_v.key@,
                    strs_view(self.new_block_ids@),
                ));
                lemma_wf_after_index_change(mid_v, *v);
            }
            v.persist()
        } else {
            Ok(())
        }
    }
}

// ---------------------------------------------------------------------------
// Reclamation and the lock state.
// ---------------------------------------------------------------------------
/// The set of ids in one block list.
pub open spec fn ids_of(blocks: Seq<Seq<char>>) -> Set<Seq<char>>
    decreases blocks.len(),
{
    if blocks.len() == 0 {
        Set::empty()
    } else {
        ids_of(blocks.drop_last()).insert(blocks.last())
    }
}

/// The ids some index entry references.
pub open spec fn referenced_ids(files: Seq<FileEntryV>) -> Set<Seq<char>>
    decreases files.len(),
{
    if files.len() == 0 {
        Set::empty()
    } else {
        referenced_ids(files.drop_last()).union(ids_of(files.last().blocks))
    }
}

proof fn lemma_ids_of_member(blocks: Seq<Seq<char>>, j: int)
    requires
        0 <= j < blocks.len(),
    ensures
        ids_of(blocks).contains(blocks[j]),
    decreases blocks.len(),
{
    if j < blocks.len() - 1 {
        lemma_ids_of_member(blocks.drop_last(), j);
        assert(blocks.drop_last()[j] == blocks[j]);
    }
}

proof fn lemma_referenced_ids_member(files: Seq<FileEntryV>, x: int, j: int)
    requires
        0 <= x < files.len(),
        0 <= j < files[x].blocks.len(),
    ensures
        referenced_ids(files).contains(files[x].blocks[j]),
    decreases files.len(),
{
    if x == files.len() - 1 {
        lemma_ids_of_member(files.last().blocks, j);
    } else {
        lemma_referenced_ids_member(files.drop_last(), x, j);
        assert(files.drop_last()[x] == files[x]);
    }
}

proof fn lemma_strs_view_set_push(v: Seq<String>, s: String)
    ensures
        crate::storage::strs_view_set(v.push(s)) == crate::storage::strs_view_set(v).insert(s@),
{
    let a = crate::storage::strs_view_set(v.push(s));
    let b = crate::storage::strs_view_set(v).insert(s@);
    assert forall|p: Seq<char>| a.contains(p) == b.contains(p) by {
        if a.contains(p) {
            let i = choose|i: int| 0 <= i < v.push(s).len() && (#[trigger] v.push(s)[i])@ == p;
            if i < v.len() {
                assert(v[i]@ == p);
            }
            assert(b.contains(p));
        }
        if b.contains(p) {
            if p == s@ {
                assert(v.push(s)[v.len() as int]@ == p);
            } else {
                let i = choose|i: int| 0 <= i < v.len() && (#[trigger] v[i])@ == p;
                assert(v.push(s)[i]@ == p);
            }
            assert(a.contains(p));
        }
    }
    assert(a =~= b);
}

/// Collects every block id the index references.
fn collect_valid_ids(files: &Vec<FileEntry>) -> (r: Vec<String>)
    ensures
        crate::storage::strs_view_set(r@) == referenced_ids(entries_view(files@)),
{
    let ghost fv = entries_view(files@);
    let mut valid: Vec<String> = Vec::new();
    let n = files.len();
    proof {
        assert(crate::storage::strs_view_set(valid@) =~= referenced_ids(fv.take(0)));
    }
    let mut i: usize = 0;
    while i < n
        invariant
            i <= n,
            n == files@.len(),
            fv == entries_view(files@),
            crate::storage::strs_view_set(valid@) == referenced_ids(fv.take(i as int)),
        decreases n - i,
    {
        let nb = files[i].blocks.len();
        let ghost row = fv.index(i as int).blocks;
        let mut j: usize = 0;
        proof {
            assert(ids_of(row.take(0)) =~= Set::<Seq<char>>::empty());
            assert(crate::storage::strs_view_set(valid@) =~= referenced_ids(
                fv.take(i as int),
            ).union(ids_of(row.take(0))));
        }
        while j < nb
            invariant
                j <= nb,
                i < n,
                n == files@.len(),
                nb == files@[i as int].blocks@.len(),
                fv == entries_view(files@),
                row == fv.index(i as int).blocks,
                crate::storage::strs_view_set(valid@) == referenced_ids(
                    fv.take(i as int),
                ).union(ids_of(row.take(j as int))),
            decreases nb - j,
        {
            let ghost valid0 = valid@;
            valid.push(files[i].blocks[j].clone());
            proof {
                assert(valid@ == valid0.push(valid@[valid0.len() as int]));
                lemma_strs_view_set_push(valid0, valid@[valid0.len() as int]);
                let t = row.take(j as int + 1);
                assert(t.drop_last() =~= row.take(j as int));
                assert(t.last() == row[j as int]);
                assert(valid@[valid0.len() as int]@ == row[j as int]);
                assert(crate::storage::strs_view_set(valid@) =~= referenced_ids(
                    fv.take(i as int),
                ).union(ids_of(row.take(j as int + 1))));
            }
            j += 1;
        }
        proof {
            let t = fv.take(i as int + 1);
            assert(t.drop_last() =~= fv.take(i as int));
            assert(t.last() == fv[i as int]);
            assert(row.take(nb as int) =~= row);
            assert(crate::storage::strs_view_set(valid@) =~= referenced_ids(
                fv.take(i as int + 1),
            ));
        }
        i += 1;
    }
    proof {
        assert(fv.take(n as int) =~= fv);
    }
    valid
}

impl ActiveVault {
    /// Recomputes the valid-id set from the current index and sweeps every
    /// unreferenced block, reporting counts and bytes. With `dry_run` the
    /// same report is computed and nothing is deleted. The session is
    /// serialized against writers, so no block written under this index
    /// can be swept as an orphan.
    #[verifier::rlimit(60)]
    pub fn reclaim(&mut self, dry_run: bool) -> (r: ReclaimReport)
        requires
            old(self).wf(),
        ensures
            final (self).wf(),
            final (self).index == old(self).index,
            final (self).replicas == old(self).replicas,
            final (self).key == old(self).key,
            r.removed == crate::storage::orphan_count(
                crate::storage::blocks_view(old(self).storage.blocks@),
                referenced_ids(entries_view(old(self).index.data.files@)),
            ),
            r.kept + r.removed == old(self).storage.blocks@.len(),
            crate::storage::orphan_bytes(
                crate::storage::blocks_view(old(self).storage.blocks@),
                referenced_ids(entries_view(old(self).index.data.files@)),
            ) <= u64::MAX ==> r.bytes_reclaimed == crate::storage::orphan_bytes(
                crate::storage::blocks_view(old(self).storage.blocks@),
                referenced_ids(entries_view(old(self).index.data.files@)),
            ),
            dry_run ==> final (self).storage.blocks@ == old(self).storage.blocks@,
            !dry_run ==> final (self).storage@ == old(self).storage@.restrict(
                referenced_ids(entries_view(old(self).index.data.files@)),
            ),
            !dry_run ==> crate::storage::orphan_count(
                crate::storage::blocks_view(final (self).storage.blocks@),
                referenced_ids(entries_view(old(self).index.data.files@)),
            ) == 0,
    {
        let ghost fv = entries_view(self.index.data.files@);
        let ghost refs = referenced_ids(fv);
        let valid = collect_valid_ids(&self.index.data.files);
        let ghost pre = *self;
        let report = self.storage.reclaim(&valid, dry_run);
        proof {
            if !dry_run {
                let m = self.index.data@.file_map();
                assert forall|p: Seq<char>| #[trigger] m.contains_key(p) implies entry_ok(
                    m.index(p),
                    self.storage@,
                    self.key@,
                ) by {
                    assert(pre.index.data@.file_map().contains_key(p));
                    let e = pre.index.data@.file_map().index(p);
                    assert(entry_ok(e, pre.storage@, pre.key@));
                    if !e.is_dir {
                        lemma_files_map_dom(fv, p);
                        let x = choose|x: int| 0 <= x < fv.len() && fv[x].path == p;
                        lemma_files_map_index(fv, x);
                        assert forall|j: int|
                            0 <= j < e.blocks.len() implies self.storage@.contains_key(
                            #[trigger] e.blocks[j],
                        ) && self.storage@.index(e.blocks[j]) == pre.storage@.index(
                            e.blocks[j],
                        ) by {
                            assert(fv.index(x).blocks[j] == e.blocks[j]);
                            lemma_referenced_ids_member(fv, x, j);
                            assert(refs.contains(e.blocks[j]));
                            assert(pre.storage@.contains_key(e.blocks[j]));
                        }
                        lemma_blocks_content_agree(
                            pre.storage@,
                            self.storage@,
                            self.key@,
                            e.blocks,
                        );
                    }
                }
            }
        }
        report
    }
}

/// The global lock state: holds the session while the vault is unlocked;
/// its absence is the expected locked state, not an error.
#[derive(Debug)]
pub struct LetheState {
    pub inner: Option<ActiveVault>,
}

impl LetheState {
    /// A locked state.
    pub fn new() -> (r: Self)
        ensures
            r.inner is None,
    {
        LetheState { inner: None }
    }

    /// Installs an unlocked session.
    pub fn unlock(&mut self, vault: ActiveVault)
        requires
            vault.wf(),
        ensures
            final (self).inner == Some(vault),
    {
        self.inner = Some(vault);
    }

    /// Zeroes the key material and drops the session: the vault is locked
    /// again.
    pub fn lock(&mut self)
        ensures
            final (self).inner is None,
    {
        match &mut self.inner {
            Some(v) => v.key.zero(),
            None => {},
        }
        self.inner = None;
    }

    /// The active session, while one is installed.
    pub fn get_resources(&self) -> (r: Option<&ActiveVault>)
        ensures
            match r {
                Some(v) => self.inner == Some(*v),
                None => self.inner is None,
            },
    {
        match &self.inner {
            Some(v) => Some(v),
            None => None,
        }
    }
}

} // verus!
