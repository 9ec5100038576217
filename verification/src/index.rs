//! The metadata index: a flat map from virtual path to file entry,
//! versioned by a monotonically increasing revision counter and kept in
//! redundant encrypted replicas.

use vstd::prelude::*;
use vstd::string::*;

use crate::codec;
use crate::codec::decode_index_spec;
use crate::crypto::{xchacha_open, CryptoEngine, MasterKey};
use crate::errors::VaultError;
use crate::strutil::str_eq;
use crate::NONCE_SIZE;
use crate::REPLICA_COUNT;

verus! {

/// One entry of the index: a regular file with its ordered block list, or
/// an explicit directory (empty block list, size zero).
#[derive(Debug)]
pub struct FileEntry {
    pub path: String,
    pub size: u64,
    pub modified: u64,
    pub blocks: Vec<String>,
    pub is_dir: bool,
}

/// The mathematical shape of a [`FileEntry`].
pub ghost struct FileEntryV {
    pub path: Seq<char>,
    pub size: u64,
    pub modified: u64,
    pub blocks: Seq<Seq<char>>,
    pub is_dir: bool,
}

/// The views of a sequence of strings.
pub open spec fn strs_view(s: Seq<String>) -> Seq<Seq<char>> {
    Seq::new(s.len(), |i: int| s[i]@)
}

impl View for FileEntry {
    type V = FileEntryV;

    open spec fn view(&self) -> FileEntryV {
        FileEntryV {
            path: self.path@,
            size: self.size,
            modified: self.modified,
            blocks: strs_view(self.blocks@),
            is_dir: self.is_dir,
        }
    }
}

impl Clone for FileEntry {
    fn clone(&self) -> (r: Self)
        ensures
            r@ == self@,
    {
        let mut blocks: Vec<String> = Vec::new();
        let mut i: usize = 0;
        while i < self.blocks.len()
            invariant
                i <= self.blocks@.len(),
                blocks@.len() == i,
                forall|j: int| 0 <= j < i ==> blocks@[j]@ == self.blocks@[j]@,
            decreases self.blocks@.len() - i,
        {
            blocks.push(self.blocks[i].clone());
            i += 1;
        }
        proof {
            assert(strs_view(blocks@) =~= strs_view(self.blocks@));
        }
        FileEntry {
            path: self.path.clone(),
            size: self.size,
            modified: self.modified,
            blocks,
            is_dir: self.is_dir,
        }
    }
}

/// The entire metadata database, held fully in memory and rewritten
/// wholesale on every save.
#[derive(Debug)]
pub struct VaultIndex {
    pub version: u8,
    pub revision: u64,
    pub salt: String,
    pub files: Vec<FileEntry>,
}

/// The mathematical shape of a [`VaultIndex`].
pub ghost struct VaultIndexV {
    pub version: u8,
    pub revision: u64,
    pub salt: Seq<char>,
    pub files: Seq<FileEntryV>,
}

/// The views of a sequence of entries.
pub open spec fn entries_view(s: Seq<FileEntry>) -> Seq<FileEntryV> {
    Seq::new(s.len(), |i: int| s[i]@)
}

impl View for VaultIndex {
    type V = VaultIndexV;

    open spec fn view(&self) -> VaultIndexV {
        VaultIndexV {
            version: self.version,
            revision: self.revision,
            salt: self.salt@,
            files: entries_view(self.files@),
        }
    }
}

/// No two entries share a path.
pub open spec fn unique_paths(s: Seq<FileEntryV>) -> bool {
    forall|i: int, j: int| 0 <= i < j < s.len() ==> s[i].path != s[j].path
}

/// The path-to-entry map of an entry sequence; later entries win, which is
/// irrelevant under [`unique_paths`].
pub open spec fn files_map_of(s: Seq<FileEntryV>) -> Map<Seq<char>, FileEntryV>
    decreases s.len(),
{
    if s.len() == 0 {
        Map::empty()
    } else {
        files_map_of(s.drop_last()).insert(s.last().path, s.last())
    }
}

impl VaultIndexV {
    /// Structural well-formedness: keys are unique.
    pub open spec fn wf(self) -> bool {
        unique_paths(self.files)
    }

    /// The index as a map from path to entry.
    pub open spec fn file_map(self) -> Map<Seq<char>, FileEntryV> {
        files_map_of(self.files)
    }
}

pub proof fn lemma_files_map_dom(s: Seq<FileEntryV>, p: Seq<char>)
    ensures
        files_map_of(s).contains_key(p) <==> exists|i: int| 0 <= i < s.len() && s[i].path == p,
    decreases s.len(),
{
    if s.len() > 0 {
        lemma_files_map_dom(s.drop_last(), p);
        if s.last().path == p {
            assert(s[s.len() - 1].path == p);
        } else if files_map_of(s).contains_key(p) {
            let i = choose|i: int| 0 <= i < s.drop_last().len() && s.drop_last()[i].path == p;
            assert(s[i].path == p);
        } else {
            assert forall|i: int| 0 <= i < s.len() implies s[i].path != p by {
                if i < s.len() - 1 {
                    assert(s.drop_last()[i].path != p);
                }
            }
        }
    }
}

pub proof fn lemma_files_map_index(s: Seq<FileEntryV>, i: int)
    requires
        unique_paths(s),
        0 <= i < s.len(),
    ensures
        files_map_of(s).contains_key(s[i].path),
        files_map_of(s)[s[i].path] == s[i],
    decreases s.len(),
{
    if i == s.len() - 1 {
    } else {
        assert(unique_paths(s.drop_last()));
        lemma_files_map_index(s.drop_last(), i);
        assert(s.drop_last()[i] == s[i]);
        assert(s.last().path != s[i].path);
    }
}

pub proof fn lemma_files_map_remove(s: Seq<FileEntryV>, i: int)
    requires
        unique_paths(s),
        0 <= i < s.len(),
    ensures
        unique_paths(s.remove(i)),
        files_map_of(s.remove(i)) == files_map_of(s).remove(s[i].path),
{
    let t = s.remove(i);
    assert forall|x: int, y: int| 0 <= x < y < t.len() implies t[x].path != t[y].path by {
        let sx = if x < i { x } else { x + 1 };
        let sy = if y < i { y } else { y + 1 };
        assert(t[x] == s[sx] && t[y] == s[sy]);
    }
    let m1 = files_map_of(t);
    let m2 = files_map_of(s).remove(s[i].path);
    assert forall|q: Seq<char>| #[trigger] m1.contains_key(q) implies m2.contains_key(q)
        && m1[q] == m2[q] by {
        lemma_files_map_dom(t, q);
        let j = choose|j: int| 0 <= j < t.len() && t[j].path == q;
        let sj = if j < i { j } else { j + 1 };
        assert(t[j] == s[sj]);
        lemma_files_map_index(t, j);
        lemma_files_map_index(s, sj);
        lemma_files_map_dom(s, q);
        assert(s[sj].path != s[i].path);
    }
    assert forall|q: Seq<char>| #[trigger] m2.contains_key(q) implies m1.contains_key(q) by {
        lemma_files_map_dom(s, q);
        let j = choose|j: int| 0 <= j < s.len() && s[j].path == q;
        assert(j != i);
        let tj = if j < i { j } else { j - 1 };
        assert(t[tj] == s[j]);
        lemma_files_map_dom(t, q);
    }
    assert(m1 =~= m2);
}

/// The decrypted contents of one replica file: the bytes after the nonce
/// prefix, opened under the key.
pub open spec fn replica_plain(bytes: Seq<u8>, key: Seq<u8>) -> Option<Seq<u8>> {
    if bytes.len() >= NONCE_SIZE {
        xchacha_open(key, bytes.take(NONCE_SIZE as int), bytes.skip(NONCE_SIZE as int))
    } else {
        None
    }
}

/// The index one replica file holds, if it decrypts and decodes.
pub open spec fn replica_index(bytes: Seq<u8>, key: Seq<u8>) -> Option<VaultIndexV> {
    match replica_plain(bytes, key) {
        Option::Some(p) => decode_index_spec(p),
        Option::None => None,
    }
}

/// Law of replica durability: when every slot of a replica set holds the
/// same saved index, damaging or deleting any one slot (so that it no
/// longer decrypts or decodes) still leaves a surviving slot with that
/// index as the highest revision, which is exactly what [`IndexManager::load`]
/// requires to succeed with the saved state.
pub proof fn lemma_replica_durability(
    replicas: Seq<Seq<u8>>,
    damaged: Seq<Seq<u8>>,
    key: Seq<u8>,
    i: int,
    v: VaultIndexV,
)
    requires
        replicas.len() == damaged.len(),
        replicas.len() >= 2,
        0 <= i < replicas.len(),
        forall|j: int|
            0 <= j < replicas.len() ==> replica_index(#[trigger] replicas[j], key) == Some(v),
        forall|j: int| 0 <= j < damaged.len() && j != i ==> damaged[j] == replicas[j],
        replica_index(damaged[i], key) is None,
    ensures
        exists|j: int|
            0 <= j < damaged.len() && replica_index(#[trigger] damaged[j], key) == Some(v),
        forall|j: int|
            0 <= j < damaged.len() ==> (replica_index(#[trigger] damaged[j], key) matches Some(w)
                ==> w.revision <= v.revision),
{
    let w = if i == 0 {
        1int
    } else {
        0int
    };
    assert(damaged[w] == replicas[w]);
    assert(replica_index(damaged[w], key) == Some(v));
}

/// Relies on `SystemTime::now` of std: the current time, as whole seconds
/// since the Unix epoch, zero if the clock reads before the epoch. Nothing
/// is assumed about the value.
#[verifier::external_body]
pub(crate) fn now_unix_secs() -> u64 {
    match std::time::SystemTime::now().duration_since(std::time::UNIX_EPOCH) {
        Ok(d) => d.as_secs(),
        Err(_) => 0,
    }
}

/// The position of the entry at `path`, if one exists.
fn find_path(files: &Vec<FileEntry>, path: &str) -> (r: Option<usize>)
    ensures
        match r {
            Some(i) => i < files@.len() && entries_view(files@)[i as int].path == path@,
            None => forall|j: int|
                0 <= j < files@.len() ==> entries_view(files@)[j].path != path@,
        },
{
    let mut i: usize = 0;
    while i < files.len()
        invariant
            i <= files@.len(),
            forall|j: int| 0 <= j < i ==> entries_view(files@)[j].path != path@,
        decreases files@.len() - i,
    {
        if str_eq(files[i].path.as_str(), path) {
            return Some(i);
        }
        i += 1;
    }
    None
}

/// Inserts an entry, replacing any entry with the same path.
pub(crate) fn upsert(files: &mut Vec<FileEntry>, entry: FileEntry)
    requires
        unique_paths(entries_view(old(files)@)),
    ensures
        unique_paths(entries_view(final (files)@)),
        files_map_of(entries_view(final (files)@)) == files_map_of(
            entries_view(old(files)@),
        ).insert(entry@.path, entry@),
{
    let ghost orig = entries_view(files@);
    let ghost ev = entry@;
    let pos = find_path(files, entry.path.as_str());
    match pos {
        Some(i) => {
            files.remove(i);
            proof {
                assert(entries_view(files@) =~= orig.remove(i as int));
                lemma_files_map_remove(orig, i as int);
            }
        },
        None => {},
    }
    let ghost before = entries_view(files@);
    files.push(entry);
    proof {
        assert(entries_view(files@).drop_last() =~= before);
        assert(entries_view(files@).last() == ev);
        assert(files_map_of(entries_view(files@)) == files_map_of(before).insert(ev.path, ev));
        assert forall|x: int| 0 <= x < before.len() implies before[x].path != ev.path by {
            match pos {
                Some(i) => {
                    let sx = if x < i {
                        x
                    } else {
                        x + 1
                    };
                    assert(before[x] == orig[sx]);
                    assert(orig[sx].path != orig[i as int].path);
                },
                None => {
                    assert(before[x] == orig[x]);
                },
            }
        }
        let t = entries_view(files@);
        assert forall|x: int, y: int| 0 <= x < y < t.len() implies t[x].path != t[y].path by {
            if y == t.len() - 1 {
                assert(t[x] == before[x]);
            } else {
                assert(t[x] == before[x] && t[y] == before[y]);
            }
        }
        match pos {
            Some(i) => {
                assert(files_map_of(orig).remove(ev.path).insert(ev.path, ev) =~= files_map_of(
                    orig,
                ).insert(ev.path, ev));
            },
            None => {},
        }
    }
}

/// Manages loading, saving and mutating the index, together with its
/// encrypted replica images.
#[derive(Debug)]
pub struct IndexManager {
    pub data: VaultIndex,
}

impl IndexManager {
    /// A manager over a fresh empty index (vault initialization).
    pub fn new_empty(salt: String) -> (r: Self)
        ensures
            r.data@.version == 1,
            r.data@.revision == 0,
            r.data@.salt == salt@,
            r.data@.wf(),
            r.data@.file_map() == Map::<Seq<char>, FileEntryV>::empty(),
    {
        IndexManager { data: VaultIndex::new(salt) }
    }

    /// Reads every available replica, skips the ones that fail to decrypt
    /// or decode, and keeps the survivor with the strictly highest
    /// revision. Fails only when every replica fails. Among tied highest
    /// revisions the selection is unspecified.
    #[verifier::rlimit(100)]
    pub fn load(replicas: &Vec<Vec<u8>>, key: &MasterKey) -> (r: Result<Self, VaultError>)
        ensures
            match r {
                Ok(m) => {
                    &&& m.data@.wf()
                    &&& exists|i: int|
                        0 <= i < replicas@.len() && replica_index(#[trigger] replicas@[i]@, key@)
                            == Some(m.data@)
                    &&& forall|i: int|
                        0 <= i < replicas@.len() ==> (replica_index(
                            #[trigger] replicas@[i]@,
                            key@,
                        ) matches Some(v) ==> v.revision <= m.data@.revision)
                },
                Err(e) => {
                    &&& e == VaultError::IndexUnrecoverable
                    &&& forall|i: int|
                        0 <= i < replicas@.len() ==> replica_index(
                            #[trigger] replicas@[i]@,
                            key@,
                        ) is None
                },
            },
    {
        let mut best: Option<VaultIndex> = None;
        let mut i: usize = 0;
        while i < replicas.len()
            invariant
                i <= replicas@.len(),
                match best {
                    Some(b) => {
                        &&& b@.wf()
                        &&& exists|j: int|
                            0 <= j < i && replica_index(#[trigger] replicas@[j]@, key@) == Some(
                                b@,
                            )
                        &&& forall|j: int|
                            0 <= j < i ==> (replica_index(#[trigger] replicas@[j]@, key@)
                                matches Some(v) ==> v.revision <= b@.revision)
                    },
                    None => forall|j: int|
                        0 <= j < i ==> replica_index(#[trigger] replicas@[j]@, key@) is None,
                },
            decreases replicas@.len() - i,
        {
            let parsed = Self::parse_replica(&replicas[i], key);
            match parsed {
                Some(idx) => {
                    let take = match &best {
                        None => true,
                        Some(b) => idx.revision > b.revision,
                    };
                    if take {
                        best = Some(idx);
                    }
                },
                None => {},
            }
            i += 1;
        }
        match best {
            Some(b) => Ok(IndexManager { data: b }),
            None => Err(VaultError::IndexUnrecoverable),
        }
    }

    /// Decrypts and decodes one replica image.
    fn parse_replica(bytes: &Vec<u8>, key: &MasterKey) -> (r: Option<VaultIndex>)
        ensures
            match r {
                Some(idx) => replica_index(bytes@, key@) == Some(idx@) && idx@.wf(),
                None => replica_index(bytes@, key@) is None,
            },
    {
        if bytes.len() < NONCE_SIZE {
            return None;
        }
        let nonce = vstd::slice::slice_subrange(bytes.as_slice(), 0, NONCE_SIZE);
        let ct = vstd::slice::slice_subrange(bytes.as_slice(), NONCE_SIZE, bytes.len());
        proof {
            assert(nonce@ =~= bytes@.take(NONCE_SIZE as int));
            assert(ct@ =~= bytes@.skip(NONCE_SIZE as int));
        }
        let plain = match CryptoEngine::decrypt(ct, nonce, key) {
            Ok(p) => p,
            Err(_) => {
                return None;
            },
        };
        match codec::decode_index(plain.as_slice()) {
            Some(idx) => Some(idx),
            None => None,
        }
    }

    /// Increments the revision, serializes, encrypts once, and writes the
    /// same image to every replica slot. A successful return means every
    /// slot holds an image that decrypts and decodes to the saved index.
    pub fn save(&mut self, key: &MasterKey, replicas: &mut Vec<Vec<u8>>) -> (r: Result<
        (),
        VaultError,
    >)
        requires
            old(self).data@.revision < u64::MAX,
            old(self).data@.wf(),
        ensures
            final (self).data@.revision == old(self).data@.revision + 1,
            final (self).data@.version == old(self).data@.version,
            final (self).data@.salt == old(self).data@.salt,
            final (self).data@.files == old(self).data@.files,
            final (self).data@.wf(),
            match r {
                Ok(()) => {
                    &&& final (replicas)@.len() == REPLICA_COUNT
                    &&& forall|i: int|
                        0 <= i < REPLICA_COUNT ==> replica_index(
                            #[trigger] final (replicas)@[i]@,
                            key@,
                        ) == Some(final (self).data@)
                },
                Err(e) => e == VaultError::EncryptionError && final (replicas)@ == old(
                    replicas,
                )@,
            },
    {
        self.data.revision = self.data.revision + 1;
        let plain = codec::encode_index(&self.data);
        let plain_len: usize = plain.len();
        proof {
            assert(plain@.len() == plain_len);
            codec::lemma_enc_index_ok(self.data@, plain@.len());
        }
        let (ct, nonce) = match CryptoEngine::encrypt(plain.as_slice(), key) {
            Ok(x) => x,
            Err(e) => {
                return Err(e);
            },
        };
        let ghost nv = nonce@;
        let ghost cv = ct@;
        let mut payload = nonce;
        let mut tail = ct;
        payload.append(&mut tail);
        proof {
            assert(payload@.take(NONCE_SIZE as int) =~= nv);
            assert(payload@.skip(NONCE_SIZE as int) =~= cv);
            codec::lemma_decode_encode(self.data@);
            assert(replica_index(payload@, key@) == Some(self.data@));
        }
        let copy1 = payload.clone();
        let copy2 = payload.clone();
        proof {
            assert(copy1@ =~= payload@);
            assert(copy2@ =~= payload@);
        }
        let ghost pv = payload@;
        let mut out: Vec<Vec<u8>> = Vec::new();
        out.push(payload);
        out.push(copy1);
        out.push(copy2);
        *replicas = out;
        proof {
            assert forall|i: int|
                0 <= i < REPLICA_COUNT implies replica_index(
                #[trigger] replicas@[i]@,
                key@,
            ) == Some(self.data@) by {
                assert(replicas@[i]@ == pv);
            }
        }
        Ok(())
    }

    /// Inserts or replaces a regular-file entry at `path`, stamping the
    /// current time. Does not persist; the caller saves explicitly.
    pub fn add_file(&mut self, path: String, blocks: Vec<String>, size: u64)
        requires
            old(self).data@.wf(),
        ensures
            final (self).data@.wf(),
            final (self).data@.version == old(self).data@.version,
            final (self).data@.revision == old(self).data@.revision,
            final (self).data@.salt == old(self).data@.salt,
            exists|m: u64|
                final (self).data@.file_map() == old(self).data@.file_map().insert(
                    path@,
                    FileEntryV {
                        path: path@,
                        size: size,
                        modified: m,
                        blocks: strs_view(blocks@),
                        is_dir: false,
                    },
                ),
    {
        let modified = now_unix_secs();
        let ghost pv = path@;
        let ghost bv = strs_view(blocks@);
        let entry = FileEntry { path, size, modified, blocks, is_dir: false };
        upsert(&mut self.data.files, entry);
        proof {
            assert(self.data@.file_map() == old(self).data@.file_map().insert(
                pv,
                FileEntryV { path: pv, size, modified, blocks: bv, is_dir: false },
            ));
        }
    }

    /// Inserts or replaces an explicit directory entry at `path`.
    pub fn add_dir(&mut self, path: String)
        requires
            old(self).data@.wf(),
        ensures
            final (self).data@.wf(),
            final (self).data@.version == old(self).data@.version,
            final (self).data@.revision == old(self).data@.revision,
            final (self).data@.salt == old(self).data@.salt,
            exists|m: u64|
                final (self).data@.file_map() == old(self).data@.file_map().insert(
                    path@,
                    FileEntryV {
                        path: path@,
                        size: 0,
                        modified: m,
                        blocks: Seq::empty(),
                        is_dir: true,
                    },
                ),
    {
        let modified = now_unix_secs();
        let ghost pv = path@;
        let entry = FileEntry { path, size: 0, modified, blocks: Vec::new(), is_dir: true };
        proof {
            assert(entry@.blocks =~= Seq::<Seq<char>>::empty());
        }
        upsert(&mut self.data.files, entry);
        proof {
            assert(self.data@.file_map() == old(self).data@.file_map().insert(
                pv,
                FileEntryV {
                    path: pv,
                    size: 0,
                    modified,
                    blocks: Seq::empty(),
                    is_dir: true,
                },
            ));
        }
    }

    /// Removes the entry at `path`, returning it if one existed.
    pub fn remove_path(&mut self, path: &str) -> (r: Option<FileEntry>)
        requires
            old(self).data@.wf(),
        ensures
            final (self).data@.wf(),
            final (self).data@.version == old(self).data@.version,
            final (self).data@.revision == old(self).data@.revision,
            final (self).data@.salt == old(self).data@.salt,
            match r {
                Some(e) => {
                    &&& old(self).data@.file_map().contains_key(path@)
                    &&& old(self).data@.file_map().index(path@) == e@
                    &&& final (self).data@.file_map() == old(self).data@.file_map().remove(path@)
                },
                None => {
                    &&& !old(self).data@.file_map().contains_key(path@)
                    &&& final (self).data@ == old(self).data@
                },
            },
    {
        let ghost orig = entries_view(self.data.files@);
        match find_path(&self.data.files, path) {
            Some(i) => {
                proof {
                    lemma_files_map_index(orig, i as int);
                    lemma_files_map_remove(orig, i as int);
                }
                let e = self.data.files.remove(i);
                proof {
                    assert(entries_view(self.data.files@) =~= orig.remove(i as int));
                }
                Some(e)
            },
            None => {
                proof {
                    lemma_files_map_dom(orig, path@);
                }
                None
            },
        }
    }

    /// Exact-path lookup; implicit directories are the adapter's business.
    pub fn get_file(&self, path: &str) -> (r: Option<&FileEntry>)
        requires
            self.data@.wf(),
        ensures
            match r {
                Some(e) => self.data@.file_map().contains_key(path@)
                    && self.data@.file_map().index(path@) == e@,
                None => !self.data@.file_map().contains_key(path@),
            },
    {
        let mut i: usize = 0;
        while i < self.data.files.len()
            invariant
                i <= self.data.files@.len(),
                self.data@.wf(),
                forall|j: int| 0 <= j < i ==> entries_view(self.data.files@)[j].path != path@,
            decreases self.data.files@.len() - i,
        {
            if str_eq(self.data.files[i].path.as_str(), path) {
                proof {
                    lemma_files_map_index(entries_view(self.data.files@), i as int);
                }
                return Some(&self.data.files[i]);
            }
            i += 1;
        }
        proof {
            lemma_files_map_dom(entries_view(self.data.files@), path@);
        }
        None
    }
}

impl VaultIndex {
    /// A fresh index at revision zero with an empty file map.
    pub fn new(salt: String) -> (r: Self)
        ensures
            r@.version == 1,
            r@.revision == 0,
            r@.salt == salt@,
            r@.files.len() == 0,
            r@.wf(),
            r@.file_map() == Map::<Seq<char>, FileEntryV>::empty(),
    {
        VaultIndex { version: 1, revision: 0, salt, files: Vec::new() }
    }
}

} // verus!
