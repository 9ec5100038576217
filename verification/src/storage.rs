//! The block store: immutable encrypted, compressed units of file content,
//! each under a random opaque id.
//!
//! A block at rest is `[nonce][ciphertext]`, where the ciphertext seals the
//! zstd-compressed payload. Blocks are never mutated; overwriting a file
//! produces new blocks and abandons the old ones for later reclamation.

use vstd::prelude::*;
use vstd::string::*;

use crate::crypto::{xchacha_open, CryptoEngine, MasterKey};
use crate::errors::VaultError;
use crate::strutil::str_eq;
use crate::NONCE_SIZE;

verus! {

/// Zstd compression level for new blocks: a balance of speed and ratio.
pub const COMPRESSION_LEVEL: i32 = 3;

/// What zstd compression of a payload at a level is.
pub uninterp spec fn zstd_compress(data: Seq<u8>, level: int) -> Seq<u8>;

/// What zstd decompression returns: the payload when the bytes are a frame
/// it can decode, `None` otherwise.
pub uninterp spec fn zstd_decompress(data: Seq<u8>) -> Option<Seq<u8>>;

/// Relies on `zstd::stream::encode_all`: deterministic in data and level,
/// and lossless — decoding the result gives back the data.
#[verifier::external_body]
fn zstd_encode(data: &[u8], level: i32) -> (r: Result<Vec<u8>, VaultError>)
    ensures
        match r {
            Ok(c) => c@ == zstd_compress(data@, level as int) && zstd_decompress(c@) == Some(
                data@,
            ),
            Err(e) => e == VaultError::EncryptionError,
        },
{
    match zstd::stream::encode_all(data, level) {
        Ok(c) => Ok(c),
        Err(_) => Err(VaultError::EncryptionError),
    }
}

/// Relies on `zstd::stream::decode_all`: deterministic in the bytes, and it
/// fails exactly when they do not decode.
#[verifier::external_body]
fn zstd_decode(data: &[u8]) -> (r: Result<Vec<u8>, VaultError>)
    ensures
        match r {
            Ok(p) => zstd_decompress(data@) == Some(p@),
            Err(e) => e == VaultError::DecompressionError && zstd_decompress(data@) is None,
        },
{
    match zstd::stream::decode_all(data) {
        Ok(p) => Ok(p),
        Err(_) => Err(VaultError::DecompressionError),
    }
}

/// Relies on `Uuid::new_v4` and its `to_string` of the uuid crate: a
/// random identifier; nothing is assumed about its value.
#[verifier::external_body]
fn fresh_block_id() -> (r: String) {
    uuid::Uuid::new_v4().to_string()
}

/// One block as persisted: its id and its bytes at rest.
#[derive(Debug)]
pub struct StoredBlock {
    pub id: String,
    pub data: Vec<u8>,
}

/// The mathematical shape of a [`StoredBlock`].
pub ghost struct StoredBlockV {
    pub id: Seq<char>,
    pub data: Seq<u8>,
}

impl View for StoredBlock {
    type V = StoredBlockV;

    open spec fn view(&self) -> StoredBlockV {
        StoredBlockV { id: self.id@, data: self.data@ }
    }
}

impl Clone for StoredBlock {
    fn clone(&self) -> (r: Self)
        ensures
            r@ == self@,
    {
        let data = vstd::slice::slice_to_vec(self.data.as_slice());
        StoredBlock { id: self.id.clone(), data }
    }
}

/// The views of a sequence of stored blocks.
pub open spec fn blocks_view(s: Seq<StoredBlock>) -> Seq<StoredBlockV> {
    Seq::new(s.len(), |i: int| s[i]@)
}

/// The id-to-bytes map of a block sequence; ids are unique in a
/// well-formed store.
pub open spec fn store_map_of(s: Seq<StoredBlockV>) -> Map<Seq<char>, Seq<u8>>
    decreases s.len(),
{
    if s.len() == 0 {
        Map::empty()
    } else {
        store_map_of(s.drop_last()).insert(s.last().id, s.last().data)
    }
}

/// No two stored blocks share an id.
pub open spec fn store_unique(s: Seq<StoredBlockV>) -> bool {
    forall|i: int, j: int| 0 <= i < j < s.len() ==> s[i].id != s[j].id
}

pub proof fn lemma_store_map_dom(s: Seq<StoredBlockV>, p: Seq<char>)
    ensures
        store_map_of(s).contains_key(p) <==> exists|i: int| 0 <= i < s.len() && s[i].id == p,
    decreases s.len(),
{
    if s.len() > 0 {
        lemma_store_map_dom(s.drop_last(), p);
        if s.last().id == p {
            assert(s[s.len() - 1].id == p);
        } else if store_map_of(s).contains_key(p) {
            let i = choose|i: int| 0 <= i < s.drop_last().len() && s.drop_last()[i].id == p;
            assert(s[i].id == p);
        } else {
            assert forall|i: int| 0 <= i < s.len() implies s[i].id != p by {
                if i < s.len() - 1 {
                    assert(s.drop_last()[i].id != p);
                }
            }
        }
    }
}

pub proof fn lemma_store_map_index(s: Seq<StoredBlockV>, i: int)
    requires
        store_unique(s),
        0 <= i < s.len(),
    ensures
        store_map_of(s).contains_key(s[i].id),
        store_map_of(s).index(s[i].id) == s[i].data,
    decreases s.len(),
{
    if i == s.len() - 1 {
    } else {
        assert(store_unique(s.drop_last()));
        lemma_store_map_index(s.drop_last(), i);
        assert(s.drop_last()[i] == s[i]);
        assert(s.last().id != s[i].id);
    }
}

pub proof fn lemma_store_map_remove(s: Seq<StoredBlockV>, i: int)
    requires
        store_unique(s),
        0 <= i < s.len(),
    ensures
        store_unique(s.remove(i)),
        store_map_of(s.remove(i)) == store_map_of(s).remove(s[i].id),
{
    let t = s.remove(i);
    assert forall|x: int, y: int| 0 <= x < y < t.len() implies t[x].id != t[y].id by {
        let sx = if x < i {
            x
        } else {
            x + 1
        };
        let sy = if y < i {
            y
        } else {
            y + 1
        };
        assert(t[x] == s[sx] && t[y] == s[sy]);
    }
    let m1 = store_map_of(t);
    let m2 = store_map_of(s).remove(s[i].id);
    assert forall|q: Seq<char>| #[trigger] m1.contains_key(q) implies m2.contains_key(q) && m1[q]
        == m2[q] by {
        lemma_store_map_dom(t, q);
        let j = choose|j: int| 0 <= j < t.len() && t[j].id == q;
        let sj = if j < i {
            j
        } else {
            j + 1
        };
        assert(t[j] == s[sj]);
        lemma_store_map_index(t, j);
        lemma_store_map_index(s, sj);
        assert(s[sj].id != s[i].id);
    }
    assert forall|q: Seq<char>| #[trigger] m2.contains_key(q) implies m1.contains_key(q) by {
        lemma_store_map_dom(s, q);
        let j = choose|j: int| 0 <= j < s.len() && s[j].id == q;
        assert(j != i);
        let tj = if j < i {
            j
        } else {
            j - 1
        };
        assert(t[tj] == s[j]);
        lemma_store_map_dom(t, q);
    }
    assert(m1 =~= m2);
}

/// What a stored block's bytes decode to under a key: split the nonce, open
/// the ciphertext, decompress. `None` when any step fails.
pub open spec fn block_payload(file: Seq<u8>, key: Seq<u8>) -> Option<Seq<u8>> {
    if file.len() >= NONCE_SIZE {
        match xchacha_open(key, file.take(NONCE_SIZE as int), file.skip(NONCE_SIZE as int)) {
            Option::Some(c) => zstd_decompress(c),
            Option::None => None,
        }
    } else {
        None
    }
}

/// The blocks of `s` whose id is in `vs`, in order.
pub open spec fn kept_seq(s: Seq<StoredBlockV>, vs: Set<Seq<char>>) -> Seq<StoredBlockV>
    decreases s.len(),
{
    if s.len() == 0 {
        Seq::empty()
    } else if vs.contains(s.last().id) {
        kept_seq(s.drop_last(), vs).push(s.last())
    } else {
        kept_seq(s.drop_last(), vs)
    }
}

/// How many blocks of `s` are orphans: their id is not in `vs`.
pub open spec fn orphan_count(s: Seq<StoredBlockV>, vs: Set<Seq<char>>) -> int
    decreases s.len(),
{
    if s.len() == 0 {
        0
    } else {
        orphan_count(s.drop_last(), vs) + if vs.contains(s.last().id) {
            0int
        } else {
            1int
        }
    }
}

/// The total size in bytes of the orphan blocks of `s`.
pub open spec fn orphan_bytes(s: Seq<StoredBlockV>, vs: Set<Seq<char>>) -> int
    decreases s.len(),
{
    if s.len() == 0 {
        0
    } else {
        orphan_bytes(s.drop_last(), vs) + if vs.contains(s.last().id) {
            0int
        } else {
            s.last().data.len() as int
        }
    }
}

proof fn lemma_kept_seq_props(s: Seq<StoredBlockV>, vs: Set<Seq<char>>)
    requires
        store_unique(s),
    ensures
        store_unique(kept_seq(s, vs)),
        orphan_count(kept_seq(s, vs), vs) == 0,
        orphan_count(s, vs) + kept_seq(s, vs).len() == s.len(),
        store_map_of(kept_seq(s, vs)) == store_map_of(s).restrict(vs),
        forall|i: int|
            0 <= i < kept_seq(s, vs).len() ==> exists|j: int|
                0 <= j < s.len() && (#[trigger] kept_seq(s, vs)[i]) == (#[trigger] s[j]),
    decreases s.len(),
{
    if s.len() == 0 {
        assert(store_map_of(kept_seq(s, vs)) =~= store_map_of(s).restrict(vs));
    } else {
        assert(store_unique(s.drop_last()));
        lemma_kept_seq_props(s.drop_last(), vs);
        let k = kept_seq(s, vs);
        let kd = kept_seq(s.drop_last(), vs);
        if vs.contains(s.last().id) {
            assert(k == kd.push(s.last()));
            assert(k.drop_last() =~= kd);
            assert(k.last() == s.last());
        }
        assert forall|i: int| 0 <= i < k.len() implies exists|j: int|
            0 <= j < s.len() && (#[trigger] k[i]) == (#[trigger] s[j]) by {
            if vs.contains(s.last().id) && i == k.len() - 1 {
                assert(k[i] == s[s.len() - 1]);
            } else {
                assert(k[i] == kd[i]);
                let j = choose|j: int| 0 <= j < s.drop_last().len() && kd[i] == s.drop_last()[j];
                assert(k[i] == s[j]);
            }
        }
        if vs.contains(s.last().id) {
            assert forall|x: int, y: int| 0 <= x < y < k.len() implies k[x].id != k[y].id by {
                if y == k.len() - 1 {
                    let j = choose|j: int|
                        0 <= j < s.drop_last().len() && kd[x] == s.drop_last()[j];
                    assert(k[x].id == s[j].id);
                    assert(s[j].id != s[s.len() - 1].id);
                } else {
                    assert(kd[x].id != kd[y].id);
                }
            }
            assert(store_map_of(k) == store_map_of(kd).insert(s.last().id, s.last().data));
            assert(store_map_of(k) =~= store_map_of(s).restrict(vs));
        } else {
            lemma_store_map_dom(s.drop_last(), s.last().id);
            assert(store_map_of(s.drop_last()).restrict(vs) =~= store_map_of(s).restrict(vs));
        }
    }
}

/// What one reclamation pass found and did.
#[derive(Debug)]
pub struct ReclaimReport {
    pub kept: u64,
    pub removed: u64,
    pub bytes_reclaimed: u64,
}

/// The block store over the vault's persisted block files.
#[derive(Debug)]
pub struct BlockManager {
    pub blocks: Vec<StoredBlock>,
}

impl View for BlockManager {
    type V = Map<Seq<char>, Seq<u8>>;

    open spec fn view(&self) -> Map<Seq<char>, Seq<u8>> {
        store_map_of(blocks_view(self.blocks@))
    }
}

impl BlockManager {
    /// Structural well-formedness: block ids are unique.
    pub open spec fn wf(self) -> bool {
        store_unique(blocks_view(self.blocks@))
    }

    /// An empty store.
    pub fn new() -> (r: Self)
        ensures
            r.wf(),
            r@ == Map::<Seq<char>, Seq<u8>>::empty(),
    {
        let r = BlockManager { blocks: Vec::new() };
        proof {
            assert(blocks_view(r.blocks@) =~= Seq::<StoredBlockV>::empty());
        }
        r
    }

    /// The position of a block by id.
    fn find_block(&self, block_id: &str) -> (r: Option<usize>)
        ensures
            match r {
                Some(i) => i < self.blocks@.len() && blocks_view(self.blocks@)[i as int].id
                    == block_id@,
                None => forall|j: int|
                    0 <= j < self.blocks@.len() ==> blocks_view(self.blocks@)[j].id != block_id@,
            },
    {
        let mut i: usize = 0;
        while i < self.blocks.len()
            invariant
                i <= self.blocks@.len(),
                forall|j: int| 0 <= j < i ==> blocks_view(self.blocks@)[j].id != block_id@,
            decreases self.blocks@.len() - i,
        {
            if str_eq(self.blocks[i].id.as_str(), block_id) {
                return Some(i);
            }
            i += 1;
        }
        None
    }

    /// Whether a block with this id is stored.
    pub fn contains_block(&self, block_id: &str) -> (r: bool)
        ensures
            r == self@.contains_key(block_id@),
    {
        proof {
            lemma_store_map_dom(blocks_view(self.blocks@), block_id@);
        }
        match self.find_block(block_id) {
            Some(_) => true,
            None => false,
        }
    }

    /// The bytes of a block as stored, nonce prefix included.
    pub fn get_raw(&self, block_id: &str) -> (r: Option<&Vec<u8>>)
        requires
            self.wf(),
        ensures
            match r {
                Some(v) => self@.contains_key(block_id@) && self@.index(block_id@) == v@,
                None => !self@.contains_key(block_id@),
            },
    {
        proof {
            lemma_store_map_dom(blocks_view(self.blocks@), block_id@);
        }
        match self.find_block(block_id) {
            Some(i) => {
                proof {
                    lemma_store_map_index(blocks_view(self.blocks@), i as int);
                }
                Some(&self.blocks[i].data)
            },
            None => None,
        }
    }

    /// All stored block ids, in store order.
    pub fn block_ids(&self) -> (r: Vec<String>)
        ensures
            r@.len() == self.blocks@.len(),
            forall|i: int|
                0 <= i < r@.len() ==> r@[i]@ == blocks_view(self.blocks@)[i].id,
    {
        let mut out: Vec<String> = Vec::new();
        let mut i: usize = 0;
        while i < self.blocks.len()
            invariant
                i <= self.blocks@.len(),
                out@.len() == i,
                forall|j: int| 0 <= j < i ==> out@[j]@ == blocks_view(self.blocks@)[j].id,
            decreases self.blocks@.len() - i,
        {
            out.push(self.blocks[i].id.clone());
            i += 1;
        }
        out
    }

    /// Restores a block read back from persistent storage, replacing any
    /// stored block with the same id.
    pub fn restore_block(&mut self, id: String, data: Vec<u8>)
        requires
            old(self).wf(),
        ensures
            final (self).wf(),
            final (self)@ == old(self)@.insert(id@, data@),
    {
        let ghost orig = blocks_view(self.blocks@);
        let pos = self.find_block(id.as_str());
        match pos {
            Some(i) => {
                self.blocks.remove(i);
                proof {
                    assert(blocks_view(self.blocks@) =~= orig.remove(i as int));
                    lemma_store_map_remove(orig, i as int);
                }
            },
            None => {},
        }
        let ghost before = blocks_view(self.blocks@);
        let ghost iv = id@;
        let ghost dv = data@;
        self.blocks.push(StoredBlock { id, data });
        proof {
            let t = blocks_view(self.blocks@);
            assert(t.drop_last() =~= before);
            assert(t.last().id == iv && t.last().data == dv);
            assert forall|x: int| 0 <= x < before.len() implies before[x].id != iv by {
                match pos {
                    Some(i) => {
                        let sx = if x < i {
                            x
                        } else {
                            x + 1
                        };
                        assert(before[x] == orig[sx]);
                        assert(orig[sx].id != orig[i as int].id);
                    },
                    None => {
                        assert(before[x] == orig[x]);
                    },
                }
            }
            assert forall|x: int, y: int| 0 <= x < y < t.len() implies t[x].id != t[y].id by {
                if y == t.len() - 1 {
                    assert(t[x] == before[x]);
                } else {
                    assert(t[x] == before[x] && t[y] == before[y]);
                }
            }
            match pos {
                Some(i) => {
                    assert(store_map_of(orig).remove(iv).insert(iv, dv) =~= store_map_of(
                        orig,
                    ).insert(iv, dv));
                },
                None => {},
            }
        }
    }

    /// Compresses, encrypts under a fresh nonce, and stores the payload
    /// under a freshly drawn random id that does not collide with any
    /// stored block. Returns the id.
    pub fn write_block(&mut self, data: &[u8], key: &MasterKey) -> (r: Result<String, VaultError>)
        requires
            old(self).wf(),
        ensures
            final (self).wf(),
            match r {
                Ok(id) => {
                    &&& !old(self)@.contains_key(id@)
                    &&& final (self)@.contains_key(id@)
                    &&& final (self)@ == old(self)@.insert(id@, final (self)@.index(id@))
                    &&& block_payload(final (self)@.index(id@), key@) == Some(data@)
                },
                Err(e) => e == VaultError::EncryptionError && final (self)@ == old(self)@,
            },
    {
        let compressed = match zstd_encode(data, COMPRESSION_LEVEL) {
            Ok(c) => c,
            Err(e) => {
                return Err(e);
            },
        };
        let (ct, nonce) = match CryptoEngine::encrypt(compressed.as_slice(), key) {
            Ok(x) => x,
            Err(e) => {
                return Err(e);
            },
        };
        let ghost nv = nonce@;
        let ghost cv = ct@;
        let mut file = nonce;
        let mut tail = ct;
        file.append(&mut tail);
        proof {
            assert(file@.take(NONCE_SIZE as int) =~= nv);
            assert(file@.skip(NONCE_SIZE as int) =~= cv);
            assert(block_payload(file@, key@) == Some(data@));
        }
        let id = match self.draw_fresh_id() {
            Some(id) => id,
            None => {
                return Err(VaultError::EncryptionError);
            },
        };
        let ghost before = blocks_view(self.blocks@);
        let ghost iv = id@;
        proof {
            lemma_store_map_dom(before, iv);
        }
        self.blocks.push(StoredBlock { id: id.clone(), data: file });
        proof {
            let t = blocks_view(self.blocks@);
            assert(t.drop_last() =~= before);
            assert forall|x: int, y: int| 0 <= x < y < t.len() implies t[x].id != t[y].id by {
                if y == t.len() - 1 {
                    assert(t[x] == before[x]);
                } else {
                    assert(t[x] == before[x] && t[y] == before[y]);
                }
            }
            lemma_store_map_index(t, t.len() - 1);
        }
        Ok(id)
    }

    /// Draws random ids until one does not collide with a stored block.
    /// Ids are drawn from a space large enough that collision is not a
    /// practical concern; the attempt bound keeps the loop finite.
    fn draw_fresh_id(&self) -> (r: Option<String>)
        ensures
            r matches Some(id) ==> !self@.contains_key(id@),
    {
        let mut attempts: usize = 0;
        while attempts < 64
            decreases 64 - attempts,
        {
            attempts += 1;
            let id = fresh_block_id();
            if !self.contains_block(id.as_str()) {
                return Some(id);
            }
        }
        None
    }

    /// Looks a block up, decrypts and decompresses it, and returns the
    /// original payload. Each failure mode carries its own error.
    pub fn read_block(&self, block_id: &str, key: &MasterKey) -> (r: Result<Vec<u8>, VaultError>)
        requires
            self.wf(),
        ensures
            !self@.contains_key(block_id@) ==> r == Err::<Vec<u8>, VaultError>(
                VaultError::BlockNotFound,
            ),
            self@.contains_key(block_id@) ==> match r {
                Ok(p) => block_payload(self@.index(block_id@), key@) == Some(p@),
                Err(e) => {
                    &&& block_payload(self@.index(block_id@), key@) is None
                    &&& (e == VaultError::CorruptBlock <==> self@.index(block_id@).len()
                        < NONCE_SIZE)
                    &&& (e == VaultError::CorruptBlock || e == VaultError::AuthenticationError
                        || e == VaultError::DecompressionError)
                },
            },
    {
        proof {
            lemma_store_map_dom(blocks_view(self.blocks@), block_id@);
        }
        let i = match self.find_block(block_id) {
            Some(i) => i,
            None => {
                return Err(VaultError::BlockNotFound);
            },
        };
        proof {
            lemma_store_map_index(blocks_view(self.blocks@), i as int);
        }
        let file = &self.blocks[i].data;
        if file.len() < NONCE_SIZE {
            return Err(VaultError::CorruptBlock);
        }
        let nonce = vstd::slice::slice_subrange(file.as_slice(), 0, NONCE_SIZE);
        let ct = vstd::slice::slice_subrange(file.as_slice(), NONCE_SIZE, file.len());
        proof {
            assert(nonce@ =~= file@.take(NONCE_SIZE as int));
            assert(ct@ =~= file@.skip(NONCE_SIZE as int));
        }
        let compressed = match CryptoEngine::decrypt(ct, nonce, key) {
            Ok(c) => c,
            Err(_) => {
                return Err(VaultError::AuthenticationError);
            },
        };
        match zstd_decode(compressed.as_slice()) {
            Ok(p) => Ok(p),
            Err(_) => Err(VaultError::DecompressionError),
        }
    }

    /// Removes a block. Idempotent: removing an absent block is not an
    /// error.
    pub fn delete_block(&mut self, block_id: &str) -> (r: Result<(), VaultError>)
        requires
            old(self).wf(),
        ensures
            final (self).wf(),
            r is Ok,
            final (self)@ == old(self)@.remove(block_id@),
    {
        let ghost orig = blocks_view(self.blocks@);
        proof {
            lemma_store_map_dom(orig, block_id@);
        }
        match self.find_block(block_id) {
            Some(i) => {
                self.blocks.remove(i);
                proof {
                    assert(blocks_view(self.blocks@) =~= orig.remove(i as int));
                    lemma_store_map_remove(orig, i as int);
                }
            },
            None => {
                proof {
                    assert(store_map_of(orig).remove(block_id@) =~= store_map_of(orig));
                }
            },
        }
        Ok(())
    }

    /// Mark-and-sweep reclamation: deletes every block whose id is not in
    /// `valid_ids` and reports counts and bytes. With `dry_run` the same
    /// report is computed and nothing is deleted. After a real pass no
    /// orphans remain, so a second pass removes nothing.
    pub fn reclaim(&mut self, valid_ids: &Vec<String>, dry_run: bool) -> (r: ReclaimReport)
        requires
            old(self).wf(),
        ensures
            final (self).wf(),
            r.removed == orphan_count(blocks_view(old(self).blocks@), strs_view_set(valid_ids@)),
            r.kept + r.removed == old(self).blocks@.len(),
            orphan_bytes(blocks_view(old(self).blocks@), strs_view_set(valid_ids@)) <= u64::MAX
                ==> r.bytes_reclaimed == orphan_bytes(
                blocks_view(old(self).blocks@),
                strs_view_set(valid_ids@),
            ),
            dry_run ==> final (self).blocks@ == old(self).blocks@,
            !dry_run ==> final (self)@ == old(self)@.restrict(strs_view_set(valid_ids@)),
            !dry_run ==> orphan_count(blocks_view(final (self).blocks@), strs_view_set(valid_ids@))
                == 0,
    {
        let ghost vs = strs_view_set(valid_ids@);
        let ghost bv = blocks_view(self.blocks@);
        let n = self.blocks.len();
        let mut kept: u64 = 0;
        let mut removed: u64 = 0;
        let mut bytes: u64 = 0;
        let mut kept_vec: Vec<StoredBlock> = Vec::new();
        let mut i: usize = 0;
        while i < n
            invariant
                i <= n,
                n == self.blocks@.len(),
                bv == blocks_view(self.blocks@),
                vs == strs_view_set(valid_ids@),
                store_unique(bv),
                kept as int == i - orphan_count(bv.take(i as int), vs),
                removed as int == orphan_count(bv.take(i as int), vs),
                orphan_bytes(bv.take(i as int), vs) <= u64::MAX ==> bytes as int == orphan_bytes(
                    bv.take(i as int),
                    vs,
                ),
                bytes as int <= orphan_bytes(bv.take(i as int), vs),
                blocks_view(kept_vec@) == kept_seq(bv.take(i as int), vs),
            decreases n - i,
        {
            let is_valid = contains_string(valid_ids, self.blocks[i].id.as_str());
            proof {
                let t = bv.take(i as int + 1);
                assert(t.drop_last() =~= bv.take(i as int));
                assert(t.last() == bv[i as int]);
                assert(bv[i as int] == self.blocks@[i as int]@);
                assert(bv[i as int].id == self.blocks@[i as int].id@);
                assert(is_valid == vs.contains(bv[i as int].id));
                assert(orphan_count(t, vs) == orphan_count(bv.take(i as int), vs) + (
                if vs.contains(bv[i as int].id) {
                    0int
                } else {
                    1int
                }));
                assert(orphan_bytes(t, vs) == orphan_bytes(bv.take(i as int), vs) + (
                if vs.contains(bv[i as int].id) {
                    0int
                } else {
                    bv[i as int].data.len() as int
                }));
                assert(orphan_count(bv.take(i as int), vs) <= i);
                assert(0 <= orphan_count(bv.take(i as int), vs));
                assert(0 <= orphan_bytes(bv.take(i as int), vs));
            }
            if is_valid {
                kept = kept + 1;
                let b = self.blocks[i].clone();
                kept_vec.push(b);
                proof {
                    assert(blocks_view(kept_vec@).drop_last() =~= kept_seq(
                        bv.take(i as int),
                        vs,
                    ));
                    assert(blocks_view(kept_vec@).last() == bv[i as int]);
                    assert(blocks_view(kept_vec@) =~= kept_seq(bv.take(i as int + 1), vs));
                }
            } else {
                removed = removed + 1;
                let len = self.blocks[i].data.len();
                bytes = match bytes.checked_add(len as u64) {
                    Some(v) => v,
                    None => u64::MAX,
                };
            }
            i += 1;
        }
        proof {
            assert(bv.take(n as int) =~= bv);
            lemma_kept_seq_props(bv, vs);
        }
        if !dry_run {
            self.blocks = kept_vec;
        }
        ReclaimReport { kept, removed, bytes_reclaimed: bytes }
    }
}

/// The set of views of a sequence of strings.
pub open spec fn strs_view_set(v: Seq<String>) -> Set<Seq<char>> {
    Set::new(|p: Seq<char>| exists|i: int| 0 <= i < v.len() && v[i]@ == p)
}

/// Whether some string in `v` has the view of `s`.
pub fn contains_string(v: &Vec<String>, s: &str) -> (r: bool)
    ensures
        r == strs_view_set(v@).contains(s@),
{
    let mut i: usize = 0;
    while i < v.len()
        invariant
            i <= v@.len(),
            forall|j: int| 0 <= j < i ==> v@[j]@ != s@,
        decreases v@.len() - i,
    {
        if str_eq(v[i].as_str(), s) {
            return true;
        }
        i += 1;
    }
    false
}

} // verus!
