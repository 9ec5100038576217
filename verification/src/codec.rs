//! The binary encoding of the metadata index.
//!
//! The index is serialized to a compact length-prefixed byte format before
//! it is encrypted: little-endian 64-bit lengths and counters, UTF-8
//! strings, entries in index order. Both directions are verified against
//! the spec-level format, and decoding an encoding gives back the index.

use vstd::prelude::*;
use vstd::slice::{slice_subrange, slice_to_vec};
use vstd::string::*;
use vstd::utf8::{
    decode_utf8, encode_utf8, encode_utf8_decode_utf8, encode_utf8_valid_utf8, valid_utf8,
};

use crate::index::{
    entries_view, strs_view, unique_paths, FileEntry, FileEntryV, VaultIndex, VaultIndexV,
};

verus! {

// ---------------------------------------------------------------------------
// The format, as spec functions.
// ---------------------------------------------------------------------------
/// The eight little-endian bytes of `v`.
pub open spec fn u64_le(v: u64) -> Seq<u8> {
    seq![
        (v & 0xff) as u8,
        ((v >> 8) & 0xff) as u8,
        ((v >> 16) & 0xff) as u8,
        ((v >> 24) & 0xff) as u8,
        ((v >> 32) & 0xff) as u8,
        ((v >> 40) & 0xff) as u8,
        ((v >> 48) & 0xff) as u8,
        ((v >> 56) & 0xff) as u8,
    ]
}

/// The value of eight little-endian bytes.
pub open spec fn u64_of_le(b: Seq<u8>) -> u64
    recommends
        b.len() == 8,
{
    (b[0] as u64) | ((b[1] as u64) << 8) | ((b[2] as u64) << 16) | ((b[3] as u64) << 24) | (
    (b[4] as u64) << 32) | ((b[5] as u64) << 40) | ((b[6] as u64) << 48) | ((b[7] as u64) << 56)
}

/// A string: its UTF-8 length, then its UTF-8 bytes.
pub open spec fn enc_str(s: Seq<char>) -> Seq<u8> {
    u64_le(encode_utf8(s).len() as u64) + encode_utf8(s)
}

/// Strings back to back, without a count in front.
pub open spec fn enc_str_list(l: Seq<Seq<char>>) -> Seq<u8>
    decreases l.len(),
{
    if l.len() == 0 {
        Seq::empty()
    } else {
        enc_str(l[0]) + enc_str_list(l.skip(1))
    }
}

/// One entry: path, size, modified, directory flag, block count, blocks.
pub open spec fn enc_entry(e: FileEntryV) -> Seq<u8> {
    enc_str(e.path) + u64_le(e.size) + u64_le(e.modified) + seq![
        if e.is_dir {
            1u8
        } else {
            0u8
        },
    ] + u64_le(e.blocks.len() as u64) + enc_str_list(e.blocks)
}

/// Entries back to back, without a count in front.
pub open spec fn enc_entries(s: Seq<FileEntryV>) -> Seq<u8>
    decreases s.len(),
{
    if s.len() == 0 {
        Seq::empty()
    } else {
        enc_entry(s[0]) + enc_entries(s.skip(1))
    }
}

/// The whole index: version, revision, salt, entry count, entries.
pub open spec fn enc_index(v: VaultIndexV) -> Seq<u8> {
    seq![v.version] + u64_le(v.revision) + enc_str(v.salt) + u64_le(v.files.len() as u64)
        + enc_entries(v.files)
}

/// The length prefix of a string is faithful.
pub open spec fn enc_str_ok(s: Seq<char>) -> bool {
    encode_utf8(s).len() <= u64::MAX
}

/// All length prefixes of an entry are faithful.
pub open spec fn enc_entry_ok(e: FileEntryV) -> bool {
    &&& enc_str_ok(e.path)
    &&& e.blocks.len() <= u64::MAX
    &&& forall|i: int| 0 <= i < e.blocks.len() ==> enc_str_ok(#[trigger] e.blocks[i])
}

/// The index encodes without loss: faithful lengths and unique paths.
pub open spec fn enc_index_ok(v: VaultIndexV) -> bool {
    &&& enc_str_ok(v.salt)
    &&& v.files.len() <= u64::MAX
    &&& forall|i: int| 0 <= i < v.files.len() ==> enc_entry_ok(#[trigger] v.files[i])
    &&& unique_paths(v.files)
}

// ---------------------------------------------------------------------------
// The decoder, as spec functions over the remaining bytes.
// ---------------------------------------------------------------------------
pub open spec fn dec_u64(b: Seq<u8>) -> Option<(u64, Seq<u8>)> {
    if b.len() < 8 {
        None
    } else {
        Some((u64_of_le(b.take(8)), b.skip(8)))
    }
}

pub open spec fn dec_byte(b: Seq<u8>) -> Option<(u8, Seq<u8>)> {
    if b.len() < 1 {
        None
    } else {
        Some((b[0], b.skip(1)))
    }
}

pub open spec fn dec_str(b: Seq<u8>) -> Option<(Seq<char>, Seq<u8>)> {
    match dec_u64(b) {
        Option::None => None,
        Option::Some((n, r)) => {
            if r.len() < n {
                None
            } else if !valid_utf8(r.take(n as int)) {
                None
            } else {
                Some((decode_utf8(r.take(n as int)), r.skip(n as int)))
            }
        },
    }
}

pub open spec fn dec_strs(b: Seq<u8>, n: nat) -> Option<(Seq<Seq<char>>, Seq<u8>)>
    decreases n,
{
    if n == 0 {
        Some((Seq::empty(), b))
    } else {
        match dec_str(b) {
            Option::None => None,
            Option::Some((s, r)) => match dec_strs(r, (n - 1) as nat) {
                Option::None => None,
                Option::Some((l, r2)) => Some((seq![s] + l, r2)),
            },
        }
    }
}

pub open spec fn dec_entry(b: Seq<u8>) -> Option<(FileEntryV, Seq<u8>)> {
    match dec_str(b) {
        Option::None => None,
        Option::Some((path, b1)) => match dec_u64(b1) {
            Option::None => None,
            Option::Some((size, b2)) => match dec_u64(b2) {
                Option::None => None,
                Option::Some((modified, b3)) => match dec_byte(b3) {
                    Option::None => None,
                    Option::Some((flag, b4)) => if flag != 0 && flag != 1 {
                        None
                    } else {
                        match dec_u64(b4) {
                            Option::None => None,
                            Option::Some((nb, b5)) => match dec_strs(b5, nb as nat) {
                                Option::None => None,
                                Option::Some((blocks, b6)) => Some(
                                    (
                                        FileEntryV {
                                            path,
                                            size,
                                            modified,
                                            blocks,
                                            is_dir: flag == 1,
                                        },
                                        b6,
                                    ),
                                ),
                            },
                        }
                    },
                },
            },
        },
    }
}

pub open spec fn dec_entries(b: Seq<u8>, n: nat) -> Option<(Seq<FileEntryV>, Seq<u8>)>
    decreases n,
{
    if n == 0 {
        Some((Seq::empty(), b))
    } else {
        match dec_entry(b) {
            Option::None => None,
            Option::Some((e, r)) => match dec_entries(r, (n - 1) as nat) {
                Option::None => None,
                Option::Some((l, r2)) => Some((seq![e] + l, r2)),
            },
        }
    }
}

/// What a byte string decodes to, if anything: the spec-level decoder.
pub open spec fn decode_index_spec(b: Seq<u8>) -> Option<VaultIndexV> {
    match dec_byte(b) {
        Option::None => None,
        Option::Some((version, b1)) => match dec_u64(b1) {
            Option::None => None,
            Option::Some((revision, b2)) => match dec_str(b2) {
                Option::None => None,
                Option::Some((salt, b3)) => match dec_u64(b3) {
                    Option::None => None,
                    Option::Some((n, b4)) => match dec_entries(b4, n as nat) {
                        Option::None => None,
                        Option::Some((files, b5)) => if b5.len() == 0 && unique_paths(files) {
                            Some(VaultIndexV { version, revision, salt, files })
                        } else {
                            None
                        },
                    },
                },
            },
        },
    }
}

// ---------------------------------------------------------------------------
// Round trip: decoding an encoding gives back the index.
// ---------------------------------------------------------------------------
proof fn lemma_u64_le_roundtrip(v: u64)
    ensures
        u64_of_le(u64_le(v)) == v,
{
    assert((((v & 0xff) as u8) as u64) | (((((v >> 8) & 0xff) as u8) as u64) << 8) | (((((v >> 16)
        & 0xff) as u8) as u64) << 16) | (((((v >> 24) & 0xff) as u8) as u64) << 24) | (((((v >> 32)
        & 0xff) as u8) as u64) << 32) | (((((v >> 40) & 0xff) as u8) as u64) << 40) | (((((v >> 48)
        & 0xff) as u8) as u64) << 48) | (((((v >> 56) & 0xff) as u8) as u64) << 56) == v)
        by (bit_vector);
}

pub proof fn lemma_dec_u64_enc(v: u64, rest: Seq<u8>)
    ensures
        dec_u64(u64_le(v) + rest) == Some((v, rest)),
{
    let b = u64_le(v) + rest;
    assert(b.take(8) =~= u64_le(v));
    assert(b.skip(8) =~= rest);
    lemma_u64_le_roundtrip(v);
}

pub proof fn lemma_dec_byte_enc(x: u8, rest: Seq<u8>)
    ensures
        dec_byte(seq![x] + rest) == Some((x, rest)),
{
    let b = seq![x] + rest;
    assert(b[0] == x);
    assert(b.skip(1) =~= rest);
}

pub proof fn lemma_dec_str_enc(s: Seq<char>, rest: Seq<u8>)
    requires
        enc_str_ok(s),
    ensures
        dec_str(enc_str(s) + rest) == Some((s, rest)),
{
    let eb = encode_utf8(s);
    let n = eb.len() as u64;
    assert(enc_str(s) + rest =~= u64_le(n) + (eb + rest));
    lemma_dec_u64_enc(n, eb + rest);
    assert((eb + rest).take(n as int) =~= eb);
    assert((eb + rest).skip(n as int) =~= rest);
    encode_utf8_valid_utf8(s);
    encode_utf8_decode_utf8(s);
}

pub proof fn lemma_dec_strs_enc(l: Seq<Seq<char>>, rest: Seq<u8>)
    requires
        forall|i: int| 0 <= i < l.len() ==> enc_str_ok(#[trigger] l[i]),
    ensures
        dec_strs(enc_str_list(l) + rest, l.len()) == Some((l, rest)),
    decreases l.len(),
{
    if l.len() == 0 {
        assert(enc_str_list(l) + rest =~= rest);
    } else {
        assert(enc_str_list(l) + rest =~= enc_str(l[0]) + (enc_str_list(l.skip(1)) + rest));
        lemma_dec_str_enc(l[0], enc_str_list(l.skip(1)) + rest);
        lemma_dec_strs_enc(l.skip(1), rest);
        assert(seq![l[0]] + l.skip(1) =~= l);
    }
}

pub proof fn lemma_dec_entry_enc(e: FileEntryV, rest: Seq<u8>)
    requires
        enc_entry_ok(e),
    ensures
        dec_entry(enc_entry(e) + rest) == Some((e, rest)),
{
    let flag: u8 = if e.is_dir {
        1u8
    } else {
        0u8
    };
    let t5 = enc_str_list(e.blocks) + rest;
    let t4 = u64_le(e.blocks.len() as u64) + t5;
    let t3 = seq![flag] + t4;
    let t2 = u64_le(e.modified) + t3;
    let t1 = u64_le(e.size) + t2;
    assert(enc_entry(e) + rest =~= enc_str(e.path) + t1);
    lemma_dec_str_enc(e.path, t1);
    lemma_dec_u64_enc(e.size, t2);
    lemma_dec_u64_enc(e.modified, t3);
    lemma_dec_byte_enc(flag, t4);
    lemma_dec_u64_enc(e.blocks.len() as u64, t5);
    assert((e.blocks.len() as u64) as nat == e.blocks.len());
    lemma_dec_strs_enc(e.blocks, rest);
}

#[verifier::rlimit(50)]
pub proof fn lemma_dec_entries_enc(s: Seq<FileEntryV>, rest: Seq<u8>)
    requires
        forall|i: int| 0 <= i < s.len() ==> enc_entry_ok(#[trigger] s[i]),
    ensures
        dec_entries(enc_entries(s) + rest, s.len()) == Some((s, rest)),
    decreases s.len(),
{
    if s.len() == 0 {
        assert(enc_entries(s) + rest =~= rest);
    } else {
        assert(enc_entries(s) + rest =~= enc_entry(s[0]) + (enc_entries(s.skip(1)) + rest));
        lemma_dec_entry_enc(s[0], enc_entries(s.skip(1)) + rest);
        lemma_dec_entries_enc(s.skip(1), rest);
        assert(seq![s[0]] + s.skip(1) =~= s);
    }
}

/// Decoding is a left inverse of encoding: any losslessly encodable index
/// comes back unchanged from its own encoding.
pub proof fn lemma_decode_encode(v: VaultIndexV)
    requires
        enc_index_ok(v),
    ensures
        decode_index_spec(enc_index(v)) == Some(v),
{
    let t4 = enc_entries(v.files) + Seq::<u8>::empty();
    let t3 = u64_le(v.files.len() as u64) + t4;
    let t2 = enc_str(v.salt) + t3;
    let t1 = u64_le(v.revision) + t2;
    assert(enc_index(v) =~= seq![v.version] + t1);
    lemma_dec_byte_enc(v.version, t1);
    lemma_dec_u64_enc(v.revision, t2);
    lemma_dec_str_enc(v.salt, t3);
    lemma_dec_u64_enc(v.files.len() as u64, t4);
    assert((v.files.len() as u64) as nat == v.files.len());
    lemma_dec_entries_enc(v.files, Seq::<u8>::empty());
}

// ---------------------------------------------------------------------------
// Length bounds: every component of an encoding is at most as long as the
// whole, so a short enough encoding certifies faithful length prefixes.
// ---------------------------------------------------------------------------
proof fn lemma_enc_str_list_len(l: Seq<Seq<char>>)
    ensures
        enc_str_list(l).len() >= l.len(),
        forall|i: int|
            0 <= i < l.len() ==> encode_utf8(#[trigger] l[i]).len() <= enc_str_list(l).len(),
    decreases l.len(),
{
    if l.len() > 0 {
        lemma_enc_str_list_len(l.skip(1));
        assert forall|i: int|
            0 <= i < l.len() implies encode_utf8(#[trigger] l[i]).len() <= enc_str_list(
            l,
        ).len() by {
            if i > 0 {
                assert(l[i] == l.skip(1)[i - 1]);
            }
        }
    }
}

proof fn lemma_enc_entry_len(e: FileEntryV)
    ensures
        enc_entry(e).len() >= 1,
        encode_utf8(e.path).len() <= enc_entry(e).len(),
        e.blocks.len() <= enc_entry(e).len(),
        forall|i: int|
            0 <= i < e.blocks.len() ==> encode_utf8(#[trigger] e.blocks[i]).len() <= enc_entry(
                e,
            ).len(),
{
    lemma_enc_str_list_len(e.blocks);
}

proof fn lemma_enc_entries_len(s: Seq<FileEntryV>)
    ensures
        enc_entries(s).len() >= s.len(),
        forall|i: int|
            0 <= i < s.len() ==> enc_entry(#[trigger] s[i]).len() <= enc_entries(s).len(),
    decreases s.len(),
{
    if s.len() > 0 {
        lemma_enc_entries_len(s.skip(1));
        lemma_enc_entry_len(s[0]);
        assert forall|i: int|
            0 <= i < s.len() implies enc_entry(#[trigger] s[i]).len() <= enc_entries(
            s,
        ).len() by {
            if i > 0 {
                assert(s[i] == s.skip(1)[i - 1]);
            }
        }
    }
}

/// An index whose whole encoding fits in `u64` bounds has faithful length
/// prefixes throughout.
pub proof fn lemma_enc_index_ok(v: VaultIndexV, bound: nat)
    requires
        enc_index(v).len() <= bound,
        bound <= u64::MAX,
        unique_paths(v.files),
    ensures
        enc_index_ok(v),
{
    lemma_enc_entries_len(v.files);
    assert forall|i: int| 0 <= i < v.files.len() implies enc_entry_ok(#[trigger] v.files[i]) by {
        lemma_enc_entry_len(v.files[i]);
    }
}

// ---------------------------------------------------------------------------
// Executable encoder.
// ---------------------------------------------------------------------------
proof fn lemma_enc_str_list_snoc(l: Seq<Seq<char>>)
    requires
        l.len() > 0,
    ensures
        enc_str_list(l) == enc_str_list(l.drop_last()) + enc_str(l.last()),
    decreases l.len(),
{
    if l.len() == 1 {
        assert(l.skip(1) =~= Seq::<Seq<char>>::empty());
        assert(l.drop_last() =~= Seq::<Seq<char>>::empty());
        assert(enc_str_list(l) =~= enc_str_list(l.drop_last()) + enc_str(l.last()));
    } else {
        lemma_enc_str_list_snoc(l.skip(1));
        assert(l.skip(1).drop_last() =~= l.drop_last().skip(1));
        assert(l.skip(1).last() == l.last());
        assert(l.drop_last()[0] == l[0]);
        assert(enc_str_list(l) =~= enc_str_list(l.drop_last()) + enc_str(l.last()));
    }
}

proof fn lemma_enc_entries_snoc(s: Seq<FileEntryV>)
    requires
        s.len() > 0,
    ensures
        enc_entries(s) == enc_entries(s.drop_last()) + enc_entry(s.last()),
    decreases s.len(),
{
    if s.len() == 1 {
        assert(s.skip(1) =~= Seq::<FileEntryV>::empty());
        assert(s.drop_last() =~= Seq::<FileEntryV>::empty());
        assert(enc_entries(s) =~= enc_entries(s.drop_last()) + enc_entry(s.last()));
    } else {
        lemma_enc_entries_snoc(s.skip(1));
        assert(s.skip(1).drop_last() =~= s.drop_last().skip(1));
        assert(s.skip(1).last() == s.last());
        assert(s.drop_last()[0] == s[0]);
        assert(enc_entries(s) =~= enc_entries(s.drop_last()) + enc_entry(s.last()));
    }
}

fn push_u64_le(out: &mut Vec<u8>, v: u64)
    ensures
        final (out)@ == old(out)@ + u64_le(v),
{
    proof {
        assert((v & 0xff) < 256 && ((v >> 8) & 0xff) < 256 && ((v >> 16) & 0xff) < 256 && ((v
            >> 24) & 0xff) < 256 && ((v >> 32) & 0xff) < 256 && ((v >> 40) & 0xff) < 256 && ((v
            >> 48) & 0xff) < 256 && ((v >> 56) & 0xff) < 256) by (bit_vector);
    }
    out.push((v & 0xff) as u8);
    out.push(((v >> 8) & 0xff) as u8);
    out.push(((v >> 16) & 0xff) as u8);
    out.push(((v >> 24) & 0xff) as u8);
    out.push(((v >> 32) & 0xff) as u8);
    out.push(((v >> 40) & 0xff) as u8);
    out.push(((v >> 48) & 0xff) as u8);
    out.push(((v >> 56) & 0xff) as u8);
    proof {
        assert(out@ =~= old(out)@ + u64_le(v));
    }
}

fn push_str(out: &mut Vec<u8>, s: &String)
    ensures
        final (out)@ == old(out)@ + enc_str(s@),
{
    let mut bytes = s.as_str().as_bytes_vec();
    let n = bytes.len();
    push_u64_le(out, n as u64);
    out.append(&mut bytes);
    proof {
        assert(out@ =~= old(out)@ + enc_str(s@));
    }
}

fn push_entry(out: &mut Vec<u8>, e: &FileEntry)
    ensures
        final (out)@ == old(out)@ + enc_entry(e@),
{
    push_str(out, &e.path);
    push_u64_le(out, e.size);
    push_u64_le(out, e.modified);
    if e.is_dir {
        out.push(1u8);
    } else {
        out.push(0u8);
    }
    push_u64_le(out, e.blocks.len() as u64);
    let ghost prefix = out@;
    let mut i: usize = 0;
    while i < e.blocks.len()
        invariant
            i <= e.blocks@.len(),
            out@ == prefix + enc_str_list(strs_view(e.blocks@).take(i as int)),
        decreases e.blocks@.len() - i,
    {
        push_str(out, &e.blocks[i]);
        proof {
            let t = strs_view(e.blocks@).take(i as int + 1);
            assert(t.drop_last() =~= strs_view(e.blocks@).take(i as int));
            assert(t.last() == e.blocks@[i as int]@);
            lemma_enc_str_list_snoc(t);
            assert(out@ =~= prefix + enc_str_list(t));
        }
        i += 1;
    }
    proof {
        assert(strs_view(e.blocks@).take(e.blocks@.len() as int) =~= strs_view(e.blocks@));
        assert(out@ =~= old(out)@ + enc_entry(e@));
    }
}

/// Serializes the index to its binary form.
pub fn encode_index(idx: &VaultIndex) -> (r: Vec<u8>)
    ensures
        r@ == enc_index(idx@),
{
    let mut out: Vec<u8> = Vec::new();
    out.push(idx.version);
    push_u64_le(&mut out, idx.revision);
    push_str(&mut out, &idx.salt);
    push_u64_le(&mut out, idx.files.len() as u64);
    let ghost prefix = out@;
    let mut i: usize = 0;
    while i < idx.files.len()
        invariant
            i <= idx.files@.len(),
            out@ == prefix + enc_entries(entries_view(idx.files@).take(i as int)),
        decreases idx.files@.len() - i,
    {
        push_entry(&mut out, &idx.files[i]);
        proof {
            let t = entries_view(idx.files@).take(i as int + 1);
            assert(t.drop_last() =~= entries_view(idx.files@).take(i as int));
            assert(t.last() == idx.files@[i as int]@);
            lemma_enc_entries_snoc(t);
            assert(out@ =~= prefix + enc_entries(t));
        }
        i += 1;
    }
    proof {
        assert(entries_view(idx.files@).take(idx.files@.len() as int) =~= entries_view(
            idx.files@,
        ));
        assert(out@ =~= enc_index(idx@));
    }
    out
}

// ---------------------------------------------------------------------------
// Executable decoder.
// ---------------------------------------------------------------------------
/// Relies on `String::from_utf8` of std: it returns a string exactly when
/// the bytes are valid UTF-8, and the returned string's UTF-8 encoding is
/// those bytes.
#[verifier::external_body]
fn string_from_utf8(bytes: Vec<u8>) -> (r: Option<String>)
    ensures
        match r {
            Some(s) => encode_utf8(s@) == bytes@,
            None => !valid_utf8(bytes@),
        },
{
    String::from_utf8(bytes).ok()
}

fn read_byte(b: &[u8], pos: usize) -> (r: Option<(u8, usize)>)
    requires
        pos <= b@.len(),
    ensures
        match r {
            Some((v, p2)) => pos < p2 <= b@.len() && dec_byte(b@.skip(pos as int)) == Some(
                (v, b@.skip(p2 as int)),
            ),
            None => dec_byte(b@.skip(pos as int)) is None,
        },
{
    if b.len() - pos < 1 {
        return None;
    }
    let v = b[pos];
    proof {
        assert(b@.skip(pos as int)[0] == b@[pos as int]);
        assert(b@.skip(pos as int).skip(1) =~= b@.skip(pos as int + 1));
    }
    Some((v, pos + 1))
}

fn read_u64(b: &[u8], pos: usize) -> (r: Option<(u64, usize)>)
    requires
        pos <= b@.len(),
    ensures
        match r {
            Some((v, p2)) => pos < p2 <= b@.len() && dec_u64(b@.skip(pos as int)) == Some(
                (v, b@.skip(p2 as int)),
            ),
            None => dec_u64(b@.skip(pos as int)) is None,
        },
{
    if b.len() - pos < 8 {
        return None;
    }
    let v = (b[pos] as u64) | ((b[pos + 1] as u64) << 8) | ((b[pos + 2] as u64) << 16) | ((b[pos
        + 3] as u64) << 24) | ((b[pos + 4] as u64) << 32) | ((b[pos + 5] as u64) << 40) | ((b[pos
        + 6] as u64) << 48) | ((b[pos + 7] as u64) << 56);
    proof {
        let s = b@.skip(pos as int);
        assert(s.take(8) =~= b@.subrange(pos as int, pos as int + 8));
        assert forall|k: int| 0 <= k < 8 implies s.take(8)[k] == b@[pos as int + k] by {}
        assert(u64_of_le(s.take(8)) == v);
        assert(s.skip(8) =~= b@.skip(pos as int + 8));
    }
    Some((v, pos + 8))
}

fn read_str(b: &[u8], pos: usize) -> (r: Option<(String, usize)>)
    requires
        pos <= b@.len(),
    ensures
        match r {
            Some((s, p2)) => pos <= p2 <= b@.len() && dec_str(b@.skip(pos as int)) == Some(
                (s@, b@.skip(p2 as int)),
            ),
            None => dec_str(b@.skip(pos as int)) is None,
        },
{
    let (n64, p1) = match read_u64(b, pos) {
        Some(x) => x,
        None => {
            return None;
        },
    };
    let rem = b.len() - p1;
    if n64 > rem as u64 {
        proof {
            assert(b@.skip(p1 as int).len() < n64);
        }
        return None;
    }
    let n = n64 as usize;
    let sb = slice_subrange(b, p1, p1 + n);
    let v = slice_to_vec(sb);
    proof {
        assert(v@ =~= b@.skip(p1 as int).take(n64 as int));
    }
    match string_from_utf8(v) {
        Some(s) => {
            proof {
                encode_utf8_valid_utf8(s@);
                encode_utf8_decode_utf8(s@);
                assert(b@.skip(p1 as int).skip(n64 as int) =~= b@.skip(p1 as int + n as int));
            }
            Some((s, p1 + n))
        },
        None => None,
    }
}

fn read_str_list(b: &[u8], pos: usize, n: u64) -> (r: Option<(Vec<String>, usize)>)
    requires
        pos <= b@.len(),
    ensures
        match r {
            Some((l, p2)) => pos <= p2 <= b@.len() && dec_strs(b@.skip(pos as int), n as nat)
                == Some((strs_view(l@), b@.skip(p2 as int))),
            None => dec_strs(b@.skip(pos as int), n as nat) is None,
        },
{
    let mut acc: Vec<String> = Vec::new();
    let mut p = pos;
    let mut i: u64 = 0;
    while i < n
        invariant
            i <= n,
            pos <= p <= b@.len(),
            acc@.len() == i,
            dec_strs(b@.skip(p as int), (n - i) as nat) matches Some(t) ==> dec_strs(
                b@.skip(pos as int),
                n as nat,
            ) == Some((strs_view(acc@) + t.0, t.1)),
            dec_strs(b@.skip(p as int), (n - i) as nat) is None ==> dec_strs(
                b@.skip(pos as int),
                n as nat,
            ) is None,
        decreases n - i,
    {
        match read_str(b, p) {
            None => {
                return None;
            },
            Some((s, p2)) => {
                proof {
                    let ghost rem = dec_strs(b@.skip(p2 as int), (n - i - 1) as nat);
                    if rem is Some {
                        let (l2, r2) = rem.unwrap();
                        assert(dec_strs(b@.skip(p as int), (n - i) as nat) == Some(
                            (seq![s@] + l2, r2),
                        ));
                        assert(strs_view(acc@.push(s)) =~= strs_view(acc@) + seq![s@]);
                        assert(strs_view(acc@) + (seq![s@] + l2) =~= (strs_view(acc@) + seq![s@])
                            + l2);
                    } else {
                        assert(dec_strs(b@.skip(p as int), (n - i) as nat) is None);
                    }
                }
                acc.push(s);
                p = p2;
                i += 1;
            },
        }
    }
    proof {
        assert(dec_strs(b@.skip(p as int), 0) == Some((Seq::<Seq<char>>::empty(), b@.skip(
            p as int,
        ))));
        assert(strs_view(acc@) + Seq::<Seq<char>>::empty() =~= strs_view(acc@));
    }
    Some((acc, p))
}

fn read_entry(b: &[u8], pos: usize) -> (r: Option<(FileEntry, usize)>)
    requires
        pos <= b@.len(),
    ensures
        match r {
            Some((e, p2)) => pos <= p2 <= b@.len() && dec_entry(b@.skip(pos as int)) == Some(
                (e@, b@.skip(p2 as int)),
            ),
            None => dec_entry(b@.skip(pos as int)) is None,
        },
{
    let (path, p1) = match read_str(b, pos) {
        Some(x) => x,
        None => {
            return None;
        },
    };
    let (size, p2) = match read_u64(b, p1) {
        Some(x) => x,
        None => {
            return None;
        },
    };
    let (modified, p3) = match read_u64(b, p2) {
        Some(x) => x,
        None => {
            return None;
        },
    };
    let (flag, p4) = match read_byte(b, p3) {
        Some(x) => x,
        None => {
            return None;
        },
    };
    if flag > 1 {
        return None;
    }
    let (nb, p5) = match read_u64(b, p4) {
        Some(x) => x,
        None => {
            return None;
        },
    };
    let (blocks, p6) = match read_str_list(b, p5, nb) {
        Some(x) => x,
        None => {
            return None;
        },
    };
    let e = FileEntry { path, size, modified, blocks, is_dir: flag == 1 };
    Some((e, p6))
}

#[verifier::rlimit(50)]
fn read_entries(b: &[u8], pos: usize, n: u64) -> (r: Option<(Vec<FileEntry>, usize)>)
    requires
        pos <= b@.len(),
    ensures
        match r {
            Some((l, p2)) => pos <= p2 <= b@.len() && dec_entries(b@.skip(pos as int), n as nat)
                == Some((entries_view(l@), b@.skip(p2 as int))),
            None => dec_entries(b@.skip(pos as int), n as nat) is None,
        },
{
    let mut acc: Vec<FileEntry> = Vec::new();
    let mut p = pos;
    let mut i: u64 = 0;
    while i < n
        invariant
            i <= n,
            pos <= p <= b@.len(),
            acc@.len() == i,
            dec_entries(b@.skip(p as int), (n - i) as nat) matches Some(t) ==> dec_entries(
                b@.skip(pos as int),
                n as nat,
            ) == Some((entries_view(acc@) + t.0, t.1)),
            dec_entries(b@.skip(p as int), (n - i) as nat) is None ==> dec_entries(
                b@.skip(pos as int),
                n as nat,
            ) is None,
        decreases n - i,
    {
        match read_entry(b, p) {
            None => {
                return None;
            },
            Some((e, p2)) => {
                proof {
                    let ghost rem = dec_entries(b@.skip(p2 as int), (n - i - 1) as nat);
                    if rem is Some {
                        let (l2, r2) = rem.unwrap();
                        assert(dec_entries(b@.skip(p as int), (n - i) as nat) == Some(
                            (seq![e@] + l2, r2),
                        ));
                        assert(entries_view(acc@.push(e)) =~= entries_view(acc@) + seq![e@]);
                        assert(entries_view(acc@) + (seq![e@] + l2) =~= (entries_view(acc@)
                            + seq![e@]) + l2);
                    } else {
                        assert(dec_entries(b@.skip(p as int), (n - i) as nat) is None);
                    }
                }
                acc.push(e);
                p = p2;
                i += 1;
            },
        }
    }
    proof {
        assert(dec_entries(b@.skip(p as int), 0) == Some((Seq::<FileEntryV>::empty(), b@.skip(
            p as int,
        ))));
        assert(entries_view(acc@) + Seq::<FileEntryV>::empty() =~= entries_view(acc@));
    }
    Some((acc, p))
}

fn paths_unique(files: &Vec<FileEntry>) -> (r: bool)
    ensures
        r == unique_paths(entries_view(files@)),
{
    let ghost fv = entries_view(files@);
    let mut i: usize = 0;
    while i < files.len()
        invariant
            i <= files@.len(),
            fv == entries_view(files@),
            unique_paths(fv.take(i as int)),
        decreases files@.len() - i,
    {
        let mut j: usize = 0;
        while j < i
            invariant
                j <= i < files@.len(),
                fv == entries_view(files@),
                forall|x: int| 0 <= x < j ==> fv[x].path != fv[i as int].path,
            decreases i - j,
        {
            if files[j].path == files[i].path {
                proof {
                    assert(fv[j as int].path == fv[i as int].path);
                    assert(!unique_paths(fv));
                }
                return false;
            }
            j += 1;
        }
        proof {
            let t = fv.take(i as int + 1);
            assert forall|x: int, y: int| 0 <= x < y < t.len() implies t[x].path != t[y].path by {
                if y < i {
                    assert(fv.take(i as int)[x].path != fv.take(i as int)[y].path);
                } else {
                    assert(t[y] == fv[i as int]);
                    assert(t[x] == fv[x]);
                }
            }
        }
        i += 1;
    }
    proof {
        assert(fv.take(files@.len() as int) =~= fv);
    }
    true
}

/// Parses the binary form back into an index. Returns `None` exactly when
/// the bytes are not a well-formed encoding.
pub fn decode_index(b: &[u8]) -> (r: Option<VaultIndex>)
    ensures
        match r {
            Some(idx) => decode_index_spec(b@) == Some(idx@) && idx@.wf(),
            None => decode_index_spec(b@) is None,
        },
{
    proof {
        assert(b@.skip(0) =~= b@);
    }
    let (version, p1) = match read_byte(b, 0) {
        Some(x) => x,
        None => {
            return None;
        },
    };
    let (revision, p2) = match read_u64(b, p1) {
        Some(x) => x,
        None => {
            return None;
        },
    };
    let (salt, p3) = match read_str(b, p2) {
        Some(x) => x,
        None => {
            return None;
        },
    };
    let (n, p4) = match read_u64(b, p3) {
        Some(x) => x,
        None => {
            return None;
        },
    };
    let (files, p5) = match read_entries(b, p4, n) {
        Some(x) => x,
        None => {
            return None;
        },
    };
    if p5 != b.len() {
        proof {
            assert(b@.skip(p5 as int).len() != 0);
        }
        return None;
    }
    if !paths_unique(&files) {
        return None;
    }
    let idx = VaultIndex { version, revision, salt, files };
    Some(idx)
}

} // verus!
