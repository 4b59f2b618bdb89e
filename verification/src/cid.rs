//! Content identifiers: a version, the codec of the block that is named, and
//! the hash of its bytes.

use crate::error::CarError;
use crate::stream::{bytes_from, ByteCursor};
use crate::varint::{
    first_low, le128, lemma_varint_encode_last, lemma_varint_encode_len, lemma_varint_encode_shape,
    lemma_varint_prefix, pow128, varint_encode,
};
use vstd::prelude::*;

verus! {

/// Codec tag of blocks that are plain bytes.
pub const RAW: u64 = 0x55;

/// Codec tag of blocks in the protobuf form of a node with links.
pub const DAG_PB: u64 = 0x70;

/// Codec tag of blocks in the CBOR form of a structured value.
pub const DAG_CBOR: u64 = 0x71;

/// Hash function tag of SHA-2 with 256 bits.
pub const SHA2_256: u64 = 0x12;

/// Hash function tag of Blake2b with 256 bits, the hash of new blocks.
pub const BLAKE2B256_CODEC: u64 = 0xb220;

/// The most bytes that a digest may have.
pub const MAX_DIGEST_LEN: usize = 64;

/// A content identifier as a mathematical value.
pub struct CidView {
    pub version: u64,
    pub codec: u64,
    pub hash_code: u64,
    pub digest: Seq<u8>,
}

impl CidView {
    /// The identifiers that exist: of version 0 or 1, with a digest of at
    /// most 64 bytes. Version 0 is always a SHA-2 hash that names a protobuf
    /// block.
    pub open spec fn wf(self) -> bool {
        &&& self.version <= 1
        &&& self.digest.len() <= MAX_DIGEST_LEN
        &&& self.version == 0 ==> self.codec == DAG_PB && self.hash_code == SHA2_256
    }

    /// The identifier is that of `data`: its digest is what its hash
    /// function gives of `data`.
    pub open spec fn names(self, data: Seq<u8>) -> bool {
        multihash_digest(self.hash_code, data) == Some(self.digest)
    }

    /// The identifiers whose bytes read back as themselves: all of version 1,
    /// and those of version 0 whose digest has the 32 bytes of SHA-2.
    pub open spec fn canonical(self) -> bool {
        self.version == 0 ==> self.digest.len() == 32
    }
}

/// A content identifier. Two identifiers are the same when their version,
/// codec, hash function and digest are.
#[derive(Debug)]
pub struct Cid {
    pub(crate) version: u64,
    pub(crate) codec: u64,
    pub(crate) hash_code: u64,
    pub(crate) digest: Vec<u8>,
}

impl View for Cid {
    type V = CidView;

    closed spec fn view(&self) -> CidView {
        CidView {
            version: self.version,
            codec: self.codec,
            hash_code: self.hash_code,
            digest: self.digest@,
        }
    }
}

/// The bytes of a hash with its self-description: the function's tag, the
/// digest's length, the digest.
pub open spec fn multihash_bytes(hash_code: u64, digest: Seq<u8>) -> Seq<u8> {
    varint_encode(hash_code as nat) + varint_encode(digest.len()) + digest
}

/// The bytes that stand for an identifier in an archive. Version 0 is its
/// hash alone; version 1 puts the version and the codec before the hash.
pub open spec fn cid_bytes(c: CidView) -> Seq<u8> {
    if c.version == 0 {
        multihash_bytes(c.hash_code, c.digest)
    } else {
        varint_encode(c.version as nat) + varint_encode(c.codec as nat) + multihash_bytes(
            c.hash_code,
            c.digest,
        )
    }
}

/// Reading one unsigned number of an identifier at the start of `s`: its
/// value and how many bytes it took. There is none where the bytes run out,
/// where ten bytes do not end it, or where a last byte of zero follows
/// another byte.
pub open spec fn uvarint_read(s: Seq<u8>) -> Option<(u64, nat)> {
    let k = first_low(s);
    if k < s.len() && k < 10 && !(k > 0 && s[k as int] == 0) {
        Some(((le128(s.take(k as int + 1)) % 0x1_0000_0000_0000_0000) as u64, k + 1))
    } else {
        None
    }
}

/// Reading a hash at the start of `s`: the function's tag, the digest and
/// how many bytes they took.
pub open spec fn multihash_parse(s: Seq<u8>) -> Option<(u64, Seq<u8>, nat)> {
    match uvarint_read(s) {
        None => None,
        Some((code, n1)) => match uvarint_read(s.skip(n1 as int)) {
            None => None,
            Some((size, n2)) => {
                let n = n1 + n2;
                if size <= MAX_DIGEST_LEN && n + size <= s.len() {
                    Some((code, s.subrange(n as int, n as int + size as int), (n + size) as nat))
                } else {
                    None
                }
            },
        },
    }
}

/// Reading an identifier at the start of `s`: the identifier and how many
/// bytes it took. Bytes that start with `0x12 0x20` are a version 0
/// identifier, which is that hash alone. All others give the version and the
/// codec first.
pub open spec fn cid_parse(s: Seq<u8>) -> Option<(CidView, nat)> {
    match uvarint_read(s) {
        None => None,
        Some((version, n1)) => match uvarint_read(s.skip(n1 as int)) {
            None => None,
            Some((codec, n2)) => {
                let n = n1 + n2;
                if version == 0x12 && codec == 0x20 {
                    if n + 32 <= s.len() {
                        Some(
                            (
                                CidView {
                                    version: 0,
                                    codec: DAG_PB,
                                    hash_code: SHA2_256,
                                    digest: s.subrange(n as int, n as int + 32),
                                },
                                (n + 32) as nat,
                            ),
                        )
                    } else {
                        None
                    }
                } else if version > 1 {
                    None
                } else {
                    match multihash_parse(s.skip(n as int)) {
                        None => None,
                        Some((hash_code, digest, n3)) => {
                            if version == 0 && (codec != DAG_PB || hash_code != SHA2_256) {
                                None
                            } else {
                                Some((CidView { version, codec, hash_code, digest }, n + n3))
                            }
                        },
                    }
                }
            },
        },
    }
}

/// Reading back the encoding of a number of 64 bits gives that number and
/// the length of its encoding, whatever follows.
pub proof fn lemma_uvarint_roundtrip(n: u64, rest: Seq<u8>)
    ensures
        uvarint_read(varint_encode(n as nat) + rest) == Some((n, varint_encode(n as nat).len())),
        (varint_encode(n as nat) + rest).skip(varint_encode(n as nat).len() as int) == rest,
        1 <= varint_encode(n as nat).len() <= 10,
{
    let e = varint_encode(n as nat);
    let s = e + rest;
    lemma_varint_encode_shape(n as nat);
    lemma_varint_encode_last(n as nat);
    lemma_varint_prefix(n as nat, rest);
    assert(e.len() <= 10) by {
        reveal_with_fuel(pow128, 11);
        assert(pow128(10) == 1180591620717411303424);
        lemma_varint_encode_len(n as nat, 10);
    }
    let k = first_low(s);
    assert(s[k as int] == e.last());
    assert(s.take(k as int + 1) == e);
    assert(le128(e) % 0x1_0000_0000_0000_0000 == n as nat) by {
        vstd::arithmetic::div_mod::lemma_small_mod(n as nat, 0x1_0000_0000_0000_0000);
    }
    assert(s.skip(e.len() as int) =~= rest);
}

/// Reading back the bytes of a hash gives the hash, whatever follows.
pub proof fn lemma_multihash_roundtrip(hash_code: u64, digest: Seq<u8>, rest: Seq<u8>)
    requires
        digest.len() <= MAX_DIGEST_LEN,
    ensures
        multihash_parse(multihash_bytes(hash_code, digest) + rest) == Some(
            (hash_code, digest, multihash_bytes(hash_code, digest).len()),
        ),
{
    let a = varint_encode(hash_code as nat);
    let b = varint_encode(digest.len());
    let s = multihash_bytes(hash_code, digest) + rest;
    assert(s =~= a + (b + digest + rest));
    lemma_uvarint_roundtrip(hash_code, b + digest + rest);
    assert(s.skip(a.len() as int) =~= b + (digest + rest));
    lemma_uvarint_roundtrip(digest.len() as u64, digest + rest);
    let n = a.len() + b.len();
    assert(s.subrange(n as int, n as int + digest.len() as int) =~= digest);
}

#[verifier::rlimit(50)]
proof fn lemma_cid_roundtrip_v0(c: CidView, rest: Seq<u8>)
    requires
        c.wf(),
        c.version == 0,
        c.digest.len() == 32,
    ensures
        cid_parse(cid_bytes(c) + rest) == Some((c, cid_bytes(c).len())),
{
    let s = cid_bytes(c) + rest;
    let a = varint_encode(SHA2_256 as nat);
    let b = varint_encode(32);
    assert(a =~= seq![0x12u8]);
    assert(b =~= seq![0x20u8]);
    assert(cid_bytes(c) =~= a + b + c.digest);
    assert(s =~= a + (b + c.digest + rest));
    lemma_uvarint_roundtrip(SHA2_256, b + c.digest + rest);
    assert(uvarint_read(s) == Some((0x12u64, 1nat)));
    assert(s.skip(1) =~= b + (c.digest + rest));
    lemma_uvarint_roundtrip(32, c.digest + rest);
    assert(uvarint_read(s.skip(1)) == Some((0x20u64, 1nat)));
    assert(s.subrange(2, 34) =~= c.digest);
    assert(cid_bytes(c).len() == 34);
}

#[verifier::rlimit(50)]
proof fn lemma_cid_roundtrip_v1(c: CidView, rest: Seq<u8>)
    requires
        c.wf(),
        c.version == 1,
    ensures
        cid_parse(cid_bytes(c) + rest) == Some((c, cid_bytes(c).len())),
{
    let s = cid_bytes(c) + rest;
    let a = varint_encode(1);
    let b = varint_encode(c.codec as nat);
    let m = multihash_bytes(c.hash_code, c.digest);
    assert(a =~= seq![1u8]);
    assert(cid_bytes(c) =~= a + b + m);
    assert(s =~= a + (b + m + rest));
    lemma_uvarint_roundtrip(1, b + m + rest);
    assert(uvarint_read(s) == Some((1u64, 1nat)));
    assert(s.skip(1) =~= b + (m + rest));
    lemma_uvarint_roundtrip(c.codec, m + rest);
    assert(uvarint_read(s.skip(1)) == Some((c.codec, b.len())));
    assert(s.skip(1 + b.len() as int) =~= m + rest);
    lemma_multihash_roundtrip(c.hash_code, c.digest, rest);
    assert(multihash_parse(s.skip(1 + b.len() as int)) == Some((c.hash_code, c.digest, m.len())));
}

/// Reading back the bytes of an identifier gives the identifier and the
/// number of those bytes, whatever follows.
pub proof fn lemma_cid_roundtrip(c: CidView, rest: Seq<u8>)
    requires
        c.wf(),
        c.canonical(),
    ensures
        cid_parse(cid_bytes(c) + rest) == Some((c, cid_bytes(c).len())),
{
    if c.version == 0 {
        lemma_cid_roundtrip_v0(c, rest);
    } else {
        lemma_cid_roundtrip_v1(c, rest);
    }
}

/// A number that was read is read again, the same, whatever bytes are added
/// behind.
pub proof fn lemma_uvarint_read_prefix(s: Seq<u8>, t: Seq<u8>)
    requires
        uvarint_read(s) is Some,
    ensures
        uvarint_read(s + t) == uvarint_read(s),
        uvarint_read(s)->Some_0.1 <= s.len(),
{
    let k = first_low(s);
    crate::varint::lemma_first_low_prefix(s, t);
    assert((s + t).take(k as int + 1) =~= s.take(k as int + 1));
    assert((s + t)[k as int] == s[k as int]);
}

/// A hash that was read is read again, the same, whatever bytes are added
/// behind.
pub proof fn lemma_multihash_parse_prefix(s: Seq<u8>, t: Seq<u8>)
    requires
        multihash_parse(s) is Some,
    ensures
        multihash_parse(s + t) == multihash_parse(s),
        multihash_parse(s)->Some_0.2 <= s.len(),
{
    lemma_uvarint_read_prefix(s, t);
    let n1 = uvarint_read(s)->Some_0.1;
    assert((s + t).skip(n1 as int) =~= s.skip(n1 as int) + t);
    lemma_uvarint_read_prefix(s.skip(n1 as int), t);
    let size = uvarint_read(s.skip(n1 as int))->Some_0.0;
    let n = n1 + uvarint_read(s.skip(n1 as int))->Some_0.1;
    assert((s + t).subrange(n as int, n as int + size as int) =~= s.subrange(
        n as int,
        n as int + size as int,
    ));
}

/// An identifier that was read is read again, the same, whatever bytes are
/// added behind; and it was read from bytes that were there.
#[verifier::rlimit(50)]
pub proof fn lemma_cid_parse_prefix(s: Seq<u8>, t: Seq<u8>)
    requires
        cid_parse(s) is Some,
    ensures
        cid_parse(s + t) == cid_parse(s),
        cid_parse(s)->Some_0.1 <= s.len(),
{
    lemma_uvarint_read_prefix(s, t);
    let version = uvarint_read(s)->Some_0.0;
    let n1 = uvarint_read(s)->Some_0.1;
    assert((s + t).skip(n1 as int) =~= s.skip(n1 as int) + t);
    lemma_uvarint_read_prefix(s.skip(n1 as int), t);
    let codec = uvarint_read(s.skip(n1 as int))->Some_0.0;
    let n = n1 + uvarint_read(s.skip(n1 as int))->Some_0.1;
    if version == 0x12 && codec == 0x20 {
        assert((s + t).subrange(n as int, n as int + 32) =~= s.subrange(n as int, n as int + 32));
    } else {
        assert((s + t).skip(n as int) =~= s.skip(n as int) + t);
        lemma_multihash_parse_prefix(s.skip(n as int), t);
    }
}

/// The bytes of an identifier are at least two and at most a hundred and
/// four.
pub proof fn lemma_cid_bytes_len(c: CidView)
    requires
        c.wf(),
    ensures
        2 <= cid_bytes(c).len() <= 104,
{
    lemma_uvarint_roundtrip(c.version, Seq::empty());
    lemma_uvarint_roundtrip(c.codec, Seq::empty());
    lemma_uvarint_roundtrip(c.hash_code, Seq::empty());
    lemma_uvarint_roundtrip(c.digest.len() as u64, Seq::empty());
}

/// The digest that the hash function with the tag `code` gives of some
/// bytes; none where the table of hash functions has no such tag.
pub uninterp spec fn multihash_digest(code: u64, data: Seq<u8>) -> Option<Seq<u8>>;

/// The Blake2b digest of 256 bits of some bytes: 32 bytes.
pub open spec fn blake2b256(data: Seq<u8>) -> Seq<u8> {
    match multihash_digest(BLAKE2B256_CODEC, data) {
        Some(d) => if d.len() == 32 {
            d
        } else {
            Seq::new(32, |i: int| 0u8)
        },
        None => Seq::new(32, |i: int| 0u8),
    }
}

/// The text that stands for an identifier: its bytes in a base that the
/// first character names, or, for version 0, in base 58 without such a
/// character.
pub uninterp spec fn cid_text(c: CidView) -> Seq<char>;

/// The parts of an identifier as they come out of the bytes, before they are
/// held to what an identifier may be.
pub struct CidParts {
    pub version: u64,
    pub codec: u64,
    pub hash_code: u64,
    pub digest: Vec<u8>,
}

impl CidParts {
    pub open spec fn as_cid(self) -> CidView {
        CidView {
            version: self.version,
            codec: self.codec,
            hash_code: self.hash_code,
            digest: self.digest@,
        }
    }
}

/// `cid::Cid::read_bytes` on the bytes `data` from position `pos`. The crate
/// reads the version and the codec, then either 32 bytes of digest, behind
/// the prefix of version 0, or a hash with its tag and length. Returns the
/// parts and the position behind them, or the crate's words for its error.
#[verifier::external_body]
fn cid_read_at(data: &[u8], pos: u64) -> (r: Result<(CidParts, u64), String>)
    ensures
        match cid_parse(bytes_from(data@, pos as nat)) {
            Some((c, n)) => r is Ok && r->Ok_0.0.as_cid() == c && r->Ok_0.1 == pos + n,
            None => r is Err,
        },
{
    let mut cursor = std::io::Cursor::new(data);
    cursor.set_position(pos);
    let c = cid::Cid::read_bytes(&mut cursor).map_err(|e| e.to_string())?;
    let (hash_code, digest) = (c.hash().code(), c.hash().digest().to_vec());
    Ok((CidParts { version: c.version().into(), codec: c.codec(), hash_code, digest }, cursor.position()))
}

/// `cid::Cid::to_bytes`, on the identifier built from the four parts with
/// `cid::Cid::new` and `multihash::Multihash::wrap`: the version and the
/// codec, left out for version 0, then the hash's tag, the digest's length
/// and the digest.
#[verifier::external_body]
fn cid_to_bytes(version: u64, codec: u64, hash_code: u64, digest: &[u8]) -> (out: Vec<u8>)
    requires
        (CidView { version, codec, hash_code, digest: digest@ }).wf(),
    ensures
        out@ == cid_bytes(CidView { version, codec, hash_code, digest: digest@ }),
{
    let hash = cid::multihash::Multihash::wrap(hash_code, digest).unwrap();
    let version = std::convert::TryFrom::try_from(version).unwrap();
    cid::Cid::new(version, codec, hash).unwrap().to_bytes()
}

/// `cid::Cid::to_string`, on the identifier built from the four parts with
/// `cid::Cid::new` and `multihash::Multihash::wrap`: the text that stands
/// for the identifier.
#[verifier::external_body]
fn cid_to_string(version: u64, codec: u64, hash_code: u64, digest: &[u8]) -> (text: String)
    requires
        (CidView { version, codec, hash_code, digest: digest@ }).wf(),
    ensures
        text@ == cid_text(CidView { version, codec, hash_code, digest: digest@ }),
{
    let hash = cid::multihash::Multihash::wrap(hash_code, digest).unwrap();
    let version = std::convert::TryFrom::try_from(version).unwrap();
    cid::Cid::new(version, codec, hash).unwrap().to_string()
}

/// `multihash::MultihashDigest::digest` of the `multihash::Code` that
/// `TryFrom<u64>` finds for `code`: the digest of `data`, or nothing where
/// the table has no hash function with that tag. The table has Blake2b with
/// 256 bits under its tag, and that digest has 32 bytes.
#[verifier::external_body]
fn hash_digest(code: u64, data: &[u8]) -> (r: Option<Vec<u8>>)
    ensures
        match multihash_digest(code, data@) {
            Some(d) => r is Some && r->Some_0@ == d,
            None => r is None,
        },
        code == BLAKE2B256_CODEC ==> r is Some && r->Some_0@.len() == 32,
{
    let found: Result<cid::multihash::Code, _> = std::convert::TryFrom::try_from(code);
    found.ok().map(|c| cid::multihash::MultihashDigest::digest(&c, data).digest().to_vec())
}

/// The 32 bytes of the Blake2b digest of `data`.
fn blake2b256_digest(data: &[u8]) -> (digest: Vec<u8>)
    ensures
        digest@ == blake2b256(data@),
        digest@.len() == 32,
{
    match hash_digest(BLAKE2B256_CODEC, data) {
        Some(d) => d,
        None => Vec::new(),
    }
}

/// Whether two runs of bytes are the same.
fn same_bytes(a: &[u8], b: &[u8]) -> (same: bool)
    ensures
        same == (a@ == b@),
{
    if a.len() != b.len() {
        return false;
    }
    let n = a.len();
    let mut i: usize = 0;
    while i < n
        invariant
            i <= n,
            n == a@.len(),
            n == b@.len(),
            a@.take(i as int) == b@.take(i as int),
        decreases n - i,
    {
        if a[i] != b[i] {
            return false;
        }
        assert(a@.take(i + 1) == a@.take(i as int).push(a@[i as int]));
        assert(b@.take(i + 1) == b@.take(i as int).push(b@[i as int]));
        i = i + 1;
    }
    assert(a@ == a@.take(n as int));
    assert(b@ == b@.take(n as int));
    true
}

impl Clone for Cid {
    fn clone(&self) -> (c: Self)
        ensures
            c@ == self@,
    {
        proof {
            use_type_invariant(self);
        }
        Cid {
            version: self.version,
            codec: self.codec,
            hash_code: self.hash_code,
            digest: self.digest.clone(),
        }
    }
}

impl PartialEq for Cid {
    fn eq(&self, other: &Cid) -> (same: bool) {
        if self.version != other.version || self.codec != other.codec || self.hash_code
            != other.hash_code || self.digest.len() != other.digest.len() {
            return false;
        }
        let n = self.digest.len();
        let mut i: usize = 0;
        while i < n
            invariant
                i <= n,
                n == self.digest@.len(),
                n == other.digest@.len(),
                self.digest@.take(i as int) == other.digest@.take(i as int),
            decreases n - i,
        {
            if self.digest[i] != other.digest[i] {
                return false;
            }
            assert(self.digest@.take(i + 1) == self.digest@.take(i as int).push(
                self.digest@[i as int],
            ));
            assert(other.digest@.take(i + 1) == other.digest@.take(i as int).push(
                other.digest@[i as int],
            ));
            i = i + 1;
        }
        assert(self.digest@ == self.digest@.take(n as int));
        assert(other.digest@ == other.digest@.take(n as int));
        true
    }
}

impl Eq for Cid {

}

impl vstd::std_specs::cmp::PartialEqSpecImpl for Cid {
    open spec fn obeys_eq_spec() -> bool {
        true
    }

    open spec fn eq_spec(&self, other: &Cid) -> bool {
        self@ == other@
    }
}

impl Cid {
    /// What holds of every identifier: it is one that exists.
    #[verifier::type_invariant]
    pub open spec fn inv(self) -> bool {
        self@.wf()
    }

    /// An identifier of version 1, or nothing where the digest has more than
    /// 64 bytes.
    pub fn new_v1(codec: u64, hash_code: u64, digest: Vec<u8>) -> (r: Option<Cid>)
        ensures
            digest@.len() <= MAX_DIGEST_LEN ==> r is Some && r->Some_0@ == (CidView {
                version: 1,
                codec,
                hash_code,
                digest: digest@,
            }),
            digest@.len() > MAX_DIGEST_LEN ==> r is None,
    {
        if digest.len() > MAX_DIGEST_LEN {
            None
        } else {
            Some(Cid { version: 1, codec, hash_code, digest })
        }
    }

    /// An identifier of version 0 around a SHA-2 digest, or nothing where
    /// the digest has not 32 bytes.
    pub fn new_v0(digest: Vec<u8>) -> (r: Option<Cid>)
        ensures
            digest@.len() == 32 ==> r is Some && r->Some_0@ == (CidView {
                version: 0,
                codec: DAG_PB,
                hash_code: SHA2_256,
                digest: digest@,
            }),
            digest@.len() != 32 ==> r is None,
    {
        if digest.len() != 32 {
            None
        } else {
            Some(Cid { version: 0, codec: DAG_PB, hash_code: SHA2_256, digest })
        }
    }

    /// The identifier that holds a place until the real one is known:
    /// version 1, codec 0, and a hash without function or digest.
    pub fn placeholder() -> (c: Cid)
        ensures
            c@ == (CidView { version: 1, codec: 0, hash_code: 0, digest: Seq::empty() }),
    {
        Cid { version: 1, codec: 0, hash_code: 0, digest: Vec::new() }
    }

    /// An identifier from parts read off some bytes, or nothing where the
    /// parts are not those of an identifier.
    pub fn from_parts(parts: CidParts) -> (r: Option<Cid>)
        ensures
            parts.as_cid().wf() ==> r is Some && r->Some_0@ == parts.as_cid(),
            !parts.as_cid().wf() ==> r is None,
    {
        if parts.version == 0 {
            if parts.codec == DAG_PB && parts.hash_code == SHA2_256 && parts.digest.len()
                <= MAX_DIGEST_LEN {
                Some(
                    Cid {
                        version: 0,
                        codec: parts.codec,
                        hash_code: parts.hash_code,
                        digest: parts.digest,
                    },
                )
            } else {
                None
            }
        } else if parts.version == 1 && parts.digest.len() <= MAX_DIGEST_LEN {
            Some(
                Cid {
                    version: 1,
                    codec: parts.codec,
                    hash_code: parts.hash_code,
                    digest: parts.digest,
                },
            )
        } else {
            None
        }
    }

    /// The version: 0 or 1.
    pub fn version(&self) -> (v: u64)
        ensures
            v == self@.version,
    {
        self.version
    }

    /// The codec tag of the block that the identifier names.
    pub fn codec(&self) -> (c: u64)
        ensures
            c == self@.codec,
    {
        self.codec
    }

    /// The tag of the hash function.
    pub fn hash_code(&self) -> (c: u64)
        ensures
            c == self@.hash_code,
    {
        self.hash_code
    }

    /// The digest.
    pub fn digest(&self) -> (d: &Vec<u8>)
        ensures
            d@ == self@.digest,
    {
        &self.digest
    }

    /// The bytes that stand for the identifier in an archive.
    pub fn to_bytes(&self) -> (out: Vec<u8>)
        ensures
            out@ == cid_bytes(self@),
            self@.wf(),
            2 <= out@.len() <= 104,
    {
        proof {
            use_type_invariant(self);
            lemma_cid_bytes_len(self@);
        }
        cid_to_bytes(self.version, self.codec, self.hash_code, self.digest.as_slice())
    }

    /// Whether the identifier is that of `data`: its hash function is one
    /// of the table, and its digest is the digest of `data`.
    pub fn matches(&self, data: &[u8]) -> (ok: bool)
        ensures
            ok == self@.names(data@),
    {
        match hash_digest(self.hash_code, data) {
            Some(d) => same_bytes(d.as_slice(), self.digest.as_slice()),
            None => false,
        }
    }

    /// The text that stands for the identifier.
    pub fn to_string(&self) -> (text: String)
        ensures
            text@ == cid_text(self@),
    {
        proof {
            use_type_invariant(self);
        }
        cid_to_string(self.version, self.codec, self.hash_code, self.digest.as_slice())
    }

    /// Reads an identifier at the position of `stream` and moves behind it.
    /// Fails with a parsing error where the bytes there are not those of an
    /// identifier.
    pub fn read_bytes(stream: &mut ByteCursor) -> (r: Result<Cid, CarError>)
        ensures
            final(stream).data == old(stream).data,
            match cid_parse(old(stream).remaining()) {
                Some((c, n)) => if c.wf() {
                    r is Ok && r->Ok_0@ == c && final(stream).pos == old(stream).pos + n
                } else {
                    r is Err && r->Err_0 is Parsing
                },
                None => r is Err && r->Err_0 is Parsing,
            },
    {
        match cid_read_at(stream.data.as_slice(), stream.pos) {
            Ok((parts, pos)) => match Cid::from_parts(parts) {
                Some(c) => {
                    stream.pos = pos;
                    Ok(c)
                },
                None => Err(CarError::Parsing("invalid content identifier".to_string())),
            },
            Err(text) => Err(CarError::Parsing(text)),
        }
    }
}

/// The identifier of a protobuf block with the bytes `data`: version 1, the
/// Blake2b digest of the bytes.
pub open spec fn pb_cid_of(data: Seq<u8>) -> CidView {
    CidView { version: 1, codec: DAG_PB, hash_code: BLAKE2B256_CODEC, digest: blake2b256(data) }
}

/// The identifier of a block of plain bytes `data`: version 1, the Blake2b
/// digest of the bytes.
pub open spec fn raw_cid_of(data: Seq<u8>) -> CidView {
    CidView { version: 1, codec: RAW, hash_code: BLAKE2B256_CODEC, digest: blake2b256(data) }
}

/// An identifier of version 1 around a Blake2b digest, with a codec of one
/// byte, exists, reads back as itself, and takes 38 bytes.
pub proof fn lemma_blake_cid(codec: u64, data: Seq<u8>)
    requires
        codec < 128,
    ensures
        ({
            let c = CidView {
                version: 1,
                codec,
                hash_code: BLAKE2B256_CODEC,
                digest: blake2b256(data),
            };
            c.wf() && c.canonical() && cid_bytes(c).len() == 38
        }),
{
    reveal_with_fuel(varint_encode, 4);
    assert(varint_encode(1).len() == 1);
    assert(varint_encode(codec as nat).len() == 1);
    assert(varint_encode(32).len() == 1);
    assert(varint_encode(BLAKE2B256_CODEC as nat).len() == 3);
}

/// The identifier of a protobuf block with the bytes `data`.
pub fn pb_cid(data: &[u8]) -> (c: Cid)
    ensures
        c@ == pb_cid_of(data@),
        c@.digest.len() == 32,
{
    let digest = blake2b256_digest(data);
    Cid { version: 1, codec: DAG_PB, hash_code: BLAKE2B256_CODEC, digest }
}

/// The identifier of a block of plain bytes `data`.
pub fn raw_cid(data: &[u8]) -> (c: Cid)
    ensures
        c@ == raw_cid_of(data@),
        c@.digest.len() == 32,
{
    let digest = blake2b256_digest(data);
    Cid { version: 1, codec: RAW, hash_code: BLAKE2B256_CODEC, digest }
}

/// The identifier of the protobuf block without bytes, which holds a place
/// until the real identifier is known.
pub fn empty_pb_cid() -> (c: Cid)
    ensures
        c@ == pb_cid_of(Seq::empty()),
        c@.digest.len() == 32,
{
    let empty: Vec<u8> = Vec::new();
    pb_cid(empty.as_slice())
}

} // verus!
