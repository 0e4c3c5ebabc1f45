//! RTMP handshake. Implements the "complex" Adobe handshake (an HMAC-SHA256
//! digest embedded in the 1536-byte C1/S1), but degrades to the simple handshake
//! when the server doesn't use digests (e.g. plain `nginx-rtmp`).
//!
//! The 1536-byte block layout:
//!   [0..4]   timestamp
//!   [4..8]   version (often zeros)
//!   [8..]    random bytes, with a 32-byte digest embedded at offset 8 or 772.

use vstd::prelude::*;

use crate::bytes;
use crate::bytes::{be32, zeros};
use crate::sha256::{hmac_of, hmac_sha256, lemma_digest_len};

verus! {

/// "Genuine Adobe Flash Player 001": digests from client to server.
pub const FMS_KEY1: [u8; 30] = [
    0x47, 0x65, 0x6e, 0x75, 0x69, 0x6e, 0x65, 0x20, 0x41, 0x64, 0x6f, 0x62, 0x65, 0x20, 0x46, 0x6c,
    0x61, 0x73, 0x68, 0x20, 0x50, 0x6c, 0x61, 0x79, 0x65, 0x72, 0x20, 0x30, 0x30, 0x31,
];

/// "Genuine Adobe Flash Player 002": digests from server to client.
pub const FMS_KEY2: [u8; 30] = [
    0x47, 0x65, 0x6e, 0x75, 0x69, 0x6e, 0x65, 0x20, 0x41, 0x64, 0x6f, 0x62, 0x65, 0x20, 0x46, 0x6c,
    0x61, 0x73, 0x68, 0x20, 0x50, 0x6c, 0x61, 0x79, 0x65, 0x72, 0x20, 0x30, 0x30, 0x32,
];

/// Bytes of a handshake block.
pub const BLOCK_LEN: usize = 1536;

/// Bytes of a digest.
pub const DIGEST_LEN: usize = 32;

/// Where a digest sits in the first layout.
pub const FIRST_OFFSET: usize = 8;

/// Where a digest sits in the second layout.
pub const SECOND_OFFSET: usize = 772;

/// The protocol version byte of C0 and S0.
pub const VERSION: u8 = 3;

/// A block without the digest slot at `offset`.
pub open spec fn around_slot(block: Seq<u8>, offset: int) -> Seq<u8> {
    block.take(offset) + block.skip(offset + 32)
}

/// True if the slot at `offset` holds the digest of the rest under `key`.
pub open spec fn slot_valid(block: Seq<u8>, offset: int, key: Seq<u8>) -> bool {
    block.subrange(offset, offset + 32) == hmac_of(key, around_slot(block, offset))
}

/// Where `block` carries a digest that verifies under `key`.
pub open spec fn digest_offset(block: Seq<u8>, key: Seq<u8>) -> Option<usize> {
    if slot_valid(block, 8, key) {
        Some(FIRST_OFFSET)
    } else if slot_valid(block, 772, key) {
        Some(SECOND_OFFSET)
    } else {
        None
    }
}

/// True if `block` is long enough to be searched for a digest under `key`: the
/// slot of the second layout is looked at only where the first has none.
pub open spec fn searchable(block: Seq<u8>, key: Seq<u8>) -> bool {
    block.len() >= 804 || block.len() >= 40 && slot_valid(block, 8, key)
}

/// One step of the filler's generator.
pub open spec fn filler_step(x: u64) -> u64 {
    x.wrapping_mul(6364136223846793005).wrapping_add(1442695040888963407)
}

/// The generator's state after `n` steps from `x`.
pub open spec fn filler_state(x: u64, n: nat) -> u64
    decreases n,
{
    if n == 0 {
        x
    } else {
        filler_step(filler_state(x, (n - 1) as nat))
    }
}

/// The generator's seed for a timestamp.
pub open spec fn filler_seed(time: u32) -> u64 {
    time as u64 ^ 0x2545_F491_4F6C_DD1D
}

/// A block without a digest: timestamp, zero version, and filler from a
/// generator that starts at `seed`.
pub open spec fn seeded_block(time: u32, seed: u64) -> Seq<u8> {
    be32(time as int) + seq![0u8, 0, 0, 0] + Seq::new(
        1528,
        |i: int| (filler_state(seed, (i + 1) as nat) >> 33u64) as u8,
    )
}

/// A block without a digest whose filler depends on the timestamp alone.
pub open spec fn plain_block(time: u32) -> Seq<u8> {
    seeded_block(time, filler_seed(time))
}

/// `block` with `part` written over it at `offset`.
pub open spec fn overlaid(block: Seq<u8>, offset: int, part: Seq<u8>) -> Seq<u8> {
    block.take(offset) + part + block.skip(offset + part.len())
}

/// A block with a valid digest under `key` in the slot at `offset`.
pub open spec fn signed_block(time: u32, key: Seq<u8>, offset: int) -> Seq<u8> {
    overlaid(
        plain_block(time),
        offset,
        hmac_of(key, around_slot(plain_block(time), offset)),
    )
}

/// The client's answer to a server block: the peer's time and version, and
/// then its digest alone where it has one, else all its filler.
pub open spec fn c2_for(s1: Seq<u8>) -> Seq<u8> {
    match digest_offset(s1, FMS_KEY2@) {
        Some(o) => s1.take(8) + zeros((o - 8) as nat) + s1.subrange(
            o as int,
            o + 32,
        ) + zeros((1536 - o - 32) as nat),
        None => s1,
    }
}

/// HMAC(key, block-minus-the-digest-slot) — the value that must sit in the slot.
fn slot_digest(block: &[u8], offset: usize, key: &[u8]) -> (digest: Vec<u8>)
    requires
        offset + 32 <= block@.len(),
    ensures
        digest@ == hmac_of(key@, around_slot(block@, offset as int)),
        digest@.len() == 32,
{
    let len: usize = block.len();
    let mut material: Vec<u8> = bytes::copy_of(bytes::take(block, offset));
    assert(offset + 32 <= len);
    bytes::append(&mut material, bytes::skip(block, offset + DIGEST_LEN));
    hmac_sha256(key, material.as_slice())
}

/// True if the block already carries a valid digest at `offset` under `key`.
fn slot_is_valid(block: &[u8], offset: usize, key: &[u8]) -> (valid: bool)
    requires
        offset + 32 <= block@.len(),
    ensures
        valid == slot_valid(block@, offset as int, key@),
{
    let digest: Vec<u8> = slot_digest(block, offset, key);
    let len: usize = block.len();
    let mut i: usize = 0;
    while i < 32
        invariant
            offset + 32 <= len == block@.len(),
            digest@ == hmac_of(key@, around_slot(block@, offset as int)),
            digest@.len() == 32,
            i <= 32,
            forall|k: int| 0 <= k < i ==> block@[offset + k] == digest@[k],
        decreases 32 - i,
    {
        if block[offset + i] != digest[i] {
            assert(block@.subrange(offset as int, offset + 32)[i as int] != digest@[i as int]);
            return false;
        }
        i = i + 1;
    }
    assert(block@.subrange(offset as int, offset + 32) =~= digest@);
    true
}

/// Locate the schema offset (8 or 772) in `block` whose digest validates under
/// `key`. `None` if neither does (a simple-handshake peer's block).
pub fn find_digest_offset(block: &[u8], key: &[u8]) -> (offset: Option<usize>)
    requires
        searchable(block@, key@),
    ensures
        offset == digest_offset(block@, key@),
{
    if slot_is_valid(block, FIRST_OFFSET, key) {
        Some(FIRST_OFFSET)
    } else if slot_is_valid(block, SECOND_OFFSET, key) {
        Some(SECOND_OFFSET)
    } else {
        None
    }
}

fn filled_block(time: u32, seed: u64) -> (block: Vec<u8>)
    ensures
        block@ == seeded_block(time, seed),
        block@.len() == 1536,
{
    let mut block: Vec<u8> = Vec::new();
    bytes::append_be32(&mut block, time);
    block.push(0);
    block.push(0);
    block.push(0);
    block.push(0);
    let ghost head = be32(time as int) + seq![0u8, 0, 0, 0];
    assert(block@ =~= head);
    let mut x: u64 = seed;
    let mut i: usize = 0;
    let ghost f = |i: int| (filler_state(seed, (i + 1) as nat) >> 33u64) as u8;
    assert(block@ =~= head + Seq::new(0, f));
    while i < 1528
        invariant
            i <= 1528,
            x == filler_state(seed, i as nat),
            f == (|i: int| (filler_state(seed, (i + 1) as nat) >> 33u64) as u8),
            block@ == head + Seq::new(i as nat, f),
        decreases 1528 - i,
    {
        x = x.wrapping_mul(6364136223846793005).wrapping_add(1442695040888963407);
        assert(x == filler_state(seed, (i + 1) as nat));
        block.push((x >> 33u64) as u8);
        i = i + 1;
        assert(block@ =~= head + Seq::new(i as nat, f));
    }
    block
}

/// Build the client C0/C1 pair (complex form: digest embedded at offset 8).
/// Most servers accept the simpler form below; use `build_c1_simple` for those.
/// `time` doubles as a deterministic PRNG seed so tests are reproducible.
pub fn build_c1(time: u32) -> (c: (u8, Vec<u8>))
    ensures
        c.0 == VERSION,
        c.1@ == signed_block(time, FMS_KEY1@, 8),
        c.1@.len() == 1536,
{
    build_block(time, FMS_KEY1.as_slice(), FIRST_OFFSET)
}

/// Build the client C0/C1 pair in the classic "simple" handshake form:
/// `time + zeros + random`, with no embedded digest. This is what ffmpeg sends
/// and is accepted by nginx-rtmp, SRS (fallback) and node-media-server.
pub fn build_c1_simple(time: u32) -> (c: (u8, Vec<u8>))
    ensures
        c.0 == VERSION,
        c.1@ == plain_block(time),
        c.1@.len() == 1536,
{
    (VERSION, filled_block(time, time as u64 ^ 0x2545_F491_4F6C_DD1D))
}

/// Build a block with a valid digest under an arbitrary key and schema offset.
/// The server side uses `FMS_KEY2` (schema 0) for its S1; clients use `FMS_KEY1`.
pub fn build_block(time: u32, key: &[u8], offset: usize) -> (c: (u8, Vec<u8>))
    requires
        offset <= 1504,
    ensures
        c.0 == VERSION,
        c.1@ == signed_block(time, key@, offset as int),
        c.1@.len() == 1536,
{
    let filled: Vec<u8> = filled_block(time, time as u64 ^ 0x2545_F491_4F6C_DD1D);
    let digest: Vec<u8> = slot_digest(filled.as_slice(), offset, key);
    let mut block: Vec<u8> = bytes::copy_of(bytes::take(filled.as_slice(), offset));
    bytes::append(&mut block, digest.as_slice());
    bytes::append(&mut block, bytes::skip(filled.as_slice(), offset + DIGEST_LEN));
    (VERSION, block)
}

/// Build C2 from the peer's S1 block. This adapts to either handshake style:
/// if S1 carries a valid server digest (complex handshake) we echo that digest
/// at its offset; otherwise (simple handshake) we echo S1's random bytes.
/// In both cases the peer's time/version are copied into the first 8 bytes.
pub fn build_c2(s1: &[u8]) -> (c2: Vec<u8>)
    requires
        searchable(s1@, FMS_KEY2@),
        digest_offset(s1@, FMS_KEY2@) is Some || s1@.len() == 1536,
    ensures
        c2@ == c2_for(s1@),
        c2@.len() == 1536,
{
    match find_digest_offset(s1, FMS_KEY2.as_slice()) {
        Some(o) => {
            let mut c2: Vec<u8> = bytes::copy_of(bytes::take(s1, 8));
            bytes::append_zeros(&mut c2, o - 8);
            let digest: &[u8] = bytes::take(bytes::skip(s1, o), DIGEST_LEN);
            assert(digest@ =~= s1@.subrange(o as int, o + 32));
            bytes::append(&mut c2, digest);
            bytes::append_zeros(&mut c2, BLOCK_LEN - o - DIGEST_LEN);
            c2
        },
        None => bytes::copy_of(s1),
    }
}

/// Build a well-formed server S1 (complex form, `FMS_KEY2` digest at offset 8)
/// for tests / diagnostics.
pub fn build_s1_complex(time: u32) -> (s1: Vec<u8>)
    ensures
        s1@ == signed_block(time, FMS_KEY2@, 8),
        s1@.len() == 1536,
{
    build_block(time, FMS_KEY2.as_slice(), FIRST_OFFSET).1
}

/// Build a server S1 in the simple form: `time + zeros + random`, without a
/// digest. The filler comes from `seed`, so that sessions differ.
pub fn build_s1_simple(time: u32, seed: u64) -> (s1: Vec<u8>)
    ensures
        s1@ == seeded_block(time, seed),
        s1@.len() == 1536,
{
    filled_block(time, seed)
}

/// Build S2: the echo of the peer's C1.
pub fn build_s2(c1: &[u8]) -> (s2: Vec<u8>)
    ensures
        s2@ == c1@,
{
    bytes::copy_of(c1)
}

/// Does the peer's block carry a verifiable server digest? (Diagnostics/tests.)
pub fn validate_s1(s1: &[u8]) -> (valid: bool)
    requires
        searchable(s1@, FMS_KEY2@),
    ensures
        valid == (digest_offset(s1@, FMS_KEY2@) is Some),
{
    find_digest_offset(s1, FMS_KEY2.as_slice()).is_some()
}

/// A block that was built with a digest carries it, in the slot and under the
/// key it was built for.
pub proof fn signed_blocks_verify(time: u32, key: Seq<u8>, offset: int)
    requires
        0 <= offset <= 1504,
    ensures
        signed_block(time, key, offset).len() == 1536,
        slot_valid(signed_block(time, key, offset), offset, key),
{
    let plain = plain_block(time);
    let digest = hmac_of(key, around_slot(plain, offset));
    lemma_digest_len(key, around_slot(plain, offset));
    let block = signed_block(time, key, offset);
    assert(digest.len() == 32);
    assert(block.subrange(offset, offset + 32) =~= digest);
    assert(around_slot(block, offset) =~= around_slot(plain, offset));
}

/// The digest of a client block is found at the first offset, and a server
/// accepts it there; the same holds of a server block and its key.
pub proof fn built_blocks_are_recognised(time: u32)
    ensures
        digest_offset(signed_block(time, FMS_KEY1@, 8), FMS_KEY1@) == Some(FIRST_OFFSET),
        digest_offset(signed_block(time, FMS_KEY2@, 8), FMS_KEY2@) == Some(FIRST_OFFSET),
{
    signed_blocks_verify(time, FMS_KEY1@, 8);
    signed_blocks_verify(time, FMS_KEY2@, 8);
}

/// The client's answer starts with the peer's time and version, and carries
/// the peer's digest where the peer put it; without a digest it is the peer's
/// block itself.
pub proof fn c2_echoes(s1: Seq<u8>)
    requires
        searchable(s1, FMS_KEY2@),
        digest_offset(s1, FMS_KEY2@) is Some || s1.len() == 1536,
    ensures
        c2_for(s1).len() == 1536,
        c2_for(s1).take(8) == s1.take(8),
        digest_offset(s1, FMS_KEY2@) is None ==> c2_for(s1) == s1,
        digest_offset(s1, FMS_KEY2@) matches Some(o) ==> c2_for(s1).subrange(o as int, o + 32)
            == s1.subrange(o as int, o + 32),
{
    assert(c2_for(s1).take(8) =~= s1.take(8));
    if let Some(o) = digest_offset(s1, FMS_KEY2@) {
        assert(c2_for(s1).subrange(o as int, o + 32) =~= s1.subrange(o as int, o + 32));
    }
}

} // verus!
