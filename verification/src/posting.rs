//! The posting file: fixed-width records, stored bucket by bucket.
//!
//! A record takes `ID_SIZE` bytes: the shard-local query id as a
//! little-endian 32-bit integer, then one byte each for the remainder of the
//! query id, the term relevance and the frequency score.

use byteorder::{ByteOrder, LittleEndian};
use vstd::prelude::*;

verus! {

/// The size of one posting record in bytes.
pub const ID_SIZE: usize = 7;

/// One posting of an n-gram: a query that holds it, and how strongly.
#[derive(Clone, Copy, Debug, PartialEq, Eq, Structural)]
pub struct Posting {
    /// The shard-local id of the query.
    pub pqid: u32,
    /// What the shard-local id leaves of the query id.
    pub remainder: u8,
    /// The relevance of the n-gram to the query, in percent.
    pub tr: u8,
    /// The frequency score of the n-gram in the query.
    pub f: u8,
}

/// The 32-bit value whose little-endian bytes are `b0`, `b1`, `b2`, `b3`.
pub open spec fn le_u32(b0: u8, b1: u8, b2: u8, b3: u8) -> int {
    b0 + 0x100 * b1 + 0x1_0000 * b2 + 0x100_0000 * b3
}

/// The `i`-th record of a buffer.
pub open spec fn record_at(buf: Seq<u8>, i: int) -> Posting {
    let j = i * ID_SIZE;
    Posting {
        pqid: le_u32(buf[j], buf[j + 1], buf[j + 2], buf[j + 3]) as u32,
        remainder: buf[j + 4],
        tr: buf[j + 5],
        f: buf[j + 6],
    }
}

/// The number of records that `bytes` bytes give to a bucket of `len`
/// records: all of them, or as many whole records as the bytes hold.
pub open spec fn records_held(bytes: nat, len: nat) -> nat {
    if len <= bytes / (ID_SIZE as nat) {
        len
    } else {
        bytes / (ID_SIZE as nat)
    }
}

/// The records of a bucket of `len` records, as far as `buf` holds them.
pub open spec fn bucket_records(buf: Seq<u8>, len: nat) -> Seq<Posting> {
    Seq::new(records_held(buf.len(), len), |i: int| record_at(buf, i))
}

/// `byteorder::LittleEndian::read_u32`: the 32-bit integer that the first
/// four bytes of `buf` hold, lowest byte first. It panics on fewer than four
/// bytes, which the precondition rules out.
#[verifier::external_body]
fn le_read_u32(buf: &[u8]) -> (v: u32)
    requires
        buf@.len() >= 4,
    ensures
        v == le_u32(buf@[0], buf@[1], buf@[2], buf@[3]),
{
    LittleEndian::read_u32(buf)
}

/// `byteorder::LittleEndian::write_u32`: the four bytes of `v`, lowest byte
/// first.
#[verifier::external_body]
fn le_write_u32(v: u32) -> (bytes: [u8; 4])
    ensures
        v == le_u32(bytes@[0], bytes@[1], bytes@[2], bytes@[3]),
{
    let mut bytes = [0u8; 4];
    LittleEndian::write_u32(&mut bytes, v);
    bytes
}

/// Decodes the `i`-th record of a buffer.
pub fn decode_record(buf: &[u8], i: usize) -> (p: Posting)
    requires
        (i + 1) * ID_SIZE <= buf@.len(),
    ensures
        p == record_at(buf@, i as int),
{
    let size: usize = buf.len();
    assert(i * ID_SIZE + 7 <= size);
    let j: usize = i * ID_SIZE;
    let head: &[u8] = &buf[j..j + 4];
    Posting { pqid: le_read_u32(head), remainder: buf[j + 4], tr: buf[j + 5], f: buf[j + 6] }
}

/// Decodes a bucket of `len` records from the bytes read at its place in
/// the posting file. Where the bytes end early, the records that they hold
/// in full are returned.
pub fn decode_bucket(buf: &[u8], len: u64) -> (records: Vec<Posting>)
    ensures
        records@ == bucket_records(buf@, len as nat),
{
    let whole: usize = buf.len() / ID_SIZE;
    let n: usize = if len <= whole as u64 {
        len as usize
    } else {
        whole
    };
    let mut records: Vec<Posting> = Vec::with_capacity(n);
    let mut i: usize = 0;
    while i < n
        invariant
            i <= n,
            n == records_held(buf@.len(), len as nat),
            records@.len() == i,
            forall|k: int| 0 <= k < i ==> records@[k] == record_at(buf@, k),
        decreases n - i,
    {
        records.push(decode_record(buf, i));
        i = i + 1;
    }
    assert(records@ =~= bucket_records(buf@, len as nat));
    records
}

/// The bytes of a posting file from the offset `offset` on; none where the
/// file ends before the offset.
pub open spec fn bytes_from(file: Seq<u8>, offset: nat) -> Seq<u8> {
    if offset <= file.len() {
        file.skip(offset as int)
    } else {
        Seq::empty()
    }
}

/// Reads a bucket of `len` records that starts `offset` bytes into a
/// posting file. Where the file ends within the bucket, the records that
/// it holds in full are returned.
pub fn read_bucket(file: &[u8], offset: u64, len: u64) -> (records: Vec<Posting>)
    ensures
        records@ == bucket_records(bytes_from(file@, offset as nat), len as nat),
{
    let size: usize = file.len();
    if offset > size as u64 {
        let nothing: &[u8] = &file[0..0];
        assert(nothing@ =~= bytes_from(file@, offset as nat));
        return decode_bucket(nothing, len);
    }
    let rest: &[u8] = &file[offset as usize..size];
    assert(rest@ =~= bytes_from(file@, offset as nat));
    decode_bucket(rest, len)
}

/// Appends the seven bytes of a record to `out`.
pub fn encode_record(p: &Posting, out: &mut Vec<u8>)
    ensures
        final(out)@.len() == old(out)@.len() + ID_SIZE,
        final(out)@.subrange(0, old(out)@.len() as int) == old(out)@,
        record_at(final(out)@.subrange(old(out)@.len() as int, final(out)@.len() as int), 0) == *p,
{
    let word: [u8; 4] = le_write_u32(p.pqid);
    let ghost before: Seq<u8> = out@;
    out.push(word[0]);
    out.push(word[1]);
    out.push(word[2]);
    out.push(word[3]);
    out.push(p.remainder);
    out.push(p.tr);
    out.push(p.f);
    proof {
        assert(out@.subrange(0, before.len() as int) =~= before);
        let tail = out@.subrange(before.len() as int, out@.len() as int);
        assert(tail[0] == word@[0] && tail[1] == word@[1] && tail[2] == word@[2] && tail[3]
            == word@[3]);
    }
}

} // verus!
