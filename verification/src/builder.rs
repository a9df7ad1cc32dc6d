//! What the tools that build an index share with the engine that reads it:
//! the lines of an input file, the cut of a bucket that has too many
//! postings, and the layout of the buckets in a posting file.

use vstd::prelude::*;
use vstd::string::*;
use crate::codec::{elegant_pair, lemma_pair_inv_of_pair, pair, pair_inv, qid2pqid};
use crate::hash::{jump_consistent_hash_str, shard_of};
use crate::ngrams::{views, Ngram};
use crate::index::bucket_fits;
use crate::posting::{Posting, ID_SIZE};
use crate::rank::{ranking, top_k, top_len};
use crate::sid::Sid;

verus! {

/// The character that parts the id of a query from its text.
pub const FIELD_SEPARATOR: char = '\t';

/// Whether a character is a decimal digit.
pub open spec fn is_digit(c: char) -> bool {
    '0' <= c <= '9'
}

/// The number that a string of decimal digits denotes.
pub open spec fn decimal(s: Seq<char>) -> nat
    decreases s.len(),
{
    if s.len() == 0 {
        0
    } else {
        decimal(s.drop_last()) * 10 + (s.last() as nat - '0' as nat) as nat
    }
}

/// A string is the decimal form of a 64-bit number: one digit or more, and
/// a value that fits.
pub open spec fn is_number(s: Seq<char>) -> bool {
    &&& s.len() > 0
    &&& forall|i: int| 0 <= i < s.len() ==> is_digit(#[trigger] s[i])
    &&& decimal(s) <= u64::MAX
}

/// The place of the first separator of a line, or the length of the line
/// where it has none.
pub open spec fn first_separator(line: Seq<char>) -> int
    decreases line.len(),
{
    if line.len() == 0 || line[0] == FIELD_SEPARATOR {
        0
    } else {
        1 + first_separator(line.skip(1))
    }
}

/// The query id and the query that a line holds: the number before its
/// first separator and the rest behind it. `None` for a line without a
/// separator, and for one that does not start with a 64-bit number.
pub open spec fn line_record(line: Seq<char>) -> Option<(u64, Seq<char>)> {
    let t = first_separator(line);
    if t < line.len() && is_number(line.take(t)) {
        Some((decimal(line.take(t)) as u64, line.skip(t + 1)))
    } else {
        None
    }
}

/// The first separator lies within the line or at its end, there is none
/// before it, and where it lies within the line it is a separator.
pub proof fn lemma_first_separator(line: Seq<char>)
    ensures
        0 <= first_separator(line) <= line.len(),
        forall|i: int| 0 <= i < first_separator(line) ==> line[i] != FIELD_SEPARATOR,
        first_separator(line) < line.len() ==> line[first_separator(line)] == FIELD_SEPARATOR,
    decreases line.len(),
{
    if line.len() > 0 && line[0] != FIELD_SEPARATOR {
        let rest = line.skip(1);
        lemma_first_separator(rest);
        assert forall|i: int| 0 <= i < first_separator(line) implies line[i]
            != FIELD_SEPARATOR by {
            if i > 0 {
                assert(rest[i - 1] == line[i]);
            }
        }
        if first_separator(line) < line.len() {
            assert(rest[first_separator(rest)] == line[first_separator(line)]);
        }
    }
}

/// A place that holds a separator, with none before it, is the first
/// separator; so is the end of a line that holds none.
pub proof fn lemma_first_separator_unique(line: Seq<char>, t: int)
    requires
        0 <= t <= line.len(),
        forall|i: int| 0 <= i < t ==> line[i] != FIELD_SEPARATOR,
        t < line.len() ==> line[t] == FIELD_SEPARATOR,
    ensures
        first_separator(line) == t,
{
    lemma_first_separator(line);
    let s = first_separator(line);
    if s < t {
        assert(line[s] != FIELD_SEPARATOR);
    }
}

/// Reads one line of an input file: the id of a query, a separator, and
/// the query.
pub fn parse_line(line: &str) -> (r: Option<(u64, String)>)
    ensures
        r is Some <==> line_record(line@) is Some,
        r matches Some((qid, query)) ==> line_record(line@) == Some((qid, query@)),
{
    let n: usize = line.unicode_len();
    let mut value: u64 = 0;
    let mut t: usize = 0;
    let mut fits: bool = true;
    let mut digits: bool = true;
    proof {
        assert(line@.take(0) =~= Seq::<char>::empty());
    }
    while t < n && line.get_char(t) != FIELD_SEPARATOR
        invariant
            t <= n,
            n == line@.len(),
            forall|i: int| 0 <= i < t ==> line@[i] != FIELD_SEPARATOR,
            digits <==> forall|i: int| 0 <= i < t ==> is_digit(#[trigger] line@[i]),
            digits ==> (fits <==> decimal(line@.take(t as int)) <= u64::MAX),
            digits && fits ==> value == decimal(line@.take(t as int)),
        decreases n - t,
    {
        let c: char = line.get_char(t);
        proof {
            assert(line@.take(t + 1).drop_last() =~= line@.take(t as int));
            assert(line@.take(t + 1).last() == c);
        }
        if '0' <= c && c <= '9' {
            let d: u64 = (c as u32 - '0' as u32) as u64;
            if digits && fits {
                match value.checked_mul(10) {
                    Some(tens) => match tens.checked_add(d) {
                        Some(sum) => {
                            value = sum;
                        },
                        None => {
                            fits = false;
                        },
                    },
                    None => {
                        fits = false;
                    },
                }
            } else if digits {
                proof {
                    assert(decimal(line@.take(t + 1)) >= decimal(line@.take(t as int)) * 10);
                }
            }
        } else {
            digits = false;
            assert(!is_digit(line@[t as int]));
        }
        t = t + 1;
    }
    proof {
        lemma_first_separator_unique(line@, t as int);
        if digits {
            assert forall|i: int| 0 <= i < line@.take(t as int).len() implies is_digit(
                #[trigger] line@.take(t as int)[i],
            ) by {
                assert(line@.take(t as int)[i] == line@[i]);
            }
        } else {
            let i = choose|i: int| 0 <= i < t && !is_digit(#[trigger] line@[i]);
            assert(line@.take(t as int)[i] == line@[i]);
        }
    }
    if t < n && t > 0 && digits && fits {
        let query: String = line.substring_char(t + 1, n).to_owned();
        Some((value, query))
    } else {
        None
    }
}

/// A posting as a scored id, so that postings rank as results do: the
/// relevance and, behind it, the frequency score make the score, and the
/// shard-local id and the remainder make the id.
pub open spec fn posting_rank(p: Posting) -> Sid {
    Sid { id: (p.pqid * 256 + p.remainder) as u64, sc: (p.tr * 256 + p.f) as u32 }
}

/// The posting that a scored id stands for.
pub open spec fn ranked_posting(s: Sid) -> Posting {
    Posting {
        pqid: (s.id / 256) as u32,
        remainder: (s.id % 256) as u8,
        tr: (s.sc / 256) as u8,
        f: (s.sc % 256) as u8,
    }
}

/// The postings that a bucket of at most `bucket_size` records keeps: the
/// highest ranked by relevance, then by frequency score, then by the lower
/// id.
pub open spec fn capped(postings: Seq<Posting>, bucket_size: nat) -> Seq<Posting> {
    ranking(postings.map_values(|p: Posting| posting_rank(p))).take(
        top_len(postings.len(), bucket_size) as int,
    ).map_values(|s: Sid| ranked_posting(s))
}

/// A posting is what its scored id stands for, and one posting outranks
/// another where its relevance is higher, or the relevance is the same and
/// its frequency score is higher, or both are the same and its id is
/// lower.
pub proof fn lemma_posting_rank(a: Posting, b: Posting)
    ensures
        ranked_posting(posting_rank(a)) == a,
        posting_rank(a).outranks(posting_rank(b)) <==> a.tr > b.tr || (a.tr == b.tr && (a.f > b.f
            || (a.f == b.f && (a.pqid < b.pqid || (a.pqid == b.pqid && a.remainder
            < b.remainder))))),
{
}

/// Cuts the postings of an n-gram down to what a bucket holds.
pub fn cap_bucket(postings: &Vec<Posting>, bucket_size: usize) -> (kept: Vec<Posting>)
    ensures
        kept@ == capped(postings@, bucket_size as nat),
        kept@.len() == top_len(postings@.len(), bucket_size as nat),
{
    let n: usize = postings.len();
    let mut ranked: Vec<Sid> = Vec::with_capacity(n);
    let mut i: usize = 0;
    while i < n
        invariant
            i <= n,
            n == postings@.len(),
            ranked@.len() == i,
            forall|k: int| 0 <= k < i ==> ranked@[k] == posting_rank(postings@[k]),
        decreases n - i,
    {
        let p: Posting = postings[i];
        ranked.push(
            Sid {
                id: p.pqid as u64 * 256 + p.remainder as u64,
                sc: p.tr as u32 * 256 + p.f as u32,
            },
        );
        i = i + 1;
    }
    assert(ranked@ =~= postings@.map_values(|p: Posting| posting_rank(p)));
    let best: Vec<Sid> = top_k(&ranked, bucket_size);
    let m: usize = best.len();
    let mut kept: Vec<Posting> = Vec::with_capacity(m);
    let mut j: usize = 0;
    while j < m
        invariant
            j <= m,
            m == best@.len(),
            kept@.len() == j,
            forall|k: int| 0 <= k < j ==> kept@[k] == ranked_posting(best@[k]),
        decreases m - j,
    {
        let s: Sid = best[j];
        kept.push(
            Posting {
                pqid: (s.id / 256) as u32,
                remainder: (s.id % 256) as u8,
                tr: (s.sc / 256) as u8,
                f: (s.sc % 256) as u8,
            },
        );
        j = j + 1;
    }
    assert(kept@ =~= best@.map_values(|s: Sid| ranked_posting(s)));
    kept
}

/// Why buckets cannot be laid out in a posting file.
#[derive(Clone, Copy, Debug, PartialEq, Eq, Structural)]
pub enum LayoutError {
    /// A bucket holds no record.
    EmptyBucket,
    /// A bucket holds more records than a bucket may.
    LongBucket,
    /// The records of the file do not fit 32-bit addresses.
    LongFile,
}

/// The number of records in the first `i` buckets.
pub open spec fn records_before(lens: Seq<u64>, i: int) -> nat
    decreases i,
{
    if i <= 0 {
        0
    } else {
        records_before(lens, i - 1) + lens[i - 1] as nat
    }
}

/// The fault of bucket `i` in a file that holds the buckets one behind
/// the other; `None` for a bucket that can be stored.
pub open spec fn bucket_fault(lens: Seq<u64>, bucket_size: nat, i: int) -> Option<LayoutError> {
    if lens[i] == 0 {
        Some(LayoutError::EmptyBucket)
    } else if lens[i] > bucket_size {
        Some(LayoutError::LongBucket)
    } else if records_before(lens, i + 1) > u32::MAX {
        Some(LayoutError::LongFile)
    } else {
        None
    }
}

/// None of the first `i` buckets has a fault.
pub open spec fn sound_before(lens: Seq<u64>, bucket_size: nat, i: int) -> bool {
    forall|j: int| 0 <= j < i ==> (#[trigger] bucket_fault(lens, bucket_size, j)) is None
}

/// Lays out the buckets of a shard one behind the other, in the order
/// given, and packs the address and the length of each into the value that
/// the map of the shard holds for its n-gram. The first bucket that cannot
/// be stored is the fault of the layout.
pub fn layout_buckets(lens: &Vec<u64>, bucket_size: usize) -> (r: Result<Vec<u64>, LayoutError>)
    ensures
        r is Ok <==> sound_before(lens@, bucket_size as nat, lens@.len() as int),
        r matches Ok(values) ==> values@.len() == lens@.len() && forall|i: int|
            0 <= i < lens@.len() ==> #[trigger] values@[i] == pair(
                records_before(lens@, i),
                lens@[i] as nat,
            ),
        r matches Err(e) ==> exists|i: int|
            0 <= i < lens@.len() && sound_before(lens@, bucket_size as nat, i)
                && #[trigger] bucket_fault(lens@, bucket_size as nat, i) == Some(e),
{
    let n: usize = lens.len();
    let mut values: Vec<u64> = Vec::with_capacity(n);
    let mut addr: u64 = 0;
    let mut i: usize = 0;
    while i < n
        invariant
            i <= n,
            n == lens@.len(),
            values@.len() == i,
            addr == records_before(lens@, i as int),
            addr <= u32::MAX,
            sound_before(lens@, bucket_size as nat, i as int),
            forall|j: int|
                0 <= j < i ==> #[trigger] values@[j] == pair(
                    records_before(lens@, j),
                    lens@[j] as nat,
                ),
        decreases n - i,
    {
        let len: u64 = lens[i];
        let ghost fault = bucket_fault(lens@, bucket_size as nat, i as int);
        if len == 0 {
            assert(fault == Some(LayoutError::EmptyBucket));
            return Err(LayoutError::EmptyBucket);
        }
        if len > bucket_size as u64 {
            assert(fault == Some(LayoutError::LongBucket));
            return Err(LayoutError::LongBucket);
        }
        if len > 0xffff_ffff - addr {
            assert(fault == Some(LayoutError::LongFile));
            return Err(LayoutError::LongFile);
        }
        values.push(elegant_pair(addr as u32, len as u32));
        assert(fault is None);
        addr = addr + len;
        i = i + 1;
    }
    Ok(values)
}

/// The records before a bucket are among the records before each later
/// one.
pub proof fn lemma_records_before_grows(lens: Seq<u64>, i: int, j: int)
    requires
        0 <= i <= j,
    ensures
        records_before(lens, i) <= records_before(lens, j),
    decreases j - i,
{
    if i < j {
        lemma_records_before_grows(lens, i, j - 1);
    }
}

/// Every bucket of a layout without a fault keeps what an index promises:
/// it has between one and `bucket_size` records, it lies within the
/// posting file that holds all the buckets, and the value packed for it
/// unpacks to its address and length.
pub proof fn lemma_layout_keeps_bounds(lens: Seq<u64>, bucket_size: nat, i: int)
    requires
        0 <= i < lens.len(),
        sound_before(lens, bucket_size, lens.len() as int),
    ensures
        bucket_fits(
            records_before(lens, i),
            lens[i] as nat,
            bucket_size,
            (records_before(lens, lens.len() as int) * ID_SIZE) as nat,
        ),
        pair_inv(pair(records_before(lens, i), lens[i] as nat)) == (
            records_before(lens, i),
            lens[i] as nat,
        ),
        pair(records_before(lens, i), lens[i] as nat) <= u64::MAX,
{
    assert(bucket_fault(lens, bucket_size, i) is None);
    lemma_records_before_grows(lens, i + 1, lens.len() as int);
    lemma_pair_inv_of_pair(records_before(lens, i), lens[i] as nat);
    let a = records_before(lens, i);
    let l = lens[i] as nat;
    let total = records_before(lens, lens.len() as int);
    assert((a + l) * ID_SIZE <= total * ID_SIZE) by (nonlinear_arith)
        requires
            a + l <= total,
    ;
    assert(pair(a, l) <= u64::MAX) by (nonlinear_arith)
        requires
            a <= 0xffff_ffff,
            l <= 0xffff_ffff,
            pair(a, l) == (if a < l {
                l * l + a
            } else {
                a * a + a + l
            }),
    ;
}

/// The posting of an n-gram of a query, with the shard that it is stored
/// in.
#[derive(Clone, Copy, Debug, PartialEq, Eq, Structural)]
pub struct Routed {
    /// The shard of the n-gram.
    pub shard: u32,
    /// The posting of the query for the n-gram.
    pub posting: Posting,
}

/// The routed posting of the query `qid` for an n-gram: it goes to the
/// shard that the hash of the n-gram names, and it holds the id of the
/// query, split by the number of shards, and the weight of the n-gram as
/// its relevance. No frequency score is recorded.
pub open spec fn routed(qid: u64, ngram: (Seq<char>, u8), nr_shards: u32) -> Routed {
    Routed {
        shard: shard_of(ngram.0, nr_shards) as u32,
        posting: Posting {
            pqid: (qid / (nr_shards as u64)) as u32,
            remainder: (qid % (nr_shards as u64)) as u8,
            tr: ngram.1,
            f: 0,
        },
    }
}

/// The postings that a query adds to an index, one for each of its
/// n-grams and in their order, each with the shard that it goes to. `None`
/// for a query whose id does not fit a posting.
pub fn route_postings(qid: u64, ngrams: &Vec<Ngram>, nr_shards: u32) -> (r: Option<Vec<Routed>>)
    ensures
        r is Some <==> nr_shards > 0 && qid / (nr_shards as u64) <= u32::MAX && qid % (
        nr_shards as u64) <= u8::MAX,
        r matches Some(list) ==> list@ == views(ngrams@).map_values(
            |g: (Seq<char>, u8)| routed(qid, g, nr_shards),
        ),
{
    let (pqid, remainder) = match qid2pqid(qid, nr_shards) {
        Some(packed) => packed,
        None => {
            return None;
        },
    };
    let n: usize = ngrams.len();
    let mut list: Vec<Routed> = Vec::with_capacity(n);
    let mut i: usize = 0;
    while i < n
        invariant
            i <= n,
            n == ngrams@.len(),
            nr_shards > 0,
            pqid == qid / (nr_shards as u64),
            remainder == qid % (nr_shards as u64),
            list@.len() == i,
            forall|k: int| 0 <= k < i ==> list@[k] == routed(qid, views(ngrams@)[k], nr_shards),
        decreases n - i,
    {
        let shard: u32 = jump_consistent_hash_str(ngrams[i].text.as_str(), nr_shards);
        list.push(Routed { shard, posting: Posting { pqid, remainder, tr: ngrams[i].weight, f: 0 } });
        i = i + 1;
    }
    assert(list@ =~= views(ngrams@).map_values(|g: (Seq<char>, u8)| routed(qid, g, nr_shards)));
    Some(list)
}

/// Each posting that a query adds to an index goes to a shard of the
/// index, and to no shard but the one that the hash of its n-gram names.
pub proof fn lemma_postings_go_to_their_shard(qid: u64, ngram: (Seq<char>, u8), nr_shards: u32)
    requires
        nr_shards > 0,
    ensures
        routed(qid, ngram, nr_shards).shard == shard_of(ngram.0, nr_shards),
        routed(qid, ngram, nr_shards).shard < nr_shards,
{
    let key = crate::hash::hash64(vstd::utf8::encode_utf8(ngram.0));
    crate::hash::lemma_jump_hash_in_range(key, nr_shards);
}

} // verus!
