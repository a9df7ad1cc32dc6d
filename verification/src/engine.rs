//! The rules of a query: how many results each shard is asked for, which
//! shard answers for which n-gram, and what a bucket contributes.

use std::collections::HashMap;
use vstd::prelude::*;
use vstd::std_specs::hash::*;
use vstd::string::*;
use crate::codec::{pair_inv, pqid2qid, qid_of};
use crate::config::ShardRange;
use crate::hash::{jump_consistent_hash_str, shard_of};
use crate::index::{get_addr_and_len, SoundMap};
use crate::ngrams::{views, Ngram};
use crate::posting::{bucket_records, decode_bucket, Posting, ID_SIZE};
use crate::rank::distinct_ids;
use crate::sid::Sid;

verus! {

/// The number of results of a query that names no count.
pub const DEFAULT_COUNT: usize = 100;

/// The largest count for which each shard is asked for more than the
/// count.
pub const SMALL_COUNT: usize = 50;

/// What each shard is asked for on a small count.
pub const SMALL_COUNT_FETCH: usize = 100;

/// How many times the count the text interface fetches before it cuts the
/// results down to the count.
pub const TEXT_FETCH_FACTOR: u32 = 30;

/// The number of results that a query is cut down to: the count, or
/// `DEFAULT_COUNT` where none is named.
pub open spec fn limit_of(count: Option<usize>) -> usize {
    match count {
        Some(k) => k,
        None => DEFAULT_COUNT,
    }
}

/// The number of results that each shard is asked for. A count from 1 to
/// `SMALL_COUNT` is raised to `SMALL_COUNT_FETCH`, so that the merge of few
/// results per shard does not lose the best ones.
pub open spec fn shard_limit_of(count: Option<usize>) -> usize {
    let k = limit_of(count);
    if 1 <= k <= SMALL_COUNT {
        SMALL_COUNT_FETCH
    } else {
        k
    }
}

/// The number of results that a query is cut down to.
pub fn result_limit(count: Option<usize>) -> (k: usize)
    ensures
        k == limit_of(count),
{
    match count {
        Some(k) => k,
        None => DEFAULT_COUNT,
    }
}

/// The number of results that each shard is asked for.
pub fn per_shard_count(count: Option<usize>) -> (k: usize)
    ensures
        k == shard_limit_of(count),
        k >= limit_of(count),
{
    let k: usize = result_limit(count);
    if 1 <= k && k <= SMALL_COUNT {
        SMALL_COUNT_FETCH
    } else {
        k
    }
}

/// The number of results that the text interface fetches for a count:
/// `TEXT_FETCH_FACTOR` times the count, or the largest 32-bit value where
/// that does not fit.
pub fn text_fetch_count(count: u32) -> (k: u32)
    ensures
        k == (if TEXT_FETCH_FACTOR * count <= u32::MAX {
            TEXT_FETCH_FACTOR * count
        } else {
            u32::MAX as int
        }),
        k >= count,
{
    match count.checked_mul(TEXT_FETCH_FACTOR) {
        Some(k) => k,
        None => u32::MAX,
    }
}

/// The list of one hosted shard holds, in rising order, the places of the
/// n-grams whose shard it is.
pub open spec fn is_shard_list(list: Seq<usize>, shard_ids: Seq<u32>, shard: int) -> bool {
    &&& forall|a: int, b: int| 0 <= a < b < list.len() ==> list[a] < list[b]
    &&& forall|a: int| 0 <= a < list.len() ==> list[a] < shard_ids.len()
    &&& forall|i: int|
        0 <= i < shard_ids.len() ==> (shard_ids[i] == shard <==> exists|a: int|
            0 <= a < list.len() && #[trigger] list[a] == i)
}

/// Hands each n-gram to the hosted shard that answers for it. `shard_ids`
/// holds the shard of each n-gram of a query, by place. The result has one
/// list for each hosted shard, in the order of the range; an n-gram whose
/// shard is not hosted is in none.
pub fn partition_by_shard(shard_ids: &Vec<u32>, range: &ShardRange) -> (lists: Vec<Vec<usize>>)
    ensures
        lists@.len() == range.count(),
        forall|s: int|
            0 <= s < lists@.len() ==> is_shard_list(
                (#[trigger] lists@[s])@,
                shard_ids@,
                range.start + s,
            ),
{
    let slots: usize = range.len();
    let mut lists: Vec<Vec<usize>> = Vec::new();
    let mut s: usize = 0;
    while s < slots
        invariant
            s <= slots,
            slots == range.count(),
            lists@.len() == s,
            forall|t: int|
                0 <= t < s ==> is_shard_list(
                    (#[trigger] lists@[t])@,
                    shard_ids@,
                    range.start + t,
                ),
        decreases slots - s,
    {
        let shard: u32 = range.start + s as u32;
        let list: Vec<usize> = places_of_shard(shard_ids, shard);
        lists.push(list);
        s = s + 1;
    }
    lists
}

/// The places in `shard_ids` that hold `shard`, in rising order.
pub fn places_of_shard(shard_ids: &Vec<u32>, shard: u32) -> (list: Vec<usize>)
    ensures
        is_shard_list(list@, shard_ids@, shard as int),
{
    let n: usize = shard_ids.len();
    let mut list: Vec<usize> = Vec::new();
    let mut i: usize = 0;
    while i < n
        invariant
            i <= n,
            n == shard_ids@.len(),
            forall|a: int, b: int| 0 <= a < b < list@.len() ==> list@[a] < list@[b],
            forall|a: int| 0 <= a < list@.len() ==> list@[a] < i,
            forall|j: int|
                0 <= j < i ==> (shard_ids@[j] == shard <==> exists|a: int|
                    0 <= a < list@.len() && #[trigger] list@[a] == j),
        decreases n - i,
    {
        let ghost before: Seq<usize> = list@;
        if shard_ids[i] == shard {
            list.push(i);
            proof {
                assert(list@[before.len() as int] == i);
                assert forall|j: int| 0 <= j < i + 1 implies (shard_ids@[j] == shard <==> exists|
                    a: int,
                | 0 <= a < list@.len() && #[trigger] list@[a] == j) by {
                    if j < i && shard_ids@[j] == shard {
                        let a = choose|a: int| 0 <= a < before.len() && #[trigger] before[a] == j;
                        assert(list@[a] == j);
                    }
                }
            }
        }
        i = i + 1;
    }
    list
}

/// The shard of each n-gram of a list in an index of `nr_shards` shards.
pub open spec fn shards_of(ngrams: Seq<(Seq<char>, u8)>, nr_shards: u32) -> Seq<u32> {
    Seq::new(ngrams.len(), |i: int| shard_of(ngrams[i].0, nr_shards) as u32)
}

/// The shard that answers for each n-gram of a query, by place.
pub fn shard_ids(ngrams: &Vec<Ngram>, nr_shards: u32) -> (ids: Vec<u32>)
    ensures
        ids@ == shards_of(views(ngrams@), nr_shards),
{
    let n: usize = ngrams.len();
    let mut ids: Vec<u32> = Vec::with_capacity(n);
    let mut i: usize = 0;
    while i < n
        invariant
            i <= n,
            n == ngrams@.len(),
            ids@.len() == i,
            forall|k: int|
                0 <= k < i ==> ids@[k] == shard_of(views(ngrams@)[k].0, nr_shards) as u32,
        decreases n - i,
    {
        ids.push(jump_consistent_hash_str(ngrams[i].text.as_str(), nr_shards));
        i = i + 1;
    }
    assert(ids@ =~= shards_of(views(ngrams@), nr_shards));
    ids
}

/// Hands each n-gram of a query to the hosted shard that answers for it:
/// the shard that the hash of the n-gram names. The result has one list
/// for each hosted shard, in the order of the range, with the places of
/// the n-grams of that shard.
pub fn dispatch(ngrams: &Vec<Ngram>, nr_shards: u32, range: &ShardRange) -> (lists: Vec<Vec<usize>>)
    ensures
        lists@.len() == range.count(),
        forall|s: int|
            0 <= s < lists@.len() ==> is_shard_list(
                (#[trigger] lists@[s])@,
                shards_of(views(ngrams@), nr_shards),
                range.start + s,
            ),
        forall|s: int, a: int|
            0 <= s < lists@.len() && 0 <= a < lists@[s]@.len() ==> (#[trigger] lists@[s]@[a])
                < ngrams@.len(),
{
    let ids: Vec<u32> = shard_ids(ngrams, nr_shards);
    let lists: Vec<Vec<usize>> = partition_by_shard(&ids, range);
    proof {
        assert forall|s: int, a: int|
            0 <= s < lists@.len() && 0 <= a < lists@[s]@.len() implies (#[trigger] lists@[s]@[a])
            < ngrams@.len() by {
            assert(is_shard_list(lists@[s]@, ids@, range.start + s));
        }
    }
    lists
}

/// No n-gram is handed to a shard that is not hosted, and none to a shard
/// other than its own: a place that a list holds has the shard of that list.
pub proof fn lemma_only_hosted_shards_answer(
    lists: Seq<Seq<usize>>,
    shard_ids: Seq<u32>,
    range: ShardRange,
    s: int,
    a: int,
)
    requires
        lists.len() == range.count(),
        forall|t: int|
            0 <= t < lists.len() ==> is_shard_list(#[trigger] lists[t], shard_ids, range.start + t),
        0 <= s < lists.len(),
        0 <= a < lists[s].len(),
    ensures
        range.contains(shard_ids[lists[s][a] as int]),
        shard_ids[lists[s][a] as int] == range.start + s,
{
    assert(is_shard_list(lists[s], shard_ids, range.start + s));
    let i = lists[s][a] as int;
    assert(0 <= a < lists[s].len() && lists[s][a] == i);
}

/// What one posting adds to the score of a query: the query id, the lesser
/// of the posting's and the n-gram's relevance, and the frequency score.
#[derive(Clone, Copy, Debug, PartialEq, Eq, Structural)]
pub struct Hit {
    /// The id of the query that the posting is of.
    pub qid: u64,
    /// The relevance that counts, in percent.
    pub tr: u8,
    /// The frequency score.
    pub f: u8,
}

/// The hit of a posting for an n-gram of relevance `weight`.
pub open spec fn hit_of(p: Posting, weight: u8, nr_shards: u32) -> Hit {
    Hit {
        qid: qid_of(p.pqid as nat, p.remainder as nat, nr_shards as nat) as u64,
        tr: if p.tr <= weight {
            p.tr
        } else {
            weight
        },
        f: p.f,
    }
}

/// The hits of a bucket of `len` records, decoded from the bytes read at
/// its place, for an n-gram of relevance `weight`: one for each record
/// that the bytes hold, in the order of the records.
pub fn bucket_hits(buf: &[u8], len: u64, weight: u8, nr_shards: u32) -> (hits: Vec<Hit>)
    ensures
        hits@ == bucket_records(buf@, len as nat).map_values(
            |p: Posting| hit_of(p, weight, nr_shards),
        ),
{
    let records: Vec<Posting> = decode_bucket(buf, len);
    let n: usize = records.len();
    let mut hits: Vec<Hit> = Vec::with_capacity(n);
    let mut i: usize = 0;
    while i < n
        invariant
            i <= n,
            n == records@.len(),
            hits@.len() == i,
            forall|k: int| 0 <= k < i ==> hits@[k] == hit_of(records@[k], weight, nr_shards),
        decreases n - i,
    {
        let p: Posting = records[i];
        let tr: u8 = if p.tr <= weight {
            p.tr
        } else {
            weight
        };
        hits.push(Hit { qid: pqid2qid(p.pqid, p.remainder, nr_shards), tr, f: p.f });
        i = i + 1;
    }
    assert(hits@ =~= records@.map_values(|p: Posting| hit_of(p, weight, nr_shards)));
    hits
}

/// Where the bucket of an n-gram lies in the posting file of its shard.
#[derive(Clone, Copy, Debug, PartialEq, Eq, Structural)]
pub struct Bucket {
    /// The offset of the first record in bytes.
    pub offset: u64,
    /// The number of records.
    pub len: u64,
}

/// What a shard is asked about one n-gram of a query.
#[derive(Clone, Copy, Debug, PartialEq, Eq, Structural)]
pub struct Probe {
    /// The place of the n-gram among the n-grams of the query.
    pub place: usize,
    /// The weight of the n-gram in percent.
    pub weight: u8,
    /// The bucket of the n-gram; `None` where the shard does not know the
    /// n-gram.
    pub bucket: Option<Bucket>,
    /// The number of queries of the shard that hold the n-gram, taken as 1
    /// for an n-gram that the shard does not know: what the size of the
    /// shard is divided by for the inverse document frequency.
    pub df: u64,
}

/// The probe of the n-gram at `place` in a shard whose map holds `entries`.
pub open spec fn probe_of(ngram: (Seq<char>, u8), place: usize, entries: Map<Seq<u8>, u64>) -> Probe {
    let key = vstd::utf8::encode_utf8(ngram.0);
    if entries.contains_key(key) {
        let (addr, len) = pair_inv(entries[key] as nat);
        Probe {
            place,
            weight: ngram.1,
            bucket: Some(Bucket { offset: (addr * ID_SIZE) as u64, len: len as u64 }),
            df: len as u64,
        }
    } else {
        Probe { place, weight: ngram.1, bucket: None, df: 1 }
    }
}

/// Looks up in the map of a shard each n-gram that was handed to the shard.
/// `places` holds the places of those n-grams among `ngrams`; the result
/// has one probe for each, in the same order.
pub fn probe_shard(ngrams: &Vec<Ngram>, places: &Vec<usize>, map: &SoundMap) -> (probes: Vec<Probe>)
    requires
        forall|a: int| 0 <= a < places@.len() ==> places@[a] < ngrams@.len(),
    ensures
        probes@.len() == places@.len(),
        forall|a: int|
            0 <= a < places@.len() ==> #[trigger] probes@[a] == probe_of(
                ngrams@[places@[a] as int]@,
                places@[a],
                map.entries(),
            ),
{
    let n: usize = places.len();
    let mut probes: Vec<Probe> = Vec::with_capacity(n);
    let mut a: usize = 0;
    while a < n
        invariant
            a <= n,
            n == places@.len(),
            probes@.len() == a,
                forall|b: int| 0 <= b < places@.len() ==> places@[b] < ngrams@.len(),
            forall|b: int|
                0 <= b < a ==> #[trigger] probes@[b] == probe_of(
                    ngrams@[places@[b] as int]@,
                    places@[b],
                    map.entries(),
                ),
        decreases n - a,
    {
        let place: usize = places[a];
        let ngram: &Ngram = &ngrams[place];
        let probe: Probe = match get_addr_and_len(ngram.text.as_str(), map) {
            Some((addr, len)) => {
                assert(addr * ID_SIZE <= u64::MAX) by (nonlinear_arith)
                    requires
                        addr <= u32::MAX,
                        ID_SIZE == 7,
                ;
                Probe {
                    place,
                    weight: ngram.weight,
                    bucket: Some(Bucket { offset: addr * ID_SIZE as u64, len }),
                    df: len,
                }
            },
            None => Probe { place, weight: ngram.weight, bucket: None, df: 1 },
        };
        probes.push(probe);
        a = a + 1;
    }
    probes
}

/// The ids of a list, each once, in the order in which they first come.
pub open spec fn first_of_each(qids: Seq<u64>) -> Seq<u64>
    decreases qids.len(),
{
    if qids.len() == 0 {
        Seq::empty()
    } else {
        let head = first_of_each(qids.drop_last());
        if head.contains(qids.last()) {
            head
        } else {
            head.push(qids.last())
        }
    }
}

/// The ids that `first_of_each` gives are those of the list, and no two of
/// them are the same.
pub proof fn lemma_first_of_each(qids: Seq<u64>)
    ensures
        first_of_each(qids).no_duplicates(),
        forall|id: u64| first_of_each(qids).contains(id) <==> qids.contains(id),
    decreases qids.len(),
{
    if qids.len() > 0 {
        let head = qids.drop_last();
        lemma_first_of_each(head);
        let ids = first_of_each(qids);
        assert forall|id: u64| ids.contains(id) <==> qids.contains(id) by {
            if qids.contains(id) {
                let i = choose|i: int| 0 <= i < qids.len() && qids[i] == id;
                if i < qids.len() - 1 {
                    assert(head[i] == id);
                    assert(head.contains(id));
                    let k = choose|k: int| 0 <= k < first_of_each(head).len() && first_of_each(
                        head,
                    )[k] == id;
                    assert(ids[k] == id);
                } else if !first_of_each(head).contains(id) {
                    assert(ids[ids.len() - 1] == id);
                }
            }
            if ids.contains(id) {
                let k = choose|k: int| 0 <= k < ids.len() && ids[k] == id;
                if k < first_of_each(head).len() {
                    assert(first_of_each(head)[k] == id);
                    assert(first_of_each(head).contains(id));
                    assert(head.contains(id));
                    let i = choose|i: int| 0 <= i < head.len() && head[i] == id;
                    assert(qids[i] == id);
                } else {
                    assert(qids[qids.len() - 1] == id);
                }
            }
        }
    }
}

/// Groups the hits of a query by the id of the query that they are of, so
/// that the scores of one id can be added up. The result holds each id
/// once, in the order in which the ids first come, and for each hit the
/// place of its id among them.
pub fn group_ids(qids: &Vec<u64>) -> (r: (Vec<u64>, Vec<usize>))
    ensures
        r.0@ == first_of_each(qids@),
        r.0@.no_duplicates(),
        r.1@.len() == qids@.len(),
        forall|i: int|
            0 <= i < qids@.len() ==> (#[trigger] r.1@[i]) < r.0@.len() && r.0@[r.1@[i] as int]
                == qids@[i],
{
    broadcast use vstd::std_specs::hash::group_hash_axioms;

    let n: usize = qids.len();
    let mut ids: Vec<u64> = Vec::new();
    let mut slots: Vec<usize> = Vec::with_capacity(n);
    let mut place_of: HashMap<u64, usize> = HashMap::new();
    let mut i: usize = 0;
    proof {
        assert(qids@.take(0) =~= Seq::<u64>::empty());
    }
    while i < n
        invariant
            i <= n,
            n == qids@.len(),
            ids@ == first_of_each(qids@.take(i as int)),
            ids@.len() <= i,
            slots@.len() == i,
            forall|id: u64| #[trigger] place_of@.contains_key(id) <==> ids@.contains(id),
            forall|id: u64| #[trigger]
                place_of@.contains_key(id) ==> place_of@[id] < ids@.len()
                    && ids@[place_of@[id] as int] == id,
            forall|k: int|
                0 <= k < i ==> (#[trigger] slots@[k]) < ids@.len() && ids@[slots@[k] as int]
                    == qids@[k],
        decreases n - i,
    {
        let qid: u64 = qids[i];
        let ghost before: Seq<u64> = ids@;
        proof {
            assert(qids@.take(i + 1).drop_last() =~= qids@.take(i as int));
            assert(qids@.take(i + 1).last() == qid);
        }
        let known: Option<&usize> = place_of.get(&qid);
        match known {
            Some(place) => {
                let slot: usize = *place;
                assert(place_of@.contains_key(qid));
                slots.push(slot);
            },
            None => {
                assert(!place_of@.contains_key(qid));
                let slot: usize = ids.len();
                place_of.insert(qid, slot);
                ids.push(qid);
                slots.push(slot);
                proof {
                    assert(ids@[slot as int] == qid);
                    assert forall|id: u64| #[trigger] place_of@.contains_key(id) <==> ids@.contains(
                        id,
                    ) by {
                        if id == qid {
                            assert(ids@[slot as int] == id);
                        } else if before.contains(id) {
                            let k = choose|k: int| 0 <= k < before.len() && before[k] == id;
                            assert(ids@[k] == id);
                        } else if ids@.contains(id) {
                            let k = choose|k: int| 0 <= k < ids@.len() && ids@[k] == id;
                            assert(before[k] == id);
                        }
                    }
                }
            },
        }
        i = i + 1;
    }
    proof {
        assert(qids@.take(n as int) =~= qids@);
        lemma_first_of_each(qids@);
    }
    (ids, slots)
}

/// The number of ids that have a score: the shorter of the two lengths.
pub open spec fn scored_len(ids: nat, scores: nat) -> nat {
    if ids <= scores {
        ids
    } else {
        scores
    }
}

/// Pairs each id with its score, by place: the ids of a group with the
/// sums that were added up for them. Where no id comes twice among the
/// ids, none comes twice in the result.
pub fn scored_ids(ids: &Vec<u64>, scores: &Vec<u32>) -> (list: Vec<Sid>)
    ensures
        list@.len() == scored_len(ids@.len(), scores@.len()),
        forall|i: int|
            0 <= i < list@.len() ==> (#[trigger] list@[i]) == (Sid { id: ids@[i], sc: scores@[i] }),
        ids@.no_duplicates() ==> distinct_ids(list@),
{
    let n: usize = if ids.len() <= scores.len() {
        ids.len()
    } else {
        scores.len()
    };
    let mut list: Vec<Sid> = Vec::with_capacity(n);
    let mut i: usize = 0;
    while i < n
        invariant
            i <= n,
            n == scored_len(ids@.len(), scores@.len()),
            list@.len() == i,
            forall|k: int|
                0 <= k < i ==> (#[trigger] list@[k]) == (Sid { id: ids@[k], sc: scores@[k] }),
        decreases n - i,
    {
        list.push(Sid { id: ids[i], sc: scores[i] });
        i = i + 1;
    }
    list
}

} // verus!
