//! A small index in memory, read the way an engine reads one from disk.

use qpick::builder::{cap_bucket, layout_buckets};
use qpick::codec::qid2pqid;
use qpick::config::ShardRange;
use qpick::engine::{bucket_hits, dispatch, group_ids, probe_shard, scored_ids, shard_ids};
use qpick::hash::jump_consistent_hash_str;
use qpick::index::{check_shard, SoundMap};
use qpick::ngrams::parse;
use qpick::posting::{encode_record, Posting};
use qpick::request::{multi_request, parse_queries, single_request, text_request, Request};
use qpick::sid::Sid;

const NR_SHARDS: u32 = 2;
const SHARD_SIZE: f32 = 1000.0;
const BUCKET_SIZE: usize = 1000;

struct MemShard {
    map: SoundMap,
    postings: Vec<u8>,
}

struct MemIndex {
    shards: Vec<MemShard>,
    range: ShardRange,
    terms: SoundMap,
}

// Indexes queries: each n-gram of each query goes to the shard of its hash.
fn build(queries: &[(u64, &str)], f: u8, range: ShardRange) -> MemIndex {
    let terms = SoundMap::build(vec![]).unwrap();
    let mut parts: Vec<std::collections::BTreeMap<String, Vec<Posting>>> =
        (0..NR_SHARDS).map(|_| Default::default()).collect();
    for (qid, query) in queries.iter() {
        let (pqid, remainder) = qid2pqid(*qid, NR_SHARDS).unwrap();
        for ngram in parse(query, &vec![], &terms) {
            let shard = jump_consistent_hash_str(&ngram.text, NR_SHARDS) as usize;
            parts[shard].entry(ngram.text).or_default().push(Posting {
                pqid,
                remainder,
                tr: ngram.weight,
                f,
            });
        }
    }
    let mut shards = Vec::new();
    for (shard, part) in parts.iter().enumerate() {
        if !(range.start as usize <= shard && shard < range.end as usize) {
            continue;
        }
        let buckets: Vec<Vec<Posting>> =
            part.values().map(|list| cap_bucket(list, BUCKET_SIZE)).collect();
        let lens: Vec<u64> = buckets.iter().map(|b| b.len() as u64).collect();
        let values = layout_buckets(&lens, BUCKET_SIZE).unwrap();
        let items = part.keys().map(|k| k.as_bytes().to_vec()).zip(values.iter().cloned()).collect();
        let map = SoundMap::build(items).unwrap();
        let mut postings = Vec::new();
        for bucket in buckets.iter() {
            for posting in bucket.iter() {
                encode_record(posting, &mut postings);
            }
        }
        assert_eq!(
            check_shard(&map, shard as u32, NR_SHARDS, BUCKET_SIZE, postings.len() as u64),
            Ok(())
        );
        shards.push(MemShard { map, postings });
    }
    MemIndex { shards, range, terms }
}

fn read_slot(shard: &MemShard, offset: u64) -> &[u8] {
    let start = (offset as usize).min(shard.postings.len());
    let end = (start + BUCKET_SIZE * 7).min(shard.postings.len());
    &shard.postings[start..end]
}

// The score of each id that a request finds, as an engine merges them; the
// scores are computed here.
fn merged(index: &MemIndex, request: &Request) -> Vec<Sid> {
    if request.asks_nothing() {
        return vec![];
    }
    let lists = dispatch(&request.ngrams, NR_SHARDS, &index.range);
    let mut found: Vec<Sid> = Vec::new();
    let mut norm: f32 = 0.0;
    for (slot, places) in lists.iter().enumerate() {
        if places.is_empty() {
            continue;
        }
        let shard = &index.shards[slot];
        let mut hits = Vec::new();
        let mut idfs = Vec::new();
        for probe in probe_shard(&request.ngrams, places, &shard.map) {
            let idf = (SHARD_SIZE / probe.df as f32).log(2.0);
            if let Some(bucket) = probe.bucket {
                let bytes = read_slot(shard, bucket.offset);
                for hit in bucket_hits(bytes, bucket.len, probe.weight, NR_SHARDS) {
                    hits.push(hit);
                    idfs.push(idf);
                }
            }
            norm += probe.weight as f32 / 100.0 * idf;
        }
        let qids: Vec<u64> = hits.iter().map(|hit| hit.qid).collect();
        let (ids, slots) = group_ids(&qids);
        let mut sums: Vec<f32> = vec![0.0; ids.len()];
        for (i, hit) in hits.iter().enumerate() {
            let weight = (hit.tr as f32 / 100.0) * (1.0 + hit.f as f32 / 1000.0);
            sums[slots[i]] += weight * idfs[i];
        }
        let bits: Vec<u32> = sums.iter().map(|sc| sc.to_bits()).collect();
        found.extend(request.shard_answer(&scored_ids(&ids, &bits)));
    }
    let qids: Vec<u64> = found.iter().map(|s| s.id).collect();
    let (ids, slots) = group_ids(&qids);
    let mut sums: Vec<f32> = vec![0.0; ids.len()];
    for (i, s) in found.iter().enumerate() {
        sums[slots[i]] += f32::from_bits(s.sc);
    }
    let bits: Vec<u32> = sums.iter().map(|sc| (sc / norm).to_bits()).collect();
    scored_ids(&ids, &bits)
}

fn answer(index: &MemIndex, request: &Request) -> Vec<(u64, f32)> {
    let found = merged(index, request);
    request.answer(&found).iter().map(|s| (s.id, f32::from_bits(s.sc))).collect()
}

fn get(index: &MemIndex, query: &str, count: u32) -> Vec<(u64, f32)> {
    answer(index, &single_request(query, count, &vec![], &index.terms))
}

fn nget(index: &MemIndex, queries: &[&str], count: u32) -> Vec<(u64, f32)> {
    let list: Vec<String> = queries.iter().map(|q| q.to_string()).collect();
    answer(index, &multi_request(&list, count, &vec![], &index.terms))
}

fn get_str(index: &MemIndex, query: &str, count: u32) -> String {
    let request = text_request(query, count, &vec![], &index.terms);
    let res: Vec<(u64, f32)> = request
        .text_answer(&merged(index, &request), count)
        .iter()
        .map(|s| (s.id, f32::from_bits(s.sc)))
        .collect();
    serde_json::to_string(&res).unwrap()
}

fn ids(results: &[(u64, f32)]) -> Vec<u64> {
    results.iter().map(|r| r.0).collect()
}

fn all_shards() -> ShardRange {
    ShardRange { start: 0, end: NR_SHARDS }
}

#[test]
fn indexed_query_is_found_by_its_text() {
    let index = build(&[(5, "abc")], 255, all_shards());
    let results = get(&index, "abc", 10);
    assert_eq!(results.len(), 1);
    assert_eq!(results[0].0, 5);
    assert!(results[0].1 > 0.0);
    assert_eq!(get(&index, "abc", 0), vec![]);
}

#[test]
fn score_of_a_full_match_is_its_weight() {
    // every n-gram of the query is in one bucket of one record: the score
    // is the sum of (1 + f / 1000) * idf over the sum of idf
    let index = build(&[(5, "abc")], 255, all_shards());
    let results = get(&index, "abc", 10);
    assert!((results[0].1 - 1.255).abs() < 1e-5);
    let plain = build(&[(5, "abc")], 0, all_shards());
    assert!((get(&plain, "abc", 10)[0].1 - 1.0).abs() < 1e-6);
}

#[test]
fn empty_query_has_no_results() {
    let index = build(&[(5, "abc")], 0, all_shards());
    assert_eq!(get(&index, "", 10), vec![]);
    assert_eq!(nget(&index, &[], 10), vec![]);
    assert_eq!(nget(&index, &["abc"], 0), vec![]);
    assert_eq!(nget(&index, &[""], 10), vec![]);
}

#[test]
fn queries_that_share_an_ngram_are_both_found() {
    let index = build(&[(5, "ab"), (6, "abc")], 0, all_shards());
    let results = get(&index, "ab", 10);
    assert_eq!(results.len(), 2);
    let mut found = ids(&results);
    found.sort();
    assert_eq!(found, vec![5, 6]);
    assert!(results[0].1 >= results[1].1);
}

#[test]
fn results_are_sorted_and_bounded() {
    let index = build(
        &[(1, "abcdef"), (2, "abcd"), (3, "ab"), (4, "cdef"), (6, "xyz"), (8, "bcde")],
        0,
        all_shards(),
    );
    for k in 0..8 {
        let results = get(&index, "abcdef", k);
        assert!(results.len() <= k as usize);
        let mut i = 1;
        while i < results.len() {
            assert!(results[i - 1].1 >= results[i].1);
            i += 1;
        }
    }
    let all = get(&index, "abcdef", 100);
    assert_eq!(all[0].0, 1);
    let mut found = ids(&all);
    found.sort();
    assert_eq!(found, vec![1, 2, 3, 4, 8]);
}

#[test]
fn same_query_twice_finds_what_it_finds_once() {
    let index = build(&[(1, "foo"), (2, "food"), (3, "bar")], 0, all_shards());
    let mut twice = ids(&nget(&index, &["foo", "foo"], 10));
    let mut once = ids(&get(&index, "foo", 10));
    twice.sort();
    once.sort();
    assert_eq!(twice, once);
    assert_eq!(once, vec![1, 2]);
}

#[test]
fn list_of_one_query_finds_what_the_query_finds() {
    let index = build(&[(1, "abcd"), (2, "bcde"), (3, "cdef"), (4, "zz")], 0, all_shards());
    for q in ["abcd", "cd", "zz", "q", "abcd zz"] {
        assert_eq!(ids(&nget(&index, &[q], 10)), ids(&get(&index, q, 10)));
    }
}

#[test]
fn text_interface_gives_an_array_of_pairs() {
    let index = build(&[(1, "abc"), (2, "abd"), (3, "abe")], 0, all_shards());
    let text = get_str(&index, "abc", 2);
    let value: serde_json::Value = serde_json::from_str(&text).unwrap();
    let array = value.as_array().unwrap();
    assert!(array.len() <= 2);
    assert_eq!(array.len(), 2);
    for pair in array.iter() {
        let pair = pair.as_array().unwrap();
        assert_eq!(pair.len(), 2);
        assert!(pair[0].is_u64());
        assert!(pair[1].is_f64());
    }
    assert_eq!(get_str(&index, "", 2), "[]");
    assert_eq!(get_str(&index, "abc", 0), "[]");
}

#[test]
fn queries_of_the_text_interface_are_a_json_array() {
    let index = build(&[(1, "foo"), (2, "bar")], 0, all_shards());
    let list = parse_queries("[\"foo\", \"bar\"]").unwrap();
    let refs: Vec<&str> = list.iter().map(|s| s.as_str()).collect();
    let mut found = ids(&nget(&index, &refs, 10));
    found.sort();
    assert_eq!(found, vec![1, 2]);
}

#[test]
fn partial_hosting_answers_from_hosted_shards_only() {
    let queries = [(1, "abcd"), (2, "bcde"), (3, "cdef"), (4, "fghi"), (6, "ab")];
    let terms = SoundMap::build(vec![]).unwrap();
    for hosted in 0..NR_SHARDS {
        let range = ShardRange { start: hosted, end: hosted + 1 };
        let index = build(&queries, 0, range);
        let query = "abcdefghi";
        let request = single_request(query, 100, &vec![], &terms);
        let shards = shard_ids(&request.ngrams, NR_SHARDS);
        // the ids whose postings lie in the hosted shard
        let mut want: Vec<u64> = Vec::new();
        for (qid, text) in queries.iter() {
            let served = parse(text, &vec![], &terms).iter().any(|n| {
                jump_consistent_hash_str(&n.text, NR_SHARDS) == hosted
                    && request.ngrams.iter().any(|m| m.text == n.text)
            });
            if served {
                want.push(*qid);
            }
        }
        let mut found = ids(&answer(&index, &request));
        found.sort();
        assert_eq!(found, want);
        // no list is made for the shard that is not hosted
        let lists = dispatch(&request.ngrams, NR_SHARDS, &range);
        assert_eq!(lists.len(), 1);
        for place in lists[0].iter() {
            assert_eq!(shards[*place], hosted);
        }
    }
}

#[test]
fn every_ngram_lies_in_the_shard_of_its_hash() {
    let index = build(&[(1, "abcdefgh"), (2, "hgfedcba"), (3, "qpick")], 0, all_shards());
    for (shard, mem) in index.shards.iter().enumerate() {
        assert_eq!(
            check_shard(&mem.map, shard as u32, NR_SHARDS, BUCKET_SIZE, mem.postings.len() as u64),
            Ok(())
        );
    }
    let total: usize = index.shards.iter().map(|s| s.map.as_map().len()).sum();
    assert_eq!(total, 7 + 7 + 4);
}

#[test]
fn dispatch_and_probes_follow_the_ngrams() {
    let index = build(&[(5, "abc")], 0, all_shards());
    let request = single_request("abc zz", 10, &vec![], &index.terms);
    let shards = shard_ids(&request.ngrams, NR_SHARDS);
    assert_eq!(shards, vec![1, 0, jump_consistent_hash_str("zz", NR_SHARDS)]);
    let lists = dispatch(&request.ngrams, NR_SHARDS, &index.range);
    assert_eq!(lists.len(), 2);
    for (slot, places) in lists.iter().enumerate() {
        let probes = probe_shard(&request.ngrams, places, &index.shards[slot].map);
        assert_eq!(probes.len(), places.len());
        for (probe, place) in probes.iter().zip(places.iter()) {
            assert_eq!(probe.place, *place);
            assert_eq!(probe.weight, 100);
            if request.ngrams[*place].text == "zz" {
                assert_eq!(probe.bucket, None);
                assert_eq!(probe.df, 1);
            } else {
                let bucket = probe.bucket.unwrap();
                assert_eq!((bucket.offset, bucket.len), (0, 1));
                assert_eq!(probe.df, 1);
            }
        }
    }
}

#[test]
fn range_that_ends_before_it_starts_answers_nothing() {
    let range = ShardRange::resolve(Some(ShardRange { start: 2, end: 0 }), NR_SHARDS).unwrap();
    let index = build(&[(1, "abcd"), (2, "bcde")], 0, range);
    assert_eq!(index.shards.len(), 0);
    assert_eq!(get(&index, "abcd", 10), vec![]);
    assert_eq!(nget(&index, &["abcd", "bcde"], 10), vec![]);
    assert_eq!(get_str(&index, "abcd", 10), "[]");
}

#[test]
fn no_id_comes_twice_among_the_results() {
    let index = build(
        &[(1, "abcdef"), (2, "abcd"), (3, "ab"), (4, "cdef"), (6, "xyz"), (8, "bcde")],
        0,
        all_shards(),
    );
    for q in ["abcdef", "ab cd ef", "abcdef abcd", "xyz"] {
        let mut found = ids(&get(&index, q, 100));
        let n = found.len();
        found.sort();
        found.dedup();
        assert_eq!(found.len(), n);
    }
}
