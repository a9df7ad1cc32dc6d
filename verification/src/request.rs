//! What a query asks for: its n-grams and the counts that bound its
//! results.

use vstd::prelude::*;
use vstd::string::*;
use crate::engine::{per_shard_count, shard_limit_of, text_fetch_count};
use crate::index::SoundMap;
use crate::ngrams::{distinct, ngrams_of, ngrams_of_all, parse, parse_all, texts, views, Ngram};
use crate::rank::{distinct_ids, is_ranked, ranking, top_k, top_len};
use crate::sid::Sid;

verus! {

/// `serde_json::Error`, carried from the call that gives it to the place
/// where it is told what went wrong.
#[verifier::external_type_specification]
#[verifier::external_body]
pub struct ExJsonError(serde_json::Error);

/// The strings that a JSON text lists, where the text is an array of
/// strings and nothing else; `None` for every other text.
pub uninterp spec fn json_string_array(text: Seq<char>) -> Option<Seq<Seq<char>>>;

/// `serde_json::from_str`, asked for a vector of strings: the strings of
/// the array that the text holds, or the error of a text that is no such
/// array.
#[verifier::external_body]
fn json_strings(text: &str) -> (r: Result<Vec<String>, serde_json::Error>)
    ensures
        r matches Ok(list) ==> json_string_array(text@) == Some(texts(list@)),
        r is Err ==> json_string_array(text@) is None,
{
    serde_json::from_str::<Vec<String>>(text)
}

/// Why the text of a query cannot be answered.
#[derive(Clone, Copy, Debug, PartialEq, Eq, Structural)]
pub enum QueryError {
    /// The text is no JSON array of strings.
    Json,
}

/// The queries that a JSON array of strings lists.
pub fn parse_queries(text: &str) -> (r: Result<Vec<String>, QueryError>)
    ensures
        r matches Ok(list) ==> json_string_array(text@) == Some(texts(list@)),
        r matches Err(e) ==> e == QueryError::Json && json_string_array(text@) is None,
{
    match json_strings(text) {
        Ok(list) => Ok(list),
        Err(_) => Err(QueryError::Json),
    }
}

/// The work that a query asks for.
#[derive(Debug)]
pub struct Request {
    /// The weighted n-grams to look up; none where nothing is asked for.
    pub ngrams: Vec<Ngram>,
    /// The number of results that each shard is asked for.
    pub per_shard: usize,
    /// The number of results that the answer is cut down to.
    pub limit: usize,
}

impl Request {
    /// The request asks for nothing: its answer is empty whatever the
    /// index holds.
    pub open spec fn is_void(&self) -> bool {
        self.ngrams@.len() == 0 || self.limit == 0
    }

    /// Whether the request asks for nothing.
    pub fn asks_nothing(&self) -> (r: bool)
        ensures
            r == self.is_void(),
    {
        self.ngrams.len() == 0 || self.limit == 0
    }

    /// What one shard answers: the best of the ids that it scored, as many
    /// as each shard is asked for.
    pub fn shard_answer(&self, scored: &Vec<Sid>) -> (best: Vec<Sid>)
        ensures
            best@ == ranking(scored@).take(top_len(scored@.len(), self.per_shard as nat) as int),
            best@.len() <= self.per_shard,
            is_ranked(best@),
            distinct_ids(scored@) ==> distinct_ids(best@),
    {
        top_k(scored, self.per_shard)
    }

    /// The answer to the request: nothing where the request asks for
    /// nothing, else the best of the ids that the shards answered with, at
    /// most as many as the request is limited to, the highest score first.
    pub fn answer(&self, merged: &Vec<Sid>) -> (best: Vec<Sid>)
        ensures
            self.is_void() ==> best@.len() == 0,
            !self.is_void() ==> best@ == ranking(merged@).take(
                top_len(merged@.len(), self.limit as nat) as int,
            ),
            best@.len() <= self.limit,
            best@.len() <= merged@.len(),
            is_ranked(best@),
            distinct_ids(merged@) ==> distinct_ids(best@),
    {
        if self.asks_nothing() {
            Vec::new()
        } else {
            top_k(merged, self.limit)
        }
    }

    /// The answer of the text interface for a count: the answer to the
    /// request, which asks for more than the count, cut down to its first
    /// `count` entries.
    pub fn text_answer(&self, merged: &Vec<Sid>, count: u32) -> (best: Vec<Sid>)
        ensures
            self.is_void() ==> best@.len() == 0,
            !self.is_void() ==> best@ == ranking(merged@).take(
                top_len(top_len(merged@.len(), self.limit as nat), count as nat) as int,
            ),
            best@.len() <= count,
            best@.len() <= self.limit,
            is_ranked(best@),
            distinct_ids(merged@) ==> distinct_ids(best@),
    {
        let mut best: Vec<Sid> = self.answer(merged);
        let ghost all: Seq<Sid> = best@;
        best.truncate(count as usize);
        proof {
            assert forall|i: int, j: int| 0 <= i < j < best@.len() implies !(
            #[trigger] best@[j]).outranks(#[trigger] best@[i]) by {
                assert(best@[i] == all[i] && best@[j] == all[j]);
            }
            if distinct_ids(merged@) {
                assert forall|i: int, j: int|
                    0 <= i < best@.len() && 0 <= j < best@.len() && i != j implies (
                #[trigger] best@[i]).id != (#[trigger] best@[j]).id by {
                    assert(best@[i] == all[i] && best@[j] == all[j]);
                }
            }
            if !self.is_void() {
                crate::rank::lemma_ranking_sorts(merged@);
                assert(best@ =~= ranking(merged@).take(
                    top_len(top_len(merged@.len(), self.limit as nat), count as nat) as int,
                ));
            }
        }
        best
    }
}

/// The n-grams that one query asks for with a count: none for an empty
/// query and for a count of zero.
pub open spec fn asked_by_one(
    query: Seq<char>,
    count: u32,
    stopwords: Seq<Seq<char>>,
    terms: Map<Seq<u8>, u64>,
) -> Seq<(Seq<char>, u8)> {
    if query.len() == 0 || count == 0 {
        Seq::empty()
    } else {
        ngrams_of(query, stopwords, terms)
    }
}

/// The n-grams that several queries ask for with a count: none where
/// there is no query, and for a count of zero.
pub open spec fn asked_by_all(
    queries: Seq<Seq<char>>,
    count: u32,
    stopwords: Seq<Seq<char>>,
    terms: Map<Seq<u8>, u64>,
) -> Seq<(Seq<char>, u8)> {
    if queries.len() == 0 || count == 0 {
        Seq::empty()
    } else {
        ngrams_of_all(queries, stopwords, terms)
    }
}

/// The request of one query for `count` results. An empty query, and a
/// count of zero, ask for nothing: the request then has no n-gram.
pub fn single_request(
    query: &str,
    count: u32,
    stopwords: &Vec<String>,
    terms_relevance: &SoundMap,
) -> (req: Request)
    ensures
        req.limit == count,
        req.per_shard == shard_limit_of(Some(count as usize)),
        views(req.ngrams@) == asked_by_one(
            query@,
            count,
            texts(stopwords@),
            terms_relevance.entries(),
        ),
        distinct(views(req.ngrams@)),
        query@.len() == 0 || count == 0 ==> req.is_void(),
{
    let limit: usize = count as usize;
    let per_shard: usize = per_shard_count(Some(limit));
    if query.is_empty() || count == 0 {
        let ngrams: Vec<Ngram> = Vec::new();
        assert(views(ngrams@) =~= Seq::<(Seq<char>, u8)>::empty());
        return Request { ngrams, per_shard, limit };
    }
    Request { ngrams: parse(query, stopwords, terms_relevance), per_shard, limit }
}

/// The request of several queries for `count` results: their n-grams are
/// put together, and where two queries share an n-gram it has the weight
/// that the later query gives it. No query, and a count of zero, ask for
/// nothing.
pub fn multi_request(
    queries: &Vec<String>,
    count: u32,
    stopwords: &Vec<String>,
    terms_relevance: &SoundMap,
) -> (req: Request)
    ensures
        req.limit == count,
        req.per_shard == shard_limit_of(Some(count as usize)),
        views(req.ngrams@) == asked_by_all(
            texts(queries@),
            count,
            texts(stopwords@),
            terms_relevance.entries(),
        ),
        distinct(views(req.ngrams@)),
        queries@.len() == 0 || count == 0 ==> req.is_void(),
{
    let limit: usize = count as usize;
    let per_shard: usize = per_shard_count(Some(limit));
    if queries.len() == 0 || count == 0 {
        let ngrams: Vec<Ngram> = Vec::new();
        assert(views(ngrams@) =~= Seq::<(Seq<char>, u8)>::empty());
        return Request { ngrams, per_shard, limit };
    }
    Request { ngrams: parse_all(queries, stopwords, terms_relevance), per_shard, limit }
}

/// The request that the text interface makes of one query: for more
/// results than the count, so that cutting the answer down to the count
/// loses less.
pub fn text_request(
    query: &str,
    count: u32,
    stopwords: &Vec<String>,
    terms_relevance: &SoundMap,
) -> (req: Request)
    ensures
        req.limit >= count,
        req.limit == (if crate::engine::TEXT_FETCH_FACTOR * count <= u32::MAX {
            crate::engine::TEXT_FETCH_FACTOR * count
        } else {
            u32::MAX as int
        }),
        req.per_shard == shard_limit_of(Some(req.limit)),
        views(req.ngrams@) == asked_by_one(
            query@,
            count,
            texts(stopwords@),
            terms_relevance.entries(),
        ),
        distinct(views(req.ngrams@)),
{
    single_request(query, text_fetch_count(count), stopwords, terms_relevance)
}

/// The request that the text interface makes of a JSON array of queries.
/// A text that is no array of strings is refused.
pub fn text_multi_request(
    queries: &str,
    count: u32,
    stopwords: &Vec<String>,
    terms_relevance: &SoundMap,
) -> (r: Result<Request, QueryError>)
    ensures
        r is Ok <==> json_string_array(queries@) is Some,
        r matches Err(e) ==> e == QueryError::Json,
        r matches Ok(req) ==> req.limit >= count && req.limit == (if crate::engine::TEXT_FETCH_FACTOR
            * count <= u32::MAX {
            crate::engine::TEXT_FETCH_FACTOR * count
        } else {
            u32::MAX as int
        }) && req.per_shard == shard_limit_of(Some(req.limit)) && distinct(views(req.ngrams@))
            && views(req.ngrams@) == asked_by_all(
            json_string_array(queries@)->0,
            count,
            texts(stopwords@),
            terms_relevance.entries(),
        ),
{
    match parse_queries(queries) {
        Ok(list) => Ok(multi_request(&list, text_fetch_count(count), stopwords, terms_relevance)),
        Err(e) => Err(e),
    }
}

/// One query asked alone and the same query asked as a list of one ask
/// for the same n-grams with the same weights, whatever the count; so they
/// are answered with the same ids.
pub proof fn lemma_list_of_one_asks_the_same(
    q: Seq<char>,
    count: u32,
    stopwords: Seq<Seq<char>>,
    terms: Map<Seq<u8>, u64>,
)
    ensures
        asked_by_all(seq![q], count, stopwords, terms) == asked_by_one(q, count, stopwords, terms),
{
    crate::ngrams::lemma_ngrams_of_one_query(q, stopwords, terms);
    if q.len() == 0 {
        crate::ngrams::lemma_no_words_no_ngrams(q, stopwords, terms);
    }
}

} // verus!
