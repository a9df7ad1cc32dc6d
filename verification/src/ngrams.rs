//! The n-grams of a query and their weights.
//!
//! A query is cut into words at white space, and stop-words are dropped.
//! Every other word gives its windows of `NGRAM_LEN` characters, or itself
//! where it is no longer than that, each weighted by the relevance of the
//! word in percent. Where an n-gram comes up again, the later weight
//! replaces the earlier one.

use vstd::prelude::*;
use vstd::string::*;
use vstd::utf8::encode_utf8;
use crate::index::{lookup, SoundMap};

verus! {

/// The number of characters of an n-gram.
pub const NGRAM_LEN: usize = 2;

/// The relevance of a term that the relevance map does not hold, and the
/// highest that it can give: one hundred percent.
pub const FULL_RELEVANCE: u8 = 100;

/// An n-gram of a query with its weight in percent.
#[derive(Debug)]
pub struct Ngram {
    /// The characters of the n-gram.
    pub text: String,
    /// The weight of the n-gram, from 0 to `FULL_RELEVANCE`.
    pub weight: u8,
}

impl View for Ngram {
    type V = (Seq<char>, u8);

    open spec fn view(&self) -> (Seq<char>, u8) {
        (self.text@, self.weight)
    }
}

/// The n-grams of a list, each as its characters and weight.
pub open spec fn views(list: Seq<Ngram>) -> Seq<(Seq<char>, u8)> {
    list.map_values(|n: Ngram| n@)
}

/// The strings of a list, each as its characters.
pub open spec fn texts(list: Seq<String>) -> Seq<Seq<char>> {
    list.map_values(|s: String| s@)
}

/// The characters that part words.
pub open spec fn is_space(c: char) -> bool {
    c == ' ' || c == '\t' || c == '\n' || c == '\r'
}

/// The words that end within `q`, and the characters of the word that is
/// still open at its end.
pub open spec fn scan(q: Seq<char>) -> (Seq<Seq<char>>, Seq<char>)
    decreases q.len(),
{
    if q.len() == 0 {
        (Seq::empty(), Seq::empty())
    } else {
        let (done, open) = scan(q.drop_last());
        if !is_space(q.last()) {
            (done, open.push(q.last()))
        } else if open.len() > 0 {
            (done.push(open), Seq::empty())
        } else {
            (done, open)
        }
    }
}

/// The words of `q`: its longest runs of characters other than spaces, in
/// the order in which they stand.
pub open spec fn words(q: Seq<char>) -> Seq<Seq<char>> {
    let (done, open) = scan(q);
    if open.len() > 0 {
        done.push(open)
    } else {
        done
    }
}

/// The n-grams of a word: the word where it has at most `NGRAM_LEN`
/// characters, else each run of `NGRAM_LEN` characters in it, from left to
/// right.
pub open spec fn word_grams(word: Seq<char>) -> Seq<Seq<char>> {
    if word.len() <= NGRAM_LEN {
        seq![word]
    } else {
        Seq::new((word.len() - NGRAM_LEN + 1) as nat, |i: int| word.subrange(i, i + NGRAM_LEN))
    }
}

/// The relevance of a word in percent: what the map holds for its bytes,
/// at most `FULL_RELEVANCE`, and `FULL_RELEVANCE` for a word that the map
/// does not hold.
pub open spec fn relevance(word: Seq<char>, terms: Map<Seq<u8>, u64>) -> u8 {
    let key = encode_utf8(word);
    if terms.contains_key(key) && terms[key] < FULL_RELEVANCE {
        terms[key] as u8
    } else {
        FULL_RELEVANCE
    }
}

/// Whether a list holds an n-gram of the given characters.
pub open spec fn holds(s: Seq<(Seq<char>, u8)>, text: Seq<char>) -> bool {
    exists|i: int| 0 <= i < s.len() && (#[trigger] s[i]).0 == text
}

/// No two n-grams of a list have the same characters.
pub open spec fn distinct(s: Seq<(Seq<char>, u8)>) -> bool {
    forall|i: int, j: int| 0 <= i < j < s.len() ==> (#[trigger] s[i]).0 != (#[trigger] s[j]).0
}

/// The list with the weight of `text` set to `weight`: in place where the
/// list holds the n-gram, at the end where it does not.
pub open spec fn put(s: Seq<(Seq<char>, u8)>, text: Seq<char>, weight: u8) -> Seq<
    (Seq<char>, u8),
> {
    if holds(s, text) {
        s.map_values(
            |e: (Seq<char>, u8)|
                if e.0 == text {
                    (text, weight)
                } else {
                    e
                },
        )
    } else {
        s.push((text, weight))
    }
}

/// The list after each n-gram of `more` was put into it, in their order.
pub open spec fn put_all(s: Seq<(Seq<char>, u8)>, more: Seq<(Seq<char>, u8)>) -> Seq<
    (Seq<char>, u8),
>
    decreases more.len(),
{
    if more.len() == 0 {
        s
    } else {
        put(put_all(s, more.drop_last()), more.last().0, more.last().1)
    }
}

/// The list after each of `grams` was put into it with the same weight.
pub open spec fn put_grams(s: Seq<(Seq<char>, u8)>, grams: Seq<Seq<char>>, weight: u8) -> Seq<
    (Seq<char>, u8),
>
    decreases grams.len(),
{
    if grams.len() == 0 {
        s
    } else {
        put(put_grams(s, grams.drop_last(), weight), grams.last(), weight)
    }
}

/// The list after the n-grams of a word were put into it; unchanged for a
/// stop-word.
pub open spec fn put_word(
    s: Seq<(Seq<char>, u8)>,
    word: Seq<char>,
    stopwords: Seq<Seq<char>>,
    terms: Map<Seq<u8>, u64>,
) -> Seq<(Seq<char>, u8)> {
    if stopwords.contains(word) {
        s
    } else {
        put_grams(s, word_grams(word), relevance(word, terms))
    }
}

/// The list after the n-grams of each of `ws` were put into it.
pub open spec fn put_words(
    s: Seq<(Seq<char>, u8)>,
    ws: Seq<Seq<char>>,
    stopwords: Seq<Seq<char>>,
    terms: Map<Seq<u8>, u64>,
) -> Seq<(Seq<char>, u8)>
    decreases ws.len(),
{
    if ws.len() == 0 {
        s
    } else {
        put_word(put_words(s, ws.drop_last(), stopwords, terms), ws.last(), stopwords, terms)
    }
}

/// The weighted n-grams of a query.
pub open spec fn ngrams_of(q: Seq<char>, stopwords: Seq<Seq<char>>, terms: Map<Seq<u8>, u64>) -> Seq<
    (Seq<char>, u8),
> {
    put_words(Seq::empty(), words(q), stopwords, terms)
}

/// The weighted n-grams of several queries: those of each query, put
/// together in the order of the queries.
pub open spec fn ngrams_of_all(
    qs: Seq<Seq<char>>,
    stopwords: Seq<Seq<char>>,
    terms: Map<Seq<u8>, u64>,
) -> Seq<(Seq<char>, u8)>
    decreases qs.len(),
{
    if qs.len() == 0 {
        Seq::empty()
    } else {
        put_all(
            ngrams_of_all(qs.drop_last(), stopwords, terms),
            ngrams_of(qs.last(), stopwords, terms),
        )
    }
}

/// Putting an n-gram into a list of distinct n-grams leaves them distinct,
/// and the list then holds the n-gram with the weight that was put.
pub proof fn lemma_put_keeps_distinct(s: Seq<(Seq<char>, u8)>, text: Seq<char>, weight: u8)
    requires
        distinct(s),
    ensures
        distinct(put(s, text, weight)),
        holds(put(s, text, weight), text),
        put(s, text, weight).len() >= s.len(),
{
    let t = put(s, text, weight);
    if holds(s, text) {
        let i = choose|i: int| 0 <= i < s.len() && (#[trigger] s[i]).0 == text;
        assert(t[i].0 == text);
        assert forall|a: int, b: int| 0 <= a < b < t.len() implies (#[trigger] t[a]).0 != (
        #[trigger] t[b]).0 by {
            assert(t[a].0 == s[a].0);
            assert(t[b].0 == s[b].0);
        }
    } else {
        assert(t[s.len() as int].0 == text);
        assert forall|a: int, b: int| 0 <= a < b < t.len() implies (#[trigger] t[a]).0 != (
        #[trigger] t[b]).0 by {
            if b == s.len() {
                assert(s[a].0 != text);
            }
        }
    }
}

/// Putting several n-grams into a list of distinct n-grams leaves them
/// distinct.
pub proof fn lemma_put_all_keeps_distinct(s: Seq<(Seq<char>, u8)>, more: Seq<(Seq<char>, u8)>)
    requires
        distinct(s),
    ensures
        distinct(put_all(s, more)),
    decreases more.len(),
{
    if more.len() > 0 {
        lemma_put_all_keeps_distinct(s, more.drop_last());
        lemma_put_keeps_distinct(put_all(s, more.drop_last()), more.last().0, more.last().1);
    }
}

/// Putting n-grams of one weight into a list of distinct n-grams leaves
/// them distinct.
pub proof fn lemma_put_grams_keeps_distinct(
    s: Seq<(Seq<char>, u8)>,
    grams: Seq<Seq<char>>,
    weight: u8,
)
    requires
        distinct(s),
    ensures
        distinct(put_grams(s, grams, weight)),
    decreases grams.len(),
{
    if grams.len() > 0 {
        lemma_put_grams_keeps_distinct(s, grams.drop_last(), weight);
        lemma_put_keeps_distinct(put_grams(s, grams.drop_last(), weight), grams.last(), weight);
    }
}

/// Putting the n-grams of words into a list of distinct n-grams leaves them
/// distinct.
pub proof fn lemma_put_words_keeps_distinct(
    s: Seq<(Seq<char>, u8)>,
    ws: Seq<Seq<char>>,
    stopwords: Seq<Seq<char>>,
    terms: Map<Seq<u8>, u64>,
)
    requires
        distinct(s),
    ensures
        distinct(put_words(s, ws, stopwords, terms)),
    decreases ws.len(),
{
    if ws.len() > 0 {
        lemma_put_words_keeps_distinct(s, ws.drop_last(), stopwords, terms);
        lemma_put_grams_keeps_distinct(
            put_words(s, ws.drop_last(), stopwords, terms),
            word_grams(ws.last()),
            relevance(ws.last(), terms),
        );
    }
}

/// The n-grams of a query are distinct.
pub proof fn lemma_ngrams_are_distinct(
    q: Seq<char>,
    stopwords: Seq<Seq<char>>,
    terms: Map<Seq<u8>, u64>,
)
    ensures
        distinct(ngrams_of(q, stopwords, terms)),
{
    lemma_put_words_keeps_distinct(Seq::empty(), words(q), stopwords, terms);
}

/// Distinct n-grams put into an empty list give the same list.
pub proof fn lemma_put_all_of_distinct(more: Seq<(Seq<char>, u8)>)
    requires
        distinct(more),
    ensures
        put_all(Seq::empty(), more) == more,
    decreases more.len(),
{
    if more.len() > 0 {
        let head = more.drop_last();
        lemma_put_all_of_distinct(head);
        assert(!holds(head, more.last().0)) by {
            if holds(head, more.last().0) {
                let i = choose|i: int| 0 <= i < head.len() && (#[trigger] head[i]).0 == more.last().0;
                assert(more[i].0 == more[more.len() - 1].0);
            }
        }
        assert(head.push(more.last()) =~= more);
    }
}

/// Several queries of which there is only one have the n-grams of that
/// query.
pub proof fn lemma_ngrams_of_one_query(
    q: Seq<char>,
    stopwords: Seq<Seq<char>>,
    terms: Map<Seq<u8>, u64>,
)
    ensures
        ngrams_of_all(seq![q], stopwords, terms) == ngrams_of(q, stopwords, terms),
{
    let qs = seq![q];
    assert(qs.drop_last() =~= Seq::<Seq<char>>::empty());
    assert(qs.last() == q);
    assert(ngrams_of_all(qs.drop_last(), stopwords, terms) == Seq::<(Seq<char>, u8)>::empty());
    lemma_ngrams_are_distinct(q, stopwords, terms);
    lemma_put_all_of_distinct(ngrams_of(q, stopwords, terms));
}

/// A query without a character, and one of spaces alone, has no n-gram.
pub proof fn lemma_no_words_no_ngrams(
    q: Seq<char>,
    stopwords: Seq<Seq<char>>,
    terms: Map<Seq<u8>, u64>,
)
    requires
        forall|i: int| 0 <= i < q.len() ==> is_space(#[trigger] q[i]),
    ensures
        ngrams_of(q, stopwords, terms) == Seq::<(Seq<char>, u8)>::empty(),
{
    lemma_spaces_hold_no_word(q);
    assert(words(q) =~= Seq::<Seq<char>>::empty());
}

/// A run of spaces holds no word.
pub proof fn lemma_spaces_hold_no_word(q: Seq<char>)
    requires
        forall|i: int| 0 <= i < q.len() ==> is_space(#[trigger] q[i]),
    ensures
        scan(q) == (Seq::<Seq<char>>::empty(), Seq::<char>::empty()),
        words(q).len() == 0,
    decreases q.len(),
{
    if q.len() > 0 {
        assert forall|i: int| 0 <= i < q.drop_last().len() implies is_space(
            #[trigger] q.drop_last()[i],
        ) by {
            assert(q.drop_last()[i] == q[i]);
        }
        lemma_spaces_hold_no_word(q.drop_last());
        assert(is_space(q[q.len() - 1]));
    }
}

/// Whether a character parts words.
pub fn is_space_char(c: char) -> (r: bool)
    ensures
        r == is_space(c),
{
    c == ' ' || c == '\t' || c == '\n' || c == '\r'
}

/// The characters of a string.
fn chars_of(q: &str) -> (v: Vec<char>)
    ensures
        v@ == q@,
{
    let mut v: Vec<char> = Vec::new();
    for c in it: q.chars()
        invariant
            v@ == it.seq().take(it.index() as int),
    {
        v.push(c);
    }
    v
}

/// Cuts a query into its words.
pub fn split_words(query: &str) -> (ws: Vec<String>)
    ensures
        texts(ws@) == words(query@),
{
    let chars: Vec<char> = chars_of(query);
    let n: usize = chars.len();
    let mut ws: Vec<String> = Vec::new();
    let mut start: usize = 0;
    let mut i: usize = 0;
    proof {
        assert(query@.take(0) =~= Seq::<char>::empty());
        assert(query@.subrange(0, 0) =~= Seq::<char>::empty());
        assert(texts(ws@) =~= Seq::<Seq<char>>::empty());
    }
    while i < n
        invariant
            i <= n,
            n == query@.len(),
            chars@ == query@,
            start <= i,
            scan(query@.take(i as int)) == (texts(ws@), query@.subrange(start as int, i as int)),
        decreases n - i,
    {
        let c: char = chars[i];
        proof {
            assert(query@.take(i + 1).drop_last() =~= query@.take(i as int));
            assert(query@.take(i + 1).last() == c);
        }
        if is_space_char(c) {
            if start < i {
                let word: String = query.substring_char(start, i).to_owned();
                let ghost before: Seq<String> = ws@;
                ws.push(word);
                proof {
                    assert(texts(ws@) =~= texts(before).push(
                        query@.subrange(start as int, i as int),
                    ));
                }
            }
            start = i + 1;
            proof {
                assert(query@.subrange(i + 1, i + 1) =~= Seq::<char>::empty());
            }
        } else {
            proof {
                assert(query@.subrange(start as int, i + 1) =~= query@.subrange(
                    start as int,
                    i as int,
                ).push(c));
            }
        }
        i = i + 1;
    }
    proof {
        assert(query@.take(n as int) =~= query@);
    }
    if start < n {
        let word: String = query.substring_char(start, n).to_owned();
        let ghost before: Seq<String> = ws@;
        ws.push(word);
        proof {
            assert(texts(ws@) =~= texts(before).push(query@.subrange(start as int, n as int)));
        }
    }
    ws
}

/// Whether a word is among the stop-words.
pub fn is_stopword(word: &String, stopwords: &Vec<String>) -> (r: bool)
    ensures
        r == texts(stopwords@).contains(word@),
{
    let n: usize = stopwords.len();
    let mut i: usize = 0;
    while i < n
        invariant
            i <= n,
            n == stopwords@.len(),
            forall|k: int| 0 <= k < i ==> texts(stopwords@)[k] != word@,
        decreases n - i,
    {
        if stopwords[i] == *word {
            assert(texts(stopwords@)[i as int] == word@);
            return true;
        }
        i = i + 1;
    }
    false
}

/// The relevance of a word in percent, from the map of term relevances.
pub fn term_relevance(word: &str, terms_relevance: &SoundMap) -> (r: u8)
    ensures
        r == relevance(word@, terms_relevance.entries()),
        r <= FULL_RELEVANCE,
{
    match lookup(terms_relevance, word) {
        Some(score) => {
            if score < FULL_RELEVANCE as u64 {
                score as u8
            } else {
                FULL_RELEVANCE
            }
        },
        None => FULL_RELEVANCE,
    }
}

/// Sets the weight of an n-gram in a list: in place where the list holds
/// the n-gram, at the end where it does not.
pub fn insert_ngram(list: &mut Vec<Ngram>, text: String, weight: u8)
    ensures
        views(final(list)@) == put(views(old(list)@), text@, weight),
{
    let ghost before: Seq<(Seq<char>, u8)> = views(list@);
    let n: usize = list.len();
    let mut found: bool = false;
    let mut i: usize = 0;
    while i < n
        invariant
            i <= n,
            n == list@.len(),
            n == before.len(),
            forall|k: int|
                0 <= k < i ==> (#[trigger] list@[k])@ == (if before[k].0 == text@ {
                    (text@, weight)
                } else {
                    before[k]
                }),
            forall|k: int| i <= k < n ==> (#[trigger] list@[k])@ == before[k],
            found <==> exists|k: int| 0 <= k < i && (#[trigger] before[k]).0 == text@,
        decreases n - i,
    {
        if list[i].text == text {
            let fresh: Ngram = Ngram { text: text.clone(), weight };
            list.set(i, fresh);
            found = true;
            assert(before[i as int].0 == text@);
        }
        i = i + 1;
    }
    if !found {
        list.push(Ngram { text, weight });
        assert(views(list@) =~= before.push((text@, weight)));
    } else {
        assert(holds(before, text@));
        assert(views(list@) =~= put(before, text@, weight));
    }
}

/// Puts the n-grams of a word into a list, each with the given weight.
pub fn insert_word(list: &mut Vec<Ngram>, word: &str, weight: u8)
    ensures
        views(final(list)@) == put_grams(views(old(list)@), word_grams(word@), weight),
{
    let ghost before: Seq<(Seq<char>, u8)> = views(list@);
    let ghost grams: Seq<Seq<char>> = word_grams(word@);
    let n: usize = word.unicode_len();
    if n <= NGRAM_LEN {
        proof {
            assert(grams.drop_last() =~= Seq::<Seq<char>>::empty());
            assert(grams.last() == word@);
            assert(word@.subrange(0, n as int) =~= word@);
            assert(put_grams(before, grams.drop_last(), weight) == before);
            assert(put_grams(before, grams, weight) == put(before, word@, weight));
        }
        insert_ngram(list, word.substring_char(0, n).to_owned(), weight);
    } else {
        let count: usize = n - NGRAM_LEN + 1;
        let mut j: usize = 0;
        proof {
            assert(grams.take(0) =~= Seq::<Seq<char>>::empty());
        }
        while j < count
            invariant
                j <= count,
                count == n - NGRAM_LEN + 1,
                NGRAM_LEN < n,
                n == word@.len(),
                grams == word_grams(word@),
                views(list@) == put_grams(before, grams.take(j as int), weight),
            decreases count - j,
        {
            proof {
                assert(grams.take(j + 1).drop_last() =~= grams.take(j as int));
                assert(grams.take(j + 1).last() == word@.subrange(j as int, j + NGRAM_LEN));
            }
            insert_ngram(list, word.substring_char(j, j + NGRAM_LEN).to_owned(), weight);
            j = j + 1;
        }
        proof {
            assert(grams.take(count as int) =~= grams);
        }
    }
}

/// The weighted n-grams of a query: no two with the same characters, each
/// in the place where it first came up and with the weight that it last
/// came up with.
pub fn parse(query: &str, stopwords: &Vec<String>, terms_relevance: &SoundMap) -> (list: Vec<Ngram>)
    ensures
        views(list@) == ngrams_of(query@, texts(stopwords@), terms_relevance.entries()),
        distinct(views(list@)),
{
    let ws: Vec<String> = split_words(query);
    let n: usize = ws.len();
    let mut list: Vec<Ngram> = Vec::new();
    let mut k: usize = 0;
    let ghost stop: Seq<Seq<char>> = texts(stopwords@);
    let ghost terms: Map<Seq<u8>, u64> = terms_relevance.entries();
    proof {
        assert(views(list@) =~= Seq::<(Seq<char>, u8)>::empty());
        assert(words(query@).take(0) =~= Seq::<Seq<char>>::empty());
    }
    while k < n
        invariant
            k <= n,
            n == ws@.len(),
            texts(ws@) == words(query@),
            stop == texts(stopwords@),
            terms == terms_relevance.entries(),
            views(list@) == put_words(Seq::empty(), words(query@).take(k as int), stop, terms),
        decreases n - k,
    {
        let word: &String = &ws[k];
        proof {
            let all = words(query@);
            assert(all.take(k + 1).drop_last() =~= all.take(k as int));
            assert(all.take(k + 1).last() == texts(ws@)[k as int]);
            assert(texts(ws@)[k as int] == word@);
        }
        if !is_stopword(word, stopwords) {
            let weight: u8 = term_relevance(word.as_str(), terms_relevance);
            insert_word(&mut list, word.as_str(), weight);
        }
        k = k + 1;
    }
    proof {
        assert(words(query@).take(n as int) =~= words(query@));
        lemma_ngrams_are_distinct(query@, stop, terms);
    }
    list
}

/// Puts each n-gram of `more` into `list`, in their order: one that the
/// list holds gets the weight that `more` gives it, and one that it does
/// not hold is put at the end.
pub fn merge_ngrams(list: &mut Vec<Ngram>, more: &Vec<Ngram>)
    ensures
        views(final(list)@) == put_all(views(old(list)@), views(more@)),
{
    let ghost before: Seq<(Seq<char>, u8)> = views(list@);
    let ghost added: Seq<(Seq<char>, u8)> = views(more@);
    let n: usize = more.len();
    let mut i: usize = 0;
    proof {
        assert(added.take(0) =~= Seq::<(Seq<char>, u8)>::empty());
    }
    while i < n
        invariant
            i <= n,
            n == more@.len(),
            added == views(more@),
            views(list@) == put_all(before, added.take(i as int)),
        decreases n - i,
    {
        proof {
            assert(added.take(i + 1).drop_last() =~= added.take(i as int));
            assert(added.take(i + 1).last() == more@[i as int]@);
        }
        insert_ngram(list, more[i].text.clone(), more[i].weight);
        i = i + 1;
    }
    proof {
        assert(added.take(n as int) =~= added);
    }
}

/// The weighted n-grams of several queries: those of each query, put
/// together in the order of the queries, so that the weight an n-gram has
/// in a later query replaces the one it has in an earlier query.
pub fn parse_all(
    queries: &Vec<String>,
    stopwords: &Vec<String>,
    terms_relevance: &SoundMap,
) -> (list: Vec<Ngram>)
    ensures
        views(list@) == ngrams_of_all(
            texts(queries@),
            texts(stopwords@),
            terms_relevance.entries(),
        ),
        distinct(views(list@)),
{
    let n: usize = queries.len();
    let mut list: Vec<Ngram> = Vec::new();
    let mut i: usize = 0;
    let ghost qs: Seq<Seq<char>> = texts(queries@);
    let ghost stop: Seq<Seq<char>> = texts(stopwords@);
    let ghost terms: Map<Seq<u8>, u64> = terms_relevance.entries();
    proof {
        assert(views(list@) =~= Seq::<(Seq<char>, u8)>::empty());
        assert(qs.take(0) =~= Seq::<Seq<char>>::empty());
    }
    while i < n
        invariant
            i <= n,
            n == queries@.len(),
            qs == texts(queries@),
            stop == texts(stopwords@),
            terms == terms_relevance.entries(),
            views(list@) == ngrams_of_all(qs.take(i as int), stop, terms),
            distinct(views(list@)),
        decreases n - i,
    {
        proof {
            assert(qs.take(i + 1).drop_last() =~= qs.take(i as int));
            assert(qs.take(i + 1).last() == queries@[i as int]@);
            lemma_put_all_keeps_distinct(
                views(list@),
                ngrams_of(queries@[i as int]@, stop, terms),
            );
        }
        let more: Vec<Ngram> = parse(queries[i].as_str(), stopwords, terms_relevance);
        merge_ngrams(&mut list, &more);
        i = i + 1;
    }
    proof {
        assert(qs.take(n as int) =~= qs);
    }
    list
}

} // verus!
