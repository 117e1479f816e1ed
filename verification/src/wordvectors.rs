//! The vocabulary store: the materialized word-embedding table, point
//! lookups, and the cosine-similarity and analogy queries over it.
//!
//! The store is array-backed: entries keep their stream order, a
//! duplicated word keeps its first vector, and lookup is a linear scan.
//! Vectors are held as IEEE-754 single-precision bit patterns and are
//! expected to be unit-normalized before the store is built — the dot
//! product of two unit vectors is their cosine similarity, so queries
//! need no runtime division. Scores enter the queries as bit patterns
//! too, one per stored entry, computed by the caller against the whole
//! table.

use vstd::prelude::*;

use crate::vectorreader::entry_views;
use crate::utils::{
    compute_negate_bits, contains_word, kept, label_in, negate_bits, score_key, sorted_desc,
    top_k, word_in,
};

verus! {

/// First-occurrence deduplication: keeps every entry whose word did not
/// appear earlier, in order.
pub open spec fn dedup_first(entries: Seq<(String, Vec<u32>)>) -> Seq<(String, Vec<u32>)>
    decreases entries.len(),
{
    if entries.len() == 0 {
        Seq::empty()
    } else {
        let rest = dedup_first(entries.drop_last());
        if exists|i: int|
            0 <= i < entries.len() - 1 && (#[trigger] entries[i]).0@ == entries[entries.len()
                - 1].0@ {
            rest
        } else {
            rest.push(entries[entries.len() - 1])
        }
    }
}

/// Deduplication only drops entries.
pub proof fn lemma_dedup_first_len(entries: Seq<(String, Vec<u32>)>)
    ensures
        dedup_first(entries).len() <= entries.len(),
    decreases entries.len(),
{
    if entries.len() > 0 {
        lemma_dedup_first_len(entries.drop_last());
    }
}

/// True when some entry's word reads `w`.
pub open spec fn entries_have_word(entries: Seq<(String, Vec<u32>)>, w: Seq<char>) -> bool {
    exists|i: int| 0 <= i < entries.len() && (#[trigger] entries[i]).0@ == w
}

/// Deduplication keeps exactly the words that were read: none is lost
/// and none is invented.
pub proof fn lemma_dedup_first_words(entries: Seq<(String, Vec<u32>)>)
    ensures
        forall|w: Seq<char>|
            #[trigger] entries_have_word(dedup_first(entries), w) <==> entries_have_word(
                entries,
                w,
            ),
    decreases entries.len(),
{
    if entries.len() > 0 {
        let prev = entries.drop_last();
        lemma_dedup_first_words(prev);
        let d = dedup_first(entries);
        let dp = dedup_first(prev);
        let last = entries[entries.len() - 1];
        assert forall|w: Seq<char>|
            #[trigger] entries_have_word(d, w) <==> entries_have_word(entries, w) by {
            if entries_have_word(d, w) {
                let i = choose|i: int| 0 <= i < d.len() && (#[trigger] d[i]).0@ == w;
                if d == dp || i < dp.len() {
                    assert(dp[i].0@ == w);
                    assert(entries_have_word(dp, w));
                    assert(entries_have_word(prev, w));
                    let j = choose|j: int| 0 <= j < prev.len() && (#[trigger] prev[j]).0@ == w;
                    assert(entries[j].0@ == w);
                } else {
                    assert(d[i] == last);
                    assert(entries[entries.len() - 1].0@ == w);
                }
            }
            if entries_have_word(entries, w) {
                let i = choose|i: int| 0 <= i < entries.len() && (#[trigger] entries[i]).0@ == w;
                if i < entries.len() - 1 {
                    assert(prev[i].0@ == w);
                    assert(entries_have_word(prev, w));
                    assert(entries_have_word(dp, w));
                    let j = choose|j: int| 0 <= j < dp.len() && (#[trigger] dp[j]).0@ == w;
                    if d == dp {
                        assert(d[j].0@ == w);
                    } else {
                        assert(d == dp.push(last));
                        assert(d[j].0@ == w);
                    }
                } else {
                    assert(last.0@ == w);
                    if exists|q: int|
                        0 <= q < entries.len() - 1 && (#[trigger] entries[q]).0@ == last.0@ {
                        let q = choose|q: int|
                            0 <= q < entries.len() - 1 && (#[trigger] entries[q]).0@ == last.0@;
                        assert(prev[q].0@ == w);
                        assert(entries_have_word(prev, w));
                        assert(entries_have_word(dp, w));
                        let j = choose|j: int| 0 <= j < dp.len() && (#[trigger] dp[j]).0@ == w;
                        assert(d[j].0@ == w);
                    } else {
                        assert(d == dp.push(last));
                        assert(d[d.len() - 1].0@ == w);
                    }
                }
            }
        }
    }
}

/// Deduplicated entries carry pairwise distinct words: the first
/// occurrence wins and no later duplicate is stored.
pub proof fn lemma_dedup_first_distinct(entries: Seq<(String, Vec<u32>)>)
    ensures
        forall|i: int, j: int|
            0 <= i < j < dedup_first(entries).len() ==> (#[trigger] dedup_first(entries)[i]).0@
                != (#[trigger] dedup_first(entries)[j]).0@,
    decreases entries.len(),
{
    if entries.len() > 0 {
        let prev = entries.drop_last();
        lemma_dedup_first_distinct(prev);
        lemma_dedup_first_words(prev);
        let d = dedup_first(entries);
        let dp = dedup_first(prev);
        let last = entries[entries.len() - 1];
        assert forall|i: int, j: int|
            0 <= i < j < d.len() implies (#[trigger] d[i]).0@ != (#[trigger] d[j]).0@ by {
            if j < dp.len() {
                assert(d[i] == dp[i] && d[j] == dp[j]);
            } else if d != dp {
                assert(d == dp.push(last));
                assert(j == dp.len() && d[j] == last);
                assert(d[i] == dp[i]);
                if dp[i].0@ == last.0@ {
                    assert(entries_have_word(dp, last.0@));
                    assert(entries_have_word(prev, last.0@));
                    let q = choose|q: int|
                        0 <= q < prev.len() && (#[trigger] prev[q]).0@ == last.0@;
                    assert(entries[q].0@ == last.0@);
                    assert(false);
                }
            }
        }
    }
}

/// However many entries a stream yielded, a store built from them holds
/// at most that many words; reading yields at most `vocabulary_size`
/// entries, so a loaded store holds at most `vocabulary_size` words.
pub proof fn lemma_word_count_within_vocabulary(
    entries: Seq<(String, Vec<u32>)>,
    vocabulary_size: int,
)
    requires
        entries.len() <= vocabulary_size,
    ensures
        dedup_first(entries).len() <= vocabulary_size,
{
    lemma_dedup_first_len(entries);
}

/// Count of stored entries whose word is not `w`: how many candidates a
/// cosine query over the store can return.
pub open spec fn count_other_words(v: Seq<(Seq<char>, Seq<u32>)>, w: Seq<char>) -> int
    decreases v.len(),
{
    if v.len() == 0 {
        0
    } else {
        count_other_words(v.drop_last(), w) + if v[v.len() - 1].0 == w {
            0int
        } else {
            1int
        }
    }
}

/// Count of stored entries whose word occurs in neither query list: how
/// many candidates an analogy query over the store can return.
pub open spec fn count_not_queried(
    v: Seq<(Seq<char>, Seq<u32>)>,
    pos: Seq<String>,
    neg: Seq<String>,
) -> int
    decreases v.len(),
{
    if v.len() == 0 {
        0
    } else {
        count_not_queried(v.drop_last(), pos, neg) + if word_in(pos, v[v.len() - 1].0) || word_in(
            neg,
            v[v.len() - 1].0,
        ) {
            0int
        } else {
            1int
        }
    }
}

/// Length of the filtered candidate list, counted over the store view:
/// the exclusion list must hold exactly the words of the two query
/// lists, and the scored pairs must mirror the store's words in order.
proof fn lemma_kept_len(
    s: Seq<(String, u32)>,
    v: Seq<(Seq<char>, Seq<u32>)>,
    ex: Seq<String>,
    pos: Seq<String>,
    neg: Seq<String>,
)
    requires
        s.len() == v.len(),
        forall|i: int| 0 <= i < s.len() ==> (#[trigger] s[i]).0@ == v[i].0,
        forall|l: Seq<char>|
            #[trigger] word_in(ex, l) <==> (word_in(pos, l) || word_in(neg, l)),
    ensures
        kept(s, ex).len() == count_not_queried(v, pos, neg),
    decreases s.len(),
{
    reveal(Seq::filter);
    if s.len() > 0 {
        assert(forall|i: int|
            0 <= i < s.drop_last().len() ==> (#[trigger] s.drop_last()[i]).0@
                == v.drop_last()[i].0);
        lemma_kept_len(s.drop_last(), v.drop_last(), ex, pos, neg);
        assert(s[s.len() - 1].0@ == v[v.len() - 1].0);
        assert(word_in(ex, s.last().0@) <==> (word_in(pos, v[v.len() - 1].0) || word_in(
            neg,
            v[v.len() - 1].0,
        )));
    }
}

/// Representation of a word vector space: the full collection of
/// (word, vector) entries plus their shared dimensionality, created by
/// one load and immutable afterwards.
pub struct WordVector {
    words: Vec<String>,
    vectors: Vec<Vec<u32>>,
    vector_size: usize,
}

impl View for WordVector {
    type V = Seq<(Seq<char>, Seq<u32>)>;

    /// The stored entries, in insertion order, as (characters,
    /// components) pairs.
    closed spec fn view(&self) -> Seq<(Seq<char>, Seq<u32>)> {
        Seq::new(self.words@.len(), |i: int| (self.words@[i]@, self.vectors@[i]@))
    }
}

impl WordVector {
    /// Well-formedness: words and vectors pair up, every vector has the
    /// declared dimensionality, and no word is stored twice.
    #[verifier::type_invariant]
    pub closed spec fn wf(&self) -> bool {
        &&& self.words@.len() == self.vectors@.len()
        &&& forall|i: int|
            0 <= i < self.vectors@.len() ==> (#[trigger] self.vectors@[i])@.len()
                == self.vector_size
        &&& forall|i: int, j: int|
            0 <= i < j < self.words@.len() ==> (#[trigger] self.words@[i])@ != (
            #[trigger] self.words@[j])@
    }

    /// Dimensionality of every stored vector.
    pub closed spec fn spec_vector_size(&self) -> usize {
        self.vector_size
    }

    /// True when some entry's word reads `w`.
    pub open spec fn has_word(&self, w: Seq<char>) -> bool {
        exists|i: int| 0 <= i < self@.len() && (#[trigger] self@[i]).0 == w
    }

    /// True when some word of `pos` or `neg` is in the store.
    pub open spec fn any_resolvable(&self, pos: Seq<String>, neg: Seq<String>) -> bool {
        (exists|i: int| 0 <= i < pos.len() && self.has_word((#[trigger] pos[i])@)) || (exists|
            i: int,
        | 0 <= i < neg.len() && self.has_word((#[trigger] neg[i])@))
    }

    /// Build the store from parsed entries whose vectors all have the
    /// given dimensionality — normalization is the caller's step between
    /// reading and building. A word that occurs twice keeps its first
    /// vector; lookups and iteration follow insertion order.
    pub fn from_entries(vector_size: usize, entries: Vec<(String, Vec<u32>)>) -> (r: WordVector)
        requires
            forall|i: int|
                0 <= i < entries@.len() ==> (#[trigger] entries@[i]).1@.len() == vector_size,
        ensures
            r@ == entry_views(dedup_first(entries@)),
            r.spec_vector_size() == vector_size,
    {
        let mut words: Vec<String> = Vec::new();
        let mut vectors: Vec<Vec<u32>> = Vec::new();
        let mut i: usize = 0;
        proof {
            assert(entries@.subrange(0, 0) =~= Seq::<(String, Vec<u32>)>::empty());
            assert(views_of(words@, vectors@) =~= entry_views(dedup_first(
                entries@.subrange(0, 0),
            )));
        }
        while i < entries.len()
            invariant
                0 <= i <= entries@.len(),
                forall|q: int|
                    0 <= q < entries@.len() ==> (#[trigger] entries@[q]).1@.len() == vector_size,
                words@.len() == vectors@.len(),
                forall|q: int|
                    0 <= q < vectors@.len() ==> (#[trigger] vectors@[q])@.len() == vector_size,
                forall|a: int, b: int|
                    0 <= a < b < words@.len() ==> (#[trigger] words@[a])@ != (
                    #[trigger] words@[b])@,
                views_of(words@, vectors@) == entry_views(dedup_first(entries@.subrange(0, i as int))),
                forall|w: Seq<char>|
                    #[trigger] word_in(words@, w) <==> exists|j: int|
                        0 <= j < i && (#[trigger] entries@[j]).0@ == w,
            decreases entries@.len() - i,
        {
            let present = contains_word(&words, &entries[i].0);
            let ghost prefix = entries@.subrange(0, i as int);
            let ghost cur = entries@.subrange(0, i + 1);
            proof {
                assert(cur.drop_last() =~= prefix);
                assert(cur[cur.len() - 1] == entries@[i as int]);
                assert((exists|j: int|
                    0 <= j < cur.len() - 1 && (#[trigger] cur[j]).0@ == cur[cur.len() - 1].0@)
                    <==> (exists|j: int|
                    0 <= j < i && (#[trigger] entries@[j]).0@ == entries@[i as int].0@)) by {
                    if exists|j: int|
                        0 <= j < cur.len() - 1 && (#[trigger] cur[j]).0@ == cur[cur.len() - 1].0@ {
                        let j = choose|j: int|
                            0 <= j < cur.len() - 1 && (#[trigger] cur[j]).0@ == cur[cur.len()
                                - 1].0@;
                        assert((#[trigger] entries@[j]).0@ == entries@[i as int].0@);
                    }
                    if exists|j: int|
                        0 <= j < i && (#[trigger] entries@[j]).0@ == entries@[i as int].0@ {
                        let j = choose|j: int|
                            0 <= j < i && (#[trigger] entries@[j]).0@ == entries@[i as int].0@;
                        assert((#[trigger] cur[j]).0@ == cur[cur.len() - 1].0@);
                    }
                }
            }
            if !present {
                let word = entries[i].0.clone();
                let vector = copy_vector(&entries[i].1);
                let ghost word_g = word;
                let ghost vector_g = vector;
                let ghost old_words = words@;
                let ghost old_vectors = vectors@;
                words.push(word);
                vectors.push(vector);
                proof {
                    assert(word_g == entries@[i as int].0);
                    assert(vector_g@ == entries@[i as int].1@);
                    assert(words@ == old_words.push(word_g));
                    assert(vectors@ == old_vectors.push(vector_g));
                    assert(views_of(old_words, old_vectors) == entry_views(dedup_first(prefix)));
                    assert(old_words.len() == dedup_first(prefix).len()) by {
                        assert(views_of(old_words, old_vectors).len() == entry_views(
                            dedup_first(prefix),
                        ).len());
                    }
                    assert(dedup_first(cur) == dedup_first(prefix).push(entries@[i as int]));
                    assert forall|k: int| 0 <= k < words@.len() implies views_of(words@, vectors@)[k]
                        == entry_views(dedup_first(cur))[k] by {
                        if k < old_words.len() {
                            assert(views_of(old_words, old_vectors)[k] == entry_views(
                                dedup_first(prefix),
                            )[k]);
                            assert(words@[k] == old_words[k]);
                            assert(vectors@[k] == old_vectors[k]);
                            assert(dedup_first(cur)[k] == dedup_first(prefix)[k]);
                        } else {
                            assert(words@[k] == word_g);
                            assert(vectors@[k] == vector_g);
                            assert(dedup_first(cur)[k] == entries@[i as int]);
                        }
                    }
                    assert(views_of(words@, vectors@) =~= entry_views(dedup_first(cur)));
                    assert forall|w: Seq<char>| #[trigger]
                        word_in(words@, w) <==> exists|j: int|
                            0 <= j < i + 1 && (#[trigger] entries@[j]).0@ == w by {
                        if word_in(words@, w) {
                            let k = choose|k: int| 0 <= k < words@.len() && words@[k]@ == w;
                            if k < old_words.len() {
                                assert(word_in(old_words, w));
                            } else {
                                assert(entries@[i as int].0@ == w);
                            }
                        }
                        if exists|j: int| 0 <= j < i + 1 && (#[trigger] entries@[j]).0@ == w {
                            let j = choose|j: int|
                                0 <= j < i + 1 && (#[trigger] entries@[j]).0@ == w;
                            if j < i {
                                assert(word_in(old_words, w));
                                let k = choose|k: int|
                                    0 <= k < old_words.len() && old_words[k]@ == w;
                                assert(words@[k]@ == w);
                            } else {
                                assert(words@[words@.len() - 1]@ == w);
                            }
                        }
                    }
                }
            } else {
                proof {
                    assert(dedup_first(cur) == dedup_first(prefix));
                    assert forall|w: Seq<char>| #[trigger]
                        word_in(words@, w) <==> exists|j: int|
                            0 <= j < i + 1 && (#[trigger] entries@[j]).0@ == w by {
                        if exists|j: int| 0 <= j < i + 1 && (#[trigger] entries@[j]).0@ == w {
                            let j = choose|j: int|
                                0 <= j < i + 1 && (#[trigger] entries@[j]).0@ == w;
                            if j == i {
                                assert(word_in(words@, entries@[i as int].0@));
                            }
                        }
                    }
                }
            }
            i = i + 1;
        }
        proof {
            assert(entries@.subrange(0, entries@.len() as int) =~= entries@);
        }
        WordVector { words, vectors, vector_size }
    }

    /// Index of the entry whose word reads `w`, when one exists.
    fn find_word(&self, w: &String) -> (r: Option<usize>)
        ensures
            match r {
                Some(i) => 0 <= i < self@.len() && self@[i as int].0 == w@,
                None => !self.has_word(w@),
            },
    {
        proof {
            use_type_invariant(self);
        }
        let mut i: usize = 0;
        while i < self.words.len()
            invariant
                0 <= i <= self.words@.len(),
                self@.len() == self.words@.len(),
                forall|j: int| 0 <= j < self@.len() ==> (#[trigger] self@[j]).0 == self.words@[j]@,
                forall|j: int| 0 <= j < i ==> (#[trigger] self.words@[j])@ != w@,
            decreases self.words@.len() - i,
        {
            if self.words[i].eq(w) {
                return Some(i);
            }
            i = i + 1;
        }
        None
    }

    /// Vector stored for `word`, by exact, case-sensitive match; absent
    /// words give `None`, never an error.
    pub fn get_vector(&self, word: &str) -> (r: Option<&Vec<u32>>)
        ensures
            r is Some <==> self.has_word(word@),
            r matches Some(v) ==> exists|i: int|
                0 <= i < self@.len() && (#[trigger] self@[i]).0 == word@ && v@ == self@[i].1,
    {
        proof {
            use_type_invariant(self);
        }
        let w = word.to_owned();
        match self.find_word(&w) {
            Some(i) => {
                let v = &self.vectors[i];
                proof {
                    assert(self@[i as int].1 == v@);
                }
                Some(v)
            },
            None => None,
        }
    }

    /// Number of stored words.
    pub fn word_count(&self) -> (r: usize)
        ensures
            r == self@.len(),
    {
        proof {
            use_type_invariant(self);
        }
        self.words.len()
    }

    /// Dimensionality of the stored vectors (their column count).
    pub fn get_col_count(&self) -> (r: usize)
        ensures
            r == self.spec_vector_size(),
    {
        self.vector_size
    }

    /// All stored words, in insertion order, pairwise distinct.
    pub fn get_words(&self) -> (r: Vec<String>)
        ensures
            r@.len() == self@.len(),
            forall|i: int| 0 <= i < r@.len() ==> (#[trigger] r@[i])@ == self@[i].0,
            forall|i: int, j: int|
                0 <= i < j < r@.len() ==> (#[trigger] r@[i])@ != (#[trigger] r@[j])@,
    {
        proof {
            use_type_invariant(self);
        }
        let mut r: Vec<String> = Vec::new();
        let mut i: usize = 0;
        while i < self.words.len()
            invariant
                0 <= i <= self.words@.len(),
                self@.len() == self.words@.len(),
                forall|j: int| 0 <= j < self@.len() ==> (#[trigger] self@[j]).0 == self.words@[j]@,
                forall|a: int, b: int|
                    0 <= a < b < self.words@.len() ==> (#[trigger] self.words@[a])@ != (
                    #[trigger] self.words@[b])@,
                r@.len() == i,
                forall|j: int| 0 <= j < i ==> (#[trigger] r@[j])@ == self@[j].0,
                forall|a: int, b: int|
                    0 <= a < b < i ==> (#[trigger] r@[a])@ != (#[trigger] r@[b])@,
            decreases self.words@.len() - i,
        {
            r.push(self.words[i].clone());
            i = i + 1;
        }
        r
    }

    /// Pair every stored word with its score from the aligned list.
    fn label_scores(&self, scores: &Vec<u32>) -> (r: Vec<(String, u32)>)
        requires
            scores@.len() == self@.len(),
        ensures
            r@.len() == self@.len(),
            forall|i: int|
                0 <= i < r@.len() ==> (#[trigger] r@[i]).0@ == self@[i].0 && r@[i].1 == scores@[i],
    {
        proof {
            use_type_invariant(self);
        }
        let mut r: Vec<(String, u32)> = Vec::new();
        let mut i: usize = 0;
        while i < self.words.len()
            invariant
                0 <= i <= self.words@.len(),
                self@.len() == self.words@.len(),
                scores@.len() == self@.len(),
                forall|j: int| 0 <= j < self@.len() ==> (#[trigger] self@[j]).0 == self.words@[j]@,
                r@.len() == i,
                forall|j: int|
                    0 <= j < i ==> (#[trigger] r@[j]).0@ == self@[j].0 && r@[j].1 == scores@[j],
            decreases self.words@.len() - i,
        {
            r.push((self.words[i].clone(), scores[i]));
            i = i + 1;
        }
        r
    }

    /// Rank the vocabulary against `scores` for a cosine query on
    /// `word`: `None` exactly when `word` is not in the store; otherwise
    /// the `n` highest-scored other words, in descending score order.
    ///
    /// `scores` holds one bit pattern per stored entry, in store order —
    /// the dot product of that entry's vector with `word`'s vector, as
    /// computed by the caller. The query word itself is excluded from
    /// the result by name, never returned even when a tie would place
    /// another entry above it; with fewer than `n + 1` stored words the
    /// result is correspondingly shorter.
    pub fn cosine(&self, word: &str, n: usize, scores: &Vec<u32>) -> (r: Option<
        Vec<(String, u32)>,
    >)
        requires
            self.has_word(word@) ==> scores@.len() == self@.len(),
        ensures
            r is Some <==> self.has_word(word@),
            r matches Some(list) ==> {
                &&& sorted_desc(list@)
                &&& forall|i: int| 0 <= i < list@.len() ==> (#[trigger] list@[i]).0@ != word@
                &&& forall|i: int|
                    0 <= i < list@.len() ==> self.has_word((#[trigger] list@[i]).0@)
                &&& forall|i: int, k: int|
                    0 <= i < list@.len() && 0 <= k < self@.len() && (#[trigger] list@[i]).0@ == (
                    #[trigger] self@[k]).0 ==> list@[i].1 == scores@[k]
                &&& list@.len() == (if n as int <= count_other_words(self@, word@) {
                    n as int
                } else {
                    count_other_words(self@, word@)
                })
                &&& list@.len() > 0 ==> forall|k: int|
                    0 <= k < self@.len() && (#[trigger] self@[k]).0 != word@ && !label_in(
                        list@,
                        self@[k].0,
                    ) ==> score_key(scores@[k]) <= score_key(list@[list@.len() - 1].1)
            },
    {
        proof {
            use_type_invariant(self);
        }
        let w = word.to_owned();
        if self.find_word(&w).is_none() {
            return None;
        }
        let scored = self.label_scores(scores);
        let ghost scored0 = scored@;
        let mut exclude: Vec<String> = Vec::new();
        exclude.push(w);
        let r = top_k(scored, n, &exclude);
        proof {
            assert forall|l: Seq<char>| #[trigger] word_in(exclude@, l) <==> l == word@ by {
                if word_in(exclude@, l) {
                    let k = choose|k: int| 0 <= k < exclude@.len() && exclude@[k]@ == l;
                    assert(k == 0);
                } else {
                    assert(exclude@[0]@ == word@);
                }
            }
            lemma_kept_len(scored0, self@, exclude@, exclude@, Seq::<String>::empty());
            assert(count_not_queried(self@, exclude@, Seq::<String>::empty())
                == count_other_words(self@, word@)) by {
                lemma_counts_match(self@, exclude@, word@);
            }
            assert forall|i: int| 0 <= i < r@.len() implies (#[trigger] r@[i]).0@ != word@ by {
                assert(!word_in(exclude@, r@[i].0@));
            }
            assert forall|i: int| 0 <= i < r@.len() implies self.has_word(
                (#[trigger] r@[i]).0@,
            ) by {
                assert(scored0.contains(r@[i]));
                let k0 = choose|k0: int| 0 <= k0 < scored0.len() && scored0[k0] == r@[i];
                assert(self@[k0].0 == r@[i].0@);
            }
            assert forall|i: int, k: int|
                0 <= i < r@.len() && 0 <= k < self@.len() && (#[trigger] r@[i]).0@ == (
                #[trigger] self@[k]).0 implies r@[i].1 == scores@[k] by {
                assert(scored0.contains(r@[i]));
                let k0 = choose|k0: int| 0 <= k0 < scored0.len() && scored0[k0] == r@[i];
                assert(self@[k0].0 == r@[i].0@ && r@[i].1 == scores@[k0]);
                if k != k0 {
                    assert(self@[k].0 == self.words@[k]@);
                    assert(self@[k0].0 == self.words@[k0]@);
                    assert(false);
                }
            }
            if r@.len() > 0 {
                assert forall|k: int|
                    0 <= k < self@.len() && (#[trigger] self@[k]).0 != word@ && !label_in(
                        r@,
                        self@[k].0,
                    ) implies score_key(scores@[k]) <= score_key(r@[r@.len() - 1].1) by {
                    let x = scored0[k];
                    assert(scored0.contains(x)) by {
                        assert(scored0[k] == x);
                    }
                    assert(x.0@ == self@[k].0 && x.1 == scores@[k]);
                    assert(!word_in(exclude@, x.0@));
                    assert(!label_in(r@, x.0@));
                    assert(score_key(x.1) <= score_key(r@[r@.len() - 1].1));
                }
            }
        }
        Some(r)
    }

    /// The vectors an analogy query averages: each resolvable positive
    /// word's vector as stored, then each resolvable negative word's
    /// vector with every component's sign bit flipped — the IEEE-754
    /// negation of its value. Unresolvable words contribute nothing.
    pub fn analogy_gather(&self, pos: &Vec<String>, neg: &Vec<String>) -> (r: Vec<Vec<u32>>)
        ensures
            r.deep_view() == self.resolved_vectors(pos@, false) + self.resolved_vectors(neg@, true),
    {
        let mut r: Vec<Vec<u32>> = Vec::new();
        self.gather_side(pos, false, &mut r);
        self.gather_side(neg, true, &mut r);
        r
    }

    /// Vectors of the resolvable words of `ws`, in order; with `negate`,
    /// each component's sign bit is flipped.
    pub open spec fn resolved_vectors(&self, ws: Seq<String>, negate: bool) -> Seq<Seq<u32>>
        decreases ws.len(),
    {
        if ws.len() == 0 {
            Seq::empty()
        } else {
            let rest = self.resolved_vectors(ws.drop_last(), negate);
            if self.has_word(ws[ws.len() - 1]@) {
                let v = self.vector_of(ws[ws.len() - 1]@);
                rest.push(
                    if negate {
                        v.map_values(|b: u32| negate_bits(b))
                    } else {
                        v
                    },
                )
            } else {
                rest
            }
        }
    }

    /// Components stored for the word that reads `w`.
    pub open spec fn vector_of(&self, w: Seq<char>) -> Seq<u32> {
        self@[choose|i: int| 0 <= i < self@.len() && (#[trigger] self@[i]).0 == w].1
    }

    fn gather_side(&self, ws: &Vec<String>, negate: bool, out: &mut Vec<Vec<u32>>)
        ensures
            final(out).deep_view() == old(out).deep_view() + self.resolved_vectors(ws@, negate),
    {
        proof {
            use_type_invariant(self);
        }
        let mut i: usize = 0;
        proof {
            assert(ws@.subrange(0, 0) =~= Seq::<String>::empty());
            assert(out.deep_view() =~= old(out).deep_view() + self.resolved_vectors(
                ws@.subrange(0, 0),
                negate,
            ));
        }
        while i < ws.len()
            invariant
                0 <= i <= ws@.len(),
                out.deep_view() == old(out).deep_view() + self.resolved_vectors(
                    ws@.subrange(0, i as int),
                    negate,
                ),
            decreases ws@.len() - i,
        {
            let ghost prefix = ws@.subrange(0, i as int);
            let ghost cur = ws@.subrange(0, i + 1);
            proof {
                use_type_invariant(self);
                assert(cur.drop_last() =~= prefix);
                assert(cur[cur.len() - 1] == ws@[i as int]);
            }
            match self.find_word(&ws[i]) {
                Some(k) => {
                    let stored = &self.vectors[k];
                    proof {
                        assert(self@[k as int].1 == stored@);
                        let c = choose|c: int|
                            0 <= c < self@.len() && (#[trigger] self@[c]).0 == ws@[i as int]@;
                        assert(c == k as int);
                        assert(self.vector_of(ws@[i as int]@) == stored@);
                    }
                    let v = if negate {
                        negate_vector(stored)
                    } else {
                        copy_vector(stored)
                    };
                    proof {
                        assert(v.deep_view() =~= v@);
                    }
                    let ghost v_g = v;
                    let ghost old_out = out@;
                    let ghost old_deep = out.deep_view();
                    out.push(v);
                    proof {
                        let target = old(out).deep_view() + self.resolved_vectors(cur, negate);
                        assert(old_deep.len() == old_out.len());
                        assert(self@[k as int].0 == ws@[i as int]@);
                        assert(self.has_word(ws@[i as int]@));
                        assert(cur[cur.len() - 1]@ == ws@[i as int]@);
                        assert(v_g@ == (if negate {
                            self.vector_of(cur[cur.len() - 1]@).map_values(|b: u32| negate_bits(b))
                        } else {
                            self.vector_of(cur[cur.len() - 1]@)
                        }));
                        assert(self.resolved_vectors(cur, negate) == self.resolved_vectors(
                            prefix,
                            negate,
                        ).push(v_g@));
                        assert forall|k: int|
                            0 <= k < out@.len() implies out.deep_view()[k] == target[k] by {
                            assert(out.deep_view()[k] == out@[k].deep_view());
                            if k < old_out.len() {
                                assert(out@[k] == old_out[k]);
                                assert(old_deep[k] == (old(out).deep_view()
                                    + self.resolved_vectors(prefix, negate))[k]);
                            } else {
                                assert(out@[k] == v_g);
                                assert(target[k] == v_g@);
                            }
                        }
                        assert(out.deep_view() =~= target);
                    }
                },
                None => {
                },
            }
            i = i + 1;
        }
        proof {
            assert(ws@.subrange(0, ws@.len() as int) =~= ws@);
        }
    }

    /// Rank the vocabulary against `scores` for an analogy query built
    /// from `pos` and `neg`: `None` when both lists are empty, and —
    /// a deliberate tightening of the short-circuit, which otherwise
    /// would average an empty set of vectors — when no listed word is in
    /// the store. Otherwise the `n` highest-scored words that occur in
    /// neither list, in descending score order.
    ///
    /// `scores` holds one bit pattern per stored entry, in store order —
    /// the dot product of that entry's vector with the mean of the
    /// gathered query vectors, as computed by the caller. Every query
    /// word, resolvable or not, is excluded from the result.
    pub fn analogy(&self, pos: &Vec<String>, neg: &Vec<String>, n: usize, scores: &Vec<u32>) -> (r:
        Option<Vec<(String, u32)>>)
        requires
            self.any_resolvable(pos@, neg@) ==> scores@.len() == self@.len(),
        ensures
            r is Some <==> ((pos@.len() > 0 || neg@.len() > 0) && self.any_resolvable(pos@, neg@)),
            r matches Some(list) ==> {
                &&& sorted_desc(list@)
                &&& forall|i: int|
                    0 <= i < list@.len() ==> !word_in(pos@, (#[trigger] list@[i]).0@) && !word_in(
                        neg@,
                        list@[i].0@,
                    )
                &&& forall|i: int|
                    0 <= i < list@.len() ==> self.has_word((#[trigger] list@[i]).0@)
                &&& forall|i: int, k: int|
                    0 <= i < list@.len() && 0 <= k < self@.len() && (#[trigger] list@[i]).0@ == (
                    #[trigger] self@[k]).0 ==> list@[i].1 == scores@[k]
                &&& list@.len() == (if n as int <= count_not_queried(self@, pos@, neg@) {
                    n as int
                } else {
                    count_not_queried(self@, pos@, neg@)
                })
                &&& list@.len() > 0 ==> forall|k: int|
                    0 <= k < self@.len() && !word_in(pos@, (#[trigger] self@[k]).0) && !word_in(
                        neg@,
                        self@[k].0,
                    ) && !label_in(list@, self@[k].0) ==> score_key(scores@[k]) <= score_key(
                        list@[list@.len() - 1].1,
                    )
            },
    {
        proof {
            use_type_invariant(self);
        }
        if pos.len() == 0 && neg.len() == 0 {
            return None;
        }
        if !self.any_side_resolvable(pos) && !self.any_side_resolvable(neg) {
            return None;
        }
        let scored = self.label_scores(scores);
        let ghost scored0 = scored@;
        let mut exclude: Vec<String> = Vec::new();
        append_words(&mut exclude, pos);
        append_words(&mut exclude, neg);
        let r = top_k(scored, n, &exclude);
        proof {
            assert forall|l: Seq<char>| #[trigger]
                word_in(exclude@, l) <==> (word_in(pos@, l) || word_in(neg@, l)) by {
                lemma_word_in_concat(pos@, neg@, exclude@, l);
            }
            lemma_kept_len(scored0, self@, exclude@, pos@, neg@);
            assert forall|i: int|
                0 <= i < r@.len() implies !word_in(pos@, (#[trigger] r@[i]).0@) && !word_in(
                neg@,
                r@[i].0@,
            ) by {
                assert(!word_in(exclude@, r@[i].0@));
            }
            assert forall|i: int| 0 <= i < r@.len() implies self.has_word(
                (#[trigger] r@[i]).0@,
            ) by {
                assert(scored0.contains(r@[i]));
                let k0 = choose|k0: int| 0 <= k0 < scored0.len() && scored0[k0] == r@[i];
                assert(self@[k0].0 == r@[i].0@);
            }
            assert forall|i: int, k: int|
                0 <= i < r@.len() && 0 <= k < self@.len() && (#[trigger] r@[i]).0@ == (
                #[trigger] self@[k]).0 implies r@[i].1 == scores@[k] by {
                assert(scored0.contains(r@[i]));
                let k0 = choose|k0: int| 0 <= k0 < scored0.len() && scored0[k0] == r@[i];
                assert(self@[k0].0 == r@[i].0@ && r@[i].1 == scores@[k0]);
                if k != k0 {
                    assert(self@[k].0 == self.words@[k]@);
                    assert(self@[k0].0 == self.words@[k0]@);
                    assert(false);
                }
            }
            if r@.len() > 0 {
                assert forall|k: int|
                    0 <= k < self@.len() && !word_in(pos@, (#[trigger] self@[k]).0) && !word_in(
                        neg@,
                        self@[k].0,
                    ) && !label_in(r@, self@[k].0) implies score_key(scores@[k]) <= score_key(
                    r@[r@.len() - 1].1,
                ) by {
                    let x = scored0[k];
                    assert(scored0.contains(x)) by {
                        assert(scored0[k] == x);
                    }
                    assert(x.0@ == self@[k].0 && x.1 == scores@[k]);
                    assert(!word_in(exclude@, x.0@));
                    assert(!label_in(r@, x.0@));
                    assert(score_key(x.1) <= score_key(r@[r@.len() - 1].1));
                }
            }
        }
        Some(r)
    }

    /// True when some word of `ws` is in the store.
    fn any_side_resolvable(&self, ws: &Vec<String>) -> (r: bool)
        ensures
            r == exists|i: int| 0 <= i < ws@.len() && self.has_word((#[trigger] ws@[i])@),
    {
        let mut i: usize = 0;
        while i < ws.len()
            invariant
                0 <= i <= ws@.len(),
                forall|j: int| 0 <= j < i ==> !self.has_word((#[trigger] ws@[j])@),
            decreases ws@.len() - i,
        {
            if self.find_word(&ws[i]).is_some() {
                return true;
            }
            i = i + 1;
        }
        false
    }
}

/// The two per-entry candidate counts agree when the exclusion list
/// holds exactly the one query word.
proof fn lemma_counts_match(v: Seq<(Seq<char>, Seq<u32>)>, ex: Seq<String>, w: Seq<char>)
    requires
        forall|l: Seq<char>| #[trigger] word_in(ex, l) <==> l == w,
    ensures
        count_not_queried(v, ex, Seq::<String>::empty()) == count_other_words(v, w),
    decreases v.len(),
{
    if v.len() > 0 {
        lemma_counts_match(v.drop_last(), ex, w);
        assert(!word_in(Seq::<String>::empty(), v[v.len() - 1].0));
    }
}

/// Membership in a concatenation of word lists splits over its parts.
proof fn lemma_word_in_concat(a: Seq<String>, b: Seq<String>, c: Seq<String>, l: Seq<char>)
    requires
        c == a + b,
    ensures
        word_in(c, l) <==> (word_in(a, l) || word_in(b, l)),
{
    if word_in(c, l) {
        let k = choose|k: int| 0 <= k < c.len() && (#[trigger] c[k])@ == l;
        if k < a.len() {
            assert(a[k]@ == l);
        } else {
            assert(b[k - a.len()]@ == l);
        }
    }
    if word_in(a, l) {
        let k = choose|k: int| 0 <= k < a.len() && (#[trigger] a[k])@ == l;
        assert(c[k]@ == l);
    }
    if word_in(b, l) {
        let k = choose|k: int| 0 <= k < b.len() && (#[trigger] b[k])@ == l;
        assert(c[a.len() + k]@ == l);
    }
}

/// The (characters, components) views of parallel word and vector
/// columns.
pub open spec fn views_of(words: Seq<String>, vectors: Seq<Vec<u32>>) -> Seq<
    (Seq<char>, Seq<u32>),
> {
    Seq::new(words.len(), |i: int| (words[i]@, vectors[i]@))
}

/// Copy a vector of components.
fn copy_vector(v: &Vec<u32>) -> (r: Vec<u32>)
    ensures
        r@ == v@,
{
    let mut r: Vec<u32> = Vec::new();
    let mut i: usize = 0;
    proof {
        assert(r@ =~= v@.subrange(0, 0));
    }
    while i < v.len()
        invariant
            0 <= i <= v@.len(),
            r@ == v@.subrange(0, i as int),
        decreases v@.len() - i,
    {
        r.push(v[i]);
        proof {
            assert(r@ =~= v@.subrange(0, i + 1));
        }
        i = i + 1;
    }
    proof {
        assert(v@.subrange(0, v@.len() as int) =~= v@);
    }
    r
}

/// Copy a vector of components with every sign bit flipped.
fn negate_vector(v: &Vec<u32>) -> (r: Vec<u32>)
    ensures
        r@ == v@.map_values(|b: u32| negate_bits(b)),
{
    let mut r: Vec<u32> = Vec::new();
    let mut i: usize = 0;
    while i < v.len()
        invariant
            0 <= i <= v@.len(),
            r@.len() == i,
            forall|j: int| 0 <= j < i ==> r@[j] == negate_bits(v@[j]),
        decreases v@.len() - i,
    {
        r.push(compute_negate_bits(v[i]));
        i = i + 1;
    }
    proof {
        assert(r@ =~= v@.map_values(|b: u32| negate_bits(b)));
    }
    r
}

/// Append clones of all words of `ws`.
fn append_words(out: &mut Vec<String>, ws: &Vec<String>)
    ensures
        final(out)@ == old(out)@ + ws@,
{
    let mut i: usize = 0;
    proof {
        assert(out@ =~= old(out)@ + ws@.subrange(0, 0));
    }
    while i < ws.len()
        invariant
            0 <= i <= ws@.len(),
            out@ == old(out)@ + ws@.subrange(0, i as int),
        decreases ws@.len() - i,
    {
        out.push(ws[i].clone());
        proof {
            assert(out@ =~= old(out)@ + ws@.subrange(0, i + 1));
        }
        i = i + 1;
    }
    proof {
        assert(ws@.subrange(0, ws@.len() as int) =~= ws@);
    }
}

} // verus!
