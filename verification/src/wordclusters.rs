//! Word clusters: a plain-text mapping read from lines of
//! `<word> <cluster_id>`, grouping words by integer cluster id, with
//! reverse lookup of a word's cluster.

use vstd::prelude::*;

use crate::errors::Word2VecError;
use crate::parse::{
    copy_range, find_byte, find_byte_in, is_i32_token, i32_token_value, lemma_find_byte,
    lemma_skip_ws, lemma_token_end, parse_i32_token, skip_ws, skip_ws_in, token_end, token_end_in,
    utf8_to_string,
};
use crate::utils::{contains_word, word_in};

verus! {

/// Where the line that starts at `p` ends: at the next line feed or at
/// the end of the bytes.
pub open spec fn line_end(data: Seq<u8>, p: int) -> int {
    find_byte(data, p, 10)
}

/// Start of the following line: one past the line feed, or the end.
pub open spec fn next_line_start(data: Seq<u8>, p: int) -> int {
    if line_end(data, p) < data.len() {
        line_end(data, p) + 1
    } else {
        data.len() as int
    }
}

/// True when some cluster already carries `id`.
pub open spec fn has_id(m: Seq<(i32, Seq<Seq<char>>)>, id: i32) -> bool {
    exists|j: int| 0 <= j < m.len() && (#[trigger] m[j]).0 == id
}

/// The cluster carrying `id`.
pub open spec fn id_idx(m: Seq<(i32, Seq<Seq<char>>)>, id: i32) -> int {
    choose|j: int| 0 <= j < m.len() && (#[trigger] m[j]).0 == id
}

/// One line's effect on the clusters read so far: the word joins the
/// cluster of its id, which is created at the end when new — so clusters
/// keep the order in which their ids first appear, and each cluster's
/// words keep line order.
pub open spec fn add_word(m: Seq<(i32, Seq<Seq<char>>)>, id: i32, w: Seq<char>) -> Seq<
    (i32, Seq<Seq<char>>),
> {
    if has_id(m, id) {
        m.update(id_idx(m, id), (id, m[id_idx(m, id)].1.push(w)))
    } else {
        m.push((id, seq![w]))
    }
}

/// The first token of the line at `p` (the word) and the second (the
/// cluster id), as index pairs into the line's bytes.
pub open spec fn line_word_token(line: Seq<u8>) -> (int, int) {
    let ws = skip_ws(line, 0);
    (ws, token_end(line, ws))
}

pub open spec fn line_id_token(line: Seq<u8>) -> (int, int) {
    let cs = skip_ws(line, line_word_token(line).1);
    (cs, token_end(line, cs))
}

/// True when every line holds a word token and then a parseable `i32`
/// token. On a line without them the surrounding tool stops with a
/// panic, so loading requires this of its input.
pub open spec fn lines_wf(data: Seq<u8>, p: int) -> bool
    decreases data.len() - p,
    when 0 <= p
    via lines_wf_dec
{
    if p >= data.len() {
        true
    } else {
        let line = data.subrange(p, line_end(data, p));
        let wt = line_word_token(line);
        let it = line_id_token(line);
        &&& wt.0 < line.len()
        &&& it.0 < line.len()
        &&& is_i32_token(line.subrange(it.0, it.1))
        &&& lines_wf(data, next_line_start(data, p))
    }
}

#[via_fn]
proof fn lines_wf_dec(data: Seq<u8>, p: int) {
    if 0 <= p && p < data.len() {
        lemma_find_byte(data, p, 10);
    }
}

/// The clusters that the lines from `p` on add to `acc`: `None` when
/// some word is not valid UTF-8.
pub open spec fn clusters_from(
    data: Seq<u8>,
    p: int,
    acc: Seq<(i32, Seq<Seq<char>>)>,
) -> Option<Seq<(i32, Seq<Seq<char>>)>>
    decreases data.len() - p,
    when 0 <= p
    via clusters_from_dec
{
    if p >= data.len() {
        Some(acc)
    } else {
        let line = data.subrange(p, line_end(data, p));
        let wt = line_word_token(line);
        let it = line_id_token(line);
        let word_bytes = line.subrange(wt.0, wt.1);
        if !vstd::utf8::valid_utf8(word_bytes) {
            None
        } else {
            clusters_from(
                data,
                next_line_start(data, p),
                add_word(
                    acc,
                    i32_token_value(line.subrange(it.0, it.1)) as i32,
                    vstd::utf8::decode_utf8(word_bytes),
                ),
            )
        }
    }
}

#[via_fn]
proof fn clusters_from_dec(data: Seq<u8>, p: int, acc: Seq<(i32, Seq<Seq<char>>)>) {
    if 0 <= p && p < data.len() {
        lemma_find_byte(data, p, 10);
    }
}

/// True when the cluster `c` holds the word `w`.
pub open spec fn cluster_contains(c: (i32, Seq<Seq<char>>), w: Seq<char>) -> bool {
    exists|k: int| 0 <= k < c.1.len() && c.1[k] == w
}

/// Clusters of words keyed by integer cluster id, read once from a
/// cluster file.
pub struct WordClusters {
    ids: Vec<i32>,
    members: Vec<Vec<String>>,
}

impl View for WordClusters {
    type V = Seq<(i32, Seq<Seq<char>>)>;

    /// The clusters, in order of first appearance of their ids, each
    /// with its words in line order.
    closed spec fn view(&self) -> Seq<(i32, Seq<Seq<char>>)> {
        Seq::new(self.ids@.len(), |i: int| (self.ids@[i], self.members@[i].deep_view()))
    }
}

impl WordClusters {
    /// Well-formedness: ids and member lists pair up and no id repeats.
    #[verifier::type_invariant]
    pub closed spec fn wf(&self) -> bool {
        &&& self.ids@.len() == self.members@.len()
        &&& forall|i: int, j: int|
            0 <= i < j < self.ids@.len() ==> (#[trigger] self.ids@[i]) != (#[trigger] self.ids@[j])
    }

    /// Parse a cluster file, one `<word> <cluster_id>` line at a time,
    /// grouping words by id. Fails exactly when some word is not valid
    /// UTF-8; lines without a word and a parseable id are outside the
    /// requires: the surrounding tool stops with a panic on such a line.
    pub fn load_from_reader(data: &Vec<u8>) -> (r: Result<WordClusters, Word2VecError>)
        requires
            lines_wf(data@, 0),
        ensures
            match r {
                Ok(c) => clusters_from(data@, 0, Seq::empty()) == Some(c@),
                Err(e) => {
                    &&& e == Word2VecError::InvalidUtf8
                    &&& clusters_from(data@, 0, Seq::empty()) is None
                },
            },
    {
        let mut ids: Vec<i32> = Vec::new();
        let mut members: Vec<Vec<String>> = Vec::new();
        let mut p: usize = 0;
        proof {
            assert(cluster_views(ids@, members@) =~= Seq::<(i32, Seq<Seq<char>>)>::empty());
        }
        while p < data.len()
            invariant
                0 <= p <= data@.len(),
                lines_wf(data@, p as int),
                ids@.len() == members@.len(),
                forall|i: int, j: int|
                    0 <= i < j < ids@.len() ==> (#[trigger] ids@[i]) != (#[trigger] ids@[j]),
                clusters_from(data@, 0, Seq::empty()) == clusters_from(
                    data@,
                    p as int,
                    cluster_views(ids@, members@),
                ),
            decreases data@.len() - p,
        {
            let le = find_byte_in(data, p, 10);
            proof {
                lemma_find_byte(data@, p as int, 10);
            }
            let line = copy_range(data, p, le);
            let ws = skip_ws_in(&line, 0);
            let we = token_end_in(&line, ws);
            let cs = skip_ws_in(&line, we);
            let ce = token_end_in(&line, cs);
            proof {
                lemma_skip_ws(line@, 0);
                lemma_token_end(line@, ws as int);
                lemma_skip_ws(line@, we as int);
                lemma_token_end(line@, cs as int);
            }
            let word_bytes = copy_range(&line, ws, we);
            let word = match utf8_to_string(word_bytes) {
                Some(w) => w,
                None => {
                    return Err(Word2VecError::InvalidUtf8);
                },
            };
            let id = match parse_i32_token(&line, cs, ce) {
                Some(v) => v,
                None => {
                    proof {
                        assert(false);
                    }
                    vstd::pervasive::unreached()
                },
            };
            let ghost old_view = cluster_views(ids@, members@);
            let ghost word_g = word;
            let ghost w_chars = word@;
            let mut j: usize = 0;
            let mut found = false;
            while j < ids.len() && !found
                invariant
                    0 <= j <= ids@.len(),
                    found ==> j < ids@.len() && ids@[j as int] == id,
                    !found ==> forall|q: int| 0 <= q < j ==> (#[trigger] ids@[q]) != id,
                decreases ids@.len() - j + (if found {
                    0int
                } else {
                    1int
                }),
            {
                if ids[j] == id {
                    found = true;
                } else {
                    j = j + 1;
                }
            }
            if found {
                proof {
                    assert(old_view[j as int].0 == id);
                    assert(has_id(old_view, id));
                    let c = id_idx(old_view, id);
                    assert(old_view[c].0 == id);
                    assert(ids@[c] == id);
                    assert(c == j as int);
                }
                let ghost old_members = members@;
                let mut inner = members.remove(j);
                inner.push(word);
                let ghost inner_g = inner;
                members.insert(j, inner);
                proof {
                    old_members.remove_ensures(j as int);
                    old_members.remove(j as int).insert_ensures(j as int, inner_g);
                    assert(members@ == old_members.remove(j as int).insert(j as int, inner_g));
                    assert(members@.len() == ids@.len());
                    assert(inner_g@ == old_members[j as int]@.push(word_g));
                    assert(inner_g.deep_view() =~= old_members[j as int].deep_view().push(
                        w_chars,
                    ));
                    assert forall|k: int|
                        0 <= k < ids@.len() implies cluster_views(ids@, members@)[k] == add_word(
                        old_view,
                        id,
                        w_chars,
                    )[k] by {
                        if k < j {
                            assert(members@[k] == old_members[k]);
                        } else if k == j {
                            assert(members@[k] == inner_g);
                        } else {
                            assert(members@[k] == old_members.remove(j as int)[k - 1]);
                            assert(old_members.remove(j as int)[k - 1] == old_members[k]);
                        }
                    }
                    assert(cluster_views(ids@, members@) =~= add_word(old_view, id, w_chars));
                }
            } else {
                proof {
                    assert(!has_id(old_view, id)) by {
                        if has_id(old_view, id) {
                            let c = id_idx(old_view, id);
                            assert(ids@[c] == id);
                        }
                    }
                }
                let mut fresh: Vec<String> = Vec::new();
                fresh.push(word);
                let ghost fresh_g = fresh;
                let ghost old_ids = ids@;
                let ghost old_members = members@;
                ids.push(id);
                members.push(fresh);
                proof {
                    assert(fresh_g@ == seq![word_g]);
                    assert(fresh_g.deep_view() =~= seq![w_chars]);
                    assert forall|k: int|
                        0 <= k < ids@.len() implies cluster_views(ids@, members@)[k] == add_word(
                        old_view,
                        id,
                        w_chars,
                    )[k] by {
                        if k < old_ids.len() {
                            assert(ids@[k] == old_ids[k]);
                            assert(members@[k] == old_members[k]);
                        } else {
                            assert(ids@[k] == id);
                            assert(members@[k] == fresh_g);
                        }
                    }
                    assert(cluster_views(ids@, members@) =~= add_word(old_view, id, w_chars));
                }
            }
            let next = if le < data.len() {
                le + 1
            } else {
                le
            };
            proof {
                assert(line@ == data@.subrange(p as int, line_end(data@, p as int)));
                assert(next as int == next_line_start(data@, p as int));
                assert(clusters_from(data@, p as int, old_view) == clusters_from(
                    data@,
                    next as int,
                    add_word(old_view, id, w_chars),
                ));
            }
            p = next;
        }
        let r = WordClusters { ids, members };
        proof {
            assert(r@ == cluster_views(r.ids@, r.members@));
            assert(clusters_from(data@, data@.len() as int, r@) == Some(r@));
        }
        Ok(r)
    }

    /// The words of the cluster carrying `index`, or `None` when no line
    /// mentioned that id.
    pub fn get_words_on_cluster(&self, index: i32) -> (r: Option<&Vec<String>>)
        ensures
            r is Some <==> has_id(self@, index),
            r matches Some(v) ==> v.deep_view() == self@[id_idx(self@, index)].1,
    {
        proof {
            use_type_invariant(self);
        }
        let mut j: usize = 0;
        while j < self.ids.len()
            invariant
                0 <= j <= self.ids@.len(),
                self@.len() == self.ids@.len(),
                self.ids@.len() == self.members@.len(),
                forall|q: int| 0 <= q < self@.len() ==> (#[trigger] self@[q]).0 == self.ids@[q],
                forall|q: int|
                    0 <= q < self@.len() ==> (#[trigger] self@[q]).1 == self.members@[q].deep_view(),
                forall|q: int| 0 <= q < j ==> (#[trigger] self.ids@[q]) != index,
                forall|a: int, b: int|
                    0 <= a < b < self.ids@.len() ==> (#[trigger] self.ids@[a]) != (
                    #[trigger] self.ids@[b]),
            decreases self.ids@.len() - j,
        {
            if self.ids[j] == index {
                let v = &self.members[j];
                proof {
                    use_type_invariant(self);
                    assert(self@[j as int].0 == index);
                    let c = id_idx(self@, index);
                    assert(self@[c].0 == index);
                    assert(c == j as int);
                }
                return Some(v);
            }
            j = j + 1;
        }
        proof {
            if has_id(self@, index) {
                let c = id_idx(self@, index);
                assert(self.ids@[c] == index);
            }
        }
        None
    }

    /// The id of the first cluster, in id order of first appearance,
    /// that holds `word`; `None` when no cluster does.
    pub fn get_cluster(&self, word: &str) -> (r: Option<&i32>)
        ensures
            match r {
                Some(id) => exists|j: int|
                    0 <= j < self@.len() && (#[trigger] self@[j]).0 == *id && cluster_contains(
                        self@[j],
                        word@,
                    ) && forall|q: int| 0 <= q < j ==> !cluster_contains(self@[q], word@),
                None => forall|j: int|
                    0 <= j < self@.len() ==> !cluster_contains(#[trigger] self@[j], word@),
            },
    {
        proof {
            use_type_invariant(self);
        }
        let w = word.to_owned();
        let mut j: usize = 0;
        while j < self.ids.len()
            invariant
                0 <= j <= self.ids@.len(),
                w@ == word@,
                self@.len() == self.ids@.len(),
                self.ids@.len() == self.members@.len(),
                forall|q: int|
                    0 <= q < self@.len() ==> (#[trigger] self@[q]) == (
                    self.ids@[q],
                    self.members@[q].deep_view(),
                ),
                forall|q: int| 0 <= q < j ==> !cluster_contains(#[trigger] self@[q], word@),
            decreases self.ids@.len() - j,
        {
            if contains_word(&self.members[j], &w) {
                proof {
                    assert(word_in(self.members@[j as int]@, word@));
                    let k = choose|k: int|
                        0 <= k < self.members@[j as int]@.len() && (#[trigger] self.members@[j
                            as int]@[k])@ == word@;
                    assert(self.members@[j as int].deep_view()[k] == word@);
                    assert(cluster_contains(self@[j as int], word@));
                }
                return Some(&self.ids[j]);
            }
            proof {
                assert(!cluster_contains(self@[j as int], word@)) by {
                    if cluster_contains(self@[j as int], word@) {
                        let k = choose|k: int|
                            0 <= k < self@[j as int].1.len() && self@[j as int].1[k] == word@;
                        assert(self.members@[j as int]@[k]@ == word@);
                        assert(word_in(self.members@[j as int]@, word@));
                    }
                }
            }
            j = j + 1;
        }
        None
    }
}

/// The id/member views of parallel columns.
pub open spec fn cluster_views(ids: Seq<i32>, members: Seq<Vec<String>>) -> Seq<
    (i32, Seq<Seq<char>>),
> {
    Seq::new(ids.len(), |i: int| (ids[i], members[i].deep_view()))
}

} // verus!
