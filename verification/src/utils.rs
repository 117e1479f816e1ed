//! Ranking primitives of the similarity engine: a total order on scores,
//! exclusion filtering, stable descending sorting, and top-k selection.
//!
//! A score is the bit pattern of an IEEE-754 single-precision value
//! (typically a dot product of unit vectors, computed by the caller).

use vstd::prelude::*;

verus! {

broadcast use vstd::seq_lib::group_to_multiset_ensures;

/// Order-preserving key for an IEEE-754 single-precision bit pattern:
/// ascending key order is the total order of the encoded values —
/// negative NaN patterns first, then minus infinity up through the
/// negative numbers, the zeroes, the positive numbers, plus infinity,
/// and positive NaN patterns last. On patterns of ordinary numbers it
/// coincides with numeric order; NaN patterns, which plain comparison
/// leaves incomparable, take fixed places instead, so that ranking by
/// key is always well defined.
pub open spec fn score_key(bits: u32) -> u32 {
    if bits >= 0x8000_0000 {
        (0xffff_ffff - bits) as u32
    } else {
        (bits + 0x8000_0000) as u32
    }
}

/// Exec mirror of [`score_key`].
pub fn compute_score_key(bits: u32) -> (r: u32)
    ensures
        r == score_key(bits),
{
    if bits >= 0x8000_0000 {
        0xffff_ffff - bits
    } else {
        bits + 0x8000_0000
    }
}

/// Flip the sign bit of an IEEE-754 single-precision bit pattern: the
/// pattern of the negated value.
pub open spec fn negate_bits(bits: u32) -> u32 {
    if bits >= 0x8000_0000 {
        (bits - 0x8000_0000) as u32
    } else {
        (bits + 0x8000_0000) as u32
    }
}

/// Exec mirror of [`negate_bits`].
pub fn compute_negate_bits(bits: u32) -> (r: u32)
    ensures
        r == negate_bits(bits),
{
    if bits >= 0x8000_0000 {
        bits - 0x8000_0000
    } else {
        bits + 0x8000_0000
    }
}

/// Scored labels in descending score order under [`score_key`].
pub open spec fn sorted_desc(s: Seq<(String, u32)>) -> bool {
    forall|i: int, j: int|
        0 <= i < j < s.len() ==> score_key(#[trigger] s[i].1) >= score_key(#[trigger] s[j].1)
}

/// True when some string of `ws` has the character content `w`.
pub open spec fn word_in(ws: Seq<String>, w: Seq<char>) -> bool {
    exists|i: int| 0 <= i < ws.len() && #[trigger] ws[i]@ == w
}

/// Linear scan for a string with the content of `w`.
pub fn contains_word(ws: &Vec<String>, w: &String) -> (r: bool)
    ensures
        r == word_in(ws@, w@),
{
    let mut i: usize = 0;
    while i < ws.len()
        invariant
            0 <= i <= ws@.len(),
            forall|j: int| 0 <= j < i ==> #[trigger] ws@[j]@ != w@,
        decreases ws@.len() - i,
    {
        if ws[i].eq(w) {
            return true;
        }
        i = i + 1;
    }
    false
}

/// True when some pair of `list` carries a label with the content `w`.
pub open spec fn label_in(list: Seq<(String, u32)>, w: Seq<char>) -> bool {
    exists|i: int| 0 <= i < list.len() && (#[trigger] list[i]).0@ == w
}

/// The scored pairs whose label is not excluded, in their given order.
pub open spec fn kept(scored: Seq<(String, u32)>, exclude: Seq<String>) -> Seq<(String, u32)> {
    scored.filter(|p: (String, u32)| !word_in(exclude, p.0@))
}

/// Drop every pair whose label occurs in `exclude`.
fn retain_not_excluded(scored: Vec<(String, u32)>, exclude: &Vec<String>) -> (r: Vec<
    (String, u32),
>)
    ensures
        r@ == kept(scored@, exclude@),
{
    let mut r: Vec<(String, u32)> = Vec::new();
    let mut i: usize = 0;
    proof {
        reveal(Seq::filter);
        assert(r@ =~= kept(scored@.subrange(0, 0), exclude@));
    }
    while i < scored.len()
        invariant
            0 <= i <= scored@.len(),
            r@ == kept(scored@.subrange(0, i as int), exclude@),
        decreases scored@.len() - i,
    {
        let keep = !contains_word(exclude, &scored[i].0);
        proof {
            reveal(Seq::filter);
            let prev = scored@.subrange(0, i as int);
            let cur = scored@.subrange(0, i + 1);
            assert(cur.drop_last() =~= prev);
            assert(cur.last() == scored@[i as int]);
        }
        if keep {
            let item = (scored[i].0.clone(), scored[i].1);
            proof {
                assert(item == scored@[i as int]);
            }
            r.push(item);
        }
        i = i + 1;
    }
    proof {
        assert(scored@.subrange(0, scored@.len() as int) =~= scored@);
    }
    r
}

/// A pair whose label is not excluded survives the filter.
pub proof fn lemma_kept_contains(scored: Seq<(String, u32)>, exclude: Seq<String>, i: int)
    requires
        0 <= i < scored.len(),
        !word_in(exclude, scored[i].0@),
    ensures
        kept(scored, exclude).contains(scored[i]),
{
    scored.lemma_filter_contains(|p: (String, u32)| !word_in(exclude, p.0@), i);
}

/// Whatever the filter keeps was already present.
pub proof fn lemma_kept_subset(scored: Seq<(String, u32)>, exclude: Seq<String>)
    ensures
        forall|x: (String, u32)|
            #[trigger] kept(scored, exclude).contains(x) ==> scored.contains(x),
    decreases scored.len(),
{
    reveal(Seq::filter);
    if scored.len() > 0 {
        let prev_s = scored.drop_last();
        lemma_kept_subset(prev_s, exclude);
        let k = kept(scored, exclude);
        let prev = kept(prev_s, exclude);
        assert forall|x: (String, u32)| k.contains(x) implies scored.contains(x) by {
            let m = choose|m: int| 0 <= m < k.len() && k[m] == x;
            if !word_in(exclude, scored.last().0@) {
                assert(k == prev.push(scored.last()));
                if m < prev.len() {
                    assert(prev[m] == x);
                    assert(prev.contains(x));
                } else {
                    assert(x == scored.last());
                }
            } else {
                assert(k == prev);
                assert(prev.contains(x));
            }
            if prev.contains(x) {
                assert(kept(prev_s, exclude).contains(x));
                assert(prev_s.contains(x));
                let j = choose|j: int| 0 <= j < prev_s.len() && prev_s[j] == x;
                assert(prev_s[j] == scored[j]);
                assert(scored[j] == x);
            } else {
                assert(x == scored.last());
                assert(scored[scored.len() - 1] == x);
            }
        }
    }
}

/// Sort scored pairs by descending score. Insertion keeps pairs with
/// equal keys in their first-seen order, so ties are broken by input
/// position: the deterministic stable order the ranking step promises.
fn sort_desc(v: Vec<(String, u32)>) -> (r: Vec<(String, u32)>)
    ensures
        r@.to_multiset() == v@.to_multiset(),
        sorted_desc(r@),
        r@.len() == v@.len(),
{
    let mut out: Vec<(String, u32)> = Vec::new();
    let mut i: usize = 0;
    proof {
        assert(out@.to_multiset() =~= v@.subrange(0, 0).to_multiset());
    }
    while i < v.len()
        invariant
            0 <= i <= v@.len(),
            out@.to_multiset() == v@.subrange(0, i as int).to_multiset(),
            out@.len() == i,
            sorted_desc(out@),
        decreases v@.len() - i,
    {
        let item = (v[i].0.clone(), v[i].1);
        proof {
            assert(item == v@[i as int]);
        }
        let key = compute_score_key(item.1);
        let mut p: usize = 0;
        while p < out.len() && compute_score_key(out[p].1) >= key
            invariant
                0 <= p <= out@.len(),
                key == score_key(item.1),
                forall|q: int| 0 <= q < p ==> score_key(#[trigger] out@[q].1) >= score_key(item.1),
            decreases out@.len() - p,
        {
            p = p + 1;
        }
        let ghost old_out = out@;
        out.insert(p, item);
        proof {
            let prev = v@.subrange(0, i as int);
            let cur = v@.subrange(0, i + 1);
            assert(cur.drop_last() =~= prev);
            assert(cur.last() == v@[i as int]);
            assert(out@ == old_out.insert(p as int, item));
            assert(out@.to_multiset() == old_out.to_multiset().insert(item));
            assert(cur.to_multiset() == prev.to_multiset().insert(item)) by {
                assert(cur == prev.push(item));
            }
            old_out.insert_ensures(p as int, item);
            assert forall|a: int, b: int| 0 <= a < b < out@.len() implies score_key(
                #[trigger] out@[a].1,
            ) >= score_key(#[trigger] out@[b].1) by {
                if b < p {
                    assert(out@[a] == old_out[a] && out@[b] == old_out[b]);
                } else if a > p {
                    assert(out@[a] == old_out[a - 1] && out@[b] == old_out[b - 1]);
                } else if a == p {
                    assert(out@[b] == old_out[b - 1]);
                    assert(score_key(old_out[p as int].1) < score_key(item.1));
                } else if b == p {
                    assert(out@[a] == old_out[a]);
                } else {
                    assert(a < p && b > p);
                    assert(out@[a] == old_out[a] && out@[b] == old_out[b - 1]);
                    if p < old_out.len() {
                        assert(score_key(old_out[p as int].1) < score_key(item.1));
                    }
                }
            }
        }
        i = i + 1;
    }
    proof {
        assert(v@.subrange(0, v@.len() as int) =~= v@);
    }
    out
}

/// Copy of the first `k` entries (all of them when fewer).
fn take_prefix(v: Vec<(String, u32)>, k: usize) -> (r: Vec<(String, u32)>)
    ensures
        r@ == v@.subrange(0, if k as int <= v@.len() { k as int } else { v@.len() as int }),
{
    let n = if k <= v.len() {
        k
    } else {
        v.len()
    };
    let mut r: Vec<(String, u32)> = Vec::new();
    let mut i: usize = 0;
    proof {
        assert(r@ =~= v@.subrange(0, 0));
    }
    while i < n
        invariant
            0 <= i <= n <= v@.len(),
            r@ == v@.subrange(0, i as int),
        decreases n - i,
    {
        let item = (v[i].0.clone(), v[i].1);
        proof {
            assert(item == v@[i as int]);
        }
        r.push(item);
        proof {
            assert(r@ =~= v@.subrange(0, i + 1));
        }
        i = i + 1;
    }
    r
}

/// Rank scored labels: drop every pair whose label occurs in `exclude`,
/// sort the rest by descending score — ties in first-seen order — and
/// return the first `k`.
///
/// The result is exactly a `k`-prefix of some descending reordering of
/// the kept pairs; each returned pair was present in `scored`, and no
/// returned label is excluded.
pub fn top_k(scored: Vec<(String, u32)>, k: usize, exclude: &Vec<String>) -> (r: Vec<
    (String, u32),
>)
    ensures
        sorted_desc(r@),
        r@.len() == (if k as int <= kept(scored@, exclude@).len() {
            k as int
        } else {
            kept(scored@, exclude@).len() as int
        }),
        forall|i: int| 0 <= i < r@.len() ==> !word_in(exclude@, #[trigger] r@[i].0@),
        forall|i: int| 0 <= i < r@.len() ==> scored@.contains(#[trigger] r@[i]),
        forall|x: (String, u32)|
            #![trigger scored@.contains(x)]
            scored@.contains(x) && !word_in(exclude@, x.0@) && !label_in(r@, x.0@) && r@.len() > 0
                ==> score_key(x.1) <= score_key(r@[r@.len() - 1].1),
        exists|s: Seq<(String, u32)>|
            s.to_multiset() == kept(scored@, exclude@).to_multiset() && sorted_desc(s) && r@
                == s.subrange(0, r@.len() as int),
{
    let ghost scored0 = scored@;
    let filtered = retain_not_excluded(scored, exclude);
    let ghost kept_seq = filtered@;
    let sorted = sort_desc(filtered);
    let ghost sorted_seq = sorted@;
    let r = take_prefix(sorted, k);
    proof {
        broadcast use vstd::seq_lib::group_filter_ensures;

        lemma_kept_subset(scored0, exclude@);
        assert forall|i: int| 0 <= i < r@.len() implies !word_in(exclude@, r@[i].0@)
            && scored0.contains(#[trigger] r@[i]) by {
            assert(r@[i] == sorted_seq[i]);
            assert(sorted_seq.contains(r@[i]));
            assert(sorted_seq.to_multiset().count(r@[i]) > 0);
            assert(kept_seq.to_multiset().count(r@[i]) > 0);
            assert(kept_seq.contains(r@[i]));
            assert(kept(scored0, exclude@).contains(r@[i]));
        }
        assert(r@.len() <= sorted_seq.len());
        assert forall|x: (String, u32)|
            #![trigger scored0.contains(x)]
            scored0.contains(x) && !word_in(exclude@, x.0@) && !label_in(r@, x.0@) && r@.len()
                > 0 implies score_key(x.1) <= score_key(r@[r@.len() - 1].1) by {
            let i = choose|i: int| 0 <= i < scored0.len() && scored0[i] == x;
            lemma_kept_contains(scored0, exclude@, i);
            assert(kept_seq.to_multiset().count(x) > 0);
            assert(sorted_seq.to_multiset().count(x) > 0);
            assert(sorted_seq.contains(x));
            let j = choose|j: int| 0 <= j < sorted_seq.len() && sorted_seq[j] == x;
            if j < r@.len() {
                assert(r@[j] == sorted_seq[j]);
                assert((#[trigger] r@[j]).0@ == x.0@);
                assert(false);
            } else {
                assert(r@[r@.len() - 1] == sorted_seq[r@.len() - 1]);
                assert(score_key(sorted_seq[j].1) <= score_key(sorted_seq[r@.len() - 1].1));
            }
        }
        assert(sorted_seq.to_multiset() == kept(scored0, exclude@).to_multiset() && sorted_desc(
            sorted_seq,
        ) && r@ == sorted_seq.subrange(0, r@.len() as int));
    }
    r
}

} // verus!
