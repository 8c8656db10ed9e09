//! Supporting lemmas about the word index, registration, and the matcher:
//! what registration does to lookups, that it preserves the index invariant,
//! and that an accepted match always has an alignment point.

use vstd::prelude::*;

verus! {

use crate::model::{
    FiltersModel, id_le_fn, slot_has_word, template_has_word, word_slot_from, first_slot_from,
    key_pos, key_pos_from, index_lookup, entry_add, index_register, register_upto,
    register_all_upto, ids_from, sorted_ids, candidates_loop, candidates, score_loop, score,
    best_loop, find_best, first_match_loop, first_match, singleton_slots, update_filter_state,
    add_filter_state, index_wf, keys_unique, entries_strict, ids_below, index_consistent,
    lemma_key_pos_from_range, lemma_ids_from_bound, lemma_first_slot_from_range,
};

// ---------------------------------------------------------------------------
// Key positions
// ---------------------------------------------------------------------------
/// With distinct keys, the search for entry `i`'s own key, started anywhere
/// at or before `i`, lands on `i`.
pub proof fn lemma_key_pos_hits(idx: Seq<(Seq<char>, Seq<u32>)>, i: int, j: int)
    requires
        keys_unique(idx),
        0 <= j <= i < idx.len(),
    ensures
        key_pos_from(idx, idx[i].0, j) == i,
    decreases i - j,
{
    if idx[j].0 == idx[i].0 {
        assert(j == i);
    } else {
        lemma_key_pos_hits(idx, i, j + 1);
    }
}

/// With distinct keys, the lookup of an entry's key returns that entry.
pub proof fn lemma_lookup_of_entry(idx: Seq<(Seq<char>, Seq<u32>)>, i: int)
    requires
        keys_unique(idx),
        0 <= i < idx.len(),
    ensures
        key_pos(idx, idx[i].0) == i,
        index_lookup(idx, idx[i].0) == idx[i].1,
{
    lemma_key_pos_hits(idx, i, 0);
}

/// Key positions depend only on the keys.
pub proof fn lemma_key_pos_same_keys(
    a: Seq<(Seq<char>, Seq<u32>)>,
    b: Seq<(Seq<char>, Seq<u32>)>,
    w: Seq<char>,
    i: int,
)
    requires
        a.len() == b.len(),
        forall|k: int| 0 <= k < a.len() ==> (#[trigger] a[k].0) == b[k].0,
        0 <= i,
    ensures
        key_pos_from(a, w, i) == key_pos_from(b, w, i),
    decreases a.len() - i,
{
    if i < a.len() {
        lemma_key_pos_same_keys(a, b, w, i + 1);
    }
}

// ---------------------------------------------------------------------------
// Registration
// ---------------------------------------------------------------------------
/// What adding an id does to an id list: the id is present afterwards,
/// nothing else appears or disappears, and a strictly ascending list stays
/// strictly ascending.
pub proof fn lemma_entry_add(e: Seq<u32>, id: u32)
    ensures
        entry_add(e, id).contains(id),
        forall|x: u32| entry_add(e, id).contains(x) <==> (e.contains(x) || x == id),
        (forall|a: int, b: int| 0 <= a < b < e.len() ==> e[a] < e[b]) ==> (forall|a: int, b: int|
            0 <= a < b < entry_add(e, id).len() ==> entry_add(e, id)[a] < entry_add(e, id)[b]),
{
    broadcast use vstd::seq_lib::group_to_multiset_ensures;

    if e.contains(id) {
    } else {
        let s = e.push(id);
        let t = s.sort_by(id_le_fn());
        s.lemma_sort_by_ensures(id_le_fn());
        assert(s.to_multiset() == t.to_multiset());
        assert(s[s.len() - 1] == id);
        assert(s.contains(id));
        assert forall|x: u32| t.contains(x) <==> (e.contains(x) || x == id) by {
            assert(t.contains(x) <==> t.to_multiset().count(x) > 0);
            assert(s.contains(x) <==> s.to_multiset().count(x) > 0);
            assert(s.contains(x) <==> (e.contains(x) || x == id)) by {
                if s.contains(x) {
                    let k = choose|k: int| 0 <= k < s.len() && s[k] == x;
                    if k < e.len() {
                        assert(e[k] == x);
                    }
                }
                if e.contains(x) {
                    let k = choose|k: int| 0 <= k < e.len() && e[k] == x;
                    assert(s[k] == x);
                }
            }
        }
        assert(t.contains(id));
        if forall|a: int, b: int| 0 <= a < b < e.len() ==> e[a] < e[b] {
            assert(e.no_duplicates());
            assert(s.no_duplicates()) by {
                assert forall|a: int, b: int|
                    0 <= a < s.len() && 0 <= b < s.len() && a != b implies s[a] != s[b] by {
                    if a < e.len() && b < e.len() {
                    } else if a < e.len() {
                        assert(s[b] == id && !e.contains(id));
                        assert(e[a] == s[a]);
                    } else {
                        assert(s[a] == id && !e.contains(id));
                        assert(e[b] == s[b]);
                    }
                }
            }
            s.lemma_multiset_has_no_duplicates();
            t.lemma_multiset_has_no_duplicates_conv();
            assert(t.no_duplicates());
            assert forall|a: int, b: int| 0 <= a < b < t.len() implies t[a] < t[b] by {
                assert(id_le_fn()(t[a], t[b]));
                assert(t[a] != t[b]);
            }
        }
    }
}

/// What one registration does: the changed index pointwise, the new lookup
/// for the registered word, and untouched lookups for every other word.
pub proof fn lemma_register(idx: Seq<(Seq<char>, Seq<u32>)>, w: Seq<char>, id: u32)
    ensures
        index_lookup(index_register(idx, w, id), w).contains(id),
        forall|x: u32|
            index_lookup(index_register(idx, w, id), w).contains(x) <==> (index_lookup(
                idx,
                w,
            ).contains(x) || x == id),
        forall|w2: Seq<char>|
            w2 != w ==> index_lookup(index_register(idx, w, id), w2) == index_lookup(idx, w2),
        index_register(idx, w, id).len() >= idx.len(),
        forall|i: int|
            0 <= i < idx.len() ==> (#[trigger] index_register(idx, w, id)[i].0) == idx[i].0,
{
    let r = index_register(idx, w, id);
    let p = key_pos(idx, w);
    lemma_key_pos_from_range(idx, w, 0);
    lemma_entry_add(if p < 0 {
        Seq::<u32>::empty()
    } else {
        idx[p].1
    }, id);
    if p < 0 {
        assert(r == idx.push((w, seq![id])));
        assert(r[idx.len() as int].0 == w);
        assert forall|w2: Seq<char>| w2 != w implies index_lookup(r, w2) == index_lookup(
            idx,
            w2,
        ) by {
            lemma_key_pos_push(idx, (w, seq![id]), w2, 0);
            lemma_key_pos_from_range(idx, w2, 0);
        }
        lemma_key_pos_push(idx, (w, seq![id]), w, 0);
        assert(key_pos(r, w) == idx.len());
        assert(index_lookup(r, w) == seq![id]);
        assert(seq![id].contains(id)) by {
            assert(seq![id][0] == id);
        }
        assert(index_lookup(idx, w) == Seq::<u32>::empty());
        assert forall|x: u32| index_lookup(r, w).contains(x) implies (index_lookup(
            idx,
            w,
        ).contains(x) || x == id) by {
            let k = choose|k: int| 0 <= k < seq![id].len() && seq![id][k] == x;
            assert(x == id);
        }
    } else {
        assert(r == idx.update(p, (idx[p].0, entry_add(idx[p].1, id))));
        assert forall|k: int| 0 <= k < idx.len() implies (#[trigger] r[k].0) == idx[k].0 by {}
        lemma_key_pos_same_keys(idx, r, w, 0);
        assert(key_pos(r, w) == p);
        assert(index_lookup(r, w) == entry_add(idx[p].1, id));
        assert(index_lookup(idx, w) == idx[p].1);
        assert forall|w2: Seq<char>| w2 != w implies index_lookup(r, w2) == index_lookup(
            idx,
            w2,
        ) by {
            lemma_key_pos_same_keys(idx, r, w2, 0);
            let q = key_pos(idx, w2);
            lemma_key_pos_from_range(idx, w2, 0);
            if q >= 0 {
                assert(idx[q].0 == w2);
                assert(idx[p].0 == w);
                assert(q != p);
                assert(r[q] == idx[q]);
            }
        }
    }
}

/// The position search after a push: an existing hit is kept; otherwise the
/// pushed entry is found exactly when its key matches.
pub proof fn lemma_key_pos_push(
    idx: Seq<(Seq<char>, Seq<u32>)>,
    pair: (Seq<char>, Seq<u32>),
    w: Seq<char>,
    i: int,
)
    requires
        0 <= i <= idx.len(),
    ensures
        key_pos_from(idx.push(pair), w, i) == (if key_pos_from(idx, w, i) >= 0 {
            key_pos_from(idx, w, i)
        } else if pair.0 == w {
            idx.len() as int
        } else {
            -1
        }),
    decreases idx.len() - i,
{
    if i < idx.len() {
        assert(idx.push(pair)[i] == idx[i]);
        lemma_key_pos_push(idx, pair, w, i + 1);
    } else {
        assert(idx.push(pair)[i] == pair);
        if pair.0 != w {
            assert(key_pos_from(idx.push(pair), w, i + 1) == -1);
        }
    }
}

/// One registration preserves the index invariant, provided the id points
/// into the store.
pub proof fn lemma_register_wf(idx: Seq<(Seq<char>, Seq<u32>)>, w: Seq<char>, id: u32, n: int)
    requires
        index_wf(idx, n),
        (id as int) < n,
    ensures
        index_wf(index_register(idx, w, id), n),
{
    let r = index_register(idx, w, id);
    let p = key_pos(idx, w);
    lemma_key_pos_from_range(idx, w, 0);
    if p < 0 {
        assert(r == idx.push((w, seq![id])));
        assert(keys_unique(r)) by {
            assert forall|i: int, j: int|
                0 <= i < j < r.len() implies (#[trigger] r[i].0) != (#[trigger] r[j].0) by {
                if j == idx.len() {
                    assert(r[j].0 == w);
                    assert(r[i].0 == idx[i].0);
                }
            }
        }
        assert(entries_strict(r)) by {
            assert(r[idx.len() as int].1 == seq![id]);
        }
        assert(ids_below(r, n)) by {
            assert forall|i: int, a: int|
                0 <= i < r.len() && 0 <= a < r[i].1.len() implies (#[trigger] r[i].1[a] as int)
                < n by {
                if i == idx.len() {
                    assert(r[i].1 == seq![id]);
                    assert(r[i].1[a] == id);
                }
            }
        }
    } else {
        let e = idx[p].1;
        let e2 = entry_add(e, id);
        lemma_entry_add(e, id);
        assert(r == idx.update(p, (idx[p].0, e2)));
        assert(keys_unique(r));
        assert(entries_strict(r)) by {
            assert(forall|a: int, b: int| 0 <= a < b < e.len() ==> e[a] < e[b]);
            assert(forall|a: int, b: int| 0 <= a < b < e2.len() ==> e2[a] < e2[b]);
        }
        assert(ids_below(r, n)) by {
            assert forall|i: int, a: int|
                0 <= i < r.len() && 0 <= a < r[i].1.len() implies (#[trigger] r[i].1[a] as int)
                < n by {
                if i == p {
                    let x = r[i].1[a];
                    assert(e2.contains(x));
                    assert(e.contains(x) || x == id);
                    if e.contains(x) {
                        let k = choose|k: int| 0 <= k < e.len() && e[k] == x;
                        assert(idx[p].1[k] == x);
                    }
                }
            }
        }
    }
}

/// Registering a run of words with one id: the invariant is preserved, each
/// registered word afterwards lists the id, no lookup loses anything, and
/// nothing appears beyond the registered pairs.
pub proof fn lemma_register_all_upto(
    idx: Seq<(Seq<char>, Seq<u32>)>,
    words: Seq<Seq<char>>,
    k: int,
    id: u32,
    n: int,
)
    requires
        index_wf(idx, n),
        (id as int) < n,
        k <= words.len(),
    ensures
        index_wf(register_all_upto(idx, words, k, id), n),
        forall|j: int|
            0 <= j < k ==> index_lookup(
                register_all_upto(idx, words, k, id),
                #[trigger] words[j],
            ).contains(id),
        forall|w: Seq<char>, x: u32|
            index_lookup(idx, w).contains(x) ==> index_lookup(
                register_all_upto(idx, words, k, id),
                w,
            ).contains(x),
        forall|w: Seq<char>, x: u32|
            index_lookup(register_all_upto(idx, words, k, id), w).contains(x) ==> (index_lookup(
                idx,
                w,
            ).contains(x) || (x == id && exists|j: int| 0 <= j < k && #[trigger] words[j] == w)),
    decreases k,
{
    if k <= 0 {
    } else {
        let prev = register_all_upto(idx, words, k - 1, id);
        let cur = register_all_upto(idx, words, k, id);
        lemma_register_all_upto(idx, words, k - 1, id, n);
        lemma_register(prev, words[k - 1], id);
        lemma_register_wf(prev, words[k - 1], id, n);
        assert(cur == index_register(prev, words[k - 1], id));
        assert forall|j: int| 0 <= j < k implies index_lookup(
            cur,
            #[trigger] words[j],
        ).contains(id) by {
            if words[j] == words[k - 1] {
            } else {
                assert(index_lookup(prev, words[j]).contains(id));
            }
        }
        assert forall|w: Seq<char>, x: u32|
            index_lookup(cur, w).contains(x) implies (index_lookup(idx, w).contains(x) || (x == id
            && exists|j: int| 0 <= j < k && #[trigger] words[j] == w)) by {
            if w == words[k - 1] {
                if index_lookup(prev, w).contains(x) || x == id {
                    if x == id {
                        assert(words[k - 1] == w);
                    } else {
                        assert(index_lookup(prev, w).contains(x));
                    }
                }
            } else {
                assert(index_lookup(cur, w) == index_lookup(prev, w));
            }
        }
    }
}

/// As `lemma_register_all_upto`, for the run that skips empty words.
pub proof fn lemma_register_upto(
    idx: Seq<(Seq<char>, Seq<u32>)>,
    words: Seq<Seq<char>>,
    k: int,
    id: u32,
    n: int,
)
    requires
        index_wf(idx, n),
        (id as int) < n,
        k <= words.len(),
    ensures
        index_wf(register_upto(idx, words, k, id), n),
        forall|j: int|
            0 <= j < k && (#[trigger] words[j]).len() > 0 ==> index_lookup(
                register_upto(idx, words, k, id),
                words[j],
            ).contains(id),
        forall|w: Seq<char>, x: u32|
            index_lookup(idx, w).contains(x) ==> index_lookup(
                register_upto(idx, words, k, id),
                w,
            ).contains(x),
        forall|w: Seq<char>, x: u32|
            index_lookup(register_upto(idx, words, k, id), w).contains(x) ==> (index_lookup(
                idx,
                w,
            ).contains(x) || (x == id && exists|j: int|
                0 <= j < k && #[trigger] words[j] == w && words[j].len() > 0)),
    decreases k,
{
    if k <= 0 {
    } else {
        let prev = register_upto(idx, words, k - 1, id);
        let cur = register_upto(idx, words, k, id);
        lemma_register_upto(idx, words, k - 1, id, n);
        if words[k - 1].len() > 0 {
            lemma_register(prev, words[k - 1], id);
            lemma_register_wf(prev, words[k - 1], id, n);
            assert(cur == index_register(prev, words[k - 1], id));
            assert forall|j: int|
                0 <= j < k && (#[trigger] words[j]).len() > 0 implies index_lookup(
                cur,
                words[j],
            ).contains(id) by {
                if words[j] == words[k - 1] {
                } else {
                    assert(index_lookup(prev, words[j]).contains(id));
                }
            }
            assert forall|w: Seq<char>, x: u32|
                index_lookup(cur, w).contains(x) implies (index_lookup(idx, w).contains(x) || (x
                == id && exists|j: int|
                0 <= j < k && #[trigger] words[j] == w && words[j].len() > 0)) by {
                if w == words[k - 1] {
                    if x != id {
                        assert(index_lookup(prev, w).contains(x));
                    }
                } else {
                    assert(index_lookup(cur, w) == index_lookup(prev, w));
                }
            }
        }
    }
}

// ---------------------------------------------------------------------------
// Matcher
// ---------------------------------------------------------------------------
/// A slot found from a later start is also found from an earlier one.
pub proof fn lemma_first_slot_monotone(f: Seq<Seq<Seq<char>>>, w: Seq<char>, s1: int, s2: int)
    requires
        0 <= s1 <= s2,
    ensures
        first_slot_from(f, w, s2) >= 0 ==> first_slot_from(f, w, s1) >= 0,
    decreases s2 - s1,
{
    if s1 < s2 {
        lemma_first_slot_monotone(f, w, s1 + 1, s2);
        lemma_first_slot_from_range(f, w, s1 + 1);
    }
}

/// If no input token from position `i` on occurs anywhere in the template,
/// the alignment walk scores zero.
pub proof fn lemma_no_match_score_zero(
    f: Seq<Seq<Seq<char>>>,
    wv: Seq<Seq<char>>,
    i: int,
    last: int,
    misses: nat,
    budget: nat,
)
    requires
        0 <= i,
        -1 <= last,
        first_match_loop(f, wv, i) == (-1int, -1int),
    ensures
        score_loop(f, wv, i, last, 0, misses, budget) == 0,
    decreases wv.len() - i,
{
    if i >= wv.len() {
    } else {
        let j0 = word_slot_from(f, wv[i], 0);
        assert(j0 < 0) by {
            if j0 >= 0 {
                assert(first_match_loop(f, wv, i) == (i, j0));
            }
        }
        let j = word_slot_from(f, wv[i], last + 1);
        assert(j < 0) by {
            if j >= 0 {
                assert(wv[i].len() > 0);
                lemma_first_slot_monotone(f, wv[i], 0, last + 1);
            }
        }
        if misses + 1 > budget {
        } else {
            lemma_no_match_score_zero(f, wv, i + 1, last, (misses + 1) as nat, budget);
        }
    }
}

/// A found alignment point lies in range, and its slot is the first slot of
/// the template holding that token.
pub proof fn lemma_first_match_loop_range(f: Seq<Seq<Seq<char>>>, wv: Seq<Seq<char>>, i: int)
    requires
        0 <= i,
    ensures
        first_match_loop(f, wv, i) == (-1int, -1int) || (i <= first_match_loop(f, wv, i).0
            < wv.len() && first_match_loop(f, wv, i).1 == word_slot_from(
            f,
            wv[first_match_loop(f, wv, i).0],
            0,
        ) && 0 <= first_match_loop(f, wv, i).1 < f.len()),
    decreases wv.len() - i,
{
    if i >= wv.len() {
    } else {
        let j = word_slot_from(f, wv[i], 0);
        lemma_first_slot_from_range(f, wv[i], 0);
        if j >= 0 {
        } else {
            lemma_first_match_loop_range(f, wv, i + 1);
        }
    }
}

/// The best-candidate walk keeps ids inside the store and reports the exact
/// score, at least 1, of the id it returns.
pub proof fn lemma_best_loop_props(
    m: FiltersModel,
    wv: Seq<Seq<char>>,
    cv: Seq<u32>,
    i: int,
    best: int,
    bs: nat,
)
    requires
        0 <= i,
        forall|k: int| 0 <= k < cv.len() ==> ((#[trigger] cv[k]) as int) < m.filters.len(),
        (best == -1 && bs == 0) || (0 <= best < m.filters.len() && bs == score(m, wv, best) && bs
            >= 1),
    ensures
        (best_loop(m, wv, cv, i, best, bs).0 == -1 && best_loop(m, wv, cv, i, best, bs).1 == 0) || (
        0 <= best_loop(m, wv, cv, i, best, bs).0 < m.filters.len() && best_loop(
            m,
            wv,
            cv,
            i,
            best,
            bs,
        ).1 == score(m, wv, best_loop(m, wv, cv, i, best, bs).0) && best_loop(
            m,
            wv,
            cv,
            i,
            best,
            bs,
        ).1 >= 1),
    decreases cv.len() - i,
{
    if i >= cv.len() {
    } else {
        let sc = score(m, wv, cv[i] as int);
        if sc > bs {
            lemma_best_loop_props(m, wv, cv, i + 1, cv[i] as int, sc);
        } else {
            lemma_best_loop_props(m, wv, cv, i + 1, best, bs);
        }
    }
}

/// The candidate walk only emits ids taken from its input list.
pub proof fn lemma_candidates_loop_bound(
    s: Seq<u32>,
    i: int,
    hits: nat,
    prev: int,
    last_ins: int,
    threshold: nat,
    acc: Seq<u32>,
    n: int,
)
    requires
        0 <= i,
        forall|k: int| 0 <= k < s.len() ==> ((#[trigger] s[k]) as int) < n,
        forall|k: int| 0 <= k < acc.len() ==> ((#[trigger] acc[k]) as int) < n,
    ensures
        forall|k: int|
            0 <= k < candidates_loop(s, i, hits, prev, last_ins, threshold, acc).len() ==> ((
            #[trigger] candidates_loop(s, i, hits, prev, last_ins, threshold, acc)[k]) as int) < n,
    decreases s.len() - i,
{
    if i >= s.len() {
    } else {
        let id = s[i] as int;
        if last_ins == id {
            lemma_candidates_loop_bound(s, i + 1, hits, prev, last_ins, threshold, acc, n);
            assert(candidates_loop(s, i, hits, prev, last_ins, threshold, acc) == candidates_loop(
                s,
                i + 1,
                hits,
                prev,
                last_ins,
                threshold,
                acc,
            ));
        } else {
            let h: nat = if prev != id {
                1
            } else {
                hits + 1
            };
            if h >= threshold {
                assert forall|k: int| 0 <= k < acc.push(s[i]).len() implies ((#[trigger] acc.push(
                    s[i],
                )[k]) as int) < n by {
                    if k < acc.len() {
                        assert(acc.push(s[i])[k] == acc[k]);
                    } else {
                        assert(acc.push(s[i])[k] == s[i]);
                    }
                }
                lemma_candidates_loop_bound(s, i + 1, 0, id, id, threshold, acc.push(s[i]), n);
                assert(candidates_loop(s, i, hits, prev, last_ins, threshold, acc)
                    == candidates_loop(s, i + 1, 0, id, id, threshold, acc.push(s[i])));
            } else {
                lemma_candidates_loop_bound(s, i + 1, h, id, last_ins, threshold, acc, n);
                assert(candidates_loop(s, i, hits, prev, last_ins, threshold, acc)
                    == candidates_loop(s, i + 1, h, id, last_ins, threshold, acc));
            }
        }
    }
}

/// Every id in the sorted shortlist source points into the store.
pub proof fn lemma_sorted_ids_bound(m: FiltersModel, wv: Seq<Seq<char>>)
    requires
        index_wf(m.index, m.filters.len() as int),
    ensures
        forall|k: int|
            0 <= k < sorted_ids(m, wv).len() ==> ((#[trigger] sorted_ids(m, wv)[k]) as int)
                < m.filters.len(),
{
    let base = ids_from(m.index, wv, 0);
    base.lemma_sort_by_ensures(id_le_fn());
    lemma_ids_from_bound(m.index, wv, 0, m.filters.len() as int);
    assert forall|k: int| 0 <= k < sorted_ids(m, wv).len() implies ((#[trigger] sorted_ids(
        m,
        wv,
    )[k]) as int) < m.filters.len() by {
        let x = sorted_ids(m, wv)[k];
        assert(sorted_ids(m, wv).contains(x));
        assert(base.contains(x));
        let a = choose|a: int| 0 <= a < base.len() && base[a] == x;
        assert((base[a] as int) < m.filters.len());
    }
}

/// Every candidate points into the store.
pub proof fn lemma_candidates_bound(m: FiltersModel, wv: Seq<Seq<char>>)
    requires
        index_wf(m.index, m.filters.len() as int),
    ensures
        forall|k: int|
            0 <= k < candidates(m, wv).len() ==> ((#[trigger] candidates(m, wv)[k]) as int)
                < m.filters.len(),
{
    lemma_sorted_ids_bound(m, wv);
    lemma_candidates_loop_bound(
        sorted_ids(m, wv),
        0,
        0,
        -1,
        -1,
        crate::model::required_hits(m, wv.len()),
        Seq::empty(),
        m.filters.len() as int,
    );
}

/// Every element a filter keeps comes from the original sequence.
pub proof fn lemma_filter_subset<A>(s: Seq<A>, p: spec_fn(A) -> bool)
    ensures
        forall|i: int| 0 <= i < s.filter(p).len() ==> s.contains(#[trigger] s.filter(p)[i]),
    decreases s.len(),
{
    reveal(Seq::filter);
    if s.len() > 0 {
        let d = s.drop_last();
        lemma_filter_subset(d, p);
        assert forall|i: int| 0 <= i < s.filter(p).len() implies s.contains(
            #[trigger] s.filter(p)[i],
        ) by {
            if p(s.last()) && i == s.filter(p).len() - 1 {
                assert(s.filter(p)[i] == s.last());
                assert(s[s.len() - 1] == s.last());
            } else {
                assert(s.filter(p)[i] == d.filter(p)[i]);
                assert(d.contains(d.filter(p)[i]));
                let k = choose|k: int| 0 <= k < d.len() && d[k] == d.filter(p)[i];
                assert(s[k] == d[k]);
            }
        }
    }
}

/// Registering a run of words that are all empty changes nothing.
pub proof fn lemma_register_upto_all_empty(
    idx: Seq<(Seq<char>, Seq<u32>)>,
    words: Seq<Seq<char>>,
    k: int,
    id: u32,
)
    requires
        forall|j: int| 0 <= j < k ==> (#[trigger] words[j]).len() == 0,
    ensures
        register_upto(idx, words, k, id) == idx,
    decreases k,
{
    if k <= 0 || k > words.len() {
    } else {
        lemma_register_upto_all_empty(idx, words, k - 1, id);
    }
}

/// Folding a line into a template preserves the index invariant and the
/// store/index consistency, keeps every other template unchanged, and only
/// grows the matched template.
pub proof fn lemma_update_state_wf(m: FiltersModel, wv: Seq<Seq<char>>, fi: int)
    requires
        index_wf(m.index, m.filters.len() as int),
        index_consistent(m),
        0 <= fi < m.filters.len(),
        m.filters.len() <= u32::MAX as int,
    ensures
        update_filter_state(m, wv, fi).filters.len() == m.filters.len(),
        forall|i: int|
            0 <= i < m.filters.len() && i != fi ==> (#[trigger] update_filter_state(
                m,
                wv,
                fi,
            ).filters[i]) == m.filters[i],
        update_filter_state(m, wv, fi).filters[fi].len() >= m.filters[fi].len(),
        update_filter_state(m, wv, fi).filters[fi].len() <= m.filters[fi].len() + wv.len(),
        index_wf(update_filter_state(m, wv, fi).index, m.filters.len() as int),
        index_consistent(update_filter_state(m, wv, fi)),
        update_filter_state(m, wv, fi).min_req == m.min_req,
        update_filter_state(m, wv, fi).max_new == m.max_new,
{
    let u = update_filter_state(m, wv, fi);
    let fm = first_match(m, wv, fi);
    lemma_first_match_loop_range(m.filters[fi], wv, 0);
    if fm.0 >= 0 && fm.1 >= 0 && fm.0 - fm.1 > 0 {
        let lead = fm.0 - fm.1;
        assert(lead <= wv.len());
        let id = fi as u32;
        let f0 = m.filters[fi];
        let f1 = singleton_slots(wv, lead) + f0;
        lemma_register_all_upto(m.index, wv, lead, id, m.filters.len() as int);
        assert(u.filters == m.filters.update(fi, f1));
        assert(u.index == register_all_upto(m.index, wv, lead, id));
        assert(index_consistent(u)) by {
            assert forall|fi2: int, si: int, ai: int|
                0 <= fi2 < u.filters.len() && 0 <= si < u.filters[fi2].len() && 0 <= ai
                    < u.filters[fi2][si].len() implies index_lookup(
                u.index,
                #[trigger] u.filters[fi2][si][ai],
            ).contains(fi2 as u32) by {
                if fi2 == fi {
                    if si < lead {
                        assert(u.filters[fi2][si] == seq![wv[si]]);
                        assert(u.filters[fi2][si][ai] == wv[si]);
                        assert(index_lookup(u.index, wv[si]).contains(id));
                    } else {
                        assert(u.filters[fi2][si] == f0[si - lead]);
                        assert(index_lookup(m.index, f0[si - lead][ai]).contains(fi2 as u32));
                    }
                } else {
                    assert(u.filters[fi2] == m.filters[fi2]);
                    assert(index_lookup(m.index, m.filters[fi2][si][ai]).contains(fi2 as u32));
                }
            }
            assert forall|i: int, a: int|
                0 <= i < u.index.len() && 0 <= a < u.index[i].1.len() implies template_has_word(
                u.filters[(#[trigger] u.index[i].1[a]) as int],
                u.index[i].0,
            ) by {
                let w = u.index[i].0;
                let x = u.index[i].1[a];
                assert(keys_unique(u.index));
                lemma_lookup_of_entry(u.index, i);
                assert(index_lookup(u.index, w).contains(x));
                if x == id && exists|j: int| 0 <= j < lead && #[trigger] wv[j] == w {
                    let j = choose|j: int| 0 <= j < lead && #[trigger] wv[j] == w;
                    assert(u.filters[fi][j] == seq![wv[j]]);
                    assert(slot_has_word(u.filters[fi][j], w)) by {
                        assert(u.filters[fi][j][0] == w);
                    }
                    assert(template_has_word(u.filters[fi], w));
                } else {
                    assert(index_lookup(m.index, w).contains(x));
                    let p = key_pos(m.index, w);
                    lemma_key_pos_from_range(m.index, w, 0);
                    assert(p >= 0 && m.index[p].0 == w);
                    assert(m.index[p].1.contains(x));
                    let a0 = choose|a0: int| 0 <= a0 < m.index[p].1.len() && m.index[p].1[a0] == x;
                    assert(template_has_word(m.filters[x as int], w));
                    if x as int == fi {
                        let si = choose|si: int|
                            0 <= si < f0.len() && slot_has_word(#[trigger] f0[si], w);
                        assert(u.filters[fi][si + lead] == f0[si]);
                        assert(template_has_word(u.filters[fi], w));
                    } else {
                        assert(u.filters[x as int] == m.filters[x as int]);
                    }
                }
            }
        }
    }
}

/// Creating a template from a line preserves the index invariant and the
/// store/index consistency and leaves every existing template unchanged.
pub proof fn lemma_add_state_wf(m: FiltersModel, wv: Seq<Seq<char>>)
    requires
        index_wf(m.index, m.filters.len() as int),
        index_consistent(m),
        m.filters.len() < u32::MAX as int,
    ensures
        add_filter_state(m, wv).filters.len() == m.filters.len() || add_filter_state(
            m,
            wv,
        ).filters.len() == m.filters.len() + 1,
        forall|i: int|
            0 <= i < m.filters.len() ==> (#[trigger] add_filter_state(m, wv).filters[i])
                == m.filters[i],
        index_wf(add_filter_state(m, wv).index, add_filter_state(m, wv).filters.len() as int),
        index_consistent(add_filter_state(m, wv)),
        add_filter_state(m, wv).min_req == m.min_req,
        add_filter_state(m, wv).max_new == m.max_new,
{
    broadcast use vstd::seq_lib::group_filter_ensures;

    let u = add_filter_state(m, wv);
    let pred = |w: Seq<char>| w.len() > 0;
    let kept = wv.filter(pred);
    let id = m.filters.len() as u32;
    let n0 = m.filters.len() as int;
    lemma_filter_subset(wv, pred);
    lemma_register_upto(m.index, wv, wv.len() as int, id, n0 + 1);
    assert(index_wf(m.index, n0 + 1)) by {
        assert(ids_below(m.index, n0 + 1));
    }
    if kept.len() == 0 {
        assert(forall|j: int| 0 <= j < wv.len() ==> (#[trigger] wv[j]).len() == 0) by {
            assert forall|j: int| 0 <= j < wv.len() implies (#[trigger] wv[j]).len() == 0 by {
                if wv[j].len() > 0 {
                    assert(kept.contains(wv[j]));
                }
            }
        }
        lemma_register_upto_all_empty(m.index, wv, wv.len() as int, id);
        assert(u.index == m.index);
        assert(u.filters == m.filters);
        assert(index_consistent(u));
    } else {
        let newf = kept.map_values(|w: Seq<char>| seq![w]);
        assert(u.filters == m.filters.push(newf));
        assert(u.filters.len() == n0 + 1);
        assert(index_wf(u.index, u.filters.len() as int));
        assert(index_consistent(u)) by {
            assert forall|fi2: int, si: int, ai: int|
                0 <= fi2 < u.filters.len() && 0 <= si < u.filters[fi2].len() && 0 <= ai
                    < u.filters[fi2][si].len() implies index_lookup(
                u.index,
                #[trigger] u.filters[fi2][si][ai],
            ).contains(fi2 as u32) by {
                if fi2 == n0 {
                    assert(u.filters[fi2] == newf);
                    assert(newf[si] == seq![kept[si]]);
                    let w = kept[si];
                    assert(u.filters[fi2][si][ai] == w);
                    assert(wv.contains(w));
                    let j = choose|j: int| 0 <= j < wv.len() && wv[j] == w;
                    assert(pred(kept[si]));
                    assert(w.len() > 0);
                    assert(index_lookup(u.index, wv[j]).contains(id));
                } else {
                    assert(u.filters[fi2] == m.filters[fi2]);
                    assert(index_lookup(m.index, m.filters[fi2][si][ai]).contains(fi2 as u32));
                }
            }
            assert forall|i: int, a: int|
                0 <= i < u.index.len() && 0 <= a < u.index[i].1.len() implies template_has_word(
                u.filters[(#[trigger] u.index[i].1[a]) as int],
                u.index[i].0,
            ) by {
                let w = u.index[i].0;
                let x = u.index[i].1[a];
                assert(keys_unique(u.index));
                lemma_lookup_of_entry(u.index, i);
                assert(index_lookup(u.index, w).contains(x));
                if x == id && exists|j: int|
                    0 <= j < wv.len() && #[trigger] wv[j] == w && wv[j].len() > 0 {
                    let j = choose|j: int|
                        0 <= j < wv.len() && #[trigger] wv[j] == w && wv[j].len() > 0;
                    assert(kept.contains(wv[j]));
                    let si = choose|si: int| 0 <= si < kept.len() && kept[si] == w;
                    assert(newf[si] == seq![w]);
                    assert(slot_has_word(newf[si], w)) by {
                        assert(newf[si][0] == w);
                    }
                    assert(template_has_word(u.filters[id as int], w));
                } else {
                    assert(index_lookup(m.index, w).contains(x));
                    let p = key_pos(m.index, w);
                    lemma_key_pos_from_range(m.index, w, 0);
                    assert(p >= 0 && m.index[p].0 == w);
                    assert(m.index[p].1.contains(x));
                    let a0 = choose|a0: int| 0 <= a0 < m.index[p].1.len() && m.index[p].1[a0] == x;
                    assert((m.index[p].1[a0] as int) < n0);
                    assert(template_has_word(m.filters[x as int], w));
                    assert(u.filters[x as int] == m.filters[x as int]);
                }
            }
        }
    }
}

/// An accepted match names a real template, scored at least 1, so an
/// alignment point between the input and that template exists.
pub proof fn lemma_accepted_match(m: FiltersModel, wv: Seq<Seq<char>>)
    requires
        index_wf(m.index, m.filters.len() as int),
        find_best(m, wv) >= 0,
    ensures
        0 <= find_best(m, wv) < m.filters.len(),
        score(m, wv, find_best(m, wv)) >= 1,
        0 <= first_match(m, wv, find_best(m, wv)).0 < wv.len(),
        0 <= first_match(m, wv, find_best(m, wv)).1 < m.filters[find_best(m, wv)].len(),
{
    let fb = find_best(m, wv);
    lemma_candidates_bound(m, wv);
    lemma_best_loop_props(m, wv, candidates(m, wv), 0, -1, 0);
    let r = best_loop(m, wv, candidates(m, wv), 0, -1, 0);
    assert(fb == r.0);
    assert(0 <= fb < m.filters.len() && score(m, wv, fb) == r.1 && r.1 >= 1);
    let f = m.filters[fb];
    let fm = first_match_loop(f, wv, 0);
    assert(fm != (-1int, -1int)) by {
        if fm == (-1int, -1int) {
            let extra: nat = if f.len() < wv.len() {
                (wv.len() - f.len()) as nat
            } else {
                0
            };
            lemma_no_match_score_zero(f, wv, 0, -1, 0, m.max_new + extra);
            assert(score(m, wv, fb) == 0);
        }
    }
    lemma_first_match_loop_range(f, wv, 0);
}

} // verus!
