//! Laws of the learning algorithm, stated and proved over the model:
//! idempotent index registration, monotone growth of the store, the
//! acceptance thresholds for short and long inputs, and the strictly
//! increasing slot order behind every full alignment.

use vstd::prelude::*;

verus! {

use crate::model::{
    FiltersModel, slot_has_word, word_slot_from, key_pos, index_lookup, entry_add, index_register,
    score_loop, score, find_best, first_match, update_filter_state, add_filter_state, learn_state,
    index_wf, lemma_key_pos_from_range, lemma_first_slot_from_range,
};
use crate::lemmas::{
    lemma_register, lemma_key_pos_push, lemma_key_pos_same_keys, lemma_best_loop_props,
    lemma_candidates_bound,
};

/// Idempotence of index registration: registering a (token, template id)
/// pair that the index already holds, as the first registration guarantees,
/// changes nothing.
pub proof fn lemma_register_idempotent(idx: Seq<(Seq<char>, Seq<u32>)>, w: Seq<char>, id: u32)
    ensures
        index_register(index_register(idx, w, id), w, id) == index_register(idx, w, id),
{
    let r1 = index_register(idx, w, id);
    lemma_register(idx, w, id);
    let p0 = key_pos(idx, w);
    lemma_key_pos_from_range(idx, w, 0);
    let p1 = key_pos(r1, w);
    if p0 < 0 {
        lemma_key_pos_push(idx, (w, seq![id]), w, 0);
        assert(p1 == idx.len());
    } else {
        lemma_key_pos_same_keys(idx, r1, w, 0);
        assert(p1 == p0);
    }
    assert(p1 >= 0);
    assert(r1[p1].1 == index_lookup(r1, w));
    assert(r1[p1].1.contains(id));
    assert(entry_add(r1[p1].1, id) == r1[p1].1);
    assert(index_register(r1, w, id) == r1.update(p1, (r1[p1].0, r1[p1].1)));
    assert(r1.update(p1, (r1[p1].0, r1[p1].1)) =~= r1);
}

/// Monotonicity: learning a line never removes a template and never shortens
/// one; the store only grows.
pub proof fn lemma_learn_monotone(m: FiltersModel, line: Seq<char>)
    ensures
        learn_state(m, line).filters.len() >= m.filters.len(),
        forall|i: int|
            0 <= i < m.filters.len() ==> (#[trigger] learn_state(m, line).filters[i]).len()
                >= m.filters[i].len(),
{
    let words = crate::tokens::tokens_of(line);
    let best = find_best(m, words);
    if best >= 0 {
        let u = update_filter_state(m, words, best);
        let fm = first_match(m, words, best);
        if fm.0 >= 0 && fm.1 >= 0 && fm.0 - fm.1 > 0 {
            assert(0 <= best < m.filters.len());
            assert(u.filters.len() == m.filters.len());
            assert forall|i: int|
                0 <= i < m.filters.len() implies (#[trigger] u.filters[i]).len()
                >= m.filters[i].len() by {
                if i != best {
                    assert(u.filters[i] == m.filters[i]);
                }
            }
        }
    } else {
        let u = add_filter_state(m, words);
        let kept = words.filter(|w: Seq<char>| w.len() > 0);
        if kept.len() > 0 {
            assert(u.filters.len() == m.filters.len() + 1);
            assert(forall|i: int|
                0 <= i < m.filters.len() ==> (#[trigger] u.filters[i]) == m.filters[i]);
        }
    }
}

/// Short inputs must match in full: when an input no longer than the
/// configured minimum is accepted, its score equals its length — every token
/// aligned.
pub proof fn lemma_short_input_full_match(m: FiltersModel, words: Seq<Seq<char>>)
    requires
        index_wf(m.index, m.filters.len() as int),
        words.len() <= m.min_req,
        find_best(m, words) >= 0,
    ensures
        0 <= find_best(m, words) < m.filters.len(),
        score(m, words, find_best(m, words)) == words.len(),
{
    lemma_candidates_bound(m, words);
    lemma_best_loop_props(m, words, crate::model::candidates(m, words), 0, -1, 0);
}

/// Long inputs must reach the configured minimum: when an input longer than
/// the minimum is accepted, its score is at least that minimum.
pub proof fn lemma_long_input_min_score(m: FiltersModel, words: Seq<Seq<char>>)
    requires
        index_wf(m.index, m.filters.len() as int),
        words.len() > m.min_req,
        find_best(m, words) >= 0,
    ensures
        0 <= find_best(m, words) < m.filters.len(),
        score(m, words, find_best(m, words)) >= m.min_req,
{
    lemma_candidates_bound(m, words);
    lemma_best_loop_props(m, words, crate::model::candidates(m, words), 0, -1, 0);
}

/// A strictly increasing alignment: one slot per token from position `i` on,
/// each strictly after the previous one (and after `last`), each offering its
/// token.
pub open spec fn aligned_chain(
    slots: Seq<int>,
    f: Seq<Seq<Seq<char>>>,
    wv: Seq<Seq<char>>,
    i: int,
    last: int,
) -> bool {
    &&& slots.len() == wv.len() - i
    &&& forall|k: int| 0 <= k < slots.len() ==> 0 <= #[trigger] slots[k] < f.len()
    &&& forall|k: int| 0 <= k < slots.len() ==> slot_has_word(f[#[trigger] slots[k]], wv[i + k])
    &&& forall|k: int| 0 < k < slots.len() ==> slots[k - 1] < #[trigger] slots[k]
    &&& slots.len() > 0 ==> slots[0] > last
}

/// The alignment walk can never report more matches than tokens it has seen.
pub proof fn lemma_score_loop_le(
    f: Seq<Seq<Seq<char>>>,
    wv: Seq<Seq<char>>,
    i: int,
    last: int,
    matched: nat,
    misses: nat,
    budget: nat,
)
    requires
        0 <= i <= wv.len(),
    ensures
        score_loop(f, wv, i, last, matched, misses, budget) <= matched + (wv.len() - i),
    decreases wv.len() - i,
{
    if i >= wv.len() {
    } else {
        let j = word_slot_from(f, wv[i], last + 1);
        if j >= 0 {
            lemma_score_loop_le(f, wv, i + 1, j, (matched + 1) as nat, misses, budget);
        } else if misses + 1 > budget {
        } else {
            lemma_score_loop_le(f, wv, i + 1, last, matched, (misses + 1) as nat, budget);
        }
    }
}

/// A walk that aligns every remaining token yields a strictly increasing
/// chain of slots for them.
pub proof fn lemma_full_score_chain(
    f: Seq<Seq<Seq<char>>>,
    wv: Seq<Seq<char>>,
    i: int,
    last: int,
    matched: nat,
    misses: nat,
    budget: nat,
)
    requires
        0 <= i <= wv.len(),
        -1 <= last,
        score_loop(f, wv, i, last, matched, misses, budget) == matched + (wv.len() - i),
    ensures
        exists|slots: Seq<int>| #[trigger] aligned_chain(slots, f, wv, i, last),
    decreases wv.len() - i,
{
    if i >= wv.len() {
        let slots = Seq::<int>::empty();
        assert(aligned_chain(slots, f, wv, i, last));
    } else {
        let j = word_slot_from(f, wv[i], last + 1);
        if j >= 0 {
            lemma_first_slot_from_range(f, wv[i], last + 1);
            lemma_full_score_chain(f, wv, i + 1, j, (matched + 1) as nat, misses, budget);
            let rest = choose|slots: Seq<int>| #[trigger] aligned_chain(slots, f, wv, i + 1, j);
            let slots = seq![j].add(rest);
            assert(aligned_chain(slots, f, wv, i, last)) by {
                assert(slots[0] == j);
                assert(forall|k: int| 0 < k < slots.len() ==> slots[k] == rest[k - 1]);
                assert(slot_has_word(f[j], wv[i]));
                assert forall|k: int| 0 <= k < slots.len() implies slot_has_word(
                    f[#[trigger] slots[k]],
                    wv[i + k],
                ) by {
                    if k > 0 {
                        assert(slot_has_word(f[rest[k - 1]], wv[i + 1 + (k - 1)]));
                    }
                }
                assert forall|k: int| 0 < k < slots.len() implies slots[k - 1] < #[trigger] slots[k] by {
                    if k == 1 {
                        assert(slots[0] == j && slots[1] == rest[0]);
                        assert(rest.len() > 0 ==> rest[0] > j);
                    } else {
                        assert(slots[k - 1] == rest[k - 2] && slots[k] == rest[k - 1]);
                    }
                }
            }
        } else {
            if misses + 1 > budget {
                assert(matched + (wv.len() - i) == 0);
                assert(false);
            } else {
                lemma_score_loop_le(f, wv, i + 1, last, matched, (misses + 1) as nat, budget);
                assert(score_loop(f, wv, i + 1, last, matched, (misses + 1) as nat, budget)
                    <= matched + (wv.len() - i - 1));
                assert(false);
            }
        }
    }
}

/// Order sensitivity: an input whose every token aligns pins a strictly
/// increasing sequence of slot indices, one per token in input order — so a
/// full match can only exist when the tokens respect the template's
/// left-to-right slot order.
pub proof fn lemma_full_match_is_ordered(m: FiltersModel, words: Seq<Seq<char>>, fi: int)
    requires
        0 <= fi < m.filters.len(),
        words.len() > 0,
        score(m, words, fi) == words.len(),
    ensures
        exists|slots: Seq<int>| #[trigger] aligned_chain(slots, m.filters[fi], words, 0, -1),
{
    let f = m.filters[fi];
    let extra: nat = if f.len() < words.len() {
        (words.len() - f.len()) as nat
    } else {
        0
    };
    lemma_full_score_chain(f, words, 0, -1, 0, 0, m.max_new + extra);
}

/// `s` is the one slot of the template offering `w`.
pub open spec fn sole_slot(f: Seq<Seq<Seq<char>>>, w: Seq<char>, s: int) -> bool {
    &&& 0 <= s < f.len()
    &&& slot_has_word(f[s], w)
    &&& forall|t: int| 0 <= t < f.len() && t != s ==> !slot_has_word(#[trigger] f[t], w)
}

/// Order sensitivity, contrapositive form: when every token of a fully
/// matching input of two or more tokens occurs in exactly one slot of the
/// template, the reversed input cannot fully match — its forced slot indices
/// would have to decrease.
pub proof fn lemma_reversed_input_no_full_match(m: FiltersModel, words: Seq<Seq<char>>, fi: int)
    requires
        0 <= fi < m.filters.len(),
        words.len() >= 2,
        forall|k: int|
            0 <= k < words.len() ==> exists|s: int|
                sole_slot(m.filters[fi], #[trigger] words[k], s),
        score(m, words, fi) == words.len(),
    ensures
        score(m, words.reverse(), fi) < words.len(),
{
    let f = m.filters[fi];
    let n = words.len() as int;
    let rev = words.reverse();
    assert(rev.len() == n);
    lemma_full_match_is_ordered(m, words, fi);
    let fwd = choose|slots: Seq<int>| #[trigger] aligned_chain(slots, f, words, 0, -1);
    let s_first = choose|s: int| #[trigger] sole_slot(f, words[0], s);
    let s_last = choose|s: int| #[trigger] sole_slot(f, words[n - 1], s);
    assert(fwd[0] == s_first);
    assert(fwd[n - 1] == s_last);
    assert(fwd[0] < fwd[n - 1]) by {
        chain_increasing(fwd, 0, n - 1);
    }
    if score(m, rev, fi) == rev.len() {
        lemma_full_match_is_ordered(m, rev, fi);
        let bwd = choose|slots: Seq<int>| #[trigger] aligned_chain(slots, f, rev, 0, -1);
        assert(rev[0] == words[n - 1]);
        assert(rev[n - 1] == words[0]);
        assert(bwd[0] == s_last);
        assert(bwd[n - 1] == s_first);
        assert(bwd[0] < bwd[n - 1]) by {
            chain_increasing(bwd, 0, n - 1);
        }
        assert(false);
    }
    lemma_score_le(m, rev, fi);
}

/// A strictly increasing chain increases between any two of its positions.
proof fn chain_increasing(slots: Seq<int>, a: int, b: int)
    requires
        forall|k: int| 0 < k < slots.len() ==> slots[k - 1] < #[trigger] slots[k],
        0 <= a < b < slots.len(),
    ensures
        slots[a] < slots[b],
    decreases b - a,
{
    if a + 1 < b {
        chain_increasing(slots, a + 1, b);
    }
}

/// A score never exceeds the number of input tokens.
pub proof fn lemma_score_le(m: FiltersModel, words: Seq<Seq<char>>, fi: int)
    ensures
        score(m, words, fi) <= words.len(),
{
    if 0 <= fi < m.filters.len() && words.len() > 0 {
        let f = m.filters[fi];
        let extra: nat = if f.len() < words.len() {
            (words.len() - f.len()) as nat
        } else {
            0
        };
        lemma_score_loop_le(f, words, 0, -1, 0, 0, m.max_new + extra);
    }
}

} // verus!
