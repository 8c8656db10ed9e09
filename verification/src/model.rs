//! Mathematical model of the template store, the word index, and the
//! matching, scoring and updating algorithms.
//!
//! A template is a sequence of slots; a slot is a set of alternative tokens,
//! kept as a sequence of distinct words; a word is a sequence of characters.
//! The word index is an association sequence from word to the ascending,
//! duplicate-free sequence of template ids containing that word.

use vstd::prelude::*;

verus! {

use vstd::relations::sorted_by;

/// The abstract state of a `LogFilters` value.
pub struct FiltersModel {
    /// Templates in creation order; a template's id is its position.
    pub filters: Seq<Seq<Seq<Seq<char>>>>,
    /// Word index: word to ascending, duplicate-free template ids.
    pub index: Seq<(Seq<char>, Seq<u32>)>,
    /// Minimum alignment score required to accept a match.
    pub min_req: nat,
    /// Tokens allowed to miss before a candidate is disqualified.
    pub max_new: nat,
}

/// Ascending order on template ids.
pub open spec fn id_le(a: u32, b: u32) -> bool {
    a <= b
}

/// Ascending order on template ids, as a function value shared by every use
/// of sorting, so that equal sorts are syntactically equal.
pub open spec fn id_le_fn() -> spec_fn(u32, u32) -> bool {
    |a: u32, b: u32| id_le(a, b)
}

/// Whether a slot offers `w` as one of its alternatives.
pub open spec fn slot_has_word(slot: Seq<Seq<char>>, w: Seq<char>) -> bool {
    exists|k: int| 0 <= k < slot.len() && slot[k] == w
}

/// Whether any slot of the template offers `w`.
pub open spec fn template_has_word(f: Seq<Seq<Seq<char>>>, w: Seq<char>) -> bool {
    exists|si: int| 0 <= si < f.len() && slot_has_word(#[trigger] f[si], w)
}

/// The first slot index at or after `start` whose alternatives contain `w`,
/// or -1 if there is none.
pub open spec fn first_slot_from(f: Seq<Seq<Seq<char>>>, w: Seq<char>, start: int) -> int
    decreases f.len() - start,
{
    if start < 0 || start >= f.len() {
        -1
    } else if slot_has_word(f[start], w) {
        start
    } else {
        first_slot_from(f, w, start + 1)
    }
}

/// The alignment primitive: the first slot at or after `start` containing
/// `w`, with the empty word never matching.
pub open spec fn word_slot_from(f: Seq<Seq<Seq<char>>>, w: Seq<char>, start: int) -> int {
    if w.len() == 0 {
        -1
    } else {
        first_slot_from(f, w, start)
    }
}

/// A found slot lies between `start` and the template length, and offers the
/// word.
pub proof fn lemma_first_slot_from_range(f: Seq<Seq<Seq<char>>>, w: Seq<char>, start: int)
    ensures
        first_slot_from(f, w, start) == -1 || (start <= first_slot_from(f, w, start) < f.len()
            && slot_has_word(f[first_slot_from(f, w, start)], w)),
    decreases f.len() - start,
{
    if start < 0 || start >= f.len() {
    } else if slot_has_word(f[start], w) {
    } else {
        lemma_first_slot_from_range(f, w, start + 1);
    }
}

/// Slot lookup at template level: -1 for an id outside the store.
pub open spec fn word_index_in_filter(m: FiltersModel, w: Seq<char>, fi: int, start: int) -> int {
    if fi < 0 || fi >= m.filters.len() {
        -1
    } else {
        word_slot_from(m.filters[fi], w, start)
    }
}

// ---------------------------------------------------------------------------
// Word index
// ---------------------------------------------------------------------------
/// Position of the entry for word `w` at or after `i`, or -1.
pub open spec fn key_pos_from(idx: Seq<(Seq<char>, Seq<u32>)>, w: Seq<char>, i: int) -> int
    decreases idx.len() - i,
{
    if i < 0 || i >= idx.len() {
        -1
    } else if idx[i].0 == w {
        i
    } else {
        key_pos_from(idx, w, i + 1)
    }
}

/// Position of the entry for word `w`, or -1 if the word is unseen.
pub open spec fn key_pos(idx: Seq<(Seq<char>, Seq<u32>)>, w: Seq<char>) -> int {
    key_pos_from(idx, w, 0)
}

/// A found key position lies in range, carries the key searched for, and no
/// earlier position at or after `i` does.
pub proof fn lemma_key_pos_from_range(idx: Seq<(Seq<char>, Seq<u32>)>, w: Seq<char>, i: int)
    requires
        0 <= i,
    ensures
        key_pos_from(idx, w, i) == -1 || (i <= key_pos_from(idx, w, i) < idx.len() && idx[key_pos_from(
            idx,
            w,
            i,
        )].0 == w),
        key_pos_from(idx, w, i) == -1 ==> forall|k: int|
            i <= k < idx.len() ==> (#[trigger] idx[k].0) != w,
    decreases idx.len() - i,
{
    if i < 0 || i >= idx.len() {
    } else if idx[i].0 == w {
    } else {
        lemma_key_pos_from_range(idx, w, i + 1);
    }
}

/// The id list registered for `w`; empty if the word is unseen.
pub open spec fn index_lookup(idx: Seq<(Seq<char>, Seq<u32>)>, w: Seq<char>) -> Seq<u32> {
    let p = key_pos(idx, w);
    if p < 0 {
        Seq::empty()
    } else {
        idx[p].1
    }
}

/// An id list after registering `id`: unchanged if present, else appended and
/// re-sorted ascending.
pub open spec fn entry_add(e: Seq<u32>, id: u32) -> Seq<u32> {
    if e.contains(id) {
        e
    } else {
        e.push(id).sort_by(id_le_fn())
    }
}

/// The index after registering the pair (`w`, `id`).
pub open spec fn index_register(idx: Seq<(Seq<char>, Seq<u32>)>, w: Seq<char>, id: u32) -> Seq<
    (Seq<char>, Seq<u32>),
> {
    let p = key_pos(idx, w);
    if p < 0 {
        idx.push((w, seq![id]))
    } else {
        idx.update(p, (idx[p].0, entry_add(idx[p].1, id)))
    }
}

/// The index after registering the first `k` of `words`, in order, all with
/// the same `id`; words of length zero are skipped.
pub open spec fn register_upto(
    idx: Seq<(Seq<char>, Seq<u32>)>,
    words: Seq<Seq<char>>,
    k: int,
    id: u32,
) -> Seq<(Seq<char>, Seq<u32>)>
    decreases k,
{
    if k <= 0 || k > words.len() {
        idx
    } else if words[k - 1].len() > 0 {
        index_register(register_upto(idx, words, k - 1, id), words[k - 1], id)
    } else {
        register_upto(idx, words, k - 1, id)
    }
}

/// The index after registering the first `k` of `words`, in order, all with
/// the same `id`, no word skipped.
pub open spec fn register_all_upto(
    idx: Seq<(Seq<char>, Seq<u32>)>,
    words: Seq<Seq<char>>,
    k: int,
    id: u32,
) -> Seq<(Seq<char>, Seq<u32>)>
    decreases k,
{
    if k <= 0 || k > words.len() {
        idx
    } else {
        index_register(register_all_upto(idx, words, k - 1, id), words[k - 1], id)
    }
}

// ---------------------------------------------------------------------------
// Matcher
// ---------------------------------------------------------------------------
/// Concatenation, in input order, of the id lists of `words[i..]`.
pub open spec fn ids_from(idx: Seq<(Seq<char>, Seq<u32>)>, words: Seq<Seq<char>>, i: int) -> Seq<
    u32,
>
    decreases words.len() - i,
{
    if i < 0 || i >= words.len() {
        Seq::empty()
    } else {
        index_lookup(idx, words[i]) + ids_from(idx, words, i + 1)
    }
}

/// Every id concatenated from a structurally sound index points into the
/// store.
pub proof fn lemma_ids_from_bound(
    idx: Seq<(Seq<char>, Seq<u32>)>,
    words: Seq<Seq<char>>,
    i: int,
    n: int,
)
    requires
        index_wf(idx, n),
    ensures
        forall|k: int|
            0 <= k < ids_from(idx, words, i).len() ==> (#[trigger] ids_from(idx, words, i)[k] as int)
                < n,
    decreases words.len() - i,
{
    if i < 0 || i >= words.len() {
    } else {
        lemma_ids_from_bound(idx, words, i + 1, n);
        lemma_key_pos_from_range(idx, words[i], 0);
        assert forall|k: int| 0 <= k < ids_from(idx, words, i).len() implies (
        #[trigger] ids_from(idx, words, i)[k] as int) < n by {
            let e = index_lookup(idx, words[i]);
            if k < e.len() {
                assert(ids_from(idx, words, i)[k] == e[k]);
            } else {
                assert(ids_from(idx, words, i)[k] == ids_from(idx, words, i + 1)[k - e.len()]);
            }
        }
    }
}

/// The candidate shortlist source: all ids referenced by any input word,
/// sorted ascending (duplicates kept, one per referencing word).
pub open spec fn sorted_ids(m: FiltersModel, words: Seq<Seq<char>>) -> Seq<u32> {
    ids_from(m.index, words, 0).sort_by(id_le_fn())
}

/// The running hit count a template must reach to become a candidate: the
/// global minimum less the mismatch budget, eased further for inputs shorter
/// than the global minimum, and clamped at zero.
pub open spec fn required_hits(m: FiltersModel, wlen: nat) -> nat {
    let extra: nat = if wlen < m.min_req {
        (m.min_req - wlen) as nat
    } else {
        0
    };
    if m.min_req >= m.max_new + extra {
        (m.min_req - m.max_new - extra) as nat
    } else {
        0
    }
}

/// Walk of the sorted id list: `hits` counts consecutive occurrences of
/// `prev`; a template qualifies once `hits` reaches the threshold, and is
/// skipped once inserted.
pub open spec fn candidates_loop(
    s: Seq<u32>,
    i: int,
    hits: nat,
    prev: int,
    last_ins: int,
    threshold: nat,
    acc: Seq<u32>,
) -> Seq<u32>
    decreases s.len() - i,
{
    if i < 0 || i >= s.len() {
        acc
    } else {
        let id = s[i] as int;
        if last_ins == id {
            candidates_loop(s, i + 1, hits, prev, last_ins, threshold, acc)
        } else {
            let h: nat = if prev != id {
                1
            } else {
                hits + 1
            };
            if h >= threshold {
                candidates_loop(s, i + 1, 0, id, id, threshold, acc.push(s[i]))
            } else {
                candidates_loop(s, i + 1, h, id, last_ins, threshold, acc)
            }
        }
    }
}

/// The candidate template ids for `words`, in ascending order.
pub open spec fn candidates(m: FiltersModel, words: Seq<Seq<char>>) -> Seq<u32> {
    candidates_loop(
        sorted_ids(m, words),
        0,
        0,
        -1,
        -1,
        required_hits(m, words.len()),
        Seq::empty(),
    )
}

// ---------------------------------------------------------------------------
// Scorer
// ---------------------------------------------------------------------------
/// Ordered alignment walk over `words[i..]`: each token is looked up strictly
/// after the last matched slot; a token with no such slot spends one unit of
/// `budget`, and exceeding the budget disqualifies the candidate outright.
pub open spec fn score_loop(
    f: Seq<Seq<Seq<char>>>,
    words: Seq<Seq<char>>,
    i: int,
    last: int,
    matched: nat,
    misses: nat,
    budget: nat,
) -> nat
    decreases words.len() - i,
{
    if i < 0 || i >= words.len() {
        matched
    } else {
        let j = word_slot_from(f, words[i], last + 1);
        if j >= 0 {
            score_loop(f, words, i + 1, j, (matched + 1) as nat, misses, budget)
        } else if misses + 1 > budget {
            0
        } else {
            score_loop(f, words, i + 1, last, matched, (misses + 1) as nat, budget)
        }
    }
}

/// The alignment score of `words` against template `fi`: the number of tokens
/// aligned to strictly increasing slot indices, or 0 if the template does not
/// exist, the input is empty, or the mismatch budget is exceeded. Inputs
/// longer than the template earn one extra unit of budget per surplus token.
pub open spec fn score(m: FiltersModel, words: Seq<Seq<char>>, fi: int) -> nat {
    if fi < 0 || fi >= m.filters.len() || words.len() == 0 {
        0
    } else {
        let f = m.filters[fi];
        let extra: nat = if f.len() < words.len() {
            (words.len() - f.len()) as nat
        } else {
            0
        };
        score_loop(f, words, 0, -1, 0, 0, m.max_new + extra)
    }
}

/// Best-candidate walk: keeps the first id whose score strictly exceeds every
/// earlier one. Returns (best id or -1, best score).
pub open spec fn best_loop(
    m: FiltersModel,
    words: Seq<Seq<char>>,
    cands: Seq<u32>,
    i: int,
    best: int,
    best_score: nat,
) -> (int, nat)
    decreases cands.len() - i,
{
    if i < 0 || i >= cands.len() {
        (best, best_score)
    } else {
        let sc = score(m, words, cands[i] as int);
        if sc > best_score {
            best_loop(m, words, cands, i + 1, cands[i] as int, sc)
        } else {
            best_loop(m, words, cands, i + 1, best, best_score)
        }
    }
}

/// The accepted match for `words`, or -1: the best-scoring candidate,
/// accepted only if its score reaches the global minimum (long inputs) or
/// equals the input length exactly (short inputs).
pub open spec fn find_best(m: FiltersModel, words: Seq<Seq<char>>) -> int {
    if m.filters.len() == 0 || words.len() == 0 {
        -1
    } else {
        let r = best_loop(m, words, candidates(m, words), 0, -1, 0);
        if words.len() > m.min_req {
            if r.1 >= m.min_req {
                r.0
            } else {
                -1
            }
        } else {
            if words.len() == r.1 {
                r.0
            } else {
                -1
            }
        }
    }
}

// ---------------------------------------------------------------------------
// Updater
// ---------------------------------------------------------------------------
/// The earliest alignment point: the first input position whose token occurs
/// anywhere in the template, together with that slot index; (-1, -1) if none.
pub open spec fn first_match_loop(f: Seq<Seq<Seq<char>>>, words: Seq<Seq<char>>, i: int) -> (
    int,
    int,
)
    decreases words.len() - i,
{
    if i < 0 || i >= words.len() {
        (-1, -1)
    } else {
        let j = word_slot_from(f, words[i], 0);
        if j >= 0 {
            (i, j)
        } else {
            first_match_loop(f, words, i + 1)
        }
    }
}

/// Earliest alignment point at template level.
pub open spec fn first_match(m: FiltersModel, words: Seq<Seq<char>>, fi: int) -> (int, int) {
    if words.len() == 0 || fi < 0 || fi >= m.filters.len() {
        (-1, -1)
    } else {
        first_match_loop(m.filters[fi], words, 0)
    }
}

/// One singleton slot per word of `words[0..k]`, in order.
pub open spec fn singleton_slots(words: Seq<Seq<char>>, k: int) -> Seq<Seq<Seq<char>>> {
    Seq::new(k as nat, |i: int| seq![words[i]])
}

/// State after folding `words` into template `fi`: the leading tokens that
/// precede the earliest alignment point become new singleton slots prepended
/// to the template, each registered in the index; a match with no unmatched
/// prefix leaves the state unchanged.
pub open spec fn update_filter_state(m: FiltersModel, words: Seq<Seq<char>>, fi: int) -> FiltersModel {
    let fm = first_match(m, words, fi);
    if fm.0 >= 0 && fm.1 >= 0 && fm.0 - fm.1 > 0 {
        let lead = fm.0 - fm.1;
        FiltersModel {
            filters: m.filters.update(fi, singleton_slots(words, lead) + m.filters[fi]),
            index: register_all_upto(m.index, words, lead, fi as u32),
            ..m
        }
    } else {
        m
    }
}

/// State after creating a new template from `words`: one singleton slot per
/// non-empty word, appended under the next id with every word registered; if
/// every word is empty, no template is created.
pub open spec fn add_filter_state(m: FiltersModel, words: Seq<Seq<char>>) -> FiltersModel {
    let kept = words.filter(|w: Seq<char>| w.len() > 0);
    let id = m.filters.len() as u32;
    let idx2 = register_upto(m.index, words, words.len() as int, id);
    if kept.len() > 0 {
        FiltersModel {
            filters: m.filters.push(kept.map_values(|w: Seq<char>| seq![w])),
            index: idx2,
            ..m
        }
    } else {
        FiltersModel { index: idx2, ..m }
    }
}

/// State after learning one line: its tokens are matched against the store,
/// and the best accepted template absorbs them, or a new template is created.
pub open spec fn learn_state(m: FiltersModel, line: Seq<char>) -> FiltersModel {
    let words = crate::tokens::tokens_of(line);
    let best = find_best(m, words);
    if best >= 0 {
        update_filter_state(m, words, best)
    } else {
        add_filter_state(m, words)
    }
}

// ---------------------------------------------------------------------------
// Well-formedness and the store/index consistency invariant
// ---------------------------------------------------------------------------
/// No two index entries share a key.
pub open spec fn keys_unique(idx: Seq<(Seq<char>, Seq<u32>)>) -> bool {
    forall|i: int, j: int| 0 <= i < j < idx.len() ==> (#[trigger] idx[i].0) != (#[trigger] idx[j].0)
}

/// Every id list is strictly ascending, hence sorted and duplicate-free.
pub open spec fn entries_strict(idx: Seq<(Seq<char>, Seq<u32>)>) -> bool {
    forall|i: int, a: int, b: int|
        0 <= i < idx.len() && 0 <= a < b < idx[i].1.len() ==> #[trigger] idx[i].1[a]
            < #[trigger] idx[i].1[b]
}

/// Every registered id points into a store of `nfilters` templates.
pub open spec fn ids_below(idx: Seq<(Seq<char>, Seq<u32>)>, nfilters: int) -> bool {
    forall|i: int, a: int|
        0 <= i < idx.len() && 0 <= a < idx[i].1.len() ==> (#[trigger] idx[i].1[a] as int)
            < nfilters
}

/// Structural invariant of the word index: keys are distinct, id lists are
/// strictly ascending (so duplicate-free), and every id points into the
/// store.
pub open spec fn index_wf(idx: Seq<(Seq<char>, Seq<u32>)>, nfilters: int) -> bool {
    &&& keys_unique(idx)
    &&& entries_strict(idx)
    &&& ids_below(idx, nfilters)
}

/// The word index is a complete and sound inverse of the template store:
/// a template id is registered under a word exactly when some slot of that
/// template offers the word.
pub open spec fn index_consistent(m: FiltersModel) -> bool {
    &&& forall|fi: int, si: int, ai: int|
        0 <= fi < m.filters.len() && 0 <= si < m.filters[fi].len() && 0 <= ai
            < m.filters[fi][si].len() ==> index_lookup(
            m.index,
            #[trigger] m.filters[fi][si][ai],
        ).contains(fi as u32)
    &&& forall|i: int, a: int|
        0 <= i < m.index.len() && 0 <= a < m.index[i].1.len() ==> template_has_word(
            m.filters[(#[trigger] m.index[i].1[a]) as int],
            m.index[i].0,
        )
}

} // verus!
