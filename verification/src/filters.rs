//! The template store, its inverted word index, and the online learning
//! algorithm: tokenize a line, shortlist candidate templates through the
//! index, score them with an ordered tolerant alignment, and either fold the
//! line into the best template or create a new one.

use vstd::prelude::*;

verus! {

use crate::model::{
    FiltersModel, id_le_fn, slot_has_word, template_has_word, first_slot_from,
    word_index_in_filter, key_pos, key_pos_from, index_lookup, entry_add, index_register,
    register_upto, register_all_upto, ids_from, sorted_ids, required_hits, candidates_loop,
    candidates, score_loop, score, best_loop, find_best, first_match_loop, first_match,
    singleton_slots, update_filter_state, add_filter_state, learn_state, index_wf,
    index_consistent, lemma_first_slot_from_range,
};
use crate::tokens::{all_numeric, tokenize, str_all_numeric};
use crate::sorting::{sort_ids, lemma_id_le_total};
use crate::lemmas::{
    lemma_first_match_loop_range, lemma_accepted_match, lemma_update_state_wf, lemma_add_state_wf,
};

/// The learned state: an append-only template store and its word index.
///
/// Each template is a sequence of slots, each slot the distinct alternative
/// tokens seen at that position. The word index maps each token to the
/// ascending list of template ids containing it.
pub struct LogFilters {
    /// Templates in creation order; a template's id is its position here.
    pub filters: Vec<Vec<Vec<String>>>,
    /// Word index entries, one per distinct token.
    pub words_hash: Vec<(String, Vec<u32>)>,
    /// Minimum alignment score required to accept a match.
    pub min_req_consequent_matches: u32,
    /// Tokens of a line allowed to miss before a candidate is disqualified.
    pub max_allowed_new_alternatives: u32,
}

/// The error of a persistence call: the capability is declared but has no
/// on-disk format yet, and says so rather than pretending to succeed.
#[derive(Debug, PartialEq, Eq)]
pub enum PersistError {
    /// Saving and loading are not supported yet.
    Unsupported,
}

/// The abstract word index held by a vector of entries.
pub open spec fn index_view(idx: Seq<(String, Vec<u32>)>) -> Seq<(Seq<char>, Seq<u32>)> {
    idx.map_values(|p: (String, Vec<u32>)| (p.0@, p.1@))
}

impl View for LogFilters {
    type V = FiltersModel;

    open spec fn view(&self) -> FiltersModel {
        FiltersModel {
            filters: self.filters.deep_view(),
            index: index_view(self.words_hash@),
            min_req: self.min_req_consequent_matches as nat,
            max_new: self.max_allowed_new_alternatives as nat,
        }
    }
}

impl LogFilters {
    /// Store and index small enough for id and slot arithmetic, index
    /// structurally sound and a consistent inverse of the store.
    pub open spec fn wf(self) -> bool {
        &&& self@.filters.len() <= i32::MAX as int
        &&& forall|i: int|
            0 <= i < self@.filters.len() ==> (#[trigger] self@.filters[i]).len() <= i32::MAX as int
        &&& index_wf(self@.index, self@.filters.len() as int)
        &&& index_consistent(self@)
    }

    /// An empty store with the default tolerances.
    pub fn new() -> (r: LogFilters)
        ensures
            r.wf(),
            r@.filters.len() == 0,
            r@.index.len() == 0,
            r@.min_req == 3,
            r@.max_new == 1,
    {
        let r = LogFilters {
            filters: Vec::new(),
            words_hash: Vec::new(),
            min_req_consequent_matches: 3,
            max_allowed_new_alternatives: 1,
        };
        proof {
            assert(r@.filters =~= Seq::<Seq<Seq<Seq<char>>>>::empty());
            assert(r@.index =~= Seq::<(Seq<char>, Seq<u32>)>::empty());
        }
        r
    }

    /// Learns one line: tokenizes it, matches the tokens against the known
    /// templates, and folds them into the best accepted template or appends a
    /// new one. The length bounds keep id and slot arithmetic within `i32`.
    pub fn learn_line(&mut self, log_line: &str)
        requires
            old(self).wf(),
            old(self)@.filters.len() < i32::MAX as int,
            log_line@.len() <= i32::MAX as int,
            forall|i: int|
                0 <= i < old(self)@.filters.len() ==> (#[trigger] old(self)@.filters[i]).len()
                    + log_line@.len() <= i32::MAX as int,
        ensures
            final (self)@ == learn_state(old(self)@, log_line@),
            final (self).wf(),
            final (self)@.filters.len() >= old(self)@.filters.len(),
            forall|i: int|
                0 <= i < old(self)@.filters.len() ==> (#[trigger] final (self)@.filters[i]).len()
                    >= old(self)@.filters[i].len(),
            final (self)@.min_req == old(self)@.min_req,
            final (self)@.max_new == old(self)@.max_new,
    {
        let ghost m0 = self@;
        let words = tokenize(log_line);
        let ghost wv = words.deep_view();
        proof {
            assert(wv.len() == words@.len());
        }
        let m = self._find_best_matching_filter_index(&words);
        if m >= 0 {
            proof {
                lemma_accepted_match(m0, wv);
            }
            self._update_filter(&words, m as u32);
            proof {
                lemma_update_state_wf(m0, wv, m as int);
            }
        } else {
            self._add_filter(&words);
            proof {
                lemma_add_state_wf(m0, wv);
            }
        }
    }

    /// Persisting the learned state has no defined format yet: reports that
    /// explicitly instead of silently succeeding.
    pub fn save_filters(self) -> (r: Result<(), PersistError>)
        ensures
            r == Result::<(), PersistError>::Err(PersistError::Unsupported),
    {
        Result::Err(PersistError::Unsupported)
    }

    /// Restoring saved state has no defined format yet: reports that
    /// explicitly instead of silently succeeding.
    pub fn load_filters(self) -> (r: Result<(), PersistError>)
        ensures
            r == Result::<(), PersistError>::Err(PersistError::Unsupported),
    {
        Result::Err(PersistError::Unsupported)
    }

    /// Whether `word` consists entirely of decimal digits (true for the empty
    /// string): such tokens are treated as variable data, not structure.
    pub fn _is_word_only_numeric(&self, word: &String) -> (r: bool)
        ensures
            r == all_numeric(word@),
    {
        str_all_numeric(word.as_str())
    }

    /// The first slot of template `filter_index` at or after
    /// `start_from_word` whose alternatives contain `word`, or -1: the
    /// alignment primitive. The empty word and an id outside the store never
    /// match.
    #[verifier::loop_isolation(false)]
    pub fn _get_word_index_in_filter(
        &self,
        word: &String,
        filter_index: u32,
        start_from_word: u32,
    ) -> (r: i32)
        requires
            self.wf(),
        ensures
            r as int == word_index_in_filter(
                self@,
                word@,
                filter_index as int,
                start_from_word as int,
            ),
    {
        if word.as_str().is_empty() {
            return -1;
        }
        if filter_index as usize >= self.filters.len() {
            return -1;
        }
        let filter = &self.filters[filter_index as usize];
        let ghost f = self@.filters[filter_index as int];
        proof {
            assert(f == filter.deep_view());
        }
        let start = start_from_word as usize;
        let mut si: usize = start;
        if si >= filter.len() {
            proof {
                assert(first_slot_from(f, word@, si as int) == -1);
            }
            return -1;
        }
        while si < filter.len()
            invariant
                word@.len() > 0,
                f == filter.deep_view(),
                f.len() == filter@.len(),
                f.len() <= i32::MAX as int,
                start <= si <= f.len(),
                first_slot_from(f, word@, start as int) == first_slot_from(f, word@, si as int),
            decreases f.len() - si,
        {
            if slot_contains_word(&filter[si], word) {
                proof {
                    assert(filter.deep_view()[si as int] == filter@[si as int].deep_view());
                    assert(slot_has_word(f[si as int], word@));
                    assert(first_slot_from(f, word@, si as int) == si as int);
                }
                return si as i32;
            }
            proof {
                assert(filter.deep_view()[si as int] == filter@[si as int].deep_view());
                assert(!slot_has_word(f[si as int], word@));
            }
            si = si + 1;
        }
        proof {
            assert(first_slot_from(f, word@, si as int) == -1);
        }
        -1
    }

    /// The ids of templates referenced by enough distinct input words to be
    /// worth scoring: a walk of the sorted reference list counts consecutive
    /// occurrences of each id, and an id qualifies once its count reaches the
    /// required-hits threshold (at most once per id).
    #[verifier::loop_isolation(false)]
    pub fn _get_filter_indexes_with_min_req_matches(&self, words: &Vec<String>) -> (r: Vec<u32>)
        requires
            self.wf(),
        ensures
            r@ == candidates(self@, words.deep_view()),
            forall|k: int| 0 <= k < r@.len() ==> (#[trigger] r@[k] as int) < self@.filters.len(),
    {
        let ghost wv = words.deep_view();
        let sorted = self._get_sorted_filter_indexes_containing_words(words);
        let ghost sv = sorted@;
        let mut extra: u32 = 0;
        if words.len() < self.min_req_consequent_matches as usize {
            extra = self.min_req_consequent_matches - words.len() as u32;
        }
        let need: u64 = self.min_req_consequent_matches as u64;
        let sub: u64 = self.max_allowed_new_alternatives as u64 + extra as u64;
        let threshold: u64 = if need > sub {
            need - sub
        } else {
            0
        };
        proof {
            assert(threshold as nat == required_hits(self@, wv.len()));
        }
        let mut out: Vec<u32> = Vec::new();
        let mut hits: u64 = 0;
        let mut prev: i64 = -1;
        let mut last_ins: i64 = -1;
        let mut i: usize = 0;
        proof {
            assert(out@ =~= Seq::<u32>::empty());
        }
        while i < sorted.len()
            invariant
                0 <= i <= sv.len(),
                hits <= i,
                candidates_loop(sv, 0, 0, -1, -1, threshold as nat, Seq::empty())
                    == candidates_loop(
                    sv,
                    i as int,
                    hits as nat,
                    prev as int,
                    last_ins as int,
                    threshold as nat,
                    out@,
                ),
                forall|k: int| 0 <= k < out@.len() ==> (#[trigger] out@[k] as int)
                    < self@.filters.len(),
            decreases sv.len() - i,
        {
            let id = sorted[i];
            if last_ins == id as i64 {
                i = i + 1;
                continue ;
            }
            if prev != id as i64 {
                hits = 1;
                prev = id as i64;
            } else {
                hits = hits + 1;
            }
            if hits >= threshold {
                hits = 0;
                out.push(id);
                last_ins = id as i64;
            }
            i = i + 1;
        }
        out
    }

    /// The accepted match for `words`, or -1: every shortlisted candidate is
    /// scored, the first highest-scoring one kept, and the winner accepted
    /// only if its score reaches the configured minimum (inputs longer than
    /// the minimum) or covers every input token (shorter inputs).
    #[verifier::loop_isolation(false)]
    pub fn _find_best_matching_filter_index(&self, words: &Vec<String>) -> (r: i32)
        requires
            self.wf(),
            words@.len() <= u32::MAX,
        ensures
            r as int == find_best(self@, words.deep_view()),
            r >= 0 ==> (r as int) < self@.filters.len(),
    {
        let ghost wv = words.deep_view();
        if self.filters.len() == 0 || words.len() == 0 {
            return -1;
        }
        let cands = self._get_filter_indexes_with_min_req_matches(words);
        let ghost cv = cands@;
        let mut best: i32 = -1;
        let mut best_score: u32 = 0;
        let mut i: usize = 0;
        while i < cands.len()
            invariant
                0 <= i <= cv.len(),
                best == -1 || (0 <= (best as int) && (best as int) < self@.filters.len()),
                best_loop(self@, wv, cv, 0, -1, 0) == best_loop(
                    self@,
                    wv,
                    cv,
                    i as int,
                    best as int,
                    best_score as nat,
                ),
            decreases cv.len() - i,
        {
            let sc = self._count_consequent_matches(words, cands[i]);
            if sc > best_score {
                best_score = sc;
                best = cands[i] as i32;
            }
            i = i + 1;
        }
        if words.len() > self.min_req_consequent_matches as usize {
            if best_score >= self.min_req_consequent_matches {
                return best;
            }
        } else {
            if words.len() == best_score as usize {
                return best;
            }
        }
        -1
    }

    /// The ordered alignment score of `words` against template
    /// `filter_index`: tokens are aligned left to right to strictly
    /// increasing slot indices; a token with no slot left spends one unit of
    /// tolerance, and exceeding the tolerance (the configured allowance plus
    /// one per token beyond the template's length) disqualifies the template
    /// outright with score 0.
    #[verifier::loop_isolation(false)]
    pub fn _count_consequent_matches(&self, words: &Vec<String>, filter_index: u32) -> (r: u32)
        requires
            self.wf(),
            words@.len() <= u32::MAX,
        ensures
            r as nat == score(self@, words.deep_view(), filter_index as int),
    {
        if self.filters.len() <= filter_index as usize || words.len() == 0 {
            return 0;
        }
        let ghost f = self@.filters[filter_index as int];
        let ghost wv = words.deep_view();
        let flen = self.filters[filter_index as usize].len();
        proof {
            assert(f == self.filters@[filter_index as int].deep_view());
            assert(flen == f.len());
        }
        let mut extra: u32 = 0;
        if flen < words.len() {
            extra = (words.len() - flen) as u32;
        }
        let ghost budget = self@.max_new + extra as nat;
        let mut consequent: u32 = 0;
        let mut new_alts: u32 = 0;
        let mut last: i32 = -1;
        let mut wi: usize = 0;
        while wi < words.len()
            invariant
                0 <= wi <= wv.len(),
                consequent <= wi,
                new_alts <= wi,
                -1 <= last < f.len(),
                score_loop(f, wv, 0, -1, 0, 0, budget) == score_loop(
                    f,
                    wv,
                    wi as int,
                    last as int,
                    consequent as nat,
                    new_alts as nat,
                    budget,
                ),
            decreases wv.len() - wi,
        {
            let word = &words[wi];
            proof {
                assert(wv[wi as int] == words@[wi as int]@);
            }
            let j = self._get_word_index_in_filter(word, filter_index, (last + 1) as u32);
            proof {
                lemma_first_slot_from_range(f, word@, last as int + 1);
            }
            if j >= 0 && j > last {
                last = j;
                consequent = consequent + 1;
            } else {
                new_alts = new_alts + 1;
                if (new_alts as u64) > (self.max_allowed_new_alternatives as u64) + (
                extra as u64) {
                    return 0;
                }
            }
            wi = wi + 1;
        }
        consequent
    }

    /// The ids of every template containing any word of `words`, sorted
    /// ascending: one occurrence per (word, template) reference, so a
    /// template referenced by several input words appears several times.
    #[verifier::loop_isolation(false)]
    pub fn _get_sorted_filter_indexes_containing_words(&self, words: &Vec<String>) -> (r: Vec<u32>)
        requires
            self.wf(),
        ensures
            r@ == sorted_ids(self@, words.deep_view()),
            forall|k: int| 0 <= k < r@.len() ==> (#[trigger] r@[k] as int) < self@.filters.len(),
    {
        let ghost wv = words.deep_view();
        let ghost iv = self@.index;
        let mut out: Vec<u32> = Vec::new();
        proof {
            assert(out@ =~= Seq::<u32>::empty());
        }
        let mut wi: usize = 0;
        while wi < words.len()
            invariant
                0 <= wi <= wv.len(),
                out@ + ids_from(iv, wv, wi as int) =~= ids_from(iv, wv, 0),
            decreases wv.len() - wi,
        {
            let ghost out0 = out@;
            proof {
                assert(wv[wi as int] == words@[wi as int]@);
            }
            match find_key(&self.words_hash, &words[wi]) {
                Option::Some(p) => {
                    let entry = &self.words_hash[p].1;
                    proof {
                        assert(iv[p as int].1 == entry@);
                        assert(index_lookup(iv, wv[wi as int]) == entry@);
                    }
                    let mut k: usize = 0;
                    while k < entry.len()
                        invariant
                            0 <= k <= entry@.len(),
                            out@ =~= out0 + entry@.subrange(0, k as int),
                        decreases entry@.len() - k,
                    {
                        out.push(entry[k]);
                        k = k + 1;
                    }
                    proof {
                        assert(entry@.subrange(0, entry@.len() as int) =~= entry@);
                        assert(out@ =~= out0 + index_lookup(iv, wv[wi as int]));
                    }
                },
                Option::None => {
                    proof {
                        assert(index_lookup(iv, wv[wi as int]) =~= Seq::<u32>::empty());
                        assert(out@ =~= out0 + index_lookup(iv, wv[wi as int]));
                    }
                },
            }
            proof {
                assert(ids_from(iv, wv, wi as int) == index_lookup(iv, wv[wi as int]) + ids_from(
                    iv,
                    wv,
                    wi as int + 1,
                ));
                assert(out@ + ids_from(iv, wv, wi as int + 1) =~= ids_from(iv, wv, 0));
            }
            wi = wi + 1;
        }
        proof {
            assert(ids_from(iv, wv, wv.len() as int) =~= Seq::<u32>::empty());
            assert(out@ =~= ids_from(iv, wv, 0));
        }
        sort_ids(&mut out);
        proof {
            lemma_id_le_total();
            ids_from(iv, wv, 0).lemma_sort_by_ensures(id_le_fn());
            vstd::seq_lib::lemma_sorted_unique(out@, sorted_ids(self@, wv), id_le_fn());
            crate::model::lemma_ids_from_bound(iv, wv, 0, self@.filters.len() as int);
            assert forall|k: int| 0 <= k < out@.len() implies (#[trigger] out@[k] as int)
                < self@.filters.len() by {
                vstd::seq_lib::to_multiset_contains(out@, out@[k]);
                vstd::seq_lib::to_multiset_contains(ids_from(iv, wv, 0), out@[k]);
                assert(out@.contains(out@[k]));
                assert(out@.to_multiset() == ids_from(iv, wv, 0).to_multiset());
                assert(ids_from(iv, wv, 0).contains(out@[k]));
                let x = choose|a: int|
                    0 <= a < ids_from(iv, wv, 0).len() && ids_from(iv, wv, 0)[a] == out@[k];
                assert((ids_from(iv, wv, 0)[x] as int) < self@.filters.len());
            }
        }
        out
    }

    /// The earliest alignment point between `words` and template
    /// `filter_index`: the first input position whose token occurs anywhere
    /// in the template, paired with that token's first slot; (-1, -1) if no
    /// token occurs.
    #[verifier::loop_isolation(false)]
    pub fn _get_first_matching_indexes(&self, words: &Vec<String>, filter_index: u32) -> (r: (
        i32,
        i32,
    ))
        requires
            self.wf(),
            words@.len() <= i32::MAX,
        ensures
            (r.0 as int, r.1 as int) == first_match(self@, words.deep_view(), filter_index as int),
    {
        let ghost wv = words.deep_view();
        if words.len() == 0 || filter_index as usize >= self.filters.len() {
            return (-1, -1);
        }
        let ghost f = self@.filters[filter_index as int];
        let mut wi: usize = 0;
        while wi < words.len()
            invariant
                0 <= wi <= wv.len(),
                first_match_loop(f, wv, 0) == first_match_loop(f, wv, wi as int),
            decreases wv.len() - wi,
        {
            proof {
                assert(wv[wi as int] == words@[wi as int]@);
            }
            let j = self._get_word_index_in_filter(&words[wi], filter_index, 0);
            if j >= 0 {
                proof {
                    assert(first_match_loop(f, wv, wi as int) == (wi as int, j as int));
                }
                return (wi as i32, j);
            }
            wi = wi + 1;
        }
        proof {
            assert(first_match_loop(f, wv, wi as int) == (-1int, -1int));
        }
        (-1, -1)
    }

    /// Folds `words` into template `filter_index`: the tokens before the
    /// earliest alignment point have no slot of their own, so each becomes a
    /// new singleton slot, registered in the index and prepended to the
    /// template in input order. The matcher's acceptance guarantees the
    /// alignment point exists, so no inconsistent case is left to report.
    #[verifier::loop_isolation(false)]
    pub fn _normalise_till_first_match(&mut self, words: &Vec<String>, filter_index: u32)
        requires
            old(self).wf(),
            (filter_index as int) < old(self)@.filters.len(),
            words@.len() <= i32::MAX,
            old(self)@.filters[filter_index as int].len() + words@.len() <= i32::MAX,
            first_match(old(self)@, words.deep_view(), filter_index as int).0 >= 0,
        ensures
            final (self)@ == update_filter_state(
                old(self)@,
                words.deep_view(),
                filter_index as int,
            ),
            final (self).wf(),
    {
        let ghost m0 = self@;
        let ghost wv = words.deep_view();
        let ghost fi = filter_index as int;
        let pair = self._get_first_matching_indexes(words, filter_index);
        let first_word = pair.0;
        let first_filter = pair.1;
        proof {
            lemma_first_match_loop_range(m0.filters[fi], wv, 0);
        }
        if first_word - first_filter > 0 {
            let lead = (first_word - first_filter) as usize;
            let mut k: usize = 0;
            while k < lead
                invariant
                    0 <= k <= lead,
                    lead <= wv.len(),
                    self@.index == register_all_upto(m0.index, wv, k as int, filter_index),
                    self.filters == old(self).filters,
                    self.min_req_consequent_matches == old(self).min_req_consequent_matches,
                    self.max_allowed_new_alternatives == old(self).max_allowed_new_alternatives,
                decreases lead - k,
            {
                proof {
                    assert(wv[k as int] == words@[k as int]@);
                }
                self._update_hash(&words[k], filter_index);
                k = k + 1;
            }
            let ghost idx1 = self@.index;
            let ghost filters1 = self.filters@;
            let fvec = &mut self.filters[filter_index as usize];
            let ghost f0dv = fvec.deep_view();
            proof {
                assert(f0dv == m0.filters[fi]);
            }
            let mut k: usize = 0;
            while k < lead
                invariant
                    0 <= k <= lead,
                    lead <= wv.len(),
                    fvec@.len() == f0dv.len() + k,
                    fvec.deep_view() == singleton_slots(wv, k as int) + f0dv,
                decreases lead - k,
            {
                let ghost prev = fvec.deep_view();
                let mut slot: Vec<String> = Vec::new();
                slot.push(words[k].clone());
                proof {
                    assert(slot.deep_view() =~= seq![wv[k as int]]);
                }
                fvec.insert(k, slot);
                proof {
                    assert(fvec.deep_view() =~= prev.insert(k as int, seq![wv[k as int]]));
                    assert(prev.insert(k as int, seq![wv[k as int]]) =~= singleton_slots(
                        wv,
                        k as int + 1,
                    ) + f0dv);
                }
                k = k + 1;
            }
            proof {
                assert(self@.filters =~= m0.filters.update(
                    fi,
                    singleton_slots(wv, lead as int) + m0.filters[fi],
                ));
                assert(self@.index == idx1);
                assert(self@ == update_filter_state(m0, wv, fi));
                lemma_update_state_wf(m0, wv, fi);
                assert(self.wf()) by {
                    assert(forall|i: int|
                        0 <= i < self@.filters.len() ==> (#[trigger] self@.filters[i]).len()
                            <= i32::MAX as int);
                }
            }
        } else {
            proof {
                assert(self@ == update_filter_state(m0, wv, fi));
            }
        }
    }

    /// Applies an accepted match: normalises the template so that the line's
    /// leading tokens are covered. Interior mismatches tolerated by the
    /// scorer are not recorded as new alternatives.
    pub fn _update_filter(&mut self, words: &Vec<String>, filter_index: u32)
        requires
            old(self).wf(),
            (filter_index as int) < old(self)@.filters.len(),
            words@.len() <= i32::MAX,
            old(self)@.filters[filter_index as int].len() + words@.len() <= i32::MAX,
            first_match(old(self)@, words.deep_view(), filter_index as int).0 >= 0,
        ensures
            final (self)@ == update_filter_state(
                old(self)@,
                words.deep_view(),
                filter_index as int,
            ),
            final (self).wf(),
    {
        self._normalise_till_first_match(words, filter_index);
    }

    /// Creates a new template from `words`: one singleton slot per non-empty
    /// word, appended under the next sequential id, with every word
    /// registered in the index; a line of empty words creates nothing.
    #[verifier::loop_isolation(false)]
    pub fn _add_filter(&mut self, words: &Vec<String>)
        requires
            old(self).wf(),
            old(self)@.filters.len() < i32::MAX as int,
            words@.len() <= i32::MAX,
        ensures
            final (self)@ == add_filter_state(old(self)@, words.deep_view()),
            final (self).wf(),
    {
        let ghost m0 = self@;
        let ghost wv = words.deep_view();
        let ghost pred = |w: Seq<char>| w.len() > 0;
        let expected_index: u32 = self.filters.len() as u32;
        let mut alts: Vec<Vec<String>> = Vec::new();
        proof {
            assert(alts.deep_view() =~= wv.subrange(0, 0).filter(pred).map_values(
                |w: Seq<char>| seq![w],
            )) by {
                reveal(Seq::filter);
                assert(wv.subrange(0, 0) =~= Seq::<Seq<char>>::empty());
            }
        }
        let mut k: usize = 0;
        while k < words.len()
            invariant
                0 <= k <= wv.len(),
                self@.index == register_upto(m0.index, wv, k as int, expected_index),
                self.filters == old(self).filters,
                self.min_req_consequent_matches == old(self).min_req_consequent_matches,
                self.max_allowed_new_alternatives == old(self).max_allowed_new_alternatives,
                alts.deep_view() == wv.subrange(0, k as int).filter(pred).map_values(
                    |w: Seq<char>| seq![w],
                ),
            decreases wv.len() - k,
        {
            let ghost prevdv = alts.deep_view();
            proof {
                assert(wv[k as int] == words@[k as int]@);
            }
            let w = &words[k];
            if !w.as_str().is_empty() {
                self._update_hash(w, expected_index);
                let mut slot: Vec<String> = Vec::new();
                slot.push(w.clone());
                proof {
                    assert(slot.deep_view() =~= seq![wv[k as int]]);
                }
                alts.push(slot);
                proof {
                    assert(alts.deep_view() =~= prevdv.push(seq![wv[k as int]]));
                }
            }
            proof {
                reveal(Seq::filter);
                assert(wv.subrange(0, k as int + 1).drop_last() =~= wv.subrange(0, k as int));
                assert(wv.subrange(0, k as int + 1).last() == wv[k as int]);
                if pred(wv[k as int]) {
                    assert(wv.subrange(0, k as int + 1).filter(pred) == wv.subrange(
                        0,
                        k as int,
                    ).filter(pred).push(wv[k as int]));
                    assert(alts.deep_view() =~= wv.subrange(0, k as int + 1).filter(
                        pred,
                    ).map_values(|w2: Seq<char>| seq![w2]));
                } else {
                    assert(wv.subrange(0, k as int + 1).filter(pred) == wv.subrange(
                        0,
                        k as int,
                    ).filter(pred));
                }
            }
            k = k + 1;
        }
        proof {
            assert(wv.subrange(0, wv.len() as int) =~= wv);
        }
        if alts.len() > 0 {
            let ghost filters0 = self@.filters;
            self.filters.push(alts);
            proof {
                assert(self@.filters =~= filters0.push(
                    wv.filter(pred).map_values(|w: Seq<char>| seq![w]),
                ));
            }
        }
        proof {
            assert(wv.filter(pred).len() > 0 <==> alts.deep_view().len() > 0);
            assert(self@ == add_filter_state(m0, wv));
            lemma_add_state_wf(m0, wv);
            assert(final (self).wf()) by {
                assert(forall|i: int|
                    0 <= i < self@.filters.len() && i < m0.filters.len()
                        ==> (#[trigger] self@.filters[i]).len() <= i32::MAX as int);
                if self@.filters.len() > m0.filters.len() {
                    wv.lemma_filter_len(pred);
                    assert(self@.filters[m0.filters.len() as int].len() <= wv.len());
                }
            }
        }
    }

    /// Whether any slot of template `filter_index` offers `word`; false for
    /// an id outside the store.
    #[verifier::loop_isolation(false)]
    pub fn _is_word_in_filter(&self, word: &String, filter_index: u32) -> (r: bool)
        ensures
            r == ((filter_index as int) < self@.filters.len() && template_has_word(
                self@.filters[filter_index as int],
                word@,
            )),
    {
        if filter_index as usize >= self.filters.len() {
            return false;
        }
        let filter = &self.filters[filter_index as usize];
        let ghost f = self@.filters[filter_index as int];
        proof {
            assert(f == filter.deep_view());
        }
        let mut si: usize = 0;
        while si < filter.len()
            invariant
                f == filter.deep_view(),
                f.len() == filter@.len(),
                0 <= si <= f.len(),
                forall|a: int| 0 <= a < si ==> !slot_has_word(#[trigger] f[a], word@),
            decreases f.len() - si,
        {
            if slot_contains_word(&filter[si], word) {
                proof {
                    assert(filter.deep_view()[si as int] == filter@[si as int].deep_view());
                    assert(slot_has_word(f[si as int], word@));
                    assert(template_has_word(f, word@));
                }
                return true;
            }
            proof {
                assert(filter.deep_view()[si as int] == filter@[si as int].deep_view());
            }
            si = si + 1;
        }
        false
    }
}

impl LogFilters {
    /// Registers the pair (`word`, `filter_index`) in the word index: a new
    /// word gets a fresh singleton entry; a known word has the id appended
    /// and the entry re-sorted ascending, unless the id is already present
    /// (idempotent insert).
    pub fn _update_hash(&mut self, word: &String, filter_index: u32)
        ensures
            final (self)@.index == index_register(old(self)@.index, word@, filter_index),
            final (self).filters == old(self).filters,
            final (self).min_req_consequent_matches == old(self).min_req_consequent_matches,
            final (self).max_allowed_new_alternatives == old(self).max_allowed_new_alternatives,
    {
        let ghost idx0 = self@.index;
        match find_key(&self.words_hash, word) {
            Option::None => {
                let key = word.clone();
                let mut ids: Vec<u32> = Vec::new();
                ids.push(filter_index);
                proof {
                    assert(key@ == word@);
                    assert(ids@ =~= seq![filter_index]);
                }
                self.words_hash.push((key, ids));
                proof {
                    assert(self@.index =~= idx0.push((word@, seq![filter_index])));
                }
            },
            Option::Some(p) => {
                let pair = self.words_hash.remove(p);
                let (key, mut entry) = pair;
                let ghost e0 = entry@;
                if !entry_contains(&entry, filter_index) {
                    entry.push(filter_index);
                    sort_ids(&mut entry);
                    proof {
                        lemma_id_le_total();
                        e0.push(filter_index).lemma_sort_by_ensures(id_le_fn());
                        vstd::seq_lib::lemma_sorted_unique(
                            entry@,
                            e0.push(filter_index).sort_by(id_le_fn()),
                            id_le_fn(),
                        );
                        assert(entry@ == entry_add(e0, filter_index));
                    }
                } else {
                    proof {
                        assert(entry@ == entry_add(e0, filter_index));
                    }
                }
                self.words_hash.insert(p, (key, entry));
                proof {
                    assert(idx0[p as int].0 == key@);
                    assert(idx0[p as int].1 == e0);
                    assert(self@.index =~= idx0.update(
                        p as int,
                        (idx0[p as int].0, entry_add(idx0[p as int].1, filter_index)),
                    ));
                }
            },
        }
    }
}

/// Position of the entry for `word` in the index, if any.
#[verifier::loop_isolation(false)]
fn find_key(idx: &Vec<(String, Vec<u32>)>, word: &String) -> (r: Option<usize>)
    ensures
        match r {
            Option::Some(p) => p < idx@.len() && key_pos(index_view(idx@), word@) == p as int,
            Option::None => key_pos(index_view(idx@), word@) == -1,
        },
{
    let ghost iv = index_view(idx@);
    let mut p: usize = 0;
    while p < idx.len()
        invariant
            0 <= p <= idx@.len(),
            key_pos_from(iv, word@, 0) == key_pos_from(iv, word@, p as int),
        decreases idx@.len() - p,
    {
        if str_eq(&idx[p].0, word) {
            proof {
                assert(iv[p as int].0 == word@);
            }
            return Option::Some(p);
        }
        proof {
            assert(iv[p as int].0 != word@);
        }
        p = p + 1;
    }
    Option::None
}

/// Whether the id list already holds `id`.
#[verifier::loop_isolation(false)]
fn entry_contains(e: &Vec<u32>, id: u32) -> (r: bool)
    ensures
        r == e@.contains(id),
{
    let mut k: usize = 0;
    while k < e.len()
        invariant
            0 <= k <= e@.len(),
            forall|a: int| 0 <= a < k ==> e@[a] != id,
        decreases e@.len() - k,
    {
        if e[k] == id {
            return true;
        }
        k = k + 1;
    }
    false
}

/// Whether two strings hold the same characters.
fn str_eq(a: &String, b: &String) -> (r: bool)
    ensures
        r == (a@ == b@),
{
    a.eq(b)
}

/// Whether some alternative of `slot` equals `word`.
fn slot_contains_word(slot: &Vec<String>, word: &String) -> (r: bool)
    ensures
        r == slot_has_word(slot.deep_view(), word@),
{
    let mut k: usize = 0;
    while k < slot.len()
        invariant
            0 <= k <= slot@.len(),
            forall|a: int| 0 <= a < k ==> slot.deep_view()[a] != word@,
        decreases slot@.len() - k,
    {
        if str_eq(&slot[k], word) {
            proof {
                assert(slot.deep_view()[k as int] == word@);
            }
            return true;
        }
        k = k + 1;
    }
    false
}

} // verus!
