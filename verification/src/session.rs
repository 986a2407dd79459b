//! One spell-checking session: the text buffer, the spell checker over it,
//! and the selection state for misspellings and suggestions, with the
//! accept-a-suggestion edit that splices the corrected word into the buffer
//! and keeps every remaining misspelling correctly positioned.
use vstd::prelude::*;

use crate::spellchecker::{
    misspelling_models, scan_misspellings, spec_next_suggestion_index,
    spec_previous_suggestion_index, spec_parse_corpus_line, LoadError, MisspellingModel,
    Spellchecker,
};
use crate::spellchecker::algorithm::dict_views;
use crate::text::trim_spec;
use crate::text::{
    char_is_uppercase, chars_to_string, is_upper, lower_chars_of, str_chars_vec, upper_chars_of,
};

verus! {

// ---------------------------------------------------------------------------
// Positional case matching.
// ---------------------------------------------------------------------------
/// The characters that `tgt` becomes when forced to the case of `src`:
/// its uppercase mapping when `src` is uppercase, its lowercase mapping
/// otherwise.
pub open spec fn spec_case_char(src: char, tgt: char) -> Seq<char> {
    if is_upper(src) {
        upper_chars_of(tgt)
    } else {
        lower_chars_of(tgt)
    }
}

/// The result of matching the case of `target` to `source`, position by
/// position: while `source` still has a character, the corresponding `target`
/// character is forced to its case; once `source` is exhausted the rest of
/// `target` is kept unchanged.
pub open spec fn match_case_spec(source: Seq<char>, target: Seq<char>) -> Seq<char>
    decreases target.len(),
{
    if target.len() == 0 {
        Seq::empty()
    } else if source.len() == 0 {
        target
    } else {
        spec_case_char(source[0], target[0]) + match_case_spec(source.skip(1), target.skip(1))
    }
}

/// Matches the case of `target` to that of `source`, character position by
/// character position; characters of `target` beyond the length of `source`
/// are kept unchanged.
pub fn match_case(source: &str, target: &mut String)
    ensures
        final(target)@ == match_case_spec(source@, old(target)@),
{
    let src = str_chars_vec(source);
    let tgt = str_chars_vec(target.as_str());
    let ghost sv = source@;
    let ghost tv = old(target)@;
    let mut out: Vec<char> = Vec::new();
    let mut k: usize = 0;
    proof {
        assert(sv.skip(0) =~= sv);
        assert(tv.skip(0) =~= tv);
    }
    while k < tgt.len()
        invariant
            src@ == sv,
            tgt@ == tv,
            0 <= k <= tv.len(),
            match_case_spec(sv, tv) == out@ + match_case_spec(
                sv.skip(if k < sv.len() {
                    k as int
                } else {
                    sv.len() as int
                }),
                tv.skip(k as int),
            ),
        decreases tv.len() - k,
    {
        let tc = tgt[k];
        let ghost s_rest = sv.skip(
            if k < sv.len() {
                k as int
            } else {
                sv.len() as int
            },
        );
        let ghost t_rest = tv.skip(k as int);
        proof {
            assert(t_rest[0] == tv[k as int]);
            assert(t_rest.skip(1) =~= tv.skip(k as int + 1));
        }
        if k < src.len() {
            let sc = src[k];
            proof {
                assert(s_rest[0] == sv[k as int]);
                assert(s_rest.skip(1) =~= sv.skip(k as int + 1));
                if k as int + 1 >= sv.len() {
                    assert(sv.skip(sv.len() as int) =~= sv.skip(k as int + 1));
                }
            }
            let mut cased: Vec<char> = if char_is_uppercase(sc) {
                crate::text::char_to_uppercase(tc)
            } else {
                crate::text::char_to_lowercase(tc)
            };
            proof {
                assert(cased@ == spec_case_char(sv[k as int], tv[k as int]));
            }
            out.append(&mut cased);
        } else {
            proof {
                assert(s_rest.len() == 0);
                assert(s_rest =~= Seq::<char>::empty());
                assert(match_case_spec(s_rest, t_rest) == t_rest);
                assert(t_rest =~= seq![tv[k as int]] + tv.skip(k as int + 1));
                assert(match_case_spec(s_rest, tv.skip(k as int + 1)) == tv.skip(k as int + 1));
            }
            out.push(tc);
        }
        k = k + 1;
    }
    proof {
        assert(tv.skip(tv.len() as int) =~= Seq::<char>::empty());
        assert(out@ + Seq::<char>::empty() =~= out@);
    }
    let replacement = chars_to_string(&out);
    *target = replacement;
}

// ---------------------------------------------------------------------------
// Selection state.
// ---------------------------------------------------------------------------
/// What reconciling a selection with a new misspelling count yields: no
/// selection stays none; with nothing left the selection is cleared; the
/// wrapped-past-zero sentinel clamps to the last index; an index past the end
/// re-wraps to the start; any other index stays.
pub open spec fn spec_reconcile(sel: Option<usize>, count: int) -> Option<usize> {
    match sel {
        None => None,
        Some(i) => if count == 0 {
            None
        } else if i == usize::MAX {
            Some((count - 1) as usize)
        } else if i > count - 1 {
            Some(0usize)
        } else {
            Some(i)
        },
    }
}

/// What selecting the next misspelling yields: none when there are no
/// misspellings; the first with no current selection; otherwise the next
/// index, wrapping past the end to the first.
pub open spec fn spec_select_next(sel: Option<usize>, count: int) -> Option<usize> {
    if count == 0 {
        None
    } else {
        match sel {
            None => spec_reconcile(Some(0usize), count),
            Some(i) => spec_reconcile(Some((i + 1) as usize), count),
        }
    }
}

/// What selecting the previous misspelling yields: none when there are no
/// misspellings; the first with no current selection; otherwise the previous
/// index, wrapping below zero to the last.
pub open spec fn spec_select_previous(sel: Option<usize>, count: int) -> Option<usize> {
    if count == 0 {
        None
    } else {
        match sel {
            None => spec_reconcile(Some(0usize), count),
            Some(i) => if i == 0 {
                spec_reconcile(Some(usize::MAX), count)
            } else {
                spec_reconcile(Some((i - 1) as usize), count)
            },
        }
    }
}

/// Selecting the next misspelling, `times` times in a row.
pub open spec fn iter_select_next(sel: Option<usize>, count: int, times: nat) -> Option<usize>
    decreases times,
{
    if times == 0 {
        sel
    } else {
        iter_select_next(spec_select_next(sel, count), count, (times - 1) as nat)
    }
}

/// Selecting the previous misspelling, `times` times in a row.
pub open spec fn iter_select_previous(sel: Option<usize>, count: int, times: nat) -> Option<usize>
    decreases times,
{
    if times == 0 {
        sel
    } else {
        iter_select_previous(spec_select_previous(sel, count), count, (times - 1) as nat)
    }
}

proof fn lemma_iter_next_value(k: int, n: int, t: nat)
    requires
        0 <= k < n < usize::MAX,
        t <= n,
    ensures
        iter_select_next(Some(k as usize), n, t) == Some(
            (if k + t < n {
                k + t
            } else {
                k + t - n
            }) as usize,
        ),
    decreases t,
{
    if t > 0 {
        let v: int = if k + 1 < n {
            k + 1
        } else {
            0
        };
        assert(spec_select_next(Some(k as usize), n) == Some(v as usize));
        lemma_iter_next_value(v, n, (t - 1) as nat);
        assert(iter_select_next(Some(k as usize), n, t) == iter_select_next(
            Some(v as usize),
            n,
            (t - 1) as nat,
        ));
    }
}

/// With `n` misspellings and a selection, selecting the next misspelling `n`
/// times in a row returns to the original selection. (The count must be
/// below the wrapped-past-zero sentinel, which is never a real index.)
pub proof fn lemma_select_next_wraps_around(k: int, n: int)
    requires
        0 <= k < n < usize::MAX,
    ensures
        iter_select_next(Some(k as usize), n, n as nat) == Some(k as usize),
{
    lemma_iter_next_value(k, n, n as nat);
}

proof fn lemma_iter_previous_value(k: int, n: int, t: nat)
    requires
        0 <= k < n <= usize::MAX,
    ensures
        t <= n ==> iter_select_previous(Some(k as usize), n, t) == Some(
            (if k - t >= 0 {
                k - t
            } else {
                k - t + n
            }) as usize,
        ),
    decreases t,
{
    if t > 0 && t <= n {
        let v: int = if k == 0 {
            n - 1
        } else {
            k - 1
        };
        assert(spec_select_previous(Some(k as usize), n) == Some(v as usize));
        lemma_iter_previous_value(v, n, (t - 1) as nat);
    }
}

/// With `n` misspellings and a selection, selecting the previous misspelling
/// `n` times in a row returns to the original selection.
pub proof fn lemma_select_previous_wraps_around(k: int, n: int)
    requires
        0 <= k < n <= usize::MAX,
    ensures
        iter_select_previous(Some(k as usize), n, n as nat) == Some(k as usize),
{
    lemma_iter_previous_value(k, n, n as nat);
}

// ---------------------------------------------------------------------------
// The session.
// ---------------------------------------------------------------------------
/// A spell-checking session: the buffer as a character sequence, the spell
/// checker with its current misspelling list, and the selection state.
pub struct Session {
    pub buffer: Vec<char>,
    pub spellchecker: Spellchecker,
    pub selected_misspelling: Option<usize>,
    pub selected_suggestion: Option<usize>,
}

impl Session {
    /// The models of the current misspellings, in list order.
    pub open spec fn miss_models(&self) -> Seq<MisspellingModel> {
        misspelling_models(self.spellchecker.misspellings@)
    }

    /// The session is consistent: the spell checker is usable, the
    /// misspelling spans lie within the buffer, sorted and pairwise
    /// non-overlapping, and any selected misspelling index is in range.
    pub open spec fn wf(&self) -> bool {
        &&& self.spellchecker.wf()
        &&& forall|k: int|
            0 <= k < self.miss_models().len() ==> {
                &&& 0 <= (#[trigger] self.miss_models()[k]).start
                &&& self.miss_models()[k].start <= self.miss_models()[k].end
                &&& self.miss_models()[k].end < self.buffer@.len()
            }
        &&& forall|k: int|
            0 <= k < self.miss_models().len() - 1 ==> (#[trigger] self.miss_models()[k]).end
                < self.miss_models()[k + 1].start
        &&& match self.selected_misspelling {
            None => true,
            Some(i) => i < self.miss_models().len(),
        }
    }

    /// Open a session on the given buffer, with the dictionary and corpus
    /// lines as `Spellchecker::new` takes them.
    pub fn new(buffer: String, dict_lines: Vec<String>, corpus_lines: Vec<String>) -> (r: Result<
        Session,
        LoadError,
    >)
        ensures
            r is Ok <==> dict_lines@.len() > 0 && (forall|k: int|
                0 <= k < corpus_lines@.len() ==> spec_parse_corpus_line(
                    (#[trigger] corpus_lines@[k])@,
                ) is Some),
            r matches Ok(s) ==> {
                &&& s.wf()
                &&& s.buffer@ == buffer@
                &&& s.miss_models().len() == 0
                &&& s.selected_misspelling is None
                &&& s.selected_suggestion is None
                &&& dict_views(s.spellchecker.dict@).to_multiset() == dict_lines@.map_values(
                    |l: String| trim_spec(l@),
                ).to_multiset()
                &&& s.spellchecker.corpus_model().len() == corpus_lines@.len()
                &&& forall|k: int|
                    0 <= k < corpus_lines@.len() ==> Some(
                        #[trigger] s.spellchecker.corpus_model()[k],
                    ) == spec_parse_corpus_line(corpus_lines@[k]@)
            },
            r == Err::<Session, LoadError>(LoadError::EmptyDictionary) <==> dict_lines@.len()
                == 0,
            r matches Err(LoadError::MalformedCorpusLine(k)) ==> k < corpus_lines@.len()
                && spec_parse_corpus_line(corpus_lines@[k as int]@) is None && (forall|l: int|
                0 <= l < k ==> spec_parse_corpus_line((#[trigger] corpus_lines@[l])@) is Some),
    {
        let spellchecker = match Spellchecker::new(dict_lines, corpus_lines) {
            Ok(s) => s,
            Err(e) => {
                return Err(e);
            },
        };
        let chars = str_chars_vec(buffer.as_str());
        let session = Session {
            buffer: chars,
            spellchecker,
            selected_misspelling: None,
            selected_suggestion: None,
        };
        proof {
            assert(session.miss_models() =~= Seq::<MisspellingModel>::empty());
        }
        Ok(session)
    }

    /// The buffer's current contents.
    pub fn get_buffer(&self) -> (r: String)
        ensures
            r@ == self.buffer@,
    {
        chars_to_string(&self.buffer)
    }

    /// Scan the buffer and replace the misspelling list, reconciling the
    /// selection with the new count.
    pub fn check_spelling(&mut self)
        requires
            old(self).wf(),
        ensures
            final(self).wf(),
            final(self).buffer == old(self).buffer,
            final(self).spellchecker.dict_model() == old(self).spellchecker.dict_model(),
            final(self).spellchecker.corpus_model() == old(self).spellchecker.corpus_model(),
            final(self).miss_models() == scan_misspellings(
                old(self).buffer@,
                final(self).spellchecker.dict_model(),
                0,
                0,
            ),
            final(self).selected_misspelling == spec_reconcile(
                old(self).selected_misspelling,
                final(self).miss_models().len() as int,
            ),
            final(self).selected_suggestion == old(self).selected_suggestion,
    {
        let text = chars_to_string(&self.buffer);
        self.spellchecker.check(text.as_str());
        proof {
            crate::spellchecker::lemma_scan_misspellings_ordered(
                self.buffer@,
                self.spellchecker.dict_model(),
            );
        }
        let count = self.spellchecker.misspellings.len();
        self.selected_misspelling_inbound(count);
    }

    /// Whether a misspelling is currently selected.
    fn is_misspelling_selected(&self) -> (r: bool)
        ensures
            r == (self.selected_misspelling is Some),
    {
        self.selected_misspelling.is_some()
    }

    /// Reconcile the selected misspelling with a changed count, as
    /// `spec_reconcile` says.
    fn selected_misspelling_inbound(&mut self, misspellings_count: usize)
        ensures
            final(self).buffer == old(self).buffer,
            final(self).spellchecker == old(self).spellchecker,
            final(self).selected_suggestion == old(self).selected_suggestion,
            final(self).selected_misspelling == spec_reconcile(
                old(self).selected_misspelling,
                misspellings_count as int,
            ),
    {
        if !self.is_misspelling_selected() {
            return ;
        }
        if misspellings_count == 0 {
            self.selected_misspelling = None;
            return ;
        }
        let current = match self.selected_misspelling {
            Some(i) => i,
            None => 0,
        };
        if current == usize::MAX {
            self.selected_misspelling = Some(misspellings_count - 1);
            return ;
        }
        if current > misspellings_count - 1 {
            self.selected_misspelling = Some(0);
        }
    }

    /// Select the next misspelling, wrapping past the end to the first.
    pub fn select_next_misspelling(&mut self)
        requires
            old(self).wf(),
        ensures
            final(self).wf(),
            final(self).buffer == old(self).buffer,
            final(self).spellchecker == old(self).spellchecker,
            final(self).selected_suggestion == old(self).selected_suggestion,
            final(self).selected_misspelling == spec_select_next(
                old(self).selected_misspelling,
                old(self).miss_models().len() as int,
            ),
    {
        let count = self.spellchecker.misspellings.len();
        if count == 0 {
            self.selected_misspelling = None;
            return ;
        }
        if !self.is_misspelling_selected() {
            self.selected_misspelling = Some(0);
        } else {
            let current = match self.selected_misspelling {
                Some(i) => i,
                None => 0,
            };
            self.selected_misspelling = Some(current + 1);
        }
        self.selected_misspelling_inbound(count);
    }

    /// Select the previous misspelling, wrapping below the first to the last.
    pub fn select_previous_misspelling(&mut self)
        requires
            old(self).wf(),
        ensures
            final(self).wf(),
            final(self).buffer == old(self).buffer,
            final(self).spellchecker == old(self).spellchecker,
            final(self).selected_suggestion == old(self).selected_suggestion,
            final(self).selected_misspelling == spec_select_previous(
                old(self).selected_misspelling,
                old(self).miss_models().len() as int,
            ),
    {
        let count = self.spellchecker.misspellings.len();
        if count == 0 {
            self.selected_misspelling = None;
            return ;
        }
        if !self.is_misspelling_selected() {
            self.selected_misspelling = Some(0);
        } else {
            let current = match self.selected_misspelling {
                Some(i) => i,
                None => 0,
            };
            if current == 0 {
                self.selected_misspelling = Some(usize::MAX);
            } else {
                self.selected_misspelling = Some(current - 1);
            }
        }
        self.selected_misspelling_inbound(count);
    }

    /// Select the next suggestion of the selected misspelling; a no-op when
    /// no misspelling is selected.
    pub fn select_next_suggestion(&mut self)
        requires
            old(self).wf(),
        ensures
            final(self).wf(),
            final(self).buffer == old(self).buffer,
            final(self).spellchecker == old(self).spellchecker,
            final(self).selected_misspelling == old(self).selected_misspelling,
            final(self).selected_suggestion == match old(self).selected_misspelling {
                None => old(self).selected_suggestion,
                Some(i) => spec_next_suggestion_index(
                    old(self).miss_models()[i as int].suggestions.len() as int,
                    old(self).selected_suggestion,
                ),
            },
    {
        let idx = match self.selected_misspelling {
            None => {
                return ;
            },
            Some(i) => i,
        };
        let next = self.spellchecker.misspellings[idx].get_next_suggestion_index(
            self.selected_suggestion,
        );
        self.selected_suggestion = next;
    }

    /// Select the previous suggestion of the selected misspelling; a no-op
    /// when no misspelling is selected.
    pub fn select_previous_suggestion(&mut self)
        requires
            old(self).wf(),
        ensures
            final(self).wf(),
            final(self).buffer == old(self).buffer,
            final(self).spellchecker == old(self).spellchecker,
            final(self).selected_misspelling == old(self).selected_misspelling,
            final(self).selected_suggestion == match old(self).selected_misspelling {
                None => old(self).selected_suggestion,
                Some(i) => spec_previous_suggestion_index(
                    old(self).miss_models()[i as int].suggestions.len() as int,
                    old(self).selected_suggestion,
                ),
            },
    {
        let idx = match self.selected_misspelling {
            None => {
                return ;
            },
            Some(i) => i,
        };
        let previous = self.spellchecker.misspellings[idx].get_previous_suggestion_index(
            self.selected_suggestion,
        );
        self.selected_suggestion = previous;
    }

    /// Compute suggestions for the selected misspelling; a no-op when no
    /// misspelling is selected, and when that entry already has suggestions.
    pub fn suggest_selected(&mut self)
        requires
            old(self).wf(),
        ensures
            final(self).wf(),
            final(self).buffer == old(self).buffer,
            final(self).selected_misspelling == old(self).selected_misspelling,
            final(self).selected_suggestion == old(self).selected_suggestion,
            final(self).spellchecker.dict_model() == old(self).spellchecker.dict_model(),
            final(self).spellchecker.corpus_model() == old(self).spellchecker.corpus_model(),
            final(self).miss_models().len() == old(self).miss_models().len(),
            old(self).selected_misspelling is None ==> final(self).spellchecker == old(
                self,
            ).spellchecker,
            forall|k: int|
                0 <= k < old(self).miss_models().len() ==> {
                    &&& (#[trigger] final(self).miss_models()[k]).word == old(
                        self,
                    ).miss_models()[k].word
                    &&& final(self).miss_models()[k].start == old(self).miss_models()[k].start
                    &&& final(self).miss_models()[k].end == old(self).miss_models()[k].end
                },
            old(self).selected_misspelling matches Some(i) ==> (old(
                self,
            ).miss_models()[i as int].suggestions.len() == 0
                ==> crate::spellchecker::ranked_suggestions(
                crate::text::lower_of(old(self).miss_models()[i as int].word),
                old(self).spellchecker.corpus_model(),
                final(self).miss_models()[i as int].suggestions,
            )),
    {
        let idx = match self.selected_misspelling {
            None => {
                return ;
            },
            Some(i) => i,
        };
        self.spellchecker.suggest(idx);
        proof {
            assert forall|k: int| 0 <= k < old(self).miss_models().len() implies {
                &&& (#[trigger] self.miss_models()[k]).word == old(self).miss_models()[k].word
                &&& self.miss_models()[k].start == old(self).miss_models()[k].start
                &&& self.miss_models()[k].end == old(self).miss_models()[k].end
            } by {
                if k != idx {
                    assert(self.spellchecker.misspellings@[k] == old(
                        self,
                    ).spellchecker.misspellings@[k]);
                }
            }
        }
    }

    /// The suggestions of the selected misspelling, or None when no
    /// misspelling is selected.
    pub fn get_suggestions(&self) -> (r: Option<&Vec<String>>)
        requires
            self.wf(),
        ensures
            match self.selected_misspelling {
                None => r is None,
                Some(i) => r matches Some(v) && v.deep_view()
                    == self.miss_models()[i as int].suggestions,
            },
    {
        match self.selected_misspelling {
            None => None,
            Some(i) => Some(self.spellchecker.get_suggestions(i)),
        }
    }

    /// The selected misspelling's word, or None when no misspelling is
    /// selected.
    pub fn get_misspelled_word(&self) -> (r: Option<String>)
        requires
            self.wf(),
        ensures
            match self.selected_misspelling {
                None => r is None,
                Some(i) => r matches Some(w) && w@ == self.miss_models()[i as int].word,
            },
    {
        match self.selected_misspelling {
            None => None,
            Some(i) => Some(self.spellchecker.misspellings[i].get_word().clone()),
        }
    }
}

/// In a list whose spans are each well-formed and pairwise non-overlapping in
/// order, every earlier entry ends strictly before every later entry starts.
pub proof fn lemma_models_ordered_pairwise(ms: Seq<MisspellingModel>, i: int, j: int)
    requires
        forall|k: int|
            0 <= k < ms.len() ==> (#[trigger] ms[k]).start <= ms[k].end,
        forall|k: int| 0 <= k < ms.len() - 1 ==> (#[trigger] ms[k]).end < ms[k + 1].start,
        0 <= i < j < ms.len(),
    ensures
        ms[i].end < ms[j].start,
        ms[i].start < ms[j].start,
    decreases j - i,
{
    if i + 1 < j {
        lemma_models_ordered_pairwise(ms, i + 1, j);
    }
}

/// In a sorted, non-overlapping list, the entries after position `i` are
/// exactly those whose start exceeds the start of the entry at `i`: so
/// shifting the entries after a removed position shifts exactly the entries
/// that started after the removed one.
pub proof fn lemma_later_entries_start_later(ms: Seq<MisspellingModel>, i: int, k: int)
    requires
        forall|x: int|
            0 <= x < ms.len() ==> (#[trigger] ms[x]).start <= ms[x].end,
        forall|x: int| 0 <= x < ms.len() - 1 ==> (#[trigger] ms[x]).end < ms[x + 1].start,
        0 <= i < ms.len(),
        0 <= k < ms.len(),
    ensures
        (k > i) <==> ms[k].start > ms[i].start,
{
    if k > i {
        lemma_models_ordered_pairwise(ms, i, k);
    } else if k < i {
        lemma_models_ordered_pairwise(ms, k, i);
    }
}

impl Session {
    /// Accept the selected suggestion for the selected misspelling: remove
    /// that misspelling, splice the case-matched suggestion over its span in
    /// the buffer, shift every later misspelling by the change in length, and
    /// reconcile the selection with the new count. A no-op when no
    /// misspelling or no suggestion is selected. The selected suggestion
    /// index must be valid for the selected misspelling.
    pub fn accept_suggestion(&mut self)
        requires
            old(self).wf(),
            match (old(self).selected_misspelling, old(self).selected_suggestion) {
                (Some(i), Some(j)) => j < old(self).miss_models()[i as int].suggestions.len(),
                _ => true,
            },
        ensures
            final(self).wf(),
            final(self).spellchecker.dict_model() == old(self).spellchecker.dict_model(),
            final(self).spellchecker.corpus_model() == old(self).spellchecker.corpus_model(),
            final(self).selected_suggestion == old(self).selected_suggestion,
            (old(self).selected_misspelling is None || old(self).selected_suggestion is None)
                ==> *final(self) == *old(self),
            match (old(self).selected_misspelling, old(self).selected_suggestion) {
                (Some(i), Some(j)) => {
                    let m = old(self).miss_models()[i as int];
                    let adjusted = match_case_spec(m.word, m.suggestions[j as int]);
                    let mlen = m.end - m.start + 1;
                    let delta = adjusted.len() - mlen;
                    &&& final(self).buffer@ == old(self).buffer@.subrange(0, m.start) + adjusted
                        + old(self).buffer@.subrange(m.end + 1, old(self).buffer@.len() as int)
                    &&& final(self).buffer@.len() == old(self).buffer@.len() + delta
                    &&& final(self).miss_models().len() == old(self).miss_models().len() - 1
                    &&& forall|k: int|
                        0 <= k < i ==> #[trigger] final(self).miss_models()[k] == old(
                            self,
                        ).miss_models()[k]
                    &&& forall|k: int|
                        i <= k < final(self).miss_models().len() ==> {
                            &&& (#[trigger] final(self).miss_models()[k]).word == old(
                                self,
                            ).miss_models()[k + 1].word
                            &&& final(self).miss_models()[k].suggestions == old(
                                self,
                            ).miss_models()[k + 1].suggestions
                            &&& final(self).miss_models()[k].start == old(self).miss_models()[k
                                + 1].start + delta
                            &&& final(self).miss_models()[k].end == old(self).miss_models()[k
                                + 1].end + delta
                        }
                    &&& final(self).selected_misspelling == spec_reconcile(
                        Some(i),
                        final(self).miss_models().len() as int,
                    )
                },
                _ => true,
            },
    {
        let i = match self.selected_misspelling {
            None => {
                return ;
            },
            Some(i) => i,
        };
        let j = match self.selected_suggestion {
            None => {
                return ;
            },
            Some(j) => j,
        };
        let ghost pre_models = self.miss_models();
        let ghost pre_buf = self.buffer@;
        let selected = self.spellchecker.misspellings.remove(i);
        proof {
            assert(selected == old(self).spellchecker.misspellings@[i as int]);
            assert(selected@ == pre_models[i as int]);
            assert forall|k: int| 0 <= k < self.miss_models().len() implies #[trigger] self.miss_models()[k]
                == (if k < i {
                pre_models[k]
            } else {
                pre_models[k + 1]
            }) by {
                assert(self.spellchecker.misspellings@[k] == old(
                    self,
                ).spellchecker.misspellings@.remove(i as int)[k]);
            }
        }
        let suggestions_ref = selected.get_suggestions();
        proof {
            assert(suggestions_ref@.len() == pre_models[i as int].suggestions.len());
            assert(suggestions_ref@[j as int]@ == pre_models[i as int].suggestions[j as int]);
        }
        let mut suggestion: String = suggestions_ref[j].clone();
        match_case(selected.get_word().as_str(), &mut suggestion);
        let ghost adjusted = match_case_spec(
            pre_models[i as int].word,
            pre_models[i as int].suggestions[j as int],
        );
        proof {
            assert(suggestion@ == adjusted);
        }
        let adj = str_chars_vec(suggestion.as_str());
        let start = selected.get_start();
        let end = selected.get_end();
        let buf_len = self.buffer.len();
        proof {
            assert(start <= end < buf_len);
        }
        let misspelling_len = end - start + 1;

        // Splice: keep the buffer up to the misspelling, insert the adjusted
        // suggestion, keep the buffer after the misspelling.
        let mut nb: Vec<char> = Vec::new();
        let mut p: usize = 0;
        while p < start
            invariant
                0 <= p <= start,
                start <= end < self.buffer@.len(),
                self.buffer@ == pre_buf,
                nb@ == pre_buf.subrange(0, p as int),
            decreases start - p,
        {
            nb.push(self.buffer[p]);
            proof {
                assert(nb@ =~= pre_buf.subrange(0, p + 1));
            }
            p = p + 1;
        }
        let mut q: usize = 0;
        while q < adj.len()
            invariant
                0 <= q <= adj@.len(),
                start <= end < self.buffer@.len(),
                self.buffer@ == pre_buf,
                adj@ == adjusted,
                nb@ == pre_buf.subrange(0, start as int) + adjusted.take(q as int),
            decreases adj@.len() - q,
        {
            nb.push(adj[q]);
            proof {
                assert(nb@ =~= pre_buf.subrange(0, start as int) + adjusted.take(q + 1));
            }
            q = q + 1;
        }
        proof {
            assert(adjusted.take(adjusted.len() as int) =~= adjusted);
        }
        let mut p: usize = end + 1;
        while p < self.buffer.len()
            invariant
                end + 1 <= p <= self.buffer@.len(),
                start <= end < self.buffer@.len(),
                self.buffer@ == pre_buf,
                nb@ == pre_buf.subrange(0, start as int) + adjusted + pre_buf.subrange(
                    end + 1,
                    p as int,
                ),
            decreases self.buffer@.len() - p,
        {
            nb.push(self.buffer[p]);
            proof {
                assert(pre_buf.subrange(end + 1, p + 1) =~= pre_buf.subrange(end + 1, p as int).push(
                    pre_buf[p as int],
                ));
                assert(nb@ =~= pre_buf.subrange(0, start as int) + adjusted + pre_buf.subrange(
                    end + 1,
                    p + 1,
                ));
            }
            p = p + 1;
        }
        self.buffer = nb;
        let new_buf_len = self.buffer.len();
        proof {
            assert(self.buffer@ == pre_buf.subrange(0, start as int) + adjusted + pre_buf.subrange(
                end + 1,
                pre_buf.len() as int,
            ));
            assert(new_buf_len == start + adjusted.len() + (pre_buf.len() - end - 1));
            // the entries after the removed one start beyond its whole span
            assert forall|k: int|
                i <= k < self.miss_models().len() implies {
                    &&& misspelling_len <= (#[trigger] self.miss_models()[k]).start
                    &&& self.miss_models()[k].start <= self.miss_models()[k].end
                    &&& self.miss_models()[k].end - misspelling_len + adj@.len() <= usize::MAX
                } by {
                assert(self.miss_models()[k] == pre_models[k + 1]);
                lemma_models_ordered_pairwise(pre_models, i as int, k + 1);
                assert(pre_models[i as int].end < pre_models[k + 1].start);
                assert(pre_models[k + 1].end < pre_buf.len());
            }
            assert forall|k: int|
                i <= k < self.spellchecker.misspellings@.len() implies {
                    &&& misspelling_len <= (#[trigger] self.spellchecker.misspellings@[k])@.start
                    &&& self.spellchecker.misspellings@[k]@.start
                        <= self.spellchecker.misspellings@[k]@.end
                    &&& self.spellchecker.misspellings@[k]@.end - misspelling_len + adj@.len()
                        <= usize::MAX
                } by {
                assert(self.miss_models()[k] == self.spellchecker.misspellings@[k]@);
            }
        }
        self.spellchecker.shift_positions_tail(i, misspelling_len, adj.len());
        let count = self.spellchecker.misspellings.len();
        self.selected_misspelling_inbound(count);
        proof {
            let fin = self.miss_models();
            let delta = adjusted.len() - misspelling_len;
            assert(fin.len() == pre_models.len() - 1);
            assert forall|k: int| 0 <= k < i implies #[trigger] fin[k] == pre_models[k] by {
                assert(fin[k] == self.spellchecker.misspellings@[k]@);
            }
            assert forall|k: int|
                i <= k < fin.len() implies {
                    &&& (#[trigger] fin[k]).word == pre_models[k + 1].word
                    &&& fin[k].suggestions == pre_models[k + 1].suggestions
                    &&& fin[k].start == pre_models[k + 1].start + delta
                    &&& fin[k].end == pre_models[k + 1].end + delta
                } by {
                assert(fin[k] == self.spellchecker.misspellings@[k]@);
            }
            // well-formedness of the shifted list
            assert forall|k: int|
                0 <= k < fin.len() implies {
                    &&& 0 <= (#[trigger] fin[k]).start
                    &&& fin[k].start <= fin[k].end
                    &&& fin[k].end < self.buffer@.len()
                } by {
                if k < i {
                    lemma_models_ordered_pairwise(pre_models, k, i as int);
                    assert(pre_models[k].end < pre_models[i as int].start);
                } else {
                    lemma_models_ordered_pairwise(pre_models, i as int, k + 1);
                }
            }
            assert forall|k: int|
                0 <= k < fin.len() - 1 implies (#[trigger] fin[k]).end < fin[k + 1].start by {
                if k + 1 < i {
                } else if k < i && i <= k + 1 {
                    lemma_models_ordered_pairwise(pre_models, i as int, k + 2);
                    assert(pre_models[k].end < pre_models[i as int].start);
                }
            }
        }
    }
}

} // verus!
