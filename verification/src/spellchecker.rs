//! The spell checker: misspelling records, the buffer scan that finds them,
//! offset propagation after an edit, and ranked correction suggestions.
pub mod algorithm;

use vstd::prelude::*;

use crate::text::{char_is_alphabetic, char_is_whitespace, chars_gt, chars_to_string, is_alpha,
    is_white, lemma_lex_lt_le_transitive, lemma_lex_trichotomy, lex_le, parse_i64, spec_parse_i64,
    str_chars_vec, str_trim, trim_spec};
use self::algorithm::{dict_sorted, dict_views, edit_distance, is_word_correct, lemma_lev_le_max,
    lev, spec_edit_distance, spec_is_word_correct};
use crate::pqueue::{ascending_items_of, pair_le, pq_contents, pq_into_ascending_vec, pq_len,
    pq_new, pq_pop_max, pq_push};
use crate::text::{lower_of, str_to_lowercase};

verus! {

// ---------------------------------------------------------------------------
// Misspelling records and their mathematical model.
// ---------------------------------------------------------------------------
/// The mathematical model of a misspelling: the word as found, its inclusive
/// character span in the buffer, and the ranked suggestions computed for it.
pub struct MisspellingModel {
    pub word: Seq<char>,
    pub start: int,
    pub end: int,
    pub suggestions: Seq<Seq<char>>,
}

/// One misspelled span of the buffer. `start` and `end` are inclusive
/// character offsets into the buffer at the time of the scan.
#[derive(Debug, Clone)]
pub struct Misspelling {
    word: String,
    start: usize,
    end: usize,
    suggestions: Vec<String>,
}

impl View for Misspelling {
    type V = MisspellingModel;

    closed spec fn view(&self) -> MisspellingModel {
        MisspellingModel {
            word: self.word@,
            start: self.start as int,
            end: self.end as int,
            suggestions: self.suggestions.deep_view(),
        }
    }
}

/// The models of a sequence of misspellings.
pub open spec fn misspelling_models(ms: Seq<Misspelling>) -> Seq<MisspellingModel> {
    ms.map_values(|m: Misspelling| m@)
}

/// The model of a fresh misspelling: no suggestions yet.
pub open spec fn fresh_misspelling(word: Seq<char>, start: int, end: int) -> MisspellingModel {
    MisspellingModel { word, start, end, suggestions: Seq::empty() }
}

/// Equality of two suggestion lists, by contents.
fn vec_string_eq(a: &Vec<String>, b: &Vec<String>) -> (r: bool)
    ensures
        r == (a.deep_view() == b.deep_view()),
{
    if a.len() != b.len() {
        proof {
            assert(a.deep_view().len() != b.deep_view().len());
        }
        return false;
    }
    let mut k: usize = 0;
    while k < a.len()
        invariant
            0 <= k <= a@.len(),
            a@.len() == b@.len(),
            forall|i: int| 0 <= i < k ==> a@[i]@ == b@[i]@,
        decreases a@.len() - k,
    {
        if !(a[k] == b[k]) {
            proof {
                assert(a.deep_view()[k as int] != b.deep_view()[k as int]);
            }
            return false;
        }
        k = k + 1;
    }
    proof {
        assert(a.deep_view() =~= b.deep_view());
    }
    true
}

impl PartialEq for Misspelling {
    fn eq(&self, other: &Self) -> (r: bool) {
        self.word == other.word && self.start == other.start && self.end == other.end
            && vec_string_eq(&self.suggestions, &other.suggestions)
    }
}

impl vstd::std_specs::cmp::PartialEqSpecImpl for Misspelling {
    open spec fn obeys_eq_spec() -> bool {
        true
    }

    open spec fn eq_spec(&self, other: &Self) -> bool {
        self@.word == other@.word && self@.start == other@.start && self@.end == other@.end
            && self@.suggestions == other@.suggestions
    }
}

impl Misspelling {
    /// A fresh misspelling with the given word and inclusive span.
    pub fn new(word: String, start: usize, end: usize) -> (r: Self)
        ensures
            r@ == fresh_misspelling(word@, start as int, end as int),
    {
        let r = Misspelling { word, start, end, suggestions: Vec::new() };
        proof {
            assert(r@.suggestions =~= Seq::<Seq<char>>::empty());
        }
        r
    }

    /// A fresh misspelling with the span given as a pair.
    pub fn from_range(word: String, range: (usize, usize)) -> (r: Self)
        ensures
            r@ == fresh_misspelling(word@, range.0 as int, range.1 as int),
    {
        Misspelling::new(word, range.0, range.1)
    }

    /// The misspelled word, with its original casing.
    pub fn get_word(&self) -> (r: &String)
        ensures
            r@ == self@.word,
    {
        &self.word
    }

    /// The inclusive character offset at which the word starts.
    pub fn get_start(&self) -> (r: usize)
        ensures
            r as int == self@.start,
    {
        self.start
    }

    /// The inclusive character offset at which the word ends.
    pub fn get_end(&self) -> (r: usize)
        ensures
            r as int == self@.end,
    {
        self.end
    }

    /// The inclusive span as a pair.
    pub fn get_range(&self) -> (r: (usize, usize))
        ensures
            r.0 as int == self@.start,
            r.1 as int == self@.end,
    {
        (self.start, self.end)
    }

    /// The suggestions computed so far, best first; empty until computed.
    pub fn get_suggestions(&self) -> (r: &Vec<String>)
        ensures
            r.deep_view() == self@.suggestions,
    {
        &self.suggestions
    }

    /// The index of the suggestion after the current selection. With no
    /// suggestions there is nothing to select; with no current selection the
    /// first suggestion is selected; past the last suggestion the selection
    /// wraps to the first.
    pub fn get_next_suggestion_index(&self, current_selection: Option<usize>) -> (r: Option<
        usize,
    >)
        ensures
            r == spec_next_suggestion_index(self@.suggestions.len() as int, current_selection),
    {
        if self.suggestions.is_empty() {
            return None;
        }
        match current_selection {
            None => Some(0),
            Some(idx) => {
                let next = idx.saturating_add(1);
                if next < self.suggestions.len() {
                    Some(next)
                } else {
                    Some(0)
                }
            },
        }
    }

    /// The index of the suggestion before the current selection. With no
    /// suggestions there is nothing to select; with no current selection the
    /// last suggestion is selected; before the first suggestion the selection
    /// wraps to the last.
    pub fn get_previous_suggestion_index(&self, current_selection: Option<usize>) -> (r: Option<
        usize,
    >)
        ensures
            r == spec_previous_suggestion_index(self@.suggestions.len() as int, current_selection),
    {
        if self.suggestions.is_empty() {
            return None;
        }
        let suggestions_len = self.suggestions.len();
        match current_selection {
            None => Some(suggestions_len - 1),
            Some(idx) => {
                if idx == 0 {
                    Some(suggestions_len - 1)
                } else {
                    Some(idx - 1)
                }
            },
        }
    }
}

/// What `get_next_suggestion_index` selects, for a suggestion list of length `len`.
pub open spec fn spec_next_suggestion_index(len: int, current: Option<usize>) -> Option<usize> {
    if len == 0 {
        None
    } else {
        match current {
            None => Some(0usize),
            Some(idx) => if idx + 1 < len {
                Some((idx + 1) as usize)
            } else {
                Some(0usize)
            },
        }
    }
}

/// What `get_previous_suggestion_index` selects, for a suggestion list of length `len`.
pub open spec fn spec_previous_suggestion_index(len: int, current: Option<usize>) -> Option<
    usize,
> {
    if len == 0 {
        None
    } else {
        match current {
            None => Some((len - 1) as usize),
            Some(idx) => if idx == 0 {
                Some((len - 1) as usize)
            } else {
                Some((idx - 1) as usize)
            },
        }
    }
}

// ---------------------------------------------------------------------------
// Word segmentation.
// ---------------------------------------------------------------------------
/// True for the characters that end a word: the fixed punctuation set and
/// every whitespace character.
pub open spec fn spec_separates_word(c: char) -> bool {
    c == '.' || c == ':' || c == ',' || c == '!' || c == '?' || c == ';' || c == '&' || is_white(c)
}

/// A character that may stand inside a word: alphabetic, or a straight or
/// typographic apostrophe.
pub open spec fn spec_proper_char(c: char) -> bool {
    is_alpha(c) || c == '\u{0027}' || c == '\u{2019}'
}

/// Every character of `w` may stand inside a word.
pub open spec fn all_proper(w: Seq<char>) -> bool {
    forall|k: int| 0 <= k < w.len() ==> spec_proper_char(#[trigger] w[k])
}

/// The misspellings that a scan of `b` finds from position `i` on, where the
/// current word run began at position `start`. A run ends at a separator or
/// at the end of the buffer; it is reported when it is non-empty, made only
/// of word characters, and not a correct word of the dictionary `d`.
pub open spec fn scan_misspellings(b: Seq<char>, d: Seq<Seq<char>>, i: int, start: int) -> Seq<
    MisspellingModel,
>
    decreases b.len() + 1 - i,
{
    if i < 0 || i > b.len() {
        Seq::empty()
    } else if i == b.len() {
        if start < i && all_proper(b.subrange(start, i)) && !spec_is_word_correct(
            b.subrange(start, i),
            d,
        ) {
            seq![fresh_misspelling(b.subrange(start, i), start, i - 1)]
        } else {
            Seq::empty()
        }
    } else if spec_separates_word(b[i]) {
        let rest = scan_misspellings(b, d, i + 1, i + 1);
        if start < i && all_proper(b.subrange(start, i)) && !spec_is_word_correct(
            b.subrange(start, i),
            d,
        ) {
            seq![fresh_misspelling(b.subrange(start, i), start, i - 1)] + rest
        } else {
            rest
        }
    } else {
        scan_misspellings(b, d, i + 1, start)
    }
}

// ---------------------------------------------------------------------------
// The spell checker itself.
// ---------------------------------------------------------------------------
/// The spell checker: the sorted correctness dictionary, the suggestion
/// corpus, and the misspellings found by the latest scan.
pub struct Spellchecker {
    pub dict: Vec<String>,
    pub suggestion_dict: Vec<CorpusEntry>,
    pub misspellings: Vec<Misspelling>,
}

/// One entry of the suggestion corpus: a candidate word and its popularity,
/// used as a ranking tie-break.
pub struct CorpusEntry {
    pub word: String,
    pub popularity: i64,
}

impl Spellchecker {
    /// The dictionary is usable: non-empty and sorted, as binary search needs.
    pub open spec fn wf(&self) -> bool {
        &&& self.dict@.len() >= 1
        &&& dict_sorted(dict_views(self.dict@))
    }

    /// The views of the dictionary entries.
    pub open spec fn dict_model(&self) -> Seq<Seq<char>> {
        dict_views(self.dict@)
    }

    /// The views of the corpus entries, as (word, popularity) pairs.
    pub open spec fn corpus_model(&self) -> Seq<(Seq<char>, int)> {
        self.suggestion_dict@.map_values(|e: CorpusEntry| (e.word@, e.popularity as int))
    }

    /// Returns `true` if the passed character is considered one that separates words.
    pub fn separates_word(character: &char) -> (r: bool)
        ensures
            r == spec_separates_word(*character),
    {
        match *character {
            '.' | ':' | ',' | '!' | '?' | ';' | '&' => true,
            c => char_is_whitespace(c),
        }
    }

    fn proper_char(c: char) -> (r: bool)
        ensures
            r == spec_proper_char(c),
    {
        char_is_alphabetic(c) || c == '\u{0027}' || c == '\u{2019}'
    }

    /// Check a single candidate word: when it is not correct, record it as a
    /// misspelling over the given inclusive span.
    fn check_word_and_add(&mut self, word: &str, range: (usize, usize))
        requires
            old(self).wf(),
        ensures
            final(self).wf(),
            final(self).dict == old(self).dict,
            final(self).suggestion_dict == old(self).suggestion_dict,
            misspelling_models(final(self).misspellings@) == if spec_is_word_correct(
                word@,
                dict_views(old(self).dict@),
            ) {
                misspelling_models(old(self).misspellings@)
            } else {
                misspelling_models(old(self).misspellings@).push(
                    fresh_misspelling(word@, range.0 as int, range.1 as int),
                )
            },
    {
        if is_word_correct(word, self.dict.as_slice()) {
            proof {
                assert(misspelling_models(self.misspellings@) =~= misspelling_models(
                    old(self).misspellings@,
                ));
            }
            return ;
        }
        let word_owned = String::from_str(word);
        self.misspellings.push(Misspelling::from_range(word_owned, range));
        proof {
            assert(misspelling_models(self.misspellings@) =~= misspelling_models(
                old(self).misspellings@,
            ).push(fresh_misspelling(word@, range.0 as int, range.1 as int)));
        }
    }

    /// Scan the whole buffer and replace the misspelling list with the
    /// misspellings found, in buffer order.
    pub fn check(&mut self, buffer: &str)
        requires
            old(self).wf(),
        ensures
            final(self).wf(),
            final(self).dict_model() == old(self).dict_model(),
            final(self).corpus_model() == old(self).corpus_model(),
            misspelling_models(final(self).misspellings@) == scan_misspellings(
                buffer@,
                final(self).dict_model(),
                0,
                0,
            ),
    {
        self.misspellings.clear();
        let chars = str_chars_vec(buffer);
        let ghost b = buffer@;
        let ghost d = dict_views(self.dict@);

        let mut word_buf: Vec<char> = Vec::new();
        let mut is_proper_word: bool = true;
        let mut start_pos: usize = 0;
        let mut i: usize = 0;

        proof {
            assert(misspelling_models(self.misspellings@) =~= Seq::<MisspellingModel>::empty());
            assert(b.subrange(0, 0) =~= Seq::<char>::empty());
        }
        while i < chars.len()
            invariant
                self.wf(),
                self.dict == old(self).dict,
                self.suggestion_dict == old(self).suggestion_dict,
                d == dict_views(self.dict@),
                chars@ == b,
                0 <= start_pos <= i <= b.len(),
                word_buf@ == b.subrange(start_pos as int, i as int),
                is_proper_word == all_proper(b.subrange(start_pos as int, i as int)),
                scan_misspellings(b, d, 0, 0) == misspelling_models(self.misspellings@)
                    + scan_misspellings(b, d, i as int, start_pos as int),
            decreases b.len() - i,
        {
            let c = chars[i];
            if Spellchecker::separates_word(&c) {
                if word_buf.len() > 0 && is_proper_word {
                    let word = chars_to_string(&word_buf);
                    self.check_word_and_add(word.as_str(), (start_pos, i - 1));
                }
                word_buf.clear();
                proof {
                    assert(b.subrange(i as int + 1, i as int + 1) =~= Seq::<char>::empty());
                    assert(word_buf@ =~= b.subrange(i as int + 1, i as int + 1));
                }
                start_pos = i + 1;
                is_proper_word = true;
            } else {
                word_buf.push(c);
                let cp = Spellchecker::proper_char(c);
                is_proper_word = is_proper_word && cp;
                proof {
                    assert(b.subrange(start_pos as int, i as int + 1) =~= b.subrange(
                        start_pos as int,
                        i as int,
                    ).push(b[i as int]));
                    assert(all_proper(b.subrange(start_pos as int, i as int + 1))
                        == (all_proper(b.subrange(start_pos as int, i as int)) && spec_proper_char(
                        b[i as int],
                    ))) by {
                        let w0 = b.subrange(start_pos as int, i as int);
                        let w1 = b.subrange(start_pos as int, i as int + 1);
                        if all_proper(w0) && spec_proper_char(b[i as int]) {
                            assert forall|k: int| 0 <= k < w1.len() implies spec_proper_char(
                                #[trigger] w1[k],
                            ) by {
                                if k < w0.len() {
                                    assert(w1[k] == w0[k]);
                                }
                            }
                        }
                        if all_proper(w1) {
                            assert forall|k: int| 0 <= k < w0.len() implies spec_proper_char(
                                #[trigger] w0[k],
                            ) by {
                                assert(w0[k] == w1[k]);
                                assert(spec_proper_char(w1[k]));
                            }
                            assert(spec_proper_char(w1[w1.len() - 1]));
                        }
                    }
                }
            }
            i = i + 1;
            proof {
                assert(scan_misspellings(b, d, 0, 0) == misspelling_models(self.misspellings@)
                    + scan_misspellings(b, d, i as int, start_pos as int));
            }
        }
        // The end of the buffer acts as a virtual terminator: flush the last word.
        if word_buf.len() > 0 && is_proper_word {
            let word = chars_to_string(&word_buf);
            self.check_word_and_add(word.as_str(), (start_pos, i - 1));
        }
        proof {
            assert(misspelling_models(self.misspellings@) + Seq::<MisspellingModel>::empty()
                =~= misspelling_models(self.misspellings@));
        }
    }

    /// Read access to the misspelling list, in buffer order.
    pub fn misspellings(&self) -> (r: &Vec<Misspelling>)
        ensures
            r == &self.misspellings,
    {
        &self.misspellings
    }

    /// Write access to the misspelling list.
    pub fn misspellings_mut(&mut self) -> (r: &mut Vec<Misspelling>)
        ensures
            *r == old(self).misspellings,
            final(self).misspellings == *final(r),
            final(self).dict_model() == old(self).dict_model(),
            final(self).corpus_model() == old(self).corpus_model(),
            final(self).wf() == old(self).wf(),
    {
        &mut self.misspellings
    }

    /// Adds `offset` to all of the misspellings' start and end positions,
    /// starting at and including the misspelling at index `from_idx`. The
    /// offset can be negative; in that case the positions move backwards.
    pub fn offset_misspelling_positions(&mut self, offset: i32, from_idx: usize)
        requires
            forall|k: int|
                from_idx <= k < old(self).misspellings@.len() ==> {
                    &&& 0 <= (#[trigger] old(self).misspellings@[k])@.start + offset
                    &&& old(self).misspellings@[k]@.end + offset <= usize::MAX
                },
            forall|k: int|
                from_idx <= k < old(self).misspellings@.len() ==> (
                #[trigger] old(self).misspellings@[k])@.start <= old(
                    self,
                ).misspellings@[k]@.end,
        ensures
            final(self).dict_model() == old(self).dict_model(),
            final(self).corpus_model() == old(self).corpus_model(),
            final(self).wf() == old(self).wf(),
            final(self).misspellings@.len() == old(self).misspellings@.len(),
            forall|k: int|
                0 <= k < from_idx && k < final(self).misspellings@.len()
                    ==> #[trigger] final(self).misspellings@[k] == old(self).misspellings@[k],
            forall|k: int|
                from_idx <= k < final(self).misspellings@.len() ==> {
                    &&& (#[trigger] final(self).misspellings@[k])@.word == old(
                        self,
                    ).misspellings@[k]@.word
                    &&& final(self).misspellings@[k]@.suggestions == old(
                        self,
                    ).misspellings@[k]@.suggestions
                    &&& final(self).misspellings@[k]@.start == old(self).misspellings@[k]@.start
                        + offset
                    &&& final(self).misspellings@[k]@.end == old(self).misspellings@[k]@.end
                        + offset
                },
    {
        let mut k: usize = from_idx;
        if k >= self.misspellings.len() {
            return ;
        }
        while k < self.misspellings.len()
            invariant
                from_idx <= k <= self.misspellings@.len(),
                self.dict == old(self).dict,
                self.suggestion_dict == old(self).suggestion_dict,
                self.misspellings@.len() == old(self).misspellings@.len(),
                forall|j: int|
                    from_idx <= j < old(self).misspellings@.len() ==> {
                        &&& 0 <= (#[trigger] old(self).misspellings@[j])@.start + offset
                        &&& old(self).misspellings@[j]@.end + offset <= usize::MAX
                        &&& old(self).misspellings@[j]@.start <= old(self).misspellings@[j]@.end
                    },
                forall|j: int|
                    0 <= j < from_idx || k <= j < self.misspellings@.len()
                        ==> #[trigger] self.misspellings@[j] == old(self).misspellings@[j],
                forall|j: int|
                    from_idx <= j < k ==> {
                        &&& (#[trigger] self.misspellings@[j])@.word == old(
                            self,
                        ).misspellings@[j]@.word
                        &&& self.misspellings@[j]@.suggestions == old(
                            self,
                        ).misspellings@[j]@.suggestions
                        &&& self.misspellings@[j]@.start == old(self).misspellings@[j]@.start
                            + offset
                        &&& self.misspellings@[j]@.end == old(self).misspellings@[j]@.end + offset
                    },
            decreases self.misspellings@.len() - k,
        {
            let s0 = self.misspellings[k].start;
            let e0 = self.misspellings[k].end;
            let ns: usize;
            let ne: usize;
            if offset >= 0 {
                ns = s0 + (offset as usize);
                ne = e0 + (offset as usize);
            } else {
                let mag: usize = ((-(offset as i64)) as usize);
                ns = s0 - mag;
                ne = e0 - mag;
            }
            self.misspellings[k].start = ns;
            self.misspellings[k].end = ne;
            k = k + 1;
        }
    }
}

// ---------------------------------------------------------------------------
// Order of the scanned misspellings.
// ---------------------------------------------------------------------------
proof fn lemma_scan_misspellings_ordered_at(b: Seq<char>, d: Seq<Seq<char>>, i: int, start: int)
    requires
        0 <= start <= i <= b.len(),
    ensures
        ({
            let r = scan_misspellings(b, d, i, start);
            &&& forall|k: int|
                0 <= k < r.len() ==> start <= (#[trigger] r[k]).start <= r[k].end < b.len()
            &&& forall|k: int| 0 <= k < r.len() - 1 ==> (#[trigger] r[k]).end < r[k + 1].start
        }),
    decreases b.len() + 1 - i,
{
    if i == b.len() {
        let r = scan_misspellings(b, d, i, start);
        if start < i && all_proper(b.subrange(start, i)) && !spec_is_word_correct(
            b.subrange(start, i),
            d,
        ) {
            let w = b.subrange(start, i);
            assert(r == seq![fresh_misspelling(w, start, i - 1)]);
            assert(r[0] == fresh_misspelling(w, start, i - 1));
        } else {
            assert(r == Seq::<MisspellingModel>::empty());
        }
    } else if spec_separates_word(b[i]) {
        lemma_scan_misspellings_ordered_at(b, d, i + 1, i + 1);
        let rest = scan_misspellings(b, d, i + 1, i + 1);
        let r = scan_misspellings(b, d, i, start);
        if start < i && all_proper(b.subrange(start, i)) && !spec_is_word_correct(
            b.subrange(start, i),
            d,
        ) {
            let w = b.subrange(start, i);
            assert(r == seq![fresh_misspelling(w, start, i - 1)] + rest);
            assert(r[0] == fresh_misspelling(w, start, i - 1));
            assert forall|k: int|
                0 <= k < r.len() implies start <= (#[trigger] r[k]).start <= r[k].end
                < b.len() by {
                if k >= 1 {
                    assert(r[k] == rest[k - 1]);
                }
            }
            assert forall|k: int| 0 <= k < r.len() - 1 implies (#[trigger] r[k]).end < r[k
                + 1].start by {
                if k >= 1 {
                    assert(r[k] == rest[k - 1]);
                    assert(r[k + 1] == rest[k]);
                } else {
                    assert(r[1] == rest[0]);
                }
            }
        }
    } else {
        lemma_scan_misspellings_ordered_at(b, d, i + 1, start);
        assert(scan_misspellings(b, d, i, start) == scan_misspellings(b, d, i + 1, start));
    }
}

/// The misspelling list produced by a whole-buffer scan is sorted ascending
/// by start, its spans are pairwise non-overlapping, and every span lies
/// within the buffer.
pub proof fn lemma_scan_misspellings_ordered(b: Seq<char>, d: Seq<Seq<char>>)
    ensures
        ({
            let r = scan_misspellings(b, d, 0, 0);
            &&& forall|k: int|
                0 <= k < r.len() ==> 0 <= (#[trigger] r[k]).start <= r[k].end < b.len()
            &&& forall|k: int| 0 <= k < r.len() - 1 ==> (#[trigger] r[k]).end < r[k + 1].start
            &&& forall|k: int| 0 <= k < r.len() - 1 ==> (#[trigger] r[k]).start < r[k + 1].start
        }),
{
    lemma_scan_misspellings_ordered_at(b, d, 0, 0);
}

/// In a list whose starts increase, earlier entries start strictly below later ones.
pub proof fn lemma_starts_increasing_pairwise(ms: Seq<Misspelling>, i: int, j: int)
    requires
        forall|k: int| 0 <= k < ms.len() - 1 ==> (#[trigger] ms[k])@.start < ms[k + 1]@.start,
        0 <= i <= j < ms.len(),
    ensures
        ms[i]@.start <= ms[j]@.start,
        i < j ==> ms[i]@.start < ms[j]@.start,
    decreases j - i,
{
    if i < j {
        lemma_starts_increasing_pairwise(ms, i, j - 1);
    }
}

/// Determines whether a position is the start of some misspelling. If it is,
/// returns the index of that misspelling in the passed slice, found by binary
/// search over the ascending starts.
#[verifier::rlimit(100)]
#[verifier::spinoff_prover]
pub fn starts_misspelling(idx: usize, misspellings: &[Misspelling]) -> (r: Option<usize>)
    requires
        forall|k: int|
            0 <= k < misspellings@.len() - 1 ==> (#[trigger] misspellings@[k])@.start
                < misspellings@[k + 1]@.start,
    ensures
        r matches Some(k) ==> k < misspellings@.len() && misspellings@[k as int]@.start
            == idx as int,
        r is None ==> forall|k: int|
            0 <= k < misspellings@.len() ==> (#[trigger] misspellings@[k])@.start != idx as int,
{
    if misspellings.is_empty() {
        return None;
    }
    let ghost ms = misspellings@;
    let mut left: usize = 0;
    let mut right: usize = misspellings.len() - 1;
    while left != right
        invariant
            0 <= left <= right < ms.len(),
            ms == misspellings@,
            forall|k: int|
                0 <= k < ms.len() - 1 ==> (#[trigger] ms[k])@.start < ms[k + 1]@.start,
            forall|k: int|
                0 <= k < ms.len() && (#[trigger] ms[k])@.start == idx as int ==> left <= k
                    <= right,
        decreases right - left,
    {
        let mid = right - (right - left) / 2;
        let misspelling_start_idx = misspellings[mid].get_start();
        if misspelling_start_idx > idx {
            proof {
                assert forall|k: int|
                    0 <= k < ms.len() && (#[trigger] ms[k])@.start == idx as int implies left <= k
                    <= mid - 1 by {
                    if k >= mid {
                        lemma_starts_increasing_pairwise(ms, mid as int, k);
                    }
                }
            }
            right = mid - 1;
        } else {
            proof {
                assert forall|k: int|
                    0 <= k < ms.len() && (#[trigger] ms[k])@.start == idx as int implies mid <= k
                    <= right by {
                    if k < mid {
                        lemma_starts_increasing_pairwise(ms, k, mid as int);
                    }
                }
            }
            left = mid;
        }
    }
    let misspelling_candidate = &misspellings[left];
    if misspelling_candidate.get_start() == idx {
        Some(left)
    } else {
        None
    }
}

// ---------------------------------------------------------------------------
// Suggestion priority.
// ---------------------------------------------------------------------------
/// The composite ranking key of a correction candidate: a smaller edit
/// distance is strictly better; among equal distances, a larger popularity is
/// better.
#[derive(Debug, Clone, Copy, PartialEq, Eq, Structural)]
pub struct SuggestionPriority {
    pub edit_distance: usize,
    pub popularity: i64,
}

/// The (distance, popularity) pair `(d1, p1)` ranks at least as well as `(d2, p2)`.
pub open spec fn prio_better_eq(d1: int, p1: int, d2: int, p2: int) -> bool {
    d1 < d2 || (d1 == d2 && p1 >= p2)
}

impl SuggestionPriority {
    /// A priority with the given edit distance and popularity.
    pub fn new(edit_distance: usize, popularity: i64) -> (r: Self)
        ensures
            r.edit_distance == edit_distance,
            r.popularity == popularity,
    {
        SuggestionPriority { edit_distance, popularity }
    }

    /// Whether `self` ranks strictly better than `other`.
    pub fn is_higher_priority(&self, other: &Self) -> (r: bool)
        ensures
            r == (prio_better_eq(
                self.edit_distance as int,
                self.popularity as int,
                other.edit_distance as int,
                other.popularity as int,
            ) && !(self.edit_distance == other.edit_distance && self.popularity
                == other.popularity)),
    {
        self.edit_distance < other.edit_distance || (self.edit_distance == other.edit_distance
            && self.popularity > other.popularity)
    }
}

// ---------------------------------------------------------------------------
// Corpus line parsing.
// ---------------------------------------------------------------------------
/// `c` is one of the five ASCII whitespace characters.
pub open spec fn is_ascii_ws(c: char) -> bool {
    c == ' ' || c == '\t' || c == '\n' || c == '\u{000C}' || c == '\r'
}

/// The maximal runs of non-whitespace characters of `s` from position `i`
/// on, where the current run began at `start`.
pub open spec fn aws_tokens_from(s: Seq<char>, i: int, start: int) -> Seq<Seq<char>>
    decreases s.len() + 1 - i,
{
    if i < 0 || i > s.len() {
        Seq::empty()
    } else if i == s.len() {
        if start < i {
            seq![s.subrange(start, i)]
        } else {
            Seq::empty()
        }
    } else if is_ascii_ws(s[i]) {
        let rest = aws_tokens_from(s, i + 1, i + 1);
        if start < i {
            seq![s.subrange(start, i)] + rest
        } else {
            rest
        }
    } else {
        aws_tokens_from(s, i + 1, start)
    }
}

/// The tokens of `s`: its maximal runs of non-whitespace characters.
pub open spec fn aws_tokens(s: Seq<char>) -> Seq<Seq<char>> {
    aws_tokens_from(s, 0, 0)
}

fn is_ascii_ws_exec(c: char) -> (r: bool)
    ensures
        r == is_ascii_ws(c),
{
    c == ' ' || c == '\t' || c == '\n' || c == '\u{000C}' || c == '\r'
}

/// Split `chars` into its maximal runs of non-whitespace characters.
fn split_ascii_tokens(chars: &Vec<char>) -> (r: Vec<Vec<char>>)
    ensures
        r.deep_view() == aws_tokens(chars@),
{
    let ghost b = chars@;
    let mut toks: Vec<Vec<char>> = Vec::new();
    let mut word_buf: Vec<char> = Vec::new();
    let mut start: usize = 0;
    let mut i: usize = 0;
    proof {
        assert(toks.deep_view() =~= Seq::<Seq<char>>::empty());
        assert(b.subrange(0, 0) =~= Seq::<char>::empty());
    }
    while i < chars.len()
        invariant
            chars@ == b,
            0 <= start <= i <= b.len(),
            word_buf@ == b.subrange(start as int, i as int),
            aws_tokens(b) == toks.deep_view() + aws_tokens_from(b, i as int, start as int),
        decreases b.len() - i,
    {
        let c = chars[i];
        if is_ascii_ws_exec(c) {
            if word_buf.len() > 0 {
                let ghost before = toks.deep_view();
                let ghost wv = word_buf@;
                toks.push(word_buf);
                proof {
                    assert(toks@[toks@.len() - 1].deep_view() =~= wv);
                    assert(toks.deep_view() =~~= before.push(b.subrange(start as int, i as int)));
                }
                word_buf = Vec::new();
            }
            proof {
                assert(b.subrange(i as int + 1, i as int + 1) =~= Seq::<char>::empty());
            }
            word_buf.clear();
            start = i + 1;
        } else {
            word_buf.push(c);
            proof {
                assert(b.subrange(start as int, i as int + 1) =~= b.subrange(
                    start as int,
                    i as int,
                ).push(b[i as int]));
            }
        }
        i = i + 1;
    }
    if word_buf.len() > 0 {
        let ghost before = toks.deep_view();
        let ghost wv = word_buf@;
        toks.push(word_buf);
        proof {
            assert(toks@[toks@.len() - 1].deep_view() =~= wv);
            assert(toks.deep_view() =~~= before.push(b.subrange(start as int, i as int)));
        }
    }
    proof {
        assert(toks.deep_view() + Seq::<Seq<char>>::empty() =~= toks.deep_view());
    }
    toks
}

/// What parsing one corpus line yields: the first whitespace-separated token
/// is the word, the second, trimmed, must parse as a 64-bit integer; a line
/// with fewer than two tokens or a malformed number fails. Tokens past the
/// second are ignored.
pub open spec fn spec_parse_corpus_line(line: Seq<char>) -> Option<(Seq<char>, int)> {
    let toks = aws_tokens(line);
    if toks.len() >= 2 {
        match spec_parse_i64(trim_spec(toks[1])) {
            Some(v) => Some((toks[0], v as int)),
            None => None,
        }
    } else {
        None
    }
}

/// Parse one corpus line into a word and its popularity.
pub fn parse_corpus_line(line: &str) -> (r: Option<CorpusEntry>)
    ensures
        r is Some <==> spec_parse_corpus_line(line@) is Some,
        r matches Some(e) ==> Some((e.word@, e.popularity as int)) == spec_parse_corpus_line(
            line@,
        ),
{
    let chars = str_chars_vec(line);
    let toks = split_ascii_tokens(&chars);
    if toks.len() < 2 {
        return None;
    }
    proof {
        assert(toks.deep_view()[0] =~= toks@[0]@);
        assert(toks.deep_view()[1] =~= toks@[1]@);
    }
    let word = chars_to_string(&toks[0]);
    let second = chars_to_string(&toks[1]);
    let trimmed = str_trim(second.as_str());
    match parse_i64(trimmed) {
        Some(v) => Some(CorpusEntry { word, popularity: v }),
        None => None,
    }
}

// ---------------------------------------------------------------------------
// Dictionary construction.
// ---------------------------------------------------------------------------
/// Why the spell checker could not be constructed: the dictionary resource
/// yields no words, or a corpus line does not follow the
/// word-then-popularity format (the payload is the index of that line).
#[derive(Debug, Clone, Copy, PartialEq, Eq, Structural)]
pub enum LoadError {
    EmptyDictionary,
    MalformedCorpusLine(usize),
}

/// The index of a lexicographically least entry of `v`.
fn min_index(v: &Vec<String>) -> (mi: usize)
    requires
        v@.len() > 0,
    ensures
        mi < v@.len(),
        forall|k: int| 0 <= k < v@.len() ==> lex_le(v@[mi as int]@, (#[trigger] v@[k])@),
{
    let mut mi: usize = 0;
    let mut k: usize = 1;
    while k < v.len()
        invariant
            0 <= mi < k <= v@.len(),
            forall|j: int| 0 <= j < k ==> lex_le(v@[mi as int]@, (#[trigger] v@[j])@),
        decreases v@.len() - k,
    {
        let a = str_chars_vec(v[k].as_str());
        let m = str_chars_vec(v[mi].as_str());
        if chars_gt(&m, &a) {
            proof {
                assert forall|j: int| 0 <= j < k + 1 implies lex_le(
                    v@[k as int]@,
                    (#[trigger] v@[j])@,
                ) by {
                    if j < k {
                        lemma_lex_lt_le_transitive(v@[k as int]@, v@[mi as int]@, v@[j]@);
                    }
                }
            }
            mi = k;
        } else {
            proof {
                lemma_lex_trichotomy(v@[mi as int]@, v@[k as int]@);
            }
        }
        k = k + 1;
    }
    mi
}

/// The views of `s.remove(i)` are the views of `s` with entry `i` removed.
proof fn lemma_dict_views_remove(s: Seq<String>, i: int)
    requires
        0 <= i < s.len(),
    ensures
        dict_views(s.remove(i)) =~= dict_views(s).remove(i),
{
}

/// Sort dictionary entries ascending, keeping the contents.
fn sort_strings(input: Vec<String>) -> (r: Vec<String>)
    ensures
        dict_sorted(dict_views(r@)),
        dict_views(r@).to_multiset() == dict_views(input@).to_multiset(),
        r@.len() == input@.len(),
{
    broadcast use vstd::seq_lib::group_to_multiset_ensures;

    let ghost goal = dict_views(input@).to_multiset();
    let mut rest = input;
    let mut out: Vec<String> = Vec::new();
    proof {
        assert(dict_views(out@) =~= Seq::<Seq<char>>::empty());
        assert(dict_views(out@).to_multiset().add(dict_views(rest@).to_multiset()) =~= goal);
    }
    while rest.len() > 0
        invariant
            dict_sorted(dict_views(out@)),
            dict_views(out@).to_multiset().add(dict_views(rest@).to_multiset()) == goal,
            out@.len() + rest@.len() == input@.len(),
            forall|x: int, y: int|
                0 <= x < out@.len() && 0 <= y < rest@.len() ==> lex_le(
                    (#[trigger] out@[x])@,
                    (#[trigger] rest@[y])@,
                ),
        decreases rest@.len(),
    {
        let mi = min_index(&rest);
        let ghost old_out = out@;
        let ghost old_rest = rest@;
        let m = rest.remove(mi);
        let ghost x = dict_views(old_rest)[mi as int];
        out.push(m);
        proof {
            let ov = dict_views(old_out);
            let rv = dict_views(old_rest);
            ov.to_multiset_ensures();
            rv.to_multiset_ensures();
            assert(m@ == x);
            assert(rv.contains(x));
            assert(rv.to_multiset().count(x) > 0);
            lemma_dict_views_remove(old_rest, mi as int);
            assert(dict_views(rest@).to_multiset() == rv.remove(mi as int).to_multiset());
            assert(rv.remove(mi as int).to_multiset() =~= rv.to_multiset().remove(x));
            assert(dict_views(out@) =~= ov.push(x));
            assert(ov.push(x).to_multiset() =~= ov.to_multiset().insert(x));
            assert(dict_views(out@).to_multiset() == ov.to_multiset().insert(x));
            assert(ov.to_multiset().insert(x).add(rv.to_multiset().remove(x)) =~= ov.to_multiset().add(
                rv.to_multiset(),
            ));
            assert(dict_views(out@).to_multiset().add(dict_views(rest@).to_multiset()) == goal);
            assert forall|x: int, y: int|
                0 <= x < out@.len() && 0 <= y < rest@.len() implies lex_le(
                (#[trigger] out@[x])@,
                (#[trigger] rest@[y])@,
            ) by {
                assert(rest@[y] == old_rest.remove(mi as int)[y]);
                if x < old_out.len() {
                    assert(out@[x] == old_out[x]);
                }
            }
            assert forall|k: int|
                0 <= k < dict_views(out@).len() - 1 implies lex_le(
                #[trigger] dict_views(out@)[k],
                dict_views(out@)[k + 1],
            ) by {
                if k + 1 < old_out.len() {
                } else {
                    assert(dict_views(out@)[k] == old_out[k]@);
                    assert(dict_views(out@)[k + 1] == m@);
                }
            }
        }
    }
    proof {
        assert(dict_views(rest@) =~= Seq::<Seq<char>>::empty());
        assert(dict_views(out@).to_multiset() =~= goal);
    }
    out
}

impl Spellchecker {
    /// Build a spell checker from the dictionary lines (one word each,
    /// trimmed and stored sorted) and the corpus lines (word then popularity).
    /// Fails when the dictionary yields no words or a corpus line is
    /// malformed.
    pub fn new(dict_lines: Vec<String>, corpus_lines: Vec<String>) -> (r: Result<
        Spellchecker,
        LoadError,
    >)
        ensures
            r is Ok <==> dict_lines@.len() > 0 && (forall|k: int|
                0 <= k < corpus_lines@.len() ==> spec_parse_corpus_line(
                    (#[trigger] corpus_lines@[k])@,
                ) is Some),
            r matches Ok(s) ==> {
                &&& s.wf()
                &&& s.misspellings@.len() == 0
                &&& dict_views(s.dict@).to_multiset() == dict_lines@.map_values(
                    |l: String| trim_spec(l@),
                ).to_multiset()
                &&& s.corpus_model().len() == corpus_lines@.len()
                &&& forall|k: int|
                    0 <= k < corpus_lines@.len() ==> Some(#[trigger] s.corpus_model()[k])
                        == spec_parse_corpus_line(corpus_lines@[k]@)
            },
            r == Err::<Spellchecker, LoadError>(LoadError::EmptyDictionary) <==> dict_lines@.len()
                == 0,
            r matches Err(LoadError::MalformedCorpusLine(k)) ==> k < corpus_lines@.len()
                && spec_parse_corpus_line(corpus_lines@[k as int]@) is None && (forall|l: int|
                0 <= l < k ==> spec_parse_corpus_line((#[trigger] corpus_lines@[l])@) is Some),
    {
        broadcast use vstd::seq_lib::group_to_multiset_ensures;

        if dict_lines.len() == 0 {
            return Err(LoadError::EmptyDictionary);
        }
        let mut trimmed: Vec<String> = Vec::new();
        let mut k: usize = 0;
        while k < dict_lines.len()
            invariant
                0 <= k <= dict_lines@.len(),
                trimmed@.len() == k,
                forall|j: int| 0 <= j < k ==> (#[trigger] trimmed@[j])@ == trim_spec(
                    dict_lines@[j]@,
                ),
            decreases dict_lines@.len() - k,
        {
            let t = str_trim(dict_lines[k].as_str());
            trimmed.push(t.to_owned());
            k = k + 1;
        }
        proof {
            assert(dict_views(trimmed@) =~= dict_lines@.map_values(|l: String| trim_spec(l@)));
        }
        let dict = sort_strings(trimmed);

        let mut suggestion_dict: Vec<CorpusEntry> = Vec::new();
        let mut k: usize = 0;
        while k < corpus_lines.len()
            invariant
                dict_lines@.len() > 0,
                0 <= k <= corpus_lines@.len(),
                suggestion_dict@.len() == k,
                forall|j: int|
                    0 <= j < k ==> {
                        let e = #[trigger] suggestion_dict@[j];
                        Some((e.word@, e.popularity as int)) == spec_parse_corpus_line(
                            corpus_lines@[j]@,
                        )
                    },
                forall|j: int|
                    0 <= j < k ==> spec_parse_corpus_line(
                        (#[trigger] corpus_lines@[j])@,
                    ) is Some,
            decreases corpus_lines@.len() - k,
        {
            match parse_corpus_line(corpus_lines[k].as_str()) {
                Some(e) => {
                    suggestion_dict.push(e);
                },
                None => {
                    proof {
                        assert(spec_parse_corpus_line(corpus_lines@[k as int]@) is None);
                    }
                    return Err(LoadError::MalformedCorpusLine(k));
                },
            }
            k = k + 1;
        }
        let checker = Spellchecker { dict, suggestion_dict, misspellings: Vec::new() };
        proof {
            assert(checker.corpus_model().len() == corpus_lines@.len());
            assert forall|j: int| 0 <= j < corpus_lines@.len() implies Some(
                #[trigger] checker.corpus_model()[j],
            ) == spec_parse_corpus_line(corpus_lines@[j]@) by {
                assert(checker.corpus_model()[j] == (
                    checker.suggestion_dict@[j].word@,
                    checker.suggestion_dict@[j].popularity as int,
                ));
            }
        }
        Ok(checker)
    }
}

// ---------------------------------------------------------------------------
// Suggestion ranking.
// ---------------------------------------------------------------------------
/// How many suggestions are kept for one misspelling.
pub const NUMBER_OF_SUGGESTIONS: usize = 10;

/// The views of the corpus entries, as (word, popularity) pairs.
pub open spec fn corpus_views(s: Seq<CorpusEntry>) -> Seq<(Seq<char>, int)> {
    s.map_values(|e: CorpusEntry| (e.word@, e.popularity as int))
}

/// The edit distance from the lowered misspelled word to corpus candidate `j`.
pub open spec fn cand_dist(lw: Seq<char>, cp: Seq<(Seq<char>, int)>, j: int) -> int {
    spec_edit_distance(lw, cp[j].0)
}

/// The popularity of corpus candidate `j`.
pub open spec fn cand_pop(cp: Seq<(Seq<char>, int)>, j: int) -> int {
    cp[j].1
}

/// Candidate `j1` ranks at least as well as candidate `j2` for the lowered
/// word `lw`: smaller edit distance, or equal distance and no smaller
/// popularity.
pub open spec fn ranked_at_least(lw: Seq<char>, cp: Seq<(Seq<char>, int)>, j1: int, j2: int) -> bool {
    prio_better_eq(cand_dist(lw, cp, j1), cand_pop(cp, j1), cand_dist(lw, cp, j2), cand_pop(cp, j2))
}

/// The queue entry that stands for corpus candidate `j`: its index, its edit
/// distance, and its popularity reversed so that the lexicographically
/// greatest entry is the worst-ranked candidate.
pub open spec fn enc_entry(lw: Seq<char>, cp: Seq<(Seq<char>, int)>, j: int) -> (u64, u64, u64) {
    (j as u64, cand_dist(lw, cp, j) as u64, (i64::MAX - cand_pop(cp, j)) as u64)
}

/// Ranking at least as well is transitive.
proof fn lemma_ranked_at_least_transitive(
    lw: Seq<char>,
    cp: Seq<(Seq<char>, int)>,
    j1: int,
    j2: int,
    j3: int,
)
    requires
        ranked_at_least(lw, cp, j1, j2),
        ranked_at_least(lw, cp, j2, j3),
    ensures
        ranked_at_least(lw, cp, j1, j3),
{
}

/// The lexicographic order of two encoded entries is the ranking order of the
/// candidates they stand for.
proof fn lemma_enc_order(lw: Seq<char>, cp: Seq<(Seq<char>, int)>, j1: int, j2: int)
    requires
        0 <= j1 < cp.len(),
        0 <= j2 < cp.len(),
        0 <= cand_dist(lw, cp, j1) <= u64::MAX,
        0 <= cand_dist(lw, cp, j2) <= u64::MAX,
        i64::MIN <= cand_pop(cp, j1) <= i64::MAX,
        i64::MIN <= cand_pop(cp, j2) <= i64::MAX,
    ensures
        pair_le(
            (enc_entry(lw, cp, j1).1, enc_entry(lw, cp, j1).2),
            (enc_entry(lw, cp, j2).1, enc_entry(lw, cp, j2).2),
        ) == ranked_at_least(lw, cp, j1, j2),
{
    assert(enc_entry(lw, cp, j1).1 as int == cand_dist(lw, cp, j1));
    assert(enc_entry(lw, cp, j2).1 as int == cand_dist(lw, cp, j2));
    assert(enc_entry(lw, cp, j1).2 as int == i64::MAX - cand_pop(cp, j1));
    assert(enc_entry(lw, cp, j2).2 as int == i64::MAX - cand_pop(cp, j2));
}

/// `out` is a correctly ranked suggestion list for the lowered word `lw` over
/// the corpus `cp`, witnessed by the indices `idxs` of the listed candidates.
pub open spec fn ranked_suggestions_witness(
    lw: Seq<char>,
    cp: Seq<(Seq<char>, int)>,
    out: Seq<Seq<char>>,
    idxs: Seq<int>,
) -> bool {
    &&& out.len() == if cp.len() < NUMBER_OF_SUGGESTIONS {
        cp.len() as int
    } else {
        NUMBER_OF_SUGGESTIONS as int
    }
    &&& idxs.len() == out.len()
    &&& forall|k: int| 0 <= k < idxs.len() ==> 0 <= #[trigger] idxs[k] < cp.len()
    &&& forall|k: int| 0 <= k < idxs.len() ==> out[k] == cp[#[trigger] idxs[k]].0
    &&& forall|k1: int, k2: int|
        0 <= k1 < k2 < idxs.len() ==> #[trigger] idxs[k1] != #[trigger] idxs[k2]
    &&& forall|k1: int, k2: int|
        #![trigger idxs[k1], idxs[k2]]
        0 <= k1 <= k2 < idxs.len() ==> ranked_at_least(lw, cp, idxs[k1], idxs[k2])
    &&& forall|j: int, k: int|
        #![trigger idxs.contains(j), idxs[k]]
        0 <= j < cp.len() && !idxs.contains(j) && 0 <= k < idxs.len() ==> ranked_at_least(
            lw,
            cp,
            idxs[k],
            j,
        )
}

/// `out` lists, best first, the words of a best-ranked set of at most
/// NUMBER_OF_SUGGESTIONS corpus candidates for the lowered word `lw`: it is
/// ordered by rank, repeats no candidate, and every candidate left out ranks
/// no better than any candidate listed.
pub open spec fn ranked_suggestions(
    lw: Seq<char>,
    cp: Seq<(Seq<char>, int)>,
    out: Seq<Seq<char>>,
) -> bool {
    exists|idxs: Seq<int>| ranked_suggestions_witness(lw, cp, out, idxs)
}

impl Misspelling {
    /// Rank every corpus entry by edit distance from the lowercase form of
    /// the misspelled word (popularity breaking ties), and store the words of
    /// the best at most NUMBER_OF_SUGGESTIONS candidates, best first, as this
    /// misspelling's suggestions.
    pub fn suggest(&mut self, corpus: &Vec<CorpusEntry>) -> (r: &Vec<String>)
        ensures
            final(self)@.word == old(self)@.word,
            final(self)@.start == old(self)@.start,
            final(self)@.end == old(self)@.end,
            r.deep_view() == final(self)@.suggestions,
            ranked_suggestions(
                lower_of(old(self)@.word),
                corpus_views(corpus@),
                final(self)@.suggestions,
            ),
    {
        broadcast use vstd::seq_lib::group_to_multiset_ensures;

        let ghost cp = corpus_views(corpus@);
        let lowered = str_to_lowercase(self.word.as_str());
        let ghost lw = lower_of(self.word@);
        let mut top_suggestions = pq_new();
        let mut i: usize = 0;
        while i < corpus.len()
            invariant
                corpus_views(corpus@) == cp,
                lowered@ == lw,
                0 <= i <= cp.len(),
                cp.len() == corpus@.len(),
                pq_contents(top_suggestions).len() == if i < NUMBER_OF_SUGGESTIONS {
                    i as int
                } else {
                    NUMBER_OF_SUGGESTIONS as int
                },
                forall|e: (u64, u64, u64)|
                    #[trigger] pq_contents(top_suggestions).count(e) > 0 ==> {
                        &&& pq_contents(top_suggestions).count(e) == 1
                        &&& 0 <= e.0 < i
                        &&& e == enc_entry(lw, cp, e.0 as int)
                        &&& 0 <= cand_dist(lw, cp, e.0 as int) <= u64::MAX
                        &&& i64::MIN <= cand_pop(cp, e.0 as int) <= i64::MAX
                    },
                i <= NUMBER_OF_SUGGESTIONS ==> forall|j: int|
                    0 <= j < i ==> #[trigger] pq_contents(top_suggestions).count(
                        enc_entry(lw, cp, j),
                    ) == 1,
                forall|j: int, e: (u64, u64, u64)|
                    #![trigger pq_contents(top_suggestions).count(enc_entry(lw, cp, j)), pq_contents(top_suggestions).count(e)]
                    0 <= j < i && pq_contents(top_suggestions).count(enc_entry(lw, cp, j)) == 0
                        && pq_contents(top_suggestions).count(e) > 0 ==> ranked_at_least(
                        lw,
                        cp,
                        e.0 as int,
                        j,
                    ),
            decreases corpus@.len() - i,
        {
            let ghost qc0 = pq_contents(top_suggestions);
            let dist = edit_distance(lowered.as_str(), corpus[i].word.as_str());
            proof {
                assert(cp[i as int] == (corpus@[i as int].word@, corpus@[i as int].popularity as int));
                lemma_lev_le_max(lw, cp[i as int].0, lw.len(), cp[i as int].0.len());
            }
            let d64: u64 = dist as u64;
            let pop: i64 = corpus[i].popularity;
            let rp: u64 = ((i64::MAX as i128) - (pop as i128)) as u64;
            proof {
                assert(cand_dist(lw, cp, i as int) == dist as int);
                assert(0 <= cand_dist(lw, cp, i as int) <= u64::MAX);
                assert(d64 as int == cand_dist(lw, cp, i as int));
                assert(rp as int == i64::MAX - cand_pop(cp, i as int));
                assert((i as u64, d64, rp) == enc_entry(lw, cp, i as int));
            }
            pq_push(&mut top_suggestions, i as u64, d64, rp);
            let ghost qc1 = pq_contents(top_suggestions);
            proof {
                assert(qc1 == qc0.insert(enc_entry(lw, cp, i as int)));
                assert(qc0.count(enc_entry(lw, cp, i as int)) == 0);
            }
            if pq_len(&top_suggestions) > NUMBER_OF_SUGGESTIONS {
                let worst = pq_pop_max(&mut top_suggestions);
                proof {
                    let qc2 = pq_contents(top_suggestions);
                    let p = worst->Some_0;
                    let w = (p.0, p.1.0, p.1.1);
                    assert(qc1.count(w) > 0);
                    assert(qc2 == qc1.remove(w));
                    // every element of qc1 encodes its own candidate
                    assert forall|e: (u64, u64, u64)| #[trigger] qc1.count(e) > 0 implies {
                        &&& qc1.count(e) == 1
                        &&& 0 <= e.0 < i + 1
                        &&& e == enc_entry(lw, cp, e.0 as int)
                        &&& 0 <= cand_dist(lw, cp, e.0 as int) <= u64::MAX
                        &&& i64::MIN <= cand_pop(cp, e.0 as int) <= i64::MAX
                    } by {
                        if e == enc_entry(lw, cp, i as int) {
                            assert(cand_dist(lw, cp, i as int) <= u64::MAX);
                        } else {
                            assert(qc0.count(e) == qc1.count(e));
                        }
                    }
                    // the excluded-candidate invariant at i + 1
                    assert forall|j: int, e: (u64, u64, u64)|
                        0 <= j < i + 1 && qc2.count(enc_entry(lw, cp, j)) == 0 && qc2.count(e)
                            > 0 implies ranked_at_least(lw, cp, e.0 as int, j) by {
                        assert(qc1.count(e) > 0);
                        assert(e == enc_entry(lw, cp, e.0 as int));
                        assert(w == enc_entry(lw, cp, w.0 as int));
                        assert(pair_le((e.1, e.2), (w.1, w.2)));
                        assert(cp[e.0 as int] == (
                            corpus@[e.0 as int].word@,
                            corpus@[e.0 as int].popularity as int,
                        ));
                        assert(cp[w.0 as int] == (
                            corpus@[w.0 as int].word@,
                            corpus@[w.0 as int].popularity as int,
                        ));
                        lemma_enc_order(lw, cp, e.0 as int, w.0 as int);
                        assert(ranked_at_least(lw, cp, e.0 as int, w.0 as int));
                        if enc_entry(lw, cp, j) == w {
                            assert(j == w.0 as int);
                        } else {
                            assert(qc1.count(enc_entry(lw, cp, j)) == 0);
                            assert(j != i as int);
                            assert(qc0.count(enc_entry(lw, cp, j)) == 0);
                            if w == enc_entry(lw, cp, i as int) {
                                assert(qc0.count(e) > 0);
                                assert(ranked_at_least(lw, cp, e.0 as int, j));
                            } else {
                                assert(qc0.count(w) > 0);
                                assert(ranked_at_least(lw, cp, w.0 as int, j));
                                lemma_ranked_at_least_transitive(
                                    lw,
                                    cp,
                                    e.0 as int,
                                    w.0 as int,
                                    j,
                                );
                            }
                        }
                    }
                }
            }
            i = i + 1;
        }
        let ghost qc = pq_contents(top_suggestions);
        let items = pq_into_ascending_vec(top_suggestions);
        let ghost ts = choose|ts: Seq<(u64, u64, u64)>|
            {
                &&& ts.to_multiset() == qc
                &&& items@.len() == ts.len()
                &&& forall|x: int| 0 <= x < ts.len() ==> items@[x] == (#[trigger] ts[x]).0
                &&& forall|x: int, y: int|
                    0 <= x <= y < ts.len() ==> pair_le(
                        ((#[trigger] ts[x]).1, ts[x].2),
                        ((#[trigger] ts[y]).1, ts[y].2),
                    )
            };
        proof {
            assert(ascending_items_of(items@, qc));
            ts.to_multiset_ensures();
            assert forall|x: int| 0 <= x < ts.len() implies {
                &&& 0 <= (#[trigger] ts[x]).0 < cp.len()
                &&& ts[x] == enc_entry(lw, cp, ts[x].0 as int)
                &&& qc.count(ts[x]) == 1
                &&& 0 <= cand_dist(lw, cp, ts[x].0 as int) <= u64::MAX
                &&& i64::MIN <= cand_pop(cp, ts[x].0 as int) <= i64::MAX
            } by {
                assert(ts.contains(ts[x]));
                assert(ts.to_multiset().count(ts[x]) > 0);
            }
        }
        let mut picked: Vec<String> = Vec::new();
        let mut k: usize = 0;
        while k < items.len()
            invariant
                corpus_views(corpus@) == cp,
                cp.len() == corpus@.len(),
                0 <= k <= items@.len(),
                picked@.len() == k,
                items@.len() == ts.len(),
                ts.len() <= cp.len(),
                cp.len() <= usize::MAX,
                forall|x: int| 0 <= x < ts.len() ==> items@[x] == (#[trigger] ts[x]).0,
                forall|x: int|
                    0 <= x < ts.len() ==> 0 <= (#[trigger] ts[x]).0 < cp.len(),
                forall|x: int| 0 <= x < k ==> (#[trigger] picked@[x])@ == cp[ts[x].0 as int].0,
            decreases items@.len() - k,
        {
            let idx64 = items[k];
            let idx = idx64 as usize;
            proof {
                assert(ts[k as int].0 < cp.len());
                assert(idx64 == ts[k as int].0);
            }
            picked.push(corpus[idx].word.clone());
            proof {
                assert(cp[idx as int] == (
                    corpus@[idx as int].word@,
                    corpus@[idx as int].popularity as int,
                ));
                assert(picked@[k as int]@ == cp[ts[k as int].0 as int].0);
            }
            k = k + 1;
        }
        self.suggestions = picked;
        proof {
            ts.to_multiset_ensures();
            let idxs = Seq::new(ts.len(), |x: int| ts[x].0 as int);
            let out = final(self)@.suggestions;
            assert(out.len() == ts.len()) by {
                assert(out.len() == picked@.len());
            }
            assert(ts.len() == qc.len());
            // the listed candidates repeat none
            assert(ts.no_duplicates()) by {
                ts.lemma_multiset_has_no_duplicates_conv();
            }
            assert forall|k1: int, k2: int| 0 <= k1 < k2 < idxs.len() implies #[trigger] idxs[k1]
                != #[trigger] idxs[k2] by {
                if idxs[k1] == idxs[k2] {
                    assert(ts[k1] == enc_entry(lw, cp, ts[k1].0 as int));
                    assert(ts[k2] == enc_entry(lw, cp, ts[k2].0 as int));
                    assert(ts[k1] == ts[k2]);
                }
            }
            assert forall|x: int| 0 <= x < idxs.len() implies out[x] == cp[#[trigger] idxs[x]].0 by {
                assert(out[x] == picked@[x]@);
            }
            assert forall|k1: int, k2: int|
                #![trigger idxs[k1], idxs[k2]]
                0 <= k1 <= k2 < idxs.len() implies ranked_at_least(lw, cp, idxs[k1], idxs[k2]) by {
                assert(pair_le((ts[k1].1, ts[k1].2), (ts[k2].1, ts[k2].2)));
                assert(cp[idxs[k1]] == (
                    corpus@[idxs[k1]].word@,
                    corpus@[idxs[k1]].popularity as int,
                ));
                assert(cp[idxs[k2]] == (
                    corpus@[idxs[k2]].word@,
                    corpus@[idxs[k2]].popularity as int,
                ));
                lemma_enc_order(lw, cp, idxs[k1], idxs[k2]);
            }
            assert forall|j: int, k2: int|
                #![trigger idxs.contains(j), idxs[k2]]
                0 <= j < cp.len() && !idxs.contains(j) && 0 <= k2 < idxs.len() implies
                ranked_at_least(lw, cp, idxs[k2], j) by {
                if qc.count(enc_entry(lw, cp, j)) > 0 {
                    assert(ts.to_multiset().count(enc_entry(lw, cp, j)) > 0);
                    assert(ts.contains(enc_entry(lw, cp, j)));
                    let x = choose|x: int| 0 <= x < ts.len() && ts[x] == enc_entry(lw, cp, j);
                    assert(ts[x].0 as int == j);
                    assert(idxs[x] == j);
                    assert(idxs.contains(j));
                    assert(false);
                } else {
                    assert(qc.count(ts[k2]) > 0);
                }
            }
            assert(ranked_suggestions_witness(lw, cp, out, idxs));
        }
        &self.suggestions
    }
}

impl Spellchecker {
    /// Compute and store the ranked suggestions for the misspelling at the
    /// given index; a no-op when that entry already has suggestions. The
    /// index must name an existing misspelling.
    pub fn suggest(&mut self, misspelling_index: usize)
        requires
            misspelling_index < old(self).misspellings@.len(),
        ensures
            final(self).dict_model() == old(self).dict_model(),
            final(self).corpus_model() == old(self).corpus_model(),
            final(self).wf() == old(self).wf(),
            final(self).misspellings@.len() == old(self).misspellings@.len(),
            forall|k: int|
                0 <= k < old(self).misspellings@.len() && k != misspelling_index
                    ==> #[trigger] final(self).misspellings@[k] == old(self).misspellings@[k],
            old(self).misspellings@[misspelling_index as int]@.suggestions.len() > 0
                ==> final(self).misspellings@ == old(self).misspellings@,
            old(self).misspellings@[misspelling_index as int]@.suggestions.len() == 0 ==> {
                let m0 = old(self).misspellings@[misspelling_index as int]@;
                let m1 = final(self).misspellings@[misspelling_index as int]@;
                &&& m1.word == m0.word
                &&& m1.start == m0.start
                &&& m1.end == m0.end
                &&& ranked_suggestions(
                    lower_of(m0.word),
                    old(self).corpus_model(),
                    m1.suggestions,
                )
            },
    {
        if self.misspellings[misspelling_index].suggestions.len() > 0 {
            proof {
                assert(final(self).misspellings@ =~= old(self).misspellings@);
            }
            return ;
        }
        let m = &mut self.misspellings[misspelling_index];
        m.suggest(&self.suggestion_dict);
    }

    /// The suggestions stored for the misspelling at the given index, which
    /// must name an existing misspelling.
    pub fn get_suggestions(&self, misspelling_index: usize) -> (r: &Vec<String>)
        requires
            misspelling_index < self.misspellings@.len(),
        ensures
            r.deep_view() == self.misspellings@[misspelling_index as int]@.suggestions,
    {
        self.misspellings[misspelling_index].get_suggestions()
    }
}

impl Spellchecker {
    /// Replace, in every misspelling from `from_idx` on, a span offset of
    /// `old_len` characters by one of `new_len`: each such start and end
    /// moves by `new_len - old_len`. Used after a splice that replaced
    /// `old_len` buffer characters with `new_len` new ones.
    pub fn shift_positions_tail(&mut self, from_idx: usize, old_len: usize, new_len: usize)
        requires
            forall|k: int|
                from_idx <= k < old(self).misspellings@.len() ==> {
                    &&& old_len <= (#[trigger] old(self).misspellings@[k])@.start
                    &&& old(self).misspellings@[k]@.start <= old(self).misspellings@[k]@.end
                    &&& old(self).misspellings@[k]@.end - old_len + new_len <= usize::MAX
                },
        ensures
            final(self).dict_model() == old(self).dict_model(),
            final(self).corpus_model() == old(self).corpus_model(),
            final(self).wf() == old(self).wf(),
            final(self).misspellings@.len() == old(self).misspellings@.len(),
            forall|k: int|
                0 <= k < from_idx && k < final(self).misspellings@.len()
                    ==> #[trigger] final(self).misspellings@[k] == old(self).misspellings@[k],
            forall|k: int|
                from_idx <= k < final(self).misspellings@.len() ==> {
                    &&& (#[trigger] final(self).misspellings@[k])@.word == old(
                        self,
                    ).misspellings@[k]@.word
                    &&& final(self).misspellings@[k]@.suggestions == old(
                        self,
                    ).misspellings@[k]@.suggestions
                    &&& final(self).misspellings@[k]@.start == old(self).misspellings@[k]@.start
                        - old_len + new_len
                    &&& final(self).misspellings@[k]@.end == old(self).misspellings@[k]@.end
                        - old_len + new_len
                },
    {
        let mut k: usize = from_idx;
        if k >= self.misspellings.len() {
            return ;
        }
        while k < self.misspellings.len()
            invariant
                from_idx <= k <= self.misspellings@.len(),
                self.dict_model() == old(self).dict_model(),
                self.corpus_model() == old(self).corpus_model(),
                self.wf() == old(self).wf(),
                self.misspellings@.len() == old(self).misspellings@.len(),
                forall|j: int|
                    from_idx <= j < old(self).misspellings@.len() ==> {
                        &&& old_len <= (#[trigger] old(self).misspellings@[j])@.start
                        &&& old(self).misspellings@[j]@.start <= old(self).misspellings@[j]@.end
                        &&& old(self).misspellings@[j]@.end - old_len + new_len <= usize::MAX
                    },
                forall|j: int|
                    0 <= j < from_idx || k <= j < self.misspellings@.len()
                        ==> #[trigger] self.misspellings@[j] == old(self).misspellings@[j],
                forall|j: int|
                    from_idx <= j < k ==> {
                        &&& (#[trigger] self.misspellings@[j])@.word == old(
                            self,
                        ).misspellings@[j]@.word
                        &&& self.misspellings@[j]@.suggestions == old(
                            self,
                        ).misspellings@[j]@.suggestions
                        &&& self.misspellings@[j]@.start == old(self).misspellings@[j]@.start
                            - old_len + new_len
                        &&& self.misspellings@[j]@.end == old(self).misspellings@[j]@.end
                            - old_len + new_len
                    },
            decreases self.misspellings@.len() - k,
        {
            let s0 = self.misspellings[k].start;
            let e0 = self.misspellings[k].end;
            let ns: usize = s0 - old_len + new_len;
            let ne: usize = e0 - old_len + new_len;
            self.misspellings[k].start = ns;
            self.misspellings[k].end = ne;
            k = k + 1;
        }
    }
}

} // verus!
