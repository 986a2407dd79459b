//! The two algorithms under the spell checker: binary search of the sorted
//! dictionary (case-insensitive word lookup) and the dynamic-programming
//! Levenshtein edit distance used to rank correction suggestions.
use vstd::prelude::*;

use crate::text::{
    chars_eq, chars_gt, lemma_lex_le_transitive, lemma_lex_lt_le_transitive,
    lemma_lex_trichotomy, lex_le, lex_lt, lower_of, str_chars_vec, str_to_lowercase,
};

verus! {

// ---------------------------------------------------------------------------
// Dictionary lookup.
// ---------------------------------------------------------------------------
/// The views of the dictionary entries, as character sequences.
pub open spec fn dict_views(dict: Seq<String>) -> Seq<Seq<char>> {
    dict.map_values(|s: String| s@)
}

/// Each dictionary entry is lexicographically no greater than the next one.
pub open spec fn dict_sorted(d: Seq<Seq<char>>) -> bool {
    forall|i: int| 0 <= i < d.len() - 1 ==> lex_le(#[trigger] d[i], d[i + 1])
}

/// A word is eligible for lookup: non-empty and without a space.
pub open spec fn valid_search_word(w: Seq<char>) -> bool {
    w.len() > 0 && !w.contains(' ')
}

/// A word is correct when it is eligible for lookup and its lowercase form is
/// a dictionary entry.
pub open spec fn spec_is_word_correct(w: Seq<char>, d: Seq<Seq<char>>) -> bool {
    valid_search_word(w) && d.contains(lower_of(w))
}

/// In a sorted dictionary every earlier entry is no greater than every later one.
pub proof fn lemma_dict_sorted_pairwise(d: Seq<Seq<char>>, i: int, j: int)
    requires
        dict_sorted(d),
        0 <= i <= j < d.len(),
    ensures
        lex_le(d[i], d[j]),
    decreases j - i,
{
    if i < j {
        lemma_dict_sorted_pairwise(d, i, j - 1);
        lemma_lex_le_transitive(d[i], d[j - 1], d[j]);
    }
}

/// Binary search of the sorted dictionary for the lowercase form of `word`.
/// Returns an index holding that form, or None when the word is empty,
/// contains a space, or its lowercase form is absent.
pub fn search_for_word(word: &str, dict: &[String]) -> (r: Option<usize>)
    requires
        dict@.len() >= 1,
        dict_sorted(dict_views(dict@)),
    ensures
        r is Some <==> valid_search_word(word@) && dict_views(dict@).contains(lower_of(word@)),
        r matches Some(i) ==> i < dict@.len() && dict@[i as int]@ == lower_of(word@),
{
    let ghost dv = dict_views(dict@);
    let wchars = str_chars_vec(word);
    if wchars.len() == 0 {
        return None;
    }
    let mut k: usize = 0;
    while k < wchars.len()
        invariant
            0 <= k <= wchars@.len(),
            wchars@ == word@,
            forall|i: int| 0 <= i < k ==> wchars@[i] != ' ',
        decreases wchars@.len() - k,
    {
        if wchars[k] == ' ' {
            assert(word@.contains(' '));
            return None;
        }
        k = k + 1;
    }
    assert(!word@.contains(' ')) by {
        if word@.contains(' ') {
            let i = choose|i: int| 0 <= i < word@.len() && word@[i] == ' ';
        }
    }
    let lowered = str_to_lowercase(word);
    let lw = str_chars_vec(lowered.as_str());
    let ghost target = lower_of(word@);

    let mut left: usize = 0;
    let mut right: usize = dict.len() - 1;
    while left != right
        invariant
            0 <= left <= right < dict@.len(),
            dict@.len() >= 1,
            dict_sorted(dv),
            dv == dict_views(dict@),
            lw@ == target,
            dv.contains(target) ==> exists|m: int| left <= m <= right && dv[m] == target,
        decreases right - left,
    {
        let middle = right - (right - left) / 2;
        let mid_chars = str_chars_vec(dict[middle].as_str());
        proof {
            assert(dv[middle as int] == dict@[middle as int]@);
        }
        if chars_gt(&mid_chars, &lw) {
            // dict[middle] is strictly above the target: no entry from middle
            // onward can hold it.
            proof {
                if dv.contains(target) {
                    let m = choose|m: int| left <= m <= right && dv[m] == target;
                    if m >= middle {
                        lemma_dict_sorted_pairwise(dv, middle as int, m);
                        lemma_lex_lt_le_transitive(target, dv[middle as int], dv[m]);
                        lemma_lex_trichotomy(target, dv[m]);
                        assert(false);
                    }
                }
            }
            right = middle - 1;
        } else {
            // dict[middle] is no greater than the target: any earlier entry
            // holding the target forces dict[middle] to hold it too.
            proof {
                if dv.contains(target) {
                    let m = choose|m: int| left <= m <= right && dv[m] == target;
                    if m < middle {
                        lemma_dict_sorted_pairwise(dv, m, middle as int);
                        lemma_lex_trichotomy(target, dv[middle as int]);
                        assert(lex_le(target, dv[middle as int]));
                        assert(dv[middle as int] == target);
                    }
                }
            }
            left = middle;
        }
    }
    let cand = str_chars_vec(dict[left].as_str());
    proof {
        assert(dv[left as int] == dict@[left as int]@);
    }
    if chars_eq(&cand, &lw) {
        Some(left)
    } else if {
        let cand_r = str_chars_vec(dict[right].as_str());
        chars_eq(&cand_r, &lw)
    } {
        Some(right)
    } else {
        proof {
            if dv.contains(target) {
                let m = choose|m: int| left <= m <= right && dv[m] == target;
            }
        }
        None
    }
}

/// A word is correct when it is non-empty, has no space, and its lowercase
/// form is in the dictionary.
pub fn is_word_correct(word: &str, dict: &[String]) -> (r: bool)
    requires
        dict@.len() >= 1,
        dict_sorted(dict_views(dict@)),
    ensures
        r == spec_is_word_correct(word@, dict_views(dict@)),
{
    let wchars = str_chars_vec(word);
    if wchars.len() == 0 {
        return false;
    }
    let mut k: usize = 0;
    while k < wchars.len()
        invariant
            0 <= k <= wchars@.len(),
            wchars@ == word@,
            forall|i: int| 0 <= i < k ==> wchars@[i] != ' ',
        decreases wchars@.len() - k,
    {
        if wchars[k] == ' ' {
            assert(word@.contains(' '));
            return false;
        }
        k = k + 1;
    }
    assert(!word@.contains(' ')) by {
        if word@.contains(' ') {
            let i = choose|i: int| 0 <= i < word@.len() && word@[i] == ' ';
        }
    }
    search_for_word(word, dict).is_some()
}

// ---------------------------------------------------------------------------
// Levenshtein edit distance.
// ---------------------------------------------------------------------------
/// The smallest of three values.
pub open spec fn min3(a: int, b: int, c: int) -> int {
    if a <= b && a <= c {
        a
    } else if b <= c {
        b
    } else {
        c
    }
}

/// The Levenshtein distance between the first `i` characters of `a` and the
/// first `j` characters of `b`, with unit costs for insertion, deletion and
/// substitution.
pub open spec fn lev(a: Seq<char>, b: Seq<char>, i: nat, j: nat) -> nat
    decreases i + j,
{
    if i == 0 {
        j
    } else if j == 0 {
        i
    } else if a[i - 1] == b[j - 1] {
        lev(a, b, (i - 1) as nat, (j - 1) as nat)
    } else {
        (1 + min3(
            lev(a, b, (i - 1) as nat, j) as int,
            lev(a, b, i, (j - 1) as nat) as int,
            lev(a, b, (i - 1) as nat, (j - 1) as nat) as int,
        )) as nat
    }
}

/// The distance between prefixes never exceeds the longer prefix's length.
pub proof fn lemma_lev_le_max(a: Seq<char>, b: Seq<char>, i: nat, j: nat)
    ensures
        lev(a, b, i, j) <= i || lev(a, b, i, j) <= j,
        lev(a, b, i, j) <= i + j,
    decreases i + j,
{
    if i == 0 {
    } else if j == 0 {
    } else if a[i - 1] == b[j - 1] {
        lemma_lev_le_max(a, b, (i - 1) as nat, (j - 1) as nat);
    } else {
        lemma_lev_le_max(a, b, (i - 1) as nat, j);
        lemma_lev_le_max(a, b, i, (j - 1) as nat);
        lemma_lev_le_max(a, b, (i - 1) as nat, (j - 1) as nat);
    }
}

proof fn lemma_lev_self_at(a: Seq<char>, i: nat)
    ensures
        lev(a, a, i, i) == 0,
    decreases i,
{
    if i > 0 {
        lemma_lev_self_at(a, (i - 1) as nat);
    }
}

/// The distance from a string to itself is zero.
pub proof fn lemma_edit_distance_self(a: Seq<char>)
    ensures
        lev(a, a, a.len(), a.len()) == 0,
{
    lemma_lev_self_at(a, a.len());
}

/// The distance from the empty string to `s` is the length of `s`, and the
/// distance from `s` to the empty string is the length of `s`.
pub proof fn lemma_edit_distance_empty(s: Seq<char>)
    ensures
        lev(Seq::<char>::empty(), s, 0, s.len()) == s.len(),
        lev(s, Seq::<char>::empty(), s.len(), 0) == s.len(),
{
}

proof fn lemma_lev_symmetric_at(a: Seq<char>, b: Seq<char>, i: nat, j: nat)
    ensures
        lev(a, b, i, j) == lev(b, a, j, i),
    decreases i + j,
{
    if i == 0 || j == 0 {
    } else if a[i - 1] == b[j - 1] {
        lemma_lev_symmetric_at(a, b, (i - 1) as nat, (j - 1) as nat);
    } else {
        lemma_lev_symmetric_at(a, b, (i - 1) as nat, j);
        lemma_lev_symmetric_at(a, b, i, (j - 1) as nat);
        lemma_lev_symmetric_at(a, b, (i - 1) as nat, (j - 1) as nat);
    }
}

/// With unit substitution cost, the edit distance is symmetric.
pub proof fn lemma_edit_distance_symmetric(a: Seq<char>, b: Seq<char>)
    ensures
        lev(a, b, a.len(), b.len()) == lev(b, a, b.len(), a.len()),
{
    lemma_lev_symmetric_at(a, b, a.len(), b.len());
}

fn min_usize(a: usize, b: usize) -> (r: usize)
    ensures
        r == if a <= b {
            a as int
        } else {
            b as int
        },
{
    if a <= b {
        a
    } else {
        b
    }
}

/// The Levenshtein distance between `source` and `target`, by the classic
/// dynamic program over prefix pairs.
pub fn edit_distance(source: &str, target: &str) -> (r: usize)
    ensures
        r == lev(source@, target@, source@.len(), target@.len()),
{
    let s = str_chars_vec(source);
    let t = str_chars_vec(target);
    let n = s.len();
    let m = t.len();

    // dp[i][j] == lev(s, t, i, j) for every filled row i.
    let mut dp: Vec<Vec<usize>> = Vec::new();

    let mut row0: Vec<usize> = Vec::new();
    while row0.len() <= m
        invariant
            row0@.len() <= m + 1,
            m == t@.len(),
            s@ == source@,
            t@ == target@,
            forall|y: int| 0 <= y < row0@.len() ==> row0@[y] == lev(s@, t@, 0, y as nat),
        decreases m + 1 - row0@.len(),
    {
        let j = row0.len();
        row0.push(j);
    }
    dp.push(row0);

    while dp.len() <= n
        invariant
            1 <= dp@.len() <= n + 1,
            n == s@.len(),
            m == t@.len(),
            s@ == source@,
            t@ == target@,
            forall|x: int| 0 <= x < dp@.len() ==> (#[trigger] dp@[x])@.len() == m + 1,
            forall|x: int, y: int|
                0 <= x < dp@.len() && 0 <= y <= m ==> #[trigger] (dp@[x])@[y] == lev(
                    s@,
                    t@,
                    x as nat,
                    y as nat,
                ),
        decreases n + 1 - dp@.len(),
    {
        let i = dp.len();
        let mut row: Vec<usize> = Vec::new();
        row.push(i);
        assert(row@[0] == lev(s@, t@, i as nat, 0));
        while row.len() <= m
            invariant
                1 <= i <= n,
                i == dp@.len(),
                1 <= row@.len() <= m + 1,
                n == s@.len(),
                m == t@.len(),
                forall|x: int| 0 <= x < dp@.len() ==> (#[trigger] dp@[x])@.len() == m + 1,
                forall|x: int, y: int|
                    0 <= x < dp@.len() && 0 <= y <= m ==> #[trigger] (dp@[x])@[y] == lev(
                        s@,
                        t@,
                        x as nat,
                        y as nat,
                    ),
                forall|y: int| 0 <= y < row@.len() ==> row@[y] == lev(s@, t@, i as nat, y as nat),
            decreases m + 1 - row@.len(),
        {
            let j = row.len();
            let cell: usize;
            if s[i - 1] == t[j - 1] {
                cell = dp[i - 1][j - 1];
            } else {
                let best = min_usize(dp[i - 1][j], min_usize(row[j - 1], dp[i - 1][j - 1]));
                proof {
                    lemma_lev_le_max(s@, t@, (i - 1) as nat, (j - 1) as nat);
                    lemma_lev_le_max(s@, t@, (i - 1) as nat, j as nat);
                    lemma_lev_le_max(s@, t@, i as nat, (j - 1) as nat);
                }
                cell = best + 1;
            }
            row.push(cell);
        }
        dp.push(row);
    }
    dp[n][m]
}

/// The edit distance between two whole strings.
pub open spec fn spec_edit_distance(a: Seq<char>, b: Seq<char>) -> int {
    lev(a, b, a.len(), b.len()) as int
}

/// A word whose lowercase form the dictionary holds is correct, whatever its
/// casing, as long as it is non-empty and has no space.
pub proof fn lemma_dictionary_word_correct(w: Seq<char>, d: Seq<Seq<char>>)
    requires
        w.len() > 0,
        !w.contains(' '),
        d.contains(lower_of(w)),
    ensures
        spec_is_word_correct(w, d),
{
}

/// The empty word, and any word holding a space, is never correct.
pub proof fn lemma_invalid_word_never_correct(w: Seq<char>, d: Seq<Seq<char>>)
    requires
        w.len() == 0 || w.contains(' '),
    ensures
        !spec_is_word_correct(w, d),
{
}

/// Correctness is case-insensitive: two eligible words with the same
/// lowercase form are equally correct.
pub proof fn lemma_correctness_case_insensitive(w1: Seq<char>, w2: Seq<char>, d: Seq<Seq<char>>)
    requires
        lower_of(w1) == lower_of(w2),
        valid_search_word(w1),
        valid_search_word(w2),
    ensures
        spec_is_word_correct(w1, d) == spec_is_word_correct(w2, d),
{
}

} // verus!
