//! Character and string foundations: the Unicode classifications and case
//! mappings that the engine relies on (named, and obtained from the standard
//! library through trusted wrappers), a lexicographic order on character
//! sequences, and conversions between `&str`, `String` and `Vec<char>`.
use vstd::prelude::*;

verus! {

use vstd::std_specs::iter::IteratorSpec;

// ---------------------------------------------------------------------------
// Named results of standard-library Unicode operations.
//
// These classifications and mappings are functions of the character or string
// alone (fixed by the Unicode tables compiled into the standard library), but
// far too large to write out; each gets an uninterpreted name, and a trusted
// wrapper ties the name to the library call.
// ---------------------------------------------------------------------------
/// Whether `c` has the Unicode `White_Space` property.
pub uninterp spec fn is_white(c: char) -> bool;

/// Whether `c` has the Unicode `Alphabetic` property.
pub uninterp spec fn is_alpha(c: char) -> bool;

/// Whether `c` has the Unicode `Uppercase` property.
pub uninterp spec fn is_upper(c: char) -> bool;

/// The sequence of characters that the Unicode uppercase mapping assigns to `c`.
pub uninterp spec fn upper_chars_of(c: char) -> Seq<char>;

/// The sequence of characters that the Unicode lowercase mapping assigns to `c`.
pub uninterp spec fn lower_chars_of(c: char) -> Seq<char>;

/// The Unicode lowercase equivalent of a whole character sequence.
pub uninterp spec fn lower_of(s: Seq<char>) -> Seq<char>;

/// Relies on char::is_whitespace: true exactly for characters with the
/// Unicode `White_Space` property.
#[verifier::external_body]
pub fn char_is_whitespace(c: char) -> (r: bool)
    ensures
        r == is_white(c),
{
    c.is_whitespace()
}

/// Relies on char::is_alphabetic: true exactly for characters with the
/// Unicode `Alphabetic` property.
#[verifier::external_body]
pub fn char_is_alphabetic(c: char) -> (r: bool)
    ensures
        r == is_alpha(c),
{
    c.is_alphabetic()
}

/// Relies on char::is_uppercase: true exactly for characters with the
/// Unicode `Uppercase` property.
#[verifier::external_body]
pub fn char_is_uppercase(c: char) -> (r: bool)
    ensures
        r == is_upper(c),
{
    c.is_uppercase()
}

/// Relies on char::to_uppercase: yields the Unicode uppercase mapping of `c`,
/// a mapping that depends on the character alone.
#[verifier::external_body]
pub fn char_to_uppercase(c: char) -> (r: Vec<char>)
    ensures
        r@ == upper_chars_of(c),
{
    c.to_uppercase().collect()
}

/// Relies on char::to_lowercase: yields the Unicode lowercase mapping of `c`,
/// a mapping that depends on the character alone.
#[verifier::external_body]
pub fn char_to_lowercase(c: char) -> (r: Vec<char>)
    ensures
        r@ == lower_chars_of(c),
{
    c.to_lowercase().collect()
}

/// Relies on str::to_lowercase: returns the Unicode lowercase equivalent of
/// the string, a result that depends on the characters alone. An empty string
/// stays empty.
#[verifier::external_body]
pub fn str_to_lowercase(s: &str) -> (r: String)
    ensures
        r@ == lower_of(s@),
        s@.len() == 0 ==> r@.len() == 0,
{
    s.to_lowercase()
}

/// Relies on String's FromIterator<char>: collecting characters builds the
/// string of exactly those characters in order.
#[verifier::external_body]
pub fn chars_to_string(v: &Vec<char>) -> (r: String)
    ensures
        r@ == v@,
{
    v.iter().collect()
}

// ---------------------------------------------------------------------------
// Verified conversion from &str to Vec<char>.
// ---------------------------------------------------------------------------
/// Collect the characters of `s` into a vector; the result views exactly as `s`.
pub fn str_chars_vec(s: &str) -> (r: Vec<char>)
    ensures
        r@ == s@,
{
    let mut v: Vec<char> = Vec::new();
    for c in it: s.chars()
        invariant
            it.seq() == s@,
            v@ == it.seq().take(it.index() as int),
    {
        v.push(c);
    }
    proof {
        assert(v@ =~= s@);
    }
    v
}

// ---------------------------------------------------------------------------
// Lexicographic order on character sequences, by code point. This is the
// order in which the dictionary is kept: it coincides with the standard
// library's order on `str`, which compares strings lexicographically.
// ---------------------------------------------------------------------------
/// `a` is strictly below `b` when both are read from position `k` on.
pub open spec fn lex_lt_at(a: Seq<char>, b: Seq<char>, k: int) -> bool
    decreases a.len() - k,
{
    if k < 0 || k >= b.len() {
        false
    } else if k >= a.len() {
        true
    } else if a[k] == b[k] {
        lex_lt_at(a, b, k + 1)
    } else {
        (a[k] as int) < (b[k] as int)
    }
}

/// Strict lexicographic order by code point.
pub open spec fn lex_lt(a: Seq<char>, b: Seq<char>) -> bool {
    lex_lt_at(a, b, 0)
}

/// Non-strict lexicographic order by code point.
pub open spec fn lex_le(a: Seq<char>, b: Seq<char>) -> bool {
    lex_lt(a, b) || a == b
}

/// From position `k` on, exactly one of `a < b`, `a == b`, `b < a` holds.
pub proof fn lemma_lex_trichotomy_at(a: Seq<char>, b: Seq<char>, k: int)
    requires
        0 <= k <= a.len(),
        0 <= k <= b.len(),
        a.subrange(0, k) == b.subrange(0, k),
    ensures
        lex_lt_at(a, b, k) || lex_lt_at(b, a, k) || a == b,
        lex_lt_at(a, b, k) ==> !lex_lt_at(b, a, k) && a != b,
        lex_lt_at(b, a, k) ==> !lex_lt_at(a, b, k) && a != b,
    decreases a.len() - k,
{
    if k < a.len() && k < b.len() && a[k] == b[k] {
        assert(a.subrange(0, k + 1) =~= b.subrange(0, k + 1));
        lemma_lex_trichotomy_at(a, b, k + 1);
    } else if k == a.len() && k == b.len() {
        assert(a =~= a.subrange(0, k));
        assert(b =~= b.subrange(0, k));
    }
}

/// Exactly one of `a < b`, `a == b`, `b < a` holds.
pub proof fn lemma_lex_trichotomy(a: Seq<char>, b: Seq<char>)
    ensures
        lex_lt(a, b) || lex_lt(b, a) || a == b,
        lex_lt(a, b) ==> !lex_lt(b, a) && a != b,
        lex_lt(b, a) ==> !lex_lt(a, b) && a != b,
{
    assert(a.subrange(0, 0) =~= b.subrange(0, 0));
    lemma_lex_trichotomy_at(a, b, 0);
}

proof fn lemma_lex_transitive_at(a: Seq<char>, b: Seq<char>, c: Seq<char>, k: int)
    requires
        0 <= k,
        lex_lt_at(a, b, k),
        lex_lt_at(b, c, k),
    ensures
        lex_lt_at(a, c, k),
    decreases c.len() - k,
{
    if k < a.len() && k < b.len() && k < c.len() {
        if a[k] == b[k] && b[k] == c[k] {
            lemma_lex_transitive_at(a, b, c, k + 1);
        }
    }
}

/// Strict lexicographic order is transitive.
pub proof fn lemma_lex_transitive(a: Seq<char>, b: Seq<char>, c: Seq<char>)
    requires
        lex_lt(a, b),
        lex_lt(b, c),
    ensures
        lex_lt(a, c),
{
    lemma_lex_transitive_at(a, b, c, 0);
}

/// Non-strict lexicographic order is transitive.
pub proof fn lemma_lex_le_transitive(a: Seq<char>, b: Seq<char>, c: Seq<char>)
    requires
        lex_le(a, b),
        lex_le(b, c),
    ensures
        lex_le(a, c),
{
    if lex_lt(a, b) && lex_lt(b, c) {
        lemma_lex_transitive(a, b, c);
    }
}

/// A strict bound composes with a non-strict one.
pub proof fn lemma_lex_lt_le_transitive(a: Seq<char>, b: Seq<char>, c: Seq<char>)
    requires
        lex_lt(a, b),
        lex_le(b, c),
    ensures
        lex_lt(a, c),
{
    if lex_lt(b, c) {
        lemma_lex_transitive(a, b, c);
    }
}

/// Compare two character vectors; returns whether `a` is strictly above `b`
/// in lexicographic order.
pub fn chars_gt(a: &Vec<char>, b: &Vec<char>) -> (r: bool)
    ensures
        r == lex_lt(b@, a@),
{
    let mut k: usize = 0;
    loop
        invariant
            0 <= k <= a.len(),
            0 <= k <= b.len(),
            lex_lt_at(b@, a@, 0) == lex_lt_at(b@, a@, k as int),
        decreases a.len() - k,
    {
        if k >= b.len() {
            // b exhausted: b < a iff a still has characters
            return k < a.len();
        }
        if k >= a.len() {
            // a exhausted but b is not: a < b
            return false;
        }
        let ca = a[k];
        let cb = b[k];
        if ca == cb {
            k = k + 1;
        } else {
            return cb < ca;
        }
    }
}

/// Compare two character vectors for equality.
pub fn chars_eq(a: &Vec<char>, b: &Vec<char>) -> (r: bool)
    ensures
        r == (a@ == b@),
{
    if a.len() != b.len() {
        proof {
            assert(a@.len() != b@.len());
        }
        return false;
    }
    let mut k: usize = 0;
    while k < a.len()
        invariant
            0 <= k <= a.len(),
            a.len() == b.len(),
            forall|i: int| 0 <= i < k ==> a@[i] == b@[i],
        decreases a.len() - k,
    {
        if a[k] != b[k] {
            return false;
        }
        k = k + 1;
    }
    proof {
        assert(a@ =~= b@);
    }
    true
}

// ---------------------------------------------------------------------------
// Trimming and integer parsing, as the standard library defines them.
// ---------------------------------------------------------------------------
/// `s` without its leading whitespace.
pub open spec fn trim_start_spec(s: Seq<char>) -> Seq<char>
    decreases s.len(),
{
    if s.len() > 0 && is_white(s[0]) {
        trim_start_spec(s.drop_first())
    } else {
        s
    }
}

/// `s` without its trailing whitespace.
pub open spec fn trim_end_spec(s: Seq<char>) -> Seq<char>
    decreases s.len(),
{
    if s.len() > 0 && is_white(s.last()) {
        trim_end_spec(s.drop_last())
    } else {
        s
    }
}

/// `s` without leading and trailing whitespace.
pub open spec fn trim_spec(s: Seq<char>) -> Seq<char> {
    trim_end_spec(trim_start_spec(s))
}

/// Relies on str::trim: returns the string without leading and trailing
/// Unicode whitespace.
#[verifier::external_body]
pub fn str_trim(s: &str) -> (r: &str)
    ensures
        r@ == trim_spec(s@),
{
    s.trim()
}

/// `c` is an ASCII decimal digit.
pub open spec fn is_digit_char(c: char) -> bool {
    48 <= c as int <= 57
}

/// Every character of `s` is an ASCII decimal digit.
pub open spec fn all_digits(s: Seq<char>) -> bool {
    forall|k: int| 0 <= k < s.len() ==> is_digit_char(#[trigger] s[k])
}

/// The value of a sequence of decimal digits, most significant first.
pub open spec fn digits_value(s: Seq<char>) -> int
    decreases s.len(),
{
    if s.len() == 0 {
        0
    } else {
        digits_value(s.drop_last()) * 10 + (s.last() as int - 48)
    }
}

/// What parsing a decimal 64-bit signed integer yields: an optional sign,
/// then one or more digits, the value within range; anything else fails.
pub open spec fn spec_parse_i64(s: Seq<char>) -> Option<i64> {
    let neg = s.len() > 0 && s[0] == '-';
    let body = if s.len() > 0 && (s[0] == '-' || s[0] == '+') {
        s.drop_first()
    } else {
        s
    };
    if body.len() > 0 && all_digits(body) {
        let v = if neg {
            -digits_value(body)
        } else {
            digits_value(body)
        };
        if i64::MIN <= v <= i64::MAX {
            Some(v as i64)
        } else {
            None
        }
    } else {
        None
    }
}

/// Relies on str::parse::<i64> (i64's FromStr): accepts an optional sign
/// followed by one or more decimal digits, with the value in range; fails on
/// anything else.
#[verifier::external_body]
pub fn parse_i64(s: &str) -> (r: Option<i64>)
    ensures
        r == spec_parse_i64(s@),
{
    s.parse::<i64>().ok()
}

} // verus!

