//! Word-level rules of the reader: where the eye fixes on a word, how a word
//! is cleaned for display, how long punctuation holds a word, and the
//! random masks shown between words.

use vstd::prelude::*;

use rand::Rng;

use crate::text::chars_of;

verus! {

broadcast use vstd::string::group_string_axioms;

// ---------------------------------------------------------------------------
// Optimal recognition point
// ---------------------------------------------------------------------------

/// The index of the character the eye should fix on in a word of `n` characters.
pub open spec fn spec_orp(n: nat) -> nat {
    if n <= 1 {
        0
    } else if n <= 5 {
        1
    } else if n <= 9 {
        2
    } else if n < 13 {
        3
    } else {
        4
    }
}

/// The optimal recognition point of a word of `words_len` characters.
pub fn determine_orp(words_len: usize) -> (r: usize)
    ensures
        r == spec_orp(words_len as nat),
{
    if words_len <= 1 {
        0
    } else if words_len <= 5 {
        1
    } else if words_len <= 9 {
        2
    } else if words_len < 13 {
        3
    } else {
        4
    }
}

/// The recognition point of a non-empty word is one of its characters.
pub proof fn lemma_orp_within_word(n: nat)
    requires
        n >= 1,
    ensures
        spec_orp(n) < n,
{
}

/// The fixation point is the first letter of words up to 1 letter long, the
/// second up to 5, the third up to 9, the fourth up to 12, and the fifth after.
pub proof fn lemma_orp_table(n: nat)
    ensures
        n <= 1 ==> spec_orp(n) == 0,
        2 <= n <= 5 ==> spec_orp(n) == 1,
        6 <= n <= 9 ==> spec_orp(n) == 2,
        10 <= n <= 12 ==> spec_orp(n) == 3,
        13 <= n ==> spec_orp(n) == 4,
{
}

/// Longer words never fix the eye further to the left.
pub proof fn lemma_orp_monotone(n: nat, m: nat)
    requires
        n <= m,
    ensures
        spec_orp(n) <= spec_orp(m),
{
}

// ---------------------------------------------------------------------------
// Cleaning a word for display
// ---------------------------------------------------------------------------

/// What `char::is_alphanumeric` answers for `c`.
pub uninterp spec fn spec_is_alphanumeric(c: char) -> bool;

/// Calls `char::is_alphanumeric`. Trusted: the answer is `spec_is_alphanumeric(c)`,
/// a function of `c` alone; which characters have the property is not stated.
#[verifier::external_body]
fn is_alphanumeric(c: char) -> (b: bool)
    ensures
        b == spec_is_alphanumeric(c),
{
    c.is_alphanumeric()
}

/// An ASCII letter or digit.
pub open spec fn is_ascii_alphanumeric(c: char) -> bool {
    ('0' <= c && c <= '9') || ('a' <= c && c <= 'z') || ('A' <= c && c <= 'Z')
}

/// A character that belongs to a word (`char::is_alphanumeric`): among ASCII
/// characters exactly the letters and digits (an ASCII character is
/// alphabetic or numeric only when it is one of these), elsewhere what
/// `char::is_alphanumeric` answers.
pub open spec fn is_word_char(c: char) -> bool {
    if (c as u32) < 128 {
        is_ascii_alphanumeric(c)
    } else {
        spec_is_alphanumeric(c)
    }
}

/// Whether `c` belongs to a word (see `is_word_char`).
pub fn char_is_alphanumeric(c: char) -> (b: bool)
    ensures
        b == is_word_char(c),
{
    if (c as u32) < 128 {
        ('0' <= c && c <= '9') || ('a' <= c && c <= 'z') || ('A' <= c && c <= 'Z')
    } else {
        is_alphanumeric(c)
    }
}

/// `s` without its leading characters that are not alphanumeric.
pub open spec fn strip_leading_marks(s: Seq<char>) -> Seq<char>
    decreases s.len(),
{
    if s.len() > 0 && !is_word_char(s[0]) {
        strip_leading_marks(s.drop_first())
    } else {
        s
    }
}

/// `s` without its trailing characters that are not alphanumeric.
pub open spec fn strip_trailing_marks(s: Seq<char>) -> Seq<char>
    decreases s.len(),
{
    if s.len() > 0 && !is_word_char(s.last()) {
        strip_trailing_marks(s.drop_last())
    } else {
        s
    }
}

/// A word without the punctuation around it (`str::trim_matches` on non-alphanumerics).
pub open spec fn spec_clean_word(s: Seq<char>) -> Seq<char> {
    strip_trailing_marks(strip_leading_marks(s))
}

proof fn lemma_strip_leading_at(s: Seq<char>, k: int)
    requires
        0 <= k <= s.len(),
        forall|j: int| 0 <= j < k ==> !is_word_char(#[trigger] s[j]),
        k == s.len() || is_word_char(s[k]),
    ensures
        strip_leading_marks(s) == s.subrange(k, s.len() as int),
    decreases k,
{
    if k == 0 {
        assert(s.subrange(0, s.len() as int) =~= s);
    } else {
        let t = s.drop_first();
        assert forall|j: int| 0 <= j < k - 1 implies !is_word_char(#[trigger] t[j]) by {
            assert(t[j] == s[j + 1]);
        }
        assert(!is_word_char(s[0]));
        lemma_strip_leading_at(t, k - 1);
        assert(t.subrange(k - 1, t.len() as int) =~= s.subrange(k, s.len() as int));
    }
}

proof fn lemma_strip_trailing_at(s: Seq<char>, k: int)
    requires
        0 <= k <= s.len(),
        forall|j: int| k <= j < s.len() ==> !is_word_char(#[trigger] s[j]),
        k == 0 || is_word_char(s[k - 1]),
    ensures
        strip_trailing_marks(s) == s.subrange(0, k),
    decreases s.len() - k,
{
    if k == s.len() {
        assert(s.subrange(0, k) =~= s);
    } else {
        let t = s.drop_last();
        assert forall|j: int| k <= j < t.len() implies !is_word_char(#[trigger] t[j]) by {
            assert(t[j] == s[j]);
        }
        assert(!is_word_char(s.last()));
        lemma_strip_trailing_at(t, k);
        assert(t.subrange(0, k) =~= s.subrange(0, k));
    }
}

/// The bounds `(a, b)` of the cleaned word inside `v`.
fn clean_bounds(v: &Vec<char>) -> (r: (usize, usize))
    ensures
        r.0 <= r.1 <= v.len(),
        v@.subrange(r.0 as int, r.1 as int) == spec_clean_word(v@),
        r.0 < r.1 ==> is_word_char(v@[r.0 as int]) && is_word_char(v@[r.1 - 1]),
{
    let n = v.len();
    let mut a: usize = 0;
    while a < n && !char_is_alphanumeric(v[a])
        invariant
            a <= n == v.len(),
            forall|j: int| 0 <= j < a ==> !is_word_char(#[trigger] v@[j]),
        decreases n - a,
    {
        a = a + 1;
    }
    proof {
        lemma_strip_leading_at(v@, a as int);
    }
    let ghost t = v@.subrange(a as int, n as int);
    let mut b = n;
    while b > a && !char_is_alphanumeric(v[b - 1])
        invariant
            a <= b <= n == v.len(),
            forall|j: int| b <= j < n ==> !is_word_char(#[trigger] v@[j]),
        decreases b - a,
    {
        b = b - 1;
    }
    proof {
        assert forall|j: int| b - a <= j < t.len() implies !is_word_char(#[trigger] t[j]) by {
            assert(t[j] == v@[a + j]);
        }
        if b > a {
            assert(t[b - a - 1] == v@[b - 1]);
        }
        lemma_strip_trailing_at(t, b - a);
        assert(t.subrange(0, b - a) =~= v@.subrange(a as int, b as int));
        if a < b && a < n {
            assert(is_word_char(v@[a as int]));
        }
    }
    (a, b)
}

/// `word` without the non-alphanumeric characters at its ends.
pub fn clean_word(word: &str) -> (r: &str)
    ensures
        r@ == spec_clean_word(word@),
{
    let v = chars_of(word);
    let (a, b) = clean_bounds(&v);
    word.substring_char(a, b)
}

proof fn lemma_strip_leading_shape(s: Seq<char>)
    ensures
        strip_leading_marks(s).len() <= s.len(),
        strip_leading_marks(s) == s.skip(s.len() - strip_leading_marks(s).len()),
        strip_leading_marks(s).len() > 0 ==> is_word_char(strip_leading_marks(s)[0]),
    decreases s.len(),
{
    if s.len() > 0 && !is_word_char(s[0]) {
        lemma_strip_leading_shape(s.drop_first());
        assert(s.drop_first().skip(s.len() - 1 - strip_leading_marks(s).len()) =~= s.skip(
            s.len() - strip_leading_marks(s).len(),
        ));
    } else {
        assert(s.skip(0) =~= s);
    }
}

proof fn lemma_strip_trailing_shape(s: Seq<char>)
    ensures
        strip_trailing_marks(s).len() <= s.len(),
        strip_trailing_marks(s) == s.take(strip_trailing_marks(s).len() as int),
        strip_trailing_marks(s).len() > 0 ==> is_word_char(strip_trailing_marks(s).last()),
    decreases s.len(),
{
    if s.len() > 0 && !is_word_char(s.last()) {
        lemma_strip_trailing_shape(s.drop_last());
        assert(s.drop_last().take(strip_trailing_marks(s).len() as int) =~= s.take(
            strip_trailing_marks(s).len() as int,
        ));
    } else {
        assert(s.take(s.len() as int) =~= s);
    }
}

/// A cleaned word is empty or begins and ends with an alphanumeric character,
/// and cleaning it again changes nothing.
pub proof fn lemma_clean_word_idempotent(s: Seq<char>)
    ensures
        spec_clean_word(s).len() > 0 ==> is_word_char(spec_clean_word(s)[0])
            && is_word_char(spec_clean_word(s).last()),
        spec_clean_word(spec_clean_word(s)) == spec_clean_word(s),
{
    let u = strip_leading_marks(s);
    let c = spec_clean_word(s);
    lemma_strip_leading_shape(s);
    lemma_strip_trailing_shape(u);
    if c.len() > 0 {
        assert(c[0] == u[0]);
        assert(strip_leading_marks(c) == c);
        assert(strip_trailing_marks(c) == c);
    } else {
        assert(strip_leading_marks(c) == c);
    }
}


/// Cleaning removes exactly the marks around a word: when `w` begins and ends
/// with a character of a word and `before` and `after` hold none, cleaning
/// `before + w + after` gives `w`.
pub proof fn lemma_clean_word_strips_marks(before: Seq<char>, w: Seq<char>, after: Seq<char>)
    requires
        w.len() > 0,
        is_word_char(w[0]),
        is_word_char(w.last()),
        forall|i: int| 0 <= i < before.len() ==> !is_word_char(#[trigger] before[i]),
        forall|i: int| 0 <= i < after.len() ==> !is_word_char(#[trigger] after[i]),
    ensures
        spec_clean_word(before + w + after) == w,
{
    let s = before + w + after;
    assert forall|j: int| 0 <= j < before.len() implies !is_word_char(#[trigger] s[j]) by {
        assert(s[j] == before[j]);
    }
    assert(s[before.len() as int] == w[0]);
    lemma_strip_leading_at(s, before.len() as int);
    let u = s.subrange(before.len() as int, s.len() as int);
    assert(u =~= w + after);
    assert forall|j: int| w.len() <= j < u.len() implies !is_word_char(#[trigger] u[j]) by {
        assert(u[j] == after[j - w.len()]);
    }
    assert(u[w.len() - 1] == w.last());
    lemma_strip_trailing_at(u, w.len() as int);
    assert(u.subrange(0, w.len() as int) =~= w);
}

/// Every ASCII letter and digit belongs to a word, and no other ASCII
/// character does: cleaning keeps digits (`"2024,"` becomes `"2024"`) and
/// strips ASCII punctuation.
pub proof fn lemma_ascii_word_chars(c: char)
    requires
        (c as u32) < 128,
    ensures
        is_word_char(c) <==> (('0' <= c && c <= '9') || ('a' <= c && c <= 'z') || ('A' <= c && c <= 'Z')),
{
}

// ---------------------------------------------------------------------------
// Punctuation pauses
// ---------------------------------------------------------------------------

/// The characters after which the reader pauses.
pub const PUNCTUATION: [char; 5] = ['.', '!', '?', ';', ','];

pub open spec fn is_pause_mark(c: char) -> bool {
    c == '.' || c == '!' || c == '?' || c == ';' || c == ','
}

/// How many times its base duration a word is shown: twice when it ends with
/// punctuation, once otherwise.
pub open spec fn spec_punctuation_weight(word: Seq<char>) -> u32 {
    if word.len() > 0 && is_pause_mark(word.last()) {
        2
    } else {
        1
    }
}

/// The duration multiplier of `word` (see `spec_punctuation_weight`).
pub fn apply_punctuation(word: &str) -> (w: u32)
    ensures
        w == spec_punctuation_weight(word@),
{
    let v = chars_of(word);
    if v.len() == 0 {
        return 1;
    }
    let last = v[v.len() - 1];
    let marks = PUNCTUATION;
    assert(marks@ =~= seq!['.', '!', '?', ';', ',']);
    let mut i: usize = 0;
    while i < 5
        invariant
            i <= 5,
            marks@ == seq!['.', '!', '?', ';', ','],
            v@ == word@,
            v.len() > 0,
            last == v@.last(),
            forall|j: int| 0 <= j < i ==> marks@[j] != last,
        decreases 5 - i,
    {
        if marks[i] == last {
            return 2;
        }
        i = i + 1;
    }
    assert(!is_pause_mark(last)) by {
        assert(marks@[0] != last);
        assert(marks@[1] != last);
        assert(marks@[2] != last);
        assert(marks@[3] != last);
        assert(marks@[4] != last);
    }
    1
}

/// A word is held twice as long exactly when its last character is one of
/// the `PUNCTUATION` marks (`. ! ? ; ,`), and once otherwise.
pub proof fn lemma_punctuation_weight(w: Seq<char>)
    ensures
        PUNCTUATION@ == seq!['.', '!', '?', ';', ','],
        spec_punctuation_weight(w) == 2 <==> (w.len() > 0 && PUNCTUATION@.contains(w.last())),
        spec_punctuation_weight(w) == 1 <==> !(w.len() > 0 && PUNCTUATION@.contains(w.last())),
{
    let p = PUNCTUATION@;
    assert(p =~= seq!['.', '!', '?', ';', ',']);
    if w.len() > 0 {
        let c = w.last();
        if is_pause_mark(c) {
            if c == '.' {
                assert(p[0] == c);
            } else if c == '!' {
                assert(p[1] == c);
            } else if c == '?' {
                assert(p[2] == c);
            } else if c == ';' {
                assert(p[3] == c);
            } else {
                assert(p[4] == c);
            }
        } else {
            assert(!p.contains(c)) by {
                if p.contains(c) {
                    let i = choose|i: int| 0 <= i < p.len() && p[i] == c;
                    assert(0 <= i < 5);
                }
            }
        }
    }
}

// ---------------------------------------------------------------------------
// Masks
// ---------------------------------------------------------------------------

/// The characters a mask is drawn from, as ASCII bytes: `# % & @ $ * + =`.
pub const MASK_CHARSET: [u8; 8] = [35, 37, 38, 64, 36, 42, 43, 61];

pub open spec fn is_mask_char(c: char) -> bool {
    exists|j: int| 0 <= j < 8 && #[trigger] MASK_CHARSET@[j] as char == c
}

#[verifier::external_type_specification]
#[verifier::external_body]
pub struct ExThreadRng(rand::rngs::ThreadRng);

/// Calls `rand::thread_rng`: a handle to the thread-local generator. Nothing is
/// stated of it.
#[verifier::external_body]
fn thread_rng() -> rand::rngs::ThreadRng {
    rand::thread_rng()
}

/// Calls `Rng::gen_range(0..bound)`, which panics on an empty range. Trusted:
/// the value is below `bound`; which value comes is chance and is not stated.
#[verifier::external_body]
fn gen_index(rng: &mut rand::rngs::ThreadRng, bound: usize) -> (r: usize)
    requires
        bound > 0,
    ensures
        r < bound,
{
    rng.gen_range(0..bound)
}

/// The mask whose `i`-th character is `MASK_CHARSET[idx[i]]`.
pub fn mask_from_indices(idx: &Vec<usize>) -> (m: String)
    requires
        forall|i: int| 0 <= i < idx.len() ==> #[trigger] idx@[i] < 8,
    ensures
        m@.len() == idx.len(),
        forall|i: int| 0 <= i < idx.len() ==> #[trigger] m@[i] == MASK_CHARSET@[idx@[i] as int] as char,
{
    let mut out: Vec<char> = Vec::new();
    let mut i: usize = 0;
    while i < idx.len()
        invariant
            i <= idx.len(),
            forall|k: int| 0 <= k < idx.len() ==> #[trigger] idx@[k] < 8,
            out@.len() == i,
            forall|k: int| 0 <= k < i ==> #[trigger] out@[k] == MASK_CHARSET@[idx@[k] as int] as char,
        decreases idx.len() - i,
    {
        let j = idx[i];
        out.push(MASK_CHARSET[j] as char);
        i = i + 1;
    }
    crate::text::string_from_chars(out.as_slice())
}

/// A mask of `len` characters, each drawn at random from `MASK_CHARSET`.
pub fn generate_random_mask(len: usize) -> (m: String)
    ensures
        m@.len() == len,
        forall|i: int| 0 <= i < len ==> is_mask_char(#[trigger] m@[i]),
{
    let mut rng = thread_rng();
    let mut idx: Vec<usize> = Vec::new();
    let mut i: usize = 0;
    while i < len
        invariant
            i <= len,
            idx.len() == i,
            forall|k: int| 0 <= k < i ==> #[trigger] idx@[k] < 8,
        decreases len - i,
    {
        idx.push(gen_index(&mut rng, 8));
        i = i + 1;
    }
    let m = mask_from_indices(&idx);
    assert forall|k: int| 0 <= k < len implies is_mask_char(#[trigger] m@[k]) by {
        assert(MASK_CHARSET@[idx@[k] as int] as char == m@[k]);
    }
    m
}

} // verus!
