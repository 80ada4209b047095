//! Character-level text utilities over `Seq<char>`, with the executable
//! counterparts working on index ranges of a `Vec<char>`.

use vstd::prelude::*;

verus! {

broadcast use vstd::string::group_string_axioms;

/// The Unicode `White_Space` property, which `char::is_whitespace` answers:
/// U+0009..U+000D, U+0020, U+0085, U+00A0, U+1680, U+2000..U+200A, U+2028,
/// U+2029, U+202F, U+205F and U+3000.
pub open spec fn spec_is_whitespace(c: char) -> bool {
    let u = c as u32;
    ||| 0x9 <= u <= 0xD
    ||| u == 0x20
    ||| u == 0x85
    ||| u == 0xA0
    ||| u == 0x1680
    ||| 0x2000 <= u <= 0x200A
    ||| u == 0x2028
    ||| u == 0x2029
    ||| u == 0x202F
    ||| u == 0x205F
    ||| u == 0x3000
}

/// Whether `c` is whitespace (see `spec_is_whitespace`).
pub fn is_whitespace(c: char) -> (b: bool)
    ensures
        b == spec_is_whitespace(c),
{
    let u = c as u32;
    (0x9 <= u && u <= 0xD) || u == 0x20 || u == 0x85 || u == 0xA0 || u == 0x1680 || (0x2000 <= u
        && u <= 0x200A) || u == 0x2028 || u == 0x2029 || u == 0x202F || u == 0x205F || u == 0x3000
}

/// The characters of a string slice, in order.
pub fn chars_of(s: &str) -> (v: Vec<char>)
    ensures
        v@ == s@,
{
    let mut v: Vec<char> = Vec::new();
    for c in it: s.chars()
        invariant
            v@ == it.seq().take(it.index()),
            it.seq() == s@,
    {
        v.push(c);
    }
    v
}


/// Collects the characters into a `String` (`String`'s `FromIterator<&char>`).
/// Trusted: the string holds exactly the characters of `v`, in order.
#[verifier::external_body]
pub(crate) fn string_from_chars(v: &[char]) -> (s: String)
    ensures
        s@ == v@,
{
    v.iter().collect()
}

/// A copy of `v[lo..hi]`.
pub fn copy_range(v: &Vec<char>, lo: usize, hi: usize) -> (r: Vec<char>)
    requires
        lo <= hi <= v.len(),
    ensures
        r@ == v@.subrange(lo as int, hi as int),
{
    let mut r: Vec<char> = Vec::new();
    let mut i = lo;
    while i < hi
        invariant
            lo <= i <= hi <= v.len(),
            r@ == v@.subrange(lo as int, i as int),
        decreases hi - i,
    {
        r.push(v[i]);
        i = i + 1;
    }
    r
}

/// `s` without its leading whitespace (`str::trim_start`).
pub open spec fn trim_start(s: Seq<char>) -> Seq<char>
    decreases s.len(),
{
    if s.len() > 0 && spec_is_whitespace(s[0]) {
        trim_start(s.drop_first())
    } else {
        s
    }
}

/// `s` without its trailing whitespace (`str::trim_end`).
pub open spec fn trim_end(s: Seq<char>) -> Seq<char>
    decreases s.len(),
{
    if s.len() > 0 && spec_is_whitespace(s.last()) {
        trim_end(s.drop_last())
    } else {
        s
    }
}

/// `s` without leading and trailing whitespace (`str::trim`).
pub open spec fn trim(s: Seq<char>) -> Seq<char> {
    trim_end(trim_start(s))
}

proof fn lemma_trim_start_at(s: Seq<char>, k: int)
    requires
        0 <= k <= s.len(),
        forall|j: int| 0 <= j < k ==> spec_is_whitespace(#[trigger] s[j]),
        k == s.len() || !spec_is_whitespace(s[k]),
    ensures
        trim_start(s) == s.subrange(k, s.len() as int),
    decreases k,
{
    if k == 0 {
        assert(s.subrange(0, s.len() as int) =~= s);
    } else {
        assert(spec_is_whitespace(s[0]));
        let t = s.drop_first();
        assert forall|j: int| 0 <= j < k - 1 implies spec_is_whitespace(#[trigger] t[j]) by {
            assert(t[j] == s[j + 1]);
        }
        lemma_trim_start_at(t, k - 1);
        assert(t.subrange(k - 1, t.len() as int) =~= s.subrange(k, s.len() as int));
    }
}

proof fn lemma_trim_end_at(s: Seq<char>, k: int)
    requires
        0 <= k <= s.len(),
        forall|j: int| k <= j < s.len() ==> spec_is_whitespace(#[trigger] s[j]),
        k == 0 || !spec_is_whitespace(s[k - 1]),
    ensures
        trim_end(s) == s.subrange(0, k),
    decreases s.len() - k,
{
    if k == s.len() {
        assert(s.subrange(0, k) =~= s);
    } else {
        assert(spec_is_whitespace(s.last()));
        let t = s.drop_last();
        assert forall|j: int| k <= j < t.len() implies spec_is_whitespace(#[trigger] t[j]) by {
            assert(t[j] == s[j]);
        }
        lemma_trim_end_at(t, k);
        assert(t.subrange(0, k) =~= s.subrange(0, k));
    }
}

/// The bounds of `trim(v[lo..hi])` inside `v`.
pub fn trim_bounds(v: &Vec<char>, lo: usize, hi: usize) -> (r: (usize, usize))
    requires
        lo <= hi <= v.len(),
    ensures
        lo <= r.0 <= r.1 <= hi,
        v@.subrange(r.0 as int, r.1 as int) == trim(v@.subrange(lo as int, hi as int)),
{
    let ghost s = v@.subrange(lo as int, hi as int);
    let mut a = lo;
    while a < hi && is_whitespace(v[a])
        invariant
            lo <= a <= hi <= v.len(),
            s == v@.subrange(lo as int, hi as int),
            forall|j: int| lo <= j < a ==> spec_is_whitespace(#[trigger] v@[j]),
        decreases hi - a,
    {
        a = a + 1;
    }
    proof {
        assert forall|j: int| 0 <= j < a - lo implies spec_is_whitespace(#[trigger] s[j]) by {
            assert(s[j] == v@[lo + j]);
        }
        lemma_trim_start_at(s, a - lo);
        assert(s.subrange(a - lo, s.len() as int) =~= v@.subrange(a as int, hi as int));
    }
    let ghost t = v@.subrange(a as int, hi as int);
    let mut b = hi;
    while b > a && is_whitespace(v[b - 1])
        invariant
            lo <= a <= b <= hi <= v.len(),
            t == v@.subrange(a as int, hi as int),
            forall|j: int| b <= j < hi ==> spec_is_whitespace(#[trigger] v@[j]),
        decreases b - a,
    {
        b = b - 1;
    }
    proof {
        assert forall|j: int| b - a <= j < t.len() implies spec_is_whitespace(#[trigger] t[j]) by {
            assert(t[j] == v@[a + j]);
        }
        lemma_trim_end_at(t, b - a);
        assert(t.subrange(0, b - a) =~= v@.subrange(a as int, b as int));
    }
    (a, b)
}


/// `pat` occurs in `s` at index `j`.
pub open spec fn matches_at(s: Seq<char>, j: int, pat: Seq<char>) -> bool {
    0 <= j && j + pat.len() <= s.len() && s.subrange(j, j + pat.len()) == pat
}

/// Index of the first occurrence of `pat` in `s` (`str::find`).
pub open spec fn find(s: Seq<char>, pat: Seq<char>) -> Option<int>
    decreases s.len(),
{
    if s.len() < pat.len() {
        None
    } else if s.take(pat.len() as int) == pat {
        Some(0)
    } else if s.len() == 0 {
        None
    } else {
        match find(s.drop_first(), pat) {
            Some(k) => Some(k + 1),
            None => None,
        }
    }
}

/// `find` gives the least index at which `pat` occurs, and `None` when it occurs nowhere.
pub proof fn lemma_find(s: Seq<char>, pat: Seq<char>)
    ensures
        match find(s, pat) {
            Some(k) => matches_at(s, k, pat) && forall|j: int| 0 <= j < k ==> !matches_at(s, j, pat),
            None => forall|j: int| !matches_at(s, j, pat),
        },
    decreases s.len(),
{
    if s.len() < pat.len() {
    } else if s.take(pat.len() as int) == pat {
        assert(s.subrange(0, pat.len() as int) =~= s.take(pat.len() as int));
    } else if s.len() == 0 {
        assert(pat.len() == 0);
        assert(s.take(0) =~= pat);
    } else {
        let t = s.drop_first();
        lemma_find(t, pat);
        assert(!matches_at(s, 0, pat)) by {
            assert(s.subrange(0, pat.len() as int) =~= s.take(pat.len() as int));
        }
        assert forall|j: int| 0 <= j && j + 1 + pat.len() <= s.len() implies
            #[trigger] matches_at(s, j + 1, pat) == matches_at(t, j, pat) by {
            assert(s.subrange(j + 1, j + 1 + pat.len()) =~= t.subrange(j, j + pat.len()));
        }
        match find(t, pat) {
            Some(k) => {
                assert(matches_at(s, k + 1, pat));
                assert forall|j: int| 0 <= j < k + 1 implies !matches_at(s, j, pat) by {
                    if j > 0 {
                        assert(matches_at(s, (j - 1) + 1, pat) == matches_at(t, j - 1, pat));
                    }
                }
            },
            None => {
                assert forall|j: int| !matches_at(s, j, pat) by {
                    if j > 0 && j + pat.len() <= s.len() {
                        assert(matches_at(s, (j - 1) + 1, pat) == matches_at(t, j - 1, pat));
                    }
                }
            },
        }
    }
}

/// Whether `v[at..at + pat.len()]` equals `pat`.
fn matches_range_at(v: &Vec<char>, at: usize, pat: &Vec<char>) -> (b: bool)
    requires
        at + pat.len() <= v.len(),
    ensures
        b == (v@.subrange(at as int, at + pat.len()) == pat@),
{
    let mut m: usize = 0;
    while m < pat.len()
        invariant
            m <= pat.len(),
            at + pat.len() <= v.len(),
            forall|j: int| 0 <= j < m ==> v@[at + j] == pat@[j],
        decreases pat.len() - m,
    {
        if v[at + m] != pat[m] {
            assert(v@.subrange(at as int, at + pat.len())[m as int] != pat@[m as int]);
            return false;
        }
        m = m + 1;
    }
    assert(v@.subrange(at as int, at + pat.len()) =~= pat@);
    true
}

/// The first occurrence of `pat` in `v[lo..hi]`, as an index into `v`.
pub fn find_in(v: &Vec<char>, lo: usize, hi: usize, pat: &Vec<char>) -> (r: Option<usize>)
    requires
        lo <= hi <= v.len(),
    ensures
        match find(v@.subrange(lo as int, hi as int), pat@) {
            Some(k) => 0 <= k && lo + k + pat.len() <= hi && r == Some((lo + k) as usize),
            None => r is None,
        },
{
    let ghost s = v@.subrange(lo as int, hi as int);
    proof {
        lemma_find(s, pat@);
    }
    if pat.len() > hi - lo {
        return None;
    }
    let mut i = lo;
    while i <= hi - pat.len()
        invariant
            lo <= i <= hi <= v.len(),
            pat.len() <= hi - lo,
            s == v@.subrange(lo as int, hi as int),
            forall|j: int| 0 <= j < i - lo ==> !matches_at(s, j, pat@),
        decreases hi - i,
    {
        if matches_range_at(v, i, pat) {
            assert(s.subrange(i - lo, i - lo + pat.len()) =~= v@.subrange(i as int, i + pat.len()));
            assert(matches_at(s, i - lo, pat@));
            proof {
                lemma_find(s, pat@);
                match find(s, pat@) {
                    Some(k) => {
                        if k < i - lo {
                            assert(!matches_at(s, k, pat@));
                        }
                        assert(k == i - lo);
                    },
                    None => {
                        assert(!matches_at(s, i - lo, pat@));
                    },
                }
            }
            return Some(i);
        }
        assert(s.subrange(i - lo, i - lo + pat.len()) =~= v@.subrange(i as int, i + pat.len()));
        if pat.len() == 0 {
            assert(v@.subrange(i as int, i + pat.len()) =~= pat@);
        }
        i = i + 1;
    }
    None
}

/// `s` without the prefix `p`, if `s` starts with `p` (`str::strip_prefix`).
pub open spec fn strip_prefix(s: Seq<char>, p: Seq<char>) -> Option<Seq<char>> {
    if p.len() <= s.len() && s.take(p.len() as int) == p {
        Some(s.skip(p.len() as int))
    } else {
        None
    }
}

/// Whether `v[lo..hi]` starts with `p`.
pub fn starts_with_in(v: &Vec<char>, lo: usize, hi: usize, p: &Vec<char>) -> (b: bool)
    requires
        lo <= hi <= v.len(),
    ensures
        b == strip_prefix(v@.subrange(lo as int, hi as int), p@) is Some,
{
    if p.len() > hi - lo {
        return false;
    }
    let b = matches_range_at(v, lo, p);
    assert(v@.subrange(lo as int, hi as int).take(p.len() as int) =~= v@.subrange(
        lo as int,
        lo + p.len(),
    ));
    b
}

/// Whether `v[lo..hi]` equals `w`.
pub fn range_eq(v: &Vec<char>, lo: usize, hi: usize, w: &Vec<char>) -> (b: bool)
    requires
        lo <= hi <= v.len(),
    ensures
        b == (v@.subrange(lo as int, hi as int) == w@),
{
    if hi - lo != w.len() {
        assert(v@.subrange(lo as int, hi as int).len() != w@.len());
        return false;
    }
    matches_range_at(v, lo, w)
}


/// The pieces of `s` between occurrences of `c` (`str::split` on a `char`):
/// there is always one more piece than there are occurrences of `c`.
pub open spec fn split_char(s: Seq<char>, c: char) -> Seq<Seq<char>>
    decreases s.len(),
{
    if s.len() == 0 {
        seq![Seq::<char>::empty()]
    } else {
        let rest = split_char(s.drop_last(), c);
        if s.last() == c {
            rest.push(Seq::<char>::empty())
        } else {
            rest.update(rest.len() - 1, rest.last().push(s.last()))
        }
    }
}

pub proof fn lemma_split_char_nonempty(s: Seq<char>, c: char)
    ensures
        split_char(s, c).len() >= 1,
    decreases s.len(),
{
    if s.len() > 0 {
        lemma_split_char_nonempty(s.drop_last(), c);
    }
}

/// The maximal runs of non-whitespace characters of `s` (`str::split_whitespace`).
pub open spec fn split_ws(s: Seq<char>) -> Seq<Seq<char>>
    decreases s.len(),
{
    if s.len() == 0 {
        Seq::empty()
    } else {
        let rest = split_ws(s.drop_last());
        if spec_is_whitespace(s.last()) {
            rest
        } else if s.len() >= 2 && !spec_is_whitespace(s[s.len() - 2]) {
            rest.update(rest.len() - 1, rest.last().push(s.last()))
        } else {
            rest.push(seq![s.last()])
        }
    }
}

proof fn lemma_split_ws_nonempty(s: Seq<char>)
    requires
        s.len() > 0,
        !spec_is_whitespace(s.last()),
    ensures
        split_ws(s).len() >= 1,
    decreases s.len(),
{
    if s.len() >= 2 && !spec_is_whitespace(s[s.len() - 2]) {
        let t = s.drop_last();
        assert(t.last() == s[s.len() - 2]);
        lemma_split_ws_nonempty(t);
    }
}

/// Every whitespace-separated token is non-empty and holds no whitespace.
pub proof fn lemma_split_ws_tokens(s: Seq<char>)
    ensures
        forall|i: int| 0 <= i < split_ws(s).len() ==> (#[trigger] split_ws(s)[i]).len() > 0,
        forall|i: int, j: int|
            0 <= i < split_ws(s).len() && 0 <= j < split_ws(s)[i].len() ==> !spec_is_whitespace(
                #[trigger] split_ws(s)[i][j],
            ),
    decreases s.len(),
{
    if s.len() > 0 {
        let t = s.drop_last();
        let rest = split_ws(t);
        lemma_split_ws_tokens(t);
        let c = s.last();
        if spec_is_whitespace(c) {
        } else if s.len() >= 2 && !spec_is_whitespace(s[s.len() - 2]) {
            assert(t.last() == s[s.len() - 2]);
            lemma_split_ws_nonempty(t);
            let r = split_ws(s);
            assert forall|i: int, j: int| 0 <= i < r.len() && 0 <= j < r[i].len() implies !spec_is_whitespace(
                #[trigger] r[i][j],
            ) by {
                if i == r.len() - 1 && j == r[i].len() - 1 {
                    assert(r[i][j] == c);
                } else if i == r.len() - 1 {
                    assert(r[i][j] == rest[i][j]);
                } else {
                    assert(r[i] == rest[i]);
                }
            }
        } else {
            let r = split_ws(s);
            assert forall|i: int, j: int| 0 <= i < r.len() && 0 <= j < r[i].len() implies !spec_is_whitespace(
                #[trigger] r[i][j],
            ) by {
                if i < r.len() - 1 {
                    assert(r[i] == rest[i]);
                }
            }
        }
    }
}

/// `s` without one trailing carriage return.
pub open spec fn strip_cr(s: Seq<char>) -> Seq<char> {
    if s.len() > 0 && s.last() == '\r' {
        s.drop_last()
    } else {
        s
    }
}

/// The lines of `s` (`str::lines`): pieces between `'\n'`, each ended by a newline
/// losing one trailing `'\r'`; a final empty piece is not a line.
pub open spec fn lines(s: Seq<char>) -> Seq<Seq<char>> {
    let p = split_char(s, '\n');
    let body = p.drop_last().map_values(|l: Seq<char>| strip_cr(l));
    if p.last().len() == 0 {
        body
    } else {
        body.push(p.last())
    }
}

/// The subsequences of `v` that the index ranges `rs` delimit.
pub open spec fn range_views(v: Seq<char>, rs: Seq<(usize, usize)>) -> Seq<Seq<char>> {
    Seq::new(rs.len(), |i: int| v.subrange(rs[i].0 as int, rs[i].1 as int))
}

/// Every range of `rs` lies inside `lo..hi`.
pub open spec fn ranges_within(rs: Seq<(usize, usize)>, lo: int, hi: int) -> bool {
    forall|i: int| 0 <= i < rs.len() ==> lo <= #[trigger] rs[i].0 <= rs[i].1 <= hi
}

/// The ranges of the pieces of `v[lo..hi]` between occurrences of `c`.
pub fn split_char_ranges(v: &Vec<char>, lo: usize, hi: usize, c: char) -> (rs: Vec<(usize, usize)>)
    requires
        lo <= hi <= v.len(),
    ensures
        ranges_within(rs@, lo as int, hi as int),
        range_views(v@, rs@) == split_char(v@.subrange(lo as int, hi as int), c),
{
    let mut rs: Vec<(usize, usize)> = Vec::new();
    rs.push((lo, lo));
    let mut i = lo;
    proof {
        assert(v@.subrange(lo as int, lo as int) =~= Seq::<char>::empty());
        assert(range_views(v@, rs@) =~= split_char(v@.subrange(lo as int, lo as int), c));
    }
    while i < hi
        invariant
            lo <= i <= hi <= v.len(),
            rs.len() >= 1,
            rs@.last().1 == i,
            ranges_within(rs@, lo as int, i as int),
            range_views(v@, rs@) == split_char(v@.subrange(lo as int, i as int), c),
        decreases hi - i,
    {
        let ghost prev = rs@;
        let ghost t = v@.subrange(lo as int, i + 1);
        assert(t.drop_last() =~= v@.subrange(lo as int, i as int));
        assert(t.last() == v@[i as int]);
        if v[i] == c {
            rs.push((i + 1, i + 1));
            assert(v@.subrange(i + 1, i + 1) =~= Seq::<char>::empty());
            assert(range_views(v@, rs@) =~= range_views(v@, prev).push(Seq::<char>::empty()));
        } else {
            let last = rs.len() - 1;
            let start = rs[last].0;
            rs.set(last, (start, i + 1));
            assert(v@.subrange(start as int, i + 1) =~= v@.subrange(start as int, i as int).push(
                v@[i as int],
            ));
            assert(range_views(v@, rs@) =~= range_views(v@, prev).update(
                prev.len() - 1,
                range_views(v@, prev).last().push(v@[i as int]),
            ));
        }
        i = i + 1;
    }
    rs
}

/// The ranges of the whitespace-separated tokens of `v[lo..hi]`.
pub fn split_ws_ranges(v: &Vec<char>, lo: usize, hi: usize) -> (rs: Vec<(usize, usize)>)
    requires
        lo <= hi <= v.len(),
    ensures
        ranges_within(rs@, lo as int, hi as int),
        range_views(v@, rs@) == split_ws(v@.subrange(lo as int, hi as int)),
{
    let mut rs: Vec<(usize, usize)> = Vec::new();
    let mut i = lo;
    let mut in_token = false;
    proof {
        assert(range_views(v@, rs@) =~= split_ws(v@.subrange(lo as int, lo as int)));
    }
    while i < hi
        invariant
            lo <= i <= hi <= v.len(),
            ranges_within(rs@, lo as int, i as int),
            range_views(v@, rs@) == split_ws(v@.subrange(lo as int, i as int)),
            in_token == (i > lo && !spec_is_whitespace(v@[i - 1])),
            in_token ==> rs.len() >= 1 && rs@.last().1 == i,
        decreases hi - i,
    {
        let ghost prev = rs@;
        let ghost t = v@.subrange(lo as int, i + 1);
        assert(t.drop_last() =~= v@.subrange(lo as int, i as int));
        assert(t.last() == v@[i as int]);
        if i > lo {
            assert(t[t.len() - 2] == v@[i - 1]);
        }
        if is_whitespace(v[i]) {
            in_token = false;
        } else if in_token {
            let last = rs.len() - 1;
            let start = rs[last].0;
            rs.set(last, (start, i + 1));
            assert(v@.subrange(start as int, i + 1) =~= v@.subrange(start as int, i as int).push(
                v@[i as int],
            ));
            assert(range_views(v@, rs@) =~= range_views(v@, prev).update(
                prev.len() - 1,
                range_views(v@, prev).last().push(v@[i as int]),
            ));
        } else {
            rs.push((i, i + 1));
            assert(v@.subrange(i as int, i + 1) =~= seq![v@[i as int]]);
            assert(range_views(v@, rs@) =~= range_views(v@, prev).push(seq![v@[i as int]]));
            in_token = true;
        }
        i = i + 1;
    }
    rs
}


/// The ranges of the lines of `v` (see `lines`).
pub fn line_ranges(v: &Vec<char>) -> (rs: Vec<(usize, usize)>)
    ensures
        ranges_within(rs@, 0, v.len() as int),
        range_views(v@, rs@) == lines(v@),
{
    let pieces = split_char_ranges(v, 0, v.len(), '\n');
    let ghost p = split_char(v@.subrange(0, v.len() as int), '\n');
    proof {
        assert(v@.subrange(0, v.len() as int) =~= v@);
        lemma_split_char_nonempty(v@, '\n');
    }
    let n = pieces.len();
    let mut rs: Vec<(usize, usize)> = Vec::new();
    let mut i: usize = 0;
    while i + 1 < n
        invariant
            n == pieces.len() == p.len() >= 1,
            p == split_char(v@, '\n'),
            range_views(v@, pieces@) == p,
            ranges_within(pieces@, 0, v.len() as int),
            i < n,
            ranges_within(rs@, 0, v.len() as int),
            range_views(v@, rs@) =~= p.take(i as int).map_values(|l: Seq<char>| strip_cr(l)),
        decreases n - i,
    {
        let (a, b) = pieces[i];
        let ghost prev = rs@;
        assert(range_views(v@, pieces@)[i as int] == v@.subrange(a as int, b as int));
        if a < b && v[b - 1] == '\r' {
            rs.push((a, b - 1));
            assert(v@.subrange(a as int, b as int).drop_last() =~= v@.subrange(a as int, b - 1));
        } else {
            rs.push((a, b));
        }
        assert(range_views(v@, rs@) =~= range_views(v@, prev).push(strip_cr(p[i as int])));
        assert(p.take(i + 1).map_values(|l: Seq<char>| strip_cr(l)) =~= p.take(i as int).map_values(
            |l: Seq<char>| strip_cr(l),
        ).push(strip_cr(p[i as int])));
        i = i + 1;
    }
    assert(p.take(i as int) =~= p.drop_last());
    let (a, b) = pieces[n - 1];
    assert(range_views(v@, pieces@)[n - 1] == v@.subrange(a as int, b as int));
    if a < b {
        let ghost prev = rs@;
        rs.push((a, b));
        assert(range_views(v@, rs@) =~= range_views(v@, prev).push(p.last()));
    }
    rs
}

/// The decimal digit for `d < 10`.
pub open spec fn digit_char(d: nat) -> char {
    ((d + 48) as u8) as char
}

/// The decimal representation of `n`, without leading zeros (`usize`'s `Display`).
pub open spec fn decimal(n: nat) -> Seq<char>
    decreases n,
{
    if n < 10 {
        seq![digit_char(n)]
    } else {
        decimal(n / 10).push(digit_char(n % 10))
    }
}

/// Appends the decimal representation of `n` to `out`.
pub fn push_decimal(out: &mut Vec<char>, n: usize)
    ensures
        final(out)@ == old(out)@ + decimal(n as nat),
    decreases n,
{
    if n < 10 {
        let d = ((n as u8) + 48) as char;
        out.push(d);
        assert(old(out)@ + decimal(n as nat) =~= old(out)@.push(d));
    } else {
        push_decimal(out, n / 10);
        let d = (((n % 10) as u8) + 48) as char;
        out.push(d);
        assert(old(out)@ + decimal(n as nat) =~= old(out)@ + decimal((n / 10) as nat) + seq![d]);
    }
}

/// Appends the characters of `s` to `out`.
pub fn push_str(out: &mut Vec<char>, s: &str)
    ensures
        final(out)@ == old(out)@ + s@,
{
    let cs = chars_of(s);
    push_seq(out, &cs);
}

/// Appends `w` to `out`.
pub fn push_seq(out: &mut Vec<char>, w: &Vec<char>)
    ensures
        final(out)@ == old(out)@ + w@,
{
    let mut i: usize = 0;
    while i < w.len()
        invariant
            i <= w.len(),
            out@ == old(out)@ + w@.take(i as int),
        decreases w.len() - i,
    {
        out.push(w[i]);
        i = i + 1;
        assert(w@.take(i as int) =~= w@.take(i - 1).push(w@[i - 1]));
    }
    assert(w@.take(i as int) =~= w@);
}

/// Appends `v[lo..hi]` to `out`.
pub fn push_range(out: &mut Vec<char>, v: &Vec<char>, lo: usize, hi: usize)
    requires
        lo <= hi <= v.len(),
    ensures
        final(out)@ == old(out)@ + v@.subrange(lo as int, hi as int),
{
    let w = copy_range(v, lo, hi);
    push_seq(out, &w);
}


proof fn lemma_trim_start_shape(s: Seq<char>)
    ensures
        trim_start(s).len() <= s.len(),
        trim_start(s) == s.skip(s.len() - trim_start(s).len()),
        trim_start(s).len() > 0 ==> !spec_is_whitespace(trim_start(s)[0]),
    decreases s.len(),
{
    if s.len() > 0 && spec_is_whitespace(s[0]) {
        lemma_trim_start_shape(s.drop_first());
        assert(s.drop_first().skip(s.len() - 1 - trim_start(s).len()) =~= s.skip(
            s.len() - trim_start(s).len(),
        ));
    } else {
        assert(s.skip(0) =~= s);
    }
}

proof fn lemma_trim_end_shape(s: Seq<char>)
    ensures
        trim_end(s).len() <= s.len(),
        trim_end(s) == s.take(trim_end(s).len() as int),
        trim_end(s).len() > 0 ==> !spec_is_whitespace(trim_end(s).last()),
    decreases s.len(),
{
    if s.len() > 0 && spec_is_whitespace(s.last()) {
        lemma_trim_end_shape(s.drop_last());
        assert(s.drop_last().take(trim_end(s).len() as int) =~= s.take(trim_end(s).len() as int));
    } else {
        assert(s.take(s.len() as int) =~= s);
    }
}

/// `trim(s)` starts and ends with a character that is not whitespace, when it is not empty.
pub proof fn lemma_trim_ends(s: Seq<char>)
    ensures
        trim(s).len() > 0 ==> !spec_is_whitespace(trim(s)[0]) && !spec_is_whitespace(trim(s).last()),
{
    let u = trim_start(s);
    lemma_trim_start_shape(s);
    lemma_trim_end_shape(u);
    if trim(s).len() > 0 {
        assert(trim(s)[0] == u[0]);
    }
}

/// Trimming twice is trimming once.
pub proof fn lemma_trim_idempotent(s: Seq<char>)
    ensures
        trim(trim(s)) == trim(s),
{
    let t = trim(s);
    lemma_trim_ends(s);
    if t.len() > 0 {
        assert(trim_start(t) == t);
        assert(trim_end(t) == t);
    } else {
        assert(trim_start(t) == t);
    }
}


/// The tokens written one after the other.
pub open spec fn concat_all(ts: Seq<Seq<char>>) -> Seq<char>
    decreases ts.len(),
{
    if ts.len() == 0 {
        Seq::empty()
    } else {
        concat_all(ts.drop_last()) + ts.last()
    }
}

/// The characters of `s` that are not whitespace, in order.
pub open spec fn non_whitespace(s: Seq<char>) -> Seq<char>
    decreases s.len(),
{
    if s.len() == 0 {
        Seq::empty()
    } else if spec_is_whitespace(s.last()) {
        non_whitespace(s.drop_last())
    } else {
        non_whitespace(s.drop_last()).push(s.last())
    }
}

/// Splitting on whitespace loses and reorders nothing: the tokens, written
/// one after the other, are the non-whitespace characters of `s`.
pub proof fn lemma_split_ws_keeps_text(s: Seq<char>)
    ensures
        concat_all(split_ws(s)) == non_whitespace(s),
    decreases s.len(),
{
    if s.len() > 0 {
        let t = s.drop_last();
        let rest = split_ws(t);
        let c = s.last();
        lemma_split_ws_keeps_text(t);
        if spec_is_whitespace(c) {
        } else if s.len() >= 2 && !spec_is_whitespace(s[s.len() - 2]) {
            assert(t.last() == s[s.len() - 2]);
            lemma_split_ws_nonempty(t);
            let r = split_ws(s);
            assert(r.drop_last() =~= rest.drop_last());
            assert(r.last() == rest.last().push(c));
            assert(concat_all(rest) == concat_all(rest.drop_last()) + rest.last());
            assert(concat_all(r) =~= concat_all(rest).push(c));
        } else {
            let r = split_ws(s);
            assert(r.drop_last() =~= rest);
            assert(concat_all(r) =~= concat_all(rest).push(c));
        }
    }
}

/// The number that decimal digits spell.
pub open spec fn decimal_value(d: Seq<char>) -> int
    decreases d.len(),
{
    if d.len() == 0 {
        0
    } else {
        10 * decimal_value(d.drop_last()) + (d.last() as int - 48)
    }
}

/// `decimal(n)` is made of the digits `0`-`9`, starts with a non-zero digit
/// unless `n` is 0, and spells `n`.
pub proof fn lemma_decimal_spells(n: nat)
    ensures
        decimal(n).len() > 0,
        forall|i: int| 0 <= i < decimal(n).len() ==> '0' <= #[trigger] decimal(n)[i] <= '9',
        n > 0 ==> decimal(n)[0] != '0',
        decimal_value(decimal(n)) == n,
    decreases n,
{
    if n < 10 {
        assert(digit_char(n) as int == n + 48);
        assert(decimal(n).drop_last() =~= Seq::<char>::empty());
        assert(decimal_value(decimal(n).drop_last()) == 0);
    } else {
        lemma_decimal_spells(n / 10);
        let d = decimal(n);
        assert(d.drop_last() =~= decimal(n / 10));
        assert(digit_char(n % 10) as int == n % 10 + 48);
        assert(d[0] == decimal(n / 10)[0]);
        assert(d.last() == digit_char(n % 10));
        assert(decimal_value(d) == 10 * (n / 10) + n % 10);
    }
}


/// Trimming removes only whitespace, and only at the ends: `trim(s)` is the
/// part of `s` between a whitespace prefix and a whitespace suffix, and when
/// not empty it starts and ends with a character that is not whitespace.
pub proof fn lemma_trim_shape(s: Seq<char>)
    ensures
        exists|a: int, b: int|
            #![trigger s.subrange(a, b)]
            0 <= a <= b <= s.len() && trim(s) == s.subrange(a, b) && (forall|i: int|
                0 <= i < a ==> spec_is_whitespace(#[trigger] s[i])) && (forall|i: int|
                b <= i < s.len() ==> spec_is_whitespace(#[trigger] s[i])),
        trim(s).len() > 0 ==> !spec_is_whitespace(trim(s)[0]) && !spec_is_whitespace(trim(s).last()),
{
    lemma_trim_ends(s);
    lemma_trim_start_shape(s);
    let u = trim_start(s);
    lemma_trim_end_shape(u);
    let a = s.len() - u.len();
    let b = a + trim(s).len();
    lemma_trim_start_ws_prefix(s);
    lemma_trim_end_ws_suffix(u);
    assert(trim(s) =~= s.subrange(a, b));
    assert forall|i: int| b <= i < s.len() implies spec_is_whitespace(#[trigger] s[i]) by {
        assert(s[i] == u[i - a]);
    }
}

proof fn lemma_trim_start_ws_prefix(s: Seq<char>)
    ensures
        forall|i: int| 0 <= i < s.len() - trim_start(s).len() ==> spec_is_whitespace(#[trigger] s[i]),
    decreases s.len(),
{
    lemma_trim_start_shape(s);
    if s.len() > 0 && spec_is_whitespace(s[0]) {
        let t = s.drop_first();
        lemma_trim_start_ws_prefix(t);
        assert forall|i: int| 0 <= i < s.len() - trim_start(s).len() implies spec_is_whitespace(#[trigger] s[i]) by {
            if i > 0 {
                assert(s[i] == t[i - 1]);
            }
        }
    }
}

proof fn lemma_trim_end_ws_suffix(s: Seq<char>)
    ensures
        forall|i: int| trim_end(s).len() <= i < s.len() ==> spec_is_whitespace(#[trigger] s[i]),
    decreases s.len(),
{
    lemma_trim_end_shape(s);
    if s.len() > 0 && spec_is_whitespace(s.last()) {
        let t = s.drop_last();
        lemma_trim_end_ws_suffix(t);
        assert forall|i: int| trim_end(s).len() <= i < s.len() implies spec_is_whitespace(#[trigger] s[i]) by {
            if i < t.len() {
                assert(s[i] == t[i]);
            }
        }
    }
}

/// No line holds a newline.
pub proof fn lemma_lines_have_no_newline(s: Seq<char>)
    ensures
        forall|i: int, j: int|
            0 <= i < lines(s).len() && 0 <= j < lines(s)[i].len() ==> #[trigger] lines(s)[i][j] != '\n',
{
    lemma_split_char_pieces_lack(s, '\n');
    lemma_split_char_nonempty(s, '\n');
    let p = split_char(s, '\n');
    let l = lines(s);
    assert forall|i: int, j: int| 0 <= i < l.len() && 0 <= j < l[i].len() implies #[trigger] l[i][j] != '\n' by {
        if i < p.len() - 1 {
            assert(l[i] == strip_cr(p[i]));
            assert(l[i][j] == p[i][j]);
        } else {
            assert(l[i] == p.last());
            assert(p.last() == p[p.len() - 1]);
        }
    }
}

/// No piece of `split_char(s, c)` holds `c`.
pub proof fn lemma_split_char_pieces_lack(s: Seq<char>, c: char)
    ensures
        forall|i: int, j: int|
            0 <= i < split_char(s, c).len() && 0 <= j < split_char(s, c)[i].len() ==> #[trigger] split_char(
                s,
                c,
            )[i][j] != c,
    decreases s.len(),
{
    if s.len() > 0 {
        let t = s.drop_last();
        lemma_split_char_pieces_lack(t, c);
        lemma_split_char_nonempty(t, c);
        let rest = split_char(t, c);
        let r = split_char(s, c);
        assert forall|i: int, j: int| 0 <= i < r.len() && 0 <= j < r[i].len() implies #[trigger] r[i][j] != c by {
            if s.last() == c {
                if i < rest.len() {
                    assert(r[i] == rest[i]);
                }
            } else {
                if i == rest.len() - 1 {
                    if j < rest[i].len() {
                        assert(r[i][j] == rest[i][j]);
                    } else {
                        assert(r[i][j] == s.last());
                    }
                } else {
                    assert(r[i] == rest[i]);
                }
            }
        }
    }
}

} // verus!
