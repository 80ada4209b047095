//! The syntax of decimal floating-point literals that `f32`'s `FromStr`
//! accepts, as its documentation gives it:
//!
//! ```text
//! Float  ::= Sign? ( 'inf' | 'infinity' | 'nan' | Number )
//! Number ::= ( Digit+ | Digit+ '.' Digit* | Digit* '.' Digit+ ) Exp?
//! Exp    ::= 'e' Sign? Digit+
//! Sign   ::= [+-]
//! Digit  ::= [0-9]
//! ```
//!
//! matched after lowercasing, with no surrounding whitespace.

use vstd::prelude::*;

use crate::text::{chars_of, find, find_in, lemma_find, matches_at};

verus! {

pub open spec fn is_ascii_digit(c: char) -> bool {
    '0' <= c && c <= '9'
}

pub open spec fn all_digits(s: Seq<char>) -> bool {
    forall|i: int| 0 <= i < s.len() ==> is_ascii_digit(#[trigger] s[i])
}

pub open spec fn is_sign(c: char) -> bool {
    c == '+' || c == '-'
}

/// ASCII lowercasing of one character.
pub open spec fn ascii_lower(c: char) -> char {
    if 'A' <= c && c <= 'Z' {
        (((c as u8) + 32) as u8) as char
    } else {
        c
    }
}

pub open spec fn lowercase(s: Seq<char>) -> Seq<char> {
    s.map_values(|c: char| ascii_lower(c))
}

/// `Digit+ | Digit+ '.' Digit* | Digit* '.' Digit+`
pub open spec fn is_mantissa(m: Seq<char>) -> bool {
    (m.len() > 0 && all_digits(m)) || (m.len() >= 2 && exists|d: int|
        0 <= d < m.len() && #[trigger] m[d] == '.' && all_digits(m.take(d)) && all_digits(
            m.skip(d + 1),
        ))
}

/// `Sign? Digit+`, what follows the `e` of an exponent.
pub open spec fn is_exponent(e: Seq<char>) -> bool {
    let digits = if e.len() > 0 && is_sign(e[0]) {
        e.drop_first()
    } else {
        e
    };
    digits.len() > 0 && all_digits(digits)
}

/// `Number`, over lowercased text.
pub open spec fn is_number(n: Seq<char>) -> bool {
    match find(n, seq!['e']) {
        Some(k) => is_mantissa(n.take(k)) && is_exponent(n.skip(k + 1)),
        None => is_mantissa(n),
    }
}

/// `s` is text that `f32`'s `FromStr` turns into a number.
pub open spec fn is_float_literal(s: Seq<char>) -> bool {
    let l = lowercase(s);
    let body = if l.len() > 0 && is_sign(l[0]) {
        l.drop_first()
    } else {
        l
    };
    body == "inf"@ || body == "infinity"@ || body == "nan"@ || is_number(body)
}

fn is_digit(c: char) -> (b: bool)
    ensures
        b == is_ascii_digit(c),
{
    '0' <= c && c <= '9'
}

fn lower(c: char) -> (r: char)
    ensures
        r == ascii_lower(c),
{
    if 'A' <= c && c <= 'Z' {
        ((c as u8) + 32) as char
    } else {
        c
    }
}

/// Whether `v[lo..hi]` is a `Number` mantissa.
fn mantissa_in(v: &Vec<char>, lo: usize, hi: usize) -> (b: bool)
    requires
        lo <= hi <= v.len(),
    ensures
        b == is_mantissa(v@.subrange(lo as int, hi as int)),
{
    let ghost m = v@.subrange(lo as int, hi as int);
    let mut i = lo;
    while i < hi && is_digit(v[i])
        invariant
            lo <= i <= hi <= v.len(),
            forall|j: int| lo <= j < i ==> is_ascii_digit(#[trigger] v@[j]),
        decreases hi - i,
    {
        i = i + 1;
    }
    assert(all_digits(m.take(i - lo))) by {
        assert forall|j: int| 0 <= j < i - lo implies is_ascii_digit(#[trigger] m.take(i - lo)[j]) by {
            assert(m.take(i - lo)[j] == v@[lo + j]);
        }
    }
    if i == hi {
        assert(m.take(i - lo) =~= m);
        return hi > lo;
    }
    assert(m[i - lo] == v@[i as int]);
    assert(!all_digits(m)) by {
        assert(!is_ascii_digit(m[i - lo]));
    }
    if v[i] != '.' {
        assert(!is_mantissa(m)) by {
            if m.len() >= 2 && exists|d: int|
                0 <= d < m.len() && #[trigger] m[d] == '.' && all_digits(m.take(d)) && all_digits(
                    m.skip(d + 1),
                ) {
                let d = choose|d: int|
                    0 <= d < m.len() && #[trigger] m[d] == '.' && all_digits(m.take(d)) && all_digits(
                        m.skip(d + 1),
                    );
                if d < i - lo {
                    assert(m.take(i - lo)[d] == m[d]);
                } else if d > i - lo {
                    assert(m.take(d)[i - lo] == m[i - lo]);
                }
            }
        }
        return false;
    }
    let mut j = i + 1;
    while j < hi && is_digit(v[j])
        invariant
            lo <= i < j <= hi <= v.len(),
            forall|k: int| i < k < j ==> is_ascii_digit(#[trigger] v@[k]),
        decreases hi - j,
    {
        j = j + 1;
    }
    let d = i - lo;
    if j == hi {
        assert(all_digits(m.skip(d + 1))) by {
            assert forall|k: int| 0 <= k < m.skip(d + 1).len() implies is_ascii_digit(
                #[trigger] m.skip(d + 1)[k],
            ) by {
                assert(m.skip(d + 1)[k] == v@[i + 1 + k]);
            }
        }
        if hi - lo >= 2 {
            assert(m[d as int] == '.');
        }
        return hi - lo >= 2;
    }
    assert(!is_mantissa(m)) by {
        assert(m[j - lo] == v@[j as int]);
        if m.len() >= 2 && exists|e: int|
            0 <= e < m.len() && #[trigger] m[e] == '.' && all_digits(m.take(e)) && all_digits(
                m.skip(e + 1),
            ) {
            let e = choose|e: int|
                0 <= e < m.len() && #[trigger] m[e] == '.' && all_digits(m.take(e)) && all_digits(
                    m.skip(e + 1),
                );
            if e < d {
                assert(m.take(d as int)[e] == m[e]);
            } else if e > d {
                assert(m.take(e)[d as int] == m[d as int]);
            } else {
                assert(m.skip(e + 1)[j - lo - e - 1] == m[j - lo]);
            }
        }
    }
    false
}


/// Whether every character of `v[lo..hi]` is an ASCII digit.
fn all_digits_in(v: &Vec<char>, lo: usize, hi: usize) -> (b: bool)
    requires
        lo <= hi <= v.len(),
    ensures
        b == all_digits(v@.subrange(lo as int, hi as int)),
{
    let ghost m = v@.subrange(lo as int, hi as int);
    let mut i = lo;
    while i < hi
        invariant
            lo <= i <= hi <= v.len(),
            m == v@.subrange(lo as int, hi as int),
            forall|j: int| lo <= j < i ==> is_ascii_digit(#[trigger] v@[j]),
        decreases hi - i,
    {
        if !is_digit(v[i]) {
            assert(!is_ascii_digit(m[i - lo]));
            return false;
        }
        i = i + 1;
    }
    assert forall|j: int| 0 <= j < m.len() implies is_ascii_digit(#[trigger] m[j]) by {
        assert(m[j] == v@[lo + j]);
    }
    true
}

/// Whether `v[lo..hi]` is what follows the `e` of an exponent.
fn exponent_in(v: &Vec<char>, lo: usize, hi: usize) -> (b: bool)
    requires
        lo <= hi <= v.len(),
    ensures
        b == is_exponent(v@.subrange(lo as int, hi as int)),
{
    let ghost e = v@.subrange(lo as int, hi as int);
    let start = if lo < hi && (v[lo] == '+' || v[lo] == '-') {
        assert(e[0] == v@[lo as int]);
        assert(e.drop_first() =~= v@.subrange(lo + 1, hi as int));
        lo + 1
    } else {
        lo
    };
    hi > start && all_digits_in(v, start, hi)
}

/// Whether `v[lo..hi]` (lowercased) is a `Number`.
fn number_in(v: &Vec<char>, lo: usize, hi: usize) -> (b: bool)
    requires
        lo <= hi <= v.len(),
    ensures
        b == is_number(v@.subrange(lo as int, hi as int)),
{
    let ghost n = v@.subrange(lo as int, hi as int);
    let mut e: Vec<char> = Vec::new();
    e.push('e');
    assert(e@ =~= seq!['e']);
    match find_in(v, lo, hi, &e) {
        Some(k) => {
            assert(n.take(k - lo) =~= v@.subrange(lo as int, k as int));
            assert(n.skip(k - lo + 1) =~= v@.subrange(k + 1, hi as int));
            mantissa_in(v, lo, k) && exponent_in(v, k + 1, hi)
        },
        None => mantissa_in(v, lo, hi),
    }
}

/// Whether `v[lo..hi]` is text that `f32`'s `FromStr` accepts.
pub fn float_literal_in(v: &Vec<char>, lo: usize, hi: usize) -> (b: bool)
    requires
        lo <= hi <= v.len(),
    ensures
        b == is_float_literal(v@.subrange(lo as int, hi as int)),
{
    let ghost s = v@.subrange(lo as int, hi as int);
    let mut l: Vec<char> = Vec::new();
    let mut i = lo;
    while i < hi
        invariant
            lo <= i <= hi <= v.len(),
            l@ == lowercase(v@.subrange(lo as int, i as int)),
        decreases hi - i,
    {
        l.push(lower(v[i]));
        assert(lowercase(v@.subrange(lo as int, i + 1)) =~= lowercase(
            v@.subrange(lo as int, i as int),
        ).push(ascii_lower(v@[i as int])));
        i = i + 1;
    }
    let n = l.len();
    let a: usize = if n > 0 && (l[0] == '+' || l[0] == '-') {
        1
    } else {
        0
    };
    assert(l@.subrange(a as int, n as int) =~= if l@.len() > 0 && is_sign(l@[0]) {
        l@.drop_first()
    } else {
        l@
    });
    let inf = chars_of("inf");
    let infinity = chars_of("infinity");
    let nan = chars_of("nan");
    if crate::text::range_eq(&l, a, n, &inf) || crate::text::range_eq(&l, a, n, &infinity)
        || crate::text::range_eq(&l, a, n, &nan) {
        return true;
    }
    number_in(&l, a, n)
}


proof fn lemma_digits_lower(s: Seq<char>)
    requires
        all_digits(s),
    ensures
        lowercase(s) == s,
{
    assert(lowercase(s) =~= s);
}

proof fn lemma_no_e(s: Seq<char>)
    requires
        forall|i: int| 0 <= i < s.len() ==> #[trigger] s[i] != 'e',
    ensures
        find(s, seq!['e']) is None,
{
    lemma_find(s, seq!['e']);
    if let Some(k) = find(s, seq!['e']) {
        assert(s.subrange(k, k + 1)[0] == s[k]);
    }
}

/// A run of digits is a number; so are the run with a minus sign before it,
/// with a fraction (`d.d`) and with an exponent (`dEd`, either case); an
/// exponent with no digits before it, and a lone `.`, are not.
pub proof fn lemma_digit_literals(s: Seq<char>)
    requires
        s.len() > 0,
        all_digits(s),
    ensures
        is_float_literal(s),
        is_float_literal(seq!['-'] + s),
        is_float_literal(s + seq!['.'] + s),
        is_float_literal(s + seq!['e'] + s),
        is_float_literal(s + seq!['E'] + s),
        !is_float_literal(seq!['e'] + s),
        !is_float_literal(seq!['.']),
{
    reveal_strlit("inf");
    reveal_strlit("infinity");
    reveal_strlit("nan");
    lemma_digits_lower(s);
    assert(!is_sign(s[0]));
    lemma_no_e(s);
    assert(s != "inf"@ && s != "infinity"@ && s != "nan"@) by {
        assert(is_ascii_digit(s[0]));
    }
    // -s
    let m = seq!['-'] + s;
    assert(lowercase(m) =~= m);
    assert(m.drop_first() =~= s);
    // s.s
    let f = s + seq!['.'] + s;
    assert(lowercase(f) =~= f);
    assert forall|i: int| 0 <= i < f.len() implies #[trigger] f[i] != 'e' by {
        if i < s.len() {
            assert(f[i] == s[i]);
        } else if i > s.len() {
            assert(f[i] == s[i - s.len() - 1]);
        }
    }
    lemma_no_e(f);
    assert(f[s.len() as int] == '.');
    assert(f.take(s.len() as int) =~= s);
    assert(f.skip(s.len() + 1int) =~= s);
    assert(!is_sign(f[0]) && f[0] == s[0]);
    assert(f != "inf"@ && f != "infinity"@ && f != "nan"@) by {
        assert(is_ascii_digit(f[0]));
    }
    // sEs and ses
    let e = s + seq!['e'] + s;
    let ue = s + seq!['E'] + s;
    assert(lowercase(ue) =~= e);
    assert(lowercase(e) =~= e);
    assert forall|i: int| 0 <= i < s.len() implies #[trigger] e[i] != 'e' by {
        assert(e[i] == s[i]);
    }
    lemma_find(e, seq!['e']);
    assert(matches_at(e, s.len() as int, seq!['e'])) by {
        assert(e.subrange(s.len() as int, s.len() + 1int) =~= seq!['e']);
    }
    match find(e, seq!['e']) {
        Some(k) => {
            if k < s.len() {
                assert(e.subrange(k, k + 1)[0] == e[k]);
            }
            assert(k == s.len());
        },
        None => {},
    }
    assert(e.take(s.len() as int) =~= s);
    assert(e.skip(s.len() + 1int) =~= s);
    assert(!is_sign(e[0]) && e[0] == s[0]);
    assert(e != "inf"@ && e != "infinity"@ && e != "nan"@) by {
        assert(is_ascii_digit(e[0]));
    }
    // es
    let es = seq!['e'] + s;
    assert(lowercase(es) =~= es);
    lemma_find(es, seq!['e']);
    assert(matches_at(es, 0, seq!['e'])) by {
        assert(es.subrange(0, 1) =~= seq!['e']);
    }
    assert(es.take(0) =~= Seq::<char>::empty());
    assert(es != "inf"@ && es != "infinity"@ && es != "nan"@) by {
        assert(es[0] == 'e');
    }
    // .
    let dot = seq!['.'];
    assert(lowercase(dot) =~= dot);
    lemma_no_e(dot);
    assert(!is_mantissa(dot));
}

} // verus!
