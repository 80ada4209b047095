//! Integer color channels from a packed `0xRRGGBB` value or a hex string.

use vstd::prelude::*;

verus! {

/// The red, green and blue bytes of `0xRRGGBB` (higher bits ignored).
pub open spec fn spec_hex_rgb(value: u32) -> Seq<u8> {
    seq![((value / 0x10000) % 0x100) as u8, ((value / 0x100) % 0x100) as u8, (value % 0x100) as u8]
}

/// The channels of a packed `0xRRGGBB` color.
pub fn hex_rgb(value: u32) -> (rgb: [u8; 3])
    ensures
        rgb@ == spec_hex_rgb(value),
{
    let r = ((value >> 16) & 0xFF) as u8;
    let g = ((value >> 8) & 0xFF) as u8;
    let b = (value & 0xFF) as u8;
    assert(((value >> 16) & 0xFF) == (value / 0x10000) % 0x100) by (bit_vector);
    assert(((value >> 8) & 0xFF) == (value / 0x100) % 0x100) by (bit_vector);
    assert((value & 0xFF) == value % 0x100) by (bit_vector);
    let rgb = [r, g, b];
    assert(rgb@ =~= spec_hex_rgb(value));
    rgb
}

/// Packing the channels back gives the color's low 24 bits.
pub proof fn lemma_hex_rgb_repacks(value: u32)
    ensures
        spec_hex_rgb(value)[0] * 0x10000 + spec_hex_rgb(value)[1] * 0x100 + spec_hex_rgb(value)[2]
            == value % 0x1000000,
{
    let r = (value / 0x10000) % 0x100;
    let g = (value / 0x100) % 0x100;
    let b = value % 0x100;
    assert(r * 0x10000 + g * 0x100 + b == value % 0x1000000) by (nonlinear_arith)
        requires
            r == (value / 0x10000) % 0x100,
            g == (value / 0x100) % 0x100,
            b == value % 0x100,
            value >= 0,
    ;
}

/// The value of an ASCII hex digit (either case).
pub open spec fn hex_digit_value(c: u8) -> Option<u8> {
    if 48 <= c <= 57 {
        Some((c - 48) as u8)
    } else if 97 <= c <= 102 {
        Some((c - 97 + 10) as u8)
    } else if 65 <= c <= 70 {
        Some((c - 65 + 10) as u8)
    } else {
        None
    }
}

pub open spec fn is_hex_digit(c: u8) -> bool {
    hex_digit_value(c) is Some
}

/// The digits of a color string: without a leading `#`.
pub open spec fn hex_body(s: Seq<u8>) -> Seq<u8> {
    if s.len() > 0 && s[0] == 35 {
        s.drop_first()
    } else {
        s
    }
}

/// `#rgb`, `#rrggbb`, `rgb` or `rrggbb` in hex digits.
pub open spec fn is_hex_color(s: Seq<u8>) -> bool {
    let d = hex_body(s);
    &&& s.len() > 0
    &&& (d.len() == 3 || d.len() == 6)
    &&& forall|i: int| 0 <= i < d.len() ==> is_hex_digit(#[trigger] d[i])
}

/// The value of a hex digit, as an integer.
pub open spec fn dv(c: u8) -> int {
    hex_digit_value(c)->0 as int
}

/// The channels a hex color string names; `#fcc` is short for `#ffcccc`.
pub open spec fn spec_hex_str_rgb(s: Seq<u8>) -> Seq<u8> {
    let d = hex_body(s);
    if d.len() == 3 {
        seq![(dv(d[0]) * 17) as u8, (dv(d[1]) * 17) as u8, (dv(d[2]) * 17) as u8]
    } else {
        seq![
            (dv(d[0]) * 16 + dv(d[1])) as u8,
            (dv(d[2]) * 16 + dv(d[3])) as u8,
            (dv(d[4]) * 16 + dv(d[5])) as u8,
        ]
    }
}

fn hex_digit(c: u8) -> (v: u8)
    requires
        is_hex_digit(c),
    ensures
        v == hex_digit_value(c)->0,
        v < 16,
{
    if 48 <= c && c <= 57 {
        c - 48
    } else if 97 <= c && c <= 102 {
        c - 97 + 10
    } else {
        c - 65 + 10
    }
}

/// Whether `s` is a hex color string (see `is_hex_color`).
pub fn is_hex_color_str(s: &[u8]) -> (b: bool)
    ensures
        b == is_hex_color(s@),
{
    if s.len() == 0 {
        return false;
    }
    let offset: usize = if s[0] == 35 { 1 } else { 0 };
    let len = s.len() - offset;
    if len != 3 && len != 6 {
        assert(hex_body(s@).len() == len);
        return false;
    }
    let mut i: usize = 0;
    while i < len
        invariant
            i <= len,
            offset + len == s.len(),
            hex_body(s@) =~= s@.skip(offset as int),
            forall|j: int| 0 <= j < i ==> is_hex_digit(#[trigger] hex_body(s@)[j]),
        decreases len - i,
    {
        let c = s[offset + i];
        if !(48 <= c && c <= 57 || 97 <= c && c <= 102 || 65 <= c && c <= 70) {
            assert(!is_hex_digit(hex_body(s@)[i as int]));
            return false;
        }
        i = i + 1;
    }
    true
}

/// The channels of a hex color string such as `#ffcccc` or `fcc`.
pub fn hex_str_rgb(s: &[u8]) -> (rgb: [u8; 3])
    requires
        is_hex_color(s@),
    ensures
        rgb@ == spec_hex_str_rgb(s@),
{
    let offset: usize = if s[0] == 35 { 1 } else { 0 };
    let len = s.len() - offset;
    let ghost d = hex_body(s@);
    assert(d =~= s@.skip(offset as int));
    assert(d.len() == len);
    let rgb = if len == 3 {
        assert(is_hex_digit(d[0]) && is_hex_digit(d[1]) && is_hex_digit(d[2]));
        let r = hex_digit(s[offset]);
        let g = hex_digit(s[offset + 1]);
        let b = hex_digit(s[offset + 2]);
        [r * 16 + r, g * 16 + g, b * 16 + b]
    } else {
        assert(is_hex_digit(d[0]) && is_hex_digit(d[1]) && is_hex_digit(d[2]));
        assert(is_hex_digit(d[3]) && is_hex_digit(d[4]) && is_hex_digit(d[5]));
        let r1 = hex_digit(s[offset]);
        let r2 = hex_digit(s[offset + 1]);
        let g1 = hex_digit(s[offset + 2]);
        let g2 = hex_digit(s[offset + 3]);
        let b1 = hex_digit(s[offset + 4]);
        let b2 = hex_digit(s[offset + 5]);
        [r1 * 16 + r2, g1 * 16 + g2, b1 * 16 + b2]
    };
    assert(rgb@ =~= spec_hex_str_rgb(s@));
    rgb
}

/// A three-digit color names the six-digit color that doubles each digit.
pub proof fn lemma_hex_shorthand(x: u8, y: u8, z: u8)
    requires
        is_hex_digit(x),
        is_hex_digit(y),
        is_hex_digit(z),
    ensures
        spec_hex_str_rgb(seq![35u8, x, y, z]) == spec_hex_str_rgb(seq![35u8, x, x, y, y, z, z]),
        is_hex_color(seq![35u8, x, y, z]) && is_hex_color(seq![35u8, x, x, y, y, z, z]),
{
    let s3 = seq![35u8, x, y, z];
    let s6 = seq![35u8, x, x, y, y, z, z];
    assert(hex_body(s3) =~= seq![x, y, z]);
    assert(hex_body(s6) =~= seq![x, x, y, y, z, z]);
    assert(spec_hex_str_rgb(s3) =~= spec_hex_str_rgb(s6));
}


/// Every ASCII digit is a hex digit worth its decimal value, and the letters
/// `a`-`f` and `A`-`F` are worth 10 to 15.
pub proof fn lemma_hex_digit_values(c: u8)
    ensures
        48 <= c <= 57 ==> hex_digit_value(c) == Some((c - 48) as u8),
        97 <= c <= 102 ==> hex_digit_value(c) == Some((c - 87) as u8),
        65 <= c <= 70 ==> hex_digit_value(c) == Some((c - 55) as u8),
        !(48 <= c <= 57 || 97 <= c <= 102 || 65 <= c <= 70) ==> hex_digit_value(c) is None,
{
}

/// The lowercase hex digit for `d < 16`.
pub open spec fn hex_char(d: int) -> u8 {
    if d < 10 {
        (48 + d) as u8
    } else {
        (87 + d) as u8
    }
}

/// `#rrggbb` for the given channels, in lowercase hex.
pub open spec fn hex_encode(r: u8, g: u8, b: u8) -> Seq<u8> {
    seq![
        35u8,
        hex_char((r / 16) as int),
        hex_char((r % 16) as int),
        hex_char((g / 16) as int),
        hex_char((g % 16) as int),
        hex_char((b / 16) as int),
        hex_char((b % 16) as int),
    ]
}

proof fn lemma_hex_char_value(d: int)
    requires
        0 <= d < 16,
    ensures
        is_hex_digit(hex_char(d)),
        dv(hex_char(d)) == d,
{
}

/// Decoding inverts encoding: the string `#rrggbb` written for any three
/// channels is a hex color that names exactly those channels.
pub proof fn lemma_hex_str_roundtrip(r: u8, g: u8, b: u8)
    ensures
        is_hex_color(hex_encode(r, g, b)),
        spec_hex_str_rgb(hex_encode(r, g, b)) == seq![r, g, b],
{
    let s = hex_encode(r, g, b);
    let d = hex_body(s);
    assert(d =~= s.drop_first());
    lemma_hex_char_value((r / 16) as int);
    lemma_hex_char_value((r % 16) as int);
    lemma_hex_char_value((g / 16) as int);
    lemma_hex_char_value((g % 16) as int);
    lemma_hex_char_value((b / 16) as int);
    lemma_hex_char_value((b % 16) as int);
    assert(forall|i: int| 0 <= i < d.len() ==> is_hex_digit(#[trigger] d[i])) by {
        assert(d[0] == hex_char((r / 16) as int));
        assert(d[5] == hex_char((b % 16) as int));
    }
    assert((r / 16) * 16 + r % 16 == r);
    assert((g / 16) * 16 + g % 16 == g);
    assert((b / 16) * 16 + b % 16 == b);
    assert(spec_hex_str_rgb(s) =~= seq![r, g, b]);
}

} // verus!
