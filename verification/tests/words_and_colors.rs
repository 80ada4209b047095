use spiral_rsvp::color::{hex_rgb, hex_str_rgb, is_hex_color_str};
use spiral_rsvp::rsvp::{
    apply_punctuation, clean_word, determine_orp, generate_random_mask, mask_from_indices, MASK_CHARSET,
};
use spiral_rsvp::wav::wav_header;

#[test]
fn orp_table() {
    let expected = [0, 0, 1, 1, 1, 1, 2, 2, 2, 2, 3, 3, 3, 4, 4, 4];
    for (n, e) in expected.iter().enumerate() {
        assert_eq!(determine_orp(n), *e, "length {}", n);
    }
    assert_eq!(determine_orp(1000), 4);
    for n in 1..40 {
        assert!(determine_orp(n) < n);
    }
}

#[test]
fn cleaning_words() {
    assert_eq!(clean_word("\"Hello!\""), "Hello");
    assert_eq!(clean_word("(world),"), "world");
    assert_eq!(clean_word("don't"), "don't");
    assert_eq!(clean_word("...!"), "");
    assert_eq!(clean_word("«ça»"), "ça");
    assert_eq!(clean_word(clean_word("--x--")), clean_word("--x--"));
}

#[test]
fn punctuation_doubles_the_hold() {
    assert_eq!(apply_punctuation("end."), 2);
    assert_eq!(apply_punctuation("what?"), 2);
    assert_eq!(apply_punctuation("wow!"), 2);
    assert_eq!(apply_punctuation("so;"), 2);
    assert_eq!(apply_punctuation("and,"), 2);
    assert_eq!(apply_punctuation("word"), 1);
    assert_eq!(apply_punctuation("\"quoted.\""), 1);
    assert_eq!(apply_punctuation(""), 1);
}

#[test]
fn masks_have_the_word_length() {
    for len in [0usize, 1, 5, 12] {
        let m = generate_random_mask(len);
        assert_eq!(m.chars().count(), len);
        assert!(m.bytes().all(|b| MASK_CHARSET.contains(&b)));
    }
}

#[test]
fn hex_values() {
    assert_eq!(hex_rgb(0x12ab34), [0x12, 0xab, 0x34]);
    assert_eq!(hex_rgb(0xff00_0000), [0, 0, 0]);
    assert_eq!(hex_rgb(0xffffff), [255, 255, 255]);
}

#[test]
fn hex_strings() {
    assert!(is_hex_color_str(b"#fcc"));
    assert!(is_hex_color_str(b"FFCCCC"));
    assert_eq!(hex_str_rgb(b"#fcc"), [255, 204, 204]);
    assert_eq!(hex_str_rgb(b"#ffcccc"), [255, 204, 204]);
    assert_eq!(hex_str_rgb(b"1A2b3C"), [0x1a, 0x2b, 0x3c]);
    assert!(!is_hex_color_str(b""));
    assert!(!is_hex_color_str(b"#"));
    assert!(!is_hex_color_str(b"#ggg"));
    assert!(!is_hex_color_str(b"#12345"));
    assert!(!is_hex_color_str(b"##fcc"));
}

#[test]
fn wav_header_bytes() {
    let h = wav_header(4, 44100);
    let mut expected: Vec<u8> = Vec::new();
    expected.extend_from_slice(b"RIFF");
    expected.extend_from_slice(&(36u32 + 16).to_le_bytes());
    expected.extend_from_slice(b"WAVE");
    expected.extend_from_slice(b"fmt ");
    expected.extend_from_slice(&16u32.to_le_bytes());
    expected.extend_from_slice(&3u16.to_le_bytes());
    expected.extend_from_slice(&2u16.to_le_bytes());
    expected.extend_from_slice(&44100u32.to_le_bytes());
    expected.extend_from_slice(&(44100u32 * 8).to_le_bytes());
    expected.extend_from_slice(&8u16.to_le_bytes());
    expected.extend_from_slice(&32u16.to_le_bytes());
    expected.extend_from_slice(b"data");
    expected.extend_from_slice(&16u32.to_le_bytes());
    assert_eq!(h, expected);
    assert_eq!(h.len(), 44);
}

#[test]
fn whitespace_set_matches_char_is_whitespace() {
    for u in 0u32..=0x10FFFF {
        if let Some(c) = char::from_u32(u) {
            assert_eq!(spiral_rsvp::text::is_whitespace(c), c.is_whitespace(), "U+{:04X}", u);
        }
    }
}

#[test]
fn masks_from_drawn_indices() {
    assert_eq!(mask_from_indices(&vec![]), "");
    assert_eq!(mask_from_indices(&vec![0, 7, 3, 3]), "#=@@");
    assert_eq!(mask_from_indices(&vec![1, 2, 4, 5, 6]), "%&$*+");
}
