use spiral_rsvp::scheduler::{
    build_schedule_slots, expand_schedule, padding_remainder, padding_slots, schedule_frame_count,
    split_words, FrameSlot, WordTiming,
};

fn timing(word: &str, frames: u32) -> WordTiming {
    WordTiming { word: word.to_string(), frames: Some(frames) }
}

fn skipped(word: &str) -> WordTiming {
    WordTiming { word: word.to_string(), frames: None }
}

#[test]
fn words_then_masks_frame_after_frame() {
    let ts = vec![timing("Hello,", 2), skipped("skipped"), timing("ok", 1)];
    let slots = expand_schedule(&ts, 1);
    assert_eq!(slots.len(), 5);
    for (k, s) in slots.iter().enumerate() {
        assert_eq!(s.frame() as usize, k);
    }
    assert!(matches!(&slots[0], FrameSlot::Word { word, source: 0, .. } if word == "Hello"));
    assert!(matches!(&slots[1], FrameSlot::Word { word, source: 0, .. } if word == "Hello"));
    assert!(matches!(&slots[2], FrameSlot::Mask { word_len: 6, source: 0, .. }));
    assert!(matches!(&slots[3], FrameSlot::Word { word, source: 2, .. } if word == "ok"));
    assert!(matches!(&slots[4], FrameSlot::Mask { word_len: 2, source: 2, .. }));
    assert_eq!(schedule_frame_count(&ts, 1), Some(5));
}

#[test]
fn a_word_held_zero_frames_still_gets_its_masks() {
    let ts = vec![timing("zero", 0), skipped("gone")];
    let slots = expand_schedule(&ts, 2);
    assert_eq!(slots.len(), 2);
    assert!(matches!(&slots[0], FrameSlot::Mask { frame: 0, word_len: 4, source: 0 }));
    assert!(matches!(&slots[1], FrameSlot::Mask { frame: 1, word_len: 4, source: 0 }));
}

#[test]
fn mask_length_counts_characters() {
    let ts = vec![timing("«héllo»", 1)];
    let slots = expand_schedule(&ts, 2);
    assert_eq!(slots.len(), 3);
    assert!(matches!(&slots[0], FrameSlot::Word { word, .. } if word == "héllo"));
    assert!(matches!(&slots[1], FrameSlot::Mask { word_len: 7, .. }));
    assert!(matches!(&slots[2], FrameSlot::Mask { frame: 2, word_len: 7, .. }));
}

#[test]
fn frame_count_overflow_is_detected() {
    let ts = vec![timing("a", u32::MAX), timing("b", 1)];
    assert_eq!(schedule_frame_count(&ts, 0), None);
    let ts = vec![timing("a", u32::MAX - 1)];
    assert_eq!(schedule_frame_count(&ts, 1), Some(u32::MAX));
}

#[test]
fn padding_completes_the_period() {
    assert_eq!(padding_remainder(10, 25), 5);
    assert_eq!(padding_remainder(10, 30), 10);
    assert_eq!(padding_remainder(1, 7), 1);
    let pad = padding_slots(4, 9);
    assert_eq!(pad.len(), 3);
    let frames: Vec<u32> = pad.iter().map(|s| s.frame()).collect();
    assert_eq!(frames, vec![9, 10, 11]);
    assert!(pad.iter().all(|s| matches!(s, FrameSlot::Padding { .. })));
}

#[test]
fn built_schedule_loops_on_whole_periods() {
    let ts = vec![timing("one", 3), timing("two.", 2)];
    let slots = build_schedule_slots(&ts, 1, 4);
    // 3 + 1 + 2 + 1 = 7 frames of words, then 1 padding frame
    assert_eq!(slots.len(), 8);
    assert_eq!(slots.len() % 4, 0);
    for (k, s) in slots.iter().enumerate() {
        assert_eq!(s.frame() as usize, k);
    }
    assert!(matches!(&slots[5], FrameSlot::Word { word, .. } if word == "two"));
    assert!(matches!(&slots[7], FrameSlot::Padding { frame: 7 }));

    let slots = build_schedule_slots(&ts, 1, 7);
    assert_eq!(slots.len(), 14);
    assert!(slots[7..].iter().all(|s| matches!(s, FrameSlot::Padding { .. })));
}

#[test]
fn split_words_on_whitespace() {
    assert_eq!(split_words("  Hello,\tbrave\n new  world "), vec!["Hello,", "brave", "new", "world"]);
    assert!(split_words("   ").is_empty());
    assert!(split_words("").is_empty());
}
