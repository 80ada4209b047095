//! The frame schedule: which frame shows which word, mask or padding.
//!
//! How many frames each word is held for depends on floating-point timing
//! and is decided by the caller; this module lays the frames out: the word's
//! frames, then the masking frames after it, frame after frame, and then the
//! padding that makes the schedule a whole number of spiral periods.

use vstd::prelude::*;

use vstd::arithmetic::div_mod::{lemma_fundamental_div_mod, lemma_mod_multiples_basic};

use crate::rsvp::{clean_word, spec_clean_word};
use crate::text::{
    chars_of, copy_range, lemma_split_ws_tokens, range_views, ranges_within, spec_is_whitespace, split_ws,
    split_ws_ranges, string_from_chars,
};

verus! {

broadcast use vstd::string::group_string_axioms;

/// A word of a block and the number of frames it is held for; `None` when
/// the word is skipped (held for less than a frame), masks included.
pub struct WordTiming {
    pub word: String,
    pub frames: Option<u32>,
}

/// What one frame shows; `source` is the index of the `WordTiming` it comes from.
#[derive(Debug)]
pub enum FrameSlot {
    /// The cleaned word.
    Word { frame: u32, word: String, source: usize },
    /// A mask as long (in characters) as the word.
    Mask { frame: u32, word_len: usize, source: usize },
    /// The spiral alone.
    Padding { frame: u32 },
}

/// A frame's content, without its position.
pub enum SlotModel {
    Word { word: Seq<char>, source: nat },
    Mask { word_len: nat, source: nat },
    Padding,
}

impl FrameSlot {
    pub open spec fn frame_of(&self) -> u32 {
        match self {
            FrameSlot::Word { frame, .. } => *frame,
            FrameSlot::Mask { frame, .. } => *frame,
            FrameSlot::Padding { frame } => *frame,
        }
    }

    pub open spec fn model(&self) -> SlotModel {
        match self {
            FrameSlot::Word { word, source, .. } => SlotModel::Word { word: word@, source: *source as nat },
            FrameSlot::Mask { word_len, source, .. } => SlotModel::Mask {
                word_len: *word_len as nat,
                source: *source as nat,
            },
            FrameSlot::Padding { .. } => SlotModel::Padding,
        }
    }

    /// The index of the frame this slot describes.
    pub fn frame(&self) -> (f: u32)
        ensures
            f == self.frame_of(),
    {
        match self {
            FrameSlot::Word { frame, .. } => *frame,
            FrameSlot::Mask { frame, .. } => *frame,
            FrameSlot::Padding { frame } => *frame,
        }
    }
}

pub open spec fn timings_view(ts: Seq<WordTiming>) -> Seq<(Seq<char>, Option<u32>)> {
    ts.map_values(|t: WordTiming| (t.word@, t.frames))
}

pub open spec fn slot_models(s: Seq<FrameSlot>) -> Seq<SlotModel> {
    s.map_values(|x: FrameSlot| x.model())
}

/// Slot `k` describes frame `k`.
pub open spec fn frames_consecutive(s: Seq<FrameSlot>, from: int) -> bool {
    forall|k: int| 0 <= k < s.len() ==> (#[trigger] s[k]).frame_of() == from + k
}

/// The frames of one word: `frames` times the cleaned word, then `masking`
/// masks as long as the word; nothing when the word is skipped.
pub open spec fn timing_slots(word: Seq<char>, frames: Option<u32>, source: nat, masking: nat) -> Seq<SlotModel> {
    match frames {
        None => Seq::empty(),
        Some(n) => Seq::new(n as nat, |j: int| SlotModel::Word { word: spec_clean_word(word), source })
            + Seq::new(
            masking,
            |j: int| SlotModel::Mask { word_len: word.len(), source },
        ),
    }
}

/// The frames of a sequence of words, in order.
pub open spec fn schedule_models(ts: Seq<(Seq<char>, Option<u32>)>, masking: nat) -> Seq<SlotModel>
    decreases ts.len(),
{
    if ts.len() == 0 {
        Seq::empty()
    } else {
        schedule_models(ts.drop_last(), masking) + timing_slots(
            ts.last().0,
            ts.last().1,
            (ts.len() - 1) as nat,
            masking,
        )
    }
}

/// The number of frames of a sequence of words.
pub open spec fn schedule_len(ts: Seq<(Seq<char>, Option<u32>)>, masking: nat) -> nat {
    schedule_models(ts, masking).len()
}

proof fn lemma_schedule_prefix_len(ts: Seq<(Seq<char>, Option<u32>)>, masking: nat, i: int, j: int)
    requires
        0 <= i <= j <= ts.len(),
    ensures
        schedule_len(ts.take(i), masking) <= schedule_len(ts.take(j), masking),
    decreases j - i,
{
    if i < j {
        lemma_schedule_prefix_len(ts, masking, i, j - 1);
        assert(ts.take(j).drop_last() =~= ts.take(j - 1));
    }
}

/// The number of frames of `timings` with `masking_frames` after each shown
/// word, or `None` when it exceeds `u32::MAX`.
pub fn schedule_frame_count(timings: &Vec<WordTiming>, masking_frames: u32) -> (r: Option<u32>)
    ensures
        match r {
            Some(n) => n == schedule_len(timings_view(timings@), masking_frames as nat),
            None => schedule_len(timings_view(timings@), masking_frames as nat) > u32::MAX,
        },
{
    let ghost ts = timings_view(timings@);
    let mut total: u64 = 0;
    let mut i: usize = 0;
    assert(ts.take(0) =~= Seq::<(Seq<char>, Option<u32>)>::empty());
    while i < timings.len()
        invariant
            i <= timings.len(),
            ts == timings_view(timings@),
            total == schedule_len(ts.take(i as int), masking_frames as nat),
            total <= u32::MAX,
        decreases timings.len() - i,
    {
        assert(ts.take(i + 1).drop_last() =~= ts.take(i as int));
        assert(ts.take(i + 1).last() == ts[i as int]);
        if let Some(f) = timings[i].frames {
            total = total + f as u64 + masking_frames as u64;
            if total > 0xffff_ffff {
                proof {
                    lemma_schedule_prefix_len(ts, masking_frames as nat, i + 1, ts.len() as int);
                    assert(ts.take(ts.len() as int) =~= ts);
                }
                return None;
            }
        }
        i = i + 1;
    }
    assert(ts.take(i as int) =~= ts);
    Some(total as u32)
}

/// The frames of the words of `timings`: for each word that is not skipped,
/// its cleaned text for as many frames as it is held and then
/// `masking_frames` masks; slot `k` is frame `k`.
pub fn expand_schedule(timings: &Vec<WordTiming>, masking_frames: u32) -> (out: Vec<FrameSlot>)
    requires
        schedule_len(timings_view(timings@), masking_frames as nat) <= u32::MAX,
    ensures
        slot_models(out@) == schedule_models(timings_view(timings@), masking_frames as nat),
        frames_consecutive(out@, 0),
{
    let ghost ts = timings_view(timings@);
    let ghost m = masking_frames as nat;
    let mut out: Vec<FrameSlot> = Vec::new();
    let mut i: usize = 0;
    assert(ts.take(0) =~= Seq::<(Seq<char>, Option<u32>)>::empty());
    assert(slot_models(out@) =~= Seq::<SlotModel>::empty());
    while i < timings.len()
        invariant
            i <= timings.len(),
            ts == timings_view(timings@),
            m == masking_frames as nat,
            schedule_len(ts, m) <= u32::MAX,
            slot_models(out@) == schedule_models(ts.take(i as int), m),
            frames_consecutive(out@, 0),
        decreases timings.len() - i,
    {
        proof {
            lemma_schedule_prefix_len(ts, m, i + 1, ts.len() as int);
            assert(ts.take(ts.len() as int) =~= ts);
            assert(ts.take(i + 1).drop_last() =~= ts.take(i as int));
            assert(ts.take(i + 1).last() == ts[i as int]);
        }
        let ghost before = slot_models(out@);
        let ghost goal = schedule_models(ts.take(i + 1), m);
        if let Some(frames) = timings[i].frames {
            let word = timings[i].word.as_str();
            let cleaned = clean_word(word).to_owned();
            let word_len = chars_of(word).len();
            let mut j: u32 = 0;
            while j < frames
                invariant
                    j <= frames,
                    ts[i as int].1 == Some(frames),
                    i < ts.len(),
                    cleaned@ == spec_clean_word(ts[i as int].0),
                    slot_models(out@) == before + Seq::new(
                        j as nat,
                        |k: int| SlotModel::Word { word: spec_clean_word(ts[i as int].0), source: i as nat },
                    ),
                    before.len() + frames + m <= u32::MAX,
                    frames_consecutive(out@, 0),
                decreases frames - j,
            {
                let ghost prev = out@;
                let f = out.len() as u32;
                out.push(FrameSlot::Word { frame: f, word: cleaned.clone(), source: i });
                assert(slot_models(out@) =~= slot_models(prev).push(
                    SlotModel::Word { word: spec_clean_word(ts[i as int].0), source: i as nat },
                ));
                j = j + 1;
                assert(before + Seq::new(
                    j as nat,
                    |k: int| SlotModel::Word { word: spec_clean_word(ts[i as int].0), source: i as nat },
                ) =~= before + Seq::new(
                    (j - 1) as nat,
                    |k: int| SlotModel::Word { word: spec_clean_word(ts[i as int].0), source: i as nat },
                ).push(SlotModel::Word { word: spec_clean_word(ts[i as int].0), source: i as nat }));
            }
            let ghost mid = slot_models(out@);
            let mut j: u32 = 0;
            while j < masking_frames
                invariant
                    j <= masking_frames,
                    m == masking_frames as nat,
                    word_len == ts[i as int].0.len(),
                    i < ts.len(),
                    slot_models(out@) == mid + Seq::new(
                        j as nat,
                        |k: int| SlotModel::Mask { word_len: ts[i as int].0.len(), source: i as nat },
                    ),
                    mid.len() + m <= u32::MAX,
                    frames_consecutive(out@, 0),
                decreases masking_frames - j,
            {
                let ghost prev = out@;
                let f = out.len() as u32;
                out.push(FrameSlot::Mask { frame: f, word_len, source: i });
                assert(slot_models(out@) =~= slot_models(prev).push(
                    SlotModel::Mask { word_len: ts[i as int].0.len(), source: i as nat },
                ));
                j = j + 1;
                assert(mid + Seq::new(
                    j as nat,
                    |k: int| SlotModel::Mask { word_len: ts[i as int].0.len(), source: i as nat },
                ) =~= mid + Seq::new(
                    (j - 1) as nat,
                    |k: int| SlotModel::Mask { word_len: ts[i as int].0.len(), source: i as nat },
                ).push(SlotModel::Mask { word_len: ts[i as int].0.len(), source: i as nat }));
            }
            assert(slot_models(out@) =~= goal);
        } else {
            assert(goal =~= before);
        }
        i = i + 1;
    }
    assert(ts.take(i as int) =~= ts);
    out
}


/// A word held `n` frames shows its cleaned text on `n` frames and then a
/// mask as long as the word on each of the `masking` frames after it; a
/// skipped word shows nothing, masks included; the frames of a list of words
/// are those of all but the last, followed by the last one's.
pub proof fn lemma_word_frames(w: Seq<char>, n: u32, masking: nat, ts: Seq<(Seq<char>, Option<u32>)>)
    ensures
        ({
            let f = schedule_models(seq![(w, Some(n))], masking);
            &&& f.len() == n + masking
            &&& forall|k: int|
                0 <= k < n ==> #[trigger] f[k] == (SlotModel::Word { word: spec_clean_word(w), source: 0 })
            &&& forall|k: int|
                n <= k < n + masking ==> #[trigger] f[k] == (SlotModel::Mask { word_len: w.len(), source: 0 })
        }),
        schedule_models(seq![(w, None::<u32>)], masking).len() == 0,
        schedule_models(ts.push((w, Some(n))), masking).len() == schedule_len(ts, masking) + n + masking,
        schedule_models(ts.push((w, None::<u32>)), masking) == schedule_models(ts, masking),
{
    let one = seq![(w, Some(n))];
    assert(one.drop_last() =~= Seq::<(Seq<char>, Option<u32>)>::empty());
    let none = seq![(w, None::<u32>)];
    assert(none.drop_last() =~= Seq::<(Seq<char>, Option<u32>)>::empty());
    assert(ts.push((w, Some(n))).drop_last() =~= ts);
    assert(ts.push((w, None::<u32>)).drop_last() =~= ts);
    let f = schedule_models(one, masking);
    assert(one.last() == (w, Some(n)));
    assert(schedule_models(one.drop_last(), masking).len() == 0);
    assert(f =~= timing_slots(w, Some(n), 0, masking));
}

// ---------------------------------------------------------------------------
// Padding to whole spiral periods
// ---------------------------------------------------------------------------

/// How many padding frames follow `frame_count` frames so that the schedule
/// ends on a whole number of periods of `period` frames: a full period when it
/// already does.
pub open spec fn spec_padding_remainder(period: nat, frame_count: nat) -> nat {
    (period - frame_count % period) as nat
}

/// The number of padding frames after `frame_count` frames (see `spec_padding_remainder`).
pub fn padding_remainder(period: u32, frame_count: u32) -> (r: u32)
    requires
        period > 0,
    ensures
        r == spec_padding_remainder(period as nat, frame_count as nat),
{
    period - (frame_count % period)
}

/// After its padding, a schedule is a whole number of periods long, so the
/// animation loops without a jump; the padding is never empty and never more
/// than one period.
pub proof fn lemma_padding_completes_period(period: nat, frame_count: nat)
    requires
        period > 0,
    ensures
        1 <= spec_padding_remainder(period, frame_count) <= period,
        (frame_count + spec_padding_remainder(period, frame_count)) % period == 0,
{
    let p = period as int;
    let f = frame_count as int;
    lemma_fundamental_div_mod(f, p);
    let q = f / p;
    let r = f % p;
    assert(0 <= r < p);
    assert(f + (p - r) == (q + 1) * p) by (nonlinear_arith)
        requires
            f == p * q + r,
    ;
    lemma_mod_multiples_basic(q + 1, p);
}

/// The padding frames after `frame_count` frames: frames `frame_count`,
/// `frame_count + 1`, ... up to the end of the period.
pub fn padding_slots(period: u32, frame_count: u32) -> (out: Vec<FrameSlot>)
    requires
        period > 0,
        frame_count + spec_padding_remainder(period as nat, frame_count as nat) <= u32::MAX + 1,
    ensures
        out.len() == spec_padding_remainder(period as nat, frame_count as nat),
        frames_consecutive(out@, frame_count as int),
        forall|k: int| 0 <= k < out.len() ==> (#[trigger] out@[k]).model() == SlotModel::Padding,
{
    let remainder = padding_remainder(period, frame_count);
    let mut out: Vec<FrameSlot> = Vec::new();
    let mut i: u32 = 0;
    while i < remainder
        invariant
            i <= remainder,
            frame_count + remainder <= u32::MAX + 1,
            out.len() == i,
            frames_consecutive(out@, frame_count as int),
            forall|k: int| 0 <= k < out.len() ==> (#[trigger] out@[k]).model() == SlotModel::Padding,
        decreases remainder - i,
    {
        out.push(FrameSlot::Padding { frame: frame_count + i });
        i = i + 1;
    }
    out
}

/// The whole schedule: the frames of the words, then the padding that
/// completes the last period of `period` frames.
pub fn build_schedule_slots(timings: &Vec<WordTiming>, masking_frames: u32, period: u32) -> (out: Vec<FrameSlot>)
    requires
        period > 0,
        schedule_len(timings_view(timings@), masking_frames as nat) + spec_padding_remainder(
            period as nat,
            schedule_len(timings_view(timings@), masking_frames as nat),
        ) <= u32::MAX + 1,
    ensures
        ({
            let n = schedule_len(timings_view(timings@), masking_frames as nat);
            &&& out.len() == n + spec_padding_remainder(period as nat, n)
            &&& slot_models(out@.take(n as int)) == schedule_models(
                timings_view(timings@),
                masking_frames as nat,
            )
            &&& forall|k: int| n <= k < out.len() ==> (#[trigger] out@[k]).model() == SlotModel::Padding
        }),
        frames_consecutive(out@, 0),
        out.len() % (period as usize) == 0,
{
    let ghost n = schedule_len(timings_view(timings@), masking_frames as nat);
    proof {
        lemma_padding_completes_period(period as nat, n);
    }
    let mut out = expand_schedule(timings, masking_frames);
    let count = out.len() as u32;
    let remainder = padding_remainder(period, count);
    let ghost words = out@;
    let mut i: u32 = 0;
    while i < remainder
        invariant
            i <= remainder,
            count == words.len() == n,
            count + remainder <= u32::MAX + 1,
            out@.len() == words.len() + i,
            out@.take(words.len() as int) == words,
            frames_consecutive(out@, 0),
            forall|k: int| words.len() <= k < out.len() ==> (#[trigger] out@[k]).model() == SlotModel::Padding,
        decreases remainder - i,
    {
        let ghost prev = out@;
        out.push(FrameSlot::Padding { frame: count + i });
        assert(out@.take(words.len() as int) =~= prev.take(words.len() as int));
        i = i + 1;
    }
    assert(out@.take(n as int) == words);
    out
}


/// The whitespace-separated words of a block's text (`str::split_whitespace`).
pub fn split_words(text: &str) -> (ws: Vec<String>)
    ensures
        ws@.map_values(|w: String| w@) == split_ws(text@),
        forall|i: int| 0 <= i < ws.len() ==> (#[trigger] ws@[i])@.len() > 0,
        forall|i: int, j: int|
            0 <= i < ws.len() && 0 <= j < ws@[i]@.len() ==> !spec_is_whitespace(#[trigger] ws@[i]@[j]),
{
    proof {
        lemma_split_ws_tokens(text@);
    }
    let v = chars_of(text);
    let rs = split_ws_ranges(&v, 0, v.len());
    assert(v@.subrange(0, v.len() as int) =~= v@);
    let mut ws: Vec<String> = Vec::new();
    let mut i: usize = 0;
    while i < rs.len()
        invariant
            i <= rs.len(),
            ranges_within(rs@, 0, v.len() as int),
            ws@.map_values(|w: String| w@) == range_views(v@, rs@).take(i as int),
        decreases rs.len() - i,
    {
        let (a, b) = rs[i];
        let c = copy_range(&v, a, b);
        let w = string_from_chars(c.as_slice());
        let ghost prev = ws@;
        ws.push(w);
        assert(ws@.map_values(|w: String| w@) =~= prev.map_values(|w: String| w@).push(
            v@.subrange(a as int, b as int),
        ));
        assert(range_views(v@, rs@).take(i + 1) =~= range_views(v@, rs@).take(i as int).push(
            v@.subrange(a as int, b as int),
        ));
        i = i + 1;
    }
    assert(range_views(v@, rs@).take(i as int) =~= range_views(v@, rs@));
    assert forall|k: int| 0 <= k < ws.len() implies (#[trigger] ws@[k])@ == split_ws(text@)[k] by {
        assert(ws@.map_values(|w: String| w@)[k] == ws@[k]@);
    }
    ws
}

} // verus!
