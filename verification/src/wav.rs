//! The header of a WAV file of interleaved stereo 32-bit float samples.

use vstd::prelude::*;

verus! {

/// The little-endian bytes of a 16-bit value.
pub open spec fn le16(x: nat) -> Seq<u8> {
    seq![(x % 256) as u8, ((x / 256) % 256) as u8]
}

/// The little-endian bytes of a 32-bit value.
pub open spec fn le32(x: nat) -> Seq<u8> {
    seq![
        (x % 256) as u8,
        ((x / 256) % 256) as u8,
        ((x / 65536) % 256) as u8,
        ((x / 16777216) % 256) as u8,
    ]
}

/// Channels per frame.
pub const NUM_CHANNELS: u16 = 2;

/// Bits per sample (IEEE float).
pub const BITS_PER_SAMPLE: u16 = 32;

/// Bytes of sample data for `num_samples` samples: four per sample, as a 32-bit field.
pub open spec fn wav_data_size(num_samples: nat) -> nat {
    ((num_samples * 4) as u32) as nat
}

/// The 44-byte header: a RIFF chunk of `WAVE`, a `fmt ` chunk for IEEE float
/// PCM (format 3) with 2 channels of 32 bits at `sample_rate`, and the header
/// of the `data` chunk that holds `num_samples` samples.
pub open spec fn spec_wav_header(num_samples: nat, sample_rate: nat) -> Seq<u8> {
    let data_size = wav_data_size(num_samples);
    seq![82u8, 73, 70, 70] + le32(36 + data_size) + seq![87u8, 65, 86, 69] + seq![102u8, 109, 116, 32]
        + le32(16) + le16(3) + le16(2) + le32(sample_rate) + le32(sample_rate * 8) + le16(8) + le16(32)
        + seq![100u8, 97, 116, 97] + le32(data_size)
}

fn push_le16(out: &mut Vec<u8>, x: u16)
    ensures
        final(out)@ == old(out)@ + le16(x as nat),
{
    out.push((x % 256) as u8);
    out.push(((x / 256) % 256) as u8);
    assert(final(out)@ =~= old(out)@ + le16(x as nat));
}

fn push_le32(out: &mut Vec<u8>, x: u32)
    ensures
        final(out)@ == old(out)@ + le32(x as nat),
{
    out.push((x % 256) as u8);
    out.push(((x / 256) % 256) as u8);
    out.push(((x / 65536) % 256) as u8);
    out.push(((x / 16777216) % 256) as u8);
    assert(final(out)@ =~= old(out)@ + le32(x as nat));
}

fn push_tag(out: &mut Vec<u8>, a: u8, b: u8, c: u8, d: u8)
    ensures
        final(out)@ == old(out)@ + seq![a, b, c, d],
{
    out.push(a);
    out.push(b);
    out.push(c);
    out.push(d);
    assert(final(out)@ =~= old(out)@ + seq![a, b, c, d]);
}

/// The header of a WAV file holding `num_samples` interleaved stereo float samples.
pub fn wav_header(num_samples: usize, sample_rate: u32) -> (h: Vec<u8>)
    requires
        num_samples * 4 <= usize::MAX,
        36 + wav_data_size(num_samples as nat) <= u32::MAX,
        sample_rate * 8 <= u32::MAX,
    ensures
        h@ == spec_wav_header(num_samples as nat, sample_rate as nat),
        h@.len() == 44,
{
    assert(NUM_CHANNELS == 2 && BITS_PER_SAMPLE == 32);
    let channels = NUM_CHANNELS as u32;
    let bytes_per_sample = (BITS_PER_SAMPLE as u32) / 8;
    assert(channels == 2 && bytes_per_sample == 4);
    let byte_rate = sample_rate * channels * bytes_per_sample;
    let block_align = NUM_CHANNELS * (BITS_PER_SAMPLE / 8);
    let data_size = #[verifier::truncate] ((num_samples * 4) as u32);
    let chunk_size = 36 + data_size;
    let mut h: Vec<u8> = Vec::new();
    push_tag(&mut h, 82, 73, 70, 70);
    push_le32(&mut h, chunk_size);
    push_tag(&mut h, 87, 65, 86, 69);
    push_tag(&mut h, 102, 109, 116, 32);
    push_le32(&mut h, 16);
    push_le16(&mut h, 3);
    push_le16(&mut h, NUM_CHANNELS);
    push_le32(&mut h, sample_rate);
    push_le32(&mut h, byte_rate);
    push_le16(&mut h, block_align);
    push_le16(&mut h, BITS_PER_SAMPLE);
    push_tag(&mut h, 100, 97, 116, 97);
    push_le32(&mut h, data_size);
    assert(h@ =~= spec_wav_header(num_samples as nat, sample_rate as nat));
    h
}

/// The header's sizes agree: the RIFF chunk is the 36 header bytes after it
/// plus the data, and the byte rate is the sample rate times the block size.
pub proof fn lemma_wav_header_sizes(num_samples: nat, sample_rate: nat)
    ensures
        spec_wav_header(num_samples, sample_rate).len() == 44,
        spec_wav_header(num_samples, sample_rate).subrange(4, 8) == le32(
            36 + wav_data_size(num_samples),
        ),
        spec_wav_header(num_samples, sample_rate).subrange(28, 32) == le32(sample_rate * 8),
        spec_wav_header(num_samples, sample_rate).subrange(40, 44) == le32(wav_data_size(num_samples)),
{
    let h = spec_wav_header(num_samples, sample_rate);
    assert(h.subrange(4, 8) =~= le32(36 + wav_data_size(num_samples)));
    assert(h.subrange(28, 32) =~= le32(sample_rate * 8));
    assert(h.subrange(40, 44) =~= le32(wav_data_size(num_samples)));
}


/// The value that little-endian bytes encode.
pub open spec fn le_value(b: Seq<u8>) -> nat
    decreases b.len(),
{
    if b.len() == 0 {
        0
    } else {
        b[0] as nat + 256 * le_value(b.drop_first())
    }
}

proof fn lemma_le_value4(b: Seq<u8>)
    requires
        b.len() == 4,
    ensures
        le_value(b) == b[0] + 256 * b[1] + 65536 * b[2] + 16777216 * b[3],
{
    let b1 = b.drop_first();
    let b2 = b1.drop_first();
    let b3 = b2.drop_first();
    let b4 = b3.drop_first();
    assert(b4.len() == 0);
    assert(le_value(b4) == 0);
    assert(b3[0] == b[3] && b2[0] == b[2] && b1[0] == b[1]);
    assert(le_value(b3) == b[3] as nat);
    assert(le_value(b2) == b[2] + 256 * b[3]);
    assert(le_value(b1) == b[1] + 256 * b[2] + 65536 * b[3]);
}

proof fn lemma_le_value2(b: Seq<u8>)
    requires
        b.len() == 2,
    ensures
        le_value(b) == b[0] + 256 * b[1],
{
    let b1 = b.drop_first();
    assert(b1.drop_first().len() == 0);
    assert(le_value(b1.drop_first()) == 0);
    assert(b1[0] == b[1]);
    assert(le_value(b1) == b[1] as nat);
}

/// Reading back four little-endian bytes gives the 32-bit value written.
pub proof fn lemma_le32_roundtrip(x: u32)
    ensures
        le32(x as nat).len() == 4,
        le_value(le32(x as nat)) == x,
{
    lemma_le_value4(le32(x as nat));
    assert((x % 256) + 256 * ((x / 256) % 256) + 65536 * ((x / 65536) % 256) + 16777216 * ((x
        / 16777216) % 256) == x) by (bit_vector);
}

/// Reading back two little-endian bytes gives the 16-bit value written.
pub proof fn lemma_le16_roundtrip(x: u16)
    ensures
        le16(x as nat).len() == 2,
        le_value(le16(x as nat)) == x,
{
    lemma_le_value2(le16(x as nat));
    assert((x % 256) + 256 * ((x / 256) % 256) == x) by (bit_vector);
}

/// Each field of the header reads back as what it describes: the `RIFF`,
/// `WAVE`, `fmt ` and `data` tags; the RIFF size (36 + data bytes); the fmt
/// chunk size 16, format 3 (IEEE float), 2 channels, the given sample rate,
/// a byte rate of 8 bytes per sample frame, a block of 8 bytes and 32 bits
/// per sample; and the data size, 4 bytes per sample.
pub proof fn lemma_wav_header_fields(num_samples: nat, sample_rate: u32)
    requires
        36 + wav_data_size(num_samples) <= u32::MAX,
        sample_rate * 8 <= u32::MAX,
    ensures
        ({
            let h = spec_wav_header(num_samples, sample_rate as nat);
            &&& h.len() == 44
            &&& h.subrange(0, 4) == seq![82u8, 73, 70, 70]
            &&& le_value(h.subrange(4, 8)) == 36 + wav_data_size(num_samples)
            &&& h.subrange(8, 12) == seq![87u8, 65, 86, 69]
            &&& h.subrange(12, 16) == seq![102u8, 109, 116, 32]
            &&& le_value(h.subrange(16, 20)) == 16
            &&& le_value(h.subrange(20, 22)) == 3
            &&& le_value(h.subrange(22, 24)) == 2
            &&& le_value(h.subrange(24, 28)) == sample_rate
            &&& le_value(h.subrange(28, 32)) == sample_rate * 8
            &&& le_value(h.subrange(32, 34)) == 8
            &&& le_value(h.subrange(34, 36)) == 32
            &&& h.subrange(36, 40) == seq![100u8, 97, 116, 97]
            &&& le_value(h.subrange(40, 44)) == wav_data_size(num_samples)
        }),
{
    let h = spec_wav_header(num_samples, sample_rate as nat);
    let d = wav_data_size(num_samples);
    let chunk = (36 + d) as u32;
    let rate8 = (sample_rate * 8) as u32;
    lemma_le32_roundtrip(chunk);
    lemma_le32_roundtrip(16);
    lemma_le32_roundtrip(sample_rate);
    lemma_le32_roundtrip(rate8);
    lemma_le32_roundtrip(d as u32);
    lemma_le16_roundtrip(3);
    lemma_le16_roundtrip(2);
    lemma_le16_roundtrip(8);
    lemma_le16_roundtrip(32);
    assert(h.subrange(0, 4) =~= seq![82u8, 73, 70, 70]);
    assert(h.subrange(4, 8) =~= le32(chunk as nat));
    assert(h.subrange(8, 12) =~= seq![87u8, 65, 86, 69]);
    assert(h.subrange(12, 16) =~= seq![102u8, 109, 116, 32]);
    assert(h.subrange(16, 20) =~= le32(16));
    assert(h.subrange(20, 22) =~= le16(3));
    assert(h.subrange(22, 24) =~= le16(2));
    assert(h.subrange(24, 28) =~= le32(sample_rate as nat));
    assert(h.subrange(28, 32) =~= le32(rate8 as nat));
    assert(h.subrange(32, 34) =~= le16(8));
    assert(h.subrange(34, 36) =~= le16(32));
    assert(h.subrange(36, 40) =~= seq![100u8, 97, 116, 97]);
    assert(h.subrange(40, 44) =~= le32(d));
}

} // verus!
