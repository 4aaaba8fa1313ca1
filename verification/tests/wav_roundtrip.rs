use rdaw::layout::deinterleave;
use rdaw::wav::{decode_wav, encode_float_wav, wav_chunks_readable, DecodedWav, WavError, WavSamples};

fn float_samples(d: &DecodedWav) -> Vec<f32> {
    match &d.samples {
        WavSamples::Float32(w) => w.iter().map(|b| f32::from_bits(*b)).collect(),
        WavSamples::Pcm16(_) => panic!("expected float samples"),
    }
}

#[test]
fn float_wav_round_trips_exactly() {
    let samples = vec![0.0f32, -1.0, 0.5, -0.25, 0.123_456, 1.0];
    let bits: Vec<u32> = samples.iter().map(|s| s.to_bits()).collect();
    let bytes = encode_float_wav(&bits, 2, 44_100);
    assert!(wav_chunks_readable(&bytes));
    let loaded = decode_wav(&bytes).unwrap();

    assert_eq!(loaded.sample_rate, 44_100);
    assert_eq!(loaded.channels, 2);
    let interleaved = float_samples(&loaded);
    assert_eq!(interleaved.len() / 2, 3);

    let planar = deinterleave(2, &interleaved);
    assert_eq!(&planar[0..3], &[0.0, 0.5, 0.123_456]);
    assert_eq!(&planar[3..6], &[-1.0, -0.25, 1.0]);
}

#[test]
fn float_wav_header_is_the_canonical_44_bytes() {
    let bytes = encode_float_wav(&[0x3f80_0000], 1, 48_000);
    assert_eq!(bytes.len(), 48);
    assert_eq!(&bytes[0..4], b"RIFF");
    assert_eq!(&bytes[4..8], &40u32.to_le_bytes());
    assert_eq!(&bytes[8..12], b"WAVE");
    assert_eq!(&bytes[12..16], b"fmt ");
    assert_eq!(&bytes[16..20], &16u32.to_le_bytes());
    assert_eq!(&bytes[20..22], &3u16.to_le_bytes());
    assert_eq!(&bytes[22..24], &1u16.to_le_bytes());
    assert_eq!(&bytes[24..28], &48_000u32.to_le_bytes());
    assert_eq!(&bytes[28..32], &192_000u32.to_le_bytes());
    assert_eq!(&bytes[32..34], &4u16.to_le_bytes());
    assert_eq!(&bytes[34..36], &32u16.to_le_bytes());
    assert_eq!(&bytes[36..40], b"data");
    assert_eq!(&bytes[40..44], &4u32.to_le_bytes());
    assert_eq!(&bytes[44..48], &1.0f32.to_le_bytes());
}

/// A RIFF/WAVE file made of the given chunks.
fn riff(chunks: &[(&[u8; 4], Vec<u8>)]) -> Vec<u8> {
    let mut body = Vec::new();
    for (id, data) in chunks {
        body.extend_from_slice(*id);
        body.extend_from_slice(&(data.len() as u32).to_le_bytes());
        body.extend_from_slice(data);
        if data.len() % 2 == 1 {
            body.push(0);
        }
    }
    let mut out = Vec::new();
    out.extend_from_slice(b"RIFF");
    out.extend_from_slice(&(4 + body.len() as u32).to_le_bytes());
    out.extend_from_slice(b"WAVE");
    out.extend_from_slice(&body);
    out
}

fn fmt(format: u16, channels: u16, rate: u32, bits: u16) -> Vec<u8> {
    let mut f = Vec::new();
    f.extend_from_slice(&format.to_le_bytes());
    f.extend_from_slice(&channels.to_le_bytes());
    f.extend_from_slice(&rate.to_le_bytes());
    f.extend_from_slice(&0u32.to_le_bytes());
    f.extend_from_slice(&0u16.to_le_bytes());
    f.extend_from_slice(&bits.to_le_bytes());
    f
}

#[test]
fn pcm16_samples_decode_as_signed_integers() {
    let mut data = Vec::new();
    for s in [0i16, 16384, -32768, 32767] {
        data.extend_from_slice(&s.to_le_bytes());
    }
    let bytes = riff(&[(b"fmt ", fmt(1, 1, 22_050, 16)), (b"data", data)]);
    let d = decode_wav(&bytes).unwrap();
    assert_eq!(d.channels, 1);
    assert_eq!(d.sample_rate, 22_050);
    assert_eq!(d.samples, WavSamples::Pcm16(vec![0, 16384, -32768, 32767]));
}

#[test]
fn unknown_chunks_are_skipped_and_odd_sizes_padded() {
    let bytes = riff(&[
        (b"LIST", vec![1, 2, 3]),
        (b"fmt ", fmt(3, 1, 8_000, 32)),
        (b"data", 2.5f32.to_le_bytes().to_vec()),
    ]);
    let d = decode_wav(&bytes).unwrap();
    assert_eq!(float_samples(&d), vec![2.5]);
}

#[test]
fn a_data_chunk_cut_short_keeps_its_whole_samples() {
    let mut bytes = riff(&[(b"fmt ", fmt(3, 1, 8_000, 32)), (b"data", vec![0; 8])]);
    bytes.truncate(bytes.len() - 2);
    let d = decode_wav(&bytes).unwrap();
    assert_eq!(float_samples(&d), vec![0.0]);
}

#[test]
fn wav_errors_are_reported_in_order() {
    assert_eq!(decode_wav(b"RIFF\0\0\0\0WAV"), Err(WavError::NotRiffWave));
    assert_eq!(decode_wav(b"RIFX\0\0\0\0WAVE"), Err(WavError::NotRiffWave));
    assert_eq!(
        decode_wav(&riff(&[(b"data", vec![0; 4])])),
        Err(WavError::MissingFmt)
    );
    assert_eq!(
        decode_wav(&riff(&[(b"fmt ", fmt(3, 2, 44_100, 32))])),
        Err(WavError::MissingData)
    );
    assert_eq!(
        decode_wav(&riff(&[(b"fmt ", fmt(3, 0, 44_100, 32)), (b"data", vec![])])),
        Err(WavError::ZeroChannels)
    );
    assert_eq!(
        decode_wav(&riff(&[(b"fmt ", fmt(1, 2, 44_100, 24)), (b"data", vec![])])),
        Err(WavError::Unsupported { format: 1, bits: 24 })
    );
}

#[test]
fn a_short_fmt_chunk_is_not_a_format() {
    let bytes = riff(&[(b"fmt ", vec![3, 0, 1, 0]), (b"data", vec![0; 4])]);
    assert_eq!(decode_wav(&bytes), Err(WavError::MissingFmt));
}

#[test]
fn a_truncated_fmt_chunk_cannot_be_walked() {
    let mut bytes = riff(&[(b"fmt ", fmt(3, 1, 8_000, 32))]);
    bytes.truncate(bytes.len() - 3);
    assert!(!wav_chunks_readable(&bytes));
    assert!(wav_chunks_readable(b"not a wav"));
}

#[test]
fn removing_an_unknown_odd_chunk_and_its_pad_changes_nothing() {
    let with_list = riff(&[
        (b"LIST", vec![7, 7, 7, 7, 7]),
        (b"fmt ", fmt(1, 2, 11_025, 16)),
        (b"data", vec![1, 0, 255, 255, 0, 128, 255, 127]),
    ]);
    let mut without = with_list[..12].to_vec();
    // 8 header bytes, a 5-byte body and its pad byte
    without.extend_from_slice(&with_list[12 + 8 + 5 + 1..]);
    assert_eq!(without.len(), with_list.len() - 14);
    assert_eq!(decode_wav(&with_list), decode_wav(&without));
    assert_eq!(
        decode_wav(&without).unwrap().samples,
        WavSamples::Pcm16(vec![1, -1, -32768, 32767])
    );
}

#[test]
fn an_unknown_chunk_between_fmt_and_data_is_skipped_with_its_pad() {
    let fmt_chunk = fmt(3, 1, 8_000, 32);
    let with_junk = riff(&[
        (b"fmt ", fmt_chunk.clone()),
        (b"junk", vec![9, 9, 9]),
        (b"data", 0.25f32.to_le_bytes().to_vec()),
    ]);
    let without = riff(&[(b"fmt ", fmt_chunk), (b"data", 0.25f32.to_le_bytes().to_vec())]);
    // header of the junk chunk, its 3-byte body and the pad byte
    let at = 12 + 8 + 16;
    let mut cut = with_junk[..at].to_vec();
    cut.extend_from_slice(&with_junk[at + 8 + 3 + 1..]);
    assert_eq!(&cut[12..], &without[12..]);
    assert_eq!(decode_wav(&with_junk), decode_wav(&cut));
    assert_eq!(float_samples(&decode_wav(&cut).unwrap()), vec![0.25]);
}
