//! The RIFF/WAVE container: writing 32-bit float files and reading 32-bit float
//! or 16-bit PCM ones.
//!
//! Samples cross this module as integers: a 32-bit float sample is carried as
//! its IEEE-754 bit pattern (`u32`), a 16-bit PCM sample as an `i16`. The host
//! turns those into its floating-point sample type.

use vstd::prelude::*;

verus! {

/// `"RIFF"` read as a little-endian `u32`.
pub const RIFF_ID: u32 = 0x4646_4952;

/// `"WAVE"` read as a little-endian `u32`.
pub const WAVE_ID: u32 = 0x4556_4157;

/// `"fmt "` read as a little-endian `u32`.
pub const FMT_ID: u32 = 0x2074_6d66;

/// `"data"` read as a little-endian `u32`.
pub const DATA_ID: u32 = 0x6174_6164;

/// Format tag of integer PCM.
pub const FORMAT_PCM: u16 = 1;

/// Format tag of IEEE-754 floating point samples.
pub const FORMAT_IEEE_FLOAT: u16 = 3;

/// The fields of a `fmt ` chunk that a reader needs.
#[derive(Clone, Copy, Debug, PartialEq, Eq)]
pub struct WavFormat {
    /// Format tag: [`FORMAT_PCM`] or [`FORMAT_IEEE_FLOAT`].
    pub format: u16,
    pub channels: u16,
    pub sample_rate: u32,
    /// Bits per sample.
    pub bits: u16,
}

/// Decoded sample data, interleaved (`[L, R, L, R, ...]`).
#[derive(Clone, Debug, PartialEq, Eq)]
pub enum WavSamples {
    /// 32-bit float samples, each as its IEEE-754 bit pattern.
    Float32(Vec<u32>),
    /// 16-bit signed PCM samples.
    Pcm16(Vec<i16>),
}

/// A decoded WAV file.
#[derive(Clone, Debug, PartialEq, Eq)]
pub struct DecodedWav {
    pub channels: u16,
    pub sample_rate: u32,
    pub samples: WavSamples,
}

/// Why a byte string is not a WAV file this reader accepts.
#[derive(Clone, Copy, Debug, PartialEq, Eq)]
pub enum WavError {
    /// Shorter than 12 bytes, or not tagged `RIFF` ... `WAVE`.
    NotRiffWave,
    /// No `fmt ` chunk of at least 16 bytes.
    MissingFmt,
    /// No `data` chunk.
    MissingData,
    /// The `fmt ` chunk reports zero channels.
    ZeroChannels,
    /// Neither 32-bit float nor 16-bit PCM.
    Unsupported { format: u16, bits: u16 },
}

/// The little-endian `u16` stored at `b[i..i + 2]`.
pub open spec fn le_u16(b: Seq<u8>, i: int) -> u16 {
    (b[i] as u16) | ((b[i + 1] as u16) << 8u16)
}

/// The little-endian `u32` stored at `b[i..i + 4]`.
pub open spec fn le_u32(b: Seq<u8>, i: int) -> u32 {
    (b[i] as u32) | ((b[i + 1] as u32) << 8u32) | ((b[i + 2] as u32) << 16u32) | ((b[i + 3] as u32)
        << 24u32)
}

/// The two bytes of `x`, least significant first.
pub open spec fn u16_le_bytes(x: u16) -> Seq<u8> {
    seq![(x & 0xff) as u8, (x >> 8u16) as u8]
}

/// The four bytes of `x`, least significant first.
pub open spec fn u32_le_bytes(x: u32) -> Seq<u8> {
    seq![(x & 0xff) as u8, ((x >> 8u32) & 0xff) as u8, ((x >> 16u32) & 0xff) as u8, (x >> 24u32) as u8]
}

/// The `fmt ` fields of a chunk whose body starts at `body`.
pub open spec fn fmt_at(b: Seq<u8>, body: int) -> WavFormat {
    WavFormat {
        format: le_u16(b, body),
        channels: le_u16(b, body + 2),
        sample_rate: le_u32(b, body + 4),
        bits: le_u16(b, body + 14),
    }
}

/// Walk the chunk list from `pos`. Each chunk is an 8-byte header (id, then a
/// `u32` body size) and a body padded to an even length. The last `fmt ` chunk of
/// at least 16 bytes and the last `data` chunk win; a `data` body that runs past
/// the end of the bytes is cut at the end.
pub open spec fn scan_chunks(b: Seq<u8>, pos: int, fmt: Option<WavFormat>, data: Option<(int, int)>) -> (
    Option<WavFormat>,
    Option<(int, int)>,
)
    decreases (if pos <= b.len() { b.len() - pos } else { 0 }),
{
    if pos < 0 || pos + 8 > b.len() {
        (fmt, data)
    } else {
        let size = le_u32(b, pos + 4) as int;
        let body = pos + 8;
        let end = if body + size <= b.len() { body + size } else { b.len() as int };
        let id = le_u32(b, pos);
        let fmt2 = if id == FMT_ID && size >= 16 { Some(fmt_at(b, body)) } else { fmt };
        let data2 = if id == DATA_ID { Some((body, end)) } else { data };
        scan_chunks(b, body + size + size % 2, fmt2, data2)
    }
}

/// Every `fmt ` chunk of at least 16 bytes met on the walk from `pos` has its
/// first 16 body bytes present.
pub open spec fn fmt_chunks_complete(b: Seq<u8>, pos: int) -> bool
    decreases (if pos <= b.len() { b.len() - pos } else { 0 }),
{
    if pos < 0 || pos + 8 > b.len() {
        true
    } else {
        let size = le_u32(b, pos + 4) as int;
        let body = pos + 8;
        &&& (le_u32(b, pos) == FMT_ID && size >= 16 ==> body + 16 <= b.len())
        &&& fmt_chunks_complete(b, body + size + size % 2)
    }
}

/// Starts with `RIFF`, a size, and `WAVE`.
pub open spec fn has_riff_header(b: Seq<u8>) -> bool {
    b.len() >= 12 && le_u32(b, 0) == RIFF_ID && le_u32(b, 8) == WAVE_ID
}

/// The bytes can be walked without reading past their end: the chunk walk of a
/// RIFF/WAVE file never meets a truncated `fmt ` chunk.
pub open spec fn chunks_readable(b: Seq<u8>) -> bool {
    has_riff_header(b) ==> fmt_chunks_complete(b, 12)
}

/// The format and the data range of a WAV file, or why it is refused. The
/// checks come in this order: header, `fmt `, `data`, channel count, format.
pub open spec fn spec_wav_layout(b: Seq<u8>) -> Result<(WavFormat, int, int), WavError> {
    if !has_riff_header(b) {
        Err(WavError::NotRiffWave)
    } else {
        let (fmt, data) = scan_chunks(b, 12, None, None);
        match fmt {
            None => Err(WavError::MissingFmt),
            Some(f) => match data {
                None => Err(WavError::MissingData),
                Some((start, end)) => if f.channels == 0 {
                    Err(WavError::ZeroChannels)
                } else if (f.format == FORMAT_IEEE_FLOAT && f.bits == 32) || (f.format
                    == FORMAT_PCM && f.bits == 16) {
                    Ok((f, start, end))
                } else {
                    Err(WavError::Unsupported { format: f.format, bits: f.bits })
                },
            },
        }
    }
}

/// The whole 4-byte words of `b`, read little-endian; a trailing partial word
/// is dropped.
pub open spec fn spec_words(b: Seq<u8>) -> Seq<u32> {
    Seq::new(b.len() / 4, |k: int| le_u32(b, 4 * k))
}

/// The whole 2-byte little-endian signed samples of `b`; a trailing odd byte is
/// dropped.
pub open spec fn spec_pcm16(b: Seq<u8>) -> Seq<i16> {
    Seq::new(b.len() / 2, |k: int| le_u16(b, 2 * k) as i16)
}

/// The samples laid out little-endian, one after another.
pub open spec fn spec_sample_bytes(s: Seq<u32>) -> Seq<u8>
    decreases s.len(),
{
    if s.len() == 0 {
        Seq::empty()
    } else {
        spec_sample_bytes(s.drop_last()) + u32_le_bytes(s.last())
    }
}

/// The 44-byte header of a 32-bit float WAV holding `data_bytes` bytes of
/// samples.
pub open spec fn spec_float_header(channels: u16, sample_rate: u32, data_bytes: u32) -> Seq<u8> {
    let block_align = (channels * 4) as u16;
    let byte_rate = (sample_rate * block_align as u32) as u32;
    u32_le_bytes(RIFF_ID) + u32_le_bytes((36 + data_bytes) as u32) + u32_le_bytes(WAVE_ID)
        + u32_le_bytes(FMT_ID) + u32_le_bytes(16) + u16_le_bytes(FORMAT_IEEE_FLOAT) + u16_le_bytes(
        channels,
    ) + u32_le_bytes(sample_rate) + u32_le_bytes(byte_rate) + u16_le_bytes(block_align)
        + u16_le_bytes(32) + u32_le_bytes(DATA_ID) + u32_le_bytes(data_bytes)
}

/// A 32-bit float WAV file of interleaved `samples` (IEEE-754 bit patterns).
/// The data size field holds the byte count truncated to 32 bits.
pub open spec fn spec_encode_float_wav(samples: Seq<u32>, channels: u16, sample_rate: u32) -> Seq<u8> {
    spec_float_header(channels, sample_rate, (samples.len() * 4) as u32) + spec_sample_bytes(samples)
}

/// The sizes in the header of a float WAV can be computed without overflow.
pub open spec fn float_wav_fits(num_samples: nat, channels: u16, sample_rate: u32) -> bool {
    &&& channels as int * 4 <= u16::MAX
    &&& sample_rate as int * (channels as int * 4) <= u32::MAX
    &&& num_samples * 4 <= usize::MAX
    &&& 36 + ((num_samples * 4) as u32) <= u32::MAX
}

fn read_u16(b: &[u8], i: usize) -> (x: u16)
    requires
        i + 2 <= b@.len(),
    ensures
        x == le_u16(b@, i as int),
{
    (b[i] as u16) | ((b[i + 1] as u16) << 8u16)
}

fn read_u32(b: &[u8], i: usize) -> (x: u32)
    requires
        i + 4 <= b@.len(),
    ensures
        x == le_u32(b@, i as int),
{
    (b[i] as u32) | ((b[i + 1] as u32) << 8u32) | ((b[i + 2] as u32) << 16u32) | ((b[i + 3] as u32)
        << 24u32)
}

fn push_u16(out: &mut Vec<u8>, x: u16)
    ensures
        final(out)@ == old(out)@ + u16_le_bytes(x),
{
    out.push((x & 0xff) as u8);
    out.push((x >> 8u16) as u8);
    assert(final(out)@ =~= old(out)@ + u16_le_bytes(x));
}

fn push_u32(out: &mut Vec<u8>, x: u32)
    ensures
        final(out)@ == old(out)@ + u32_le_bytes(x),
{
    out.push((x & 0xff) as u8);
    out.push(((x >> 8u32) & 0xff) as u8);
    out.push(((x >> 16u32) & 0xff) as u8);
    out.push((x >> 24u32) as u8);
    assert(final(out)@ =~= old(out)@ + u32_le_bytes(x));
}

/// Encode interleaved 32-bit float samples (as IEEE-754 bit patterns) as a
/// complete WAV file: a `fmt ` chunk (format 3, 32 bits) and a `data` chunk.
pub fn encode_float_wav(samples: &[u32], channels: u16, sample_rate: u32) -> (bytes: Vec<u8>)
    requires
        float_wav_fits(samples@.len(), channels, sample_rate),
    ensures
        bytes@ == spec_encode_float_wav(samples@, channels, sample_rate),
{
    let block_align: u16 = channels * 4;
    let byte_rate: u32 = sample_rate * (block_align as u32);
    let data_bytes: u32 = (samples.len() * 4) as u32;
    let mut out: Vec<u8> = Vec::new();
    push_u32(&mut out, RIFF_ID);
    push_u32(&mut out, 36 + data_bytes);
    push_u32(&mut out, WAVE_ID);
    push_u32(&mut out, FMT_ID);
    push_u32(&mut out, 16);
    push_u16(&mut out, FORMAT_IEEE_FLOAT);
    push_u16(&mut out, channels);
    push_u32(&mut out, sample_rate);
    push_u32(&mut out, byte_rate);
    push_u16(&mut out, block_align);
    push_u16(&mut out, 32);
    push_u32(&mut out, DATA_ID);
    push_u32(&mut out, data_bytes);
    let ghost header = out@;
    assert(header =~= spec_float_header(channels, sample_rate, data_bytes));
    let n = samples.len();
    let mut k: usize = 0;
    while k < n
        invariant
            n == samples@.len(),
            k <= n,
            out@ == header + spec_sample_bytes(samples@.take(k as int)),
        decreases n - k,
    {
        push_u32(&mut out, samples[k]);
        assert(samples@.take(k + 1).drop_last() =~= samples@.take(k as int));
        k = k + 1;
        assert(out@ =~= header + spec_sample_bytes(samples@.take(k as int)));
    }
    assert(samples@.take(n as int) =~= samples@);
    out
}

/// A data range as positions in the byte string.
pub open spec fn range_view(r: Option<(usize, usize)>) -> Option<(int, int)> {
    match r {
        Some((s, e)) => Some((s as int, e as int)),
        None => None,
    }
}

/// Walk the chunk list of a RIFF/WAVE byte string. The flag reports whether the
/// walk could read every `fmt ` chunk it met; when it could, the format and data
/// range are those of [`scan_chunks`].
fn scan(b: &[u8]) -> (r: (Option<WavFormat>, Option<(usize, usize)>, bool))
    requires
        has_riff_header(b@),
    ensures
        r.2 == fmt_chunks_complete(b@, 12),
        r.2 ==> (r.0, range_view(r.1)) == scan_chunks(b@, 12, None, None),
        r.1 matches Some((s, e)) ==> s <= e <= b@.len(),
{
    let len: u128 = b.len() as u128;
    let mut pos: u128 = 12;
    let mut fmt: Option<WavFormat> = None;
    let mut data: Option<(usize, usize)> = None;
    while pos + 8 <= len
        invariant
            len == b@.len(),
            len <= usize::MAX,
            12 <= pos <= len + 0x1_0000_0010,
            scan_chunks(b@, pos as int, fmt, range_view(data)) == scan_chunks(b@, 12, None, None),
            fmt_chunks_complete(b@, 12) == fmt_chunks_complete(b@, pos as int),
            data matches Some((s, e)) ==> s <= e <= b@.len(),
        decreases (if pos <= len { len - pos } else { 0 }),
    {
        let p = pos as usize;
        let id = read_u32(b, p);
        let size32 = read_u32(b, p + 4);
        let size = size32 as u128;
        let body = pos + 8;
        let end = if body + size <= len {
            body + size
        } else {
            len
        };
        if id == FMT_ID && size32 >= 16 {
            if body + 16 <= len {
                let q = body as usize;
                fmt = Some(
                    WavFormat {
                        format: read_u16(b, q),
                        channels: read_u16(b, q + 2),
                        sample_rate: read_u32(b, q + 4),
                        bits: read_u16(b, q + 14),
                    },
                );
            } else {
                return (fmt, data, false);
            }
        }
        if id == DATA_ID {
            data = Some((body as usize, end as usize));
        }
        pos = body + size + size % 2;
    }
    (fmt, data, true)
}

/// Whether [`decode_wav`] can walk `bytes`: false exactly when a RIFF/WAVE file
/// holds a `fmt ` chunk that claims 16 or more bytes but is cut short.
pub fn wav_chunks_readable(bytes: &[u8]) -> (ok: bool)
    ensures
        ok == chunks_readable(bytes@),
{
    if bytes.len() < 12 || read_u32(bytes, 0) != RIFF_ID || read_u32(bytes, 8) != WAVE_ID {
        true
    } else {
        scan(bytes).2
    }
}

fn decode_words(b: &[u8], start: usize, end: usize) -> (w: Vec<u32>)
    requires
        start <= end <= b@.len(),
    ensures
        w@ == spec_words(b@.subrange(start as int, end as int)),
{
    let count = (end - start) / 4;
    let mut w: Vec<u32> = Vec::new();
    let mut k: usize = 0;
    while k < count
        invariant
            count == (end - start) / 4,
            start <= end <= b@.len(),
            k <= count,
            w@.len() == k,
            forall|j: int| 0 <= j < k ==> #[trigger] w@[j] == le_u32(b@, start + 4 * j),
        decreases count - k,
    {
        w.push(read_u32(b, start + 4 * k));
        k = k + 1;
    }
    let ghost sub = b@.subrange(start as int, end as int);
    assert forall|j: int| 0 <= j < count implies #[trigger] w@[j] == le_u32(sub, 4 * j) by {
        assert(sub[4 * j] == b@[start + 4 * j]);
        assert(sub[4 * j + 1] == b@[start + 4 * j + 1]);
        assert(sub[4 * j + 2] == b@[start + 4 * j + 2]);
        assert(sub[4 * j + 3] == b@[start + 4 * j + 3]);
    }
    assert(w@ =~= spec_words(sub));
    w
}

fn decode_pcm16(b: &[u8], start: usize, end: usize) -> (w: Vec<i16>)
    requires
        start <= end <= b@.len(),
    ensures
        w@ == spec_pcm16(b@.subrange(start as int, end as int)),
{
    let count = (end - start) / 2;
    let mut w: Vec<i16> = Vec::new();
    let mut k: usize = 0;
    while k < count
        invariant
            count == (end - start) / 2,
            start <= end <= b@.len(),
            k <= count,
            w@.len() == k,
            forall|j: int| 0 <= j < k ==> #[trigger] w@[j] == le_u16(b@, start + 2 * j) as i16,
        decreases count - k,
    {
        let x = read_u16(b, start + 2 * k);
        w.push(x as i16);
        k = k + 1;
    }
    let ghost sub = b@.subrange(start as int, end as int);
    assert forall|j: int| 0 <= j < count implies #[trigger] w@[j] == le_u16(sub, 2 * j) as i16 by {
        assert(sub[2 * j] == b@[start + 2 * j]);
        assert(sub[2 * j + 1] == b@[start + 2 * j + 1]);
    }
    assert(w@ =~= spec_pcm16(sub));
    w
}

/// What [`decode_wav`] returns for `b`: the refusal of [`spec_wav_layout`], or
/// the channel count, sample rate and the samples of the data chunk.
pub open spec fn decoded_as(b: Seq<u8>, r: Result<DecodedWav, WavError>) -> bool {
    match spec_wav_layout(b) {
        Err(e) => r == Err::<DecodedWav, WavError>(e),
        Ok((f, start, end)) => r matches Ok(d) && d.channels == f.channels && d.sample_rate
            == f.sample_rate && if f.format == FORMAT_IEEE_FLOAT {
            d.samples matches WavSamples::Float32(w) && w@ == spec_words(b.subrange(start, end))
        } else {
            d.samples matches WavSamples::Pcm16(p) && p@ == spec_pcm16(b.subrange(start, end))
        },
    }
}

/// Decode a 32-bit float or 16-bit PCM WAV file.
pub fn decode_wav(bytes: &[u8]) -> (r: Result<DecodedWav, WavError>)
    requires
        chunks_readable(bytes@),
    ensures
        decoded_as(bytes@, r),
{
    if bytes.len() < 12 || read_u32(bytes, 0) != RIFF_ID || read_u32(bytes, 8) != WAVE_ID {
        return Err(WavError::NotRiffWave);
    }
    let (fmt, data, _) = scan(bytes);
    let f = match fmt {
        Some(f) => f,
        None => return Err(WavError::MissingFmt),
    };
    let (start, end) = match data {
        Some(d) => d,
        None => return Err(WavError::MissingData),
    };
    if f.channels == 0 {
        return Err(WavError::ZeroChannels);
    }
    if f.format == FORMAT_IEEE_FLOAT && f.bits == 32 {
        let w = decode_words(bytes, start, end);
        Ok(DecodedWav { channels: f.channels, sample_rate: f.sample_rate, samples: WavSamples::Float32(w) })
    } else if f.format == FORMAT_PCM && f.bits == 16 {
        let p = decode_pcm16(bytes, start, end);
        Ok(DecodedWav { channels: f.channels, sample_rate: f.sample_rate, samples: WavSamples::Pcm16(p) })
    } else {
        Err(WavError::Unsupported { format: f.format, bits: f.bits })
    }
}

/// `r` is a decoded 32-bit float file with these channels, rate and samples.
pub open spec fn is_float_wav(r: Result<DecodedWav, WavError>, channels: u16, sample_rate: u32, samples: Seq<u32>) -> bool {
    match r {
        Ok(d) => d.channels == channels && d.sample_rate == sample_rate && match d.samples {
            WavSamples::Float32(w) => w@ == samples,
            WavSamples::Pcm16(_) => false,
        },
        Err(_) => false,
    }
}

/// Reading back the bytes of a `u32` gives the `u32`.
proof fn lemma_u32_bytes_round_trip(b: Seq<u8>, i: int, x: u32)
    requires
        0 <= i,
        i + 4 <= b.len(),
        b.subrange(i, i + 4) == u32_le_bytes(x),
    ensures
        le_u32(b, i) == x,
{
    let w = u32_le_bytes(x);
    assert(b[i] == w[0] && b[i + 1] == w[1] && b[i + 2] == w[2] && b[i + 3] == w[3]) by {
        assert(b.subrange(i, i + 4)[0] == b[i]);
        assert(b.subrange(i, i + 4)[1] == b[i + 1]);
        assert(b.subrange(i, i + 4)[2] == b[i + 2]);
        assert(b.subrange(i, i + 4)[3] == b[i + 3]);
    }
    assert((((x & 0xff) as u8) as u32) | ((((x >> 8u32) & 0xff) as u8) as u32) << 8u32 | ((((x
        >> 16u32) & 0xff) as u8) as u32) << 16u32 | (((x >> 24u32) as u8) as u32) << 24u32 == x)
        by (bit_vector);
}

/// Reading back the bytes of a `u16` gives the `u16`.
proof fn lemma_u16_bytes_round_trip(b: Seq<u8>, i: int, x: u16)
    requires
        0 <= i,
        i + 2 <= b.len(),
        b.subrange(i, i + 2) == u16_le_bytes(x),
    ensures
        le_u16(b, i) == x,
{
    let w = u16_le_bytes(x);
    assert(b[i] == w[0] && b[i + 1] == w[1]) by {
        assert(b.subrange(i, i + 2)[0] == b[i]);
        assert(b.subrange(i, i + 2)[1] == b[i + 1]);
    }
    assert((((x & 0xff) as u8) as u16) | ((((x >> 8u16) as u8) as u16) << 8u16) == x) by (bit_vector);
}

/// Sample `k` occupies bytes `4k .. 4k + 4` of the sample bytes.
proof fn lemma_sample_bytes_layout(s: Seq<u32>, k: int)
    requires
        0 <= k < s.len(),
    ensures
        spec_sample_bytes(s).len() == 4 * s.len(),
        spec_sample_bytes(s).subrange(4 * k, 4 * k + 4) == u32_le_bytes(s[k]),
    decreases s.len(),
{
    let p = spec_sample_bytes(s.drop_last());
    if k < s.len() - 1 {
        lemma_sample_bytes_layout(s.drop_last(), k);
        assert(spec_sample_bytes(s).subrange(4 * k, 4 * k + 4) =~= p.subrange(4 * k, 4 * k + 4));
    } else {
        if s.len() > 1 {
            lemma_sample_bytes_layout(s.drop_last(), 0);
        }
        assert(p.len() == 4 * (s.len() - 1));
        assert(spec_sample_bytes(s).subrange(4 * k, 4 * k + 4) =~= u32_le_bytes(s.last()));
    }
}

proof fn lemma_sample_bytes_len(s: Seq<u32>)
    ensures
        spec_sample_bytes(s).len() == 4 * s.len(),
    decreases s.len(),
{
    if s.len() > 0 {
        lemma_sample_bytes_len(s.drop_last());
    }
}

/// The header of an encoded float WAV reads back field by field: the RIFF tag,
/// a 16-byte `fmt ` chunk holding the format, and a `data` chunk of the
/// samples' byte count.
proof fn lemma_float_header_reads(samples: Seq<u32>, channels: u16, sample_rate: u32)
    requires
        float_wav_fits(samples.len(), channels, sample_rate),
        36 + samples.len() * 4 <= u32::MAX,
    ensures
        ({
            let b = spec_encode_float_wav(samples, channels, sample_rate);
            &&& b.len() == 44 + 4 * samples.len()
            &&& has_riff_header(b)
            &&& le_u32(b, 12) == FMT_ID
            &&& le_u32(b, 16) == 16
            &&& fmt_at(b, 20) == (WavFormat {
                format: FORMAT_IEEE_FLOAT,
                channels,
                sample_rate,
                bits: 32,
            })
            &&& le_u32(b, 36) == DATA_ID
            &&& le_u32(b, 40) == samples.len() * 4
        }),
{
    let n = samples.len();
    let db = (n * 4) as u32;
    assert(db == n * 4);
    let h = spec_float_header(channels, sample_rate, db);
    lemma_sample_bytes_len(samples);
    let b = spec_encode_float_wav(samples, channels, sample_rate);
    assert(h.len() == 44);
    assert(b.len() == 44 + 4 * n);
    assert(b.subrange(0int, 0int + 4) =~= u32_le_bytes(RIFF_ID));
    lemma_u32_bytes_round_trip(b, 0, RIFF_ID);
    assert(b.subrange(8int, 8int + 4) =~= u32_le_bytes(WAVE_ID));
    lemma_u32_bytes_round_trip(b, 8, WAVE_ID);
    assert(b.subrange(12int, 12int + 4) =~= u32_le_bytes(FMT_ID));
    lemma_u32_bytes_round_trip(b, 12, FMT_ID);
    assert(b.subrange(16int, 16int + 4) =~= u32_le_bytes(16));
    lemma_u32_bytes_round_trip(b, 16, 16);
    assert(b.subrange(20int, 20int + 2) =~= u16_le_bytes(FORMAT_IEEE_FLOAT));
    lemma_u16_bytes_round_trip(b, 20, FORMAT_IEEE_FLOAT);
    assert(b.subrange(22int, 22int + 2) =~= u16_le_bytes(channels));
    lemma_u16_bytes_round_trip(b, 22, channels);
    assert(b.subrange(24int, 24int + 4) =~= u32_le_bytes(sample_rate));
    lemma_u32_bytes_round_trip(b, 24, sample_rate);
    assert(b.subrange(34int, 34int + 2) =~= u16_le_bytes(32));
    lemma_u16_bytes_round_trip(b, 34, 32);
    assert(b.subrange(36int, 36int + 4) =~= u32_le_bytes(DATA_ID));
    lemma_u32_bytes_round_trip(b, 36, DATA_ID);
    assert(b.subrange(40int, 40int + 4) =~= u32_le_bytes(db));
    lemma_u32_bytes_round_trip(b, 40, db);
}

/// The sample bytes of an encoded float WAV, read back as words, are the
/// samples.
proof fn lemma_float_samples_read(samples: Seq<u32>, channels: u16, sample_rate: u32)
    requires
        float_wav_fits(samples.len(), channels, sample_rate),
    ensures
        ({
            let b = spec_encode_float_wav(samples, channels, sample_rate);
            b.len() == 44 + 4 * samples.len() && spec_words(b.subrange(44, b.len() as int))
                == samples
        }),
{
    let n = samples.len();
    let db = (n * 4) as u32;
    let h = spec_float_header(channels, sample_rate, db);
    let sb = spec_sample_bytes(samples);
    lemma_sample_bytes_len(samples);
    let b = spec_encode_float_wav(samples, channels, sample_rate);
    assert(h.len() == 44);
    let sub = b.subrange(44, b.len() as int);
    assert(sub =~= sb);
    assert forall|k: int| 0 <= k < n implies #[trigger] spec_words(sub)[k] == samples[k] by {
        lemma_sample_bytes_layout(samples, k);
        lemma_u32_bytes_round_trip(sub, 4 * k, samples[k]);
    }
    assert(spec_words(sub) =~= samples);
}

/// Writing 32-bit float samples and reading the file back gives the same
/// channel count, sample rate and samples: a float WAV round-trips exactly.
/// (With zero channels the reader refuses the file, and a data size that does
/// not fit the 32-bit size field cannot describe the samples.)
pub proof fn lemma_float_wav_round_trip(samples: Seq<u32>, channels: u16, sample_rate: u32)
    requires
        float_wav_fits(samples.len(), channels, sample_rate),
        channels > 0,
        36 + samples.len() * 4 <= u32::MAX,
    ensures
        chunks_readable(spec_encode_float_wav(samples, channels, sample_rate)),
        forall|r: Result<DecodedWav, WavError>|
            decoded_as(spec_encode_float_wav(samples, channels, sample_rate), r) ==> is_float_wav(
                r,
                channels,
                sample_rate,
                samples,
            ),
{
    lemma_float_header_reads(samples, channels, sample_rate);
    lemma_float_samples_read(samples, channels, sample_rate);
    let b = spec_encode_float_wav(samples, channels, sample_rate);
    let f = WavFormat { format: FORMAT_IEEE_FLOAT, channels, sample_rate, bits: 32 };
    let len = b.len() as int;
    assert(scan_chunks(b, len, Some(f), Some((44, len))) == (Some(f), Some((44int, len))));
    assert(scan_chunks(b, 36, Some(f), None) == scan_chunks(b, len, Some(f), Some((44, len))));
    assert(scan_chunks(b, 12, None, None) == scan_chunks(b, 36, Some(f), None));
    assert(fmt_chunks_complete(b, len));
    assert(fmt_chunks_complete(b, 36));
    assert(fmt_chunks_complete(b, 12));
    assert(spec_wav_layout(b) == Ok::<(WavFormat, int, int), WavError>((f, 44, len)));
}

/// A data range moved `d` bytes further into the file.
pub open spec fn shift_range(r: Option<(int, int)>, d: int) -> Option<(int, int)> {
    match r {
        Some((x, y)) => Some((x + d, y + d)),
        None => None,
    }
}

/// The header position of the chunk after the one at `pos`.
pub open spec fn next_chunk(b: Seq<u8>, pos: int) -> int {
    let size = le_u32(b, pos + 4) as int;
    pos + 8 + size + size % 2
}

/// The chunk walk started at `pos` meets a chunk header at `p`.
pub open spec fn walk_reaches(b: Seq<u8>, pos: int, p: int) -> bool
    decreases (if pos <= p { p - pos } else { 0 }),
{
    if pos == p {
        true
    } else if pos < 0 || pos > p || pos + 8 > b.len() {
        false
    } else {
        walk_reaches(b, next_chunk(b, pos), p)
    }
}

/// A walk's data range: the one it found, or else the one it was handed.
pub open spec fn found_or(found: Option<(int, int)>, carried: Option<(int, int)>) -> Option<(int, int)> {
    match found {
        Some(r) => Some(r),
        None => carried,
    }
}

/// The data range a walk reports is that of the last `data` chunk it meets,
/// whatever it was handed, or what it was handed if it meets none.
proof fn lemma_scan_data_found(b: Seq<u8>, p: int, f: Option<WavFormat>, data: Option<(int, int)>)
    ensures
        scan_chunks(b, p, f, data).1 == found_or(scan_chunks(b, p, f, None).1, data),
    decreases (if p <= b.len() { b.len() - p } else { 0 }),
{
    if !(p < 0 || p + 8 > b.len()) {
        let size = le_u32(b, p + 4) as int;
        let body = p + 8;
        let end = if body + size <= b.len() { body + size } else { b.len() as int };
        let id = le_u32(b, p);
        let f2 = if id == FMT_ID && size >= 16 { Some(fmt_at(b, body)) } else { f };
        let data2 = if id == DATA_ID { Some((body, end)) } else { data };
        let none2 = if id == DATA_ID { Some((body, end)) } else { None };
        lemma_scan_data_found(b, body + size + size % 2, f2, data2);
        lemma_scan_data_found(b, body + size + size % 2, f2, none2);
    }
}

/// `b` is `b2` with `d` more bytes standing at position `q`: the chunk walk of
/// `b` from `p + d` meets the same chunks as that of `b2` from `p`, their data
/// ranges moved by `d`.
proof fn lemma_scan_shift(
    b: Seq<u8>,
    b2: Seq<u8>,
    d: int,
    q: int,
    p: int,
    fa: Option<WavFormat>,
    fb: Option<WavFormat>,
    da: Option<(int, int)>,
    db: Option<(int, int)>,
)
    requires
        d >= 0,
        q >= 0,
        p >= q,
        b.len() == b2.len() + d,
        forall|i: int| q <= i < b2.len() ==> #[trigger] b2[i] == b[i + d],
    ensures
        fmt_chunks_complete(b, p + d) == fmt_chunks_complete(b2, p),
        da == shift_range(db, d) ==> scan_chunks(b, p + d, fa, da).1 == shift_range(
            scan_chunks(b2, p, fb, db).1,
            d,
        ),
        fa == fb && fmt_chunks_complete(b2, p) ==> scan_chunks(b, p + d, fa, da).0 == scan_chunks(
            b2,
            p,
            fb,
            db,
        ).0,
    decreases (if p <= b2.len() { b2.len() - p } else { 0 }),
{
    if p + 8 <= b2.len() {
        assert(b2[p] == b[p + d] && b2[p + 1] == b[p + 1 + d] && b2[p + 2] == b[p + 2 + d] && b2[p
            + 3] == b[p + 3 + d]);
        assert(b2[p + 4] == b[p + 4 + d] && b2[p + 5] == b[p + 5 + d] && b2[p + 6] == b[p + 6 + d]
            && b2[p + 7] == b[p + 7 + d]);
        let id = le_u32(b2, p);
        let size = le_u32(b2, p + 4) as int;
        assert(le_u32(b, p + d) == id);
        assert(le_u32(b, p + d + 4) == size);
        let body = p + 8;
        let next = body + size + size % 2;
        let fa2 = if id == FMT_ID && size >= 16 { Some(fmt_at(b, body + d)) } else { fa };
        let fb2 = if id == FMT_ID && size >= 16 { Some(fmt_at(b2, body)) } else { fb };
        let end = if body + size <= b2.len() { body + size } else { b2.len() as int };
        let endb = if body + d + size <= b.len() { body + d + size } else { b.len() as int };
        let da2 = if id == DATA_ID { Some((body + d, endb)) } else { da };
        let db2 = if id == DATA_ID { Some((body, end)) } else { db };
        if id == FMT_ID && size >= 16 && body + 16 <= b2.len() {
            assert(b2[body] == b[body + d] && b2[body + 1] == b[body + 1 + d]);
            assert(b2[body + 2] == b[body + 2 + d] && b2[body + 3] == b[body + 3 + d]);
            assert(b2[body + 4] == b[body + 4 + d] && b2[body + 5] == b[body + 5 + d]);
            assert(b2[body + 6] == b[body + 6 + d] && b2[body + 7] == b[body + 7 + d]);
            assert(b2[body + 14] == b[body + 14 + d] && b2[body + 15] == b[body + 15 + d]);
            assert(fmt_at(b, body + d) == fmt_at(b2, body));
        }
        lemma_scan_shift(b, b2, d, q, next, fa2, fb2, da2, db2);
        assert(scan_chunks(b, p + d, fa, da) == scan_chunks(b, next + d, fa2, da2));
        assert(scan_chunks(b2, p, fb, db) == scan_chunks(b2, next, fb2, db2));
    }
}

/// The data range that a chunk walk from `p` reports is the one it started
/// with, or a range inside the bytes that starts after the chunk header at `p`.
proof fn lemma_scan_data_inside(b: Seq<u8>, p: int, f: Option<WavFormat>, data: Option<(int, int)>)
    requires
        p >= 0,
    ensures
        scan_chunks(b, p, f, data).1 == data || (scan_chunks(b, p, f, data).1 matches Some((x, y))
            && p + 8 <= x <= y <= b.len()),
    decreases (if p <= b.len() { b.len() - p } else { 0 }),
{
    if p + 8 <= b.len() {
        let size = le_u32(b, p + 4) as int;
        let body = p + 8;
        let end = if body + size <= b.len() { body + size } else { b.len() as int };
        let id = le_u32(b, p);
        let f2 = if id == FMT_ID && size >= 16 { Some(fmt_at(b, body)) } else { f };
        let data2 = if id == DATA_ID { Some((body, end)) } else { data };
        lemma_scan_data_inside(b, body + size + size % 2, f2, data2);
    }
}

/// Up to the chunk at `p`, the walks of two byte strings that agree on their
/// first `p` bytes are the same walk: both arrive at `p` carrying the same
/// format and data range, and the chunks they pass lie wholly before `p`.
proof fn lemma_walk_prefix(
    b: Seq<u8>,
    b2: Seq<u8>,
    pos: int,
    p: int,
    f: Option<WavFormat>,
    data: Option<(int, int)>,
) -> (r: (Option<WavFormat>, Option<(int, int)>))
    requires
        pos >= 0,
        walk_reaches(b, pos, p),
        p <= b.len(),
        p <= b2.len(),
        forall|i: int| 0 <= i < p ==> #[trigger] b2[i] == b[i],
        data matches Some((x, y)) ==> 0 <= x <= y <= p,
    ensures
        scan_chunks(b, pos, f, data) == scan_chunks(b, p, r.0, r.1),
        scan_chunks(b2, pos, f, data) == scan_chunks(b2, p, r.0, r.1),
        fmt_chunks_complete(b, pos) == fmt_chunks_complete(b, p),
        fmt_chunks_complete(b2, pos) == fmt_chunks_complete(b2, p),
        r.1 matches Some((x, y)) ==> 0 <= x <= y <= p,
    decreases (if pos <= p { p - pos } else { 0 }),
{
    if pos == p {
        (f, data)
    } else {
        let next = next_chunk(b, pos);
        assert(walk_reaches(b, next, p));
        assert(pos + 8 <= next <= p) by {
            if next != p {
                assert(walk_reaches(b, next, p));
            }
        }
        assert(b2[pos] == b[pos] && b2[pos + 1] == b[pos + 1] && b2[pos + 2] == b[pos + 2] && b2[pos
            + 3] == b[pos + 3]);
        assert(b2[pos + 4] == b[pos + 4] && b2[pos + 5] == b[pos + 5] && b2[pos + 6] == b[pos + 6]
            && b2[pos + 7] == b[pos + 7]);
        let id = le_u32(b, pos);
        let size = le_u32(b, pos + 4) as int;
        assert(le_u32(b2, pos) == id);
        assert(le_u32(b2, pos + 4) == size);
        let body = pos + 8;
        if id == FMT_ID && size >= 16 {
            assert(b2[body] == b[body] && b2[body + 1] == b[body + 1]);
            assert(b2[body + 2] == b[body + 2] && b2[body + 3] == b[body + 3]);
            assert(b2[body + 4] == b[body + 4] && b2[body + 5] == b[body + 5]);
            assert(b2[body + 6] == b[body + 6] && b2[body + 7] == b[body + 7]);
            assert(b2[body + 14] == b[body + 14] && b2[body + 15] == b[body + 15]);
            assert(fmt_at(b2, body) == fmt_at(b, body));
        }
        let f2 = if id == FMT_ID && size >= 16 { Some(fmt_at(b, body)) } else { f };
        let data2 = if id == DATA_ID { Some((body, body + size)) } else { data };
        assert(scan_chunks(b, pos, f, data) == scan_chunks(b, next, f2, data2));
        assert(scan_chunks(b2, pos, f, data) == scan_chunks(b2, next, f2, data2));
        lemma_walk_prefix(b, b2, next, p, f2, data2)
    }
}

/// A chunk this reader does not know, met anywhere on the chunk walk, is
/// skipped together with its pad byte: removing its header, its body and, for
/// an odd size, the pad byte leaves the file as readable as before and decoded
/// to the same result.
pub proof fn lemma_unknown_chunk_skipped(b: Seq<u8>, p: int)
    requires
        has_riff_header(b),
        walk_reaches(b, 12, p),
        p + 8 <= b.len(),
        le_u32(b, p) != FMT_ID,
        le_u32(b, p) != DATA_ID,
        next_chunk(b, p) <= b.len(),
    ensures
        ({
            let b2 = b.take(p) + b.skip(next_chunk(b, p));
            &&& chunks_readable(b) == chunks_readable(b2)
            &&& chunks_readable(b) ==> forall|r: Result<DecodedWav, WavError>|
                decoded_as(b, r) == decoded_as(b2, r)
        }),
{
    let d = next_chunk(b, p) - p;
    let b2 = b.take(p) + b.skip(next_chunk(b, p));
    assert(p >= 12) by {
        if p != 12 {
            assert(12 + 8 <= b.len());
            assert(walk_reaches(b, next_chunk(b, 12), p));
        }
    }
    assert(b2.len() + d == b.len());
    assert forall|i: int| 0 <= i < p implies #[trigger] b2[i] == b[i] by {}
    assert forall|i: int| p <= i < b2.len() implies #[trigger] b2[i] == b[i + d] by {}
    assert(b2[0] == b[0] && b2[1] == b[1] && b2[2] == b[2] && b2[3] == b[3]);
    assert(b2[8] == b[8] && b2[9] == b[9] && b2[10] == b[10] && b2[11] == b[11]);
    assert(has_riff_header(b2));
    let r = lemma_walk_prefix(b, b2, 12, p, None, None);
    let (f0, d0) = r;
    assert(scan_chunks(b, p, f0, d0) == scan_chunks(b, p + d, f0, d0));
    assert(fmt_chunks_complete(b, p) == fmt_chunks_complete(b, p + d));
    lemma_scan_shift(b, b2, d, p, p, f0, f0, None, None);
    lemma_scan_shift(b, b2, d, p, p, f0, f0, d0, d0);
    assert(shift_range(None, d) == None::<(int, int)>);
    assert(chunks_readable(b) == chunks_readable(b2));
    if chunks_readable(b) {
        lemma_scan_data_found(b, p + d, f0, d0);
        lemma_scan_data_found(b2, p, f0, d0);
        lemma_scan_data_inside(b2, p, f0, None);
        let found2 = scan_chunks(b2, p, f0, None).1;
        assert(scan_chunks(b, p + d, f0, None).1 == shift_range(found2, d));
        assert(scan_chunks(b, 12, None, None).0 == scan_chunks(b2, 12, None, None).0);
        if let Some((x, y)) = found2 {
            assert(b.subrange(x + d, y + d) =~= b2.subrange(x, y));
            assert(scan_chunks(b, 12, None, None).1 == Some((x + d, y + d)));
            assert(scan_chunks(b2, 12, None, None).1 == Some((x, y)));
        } else {
            assert(scan_chunks(b, 12, None, None).1 == d0);
            assert(scan_chunks(b2, 12, None, None).1 == d0);
            if let Some((x, y)) = d0 {
                assert(b.subrange(x, y) =~= b2.subrange(x, y));
            }
        }
    }
}

/// `b` with the 16-byte chunk whose header is at `p` grown by `extra`
/// trailing body bytes (and a pad byte for an odd count), its size field raised
/// to match.
pub open spec fn grow_chunk(b: Seq<u8>, p: int, extra: Seq<u8>) -> Seq<u8> {
    let pad = if extra.len() % 2 == 1 { seq![0u8] } else { Seq::<u8>::empty() };
    b.take(p + 4) + u32_le_bytes((16 + extra.len()) as u32) + b.subrange(p + 8, p + 24) + extra + pad
        + b.skip(p + 24)
}

/// Where the bytes of a grown chunk stand.
proof fn lemma_grow_chunk_layout(b: Seq<u8>, p: int, extra: Seq<u8>)
    requires
        0 <= p,
        p + 24 <= b.len(),
        16 + extra.len() <= u32::MAX,
    ensures
        ({
            let b2 = grow_chunk(b, p, extra);
            let d = extra.len() + extra.len() % 2;
            &&& b2.len() == b.len() + d
            &&& forall|i: int| 0 <= i < p + 4 ==> #[trigger] b2[i] == b[i]
            &&& forall|i: int| p + 8 <= i < p + 24 ==> #[trigger] b2[i] == b[i]
            &&& forall|i: int| p + 24 <= i < b.len() ==> #[trigger] b[i] == b2[i + d]
            &&& le_u32(b2, p + 4) == 16 + extra.len()
        }),
{
    let e = extra.len() as int;
    let d = e + e % 2;
    let pad = if extra.len() % 2 == 1 { seq![0u8] } else { Seq::<u8>::empty() };
    let size2 = (16 + extra.len()) as u32;
    let b2 = grow_chunk(b, p, extra);
    assert(pad.len() == e % 2);
    assert(b2.len() == b.len() + d);
    assert forall|i: int| 0 <= i < p + 4 implies #[trigger] b2[i] == b[i] by {}
    assert forall|i: int| p + 8 <= i < p + 24 implies #[trigger] b2[i] == b[i] by {}
    assert forall|i: int| p + 24 <= i < b.len() implies #[trigger] b[i] == b2[i + d] by {}
    assert(b2.subrange(p + 4, p + 8) =~= u32_le_bytes(size2));
    lemma_u32_bytes_round_trip(b2, p + 4, size2);
}

/// Any `fmt ` chunk of at least 16 bytes supplies the format, whatever follows
/// its first 16 body bytes: growing a 16-byte `fmt ` chunk met on the chunk
/// walk by `extra` trailing bytes (and a pad byte for an odd count), with its
/// size field raised to match, leaves the file as readable as before and
/// decoded to the same result.
pub proof fn lemma_fmt_chunk_may_grow(b: Seq<u8>, p: int, extra: Seq<u8>)
    requires
        has_riff_header(b),
        walk_reaches(b, 12, p),
        p + 24 <= b.len(),
        le_u32(b, p) == FMT_ID,
        le_u32(b, p + 4) == 16,
        16 + extra.len() <= u32::MAX,
    ensures
        chunks_readable(b) == chunks_readable(grow_chunk(b, p, extra)),
        chunks_readable(b) ==> forall|r: Result<DecodedWav, WavError>|
            decoded_as(b, r) == decoded_as(grow_chunk(b, p, extra), r),
{
    assert(p >= 12) by {
        if p != 12 {
            assert(walk_reaches(b, next_chunk(b, 12), p));
        }
    }
    lemma_grow_chunk_layout(b, p, extra);
    let b2 = grow_chunk(b, p, extra);
    let e = extra.len() as int;
    lemma_grown_fmt_decodes_alike(b, b2, p, e + e % 2, 16 + e);
}

/// The walk and decode of `b2`, which holds `b`'s 16-byte `fmt ` chunk at `p`
/// with its size field set to `size2` and `d` more body bytes, are those of `b`.
proof fn lemma_grown_fmt_decodes_alike(b: Seq<u8>, b2: Seq<u8>, p: int, d: int, size2: int)
    requires
        has_riff_header(b),
        p >= 12,
        walk_reaches(b, 12, p),
        p + 24 <= b.len(),
        le_u32(b, p) == FMT_ID,
        le_u32(b, p + 4) == 16,
        d >= 0,
        size2 >= 16,
        size2 + size2 % 2 == 16 + d,
        b2.len() == b.len() + d,
        forall|i: int| 0 <= i < p + 4 ==> #[trigger] b2[i] == b[i],
        forall|i: int| p + 8 <= i < p + 24 ==> #[trigger] b2[i] == b[i],
        forall|i: int| p + 24 <= i < b.len() ==> #[trigger] b[i] == b2[i + d],
        le_u32(b2, p + 4) == size2,
    ensures
        chunks_readable(b) == chunks_readable(b2),
        chunks_readable(b) ==> forall|r: Result<DecodedWav, WavError>|
            decoded_as(b, r) == decoded_as(b2, r),
{
    assert(b2[0] == b[0] && b2[1] == b[1] && b2[2] == b[2] && b2[3] == b[3]);
    assert(b2[8] == b[8] && b2[9] == b[9] && b2[10] == b[10] && b2[11] == b[11]);
    assert(has_riff_header(b2));
    assert(b2[p] == b[p] && b2[p + 1] == b[p + 1] && b2[p + 2] == b[p + 2] && b2[p + 3] == b[p + 3]);
    assert(le_u32(b2, p) == FMT_ID);
    let body = p + 8;
    assert(b2[body] == b[body] && b2[body + 1] == b[body + 1]);
    assert(b2[body + 2] == b[body + 2] && b2[body + 3] == b[body + 3]);
    assert(b2[body + 4] == b[body + 4] && b2[body + 5] == b[body + 5]);
    assert(b2[body + 6] == b[body + 6] && b2[body + 7] == b[body + 7]);
    assert(b2[body + 14] == b[body + 14] && b2[body + 15] == b[body + 15]);
    let fm = fmt_at(b, body);
    assert(fmt_at(b2, body) == fm);
    let r = lemma_walk_prefix(b, b2, 12, p, None, None);
    let (f0, d0) = r;
    let q = p + 24;
    assert(scan_chunks(b, p, f0, d0) == scan_chunks(b, q, Some(fm), d0));
    assert(next_chunk(b2, p) == q + d);
    assert(scan_chunks(b2, p, f0, d0) == scan_chunks(b2, q + d, Some(fm), d0));
    assert(fmt_chunks_complete(b, p) == fmt_chunks_complete(b, q));
    assert(fmt_chunks_complete(b2, p) == fmt_chunks_complete(b2, q + d));
    lemma_scan_shift(b2, b, d, q, q, Some(fm), Some(fm), None, None);
    lemma_scan_shift(b2, b, d, q, q, Some(fm), Some(fm), d0, d0);
    assert(shift_range(None, d) == None::<(int, int)>);
    assert(chunks_readable(b) == chunks_readable(b2));
    if chunks_readable(b) {
        lemma_scan_data_found(b2, q + d, Some(fm), d0);
        lemma_scan_data_found(b, q, Some(fm), d0);
        lemma_scan_data_inside(b, q, Some(fm), None);
        let found = scan_chunks(b, q, Some(fm), None).1;
        assert(scan_chunks(b2, q + d, Some(fm), None).1 == shift_range(found, d));
        assert(scan_chunks(b, 12, None, None).0 == scan_chunks(b2, 12, None, None).0);
        if let Some((x, y)) = found {
            assert(b2.subrange(x + d, y + d) =~= b.subrange(x, y));
            assert(scan_chunks(b2, 12, None, None).1 == Some((x + d, y + d)));
            assert(scan_chunks(b, 12, None, None).1 == Some((x, y)));
        } else {
            assert(scan_chunks(b, 12, None, None).1 == d0);
            assert(scan_chunks(b2, 12, None, None).1 == d0);
            if let Some((x, y)) = d0 {
                assert(b.subrange(x, y) =~= b2.subrange(x, y));
            }
        }
    }
}

} // verus!
