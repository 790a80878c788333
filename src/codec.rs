//! Samples as little-endian words: decoding a file into a frame-major signal and
//! assembling a complete file from one.
use vstd::prelude::*;
use crate::bytes::{le_at, le_bytes, lemma_le_val_bound, lemma_pow256_values, pow256, push_le, read_le};
use crate::format::{header_of, lemma_header_align, parse_header, SampleType, WavError};

verus! {

/// A frame-major buffer of samples of one type: the `num_channels` samples of frame
/// `i` stand at `i * num_channels ..`. Each sample is held as its on-disk word: the
/// two's-complement bits of an integer sample, the IEEE bits of a float sample.
#[derive(Clone, Debug)]
pub struct Signal {
    pub sample_type: SampleType,
    pub num_channels: u16,
    pub words: Vec<u64>,
}

/// Whether each word fits in `w` bytes.
pub open spec fn words_fit(ws: Seq<u64>, w: nat) -> bool {
    forall|i: int| 0 <= i < ws.len() ==> (#[trigger] ws[i]) < pow256(w)
}

impl Signal {
    /// A signal of whole frames whose words fit the sample width.
    pub open spec fn wf(&self) -> bool {
        &&& self.num_channels > 0
        &&& self.words@.len() % (self.num_channels as nat) == 0
        &&& words_fit(self.words@, self.sample_type.spec_width())
    }

    pub open spec fn spec_num_frames(&self) -> nat {
        self.words@.len() / (self.num_channels as nat)
    }

    /// The number of frames.
    pub fn num_frames(&self) -> (r: usize)
        requires
            self.num_channels > 0,
        ensures
            r == self.spec_num_frames(),
    {
        self.words.len() / self.num_channels as usize
    }

    /// The word of channel `ch` in frame `frame`.
    pub fn word(&self, frame: usize, ch: usize) -> (r: u64)
        requires
            self.wf(),
            frame < self.spec_num_frames(),
            ch < self.num_channels,
        ensures
            r == self.words@[frame * self.num_channels + ch],
    {
        let c = self.num_channels as usize;
        let len = self.words.len();
        proof {
            let n = self.spec_num_frames();
            assert(frame * c + ch < self.words@.len()) by (nonlinear_arith)
                requires
                    frame < n,
                    ch < c,
                    n == self.words@.len() / (c as nat),
                    c > 0,
            ;
        }
        self.words[frame * c + ch]
    }
}

/// The words of the `w`-byte samples of `d`; trailing bytes short of a sample are not read.
pub open spec fn words_of(d: Seq<u8>, w: nat) -> Seq<u64> {
    Seq::new(d.len() / w, |j: int| le_at(d, j * w, w) as u64)
}

/// The bytes of the words `ws`, each in `w` little-endian bytes.
pub open spec fn words_bytes(ws: Seq<u64>, w: nat) -> Seq<u8>
    decreases ws.len(),
{
    if ws.len() == 0 {
        Seq::empty()
    } else {
        words_bytes(ws.drop_last(), w) + le_bytes(ws.last() as nat, w)
    }
}

/// Reads the `size / w` words of `w` bytes that start at `off`.
pub fn decode_words(b: &[u8], off: usize, size: usize, w: usize) -> (r: Vec<u64>)
    requires
        off + size <= b@.len(),
        1 <= w <= 8,
    ensures
        r@ == words_of(b@.subrange(off as int, off + size), w as nat),
{
    let ghost d = b@.subrange(off as int, off + size);
    let n = size / w;
    let len = b.len();
    let mut out: Vec<u64> = Vec::new();
    let mut j: usize = 0;
    let mut pos: usize = off;
    while j < n
        invariant
            off + size <= b@.len(),
            len == b@.len(),
            1 <= w <= 8,
            n == size / w,
            j <= n,
            pos == off + j * w,
            d == b@.subrange(off as int, off + size),
            out@.len() == j,
            forall|k: int| 0 <= k < j ==> out@[k] == le_at(d, k * w, w as nat) as u64,
        decreases n - j,
    {
        proof {
            assert(j * w + w <= size) by (nonlinear_arith)
                requires
                    j < n,
                    n == size / w,
                    w >= 1,
            ;
            assert(d.subrange(j * w, j * w + w) =~= b@.subrange(pos as int, pos + w));
        }
        let x = read_le(b, pos, w);
        out.push(x);
        proof {
            assert((j + 1) * w == j * w + w) by (nonlinear_arith);
        }
        pos = pos + w;
        j = j + 1;
    }
    proof {
        assert(out@ =~= words_of(d, w as nat));
    }
    out
}

/// What decoding the file `b` gives: sample type, channel count, words and sample rate.
pub open spec fn decoded(b: Seq<u8>) -> Result<(SampleType, u16, Seq<u64>, u32), WavError> {
    match header_of(b) {
        Err(e) => Err(e),
        Ok(h) => if h.data_offset + h.data_size > b.len() {
            Err(WavError::MalformedHeader)
        } else {
            Ok(
                (
                    h.sample_type,
                    h.num_channels,
                    words_of(
                        b.subrange(h.data_offset as int, h.data_offset + h.data_size),
                        h.sample_type.spec_width(),
                    ),
                    h.sample_rate,
                ),
            )
        },
    }
}

/// Decodes a whole file into its signal and sample rate. The sample type is the one
/// stored on disk; a pad byte after an odd-sized `data` chunk is not a sample.
pub fn decode(b: &[u8]) -> (r: Result<(Signal, u32), WavError>)
    ensures
        match decoded(b@) {
            Err(e) => r == Err::<(Signal, u32), WavError>(e),
            Ok((t, c, ws, rate)) => {
                &&& r is Ok
                &&& r->Ok_0.0.sample_type == t
                &&& r->Ok_0.0.num_channels == c
                &&& r->Ok_0.0.words@ == ws
                &&& r->Ok_0.1 == rate
                &&& r->Ok_0.0.wf()
            },
        },
{
    let h = parse_header(b)?;
    proof {
        lemma_header_align(b@);
    }
    let size = h.data_size as usize;
    if size > b.len() || h.data_offset > b.len() - size {
        return Err(WavError::MalformedHeader);
    }
    let w = h.sample_type.width();
    let words = decode_words(b, h.data_offset, size, w);
    let s = Signal { sample_type: h.sample_type, num_channels: h.num_channels, words };
    proof {
        let d = b@.subrange(h.data_offset as int, h.data_offset + size);
        let c = h.num_channels as nat;
        lemma_frames_whole(size as nat, c, w as nat);
        assert forall|i: int| 0 <= i < s.words@.len() implies (#[trigger] s.words@[i]) < pow256(
            w as nat,
        ) by {
            assert(i * w + w <= size) by (nonlinear_arith)
                requires
                    0 <= i < (size as nat) / (w as nat),
                    w >= 1,
            ;
            lemma_le_val_bound(d.subrange(i * w, i * w + w));
        }
    }
    Ok((s, h.sample_rate))
}

/// A size made of whole frames of `c` samples of `w` bytes holds a whole number of
/// frames' worth of samples.
proof fn lemma_frames_whole(size: nat, c: nat, w: nat)
    requires
        size % (c * w) == 0,
        c > 0,
        w > 0,
    ensures
        (size / w) % c == 0,
{
    assert(c * w > 0) by (nonlinear_arith)
        requires
            c > 0,
            w > 0,
    ;
    let f = size / (c * w);
    assert(size == f * (c * w)) by (nonlinear_arith)
        requires
            size % (c * w) == 0,
            f == size / (c * w),
            c * w > 0,
    ;
    assert(size / w == f * c) by (nonlinear_arith)
        requires
            size == f * (c * w),
            w > 0,
    ;
    assert((f * c) % c == 0) by (nonlinear_arith)
        requires
            c > 0,
    ;
}

/// The 44 header bytes of a file whose `data` chunk holds `data` bytes of type `t`:
/// `RIFF <size> WAVE`, a classic 16-byte `fmt ` chunk, and the `data` chunk header.
pub open spec fn header_bytes(t: SampleType, channels: nat, rate: nat, data: nat) -> Seq<u8> {
    let w = t.spec_width();
    let align = channels * w;
    seq![0x52u8, 0x49, 0x46, 0x46] + le_bytes(36 + data + data % 2, 4) + seq![
        0x57u8,
        0x41,
        0x56,
        0x45,
    ] + seq![0x66u8, 0x6d, 0x74, 0x20] + le_bytes(16, 4) + le_bytes(t.spec_tag(), 2) + le_bytes(
        channels,
        2,
    ) + le_bytes(rate, 4) + le_bytes(rate * align, 4) + le_bytes(align, 2) + le_bytes(8 * w, 2)
        + seq![0x64u8, 0x61, 0x74, 0x61] + le_bytes(data, 4)
}

/// One zero byte when `data` is odd, else nothing.
pub open spec fn pad_bytes(data: nat) -> Seq<u8> {
    if data % 2 == 1 {
        seq![0u8]
    } else {
        Seq::empty()
    }
}

/// The bytes of a complete file holding the words `ws` of type `t`: the header, the
/// words, and one zero pad byte when the data size is odd. Every declared size counts
/// exactly the bytes that follow it.
pub open spec fn wav_bytes(t: SampleType, channels: nat, rate: nat, ws: Seq<u64>) -> Seq<u8> {
    let data = ws.len() * t.spec_width();
    header_bytes(t, channels, rate, data) + words_bytes(ws, t.spec_width()) + pad_bytes(data)
}

/// What the size fields of a file can express: the RIFF size in 32 bits, the frame size
/// in 16 bits and the byte rate in 32 bits.
pub open spec fn fits_format(s: &Signal, sample_rate: u32) -> bool {
    let w = s.sample_type.spec_width();
    &&& s.words@.len() * w + 45 <= u32::MAX
    &&& s.num_channels * w <= u16::MAX
    &&& sample_rate * (s.num_channels * w) <= u32::MAX
}

/// Why a signal cannot be written, if it cannot.
pub open spec fn encode_error(s: &Signal, sample_rate: u32) -> Option<WavError> {
    if s.num_channels == 0 {
        Some(WavError::ShapeMismatch)
    } else if s.words@.len() % (s.num_channels as nat) != 0 {
        Some(WavError::IncompleteFrame)
    } else if !words_fit(s.words@, s.sample_type.spec_width()) {
        Some(WavError::UnsupportedEncoding)
    } else if sample_rate == 0 {
        Some(WavError::MalformedHeader)
    } else {
        None
    }
}

fn push_id(v: &mut Vec<u8>, c0: u8, c1: u8, c2: u8, c3: u8)
    ensures
        final(v)@ == old(v)@ + seq![c0, c1, c2, c3],
{
    v.push(c0);
    v.push(c1);
    v.push(c2);
    v.push(c3);
    assert(v@ =~= old(v)@ + seq![c0, c1, c2, c3]);
}

/// Appends each word in `w` little-endian bytes.
pub fn push_words(v: &mut Vec<u8>, ws: &Vec<u64>, w: usize)
    requires
        w <= 8,
    ensures
        final(v)@ == old(v)@ + words_bytes(ws@, w as nat),
{
    let mut j: usize = 0;
    assert(old(v)@ + words_bytes(ws@.subrange(0, 0), w as nat) =~= old(v)@);
    while j < ws.len()
        invariant
            w <= 8,
            j <= ws@.len(),
            v@ == old(v)@ + words_bytes(ws@.subrange(0, j as int), w as nat),
        decreases ws@.len() - j,
    {
        let ghost before = words_bytes(ws@.subrange(0, j as int), w as nat);
        push_le(v, ws[j], w);
        proof {
            let next = ws@.subrange(0, j + 1);
            assert(next.drop_last() =~= ws@.subrange(0, j as int));
            assert(words_bytes(next, w as nat) == before + le_bytes(ws@[j as int] as nat, w as nat));
            assert(v@ =~= old(v)@ + words_bytes(next, w as nat));
        }
        j = j + 1;
    }
    assert(ws@.subrange(0, ws@.len() as int) =~= ws@);
}

/// Assembles the complete file for a signal: its sample type, shape and words are
/// written exactly as they are, with no conversion.
pub fn encode(s: &Signal, sample_rate: u32) -> (r: Result<Vec<u8>, WavError>)
    requires
        fits_format(s, sample_rate),
    ensures
        match encode_error(s, sample_rate) {
            Some(e) => r == Err::<Vec<u8>, WavError>(e),
            None => r is Ok && r->Ok_0@ == wav_bytes(
                s.sample_type,
                s.num_channels as nat,
                sample_rate as nat,
                s.words@,
            ),
        },
{
    if s.num_channels == 0 {
        return Err(WavError::ShapeMismatch);
    }
    if s.words.len() % s.num_channels as usize != 0 {
        return Err(WavError::IncompleteFrame);
    }
    let w = s.sample_type.width();
    let limit: u64 = if w == 2 {
        0x1_0000
    } else if w == 3 {
        0x100_0000
    } else if w == 4 {
        0x1_0000_0000
    } else {
        u64::MAX
    };
    let mut i: usize = 0;
    proof {
        lemma_pow256_values();
    }
    while i < s.words.len()
        invariant
            i <= s.words@.len(),
            s.num_channels > 0,
            s.words@.len() % (s.num_channels as nat) == 0,
            w == s.sample_type.spec_width(),
            w < 8 ==> limit == pow256(w as nat),
            w == 8 ==> limit == u64::MAX,
            pow256(8) == 0x1_0000_0000_0000_0000,
            forall|k: int| 0 <= k < i ==> (#[trigger] s.words@[k]) < pow256(w as nat),
        decreases s.words@.len() - i,
    {
        if w < 8 && s.words[i] >= limit {
            proof {
                assert(s.words@[i as int] >= pow256(w as nat));
                assert(!words_fit(s.words@, w as nat));
            }
            return Err(WavError::UnsupportedEncoding);
        }
        i = i + 1;
    }
    if sample_rate == 0 {
        return Err(WavError::MalformedHeader);
    }
    let data: u32 = (s.words.len() * w) as u32;
    let pad: u32 = data % 2;
    let align: u16 = (s.num_channels as usize * w) as u16;
    let mut v: Vec<u8> = Vec::new();
    push_id(&mut v, 0x52, 0x49, 0x46, 0x46);
    push_le(&mut v, (36 + data + pad) as u64, 4);
    push_id(&mut v, 0x57, 0x41, 0x56, 0x45);
    push_id(&mut v, 0x66, 0x6d, 0x74, 0x20);
    push_le(&mut v, 16, 4);
    push_le(&mut v, s.sample_type.tag() as u64, 2);
    push_le(&mut v, s.num_channels as u64, 2);
    push_le(&mut v, sample_rate as u64, 4);
    push_le(&mut v, (sample_rate * align as u32) as u64, 4);
    push_le(&mut v, align as u64, 2);
    push_le(&mut v, s.sample_type.bits() as u64, 2);
    push_id(&mut v, 0x64, 0x61, 0x74, 0x61);
    push_le(&mut v, data as u64, 4);
    push_words(&mut v, &s.words, w);
    let ghost before = v@;
    if pad == 1 {
        v.push(0);
    }
    assert(v@ =~= before + pad_bytes(data as nat));
    Ok(v)
}

} // verus!
