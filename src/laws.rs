//! What holds across the codec's functions: a written file decodes to what was written,
//! its metadata matches the signal, and metadata reads the header alone.
use vstd::prelude::*;
use crate::bytes::{
    le_at, le_bytes, le_val, lemma_le_bytes_len, lemma_le_val_bound, lemma_le_val_of_bytes, lemma_pow256_values,
    pow256,
};
use crate::codec::{
    decoded, fits_format, header_bytes, pad_bytes, wav_bytes, words_bytes, words_fit, words_of,
    Signal,
};
use crate::format::{
    chunks_of, has_riff_magic, header_of, is_data_id, is_fmt_id, resolved_tag, scan, spec_of, type_of, ChunkLocs,
    SampleType, WavError, WavHeader, WavSpec,
};

verus! {

proof fn lemma_words_bytes_len(ws: Seq<u64>, w: nat)
    ensures
        words_bytes(ws, w).len() == ws.len() * w,
    decreases ws.len(),
{
    if ws.len() > 0 {
        lemma_words_bytes_len(ws.drop_last(), w);
        lemma_le_bytes_len(ws.last() as nat, w);
        assert((ws.len() - 1) * w + w == ws.len() * w) by (nonlinear_arith);
    }
}

proof fn lemma_words_bytes_at(ws: Seq<u64>, w: nat, j: int)
    requires
        0 <= j < ws.len(),
    ensures
        j * w + w <= ws.len() * w,
        words_bytes(ws, w).subrange(j * w, j * w + w) == le_bytes(ws[j] as nat, w),
    decreases ws.len(),
{
    let n = ws.len() as int;
    let front = words_bytes(ws.drop_last(), w);
    let last = le_bytes(ws.last() as nat, w);
    lemma_words_bytes_len(ws.drop_last(), w);
    lemma_le_bytes_len(ws.last() as nat, w);
    assert((n - 1) * w + w == n * w) by (nonlinear_arith);
    if j < n - 1 {
        lemma_words_bytes_at(ws.drop_last(), w, j);
        assert(j * w + w <= (n - 1) * w) by (nonlinear_arith)
            requires
                j < n - 1,
        ;
        assert((front + last).subrange(j * w, j * w + w) =~= front.subrange(j * w, j * w + w));
    } else {
        assert((front + last).subrange(j * w, j * w + w) =~= last);
    }
}

/// Reading back the words written for `ws` gives `ws`.
proof fn lemma_words_of_bytes(ws: Seq<u64>, w: nat)
    requires
        w >= 1,
        words_fit(ws, w),
    ensures
        words_of(words_bytes(ws, w), w) == ws,
{
    let b = words_bytes(ws, w);
    lemma_words_bytes_len(ws, w);
    assert((ws.len() * w) / w == ws.len()) by (nonlinear_arith)
        requires
            w >= 1,
    ;
    assert forall|j: int| 0 <= j < ws.len() implies #[trigger] words_of(b, w)[j] == ws[j] by {
        lemma_words_bytes_at(ws, w, j);
        lemma_le_val_of_bytes(ws[j] as nat, w);
    }
    assert(words_of(b, w) =~= ws);
}

/// The sizes of a written file, and the bytes of its `data` chunk.
proof fn lemma_wav_bytes_parts(t: SampleType, c: nat, rate: nat, ws: Seq<u64>)
    ensures
        ({
            let data = ws.len() * t.spec_width();
            let b = wav_bytes(t, c, rate, ws);
            &&& header_bytes(t, c, rate, data).len() == 44
            &&& b.len() == 44 + data + data % 2
            &&& b.subrange(0, 44) == header_bytes(t, c, rate, data)
            &&& b.subrange(44, 44 + data as int) == words_bytes(ws, t.spec_width())
            &&& data % 2 == 1 ==> b[44 + data as int] == 0
        }),
{
    let w = t.spec_width();
    let data = ws.len() * w;
    let h = header_bytes(t, c, rate, data);
    let d = words_bytes(ws, w);
    let p = pad_bytes(data);
    lemma_le_bytes_len(36 + data + data % 2, 4);
    lemma_le_bytes_len(16, 4);
    lemma_le_bytes_len(t.spec_tag(), 2);
    lemma_le_bytes_len(c, 2);
    lemma_le_bytes_len(rate, 4);
    lemma_le_bytes_len(rate * (c * w), 4);
    lemma_le_bytes_len(c * w, 2);
    lemma_le_bytes_len(8 * w, 2);
    lemma_le_bytes_len(data, 4);
    lemma_words_bytes_len(ws, w);
    assert(h.len() == 44);
    assert((h + d + p).subrange(0, 44) =~= h);
    assert((h + d + p).subrange(44, 44 + data as int) =~= d);
}

/// The fields of a written header read back as written, when each fits its size field.
#[verifier::rlimit(100)]
proof fn lemma_header_fields(t: SampleType, c: nat, rate: nat, data: nat, b: Seq<u8>)
    requires
        b.len() >= 44,
        b.subrange(0, 44) == header_bytes(t, c, rate, data),
        36 + data + data % 2 < pow256(4),
        c < pow256(2),
        c * t.spec_width() < pow256(2),
        rate < pow256(4),
        rate * (c * t.spec_width()) < pow256(4),
        data < pow256(4),
    ensures
        is_fmt_id(b, 12),
        !is_data_id(b, 12),
        is_data_id(b, 36),
        le_at(b, 16, 4) == 16,
        le_at(b, 20, 2) == t.spec_tag(),
        le_at(b, 22, 2) == c,
        le_at(b, 24, 4) == rate,
        le_at(b, 28, 4) == rate * (c * t.spec_width()),
        le_at(b, 32, 2) == c * t.spec_width(),
        le_at(b, 34, 2) == 8 * t.spec_width(),
        le_at(b, 40, 4) == data,
        b[0] == 0x52 && b[1] == 0x49 && b[2] == 0x46 && b[3] == 0x46,
        b[8] == 0x57 && b[9] == 0x41 && b[10] == 0x56 && b[11] == 0x45,
{
    let w = t.spec_width();
    let h = header_bytes(t, c, rate, data);
    lemma_pow256_values();
    lemma_le_bytes_len(36 + data + data % 2, 4);
    lemma_le_bytes_len(16, 4);
    lemma_le_bytes_len(t.spec_tag(), 2);
    lemma_le_bytes_len(c, 2);
    lemma_le_bytes_len(rate, 4);
    lemma_le_bytes_len(rate * (c * w), 4);
    lemma_le_bytes_len(c * w, 2);
    lemma_le_bytes_len(8 * w, 2);
    lemma_le_bytes_len(data, 4);
    assert forall|i: int| 0 <= i < 44 implies #[trigger] b[i] == h[i] by {
        assert(b.subrange(0, 44)[i] == b[i]);
    }
    let h5 = seq![0x52u8, 0x49, 0x46, 0x46] + le_bytes(36 + data + data % 2, 4) + seq![
        0x57u8,
        0x41,
        0x56,
        0x45,
    ] + seq![0x66u8, 0x6d, 0x74, 0x20] + le_bytes(16, 4);
    let h6 = h5 + le_bytes(t.spec_tag(), 2);
    assert(h5.len() == 20);
    assert forall|i: int| 0 <= i < 22 implies #[trigger] h[i] == h6[i] by {}
    assert(h6.subrange(16, 20) =~= le_bytes(16, 4));
    assert(h6.subrange(20, 22) =~= le_bytes(t.spec_tag(), 2));
    assert(b.subrange(16, 20) =~= le_bytes(16, 4));
    assert(b.subrange(20, 22) =~= le_bytes(t.spec_tag(), 2));
    assert(b.subrange(22, 24) =~= le_bytes(c, 2));
    assert(b.subrange(24, 28) =~= le_bytes(rate, 4));
    assert(b.subrange(28, 32) =~= le_bytes(rate * (c * w), 4));
    assert(b.subrange(32, 34) =~= le_bytes(c * w, 2));
    assert(b.subrange(34, 36) =~= le_bytes(8 * w, 2));
    assert(b.subrange(40, 44) =~= le_bytes(data, 4));
    lemma_le_val_of_bytes(16, 4);
    lemma_le_val_of_bytes(t.spec_tag(), 2);
    lemma_le_val_of_bytes(c, 2);
    lemma_le_val_of_bytes(rate, 4);
    lemma_le_val_of_bytes(rate * (c * w), 4);
    lemma_le_val_of_bytes(c * w, 2);
    lemma_le_val_of_bytes(8 * w, 2);
    lemma_le_val_of_bytes(data, 4);
}

/// The header that the bytes written for a signal declare.
pub open spec fn written_header(s: Signal, rate: u32) -> WavHeader {
    WavHeader {
        sample_type: s.sample_type,
        num_channels: s.num_channels,
        sample_rate: rate,
        block_align: (s.num_channels * s.sample_type.spec_width()) as u16,
        data_offset: 44,
        data_size: (s.words@.len() * s.sample_type.spec_width()) as u32,
    }
}

/// The header parsed from the bytes written for a signal is the one written.
pub proof fn lemma_written_header(s: Signal, rate: u32)
    requires
        s.wf(),
        rate > 0,
        fits_format(&s, rate),
    ensures
        header_of(wav_bytes(s.sample_type, s.num_channels as nat, rate as nat, s.words@)) == Ok::<
            WavHeader,
            WavError,
        >(written_header(s, rate)),
{
    let t = s.sample_type;
    let w = t.spec_width();
    let c = s.num_channels as nat;
    let ws = s.words@;
    let data = ws.len() * w;
    let b = wav_bytes(t, c, rate as nat, ws);
    lemma_pow256_values();
    lemma_wav_bytes_parts(t, c, rate as nat, ws);
    lemma_header_fields(t, c, rate as nat, data, b);
    assert(scan(b, 36, Some((20nat, 16nat))) == Ok::<ChunkLocs, WavError>(
        ChunkLocs { fmt_offset: 20, fmt_size: 16, data_offset: 44, data_size: data as u32 },
    ));
    assert(scan(b, 12, None) == scan(b, 36, Some((20nat, 16nat))));
    let cl = chunks_of(b).unwrap();
    assert(cl == ChunkLocs { fmt_offset: 20, fmt_size: 16, data_offset: 44, data_size: data as u32 });
    assert(resolved_tag(b, cl) == Some(t.spec_tag()));
    assert(type_of(t.spec_tag(), 8 * w) == Some(t));
    assert(c * w > 0) by (nonlinear_arith)
        requires
            c > 0,
            w > 0,
    ;
    let f = ws.len() / c;
    assert(ws.len() == f * c) by (nonlinear_arith)
        requires
            ws.len() % c == 0,
            f == ws.len() / c,
            c > 0,
    ;
    assert(data == f * (c * w)) by (nonlinear_arith)
        requires
            data == ws.len() * w,
            ws.len() == f * c,
    ;
    assert((f * (c * w)) % (c * w) == 0) by (nonlinear_arith)
        requires
            c * w > 0,
    ;
}

/// Decoding the bytes written for a well-formed signal gives back its sample type,
/// channel count, every sample word, and the sample rate.
pub proof fn lemma_round_trip(s: Signal, rate: u32)
    requires
        s.wf(),
        rate > 0,
        fits_format(&s, rate),
    ensures
        decoded(wav_bytes(s.sample_type, s.num_channels as nat, rate as nat, s.words@)) == Ok::<
            (SampleType, u16, Seq<u64>, u32),
            WavError,
        >((s.sample_type, s.num_channels, s.words@, rate)),
{
    let t = s.sample_type;
    let w = t.spec_width();
    let ws = s.words@;
    let data = ws.len() * w;
    let b = wav_bytes(t, s.num_channels as nat, rate as nat, ws);
    lemma_written_header(s, rate);
    lemma_wav_bytes_parts(t, s.num_channels as nat, rate as nat, ws);
    lemma_words_of_bytes(ws, w);
}

/// The metadata of the bytes written for a well-formed signal gives its sample rate,
/// channel count, number of frames and sample type.
pub proof fn lemma_metadata_round_trip(s: Signal, rate: u32)
    requires
        s.wf(),
        rate > 0,
        fits_format(&s, rate),
    ensures
        spec_of(wav_bytes(s.sample_type, s.num_channels as nat, rate as nat, s.words@)) == Ok::<
            WavSpec,
            WavError,
        >(
            WavSpec {
                sample_rate: rate,
                num_channels: s.num_channels,
                duration: s.spec_num_frames() as u32,
                encoding: s.sample_type,
            },
        ),
{
    let w = s.sample_type.spec_width();
    let c = s.num_channels as nat;
    let n = s.words@.len();
    lemma_written_header(s, rate);
    assert((n * w) / (c * w) == n / c) by (nonlinear_arith)
        requires
            c > 0,
            w > 0,
            n % c == 0,
    {
        let f = n / c;
        assert(n == f * c);
        assert(n * w == f * (c * w));
    }
}

/// A written signal whose data size is odd is followed by exactly one zero pad byte,
/// and decoding yields its samples alone, without that byte.
pub proof fn lemma_odd_data_padded(s: Signal, rate: u32)
    requires
        s.wf(),
        rate > 0,
        fits_format(&s, rate),
        (s.words@.len() * s.sample_type.spec_width()) % 2 == 1,
    ensures
        ({
            let data = s.words@.len() * s.sample_type.spec_width();
            let b = wav_bytes(s.sample_type, s.num_channels as nat, rate as nat, s.words@);
            &&& b.len() == 44 + data + 1
            &&& b[44 + data as int] == 0
            &&& decoded(b) == Ok::<(SampleType, u16, Seq<u64>, u32), WavError>(
                (s.sample_type, s.num_channels, s.words@, rate),
            )
        }),
{
    lemma_wav_bytes_parts(s.sample_type, s.num_channels as nat, rate as nat, s.words@);
    lemma_round_trip(s, rate);
}

/// A chunk walk that succeeds reads nothing at or past the payload of the `data`
/// chunk: it gives the same result on any prefix that keeps the `data` chunk header,
/// and the `fmt ` chunk it finds lies wholly before that header.
proof fn lemma_scan_prefix(b: Seq<u8>, n: nat, pos: nat, fmt: Option<(nat, nat)>)
    requires
        n <= b.len() <= usize::MAX,
        match fmt {
            Some(f) => f.0 + f.1 <= pos,
            None => true,
        },
    ensures
        scan(b, pos, fmt) matches Ok(c) ==> {
            &&& c.data_offset >= pos + 8
            &&& c.fmt_offset + c.fmt_size + 8 <= c.data_offset
            &&& (c.data_offset <= n ==> scan(b.subrange(0, n as int), pos, fmt) == scan(
                b,
                pos,
                fmt,
            ))
        },
    decreases b.len() - pos,
{
    let p = b.subrange(0, n as int);
    if pos + 8 <= b.len() {
        let size = le_at(b, (pos + 4) as int, 4);
        let body = pos + 8;
        let next = body + size + size % 2;
        let fmt2 = if is_fmt_id(b, pos as int) && fmt.is_none() {
            Some((body, size))
        } else {
            fmt
        };
        if !(is_data_id(b, pos as int) && fmt.is_some()) && body + size <= b.len() && next
            <= b.len() {
            lemma_scan_prefix(b, n, next, fmt2);
        }
        lemma_le_val_bound(b.subrange((pos + 4) as int, (pos + 8) as int));
        lemma_pow256_values();
        if let Ok(c) = scan(b, pos, fmt) {
            if c.data_offset <= n {
                assert(p.subrange((pos + 4) as int, (pos + 8) as int) =~= b.subrange((pos + 4) as int, (pos + 8) as int));
                assert(is_data_id(p, pos as int) == is_data_id(b, pos as int));
                assert(is_fmt_id(p, pos as int) == is_fmt_id(b, pos as int));
            }
        }
    }
}

/// Metadata reads the header alone: a file and any prefix of it that keeps the whole
/// `data` chunk header give the same metadata, however much of the payload is missing.
pub proof fn lemma_metadata_header_only(b: Seq<u8>, n: nat)
    requires
        b.len() <= usize::MAX,
        chunks_of(b) is Ok,
        chunks_of(b)->Ok_0.data_offset <= n <= b.len(),
    ensures
        spec_of(b.subrange(0, n as int)) == spec_of(b),
{
    let p = b.subrange(0, n as int);
    lemma_scan_prefix(b, n, 12, None);
    let c = chunks_of(b)->Ok_0;
    assert(has_riff_magic(p) == has_riff_magic(b));
    assert(chunks_of(p) == chunks_of(b));
    let f = c.fmt_offset as int;
    if c.fmt_size >= 16 {
        assert(p.subrange(f, f + 2) =~= b.subrange(f, f + 2));
        assert(p.subrange(f + 2, f + 4) =~= b.subrange(f + 2, f + 4));
        assert(p.subrange(f + 4, f + 8) =~= b.subrange(f + 4, f + 8));
        assert(p.subrange(f + 12, f + 14) =~= b.subrange(f + 12, f + 14));
        assert(p.subrange(f + 14, f + 16) =~= b.subrange(f + 14, f + 16));
        if c.fmt_size >= 40 {
            assert(p.subrange(f + 24, f + 26) =~= b.subrange(f + 24, f + 26));
        }
        assert(resolved_tag(p, c) == resolved_tag(b, c));
    }
    assert(header_of(p) == header_of(b));
}

} // verus!
