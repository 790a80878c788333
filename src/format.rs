//! The RIFF/WAVE header: chunk scanning and resolution of the `fmt ` chunk.
use vstd::prelude::*;
use crate::bytes::{le_at, lemma_le_val_bound, lemma_pow256_values, read_le};

verus! {

/// The five sample encodings a file can hold.
#[derive(Clone, Copy, Debug, PartialEq, Eq, Structural)]
pub enum SampleType {
    Int16,
    Int24,
    Int32,
    Float32,
    Float64,
}

/// What can go wrong while reading or writing a WAV file.
#[derive(Clone, Copy, Debug, PartialEq, Eq, Structural)]
pub enum WavError {
    /// The file could not be read or written.
    IoFailure,
    /// Missing or invalid RIFF, `fmt ` or `data` chunk, or inconsistent sizes.
    MalformedHeader,
    /// An encoding or bit depth outside the five supported sample types.
    UnsupportedEncoding,
    /// The number of samples is not a multiple of the channel count.
    IncompleteFrame,
    /// The buffer cannot be shaped as frames of the given channel count.
    ShapeMismatch,
}

/// Format tag of integer PCM.
pub const FORMAT_PCM: u16 = 0x0001;

/// Format tag of IEEE floating point.
pub const FORMAT_FLOAT: u16 = 0x0003;

/// Format tag of the extensible layout, whose true tag sits in the sub-format GUID.
pub const FORMAT_EXTENSIBLE: u16 = 0xFFFE;

impl SampleType {
    /// Bytes per sample.
    pub open spec fn spec_width(self) -> nat {
        match self {
            SampleType::Int16 => 2,
            SampleType::Int24 => 3,
            SampleType::Int32 => 4,
            SampleType::Float32 => 4,
            SampleType::Float64 => 8,
        }
    }

    pub open spec fn spec_is_int(self) -> bool {
        match self {
            SampleType::Int16 | SampleType::Int24 | SampleType::Int32 => true,
            _ => false,
        }
    }

    /// The `fmt ` format tag that a classic header writes for this type.
    pub open spec fn spec_tag(self) -> nat {
        if self.spec_is_int() {
            FORMAT_PCM as nat
        } else {
            FORMAT_FLOAT as nat
        }
    }

    /// Bytes per sample.
    pub fn width(&self) -> (r: usize)
        ensures
            r as nat == self.spec_width(),
            2 <= r <= 8,
    {
        match self {
            SampleType::Int16 => 2,
            SampleType::Int24 => 3,
            SampleType::Int32 => 4,
            SampleType::Float32 => 4,
            SampleType::Float64 => 8,
        }
    }

    /// Bits per sample.
    pub fn bits(&self) -> (r: u16)
        ensures
            r as nat == 8 * self.spec_width(),
    {
        match self {
            SampleType::Int16 => 16,
            SampleType::Int24 => 24,
            SampleType::Int32 => 32,
            SampleType::Float32 => 32,
            SampleType::Float64 => 64,
        }
    }

    /// Whether this is one of the integer PCM types.
    pub fn is_int(&self) -> (r: bool)
        ensures
            r == self.spec_is_int(),
    {
        match self {
            SampleType::Int16 | SampleType::Int24 | SampleType::Int32 => true,
            _ => false,
        }
    }

    /// The format tag written for this type.
    pub fn tag(&self) -> (r: u16)
        ensures
            r as nat == self.spec_tag(),
    {
        if self.is_int() {
            FORMAT_PCM
        } else {
            FORMAT_FLOAT
        }
    }
}

/// The sample type that a resolved format tag and bit depth denote, if any.
pub open spec fn type_of(tag: nat, bits: nat) -> Option<SampleType> {
    if tag == FORMAT_PCM as nat && bits == 16 {
        Some(SampleType::Int16)
    } else if tag == FORMAT_PCM as nat && bits == 24 {
        Some(SampleType::Int24)
    } else if tag == FORMAT_PCM as nat && bits == 32 {
        Some(SampleType::Int32)
    } else if tag == FORMAT_FLOAT as nat && bits == 32 {
        Some(SampleType::Float32)
    } else if tag == FORMAT_FLOAT as nat && bits == 64 {
        Some(SampleType::Float64)
    } else {
        None
    }
}

/// Resolves a format tag and a bit depth to a sample type.
pub fn resolve_type(tag: u16, bits: u16) -> (r: Option<SampleType>)
    ensures
        r == type_of(tag as nat, bits as nat),
{
    if tag == FORMAT_PCM && bits == 16 {
        Some(SampleType::Int16)
    } else if tag == FORMAT_PCM && bits == 24 {
        Some(SampleType::Int24)
    } else if tag == FORMAT_PCM && bits == 32 {
        Some(SampleType::Int32)
    } else if tag == FORMAT_FLOAT && bits == 32 {
        Some(SampleType::Float32)
    } else if tag == FORMAT_FLOAT && bits == 64 {
        Some(SampleType::Float64)
    } else {
        None
    }
}

/// The canonical description of a file: its encoding, shape and where its samples are.
#[derive(Clone, Copy, Debug, PartialEq, Eq, Structural)]
pub struct WavHeader {
    pub sample_type: SampleType,
    pub num_channels: u16,
    pub sample_rate: u32,
    /// Bytes per frame: `num_channels` times the sample width.
    pub block_align: u16,
    /// Where the payload of the `data` chunk starts.
    pub data_offset: usize,
    /// Bytes in the `data` chunk, not counting a pad byte.
    pub data_size: u32,
}

/// Where the `fmt ` and `data` chunks were found.
#[derive(Clone, Copy, Debug, PartialEq, Eq, Structural)]
pub struct ChunkLocs {
    pub fmt_offset: usize,
    pub fmt_size: u32,
    pub data_offset: usize,
    pub data_size: u32,
}

/// Whether the four bytes at `i` are `c0 c1 c2 c3`.
pub open spec fn id_at(b: Seq<u8>, i: int, c0: u8, c1: u8, c2: u8, c3: u8) -> bool {
    b[i] == c0 && b[i + 1] == c1 && b[i + 2] == c2 && b[i + 3] == c3
}

pub open spec fn is_fmt_id(b: Seq<u8>, i: int) -> bool {
    id_at(b, i, 0x66, 0x6d, 0x74, 0x20)
}

pub open spec fn is_data_id(b: Seq<u8>, i: int) -> bool {
    id_at(b, i, 0x64, 0x61, 0x74, 0x61)
}

/// Whether `b` opens with `RIFF <size> WAVE`.
pub open spec fn has_riff_magic(b: Seq<u8>) -> bool {
    b.len() >= 12 && id_at(b, 0, 0x52, 0x49, 0x46, 0x46) && id_at(b, 8, 0x57, 0x41, 0x56, 0x45)
}

/// Walks the chunks from `pos`, with `fmt` the `fmt ` chunk found so far (body offset, size).
/// The walk ends at the first `data` chunk after a `fmt ` chunk, whose payload it never reads.
/// Any other chunk is skipped by its size, plus one pad byte when the size is odd.
pub open spec fn scan(b: Seq<u8>, pos: nat, fmt: Option<(nat, nat)>) -> Result<ChunkLocs, WavError>
    decreases b.len() - pos,
{
    if pos + 8 > b.len() {
        Err(WavError::MalformedHeader)
    } else {
        let size = le_at(b, (pos + 4) as int, 4);
        let body = pos + 8;
        if is_data_id(b, pos as int) && fmt.is_some() {
            Ok(
                ChunkLocs {
                    fmt_offset: fmt.unwrap().0 as usize,
                    fmt_size: fmt.unwrap().1 as u32,
                    data_offset: body as usize,
                    data_size: size as u32,
                },
            )
        } else if body + size > b.len() {
            Err(WavError::MalformedHeader)
        } else {
            let next = body + size + size % 2;
            let fmt2 = if is_fmt_id(b, pos as int) && fmt.is_none() {
                Some((body, size))
            } else {
                fmt
            };
            if next > b.len() {
                Err(WavError::MalformedHeader)
            } else {
                scan(b, next, fmt2)
            }
        }
    }
}

/// The chunk walk of a whole file, after its RIFF/WAVE magic.
pub open spec fn chunks_of(b: Seq<u8>) -> Result<ChunkLocs, WavError> {
    if !has_riff_magic(b) {
        Err(WavError::MalformedHeader)
    } else {
        scan(b, 12, None)
    }
}

fn id_matches(b: &[u8], i: usize, c0: u8, c1: u8, c2: u8, c3: u8) -> (r: bool)
    requires
        i + 4 <= b@.len(),
    ensures
        r == id_at(b@, i as int, c0, c1, c2, c3),
{
    b[i] == c0 && b[i + 1] == c1 && b[i + 2] == c2 && b[i + 3] == c3
}

/// Locates the `fmt ` and `data` chunks of a file.
pub fn scan_chunks(b: &[u8]) -> (r: Result<ChunkLocs, WavError>)
    ensures
        r == chunks_of(b@),
{
    let len = b.len();
    if len < 12 || !id_matches(b, 0, 0x52, 0x49, 0x46, 0x46) || !id_matches(
        b,
        8,
        0x57,
        0x41,
        0x56,
        0x45,
    ) {
        return Err(WavError::MalformedHeader);
    }
    let mut pos: usize = 12;
    let mut fmt: Option<(usize, u32)> = None;
    let ghost fmt_spec: Option<(nat, nat)> = None;
    while pos <= len - 8
        invariant
            len == b@.len(),
            12 <= pos <= len,
            has_riff_magic(b@),
            fmt_spec == (match fmt {
                Some(f) => Some((f.0 as nat, f.1 as nat)),
                None => None::<(nat, nat)>,
            }),
            match fmt {
                Some(f) => f.0 <= len,
                None => true,
            },
            chunks_of(b@) == scan(b@, pos as nat, fmt_spec),
        decreases len - pos,
    {
        let word = read_le(b, pos + 4, 4);
        proof {
            lemma_le_val_bound(b@.subrange(pos + 4, pos + 8));
            lemma_pow256_values();
        }
        let size = word as u32;
        let body = pos + 8;
        if id_matches(b, pos, 0x64, 0x61, 0x74, 0x61) && fmt.is_some() {
            let f = fmt.unwrap();
            return Ok(
                ChunkLocs { fmt_offset: f.0, fmt_size: f.1, data_offset: body, data_size: size },
            );
        }
        if size as u64 > (len - body) as u64 {
            return Err(WavError::MalformedHeader);
        }
        let end = body + size as usize;
        if fmt.is_none() && id_matches(b, pos, 0x66, 0x6d, 0x74, 0x20) {
            fmt = Some((body, size));
            proof {
                fmt_spec = Some((body as nat, size as nat));
            }
        }
        if size % 2 == 1 {
            if end == len {
                return Err(WavError::MalformedHeader);
            }
            pos = end + 1;
        } else {
            pos = end;
        }
    }
    Err(WavError::MalformedHeader)
}

/// The format tag that decides the encoding: the top-level tag, or for the extensible
/// layout the first two bytes of its sub-format GUID. `None` when an extensible `fmt `
/// chunk is too short to hold that GUID.
pub open spec fn resolved_tag(b: Seq<u8>, c: ChunkLocs) -> Option<nat> {
    let tag = le_at(b, c.fmt_offset as int, 2);
    if tag == FORMAT_EXTENSIBLE as nat {
        if c.fmt_size < 40 {
            None
        } else {
            Some(le_at(b, c.fmt_offset + 24, 2))
        }
    } else {
        Some(tag)
    }
}

/// The header of the file `b`, or why it has none.
pub open spec fn header_of(b: Seq<u8>) -> Result<WavHeader, WavError> {
    match chunks_of(b) {
        Err(e) => Err(e),
        Ok(c) => {
            let f = c.fmt_offset as int;
            let bits = le_at(b, f + 14, 2);
            let channels = le_at(b, f + 2, 2);
            let rate = le_at(b, f + 4, 4);
            let align = le_at(b, f + 12, 2);
            if c.fmt_size < 16 || resolved_tag(b, c).is_none() {
                Err(WavError::MalformedHeader)
            } else if type_of(resolved_tag(b, c).unwrap(), bits).is_none() {
                Err(WavError::UnsupportedEncoding)
            } else if channels == 0 || rate == 0 || align != channels
                * type_of(resolved_tag(b, c).unwrap(), bits).unwrap().spec_width() || (c.data_size as nat)
                % align != 0 {
                Err(WavError::MalformedHeader)
            } else {
                Ok(
                    WavHeader {
                        sample_type: type_of(resolved_tag(b, c).unwrap(), bits).unwrap(),
                        num_channels: channels as u16,
                        sample_rate: rate as u32,
                        block_align: align as u16,
                        data_offset: c.data_offset,
                        data_size: c.data_size,
                    },
                )
            }
        },
    }
}

fn read_u16(b: &[u8], i: usize) -> (r: u16)
    requires
        i + 2 <= b@.len(),
    ensures
        r as nat == le_at(b@, i as int, 2),
{
    let w = read_le(b, i, 2);
    proof {
        lemma_le_val_bound(b@.subrange(i as int, i + 2));
        lemma_pow256_values();
    }
    w as u16
}

fn read_u32(b: &[u8], i: usize) -> (r: u32)
    requires
        i + 4 <= b@.len(),
    ensures
        r as nat == le_at(b@, i as int, 4),
{
    let w = read_le(b, i, 4);
    proof {
        lemma_le_val_bound(b@.subrange(i as int, i + 4));
        lemma_pow256_values();
    }
    w as u32
}

proof fn lemma_chunks_in_bounds(b: Seq<u8>, pos: nat, fmt: Option<(nat, nat)>)
    requires
        match fmt {
            Some(f) => f.0 + f.1 <= b.len(),
            None => true,
        },
    ensures
        scan(b, pos, fmt) matches Ok(c) ==> c.fmt_offset + c.fmt_size <= b.len() && c.data_offset
            <= b.len(),
    decreases b.len() - pos,
{
    if pos + 8 <= b.len() {
        let size = le_at(b, (pos + 4) as int, 4);
        let body = pos + 8;
        let next = body + size + size % 2;
        if !(is_data_id(b, pos as int) && fmt.is_some()) && body + size <= b.len() && next
            <= b.len() {
            let fmt2 = if is_fmt_id(b, pos as int) && fmt.is_none() {
                Some((body, size))
            } else {
                fmt
            };
            lemma_chunks_in_bounds(b, next, fmt2);
        }
    }
}

/// A parsed header has a positive frame size, made of whole samples.
pub proof fn lemma_header_align(b: Seq<u8>)
    ensures
        header_of(b) matches Ok(h) ==> h.block_align > 0 && h.block_align as nat
            == h.num_channels as nat * h.sample_type.spec_width() && h.data_size as nat
            % h.block_align as nat == 0 && h.num_channels > 0 && h.sample_rate > 0,
{
    if let Ok(h) = header_of(b) {
        let c = chunks_of(b).unwrap();
        lemma_chunks_in_bounds(b, 12, None);
        let f = c.fmt_offset as int;
        let channels = le_at(b, f + 2, 2);
        let align = le_at(b, f + 12, 2);
        let w = h.sample_type.spec_width();
        assert(channels * w > 0) by (nonlinear_arith)
            requires
                channels > 0,
                w > 0,
        ;
        lemma_le_val_bound(b.subrange(f + 2, f + 4));
        lemma_le_val_bound(b.subrange(f + 12, f + 14));
        lemma_le_val_bound(b.subrange(f + 4, f + 8));
        lemma_pow256_values();
    }
}

/// Parses the header of a file: its chunks, then its `fmt ` chunk.
pub fn parse_header(b: &[u8]) -> (r: Result<WavHeader, WavError>)
    ensures
        r == header_of(b@),
{
    let len = b.len();
    let c = match scan_chunks(b) {
        Err(e) => return Err(e),
        Ok(c) => c,
    };
    proof {
        lemma_chunks_in_bounds(b@, 12, None);
    }
    if c.fmt_size < 16 {
        return Err(WavError::MalformedHeader);
    }
    let f = c.fmt_offset;
    let top = read_u16(b, f);
    let tag = if top == FORMAT_EXTENSIBLE {
        if c.fmt_size < 40 {
            return Err(WavError::MalformedHeader);
        }
        read_u16(b, f + 24)
    } else {
        top
    };
    let bits = read_u16(b, f + 14);
    let t = match resolve_type(tag, bits) {
        None => return Err(WavError::UnsupportedEncoding),
        Some(t) => t,
    };
    let channels = read_u16(b, f + 2);
    let rate = read_u32(b, f + 4);
    let align = read_u16(b, f + 12);
    let w = t.width() as u64;
    proof {
        assert(channels as u64 * w <= 0xFFFF * 8) by (nonlinear_arith)
            requires
                w <= 8,
        ;
        assert(channels != 0 ==> channels as u64 * w > 0) by (nonlinear_arith)
            requires
                w >= 2,
        ;
    }
    if channels == 0 || rate == 0 || align as u64 != channels as u64 * w
        || c.data_size % align as u32 != 0 {
        return Err(WavError::MalformedHeader);
    }
    Ok(
        WavHeader {
            sample_type: t,
            num_channels: channels,
            sample_rate: rate,
            block_align: align,
            data_offset: c.data_offset,
            data_size: c.data_size,
        },
    )
}

/// What a file says of itself in its header: no sample is read.
#[derive(Clone, Copy, Debug, PartialEq, Eq, Structural)]
pub struct WavSpec {
    pub sample_rate: u32,
    pub num_channels: u16,
    /// The number of frames.
    pub duration: u32,
    /// The sample type stored on disk.
    pub encoding: SampleType,
}

/// The metadata of the file `b`, or why it has none.
pub open spec fn spec_of(b: Seq<u8>) -> Result<WavSpec, WavError> {
    match header_of(b) {
        Err(e) => Err(e),
        Ok(h) => Ok(
            WavSpec {
                sample_rate: h.sample_rate,
                num_channels: h.num_channels,
                duration: (h.data_size as nat / h.block_align as nat) as u32,
                encoding: h.sample_type,
            },
        ),
    }
}

/// Reads the metadata of a file from its header alone: the payload of the `data`
/// chunk need not be present.
pub fn wav_spec(b: &[u8]) -> (r: Result<WavSpec, WavError>)
    ensures
        r == spec_of(b@),
{
    let h = parse_header(b)?;
    proof {
        lemma_header_align(b@);
    }
    Ok(
        WavSpec {
            sample_rate: h.sample_rate,
            num_channels: h.num_channels,
            duration: h.data_size / h.block_align as u32,
            encoding: h.sample_type,
        },
    )
}

} // verus!
