use pywavers::{
    convert_int, decode, encode, int_to_word, parse_header, wav_spec, word_to_int, SampleType,
    Signal, WavError, WavSpec,
};

fn le16(v: &mut Vec<u8>, x: u16) {
    v.extend_from_slice(&x.to_le_bytes());
}

fn le32(v: &mut Vec<u8>, x: u32) {
    v.extend_from_slice(&x.to_le_bytes());
}

/// A file with a classic `fmt ` chunk, optional chunks before it, and a `data` chunk
/// declaring `data_size` bytes of which `payload` is present.
fn craft(tag: u16, channels: u16, rate: u32, align: u16, bits: u16, data_size: u32, payload: &[u8]) -> Vec<u8> {
    let mut v = Vec::new();
    v.extend_from_slice(b"RIFF");
    le32(&mut v, 36 + data_size);
    v.extend_from_slice(b"WAVE");
    v.extend_from_slice(b"fmt ");
    le32(&mut v, 16);
    le16(&mut v, tag);
    le16(&mut v, channels);
    le32(&mut v, rate);
    le32(&mut v, rate * align as u32);
    le16(&mut v, align);
    le16(&mut v, bits);
    v.extend_from_slice(b"data");
    le32(&mut v, data_size);
    v.extend_from_slice(payload);
    v
}

fn stereo_i16() -> Vec<i32> {
    let mut out = Vec::new();
    for i in 0..8 {
        out.push(i * 100);
        out.push(-i * 100);
    }
    out
}

#[test]
fn stereo_i16_scenario_round_trip() {
    let values = stereo_i16();
    let sig = Signal::from_ints(SampleType::Int16, 2, &values).unwrap();
    assert_eq!(sig.num_frames(), 8);
    let bytes = encode(&sig, 44100).unwrap();
    let (back, rate) = decode(&bytes).unwrap();
    assert_eq!(rate, 44100);
    assert_eq!(back.sample_type, SampleType::Int16);
    assert_eq!(back.num_channels, 2);
    assert_eq!(back.num_frames(), 8);
    assert_eq!(back.ints_as(SampleType::Int16).unwrap(), values);
    assert_eq!(back.word(1, 0), 100);
    assert_eq!(back.word(1, 1), (-100i16) as u16 as u64);
    let spec = wav_spec(&bytes).unwrap();
    assert_eq!(
        spec,
        WavSpec { sample_rate: 44100, num_channels: 2, duration: 8, encoding: SampleType::Int16 }
    );
}

#[test]
fn exact_bytes_of_a_one_sample_file() {
    let sig = Signal::from_ints(SampleType::Int16, 1, &[0x1234]).unwrap();
    let bytes = encode(&sig, 8000).unwrap();
    let mut expected = craft(1, 1, 8000, 2, 16, 2, &[0x34, 0x12]);
    expected[4..8].copy_from_slice(&38u32.to_le_bytes());
    assert_eq!(bytes, expected);
    assert_eq!(bytes.len(), 46);
}

#[test]
fn round_trip_every_type() {
    let cases: Vec<(SampleType, Vec<u64>)> = vec![
        (SampleType::Int16, vec![0, 1, 0x7FFF, 0x8000, 0xFFFF, 42]),
        (SampleType::Int24, vec![0, 0x7F_FFFF, 0x80_0000, 0xFF_FFFF, 7, 9]),
        (SampleType::Int32, vec![0, 0x7FFF_FFFF, 0x8000_0000, 0xFFFF_FFFF, 3, 4]),
        (SampleType::Float32, vec![0.5f32.to_bits() as u64, (-1.0f32).to_bits() as u64, 0, 1, 2, 3]),
        (SampleType::Float64, vec![0.25f64.to_bits(), (-0.75f64).to_bits(), 0, u64::MAX, 5, 6]),
    ];
    for (t, words) in cases {
        for channels in [1u16, 2, 3] {
            let sig = Signal { sample_type: t, num_channels: channels, words: words.clone() };
            let bytes = encode(&sig, 48000).unwrap();
            let (back, rate) = decode(&bytes).unwrap();
            assert_eq!(rate, 48000);
            assert_eq!(back.sample_type, t);
            assert_eq!(back.num_channels, channels);
            assert_eq!(back.words, words);
            let spec = wav_spec(&bytes).unwrap();
            assert_eq!(spec.duration as usize, words.len() / channels as usize);
            assert_eq!(spec.num_channels, channels);
            assert_eq!(spec.sample_rate, 48000);
            assert_eq!(spec.encoding, t);
        }
    }
}

#[test]
fn odd_data_chunk_gets_one_pad_byte() {
    let sig = Signal::from_ints(SampleType::Int24, 1, &[1, -1, 0x12_3456]).unwrap();
    let bytes = encode(&sig, 22050).unwrap();
    assert_eq!(bytes.len(), 44 + 9 + 1);
    assert_eq!(bytes[53], 0);
    assert_eq!(u32::from_le_bytes([bytes[4], bytes[5], bytes[6], bytes[7]]), 46);
    assert_eq!(u32::from_le_bytes([bytes[40], bytes[41], bytes[42], bytes[43]]), 9);
    let (back, _) = decode(&bytes).unwrap();
    assert_eq!(back.words.len(), 3);
    assert_eq!(back.ints_as(SampleType::Int24).unwrap(), vec![1, -1, 0x12_3456]);
}

#[test]
fn metadata_reads_header_only() {
    let bytes = craft(1, 2, 44100, 4, 16, 0xFFFF_FFF0, &[]);
    let spec = wav_spec(&bytes).unwrap();
    assert_eq!(spec.duration, 0xFFFF_FFF0 / 4);
    assert_eq!(spec.num_channels, 2);
    assert_eq!(spec.sample_rate, 44100);
    assert!(matches!(decode(&bytes), Err(WavError::MalformedHeader)));
}

#[test]
fn rifx_is_malformed() {
    let mut bytes = craft(1, 1, 8000, 2, 16, 2, &[0, 0]);
    bytes[3] = b'X';
    assert_eq!(wav_spec(&bytes), Err(WavError::MalformedHeader));
    assert!(matches!(decode(&bytes), Err(WavError::MalformedHeader)));
}

#[test]
fn twenty_bit_samples_are_unsupported() {
    let bytes = craft(1, 1, 8000, 3, 20, 3, &[0, 0, 0]);
    assert_eq!(wav_spec(&bytes), Err(WavError::UnsupportedEncoding));
    assert!(matches!(decode(&bytes), Err(WavError::UnsupportedEncoding)));
    let alaw = craft(6, 1, 8000, 1, 8, 1, &[0]);
    assert_eq!(wav_spec(&alaw), Err(WavError::UnsupportedEncoding));
}

#[test]
fn inconsistent_sizes_are_malformed() {
    let bad_align = craft(1, 2, 8000, 2, 16, 4, &[0, 0, 0, 0]);
    assert_eq!(wav_spec(&bad_align), Err(WavError::MalformedHeader));
    let partial_frame = craft(1, 2, 8000, 4, 16, 6, &[0, 0, 0, 0, 0, 0]);
    assert_eq!(wav_spec(&partial_frame), Err(WavError::MalformedHeader));
    let no_channels = craft(1, 0, 8000, 0, 16, 0, &[]);
    assert_eq!(wav_spec(&no_channels), Err(WavError::MalformedHeader));
    let short = b"RIFF\x04\x00\x00\x00WAVE".to_vec();
    assert_eq!(wav_spec(&short), Err(WavError::MalformedHeader));
    let mut no_data = craft(1, 1, 8000, 2, 16, 0, &[]);
    no_data.truncate(36);
    assert_eq!(wav_spec(&no_data), Err(WavError::MalformedHeader));
}

#[test]
fn ancillary_chunks_are_skipped() {
    let mut v = Vec::new();
    v.extend_from_slice(b"RIFF");
    le32(&mut v, 0);
    v.extend_from_slice(b"WAVE");
    v.extend_from_slice(b"LIST");
    le32(&mut v, 3);
    v.extend_from_slice(&[1, 2, 3, 0]);
    let full = craft(1, 1, 16000, 2, 16, 4, &[0x01, 0x00, 0xFF, 0xFF]);
    v.extend_from_slice(&full[12..]);
    let (sig, rate) = decode(&v).unwrap();
    assert_eq!(rate, 16000);
    assert_eq!(sig.ints_as(SampleType::Int16).unwrap(), vec![1, -1]);
    let h = parse_header(&v).unwrap();
    assert_eq!(h.data_offset, 12 + 12 + 24 + 8);
}

#[test]
fn extensible_format_uses_sub_format() {
    let mut v = Vec::new();
    v.extend_from_slice(b"RIFF");
    le32(&mut v, 0);
    v.extend_from_slice(b"WAVE");
    v.extend_from_slice(b"fmt ");
    le32(&mut v, 40);
    le16(&mut v, 0xFFFE);
    le16(&mut v, 1);
    le32(&mut v, 44100);
    le32(&mut v, 44100 * 4);
    le16(&mut v, 4);
    le16(&mut v, 32);
    le16(&mut v, 22);
    le16(&mut v, 32);
    le32(&mut v, 4);
    le16(&mut v, 3);
    v.extend_from_slice(&[0, 0, 0, 0, 0x10, 0, 0x80, 0, 0, 0xAA, 0, 0x38, 0x9B, 0x71]);
    v.extend_from_slice(b"data");
    le32(&mut v, 4);
    v.extend_from_slice(&0.5f32.to_le_bytes());
    let spec = wav_spec(&v).unwrap();
    assert_eq!(spec.encoding, SampleType::Float32);
    let (sig, _) = decode(&v).unwrap();
    assert_eq!(f32::from_bits(sig.words[0] as u32), 0.5);
    assert_eq!(sig.ints_as(SampleType::Int16), None);
}

#[test]
fn encode_errors() {
    let zero = Signal { sample_type: SampleType::Int16, num_channels: 0, words: vec![] };
    assert_eq!(encode(&zero, 8000), Err(WavError::ShapeMismatch));
    let ragged = Signal { sample_type: SampleType::Int16, num_channels: 2, words: vec![1, 2, 3] };
    assert_eq!(encode(&ragged, 8000), Err(WavError::IncompleteFrame));
    let wide = Signal { sample_type: SampleType::Int16, num_channels: 1, words: vec![0x1_0000] };
    assert_eq!(encode(&wide, 8000), Err(WavError::UnsupportedEncoding));
    let fine = Signal { sample_type: SampleType::Int16, num_channels: 1, words: vec![1] };
    assert_eq!(encode(&fine, 0), Err(WavError::MalformedHeader));
}

#[test]
fn from_ints_errors() {
    assert_eq!(Signal::from_ints(SampleType::Float32, 1, &[0]).unwrap_err(), WavError::UnsupportedEncoding);
    assert_eq!(Signal::from_ints(SampleType::Int16, 0, &[0]).unwrap_err(), WavError::ShapeMismatch);
    assert_eq!(Signal::from_ints(SampleType::Int16, 2, &[0]).unwrap_err(), WavError::IncompleteFrame);
    assert_eq!(Signal::from_ints(SampleType::Int16, 1, &[40000]).unwrap_err(), WavError::UnsupportedEncoding);
    assert_eq!(Signal::from_ints(SampleType::Int24, 1, &[-8_388_609]).unwrap_err(), WavError::UnsupportedEncoding);
    let ok = Signal::from_ints(SampleType::Int24, 1, &[-8_388_608]).unwrap();
    assert_eq!(ok.words, vec![0x80_0000]);
}

#[test]
fn integer_conversion_table() {
    assert_eq!(convert_int(1, SampleType::Int16, SampleType::Int32), 65536);
    assert_eq!(convert_int(-32768, SampleType::Int16, SampleType::Int24), -8_388_608);
    assert_eq!(convert_int(300, SampleType::Int24, SampleType::Int16), 1);
    assert_eq!(convert_int(-300, SampleType::Int24, SampleType::Int16), -1);
    assert_eq!(convert_int(-3, SampleType::Int24, SampleType::Int16), 0);
    assert_eq!(convert_int(i32::MIN, SampleType::Int32, SampleType::Int16), -32768);
    assert_eq!(convert_int(i32::MAX, SampleType::Int32, SampleType::Int24), 0x7F_FFFF);
    assert_eq!(convert_int(1234, SampleType::Int16, SampleType::Int16), 1234);
}

#[test]
fn narrowing_a_signal_on_read() {
    let sig = Signal::from_ints(SampleType::Int32, 1, &[0x0001_0000, -0x0001_8000, 65535]).unwrap();
    let bytes = encode(&sig, 8000).unwrap();
    let (back, _) = decode(&bytes).unwrap();
    assert_eq!(back.ints_as(SampleType::Int16).unwrap(), vec![1, -1, 0]);
    assert_eq!(back.ints_as(SampleType::Float64), None);
}

#[test]
fn signed_words() {
    assert_eq!(word_to_int(0xFFFF, SampleType::Int16), -1);
    assert_eq!(word_to_int(0x80_0000, SampleType::Int24), -8_388_608);
    assert_eq!(word_to_int(0x7FFF_FFFF, SampleType::Int32), i32::MAX);
    assert_eq!(int_to_word(-1, SampleType::Int24), 0xFF_FFFF);
    assert_eq!(int_to_word(i32::MIN, SampleType::Int32), 0x8000_0000);
    assert_eq!(int_to_word(5, SampleType::Int16), 5);
}

#[test]
fn widening_then_narrowing_keeps_the_sample() {
    for v in [-32768, -1, 0, 1, 12345, 32767] {
        let wide = convert_int(v, SampleType::Int16, SampleType::Int32);
        assert_eq!(convert_int(wide, SampleType::Int32, SampleType::Int16), v);
        let mid = convert_int(v, SampleType::Int16, SampleType::Int24);
        assert_eq!(convert_int(mid, SampleType::Int24, SampleType::Int16), v);
    }
    for v in [-8_388_608, -77, 8_388_607] {
        let wide = convert_int(v, SampleType::Int24, SampleType::Int32);
        assert_eq!(convert_int(wide, SampleType::Int32, SampleType::Int24), v);
        assert_eq!(convert_int(v, SampleType::Int24, SampleType::Int24), v);
    }
}
