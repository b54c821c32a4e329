use chime::error::FormatFault;
use chime::pcm::aiff::{read_aiff_header, swap_sample_bytes};
use chime::pcm::{AiffDecoder, WavDecoder};
use chime::stream::{AudioData, StreamInfo};
use chime::{ChimeError, DataFault, SampleFormat};

fn wav(tag: u16, channels: u16, rate: u32, bits: u16, data: &[u8]) -> Vec<u8> {
    let mut f = Vec::new();
    f.extend_from_slice(b"RIFF");
    f.extend_from_slice(&(36 + data.len() as u32).to_le_bytes());
    f.extend_from_slice(b"WAVE");
    f.extend_from_slice(b"fmt ");
    f.extend_from_slice(&16u32.to_le_bytes());
    f.extend_from_slice(&tag.to_le_bytes());
    f.extend_from_slice(&channels.to_le_bytes());
    f.extend_from_slice(&rate.to_le_bytes());
    f.extend_from_slice(&(rate * channels as u32 * bits as u32 / 8).to_le_bytes());
    f.extend_from_slice(&(channels * bits / 8).to_le_bytes());
    f.extend_from_slice(&bits.to_le_bytes());
    f.extend_from_slice(b"data");
    f.extend_from_slice(&(data.len() as u32).to_le_bytes());
    f.extend_from_slice(data);
    f
}

#[test]
fn wav_decode_gives_data_chunk() {
    let data = [1u8, 2, 3, 4, 5, 6, 7, 8];
    let f = wav(1, 2, 44100, 16, &data);
    let d = WavDecoder::new();
    assert_eq!(d.name(), "WAV");
    match d.decode(&f).unwrap() {
        AudioData::Pcm(p) => {
            assert_eq!(p.bytes, data.to_vec());
            assert_eq!(p.format, SampleFormat::I16);
            assert_eq!(p.channels, 2);
            assert_eq!(p.sample_rate, 44100);
        }
        _ => panic!("expected PCM"),
    }
}

#[test]
fn wav_probe_describes_stream() {
    let f = wav(1, 2, 48000, 24, &[0u8; 12]);
    let info = WavDecoder::new().probe(&f).unwrap();
    assert_eq!(info.format_name, "WAV");
    match info.stream {
        StreamInfo::Pcm(p) => {
            assert_eq!(p.sample_rate, 48000);
            assert_eq!(p.channels, 2);
            assert_eq!(p.sample_format, SampleFormat::I24);
            assert_eq!(p.total_frames, Some(2));
            assert_eq!(p.bits_per_sample, 24);
        }
        _ => panic!("expected PCM"),
    }
}

#[test]
fn wav_formats() {
    let d = WavDecoder::new();
    let fmt = |tag: u16, bits: u16| match d.decode(&wav(tag, 1, 8000, bits, &[0u8; 8])) {
        Ok(AudioData::Pcm(p)) => Some(p.format),
        _ => None,
    };
    assert_eq!(fmt(1, 8), Some(SampleFormat::U8));
    assert_eq!(fmt(1, 32), Some(SampleFormat::I32));
    assert_eq!(fmt(3, 32), Some(SampleFormat::F32));
    assert_eq!(fmt(3, 64), Some(SampleFormat::F64));
    assert_eq!(fmt(0xFFFE, 16), Some(SampleFormat::I16));
    assert_eq!(fmt(0xFFFE, 32), Some(SampleFormat::F32));
    assert!(matches!(
        d.decode(&wav(1, 1, 8000, 12, &[0u8; 8])),
        Err(ChimeError::UnsupportedFormat(FormatFault::WavFormat { tag: 1, bits: 12 }))
    ));
    assert!(matches!(
        d.decode(&wav(0xFFFE, 1, 8000, 20, &[0u8; 8])),
        Err(ChimeError::UnsupportedFormat(FormatFault::WavExtensible(20)))
    ));
}

#[test]
fn wav_errors() {
    let d = WavDecoder::new();
    assert!(matches!(d.probe(b"RIF"), Err(ChimeError::Io)));
    assert!(matches!(d.probe(b"RIFX0000WAVE"), Err(ChimeError::UnsupportedFormat(FormatFault::NotRiff))));
    assert!(matches!(d.decode(b"RIFX0000WAVE"), Err(ChimeError::InvalidData(DataFault::NotRiff))));
    assert!(matches!(d.decode(b"RIFF0000WAVX"), Err(ChimeError::InvalidData(DataFault::NotWave))));
    assert!(matches!(d.decode(b"RIFF0000WAVE"), Err(ChimeError::InvalidData(DataFault::WavMissingChunks))));
    let mut cut = wav(1, 2, 44100, 16, &[0u8; 8]);
    cut.truncate(cut.len() - 1);
    assert!(matches!(d.decode(&cut), Err(ChimeError::Io)));
}

fn aiff(form: &[u8; 4], comm_extra: &[u8], bits: u16, data: &[u8]) -> Vec<u8> {
    let mut f = Vec::new();
    f.extend_from_slice(b"FORM");
    f.extend_from_slice(&0u32.to_be_bytes());
    f.extend_from_slice(form);
    f.extend_from_slice(b"COMM");
    f.extend_from_slice(&(18 + comm_extra.len() as u32).to_be_bytes());
    f.extend_from_slice(&2u16.to_be_bytes());
    f.extend_from_slice(&2u32.to_be_bytes());
    f.extend_from_slice(&bits.to_be_bytes());
    // 44100 Hz as an 80-bit extended float
    f.extend_from_slice(&0x400Eu16.to_be_bytes());
    f.extend_from_slice(&(44100u64 << 48).to_be_bytes());
    f.extend_from_slice(comm_extra);
    f.extend_from_slice(b"SSND");
    f.extend_from_slice(&(8 + data.len() as u32).to_be_bytes());
    f.extend_from_slice(&0u32.to_be_bytes());
    f.extend_from_slice(&0u32.to_be_bytes());
    f.extend_from_slice(data);
    f
}

#[test]
fn aiff_big_endian_samples_are_swapped() {
    let f = aiff(b"AIFF", &[], 16, &[1, 2, 3, 4, 5, 6, 7, 8]);
    let d = AiffDecoder::new();
    assert_eq!(d.name(), "AIFF");
    match d.decode(&f).unwrap() {
        AudioData::Pcm(p) => {
            assert_eq!(p.bytes, vec![2u8, 1, 4, 3, 6, 5, 8, 7]);
            assert_eq!(p.format, SampleFormat::I16);
            assert_eq!(p.channels, 2);
            assert_eq!(p.sample_rate, 44100);
        }
        _ => panic!("expected PCM"),
    }
}

#[test]
fn aifc_samples_stay_as_stored() {
    // compression type, then a padded name whose bytes look like a chunk
    let mut extra = b"sowt".to_vec();
    extra.push(9);
    extra.extend_from_slice(b"SSND\0\0\0\0x");
    let f = aiff(b"AIFC", &extra, 24, &[1, 2, 3, 4, 5, 6]);
    match AiffDecoder::new().decode(&f).unwrap() {
        AudioData::Pcm(p) => {
            assert_eq!(p.bytes, vec![1u8, 2, 3, 4, 5, 6]);
            assert_eq!(p.format, SampleFormat::I24);
        }
        _ => panic!("expected PCM"),
    }
}

#[test]
fn aiff_probe_describes_stream() {
    let f = aiff(b"AIFF", &[], 8, &[0u8; 4]);
    let info = AiffDecoder::new().probe(&f).unwrap();
    assert_eq!(info.format_name, "AIFF");
    match info.stream {
        StreamInfo::Pcm(p) => {
            assert_eq!(p.sample_rate, 44100);
            assert_eq!(p.channels, 2);
            assert_eq!(p.sample_format, SampleFormat::U8);
            assert_eq!(p.total_frames, Some(2));
            assert_eq!(p.bits_per_sample, 8);
        }
        _ => panic!("expected PCM"),
    }
}

#[test]
fn aiff_errors() {
    let d = AiffDecoder::new();
    assert!(matches!(d.probe(b"FOR"), Err(ChimeError::Io)));
    assert!(matches!(d.probe(b"RIFF0000WAVE"), Err(ChimeError::UnsupportedFormat(FormatFault::NotForm))));
    assert!(matches!(d.decode(b"RIFF0000WAVE"), Err(ChimeError::InvalidData(DataFault::NotAiff))));
    assert!(matches!(
        d.decode(b"FORM0000WAVE"),
        Err(ChimeError::InvalidData(DataFault::NotAiffType([0x57, 0x41, 0x56, 0x45])))
    ));
    assert!(matches!(d.decode(b"FORM0000AIFF"), Err(ChimeError::InvalidData(DataFault::AiffMissingChunks))));
    assert!(matches!(
        d.decode(&aiff(b"AIFF", &[], 12, &[0u8; 4])),
        Err(ChimeError::UnsupportedFormat(FormatFault::AiffBits(12)))
    ));
}

#[test]
fn swapping_sample_bytes_twice_gives_them_back() {
    let data = [1u8, 2, 3, 4, 5, 6, 7];
    let once = swap_sample_bytes(&data, 3);
    assert_eq!(once, vec![3u8, 2, 1, 6, 5, 4, 7]);
    assert_eq!(swap_sample_bytes(&once, 3), data.to_vec());
}

#[test]
fn probe_and_decode_agree() {
    let f = wav(3, 1, 96000, 64, &[0u8; 16]);
    let d = WavDecoder::new();
    let info = d.probe(&f).unwrap();
    match (info.stream, d.decode(&f).unwrap()) {
        (StreamInfo::Pcm(i), AudioData::Pcm(p)) => {
            assert_eq!(i.sample_rate, p.sample_rate);
            assert_eq!(i.channels, p.channels);
            assert_eq!(i.sample_format, p.format);
            assert_eq!(p.format, SampleFormat::F64);
        }
        _ => panic!("expected PCM"),
    }
    let g = aiff(b"AIFF", &[], 32, &[0u8; 8]);
    let a = AiffDecoder::new();
    match (a.probe(&g).unwrap().stream, a.decode(&g).unwrap()) {
        (StreamInfo::Pcm(i), AudioData::Pcm(p)) => {
            assert_eq!(i.sample_rate, p.sample_rate);
            assert_eq!(i.channels, p.channels);
            assert_eq!(i.sample_format, p.format);
            assert_eq!(p.format, SampleFormat::I32);
        }
        _ => panic!("expected PCM"),
    }
}

#[test]
fn aiff_sample_rates() {
    let mut f = aiff(b"AIFF", &[], 16, &[0u8; 4]);
    assert_eq!(read_aiff_header(&f).unwrap().sample_rate, 44100);
    // 48000 Hz
    f[28..30].copy_from_slice(&0x400Eu16.to_be_bytes());
    f[30..38].copy_from_slice(&(48000u64 << 48).to_be_bytes());
    assert_eq!(read_aiff_header(&f).unwrap().sample_rate, 48000);
    // 2822400 Hz
    f[28..30].copy_from_slice(&0x4014u16.to_be_bytes());
    f[30..38].copy_from_slice(&(2_822_400u64 << 42).to_be_bytes());
    assert_eq!(read_aiff_header(&f).unwrap().sample_rate, 2_822_400);
    // exponents from 16415 read the top bit of the mantissa, shifted out
    f[28..30].copy_from_slice(&16420u16.to_be_bytes());
    assert_eq!(read_aiff_header(&f).unwrap().sample_rate, 1);
    // exponents from 16446 shift the mantissa right by 16509 - exponent
    f[28..30].copy_from_slice(&16450u16.to_be_bytes());
    f[30..38].copy_from_slice(&(44100u64 << 48).to_be_bytes());
    assert_eq!(read_aiff_header(&f).unwrap().sample_rate, 44100 >> 11);
    f[28..30].copy_from_slice(&16510u16.to_be_bytes());
    assert!(matches!(read_aiff_header(&f), Err(ChimeError::InvalidData(DataFault::AiffSampleRate))));
    // a negative rate
    f[28..30].copy_from_slice(&0xC00Eu16.to_be_bytes());
    assert!(matches!(read_aiff_header(&f), Err(ChimeError::InvalidData(DataFault::AiffSampleRate))));
    // below 1 Hz
    f[28..30].copy_from_slice(&0x3FFEu16.to_be_bytes());
    assert!(matches!(read_aiff_header(&f), Err(ChimeError::InvalidData(DataFault::AiffSampleRate))));
}
