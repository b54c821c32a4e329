use chime::detect::{container_for_extension, decoding_is_defined, detect_and_decode, Container};
use chime::dsd::dff::scan_dff_header;
use chime::error::FormatFault;
use chime::stream::AudioData;
use chime::{ChimeError, SampleFormat};

fn wav16(data: &[u8]) -> Vec<u8> {
    let mut f = Vec::new();
    f.extend_from_slice(b"RIFF");
    f.extend_from_slice(&0u32.to_le_bytes());
    f.extend_from_slice(b"WAVE");
    f.extend_from_slice(b"fmt ");
    f.extend_from_slice(&16u32.to_le_bytes());
    f.extend_from_slice(&1u16.to_le_bytes());
    f.extend_from_slice(&1u16.to_le_bytes());
    f.extend_from_slice(&8000u32.to_le_bytes());
    f.extend_from_slice(&16000u32.to_le_bytes());
    f.extend_from_slice(&2u16.to_le_bytes());
    f.extend_from_slice(&16u16.to_le_bytes());
    f.extend_from_slice(b"data");
    f.extend_from_slice(&(data.len() as u32).to_le_bytes());
    f.extend_from_slice(data);
    f
}

#[test]
fn extensions_name_containers() {
    assert_eq!(container_for_extension(b"wav"), Container::Wav);
    assert_eq!(container_for_extension(b"aif"), Container::Aiff);
    assert_eq!(container_for_extension(b"aiff"), Container::Aiff);
    assert_eq!(container_for_extension(b"aifc"), Container::Aiff);
    assert_eq!(container_for_extension(b"dsf"), Container::Dsf);
    assert_eq!(container_for_extension(b"dff"), Container::Dff);
    assert_eq!(container_for_extension(b"dsdiff"), Container::Dff);
    assert_eq!(container_for_extension(b"dffd"), Container::Dff);
    assert_eq!(container_for_extension(b"mp3"), Container::Unknown);
    assert_eq!(container_for_extension(b""), Container::Unknown);
    assert_eq!(container_for_extension(b"wave"), Container::Unknown);
}

#[test]
fn unknown_extension_is_probed() {
    let f = wav16(&[1, 2, 3, 4]);
    match detect_and_decode(b"bin", &f).unwrap() {
        AudioData::Pcm(p) => {
            assert_eq!(p.bytes, vec![1u8, 2, 3, 4]);
            assert_eq!(p.format, SampleFormat::I16);
        }
        _ => panic!("expected PCM"),
    }
}

#[test]
fn known_extension_uses_its_decoder() {
    let f = wav16(&[1, 2]);
    assert!(matches!(detect_and_decode(b"wav", &f), Ok(AudioData::Pcm(_))));
    // a WAV file named .dsf goes to the DSF decoder, which refuses it
    assert!(matches!(detect_and_decode(b"dsf", &f), Err(ChimeError::InvalidData(_))));
}

#[test]
fn unrecognised_data_has_no_codec() {
    let junk = vec![0x55u8; 64];
    assert!(matches!(
        detect_and_decode(b"xyz", &junk),
        Err(ChimeError::UnsupportedFormat(FormatFault::NoCodec))
    ));
}

#[test]
fn decoding_is_defined_on_ordinary_files() {
    use_defined(b"wav", &wav16(&[1, 2]), true);
    use_defined(b"bin", &wav16(&[1, 2]), true);
    use_defined(b"bin", &vec![0x55u8; 64], true);
    use_defined(b"aiff", b"FORM", true);
}

#[test]
fn decoding_is_not_defined_where_a_count_of_zero_divides() {
    // a WAV file with no channels, found by probing
    let mut f = wav16(&[1, 2]);
    f[22] = 0;
    use_defined(b"bin", &f, false);
    // the same file named .wav needs no probe
    use_defined(b"wav", &f, true);
}

#[test]
fn decoding_is_not_defined_where_a_dff_chunk_position_overflows() {
    let mut f = Vec::new();
    f.extend_from_slice(b"FRM8");
    f.extend_from_slice(&0u64.to_be_bytes());
    f.extend_from_slice(b"DSD ");
    f.extend_from_slice(b"JUNK");
    f.extend_from_slice(&u64::MAX.to_be_bytes());
    assert!(scan_dff_header(&f).is_none());
    use_defined(b"dff", &f, false);
}

fn use_defined(ext: &[u8], f: &[u8], expected: bool) {
    assert_eq!(decoding_is_defined(ext, f), expected);
}
