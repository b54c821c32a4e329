use chime::bytes::ByteCursor;
use chime::dsd::{process_audio_frames, try_process_audio_frames, SacdAudioFrame, SacdFrameType};
use chime::dst::{ArithmeticDecoder, DstDecoder, FirPredictor};
use chime::{ChimeError, DataFault};

#[test]
fn header_of_silent_frame() {
    // frame 1, 2 channels, rate 0, silence set, length 0, no filter sets
    let data = [0x00u8, 0x12, 0x40, 0x00, 0x00];
    let h = DstDecoder::parse_frame_header(&data).unwrap();
    assert_eq!(h.frame_nr, 1);
    assert_eq!(h.num_channels, 2);
    assert_eq!(h.rate, 0);
    assert!(h.is_silence);
    assert_eq!(h.frame_len, 0);
    assert_eq!(h.num_filter_sets, 0);
    assert!(h.filter_sets.is_empty());
    assert!(h.segment_mapping.is_empty());
    assert_eq!(h.segment_data_offset, 5);
}

#[test]
fn header_with_one_filter_set() {
    // frame 0, channel code 1 (mono), one filter set: width 2^15, one
    // segment, one band, step bits 2, coefficient -1
    let bits = "000000000000".to_owned()
        + "0001"
        + "0"
        + "0"
        + "00000000000000"
        + "0001"
        + "1111"
        + "1"
        + "001"
        + "010"
        + "1111111111";
    let mut data = vec![0u8; (bits.len() + 7) / 8];
    for (i, c) in bits.chars().enumerate() {
        if c == '1' {
            data[i / 8] |= 0x80 >> (i % 8);
        }
    }
    let h = DstDecoder::parse_frame_header(&data).unwrap();
    assert_eq!(h.num_channels, 1);
    assert!(!h.is_silence);
    assert_eq!(h.num_filter_sets, 1);
    let fs = &h.filter_sets[0];
    assert_eq!(fs.segment_width_log2, 15);
    assert_eq!(fs.num_segments, 1);
    assert_eq!(fs.num_bands, 1);
    assert_eq!(fs.step_bits, 2);
    assert_eq!(fs.quant_step_size, 2);
    assert_eq!(fs.coefficients, vec![-1i16]);
    assert_eq!(h.segment_mapping, vec![0u8]);
    assert_eq!(h.segment_data_offset, (bits.len() + 7) / 8);
}

#[test]
fn silent_frame_decodes_to_zeros() {
    let d = DstDecoder::new(4, 2);
    let out = d.decode_frame(&[0x00u8, 0x12, 0x40, 0x00, 0x00]).unwrap();
    assert_eq!(out, vec![vec![0u8; 4]; 2]);
}

#[test]
fn decode_frame_errors() {
    let d = DstDecoder::new(4, 3);
    assert!(matches!(d.decode_frame(&[]), Err(ChimeError::InvalidData(DataFault::EmptyDstFrame))));
    assert!(matches!(
        d.decode_frame(&[0x00u8, 0x12, 0x00, 0x00, 0x00]),
        Err(ChimeError::InvalidData(DataFault::ChannelMismatch { header: 2, decoder: 3 }))
    ));
}

#[test]
fn fir_prediction() {
    let p = FirPredictor::new(&[1, 1], 1);
    assert_eq!(p.order(), 2);
    assert_eq!(p.predict(&[10, 20]), 30);
    assert_eq!(FirPredictor::new(&[2], 2).predict(&[100]), 100);
    assert_eq!(FirPredictor::new(&[-1], 1).predict(&[5]), 0);
    assert_eq!(FirPredictor::new(&[2], 1).predict(&[200]), 255);
    assert_eq!(FirPredictor::new(&[4], 0).predict(&[3]), 12);
    let q = FirPredictor::new(&[], 1);
    assert_eq!(q.order(), 0);
    assert_eq!(q.predict(&[1, 2, 3]), 0);
}

#[test]
fn fir_bit_prediction() {
    let p = FirPredictor::new(&[1], 1);
    assert_eq!(p.predict_bits(&[0b1000_0000], 2), vec![0x80u8, 0xC0]);
    assert_eq!(p.predict_bits(&[], 3), vec![0u8, 0, 0]);
}

fn frame_with_one_filter_set(channel_code: &str, segment: &[u8]) -> Vec<u8> {
    // one filter set: width 2^15, one segment, one band, step bits 2,
    // coefficient -1
    let bits = "000000000000".to_owned()
        + channel_code
        + "0"
        + "0"
        + "00000000000000"
        + "0001"
        + "1111"
        + "1"
        + "001"
        + "010"
        + "1111111111";
    let mut data = vec![0u8; (bits.len() + 7) / 8];
    for (i, c) in bits.chars().enumerate() {
        if c == '1' {
            data[i / 8] |= 0x80 >> (i % 8);
        }
    }
    data.extend_from_slice(segment);
    data
}

#[test]
fn first_symbol_after_init() {
    let data = [0u8; 5];
    let mut d = ArithmeticDecoder::new();
    let mut rd = ByteCursor::new(&data);
    assert!(d.init(&mut rd).is_ok());
    assert_eq!(d.decode_symbol(&mut rd, 0).unwrap(), 0);
}

#[test]
fn last_symbol_from_the_full_interval() {
    let data = [0xFFu8; 5];
    let mut d = ArithmeticDecoder::new();
    let mut rd = ByteCursor::new(&data);
    assert!(d.init(&mut rd).is_ok());
    assert_eq!(d.decode_symbol(&mut rd, 7).unwrap(), 255);
}

#[test]
fn non_silent_frame_is_predicted_and_decoded() {
    let segment = [0x12u8, 0x34, 0x56, 0x78, 0x9A, 0xBC];
    let mono = frame_with_one_filter_set("0001", &segment);
    let out = DstDecoder::new(3, 1).decode_frame(&mono).unwrap();
    assert_eq!(out, vec![vec![18u8, 51, 0]]);
    let stereo = frame_with_one_filter_set("0010", &segment);
    let out2 = DstDecoder::new(3, 2).decode_frame(&stereo).unwrap();
    assert_eq!(out2, vec![vec![18u8, 51, 0], vec![18u8, 51, 0]]);
}

#[test]
fn short_segment_data_fails() {
    let f = frame_with_one_filter_set("0001", &[1, 2, 3]);
    assert!(matches!(DstDecoder::new(3, 1).decode_frame(&f), Err(ChimeError::Io)));
}

#[test]
fn decoded_frames_are_interleaved() {
    let segment = [0x12u8, 0x34, 0x56, 0x78, 0x9A, 0xBC];
    let frames = vec![SacdAudioFrame {
        frame_type: SacdFrameType::Dst,
        frame_number: 0,
        data: frame_with_one_filter_set("0010", &segment),
    }];
    // 1800 Hz: 3 bytes per channel and frame
    let out = process_audio_frames(&frames, 2, 1800).unwrap();
    assert_eq!(out, vec![18u8, 18, 51, 51, 0, 0]);
}

#[test]
fn code_below_the_interval_is_reported() {
    let segment = [194u8, 107, 48, 249, 14, 199, 221];
    let f = frame_with_one_filter_set("0001", &segment);
    let six = DstDecoder::new(6, 1).try_decode_frame(&f).unwrap().unwrap();
    assert_eq!(six, vec![vec![194u8, 107, 156, 99, 213, 0]]);
    assert!(DstDecoder::new(7, 1).try_decode_frame(&f).is_none());
    let frames = vec![SacdAudioFrame {
        frame_type: SacdFrameType::Dst,
        frame_number: 0,
        data: f.clone(),
    }];
    // 4200 Hz: 7 bytes per channel and frame
    assert!(try_process_audio_frames(&frames, 1, 4200).is_none());
}

#[test]
fn frame_without_filter_sets_is_reported() {
    // frame 0, mono, not silent, length 0, no filter sets
    let mut f = vec![0x00u8, 0x01, 0x00, 0x00, 0x00];
    assert!(matches!(DstDecoder::new(2, 1).try_decode_frame(&f), Some(Err(ChimeError::Io))));
    f.extend_from_slice(&[1, 2, 3, 4]);
    assert!(DstDecoder::new(2, 1).try_decode_frame(&f).is_none());
    assert!(matches!(DstDecoder::new(0, 1).try_decode_frame(&f), Some(Ok(_))));
}

#[test]
fn checked_decoding_agrees_where_nothing_goes_wrong() {
    let segment = [0x12u8, 0x34, 0x56, 0x78, 0x9A, 0xBC];
    let stereo = frame_with_one_filter_set("0010", &segment);
    let d = DstDecoder::new(3, 2);
    assert_eq!(d.try_decode_frame(&stereo).unwrap().unwrap(), d.decode_frame(&stereo).unwrap());
    let frames = vec![SacdAudioFrame { frame_type: SacdFrameType::Dst, frame_number: 0, data: stereo }];
    assert_eq!(
        try_process_audio_frames(&frames, 2, 1800).unwrap().unwrap(),
        vec![18u8, 18, 51, 51, 0, 0]
    );
}
