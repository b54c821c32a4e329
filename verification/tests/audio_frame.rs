use chime::dsd::audio_frame::DST_SYNC;
use chime::dsd::{parse_audio_frames, process_audio_frames, SacdAudioFrame, SacdFrameType};
use chime::{ChimeError, DataFault};

#[test]
fn test_parse_dsd_frames() {
    // Mock raw DSD data: 2 frames at DSD64 stereo
    let dsd_samples_per_frame = 2822400 / 75; // 37632
    let raw_frame_size = dsd_samples_per_frame * 2 / 8; // 9408
    let data = vec![0xA5u8; raw_frame_size * 2];

    let frames = parse_audio_frames(&data, 2, 2822400).unwrap();
    assert_eq!(frames.len(), 2, "should parse 2 DSD frames");
    assert_eq!(frames[0].frame_type, SacdFrameType::Dsd);
    assert_eq!(frames[1].frame_type, SacdFrameType::Dsd);
}

#[test]
fn test_parse_dst_frames() {
    // Mock DST data: sync + size + data
    let dst_data_size = 512u32;
    let mut data = Vec::new();
    data.extend_from_slice(&DST_SYNC.to_be_bytes());
    data.extend_from_slice(&dst_data_size.to_be_bytes());
    data.extend_from_slice(&vec![0x00u8; dst_data_size as usize]);
    // Second DST frame
    data.extend_from_slice(&DST_SYNC.to_be_bytes());
    data.extend_from_slice(&dst_data_size.to_be_bytes());
    data.extend_from_slice(&vec![0x00u8; dst_data_size as usize]);

    let frames = parse_audio_frames(&data, 2, 2822400).unwrap();
    assert_eq!(frames.len(), 2, "should parse 2 DST frames");
    assert_eq!(frames[0].frame_type, SacdFrameType::Dst);
    assert_eq!(frames[1].frame_type, SacdFrameType::Dst);
}

#[test]
fn frames_are_numbered_and_carry_their_bytes() {
    let mut data = Vec::new();
    data.extend_from_slice(&DST_SYNC.to_be_bytes());
    data.extend_from_slice(&3u32.to_be_bytes());
    data.extend_from_slice(&[7u8, 8, 9]);
    data.extend_from_slice(&[1u8, 2, 3, 4, 5, 6]);
    // 600 Hz, 8 channels: 8 * 8 / 8 = 8 bytes per raw frame; 6 remain
    let frames = parse_audio_frames(&data, 8, 600).unwrap();
    assert_eq!(frames.len(), 2);
    assert_eq!(frames[0].frame_type, SacdFrameType::Dst);
    assert_eq!(frames[0].frame_number, 0);
    assert_eq!(frames[0].data, vec![7u8, 8, 9]);
    assert_eq!(frames[1].frame_type, SacdFrameType::Dsd);
    assert_eq!(frames[1].frame_number, 1);
    assert_eq!(frames[1].data, vec![1u8, 2, 3, 4, 5, 6]);
}

#[test]
fn empty_audio_data_is_refused() {
    let r = parse_audio_frames(&[], 2, 2822400);
    assert!(matches!(r, Err(ChimeError::InvalidData(DataFault::EmptyAudioData))));
}

#[test]
fn short_tail_is_dropped() {
    let frames = parse_audio_frames(&[1u8, 2, 3], 2, 2822400).unwrap();
    assert_eq!(frames.len(), 0);
}

#[test]
fn processing_passes_raw_frames_and_decodes_silent_ones() {
    let frames = vec![
        SacdAudioFrame { frame_type: SacdFrameType::Dsd, frame_number: 0, data: vec![1, 2, 3] },
        // frame 1, 2 channels, silent
        SacdAudioFrame { frame_type: SacdFrameType::Dst, frame_number: 1, data: vec![0x00, 0x12, 0x40, 0x00, 0x00] },
        SacdAudioFrame { frame_type: SacdFrameType::Dsd, frame_number: 2, data: vec![9] },
    ];
    // 4800 Hz: 64 samples, 8 bytes per channel and frame
    let out = process_audio_frames(&frames, 2, 4800).unwrap();
    let mut expected = vec![1u8, 2, 3];
    expected.extend_from_slice(&[0u8; 16]);
    expected.push(9);
    assert_eq!(out, expected);
}

#[test]
fn processing_stops_at_a_bad_frame() {
    let frames = vec![
        SacdAudioFrame { frame_type: SacdFrameType::Dsd, frame_number: 0, data: vec![1] },
        SacdAudioFrame { frame_type: SacdFrameType::Dst, frame_number: 1, data: vec![] },
    ];
    assert!(matches!(
        process_audio_frames(&frames, 2, 4800),
        Err(ChimeError::InvalidData(DataFault::EmptyDstFrame))
    ));
}
