use chime::stream::{ChannelLayout, DsdInfo, PcmInfo, StreamInfo};
use chime::SampleFormat;

#[test]
fn channel_counts() {
    assert_eq!(ChannelLayout::Mono.channel_count(), 1);
    assert_eq!(ChannelLayout::Stereo.channel_count(), 2);
    assert_eq!(ChannelLayout::Custom(6).channel_count(), 6);
}

#[test]
fn stream_info_channels_and_kind() {
    let pcm = StreamInfo::Pcm(PcmInfo {
        sample_rate: 44100,
        channels: 2,
        sample_format: SampleFormat::I16,
        total_frames: None,
        bits_per_sample: 16,
    });
    assert_eq!(pcm.channels(), 2);
    assert!(!pcm.is_dsd());
    let dsd = StreamInfo::Dsd(DsdInfo { sample_rate: 2_822_400, channels: 6, bits_per_sample: 1, total_bytes_per_ch: Some(8) });
    assert_eq!(dsd.channels(), 6);
    assert!(dsd.is_dsd());
}
