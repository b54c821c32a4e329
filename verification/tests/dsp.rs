use chime::dsp::decimation::decimation_stages;
use chime::dsp::resample::{plan_resampling, SrcQuality};
use chime::dsp::{
    deinterleave, deinterleave_dsd, dsd_sign_table, interleave, DsdPcmConfig, DsdToPcmConverter,
};
use chime::{ChimeError, DataFault};

#[test]
fn default_config() {
    let c = DsdPcmConfig::default();
    assert_eq!(c.target_sample_rate, 176_400);
    assert!(c.remove_dc);
    assert!(c.apply_lowpass);
    let conv = DsdToPcmConverter::new(DsdPcmConfig { target_sample_rate: 88_200, remove_dc: false, apply_lowpass: true });
    assert_eq!(conv.config().target_sample_rate, 88_200);
    assert!(!conv.config().remove_dc);
}

#[test]
fn dop_one_frame_24_bit() {
    let out = DsdToPcmConverter::encode_dop(&[1, 2, 3, 4], 2_822_400, 2, 24);
    assert_eq!(out, vec![0x69, 1, 3, 0x69, 2, 4]);
}

#[test]
fn dop_markers_alternate_and_pad_with_zero() {
    let out = DsdToPcmConverter::encode_dop(&[1, 2, 3, 4, 5, 6], 2_822_400, 2, 24);
    assert_eq!(out, vec![0x69, 1, 3, 0x69, 2, 4, 0x68, 5, 0, 0x68, 6, 0]);
}

#[test]
fn dop_16_bit_mono() {
    let out = DsdToPcmConverter::encode_dop(&[0xAA, 0xBB], 2_822_400, 1, 16);
    assert_eq!(out, vec![0x05, 0xAA, 0x04, 0xBB]);
}

#[test]
fn dop_32_bit_uses_16_bit_marker() {
    let out = DsdToPcmConverter::encode_dop(&[9, 8, 7], 2_822_400, 1, 32);
    assert_eq!(out, vec![0x05, 9, 8, 7]);
}

#[test]
fn dop_of_nothing_is_empty() {
    assert!(DsdToPcmConverter::encode_dop(&[], 2_822_400, 2, 24).is_empty());
}

#[test]
fn sign_table_unpacks_msb_first() {
    let t = dsd_sign_table();
    assert_eq!(t.len(), 256);
    assert_eq!(t[0xA5], vec![true, false, true, false, false, true, false, true]);
    assert_eq!(t[0x00], vec![false; 8]);
    assert_eq!(t[0xFF], vec![true; 8]);
    assert_eq!(t[0x01], vec![false, false, false, false, false, false, false, true]);
}

#[test]
fn deinterleave_by_position() {
    let planes = deinterleave(&[1u8, 2, 3, 4, 5], 2);
    assert_eq!(planes, vec![vec![1u8, 3, 5], vec![2u8, 4]]);
    let planes3 = deinterleave(&[1u8, 2], 3);
    assert_eq!(planes3, vec![vec![1u8], vec![2u8], vec![]]);
}

#[test]
fn interleave_stops_at_shortest_plane() {
    let out = interleave(&vec![vec![1i32, 3, 5], vec![2i32, 4]]);
    assert_eq!(out, vec![1, 2, 3, 4]);
    let none: Vec<Vec<i32>> = Vec::new();
    assert!(interleave(&none).is_empty());
}

#[test]
fn interleave_undoes_deinterleave() {
    let x: Vec<u16> = (0..12).collect();
    for ch in [1u16, 2, 3, 4, 6] {
        let planes = deinterleave(&x, ch);
        assert_eq!(interleave(&planes), x);
    }
}

#[test]
fn deinterleave_dsd_checks_input() {
    assert!(matches!(deinterleave_dsd(&[], 2), Err(ChimeError::InvalidData(DataFault::EmptyDsd))));
    assert!(matches!(deinterleave_dsd(&[1], 0), Err(ChimeError::InvalidData(DataFault::ZeroChannels))));
    let planes = deinterleave_dsd(&[1, 2, 3, 4, 5, 6], 3).unwrap();
    assert_eq!(planes, vec![vec![1u8, 4], vec![2u8, 5], vec![3u8, 6]]);
}

#[test]
fn decimation_plan_dsd64_to_176k() {
    let s = decimation_stages(2_822_400, 176_400);
    let decs: Vec<u32> = s.iter().map(|x| x.decimation).collect();
    assert_eq!(decs, vec![4, 4]);
    assert_eq!(s[0].input_rate, 2_822_400);
    assert_eq!(s[0].output_rate, 705_600);
    assert_eq!(s[1].input_rate, 705_600);
    assert_eq!(s[1].output_rate, 176_400);
}

#[test]
fn decimation_plan_factors() {
    let decs = |a: u32, b: u32| -> Vec<u32> { decimation_stages(a, b).iter().map(|x| x.decimation).collect() };
    assert_eq!(decs(2_822_400, 44_100), vec![4, 4, 4]);
    assert_eq!(decs(5_644_800, 176_400), vec![4, 4, 2]);
    assert_eq!(decs(1_411_200, 117_600), vec![4, 3]);
    assert_eq!(decs(176_400, 176_400), Vec::<u32>::new());
    assert_eq!(decs(44_100, 176_400), Vec::<u32>::new());
    let odd = decimation_stages(1_411_200, 117_600);
    assert_eq!(odd[1].input_rate, 352_800);
    assert_eq!(odd[1].output_rate, 117_600);
    let product: u32 = decs(11_289_600, 44_100).iter().product();
    assert_eq!(product, 256);
}

#[test]
fn resampling_plan() {
    assert!(plan_resampling(44_100, 44_100, SrcQuality::High).is_none());
    assert!(plan_resampling(0, 44_100, SrcQuality::High).is_none());
    assert!(plan_resampling(44_100, 0, SrcQuality::High).is_none());
    let p = plan_resampling(48_000, 44_100, SrcQuality::Medium).unwrap();
    assert_eq!(p.num_phases, 32);
    assert_eq!(p.taps_per_phase, 32);
    assert_eq!(p.output_frames(48_000), 44_100);
    let up = plan_resampling(44_100, 48_000, SrcQuality::Fast).unwrap();
    assert_eq!(up.num_phases, 8);
    assert_eq!(up.output_frames(44_100), 48_000);
    assert_eq!(up.output_frames(1), 2);
    assert_eq!(SrcQuality::VeryHigh.num_phases(), 128);
    assert_eq!(SrcQuality::High.taps_per_phase(), 64);
}
