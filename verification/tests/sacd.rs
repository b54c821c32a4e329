use chime::dsd::{SacdChannelType, SacdIsoParser};
use chime::{ChimeError, DataFault};

const TOC: usize = 510 * 2048;
const AREA1: usize = 512 * 2048;

fn image(disc_type: u8, area1_tracks: u8) -> Vec<u8> {
    let mut img = vec![0u8; AREA1 + 16 + 172];
    img[TOC..TOC + 8].copy_from_slice(b"SACDMTOC");
    img[TOC + 8..TOC + 10].copy_from_slice(&0x0102u16.to_le_bytes());
    img[TOC + 12] = disc_type;
    for k in 0..16 {
        img[TOC + 14 + k] = b'A' + k as u8;
    }
    img[TOC + 30] = 2;
    img[TOC + 31] = 0;
    img[TOC + 62] = area1_tracks;
    img[TOC + 63] = 0;
    // area TOC of the stereo area
    img[AREA1..AREA1 + 2].copy_from_slice(&0x0200u16.to_le_bytes());
    img[AREA1 + 12] = 1;
    let t = AREA1 + 16;
    // the title's first bytes double as the audio start sector
    img[t..t + 4].copy_from_slice(&1u32.to_le_bytes());
    img[AREA1 + 0x14..AREA1 + 0x18].copy_from_slice(&7u32.to_le_bytes());
    img[t + 160] = 1;
    img[t + 161] = 2;
    img[t + 162..t + 164].copy_from_slice(&75u16.to_le_bytes());
    img[t + 164..t + 168].copy_from_slice(&0u32.to_le_bytes());
    img[t + 168..t + 172].copy_from_slice(&1u32.to_le_bytes());
    for i in 2048..4096 {
        img[i] = (i % 256) as u8;
    }
    img
}

#[test]
fn probe_finds_magic() {
    assert!(SacdIsoParser::probe(&image(0, 1)).unwrap());
    assert!(!SacdIsoParser::probe(&vec![0u8; TOC + 8]).unwrap());
    assert!(matches!(SacdIsoParser::probe(&vec![0u8; 100]), Err(ChimeError::Io)));
}

#[test]
fn master_toc_and_track_audio() {
    let img = image(2, 1);
    let toc = SacdIsoParser::read_master_toc(&img).unwrap();
    assert_eq!(toc.version, 0x0102);
    assert_eq!(toc.channel_type, SacdChannelType::Both);
    assert_eq!(toc.catalog_number, b"ABCDEFGHIJKLMNOP".to_vec());
    assert!(toc.area2.is_none());
    let area = toc.area1.as_ref().unwrap();
    assert_eq!(area.version, 0x0200);
    assert_eq!(area.channel_count, 2);
    assert_eq!(area.dsd_sample_rate, 2_822_400);
    assert_eq!(area.audio_start_sector, 1);
    assert_eq!(area.audio_size_sectors, 7);
    assert_eq!(area.tracks.len(), 1);
    let track = &area.tracks[0];
    assert_eq!(track.number, 1);
    assert_eq!(track.duration_frames, 63 * 44100);
    assert_eq!(track.start_sector, 0);
    assert_eq!(track.end_sector, 1);
    let best = SacdIsoParser::best_area(&toc).unwrap();
    assert_eq!(best.audio_start_sector, 1);
    let audio = SacdIsoParser::read_track_audio(&img, area, track).unwrap();
    assert_eq!(audio.len(), 2048);
    assert_eq!(audio[0], 0);
    assert_eq!(audio[5], 5);
    assert_eq!(audio[2047], 255);
}

#[test]
fn master_toc_errors() {
    assert!(matches!(SacdIsoParser::read_master_toc(&vec![0u8; 10]), Err(ChimeError::Io)));
    assert!(matches!(
        SacdIsoParser::read_master_toc(&vec![0u8; TOC + 64]),
        Err(ChimeError::InvalidData(DataFault::NotSacd))
    ));
    assert!(matches!(
        SacdIsoParser::read_master_toc(&image(3, 1)),
        Err(ChimeError::InvalidData(DataFault::UnknownDiscType(3)))
    ));
    let toc = SacdIsoParser::read_master_toc(&image(0, 0)).unwrap();
    assert_eq!(toc.channel_type, SacdChannelType::TwoChannel);
    assert!(toc.area1.is_none());
    assert!(SacdIsoParser::best_area(&toc).is_none());
}
