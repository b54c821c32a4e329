use chime::dsd::{read_dsf_header, DffDecoder, DsfDecoder};
use chime::stream::{AudioData, StreamInfo};
use chime::{ChimeError, DataFault};

fn dsf(channels: u32, data: &[u8]) -> Vec<u8> {
    let mut f = Vec::new();
    f.extend_from_slice(b"DSD ");
    f.extend_from_slice(&28u64.to_le_bytes());
    f.extend_from_slice(&(92 + data.len() as u64).to_le_bytes());
    // no metadata chunk
    f.extend_from_slice(&0u64.to_le_bytes());
    // fmt chunk at 28, 52 bytes; the data chunk follows at 80
    f.extend_from_slice(b"fmt ");
    f.extend_from_slice(&52u64.to_le_bytes());
    f.extend_from_slice(&1u32.to_le_bytes());
    f.extend_from_slice(&0u32.to_le_bytes());
    f.extend_from_slice(&2u32.to_le_bytes());
    f.extend_from_slice(&channels.to_le_bytes());
    f.extend_from_slice(&2_822_400u32.to_le_bytes());
    f.extend_from_slice(&1u32.to_le_bytes());
    f.extend_from_slice(&((data.len() as u64) * 8).to_le_bytes());
    f.extend_from_slice(&4096u32.to_le_bytes());
    f.extend_from_slice(&0u32.to_le_bytes());
    f.extend_from_slice(b"data");
    f.extend_from_slice(&(12 + data.len() as u64).to_le_bytes());
    f.extend_from_slice(data);
    f
}

#[test]
fn dsf_blocks_are_interleaved_by_byte() {
    let mut data = vec![0u8; 8192];
    for i in 0..4096 {
        data[i] = (i % 251) as u8;
        data[4096 + i] = 255 - (i % 251) as u8;
    }
    let f = dsf(2, &data);
    let d = DsfDecoder::new();
    assert_eq!(d.name(), "DSF");
    match d.decode(&f).unwrap() {
        AudioData::Dsd { data: out, sample_rate, channels } => {
            assert_eq!(sample_rate, 2_822_400);
            assert_eq!(channels, 2);
            assert_eq!(out.len(), 8192);
            for i in 0..4096 {
                assert_eq!(out[2 * i], data[i]);
                assert_eq!(out[2 * i + 1], data[4096 + i]);
            }
        }
        _ => panic!("expected DSD"),
    }
}

#[test]
fn dsf_partial_block_is_dropped() {
    let f = dsf(2, &[1u8; 100]);
    match DsfDecoder::new().decode(&f).unwrap() {
        AudioData::Dsd { data, .. } => assert!(data.is_empty()),
        _ => panic!("expected DSD"),
    }
}

#[test]
fn dsf_header_layout() {

    let f = dsf(2, &[7u8; 20]);
    let h = read_dsf_header(&f).unwrap();
    assert_eq!(h.channels, 2);
    assert_eq!(h.sampling_freq, 2_822_400);
    assert_eq!(h.bits_per_sample, 1);
    assert_eq!(h.sample_count, 160);
    assert_eq!(h.data_offset, 92);
    assert_eq!(h.data_size, 20);
}

#[test]
fn dsf_probe_describes_stream() {
    let f = dsf(1, &[0u8; 16]);
    let info = DsfDecoder::new().probe(&f).unwrap();
    assert_eq!(info.format_name, "DSF");
    assert!(info.stream.is_dsd());
    assert_eq!(info.stream.channels(), 1);
    match info.stream {
        StreamInfo::Dsd(i) => {
            assert_eq!(i.sample_rate, 2_822_400);
            assert_eq!(i.bits_per_sample, 1);
            assert_eq!(i.total_bytes_per_ch, Some(16));
        }
        _ => panic!("expected DSD"),
    }
}

#[test]
fn dsf_errors() {
    let d = DsfDecoder::new();
    assert!(matches!(d.probe(b"DSD"), Err(ChimeError::Io)));
    assert!(matches!(d.probe(b"RIFF00000000"), Err(ChimeError::InvalidData(DataFault::NotDsf))));
    let mut f = dsf(1, &[0u8; 4]);
    f[28] = b'x';
    assert!(matches!(d.decode(&f), Err(ChimeError::InvalidData(DataFault::DsfMissingFmt))));
    let mut g = dsf(1, &[0u8; 4]);
    g[80] = b'x';
    assert!(matches!(d.decode(&g), Err(ChimeError::InvalidData(DataFault::DsfMissingData))));
    let mut h = dsf(1, &[0u8; 4]);
    h.truncate(h.len() - 1);
    assert!(matches!(d.decode(&h), Err(ChimeError::Io)));
    let mut small = dsf(1, &[0u8; 4]);
    small[84..92].copy_from_slice(&8u64.to_le_bytes());
    assert!(matches!(d.decode(&small), Err(ChimeError::InvalidData(DataFault::DsfMissingData))));
}

fn dff(channels: u16, rate: u32, data: &[u8]) -> Vec<u8> {
    let mut f = Vec::new();
    f.extend_from_slice(b"FRM8");
    f.extend_from_slice(&0u64.to_be_bytes());
    f.extend_from_slice(b"DSD ");
    f.extend_from_slice(b"PROP");
    f.extend_from_slice(&34u64.to_be_bytes());
    f.extend_from_slice(b"SND ");
    f.extend_from_slice(b"FS  ");
    f.extend_from_slice(&4u64.to_be_bytes());
    f.extend_from_slice(&rate.to_be_bytes());
    f.extend_from_slice(b"CHNL");
    f.extend_from_slice(&2u64.to_be_bytes());
    f.extend_from_slice(&channels.to_be_bytes());
    f.extend_from_slice(b"DSD ");
    f.extend_from_slice(&(data.len() as u64).to_be_bytes());
    f.extend_from_slice(data);
    f
}

#[test]
fn dff_decode_gives_dsd_chunk() {
    let f = dff(2, 5_644_800, &[1, 2, 3, 4]);
    let d = DffDecoder::new();
    assert_eq!(d.name(), "DFF");
    match d.decode(&f).unwrap() {
        AudioData::Dsd { data, sample_rate, channels } => {
            assert_eq!(data, vec![1u8, 2, 3, 4]);
            assert_eq!(sample_rate, 5_644_800);
            assert_eq!(channels, 2);
        }
        _ => panic!("expected DSD"),
    }
    let info = d.probe(&f).unwrap();
    assert_eq!(info.format_name, "DFF");
    match info.stream {
        StreamInfo::Dsd(i) => {
            assert_eq!(i.sample_rate, 5_644_800);
            assert_eq!(i.channels, 2);
            assert_eq!(i.bits_per_sample, 1);
            assert_eq!(i.total_bytes_per_ch, Some(2));
        }
        _ => panic!("expected DSD"),
    }
}

#[test]
fn dff_errors() {
    let d = DffDecoder::new();
    assert!(matches!(d.decode(b"RIFF0000WAVE"), Err(ChimeError::InvalidData(DataFault::NotDff))));
    assert!(matches!(
        d.decode(b"FRM800000000WAVE"),
        Err(ChimeError::InvalidData(DataFault::DffMissingDsdForm))
    ));
    assert!(matches!(
        d.decode(b"FRM800000000DSD "),
        Err(ChimeError::InvalidData(DataFault::DffMissingPropOrDsd))
    ));
    let empty = dff(2, 2_822_400, &[]);
    assert!(matches!(d.decode(&empty), Err(ChimeError::InvalidData(DataFault::DffMissingPropOrDsd))));
    let mut cut = dff(2, 2_822_400, &[1, 2, 3, 4]);
    cut.truncate(cut.len() - 1);
    assert!(matches!(d.decode(&cut), Err(ChimeError::Io)));
}
