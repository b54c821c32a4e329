//! SACD ISO image parser.
//!
//! Parses SACD (Super Audio CD) disc images after the Scarlet Book: the
//! master TOC at sector 510 names the disc type and the two areas (stereo
//! and multi-channel), whose TOCs follow at sectors 512 and 514. Sectors are
//! 2048 bytes. The functions here read an image held in memory; a read past
//! its end fails as a read of a short file does.
use crate::bytes::{copy_bytes, le16, le32, read_le_u16, read_le_u32};
use crate::error::{ChimeError, DataFault};
use vstd::prelude::*;

verus! {

/// Bytes per sector.
pub const SECTOR_SIZE: u64 = 2048;

/// The sector of the master TOC.
pub const MASTER_TOC_SECTOR: u64 = 510;

/// The byte at which the master TOC starts.
pub const MASTER_TOC_POS: usize = 1_044_480;

/// The bytes that start a master TOC: `SACDMTOC`.
pub const SACD_MAGIC: [u8; 8] = [0x53, 0x41, 0x43, 0x44, 0x4d, 0x54, 0x4f, 0x43];

/// The length in bytes of a track entry of an area TOC.
pub const TRACK_ENTRY_LEN: usize = 172;

/// SACD disc channel type.
#[derive(Debug, Clone, Copy, PartialEq, Eq, Structural)]
pub enum SacdChannelType {
    /// Two-channel (stereo) only
    TwoChannel,
    /// Multi-channel only (up to 6ch)
    MultiChannel,
    /// Both two-channel and multi-channel areas
    Both,
}

/// A track in the SACD TOC.
#[derive(Debug, Clone)]
pub struct SacdTrack {
    /// Track number (1-based).
    pub number: u8,
    /// Track title (DSD-encoded, up to 160 chars).
    pub title: Vec<u8>,
    /// Duration in frames (at 44100 Hz base rate).
    pub duration_frames: u32,
    /// Starting sector offset within the area.
    pub start_sector: u32,
    /// Ending sector offset within the area.
    pub end_sector: u32,
}

/// SACD Area TOC containing track information for one area.
#[derive(Debug, Clone)]
pub struct SacdAreaToc {
    /// Version of this area TOC.
    pub version: u16,
    /// Number of channels in this area (2 for stereo, up to 6 for MCH).
    pub channel_count: u16,
    /// Channel assignment (see SACD spec for mapping).
    pub channel_assignment: u8,
    /// DSD sample rate (typically 2822400 for DSD64).
    pub dsd_sample_rate: u32,
    /// Track list.
    pub tracks: Vec<SacdTrack>,
    /// Starting sector of audio data for this area.
    pub audio_start_sector: u32,
    /// Total size of audio data in sectors.
    pub audio_size_sectors: u32,
}

/// Master SACD TOC parsed from the ISO image.
#[derive(Debug, Clone)]
pub struct SacdMasterToc {
    /// SACD version.
    pub version: u16,
    /// Channel type (stereo, multi-channel, or both).
    pub channel_type: SacdChannelType,
    /// Catalog number.
    pub catalog_number: Vec<u8>,
    /// Area 1 (stereo) TOC info.
    pub area1: Option<SacdAreaToc>,
    /// Area 2 (multi-channel) TOC info.
    pub area2: Option<SacdAreaToc>,
}

/// The duration of a track in 44.1 kHz frames, from minutes, seconds and
/// 75ths of a second.
pub open spec fn track_duration(minutes: u8, seconds: u8, frames: u16) -> int {
    (minutes * 60 + seconds) * 44100 + (frames * 44100) / 75
}

/// `t` is track `i` (0-based) of the entry at byte `p`: a 160-byte title,
/// minutes, seconds, 75ths (u16), start and end sector (u32), all
/// little-endian.
pub open spec fn track_at(t: SacdTrack, img: Seq<u8>, p: int, i: int) -> bool {
    &&& t.number == i + 1
    &&& t.title@ == img.subrange(p, p + 160)
    &&& t.duration_frames == track_duration(img[p + 160], img[p + 161], le16(img, p + 162) as u16)
    &&& t.start_sector == le32(img, p + 164)
    &&& t.end_sector == le32(img, p + 168)
}

/// The number of tracks of the area TOC at byte `a`.
pub open spec fn area_track_count(img: Seq<u8>, a: int) -> int {
    img[a + 12] as int
}

/// The area TOC at byte `a` lies within the image: its header, its track
/// entries from byte 16, and its audio fields at bytes 16 to 24.
pub open spec fn area_toc_fits(img: Seq<u8>, a: int) -> bool {
    &&& a + 24 <= img.len()
    &&& a + 16 + TRACK_ENTRY_LEN * area_track_count(img, a) <= img.len()
}

/// `toc` is the area TOC at byte `a`, with the channel count and assignment
/// that the master TOC gives; its sample rate is that of DSD64.
pub open spec fn area_toc_at(toc: SacdAreaToc, img: Seq<u8>, a: int, channel_count: u8, channel_assign: u8) -> bool {
    &&& toc.version == le16(img, a)
    &&& toc.channel_count == channel_count
    &&& toc.channel_assignment == channel_assign
    &&& toc.dsd_sample_rate == 2_822_400
    &&& toc.tracks@.len() == area_track_count(img, a)
    &&& forall|i: int|
        0 <= i < toc.tracks@.len() ==> track_at(
            #[trigger] toc.tracks@[i],
            img,
            a + 16 + TRACK_ENTRY_LEN * i,
            i,
        )
    &&& toc.audio_start_sector == le32(img, a + 16)
    &&& toc.audio_size_sectors == le32(img, a + 20)
}

/// The channel type of a disc type byte.
pub open spec fn channel_type_of(disc_type: u8) -> Option<SacdChannelType> {
    if disc_type == 0 {
        Some(SacdChannelType::TwoChannel)
    } else if disc_type == 1 {
        Some(SacdChannelType::MultiChannel)
    } else if disc_type == 2 {
        Some(SacdChannelType::Both)
    } else {
        None
    }
}

/// The image holds the SACD magic at the master TOC.
pub open spec fn has_sacd_magic(img: Seq<u8>) -> bool {
    let m = MASTER_TOC_POS as int;
    &&& m + 8 <= img.len()
    &&& forall|k: int| 0 <= k < 8 ==> img[m + k] == SACD_MAGIC[k]
}

/// The byte at which the TOC of area 1 starts (sector 512).
pub open spec fn area1_pos() -> int {
    1_048_576
}

/// The byte at which the TOC of area 2 starts (sector 514).
pub open spec fn area2_pos() -> int {
    1_052_672
}

/// The outcome of reading the master TOC, as an error or success; where it
/// succeeds, `master_toc_at` says what it holds.
pub open spec fn master_toc_error(img: Seq<u8>) -> Option<ChimeError> {
    let m = MASTER_TOC_POS as int;
    if img.len() < m + 8 {
        Some(ChimeError::Io)
    } else if !has_sacd_magic(img) {
        Some(ChimeError::InvalidData(DataFault::NotSacd))
    } else if img.len() < m + 13 {
        Some(ChimeError::Io)
    } else if channel_type_of(img[m + 12]) is None {
        Some(ChimeError::InvalidData(DataFault::UnknownDiscType(img[m + 12])))
    } else if img.len() < m + 64 {
        Some(ChimeError::Io)
    } else if img[m + 62] > 0 && !area_toc_fits(img, area1_pos()) {
        Some(ChimeError::Io)
    } else if img[m + 63] > 0 && !area_toc_fits(img, area2_pos()) {
        Some(ChimeError::Io)
    } else {
        None
    }
}

/// `toc` is the master TOC of `img`: version, channel type, a 16-byte
/// catalog number, and each area whose track count is not zero.
pub open spec fn master_toc_at(toc: SacdMasterToc, img: Seq<u8>) -> bool {
    let m = MASTER_TOC_POS as int;
    &&& toc.version == le16(img, m + 8)
    &&& channel_type_of(img[m + 12]) == Some(toc.channel_type)
    &&& toc.catalog_number@ == img.subrange(m + 14, m + 30)
    &&& (img[m + 62] > 0 <==> toc.area1 is Some)
    &&& (toc.area1 matches Some(a) ==> area_toc_at(a, img, area1_pos(), img[m + 30], img[m + 31]))
    &&& (img[m + 63] > 0 <==> toc.area2 is Some)
    &&& (toc.area2 matches Some(a) ==> area_toc_at(a, img, area2_pos(), img[m + 32], img[m + 33]))
}

/// Probing and reading the master TOC agree: on an image that reaches past
/// the magic, the probe finds the magic exactly when reading the TOC does
/// not fail for the lack of it.
pub proof fn lemma_probe_agrees_with_master_toc(img: Seq<u8>)
    requires
        img.len() >= MASTER_TOC_POS + 8,
    ensures
        has_sacd_magic(img) <==> master_toc_error(img) != Some(
            ChimeError::InvalidData(DataFault::NotSacd),
        ),
{
}

/// The disc type byte names the channel types one to one: 0 a two-channel
/// disc, 1 a multi-channel disc, 2 a disc with both; no other byte names
/// one.
pub proof fn lemma_disc_types()
    ensures
        channel_type_of(0) == Some(SacdChannelType::TwoChannel),
        channel_type_of(1) == Some(SacdChannelType::MultiChannel),
        channel_type_of(2) == Some(SacdChannelType::Both),
        forall|b: u8| b > 2 ==> channel_type_of(b) is None,
{
}

/// A master TOC read from an image has the channel type that its disc type
/// byte names: two-channel for 0, multi-channel for 1, both for 2.
pub proof fn lemma_master_toc_channel_type(toc: SacdMasterToc, img: Seq<u8>)
    requires
        master_toc_at(toc, img),
    ensures
        ({
            let b = img[MASTER_TOC_POS as int + 12];
            &&& toc.channel_type == SacdChannelType::TwoChannel <==> b == 0
            &&& toc.channel_type == SacdChannelType::MultiChannel <==> b == 1
            &&& toc.channel_type == SacdChannelType::Both <==> b == 2
        }),
{
    lemma_disc_types();
}

/// SACD ISO image parser.
pub struct SacdIsoParser;

impl SacdIsoParser {
    /// Probe an ISO image to determine if it's a SACD image: whether the
    /// master TOC starts with the magic. A read past the end fails.
    pub fn probe(image: &[u8]) -> (r: Result<bool, ChimeError>)
        ensures
            image@.len() < MASTER_TOC_POS + 8 ==> r == Err::<bool, ChimeError>(ChimeError::Io),
            image@.len() >= MASTER_TOC_POS + 8 ==> r == Ok::<bool, ChimeError>(
                has_sacd_magic(image@),
            ),
    {
        if image.len() < MASTER_TOC_POS + 8 {
            return Err(ChimeError::Io);
        }
        Ok(Self::magic_at(image))
    }

    /// Whether the eight bytes at the master TOC are the magic.
    fn magic_at(image: &[u8]) -> (b: bool)
        requires
            image@.len() >= MASTER_TOC_POS + 8,
        ensures
            b == has_sacd_magic(image@),
    {
        let mut k: usize = 0;
        while k < 8
            invariant
                k <= 8,
                image@.len() >= MASTER_TOC_POS + 8,
                forall|j: int| 0 <= j < k ==> image@[MASTER_TOC_POS + j] == SACD_MAGIC[j],
            decreases 8 - k,
        {
            if image[MASTER_TOC_POS + k] != SACD_MAGIC[k] {
                return false;
            }
            k = k + 1;
        }
        true
    }

    /// Parse the master TOC from an SACD ISO image.
    pub fn read_master_toc(image: &[u8]) -> (r: Result<SacdMasterToc, ChimeError>)
        ensures
            match r {
                Ok(toc) => master_toc_error(image@) is None && master_toc_at(toc, image@),
                Err(e) => master_toc_error(image@) == Some(e),
            },
    {
        let m = MASTER_TOC_POS;
        if image.len() < m + 8 {
            return Err(ChimeError::Io);
        }
        if !Self::magic_at(image) {
            return Err(ChimeError::InvalidData(DataFault::NotSacd));
        }
        if image.len() < m + 13 {
            return Err(ChimeError::Io);
        }
        let version = read_le_u16(image, m + 8);
        let disc_type = image[m + 12];
        let channel_type = if disc_type == 0 {
            SacdChannelType::TwoChannel
        } else if disc_type == 1 {
            SacdChannelType::MultiChannel
        } else if disc_type == 2 {
            SacdChannelType::Both
        } else {
            return Err(ChimeError::InvalidData(DataFault::UnknownDiscType(disc_type)));
        };
        if image.len() < m + 64 {
            return Err(ChimeError::Io);
        }
        let catalog = copy_bytes(image, m + 14, 16);
        let area1_channel_count = image[m + 30];
        let area1_channel_assign = image[m + 31];
        let area2_channel_count = image[m + 32];
        let area2_channel_assign = image[m + 33];
        let area1_track_count = image[m + 62];
        let area2_track_count = image[m + 63];

        let area1 = if area1_track_count > 0 {
            Some(Self::read_area_toc(image, 512, area1_channel_count, area1_channel_assign)?)
        } else {
            None
        };
        let area2 = if area2_track_count > 0 {
            Some(Self::read_area_toc(image, 514, area2_channel_count, area2_channel_assign)?)
        } else {
            None
        };
        Ok(SacdMasterToc { version, channel_type, catalog_number: catalog, area1, area2 })
    }

    /// Read an area TOC from the given sector: version, track count and
    /// track entries, then the audio start and size at byte 16 of the
    /// sector. A read past the end of the image fails.
    fn read_area_toc(image: &[u8], sector: usize, channel_count: u8, channel_assign: u8) -> (r:
        Result<SacdAreaToc, ChimeError>)
        requires
            sector == 512 || sector == 514,
        ensures
            area_toc_fits(image@, sector * 2048) ==> (r matches Ok(t) && area_toc_at(
                t,
                image@,
                sector * 2048,
                channel_count,
                channel_assign,
            )),
            !area_toc_fits(image@, sector * 2048) ==> r == Err::<SacdAreaToc, ChimeError>(
                ChimeError::Io,
            ),
    {
        let a = sector * 2048;
        if image.len() < a + 24 {
            return Err(ChimeError::Io);
        }
        let version = read_le_u16(image, a);
        let dsd_sample_rate = 2_822_400u32;
        let track_count = image[a + 12];
        if image.len() - (a + 16) < TRACK_ENTRY_LEN * (track_count as usize) {
            return Err(ChimeError::Io);
        }
        let mut tracks: Vec<SacdTrack> = Vec::new();
        let mut i: u8 = 0;
        while i < track_count
            invariant
                i <= track_count,
                track_count == image@[a + 12],
                a == sector * 2048,
                sector == 512 || sector == 514,
                a + 16 + TRACK_ENTRY_LEN * track_count <= image@.len(),
                tracks@.len() == i,
                forall|j: int|
                    0 <= j < i ==> track_at(
                        #[trigger] tracks@[j],
                        image@,
                        a + 16 + TRACK_ENTRY_LEN * j,
                        j,
                    ),
            decreases track_count - i,
        {
            let p = a + 16 + TRACK_ENTRY_LEN * (i as usize);
            let title = copy_bytes(image, p, 160);
            let duration_minutes = image[p + 160];
            let duration_seconds = image[p + 161];
            let duration_frames = read_le_u16(image, p + 162);
            let start_sector = read_le_u32(image, p + 164);
            let end_sector = read_le_u32(image, p + 168);
            let total_frames = (duration_minutes as u32 * 60 + duration_seconds as u32) * 44100 + (
            duration_frames as u32 * 44100 / 75);
            tracks.push(
                SacdTrack {
                    number: i + 1,
                    title,
                    duration_frames: total_frames,
                    start_sector,
                    end_sector,
                },
            );
            i = i + 1;
        }
        let audio_start_sector = read_le_u32(image, a + 16);
        let audio_size_sectors = read_le_u32(image, a + 20);
        Ok(
            SacdAreaToc {
                version,
                channel_count: channel_count as u16,
                channel_assignment: channel_assign,
                dsd_sample_rate,
                tracks,
                audio_start_sector,
                audio_size_sectors,
            },
        )
    }

    /// The byte range of a track's audio in the image: its offset and its
    /// length, from the area's audio start and the track's sectors.
    pub fn track_audio_range(area: &SacdAreaToc, track: &SacdTrack) -> (r: (u64, usize))
        requires
            track.end_sector >= track.start_sector,
            (track.end_sector - track.start_sector) * 2048 <= usize::MAX,
        ensures
            r.0 == (area.audio_start_sector + track.start_sector) * 2048,
            r.1 == (track.end_sector - track.start_sector) * 2048,
    {
        let start_offset = (area.audio_start_sector as u64 + track.start_sector as u64) * SECTOR_SIZE;
        let end_offset = (area.audio_start_sector as u64 + track.end_sector as u64) * SECTOR_SIZE;
        let size = (end_offset - start_offset) as usize;
        (start_offset, size)
    }

    /// Read raw audio data for a track from the image: the bytes of its
    /// sectors. A read past the end fails.
    pub fn read_track_audio(image: &[u8], area: &SacdAreaToc, track: &SacdTrack) -> (r: Result<
        Vec<u8>,
        ChimeError,
    >)
        requires
            track.end_sector >= track.start_sector,
            (track.end_sector - track.start_sector) * 2048 <= usize::MAX,
        ensures
            ({
                let start = (area.audio_start_sector + track.start_sector) * 2048;
                let size = (track.end_sector - track.start_sector) * 2048;
                &&& start + size <= image@.len() ==> (r matches Ok(v) && v@ == image@.subrange(
                    start,
                    start + size,
                ))
                &&& start + size > image@.len() ==> r == Err::<Vec<u8>, ChimeError>(ChimeError::Io)
            }),
    {
        let (start, size) = Self::track_audio_range(area, track);
        let len = image.len() as u64;
        if start > len || len - start < size as u64 {
            return Err(ChimeError::Io);
        }
        Ok(copy_bytes(image, start as usize, size))
    }

    /// Get the best available area (prefer stereo, fall back to
    /// multi-channel).
    pub fn best_area(toc: &SacdMasterToc) -> (r: Option<&SacdAreaToc>)
        ensures
            toc.area1 matches Some(a1) ==> r == Some(&a1),
            toc.area1 is None ==> (toc.area2 matches Some(a2) ==> r == Some(&a2)),
            toc.area1 is None && toc.area2 is None ==> r is None,
    {
        match &toc.area1 {
            Some(a) => Some(a),
            None => match &toc.area2 {
                Some(a) => Some(a),
                None => None,
            },
        }
    }
}

} // verus!
