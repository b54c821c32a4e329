//! Choosing a decoder for a file: by its extension, or else by asking the
//! WAV, DSF and DFF decoders in turn whether they recognise it.
use crate::dsd::dff::{
    dff_accepts, dff_decodable, dff_decoding, dff_probeable, scan_dff_header, DffDecoder,
};
use crate::dsd::{
    dsf_accepts, dsf_data_chunk, dsf_data_size, dsf_decodable, dsf_decoding, read_dsf_header,
    DsfDecoder,
};
use crate::error::{ChimeError, FormatFault};
use crate::pcm::aiff::{aiff_decodable, aiff_decoding, AiffDecoder};
use crate::pcm::{
    read_wav_header, wav_accepts, wav_decoding, wav_format_to_sample_format, wav_probeable,
    WavDecoder,
};
use crate::stream::AudioData;
use vstd::prelude::*;

verus! {

/// The container format that a file extension names.
#[derive(Debug, Clone, Copy, PartialEq, Eq, Structural)]
pub enum Container {
    Aiff,
    Wav,
    Dsf,
    Dff,
    /// An extension that names none of them.
    Unknown,
}

/// The container that a lower-case file extension (as ASCII bytes) names:
/// `aif`, `aiff`, `aifc`; `wav`; `dsf`; `dff`, `dsdiff`, `dffd`.
pub open spec fn ext_container(ext: Seq<u8>) -> Container {
    if ext == seq![0x61u8, 0x69u8, 0x66u8] || ext == seq![0x61u8, 0x69u8, 0x66u8, 0x66u8] || ext
        == seq![0x61u8, 0x69u8, 0x66u8, 0x63u8] {
        Container::Aiff
    } else if ext == seq![0x77u8, 0x61u8, 0x76u8] {
        Container::Wav
    } else if ext == seq![0x64u8, 0x73u8, 0x66u8] {
        Container::Dsf
    } else if ext == seq![0x64u8, 0x66u8, 0x66u8] || ext == seq![
        0x64u8,
        0x73u8,
        0x64u8,
        0x69u8,
        0x66u8,
        0x66u8,
    ] || ext == seq![0x64u8, 0x66u8, 0x66u8, 0x64u8] {
        Container::Dff
    } else {
        Container::Unknown
    }
}

fn same_bytes(a: &[u8], b: &[u8]) -> (r: bool)
    ensures
        r == (a@ == b@),
{
    if a.len() != b.len() {
        return false;
    }
    let mut i: usize = 0;
    while i < a.len()
        invariant
            a@.len() == b@.len(),
            i <= a@.len(),
            forall|j: int| 0 <= j < i ==> a@[j] == b@[j],
        decreases a@.len() - i,
    {
        if a[i] != b[i] {
            return false;
        }
        i = i + 1;
    }
    assert(a@ =~= b@);
    true
}

/// The container that a lower-case file extension names.
pub fn container_for_extension(ext: &[u8]) -> (c: Container)
    ensures
        c == ext_container(ext@),
{
    let aif = vec![0x61u8, 0x69, 0x66];
    let aiff = vec![0x61u8, 0x69, 0x66, 0x66];
    let aifc = vec![0x61u8, 0x69, 0x66, 0x63];
    let wav = vec![0x77u8, 0x61, 0x76];
    let dsf = vec![0x64u8, 0x73, 0x66];
    let dff = vec![0x64u8, 0x66, 0x66];
    let dsdiff = vec![0x64u8, 0x73, 0x64, 0x69, 0x66, 0x66];
    let dffd = vec![0x64u8, 0x66, 0x66, 0x64];
    if same_bytes(ext, aif.as_slice()) || same_bytes(ext, aiff.as_slice()) || same_bytes(
        ext,
        aifc.as_slice(),
    ) {
        Container::Aiff
    } else if same_bytes(ext, wav.as_slice()) {
        Container::Wav
    } else if same_bytes(ext, dsf.as_slice()) {
        Container::Dsf
    } else if same_bytes(ext, dff.as_slice()) || same_bytes(ext, dsdiff.as_slice()) || same_bytes(
        ext,
        dffd.as_slice(),
    ) {
        Container::Dff
    } else {
        Container::Unknown
    }
}

/// The inputs on which probing is defined: each decoder that is asked can
/// read the header, and the one that recognises the file can decode it.
pub open spec fn probing_defined(f: Seq<u8>) -> bool {
    &&& wav_probeable(f)
    &&& !wav_accepts(f) ==> {
        &&& dsf_accepts(f) ==> dsf_decodable(f)
        &&& !dsf_accepts(f) ==> dff_probeable(f) && (dff_accepts(f) ==> dff_decodable(f))
    }
}

/// What probing gives: the decoding of the first of WAV, DSF and DFF that
/// recognises `f`, or `NoCodec` where none does.
pub open spec fn probed_decoding(f: Seq<u8>, r: Result<AudioData, ChimeError>) -> bool {
    if wav_accepts(f) {
        wav_decoding(f, r)
    } else if dsf_accepts(f) {
        dsf_decoding(f, r)
    } else if dff_accepts(f) {
        dff_decoding(f, r)
    } else {
        r == Err::<AudioData, ChimeError>(ChimeError::UnsupportedFormat(FormatFault::NoCodec))
    }
}

/// The inputs on which decoding a file of the given container is defined.
pub open spec fn decoding_defined(c: Container, f: Seq<u8>) -> bool {
    match c {
        Container::Aiff => aiff_decodable(f),
        Container::Wav => true,
        Container::Dsf => dsf_decodable(f),
        Container::Dff => dff_decodable(f),
        Container::Unknown => probing_defined(f),
    }
}

/// What decoding a file of the given container gives.
pub open spec fn container_decoding(
    c: Container,
    f: Seq<u8>,
    r: Result<AudioData, ChimeError>,
) -> bool {
    match c {
        Container::Aiff => aiff_decoding(f, r),
        Container::Wav => wav_decoding(f, r),
        Container::Dsf => dsf_decoding(f, r),
        Container::Dff => dff_decoding(f, r),
        Container::Unknown => probed_decoding(f, r),
    }
}

/// For an extension that names no container, the file is decoded by the
/// first of the WAV, DSF and DFF decoders that accepts it, and fails with
/// `NoCodec` only where none of them does.
pub proof fn lemma_probe_order(ext: Seq<u8>, f: Seq<u8>, r: Result<AudioData, ChimeError>)
    requires
        ext_container(ext) == Container::Unknown,
        container_decoding(ext_container(ext), f, r),
    ensures
        wav_accepts(f) ==> wav_decoding(f, r),
        !wav_accepts(f) && dsf_accepts(f) ==> dsf_decoding(f, r),
        !wav_accepts(f) && !dsf_accepts(f) && dff_accepts(f) ==> dff_decoding(f, r),
        !wav_accepts(f) && !dsf_accepts(f) && !dff_accepts(f) <==> r == Err::<AudioData, ChimeError>(
            ChimeError::UnsupportedFormat(FormatFault::NoCodec),
        ),
{
}

/// Tests `wav_probeable`.
fn wav_probe_is_defined(f: &[u8]) -> (b: bool)
    ensures
        b == wav_probeable(f@),
{
    match read_wav_header(f) {
        Ok(h) => match wav_format_to_sample_format(h.format_tag, h.bits_per_sample) {
            Ok(_) => h.channels != 0,
            Err(_) => true,
        },
        Err(_) => true,
    }
}

/// Tests `wav_accepts`.
fn wav_accepted(f: &[u8]) -> (b: bool)
    ensures
        b == wav_accepts(f@),
{
    match read_wav_header(f) {
        Ok(h) => wav_format_to_sample_format(h.format_tag, h.bits_per_sample).is_ok(),
        Err(_) => false,
    }
}

/// Tests `dsf_accepts` and `dsf_decodable`: the first result is whether the
/// header reads, the second whether decoding is defined.
fn dsf_check(f: &[u8]) -> (r: (bool, bool))
    ensures
        r.0 == dsf_accepts(f@),
        r.1 == dsf_decodable(f@),
{
    match read_dsf_header(f) {
        Ok(h) => {
            let len = f.len() as u64;
            proof {
                assert(h.data_offset == dsf_data_chunk(f@) + 12);
                assert(h.data_size == dsf_data_size(f@));
            }
            let complete = h.data_offset <= len && h.data_size <= len - h.data_offset;
            (true, !complete || h.channels != 0)
        },
        Err(_) => (false, true),
    }
}

/// Tests `dff_probeable`, `dff_accepts` and `dff_decodable`, in that order.
fn dff_check(f: &[u8]) -> (r: (bool, bool, bool))
    ensures
        r.0 == dff_probeable(f@),
        r.1 == dff_accepts(f@),
        r.2 == dff_decodable(f@),
{
    match scan_dff_header(f) {
        None => (false, false, false),
        Some(Err(_)) => (true, false, true),
        Some(Ok(st)) => (st.channels != 0, true, st.data_size <= usize::MAX as u64),
    }
}

/// Whether decoding a file of the given container is defined on `f`: the
/// inputs that `detect_and_decode` admits.
pub fn decoding_is_defined(ext: &[u8], f: &[u8]) -> (b: bool)
    ensures
        b == decoding_defined(ext_container(ext@), f@),
{
    match container_for_extension(ext) {
        Container::Aiff => f.len() <= isize::MAX as usize,
        Container::Wav => true,
        Container::Dsf => dsf_check(f).1,
        Container::Dff => dff_check(f).2,
        Container::Unknown => {
            if !wav_probe_is_defined(f) {
                return false;
            }
            if wav_accepted(f) {
                return true;
            }
            let (dsf_ok, dsf_dec) = dsf_check(f);
            if dsf_ok {
                return dsf_dec;
            }
            let (dff_probe, dff_ok, dff_dec) = dff_check(f);
            dff_probe && (!dff_ok || dff_dec)
        },
    }
}

/// Decode the contents `f` of a file whose lower-case extension is `ext`:
/// with the decoder that the extension names, or else with the first of the
/// WAV, DSF and DFF decoders whose probe accepts the file.
pub fn detect_and_decode(ext: &[u8], f: &[u8]) -> (r: Result<AudioData, ChimeError>)
    requires
        decoding_defined(ext_container(ext@), f@),
    ensures
        container_decoding(ext_container(ext@), f@, r),
{
    match container_for_extension(ext) {
        Container::Aiff => AiffDecoder::new().decode(f),
        Container::Wav => WavDecoder::new().decode(f),
        Container::Dsf => DsfDecoder::new().decode(f),
        Container::Dff => DffDecoder::new().decode(f),
        Container::Unknown => {
            if WavDecoder::new().probe(f).is_ok() {
                return WavDecoder::new().decode(f);
            }
            if DsfDecoder::new().probe(f).is_ok() {
                return DsfDecoder::new().decode(f);
            }
            if DffDecoder::new().probe(f).is_ok() {
                return DffDecoder::new().decode(f);
            }
            Err(ChimeError::UnsupportedFormat(FormatFault::NoCodec))
        },
    }
}

} // verus!
