//! The chunk layout of AIFF files: every chunk that the scan does not
//! read is passed whole, its pad byte included.
use crate::bytes::{be16, be32, be64, has_tag};
use crate::error::ChimeError;
use crate::pcm::aiff::{
    aiff_chunks, aiff_header_outcome, extended_rate, room, AiffScan, TAG_AIFC, TAG_AIFF, TAG_COMM,
    TAG_FORM, TAG_SSND,
};
use vstd::prelude::*;

verus! {

/// `c` is a whole chunk of an id other than `COMM` and `SSND`: its id, its
/// size, and that many bytes, padded to an even length.
pub open spec fn is_other_chunk(c: Seq<u8>) -> bool {
    &&& c.len() >= 8
    &&& !has_tag(c, 0, TAG_COMM)
    &&& !has_tag(c, 0, TAG_SSND)
    &&& c.len() == 8 + be32(c, 4) + be32(c, 4) % 2
}

/// `f` with `c` put in at byte `p`.
pub open spec fn with_chunk(f: Seq<u8>, p: int, c: Seq<u8>) -> Seq<u8> {
    f.take(p) + c + f.skip(p)
}

/// A scan outcome whose sample data, where it found any, lies `n` bytes
/// further on.
pub open spec fn moved_scan(r: Result<AiffScan, ChimeError>, n: int) -> Result<AiffScan, ChimeError> {
    match r {
        Ok(a) => Ok(
            if a.found_ssnd {
                AiffScan { data_offset: (a.data_offset + n) as u64, ..a }
            } else {
                a
            },
        ),
        Err(e) => Err(e),
    }
}

/// Scanning the chunks from byte `q` at or after an inserted chunk gives
/// what scanning the file without it gives, moved by the chunk's length.
#[verifier::rlimit(60)]
#[verifier::spinoff_prover]
proof fn lemma_scan_moved(f: Seq<u8>, p: int, c: Seq<u8>, q: int, st: AiffScan)
    requires
        0 <= p <= q,
        p <= f.len(),
        is_other_chunk(c),
        !st.found_ssnd,
        f.len() + c.len() <= isize::MAX,
    ensures
        aiff_chunks(with_chunk(f, p, c), q + c.len(), st) == moved_scan(aiff_chunks(f, q, st), c.len() as int),
        aiff_chunks(f, q, st) matches Ok(a) ==> (a.found_ssnd ==> a.data_offset >= q),
    decreases room(f, q),
{
    let g = with_chunk(f, p, c);
    let n = c.len() as int;
    assert(g.len() == f.len() + n);
    assert forall|i: int| p + n <= i < g.len() implies #[trigger] g[i] == f[i - n] by {
        assert(g[i] == f.skip(p)[i - p - n]);
    }
    if q < 0 || q + 4 > f.len() {
    } else if q + 8 > f.len() {
    } else {
        let size = be32(f, q + 4);
        let cds = q + 8;
        assert(be32(g, q + n + 4) == size);
        assert(has_tag(g, q + n, TAG_COMM) == has_tag(f, q, TAG_COMM));
        assert(has_tag(g, q + n, TAG_SSND) == has_tag(f, q, TAG_SSND));
        if has_tag(f, q, TAG_COMM) {
            if cds + 18 > f.len() {
            } else {
                assert(be16(g, cds + n) == be16(f, cds));
                assert(be32(g, cds + n + 2) == be32(f, cds + 2));
                assert(be16(g, cds + n + 6) == be16(f, cds + 6));
                assert(be16(g, cds + n + 8) == be16(f, cds + 8));
                assert(be64(g, cds + n + 10) == be64(f, cds + 10));
                match extended_rate(be16(f, cds + 8) as u16, be64(f, cds + 10) as u64) {
                    Err(e) => {},
                    Ok(rate) => {
                        let st2 = AiffScan {
                            channels: be16(f, cds) as u16,
                            sample_frames: be32(f, cds + 2) as u32,
                            bits_per_sample: be16(f, cds + 6) as u16,
                            sample_rate: rate,
                            found_comm: true,
                            ..st
                        };
                        lemma_scan_moved(f, p, c, cds + size + size % 2, st2);
                    },
                }
            }
        } else if has_tag(f, q, TAG_SSND) {
            if cds + 8 > f.len() {
            } else {
                assert(be32(g, cds + n) == be32(f, cds));
            }
        } else {
            lemma_scan_moved(f, p, c, cds + size + size % 2, st);
        }
    }
}

/// Every chunk of an id other than `COMM` and `SSND` is passed whole, pad
/// byte included: putting such a chunk in where a scan of the chunks starts
/// leaves what the scan finds unchanged but for the sample data, which lies
/// as much further on and holds the same bytes.
pub proof fn lemma_other_chunk_is_passed(f: Seq<u8>, p: int, c: Seq<u8>, st: AiffScan)
    requires
        0 <= p <= f.len(),
        is_other_chunk(c),
        !st.found_ssnd,
        f.len() + c.len() <= isize::MAX,
    ensures
        aiff_chunks(with_chunk(f, p, c), p, st) == moved_scan(aiff_chunks(f, p, st), c.len() as int),
        aiff_chunks(f, p, st) matches Ok(a) ==> (a.found_ssnd && a.data_offset + a.data_size
            <= f.len() ==> with_chunk(f, p, c).subrange(
            a.data_offset + c.len(),
            a.data_offset + c.len() + a.data_size,
        ) == f.subrange(a.data_offset as int, a.data_offset + a.data_size)),
{
    let g = with_chunk(f, p, c);
    let n = c.len() as int;
    assert(g.len() == f.len() + n);
    assert forall|i: int| p <= i < p + n implies #[trigger] g[i] == c[i - p] by {
        assert((f.take(p) + c)[i] == c[i - p]);
    }
    assert forall|i: int| p + n <= i < g.len() implies #[trigger] g[i] == f[i - n] by {
        assert(g[i] == f.skip(p)[i - p - n]);
    }
    assert(be32(g, p + 4) == be32(c, 4));
    assert(has_tag(g, p, TAG_COMM) == has_tag(c, 0, TAG_COMM));
    assert(has_tag(g, p, TAG_SSND) == has_tag(c, 0, TAG_SSND));
    lemma_scan_moved(f, p, c, p, st);
    if let Ok(a) = aiff_chunks(f, p, st) {
        if a.found_ssnd && a.data_offset + a.data_size <= f.len() {
            assert(g.subrange(a.data_offset + n, a.data_offset + n + a.data_size) =~= f.subrange(
                a.data_offset as int,
                a.data_offset + a.data_size,
            ));
        }
    }
}

/// An AIFF file with a chunk of another id put in right after its form
/// header reads as the file without it, with the sample data as much
/// further on.
pub proof fn lemma_aiff_header_with_other_chunk(f: Seq<u8>, c: Seq<u8>)
    requires
        f.len() >= 12,
        is_other_chunk(c),
        f.len() + c.len() <= isize::MAX,
    ensures
        aiff_header_outcome(with_chunk(f, 12, c)) == moved_scan(aiff_header_outcome(f), c.len() as int),
{
    let g = with_chunk(f, 12, c);
    assert forall|i: int| 0 <= i < 12 implies #[trigger] g[i] == f[i] by {
        assert((f.take(12) + c)[i] == f[i]);
    }
    assert(has_tag(g, 0, TAG_FORM) == has_tag(f, 0, TAG_FORM));
    assert(has_tag(g, 8, TAG_AIFF) == has_tag(f, 8, TAG_AIFF));
    assert(has_tag(g, 8, TAG_AIFC) == has_tag(f, 8, TAG_AIFC));
    let init = AiffScan {
        channels: 0,
        sample_rate: 0,
        bits_per_sample: 0,
        sample_frames: 0,
        data_offset: 0,
        data_size: 0,
        big_endian: has_tag(f, 8, TAG_AIFF),
        found_comm: false,
        found_ssnd: false,
    };
    lemma_other_chunk_is_passed(f, 12, c, init);
}

} // verus!
