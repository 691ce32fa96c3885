//! Turning video sample buffers into an Annex-B H.264 elementary stream.
use crate::bytes::{be_u32, push_all, read_u32_be};
use crate::coremedia::sample::SampleBuffer;
use crate::error::QtError;
use crate::wire::MEDIA_TYPE_VIDEO;
use vstd::prelude::*;

verus! {

/// The start code in front of every NAL unit: the integer 1, big-endian.
pub open spec fn start_code() -> Seq<u8> {
    seq![0u8, 0u8, 0u8, 1u8]
}

/// The AVCC-framed NAL units that fill `d` (each `[u32-be len][len bytes]`),
/// each behind a start code.
pub open spec fn nalus_to_annexb(d: Seq<u8>) -> Result<Seq<u8>, QtError>
    decreases d.len(),
{
    if d.len() == 0 {
        Ok(Seq::empty())
    } else if d.len() < 4 {
        Err(QtError::UnexpectedEof)
    } else if d.len() - 4 < be_u32(d.subrange(0, 4)) {
        Err(QtError::UnexpectedEof)
    } else {
        let n = be_u32(d.subrange(0, 4)) as int;
        match nalus_to_annexb(d.subrange(4 + n, d.len() as int)) {
            Err(e) => Err(e),
            Ok(r) => Ok(start_code() + d.subrange(4, 4 + n) + r),
        }
    }
}

/// A parameter set behind a start code, or nothing.
pub open spec fn parameter_set(p: Option<Vec<u8>>) -> Seq<u8> {
    match p {
        Some(v) => start_code() + v@,
        None => Seq::empty(),
    }
}

/// The Annex-B bytes of a sample buffer: for video, the SPS and PPS of its
/// format descriptor when it carries them, then its NAL units; nothing for
/// audio.
pub open spec fn annexb_of(s: SampleBuffer) -> Result<Seq<u8>, QtError> {
    if s.media_type != MEDIA_TYPE_VIDEO {
        Ok(Seq::empty())
    } else {
        let head = match s.format_description {
            Some(f) => match f.avc1 {
                Some(a) => parameter_set(a.sps) + parameter_set(a.pps),
                None => Seq::empty(),
            },
            None => Seq::empty(),
        };
        match s.sample_data {
            Some(d) => match nalus_to_annexb(d@) {
                Err(e) => Err(e),
                Ok(r) => Ok(head + r),
            },
            None => Ok(head),
        }
    }
}

fn push_start_code(out: &mut Vec<u8>)
    ensures
        final(out)@ == old(out)@ + start_code(),
{
    out.push(0);
    out.push(0);
    out.push(0);
    out.push(1);
    assert(final(out)@ =~= old(out)@ + start_code());
}

/// Appends the NAL units of `d` to `out`, each behind a start code.
fn push_nalus(out: &mut Vec<u8>, d: &[u8]) -> (r: Result<(), QtError>)
    ensures
        match nalus_to_annexb(d@) {
            Ok(b) => r is Ok && final(out)@ == old(out)@ + b,
            Err(e) => r == Err::<(), QtError>(e),
        },
{
    let mut at: usize = 0;
    let ghost base = out@;
    assert(d@.subrange(0, d@.len() as int) =~= d@);
    while at < d.len()
        invariant
            at <= d@.len(),
            nalus_to_annexb(d@) == match nalus_to_annexb(d@.subrange(at as int, d@.len() as int)) {
                Ok(b) => Ok(out@.subrange(base.len() as int, out@.len() as int) + b),
                Err(e) => Err(e),
            },
            base.len() <= out@.len(),
            out@.subrange(0, base.len() as int) == base,
            base == old(out)@,
        decreases d@.len() - at,
    {
        let ghost cur = d@.subrange(at as int, d@.len() as int);
        let ghost done = out@.subrange(base.len() as int, out@.len() as int);
        if d.len() - at < 4 {
            return Err(QtError::UnexpectedEof);
        }
        let n = read_u32_be(d, at) as usize;
        assert(cur.subrange(0, 4) =~= d@.subrange(at as int, at + 4));
        if d.len() - at - 4 < n {
            return Err(QtError::UnexpectedEof);
        }
        push_start_code(out);
        push_all(out, &d[at + 4..at + 4 + n]);
        proof {
            assert(cur.subrange(4, 4 + n as int) =~= d@.subrange(at + 4, at + 4 + n));
            assert(cur.subrange(4 + n as int, cur.len() as int) =~= d@.subrange(at + 4 + n, d@.len() as int));
            assert(out@.subrange(0, base.len() as int) =~= base);
            if let Ok(b) = nalus_to_annexb(d@.subrange(at + 4 + n, d@.len() as int)) {
                assert(out@.subrange(base.len() as int, out@.len() as int) =~= done + start_code() + cur.subrange(4, 4 + n as int));
                assert(done + (start_code() + cur.subrange(4, 4 + n as int) + b) =~= out@.subrange(base.len() as int, out@.len() as int) + b);
            }
        }
        at = at + 4 + n;
    }
    proof {
        assert(d@.subrange(at as int, d@.len() as int) =~= Seq::<u8>::empty());
        assert(out@ =~= base + out@.subrange(base.len() as int, out@.len() as int));
        assert(out@.subrange(base.len() as int, out@.len() as int) + Seq::<u8>::empty() =~= out@.subrange(base.len() as int, out@.len() as int));
    }
    Ok(())
}

/// The Annex-B bytes of a sample buffer.
pub fn annex_b(s: &SampleBuffer) -> (r: Result<Vec<u8>, QtError>)
    ensures
        match annexb_of(*s) {
            Ok(b) => r is Ok && r->Ok_0@ == b,
            Err(e) => r == Err::<Vec<u8>, QtError>(e),
        },
{
    let mut out: Vec<u8> = Vec::new();
    if s.media_type != MEDIA_TYPE_VIDEO {
        return Ok(out);
    }
    if let Some(f) = &s.format_description {
        if let Some(a) = &f.avc1 {
            if let Some(sps) = &a.sps {
                push_start_code(&mut out);
                push_all(&mut out, sps.as_slice());
            }
            if let Some(pps) = &a.pps {
                push_start_code(&mut out);
                push_all(&mut out, pps.as_slice());
            }
        }
    }
    assert(out@ =~= match s.format_description {
        Some(f) => match f.avc1 {
            Some(a) => parameter_set(a.sps) + parameter_set(a.pps),
            None => Seq::empty(),
        },
        None => Seq::empty(),
    });
    if let Some(d) = &s.sample_data {
        match push_nalus(&mut out, d.as_slice()) {
            Ok(()) => {},
            Err(e) => return Err(e),
        }
    }
    Ok(out)
}

} // verus!
