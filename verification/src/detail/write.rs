//! Writing a file header.

use super::read::scan_sections;
use super::sum::checksum;
use super::{
    extra_refused, head_body, head_bytes, head_bytes_with, magic, progress, sections, sum_name,
    sum_tag, HeaderError, Progress, Scan,
};
use vstd::prelude::*;

verus! {

/// The header of a file of the repository `name` with the sections `extra`
/// between the name and the checksum section. Reading it back gives `name` and
/// the header's own length. Sections that a reader would not read as they are
/// meant are refused, and nothing is written.
pub fn write_head_with(name: &[u8; 16], extra: &[u8]) -> (r: Result<Vec<u8>, HeaderError>)
    ensures
        match r {
            Ok(out) => {
                &&& extra_refused(name@, extra@).is_none()
                &&& out@ == head_bytes_with(name@, extra@)
                &&& out@.len() == 80 + extra@.len()
                &&& progress(out@) == Scan::Ends(out@.len())
                &&& out@.subrange(16, 32) == name@
            },
            Err(e) => extra_refused(name@, extra@) == Some(e),
        },
{
    let m: [u8; 16] = [
        0x50, 0x49, 0x50, 0x50, 0x49, 0x4e, 0x53, 0x53,
        0x32, 0x30, 0x31, 0x35, 0x30, 0x39, 0x32, 0x34,
    ];
    let tag: [u8; 4] = [0x48, 0x53, 0x55, 0x4d];
    let alg: [u8; 12] = [0x20, 0x53, 0x48, 0x41, 0x2d, 0x32, 0x20, 0x32, 0x35, 0x36, 0x20, 0x20];
    assert(m@ =~= magic());
    assert(tag@ =~= sum_tag());
    assert(alg@ =~= sum_name());
    let mut out: Vec<u8> = Vec::new();
    out.extend_from_slice(m.as_slice());
    out.extend_from_slice(name.as_slice());
    out.extend_from_slice(extra);
    out.extend_from_slice(tag.as_slice());
    out.extend_from_slice(alg.as_slice());
    let ghost body = out@;
    assert(body =~= head_body(name@, extra@));
    let end = out.len();
    match scan_sections(out.as_slice()) {
        Progress::Wants(_) => {
            return Err(HeaderError::Truncated);
        },
        Progress::Fails(e) => {
            return Err(e);
        },
        Progress::Ends(at) => {
            if at != end {
                return Err(HeaderError::BadSection);
            }
        },
    }
    let sum = checksum(out.as_slice());
    out.extend_from_slice(sum.as_slice());
    proof {
        let b = out@;
        assert(b =~= body + sum@);
        assert(b.subrange(0, 16) =~= magic());
        assert(b.subrange(16, 32) =~= name@);
        super::integrity::lemma_sections_same(body, b, 32, end as nat);
        assert(b.subrange(0, end as int) =~= body);
        assert(b.subrange(end as int, end + 32) =~= sum@);
    }
    Ok(out)
}

/// The header of a file of the repository `name`, with no section but the
/// checksum's. Reading it back gives `name` and the header's own length.
pub fn write_head(name: &[u8; 16]) -> (out: Vec<u8>)
    ensures
        out@ == head_bytes(name@),
        out@.len() == 80,
        progress(out@) == Scan::Ends(80),
        out@.subrange(16, 32) == name@,
{
    let m: [u8; 16] = [
        0x50, 0x49, 0x50, 0x50, 0x49, 0x4e, 0x53, 0x53,
        0x32, 0x30, 0x31, 0x35, 0x30, 0x39, 0x32, 0x34,
    ];
    let tag: [u8; 4] = [0x48, 0x53, 0x55, 0x4d];
    let alg: [u8; 12] = [0x20, 0x53, 0x48, 0x41, 0x2d, 0x32, 0x20, 0x32, 0x35, 0x36, 0x20, 0x20];
    assert(m@ =~= magic());
    assert(tag@ =~= sum_tag());
    assert(alg@ =~= sum_name());
    let mut out: Vec<u8> = Vec::new();
    out.extend_from_slice(m.as_slice());
    out.extend_from_slice(name.as_slice());
    out.extend_from_slice(tag.as_slice());
    out.extend_from_slice(alg.as_slice());
    let ghost body = out@;
    assert(body =~= head_body(name@, Seq::empty()));
    let sum = checksum(out.as_slice());
    out.extend_from_slice(sum.as_slice());
    proof {
        let b = out@;
        assert(b =~= body + sum@);
        assert(b.subrange(0, 16) =~= magic());
        assert(b.subrange(16, 32) =~= name@);
        assert(b.subrange(32, 36) =~= sum_tag());
        assert(b.subrange(36, 48) =~= sum_name());
        assert(b[32] == 0x48);
        assert(sections(b, 32) == Scan::Ends(48));
        assert(b.subrange(0, 48) =~= body);
        assert(b.subrange(48, 80) =~= sum@);
    }
    out
}

} // verus!
