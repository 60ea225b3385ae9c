//! Reading a file header.

use super::sum::checksum;
use super::{
    magic, parsed, progress, q_length, sections, sum_name, sum_tag, FileHeader, HeaderError,
    Progress,
};
use vstd::prelude::*;
use vstd::slice::slice_subrange;

verus! {

/// Whether `bytes` holds `pat` at `pos`.
pub fn holds_at(bytes: &[u8], pos: usize, pat: &[u8]) -> (r: bool)
    requires
        pos + pat@.len() <= bytes@.len(),
    ensures
        r == (bytes@.subrange(pos as int, pos + pat@.len()) == pat@),
{
    let ghost part = bytes@.subrange(pos as int, pos + pat@.len());
    let n = bytes.len();
    let mut i: usize = 0;
    while i < pat.len()
        invariant
            i <= pat@.len(),
            n == bytes@.len(),
            pos + pat@.len() <= n,
            part == bytes@.subrange(pos as int, pos + pat@.len()),
            forall|j: int| 0 <= j < i ==> part[j] == pat@[j],
        decreases pat@.len() - i,
    {
        if bytes[pos + i] != pat[i] {
            assert(part[i as int] != pat@[i as int]);
            return false;
        }
        i += 1;
    }
    assert(part =~= pat@);
    true
}

/// The length in bytes that a `Q` section's length code stands for.
pub(crate) fn q_length_of(code: u8) -> (r: Option<usize>)
    ensures
        match r {
            Some(n) => q_length(code) == Some(n as nat) && 16 <= n <= 560,
            None => q_length(code).is_none(),
        },
{
    if 0x30 <= code && code <= 0x39 {
        if code <= 0x31 {
            Some(16)
        } else {
            let blocks: usize = (code - 0x30) as usize;
            Some(16 * blocks)
        }
    } else if 0x41 <= code && code <= 0x5a {
        let blocks: usize = (code - 0x41) as usize + 10;
        Some(16 * blocks)
    } else {
        None
    }
}

/// Walks the sections that follow the repository's name.
pub(crate) fn scan_sections(bytes: &[u8]) -> (r: Progress)
    requires
        bytes@.len() >= 32,
    ensures
        r@ == sections(bytes@, 32),
        r matches Progress::Ends(end) ==> end <= bytes@.len(),
{
    let tag: [u8; 4] = [0x48, 0x53, 0x55, 0x4d];
    let name: [u8; 12] = [0x20, 0x53, 0x48, 0x41, 0x2d, 0x32, 0x20, 0x32, 0x35, 0x36, 0x20, 0x20];
    assert(tag@ =~= sum_tag());
    assert(name@ =~= sum_name());
    let n = bytes.len();
    let mut pos: usize = 32;
    loop
        invariant
            32 <= pos <= n,
            n == bytes@.len(),
            tag@ == sum_tag(),
            name@ == sum_name(),
            sections(bytes@, 32) == sections(bytes@, pos as int),
        decreases n - pos,
    {
        if n - pos < 16 {
            return Progress::Wants(16 - (n - pos));
        }
        let first = bytes[pos];
        if first == 0x48 {
            if holds_at(bytes, pos, tag.as_slice()) {
                if holds_at(bytes, pos + 4, name.as_slice()) {
                    return Progress::Ends(pos + 16);
                } else {
                    return Progress::Fails(HeaderError::UnknownChecksum);
                }
            }
            pos += 16;
        } else if first == 0x51 {
            match q_length_of(bytes[pos + 1]) {
                None => {
                    return Progress::Fails(HeaderError::BadLength);
                },
                Some(len) => {
                    if n - pos < len {
                        return Progress::Wants(len - (n - pos));
                    }
                    pos += len;
                },
            }
        } else {
            return Progress::Fails(HeaderError::BadSection);
        }
    }
}

/// How far the bytes read so far carry a reader of the header: how many more it
/// must append before it can go on, or the verdict. A reader that appends what
/// is wanted each time reads no byte beyond the header.
pub fn head_progress(bytes: &[u8]) -> (r: Progress)
    ensures
        r@ == progress(bytes@),
{
    let n = bytes.len();
    if n < 16 {
        return Progress::Wants(16 - n);
    }
    let m: [u8; 16] = [
        0x50, 0x49, 0x50, 0x50, 0x49, 0x4e, 0x53, 0x53,
        0x32, 0x30, 0x31, 0x35, 0x30, 0x39, 0x32, 0x34,
    ];
    assert(m@ =~= magic());
    if !holds_at(bytes, 0, m.as_slice()) {
        return Progress::Fails(HeaderError::BadMagic);
    }
    if n < 32 {
        return Progress::Wants(32 - n);
    }
    match scan_sections(bytes) {
        Progress::Ends(end) => {
            if n - end < 32 {
                return Progress::Wants(32 - (n - end));
            }
            let sum = checksum(slice_subrange(bytes, 0, end));
            if holds_at(bytes, end, sum.as_slice()) {
                Progress::Ends(end + 32)
            } else {
                Progress::Fails(HeaderError::ChecksumMismatch)
            }
        },
        other => other,
    }
}

/// Reads the header that `bytes` starts with: the magic, the repository's name,
/// any sections, the checksum section and the checksum itself.
pub fn read_head(bytes: &[u8]) -> (r: Result<FileHeader, HeaderError>)
    ensures
        match r {
            Ok(h) => parsed(bytes@) == Ok::<_, HeaderError>(h@),
            Err(e) => parsed(bytes@) == Err::<super::HeaderView, _>(e),
        },
{
    match head_progress(bytes) {
        Progress::Wants(_) => Err(HeaderError::Truncated),
        Progress::Fails(e) => Err(e),
        Progress::Ends(size) => {
            let mut name: [u8; 16] = [0u8; 16];
            let mut i: usize = 0;
            while i < 16
                invariant
                    i <= 16,
                    bytes@.len() >= 32,
                    forall|j: int| 0 <= j < i ==> name@[j] == bytes@[16 + j],
                decreases 16 - i,
            {
                name[i] = bytes[16 + i];
                i += 1;
            }
            assert(name@ =~= bytes@.subrange(16, 32));
            Ok(FileHeader::new(name, size))
        },
    }
}

} // verus!
