//! The file format: what opens every file of the store, and how it is read
//! and written.

use vstd::prelude::*;

pub mod integrity;
pub mod read;
pub mod sum;
pub mod write;

pub use self::read::head_progress;
pub use self::read::read_head;
pub use self::write::write_head;
pub use self::write::write_head_with;

verus! {

/// Why a header was not accepted.
#[derive(Clone, Copy, Debug, PartialEq, Eq, Structural)]
pub enum HeaderError {
    /// The input ends before the header does.
    Truncated,
    /// The first sixteen bytes are not the store's magic.
    BadMagic,
    /// A section opens with a byte that is neither `H` nor `Q`.
    BadSection,
    /// A `Q` section whose length code is outside `0-9`, `A-Z`.
    BadLength,
    /// The checksum section names a digest other than SHA-2 256.
    UnknownChecksum,
    /// The bytes after the checksum section are not the digest of the bytes before them.
    ChecksumMismatch,
}

/// How far a reader got with the bytes it was given (the mathematical form).
pub enum Scan {
    /// No verdict yet: this many more bytes must be appended first.
    Wants(nat),
    /// The header is rejected.
    Fails(HeaderError),
    /// The header is accepted and is this many bytes long.
    Ends(nat),
}

/// How far a reader got with the bytes it was given.
#[derive(Clone, Copy, Debug, PartialEq, Eq)]
pub enum Progress {
    /// No verdict yet: this many more bytes must be appended first.
    Wants(usize),
    /// The header is rejected.
    Fails(HeaderError),
    /// The header is accepted and is this many bytes long.
    Ends(usize),
}

impl View for Progress {
    type V = Scan;

    open spec fn view(&self) -> Scan {
        match *self {
            Progress::Wants(n) => Scan::Wants(n as nat),
            Progress::Fails(e) => Scan::Fails(e),
            Progress::Ends(n) => Scan::Ends(n as nat),
        }
    }
}

/// What a header says, as plain values.
pub struct HeaderView {
    /// The repository's name, sixteen bytes.
    pub name: Seq<u8>,
    /// The header's length in bytes, checksum included.
    pub size: nat,
}

/// Information stored in a file header.
#[derive(Clone, Copy, Debug, PartialEq, Eq)]
pub struct FileHeader {
    name: [u8; 16],
    size: usize,
}

impl View for FileHeader {
    type V = HeaderView;

    closed spec fn view(&self) -> HeaderView {
        HeaderView { name: self.name@, size: self.size as nat }
    }
}

impl FileHeader {
    pub(crate) fn new(name: [u8; 16], size: usize) -> (h: FileHeader)
        ensures
            h@.name == name@,
            h@.size == size,
    {
        FileHeader { name, size }
    }

    /// The repository's name.
    pub fn name(&self) -> (r: &[u8; 16])
        ensures
            r@ == self@.name,
    {
        &self.name
    }

    /// The header's length in bytes, checksum included: where the file's body starts.
    pub fn size(&self) -> (r: usize)
        ensures
            r == self@.size,
    {
        self.size
    }
}

/// The sixteen bytes that open every file, `PIPPINSS20150924`.
pub open spec fn magic() -> Seq<u8> {
    seq![
        0x50u8, 0x49u8, 0x50u8, 0x50u8, 0x49u8, 0x4eu8, 0x53u8, 0x53u8,
        0x32u8, 0x30u8, 0x31u8, 0x35u8, 0x30u8, 0x39u8, 0x32u8, 0x34u8,
    ]
}

/// The tag of the checksum section, `HSUM`.
pub open spec fn sum_tag() -> Seq<u8> {
    seq![0x48u8, 0x53u8, 0x55u8, 0x4du8]
}

/// The one digest the format knows, as the checksum section names it: ` SHA-2 256  `.
pub open spec fn sum_name() -> Seq<u8> {
    seq![
        0x20u8, 0x53u8, 0x48u8, 0x41u8, 0x2du8, 0x32u8,
        0x20u8, 0x32u8, 0x35u8, 0x36u8, 0x20u8, 0x20u8,
    ]
}

/// The length of a `Q` section in bytes, from its length code: the code counts
/// blocks of sixteen bytes, `0`-`9` then `A`-`Z` for ten to thirty-five, and the
/// block that holds the code is always part of the section.
pub open spec fn q_length(code: u8) -> Option<nat> {
    if 0x30 <= code <= 0x39 {
        if code <= 0x31 {
            Some(16nat)
        } else {
            Some((16 * (code - 0x30)) as nat)
        }
    } else if 0x41 <= code <= 0x5a {
        Some((16 * (code - 0x41 + 10)) as nat)
    } else {
        None
    }
}

/// Reads the sections of `b` from `pos` on, up to and with the checksum section.
/// `Ends` holds the position behind that section.
pub open spec fn sections(b: Seq<u8>, pos: int) -> Scan
    decreases b.len() - pos,
{
    if pos < 0 || b.len() < pos + 16 {
        Scan::Wants((pos + 16 - b.len()) as nat)
    } else if b[pos] == 0x48 {
        if b.subrange(pos, pos + 4) == sum_tag() {
            if b.subrange(pos + 4, pos + 16) == sum_name() {
                Scan::Ends((pos + 16) as nat)
            } else {
                Scan::Fails(HeaderError::UnknownChecksum)
            }
        } else {
            sections(b, pos + 16)
        }
    } else if b[pos] == 0x51 {
        match q_length(b[pos + 1]) {
            None => Scan::Fails(HeaderError::BadLength),
            Some(len) => if b.len() < pos + len {
                Scan::Wants((pos + len - b.len()) as nat)
            } else {
                sections(b, pos + len)
            },
        }
    } else {
        Scan::Fails(HeaderError::BadSection)
    }
}

/// The verdict on `b` as the start of a file: magic, name, sections, then the
/// digest of everything before it.
pub open spec fn progress(b: Seq<u8>) -> Scan {
    if b.len() < 16 {
        Scan::Wants((16 - b.len()) as nat)
    } else if b.subrange(0, 16) != magic() {
        Scan::Fails(HeaderError::BadMagic)
    } else if b.len() < 32 {
        Scan::Wants((32 - b.len()) as nat)
    } else {
        match sections(b, 32) {
            Scan::Ends(end) => if b.len() < end + 32 {
                Scan::Wants((end + 32 - b.len()) as nat)
            } else if b.subrange(end as int, end as int + 32) != sum::sha256(b.subrange(0, end as int)) {
                Scan::Fails(HeaderError::ChecksumMismatch)
            } else {
                Scan::Ends(end + 32)
            },
            other => other,
        }
    }
}

/// What reading a header from `b` gives: the input counts as truncated as long
/// as more bytes are wanted.
pub open spec fn parsed(b: Seq<u8>) -> Result<HeaderView, HeaderError> {
    match progress(b) {
        Scan::Wants(_) => Err(HeaderError::Truncated),
        Scan::Fails(e) => Err(e),
        Scan::Ends(n) => Ok(HeaderView { name: b.subrange(16, 32), size: n }),
    }
}

/// What the checksum of a header with the sections `extra` covers: magic,
/// name, the sections, and the checksum section.
pub open spec fn head_body(name: Seq<u8>, extra: Seq<u8>) -> Seq<u8> {
    magic() + name + extra + sum_tag() + sum_name()
}

/// A header with the sections `extra`: what the checksum covers, and the checksum.
pub open spec fn head_bytes_with(name: Seq<u8>, extra: Seq<u8>) -> Seq<u8> {
    head_body(name, extra) + sum::sha256(head_body(name, extra))
}

/// A header without further sections: magic, name, checksum section, digest.
pub open spec fn head_bytes(name: Seq<u8>) -> Seq<u8> {
    head_bytes_with(name, Seq::empty())
}

/// Why `extra` cannot stand between a header's name and its checksum section,
/// if it cannot: it has to be whole `H` and `Q` sections, none of them the
/// checksum's.
pub open spec fn extra_refused(name: Seq<u8>, extra: Seq<u8>) -> Option<HeaderError> {
    match sections(head_body(name, extra), 32) {
        Scan::Wants(_) => Some(HeaderError::Truncated),
        Scan::Fails(e) => Some(e),
        Scan::Ends(end) => if end == head_body(name, extra).len() {
            None
        } else {
            Some(HeaderError::BadSection)
        },
    }
}

} // verus!
