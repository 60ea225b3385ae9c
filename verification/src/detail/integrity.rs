//! What the checksum and the layout of a header guarantee.

use super::sum::sha256;
use super::{parsed, q_length, sections, sum_tag, HeaderError, Scan};
use vstd::prelude::*;

verus! {

/// Where the sections end lies behind the checksum section and inside the input.
pub proof fn lemma_sections_end(b: Seq<u8>, pos: int, end: nat)
    requires
        0 <= pos,
        sections(b, pos) == Scan::Ends(end),
    ensures
        pos + 16 <= end <= b.len(),
    decreases b.len() - pos,
{
    if b[pos] == 0x48 {
        if b.subrange(pos, pos + 4) != sum_tag() {
            lemma_sections_end(b, pos + 16, end);
        }
    } else {
        lemma_sections_end(b, pos + q_length(b[pos + 1]).unwrap(), end);
    }
}

/// The verdict on the sections rests on the bytes of the sections alone: an
/// input that holds the same bytes there ends them at the same place.
pub proof fn lemma_sections_same(a: Seq<u8>, b: Seq<u8>, pos: int, end: nat)
    requires
        0 <= pos,
        sections(a, pos) == Scan::Ends(end),
        end <= b.len(),
        forall|j: int| pos <= j < end ==> a[j] == b[j],
    ensures
        sections(b, pos) == Scan::Ends(end),
    decreases a.len() - pos,
{
    lemma_sections_end(a, pos, end);
    assert(a.subrange(pos, pos + 4) =~= b.subrange(pos, pos + 4));
    assert(a.subrange(pos + 4, pos + 16) =~= b.subrange(pos + 4, pos + 16));
    if a[pos] == 0x48 {
        if a.subrange(pos, pos + 4) != sum_tag() {
            lemma_sections_same(a, b, pos + 16, end);
        }
    } else {
        let len = q_length(a[pos + 1]).unwrap();
        lemma_sections_end(a, pos + len, end);
        lemma_sections_same(a, b, pos + len, end);
    }
}

/// Cut anywhere before their end, the sections want more bytes.
pub proof fn lemma_sections_cut(b: Seq<u8>, pos: int, end: nat, k: int)
    requires
        0 <= pos,
        sections(b, pos) == Scan::Ends(end),
        0 <= k < end,
    ensures
        sections(b.subrange(0, k), pos) is Wants,
    decreases b.len() - pos,
{
    lemma_sections_end(b, pos, end);
    let t = b.subrange(0, k);
    if k >= pos + 16 {
        assert(t.subrange(pos, pos + 4) =~= b.subrange(pos, pos + 4));
        assert(t.subrange(pos + 4, pos + 16) =~= b.subrange(pos + 4, pos + 16));
        if b[pos] == 0x48 {
            if b.subrange(pos, pos + 4) != sum_tag() {
                lemma_sections_cut(b, pos + 16, end, k);
            }
        } else {
            let len = q_length(b[pos + 1]).unwrap();
            if k >= pos + len {
                lemma_sections_cut(b, pos + len, end, k);
            }
        }
    }
}

/// A header that was accepted is accepted whatever follows it, with the same
/// name and the same length: the body of a file has no part in the verdict.
pub proof fn law_body_ignored(head: Seq<u8>, body: Seq<u8>)
    requires
        parsed(head) is Ok,
    ensures
        parsed(head + body) == parsed(head),
{
    let end: int = sections(head, 32)->Ends_0 as int;
    let file = head + body;
    lemma_sections_same(head, file, 32, end as nat);
    assert(file.subrange(0, 16) =~= head.subrange(0, 16));
    assert(file.subrange(16, 32) =~= head.subrange(16, 32));
    assert(file.subrange(0, end) =~= head.subrange(0, end));
    assert(file.subrange(end, end + 32) =~= head.subrange(end, end + 32));
}

/// A header cut short anywhere, the checksum included, is reported as
/// truncated: no prefix of an accepted header is itself accepted, or rejected
/// for another reason.
pub proof fn law_cut_is_truncated(file: Seq<u8>, k: int)
    requires
        parsed(file) is Ok,
        0 <= k < parsed(file)->Ok_0.size,
    ensures
        parsed(file.subrange(0, k)) == Err::<super::HeaderView, _>(HeaderError::Truncated),
{
    let end: int = sections(file, 32)->Ends_0 as int;
    let t = file.subrange(0, k);
    if k >= 16 {
        assert(t.subrange(0, 16) =~= file.subrange(0, 16));
    }
    if k >= 32 {
        if k < end {
            lemma_sections_cut(file, 32, end as nat, k);
        } else {
            lemma_sections_same(file, t, 32, end as nat);
        }
    }
}

/// Changing one byte of an accepted header is noticed wherever the layout of
/// the sections survives it. In the magic the file is no longer of this
/// format. In the stored checksum the check fails. A change to the repository's
/// name leaves the layout as it is, and wherever the layout is left as it is the
/// check fails, unless the changed bytes have the digest of the unchanged ones.
/// (A change inside a section may move the end of the sections; what is then
/// accepted is again only what carries the digest of all that precedes it.)
pub proof fn law_changed_byte(file: Seq<u8>, i: int, v: u8)
    requires
        parsed(file) is Ok,
        0 <= i < parsed(file)->Ok_0.size,
        v != file[i],
    ensures
        ({
            let changed = file.update(i, v);
            let end: int = parsed(file)->Ok_0.size - 32;
            &&& i < 16 ==> parsed(changed) == Err::<super::HeaderView, _>(HeaderError::BadMagic)
            &&& i >= end ==> parsed(changed) == Err::<super::HeaderView, _>(
                HeaderError::ChecksumMismatch,
            )
            &&& 16 <= i < 32 ==> sections(changed, 32) == Scan::Ends(end as nat)
            &&& 16 <= i < end && sections(changed, 32) == Scan::Ends(end as nat) && sha256(
                changed.subrange(0, end),
            ) != sha256(file.subrange(0, end)) ==> parsed(changed) == Err::<super::HeaderView, _>(
                HeaderError::ChecksumMismatch,
            )
        }),
{
    let changed = file.update(i, v);
    let end: int = sections(file, 32)->Ends_0 as int;
    lemma_sections_end(file, 32, end as nat);
    if i < 16 {
        assert(changed.subrange(0, 16)[i] != file.subrange(0, 16)[i]);
    } else {
        assert(changed.subrange(0, 16) =~= file.subrange(0, 16));
        if i >= end {
            lemma_sections_same(file, changed, 32, end as nat);
            assert(changed.subrange(0, end) =~= file.subrange(0, end));
            assert(changed.subrange(end, end + 32)[i - end] != file.subrange(end, end + 32)[i
                - end]);
        } else {
            if i < 32 {
                lemma_sections_same(file, changed, 32, end as nat);
            }
            assert(changed.subrange(end, end + 32) =~= file.subrange(end, end + 32));
        }
    }
}

} // verus!
