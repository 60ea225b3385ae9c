//! The routing table as it is stored in each partition's file, and how a
//! stored table is taken into the one in memory.
//!
//! The block is an 8-byte tag that names the format, the number of records as
//! a 32-bit integer, and one record of 28 bytes for each partition: its
//! identifier and the largest identifier in its share (64 bits each), then
//! version, lower and upper bound (32 bits each), all least significant byte
//! first.

use crate::driver::valid_id;
use crate::le::{
    le_u32, le_u64, lemma_u32_le, lemma_u64_le, read_u32, read_u64, u32_bytes, u32_le, u64_bytes,
    u64_le,
};
use crate::routing::PartInfo;
use vstd::prelude::*;
use vstd::slice::slice_subrange;

verus! {

/// One partition's entry of the routing table.
#[derive(Clone, Copy, Debug, PartialEq, Eq, Structural)]
pub struct Record {
    /// The partition's identifier.
    pub id: u64,
    /// What the table holds for it.
    pub info: PartInfo,
}

/// Why a stored table was not read.
#[derive(Clone, Copy, Debug, PartialEq, Eq, Structural)]
pub enum MetaError {
    /// Fewer than the twelve bytes of tag and count.
    TooShort,
    /// The tag is not the expected one.
    BadTag,
    /// The length is not that of tag, count and as many records as the count says.
    WrongLength,
    /// A record holds a number that cannot be a partition's identifier.
    BadId,
}

/// The tag of the routing table of sequences by length, `SeqCSF01`.
pub open spec fn seq_tag() -> Seq<u8> {
    seq![0x53u8, 0x65u8, 0x71u8, 0x43u8, 0x53u8, 0x46u8, 0x30u8, 0x31u8]
}

/// The tag of the routing table of sequences by length, `SeqCSF01`.
pub fn seq_tag_bytes() -> (tag: [u8; 8])
    ensures
        tag@ == seq_tag(),
{
    let tag: [u8; 8] = [0x53, 0x65, 0x71, 0x43, 0x53, 0x46, 0x30, 0x31];
    assert(tag@ =~= seq_tag());
    tag
}

/// Whether the identifiers in a record can be identifiers.
pub open spec fn acceptable(r: Record) -> bool {
    valid_id(r.id) && valid_id(r.info.max_id)
}

/// The record that 28 bytes hold.
#[verifier::opaque]
pub open spec fn record_of(r: Seq<u8>) -> Record {
    Record {
        id: u64_le(r.subrange(0, 8)) as u64,
        info: PartInfo {
            max_id: u64_le(r.subrange(8, 16)) as u64,
            ver: u32_le(r.subrange(16, 20)) as u32,
            min_len: u32_le(r.subrange(20, 24)) as u32,
            max_len: u32_le(r.subrange(24, 28)) as u32,
        },
    }
}

/// The 28 bytes that hold a record.
#[verifier::opaque]
pub open spec fn record_bytes(r: Record) -> Seq<u8> {
    le_u64(r.id) + le_u64(r.info.max_id) + le_u32(r.info.ver) + le_u32(r.info.min_len) + le_u32(
        r.info.max_len,
    )
}

/// The bytes of the records, one after the other.
pub open spec fn records_bytes(recs: Seq<Record>) -> Seq<u8>
    decreases recs.len(),
{
    if recs.len() == 0 {
        Seq::empty()
    } else {
        records_bytes(recs.drop_last()) + record_bytes(recs.last())
    }
}

/// The stored form of a table: tag, count, records.
pub open spec fn encoded(tag: Seq<u8>, recs: Seq<Record>) -> Seq<u8> {
    tag + le_u32(recs.len() as u32) + records_bytes(recs)
}

/// The `i`-th record of a stored table.
pub open spec fn record_at(b: Seq<u8>, i: int) -> Record {
    record_of(b.subrange(12 + 28 * i, 40 + 28 * i))
}

/// The first `n` records of a stored table.
pub open spec fn records_in(b: Seq<u8>, n: nat) -> Seq<Record> {
    Seq::new(n, |i: int| record_at(b, i))
}

/// The records of a stored table, or why it is refused: a block shorter than
/// tag and count, another tag, a length that does not match the count exactly,
/// or a record with an impossible identifier, in this order.
pub open spec fn decoded(tag: Seq<u8>, b: Seq<u8>) -> Result<Seq<Record>, MetaError> {
    if b.len() < 12 {
        Err(MetaError::TooShort)
    } else if b.subrange(0, 8) != tag {
        Err(MetaError::BadTag)
    } else {
        let n = u32_le(b.subrange(8, 12));
        if b.len() != 12 + 28 * n {
            Err(MetaError::WrongLength)
        } else {
            let recs = records_in(b, n as nat);
            if forall|i: int| 0 <= i < n ==> acceptable(#[trigger] recs[i]) {
                Ok(recs)
            } else {
                Err(MetaError::BadId)
            }
        }
    }
}

/// Taking one stored record into a table: it is entered if the table knows
/// nothing of the partition, and replaces what the table holds only if its
/// version is strictly higher.
pub open spec fn absorb_one(table: Map<u64, PartInfo>, r: Record) -> Map<u64, PartInfo> {
    if table.dom().contains(r.id) && r.info.ver <= table[r.id].ver {
        table
    } else {
        table.insert(r.id, r.info)
    }
}

/// Taking stored records into a table, in their order.
pub open spec fn absorb_all(table: Map<u64, PartInfo>, recs: Seq<Record>) -> Map<u64, PartInfo>
    decreases recs.len(),
{
    if recs.len() == 0 {
        table
    } else {
        absorb_one(absorb_all(table, recs.drop_last()), recs.last())
    }
}

/// The records' bytes are 28 for each, and each record's bytes stand at its place.
pub proof fn lemma_records_bytes(recs: Seq<Record>, i: int)
    requires
        0 <= i < recs.len(),
    ensures
        records_bytes(recs).len() == 28 * recs.len(),
        records_bytes(recs).subrange(28 * i, 28 * i + 28) == record_bytes(recs[i]),
    decreases recs.len(),
{
    let rest = recs.drop_last();
    lemma_record_bytes(recs.last());
    lemma_records_len(rest);
    if rest.len() > 0 {
        lemma_records_bytes(rest, if i < rest.len() { i } else { 0 });
    }
    if i < rest.len() {
        assert(records_bytes(recs).subrange(28 * i, 28 * i + 28) =~= records_bytes(rest).subrange(
            28 * i,
            28 * i + 28,
        ));
    } else {
        assert(records_bytes(recs).subrange(28 * i, 28 * i + 28) =~= record_bytes(recs.last()));
    }
}

/// The records' bytes are 28 for each.
pub proof fn lemma_records_len(recs: Seq<Record>)
    ensures
        records_bytes(recs).len() == 28 * recs.len(),
    decreases recs.len(),
{
    if recs.len() > 0 {
        lemma_record_bytes(recs.last());
        lemma_records_len(recs.drop_last());
    }
}

/// A record's bytes are 28, and they hold the record.
pub proof fn lemma_record_bytes(r: Record)
    ensures
        record_bytes(r).len() == 28,
        record_of(record_bytes(r)) == r,
{
    reveal(record_bytes);
    reveal(record_of);
    let b = record_bytes(r);
    lemma_u64_le(b, r.id);
    lemma_u64_le(b, r.info.max_id);
    lemma_u32_le(b, r.info.ver);
    lemma_u32_le(b, r.info.min_len);
    lemma_u32_le(b, r.info.max_len);
    assert(b.subrange(0, 8) =~= le_u64(r.id));
    assert(b.subrange(8, 16) =~= le_u64(r.info.max_id));
    assert(b.subrange(16, 20) =~= le_u32(r.info.ver));
    assert(b.subrange(20, 24) =~= le_u32(r.info.min_len));
    assert(b.subrange(24, 28) =~= le_u32(r.info.max_len));
}

/// A table that was written is read back as it was: the same records in the
/// same order, given that there are no more than a 32-bit count can hold and
/// that their identifiers can be identifiers.
pub proof fn law_stored_table_reads_back(tag: Seq<u8>, recs: Seq<Record>)
    requires
        tag.len() == 8,
        recs.len() <= u32::MAX,
        forall|i: int| 0 <= i < recs.len() ==> acceptable(#[trigger] recs[i]),
    ensures
        decoded(tag, encoded(tag, recs)) == Ok::<_, MetaError>(recs),
{
    let b = encoded(tag, recs);
    let n = recs.len() as u32;
    lemma_u32_le(b, n);
    if recs.len() > 0 {
        lemma_records_bytes(recs, 0);
    }
    assert(b.subrange(0, 8) =~= tag);
    assert(b.subrange(8, 12) =~= le_u32(n));
    lemma_records_len(recs);
    let got = records_in(b, n as nat);
    assert forall|i: int| 0 <= i < n implies got[i] == recs[i] by {
        lemma_records_bytes(recs, i);
        lemma_record_bytes(recs[i]);
        assert(b.subrange(12 + 28 * i, 40 + 28 * i) =~= records_bytes(recs).subrange(
            28 * i,
            28 * i + 28,
        ));
    }
    assert(got =~= recs);
}

/// A record with a version that is not above the stored one changes nothing:
/// the higher version is never overwritten by a lower one.
pub proof fn law_stale_record_is_dropped(table: Map<u64, PartInfo>, r: Record)
    requires
        table.dom().contains(r.id),
        r.info.ver <= table[r.id].ver,
    ensures
        absorb_one(table, r) == table,
{
}

/// Whatever records arrive, in whatever order, a partition that the table
/// knows stays known and its version never falls.
pub proof fn law_versions_never_fall(table: Map<u64, PartInfo>, recs: Seq<Record>, id: u64)
    requires
        table.dom().contains(id),
    ensures
        absorb_all(table, recs).dom().contains(id),
        absorb_all(table, recs)[id].ver >= table[id].ver,
    decreases recs.len(),
{
    if recs.len() > 0 {
        law_versions_never_fall(table, recs.drop_last(), id);
    }
}

/// Two records give the same table in either order of arrival, unless they
/// speak of the same partition with the same version and differ: of such a
/// pair the one that arrives first stays.
pub proof fn law_arrival_order_is_immaterial(table: Map<u64, PartInfo>, a: Record, b: Record)
    requires
        !(a.id == b.id && a.info.ver == b.info.ver && a.info != b.info),
    ensures
        absorb_one(absorb_one(table, a), b) == absorb_one(absorb_one(table, b), a),
{
    assert(absorb_one(absorb_one(table, a), b) =~= absorb_one(absorb_one(table, b), a));
}

/// Reads a stored routing table.
pub fn decode(tag: &[u8; 8], buf: &[u8]) -> (r: Result<Vec<Record>, MetaError>)
    ensures
        match r {
            Ok(recs) => decoded(tag@, buf@) == Ok::<_, MetaError>(recs@),
            Err(e) => decoded(tag@, buf@) == Err::<Seq<Record>, _>(e),
        },
{
    let len = buf.len();
    if len < 12 {
        return Err(MetaError::TooShort);
    }
    if !crate::detail::read::holds_at(buf, 0, tag.as_slice()) {
        return Err(MetaError::BadTag);
    }
    let n = read_u32(slice_subrange(buf, 8, 12));
    if len as u64 != 12 + 28 * (n as u64) {
        return Err(MetaError::WrongLength);
    }
    let ghost want = records_in(buf@, n as nat);
    let mut recs: Vec<Record> = Vec::new();
    let mut i: usize = 0;
    while i < n as usize
        invariant
            i <= n,
            len == buf@.len(),
            len == 12 + 28 * n,
            buf@.subrange(0, 8) == tag@,
            n == u32_le(buf@.subrange(8, 12)),
            want == records_in(buf@, n as nat),
            recs@ == want.take(i as int),
            forall|j: int| 0 <= j < i ==> acceptable(#[trigger] want[j]),
        decreases n - i,
    {
        let at = 12 + 28 * i;
        let rec = slice_subrange(buf, at, at + 28);
        let r = Record {
            id: read_u64(slice_subrange(rec, 0, 8)),
            info: PartInfo {
                max_id: read_u64(slice_subrange(rec, 8, 16)),
                ver: read_u32(slice_subrange(rec, 16, 20)),
                min_len: read_u32(slice_subrange(rec, 20, 24)),
                max_len: read_u32(slice_subrange(rec, 24, 28)),
            },
        };
        assert(r == want[i as int]) by {
            reveal(record_of);
        }
        if !(1 <= r.id && r.id <= crate::driver::MAX_PART_ID && 1 <= r.info.max_id && r.info.max_id
            <= crate::driver::MAX_PART_ID) {
            assert(!acceptable(want[i as int]));
            return Err(MetaError::BadId);
        }
        recs.push(r);
        assert(want.take(i + 1) =~= want.take(i as int).push(r));
        i += 1;
    }
    assert(want.take(n as int) =~= want);
    Ok(recs)
}

/// Writes a routing table. There is no stored form for more records than a
/// 32-bit count can hold.
pub fn encode(tag: &[u8; 8], recs: &Vec<Record>) -> (r: Option<Vec<u8>>)
    ensures
        match r {
            Some(out) => recs@.len() <= u32::MAX && out@ == encoded(tag@, recs@),
            None => recs@.len() > u32::MAX,
        },
{
    if recs.len() > u32::MAX as usize {
        return None;
    }
    let mut out: Vec<u8> = Vec::new();
    out.extend_from_slice(tag.as_slice());
    let mut count = u32_bytes(recs.len() as u32);
    out.append(&mut count);
    let ghost head = out@;
    let mut i: usize = 0;
    while i < recs.len()
        invariant
            i <= recs@.len(),
            out@ == head + records_bytes(recs@.take(i as int)),
        decreases recs@.len() - i,
    {
        let r = recs[i];
        let mut id = u64_bytes(r.id);
        let mut max_id = u64_bytes(r.info.max_id);
        let mut ver = u32_bytes(r.info.ver);
        let mut min_len = u32_bytes(r.info.min_len);
        let mut max_len = u32_bytes(r.info.max_len);
        out.append(&mut id);
        out.append(&mut max_id);
        out.append(&mut ver);
        out.append(&mut min_len);
        out.append(&mut max_len);
        proof {
            reveal(record_bytes);
            let next = recs@.take(i + 1);
            assert(next.drop_last() =~= recs@.take(i as int));
            assert(next.last() == r);
            assert(out@ =~= head + records_bytes(next));
        }
        i += 1;
    }
    assert(recs@.take(i as int) =~= recs@);
    Some(out)
}

} // verus!
