//! Elements that are sequences of 64-bit values, classified by their length.
//!
//! An element's bytes are its values one after the other, eight bytes each,
//! least significant byte first. What the 64 bits of a value mean (the store's
//! users keep floating-point numbers in them) is not this module's concern.

use crate::le::{le_u64, lemma_u64_le, read_u64, u64_bytes, u64_le};
use crate::state::State;
use vstd::prelude::*;
use vstd::slice::slice_subrange;

verus! {

/// The size of one value in bytes.
pub const VALUE_SIZE: usize = 8;

/// Why an element's bytes are no sequence.
#[derive(Clone, Copy, Debug, PartialEq, Eq, Structural)]
pub enum CodecError {
    /// The length is no multiple of the size of a value.
    BadLength,
    /// The sequence has more values than a classification key can count.
    TooLong,
}

/// The `i`-th value that `b` holds.
pub open spec fn value_at(b: Seq<u8>, i: int) -> u64 {
    u64_le(b.subrange(8 * i, 8 * i + 8)) as u64
}

/// The values that `b` holds.
pub open spec fn values_of(b: Seq<u8>) -> Seq<u64> {
    Seq::new((b.len() / 8) as nat, |i: int| value_at(b, i))
}

/// The bytes that hold the values `v`.
pub open spec fn bytes_of_values(v: Seq<u64>) -> Seq<u8>
    decreases v.len(),
{
    if v.len() == 0 {
        Seq::empty()
    } else {
        bytes_of_values(v.drop_last()) + le_u64(v.last())
    }
}

/// The classification key of an element: the number of its values.
pub open spec fn key_of(b: Seq<u8>) -> Result<u32, CodecError> {
    if b.len() % 8 != 0 {
        Err(CodecError::BadLength)
    } else if b.len() / 8 > u32::MAX {
        Err(CodecError::TooLong)
    } else {
        Ok((b.len() / 8) as u32)
    }
}

/// The bytes of `v` are eight for each value, and each value stands at its place.
pub proof fn lemma_bytes_of_values(v: Seq<u64>, i: int)
    requires
        0 <= i < v.len(),
    ensures
        bytes_of_values(v).len() == 8 * v.len(),
        bytes_of_values(v).subrange(8 * i, 8 * i + 8) == le_u64(v[i]),
    decreases v.len(),
{
    let rest = v.drop_last();
    lemma_values_len(rest);
    lemma_u64_le(Seq::empty(), v.last());
    if i < rest.len() {
        lemma_bytes_of_values(rest, i);
        assert(bytes_of_values(v).subrange(8 * i, 8 * i + 8) =~= bytes_of_values(rest).subrange(
            8 * i,
            8 * i + 8,
        ));
    } else {
        assert(bytes_of_values(v).subrange(8 * i, 8 * i + 8) =~= le_u64(v.last()));
    }
}

/// The bytes of `v` are eight for each value.
pub proof fn lemma_values_len(v: Seq<u64>)
    ensures
        bytes_of_values(v).len() == 8 * v.len(),
    decreases v.len(),
{
    if v.len() > 0 {
        lemma_values_len(v.drop_last());
        lemma_u64_le(Seq::empty(), v.last());
    }
}

/// A sequence that was written is read back as it was.
pub proof fn law_written_sequence_reads_back(v: Seq<u64>)
    ensures
        bytes_of_values(v).len() % 8 == 0,
        values_of(bytes_of_values(v)) == v,
{
    let b = bytes_of_values(v);
    lemma_values_len(v);
    assert forall|i: int| 0 <= i < v.len() implies values_of(b)[i] == v[i] by {
        lemma_bytes_of_values(v, i);
        lemma_u64_le(Seq::empty(), v[i]);
    }
    assert(values_of(b) =~= v);
}

/// Reads a sequence from an element's bytes.
pub fn read_buf(buf: &[u8]) -> (r: Result<Vec<u64>, CodecError>)
    ensures
        match r {
            Ok(v) => buf@.len() % 8 == 0 && v@ == values_of(buf@),
            Err(e) => buf@.len() % 8 != 0 && e == CodecError::BadLength,
        },
{
    if buf.len() % VALUE_SIZE != 0 {
        return Err(CodecError::BadLength);
    }
    let len = buf.len();
    let n = len / VALUE_SIZE;
    assert(len == 8 * n);
    let mut v: Vec<u64> = Vec::new();
    let mut i: usize = 0;
    while i < n
        invariant
            i <= n,
            len == buf@.len(),
            len == 8 * n,
            v@ == values_of(buf@).take(i as int),
        decreases n - i,
    {
        let x = read_u64(slice_subrange(buf, 8 * i, 8 * i + 8));
        v.push(x);
        assert(values_of(buf@).take(i + 1) =~= values_of(buf@).take(i as int).push(x));
        i += 1;
    }
    assert(values_of(buf@).take(n as int) =~= values_of(buf@));
    Ok(v)
}

/// Writes a sequence as an element's bytes.
pub fn write_buf(v: &[u64]) -> (out: Vec<u8>)
    ensures
        out@ == bytes_of_values(v@),
{
    let mut out: Vec<u8> = Vec::new();
    let mut i: usize = 0;
    while i < v.len()
        invariant
            i <= v@.len(),
            out@ == bytes_of_values(v@.take(i as int)),
        decreases v@.len() - i,
    {
        let mut bytes = u64_bytes(v[i]);
        out.append(&mut bytes);
        proof {
            let next = v@.take(i + 1);
            assert(next.drop_last() =~= v@.take(i as int));
            assert(next.last() == v@[i as int]);
        }
        i += 1;
    }
    assert(v@.take(i as int) =~= v@);
    out
}

/// The classification key of an element: the number of its values.
pub fn key(buf: &[u8]) -> (r: Result<u32, CodecError>)
    ensures
        r == key_of(buf@),
{
    if buf.len() % VALUE_SIZE != 0 {
        return Err(CodecError::BadLength);
    }
    let n = buf.len() / VALUE_SIZE;
    if n > u32::MAX as usize {
        return Err(CodecError::TooLong);
    }
    Ok(n as u32)
}

/// The classification keys of the elements of a state, in the order of their
/// identifiers: what a partition is divided by. The first element that has no
/// key stops it.
pub fn keys(state: &State) -> (r: Result<Vec<u32>, CodecError>)
    requires
        state.wf(),
    ensures
        match r {
            Ok(k) => {
                &&& k@.len() == state.ids().len()
                &&& forall|i: int|
                    0 <= i < k@.len() ==> key_of(state@[#[trigger] state.ids()[i]]) == Ok::<
                        _,
                        CodecError,
                    >(k@[i])
            },
            Err(e) => exists|i: int|
                {
                    &&& 0 <= i < state.ids().len()
                    &&& key_of(state@[#[trigger] state.ids()[i]]) == Err::<u32, _>(e)
                    &&& forall|j: int| 0 <= j < i ==> key_of(state@[#[trigger] state.ids()[j]]) is Ok
                },
        },
{
    let n = state.num_elements();
    let mut out: Vec<u32> = Vec::new();
    let mut i: usize = 0;
    while i < n
        invariant
            i <= n,
            n == state.ids().len(),
            state.wf(),
            out@.len() == i,
            forall|j: int|
                0 <= j < i ==> key_of(state@[#[trigger] state.ids()[j]]) == Ok::<_, CodecError>(
                    out@[j],
                ),
        decreases n - i,
    {
        match key(state.elt_at(i).as_slice()) {
            Ok(k) => {
                out.push(k);
            },
            Err(e) => {
                assert(0 <= i < state.ids().len() && key_of(state@[state.ids()[i as int]])
                    == Err::<u32, _>(e) && forall|j: int|
                    0 <= j < i ==> key_of(state@[#[trigger] state.ids()[j]]) is Ok);
                return Err(e);
            },
        }
        i += 1;
    }
    Ok(out)
}

} // verus!
