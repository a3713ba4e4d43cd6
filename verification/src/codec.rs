//! The record codec: the on-disk layout of one record,
//! `[key: 8 bytes LE][length: 4 bytes LE][value body: length bytes]`,
//! where the value body is `[id: 8 bytes LE][count: 4 bytes LE]` followed by
//! the vector's components, 8 little-endian bytes each.

use vstd::prelude::*;
use crate::bytes::{
    spec_u64_le, spec_u64_from_le, spec_u32_le, spec_u32_from_le, lemma_u64_le_round_trip,
    lemma_u32_le_round_trip, push_u64_le, push_u32_le, read_u64_le, read_u32_le,
};
use crate::error::LsmError;
use crate::model::VectorModel;
use crate::vector::Vector;

verus! {

/// The most components a vector may hold so that its encoded body's length
/// still fits the record's 32-bit length field.
pub const MAX_VEC_DATA_LEN: usize = 536870910;

/// The concatenated little-endian encodings of the vector's components.
pub open spec fn spec_data_bytes(data: Seq<u64>) -> Seq<u8>
    decreases data.len(),
{
    if data.len() == 0 {
        Seq::empty()
    } else {
        spec_data_bytes(data.drop_last()) + spec_u64_le(data.last())
    }
}

/// The byte length of a vector's encoded body.
pub open spec fn spec_value_len(v: VectorModel) -> int {
    12 + 8 * (v.data.len() as int)
}

/// The encoded body of a vector: identifier, component count, components.
pub open spec fn spec_value_bytes(v: VectorModel) -> Seq<u8> {
    spec_u64_le(v.id) + spec_u32_le(v.data.len() as u32) + spec_data_bytes(v.data)
}

/// The encoded record for `key` and `v`: key, body length, body.
pub open spec fn spec_record_bytes(key: u64, v: VectorModel) -> Seq<u8> {
    spec_u64_le(key) + spec_u32_le(spec_value_len(v) as u32) + spec_value_bytes(v)
}

/// The vector a value body parses to, when it parses.
pub open spec fn spec_decode_value(b: Seq<u8>) -> Option<VectorModel> {
    if b.len() < 12 {
        None
    } else {
        let id = spec_u64_from_le(b.subrange(0, 8));
        let n = spec_u32_from_le(b.subrange(8, 12)) as int;
        if b.len() != 12 + 8 * n {
            None
        } else {
            Some(
                VectorModel {
                    id,
                    data: Seq::new(
                        n as nat,
                        |i: int| spec_u64_from_le(b.subrange(12 + 8 * i, 20 + 8 * i)),
                    ),
                },
            )
        }
    }
}

/// The key and vector the record starting at `off` parses to, when it
/// parses: `None` when the declared length runs past the available bytes or
/// the body does not parse.
pub open spec fn spec_decode_record(b: Seq<u8>, off: int) -> Option<(u64, VectorModel)> {
    if off < 0 || off + 12 > b.len() {
        None
    } else {
        let key = spec_u64_from_le(b.subrange(off, off + 8));
        let len = spec_u32_from_le(b.subrange(off + 8, off + 12)) as int;
        if off + 12 + len > b.len() {
            None
        } else {
            match spec_decode_value(b.subrange(off + 12, off + 12 + len)) {
                Some(v) => Some((key, v)),
                None => None,
            }
        }
    }
}

/// The encoded components take eight bytes each.
pub proof fn lemma_data_bytes_len(data: Seq<u64>)
    ensures
        spec_data_bytes(data).len() == 8 * data.len(),
    decreases data.len(),
{
    if data.len() > 0 {
        lemma_data_bytes_len(data.drop_last());
    }
}

/// The bytes of the `j`-th component stand at position `8 * j` of the
/// encoded components.
pub proof fn lemma_data_bytes_index(data: Seq<u64>, j: int)
    requires
        0 <= j < data.len(),
    ensures
        spec_data_bytes(data).subrange(8 * j, 8 * j + 8) == spec_u64_le(data[j]),
    decreases data.len(),
{
    lemma_data_bytes_len(data);
    lemma_data_bytes_len(data.drop_last());
    if j == data.len() - 1 {
        assert(spec_data_bytes(data).subrange(8 * j, 8 * j + 8) =~= spec_u64_le(data.last()));
    } else {
        lemma_data_bytes_index(data.drop_last(), j);
        assert(spec_data_bytes(data).subrange(8 * j, 8 * j + 8) =~= spec_data_bytes(
            data.drop_last(),
        ).subrange(8 * j, 8 * j + 8));
    }
}

/// Appending one component extends the encoded components by its bytes.
pub proof fn lemma_data_bytes_push(data: Seq<u64>, x: u64)
    ensures
        spec_data_bytes(data.push(x)) == spec_data_bytes(data) + spec_u64_le(x),
{
    assert(data.push(x).drop_last() =~= data);
    assert(data.push(x).last() == x);
}

/// Round trip: a record encoded anywhere inside a larger byte sequence
/// decodes to the key and the vector it was encoded from.
pub proof fn lemma_record_round_trip(b: Seq<u8>, off: int, key: u64, v: VectorModel)
    requires
        0 <= off,
        v.data.len() <= MAX_VEC_DATA_LEN,
        off + spec_record_bytes(key, v).len() <= b.len(),
        b.subrange(off, off + spec_record_bytes(key, v).len() as int) == spec_record_bytes(key, v),
    ensures
        spec_decode_record(b, off) == Some((key, v)),
{
    let rb = spec_record_bytes(key, v);
    let n = v.data.len() as int;
    lemma_data_bytes_len(v.data);
    assert(rb.len() == 24 + 8 * n);
    assert forall|i: int| off <= i < off + rb.len() implies b[i] == rb[i - off] by {
        assert(rb[i - off] == b.subrange(off, off + rb.len() as int)[i - off]);
    }
    let len32 = (12 + 8 * n) as u32;
    let head = spec_u64_le(key) + spec_u32_le(len32);
    assert(rb == head + spec_value_bytes(v));
    assert(b.subrange(off, off + 8) =~= spec_u64_le(key));
    lemma_u64_le_round_trip(key);
    assert(b.subrange(off + 8, off + 12) =~= spec_u32_le(len32));
    lemma_u32_le_round_trip(len32);
    assert(len32 as int == 12 + 8 * n);
    let vb = b.subrange(off + 12, off + 12 + (12 + 8 * n));
    assert(vb =~= spec_value_bytes(v));
    assert(vb.len() == 12 + 8 * n);
    assert(vb.subrange(0, 8) =~= spec_u64_le(v.id));
    lemma_u64_le_round_trip(v.id);
    let n32 = n as u32;
    assert(vb.subrange(8, 12) =~= spec_u32_le(n32));
    lemma_u32_le_round_trip(n32);
    assert forall|i: int| 0 <= i < n implies spec_u64_from_le(
        vb.subrange(12 + 8 * i, 20 + 8 * i),
    ) == v.data[i] by {
        lemma_data_bytes_index(v.data, i);
        assert(vb.subrange(12 + 8 * i, 20 + 8 * i) =~= spec_data_bytes(v.data).subrange(
            8 * i,
            8 * i + 8,
        ));
        lemma_u64_le_round_trip(v.data[i]);
    }
    let decoded = spec_decode_value(vb);
    assert(decoded is Some);
    assert(decoded.unwrap().data =~= v.data);
    assert(decoded.unwrap() =~= v);
}

/// A record that parses keeps parsing, to the same key and vector, after
/// more bytes are appended to the sequence.
pub proof fn lemma_decode_stable(b1: Seq<u8>, b2: Seq<u8>, off: int)
    requires
        b1.len() <= b2.len(),
        b2.subrange(0, b1.len() as int) == b1,
        spec_decode_record(b1, off) is Some,
    ensures
        spec_decode_record(b2, off) == spec_decode_record(b1, off),
{
    assert forall|i: int| 0 <= i < b1.len() implies b2[i] == b1[i] by {
        assert(b2.subrange(0, b1.len() as int)[i] == b2[i]);
    }
    assert(off + 12 <= b1.len());
    assert(b2.subrange(off, off + 8) =~= b1.subrange(off, off + 8));
    assert(b2.subrange(off + 8, off + 12) =~= b1.subrange(off + 8, off + 12));
    let len = spec_u32_from_le(b1.subrange(off + 8, off + 12)) as int;
    assert(off + 12 + len <= b1.len());
    assert(b2.subrange(off + 12, off + 12 + len) =~= b1.subrange(off + 12, off + 12 + len));
}

/// Appends the record for `key` and `value` to `buf`.
pub fn encode_record(buf: &mut Vec<u8>, key: u64, value: &Vector)
    requires
        value@.data.len() <= MAX_VEC_DATA_LEN,
    ensures
        final(buf)@ == old(buf)@ + spec_record_bytes(key, value@),
{
    let data = value.data();
    let n: usize = data.len();
    let byte_len: usize = 12 + 8 * n;
    push_u64_le(buf, key);
    push_u32_le(buf, byte_len as u32);
    push_u64_le(buf, value.id());
    push_u32_le(buf, n as u32);
    let ghost head = buf@;
    let mut i: usize = 0;
    while i < n
        invariant
            i <= n,
            n == data@.len(),
            data@ == value@.data,
            buf@ == head + spec_data_bytes(data@.take(i as int)),
        decreases n - i,
    {
        push_u64_le(buf, data[i]);
        proof {
            lemma_data_bytes_push(data@.take(i as int), data@[i as int]);
            assert(data@.take(i as int).push(data@[i as int]) =~= data@.take(i as int + 1));
        }
        i += 1;
    }
    proof {
        assert(data@.take(n as int) =~= data@);
        assert(buf@ =~= old(buf)@ + spec_record_bytes(key, value@));
    }
}

/// Parses the record starting at `offset`, returning its key and vector, or
/// a malformed-record error when the bytes do not parse.
pub fn decode_record(buf: &[u8], offset: usize) -> (r: Result<(u64, Vector), LsmError>)
    ensures
        match r {
            Ok((key, v)) => spec_decode_record(buf@, offset as int) == Some((key, v@))
                && v@.data.len() <= MAX_VEC_DATA_LEN,
            Err(e) => spec_decode_record(buf@, offset as int) is None && e
                == LsmError::MalformedRecord,
        },
{
    let blen: usize = buf.len();
    if blen < 12 || offset > blen - 12 {
        return Err(LsmError::MalformedRecord);
    }
    let key: u64 = read_u64_le(buf, offset);
    let len: usize = read_u32_le(buf, offset + 8) as usize;
    if len > blen - (offset + 12) {
        return Err(LsmError::MalformedRecord);
    }
    if len < 12 {
        return Err(LsmError::MalformedRecord);
    }
    let id: u64 = read_u64_le(buf, offset + 12);
    let n: usize = read_u32_le(buf, offset + 20) as usize;
    let ghost vb = buf@.subrange(offset as int + 12, offset as int + 12 + len as int);
    proof {
        assert(vb.subrange(0, 8) =~= buf@.subrange(offset as int + 12, offset as int + 20));
        assert(vb.subrange(8, 12) =~= buf@.subrange(offset as int + 20, offset as int + 24));
    }
    if n > MAX_VEC_DATA_LEN {
        proof {
            assert(12 + 8 * (n as int) > u32::MAX);
        }
        return Err(LsmError::MalformedRecord);
    }
    if len != 12 + 8 * n {
        return Err(LsmError::MalformedRecord);
    }
    let mut data: Vec<u64> = Vec::new();
    let mut i: usize = 0;
    while i < n
        invariant
            i <= n,
            12 + 8 * n == len,
            offset + 12 + len <= buf@.len(),
            buf@.len() <= usize::MAX,
            data@.len() == i,
            forall|j: int|
                0 <= j < i ==> data@[j] == spec_u64_from_le(
                    buf@.subrange(offset + 24 + 8 * j, offset + 32 + 8 * j),
                ),
        decreases n - i,
    {
        data.push(read_u64_le(buf, offset + 24 + 8 * i));
        i += 1;
    }
    let v = Vector::new(id, data);
    proof {
        let expected = spec_decode_value(vb);
        assert(vb.len() == 12 + 8 * (n as int));
        assert forall|j: int| 0 <= j < n implies #[trigger] vb.subrange(12 + 8 * j, 20 + 8 * j)
            =~= buf@.subrange(offset + 24 + 8 * j, offset + 32 + 8 * j) by {
        }
        assert(expected is Some);
        assert(v@.data =~= expected.unwrap().data);
        assert(v@ =~= expected.unwrap());
        assert(buf@.subrange(offset as int, offset as int + 8) == buf@.subrange(
            offset as int,
            offset as int + 8,
        ));
    }
    Ok((key, v))
}

} // verus!
