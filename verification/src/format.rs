use crate::codec::{
    lemma_u32_le_bytes_round_trip, lemma_u32_le_round_trip, lemma_u64_le_bytes_round_trip,
    lemma_u64_le_round_trip, u32_from_le, u32_le, u64_from_le, u64_le,
};
use crate::model::{well_formed, Record, StoreModel};
use vstd::prelude::*;

verus! {

/// The first four bytes of every index file; they spell `FEAT`.
pub const MAGIC: u32 = 0x5441_4546;

/// The only version of the format.
pub const VERSION: u32 = 1;

/// The number of bytes in front of the first record.
pub const HEADER_LEN: usize = 24;

/// The number of bytes of one record of a store of the given dimension.
pub open spec fn record_len(dimension: u64) -> int {
    8 + 4 * dimension
}

/// The components of a vector, four little-endian bytes each.
pub open spec fn encode_vector(v: Seq<u32>) -> Seq<u8>
    decreases v.len(),
{
    if v.len() == 0 {
        Seq::empty()
    } else {
        encode_vector(v.drop_last()) + u32_le(v.last())
    }
}

/// A record: the identifier in eight little-endian bytes, then the vector.
pub open spec fn encode_record(r: Record) -> Seq<u8> {
    u64_le(r.id) + encode_vector(r.vector)
}

/// The records one after the other, in the order of the entries.
pub open spec fn encode_records(entries: Seq<Record>) -> Seq<u8>
    decreases entries.len(),
{
    if entries.len() == 0 {
        Seq::empty()
    } else {
        encode_records(entries.drop_last()) + encode_record(entries.last())
    }
}

/// The header: magic, version, dimension and entry count.
pub open spec fn encode_header(dimension: u64, count: u64) -> Seq<u8> {
    u32_le(MAGIC) + u32_le(VERSION) + u64_le(dimension) + u64_le(count)
}

/// The whole file image of a store.
pub open spec fn encode(s: StoreModel) -> Seq<u8> {
    encode_header(s.dimension, s.entries.len() as u64) + encode_records(s.entries)
}

/// The dimension that a header declares.
pub open spec fn stored_dimension(bytes: Seq<u8>) -> u64 {
    u64_from_le(bytes.subrange(8, 16))
}

/// The number of records that a header declares.
pub open spec fn stored_count(bytes: Seq<u8>) -> u64 {
    u64_from_le(bytes.subrange(16, 24))
}

/// `bytes` is a file image: a header with the right magic and version and a
/// positive dimension, followed by exactly as many whole records as the
/// header declares and nothing else.
pub open spec fn is_index_file(bytes: Seq<u8>) -> bool {
    &&& bytes.len() >= HEADER_LEN
    &&& u32_from_le(bytes.subrange(0, 4)) == MAGIC
    &&& u32_from_le(bytes.subrange(4, 8)) == VERSION
    &&& stored_dimension(bytes) > 0
    &&& bytes.len() == HEADER_LEN + stored_count(bytes) * record_len(stored_dimension(bytes))
}

/// The offset of record `index` in a file of the given dimension.
pub open spec fn record_offset(dimension: u64, index: int) -> int {
    HEADER_LEN + index * record_len(dimension)
}

/// The vector of `dimension` components that starts at byte `at`.
pub open spec fn decode_vector(bytes: Seq<u8>, at: int, dimension: u64) -> Seq<u32> {
    Seq::new(dimension as nat, |c: int| u32_from_le(bytes.subrange(at + 4 * c, at + 4 * c + 4)))
}

/// Record `index` of a file of the given dimension.
pub open spec fn decode_record(bytes: Seq<u8>, dimension: u64, index: int) -> Record {
    let at = record_offset(dimension, index);
    Record {
        id: u64_from_le(bytes.subrange(at, at + 8)),
        vector: decode_vector(bytes, at + 8, dimension),
    }
}

/// The first `count` records of a file of the given dimension.
pub open spec fn decode_records(bytes: Seq<u8>, dimension: u64, count: nat) -> Seq<Record> {
    Seq::new(count, |i: int| decode_record(bytes, dimension, i))
}

/// The store that a file image holds.
pub open spec fn decode(bytes: Seq<u8>) -> StoreModel
    recommends
        is_index_file(bytes),
{
    StoreModel {
        dimension: stored_dimension(bytes),
        entries: decode_records(bytes, stored_dimension(bytes), stored_count(bytes) as nat),
    }
}

/// An encoded vector takes four bytes for each component, and the bytes of
/// component `c` are its little-endian encoding.
pub proof fn lemma_encode_vector(v: Seq<u32>)
    ensures
        encode_vector(v).len() == 4 * v.len(),
        forall|c: int|
            0 <= c < v.len() ==> #[trigger] encode_vector(v).subrange(4 * c, 4 * c + 4) == u32_le(
                v[c],
            ),
    decreases v.len(),
{
    if v.len() > 0 {
        let front = v.drop_last();
        lemma_encode_vector(front);
        lemma_u32_le_round_trip(v.last());
        assert forall|c: int| 0 <= c < v.len() implies #[trigger] encode_vector(v).subrange(
            4 * c,
            4 * c + 4,
        ) == u32_le(v[c]) by {
            if c < front.len() {
                assert(encode_vector(v).subrange(4 * c, 4 * c + 4) =~= encode_vector(
                    front,
                ).subrange(4 * c, 4 * c + 4));
                assert(front[c] == v[c]);
            } else {
                assert(encode_vector(v).subrange(4 * c, 4 * c + 4) =~= u32_le(v.last()));
            }
        }
    }
}

/// The encoded records of a well-formed store take one record length each,
/// and record `i` stands at `i` record lengths from their start.
pub proof fn lemma_encode_records(entries: Seq<Record>, dimension: u64)
    requires
        forall|i: int| 0 <= i < entries.len() ==> (#[trigger] entries[i]).vector.len() == dimension,
    ensures
        encode_records(entries).len() == entries.len() * record_len(dimension),
        forall|i: int|
            0 <= i < entries.len() ==> #[trigger] encode_records(entries).subrange(
                i * record_len(dimension),
                i * record_len(dimension) + record_len(dimension),
            ) == encode_record(entries[i]),
    decreases entries.len(),
{
    let len = record_len(dimension);
    if entries.len() > 0 {
        let front = entries.drop_last();
        let last = entries.last();
        lemma_encode_records(front, dimension);
        lemma_encode_vector(last.vector);
        lemma_u64_le_round_trip(last.id);
        assert(encode_record(last).len() == len);
        assert(front.len() * len + len == entries.len() * len) by (nonlinear_arith)
            requires
                front.len() + 1 == entries.len(),
        ;
        assert forall|i: int| 0 <= i < entries.len() implies #[trigger] encode_records(
            entries,
        ).subrange(i * len, i * len + len) == encode_record(entries[i]) by {
            if i < front.len() {
                assert(i * len + len <= front.len() * len) by (nonlinear_arith)
                    requires
                        i + 1 <= front.len(),
                        len >= 0,
                ;
                assert(0 <= i * len) by (nonlinear_arith)
                    requires
                        0 <= i,
                        len >= 0,
                ;
                assert(encode_records(entries).subrange(i * len, i * len + len) =~= encode_records(
                    front,
                ).subrange(i * len, i * len + len));
                assert(front[i] == entries[i]);
            } else {
                assert(encode_records(entries).subrange(i * len, i * len + len) =~= encode_record(
                    last,
                ));
            }
        }
    }
}

/// The header of an image says what was written: the magic, the version,
/// the dimension and the number of entries.
pub proof fn lemma_header_round_trip(dimension: u64, count: u64, body: Seq<u8>)
    ensures
        (encode_header(dimension, count) + body).len() == HEADER_LEN + body.len(),
        u32_from_le((encode_header(dimension, count) + body).subrange(0, 4)) == MAGIC,
        u32_from_le((encode_header(dimension, count) + body).subrange(4, 8)) == VERSION,
        stored_dimension(encode_header(dimension, count) + body) == dimension,
        stored_count(encode_header(dimension, count) + body) == count,
        (encode_header(dimension, count) + body).subrange(HEADER_LEN as int, HEADER_LEN + body.len())
            == body,
{
    let bytes = encode_header(dimension, count) + body;
    lemma_u32_le_round_trip(MAGIC);
    lemma_u32_le_round_trip(VERSION);
    lemma_u64_le_round_trip(dimension);
    lemma_u64_le_round_trip(count);
    assert(bytes.subrange(0, 4) =~= u32_le(MAGIC));
    assert(bytes.subrange(4, 8) =~= u32_le(VERSION));
    assert(bytes.subrange(8, 16) =~= u64_le(dimension));
    assert(bytes.subrange(16, 24) =~= u64_le(count));
    assert(bytes.subrange(HEADER_LEN as int, HEADER_LEN + body.len()) =~= body);
}

/// Decoding the image of one record gives the record back.
pub proof fn lemma_record_round_trip(bytes: Seq<u8>, at: int, r: Record, dimension: u64)
    requires
        r.vector.len() == dimension,
        0 <= at,
        at + record_len(dimension) <= bytes.len(),
        bytes.subrange(at, at + record_len(dimension)) == encode_record(r),
    ensures
        u64_from_le(bytes.subrange(at, at + 8)) == r.id,
        decode_vector(bytes, at + 8, dimension) == r.vector,
{
    let image = bytes.subrange(at, at + record_len(dimension));
    lemma_u64_le_round_trip(r.id);
    lemma_encode_vector(r.vector);
    assert(bytes.subrange(at, at + 8) =~= image.subrange(0, 8));
    assert(image.subrange(0, 8) =~= u64_le(r.id));
    let v = decode_vector(bytes, at + 8, dimension);
    assert forall|c: int| 0 <= c < r.vector.len() implies v[c] == r.vector[c] by {
        assert(bytes.subrange(at + 8 + 4 * c, at + 8 + 4 * c + 4) =~= image.subrange(
            8 + 4 * c,
            8 + 4 * c + 4,
        ));
        assert(image.subrange(8 + 4 * c, 8 + 4 * c + 4) =~= encode_vector(r.vector).subrange(
            4 * c,
            4 * c + 4,
        ));
        lemma_u32_le_round_trip(r.vector[c]);
    }
    assert(v =~= r.vector);
}

/// Reading back what was written gives the same store: the image of a
/// well-formed store is an index file, and decoding it restores the
/// dimension and every entry, identifiers and components bit for bit, in
/// insertion order.
pub proof fn lemma_round_trip(s: StoreModel)
    requires
        well_formed(s),
    ensures
        is_index_file(encode(s)),
        decode(encode(s)) == s,
{
    let bytes = encode(s);
    let count = s.entries.len() as u64;
    let len = record_len(s.dimension);
    let body = encode_records(s.entries);
    lemma_header_round_trip(s.dimension, count, body);
    lemma_encode_records(s.entries, s.dimension);
    let back = decode(bytes);
    assert(back.entries.len() == s.entries.len());
    assert forall|i: int| 0 <= i < s.entries.len() implies back.entries[i] == s.entries[i] by {
        let r = s.entries[i];
        let at = record_offset(s.dimension, i);
        assert(0 <= i * len && i * len + len <= s.entries.len() * len) by (nonlinear_arith)
            requires
                0 <= i < s.entries.len(),
                len >= 0,
        ;
        assert(body.subrange(i * len, i * len + len) == encode_record(r));
        assert(bytes.subrange(at, at + len) =~= body.subrange(i * len, i * len + len));
        lemma_record_round_trip(bytes, at, r, s.dimension);
    }
    assert(back.entries =~= s.entries);
}

/// Encoding the first `c` components that were decoded at `at` gives the
/// bytes that they were decoded from.
pub proof fn lemma_decoded_vector(bytes: Seq<u8>, at: int, dimension: u64, c: int)
    requires
        0 <= at,
        0 <= c <= dimension,
        at + 4 * dimension <= bytes.len(),
    ensures
        encode_vector(decode_vector(bytes, at, dimension).take(c)) == bytes.subrange(at, at + 4 * c),
    decreases c,
{
    let v = decode_vector(bytes, at, dimension);
    if c == 0 {
        assert(encode_vector(v.take(0)) =~= bytes.subrange(at, at));
    } else {
        lemma_decoded_vector(bytes, at, dimension, c - 1);
        let word = bytes.subrange(at + 4 * (c - 1), at + 4 * (c - 1) + 4);
        lemma_u32_le_bytes_round_trip(word);
        assert(v.take(c).drop_last() =~= v.take(c - 1));
        assert(v.take(c).last() == u32_from_le(word));
        assert(bytes.subrange(at, at + 4 * (c - 1)) + word =~= bytes.subrange(at, at + 4 * c));
    }
}

/// Encoding the first `count` records that an image holds gives the bytes
/// that they were decoded from.
pub proof fn lemma_decoded_records(bytes: Seq<u8>, dimension: u64, count: int)
    requires
        0 <= count,
        record_offset(dimension, count) <= bytes.len(),
    ensures
        encode_records(decode_records(bytes, dimension, count as nat)) == bytes.subrange(
            HEADER_LEN as int,
            record_offset(dimension, count),
        ),
    decreases count,
{
    let len = record_len(dimension);
    let records = decode_records(bytes, dimension, count as nat);
    if count == 0 {
        assert(count * len == 0) by (nonlinear_arith)
            requires
                count == 0,
        ;
        assert(encode_records(records) =~= bytes.subrange(HEADER_LEN as int, HEADER_LEN as int));
    } else {
        let at = record_offset(dimension, count - 1);
        assert(at + len == record_offset(dimension, count) && at >= HEADER_LEN)
            by (nonlinear_arith)
            requires
                at == HEADER_LEN + (count - 1) * len,
                record_offset(dimension, count) == HEADER_LEN + count * len,
                count >= 1,
                len >= 0,
        ;
        lemma_decoded_records(bytes, dimension, count - 1);
        let last = decode_record(bytes, dimension, count - 1);
        assert(records.drop_last() =~= decode_records(bytes, dimension, (count - 1) as nat));
        assert(records.last() == last);
        lemma_u64_le_bytes_round_trip(bytes.subrange(at, at + 8));
        lemma_decoded_vector(bytes, at + 8, dimension, dimension as int);
        assert(last.vector.take(dimension as int) =~= last.vector);
        assert(encode_record(last) =~= bytes.subrange(at, at + len));
        assert(bytes.subrange(HEADER_LEN as int, at) + bytes.subrange(at, at + len)
            =~= bytes.subrange(HEADER_LEN as int, at + len));
        assert(encode_records(records) == encode_records(records.drop_last()) + encode_record(
            records.last(),
        ));
    }
}

/// An image holds a well-formed store, and it is the only image of that
/// store: writing back what was read gives the same bytes.
pub proof fn lemma_image_is_unique(bytes: Seq<u8>)
    requires
        is_index_file(bytes),
    ensures
        well_formed(decode(bytes)),
        encode(decode(bytes)) == bytes,
{
    let dimension = stored_dimension(bytes);
    let count = stored_count(bytes);
    lemma_u32_le_bytes_round_trip(bytes.subrange(0, 4));
    lemma_u32_le_bytes_round_trip(bytes.subrange(4, 8));
    lemma_u64_le_bytes_round_trip(bytes.subrange(8, 16));
    lemma_u64_le_bytes_round_trip(bytes.subrange(16, 24));
    assert(encode_header(dimension, count) =~= bytes.subrange(0, HEADER_LEN as int));
    lemma_decoded_records(bytes, dimension, count as int);
    assert(bytes.subrange(0, HEADER_LEN as int) + bytes.subrange(
        HEADER_LEN as int,
        bytes.len() as int,
    ) =~= bytes);
}

} // verus!
