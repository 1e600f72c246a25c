//! Protocol-buffer wire encoding of the fields that PBF messages use, and the
//! big-endian length prefix of a blob frame.
use vstd::prelude::*;
use byteorder::{BigEndian, WriteBytesExt};

verus! {

/// Base-128 varint: seven bits per byte, least significant group first, the
/// high bit set on every byte but the last.
pub open spec fn varint(v: u64) -> Seq<u8>
    decreases v,
{
    if v < 128 {
        seq![v as u8]
    } else {
        seq![(v % 128 + 128) as u8] + varint(v / 128)
    }
}

/// Zigzag mapping of a signed value: `n >= 0` to `2n`, `n < 0` to `-2n - 1`.
pub open spec fn zigzag(n: i64) -> u64 {
    if n >= 0 {
        (2 * n) as u64
    } else {
        (-2 * n - 1) as u64
    }
}

/// The four bytes of `v`, most significant first.
pub open spec fn be_u32(v: u32) -> Seq<u8> {
    seq![
        (v / 0x100_0000) as u8,
        (v / 0x1_0000 % 0x100) as u8,
        (v / 0x100 % 0x100) as u8,
        (v % 0x100) as u8,
    ]
}

/// Wire type of a varint field.
pub const WIRE_VARINT: u64 = 0;

/// Wire type of a length-delimited field.
pub const WIRE_LEN: u64 = 2;

/// The key that starts a field.
pub open spec fn field_key(field: u64, wire_type: u64) -> Seq<u8> {
    varint((field * 8 + wire_type) as u64)
}

/// A field holding an unsigned varint.
pub open spec fn uint_field(field: u64, v: u64) -> Seq<u8> {
    field_key(field, WIRE_VARINT) + varint(v)
}

/// A field holding a zigzag-coded signed varint (`sint64`).
pub open spec fn sint_field(field: u64, v: i64) -> Seq<u8> {
    uint_field(field, zigzag(v))
}

/// A length-delimited field: bytes, a string or an embedded message.
pub open spec fn bytes_field(field: u64, b: Seq<u8>) -> Seq<u8> {
    field_key(field, WIRE_LEN) + varint(b.len() as u64) + b
}

/// The varints of `vs`, one after another.
pub open spec fn varints(vs: Seq<u64>) -> Seq<u8>
    decreases vs.len(),
{
    if vs.len() == 0 {
        Seq::empty()
    } else {
        varints(vs.drop_last()) + varint(vs.last())
    }
}

/// A packed repeated field; an empty list is not written at all.
pub open spec fn packed_field(field: u64, vs: Seq<u64>) -> Seq<u8> {
    if vs.len() == 0 {
        Seq::empty()
    } else {
        bytes_field(field, varints(vs))
    }
}

/// `u32` values widened for a packed field.
pub open spec fn widen(vs: Seq<u32>) -> Seq<u64> {
    vs.map_values(|v: u32| v as u64)
}

/// Signed values zigzag-coded for a packed `sint64` field.
pub open spec fn zigzags(vs: Seq<i64>) -> Seq<u64> {
    vs.map_values(|v: i64| zigzag(v))
}

/// Relies on protobuf's `CodedOutputStream::write_raw_varint64` on a `Vec`
/// target: appends the base-128 varint of `v`; writing to a `Vec` cannot fail.
#[verifier::external_body]
pub(crate) fn put_varint(out: &mut Vec<u8>, v: u64)
    ensures
        final(out)@ == old(out)@ + varint(v),
{
    let mut os = protobuf::CodedOutputStream::vec(out);
    os.write_raw_varint64(v).unwrap();
    os.flush().unwrap();
}

/// Relies on protobuf's `CodedOutputStream::write_sint64_no_tag` on a `Vec`
/// target: appends the varint of the zigzag mapping of `v`.
#[verifier::external_body]
pub(crate) fn put_zigzag(out: &mut Vec<u8>, v: i64)
    ensures
        final(out)@ == old(out)@ + varint(zigzag(v)),
{
    let mut os = protobuf::CodedOutputStream::vec(out);
    os.write_sint64_no_tag(v).unwrap();
    os.flush().unwrap();
}

/// Relies on byteorder's `WriteBytesExt::write_u32::<BigEndian>` on a `Vec`:
/// appends the four bytes of `v`, most significant first.
#[verifier::external_body]
pub(crate) fn put_be_u32(out: &mut Vec<u8>, v: u32)
    ensures
        final(out)@ == old(out)@ + be_u32(v),
{
    out.write_u32::<BigEndian>(v).unwrap();
}

/// Appends the bytes of `b`.
pub fn put_raw(out: &mut Vec<u8>, b: &[u8])
    ensures
        final(out)@ == old(out)@ + b@,
{
    let ghost start = out@;
    let mut i: usize = 0;
    while i < b.len()
        invariant
            0 <= i <= b.len(),
            out@ == start + b@.take(i as int),
        decreases b.len() - i,
    {
        out.push(b[i]);
        i = i + 1;
        assert(out@ =~= start + b@.take(i as int));
    }
    assert(b@.take(b@.len() as int) =~= b@);
}

/// Appends the key of a field.
pub fn put_key(out: &mut Vec<u8>, field: u64, wire_type: u64)
    requires
        field < 0x1000_0000,
        wire_type < 8,
    ensures
        final(out)@ == old(out)@ + field_key(field, wire_type),
{
    put_varint(out, field * 8 + wire_type);
}

/// Appends an unsigned varint field.
pub fn put_uint_field(out: &mut Vec<u8>, field: u64, v: u64)
    requires
        field < 0x1000_0000,
    ensures
        final(out)@ == old(out)@ + uint_field(field, v),
{
    put_key(out, field, WIRE_VARINT);
    put_varint(out, v);
    assert(final(out)@ =~= old(out)@ + uint_field(field, v));
}

/// Appends a zigzag-coded signed varint field.
pub fn put_sint_field(out: &mut Vec<u8>, field: u64, v: i64)
    requires
        field < 0x1000_0000,
    ensures
        final(out)@ == old(out)@ + sint_field(field, v),
{
    put_key(out, field, WIRE_VARINT);
    put_zigzag(out, v);
    assert(final(out)@ =~= old(out)@ + sint_field(field, v));
}

/// Appends a length-delimited field.
pub fn put_bytes_field(out: &mut Vec<u8>, field: u64, b: &[u8])
    requires
        field < 0x1000_0000,
    ensures
        final(out)@ == old(out)@ + bytes_field(field, b@),
{
    put_key(out, field, WIRE_LEN);
    put_varint(out, b.len() as u64);
    put_raw(out, b);
    assert(final(out)@ =~= old(out)@ + bytes_field(field, b@));
}

/// Appends a packed repeated field of `u32` values.
pub fn put_packed_u32(out: &mut Vec<u8>, field: u64, vs: &[u32])
    requires
        field < 0x1000_0000,
    ensures
        final(out)@ == old(out)@ + packed_field(field, widen(vs@)),
{
    if vs.len() == 0 {
        assert(final(out)@ =~= old(out)@ + packed_field(field, widen(vs@)));
        return;
    }
    let mut payload: Vec<u8> = Vec::new();
    let mut i: usize = 0;
    while i < vs.len()
        invariant
            0 <= i <= vs.len(),
            payload@ == varints(widen(vs@).take(i as int)),
        decreases vs.len() - i,
    {
        put_varint(&mut payload, vs[i] as u64);
        i = i + 1;
        assert(widen(vs@).take(i as int).drop_last() =~= widen(vs@).take(i - 1));
    }
    assert(widen(vs@).take(vs@.len() as int) =~= widen(vs@));
    put_bytes_field(out, field, payload.as_slice());
}

/// Appends a packed repeated `sint64` field.
pub fn put_packed_sint(out: &mut Vec<u8>, field: u64, vs: &[i64])
    requires
        field < 0x1000_0000,
    ensures
        final(out)@ == old(out)@ + packed_field(field, zigzags(vs@)),
{
    if vs.len() == 0 {
        assert(final(out)@ =~= old(out)@ + packed_field(field, zigzags(vs@)));
        return;
    }
    let mut payload: Vec<u8> = Vec::new();
    let mut i: usize = 0;
    while i < vs.len()
        invariant
            0 <= i <= vs.len(),
            payload@ == varints(zigzags(vs@).take(i as int)),
        decreases vs.len() - i,
    {
        put_zigzag(&mut payload, vs[i]);
        i = i + 1;
        assert(zigzags(vs@).take(i as int).drop_last() =~= zigzags(vs@).take(i - 1));
    }
    assert(zigzags(vs@).take(vs@.len() as int) =~= zigzags(vs@));
    put_bytes_field(out, field, payload.as_slice());
}

} // verus!
