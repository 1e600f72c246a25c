//! Framing of one blob: the four-byte big-endian length of the `BlobHeader`,
//! the `BlobHeader` message, then the `Blob` message, its payload stored raw.
use vstd::prelude::*;
use vstd::utf8::encode_utf8;
use crate::write::wire::{
    be_u32, bytes_field, uint_field, put_be_u32, put_bytes_field, put_raw, put_uint_field,
};

verus! {

/// Largest `BlobHeader` a reader accepts, in bytes.
pub const MAX_HEADER_SIZE: usize = 64 * 1024;

/// Largest `Blob` a reader accepts, in bytes.
pub const MAX_BLOB_SIZE: usize = 32 * 1024 * 1024;

/// A frame that readers would refuse, with the size that is too large.
#[derive(Debug, Clone, Copy, PartialEq, Eq, Structural)]
pub enum BlobError {
    /// The `BlobHeader` message would be over [`MAX_HEADER_SIZE`].
    InvalidHeaderSize(usize),
    /// The `Blob` message would be over [`MAX_BLOB_SIZE`].
    InvalidDataSize(usize),
}

/// The `Blob` message holding `raw` uncompressed: `raw` (field 1) and
/// `raw_size` (field 2).
pub open spec fn blob_message(raw: Seq<u8>) -> Seq<u8> {
    bytes_field(1, raw) + uint_field(2, raw.len() as u64)
}

/// The `BlobHeader` message: `type` (field 1) and `datasize` (field 3).
pub open spec fn blob_header_message(typ: Seq<u8>, datasize: nat) -> Seq<u8> {
    bytes_field(1, typ) + uint_field(3, datasize as u64)
}

/// The header of the frame of `raw` under type `typ`.
pub open spec fn frame_header(typ: Seq<u8>, raw: Seq<u8>) -> Seq<u8> {
    blob_header_message(typ, blob_message(raw).len())
}

/// The whole frame of `raw` under type `typ`.
pub open spec fn frame(typ: Seq<u8>, raw: Seq<u8>) -> Seq<u8> {
    be_u32(frame_header(typ, raw).len() as u32) + frame_header(typ, raw) + blob_message(raw)
}

/// What framing `raw` under type `typ` gives: the frame, or the size that
/// readers would refuse.
pub open spec fn framed(typ: Seq<u8>, raw: Seq<u8>, r: Result<Vec<u8>, BlobError>) -> bool {
    if blob_message(raw).len() > MAX_BLOB_SIZE {
        r == Err::<Vec<u8>, BlobError>(BlobError::InvalidDataSize(blob_message(raw).len() as usize))
    } else if frame_header(typ, raw).len() > MAX_HEADER_SIZE {
        r == Err::<Vec<u8>, BlobError>(
            BlobError::InvalidHeaderSize(frame_header(typ, raw).len() as usize),
        )
    } else {
        r is Ok && r->Ok_0@ == frame(typ, raw)
    }
}

/// Frames `raw` as an uncompressed blob of type `typ`.
pub fn create_blob(raw: &[u8], typ: &str) -> (r: Result<Vec<u8>, BlobError>)
    ensures
        framed(encode_utf8(typ@), raw@, r),
{
    let mut blob: Vec<u8> = Vec::new();
    put_bytes_field(&mut blob, 1, raw);
    put_uint_field(&mut blob, 2, raw.len() as u64);
    assert(blob@ == blob_message(raw@));
    if blob.len() > MAX_BLOB_SIZE {
        return Err(BlobError::InvalidDataSize(blob.len()));
    }
    let mut header: Vec<u8> = Vec::new();
    put_bytes_field(&mut header, 1, typ.as_bytes());
    put_uint_field(&mut header, 3, blob.len() as u64);
    assert(header@ == frame_header(encode_utf8(typ@), raw@));
    if header.len() > MAX_HEADER_SIZE {
        return Err(BlobError::InvalidHeaderSize(header.len()));
    }
    let mut out: Vec<u8> = Vec::new();
    put_be_u32(&mut out, header.len() as u32);
    put_raw(&mut out, header.as_slice());
    put_raw(&mut out, blob.as_slice());
    assert(out@ =~= frame(encode_utf8(typ@), raw@));
    Ok(out)
}

} // verus!
