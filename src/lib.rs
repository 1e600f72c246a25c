//! OpenStreetMap PBF data: bounding boxes, the deduplicating string table,
//! delta coding, the primitive block encoder and the header encoder, down to
//! the framed bytes of each blob; and, the other way, reading blob frames,
//! raw blob payloads and header blocks back.

pub mod read;
pub mod write;

pub use write::{bbox, blob, delta, encode, header, strings, wire, write_block};
pub use write::bbox::Bbox;
pub use write::blob::BlobError;
pub use write::delta::{decode_stream, encode_stream, DeltaDec, DeltaEnc};
pub use write::header::HeaderBlock;
pub use write::strings::{StrInfo, StringTableBuilder};
pub use write::write_block::{PrimitiveBlock, PrimitiveBlockOptions, RelMemberType};
pub use read::frames::{blob_payload, read_frames, Frame, FrameError};
