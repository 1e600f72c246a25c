//! Reading blob frames back: the length prefix, the `BlobHeader` with its
//! `type` and `datasize`, and the `Blob` body, with the bounds that readers
//! enforce.
use vstd::prelude::*;
use crate::write::blob::{
    blob_header_message, blob_message, frame, frame_header, framed, BlobError, MAX_BLOB_SIZE,
    MAX_HEADER_SIZE,
};
use crate::write::wire::{be_u32, bytes_field, field_key, uint_field, varint};

verus! {

/// Decodes a base-128 varint at the start of `b`: its value and its length in
/// bytes; `None` when `b` ends before a byte without the high bit.
pub open spec fn varint_parse(b: Seq<u8>) -> Option<(int, nat)>
    decreases b.len(),
{
    if b.len() == 0 {
        None
    } else if b[0] < 128 {
        Some((b[0] as int, 1))
    } else {
        match varint_parse(b.drop_first()) {
            Some((v, n)) => Some(((b[0] - 128) + 128 * v, n + 1)),
            None => None,
        }
    }
}

/// A varint as a protobuf reader takes it: at most ten bytes, and a value
/// that fits 64 bits.
pub open spec fn varint_read(b: Seq<u8>) -> Option<(u64, nat)> {
    match varint_parse(b) {
        Some((v, n)) => if n <= 10 && v <= u64::MAX {
            Some((v as u64, n))
        } else {
            None
        },
        None => None,
    }
}

proof fn lemma_varint_parse_long(b: Seq<u8>, k: int)
    requires
        0 <= k <= b.len(),
        forall|j: int| 0 <= j < k ==> b[j] >= 128,
    ensures
        varint_parse(b) matches Some((v, n)) ==> n > k,
        k == b.len() ==> varint_parse(b) is None,
    decreases k,
{
    if k > 0 {
        lemma_varint_parse_long(b.drop_first(), k - 1);
    }
}

pub proof fn lemma_varint_parse_positive(b: Seq<u8>)
    ensures
        varint_parse(b) matches Some((v, n)) ==> v >= 0 && 1 <= n <= b.len(),
    decreases b.len(),
{
    if b.len() > 0 {
        lemma_varint_parse_positive(b.drop_first());
    }
}

proof fn lemma_varint_outer(s: Seq<u8>, i: int, v: int, m: nat)
    requires
        0 <= i <= s.len(),
        forall|j: int| 0 <= j < i ==> s[j] >= 128,
        varint_parse(s.subrange(i, s.len() as int)) == Some((v, m)),
        v >= 0,
    ensures
        varint_parse(s) matches Some((w, n)) && w >= v && n == m + i,
    decreases i,
{
    if i > 0 {
        let t = s.subrange(i - 1, s.len() as int);
        assert(t.drop_first() =~= s.subrange(i, s.len() as int));
        assert(t[0] == s[i - 1]);
        lemma_varint_outer(s, i - 1, (t[0] - 128) + 128 * v, m + 1);
    } else {
        assert(s.subrange(0, s.len() as int) =~= s);
    }
}

/// Reads the varint that starts at `pos`: its value and its length.
pub fn read_varint(b: &[u8], pos: usize) -> (r: Option<(u64, usize)>)
    requires
        pos <= b@.len(),
    ensures
        r matches Some((v, n)) ==> varint_read(b@.skip(pos as int)) == Some((v, n as nat)),
        r is None ==> varint_read(b@.skip(pos as int)) is None,
{
    let ghost s = b@.skip(pos as int);
    let mut n: usize = 0;
    while n < 10 && n < b.len() - pos && b[pos + n] >= 128
        invariant
            pos <= b@.len(),
            s == b@.skip(pos as int),
            0 <= n <= 10,
            n <= b@.len() - pos,
            forall|j: int| 0 <= j < n ==> s[j] >= 128,
        decreases 10 - n,
    {
        n = n + 1;
    }
    if n == 10 || n == b.len() - pos {
        proof {
            lemma_varint_parse_long(s, n as int);
        }
        return None;
    }
    let mut acc: u64 = b[pos + n] as u64;
    let mut i: usize = n;
    let len = b.len();
    assert(s.subrange(n as int, s.len() as int)[0] == s[n as int]);
    while i > 0
        invariant
            pos <= b@.len(),
            s == b@.skip(pos as int),
            0 <= i <= n < 10,
            n < s.len(),
            s.len() == b@.len() - pos,
            len == b@.len(),
            forall|j: int| 0 <= j < n ==> s[j] >= 128,
            varint_parse(s.subrange(i as int, s.len() as int)) == Some((acc as int, (n + 1 - i) as nat)),
        decreases i,
    {
        i = i - 1;
        assert(s.subrange(i as int, s.len() as int).drop_first() =~= s.subrange(i + 1, s.len() as int));
        assert(s[i as int] == b[pos + i]);
        if acc > 0x1ff_ffff_ffff_ffff {
            proof {
                let v = (s[i as int] - 128) + 128 * acc;
                assert(varint_parse(s.subrange(i as int, s.len() as int)) == Some((
                    v,
                    (n + 1 - i) as nat,
                )));
                assert(v > u64::MAX);
                lemma_varint_outer(s, i as int, v, (n + 1 - i) as nat);
            }
            return None;
        }
        let byte = b[pos + i];
        assert(byte == s[i as int] && byte >= 128);
        acc = acc * 128 + (byte - 128) as u64;
    }
    assert(s.subrange(0, s.len() as int) =~= s);
    Some((acc, n + 1))
}


/// What the fields of a `BlobHeader` message `m` give from byte `p` on, `typ`
/// and `ds` being what the earlier fields gave: the `type` (field 1) and the
/// `datasize` (field 3), both required; other fields are skipped.
pub open spec fn header_fields(m: Seq<u8>, p: int, typ: Option<Seq<u8>>, ds: Option<u64>) -> Option<
    (Seq<u8>, u64),
>
    decreases m.len() - p,
{
    if p < 0 || p >= m.len() {
        match (typ, ds) {
            (Some(t), Some(d)) => Some((t, d)),
            _ => None,
        }
    } else {
        match varint_read(m.subrange(p, m.len() as int)) {
            None => None,
            Some((key, kn)) => {
                let q = p + kn;
                if kn < 1 {
                    None
                } else if key % 8 == 0 {
                    match varint_read(m.subrange(q, m.len() as int)) {
                        None => None,
                        Some((v, vn)) => if q + vn > m.len() {
                            None
                        } else {
                            header_fields(
                                m,
                                q + vn,
                                typ,
                                if key / 8 == 3 {
                                    Some(v)
                                } else {
                                    ds
                                },
                            )
                        },
                    }
                } else if key % 8 == 2 {
                    match varint_read(m.subrange(q, m.len() as int)) {
                        None => None,
                        Some((l, ln)) => if q + ln + l > m.len() {
                            None
                        } else {
                            header_fields(
                                m,
                                q + ln + l,
                                if key / 8 == 1 {
                                    Some(m.subrange(q + ln, q + ln + l))
                                } else {
                                    typ
                                },
                                ds,
                            )
                        },
                    }
                } else if key % 8 == 1 {
                    if q + 8 > m.len() {
                        None
                    } else {
                        header_fields(m, q + 8, typ, ds)
                    }
                } else if key % 8 == 5 {
                    if q + 4 > m.len() {
                        None
                    } else {
                        header_fields(m, q + 4, typ, ds)
                    }
                } else {
                    None
                }
            },
        }
    }
}

/// The `type` and `datasize` of a `BlobHeader` message.
pub open spec fn blob_header_of(m: Seq<u8>) -> Option<(Seq<u8>, u64)> {
    header_fields(m, 0, None, None)
}

/// Parses a `BlobHeader` message into its `type` and `datasize`.
pub fn parse_blob_header(m: &[u8]) -> (r: Option<(Vec<u8>, u64)>)
    ensures
        r matches Some((t, d)) ==> blob_header_of(m@) == Some((t@, d)),
        r is None ==> blob_header_of(m@) is None,
{
    let len = m.len();
    let mut p: usize = 0;
    let mut typ: Option<Vec<u8>> = None;
    let mut ds: Option<u64> = None;
    let ghost tv: Option<Seq<u8>> = None;
    while p < len
        invariant
            len == m@.len(),
            p <= len,
            tv == (match typ {
                Some(t) => Some(t@),
                None => None::<Seq<u8>>,
            }),
            header_fields(m@, p as int, tv, ds) == blob_header_of(m@),
        decreases len - p,
    {
        let (key, kn) = match read_varint(m, p) {
            Some(x) => x,
            None => {
                assert(m@.skip(p as int) =~= m@.subrange(p as int, len as int));
                return None;
            },
        };
        proof {
            assert(m@.skip(p as int) =~= m@.subrange(p as int, len as int));
            lemma_varint_parse_positive(m@.skip(p as int));
        }
        let q = p + kn;
        let wt = key % 8;
        if wt == 0 {
            let (v, vn) = match read_varint(m, q) {
                Some(x) => x,
                None => {
                    assert(m@.skip(q as int) =~= m@.subrange(q as int, len as int));
                    return None;
                },
            };
            proof {
                assert(m@.skip(q as int) =~= m@.subrange(q as int, len as int));
                lemma_varint_parse_positive(m@.skip(q as int));
            }
            if key / 8 == 3 {
                ds = Some(v);
            }
            p = q + vn;
        } else if wt == 2 {
            let (l, ln) = match read_varint(m, q) {
                Some(x) => x,
                None => {
                    assert(m@.skip(q as int) =~= m@.subrange(q as int, len as int));
                    return None;
                },
            };
            proof {
                assert(m@.skip(q as int) =~= m@.subrange(q as int, len as int));
                lemma_varint_parse_positive(m@.skip(q as int));
            }
            let start = q + ln;
            if l > (len - start) as u64 {
                return None;
            }
            let end = start + l as usize;
            if key / 8 == 1 {
                let t = vstd::slice::slice_to_vec(vstd::slice::slice_subrange(m, start, end));
                proof {
                    tv = Some(t@);
                }
                typ = Some(t);
            }
            p = end;
        } else if wt == 1 {
            if len - q < 8 {
                return None;
            }
            p = q + 8;
        } else if wt == 5 {
            if len - q < 4 {
                return None;
            }
            p = q + 4;
        } else {
            return None;
        }
    }
    match (typ, ds) {
        (Some(t), Some(d)) => Some((t, d)),
        _ => None,
    }
}

/// Why a sequence of frames cannot be read.
#[derive(Debug, Clone, Copy, PartialEq, Eq, Structural)]
pub enum FrameError {
    /// The bytes end within a frame.
    UnexpectedEof,
    /// The `BlobHeader` length is zero or over [`MAX_HEADER_SIZE`].
    InvalidHeaderSize(u32),
    /// The `datasize` is over [`MAX_BLOB_SIZE`].
    InvalidDataSize(u64),
    /// A message is malformed or lacks a required field.
    Protobuf,
    /// The blob is compressed; the number is that of its data field (3
    /// `zlib_data`, 4 `lzma_data`, 5 `bzip2_data`, 6 `lz4_data`, 7
    /// `zstd_data`).
    UnsupportedCompression(u64),
    /// The blob's `raw_size` differs from the length of its `raw` data.
    RawSizeMismatch,
}

/// One frame read back.
#[derive(Debug)]
pub struct Frame {
    /// The `type` of the `BlobHeader`.
    pub typ: Vec<u8>,
    /// The bytes of the `Blob` message.
    pub body: Vec<u8>,
    /// The offset just past the frame.
    pub end: usize,
}

/// A frame as the specification sees it: type, body and end offset.
pub open spec fn frame_view(f: Frame) -> (Seq<u8>, Seq<u8>, int) {
    (f.typ@, f.body@, f.end as int)
}

/// The four bytes at `p`, most significant first.
pub open spec fn be_at(b: Seq<u8>, p: int) -> int {
    b[p] * 0x100_0000 + b[p + 1] * 0x1_0000 + b[p + 2] * 0x100 + b[p + 3]
}

/// The frame that starts at `pos`: `None` at the very end of the bytes.
pub open spec fn next_frame(b: Seq<u8>, pos: int) -> Result<Option<(Seq<u8>, Seq<u8>, int)>, FrameError> {
    if pos >= b.len() {
        Ok(None)
    } else if b.len() - pos < 4 {
        Err(FrameError::UnexpectedEof)
    } else {
        let h = be_at(b, pos);
        if h == 0 || h > MAX_HEADER_SIZE {
            Err(FrameError::InvalidHeaderSize(h as u32))
        } else if b.len() - pos - 4 < h {
            Err(FrameError::UnexpectedEof)
        } else {
            match blob_header_of(b.subrange(pos + 4, pos + 4 + h)) {
                None => Err(FrameError::Protobuf),
                Some((t, d)) => {
                    let start = pos + 4 + h;
                    if d > MAX_BLOB_SIZE {
                        Err(FrameError::InvalidDataSize(d))
                    } else if b.len() - start < d {
                        Err(FrameError::UnexpectedEof)
                    } else {
                        Ok(Some((t, b.subrange(start, start + d), start + d)))
                    }
                },
            }
        }
    }
}

/// Every frame from `pos` to the end of the bytes, or the first error.
pub open spec fn frames_from(b: Seq<u8>, pos: int) -> Result<Seq<(Seq<u8>, Seq<u8>, int)>, FrameError>
    decreases b.len() - pos,
{
    match next_frame(b, pos) {
        Err(e) => Err(e),
        Ok(None) => Ok(Seq::empty()),
        Ok(Some(f)) => if f.2 <= pos {
            Err(FrameError::Protobuf)
        } else {
            match frames_from(b, f.2) {
                Ok(rest) => Ok(seq![f] + rest),
                Err(e) => Err(e),
            }
        },
    }
}

/// Every frame of a file, or the first error.
pub open spec fn frames_of(b: Seq<u8>) -> Result<Seq<(Seq<u8>, Seq<u8>, int)>, FrameError> {
    frames_from(b, 0)
}

proof fn lemma_next_frame_advances(b: Seq<u8>, pos: int)
    requires
        0 <= pos,
    ensures
        next_frame(b, pos) matches Ok(Some(f)) ==> pos < f.2 <= b.len(),
{
}

/// Reads the frame that starts at `pos`.
pub fn read_frame(b: &[u8], pos: usize) -> (r: Result<Option<Frame>, FrameError>)
    requires
        pos <= b@.len(),
    ensures
        match r {
            Ok(Some(f)) => next_frame(b@, pos as int) == Ok::<_, FrameError>(Some(frame_view(f))),
            Ok(None) => next_frame(b@, pos as int) == Ok::<_, FrameError>(None::<(Seq<u8>, Seq<u8>, int)>),
            Err(e) => next_frame(b@, pos as int) == Err::<Option<(Seq<u8>, Seq<u8>, int)>, FrameError>(e),
        },
{
    let len = b.len();
    if pos == len {
        return Ok(None);
    }
    if len - pos < 4 {
        return Err(FrameError::UnexpectedEof);
    }
    let h: u32 = (b[pos] as u32) * 0x100_0000 + (b[pos + 1] as u32) * 0x1_0000 + (b[pos + 2] as u32)
        * 0x100 + (b[pos + 3] as u32);
    if h == 0 || h as usize > MAX_HEADER_SIZE {
        return Err(FrameError::InvalidHeaderSize(h));
    }
    let hl = h as usize;
    if len - pos - 4 < hl {
        return Err(FrameError::UnexpectedEof);
    }
    let hstart = pos + 4;
    let header = vstd::slice::slice_subrange(b, hstart, hstart + hl);
    let (t, d) = match parse_blob_header(header) {
        Some(x) => x,
        None => {
            return Err(FrameError::Protobuf);
        },
    };
    if d > MAX_BLOB_SIZE as u64 {
        return Err(FrameError::InvalidDataSize(d));
    }
    let start = hstart + hl;
    let dl = d as usize;
    if len - start < dl {
        return Err(FrameError::UnexpectedEof);
    }
    let body = vstd::slice::slice_to_vec(vstd::slice::slice_subrange(b, start, start + dl));
    Ok(Some(Frame { typ: t, body, end: start + dl }))
}

/// Reads every frame of `b`, in order.
pub fn read_frames(b: &[u8]) -> (r: Result<Vec<Frame>, FrameError>)
    ensures
        match r {
            Ok(fs) => frames_of(b@) == Ok::<_, FrameError>(fs@.map_values(|f: Frame| frame_view(f))),
            Err(e) => frames_of(b@) == Err::<Seq<(Seq<u8>, Seq<u8>, int)>, FrameError>(e),
        },
{
    let mut out: Vec<Frame> = Vec::new();
    let mut pos: usize = 0;
    loop
        invariant
            pos <= b@.len(),
            frames_of(b@) == (match frames_from(b@, pos as int) {
                Ok(rest) => Ok(out@.map_values(|f: Frame| frame_view(f)) + rest),
                Err(e) => Err(e),
            }),
        decreases b@.len() - pos,
    {
        let ghost before = out@.map_values(|f: Frame| frame_view(f));
        match read_frame(b, pos) {
            Err(e) => {
                return Err(e);
            },
            Ok(None) => {
                assert(out@.map_values(|f: Frame| frame_view(f)) + Seq::empty() =~= out@.map_values(
                    |f: Frame| frame_view(f),
                ));
                return Ok(out);
            },
            Ok(Some(f)) => {
                proof {
                    lemma_next_frame_advances(b@, pos as int);
                }
                let ghost fv = frame_view(f);
                pos = f.end;
                out.push(f);
                proof {
                    assert(out@.map_values(|f: Frame| frame_view(f)) =~= before.push(fv));
                    match frames_from(b@, pos as int) {
                        Ok(rest) => {
                            assert(before + (seq![fv] + rest) =~= before.push(fv) + rest);
                        },
                        Err(e) => {},
                    }
                }
            },
        }
    }
}

proof fn lemma_next_frame_truncated(b: Seq<u8>, pos: int, k: int)
    requires
        0 <= pos < k <= b.len(),
        next_frame(b, pos) is Ok,
        next_frame(b, pos)->Ok_0 is Some,
    ensures
        next_frame(b.take(k), pos) == (if k >= next_frame(b, pos)->Ok_0->Some_0.2 {
            next_frame(b, pos)
        } else {
            Err(FrameError::UnexpectedEof)
        }),
{
    let c = b.take(k);
    if k - pos >= 4 {
        assert(c[pos] == b[pos] && c[pos + 1] == b[pos + 1] && c[pos + 2] == b[pos + 2] && c[pos
            + 3] == b[pos + 3]);
        assert(be_at(c, pos) == be_at(b, pos));
        let h = be_at(b, pos);
        if k - pos - 4 >= h {
            assert(c.subrange(pos + 4, pos + 4 + h) =~= b.subrange(pos + 4, pos + 4 + h));
            let (t, d) = blob_header_of(b.subrange(pos + 4, pos + 4 + h))->Some_0;
            let start = pos + 4 + h;
            if k - start >= d {
                assert(c.subrange(start, start + d) =~= b.subrange(start, start + d));
            }
        }
    }
}

proof fn lemma_frames_truncated_from(b: Seq<u8>, k: int, pos: int)
    requires
        0 <= pos <= k < b.len(),
        frames_from(b, pos) is Ok,
    ensures
        match frames_from(b.take(k), pos) {
            Ok(gs) => {
                let fs = frames_from(b, pos)->Ok_0;
                &&& gs.len() < fs.len()
                &&& gs == fs.take(gs.len() as int)
                &&& k == (if gs.len() == 0 {
                    pos
                } else {
                    gs.last().2
                })
            },
            Err(e) => e == FrameError::UnexpectedEof,
        },
    decreases k - pos,
{
    let c = b.take(k);
    let f = next_frame(b, pos)->Ok_0->Some_0;
    let fs = frames_from(b, pos)->Ok_0;
    lemma_next_frame_advances(b, pos);
    let rest = frames_from(b, f.2)->Ok_0;
    assert(fs == seq![f] + rest);
    if pos == k {
        assert(next_frame(c, pos) == Ok::<_, FrameError>(None::<(Seq<u8>, Seq<u8>, int)>));
    } else {
        lemma_next_frame_truncated(b, pos, k);
        if k >= f.2 {
            lemma_frames_truncated_from(b, k, f.2);
            match frames_from(c, f.2) {
                Ok(gs2) => {
                    let gs = seq![f] + gs2;
                    assert(frames_from(c, pos) == Ok::<_, FrameError>(gs));
                    assert(gs =~= fs.take(gs.len() as int));
                },
                Err(e) => {},
            }
        }
    }
}

/// A file cut short never reads as a shorter valid file by accident: if the
/// whole file reads, then reading the first `k` bytes, `k` short of its
/// length, either stops cleanly at a frame boundary, having read exactly the
/// frames that end there, or fails with `UnexpectedEof`.
pub proof fn lemma_truncated_file(b: Seq<u8>, k: int)
    requires
        frames_of(b) is Ok,
        0 <= k < b.len(),
    ensures
        match frames_of(b.take(k)) {
            Ok(gs) => {
                let fs = frames_of(b)->Ok_0;
                &&& gs.len() < fs.len()
                &&& gs == fs.take(gs.len() as int)
                &&& k == (if gs.len() == 0 {
                    0
                } else {
                    gs.last().2
                })
            },
            Err(e) => e == FrameError::UnexpectedEof,
        },
{
    lemma_frames_truncated_from(b, k, 0);
}

/// 128 to the power `k`.
pub open spec fn pow128(k: nat) -> int
    decreases k,
{
    if k == 0 {
        1
    } else {
        128 * pow128((k - 1) as nat)
    }
}

proof fn lemma_varint_len(v: u64, k: nat)
    requires
        v < pow128(k),
        k >= 1,
    ensures
        varint(v).len() <= k,
    decreases v,
{
    if v >= 128 {
        assert(k >= 2) by {
            if k == 1 {
                assert(pow128(1) == 128 * pow128(0));
            }
        }
        assert(pow128(k) == 128 * pow128((k - 1) as nat));
        assert((v / 128) < pow128((k - 1) as nat)) by (nonlinear_arith)
            requires
                v < 128 * pow128((k - 1) as nat),
        ;
        lemma_varint_len((v / 128) as u64, (k - 1) as nat);
    }
}

/// A varint decodes to the value it encodes, whatever follows it.
pub proof fn lemma_varint_round_trip(v: u64, rest: Seq<u8>)
    ensures
        varint_read(varint(v) + rest) == Some((v, varint(v).len())),
{
    lemma_varint_parse_of(v, rest);
    reveal_with_fuel(pow128, 11);
    assert(pow128(10) == 1180591620717411303424);
    lemma_varint_len(v, 10);
}

proof fn lemma_varint_parse_of(v: u64, rest: Seq<u8>)
    ensures
        varint_parse(varint(v) + rest) == Some((v as int, varint(v).len())),
    decreases v,
{
    let b = varint(v) + rest;
    if v >= 128 {
        assert(b.drop_first() =~= varint((v / 128) as u64) + rest);
        lemma_varint_parse_of((v / 128) as u64, rest);
        assert(b[0] == (v % 128 + 128) as u8);
    } else {
        assert(b[0] == v as u8);
    }
}

/// A `BlobHeader` as the writer encodes it parses back to its type and size.
pub proof fn lemma_blob_header_round_trip(typ: Seq<u8>, d: u64)
    requires
        typ.len() <= u64::MAX,
    ensures
        blob_header_of(blob_header_message(typ, d as nat)) == Some((typ, d)),
{
    let m = blob_header_message(typ, d as nat);
    let tl = typ.len() as u64;
    let a = varint(tl);
    let tail = uint_field(3, d);
    assert(m =~= varint(10) + (a + typ + tail));
    assert(m.subrange(0, m.len() as int) =~= m);
    lemma_varint_round_trip(10, a + typ + tail);
    assert(m.subrange(1, m.len() as int) =~= a + (typ + tail));
    lemma_varint_round_trip(tl, typ + tail);
    let p: int = (1 + a.len() + typ.len()) as int;
    assert(m.subrange(1 + a.len() as int, p) =~= typ);
    assert(m.subrange(p, m.len() as int) =~= varint(24) + varint(d));
    lemma_varint_round_trip(24, varint(d));
    assert(m.subrange(p + 1, m.len() as int) =~= varint(d) + Seq::<u8>::empty());
    lemma_varint_round_trip(d, Seq::<u8>::empty());
    assert(varint(d) + Seq::<u8>::empty() =~= varint(d));
    assert(header_fields(m, p + 1 + varint(d).len() as int, Some(typ), Some(d)) == Some((typ, d)));
    assert(header_fields(m, p, Some(typ), None) == Some((typ, d)));
}

proof fn lemma_be_u32_value(h: u32)
    ensures
        be_at(be_u32(h), 0) == h,
{
    let b = be_u32(h);
    assert(b[0] == (h / 0x100_0000) as u8);
    assert(b[1] == (h / 0x1_0000 % 0x100) as u8);
    assert(b[2] == (h / 0x100 % 0x100) as u8);
    assert(b[3] == (h % 0x100) as u8);
    assert((h / 0x100_0000) as u8 * 0x100_0000 + (h / 0x1_0000 % 0x100) as u8 * 0x1_0000 + (h
        / 0x100 % 0x100) as u8 * 0x100 + (h % 0x100) as u8 == h) by (bit_vector);
}

/// A frame as the writer builds it reads back as one frame, with its type
/// and its `Blob` message.
pub proof fn lemma_frame_round_trip(typ: Seq<u8>, raw: Seq<u8>)
    requires
        blob_message(raw).len() <= MAX_BLOB_SIZE,
        frame_header(typ, raw).len() <= MAX_HEADER_SIZE,
    ensures
        frames_of(frame(typ, raw)) == Ok::<_, FrameError>(
            seq![(typ, blob_message(raw), frame(typ, raw).len() as int)],
        ),
{
    let b = frame(typ, raw);
    let h = frame_header(typ, raw);
    let body = blob_message(raw);
    lemma_be_u32_value(h.len() as u32);
    assert(b.subrange(0, 4) =~= be_u32(h.len() as u32));
    assert(be_at(b, 0) == be_at(be_u32(h.len() as u32), 0));
    assert(be_at(b, 0) == h.len());
    assert(h.len() >= 1) by {
        assert(h =~= bytes_field(1, typ) + uint_field(3, body.len() as u64));
        assert(field_key(1, 2) == varint(10));
    }
    assert(b.subrange(4, 4 + h.len() as int) =~= h);
    assert(typ.len() <= u64::MAX) by {
        assert(h =~= field_key(1, 2) + varint(typ.len() as u64) + typ + uint_field(3, body.len() as u64));
    }
    lemma_blob_header_round_trip(typ, body.len() as u64);
    let start: int = (4 + h.len()) as int;
    assert(b.subrange(start, start + body.len() as int) =~= body);
    assert(next_frame(b, 0) == Ok::<_, FrameError>(Some((typ, body, b.len() as int))));
    assert(next_frame(b, b.len() as int) == Ok::<_, FrameError>(None::<(Seq<u8>, Seq<u8>, int)>));
    assert(frames_from(b, b.len() as int) == Ok::<_, FrameError>(Seq::<(Seq<u8>, Seq<u8>, int)>::empty()));
    assert(seq![(typ, body, b.len() as int)] + Seq::<(Seq<u8>, Seq<u8>, int)>::empty() =~= seq![(typ, body, b.len() as int)]);
}

/// What the fields of a `Blob` message `m` give from byte `p` on, given what
/// the earlier fields gave: the `raw` data (field 1), the `raw_size` (field
/// 2), and the number of a compressed data field (3 to 7) if any was seen.
pub open spec fn blob_fields(
    m: Seq<u8>,
    p: int,
    raw: Option<Seq<u8>>,
    size: Option<u64>,
    packed: Option<u64>,
) -> Result<Seq<u8>, FrameError>
    decreases m.len() - p,
{
    if p < 0 || p >= m.len() {
        match packed {
            Some(f) => Err(FrameError::UnsupportedCompression(f)),
            None => match raw {
                None => Err(FrameError::Protobuf),
                Some(r) => match size {
                    Some(n) => if n == r.len() {
                        Ok(r)
                    } else {
                        Err(FrameError::RawSizeMismatch)
                    },
                    None => Ok(r),
                },
            },
        }
    } else {
        match varint_read(m.subrange(p, m.len() as int)) {
            None => Err(FrameError::Protobuf),
            Some((key, kn)) => {
                let q = p + kn;
                let field = key / 8;
                if kn < 1 {
                    Err(FrameError::Protobuf)
                } else if key % 8 == 0 {
                    match varint_read(m.subrange(q, m.len() as int)) {
                        None => Err(FrameError::Protobuf),
                        Some((v, vn)) => if q + vn > m.len() {
                            Err(FrameError::Protobuf)
                        } else {
                            blob_fields(
                                m,
                                q + vn,
                                raw,
                                if field == 2 {
                                    Some(v)
                                } else {
                                    size
                                },
                                packed,
                            )
                        },
                    }
                } else if key % 8 == 2 {
                    match varint_read(m.subrange(q, m.len() as int)) {
                        None => Err(FrameError::Protobuf),
                        Some((l, ln)) => if q + ln + l > m.len() {
                            Err(FrameError::Protobuf)
                        } else {
                            blob_fields(
                                m,
                                q + ln + l,
                                if field == 1 {
                                    Some(m.subrange(q + ln, q + ln + l))
                                } else {
                                    raw
                                },
                                size,
                                if 3 <= field <= 7 {
                                    Some(field)
                                } else {
                                    packed
                                },
                            )
                        },
                    }
                } else if key % 8 == 1 {
                    if q + 8 > m.len() {
                        Err(FrameError::Protobuf)
                    } else {
                        blob_fields(m, q + 8, raw, size, packed)
                    }
                } else if key % 8 == 5 {
                    if q + 4 > m.len() {
                        Err(FrameError::Protobuf)
                    } else {
                        blob_fields(m, q + 4, raw, size, packed)
                    }
                } else {
                    Err(FrameError::Protobuf)
                }
            },
        }
    }
}

/// The uncompressed payload of a `Blob` message.
pub open spec fn blob_payload_of(m: Seq<u8>) -> Result<Seq<u8>, FrameError> {
    blob_fields(m, 0, None, None, None)
}

/// The payload of a `Blob` message stored raw; a compressed blob is refused.
pub fn blob_payload(m: &[u8]) -> (r: Result<Vec<u8>, FrameError>)
    ensures
        match r {
            Ok(v) => blob_payload_of(m@) == Ok::<_, FrameError>(v@),
            Err(e) => blob_payload_of(m@) == Err::<Seq<u8>, FrameError>(e),
        },
{
    let len = m.len();
    let mut p: usize = 0;
    let mut raw: Option<Vec<u8>> = None;
    let mut size: Option<u64> = None;
    let mut packed: Option<u64> = None;
    let ghost rv: Option<Seq<u8>> = None;
    while p < len
        invariant
            len == m@.len(),
            p <= len,
            rv == (match raw {
                Some(t) => Some(t@),
                None => None::<Seq<u8>>,
            }),
            blob_fields(m@, p as int, rv, size, packed) == blob_payload_of(m@),
        decreases len - p,
    {
        let (key, kn) = match read_varint(m, p) {
            Some(x) => x,
            None => {
                assert(m@.skip(p as int) =~= m@.subrange(p as int, len as int));
                return Err(FrameError::Protobuf);
            },
        };
        proof {
            assert(m@.skip(p as int) =~= m@.subrange(p as int, len as int));
            lemma_varint_parse_positive(m@.skip(p as int));
        }
        let q = p + kn;
        let wt = key % 8;
        let field = key / 8;
        if wt == 0 {
            let (v, vn) = match read_varint(m, q) {
                Some(x) => x,
                None => {
                    assert(m@.skip(q as int) =~= m@.subrange(q as int, len as int));
                    return Err(FrameError::Protobuf);
                },
            };
            proof {
                assert(m@.skip(q as int) =~= m@.subrange(q as int, len as int));
                lemma_varint_parse_positive(m@.skip(q as int));
            }
            if field == 2 {
                size = Some(v);
            }
            p = q + vn;
        } else if wt == 2 {
            let (l, ln) = match read_varint(m, q) {
                Some(x) => x,
                None => {
                    assert(m@.skip(q as int) =~= m@.subrange(q as int, len as int));
                    return Err(FrameError::Protobuf);
                },
            };
            proof {
                assert(m@.skip(q as int) =~= m@.subrange(q as int, len as int));
                lemma_varint_parse_positive(m@.skip(q as int));
            }
            let start = q + ln;
            if l > (len - start) as u64 {
                return Err(FrameError::Protobuf);
            }
            let end = start + l as usize;
            if field == 1 {
                let t = vstd::slice::slice_to_vec(vstd::slice::slice_subrange(m, start, end));
                proof {
                    rv = Some(t@);
                }
                raw = Some(t);
            }
            if 3 <= field && field <= 7 {
                packed = Some(field);
            }
            p = end;
        } else if wt == 1 {
            if len - q < 8 {
                return Err(FrameError::Protobuf);
            }
            p = q + 8;
        } else if wt == 5 {
            if len - q < 4 {
                return Err(FrameError::Protobuf);
            }
            p = q + 4;
        } else {
            return Err(FrameError::Protobuf);
        }
    }
    match packed {
        Some(f) => Err(FrameError::UnsupportedCompression(f)),
        None => match raw {
            None => Err(FrameError::Protobuf),
            Some(r) => match size {
                Some(n) => if n == r.len() as u64 {
                    Ok(r)
                } else {
                    Err(FrameError::RawSizeMismatch)
                },
                None => Ok(r),
            },
        },
    }
}

/// A `Blob` as the writer encodes it gives back its payload.
pub proof fn lemma_blob_round_trip(raw: Seq<u8>)
    requires
        raw.len() <= u64::MAX,
    ensures
        blob_payload_of(blob_message(raw)) == Ok::<_, FrameError>(raw),
{
    let m = blob_message(raw);
    let rl = raw.len() as u64;
    let a = varint(rl);
    let tail = uint_field(2, rl);
    assert(m =~= varint(10) + (a + raw + tail));
    assert(m.subrange(0, m.len() as int) =~= m);
    lemma_varint_round_trip(10, a + raw + tail);
    assert(m.subrange(1, m.len() as int) =~= a + (raw + tail));
    lemma_varint_round_trip(rl, raw + tail);
    let p: int = (1 + a.len() + raw.len()) as int;
    assert(m.subrange(1 + a.len() as int, p) =~= raw);
    assert(m.subrange(p, m.len() as int) =~= varint(16) + varint(rl));
    lemma_varint_round_trip(16, varint(rl));
    assert(m.subrange(p + 1, m.len() as int) =~= varint(rl) + Seq::<u8>::empty());
    lemma_varint_round_trip(rl, Seq::<u8>::empty());
    assert(varint(rl) + Seq::<u8>::empty() =~= varint(rl));
    assert(blob_fields(m, p + 1 + varint(rl).len() as int, Some(raw), Some(rl), None) == Ok::<_, FrameError>(raw));
    assert(blob_fields(m, p, Some(raw), None, None) == Ok::<_, FrameError>(raw));
}

/// What `create_blob` returns reads back: one frame of the same type whose
/// `Blob` gives back the payload.
pub proof fn lemma_framed_round_trip(typ: Seq<u8>, raw: Seq<u8>, r: Result<Vec<u8>, BlobError>)
    requires
        framed(typ, raw, r),
        r is Ok,
    ensures
        frames_of(r->Ok_0@) == Ok::<_, FrameError>(
            seq![(typ, blob_message(raw), r->Ok_0@.len() as int)],
        ),
        blob_payload_of(blob_message(raw)) == Ok::<_, FrameError>(raw),
{
    lemma_frame_round_trip(typ, raw);
    assert(blob_message(raw) =~= bytes_field(1, raw) + uint_field(2, raw.len() as u64));
    lemma_blob_round_trip(raw);
}
} // verus!
