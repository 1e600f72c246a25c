//! Reading an `OSMHeader` block back: its feature lists, bounding box and
//! writing program.
use vstd::prelude::*;
use crate::read::fields::lemma_split;
use crate::read::frames::{
    blob_payload_of, frames_of, lemma_framed_round_trip, lemma_varint_round_trip, read_varint,
    varint_read, FrameError,
};
use crate::write::blob::{blob_message, framed, BlobError};
use crate::write::bbox::Bbox;
use crate::write::encode::embedded;
use crate::write::header::{bbox_message, utf8_all, HeaderBlock};
use crate::write::wire::{bytes_field, field_key, sint_field, varint, zigzag};
use vstd::utf8::encode_utf8;

verus! {

/// The inverse of the zigzag mapping.
pub open spec fn unzigzag(n: u64) -> i64 {
    if n % 2 == 0 {
        (n / 2) as i64
    } else {
        (-((n / 2) as int) - 1) as i64
    }
}

/// Undoes the zigzag mapping of a signed varint.
pub fn decode_zigzag(n: u64) -> (r: i64)
    ensures
        r == unzigzag(n),
{
    if n % 2 == 0 {
        (n / 2) as i64
    } else {
        -((n / 2) as i64) - 1
    }
}

pub proof fn lemma_unzigzag(v: i64)
    ensures
        unzigzag(zigzag(v)) == v,
{
}

/// What the fields of a `HeaderBBox` message give from byte `p` on: `left`
/// (1), `right` (2), `top` (3) and `bottom` (4), all required.
pub open spec fn bbox_fields(
    m: Seq<u8>,
    p: int,
    l: Option<i64>,
    r: Option<i64>,
    t: Option<i64>,
    b: Option<i64>,
) -> Option<Bbox>
    decreases m.len() - p,
{
    if p < 0 || p >= m.len() {
        match (l, r, t, b) {
            (Some(l), Some(r), Some(t), Some(b)) => Some(Bbox { left: l, right: r, top: t, bottom: b }),
            _ => None,
        }
    } else {
        match varint_read(m.subrange(p, m.len() as int)) {
            None => None,
            Some((key, kn)) => {
                let q = p + kn;
                let f = key / 8;
                if kn < 1 || key % 8 != 0 {
                    None
                } else {
                    match varint_read(m.subrange(q, m.len() as int)) {
                        None => None,
                        Some((v, vn)) => if q + vn > m.len() {
                            None
                        } else {
                            let x = unzigzag(v);
                            bbox_fields(
                                m,
                                q + vn,
                                if f == 1 { Some(x) } else { l },
                                if f == 2 { Some(x) } else { r },
                                if f == 3 { Some(x) } else { t },
                                if f == 4 { Some(x) } else { b },
                            )
                        },
                    }
                }
            },
        }
    }
}

/// The bounding box of a `HeaderBBox` message.
pub open spec fn bbox_of(m: Seq<u8>) -> Option<Bbox> {
    bbox_fields(m, 0, None, None, None, None)
}

/// A decoded header: required features, optional features, bounding box and
/// writing program.
pub type HeaderView = (Seq<Seq<u8>>, Seq<Seq<u8>>, Option<Bbox>, Option<Seq<u8>>);

/// What the fields of a `HeaderBlock` message give from byte `p` on, given
/// what the earlier fields gave: the bounding box (1), the required (4) and
/// optional (5) features and the writing program (16); other fields are
/// skipped.
pub open spec fn header_block_fields(
    m: Seq<u8>,
    p: int,
    req: Seq<Seq<u8>>,
    opt: Seq<Seq<u8>>,
    bbox: Option<Bbox>,
    wp: Option<Seq<u8>>,
) -> Option<HeaderView>
    decreases m.len() - p,
{
    if p < 0 || p >= m.len() {
        Some((req, opt, bbox, wp))
    } else {
        match varint_read(m.subrange(p, m.len() as int)) {
            None => None,
            Some((key, kn)) => {
                let q = p + kn;
                let f = key / 8;
                if kn < 1 {
                    None
                } else if key % 8 == 0 {
                    match varint_read(m.subrange(q, m.len() as int)) {
                        None => None,
                        Some((v, vn)) => if q + vn > m.len() {
                            None
                        } else {
                            header_block_fields(m, q + vn, req, opt, bbox, wp)
                        },
                    }
                } else if key % 8 == 2 {
                    match varint_read(m.subrange(q, m.len() as int)) {
                        None => None,
                        Some((len, ln)) => if q + ln + len > m.len() {
                            None
                        } else {
                            let s = m.subrange(q + ln, q + ln + len);
                            let next = q + ln + len;
                            if f == 1 {
                                match bbox_of(s) {
                                    None => None,
                                    Some(bb) => header_block_fields(m, next, req, opt, Some(bb), wp),
                                }
                            } else if f == 4 {
                                header_block_fields(m, next, req.push(s), opt, bbox, wp)
                            } else if f == 5 {
                                header_block_fields(m, next, req, opt.push(s), bbox, wp)
                            } else if f == 16 {
                                header_block_fields(m, next, req, opt, bbox, Some(s))
                            } else {
                                header_block_fields(m, next, req, opt, bbox, wp)
                            }
                        },
                    }
                } else if key % 8 == 1 {
                    if q + 8 > m.len() {
                        None
                    } else {
                        header_block_fields(m, q + 8, req, opt, bbox, wp)
                    }
                } else if key % 8 == 5 {
                    if q + 4 > m.len() {
                        None
                    } else {
                        header_block_fields(m, q + 4, req, opt, bbox, wp)
                    }
                } else {
                    None
                }
            },
        }
    }
}

/// The contents of a `HeaderBlock` message.
pub open spec fn header_block_of(m: Seq<u8>) -> Option<HeaderView> {
    header_block_fields(m, 0, Seq::empty(), Seq::empty(), None, None)
}


/// Parses a `HeaderBBox` message.
pub fn parse_bbox(m: &[u8]) -> (r: Option<Bbox>)
    ensures
        r == bbox_of(m@),
{
    let len = m.len();
    let mut p: usize = 0;
    let mut l: Option<i64> = None;
    let mut rt: Option<i64> = None;
    let mut t: Option<i64> = None;
    let mut b: Option<i64> = None;
    while p < len
        invariant
            len == m@.len(),
            p <= len,
            bbox_fields(m@, p as int, l, rt, t, b) == bbox_of(m@),
        decreases len - p,
    {
        let (key, kn) = match read_varint(m, p) {
            Some(x) => x,
            None => {
                assert(m@.skip(p as int) =~= m@.subrange(p as int, len as int));
                return None;
            },
        };
        proof {
            assert(m@.skip(p as int) =~= m@.subrange(p as int, len as int));
            crate::read::frames::lemma_varint_parse_positive(m@.skip(p as int));
        }
        if key % 8 != 0 {
            return None;
        }
        let q = p + kn;
        let (v, vn) = match read_varint(m, q) {
            Some(x) => x,
            None => {
                assert(m@.skip(q as int) =~= m@.subrange(q as int, len as int));
                return None;
            },
        };
        proof {
            assert(m@.skip(q as int) =~= m@.subrange(q as int, len as int));
            crate::read::frames::lemma_varint_parse_positive(m@.skip(q as int));
        }
        let x = decode_zigzag(v);
        let f = key / 8;
        if f == 1 {
            l = Some(x);
        } else if f == 2 {
            rt = Some(x);
        } else if f == 3 {
            t = Some(x);
        } else if f == 4 {
            b = Some(x);
        }
        p = q + vn;
    }
    match (l, rt, t, b) {
        (Some(l), Some(r), Some(t), Some(b)) => Some(Bbox { left: l, right: r, top: t, bottom: b }),
        _ => None,
    }
}

/// The byte strings of each vector.
pub open spec fn byte_seqs(v: Seq<Vec<u8>>) -> Seq<Seq<u8>> {
    v.map_values(|x: Vec<u8>| x@)
}

/// Parses a `HeaderBlock` message into its required features, optional
/// features, bounding box and writing program.
pub fn parse_header_block(m: &[u8]) -> (r: Option<(Vec<Vec<u8>>, Vec<Vec<u8>>, Option<Bbox>, Option<Vec<u8>>)>)
    ensures
        match r {
            Some((req, opt, bbox, wp)) => header_block_of(m@) == Some((
                byte_seqs(req@),
                byte_seqs(opt@),
                bbox,
                match wp {
                    Some(w) => Some(w@),
                    None => None::<Seq<u8>>,
                },
            )),
            None => header_block_of(m@) is None,
        },
{
    let len = m.len();
    let mut p: usize = 0;
    let mut req: Vec<Vec<u8>> = Vec::new();
    let mut opt: Vec<Vec<u8>> = Vec::new();
    let mut bbox: Option<Bbox> = None;
    let mut wp: Option<Vec<u8>> = None;
    let ghost wv: Option<Seq<u8>> = None;
    assert(byte_seqs(req@) =~= Seq::<Seq<u8>>::empty());
    assert(byte_seqs(opt@) =~= Seq::<Seq<u8>>::empty());
    while p < len
        invariant
            len == m@.len(),
            p <= len,
            wv == (match wp {
                Some(w) => Some(w@),
                None => None::<Seq<u8>>,
            }),
            header_block_fields(m@, p as int, byte_seqs(req@), byte_seqs(opt@), bbox, wv)
                == header_block_of(m@),
        decreases len - p,
    {
        let (key, kn) = match read_varint(m, p) {
            Some(x) => x,
            None => {
                assert(m@.skip(p as int) =~= m@.subrange(p as int, len as int));
                return None;
            },
        };
        proof {
            assert(m@.skip(p as int) =~= m@.subrange(p as int, len as int));
            crate::read::frames::lemma_varint_parse_positive(m@.skip(p as int));
        }
        let q = p + kn;
        let wt = key % 8;
        let f = key / 8;
        if wt == 0 {
            let (_v, vn) = match read_varint(m, q) {
                Some(x) => x,
                None => {
                    assert(m@.skip(q as int) =~= m@.subrange(q as int, len as int));
                    return None;
                },
            };
            proof {
                assert(m@.skip(q as int) =~= m@.subrange(q as int, len as int));
                crate::read::frames::lemma_varint_parse_positive(m@.skip(q as int));
            }
            p = q + vn;
        } else if wt == 2 {
            let (l, ln) = match read_varint(m, q) {
                Some(x) => x,
                None => {
                    assert(m@.skip(q as int) =~= m@.subrange(q as int, len as int));
                    return None;
                },
            };
            proof {
                assert(m@.skip(q as int) =~= m@.subrange(q as int, len as int));
                crate::read::frames::lemma_varint_parse_positive(m@.skip(q as int));
            }
            let start = q + ln;
            if l > (len - start) as u64 {
                return None;
            }
            let end = start + l as usize;
            let sub = vstd::slice::slice_subrange(m, start, end);
            if f == 1 {
                match parse_bbox(sub) {
                    None => {
                        return None;
                    },
                    Some(bb) => {
                        bbox = Some(bb);
                    },
                }
            } else if f == 4 {
                let ghost before = byte_seqs(req@);
                req.push(vstd::slice::slice_to_vec(sub));
                assert(byte_seqs(req@) =~= before.push(sub@));
            } else if f == 5 {
                let ghost before = byte_seqs(opt@);
                opt.push(vstd::slice::slice_to_vec(sub));
                assert(byte_seqs(opt@) =~= before.push(sub@));
            } else if f == 16 {
                let w = vstd::slice::slice_to_vec(sub);
                proof {
                    wv = Some(w@);
                }
                wp = Some(w);
            }
            p = end;
        } else if wt == 1 {
            if len - q < 8 {
                return None;
            }
            p = q + 8;
        } else if wt == 5 {
            if len - q < 4 {
                return None;
            }
            p = q + 4;
        } else {
            return None;
        }
    }
    Some((req, opt, bbox, wp))
}

proof fn lemma_bbox_step(m: Seq<u8>, p: int, f: u64, v: i64, l: Option<i64>, r: Option<i64>, t: Option<i64>, b: Option<i64>)
    requires
        0 <= p,
        1 <= f <= 4,
        p + sint_field(f, v).len() <= m.len(),
        m.subrange(p, p + sint_field(f, v).len()) == sint_field(f, v),
    ensures
        bbox_fields(m, p, l, r, t, b) == bbox_fields(
            m,
            p + sint_field(f, v).len(),
            if f == 1 { Some(v) } else { l },
            if f == 2 { Some(v) } else { r },
            if f == 3 { Some(v) } else { t },
            if f == 4 { Some(v) } else { b },
        ),
{
    let e = p + sint_field(f, v).len();
    let rest = m.subrange(e, m.len() as int);
    let k = (f * 8) as u64;
    assert(field_key(f, 0) == varint(k));
    assert(m.subrange(p, m.len() as int) =~= varint(k) + (varint(zigzag(v)) + rest));
    lemma_varint_round_trip(k, varint(zigzag(v)) + rest);
    let q = p + varint(k).len();
    lemma_split(m, p, m.len() as int, varint(k), varint(zigzag(v)) + rest);
    lemma_varint_round_trip(zigzag(v), rest);
    lemma_unzigzag(v);
}

/// A bounding box encoded as the writer does it decodes back to itself.
pub proof fn lemma_bbox_round_trip(b: Bbox)
    ensures
        bbox_of(bbox_message(b)) == Some(b),
{
    let m = bbox_message(b);
    let a1 = sint_field(1, b.left);
    let a2 = sint_field(2, b.right);
    let a3 = sint_field(3, b.top);
    let a4 = sint_field(4, b.bottom);
    assert(m =~= a1 + a2 + a3 + a4);
    assert(m.subrange(0, a1.len() as int) =~= a1);
    lemma_bbox_step(m, 0, 1, b.left, None, None, None, None);
    let at2 = a1.len() as int;
    assert(m.subrange(at2, at2 + a2.len()) =~= a2);
    lemma_bbox_step(m, at2, 2, b.right, Some(b.left), None, None, None);
    let at3 = at2 + a2.len();
    assert(m.subrange(at3, at3 + a3.len()) =~= a3);
    lemma_bbox_step(m, at3, 3, b.top, Some(b.left), Some(b.right), None, None);
    let at4 = at3 + a3.len();
    assert(m.subrange(at4, at4 + a4.len()) =~= a4);
    lemma_bbox_step(m, at4, 4, b.bottom, Some(b.left), Some(b.right), Some(b.top), None);
}

proof fn lemma_header_bytes_step(
    m: Seq<u8>,
    p: int,
    f: u64,
    s: Seq<u8>,
    req: Seq<Seq<u8>>,
    opt: Seq<Seq<u8>>,
    bbox: Option<Bbox>,
    wp: Option<Seq<u8>>,
)
    requires
        0 <= p,
        f == 1 || f == 4 || f == 5 || f == 16,
        m.len() <= u64::MAX,
        p + bytes_field(f, s).len() <= m.len(),
        m.subrange(p, p + bytes_field(f, s).len()) == bytes_field(f, s),
        f == 1 ==> bbox_of(s) is Some,
    ensures
        header_block_fields(m, p, req, opt, bbox, wp) == header_block_fields(
            m,
            p + bytes_field(f, s).len(),
            if f == 4 { req.push(s) } else { req },
            if f == 5 { opt.push(s) } else { opt },
            if f == 1 { bbox_of(s) } else { bbox },
            if f == 16 { Some(s) } else { wp },
        ),
{
    let e = p + bytes_field(f, s).len();
    let rest = m.subrange(e, m.len() as int);
    let k = (f * 8 + 2) as u64;
    let sl = s.len() as u64;
    assert(field_key(f, 2) == varint(k));
    assert(m.subrange(p, m.len() as int) =~= varint(k) + (varint(sl) + (s + rest)));
    lemma_varint_round_trip(k, varint(sl) + (s + rest));
    let q = p + varint(k).len();
    lemma_split(m, p, m.len() as int, varint(k), varint(sl) + (s + rest));
    lemma_varint_round_trip(sl, s + rest);
    let st = q + varint(sl).len();
    lemma_split(m, q, m.len() as int, varint(sl), s + rest);
    lemma_split(m, st, m.len() as int, s, rest);
}

proof fn lemma_embedded_front(f: u64, l: Seq<Seq<u8>>)
    requires
        l.len() > 0,
    ensures
        embedded(f, l) == bytes_field(f, l[0]) + embedded(f, l.drop_first()),
    decreases l.len(),
{
    if l.len() == 1 {
        assert(l.drop_last() =~= Seq::<Seq<u8>>::empty());
        assert(l.drop_first() =~= Seq::<Seq<u8>>::empty());
        assert(embedded(f, l) =~= bytes_field(f, l[0]) + embedded(f, l.drop_first()));
    } else {
        lemma_embedded_front(f, l.drop_last());
        assert(l.drop_last().drop_first() =~= l.drop_first().drop_last());
        assert(l.drop_first().last() == l.last());
        assert(embedded(f, l) =~= bytes_field(f, l[0]) + embedded(f, l.drop_first()));
    }
}

proof fn lemma_header_embedded(
    m: Seq<u8>,
    p: int,
    f: u64,
    l: Seq<Seq<u8>>,
    req: Seq<Seq<u8>>,
    opt: Seq<Seq<u8>>,
    bbox: Option<Bbox>,
    wp: Option<Seq<u8>>,
)
    requires
        0 <= p,
        f == 4 || f == 5,
        m.len() <= u64::MAX,
        p + embedded(f, l).len() <= m.len(),
        m.subrange(p, p + embedded(f, l).len()) == embedded(f, l),
    ensures
        header_block_fields(m, p, req, opt, bbox, wp) == header_block_fields(
            m,
            p + embedded(f, l).len(),
            if f == 4 { req + l } else { req },
            if f == 5 { opt + l } else { opt },
            bbox,
            wp,
        ),
    decreases l.len(),
{
    if l.len() == 0 {
        assert(req + l =~= req);
        assert(opt + l =~= opt);
    } else {
        lemma_embedded_front(f, l);
        let first = bytes_field(f, l[0]);
        lemma_split(m, p, p + embedded(f, l).len(), first, embedded(f, l.drop_first()));
        lemma_header_bytes_step(m, p, f, l[0], req, opt, bbox, wp);
        let at2 = p + first.len();
        lemma_header_embedded(
            m,
            at2,
            f,
            l.drop_first(),
            if f == 4 { req.push(l[0]) } else { req },
            if f == 5 { opt.push(l[0]) } else { opt },
            bbox,
            wp,
        );
        assert(req.push(l[0]) + l.drop_first() =~= req + l);
        assert(opt.push(l[0]) + l.drop_first() =~= opt + l);
    }
}

/// A header block encoded as the writer does it decodes back to its
/// features, in order, its bounding box and its writing program.
#[verifier::rlimit(40)]
pub proof fn lemma_header_round_trip(h: HeaderBlock)
    requires
        h.header_message().len() <= u64::MAX,
    ensures
        header_block_of(h.header_message()) == Some((
            utf8_all(h.required_features@),
            utf8_all(h.optional_features@),
            h.bbox,
            match h.writing_program {
                Some(w) => Some(encode_utf8(w@)),
                None => None::<Seq<u8>>,
            },
        )),
{
    let m = h.header_message();
    let a = match h.bbox {
        Some(b) => bytes_field(1, bbox_message(b)),
        None => Seq::<u8>::empty(),
    };
    let req = utf8_all(h.required_features@);
    let opt = utf8_all(h.optional_features@);
    let b4 = embedded(4, req);
    let c5 = embedded(5, opt);
    let d = match h.writing_program {
        Some(w) => bytes_field(16, encode_utf8(w@)),
        None => Seq::<u8>::empty(),
    };
    assert(m =~= a + b4 + c5 + d);
    let e: Seq<Seq<u8>> = Seq::empty();
    match h.bbox {
        Some(b) => {
            lemma_bbox_round_trip(b);
            assert(m.subrange(0, a.len() as int) =~= a);
            lemma_header_bytes_step(m, 0, 1, bbox_message(b), e, e, None, None);
        },
        None => {},
    }
    let at1 = a.len() as int;
    assert(m.subrange(at1, at1 + b4.len()) =~= b4);
    lemma_header_embedded(m, at1, 4, req, e, e, h.bbox, None);
    assert(e + req =~= req);
    let at2 = at1 + b4.len();
    assert(m.subrange(at2, at2 + c5.len()) =~= c5);
    lemma_header_embedded(m, at2, 5, opt, req, e, h.bbox, None);
    assert(e + opt =~= opt);
    let at3 = at2 + c5.len();
    match h.writing_program {
        Some(w) => {
            assert(m.subrange(at3, at3 + d.len()) =~= d);
            lemma_header_bytes_step(m, at3, 16, encode_utf8(w@), req, opt, h.bbox, None);
        },
        None => {},
    }
}

/// A header written by `HeaderBlock::finalize` reads back: the bytes hold
/// one `OSMHeader` frame, whose payload decodes to the same features, in
/// order, the same bounding box and the same writing program.
pub proof fn lemma_header_file_round_trip(h: HeaderBlock, r: Result<Vec<u8>, BlobError>)
    requires
        framed(encode_utf8("OSMHeader"@), h.header_message(), r),
        r is Ok,
    ensures
        frames_of(r->Ok_0@) == Ok::<_, FrameError>(
            seq![(encode_utf8("OSMHeader"@), blob_message(h.header_message()), r->Ok_0@.len() as int)],
        ),
        blob_payload_of(blob_message(h.header_message())) == Ok::<_, FrameError>(h.header_message()),
        header_block_of(h.header_message()) == Some((
            utf8_all(h.required_features@),
            utf8_all(h.optional_features@),
            h.bbox,
            match h.writing_program {
                Some(w) => Some(encode_utf8(w@)),
                None => None::<Seq<u8>>,
            },
        )),
{
    lemma_framed_round_trip(encode_utf8("OSMHeader"@), h.header_message(), r);
    lemma_header_round_trip(h);
}
} // verus!
