//! Splitting a protocol-buffer message into its fields, each a number with a
//! varint or a run of bytes; fixed-width fields are skipped.
use vstd::prelude::*;
use crate::read::frames::{
    lemma_varint_parse_positive, lemma_varint_round_trip, read_varint, varint_read,
};
use crate::write::wire::{bytes_field, field_key, uint_field, varint, varints};

verus! {

/// The value of a field.
pub enum FieldVal {
    Varint(u64),
    Bytes(Seq<u8>),
}

/// A field as the reader hands it out: its number and its value.
#[derive(Debug)]
pub enum Field {
    Varint(u64, u64),
    Bytes(u64, Vec<u8>),
}

/// A field with its number, as the specification sees it.
pub open spec fn field_view(f: Field) -> (u64, FieldVal) {
    match f {
        Field::Varint(n, v) => (n, FieldVal::Varint(v)),
        Field::Bytes(n, b) => (n, FieldVal::Bytes(b@)),
    }
}

/// The fields of `m` from byte `p` on, in order; `None` when the message is
/// malformed.
pub open spec fn fields_from(m: Seq<u8>, p: int) -> Option<Seq<(u64, FieldVal)>>
    decreases m.len() - p,
{
    if p < 0 || p >= m.len() {
        Some(Seq::empty())
    } else {
        match varint_read(m.subrange(p, m.len() as int)) {
            None => None,
            Some((key, kn)) => {
                let q = p + kn;
                if kn < 1 {
                    None
                } else if key % 8 == 0 {
                    match varint_read(m.subrange(q, m.len() as int)) {
                        None => None,
                        Some((v, vn)) => if q + vn > m.len() {
                            None
                        } else {
                            match fields_from(m, q + vn) {
                                Some(rest) => Some(seq![(key / 8, FieldVal::Varint(v))] + rest),
                                None => None,
                            }
                        },
                    }
                } else if key % 8 == 2 {
                    match varint_read(m.subrange(q, m.len() as int)) {
                        None => None,
                        Some((l, ln)) => if q + ln + l > m.len() {
                            None
                        } else {
                            match fields_from(m, q + ln + l) {
                                Some(rest) => Some(
                                    seq![(key / 8, FieldVal::Bytes(m.subrange(q + ln, q + ln + l)))]
                                        + rest,
                                ),
                                None => None,
                            }
                        },
                    }
                } else if key % 8 == 1 {
                    if q + 8 > m.len() {
                        None
                    } else {
                        fields_from(m, q + 8)
                    }
                } else if key % 8 == 5 {
                    if q + 4 > m.len() {
                        None
                    } else {
                        fields_from(m, q + 4)
                    }
                } else {
                    None
                }
            },
        }
    }
}

/// The fields of a message.
pub open spec fn fields_of(m: Seq<u8>) -> Option<Seq<(u64, FieldVal)>> {
    fields_from(m, 0)
}

/// Splits a message into its fields.
pub fn read_fields(m: &[u8]) -> (r: Option<Vec<Field>>)
    ensures
        r matches Some(v) ==> fields_of(m@) == Some(v@.map_values(|f: Field| field_view(f))),
        r is None ==> fields_of(m@) is None,
{
    let len = m.len();
    let mut p: usize = 0;
    let mut out: Vec<Field> = Vec::new();
    while p < len
        invariant
            len == m@.len(),
            p <= len,
            fields_of(m@) == (match fields_from(m@, p as int) {
                Some(rest) => Some(out@.map_values(|f: Field| field_view(f)) + rest),
                None => None,
            }),
        decreases len - p,
    {
        let ghost before = out@.map_values(|f: Field| field_view(f));
        let (key, kn) = match read_varint(m, p) {
            Some(x) => x,
            None => {
                assert(m@.skip(p as int) =~= m@.subrange(p as int, len as int));
                return None;
            },
        };
        proof {
            assert(m@.skip(p as int) =~= m@.subrange(p as int, len as int));
            lemma_varint_parse_positive(m@.skip(p as int));
        }
        let q = p + kn;
        let wt = key % 8;
        if wt == 0 {
            let (v, vn) = match read_varint(m, q) {
                Some(x) => x,
                None => {
                    assert(m@.skip(q as int) =~= m@.subrange(q as int, len as int));
                    return None;
                },
            };
            proof {
                assert(m@.skip(q as int) =~= m@.subrange(q as int, len as int));
                lemma_varint_parse_positive(m@.skip(q as int));
            }
            let f = Field::Varint(key / 8, v);
            let ghost fv = field_view(f);
            out.push(f);
            p = q + vn;
            proof {
                assert(out@.map_values(|f: Field| field_view(f)) =~= before.push(fv));
                match fields_from(m@, p as int) {
                    Some(rest) => {
                        assert(before + (seq![fv] + rest) =~= before.push(fv) + rest);
                    },
                    None => {},
                }
            }
        } else if wt == 2 {
            let (l, ln) = match read_varint(m, q) {
                Some(x) => x,
                None => {
                    assert(m@.skip(q as int) =~= m@.subrange(q as int, len as int));
                    return None;
                },
            };
            proof {
                assert(m@.skip(q as int) =~= m@.subrange(q as int, len as int));
                lemma_varint_parse_positive(m@.skip(q as int));
            }
            let start = q + ln;
            if l > (len - start) as u64 {
                return None;
            }
            let end = start + l as usize;
            let f = Field::Bytes(key / 8, vstd::slice::slice_to_vec(vstd::slice::slice_subrange(m, start, end)));
            let ghost fv = field_view(f);
            out.push(f);
            p = end;
            proof {
                assert(out@.map_values(|f: Field| field_view(f)) =~= before.push(fv));
                match fields_from(m@, p as int) {
                    Some(rest) => {
                        assert(before + (seq![fv] + rest) =~= before.push(fv) + rest);
                    },
                    None => {},
                }
            }
        } else if wt == 1 {
            if len - q < 8 {
                return None;
            }
            p = q + 8;
        } else if wt == 5 {
            if len - q < 4 {
                return None;
            }
            p = q + 4;
        } else {
            return None;
        }
    }
    assert(out@.map_values(|f: Field| field_view(f)) + Seq::empty() =~= out@.map_values(|f: Field| field_view(f)));
    Some(out)
}

/// Where `m` holds `a` then `x` between `p` and `e`, it holds `a` from `p`
/// and `x` after it.
pub proof fn lemma_split(m: Seq<u8>, p: int, e: int, a: Seq<u8>, x: Seq<u8>)
    requires
        0 <= p <= e <= m.len(),
        m.subrange(p, e) == a + x,
    ensures
        m.subrange(p, p + a.len()) == a,
        m.subrange(p + a.len(), e) == x,
{
    assert(m.subrange(p, e).len() == e - p);
    assert((a + x).len() == a.len() + x.len());
    assert forall|i: int| 0 <= i < a.len() implies m.subrange(p, p + a.len())[i] == a[i] by {
        assert(m.subrange(p, e)[i] == (a + x)[i]);
        assert(m.subrange(p, e)[i] == m[p + i]);
        assert(m.subrange(p, p + a.len())[i] == m[p + i]);
    }
    assert forall|i: int| 0 <= i < x.len() implies m.subrange(p + a.len(), e)[i] == x[i] by {
        assert(m.subrange(p, e)[a.len() + i] == (a + x)[a.len() + i]);
        assert(m.subrange(p, e)[a.len() + i] == m[p + a.len() + i]);
        assert(m.subrange(p + a.len(), e)[i] == m[p + a.len() + i]);
    }
    assert(m.subrange(p, p + a.len()) =~= a);
    assert(m.subrange(p + a.len(), e) =~= x);
}

/// The bytes of one field.
pub open spec fn field_bytes(t: (u64, FieldVal)) -> Seq<u8> {
    match t.1 {
        FieldVal::Varint(v) => uint_field(t.0, v),
        FieldVal::Bytes(b) => bytes_field(t.0, b),
    }
}

/// The bytes of a list of fields, one after another.
pub open spec fn fields_bytes(ts: Seq<(u64, FieldVal)>) -> Seq<u8>
    decreases ts.len(),
{
    if ts.len() == 0 {
        Seq::empty()
    } else {
        fields_bytes(ts.drop_last()) + field_bytes(ts.last())
    }
}

/// Every field number fits a key.
pub open spec fn numbers_fit(ts: Seq<(u64, FieldVal)>) -> bool {
    forall|i: int| 0 <= i < ts.len() ==> #[trigger] ts[i].0 < 0x1000_0000
}

pub proof fn lemma_fields_bytes_front(ts: Seq<(u64, FieldVal)>)
    requires
        ts.len() > 0,
    ensures
        fields_bytes(ts) == field_bytes(ts[0]) + fields_bytes(ts.drop_first()),
    decreases ts.len(),
{
    if ts.len() == 1 {
        assert(ts.drop_last() =~= Seq::<(u64, FieldVal)>::empty());
        assert(ts.drop_first() =~= Seq::<(u64, FieldVal)>::empty());
        assert(fields_bytes(ts) =~= field_bytes(ts[0]) + fields_bytes(ts.drop_first()));
    } else {
        lemma_fields_bytes_front(ts.drop_last());
        assert(ts.drop_last().drop_first() =~= ts.drop_first().drop_last());
        assert(ts.drop_first().last() == ts.last());
        assert(fields_bytes(ts) =~= field_bytes(ts[0]) + fields_bytes(ts.drop_first()));
    }
}

pub proof fn lemma_fields_bytes_append(a: Seq<(u64, FieldVal)>, b: Seq<(u64, FieldVal)>)
    ensures
        fields_bytes(a + b) == fields_bytes(a) + fields_bytes(b),
    decreases b.len(),
{
    if b.len() == 0 {
        assert(a + b =~= a);
        assert(fields_bytes(a) + fields_bytes(b) =~= fields_bytes(a));
    } else {
        assert((a + b).drop_last() =~= a + b.drop_last());
        lemma_fields_bytes_append(a, b.drop_last());
        assert(fields_bytes(a + b) =~= fields_bytes(a) + fields_bytes(b));
    }
}

proof fn lemma_field_step(m: Seq<u8>, p: int, t: (u64, FieldVal))
    requires
        0 <= p,
        t.0 < 0x1000_0000,
        m.len() <= u64::MAX,
        p + field_bytes(t).len() <= m.len(),
        m.subrange(p, p + field_bytes(t).len()) == field_bytes(t),
    ensures
        fields_from(m, p) == (match fields_from(m, p + field_bytes(t).len()) {
            Some(rest) => Some(seq![t] + rest),
            None => None,
        }),
{
    let e = p + field_bytes(t).len();
    let rest = m.subrange(e, m.len() as int);
    lemma_split_join(m, p, e, m.len() as int);
    match t.1 {
        FieldVal::Varint(v) => {
            let k = (t.0 * 8) as u64;
            assert(field_key(t.0, 0) == varint(k));
            assert(m.subrange(p, m.len() as int) =~= varint(k) + (varint(v) + rest));
            lemma_varint_round_trip(k, varint(v) + rest);
            lemma_split(m, p, m.len() as int, varint(k), varint(v) + rest);
            lemma_varint_round_trip(v, rest);
        },
        FieldVal::Bytes(b) => {
            let k = (t.0 * 8 + 2) as u64;
            let bl = b.len() as u64;
            assert(field_key(t.0, 2) == varint(k));
            assert(m.subrange(p, m.len() as int) =~= varint(k) + (varint(bl) + (b + rest)));
            lemma_varint_round_trip(k, varint(bl) + (b + rest));
            let q = p + varint(k).len();
            lemma_split(m, p, m.len() as int, varint(k), varint(bl) + (b + rest));
            lemma_varint_round_trip(bl, b + rest);
            let st = q + varint(bl).len();
            lemma_split(m, q, m.len() as int, varint(bl), b + rest);
            lemma_split(m, st, m.len() as int, b, rest);
        },
    }
}

/// `m` from `p` to `e` is `m` from `p` to `q` followed by `m` from `q` to `e`.
pub proof fn lemma_split_join(m: Seq<u8>, p: int, q: int, e: int)
    requires
        0 <= p <= q <= e <= m.len(),
    ensures
        m.subrange(p, e) == m.subrange(p, q) + m.subrange(q, e),
{
    assert(m.subrange(p, e) =~= m.subrange(p, q) + m.subrange(q, e));
}

proof fn lemma_fields_at(m: Seq<u8>, p: int, ts: Seq<(u64, FieldVal)>)
    requires
        0 <= p <= m.len(),
        m.len() <= u64::MAX,
        numbers_fit(ts),
        m.subrange(p, m.len() as int) == fields_bytes(ts),
    ensures
        fields_from(m, p) == Some(ts),
    decreases ts.len(),
{
    if ts.len() == 0 {
        assert(ts =~= Seq::<(u64, FieldVal)>::empty());
    } else {
        lemma_fields_bytes_front(ts);
        let fb = field_bytes(ts[0]);
        lemma_split(m, p, m.len() as int, fb, fields_bytes(ts.drop_first()));
        assert(ts[0].0 < 0x1000_0000);
        lemma_field_step(m, p, ts[0]);
        assert(numbers_fit(ts.drop_first())) by {
            assert forall|i: int| 0 <= i < ts.drop_first().len() implies #[trigger] ts.drop_first()[i].0
                < 0x1000_0000 by {
                assert(ts[i + 1].0 < 0x1000_0000);
            }
        }
        lemma_fields_at(m, p + fb.len(), ts.drop_first());
        assert(seq![ts[0]] + ts.drop_first() =~= ts);
    }
}

/// A list of fields, encoded one after another, splits back into itself.
pub proof fn lemma_fields_round_trip(ts: Seq<(u64, FieldVal)>)
    requires
        numbers_fit(ts),
        fields_bytes(ts).len() <= u64::MAX,
    ensures
        fields_of(fields_bytes(ts)) == Some(ts),
{
    let m = fields_bytes(ts);
    assert(m.subrange(0, m.len() as int) =~= m);
    lemma_fields_at(m, 0, ts);
}

/// The varints of a packed field from byte `p` on.
pub open spec fn varints_from(b: Seq<u8>, p: int) -> Option<Seq<u64>>
    decreases b.len() - p,
{
    if p < 0 || p >= b.len() {
        Some(Seq::empty())
    } else {
        match varint_read(b.subrange(p, b.len() as int)) {
            None => None,
            Some((v, n)) => if n < 1 || p + n > b.len() {
                None
            } else {
                match varints_from(b, p + n) {
                    Some(rest) => Some(seq![v] + rest),
                    None => None,
                }
            },
        }
    }
}

/// The varints of a packed field.
pub open spec fn varints_of(b: Seq<u8>) -> Option<Seq<u64>> {
    varints_from(b, 0)
}

/// Reads the varints of a packed field.
pub fn read_packed(b: &[u8]) -> (r: Option<Vec<u64>>)
    ensures
        r matches Some(v) ==> varints_of(b@) == Some(v@),
        r is None ==> varints_of(b@) is None,
{
    let len = b.len();
    let mut p: usize = 0;
    let mut out: Vec<u64> = Vec::new();
    while p < len
        invariant
            len == b@.len(),
            p <= len,
            varints_of(b@) == (match varints_from(b@, p as int) {
                Some(rest) => Some(out@ + rest),
                None => None,
            }),
        decreases len - p,
    {
        let ghost before = out@;
        let (v, n) = match read_varint(b, p) {
            Some(x) => x,
            None => {
                assert(b@.skip(p as int) =~= b@.subrange(p as int, len as int));
                return None;
            },
        };
        proof {
            assert(b@.skip(p as int) =~= b@.subrange(p as int, len as int));
            lemma_varint_parse_positive(b@.skip(p as int));
        }
        out.push(v);
        p = p + n;
        proof {
            match varints_from(b@, p as int) {
                Some(rest) => {
                    assert(before + (seq![v] + rest) =~= out@ + rest);
                },
                None => {},
            }
        }
    }
    assert(out@ + Seq::<u64>::empty() =~= out@);
    Some(out)
}

proof fn lemma_varints_front(vs: Seq<u64>)
    requires
        vs.len() > 0,
    ensures
        varints(vs) == varint(vs[0]) + varints(vs.drop_first()),
    decreases vs.len(),
{
    if vs.len() == 1 {
        assert(vs.drop_last() =~= Seq::<u64>::empty());
        assert(vs.drop_first() =~= Seq::<u64>::empty());
        assert(varints(vs) =~= varint(vs[0]) + varints(vs.drop_first()));
    } else {
        lemma_varints_front(vs.drop_last());
        assert(vs.drop_last().drop_first() =~= vs.drop_first().drop_last());
        assert(vs.drop_first().last() == vs.last());
        assert(varints(vs) =~= varint(vs[0]) + varints(vs.drop_first()));
    }
}

proof fn lemma_varints_at(b: Seq<u8>, p: int, vs: Seq<u64>)
    requires
        0 <= p <= b.len(),
        b.subrange(p, b.len() as int) == varints(vs),
    ensures
        varints_from(b, p) == Some(vs),
    decreases vs.len(),
{
    if vs.len() == 0 {
        assert(vs =~= Seq::<u64>::empty());
    } else {
        lemma_varints_front(vs);
        let rest = varints(vs.drop_first());
        lemma_varint_round_trip(vs[0], rest);
        lemma_split(b, p, b.len() as int, varint(vs[0]), rest);
        lemma_varints_at(b, p + varint(vs[0]).len(), vs.drop_first());
        assert(seq![vs[0]] + vs.drop_first() =~= vs);
    }
}

/// The varints of a packed field read back as the values written.
pub proof fn lemma_varints_round_trip(vs: Seq<u64>)
    ensures
        varints_of(varints(vs)) == Some(vs),
{
    let b = varints(vs);
    assert(b.subrange(0, b.len() as int) =~= b);
    lemma_varints_at(b, 0, vs);
}

/// The fields `ts` taken one after another into `acc` by `step`; `None` as
/// soon as a step refuses a field.
pub open spec fn fold_fields<A>(
    ts: Seq<(u64, FieldVal)>,
    acc: A,
    step: spec_fn(A, (u64, FieldVal)) -> Option<A>,
) -> Option<A>
    decreases ts.len(),
{
    if ts.len() == 0 {
        Some(acc)
    } else {
        match step(acc, ts[0]) {
            Some(a) => fold_fields(ts.drop_first(), a, step),
            None => None,
        }
    }
}

pub proof fn lemma_fold_append<A>(
    a: Seq<(u64, FieldVal)>,
    b: Seq<(u64, FieldVal)>,
    acc: A,
    step: spec_fn(A, (u64, FieldVal)) -> Option<A>,
)
    ensures
        fold_fields(a + b, acc, step) == (match fold_fields(a, acc, step) {
            Some(x) => fold_fields(b, x, step),
            None => None,
        }),
    decreases a.len(),
{
    if a.len() == 0 {
        assert(a + b =~= b);
    } else {
        assert((a + b).drop_first() =~= a.drop_first() + b);
        assert((a + b)[0] == a[0]);
        match step(acc, a[0]) {
            Some(x) => lemma_fold_append(a.drop_first(), b, x, step),
            None => {},
        }
    }
}

pub proof fn lemma_fold_one<A>(t: (u64, FieldVal), acc: A, step: spec_fn(A, (u64, FieldVal)) -> Option<A>)
    ensures
        fold_fields(seq![t], acc, step) == step(acc, t),
{
    assert(seq![t].drop_first() =~= Seq::<(u64, FieldVal)>::empty());
    assert(seq![t][0] == t);
    match step(acc, t) {
        Some(a) => {
            assert(fold_fields(Seq::<(u64, FieldVal)>::empty(), a, step) == Some(a));
        },
        None => {},
    }
}

} // verus!
