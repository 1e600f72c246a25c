//! Reading a `PrimitiveBlock` message back: its string table, and each
//! group's nodes, ways and relations with the values stored on the wire.
use vstd::prelude::*;
use crate::read::fields::{
    fields_bytes, fields_of, fold_fields, lemma_fields_bytes_append, lemma_fields_round_trip,
    lemma_fold_append, lemma_fold_one, lemma_varints_round_trip, numbers_fit, varints_of,
    FieldVal,
};
use crate::read::header::{decode_zigzag, lemma_unzigzag, unzigzag};
use crate::read::fields::{field_view, read_fields, read_packed, Field};
use crate::write::encode::{
    embedded, node_group_message, node_message, rel_group_message, relation_message, remap,
    way_group_message, way_message,
};
use crate::write::wire::bytes_field;
use crate::write::wire::{packed_field, sint_field, uint_field, varints, widen, zigzag, zigzags};
use crate::write::write_block::{
    opt_i32_field, opt_i64_field, EncNode, EncRelation, EncWay, PrimitiveBlock,
};
use crate::write::encode::string_table_message;
use crate::write::blob::{blob_message, framed, BlobError};
use crate::read::frames::{blob_payload_of, frames_of, lemma_framed_round_trip, FrameError};
use vstd::utf8::encode_utf8;

verus! {

/// A node read back: id, key and value indices, stored latitude and
/// longitude.
pub type NodeRec = (i64, Seq<u64>, Seq<u64>, i64, i64);

/// The fields of a packed list, or none for an empty list.
pub open spec fn packed_fields(field: u64, vs: Seq<u64>) -> Seq<(u64, FieldVal)> {
    if vs.len() == 0 {
        Seq::empty()
    } else {
        seq![(field, FieldVal::Bytes(varints(vs)))]
    }
}

/// One field of a `Node` taken into what was read so far; `None` when a
/// known field has the wrong wire type or a malformed packed list.
pub open spec fn node_step(acc: NodeRec, t: (u64, FieldVal)) -> Option<NodeRec> {
    match t.1 {
        FieldVal::Varint(v) => if t.0 == 1 {
            Some((unzigzag(v), acc.1, acc.2, acc.3, acc.4))
        } else if t.0 == 8 {
            Some((acc.0, acc.1, acc.2, unzigzag(v), acc.4))
        } else if t.0 == 9 {
            Some((acc.0, acc.1, acc.2, acc.3, unzigzag(v)))
        } else if t.0 == 2 || t.0 == 3 {
            None
        } else {
            Some(acc)
        },
        FieldVal::Bytes(b) => if t.0 == 2 {
            match varints_of(b) {
                Some(ks) => Some((acc.0, ks, acc.2, acc.3, acc.4)),
                None => None,
            }
        } else if t.0 == 3 {
            match varints_of(b) {
                Some(vs) => Some((acc.0, acc.1, vs, acc.3, acc.4)),
                None => None,
            }
        } else if t.0 == 1 || t.0 == 8 || t.0 == 9 {
            None
        } else {
            Some(acc)
        },
    }
}

/// The initial state of a node read back.
pub open spec fn node_init() -> NodeRec {
    (0, Seq::empty(), Seq::empty(), 0, 0)
}

/// A `Node` message read back.
pub open spec fn node_of(m: Seq<u8>) -> Option<NodeRec> {
    match fields_of(m) {
        Some(ts) => fold_fields(ts, node_init(), |a: NodeRec, t: (u64, FieldVal)| node_step(a, t)),
        None => None,
    }
}

/// The fields the writer puts in a `Node` message.
pub open spec fn node_fields(n: EncNode, map: Seq<usize>) -> Seq<(u64, FieldVal)> {
    seq![(1u64, FieldVal::Varint(zigzag(n.id)))] + packed_fields(2, widen(remap(n.keys@, map)))
        + packed_fields(3, widen(remap(n.vals@, map))) + seq![
        (8u64, FieldVal::Varint(zigzag(n.lat))),
        (9u64, FieldVal::Varint(zigzag(n.lon))),
    ]
}

proof fn lemma_one_field(t: (u64, FieldVal))
    ensures
        fields_bytes(seq![t]) == crate::read::fields::field_bytes(t),
{
    assert(seq![t].drop_last() =~= Seq::<(u64, FieldVal)>::empty());
    assert(seq![t].last() == t);
    assert(fields_bytes(Seq::<(u64, FieldVal)>::empty()) =~= Seq::<u8>::empty());
    assert(fields_bytes(seq![t]) =~= crate::read::fields::field_bytes(t));
}

proof fn lemma_packed_fields_bytes(field: u64, vs: Seq<u64>)
    ensures
        fields_bytes(packed_fields(field, vs)) == packed_field(field, vs),
{
    if vs.len() == 0 {
        assert(fields_bytes(Seq::<(u64, FieldVal)>::empty()) =~= Seq::<u8>::empty());
    } else {
        lemma_one_field((field, FieldVal::Bytes(varints(vs))));
    }
}

proof fn lemma_node_fields_bytes(n: EncNode, map: Seq<usize>)
    ensures
        fields_bytes(node_fields(n, map)) == node_message(n, map),
{
    let a = seq![(1u64, FieldVal::Varint(zigzag(n.id)))];
    let k = packed_fields(2, widen(remap(n.keys@, map)));
    let v = packed_fields(3, widen(remap(n.vals@, map)));
    let c = seq![(8u64, FieldVal::Varint(zigzag(n.lat))), (9u64, FieldVal::Varint(zigzag(n.lon)))];
    lemma_fields_bytes_append(a, k);
    lemma_fields_bytes_append(a + k, v);
    lemma_fields_bytes_append(a + k + v, c);
    lemma_one_field(a[0]);
    lemma_packed_fields_bytes(2, widen(remap(n.keys@, map)));
    lemma_packed_fields_bytes(3, widen(remap(n.vals@, map)));
    assert(c.drop_last() =~= seq![(8u64, FieldVal::Varint(zigzag(n.lat)))]);
    lemma_one_field(c[0]);
    assert(fields_bytes(c) =~= sint_field(8, n.lat) + sint_field(9, n.lon));
    assert(fields_bytes(node_fields(n, map)) =~= node_message(n, map));
}


proof fn lemma_packed_fold<A>(
    field: u64,
    vs: Seq<u64>,
    acc: A,
    step: spec_fn(A, (u64, FieldVal)) -> Option<A>,
)
    ensures
        fold_fields(packed_fields(field, vs), acc, step) == (if vs.len() == 0 {
            Some(acc)
        } else {
            step(acc, (field, FieldVal::Bytes(varints(vs))))
        }),
{
    if vs.len() > 0 {
        lemma_fold_one((field, FieldVal::Bytes(varints(vs))), acc, step);
    }
}

/// A node written by the encoder reads back with the same id, its key and
/// value indices as written (after the final remapping), and the stored
/// coordinates.
#[verifier::rlimit(40)]
pub proof fn lemma_node_round_trip(n: EncNode, map: Seq<usize>)
    requires
        node_message(n, map).len() <= u64::MAX,
    ensures
        node_of(node_message(n, map)) == Some((
            n.id,
            widen(remap(n.keys@, map)),
            widen(remap(n.vals@, map)),
            n.lat,
            n.lon,
        )),
{
    let ts = node_fields(n, map);
    lemma_node_fields_bytes(n, map);
    assert(numbers_fit(ts));
    lemma_fields_round_trip(ts);
    let step = |a: NodeRec, t: (u64, FieldVal)| node_step(a, t);
    let ks = widen(remap(n.keys@, map));
    let vs = widen(remap(n.vals@, map));
    let a = seq![(1u64, FieldVal::Varint(zigzag(n.id)))];
    let k = packed_fields(2, ks);
    let v = packed_fields(3, vs);
    let c = seq![(8u64, FieldVal::Varint(zigzag(n.lat))), (9u64, FieldVal::Varint(zigzag(n.lon)))];
    lemma_fold_append(a + k + v, c, node_init(), step);
    lemma_fold_append(a + k, v, node_init(), step);
    lemma_fold_append(a, k, node_init(), step);
    lemma_fold_one(a[0], node_init(), step);
    lemma_unzigzag(n.id);
    lemma_unzigzag(n.lat);
    lemma_unzigzag(n.lon);
    let s1 = (n.id, Seq::<u64>::empty(), Seq::<u64>::empty(), 0i64, 0i64);
    lemma_packed_fold(2, ks, s1, step);
    lemma_varints_round_trip(ks);
    let s2 = (n.id, ks, Seq::<u64>::empty(), 0i64, 0i64);
    assert(ks.len() == 0 ==> ks =~= Seq::<u64>::empty());
    lemma_packed_fold(3, vs, s2, step);
    lemma_varints_round_trip(vs);
    let s3 = (n.id, ks, vs, 0i64, 0i64);
    assert(vs.len() == 0 ==> vs =~= Seq::<u64>::empty());
    assert(c.drop_first() =~= seq![(9u64, FieldVal::Varint(zigzag(n.lon)))]);
    lemma_fold_one(c.drop_first()[0], (n.id, ks, vs, n.lat, 0i64), step);
}

/// A way read back: id, key and value indices, node references, stored
/// latitudes and longitudes (the last three as their delta streams).
pub type WayRec = (i64, Seq<u64>, Seq<u64>, Seq<i64>, Seq<i64>, Seq<i64>);

/// A relation read back: id, key and value indices, role indices, member
/// ids (as their delta stream) and member kinds.
pub type RelRec = (i64, Seq<u64>, Seq<u64>, Seq<u64>, Seq<i64>, Seq<u64>);

/// The zigzag mapping undone on each value.
pub open spec fn unzigzags(us: Seq<u64>) -> Seq<i64> {
    us.map_values(|u: u64| unzigzag(u))
}

proof fn lemma_unzigzags(xs: Seq<i64>)
    ensures
        unzigzags(zigzags(xs)) == xs,
{
    assert forall|i: int| 0 <= i < xs.len() implies unzigzags(zigzags(xs))[i] == xs[i] by {
        lemma_unzigzag(xs[i]);
    }
    assert(unzigzags(zigzags(xs)) =~= xs);
}

proof fn lemma_id_round_trip(x: i64)
    ensures
        (x as u64) as i64 == x,
{
    assert((x as u64) as i64 == x) by (bit_vector);
}

/// One field of a `Way` taken into what was read so far.
pub open spec fn way_step(acc: WayRec, t: (u64, FieldVal)) -> Option<WayRec> {
    match t.1 {
        FieldVal::Varint(v) => if t.0 == 1 {
            Some((v as i64, acc.1, acc.2, acc.3, acc.4, acc.5))
        } else if 2 <= t.0 <= 3 || 8 <= t.0 <= 10 {
            None
        } else {
            Some(acc)
        },
        FieldVal::Bytes(b) => if t.0 == 1 {
            None
        } else if t.0 == 2 || t.0 == 3 || (8 <= t.0 <= 10) {
            match varints_of(b) {
                None => None,
                Some(us) => if t.0 == 2 {
                    Some((acc.0, us, acc.2, acc.3, acc.4, acc.5))
                } else if t.0 == 3 {
                    Some((acc.0, acc.1, us, acc.3, acc.4, acc.5))
                } else if t.0 == 8 {
                    Some((acc.0, acc.1, acc.2, unzigzags(us), acc.4, acc.5))
                } else if t.0 == 9 {
                    Some((acc.0, acc.1, acc.2, acc.3, unzigzags(us), acc.5))
                } else {
                    Some((acc.0, acc.1, acc.2, acc.3, acc.4, unzigzags(us)))
                },
            }
        } else {
            Some(acc)
        },
    }
}

/// The initial state of a way read back.
pub open spec fn way_init() -> WayRec {
    (0, Seq::empty(), Seq::empty(), Seq::empty(), Seq::empty(), Seq::empty())
}

/// A `Way` message read back.
pub open spec fn way_of(m: Seq<u8>) -> Option<WayRec> {
    match fields_of(m) {
        Some(ts) => fold_fields(ts, way_init(), |a: WayRec, t: (u64, FieldVal)| way_step(a, t)),
        None => None,
    }
}

/// The fields the writer puts in a `Way` message.
pub open spec fn way_fields(w: EncWay, map: Seq<usize>) -> Seq<(u64, FieldVal)> {
    seq![(1u64, FieldVal::Varint(w.id as u64))] + packed_fields(2, widen(remap(w.keys@, map)))
        + packed_fields(3, widen(remap(w.vals@, map))) + packed_fields(8, zigzags(w.refs@))
        + packed_fields(9, zigzags(w.lat@)) + packed_fields(10, zigzags(w.lon@))
}

/// A way written by the encoder reads back with the same id, its key and
/// value indices as written (after the final remapping), and its stored
/// delta streams.
#[verifier::rlimit(40)]
pub proof fn lemma_way_round_trip(w: EncWay, map: Seq<usize>)
    requires
        way_message(w, map).len() <= u64::MAX,
    ensures
        way_of(way_message(w, map)) == Some((
            w.id,
            widen(remap(w.keys@, map)),
            widen(remap(w.vals@, map)),
            w.refs@,
            w.lat@,
            w.lon@,
        )),
{
    let ks = widen(remap(w.keys@, map));
    let vs = widen(remap(w.vals@, map));
    let a = seq![(1u64, FieldVal::Varint(w.id as u64))];
    let at2 = packed_fields(2, ks);
    let at3 = packed_fields(3, vs);
    let at8 = packed_fields(8, zigzags(w.refs@));
    let at9 = packed_fields(9, zigzags(w.lat@));
    let at10 = packed_fields(10, zigzags(w.lon@));
    let ts = way_fields(w, map);
    lemma_fields_bytes_append(a, at2);
    lemma_fields_bytes_append(a + at2, at3);
    lemma_fields_bytes_append(a + at2 + at3, at8);
    lemma_fields_bytes_append(a + at2 + at3 + at8, at9);
    lemma_fields_bytes_append(a + at2 + at3 + at8 + at9, at10);
    lemma_one_field(a[0]);
    lemma_packed_fields_bytes(2, ks);
    lemma_packed_fields_bytes(3, vs);
    lemma_packed_fields_bytes(8, zigzags(w.refs@));
    lemma_packed_fields_bytes(9, zigzags(w.lat@));
    lemma_packed_fields_bytes(10, zigzags(w.lon@));
    assert(fields_bytes(ts) =~= way_message(w, map));
    assert(numbers_fit(ts));
    lemma_fields_round_trip(ts);
    let step = |a: WayRec, t: (u64, FieldVal)| way_step(a, t);
    lemma_fold_append(a + at2 + at3 + at8 + at9, at10, way_init(), step);
    lemma_fold_append(a + at2 + at3 + at8, at9, way_init(), step);
    lemma_fold_append(a + at2 + at3, at8, way_init(), step);
    lemma_fold_append(a + at2, at3, way_init(), step);
    lemma_fold_append(a, at2, way_init(), step);
    lemma_fold_one(a[0], way_init(), step);
    lemma_id_round_trip(w.id);
    let e: Seq<i64> = Seq::empty();
    let eu: Seq<u64> = Seq::empty();
    lemma_varints_round_trip(ks);
    lemma_varints_round_trip(vs);
    lemma_varints_round_trip(zigzags(w.refs@));
    lemma_varints_round_trip(zigzags(w.lat@));
    lemma_varints_round_trip(zigzags(w.lon@));
    lemma_unzigzags(w.refs@);
    lemma_unzigzags(w.lat@);
    lemma_unzigzags(w.lon@);
    assert(ks.len() == 0 ==> ks =~= eu);
    assert(vs.len() == 0 ==> vs =~= eu);
    assert(w.refs@.len() == 0 ==> w.refs@ =~= e);
    assert(w.lat@.len() == 0 ==> w.lat@ =~= e);
    assert(w.lon@.len() == 0 ==> w.lon@ =~= e);
    lemma_packed_fold(2, ks, (w.id, eu, eu, e, e, e), step);
    lemma_packed_fold(3, vs, (w.id, ks, eu, e, e, e), step);
    lemma_packed_fold(8, zigzags(w.refs@), (w.id, ks, vs, e, e, e), step);
    lemma_packed_fold(9, zigzags(w.lat@), (w.id, ks, vs, w.refs@, e, e), step);
    lemma_packed_fold(10, zigzags(w.lon@), (w.id, ks, vs, w.refs@, w.lat@, e), step);
}

/// One field of a `Relation` taken into what was read so far.
pub open spec fn rel_step(acc: RelRec, t: (u64, FieldVal)) -> Option<RelRec> {
    match t.1 {
        FieldVal::Varint(v) => if t.0 == 1 {
            Some((v as i64, acc.1, acc.2, acc.3, acc.4, acc.5))
        } else if 2 <= t.0 <= 3 || 8 <= t.0 <= 10 {
            None
        } else {
            Some(acc)
        },
        FieldVal::Bytes(b) => if t.0 == 1 {
            None
        } else if t.0 == 2 || t.0 == 3 || (8 <= t.0 <= 10) {
            match varints_of(b) {
                None => None,
                Some(us) => if t.0 == 2 {
                    Some((acc.0, us, acc.2, acc.3, acc.4, acc.5))
                } else if t.0 == 3 {
                    Some((acc.0, acc.1, us, acc.3, acc.4, acc.5))
                } else if t.0 == 8 {
                    Some((acc.0, acc.1, acc.2, us, acc.4, acc.5))
                } else if t.0 == 9 {
                    Some((acc.0, acc.1, acc.2, acc.3, unzigzags(us), acc.5))
                } else {
                    Some((acc.0, acc.1, acc.2, acc.3, acc.4, us))
                },
            }
        } else {
            Some(acc)
        },
    }
}

/// The initial state of a relation read back.
pub open spec fn rel_init() -> RelRec {
    (0, Seq::empty(), Seq::empty(), Seq::empty(), Seq::empty(), Seq::empty())
}

/// A `Relation` message read back.
pub open spec fn rel_of(m: Seq<u8>) -> Option<RelRec> {
    match fields_of(m) {
        Some(ts) => fold_fields(ts, rel_init(), |a: RelRec, t: (u64, FieldVal)| rel_step(a, t)),
        None => None,
    }
}

/// The fields the writer puts in a `Relation` message.
pub open spec fn rel_fields(r: EncRelation, map: Seq<usize>) -> Seq<(u64, FieldVal)> {
    seq![(1u64, FieldVal::Varint(r.id as u64))] + packed_fields(2, widen(remap(r.keys@, map)))
        + packed_fields(3, widen(remap(r.vals@, map))) + packed_fields(
        8,
        widen(remap(r.roles_sid@, map)),
    ) + packed_fields(9, zigzags(r.memids@)) + packed_fields(10, widen(r.types@))
}

/// A relation written by the encoder reads back with the same id, its key,
/// value and role indices as written (after the final remapping), its
/// member id delta stream and its member kinds.
#[verifier::rlimit(40)]
pub proof fn lemma_relation_round_trip(r: EncRelation, map: Seq<usize>)
    requires
        relation_message(r, map).len() <= u64::MAX,
    ensures
        rel_of(relation_message(r, map)) == Some((
            r.id,
            widen(remap(r.keys@, map)),
            widen(remap(r.vals@, map)),
            widen(remap(r.roles_sid@, map)),
            r.memids@,
            widen(r.types@),
        )),
{
    let ks = widen(remap(r.keys@, map));
    let vs = widen(remap(r.vals@, map));
    let rs = widen(remap(r.roles_sid@, map));
    let ty = widen(r.types@);
    let a = seq![(1u64, FieldVal::Varint(r.id as u64))];
    let at2 = packed_fields(2, ks);
    let at3 = packed_fields(3, vs);
    let at8 = packed_fields(8, rs);
    let at9 = packed_fields(9, zigzags(r.memids@));
    let at10 = packed_fields(10, ty);
    let ts = rel_fields(r, map);
    lemma_fields_bytes_append(a, at2);
    lemma_fields_bytes_append(a + at2, at3);
    lemma_fields_bytes_append(a + at2 + at3, at8);
    lemma_fields_bytes_append(a + at2 + at3 + at8, at9);
    lemma_fields_bytes_append(a + at2 + at3 + at8 + at9, at10);
    lemma_one_field(a[0]);
    lemma_packed_fields_bytes(2, ks);
    lemma_packed_fields_bytes(3, vs);
    lemma_packed_fields_bytes(8, rs);
    lemma_packed_fields_bytes(9, zigzags(r.memids@));
    lemma_packed_fields_bytes(10, ty);
    assert(fields_bytes(ts) =~= relation_message(r, map));
    assert(numbers_fit(ts));
    lemma_fields_round_trip(ts);
    let step = |a: RelRec, t: (u64, FieldVal)| rel_step(a, t);
    lemma_fold_append(a + at2 + at3 + at8 + at9, at10, rel_init(), step);
    lemma_fold_append(a + at2 + at3 + at8, at9, rel_init(), step);
    lemma_fold_append(a + at2 + at3, at8, rel_init(), step);
    lemma_fold_append(a + at2, at3, rel_init(), step);
    lemma_fold_append(a, at2, rel_init(), step);
    lemma_fold_one(a[0], rel_init(), step);
    lemma_id_round_trip(r.id);
    let e: Seq<i64> = Seq::empty();
    let eu: Seq<u64> = Seq::empty();
    lemma_varints_round_trip(ks);
    lemma_varints_round_trip(vs);
    lemma_varints_round_trip(rs);
    lemma_varints_round_trip(zigzags(r.memids@));
    lemma_varints_round_trip(ty);
    lemma_unzigzags(r.memids@);
    assert(ks.len() == 0 ==> ks =~= eu);
    assert(vs.len() == 0 ==> vs =~= eu);
    assert(rs.len() == 0 ==> rs =~= eu);
    assert(ty.len() == 0 ==> ty =~= eu);
    assert(r.memids@.len() == 0 ==> r.memids@ =~= e);
    lemma_packed_fold(2, ks, (r.id, eu, eu, eu, e, eu), step);
    lemma_packed_fold(3, vs, (r.id, ks, eu, eu, e, eu), step);
    lemma_packed_fold(8, rs, (r.id, ks, vs, eu, e, eu), step);
    lemma_packed_fold(9, zigzags(r.memids@), (r.id, ks, vs, rs, e, eu), step);
    lemma_packed_fold(10, ty, (r.id, ks, vs, rs, r.memids@, eu), step);
}

/// A group read back: its nodes, ways and relations.
pub type GroupRec = (Seq<NodeRec>, Seq<WayRec>, Seq<RelRec>);

/// One field of a `PrimitiveGroup` taken into what was read so far; dense
/// nodes (field 2) are not read.
pub open spec fn group_step(acc: GroupRec, t: (u64, FieldVal)) -> Option<GroupRec> {
    match t.1 {
        FieldVal::Varint(_) => if 1 <= t.0 <= 4 {
            None
        } else {
            Some(acc)
        },
        FieldVal::Bytes(b) => if t.0 == 1 {
            match node_of(b) {
                Some(n) => Some((acc.0.push(n), acc.1, acc.2)),
                None => None,
            }
        } else if t.0 == 3 {
            match way_of(b) {
                Some(w) => Some((acc.0, acc.1.push(w), acc.2)),
                None => None,
            }
        } else if t.0 == 4 {
            match rel_of(b) {
                Some(r) => Some((acc.0, acc.1, acc.2.push(r))),
                None => None,
            }
        } else if t.0 == 2 {
            None
        } else {
            Some(acc)
        },
    }
}

/// A `PrimitiveGroup` message read back.
pub open spec fn group_of(m: Seq<u8>) -> Option<GroupRec> {
    match fields_of(m) {
        Some(ts) => fold_fields(
            ts,
            (Seq::empty(), Seq::empty(), Seq::empty()),
            |a: GroupRec, t: (u64, FieldVal)| group_step(a, t),
        ),
        None => None,
    }
}

/// Each message of `msgs` as a length-delimited field `field`.
pub open spec fn bytes_fields(field: u64, msgs: Seq<Seq<u8>>) -> Seq<(u64, FieldVal)> {
    msgs.map_values(|m: Seq<u8>| (field, FieldVal::Bytes(m)))
}

proof fn lemma_embedded_fields(field: u64, msgs: Seq<Seq<u8>>)
    ensures
        fields_bytes(bytes_fields(field, msgs)) == embedded(field, msgs),
    decreases msgs.len(),
{
    if msgs.len() > 0 {
        lemma_embedded_fields(field, msgs.drop_last());
        assert(bytes_fields(field, msgs).drop_last() =~= bytes_fields(field, msgs.drop_last()));
    } else {
        assert(fields_bytes(bytes_fields(field, msgs)) =~= embedded(field, msgs));
    }
}

proof fn lemma_embedded_holds(field: u64, msgs: Seq<Seq<u8>>, i: int)
    requires
        0 <= i < msgs.len(),
    ensures
        msgs[i].len() <= embedded(field, msgs).len(),
        bytes_field(field, msgs[i]).len() <= embedded(field, msgs).len(),
    decreases msgs.len(),
{
    if i < msgs.len() - 1 {
        lemma_embedded_holds(field, msgs.drop_last(), i);
    }
}

/// A node as the writer stores it, read back.
pub open spec fn node_rec(n: EncNode, map: Seq<usize>) -> NodeRec {
    (n.id, widen(remap(n.keys@, map)), widen(remap(n.vals@, map)), n.lat, n.lon)
}

/// A way as the writer stores it, read back.
pub open spec fn way_rec(w: EncWay, map: Seq<usize>) -> WayRec {
    (w.id, widen(remap(w.keys@, map)), widen(remap(w.vals@, map)), w.refs@, w.lat@, w.lon@)
}

/// A relation as the writer stores it, read back.
pub open spec fn rel_rec(r: EncRelation, map: Seq<usize>) -> RelRec {
    (
        r.id,
        widen(remap(r.keys@, map)),
        widen(remap(r.vals@, map)),
        widen(remap(r.roles_sid@, map)),
        r.memids@,
        widen(r.types@),
    )
}

proof fn lemma_node_group_fold(g: Seq<EncNode>, map: Seq<usize>)
    requires
        node_group_message(g, map).len() <= u64::MAX,
    ensures
        fold_fields(
            bytes_fields(1, g.map_values(|n: EncNode| node_message(n, map))),
            (Seq::<NodeRec>::empty(), Seq::<WayRec>::empty(), Seq::<RelRec>::empty()),
            |a: GroupRec, t: (u64, FieldVal)| group_step(a, t),
        ) == Some((g.map_values(|n: EncNode| node_rec(n, map)), Seq::<WayRec>::empty(), Seq::<RelRec>::empty())),
    decreases g.len(),
{
    let msgs = g.map_values(|n: EncNode| node_message(n, map));
    let step = |a: GroupRec, t: (u64, FieldVal)| group_step(a, t);
    let init = (Seq::<NodeRec>::empty(), Seq::<WayRec>::empty(), Seq::<RelRec>::empty());
    if g.len() == 0 {
        assert(bytes_fields(1, msgs) =~= Seq::<(u64, FieldVal)>::empty());
        assert(g.map_values(|n: EncNode| node_rec(n, map)) =~= Seq::<NodeRec>::empty());
    } else {
        let last = g.len() - 1;
        let msgs0 = g.drop_last().map_values(|n: EncNode| node_message(n, map));
        assert(msgs.drop_last() =~= msgs0);
        assert(embedded(1, msgs) == embedded(1, msgs0) + bytes_field(1, msgs.last()));
        lemma_node_group_fold(g.drop_last(), map);
        assert(bytes_fields(1, msgs) =~= bytes_fields(1, msgs0) + seq![(1u64, FieldVal::Bytes(msgs[last]))]);
        lemma_fold_append(bytes_fields(1, msgs0), seq![(1u64, FieldVal::Bytes(msgs[last]))], init, step);
        let before = (g.drop_last().map_values(|n: EncNode| node_rec(n, map)), Seq::<WayRec>::empty(), Seq::<RelRec>::empty());
        lemma_fold_one((1u64, FieldVal::Bytes(msgs[last])), before, step);
        lemma_node_round_trip(g[last], map);
        assert(before.0.push(node_rec(g[last], map)) =~= g.map_values(|n: EncNode| node_rec(n, map)));
    }
}

/// A group of nodes written by the encoder reads back as those nodes.
pub proof fn lemma_node_group_round_trip(g: Seq<EncNode>, map: Seq<usize>)
    requires
        node_group_message(g, map).len() <= u64::MAX,
    ensures
        group_of(node_group_message(g, map)) == Some((
            g.map_values(|n: EncNode| node_rec(n, map)),
            Seq::<WayRec>::empty(),
            Seq::<RelRec>::empty(),
        )),
{
    let msgs = g.map_values(|n: EncNode| node_message(n, map));
    let ts = bytes_fields(1, msgs);
    lemma_embedded_fields(1, msgs);
    assert(numbers_fit(ts));
    lemma_fields_round_trip(ts);
    lemma_node_group_fold(g, map);
}
proof fn lemma_way_group_fold(g: Seq<EncWay>, map: Seq<usize>)
    requires
        way_group_message(g, map).len() <= u64::MAX,
    ensures
        fold_fields(
            bytes_fields(3, g.map_values(|w: EncWay| way_message(w, map))),
            (Seq::<NodeRec>::empty(), Seq::<WayRec>::empty(), Seq::<RelRec>::empty()),
            |a: GroupRec, t: (u64, FieldVal)| group_step(a, t),
        ) == Some((Seq::<NodeRec>::empty(), g.map_values(|w: EncWay| way_rec(w, map)), Seq::<RelRec>::empty())),
    decreases g.len(),
{
    let msgs = g.map_values(|w: EncWay| way_message(w, map));
    let step = |a: GroupRec, t: (u64, FieldVal)| group_step(a, t);
    let init = (Seq::<NodeRec>::empty(), Seq::<WayRec>::empty(), Seq::<RelRec>::empty());
    if g.len() == 0 {
        assert(bytes_fields(3, msgs) =~= Seq::<(u64, FieldVal)>::empty());
        assert(g.map_values(|w: EncWay| way_rec(w, map)) =~= Seq::<WayRec>::empty());
    } else {
        let last = g.len() - 1;
        let msgs0 = g.drop_last().map_values(|w: EncWay| way_message(w, map));
        assert(msgs.drop_last() =~= msgs0);
        assert(embedded(3, msgs) == embedded(3, msgs0) + bytes_field(3, msgs.last()));
        lemma_way_group_fold(g.drop_last(), map);
        assert(bytes_fields(3, msgs) =~= bytes_fields(3, msgs0) + seq![(3u64, FieldVal::Bytes(msgs[last]))]);
        lemma_fold_append(bytes_fields(3, msgs0), seq![(3u64, FieldVal::Bytes(msgs[last]))], init, step);
        let before = (Seq::<NodeRec>::empty(), g.drop_last().map_values(|w: EncWay| way_rec(w, map)), Seq::<RelRec>::empty());
        lemma_fold_one((3u64, FieldVal::Bytes(msgs[last])), before, step);
        lemma_way_round_trip(g[last], map);
        assert(before.1.push(way_rec(g[last], map)) =~= g.map_values(|w: EncWay| way_rec(w, map)));
    }
}

/// A group of ways written by the encoder reads back as those ways.
pub proof fn lemma_way_group_round_trip(g: Seq<EncWay>, map: Seq<usize>)
    requires
        way_group_message(g, map).len() <= u64::MAX,
    ensures
        group_of(way_group_message(g, map)) == Some((
            Seq::<NodeRec>::empty(),
            g.map_values(|w: EncWay| way_rec(w, map)),
            Seq::<RelRec>::empty(),
        )),
{
    let msgs = g.map_values(|w: EncWay| way_message(w, map));
    let ts = bytes_fields(3, msgs);
    lemma_embedded_fields(3, msgs);
    assert(numbers_fit(ts));
    lemma_fields_round_trip(ts);
    lemma_way_group_fold(g, map);
}
proof fn lemma_rel_group_fold(g: Seq<EncRelation>, map: Seq<usize>)
    requires
        rel_group_message(g, map).len() <= u64::MAX,
    ensures
        fold_fields(
            bytes_fields(4, g.map_values(|r: EncRelation| relation_message(r, map))),
            (Seq::<NodeRec>::empty(), Seq::<WayRec>::empty(), Seq::<RelRec>::empty()),
            |a: GroupRec, t: (u64, FieldVal)| group_step(a, t),
        ) == Some((Seq::<NodeRec>::empty(), Seq::<WayRec>::empty(), g.map_values(|r: EncRelation| rel_rec(r, map)))),
    decreases g.len(),
{
    let msgs = g.map_values(|r: EncRelation| relation_message(r, map));
    let step = |a: GroupRec, t: (u64, FieldVal)| group_step(a, t);
    let init = (Seq::<NodeRec>::empty(), Seq::<WayRec>::empty(), Seq::<RelRec>::empty());
    if g.len() == 0 {
        assert(bytes_fields(4, msgs) =~= Seq::<(u64, FieldVal)>::empty());
        assert(g.map_values(|r: EncRelation| rel_rec(r, map)) =~= Seq::<RelRec>::empty());
    } else {
        let last = g.len() - 1;
        let msgs0 = g.drop_last().map_values(|r: EncRelation| relation_message(r, map));
        assert(msgs.drop_last() =~= msgs0);
        assert(embedded(4, msgs) == embedded(4, msgs0) + bytes_field(4, msgs.last()));
        lemma_rel_group_fold(g.drop_last(), map);
        assert(bytes_fields(4, msgs) =~= bytes_fields(4, msgs0) + seq![(4u64, FieldVal::Bytes(msgs[last]))]);
        lemma_fold_append(bytes_fields(4, msgs0), seq![(4u64, FieldVal::Bytes(msgs[last]))], init, step);
        let before = (Seq::<NodeRec>::empty(), Seq::<WayRec>::empty(), g.drop_last().map_values(|r: EncRelation| rel_rec(r, map)));
        lemma_fold_one((4u64, FieldVal::Bytes(msgs[last])), before, step);
        lemma_relation_round_trip(g[last], map);
        assert(before.2.push(rel_rec(g[last], map)) =~= g.map_values(|r: EncRelation| rel_rec(r, map)));
    }
}

/// A group of relations written by the encoder reads back as those
/// relations.
pub proof fn lemma_rel_group_round_trip(g: Seq<EncRelation>, map: Seq<usize>)
    requires
        rel_group_message(g, map).len() <= u64::MAX,
    ensures
        group_of(rel_group_message(g, map)) == Some((
            Seq::<NodeRec>::empty(),
            Seq::<WayRec>::empty(),
            g.map_values(|r: EncRelation| rel_rec(r, map)),
        )),
{
    let msgs = g.map_values(|r: EncRelation| relation_message(r, map));
    let ts = bytes_fields(4, msgs);
    lemma_embedded_fields(4, msgs);
    assert(numbers_fit(ts));
    lemma_fields_round_trip(ts);
    lemma_rel_group_fold(g, map);
}

/// One field of a `StringTable` taken into the entries read so far.
pub open spec fn table_step(acc: Seq<Seq<u8>>, t: (u64, FieldVal)) -> Option<Seq<Seq<u8>>> {
    match t.1 {
        FieldVal::Bytes(b) => if t.0 == 1 {
            Some(acc.push(b))
        } else {
            Some(acc)
        },
        FieldVal::Varint(_) => if t.0 == 1 {
            None
        } else {
            Some(acc)
        },
    }
}

/// A `StringTable` message read back.
pub open spec fn table_of(m: Seq<u8>) -> Option<Seq<Seq<u8>>> {
    match fields_of(m) {
        Some(ts) => fold_fields(ts, Seq::empty(), |a: Seq<Seq<u8>>, t: (u64, FieldVal)| table_step(a, t)),
        None => None,
    }
}

/// A block read back: string table, groups, and the raw values of
/// `granularity`, `date_granularity`, `lat_offset` and `lon_offset` when set.
pub type BlockRec = (Seq<Seq<u8>>, Seq<GroupRec>, Option<u64>, Option<u64>, Option<u64>, Option<u64>);

/// One field of a `PrimitiveBlock` taken into what was read so far.
pub open spec fn block_step(acc: BlockRec, t: (u64, FieldVal)) -> Option<BlockRec> {
    match t.1 {
        FieldVal::Bytes(b) => if t.0 == 1 {
            match table_of(b) {
                Some(tb) => Some((tb, acc.1, acc.2, acc.3, acc.4, acc.5)),
                None => None,
            }
        } else if t.0 == 2 {
            match group_of(b) {
                Some(g) => Some((acc.0, acc.1.push(g), acc.2, acc.3, acc.4, acc.5)),
                None => None,
            }
        } else if 17 <= t.0 <= 20 {
            None
        } else {
            Some(acc)
        },
        FieldVal::Varint(v) => if t.0 == 17 {
            Some((acc.0, acc.1, Some(v), acc.3, acc.4, acc.5))
        } else if t.0 == 18 {
            Some((acc.0, acc.1, acc.2, Some(v), acc.4, acc.5))
        } else if t.0 == 19 {
            Some((acc.0, acc.1, acc.2, acc.3, Some(v), acc.5))
        } else if t.0 == 20 {
            Some((acc.0, acc.1, acc.2, acc.3, acc.4, Some(v)))
        } else if t.0 == 1 || t.0 == 2 {
            None
        } else {
            Some(acc)
        },
    }
}

/// The initial state of a block read back.
pub open spec fn block_init() -> BlockRec {
    (Seq::empty(), Seq::empty(), None, None, None, None)
}

/// A `PrimitiveBlock` message read back.
pub open spec fn block_of(m: Seq<u8>) -> Option<BlockRec> {
    match fields_of(m) {
        Some(ts) => fold_fields(ts, block_init(), |a: BlockRec, t: (u64, FieldVal)| block_step(a, t)),
        None => None,
    }
}

proof fn lemma_table_fold(table: Seq<Seq<u8>>)
    ensures
        fold_fields(
            bytes_fields(1, table),
            Seq::<Seq<u8>>::empty(),
            |a: Seq<Seq<u8>>, t: (u64, FieldVal)| table_step(a, t),
        ) == Some(table),
    decreases table.len(),
{
    let step = |a: Seq<Seq<u8>>, t: (u64, FieldVal)| table_step(a, t);
    if table.len() == 0 {
        assert(bytes_fields(1, table) =~= Seq::<(u64, FieldVal)>::empty());
        assert(table =~= Seq::<Seq<u8>>::empty());
    } else {
        lemma_table_fold(table.drop_last());
        assert(bytes_fields(1, table) =~= bytes_fields(1, table.drop_last()) + seq![(1u64, FieldVal::Bytes(table.last()))]);
        lemma_fold_append(bytes_fields(1, table.drop_last()), seq![(1u64, FieldVal::Bytes(table.last()))], Seq::empty(), step);
        lemma_fold_one((1u64, FieldVal::Bytes(table.last())), table.drop_last(), step);
        assert(table.drop_last().push(table.last()) =~= table);
    }
}

/// A string table written by the encoder reads back as itself.
pub proof fn lemma_table_round_trip(table: Seq<Seq<u8>>)
    requires
        string_table_message(table).len() <= u64::MAX,
    ensures
        table_of(string_table_message(table)) == Some(table),
{
    lemma_embedded_fields(1, table);
    assert(numbers_fit(bytes_fields(1, table)));
    lemma_fields_round_trip(bytes_fields(1, table));
    lemma_table_fold(table);
}

proof fn lemma_groups_fold(msgs: Seq<Seq<u8>>, recs: Seq<GroupRec>, acc: BlockRec)
    requires
        msgs.len() == recs.len(),
        forall|i: int| 0 <= i < msgs.len() ==> group_of(#[trigger] msgs[i]) == Some(recs[i]),
    ensures
        fold_fields(bytes_fields(2, msgs), acc, |a: BlockRec, t: (u64, FieldVal)| block_step(a, t))
            == Some((acc.0, acc.1 + recs, acc.2, acc.3, acc.4, acc.5)),
    decreases msgs.len(),
{
    let step = |a: BlockRec, t: (u64, FieldVal)| block_step(a, t);
    if msgs.len() == 0 {
        assert(bytes_fields(2, msgs) =~= Seq::<(u64, FieldVal)>::empty());
        assert(acc.1 + recs =~= acc.1);
    } else {
        let n = msgs.len() - 1;
        lemma_groups_fold(msgs.drop_last(), recs.drop_last(), acc);
        assert(bytes_fields(2, msgs) =~= bytes_fields(2, msgs.drop_last()) + seq![(2u64, FieldVal::Bytes(msgs[n]))]);
        lemma_fold_append(bytes_fields(2, msgs.drop_last()), seq![(2u64, FieldVal::Bytes(msgs[n]))], acc, step);
        let mid = (acc.0, acc.1 + recs.drop_last(), acc.2, acc.3, acc.4, acc.5);
        lemma_fold_one((2u64, FieldVal::Bytes(msgs[n])), mid, step);
        assert(group_of(msgs[n]) == Some(recs[n]));
        assert((acc.1 + recs.drop_last()).push(recs[n]) =~= acc.1 + recs);
    }
}

/// The fields of an optional setting.
pub open spec fn opt_fields(field: u64, v: Option<u64>) -> Seq<(u64, FieldVal)> {
    match v {
        Some(x) => seq![(field, FieldVal::Varint(x))],
        None => Seq::empty(),
    }
}

/// An optional `int32` setting as its raw varint value.
pub open spec fn raw_i32(v: Option<i32>) -> Option<u64> {
    match v {
        Some(x) => Some(x as u64),
        None => None,
    }
}

/// An optional `int64` setting as its raw varint value.
pub open spec fn raw_i64(v: Option<i64>) -> Option<u64> {
    match v {
        Some(x) => Some(x as u64),
        None => None,
    }
}

proof fn lemma_opt_fields(field: u64, v: Option<u64>, acc: BlockRec)
    ensures
        fields_bytes(opt_fields(field, v)) == (match v {
            Some(x) => uint_field(field, x),
            None => Seq::<u8>::empty(),
        }),
        fold_fields(opt_fields(field, v), acc, |a: BlockRec, t: (u64, FieldVal)| block_step(a, t))
            == (match v {
            Some(x) => block_step(acc, (field, FieldVal::Varint(x))),
            None => Some(acc),
        }),
{
    match v {
        Some(x) => {
            lemma_one_field((field, FieldVal::Varint(x)));
            lemma_fold_one((field, FieldVal::Varint(x)), acc, |a: BlockRec, t: (u64, FieldVal)| block_step(a, t));
        },
        None => {
            assert(fields_bytes(Seq::<(u64, FieldVal)>::empty()) =~= Seq::<u8>::empty());
        },
    }
}

/// The groups of a block as they read back: its node groups, then its way
/// groups, then its relation groups.
pub open spec fn group_recs(b: PrimitiveBlock, map: Seq<usize>) -> Seq<GroupRec> {
    b.node_groups().map_values(
        |g: Seq<EncNode>|
            (g.map_values(|n: EncNode| node_rec(n, map)), Seq::<WayRec>::empty(), Seq::<RelRec>::empty()),
    ) + b.way_groups().map_values(
        |g: Seq<EncWay>|
            (Seq::<NodeRec>::empty(), g.map_values(|w: EncWay| way_rec(w, map)), Seq::<RelRec>::empty()),
    ) + b.rel_groups().map_values(
        |g: Seq<EncRelation>|
            (Seq::<NodeRec>::empty(), Seq::<WayRec>::empty(), g.map_values(|r: EncRelation| rel_rec(r, map))),
    )
}

/// A block written by the encoder reads back: its final string table, every
/// group in order (node groups, then way groups, then relation groups) with
/// each element as stored, and the settings that were given.
#[verifier::rlimit(40)]
pub proof fn lemma_block_round_trip(b: PrimitiveBlock, table: Seq<Seq<u8>>, map: Seq<usize>)
    requires
        b.block_message(table, map).len() <= u64::MAX,
    ensures
        block_of(b.block_message(table, map)) == Some((
            table,
            group_recs(b, map),
            raw_i32(b.options_spec().granularity),
            raw_i32(b.options_spec().date_granularity),
            raw_i64(b.options_spec().lat_offset),
            raw_i64(b.options_spec().lon_offset),
        )),
{
    let m = b.block_message(table, map);
    let st = string_table_message(table);
    let ngm = b.node_groups().map_values(|g: Seq<EncNode>| node_group_message(g, map));
    let wgm = b.way_groups().map_values(|g: Seq<EncWay>| way_group_message(g, map));
    let rgm = b.rel_groups().map_values(|g: Seq<EncRelation>| rel_group_message(g, map));
    let o = b.options_spec();
    let t1 = seq![(1u64, FieldVal::Bytes(st))];
    let tn = bytes_fields(2, ngm);
    let tw = bytes_fields(2, wgm);
    let tr = bytes_fields(2, rgm);
    let o17 = opt_fields(17, raw_i32(o.granularity));
    let o18 = opt_fields(18, raw_i32(o.date_granularity));
    let o19 = opt_fields(19, raw_i64(o.lat_offset));
    let o20 = opt_fields(20, raw_i64(o.lon_offset));
    let ts = t1 + tn + tw + tr + o17 + o18 + o19 + o20;
    let step = |a: BlockRec, t: (u64, FieldVal)| block_step(a, t);

    lemma_fields_bytes_append(t1, tn);
    lemma_fields_bytes_append(t1 + tn, tw);
    lemma_fields_bytes_append(t1 + tn + tw, tr);
    lemma_fields_bytes_append(t1 + tn + tw + tr, o17);
    lemma_fields_bytes_append(t1 + tn + tw + tr + o17, o18);
    lemma_fields_bytes_append(t1 + tn + tw + tr + o17 + o18, o19);
    lemma_fields_bytes_append(t1 + tn + tw + tr + o17 + o18 + o19, o20);
    lemma_one_field(t1[0]);
    lemma_embedded_fields(2, ngm);
    lemma_embedded_fields(2, wgm);
    lemma_embedded_fields(2, rgm);
    let init = block_init();
    lemma_opt_fields(17, raw_i32(o.granularity), init);
    lemma_opt_fields(18, raw_i32(o.date_granularity), init);
    lemma_opt_fields(19, raw_i64(o.lat_offset), init);
    lemma_opt_fields(20, raw_i64(o.lon_offset), init);
    assert(fields_bytes(ts) =~= m);
    assert(numbers_fit(ts));
    lemma_fields_round_trip(ts);

    lemma_fold_append(t1 + tn + tw + tr + o17 + o18 + o19, o20, init, step);
    lemma_fold_append(t1 + tn + tw + tr + o17 + o18, o19, init, step);
    lemma_fold_append(t1 + tn + tw + tr + o17, o18, init, step);
    lemma_fold_append(t1 + tn + tw + tr, o17, init, step);
    lemma_fold_append(t1 + tn + tw, tr, init, step);
    lemma_fold_append(t1 + tn, tw, init, step);
    lemma_fold_append(t1, tn, init, step);

    lemma_fold_one(t1[0], init, step);
    lemma_table_round_trip(table);
    let a1: BlockRec = (table, Seq::empty(), None, None, None, None);

    let nrecs = b.node_groups().map_values(
        |g: Seq<EncNode>|
            (g.map_values(|n: EncNode| node_rec(n, map)), Seq::<WayRec>::empty(), Seq::<RelRec>::empty()),
    );
    assert forall|i: int| 0 <= i < ngm.len() implies group_of(#[trigger] ngm[i]) == Some(nrecs[i]) by {
        lemma_embedded_holds(2, ngm, i);
        lemma_node_group_round_trip(b.node_groups()[i], map);
    }
    lemma_groups_fold(ngm, nrecs, a1);
    let a2: BlockRec = (table, Seq::empty() + nrecs, None, None, None, None);

    let wrecs = b.way_groups().map_values(
        |g: Seq<EncWay>|
            (Seq::<NodeRec>::empty(), g.map_values(|w: EncWay| way_rec(w, map)), Seq::<RelRec>::empty()),
    );
    assert forall|i: int| 0 <= i < wgm.len() implies group_of(#[trigger] wgm[i]) == Some(wrecs[i]) by {
        lemma_embedded_holds(2, wgm, i);
        lemma_way_group_round_trip(b.way_groups()[i], map);
    }
    lemma_groups_fold(wgm, wrecs, a2);
    let a3: BlockRec = (table, Seq::empty() + nrecs + wrecs, None, None, None, None);

    let rrecs = b.rel_groups().map_values(
        |g: Seq<EncRelation>|
            (Seq::<NodeRec>::empty(), Seq::<WayRec>::empty(), g.map_values(|r: EncRelation| rel_rec(r, map))),
    );
    assert forall|i: int| 0 <= i < rgm.len() implies group_of(#[trigger] rgm[i]) == Some(rrecs[i]) by {
        lemma_embedded_holds(2, rgm, i);
        lemma_rel_group_round_trip(b.rel_groups()[i], map);
    }
    lemma_groups_fold(rgm, rrecs, a3);
    let gs = Seq::<GroupRec>::empty() + nrecs + wrecs + rrecs;
    assert(gs =~= group_recs(b, map));
    let a4: BlockRec = (table, gs, None, None, None, None);
    lemma_opt_fields(17, raw_i32(o.granularity), a4);
    let a5: BlockRec = (table, gs, raw_i32(o.granularity), None, None, None);
    lemma_opt_fields(18, raw_i32(o.date_granularity), a5);
    let a6: BlockRec = (table, gs, raw_i32(o.granularity), raw_i32(o.date_granularity), None, None);
    lemma_opt_fields(19, raw_i64(o.lat_offset), a6);
    let a7: BlockRec = (table, gs, raw_i32(o.granularity), raw_i32(o.date_granularity), raw_i64(o.lat_offset), None);
    lemma_opt_fields(20, raw_i64(o.lon_offset), a7);
}

/// A finished block reads back whole: the bytes that `finalize` returns
/// hold one `OSMData` frame whose payload reads back as the block's final
/// string table, its groups in order with every element as stored, and its
/// settings. With `lemma_stored_strings_resolve`, every stored string index
/// then names in that table the string it named while the block was built.
pub proof fn lemma_block_file_round_trip(
    b: PrimitiveBlock,
    table: Seq<Seq<u8>>,
    map: Seq<usize>,
    r: Result<Vec<u8>, BlobError>,
)
    requires
        framed(encode_utf8("OSMData"@), b.block_message(table, map), r),
        r is Ok,
    ensures
        frames_of(r->Ok_0@) == Ok::<_, FrameError>(
            seq![(encode_utf8("OSMData"@), blob_message(b.block_message(table, map)), r->Ok_0@.len() as int)],
        ),
        blob_payload_of(blob_message(b.block_message(table, map))) == Ok::<_, FrameError>(
            b.block_message(table, map),
        ),
        block_of(b.block_message(table, map)) == Some((
            table,
            group_recs(b, map),
            raw_i32(b.options_spec().granularity),
            raw_i32(b.options_spec().date_granularity),
            raw_i64(b.options_spec().lat_offset),
            raw_i64(b.options_spec().lon_offset),
        )),
{
    lemma_framed_round_trip(encode_utf8("OSMData"@), b.block_message(table, map), r);
    lemma_block_round_trip(b, table, map);
}

/// A node read back from a block.
#[derive(Debug, PartialEq, Eq)]
pub struct DecodedNode {
    pub id: i64,
    pub keys: Vec<u64>,
    pub vals: Vec<u64>,
    pub lat: i64,
    pub lon: i64,
}

/// A way read back from a block; `refs`, `lat` and `lon` are delta streams.
#[derive(Debug, PartialEq, Eq)]
pub struct DecodedWay {
    pub id: i64,
    pub keys: Vec<u64>,
    pub vals: Vec<u64>,
    pub refs: Vec<i64>,
    pub lat: Vec<i64>,
    pub lon: Vec<i64>,
}

/// A relation read back from a block; `memids` is a delta stream.
#[derive(Debug, PartialEq, Eq)]
pub struct DecodedRelation {
    pub id: i64,
    pub keys: Vec<u64>,
    pub vals: Vec<u64>,
    pub roles: Vec<u64>,
    pub memids: Vec<i64>,
    pub types: Vec<u64>,
}

pub open spec fn node_view(n: DecodedNode) -> NodeRec {
    (n.id, n.keys@, n.vals@, n.lat, n.lon)
}

pub open spec fn way_view(w: DecodedWay) -> WayRec {
    (w.id, w.keys@, w.vals@, w.refs@, w.lat@, w.lon@)
}

pub open spec fn rel_view(r: DecodedRelation) -> RelRec {
    (r.id, r.keys@, r.vals@, r.roles@, r.memids@, r.types@)
}

/// Undoes the zigzag mapping of each value.
pub fn decode_zigzags(us: &Vec<u64>) -> (r: Vec<i64>)
    ensures
        r@ == unzigzags(us@),
{
    let mut r: Vec<i64> = Vec::new();
    let mut i: usize = 0;
    while i < us.len()
        invariant
            0 <= i <= us@.len(),
            r@ == unzigzags(us@).take(i as int),
        decreases us@.len() - i,
    {
        r.push(decode_zigzag(us[i]));
        i = i + 1;
        assert(r@ =~= unzigzags(us@).take(i as int));
    }
    assert(unzigzags(us@).take(i as int) =~= unzigzags(us@));
    r
}

/// Reads a `Node` message.
pub fn parse_node(m: &[u8]) -> (r: Option<DecodedNode>)
    ensures
        match r {
            Some(n) => node_of(m@) == Some(node_view(n)),
            None => node_of(m@) is None,
        },
{
    let fs = match read_fields(m) {
        Some(f) => f,
        None => {
            return None;
        },
    };
    let ghost ts = fs@.map_values(|f: Field| field_view(f));
    let mut n = DecodedNode { id: 0, keys: Vec::new(), vals: Vec::new(), lat: 0, lon: 0 };
    let mut i: usize = 0;
    assert(ts.skip(0) =~= ts);
    assert(node_view(n) =~= node_init());
    while i < fs.len()
        invariant
            0 <= i <= fs@.len(),
            ts == fs@.map_values(|f: Field| field_view(f)),
            node_of(m@) == fold_fields(ts.skip(i as int), node_view(n), |a: NodeRec, t: (u64, FieldVal)| node_step(a, t)),
        decreases fs@.len() - i,
    {
        proof {
            assert(ts.skip(i as int).drop_first() =~= ts.skip(i + 1));
            assert(ts.skip(i as int)[0] == ts[i as int]);
        }
        match &fs[i] {
            Field::Varint(num, v) => {
                if *num == 1 {
                    n.id = decode_zigzag(*v);
                } else if *num == 8 {
                    n.lat = decode_zigzag(*v);
                } else if *num == 9 {
                    n.lon = decode_zigzag(*v);
                } else if *num == 2 || *num == 3 {
                    return None;
                }
            },
            Field::Bytes(num, b) => {
                if *num == 2 || *num == 3 {
                    let us = match read_packed(b.as_slice()) {
                        Some(us) => us,
                        None => {
                            return None;
                        },
                    };
                    if *num == 2 {
                        n.keys = us;
                    } else {
                        n.vals = us;
                    }
                } else if *num == 1 || *num == 8 || *num == 9 {
                    return None;
                }
            },
        }
        i = i + 1;
    }
    assert(ts.skip(i as int) =~= Seq::<(u64, FieldVal)>::empty());
    Some(n)
}

/// Reads a `Way` message.
pub fn parse_way(m: &[u8]) -> (r: Option<DecodedWay>)
    ensures
        match r {
            Some(w) => way_of(m@) == Some(way_view(w)),
            None => way_of(m@) is None,
        },
{
    let fs = match read_fields(m) {
        Some(f) => f,
        None => {
            return None;
        },
    };
    let ghost ts = fs@.map_values(|f: Field| field_view(f));
    let mut w = DecodedWay {
        id: 0,
        keys: Vec::new(),
        vals: Vec::new(),
        refs: Vec::new(),
        lat: Vec::new(),
        lon: Vec::new(),
    };
    let mut i: usize = 0;
    assert(ts.skip(0) =~= ts);
    assert(way_view(w) =~= way_init());
    while i < fs.len()
        invariant
            0 <= i <= fs@.len(),
            ts == fs@.map_values(|f: Field| field_view(f)),
            way_of(m@) == fold_fields(ts.skip(i as int), way_view(w), |a: WayRec, t: (u64, FieldVal)| way_step(a, t)),
        decreases fs@.len() - i,
    {
        proof {
            assert(ts.skip(i as int).drop_first() =~= ts.skip(i + 1));
            assert(ts.skip(i as int)[0] == ts[i as int]);
        }
        match &fs[i] {
            Field::Varint(num, v) => {
                if *num == 1 {
                    w.id = *v as i64;
                } else if (2 <= *num && *num <= 3) || (8 <= *num && *num <= 10) {
                    return None;
                }
            },
            Field::Bytes(num, b) => {
                if *num == 1 {
                    return None;
                } else if *num == 2 || *num == 3 || (8 <= *num && *num <= 10) {
                    let us = match read_packed(b.as_slice()) {
                        Some(us) => us,
                        None => {
                            return None;
                        },
                    };
                    if *num == 2 {
                        w.keys = us;
                    } else if *num == 3 {
                        w.vals = us;
                    } else if *num == 8 {
                        w.refs = decode_zigzags(&us);
                    } else if *num == 9 {
                        w.lat = decode_zigzags(&us);
                    } else {
                        w.lon = decode_zigzags(&us);
                    }
                }
            },
        }
        i = i + 1;
    }
    assert(ts.skip(i as int) =~= Seq::<(u64, FieldVal)>::empty());
    Some(w)
}

/// Reads a `Relation` message.
pub fn parse_relation(m: &[u8]) -> (r: Option<DecodedRelation>)
    ensures
        match r {
            Some(x) => rel_of(m@) == Some(rel_view(x)),
            None => rel_of(m@) is None,
        },
{
    let fs = match read_fields(m) {
        Some(f) => f,
        None => {
            return None;
        },
    };
    let ghost ts = fs@.map_values(|f: Field| field_view(f));
    let mut x = DecodedRelation {
        id: 0,
        keys: Vec::new(),
        vals: Vec::new(),
        roles: Vec::new(),
        memids: Vec::new(),
        types: Vec::new(),
    };
    let mut i: usize = 0;
    assert(ts.skip(0) =~= ts);
    assert(rel_view(x) =~= rel_init());
    while i < fs.len()
        invariant
            0 <= i <= fs@.len(),
            ts == fs@.map_values(|f: Field| field_view(f)),
            rel_of(m@) == fold_fields(ts.skip(i as int), rel_view(x), |a: RelRec, t: (u64, FieldVal)| rel_step(a, t)),
        decreases fs@.len() - i,
    {
        proof {
            assert(ts.skip(i as int).drop_first() =~= ts.skip(i + 1));
            assert(ts.skip(i as int)[0] == ts[i as int]);
        }
        match &fs[i] {
            Field::Varint(num, v) => {
                if *num == 1 {
                    x.id = *v as i64;
                } else if (2 <= *num && *num <= 3) || (8 <= *num && *num <= 10) {
                    return None;
                }
            },
            Field::Bytes(num, b) => {
                if *num == 1 {
                    return None;
                } else if *num == 2 || *num == 3 || (8 <= *num && *num <= 10) {
                    let us = match read_packed(b.as_slice()) {
                        Some(us) => us,
                        None => {
                            return None;
                        },
                    };
                    if *num == 2 {
                        x.keys = us;
                    } else if *num == 3 {
                        x.vals = us;
                    } else if *num == 8 {
                        x.roles = us;
                    } else if *num == 9 {
                        x.memids = decode_zigzags(&us);
                    } else {
                        x.types = us;
                    }
                }
            },
        }
        i = i + 1;
    }
    assert(ts.skip(i as int) =~= Seq::<(u64, FieldVal)>::empty());
    Some(x)
}

/// A group read back from a block.
#[derive(Debug, PartialEq, Eq)]
pub struct DecodedGroup {
    pub nodes: Vec<DecodedNode>,
    pub ways: Vec<DecodedWay>,
    pub relations: Vec<DecodedRelation>,
}

pub open spec fn group_view(g: DecodedGroup) -> GroupRec {
    (
        g.nodes@.map_values(|n: DecodedNode| node_view(n)),
        g.ways@.map_values(|w: DecodedWay| way_view(w)),
        g.relations@.map_values(|r: DecodedRelation| rel_view(r)),
    )
}

/// Reads a `PrimitiveGroup` message; dense nodes are refused.
pub fn parse_group(m: &[u8]) -> (r: Option<DecodedGroup>)
    ensures
        match r {
            Some(g) => group_of(m@) == Some(group_view(g)),
            None => group_of(m@) is None,
        },
{
    let fs = match read_fields(m) {
        Some(f) => f,
        None => {
            return None;
        },
    };
    let ghost ts = fs@.map_values(|f: Field| field_view(f));
    let mut g = DecodedGroup { nodes: Vec::new(), ways: Vec::new(), relations: Vec::new() };
    let mut i: usize = 0;
    assert(ts.skip(0) =~= ts);
    assert(group_view(g) =~= (Seq::<NodeRec>::empty(), Seq::<WayRec>::empty(), Seq::<RelRec>::empty()));
    while i < fs.len()
        invariant
            0 <= i <= fs@.len(),
            ts == fs@.map_values(|f: Field| field_view(f)),
            group_of(m@) == fold_fields(ts.skip(i as int), group_view(g), |a: GroupRec, t: (u64, FieldVal)| group_step(a, t)),
        decreases fs@.len() - i,
    {
        proof {
            assert(ts.skip(i as int).drop_first() =~= ts.skip(i + 1));
            assert(ts.skip(i as int)[0] == ts[i as int]);
        }
        let ghost before = group_view(g);
        match &fs[i] {
            Field::Varint(num, _) => {
                if 1 <= *num && *num <= 4 {
                    return None;
                }
            },
            Field::Bytes(num, b) => {
                if *num == 1 {
                    match parse_node(b.as_slice()) {
                        Some(n) => {
                            g.nodes.push(n);
                            assert(group_view(g).0 =~= before.0.push(node_view(n)));
                        },
                        None => {
                            return None;
                        },
                    }
                } else if *num == 3 {
                    match parse_way(b.as_slice()) {
                        Some(w) => {
                            g.ways.push(w);
                            assert(group_view(g).1 =~= before.1.push(way_view(w)));
                        },
                        None => {
                            return None;
                        },
                    }
                } else if *num == 4 {
                    match parse_relation(b.as_slice()) {
                        Some(r) => {
                            g.relations.push(r);
                            assert(group_view(g).2 =~= before.2.push(rel_view(r)));
                        },
                        None => {
                            return None;
                        },
                    }
                } else if *num == 2 {
                    return None;
                }
            },
        }
        i = i + 1;
    }
    assert(ts.skip(i as int) =~= Seq::<(u64, FieldVal)>::empty());
    Some(g)
}

/// A block read back.
#[derive(Debug, PartialEq, Eq)]
pub struct DecodedBlock {
    pub strings: Vec<Vec<u8>>,
    pub groups: Vec<DecodedGroup>,
    pub granularity: Option<u64>,
    pub date_granularity: Option<u64>,
    pub lat_offset: Option<u64>,
    pub lon_offset: Option<u64>,
}

pub open spec fn block_view(b: DecodedBlock) -> BlockRec {
    (
        b.strings@.map_values(|s: Vec<u8>| s@),
        b.groups@.map_values(|g: DecodedGroup| group_view(g)),
        b.granularity,
        b.date_granularity,
        b.lat_offset,
        b.lon_offset,
    )
}

/// Reads a `StringTable` message.
pub fn parse_table(m: &[u8]) -> (r: Option<Vec<Vec<u8>>>)
    ensures
        match r {
            Some(t) => table_of(m@) == Some(t@.map_values(|s: Vec<u8>| s@)),
            None => table_of(m@) is None,
        },
{
    let fs = match read_fields(m) {
        Some(f) => f,
        None => {
            return None;
        },
    };
    let ghost ts = fs@.map_values(|f: Field| field_view(f));
    let mut out: Vec<Vec<u8>> = Vec::new();
    let mut i: usize = 0;
    assert(ts.skip(0) =~= ts);
    assert(out@.map_values(|s: Vec<u8>| s@) =~= Seq::<Seq<u8>>::empty());
    while i < fs.len()
        invariant
            0 <= i <= fs@.len(),
            ts == fs@.map_values(|f: Field| field_view(f)),
            table_of(m@) == fold_fields(
                ts.skip(i as int),
                out@.map_values(|s: Vec<u8>| s@),
                |a: Seq<Seq<u8>>, t: (u64, FieldVal)| table_step(a, t),
            ),
        decreases fs@.len() - i,
    {
        proof {
            assert(ts.skip(i as int).drop_first() =~= ts.skip(i + 1));
            assert(ts.skip(i as int)[0] == ts[i as int]);
        }
        let ghost before = out@.map_values(|s: Vec<u8>| s@);
        match &fs[i] {
            Field::Varint(num, _) => {
                if *num == 1 {
                    return None;
                }
            },
            Field::Bytes(num, b) => {
                if *num == 1 {
                    out.push(vstd::slice::slice_to_vec(b.as_slice()));
                    assert(out@.map_values(|s: Vec<u8>| s@) =~= before.push(b@));
                }
            },
        }
        i = i + 1;
    }
    assert(ts.skip(i as int) =~= Seq::<(u64, FieldVal)>::empty());
    Some(out)
}

/// Reads a `PrimitiveBlock` message: its string table, its groups in order,
/// and its settings.
pub fn parse_block(m: &[u8]) -> (r: Option<DecodedBlock>)
    ensures
        match r {
            Some(b) => block_of(m@) == Some(block_view(b)),
            None => block_of(m@) is None,
        },
{
    let fs = match read_fields(m) {
        Some(f) => f,
        None => {
            return None;
        },
    };
    let ghost ts = fs@.map_values(|f: Field| field_view(f));
    let mut b = DecodedBlock {
        strings: Vec::new(),
        groups: Vec::new(),
        granularity: None,
        date_granularity: None,
        lat_offset: None,
        lon_offset: None,
    };
    let mut i: usize = 0;
    assert(ts.skip(0) =~= ts);
    assert(block_view(b) =~= block_init());
    while i < fs.len()
        invariant
            0 <= i <= fs@.len(),
            ts == fs@.map_values(|f: Field| field_view(f)),
            block_of(m@) == fold_fields(ts.skip(i as int), block_view(b), |a: BlockRec, t: (u64, FieldVal)| block_step(a, t)),
        decreases fs@.len() - i,
    {
        proof {
            assert(ts.skip(i as int).drop_first() =~= ts.skip(i + 1));
            assert(ts.skip(i as int)[0] == ts[i as int]);
        }
        let ghost before = block_view(b);
        match &fs[i] {
            Field::Varint(num, v) => {
                if *num == 17 {
                    b.granularity = Some(*v);
                } else if *num == 18 {
                    b.date_granularity = Some(*v);
                } else if *num == 19 {
                    b.lat_offset = Some(*v);
                } else if *num == 20 {
                    b.lon_offset = Some(*v);
                } else if *num == 1 || *num == 2 {
                    return None;
                }
            },
            Field::Bytes(num, bytes) => {
                if *num == 1 {
                    match parse_table(bytes.as_slice()) {
                        Some(t) => {
                            b.strings = t;
                        },
                        None => {
                            return None;
                        },
                    }
                } else if *num == 2 {
                    match parse_group(bytes.as_slice()) {
                        Some(g) => {
                            b.groups.push(g);
                            assert(block_view(b).1 =~= before.1.push(group_view(g)));
                        },
                        None => {
                            return None;
                        },
                    }
                } else if 17 <= *num && *num <= 20 {
                    return None;
                }
            },
        }
        i = i + 1;
    }
    assert(ts.skip(i as int) =~= Seq::<(u64, FieldVal)>::empty());
    Some(b)
}
} // verus!
