//! The PBF messages of a finished block: `Node`, `Way`, `Relation`,
//! `PrimitiveGroup` and `StringTable`, with every stored string index taken
//! through the final table's index map.
use vstd::prelude::*;
use crate::write::wire::{
    bytes_field, packed_field, sint_field, uint_field, widen, zigzags, put_bytes_field,
    put_packed_sint, put_packed_u32, put_sint_field, put_uint_field,
};
use crate::write::write_block::{
    group_seqs, indices_below, nodes_valid, rels_valid, ways_valid, EncNode, EncRelation, EncWay,
};

verus! {

/// String indices taken to their place in the final table.
pub open spec fn remap(ks: Seq<u32>, map: Seq<usize>) -> Seq<u32> {
    ks.map_values(|k: u32| map[k as int] as u32)
}

/// `field` holding each message of `msgs` in turn.
pub open spec fn embedded(field: u64, msgs: Seq<Seq<u8>>) -> Seq<u8>
    decreases msgs.len(),
{
    if msgs.len() == 0 {
        Seq::empty()
    } else {
        embedded(field, msgs.drop_last()) + bytes_field(field, msgs.last())
    }
}

/// The `Node` message: `id` (1), `keys` (2), `vals` (3), `lat` (8), `lon` (9).
pub open spec fn node_message(n: EncNode, map: Seq<usize>) -> Seq<u8> {
    sint_field(1, n.id) + packed_field(2, widen(remap(n.keys@, map))) + packed_field(
        3,
        widen(remap(n.vals@, map)),
    ) + sint_field(8, n.lat) + sint_field(9, n.lon)
}

/// The `Way` message: `id` (1), `keys` (2), `vals` (3), `refs` (8), `lat`
/// (9), `lon` (10).
pub open spec fn way_message(w: EncWay, map: Seq<usize>) -> Seq<u8> {
    uint_field(1, w.id as u64) + packed_field(2, widen(remap(w.keys@, map))) + packed_field(
        3,
        widen(remap(w.vals@, map)),
    ) + packed_field(8, zigzags(w.refs@)) + packed_field(9, zigzags(w.lat@)) + packed_field(
        10,
        zigzags(w.lon@),
    )
}

/// The `Relation` message: `id` (1), `keys` (2), `vals` (3), `roles_sid` (8),
/// `memids` (9), `types` (10).
pub open spec fn relation_message(r: EncRelation, map: Seq<usize>) -> Seq<u8> {
    uint_field(1, r.id as u64) + packed_field(2, widen(remap(r.keys@, map))) + packed_field(
        3,
        widen(remap(r.vals@, map)),
    ) + packed_field(8, widen(remap(r.roles_sid@, map))) + packed_field(9, zigzags(r.memids@))
        + packed_field(10, widen(r.types@))
}

/// A `PrimitiveGroup` of nodes (field 1).
pub open spec fn node_group_message(g: Seq<EncNode>, map: Seq<usize>) -> Seq<u8> {
    embedded(1, g.map_values(|n: EncNode| node_message(n, map)))
}

/// A `PrimitiveGroup` of ways (field 3).
pub open spec fn way_group_message(g: Seq<EncWay>, map: Seq<usize>) -> Seq<u8> {
    embedded(3, g.map_values(|w: EncWay| way_message(w, map)))
}

/// A `PrimitiveGroup` of relations (field 4).
pub open spec fn rel_group_message(g: Seq<EncRelation>, map: Seq<usize>) -> Seq<u8> {
    embedded(4, g.map_values(|r: EncRelation| relation_message(r, map)))
}

/// The `StringTable` message: each entry in field 1.
pub open spec fn string_table_message(table: Seq<Seq<u8>>) -> Seq<u8> {
    embedded(1, table)
}

/// Every index of `ks` taken through `map`.
pub fn remap_indices(ks: &Vec<u32>, map: &Vec<usize>) -> (r: Vec<u32>)
    requires
        indices_below(ks@, map@.len()),
    ensures
        r@ == remap(ks@, map@),
{
    let mut r: Vec<u32> = Vec::new();
    let mut i: usize = 0;
    while i < ks.len()
        invariant
            0 <= i <= ks@.len(),
            indices_below(ks@, map@.len()),
            r@ == remap(ks@, map@).take(i as int),
        decreases ks@.len() - i,
    {
        assert(ks@[i as int] < map@.len());
        r.push(map[ks[i] as usize] as u32);
        i = i + 1;
        assert(r@ =~= remap(ks@, map@).take(i as int));
    }
    assert(remap(ks@, map@).take(i as int) =~= remap(ks@, map@));
    r
}

/// Encodes one node.
pub fn encode_node(n: &EncNode, map: &Vec<usize>) -> (r: Vec<u8>)
    requires
        indices_below(n.keys@, map@.len()),
        indices_below(n.vals@, map@.len()),
    ensures
        r@ == node_message(*n, map@),
{
    let mut out: Vec<u8> = Vec::new();
    put_sint_field(&mut out, 1, n.id);
    put_packed_u32(&mut out, 2, remap_indices(&n.keys, map).as_slice());
    put_packed_u32(&mut out, 3, remap_indices(&n.vals, map).as_slice());
    put_sint_field(&mut out, 8, n.lat);
    put_sint_field(&mut out, 9, n.lon);
    assert(out@ =~= node_message(*n, map@));
    out
}

/// Encodes one way.
pub fn encode_way(w: &EncWay, map: &Vec<usize>) -> (r: Vec<u8>)
    requires
        indices_below(w.keys@, map@.len()),
        indices_below(w.vals@, map@.len()),
    ensures
        r@ == way_message(*w, map@),
{
    let mut out: Vec<u8> = Vec::new();
    put_uint_field(&mut out, 1, w.id as u64);
    put_packed_u32(&mut out, 2, remap_indices(&w.keys, map).as_slice());
    put_packed_u32(&mut out, 3, remap_indices(&w.vals, map).as_slice());
    put_packed_sint(&mut out, 8, w.refs.as_slice());
    put_packed_sint(&mut out, 9, w.lat.as_slice());
    put_packed_sint(&mut out, 10, w.lon.as_slice());
    assert(out@ =~= way_message(*w, map@));
    out
}

/// Encodes one relation.
pub fn encode_relation(r: &EncRelation, map: &Vec<usize>) -> (out: Vec<u8>)
    requires
        indices_below(r.keys@, map@.len()),
        indices_below(r.vals@, map@.len()),
        indices_below(r.roles_sid@, map@.len()),
    ensures
        out@ == relation_message(*r, map@),
{
    let mut out: Vec<u8> = Vec::new();
    put_uint_field(&mut out, 1, r.id as u64);
    put_packed_u32(&mut out, 2, remap_indices(&r.keys, map).as_slice());
    put_packed_u32(&mut out, 3, remap_indices(&r.vals, map).as_slice());
    put_packed_u32(&mut out, 8, remap_indices(&r.roles_sid, map).as_slice());
    put_packed_sint(&mut out, 9, r.memids.as_slice());
    put_packed_u32(&mut out, 10, r.types.as_slice());
    assert(out@ =~= relation_message(*r, map@));
    out
}

/// Encodes a group of nodes.
pub fn encode_node_group(g: &Vec<EncNode>, map: &Vec<usize>) -> (r: Vec<u8>)
    requires
        forall|i: int| 0 <= i < g@.len() ==> indices_below(#[trigger] g@[i].keys@, map@.len())
            && indices_below(g@[i].vals@, map@.len()),
    ensures
        r@ == node_group_message(g@, map@),
{
    let ghost msgs = g@.map_values(|n: EncNode| node_message(n, map@));
    let mut out: Vec<u8> = Vec::new();
    let mut i: usize = 0;
    while i < g.len()
        invariant
            0 <= i <= g@.len(),
            msgs == g@.map_values(|n: EncNode| node_message(n, map@)),
            forall|k: int| 0 <= k < g@.len() ==> indices_below(#[trigger] g@[k].keys@, map@.len())
                && indices_below(g@[k].vals@, map@.len()),
            out@ == embedded(1, msgs.take(i as int)),
        decreases g@.len() - i,
    {
        assert(indices_below(g@[i as int].keys@, map@.len()));
        let m = encode_node(&g[i], map);
        put_bytes_field(&mut out, 1, m.as_slice());
        i = i + 1;
        assert(msgs.take(i as int).drop_last() =~= msgs.take(i - 1));
    }
    assert(msgs.take(i as int) =~= msgs);
    out
}

/// Encodes a group of ways.
pub fn encode_way_group(g: &Vec<EncWay>, map: &Vec<usize>) -> (r: Vec<u8>)
    requires
        forall|i: int| 0 <= i < g@.len() ==> indices_below(#[trigger] g@[i].keys@, map@.len())
            && indices_below(g@[i].vals@, map@.len()),
    ensures
        r@ == way_group_message(g@, map@),
{
    let ghost msgs = g@.map_values(|w: EncWay| way_message(w, map@));
    let mut out: Vec<u8> = Vec::new();
    let mut i: usize = 0;
    while i < g.len()
        invariant
            0 <= i <= g@.len(),
            msgs == g@.map_values(|w: EncWay| way_message(w, map@)),
            forall|k: int| 0 <= k < g@.len() ==> indices_below(#[trigger] g@[k].keys@, map@.len())
                && indices_below(g@[k].vals@, map@.len()),
            out@ == embedded(3, msgs.take(i as int)),
        decreases g@.len() - i,
    {
        assert(indices_below(g@[i as int].keys@, map@.len()));
        let m = encode_way(&g[i], map);
        put_bytes_field(&mut out, 3, m.as_slice());
        i = i + 1;
        assert(msgs.take(i as int).drop_last() =~= msgs.take(i - 1));
    }
    assert(msgs.take(i as int) =~= msgs);
    out
}

/// Encodes a group of relations.
pub fn encode_rel_group(g: &Vec<EncRelation>, map: &Vec<usize>) -> (r: Vec<u8>)
    requires
        forall|i: int| 0 <= i < g@.len() ==> indices_below(#[trigger] g@[i].keys@, map@.len())
            && indices_below(g@[i].vals@, map@.len()) && indices_below(g@[i].roles_sid@, map@.len()),
    ensures
        r@ == rel_group_message(g@, map@),
{
    let ghost msgs = g@.map_values(|r: EncRelation| relation_message(r, map@));
    let mut out: Vec<u8> = Vec::new();
    let mut i: usize = 0;
    while i < g.len()
        invariant
            0 <= i <= g@.len(),
            msgs == g@.map_values(|r: EncRelation| relation_message(r, map@)),
            forall|k: int| 0 <= k < g@.len() ==> indices_below(#[trigger] g@[k].keys@, map@.len())
                && indices_below(g@[k].vals@, map@.len()) && indices_below(g@[k].roles_sid@, map@.len()),
            out@ == embedded(4, msgs.take(i as int)),
        decreases g@.len() - i,
    {
        assert(indices_below(g@[i as int].keys@, map@.len()));
        let m = encode_relation(&g[i], map);
        put_bytes_field(&mut out, 4, m.as_slice());
        i = i + 1;
        assert(msgs.take(i as int).drop_last() =~= msgs.take(i - 1));
    }
    assert(msgs.take(i as int) =~= msgs);
    out
}

/// Encodes the final string table.
pub fn encode_string_table(table: &Vec<Vec<u8>>) -> (r: Vec<u8>)
    ensures
        r@ == string_table_message(table@.map_values(|s: Vec<u8>| s@)),
{
    let ghost entries = table@.map_values(|s: Vec<u8>| s@);
    let mut out: Vec<u8> = Vec::new();
    let mut i: usize = 0;
    while i < table.len()
        invariant
            0 <= i <= table@.len(),
            entries == table@.map_values(|s: Vec<u8>| s@),
            out@ == embedded(1, entries.take(i as int)),
        decreases table@.len() - i,
    {
        put_bytes_field(&mut out, 1, table[i].as_slice());
        i = i + 1;
        assert(entries.take(i as int).drop_last() =~= entries.take(i - 1));
    }
    assert(entries.take(i as int) =~= entries);
    out
}

/// Appends each group of nodes as a `primitivegroup` field (2).
pub fn put_node_groups(out: &mut Vec<u8>, groups: &Vec<Vec<EncNode>>, map: &Vec<usize>)
    requires
        nodes_valid(group_seqs(groups@), map@.len()),
    ensures
        final(out)@ == old(out)@ + embedded(
            2,
            group_seqs(groups@).map_values(|g: Seq<EncNode>| node_group_message(g, map@)),
        ),
{
    let ghost msgs = group_seqs(groups@).map_values(|g: Seq<EncNode>| node_group_message(g, map@));
    let ghost start = out@;
    let mut k: usize = 0;
    while k < groups.len()
        invariant
            0 <= k <= groups@.len(),
            msgs == group_seqs(groups@).map_values(|g: Seq<EncNode>| node_group_message(g, map@)),
            nodes_valid(group_seqs(groups@), map@.len()),
            out@ == start + embedded(2, msgs.take(k as int)),
        decreases groups@.len() - k,
    {
        assert(group_seqs(groups@)[k as int] == groups@[k as int]@);
        let m = encode_node_group(&groups[k], map);
        put_bytes_field(out, 2, m.as_slice());
        k = k + 1;
        assert(msgs.take(k as int).drop_last() =~= msgs.take(k - 1));
        assert(out@ =~= start + embedded(2, msgs.take(k as int)));
    }
    assert(msgs.take(k as int) =~= msgs);
}

/// Appends each group of ways as a `primitivegroup` field (2).
pub fn put_way_groups(out: &mut Vec<u8>, groups: &Vec<Vec<EncWay>>, map: &Vec<usize>)
    requires
        ways_valid(group_seqs(groups@), map@.len()),
    ensures
        final(out)@ == old(out)@ + embedded(
            2,
            group_seqs(groups@).map_values(|g: Seq<EncWay>| way_group_message(g, map@)),
        ),
{
    let ghost msgs = group_seqs(groups@).map_values(|g: Seq<EncWay>| way_group_message(g, map@));
    let ghost start = out@;
    let mut k: usize = 0;
    while k < groups.len()
        invariant
            0 <= k <= groups@.len(),
            msgs == group_seqs(groups@).map_values(|g: Seq<EncWay>| way_group_message(g, map@)),
            ways_valid(group_seqs(groups@), map@.len()),
            out@ == start + embedded(2, msgs.take(k as int)),
        decreases groups@.len() - k,
    {
        assert(group_seqs(groups@)[k as int] == groups@[k as int]@);
        let m = encode_way_group(&groups[k], map);
        put_bytes_field(out, 2, m.as_slice());
        k = k + 1;
        assert(msgs.take(k as int).drop_last() =~= msgs.take(k - 1));
        assert(out@ =~= start + embedded(2, msgs.take(k as int)));
    }
    assert(msgs.take(k as int) =~= msgs);
}

/// Appends each group of relations as a `primitivegroup` field (2).
pub fn put_rel_groups(out: &mut Vec<u8>, groups: &Vec<Vec<EncRelation>>, map: &Vec<usize>)
    requires
        rels_valid(group_seqs(groups@), map@.len()),
    ensures
        final(out)@ == old(out)@ + embedded(
            2,
            group_seqs(groups@).map_values(|g: Seq<EncRelation>| rel_group_message(g, map@)),
        ),
{
    let ghost msgs = group_seqs(groups@).map_values(|g: Seq<EncRelation>| rel_group_message(g, map@));
    let ghost start = out@;
    let mut k: usize = 0;
    while k < groups.len()
        invariant
            0 <= k <= groups@.len(),
            msgs == group_seqs(groups@).map_values(|g: Seq<EncRelation>| rel_group_message(g, map@)),
            rels_valid(group_seqs(groups@), map@.len()),
            out@ == start + embedded(2, msgs.take(k as int)),
        decreases groups@.len() - k,
    {
        assert(group_seqs(groups@)[k as int] == groups@[k as int]@);
        let m = encode_rel_group(&groups[k], map);
        put_bytes_field(out, 2, m.as_slice());
        k = k + 1;
        assert(msgs.take(k as int).drop_last() =~= msgs.take(k - 1));
        assert(out@ =~= start + embedded(2, msgs.take(k as int)));
    }
    assert(msgs.take(k as int) =~= msgs);
}

} // verus!
