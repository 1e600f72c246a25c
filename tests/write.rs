use osmpbf::bbox::Bbox;
use osmpbf::write_block::{PrimitiveBlock, PrimitiveBlockOptions, RelMemberType};
use osmpbf::{decode_stream, HeaderBlock};
use protobuf::rt;
use protobuf::wire_format::WireType;
use protobuf::CodedInputStream;

struct ExpHeader {
    req: Vec<&'static str>,
    opt: Vec<&'static str>,
    bbox: Option<Bbox>,
}

#[derive(PartialEq, Debug, Default)]
struct ExpGroup {
    nodes: Vec<ExpNode>,
    ways: Vec<ExpWay>,
    rels: Vec<ExpRel>,
}

#[derive(PartialEq, Debug)]
struct ExpNode {
    id: i64,
    loc: (i64, i64),
    tags: Vec<(String, String)>,
}

#[derive(PartialEq, Debug)]
struct ExpWay {
    id: i64,
    refs: Vec<i64>,
    locs: Vec<(i64, i64)>,
    tags: Vec<(String, String)>,
}

#[derive(PartialEq, Debug)]
struct ExpRel {
    id: i64,
    members: Vec<(i64, RelMemberType, String)>,
    tags: Vec<(String, String)>,
}

enum ExpBlob {
    Header(ExpHeader),
    Data(Vec<ExpGroup>),
}

/// A decoded blob: the header block's features and bbox, or a data block's
/// groups.
enum Blob {
    Header(Vec<String>, Vec<String>, Option<Bbox>),
    Data(Vec<ExpGroup>),
}

fn fields(bytes: &[u8]) -> Vec<(u32, WireType, Vec<u8>)> {
    // each field with its raw payload: a varint re-encoded alone, or the bytes
    let mut out = Vec::new();
    let mut is = CodedInputStream::from_bytes(bytes);
    while !is.eof().unwrap() {
        let (f, wt) = is.read_tag_unpack().unwrap();
        match wt {
            WireType::WireTypeVarint => {
                let v = is.read_raw_varint64().unwrap();
                out.push((f, wt, v.to_le_bytes().to_vec()));
            }
            WireType::WireTypeLengthDelimited => out.push((f, wt, is.read_bytes().unwrap())),
            _ => panic!("unexpected wire type"),
        }
    }
    out
}

fn varint_of(raw: &[u8]) -> u64 {
    u64::from_le_bytes(raw.try_into().unwrap())
}

fn zigzag_of(raw: &[u8]) -> i64 {
    let n = varint_of(raw);
    ((n >> 1) as i64) ^ (-((n & 1) as i64))
}

fn packed_u32(raw: &[u8]) -> Vec<u32> {
    let mut is = CodedInputStream::from_bytes(raw);
    let mut v = Vec::new();
    while !is.eof().unwrap() {
        v.push(is.read_raw_varint32().unwrap());
    }
    v
}

fn packed_sint(raw: &[u8]) -> Vec<i64> {
    let mut is = CodedInputStream::from_bytes(raw);
    let mut v = Vec::new();
    while !is.eof().unwrap() {
        v.push(is.read_sint64().unwrap());
    }
    v
}

fn packed_any<T>(wt: WireType, raw: &[u8], read: fn(WireType, &mut CodedInputStream, &mut Vec<T>) -> protobuf::ProtobufResult<()>) -> Vec<T> {
    assert_eq!(wt, WireType::WireTypeLengthDelimited);
    let mut is = CodedInputStream::from_bytes(raw);
    let mut v = Vec::new();
    while !is.eof().unwrap() {
        read(WireType::WireTypeVarint, &mut is, &mut v).unwrap();
    }
    v
}

fn split_frames(bytes: &[u8]) -> Vec<(String, Vec<u8>)> {
    let mut out = Vec::new();
    let mut pos = 0;
    while pos < bytes.len() {
        let len = u32::from_be_bytes([bytes[pos], bytes[pos + 1], bytes[pos + 2], bytes[pos + 3]]) as usize;
        pos += 4;
        assert!(len > 0 && len <= 64 * 1024);
        let mut typ = String::new();
        let mut datasize = 0usize;
        for (f, _, raw) in fields(&bytes[pos..pos + len]) {
            match f {
                1 => typ = String::from_utf8(raw).unwrap(),
                3 => datasize = varint_of(&raw) as usize,
                _ => panic!("unexpected BlobHeader field"),
            }
        }
        pos += len;
        let mut data = Vec::new();
        let mut raw_size = None;
        for (f, _, raw) in fields(&bytes[pos..pos + datasize]) {
            match f {
                1 => data = raw,
                2 => raw_size = Some(varint_of(&raw) as usize),
                _ => panic!("unexpected Blob field"),
            }
        }
        pos += datasize;
        assert_eq!(raw_size, Some(data.len()));
        out.push((typ, data));
    }
    assert_eq!(pos, bytes.len());
    out
}

fn decode_header(raw: &[u8]) -> Blob {
    let mut req = Vec::new();
    let mut opt = Vec::new();
    let mut bbox = None;
    for (f, _, payload) in fields(raw) {
        match f {
            1 => {
                let mut b = Bbox { left: 0, right: 0, top: 0, bottom: 0 };
                for (g, _, v) in fields(&payload) {
                    match g {
                        1 => b.left = zigzag_of(&v),
                        2 => b.right = zigzag_of(&v),
                        3 => b.top = zigzag_of(&v),
                        4 => b.bottom = zigzag_of(&v),
                        _ => panic!("unexpected HeaderBBox field"),
                    }
                }
                bbox = Some(b);
            }
            4 => req.push(String::from_utf8(payload).unwrap()),
            5 => opt.push(String::from_utf8(payload).unwrap()),
            16 => {}
            _ => panic!("unexpected HeaderBlock field"),
        }
    }
    Blob::Header(req, opt, bbox)
}

fn tags(table: &[String], keys: &[u32], vals: &[u32]) -> Vec<(String, String)> {
    assert_eq!(keys.len(), vals.len());
    keys.iter()
        .zip(vals.iter())
        .map(|(k, v)| (table[*k as usize].clone(), table[*v as usize].clone()))
        .collect()
}

fn decode_data(raw: &[u8]) -> Blob {
    let mut table: Vec<String> = Vec::new();
    let mut group_bytes = Vec::new();
    let mut granularity = 100i64;
    let mut lat_offset = 0i64;
    let mut lon_offset = 0i64;
    for (f, _, payload) in fields(raw) {
        match f {
            1 => {
                for (g, _, s) in fields(&payload) {
                    assert_eq!(g, 1);
                    table.push(String::from_utf8(s).unwrap());
                }
            }
            2 => group_bytes.push(payload),
            17 => granularity = varint_of(&payload) as i64,
            18 => {}
            19 => lat_offset = varint_of(&payload) as i64,
            20 => lon_offset = varint_of(&payload) as i64,
            _ => panic!("unexpected PrimitiveBlock field"),
        }
    }
    assert!(table.is_empty() || table[0].is_empty());
    let mut groups = Vec::new();
    for gb in group_bytes {
        let mut group = ExpGroup::default();
        for (f, _, msg) in fields(&gb) {
            match f {
                1 => {
                    let (mut id, mut keys, mut vals, mut lat, mut lon) = (0, vec![], vec![], 0, 0);
                    for (g, _, v) in fields(&msg) {
                        match g {
                            1 => id = zigzag_of(&v),
                            2 => keys = packed_u32(&v),
                            3 => vals = packed_u32(&v),
                            8 => lat = zigzag_of(&v),
                            9 => lon = zigzag_of(&v),
                            _ => panic!("unexpected Node field"),
                        }
                    }
                    group.nodes.push(ExpNode {
                        id,
                        loc: (lat_offset + granularity * lat, lon_offset + granularity * lon),
                        tags: tags(&table, &keys, &vals),
                    });
                }
                3 => {
                    let (mut id, mut keys, mut vals) = (0, vec![], vec![]);
                    let (mut refs, mut lats, mut lons) = (vec![], vec![], vec![]);
                    for (g, _, v) in fields(&msg) {
                        match g {
                            1 => id = varint_of(&v) as i64,
                            2 => keys = packed_u32(&v),
                            3 => vals = packed_u32(&v),
                            8 => refs = packed_sint(&v),
                            9 => lats = packed_sint(&v),
                            10 => lons = packed_sint(&v),
                            _ => panic!("unexpected Way field"),
                        }
                    }
                    let lats = decode_stream(&lats);
                    let lons = decode_stream(&lons);
                    assert_eq!(lats.len(), lons.len());
                    group.ways.push(ExpWay {
                        id,
                        refs: decode_stream(&refs),
                        locs: lats
                            .iter()
                            .zip(lons.iter())
                            .map(|(a, o)| (lat_offset + granularity * a, lon_offset + granularity * o))
                            .collect(),
                        tags: tags(&table, &keys, &vals),
                    });
                }
                4 => {
                    let (mut id, mut keys, mut vals) = (0, vec![], vec![]);
                    let (mut roles, mut memids, mut types) = (vec![], vec![], vec![]);
                    for (g, wt, v) in fields(&msg) {
                        match g {
                            1 => id = varint_of(&v) as i64,
                            2 => keys = packed_u32(&v),
                            3 => vals = packed_u32(&v),
                            8 => roles = packed_any(wt, &v, rt::read_repeated_int32_into),
                            9 => memids = packed_sint(&v),
                            10 => types = packed_any(wt, &v, rt::read_repeated_int32_into),
                            _ => panic!("unexpected Relation field"),
                        }
                    }
                    let memids = decode_stream(&memids);
                    assert_eq!(roles.len(), memids.len());
                    assert_eq!(types.len(), memids.len());
                    let members = (0..memids.len())
                        .map(|i| {
                            let t = match types[i] {
                                0 => RelMemberType::Node,
                                1 => RelMemberType::Way,
                                2 => RelMemberType::Relation,
                                _ => panic!("unexpected member type"),
                            };
                            (memids[i], t, table[roles[i] as usize].clone())
                        })
                        .collect();
                    group.rels.push(ExpRel { id, members, tags: tags(&table, &keys, &vals) });
                }
                _ => panic!("unexpected PrimitiveGroup field"),
            }
        }
        let kinds = [!group.nodes.is_empty(), !group.ways.is_empty(), !group.rels.is_empty()];
        assert_eq!(kinds.iter().filter(|k| **k).count(), 1, "one kind per group");
        groups.push(group);
    }
    Blob::Data(groups)
}

fn decode_all(bytes: &[u8]) -> Vec<Blob> {
    split_frames(bytes)
        .into_iter()
        .map(|(typ, raw)| match typ.as_str() {
            "OSMHeader" => decode_header(&raw),
            "OSMData" => decode_data(&raw),
            other => panic!("Unknown: {}", other),
        })
        .collect()
}

fn is_same_unordered(actual: &[String], expected: &[&str]) -> bool {
    let mut a = actual.to_vec();
    let mut e = expected.to_vec();
    a.sort_unstable();
    e.sort_unstable();
    a == e
}

fn assert_bytes(bytes: &[u8], expected: &[ExpBlob]) {
    let actual = decode_all(bytes);
    assert_eq!(actual.len(), expected.len(), "number of blobs");
    for (a, e) in actual.into_iter().zip(expected.iter()) {
        match (a, e) {
            (Blob::Header(req, opt, bbox), ExpBlob::Header(h)) => {
                assert!(is_same_unordered(&req, &h.req), "Required features {:?}", req);
                assert!(is_same_unordered(&opt, &h.opt), "Optional features {:?}", opt);
                assert_eq!(bbox, h.bbox, "Bounding box");
            }
            (Blob::Data(groups), ExpBlob::Data(exp)) => assert_eq!(&groups, exp),
            _ => panic!("blob of another kind than expected"),
        }
    }
}

fn to_header<T1, T2>(req: T1, opt: T2, bbox: Option<Bbox>) -> ExpBlob
where
    T1: IntoIterator<Item = &'static str>,
    T2: IntoIterator<Item = &'static str>,
{
    ExpBlob::Header(ExpHeader {
        req: req.into_iter().collect(),
        opt: opt.into_iter().collect(),
        bbox,
    })
}

fn elements(bytes: &[u8]) -> Vec<i64> {
    // ids of the ways, in order; any other element fails
    let mut ids = Vec::new();
    for blob in decode_all(bytes) {
        if let Blob::Data(groups) = blob {
            for g in groups {
                assert!(g.nodes.is_empty() && g.rels.is_empty());
                ids.extend(g.ways.iter().map(|w| w.id));
            }
        }
    }
    ids
}

fn s(v: &str) -> String {
    v.to_string()
}

#[test]
fn primitive_block_test_header() {
    let h = HeaderBlock::default();
    let pbf = h.finalize().unwrap();
    let blobs = decode_all(&pbf);
    assert_eq!(blobs.len(), 1);
    for b in blobs {
        match b {
            Blob::Header(req, opt, _) => {
                assert!(is_same_unordered(&req, &[]), "Req");
                assert!(is_same_unordered(&opt, &[]), "Opt");
            }
            _ => panic!(),
        }
    }
}

#[test]
fn primitive_block_test_ways() {
    let mut pbf = HeaderBlock::default().finalize().unwrap();
    let mut w = PrimitiveBlock::default();
    w.add_way(42, vec![1], vec![], vec![], vec![]);
    pbf.extend(w.finalize().unwrap());
    let ids = elements(&pbf);
    assert_eq!(ids.len(), 1);
    assert_eq!(ids[0], 42);
}

#[test]
fn write_block_test_header() {
    let h = HeaderBlock::default();
    let pbf = h.finalize().unwrap();
    for b in decode_all(&pbf) {
        match b {
            Blob::Header(req, opt, _) => {
                assert!(is_same_unordered(&req, &[]), "Req");
                assert!(is_same_unordered(&opt, &[]), "Opt");
            }
            _ => panic!(),
        }
    }
}

#[test]
fn write_block_test_ways() {
    let mut pbf = HeaderBlock::default().finalize().unwrap();
    let mut w = PrimitiveBlock::default();
    w.add_way(42, vec![1], vec![], vec![], vec![]);
    pbf.extend(w.finalize().unwrap());
    let ids = elements(&pbf);
    assert_eq!(ids, vec![42]);
}

#[test]
fn headers() {
    let header = HeaderBlock::default();
    assert_bytes(&header.finalize().unwrap(), &[to_header([], [], None)]);

    let mut header = HeaderBlock::default();
    header.set_required_features(vec!["FOO".to_string()]);
    header.set_optional_features(vec!["BAR".to_string(), "BAT".to_string()]);
    assert_bytes(
        &header.finalize().unwrap(),
        &[to_header(["FOO"], ["BAR", "BAT"], None)],
    );

    let mut header = HeaderBlock::default();
    header.set_required_features(vec!["FOO".to_string(), "BAR".to_string()]);
    let bbox = Some(Bbox {
        left: -10,
        right: 20,
        top: 30,
        bottom: -40,
    });
    header.set_bbox(bbox.clone());
    assert_bytes(
        &header.finalize().unwrap(),
        &[to_header(["FOO", "BAR"], [], bbox)],
    );
}

#[test]
fn empty_header() {
    assert_bytes(
        &HeaderBlock::default().finalize().unwrap(),
        &[to_header([], [], None)],
    );
}

#[test]
fn one_way() {
    let mut block = PrimitiveBlock::default();
    block.add_way(
        42,
        vec![1, 3, 5],
        vec![(s("abc"), s("def")), (s("abc"), s("xyz"))],
        vec![100, 200, 300],
        vec![400, 500, 600],
    );
    assert_bytes(
        &block.finalize().unwrap(),
        &[ExpBlob::Data(vec![ExpGroup {
            nodes: vec![],
            ways: vec![ExpWay {
                id: 42,
                refs: vec![1, 3, 5],
                locs: vec![(100, 400), (200, 500), (300, 600)],
                tags: vec![(s("abc"), s("def")), (s("abc"), s("xyz"))],
            }],
            rels: vec![],
        }])],
    );
}

#[test]
fn several_ways() {
    let mut block = PrimitiveBlock::default();
    block.add_way(
        42,
        vec![1, 5],
        vec![(s("abc"), s("def")), (s("abc"), s("xyz"))],
        vec![100, 300],
        vec![400, 600],
    );
    block.add_way(69, vec![1], vec![(s("abc"), s("def"))], vec![], vec![]);
    let bytes = block.finalize().unwrap();
    assert_bytes(
        &bytes,
        &[ExpBlob::Data(vec![ExpGroup {
            nodes: vec![],
            ways: vec![
                ExpWay {
                    id: 42,
                    refs: vec![1, 5],
                    locs: vec![(100, 400), (300, 600)],
                    tags: vec![(s("abc"), s("def")), (s("abc"), s("xyz"))],
                },
                ExpWay {
                    id: 69,
                    refs: vec![1],
                    locs: vec![],
                    tags: vec![(s("abc"), s("def"))],
                },
            ],
            rels: vec![],
        }])],
    );
}

#[test]
fn one_node() {
    let mut block = PrimitiveBlock::default();
    block.add_node(
        42,
        vec![(s("abc"), s("def")), (s("abc"), s("xyz"))],
        100200,
        300400,
    );
    assert_bytes(
        &block.finalize().unwrap(),
        &[ExpBlob::Data(vec![ExpGroup {
            nodes: vec![ExpNode {
                id: 42,
                loc: (100200, 300400),
                tags: vec![(s("abc"), s("def")), (s("abc"), s("xyz"))],
            }],
            ways: vec![],
            rels: vec![],
        }])],
    );
}

fn string_table(bytes: &[u8]) -> Vec<String> {
    let frames = split_frames(bytes);
    let mut table = Vec::new();
    for (f, _, payload) in fields(&frames[0].1) {
        if f == 1 {
            for (_, _, s) in fields(&payload) {
                table.push(String::from_utf8(s).unwrap());
            }
        }
    }
    table
}

#[test]
fn shared_tag_key_is_stored_once_and_first() {
    let mut block = PrimitiveBlock::default();
    block.add_way(42, vec![1, 5], vec![(s("abc"), s("def")), (s("abc"), s("xyz"))], vec![], vec![]);
    block.add_way(69, vec![1], vec![(s("abc"), s("def"))], vec![], vec![]);
    let table = string_table(&block.finalize().unwrap());
    assert_eq!(table, vec![s(""), s("abc"), s("def"), s("xyz")]);
}

#[test]
fn relation_round_trip() {
    let mut block = PrimitiveBlock::default();
    block.add_relation(
        120,
        vec![(s("rel_key"), s("rel_value"))],
        vec![
            (s("test_role"), 107, RelMemberType::Way),
            (s(""), 105, RelMemberType::Node),
            (s("inner"), 7, RelMemberType::Relation),
        ],
    );
    assert_bytes(
        &block.finalize().unwrap(),
        &[ExpBlob::Data(vec![ExpGroup {
            nodes: vec![],
            ways: vec![],
            rels: vec![ExpRel {
                id: 120,
                members: vec![
                    (107, RelMemberType::Way, s("test_role")),
                    (105, RelMemberType::Node, s("")),
                    (7, RelMemberType::Relation, s("inner")),
                ],
                tags: vec![(s("rel_key"), s("rel_value"))],
            }],
        }])],
    );
}

#[test]
fn groups_split_at_max_size_and_kinds_in_order() {
    let mut block = PrimitiveBlock::new_with_opts(Some(2), None, None);
    block.add_relation(9, vec![], vec![]);
    block.add_way(1, vec![10], vec![], vec![], vec![]);
    block.add_node(5, vec![], 0, 0);
    block.add_way(2, vec![11], vec![], vec![], vec![]);
    block.add_way(3, vec![12], vec![], vec![], vec![]);
    let way = |id: i64, r: i64| ExpWay { id, refs: vec![r], locs: vec![], tags: vec![] };
    assert_bytes(
        &block.finalize().unwrap(),
        &[ExpBlob::Data(vec![
            ExpGroup {
                nodes: vec![ExpNode { id: 5, loc: (0, 0), tags: vec![] }],
                ways: vec![],
                rels: vec![],
            },
            ExpGroup { nodes: vec![], ways: vec![way(1, 10), way(2, 11)], rels: vec![] },
            ExpGroup { nodes: vec![], ways: vec![way(3, 12)], rels: vec![] },
            ExpGroup {
                nodes: vec![],
                ways: vec![],
                rels: vec![ExpRel { id: 9, members: vec![], tags: vec![] }],
            },
        ])],
    );
}

#[test]
fn coordinates_quantize_toward_zero_with_offsets() {
    let opts = PrimitiveBlockOptions {
        max_group_size: None,
        granularity: Some(1000),
        date_granularity: None,
        lat_offset: Some(500),
        lon_offset: Some(-500),
    };
    let mut block = opts.create();
    // lat: (1999 - 500) / 1000 = 1 -> 1500; lon: (-1999 + 500) / 1000 = -1 -> -1500
    block.add_node(1, vec![], 1999, -1999);
    assert_eq!(block.bbox(), Bbox { left: -1999, right: -1999, top: 1999, bottom: 1999 });
    assert_bytes(
        &block.finalize().unwrap(),
        &[ExpBlob::Data(vec![ExpGroup {
            nodes: vec![ExpNode { id: 1, loc: (1500, -1500), tags: vec![] }],
            ways: vec![],
            rels: vec![],
        }])],
    );
}

#[test]
fn way_bbox_uses_lon_as_x() {
    let mut block = PrimitiveBlock::default();
    block.add_way(7, vec![1, 2], vec![], vec![100, -300], vec![400, 600]);
    assert_eq!(block.bbox(), Bbox { left: 400, right: 600, top: 100, bottom: -300 });
}

#[test]
fn empty_block_has_only_a_string_table() {
    let block = PrimitiveBlock::default();
    let frames = split_frames(&block.finalize().unwrap());
    assert_eq!(frames.len(), 1);
    assert_eq!(frames[0].0, "OSMData");
    assert_eq!(frames[0].1, vec![0x0a, 0x00]);
}

#[test]
fn writing_program_is_written() {
    let mut header = HeaderBlock::default();
    header.set_writing_program(Some(s("osmpbf")));
    let frames = split_frames(&header.finalize().unwrap());
    let mut expected = vec![0x82, 0x01, 6];
    expected.extend_from_slice(b"osmpbf");
    assert_eq!(frames[0].1, expected);
}
