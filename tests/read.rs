use osmpbf::blob::create_blob;
use osmpbf::read::block::{parse_block, parse_group, parse_node, DecodedBlock, DecodedNode, DecodedWay};
use osmpbf::write_block::{PrimitiveBlock, PrimitiveBlockOptions, RelMemberType};
use osmpbf::decode_stream;
use osmpbf::bbox::Bbox;
use osmpbf::read::frames::read_varint;
use osmpbf::read::header::{parse_bbox, parse_header_block};
use osmpbf::{blob_payload, read_frames, FrameError, HeaderBlock};

fn two_frames() -> Vec<u8> {
    let mut bytes = HeaderBlock::default().finalize().unwrap();
    let mut block = PrimitiveBlock::default();
    block.add_way(42, vec![1, 3, 5], vec![("abc".to_string(), "def".to_string())], vec![], vec![]);
    bytes.extend(block.finalize().unwrap());
    bytes
}

#[test]
fn frames_read_back() {
    let bytes = two_frames();
    let frames = read_frames(&bytes).unwrap();
    assert_eq!(frames.len(), 2);
    assert_eq!(frames[0].typ, b"OSMHeader".to_vec());
    assert_eq!(frames[1].typ, b"OSMData".to_vec());
    assert_eq!(frames[1].end, bytes.len());
    assert!(frames[0].end < frames[1].end);
    assert_eq!(blob_payload(&frames[0].body).unwrap(), Vec::<u8>::new());
    assert!(!blob_payload(&frames[1].body).unwrap().is_empty());
}

#[test]
fn frame_payload_round_trip() {
    let raw = vec![7u8, 0, 255, 128, 1];
    let framed = create_blob(&raw, "OSMData").unwrap();
    let frames = read_frames(&framed).unwrap();
    assert_eq!(frames.len(), 1);
    assert_eq!(frames[0].typ, b"OSMData".to_vec());
    assert_eq!(blob_payload(&frames[0].body).unwrap(), raw);
}

#[test]
fn every_truncation_stops_at_a_boundary_or_fails_with_eof() {
    let bytes = two_frames();
    let frames = read_frames(&bytes).unwrap();
    let first_end = frames[0].end;
    for k in 0..bytes.len() {
        match read_frames(&bytes[..k]) {
            Ok(fs) => {
                assert!(k == 0 || k == first_end, "clean stop at {}", k);
                assert_eq!(fs.len(), if k == 0 { 0 } else { 1 });
            }
            Err(e) => assert_eq!(e, FrameError::UnexpectedEof, "cut at {}", k),
        }
    }
}

#[test]
fn empty_input_has_no_frames() {
    assert_eq!(read_frames(&[]).unwrap().len(), 0);
}

#[test]
fn zero_header_size_is_refused() {
    assert_eq!(read_frames(&[0, 0, 0, 0]).err(), Some(FrameError::InvalidHeaderSize(0)));
    assert_eq!(
        read_frames(&[0, 1, 0, 1]).err(),
        Some(FrameError::InvalidHeaderSize(65537))
    );
}

#[test]
fn oversized_data_is_refused() {
    // BlobHeader: type "X", datasize 32 MiB + 1
    let header = [0x0a, 1, b'X', 0x18, 0x81, 0x80, 0x80, 0x10];
    let mut bytes = vec![0, 0, 0, header.len() as u8];
    bytes.extend_from_slice(&header);
    assert_eq!(
        read_frames(&bytes).err(),
        Some(FrameError::InvalidDataSize(32 * 1024 * 1024 + 1))
    );
}

#[test]
fn header_without_datasize_is_malformed() {
    let header = [0x0a, 1, b'X'];
    let mut bytes = vec![0, 0, 0, 3];
    bytes.extend_from_slice(&header);
    assert_eq!(read_frames(&bytes).err(), Some(FrameError::Protobuf));
}

#[test]
fn compressed_blob_is_unsupported() {
    // zlib_data (field 3) with raw_size 1
    let body = [0x10, 1, 0x1a, 2, 0x78, 0x9c];
    assert_eq!(blob_payload(&body).err(), Some(FrameError::UnsupportedCompression(3)));
}

#[test]
fn raw_size_mismatch_is_refused() {
    let body = [0x0a, 2, 5, 6, 0x10, 3];
    assert_eq!(blob_payload(&body).err(), Some(FrameError::RawSizeMismatch));
    let body = [0x0a, 2, 5, 6];
    assert_eq!(blob_payload(&body).unwrap(), vec![5, 6]);
}

fn header_of(bytes: &[u8]) -> (Vec<Vec<u8>>, Vec<Vec<u8>>, Option<Bbox>, Option<Vec<u8>>) {
    let frames = read_frames(bytes).unwrap();
    assert_eq!(frames.len(), 1);
    assert_eq!(frames[0].typ, b"OSMHeader".to_vec());
    parse_header_block(&blob_payload(&frames[0].body).unwrap()).unwrap()
}

#[test]
fn empty_header_reads_back() {
    let (req, opt, bbox, wp) = header_of(&HeaderBlock::default().finalize().unwrap());
    assert!(req.is_empty());
    assert!(opt.is_empty());
    assert_eq!(bbox, None);
    assert_eq!(wp, None);
}

#[test]
fn header_with_features_and_bbox_reads_back() {
    let mut header = HeaderBlock::default();
    header.set_required_features(vec!["FOO".to_string(), "BAR".to_string()]);
    let bbox = Bbox { left: -10, right: 20, top: 30, bottom: -40 };
    header.set_bbox(Some(bbox));
    header.set_writing_program(Some("osmpbf".to_string()));
    let (req, opt, read_bbox, wp) = header_of(&header.finalize().unwrap());
    assert_eq!(req, vec![b"FOO".to_vec(), b"BAR".to_vec()]);
    assert!(opt.is_empty());
    assert_eq!(read_bbox, Some(bbox));
    assert_eq!(wp, Some(b"osmpbf".to_vec()));
}

#[test]
fn bbox_message_reads_back() {
    // left = -1, right = 1, top = i64::MAX, bottom = i64::MIN
    let mut m = vec![0x08, 0x01, 0x10, 0x02, 0x18];
    m.extend_from_slice(&[0xfe, 0xff, 0xff, 0xff, 0xff, 0xff, 0xff, 0xff, 0xff, 0x01]);
    m.push(0x20);
    m.extend_from_slice(&[0xff, 0xff, 0xff, 0xff, 0xff, 0xff, 0xff, 0xff, 0xff, 0x01]);
    assert_eq!(
        parse_bbox(&m),
        Some(Bbox { left: -1, right: 1, top: i64::MAX, bottom: i64::MIN })
    );
    assert_eq!(parse_bbox(&m[..4]), None);
}

#[test]
fn varints_read_back() {
    assert_eq!(read_varint(&[0xac, 0x02, 0x05], 0), Some((300, 2)));
    assert_eq!(read_varint(&[0xac, 0x02, 0x05], 2), Some((5, 1)));
    assert_eq!(read_varint(&[0xac], 0), None);
    assert_eq!(read_varint(&[0xff; 11], 0), None);
    let max = [0xff, 0xff, 0xff, 0xff, 0xff, 0xff, 0xff, 0xff, 0xff, 0x01];
    assert_eq!(read_varint(&max, 0), Some((u64::MAX, 10)));
    let over = [0xff, 0xff, 0xff, 0xff, 0xff, 0xff, 0xff, 0xff, 0xff, 0x02];
    assert_eq!(read_varint(&over, 0), None);
}

fn block_of_bytes(bytes: &[u8]) -> DecodedBlock {
    let frames = read_frames(bytes).unwrap();
    assert_eq!(frames.len(), 1);
    assert_eq!(frames[0].typ, b"OSMData".to_vec());
    parse_block(&blob_payload(&frames[0].body).unwrap()).unwrap()
}

#[test]
fn way_block_reads_back_as_stored() {
    let mut block = PrimitiveBlock::default();
    block.add_way(
        42,
        vec![1, 3, 5],
        vec![
            ("abc".to_string(), "def".to_string()),
            ("abc".to_string(), "xyz".to_string()),
        ],
        vec![100, 200, 300],
        vec![400, 500, 600],
    );
    let b = block_of_bytes(&block.finalize().unwrap());
    let strings: Vec<Vec<u8>> = ["", "abc", "def", "xyz"].iter().map(|s| s.as_bytes().to_vec()).collect();
    assert_eq!(b.strings, strings);
    assert_eq!(b.granularity, None);
    assert_eq!(b.groups.len(), 1);
    let g = &b.groups[0];
    assert!(g.nodes.is_empty() && g.relations.is_empty());
    assert_eq!(
        g.ways,
        vec![DecodedWay {
            id: 42,
            keys: vec![1, 1],
            vals: vec![2, 3],
            refs: vec![1, 2, 2],
            lat: vec![1, 1, 1],
            lon: vec![4, 1, 1],
        }]
    );
    assert_eq!(decode_stream(&g.ways[0].refs), vec![1, 3, 5]);
}

#[test]
fn node_and_relation_blocks_read_back() {
    let opts = PrimitiveBlockOptions {
        max_group_size: None,
        granularity: Some(10),
        date_granularity: None,
        lat_offset: Some(-5),
        lon_offset: None,
    };
    let mut block = opts.create();
    block.add_node(-7, vec![("k".to_string(), "v".to_string())], 105, -95);
    block.add_relation(
        120,
        vec![("rel_key".to_string(), "rel_value".to_string())],
        vec![("test_role".to_string(), 107, RelMemberType::Way), ("".to_string(), 100, RelMemberType::Node)],
    );
    let b = block_of_bytes(&block.finalize().unwrap());
    assert_eq!(b.granularity, Some(10));
    assert_eq!(b.lat_offset, Some((-5i64) as u64));
    assert_eq!(b.lon_offset, None);
    assert_eq!(b.groups.len(), 2);
    assert_eq!(
        b.groups[0].nodes,
        vec![DecodedNode { id: -7, keys: vec![b.strings.iter().position(|s| s == b"k").unwrap() as u64], vals: vec![b.strings.iter().position(|s| s == b"v").unwrap() as u64], lat: 11, lon: -9 }]
    );
    let r = &b.groups[1].relations[0];
    assert_eq!(r.id, 120);
    assert_eq!(r.memids, vec![107, -7]);
    assert_eq!(r.types, vec![1, 0]);
    assert_eq!(b.strings[r.roles[0] as usize], b"test_role".to_vec());
    assert_eq!(r.roles[1], 0);
    assert_eq!(b.strings[r.keys[0] as usize], b"rel_key".to_vec());
    assert_eq!(b.strings[r.vals[0] as usize], b"rel_value".to_vec());
}

#[test]
fn dense_group_is_refused() {
    // a group holding a DenseNodes message (field 2)
    assert!(parse_group(&[0x12, 0x00]).is_none());
    assert!(parse_node(&[0x08]).is_none());
}
