use osmpbf::blob::{create_blob, BlobError};
use osmpbf::wire::{put_packed_sint, put_packed_u32, put_sint_field, put_uint_field};

#[test]
fn varint_field_bytes() {
    let mut out = Vec::new();
    put_uint_field(&mut out, 1, 300);
    assert_eq!(out, vec![0x08, 0xac, 0x02]);
    let mut out = Vec::new();
    put_uint_field(&mut out, 17, 100);
    assert_eq!(out, vec![0x88, 0x01, 100]);
}

#[test]
fn zigzag_field_bytes() {
    let mut out = Vec::new();
    put_sint_field(&mut out, 1, -1);
    put_sint_field(&mut out, 2, 1);
    put_sint_field(&mut out, 3, -64);
    assert_eq!(out, vec![0x08, 0x01, 0x10, 0x02, 0x18, 0x7f]);
}

#[test]
fn packed_field_bytes() {
    let mut out = Vec::new();
    put_packed_u32(&mut out, 2, &[1, 300]);
    put_packed_sint(&mut out, 8, &[]);
    put_packed_sint(&mut out, 9, &[-2, 2]);
    assert_eq!(out, vec![0x12, 3, 1, 0xac, 0x02, 0x4a, 2, 3, 4]);
}

#[test]
fn blob_frame_bytes() {
    let framed = create_blob(&[1, 2, 3], "OSMData").unwrap();
    let mut expected = vec![0, 0, 0, 11, 0x0a, 7];
    expected.extend_from_slice(b"OSMData");
    expected.extend_from_slice(&[0x18, 7, 0x0a, 3, 1, 2, 3, 0x10, 3]);
    assert_eq!(framed, expected);
}

#[test]
fn blob_too_large() {
    let raw = vec![0u8; 32 * 1024 * 1024];
    match create_blob(&raw, "OSMData") {
        Err(BlobError::InvalidDataSize(n)) => assert!(n > 32 * 1024 * 1024),
        _ => panic!("expected InvalidDataSize"),
    }
}

#[test]
fn blob_header_too_large() {
    let typ = "T".repeat(70 * 1024);
    match create_blob(&[], &typ) {
        Err(BlobError::InvalidHeaderSize(n)) => assert!(n > 64 * 1024),
        _ => panic!("expected InvalidHeaderSize"),
    }
}
