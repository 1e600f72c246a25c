use osmpbf::{decode_stream, encode_stream, DeltaDec, DeltaEnc};

#[test]
fn delta_stream_values() {
    assert_eq!(encode_stream(&[1, 3, 5]), vec![1, 2, 2]);
    assert_eq!(encode_stream(&[105, 106, 108, 105]), vec![105, 1, 2, -3]);
    assert_eq!(decode_stream(&[105, 1, 2, -3]), vec![105, 106, 108, 105]);
    assert_eq!(encode_stream(&[]), Vec::<i64>::new());
    assert_eq!(decode_stream(&[]), Vec::<i64>::new());
}

#[test]
fn delta_round_trip() {
    let xs = [0, -5, 17, i64::MAX, i64::MIN, 3, 3, -1];
    assert_eq!(decode_stream(&encode_stream(&xs)), xs.to_vec());
}

#[test]
fn delta_wraps_around() {
    assert_eq!(encode_stream(&[i64::MIN, i64::MAX]), vec![i64::MIN, -1]);
}

#[test]
fn delta_stateful_coders() {
    let mut enc = DeltaEnc::default();
    assert_eq!(enc.encode(10), 10);
    assert_eq!(enc.encode(7), -3);
    let mut dec = DeltaDec::default();
    assert_eq!(dec.decode(10), 10);
    assert_eq!(dec.decode(-3), 7);
}
