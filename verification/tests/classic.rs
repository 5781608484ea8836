use cobs_rs::Encoder;

#[test]
fn test_only_zero() {
    let src: &[u8] = &[0x00];
    let got = Encoder::encode(src);
    assert_eq!(got, &[0x01, 0x01]);
    let orig = Encoder::decode(&got).unwrap();
    assert_eq!(orig, src);
}

#[test]
fn test_one_zero() {
    let src: &[u8] = &[0x11, 0x22, 0x00, 0x33];
    let got = Encoder::encode(src);
    assert_eq!(got, &[0x03, 0x11, 0x22, 0x02, 0x33]);
    let orig = Encoder::decode(&got).unwrap();
    assert_eq!(orig, src);
}

#[test]
fn test_multiple_zeros() {
    let src: &[u8] = &[0x11, 0x00, 0x00, 0x00];
    let got = Encoder::encode(src);
    assert_eq!(got, &[0x02, 0x11, 0x01, 0x01, 0x01]);
    let orig = Encoder::decode(&got).unwrap();
    assert_eq!(orig, src);
}

#[test]
fn test_roundtrip_big_nonzero() {
    let mut src = Vec::<u8>::new();
    src.resize(1024, 4);

    let got = Encoder::encode(&src);
    assert!(!got.contains(&0));
    let orig = Encoder::decode(&got).unwrap();
    assert_eq!(orig, src);
}

#[test]
fn test_classic_empty() {
    let empty: &[u8] = &[];
    assert_eq!(Encoder::encode(empty), empty);
    assert_eq!(Encoder::decode(empty).unwrap(), empty);
}

#[test]
fn test_classic_all_zeros() {
    let src: &[u8] = &[0x00, 0x00, 0x00, 0x00, 0x00];
    let got = Encoder::encode(src);
    assert_eq!(got, &[0x01, 0x01, 0x01, 0x01, 0x01, 0x01]);
    let orig = Encoder::decode(&got).unwrap();
    assert_eq!(orig, src);
}

#[test]
fn test_classic_forced_split_boundary() {
    // 254 nonzero bytes fill one block exactly: a forced split with code
    // 0xFF, followed by an empty final block.
    let src = vec![7u8; 254];
    let got = Encoder::encode(&src);
    let mut expected = vec![0xFFu8];
    expected.extend(vec![7u8; 254]);
    expected.push(0x01);
    assert_eq!(got, expected);
    let orig = Encoder::decode(&got).unwrap();
    assert_eq!(orig, src);

    let src = vec![7u8; 255];
    let got = Encoder::encode(&src);
    let mut expected = vec![0xFFu8];
    expected.extend(vec![7u8; 254]);
    expected.push(0x02);
    expected.push(7);
    assert_eq!(got, expected);
    let orig = Encoder::decode(&got).unwrap();
    assert_eq!(orig, src);
}

#[test]
fn test_classic_size_bound_long_run() {
    // 1024 nonzero bytes: output within len + ceil(len / 254) + 1.
    let src = vec![4u8; 1024];
    let got = Encoder::encode(&src);
    assert!(got.len() <= 1024 + (1024 + 253) / 254 + 1);
}

#[test]
fn test_classic_decode_corrupt() {
    // The code byte declares more bytes than the buffer holds.
    assert!(Encoder::decode(&[0x02]).is_err());
    assert!(Encoder::decode(&[0x05, 0xAA, 0xBB]).is_err());
    // A corrupt block after a well-formed one still fails.
    assert!(Encoder::decode(&[0x01, 0x03, 0xAA]).is_err());
}

#[test]
fn test_classic_decode_arbitrary() {
    // Inputs the encoder never produces still decode without failure.
    let empty: &[u8] = &[];
    assert_eq!(Encoder::decode(&[0x01]).unwrap(), empty);
    assert_eq!(Encoder::decode(&[0x00]).unwrap(), empty);
    assert_eq!(Encoder::decode(&[0x02, 0xAA, 0x02, 0xBB]).unwrap(), &[0xAA, 0x00, 0xBB]);
    assert_eq!(Encoder::decode(&[0x00, 0x00]).unwrap(), &[0x00]);
}
