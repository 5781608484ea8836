use cobs_rs::ZPE;

#[test]
fn test_zpe_basic() {
    let src: &[u8] = &[0x45, 0x00, 0x00, 0x2C, 0x4C, 0x79, 0x00, 0x00, 0x40, 0x06, 0x4F, 0x37];
    let got = ZPE::encode(src);
    assert_eq!(got, &[0xE2, 0x45, 0xE4, 0x2C, 0x4C, 0x79, 0x05, 0x40, 0x06, 0x4F, 0x37]);
    let orig = ZPE::decode(&got).unwrap();
    assert_eq!(orig, src);
}

#[test]
fn test_zpe_trailing() {
    let src: &[u8] = &[0x11, 0x00, 0x00, 0x00];
    let got = ZPE::encode(src);
    assert_eq!(got, &[0xE2, 0x11, 0xE1]);
    let orig = ZPE::decode(&got).unwrap();
    assert_eq!(orig, src);
}

#[test]
fn test_zpe_single() {
    let src: &[u8] = &[0x11, 0x22, 0x00, 0x33];
    let got = ZPE::encode(src);
    assert_eq!(got, &[0x03, 0x11, 0x22, 0x02, 0x33]);
    let orig = ZPE::decode(&got).unwrap();
    assert_eq!(orig, src);
}

#[test]
fn test_zpe_empty() {
    let empty: &[u8] = &[];
    assert_eq!(ZPE::encode(empty), empty);
    assert_eq!(ZPE::decode(empty).unwrap(), empty);
}

#[test]
fn test_zpe_only_zero() {
    let src: &[u8] = &[0x00];
    let got = ZPE::encode(src);
    assert_eq!(got, &[0xE1]);
    let orig = ZPE::decode(&got).unwrap();
    assert_eq!(orig, src);
}

#[test]
fn test_zpe_single_trailing_zero() {
    // A source ending in a single zero preceded by a pair-eligible block:
    // the encoder closes with a pair code even though only one zero was
    // seen; the decoder's final-byte trim removes the surplus zero.
    let src: &[u8] = &[0x11, 0x00];
    let got = ZPE::encode(src);
    assert_eq!(got, &[0xE2, 0x11]);
    let orig = ZPE::decode(&got).unwrap();
    assert_eq!(orig, src);
}

#[test]
fn test_zpe_zero_run() {
    let src: &[u8] = &[0x00, 0x00, 0x00, 0x00, 0x00];
    let got = ZPE::encode(src);
    assert_eq!(got, &[0xE1, 0xE1, 0xE1]);
    let orig = ZPE::decode(&got).unwrap();
    assert_eq!(orig, src);
}

#[test]
fn test_zpe_pair_eligibility_boundary() {
    // 29 data bytes before the zero: still pair-eligible, pair code 0xFE.
    let mut src = vec![7u8; 29];
    src.push(0x00);
    src.push(0x00);
    let got = ZPE::encode(&src);
    let mut expected = vec![0xFEu8];
    expected.extend(vec![7u8; 29]);
    expected.push(0x01);
    assert_eq!(got, expected);
    let orig = ZPE::decode(&got).unwrap();
    assert_eq!(orig, src);

    // 30 data bytes before the zero: no longer pair-eligible; the block
    // closes as an ordinary single-zero block and the remaining two zeros
    // form a pair of their own.
    let mut src = vec![7u8; 30];
    src.push(0x00);
    src.push(0x00);
    let got = ZPE::encode(&src);
    let mut expected = vec![0x1Fu8];
    expected.extend(vec![7u8; 30]);
    expected.push(0xE1);
    assert_eq!(got, expected);
    let orig = ZPE::decode(&got).unwrap();
    assert_eq!(orig, src);
}

#[test]
fn test_zpe_forced_split_boundary() {
    // 223 nonzero bytes fill one block exactly: a forced split with code
    // 0xE0, followed by an empty final block.
    let src = vec![7u8; 223];
    let got = ZPE::encode(&src);
    let mut expected = vec![0xE0u8];
    expected.extend(vec![7u8; 223]);
    expected.push(0x01);
    assert_eq!(got, expected);
    let orig = ZPE::decode(&got).unwrap();
    assert_eq!(orig, src);

    let src = vec![7u8; 224];
    let got = ZPE::encode(&src);
    let mut expected = vec![0xE0u8];
    expected.extend(vec![7u8; 223]);
    expected.push(0x02);
    expected.push(7);
    assert_eq!(got, expected);
    let orig = ZPE::decode(&got).unwrap();
    assert_eq!(orig, src);
}

#[test]
fn test_zpe_roundtrip_big_nonzero() {
    let mut src = Vec::<u8>::new();
    src.resize(1024, 4);

    let got = ZPE::encode(&src);
    assert!(!got.contains(&0));
    let orig = ZPE::decode(&got).unwrap();
    assert_eq!(orig, src);
}

#[test]
fn test_zpe_decode_corrupt() {
    // The length field declares more bytes than the buffer holds; for a
    // pair code it sits in the low five bits.
    assert!(ZPE::decode(&[0x05, 0x01]).is_err());
    assert!(ZPE::decode(&[0xFF]).is_err());
    assert!(ZPE::decode(&[0xE5, 0xAA]).is_err());
    assert!(ZPE::decode(&[0xE0]).is_err());
    // A corrupt block after a well-formed one still fails.
    assert!(ZPE::decode(&[0x01, 0x03, 0xAA]).is_err());
}

#[test]
fn test_zpe_decode_arbitrary() {
    // Inputs the encoder never produces still decode without failure.
    let empty: &[u8] = &[];
    assert_eq!(ZPE::decode(&[0x01]).unwrap(), empty);
    assert_eq!(ZPE::decode(&[0x00]).unwrap(), empty);
    assert_eq!(ZPE::decode(&[0xE1]).unwrap(), &[0x00]);
    assert_eq!(ZPE::decode(&[0x02, 0xAA, 0x02, 0xBB]).unwrap(), &[0xAA, 0x00, 0xBB]);
}
