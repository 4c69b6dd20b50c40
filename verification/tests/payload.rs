use t2_bus::payload::{Payload, PAYLOAD_COMPRESSION_THRESHOLD_BYTES};

#[test]
fn small_payloads_stay_uncompressed() {
    let p = Payload::from_bytes(vec![1, 2, 3]);
    assert!(!p.is_compressed());
    assert_eq!(p.data(), &vec![1, 2, 3]);
    assert_eq!(p.describe(), "3 bytes");
    assert_eq!(p.into_bytes(), Some(vec![1, 2, 3]));
}

#[test]
fn threshold_is_inclusive_for_uncompressed() {
    let data = vec![7u8; PAYLOAD_COMPRESSION_THRESHOLD_BYTES];
    let p = Payload::from_bytes(data.clone());
    assert!(!p.is_compressed());
    assert_eq!(p.into_bytes(), Some(data));
}

#[test]
fn large_payloads_are_compressed_and_restored() {
    let sent = vec![42u8; 10000];
    let p = Payload::from_bytes(sent.clone());
    assert!(p.is_compressed());
    assert!(p.data().len() < sent.len());
    assert_ne!(p.data(), &sent);
    assert!(p.describe().ends_with(" bytes compressed"));
    let received = p.into_bytes().unwrap();
    assert_eq!(received.len(), 10000);
    assert_eq!(received, sent);
}

#[test]
fn corrupt_compressed_data_does_not_decode() {
    let p = Payload::from_parts(vec![1, 2, 3, 4], true);
    assert_eq!(p.into_bytes(), None);
}

#[test]
fn just_above_the_threshold_is_compressed() {
    let at = Payload::from_bytes(vec![0u8; 5000]);
    assert_eq!(at.describe(), "5000 bytes");
    let above = Payload::from_bytes(vec![0u8; 5001]);
    assert!(above.is_compressed());
    assert!(above.describe().ends_with(" bytes compressed"));
    assert_eq!(&above.data()[0..2], &[0x1f, 0x8b]);
    assert_eq!(above.into_bytes(), Some(vec![0u8; 5001]));
}
