use rs_backup::pipeline::encode;
use rs_backup::salvage::salvage;

#[test]
fn salvage_passes_bad_chunk_through_and_goes_on() {
    let source: Vec<u8> = (1..=12).collect();
    let enc = encode(&source, 4, 2);
    let mut primary = enc.primary.clone();
    primary[4] = 0xAA;
    primary[5] = 0xBB;
    primary[6] = 0xCC;
    primary[7] = 0xDD;
    primary[9] ^= 0x40;
    let out = salvage(&primary, &enc.parity, 4, 2);
    assert_eq!(out.misaligned, None);
    assert_eq!(out.unrepaired, vec![1]);
    assert_eq!(&out.data[0..4], &source[0..4]);
    assert_eq!(&out.data[4..8], &[0xAA, 0xBB, 0xCC, 0xDD]);
    assert_eq!(&out.data[8..12], &source[8..12]);
    assert_eq!(out.parity, enc.parity);
}

#[test]
fn salvage_of_clean_pair_changes_nothing() {
    let source: Vec<u8> = (0..50).map(|i| (i * 7) as u8).collect();
    let enc = encode(&source, 8, 4);
    let out = salvage(&enc.primary, &enc.parity, 8, 4);
    assert_eq!(out.misaligned, None);
    assert!(out.unrepaired.is_empty());
    assert_eq!(out.data, source);
    assert_eq!(out.parity, enc.parity);
}

#[test]
fn salvage_stops_at_missing_parity() {
    let source: Vec<u8> = (0..30).collect();
    let enc = encode(&source, 10, 4);
    let out = salvage(&enc.primary, &enc.parity[0..4], 10, 4);
    assert_eq!(out.misaligned, Some(1));
    assert_eq!(out.data, source[0..10].to_vec());
    assert_eq!(out.parity, enc.parity[0..4].to_vec());
}
