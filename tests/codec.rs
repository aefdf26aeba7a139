use rs_backup::chunk::next_chunk;
use rs_backup::engine::correct_chunk;
use rs_backup::engine::encode_chunk;
use rs_backup::pipeline::check_params;
use rs_backup::pipeline::encode;
use rs_backup::pipeline::repair;
use rs_backup::pipeline::RepairError;

fn sample(len: usize) -> Vec<u8> {
    (0..len).map(|i| (i * 37 + 11) as u8).collect()
}

#[test]
fn ten_bytes_in_chunks_of_four() {
    let source: Vec<u8> = (1..=10).collect();
    let enc = encode(&source, 4, 4);
    assert_eq!(enc.primary, source);
    assert_eq!(enc.parity.len(), 12);

    let mut damaged = enc.primary.clone();
    damaged[5] ^= 0xFF;
    let rep = repair(&damaged, &enc.parity, 4, 4);
    assert_eq!(rep.error, None);
    assert_eq!(&rep.data[4..8], &[0x05, 0x06, 0x07, 0x08]);
    assert_eq!(rep.data, source);
    assert_eq!(rep.parity, enc.parity);
}

#[test]
fn primary_output_is_the_source() {
    for len in [0usize, 1, 3, 4, 5, 63, 64, 65, 300] {
        let source = sample(len);
        let enc = encode(&source, 16, 6);
        assert_eq!(enc.primary, source);
    }
}

#[test]
fn parity_has_one_block_per_chunk() {
    assert_eq!(encode(&sample(0), 8, 4).parity.len(), 0);
    assert_eq!(encode(&sample(1), 8, 4).parity.len(), 4);
    assert_eq!(encode(&sample(8), 8, 4).parity.len(), 4);
    assert_eq!(encode(&sample(9), 8, 4).parity.len(), 8);
    assert_eq!(encode(&sample(100), 7, 10).parity.len(), 150);
}

#[test]
fn parity_block_matches_chunk_encoding() {
    let source = sample(20);
    let enc = encode(&source, 8, 4);
    assert_eq!(&enc.parity[0..4], encode_chunk(&source[0..8], 4).as_slice());
    assert_eq!(&enc.parity[4..8], encode_chunk(&source[8..16], 4).as_slice());
    assert_eq!(&enc.parity[8..12], encode_chunk(&source[16..20], 4).as_slice());
}

#[test]
fn known_parity_of_one_chunk() {
    let data: Vec<u8> = (0..30).collect();
    assert_eq!(encode_chunk(&data, 8), vec![99, 26, 219, 193, 9, 94, 186, 143]);
}

#[test]
fn chunk_with_two_errors_is_corrected() {
    let data = vec![1u8, 2, 3, 4];
    let parity = encode_chunk(&data, 4);
    let mut bad_data = data.clone();
    bad_data[0] = 0x77;
    let mut bad_parity = parity.clone();
    bad_parity[3] ^= 0x01;
    let (d, p) = correct_chunk(&bad_data, &bad_parity, 4).unwrap();
    assert_eq!(d, data);
    assert_eq!(p, parity);
}

#[test]
fn bounded_damage_in_every_chunk_is_repaired() {
    let source = sample(100);
    let enc = encode(&source, 10, 6);
    let mut primary = enc.primary.clone();
    let mut parity = enc.parity.clone();
    for c in 0..10 {
        primary[c * 10 + c % 10] ^= 0x5A;
        primary[c * 10 + (c + 3) % 10] = 0;
        parity[c * 6 + c % 6] ^= 0x11;
    }
    let rep = repair(&primary, &parity, 10, 6);
    assert_eq!(rep.error, None);
    assert_eq!(rep.data, source);
    assert_eq!(rep.parity, enc.parity);
}

#[test]
fn damage_in_short_final_chunk_is_repaired() {
    let source = sample(23);
    let enc = encode(&source, 10, 4);
    let mut primary = enc.primary.clone();
    primary[21] ^= 0x80;
    let mut parity = enc.parity.clone();
    parity[9] ^= 0x01;
    let rep = repair(&primary, &parity, 10, 4);
    assert_eq!(rep.error, None);
    assert_eq!(rep.data, source);
    assert_eq!(rep.parity, enc.parity);
}

#[test]
fn too_much_damage_stops_the_run() {
    let source: Vec<u8> = (1..=12).collect();
    let enc = encode(&source, 4, 2);
    let mut primary = enc.primary.clone();
    primary[4] = 0xAA;
    primary[5] = 0xBB;
    primary[6] = 0xCC;
    primary[7] = 0xDD;
    let rep = repair(&primary, &enc.parity, 4, 2);
    assert_eq!(rep.error, Some(RepairError::Uncorrectable { chunk: 1 }));
    assert_eq!(rep.data, source[0..4].to_vec());
    assert_eq!(rep.parity, enc.parity[0..2].to_vec());
}

#[test]
fn truncated_parity_is_misaligned() {
    let source = sample(30);
    let enc = encode(&source, 10, 4);
    let rep = repair(&enc.primary, &enc.parity[0..8], 10, 4);
    assert_eq!(rep.error, Some(RepairError::Misaligned { chunk: 2 }));
    assert_eq!(rep.data, source[0..20].to_vec());
    assert_eq!(rep.parity, enc.parity[0..8].to_vec());
}

#[test]
fn partial_parity_block_is_misaligned() {
    let source = sample(30);
    let enc = encode(&source, 10, 4);
    let rep = repair(&enc.primary, &enc.parity[0..10], 10, 4);
    assert_eq!(rep.error, Some(RepairError::Misaligned { chunk: 2 }));
    assert_eq!(rep.data, source[0..20].to_vec());
}

#[test]
fn empty_parity_is_misaligned_at_first_chunk() {
    let source = sample(5);
    let rep = repair(&source, &[], 10, 4);
    assert_eq!(rep.error, Some(RepairError::Misaligned { chunk: 0 }));
    assert!(rep.data.is_empty());
    assert!(rep.parity.is_empty());
}

#[test]
fn repairing_a_clean_pair_changes_nothing() {
    let source = sample(77);
    let enc = encode(&source, 16, 8);
    let first = repair(&enc.primary, &enc.parity, 16, 8);
    assert_eq!(first.error, None);
    assert_eq!(first.data, enc.primary);
    assert_eq!(first.parity, enc.parity);
    let second = repair(&first.data, &first.parity, 16, 8);
    assert_eq!(second.data, first.data);
    assert_eq!(second.parity, first.parity);
}

#[test]
fn empty_streams() {
    let enc = encode(&[], 4, 4);
    assert!(enc.primary.is_empty());
    assert!(enc.parity.is_empty());
    let rep = repair(&[], &[], 4, 4);
    assert_eq!(rep.error, None);
    assert!(rep.data.is_empty());
    assert!(rep.parity.is_empty());
}

#[test]
fn no_parity_bytes() {
    let source = sample(9);
    let enc = encode(&source, 4, 0);
    assert!(enc.parity.is_empty());
    let rep = repair(&source, &enc.parity, 4, 0);
    assert_eq!(rep.error, None);
    assert_eq!(rep.data, source);
}

#[test]
fn largest_codeword() {
    let source = sample(600);
    let enc = encode(&source, 251, 4);
    assert_eq!(enc.parity.len(), 12);
    let mut primary = enc.primary.clone();
    primary[250] ^= 0x01;
    primary[300] ^= 0x02;
    let rep = repair(&primary, &enc.parity, 251, 4);
    assert_eq!(rep.error, None);
    assert_eq!(rep.data, source);
}

#[test]
fn parameter_limits() {
    assert!(!check_params(0, 4));
    assert!(check_params(1, 0));
    assert!(check_params(4, 4));
    assert!(check_params(251, 4));
    assert!(!check_params(252, 4));
    assert!(!check_params(1, 255));
    assert!(!check_params(usize::MAX, 1));
    assert!(check_params(1, 170));
    assert!(!check_params(1, 171));
    assert!(!check_params(1, 200));
    assert!(check_params(85, 170));
    assert!(!check_params(86, 170));
}

#[test]
fn widest_parity_corrects_its_bound() {
    let source = sample(170);
    let enc = encode(&source, 85, 170);
    assert_eq!(enc.parity.len(), 340);
    let mut primary = enc.primary.clone();
    for k in 0..85 {
        primary[k] ^= 0x3C;
    }
    let rep = repair(&primary, &enc.parity, 85, 170);
    assert_eq!(rep.error, None);
    assert_eq!(rep.data, source);
    assert_eq!(rep.parity, enc.parity);
}

#[test]
fn chunk_lengths() {
    assert_eq!(next_chunk(10, 0, 4), 4);
    assert_eq!(next_chunk(10, 8, 4), 2);
    assert_eq!(next_chunk(10, 10, 4), 0);
}
