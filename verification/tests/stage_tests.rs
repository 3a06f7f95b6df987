//! Checks of the single pipeline stages and their error cases.

use shardbox::assembler::assemble;
use shardbox::container::{read, ShardSlot};
use shardbox::decoder::reconstruct;
use shardbox::encoder::{generate_parity, split};
use shardbox::errors::ContainerError;

#[test]
fn split_pads_with_zeros() {
    let payload = vec![1u8, 2, 3];
    let shards = split(&payload, 2);
    assert_eq!(shards, vec![vec![1u8, 2], vec![3u8, 0]]);
}

#[test]
fn split_empty_payload_gives_empty_shards() {
    let payload: Vec<u8> = Vec::new();
    let shards = split(&payload, 4);
    assert_eq!(shards, vec![Vec::new(); 4]);
}

#[test]
fn uniform_shard_length_after_parity() {
    for n in [1usize, 9, 10, 95, 100, 101] {
        let payload = vec![0x55u8; n];
        let shards = split(&payload, 10);
        let parity = generate_parity(&shards, 4).unwrap();
        let expect = n.div_ceil(10);
        assert_eq!(shards.len(), 10);
        assert_eq!(parity.len(), 4);
        for shard in shards.iter().chain(parity.iter()) {
            assert_eq!(shard.len(), expect);
        }
    }
}

#[test]
fn parity_depends_on_data() {
    // parity shards must carry redundancy, not copies of their buffers:
    // changing one data byte changes some parity shard
    let a = split(&vec![7u8; 40], 10);
    let mut altered = vec![7u8; 40];
    altered[13] = 8;
    let b = split(&altered, 10);
    let parity_a = generate_parity(&a, 4).unwrap();
    let parity_b = generate_parity(&b, 4).unwrap();
    assert_ne!(parity_a, parity_b);
}

#[test]
fn generate_parity_rejects_bad_counts() {
    let shards = split(&vec![1u8; 10], 5);
    assert_eq!(generate_parity(&shards, 0).unwrap_err(), ContainerError::Encoding);
    let none: Vec<Vec<u8>> = Vec::new();
    assert_eq!(generate_parity(&none, 4).unwrap_err(), ContainerError::Encoding);
    let many = vec![vec![1u8]; 252];
    assert_eq!(generate_parity(&many, 4).unwrap_err(), ContainerError::Encoding);
}

#[test]
fn generate_parity_rejects_uneven_shards() {
    let shards = vec![vec![1u8, 2], vec![3u8]];
    assert_eq!(generate_parity(&shards, 2).unwrap_err(), ContainerError::Encoding);
}

#[test]
fn write_layout_is_length_then_shards() {
    let shards = vec![vec![0xaau8, 0xbb], vec![0xccu8, 0xdd]];
    let bytes = shardbox::container::write(3, &shards);
    assert_eq!(bytes, vec![3u8, 0, 0, 0, 0, 0, 0, 0, 0xaa, 0xbb, 0xcc, 0xdd]);
}

#[test]
fn read_rejects_short_header() {
    let bytes = vec![1u8, 2, 3];
    assert_eq!(read(&bytes, 14).unwrap_err(), ContainerError::CorruptContainer);
}

#[test]
fn read_rejects_missing_shard_bytes() {
    // the header promises five payload bytes but nothing follows
    let bytes = vec![5u8, 0, 0, 0, 0, 0, 0, 0];
    assert_eq!(read(&bytes, 14).unwrap_err(), ContainerError::CorruptContainer);
}

#[test]
fn read_marks_missing_tail_absent() {
    // 14 shards of 7 bytes cut down to 90 shard bytes: the re-derived
    // shard length stays 7, so 12 full chunks and one short chunk parse
    // as present and the last slot is absent
    let shards = vec![vec![1u8; 7]; 14];
    let mut bytes = shardbox::container::write(98, &shards);
    bytes.truncate(8 + 90);
    let (stored, slots) = read(&bytes, 14).unwrap();
    assert_eq!(stored, 98);
    assert_eq!(slots.len(), 14);
    assert_eq!(slots[11], ShardSlot::Present(vec![1u8; 7]));
    assert_eq!(slots[12], ShardSlot::Present(vec![1u8; 6]));
    assert_eq!(slots[13], ShardSlot::Absent);
}

#[test]
fn read_stores_exact_length() {
    let payload = vec![0x11u8; 95];
    let shards = split(&payload, 10);
    let parity = generate_parity(&shards, 4).unwrap();
    let mut all = shards;
    all.extend(parity);
    let bytes = shardbox::container::write(95, &all);
    let (stored, slots) = read(&bytes, 14).unwrap();
    assert_eq!(stored, 95);
    assert_eq!(slots.len(), 14);
    for slot in &slots {
        assert!(matches!(slot, ShardSlot::Present(v) if v.len() == 10));
    }
}

#[test]
fn reconstruct_rejects_uneven_present_shards() {
    let mut slots = vec![ShardSlot::Present(vec![1u8; 7]); 13];
    slots[5] = ShardSlot::Present(vec![1u8; 6]);
    slots.push(ShardSlot::Absent);
    assert_eq!(reconstruct(&slots, 10, 4).unwrap_err(), ContainerError::Reconstruction);
}

#[test]
fn reconstruct_keeps_present_shards_without_loss() {
    let slots = vec![ShardSlot::Present(vec![2u8, 9]); 14];
    let shards = reconstruct(&slots, 10, 4).unwrap();
    assert_eq!(shards, vec![vec![2u8, 9]; 14]);
}

#[test]
fn assemble_truncates_to_stored_length() {
    let shards = vec![vec![1u8, 2], vec![3u8, 0]];
    let payload = assemble(&shards, 2, 3).unwrap();
    assert_eq!(payload, vec![1u8, 2, 3]);
}

#[test]
fn assemble_rejects_missing_data_shards() {
    let shards = vec![vec![1u8, 2]];
    assert_eq!(assemble(&shards, 2, 3).unwrap_err(), ContainerError::IncompleteReconstruction);
}

#[test]
fn assemble_rejects_short_data() {
    let shards = vec![vec![1u8, 2], vec![3u8, 4]];
    assert_eq!(assemble(&shards, 2, 9).unwrap_err(), ContainerError::IncompleteReconstruction);
}
