//! End-to-end checks of the protect/recover pipeline.

use shardbox::container::ShardSlot;
use shardbox::errors::ContainerError;
use shardbox::pipeline::{protect_payload, recover_payload};

const D: usize = 10;
const P: usize = 4;

#[test]
fn round_trip_plain() {
    let payload: Vec<u8> = (0u8..=255u8).cycle().take(1000).collect();
    let container = protect_payload(&payload, D, P).unwrap();
    let recovered = recover_payload(&container, D, P).unwrap();
    assert_eq!(recovered, payload);
}

#[test]
fn round_trip_empty_payload() {
    let payload: Vec<u8> = Vec::new();
    let container = protect_payload(&payload, D, P).unwrap();
    assert_eq!(container.len(), 8);
    assert_eq!(container, vec![0u8; 8]);
    let recovered = recover_payload(&container, D, P).unwrap();
    assert_eq!(recovered, payload);
}

#[test]
fn round_trip_single_byte() {
    let payload = vec![0x7fu8];
    let container = protect_payload(&payload, D, P).unwrap();
    // shard length 1: 8 header bytes plus 14 shards of one byte
    assert_eq!(container.len(), 8 + 14);
    let recovered = recover_payload(&container, D, P).unwrap();
    assert_eq!(recovered, payload);
}

#[test]
fn scenario_hundred_bytes_with_two_erasures() {
    // 100 bytes of 0x41 at D=10, P=4: shard length 10, container 148 bytes
    let payload = vec![0x41u8; 100];
    let container = protect_payload(&payload, D, P).unwrap();
    assert_eq!(container.len(), 148);
    let (stored, mut slots) = shardbox::container::read(&container, D + P).unwrap();
    assert_eq!(stored, 100);
    slots[2] = ShardSlot::Absent;
    slots[7] = ShardSlot::Absent;
    let shards = shardbox::decoder::reconstruct(&slots, D, P).unwrap();
    let recovered = shardbox::assembler::assemble(&shards, D, stored).unwrap();
    assert_eq!(recovered, payload);
}

#[test]
fn scenario_ninety_five_bytes_padding() {
    // 95 bytes: shard length ceil(95/10) = 10; the 10th data shard holds
    // 5 payload bytes and 5 zero bytes; the round trip returns 95 bytes
    let payload: Vec<u8> = (1u8..=95u8).collect();
    let shards = shardbox::encoder::split(&payload, D);
    assert_eq!(shards.len(), D);
    for shard in &shards {
        assert_eq!(shard.len(), 10);
    }
    let mut tail: Vec<u8> = (91u8..=95u8).collect();
    tail.extend_from_slice(&[0u8; 5]);
    assert_eq!(shards[9], tail);
    let container = protect_payload(&payload, D, P).unwrap();
    let recovered = recover_payload(&container, D, P).unwrap();
    assert_eq!(recovered.len(), 95);
    assert_eq!(recovered, payload);
}

#[test]
fn scenario_truncated_container_fails() {
    // a container cut down to 98 bytes no longer holds 10 readable shards,
    // so recovery must fail rather than return corrupted data
    let payload = vec![0x41u8; 100];
    let mut container = protect_payload(&payload, D, P).unwrap();
    container.truncate(98);
    let err = recover_payload(&container, D, P).unwrap_err();
    assert_eq!(err, ContainerError::Reconstruction);
}

#[test]
fn erasure_tolerance_every_single_position() {
    let payload: Vec<u8> = (0u8..140u8).take(123).collect();
    let container = protect_payload(&payload, D, P).unwrap();
    for gone in 0..(D + P) {
        let (stored, mut slots) = shardbox::container::read(&container, D + P).unwrap();
        slots[gone] = ShardSlot::Absent;
        let shards = shardbox::decoder::reconstruct(&slots, D, P).unwrap();
        let recovered = shardbox::assembler::assemble(&shards, D, stored).unwrap();
        assert_eq!(recovered, payload);
    }
}

#[test]
fn erasure_tolerance_four_positions() {
    let payload: Vec<u8> = (0u8..=255u8).cycle().take(333).collect();
    let container = protect_payload(&payload, D, P).unwrap();
    let picks: [[usize; 4]; 4] = [[0, 1, 2, 3], [10, 11, 12, 13], [3, 7, 11, 13], [0, 5, 10, 12]];
    for pick in picks.iter() {
        let (stored, mut slots) = shardbox::container::read(&container, D + P).unwrap();
        for &gone in pick.iter() {
            slots[gone] = ShardSlot::Absent;
        }
        let shards = shardbox::decoder::reconstruct(&slots, D, P).unwrap();
        let recovered = shardbox::assembler::assemble(&shards, D, stored).unwrap();
        assert_eq!(recovered, payload);
    }
}

#[test]
fn tolerance_boundary_five_absent_fails() {
    let payload = vec![9u8; 100];
    let container = protect_payload(&payload, D, P).unwrap();
    let (_, mut slots) = shardbox::container::read(&container, D + P).unwrap();
    for gone in [1usize, 4, 6, 11, 13] {
        slots[gone] = ShardSlot::Absent;
    }
    let err = shardbox::decoder::reconstruct(&slots, D, P).unwrap_err();
    assert_eq!(err, ContainerError::Reconstruction);
}

#[test]
fn empty_payload_slots_stay_recoverable() {
    // with no payload there are no shard bytes; absent marks on the empty
    // slots are refilled with empty shards and the empty payload returns
    let payload: Vec<u8> = Vec::new();
    let container = protect_payload(&payload, D, P).unwrap();
    let (stored, mut slots) = shardbox::container::read(&container, D + P).unwrap();
    assert_eq!(stored, 0);
    slots[0] = ShardSlot::Absent;
    slots[12] = ShardSlot::Absent;
    let shards = shardbox::decoder::reconstruct(&slots, D, P).unwrap();
    assert_eq!(shards.len(), D + P);
    let recovered = shardbox::assembler::assemble(&shards, D, stored).unwrap();
    assert_eq!(recovered, payload);
}
