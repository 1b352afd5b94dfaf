use std::collections::{BTreeMap, BTreeSet, HashMap, HashSet};

use wiring::collections::unwire_btree_map;
use wiring::collections::unwire_btree_set;
use wiring::collections::unwire_hash_map;
use wiring::collections::unwire_hash_set;
use wiring::collections::wire_hash_set;
use wiring::error::WireError;
use wiring::unwire::UnsafeReader;
use wiring::wire::Wiring;

fn pairs_bytes(pairs: &Vec<(u64, String)>) -> Vec<u8> {
    let mut out = Vec::new();
    pairs.sync_wiring(&mut out).unwrap();
    out
}

#[test]
fn hash_map_reads_pairs_and_the_last_one_wins() {
    let bytes = pairs_bytes(&vec![(1, "a".to_string()), (2, "b".to_string()), (1, "c".to_string())]);
    let mut reader = UnsafeReader::new(&bytes);
    let map: HashMap<u64, String> = unwire_hash_map(&mut reader).unwrap();
    assert_eq!(map.len(), 2);
    assert_eq!(map[&1], "c");
    assert_eq!(map[&2], "b");
    assert_eq!(reader.position(), bytes.len());
}

#[test]
fn btree_map_reads_pairs_in_order() {
    let bytes = pairs_bytes(&vec![(9, "x".to_string()), (3, "y".to_string())]);
    let mut reader = UnsafeReader::new(&bytes);
    let map: BTreeMap<u64, String> = unwire_btree_map(&mut reader).unwrap();
    let entries: Vec<(u64, String)> = map.into_iter().collect();
    assert_eq!(entries, vec![(3, "y".to_string()), (9, "x".to_string())]);
}

#[test]
fn sets_read_elements_once() {
    let mut bytes = Vec::new();
    vec![5u16, 1, 5].sync_wiring(&mut bytes).unwrap();
    let mut reader = UnsafeReader::new(&bytes);
    let set: HashSet<u16> = unwire_hash_set(&mut reader).unwrap();
    assert_eq!(set, [1u16, 5].into_iter().collect::<HashSet<u16>>());
    let mut reader = UnsafeReader::new(&bytes);
    let tree: BTreeSet<u16> = unwire_btree_set(&mut reader).unwrap();
    assert_eq!(tree.into_iter().collect::<Vec<u16>>(), vec![1u16, 5]);
}

#[test]
fn collections_fail_as_the_sequence_would() {
    let bytes = [0u8, 0, 0, 0, 0, 0, 0, 2, 0, 0, 0, 0, 0, 0, 0, 1];
    let mut reader = UnsafeReader::new(&bytes);
    assert_eq!(unwire_hash_set::<u64, _>(&mut reader), Err(WireError::UnexpectedEof));
    let mut reader = UnsafeReader::new(&bytes[..3]);
    assert!(matches!(unwire_btree_map::<u8, u8, _>(&mut reader), Err(WireError::UnexpectedEof)));
}

#[test]
fn hash_set_roundtrip() {
    let set: HashSet<u32> = [7u32, 8, 9].into_iter().collect();
    let mut bytes = Vec::new();
    wire_hash_set(&set, &mut bytes).unwrap();
    assert_eq!(bytes.len(), 8 + 3 * 4);
    assert_eq!(&bytes[..8], &[0u8, 0, 0, 0, 0, 0, 0, 3]);
    let mut reader = UnsafeReader::new(&bytes);
    let back: HashSet<u32> = unwire_hash_set(&mut reader).unwrap();
    assert_eq!(back, set);
}

#[test]
fn empty_hash_set_is_a_zero_count() {
    let set: HashSet<u8> = HashSet::new();
    let mut bytes = Vec::new();
    wire_hash_set(&set, &mut bytes).unwrap();
    assert_eq!(bytes, vec![0u8; 8]);
}
