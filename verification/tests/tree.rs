//! The paged tree around its node-size boundaries.

use stuckliste::blocks::Blocks;
use stuckliste::io::ByteWriter;
use stuckliste::tree::{max_entries_per_block, read_tree, write_tree};

fn test_specific_no_of_entries(num_entries: usize, block_len: usize) {
    let entries = vec![(123_u32, 456_u32); num_entries];
    let mut w = ByteWriter::new();
    let mut blocks = Blocks::new();
    let i = write_tree(&entries, block_len, &mut w, &mut blocks).unwrap();
    let bytes = w.into_vec();
    let (read, declared_len) = read_tree(i, &bytes, &blocks).unwrap();
    assert_eq!(declared_len as usize, block_len);
    assert_eq!(read, entries);
}

#[test]
fn edge_cases() {
    const BLOCK_LEN: usize = 128;
    let max_len_for_single_data_node = max_entries_per_block(BLOCK_LEN);
    let max_len_for_single_meta_node =
        max_len_for_single_data_node * max_len_for_single_data_node;
    test_specific_no_of_entries(max_len_for_single_data_node - 1, BLOCK_LEN);
    test_specific_no_of_entries(max_len_for_single_data_node, BLOCK_LEN);
    test_specific_no_of_entries(max_len_for_single_data_node + 1, BLOCK_LEN);
    test_specific_no_of_entries(2 * max_len_for_single_data_node + 1, BLOCK_LEN);
    test_specific_no_of_entries(max_len_for_single_meta_node - 1, BLOCK_LEN);
    test_specific_no_of_entries(max_len_for_single_meta_node, BLOCK_LEN);
    test_specific_no_of_entries(max_len_for_single_meta_node + 1, BLOCK_LEN);
}

#[test]
fn edge_cases_v2() {
    const BLOCK_LEN: usize = 128;
    let max_len_for_single_data_node = max_entries_per_block(BLOCK_LEN);
    let max_len_for_single_meta_node =
        max_len_for_single_data_node * max_len_for_single_data_node;
    test_specific_no_of_entries(max_len_for_single_data_node, BLOCK_LEN);
    test_specific_no_of_entries(max_len_for_single_data_node + 1, BLOCK_LEN);
    test_specific_no_of_entries(2 * max_len_for_single_data_node + 1, BLOCK_LEN);
    test_specific_no_of_entries(max_len_for_single_meta_node, BLOCK_LEN);
    test_specific_no_of_entries(max_len_for_single_meta_node + 1, BLOCK_LEN);
    test_specific_no_of_entries(2 * max_len_for_single_meta_node + 1, BLOCK_LEN);
}

#[test]
fn tree_write_read_symmetry() {
    // distinct pairs survive the round trip as a set, whatever the
    // visit order of the sibling walk
    let entries: Vec<(u32, u32)> = (0..100u32).map(|k| (k, 1000 + k)).collect();
    let mut w = ByteWriter::new();
    let mut blocks = Blocks::new();
    let i = write_tree(&entries, 32, &mut w, &mut blocks).unwrap();
    let bytes = w.into_vec();
    let (mut read, declared_len) = read_tree(i, &bytes, &blocks).unwrap();
    assert_eq!(declared_len, 32);
    read.sort_unstable();
    assert_eq!(read, entries);

    // an empty tree is a single empty data node
    let empty: Vec<(u32, u32)> = Vec::new();
    let mut w = ByteWriter::new();
    let mut blocks = Blocks::new();
    let i = write_tree(&empty, 4096, &mut w, &mut blocks).unwrap();
    let bytes = w.into_vec();
    let (read, _) = read_tree(i, &bytes, &blocks).unwrap();
    assert!(read.is_empty());
}

fn be32(b: &[u8]) -> u32 {
    u32::from_be_bytes([b[0], b[1], b[2], b[3]])
}

#[test]
fn sibling_links_are_consistent() {
    // enough entries for several data nodes and a meta level
    let entries: Vec<(u32, u32)> = (0..100u32).map(|k| (k, k)).collect();
    let mut w = ByteWriter::new();
    let mut blocks = Blocks::new();
    let first = blocks.len() as u32;
    let desc = write_tree(&entries, 128, &mut w, &mut blocks).unwrap();
    let bytes = w.into_vec();
    // gather every node block: (index, next, prev)
    let mut nodes = Vec::new();
    for j in first..desc {
        let b = blocks.block(j);
        let off = b.offset as usize;
        let next = be32(&bytes[off + 4..off + 8]);
        let prev = be32(&bytes[off + 8..off + 12]);
        nodes.push((j, next, prev));
    }
    // within the level groups: a names b as next exactly when b names a
    // as prev, and the endpoints carry zero
    for &(a, next, _) in nodes.iter() {
        if next != 0 {
            let b = nodes.iter().find(|n| n.0 == next).unwrap();
            assert_eq!(b.2, a);
        }
    }
    for &(b, _, prev) in nodes.iter() {
        if prev != 0 {
            let a = nodes.iter().find(|n| n.0 == prev).unwrap();
            assert_eq!(a.1, b);
        }
    }
}

#[test]
fn invalid_block_index_is_an_error() {
    let blocks = Blocks::new();
    let bytes = vec![0u8; 32];
    assert!(matches!(
        read_tree(99, &bytes, &blocks),
        Err(stuckliste::error::Error::InvalidBlockIndex)
    ));
}

#[test]
fn node_blocks_have_the_declared_length() {
    // every emitted node block is exactly the declared node length
    let entries: Vec<(u32, u32)> = (0..50u32).map(|k| (k, k)).collect();
    let mut w = ByteWriter::new();
    let mut blocks = Blocks::new();
    let first = blocks.len();
    let i = write_tree(&entries, 128, &mut w, &mut blocks).unwrap();
    for j in first..blocks.len() - 1 {
        assert_eq!(blocks.block(j as u32).len, 128);
    }
    assert_eq!(blocks.block(i).len, 21);
}
