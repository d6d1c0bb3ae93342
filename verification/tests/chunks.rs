//! The differential chunker, on concrete vectors.

use colorhoster::chunks::{chunk_changed_list, ChunkChanged};

fn collect(modified: &[i32], chunk_size: usize, reference: &[i32]) -> Vec<(usize, Vec<i32>)> {
    let mut scan = modified.chunk_changed(chunk_size, reference);
    let mut out = Vec::new();
    while let Some(c) = scan.next() {
        out.push(c);
    }
    out
}

#[test]
fn basic_example() {
    let original = vec![1, 3, 4, 5, 6, 6, 8];
    let modified = vec![4, 5, 7];
    let offset = 2;
    let chunk_size = 2;

    let chunks = collect(&modified, chunk_size, &original[offset..]);
    assert_eq!(chunks, vec![(2, vec![7])]);
}

#[test]
fn multiple_chunks_example() {
    let original = vec![1, 3, 4, 5, 6, 6, 8];
    let modified = vec![1, -1, 4, -2, 6, -3, 8];
    let chunk_size = 3;

    let chunks = collect(&modified, chunk_size, &original);
    assert_eq!(chunks, vec![(1, vec![-1, 4, -2]), (5, vec![-3])]);
}

#[test]
fn all_elements_differ() {
    let original = vec![1, 2, 3];
    let modified = vec![4, 5, 6];
    let chunks = collect(&modified, 2, &original);
    assert_eq!(chunks, vec![(0, vec![4, 5]), (2, vec![6])]);
}

#[test]
fn no_differences() {
    let original = vec![1, 2, 3];
    let modified = vec![1, 2, 3];
    let chunks = collect(&modified, 2, &original);
    assert!(chunks.is_empty());
}

#[test]
fn exact_chunk_boundaries() {
    let original = vec![0, 0, 0, 0, 0];
    let modified = vec![1, 0, 2, 0, 3];
    let chunks = collect(&modified, 2, &original);
    assert_eq!(chunks, vec![(0, vec![1]), (2, vec![2]), (4, vec![3])]);
}

#[test]
fn large_chunk_size() {
    let original = vec![1, 2, 3];
    let modified = vec![4, 5, 6];
    let chunks = collect(&modified, 5, &original);
    assert_eq!(chunks, vec![(0, vec![4, 5, 6])]);
}

#[test]
fn collected_list_matches_stepwise_scan() {
    let original: Vec<u8> = vec![9, 9, 9, 9, 9, 9];
    let modified: Vec<u8> = vec![9, 1, 2, 9, 3, 9];
    let listed = chunk_changed_list(&modified, &original, 2);
    let mut scan = modified.as_slice().chunk_changed(2, &original);
    let mut stepped = Vec::new();
    while let Some(c) = scan.next() {
        stepped.push(c);
    }
    assert_eq!(listed, stepped);
    assert_eq!(listed, vec![(1, vec![1, 2]), (4, vec![3])]);
}
