use segmented_changelog::chunks::split_bytes_in_chunk;

#[test]
fn splits_into_full_chunks_and_a_tail() {
    let blob: Vec<u8> = (0..25).collect();
    let chunks = split_bytes_in_chunk(&blob, 10);
    assert_eq!(chunks.len(), 3);
    assert_eq!(chunks[0], (0..10).collect::<Vec<u8>>());
    assert_eq!(chunks[1], (10..20).collect::<Vec<u8>>());
    assert_eq!(chunks[2], (20..25).collect::<Vec<u8>>());
}

#[test]
fn exact_multiple_has_no_short_chunk() {
    let blob = vec![7u8; 20];
    let chunks = split_bytes_in_chunk(&blob, 10);
    assert_eq!(chunks, vec![vec![7u8; 10], vec![7u8; 10]]);
}

#[test]
fn empty_blob_gives_no_chunk() {
    assert!(split_bytes_in_chunk(&Vec::new(), 10).is_empty());
}

#[test]
fn chunk_larger_than_blob_keeps_it_whole() {
    assert_eq!(split_bytes_in_chunk(&vec![1, 2, 3], 10000), vec![vec![1, 2, 3]]);
}
