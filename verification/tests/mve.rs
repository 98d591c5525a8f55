use datkit::mve::{deltas, ChunkType};

#[test]
fn delta_iter_test() {
    let values = vec![0, 1, 2, 3, -3, -2, -1];
    let sums = deltas(&values);

    assert_eq!(&sums, &[0, 1, 3, 6, 3, 1, 0]);
}

#[test]
fn chunk_type_tags() {
    assert_eq!(ChunkType::from_int(0), Some(ChunkType::InitAudio));
    assert_eq!(ChunkType::from_int(5), Some(ChunkType::EndChunk));
    assert_eq!(ChunkType::from_int(6), None);
    assert_eq!(ChunkType::from_int(-1), None);
}
