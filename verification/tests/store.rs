use astra::store::{
    join_path, read_chunk, hex_string, push_frame, read_all, read_chunk_records, sha256_hex, split_frames,
    verify_chunk, ChunkIndexEntry, ChunkWriter, ClosedChunk, StoreError,
};

fn sample(count: u64) -> Vec<(u64, Vec<u8>)> {
    (0..count)
        .map(|seq| (seq, vec![0x00, 0xFF, 0x80, seq as u8]))
        .collect()
}

/// Writes the records through a fresh writer continuing `index`; returns the
/// closed chunks and the final index.
fn write_all(
    index: Vec<ChunkIndexEntry>,
    records_per_chunk: usize,
    records: &[(u64, Vec<u8>)],
) -> (Vec<ClosedChunk>, Vec<ChunkIndexEntry>) {
    let mut writer = ChunkWriter::open(index, records_per_chunk).unwrap();
    let mut chunks = Vec::new();
    for (seq, record) in records {
        if let Some(chunk) = writer.append(*seq, record).unwrap() {
            chunks.push(chunk);
        }
    }
    let (last, index) = writer.finish().unwrap();
    chunks.extend(last);
    (chunks, index)
}

fn bytes(chunks: &[ClosedChunk]) -> Vec<Vec<u8>> {
    chunks.iter().map(|c| c.compressed.clone()).collect()
}

#[test]
fn zero_sized_chunks_are_rejected() {
    assert!(matches!(
        ChunkWriter::open(Vec::new(), 0),
        Err(StoreError::InvalidChunkSize)
    ));
}

#[test]
fn records_round_trip_across_chunks() {
    let records = sample(7);
    let (chunks, index) = write_all(Vec::new(), 3, &records);

    assert_eq!(index.len(), 3);
    let read = read_all("capture/frames", &index, &bytes(&chunks)).unwrap();
    let expected: Vec<Vec<u8>> = records.into_iter().map(|(_, r)| r).collect();
    assert_eq!(read, expected);
}

#[test]
fn payloads_are_preserved_byte_for_byte() {
    let records = vec![(1, Vec::new()), (2, vec![0xFF, 0xFE, 0x00, 0x80])];
    let (chunks, index) = write_all(Vec::new(), 8, &records);

    let read = read_all("capture/frames", &index, &bytes(&chunks)).unwrap();
    assert_eq!(read[0], Vec::<u8>::new());
    assert_eq!(read[1], vec![0xFF, 0xFE, 0x00, 0x80]);
}

#[test]
fn index_records_seq_ranges_and_hashes() {
    let (chunks, index) = write_all(Vec::new(), 4, &sample(6));

    assert_eq!(index.len(), 2);
    assert_eq!(index[0].name, "chunk-000000.zst");
    assert_eq!(index[0].first_seq, 0);
    assert_eq!(index[0].last_seq, 3);
    assert_eq!(index[0].records, 4);
    assert_eq!(index[1].name, "chunk-000001.zst");
    assert_eq!(index[1].first_seq, 4);
    assert_eq!(index[1].last_seq, 5);
    assert_eq!(index[1].records, 2);

    for (entry, chunk) in index.iter().zip(&chunks) {
        assert_eq!(chunk.entry, *entry);
        assert_eq!(chunk.compressed.len() as u64, entry.bytes);
        verify_chunk(&entry.name, &chunk.compressed, &entry.sha256).unwrap();
    }
}

#[test]
fn tampered_chunks_fail_verification() {
    let (chunks, index) = write_all(Vec::new(), 2, &sample(2));
    let mut stored = bytes(&chunks);
    stored[0][0] ^= 0xFF;

    assert!(matches!(
        verify_chunk(&index[0].name, &stored[0], &index[0].sha256),
        Err(StoreError::Integrity(_))
    ));
    assert!(matches!(
        read_all("capture/frames", &index, &stored),
        Err(StoreError::Integrity(_))
    ));
    assert!(matches!(
        read_chunk_records(&index[0].name, &stored[0], &index[0].sha256),
        Err(StoreError::Integrity(_))
    ));
}

#[test]
fn writer_resumes_without_clobbering() {
    let (first_chunks, first_index) = write_all(Vec::new(), 2, &sample(2));
    let (second_chunks, index) = write_all(first_index, 2, &sample(4)[2..]);

    assert_eq!(index.len(), 2);
    assert_eq!(index[1].name, "chunk-000001.zst");
    let mut stored = bytes(&first_chunks);
    stored.extend(bytes(&second_chunks));
    assert_eq!(read_all("capture/frames", &index, &stored).unwrap().len(), 4);
}

#[test]
fn truncated_streams_are_rejected() {
    let mut body = Vec::new();
    push_frame(&[1, 2, 3], &mut body).unwrap();
    assert_eq!(body, vec![3, 0, 0, 0, 1, 2, 3]);
    assert!(matches!(split_frames(&body[..3], "chunk-000000.zst"), Err(StoreError::Malformed(_))));
    assert!(matches!(split_frames(&body[..6], "chunk-000000.zst"), Err(StoreError::Malformed(_))));
    assert_eq!(split_frames(&body, "chunk-000000.zst").unwrap(), vec![vec![1, 2, 3]]);
    assert_eq!(split_frames(&[], "chunk-000000.zst").unwrap(), Vec::<Vec<u8>>::new());

    let compressed = zstd::stream::encode_all(&body[..3], 3).unwrap();
    match read_chunk("capture/frames/chunk-000000.zst", &compressed) {
        Err(StoreError::Malformed(message)) => {
            assert_eq!(message, "capture/frames/chunk-000000.zst: truncated record stream")
        }
        other => panic!("unexpected {other:?}"),
    }
}

#[test]
fn undecompressable_bytes_are_malformed() {
    assert!(matches!(read_chunk("chunk-000009.zst", b"not zstd"), Err(StoreError::Malformed(_))));
}

#[test]
fn an_empty_writer_closes_no_chunk() {
    let writer = ChunkWriter::open(Vec::new(), 5).unwrap();
    let (last, index) = writer.finish().unwrap();
    assert!(last.is_none());
    assert!(index.is_empty());
}

#[test]
fn sha256_is_written_in_lowercase_hex() {
    assert_eq!(
        sha256_hex(b"abc"),
        "ba7816bf8f01cfea414140de5dae2223b00361a396177a9cb410ff61f20015ad"
    );
    assert_eq!(
        sha256_hex(b""),
        "e3b0c44298fc1c149afbf4c8996fb92427ae41e4649b934ca495991b7852b855"
    );
    assert_eq!(hex_string(&[0x00, 0x0f, 0xa0, 0xff]), "000fa0ff");
}

#[test]
fn the_index_of_a_writer_grows_with_each_chunk() {
    let mut writer = ChunkWriter::open(Vec::new(), 1).unwrap();
    assert!(writer.index().is_empty());
    let chunk = writer.append(7, b"x").unwrap().unwrap();
    assert_eq!(writer.index().len(), 1);
    assert_eq!(writer.index()[0], chunk.entry);
    assert_eq!(chunk.entry.first_seq, 7);
    assert_eq!(chunk.entry.last_seq, 7);
    assert_eq!(read_chunk(&chunk.entry.name, &chunk.compressed).unwrap(), vec![b"x".to_vec()]);
}

#[test]
fn errors_name_the_chunk_path() {
    let (chunks, index) = write_all(Vec::new(), 2, &sample(2));
    let mut stored = bytes(&chunks);
    stored[0][0] ^= 0xFF;
    match read_all("capture/frames", &index, &stored) {
        Err(StoreError::Integrity(message)) => {
            assert!(message.starts_with("capture/frames/chunk-000000.zst: expected "));
            assert!(message.contains(&index[0].sha256));
            assert!(message.contains(", found "));
        }
        other => panic!("unexpected {other:?}"),
    }
    match read_chunk("c.zst", b"not zstd") {
        Err(StoreError::Malformed(message)) => assert!(message.starts_with("c.zst: ")),
        other => panic!("unexpected {other:?}"),
    }
}

#[test]
fn chunk_paths_join_like_directories() {
    assert_eq!(join_path("frames", "chunk-000000.zst"), "frames/chunk-000000.zst");
    assert_eq!(join_path("frames/", "chunk-000000.zst"), "frames/chunk-000000.zst");
    assert_eq!(join_path("", "chunk-000000.zst"), "chunk-000000.zst");
}

#[test]
fn a_full_chunk_closes_when_it_can_be_compressed() {
    let mut writer = ChunkWriter::open(Vec::new(), 2).unwrap();
    assert!(writer.append(0, b"a").unwrap().is_none());
    let chunk = writer.append(1, b"b").unwrap().expect("a full chunk closes");
    assert_eq!(chunk.entry.records, 2);
    let (last, index) = writer.finish().unwrap();
    assert!(last.is_none());
    assert_eq!(index, vec![chunk.entry]);
}

#[test]
fn finishing_leaves_one_chunk_per_started_chunk() {
    assert_eq!(write_all(Vec::new(), 3, &sample(6)).1.len(), 2);
    assert_eq!(write_all(Vec::new(), 3, &sample(7)).1.len(), 3);
    assert_eq!(write_all(Vec::new(), 1, &sample(4)).1.len(), 4);
    assert_eq!(write_all(Vec::new(), 5, &sample(0)).1.len(), 0);
    let (_, first_index) = write_all(Vec::new(), 2, &sample(3));
    assert_eq!(first_index.len(), 2);
    assert_eq!(write_all(first_index, 2, &sample(8)[3..]).1.len(), 5);
}

#[test]
fn a_resumed_capture_reads_old_records_then_new() {
    let records = sample(5);
    let (first_chunks, first_index) = write_all(Vec::new(), 2, &records[..3]);
    let (second_chunks, index) = write_all(first_index, 2, &records[3..]);

    assert_eq!(index.len(), 3);
    assert_eq!(index[2].name, "chunk-000002.zst");
    let mut stored = bytes(&first_chunks);
    stored.extend(bytes(&second_chunks));
    let expected: Vec<Vec<u8>> = records.into_iter().map(|(_, r)| r).collect();
    assert_eq!(read_all("capture/frames", &index, &stored).unwrap(), expected);
}
