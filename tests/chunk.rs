use boltr::chunk::{read_message, write_message, ChunkWriter, MAX_CHUNK_SIZE};

#[test]
fn read_single_chunk_message() {
    let data: Vec<u8> = vec![0x00, 0x03, 0x01, 0x02, 0x03, 0x00, 0x00];
    let (msg, end) = read_message(&data, 0).unwrap();
    assert_eq!(&msg[..], &[0x01, 0x02, 0x03]);
    assert_eq!(end, 7);
}

#[test]
fn read_multi_chunk_message() {
    let data: Vec<u8> = vec![0x00, 0x02, 0xAA, 0xBB, 0x00, 0x01, 0xCC, 0x00, 0x00];
    let (msg, _) = read_message(&data, 0).unwrap();
    assert_eq!(&msg[..], &[0xAA, 0xBB, 0xCC]);
}

#[test]
fn read_empty_message() {
    let data: Vec<u8> = vec![0x00, 0x00];
    let (msg, _) = read_message(&data, 0).unwrap();
    assert!(msg.is_empty());
}

#[test]
fn write_small_message() {
    let writer = ChunkWriter::new(());
    let output = writer.frame(&[0x01, 0x02, 0x03]);
    assert_eq!(output, vec![0x00, 0x03, 0x01, 0x02, 0x03, 0x00, 0x00]);
}

#[test]
fn write_empty_message() {
    let writer = ChunkWriter::new(());
    let output = writer.frame(&[]);
    assert_eq!(output, vec![0x00, 0x00]);
}

#[test]
fn read_incomplete_message() {
    let data: Vec<u8> = vec![0x00, 0x03, 0x01, 0x02];
    assert!(read_message(&data, 0).is_none());
}

#[test]
fn large_payload_splits_at_chunk_limit() {
    let payload: Vec<u8> = (0..(MAX_CHUNK_SIZE + 10)).map(|i| (i % 251) as u8).collect();
    let framed = write_message(&payload, MAX_CHUNK_SIZE);
    assert_eq!(&framed[..2], &[0xFF, 0xFF]);
    assert_eq!(&framed[2 + MAX_CHUNK_SIZE..4 + MAX_CHUNK_SIZE], &[0x00, 0x0A]);
    assert_eq!(framed.len(), 2 + MAX_CHUNK_SIZE + 2 + 10 + 2);
    let (back, end) = read_message(&framed, 0).unwrap();
    assert_eq!(back, payload);
    assert_eq!(end, framed.len());
}

#[test]
fn small_chunks_round_trip() {
    let payload: Vec<u8> = vec![1, 2, 3, 4, 5, 6, 7];
    let framed = write_message(&payload, 3);
    assert_eq!(framed, vec![0, 3, 1, 2, 3, 0, 3, 4, 5, 6, 0, 1, 7, 0, 0]);
    let (back, _) = read_message(&framed, 0).unwrap();
    assert_eq!(back, payload);
}
