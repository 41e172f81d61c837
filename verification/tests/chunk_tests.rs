use apngopt::chunk::{read_chunk, Chunk, ChunkError};

#[test]
fn test_chunk_creation_and_write() {
    let chunk_type = *b"IHDR";
    let data = vec![0, 0, 0, 10, 0, 0, 0, 10, 8, 6, 0, 0, 0];
    let chunk = Chunk::new(chunk_type, data.clone());

    assert_eq!(chunk.size, 13);
    assert_eq!(chunk.chunk_type, chunk_type);
    assert_eq!(chunk.data, data);

    let mut buf = Vec::new();
    chunk.write(&mut buf);

    assert_eq!(buf.len(), 4 + 4 + 13 + 4); // size + type + data + crc
    assert_eq!(&buf[0..4], &13u32.to_be_bytes());
    assert_eq!(&buf[4..8], &chunk_type);
    assert_eq!(&buf[8..21], data.as_slice());
    assert_eq!(&buf[21..25], &chunk.crc.to_be_bytes());
}

#[test]
fn test_read_chunk_success() {
    let chunk_type = *b"tEXt";
    let data = b"Hello".to_vec();
    let chunk = Chunk::new(chunk_type, data);

    let mut buf = Vec::new();
    chunk.write(&mut buf);

    let read_back = read_chunk(&buf).unwrap();

    assert_eq!(read_back.size, chunk.size);
    assert_eq!(read_back.chunk_type, chunk.chunk_type);
    assert_eq!(read_back.data, chunk.data);
    assert_eq!(read_back.crc, chunk.crc);
}

#[test]
fn test_read_chunk_invalid_crc() {
    let chunk_type = *b"tEXt";
    let data = b"Hello".to_vec();
    let chunk = Chunk::new(chunk_type, data);

    let mut buf = Vec::new();
    chunk.write(&mut buf);

    // Corrupt the data to invalidate CRC
    buf[10] = b'M';

    let result = read_chunk(&buf);

    assert!(result.is_err());
    assert_eq!(result.unwrap_err(), ChunkError::InvalidData);
}

#[test]
fn chunk_crc_is_crc32_of_type_and_data() {
    // The CRC of an IEND chunk is fixed by the PNG format.
    let chunk = Chunk::new(*b"IEND", Vec::new());
    assert_eq!(chunk.crc, 0xAE42_6082);
    let mut buf = Vec::new();
    chunk.write(&mut buf);
    assert_eq!(buf, vec![0, 0, 0, 0, b'I', b'E', b'N', b'D', 0xAE, 0x42, 0x60, 0x82]);
}

#[test]
fn read_chunk_ignores_trailing_bytes() {
    let chunk = Chunk::new(*b"abcd", vec![1, 2, 3]);
    let mut buf = Vec::new();
    chunk.write(&mut buf);
    buf.extend_from_slice(&[9, 9, 9]);
    let back = read_chunk(&buf).unwrap();
    assert_eq!(back.data, vec![1, 2, 3]);
    assert_eq!(back.chunk_type, *b"abcd");
}

#[test]
fn read_chunk_short_input_is_eof() {
    assert_eq!(read_chunk(&[0, 0, 0]).unwrap_err(), ChunkError::UnexpectedEof);
    let chunk = Chunk::new(*b"abcd", vec![1, 2, 3]);
    let mut buf = Vec::new();
    chunk.write(&mut buf);
    buf.pop();
    assert_eq!(read_chunk(&buf).unwrap_err(), ChunkError::UnexpectedEof);
}

#[test]
fn chunks_read_back_in_sequence() {
    let a = Chunk::new(*b"aaaa", vec![1]);
    let b = Chunk::new(*b"bbbb", vec![2, 3]);
    let mut buf = Vec::new();
    a.write(&mut buf);
    b.write(&mut buf);
    let first = read_chunk(&buf).unwrap();
    assert_eq!(first.chunk_type, *b"aaaa");
    let rest = &buf[12 + first.size as usize..];
    let second = read_chunk(rest).unwrap();
    assert_eq!(second.chunk_type, *b"bbbb");
    assert_eq!(second.data, vec![2, 3]);
}
