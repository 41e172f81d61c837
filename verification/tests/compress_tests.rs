use apngopt::compress::{compress_data, compress_zlib, compress_zopfli};
use std::io::Read;

fn inflate(data: &[u8]) -> Vec<u8> {
    let mut out = Vec::new();
    flate2::read::ZlibDecoder::new(data).read_to_end(&mut out).unwrap();
    out
}

#[test]
fn zlib_round_trips() {
    let data: Vec<u8> = (0..200u32).map(|i| (i % 7) as u8).collect();
    let packed = compress_zlib(&data);
    assert_ne!(packed, data);
    assert_eq!(inflate(&packed), data);
}

#[test]
fn zopfli_round_trips() {
    let data: Vec<u8> = (0..300u32).map(|i| (i % 13) as u8).collect();
    let packed = compress_zopfli(&data, 3);
    assert_ne!(packed, data);
    assert_eq!(inflate(&packed), data);
}

#[test]
fn zopfli_zero_iterations_means_fifteen() {
    let data: Vec<u8> = (0..100u32).map(|i| (i * 3 % 11) as u8).collect();
    assert_eq!(compress_zopfli(&data, 0), compress_zopfli(&data, 15));
}

#[test]
fn compress_data_dispatches_on_method() {
    let data: Vec<u8> = (0..150u32).map(|i| (i % 5) as u8).collect();
    assert_eq!(compress_data(&data, 0, 15), compress_zlib(&data));
    assert_eq!(compress_data(&data, 1, 15), compress_zlib(&data));
    assert_eq!(compress_data(&data, 2, 4), compress_zopfli(&data, 4));
    assert_eq!(compress_data(&data, 9, 4), compress_zlib(&data));
    assert_eq!(inflate(&compress_data(&data, 2, 4)), data);
}
