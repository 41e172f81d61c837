use apngopt::chunk::read_chunk;
use apngopt::decoder::load_apng_from_memory;
use apngopt::encoder::save_apng_to_memory;
use apngopt::compress::compress_zlib;
use apngopt::filter::apply_filter;
use apngopt::optimizer::OptimizedFrame;

fn chunk_types(file: &[u8]) -> Vec<([u8; 4], Vec<u8>)> {
    let mut out = Vec::new();
    let mut rest = &file[8..];
    while !rest.is_empty() {
        let c = read_chunk(rest).unwrap();
        let n = 12 + c.size as usize;
        out.push((c.chunk_type, c.data));
        rest = &rest[n..];
    }
    out
}

fn rgba_frame(x: u32, y: u32, w: u32, h: u32, pixels: &[u8], delay: u16) -> OptimizedFrame {
    OptimizedFrame {
        x, y, w, h,
        blend_op: 0,
        dispose_op: 0,
        delay_num: delay,
        delay_den: 100,
        compressed_data: compress_zlib(&apply_filter(pixels, w, h, 4, 0)),
    }
}

#[test]
fn file_layout_and_sequence_numbers() {
    let frames = vec![
        rgba_frame(0, 0, 2, 1, &[1, 2, 3, 255, 4, 5, 6, 255], 5),
        rgba_frame(1, 0, 1, 1, &[7, 8, 9, 255], 6),
        rgba_frame(0, 0, 1, 1, &[10, 11, 12, 255], 7),
    ];
    let file = save_apng_to_memory(2, 1, 3, &frames, None, None);
    assert_eq!(&file[0..8], b"\x89PNG\r\n\x1a\n");
    let chunks = chunk_types(&file);
    let types: Vec<&[u8; 4]> = chunks.iter().map(|c| &c.0).collect();
    assert_eq!(types, vec![b"IHDR", b"acTL", b"fcTL", b"IDAT", b"fcTL", b"fdAT", b"fcTL", b"fdAT", b"IEND"]);
    assert_eq!(chunks[0].1, vec![0, 0, 0, 2, 0, 0, 0, 1, 8, 6, 0, 0, 0]);
    assert_eq!(chunks[1].1, vec![0, 0, 0, 3, 0, 0, 0, 3]);
    // sequence numbers 0, 1, 2, 3, 4 over fcTL and fdAT
    assert_eq!(&chunks[2].1[0..4], &[0, 0, 0, 0]);
    assert_eq!(&chunks[4].1[0..4], &[0, 0, 0, 1]);
    assert_eq!(&chunks[5].1[0..4], &[0, 0, 0, 2]);
    assert_eq!(&chunks[6].1[0..4], &[0, 0, 0, 3]);
    assert_eq!(&chunks[7].1[0..4], &[0, 0, 0, 4]);
}

#[test]
fn palette_and_transparency_chunks() {
    let frames = vec![OptimizedFrame {
        x: 0, y: 0, w: 1, h: 1, blend_op: 0, dispose_op: 0, delay_num: 1, delay_den: 1,
        compressed_data: compress_zlib(&[0, 1]),
    }];
    let pal = [[1u8, 2, 3], [4, 5, 6]];
    let trns = [255u8, 0];
    let file = save_apng_to_memory(1, 1, 0, &frames, Some(&pal), Some(&trns));
    let chunks = chunk_types(&file);
    assert_eq!(chunks[0].1[9], 3);
    assert_eq!(&chunks[2].0, b"PLTE");
    assert_eq!(chunks[2].1, vec![1, 2, 3, 4, 5, 6]);
    assert_eq!(&chunks[3].0, b"tRNS");
    assert_eq!(chunks[3].1, vec![255, 0]);
    let img = load_apng_from_memory(&file).unwrap();
    assert_eq!(img.frames.len(), 1);
    assert_eq!(img.frames[0].data, vec![4, 5, 6, 0]);
}

#[test]
fn written_file_decodes_back() {
    let f0 = [1u8, 2, 3, 255, 4, 5, 6, 255];
    let f1 = [7u8, 8, 9, 255];
    let frames = vec![rgba_frame(0, 0, 2, 1, &f0, 5), rgba_frame(1, 0, 1, 1, &f1, 6)];
    let file = save_apng_to_memory(2, 1, 3, &frames, None, None);
    let img = load_apng_from_memory(&file).unwrap();
    assert_eq!((img.width, img.height, img.loops), (2, 1, 3));
    assert_eq!(img.frames.len(), 2);
    assert_eq!(img.frames[0].data, f0.to_vec());
    assert_eq!(img.frames[1].data, f1.to_vec());
    assert_eq!((img.frames[1].x_offset, img.frames[1].width, img.frames[1].delay_num), (1, 1, 6));
}
