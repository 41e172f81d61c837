use apngopt::decoder::{frame_to_rgba, load_apng_from_memory, ApngImage, Frame};
use apngopt::quantize::{assemble_quantized, quantize_frames, split_palette};
use apngopt::reconstruct::reconstruct_frames;
use apngopt::{find_transparent_color, optimize_apng_logic, optimize_apng_wasm, optimize_decoded, OptimizeOptions};

fn frame(w: u32, h: u32, x: u32, y: u32, delay: u16, blend_op: u8, data: Vec<u8>) -> Frame {
    Frame { width: w, height: h, x_offset: x, y_offset: y, delay_num: delay, delay_den: 100, dispose_op: 0, blend_op, data }
}

fn sample() -> ApngImage {
    let a = vec![10, 20, 30, 255, 40, 50, 60, 255, 70, 80, 90, 255, 1, 2, 3, 255];
    ApngImage {
        width: 2,
        height: 2,
        loops: 0,
        frames: vec![
            frame(2, 2, 0, 0, 10, 0, a.clone()),
            frame(1, 1, 1, 1, 20, 0, vec![200, 100, 0, 255]),
            frame(1, 1, 0, 0, 30, 0, vec![5, 5, 5, 255]),
        ],
    }
}

#[test]
fn frame_to_rgba_conversions() {
    assert_eq!(frame_to_rgba(vec![1, 2, 3, 4, 5, 6], 2), vec![1, 2, 3, 255, 4, 5, 6, 255]);
    assert_eq!(frame_to_rgba(vec![7, 9, 8, 0], 4), vec![7, 7, 7, 9, 8, 8, 8, 0]);
    assert_eq!(frame_to_rgba(vec![5, 6], 0), vec![5, 5, 5, 255, 6, 6, 6, 255]);
    assert_eq!(frame_to_rgba(vec![1, 2, 3, 4], 6), vec![1, 2, 3, 4]);
    assert_eq!(frame_to_rgba(vec![], 2), Vec::<u8>::new());
}

#[test]
fn transparent_color_prefers_fully_transparent() {
    assert_eq!(find_transparent_color(&[255, 100, 0, 0]), (true, 2));
    assert_eq!(find_transparent_color(&[255, 100, 50]), (true, 1));
    assert_eq!(find_transparent_color(&[255, 255]), (false, 0));
    assert_eq!(find_transparent_color(&[]), (false, 0));
}

#[test]
fn split_palette_separates_alpha() {
    let (rgb, a) = split_palette(&[[1, 2, 3, 4], [5, 6, 7, 8]]);
    assert_eq!(rgb, vec![[1, 2, 3], [5, 6, 7]]);
    assert_eq!(a, vec![4, 8]);
}

#[test]
fn quantize_frames_shapes() {
    let full = reconstruct_frames(&sample());
    let q = quantize_frames(&full, 2, 2).unwrap();
    assert_eq!(q.frames.len(), 3);
    for f in &q.frames {
        assert_eq!(f.len(), 4);
        for &idx in f {
            assert!((idx as usize) < q.palette.len());
        }
    }
    assert_eq!(q.palette.len(), q.transparency.len());
    assert!(!q.palette.is_empty() && q.palette.len() <= 256);
}

#[test]
fn true_colour_optimisation_is_lossless() {
    let apng = sample();
    let expected = reconstruct_frames(&apng);
    let opts = OptimizeOptions { z_method: 0, iterations: 15, disable_imagequant: 1 };
    let file = optimize_apng_logic(sample(), &opts).unwrap();
    let back = load_apng_from_memory(&file).unwrap();
    assert_eq!((back.width, back.height), (2, 2));
    let shown = reconstruct_frames(&back);
    assert_eq!(shown.len(), 3);
    for i in 0..3 {
        assert_eq!(shown[i], expected[i]);
    }
    assert_eq!(back.frames[1].delay_num, 20);
}

#[test]
fn identical_frame_is_merged_into_previous_delay() {
    let mut apng = sample();
    let first = apng.frames[0].data.clone();
    apng.frames[1] = frame(2, 2, 0, 0, 20, 0, first);
    let opts = OptimizeOptions { z_method: 2, iterations: 1, disable_imagequant: 1 };
    let file = optimize_apng_logic(apng, &opts).unwrap();
    let back = load_apng_from_memory(&file).unwrap();
    assert_eq!(back.frames.len(), 2);
    assert_eq!(back.frames[0].delay_num, 30);
    assert_eq!(back.frames[1].delay_num, 30);
}

#[test]
fn merged_delay_overflow_is_an_error() {
    let mut apng = sample();
    let first = apng.frames[0].data.clone();
    apng.frames[0].delay_num = 60000;
    apng.frames[1] = frame(2, 2, 0, 0, 60000, 0, first);
    let opts = OptimizeOptions { z_method: 0, iterations: 15, disable_imagequant: 1 };
    assert!(optimize_apng_logic(apng, &opts).is_err());
}

#[test]
fn palette_optimisation_produces_a_palette_file() {
    let opts = OptimizeOptions { z_method: 0, iterations: 15, disable_imagequant: 0 };
    let file = optimize_apng_logic(sample(), &opts).unwrap();
    let back = load_apng_from_memory(&file).unwrap();
    assert_eq!((back.width, back.height), (2, 2));
    assert!(!back.frames.is_empty());
    // a palette file decodes to RGBA frames, four bytes a pixel
    for f in &back.frames {
        assert_eq!(f.data.len() as u32, 4 * f.width * f.height);
    }
}

#[test]
fn true_colour_keeps_colour_under_zero_alpha() {
    let apng = ApngImage {
        width: 2,
        height: 1,
        loops: 0,
        frames: vec![
            frame(2, 1, 0, 0, 10, 0, vec![1, 2, 3, 0, 9, 9, 9, 255]),
            frame(1, 1, 0, 0, 10, 0, vec![7, 8, 6, 0]),
        ],
    };
    let expected = reconstruct_frames(&apng);
    assert_eq!(expected[1], vec![7, 8, 6, 0, 9, 9, 9, 255]);
    let opts = OptimizeOptions { z_method: 1, iterations: 15, disable_imagequant: 1 };
    let file = optimize_apng_logic(apng, &opts).unwrap();
    let back = load_apng_from_memory(&file).unwrap();
    assert_eq!(back.frames.len(), 2);
    assert_eq!(reconstruct_frames(&back), expected);
}

#[test]
fn optimize_decoded_refuses_frames_outside_canvas() {
    let mut apng = sample();
    apng.frames[1].x_offset = 5;
    let opts = OptimizeOptions { z_method: 0, iterations: 15, disable_imagequant: 1 };
    assert!(optimize_decoded(apng, &opts).is_err());
}

#[test]
fn optimize_bytes_end_to_end() {
    let opts = OptimizeOptions { z_method: 0, iterations: 15, disable_imagequant: 1 };
    let file = optimize_apng_logic(sample(), &opts).unwrap();
    let again = optimize_apng_wasm(&file, 0, 15, 1).unwrap();
    let back = load_apng_from_memory(&again).unwrap();
    assert_eq!(reconstruct_frames(&back), reconstruct_frames(&sample()));
    assert!(optimize_apng_wasm(b"not a png", 0, 15, 1).is_err());
}

#[test]
fn quantize_refuses_mismatched_image_size() {
    let r = quantize_frames(&[vec![0, 0, 0, 255]], 2, 2);
    assert_eq!(r.err(), Some("Failed to create imagequant image".to_string()));
}

#[test]
fn quantize_without_frames_has_nothing_to_quantize() {
    let r = quantize_frames(&[], 2, 2);
    assert_eq!(r.err(), Some("Failed to quantize histogram".to_string()));
}

#[test]
fn full_frames_have_canvas_size() {
    let full = reconstruct_frames(&sample());
    for f in &full {
        assert_eq!(f.len(), 2 * 2 * 4);
    }
}

#[test]
fn assemble_takes_first_palette_and_every_frame() {
    let remaps = vec![
        (vec![[1, 2, 3, 4], [5, 6, 7, 8]], vec![0, 1, 1]),
        (vec![[9, 9, 9, 9], [0, 0, 0, 0]], vec![1, 0, 0]),
    ];
    let (frames, palette, alphas) = assemble_quantized(remaps).unwrap();
    assert_eq!(frames, vec![vec![0, 1, 1], vec![1, 0, 0]]);
    assert_eq!(palette, vec![[1, 2, 3], [5, 6, 7]]);
    assert_eq!(alphas, vec![4, 8]);
}

#[test]
fn assemble_refuses_an_empty_first_palette() {
    let r = assemble_quantized(vec![(vec![], vec![0]), (vec![[1, 1, 1, 1]], vec![0])]);
    assert_eq!(r.err(), Some("Failed to remap image".to_string()));
    let (frames, palette, alphas) = assemble_quantized(vec![]).unwrap();
    assert!(frames.is_empty() && palette.is_empty() && alphas.is_empty());
}
