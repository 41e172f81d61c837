use apngopt::decoder::{ApngImage, Frame};
use apngopt::reconstruct::{blend, check_reconstructible, clear_region, reconstruct_frames};

fn frame(w: u32, h: u32, x: u32, y: u32, dispose: u8, blend_op: u8, data: Vec<u8>) -> Frame {
    Frame { width: w, height: h, x_offset: x, y_offset: y, delay_num: 1, delay_den: 10, dispose_op: dispose, blend_op, data }
}

#[test]
fn blend_source_overwrites_rectangle() {
    // 2x1 canvas, frame of one pixel at x = 1
    let mut canvas = vec![1, 1, 1, 1, 2, 2, 2, 2];
    let f = frame(1, 1, 1, 0, 0, 0, vec![9, 8, 7, 0]);
    blend(&mut canvas, &f, 2, 4);
    assert_eq!(canvas, vec![1, 1, 1, 1, 9, 8, 7, 0]);
}

#[test]
fn blend_over_mixes_by_alpha() {
    let mut canvas = vec![100, 0, 0, 255];
    let f = frame(1, 1, 0, 0, 0, 1, vec![0, 200, 0, 128]);
    blend(&mut canvas, &f, 1, 4);
    // u = 128*255 = 32640, v = 127*255 = 32385, al = 65025
    // r = (0*u + 100*v)/al = 49, g = (200*u)/al = 100, b = 0, a = 255
    assert_eq!(canvas, vec![49, 100, 0, 255]);
}

#[test]
fn blend_over_transparent_source_keeps_canvas() {
    let mut canvas = vec![5, 6, 7, 8];
    let f = frame(1, 1, 0, 0, 0, 1, vec![1, 2, 3, 0]);
    blend(&mut canvas, &f, 1, 4);
    assert_eq!(canvas, vec![5, 6, 7, 8]);
}

#[test]
fn blend_over_onto_transparent_copies_source() {
    let mut canvas = vec![5, 6, 7, 0];
    let f = frame(1, 1, 0, 0, 0, 1, vec![1, 2, 3, 40]);
    blend(&mut canvas, &f, 1, 4);
    assert_eq!(canvas, vec![1, 2, 3, 40]);
}

#[test]
fn clear_region_zeroes_rectangle() {
    let mut canvas = vec![1u8; 16];
    let f = frame(1, 2, 1, 0, 1, 0, vec![0; 8]);
    clear_region(&mut canvas, &f, 2, 4);
    assert_eq!(canvas, vec![1, 1, 1, 1, 0, 0, 0, 0, 1, 1, 1, 1, 0, 0, 0, 0]);
}

#[test]
fn reconstruct_applies_dispose_ops() {
    let red = vec![255, 0, 0, 255];
    let green = vec![0, 255, 0, 255];
    let apng = ApngImage {
        width: 2,
        height: 1,
        loops: 0,
        frames: vec![
            frame(2, 1, 0, 0, 0, 0, [red.clone(), red.clone()].concat()),
            frame(1, 1, 1, 0, 2, 0, green.clone()),
            frame(1, 1, 0, 0, 1, 0, green.clone()),
            frame(1, 1, 1, 0, 0, 1, vec![0, 0, 0, 0]),
        ],
    };
    assert!(check_reconstructible(&apng));
    let full = reconstruct_frames(&apng);
    assert_eq!(full.len(), 4);
    assert_eq!(full[0], [red.clone(), red.clone()].concat());
    assert_eq!(full[1], [red.clone(), green.clone()].concat());
    // frame 1 disposed to previous: back to red, red
    assert_eq!(full[2], [green.clone(), red.clone()].concat());
    // frame 2 disposed to background: its pixel cleared
    assert_eq!(full[3], [vec![0, 0, 0, 0], red.clone()].concat());
}

#[test]
fn reconstruct_first_frame_previous_is_background() {
    let apng = ApngImage {
        width: 1,
        height: 1,
        loops: 0,
        frames: vec![frame(1, 1, 0, 0, 2, 0, vec![1, 2, 3, 4]), frame(1, 1, 0, 0, 0, 1, vec![0, 0, 0, 0])],
    };
    let full = reconstruct_frames(&apng);
    assert_eq!(full[0], vec![1, 2, 3, 4]);
    assert_eq!(full[1], vec![0, 0, 0, 0]);
}

#[test]
fn check_reconstructible_refuses_frame_outside_canvas() {
    let apng = ApngImage { width: 1, height: 1, loops: 0, frames: vec![frame(1, 1, 0, 1, 0, 0, vec![0; 4])] };
    assert!(!check_reconstructible(&apng));
    let short = ApngImage { width: 2, height: 1, loops: 0, frames: vec![frame(2, 1, 0, 0, 0, 0, vec![0; 4])] };
    assert!(!check_reconstructible(&short));
}
