use apngopt::compress::compress_data;
use apngopt::filter::apply_filter;
use apngopt::optimizer::{get_rect_candidates, optimize_rect, RectResult};

fn rgba(pixels: &[[u8; 4]]) -> Vec<u8> {
    pixels.iter().flat_map(|p| p.iter().copied()).collect()
}

#[test]
fn identical_frames_give_no_candidate() {
    let canvas = rgba(&[[1, 2, 3, 255], [4, 5, 6, 255]]);
    assert!(get_rect_candidates(&canvas, &canvas, 2, 1, 0, 4, false, 0).is_empty());
}

#[test]
fn transparent_pixels_keep_their_colour() {
    let a = rgba(&[[1, 2, 3, 0]]);
    let b = rgba(&[[9, 9, 9, 0]]);
    let cands = get_rect_candidates(&a, &b, 1, 1, 0, 4, false, 0);
    // the colour under alpha 0 changed: one SOURCE candidate, no OVER
    assert_eq!(cands.len(), 1);
    assert_eq!((cands[0].x, cands[0].y, cands[0].w, cands[0].h, cands[0].blend_op), (0, 0, 1, 1, 0));
    assert_eq!(cands[0].data, b);
}

#[test]
fn bounding_box_covers_changed_pixels() {
    // 3x3 canvas; pixels (1,0) and (2,2) change to opaque values
    let black = [0, 0, 0, 255];
    let prev = rgba(&[black; 9]);
    let mut curr_px = [black; 9];
    curr_px[1] = [10, 10, 10, 255];
    curr_px[8] = [20, 20, 20, 255];
    let curr = rgba(&curr_px);
    let cands = get_rect_candidates(&prev, &curr, 3, 3, 0, 4, false, 0);
    assert_eq!(cands.len(), 2);
    let c0 = &cands[0];
    assert_eq!((c0.x, c0.y, c0.w, c0.h, c0.blend_op, c0.dispose_op), (1, 0, 2, 3, 0, 0));
    // source data: columns 1..3 of each row
    assert_eq!(c0.data, rgba(&[curr_px[1], curr_px[2], curr_px[4], curr_px[5], curr_px[7], curr_px[8]]));
    let c1 = &cands[1];
    assert_eq!((c1.x, c1.y, c1.w, c1.h, c1.blend_op), (1, 0, 2, 3, 1));
    let z = [0, 0, 0, 0];
    assert_eq!(c1.data, rgba(&[curr_px[1], z, z, z, z, curr_px[8]]));
}

#[test]
fn over_refused_when_change_is_translucent() {
    let prev = rgba(&[[0, 0, 0, 255]]);
    let curr = rgba(&[[0, 0, 0, 100]]);
    let cands = get_rect_candidates(&prev, &curr, 1, 1, 0, 4, false, 0);
    assert_eq!(cands.len(), 1);
    assert_eq!(cands[0].blend_op, 0);
}

#[test]
fn palette_mode_candidates() {
    let prev = vec![1, 1, 1, 1];
    let curr = vec![1, 2, 1, 1];
    // without a transparent index OVER is impossible
    let cands = get_rect_candidates(&prev, &curr, 2, 2, 0, 1, false, 0);
    assert_eq!(cands.len(), 1);
    assert_eq!((cands[0].x, cands[0].y, cands[0].w, cands[0].h), (1, 0, 1, 1));
    assert_eq!(cands[0].data, vec![2]);
    // with one, unchanged pixels become the transparent index
    let cands = get_rect_candidates(&prev, &vec![3, 2, 1, 1], 2, 2, 0, 1, true, 7);
    assert_eq!(cands.len(), 2);
    assert_eq!((cands[1].x, cands[1].y, cands[1].w, cands[1].h), (0, 0, 2, 1));
    assert_eq!(cands[1].data, vec![3, 2]);
    // a change to the transparent index forbids OVER
    let cands = get_rect_candidates(&prev, &vec![7, 1, 1, 1], 2, 2, 0, 1, true, 7);
    assert_eq!(cands.len(), 1);
}

#[test]
fn optimize_rect_picks_shortest_filter() {
    let data: Vec<u8> = (0..64u32).map(|i| (i * 5 % 17) as u8).collect();
    let rect = RectResult { x: 0, y: 0, w: 4, h: 4, blend_op: 0, dispose_op: 0, data: data.clone() };
    let best = optimize_rect(&rect, 0, 15, 4);
    let mut shortest: Option<Vec<u8>> = None;
    for ft in 0..5u8 {
        let c = compress_data(&apply_filter(&data, 4, 4, 4, ft), 0, 15);
        assert!(best.len() <= c.len());
        if shortest.as_ref().map_or(true, |s| c.len() < s.len()) {
            shortest = Some(c);
        }
    }
    assert_eq!(Some(best), shortest);
}

fn as_frame(c: &RectResult) -> apngopt::decoder::Frame {
    apngopt::decoder::Frame {
        width: c.w,
        height: c.h,
        x_offset: c.x,
        y_offset: c.y,
        delay_num: 0,
        delay_den: 0,
        dispose_op: c.dispose_op,
        blend_op: c.blend_op,
        data: c.data.clone(),
    }
}

#[test]
fn drawing_a_candidate_reproduces_the_frame() {
    let prev = rgba(&[[0, 0, 0, 255], [1, 1, 1, 0], [2, 2, 2, 255], [3, 3, 3, 255]]);
    let curr = rgba(&[[0, 0, 0, 255], [9, 9, 9, 0], [5, 5, 5, 255], [3, 3, 3, 255]]);
    let cands = get_rect_candidates(&prev, &curr, 2, 2, 0, 4, false, 0);
    // a changed pixel is not opaque: SOURCE only
    assert_eq!(cands.len(), 1);
    let mut canvas = prev.clone();
    apngopt::reconstruct::blend(&mut canvas, &as_frame(&cands[0]), 2, 4);
    assert_eq!(canvas, curr);
}

#[test]
fn drawing_either_candidate_reproduces_every_byte() {
    let prev = rgba(&[[0, 0, 0, 255], [1, 1, 1, 0], [2, 2, 2, 255], [3, 3, 3, 128]]);
    let curr = rgba(&[[7, 0, 0, 255], [1, 1, 1, 0], [5, 5, 5, 255], [3, 3, 3, 128]]);
    let cands = get_rect_candidates(&prev, &curr, 2, 2, 0, 4, false, 0);
    assert_eq!(cands.len(), 2);
    for c in &cands {
        let mut canvas = prev.clone();
        apngopt::reconstruct::blend(&mut canvas, &as_frame(c), 2, 4);
        assert_eq!(canvas, curr);
    }
}
