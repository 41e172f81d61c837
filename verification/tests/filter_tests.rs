use apngopt::filter::{apply_filter, filter_average, filter_none, filter_paeth, filter_sub, filter_up};

#[test]
fn test_filter_none() {
    let row = vec![10, 20, 30, 40];
    let result = filter_none(&row, 4);
    assert_eq!(result, vec![0, 10, 20, 30, 40]);
}

#[test]
fn test_filter_sub() {
    let row = vec![10, 20, 30, 40];
    let result = filter_sub(&row, 4, 2); // bpp = 2
    // left: 0, 0, 10, 20
    assert_eq!(result, vec![1, 10, 20, 20, 20]);
}

#[test]
fn test_filter_up() {
    let row = vec![10, 20, 30, 40];
    let prev_row = vec![5, 10, 15, 20];
    let result = filter_up(&row, Some(&prev_row), 4);
    assert_eq!(result, vec![2, 5, 10, 15, 20]);
}

#[test]
fn test_apply_filter() {
    let data = vec![
        10, 20, 30, 40,
        50, 60, 70, 80,
    ];
    // Filter 0 (None), width=2, height=2, bpp=2
    let filtered = apply_filter(&data, 2, 2, 2, 0);
    assert_eq!(filtered, vec![
        0, 10, 20, 30, 40,
        0, 50, 60, 70, 80
    ]);
}

#[test]
fn filter_up_without_previous_row_keeps_bytes() {
    let row = vec![7, 8, 9];
    assert_eq!(filter_up(&row, None, 3), vec![2, 7, 8, 9]);
}

#[test]
fn filter_sub_wraps_below_zero() {
    let row = vec![200, 10];
    // 10 - 200 wraps to 66
    assert_eq!(filter_sub(&row, 2, 1), vec![1, 200, 66]);
}

#[test]
fn filter_average_uses_floor_of_mean() {
    let row = vec![10, 20, 30, 40];
    let prev = vec![5, 10, 15, 20];
    // i0: left 0, up 5 -> 2; i1: left 0, up 10 -> 5; i2: left 10, up 15 -> 12; i3: left 20, up 20 -> 20
    assert_eq!(filter_average(&row, Some(&prev), 4, 2), vec![3, 8, 15, 18, 20]);
}

#[test]
fn filter_paeth_picks_closest_predictor() {
    let row = vec![10, 20, 30, 40];
    let prev = vec![5, 10, 15, 20];
    // i0: a0 b5 c0 -> p5, pa5 pb0 pc5 -> b=5 -> 5
    // i1: a0 b10 c0 -> b=10 -> 10
    // i2: a10 b15 c5 -> p20, pa10 pb5 pc15 -> b=15 -> 15
    // i3: a20 b20 c10 -> p30, pa10 pb10 pc20 -> a=20 -> 20
    assert_eq!(filter_paeth(&row, Some(&prev), 4, 2), vec![4, 5, 10, 15, 20]);
}

#[test]
fn filter_paeth_first_row_is_sub() {
    let row = vec![10, 20, 30, 40];
    assert_eq!(filter_paeth(&row, None, 4, 2), vec![4, 10, 20, 20, 20]);
}

#[test]
fn apply_filter_unknown_type_is_none() {
    let data = vec![1, 2, 3, 4];
    assert_eq!(apply_filter(&data, 2, 2, 1, 9), vec![0, 1, 2, 0, 3, 4]);
}

#[test]
fn apply_filter_up_uses_previous_row() {
    let data = vec![1, 2, 5, 9];
    assert_eq!(apply_filter(&data, 2, 2, 1, 2), vec![2, 1, 2, 2, 4, 7]);
}

#[test]
fn apply_filter_length_is_rows_times_row_plus_one() {
    let data: Vec<u8> = (0..24).collect();
    for ft in 0..5u8 {
        let out = apply_filter(&data, 3, 2, 4, ft);
        assert_eq!(out.len(), 2 * (3 * 4 + 1));
        assert_eq!(out[0], ft);
        assert_eq!(out[13], ft);
    }
}

fn unfilter(filtered: &[u8], prev: Option<&[u8]>, bpp: usize) -> Vec<u8> {
    let ft = filtered[0];
    let n = filtered.len() - 1;
    let mut out: Vec<u8> = Vec::with_capacity(n);
    for i in 0..n {
        let a = if i >= bpp { out[i - bpp] as i32 } else { 0 };
        let b = prev.map_or(0, |p| p[i] as i32);
        let c = if i >= bpp { prev.map_or(0, |p| p[i - bpp] as i32) } else { 0 };
        let pred = match ft {
            1 => a,
            2 => b,
            3 => (a + b) / 2,
            4 => {
                let p = a + b - c;
                let (pa, pb, pc) = ((p - a).abs(), (p - b).abs(), (p - c).abs());
                if pa <= pb && pa <= pc { a } else if pb <= pc { b } else { c }
            }
            _ => 0,
        };
        out.push(filtered[i + 1].wrapping_add(pred as u8));
    }
    out
}

#[test]
fn every_filter_can_be_undone() {
    let prev: Vec<u8> = vec![3, 250, 17, 99, 0, 255, 128, 64];
    let row: Vec<u8> = vec![200, 1, 77, 31, 255, 0, 129, 63];
    for bpp in [1usize, 2, 4] {
        let sub = filter_sub(&row, 8, bpp);
        assert_eq!(unfilter(&sub, None, bpp), row);
        assert_eq!(unfilter(&filter_up(&row, Some(&prev), 8), Some(&prev), bpp), row);
        assert_eq!(unfilter(&filter_average(&row, Some(&prev), 8, bpp), Some(&prev), bpp), row);
        assert_eq!(unfilter(&filter_paeth(&row, Some(&prev), 8, bpp), Some(&prev), bpp), row);
        assert_eq!(unfilter(&filter_none(&row, 8), Some(&prev), bpp), row);
    }
}
