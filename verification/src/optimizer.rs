//! Search for the smallest rectangle that tells one frame from the previous
//! one, and choice of the best filter for a rectangle.

use vstd::prelude::*;
use crate::bytes::append_bytes;
use crate::compress::{compress_data, compressed};
use crate::filter::{apply_filter, filtered_image};
use crate::decoder::StoredFrame;
use crate::reconstruct::{blend_rows, blended, frame_inside, frame_pixel, lemma_blended_pixels, lemma_canvas_eq_by_pixels, pixel_at};

verus! {

/// A candidate sub-frame: a rectangle of the canvas, its compositing
/// operations and its pixel data.
#[derive(Clone)]
pub struct RectResult {
    pub x: u32,
    pub y: u32,
    pub w: u32,
    pub h: u32,
    pub blend_op: u8,
    pub dispose_op: u8,
    pub data: Vec<u8>,
}

/// A frame ready to be written: its rectangle, operations, delay and
/// compressed, filtered pixel data.
pub struct OptimizedFrame {
    pub x: u32,
    pub y: u32,
    pub w: u32,
    pub h: u32,
    pub blend_op: u8,
    pub dispose_op: u8,
    pub delay_num: u16,
    pub delay_den: u16,
    pub compressed_data: Vec<u8>,
}

/// A candidate's rectangle, operations and data.
pub struct RectView {
    pub x: u32,
    pub y: u32,
    pub w: u32,
    pub h: u32,
    pub blend_op: u8,
    pub dispose_op: u8,
    pub data: Seq<u8>,
}

impl View for RectResult {
    type V = RectView;

    open spec fn view(&self) -> RectView {
        RectView {
            x: self.x,
            y: self.y,
            w: self.w,
            h: self.h,
            blend_op: self.blend_op,
            dispose_op: self.dispose_op,
            data: self.data@,
        }
    }
}

/// A frame's rectangle, operations, delay and compressed data.
pub struct FrameView {
    pub x: u32,
    pub y: u32,
    pub w: u32,
    pub h: u32,
    pub blend_op: u8,
    pub dispose_op: u8,
    pub delay_num: u16,
    pub delay_den: u16,
    pub data: Seq<u8>,
}

impl View for OptimizedFrame {
    type V = FrameView;

    open spec fn view(&self) -> FrameView {
        FrameView {
            x: self.x,
            y: self.y,
            w: self.w,
            h: self.h,
            blend_op: self.blend_op,
            dispose_op: self.dispose_op,
            delay_num: self.delay_num,
            delay_den: self.delay_den,
            data: self.compressed_data@,
        }
    }
}

/// Byte offset of pixel `(x, y)` on a canvas `w` pixels wide.
pub open spec fn px_index(w: int, bpp: int, x: int, y: int) -> int {
    (y * w + x) * bpp
}

/// Pixel `(x, y)` counts as changed between the two canvases: in RGBA
/// (`bpp` 4) when any of its four bytes differ, so that every RGBA value is
/// kept; in palette mode (`bpp` 1) when its index differs. Other pixel sizes
/// are never compared.
pub open spec fn pixel_changed(prev: Seq<u8>, curr: Seq<u8>, w: int, bpp: int, x: int, y: int) -> bool {
    let idx = px_index(w, bpp, x, y);
    if bpp == 4 {
        prev.subrange(idx, idx + 4) != curr.subrange(idx, idx + 4)
    } else if bpp == 1 {
        prev[idx] != curr[idx]
    } else {
        false
    }
}

/// A changed pixel can be drawn with the OVER operation: in RGBA it must be
/// opaque; in palette mode it must not be the transparent index.
pub open spec fn over_ok(curr: Seq<u8>, w: int, bpp: int, has_tcolor: bool, tcolor: u8, x: int, y: int) -> bool {
    let idx = px_index(w, bpp, x, y);
    if bpp == 4 {
        curr[idx + 3] == 255
    } else if bpp == 1 {
        !(has_tcolor && curr[idx] == tcolor)
    } else {
        true
    }
}

/// Some pixel changed.
pub open spec fn any_changed(prev: Seq<u8>, curr: Seq<u8>, w: int, h: int, bpp: int) -> bool {
    exists|x: int, y: int| 0 <= x < w && 0 <= y < h && #[trigger] pixel_changed(prev, curr, w, bpp, x, y)
}

/// `[x0, x1] x [y0, y1]` is the smallest rectangle that holds every changed pixel.
pub open spec fn is_bounding_box(prev: Seq<u8>, curr: Seq<u8>, w: int, h: int, bpp: int, x0: int, y0: int, x1: int, y1: int) -> bool {
    &&& forall|x: int, y: int| 0 <= x < w && 0 <= y < h && #[trigger] pixel_changed(prev, curr, w, bpp, x, y)
        ==> x0 <= x <= x1 && y0 <= y <= y1
    &&& exists|x: int, y: int| 0 <= x < w && 0 <= y < h && #[trigger] pixel_changed(prev, curr, w, bpp, x, y) && x == x0
    &&& exists|x: int, y: int| 0 <= x < w && 0 <= y < h && #[trigger] pixel_changed(prev, curr, w, bpp, x, y) && x == x1
    &&& exists|x: int, y: int| 0 <= x < w && 0 <= y < h && #[trigger] pixel_changed(prev, curr, w, bpp, x, y) && y == y0
    &&& exists|x: int, y: int| 0 <= x < w && 0 <= y < h && #[trigger] pixel_changed(prev, curr, w, bpp, x, y) && y == y1
}

/// The OVER operation can stand for the change: palette mode needs a
/// transparent index, and every changed pixel must be drawable with OVER.
pub open spec fn over_possible(prev: Seq<u8>, curr: Seq<u8>, w: int, h: int, bpp: int, has_tcolor: bool, tcolor: u8) -> bool {
    &&& !(bpp == 1 && !has_tcolor)
    &&& forall|x: int, y: int| 0 <= x < w && 0 <= y < h && #[trigger] pixel_changed(prev, curr, w, bpp, x, y)
        ==> over_ok(curr, w, bpp, has_tcolor, tcolor, x, y)
}

/// The pixels of the first `n` rows of the rectangle at `(rx, ry)` of `rw`
/// pixels' width, copied from `canvas`, row after row.
pub open spec fn rect_rows(canvas: Seq<u8>, w: int, bpp: int, rx: int, ry: int, rw: int, n: nat) -> Seq<u8>
    decreases n,
{
    if n == 0 {
        seq![]
    } else {
        let start = px_index(w, bpp, rx, ry + n - 1);
        rect_rows(canvas, w, bpp, rx, ry, rw, (n - 1) as nat) + canvas.subrange(start, start + rw * bpp)
    }
}

/// The OVER form of pixel `(x, y)`: the current pixel where it changed,
/// otherwise a pixel that leaves the canvas as it is (transparent black in
/// RGBA, the transparent index in palette mode).
pub open spec fn over_pixel(prev: Seq<u8>, curr: Seq<u8>, w: int, bpp: int, tcolor: u8, x: int, y: int) -> Seq<u8> {
    let idx = px_index(w, bpp, x, y);
    if bpp == 4 {
        if pixel_changed(prev, curr, w, bpp, x, y) { curr.subrange(idx, idx + 4) } else { seq![0u8, 0u8, 0u8, 0u8] }
    } else if bpp == 1 {
        if pixel_changed(prev, curr, w, bpp, x, y) { seq![curr[idx]] } else { seq![tcolor] }
    } else {
        seq![]
    }
}

/// The OVER forms of the first `n` pixels of row `y` from column `rx` on.
pub open spec fn over_row(prev: Seq<u8>, curr: Seq<u8>, w: int, bpp: int, tcolor: u8, rx: int, y: int, n: nat) -> Seq<u8>
    decreases n,
{
    if n == 0 {
        seq![]
    } else {
        over_row(prev, curr, w, bpp, tcolor, rx, y, (n - 1) as nat) + over_pixel(prev, curr, w, bpp, tcolor, rx + n - 1, y)
    }
}

/// The OVER forms of the first `n` rows of the rectangle.
pub open spec fn over_rows(prev: Seq<u8>, curr: Seq<u8>, w: int, bpp: int, tcolor: u8, rx: int, ry: int, rw: int, n: nat) -> Seq<u8>
    decreases n,
{
    if n == 0 {
        seq![]
    } else {
        over_rows(prev, curr, w, bpp, tcolor, rx, ry, rw, (n - 1) as nat)
            + over_row(prev, curr, w, bpp, tcolor, rx, ry + n - 1, rw as nat)
    }
}

/// Pixel `(xx, yy)` comes before pixel `(x, y)` in row-major order.
pub open spec fn scanned_before(xx: int, yy: int, x: int, y: int) -> bool {
    yy < y || (yy == y && xx < x)
}

/// The canvases hold every pixel that `get_rect_candidates` reads.
pub open spec fn canvases_fit(prev: Seq<u8>, curr: Seq<u8>, w: int, h: int, bpp: int) -> bool {
    &&& h * w <= usize::MAX
    &&& h * w * bpp <= usize::MAX
    &&& (bpp == 4 || bpp == 1) ==> h * w * bpp <= prev.len() && h * w * bpp <= curr.len()
}

proof fn lemma_px_bounds(w: int, h: int, bpp: int, x: int, y: int)
    requires
        0 <= x < w,
        0 <= y < h,
        0 <= bpp,
    ensures
        0 <= y * w + x < h * w,
        0 <= px_index(w, bpp, x, y),
        px_index(w, bpp, x, y) + bpp <= h * w * bpp,
        y * w <= y * w + x,
{
    assert(y * w + x < h * w) by (nonlinear_arith) requires 0 <= x < w, 0 <= y < h;
    assert(0 <= y * w) by (nonlinear_arith) requires 0 <= y, 0 <= w;
    assert((y * w + x) * bpp + bpp <= h * w * bpp) by (nonlinear_arith)
        requires y * w + x + 1 <= h * w, 0 <= bpp;
    assert(0 <= (y * w + x) * bpp) by (nonlinear_arith) requires 0 <= y * w + x, 0 <= bpp;
}


fn changed_at(prev: &[u8], curr: &[u8], w: usize, h: usize, bpp: usize, x: usize, y: usize, idx: usize) -> (r: bool)
    requires
        canvases_fit(prev@, curr@, w as int, h as int, bpp as int),
        x < w,
        y < h,
        idx == px_index(w as int, bpp as int, x as int, y as int),
    ensures
        r == pixel_changed(prev@, curr@, w as int, bpp as int, x as int, y as int),
{
    proof { lemma_px_bounds(w as int, h as int, bpp as int, x as int, y as int); }
    if bpp == 4 {
        let same = prev[idx] == curr[idx] && prev[idx + 1] == curr[idx + 1]
            && prev[idx + 2] == curr[idx + 2] && prev[idx + 3] == curr[idx + 3];
        proof {
            let p = prev@.subrange(idx as int, idx + 4);
            let c = curr@.subrange(idx as int, idx + 4);
            if same {
                assert(p =~= c);
            } else {
                if p == c {
                    assert(p[0] == c[0] && p[1] == c[1] && p[2] == c[2] && p[3] == c[3]);
                }
            }
        }
        !same
    } else if bpp == 1 {
        prev[idx] != curr[idx]
    } else {
        false
    }
}

fn over_ok_at(curr: &[u8], w: usize, h: usize, bpp: usize, has_tcolor: bool, tcolor: u8, x: usize, y: usize, idx: usize) -> (r: bool)
    requires
        canvases_fit(curr@, curr@, w as int, h as int, bpp as int),
        x < w,
        y < h,
        idx == px_index(w as int, bpp as int, x as int, y as int),
    ensures
        r == over_ok(curr@, w as int, bpp as int, has_tcolor, tcolor, x as int, y as int),
{
    proof { lemma_px_bounds(w as int, h as int, bpp as int, x as int, y as int); }
    if bpp == 4 {
        curr[idx + 3] == 255
    } else if bpp == 1 {
        !(has_tcolor && curr[idx] == tcolor)
    } else {
        true
    }
}

/// Result of a scan of the two canvases: whether a changed pixel was found,
/// the bounding box of the changed pixels, and whether OVER can stand for the change.
struct ChangeScan {
    found: bool,
    x_min: usize,
    y_min: usize,
    x_max: usize,
    y_max: usize,
    over: bool,
}

fn scan_changes(prev: &[u8], curr: &[u8], w: usize, h: usize, bpp: usize, has_tcolor: bool, tcolor: u8) -> (r: ChangeScan)
    requires
        canvases_fit(prev@, curr@, w as int, h as int, bpp as int),
    ensures
        r.found == any_changed(prev@, curr@, w as int, h as int, bpp as int),
        r.found ==> is_bounding_box(prev@, curr@, w as int, h as int, bpp as int,
            r.x_min as int, r.y_min as int, r.x_max as int, r.y_max as int),
        r.found ==> r.x_min <= r.x_max < w && r.y_min <= r.y_max < h,
        r.over == over_possible(prev@, curr@, w as int, h as int, bpp as int, has_tcolor, tcolor),
{
    let ghost ps = prev@;
    let ghost cs = curr@;
    let ghost wi = w as int;
    let ghost hi = h as int;
    let ghost bi = bpp as int;
    let mut x_min: usize = w;
    let mut y_min: usize = h;
    let mut x_max: usize = 0;
    let mut y_max: usize = 0;
    let mut found = false;
    let mut over = if bpp == 1 && !has_tcolor { false } else { true };

    let mut y: usize = 0;
    while y < h
        invariant
            y <= h,
            ps == prev@, cs == curr@, wi == w, hi == h, bi == bpp,
            canvases_fit(ps, cs, wi, hi, bi),
            found <==> exists|xx: int, yy: int| 0 <= xx < wi && 0 <= yy < y
                && #[trigger] pixel_changed(ps, cs, wi, bi, xx, yy),
            forall|xx: int, yy: int| 0 <= xx < wi && 0 <= yy < y && #[trigger] pixel_changed(ps, cs, wi, bi, xx, yy)
                ==> x_min <= xx <= x_max && y_min <= yy <= y_max,
            found ==> exists|xx: int, yy: int| 0 <= xx < wi && 0 <= yy < y && #[trigger] pixel_changed(ps, cs, wi, bi, xx, yy) && xx == x_min,
            found ==> exists|xx: int, yy: int| 0 <= xx < wi && 0 <= yy < y && #[trigger] pixel_changed(ps, cs, wi, bi, xx, yy) && xx == x_max,
            found ==> exists|xx: int, yy: int| 0 <= xx < wi && 0 <= yy < y && #[trigger] pixel_changed(ps, cs, wi, bi, xx, yy) && yy == y_min,
            found ==> exists|xx: int, yy: int| 0 <= xx < wi && 0 <= yy < y && #[trigger] pixel_changed(ps, cs, wi, bi, xx, yy) && yy == y_max,
            found ==> x_min <= x_max < w && y_min <= y_max < h,
            over == (!(bi == 1 && !has_tcolor) && forall|xx: int, yy: int| 0 <= xx < wi && 0 <= yy < y
                && #[trigger] pixel_changed(ps, cs, wi, bi, xx, yy) ==> over_ok(cs, wi, bi, has_tcolor, tcolor, xx, yy)),
        decreases h - y,
    {
        let mut x: usize = 0;
        while x < w
            invariant
                y < h,
                x <= w,
                ps == prev@, cs == curr@, wi == w, hi == h, bi == bpp,
                canvases_fit(ps, cs, wi, hi, bi),
                found <==> exists|xx: int, yy: int| 0 <= xx < wi && 0 <= yy < hi && scanned_before(xx, yy, x as int, y as int)
                    && #[trigger] pixel_changed(ps, cs, wi, bi, xx, yy),
                forall|xx: int, yy: int| 0 <= xx < wi && 0 <= yy < hi && scanned_before(xx, yy, x as int, y as int)
                    && #[trigger] pixel_changed(ps, cs, wi, bi, xx, yy)
                    ==> x_min <= xx <= x_max && y_min <= yy <= y_max,
                found ==> exists|xx: int, yy: int| 0 <= xx < wi && 0 <= yy < hi && scanned_before(xx, yy, x as int, y as int) && #[trigger] pixel_changed(ps, cs, wi, bi, xx, yy) && xx == x_min,
                found ==> exists|xx: int, yy: int| 0 <= xx < wi && 0 <= yy < hi && scanned_before(xx, yy, x as int, y as int) && #[trigger] pixel_changed(ps, cs, wi, bi, xx, yy) && xx == x_max,
                found ==> exists|xx: int, yy: int| 0 <= xx < wi && 0 <= yy < hi && scanned_before(xx, yy, x as int, y as int) && #[trigger] pixel_changed(ps, cs, wi, bi, xx, yy) && yy == y_min,
                found ==> exists|xx: int, yy: int| 0 <= xx < wi && 0 <= yy < hi && scanned_before(xx, yy, x as int, y as int) && #[trigger] pixel_changed(ps, cs, wi, bi, xx, yy) && yy == y_max,
                found ==> x_min <= x_max < w && y_min <= y_max < h,
                over == (!(bi == 1 && !has_tcolor) && forall|xx: int, yy: int| 0 <= xx < wi && 0 <= yy < hi && scanned_before(xx, yy, x as int, y as int)
                    && #[trigger] pixel_changed(ps, cs, wi, bi, xx, yy) ==> over_ok(cs, wi, bi, has_tcolor, tcolor, xx, yy)),
            decreases w - x,
        {
            proof { lemma_px_bounds(wi, hi, bi, x as int, y as int); }
            let idx = (y * w + x) * bpp;
            let ch = changed_at(prev, curr, w, h, bpp, x, y, idx);
            if ch {
                let ok = over_ok_at(curr, w, h, bpp, has_tcolor, tcolor, x, y, idx);
                if !ok {
                    over = false;
                }
                if !found {
                    x_min = x;
                    x_max = x;
                    y_min = y;
                    y_max = y;
                } else {
                    if x < x_min {
                        x_min = x;
                    }
                    if x > x_max {
                        x_max = x;
                    }
                    if y < y_min {
                        y_min = y;
                    }
                    if y > y_max {
                        y_max = y;
                    }
                }
                found = true;
            }
            x = x + 1;
        }
        y = y + 1;
    }
    ChangeScan { found, x_min, y_min, x_max, y_max, over }
}


proof fn lemma_row_span(w: int, h: int, bpp: int, rx: int, rw: int, y: int)
    requires
        0 <= rx,
        0 <= rw,
        rx + rw <= w,
        0 <= y < h,
        0 <= bpp,
    ensures
        0 <= px_index(w, bpp, rx, y),
        px_index(w, bpp, rx, y) + rw * bpp <= h * w * bpp,
        0 <= rw * bpp,
        y * w + rx + rw <= h * w,
{
    assert(0 <= y * w) by (nonlinear_arith) requires 0 <= y, 0 <= w;
    assert((y * w + rx) * bpp + rw * bpp == (y * w + rx + rw) * bpp) by (nonlinear_arith);
    assert(y * w + rx + rw <= (y + 1) * w) by (nonlinear_arith) requires rx + rw <= w;
    assert((y + 1) * w <= h * w) by (nonlinear_arith) requires y + 1 <= h, 0 <= w;
    assert((y * w + rx + rw) * bpp <= h * w * bpp) by (nonlinear_arith)
        requires y * w + rx + rw <= h * w, 0 <= bpp;
    assert(0 <= (y * w + rx) * bpp) by (nonlinear_arith) requires 0 <= y * w + rx, 0 <= bpp;
    assert(0 <= rw * bpp) by (nonlinear_arith) requires 0 <= rw, 0 <= bpp;
}

/// Copies the rectangle at `(rx, ry)` of `rw` by `rh` pixels out of `curr`, row after row.
fn extract_rect(curr: &[u8], w: usize, h: usize, bpp: usize, rx: usize, ry: usize, rw: usize, rh: usize) -> (out: Vec<u8>)
    requires
        h * w <= usize::MAX,
        h * w * bpp <= curr@.len(),
        h * w * bpp <= usize::MAX,
        rx + rw <= w,
        ry + rh <= h,
    ensures
        out@ == rect_rows(curr@, w as int, bpp as int, rx as int, ry as int, rw as int, rh as nat),
{
    let mut out: Vec<u8> = Vec::new();
    let mut n: usize = 0;
    while n < rh
        invariant
            n <= rh,
            h * w <= usize::MAX,
            h * w * bpp <= curr@.len(),
            h * w * bpp <= usize::MAX,
            rx + rw <= w,
            ry + rh <= h,
            out@ == rect_rows(curr@, w as int, bpp as int, rx as int, ry as int, rw as int, n as nat),
        decreases rh - n,
    {
        let y = ry + n;
        proof { lemma_row_span(w as int, h as int, bpp as int, rx as int, rw as int, y as int); }
        let row_start = (y * w + rx) * bpp;
        let row_end = row_start + rw * bpp;
        append_bytes(&mut out, &curr[row_start..row_end]);
        n = n + 1;
    }
    out
}

fn push_over_pixel(out: &mut Vec<u8>, prev: &[u8], curr: &[u8], w: usize, h: usize, bpp: usize, tcolor: u8, x: usize, y: usize, idx: usize)
    requires
        canvases_fit(prev@, curr@, w as int, h as int, bpp as int),
        x < w,
        y < h,
        idx == px_index(w as int, bpp as int, x as int, y as int),
    ensures
        final(out)@ == old(out)@ + over_pixel(prev@, curr@, w as int, bpp as int, tcolor, x as int, y as int),
{
    proof { lemma_px_bounds(w as int, h as int, bpp as int, x as int, y as int); }
    let ch = changed_at(prev, curr, w, h, bpp, x, y, idx);
    if bpp == 4 {
        if ch {
            out.push(curr[idx]);
            out.push(curr[idx + 1]);
            out.push(curr[idx + 2]);
            out.push(curr[idx + 3]);
        } else {
            out.push(0);
            out.push(0);
            out.push(0);
            out.push(0);
        }
    } else if bpp == 1 {
        if ch {
            out.push(curr[idx]);
        } else {
            out.push(tcolor);
        }
    }
    assert(out@ =~= old(out)@ + over_pixel(prev@, curr@, w as int, bpp as int, tcolor, x as int, y as int));
}

/// The OVER data of the rectangle: changed pixels as they are in `curr`, the
/// others replaced by a pixel that leaves the canvas unchanged.
fn over_rect(prev: &[u8], curr: &[u8], w: usize, h: usize, bpp: usize, tcolor: u8, rx: usize, ry: usize, rw: usize, rh: usize) -> (out: Vec<u8>)
    requires
        canvases_fit(prev@, curr@, w as int, h as int, bpp as int),
        rx + rw <= w,
        ry + rh <= h,
    ensures
        out@ == over_rows(prev@, curr@, w as int, bpp as int, tcolor, rx as int, ry as int, rw as int, rh as nat),
{
    let ghost ps = prev@;
    let ghost cs = curr@;
    let mut out: Vec<u8> = Vec::new();
    let mut n: usize = 0;
    while n < rh
        invariant
            n <= rh,
            ps == prev@, cs == curr@,
            canvases_fit(ps, cs, w as int, h as int, bpp as int),
            rx + rw <= w,
            ry + rh <= h,
            out@ == over_rows(ps, cs, w as int, bpp as int, tcolor, rx as int, ry as int, rw as int, n as nat),
        decreases rh - n,
    {
        let y = ry + n;
        let ghost row_base = out@;
        let mut m: usize = 0;
        while m < rw
            invariant
                m <= rw,
                n < rh,
                y == ry + n,
                ps == prev@, cs == curr@,
                canvases_fit(ps, cs, w as int, h as int, bpp as int),
                rx + rw <= w,
                ry + rh <= h,
                row_base == over_rows(ps, cs, w as int, bpp as int, tcolor, rx as int, ry as int, rw as int, n as nat),
                out@ == row_base + over_row(ps, cs, w as int, bpp as int, tcolor, rx as int, y as int, m as nat),
            decreases rw - m,
        {
            let x = rx + m;
            proof { lemma_px_bounds(w as int, h as int, bpp as int, x as int, y as int); }
            let idx = (y * w + x) * bpp;
            push_over_pixel(&mut out, prev, curr, w, h, bpp, tcolor, x, y, idx);
            m = m + 1;
            assert(out@ =~= row_base + over_row(ps, cs, w as int, bpp as int, tcolor, rx as int, y as int, m as nat));
        }
        n = n + 1;
        assert(out@ =~= over_rows(ps, cs, w as int, bpp as int, tcolor, rx as int, ry as int, rw as int, n as nat));
    }
    out
}

/// The bounding box of the changed pixels, as `(x0, y0, x1, y1)`.
pub open spec fn bounding_box(prev: Seq<u8>, curr: Seq<u8>, w: int, h: int, bpp: int) -> (int, int, int, int) {
    choose|x0: int, y0: int, x1: int, y1: int| is_bounding_box(prev, curr, w, h, bpp, x0, y0, x1, y1)
}

/// Some pixel among the first `n` of row `y` changed.
pub open spec fn row_changed(prev: Seq<u8>, curr: Seq<u8>, w: int, bpp: int, y: int, n: int) -> bool {
    exists|x: int| 0 <= x < n && #[trigger] pixel_changed(prev, curr, w, bpp, x, y)
}

/// `[a, b]` spans exactly the changed pixels among the first `n` of row `y`.
pub open spec fn is_row_span(prev: Seq<u8>, curr: Seq<u8>, w: int, bpp: int, y: int, n: int, a: int, b: int) -> bool {
    &&& 0 <= a <= b < n
    &&& forall|x: int| 0 <= x < n && #[trigger] pixel_changed(prev, curr, w, bpp, x, y) ==> a <= x <= b
    &&& pixel_changed(prev, curr, w, bpp, a, y)
    &&& pixel_changed(prev, curr, w, bpp, b, y)
}

proof fn lemma_row_span_exists(prev: Seq<u8>, curr: Seq<u8>, w: int, bpp: int, y: int, n: int) -> (r: (int, int))
    requires
        0 <= n,
        row_changed(prev, curr, w, bpp, y, n),
    ensures
        is_row_span(prev, curr, w, bpp, y, n, r.0, r.1),
    decreases n,
{
    if row_changed(prev, curr, w, bpp, y, n - 1) {
        let (a, b) = lemma_row_span_exists(prev, curr, w, bpp, y, n - 1);
        if pixel_changed(prev, curr, w, bpp, n - 1, y) {
            (a, n - 1)
        } else {
            (a, b)
        }
    } else {
        let x = choose|x: int| 0 <= x < n && #[trigger] pixel_changed(prev, curr, w, bpp, x, y);
        assert(x == n - 1);
        (n - 1, n - 1)
    }
}

/// Some pixel of the first `m` rows changed.
pub open spec fn rows_changed(prev: Seq<u8>, curr: Seq<u8>, w: int, bpp: int, m: int) -> bool {
    exists|x: int, y: int| 0 <= x < w && 0 <= y < m && #[trigger] pixel_changed(prev, curr, w, bpp, x, y)
}

proof fn lemma_box_exists_rows(prev: Seq<u8>, curr: Seq<u8>, w: int, bpp: int, m: int) -> (r: (int, int, int, int))
    requires
        0 <= m,
        rows_changed(prev, curr, w, bpp, m),
    ensures
        is_bounding_box(prev, curr, w, m, bpp, r.0, r.1, r.2, r.3),
    decreases m,
{
    let y = m - 1;
    if row_changed(prev, curr, w, bpp, y, w) {
        let (a, b) = lemma_row_span_exists(prev, curr, w, bpp, y, w);
        if rows_changed(prev, curr, w, bpp, m - 1) {
            let (x0, y0, x1, y1) = lemma_box_exists_rows(prev, curr, w, bpp, m - 1);
            let nx0 = if a < x0 { a } else { x0 };
            let nx1 = if b > x1 { b } else { x1 };
            assert(pixel_changed(prev, curr, w, bpp, a, y));
            assert(pixel_changed(prev, curr, w, bpp, b, y));
            (nx0, y0, nx1, y)
        } else {
            assert(pixel_changed(prev, curr, w, bpp, a, y));
            assert(pixel_changed(prev, curr, w, bpp, b, y));
            (a, y, b, y)
        }
    } else {
        assert(rows_changed(prev, curr, w, bpp, m - 1)) by {
            let (x, yy) = choose|x: int, yy: int| 0 <= x < w && 0 <= yy < m && #[trigger] pixel_changed(prev, curr, w, bpp, x, yy);
            if yy == y {
                assert(row_changed(prev, curr, w, bpp, y, w));
            }
        }
        lemma_box_exists_rows(prev, curr, w, bpp, m - 1)
    }
}

/// When some pixel changed, the changed pixels have a bounding box.
pub proof fn lemma_bounding_box_exists(prev: Seq<u8>, curr: Seq<u8>, w: int, h: int, bpp: int)
    requires
        any_changed(prev, curr, w, h, bpp),
        0 <= h,
    ensures
        ({
            let (x0, y0, x1, y1) = bounding_box(prev, curr, w, h, bpp);
            is_bounding_box(prev, curr, w, h, bpp, x0, y0, x1, y1)
        }),
{
    let (x0, y0, x1, y1) = lemma_box_exists_rows(prev, curr, w, bpp, h);
    assert(is_bounding_box(prev, curr, w, h, bpp, x0, y0, x1, y1));
}

/// There is only one bounding box.
pub proof fn lemma_bounding_box_unique(prev: Seq<u8>, curr: Seq<u8>, w: int, h: int, bpp: int,
    a0: int, b0: int, a1: int, b1: int, c0: int, d0: int, c1: int, d1: int)
    requires
        is_bounding_box(prev, curr, w, h, bpp, a0, b0, a1, b1),
        is_bounding_box(prev, curr, w, h, bpp, c0, d0, c1, d1),
    ensures
        a0 == c0 && b0 == d0 && a1 == c1 && b1 == d1,
{
}

/// The candidates, as values: none when nothing changed; otherwise the
/// bounding box with SOURCE and the current pixels, then, where OVER is
/// possible, the same box with OVER and the OVER pixels.
pub open spec fn rect_candidates(prev: Seq<u8>, curr: Seq<u8>, w: int, h: int, dispose_op: u8, bpp: int, has_tcolor: bool, tcolor: u8) -> Seq<RectView> {
    if !any_changed(prev, curr, w, h, bpp) {
        seq![]
    } else {
        let (x0, y0, x1, y1) = bounding_box(prev, curr, w, h, bpp);
        let source = RectView {
            x: x0 as u32,
            y: y0 as u32,
            w: (x1 - x0 + 1) as u32,
            h: (y1 - y0 + 1) as u32,
            blend_op: 0,
            dispose_op,
            data: rect_rows(curr, w, bpp, x0, y0, x1 - x0 + 1, (y1 - y0 + 1) as nat),
        };
        if over_possible(prev, curr, w, h, bpp, has_tcolor, tcolor) {
            seq![source, RectView { blend_op: 1, data: over_rows(prev, curr, w, bpp, tcolor, x0, y0, x1 - x0 + 1, (y1 - y0 + 1) as nat), ..source }]
        } else {
            seq![source]
        }
    }
}

proof fn lemma_rect_rows_len(canvas: Seq<u8>, w: int, h: int, bpp: int, rx: int, ry: int, rw: int, n: nat)
    requires
        0 <= rx, 0 <= ry, 0 <= rw, 0 <= bpp,
        rx + rw <= w,
        ry + n <= h,
        h * w * bpp <= canvas.len(),
    ensures
        rect_rows(canvas, w, bpp, rx, ry, rw, n).len() == n * (rw * bpp),
    decreases n,
{
    if n > 0 {
        lemma_rect_rows_len(canvas, w, h, bpp, rx, ry, rw, (n - 1) as nat);
        lemma_row_span(w, h, bpp, rx, rw, ry + n - 1);
        assert((n - 1) * (rw * bpp) + rw * bpp == n * (rw * bpp)) by (nonlinear_arith);
    } else {
        assert(n * (rw * bpp) == 0) by (nonlinear_arith) requires n == 0;
    }
}

proof fn lemma_over_row_len(prev: Seq<u8>, curr: Seq<u8>, w: int, h: int, bpp: int, tcolor: u8, rx: int, y: int, n: nat)
    requires
        canvases_fit(prev, curr, w, h, bpp),
        bpp == 1 || bpp == 4,
        0 <= rx,
        rx + n <= w,
        0 <= y < h,
    ensures
        over_row(prev, curr, w, bpp, tcolor, rx, y, n).len() == n * bpp,
    decreases n,
{
    if n > 0 {
        lemma_over_row_len(prev, curr, w, h, bpp, tcolor, rx, y, (n - 1) as nat);
        lemma_px_bounds(w, h, bpp, rx + n - 1, y);
        assert((n - 1) * bpp + bpp == n * bpp) by (nonlinear_arith);
    } else {
        assert(n * bpp == 0) by (nonlinear_arith) requires n == 0;
    }
}

proof fn lemma_over_rows_len(prev: Seq<u8>, curr: Seq<u8>, w: int, h: int, bpp: int, tcolor: u8, rx: int, ry: int, rw: int, n: nat)
    requires
        canvases_fit(prev, curr, w, h, bpp),
        bpp == 1 || bpp == 4,
        0 <= rx, 0 <= ry, 0 <= rw,
        rx + rw <= w,
        ry + n <= h,
    ensures
        over_rows(prev, curr, w, bpp, tcolor, rx, ry, rw, n).len() == n * (rw * bpp),
    decreases n,
{
    if n > 0 {
        lemma_over_rows_len(prev, curr, w, h, bpp, tcolor, rx, ry, rw, (n - 1) as nat);
        lemma_over_row_len(prev, curr, w, h, bpp, tcolor, rx, ry + n - 1, rw as nat);
        assert((n - 1) * (rw * bpp) + rw * bpp == n * (rw * bpp)) by (nonlinear_arith);
    } else {
        assert(n * (rw * bpp) == 0) by (nonlinear_arith) requires n == 0;
    }
}

/// Every candidate's data holds exactly its rectangle's pixels, so it can be filtered.
pub proof fn lemma_candidates_fit(prev: Seq<u8>, curr: Seq<u8>, w: int, h: int, dispose_op: u8, bpp: int, has_tcolor: bool, tcolor: u8)
    requires
        canvases_fit(prev, curr, w, h, bpp),
        0 <= w <= u32::MAX, 0 <= h <= u32::MAX, 0 <= bpp,
        w * bpp <= usize::MAX,
    ensures
        forall|k: int| 0 <= k < rect_candidates(prev, curr, w, h, dispose_op, bpp, has_tcolor, tcolor).len() ==>
            rect_fits(#[trigger] rect_candidates(prev, curr, w, h, dispose_op, bpp, has_tcolor, tcolor)[k], bpp),
{
    if any_changed(prev, curr, w, h, bpp) {
        let (xx, yy) = choose|xx: int, yy: int| 0 <= xx < w && 0 <= yy < h
            && #[trigger] pixel_changed(prev, curr, w, bpp, xx, yy);
        assert(bpp == 4 || bpp == 1);
        lemma_bounding_box_exists(prev, curr, w, h, bpp);
        let (x0, y0, x1, y1) = bounding_box(prev, curr, w, h, bpp);
        assert(is_bounding_box(prev, curr, w, h, bpp, x0, y0, x1, y1));
        assert(x0 <= xx <= x1 && y0 <= yy <= y1);
        let ex = choose|x: int, y: int| 0 <= x < w && 0 <= y < h && #[trigger] pixel_changed(prev, curr, w, bpp, x, y) && x == x1;
        let ey = choose|x: int, y: int| 0 <= x < w && 0 <= y < h && #[trigger] pixel_changed(prev, curr, w, bpp, x, y) && y == y1;
        let fx = choose|x: int, y: int| 0 <= x < w && 0 <= y < h && #[trigger] pixel_changed(prev, curr, w, bpp, x, y) && x == x0;
        let fy = choose|x: int, y: int| 0 <= x < w && 0 <= y < h && #[trigger] pixel_changed(prev, curr, w, bpp, x, y) && y == y0;
        let rw = x1 - x0 + 1;
        let rh = y1 - y0 + 1;
        assert(0 <= x0 && x1 < w && 0 <= y0 && y1 < h);
        lemma_rect_rows_len(curr, w, h, bpp, x0, y0, rw, rh as nat);
        lemma_over_rows_len(prev, curr, w, h, bpp, tcolor, x0, y0, rw, rh as nat);
        assert(rw * bpp <= w * bpp) by (nonlinear_arith) requires rw <= w, 0 <= bpp;
        assert((rw as u32) as int == rw);
        assert((rh as u32) as int == rh);
        assert(rh * (rw * bpp) == rh * (rw * bpp));
    }
}

/// The candidates for drawing `curr_canvas` over `prev_canvas`: none when no
/// pixel changed; otherwise the bounding box of the changed pixels drawn with
/// SOURCE (blend op 0) and, where OVER is possible, the same box drawn with
/// OVER (blend op 1).
pub fn get_rect_candidates(
    prev_canvas: &[u8],
    curr_canvas: &[u8],
    width: u32,
    height: u32,
    dispose_op: u8,
    bpp: usize,
    has_tcolor: bool,
    tcolor: u8,
) -> (cands: Vec<RectResult>)
    requires
        canvases_fit(prev_canvas@, curr_canvas@, width as int, height as int, bpp as int),
    ensures
        cands@.len() == 0 <==> !any_changed(prev_canvas@, curr_canvas@, width as int, height as int, bpp as int),
        cands@.len() > 0 ==> {
            let c0 = cands@[0];
            &&& cands@.len() == (if over_possible(prev_canvas@, curr_canvas@, width as int, height as int, bpp as int, has_tcolor, tcolor) { 2int } else { 1int })
            &&& c0.w > 0 && c0.h > 0
            &&& is_bounding_box(prev_canvas@, curr_canvas@, width as int, height as int, bpp as int,
                c0.x as int, c0.y as int, c0.x + c0.w - 1, c0.y + c0.h - 1)
            &&& c0.blend_op == 0
            &&& c0.dispose_op == dispose_op
            &&& c0.data@ == rect_rows(curr_canvas@, width as int, bpp as int, c0.x as int, c0.y as int, c0.w as int, c0.h as nat)
            &&& cands@.len() == 2 ==> {
                let c1 = cands@[1];
                &&& c1.x == c0.x && c1.y == c0.y && c1.w == c0.w && c1.h == c0.h
                &&& c1.blend_op == 1
                &&& c1.dispose_op == dispose_op
                &&& c1.data@ == over_rows(prev_canvas@, curr_canvas@, width as int, bpp as int, tcolor,
                    c0.x as int, c0.y as int, c0.w as int, c0.h as nat)
            }
        },
        cands@.map_values(|c: RectResult| c@) == rect_candidates(prev_canvas@, curr_canvas@, width as int, height as int, dispose_op, bpp as int, has_tcolor, tcolor),
{
    let w = width as usize;
    let h = height as usize;
    let scan = scan_changes(prev_canvas, curr_canvas, w, h, bpp, has_tcolor, tcolor);
    if !scan.found {
        return Vec::new();
    }
    proof {
        let (xx, yy) = choose|xx: int, yy: int| 0 <= xx < w && 0 <= yy < h
            && #[trigger] pixel_changed(prev_canvas@, curr_canvas@, w as int, bpp as int, xx, yy);
        assert(bpp == 4 || bpp == 1);
    }
    let rect_x = scan.x_min as u32;
    let rect_y = scan.y_min as u32;
    let rect_w = (scan.x_max - scan.x_min + 1) as u32;
    let rect_h = (scan.y_max - scan.y_min + 1) as u32;

    let mut candidates: Vec<RectResult> = Vec::new();
    let source_data = extract_rect(curr_canvas, w, h, bpp, rect_x as usize, rect_y as usize, rect_w as usize, rect_h as usize);
    candidates.push(RectResult {
        x: rect_x,
        y: rect_y,
        w: rect_w,
        h: rect_h,
        blend_op: 0,
        dispose_op,
        data: source_data,
    });
    if scan.over {
        let over_data = over_rect(prev_canvas, curr_canvas, w, h, bpp, tcolor, rect_x as usize, rect_y as usize, rect_w as usize, rect_h as usize);
        candidates.push(RectResult {
            x: rect_x,
            y: rect_y,
            w: rect_w,
            h: rect_h,
            blend_op: 1,
            dispose_op,
            data: over_data,
        });
    }
    proof {
        let (x0, y0, x1, y1) = bounding_box(prev_canvas@, curr_canvas@, w as int, h as int, bpp as int);
        assert(is_bounding_box(prev_canvas@, curr_canvas@, w as int, h as int, bpp as int,
            scan.x_min as int, scan.y_min as int, scan.x_max as int, scan.y_max as int));
        lemma_bounding_box_unique(prev_canvas@, curr_canvas@, w as int, h as int, bpp as int,
            x0, y0, x1, y1, scan.x_min as int, scan.y_min as int, scan.x_max as int, scan.y_max as int);
        assert(candidates@.map_values(|c: RectResult| c@) =~= rect_candidates(prev_canvas@, curr_canvas@, width as int, height as int, dispose_op, bpp as int, has_tcolor, tcolor));
    }
    candidates
}


/// The compressed data of the rectangle when every row is filtered with `ft`.
pub open spec fn filtered_compressed(rect: RectView, method: u8, iterations: u32, bpp: nat, ft: u8) -> Seq<u8> {
    compressed(filtered_image(rect.data, rect.h as nat, (rect.w * bpp) as nat, bpp, ft), method, iterations)
}

/// The shortest of the compressed data for filters `0 .. n`, the lowest
/// filter winning ties.
pub open spec fn best_filtered(rect: RectView, method: u8, iterations: u32, bpp: nat, n: nat) -> Seq<u8>
    decreases n,
{
    if n <= 1 {
        filtered_compressed(rect, method, iterations, bpp, 0)
    } else {
        let prev = best_filtered(rect, method, iterations, bpp, (n - 1) as nat);
        let cand = filtered_compressed(rect, method, iterations, bpp, (n - 1) as u8);
        if cand.len() < prev.len() { cand } else { prev }
    }
}

/// The rectangle's data holds every row that filtering reads.
pub open spec fn rect_fits(rect: RectView, bpp: int) -> bool {
    &&& rect.w * bpp <= usize::MAX
    &&& rect.h * (rect.w * bpp) <= rect.data.len()
}

/// Filters the rectangle with each of the five filters, compresses each
/// result, and returns the shortest (the lowest filter type on ties).
pub fn optimize_rect(rect: &RectResult, compression_method: u8, iterations: u32, bpp: usize) -> (out: Vec<u8>)
    requires
        rect_fits(rect@, bpp as int),
    ensures
        out@ == best_filtered(rect@, compression_method, iterations, bpp as nat, 5),
        forall|ft: u8| ft < 5 ==> out@.len() <= #[trigger] filtered_compressed(rect@, compression_method, iterations, bpp as nat, ft).len(),
{
    let filtered = apply_filter(rect.data.as_slice(), rect.w, rect.h, bpp, 0);
    let mut best = compress_data(filtered.as_slice(), compression_method, iterations);
    let mut ft: u8 = 1;
    while ft < 5
        invariant
            1 <= ft <= 5,
            rect_fits(rect@, bpp as int),
            best@ == best_filtered(rect@, compression_method, iterations, bpp as nat, ft as nat),
            forall|k: u8| k < ft ==> best@.len() <= #[trigger] filtered_compressed(rect@, compression_method, iterations, bpp as nat, k).len(),
        decreases 5 - ft,
    {
        let filtered = apply_filter(rect.data.as_slice(), rect.w, rect.h, bpp, ft);
        let data = compress_data(filtered.as_slice(), compression_method, iterations);
        if data.len() < best.len() {
            best = data;
        }
        ft = ft + 1;
    }
    best
}


proof fn lemma_rect_rows_pixel(curr: Seq<u8>, w: int, h: int, rx: int, ry: int, rw: int, n: nat, x: int, y: int)
    requires
        0 <= rx, 0 <= ry, 0 <= rw,
        rx + rw <= w,
        ry + n <= h,
        h * w * 4 <= curr.len(),
        0 <= x < rw,
        0 <= y < n,
    ensures
        rect_rows(curr, w, 4, rx, ry, rw, n).subrange((y * rw + x) * 4, (y * rw + x) * 4 + 4)
            == pixel_at(curr, w, rx + x, ry + y),
    decreases n,
{
    let a = rect_rows(curr, w, 4, rx, ry, rw, (n - 1) as nat);
    let start = px_index(w, 4, rx, ry + n - 1);
    let b = curr.subrange(start, start + rw * 4);
    lemma_rect_rows_len(curr, w, h, 4, rx, ry, rw, (n - 1) as nat);
    lemma_row_span(w, h, 4, rx, rw, ry + n - 1);
    assert(rect_rows(curr, w, 4, rx, ry, rw, n) == a + b);
    if y < n - 1 {
        lemma_rect_rows_pixel(curr, w, h, rx, ry, rw, (n - 1) as nat, x, y);
        assert((y * rw + x) * 4 + 4 <= (n - 1) * (rw * 4)) by (nonlinear_arith)
            requires 0 <= y < n - 1, 0 <= x < rw;
        assert(0 <= (y * rw + x) * 4) by (nonlinear_arith) requires 0 <= y, 0 <= x, 0 <= rw;
        assert((a + b).subrange((y * rw + x) * 4, (y * rw + x) * 4 + 4) =~= a.subrange((y * rw + x) * 4, (y * rw + x) * 4 + 4));
    } else {
        assert((y * rw + x) * 4 == (n - 1) * (rw * 4) + x * 4) by (nonlinear_arith) requires y == n - 1;
        assert(start + x * 4 == ((ry + y) * w + rx + x) * 4) by (nonlinear_arith) requires y == n - 1, start == ((ry + n - 1) * w + rx) * 4;
        assert((a + b).subrange((y * rw + x) * 4, (y * rw + x) * 4 + 4) =~= b.subrange(x * 4, x * 4 + 4));
        assert(b.subrange(x * 4, x * 4 + 4) =~= curr.subrange(start + x * 4, start + x * 4 + 4));
    }
}

proof fn lemma_over_row_pixel(prev: Seq<u8>, curr: Seq<u8>, w: int, h: int, tcolor: u8, rx: int, y: int, m: nat, x: int)
    requires
        canvases_fit(prev, curr, w, h, 4),
        0 <= rx,
        rx + m <= w,
        0 <= y < h,
        0 <= x < m,
    ensures
        over_row(prev, curr, w, 4, tcolor, rx, y, m).subrange(x * 4, x * 4 + 4) == over_pixel(prev, curr, w, 4, tcolor, rx + x, y),
    decreases m,
{
    let a = over_row(prev, curr, w, 4, tcolor, rx, y, (m - 1) as nat);
    let b = over_pixel(prev, curr, w, 4, tcolor, rx + m - 1, y);
    lemma_over_row_len(prev, curr, w, h, 4, tcolor, rx, y, (m - 1) as nat);
    lemma_px_bounds(w, h, 4, rx + m - 1, y);
    assert(b.len() == 4);
    if x < m - 1 {
        lemma_over_row_pixel(prev, curr, w, h, tcolor, rx, y, (m - 1) as nat, x);
        assert((a + b).subrange(x * 4, x * 4 + 4) =~= a.subrange(x * 4, x * 4 + 4));
    } else {
        assert((a + b).subrange(x * 4, x * 4 + 4) =~= b);
    }
}

proof fn lemma_over_rows_pixel(prev: Seq<u8>, curr: Seq<u8>, w: int, h: int, tcolor: u8, rx: int, ry: int, rw: int, n: nat, x: int, y: int)
    requires
        canvases_fit(prev, curr, w, h, 4),
        0 <= rx, 0 <= ry, 0 <= rw,
        rx + rw <= w,
        ry + n <= h,
        0 <= x < rw,
        0 <= y < n,
    ensures
        over_rows(prev, curr, w, 4, tcolor, rx, ry, rw, n).subrange((y * rw + x) * 4, (y * rw + x) * 4 + 4)
            == over_pixel(prev, curr, w, 4, tcolor, rx + x, ry + y),
    decreases n,
{
    let a = over_rows(prev, curr, w, 4, tcolor, rx, ry, rw, (n - 1) as nat);
    let b = over_row(prev, curr, w, 4, tcolor, rx, ry + n - 1, rw as nat);
    lemma_over_rows_len(prev, curr, w, h, 4, tcolor, rx, ry, rw, (n - 1) as nat);
    lemma_over_row_len(prev, curr, w, h, 4, tcolor, rx, ry + n - 1, rw as nat);
    if y < n - 1 {
        lemma_over_rows_pixel(prev, curr, w, h, tcolor, rx, ry, rw, (n - 1) as nat, x, y);
        assert((y * rw + x) * 4 + 4 <= (n - 1) * (rw * 4)) by (nonlinear_arith)
            requires 0 <= y < n - 1, 0 <= x < rw;
        assert(0 <= (y * rw + x) * 4) by (nonlinear_arith) requires 0 <= y, 0 <= x, 0 <= rw;
        assert((a + b).subrange((y * rw + x) * 4, (y * rw + x) * 4 + 4) =~= a.subrange((y * rw + x) * 4, (y * rw + x) * 4 + 4));
    } else {
        assert((y * rw + x) * 4 == (n - 1) * (rw * 4) + x * 4) by (nonlinear_arith) requires y == n - 1;
        lemma_over_row_pixel(prev, curr, w, h, tcolor, rx, ry + n - 1, rw as nat, x);
        assert((a + b).subrange((y * rw + x) * 4, (y * rw + x) * 4 + 4) =~= b.subrange(x * 4, x * 4 + 4));
    }
}

/// Every changed pixel lies in the rectangle at `(x0, y0)` of `rw` by `rh` pixels.
pub open spec fn holds_changes(prev: Seq<u8>, curr: Seq<u8>, w: int, h: int, bpp: int, x0: int, y0: int, rw: int, rh: int) -> bool {
    forall|x: int, y: int| 0 <= x < w && 0 <= y < h && #[trigger] pixel_changed(prev, curr, w, bpp, x, y)
        ==> x0 <= x < x0 + rw && y0 <= y < y0 + rh
}

/// The bounding box of the changes holds every changed pixel.
pub proof fn lemma_bounding_box_holds_changes(prev: Seq<u8>, curr: Seq<u8>, w: int, h: int, bpp: int, x0: int, y0: int, x1: int, y1: int)
    requires
        is_bounding_box(prev, curr, w, h, bpp, x0, y0, x1, y1),
    ensures
        holds_changes(prev, curr, w, h, bpp, x0, y0, x1 - x0 + 1, y1 - y0 + 1),
{
}

/// The frame that draws the rectangle with SOURCE and the current pixels.
pub open spec fn source_frame(curr: Seq<u8>, w: int, x0: int, y0: int, rw: int, rh: int) -> StoredFrame {
    StoredFrame {
        width: rw as u32,
        height: rh as u32,
        x_offset: x0 as u32,
        y_offset: y0 as u32,
        delay_num: 0,
        delay_den: 0,
        dispose_op: 0,
        blend_op: 0,
        data: rect_rows(curr, w, 4, x0, y0, rw, rh as nat),
    }
}

/// The frame that draws the rectangle with OVER and the OVER pixels.
pub open spec fn over_frame(prev: Seq<u8>, curr: Seq<u8>, w: int, tcolor: u8, x0: int, y0: int, rw: int, rh: int) -> StoredFrame {
    StoredFrame {
        width: rw as u32,
        height: rh as u32,
        x_offset: x0 as u32,
        y_offset: y0 as u32,
        delay_num: 0,
        delay_den: 0,
        dispose_op: 0,
        blend_op: 1,
        data: over_rows(prev, curr, w, 4, tcolor, x0, y0, rw, rh as nat),
    }
}

/// Drawing a rectangle that holds every changed pixel onto the previous RGBA
/// canvas reproduces every pixel of the current canvas: with SOURCE and the
/// current pixels always, and with OVER and the OVER pixels whenever OVER is
/// possible.
pub proof fn lemma_rect_reproduces_canvas(prev: Seq<u8>, curr: Seq<u8>, w: int, h: int, tcolor: u8, x0: int, y0: int, rw: int, rh: int)
    requires
        canvases_fit(prev, curr, w, h, 4),
        prev.len() == h * w * 4,
        curr.len() == h * w * 4,
        0 <= x0, 0 <= y0, 0 <= rw, 0 <= rh,
        x0 + rw <= w <= u32::MAX,
        y0 + rh <= h <= u32::MAX,
        holds_changes(prev, curr, w, h, 4, x0, y0, rw, rh),
    ensures
        blend_rows(prev, source_frame(curr, w, x0, y0, rw, rh), w, 4, rh as nat).len() == prev.len(),
        blend_rows(prev, over_frame(prev, curr, w, tcolor, x0, y0, rw, rh), w, 4, rh as nat).len() == prev.len(),
        forall|x: int, y: int| 0 <= x < w && 0 <= y < h ==>
            #[trigger] pixel_at(blend_rows(prev, source_frame(curr, w, x0, y0, rw, rh), w, 4, rh as nat), w, x, y)
                == pixel_at(curr, w, x, y),
        over_possible(prev, curr, w, h, 4, false, 0) ==> forall|x: int, y: int| 0 <= x < w && 0 <= y < h ==>
            #[trigger] pixel_at(blend_rows(prev, over_frame(prev, curr, w, tcolor, x0, y0, rw, rh), w, 4, rh as nat), w, x, y)
                == pixel_at(curr, w, x, y),
{
    let sf = source_frame(curr, w, x0, y0, rw, rh);
    let of = over_frame(prev, curr, w, tcolor, x0, y0, rw, rh);
    lemma_rect_rows_len(curr, w, h, 4, x0, y0, rw, rh as nat);
    lemma_over_rows_len(prev, curr, w, h, 4, tcolor, x0, y0, rw, rh as nat);
    assert(rh * (rw * 4) == rh * rw * 4) by (nonlinear_arith);
    assert(frame_inside(sf, w, h));
    assert(frame_inside(of, w, h));
    lemma_blended_pixels(prev, sf, w, h, rh as nat);
    lemma_blended_pixels(prev, of, w, h, rh as nat);
    assert(sf.x_offset == x0 && sf.y_offset == y0 && sf.width == rw && sf.height == rh);
    assert(of.x_offset == x0 && of.y_offset == y0 && of.width == rw && of.height == rh);
    assert forall|x: int, y: int| 0 <= x < w && 0 <= y < h implies
        #[trigger] pixel_at(blend_rows(prev, sf, w, 4, rh as nat), w, x, y) == pixel_at(curr, w, x, y) by {
        lemma_px_bounds(w, h, 4, x, y);
        assert(px_index(w, 4, x, y) == (y * w + x) * 4);
        if y0 <= y < y0 + rh && x0 <= x < x0 + rw {
            lemma_rect_rows_pixel(curr, w, h, x0, y0, rw, rh as nat, x - x0, y - y0);
            assert(frame_pixel(sf, x - x0, y - y0) == pixel_at(curr, w, x, y));
        } else {
            assert(!pixel_changed(prev, curr, w, 4, x, y));
            assert(px_index(w, 4, x, y) == (y * w + x) * 4);
        }
    }
    if over_possible(prev, curr, w, h, 4, false, 0) {
        assert forall|x: int, y: int| 0 <= x < w && 0 <= y < h implies
            #[trigger] pixel_at(blend_rows(prev, of, w, 4, rh as nat), w, x, y) == pixel_at(curr, w, x, y) by {
            lemma_px_bounds(w, h, 4, x, y);
            assert(px_index(w, 4, x, y) == (y * w + x) * 4);
            if y0 <= y < y0 + rh && x0 <= x < x0 + rw {
                lemma_over_rows_pixel(prev, curr, w, h, tcolor, x0, y0, rw, rh as nat, x - x0, y - y0);
                assert(frame_pixel(of, x - x0, y - y0) == over_pixel(prev, curr, w, 4, tcolor, x, y));
                if pixel_changed(prev, curr, w, 4, x, y) {
                    assert(over_ok(curr, w, 4, false, 0, x, y));
                    assert(frame_pixel(of, x - x0, y - y0)[3] == 255);
                } else {
                    assert(frame_pixel(of, x - x0, y - y0)[3] == 0);
                }
            } else {
                assert(!pixel_changed(prev, curr, w, 4, x, y));
            }
        }
    }
}


/// The frame that a candidate stands for.
pub open spec fn candidate_frame(c: RectView) -> StoredFrame {
    StoredFrame {
        width: c.w,
        height: c.h,
        x_offset: c.x,
        y_offset: c.y,
        delay_num: 0,
        delay_den: 0,
        dispose_op: c.dispose_op,
        blend_op: c.blend_op,
        data: c.data,
    }
}

/// Every candidate that the search proposes for two RGBA canvases, drawn
/// onto the previous canvas, gives exactly the current canvas, every RGBA
/// byte included.
pub proof fn lemma_candidates_reproduce_canvas(prev: Seq<u8>, curr: Seq<u8>, w: int, h: int, has_tcolor: bool, tcolor: u8)
    requires
        canvases_fit(prev, curr, w, h, 4),
        prev.len() == h * w * 4,
        curr.len() == h * w * 4,
        0 <= w <= u32::MAX,
        0 <= h <= u32::MAX,
    ensures
        forall|k: int| 0 <= k < rect_candidates(prev, curr, w, h, 0, 4, has_tcolor, tcolor).len() ==>
            #[trigger] blended(prev, candidate_frame(rect_candidates(prev, curr, w, h, 0, 4, has_tcolor, tcolor)[k]), w, 4) == curr,
{
    if any_changed(prev, curr, w, h, 4) {
        lemma_bounding_box_exists(prev, curr, w, h, 4);
        let (x0, y0, x1, y1) = bounding_box(prev, curr, w, h, 4);
        assert(is_bounding_box(prev, curr, w, h, 4, x0, y0, x1, y1));
        let ex = choose|x: int, y: int| 0 <= x < w && 0 <= y < h && #[trigger] pixel_changed(prev, curr, w, 4, x, y) && x == x1;
        let ey = choose|x: int, y: int| 0 <= x < w && 0 <= y < h && #[trigger] pixel_changed(prev, curr, w, 4, x, y) && y == y1;
        let fx = choose|x: int, y: int| 0 <= x < w && 0 <= y < h && #[trigger] pixel_changed(prev, curr, w, 4, x, y) && x == x0;
        let fy = choose|x: int, y: int| 0 <= x < w && 0 <= y < h && #[trigger] pixel_changed(prev, curr, w, 4, x, y) && y == y0;
        assert(x0 <= x1 && y0 <= y1);
        let rw = x1 - x0 + 1;
        let rh = y1 - y0 + 1;
        lemma_bounding_box_holds_changes(prev, curr, w, h, 4, x0, y0, x1, y1);
        lemma_rect_reproduces_canvas(prev, curr, w, h, tcolor, x0, y0, rw, rh);
        let cands = rect_candidates(prev, curr, w, h, 0, 4, has_tcolor, tcolor);
        let sf = source_frame(curr, w, x0, y0, rw, rh);
        assert(candidate_frame(cands[0]) == sf);
        lemma_canvas_eq_by_pixels(blend_rows(prev, sf, w, 4, rh as nat), curr, w, h);
        assert(blended(prev, candidate_frame(cands[0]), w, 4) == curr);
        assert(over_possible(prev, curr, w, h, 4, has_tcolor, tcolor) == over_possible(prev, curr, w, h, 4, false, 0));
        if cands.len() == 2 {
            let of = over_frame(prev, curr, w, tcolor, x0, y0, rw, rh);
            assert(candidate_frame(cands[1]) == of);
            lemma_canvas_eq_by_pixels(blend_rows(prev, of, w, 4, rh as nat), curr, w, h);
            assert(blended(prev, candidate_frame(cands[1]), w, 4) == curr);
        }
    }
}


proof fn lemma_rect_rows_index(curr: Seq<u8>, w: int, h: int, rx: int, ry: int, rw: int, n: nat, x: int, y: int)
    requires
        0 <= rx, 0 <= ry, 0 <= rw,
        rx + rw <= w,
        ry + n <= h,
        h * w <= curr.len(),
        0 <= x < rw,
        0 <= y < n,
    ensures
        0 <= y * rw + x < rect_rows(curr, w, 1, rx, ry, rw, n).len(),
        rect_rows(curr, w, 1, rx, ry, rw, n)[y * rw + x] == curr[(ry + y) * w + rx + x],
    decreases n,
{
    let a = rect_rows(curr, w, 1, rx, ry, rw, (n - 1) as nat);
    let start = px_index(w, 1, rx, ry + n - 1);
    let b = curr.subrange(start, start + rw * 1);
    assert(h * w * 1 == h * w);
    lemma_rect_rows_len(curr, w, h, 1, rx, ry, rw, (n - 1) as nat);
    lemma_rect_rows_len(curr, w, h, 1, rx, ry, rw, n);
    lemma_row_span(w, h, 1, rx, rw, ry + n - 1);
    assert(rect_rows(curr, w, 1, rx, ry, rw, n) == a + b);
    assert(0 <= y * rw + x < n * rw) by (nonlinear_arith) requires 0 <= y < n, 0 <= x < rw;
    if y < n - 1 {
        lemma_rect_rows_index(curr, w, h, rx, ry, rw, (n - 1) as nat, x, y);
    } else {
        assert(y * rw + x == (n - 1) * rw + x) by (nonlinear_arith) requires y == n - 1;
        assert(start + x == (ry + y) * w + rx + x) by (nonlinear_arith) requires y == n - 1, start == ((ry + n - 1) * w + rx) * 1;
    }
}

proof fn lemma_over_row_index(prev: Seq<u8>, curr: Seq<u8>, w: int, h: int, tcolor: u8, rx: int, y: int, m: nat, x: int)
    requires
        canvases_fit(prev, curr, w, h, 1),
        0 <= rx,
        rx + m <= w,
        0 <= y < h,
        0 <= x < m,
    ensures
        over_row(prev, curr, w, 1, tcolor, rx, y, m)[x] == over_pixel(prev, curr, w, 1, tcolor, rx + x, y)[0],
    decreases m,
{
    let a = over_row(prev, curr, w, 1, tcolor, rx, y, (m - 1) as nat);
    lemma_over_row_len(prev, curr, w, h, 1, tcolor, rx, y, (m - 1) as nat);
    if x < m - 1 {
        lemma_over_row_index(prev, curr, w, h, tcolor, rx, y, (m - 1) as nat, x);
    }
}

proof fn lemma_over_rows_index(prev: Seq<u8>, curr: Seq<u8>, w: int, h: int, tcolor: u8, rx: int, ry: int, rw: int, n: nat, x: int, y: int)
    requires
        canvases_fit(prev, curr, w, h, 1),
        0 <= rx, 0 <= ry, 0 <= rw,
        rx + rw <= w,
        ry + n <= h,
        0 <= x < rw,
        0 <= y < n,
    ensures
        over_rows(prev, curr, w, 1, tcolor, rx, ry, rw, n)[y * rw + x] == over_pixel(prev, curr, w, 1, tcolor, rx + x, ry + y)[0],
    decreases n,
{
    let a = over_rows(prev, curr, w, 1, tcolor, rx, ry, rw, (n - 1) as nat);
    lemma_over_rows_len(prev, curr, w, h, 1, tcolor, rx, ry, rw, (n - 1) as nat);
    lemma_over_row_len(prev, curr, w, h, 1, tcolor, rx, ry + n - 1, rw as nat);
    assert(0 <= y * rw + x) by (nonlinear_arith) requires 0 <= y, 0 <= x, 0 <= rw;
    if y < n - 1 {
        lemma_over_rows_index(prev, curr, w, h, tcolor, rx, ry, rw, (n - 1) as nat, x, y);
        assert(y * rw + x < (n - 1) * (rw * 1)) by (nonlinear_arith) requires 0 <= y < n - 1, 0 <= x < rw;
    } else {
        assert(y * rw + x == (n - 1) * (rw * 1) + x) by (nonlinear_arith) requires y == n - 1;
        lemma_over_row_index(prev, curr, w, h, tcolor, rx, ry + n - 1, rw as nat, x);
    }
}

/// The palette index left where index `src` is drawn with OVER over index
/// `dst`, when `tcolor` (if any) is the fully transparent index: the
/// transparent index lets the pixel below show, any other index covers it.
pub open spec fn palette_over(dst: u8, src: u8, has_tcolor: bool, tcolor: u8) -> u8 {
    if has_tcolor && src == tcolor { dst } else { src }
}

/// Pixel `(x, y)` of an index canvas `w` pixels wide after drawing the
/// candidate `c` onto it: inside the candidate's rectangle the candidate's
/// index at that place replaces the pixel (SOURCE) or is drawn over it
/// (OVER); outside it the pixel stays.
pub open spec fn palette_drawn(canvas: Seq<u8>, c: RectView, w: int, has_tcolor: bool, tcolor: u8, x: int, y: int) -> u8 {
    let rx = c.x as int;
    let ry = c.y as int;
    if rx <= x < rx + c.w && ry <= y < ry + c.h {
        let s = c.data[(y - ry) * c.w + (x - rx)];
        if c.blend_op == 0 { s } else { palette_over(canvas[y * w + x], s, has_tcolor, tcolor) }
    } else {
        canvas[y * w + x]
    }
}

/// In palette mode, every candidate that the search proposes, drawn onto the
/// previous index canvas with its own operation, gives the current canvas at
/// every pixel: with OVER, every pixel of the rectangle that did not change
/// holds the transparent index, and every one that changed its new index.
pub proof fn lemma_palette_candidates_reproduce_canvas(prev: Seq<u8>, curr: Seq<u8>, w: int, h: int, has_tcolor: bool, tcolor: u8)
    requires
        canvases_fit(prev, curr, w, h, 1),
        0 <= w <= u32::MAX,
        0 <= h <= u32::MAX,
    ensures
        forall|k: int, x: int, y: int|
            0 <= k < rect_candidates(prev, curr, w, h, 0, 1, has_tcolor, tcolor).len() && 0 <= x < w && 0 <= y < h ==>
            #[trigger] palette_drawn(prev, rect_candidates(prev, curr, w, h, 0, 1, has_tcolor, tcolor)[k], w, has_tcolor, tcolor, x, y)
                == curr[y * w + x],
{
    let cands = rect_candidates(prev, curr, w, h, 0, 1, has_tcolor, tcolor);
    if any_changed(prev, curr, w, h, 1) {
        lemma_bounding_box_exists(prev, curr, w, h, 1);
        let (x0, y0, x1, y1) = bounding_box(prev, curr, w, h, 1);
        assert(is_bounding_box(prev, curr, w, h, 1, x0, y0, x1, y1));
        let ex = choose|x: int, y: int| 0 <= x < w && 0 <= y < h && #[trigger] pixel_changed(prev, curr, w, 1, x, y) && x == x1;
        let ey = choose|x: int, y: int| 0 <= x < w && 0 <= y < h && #[trigger] pixel_changed(prev, curr, w, 1, x, y) && y == y1;
        let fx = choose|x: int, y: int| 0 <= x < w && 0 <= y < h && #[trigger] pixel_changed(prev, curr, w, 1, x, y) && x == x0;
        let fy = choose|x: int, y: int| 0 <= x < w && 0 <= y < h && #[trigger] pixel_changed(prev, curr, w, 1, x, y) && y == y0;
        assert(0 <= x0 <= x1 < w && 0 <= y0 <= y1 < h);
        let rw = x1 - x0 + 1;
        let rh = y1 - y0 + 1;
        lemma_bounding_box_holds_changes(prev, curr, w, h, 1, x0, y0, x1, y1);
        assert forall|k: int, x: int, y: int|
            0 <= k < cands.len() && 0 <= x < w && 0 <= y < h implies
            #[trigger] palette_drawn(prev, cands[k], w, has_tcolor, tcolor, x, y) == curr[y * w + x] by {
            lemma_px_bounds(w, h, 1, x, y);
            assert(px_index(w, 1, x, y) == y * w + x);
            let c = cands[k];
            assert(c.x == x0 && c.y == y0 && c.w == rw && c.h == rh);
            if x0 <= x < x0 + rw && y0 <= y < y0 + rh {
                if k == 0 {
                    lemma_rect_rows_index(curr, w, h, x0, y0, rw, rh as nat, x - x0, y - y0);
                } else {
                    lemma_over_rows_index(prev, curr, w, h, tcolor, x0, y0, rw, rh as nat, x - x0, y - y0);
                    if pixel_changed(prev, curr, w, 1, x, y) {
                        assert(over_ok(curr, w, 1, has_tcolor, tcolor, x, y));
                    }
                }
            } else {
                assert(!pixel_changed(prev, curr, w, 1, x, y));
            }
        }
    }
}
} // verus!
