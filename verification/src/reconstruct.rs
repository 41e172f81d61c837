//! Compositing of the stored sub-frames onto a full RGBA canvas, following the
//! blend and dispose operations of each frame.

use vstd::prelude::*;
use crate::decoder::{ApngImage, Frame, StoredFrame};

verus! {

/// Replaces the 4 bytes of `c` at `dp` by `px`.
pub open spec fn write4(c: Seq<u8>, dp: int, px: Seq<u8>) -> Seq<u8> {
    c.update(dp, px[0]).update(dp + 1, px[1]).update(dp + 2, px[2]).update(dp + 3, px[3])
}

/// One colour channel of the OVER composite with weights `u` (source) and `v` (destination).
pub open spec fn over_channel(s: u8, d: u8, u: int, v: int) -> u8 {
    ((s * u + d * v) / (u + v)) as u8
}

/// The pixel that results from compositing the RGBA pixel `src` onto `dst`:
/// with blend op 0 (SOURCE) the source replaces the destination; otherwise
/// (OVER) an opaque source replaces it, a fully transparent one leaves it, a
/// source over a fully transparent destination replaces it, and in the
/// remaining case both are mixed by alpha.
pub open spec fn blend_pixel(dst: Seq<u8>, src: Seq<u8>, op: u8) -> Seq<u8> {
    if op == 0 {
        src
    } else {
        let sa = src[3] as int;
        if sa == 255 {
            src
        } else if sa == 0 {
            dst
        } else if dst[3] == 0 {
            src
        } else {
            let u = sa * 255;
            let v = (255 - sa) * dst[3];
            seq![
                over_channel(src[0], dst[0], u, v),
                over_channel(src[1], dst[1], u, v),
                over_channel(src[2], dst[2], u, v),
                ((u + v) / 255) as u8,
            ]
        }
    }
}

/// Byte offset on the canvas of pixel `(x, y)` of a frame.
pub open spec fn dest_offset(f: StoredFrame, cw: int, bpp: int, y: int, x: int) -> int {
    ((f.y_offset + y) * cw + f.x_offset + x) * bpp
}

/// Byte offset in the frame's data of its pixel `(x, y)`.
pub open spec fn src_offset(f: StoredFrame, bpp: int, y: int, x: int) -> int {
    (y * f.width + x) * bpp
}

/// The canvas after compositing pixel `(x, y)` of frame `f` onto it.
pub open spec fn blend_step(c: Seq<u8>, f: StoredFrame, cw: int, bpp: int, y: int, x: int) -> Seq<u8> {
    let dp = dest_offset(f, cw, bpp, y, x);
    let sp = src_offset(f, bpp, y, x);
    write4(c, dp, blend_pixel(c.subrange(dp, dp + 4), f.data.subrange(sp, sp + 4), f.blend_op))
}

/// The canvas after compositing the first `n` pixels of row `y`, left to right.
pub open spec fn blend_row(c: Seq<u8>, f: StoredFrame, cw: int, bpp: int, y: int, n: nat) -> Seq<u8>
    decreases n,
{
    if n == 0 {
        c
    } else {
        blend_step(blend_row(c, f, cw, bpp, y, (n - 1) as nat), f, cw, bpp, y, n - 1)
    }
}

/// The canvas after compositing the first `m` rows of the frame, top to bottom.
pub open spec fn blend_rows(c: Seq<u8>, f: StoredFrame, cw: int, bpp: int, m: nat) -> Seq<u8>
    decreases m,
{
    if m == 0 {
        c
    } else {
        blend_row(blend_rows(c, f, cw, bpp, (m - 1) as nat), f, cw, bpp, m - 1, f.width as nat)
    }
}

/// The canvas after compositing the whole frame `f` onto `c`.
pub open spec fn blended(c: Seq<u8>, f: StoredFrame, cw: int, bpp: int) -> Seq<u8> {
    blend_rows(c, f, cw, bpp, f.height as nat)
}

/// The canvas after clearing pixel `(x, y)` of the frame's rectangle to transparent black.
pub open spec fn clear_step(c: Seq<u8>, f: StoredFrame, cw: int, bpp: int, y: int, x: int) -> Seq<u8> {
    write4(c, dest_offset(f, cw, bpp, y, x), seq![0u8, 0u8, 0u8, 0u8])
}

pub open spec fn clear_row(c: Seq<u8>, f: StoredFrame, cw: int, bpp: int, y: int, n: nat) -> Seq<u8>
    decreases n,
{
    if n == 0 {
        c
    } else {
        clear_step(clear_row(c, f, cw, bpp, y, (n - 1) as nat), f, cw, bpp, y, n - 1)
    }
}

pub open spec fn clear_rows(c: Seq<u8>, f: StoredFrame, cw: int, bpp: int, m: nat) -> Seq<u8>
    decreases m,
{
    if m == 0 {
        c
    } else {
        clear_row(clear_rows(c, f, cw, bpp, (m - 1) as nat), f, cw, bpp, m - 1, f.width as nat)
    }
}

/// The canvas after clearing the frame's rectangle to transparent black.
pub open spec fn cleared(c: Seq<u8>, f: StoredFrame, cw: int, bpp: int) -> Seq<u8> {
    clear_rows(c, f, cw, bpp, f.height as nat)
}

/// Every pixel of the frame lies inside a canvas of `len` bytes, and the
/// frame's data holds all of its pixels.
pub open spec fn frame_fits(f: StoredFrame, len: int, cw: int, bpp: int) -> bool {
    f.width == 0 || f.height == 0 || {
        &&& f.y_offset + f.height - 1 <= usize::MAX
        &&& f.height * f.width * bpp <= usize::MAX
        &&& (f.y_offset + f.height - 1) * cw + f.x_offset + f.width - 1 <= usize::MAX
        &&& dest_offset(f, cw, bpp, f.height - 1, f.width - 1) + 4 <= len
        &&& src_offset(f, bpp, f.height - 1, f.width - 1) + 4 <= f.data.len()
    }
}

proof fn lemma_offsets_in_range(f: StoredFrame, len: int, cw: int, bpp: int, y: int, x: int)
    requires
        frame_fits(f, len, cw, bpp),
        0 <= cw,
        0 <= bpp,
        0 <= y < f.height,
        0 <= x < f.width,
    ensures
        0 <= dest_offset(f, cw, bpp, y, x),
        dest_offset(f, cw, bpp, y, x) + 4 <= len,
        0 <= src_offset(f, bpp, y, x),
        src_offset(f, bpp, y, x) + 4 <= f.data.len(),
        dest_offset(f, cw, bpp, y, x) + bpp == dest_offset(f, cw, bpp, y, x + 1),
        src_offset(f, bpp, y, x) + bpp == src_offset(f, bpp, y, x + 1),
        src_offset(f, bpp, y, f.width as int) == src_offset(f, bpp, y + 1, 0),
        (f.y_offset + y) * cw <= usize::MAX,
        f.y_offset + y <= usize::MAX,
        src_offset(f, bpp, y, x + 1) <= usize::MAX,
        (f.y_offset + y) * cw + f.x_offset + x <= usize::MAX,
{
    let fy = f.y_offset as int;
    let fx = f.x_offset as int;
    let fh = f.height as int;
    let fw = f.width as int;
    assert((fy + y) * cw <= (fy + fh - 1) * cw) by (nonlinear_arith)
        requires y <= fh - 1, 0 <= cw;
    assert(((fy + y) * cw + fx + x) * bpp <= ((fy + fh - 1) * cw + fx + fw - 1) * bpp) by (nonlinear_arith)
        requires (fy + y) * cw + fx + x <= (fy + fh - 1) * cw + fx + fw - 1, 0 <= bpp;
    assert(0 <= ((fy + y) * cw + fx + x) * bpp) by (nonlinear_arith)
        requires 0 <= fy + y, 0 <= cw, 0 <= fx + x, 0 <= bpp;
    assert(y * fw <= (fh - 1) * fw) by (nonlinear_arith) requires y <= fh - 1, 0 <= fw;
    assert((y * fw + x) * bpp <= ((fh - 1) * fw + fw - 1) * bpp) by (nonlinear_arith)
        requires y * fw + x <= (fh - 1) * fw + fw - 1, 0 <= bpp;
    assert(0 <= (y * fw + x) * bpp) by (nonlinear_arith) requires 0 <= y, 0 <= fw, 0 <= x, 0 <= bpp;
    assert((y * fw + x + 1) * bpp <= fh * fw * bpp) by (nonlinear_arith)
        requires y <= fh - 1, x + 1 <= fw, 0 <= bpp, 0 <= y, 0 <= x;
    assert(0 <= (fy + y) * cw) by (nonlinear_arith) requires 0 <= fy + y, 0 <= cw;
    assert(((fy + y) * cw + fx + x) * bpp + bpp == ((fy + y) * cw + fx + x + 1) * bpp) by (nonlinear_arith);
    assert((y * fw + x) * bpp + bpp == (y * fw + x + 1) * bpp) by (nonlinear_arith);
    assert((y * fw + fw) * bpp == ((y + 1) * fw + 0) * bpp) by (nonlinear_arith);
}

fn over_mix(s: u8, d: u8, u: u32, v: u32) -> (r: u8)
    requires
        u <= 65025,
        v <= 65025,
        u + v > 0,
    ensures
        r == over_channel(s, d, u as int, v as int),
{
    let s32 = s as u32;
    let d32 = d as u32;
    assert(s32 * u <= 255 * 65025) by (nonlinear_arith) requires s32 <= 255, u <= 65025;
    assert(d32 * v <= 255 * 65025) by (nonlinear_arith) requires d32 <= 255, v <= 65025;
    ((s32 * u + d32 * v) / (u + v)) as u8
}

/// Composites `frame` onto the canvas, pixel by pixel, row by row: with blend
/// op 0 each pixel replaces the canvas pixel, otherwise it is laid OVER it.
pub fn blend(canvas: &mut Vec<u8>, frame: &Frame, canvas_w: usize, bpp: usize)
    requires
        frame_fits(frame@, old(canvas)@.len() as int, canvas_w as int, bpp as int),
    ensures
        final(canvas)@ == blended(old(canvas)@, frame@, canvas_w as int, bpp as int),
{
    let fw = frame.width as usize;
    let fh = frame.height as usize;
    let fx = frame.x_offset as usize;
    let fy = frame.y_offset as usize;
    let ghost f = frame@;
    let ghost c0 = canvas@;
    let ghost cw = canvas_w as int;
    let ghost b = bpp as int;
    let clen = canvas.len();
    let dlen = frame.data.len();

    let mut src_idx: usize = 0;
    let mut y: usize = 0;
    assert(src_offset(f, b, 0, 0) == 0) by (nonlinear_arith);
    while y < fh
        invariant
            y <= fh,
            fw == f.width, fh == f.height, fx == f.x_offset, fy == f.y_offset,
            f == frame@,
            clen == canvas@.len(), clen == c0.len(),
            dlen == f.data.len(),
            frame_fits(f, clen as int, cw, b),
            cw == canvas_w, b == bpp,
            canvas@ == blend_rows(c0, f, cw, b, y as nat),
            src_idx == src_offset(f, b, y as int, 0),
        decreases fh - y,
    {
        let ghost row_start = canvas@;
        let mut x: usize = 0;
        while x < fw
            invariant
                y < fh,
                x <= fw,
                fw == f.width, fh == f.height, fx == f.x_offset, fy == f.y_offset,
                f == frame@,
                clen == canvas@.len(),
                dlen == f.data.len(),
                frame_fits(f, clen as int, cw, b),
                cw == canvas_w, b == bpp,
                row_start == blend_rows(c0, f, cw, b, y as nat),
                canvas@ == blend_row(row_start, f, cw, b, y as int, x as nat),
                src_idx == src_offset(f, b, y as int, x as int),
            decreases fw - x,
        {
            proof { lemma_offsets_in_range(f, clen as int, cw, b, y as int, x as int); }
            let dp = ((fy + y) * canvas_w + fx + x) * bpp;
            let sp = src_idx;
            let ghost before = canvas@;
            assert(dp == dest_offset(f, cw, b, y as int, x as int));
            if frame.blend_op == 0 {
                canvas.set(dp, frame.data[sp]);
                canvas.set(dp + 1, frame.data[sp + 1]);
                canvas.set(dp + 2, frame.data[sp + 2]);
                canvas.set(dp + 3, frame.data[sp + 3]);
            } else {
                let src_a = frame.data[sp + 3] as u32;
                if src_a == 255 {
                    canvas.set(dp, frame.data[sp]);
                    canvas.set(dp + 1, frame.data[sp + 1]);
                    canvas.set(dp + 2, frame.data[sp + 2]);
                    canvas.set(dp + 3, frame.data[sp + 3]);
                } else if src_a > 0 {
                    let dst_a = canvas[dp + 3] as u32;
                    if dst_a != 0 {
                        assert(src_a * 255 <= 65025) by (nonlinear_arith) requires src_a <= 255;
                        assert((255 - src_a) * dst_a <= 65025) by (nonlinear_arith) requires src_a <= 255, dst_a <= 255;
                        let u = src_a * 255;
                        let v = (255 - src_a) * dst_a;
                        let al = u + v;
                        let r = over_mix(frame.data[sp], canvas[dp], u, v);
                        let g = over_mix(frame.data[sp + 1], canvas[dp + 1], u, v);
                        let bl = over_mix(frame.data[sp + 2], canvas[dp + 2], u, v);
                        let a = (al / 255) as u8;
                        canvas.set(dp, r);
                        canvas.set(dp + 1, g);
                        canvas.set(dp + 2, bl);
                        canvas.set(dp + 3, a);
                    } else {
                        canvas.set(dp, frame.data[sp]);
                        canvas.set(dp + 1, frame.data[sp + 1]);
                        canvas.set(dp + 2, frame.data[sp + 2]);
                        canvas.set(dp + 3, frame.data[sp + 3]);
                    }
                }
            }
            assert(canvas@ =~= blend_step(before, f, cw, b, y as int, x as int));
            src_idx = src_idx + bpp;
            x = x + 1;
        }
        proof {
            let fwi = fw as int;
            let yi = y as int;
            assert((yi * fwi + fwi) * b == ((yi + 1) * fwi + 0) * b) by (nonlinear_arith);
        }
        y = y + 1;
    }
}


/// Clears the frame's rectangle of the canvas to transparent black.
pub fn clear_region(canvas: &mut Vec<u8>, frame: &Frame, canvas_w: usize, bpp: usize)
    requires
        frame_fits(frame@, old(canvas)@.len() as int, canvas_w as int, bpp as int),
    ensures
        final(canvas)@ == cleared(old(canvas)@, frame@, canvas_w as int, bpp as int),
{
    let fw = frame.width as usize;
    let fh = frame.height as usize;
    let fx = frame.x_offset as usize;
    let fy = frame.y_offset as usize;
    let ghost f = frame@;
    let ghost c0 = canvas@;
    let ghost cw = canvas_w as int;
    let ghost b = bpp as int;
    let clen = canvas.len();

    let mut y: usize = 0;
    while y < fh
        invariant
            y <= fh,
            fw == f.width, fh == f.height, fx == f.x_offset, fy == f.y_offset,
            f == frame@,
            clen == canvas@.len(), clen == c0.len(),
            frame_fits(f, clen as int, cw, b),
            cw == canvas_w, b == bpp,
            canvas@ == clear_rows(c0, f, cw, b, y as nat),
        decreases fh - y,
    {
        let ghost row_start = canvas@;
        let mut x: usize = 0;
        while x < fw
            invariant
                y < fh,
                x <= fw,
                fw == f.width, fh == f.height, fx == f.x_offset, fy == f.y_offset,
                f == frame@,
                clen == canvas@.len(),
                frame_fits(f, clen as int, cw, b),
                cw == canvas_w, b == bpp,
                row_start == clear_rows(c0, f, cw, b, y as nat),
                canvas@ == clear_row(row_start, f, cw, b, y as int, x as nat),
            decreases fw - x,
        {
            proof { lemma_offsets_in_range(f, clen as int, cw, b, y as int, x as int); }
            let dp = ((fy + y) * canvas_w + fx + x) * bpp;
            let ghost before = canvas@;
            canvas.set(dp, 0);
            canvas.set(dp + 1, 0);
            canvas.set(dp + 2, 0);
            canvas.set(dp + 3, 0);
            assert(canvas@ =~= clear_step(before, f, cw, b, y as int, x as int));
            x = x + 1;
        }
        y = y + 1;
    }
}

/// Size in bytes of an RGBA canvas of the image.
pub open spec fn canvas_len(apng: ApngImage) -> int {
    apng.height * (apng.width * 4)
}

/// The canvas after frame `f` (the `i`-th) has been shown and disposed of:
/// dispose op 1 clears the frame's rectangle, dispose op 2 goes back to the
/// canvas as it was before the frame (on the first frame it clears instead),
/// any other op leaves the canvas as shown.
pub open spec fn disposed(before: Seq<u8>, f: StoredFrame, i: int, w: int) -> Seq<u8> {
    let shown = blended(before, f, w, 4);
    if f.dispose_op == 1 {
        cleared(shown, f, w, 4)
    } else if f.dispose_op == 2 {
        if i == 0 { cleared(shown, f, w, 4) } else { before }
    } else {
        shown
    }
}

/// The canvas on which frame `i` is drawn: transparent black before the first
/// frame, then whatever the previous frame's disposal left.
pub open spec fn canvas_before(apng: ApngImage, i: nat) -> Seq<u8>
    decreases i,
{
    if i == 0 {
        Seq::new(canvas_len(apng) as nat, |k: int| 0u8)
    } else {
        disposed(canvas_before(apng, (i - 1) as nat), apng.frames@[i - 1]@, i - 1, apng.width as int)
    }
}

/// The full canvas shown while frame `i` is displayed.
pub open spec fn full_frame(apng: ApngImage, i: nat) -> Seq<u8> {
    blended(canvas_before(apng, i), apng.frames@[i as int]@, apng.width as int, 4)
}

/// The image can be composited: its canvas fits in memory and every frame
/// lies inside the canvas with all its pixel data present.
pub open spec fn reconstructible(apng: ApngImage) -> bool {
    &&& apng.width * 4 <= usize::MAX
    &&& canvas_len(apng) <= usize::MAX
    &&& forall|i: int| 0 <= i < apng.frames@.len() ==>
        frame_fits(#[trigger] apng.frames@[i]@, canvas_len(apng), apng.width as int, 4)
}

pub proof fn lemma_blend_row_len(c: Seq<u8>, f: StoredFrame, cw: int, bpp: int, y: int, n: nat)
    requires
        forall|x: int| 0 <= x < n ==> 0 <= dest_offset(f, cw, bpp, y, x) && dest_offset(f, cw, bpp, y, x) + 4 <= c.len(),
    ensures
        blend_row(c, f, cw, bpp, y, n).len() == c.len(),
        clear_row(c, f, cw, bpp, y, n).len() == c.len(),
    decreases n,
{
    if n > 0 {
        lemma_blend_row_len(c, f, cw, bpp, y, (n - 1) as nat);
    }
}

/// Compositing or clearing a frame that fits keeps the canvas length.
pub proof fn lemma_blended_len(c: Seq<u8>, f: StoredFrame, cw: int)
    requires
        frame_fits(f, c.len() as int, cw, 4),
        0 <= cw,
    ensures
        blended(c, f, cw, 4).len() == c.len(),
        cleared(c, f, cw, 4).len() == c.len(),
{
    lemma_rows_len(c, f, cw, f.height as nat);
}

proof fn lemma_rows_len(c: Seq<u8>, f: StoredFrame, cw: int, m: nat)
    requires
        frame_fits(f, c.len() as int, cw, 4),
        0 <= cw,
        m <= f.height,
    ensures
        blend_rows(c, f, cw, 4, m).len() == c.len(),
        clear_rows(c, f, cw, 4, m).len() == c.len(),
    decreases m,
{
    if m > 0 {
        lemma_rows_len(c, f, cw, (m - 1) as nat);
        assert forall|x: int| 0 <= x < f.width implies 0 <= #[trigger] dest_offset(f, cw, 4, m - 1, x)
            && dest_offset(f, cw, 4, m - 1, x) + 4 <= c.len() by {
            lemma_offsets_in_range(f, c.len() as int, cw, 4, m - 1, x);
        }
        lemma_blend_row_len(blend_rows(c, f, cw, 4, (m - 1) as nat), f, cw, 4, m - 1, f.width as nat);
        lemma_blend_row_len(clear_rows(c, f, cw, 4, (m - 1) as nat), f, cw, 4, m - 1, f.width as nat);
    }
}

/// Every canvas of the animation has the size of the image's canvas.
pub proof fn lemma_canvas_before_len(apng: ApngImage, i: nat)
    requires
        reconstructible(apng),
        i <= apng.frames@.len(),
    ensures
        canvas_before(apng, i).len() == canvas_len(apng),
    decreases i,
{
    if i > 0 {
        lemma_canvas_before_len(apng, (i - 1) as nat);
        let f = apng.frames@[i - 1]@;
        let before = canvas_before(apng, (i - 1) as nat);
        lemma_blended_len(before, f, apng.width as int);
        lemma_blended_len(blended(before, f, apng.width as int, 4), f, apng.width as int);
    }
}

/// Composites every frame onto the canvas in turn and returns the full canvas
/// shown while each frame is displayed.
pub fn reconstruct_frames(apng: &ApngImage) -> (full_frames: Vec<Vec<u8>>)
    requires
        reconstructible(*apng),
    ensures
        full_frames@.len() == apng.frames@.len(),
        forall|i: int| 0 <= i < full_frames@.len() ==>
            #[trigger] full_frames@[i]@ == full_frame(*apng, i as nat),
{
    let w = apng.width as usize;
    let h = apng.height as usize;
    let bytes_per_pixel: usize = 4;
    let row_stride = w * bytes_per_pixel;
    let full_size = h * row_stride;

    let mut full_frames: Vec<Vec<u8>> = Vec::new();
    let mut canvas: Vec<u8> = Vec::new();
    let mut k: usize = 0;
    while k < full_size
        invariant
            k <= full_size,
            canvas@ == Seq::new(k as nat, |j: int| 0u8),
        decreases full_size - k,
    {
        canvas.push(0);
        k = k + 1;
        assert(canvas@ =~= Seq::new(k as nat, |j: int| 0u8));
    }
    assert(canvas@ =~= canvas_before(*apng, 0));

    let n = apng.frames.len();
    let mut i: usize = 0;
    while i < n
        invariant
            i <= n,
            n == apng.frames@.len(),
            w == apng.width,
            bytes_per_pixel == 4,
            full_size == canvas_len(*apng),
            reconstructible(*apng),
            canvas@ == canvas_before(*apng, i as nat),
            full_frames@.len() == i,
            forall|j: int| 0 <= j < i ==> #[trigger] full_frames@[j]@ == full_frame(*apng, j as nat),
        decreases n - i,
    {
        let frame = &apng.frames[i];
        assert(frame_fits(apng.frames@[i as int]@, canvas_len(*apng), w as int, 4));
        proof { lemma_canvas_before_len(*apng, i as nat); }
        let prev_canvas_for_dispose = canvas.clone();
        assert(prev_canvas_for_dispose@ == canvas@);
        assert(frame@ == apng.frames@[i as int]@);
        assert(canvas@.len() == canvas_len(*apng));
        assert(frame_fits(frame@, canvas@.len() as int, w as int, bytes_per_pixel as int));

        blend(&mut canvas, frame, w, bytes_per_pixel);

        let shown = canvas.clone();
        full_frames.push(shown);

        proof { lemma_blended_len(prev_canvas_for_dispose@, frame@, w as int); }
        if frame.dispose_op == 1 {
            clear_region(&mut canvas, frame, w, bytes_per_pixel);
        } else if frame.dispose_op == 2 {
            if i == 0 {
                clear_region(&mut canvas, frame, w, bytes_per_pixel);
            } else {
                canvas = prev_canvas_for_dispose;
            }
        }
        i = i + 1;
    }
    full_frames
}


fn check_frame_fits(f: &Frame, len: usize, cw: usize) -> (ok: bool)
    ensures
        ok == frame_fits(f@, len as int, cw as int, 4),
{
    if f.width == 0 || f.height == 0 {
        return true;
    }
    let fw = f.width as u128;
    let fh = f.height as u128;
    let fx = f.x_offset as u128;
    let fy = f.y_offset as u128;
    let w = cw as u128;
    let max = usize::MAX as u128;
    let last_row = fy + fh - 1;
    assert(last_row * w <= 0x3_ffff_ffff_ffff_ffff_ffff_ffff) by (nonlinear_arith)
        requires last_row <= 0x1_ffff_ffff, w <= 0xffff_ffff_ffff_ffff;
    let last_px = last_row * w + fx + fw - 1;
    assert(fh * fw <= 0xffff_ffff_ffff_ffff) by (nonlinear_arith)
        requires fh <= 0xffff_ffff, fw <= 0xffff_ffff;
    assert((fh - 1) * fw + fw == fh * fw) by (nonlinear_arith);
    let src_end = ((fh - 1) * fw + fw - 1) * 4 + 4;
    let dest_end = last_px * 4 + 4;
    let ok = last_row <= max
        && last_px <= max
        && fh * fw * 4 <= max
        && dest_end <= len as u128
        && src_end <= f.data.len() as u128;
    ok
}

/// Tests whether the image can be composited (see `reconstructible`).
pub fn check_reconstructible(apng: &ApngImage) -> (ok: bool)
    ensures
        ok == reconstructible(*apng),
{
    let w = apng.width as u128;
    let h = apng.height as u128;
    assert(h * (w * 4) <= 0xffff_ffff_ffff_ffff_ffff) by (nonlinear_arith)
        requires h <= 0xffff_ffff, w <= 0xffff_ffff;
    if w * 4 > usize::MAX as u128 || h * (w * 4) > usize::MAX as u128 {
        return false;
    }
    let len = (h * (w * 4)) as usize;
    let cw = apng.width as usize;
    let mut i: usize = 0;
    while i < apng.frames.len()
        invariant
            i <= apng.frames@.len(),
            len == canvas_len(*apng),
            cw == apng.width,
            forall|j: int| 0 <= j < i ==> frame_fits(#[trigger] apng.frames@[j]@, canvas_len(*apng), apng.width as int, 4),
        decreases apng.frames@.len() - i,
    {
        if !check_frame_fits(&apng.frames[i], len, cw) {
            return false;
        }
        i = i + 1;
    }
    true
}


/// The RGBA pixel `(x, y)` of a canvas `w` pixels wide.
pub open spec fn pixel_at(c: Seq<u8>, w: int, x: int, y: int) -> Seq<u8> {
    let p = (y * w + x) * 4;
    c.subrange(p, p + 4)
}

/// Two RGBA canvases of `w` by `h` pixels that agree on every pixel are equal.
pub proof fn lemma_canvas_eq_by_pixels(a: Seq<u8>, b: Seq<u8>, w: int, h: int)
    requires
        0 <= w,
        0 <= h,
        a.len() == h * w * 4,
        b.len() == h * w * 4,
        forall|x: int, y: int| 0 <= x < w && 0 <= y < h ==> #[trigger] pixel_at(a, w, x, y) == pixel_at(b, w, x, y),
    ensures
        a == b,
{
    assert forall|j: int| 0 <= j < a.len() implies a[j] == b[j] by {
        let q = j / 4;
        let c = j % 4;
        assert(j == q * 4 + c && 0 <= c < 4 && 0 <= q);
        assert(w > 0) by (nonlinear_arith) requires 0 <= j < h * w * 4, h >= 0, w >= 0;
        let x = q % w;
        let y = q / w;
        vstd::arithmetic::div_mod::lemma_fundamental_div_mod(q, w);
        vstd::arithmetic::div_mod::lemma_mod_bound(q, w);
        assert(0 <= y) by (nonlinear_arith) requires y == q / w, q >= 0, w > 0;
        assert(q == y * w + x) by (nonlinear_arith) requires q == w * (q / w) + q % w, y == q / w, x == q % w;
        assert(q < h * w) by (nonlinear_arith) requires j == q * 4 + c, 0 <= c < 4, j < h * w * 4;
        assert(y < h) by (nonlinear_arith) requires q == y * w + x, 0 <= x, q < h * w, w > 0;
        assert(pixel_at(a, w, x, y) == pixel_at(b, w, x, y));
        assert(pixel_at(a, w, x, y)[c] == a[j]);
        assert(pixel_at(b, w, x, y)[c] == b[j]);
    }
    assert(a =~= b);
}

/// The frame's RGBA pixel `(x, y)`, relative to its rectangle.
pub open spec fn frame_pixel(f: StoredFrame, x: int, y: int) -> Seq<u8> {
    let p = src_offset(f, 4, y, x);
    f.data.subrange(p, p + 4)
}

/// The frame's rectangle lies inside a `w` by `h` canvas and its data holds all its pixels.
pub open spec fn frame_inside(f: StoredFrame, w: int, h: int) -> bool {
    &&& f.x_offset + f.width <= w
    &&& f.y_offset + f.height <= h
    &&& f.height * f.width * 4 <= f.data.len()
}

proof fn lemma_pixel_index_distinct(w: int, h: int, x: int, y: int, x0: int, y0: int)
    requires
        0 <= x < w,
        0 <= y < h,
        0 <= x0 < w,
        0 <= y0 < h,
        x != x0 || y != y0,
    ensures
        (y * w + x) + 1 <= y0 * w + x0 || (y0 * w + x0) + 1 <= y * w + x,
        0 <= y * w + x,
        (y * w + x) + 1 <= h * w,
{
    if y < y0 {
        assert((y + 1) * w <= y0 * w) by (nonlinear_arith) requires y + 1 <= y0, 0 <= w;
        assert((y + 1) * w == y * w + w) by (nonlinear_arith);
    } else if y > y0 {
        assert((y0 + 1) * w <= y * w) by (nonlinear_arith) requires y0 + 1 <= y, 0 <= w;
        assert((y0 + 1) * w == y0 * w + w) by (nonlinear_arith);
    }
    assert(0 <= y * w) by (nonlinear_arith) requires 0 <= y, 0 <= w;
    assert((y + 1) * w <= h * w) by (nonlinear_arith) requires y + 1 <= h, 0 <= w;
    assert((y + 1) * w == y * w + w) by (nonlinear_arith);
}

proof fn lemma_pixel_in_canvas(w: int, h: int, x: int, y: int)
    requires
        0 <= x < w,
        0 <= y < h,
    ensures
        0 <= (y * w + x) * 4,
        (y * w + x) * 4 + 4 <= h * w * 4,
{
    assert(0 <= y * w) by (nonlinear_arith) requires 0 <= y, 0 <= w;
    assert((y + 1) * w <= h * w) by (nonlinear_arith) requires y + 1 <= h, 0 <= w;
    assert((y + 1) * w == y * w + w) by (nonlinear_arith);
    assert((h * w) * 4 == h * w * 4);
}

/// Writing one pixel changes that pixel and no other.
proof fn lemma_write4_pixel(c: Seq<u8>, w: int, h: int, x0: int, y0: int, px: Seq<u8>, x: int, y: int)
    requires
        c.len() == h * w * 4,
        px.len() == 4,
        0 <= x0 < w,
        0 <= y0 < h,
        0 <= x < w,
        0 <= y < h,
    ensures
        write4(c, (y0 * w + x0) * 4, px).len() == c.len(),
        pixel_at(write4(c, (y0 * w + x0) * 4, px), w, x, y)
            == if x == x0 && y == y0 { px } else { pixel_at(c, w, x, y) },
{
    lemma_pixel_in_canvas(w, h, x0, y0);
    lemma_pixel_in_canvas(w, h, x, y);
    let c2 = write4(c, (y0 * w + x0) * 4, px);
    if x == x0 && y == y0 {
        assert(pixel_at(c2, w, x, y) =~= px);
    } else {
        lemma_pixel_index_distinct(w, h, x, y, x0, y0);
        assert(pixel_at(c2, w, x, y) =~= pixel_at(c, w, x, y));
    }
}

proof fn lemma_blend_row_effect(c: Seq<u8>, f: StoredFrame, w: int, h: int, y: int, n: nat)
    requires
        frame_inside(f, w, h),
        c.len() == h * w * 4,
        0 <= y < f.height,
        n <= f.width,
    ensures
        blend_row(c, f, w, 4, y, n).len() == c.len(),
        forall|xx: int, yy: int| 0 <= xx < w && 0 <= yy < h ==>
            #[trigger] pixel_at(blend_row(c, f, w, 4, y, n), w, xx, yy) ==
                if yy == f.y_offset + y && f.x_offset <= xx < f.x_offset + n {
                    blend_pixel(pixel_at(c, w, xx, yy), frame_pixel(f, xx - f.x_offset, y), f.blend_op)
                } else {
                    pixel_at(c, w, xx, yy)
                },
    decreases n,
{
    if n > 0 {
        lemma_blend_row_effect(c, f, w, h, y, (n - 1) as nat);
        let prev = blend_row(c, f, w, 4, y, (n - 1) as nat);
        let x0 = f.x_offset + n - 1;
        let y0 = f.y_offset + y;
        assert(dest_offset(f, w, 4, y, n - 1) == (y0 * w + x0) * 4);
        assert(prev.subrange((y0 * w + x0) * 4, (y0 * w + x0) * 4 + 4) == pixel_at(prev, w, x0, y0));
        let px = blend_pixel(pixel_at(prev, w, x0, y0), frame_pixel(f, n - 1, y), f.blend_op);
        assert(px.len() == 4) by {
            lemma_pixel_in_canvas(w, h, x0, y0);
            assert(src_offset(f, 4, y, n - 1) + 4 <= f.data.len()) by {
                let fw = f.width as int;
                let fh = f.height as int;
                assert((y * fw + n - 1) * 4 + 4 <= fh * fw * 4) by (nonlinear_arith)
                    requires 0 <= y < fh, 1 <= n <= fw;
            }
            assert(0 <= src_offset(f, 4, y, n - 1)) by (nonlinear_arith)
                requires 0 <= y, 1 <= n, f.width >= 0;
        }
        assert forall|xx: int, yy: int| 0 <= xx < w && 0 <= yy < h implies
            #[trigger] pixel_at(blend_row(c, f, w, 4, y, n), w, xx, yy) ==
                if yy == f.y_offset + y && f.x_offset <= xx < f.x_offset + n {
                    blend_pixel(pixel_at(c, w, xx, yy), frame_pixel(f, xx - f.x_offset, y), f.blend_op)
                } else {
                    pixel_at(c, w, xx, yy)
                } by {
            lemma_write4_pixel(prev, w, h, x0, y0, px, xx, yy);
            assert(pixel_at(prev, w, xx, yy) == if yy == f.y_offset + y && f.x_offset <= xx < f.x_offset + n - 1 {
                    blend_pixel(pixel_at(c, w, xx, yy), frame_pixel(f, xx - f.x_offset, y), f.blend_op)
                } else {
                    pixel_at(c, w, xx, yy)
                });
            assert(pixel_at(prev, w, x0, y0) == pixel_at(c, w, x0, y0));
        }
        lemma_write4_pixel(prev, w, h, x0, y0, px, 0, 0);
    }
}

/// Compositing a frame that lies inside the canvas changes exactly the
/// pixels of its rectangle, each to the blend of the frame's pixel onto the
/// canvas pixel; every other pixel stays.
pub proof fn lemma_blended_pixels(c: Seq<u8>, f: StoredFrame, w: int, h: int, m: nat)
    requires
        frame_inside(f, w, h),
        c.len() == h * w * 4,
        m <= f.height,
    ensures
        blend_rows(c, f, w, 4, m).len() == c.len(),
        forall|xx: int, yy: int| 0 <= xx < w && 0 <= yy < h ==>
            #[trigger] pixel_at(blend_rows(c, f, w, 4, m), w, xx, yy) ==
                if f.y_offset <= yy < f.y_offset + m && f.x_offset <= xx < f.x_offset + f.width {
                    blend_pixel(pixel_at(c, w, xx, yy), frame_pixel(f, xx - f.x_offset, yy - f.y_offset), f.blend_op)
                } else {
                    pixel_at(c, w, xx, yy)
                },
    decreases m,
{
    if m > 0 {
        lemma_blended_pixels(c, f, w, h, (m - 1) as nat);
        let prev = blend_rows(c, f, w, 4, (m - 1) as nat);
        lemma_blend_row_effect(prev, f, w, h, m - 1, f.width as nat);
    }
}


proof fn lemma_clear_row_effect(c: Seq<u8>, f: StoredFrame, w: int, h: int, y: int, n: nat)
    requires
        frame_inside(f, w, h),
        c.len() == h * w * 4,
        0 <= y < f.height,
        n <= f.width,
    ensures
        clear_row(c, f, w, 4, y, n).len() == c.len(),
        forall|xx: int, yy: int| 0 <= xx < w && 0 <= yy < h ==>
            #[trigger] pixel_at(clear_row(c, f, w, 4, y, n), w, xx, yy) ==
                if yy == f.y_offset + y && f.x_offset <= xx < f.x_offset + n {
                    seq![0u8, 0u8, 0u8, 0u8]
                } else {
                    pixel_at(c, w, xx, yy)
                },
    decreases n,
{
    if n > 0 {
        lemma_clear_row_effect(c, f, w, h, y, (n - 1) as nat);
        let prev = clear_row(c, f, w, 4, y, (n - 1) as nat);
        let x0 = f.x_offset + n - 1;
        let y0 = f.y_offset + y;
        assert(dest_offset(f, w, 4, y, n - 1) == (y0 * w + x0) * 4);
        assert forall|xx: int, yy: int| 0 <= xx < w && 0 <= yy < h implies
            #[trigger] pixel_at(clear_row(c, f, w, 4, y, n), w, xx, yy) ==
                if yy == f.y_offset + y && f.x_offset <= xx < f.x_offset + n {
                    seq![0u8, 0u8, 0u8, 0u8]
                } else {
                    pixel_at(c, w, xx, yy)
                } by {
            lemma_write4_pixel(prev, w, h, x0, y0, seq![0u8, 0u8, 0u8, 0u8], xx, yy);
        }
        lemma_write4_pixel(prev, w, h, x0, y0, seq![0u8, 0u8, 0u8, 0u8], 0, 0);
    }
}

/// Clearing a frame that lies inside the canvas turns exactly the pixels of
/// its rectangle to transparent black; every other pixel stays.
pub proof fn lemma_cleared_pixels(c: Seq<u8>, f: StoredFrame, w: int, h: int, m: nat)
    requires
        frame_inside(f, w, h),
        c.len() == h * w * 4,
        m <= f.height,
    ensures
        clear_rows(c, f, w, 4, m).len() == c.len(),
        forall|xx: int, yy: int| 0 <= xx < w && 0 <= yy < h ==>
            #[trigger] pixel_at(clear_rows(c, f, w, 4, m), w, xx, yy) ==
                if f.y_offset <= yy < f.y_offset + m && f.x_offset <= xx < f.x_offset + f.width {
                    seq![0u8, 0u8, 0u8, 0u8]
                } else {
                    pixel_at(c, w, xx, yy)
                },
    decreases m,
{
    if m > 0 {
        lemma_cleared_pixels(c, f, w, h, (m - 1) as nat);
        let prev = clear_rows(c, f, w, 4, (m - 1) as nat);
        lemma_clear_row_effect(prev, f, w, h, m - 1, f.width as nat);
    }
}

/// Disposing a frame (other than the first) to the previous canvas undoes
/// it: the next frame is drawn on the canvas this frame was drawn on.
pub proof fn lemma_dispose_previous_restores(apng: ApngImage, i: nat)
    requires
        0 < i < apng.frames@.len(),
        apng.frames@[i as int].dispose_op == 2,
    ensures
        canvas_before(apng, i + 1) == canvas_before(apng, i),
{
}


proof fn lemma_floor_div(n: int, d: int)
    requires
        d > 0,
        n >= 0,
    ensures
        d * (n / d) <= n < d * (n / d + 1),
        n / d >= 0,
{
    vstd::arithmetic::div_mod::lemma_fundamental_div_mod(n, d);
    vstd::arithmetic::div_mod::lemma_mod_bound(n, d);
    vstd::arithmetic::div_mod::lemma_div_pos_is_pos(n, d);
    assert(d * (n / d + 1) == d * (n / d) + d) by (nonlinear_arith);
}

proof fn lemma_weighted_byte(s: u8, d: u8, u: int, v: int)
    requires
        u > 0,
        v > 0,
    ensures
        over_channel(s, d, u, v) as int * (u + v) <= s * u + d * v < (over_channel(s, d, u, v) as int + 1) * (u + v),
{
    let n = s * u + d * v;
    assert(0 <= n <= 255 * (u + v)) by (nonlinear_arith) requires n == s * u + d * v, u > 0, v > 0, s <= 255, d <= 255, s >= 0, d >= 0;
    lemma_floor_div(n, u + v);
    let q = n / (u + v);
    assert(q <= 255) by (nonlinear_arith) requires (u + v) * q <= n, n <= 255 * (u + v), u + v > 0;
    assert(over_channel(s, d, u, v) as int == q);
    assert((u + v) * q == q * (u + v)) by (nonlinear_arith);
    assert((u + v) * (q + 1) == (q + 1) * (u + v)) by (nonlinear_arith);
}

/// Drawing with OVER a partly transparent source pixel onto a pixel that is
/// not fully transparent mixes them as the APNG specification says: with
/// source alpha `sa` and destination alpha `da`, the source weighs
/// `255 * sa` and the destination `(255 - sa) * da`; the new alpha is the
/// sum of the weights over 255 and each colour channel the weighted mean,
/// both rounded down. So the result is opaque only when that sum is.
pub proof fn lemma_over_mix(dst: Seq<u8>, src: Seq<u8>, op: u8)
    requires
        dst.len() == 4,
        src.len() == 4,
        op != 0,
        0 < src[3] < 255,
        dst[3] != 0,
    ensures
        ({
            let r = blend_pixel(dst, src, op);
            let ws = 255 * src[3];
            let wd = (255 - src[3]) * dst[3];
            &&& r.len() == 4
            &&& 255 * r[3] <= ws + wd < 255 * (r[3] + 1)
            &&& forall|ch: int| 0 <= ch < 3 ==>
                #[trigger] r[ch] * (ws + wd) <= src[ch] * ws + dst[ch] * wd < (r[ch] + 1) * (ws + wd)
            &&& (dst[3] < 255 ==> r[3] < 255)
        }),
{
    let sa = src[3] as int;
    let da = dst[3] as int;
    let u = sa * 255;
    let v = (255 - sa) * da;
    assert(u > 0 && v > 0) by (nonlinear_arith) requires 0 < sa < 255, 0 < da, u == sa * 255, v == (255 - sa) * da;
    assert(u + v <= 255 * 255) by (nonlinear_arith) requires u == sa * 255, v == (255 - sa) * da, da <= 255, 0 < sa < 255;
    let r = blend_pixel(dst, src, op);
    lemma_floor_div(u + v, 255);
    assert((u + v) / 255 <= 255) by (nonlinear_arith) requires 255 * ((u + v) / 255) <= u + v, u + v <= 255 * 255;
    assert(r[3] as int == (u + v) / 255);
    assert(255 * sa == u);
    lemma_weighted_byte(src[0], dst[0], u, v);
    lemma_weighted_byte(src[1], dst[1], u, v);
    lemma_weighted_byte(src[2], dst[2], u, v);
    assert forall|ch: int| 0 <= ch < 3 implies
        #[trigger] r[ch] * (u + v) <= src[ch] * u + dst[ch] * v < (r[ch] + 1) * (u + v) by {
        assert(r[ch] == over_channel(src[ch], dst[ch], u, v));
    }
    if da < 255 {
        assert(u + v < 255 * 255) by (nonlinear_arith) requires u == sa * 255, v == (255 - sa) * da, da < 255, 0 < sa < 255;
        assert(r[3] < 255) by (nonlinear_arith) requires 255 * r[3] <= u + v, u + v < 255 * 255;
    }
}

/// On the canvas: where a frame drawn with OVER puts a partly transparent
/// pixel over a pixel that is not fully transparent, the canvas pixel
/// becomes the APNG mix of the two (see `lemma_over_mix`).
pub proof fn lemma_blend_over_mixes(c: Seq<u8>, f: StoredFrame, w: int, h: int, x: int, y: int)
    requires
        frame_inside(f, w, h),
        c.len() == h * w * 4,
        f.blend_op != 0,
        f.x_offset <= x < f.x_offset + f.width,
        f.y_offset <= y < f.y_offset + f.height,
        0 < frame_pixel(f, x - f.x_offset, y - f.y_offset)[3] < 255,
        pixel_at(c, w, x, y)[3] != 0,
    ensures
        ({
            let src = frame_pixel(f, x - f.x_offset, y - f.y_offset);
            let dst = pixel_at(c, w, x, y);
            let r = pixel_at(blended(c, f, w, 4), w, x, y);
            let ws = 255 * src[3];
            let wd = (255 - src[3]) * dst[3];
            &&& 255 * r[3] <= ws + wd < 255 * (r[3] + 1)
            &&& forall|ch: int| 0 <= ch < 3 ==>
                #[trigger] r[ch] * (ws + wd) <= src[ch] * ws + dst[ch] * wd < (r[ch] + 1) * (ws + wd)
        }),
{
    lemma_blended_pixels(c, f, w, h, f.height as nat);
    let src = frame_pixel(f, x - f.x_offset, y - f.y_offset);
    let dst = pixel_at(c, w, x, y);
    assert(0 <= x < w && 0 <= y < h);
    assert(pixel_at(blended(c, f, w, 4), w, x, y) == blend_pixel(dst, src, f.blend_op));
    let fx = x - f.x_offset;
    let fy = y - f.y_offset;
    let fw = f.width as int;
    let fh = f.height as int;
    assert(0 <= (y * w + x) * 4 && (y * w + x) * 4 + 4 <= h * w * 4) by (nonlinear_arith)
        requires 0 <= x < w, 0 <= y < h;
    assert(0 <= (fy * fw + fx) * 4 && (fy * fw + fx) * 4 + 4 <= fh * fw * 4) by (nonlinear_arith)
        requires 0 <= fx < fw, 0 <= fy < fh;
    assert(dst.len() == 4);
    assert(src.len() == 4);
    lemma_over_mix(dst, src, f.blend_op);
}

/// The other compositing cases: SOURCE replaces the pixel; with OVER an
/// opaque source covers it, a fully transparent source leaves it, and a
/// source over a fully transparent pixel replaces it.
pub proof fn lemma_blend_cases(dst: Seq<u8>, src: Seq<u8>, op: u8)
    requires
        dst.len() == 4,
        src.len() == 4,
    ensures
        op == 0 ==> blend_pixel(dst, src, op) == src,
        op != 0 && src[3] == 255 ==> blend_pixel(dst, src, op) == src,
        op != 0 && src[3] == 0 ==> blend_pixel(dst, src, op) == dst,
        op != 0 && dst[3] == 0 ==> blend_pixel(dst, src, op) == src || (src[3] == 0 && blend_pixel(dst, src, op) == dst),
{
}
} // verus!
