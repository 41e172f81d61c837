//! Animated PNG optimisation: frame reconstruction, palette quantization,
//! dirty-rectangle search, scanline filtering, compression and chunk-level
//! encoding.

pub mod args;
pub mod bytes;
pub mod chunk;
pub mod compress;
pub mod decoder;
pub mod encoder;
pub mod filter;
pub mod optimizer;
pub mod quantize;
pub mod reconstruct;

use vstd::prelude::*;
use crate::bytes::append_bytes;
use crate::decoder::{decoded_frames, frame_count_of, frames_are_rgba, load_apng_from_memory, loops_of, png_header, png_info_error, stored_frames, ApngImage, Frame};
use crate::encoder::{apng_file, frame_views, save_apng_to_memory};
use crate::optimizer::{
    best_filtered, get_rect_candidates, lemma_candidates_fit, optimize_rect, rect_candidates,
    rect_fits, FrameView, OptimizedFrame, RectResult, RectView,
};
use crate::quantize::{frame_bytes, quantize_frames, valid_quantization, QuantizedData, QuantizedView};
use crate::reconstruct::{check_reconstructible, canvas_len, canvas_before, full_frame, lemma_blended_len, lemma_canvas_before_len, reconstruct_frames, reconstructible};

verus! {

/// How to optimise: compression method (0 zlib, 1 zlib, 2 zopfli), zopfli
/// iterations, and whether to keep true colour (non-zero) instead of
/// quantizing to a palette (0).
pub struct OptimizeOptions {
    pub z_method: u8,
    pub iterations: u32,
    pub disable_imagequant: u8,
}

/// The first of the first `n` positions of `s` whose value is below `limit`.
pub open spec fn first_below(s: Seq<u8>, limit: u8, n: nat) -> Option<int>
    decreases n,
{
    if n == 0 {
        None
    } else {
        match first_below(s, limit, (n - 1) as nat) {
            Some(i) => Some(i),
            None => if s[n - 1] < limit { Some(n - 1) } else { None },
        }
    }
}

/// The palette index that stands for "transparent": the first fully
/// transparent entry, or else the first entry that is not fully opaque; none
/// when every entry is opaque.
pub open spec fn transparent_color(trns: Seq<u8>) -> (bool, u8) {
    match first_below(trns, 1, trns.len()) {
        Some(i) => (true, i as u8),
        None => match first_below(trns, 255, trns.len()) {
            Some(i) => (true, i as u8),
            None => (false, 0),
        },
    }
}

fn first_index_below(s: &[u8], limit: u8) -> (r: Option<usize>)
    ensures
        match r {
            Some(i) => first_below(s@, limit, s@.len()) == Some(i as int),
            None => first_below(s@, limit, s@.len()) is None,
        },
{
    let mut i: usize = 0;
    while i < s.len()
        invariant
            i <= s@.len(),
            first_below(s@, limit, i as nat) is None,
        decreases s@.len() - i,
    {
        if s[i] < limit {
            proof { lemma_first_below_extends(s@, limit, (i + 1) as nat, s@.len()); }
            return Some(i);
        }
        i = i + 1;
    }
    None
}

proof fn lemma_first_below_extends(s: Seq<u8>, limit: u8, n: nat, m: nat)
    requires
        n <= m,
        first_below(s, limit, n) is Some,
    ensures
        first_below(s, limit, m) == first_below(s, limit, n),
    decreases m - n,
{
    if m > n {
        lemma_first_below_extends(s, limit, n, (m - 1) as nat);
    }
}

/// Finds the palette index that stands for "transparent" from the palette's alphas.
pub fn find_transparent_color(trns: &[u8]) -> (r: (bool, u8))
    ensures
        r == transparent_color(trns@),
{
    match first_index_below(trns, 1) {
        Some(idx) => (true, idx as u8),
        None => match first_index_below(trns, 255) {
            Some(idx) => (true, idx as u8),
            None => (false, 0),
        },
    }
}

/// The views of the canvases.
pub open spec fn canvas_views(canvases: Seq<Vec<u8>>) -> Seq<Seq<u8>> {
    canvases.map_values(|c: Vec<u8>| c@)
}

/// The candidates for frame `i`: the whole first canvas drawn with SOURCE for
/// the first frame, otherwise the candidates for drawing canvas `i` over
/// canvas `i - 1`.
#[verifier::opaque]
pub open spec fn candidate_views(apng: ApngImage, canvases: Seq<Seq<u8>>, bpp: int, has_tcolor: bool, tcolor: u8, i: int) -> Seq<RectView> {
    if i == 0 {
        seq![RectView { x: 0, y: 0, w: apng.width, h: apng.height, blend_op: 0, dispose_op: 0, data: canvases[0] }]
    } else {
        rect_candidates(canvases[i - 1], canvases[i], apng.width as int, apng.height as int, 0, bpp, has_tcolor, tcolor)
    }
}

/// The compressed data of a candidate, with its best filter.
pub open spec fn rect_compressed(r: RectView, options: OptimizeOptions, bpp: nat) -> Seq<u8> {
    best_filtered(r, options.z_method, options.iterations, bpp, 5)
}

/// The candidate with the shortest compressed data among the first `n`,
/// the earliest winning ties, with that data.
pub open spec fn best_candidate(cands: Seq<RectView>, options: OptimizeOptions, bpp: nat, n: nat) -> (RectView, Seq<u8>)
    decreases n,
{
    if n <= 1 {
        (cands[0], rect_compressed(cands[0], options, bpp))
    } else {
        let (r, c) = best_candidate(cands, options, bpp, (n - 1) as nat);
        let cc = rect_compressed(cands[n - 1], options, bpp);
        if cc.len() < c.len() { (cands[n - 1], cc) } else { (r, c) }
    }
}

/// The frames written for the first `n` frames of the animation: a frame with
/// no candidate (identical to the previous one) is dropped and its delay is
/// added to the previous written frame when both delays have the same
/// denominator; otherwise the best candidate is written with the frame's
/// delay. `None` when such a sum of delays does not fit in 16 bits.
#[verifier::opaque]
pub open spec fn frame_plan(apng: ApngImage, canvases: Seq<Seq<u8>>, bpp: nat, has_tcolor: bool, tcolor: u8, options: OptimizeOptions, n: nat) -> Option<Seq<FrameView>>
    decreases n,
{
    if n == 0 {
        Some(seq![])
    } else {
        match frame_plan(apng, canvases, bpp, has_tcolor, tcolor, options, (n - 1) as nat) {
            None => None,
            Some(prev) => plan_step(prev, apng.frames@[n - 1],
                candidate_views(apng, canvases, bpp as int, has_tcolor, tcolor, n - 1), options, bpp),
        }
    }
}

/// One more frame extends the plan by one step.
pub proof fn lemma_plan_unfold(apng: ApngImage, canvases: Seq<Seq<u8>>, bpp: nat, has_tcolor: bool, tcolor: u8, options: OptimizeOptions, n: nat)
    ensures
        frame_plan(apng, canvases, bpp, has_tcolor, tcolor, options, 0) == Some(Seq::<FrameView>::empty()),
        frame_plan(apng, canvases, bpp, has_tcolor, tcolor, options, n + 1) == match frame_plan(apng, canvases, bpp, has_tcolor, tcolor, options, n) {
            None => None,
            Some(prev) => plan_step(prev, apng.frames@[n as int],
                candidate_views(apng, canvases, bpp as int, has_tcolor, tcolor, n as int), options, bpp),
        },
{
    reveal(frame_plan);
}

/// The frames written after one more frame `fr` with candidates `cands`.
#[verifier::opaque]
pub open spec fn plan_step(prev: Seq<FrameView>, fr: Frame, cands: Seq<RectView>, options: OptimizeOptions, bpp: nat) -> Option<Seq<FrameView>> {
    if cands.len() == 0 {
        if prev.len() > 0 && prev.last().delay_den == fr.delay_den {
            let sum = prev.last().delay_num + fr.delay_num;
            if sum > u16::MAX {
                None
            } else {
                Some(prev.update(prev.len() - 1, FrameView { delay_num: sum as u16, ..prev.last() }))
            }
        } else {
            Some(prev)
        }
    } else {
        let (r, c) = best_candidate(cands, options, bpp, cands.len());
        Some(prev.push(FrameView {
            x: r.x,
            y: r.y,
            w: r.w,
            h: r.h,
            blend_op: r.blend_op,
            dispose_op: r.dispose_op,
            delay_num: fr.delay_num,
            delay_den: fr.delay_den,
            data: c,
        }))
    }
}

/// The number of the first `n` frames that have a candidate, that is, that
/// differ from the frame before them (the first frame always does).
pub open spec fn frames_with_candidates(apng: ApngImage, canvases: Seq<Seq<u8>>, bpp: nat, has_tcolor: bool, tcolor: u8, n: nat) -> nat
    decreases n,
{
    if n == 0 {
        0
    } else {
        frames_with_candidates(apng, canvases, bpp, has_tcolor, tcolor, (n - 1) as nat)
            + if candidate_views(apng, canvases, bpp as int, has_tcolor, tcolor, n - 1).len() > 0 { 1nat } else { 0nat }
    }
}

/// One frame is written for each frame that has a candidate, and none for a
/// frame identical to the one before it.
pub proof fn lemma_plan_frame_count(apng: ApngImage, canvases: Seq<Seq<u8>>, bpp: nat, has_tcolor: bool, tcolor: u8, options: OptimizeOptions, n: nat)
    ensures
        frame_plan(apng, canvases, bpp, has_tcolor, tcolor, options, n) matches Some(fs)
            ==> fs.len() == frames_with_candidates(apng, canvases, bpp, has_tcolor, tcolor, n),
    decreases n,
{
    lemma_plan_unfold(apng, canvases, bpp, has_tcolor, tcolor, options, 0);
    if n > 0 {
        lemma_plan_frame_count(apng, canvases, bpp, has_tcolor, tcolor, options, (n - 1) as nat);
        lemma_plan_unfold(apng, canvases, bpp, has_tcolor, tcolor, options, (n - 1) as nat);
        reveal(plan_step);
    }
}

/// The candidate written for a frame has compressed data no longer than that
/// of any other candidate, and every candidate before it has strictly longer
/// data: the earliest of the shortest wins, so OVER (listed after SOURCE) is
/// used only when it is strictly shorter.
pub proof fn lemma_best_candidate_is_shortest(cands: Seq<RectView>, options: OptimizeOptions, bpp: nat, n: nat)
    requires
        1 <= n <= cands.len(),
    ensures
        exists|j: int| 0 <= j < n && #[trigger] best_candidate(cands, options, bpp, n) == (cands[j], rect_compressed(cands[j], options, bpp))
            && forall|k: int| 0 <= k < j ==> best_candidate(cands, options, bpp, n).1.len() < (#[trigger] rect_compressed(cands[k], options, bpp)).len(),
        forall|k: int| 0 <= k < n ==> best_candidate(cands, options, bpp, n).1.len() <= (#[trigger] rect_compressed(cands[k], options, bpp)).len(),
    decreases n,
{
    if n == 1 {
        assert(best_candidate(cands, options, bpp, n) == (cands[0], rect_compressed(cands[0], options, bpp)));
    } else {
        lemma_best_candidate_is_shortest(cands, options, bpp, (n - 1) as nat);
        let (r, c) = best_candidate(cands, options, bpp, (n - 1) as nat);
        let cc = rect_compressed(cands[n - 1], options, bpp);
        let j = choose|j: int| 0 <= j < n - 1 && #[trigger] best_candidate(cands, options, bpp, (n - 1) as nat) == (cands[j], rect_compressed(cands[j], options, bpp))
            && forall|k: int| 0 <= k < j ==> best_candidate(cands, options, bpp, (n - 1) as nat).1.len() < (#[trigger] rect_compressed(cands[k], options, bpp)).len();
        if cc.len() < c.len() {
            assert(best_candidate(cands, options, bpp, n) == (cands[n - 1], cc));
            assert(forall|k: int| 0 <= k < n - 1 ==> cc.len() < (#[trigger] rect_compressed(cands[k], options, bpp)).len());
        } else {
            assert(best_candidate(cands, options, bpp, n) == (r, c));
            assert(best_candidate(cands, options, bpp, n) == (cands[j], rect_compressed(cands[j], options, bpp)));
        }
    }
}

/// A frame with candidates is written as one of them, with the compressed
/// data of that candidate: no longer than the data of any other candidate,
/// and strictly shorter than that of every candidate listed before it.
pub proof fn lemma_written_frame_is_shortest(prev: Seq<FrameView>, fr: Frame, cands: Seq<RectView>, options: OptimizeOptions, bpp: nat)
    requires
        cands.len() > 0,
    ensures
        exists|j: int| 0 <= j < cands.len() && #[trigger] plan_step(prev, fr, cands, options, bpp) == Some(prev.push(FrameView {
            x: cands[j].x,
            y: cands[j].y,
            w: cands[j].w,
            h: cands[j].h,
            blend_op: cands[j].blend_op,
            dispose_op: cands[j].dispose_op,
            delay_num: fr.delay_num,
            delay_den: fr.delay_den,
            data: rect_compressed(cands[j], options, bpp),
        })) && forall|k: int| 0 <= k < j ==> rect_compressed(cands[j], options, bpp).len() < (#[trigger] rect_compressed(cands[k], options, bpp)).len(),
        plan_step(prev, fr, cands, options, bpp) matches Some(fs) && forall|k: int| 0 <= k < cands.len()
            ==> fs.last().data.len() <= (#[trigger] rect_compressed(cands[k], options, bpp)).len(),
{
    reveal(plan_step);
    lemma_best_candidate_is_shortest(cands, options, bpp, cands.len());
    let n = cands.len();
    let j = choose|j: int| 0 <= j < n && #[trigger] best_candidate(cands, options, bpp, n) == (cands[j], rect_compressed(cands[j], options, bpp))
        && forall|k: int| 0 <= k < j ==> best_candidate(cands, options, bpp, n).1.len() < (#[trigger] rect_compressed(cands[k], options, bpp)).len();
    assert(plan_step(prev, fr, cands, options, bpp) == Some(prev.push(FrameView {
        x: cands[j].x,
        y: cands[j].y,
        w: cands[j].w,
        h: cands[j].h,
        blend_op: cands[j].blend_op,
        dispose_op: cands[j].dispose_op,
        delay_num: fr.delay_num,
        delay_den: fr.delay_den,
        data: rect_compressed(cands[j], options, bpp),
    })));
}

/// The transparent index used with an optional palette alpha table.
pub open spec fn tcolor_of(transparency: Option<Seq<u8>>) -> (bool, u8) {
    match transparency {
        Some(t) => transparent_color(t),
        None => (false, 0),
    }
}

/// The file written for the canvases (RGBA with `bpp` 4, palette indices with
/// `bpp` 1), or `None` when a merged delay does not fit in 16 bits.
pub open spec fn encoded_animation(
    apng: ApngImage,
    canvases: Seq<Seq<u8>>,
    bpp: nat,
    palette: Option<Seq<[u8; 3]>>,
    transparency: Option<Seq<u8>>,
    options: OptimizeOptions,
) -> Option<Seq<u8>> {
    let (has_tcolor, tcolor) = tcolor_of(transparency);
    match frame_plan(apng, canvases, bpp, has_tcolor, tcolor, options, apng.frames@.len()) {
        Some(frames) => Some(apng_file(apng.width, apng.height, apng.loops, frames, palette, transparency)),
        None => None,
    }
}

proof fn lemma_plan_none_persists(apng: ApngImage, canvases: Seq<Seq<u8>>, bpp: nat, has_tcolor: bool, tcolor: u8, options: OptimizeOptions, n: nat, m: nat)
    requires
        n <= m,
        frame_plan(apng, canvases, bpp, has_tcolor, tcolor, options, n) is None,
    ensures
        frame_plan(apng, canvases, bpp, has_tcolor, tcolor, options, m) is None,
    decreases m - n,
{
    if m > n {
        lemma_plan_none_persists(apng, canvases, bpp, has_tcolor, tcolor, options, n, (m - 1) as nat);
        lemma_plan_unfold(apng, canvases, bpp, has_tcolor, tcolor, options, (m - 1) as nat);
    }
}

fn copy_bytes(src: &[u8]) -> (out: Vec<u8>)
    ensures
        out@ == src@,
{
    let mut out: Vec<u8> = Vec::new();
    append_bytes(&mut out, src);
    out
}

pub open spec fn opt_palette_view(p: Option<&[[u8; 3]]>) -> Option<Seq<[u8; 3]>> {
    match p {
        Some(s) => Some(s@),
        None => None,
    }
}

pub open spec fn opt_bytes_view(p: Option<&[u8]>) -> Option<Seq<u8>> {
    match p {
        Some(s) => Some(s@),
        None => None,
    }
}

/// The canvases have the animation's size and `bpp` bytes per pixel.
#[verifier::opaque]
pub open spec fn canvases_match(apng: ApngImage, canvases: Seq<Seq<u8>>, bpp: int) -> bool {
    &&& bpp == 1 || bpp == 4
    &&& canvases.len() == apng.frames@.len()
    &&& forall|i: int| 0 <= i < canvases.len() ==> (#[trigger] canvases[i]).len() == apng.height * apng.width * bpp
    &&& apng.width * bpp <= usize::MAX
    &&& apng.height * apng.width * bpp <= usize::MAX
    &&& apng.frames@.len() * 2 <= u32::MAX
}


/// The views of the candidates.
pub open spec fn rect_views(cands: Seq<RectResult>) -> Seq<RectView> {
    cands.map_values(|c: RectResult| c@)
}

/// Compresses every candidate with its best filter and returns the one whose
/// compressed data is shortest (the earliest on ties) with that data.
fn choose_best(candidates: Vec<RectResult>, options: &OptimizeOptions, bpp: usize) -> (r: (RectResult, Vec<u8>))
    requires
        candidates@.len() > 0,
        forall|k: int| 0 <= k < candidates@.len() ==> rect_fits(#[trigger] candidates@[k]@, bpp as int),
    ensures
        (r.0@, r.1@) == best_candidate(rect_views(candidates@), *options, bpp as nat, candidates@.len()),
{
    let ghost all = rect_views(candidates@);
    let total_len = candidates.len();
    let ghost total = total_len as nat;
    let mut rest = candidates;
    let first = rest.remove(0);
    assert(all[0] == first@);
    let mut best_data = optimize_rect(&first, options.z_method, options.iterations, bpp);
    let mut best_rect = first;
    let mut k: usize = 1;
    while rest.len() > 0
        invariant
            1 <= k <= total,
            total <= usize::MAX,
            all.len() == total,
            rest@.len() == total - k,
            forall|j: int| 0 <= j < rest@.len() ==> (#[trigger] rest@[j])@ == all[k + j],
            forall|j: int| 0 <= j < rest@.len() ==> rect_fits(#[trigger] rest@[j]@, bpp as int),
            (best_rect@, best_data@) == best_candidate(all, *options, bpp as nat, k as nat),
        decreases rest@.len(),
    {
        let ghost before = rest@;
        let cand = rest.remove(0);
        assert(cand@ == all[k as int]);
        assert(rect_fits(before[0]@, bpp as int));
        let compressed = optimize_rect(&cand, options.z_method, options.iterations, bpp);
        if compressed.len() < best_data.len() {
            best_data = compressed;
            best_rect = cand;
        }
        assert forall|j: int| 0 <= j < rest@.len() implies (#[trigger] rest@[j])@ == all[k + 1 + j] by {
            assert(rest@[j] == before[j + 1]);
        }
        assert forall|j: int| 0 <= j < rest@.len() implies rect_fits(#[trigger] rest@[j]@, bpp as int) by {
            assert(rest@[j] == before[j + 1]);
        }
        k = k + 1;
    }
    (best_rect, best_data)
}

/// The candidates for frame `i`, each of which can be filtered.
fn frame_candidates(apng: &ApngImage, canvases: &Vec<Vec<u8>>, i: usize, bpp: usize, has_tcolor: bool, tcolor: u8) -> (candidates: Vec<RectResult>)
    requires
        canvases_match(*apng, canvas_views(canvases@), bpp as int),
        i < canvases@.len(),
    ensures
        rect_views(candidates@) == candidate_views(*apng, canvas_views(canvases@), bpp as int, has_tcolor, tcolor, i as int),
        forall|k: int| 0 <= k < candidates@.len() ==> rect_fits(#[trigger] candidates@[k]@, bpp as int),
{
    reveal(candidate_views);
    reveal(canvases_match);
    let ghost cv = canvas_views(canvases@);
    let w = apng.width;
    let h = apng.height;
    let curr = &canvases[i];
    assert(cv[i as int] == curr@);
    assert(curr@.len() == h as int * w as int * bpp as int);
    let mut candidates: Vec<RectResult> = Vec::new();
    if i == 0 {
        let data = copy_bytes(curr.as_slice());
        candidates.push(RectResult { x: 0, y: 0, w, h, blend_op: 0, dispose_op: 0, data });
        assert(rect_views(candidates@) =~= candidate_views(*apng, cv, bpp as int, has_tcolor, tcolor, i as int));
        assert(h as int * w as int * bpp as int == h as int * (w as int * bpp as int)) by (nonlinear_arith);
        assert(rect_fits(candidates@[0]@, bpp as int));
    } else {
        let prev = &canvases[i - 1];
        assert(cv[i - 1] == prev@);
        assert(h as int * w as int <= usize::MAX) by (nonlinear_arith)
            requires h as int * w as int * bpp as int <= usize::MAX, bpp >= 1, h >= 0, w >= 0;
        candidates = get_rect_candidates(prev.as_slice(), curr.as_slice(), w, h, 0, bpp, has_tcolor, tcolor);
        assert(rect_views(candidates@) == candidate_views(*apng, cv, bpp as int, has_tcolor, tcolor, i as int));
        proof {
            lemma_candidates_fit(prev@, curr@, w as int, h as int, 0, bpp as int, has_tcolor, tcolor);
            assert forall|k: int| 0 <= k < candidates@.len() implies rect_fits(#[trigger] candidates@[k]@, bpp as int) by {
                assert(rect_views(candidates@)[k] == candidates@[k]@);
            }
        }
    }
    candidates
}

/// Adds one more frame to the frames written so far: merges it into the last
/// one when it has no candidate, or appends its best candidate. Returns false,
/// leaving nothing defined, when a merged delay does not fit in 16 bits.
fn apply_step(frames: &mut Vec<OptimizedFrame>, candidates: Vec<RectResult>, frame: &Frame, options: &OptimizeOptions, bpp: usize) -> (ok: bool)
    requires
        forall|k: int| 0 <= k < candidates@.len() ==> rect_fits(#[trigger] candidates@[k]@, bpp as int),
    ensures
        ok <==> plan_step(frame_views(old(frames)@), *frame, rect_views(candidates@), *options, bpp as nat) is Some,
        ok ==> plan_step(frame_views(old(frames)@), *frame, rect_views(candidates@), *options, bpp as nat) == Some(frame_views(final(frames)@)),
        final(frames)@.len() <= old(frames)@.len() + 1,
{
    reveal(plan_step);
    if candidates.len() == 0 {
        if frames.len() > 0 {
            let mut last = frames.pop().unwrap();
            if last.delay_den == frame.delay_den {
                let sum: u32 = last.delay_num as u32 + frame.delay_num as u32;
                if sum > 65535 {
                    return false;
                }
                last.delay_num = sum as u16;
            }
            frames.push(last);
        }
        assert(frame_views(frames@) =~= plan_step(frame_views(old(frames)@), *frame, rect_views(candidates@), *options, bpp as nat)->Some_0);
        true
    } else {
        let ghost cands = rect_views(candidates@);
        let (cand, compressed) = choose_best(candidates, options, bpp);
        frames.push(OptimizedFrame {
            x: cand.x,
            y: cand.y,
            w: cand.w,
            h: cand.h,
            blend_op: cand.blend_op,
            dispose_op: cand.dispose_op,
            delay_num: frame.delay_num,
            delay_den: frame.delay_den,
            compressed_data: compressed,
        });
        assert(frame_views(frames@) =~= plan_step(frame_views(old(frames)@), *frame, cands, *options, bpp as nat)->Some_0);
        true
    }
}

/// Turns the canvases (RGBA with `bpp` 4, palette indices with `bpp` 1) into
/// the optimised file: the first frame whole, every later frame as the best
/// of its candidates, frames identical to the previous one dropped with their
/// delay added to the previous frame's. Fails only when such a sum of delays
/// does not fit in 16 bits.
#[verifier::rlimit(40)]
pub fn encode_animation(
    apng: &ApngImage,
    canvases: &Vec<Vec<u8>>,
    bpp: usize,
    palette: Option<&[[u8; 3]]>,
    transparency: Option<&[u8]>,
    options: &OptimizeOptions,
) -> (r: Result<Vec<u8>, String>)
    requires
        canvases_match(*apng, canvas_views(canvases@), bpp as int),
    ensures
        match r {
            Ok(b) => encoded_animation(*apng, canvas_views(canvases@), bpp as nat,
                opt_palette_view(palette), opt_bytes_view(transparency), *options) == Some(b@),
            Err(m) => encoded_animation(*apng, canvas_views(canvases@), bpp as nat,
                opt_palette_view(palette), opt_bytes_view(transparency), *options) is None
                && m@ == "merged frame delay does not fit in 16 bits"@,
        },
{
    let ghost cv = canvas_views(canvases@);
    let w = apng.width;
    let h = apng.height;
    let (has_tcolor, tcolor) = match transparency {
        Some(t) => find_transparent_color(t),
        None => (false, 0),
    };
    assert((has_tcolor, tcolor) == tcolor_of(opt_bytes_view(transparency)));
    let mut optimized_frames: Vec<OptimizedFrame> = Vec::new();
    proof {
        lemma_plan_unfold(*apng, cv, bpp as nat, has_tcolor, tcolor, *options, 0);
        reveal(canvases_match);
    }
    assert(frame_views(optimized_frames@) =~= Seq::<FrameView>::empty());
    let n = canvases.len();
    let mut i: usize = 0;
    while i < n
        invariant
            i <= n,
            n == canvases@.len(),
            n == apng.frames@.len(),
            (has_tcolor, tcolor) == tcolor_of(opt_bytes_view(transparency)),
            cv == canvas_views(canvases@),
            canvases_match(*apng, cv, bpp as int),
            w == apng.width, h == apng.height,
            optimized_frames@.len() <= i,
            frame_plan(*apng, cv, bpp as nat, has_tcolor, tcolor, *options, i as nat) == Some(frame_views(optimized_frames@)),
        decreases n - i,
    {
        let candidates = frame_candidates(apng, canvases, i, bpp, has_tcolor, tcolor);
        let frame = &apng.frames[i];
        let ghost before = frame_views(optimized_frames@);
        let ghost cands = rect_views(candidates@);
        assert(*frame == apng.frames@[i as int]);
        proof { lemma_plan_unfold(*apng, cv, bpp as nat, has_tcolor, tcolor, *options, i as nat); }
        let ghost step = plan_step(before, *frame, cands, *options, bpp as nat);
        assert(cands == candidate_views(*apng, cv, bpp as int, has_tcolor, tcolor, i as int));
        assert(frame_plan(*apng, cv, bpp as nat, has_tcolor, tcolor, *options, (i + 1) as nat) == step);
        let ok = apply_step(&mut optimized_frames, candidates, frame, options, bpp);
        let ghost after = frame_views(optimized_frames@);
        if !ok {
            proof {
                assert(step is None);
                lemma_plan_none_persists(*apng, cv, bpp as nat, has_tcolor, tcolor, *options, (i + 1) as nat, n as nat);
                assert(frame_plan(*apng, cv, bpp as nat, has_tcolor, tcolor, *options, apng.frames@.len()) is None);
                assert(tcolor_of(opt_bytes_view(transparency)) == (has_tcolor, tcolor));
            }
            return Err("merged frame delay does not fit in 16 bits".to_owned());
        }
        assert(step == Some(after));
        i = i + 1;
    }
    proof { reveal(canvases_match); }
    let out = save_apng_to_memory(w, h, apng.loops, optimized_frames.as_slice(), palette, transparency);
    Ok(out)
}


/// The result is the file `e` when `e` is some file, and an error when it is none.
pub open spec fn result_matches(r: Result<Vec<u8>, String>, e: Option<Seq<u8>>) -> bool {
    match r {
        Ok(b) => e == Some(b@),
        Err(_) => e is None,
    }
}

/// The full RGBA canvases of the animation, one per frame.
pub open spec fn full_canvases(apng: ApngImage) -> Seq<Seq<u8>> {
    Seq::new(apng.frames@.len(), |i: int| full_frame(apng, i as nat))
}

/// Every full frame of a reconstructible image has the canvas's size.
pub proof fn lemma_full_frame_len(apng: ApngImage, i: nat)
    requires
        reconstructible(apng),
        i < apng.frames@.len(),
    ensures
        full_frame(apng, i).len() == canvas_len(apng),
{
    lemma_canvas_before_len(apng, i);
    assert(crate::reconstruct::frame_fits(apng.frames@[i as int]@, canvas_len(apng), apng.width as int, 4));
    lemma_blended_len(canvas_before(apng, i), apng.frames@[i as int]@, apng.width as int);
}

/// The file written for the animation after quantization: the palette file
/// for the quantization `q` when there is one, the true-colour file when
/// quantization failed (`None`).
pub open spec fn quantized_file(apng: ApngImage, q: Option<QuantizedView>, options: OptimizeOptions) -> Option<Seq<u8>> {
    match q {
        Some(qv) => encoded_animation(apng, qv.frames, 1, Some(qv.palette), Some(qv.transparency), options),
        None => encoded_animation(apng, full_canvases(apng), 4, None, None, options),
    }
}

/// The quantization that an outcome of `quantize_frames` holds, if any.
pub open spec fn quantization_of(q: Result<QuantizedData, String>) -> Option<QuantizedView> {
    match q {
        Ok(d) => Some(d@),
        Err(_) => None,
    }
}

/// A quantization outcome that libimagequant can give for the image's full
/// canvases: a failure, or a valid quantization of those canvases.
pub open spec fn admissible_quantization(apng: ApngImage, q: Option<QuantizedView>) -> bool {
    q matches Some(qv) ==> valid_quantization(qv, full_canvases(apng), apng.width as nat, apng.height as nat)
}

/// What `optimize_apng_logic` gives for the image: the true-colour file
/// when quantization is disabled; otherwise the file for what quantizing the
/// full canvases gave: the palette file for the quantization when it
/// succeeded, the true-colour file when it failed.
pub open spec fn optimize_outcome(apng: ApngImage, options: OptimizeOptions, r: Result<Vec<u8>, String>) -> bool {
    &&& options.disable_imagequant != 0 ==> result_matches(r, encoded_animation(apng, full_canvases(apng), 4, None, None, options))
    &&& options.disable_imagequant == 0 ==> exists|q: Option<QuantizedView>|
            admissible_quantization(apng, q) && #[trigger] result_matches(r, quantized_file(apng, q, options))
}

/// Encodes the animation from the outcome of quantizing its full canvases:
/// the palette file when quantization succeeded, the true-colour file from
/// `full_frames` when it failed.
pub fn encode_quantized(apng: &ApngImage, full_frames: &Vec<Vec<u8>>, quantized: Result<QuantizedData, String>, options: &OptimizeOptions) -> (r: Result<Vec<u8>, String>)
    requires
        reconstructible(*apng),
        apng.frames@.len() * 2 <= u32::MAX,
        canvas_views(full_frames@) == full_canvases(*apng),
        admissible_quantization(*apng, quantization_of(quantized)),
    ensures
        result_matches(r, quantized_file(*apng, quantization_of(quantized), *options)),
{
    let ghost w = apng.width as int;
    let ghost h = apng.height as int;
    proof {
        assert(h * (w * 4) == h * w * 4) by (nonlinear_arith);
        assert(full_frames@.len() == apng.frames@.len()) by {
            assert(canvas_views(full_frames@).len() == full_frames@.len());
            assert(full_canvases(*apng).len() == apng.frames@.len());
        }
        assert forall|i: int| 0 <= i < full_frames@.len() implies (#[trigger] full_frames@[i])@.len() == h * w * 4 by {
            lemma_full_frame_len(*apng, i as nat);
            assert(canvas_views(full_frames@)[i] == full_canvases(*apng)[i]);
        }
    }
    match quantized {
        Ok(q) => {
            proof {
                reveal(canvases_match);
                assert(full_canvases(*apng).len() == apng.frames@.len());
                assert(w * 1 <= usize::MAX);
                assert(h * w * 1 <= usize::MAX) by (nonlinear_arith)
                    requires h * (w * 4) <= usize::MAX, h >= 0, w >= 0;
                assert(w * h == h * w * 1) by (nonlinear_arith);
                assert(canvas_views(q.frames@) =~= q@.frames);
                assert forall|i: int| 0 <= i < canvas_views(q.frames@).len() implies
                    (#[trigger] canvas_views(q.frames@)[i]).len() == h * w * 1 by {
                    assert(q@.frames[i].len() == w * h);
                }
                assert(canvases_match(*apng, canvas_views(q.frames@), 1));
            }
            encode_animation(apng, &q.frames, 1, Some(q.palette.as_slice()), Some(q.transparency.as_slice()), options)
        },
        Err(_) => {
            proof {
                reveal(canvases_match);
                assert(canvases_match(*apng, canvas_views(full_frames@), 4));
            }
            encode_animation(apng, full_frames, 4, None, None, options)
        },
    }
}

/// Optimises a decoded animation: composites the full frames, quantizes them
/// to a shared palette unless `disable_imagequant` is set (going on in true
/// colour when libimagequant fails), and encodes the optimised frames.
pub fn optimize_apng_logic(apng: ApngImage, options: &OptimizeOptions) -> (r: Result<Vec<u8>, String>)
    requires
        reconstructible(apng),
        apng.frames@.len() * 2 <= u32::MAX,
    ensures
        optimize_outcome(apng, *options, r),
{
    let full_frames = reconstruct_frames(&apng);
    let ghost w = apng.width as int;
    let ghost h = apng.height as int;
    proof {
        assert(canvas_views(full_frames@) =~= full_canvases(apng)) by {
            assert forall|i: int| 0 <= i < full_frames@.len() implies
                canvas_views(full_frames@)[i] == full_canvases(apng)[i] by {}
        }
    }
    if options.disable_imagequant == 0 {
        proof {
            assert(h * (w * 4) == (h * w) * 4) by (nonlinear_arith);
            vstd::arithmetic::div_mod::lemma_mod_multiples_basic(h * w, 4);
            assert(h * (w * 4) % 4 == 0);
            assert forall|i: int| 0 <= i < full_frames@.len() implies (#[trigger] full_frames@[i])@.len() % 4 == 0 by {
                lemma_full_frame_len(apng, i as nat);
                assert(canvas_views(full_frames@)[i] == full_canvases(apng)[i]);
                assert(full_frames@[i]@.len() == h * (w * 4));
            }
            assert(frame_bytes(full_frames@) =~= full_canvases(apng)) by {
                assert forall|i: int| 0 <= i < full_frames@.len() implies
                    frame_bytes(full_frames@)[i] == full_canvases(apng)[i] by {
                    assert(canvas_views(full_frames@)[i] == full_canvases(apng)[i]);
                }
            }
        }
        let quantized = quantize_frames(full_frames.as_slice(), apng.width, apng.height);
        let ghost q = quantization_of(quantized);
        let r = encode_quantized(&apng, &full_frames, quantized, options);
        assert(admissible_quantization(apng, q) && result_matches(r, quantized_file(apng, q, *options)));
        return r;
    }
    proof {
        assert(quantized_file(apng, None, *options) == encoded_animation(apng, full_canvases(apng), 4, None, None, *options));
    }
    encode_quantized(&apng, &full_frames, Err(String::new()), options)
}


/// Without quantization the optimised file depends on nothing but the image
/// and the options: two runs on equal inputs agree.
pub proof fn lemma_true_colour_deterministic(apng: ApngImage, options: OptimizeOptions, r1: Result<Vec<u8>, String>, r2: Result<Vec<u8>, String>)
    requires
        options.disable_imagequant != 0,
        optimize_outcome(apng, options, r1),
        optimize_outcome(apng, options, r2),
    ensures
        r1 is Ok <==> r2 is Ok,
        r1 matches Ok(b1) ==> r2 matches Ok(b2) && b1@ == b2@,
{
}

/// The image can be optimised: it can be composited and its frames can be numbered.
pub open spec fn optimizable(apng: ApngImage) -> bool {
    reconstructible(apng) && apng.frames@.len() * 2 <= u32::MAX
}

/// Optimises a decoded animation after checking that it can be: an image
/// whose frames do not fit its canvas (or that is too large to address) is
/// refused with an error.
pub fn optimize_decoded(apng: ApngImage, options: &OptimizeOptions) -> (r: Result<Vec<u8>, String>)
    ensures
        optimizable(apng) ==> optimize_outcome(apng, *options, r),
        !reconstructible(apng) ==> (r matches Err(m) && m@ == "a frame does not fit the canvas"@),
        reconstructible(apng) && apng.frames@.len() * 2 > u32::MAX ==> (r matches Err(m) && m@ == "too many frames"@),
{
    if !check_reconstructible(&apng) {
        return Err("a frame does not fit the canvas".to_owned());
    }
    if apng.frames.len() > 0x7fff_ffff {
        return Err("too many frames".to_owned());
    }
    optimize_apng_logic(apng, options)
}

/// The file's bytes decode, with png, to this image.
pub open spec fn decodes_to(input: Seq<u8>, img: ApngImage) -> bool {
    &&& png_info_error(input) is None
    &&& {
        let (w, h, anim) = png_header(input);
        &&& img.width == w
        &&& img.height == h
        &&& img.loops == loops_of(anim)
        &&& stored_frames(img.frames@) == decoded_frames(input, frame_count_of(anim) as nat).0
        &&& frames_are_rgba(stored_frames(img.frames@))
    }
}

/// What `optimize_decoded` gives for the image.
pub open spec fn optimize_decoded_outcome(apng: ApngImage, options: OptimizeOptions, r: Result<Vec<u8>, String>) -> bool {
    &&& optimizable(apng) ==> optimize_outcome(apng, options, r)
    &&& !reconstructible(apng) ==> (r matches Err(m) && m@ == "a frame does not fit the canvas"@)
    &&& reconstructible(apng) && apng.frames@.len() * 2 > u32::MAX ==> (r matches Err(m) && m@ == "too many frames"@)
}

/// Decodes an APNG file held in memory and optimises it with the given
/// compression method (0 zlib, 1 zlib, 2 zopfli), zopfli iterations, and
/// quantization unless `disable_imagequant` is non-zero.
pub fn optimize_apng_wasm(input_data: &[u8], z_method: u8, iterations: u32, disable_imagequant: u8) -> (r: Result<Vec<u8>, String>)
    ensures
        png_info_error(input_data@) matches Some(e) ==> r matches Err(m) && m@ == e,
        png_info_error(input_data@) is None ==> exists|img: ApngImage| #[trigger] decodes_to(input_data@, img)
            && optimize_decoded_outcome(img, OptimizeOptions { z_method, iterations, disable_imagequant }, r),
{
    let options = OptimizeOptions { z_method, iterations, disable_imagequant };
    let apng = match load_apng_from_memory(input_data) {
        Ok(a) => a,
        Err(e) => {
            return Err(e);
        },
    };
    let ghost img = apng;
    let r = optimize_decoded(apng, &options);
    assert(decodes_to(input_data@, img));
    r
}

} // verus!
