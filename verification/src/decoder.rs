//! Decoded animation: the canvas size, the loop count and the frames as the
//! file stores them (sub-rectangles in RGBA with their compositing rules).

use vstd::prelude::*;
use std::io::Cursor;

verus! {

/// One animation frame as stored in the file: an RGBA sub-rectangle of the
/// canvas with its delay and its compositing operations.
pub struct Frame {
    pub width: u32,
    pub height: u32,
    pub x_offset: u32,
    pub y_offset: u32,
    pub delay_num: u16,
    pub delay_den: u16,
    pub dispose_op: u8,
    pub blend_op: u8,
    pub data: Vec<u8>,
}

/// A decoded animation: canvas size, number of plays (0 = forever) and frames.
pub struct ApngImage {
    pub width: u32,
    pub height: u32,
    pub loops: u32,
    pub frames: Vec<Frame>,
}


/// png's decoder, configured or not, over a copy of the file's bytes. png's
/// decoder and reader types take a reader bounded by std's I/O traits, which
/// Verus does not accept in a type declaration, so they are held here opaque.
#[verifier::external_body]
pub struct PngDecoderHandle {
    decoder: png::Decoder<Cursor<Vec<u8>>>,
}

/// png's reader over a copy of the file's bytes, held opaque for the same reason.
#[verifier::external_body]
pub struct PngReaderHandle {
    reader: png::Reader<Cursor<Vec<u8>>>,
}

/// A png decoder over the bytes `input`; `expand` records that the
/// transformations EXPAND and STRIP_16 were set.
pub struct PngDecoder {
    handle: PngDecoderHandle,
    input: Ghost<Seq<u8>>,
    expand: Ghost<bool>,
}

/// A png reader (EXPAND and STRIP_16 set) over the bytes `input`, with the
/// number of frames asked of it so far.
pub struct PngReader {
    handle: PngReaderHandle,
    input: Ghost<Seq<u8>>,
    frames_read: Ghost<nat>,
}

/// The error text of png's `read_info` on `input` (EXPAND and STRIP_16 set),
/// or `None` when the header reads.
pub uninterp spec fn png_info_error(input: Seq<u8>) -> Option<Seq<char>>;

/// The image width, height and animation control (frame count, play count)
/// if any, that png reports after `read_info` on `input`.
pub uninterp spec fn png_header(input: Seq<u8>) -> (u32, u32, Option<(u32, u32)>);

/// png's `output_buffer_size` after `read_info` on `input`.
pub uninterp spec fn png_buffer_size(input: Seq<u8>) -> Option<usize>;

/// What png's `next_frame` gives for the frame asked for in position `index`
/// (after `index` earlier calls, each with a buffer of the output buffer
/// size, or 0 when there is none, that holds only zero bytes when it is
/// handed over): the frame's bytes (the first `buffer_size()` bytes of the
/// buffer), width, height and output colour type number, or `None` on error.
pub uninterp spec fn png_frame(input: Seq<u8>, index: nat) -> Option<(Seq<u8>, u32, u32, u8)>;

/// The frame control that png's reader holds after `count` calls of
/// `next_frame`: width, height, x and y offsets, delay numerator and
/// denominator, dispose and blend operations.
pub uninterp spec fn png_frame_control(input: Seq<u8>, count: nat) -> Option<(u32, u32, u32, u32, u16, u16, u8, u8)>;

/// The length of the buffer that frames are decoded into.
pub open spec fn png_buffer_len(input: Seq<u8>) -> nat {
    match png_buffer_size(input) {
        Some(n) => n as nat,
        None => 0,
    }
}

/// Samples per pixel of a decoded colour type: grey 1, RGB 3, grey-alpha 2,
/// RGBA 4.
pub open spec fn channels(color: u8) -> int {
    if color == 0 {
        1
    } else if color == 2 {
        3
    } else if color == 4 {
        2
    } else {
        4
    }
}

/// A colour type that png's reader gives with EXPAND set: grey (0), RGB (2),
/// grey-alpha (4) or RGBA (6); palettes are expanded to RGB or RGBA.
pub open spec fn expanded_color(color: u8) -> bool {
    color == 0 || color == 2 || color == 4 || color == 6
}

/// Calls `png::Decoder::new` on a cursor over a copy of `data`.
#[verifier::external_body]
fn png_decoder(data: &[u8]) -> (d: PngDecoder)
    ensures
        d.input@ == data@,
        !d.expand@,
{
    PngDecoder {
        handle: PngDecoderHandle { decoder: png::Decoder::new(Cursor::new(data.to_vec())) },
        input: Ghost(data@),
        expand: Ghost(false),
    }
}

/// Calls `png::Decoder::set_transformations` with EXPAND and STRIP_16: low
/// bit depths and palettes are expanded, 16-bit samples cut to 8 bits.
#[verifier::external_body]
fn png_set_expand(d: &mut PngDecoder)
    ensures
        final(d).input@ == old(d).input@,
        final(d).expand@,
{
    d.handle.decoder.set_transformations(png::Transformations::EXPAND | png::Transformations::STRIP_16);
    d.expand = Ghost(true);
}

/// Calls `png::Decoder::read_info`, which reads the header and the chunks
/// before the first image data; an error becomes its text.
#[verifier::external_body]
fn png_read_info(d: PngDecoder) -> (r: Result<PngReader, String>)
    requires
        d.expand@,
    ensures
        match r {
            Ok(reader) => png_info_error(d.input@) is None && reader.input@ == d.input@ && reader.frames_read@ == 0,
            Err(e) => png_info_error(d.input@) == Some(e@),
        },
{
    let input = d.input;
    match d.handle.decoder.read_info() {
        Ok(reader) => Ok(PngReader { handle: PngReaderHandle { reader }, input, frames_read: Ghost(0) }),
        Err(e) => Err(e.to_string()),
    }
}

/// Calls `png::Reader::output_buffer_size`.
#[verifier::external_body]
fn png_output_buffer_size(r: &PngReader) -> (n: Option<usize>)
    requires
        r.frames_read@ == 0,
    ensures
        n == png_buffer_size(r.input@),
{
    r.handle.reader.output_buffer_size()
}

/// Calls `png::Reader::info` and reads its width, height and animation control.
#[verifier::external_body]
fn png_info(r: &PngReader) -> (h: (u32, u32, Option<(u32, u32)>))
    requires
        r.frames_read@ == 0,
    ensures
        h == png_header(r.input@),
{
    let info = r.handle.reader.info();
    (info.width, info.height, info.animation_control().map(|a| (a.num_frames, a.num_plays)))
}

/// Calls `png::Reader::next_frame` with `buf`, which must hold only zero
/// bytes, and returns the first `buffer_size()` bytes of it with the frame's
/// width, height and output colour type (as the type's number). By png's
/// source, with EXPAND and STRIP_16 set (every reader here is made by
/// `png_read_info` from a decoder with both set) the output has 8-bit
/// samples and a colour type without palette, each scan line holds `width`
/// pixels of that type, and the frame is the sub-frame that the frame
/// control read for it describes, so the frame control that the reader holds
/// afterwards, when there is one, has the frame's width and height.
#[verifier::external_body]
fn png_next_frame(r: &mut PngReader, buf: &mut Vec<u8>) -> (f: Option<(Vec<u8>, u32, u32, u8)>)
    requires
        old(buf)@ == Seq::new(png_buffer_len(old(r).input@), |i: int| 0u8),
    ensures
        final(r).input@ == old(r).input@,
        final(r).frames_read@ == old(r).frames_read@ + 1,
        match f {
            Some((data, w, h, color)) => {
                &&& png_frame(old(r).input@, old(r).frames_read@) == Some((data@, w, h, color))
                &&& expanded_color(color)
                &&& data@.len() == channels(color) * w * h
                &&& png_frame_control(final(r).input@, final(r).frames_read@) matches Some(c) ==> c.0 == w && c.1 == h
            },
            None => png_frame(old(r).input@, old(r).frames_read@) is None,
        },
{
    r.frames_read = Ghost(r.frames_read@ + 1);
    match r.handle.reader.next_frame(buf.as_mut_slice()) {
        Ok(info) => Some((buf[..info.buffer_size()].to_vec(), info.width, info.height, info.color_type as u8)),
        Err(_) => None,
    }
}

/// Calls `png::Reader::info` and reads its frame control, with the dispose
/// and blend operations as their numbers.
#[verifier::external_body]
fn png_current_frame_control(r: &PngReader) -> (c: Option<(u32, u32, u32, u32, u16, u16, u8, u8)>)
    ensures
        c == png_frame_control(r.input@, r.frames_read@),
{
    r.handle.reader.info().frame_control.map(|fc| (
        fc.width, fc.height, fc.x_offset, fc.y_offset, fc.delay_num, fc.delay_den, fc.dispose_op as u8, fc.blend_op as u8,
    ))
}


/// A stored frame's fields, with its pixel data as a sequence.
pub struct StoredFrame {
    pub width: u32,
    pub height: u32,
    pub x_offset: u32,
    pub y_offset: u32,
    pub delay_num: u16,
    pub delay_den: u16,
    pub dispose_op: u8,
    pub blend_op: u8,
    pub data: Seq<u8>,
}

impl View for Frame {
    type V = StoredFrame;

    open spec fn view(&self) -> StoredFrame {
        StoredFrame {
            width: self.width,
            height: self.height,
            x_offset: self.x_offset,
            y_offset: self.y_offset,
            delay_num: self.delay_num,
            delay_den: self.delay_den,
            dispose_op: self.dispose_op,
            blend_op: self.blend_op,
            data: self.data@,
        }
    }
}

/// RGB samples, three by three (a shorter last group too), each followed by an opaque alpha.
pub open spec fn rgb_expand(d: Seq<u8>) -> Seq<u8>
    decreases d.len(),
{
    if d.len() == 0 {
        seq![]
    } else if d.len() <= 3 {
        d + seq![255u8]
    } else {
        d.subrange(0, 3) + seq![255u8] + rgb_expand(d.subrange(3, d.len() as int))
    }
}

/// Grey-alpha pairs, each as grey, grey, grey, alpha.
pub open spec fn gray_alpha_expand(d: Seq<u8>) -> Seq<u8>
    decreases d.len(),
{
    if d.len() < 2 {
        seq![]
    } else {
        seq![d[0], d[0], d[0], d[1]] + gray_alpha_expand(d.subrange(2, d.len() as int))
    }
}

/// Grey samples, each as grey, grey, grey, opaque alpha.
pub open spec fn gray_expand(d: Seq<u8>) -> Seq<u8>
    decreases d.len(),
{
    if d.len() == 0 {
        seq![]
    } else {
        seq![d[0], d[0], d[0], 255u8] + gray_expand(d.subrange(1, d.len() as int))
    }
}

/// The RGBA form of decoded pixels of colour type `color`: RGBA (6) as it
/// is, RGB (2), grey-alpha (4) and grey (0) expanded to four bytes a pixel.
pub open spec fn rgba_from(d: Seq<u8>, color: u8) -> Seq<u8> {
    if color == 2 {
        rgb_expand(d)
    } else if color == 4 {
        gray_alpha_expand(d)
    } else if color == 0 {
        gray_expand(d)
    } else {
        d
    }
}

proof fn lemma_rgb_expand_len(d: Seq<u8>, k: nat)
    requires
        d.len() == 3 * k,
    ensures
        rgb_expand(d).len() == 4 * k,
    decreases k,
{
    if k > 1 {
        lemma_rgb_expand_len(d.subrange(3, d.len() as int), (k - 1) as nat);
    }
}

proof fn lemma_gray_alpha_expand_len(d: Seq<u8>, k: nat)
    requires
        d.len() == 2 * k,
    ensures
        gray_alpha_expand(d).len() == 4 * k,
    decreases k,
{
    if k > 0 {
        lemma_gray_alpha_expand_len(d.subrange(2, d.len() as int), (k - 1) as nat);
    }
}

proof fn lemma_gray_expand_len(d: Seq<u8>, k: nat)
    requires
        d.len() == k,
    ensures
        gray_expand(d).len() == 4 * k,
    decreases k,
{
    if k > 0 {
        lemma_gray_expand_len(d.subrange(1, d.len() as int), (k - 1) as nat);
    }
}

/// Pixels of a decoded colour type, `k` of them, give `4 * k` RGBA bytes.
pub proof fn lemma_rgba_from_len(d: Seq<u8>, color: u8, k: nat)
    requires
        expanded_color(color),
        d.len() == channels(color) * k,
    ensures
        rgba_from(d, color).len() == 4 * k,
{
    if color == 2 {
        lemma_rgb_expand_len(d, k);
    } else if color == 4 {
        lemma_gray_alpha_expand_len(d, k);
    } else if color == 0 {
        lemma_gray_expand_len(d, k);
    }
}

/// Converts decoded pixels of colour type `color` to RGBA.
pub fn frame_to_rgba(data: Vec<u8>, color: u8) -> (r: Vec<u8>)
    requires
        expanded_color(color),
    ensures
        r@ == rgba_from(data@, color),
{
    let n = data.len();
    if color == 6 {
        data
    } else if color == 2 {
        let mut out: Vec<u8> = Vec::new();
        let mut i: usize = 0;
        assert(data@.subrange(0, n as int) =~= data@);
        while i < n
            invariant
                n == data@.len(),
                i <= n,
                out@ + rgb_expand(data@.subrange(i as int, n as int)) == rgb_expand(data@),
            decreases n - i,
        {
            let ghost rest = data@.subrange(i as int, n as int);
            if n - i <= 3 {
                let ghost before = out@;
                let mut j = i;
                while j < n
                    invariant
                        n == data@.len(),
                        i <= j <= n,
                        out@ == before + data@.subrange(i as int, j as int),
                    decreases n - j,
                {
                    out.push(data[j]);
                    j = j + 1;
                    assert(out@ =~= before + data@.subrange(i as int, j as int));
                }
                out.push(255);
                assert(rest =~= data@.subrange(i as int, n as int));
                assert(data@.subrange(n as int, n as int) =~= Seq::<u8>::empty());
                assert(out@ =~= before + rgb_expand(rest));
                i = n;
            } else {
                out.push(data[i]);
                out.push(data[i + 1]);
                out.push(data[i + 2]);
                out.push(255);
                assert(rest.subrange(3, rest.len() as int) =~= data@.subrange(i + 3, n as int));
                assert(rest.subrange(0, 3) =~= seq![data@[i as int], data@[i + 1], data@[i + 2]]);
                i = i + 3;
            }
        }
        assert(data@.subrange(n as int, n as int) =~= Seq::<u8>::empty());
        out
    } else if color == 4 {
        let mut out: Vec<u8> = Vec::new();
        let mut i: usize = 0;
        assert(data@.subrange(0, n as int) =~= data@);
        while i < n && n - i >= 2
            invariant
                n == data@.len(),
                i <= n,
                out@ + gray_alpha_expand(data@.subrange(i as int, n as int)) == gray_alpha_expand(data@),
            decreases n - i,
        {
            let g = data[i];
            let a = data[i + 1];
            let ghost rest = data@.subrange(i as int, n as int);
            out.push(g);
            out.push(g);
            out.push(g);
            out.push(a);
            assert(rest.subrange(2, rest.len() as int) =~= data@.subrange(i + 2, n as int));
            i = i + 2;
        }
        assert(gray_alpha_expand(data@.subrange(i as int, n as int)) =~= Seq::<u8>::empty());
        out
    } else {
        let mut out: Vec<u8> = Vec::new();
        let mut i: usize = 0;
        assert(data@.subrange(0, n as int) =~= data@);
        while i < n
            invariant
                n == data@.len(),
                i <= n,
                out@ + gray_expand(data@.subrange(i as int, n as int)) == gray_expand(data@),
            decreases n - i,
        {
            let g = data[i];
            let ghost rest = data@.subrange(i as int, n as int);
            out.push(g);
            out.push(g);
            out.push(g);
            out.push(255);
            assert(rest.subrange(1, rest.len() as int) =~= data@.subrange(i + 1, n as int));
            i = i + 1;
        }
        assert(data@.subrange(n as int, n as int) =~= Seq::<u8>::empty());
        out
    }
}


/// The frame stored for decoded RGBA pixels `rgba` of size `w` by `h` with the
/// frame control `fc`; without one, a frame of that size at the origin with
/// delay 0/0, no disposal and SOURCE blending.
pub open spec fn stored_frame(rgba: Seq<u8>, w: u32, h: u32, fc: Option<(u32, u32, u32, u32, u16, u16, u8, u8)>) -> StoredFrame {
    let c = match fc {
        Some(c) => c,
        None => (w, h, 0u32, 0u32, 0u16, 0u16, 0u8, 0u8),
    };
    StoredFrame {
        width: c.0,
        height: c.1,
        x_offset: c.2,
        y_offset: c.3,
        delay_num: c.4,
        delay_den: c.5,
        dispose_op: c.6,
        blend_op: c.7,
        data: rgba,
    }
}

/// The frames read by the first `n` calls of `next_frame`, and whether a call
/// failed (reading stops at the first failure).
pub open spec fn decoded_frames(input: Seq<u8>, n: nat) -> (Seq<StoredFrame>, bool)
    decreases n,
{
    if n == 0 {
        (seq![], false)
    } else {
        let (fs, stopped) = decoded_frames(input, (n - 1) as nat);
        if stopped {
            (fs, true)
        } else {
            match png_frame(input, (n - 1) as nat) {
                None => (fs, true),
                Some((d, w, h, color)) =>
                    (fs.push(stored_frame(rgba_from(d, color), w, h, png_frame_control(input, n))), false),
            }
        }
    }
}

/// The number of frames to read: the animation's frame count, or 1 for a still image.
pub open spec fn frame_count_of(anim: Option<(u32, u32)>) -> u32 {
    match anim {
        Some(a) => a.0,
        None => 1,
    }
}

/// The number of plays: the animation's play count, or 0 (forever) for a still image.
pub open spec fn loops_of(anim: Option<(u32, u32)>) -> u32 {
    match anim {
        Some(a) => a.1,
        None => 0,
    }
}

/// The frames of an image.
pub open spec fn stored_frames(frames: Seq<Frame>) -> Seq<StoredFrame> {
    frames.map_values(|f: Frame| f@)
}

proof fn lemma_decoded_stopped_persists(input: Seq<u8>, n: nat, m: nat)
    requires
        n <= m,
        decoded_frames(input, n).1,
    ensures
        decoded_frames(input, m) == decoded_frames(input, n),
    decreases m - n,
{
    if m > n {
        lemma_decoded_stopped_persists(input, n, (m - 1) as nat);
    }
}

/// Every stored frame holds four bytes for each pixel of its rectangle.
pub open spec fn frames_are_rgba(frames: Seq<StoredFrame>) -> bool {
    forall|i: int| 0 <= i < frames.len() ==>
        (#[trigger] frames[i]).data.len() == 4 * frames[i].width * frames[i].height
}

/// Makes a buffer of `n` zero bytes.
fn zeroed(n: usize) -> (v: Vec<u8>)
    ensures
        v@ == Seq::new(n as nat, |i: int| 0u8),
{
    let mut v: Vec<u8> = Vec::new();
    let mut k: usize = 0;
    while k < n
        invariant
            k <= n,
            v@ == Seq::new(k as nat, |i: int| 0u8),
        decreases n - k,
    {
        v.push(0);
        k = k + 1;
        assert(v@ =~= Seq::new(k as nat, |i: int| 0u8));
    }
    v
}

/// Decodes an APNG (or PNG) file held in memory with png (EXPAND and
/// STRIP_16 set): the canvas size, the play count, and the frames as stored,
/// each in RGBA with four bytes for every pixel of its rectangle, reading the
/// animation's frame count (1 for a still image) and stopping at the first
/// frame that fails to decode. Fails with png's error text when the header
/// does not read.
pub fn load_apng_from_memory(data: &[u8]) -> (r: Result<ApngImage, String>)
    ensures
        png_info_error(data@) matches Some(e) ==> r matches Err(m) && m@ == e,
        png_info_error(data@) is None ==> {
            let (w, h, anim) = png_header(data@);
            r matches Ok(img) && {
                &&& img.width == w
                &&& img.height == h
                &&& img.loops == loops_of(anim)
                &&& stored_frames(img.frames@) == decoded_frames(data@, frame_count_of(anim) as nat).0
                &&& frames_are_rgba(stored_frames(img.frames@))
            }
        },
{
    let mut decoder = png_decoder(data);
    png_set_expand(&mut decoder);
    let mut reader = match png_read_info(decoder) {
        Ok(r) => r,
        Err(e) => {
            return Err(e);
        },
    };
    let buf_len = match png_output_buffer_size(&reader) {
        Some(n) => n,
        None => 0,
    };
    let (width, height, anim) = png_info(&reader);
    let loops = match anim {
        Some(a) => a.1,
        None => 0,
    };
    let frame_count = match anim {
        Some(a) => a.0,
        None => 1,
    };
    let ghost input = data@;
    assert((width, height, anim) == png_header(input));
    assert(frame_count == frame_count_of(anim));
    let mut frames: Vec<Frame> = Vec::new();
    let mut stopped = false;
    let mut i: u32 = 0;
    while i < frame_count && !stopped
        invariant
            i <= frame_count,
            input == data@,
            png_info_error(input) is None,
            (width, height, anim) == png_header(input),
            frame_count == frame_count_of(anim),
            reader.input@ == input,
            reader.frames_read@ == i,
            buf_len == png_buffer_len(input),
            decoded_frames(input, i as nat) == (stored_frames(frames@), stopped),
            stopped ==> decoded_frames(input, frame_count as nat) == decoded_frames(input, i as nat),
            frames_are_rgba(stored_frames(frames@)),
        decreases frame_count - i,
    {
        let ghost before = stored_frames(frames@);
        let mut buf = zeroed(buf_len);
        match png_next_frame(&mut reader, &mut buf) {
            Some((frame_data, fw, fh, color)) => {
                let ghost d = frame_data@;
                let rgba = frame_to_rgba(frame_data, color);
                proof {
                    assert(d.len() == channels(color) * (fw * fh)) by (nonlinear_arith)
                        requires d.len() == channels(color) * fw * fh;
                    lemma_rgba_from_len(d, color, (fw * fh) as nat);
                    assert(4 * (fw * fh) == 4 * fw * fh) by (nonlinear_arith);
                }
                let fc = png_current_frame_control(&reader);
                let (cw, ch, cx, cy, dn, dd, dop, bop) = match fc {
                    Some(c) => c,
                    None => (fw, fh, 0, 0, 0, 0, 0, 0),
                };
                frames.push(Frame {
                    width: cw,
                    height: ch,
                    x_offset: cx,
                    y_offset: cy,
                    delay_num: dn,
                    delay_den: dd,
                    dispose_op: dop,
                    blend_op: bop,
                    data: rgba,
                });
                let ghost after = stored_frames(frames@);
                assert(after =~= before.push(stored_frame(rgba@, fw, fh, fc)));
                assert forall|k: int| 0 <= k < after.len() implies
                    (#[trigger] after[k]).data.len() == 4 * after[k].width * after[k].height by {
                    if k < before.len() {
                        assert(after[k] == before[k]);
                    }
                }
            },
            None => {
                stopped = true;
                proof { lemma_decoded_stopped_persists(input, (i + 1) as nat, frame_count as nat); }
            },
        }
        i = i + 1;
    }
    Ok(ApngImage { width, height, loops, frames })
}


/// Every decoded frame is the frame png read in its position: its pixels are
/// png's pixels for that call made RGBA, and its rectangle, delays and
/// operations are the fields of the frame control png holds after that call
/// (width, height, x and y offsets, delay numerator and denominator, then
/// `dispose_op` and `blend_op`, in png's `FrameControl` order); without a
/// frame control the frame covers png's size at the origin, with no delay,
/// dispose operation NONE (0) and blend operation SOURCE (0).
pub proof fn lemma_decoded_frame_fields(input: Seq<u8>, n: nat)
    ensures
        forall|k: int| 0 <= k < decoded_frames(input, n).0.len() ==>
            #[trigger] frame_read_at(input, k, decoded_frames(input, n).0[k]),
    decreases n,
{
    if n > 0 {
        lemma_decoded_frame_fields(input, (n - 1) as nat);
        lemma_decoded_len(input, (n - 1) as nat);
        let (fs, stopped) = decoded_frames(input, (n - 1) as nat);
        let nf = decoded_frames(input, n).0;
        if !stopped {
            if let Some((d, w, h, color)) = png_frame(input, (n - 1) as nat) {
                assert(nf == fs.push(stored_frame(rgba_from(d, color), w, h, png_frame_control(input, n))));
                assert(fs.len() == n - 1);
                assert forall|k: int| 0 <= k < nf.len() implies #[trigger] frame_read_at(input, k, nf[k]) by {
                    if k < fs.len() {
                        assert(nf[k] == fs[k]);
                        assert(frame_read_at(input, k, fs[k]));
                    } else {
                        assert(k == n - 1);
                        assert((k + 1) as nat == n);
                    }
                }
            } else {
                assert forall|k: int| 0 <= k < nf.len() implies #[trigger] frame_read_at(input, k, nf[k]) by {
                    assert(frame_read_at(input, k, fs[k]));
                }
            }
        } else {
            assert forall|k: int| 0 <= k < nf.len() implies #[trigger] frame_read_at(input, k, nf[k]) by {
                assert(frame_read_at(input, k, fs[k]));
            }
        }
    }
}

/// The stored frame `fr` is what png read in position `k` of `input`: its
/// pixels are png's pixels for that call made RGBA, and its rectangle,
/// delays and operations the fields of the frame control png holds after
/// that call, or png's size at the origin with zeros without one.
pub open spec fn frame_read_at(input: Seq<u8>, k: int, fr: StoredFrame) -> bool {
    &&& png_frame(input, k as nat) matches Some((d, w, h, color))
    &&& fr.data == rgba_from(d, color)
    &&& match png_frame_control(input, (k + 1) as nat) {
        Some((cw, ch, cx, cy, dn, dd, dop, bop)) => {
            &&& fr.width == cw && fr.height == ch
            &&& fr.x_offset == cx && fr.y_offset == cy
            &&& fr.delay_num == dn && fr.delay_den == dd
            &&& fr.dispose_op == dop
            &&& fr.blend_op == bop
        },
        None => {
            &&& fr.width == w && fr.height == h
            &&& fr.x_offset == 0 && fr.y_offset == 0
            &&& fr.delay_num == 0 && fr.delay_den == 0
            &&& fr.dispose_op == 0
            &&& fr.blend_op == 0
        },
    }
}

proof fn lemma_decoded_len(input: Seq<u8>, n: nat)
    ensures
        decoded_frames(input, n).0.len() <= n,
        !decoded_frames(input, n).1 ==> decoded_frames(input, n).0.len() == n,
    decreases n,
{
    if n > 0 {
        lemma_decoded_len(input, (n - 1) as nat);
    }
}
} // verus!
