//! Assembly of an animated PNG file from optimised frames.

use vstd::prelude::*;
use crate::bytes::{append_bytes, be16, be32, u16_be_bytes, u32_be_bytes};
use crate::chunk::{crc32_ieee, Chunk};
use crate::optimizer::{FrameView, OptimizedFrame};

verus! {

/// The eight bytes that open every PNG file.
pub open spec fn png_signature() -> Seq<u8> {
    seq![0x89u8, 0x50u8, 0x4eu8, 0x47u8, 0x0du8, 0x0au8, 0x1au8, 0x0au8]
}

/// The bytes of a chunk of type `ty` holding `data`.
pub open spec fn chunk_wire(ty: Seq<u8>, data: Seq<u8>) -> Seq<u8> {
    be32(data.len() as u32) + ty + data + be32(crc32_ieee(ty + data))
}

pub open spec fn ihdr_type() -> Seq<u8> { seq![0x49u8, 0x48u8, 0x44u8, 0x52u8] }
pub open spec fn actl_type() -> Seq<u8> { seq![0x61u8, 0x63u8, 0x54u8, 0x4cu8] }
pub open spec fn plte_type() -> Seq<u8> { seq![0x50u8, 0x4cu8, 0x54u8, 0x45u8] }
pub open spec fn trns_type() -> Seq<u8> { seq![0x74u8, 0x52u8, 0x4eu8, 0x53u8] }
pub open spec fn fctl_type() -> Seq<u8> { seq![0x66u8, 0x63u8, 0x54u8, 0x4cu8] }
pub open spec fn idat_type() -> Seq<u8> { seq![0x49u8, 0x44u8, 0x41u8, 0x54u8] }
pub open spec fn fdat_type() -> Seq<u8> { seq![0x66u8, 0x64u8, 0x41u8, 0x54u8] }
pub open spec fn iend_type() -> Seq<u8> { seq![0x49u8, 0x45u8, 0x4eu8, 0x44u8] }

/// Image header: size, 8-bit samples, palette colour (3) or RGBA (6), no interlace.
pub open spec fn ihdr_data(width: u32, height: u32, paletted: bool) -> Seq<u8> {
    be32(width) + be32(height) + seq![8u8, if paletted { 3u8 } else { 6u8 }, 0u8, 0u8, 0u8]
}

/// Animation control: number of frames and number of plays.
pub open spec fn actl_data(num_frames: u32, loops: u32) -> Seq<u8> {
    be32(num_frames) + be32(loops)
}

/// The palette entries' bytes, in order.
pub open spec fn palette_bytes(pal: Seq<[u8; 3]>) -> Seq<u8>
    decreases pal.len(),
{
    if pal.len() == 0 {
        seq![]
    } else {
        palette_bytes(pal.drop_last()) + pal.last()@
    }
}

/// Frame control of a frame with the given sequence number.
pub open spec fn fctl_data(seq_no: u32, f: FrameView) -> Seq<u8> {
    be32(seq_no) + be32(f.w) + be32(f.h) + be32(f.x) + be32(f.y)
        + be16(f.delay_num) + be16(f.delay_den) + seq![f.dispose_op, f.blend_op]
}

/// The sequence number of frame `i`'s frame control: 0 for the first frame;
/// afterwards each frame uses two numbers, one for its frame control and one
/// for its frame data.
pub open spec fn fctl_seq(i: int) -> int {
    if i == 0 { 0 } else { 2 * i - 1 }
}

/// The chunks of frame `i`: its frame control, then its data, as `IDAT` for
/// the first frame and as `fdAT` with the next sequence number afterwards.
pub open spec fn frame_chunks(f: FrameView, i: int) -> Seq<u8> {
    let s = fctl_seq(i);
    chunk_wire(fctl_type(), fctl_data(s as u32, f)) + if i == 0 {
        chunk_wire(idat_type(), f.data)
    } else {
        chunk_wire(fdat_type(), be32((s + 1) as u32) + f.data)
    }
}

/// The chunks of the first `n` frames.
pub open spec fn frames_chunks(frames: Seq<FrameView>, n: nat) -> Seq<u8>
    decreases n,
{
    if n == 0 {
        seq![]
    } else {
        frames_chunks(frames, (n - 1) as nat) + frame_chunks(frames[n - 1], n - 1)
    }
}

/// The whole file: signature, header, animation control, palette and
/// transparency when given, the frames, and the end chunk.
pub open spec fn apng_file(
    width: u32,
    height: u32,
    loops: u32,
    frames: Seq<FrameView>,
    palette: Option<Seq<[u8; 3]>>,
    transparency: Option<Seq<u8>>,
) -> Seq<u8> {
    png_signature()
        + chunk_wire(ihdr_type(), ihdr_data(width, height, palette is Some))
        + chunk_wire(actl_type(), actl_data(frames.len() as u32, loops))
        + (match palette { Some(p) => chunk_wire(plte_type(), palette_bytes(p)), None => seq![] })
        + (match transparency { Some(t) => chunk_wire(trns_type(), t), None => seq![] })
        + frames_chunks(frames, frames.len())
        + chunk_wire(iend_type(), seq![])
}

/// Appends the chunk of type `ty` holding `data`.
fn emit_chunk(out: &mut Vec<u8>, ty: [u8; 4], data: Vec<u8>)
    ensures
        final(out)@ == old(out)@ + chunk_wire(ty@, data@),
{
    let c = Chunk::new(ty, data);
    c.write(out);
}

fn push_be32(out: &mut Vec<u8>, v: u32)
    ensures
        final(out)@ == old(out)@ + be32(v),
{
    let b = u32_be_bytes(v);
    append_bytes(out, &b);
}

fn push_be16(out: &mut Vec<u8>, v: u16)
    ensures
        final(out)@ == old(out)@ + be16(v),
{
    let b = u16_be_bytes(v);
    append_bytes(out, &b);
}

/// The views of the frames.
pub open spec fn frame_views(frames: Seq<OptimizedFrame>) -> Seq<FrameView> {
    frames.map_values(|f: OptimizedFrame| f@)
}

pub open spec fn opt_palette(p: Option<&[[u8; 3]]>) -> Option<Seq<[u8; 3]>> {
    match p {
        Some(s) => Some(s@),
        None => None,
    }
}

pub open spec fn opt_bytes(p: Option<&[u8]>) -> Option<Seq<u8>> {
    match p {
        Some(s) => Some(s@),
        None => None,
    }
}

/// Writes the animation as an APNG file into memory: 8-bit RGBA, or 8-bit
/// palette colour when a palette is given, with the frames in order.
pub fn save_apng_to_memory(
    width: u32,
    height: u32,
    loops: u32,
    frames: &[OptimizedFrame],
    palette: Option<&[[u8; 3]]>,
    transparency: Option<&[u8]>,
) -> (out: Vec<u8>)
    requires
        frames@.len() * 2 <= u32::MAX,
    ensures
        out@ == apng_file(width, height, loops, frame_views(frames@), opt_palette(palette), opt_bytes(transparency)),
{
    let mut out: Vec<u8> = Vec::new();
    let sig: [u8; 8] = [0x89, 0x50, 0x4e, 0x47, 0x0d, 0x0a, 0x1a, 0x0a];
    append_bytes(&mut out, &sig);
    assert(sig@ =~= png_signature());

    let mut ihdr_data_v: Vec<u8> = Vec::new();
    push_be32(&mut ihdr_data_v, width);
    push_be32(&mut ihdr_data_v, height);
    ihdr_data_v.push(8);
    let color_type: u8 = if palette.is_some() { 3 } else { 6 };
    ihdr_data_v.push(color_type);
    ihdr_data_v.push(0);
    ihdr_data_v.push(0);
    ihdr_data_v.push(0);
    assert(ihdr_data_v@ =~= ihdr_data(width, height, palette is Some));
    let ihdr_ty: [u8; 4] = [0x49, 0x48, 0x44, 0x52];
    assert(ihdr_ty@ =~= ihdr_type());
    emit_chunk(&mut out, ihdr_ty, ihdr_data_v);

    let mut actl: Vec<u8> = Vec::new();
    push_be32(&mut actl, frames.len() as u32);
    push_be32(&mut actl, loops);
    let actl_ty: [u8; 4] = [0x61, 0x63, 0x54, 0x4c];
    assert(actl_ty@ =~= actl_type());
    emit_chunk(&mut out, actl_ty, actl);

    let ghost head = out@;
    if let Some(pal) = palette {
        let mut plte: Vec<u8> = Vec::new();
        let mut k: usize = 0;
        while k < pal.len()
            invariant
                k <= pal@.len(),
                plte@ == palette_bytes(pal@.subrange(0, k as int)),
            decreases pal@.len() - k,
        {
            let entry: [u8; 3] = pal[k];
            append_bytes(&mut plte, &entry);
            assert(pal@.subrange(0, k + 1).drop_last() =~= pal@.subrange(0, k as int));
            k = k + 1;
        }
        assert(pal@.subrange(0, k as int) =~= pal@);
        let plte_ty: [u8; 4] = [0x50, 0x4c, 0x54, 0x45];
        assert(plte_ty@ =~= plte_type());
        emit_chunk(&mut out, plte_ty, plte);
    }
    let ghost with_palette = out@;
    if let Some(trns) = transparency {
        let mut t: Vec<u8> = Vec::new();
        append_bytes(&mut t, trns);
        let trns_ty: [u8; 4] = [0x74, 0x52, 0x4e, 0x53];
        assert(trns_ty@ =~= trns_type());
        emit_chunk(&mut out, trns_ty, t);
    }
    let ghost before_frames = out@;

    let fctl_ty: [u8; 4] = [0x66, 0x63, 0x54, 0x4c];
    let idat_ty: [u8; 4] = [0x49, 0x44, 0x41, 0x54];
    let fdat_ty: [u8; 4] = [0x66, 0x64, 0x41, 0x54];
    assert(fctl_ty@ =~= fctl_type());
    assert(idat_ty@ =~= idat_type());
    assert(fdat_ty@ =~= fdat_type());
    let mut sequence_number: u32 = 0;
    let mut i: usize = 0;
    while i < frames.len()
        invariant
            i <= frames@.len(),
            frames@.len() * 2 <= u32::MAX,
            fctl_ty@ == fctl_type(),
            idat_ty@ == idat_type(),
            fdat_ty@ == fdat_type(),
            sequence_number == if i == 0 { 0 } else { 2 * i - 1 },
            out@ == before_frames + frames_chunks(frame_views(frames@), i as nat),
        decreases frames@.len() - i,
    {
        let frame = &frames[i];
        let ghost start = out@;
        let mut fctl: Vec<u8> = Vec::new();
        push_be32(&mut fctl, sequence_number);
        push_be32(&mut fctl, frame.w);
        push_be32(&mut fctl, frame.h);
        push_be32(&mut fctl, frame.x);
        push_be32(&mut fctl, frame.y);
        push_be16(&mut fctl, frame.delay_num);
        push_be16(&mut fctl, frame.delay_den);
        fctl.push(frame.dispose_op);
        fctl.push(frame.blend_op);
        assert(fctl@ =~= fctl_data(sequence_number, frame@));
        emit_chunk(&mut out, fctl_ty, fctl);
        sequence_number = sequence_number + 1;

        if i == 0 {
            let mut d: Vec<u8> = Vec::new();
            append_bytes(&mut d, frame.compressed_data.as_slice());
            emit_chunk(&mut out, idat_ty, d);
        } else {
            let mut fdat: Vec<u8> = Vec::new();
            push_be32(&mut fdat, sequence_number);
            append_bytes(&mut fdat, frame.compressed_data.as_slice());
            emit_chunk(&mut out, fdat_ty, fdat);
            sequence_number = sequence_number + 1;
        }
        assert(frame_views(frames@)[i as int] == frame@);
        assert(out@ =~= start + frame_chunks(frame@, i as int));
        i = i + 1;
        assert(out@ =~= before_frames + frames_chunks(frame_views(frames@), i as nat));
    }

    let iend_ty: [u8; 4] = [0x49, 0x45, 0x4e, 0x44];
    assert(iend_ty@ =~= iend_type());
    emit_chunk(&mut out, iend_ty, Vec::new());
    assert(out@ =~= apng_file(width, height, loops, frame_views(frames@), opt_palette(palette), opt_bytes(transparency)));
    out
}


/// The sequence numbers of the animation chunks run 0, 1, 2, ... without a
/// gap: frame 0's frame control is 0, and each later frame's frame control
/// comes right after the previous frame's last chunk (its frame control for
/// frame 0, its frame data otherwise), followed by its frame data.
pub proof fn lemma_sequence_numbers_consecutive(i: int)
    requires
        i >= 1,
    ensures
        fctl_seq(0) == 0,
        fctl_seq(i) == (if i == 1 { fctl_seq(0) } else { fctl_seq(i - 1) + 1 }) + 1,
        fctl_seq(i) + 1 == 2 * i,
{
}


/// The frame control chunk that opens a frame's chunks has the APNG layout:
/// a length of 26, the type `fcTL`, then in its data the sequence number,
/// width, height, x and y offsets (four big-endian bytes each), the delay
/// numerator and denominator (two each), the dispose operation at data byte
/// 24 and the blend operation at data byte 25.
pub proof fn lemma_fctl_layout(f: FrameView, i: int)
    ensures
        ({
            let c = frame_chunks(f, i);
            let d = c.subrange(8, 34);
            &&& c.len() >= 38
            &&& c.subrange(0, 4) == seq![0u8, 0u8, 0u8, 26u8]
            &&& c.subrange(4, 8) == seq![0x66u8, 0x63u8, 0x54u8, 0x4cu8]
            &&& d.subrange(0, 4) == be32(fctl_seq(i) as u32)
            &&& d.subrange(4, 8) == be32(f.w)
            &&& d.subrange(8, 12) == be32(f.h)
            &&& d.subrange(12, 16) == be32(f.x)
            &&& d.subrange(16, 20) == be32(f.y)
            &&& d.subrange(20, 22) == be16(f.delay_num)
            &&& d.subrange(22, 24) == be16(f.delay_den)
            &&& d[24] == f.dispose_op
            &&& d[25] == f.blend_op
        }),
{
    let data = fctl_data(fctl_seq(i) as u32, f);
    assert(data.len() == 26);
    let w = chunk_wire(fctl_type(), data);
    assert(be32(26u32) =~= seq![0u8, 0u8, 0u8, 26u8]);
    let c = frame_chunks(f, i);
    assert(c.subrange(0, w.len() as int) == w);
    assert(c.subrange(0, 4) =~= seq![0u8, 0u8, 0u8, 26u8]);
    assert(c.subrange(4, 8) =~= fctl_type());
    assert(c.subrange(8, 34) =~= data);
    let d = c.subrange(8, 34);
    assert(d.subrange(0, 4) =~= be32(fctl_seq(i) as u32));
    assert(d.subrange(4, 8) =~= be32(f.w));
    assert(d.subrange(8, 12) =~= be32(f.h));
    assert(d.subrange(12, 16) =~= be32(f.x));
    assert(d.subrange(16, 20) =~= be32(f.y));
    assert(d.subrange(20, 22) =~= be16(f.delay_num));
    assert(d.subrange(22, 24) =~= be16(f.delay_den));
}
} // verus!
