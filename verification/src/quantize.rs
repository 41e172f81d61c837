//! Reduction of the RGBA frames to one shared palette of at most 256
//! colours, with libimagequant.

use vstd::prelude::*;

verus! {

#[verifier::external_type_specification]
#[verifier::external_body]
pub struct ExAttributes(imagequant::Attributes);

#[verifier::external_type_specification]
#[verifier::external_body]
pub struct ExHistogram(imagequant::Histogram);

#[verifier::external_type_specification]
#[verifier::external_body]
pub struct ExImage<'a>(imagequant::Image<'a>);

#[verifier::external_type_specification]
#[verifier::external_body]
pub struct ExQuantizationResult(imagequant::QuantizationResult);

#[verifier::external_type_specification]
#[verifier::external_body]
pub struct ExQuantError(imagequant::Error);

/// An image handed to libimagequant, with the size it was described with and
/// the RGBA bytes it was made from.
struct QuantImage {
    image: imagequant::Image<'static>,
    width: usize,
    height: usize,
    pixels: Ghost<Seq<u8>>,
}

/// libimagequant's colour histogram, with the images added to it (pixels,
/// width, height), in order.
struct QuantHistogram {
    hist: imagequant::Histogram,
    learned: Ghost<Seq<(Seq<u8>, nat, nat)>>,
}

/// libimagequant's quantization result, with the images its palette was
/// learned from, once an image has been remapped the length of its palette,
/// and what each remapping gave (palette, indices), in order.
struct QuantResult {
    res: imagequant::QuantizationResult,
    learned: Ghost<Seq<(Seq<u8>, nat, nat)>>,
    palette_len: Ghost<Option<nat>>,
    remaps: Ghost<Seq<(Seq<[u8; 4]>, Seq<u8>)>>,
}

/// The frames as palette indices, one byte per pixel, with the shared palette
/// (RGB), the alpha of each palette entry, the images (RGBA pixels, width,
/// height) that the palette was learned from and that were remapped, in
/// order, and what each remapping gave (palette, indices), in order.
pub struct QuantizedData {
    pub frames: Vec<Vec<u8>>,
    pub palette: Vec<[u8; 3]>,
    pub transparency: Vec<u8>,
    pub sources: Ghost<Seq<(Seq<u8>, nat, nat)>>,
    pub remaps: Ghost<Seq<(Seq<[u8; 4]>, Seq<u8>)>>,
}

/// A quantization as values.
pub struct QuantizedView {
    pub frames: Seq<Seq<u8>>,
    pub palette: Seq<[u8; 3]>,
    pub transparency: Seq<u8>,
    pub sources: Seq<(Seq<u8>, nat, nat)>,
    pub remaps: Seq<(Seq<[u8; 4]>, Seq<u8>)>,
}

/// `colors` and `alphas` are the RGBA palette `pal` split entry by entry.
pub open spec fn palette_split(colors: Seq<[u8; 3]>, alphas: Seq<u8>, pal: Seq<[u8; 4]>) -> bool {
    &&& colors.len() == pal.len()
    &&& alphas.len() == pal.len()
    &&& forall|i: int| 0 <= i < pal.len() ==> {
        &&& (#[trigger] colors[i])@ == pal[i]@.subrange(0, 3)
        &&& alphas[i] == pal[i]@[3]
    }
}

/// The frames, palette and alphas put together from the remappings: frame
/// `i` is the indices of remapping `i`, and the palette is the first
/// remapping's palette split into colours and alphas (empty with no remapping).
pub open spec fn assembled(remaps: Seq<(Seq<[u8; 4]>, Seq<u8>)>, frames: Seq<Seq<u8>>, palette: Seq<[u8; 3]>, transparency: Seq<u8>) -> bool {
    &&& frames.len() == remaps.len()
    &&& forall|i: int| 0 <= i < remaps.len() ==> #[trigger] frames[i] == remaps[i].1
    &&& remaps.len() > 0 ==> palette_split(palette, transparency, remaps[0].0)
    &&& remaps.len() == 0 ==> palette.len() == 0 && transparency.len() == 0
}

/// The views of remapping results.
pub open spec fn remap_views(remaps: Seq<(Vec<[u8; 4]>, Vec<u8>)>) -> Seq<(Seq<[u8; 4]>, Seq<u8>)> {
    remaps.map_values(|r: (Vec<[u8; 4]>, Vec<u8>)| (r.0@, r.1@))
}

/// The frames `inputs`, each described as `width` by `height` pixels.
pub open spec fn described(inputs: Seq<Seq<u8>>, width: nat, height: nat) -> Seq<(Seq<u8>, nat, nat)> {
    inputs.map_values(|f: Seq<u8>| (f, width, height))
}

impl View for QuantizedData {
    type V = QuantizedView;

    open spec fn view(&self) -> QuantizedView {
        QuantizedView {
            frames: self.frames@.map_values(|f: Vec<u8>| f@),
            palette: self.palette@,
            transparency: self.transparency@,
            sources: self.sources@,
            remaps: self.remaps@,
        }
    }
}

/// A quantization of the RGBA frames `inputs` (each `width` by `height`):
/// learned from and remapped from exactly those frames, one remapping for
/// each, put together from those remappings, one index per pixel for each
/// frame, a palette of 1 to 256 entries with one alpha each, and every index
/// inside the palette.
pub open spec fn valid_quantization(q: QuantizedView, inputs: Seq<Seq<u8>>, width: nat, height: nat) -> bool {
    &&& q.sources == described(inputs, width, height)
    &&& q.remaps.len() == inputs.len()
    &&& assembled(q.remaps, q.frames, q.palette, q.transparency)
    &&& q.frames.len() == inputs.len()
    &&& q.palette.len() == q.transparency.len()
    &&& 1 <= q.palette.len() <= 256
    &&& forall|i: int| 0 <= i < q.frames.len() ==> (#[trigger] q.frames[i]).len() == width * height
    &&& forall|i: int, k: int| 0 <= i < q.frames.len() && 0 <= k < q.frames[i].len()
        ==> (#[trigger] q.frames[i][k]) < q.palette.len()
}

/// Calls `imagequant::Attributes::new`: default quantization settings.
#[verifier::external_body]
fn quant_attributes() -> (attr: imagequant::Attributes) {
    imagequant::Attributes::new()
}

/// Calls `imagequant::Attributes::set_quality`, which by its source fails
/// only when `target` exceeds 100 or is below `minimum`; what it sets inside
/// the attributes is not stated.
#[verifier::external_body]
fn quant_set_quality(attr: &mut imagequant::Attributes, minimum: u8, target: u8) -> (r: Result<(), imagequant::Error>)
    ensures
        minimum <= target <= 100 ==> r is Ok,
{
    attr.set_quality(minimum, target)
}

/// Calls `imagequant::Histogram::new`: an empty colour histogram.
#[verifier::external_body]
fn quant_histogram(attr: &imagequant::Attributes) -> (hist: QuantHistogram)
    ensures
        hist.learned@ == Seq::<(Seq<u8>, nat, nat)>::empty(),
{
    QuantHistogram { hist: imagequant::Histogram::new(attr), learned: Ghost(Seq::empty()) }
}

/// Calls `imagequant::Attributes::new_image_stride` on the RGBA pixels of
/// `pixels` (four bytes each, converted one for one), with a row stride of
/// `width` and gamma 0 (sRGB). On success the image keeps the size it was
/// described with and the pixels it was made from; when libimagequant
/// refuses the description is not stated.
#[verifier::external_body]
fn quant_image(attr: &imagequant::Attributes, pixels: &[u8], width: usize, height: usize) -> (r: Result<QuantImage, imagequant::Error>)
    requires
        pixels@.len() % 4 == 0,
    ensures
        r matches Ok(img) ==> img.width == width && img.height == height && img.pixels@ == pixels@,
{
    let rgba: Vec<imagequant::RGBA> = pixels.chunks_exact(4).map(|c| imagequant::RGBA::new(c[0], c[1], c[2], c[3])).collect();
    let image = attr.new_image_stride(rgba, width, height, width, Default::default())?;
    Ok(QuantImage { image, width, height, pixels: Ghost(pixels@) })
}

/// Calls `imagequant::Histogram::add_image`, which learns the image's colours;
/// it may fail, and what it learns is not stated beyond which image it was.
/// The image is kept.
#[verifier::external_body]
fn quant_add_image(hist: &mut QuantHistogram, attr: &imagequant::Attributes, image: &mut QuantImage) -> (r: Result<(), imagequant::Error>)
    ensures
        final(image).width == old(image).width,
        final(image).height == old(image).height,
        final(image).pixels@ == old(image).pixels@,
        r is Ok ==> final(hist).learned@ == old(hist).learned@.push(
            (old(image).pixels@, old(image).width as nat, old(image).height as nat)),
{
    hist.learned = Ghost(hist.learned@.push((image.pixels@, image.width as nat, image.height as nat)));
    hist.hist.add_image(attr, &mut image.image)
}

/// Calls `imagequant::Histogram::quantize`, which builds the palette from
/// the histogram; by its source it fails on a histogram that no image was
/// added to, it may fail otherwise, and the palette is not stated.
#[verifier::external_body]
fn quant_quantize(hist: &mut QuantHistogram, attr: &imagequant::Attributes) -> (r: Result<QuantResult, imagequant::Error>)
    ensures
        old(hist).learned@.len() == 0 ==> r is Err,
        r matches Ok(res) ==> res.learned@ == old(hist).learned@ && res.palette_len@ is None
            && res.remaps@ == Seq::<(Seq<[u8; 4]>, Seq<u8>)>::empty(),
{
    let res = hist.hist.quantize(attr)?;
    Ok(QuantResult { res, learned: Ghost(hist.learned@), palette_len: Ghost(None), remaps: Ghost(Seq::empty()) })
}

/// Calls `imagequant::QuantizationResult::remapped`, which returns the
/// palette (each entry converted to its four RGBA bytes) and one palette
/// index per pixel. By its source: exactly `width * height` indices; a
/// palette of `L` entries, `L` being the length of the result's own palette,
/// which remapping does not change (a copy of it is refined), so that `L` is
/// the same for every image remapped with one result; `L` is at least 1
/// (remapping fails on an empty palette) and at most 256 (the palette is a
/// slice of a 256-entry array); every index is one found among the `L`
/// entries. The palette returned is empty instead when the copy of it cannot
/// be allocated. Which palette and which indices is not stated.
#[verifier::external_body]
fn quant_remapped(res: &mut QuantResult, image: &mut QuantImage) -> (r: Result<(Vec<[u8; 4]>, Vec<u8>), imagequant::Error>)
    ensures
        final(image).width == old(image).width,
        final(image).height == old(image).height,
        final(image).pixels@ == old(image).pixels@,
        final(res).learned@ == old(res).learned@,
        r is Err ==> final(res).palette_len@ == old(res).palette_len@,
        r matches Ok((pal, px)) ==> {
            &&& final(res).remaps@ == old(res).remaps@.push((pal@, px@))
            &&& px@.len() == old(image).width * old(image).height
            &&& final(res).palette_len@ matches Some(l) && {
                &&& 1 <= l <= 256
                &&& (old(res).palette_len@ matches Some(l0) ==> l0 == l)
                &&& (pal@.len() == l || pal@.len() == 0)
                &&& forall|k: int| 0 <= k < px@.len() ==> (#[trigger] px@[k]) < l
            }
        },
{
    let len = res.res.palette_len();
    let (pal, px) = res.res.remapped(&mut image.image)?;
    let pal: Vec<[u8; 4]> = pal.iter().map(|p| [p.r, p.g, p.b, p.a]).collect();
    res.palette_len = Ghost(Some(len as nat));
    res.remaps = Ghost(res.remaps@.push((pal@, px@)));
    Ok((pal, px))
}


/// The palette's colours without alpha, and its alphas, entry by entry.
pub fn split_palette(pal: &[[u8; 4]]) -> (r: (Vec<[u8; 3]>, Vec<u8>))
    ensures
        r.0@.len() == pal@.len(),
        r.1@.len() == pal@.len(),
        forall|i: int| 0 <= i < pal@.len() ==> {
            &&& (#[trigger] r.0@[i])@ == pal@[i]@.subrange(0, 3)
            &&& r.1@[i] == pal@[i]@[3]
        },
{
    let mut colors: Vec<[u8; 3]> = Vec::new();
    let mut alphas: Vec<u8> = Vec::new();
    let mut i: usize = 0;
    while i < pal.len()
        invariant
            i <= pal@.len(),
            colors@.len() == i,
            alphas@.len() == i,
            forall|j: int| 0 <= j < i ==> {
                &&& (#[trigger] colors@[j])@ == pal@[j]@.subrange(0, 3)
                &&& alphas@[j] == pal@[j]@[3]
            },
        decreases pal@.len() - i,
    {
        let entry: [u8; 4] = pal[i];
        let rgb: [u8; 3] = [entry[0], entry[1], entry[2]];
        assert(rgb@ =~= entry@.subrange(0, 3));
        let ghost old_colors = colors@;
        let ghost old_alphas = alphas@;
        let a = entry[3];
        assert(a == entry@[3]);
        colors.push(rgb);
        alphas.push(a);
        assert(entry == pal@[i as int]);
        assert forall|j: int| 0 <= j < i + 1 implies {
            &&& (#[trigger] colors@[j])@ == pal@[j]@.subrange(0, 3)
            &&& alphas@[j] == pal@[j]@[3]
        } by {
            if j < i {
                assert(colors@[j] == old_colors[j]);
                assert(alphas@[j] == old_alphas[j]);
            }
        }
        assert(colors@.len() == i + 1);
        i = i + 1;
        assert(forall|j: int| 0 <= j < i ==> {
                &&& (#[trigger] colors@[j])@ == pal@[j]@.subrange(0, 3)
                &&& alphas@[j] == pal@[j]@[3]
            });
    }
    (colors, alphas)
}

/// The views of the frames.
pub open spec fn frame_bytes(frames: Seq<Vec<u8>>) -> Seq<Seq<u8>> {
    frames.map_values(|f: Vec<u8>| f@)
}

/// Puts the frames and the palette together from the remappings, in order:
/// frame `i` is the indices of remapping `i`, and the palette and its alphas
/// are the first remapping's palette split entry by entry. Fails when the
/// first palette is empty.
pub fn assemble_quantized(remaps: Vec<(Vec<[u8; 4]>, Vec<u8>)>) -> (r: Result<(Vec<Vec<u8>>, Vec<[u8; 3]>, Vec<u8>), String>)
    ensures
        r is Err <==> remaps@.len() > 0 && remaps@[0].0@.len() == 0,
        r matches Err(m) ==> m@ == "Failed to remap image"@,
        r matches Ok((frames, palette, transparency)) ==> assembled(remap_views(remaps@), frame_bytes(frames@), palette@, transparency@),
{
    let ghost all = remap_views(remaps@);
    let mut palette: Vec<[u8; 3]> = Vec::new();
    let mut transparency: Vec<u8> = Vec::new();
    if remaps.len() > 0 {
        if remaps[0].0.len() == 0 {
            return Err("Failed to remap image".to_owned());
        }
        let (colors, alphas) = split_palette(remaps[0].0.as_slice());
        palette = colors;
        transparency = alphas;
        assert(all[0].0 == remaps@[0].0@);
    }
    let total = remaps.len();
    let mut rest = remaps;
    let mut frames: Vec<Vec<u8>> = Vec::new();
    let mut i: usize = 0;
    while rest.len() > 0
        invariant
            i <= total,
            all.len() == total,
            rest@.len() == total - i,
            frames@.len() == i,
            forall|j: int| 0 <= j < rest@.len() ==> (#[trigger] rest@[j]).1@ == all[i + j].1,
            forall|j: int| 0 <= j < i ==> (#[trigger] frames@[j])@ == all[j].1,
            total > 0 ==> palette_split(palette@, transparency@, all[0].0),
            total == 0 ==> palette@.len() == 0 && transparency@.len() == 0,
        decreases rest@.len(),
    {
        let ghost before = rest@;
        let (_, px) = rest.remove(0);
        assert(px@ == all[i as int].1);
        frames.push(px);
        assert forall|j: int| 0 <= j < rest@.len() implies (#[trigger] rest@[j]).1@ == all[i + 1 + j].1 by {
            assert(rest@[j] == before[j + 1]);
        }
        i = i + 1;
    }
    assert(frame_bytes(frames@) =~= Seq::new(total as nat, |j: int| all[j].1));
    Ok((frames, palette, transparency))
}

/// Builds one palette of at most 256 colours for all the RGBA frames (quality
/// 0 to 100), learned from every frame in order, and remaps every frame onto
/// it in order. The palette returned is the one given with the first frame's
/// remapping, split into colours and alphas. Which palette and which indices
/// libimagequant picks is its own, and each of its steps may fail.
pub fn quantize_frames(frames: &[Vec<u8>], width: u32, height: u32) -> (r: Result<QuantizedData, String>)
    requires
        forall|i: int| 0 <= i < frames@.len() ==> (#[trigger] frames@[i])@.len() % 4 == 0,
    ensures
        r matches Ok(q) ==> valid_quantization(q@, frame_bytes(frames@), width as nat, height as nat),
        r matches Err(m) ==> {
            ||| m@ == "Failed to create imagequant image"@
            ||| m@ == "Failed to add image to histogram"@
            ||| m@ == "Failed to quantize histogram"@
            ||| m@ == "Failed to remap image"@
        },
{
    let ghost inputs = frame_bytes(frames@);
    let ghost descs = described(inputs, width as nat, height as nat);
    let mut attr = quant_attributes();
    let quality = quant_set_quality(&mut attr, 0, 100);
    if quality.is_err() {
        return Err("Failed to set quality".to_owned());
    }
    let mut hist = quant_histogram(&attr);
    let w = width as usize;
    let h = height as usize;

    let mut images: Vec<QuantImage> = Vec::new();
    let mut k: usize = 0;
    assert(descs.subrange(0, 0) =~= Seq::<(Seq<u8>, nat, nat)>::empty());
    while k < frames.len()
        invariant
            k <= frames@.len(),
            w == width, h == height,
            inputs == frame_bytes(frames@),
            descs == described(inputs, width as nat, height as nat),
            forall|i: int| 0 <= i < frames@.len() ==> (#[trigger] frames@[i])@.len() % 4 == 0,
            images@.len() == k,
            hist.learned@ == descs.subrange(0, k as int),
            forall|i: int| 0 <= i < k ==> (#[trigger] images@[i]).width == w && images@[i].height == h
                && images@[i].pixels@ == inputs[i],
        decreases frames@.len() - k,
    {
        let frame_data = &frames[k];
        assert(frames@[k as int]@.len() % 4 == 0);
        let made = quant_image(&attr, frame_data.as_slice(), w, h);
        let mut image = match made {
            Ok(img) => img,
            Err(_) => {
                return Err("Failed to create imagequant image".to_owned());
            },
        };
        let added = quant_add_image(&mut hist, &attr, &mut image);
        if added.is_err() {
            return Err("Failed to add image to histogram".to_owned());
        }
        assert(hist.learned@ =~= descs.subrange(0, k + 1));
        images.push(image);
        k = k + 1;
    }
    assert(hist.learned@ =~= descs);

    let mut res = match quant_quantize(&mut hist, &attr) {
        Ok(r) => r,
        Err(_) => {
            return Err("Failed to quantize histogram".to_owned());
        },
    };

    let mut remapped: Vec<(Vec<[u8; 4]>, Vec<u8>)> = Vec::new();
    let ghost mut remapped_from: Seq<(Seq<u8>, nat, nat)> = Seq::empty();
    let n = images.len();
    let mut i: usize = 0;
    assert(remap_views(remapped@) =~= Seq::<(Seq<[u8; 4]>, Seq<u8>)>::empty());
    while i < n
        invariant
            i <= n,
            n == frames@.len(),
            n == inputs.len(),
            descs == described(inputs, width as nat, height as nat),
            res.learned@ == descs,
            images@.len() == n - i,
            forall|j: int| 0 <= j < images@.len() ==> (#[trigger] images@[j]).width == width && images@[j].height == height
                && images@[j].pixels@ == inputs[i + j],
            remapped@.len() == i,
            res.remaps@ == remap_views(remapped@),
            remapped_from == descs.subrange(0, i as int),
            forall|j: int| 0 <= j < i ==> (#[trigger] remapped@[j]).1@.len() == width as int * height as int,
            i == 0 <==> res.palette_len@ is None,
            res.palette_len@ matches Some(l) ==> {
                &&& 1 <= l <= 256
                &&& (remapped@[0].0@.len() == l || remapped@[0].0@.len() == 0)
                &&& forall|j: int, p: int| 0 <= j < i && 0 <= p < remapped@[j].1@.len()
                    ==> (#[trigger] remapped@[j].1@[p]) < l
            },
        decreases n - i,
    {
        let ghost before = images@;
        let mut image = images.remove(0);
        assert(image == before[0]);
        let (pal, remapped_pixels) = match quant_remapped(&mut res, &mut image) {
            Ok(r) => r,
            Err(_) => {
                return Err("Failed to remap image".to_owned());
            },
        };
        let ghost old_remapped = remapped@;
        remapped.push((pal, remapped_pixels));
        proof {
            assert(res.remaps@ =~= remap_views(remapped@));
            remapped_from = remapped_from.push((image.pixels@, image.width as nat, image.height as nat));
            assert(remapped_from =~= descs.subrange(0, i + 1));
            assert forall|j: int| 0 <= j < images@.len() implies (#[trigger] images@[j]).width == width
                && images@[j].height == height && images@[j].pixels@ == inputs[i + 1 + j] by {
                assert(images@[j] == before[j + 1]);
            }
            assert forall|j: int| 0 <= j < i + 1 implies (#[trigger] remapped@[j]).1@.len() == width as int * height as int by {
                if j < i {
                    assert(remapped@[j] == old_remapped[j]);
                }
            }
            let l = res.palette_len@->Some_0;
            assert(remapped@[0].0@.len() == l || remapped@[0].0@.len() == 0);
            assert forall|j: int, p: int| 0 <= j < i + 1 && 0 <= p < remapped@[j].1@.len()
                implies (#[trigger] remapped@[j].1@[p]) < l by {
                if j < i {
                    assert(remapped@[j] == old_remapped[j]);
                }
            }
        }
        i = i + 1;
    }
    assert(remapped_from =~= descs);
    let ghost remaps = res.remaps@;
    let (quantized_frames, final_palette, final_transparency) = match assemble_quantized(remapped) {
        Ok(parts) => parts,
        Err(m) => {
            return Err(m);
        },
    };
    let q = QuantizedData {
        frames: quantized_frames,
        palette: final_palette,
        transparency: final_transparency,
        sources: Ghost(remapped_from),
        remaps: Ghost(remaps),
    };
    assert(q@.frames =~= frame_bytes(quantized_frames@));
    Ok(q)
}

} // verus!
