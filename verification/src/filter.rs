//! The five PNG scanline filters (None, Sub, Up, Average, Paeth) and their
//! application to a whole image.

use vstd::prelude::*;
use crate::bytes::append_bytes;

verus! {

/// `x - y` modulo 256.
pub open spec fn sub_mod(x: u8, y: u8) -> u8 {
    if x >= y { (x - y) as u8 } else { (x - y + 256) as u8 }
}

/// `x + y` modulo 256.
pub open spec fn add_mod(x: u8, y: u8) -> u8 {
    if x + y < 256 { (x + y) as u8 } else { (x + y - 256) as u8 }
}

/// The byte `bpp` positions to the left of position `i`, or 0 before the row starts.
pub open spec fn left_byte(row: Seq<u8>, i: int, bpp: int) -> u8 {
    if i >= bpp { row[i - bpp] } else { 0 }
}

/// The byte above position `i`, or 0 on the first row.
pub open spec fn up_byte(prev: Option<Seq<u8>>, i: int) -> u8 {
    match prev {
        Some(p) => p[i],
        None => 0,
    }
}

/// The byte above and `bpp` positions to the left of position `i`, or 0.
pub open spec fn up_left_byte(prev: Option<Seq<u8>>, i: int, bpp: int) -> u8 {
    if i >= bpp {
        match prev {
            Some(p) => p[i - bpp],
            None => 0,
        }
    } else {
        0
    }
}

pub open spec fn abs_int(x: int) -> int {
    if x < 0 { -x } else { x }
}

/// The Paeth predictor: whichever of left, up and upper-left is closest to
/// `left + up - upper_left`, ties going to left, then up.
pub open spec fn paeth_predictor(a: u8, b: u8, c: u8) -> u8 {
    let p = a + b - c;
    let pa = abs_int(p - a);
    let pb = abs_int(p - b);
    let pc = abs_int(p - c);
    if pa <= pb && pa <= pc { a } else if pb <= pc { b } else { c }
}

/// The floor of the mean of two bytes.
pub open spec fn average_byte(a: u8, b: u8) -> u8 {
    ((a + b) / 2) as u8
}

/// What a filter subtracts from byte `i` of `row`.
pub open spec fn predictor(ft: u8, row: Seq<u8>, prev: Option<Seq<u8>>, i: int, bpp: int) -> u8 {
    if ft == 1 {
        left_byte(row, i, bpp)
    } else if ft == 2 {
        up_byte(prev, i)
    } else if ft == 3 {
        average_byte(left_byte(row, i, bpp), up_byte(prev, i))
    } else if ft == 4 {
        paeth_predictor(left_byte(row, i, bpp), up_byte(prev, i), up_left_byte(prev, i, bpp))
    } else {
        0
    }
}

/// A filtered scanline of filter type `ft` (1 to 4): the type byte, then for
/// each of the first `row_bytes` bytes its difference with the predictor.
pub open spec fn filtered_bytes(ft: u8, row: Seq<u8>, prev: Option<Seq<u8>>, row_bytes: nat, bpp: nat) -> Seq<u8> {
    seq![ft] + Seq::new(row_bytes, |i: int| sub_mod(row[i], predictor(ft, row, prev, i, bpp as int)))
}

/// The scanline that `apply_filter` emits for a filter type: an unknown type
/// falls back to None, which copies the row behind a 0 byte.
pub open spec fn filter_row(ft: u8, row: Seq<u8>, prev: Option<Seq<u8>>, row_bytes: nat, bpp: nat) -> Seq<u8> {
    if 1 <= ft <= 4 {
        filtered_bytes(ft, row, prev, row_bytes, bpp)
    } else {
        seq![0u8] + row
    }
}

pub open spec fn opt_view(o: Option<&[u8]>) -> Option<Seq<u8>> {
    match o {
        Some(s) => Some(s@),
        None => None,
    }
}

/// Row `y` of an image whose rows are `row_bytes` long.
pub open spec fn image_row(data: Seq<u8>, y: int, row_bytes: int) -> Seq<u8> {
    data.subrange(y * row_bytes, y * row_bytes + row_bytes)
}

/// The row above row `y`, if any.
pub open spec fn image_prev_row(data: Seq<u8>, y: int, row_bytes: int) -> Option<Seq<u8>> {
    if y > 0 { Some(image_row(data, y - 1, row_bytes)) } else { None }
}

/// The filtered image made of the first `rows` rows, each filtered with `ft`.
pub open spec fn filtered_image(data: Seq<u8>, rows: nat, row_bytes: nat, bpp: nat, ft: u8) -> Seq<u8>
    decreases rows,
{
    if rows == 0 {
        seq![]
    } else {
        let y = rows - 1;
        filtered_image(data, (rows - 1) as nat, row_bytes, bpp, ft)
            + filter_row(ft, image_row(data, y, row_bytes as int), image_prev_row(data, y, row_bytes as int), row_bytes, bpp)
    }
}

proof fn lemma_wrapping_sub(x: u8, y: u8)
    ensures
        vstd::wrapping::u8_specs::wrapping_sub(x, y) == sub_mod(x, y),
{
}

/// Filter type 0: the row unchanged behind a 0 byte.
pub fn filter_none(row: &[u8], row_bytes: usize) -> (out: Vec<u8>)
    ensures
        out@ == seq![0u8] + row@,
{
    let mut out: Vec<u8> = Vec::new();
    out.push(0);
    append_bytes(&mut out, row);
    out
}


/// Filter type 1: each byte minus the byte `bpp` positions to its left.
pub fn filter_sub(row: &[u8], row_bytes: usize, bpp: usize) -> (out: Vec<u8>)
    requires
        row_bytes <= row@.len(),
    ensures
        out@ == filtered_bytes(1, row@, None, row_bytes as nat, bpp as nat),
{
    let mut out: Vec<u8> = Vec::new();
    out.push(1);
    let ghost spec = filtered_bytes(1, row@, None, row_bytes as nat, bpp as nat);
    let mut i: usize = 0;
    while i < row_bytes
        invariant
            i <= row_bytes <= row@.len(),
            spec == filtered_bytes(1, row@, None, row_bytes as nat, bpp as nat),
            out@.len() == i + 1,
            forall|j: int| 0 <= j <= i ==> out@[j] == spec[j],
        decreases row_bytes - i,
    {
        let left = if i >= bpp { row[i - bpp] } else { 0 };
        proof { lemma_wrapping_sub(row[i as int], left); }
        out.push(row[i].wrapping_sub(left));
        i = i + 1;
    }
    assert(out@ == spec);
    out
}

/// Filter type 2: each byte minus the byte above it (0 on the first row).
pub fn filter_up(row: &[u8], prev_row: Option<&[u8]>, row_bytes: usize) -> (out: Vec<u8>)
    requires
        row_bytes <= row@.len(),
        prev_row matches Some(p) ==> row_bytes <= p@.len(),
    ensures
        out@ == filtered_bytes(2, row@, opt_view(prev_row), row_bytes as nat, 0),
{
    let mut out: Vec<u8> = Vec::new();
    out.push(2);
    let ghost spec = filtered_bytes(2, row@, opt_view(prev_row), row_bytes as nat, 0);
    let mut i: usize = 0;
    while i < row_bytes
        invariant
            i <= row_bytes <= row@.len(),
            prev_row matches Some(p) ==> row_bytes <= p@.len(),
            spec == filtered_bytes(2, row@, opt_view(prev_row), row_bytes as nat, 0),
            out@.len() == i + 1,
            forall|j: int| 0 <= j <= i ==> out@[j] == spec[j],
        decreases row_bytes - i,
    {
        let up = if let Some(pr) = prev_row { pr[i] } else { 0 };
        proof { lemma_wrapping_sub(row[i as int], up); }
        out.push(row[i].wrapping_sub(up));
        i = i + 1;
    }
    assert(out@ == spec);
    out
}

/// Filter type 3: each byte minus the floor of the mean of its left and upper neighbours.
pub fn filter_average(row: &[u8], prev_row: Option<&[u8]>, row_bytes: usize, bpp: usize) -> (out: Vec<u8>)
    requires
        row_bytes <= row@.len(),
        prev_row matches Some(p) ==> row_bytes <= p@.len(),
    ensures
        out@ == filtered_bytes(3, row@, opt_view(prev_row), row_bytes as nat, bpp as nat),
{
    let mut out: Vec<u8> = Vec::new();
    out.push(3);
    let ghost spec = filtered_bytes(3, row@, opt_view(prev_row), row_bytes as nat, bpp as nat);
    let mut i: usize = 0;
    while i < row_bytes
        invariant
            i <= row_bytes <= row@.len(),
            prev_row matches Some(p) ==> row_bytes <= p@.len(),
            spec == filtered_bytes(3, row@, opt_view(prev_row), row_bytes as nat, bpp as nat),
            out@.len() == i + 1,
            forall|j: int| 0 <= j <= i ==> out@[j] == spec[j],
        decreases row_bytes - i,
    {
        let left = if i >= bpp { row[i - bpp] } else { 0 };
        let up = if let Some(pr) = prev_row { pr[i] } else { 0 };
        let avg = ((left as u16 + up as u16) / 2) as u8;
        proof { lemma_wrapping_sub(row[i as int], avg); }
        out.push(row[i].wrapping_sub(avg));
        i = i + 1;
    }
    assert(out@ == spec);
    out
}

fn abs_i32(x: i32) -> (r: i32)
    requires
        x > i32::MIN,
    ensures
        r == abs_int(x as int),
{
    if x < 0 { -x } else { x }
}

/// Filter type 4: each byte minus the Paeth predictor of its left, upper and
/// upper-left neighbours.
pub fn filter_paeth(row: &[u8], prev_row: Option<&[u8]>, row_bytes: usize, bpp: usize) -> (out: Vec<u8>)
    requires
        row_bytes <= row@.len(),
        prev_row matches Some(p) ==> row_bytes <= p@.len(),
    ensures
        out@ == filtered_bytes(4, row@, opt_view(prev_row), row_bytes as nat, bpp as nat),
{
    let mut out: Vec<u8> = Vec::new();
    out.push(4);
    let ghost spec = filtered_bytes(4, row@, opt_view(prev_row), row_bytes as nat, bpp as nat);
    let mut i: usize = 0;
    while i < row_bytes
        invariant
            i <= row_bytes <= row@.len(),
            prev_row matches Some(p) ==> row_bytes <= p@.len(),
            spec == filtered_bytes(4, row@, opt_view(prev_row), row_bytes as nat, bpp as nat),
            out@.len() == i + 1,
            forall|j: int| 0 <= j <= i ==> out@[j] == spec[j],
        decreases row_bytes - i,
    {
        let a = if i >= bpp { row[i - bpp] } else { 0 };
        let b = if let Some(pr) = prev_row { pr[i] } else { 0 };
        let c = if i >= bpp {
            if let Some(pr) = prev_row { pr[i - bpp] } else { 0 }
        } else {
            0
        };
        let p: i32 = a as i32 + b as i32 - c as i32;
        let pa = abs_i32(p - a as i32);
        let pb = abs_i32(p - b as i32);
        let pc = abs_i32(p - c as i32);
        let pr = if pa <= pb && pa <= pc { a } else if pb <= pc { b } else { c };
        assert(pr == paeth_predictor(a, b, c));
        proof { lemma_wrapping_sub(row[i as int], pr); }
        out.push(row[i].wrapping_sub(pr));
        i = i + 1;
    }
    assert(out@ == spec);
    out
}


proof fn lemma_row_bounds(y: int, height: int, rb: int, len: int)
    requires
        0 <= y < height,
        0 <= rb,
        height * rb <= len,
    ensures
        0 <= y * rb,
        y * rb + rb <= len,
        (y + 1) * rb == y * rb + rb,
        y > 0 ==> (y - 1) * rb + rb == y * rb,
        y > 0 ==> 0 <= (y - 1) * rb,
{
    assert((y + 1) * rb == y * rb + rb) by (nonlinear_arith);
    assert((y + 1) * rb <= height * rb) by (nonlinear_arith)
        requires y + 1 <= height, 0 <= rb;
    assert(0 <= y * rb) by (nonlinear_arith) requires 0 <= y, 0 <= rb;
    if y > 0 {
        assert((y - 1) * rb + rb == y * rb) by (nonlinear_arith);
        assert(0 <= (y - 1) * rb) by (nonlinear_arith) requires 1 <= y, 0 <= rb;
    }
}

/// Filters every row of an image of `height` rows of `width` pixels of `bpp`
/// bytes with filter `filter_type` (an unknown type filters with None), and
/// concatenates the filtered rows.
pub fn apply_filter(data: &[u8], width: u32, height: u32, bpp: usize, filter_type: u8) -> (out: Vec<u8>)
    requires
        width as int * bpp as int <= usize::MAX,
        height as int * (width as int * bpp as int) <= data@.len(),
    ensures
        out@ == filtered_image(data@, height as nat, (width as int * bpp as int) as nat, bpp as nat, filter_type),
        out@.len() == height as int * (width as int * bpp as int + 1),
{
    let row_bytes: usize = (width as usize) * bpp;
    let h: usize = height as usize;
    let mut out: Vec<u8> = Vec::new();
    let dlen = data.len();
    let mut y: usize = 0;
    while y < h
        invariant
            dlen == data@.len(),
            y <= h,
            h == height,
            row_bytes == width as int * bpp as int,
            height as int * row_bytes <= data@.len(),
            out@ == filtered_image(data@, y as nat, row_bytes as nat, bpp as nat, filter_type),
            out@.len() == y as int * (row_bytes + 1),
        decreases h - y,
    {
        proof { lemma_row_bounds(y as int, h as int, row_bytes as int, data@.len() as int); }
        let start = y * row_bytes;
        let end = start + row_bytes;
        let row = &data[start..end];
        let prev_row = if y > 0 {
            Some(&data[(y - 1) * row_bytes..y * row_bytes])
        } else {
            None
        };
        let ghost row_s = image_row(data@, y as int, row_bytes as int);
        let ghost prev_s = image_prev_row(data@, y as int, row_bytes as int);
        assert(row@ == row_s);
        assert(opt_view(prev_row) == prev_s);
        let filtered_row = match filter_type {
            0 => filter_none(row, row_bytes),
            1 => filter_sub(row, row_bytes, bpp),
            2 => filter_up(row, prev_row, row_bytes),
            3 => filter_average(row, prev_row, row_bytes, bpp),
            4 => filter_paeth(row, prev_row, row_bytes, bpp),
            _ => filter_none(row, row_bytes),
        };
        assert(filtered_row@ =~= filter_row(filter_type, row_s, prev_s, row_bytes as nat, bpp as nat));
        append_bytes(&mut out, filtered_row.as_slice());
        proof {
            assert(((y + 1) as int) * (row_bytes + 1) == y as int * (row_bytes + 1) + row_bytes + 1) by (nonlinear_arith);
        }
        y = y + 1;
    }
    out
}


/// `r` is what decoding a scanline of filter type `ft` with filtered bytes
/// `filtered` (type byte first) gives for its first `n` bytes: each byte is
/// the filtered byte plus the predictor computed from the bytes decoded
/// before it and the row above.
pub open spec fn reconstructs(ft: u8, filtered: Seq<u8>, r: Seq<u8>, prev: Option<Seq<u8>>, n: nat, bpp: nat) -> bool {
    &&& r.len() >= n
    &&& forall|i: int| 0 <= i < n ==> #[trigger] r[i] == add_mod(filtered[i + 1], predictor(ft, r, prev, i, bpp as int))
}

proof fn lemma_reconstruction_prefix(ft: u8, filtered: Seq<u8>, r1: Seq<u8>, r2: Seq<u8>, prev: Option<Seq<u8>>, n: nat, bpp: nat, k: nat)
    requires
        bpp >= 1,
        k <= n,
        reconstructs(ft, filtered, r1, prev, n, bpp),
        reconstructs(ft, filtered, r2, prev, n, bpp),
    ensures
        forall|i: int| 0 <= i < k ==> r1[i] == r2[i],
    decreases k,
{
    if k > 0 {
        lemma_reconstruction_prefix(ft, filtered, r1, r2, prev, n, bpp, (k - 1) as nat);
        let i = k - 1;
        assert(r1[i] == add_mod(filtered[i + 1], predictor(ft, r1, prev, i, bpp as int)));
        assert(r2[i] == add_mod(filtered[i + 1], predictor(ft, r2, prev, i, bpp as int)));
        if i >= bpp {
            assert(r1[i - bpp] == r2[i - bpp]);
        }
        assert(predictor(ft, r1, prev, i, bpp as int) == predictor(ft, r2, prev, i, bpp as int));
    }
}

/// Filtering loses nothing: for every filter type, the unfiltered row is the
/// one and only row that decoding the filtered scanline can give (with a
/// pixel size of at least one byte).
pub proof fn lemma_filter_invertible(ft: u8, row: Seq<u8>, prev: Option<Seq<u8>>, row_bytes: nat, bpp: nat, r: Seq<u8>)
    requires
        bpp >= 1,
        row_bytes <= row.len(),
        reconstructs(ft, filter_row(ft, row, prev, row_bytes, bpp), r, prev, row_bytes, bpp),
    ensures
        reconstructs(ft, filter_row(ft, row, prev, row_bytes, bpp), row, prev, row_bytes, bpp),
        r.subrange(0, row_bytes as int) == row.subrange(0, row_bytes as int),
{
    let f = filter_row(ft, row, prev, row_bytes, bpp);
    assert forall|i: int| 0 <= i < row_bytes implies #[trigger] row[i] == add_mod(f[i + 1], predictor(ft, row, prev, i, bpp as int)) by {
        if 1 <= ft <= 4 {
            assert(f[i + 1] == sub_mod(row[i], predictor(ft, row, prev, i, bpp as int)));
        } else {
            assert(f[i + 1] == row[i]);
            assert(predictor(ft, row, prev, i, bpp as int) == 0);
        }
    }
    lemma_reconstruction_prefix(ft, f, r, row, prev, row_bytes, bpp, row_bytes);
    assert(r.subrange(0, row_bytes as int) =~= row.subrange(0, row_bytes as int));
}


/// The first `n` bytes that decoding the filtered scanline `line` (type byte
/// first) with filter type `ft` gives: each byte is the filtered byte plus the
/// predictor computed from the bytes decoded before it and the row above.
pub open spec fn unfilter_row(ft: u8, line: Seq<u8>, prev: Option<Seq<u8>>, n: nat, bpp: nat) -> Seq<u8>
    decreases n,
{
    if n == 0 {
        seq![]
    } else {
        let r = unfilter_row(ft, line, prev, (n - 1) as nat, bpp);
        r.push(add_mod(line[n as int], predictor(ft, r, prev, n - 1, bpp as int)))
    }
}

/// The scanline in position `y` of a filtered image whose rows are
/// `row_bytes` long: its type byte and its `row_bytes` filtered bytes.
pub open spec fn filtered_line(filtered: Seq<u8>, y: int, row_bytes: int) -> Seq<u8> {
    filtered.subrange(y * (row_bytes + 1), y * (row_bytes + 1) + row_bytes + 1)
}

/// The image that decoding the first `rows` scanlines of a filtered image
/// gives, as a PNG decoder does: each scanline decoded with the filter that
/// its type byte names, against the row decoded before it (none for the
/// first row).
pub open spec fn unfiltered_image(filtered: Seq<u8>, rows: nat, row_bytes: nat, bpp: nat) -> Seq<u8>
    decreases rows,
{
    if rows == 0 {
        seq![]
    } else {
        let y = rows - 1;
        let before = unfiltered_image(filtered, (rows - 1) as nat, row_bytes, bpp);
        let line = filtered_line(filtered, y, row_bytes as int);
        let prev = if y > 0 { Some(before.subrange((y - 1) * row_bytes, y * row_bytes)) } else { None };
        before + unfilter_row(line[0], line, prev, row_bytes, bpp)
    }
}

proof fn lemma_unfilter_row_reconstructs(ft: u8, line: Seq<u8>, prev: Option<Seq<u8>>, n: nat, bpp: nat)
    requires
        bpp >= 1,
    ensures
        unfilter_row(ft, line, prev, n, bpp).len() == n,
        reconstructs(ft, line, unfilter_row(ft, line, prev, n, bpp), prev, n, bpp),
    decreases n,
{
    if n > 0 {
        lemma_unfilter_row_reconstructs(ft, line, prev, (n - 1) as nat, bpp);
        let r = unfilter_row(ft, line, prev, (n - 1) as nat, bpp);
        let rn = unfilter_row(ft, line, prev, n, bpp);
        assert forall|i: int| 0 <= i < n implies #[trigger] rn[i] == add_mod(line[i + 1], predictor(ft, rn, prev, i, bpp as int)) by {
            if i < n - 1 {
                assert(rn[i] == r[i]);
                assert(r[i] == add_mod(line[i + 1], predictor(ft, r, prev, i, bpp as int)));
            }
            if i >= bpp {
                assert(rn[i - bpp] == r[i - bpp]);
            }
            assert(predictor(ft, rn, prev, i, bpp as int) == predictor(ft, r, prev, i, bpp as int));
        }
    }
}

proof fn lemma_filter_row_len(ft: u8, row: Seq<u8>, prev: Option<Seq<u8>>, row_bytes: nat, bpp: nat)
    requires
        row.len() == row_bytes,
    ensures
        filter_row(ft, row, prev, row_bytes, bpp).len() == row_bytes + 1,
        filter_row(ft, row, prev, row_bytes, bpp)[0] == (if 1 <= ft <= 4 { ft } else { 0u8 }),
        filter_row(ft, row, prev, row_bytes, bpp) == filter_row(
            filter_row(ft, row, prev, row_bytes, bpp)[0], row, prev, row_bytes, bpp),
{
    if !(1 <= ft <= 4) {
        assert((seq![0u8] + row)[0] == 0u8);
    }
}

proof fn lemma_filtered_lines(data: Seq<u8>, rows: nat, row_bytes: nat, bpp: nat, ft: u8, y: int)
    requires
        rows * row_bytes <= data.len(),
        0 <= y < rows,
    ensures
        filtered_image(data, rows, row_bytes, bpp, ft).len() == rows * (row_bytes + 1),
        filtered_line(filtered_image(data, rows, row_bytes, bpp, ft), y, row_bytes as int)
            == filter_row(ft, image_row(data, y, row_bytes as int), image_prev_row(data, y, row_bytes as int), row_bytes, bpp),
    decreases rows,
{
    let rb = row_bytes as int;
    let last = rows - 1;
    lemma_row_bounds(last, rows as int, rb, data.len() as int);
    lemma_filter_row_len(ft, image_row(data, last, rb), image_prev_row(data, last, rb), row_bytes, bpp);
    let f = filtered_image(data, rows, row_bytes, bpp, ft);
    let fp = filtered_image(data, (rows - 1) as nat, row_bytes, bpp, ft);
    assert(rows * (row_bytes + 1) == (rows - 1) * (row_bytes + 1) + row_bytes + 1) by (nonlinear_arith);
    if rows > 1 {
        assert((rows - 1) * row_bytes <= rows * row_bytes) by (nonlinear_arith);
        lemma_filtered_lines(data, (rows - 1) as nat, row_bytes, bpp, ft, 0);
    }
    assert(fp.len() == (rows - 1) * (row_bytes + 1));
    if y == last {
        assert(filtered_line(f, y, rb) =~= filter_row(ft, image_row(data, y, rb), image_prev_row(data, y, rb), row_bytes, bpp));
    } else {
        assert((rows - 1) * row_bytes <= rows * row_bytes) by (nonlinear_arith);
        lemma_filtered_lines(data, (rows - 1) as nat, row_bytes, bpp, ft, y);
        assert(y * (rb + 1) + rb + 1 <= (rows - 1) * (rb + 1)) by (nonlinear_arith) requires y + 1 <= rows - 1, rb >= 0;
        assert(0 <= y * (rb + 1)) by (nonlinear_arith) requires y >= 0, rb >= 0;
        assert(filtered_line(f, y, rb) =~= filtered_line(fp, y, rb));
    }
}

/// Filtering a whole image loses nothing: for every filter type, decoding the
/// filtered scanlines the way a PNG decoder does, each by its type byte and
/// the row above, gives back the image's rows (with a pixel size of at least
/// one byte).
pub proof fn lemma_unfilter_image(data: Seq<u8>, rows: nat, row_bytes: nat, bpp: nat, ft: u8)
    requires
        bpp >= 1,
        rows * row_bytes <= data.len(),
    ensures
        unfiltered_image(filtered_image(data, rows, row_bytes, bpp, ft), rows, row_bytes, bpp)
            == data.subrange(0, (rows * row_bytes) as int),
{
    lemma_unfilter_prefix(data, rows, row_bytes, bpp, ft, rows);
}

proof fn lemma_unfilter_line(data: Seq<u8>, rows: nat, row_bytes: nat, bpp: nat, ft: u8, y: int)
    requires
        bpp >= 1,
        rows * row_bytes <= data.len(),
        0 <= y < rows,
    ensures
        ({
            let line = filtered_line(filtered_image(data, rows, row_bytes, bpp, ft), y, row_bytes as int);
            unfilter_row(line[0], line, image_prev_row(data, y, row_bytes as int), row_bytes, bpp)
                == image_row(data, y, row_bytes as int)
        }),
{
    let rb = row_bytes as int;
    lemma_row_bounds(y, rows as int, rb, data.len() as int);
    lemma_filtered_lines(data, rows, row_bytes, bpp, ft, y);
    let row = image_row(data, y, rb);
    let prev_row = image_prev_row(data, y, rb);
    assert(row.len() == row_bytes);
    let line = filter_row(ft, row, prev_row, row_bytes, bpp);
    lemma_filter_row_len(ft, row, prev_row, row_bytes, bpp);
    let tag = line[0];
    let r = unfilter_row(tag, line, prev_row, row_bytes, bpp);
    lemma_unfilter_row_reconstructs(tag, line, prev_row, row_bytes, bpp);
    assert(reconstructs(tag, filter_row(tag, row, prev_row, row_bytes, bpp), r, prev_row, row_bytes, bpp));
    lemma_filter_invertible(tag, row, prev_row, row_bytes, bpp, r);
    assert(r =~= row) by {
        assert(r.subrange(0, rb) =~= r);
        assert(row.subrange(0, rb) =~= row);
    }
}

proof fn lemma_unfilter_prefix(data: Seq<u8>, rows: nat, row_bytes: nat, bpp: nat, ft: u8, n: nat)
    requires
        bpp >= 1,
        rows * row_bytes <= data.len(),
        n <= rows,
    ensures
        unfiltered_image(filtered_image(data, rows, row_bytes, bpp, ft), n, row_bytes, bpp)
            == data.subrange(0, (n * row_bytes) as int),
    decreases n,
{
    let rb = row_bytes as int;
    let f = filtered_image(data, rows, row_bytes, bpp, ft);
    if n == 0 {
        assert(data.subrange(0, 0) =~= Seq::<u8>::empty());
    } else {
        let y = n - 1;
        lemma_unfilter_prefix(data, rows, row_bytes, bpp, ft, (n - 1) as nat);
        let before = unfiltered_image(f, (n - 1) as nat, row_bytes, bpp);
        lemma_row_bounds(y, rows as int, rb, data.len() as int);
        let line = filtered_line(f, y, rb);
        let prev = if y > 0 { Some(before.subrange((y - 1) * rb, y * rb)) } else { None };
        assert(prev == image_prev_row(data, y, rb)) by {
            if y > 0 {
                assert(before.subrange((y - 1) * rb, y * rb) =~= data.subrange((y - 1) * rb, (y - 1) * rb + rb));
            }
        }
        lemma_unfilter_line(data, rows, row_bytes, bpp, ft, y);
        let r = unfilter_row(line[0], line, prev, row_bytes, bpp);
        assert(r == image_row(data, y, rb));
        assert(unfiltered_image(f, n, row_bytes, bpp) == before + r);
        assert(y * rb + rb == n * rb) by (nonlinear_arith) requires y == n - 1;
        assert(before + r =~= data.subrange(0, n * rb));
    }
}


/// The Paeth predictor of the PNG specification: of left `a`, up `b` and
/// upper-left `c`, the one nearest to the estimate `a + b - c`; on a tie
/// left is taken before up, and up before upper-left.
pub proof fn lemma_paeth_nearest(a: u8, b: u8, c: u8)
    ensures
        ({
            let e = a + b - c;
            let r = paeth_predictor(a, b, c);
            &&& r == a || r == b || r == c
            &&& abs_int(e - r) <= abs_int(e - a)
            &&& abs_int(e - r) <= abs_int(e - b)
            &&& abs_int(e - r) <= abs_int(e - c)
            &&& abs_int(e - a) == abs_int(e - r) ==> r == a
            &&& abs_int(e - b) == abs_int(e - r) && abs_int(e - a) != abs_int(e - r) ==> r == b
        }),
{
}

/// Filtering with Paeth stores each byte's difference with the Paeth
/// predictor of its left, upper and upper-left neighbours, the one of them
/// nearest to `left + up - upper_left` with ties going to left, then up.
pub proof fn lemma_paeth_filter_bytes(row: Seq<u8>, prev: Option<Seq<u8>>, row_bytes: nat, bpp: nat, i: int)
    requires
        0 <= i < row_bytes,
    ensures
        ({
            let a = left_byte(row, i, bpp as int);
            let b = up_byte(prev, i);
            let c = up_left_byte(prev, i, bpp as int);
            let e = a + b - c;
            let f = filter_row(4, row, prev, row_bytes, bpp);
            exists|r: u8| {
                &&& #[trigger] f[i + 1] == sub_mod(row[i], r)
                &&& (r == a || r == b || r == c)
                &&& abs_int(e - r) <= abs_int(e - a) && abs_int(e - r) <= abs_int(e - b) && abs_int(e - r) <= abs_int(e - c)
                &&& (abs_int(e - a) == abs_int(e - r) ==> r == a)
                &&& (abs_int(e - b) == abs_int(e - r) && abs_int(e - a) != abs_int(e - r) ==> r == b)
            }
        }),
{
    let a = left_byte(row, i, bpp as int);
    let b = up_byte(prev, i);
    let c = up_left_byte(prev, i, bpp as int);
    lemma_paeth_nearest(a, b, c);
    let r = paeth_predictor(a, b, c);
    assert(filter_row(4, row, prev, row_bytes, bpp)[i + 1] == sub_mod(row[i], r));
}
} // verus!
