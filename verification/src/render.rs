//! Pixel and buffer layout of a render: where each pixel of the image lives
//! in the pixel buffer, how the buffer is split between render threads, and
//! how pixels are read back from a row-padded GPU buffer.
use vstd::prelude::*;
use vstd::arithmetic::div_mod::{lemma_fundamental_div_mod_converse, lemma_mod_multiples_vanish};

verus! {

/// The coordinates `(x, y)` of the pixel stored at `index` of a buffer whose
/// rows are `width` pixels long.
pub fn pixel_coordinates(index: usize, width: usize) -> (xy: (usize, usize))
    requires
        width > 0,
    ensures
        xy.0 == index % width,
        xy.1 == index / width,
        xy.0 < width,
        xy.1 * width + xy.0 == index,
{
    let x = index % width;
    let y = index / width;
    proof {
        vstd::arithmetic::div_mod::lemma_fundamental_div_mod(index as int, width as int);
        assert(y * width + x == index) by (nonlinear_arith)
            requires
                index as int == width * (index as int / width as int) + index as int % width as int,
                y == index / width,
                x == index % width,
        ;
    }
    (x, y)
}

/// The index in the pixel buffer of the pixel at `(x, y)`, with rows `width` pixels long.
pub fn pixel_index(x: u32, y: u32, width: u32) -> (index: u32)
    requires
        y * width + x <= u32::MAX,
    ensures
        index == y * width + x,
{
    proof {
        assert(0 <= y * width <= y * width + x) by (nonlinear_arith);
    }
    y * width + x
}

/// Reading back the coordinates of a pixel index gives the pixel.
pub proof fn lemma_coordinates_of_index(x: int, y: int, width: int)
    requires
        0 <= x < width,
        0 <= y,
    ensures
        (y * width + x) % width == x,
        (y * width + x) / width == y,
{
    lemma_fundamental_div_mod_converse(y * width + x, width, y, x);
}

/// Going from an index to coordinates and back gives the index.
pub proof fn lemma_index_of_coordinates(index: int, width: int)
    requires
        0 <= index,
        0 < width,
    ensures
        (index / width) * width + index % width == index,
        0 <= index % width < width,
{
    vstd::arithmetic::div_mod::lemma_fundamental_div_mod(index, width);
    vstd::arithmetic::mul::lemma_mul_is_commutative(width, index / width);
}

/// The number of pixels of an image.
pub fn pixel_count(width: u32, height: u32) -> (pixels: u64)
    requires
        width * height <= u32::MAX,
    ensures
        pixels == width * height,
{
    (width * height) as u64
}

/// The approximate number of rays of a render: one per pixel, sample and bounce.
pub fn approx_rays(width: u32, height: u32, samples: u32, max_depth: u32) -> (rays: u64)
    requires
        width * height * samples * max_depth <= u64::MAX,
    ensures
        rays == width * height * samples * max_depth,
{
    let w = width as u64;
    let h = height as u64;
    let s = samples as u64;
    let d = max_depth as u64;
    if s == 0 || d == 0 {
        proof {
            assert(w * h * s * d == 0) by (nonlinear_arith)
                requires
                    s == 0 || d == 0,
            ;
        }
        return 0;
    }
    proof {
        assert(w * h <= w * h * s && w * h * s <= w * h * s * d) by (nonlinear_arith)
            requires
                s >= 1,
                d >= 1,
                w >= 0,
                h >= 0,
        ;
    }
    w * h * s * d
}

/// How a pixel buffer of `pixels` pixels is shared between `threads` render
/// threads: thread `t` renders the `pixels / threads` pixels starting at
/// `t * (pixels / threads)`, and the last thread also renders the pixels that
/// are left over, up to the end of the buffer.
pub fn thread_chunks(pixels: usize, threads: usize) -> (chunks: Vec<(usize, usize)>)
    requires
        0 < threads <= pixels,
    ensures
        chunks.len() == threads,
        forall|t: int|
            0 <= t < threads - 1 ==> #[trigger] chunks@[t] == (
                (t * (pixels / threads)) as usize,
                ((t + 1) * (pixels / threads)) as usize,
            ),
        chunks@[threads - 1] == (((threads - 1) * (pixels / threads)) as usize, pixels),
        chunks@[0].0 == 0,
        forall|t: int| 0 <= t < threads - 1 ==> (#[trigger] chunks@[t]).1 == chunks@[t + 1].0,
        forall|t: int| 0 <= t < threads ==> (#[trigger] chunks@[t]).0 <= chunks@[t].1,
{
    let chunk_size = pixels / threads;
    let mut chunks: Vec<(usize, usize)> = Vec::new();
    let mut t: usize = 0;
    proof {
        vstd::arithmetic::div_mod::lemma_fundamental_div_mod(pixels as int, threads as int);
        assert(threads * chunk_size <= pixels) by (nonlinear_arith)
            requires
                pixels == threads * (pixels / threads) + pixels % threads,
                pixels % threads >= 0,
                chunk_size == pixels / threads,
        ;
    }
    while t < threads
        invariant
            t <= threads,
            chunk_size == pixels / threads,
            threads * chunk_size <= pixels,
            chunks.len() == t,
            forall|u: int|
                0 <= u < t && u < threads - 1 ==> #[trigger] chunks@[u] == (
                    (u * (pixels / threads)) as usize,
                    ((u + 1) * (pixels / threads)) as usize,
                ),
            t == threads ==> chunks@[threads - 1] == (((threads - 1) * (pixels / threads)) as usize, pixels),
            forall|u: int| 0 <= u < t ==> (#[trigger] chunks@[u]).0 <= chunks@[u].1,
        decreases threads - t,
    {
        proof {
            assert((t + 1) * chunk_size <= threads * chunk_size) by (nonlinear_arith)
                requires
                    t + 1 <= threads,
                    chunk_size >= 0,
            ;
            assert(t * chunk_size <= (t + 1) * chunk_size) by (nonlinear_arith)
                requires
                    chunk_size >= 0,
            ;
        }
        assert(t * chunk_size + chunk_size == (t + 1) * chunk_size) by (nonlinear_arith);
        let start = t * chunk_size;
        let end = if t + 1 == threads {
            pixels
        } else {
            start + chunk_size
        };
        assert(t + 1 < threads ==> end == (t + 1) * chunk_size) by (nonlinear_arith)
            requires
                t + 1 < threads ==> end == start + chunk_size,
                start == t * chunk_size,
        ;
        assert(start <= end) by (nonlinear_arith)
            requires
                start == t * chunk_size,
                t + 1 < threads ==> end == (t + 1) * chunk_size,
                t + 1 == threads ==> end == pixels,
                (t + 1) * chunk_size <= threads * chunk_size,
                threads * chunk_size <= pixels,
                chunk_size >= 0,
        ;
        chunks.push((start, end));
        t = t + 1;
    }
    assert(chunks@[0].0 == 0) by (nonlinear_arith)
        requires
            threads > 1 ==> chunks@[0] == ((0 * (pixels / threads)) as usize, ((0 + 1) * (pixels / threads)) as usize),
            threads == 1 ==> chunks@[0] == ((0 * (pixels / threads)) as usize, pixels),
            threads >= 1,
    ;
    assert forall|u: int| 0 <= u < threads - 1 implies (#[trigger] chunks@[u]).1 == chunks@[u + 1].0 by {
        assert((u + 1) * chunk_size == (u + 1) * chunk_size);
        if u + 1 < threads - 1 {
            assert(chunks@[u + 1] == (((u + 1) * chunk_size) as usize, ((u + 2) * chunk_size) as usize));
        }
    }
    chunks
}

/// The width of a padded row: `unpadded` rounded up to a multiple of `align`.
pub open spec fn padded_row(unpadded: int, align: int) -> int {
    unpadded + (align - unpadded % align) % align
}

/// Dimensions of a row-padded buffer of 4-byte pixels, whose rows must start
/// at multiples of a required alignment.
#[derive(Debug, Clone, Copy)]
pub struct BufferDimensions {
    /// Width of the image in pixels
    pub width: usize,
    /// Height of the image in pixels
    pub height: usize,
    /// The bytes of one row of pixels
    pub unpadded_bytes_per_row: usize,
    /// The bytes of one row in the buffer, pixels and padding
    pub padded_bytes_per_row: usize,
}

impl BufferDimensions {
    /// Whether the dimensions describe rows of `width` 4-byte pixels padded to
    /// no fewer bytes than they hold.
    pub open spec fn wf(self) -> bool {
        &&& self.unpadded_bytes_per_row == self.width * 4
        &&& self.unpadded_bytes_per_row <= self.padded_bytes_per_row
    }

    /// Dimensions for an image of `width` by `height` pixels of `u32` size,
    /// with each row padded to a multiple of `align` bytes.
    pub fn new(width: usize, height: usize, align: usize) -> (d: Self)
        requires
            align > 0,
            width * 4 + align <= usize::MAX,
        ensures
            d.width == width,
            d.height == height,
            d.unpadded_bytes_per_row == width * 4,
            d.padded_bytes_per_row == padded_row(width * 4, align as int),
            d.wf(),
    {
        broadcast use vstd::layout::layout_of_primitives;
        let bytes_per_pixel = core::mem::size_of::<u32>();
        let unpadded_bytes_per_row = width * bytes_per_pixel;
        let padded_bytes_per_row_padding = (align - unpadded_bytes_per_row % align) % align;
        let padded_bytes_per_row = unpadded_bytes_per_row + padded_bytes_per_row_padding;
        BufferDimensions { width, height, unpadded_bytes_per_row, padded_bytes_per_row }
    }

    /// Reads the pixels back from a padded buffer: for each row, the first
    /// `unpadded_bytes_per_row` bytes, cut into 4-byte pixels. Pixel `i` of
    /// the result is pixel `i % width` of row `i / width`.
    pub fn unpadded_pixels(&self, buffer: &Vec<u8>) -> (pixels: Vec<[u8; 4]>)
        requires
            self.wf(),
            self.width > 0,
            buffer.len() == self.padded_bytes_per_row * self.height,
        ensures
            pixels.len() == self.width * self.height,
            forall|i: int|
                0 <= i < pixels.len() ==> (#[trigger] pixels@[i])@ == buffer@.subrange(
                    (i / self.width as int) * self.padded_bytes_per_row + 4 * (i % self.width as int),
                    (i / self.width as int) * self.padded_bytes_per_row + 4 * (i % self.width as int) + 4,
                ),
    {
        let w = self.width;
        let h = self.height;
        let padded = self.padded_bytes_per_row;
        let mut pixels: Vec<[u8; 4]> = Vec::new();
        let mut y: usize = 0;
        while y < h
            invariant
                y <= h,
                w == self.width,
                h == self.height,
                padded == self.padded_bytes_per_row,
                self.wf(),
                w > 0,
                buffer.len() == padded * h,
                pixels.len() == y * w,
                forall|i: int|
                    0 <= i < pixels.len() ==> (#[trigger] pixels@[i])@ == buffer@.subrange(
                        (i / w as int) * padded + 4 * (i % w as int),
                        (i / w as int) * padded + 4 * (i % w as int) + 4,
                    ),
            decreases h - y,
        {
            let mut x: usize = 0;
            proof {
                assert((y + 1) * padded <= h * padded) by (nonlinear_arith)
                    requires
                        y + 1 <= h,
                        padded >= 0,
                ;
                assert(y * padded + padded == (y + 1) * padded) by (nonlinear_arith);
                assert(h * padded == padded * h) by (nonlinear_arith);
            }
            while x < w
                invariant
                    y < h,
                    x <= w,
                    w == self.width,
                    padded == self.padded_bytes_per_row,
                    self.wf(),
                    w > 0,
                    buffer.len() == padded * h,
                    y * padded + padded <= buffer.len(),
                    pixels.len() == y * w + x,
                    forall|i: int|
                        0 <= i < pixels.len() ==> (#[trigger] pixels@[i])@ == buffer@.subrange(
                            (i / w as int) * padded + 4 * (i % w as int),
                            (i / w as int) * padded + 4 * (i % w as int) + 4,
                        ),
                decreases w - x,
            {
                proof {
                    assert(0 <= y * padded) by (nonlinear_arith);
                }
                let base = y * padded + 4 * x;
                let pixel = [buffer[base], buffer[base + 1], buffer[base + 2], buffer[base + 3]];
                let ghost i = pixels.len() as int;
                proof {
                    lemma_coordinates_of_index(x as int, y as int, w as int);
                    assert(i == y * w + x);
                    assert(pixel@ =~= buffer@.subrange(base as int, base + 4));
                }
                pixels.push(pixel);
                x = x + 1;
            }
            proof {
                assert(pixels.len() == (y + 1) * w) by (nonlinear_arith)
                    requires
                        pixels.len() == y * w + w,
                ;
            }
            y = y + 1;
        }
        assert(h * w == w * h) by (nonlinear_arith);
        pixels
    }
}

/// Padding rounds a row up to the next multiple of the alignment: the padded
/// row is a multiple of the alignment, at least the unpadded row, and less
/// than one alignment longer.
pub proof fn lemma_padded_row(unpadded: int, align: int)
    requires
        0 <= unpadded,
        0 < align,
    ensures
        padded_row(unpadded, align) % align == 0,
        unpadded <= padded_row(unpadded, align) < unpadded + align,
{
    let r = unpadded % align;
    let q = unpadded / align;
    vstd::arithmetic::div_mod::lemma_fundamental_div_mod(unpadded, align);
    if r == 0 {
        assert((align - r) % align == 0) by {
            vstd::arithmetic::div_mod::lemma_mod_self_0(align);
        }
        assert(padded_row(unpadded, align) == unpadded);
    } else {
        assert((align - r) % align == align - r) by {
            vstd::arithmetic::div_mod::lemma_small_mod((align - r) as nat, align as nat);
        }
        assert(padded_row(unpadded, align) == align * (q + 1)) by (nonlinear_arith)
            requires
                unpadded == align * q + r,
                padded_row(unpadded, align) == unpadded + (align - r),
        ;
        lemma_mod_multiples_vanish(q + 1, 0, align);
    }
}

} // verus!
