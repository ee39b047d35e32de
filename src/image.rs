//! Image geometry: pixel coordinates, the order in which pixels are emitted,
//! and the per-pixel tasks and random seeds of a render.
use vstd::prelude::*;

verus! {

/// Size of the rendered image in pixels.
#[derive(Clone, Copy, Debug, PartialEq, Eq, Structural)]
pub struct ImageSize {
    pub width: u32,
    pub height: u32,
}

/// A pixel position. Row 0 is the bottom scanline, since the camera's vertical
/// image coordinate grows upward; column 0 is the left edge.
#[derive(Clone, Copy, Debug, PartialEq, Eq, Structural)]
pub struct PixelCoord {
    pub row: u32,
    pub col: u32,
}

/// A finished pixel: red, green and blue, each in `0..=255`.
#[derive(Clone, Copy, Debug, PartialEq, Eq, Structural)]
pub struct Rgb {
    pub r: u8,
    pub g: u8,
    pub b: u8,
}

/// The order in which scanlines are emitted. Within a scanline pixels always
/// go left to right.
#[derive(Clone, Copy, Debug, PartialEq, Eq, Structural)]
pub enum ScanOrder {
    TopDown,
    BottomUp,
}

impl ImageSize {
    pub open spec fn pixel_count_spec(self) -> int {
        self.width * self.height
    }

    /// Every pixel of the image has an index that fits in `usize`.
    pub open spec fn wf(self) -> bool {
        self.pixel_count_spec() <= usize::MAX
    }

    pub open spec fn contains(self, c: PixelCoord) -> bool {
        c.row < self.height && c.col < self.width
    }

    /// Number of pixels in the image.
    pub fn pixel_count(&self) -> (n: usize)
        requires
            self.wf(),
        ensures
            n == self.pixel_count_spec(),
    {
        self.width as usize * self.height as usize
    }
}

/// Position of pixel `c` in the emitted sequence.
pub open spec fn emission_index_spec(size: ImageSize, order: ScanOrder, c: PixelCoord) -> int {
    match order {
        ScanOrder::TopDown => (size.height - 1 - c.row) * size.width + c.col,
        ScanOrder::BottomUp => c.row * size.width + c.col,
    }
}

/// The pixel emitted at position `k`.
pub open spec fn pixel_at_spec(size: ImageSize, order: ScanOrder, k: int) -> PixelCoord {
    let line = k / size.width as int;
    let col = k % size.width as int;
    match order {
        ScanOrder::TopDown => PixelCoord { row: (size.height - 1 - line) as u32, col: col as u32 },
        ScanOrder::BottomUp => PixelCoord { row: line as u32, col: col as u32 },
    }
}

proof fn lemma_line_bound(w: int, h: int, line: int, col: int)
    requires
        0 <= line < h,
        0 <= col < w,
    ensures
        0 <= line * w + col < w * h,
{
    assert(line * w + col < w * h) by (nonlinear_arith)
        requires
            0 <= line < h,
            0 <= col < w,
    ;
    assert(0 <= line * w) by (nonlinear_arith)
        requires
            0 <= line,
            0 <= col < w,
    ;
}

/// Position `k` of the emitted sequence splits into a scanline and a column.
proof fn lemma_split_index(w: int, h: int, k: int)
    requires
        0 < w,
        0 <= k < w * h,
    ensures
        0 <= k / w < h,
        0 <= k % w < w,
        (k / w) * w + k % w == k,
{
    vstd::arithmetic::div_mod::lemma_fundamental_div_mod(k, w);
    vstd::arithmetic::div_mod::lemma_div_pos_is_pos(k, w);
    vstd::arithmetic::div_mod::lemma_mod_pos_bound(k, w);
    let q = k / w;
    assert(w * q == q * w) by (nonlinear_arith);
    assert(q < h) by (nonlinear_arith)
        requires
            q * w + k % w == k,
            0 <= k % w,
            k < w * h,
            0 < w,
    ;
}

/// A scanline and a column inside the image give back that scanline and column.
proof fn lemma_join_index(w: int, line: int, col: int)
    requires
        0 < w,
        0 <= line,
        0 <= col < w,
    ensures
        (line * w + col) / w == line,
        (line * w + col) % w == col,
{
    vstd::arithmetic::div_mod::lemma_fundamental_div_mod_converse(line * w + col, w, line, col);
}

/// Every pixel of the image has an emission position below the pixel count,
/// and that position leads back to the pixel.
pub proof fn lemma_emission_index_inverse(size: ImageSize, order: ScanOrder, c: PixelCoord)
    requires
        size.contains(c),
    ensures
        0 <= emission_index_spec(size, order, c) < size.pixel_count_spec(),
        pixel_at_spec(size, order, emission_index_spec(size, order, c)) == c,
{
    let w = size.width as int;
    let h = size.height as int;
    let line = match order {
        ScanOrder::TopDown => h - 1 - c.row,
        ScanOrder::BottomUp => c.row as int,
    };
    lemma_line_bound(w, h, line, c.col as int);
    lemma_join_index(w, line, c.col as int);
}

/// Every emission position below the pixel count names a pixel of the image,
/// whose emission position it is.
pub proof fn lemma_pixel_at_inverse(size: ImageSize, order: ScanOrder, k: int)
    requires
        0 <= k < size.pixel_count_spec(),
    ensures
        size.contains(pixel_at_spec(size, order, k)),
        emission_index_spec(size, order, pixel_at_spec(size, order, k)) == k,
{
    let w = size.width as int;
    let h = size.height as int;
    assert(w > 0) by (nonlinear_arith)
        requires
            0 <= k < w * h,
            0 <= w,
            0 <= h,
    ;
    lemma_split_index(w, h, k);
}

/// Position of pixel `c` in the emitted sequence.
pub fn emission_index(size: ImageSize, order: ScanOrder, c: PixelCoord) -> (k: usize)
    requires
        size.wf(),
        size.contains(c),
    ensures
        k == emission_index_spec(size, order, c),
        k < size.pixel_count_spec(),
{
    proof {
        lemma_emission_index_inverse(size, order, c);
    }
    let line: u32 = match order {
        ScanOrder::TopDown => size.height - 1 - c.row,
        ScanOrder::BottomUp => c.row,
    };
    proof {
        lemma_line_bound(size.width as int, size.height as int, line as int, c.col as int);
    }
    line as usize * size.width as usize + c.col as usize
}

/// The pixel emitted at position `k`.
pub fn pixel_at(size: ImageSize, order: ScanOrder, k: usize) -> (c: PixelCoord)
    requires
        size.wf(),
        k < size.pixel_count_spec(),
    ensures
        c == pixel_at_spec(size, order, k as int),
        size.contains(c),
        emission_index_spec(size, order, c) == k,
{
    proof {
        lemma_pixel_at_inverse(size, order, k as int);
        assert(size.width > 0) by (nonlinear_arith)
            requires
                k < size.width * size.height,
        ;
        lemma_split_index(size.width as int, size.height as int, k as int);
    }
    let w = size.width as usize;
    let line = k / w;
    let col = k % w;
    match order {
        ScanOrder::TopDown => PixelCoord { row: size.height - 1 - line as u32, col: col as u32 },
        ScanOrder::BottomUp => PixelCoord { row: line as u32, col: col as u32 },
    }
}

/// Seed of the random source that samples pixel `c`: the render's base seed
/// advanced, modulo 2^64, by the pixel's position in bottom-up order. It names
/// the pixel alone, so no schedule of workers changes what a pixel draws.
pub open spec fn pixel_seed_spec(base: u64, size: ImageSize, c: PixelCoord) -> u64 {
    ((base + emission_index_spec(size, ScanOrder::BottomUp, c)) % 0x1_0000_0000_0000_0000) as u64
}

/// Pixels of one image never share a seed.
pub proof fn lemma_pixel_seed_distinct(base: u64, size: ImageSize, a: PixelCoord, b: PixelCoord)
    requires
        size.wf(),
        size.contains(a),
        size.contains(b),
        a != b,
    ensures
        pixel_seed_spec(base, size, a) != pixel_seed_spec(base, size, b),
{
    lemma_emission_index_inverse(size, ScanOrder::BottomUp, a);
    lemma_emission_index_inverse(size, ScanOrder::BottomUp, b);
    let ka = emission_index_spec(size, ScanOrder::BottomUp, a);
    let kb = emission_index_spec(size, ScanOrder::BottomUp, b);
    assert(ka != kb);
    assert(0 <= ka < 0x1_0000_0000_0000_0000);
    assert(0 <= kb < 0x1_0000_0000_0000_0000);
}

/// Seed of the random source that samples pixel `c`.
pub fn pixel_seed(base: u64, size: ImageSize, c: PixelCoord) -> (seed: u64)
    requires
        size.wf(),
        size.contains(c),
    ensures
        seed == pixel_seed_spec(base, size, c),
{
    let k = emission_index(size, ScanOrder::BottomUp, c) as u64;
    base.wrapping_add(k)
}

/// The work of a render, one task per pixel, listed in emission order.
pub fn render_tasks(size: ImageSize, order: ScanOrder) -> (tasks: Vec<PixelCoord>)
    requires
        size.wf(),
    ensures
        tasks@.len() == size.pixel_count_spec(),
        forall|k: int|
            0 <= k < tasks@.len() ==> #[trigger] tasks@[k] == pixel_at_spec(size, order, k),
{
    let n = size.pixel_count();
    let mut tasks: Vec<PixelCoord> = Vec::new();
    let mut k: usize = 0;
    while k < n
        invariant
            size.wf(),
            n == size.pixel_count_spec(),
            k <= n,
            tasks@.len() == k,
            forall|j: int| 0 <= j < k ==> #[trigger] tasks@[j] == pixel_at_spec(size, order, j),
        decreases n - k,
    {
        tasks.push(pixel_at(size, order, k));
        k = k + 1;
    }
    tasks
}

} // verus!
