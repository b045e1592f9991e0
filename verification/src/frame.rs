//! Frame codec: paints byte streams into a 4K RGB image as quantized solid
//! B-by-B blocks, and reads them back by per-channel median of each block.

use vstd::prelude::*;
use vstd::seq_lib::*;
use vstd::relations::{total_ordering, reflexive, antisymmetric, transitive, strongly_connected, sorted_by};
use vstd::arithmetic::div_mod::*;
use vstd::arithmetic::power2::*;
use crate::bits::{stream_bit, bits_val, val_bits, pad_len, byte_bit, BitWriter, BitReader,
    lemma_bit_round_trip, lemma_bits_of_bits_val, lemma_bits_val_bound};
use crate::config::{FrameConfig, spec_bits_per_channel, valid_levels, HEADER_ROWS, FRAME_WIDTH,
    FRAME_HEIGHT};
use crate::quant::{quantize, dequantize, spec_quantize, spec_dequantize,
    lemma_quantize_round_trip};

verus! {

broadcast use vstd::seq_lib::group_to_multiset_ensures;

/// An owned RGB image, 8 bits per channel, row-major with interleaved
/// channels.
pub struct RgbFrame {
    width: u32,
    height: u32,
    pixels: Vec<u8>,
}

impl RgbFrame {
    pub closed spec fn wf(self) -> bool {
        self.pixels@.len() == 3 * ((self.width as int) * (self.height as int))
    }

    pub closed spec fn spec_width(self) -> int {
        self.width as int
    }

    pub closed spec fn spec_height(self) -> int {
        self.height as int
    }

    /// Channel `c` (0 red, 1 green, 2 blue) of the pixel at `(x, y)`.
    pub closed spec fn pixel_val(self, x: int, y: int, c: int) -> u8 {
        self.pixels@[3 * (y * self.width as int + x) + c]
    }

    /// A black frame of the given dimensions.
    pub fn new(width: u32, height: u32) -> (r: Self)
        requires
            3 * ((width as int) * (height as int)) <= usize::MAX as int,
        ensures
            r.wf(),
            r.spec_width() == width as int,
            r.spec_height() == height as int,
            forall|x: int, y: int, c: int|
                0 <= x < width as int && 0 <= y < height as int && 0 <= c < 3
                    ==> #[trigger] r.pixel_val(x, y, c) == 0,
    {
        proof {
            assert(0 <= (width as int) * (height as int)) by (nonlinear_arith);
        }
        let wh: usize = (width as usize) * (height as usize);
        let n: usize = 3 * wh;
        let pixels = vec![0u8; n];
        let r = RgbFrame { width, height, pixels };
        proof {
            assert forall|x: int, y: int, c: int|
                0 <= x < width as int && 0 <= y < height as int && 0 <= c < 3 implies #[trigger] r.pixel_val(
                x,
                y,
                c,
            ) == 0 by {
                lemma_pixel_index(width as int, height as int, x, y);
            }
        }
        r
    }

    /// The frame is internally consistent and has the 4K dimensions.
    pub fn check_4k(&self) -> (r: bool)
        ensures
            r == (self.wf() && self.spec_width() == FRAME_WIDTH as int && self.spec_height()
                == FRAME_HEIGHT as int),
    {
        self.width == FRAME_WIDTH && self.height == FRAME_HEIGHT && self.pixels.len() == 24883200
    }

    pub fn width(&self) -> (r: u32)
        ensures
            r as int == self.spec_width(),
    {
        self.width
    }

    pub fn height(&self) -> (r: u32)
        ensures
            r as int == self.spec_height(),
    {
        self.height
    }

    /// Wrap a raw interleaved RGB buffer; `None` when the length does not
    /// match the dimensions.
    pub fn from_raw(width: u32, height: u32, pixels: Vec<u8>) -> (r: Option<Self>)
        ensures
            r is Some <==> pixels@.len() == 3 * ((width as int) * (height as int)),
            r matches Some(f) ==> f.wf() && f.spec_width() == width as int && f.spec_height()
                == height as int && forall|x: int, y: int, c: int|
                0 <= x < width as int && 0 <= y < height as int && 0 <= c < 3
                    ==> #[trigger] f.pixel_val(x, y, c) == pixels@[3 * (y * width as int + x) + c],
    {
        proof {
            assert(0 <= (width as int) * (height as int) && (width as int) * (height as int)
                <= 0xffffffff * 0xffffffff) by (nonlinear_arith)
                requires
                    width <= 0xffffffffu32 && height <= 0xffffffffu32,
            ;
        }
        let n = pixels.len();
        let w = width as u64;
        let h = height as u64;
        let ok = (n as u64) % 3 == 0 && (n as u64) / 3 == w * h;
        proof {
            vstd::arithmetic::div_mod::lemma_fundamental_div_mod(n as int, 3);
        }
        if ok {
            proof {
                assert(n as int == 3 * ((width as int) * (height as int)));
            }
            Some(RgbFrame { width, height, pixels })
        } else {
            proof {
                assert(n as int != 3 * ((width as int) * (height as int)));
            }
            None
        }
    }

    /// The raw interleaved RGB bytes.
    pub fn as_raw(&self) -> (r: &Vec<u8>)
        requires
            self.wf(),
        ensures
            r@.len() == 3 * (self.spec_width() * self.spec_height()),
            forall|x: int, y: int, c: int|
                0 <= x < self.spec_width() && 0 <= y < self.spec_height() && 0 <= c < 3
                    ==> #[trigger] self.pixel_val(x, y, c) == r@[3 * (y * self.spec_width() + x)
                    + c],
    {
        &self.pixels
    }

    pub fn get_pixel(&self, x: u32, y: u32) -> (r: (u8, u8, u8))
        requires
            self.wf(),
            x < self.spec_width(),
            y < self.spec_height(),
        ensures
            r.0 == self.pixel_val(x as int, y as int, 0),
            r.1 == self.pixel_val(x as int, y as int, 1),
            r.2 == self.pixel_val(x as int, y as int, 2),
    {
        let total = self.pixels.len();
        proof {
            lemma_pixel_index(self.spec_width(), self.spec_height(), x as int, y as int);
        }
        let idx: usize = 3 * ((y as usize) * (self.width as usize) + (x as usize));
        (self.pixels[idx], self.pixels[idx + 1], self.pixels[idx + 2])
    }

    pub fn put_pixel(&mut self, x: u32, y: u32, r: u8, g: u8, b: u8)
        requires
            old(self).wf(),
            x < old(self).spec_width(),
            y < old(self).spec_height(),
        ensures
            final(self).wf(),
            final(self).spec_width() == old(self).spec_width(),
            final(self).spec_height() == old(self).spec_height(),
            final(self).pixel_val(x as int, y as int, 0) == r,
            final(self).pixel_val(x as int, y as int, 1) == g,
            final(self).pixel_val(x as int, y as int, 2) == b,
            forall|x2: int, y2: int, c2: int|
                0 <= x2 < old(self).spec_width() && 0 <= y2 < old(self).spec_height() && 0 <= c2 < 3
                    && !(x2 == x as int && y2 == y as int) ==> #[trigger] final(self).pixel_val(
                    x2,
                    y2,
                    c2,
                ) == old(self).pixel_val(x2, y2, c2),
    {
        let total = self.pixels.len();
        proof {
            lemma_pixel_index(self.spec_width(), self.spec_height(), x as int, y as int);
        }
        let idx: usize = 3 * ((y as usize) * (self.width as usize) + (x as usize));
        self.pixels[idx] = r;
        self.pixels[idx + 1] = g;
        self.pixels[idx + 2] = b;
        proof {
            let w = old(self).spec_width();
            let h = old(self).spec_height();
            assert forall|x2: int, y2: int, c2: int|
                0 <= x2 < w && 0 <= y2 < h && 0 <= c2 < 3 && !(x2 == x as int && y2 == y as int)
                    implies #[trigger] self.pixel_val(x2, y2, c2) == old(self).pixel_val(
                x2,
                y2,
                c2,
            ) by {
                lemma_pixel_index(w, h, x2, y2);
                lemma_pixel_index_distinct(w, h, x as int, y as int, x2, y2);
            }
        }
    }
}

/// The linear index of a pixel is in range.
proof fn lemma_pixel_index(w: int, h: int, x: int, y: int)
    requires
        0 <= x < w,
        0 <= y < h,
    ensures
        0 <= y * w + x,
        3 * (y * w + x) + 3 <= 3 * (w * h),
{
    assert(0 <= y * w + x && (y * w + x) + 1 <= w * h) by (nonlinear_arith)
        requires
            0 <= x < w,
            0 <= y < h,
    ;
}

/// Distinct pixels have distinct linear indices.
proof fn lemma_pixel_index_distinct(w: int, h: int, x: int, y: int, x2: int, y2: int)
    requires
        0 <= x < w,
        0 <= y < h,
        0 <= x2 < w,
        0 <= y2 < h,
        !(x == x2 && y == y2),
    ensures
        y * w + x != y2 * w + x2,
{
    assert(y * w + x != y2 * w + x2) by (nonlinear_arith)
        requires
            0 <= x < w && 0 <= y < h && 0 <= x2 < w && 0 <= y2 < h && !(x == x2 && y == y2),
    ;
}

/// The comparison the median is defined over.
pub open spec fn u8_le() -> spec_fn(u8, u8) -> bool {
    |a: u8, b: u8| a <= b
}

pub open spec fn sorted_u8(s: Seq<u8>) -> bool {
    forall|i: int, j: int| 0 <= i <= j < s.len() ==> s[i] <= s[j]
}

/// The median of a byte multiset: the middle element (upper middle for even
/// sizes) of the values in sorted order.
pub open spec fn median_of(s: Seq<u8>) -> u8
    recommends
        s.len() > 0,
{
    s.sort_by(u8_le())[s.len() as int / 2]
}

proof fn lemma_u8_le_total()
    ensures
        total_ordering(u8_le()),
{
    let leq = u8_le();
    assert(reflexive(leq)) by {
        assert forall|a: u8| #[trigger] leq(a, a) by {
            assert(leq(a, a) == (a <= a));
        }
    }
    assert(antisymmetric(leq)) by {
        assert forall|a: u8, b: u8| #[trigger] leq(a, b) && #[trigger] leq(b, a) implies a == b by {
            assert(leq(a, b) == (a <= b) && leq(b, a) == (b <= a));
        }
    }
    assert(transitive(leq)) by {
        assert forall|a: u8, b: u8, c: u8| #[trigger] leq(a, b) && #[trigger] leq(b, c) implies leq(
            a,
            c,
        ) by {
            assert(leq(a, b) == (a <= b) && leq(b, c) == (b <= c) && leq(a, c) == (a <= c));
        }
    }
    assert(strongly_connected(leq)) by {
        assert forall|a: u8, b: u8| #[trigger] leq(a, b) || #[trigger] leq(b, a) by {
            assert(leq(a, b) == (a <= b) && leq(b, a) == (b <= a));
        }
    }
}

/// A sorted rearrangement of `s` is the sorted order of `s`, so its middle
/// element is the median.
proof fn lemma_median_via_sorted(s: Seq<u8>, t: Seq<u8>)
    requires
        s.len() > 0,
        t.to_multiset() == s.to_multiset(),
        sorted_u8(t),
    ensures
        t.len() == s.len(),
        median_of(s) == t[s.len() as int / 2],
{
    lemma_u8_le_total();
    s.lemma_sort_by_ensures(u8_le());
    let u = s.sort_by(u8_le());
    assert(t.len() == s.len() && u.len() == s.len()) by {
        vstd::seq_lib::to_multiset_len(t);
        vstd::seq_lib::to_multiset_len(s);
        vstd::seq_lib::to_multiset_len(u);
        assert(u.to_multiset() =~= s.to_multiset());
    }
    assert(sorted_by(t, u8_le())) by {
        assert forall|i: int, j: int| 0 <= i < j < t.len() implies #[trigger] u8_le()(t[i], t[j]) by {
            assert(t[i] <= t[j]);
            assert(u8_le()(t[i], t[j]) == (t[i] <= t[j]));
        }
    }
    assert(t.to_multiset() =~= u.to_multiset());
    lemma_sorted_unique(t, u, u8_le());
    assert(t =~= u);
    assert(median_of(s) == u[s.len() as int / 2]);
}

/// Every element of a multiset rearrangement of an all-equal sequence is that
/// value; in particular the median is.
pub proof fn lemma_median_constant(s: Seq<u8>, v: u8)
    requires
        s.len() > 0,
        forall|i: int| 0 <= i < s.len() ==> s[i] == v,
    ensures
        median_of(s) == v,
{
    lemma_u8_le_total();
    s.lemma_sort_by_ensures(u8_le());
    let u = s.sort_by(u8_le());
    assert(u.len() == s.len()) by {
        vstd::seq_lib::to_multiset_len(u);
        vstd::seq_lib::to_multiset_len(s);
        assert(u.to_multiset() =~= s.to_multiset());
    }
    let m = s.len() as int / 2;
    assert(0 <= m < u.len());
    assert(u.to_multiset().contains(u[m]));
    assert(s.to_multiset().contains(u[m]));
    assert(s.contains(u[m]));
}

/// Sort a byte vector ascending (selection sort).
fn sort_bytes(v: &mut Vec<u8>)
    ensures
        final(v)@.len() == old(v)@.len(),
        final(v)@.to_multiset() == old(v)@.to_multiset(),
        sorted_u8(final(v)@),
{
    let n = v.len();
    let mut i: usize = 0;
    while i < n
        invariant
            i <= n,
            v@.len() == n,
            v@.to_multiset() == old(v)@.to_multiset(),
            forall|a: int, b: int| 0 <= a <= b < i ==> v@[a] <= v@[b],
            forall|a: int, b: int| 0 <= a < i <= b < n ==> v@[a] <= v@[b],
        decreases n - i,
    {
        let mut m: usize = i;
        let mut j: usize = i + 1;
        while j < n
            invariant
                i <= m < j <= n,
                v@.len() == n,
                forall|k: int| i <= k < j ==> v@[m as int] <= v@[k],
            decreases n - j,
        {
            if v[j] < v[m] {
                m = j;
            }
            j = j + 1;
        }
        let vi = v[i];
        let vm = v[m];
        let ghost before = v@;
        v[i] = vm;
        v[m] = vi;
        proof {
            assert(v@ =~= before.update(i as int, vm).update(m as int, vi));
            vstd::seq_lib::to_multiset_update(before, i as int, vm);
            vstd::seq_lib::to_multiset_update(before.update(i as int, vm), m as int, vi);
            assert(v@.to_multiset() =~= before.to_multiset());
        }
        i = i + 1;
    }
}

/// The values of channel `c` over the B-by-B block at logical position
/// `(lx, ly)`, in row-major order.
pub open spec fn block_channel(img: RgbFrame, lx: int, ly: int, bs: int, c: int) -> Seq<u8> {
    Seq::new((bs * bs) as nat, |i: int| img.pixel_val(lx * bs + i % bs, ly * bs + i / bs, c))
}

/// Every pixel with `x0 <= x < x1` and `y0 <= y < y1` carries `(r, g, b)`.
pub open spec fn region_painted(
    img: RgbFrame,
    x0: int,
    x1: int,
    y0: int,
    y1: int,
    r: u8,
    g: u8,
    b: u8,
) -> bool {
    forall|x: int, y: int|
        x0 <= x < x1 && y0 <= y < y1 ==> #[trigger] img.pixel_val(x, y, 0) == r && img.pixel_val(
            x,
            y,
            1,
        ) == g && img.pixel_val(x, y, 2) == b
}

/// Every pixel outside the rectangle `x0 <= x < x1`, `y0 <= y < y1` is the
/// same in `img` as in `prev`.
pub open spec fn outside_unchanged(
    img: RgbFrame,
    prev: RgbFrame,
    x0: int,
    x1: int,
    y0: int,
    y1: int,
) -> bool {
    forall|x: int, y: int, c: int|
        0 <= x < prev.spec_width() && 0 <= y < prev.spec_height() && 0 <= c < 3 && !(x0 <= x < x1
            && y0 <= y < y1) ==> #[trigger] img.pixel_val(x, y, c) == prev.pixel_val(x, y, c)
}

/// Paint every pixel of the B-by-B block at logical position `(lx, ly)` with
/// the channel values `(r, g, b)`.
pub fn paint_block(img: &mut RgbFrame, lx: usize, ly: usize, block_size: u32, r: u8, g: u8, b: u8)
    requires
        old(img).wf(),
        block_size >= 1,
        (lx as int + 1) * block_size as int <= old(img).spec_width(),
        (ly as int + 1) * block_size as int <= old(img).spec_height(),
    ensures
        final(img).wf(),
        final(img).spec_width() == old(img).spec_width(),
        final(img).spec_height() == old(img).spec_height(),
        region_painted(
            *final(img),
            lx as int * block_size as int,
            (lx as int + 1) * block_size as int,
            ly as int * block_size as int,
            (ly as int + 1) * block_size as int,
            r,
            g,
            b,
        ),
        outside_unchanged(
            *final(img),
            *old(img),
            lx as int * block_size as int,
            (lx as int + 1) * block_size as int,
            ly as int * block_size as int,
            (ly as int + 1) * block_size as int,
        ),
{
    let bs = block_size;
    proof {
        assert((lx as int + 1) * bs as int == lx as int * bs as int + bs as int && (ly as int + 1)
            * bs as int == ly as int * bs as int + bs as int) by (nonlinear_arith);
        assert(0 <= lx as int * bs as int && lx as int <= lx as int * bs as int && 0 <= ly as int
            * bs as int && ly as int <= ly as int * bs as int) by (nonlinear_arith)
            requires
                lx >= 0 && ly >= 0 && bs >= 1,
        ;
    }
    let px: u32 = (lx as u32) * bs;
    let py: u32 = (ly as u32) * bs;
    let mut dy: u32 = 0;
    while dy < bs
        invariant
            dy <= bs,
            img.wf(),
            img.spec_width() == old(img).spec_width(),
            img.spec_height() == old(img).spec_height(),
            px as int + bs as int <= img.spec_width(),
            py as int + bs as int <= img.spec_height(),
            region_painted(
                *img,
                px as int,
                px as int + bs as int,
                py as int,
                py as int + dy as int,
                r,
                g,
                b,
            ),
            outside_unchanged(
                *img,
                *old(img),
                px as int,
                px as int + bs as int,
                py as int,
                py as int + dy as int,
            ),
        decreases bs - dy,
    {
        let mut dx: u32 = 0;
        while dx < bs
            invariant
                dx <= bs,
                dy < bs,
                img.wf(),
                img.spec_width() == old(img).spec_width(),
                img.spec_height() == old(img).spec_height(),
                px as int + bs as int <= img.spec_width(),
                py as int + bs as int <= img.spec_height(),
                region_painted(
                    *img,
                    px as int,
                    px as int + bs as int,
                    py as int,
                    py as int + dy as int,
                    r,
                    g,
                    b,
                ),
                region_painted(
                    *img,
                    px as int,
                    px as int + dx as int,
                    py as int + dy as int,
                    py as int + dy as int + 1,
                    r,
                    g,
                    b,
                ),
                outside_unchanged(
                    *img,
                    *old(img),
                    px as int,
                    px as int + bs as int,
                    py as int,
                    py as int + dy as int + 1,
                ),
            decreases bs - dx,
        {
            let ghost prev = *img;
            img.put_pixel(px + dx, py + dy, r, g, b);
            proof {
                assert forall|x: int, y: int|
                    px as int <= x < px as int + bs as int && py as int <= y < py as int
                        + dy as int implies #[trigger] img.pixel_val(x, y, 0) == r && img.pixel_val(
                    x,
                    y,
                    1,
                ) == g && img.pixel_val(x, y, 2) == b by {
                    assert(img.pixel_val(x, y, 0) == prev.pixel_val(x, y, 0));
                    assert(img.pixel_val(x, y, 1) == prev.pixel_val(x, y, 1));
                    assert(img.pixel_val(x, y, 2) == prev.pixel_val(x, y, 2));
                    assert(prev.pixel_val(x, y, 0) == r && prev.pixel_val(x, y, 1) == g
                        && prev.pixel_val(x, y, 2) == b);
                }
                assert forall|x: int, y: int|
                    px as int <= x < px as int + dx as int + 1 && y == py as int
                        + dy as int implies #[trigger] img.pixel_val(x, y, 0) == r && img.pixel_val(
                    x,
                    y,
                    1,
                ) == g && img.pixel_val(x, y, 2) == b by {
                    if x < px as int + dx as int {
                        assert(img.pixel_val(x, y, 0) == prev.pixel_val(x, y, 0));
                        assert(img.pixel_val(x, y, 1) == prev.pixel_val(x, y, 1));
                        assert(img.pixel_val(x, y, 2) == prev.pixel_val(x, y, 2));
                        assert(prev.pixel_val(x, y, 0) == r && prev.pixel_val(x, y, 1) == g
                            && prev.pixel_val(x, y, 2) == b);
                    }
                }
            }
            dx = dx + 1;
        }
        proof {
            assert forall|x: int, y: int|
                px as int <= x < px as int + bs as int && py as int <= y < py as int + dy as int
                    + 1 implies #[trigger] img.pixel_val(x, y, 0) == r && img.pixel_val(x, y, 1)
                == g && img.pixel_val(x, y, 2) == b by {
                if y < py as int + dy as int {
                    assert(region_painted(
                        *img,
                        px as int,
                        px as int + bs as int,
                        py as int,
                        py as int + dy as int,
                        r,
                        g,
                        b,
                    ));
                } else {
                    assert(region_painted(
                        *img,
                        px as int,
                        px as int + dx as int,
                        py as int + dy as int,
                        py as int + dy as int + 1,
                        r,
                        g,
                        b,
                    ));
                    assert(x < px as int + dx as int);
                }
            }
            assert(region_painted(
                *img,
                px as int,
                px as int + bs as int,
                py as int,
                py as int + dy as int + 1,
                r,
                g,
                b,
            ));
        }
        dy = dy + 1;
    }
}

/// Read the B-by-B block at logical position `(lx, ly)` and return the
/// median-dequantized `(r, g, b)` level values.
pub fn read_block(img: &RgbFrame, lx: usize, ly: usize, block_size: u32, levels: u8) -> (r: (
    u8,
    u8,
    u8,
))
    requires
        img.wf(),
        1 <= block_size <= 4096,
        (lx as int + 1) * block_size as int <= img.spec_width(),
        (ly as int + 1) * block_size as int <= img.spec_height(),
    ensures
        r.0 == spec_dequantize(median_of(block_channel(*img, lx as int, ly as int, block_size as int, 0)), levels),
        r.1 == spec_dequantize(median_of(block_channel(*img, lx as int, ly as int, block_size as int, 1)), levels),
        r.2 == spec_dequantize(median_of(block_channel(*img, lx as int, ly as int, block_size as int, 2)), levels),
{
    let bs = block_size;
    proof {
        assert((lx as int + 1) * bs as int == lx as int * bs as int + bs as int && (ly as int + 1)
            * bs as int == ly as int * bs as int + bs as int) by (nonlinear_arith);
        assert(0 <= lx as int * bs as int && lx as int <= lx as int * bs as int && 0 <= ly as int
            * bs as int && ly as int <= ly as int * bs as int && bs as int * bs as int <= 4096
            * 4096) by (nonlinear_arith)
            requires
                lx >= 0 && ly >= 0 && 1 <= bs <= 4096,
        ;
    }
    let px: u32 = (lx as u32) * bs;
    let py: u32 = (ly as u32) * bs;
    let ghost bc0 = block_channel(*img, lx as int, ly as int, bs as int, 0);
    let ghost bc1 = block_channel(*img, lx as int, ly as int, bs as int, 1);
    let ghost bc2 = block_channel(*img, lx as int, ly as int, bs as int, 2);
    let mut rs: Vec<u8> = Vec::new();
    let mut gs: Vec<u8> = Vec::new();
    let mut bls: Vec<u8> = Vec::new();
    let mut dy: u32 = 0;
    while dy < bs
        invariant
            dy <= bs,
            img.wf(),
            1 <= bs <= 4096,
            px as int == lx as int * bs as int,
            py as int == ly as int * bs as int,
            px as int + bs as int <= img.spec_width(),
            py as int + bs as int <= img.spec_height(),
            bc0 == block_channel(*img, lx as int, ly as int, bs as int, 0),
            bc1 == block_channel(*img, lx as int, ly as int, bs as int, 1),
            bc2 == block_channel(*img, lx as int, ly as int, bs as int, 2),
            rs@ == bc0.take(dy as int * bs as int),
            gs@ == bc1.take(dy as int * bs as int),
            bls@ == bc2.take(dy as int * bs as int),
        decreases bs - dy,
    {
        let mut dx: u32 = 0;
        proof {
            assert((dy as int + 1) * bs as int == dy as int * bs as int + bs as int && dy as int
                * bs as int + bs as int <= bs as int * bs as int) by (nonlinear_arith)
                requires
                    0 <= dy as int && (dy as int) < bs as int,
            ;
        }
        while dx < bs
            invariant
                dx <= bs,
                dy < bs,
                img.wf(),
                1 <= bs <= 4096,
                px as int == lx as int * bs as int,
                py as int == ly as int * bs as int,
                px as int + bs as int <= img.spec_width(),
                py as int + bs as int <= img.spec_height(),
                dy as int * bs as int + bs as int <= bs as int * bs as int,
                bc0 == block_channel(*img, lx as int, ly as int, bs as int, 0),
                bc1 == block_channel(*img, lx as int, ly as int, bs as int, 1),
                bc2 == block_channel(*img, lx as int, ly as int, bs as int, 2),
                rs@ == bc0.take(dy as int * bs as int + dx as int),
                gs@ == bc1.take(dy as int * bs as int + dx as int),
                bls@ == bc2.take(dy as int * bs as int + dx as int),
            decreases bs - dx,
        {
            let p = img.get_pixel(px + dx, py + dy);
            rs.push(p.0);
            gs.push(p.1);
            bls.push(p.2);
            proof {
                let i = dy as int * bs as int + dx as int;
                lemma_fundamental_div_mod_converse(i, bs as int, dy as int, dx as int);
                assert(bc0[i] == p.0 && bc1[i] == p.1 && bc2[i] == p.2);
                assert(rs@ =~= bc0.take(i + 1));
                assert(gs@ =~= bc1.take(i + 1));
                assert(bls@ =~= bc2.take(i + 1));
            }
            dx = dx + 1;
        }
        dy = dy + 1;
    }
    proof {
        assert(bs as int * bs as int == bs as int * bs as int);
        assert(rs@ =~= bc0 && gs@ =~= bc1 && bls@ =~= bc2) by {
            assert(bc0.take(bs as int * bs as int) =~= bc0);
            assert(bc1.take(bs as int * bs as int) =~= bc1);
            assert(bc2.take(bs as int * bs as int) =~= bc2);
        }
    }
    sort_bytes(&mut rs);
    sort_bytes(&mut gs);
    sort_bytes(&mut bls);
    let mid = rs.len() / 2;
    proof {
        assert(bc0.len() > 0) by (nonlinear_arith)
            requires
                bc0.len() == bs as int * bs as int,
                bs >= 1,
        ;
        lemma_median_via_sorted(bc0, rs@);
        lemma_median_via_sorted(bc1, gs@);
        lemma_median_via_sorted(bc2, bls@);
    }
    (dequantize(rs[mid], levels), dequantize(gs[mid], levels), dequantize(bls[mid], levels))
}


/// Reading past the end of the buffer yields zero bits.
proof fn lemma_bits_val_past_end(data: Seq<u8>, pos: int, k: nat)
    requires
        pos >= 8 * data.len(),
    ensures
        bits_val(data, pos, k) == 0,
    decreases k,
{
    if k > 0 {
        lemma_bits_val_past_end(data, pos, (k - 1) as nat);
        assert(!stream_bit(data, pos + k - 1));
    }
}

/// A reader whose cursor has saturated at the end of the buffer reads the
/// same zero bits a reader at the logical position would.
proof fn lemma_bits_val_sat(data: Seq<u8>, pos: int, k: nat)
    requires
        pos >= 0,
    ensures
        bits_val(
            data,
            if pos <= 8 * data.len() {
                pos
            } else {
                8 * data.len() as int
            },
            k,
        ) == bits_val(data, pos, k),
{
    if pos > 8 * data.len() {
        lemma_bits_val_past_end(data, pos, k);
        lemma_bits_val_past_end(data, 8 * data.len() as int, k);
    }
}

/// The level count is two to the bits-per-channel power.
proof fn lemma_levels_pow2(levels: u8)
    requires
        valid_levels(levels),
    ensures
        pow2(spec_bits_per_channel(levels) as nat) == levels,
{
    lemma2_to64();
}

/// The channel slot index of channel `c` of the logical pixel at column `lx`
/// of band row `rowoff`.
pub open spec fn slot_of(rowoff: int, lw: int, lx: int, c: int) -> int {
    3 * (rowoff * lw + lx) + c
}

/// The level index that the bit stream `src` assigns to a channel slot.
pub open spec fn row_level(src: Seq<u8>, levels: u8, lw: int, rowoff: int, lx: int, c: int) -> int {
    bits_val(
        src,
        slot_of(rowoff, lw, lx, c) * spec_bits_per_channel(levels) as int,
        spec_bits_per_channel(levels) as nat,
    )
}

/// The logical rows `row0 <= y / B < row1` of `img` carry, quantized, the bit
/// stream `src`: MSB-first, three channels per logical pixel, rows in order,
/// starting at the first bit of `src` for band row `row0`.
pub open spec fn rows_encoded(
    img: RgbFrame,
    src: Seq<u8>,
    cfg: FrameConfig,
    row0: int,
    row1: int,
) -> bool {
    let bs = cfg.block_size as int;
    let lw = cfg.spec_logical_width();
    forall|x: int, y: int, c: int|
        0 <= x < FRAME_WIDTH as int && 0 <= y < FRAME_HEIGHT as int && 0 <= c < 3 && row0 <= y / bs
            < row1 ==> #[trigger] img.pixel_val(x, y, c) == spec_quantize(
            row_level(src, cfg.levels, lw, y / bs - row0, x / bs, c) as u8,
            cfg.levels,
        )
}

/// The first `done` logical pixels (row-major) of the band starting at
/// logical row `row0` carry the stream.
spec fn rows_encoded_upto(
    img: RgbFrame,
    src: Seq<u8>,
    cfg: FrameConfig,
    row0: int,
    done: int,
) -> bool {
    let bs = cfg.block_size as int;
    let lw = cfg.spec_logical_width();
    forall|x: int, y: int, c: int|
        0 <= x < FRAME_WIDTH as int && 0 <= y < FRAME_HEIGHT as int && 0 <= c < 3 && row0 <= y / bs
            && (y / bs - row0) * lw + x / bs < done ==> #[trigger] img.pixel_val(x, y, c)
            == spec_quantize(
            row_level(src, cfg.levels, lw, y / bs - row0, x / bs, c) as u8,
            cfg.levels,
        )
}

/// Pixels at or after band pixel `done` (row-major from logical row `row0`)
/// are unchanged from `prev`.
spec fn rows_unchanged_from(
    img: RgbFrame,
    prev: RgbFrame,
    cfg: FrameConfig,
    row0: int,
    done: int,
) -> bool {
    let bs = cfg.block_size as int;
    let lw = cfg.spec_logical_width();
    forall|x: int, y: int, c: int|
        0 <= x < FRAME_WIDTH as int && 0 <= y < FRAME_HEIGHT as int && 0 <= c < 3 && !(row0 <= y
            / bs && (y / bs - row0) * lw + x / bs < done) ==> #[trigger] img.pixel_val(x, y, c)
            == prev.pixel_val(x, y, c)
}

/// Paint logical rows `row0..row1` from a fresh bit reader over `src`.
fn paint_rows(img: &mut RgbFrame, src: &Vec<u8>, config: &FrameConfig, row0: usize, row1: usize)
    requires
        old(img).wf(),
        old(img).spec_width() == FRAME_WIDTH as int,
        old(img).spec_height() == FRAME_HEIGHT as int,
        config.wf(),
        row0 <= row1,
        row1 as int <= config.spec_logical_height(),
    ensures
        final(img).wf(),
        final(img).spec_width() == FRAME_WIDTH as int,
        final(img).spec_height() == FRAME_HEIGHT as int,
        rows_encoded(*final(img), src@, *config, row0 as int, row1 as int),
        rows_unchanged_from(
            *final(img),
            *old(img),
            *config,
            row0 as int,
            (row1 - row0) as int * config.spec_logical_width(),
        ),
{
    let ghost cfg = *config;
    let ghost src_s = src@;
    let ghost bs_i = config.block_size as int;
    let ghost lw_i = config.spec_logical_width();
    let ghost bl = 8 * src_s.len() as int;
    let lw = config.logical_width();
    let bpc = config.bits_per_channel();
    let bs32 = config.block_size as u32;
    let levels = config.levels;
    let ghost bpc_i = bpc as int;
    proof {
        config.lemma_geometry_bounds();
        lemma_levels_pow2(levels);
    }
    let mut reader = BitReader::new(src.as_slice());
    let mut ly: usize = row0;
    let ghost mut done: int = 0;
    proof {
        assert(rows_encoded_upto(*img, src_s, cfg, row0 as int, 0));
        assert(rows_unchanged_from(*img, *old(img), cfg, row0 as int, 0));
    }
    while ly < row1
        invariant
            row0 <= ly <= row1,
            row1 as int <= cfg.spec_logical_height(),
            cfg.wf(),
            cfg == *config,
            lw_i == cfg.spec_logical_width(),
            bs_i == cfg.block_size as int,
            lw as int == lw_i,
            bs32 == cfg.block_size as u32,
            levels == cfg.levels,
            bpc == spec_bits_per_channel(cfg.levels),
            bpc_i == bpc as int,
            img.wf(),
            img.spec_width() == FRAME_WIDTH as int,
            img.spec_height() == FRAME_HEIGHT as int,
            reader.wf(),
            reader.source() == src_s,
            bl == 8 * src_s.len() as int,
            done == (ly - row0) as int * lw_i,
            reader.pos() == if 3 * done * bpc_i <= bl {
                3 * done * bpc_i
            } else {
                bl
            },
            rows_encoded_upto(*img, src_s, cfg, row0 as int, done),
            rows_unchanged_from(*img, *old(img), cfg, row0 as int, done),
        decreases row1 - ly,
    {
        let mut lx: usize = 0;
        proof {
            assert(done + lw_i == (ly + 1 - row0) as int * lw_i && 0 <= done) by (nonlinear_arith)
                requires
                    done == (ly - row0) as int * lw_i && row0 <= ly && lw_i >= 0,
            ;
        }
        while lx < lw
            invariant
                lx <= lw,
                row0 <= ly < row1,
                row1 as int <= cfg.spec_logical_height(),
                cfg.wf(),
                cfg == *config,
                lw_i == cfg.spec_logical_width(),
                bs_i == cfg.block_size as int,
                lw as int == lw_i,
                bs32 == cfg.block_size as u32,
                levels == cfg.levels,
                bpc == spec_bits_per_channel(cfg.levels),
                bpc_i == bpc as int,
                img.wf(),
                img.spec_width() == FRAME_WIDTH as int,
                img.spec_height() == FRAME_HEIGHT as int,
                reader.wf(),
                reader.source() == src_s,
                bl == 8 * src_s.len() as int,
                done == (ly - row0) as int * lw_i + lx,
                reader.pos() == if 3 * done * bpc_i <= bl {
                    3 * done * bpc_i
                } else {
                    bl
                },
                rows_encoded_upto(*img, src_s, cfg, row0 as int, done),
                rows_unchanged_from(*img, *old(img), cfg, row0 as int, done),
            decreases lw - lx,
        {
            let ghost p0 = 3 * done * bpc_i;
            let ghost prev_img = *img;
            let rl = reader.read_bits(bpc);
            let gl = reader.read_bits(bpc);
            let bl2 = reader.read_bits(bpc);
            proof {
                assert(0 <= p0) by (nonlinear_arith)
                    requires
                        done >= 0 && bpc_i >= 1 && p0 == 3 * done * bpc_i,
                ;
                lemma_bits_val_sat(src_s, p0, bpc as nat);
                lemma_bits_val_sat(src_s, p0 + bpc_i, bpc as nat);
                lemma_bits_val_sat(src_s, p0 + 2 * bpc_i, bpc as nat);
                assert(rl as int == bits_val(src_s, p0, bpc as nat));
                assert(gl as int == bits_val(src_s, p0 + bpc_i, bpc as nat));
                assert(bl2 as int == bits_val(src_s, p0 + 2 * bpc_i, bpc as nat));
                lemma_bits_val_bound(src_s, p0, bpc as nat);
                lemma_bits_val_bound(src_s, p0 + bpc_i, bpc as nat);
                lemma_bits_val_bound(src_s, p0 + 2 * bpc_i, bpc as nat);
                lemma_levels_pow2(levels);
                cfg.lemma_geometry_bounds();
            }
            let pr = quantize(rl, levels);
            let pg = quantize(gl, levels);
            let pb = quantize(bl2, levels);
            proof {
                assert((lx as int + 1) * bs_i <= lw_i * bs_i && (ly as int + 1) * bs_i <= cfg.spec_logical_height() * bs_i) by (nonlinear_arith)
                    requires
                        lx as int + 1 <= lw_i && ly as int + 1 <= cfg.spec_logical_height() && bs_i
                            >= 1,
                ;
                assert(lw_i * bs_i <= FRAME_WIDTH as int && cfg.spec_logical_height() * bs_i
                    <= FRAME_HEIGHT as int) by {
                    cfg.lemma_geometry_bounds();
                }
            }
            paint_block(img, lx, ly, bs32, pr, pg, pb);
            proof {
                cfg.lemma_geometry_bounds();
                assert(bs32 as int == bs_i);
                assert(region_painted(
                    *img,
                    lx as int * bs_i,
                    (lx as int + 1) * bs_i,
                    ly as int * bs_i,
                    (ly as int + 1) * bs_i,
                    pr,
                    pg,
                    pb,
                ));
                assert(outside_unchanged(
                    *img,
                    prev_img,
                    lx as int * bs_i,
                    (lx as int + 1) * bs_i,
                    ly as int * bs_i,
                    (ly as int + 1) * bs_i,
                ));
                let x0 = lx as int * bs_i;
                let x1 = (lx as int + 1) * bs_i;
                let y0 = ly as int * bs_i;
                let y1 = (ly as int + 1) * bs_i;
                assert(x1 == x0 + bs_i && y1 == y0 + bs_i) by (nonlinear_arith)
                    requires
                        x0 == lx as int * bs_i && x1 == (lx as int + 1) * bs_i && y0 == ly as int
                            * bs_i && y1 == (ly as int + 1) * bs_i,
                ;
                let rowoff = ly - row0;
                assert(3 * (done + 1) * bpc_i == p0 + 3 * bpc_i && 3 * (rowoff as int * lw_i
                    + lx) + 2 == 3 * done + 2) by (nonlinear_arith)
                    requires
                        done == rowoff as int * lw_i + lx && p0 == 3 * done * bpc_i,
                ;
                assert(slot_of(rowoff as int, lw_i, lx as int, 0) * bpc_i == p0 && slot_of(
                    rowoff as int,
                    lw_i,
                    lx as int,
                    1,
                ) * bpc_i == p0 + bpc_i && slot_of(rowoff as int, lw_i, lx as int, 2) * bpc_i == p0
                    + 2 * bpc_i) by (nonlinear_arith)
                    requires
                        done == rowoff as int * lw_i + lx && p0 == 3 * done * bpc_i,
                ;
                assert(row_level(src_s, levels, lw_i, rowoff as int, lx as int, 0) == rl as int
                    && row_level(src_s, levels, lw_i, rowoff as int, lx as int, 1) == gl as int
                    && row_level(src_s, levels, lw_i, rowoff as int, lx as int, 2) == bl2 as int);
                assert forall|x: int, y: int, c: int|
                    0 <= x < FRAME_WIDTH as int && 0 <= y < FRAME_HEIGHT as int && 0 <= c < 3
                        && row0 as int <= y / bs_i && (y / bs_i - row0 as int) * lw_i + x / bs_i
                        < done + 1 implies #[trigger] img.pixel_val(x, y, c) == spec_quantize(
                    row_level(src_s, cfg.levels, lw_i, y / bs_i - row0 as int, x / bs_i, c) as u8,
                    cfg.levels,
                ) by {
                    lemma_div_mod_decompose(x, bs_i);
                    lemma_div_mod_decompose(y, bs_i);
                    let qx = x / bs_i;
                    let qy = y / bs_i;
                    if x0 <= x < x1 && y0 <= y < y1 {
                        lemma_fundamental_div_mod_converse(x, bs_i, lx as int, x - x0);
                        lemma_fundamental_div_mod_converse(y, bs_i, ly as int, y - y0);
                        assert(qx == (lx as int) && qy == (ly as int));
                        assert(region_painted(*img, x0, x1, y0, y1, pr, pg, pb));
                        assert(x0 <= x < x1 && y0 <= y < y1);
                        assert(img.pixel_val(x, y, 0) == pr);
                        assert(img.pixel_val(x, y, 1) == pg);
                        assert(img.pixel_val(x, y, 2) == pb);
                        assert(qy - row0 as int == rowoff as int && qx == lx as int);
                        if c == 0 {
                            assert(row_level(src_s, cfg.levels, lw_i, rowoff as int, qx, 0)
                                == rl as int);
                        } else if c == 1 {
                            assert(row_level(src_s, cfg.levels, lw_i, rowoff as int, qx, 1)
                                == gl as int);
                        } else {
                            assert(row_level(src_s, cfg.levels, lw_i, rowoff as int, qx, 2)
                                == bl2 as int);
                        }
                    } else {
                        assert(!(qx == (lx as int) && qy == (ly as int))) by {
                            if qx == (lx as int) && qy == (ly as int) {
                                assert(x0 <= x < x1 && y0 <= y < y1);
                            }
                        }
                        let idx = (qy - row0 as int) * lw_i + qx;
                        assert(0 <= qx < lw_i) by (nonlinear_arith)
                            requires
                                qx * bs_i <= x && 0 <= qx && 0 <= x < FRAME_WIDTH as int && lw_i
                                    * bs_i == FRAME_WIDTH as int && bs_i >= 1,
                        ;
                        assert(idx != done) by (nonlinear_arith)
                            requires
                                idx == (qy - row0 as int) * lw_i + qx,
                                done == (ly as int - row0 as int) * lw_i + lx,
                                0 <= qx < lw_i,
                                0 <= lx as int && (lx as int) < lw_i,
                                !(qx == (lx as int) && qy == (ly as int)),
                        ;
                        assert(idx < done);
                        assert(prev_img.pixel_val(x, y, c) == spec_quantize(
                            row_level(
                                src_s,
                                cfg.levels,
                                lw_i,
                                y / bs_i - row0 as int,
                                x / bs_i,
                                c,
                            ) as u8,
                            cfg.levels,
                        ));
                        assert(img.pixel_val(x, y, c) == prev_img.pixel_val(x, y, c));
                    }
                }
                assert forall|x: int, y: int, c: int|
                    0 <= x < FRAME_WIDTH as int && 0 <= y < FRAME_HEIGHT as int && 0 <= c < 3 && !(
                    row0 as int <= y / bs_i && (y / bs_i - row0 as int) * lw_i + x / bs_i < done
                        + 1) implies #[trigger] img.pixel_val(x, y, c) == old(img).pixel_val(
                    x,
                    y,
                    c,
                ) by {
                    lemma_div_mod_decompose(x, bs_i);
                    lemma_div_mod_decompose(y, bs_i);
                    let qx = x / bs_i;
                    let qy = y / bs_i;
                    assert(0 <= qx < lw_i) by (nonlinear_arith)
                        requires
                            qx * bs_i <= x && 0 <= qx && 0 <= x < FRAME_WIDTH as int && lw_i * bs_i
                                == FRAME_WIDTH as int && bs_i >= 1,
                    ;
                    assert(!(x0 <= x < x1 && y0 <= y < y1)) by {
                        if x0 <= x < x1 && y0 <= y < y1 {
                            lemma_fundamental_div_mod_converse(x, bs_i, lx as int, x - x0);
                            lemma_fundamental_div_mod_converse(y, bs_i, ly as int, y - y0);
                            assert(qy == ly as int && qx == lx as int);
                            assert((qy - row0 as int) * lw_i + qx == done);
                        }
                    }
                    assert(img.pixel_val(x, y, c) == prev_img.pixel_val(x, y, c));
                    assert(!(row0 as int <= qy && (qy - row0 as int) * lw_i + qx < done));
                }
            }
            lx = lx + 1;
            proof {
                done = done + 1;
            }
        }
        ly = ly + 1;
    }
    proof {
        let nd = (row1 - row0) as int * lw_i;
        assert(rows_encoded(*img, src_s, cfg, row0 as int, row1 as int)) by {
            assert forall|x: int, y: int, c: int|
                0 <= x < FRAME_WIDTH as int && 0 <= y < FRAME_HEIGHT as int && 0 <= c < 3
                    && row0 as int <= y / bs_i < row1 as int implies #[trigger] img.pixel_val(
                x,
                y,
                c,
            ) == spec_quantize(
                row_level(src_s, cfg.levels, lw_i, y / bs_i - row0 as int, x / bs_i, c) as u8,
                cfg.levels,
            ) by {
                lemma_div_mod_decompose(x, bs_i);
                lemma_div_mod_decompose(y, bs_i);
                cfg.lemma_geometry_bounds();
                let qx = x / bs_i;
                let qy = y / bs_i;
                assert(0 <= qx < lw_i) by (nonlinear_arith)
                    requires
                        qx * bs_i <= x && 0 <= qx && 0 <= x < FRAME_WIDTH as int && lw_i * bs_i
                            == FRAME_WIDTH as int && bs_i >= 1,
                ;
                assert((qy - row0 as int) * lw_i + qx < nd) by (nonlinear_arith)
                    requires
                        row0 as int <= qy < row1 as int && 0 <= qx < lw_i && nd == (row1
                            - row0) as int * lw_i,
                ;
            }
        }
    }
}

/// The quotient times the divisor brackets the dividend.
pub proof fn lemma_div_mod_decompose(x: int, d: int)
    requires
        0 <= x,
        1 <= d,
    ensures
        (x / d) * d <= x,
        x - d < (x / d) * d,
        0 <= x / d,
{
    lemma_fundamental_div_mod(x, d);
    lemma_mod_bound(x, d);
    assert((x / d) * d == d * (x / d)) by (nonlinear_arith);
    lemma_div_pos_is_pos(x, d);
}

/// Encode a triple header and RS-encoded payload into one 4K image: the
/// header stream fills the first two logical rows, the data stream the rest,
/// each read MSB-first and zero-padded past its end.
pub fn encode_frame_to_image(header_data: &Vec<u8>, rs_data: &Vec<u8>, config: &FrameConfig) -> (r:
    RgbFrame)
    requires
        config.wf(),
    ensures
        r.wf(),
        r.spec_width() == FRAME_WIDTH as int,
        r.spec_height() == FRAME_HEIGHT as int,
        rows_encoded(r, header_data@, *config, 0, HEADER_ROWS as int),
        rows_encoded(r, rs_data@, *config, HEADER_ROWS as int, config.spec_logical_height()),
{
    proof {
        config.lemma_geometry_bounds();
    }
    let mut img = RgbFrame::new(config.width, config.height);
    let lh = config.logical_height();
    paint_rows(&mut img, header_data, config, 0, HEADER_ROWS);
    let ghost mid = img;
    paint_rows(&mut img, rs_data, config, HEADER_ROWS, lh);
    proof {
        let cfg = *config;
        let bs_i = cfg.block_size as int;
        let lw_i = cfg.spec_logical_width();
        assert forall|x: int, y: int, c: int|
            0 <= x < FRAME_WIDTH as int && 0 <= y < FRAME_HEIGHT as int && 0 <= c < 3 && 0 <= y
                / bs_i < HEADER_ROWS as int implies #[trigger] img.pixel_val(x, y, c)
            == spec_quantize(
            row_level(header_data@, cfg.levels, lw_i, y / bs_i, x / bs_i, c) as u8,
            cfg.levels,
        ) by {
            lemma_div_mod_decompose(x, bs_i);
            lemma_div_mod_decompose(y, bs_i);
            assert(!(HEADER_ROWS as int <= y / bs_i && (y / bs_i - HEADER_ROWS as int) * lw_i + x
                / bs_i < (lh - HEADER_ROWS) as int * lw_i));
            assert(img.pixel_val(x, y, c) == mid.pixel_val(x, y, c));
            assert(mid.pixel_val(x, y, c) == spec_quantize(
                row_level(header_data@, cfg.levels, lw_i, y / bs_i - 0, x / bs_i, c) as u8,
                cfg.levels,
            ));
        }
    }
    img
}


/// The level that a median read of `img` assigns to channel slot `slot` of
/// the band of logical rows starting at `row0`.
pub open spec fn decoded_level(
    img: RgbFrame,
    bs: int,
    levels: u8,
    row0: int,
    lw: int,
    slot: int,
) -> u8 {
    let p = slot / 3;
    let c = slot % 3;
    let lx = p % lw;
    let ly = row0 + p / lw;
    spec_dequantize(median_of(block_channel(img, lx, ly, bs, c)), levels)
}

/// `out` is the bit-packed median decode of `nrows` logical rows starting at
/// `row0`: one `bits_per_channel` group per channel slot, MSB-first, zero
/// padded to a whole byte.
pub open spec fn decode_output_ok(
    img: RgbFrame,
    bs: int,
    levels: u8,
    row0: int,
    nrows: int,
    lw: int,
    out: Seq<u8>,
) -> bool {
    let bpc = spec_bits_per_channel(levels) as int;
    let nbits = 3 * (nrows * lw) * bpc;
    &&& 8 * out.len() == nbits + pad_len(nbits)
    &&& forall|i: int|
        0 <= i < nbits ==> #[trigger] stream_bit(out, i) == val_bits(
            decoded_level(img, bs, levels, row0, lw, i / bpc) as int,
            spec_bits_per_channel(levels) as nat,
        )[i % bpc]
    &&& forall|i: int| nbits <= i ==> !stream_bit(out, i)
}

/// Median-decode logical rows `row0..row0 + nrows` into a packed bit stream.
fn decode_rows(img: &RgbFrame, block_size: u8, levels: u8, row0: usize, nrows: usize) -> (r: Vec<
    u8,
>)
    requires
        img.wf(),
        block_size >= 1,
        valid_levels(levels),
        (row0 + nrows) as int * block_size as int <= img.spec_height(),
    ensures
        decode_output_ok(
            *img,
            block_size as int,
            levels,
            row0 as int,
            nrows as int,
            img.spec_width() / block_size as int,
            r@,
        ),
{
    let ghost img_s = *img;
    let ghost bs_i = block_size as int;
    let bs32 = block_size as u32;
    let bpc = crate::config::bits_per_channel_of(levels);
    let ghost bpc_i = bpc as int;
    let w32 = img.width();
    let lw: usize = (w32 as usize) / (block_size as usize);
    let ghost lw_i = img_s.spec_width() / bs_i;
    proof {
        assert(lw as int == lw_i);
    }
    proof {
        assert(row0 as int + nrows as int <= (row0 + nrows) as int * bs_i) by (nonlinear_arith)
            requires
                bs_i >= 1 && row0 >= 0 && nrows >= 0,
        ;
    }
    let row_end = row0 + nrows;
    let mut writer = BitWriter::new();
    let ghost mut done: int = 0;
    let mut ly: usize = row0;
    while ly < row_end
        invariant
            row0 <= ly <= row_end,
            row_end == row0 + nrows,
            img.wf(),
            img_s == *img,
            bs_i == block_size as int,
            block_size >= 1,
            bs32 == block_size as u32,
            valid_levels(levels),
            bpc == spec_bits_per_channel(levels),
            bpc_i == bpc as int,
            lw as int == lw_i,
            lw_i == img_s.spec_width() / bs_i,
            row_end as int * bs_i <= img_s.spec_height(),
            writer.wf(),
            done == 3 * ((ly as int - row0 as int) * lw_i),
            writer.bits().len() == done * bpc_i,
            forall|i: int|
                0 <= i < done * bpc_i ==> #[trigger] writer.bits()[i] == val_bits(
                    decoded_level(img_s, bs_i, levels, row0 as int, lw_i, i / bpc_i) as int,
                    bpc as nat,
                )[i % bpc_i],
        decreases row_end - ly,
    {
        let mut lx: usize = 0;
        proof {
            assert(3 * ((ly as int + 1 - row0 as int) * lw_i) == done + 3 * lw_i)
                by (nonlinear_arith)
                requires
                    done == 3 * ((ly as int - row0 as int) * lw_i),
            ;
        }
        while lx < lw
            invariant
                lx <= lw,
                row0 <= ly < row_end,
                row_end == row0 + nrows,
                img.wf(),
                img_s == *img,
                bs_i == block_size as int,
                block_size >= 1,
                bs32 == block_size as u32,
                valid_levels(levels),
                bpc == spec_bits_per_channel(levels),
                bpc_i == bpc as int,
                lw as int == lw_i,
                lw_i == img_s.spec_width() / bs_i,
                row_end as int * bs_i <= img_s.spec_height(),
                writer.wf(),
                done == 3 * ((ly as int - row0 as int) * lw_i + lx as int),
                writer.bits().len() == done * bpc_i,
                forall|i: int|
                    0 <= i < done * bpc_i ==> #[trigger] writer.bits()[i] == val_bits(
                        decoded_level(img_s, bs_i, levels, row0 as int, lw_i, i / bpc_i) as int,
                        bpc as nat,
                    )[i % bpc_i],
            decreases lw - lx,
        {
            proof {
                lemma_div_mod_decompose(img_s.spec_width(), bs_i);
                assert((lx as int + 1) * bs_i <= lw_i * bs_i && (ly as int + 1) * bs_i <= (
                row_end as int) * bs_i) by (nonlinear_arith)
                    requires
                        lx as int + 1 <= lw_i && ly as int + 1 <= row_end as int && bs_i >= 1,
                ;
                assert(lw_i * bs_i <= img_s.spec_width()) by (nonlinear_arith)
                    requires
                        lw_i * bs_i <= img_s.spec_width() || ((img_s.spec_width() / bs_i) * bs_i
                            <= img_s.spec_width() && lw_i == img_s.spec_width() / bs_i),
                ;
            }
            let (rv, gv, bv) = read_block(img, lx, ly, bs32, levels);
            let ghost p = (ly as int - row0 as int) * lw_i + lx as int;
            let ghost s0 = 3 * p;
            proof {
                lemma_fundamental_div_mod_converse(p, lw_i, ly as int - row0 as int, lx as int);
                assert(p / lw_i == ly as int - row0 as int && p % lw_i == lx as int);
                lemma_fundamental_div_mod_converse(s0, 3, p, 0);
                lemma_fundamental_div_mod_converse(s0 + 1, 3, p, 1);
                lemma_fundamental_div_mod_converse(s0 + 2, 3, p, 2);
                assert(decoded_level(img_s, bs_i, levels, row0 as int, lw_i, s0) == rv);
                assert(decoded_level(img_s, bs_i, levels, row0 as int, lw_i, s0 + 1) == gv);
                assert(decoded_level(img_s, bs_i, levels, row0 as int, lw_i, s0 + 2) == bv);
            }
            write_level(&mut writer, rv, bpc, Ghost(img_s), Ghost(bs_i), Ghost(levels), Ghost(row0 as int), Ghost(lw_i), Ghost(s0));
            write_level(&mut writer, gv, bpc, Ghost(img_s), Ghost(bs_i), Ghost(levels), Ghost(row0 as int), Ghost(lw_i), Ghost(s0 + 1));
            write_level(&mut writer, bv, bpc, Ghost(img_s), Ghost(bs_i), Ghost(levels), Ghost(row0 as int), Ghost(lw_i), Ghost(s0 + 2));
            lx = lx + 1;
            proof {
                done = done + 3;
                assert(done == 3 * ((ly as int - row0 as int) * lw_i + lx as int));
            }
        }
        ly = ly + 1;
    }
    let r = writer.finish();
    proof {
        let nbits = 3 * (nrows as int * lw_i) * bpc_i;
        assert(done * bpc_i == nbits) by (nonlinear_arith)
            requires
                done == 3 * ((row_end as int - row0 as int) * lw_i) && nbits == 3 * (nrows as int
                    * lw_i) * bpc_i && row_end as int == row0 as int + nrows as int,
        ;
        assert forall|i: int| 0 <= i < nbits implies #[trigger] stream_bit(r@, i) == val_bits(
            decoded_level(img_s, bs_i, levels, row0 as int, lw_i, i / bpc_i) as int,
            bpc as nat,
        )[i % bpc_i] by {
            assert(stream_bit(r@, i) == writer.bits()[i]);
        }
    }
    r
}

/// Append one channel level to the decode stream, keeping the slot-indexed
/// description of every bit written so far.
fn write_level(
    writer: &mut BitWriter,
    v: u8,
    bpc: u8,
    Ghost(img_s): Ghost<RgbFrame>,
    Ghost(bs_i): Ghost<int>,
    Ghost(levels): Ghost<u8>,
    Ghost(row0): Ghost<int>,
    Ghost(lw_i): Ghost<int>,
    Ghost(slot): Ghost<int>,
)
    requires
        old(writer).wf(),
        1 <= bpc <= 8,
        bpc == spec_bits_per_channel(levels),
        slot >= 0,
        old(writer).bits().len() == slot * bpc as int,
        decoded_level(img_s, bs_i, levels, row0, lw_i, slot) == v,
        forall|i: int|
            0 <= i < slot * bpc as int ==> #[trigger] old(writer).bits()[i] == val_bits(
                decoded_level(img_s, bs_i, levels, row0, lw_i, i / bpc as int) as int,
                bpc as nat,
            )[i % bpc as int],
    ensures
        final(writer).wf(),
        final(writer).bits().len() == (slot + 1) * bpc as int,
        forall|i: int|
            0 <= i < (slot + 1) * bpc as int ==> #[trigger] final(writer).bits()[i] == val_bits(
                decoded_level(img_s, bs_i, levels, row0, lw_i, i / bpc as int) as int,
                bpc as nat,
            )[i % bpc as int],
{
    writer.write_bits(v, bpc);
    proof {
        let bpc_i = bpc as int;
        assert((slot + 1) * bpc_i == slot * bpc_i + bpc_i) by (nonlinear_arith);
        assert forall|i: int| 0 <= i < (slot + 1) * bpc_i implies #[trigger] writer.bits()[i]
            == val_bits(
            decoded_level(img_s, bs_i, levels, row0, lw_i, i / bpc_i) as int,
            bpc as nat,
        )[i % bpc_i] by {
            if i < slot * bpc_i {
                assert(writer.bits()[i] == old(writer).bits()[i]);
            } else {
                lemma_fundamental_div_mod_converse(i, bpc_i, slot, i - slot * bpc_i);
                assert(i / bpc_i == slot && i % bpc_i == i - slot * bpc_i);
                assert(writer.bits()[i] == val_bits(v as int, bpc as nat)[i - slot * bpc_i]);
            }
        }
    }
}

/// Decode only the header area (the first two logical rows) of an image.
pub fn decode_header_area(img: &RgbFrame, block_size: u8, levels: u8) -> (r: Vec<u8>)
    requires
        img.wf(),
        block_size >= 1,
        valid_levels(levels),
        HEADER_ROWS as int * block_size as int <= img.spec_height(),
    ensures
        decode_output_ok(
            *img,
            block_size as int,
            levels,
            0,
            HEADER_ROWS as int,
            img.spec_width() / block_size as int,
            r@,
        ),
{
    decode_rows(img, block_size, levels, 0, HEADER_ROWS)
}

/// Decode the data area (all logical rows after the header rows) of an image.
pub fn decode_data_area(img: &RgbFrame, config: &FrameConfig) -> (r: Vec<u8>)
    requires
        img.wf(),
        config.wf(),
        img.spec_width() == FRAME_WIDTH as int,
        img.spec_height() == FRAME_HEIGHT as int,
    ensures
        decode_output_ok(
            *img,
            config.block_size as int,
            config.levels,
            HEADER_ROWS as int,
            config.spec_logical_height() - HEADER_ROWS as int,
            config.spec_logical_width(),
            r@,
        ),
{
    proof {
        config.lemma_geometry_bounds();
        lemma_div_mod_decompose(FRAME_HEIGHT as int, config.block_size as int);
    }
    let lh = config.logical_height();
    decode_rows(img, config.block_size, config.levels, HEADER_ROWS, lh - HEADER_ROWS)
}

/// Two bytes with the same bits are the same byte.
pub proof fn lemma_byte_eq_from_bits(a: u8, b: u8)
    requires
        forall|t: int| 0 <= t < 8 ==> byte_bit(a, t) == byte_bit(b, t),
    ensures
        a == b,
{
    lemma2_to64();
    assert(byte_bit(a, 0) == byte_bit(b, 0) && byte_bit(a, 1) == byte_bit(b, 1) && byte_bit(a, 2)
        == byte_bit(b, 2) && byte_bit(a, 3) == byte_bit(b, 3) && byte_bit(a, 4) == byte_bit(b, 4)
        && byte_bit(a, 5) == byte_bit(b, 5) && byte_bit(a, 6) == byte_bit(b, 6) && byte_bit(a, 7)
        == byte_bit(b, 7));
    assert(a == b) by (bit_vector)
        requires
            (a as int / 128 % 2 == 1) == (b as int / 128 % 2 == 1) && (a as int / 64 % 2 == 1) == (
            b as int / 64 % 2 == 1) && (a as int / 32 % 2 == 1) == (b as int / 32 % 2 == 1) && (
            a as int / 16 % 2 == 1) == (b as int / 16 % 2 == 1) && (a as int / 8 % 2 == 1) == (
            b as int / 8 % 2 == 1) && (a as int / 4 % 2 == 1) == (b as int / 4 % 2 == 1) && (
            a as int / 2 % 2 == 1) == (b as int / 2 % 2 == 1) && (a as int / 1 % 2 == 1) == (
            b as int / 1 % 2 == 1),
    ;
}

/// Under a clean encoding, the median decode of a channel slot returns the
/// level the source stream assigned to it.
pub proof fn lemma_decoded_level_matches(
    img: RgbFrame,
    src: Seq<u8>,
    cfg: FrameConfig,
    row0: int,
    row1: int,
    slot: int,
)
    requires
        cfg.wf(),
        img.wf(),
        img.spec_width() == FRAME_WIDTH as int,
        img.spec_height() == FRAME_HEIGHT as int,
        0 <= row0 <= row1 <= cfg.spec_logical_height(),
        rows_encoded(img, src, cfg, row0, row1),
        0 <= slot < 3 * ((row1 - row0) * cfg.spec_logical_width()),
    ensures
        0 <= bits_val(
            src,
            slot * spec_bits_per_channel(cfg.levels) as int,
            spec_bits_per_channel(cfg.levels) as nat,
        ) < cfg.levels,
        decoded_level(
            img,
            cfg.block_size as int,
            cfg.levels,
            row0,
            cfg.spec_logical_width(),
            slot,
        ) as int == bits_val(
            src,
            slot * spec_bits_per_channel(cfg.levels) as int,
            spec_bits_per_channel(cfg.levels) as nat,
        ),
{
    let bs = cfg.block_size as int;
    let lw = cfg.spec_logical_width();
    let levels = cfg.levels;
    let bpc = spec_bits_per_channel(levels) as int;
    cfg.lemma_geometry_bounds();
    lemma_levels_pow2(levels);
    lemma_div_mod_decompose(slot, 3);
    let p = slot / 3;
    let c = slot % 3;
    assert(0 <= p < (row1 - row0) * lw) by (nonlinear_arith)
        requires
            p * 3 <= slot && 0 <= slot < 3 * ((row1 - row0) * lw) && 0 <= p,
    ;
    lemma_div_mod_decompose(p, lw);
    let lx = p % lw;
    let ly0 = p / lw;
    assert(0 <= ly0 < row1 - row0) by (nonlinear_arith)
        requires
            ly0 * lw <= p && 0 <= p < (row1 - row0) * lw && lw >= 1 && 0 <= ly0,
    ;
    let ly = row0 + ly0;
    assert(0 <= lx < lw) by {
        lemma_mod_bound(p, lw);
    }
    let bc = block_channel(img, lx, ly, bs, c);
    assert(slot_of(ly0, lw, lx, c) == slot) by {
        lemma_fundamental_div_mod(p, lw);
        assert(p == ly0 * lw + lx) by (nonlinear_arith)
            requires
                p == lw * ly0 + lx,
        ;
        lemma_fundamental_div_mod(slot, 3);
        assert(slot == 3 * p + c);
    }
    let level = row_level(src, levels, lw, ly0, lx, c);
    assert(0 <= level < levels) by {
        lemma_bits_val_bound(
            src,
            slot_of(ly0, lw, lx, c) * bpc,
            spec_bits_per_channel(levels) as nat,
        );
    }
    let v0 = spec_quantize(level as u8, levels);
    assert(bc.len() == bs * bs && bs * bs >= 1) by (nonlinear_arith)
        requires
            bc.len() == bs * bs && bs >= 1,
    ;
    assert forall|e: int| 0 <= e < bc.len() implies bc[e] == v0 by {
        let x = lx * bs + e % bs;
        let y = ly * bs + e / bs;
        lemma_mod_bound(e, bs);
        lemma_div_mod_decompose(e, bs);
        assert(0 <= e / bs < bs) by (nonlinear_arith)
            requires
                (e / bs) * bs <= e && 0 <= e < bs * bs && bs >= 1 && 0 <= e / bs,
        ;
        assert(0 <= x && x + 1 <= lw * bs && 0 <= y && y + 1 <= cfg.spec_logical_height() * bs)
            by (nonlinear_arith)
            requires
                0 <= lx < lw && 0 <= e % bs < bs && 0 <= e / bs < bs && 0 <= ly
                    < cfg.spec_logical_height() && x == lx * bs + e % bs && y == ly * bs + e / bs
                    && bs >= 1,
        ;
        lemma_fundamental_div_mod_converse(x, bs, lx, e % bs);
        lemma_fundamental_div_mod_converse(y, bs, ly, e / bs);
        assert(x / bs == lx && y / bs == ly);
        assert(img.pixel_val(x, y, c) == spec_quantize(
            row_level(src, cfg.levels, lw, y / bs - row0, x / bs, c) as u8,
            cfg.levels,
        ));
    }
    lemma_median_constant(bc, v0);
    lemma_quantize_round_trip(level as u8, levels);
}

/// One bit of the decoded stream equals the corresponding bit of the encoded
/// source stream.
proof fn lemma_decoded_bit(
    img: RgbFrame,
    src: Seq<u8>,
    cfg: FrameConfig,
    out: Seq<u8>,
    row0: int,
    row1: int,
    i: int,
)
    requires
        cfg.wf(),
        img.wf(),
        img.spec_width() == FRAME_WIDTH as int,
        img.spec_height() == FRAME_HEIGHT as int,
        0 <= row0 <= row1 <= cfg.spec_logical_height(),
        rows_encoded(img, src, cfg, row0, row1),
        decode_output_ok(
            img,
            cfg.block_size as int,
            cfg.levels,
            row0,
            row1 - row0,
            cfg.spec_logical_width(),
            out,
        ),
        0 <= i < 3 * ((row1 - row0) * cfg.spec_logical_width()) * spec_bits_per_channel(
            cfg.levels,
        ) as int,
    ensures
        stream_bit(out, i) == stream_bit(src, i),
{
    let lw = cfg.spec_logical_width();
    let levels = cfg.levels;
    let bpc = spec_bits_per_channel(levels) as int;
    let nslots = 3 * ((row1 - row0) * lw);
    lemma_div_mod_decompose(i, bpc);
    lemma_mod_bound(i, bpc);
    let slot = i / bpc;
    let off = i % bpc;
    assert(0 <= slot < nslots) by (nonlinear_arith)
        requires
            slot * bpc <= i && 0 <= i < nslots * bpc && bpc >= 1 && 0 <= slot,
    ;
    lemma_decoded_level_matches(img, src, cfg, row0, row1, slot);
    let level = bits_val(src, slot * bpc, spec_bits_per_channel(levels) as nat);
    assert(stream_bit(out, i) == val_bits(level, spec_bits_per_channel(levels) as nat)[off]);
    lemma_bits_of_bits_val(src, slot * bpc, spec_bits_per_channel(levels) as nat);
    assert(slot * bpc + off == i) by (nonlinear_arith)
        requires
            slot == i / bpc && off == i % bpc && bpc >= 1 && (i / bpc) * bpc + i % bpc == i,
    ;
    assert(val_bits(level, spec_bits_per_channel(levels) as nat)[off] == stream_bit(
        src,
        slot * bpc + off,
    ));
}

/// Frame codec round trip: a band of rows painted from a bit stream decodes
/// back to that stream, byte for byte as far as the band's bit capacity
/// covers whole source bytes.
pub proof fn lemma_frame_codec_round_trip(
    img: RgbFrame,
    src: Seq<u8>,
    cfg: FrameConfig,
    out: Seq<u8>,
    row0: int,
    row1: int,
)
    requires
        cfg.wf(),
        img.wf(),
        img.spec_width() == FRAME_WIDTH as int,
        img.spec_height() == FRAME_HEIGHT as int,
        0 <= row0 <= row1 <= cfg.spec_logical_height(),
        rows_encoded(img, src, cfg, row0, row1),
        decode_output_ok(
            img,
            cfg.block_size as int,
            cfg.levels,
            row0,
            row1 - row0,
            cfg.spec_logical_width(),
            out,
        ),
    ensures
        forall|j: int|
            0 <= j < src.len() && 8 * j + 8 <= 3 * ((row1 - row0) * cfg.spec_logical_width())
                * spec_bits_per_channel(cfg.levels) as int ==> #[trigger] out[j] == src[j],
{
    let bpc = spec_bits_per_channel(cfg.levels) as int;
    let nbits = 3 * ((row1 - row0) * cfg.spec_logical_width()) * bpc;
    assert forall|j: int| 0 <= j < src.len() && 8 * j + 8 <= nbits implies #[trigger] out[j]
        == src[j] by {
        assert(8 * out.len() >= nbits);
        assert forall|t: int| 0 <= t < 8 implies byte_bit(out[j], t) == byte_bit(src[j], t) by {
            let i = 8 * j + t;
            lemma_decoded_bit(img, src, cfg, out, row0, row1, i);
            lemma_fundamental_div_mod_converse(i, 8, j, t);
            assert(i / 8 == j && i % 8 == t);
            assert(stream_bit(out, i) == byte_bit(out[j], t));
            assert(stream_bit(src, i) == byte_bit(src[j], t));
        }
        lemma_byte_eq_from_bits(out[j], src[j]);
    }
}

} // verus!
