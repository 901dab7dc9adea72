//! Geometric transforms: crop, flips and quarter-turn rotations. Each makes a
//! new image whose pixels are taken from the source by a coordinate mapping.

use vstd::prelude::*;
use vstd::arithmetic::div_mod::{lemma_fundamental_div_mod, lemma_fundamental_div_mod_converse_div, lemma_fundamental_div_mod_converse_mod};
use crate::format::{mode_pixel_size, ImageError, PILMode};
use crate::image::{lemma_pixel_offset, ImageView, PILImage, MAX_EXTENT};

verus! {

/// A mapping from destination pixels to source pixels.
#[derive(Clone, Copy, PartialEq, Eq, Structural, Debug)]
pub enum Remap {
    FlipLeftRight,
    FlipTopBottom,
    Rotate90,
    Rotate180,
    Rotate270,
    /// The `w` by `h` block whose top left pixel is `(x0, y0)`.
    Crop { x0: usize, y0: usize, w: usize, h: usize },
}

/// Whether the mapping stays inside an image of this size.
pub open spec fn remap_fits(r: Remap, v: ImageView) -> bool {
    match r {
        Remap::Crop { x0, y0, w, h } => 0 < w && 0 < h && x0 + w <= v.width && y0 + h <= v.height,
        _ => true,
    }
}

/// Width and height of the result.
pub open spec fn remap_size(r: Remap, v: ImageView) -> (nat, nat) {
    match r {
        Remap::Rotate90 | Remap::Rotate270 => (v.height, v.width),
        Remap::Crop { x0, y0, w, h } => (w as nat, h as nat),
        _ => (v.width, v.height),
    }
}

/// The source pixel of destination pixel `(x, y)`. A quarter turn is
/// counter-clockwise.
pub open spec fn remap_source(r: Remap, v: ImageView, x: int, y: int) -> (int, int) {
    match r {
        Remap::FlipLeftRight => (v.width - 1 - x, y),
        Remap::FlipTopBottom => (x, v.height - 1 - y),
        Remap::Rotate90 => (v.width - 1 - y, x),
        Remap::Rotate180 => (v.width - 1 - x, v.height - 1 - y),
        Remap::Rotate270 => (y, v.height - 1 - x),
        Remap::Crop { x0, y0, w, h } => (x0 + x, y0 + y),
    }
}

/// The image with the given format and size whose byte `k` of pixel `(x, y)`
/// is `f(x, y, k)`.
pub open spec fn pixel_grid(mode: PILMode, width: nat, height: nat, f: spec_fn(int, int, int) -> u8) -> ImageView {
    ImageView {
        mode,
        width,
        height,
        lines: Seq::new(
            height,
            |y: int| Seq::new(width * mode_pixel_size(mode), |i: int| f(i / (mode_pixel_size(mode) as int), y, i % (mode_pixel_size(mode) as int))),
        ),
    }
}

/// The result of applying the mapping to `v`.
pub open spec fn remapped(v: ImageView, r: Remap) -> ImageView {
    pixel_grid(
        v.mode,
        remap_size(r, v).0,
        remap_size(r, v).1,
        |x: int, y: int, k: int| v.px(remap_source(r, v, x, y).0, remap_source(r, v, x, y).1, k),
    )
}

/// Byte `k` of pixel `x` sits at `x * ps + k`, and only there.
pub proof fn lemma_offset_split(x: int, k: int, ps: int)
    requires
        0 <= x,
        0 <= k < ps,
    ensures
        (x * ps + k) / ps == x,
        (x * ps + k) % ps == k,
{
    lemma_fundamental_div_mod_converse_div(x * ps + k, ps, x, k);
    lemma_fundamental_div_mod_converse_mod(x * ps + k, ps, x, k);
}

/// A pixel grid's pixels are what its function gives.
pub proof fn lemma_grid_px(mode: PILMode, width: nat, height: nat, f: spec_fn(int, int, int) -> u8, x: int, y: int, k: int)
    requires
        0 <= x < width,
        0 <= y < height,
        0 <= k < mode_pixel_size(mode),
    ensures
        pixel_grid(mode, width, height, f).px(x, y, k) == f(x, y, k),
{
    let ps = mode_pixel_size(mode) as int;
    lemma_offset_split(x, k, ps);
    lemma_pixel_offset(x, k, width as int, ps);
}

/// Two valid images of one shape that agree on every pixel byte are equal.
pub proof fn lemma_view_ext(a: ImageView, b: ImageView)
    requires
        a.wf(),
        b.wf(),
        a.same_shape(b),
        forall|x: int, y: int, k: int|
            0 <= x < a.width && 0 <= y < a.height && 0 <= k < a.pixel_size() ==> #[trigger] a.px(x, y, k) == b.px(x, y, k),
    ensures
        a == b,
{
    let ps = a.pixel_size() as int;
    assert forall|y: int| 0 <= y < a.height implies #[trigger] a.lines[y] == b.lines[y] by {
        assert forall|i: int| 0 <= i < a.lines[y].len() implies a.lines[y][i] == b.lines[y][i] by {
            lemma_fundamental_div_mod(i, ps);
            let x = i / ps;
            let k = i % ps;
            assert(i == x * ps + k) by (nonlinear_arith)
                requires
                    i == ps * (i / ps) + (i % ps),
                    x == i / ps,
                    k == i % ps,
            ;
            assert(x < a.width) by (nonlinear_arith)
                requires
                    i == x * ps + k,
                    0 <= k,
                    i < a.width * ps,
                    ps > 0,
            ;
            assert(0 <= x) by (nonlinear_arith)
                requires
                    i == x * ps + k,
                    0 <= k < ps,
                    i >= 0,
                    ps > 0,
            ;
            assert(a.px(x, y, k) == b.px(x, y, k));
        }
        assert(a.lines[y] =~= b.lines[y]);
    }
    assert(a.lines =~= b.lines);
}

/// A fitting mapping yields a valid image whose pixels are the source's at
/// the mapped place.
pub proof fn lemma_remapped(v: ImageView, r: Remap)
    requires
        v.wf(),
        remap_fits(r, v),
    ensures
        remapped(v, r).wf(),
        remapped(v, r).mode == v.mode,
        remapped(v, r).width == remap_size(r, v).0,
        remapped(v, r).height == remap_size(r, v).1,
        forall|x: int, y: int, k: int|
            0 <= x < remap_size(r, v).0 && 0 <= y < remap_size(r, v).1 && 0 <= k < v.pixel_size()
                ==> #[trigger] remapped(v, r).px(x, y, k) == v.px(remap_source(r, v, x, y).0, remap_source(r, v, x, y).1, k),
        forall|x: int, y: int|
            0 <= x < remap_size(r, v).0 && 0 <= y < remap_size(r, v).1
                ==> 0 <= #[trigger] remap_source(r, v, x, y).0 < v.width && 0 <= remap_source(r, v, x, y).1 < v.height,
{
    let o = remapped(v, r);
    let ps = v.pixel_size();
    crate::format::lemma_mode_layout(v.mode);
    let f = |x: int, y: int, k: int| v.px(remap_source(r, v, x, y).0, remap_source(r, v, x, y).1, k);
    assert forall|x: int, y: int, k: int|
        0 <= x < remap_size(r, v).0 && 0 <= y < remap_size(r, v).1 && 0 <= k < v.pixel_size()
            implies #[trigger] o.px(x, y, k) == v.px(remap_source(r, v, x, y).0, remap_source(r, v, x, y).1, k) by {
        lemma_grid_px(v.mode, remap_size(r, v).0, remap_size(r, v).1, f, x, y, k);
    }
    match r {
        Remap::Crop { x0, y0, w, h } => {
            assert(w * ps <= v.width * ps && h * ps <= v.height * ps && w * ps * h <= v.width * ps * v.height) by (nonlinear_arith)
                requires
                    w <= v.width,
                    h <= v.height,
                    ps >= 1,
            ;
            assert(w <= w * ps && h <= h * ps) by (nonlinear_arith)
                requires
                    ps >= 1,
            ;
        },
        Remap::Rotate90 | Remap::Rotate270 => {
            assert(v.height * ps * v.width == v.width * ps * v.height) by (nonlinear_arith);
        },
        _ => {},
    }
}

/// Mirroring an image left to right twice gives the image back, byte for byte.
pub proof fn lemma_flip_left_right_involution(v: ImageView)
    requires
        v.wf(),
    ensures
        remapped(remapped(v, Remap::FlipLeftRight), Remap::FlipLeftRight) == v,
{
    let a = remapped(v, Remap::FlipLeftRight);
    lemma_remapped(v, Remap::FlipLeftRight);
    lemma_remapped(a, Remap::FlipLeftRight);
    lemma_view_ext(remapped(a, Remap::FlipLeftRight), v);
}

/// Mirroring an image top to bottom twice gives the image back, byte for byte.
pub proof fn lemma_flip_top_bottom_involution(v: ImageView)
    requires
        v.wf(),
    ensures
        remapped(remapped(v, Remap::FlipTopBottom), Remap::FlipTopBottom) == v,
{
    let a = remapped(v, Remap::FlipTopBottom);
    lemma_remapped(v, Remap::FlipTopBottom);
    lemma_remapped(a, Remap::FlipTopBottom);
    lemma_view_ext(remapped(a, Remap::FlipTopBottom), v);
}

/// Four quarter turns give the image back, byte for byte.
pub proof fn lemma_rotate_90_four_times(v: ImageView)
    requires
        v.wf(),
    ensures
        remapped(remapped(remapped(remapped(v, Remap::Rotate90), Remap::Rotate90), Remap::Rotate90), Remap::Rotate90) == v,
{
    let a = remapped(v, Remap::Rotate90);
    lemma_remapped(v, Remap::Rotate90);
    let b = remapped(a, Remap::Rotate90);
    lemma_remapped(a, Remap::Rotate90);
    let c = remapped(b, Remap::Rotate90);
    lemma_remapped(b, Remap::Rotate90);
    let d = remapped(c, Remap::Rotate90);
    lemma_remapped(c, Remap::Rotate90);
    lemma_view_ext(d, v);
}

impl PILImage {
    /// The block from column `x0` up to `x1` and row `y0` up to `y1` (ends
    /// excluded), as a new image.
    pub fn crop(&self, x0: i32, y0: i32, x1: i32, y1: i32) -> (r: Result<Self, ImageError>)
        requires
            self.wf(),
        ensures
            r.is_ok() <==> 0 <= x0 < x1 <= self@.width && 0 <= y0 < y1 <= self@.height,
            r.is_err() ==> r == Err::<Self, ImageError>(ImageError::InvalidRegion),
            r.is_ok() ==> {
                let o = r.unwrap()@;
                &&& r.unwrap().wf()
                &&& o == remapped(self@, (Remap::Crop { x0: x0 as usize, y0: y0 as usize, w: (x1 - x0) as usize, h: (y1 - y0) as usize }))
                &&& o.mode == self@.mode
                &&& o.width == x1 - x0
                &&& o.height == y1 - y0
                &&& forall|x: int, y: int, k: int|
                    0 <= x < o.width && 0 <= y < o.height && 0 <= k < o.pixel_size()
                        ==> #[trigger] o.px(x, y, k) == self@.px(x0 + x, y0 + y, k)
            },
    {
        if x0 < 0 || y0 < 0 || x0 >= x1 || y0 >= y1 || x1 > self.width() || y1 > self.height() {
            return Err(ImageError::InvalidRegion);
        }
        let m = Remap::Crop { x0: x0 as usize, y0: y0 as usize, w: (x1 - x0) as usize, h: (y1 - y0) as usize };
        proof {
            lemma_remapped(self@, m);
        }
        Ok(self.remap(m))
    }

    /// The image mirrored left to right. `out` must have this image's format
    /// and size; its bytes are replaced.
    pub fn flip_left_right(&self, out: PILImage) -> (r: Result<Self, ImageError>)
        requires
            self.wf(),
            out.wf(),
        ensures
            r.is_ok() <==> out@.same_shape(self@),
            r.is_err() ==> r == Err::<Self, ImageError>(ImageError::Mismatch),
            r.is_ok() ==> {
                let o = r.unwrap()@;
                &&& r.unwrap().wf()
                &&& o == remapped(self@, Remap::FlipLeftRight)
                &&& o.same_shape(self@)
                &&& forall|x: int, y: int, k: int|
                    0 <= x < o.width && 0 <= y < o.height && 0 <= k < o.pixel_size()
                        ==> #[trigger] o.px(x, y, k) == self@.px(self@.width - 1 - x, y, k)
            },
    {
        if out.mode() != self.mode() || out.width() != self.width() || out.height() != self.height() {
            return Err(ImageError::Mismatch);
        }
        proof {
            lemma_remapped(self@, Remap::FlipLeftRight);
        }
        Ok(self.remap(Remap::FlipLeftRight))
    }

    /// The image mirrored top to bottom.
    pub fn flip_top_bottom(&self) -> (r: Self)
        requires
            self.wf(),
        ensures
            r.wf(),
            r@ == remapped(self@, Remap::FlipTopBottom),
            r@.same_shape(self@),
            forall|x: int, y: int, k: int|
                0 <= x < r@.width && 0 <= y < r@.height && 0 <= k < r@.pixel_size()
                    ==> #[trigger] r@.px(x, y, k) == self@.px(x, self@.height - 1 - y, k),
    {
        proof {
            lemma_remapped(self@, Remap::FlipTopBottom);
        }
        self.remap(Remap::FlipTopBottom)
    }

    /// The image turned a quarter counter-clockwise.
    pub fn rotate_90(&self) -> (r: Self)
        requires
            self.wf(),
        ensures
            r.wf(),
            r@ == remapped(self@, Remap::Rotate90),
            r@.mode == self@.mode && r@.width == self@.height && r@.height == self@.width,
            forall|x: int, y: int, k: int|
                0 <= x < r@.width && 0 <= y < r@.height && 0 <= k < r@.pixel_size()
                    ==> #[trigger] r@.px(x, y, k) == self@.px(self@.width - 1 - y, x, k),
    {
        proof {
            lemma_remapped(self@, Remap::Rotate90);
        }
        self.remap(Remap::Rotate90)
    }

    /// The image turned half a turn.
    pub fn rotate_180(&self) -> (r: Self)
        requires
            self.wf(),
        ensures
            r.wf(),
            r@ == remapped(self@, Remap::Rotate180),
            r@.same_shape(self@),
            forall|x: int, y: int, k: int|
                0 <= x < r@.width && 0 <= y < r@.height && 0 <= k < r@.pixel_size()
                    ==> #[trigger] r@.px(x, y, k) == self@.px(self@.width - 1 - x, self@.height - 1 - y, k),
    {
        proof {
            lemma_remapped(self@, Remap::Rotate180);
        }
        self.remap(Remap::Rotate180)
    }

    /// The image turned a quarter clockwise.
    pub fn rotate_270(&self) -> (r: Self)
        requires
            self.wf(),
        ensures
            r.wf(),
            r@ == remapped(self@, Remap::Rotate270),
            r@.mode == self@.mode && r@.width == self@.height && r@.height == self@.width,
            forall|x: int, y: int, k: int|
                0 <= x < r@.width && 0 <= y < r@.height && 0 <= k < r@.pixel_size()
                    ==> #[trigger] r@.px(x, y, k) == self@.px(y, self@.height - 1 - x, k),
    {
        proof {
            lemma_remapped(self@, Remap::Rotate270);
        }
        self.remap(Remap::Rotate270)
    }

    /// Builds the image that the mapping makes of this one.
    fn remap(&self, r: Remap) -> (out: PILImage)
        requires
            self.wf(),
            remap_fits(r, self@),
        ensures
            out.wf(),
            out@ == remapped(self@, r),
    {
        let ghost v = self@;
        proof {
            lemma_remapped(v, r);
            crate::format::lemma_mode_layout(v.mode);
        }
        let ghost target = remapped(v, r);
        let w = self.width() as usize;
        let h = self.height() as usize;
        let mode = self.mode();
        let ps = mode.pixel_size();
        let (w2, h2) = match r {
            Remap::Rotate90 | Remap::Rotate270 => (h, w),
            Remap::Crop { x0, y0, w, h } => (w, h),
            _ => (w, h),
        };
        let mut lines: Vec<Vec<u8>> = Vec::new();
        let mut y: usize = 0;
        while y < h2
            invariant
                self.wf(),
                v == self@,
                target == remapped(v, r),
                target.wf(),
                remap_fits(r, v),
                w == v.width,
                h == v.height,
                w2 == target.width,
                h2 == target.height,
                mode == v.mode,
                ps == v.pixel_size(),
                1 <= ps <= 4,
                y <= h2,
                lines.len() == y,
                forall|yy: int| 0 <= yy < y ==> #[trigger] lines@[yy]@ == target.lines[yy],
                forall|x: int, y: int, k: int|
                    0 <= x < w2 && 0 <= y < h2 && 0 <= k < ps
                        ==> #[trigger] target.px(x, y, k) == v.px(remap_source(r, v, x, y).0, remap_source(r, v, x, y).1, k),
                forall|x: int, y: int|
                    0 <= x < w2 && 0 <= y < h2
                        ==> 0 <= #[trigger] remap_source(r, v, x, y).0 < v.width && 0 <= remap_source(r, v, x, y).1 < v.height,
            decreases h2 - y,
        {
            let mut line: Vec<u8> = Vec::new();
            let mut x: usize = 0;
            while x < w2
                invariant
                    self.wf(),
                    v == self@,
                    target == remapped(v, r),
                    target.wf(),
                    remap_fits(r, v),
                    w == v.width,
                    h == v.height,
                    w2 == target.width,
                    h2 == target.height,
                    ps == v.pixel_size(),
                    1 <= ps <= 4,
                    y < h2,
                    x <= w2,
                    line@.len() == x * ps,
                    forall|i: int| 0 <= i < line@.len() ==> #[trigger] line@[i] == target.lines[y as int][i],
                    forall|x: int, y: int, k: int|
                        0 <= x < w2 && 0 <= y < h2 && 0 <= k < ps
                            ==> #[trigger] target.px(x, y, k) == v.px(remap_source(r, v, x, y).0, remap_source(r, v, x, y).1, k),
                    forall|x: int, y: int|
                        0 <= x < w2 && 0 <= y < h2
                            ==> 0 <= #[trigger] remap_source(r, v, x, y).0 < v.width && 0 <= remap_source(r, v, x, y).1 < v.height,
                decreases w2 - x,
            {
                let (sx, sy): (usize, usize) = match r {
                    Remap::FlipLeftRight => (w - 1 - x, y),
                    Remap::FlipTopBottom => (x, h - 1 - y),
                    Remap::Rotate90 => (w - 1 - y, x),
                    Remap::Rotate180 => (w - 1 - x, h - 1 - y),
                    Remap::Rotate270 => (y, h - 1 - x),
                    Remap::Crop { x0, y0, w, h } => (x0 + x, y0 + y),
                };
                assert(sx == remap_source(r, v, x as int, y as int).0);
                assert(sy == remap_source(r, v, x as int, y as int).1);
                let src = self.line(sy);
                let mut k: usize = 0;
                while k < ps
                    invariant
                        self.wf(),
                        v == self@,
                        target.wf(),
                        w2 == target.width,
                        ps == v.pixel_size(),
                        ps == target.pixel_size(),
                        1 <= ps <= 4,
                        y < h2,
                        x < w2,
                        sx < v.width,
                        sy < v.height,
                        src@ == v.lines[sy as int],
                        k <= ps,
                        line@.len() == x * ps + k,
                        forall|i: int| 0 <= i < line@.len() ==> #[trigger] line@[i] == target.lines[y as int][i],
                        forall|kk: int| 0 <= kk < ps ==> #[trigger] target.px(x as int, y as int, kk) == v.px(sx as int, sy as int, kk),
                    decreases ps - k,
                {
                    proof {
                        lemma_pixel_offset(sx as int, k as int, v.width as int, ps as int);
                        lemma_pixel_offset(x as int, k as int, w2 as int, ps as int);
                    }
                    line.push(src[sx * ps + k]);
                    assert(target.px(x as int, y as int, k as int) == v.px(sx as int, sy as int, k as int));
                    k = k + 1;
                }
                proof {
                    assert((x + 1) * ps == x * ps + ps) by (nonlinear_arith);
                }
                x = x + 1;
            }
            proof {
                assert(line@ =~= target.lines[y as int]);
            }
            lines.push(line);
            y = y + 1;
        }
        proof {
            assert(lines@.map_values(|l: Vec<u8>| l@) =~= target.lines);
        }
        PILImage::from_parts(mode, w2, h2, lines)
    }
}

} // verus!
