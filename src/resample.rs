//! Separable resampling: a horizontal pass over every row, then a vertical
//! pass over every column, each a weighted sum of source samples in fixed
//! point, rounded to the nearest byte and clamped to `0..=255`.

use vstd::prelude::*;
use crate::coeffs::{lemma_entry_fits, lemma_sum_push, seq_sum, axis_args, axis_coeffs, axis_ok, coeffs_fit, entries_view, entry_degenerate, lemma_identity_entry, precompute_coeffs, CoeffEntry, WEIGHT_LIMIT, WEIGHT_ONE};
use crate::format::{mode_pixel_size, mode_type, ImageError, PILFilter, PILMode, PILType};
use crate::image::{lemma_pixel_offset, size_allowed, ImageView, PILImage, MAX_EXTENT};
use crate::kernel::floor_div;
use crate::transform::{lemma_grid_px, lemma_view_ext, pixel_grid};
use vstd::arithmetic::div_mod::{lemma_fundamental_div_mod_converse_div, lemma_fundamental_div_mod_converse_mod};

verus! {

/// A crop rectangle in source pixels, each coordinate `c / denom`. It may
/// reach past the image, whose edge samples then stand for what lies beyond.
#[derive(Clone, Copy, PartialEq, Eq, Structural, Debug)]
pub struct CropBox {
    pub x0: i32,
    pub y0: i32,
    pub x1: i32,
    pub y1: i32,
    pub denom: u16,
}

/// Formats that resampling can average: every byte format and the integer
/// format; the float format is not handled here.
pub open spec fn resamplable(m: PILMode) -> bool {
    m != PILMode::F
}

/// A fixed-point sum rounded to the nearest whole number and clamped to a byte.
pub open spec fn round_fixed(acc: int) -> u8 {
    let v = (acc + WEIGHT_ONE / 2) / (WEIGHT_ONE as int);
    if v < 0 {
        0
    } else if v > 255 {
        255
    } else {
        v as u8
    }
}

/// Source sample `t` of a window that starts at `start`: along the row for
/// a horizontal pass, down the column for a vertical one.
pub open spec fn sample(v: ImageView, start: int, horizontal: bool, x: int, y: int, k: int, t: int) -> int {
    if horizontal {
        v.px(start + t, y, k) as int
    } else {
        v.px(x, start + t, k) as int
    }
}

/// The weighted sum of the first `n` samples of a window.
pub open spec fn pass_sum(v: ImageView, e: (int, Seq<int>), horizontal: bool, x: int, y: int, k: int, n: int) -> int
    decreases n,
{
    if n <= 0 {
        0
    } else {
        pass_sum(v, e, horizontal, x, y, k, n - 1) + e.1[n - 1] * sample(v, e.0, horizontal, x, y, k, n - 1)
    }
}

/// The signed 32-bit integer whose little-endian bytes are `b0` to `b3`.
pub open spec fn le_i32(b0: u8, b1: u8, b2: u8, b3: u8) -> int {
    let u = b0 + 256 * b1 + 65536 * b2 + 16777216 * b3;
    if u >= 0x8000_0000 {
        u - 0x1_0000_0000
    } else {
        u
    }
}

/// Byte `k` of the little-endian two's-complement form of `val`.
pub open spec fn le_byte(val: int, k: int) -> u8 {
    let u = if val < 0 {
        val + 0x1_0000_0000
    } else {
        val
    };
    let p = if k == 0 {
        1int
    } else if k == 1 {
        256int
    } else if k == 2 {
        65536int
    } else {
        16777216int
    };
    ((u / p) % 256) as u8
}

/// The value of pixel `(x, y)` of an integer image.
pub open spec fn int_px(v: ImageView, x: int, y: int) -> int {
    le_i32(v.px(x, y, 0), v.px(x, y, 1), v.px(x, y, 2), v.px(x, y, 3))
}

/// Integer sample `t` of a window, as `sample` picks it.
pub open spec fn int_sample(v: ImageView, start: int, horizontal: bool, x: int, y: int, t: int) -> int {
    if horizontal {
        int_px(v, start + t, y)
    } else {
        int_px(v, x, start + t)
    }
}

/// The weighted sum of the first `n` integer samples of a window.
pub open spec fn int_pass_sum(v: ImageView, e: (int, Seq<int>), horizontal: bool, x: int, y: int, n: int) -> int
    decreases n,
{
    if n <= 0 {
        0
    } else {
        int_pass_sum(v, e, horizontal, x, y, n - 1) + e.1[n - 1] * int_sample(v, e.0, horizontal, x, y, n - 1)
    }
}

/// A fixed-point sum rounded to the nearest whole number, saturated to the
/// range of `i32`.
pub open spec fn round_i32(acc: int) -> int {
    let v = (acc + WEIGHT_ONE / 2) / (WEIGHT_ONE as int);
    if v < -0x8000_0000 {
        -0x8000_0000
    } else if v > 0x7fff_ffff {
        0x7fff_ffff
    } else {
        v
    }
}

/// Byte `k` of pixel `(x, y)` after one pass. Byte formats round and clamp
/// each meaningful channel and clear the others; the integer format rounds
/// the pixel's value.
pub open spec fn pass_px(v: ImageView, cs: Seq<(int, Seq<int>)>, horizontal: bool, x: int, y: int, k: int) -> u8 {
    let e = if horizontal {
        cs[x]
    } else {
        cs[y]
    };
    if mode_type(v.mode) == PILType::Int32 {
        le_byte(round_i32(int_pass_sum(v, e, horizontal, x, y, e.1.len() as int)), k)
    } else if k < v.channels() {
        round_fixed(pass_sum(v, e, horizontal, x, y, k, e.1.len() as int))
    } else {
        0
    }
}

/// The image after one pass with coefficients `cs`.
pub open spec fn passed(v: ImageView, cs: Seq<(int, Seq<int>)>, horizontal: bool) -> ImageView {
    pixel_grid(
        v.mode,
        if horizontal { cs.len() } else { v.width },
        if horizontal { v.height } else { cs.len() },
        |x: int, y: int, k: int| pass_px(v, cs, horizontal, x, y, k),
    )
}

/// A pixel grid of an allowed size is a valid image.
pub proof fn lemma_grid_wf(mode: PILMode, width: nat, height: nat, f: spec_fn(int, int, int) -> u8)
    requires
        size_allowed(mode, width as int, height as int),
    ensures
        pixel_grid(mode, width, height, f).wf(),
{
    let ps = mode_pixel_size(mode);
    crate::format::lemma_mode_layout(mode);
    assert(width <= width * ps && height <= height * ps) by (nonlinear_arith)
        requires
            ps >= 1,
    ;
}

fn round_fixed_exec(acc: i128) -> (r: u8)
    requires
        -0x1_0000_0000_0000_0000_0000_0000 <= acc <= 0x1_0000_0000_0000_0000_0000_0000,
    ensures
        r == round_fixed(acc as int),
{
    let v = floor_div(acc + WEIGHT_ONE / 2, WEIGHT_ONE);
    if v < 0 {
        0
    } else if v > 255 {
        255
    } else {
        v as u8
    }
}

/// The coefficients of the horizontal axis.
pub open spec fn h_coeffs(v: ImageView, w: int, f: PILFilter, c: CropBox) -> Seq<(int, Seq<int>)> {
    axis_coeffs(f, v.width as int, w, c.x0 as int, c.x1 as int, c.denom as int)
}

/// The coefficients of the vertical axis.
pub open spec fn v_coeffs(v: ImageView, h: int, f: PILFilter, c: CropBox) -> Seq<(int, Seq<int>)> {
    axis_coeffs(f, v.height as int, h, c.y0 as int, c.y1 as int, c.denom as int)
}

/// The image resampled to `w` by `h` pixels over the crop rectangle `c`:
/// the horizontal pass, then the vertical pass on its result.
pub open spec fn resampled(v: ImageView, w: int, h: int, f: PILFilter, c: CropBox) -> ImageView {
    passed(passed(v, h_coeffs(v, w, f, c), true), v_coeffs(v, h, f, c), false)
}

/// The error that resampling reports, if any, in the order the conditions
/// are checked.
pub open spec fn resample_error(v: ImageView, w: int, h: int, f: PILFilter, c: CropBox) -> Option<ImageError> {
    if w <= 0 || h <= 0 {
        Some(ImageError::InvalidDimension)
    } else if !resamplable(v.mode) {
        Some(ImageError::WrongMode)
    } else if !size_allowed(v.mode, w, h) || !size_allowed(v.mode, w, v.height as int) {
        Some(ImageError::Allocation)
    } else if c.denom == 0 || !axis_ok(f, v.width as int, w, c.x0 as int, c.x1 as int, c.denom as int)
        || !axis_ok(f, v.height as int, h, c.y0 as int, c.y1 as int, c.denom as int) {
        Some(ImageError::DegenerateKernel)
    } else {
        None
    }
}

/// The default crop rectangle of a `w` by `h` destination: the same numbers
/// taken as source pixels, `[0, 0, w, h]`.
pub open spec fn dest_box(w: int, h: int) -> CropBox {
    CropBox { x0: 0, y0: 0, x1: w as i32, y1: h as i32, denom: 1 }
}

fn read_i32(line: &Vec<u8>, off: usize) -> (r: i128)
    requires
        off + 4 <= line@.len(),
    ensures
        r == le_i32(line@[off as int], line@[off + 1], line@[off + 2], line@[off + 3]),
        -0x8000_0000 <= r < 0x8000_0000,
{
    let len = line.len();
    assert(off + 4 <= len);
    let u = line[off] as i128 + 256 * (line[off + 1] as i128) + 65536 * (line[off + 2] as i128) + 16777216 * (line[off + 3] as i128);
    if u >= 0x8000_0000 {
        u - 0x1_0000_0000
    } else {
        u
    }
}

fn le_byte_exec(val: i128, k: usize) -> (r: u8)
    requires
        -0x8000_0000 <= val < 0x8000_0000,
    ensures
        r == le_byte(val as int, k as int),
{
    let u = if val < 0 {
        val + 0x1_0000_0000
    } else {
        val
    };
    let p: i128 = if k == 0 {
        1
    } else if k == 1 {
        256
    } else if k == 2 {
        65536
    } else {
        16777216
    };
    ((u / p) % 256) as u8
}

impl PILImage {
    /// The rounded weighted sum of the integer samples of one window.
    fn int_sum(&self, e: &CoeffEntry, horizontal: bool, x: usize, y: usize) -> (r: i128)
        requires
            self.wf(),
            mode_type(self@.mode) == PILType::Int32,
            1 <= e.view().1.len(),
            e.view().0 >= 0,
            e.view().0 + e.view().1.len() <= (if horizontal { self@.width as int } else { self@.height as int }),
            forall|t: int| 0 <= t < e.view().1.len() ==> -WEIGHT_LIMIT <= #[trigger] e.view().1[t] <= WEIGHT_LIMIT,
            horizontal ==> y < self@.height,
            !horizontal ==> x < self@.width,
        ensures
            r == round_i32(int_pass_sum(self@, e.view(), horizontal, x as int, y as int, e.view().1.len() as int)),
            -0x8000_0000 <= r < 0x8000_0000,
    {
        let ghost v = self@;
        let ghost ev = e.view();
        let n = e.weights.len();
        let start = e.start;
        let w = self.width() as usize;
        let h = self.height() as usize;
        let ps = self.mode().pixel_size();
        assert(ps == 4);
        let mut acc: i128 = 0;
        let mut t: usize = 0;
        while t < n
            invariant
                self.wf(),
                v == self@,
                ev == e.view(),
                w == v.width,
                h == v.height,
                ps == v.pixel_size(),
                ps == 4,
                horizontal ==> y < h,
                !horizontal ==> x < w,
                start == ev.0,
                n == ev.1.len(),
                start + n <= (if horizontal { w as int } else { h as int }),
                forall|t: int| 0 <= t < n ==> -WEIGHT_LIMIT <= #[trigger] ev.1[t] <= WEIGHT_LIMIT,
                t <= n,
                acc == int_pass_sum(v, ev, horizontal, x as int, y as int, t as int),
                -(t * WEIGHT_LIMIT * 0x8000_0000) <= acc <= t * WEIGHT_LIMIT * 0x8000_0000,
            decreases n - t,
        {
            let s: i128 = if horizontal {
                proof {
                    lemma_pixel_offset(start + t, 0, w as int, 4);
                    lemma_pixel_offset(start + t, 3, w as int, 4);
                }
                read_i32(self.line(y), (start + t) * 4)
            } else {
                proof {
                    lemma_pixel_offset(x as int, 0, w as int, 4);
                    lemma_pixel_offset(x as int, 3, w as int, 4);
                }
                read_i32(self.line(start + t), x * 4)
            };
            assert(s == int_sample(v, start as int, horizontal, x as int, y as int, t as int));
            let wt = e.weights[t] as i128;
            assert(wt == ev.1[t as int]);
            proof {
                assert(-WEIGHT_LIMIT * 0x8000_0000 <= wt * s <= WEIGHT_LIMIT * 0x8000_0000) by (nonlinear_arith)
                    requires
                        -WEIGHT_LIMIT <= wt <= WEIGHT_LIMIT,
                        -0x8000_0000 <= s < 0x8000_0000,
                ;
                assert((t + 1) * WEIGHT_LIMIT * 0x8000_0000 == t * WEIGHT_LIMIT * 0x8000_0000 + WEIGHT_LIMIT * 0x8000_0000) by (nonlinear_arith);
                assert(t * WEIGHT_LIMIT * 0x8000_0000 <= (MAX_EXTENT as int) * WEIGHT_LIMIT * 0x8000_0000) by (nonlinear_arith)
                    requires
                        t <= MAX_EXTENT,
                ;
            }
            acc = acc + wt * s;
            t = t + 1;
        }
        proof {
            assert(n * WEIGHT_LIMIT * 0x8000_0000 <= (MAX_EXTENT as int) * WEIGHT_LIMIT * 0x8000_0000) by (nonlinear_arith)
                requires
                    n <= MAX_EXTENT,
            ;
        }
        let q = floor_div(acc + WEIGHT_ONE / 2, WEIGHT_ONE);
        if q < -0x8000_0000 {
            -0x8000_0000
        } else if q > 0x7fff_ffff {
            0x7fff_ffff
        } else {
            q
        }
    }

    /// The image resampled to `new_xdim` by `new_ydim` pixels with `filter`,
    /// reading the source region `crop`.
    pub fn resample_crop(&self, new_xdim: i32, new_ydim: i32, filter: PILFilter, crop: CropBox) -> (r: Result<Self, ImageError>)
        requires
            self.wf(),
        ensures
            r.is_err() <==> resample_error(self@, new_xdim as int, new_ydim as int, filter, crop).is_some(),
            r.is_err() ==> r == Err::<Self, ImageError>(resample_error(self@, new_xdim as int, new_ydim as int, filter, crop).unwrap()),
            r.is_ok() ==> r.unwrap().wf() && r.unwrap()@ == resampled(self@, new_xdim as int, new_ydim as int, filter, crop),
    {
        if new_xdim <= 0 || new_ydim <= 0 {
            return Err(ImageError::InvalidDimension);
        }
        let mode = self.mode();
        if mode == PILMode::F {
            return Err(ImageError::WrongMode);
        }
        let probe_out = PILImage::new(mode, new_xdim, new_ydim);
        let probe_mid = PILImage::new(mode, new_xdim, self.height());
        if probe_out.is_err() || probe_mid.is_err() {
            return Err(ImageError::Allocation);
        }
        if crop.denom == 0 {
            return Err(ImageError::DegenerateKernel);
        }
        let w = self.width() as usize;
        let h = self.height() as usize;
        let hc = match precompute_coeffs(filter, w, new_xdim as usize, crop.x0, crop.x1, crop.denom as u32) {
            Ok(c) => c,
            Err(e) => {
                return Err(e);
            },
        };
        let vc = match precompute_coeffs(filter, h, new_ydim as usize, crop.y0, crop.y1, crop.denom as u32) {
            Ok(c) => c,
            Err(e) => {
                return Err(e);
            },
        };
        let mid = self.pass(&hc, true);
        Ok(mid.pass(&vc, false))
    }

    /// The image resampled to `new_xdim` by `new_ydim` pixels with `filter`,
    /// reading the source region `[0, 0, new_xdim, new_ydim]`: the
    /// destination's own extent, which is the whole source when the sizes agree.
    pub fn resample(&self, new_xdim: i32, new_ydim: i32, filter: PILFilter) -> (r: Result<Self, ImageError>)
        requires
            self.wf(),
        ensures
            r.is_err() <==> resample_error(self@, new_xdim as int, new_ydim as int, filter, dest_box(new_xdim as int, new_ydim as int)).is_some(),
            r.is_err() ==> r == Err::<Self, ImageError>(resample_error(self@, new_xdim as int, new_ydim as int, filter, dest_box(new_xdim as int, new_ydim as int)).unwrap()),
            r.is_ok() ==> r.unwrap().wf() && r.unwrap()@ == resampled(self@, new_xdim as int, new_ydim as int, filter, dest_box(new_xdim as int, new_ydim as int)),
    {
        let crop = CropBox { x0: 0, y0: 0, x1: new_xdim, y1: new_ydim, denom: 1 };
        self.resample_crop(new_xdim, new_ydim, filter, crop)
    }

    /// One resampling pass: horizontal passes make `cs.len()` columns,
    /// vertical ones `cs.len()` rows.
    fn pass(&self, cs: &Vec<CoeffEntry>, horizontal: bool) -> (out: PILImage)
        requires
            self.wf(),
            coeffs_fit(entries_view(cs@), if horizontal { self@.width as int } else { self@.height as int }),
            size_allowed(
                self@.mode,
                if horizontal { cs@.len() as int } else { self@.width as int },
                if horizontal { self@.height as int } else { cs@.len() as int },
            ),
        ensures
            out.wf(),
            out@ == passed(self@, entries_view(cs@), horizontal),
    {
        let ghost v = self@;
        let ghost ecs = entries_view(cs@);
        let ghost target = passed(v, ecs, horizontal);
        let w = self.width() as usize;
        let h = self.height() as usize;
        let mode = self.mode();
        let ps = mode.pixel_size();
        let ch = mode.channels();
        let int_mode = mode.pixel_type() == PILType::Int32;
        let w2 = if horizontal {
            cs.len()
        } else {
            w
        };
        let h2 = if horizontal {
            h
        } else {
            cs.len()
        };
        proof {
            lemma_grid_wf(mode, w2 as nat, h2 as nat, |x: int, y: int, k: int| pass_px(v, ecs, horizontal, x, y, k));
            crate::format::lemma_mode_layout(mode);
        }
        let mut lines: Vec<Vec<u8>> = Vec::new();
        let mut y: usize = 0;
        while y < h2
            invariant
                self.wf(),
                v == self@,
                ecs == entries_view(cs@),
                target == passed(v, ecs, horizontal),
                target.wf(),
                coeffs_fit(ecs, if horizontal { v.width as int } else { v.height as int }),
                w == v.width,
                h == v.height,
                w2 == target.width,
                h2 == target.height,
                w2 == (if horizontal { cs@.len() } else { w as nat }),
                h2 == (if horizontal { h as nat } else { cs@.len() }),
                mode == v.mode,
                ps == v.pixel_size(),
                ch == v.channels(),
                int_mode == (mode_type(v.mode) == PILType::Int32),
                int_mode ==> ps == 4,
                1 <= ch <= ps <= 4,
                y <= h2,
                lines.len() == y,
                forall|yy: int| 0 <= yy < y ==> #[trigger] lines@[yy]@ == target.lines[yy],
            decreases h2 - y,
        {
            let mut line: Vec<u8> = Vec::new();
            let mut x: usize = 0;
            while x < w2
                invariant
                    self.wf(),
                    v == self@,
                    ecs == entries_view(cs@),
                    target == passed(v, ecs, horizontal),
                    target.wf(),
                    coeffs_fit(ecs, if horizontal { v.width as int } else { v.height as int }),
                    w == v.width,
                    h == v.height,
                    w2 == target.width,
                    h2 == target.height,
                    w2 == (if horizontal { cs@.len() } else { w as nat }),
                    h2 == (if horizontal { h as nat } else { cs@.len() }),
                    ps == v.pixel_size(),
                    ch == v.channels(),
                    int_mode == (mode_type(v.mode) == PILType::Int32),
                    int_mode ==> ps == 4,
                    1 <= ch <= ps <= 4,
                    y < h2,
                    x <= w2,
                    line@.len() == x * ps,
                    forall|i: int| 0 <= i < line@.len() ==> #[trigger] line@[i] == target.lines[y as int][i],
                decreases w2 - x,
            {
                let e: &CoeffEntry = if horizontal {
                    &cs[x]
                } else {
                    &cs[y]
                };
                let ghost ev = e.view();
                assert(ev == (if horizontal { ecs[x as int] } else { ecs[y as int] }));
                proof {
                    if horizontal {
                        assert(0 <= ecs[x as int].0);
                    } else {
                        assert(0 <= ecs[y as int].0);
                    }
                }
                let start = e.start;
                let n = e.weights.len();
                let ival: i128 = if int_mode {
                    self.int_sum(e, horizontal, x, y)
                } else {
                    0
                };
                let mut k: usize = 0;
                while k < ps
                    invariant
                        self.wf(),
                        v == self@,
                        target == passed(v, ecs, horizontal),
                        target.wf(),
                        w == v.width,
                        h == v.height,
                        w2 == target.width,
                        ps == v.pixel_size(),
                        ps == target.pixel_size(),
                        ch == v.channels(),
                        int_mode == (mode_type(v.mode) == PILType::Int32),
                        int_mode ==> ps == 4,
                        int_mode ==> ival == round_i32(int_pass_sum(v, ev, horizontal, x as int, y as int, n as int)),
                        int_mode ==> -0x8000_0000 <= ival < 0x8000_0000,
                        1 <= ch <= ps <= 4,
                        y < h2,
                        x < w2,
                        h2 == target.height,
                        ev == e.view(),
                        ev == (if horizontal { ecs[x as int] } else { ecs[y as int] }),
                        start == ev.0,
                        n == ev.1.len(),
                        1 <= n,
                        start + n <= (if horizontal { w as int } else { h as int }),
                        forall|t: int| 0 <= t < n ==> -WEIGHT_LIMIT <= #[trigger] ev.1[t] <= WEIGHT_LIMIT,
                        k <= ps,
                        line@.len() == x * ps + k,
                        forall|i: int| 0 <= i < line@.len() ==> #[trigger] line@[i] == target.lines[y as int][i],
                    decreases ps - k,
                {
                    proof {
                        lemma_pixel_offset(x as int, k as int, w2 as int, ps as int);
                        lemma_grid_px(v.mode, w2 as nat, h2 as nat, |x: int, y: int, k: int| pass_px(v, ecs, horizontal, x, y, k), x as int, y as int, k as int);
                    }
                    if int_mode {
                        line.push(le_byte_exec(ival, k));
                    } else if k < ch {
                        let mut acc: i128 = 0;
                        let mut t: usize = 0;
                        while t < n
                            invariant
                                self.wf(),
                                v == self@,
                                w == v.width,
                                h == v.height,
                                ps == v.pixel_size(),
                                1 <= ch <= ps <= 4,
                                k < ch,
                                y < (if horizontal { h as int } else { h2 as int }),
                                x < (if horizontal { w2 as int } else { w as int }),
                                ev == e.view(),
                                start == ev.0,
                                n == ev.1.len(),
                                start + n <= (if horizontal { w as int } else { h as int }),
                                forall|t: int| 0 <= t < n ==> -WEIGHT_LIMIT <= #[trigger] ev.1[t] <= WEIGHT_LIMIT,
                                t <= n,
                                acc == pass_sum(v, ev, horizontal, x as int, y as int, k as int, t as int),
                                -(t * WEIGHT_LIMIT * 255) <= acc <= t * WEIGHT_LIMIT * 255,
                            decreases n - t,
                        {
                            let s: u8 = if horizontal {
                                proof {
                                    lemma_pixel_offset(start + t, k as int, w as int, ps as int);
                                }
                                self.line(y)[(start + t) * ps + k]
                            } else {
                                proof {
                                    lemma_pixel_offset(x as int, k as int, w as int, ps as int);
                                }
                                self.line(start + t)[x * ps + k]
                            };
                            assert(s as int == sample(v, start as int, horizontal, x as int, y as int, k as int, t as int));
                            let wt = e.weights[t] as i128;
                            assert(wt == ev.1[t as int]);
                            proof {
                                assert(-WEIGHT_LIMIT * 255 <= wt * (s as int) <= WEIGHT_LIMIT * 255) by (nonlinear_arith)
                                    requires
                                        -WEIGHT_LIMIT <= wt <= WEIGHT_LIMIT,
                                        0 <= s <= 255,
                                ;
                                assert((t + 1) * WEIGHT_LIMIT * 255 == t * WEIGHT_LIMIT * 255 + WEIGHT_LIMIT * 255) by (nonlinear_arith);
                                assert(t * WEIGHT_LIMIT * 255 <= (MAX_EXTENT as int) * WEIGHT_LIMIT * 255) by (nonlinear_arith)
                                    requires
                                        t <= MAX_EXTENT,
                                ;
                            }
                            acc = acc + wt * (s as i128);
                            t = t + 1;
                        }
                        proof {
                            assert(n * WEIGHT_LIMIT * 255 <= (MAX_EXTENT as int) * WEIGHT_LIMIT * 255) by (nonlinear_arith)
                                requires
                                    n <= MAX_EXTENT,
                            ;
                        }
                        line.push(round_fixed_exec(acc));
                    } else {
                        line.push(0u8);
                    }
                    k = k + 1;
                }
                proof {
                    assert((x + 1) * ps == x * ps + ps) by (nonlinear_arith);
                }
                x = x + 1;
            }
            proof {
                assert(line@ =~= target.lines[y as int]);
            }
            lines.push(line);
            y = y + 1;
        }
        proof {
            assert(lines@.map_values(|l: Vec<u8>| l@) =~= target.lines);
        }
        PILImage::from_parts(mode, w2, h2, lines)
    }
}

/// The bytes of every pixel past its meaningful channels are zero.
pub open spec fn padding_clear(v: ImageView) -> bool {
    forall|x: int, y: int, k: int|
        0 <= x < v.width && 0 <= y < v.height && v.channels() <= k < v.pixel_size() ==> #[trigger] v.px(x, y, k) == 0
}

/// Resampling to the image's own size over the whole image gives the image
/// back exactly, with every filter, for the integer format and for every
/// byte format whose padding bytes are zero (resampling clears them).
pub proof fn lemma_resample_identity(v: ImageView, f: PILFilter)
    requires
        v.wf(),
        resamplable(v.mode),
        mode_type(v.mode) == PILType::Uint8 ==> padding_clear(v),
    ensures
        resample_error(v, v.width as int, v.height as int, f, dest_box(v.width as int, v.height as int)) is None,
        resampled(v, v.width as int, v.height as int, f, dest_box(v.width as int, v.height as int)) == v,
{
    let w = v.width as int;
    let h = v.height as int;
    let c = dest_box(v.width as int, v.height as int);
    assert(size_allowed(v.mode, w, h));
    assert forall|i: int| 0 <= i < w implies !#[trigger] entry_degenerate(f, w, w, 0, w, 1, i) by {
        lemma_identity_entry(f, w, i);
    }
    assert forall|i: int| 0 <= i < h implies !#[trigger] entry_degenerate(f, h, h, 0, h, 1, i) by {
        lemma_identity_entry(f, h, i);
    }
    assert(axis_ok(f, w, w, 0, w, 1));
    assert(axis_ok(f, h, h, 0, h, 1));
    let hc = h_coeffs(v, w, f, c);
    let vc = v_coeffs(v, h, f, c);
    assert(hc == axis_coeffs(f, w, w, 0, w, 1));
    assert(vc == axis_coeffs(f, h, h, 0, h, 1));
    let mid = passed(v, hc, true);
    lemma_grid_wf(v.mode, w as nat, h as nat, |x: int, y: int, k: int| pass_px(v, hc, true, x, y, k));
    assert forall|x: int, y: int, k: int| 0 <= x < w && 0 <= y < h && 0 <= k < v.pixel_size() implies #[trigger] mid.px(x, y, k) == v.px(x, y, k) by {
        lemma_grid_px(v.mode, w as nat, h as nat, |x: int, y: int, k: int| pass_px(v, hc, true, x, y, k), x, y, k);
        let e = hc[x];
        lemma_identity_entry(f, w, x);
        if mode_type(v.mode) == PILType::Int32 {
            lemma_int_pass_sum_single(v, e, true, x, y, e.1.len() as int, x - e.0);
            lemma_int_round_trip(v, x, y, k);
        } else if k < v.channels() {
            lemma_pass_sum_single(v, e, true, x, y, k, e.1.len() as int, x - e.0);
            lemma_round_whole(v.px(x, y, k) as int);
        }
    }
    lemma_view_ext(mid, v);
    let fin = passed(mid, vc, false);
    lemma_grid_wf(v.mode, w as nat, h as nat, |x: int, y: int, k: int| pass_px(mid, vc, false, x, y, k));
    assert forall|x: int, y: int, k: int| 0 <= x < w && 0 <= y < h && 0 <= k < v.pixel_size() implies #[trigger] fin.px(x, y, k) == v.px(x, y, k) by {
        lemma_grid_px(v.mode, w as nat, h as nat, |x: int, y: int, k: int| pass_px(mid, vc, false, x, y, k), x, y, k);
        let e = vc[y];
        lemma_identity_entry(f, h, y);
        if mode_type(v.mode) == PILType::Int32 {
            lemma_int_pass_sum_single(mid, e, false, x, y, e.1.len() as int, y - e.0);
            lemma_int_round_trip(v, x, y, k);
        } else if k < v.channels() {
            lemma_pass_sum_single(mid, e, false, x, y, k, e.1.len() as int, y - e.0);
            lemma_round_whole(v.px(x, y, k) as int);
        }
    }
    lemma_view_ext(fin, v);
}

/// A window whose weights are zero but for the full weight at `at` sums to
/// that sample at full weight.
proof fn lemma_pass_sum_single(v: ImageView, e: (int, Seq<int>), horizontal: bool, x: int, y: int, k: int, m: int, at: int)
    requires
        0 <= at < e.1.len(),
        0 <= m <= e.1.len(),
        forall|t: int| 0 <= t < e.1.len() ==> #[trigger] e.1[t] == if t == at { WEIGHT_ONE as int } else { 0 },
    ensures
        pass_sum(v, e, horizontal, x, y, k, m) == if m > at { WEIGHT_ONE * sample(v, e.0, horizontal, x, y, k, at) } else { 0 },
    decreases m,
{
    if m > 0 {
        lemma_pass_sum_single(v, e, horizontal, x, y, k, m - 1, at);
        assert(e.1[m - 1] == if m - 1 == at { WEIGHT_ONE as int } else { 0 });
    }
}

/// The integer form of `lemma_pass_sum_single`.
proof fn lemma_int_pass_sum_single(v: ImageView, e: (int, Seq<int>), horizontal: bool, x: int, y: int, m: int, at: int)
    requires
        0 <= at < e.1.len(),
        0 <= m <= e.1.len(),
        forall|t: int| 0 <= t < e.1.len() ==> #[trigger] e.1[t] == if t == at { WEIGHT_ONE as int } else { 0 },
    ensures
        int_pass_sum(v, e, horizontal, x, y, m) == if m > at { WEIGHT_ONE * int_sample(v, e.0, horizontal, x, y, at) } else { 0 },
    decreases m,
{
    if m > 0 {
        lemma_int_pass_sum_single(v, e, horizontal, x, y, m - 1, at);
        assert(e.1[m - 1] == if m - 1 == at { WEIGHT_ONE as int } else { 0 });
    }
}

/// An integer pixel at full weight rounds back to itself, and its bytes
/// come back from its value.
proof fn lemma_int_round_trip(v: ImageView, x: int, y: int, k: int)
    requires
        0 <= k < 4,
    ensures
        round_i32(WEIGHT_ONE * int_px(v, x, y)) == int_px(v, x, y),
        le_byte(int_px(v, x, y), k) == v.px(x, y, k),
{
    let (b0, b1, b2, b3) = (v.px(x, y, 0) as int, v.px(x, y, 1) as int, v.px(x, y, 2) as int, v.px(x, y, 3) as int);
    let u = b0 + 256 * b1 + 65536 * b2 + 16777216 * b3;
    let val = int_px(v, x, y);
    assert(0 <= u < 0x1_0000_0000);
    assert(-0x8000_0000 <= val < 0x8000_0000);
    lemma_fundamental_div_mod_converse_div(WEIGHT_ONE * val + WEIGHT_ONE / 2, WEIGHT_ONE as int, val, WEIGHT_ONE / 2);
    let back = if val < 0 { val + 0x1_0000_0000 } else { val };
    assert(back == u);
    if k == 0 {
        lemma_fundamental_div_mod_converse_div(u, 1, u, 0);
        lemma_fundamental_div_mod_converse_mod(u, 256, b1 + 256 * b2 + 65536 * b3, b0);
    } else if k == 1 {
        lemma_fundamental_div_mod_converse_div(u, 256, b1 + 256 * b2 + 65536 * b3, b0);
        lemma_fundamental_div_mod_converse_mod(b1 + 256 * b2 + 65536 * b3, 256, b2 + 256 * b3, b1);
    } else if k == 2 {
        lemma_fundamental_div_mod_converse_div(u, 65536, b2 + 256 * b3, b0 + 256 * b1);
        lemma_fundamental_div_mod_converse_mod(b2 + 256 * b3, 256, b3, b2);
    } else {
        lemma_fundamental_div_mod_converse_div(u, 16777216, b3, b0 + 256 * b1 + 65536 * b2);
        lemma_fundamental_div_mod_converse_mod(b3, 256, 0, b3);
    }
}

/// A byte times the full weight rounds back to the byte.
proof fn lemma_round_whole(p: int)
    requires
        0 <= p <= 255,
    ensures
        round_fixed(WEIGHT_ONE * p) == p,
{
    lemma_fundamental_div_mod_converse_div(WEIGHT_ONE * p + WEIGHT_ONE / 2, WEIGHT_ONE as int, p, WEIGHT_ONE / 2);
}

/// Where every sample of a window is `c`, the weighted sum is `c` times the
/// sum of the weights.
proof fn lemma_pass_sum_const(v: ImageView, e: (int, Seq<int>), horizontal: bool, x: int, y: int, k: int, n: int, c: int)
    requires
        0 <= n <= e.1.len(),
        forall|t: int| 0 <= t < n ==> #[trigger] sample(v, e.0, horizontal, x, y, k, t) == c,
    ensures
        pass_sum(v, e, horizontal, x, y, k, n) == c * seq_sum(e.1.take(n)),
    decreases n,
{
    if n == 0 {
        assert(e.1.take(0) =~= Seq::<int>::empty());
    } else {
        lemma_pass_sum_const(v, e, horizontal, x, y, k, n - 1, c);
        lemma_sum_push(e.1, n - 1);
        assert(sample(v, e.0, horizontal, x, y, k, n - 1) == c);
        assert(c * (seq_sum(e.1.take(n - 1)) + e.1[n - 1]) == c * seq_sum(e.1.take(n - 1)) + e.1[n - 1] * c) by (nonlinear_arith);
    }
}

/// One pass over a byte image whose meaningful channels all hold `c`
/// keeps them at `c`.
proof fn lemma_pass_const(v: ImageView, cs: Seq<(int, Seq<int>)>, horizontal: bool, f: PILFilter, in_size: int, out: int, lo: int, hi: int, q: int, c: u8)
    requires
        v.wf(),
        mode_type(v.mode) == PILType::Uint8,
        axis_args(in_size, out, lo, hi, q),
        axis_ok(f, in_size, out, lo, hi, q),
        cs == axis_coeffs(f, in_size, out, lo, hi, q),
        in_size == (if horizontal { v.width as int } else { v.height as int }),
        size_allowed(v.mode, if horizontal { out } else { v.width as int }, if horizontal { v.height as int } else { out }),
        forall|x: int, y: int, k: int| 0 <= x < v.width && 0 <= y < v.height && 0 <= k < v.channels() ==> #[trigger] v.px(x, y, k) == c,
    ensures
        passed(v, cs, horizontal).wf(),
        forall|x: int, y: int, k: int|
            0 <= x < passed(v, cs, horizontal).width && 0 <= y < passed(v, cs, horizontal).height && 0 <= k < v.channels()
                ==> #[trigger] passed(v, cs, horizontal).px(x, y, k) == c,
{
    let w2 = if horizontal { out as nat } else { v.width };
    let h2 = if horizontal { v.height } else { out as nat };
    crate::format::lemma_mode_layout(v.mode);
    lemma_grid_wf(v.mode, w2, h2, |x: int, y: int, k: int| pass_px(v, cs, horizontal, x, y, k));
    assert forall|x: int, y: int, k: int|
        0 <= x < passed(v, cs, horizontal).width && 0 <= y < passed(v, cs, horizontal).height && 0 <= k < v.channels()
            implies #[trigger] passed(v, cs, horizontal).px(x, y, k) == c by {
        lemma_grid_px(v.mode, w2, h2, |x: int, y: int, k: int| pass_px(v, cs, horizontal, x, y, k), x, y, k);
        let i = if horizontal { x } else { y };
        let e = cs[i];
        lemma_entry_fits(f, in_size, out, lo, hi, q, i);
        assert forall|t: int| 0 <= t < e.1.len() implies #[trigger] sample(v, e.0, horizontal, x, y, k, t) == c as int by {}
        lemma_pass_sum_const(v, e, horizontal, x, y, k, e.1.len() as int, c as int);
        assert(e.1.take(e.1.len() as int) =~= e.1);
        assert(c as int * WEIGHT_ONE == WEIGHT_ONE * c as int) by (nonlinear_arith);
        lemma_round_whole(c as int);
    }
}

/// Resampling a byte image whose meaningful channels all hold `c` gives an
/// image whose meaningful channels all hold `c`, for every filter, size and
/// crop rectangle that resampling accepts: the weights of each destination
/// sample sum to one.
pub proof fn lemma_constant_stays_constant(v: ImageView, w: int, h: int, f: PILFilter, crop: CropBox, c: u8)
    requires
        v.wf(),
        mode_type(v.mode) == PILType::Uint8,
        resample_error(v, w, h, f, crop) is None,
        forall|x: int, y: int, k: int| 0 <= x < v.width && 0 <= y < v.height && 0 <= k < v.channels() ==> #[trigger] v.px(x, y, k) == c,
    ensures
        forall|x: int, y: int, k: int|
            0 <= x < w && 0 <= y < h && 0 <= k < v.channels() ==> #[trigger] resampled(v, w, h, f, crop).px(x, y, k) == c,
{
    let hc = h_coeffs(v, w, f, crop);
    let vc = v_coeffs(v, h, f, crop);
    lemma_pass_const(v, hc, true, f, v.width as int, w, crop.x0 as int, crop.x1 as int, crop.denom as int, c);
    let mid = passed(v, hc, true);
    assert(mid.mode == v.mode && mid.height == v.height && mid.width == w);
    lemma_pass_const(mid, vc, false, f, v.height as int, h, crop.y0 as int, crop.y1 as int, crop.denom as int, c);
}

} // verus!
