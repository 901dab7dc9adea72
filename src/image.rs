//! The image buffer: a grid of pixels held as one owned byte vector per
//! scanline, and its export to flat byte sequences.

use vstd::prelude::*;
use crate::format::{mode_channels, mode_pixel_size, mode_type, ImageError, PILMode, PILType};

verus! {

/// The mathematical value of an image: its format, its size and the bytes of
/// each scanline.
pub struct ImageView {
    pub mode: PILMode,
    pub width: nat,
    pub height: nat,
    pub lines: Seq<Seq<u8>>,
}

/// Largest number of bytes a scanline may hold, and of scanlines an image may
/// have: both must be counted by an `i32`.
pub const MAX_EXTENT: usize = 0x7fff_ffff;

impl ImageView {
    pub open spec fn pixel_size(self) -> nat {
        mode_pixel_size(self.mode)
    }

    pub open spec fn channels(self) -> nat {
        mode_channels(self.mode)
    }

    pub open spec fn line_size(self) -> nat {
        self.width * self.pixel_size()
    }

    /// The buffer's invariant: a positive size whose bytes fit the machine,
    /// one scanline per row, each exactly `line_size` bytes long.
    pub open spec fn wf(self) -> bool {
        &&& 0 < self.width
        &&& 0 < self.height
        &&& self.width <= self.line_size() <= MAX_EXTENT
        &&& self.height <= self.height * self.pixel_size() <= MAX_EXTENT
        &&& self.line_size() * self.height <= usize::MAX
        &&& self.lines.len() == self.height
        &&& forall|y: int| 0 <= y < self.height ==> #[trigger] self.lines[y].len() == self.line_size()
    }

    /// Byte `k` of the pixel in column `x` of row `y`.
    pub open spec fn px(self, x: int, y: int, k: int) -> u8 {
        self.lines[y][x * self.pixel_size() + k]
    }

    /// Same format and size as `other`.
    pub open spec fn same_shape(self, other: ImageView) -> bool {
        self.mode == other.mode && self.width == other.width && self.height == other.height
    }

    /// Number of bytes in a packed export: the meaningful channels of every pixel.
    pub open spec fn packed_len(self) -> nat {
        self.channels() * self.width * self.height
    }
}

/// Where byte `k` of pixel `(x, y)` lands in a pixel-major export.
pub open spec fn pixel_major_index(v: ImageView, x: int, y: int, k: int) -> int {
    (y * v.width + x) * v.channels() + k
}

/// Where byte `k` of pixel `(x, y)` lands in a plane-major export.
pub open spec fn plane_major_index(v: ImageView, x: int, y: int, k: int) -> int {
    (k * v.height + y) * v.width + x
}

/// Where byte `k` of pixel `(x, y)` lands in an export of either order.
pub open spec fn export_index(v: ImageView, planar: bool, x: int, y: int, k: int) -> int {
    if planar {
        plane_major_index(v, x, y, k)
    } else {
        pixel_major_index(v, x, y, k)
    }
}

/// `buf` holds, at each pixel's export position, the image's byte there, and
/// past the export the bytes of `before`.
pub open spec fn exported(v: ImageView, planar: bool, before: Seq<u8>, buf: Seq<u8>) -> bool {
    &&& buf.len() == before.len()
    &&& forall|x: int, y: int, k: int|
        0 <= x < v.width && 0 <= y < v.height && 0 <= k < v.channels()
            ==> buf[#[trigger] export_index(v, planar, x, y, k)] == v.px(x, y, k)
    &&& forall|i: int| v.packed_len() <= i < buf.len() ==> #[trigger] buf[i] == before[i]
}

/// A zero-filled image of the given format and size.
pub open spec fn blank(mode: PILMode, width: nat, height: nat) -> ImageView {
    ImageView {
        mode,
        width,
        height,
        lines: Seq::new(height, |y: int| Seq::new(width * mode_pixel_size(mode), |i: int| 0u8)),
    }
}

/// Whether a buffer of this format and size can be made.
pub open spec fn size_allowed(mode: PILMode, width: int, height: int) -> bool {
    &&& 0 < width
    &&& 0 < height
    &&& width * mode_pixel_size(mode) <= MAX_EXTENT
    &&& height * mode_pixel_size(mode) <= MAX_EXTENT
    &&& width * mode_pixel_size(mode) * height <= usize::MAX
}

/// An image buffer that owns one byte vector per scanline.
pub struct PILImage {
    mode: PILMode,
    width: usize,
    height: usize,
    lines: Vec<Vec<u8>>,
}

impl View for PILImage {
    type V = ImageView;

    closed spec fn view(&self) -> ImageView {
        ImageView {
            mode: self.mode,
            width: self.width as nat,
            height: self.height as nat,
            lines: self.lines@.map_values(|l: Vec<u8>| l@),
        }
    }
}

/// Two mixed-radix digit strings with digits in range name the same number
/// only when they are equal.
pub proof fn lemma_radix_unique(p_a: int, d_a: int, p_b: int, d_b: int, n: int)
    requires
        0 <= p_a,
        0 <= p_b,
        0 <= d_a < n,
        0 <= d_b < n,
        p_a * n + d_a == p_b * n + d_b,
    ensures
        p_a == p_b,
        d_a == d_b,
{
    if p_a < p_b {
        assert(p_a * n + n <= p_b * n) by (nonlinear_arith)
            requires
                p_a < p_b,
                0 < n,
        ;
    } else if p_b < p_a {
        assert(p_b * n + n <= p_a * n) by (nonlinear_arith)
            requires
                p_b < p_a,
                0 < n,
        ;
    }
}

/// A three-digit mixed-radix number is below the product of the radices.
pub proof fn lemma_radix_bound(a: int, b: int, c: int, na: int, nb: int, nc: int)
    requires
        0 <= a < na,
        0 <= b < nb,
        0 <= c < nc,
    ensures
        0 <= (a * nb + b) * nc + c < na * nb * nc,
        (a * nb + b) * nc + c < (a * nb + b + 1) * nc,
{
    assert(0 <= a * nb) by (nonlinear_arith)
        requires
            0 <= a,
            0 <= b < nb,
    ;
    assert(a * nb + b + 1 <= na * nb) by (nonlinear_arith)
        requires
            0 <= a < na,
            0 <= b < nb,
    ;
    assert((a * nb + b + 1) * nc <= (na * nb) * nc) by (nonlinear_arith)
        requires
            a * nb + b + 1 <= na * nb,
            0 < nc,
    ;
    assert(0 <= (a * nb + b) * nc) by (nonlinear_arith)
        requires
            0 <= a * nb + b,
            0 < nc,
    ;
    assert((a * nb + b + 1) * nc == (a * nb + b) * nc + nc) by (nonlinear_arith);
    assert(na * nb * nc == (na * nb) * nc) by (nonlinear_arith);
}

/// Distinct in-range digit triples give distinct mixed-radix numbers.
pub proof fn lemma_radix3_unique(
    a: int,
    b: int,
    c: int,
    a2: int,
    b2: int,
    c2: int,
    nb: int,
    nc: int,
)
    requires
        0 <= a,
        0 <= a2,
        0 <= b < nb,
        0 <= b2 < nb,
        0 <= c < nc,
        0 <= c2 < nc,
        (a * nb + b) * nc + c == (a2 * nb + b2) * nc + c2,
    ensures
        a == a2 && b == b2 && c == c2,
{
    assert(0 <= a * nb && 0 <= a2 * nb) by (nonlinear_arith)
        requires
            0 <= a,
            0 <= a2,
            0 < nb,
    ;
    lemma_radix_unique(a * nb + b, c, a2 * nb + b2, c2, nc);
    lemma_radix_unique(a, b, a2, b2, nb);
}

/// Byte offset of channel `k` of pixel `x` is inside its scanline.
pub proof fn lemma_pixel_offset(x: int, k: int, w: int, ps: int)
    requires
        0 <= x < w,
        0 <= k < ps,
    ensures
        0 <= x * ps + k < w * ps,
{
    assert(0 <= x * ps && x * ps + ps <= w * ps) by (nonlinear_arith)
        requires
            0 <= x < w,
            0 < ps,
    ;
}

/// The width, height and scanline size of a buffer of this format and size,
/// where one can be made.
fn checked_size(mode: PILMode, xdim: i32, ydim: i32) -> (r: Option<(usize, usize, usize)>)
    ensures
        r.is_some() <==> size_allowed(mode, xdim as int, ydim as int),
        r.is_some() ==> r.unwrap().0 == xdim && r.unwrap().1 == ydim && r.unwrap().2 == xdim * mode_pixel_size(mode),
{
    if xdim <= 0 || ydim <= 0 {
        return None;
    }
    let ps = mode.pixel_size();
    let w = xdim as usize;
    let h = ydim as usize;
    if w > MAX_EXTENT / ps {
        assert(w * ps > MAX_EXTENT) by (nonlinear_arith)
            requires
                w > MAX_EXTENT / ps,
                ps > 0,
        ;
        return None;
    }
    assert(w * ps <= MAX_EXTENT) by (nonlinear_arith)
        requires
            w <= MAX_EXTENT / ps,
            ps > 0,
    ;
    let line_size = w * ps;
    if h > MAX_EXTENT / ps {
        assert(h * ps > MAX_EXTENT) by (nonlinear_arith)
            requires
                h > MAX_EXTENT / ps,
                ps > 0,
        ;
        return None;
    }
    assert(h * ps <= MAX_EXTENT) by (nonlinear_arith)
        requires
            h <= MAX_EXTENT / ps,
            ps > 0,
    ;
    if line_size > MAX_EXTENT || h > usize::MAX / line_size {
        assert(line_size > MAX_EXTENT || line_size * h > usize::MAX) by (nonlinear_arith)
            requires
                line_size > MAX_EXTENT || h > usize::MAX / line_size,
                line_size > 0,
        ;
        return None;
    }
    assert(line_size * h <= usize::MAX) by (nonlinear_arith)
        requires
            h <= usize::MAX / line_size,
            line_size > 0,
    ;
    Some((w, h, line_size))
}

/// A packed export of a valid image fits in memory.
pub proof fn lemma_packed_fits(v: ImageView)
    requires
        v.wf(),
    ensures
        1 <= v.channels() <= v.pixel_size() <= 4,
        v.packed_len() <= v.line_size() * v.height <= usize::MAX,
{
    crate::format::lemma_mode_layout(v.mode);
    assert(v.channels() * v.width * v.height <= v.line_size() * v.height) by (nonlinear_arith)
        requires
            v.channels() <= v.pixel_size(),
            v.line_size() == v.width * v.pixel_size(),
    ;
}

/// An image whose scanline `y` was rewritten in place, with its length kept
/// and every other scanline untouched, is still valid. A caller of
/// `raster_line_mut` that knows the slice kept its length gets `wf` back here.
pub proof fn lemma_line_write_keeps_wf(before: ImageView, after: ImageView, y: int)
    requires
        before.wf(),
        0 <= y < before.height,
        after.mode == before.mode,
        after.width == before.width,
        after.height == before.height,
        after.lines.len() == before.lines.len(),
        after.lines[y].len() == before.lines[y].len(),
        forall|i: int| 0 <= i < before.height && i != y ==> #[trigger] after.lines[i] == before.lines[i],
    ensures
        after.wf(),
{
    assert forall|i: int| 0 <= i < after.height implies #[trigger] after.lines[i].len() == after.line_size() by {
        if i != y {
            assert(after.lines[i] == before.lines[i]);
        }
    }
}

impl PILImage {
    pub open spec fn wf(&self) -> bool {
        self@.wf()
    }

    /// Scanline `y`, for the crate's own transforms.
    pub(crate) fn line(&self, y: usize) -> (r: &Vec<u8>)
        requires
            self.wf(),
            y < self@.height,
        ensures
            r@ == self@.lines[y as int],
    {
        &self.lines[y]
    }

    /// Makes an image from scanlines that already satisfy the invariant.
    pub(crate) fn from_parts(mode: PILMode, width: usize, height: usize, lines: Vec<Vec<u8>>) -> (r: Self)
        requires
            (ImageView { mode, width: width as nat, height: height as nat, lines: lines@.map_values(|l: Vec<u8>| l@) }).wf(),
        ensures
            r@ == (ImageView { mode, width: width as nat, height: height as nat, lines: lines@.map_values(|l: Vec<u8>| l@) }),
    {
        PILImage { mode, width, height, lines }
    }

    /// A zero-filled image of `xdim` by `ydim` pixels.
    pub fn new(mode: PILMode, xdim: i32, ydim: i32) -> (r: Result<Self, ImageError>)
        ensures
            r.is_ok() <==> size_allowed(mode, xdim as int, ydim as int),
            r.is_ok() ==> r.unwrap().wf() && r.unwrap()@ == blank(mode, xdim as nat, ydim as nat),
            r.is_err() ==> r == Err::<Self, ImageError>(ImageError::Allocation),
    {
        let (w, h, line_size) = match checked_size(mode, xdim, ydim) {
            Some(t) => t,
            None => {
                return Err(ImageError::Allocation);
            },
        };
        let ps = mode.pixel_size();
        let mut lines: Vec<Vec<u8>> = Vec::new();
        let ghost target = blank(mode, w as nat, h as nat);
        while lines.len() < h
            invariant
                lines.len() <= h,
                line_size == w * ps,
                ps == mode_pixel_size(mode),
                target == blank(mode, w as nat, h as nat),
                forall|y: int| 0 <= y < lines.len() ==> #[trigger] lines@[y]@ == target.lines[y],
            decreases h - lines.len(),
        {
            let line: Vec<u8> = vec![0u8; line_size];
            assert(line@ == target.lines[lines.len() as int]);
            lines.push(line);
        }
        let r = PILImage { mode, width: w, height: h, lines };
        assert(r@.lines =~= target.lines);
        Ok(r)
    }

    /// Makes an image from its scanlines, each `line_size_bytes` long.
    pub fn from_lines(mode: PILMode, xdim: i32, ydim: i32, lines: Vec<Vec<u8>>) -> (r: Result<Self, ImageError>)
        ensures
            !size_allowed(mode, xdim as int, ydim as int) ==> r == Err::<Self, ImageError>(ImageError::Allocation),
            size_allowed(mode, xdim as int, ydim as int) ==> (r.is_ok() <==> (lines.len() == ydim && forall|y: int| 0 <= y < lines.len() ==> #[trigger] lines@[y].len() == xdim * mode_pixel_size(mode))),
            r.is_ok() ==> r.unwrap().wf() && r.unwrap()@ == (ImageView { mode, width: xdim as nat, height: ydim as nat, lines: lines@.map_values(|l: Vec<u8>| l@) }),
            size_allowed(mode, xdim as int, ydim as int) && r.is_err() ==> r == Err::<Self, ImageError>(ImageError::Mismatch),
    {
        let (w, h, line_size) = match checked_size(mode, xdim, ydim) {
            Some(t) => t,
            None => {
                return Err(ImageError::Allocation);
            },
        };
        let ps = mode.pixel_size();
        if lines.len() != h {
            return Err(ImageError::Mismatch);
        }
        let mut y: usize = 0;
        while y < h
            invariant
                y <= h,
                lines.len() == h,
                line_size == w * ps,
                forall|yy: int| 0 <= yy < y ==> #[trigger] lines@[yy].len() == line_size,
                size_allowed(mode, xdim as int, ydim as int),
                w == xdim,
                h == ydim,
                ps == mode_pixel_size(mode),
            decreases h - y,
        {
            if lines[y].len() != line_size {
                return Err(ImageError::Mismatch);
            }
            y = y + 1;
        }
        assert(w <= line_size && h <= h * ps) by (nonlinear_arith)
            requires
                line_size == w * ps,
                ps >= 1,
        ;
        let r = PILImage { mode, width: w, height: h, lines };
        assert(forall|yy: int| 0 <= yy < h ==> #[trigger] r@.lines[yy] == lines@[yy]@);
        assert forall|yy: int| 0 <= yy < h implies #[trigger] r@.lines[yy].len() == line_size by {
            assert(lines@[yy].len() == line_size);
        }
        Ok(r)
    }

    pub fn mode(&self) -> (r: PILMode)
        ensures
            r == self@.mode,
    {
        self.mode
    }

    pub fn width(&self) -> (r: i32)
        requires
            self.wf(),
        ensures
            r == self@.width,
    {
        self.width as i32
    }

    pub fn height(&self) -> (r: i32)
        requires
            self.wf(),
        ensures
            r == self@.height,
    {
        self.height as i32
    }

    pub fn pixel_type(&self) -> (r: PILType)
        ensures
            r == mode_type(self@.mode),
    {
        self.mode.pixel_type()
    }

    pub fn pixel_channels(&self) -> (r: i32)
        ensures
            r == self@.channels(),
    {
        self.mode.channels() as i32
    }

    pub fn pixel_size_bytes(&self) -> (r: i32)
        ensures
            r == self@.pixel_size(),
    {
        self.mode.pixel_size() as i32
    }

    pub fn line_size_bytes(&self) -> (r: i32)
        requires
            self.wf(),
        ensures
            r == self@.line_size(),
    {
        (self.width * self.mode.pixel_size()) as i32
    }

    /// The bytes of scanline `y`.
    pub fn raster_line(&self, y: i32) -> (r: Result<&[u8], ImageError>)
        requires
            self.wf(),
        ensures
            0 <= y < self@.height <==> r.is_ok(),
            r.is_ok() ==> r.unwrap()@ == self@.lines[y as int],
            r.is_err() ==> r == Err::<&[u8], ImageError>(ImageError::Index),
    {
        if y < 0 || y as usize >= self.height {
            return Err(ImageError::Index);
        }
        Ok(self.lines[y as usize].as_slice())
    }

    /// Copies the meaningful channels of every pixel into `buf`, in
    /// pixel-major or plane-major order.
    fn dump_into(&self, buf: &mut [u8], planar: bool)
        requires
            self.wf(),
            old(buf)@.len() >= self@.packed_len(),
        ensures
            exported(self@, planar, old(buf)@, final(buf)@),
    {
        let ghost v = self@;
        let ghost before = buf@;
        let h = self.height;
        let w = self.width;
        let c = self.mode.channels();
        let ps = self.mode.pixel_size();
        proof {
            lemma_packed_fits(v);
        }
        let mut y: usize = 0;
        while y < h
            invariant
                self.wf(),
                v == self@,
                h == v.height,
                w == v.width,
                c == v.channels(),
                ps == v.pixel_size(),
                1 <= c <= ps,
                y <= h,
                buf@.len() == before.len(),
                before.len() >= v.packed_len(),
                v.packed_len() <= usize::MAX,
                forall|xx: int, yy: int, kk: int|
                    0 <= xx < w && 0 <= yy < y && 0 <= kk < c
                        ==> buf@[#[trigger] export_index(v, planar, xx, yy, kk)] == v.px(xx, yy, kk),
                forall|i: int| v.packed_len() <= i < buf@.len() ==> #[trigger] buf@[i] == before[i],
            decreases h - y,
        {
            let line: &Vec<u8> = &self.lines[y];
            assert(line@ == v.lines[y as int]);
            let mut x: usize = 0;
            while x < w
                invariant
                    self.wf(),
                    v == self@,
                    h == v.height,
                    w == v.width,
                    c == v.channels(),
                    ps == v.pixel_size(),
                    1 <= c <= ps,
                    y < h,
                    x <= w,
                    line@ == v.lines[y as int],
                    buf@.len() == before.len(),
                    before.len() >= v.packed_len(),
                    v.packed_len() <= usize::MAX,
                    forall|xx: int, yy: int, kk: int|
                        0 <= xx < w && 0 <= kk < c && (0 <= yy < y || (yy == y && 0 <= xx < x))
                            ==> buf@[#[trigger] export_index(v, planar, xx, yy, kk)] == v.px(xx, yy, kk),
                    forall|i: int| v.packed_len() <= i < buf@.len() ==> #[trigger] buf@[i] == before[i],
                decreases w - x,
            {
                let mut k: usize = 0;
                while k < c
                    invariant
                        self.wf(),
                        v == self@,
                        h == v.height,
                        w == v.width,
                        c == v.channels(),
                        ps == v.pixel_size(),
                        1 <= c <= ps,
                        y < h,
                        x < w,
                        k <= c,
                        line@ == v.lines[y as int],
                        buf@.len() == before.len(),
                        before.len() >= v.packed_len(),
                        v.packed_len() <= usize::MAX,
                        forall|xx: int, yy: int, kk: int|
                            0 <= xx < w && 0 <= kk < c && (0 <= yy < y || (yy == y && 0 <= xx < x) || (yy == y && xx == x && 0 <= kk < k))
                                ==> buf@[#[trigger] export_index(v, planar, xx, yy, kk)] == v.px(xx, yy, kk),
                        forall|i: int| v.packed_len() <= i < buf@.len() ==> #[trigger] buf@[i] == before[i],
                    decreases c - k,
                {
                    proof {
                        lemma_pixel_offset(x as int, k as int, w as int, ps as int);
                        if planar {
                            lemma_radix_bound(k as int, y as int, x as int, c as int, h as int, w as int);
                            assert(k * h <= k * h + y <= (k * h + y) * w) by (nonlinear_arith)
                                requires
                                    w >= 1,
                                    k * h >= 0,
                                    y >= 0,
                            ;
                            assert(c * h * w == v.packed_len()) by (nonlinear_arith)
                                requires
                                    c == v.channels(),
                                    h == v.height,
                                    w == v.width,
                            ;
                        } else {
                            lemma_radix_bound(y as int, x as int, k as int, h as int, w as int, c as int);
                            assert(0 <= y * w <= y * w + x <= (y * w + x) * c) by (nonlinear_arith)
                                requires
                                    c >= 1,
                                    y >= 0,
                                    x >= 0,
                                    w >= 0,
                            ;
                            assert(h * w * c == v.packed_len()) by (nonlinear_arith)
                                requires
                                    c == v.channels(),
                                    h == v.height,
                                    w == v.width,
                            ;
                        }
                    }
                    let idx: usize = if planar {
                        (k * h + y) * w + x
                    } else {
                        (y * w + x) * c + k
                    };
                    let ghost prev = buf@;
                    buf[idx] = line[x * ps + k];
                    proof {
                        assert forall|xx: int, yy: int, kk: int|
                            0 <= xx < w && 0 <= kk < c && (0 <= yy < y || (yy == y && 0 <= xx < x) || (yy == y && xx == x && 0 <= kk < k + 1))
                                implies buf@[#[trigger] export_index(v, planar, xx, yy, kk)] == v.px(xx, yy, kk) by {
                            if xx == x && yy == y && kk == k {
                            } else {
                                if planar {
                                    lemma_radix_bound(kk, yy, xx, c as int, h as int, w as int);
                                } else {
                                    lemma_radix_bound(yy, xx, kk, h as int, w as int, c as int);
                                }
                                if export_index(v, planar, xx, yy, kk) == idx {
                                    if planar {
                                        lemma_radix3_unique(kk, yy, xx, k as int, y as int, x as int, h as int, w as int);
                                    } else {
                                        lemma_radix3_unique(yy, xx, kk, y as int, x as int, k as int, w as int, c as int);
                                    }
                                }
                                assert(prev[export_index(v, planar, xx, yy, kk)] == v.px(xx, yy, kk));
                            }
                        }
                    }
                    k = k + 1;
                }
                x = x + 1;
            }
            y = y + 1;
        }
    }

    /// Writes the meaningful channels of every pixel into `buf`, pixel by
    /// pixel; bytes of `buf` past `pixel_channels * width * height` are kept.
    pub fn dump_pixels(&self, buf: &mut [u8])
        requires
            self.wf(),
            old(buf)@.len() >= self@.packed_len(),
        ensures
            exported(self@, false, old(buf)@, final(buf)@),
    {
        self.dump_into(buf, false);
    }

    /// Writes the meaningful channels of every pixel into `buf`, one channel
    /// plane after another; bytes of `buf` past the planes are kept.
    pub fn dump_planes(&self, buf: &mut [u8])
        requires
            self.wf(),
            old(buf)@.len() >= self@.packed_len(),
        ensures
            exported(self@, true, old(buf)@, final(buf)@),
    {
        self.dump_into(buf, true);
    }

    /// The meaningful channels of every pixel, pixel by pixel, in a new vector.
    pub fn to_vec(&self) -> (r: Vec<u8>)
        requires
            self.wf(),
        ensures
            r@.len() == self@.packed_len(),
            forall|x: int, y: int, k: int|
                0 <= x < self@.width && 0 <= y < self@.height && 0 <= k < self@.channels()
                    ==> r@[#[trigger] pixel_major_index(self@, x, y, k)] == self@.px(x, y, k),
    {
        proof {
            lemma_packed_fits(self@);
            let v = self@;
            assert(v.channels() * v.width <= v.channels() * v.width * v.height) by (nonlinear_arith)
                requires
                    v.height >= 1,
            ;
        }
        let n = self.mode.channels() * self.width * self.height;
        let mut flat: Vec<u8> = vec![0u8; n];
        self.dump_into(flat.as_mut_slice(), false);
        proof {
            assert forall|x: int, y: int, k: int|
                0 <= x < self@.width && 0 <= y < self@.height && 0 <= k < self@.channels()
                    implies flat@[#[trigger] pixel_major_index(self@, x, y, k)] == self@.px(x, y, k) by {
                assert(export_index(self@, false, x, y, k) == pixel_major_index(self@, x, y, k));
            }
        }
        flat
    }

    /// The bytes of scanline `y`, to be written in place.
    pub fn raster_line_mut(&mut self, y: i32) -> (r: Result<&mut [u8], ImageError>)
        requires
            old(self).wf(),
        ensures
            r.is_ok() <==> 0 <= y < old(self)@.height,
            r.is_err() ==> r == Err::<&mut [u8], ImageError>(ImageError::Index) && final(self)@ == old(self)@,
            r.is_ok() ==> {
                &&& r.unwrap()@ == old(self)@.lines[y as int]
                &&& final(self)@.mode == old(self)@.mode
                &&& final(self)@.width == old(self)@.width
                &&& final(self)@.height == old(self)@.height
                &&& final(self)@.lines.len() == old(self)@.lines.len()
                &&& final(self)@.lines[y as int] == final(r.unwrap())@
                &&& forall|i: int| 0 <= i < old(self)@.height && i != y ==> #[trigger] final(self)@.lines[i] == old(self)@.lines[i]
            },
    {
        if y < 0 || y as usize >= self.height {
            return Err(ImageError::Index);
        }
        Ok(self.lines[y as usize].as_mut_slice())
    }

    /// Sets the byte at `offset` of scanline `y`.
    pub fn set_byte(&mut self, y: i32, offset: usize, value: u8) -> (r: Result<(), ImageError>)
        requires
            old(self).wf(),
        ensures
            final(self).wf(),
            r.is_ok() <==> 0 <= y < old(self)@.height && offset < old(self)@.line_size(),
            r.is_ok() ==> final(self)@ == (ImageView { lines: old(self)@.lines.update(y as int, old(self)@.lines[y as int].update(offset as int, value)), ..old(self)@ }),
            r.is_err() ==> final(self)@ == old(self)@ && r == Err::<(), ImageError>(ImageError::Index),
    {
        if y < 0 || y as usize >= self.height {
            return Err(ImageError::Index);
        }
        let yy = y as usize;
        if offset >= self.lines[yy].len() {
            return Err(ImageError::Index);
        }
        let ghost before = self@;
        self.lines[yy].set(offset, value);
        assert(self@.lines =~= before.lines.update(y as int, before.lines[y as int].update(offset as int, value)));
        Ok(())
    }
}

} // verus!
