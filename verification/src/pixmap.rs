//! Images in memory.

use vstd::prelude::*;

use crate::overlay::Px;
use crate::geometry::lesser;

verus! {

/// What the bytes of a pixel mean.
#[derive(Clone, Copy, Debug, PartialEq, Eq, Structural)]
pub enum PixelKind {
    Rgb,
    Rgba,
}

impl PixelKind {
    /// Bytes per pixel.
    pub open spec fn bytes(self) -> int {
        match self {
            PixelKind::Rgb => 3,
            PixelKind::Rgba => 4,
        }
    }

    pub fn bytes_per_pixel(self) -> (n: u32)
        ensures
            n == self.bytes(),
    {
        match self {
            PixelKind::Rgb => 3,
            PixelKind::Rgba => 4,
        }
    }
}

/// The pixels of an image, row by row.
#[verifier::ext_equal]
pub struct Raster {
    pub kind: PixelKind,
    pub width: u32,
    pub height: u32,
    pub rows: Seq<Seq<Px>>,
}

impl Raster {
    /// The pixel in column `x` of row `y`.
    pub open spec fn at(self, x: int, y: int) -> Px {
        self.rows[y][x]
    }

    /// The image of this extent whose pixels are given by `f(x, y)`.
    pub open spec fn of(kind: PixelKind, width: u32, height: u32, f: spec_fn(int, int) -> Px) -> Raster {
        Raster {
            kind,
            width,
            height,
            rows: Seq::new(height as nat, |y: int| Seq::new(width as nat, |x: int| f(x, y))),
        }
    }

    /// The number of rows and columns matches the extent; images without
    /// transparency are opaque.
    pub open spec fn wf(self) -> bool {
        &&& self.rows.len() == self.height
        &&& forall|y: int| 0 <= y < self.height ==> (#[trigger] self.rows[y]).len() == self.width
        &&& self.kind == PixelKind::Rgb ==> forall|x: int, y: int|
            0 <= x < self.width && 0 <= y < self.height ==> (#[trigger] self.at(x, y)).a == 255
    }
}

/// Two images with the same extent and the same pixels are the same.
pub proof fn lemma_same_raster(a: Raster, b: Raster)
    requires
        a.wf(),
        b.wf(),
        a.kind == b.kind,
        a.width == b.width,
        a.height == b.height,
        forall|x: int, y: int|
            0 <= x < a.width && 0 <= y < a.height ==> #[trigger] a.at(x, y) == b.at(x, y),
    ensures
        a == b,
{
    assert forall|y: int| 0 <= y < a.height implies a.rows[y] == b.rows[y] by {
        assert forall|x: int| 0 <= x < a.width implies a.rows[y][x] == b.rows[y][x] by {
            assert(a.at(x, y) == b.at(x, y));
        }
        assert(a.rows[y] =~= b.rows[y]);
    }
    assert(a.rows =~= b.rows);
}

/// An image in memory: packed rows of pixels, without gaps.
pub struct PageImage {
    pub kind: PixelKind,
    pub width: u32,
    pub height: u32,
    pub data: Vec<u8>,
}

/// The `k`-th pixel of packed bytes.
pub open spec fn packed_px(kind: PixelKind, data: Seq<u8>, k: int) -> Px {
    match kind {
        PixelKind::Rgb => Px { r: data[3 * k], g: data[3 * k + 1], b: data[3 * k + 2], a: 255 },
        PixelKind::Rgba => Px {
            r: data[4 * k],
            g: data[4 * k + 1],
            b: data[4 * k + 2],
            a: data[4 * k + 3],
        },
    }
}

/// The pixels that packed bytes stand for.
pub open spec fn unpacked(kind: PixelKind, width: u32, height: u32, data: Seq<u8>) -> Raster {
    Raster::of(kind, width, height, |x: int, y: int| packed_px(kind, data, y * width + x))
}

impl View for PageImage {
    type V = Raster;

    open spec fn view(&self) -> Raster {
        unpacked(self.kind, self.width, self.height, self.data@)
    }
}

pub proof fn lemma_pixel_index(x: int, y: int, w: int, h: int)
    requires
        0 <= x < w,
        0 <= y < h,
    ensures
        0 <= y * w,
        0 <= y * w + x < w * h,
{
    assert(0 <= y * w && (y + 1) * w <= h * w) by (nonlinear_arith)
        requires
            0 <= y < h,
            0 < w,
    ;
    assert((y + 1) * w == y * w + w) by (nonlinear_arith);
    assert(h * w == w * h) by (nonlinear_arith);
}

pub proof fn lemma_pixel_index_injective(x: int, y: int, x2: int, y2: int, w: int)
    requires
        0 <= x < w,
        0 <= x2 < w,
        y * w + x == y2 * w + x2,
    ensures
        x == x2,
        y == y2,
{
    if y < y2 {
        assert((y2 - y) * w >= w) by (nonlinear_arith)
            requires
                y2 - y >= 1,
                w > 0,
        ;
        assert((y2 - y) * w == y2 * w - y * w) by (nonlinear_arith);
    } else if y > y2 {
        assert((y - y2) * w >= w) by (nonlinear_arith)
            requires
                y - y2 >= 1,
                w > 0,
        ;
        assert((y - y2) * w == y * w - y2 * w) by (nonlinear_arith);
    }
}

impl PageImage {
    /// The buffer holds exactly the pixels of the image.
    pub open spec fn wf(self) -> bool {
        self.data@.len() == self.width as int * self.height as int * self.kind.bytes()
    }

    pub proof fn lemma_view_wf(self)
        ensures
            self@.wf(),
    {
        assert forall|y: int| 0 <= y < self.height implies (#[trigger] self@.rows[y]).len()
            == self.width by {}
        if self.kind == PixelKind::Rgb {
            assert forall|x: int, y: int|
                0 <= x < self.width && 0 <= y < self.height implies (#[trigger] self@.at(x, y)).a
                == 255 by {}
        }
    }

    pub fn width(&self) -> (r: u32)
        ensures
            r == self@.width,
    {
        self.width
    }

    pub fn height(&self) -> (r: u32)
        ensures
            r == self@.height,
    {
        self.height
    }

    /// The position of a pixel's first byte.
    fn offset_of(&self, x: u32, y: u32) -> (p: usize)
        requires
            self.wf(),
            x < self.width,
            y < self.height,
        ensures
            p == (y as int * self.width as int + x) * self.kind.bytes(),
            p + self.kind.bytes() <= self.data.len(),
    {
        let ghost w = self.width as int;
        let ghost h = self.height as int;
        let ghost b = self.kind.bytes();
        let ghost k = y as int * w + x;
        proof {
            lemma_pixel_index(x as int, y as int, w, h);
            assert(k * b + b <= w * h * b) by (nonlinear_arith)
                requires
                    k + 1 <= w * h,
                    b == 3 || b == 4,
            ;
            assert(y as int * w <= k);
            assert(k <= k * b) by (nonlinear_arith)
                requires
                    0 <= k,
                    b == 3 || b == 4,
            ;
        }
        let n: usize = self.data.len();
        assert(k * b + b <= n);
        let row: usize = y as usize * self.width as usize;
        (row + x as usize) * self.kind.bytes_per_pixel() as usize
    }

    /// The pixel in column `x` of row `y`.
    pub fn get(&self, x: u32, y: u32) -> (p: Px)
        requires
            self.wf(),
            x < self.width,
            y < self.height,
        ensures
            p == self@.at(x as int, y as int),
    {
        let at: usize = self.offset_of(x, y);
        match self.kind {
            PixelKind::Rgb => Px {
                r: self.data[at],
                g: self.data[at + 1],
                b: self.data[at + 2],
                a: 255,
            },
            PixelKind::Rgba => Px {
                r: self.data[at],
                g: self.data[at + 1],
                b: self.data[at + 2],
                a: self.data[at + 3],
            },
        }
    }

    /// Replaces the pixel in column `x` of row `y`.
    pub fn put(&mut self, x: u32, y: u32, p: Px)
        requires
            old(self).wf(),
            x < old(self).width,
            y < old(self).height,
            old(self).kind == PixelKind::Rgb ==> p.a == 255,
        ensures
            final(self).wf(),
            final(self).kind == old(self).kind,
            final(self).width == old(self).width,
            final(self).height == old(self).height,
            final(self)@.at(x as int, y as int) == p,
            forall|x2: int, y2: int|
                0 <= x2 < old(self).width && 0 <= y2 < old(self).height && (x2 != x || y2 != y)
                    ==> #[trigger] final(self)@.at(x2, y2) == old(self)@.at(x2, y2),
    {
        let at: usize = self.offset_of(x, y);
        self.data[at] = p.r;
        self.data[at + 1] = p.g;
        self.data[at + 2] = p.b;
        if let PixelKind::Rgba = self.kind {
            self.data[at + 3] = p.a;
        }
        proof {
            let w = self.width as int;
            let k = y as int * w + x;
            assert forall|x2: int, y2: int|
                0 <= x2 < old(self).width && 0 <= y2 < old(self).height && (x2 != x || y2 != y)
                implies #[trigger] self@.at(x2, y2) == old(self)@.at(x2, y2) by {
                let k2 = y2 * w + x2;
                let h = self.height as int;
                lemma_pixel_index(x2, y2, w, h);
                if k2 == k {
                    lemma_pixel_index_injective(x as int, y as int, x2, y2, w);
                }
                assert(k2 * 3 + 3 <= w * h * 3 && k2 * 4 + 4 <= w * h * 4) by (nonlinear_arith)
                    requires
                        k2 + 1 <= w * h,
                ;
                assert(self@.at(x2, y2) == packed_px(self.kind, self.data@, k2));
                assert(old(self)@.at(x2, y2) == packed_px(self.kind, old(self).data@, k2));
            }
        }
    }
}

/// The pixel as an image of the given kind holds it.
pub open spec fn as_kind(kind: PixelKind, p: Px) -> Px {
    match kind {
        PixelKind::Rgb => Px { r: p.r, g: p.g, b: p.b, a: 255 },
        PixelKind::Rgba => p,
    }
}

/// An image of extent `w` by `h` whose upper left corner of extent `cw` by
/// `ch` shows `src` from `(ox, oy)` on; the rest is `bg`.
pub open spec fn recomposed(
    src: Raster,
    ox: int,
    oy: int,
    cw: int,
    ch: int,
    bg: Px,
    kind: PixelKind,
    w: u32,
    h: u32,
) -> Raster {
    Raster::of(
        kind,
        w,
        h,
        |x: int, y: int|
            as_kind(
                kind,
                if x < cw && y < ch {
                    src.at(ox + x, oy + y)
                } else {
                    bg
                },
            ),
    )
}

/// The pixel that packed rows of width `w` hold in column `x` of row `y`.
spec fn placed_px(kind: PixelKind, data: Seq<u8>, w: int, x: int, y: int) -> Px {
    packed_px(kind, data, y * w + x)
}

fn push_px(data: &mut Vec<u8>, kind: PixelKind, p: Px)
    requires
        old(data)@.len() % (kind.bytes() as nat) == 0,
    ensures
        final(data)@.len() == old(data)@.len() + kind.bytes(),
        packed_px(kind, final(data)@, old(data)@.len() as int / kind.bytes()) == as_kind(kind, p),
        forall|k: int|
            0 <= k < old(data)@.len() as int / kind.bytes() ==> #[trigger] packed_px(
                kind,
                final(data)@,
                k,
            ) == packed_px(kind, old(data)@, k),
{
    data.push(p.r);
    data.push(p.g);
    data.push(p.b);
    if let PixelKind::Rgba = kind {
        data.push(p.a);
    }
}

fn recompose(
    src: &PageImage,
    ox: u32,
    oy: u32,
    cw: u32,
    ch: u32,
    bg: Px,
    kind: PixelKind,
    w: u32,
    h: u32,
) -> (out: PageImage)
    requires
        src.wf(),
        ox + cw <= src.width,
        oy + ch <= src.height,
    ensures
        out.wf(),
        out@ == recomposed(
            src@,
            ox as int,
            oy as int,
            cw as int,
            ch as int,
            bg,
            kind,
            w,
            h,
        ),
{
    let ghost want = recomposed(
        src@,
        ox as int,
        oy as int,
        cw as int,
        ch as int,
        bg,
        kind,
        w,
        h,
    );
    let ghost b = kind.bytes();
    let ghost wi = w as int;
    let mut data: Vec<u8> = Vec::new();
    let mut y: u32 = 0;
    while y < h
        invariant
            src.wf(),
            ox + cw <= src.width,
            oy + ch <= src.height,
            want == recomposed(
                src@,
                ox as int,
                oy as int,
                cw as int,
                ch as int,
                bg,
                kind,
                w,
                h,
            ),
            b == kind.bytes(),
            wi == w,
            y <= h,
            data@.len() == y * wi * b,
            forall|x2: int, y2: int|
                0 <= x2 < w && 0 <= y2 < y ==> #[trigger] placed_px(kind, data@, wi, x2, y2)
                    == want.at(x2, y2),
        decreases h - y,
    {
        let mut x: u32 = 0;
        assert(0 * b == 0);
        while x < w
            invariant
                src.wf(),
                ox + cw <= src.width,
                oy + ch <= src.height,
                want == recomposed(
                    src@,
                    ox as int,
                    oy as int,
                    cw as int,
                    ch as int,
                    bg,
                    kind,
                    w,
                    h,
                ),
                b == kind.bytes(),
                wi == w,
                y < h,
                x <= w,
                data@.len() == (y * wi + x) * b,
                forall|x2: int, y2: int|
                    0 <= x2 < w && 0 <= y2 && (y2 < y || y2 == y && x2 < x) ==> #[trigger] placed_px(
                        kind,
                        data@,
                        wi,
                        x2,
                        y2,
                    ) == want.at(x2, y2),
            decreases w - x,
        {
            let p: Px = if x < cw && y < ch {
                src.get(ox + x, oy + y)
            } else {
                bg
            };
            let ghost k = y * wi + x;
            let ghost before = data@;
            proof {
                lemma_pixel_index(x as int, y as int, wi, h as int);
                assert(before.len() == k * b);
                assert((k * b) / b == k && (k * b) % b == 0) by (nonlinear_arith)
                    requires
                        0 <= k,
                        b == 3 || b == 4,
                ;
            }
            push_px(&mut data, kind, p);
            proof {
                assert((k + 1) * b == k * b + b) by (nonlinear_arith);
                assert forall|x2: int, y2: int|
                    0 <= x2 < w && 0 <= y2 && (y2 < y || y2 == y && x2 < x + 1) implies #[trigger] placed_px(
                    kind,
                    data@,
                    wi,
                    x2,
                    y2,
                ) == want.at(x2, y2) by {
                    if y2 == y && x2 == x {
                    } else {
                        lemma_earlier_index(x2, y2, x as int, y as int, wi);
                        assert(placed_px(kind, before, wi, x2, y2) == want.at(x2, y2));
                    }
                }
            }
            x += 1;
        }
        proof {
            assert(y * wi + wi == (y + 1) * wi) by (nonlinear_arith);
        }
        y += 1;
    }
    let out = PageImage { kind, width: w, height: h, data };
    proof {
        assert(h * wi * b == wi * h * b) by (nonlinear_arith);
        out.lemma_view_wf();
        assert forall|x2: int, y2: int| 0 <= x2 < w && 0 <= y2 < h implies #[trigger] out@.at(
            x2,
            y2,
        ) == want.at(x2, y2) by {
            assert(placed_px(kind, data@, wi, x2, y2) == want.at(x2, y2));
        }
        lemma_same_raster(out@, want);
    }
    out
}

proof fn lemma_earlier_index(x2: int, y2: int, x: int, y: int, w: int)
    requires
        0 <= x2 < w,
        0 <= x,
        0 <= y2,
        y2 < y || y2 == y && x2 < x,
    ensures
        0 <= y2 * w + x2 < y * w + x,
{
    assert(0 <= y2 * w) by (nonlinear_arith)
        requires
            0 <= y2,
            0 < w,
    ;
    if y2 < y {
        assert((y - y2) * w >= w) by (nonlinear_arith)
            requires
                y - y2 >= 1,
                w > 0,
        ;
        assert((y - y2) * w == y * w - y2 * w) by (nonlinear_arith);
    }
}

/// The part of an image from `(x, y)` on, of at most the given extent.
pub open spec fn cropped(r: Raster, x: int, y: int, w: int, h: int) -> Raster {
    let x0 = if x <= r.width { x } else { r.width as int };
    let y0 = if y <= r.height { y } else { r.height as int };
    Raster::of(
        r.kind,
        (if w <= r.width - x0 { w } else { r.width - x0 }) as u32,
        (if h <= r.height - y0 { h } else { r.height - y0 }) as u32,
        |i: int, j: int| r.at(x0 + i, y0 + j),
    )
}

/// The image without its transparency.
pub open spec fn opaque(r: Raster) -> Raster {
    Raster::of(PixelKind::Rgb, r.width, r.height, |x: int, y: int| as_kind(PixelKind::Rgb, r.at(x, y)))
}

/// The image cut or extended to an extent. Where it grows, it takes the colour
/// of its upper left pixel; unless it has the extent already, transparency is
/// lost.
pub open spec fn padded(r: Raster, w: int, h: int) -> Raster {
    if r.width == w && r.height == h {
        r
    } else {
        recomposed(
            r,
            0,
            0,
            r.width as int,
            r.height as int,
            r.at(0, 0),
            PixelKind::Rgb,
            w as u32,
            h as u32,
        )
    }
}

/// The image extended downwards to `h` rows of `bg`.
pub open spec fn extended_down(r: Raster, h: u32, bg: Px) -> Raster {
    recomposed(r, 0, 0, r.width as int, r.height as int, bg, r.kind, r.width, h)
}

impl PageImage {
    /// A cut-out of this image, held inside the image.
    pub fn crop_imm(&self, x: u32, y: u32, width: u32, height: u32) -> (out: PageImage)
        requires
            self.wf(),
        ensures
            out.wf(),
            out@ == cropped(self@, x as int, y as int, width as int, height as int),
    {
        let x0: u32 = lesser(x, self.width);
        let y0: u32 = lesser(y, self.height);
        let w: u32 = lesser(width, self.width - x0);
        let h: u32 = lesser(height, self.height - y0);
        let bg = Px { r: 0, g: 0, b: 0, a: 255 };
        let out = recompose(self, x0, y0, w, h, bg, self.kind, w, h);
        proof {
            let want = cropped(self@, x as int, y as int, width as int, height as int);
            self.lemma_view_wf();
            out.lemma_view_wf();
            assert forall|i: int, j: int| 0 <= i < w && 0 <= j < h implies #[trigger] out@.at(i, j)
                == want.at(i, j) by {
                assert(self@.at(x0 + i, y0 + j).a == 255 || self.kind == PixelKind::Rgba);
            }
            assert(want.wf()) by {
                if want.kind == PixelKind::Rgb {
                    assert forall|i: int, j: int|
                        0 <= i < want.width && 0 <= j < want.height implies (#[trigger] want.at(
                        i,
                        j,
                    )).a == 255 by {
                        assert(self@.at(x0 + i, y0 + j).a == 255);
                    }
                }
            }
            lemma_same_raster(out@, want);
        }
        out
    }

    /// The image without its transparency.
    pub fn to_rgb8(&self) -> (out: PageImage)
        requires
            self.wf(),
        ensures
            out.wf(),
            out@ == opaque(self@),
    {
        let bg = Px { r: 0, g: 0, b: 0, a: 255 };
        let out = recompose(
            self,
            0,
            0,
            self.width,
            self.height,
            bg,
            PixelKind::Rgb,
            self.width,
            self.height,
        );
        assert(out@.rows =~~= opaque(self@).rows);
        out
    }

    /// Cuts or extends the image to an extent.
    pub fn pad_to(self, w: u32, h: u32) -> (out: PageImage)
        requires
            self.wf(),
            pads(self@, w as int, h as int),
        ensures
            out.wf(),
            out@ == padded(self@, w as int, h as int),
    {
        if self.width == w && self.height == h {
            return self;
        }
        let bg = self.get(0, 0);
        let cw: u32 = lesser(self.width, w);
        let ch: u32 = lesser(self.height, h);
        let out = recompose(&self, 0, 0, cw, ch, bg, PixelKind::Rgb, w, h);
        assert(out@.rows =~~= padded(self@, w as int, h as int).rows);
        out
    }

    /// Extends the image downwards to `h` rows of `bg`.
    pub fn extend_down(self, h: u32, bg: Px) -> (out: PageImage)
        requires
            self.wf(),
            h >= self.height,
        ensures
            out.wf(),
            out@ == extended_down(self@, h, bg),
    {
        recompose(&self, 0, 0, self.width, self.height, bg, self.kind, self.width, h)
    }
}

/// Whether an image can be padded to an extent: it has that extent already, or
/// it has an upper left pixel to take the colour from.
pub open spec fn pads(r: Raster, w: int, h: int) -> bool {
    (r.width == w && r.height == h) || (r.width > 0 && r.height > 0)
}

/// Padding keeps what fits: the common part of an image and its padded copy
/// shows the same colours, and what is added shows the first one.
pub proof fn law_padding_keeps_the_image(r: Raster, w: int, h: int, x: int, y: int)
    requires
        r.wf(),
        pads(r, w, h),
        0 <= w <= u32::MAX,
        0 <= h <= u32::MAX,
        0 <= x < w,
        0 <= y < h,
    ensures
        padded(r, w, h).width == w,
        padded(r, w, h).height == h,
        as_kind(PixelKind::Rgb, padded(r, w, h).at(x, y)) == as_kind(
            PixelKind::Rgb,
            if x < r.width && y < r.height {
                r.at(x, y)
            } else {
                r.at(0, 0)
            },
        ),
{
}

/// One byte of a pixel.
pub open spec fn channel(p: Px, c: int) -> u8 {
    if c == 0 {
        p.r
    } else if c == 1 {
        p.g
    } else if c == 2 {
        p.b
    } else {
        p.a
    }
}

/// The packed bytes of an image.
pub open spec fn packed(r: Raster) -> Seq<u8> {
    let b = r.kind.bytes();
    Seq::new(
        (r.width * r.height * b) as nat,
        |i: int| channel(r.at((i / b) % (r.width as int), (i / b) / (r.width as int)), i % b),
    )
}

/// Packing the pixels of an image gives back its buffer.
pub proof fn lemma_packed(img: PageImage)
    requires
        img.wf(),
    ensures
        packed(img@) == img.data@,
{
    let (w, h, b) = (img.width as int, img.height as int, img.kind.bytes());
    assert forall|i: int| 0 <= i < img.data@.len() implies packed(img@)[i] == img.data@[i] by {
        let k = i / b;
        assert(b == 3 || b == 4);
        assert(k < w * h) by (nonlinear_arith)
            requires
                k == i / b,
                i < w * h * b,
                b == 3 || b == 4,
        ;
        assert(w > 0) by (nonlinear_arith)
            requires
                0 <= k < w * h,
                w >= 0,
                h >= 0,
        ;
        let (x, y) = (k % w, k / w);
        vstd::arithmetic::div_mod::lemma_fundamental_div_mod(k, w);
        assert(k == y * w + x) by (nonlinear_arith)
            requires
                k == w * y + x,
        ;
        assert(0 <= y < h) by (nonlinear_arith)
            requires
                k == y * w + x,
                0 <= x < w,
                0 <= k < w * h,
        ;
        assert(img@.at(x, y) == packed_px(img.kind, img.data@, k));
    }
    assert(packed(img@) =~= img.data@);
}

} // verus!
