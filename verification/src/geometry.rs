//! Cells, pixels and the rectangles that overlays are made of.

use vstd::prelude::*;

verus! {

/// The largest coordinate.
pub open spec fn coord_max() -> int {
    u32::MAX as int
}

/// The smaller of two numbers.
pub open spec fn least(a: int, b: int) -> int {
    if a <= b {
        a
    } else {
        b
    }
}

/// The larger of two numbers.
pub open spec fn most(a: int, b: int) -> int {
    if a <= b {
        b
    } else {
        a
    }
}

/// `a + b`, held at the largest coordinate.
pub open spec fn held_sum(a: int, b: int) -> int {
    least(a + b, coord_max())
}

/// `a - b`, held at zero.
pub open spec fn held_difference(a: int, b: int) -> int {
    most(a - b, 0)
}

/// `a * b`, held at the largest coordinate.
pub open spec fn held_product(a: int, b: int) -> int {
    least(a * b, coord_max())
}

/// `a * b`, held at the largest coordinate.
pub fn held_mul(a: u32, b: u32) -> (r: u32)
    ensures
        r as int == held_product(a as int, b as int),
{
    assert(a as int * b as int <= 0xffff_ffff * 0xffff_ffff) by (nonlinear_arith)
        requires
            0 <= a <= 0xffff_ffff,
            0 <= b <= 0xffff_ffff,
    ;
    assert(a as int * b as int >= 0) by (nonlinear_arith)
        requires
            0 <= a,
            0 <= b,
    ;
    let wide: u64 = a as u64 * b as u64;
    if wide > 0xffff_ffff {
        0xffff_ffff
    } else {
        wide as u32
    }
}

/// The smaller of two coordinates.
pub fn lesser(a: u32, b: u32) -> (r: u32)
    ensures
        r as int == least(a as int, b as int),
{
    if a <= b {
        a
    } else {
        b
    }
}

/// The larger of two coordinates.
pub fn greater(a: u32, b: u32) -> (r: u32)
    ensures
        r as int == most(a as int, b as int),
{
    if a <= b {
        b
    } else {
        a
    }
}

/// An area of the terminal, in cells.
#[derive(Clone, Copy, Debug, PartialEq, Eq, Structural)]
pub struct Rect {
    pub x: u16,
    pub y: u16,
    pub width: u16,
    pub height: u16,
}

/// The extent of an image, in cells.
#[derive(Clone, Copy, Debug, PartialEq, Eq, Structural)]
pub struct CellSize {
    pub width: u16,
    pub height: u16,
}

impl CellSize {
    #[must_use]
    pub fn new(width: u16, height: u16) -> (r: Self)
        ensures
            r == (CellSize { width, height }),
    {
        Self { width, height }
    }

    /// The extent of an area, wherever it lies.
    #[must_use]
    pub fn from_rect(r: Rect) -> (size: Self)
        ensures
            size == (CellSize { width: r.width, height: r.height }),
    {
        Self::new(r.width, r.height)
    }

    #[must_use]
    pub fn as_tuple(self) -> (r: (u16, u16))
        ensures
            r == (self.width, self.height),
    {
        (self.width, self.height)
    }

    /// The area of this extent at the origin.
    pub fn at_origin(self) -> (r: Rect)
        ensures
            r == (Rect { x: 0, y: 0, width: self.width, height: self.height }),
    {
        Rect { x: 0, y: 0, width: self.width, height: self.height }
    }
}

/// How the terminal shows images.
#[derive(Clone, Copy, Debug, PartialEq, Eq, Structural)]
pub enum ProtocolType {
    Halfblocks,
    Sixel,
    Kitty,
    Iterm2,
}

/// What is known of the terminal: its image protocol and its font.
#[derive(Clone, Copy, Debug, PartialEq, Eq, Structural)]
pub struct Picker {
    pub protocol: ProtocolType,
    pub font_width: u16,
    pub font_height: u16,
}

/// How many pixels of an image one cell takes up.
#[derive(Clone, Copy, Debug, PartialEq, Eq, Structural)]
pub struct PixelDensity {
    pub x: u32,
    pub y: u32,
}

/// Pixels per cell along one axis, at least one; the font's extent where
/// there are no cells to divide by.
pub open spec fn density_along(px: u32, cells: u16, font: u16) -> int {
    if cells > 0 {
        most(px as int / cells as int, 1)
    } else {
        most(font as int, 1)
    }
}

/// The pixel density of an image of the given extent.
pub open spec fn density_of(width_px: u32, height_px: u32, cells: CellSize, picker: Picker) -> PixelDensity {
    PixelDensity {
        x: density_along(width_px, cells.width, picker.font_width) as u32,
        y: density_along(height_px, cells.height, picker.font_height) as u32,
    }
}

/// The pixel density of an image of the given extent.
pub fn pixel_density_for_dims(
    width_px: u32,
    height_px: u32,
    cell_size: CellSize,
    picker: &Picker,
) -> (r: PixelDensity)
    ensures
        r == density_of(width_px, height_px, cell_size, *picker),
        r.x >= 1,
        r.y >= 1,
{
    proof {
        if cell_size.width > 0 {
            assert(0 <= width_px as int / cell_size.width as int <= width_px) by (nonlinear_arith)
                requires
                    cell_size.width > 0,
            ;
        }
        if cell_size.height > 0 {
            assert(0 <= height_px as int / cell_size.height as int <= height_px) by (nonlinear_arith)
                requires
                    cell_size.height > 0,
            ;
        }
    }
    let x: u32 = if cell_size.width > 0 {
        greater(width_px / cell_size.width as u32, 1)
    } else {
        greater(picker.font_width as u32, 1)
    };
    let y: u32 = if cell_size.height > 0 {
        greater(height_px / cell_size.height as u32, 1)
    } else {
        greater(picker.font_height as u32, 1)
    };
    PixelDensity { x, y }
}

/// A rectangle of pixels, without its right and lower edge.
#[derive(Clone, Copy, Debug, PartialEq, Eq, Structural)]
pub struct PixelRect {
    pub x0: u32,
    pub y0: u32,
    pub x1: u32,
    pub y1: u32,
}

impl PixelRect {
    /// Whether the pixel at `(x, y)` lies in the rectangle.
    pub open spec fn covers(self, x: int, y: int) -> bool {
        self.x0 <= x < self.x1 && self.y0 <= y < self.y1
    }

    /// The rectangle with these corners, if it holds a pixel.
    pub open spec fn with_corners(x0: int, y0: int, x1: int, y1: int) -> Option<PixelRect> {
        if x0 >= x1 || y0 >= y1 {
            None
        } else {
            Some(PixelRect { x0: x0 as u32, y0: y0 as u32, x1: x1 as u32, y1: y1 as u32 })
        }
    }

    pub fn new(x0: u32, y0: u32, x1: u32, y1: u32) -> (r: Option<Self>)
        ensures
            r == Self::with_corners(x0 as int, y0 as int, x1 as int, y1 as int),
    {
        if x0 >= x1 || y0 >= y1 {
            return None;
        }
        Some(Self { x0, y0, x1, y1 })
    }

    /// The part of the rectangle inside an image of the given extent.
    pub fn clamp_to(&self, w: u32, h: u32) -> (r: Option<Self>)
        ensures
            r == Self::with_corners(
                least(self.x0 as int, w as int),
                least(self.y0 as int, h as int),
                least(self.x1 as int, w as int),
                least(self.y1 as int, h as int),
            ),
            match r {
                Some(c) => c.x0 < c.x1 <= w && c.y0 < c.y1 <= h && forall|x: int, y: int|
                    0 <= x < w && 0 <= y < h ==> #[trigger] c.covers(x, y) == self.covers(x, y),
                None => forall|x: int, y: int|
                    0 <= x < w && 0 <= y < h ==> !#[trigger] self.covers(x, y),
            },
    {
        let x0: u32 = lesser(self.x0, w);
        let y0: u32 = lesser(self.y0, h);
        let x1: u32 = lesser(self.x1, w);
        let y1: u32 = lesser(self.y1, h);
        Self::new(x0, y0, x1, y1)
    }

    /// Whether the rectangle reaches into the rows from `y0` up to `y1`.
    pub open spec fn reaches_rows(self, y0: int, y1: int) -> bool {
        self.y1 > y0 && self.y0 < y1
    }

    pub fn intersects_y(&self, y0: u32, y1: u32) -> (r: bool)
        ensures
            r == self.reaches_rows(y0 as int, y1 as int),
    {
        !(self.y1 <= y0 || self.y0 >= y1)
    }

    /// The rectangle seen from `offset` rows further down.
    pub fn offset_y(&self, offset: u32) -> (r: Self)
        ensures
            r.x0 == self.x0,
            r.x1 == self.x1,
            r.y0 as int == held_difference(self.y0 as int, offset as int),
            r.y1 as int == held_difference(self.y1 as int, offset as int),
    {
        Self {
            x0: self.x0,
            y0: self.y0.saturating_sub(offset),
            x1: self.x1,
            y1: self.y1.saturating_sub(offset),
        }
    }
}

/// Gap between the bottom of a commented text and its underline.
pub const UNDERLINE_OFFSET: u32 = 2;

/// Thickness of the underline of a commented text.
pub const UNDERLINE_THICKNESS: u32 = 3;

/// The underline of a commented text.
pub open spec fn underline_of(rect: PixelRect) -> PixelRect {
    PixelRect {
        x0: rect.x0,
        y0: held_sum(rect.y1 as int, UNDERLINE_OFFSET as int) as u32,
        x1: rect.x1,
        y1: held_sum(
            held_sum(rect.y1 as int, UNDERLINE_OFFSET as int),
            UNDERLINE_THICKNESS as int,
        ) as u32,
    }
}

/// Underline rect for a comment, a line drawn just below the text.
pub fn comment_underline_rect(rect: PixelRect) -> (r: PixelRect)
    ensures
        r == underline_of(rect),
{
    let y0: u32 = rect.y1.saturating_add(UNDERLINE_OFFSET);
    PixelRect { x0: rect.x0, y0, x1: rect.x1, y1: y0.saturating_add(UNDERLINE_THICKNESS) }
}

/// A cursor on a page.
#[derive(Clone, Copy, Debug, PartialEq, Eq, Structural)]
pub struct CursorRect {
    pub page: usize,
    pub x: u32,
    pub y: u32,
    pub width: u32,
    pub height: u32,
}

/// The cursor, grown to at least one character.
pub open spec fn expanded(cursor: CursorRect, picker: Picker) -> CursorRect {
    CursorRect {
        page: cursor.page,
        x: cursor.x,
        y: cursor.y,
        width: most(cursor.width as int, picker.font_width as int) as u32,
        height: most(cursor.height as int, picker.font_height as int) as u32,
    }
}

pub fn expand_cursor_rect(cursor: &CursorRect, picker: &Picker) -> (r: CursorRect)
    ensures
        r == expanded(*cursor, *picker),
{
    CursorRect {
        page: cursor.page,
        x: cursor.x,
        y: cursor.y,
        width: greater(cursor.width, picker.font_width as u32),
        height: greater(cursor.height, picker.font_height as u32),
    }
}

/// Growing a cursor a second time changes nothing.
pub proof fn law_expanding_twice_is_expanding_once(cursor: CursorRect, picker: Picker)
    ensures
        expanded(expanded(cursor, picker), picker) == expanded(cursor, picker),
{
}

/// A present rectangle as a list of one, an absent one as an empty list.
pub open spec fn listed(rect: Option<PixelRect>) -> Seq<PixelRect> {
    match rect {
        Some(r) => seq![r],
        None => Seq::empty(),
    }
}

/// The border strips of a box: top, bottom, left and right, those that hold a
/// pixel.
pub open spec fn box_strokes(x0: u32, y0: u32, x1: u32, y1: u32, stroke: u32) -> Seq<PixelRect> {
    let t = most(stroke as int, 1);
    let top = least(held_sum(y0 as int, t), y1 as int);
    let left = least(held_sum(x0 as int, t), x1 as int);
    let bottom = most(held_difference(y1 as int, t), y0 as int);
    let right = most(held_difference(x1 as int, t), x0 as int);
    listed(PixelRect::with_corners(x0 as int, y0 as int, x1 as int, top)) + listed(
        PixelRect::with_corners(x0 as int, bottom, x1 as int, y1 as int),
    ) + listed(PixelRect::with_corners(x0 as int, y0 as int, left, y1 as int)) + listed(
        PixelRect::with_corners(right, y0 as int, x1 as int, y1 as int),
    )
}

fn push_listed(out: &mut Vec<PixelRect>, rect: Option<PixelRect>)
    ensures
        final(out)@ == old(out)@ + listed(rect),
{
    if let Some(r) = rect {
        out.push(r);
    }
    assert(out@ =~= old(out)@ + listed(rect));
}

/// Append the four border strips of an outline box to `out`. `stroke` is the
/// border thickness in pixels.
pub fn push_box_strokes(out: &mut Vec<PixelRect>, x0: u32, y0: u32, x1: u32, y1: u32, stroke: u32)
    ensures
        final(out)@ == old(out)@ + box_strokes(x0, y0, x1, y1, stroke),
{
    let t: u32 = greater(stroke, 1);
    let top: u32 = lesser(y0.saturating_add(t), y1);
    let left: u32 = lesser(x0.saturating_add(t), x1);
    let bottom: u32 = greater(y1.saturating_sub(t), y0);
    let right: u32 = greater(x1.saturating_sub(t), x0);
    push_listed(out, PixelRect::new(x0, y0, x1, top));
    push_listed(out, PixelRect::new(x0, bottom, x1, y1));
    push_listed(out, PixelRect::new(x0, y0, left, y1));
    push_listed(out, PixelRect::new(right, y0, x1, y1));
    assert(out@ =~= old(out)@ + box_strokes(x0, y0, x1, y1, stroke));
}

/// Whether one of the rectangles covers the pixel at `(x, y)`.
pub open spec fn any_covers(rects: Seq<PixelRect>, x: int, y: int) -> bool {
    exists|i: int| 0 <= i < rects.len() && (#[trigger] rects[i]).covers(x, y)
}

proof fn lemma_any_covers_joined(a: Seq<PixelRect>, b: Seq<PixelRect>, x: int, y: int)
    ensures
        any_covers(a + b, x, y) == (any_covers(a, x, y) || any_covers(b, x, y)),
{
    if any_covers(a, x, y) {
        let i = choose|i: int| 0 <= i < a.len() && (#[trigger] a[i]).covers(x, y);
        assert((a + b)[i].covers(x, y));
    }
    if any_covers(b, x, y) {
        let i = choose|i: int| 0 <= i < b.len() && (#[trigger] b[i]).covers(x, y);
        assert((a + b)[a.len() + i].covers(x, y));
    }
    if any_covers(a + b, x, y) {
        let i = choose|i: int| 0 <= i < (a + b).len() && (#[trigger] (a + b)[i]).covers(x, y);
        if i < a.len() {
            assert(a[i].covers(x, y));
        } else {
            assert(b[i - a.len()].covers(x, y));
        }
    }
}

proof fn lemma_any_covers_listed(r: Option<PixelRect>, x: int, y: int)
    ensures
        any_covers(listed(r), x, y) == (r is Some && r->0.covers(x, y)),
{
    if let Some(c) = r {
        assert(listed(r)[0] == c);
    }
}

/// The strips of a box cover its border and nothing else: the pixels of the
/// box that lie less than a stroke away from one of its edges.
pub proof fn law_box_strokes_cover_the_border(
    x0: u32,
    y0: u32,
    x1: u32,
    y1: u32,
    stroke: u32,
    x: int,
    y: int,
)
    ensures
        any_covers(box_strokes(x0, y0, x1, y1, stroke), x, y) == ({
            let t = most(stroke as int, 1);
            &&& x0 <= x < x1
            &&& y0 <= y < y1
            &&& (y < y0 + t || y >= y1 - t || x < x0 + t || x >= x1 - t)
        }),
{
    let t = most(stroke as int, 1);
    let top = least(held_sum(y0 as int, t), y1 as int);
    let left = least(held_sum(x0 as int, t), x1 as int);
    let bottom = most(held_difference(y1 as int, t), y0 as int);
    let right = most(held_difference(x1 as int, t), x0 as int);
    let a = PixelRect::with_corners(x0 as int, y0 as int, x1 as int, top);
    let b = PixelRect::with_corners(x0 as int, bottom, x1 as int, y1 as int);
    let c = PixelRect::with_corners(x0 as int, y0 as int, left, y1 as int);
    let d = PixelRect::with_corners(right, y0 as int, x1 as int, y1 as int);
    lemma_any_covers_joined(listed(a) + listed(b) + listed(c), listed(d), x, y);
    lemma_any_covers_joined(listed(a) + listed(b), listed(c), x, y);
    lemma_any_covers_joined(listed(a), listed(b), x, y);
    lemma_any_covers_listed(a, x, y);
    lemma_any_covers_listed(b, x, y);
    lemma_any_covers_listed(c, x, y);
    lemma_any_covers_listed(d, x, y);
}

/// A box that holds a pixel gets all four strips.
pub proof fn law_proper_box_has_four_strokes(x0: u32, y0: u32, x1: u32, y1: u32, stroke: u32)
    requires
        x0 < x1,
        y0 < y1,
    ensures
        box_strokes(x0, y0, x1, y1, stroke).len() == 4,
{
}

} // verus!
