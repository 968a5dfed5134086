//! From a page's pixels to images that can be encoded.

use vstd::prelude::*;

#[allow(unused_imports)]
use crate::geometry::{density_of, held_difference, held_product, least, most};
use crate::geometry::{
    greater, held_mul, lesser, pixel_density_for_dims, CellSize, Picker, PixelDensity, ProtocolType,
    Rect,
};
use crate::overlay::{OverlaySet, Px};
#[allow(unused_imports)]
use crate::overlay::Stroke;
use crate::page::{PageData, ViewportUpdate};
use crate::paint::apply_overlays_dynamic;
#[allow(unused_imports)]
use crate::paint::painted;
use crate::pixmap::{PageImage, PixelKind};
#[allow(unused_imports)]
use crate::pixmap::{cropped, extended_down, opaque, padded, pads, Raster};
use crate::resize::{
    cap_kitty_image_raw_bytes, is_cappable, is_fast_resizable, is_resizable, resize_exact,
    resize_exact_fast,
};
#[allow(unused_imports)]
use crate::resize::{blank, can_cap, fast_resizable, is_capped, is_fast_resampling, resizable};
use crate::text::{next_shm_name, PipelineError};
#[allow(unused_imports)]
use crate::text::shm_name;

verus! {

/// The pixel density of an image.
pub fn pixel_density_for_image(img: &PageImage, cell_size: CellSize, picker: &Picker) -> (r:
    PixelDensity)
    ensures
        r == density_of(img@.width, img@.height, cell_size, *picker),
        r.x >= 1,
        r.y >= 1,
{
    pixel_density_for_dims(img.width(), img.height(), cell_size, picker)
}

// The visible part of a page.

/// The rows of a page that a viewport shows, and the height of the area in
/// cells. Below the page, a transparent page goes on transparent, another one
/// in the colour of its first visible pixel. A viewport that lies below the
/// page altogether shows the whole page.
pub open spec fn rows_in_view(r: Raster, cells: CellSize, vp: ViewportUpdate, picker: Picker) -> (
    Raster,
    u16,
) {
    let density = density_of(r.width, r.height, cells, picker);
    let y = held_product(vp.y_offset_cells as int, density.y as int);
    if y < r.height {
        let wanted = held_product(vp.viewport_height_cells as int, density.y as int);
        let height = most(least(wanted, r.height - y), 1);
        let part = cropped(r, 0, y, r.width as int, height);
        let bg = match r.kind {
            PixelKind::Rgba => Px { r: 0, g: 0, b: 0, a: 0 },
            PixelKind::Rgb => part.at(0, 0),
        };
        (
            if height < wanted {
                extended_down(part, wanted as u32, bg)
            } else {
                part
            },
            vp.viewport_height_cells,
        )
    } else {
        (r, cells.height)
    }
}

/// The columns of an image that a viewport shows, and the width of the area in
/// cells. Kitty clips for itself, so there all columns are kept.
pub open spec fn columns_in_view(
    r: Raster,
    density_x: u32,
    cells: CellSize,
    vp: ViewportUpdate,
    picker: Picker,
) -> (Raster, u16) {
    if picker.protocol != ProtocolType::Kitty && cells.width > vp.viewport_width_cells {
        let wanted = held_product(vp.viewport_width_cells as int, density_x as int);
        let x = least(
            held_product(vp.x_offset_cells as int, density_x as int),
            held_difference(r.width as int, 1),
        );
        (
            if wanted < r.width {
                cropped(r, x, 0, least(wanted, r.width - x), r.height as int)
            } else {
                r
            },
            vp.viewport_width_cells,
        )
    } else {
        (r, cells.width)
    }
}

/// The part of a page that a viewport shows, and its extent in cells.
pub open spec fn in_view(r: Raster, cells: CellSize, vp: ViewportUpdate, picker: Picker) -> (
    Raster,
    CellSize,
) {
    let density = density_of(r.width, r.height, cells, picker);
    let (rows, height) = rows_in_view(r, cells, vp, picker);
    let (part, width) = columns_in_view(rows, density.x, cells, vp, picker);
    (part, CellSize { width, height })
}

/// Whether a viewport can show a page. It cannot where it would have to go on
/// below the page in the colour of a pixel that the page does not have.
pub open spec fn can_view(r: Raster, cells: CellSize, vp: ViewportUpdate, picker: Picker) -> bool {
    let density = density_of(r.width, r.height, cells, picker);
    let y = held_product(vp.y_offset_cells as int, density.y as int);
    let wanted = held_product(vp.viewport_height_cells as int, density.y as int);
    r.kind == PixelKind::Rgba || r.width > 0 || y >= r.height || wanted <= most(
        least(wanted, r.height - y),
        1,
    )
}

/// Whether a viewport can show a page.
pub fn is_viewable(img: &PageImage, cell_size: CellSize, viewport: &ViewportUpdate, picker: &Picker) -> (r:
    bool)
    ensures
        r == can_view(img@, cell_size, *viewport, *picker),
{
    let density = pixel_density_for_image(img, cell_size, picker);
    let y_px: u32 = held_mul(viewport.y_offset_cells, density.y);
    let wanted: u32 = held_mul(viewport.viewport_height_cells as u32, density.y);
    img.kind == PixelKind::Rgba || img.width > 0 || y_px >= img.height || wanted <= greater(
        lesser(wanted, img.height - y_px),
        1,
    )
}

/// Cuts the part out of a page that a viewport shows.
pub fn crop_to_viewport(
    img: PageImage,
    cell_size: CellSize,
    viewport: &ViewportUpdate,
    picker: &Picker,
) -> (r: (PageImage, CellSize))
    requires
        img.wf(),
        can_view(img@, cell_size, *viewport, *picker),
    ensures
        r.0.wf(),
        (r.0@, r.1) == in_view(img@, cell_size, *viewport, *picker),
{
    let ghost whole = img@;
    let mut img = img;
    let density = pixel_density_for_image(&img, cell_size, picker);
    let y_px: u32 = held_mul(viewport.y_offset_cells, density.y);
    let mut area_height: u16 = cell_size.height;
    let mut area_width: u16 = cell_size.width;
    if y_px < img.height {
        area_height = viewport.viewport_height_cells;
        let viewport_px: u32 = held_mul(viewport.viewport_height_cells as u32, density.y);
        let crop_height: u32 = greater(lesser(viewport_px, img.height - y_px), 1);
        img = img.crop_imm(0, y_px, img.width, crop_height);
        if crop_height < viewport_px {
            let bg = match img.kind {
                PixelKind::Rgba => Px { r: 0, g: 0, b: 0, a: 0 },
                PixelKind::Rgb => img.get(0, 0),
            };
            img = img.extend_down(viewport_px, bg);
        }
    }
    assert((img@, area_height) == rows_in_view(whole, cell_size, *viewport, *picker));
    if picker.protocol != ProtocolType::Kitty && cell_size.width > viewport.viewport_width_cells {
        area_width = viewport.viewport_width_cells;
        let wanted: u32 = held_mul(viewport.viewport_width_cells as u32, density.x);
        if wanted < img.width {
            let x_px: u32 = lesser(
                held_mul(viewport.x_offset_cells, density.x),
                img.width.saturating_sub(1),
            );
            img = img.crop_imm(x_px, 0, lesser(wanted, img.width - x_px), img.height);
        }
    }
    (img, CellSize::new(area_width, area_height))
}

// Fitting an image to the cells of the terminal.

/// The extent in pixels of an area, in the terminal's font.
pub open spec fn font_extent(cells: CellSize, picker: Picker) -> (int, int) {
    (
        cells.width as int * picker.font_width as int,
        cells.height as int * picker.font_height as int,
    )
}

/// The extent in pixels of an area, at a pixel density.
pub open spec fn density_extent(cells: CellSize, density: PixelDensity) -> (int, int) {
    (
        held_product(cells.width as int, density.x as int),
        held_product(cells.height as int, density.y as int),
    )
}

fn font_extent_px(cells: CellSize, picker: &Picker) -> (r: (u32, u32))
    ensures
        (r.0 as int, r.1 as int) == font_extent(cells, *picker),
{
    proof {
        lemma_font_extent(cells, *picker);
    }
    (
        cells.width as u32 * picker.font_width as u32,
        cells.height as u32 * picker.font_height as u32,
    )
}

proof fn lemma_font_extent(cells: CellSize, picker: Picker)
    ensures
        0 <= font_extent(cells, picker).0 <= 0xffff * 0xffff,
        0 <= font_extent(cells, picker).1 <= 0xffff * 0xffff,
{
    let (cw, ch) = (cells.width as int, cells.height as int);
    let (fw, fh) = (picker.font_width as int, picker.font_height as int);
    assert(0 <= cw * fw <= 0xffff * 0xffff) by (nonlinear_arith)
        requires
            0 <= cw <= 0xffff,
            0 <= fw <= 0xffff,
    ;
    assert(0 <= ch * fh <= 0xffff * 0xffff) by (nonlinear_arith)
        requires
            0 <= ch <= 0xffff,
            0 <= fh <= 0xffff,
    ;
}

/// Whether an image has to be resampled to the terminal's font. Kitty and
/// iTerm2 scale for themselves.
pub open spec fn needs_resampling(r: Raster, cells: CellSize, picker: Picker) -> bool {
    let (w, h) = font_extent(cells, picker);
    picker.protocol != ProtocolType::Kitty && picker.protocol != ProtocolType::Iterm2 && (r.width
        != w || r.height != h)
}

/// Whether an image can be resampled to the terminal's font.
pub open spec fn can_normalize(r: Raster, cells: CellSize, picker: Picker) -> bool {
    let (w, h) = font_extent(cells, picker);
    needs_resampling(r, cells, picker) ==> if r.width == 0 || r.height == 0 {
        resizable(r.width as int, r.height as int, most(w, 1), most(h, 1))
    } else {
        fast_resizable(r.width as int, r.height as int, most(w, 1), most(h, 1))
    }
}

/// What an image becomes: resampled to the terminal's font, without
/// transparency, where the protocol does not scale for itself. An image
/// without pixels becomes a blank one.
pub open spec fn is_normalized(out: Raster, r: Raster, cells: CellSize, picker: Picker) -> bool {
    let (w, h) = font_extent(cells, picker);
    if !needs_resampling(r, cells, picker) {
        out == r
    } else if r.width == 0 || r.height == 0 {
        out == blank(r.kind, most(w, 1) as u32, most(h, 1) as u32)
    } else {
        &&& out.wf()
        &&& out.kind == PixelKind::Rgb
        &&& out.width == most(w, 1)
        &&& out.height == most(h, 1)
        &&& is_fast_resampling(out, opaque(r))
    }
}

/// Whether an image can be resampled to the terminal's font.
pub fn is_normalizable(img: &PageImage, cell_size: CellSize, picker: &Picker) -> (r: bool)
    ensures
        r == can_normalize(img@, cell_size, *picker),
{
    if picker.protocol == ProtocolType::Kitty || picker.protocol == ProtocolType::Iterm2 {
        return true;
    }
    let (w, h) = font_extent_px(cell_size, picker);
    if img.width == w && img.height == h {
        return true;
    }
    if img.width == 0 || img.height == 0 {
        is_resizable(img.width, img.height, greater(w, 1), greater(h, 1))
    } else {
        is_fast_resizable(img.width, img.height, greater(w, 1), greater(h, 1))
    }
}

/// Resamples an image to the terminal's font, unless the protocol scales for
/// itself.
pub fn normalize_for_protocol(img: PageImage, cell_size: CellSize, picker: &Picker) -> (out: PageImage)
    requires
        img.wf(),
        can_normalize(img@, cell_size, *picker),
    ensures
        out.wf(),
        is_normalized(out@, img@, cell_size, *picker),
{
    if picker.protocol == ProtocolType::Kitty || picker.protocol == ProtocolType::Iterm2 {
        return img;
    }
    let (w, h) = font_extent_px(cell_size, picker);
    if img.width == w && img.height == h {
        return img;
    }
    let target_width: u32 = greater(w, 1);
    let target_height: u32 = greater(h, 1);
    match resize_exact_fast(&img, target_width, target_height) {
        Ok(resized) => {
            proof {
                resized.lemma_view_wf();
            }
            resized
        },
        Err(_) => resize_exact(img, target_width, target_height),
    }
}

/// Pads or cuts an image to an area, at a pixel density.
pub fn pad_to_pixel_cell_bounds(img: PageImage, cell_size: CellSize, density: PixelDensity) -> (out:
    PageImage)
    requires
        img.wf(),
        pads(img@, density_extent(cell_size, density).0, density_extent(cell_size, density).1),
    ensures
        out.wf(),
        out@ == padded(
            img@,
            density_extent(cell_size, density).0,
            density_extent(cell_size, density).1,
        ),
{
    img.pad_to(
        held_mul(cell_size.width as u32, density.x),
        held_mul(cell_size.height as u32, density.y),
    )
}

/// Pads or cuts an image to an area, in the terminal's font.
pub fn pad_to_cell_bounds(img: PageImage, cell_size: CellSize, picker: &Picker) -> (out: PageImage)
    requires
        img.wf(),
        pads(img@, font_extent(cell_size, *picker).0, font_extent(cell_size, *picker).1),
    ensures
        out.wf(),
        out@ == padded(
            img@,
            font_extent(cell_size, *picker).0,
            font_extent(cell_size, *picker).1,
        ),
{
    let (w, h) = font_extent_px(cell_size, picker);
    img.pad_to(w, h)
}

// What is handed to the encoders.

/// Which encoder makes an image of a fixed area.
#[derive(Clone, Copy, Debug, PartialEq, Eq, Structural)]
pub enum Encoder {
    Iterm2,
    /// The one for the terminal's own protocol, without scaling.
    Native,
}

/// An image to encode for an area.
pub struct EncodeRequest {
    pub image: PageImage,
    pub area: Rect,
    pub encoder: Encoder,
}

/// The encoder for a terminal.
pub open spec fn encoder_of(picker: Picker) -> Encoder {
    if picker.protocol == ProtocolType::Iterm2 {
        Encoder::Iterm2
    } else {
        Encoder::Native
    }
}

/// The area of an extent, at the origin.
pub open spec fn area_of(cells: CellSize) -> Rect {
    Rect { x: 0, y: 0, width: cells.width, height: cells.height }
}

impl EncodeRequest {
    /// The request hands over this image, for this area.
    pub open spec fn asks(self, image: Raster, cells: CellSize, picker: Picker) -> bool {
        &&& self.image.wf()
        &&& self.image@ == image
        &&& self.area == area_of(cells)
        &&& self.encoder == encoder_of(picker)
    }
}

/// The request to encode an image for an area.
pub fn encode_fixed_area_protocol(image: PageImage, cell_size: CellSize, picker: &Picker) -> (r:
    EncodeRequest)
    requires
        image.wf(),
    ensures
        r.asks(image@, cell_size, *picker),
{
    let encoder = match picker.protocol {
        ProtocolType::Iterm2 => Encoder::Iterm2,
        _ => Encoder::Native,
    };
    EncodeRequest { image, area: cell_size.at_origin(), encoder }
}

/// The fault that a failed encoding is reported as.
pub open spec fn encoding_fault(encoder: Encoder, detail: String) -> PipelineError {
    match encoder {
        Encoder::Iterm2 => PipelineError::Iterm2Encoding { detail },
        Encoder::Native => PipelineError::ProtocolEncoding { detail },
    }
}

/// The fault that a failed encoding is reported as.
pub fn encoding_error(encoder: Encoder, detail: String) -> (r: PipelineError)
    ensures
        r == encoding_fault(encoder, detail),
{
    match encoder {
        Encoder::Iterm2 => PipelineError::Iterm2Encoding { detail },
        Encoder::Native => PipelineError::ProtocolEncoding { detail },
    }
}

/// The number of a page's image: one more than the page, held at the largest
/// number.
pub open spec fn image_id(page: usize) -> int {
    least(page as int % 0x1_0000_0000 + 1, u32::MAX as int)
}

/// The number of a page's image.
pub fn page_image_id(page: usize) -> (r: u32)
    ensures
        r as int == image_id(page),
        r >= 1,
{
    let low: u32 = (page as u64 % 0x1_0000_0000u64) as u32;
    low.saturating_add(1)
}

/// Different pages have different image numbers, among the first four billion
/// pages.
pub proof fn law_image_ids_tell_pages_apart(a: usize, b: usize)
    requires
        a < u32::MAX,
        b < u32::MAX,
        image_id(a) == image_id(b),
    ensures
        a == b,
{
}

/// An image to upload with the Kitty protocol.
pub struct KittyUpload {
    /// Its bytes are sent as they are, three or four per pixel.
    pub image: PageImage,
    pub image_id: u32,
    pub page_num: usize,
    pub pid: u32,
    /// Whether to try shared memory first; if that fails, the bytes are sent
    /// directly.
    pub shared_memory: bool,
}

impl KittyUpload {
    /// The name of the shared memory segment. `unique` is a number that this
    /// process has not used before.
    pub fn shm_name(&self, unique: u64) -> (r: String)
        ensures
            r@ == shm_name(unique, self.pid, self.page_num),
    {
        next_shm_name(unique, self.pid, self.page_num)
    }
}

/// What the host has to do to encode a whole page.
pub enum PageWork {
    Kitty { upload: KittyUpload, cell_size: CellSize },
    Encode { request: EncodeRequest },
}

/// The process that converts pages.
#[derive(Clone, Copy, Debug, PartialEq, Eq, Structural)]
pub struct Transport {
    pub pid: u32,
    pub kitty_shm_support: bool,
    /// The limit on the raw bytes of a Kitty image.
    pub raw_limit: Option<u64>,
}

/// Whether an image can be handed to an encoder.
pub open spec fn can_encode(r: Raster, cells: CellSize, picker: Picker, transport: Transport) -> bool {
    match picker.protocol {
        ProtocolType::Kitty => match transport.raw_limit {
            Some(limit) => can_cap(r, limit),
            None => true,
        },
        ProtocolType::Iterm2 => {
            let (w, h) = density_extent(cells, density_of(r.width, r.height, cells, picker));
            pads(r, w, h)
        },
        _ => {
            let (w, h) = font_extent(cells, picker);
            pads(r, w, h)
        },
    }
}

/// What is handed over to show an image on an extent of cells: to Kitty the
/// image itself, within the limit on raw bytes; to other encoders the image
/// padded to the cells.
pub open spec fn is_page_work(
    work: PageWork,
    r: Raster,
    cells: CellSize,
    page_num: usize,
    picker: Picker,
    transport: Transport,
) -> bool {
    match picker.protocol {
        ProtocolType::Kitty => {
            &&& work matches PageWork::Kitty { upload, cell_size }
            &&& cell_size == cells
            &&& upload.image.wf()
            &&& match transport.raw_limit {
                Some(limit) => is_capped(upload.image@, r, limit),
                None => upload.image@ == r,
            }
            &&& upload.image_id == image_id(page_num)
            &&& upload.page_num == page_num
            &&& upload.pid == transport.pid
            &&& upload.shared_memory == transport.kitty_shm_support
        },
        ProtocolType::Iterm2 => {
            let (w, h) = density_extent(cells, density_of(r.width, r.height, cells, picker));
            &&& work matches PageWork::Encode { request }
            &&& request.asks(padded(r, w, h), cells, picker)
        },
        _ => {
            let (w, h) = font_extent(cells, picker);
            &&& work matches PageWork::Encode { request }
            &&& request.asks(padded(r, w, h), cells, picker)
        },
    }
}

/// Whether an image can be handed to an encoder.
pub fn is_encodable(img: &PageImage, cell_size: CellSize, picker: &Picker, transport: &Transport) -> (r:
    bool)
    ensures
        r == can_encode(img@, cell_size, *picker, *transport),
{
    let (w, h) = match picker.protocol {
        ProtocolType::Kitty => {
            return match transport.raw_limit {
                Some(limit) => is_cappable(img, limit),
                None => true,
            };
        },
        ProtocolType::Iterm2 => {
            let density = pixel_density_for_image(img, cell_size, picker);
            (
                held_mul(cell_size.width as u32, density.x),
                held_mul(cell_size.height as u32, density.y),
            )
        },
        _ => font_extent_px(cell_size, picker),
    };
    (img.width == w && img.height == h) || (img.width > 0 && img.height > 0)
}

/// Prepares an image for the terminal's protocol.
pub fn encode_protocol(
    img: PageImage,
    cell_size: CellSize,
    page_num: usize,
    picker: &Picker,
    transport: &Transport,
) -> (work: PageWork)
    requires
        img.wf(),
        can_encode(img@, cell_size, *picker, *transport),
    ensures
        is_page_work(work, img@, cell_size, page_num, *picker, *transport),
{
    match picker.protocol {
        ProtocolType::Kitty => {
            let image = match transport.raw_limit {
                Some(limit) => cap_kitty_image_raw_bytes(img, limit),
                None => img,
            };
            let upload = KittyUpload {
                image,
                image_id: page_image_id(page_num),
                page_num,
                pid: transport.pid,
                shared_memory: transport.kitty_shm_support,
            };
            PageWork::Kitty { upload, cell_size }
        },
        ProtocolType::Iterm2 => {
            let density = pixel_density_for_image(&img, cell_size, picker);
            let img = pad_to_pixel_cell_bounds(img, cell_size, density);
            PageWork::Encode { request: encode_fixed_area_protocol(img, cell_size, picker) }
        },
        _ => {
            let img = pad_to_cell_bounds(img, cell_size, picker);
            PageWork::Encode { request: encode_fixed_area_protocol(img, cell_size, picker) }
        },
    }
}

// Whole pages.

/// What became of a preparation. `Stuck` means that an image without pixels
/// would have to be padded, or that an image is too large to be resampled.
pub enum Prepared<W> {
    Ready(W),
    Fault(PipelineError),
    Stuck,
}

/// The extent of a page in cells.
pub open spec fn page_cells(data: PageData) -> CellSize {
    CellSize { width: data.width_cell, height: data.height_cell }
}

/// The extent of a page in cells.
pub fn cached_cell_size(data: &PageData) -> (r: CellSize)
    ensures
        r == page_cells(*data),
{
    CellSize::new(data.width_cell, data.height_cell)
}

/// The part of a painted page that is shown, and its extent in cells. A
/// viewport of another page has no effect.
pub open spec fn page_in_view(
    r: Raster,
    cells: CellSize,
    page_num: usize,
    viewport: Option<ViewportUpdate>,
    picker: Picker,
) -> (Raster, CellSize) {
    match viewport {
        Some(vp) => if vp.page == page_num {
            in_view(r, cells, vp, picker)
        } else {
            (r, cells)
        },
        None => (r, cells),
    }
}

/// Whether a painted page can be shown and handed to an encoder.
pub open spec fn can_render(
    r: Raster,
    cells: CellSize,
    page_num: usize,
    viewport: Option<ViewportUpdate>,
    picker: Picker,
    transport: Transport,
) -> bool {
    let (part, area) = page_in_view(r, cells, page_num, viewport, picker);
    &&& viewport is Some && viewport->0.page == page_num ==> can_view(
        r,
        cells,
        viewport->0,
        picker,
    )
    &&& can_normalize(part, area, picker)
    &&& !needs_resampling(part, area, picker) ==> can_encode(part, area, picker, transport)
}

/// What is handed over to show a painted page: the visible part, resampled to
/// the terminal's font where the protocol does not scale for itself.
pub open spec fn is_rendering(
    work: PageWork,
    r: Raster,
    cells: CellSize,
    page_num: usize,
    viewport: Option<ViewportUpdate>,
    picker: Picker,
    transport: Transport,
) -> bool {
    let (part, area) = page_in_view(r, cells, page_num, viewport, picker);
    if needs_resampling(part, area, picker) {
        let (w, h) = font_extent(area, picker);
        &&& work matches PageWork::Encode { request }
        &&& request.image.wf()
        &&& request.image@.width == w
        &&& request.image@.height == h
        &&& request.area == area_of(area)
        &&& request.encoder == encoder_of(picker)
        &&& if part.width == 0 || part.height == 0 {
            request.image@ == padded(blank(part.kind, most(w, 1) as u32, most(h, 1) as u32), w, h)
        } else {
            &&& request.image@.kind == PixelKind::Rgb
            &&& w > 0 && h > 0 ==> is_fast_resampling(request.image@, opaque(part))
        }
    } else {
        is_page_work(work, part, area, page_num, picker, transport)
    }
}

/// What preparing a page with overlays gives.
pub open spec fn page_prepared(
    p: Prepared<PageWork>,
    data: PageData,
    page_num: usize,
    strokes: Seq<Stroke>,
    picker: Picker,
    viewport: Option<ViewportUpdate>,
    transport: Transport,
) -> bool {
    match data.raster() {
        Err(fault) => p == Prepared::<PageWork>::Fault(fault),
        Ok(raster) => {
            let r = painted(raster, strokes);
            if can_render(r, page_cells(data), page_num, viewport, picker, transport) {
                &&& p matches Prepared::Ready(work)
                &&& is_rendering(
                    work,
                    r,
                    page_cells(data),
                    page_num,
                    viewport,
                    picker,
                    transport,
                )
            } else {
                p is Stuck
            }
        },
    }
}

/// Prepares a page: decodes it, paints the overlays, cuts out the visible part
/// and fits it to the terminal.
pub fn render_page_with_viewport(
    data: &PageData,
    page_num: usize,
    overlays: &OverlaySet,
    picker: &Picker,
    viewport: Option<ViewportUpdate>,
    transport: &Transport,
) -> (p: Prepared<PageWork>)
    ensures
        page_prepared(p, *data, page_num, overlays.strokes(), *picker, viewport, *transport),
{
    let mut img = match data.decode() {
        Ok(img) => img,
        Err(e) => return Prepared::Fault(e),
    };
    apply_overlays_dynamic(&mut img, overlays);
    let ghost r = img@;
    let mut area = cached_cell_size(data);
    if let Some(vp) = viewport {
        if vp.page == page_num {
            if !is_viewable(&img, area, &vp, picker) {
                return Prepared::Stuck;
            }
            let (part, cells) = crop_to_viewport(img, area, &vp, picker);
            img = part;
            area = cells;
        }
    }
    let ghost (part, cells) = page_in_view(r, page_cells(*data), page_num, viewport, *picker);
    assert(img@ == part && area == cells);
    if !is_normalizable(&img, area, picker) {
        return Prepared::Stuck;
    }
    let img = normalize_for_protocol(img, area, picker);
    proof {
        lemma_font_extent(area, *picker);
        if needs_resampling(part, area, *picker) {
            assert(can_encode(img@, area, *picker, *transport));
        }
    }
    if !is_encodable(&img, area, picker, transport) {
        return Prepared::Stuck;
    }
    Prepared::Ready(encode_protocol(img, area, page_num, picker, transport))
}

} // verus!
