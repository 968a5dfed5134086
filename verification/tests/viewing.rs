use page_converter::geometry::{CellSize, Picker, PixelDensity, ProtocolType};
use page_converter::page::{PageData, ViewportUpdate};
use page_converter::pixmap::{PageImage, PixelKind};
use page_converter::overlay::OverlaySet;
use page_converter::render::{
    crop_to_viewport, encode_fixed_area_protocol, encoding_error, is_encodable, is_normalizable,
    is_viewable, normalize_for_protocol, pad_to_cell_bounds, pad_to_pixel_cell_bounds,
    render_page_with_viewport, Encoder, PageWork, Prepared, Transport,
};
use page_converter::rounding::ScaleFactor;
use page_converter::text::PipelineError;

fn picker(protocol: ProtocolType) -> Picker {
    Picker { protocol, font_width: 8, font_height: 16 }
}

fn view(page: usize, y: u32, x: u32, h: u16, w: u16) -> ViewportUpdate {
    ViewportUpdate {
        page,
        y_offset_cells: y,
        x_offset_cells: x,
        viewport_height_cells: h,
        viewport_width_cells: w,
    }
}

/// Each row has its own colour.
fn striped(kind: PixelKind, width: u32, height: u32) -> PageImage {
    let mut data = Vec::new();
    for y in 0..height {
        for x in 0..width {
            data.extend_from_slice(&[y as u8, x as u8, 100]);
            if kind == PixelKind::Rgba {
                data.push(200);
            }
        }
    }
    PageImage { kind, width, height, data }
}

fn px(img: &PageImage, x: u32, y: u32) -> (u8, u8, u8, u8) {
    let p = img.get(x, y);
    (p.r, p.g, p.b, p.a)
}

fn page(img: &PageImage, cells: CellSize) -> PageData {
    let scale = ScaleFactor { bits: 1.0f32.to_bits() };
    PageData {
        page_num: 0,
        pixels: img.data.clone(),
        width_px: img.width,
        height_px: img.height,
        channels: if img.kind == PixelKind::Rgba { 4 } else { 3 },
        width_cell: cells.width,
        height_cell: cells.height,
        scale_factor: scale,
        requested_scale: scale,
        links: vec![],
    }
}

fn transport() -> Transport {
    Transport { pid: 1, kitty_shm_support: false, raw_limit: None }
}

#[test]
fn a_view_cuts_rows_and_columns() {
    let img = striped(PixelKind::Rgb, 80, 160);
    // Eight by sixteen pixels per cell.
    let vp = view(0, 3, 2, 4, 5);
    let (part, cells) =
        crop_to_viewport(img, CellSize::new(10, 10), &vp, &picker(ProtocolType::Iterm2));
    assert_eq!(cells, CellSize::new(5, 4));
    assert_eq!((part.width, part.height), (40, 64));
    assert_eq!(px(&part, 0, 0), (48, 16, 100, 255));
}

#[test]
fn kitty_keeps_all_columns() {
    let img = striped(PixelKind::Rgb, 80, 160);
    let vp = view(0, 3, 2, 4, 5);
    let (part, cells) =
        crop_to_viewport(img, CellSize::new(10, 10), &vp, &picker(ProtocolType::Kitty));
    assert_eq!(cells, CellSize::new(10, 4));
    assert_eq!((part.width, part.height), (80, 64));
}

#[test]
fn below_the_page_the_view_goes_on() {
    let vp = view(0, 8, 0, 4, 10);
    let cells = CellSize::new(10, 10);
    let p = picker(ProtocolType::Kitty);
    let (part, area) = crop_to_viewport(striped(PixelKind::Rgb, 80, 160), cells, &vp, &p);
    assert_eq!((part.width, part.height, area), (80, 64, cells_of(10, 4)));
    assert_eq!(px(&part, 5, 31), (159, 5, 100, 255));
    // The colour of the first visible pixel.
    assert_eq!(px(&part, 5, 32), (128, 0, 100, 255));
    assert_eq!(px(&part, 79, 63), (128, 0, 100, 255));
    let (part, _) = crop_to_viewport(striped(PixelKind::Rgba, 80, 160), cells, &vp, &p);
    assert_eq!(px(&part, 5, 31), (159, 5, 100, 200));
    assert_eq!(px(&part, 5, 32), (0, 0, 0, 0));
}

fn cells_of(width: u16, height: u16) -> CellSize {
    CellSize::new(width, height)
}

#[test]
fn a_view_below_the_page_shows_all_of_it() {
    let img = striped(PixelKind::Rgb, 80, 160);
    let (part, cells) = crop_to_viewport(
        img,
        CellSize::new(10, 10),
        &view(0, 10, 0, 4, 10),
        &picker(ProtocolType::Kitty),
    );
    assert_eq!((part.height, cells), (160, CellSize::new(10, 10)));
}

#[test]
fn pages_without_columns_have_no_colour_to_go_on_with() {
    let img = striped(PixelKind::Rgb, 0, 160);
    let p = picker(ProtocolType::Kitty);
    assert!(!is_viewable(&img, CellSize::new(10, 10), &view(0, 8, 0, 4, 10), &p));
    assert!(is_viewable(&img, CellSize::new(10, 10), &view(0, 2, 0, 4, 10), &p));
    let img = striped(PixelKind::Rgba, 0, 160);
    assert!(is_viewable(&img, CellSize::new(10, 10), &view(0, 8, 0, 4, 10), &p));
}

#[test]
fn only_other_protocols_are_resampled() {
    let cells = CellSize::new(10, 10);
    for protocol in [ProtocolType::Kitty, ProtocolType::Iterm2] {
        let img = normalize_for_protocol(striped(PixelKind::Rgba, 50, 50), cells, &picker(protocol));
        assert_eq!((img.kind, img.width, img.height), (PixelKind::Rgba, 50, 50));
    }
    for protocol in [ProtocolType::Sixel, ProtocolType::Halfblocks] {
        let img = striped(PixelKind::Rgba, 50, 50);
        assert!(is_normalizable(&img, cells, &picker(protocol)));
        let img = normalize_for_protocol(img, cells, &picker(protocol));
        assert_eq!((img.kind, img.width, img.height), (PixelKind::Rgb, 80, 160));
    }
}

#[test]
fn images_of_the_right_extent_are_kept() {
    let img = striped(PixelKind::Rgba, 80, 160);
    let data = img.data.clone();
    let out = normalize_for_protocol(img, CellSize::new(10, 10), &picker(ProtocolType::Sixel));
    assert_eq!((out.kind, out.data), (PixelKind::Rgba, data));
}

#[test]
fn images_without_pixels_become_blank() {
    let p = picker(ProtocolType::Sixel);
    let out = normalize_for_protocol(striped(PixelKind::Rgba, 0, 5), CellSize::new(1, 1), &p);
    assert_eq!((out.kind, out.width, out.height), (PixelKind::Rgba, 8, 16));
    assert!(out.data.iter().all(|&b| b == 0));
}

#[test]
fn padding_takes_the_first_colour() {
    let density = PixelDensity { x: 8, y: 16 };
    let out = pad_to_pixel_cell_bounds(striped(PixelKind::Rgba, 10, 10), CellSize::new(2, 1), density);
    assert_eq!((out.kind, out.width, out.height), (PixelKind::Rgb, 16, 16));
    assert_eq!(px(&out, 9, 9), (9, 9, 100, 255));
    assert_eq!(px(&out, 10, 9), (0, 0, 100, 255));
    assert_eq!(px(&out, 0, 15), (0, 0, 100, 255));
    let out = pad_to_cell_bounds(
        striped(PixelKind::Rgb, 20, 40),
        CellSize::new(2, 1),
        &picker(ProtocolType::Sixel),
    );
    assert_eq!((out.width, out.height), (16, 16));
    assert_eq!(px(&out, 15, 15), (15, 15, 100, 255));
}

#[test]
fn requests_name_the_encoder() {
    let cells = CellSize::new(3, 2);
    let img = || striped(PixelKind::Rgb, 2, 2);
    let r = encode_fixed_area_protocol(img(), cells, &picker(ProtocolType::Iterm2));
    assert_eq!(r.encoder, Encoder::Iterm2);
    assert_eq!(r.area, cells.at_origin());
    let r = encode_fixed_area_protocol(img(), cells, &picker(ProtocolType::Halfblocks));
    assert_eq!(r.encoder, Encoder::Native);
    assert_eq!(
        encoding_error(Encoder::Iterm2, "no".to_string()),
        PipelineError::Iterm2Encoding { detail: "no".to_string() }
    );
    assert_eq!(
        encoding_error(Encoder::Native, "no".to_string()),
        PipelineError::ProtocolEncoding { detail: "no".to_string() }
    );
}

#[test]
fn kitty_is_sent_the_page_itself() {
    let img = striped(PixelKind::Rgba, 12, 9);
    let data = page(&img, CellSize::new(3, 3));
    let transport = Transport { pid: 77, kitty_shm_support: true, raw_limit: None };
    let overlays = OverlaySet::empty();
    let p = picker(ProtocolType::Kitty);
    match render_page_with_viewport(&data, 4, &overlays, &p, None, &transport) {
        Prepared::Ready(PageWork::Kitty { upload, cell_size }) => {
            assert_eq!(upload.image.data, img.data);
            assert_eq!(upload.image.kind, PixelKind::Rgba);
            assert_eq!((upload.image_id, upload.page_num, upload.pid), (5, 4, 77));
            assert!(upload.shared_memory);
            assert_eq!(cell_size, CellSize::new(3, 3));
        }
        _ => panic!("not for Kitty"),
    }
}

#[test]
fn kitty_uploads_keep_to_the_limit() {
    let data = page(&striped(PixelKind::Rgb, 20, 10), CellSize::new(2, 1));
    let transport = Transport { pid: 1, kitty_shm_support: false, raw_limit: Some(150) };
    let p = picker(ProtocolType::Kitty);
    match render_page_with_viewport(&data, 0, &OverlaySet::empty(), &p, None, &transport) {
        Prepared::Ready(PageWork::Kitty { upload, .. }) => {
            assert_eq!((upload.image.width, upload.image.height), (10, 5));
        }
        _ => panic!("not for Kitty"),
    }
}

#[test]
fn a_view_of_another_page_has_no_effect() {
    let data = page(&striped(PixelKind::Rgb, 80, 160), CellSize::new(10, 10));
    let p = picker(ProtocolType::Kitty);
    let heights: Vec<u32> = [1usize, 0]
        .into_iter()
        .map(|on| {
            let vp = Some(view(on, 0, 0, 4, 10));
            match render_page_with_viewport(&data, 0, &OverlaySet::empty(), &p, vp, &transport()) {
                Prepared::Ready(PageWork::Kitty { upload, .. }) => upload.image.height,
                _ => panic!("not for Kitty"),
            }
        })
        .collect();
    assert_eq!(heights, vec![160, 64]);
}

#[test]
fn other_encoders_get_whole_cells() {
    let data = page(&striped(PixelKind::Rgb, 85, 165), CellSize::new(10, 10));
    for (protocol, extent) in [(ProtocolType::Iterm2, (80, 160)), (ProtocolType::Sixel, (80, 160))] {
        let p = picker(protocol);
        match render_page_with_viewport(&data, 0, &OverlaySet::empty(), &p, None, &transport()) {
            Prepared::Ready(PageWork::Encode { request }) => {
                assert_eq!((request.image.width, request.image.height), extent);
                assert_eq!(request.area, CellSize::new(10, 10).at_origin());
            }
            _ => panic!("not to encode"),
        }
    }
}

#[test]
fn broken_pages_are_faults() {
    let mut data = page(&striped(PixelKind::Rgb, 4, 4), CellSize::new(1, 1));
    data.pixels.pop();
    let p = picker(ProtocolType::Kitty);
    match render_page_with_viewport(&data, 0, &OverlaySet::empty(), &p, None, &transport()) {
        Prepared::Fault(e) => {
            assert_eq!(e, PipelineError::PixelBufferMismatch { expected: 48, got: 47 });
        }
        _ => panic!("no fault"),
    }
}

#[test]
fn pages_without_pixels_are_stuck_on_iterm2() {
    let data = page(&striped(PixelKind::Rgb, 0, 4), CellSize::new(1, 1));
    let p = picker(ProtocolType::Iterm2);
    assert!(!is_encodable(&striped(PixelKind::Rgb, 0, 4), CellSize::new(1, 1), &p, &transport()));
    let r = render_page_with_viewport(&data, 0, &OverlaySet::empty(), &p, None, &transport());
    assert!(matches!(r, Prepared::Stuck));
    // Kitty takes it as it is.
    let p = picker(ProtocolType::Kitty);
    let r = render_page_with_viewport(&data, 0, &OverlaySet::empty(), &p, None, &transport());
    assert!(matches!(r, Prepared::Ready(_)));
}
