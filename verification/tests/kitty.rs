use page_converter::geometry::CellSize;
use page_converter::pixmap::{PageImage, PixelKind};
use page_converter::render::{page_image_id, KittyUpload};
use page_converter::resize::{
    cap_kitty_image_raw_bytes, is_cappable, is_fast_resizable, is_resizable,
    kitty_raw_image_limit_bytes, resize_exact, resize_exact_fast,
};
use page_converter::text::{next_shm_name, PipelineError};

fn image(kind: PixelKind, width: u32, height: u32, byte: u8) -> PageImage {
    let n = width as usize * height as usize * kind.bytes_per_pixel() as usize;
    PageImage { kind, width, height, data: vec![byte; n] }
}

#[test]
fn kitty_transport_cap_downscales_rgb_to_raw_budget() {
    let img = image(PixelKind::Rgb, 20, 10, 0);
    let capped = cap_kitty_image_raw_bytes(img, 150);
    assert_eq!((capped.width(), capped.height()), (10, 5));
    assert!(matches!(capped.kind, PixelKind::Rgb));
}

#[test]
fn kitty_transport_cap_accounts_for_rgba_and_preserves_alpha() {
    let img = image(PixelKind::Rgba, 20, 10, 0);
    let capped = cap_kitty_image_raw_bytes(img, 200);
    assert_eq!((capped.width(), capped.height()), (10, 5));
    assert!(matches!(capped.kind, PixelKind::Rgba));
}

#[test]
fn kitty_transport_cap_leaves_images_within_budget_unchanged() {
    let img = image(PixelKind::Rgb, 10, 5, 0);
    let capped = cap_kitty_image_raw_bytes(img, 150);
    assert_eq!((capped.width(), capped.height()), (10, 5));
}

#[test]
fn capped_images_keep_to_the_limit() {
    for (w, h, limit) in [(640, 480, 100_000u64), (333, 777, 54_321), (1200, 90, 9_999)] {
        let img = image(PixelKind::Rgb, w, h, 77);
        assert!(is_cappable(&img, limit));
        let capped = cap_kitty_image_raw_bytes(img, limit);
        assert!(capped.data.len() as u64 <= limit, "{w}x{h}");
        assert_eq!(capped.data.len(), (capped.width * capped.height * 3) as usize);
        // A flat image stays flat.
        assert!(capped.data.iter().all(|&b| b == 77));
    }
}

#[test]
fn thin_images_keep_to_the_limit_too() {
    for (w, h, limit, extent) in [
        (1, 1000, 30, (1, 10)),
        (1000, 1, 30, (10, 1)),
        (4, 1, 3, (1, 1)),
        (1000, 2, 30, (10, 1)),
        (3, 3, 3, (1, 1)),
    ] {
        let capped = cap_kitty_image_raw_bytes(image(PixelKind::Rgb, w, h, 5), limit);
        assert_eq!((capped.width, capped.height), extent, "{w}x{h}");
        assert!(capped.data.len() as u64 <= limit);
        assert!(capped.data.iter().all(|&b| b == 5));
    }
}

#[test]
fn images_are_never_enlarged() {
    for (w, h) in [(7, 5), (200, 1), (1, 200), (64, 64), (99, 3)] {
        for limit in [4, 8, 40, 333, 4_000, 100_000] {
            let capped = cap_kitty_image_raw_bytes(image(PixelKind::Rgba, w, h, 1), limit);
            assert!(1 <= capped.width && capped.width <= w);
            assert!(1 <= capped.height && capped.height <= h);
            assert!(capped.data.len() as u64 <= limit);
            let fits = u64::from(w * h * 4) <= limit;
            assert_eq!((capped.width, capped.height) == (w, h), fits);
        }
    }
}

#[test]
fn capping_resamples_the_page_and_not_its_corner() {
    // White on the left, black on the right.
    let data = (0..40 * 20).flat_map(|i| [if i % 40 < 20 { 255u8 } else { 0 }; 3]).collect();
    let img = PageImage { kind: PixelKind::Rgb, width: 40, height: 20, data };
    let capped = cap_kitty_image_raw_bytes(img, 600);
    assert_eq!((capped.width, capped.height), (20, 10));
    assert_eq!(capped.get(2, 5).r, 255);
    assert_eq!(capped.get(17, 5).r, 0);
}

#[test]
fn limit_comes_from_the_setting_first() {
    assert_eq!(kitty_raw_image_limit_bytes(Some(0), Some("1")), None);
    assert_eq!(kitty_raw_image_limit_bytes(Some(0), None), None);
    assert_eq!(kitty_raw_image_limit_bytes(Some(3), Some("1")), Some(3 * 1024 * 1024));
    assert_eq!(kitty_raw_image_limit_bytes(None, Some("1")), Some(20 * 1024 * 1024));
    assert_eq!(kitty_raw_image_limit_bytes(None, None), None);
    for other in ["", "0", "11", "true", " 1"] {
        assert_eq!(kitty_raw_image_limit_bytes(None, Some(other)), None);
    }
    assert_eq!(kitty_raw_image_limit_bytes(Some(u32::MAX), None), Some(4294967295 << 20));
}

#[test]
fn image_ids_follow_the_pages() {
    assert_eq!(page_image_id(0), 1);
    assert_eq!(page_image_id(41), 42);
    assert_eq!(page_image_id(u32::MAX as usize - 1), u32::MAX);
    assert_eq!(page_image_id(u32::MAX as usize), u32::MAX);
    assert_eq!(page_image_id(u32::MAX as usize + 1), 1);
}

#[test]
fn segment_names_tell_uploads_apart() {
    assert_eq!(next_shm_name(0, 1234, 7), "/bookokrat_0-1234-page-7");
    assert_eq!(next_shm_name(1, 1234, 7), "/bookokrat_1-1234-page-7");
    assert_eq!(
        next_shm_name(u64::MAX, u32::MAX, 100),
        "/bookokrat_18446744073709551615-4294967295-page-100"
    );
    let upload = KittyUpload {
        image: image(PixelKind::Rgb, 1, 1, 0),
        image_id: 3,
        page_num: 2,
        pid: 9,
        shared_memory: true,
    };
    assert_eq!(upload.shm_name(5), "/bookokrat_5-9-page-2");
}

#[test]
fn fast_resizing_gives_the_extent() {
    let img = image(PixelKind::Rgba, 40, 20, 200);
    let out = resize_exact_fast(&img, 10, 30).ok().unwrap();
    assert_eq!((out.kind, out.width, out.height), (PixelKind::Rgb, 10, 30));
    assert_eq!(out.data.len(), 900);
    assert!(out.data.iter().all(|&b| b == 200));
}

#[test]
fn fast_resizing_to_the_same_extent_only_drops_transparency() {
    let data: Vec<u8> = (0..24).collect();
    let img = PageImage { kind: PixelKind::Rgba, width: 3, height: 2, data };
    let out = resize_exact_fast(&img, 3, 2).ok().unwrap();
    assert_eq!(out.data, vec![0, 1, 2, 4, 5, 6, 8, 9, 10, 12, 13, 14, 16, 17, 18, 20, 21, 22]);
}

#[test]
fn fast_resizing_names_what_is_missing() {
    let fault = |img: &PageImage, w, h| resize_exact_fast(img, w, h).err();
    let some = image(PixelKind::Rgb, 4, 4, 0);
    assert_eq!(fault(&image(PixelKind::Rgb, 0, 4, 0), 2, 2), Some(PipelineError::InvalidSourceWidth));
    assert_eq!(fault(&image(PixelKind::Rgb, 4, 0, 0), 2, 2), Some(PipelineError::InvalidSourceHeight));
    assert_eq!(fault(&some, 0, 2), Some(PipelineError::InvalidTargetWidth));
    assert_eq!(fault(&some, 2, 0), Some(PipelineError::InvalidTargetHeight));
    assert_eq!(fault(&some, 2, 2), None);
}

#[test]
fn resizing_keeps_transparency() {
    let out = resize_exact(image(PixelKind::Rgba, 8, 8, 90), 4, 2);
    assert_eq!((out.kind, out.width, out.height), (PixelKind::Rgba, 4, 2));
    assert_eq!(out.data, vec![90; 32]);
    let out = resize_exact(image(PixelKind::Rgba, 0, 8, 90), 2, 1);
    assert_eq!(out.data, vec![0; 8]);
    let data: Vec<u8> = (0..12).collect();
    let img = PageImage { kind: PixelKind::Rgb, width: 2, height: 2, data: data.clone() };
    assert_eq!(resize_exact(img, 2, 2).data, data);
}

#[test]
fn oversized_images_are_not_resized() {
    assert!(is_fast_resizable(1000, 1000, 2000, 2000));
    assert!(!is_fast_resizable(70_000, 70_000, 10, 10));
    assert!(!is_fast_resizable(10, 70_000, 70_000, 10));
    assert!(is_resizable(1000, 1000, 10, 10));
    assert!(is_resizable(3_000_000, 1, 1000, 1));
    assert!(is_resizable(0x80_0000, 1, 10, 1));
    // Single precision no longer places the columns of such an image.
    assert!(!is_resizable(67_108_804, 1, 67_108_800, 1));
    assert!(!is_resizable(10, 0x80_0001, 10, 10));
    assert!(is_resizable(u32::MAX, 1, u32::MAX, 1));
    assert!(is_resizable(0, u32::MAX, 80, 160));
    assert!(!is_resizable(10, 10, u32::MAX, u32::MAX));
}

#[test]
fn extents_convert() {
    let size = CellSize::new(80, 24);
    assert_eq!(size.as_tuple(), (80, 24));
    let area = size.at_origin();
    assert_eq!((area.x, area.y, area.width, area.height), (0, 0, 80, 24));
    assert_eq!(CellSize::from_rect(area), size);
}

/// A row of one colour keeps it up to its last pixel.
fn resample_row(w: u32, nw: u32) {
    let out = resize_exact(image(PixelKind::Rgb, w, 1, 7), nw, 1);
    assert_eq!((out.width, out.height), (nw, 1));
    assert!(out.data[..30].iter().all(|&b| b == 7));
    assert!(out.data[out.data.len() - 3000..].iter().all(|&b| b == 7));
}

#[test]
fn the_longest_rows_are_shrunk_a_little() {
    resample_row(0x80_0000, 0x7f_fff0);
}

#[test]
fn the_longest_rows_are_shrunk_much() {
    resample_row(0x80_0000, 1000);
}

#[test]
fn rows_are_stretched_to_the_longest() {
    resample_row(0x7f_ffff, 0x80_0000);
}
