use page_converter::simd_overlay::{apply_row_simd, tint_channel, OverlayOp};

fn apply_row_scalar(row: &mut [u8], op: OverlayOp) {
    for px in row.chunks_exact_mut(3) {
        match op {
            OverlayOp::Comment => {
                px[0] = px[0].saturating_sub(15);
                px[2] = px[2].saturating_add(20);
            }
            OverlayOp::Selection => {
                px[0] = px[0].saturating_add(40);
                px[1] = px[1].saturating_sub(20);
                px[2] = px[2].saturating_sub(60);
            }
            OverlayOp::Cursor => {
                px[0] = 255 - px[0];
                px[1] = 255 - px[1];
                px[2] = 255 - px[2];
            }
        }
    }
}

#[test]
fn simd_overlay_matches_scalar() {
    let sizes = [15, 48, 96, 100, 144, 200, 300];
    let ops = [OverlayOp::Comment, OverlayOp::Selection, OverlayOp::Cursor];

    for &size in &sizes {
        for &op in &ops {
            let original: Vec<u8> = (0..size).map(|i| (i * 17) as u8).collect();
            let mut simd_data = original.clone();
            let mut scalar_data = original.clone();

            apply_row_simd(&mut simd_data, op);
            apply_row_scalar(&mut scalar_data, op);

            assert_eq!(
                simd_data, scalar_data,
                "SIMD and scalar mismatch for size={size}, op={op:?}"
            );
        }
    }
}

#[test]
fn simd_overlay_edge_cases() {
    let ops = [OverlayOp::Comment, OverlayOp::Selection, OverlayOp::Cursor];

    for &op in &ops {
        let mut empty: Vec<u8> = vec![];
        apply_row_simd(&mut empty, op);
        assert!(empty.is_empty());

        let original = vec![100u8, 150, 200];
        let mut simd_data = original.clone();
        let mut scalar_data = original.clone();
        apply_row_simd(&mut simd_data, op);
        apply_row_scalar(&mut scalar_data, op);
        assert_eq!(
            simd_data, scalar_data,
            "Single pixel mismatch for op={op:?}"
        );

        let original = vec![100u8, 150, 200, 50, 75, 125];
        let mut simd_data = original.clone();
        let mut scalar_data = original.clone();
        apply_row_simd(&mut simd_data, op);
        apply_row_scalar(&mut scalar_data, op);
        assert_eq!(simd_data, scalar_data, "Two pixel mismatch for op={op:?}");
    }
}

#[test]
fn lanes_saturate() {
    let mut row = vec![250u8; 48];
    apply_row_simd(&mut row, OverlayOp::Selection);
    assert_eq!(&row[..3], &[255, 230, 190]);
    let mut row = vec![5u8; 48];
    apply_row_simd(&mut row, OverlayOp::Selection);
    assert_eq!(&row[..3], &[45, 0, 0]);
    let mut row = vec![7u8; 48];
    apply_row_simd(&mut row, OverlayOp::Comment);
    assert_eq!(&row[..3], &[0, 7, 27]);
}

#[test]
fn cursor_twice_is_nothing() {
    let original: Vec<u8> = (0..96).map(|i| (i * 5) as u8).collect();
    let mut row = original.clone();
    apply_row_simd(&mut row, OverlayOp::Cursor);
    assert_ne!(row, original);
    apply_row_simd(&mut row, OverlayOp::Cursor);
    assert_eq!(row, original);
}

#[test]
fn bytes_beyond_the_last_pixel_stay() {
    let mut row = vec![9u8; 50];
    apply_row_simd(&mut row, OverlayOp::Cursor);
    assert_eq!(row[47], 246);
    assert_eq!(&row[48..], &[9, 9]);
}

#[test]
fn channels_are_tinted_one_by_one() {
    assert_eq!(tint_channel(10, 0, OverlayOp::Selection), 50);
    assert_eq!(tint_channel(10, 1, OverlayOp::Selection), 0);
    assert_eq!(tint_channel(240, 2, OverlayOp::Comment), 255);
    assert_eq!(tint_channel(10, 1, OverlayOp::Cursor), 245);
}
