use std::sync::Arc;

use page_converter::frame::{ConvertedImage, TiledProtocol};
use page_converter::geometry::{CellSize, Rect};

type Image = ConvertedImage<&'static str, u8>;

fn tile(name: &'static str, y: u16) -> TiledProtocol<&'static str> {
    TiledProtocol { protocol: Arc::new(name), y_offset_cells: y, height_cells: 1 }
}

fn names(image: &Image) -> Vec<(&'static str, u16)> {
    match image {
        ConvertedImage::Tiled { tiles, .. } => {
            tiles.iter().map(|t| (*t.protocol, t.y_offset_cells)).collect()
        }
        _ => panic!("not tiled"),
    }
}

fn tiled() -> Image {
    ConvertedImage::Tiled {
        tiles: vec![tile("a", 0), tile("b", 1), tile("c", 2), tile("d", 1)],
        cell_size: CellSize::new(10, 3),
    }
}

#[test]
fn every_image_knows_its_extent() {
    let area = Rect { x: 3, y: 4, width: 50, height: 20 };
    let generic: Image = ConvertedImage::Generic { protocol: "p", area };
    assert_eq!(generic.cell_dimensions(), CellSize::new(50, 20));
    assert_eq!(tiled().cell_dimensions(), CellSize::new(10, 3));
    let kitty: Image = ConvertedImage::Kitty { img: 1, cell_size: CellSize::new(7, 8) };
    assert_eq!(kitty.cell_dimensions(), CellSize::new(7, 8));
    let update: Image = ConvertedImage::TileUpdate { tiles: vec![], cell_size: CellSize::new(1, 2) };
    assert_eq!(update.cell_dimensions(), CellSize::new(1, 2));
}

#[test]
fn updates_replace_the_first_tile_at_their_height() {
    let mut image = tiled();
    let update = ConvertedImage::TileUpdate {
        tiles: vec![tile("x", 2), tile("y", 1), tile("z", 9)],
        cell_size: CellSize::new(10, 40),
    };
    assert!(image.merge_tile_update(update));
    assert_eq!(names(&image), vec![("a", 0), ("y", 1), ("x", 2), ("d", 1)]);
    assert_eq!(image.cell_dimensions(), CellSize::new(10, 3));
}

#[test]
fn the_last_update_wins() {
    let mut image = tiled();
    let update = ConvertedImage::TileUpdate {
        tiles: vec![tile("x", 0), tile("y", 0)],
        cell_size: CellSize::new(10, 3),
    };
    assert!(image.merge_tile_update(update));
    assert_eq!(names(&image)[0], ("y", 0));
}

#[test]
fn only_tiled_images_take_updates() {
    let update = || ConvertedImage::TileUpdate {
        tiles: vec![tile("x", 0)],
        cell_size: CellSize::new(1, 1),
    };
    let mut kitty: Image = ConvertedImage::Kitty { img: 1, cell_size: CellSize::new(7, 8) };
    assert!(!kitty.merge_tile_update(update()));
    let mut other: Image = update();
    assert!(!other.merge_tile_update(update()));
    let mut image = tiled();
    assert!(!image.merge_tile_update(tiled()));
    assert_eq!(names(&image)[0], ("a", 0));
}
