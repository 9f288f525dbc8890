use raytracer::tiles::{PixelTrait, Rgb, Tile, TiledFrame};

#[test]
fn iter_2x2() {
    let frame = TiledFrame::<Rgb>::new(800, 800, 400, 400);
    let mut tiles = frame.iter();
    assert_eq!(tiles.next(), Some(Tile::<Rgb>::new(0, 0, 400, 400)));
    assert_eq!(tiles.next(), Some(Tile::<Rgb>::new(400, 0, 400, 400)));
    assert_eq!(tiles.next(), Some(Tile::<Rgb>::new(0, 400, 400, 400)));
    assert_eq!(tiles.next(), Some(Tile::<Rgb>::new(400, 400, 400, 400)));
    assert_eq!(tiles.next(), None);
}

#[test]
fn iter_4x4() {
    let frame = TiledFrame::<Rgb>::new(800, 800, 200, 200);
    let mut tiles = frame.iter();
    assert_eq!(tiles.next(), Some(Tile::new(0, 0, 200, 200)));
    assert_eq!(tiles.next(), Some(Tile::new(200, 0, 200, 200)));
    assert_eq!(tiles.next(), Some(Tile::new(400, 0, 200, 200)));
    assert_eq!(tiles.next(), Some(Tile::new(600, 0, 200, 200)));
    assert_eq!(tiles.next(), Some(Tile::new(0, 200, 200, 200)));
    assert_eq!(tiles.next(), Some(Tile::new(200, 200, 200, 200)));
    assert_eq!(tiles.next(), Some(Tile::new(400, 200, 200, 200)));
    assert_eq!(tiles.next(), Some(Tile::new(600, 200, 200, 200)));
    assert_eq!(tiles.next(), Some(Tile::new(0, 400, 200, 200)));
    assert_eq!(tiles.next(), Some(Tile::new(200, 400, 200, 200)));
    assert_eq!(tiles.next(), Some(Tile::new(400, 400, 200, 200)));
    assert_eq!(tiles.next(), Some(Tile::new(600, 400, 200, 200)));
    assert_eq!(tiles.next(), Some(Tile::new(0, 600, 200, 200)));
    assert_eq!(tiles.next(), Some(Tile::new(200, 600, 200, 200)));
    assert_eq!(tiles.next(), Some(Tile::new(400, 600, 200, 200)));
    assert_eq!(tiles.next(), Some(Tile::new(600, 600, 200, 200)));
    assert_eq!(tiles.next(), None);
}

#[test]
fn iter_1x2() {
    let frame = TiledFrame::<Rgb>::new(100, 100, 100, 50);
    let mut tiles = frame.iter();
    assert_eq!(tiles.next(), Some(Tile::new(0, 0, 100, 50)));
    assert_eq!(tiles.next(), Some(Tile::new(0, 50, 100, 50)));
    assert_eq!(tiles.next(), None);
}

#[test]
fn iter_2x2_narrow() {
    let frame = TiledFrame::<Rgb>::new(100, 100, 60, 60);
    let mut tiles = frame.iter();
    assert_eq!(tiles.next(), Some(Tile::new(0, 0, 60, 60)));
    assert_eq!(tiles.next(), Some(Tile::new(60, 0, 40, 60)));
    assert_eq!(tiles.next(), Some(Tile::new(0, 60, 60, 40)));
    assert_eq!(tiles.next(), Some(Tile::new(60, 60, 40, 40)));
    assert_eq!(tiles.next(), None);
}

#[test]
fn tile_equal_to_frame() {
    let frame = TiledFrame::<Rgb>::new(100, 100, 100, 100);
    let mut tiles = frame.iter();
    assert_eq!(tiles.next(), Some(Tile::new(0, 0, 100, 100)));
    assert_eq!(tiles.next(), None);
}

#[test]
fn tile_larger_than_frame_xy() {
    let frame = TiledFrame::<Rgb>::new(100, 100, 150, 150);
    let mut tiles = frame.iter();
    assert_eq!(tiles.next(), Some(Tile::new(0, 0, 100, 100)));
    assert_eq!(tiles.next(), None);
}

#[test]
fn tile_x_larger_y_smaller() {
    let frame = TiledFrame::<Rgb>::new(100, 100, 150, 90);
    let mut tiles = frame.iter();
    assert_eq!(tiles.next(), Some(Tile::new(0, 0, 100, 90)));
    assert_eq!(tiles.next(), Some(Tile::new(0, 90, 100, 10)));
    assert_eq!(tiles.next(), None);
}

#[test]
fn tile_x_smaller_y_larger() {
    let frame = TiledFrame::<Rgb>::new(100, 100, 90, 150);
    let mut tiles = frame.iter();
    assert_eq!(tiles.next(), Some(Tile::new(0, 0, 90, 100)));
    assert_eq!(tiles.next(), Some(Tile::new(90, 0, 10, 100)));
    assert_eq!(tiles.next(), None);
}

/// A pixel of one channel.
#[derive(Copy, Clone, PartialEq, Debug)]
struct Gray(u8);

impl PixelTrait for Gray {
    fn zero() -> Gray {
        Gray(0)
    }
    fn set_rgb(r: u8, g: u8, b: u8) -> Self {
        Gray((r as u32 + g as u32 + b as u32 / 3) as u8)
    }
}

fn gray(values: &[u8]) -> Vec<Gray> {
    values.iter().map(|&v| Gray(v)).collect()
}

const TEST_FRAME: [u8; 64] = [
    0, 0, 0, 0, 0, 0, 0, 0,
    0, 0, 0, 0, 0, 0, 0, 0,
    0, 0, 0, 0, 0, 0, 0, 0,
    0, 1, 1, 1, 1, 1, 0, 0,
    0, 1, 1, 1, 1, 1, 0, 0,
    0, 1, 1, 1, 1, 1, 0, 0,
    0, 0, 0, 0, 0, 0, 0, 0,
    0, 0, 0, 0, 0, 0, 0, 0,
];

const TEST_TILES: [[u8; 16]; 4] = [
    [
        0, 0, 0, 0,
        0, 0, 0, 0,
        0, 0, 0, 0,
        0, 1, 1, 1,
    ],
    [
        0, 0, 0, 0,
        0, 0, 0, 0,
        0, 0, 0, 0,
        1, 1, 0, 0,
    ],
    [
        0, 1, 1, 1,
        0, 1, 1, 1,
        0, 0, 0, 0,
        0, 0, 0, 0,
    ],
    [
        1, 1, 0, 0,
        1, 1, 0, 0,
        0, 0, 0, 0,
        0, 0, 0, 0,
    ],
];

#[test]
fn tile_detach_top_left() {
    let mut frame = TiledFrame::<Gray>::new(8, 8, 4, 4);
    frame.set_pixels(gray(&TEST_FRAME));
    let reference = Tile {
        origin_x: 0,
        origin_y: 0,
        width: 4,
        height: 4,
        pixels: gray(&TEST_TILES[0]),
    };
    let from_frame = frame.detach_tile(0, 0);
    assert_eq!(from_frame, reference);
}

#[test]
fn tile_detach_bot_right() {
    let mut frame = TiledFrame::<Gray>::new(8, 8, 4, 4);
    frame.set_pixels(gray(&TEST_FRAME));
    let reference = Tile {
        origin_x: 4,
        origin_y: 4,
        width: 4,
        height: 4,
        pixels: gray(&TEST_TILES[3]),
    };
    let from_frame = frame.detach_tile(1, 1);
    assert_eq!(from_frame, reference);
}

#[test]
fn tile_detach_from_iter() {
    let mut frame = TiledFrame::<Gray>::new(8, 8, 4, 4);
    frame.set_pixels(gray(&TEST_FRAME));
    let mut tiles = frame.iter();
    assert_eq!(tiles.next().unwrap().pixels, gray(&TEST_TILES[0]));
    assert_eq!(tiles.next().unwrap().pixels, gray(&TEST_TILES[1]));
    assert_eq!(tiles.next().unwrap().pixels, gray(&TEST_TILES[2]));
    assert_eq!(tiles.next().unwrap().pixels, gray(&TEST_TILES[3]));
    assert_eq!(tiles.next(), None);
}

#[test]
fn tile_merge() {
    let reference_tl = Tile {
        origin_x: 0,
        origin_y: 0,
        width: 4,
        height: 4,
        pixels: gray(&TEST_TILES[0]),
    };
    let reference_tr = Tile {
        origin_x: 4,
        origin_y: 0,
        width: 4,
        height: 4,
        pixels: gray(&TEST_TILES[1]),
    };
    let reference_bl = Tile {
        origin_x: 0,
        origin_y: 4,
        width: 4,
        height: 4,
        pixels: gray(&TEST_TILES[2]),
    };
    let reference_br = Tile {
        origin_x: 4,
        origin_y: 4,
        width: 4,
        height: 4,
        pixels: gray(&TEST_TILES[3]),
    };

    let mut frame = TiledFrame::<Gray>::new(8, 8, 4, 4);
    frame.merge_tile(&reference_tl);
    frame.merge_tile(&reference_tr);
    frame.merge_tile(&reference_bl);
    frame.merge_tile(&reference_br);
    assert_eq!(frame.pixels(), &gray(&TEST_FRAME));

    // and now in reverse order:
    let mut frame = TiledFrame::<Gray>::new(8, 8, 4, 4);
    frame.merge_tile(&reference_br);
    frame.merge_tile(&reference_bl);
    frame.merge_tile(&reference_tr);
    frame.merge_tile(&reference_tl);
    assert_eq!(frame.pixels(), &gray(&TEST_FRAME));
}
