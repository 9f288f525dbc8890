use raytracer::aabb::{Aabb, Point3d};
use raytracer::tiles::{PixelTrait, Rgb, Rgba, Tile, TileIter, TiledFrame, TiledFrameIter};

#[derive(Copy, Clone, PartialEq, Debug)]
struct Gray(u8);

impl PixelTrait for Gray {
    fn zero() -> Gray {
        Gray(0)
    }
    fn set_rgb(r: u8, g: u8, b: u8) -> Gray {
        Gray(((r as u16 + g as u16 + b as u16) / 3) as u8)
    }
}

#[test]
fn pixels_of_three_and_of_four_channels() {
    assert_eq!(Rgb::zero().pixel, [0, 0, 0]);
    assert_eq!(Rgb::set_rgb(1, 2, 3).pixel, [1, 2, 3]);
    assert_eq!(Rgba::zero().pixel, [0, 0, 0, 0]);
    assert_eq!(Rgba::set_rgb(1, 2, 3).pixel, [1, 2, 3, 255]);
}

#[test]
fn new_frame_is_background() {
    let frame = TiledFrame::<Rgb>::new(7, 5, 3, 2);
    assert_eq!(frame.pixels().len(), 35);
    assert_eq!(frame.pixels(), &vec![Rgb::zero(); 35]);
    assert!(frame.pixels().iter().all(|p| *p == Rgb::zero()));
    let tile = Tile::<Rgba>::new(3, 4, 2, 6);
    assert_eq!((tile.origin_x, tile.origin_y, tile.width, tile.height), (3, 4, 2, 6));
    assert_eq!(tile.pixels, vec![Rgba::zero(); 12]);
}

#[test]
fn tiles_cut_the_frame_exactly() {
    for &(w, h, tw, th) in &[(7u32, 5u32, 3u32, 2u32), (8, 8, 4, 4), (1, 1, 1, 1), (5, 9, 7, 4), (10, 3, 1, 3)] {
        let frame = TiledFrame::<Gray>::new(w, h, tw, th);
        let mut covered = vec![0u32; (w * h) as usize];
        let mut tiles = frame.iter();
        let mut count = 0;
        while let Some(tile) = tiles.next() {
            let i = count % ((w + tw - 1) / tw);
            let j = count / ((w + tw - 1) / tw);
            assert_eq!((tile.origin_x, tile.origin_y), (i * tw, j * th));
            assert_eq!(tile.width, tw.min(w - i * tw));
            assert_eq!(tile.height, th.min(h - j * th));
            assert_eq!(tile.pixels.len(), (tile.width * tile.height) as usize);
            for y in tile.origin_y..tile.origin_y + tile.height {
                for x in tile.origin_x..tile.origin_x + tile.width {
                    assert_eq!((x / tw, y / th), (i, j));
                    covered[(y * w + x) as usize] += 1;
                }
            }
            count += 1;
        }
        assert_eq!(count, ((w + tw - 1) / tw) * ((h + th - 1) / th));
        assert!(covered.iter().all(|&c| c == 1));
        assert_eq!(tiles.next(), None);
    }
}

fn numbered(w: u32, h: u32, tw: u32, th: u32) -> TiledFrame<Gray> {
    let mut frame = TiledFrame::<Gray>::new(w, h, tw, th);
    frame.set_pixels((0..w * h).map(|k| Gray(k as u8)).collect());
    frame
}

#[test]
fn detach_copies_the_rectangle() {
    let frame = numbered(7, 5, 3, 2);
    let tile = frame.detach_tile(2, 1);
    assert_eq!((tile.origin_x, tile.origin_y, tile.width, tile.height), (6, 2, 1, 2));
    assert_eq!(tile.pixels, vec![Gray(2 * 7 + 6), Gray(3 * 7 + 6)]);
    let tile = frame.detach_tile(1, 2);
    assert_eq!((tile.origin_x, tile.origin_y, tile.width, tile.height), (3, 4, 3, 1));
    assert_eq!(tile.pixels, vec![Gray(31), Gray(32), Gray(33)]);
}

#[test]
fn merge_writes_the_rectangle_only() {
    let mut frame = numbered(7, 5, 3, 2);
    let tile = Tile { origin_x: 2, origin_y: 1, width: 2, height: 3, pixels: vec![Gray(200); 6] };
    frame.merge_tile(&tile);
    for y in 0..5u32 {
        for x in 0..7u32 {
            let inside = (2..4).contains(&x) && (1..4).contains(&y);
            let expected = if inside { Gray(200) } else { Gray((y * 7 + x) as u8) };
            assert_eq!(frame.pixels()[(y * 7 + x) as usize], expected);
        }
    }
}

#[test]
fn merging_what_was_detached_changes_nothing() {
    let mut frame = numbered(7, 5, 3, 2);
    let before = frame.pixels().clone();
    for j in 0..3 {
        for i in 0..3 {
            let tile = frame.detach_tile(i, j);
            frame.merge_tile(&tile);
            assert_eq!(frame.detach_tile(i, j), tile);
        }
    }
    assert_eq!(frame.pixels(), &before);
}

#[test]
fn tiles_can_be_merged_in_any_order() {
    let source = numbered(7, 5, 3, 2);
    let mut tiles = Vec::new();
    let mut walk: TiledFrameIter<Gray> = source.iter();
    while let Some(tile) = walk.next() {
        tiles.push(tile);
    }
    let mut forward = TiledFrame::<Gray>::new(7, 5, 3, 2);
    for tile in tiles.iter() {
        forward.merge_tile(tile);
    }
    let mut backward = TiledFrame::<Gray>::new(7, 5, 3, 2);
    for tile in tiles.iter().rev() {
        backward.merge_tile(tile);
    }
    assert_eq!(forward.pixels(), source.pixels());
    assert_eq!(backward.pixels(), source.pixels());
}

#[test]
fn tile_pixels_come_row_by_row() {
    let mut tile = Tile {
        origin_x: 10,
        origin_y: 20,
        width: 2,
        height: 3,
        pixels: (0..6).map(Gray).collect(),
    };
    let mut walk: TileIter<Gray> = tile.iter_mut();
    let mut seen = Vec::new();
    while let Some(p) = walk.next() {
        seen.push(p);
    }
    assert_eq!(
        seen,
        vec![
            (0, 0, Gray(0)),
            (1, 0, Gray(1)),
            (0, 1, Gray(2)),
            (1, 1, Gray(3)),
            (0, 2, Gray(4)),
            (1, 2, Gray(5)),
        ]
    );
    assert_eq!(walk.next(), None);
    let empty = Tile::<Gray>::new(0, 0, 0, 4);
    assert_eq!(TileIter::new(&empty).next(), None);
    let empty = Tile::<Gray>::new(0, 0, 4, 0);
    assert_eq!(TileIter::new(&empty).next(), None);
}

#[test]
fn frame_walk_can_be_made_directly() {
    let frame = numbered(4, 4, 2, 2);
    let mut walk = TiledFrameIter::new(&frame);
    assert_eq!(walk.next().unwrap().pixels, vec![Gray(0), Gray(1), Gray(4), Gray(5)]);
    assert_eq!(walk.next().unwrap().pixels, vec![Gray(2), Gray(3), Gray(6), Gray(7)]);
}

#[test]
fn boxes_are_joined_by_the_plus_sign() {
    let a = Aabb::from_point3d(Point3d::from_coords(0, 0, 0), Point3d::from_coords(1, 1, 1));
    let b = Aabb::from_point3d(Point3d::from_coords(-3, 0, 5), Point3d::from_coords(0, 9, 6));
    assert_eq!(a + b, a.get_superset(b));
    assert_eq!(a + b, Aabb::from_point3d(Point3d::from_coords(-3, 0, 0), Point3d::from_coords(1, 9, 6)));
    assert_eq!(Aabb::new() + a, a);
}
