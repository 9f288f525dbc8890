//! A frame of pixels cut into rectangular tiles that can be rendered apart
//! and merged back in any order.
//!
//! Pixels are stored row by row. A frame of width `W` keeps the pixel at
//! column `x` of row `y` at index `y * W + x`; a tile does the same with its
//! own width and with coordinates counted from its origin.

use vstd::prelude::*;

verus! {

/// What a frame needs from a pixel: a background value and a way to make one
/// from three colour channels.
pub trait PixelTrait: Copy + Clone + PartialEq + core::fmt::Debug {
    fn zero() -> Self;

    fn set_rgb(r: u8, g: u8, b: u8) -> Self;
}

/// Three channels, eight bits each.
#[derive(Copy, Clone, PartialEq, Debug)]
pub struct Rgb {
    pub pixel: [u8; 3],
}

impl PixelTrait for Rgb {
    fn zero() -> (p: Rgb)
        ensures
            p.pixel@ == seq![0u8, 0u8, 0u8],
    {
        Rgb { pixel: [0, 0, 0] }
    }

    fn set_rgb(r: u8, g: u8, b: u8) -> (p: Rgb)
        ensures
            p.pixel@ == seq![r, g, b],
    {
        Rgb { pixel: [r, g, b] }
    }
}

/// Three channels and an opacity, eight bits each.
#[derive(Copy, Clone, PartialEq, Debug)]
pub struct Rgba {
    pub pixel: [u8; 4],
}

impl PixelTrait for Rgba {
    fn zero() -> (p: Rgba)
        ensures
            p.pixel@ == seq![0u8, 0u8, 0u8, 0u8],
    {
        Rgba { pixel: [0, 0, 0, 0] }
    }

    /// The colour is opaque.
    fn set_rgb(r: u8, g: u8, b: u8) -> (p: Rgba)
        ensures
            p.pixel@ == seq![r, g, b, 255u8],
    {
        Rgba { pixel: [r, g, b, 255] }
    }
}

/// How many tiles of side `tile` it takes to cover a side of length `frame`.
pub open spec fn tiles_along(frame: nat, tile: nat) -> nat
    recommends
        tile > 0,
{
    ((frame + tile - 1) / (tile as int)) as nat
}

/// The length of tile number `i` along a side of length `frame`: a whole
/// tile, or what is left of the frame for the last one.
pub open spec fn tile_extent(frame: nat, tile: nat, i: nat) -> nat
    recommends
        tile > 0,
        i < tiles_along(frame, tile),
{
    if (i + 1) * tile <= frame {
        tile
    } else {
        (frame - i * tile) as nat
    }
}

/// The mathematical content of a tile: a rectangle of the frame and its
/// pixels, row by row.
pub struct TileView<T> {
    pub origin_x: nat,
    pub origin_y: nat,
    pub width: nat,
    pub height: nat,
    pub pixels: Seq<T>,
}

impl<T> TileView<T> {
    /// There is one pixel for each place of the rectangle, and their number
    /// fits the index type.
    pub open spec fn valid(self) -> bool {
        &&& self.width * self.height <= u32::MAX
        &&& self.pixels.len() == self.width * self.height
    }

    /// The pixel at column `x` of row `y`, both counted from the tile's origin.
    pub open spec fn pixel(self, x: int, y: int) -> T
        recommends
            0 <= x < self.width,
            0 <= y < self.height,
    {
        self.pixels[y * self.width + x]
    }

    /// Whether the frame's place (`x`, `y`) lies in the tile's rectangle.
    pub open spec fn covers(self, x: int, y: int) -> bool {
        &&& self.origin_x <= x < self.origin_x + self.width
        &&& self.origin_y <= y < self.origin_y + self.height
    }

    /// Whether two tiles share no place of the frame.
    pub open spec fn disjoint(self, other: TileView<T>) -> bool {
        forall|x: int, y: int| !(#[trigger] self.covers(x, y) && other.covers(x, y))
    }
}

/// The mathematical content of a frame: its size, the size of a whole tile,
/// and its pixels, row by row.
pub struct FrameView<T> {
    pub width: nat,
    pub height: nat,
    pub tile_width: nat,
    pub tile_height: nat,
    pub pixels: Seq<T>,
}

impl<T> FrameView<T> {
    /// All four sizes are positive, there is one pixel for each place, and
    /// their number fits the index type.
    pub open spec fn valid(self) -> bool {
        &&& self.width > 0
        &&& self.height > 0
        &&& self.tile_width > 0
        &&& self.tile_height > 0
        &&& self.width * self.height <= u32::MAX
        &&& self.pixels.len() == self.width * self.height
    }

    /// The pixel at column `x` of row `y`.
    pub open spec fn pixel(self, x: int, y: int) -> T
        recommends
            0 <= x < self.width,
            0 <= y < self.height,
    {
        self.pixels[y * self.width + x]
    }

    /// The number of tiles in one row of tiles.
    pub open spec fn tiles_in_row(self) -> nat {
        tiles_along(self.width, self.tile_width)
    }

    /// The number of tiles in one column of tiles.
    pub open spec fn tiles_in_col(self) -> nat {
        tiles_along(self.height, self.tile_height)
    }

    /// The number of tiles in the frame.
    pub open spec fn num_tiles(self) -> nat {
        self.tiles_in_row() * self.tiles_in_col()
    }

    /// Whether a tile's rectangle lies within the frame.
    pub open spec fn holds(self, tile: TileView<T>) -> bool {
        &&& tile.origin_x + tile.width <= self.width
        &&& tile.origin_y + tile.height <= self.height
    }

    /// The tile in column `i` and row `j` of the layout, with the frame's
    /// pixels of that rectangle.
    pub open spec fn tile(self, i: int, j: int) -> TileView<T>
        recommends
            0 <= i < self.tiles_in_row(),
            0 <= j < self.tiles_in_col(),
    {
        let origin_x = (i * self.tile_width) as nat;
        let origin_y = (j * self.tile_height) as nat;
        let width = tile_extent(self.width, self.tile_width, i as nat);
        let height = tile_extent(self.height, self.tile_height, j as nat);
        TileView {
            origin_x,
            origin_y,
            width,
            height,
            pixels: Seq::new(
                width * height,
                |k: int| self.pixel(origin_x + k % (width as int), origin_y + k / (width as int)),
            ),
        }
    }

    /// The frame after the tile's pixels have been written over its
    /// rectangle; every other pixel stays.
    pub open spec fn merge(self, tile: TileView<T>) -> FrameView<T> {
        FrameView {
            pixels: Seq::new(
                self.pixels.len(),
                |k: int|
                    {
                        let x = k % (self.width as int);
                        let y = k / (self.width as int);
                        if tile.covers(x, y) {
                            tile.pixel(x - tile.origin_x, y - tile.origin_y)
                        } else {
                            self.pixels[k]
                        }
                    },
            ),
            ..self
        }
    }
}

/// The pixels of a frame after the first `done` pixels of the tile, in the
/// tile's own order, have been written over their places.
spec fn merged_first<T>(frame: FrameView<T>, tile: TileView<T>, done: int) -> Seq<T> {
    Seq::new(
        frame.pixels.len(),
        |k: int|
            {
                let x = k % (frame.width as int);
                let y = k / (frame.width as int);
                if tile.covers(x, y) && (y - tile.origin_y) * tile.width + (x - tile.origin_x)
                    < done {
                    tile.pixel(x - tile.origin_x, y - tile.origin_y)
                } else {
                    frame.pixels[k]
                }
            },
    )
}

/// Writing one more pixel of the tile turns `merged_first` of `done` into
/// `merged_first` of `done + 1`.
#[verifier::rlimit(40)]
proof fn lemma_merged_step<T>(frame: FrameView<T>, tile: TileView<T>, x: int, y: int)
    requires
        frame.valid(),
        tile.valid(),
        frame.holds(tile),
        tile.covers(x, y),
    ensures
        ({
            let done = (y - tile.origin_y) * tile.width + (x - tile.origin_x);
            merged_first(frame, tile, done + 1) == merged_first(frame, tile, done).update(
                y * frame.width + x,
                tile.pixels[done],
            )
        }),
{
    let w = tile.width as int;
    let fw = frame.width as int;
    let done = (y - tile.origin_y) * w + (x - tile.origin_x);
    let at = y * fw + x;
    lemma_place_in_grid(fw, frame.height as int, x, y);
    lemma_row_major(fw, x, y);
    lemma_row_major(w, x - tile.origin_x, y - tile.origin_y);
    let before = merged_first(frame, tile, done);
    let after = merged_first(frame, tile, done + 1);
    assert forall|k: int| 0 <= k < after.len() implies #[trigger] after[k] == before.update(
        at,
        tile.pixels[done],
    )[k] by {
        if k != at {
            let xk = k % fw;
            let yk = k / fw;
            lemma_index_in_grid(fw, frame.height as int, k);
            if tile.covers(xk, yk) && (yk - tile.origin_y) * w + (xk - tile.origin_x) == done {
                lemma_row_major(w, xk - tile.origin_x, yk - tile.origin_y);
                assert(false);
            }
        }
    }
    assert(after =~= before.update(at, tile.pixels[done]));
}

/// Nothing is written while `done` is zero, and all of the tile is once
/// `done` has reached the number of its pixels.
proof fn lemma_merged_ends<T>(frame: FrameView<T>, tile: TileView<T>)
    requires
        frame.valid(),
        tile.valid(),
        frame.holds(tile),
    ensures
        merged_first(frame, tile, 0) == frame.pixels,
        merged_first(frame, tile, (tile.width * tile.height) as int) == frame.merge(tile).pixels,
{
    let w = tile.width as int;
    let h = tile.height as int;
    let fw = frame.width as int;
    let none = merged_first(frame, tile, 0);
    let all = merged_first(frame, tile, w * h);
    assert forall|k: int| 0 <= k < none.len() implies #[trigger] none[k] == frame.pixels[k] by {
        let xk = k % fw;
        let yk = k / fw;
        if tile.covers(xk, yk) {
            lemma_place_in_grid(w, h, xk - tile.origin_x, yk - tile.origin_y);
        }
    }
    assert(none =~= frame.pixels);
    assert forall|k: int| 0 <= k < all.len() implies #[trigger] all[k] == frame.merge(
        tile,
    ).pixels[k] by {
        let xk = k % fw;
        let yk = k / fw;
        if tile.covers(xk, yk) {
            lemma_place_in_grid(w, h, xk - tile.origin_x, yk - tile.origin_y);
        }
    }
    assert(all =~= frame.merge(tile).pixels);
}

/// A rectangle of a frame, held apart from it: a unit of work.
#[derive(PartialEq, Debug)]
pub struct Tile<T: PixelTrait> {
    pub origin_x: u32,
    pub origin_y: u32,
    pub width: u32,
    pub height: u32,
    pub pixels: Vec<T>,
}

impl<T: PixelTrait> View for Tile<T> {
    type V = TileView<T>;

    open spec fn view(&self) -> TileView<T> {
        TileView {
            origin_x: self.origin_x as nat,
            origin_y: self.origin_y as nat,
            width: self.width as nat,
            height: self.height as nat,
            pixels: self.pixels@,
        }
    }
}

/// Row-major indexing: a place of a grid of width `w` and its index
/// determine each other.
pub proof fn lemma_row_major(w: int, x: int, y: int)
    requires
        0 <= x < w,
        0 <= y,
    ensures
        (y * w + x) % w == x,
        (y * w + x) / w == y,
{
    vstd::arithmetic::div_mod::lemma_fundamental_div_mod_converse(y * w + x, w, y, x);
}

/// An index below `w * h` names a place inside a grid of `w` by `h`.
pub proof fn lemma_index_in_grid(w: int, h: int, k: int)
    requires
        0 <= k < w * h,
        0 < w,
    ensures
        0 <= k % w < w,
        0 <= k / w < h,
        (k / w) * w + k % w == k,
{
    vstd::arithmetic::div_mod::lemma_fundamental_div_mod(k, w);
    assert(k / w < h) by (nonlinear_arith)
        requires
            0 <= k < w * h,
            0 < w,
            k == w * (k / w) + k % w,
            0 <= k % w < w,
    ;
    assert(0 <= k / w) by (nonlinear_arith)
        requires
            0 <= k,
            0 < w,
            k == w * (k / w) + k % w,
            0 <= k % w < w,
    ;
    assert((k / w) * w == w * (k / w)) by (nonlinear_arith);
}

/// A place inside a grid of `w` by `h` has an index below `w * h`.
pub proof fn lemma_place_in_grid(w: int, h: int, x: int, y: int)
    requires
        0 <= x < w,
        0 <= y < h,
    ensures
        0 <= y * w + x < w * h,
{
    assert(0 <= y * w + x < w * h) by (nonlinear_arith)
        requires
            0 <= x < w,
            0 <= y < h,
    ;
}

impl<T: PixelTrait> Tile<T> {
    /// One pixel for each place of the rectangle.
    pub open spec fn wf(&self) -> bool {
        self@.valid()
    }

    /// A tile at the given origin and of the given size, every pixel of it
    /// the background value.
    pub fn new(origin_x: u32, origin_y: u32, width: u32, height: u32) -> (tile: Tile<T>)
        requires
            width * height <= u32::MAX,
        ensures
            tile.wf(),
            tile.origin_x == origin_x,
            tile.origin_y == origin_y,
            tile.width == width,
            tile.height == height,
            forall|k: int|
                0 <= k < tile.pixels@.len() ==> call_ensures(T::zero, (), #[trigger] tile.pixels@[k]),
            forall|k: int|
                0 <= k < tile.pixels@.len() ==> #[trigger] tile.pixels@[k] == tile.pixels@[0],
    {
        Tile { origin_x, origin_y, width, height, pixels: background::<T>(width, height) }
    }
}

/// `width * height` pixels, each the background value.
fn background<T: PixelTrait>(width: u32, height: u32) -> (pixels: Vec<T>)
    requires
        width * height <= u32::MAX,
    ensures
        pixels@.len() == width * height,
        forall|k: int| 0 <= k < pixels@.len() ==> call_ensures(T::zero, (), #[trigger] pixels@[k]),
        forall|k: int| 0 <= k < pixels@.len() ==> #[trigger] pixels@[k] == pixels@[0],
{
    let count: usize = (width * height) as usize;
    let zero = T::zero();
    let mut pixels: Vec<T> = Vec::with_capacity(count);
    let mut k: usize = 0;
    while k < count
        invariant
            k <= count,
            pixels@.len() == k,
            call_ensures(T::zero, (), zero),
            forall|m: int| 0 <= m < k ==> #[trigger] pixels@[m] == zero,
        decreases count - k,
    {
        pixels.push(zero);
        k += 1;
    }
    pixels
}

/// What `tiles_along` counts: the last tile begins inside the side, and the
/// tiles together reach its end.
pub proof fn lemma_tiles_along(frame: nat, tile: nat)
    requires
        frame > 0,
        tile > 0,
    ensures
        tiles_along(frame, tile) >= 1,
        (tiles_along(frame, tile) - 1) * tile < frame <= tiles_along(frame, tile) * tile,
        tiles_along(frame, tile) == (frame - 1) / (tile as int) + 1,
{
    let t = tile as int;
    let a = frame + tile - 1;
    vstd::arithmetic::div_mod::lemma_fundamental_div_mod(a, t);
    vstd::arithmetic::div_mod::lemma_fundamental_div_mod(frame - 1, t);
    let n = a / t;
    let q = (frame - 1) / t;
    assert(n == q + 1) by {
        assert((q + 1) * t == t * q + t) by (nonlinear_arith);
        vstd::arithmetic::div_mod::lemma_fundamental_div_mod_converse(
            a,
            t,
            q + 1,
            (frame - 1) % t,
        );
    }
    assert((n - 1) * t == t * q) by (nonlinear_arith)
        requires
            n == q + 1,
    ;
    assert(n * t == t * q + t) by (nonlinear_arith)
        requires
            n == q + 1,
    ;
}

/// Every tile of the layout begins inside the side and ends within it, and
/// only the last one may be shorter than a whole tile.
pub proof fn lemma_tile_extent(frame: nat, tile: nat, i: nat)
    requires
        frame > 0,
        tile > 0,
        i < tiles_along(frame, tile),
    ensures
        i * tile < frame,
        0 < tile_extent(frame, tile, i) <= tile,
        i * tile + tile_extent(frame, tile, i) <= frame,
        i + 1 < tiles_along(frame, tile) ==> tile_extent(frame, tile, i) == tile,
        i + 1 == tiles_along(frame, tile) ==> i * tile + tile_extent(frame, tile, i) == frame,
{
    lemma_tiles_along(frame, tile);
    let n = tiles_along(frame, tile);
    assert(i * tile <= (n - 1) * tile) by (nonlinear_arith)
        requires
            i <= n - 1,
    ;
    assert((i + 1) * tile == i * tile + tile) by (nonlinear_arith);
    if i + 1 < n {
        assert((i + 1) * tile <= (n - 1) * tile) by (nonlinear_arith)
            requires
                i + 1 <= n - 1,
        ;
    } else {
        assert((i + 1) * tile == n * tile);
    }
}

/// A frame and the layout of its tiles.
pub struct TiledFrame<T: PixelTrait> {
    width: u32,
    height: u32,
    default_tile_width: u32,
    default_tile_height: u32,
    fringe_tile_width: u32,
    fringe_tile_height: u32,
    num_tiles_in_row: u32,
    num_tiles_in_col: u32,
    has_narrow_tiles: bool,
    pixels: Vec<T>,
}

impl<T: PixelTrait> View for TiledFrame<T> {
    type V = FrameView<T>;

    closed spec fn view(&self) -> FrameView<T> {
        FrameView {
            width: self.width as nat,
            height: self.height as nat,
            tile_width: self.default_tile_width as nat,
            tile_height: self.default_tile_height as nat,
            pixels: self.pixels@,
        }
    }
}

impl<T: PixelTrait> TiledFrame<T> {
    /// The counts and the sizes of the last tiles that the frame keeps are
    /// those that follow from its size and from the size of a whole tile.
    pub closed spec fn layout_wf(&self) -> bool {
        &&& self.num_tiles_in_row == tiles_along(self.width as nat, self.default_tile_width as nat)
        &&& self.num_tiles_in_col == tiles_along(
            self.height as nat,
            self.default_tile_height as nat,
        )
        &&& self.fringe_tile_width == self.width - (self.num_tiles_in_row - 1)
            * self.default_tile_width
        &&& self.fringe_tile_height == self.height - (self.num_tiles_in_col - 1)
            * self.default_tile_height
        &&& self.has_narrow_tiles == (self.fringe_tile_width != self.default_tile_width
            || self.fringe_tile_height != self.default_tile_height)
    }

    /// The frame is valid and its layout is consistent.
    pub open spec fn wf(&self) -> bool {
        &&& self@.valid()
        &&& self.layout_wf()
    }

    /// A frame of the given size, to be cut into tiles of the given size,
    /// every pixel of it the background value.
    pub fn new(frame_width: u32, frame_height: u32, tile_width: u32, tile_height: u32) -> (frame:
        TiledFrame<T>)
        requires
            frame_width > 0,
            frame_height > 0,
            tile_width > 0,
            tile_height > 0,
            frame_width * frame_height <= u32::MAX,
        ensures
            frame.wf(),
            frame@.width == frame_width,
            frame@.height == frame_height,
            frame@.tile_width == tile_width,
            frame@.tile_height == tile_height,
            forall|k: int|
                0 <= k < frame@.pixels.len() ==> call_ensures(
                    T::zero,
                    (),
                    #[trigger] frame@.pixels[k],
                ),
            forall|k: int|
                0 <= k < frame@.pixels.len() ==> #[trigger] frame@.pixels[k] == frame@.pixels[0],
    {
        proof {
            lemma_tiles_along(frame_width as nat, tile_width as nat);
            lemma_tiles_along(frame_height as nat, tile_height as nat);
        }
        let num_tiles_in_row = (frame_width - 1) / tile_width + 1;
        let num_tiles_in_col = (frame_height - 1) / tile_height + 1;
        let fringe_tile_width = frame_width - (num_tiles_in_row - 1) * tile_width;
        let fringe_tile_height = frame_height - (num_tiles_in_col - 1) * tile_height;
        let has_narrow_tiles = (fringe_tile_width != tile_width) || (fringe_tile_height
            != tile_height);
        TiledFrame {
            width: frame_width,
            height: frame_height,
            default_tile_width: tile_width,
            default_tile_height: tile_height,
            fringe_tile_width,
            fringe_tile_height,
            num_tiles_in_row,
            num_tiles_in_col,
            has_narrow_tiles,
            pixels: background::<T>(frame_width, frame_height),
        }
    }

    /// A copy of the tile in column `tile_idx_hor` and row `tile_idx_vert` of
    /// the layout.
    #[verifier::rlimit(40)]
    pub fn detach_tile(&self, tile_idx_hor: usize, tile_idx_vert: usize) -> (tile: Tile<T>)
        requires
            self.wf(),
            tile_idx_hor < self@.tiles_in_row(),
            tile_idx_vert < self@.tiles_in_col(),
        ensures
            tile.wf(),
            tile@ == self@.tile(tile_idx_hor as int, tile_idx_vert as int),
    {
        proof {
            lemma_tile_extent(self@.width, self@.tile_width, tile_idx_hor as nat);
            lemma_tile_extent(self@.height, self@.tile_height, tile_idx_vert as nat);
            lemma_tiles_along(self@.width, self@.tile_width);
            lemma_tiles_along(self@.height, self@.tile_height);
        }
        let mut width = self.default_tile_width;
        let mut height = self.default_tile_height;
        let origin_x = tile_idx_hor as u32 * self.default_tile_width;
        let origin_y = tile_idx_vert as u32 * self.default_tile_height;
        if (tile_idx_hor as u32 == self.num_tiles_in_row - 1) && self.has_narrow_tiles {
            width = self.fringe_tile_width;
        }
        if (tile_idx_vert as u32 == self.num_tiles_in_col - 1) && self.has_narrow_tiles {
            height = self.fringe_tile_height;
        }
        assert(width == tile_extent(self@.width, self@.tile_width, tile_idx_hor as nat));
        assert(height == tile_extent(self@.height, self@.tile_height, tile_idx_vert as nat));
        assert(width * height <= self@.width * self@.height) by (nonlinear_arith)
            requires
                0 <= width <= self@.width,
                0 <= height <= self@.height,
        ;
        let mut tile = Tile::<T>::new(origin_x, origin_y, width, height);
        let ghost frame = self@;
        let mut y = origin_y;
        while y < origin_y + height
            invariant
                self.wf(),
                frame == self@,
                origin_x + width <= frame.width,
                origin_y + height <= frame.height,
                0 < width,
                origin_y <= y <= origin_y + height,
                tile.origin_x == origin_x,
                tile.origin_y == origin_y,
                tile.width == width,
                tile.height == height,
                tile.pixels@.len() == width * height,
                width * height <= u32::MAX,
                forall|k: int|
                    0 <= k < (y - origin_y) * width ==> #[trigger] tile.pixels@[k] == frame.pixel(
                        origin_x + k % (width as int),
                        origin_y + k / (width as int),
                    ),
            decreases origin_y + height - y,
        {
            let mut x = origin_x;
            while x < origin_x + width
                invariant
                    self.wf(),
                    frame == self@,
                    origin_x + width <= frame.width,
                    origin_y + height <= frame.height,
                    0 < width,
                    origin_y <= y < origin_y + height,
                    origin_x <= x <= origin_x + width,
                    tile.origin_x == origin_x,
                    tile.origin_y == origin_y,
                    tile.width == width,
                    tile.height == height,
                    tile.pixels@.len() == width * height,
                    width * height <= u32::MAX,
                    forall|k: int|
                        0 <= k < (y - origin_y) * width + (x - origin_x)
                            ==> #[trigger] tile.pixels@[k] == frame.pixel(
                            origin_x + k % (width as int),
                            origin_y + k / (width as int),
                        ),
                decreases origin_x + width - x,
            {
                proof {
                    lemma_place_in_grid(
                        width as int,
                        height as int,
                        x - origin_x,
                        y - origin_y,
                    );
                    lemma_place_in_grid(frame.width as int, frame.height as int, x as int, y as int);
                    lemma_row_major(width as int, x - origin_x, y - origin_y);
                }
                let tile_idx = (y - origin_y) * tile.width + (x - origin_x);
                let frame_idx = y * self.width + x;
                tile.pixels.set(tile_idx as usize, self.pixels[frame_idx as usize]);
                x += 1;
            }
            proof {
                assert((y + 1 - origin_y) * width == (y - origin_y) * width + width)
                    by (nonlinear_arith);
            }
            y += 1;
        }
        proof {
            let whole = frame.tile(tile_idx_hor as int, tile_idx_vert as int);
            assert(height * width == width * height) by (nonlinear_arith);
            assert(whole.origin_x == origin_x);
            assert(whole.origin_y == origin_y);
            assert(whole.width == width);
            assert(whole.height == height);
            assert(tile@.pixels =~= whole.pixels);
        }
        tile
    }

    /// Writes the tile's pixels over its rectangle of the frame.
    #[verifier::rlimit(40)]
    pub fn merge_tile(&mut self, tile: &Tile<T>)
        requires
            old(self).wf(),
            tile.wf(),
            old(self)@.holds(tile@),
        ensures
            final(self).wf(),
            final(self)@ == old(self)@.merge(tile@),
    {
        let ghost before = self@;
        proof {
            lemma_merged_ends(before, tile@);
        }
        let mut y = tile.origin_y;
        while y < tile.origin_y + tile.height
            invariant
                tile.wf(),
                before.valid(),
                before.holds(tile@),
                self.layout_wf(),
                self@ == (FrameView { pixels: self@.pixels, ..before }),
                tile.origin_y <= y <= tile.origin_y + tile.height,
                self@.pixels == merged_first(before, tile@, (y - tile.origin_y) * tile.width),
            decreases tile.origin_y + tile.height - y,
        {
            let mut x = tile.origin_x;
            while x < tile.origin_x + tile.width
                invariant
                    tile.wf(),
                    before.valid(),
                    before.holds(tile@),
                    self.layout_wf(),
                    self@ == (FrameView { pixels: self@.pixels, ..before }),
                    tile.origin_y <= y < tile.origin_y + tile.height,
                    tile.origin_x <= x <= tile.origin_x + tile.width,
                    self@.pixels == merged_first(
                        before,
                        tile@,
                        (y - tile.origin_y) * tile.width + (x - tile.origin_x),
                    ),
                decreases tile.origin_x + tile.width - x,
            {
                proof {
                    lemma_place_in_grid(
                        tile.width as int,
                        tile.height as int,
                        x - tile.origin_x,
                        y - tile.origin_y,
                    );
                    lemma_place_in_grid(
                        before.width as int,
                        before.height as int,
                        x as int,
                        y as int,
                    );
                    lemma_merged_step(before, tile@, x as int, y as int);
                }
                let tile_idx = (y - tile.origin_y) * tile.width + (x - tile.origin_x);
                let frame_idx = y * self.width + x;
                self.pixels.set(frame_idx as usize, tile.pixels[tile_idx as usize]);
                x += 1;
            }
            proof {
                assert((y + 1 - tile.origin_y) * tile.width == (y - tile.origin_y) * tile.width
                    + tile.width) by (nonlinear_arith);
            }
            y += 1;
        }
        proof {
            assert(tile.height * tile.width == tile.width * tile.height) by (nonlinear_arith);
        }
    }
}

impl<T: PixelTrait> TiledFrame<T> {
    /// An iterator over the frame's tiles, row of tiles by row of tiles.
    pub fn iter(&self) -> (tiles: TiledFrameIter<'_, T>)
        requires
            self.wf(),
        ensures
            tiles.wf(),
            tiles.frame() == *self,
            tiles.position() == 0,
    {
        TiledFrameIter::<T>::new(self)
    }

    /// The pixels of the frame, row by row from the top.
    pub fn pixels(&self) -> (p: &Vec<T>)
        ensures
            p@ == self@.pixels,
    {
        &self.pixels
    }

    /// Puts the given pixels in place of those of the frame, row by row from
    /// the top. The size of the frame and of its tiles stays.
    pub fn set_pixels(&mut self, pixels: Vec<T>)
        requires
            old(self).wf(),
            pixels@.len() == old(self)@.width * old(self)@.height,
        ensures
            final(self).wf(),
            final(self)@ == (FrameView { pixels: pixels@, ..old(self)@ }),
    {
        self.pixels = pixels;
    }
}

/// Walks the tiles of a frame from the top left one, along each row of
/// tiles, and hands out a copy of each.
pub struct TiledFrameIter<'a, T: PixelTrait> {
    frame: &'a TiledFrame<T>,
    tile_idx_hor: usize,
    tile_idx_vert: usize,
}

impl<'a, T: PixelTrait> TiledFrameIter<'a, T> {
    /// The frame that is walked.
    pub closed spec fn frame(&self) -> TiledFrame<T> {
        *self.frame
    }

    /// How many tiles have been handed out.
    pub closed spec fn position(&self) -> nat {
        (self.tile_idx_vert * self.frame@.tiles_in_row() + self.tile_idx_hor) as nat
    }

    /// The frame is well formed and the walk stands on a tile of it, or at
    /// the end.
    pub closed spec fn wf(&self) -> bool {
        &&& self.frame.wf()
        &&& self.tile_idx_hor < self.frame@.tiles_in_row()
        &&& self.tile_idx_vert <= self.frame@.tiles_in_col()
        &&& self.tile_idx_vert == self.frame@.tiles_in_col() ==> self.tile_idx_hor == 0
    }

    /// The walk never goes past the last tile.
    pub proof fn lemma_position_bound(&self)
        requires
            self.wf(),
        ensures
            self.frame().wf(),
            self.position() <= self.frame()@.num_tiles(),
    {
        let n = self.frame@.tiles_in_row() as int;
        let m = self.frame@.tiles_in_col() as int;
        let v = self.tile_idx_vert as int;
        if v < m {
            assert(v * n + n <= m * n) by (nonlinear_arith)
                requires
                    v + 1 <= m,
                    0 <= n,
            ;
        }
        assert(m * n == n * m) by (nonlinear_arith);
    }

    /// A walk that stands on the first tile.
    pub fn new(frame: &'a TiledFrame<T>) -> (tiles: TiledFrameIter<'a, T>)
        requires
            frame.wf(),
        ensures
            tiles.wf(),
            tiles.frame() == *frame,
            tiles.position() == 0,
    {
        proof {
            lemma_tiles_along(frame@.width, frame@.tile_width);
            assert(0 * frame@.tiles_in_row() == 0) by (nonlinear_arith);
        }
        TiledFrameIter { frame, tile_idx_hor: 0, tile_idx_vert: 0 }
    }

    /// The next tile of the walk, or `None` once every tile has been handed
    /// out. Tile number `p` of the walk is the one in column `p %
    /// tiles_in_row` and row `p / tiles_in_row` of the layout.
    pub fn next(&mut self) -> (next: Option<Tile<T>>)
        requires
            old(self).wf(),
        ensures
            final(self).wf(),
            final(self).frame() == old(self).frame(),
            old(self).position() < old(self).frame()@.num_tiles() ==> {
                &&& next matches Some(tile)
                &&& tile.wf()
                &&& tile@ == old(self).frame()@.tile(
                    (old(self).position() % old(self).frame()@.tiles_in_row()) as int,
                    (old(self).position() / old(self).frame()@.tiles_in_row()) as int,
                )
                &&& final(self).position() == old(self).position() + 1
            },
            old(self).position() >= old(self).frame()@.num_tiles() ==> {
                &&& next is None
                &&& final(self).position() == old(self).position()
            },
    {
        proof {
            self.lemma_position_bound();
            lemma_tiles_along(self.frame@.width, self.frame@.tile_width);
            lemma_tiles_along(self.frame@.height, self.frame@.tile_height);
            let n = self.frame@.tiles_in_row() as int;
            let m = self.frame@.tiles_in_col() as int;
            let v = self.tile_idx_vert as int;
            assert(m * n == n * m) by (nonlinear_arith);
            assert((v + 1) * n == v * n + n) by (nonlinear_arith);
            if v < m {
                lemma_row_major(n, self.tile_idx_hor as int, v);
                assert(v * n + n <= m * n) by (nonlinear_arith)
                    requires
                        v + 1 <= m,
                        0 <= n,
                ;
            }
        }
        if self.tile_idx_vert < self.frame.num_tiles_in_col as usize && self.tile_idx_hor
            < self.frame.num_tiles_in_row as usize {
            let tile = self.frame.detach_tile(self.tile_idx_hor, self.tile_idx_vert);
            if self.tile_idx_hor == (self.frame.num_tiles_in_row - 1) as usize {
                self.tile_idx_hor = 0;
                self.tile_idx_vert += 1;
            } else {
                self.tile_idx_hor += 1;
            }
            Some(tile)
        } else {
            None
        }
    }
}

impl<T: PixelTrait> Tile<T> {
    /// An iterator over the tile's pixels, row by row.
    pub fn iter_mut(&mut self) -> (pixels: TileIter<'_, T>)
        requires
            old(self).wf(),
        ensures
            pixels.wf(),
            pixels.tile() == *old(self),
            pixels.position() == 0,
            *final(self) == *old(self),
    {
        TileIter::<T>::new(self)
    }
}

/// Walks the pixels of a tile from its origin, along each row, and hands out
/// each with its place.
pub struct TileIter<'a, T: PixelTrait> {
    tile: &'a Tile<T>,
    pixel_idx_hor: usize,
    pixel_idx_vert: usize,
}

impl<'a, T: PixelTrait> TileIter<'a, T> {
    /// The tile that is walked.
    pub closed spec fn tile(&self) -> Tile<T> {
        *self.tile
    }

    /// How many pixels have been handed out.
    pub closed spec fn position(&self) -> nat {
        (self.pixel_idx_vert * self.tile.width + self.pixel_idx_hor) as nat
    }

    /// The tile is well formed and the walk stands on a pixel of it, or at
    /// the end.
    pub closed spec fn wf(&self) -> bool {
        &&& self.tile.wf()
        &&& self.pixel_idx_hor < self.tile.width || self.pixel_idx_hor == 0
        &&& self.pixel_idx_vert <= self.tile.height
        &&& self.pixel_idx_vert == self.tile.height ==> self.pixel_idx_hor == 0
        &&& self.tile.width == 0 ==> self.pixel_idx_vert == 0
    }

    /// The walk never goes past the last pixel.
    pub proof fn lemma_position_bound(&self)
        requires
            self.wf(),
        ensures
            self.tile().wf(),
            self.position() <= self.tile()@.pixels.len(),
    {
        let w = self.tile.width as int;
        let h = self.tile.height as int;
        let v = self.pixel_idx_vert as int;
        if v < h {
            assert(v * w + w <= h * w) by (nonlinear_arith)
                requires
                    v + 1 <= h,
                    0 <= w,
            ;
        }
        assert(h * w == w * h) by (nonlinear_arith);
        assert(0 * w == 0) by (nonlinear_arith);
    }

    /// A walk that stands on the pixel at the tile's origin.
    pub fn new(tile: &'a Tile<T>) -> (pixels: TileIter<'a, T>)
        requires
            tile.wf(),
        ensures
            pixels.wf(),
            pixels.tile() == *tile,
            pixels.position() == 0,
    {
        proof {
            assert(0 * (tile.width as nat) == 0) by (nonlinear_arith);
        }
        TileIter { tile, pixel_idx_hor: 0, pixel_idx_vert: 0 }
    }

    /// The next pixel of the walk with its column and its row, both counted
    /// from the tile's origin, or `None` once every pixel has been handed
    /// out. Pixel number `p` of the walk is the one in column `p % width` of
    /// row `p / width`.
    pub fn next(&mut self) -> (next: Option<(usize, usize, T)>)
        requires
            old(self).wf(),
        ensures
            final(self).wf(),
            final(self).tile() == old(self).tile(),
            old(self).position() < old(self).tile()@.pixels.len() ==> {
                &&& next == Some(
                    (
                        (old(self).position() % old(self).tile()@.width) as usize,
                        (old(self).position() / old(self).tile()@.width) as usize,
                        old(self).tile()@.pixels[old(self).position() as int],
                    ),
                )
                &&& final(self).position() == old(self).position() + 1
            },
            old(self).position() >= old(self).tile()@.pixels.len() ==> {
                &&& next is None
                &&& final(self).position() == old(self).position()
            },
    {
        proof {
            self.lemma_position_bound();
            let w = self.tile.width as int;
            let h = self.tile.height as int;
            let v = self.pixel_idx_vert as int;
            assert(h * w == w * h) by (nonlinear_arith);
            assert((v + 1) * w == v * w + w) by (nonlinear_arith);
            assert(0 * h == 0) by (nonlinear_arith);
            if v < h && self.pixel_idx_hor < w {
                lemma_row_major(w, self.pixel_idx_hor as int, v);
                lemma_place_in_grid(w, h, self.pixel_idx_hor as int, v);
            }
        }
        if self.pixel_idx_vert < self.tile.height as usize && self.pixel_idx_hor
            < self.tile.width as usize {
            let pixel_idx = self.pixel_idx_vert * self.tile.width as usize + self.pixel_idx_hor;
            let pixel = self.tile.pixels[pixel_idx];
            let result = (self.pixel_idx_hor, self.pixel_idx_vert, pixel);
            if self.pixel_idx_hor == (self.tile.width - 1) as usize {
                self.pixel_idx_hor = 0;
                self.pixel_idx_vert += 1;
            } else {
                self.pixel_idx_hor += 1;
            }
            Some(result)
        } else {
            None
        }
    }
}

/// What merging does to one place: a place under the tile takes the tile's
/// pixel, any other keeps its own; the frame stays valid.
pub proof fn lemma_merge_pixel<T>(frame: FrameView<T>, tile: TileView<T>, x: int, y: int)
    requires
        frame.valid(),
        0 <= x < frame.width,
        0 <= y < frame.height,
    ensures
        frame.merge(tile).valid(),
        frame.merge(tile).pixel(x, y) == if tile.covers(x, y) {
            tile.pixel(x - tile.origin_x, y - tile.origin_y)
        } else {
            frame.pixel(x, y)
        },
{
    lemma_place_in_grid(frame.width as int, frame.height as int, x, y);
    lemma_row_major(frame.width as int, x, y);
}

/// A tile of the layout lies within the frame, is valid, and holds the
/// frame's pixels of its rectangle.
pub proof fn lemma_tile_pixel<T>(frame: FrameView<T>, i: int, j: int, x: int, y: int)
    requires
        frame.valid(),
        0 <= i < frame.tiles_in_row(),
        0 <= j < frame.tiles_in_col(),
        0 <= x < frame.tile(i, j).width,
        0 <= y < frame.tile(i, j).height,
    ensures
        frame.tile(i, j).valid(),
        frame.holds(frame.tile(i, j)),
        frame.tile(i, j).pixel(x, y) == frame.pixel(
            frame.tile(i, j).origin_x + x,
            frame.tile(i, j).origin_y + y,
        ),
{
    let tile = frame.tile(i, j);
    lemma_tile_extent(frame.width, frame.tile_width, i as nat);
    lemma_tile_extent(frame.height, frame.tile_height, j as nat);
    assert(tile.width * tile.height <= frame.width * frame.height) by (nonlinear_arith)
        requires
            0 <= tile.width <= frame.width,
            0 <= tile.height <= frame.height,
    ;
    lemma_place_in_grid(tile.width as int, tile.height as int, x, y);
    lemma_row_major(tile.width as int, x, y);
}

/// The tiles of the layout cut the frame exactly: every place of the frame
/// lies in the tile in column `x / tile_width` and row `y / tile_height`, and
/// in no other tile.
pub proof fn lemma_layout_partitions<T>(frame: FrameView<T>, x: int, y: int)
    requires
        frame.valid(),
        0 <= x < frame.width,
        0 <= y < frame.height,
    ensures
        0 <= x / (frame.tile_width as int) < frame.tiles_in_row(),
        0 <= y / (frame.tile_height as int) < frame.tiles_in_col(),
        frame.tile(x / (frame.tile_width as int), y / (frame.tile_height as int)).covers(x, y),
        forall|i: int, j: int|
            0 <= i < frame.tiles_in_row() && 0 <= j < frame.tiles_in_col() && (#[trigger] frame.tile(
                i,
                j,
            )).covers(x, y) ==> i == x / (frame.tile_width as int) && j == y / (
            frame.tile_height as int),
{
    lemma_side_partitions(frame.width, frame.tile_width, x);
    lemma_side_partitions(frame.height, frame.tile_height, y);
}

/// Along one side, a place lies in tile number `at / tile` and in no other.
#[verifier::rlimit(40)]
proof fn lemma_side_partitions(side: nat, tile: nat, at: int)
    requires
        side > 0,
        tile > 0,
        0 <= at < side,
    ensures
        0 <= at / (tile as int) < tiles_along(side, tile),
        (at / (tile as int)) * tile <= at < (at / (tile as int)) * tile + tile_extent(
            side,
            tile,
            (at / (tile as int)) as nat,
        ),
        forall|i: int|
            0 <= i < tiles_along(side, tile) && i * tile <= at < i * tile + #[trigger] tile_extent(
                side,
                tile,
                i as nat,
            ) ==> i == at / (tile as int),
{
    let t = tile as int;
    let q = at / t;
    let n = tiles_along(side, tile) as int;
    lemma_tiles_along(side, tile);
    vstd::arithmetic::div_mod::lemma_fundamental_div_mod(at, t);
    assert(q * t == t * q) by (nonlinear_arith);
    assert(0 <= q) by (nonlinear_arith)
        requires
            0 <= at,
            0 < t,
            at == t * q + at % t,
            0 <= at % t < t,
    ;
    assert(q < n) by (nonlinear_arith)
        requires
            at < side,
            side <= n * t,
            0 < t,
            at == t * q + at % t,
            0 <= at % t,
    ;
    lemma_tile_extent(side, tile, q as nat);
    assert((q + 1) * t == q * t + t) by (nonlinear_arith);
    assert forall|i: int|
        0 <= i < n && i * tile <= at < i * tile + #[trigger] tile_extent(
            side,
            tile,
            i as nat,
        ) implies i == q by {
        lemma_tile_extent(side, tile, i as nat);
        assert(at < i * t + t);
        vstd::arithmetic::div_mod::lemma_fundamental_div_mod_converse(at, t, i, at - i * t);
    }
}

/// Merging back the tile that was detached changes nothing.
pub proof fn lemma_merge_detached<T>(frame: FrameView<T>, i: int, j: int)
    requires
        frame.valid(),
        0 <= i < frame.tiles_in_row(),
        0 <= j < frame.tiles_in_col(),
    ensures
        frame.merge(frame.tile(i, j)) == frame,
{
    let tile = frame.tile(i, j);
    let merged = frame.merge(tile);
    assert forall|k: int| 0 <= k < frame.pixels.len() implies #[trigger] merged.pixels[k]
        == frame.pixels[k] by {
        lemma_index_in_grid(frame.width as int, frame.height as int, k);
        let x = k % (frame.width as int);
        let y = k / (frame.width as int);
        lemma_merge_pixel(frame, tile, x, y);
        if tile.covers(x, y) {
            lemma_tile_pixel(frame, i, j, x - tile.origin_x, y - tile.origin_y);
        }
    }
    assert(merged.pixels =~= frame.pixels);
}

/// Detaching a tile of the layout after a tile with the same rectangle has
/// been merged gives that tile's pixels back.
pub proof fn lemma_detach_merged<T>(frame: FrameView<T>, tile: TileView<T>, i: int, j: int)
    requires
        frame.valid(),
        tile.valid(),
        0 <= i < frame.tiles_in_row(),
        0 <= j < frame.tiles_in_col(),
        tile.origin_x == frame.tile(i, j).origin_x,
        tile.origin_y == frame.tile(i, j).origin_y,
        tile.width == frame.tile(i, j).width,
        tile.height == frame.tile(i, j).height,
    ensures
        frame.merge(tile).tile(i, j) == tile,
{
    let merged = frame.merge(tile);
    let back = merged.tile(i, j);
    lemma_tile_extent(frame.width, frame.tile_width, i as nat);
    lemma_tile_extent(frame.height, frame.tile_height, j as nat);
    assert forall|k: int| 0 <= k < tile.pixels.len() implies #[trigger] back.pixels[k]
        == tile.pixels[k] by {
        lemma_index_in_grid(tile.width as int, tile.height as int, k);
        let x = k % (tile.width as int);
        let y = k / (tile.width as int);
        lemma_merge_pixel(frame, tile, tile.origin_x + x, tile.origin_y + y);
    }
    assert(back.pixels =~= tile.pixels);
}

/// Tiles that share no place can be merged in either order.
pub proof fn lemma_merge_commutes<T>(frame: FrameView<T>, a: TileView<T>, b: TileView<T>)
    requires
        frame.valid(),
        a.disjoint(b),
    ensures
        frame.merge(a).merge(b) == frame.merge(b).merge(a),
{
    let ab = frame.merge(a).merge(b);
    let ba = frame.merge(b).merge(a);
    assert forall|k: int| 0 <= k < frame.pixels.len() implies #[trigger] ab.pixels[k]
        == ba.pixels[k] by {
        lemma_index_in_grid(frame.width as int, frame.height as int, k);
        let x = k % (frame.width as int);
        let y = k / (frame.width as int);
        assert(!(a.covers(x, y) && b.covers(x, y)));
    }
    assert(ab.pixels =~= ba.pixels);
}

/// The frame after the listed tiles of `source` have been merged into it,
/// one after the other. A tile is listed by its column and its row in the
/// layout.
pub open spec fn merge_all<T>(
    frame: FrameView<T>,
    source: FrameView<T>,
    order: Seq<(int, int)>,
) -> FrameView<T>
    decreases order.len(),
{
    if order.len() == 0 {
        frame
    } else {
        merge_all(frame, source, order.drop_last()).merge(source.tile(order.last().0, order.last().1))
    }
}

/// Whether every entry of the list is a tile of the layout.
pub open spec fn lists_tiles<T>(frame: FrameView<T>, order: Seq<(int, int)>) -> bool {
    forall|k: int|
        0 <= k < order.len() ==> 0 <= (#[trigger] order[k]).0 < frame.tiles_in_row() && 0
            <= order[k].1 < frame.tiles_in_col()
}

/// After tiles of `source` have been merged into a frame of the same size,
/// a place holds the pixel of `source` if one of the merged tiles covers it,
/// and its own pixel otherwise.
pub proof fn lemma_merge_all_pixel<T>(
    frame: FrameView<T>,
    source: FrameView<T>,
    order: Seq<(int, int)>,
    x: int,
    y: int,
)
    requires
        frame.valid(),
        source.valid(),
        frame.width == source.width,
        frame.height == source.height,
        lists_tiles(source, order),
        0 <= x < frame.width,
        0 <= y < frame.height,
    ensures
        merge_all(frame, source, order).valid(),
        merge_all(frame, source, order).width == frame.width,
        merge_all(frame, source, order).height == frame.height,
        merge_all(frame, source, order).pixel(x, y) == if exists|k: int|
            0 <= k < order.len() && source.tile((#[trigger] order[k]).0, order[k].1).covers(x, y) {
            source.pixel(x, y)
        } else {
            frame.pixel(x, y)
        },
    decreases order.len(),
{
    if order.len() > 0 {
        let front = order.drop_last();
        let last = order.last();
        let tile = source.tile(last.0, last.1);
        assert(last == order[order.len() - 1]);
        assert forall|k: int| 0 <= k < front.len() implies 0 <= (#[trigger] front[k]).0
            < source.tiles_in_row() && 0 <= front[k].1 < source.tiles_in_col() by {
            assert(front[k] == order[k]);
        }
        lemma_merge_all_pixel(frame, source, front, x, y);
        let before = merge_all(frame, source, front);
        lemma_merge_pixel(before, tile, x, y);
        let covered_before = exists|k: int|
            0 <= k < front.len() && source.tile((#[trigger] front[k]).0, front[k].1).covers(x, y);
        let covered = exists|k: int|
            0 <= k < order.len() && source.tile((#[trigger] order[k]).0, order[k].1).covers(x, y);
        if tile.covers(x, y) {
            lemma_tile_pixel(source, last.0, last.1, x - tile.origin_x, y - tile.origin_y);
            assert(covered);
        } else if covered_before {
            let k = choose|k: int|
                0 <= k < front.len() && source.tile((#[trigger] front[k]).0, front[k].1).covers(
                    x,
                    y,
                );
            assert(order[k] == front[k]);
            assert(covered);
        } else if covered {
            let k = choose|k: int|
                0 <= k < order.len() && source.tile((#[trigger] order[k]).0, order[k].1).covers(
                    x,
                    y,
                );
            assert(k < front.len());
            assert(order[k] == front[k]);
            assert(false);
        }
    }
}

/// The assembled frame does not depend on the order in which the tiles
/// arrive: once every tile of `source` has been merged into a frame of the
/// same size, in whatever order and however often, the frame holds the
/// pixels of `source`.
pub proof fn lemma_assembled_in_any_order<T>(
    frame: FrameView<T>,
    source: FrameView<T>,
    order: Seq<(int, int)>,
)
    requires
        frame.valid(),
        source.valid(),
        frame.width == source.width,
        frame.height == source.height,
        lists_tiles(source, order),
        forall|i: int, j: int|
            0 <= i < source.tiles_in_row() && 0 <= j < source.tiles_in_col() ==> order.contains(
                (i, j),
            ),
    ensures
        merge_all(frame, source, order).pixels == source.pixels,
{
    let done = merge_all(frame, source, order);
    let w = frame.width as int;
    let h = frame.height as int;
    lemma_merge_all_pixel(frame, source, order, 0, 0);
    assert forall|k: int| 0 <= k < source.pixels.len() implies #[trigger] done.pixels[k]
        == source.pixels[k] by {
        lemma_index_in_grid(w, h, k);
        let x = k % w;
        let y = k / w;
        lemma_merge_all_pixel(frame, source, order, x, y);
        lemma_layout_partitions(source, x, y);
        let i = x / (source.tile_width as int);
        let j = y / (source.tile_height as int);
        assert(order.contains((i, j)));
        let m = choose|m: int| 0 <= m < order.len() && order[m] == (i, j);
        assert(source.tile(order[m].0, order[m].1).covers(x, y));
    }
    assert(done.pixels =~= source.pixels);
}

} // verus!
