//! Image tiles and their composition into a pyramid.
use vstd::arithmetic::div_mod::{lemma_fundamental_div_mod, lemma_fundamental_div_mod_converse};
use vstd::prelude::*;

verus! {

/// An RGB color.
#[derive(Clone, Copy, Debug, PartialEq, Eq, Structural)]
pub struct Rgb {
    pub red: u8,
    pub green: u8,
    pub blue: u8,
}

pub open spec fn white() -> Rgb {
    Rgb { red: 255, green: 255, blue: 255 }
}

/// A rectangular image, stored row by row from the top-left corner.
pub struct Tile {
    pub width: usize,
    pub height: usize,
    pub pixels: Vec<Rgb>,
}

impl Tile {
    pub open spec fn wf(&self) -> bool {
        self.pixels@.len() == self.width * self.height
    }

    /// The color at column `x` and row `y`.
    pub open spec fn pixel_spec(&self, x: int, y: int) -> Rgb {
        self.pixels@[y * self.width + x]
    }

    /// A tile of the given size filled with one color.
    pub fn from_pixel(width: usize, height: usize, color: Rgb) -> (r: Tile)
        requires
            width * height <= usize::MAX,
        ensures
            r.wf(),
            r.width == width,
            r.height == height,
            forall|k: int| 0 <= k < r.pixels@.len() ==> r.pixels@[k] == color,
    {
        let n = width * height;
        let mut pixels: Vec<Rgb> = Vec::new();
        let mut i: usize = 0;
        while i < n
            invariant
                i <= n,
                pixels@.len() == i,
                forall|k: int| 0 <= k < i ==> pixels@[k] == color,
            decreases n - i,
        {
            pixels.push(color);
            i = i + 1;
        }
        Tile { width, height, pixels }
    }

    pub fn get_pixel(&self, x: usize, y: usize) -> (r: Rgb)
        requires
            self.wf(),
            x < self.width,
            y < self.height,
        ensures
            r == self.pixel_spec(x as int, y as int),
    {
        proof {
            lemma_index_in_bounds(x as int, y as int, self.width as int, self.height as int);
        }
        let len = self.pixels.len();
        assert(y * self.width + x < len);
        self.pixels[y * self.width + x]
    }
}

/// Which child tile covers the quadrant at (`right`, `bottom`): world `x` runs to the right and
/// world `y` upwards, so child 1 is top-left, 0 bottom-left, 3 top-right and 2 bottom-right.
pub open spec fn quadrant_child(right: bool, bottom: bool) -> int {
    if !right && !bottom {
        1
    } else if !right && bottom {
        0
    } else if right && !bottom {
        3
    } else {
        2
    }
}

/// The color of pixel `(x, y)` of the parent of `children`, each of edge `n`.
pub open spec fn parent_pixel(children: Seq<Option<Tile>>, n: int, x: int, y: int) -> Rgb {
    match children[quadrant_child(x >= n, y >= n)] {
        Some(c) => c.pixel_spec(x % n, y % n),
        None => white(),
    }
}

/// The children of a parent tile: four slots, each empty or a square tile of edge `n`.
pub open spec fn valid_children(children: Seq<Option<Tile>>, n: int) -> bool {
    &&& children.len() == 4
    &&& forall|i: int|
        0 <= i < 4 ==> match #[trigger] children[i] {
            Some(c) => c.wf() && c.width == n && c.height == n,
            None => true,
        }
}

/// Composes four tiles of edge `child_size` into one of edge `2 * child_size`: child 1 goes to
/// the top-left, 0 to the bottom-left, 3 to the top-right and 2 to the bottom-right quadrant.
/// Missing children leave their quadrant white.
pub fn build_parent(children: &Vec<Option<Tile>>, child_size: usize) -> (r: Tile)
    requires
        valid_children(children@, child_size as int),
        child_size > 0,
        4 * child_size * child_size <= usize::MAX,
    ensures
        r.wf(),
        r.width == 2 * child_size,
        r.height == 2 * child_size,
        forall|x: int, y: int|
            0 <= x < 2 * child_size && 0 <= y < 2 * child_size ==> #[trigger] r.pixel_spec(x, y)
                == parent_pixel(children@, child_size as int, x, y),
{
    let n = child_size;
    assert(2 * n <= 4 * n * n) by (nonlinear_arith)
        requires
            n > 0,
    ;
    let size = 2 * n;
    assert(size * size == 4 * n * n) by (nonlinear_arith)
        requires
            size == 2 * n,
    ;
    let mut pixels: Vec<Rgb> = Vec::new();
    let mut y: usize = 0;
    while y < size
        invariant
            y <= size,
            size == 2 * n,
            n > 0,
            size * size <= usize::MAX,
            valid_children(children@, n as int),
            pixels@.len() == y * size,
            forall|k: int|
                0 <= k < pixels@.len() ==> #[trigger] pixels@[k] == parent_pixel(
                    children@,
                    n as int,
                    k % (size as int),
                    k / (size as int),
                ),
        decreases size - y,
    {
        let mut x: usize = 0;
        while x < size
            invariant
                x <= size,
                y < size,
                size == 2 * n,
                n > 0,
                size * size <= usize::MAX,
                valid_children(children@, n as int),
                pixels@.len() == y * size + x,
                forall|k: int|
                    0 <= k < pixels@.len() ==> #[trigger] pixels@[k] == parent_pixel(
                        children@,
                        n as int,
                        k % (size as int),
                        k / (size as int),
                    ),
            decreases size - x,
        {
            let slot: usize = if x < n {
                if y < n {
                    1
                } else {
                    0
                }
            } else {
                if y < n {
                    3
                } else {
                    2
                }
            };
            assert(children@[slot as int] == children@[quadrant_child(x >= n, y >= n)]);
            let color = match &children[slot] {
                Some(c) => {
                    proof {
                        lemma_sub_mod(x as int, n as int);
                        lemma_sub_mod(y as int, n as int);
                    }
                    c.get_pixel(x % n, y % n)
                },
                None => Rgb { red: 255, green: 255, blue: 255 },
            };
            proof {
                lemma_row_major(x as int, y as int, size as int);
                assert(y * size + x < size * size) by (nonlinear_arith)
                    requires
                        x < size,
                        y < size,
                ;
            }
            pixels.push(color);
            x = x + 1;
        }
        assert((y + 1) * size == y * size + size) by (nonlinear_arith);
        y = y + 1;
    }
    let r = Tile { width: size, height: size, pixels };
    assert forall|x: int, y: int|
        0 <= x < 2 * child_size && 0 <= y < 2 * child_size implies #[trigger] r.pixel_spec(x, y)
        == parent_pixel(children@, child_size as int, x, y) by {
        lemma_row_major(x, y, size as int);
        lemma_index_in_bounds(x, y, size as int, size as int);
    }
    r
}

/// A parent built without any child is white everywhere.
pub proof fn lemma_parent_of_no_children_is_white(children: Seq<Option<Tile>>, n: int)
    requires
        children.len() == 4,
        forall|i: int| 0 <= i < 4 ==> #[trigger] children[i] is None,
    ensures
        forall|x: int, y: int|
            0 <= x < 2 * n && 0 <= y < 2 * n ==> #[trigger] parent_pixel(children, n, x, y)
                == white(),
{
    assert forall|x: int, y: int| 0 <= x < 2 * n && 0 <= y < 2 * n implies #[trigger] parent_pixel(
        children,
        n,
        x,
        y,
    ) == white() by {
        let i = quadrant_child(x >= n, y >= n);
        assert(children[i] is None);
    }
}

proof fn lemma_sub_mod(x: int, n: int)
    requires
        0 <= x < 2 * n,
        n > 0,
    ensures
        0 <= x % n < n,
{
}

/// The index `y * w + x` of a pixel with `x < w` maps back to `x` and `y`.
proof fn lemma_row_major(x: int, y: int, w: int)
    requires
        0 <= x < w,
        0 <= y,
    ensures
        (y * w + x) % w == x,
        (y * w + x) / w == y,
{
    lemma_fundamental_div_mod_converse(y * w + x, w, y, x);
}

proof fn lemma_index_in_bounds(x: int, y: int, w: int, h: int)
    requires
        0 <= x < w,
        0 <= y < h,
    ensures
        0 <= y * w + x < w * h,
{
    assert(0 <= y * w + x < w * h) by (nonlinear_arith)
        requires
            0 <= x < w,
            0 <= y < h,
    ;
}

} // verus!
