use vstd::prelude::*;

use crate::cell::Cell;
use crate::state::State;

verus! {

/// Pixels between the window's edge and the board.
pub const MARGIN: usize = 32;

/// A grid of `width` x `height` pixels, stored row by row, with the color that `clear`
/// paints and the color that drawing paints.
pub struct Framebuffer {
    pub width: usize,
    pub height: usize,
    pub buffer: Vec<u32>,
    pub background_color: u32,
    pub current_color: u32,
}

/// The square of `size` x `size` pixels whose top-left corner is `(x, y)` holds `(px, py)`.
pub open spec fn in_square(x: int, y: int, size: int, px: int, py: int) -> bool {
    x <= px < x + size && y <= py < y + size
}

/// The pixel coordinate where the square of a cell at coordinate `v` begins.
pub open spec fn corner(v: usize, cell_size: usize) -> int {
    v * cell_size + MARGIN
}

/// Pixel `(px, py)` lies in the square of one of `cells`.
pub open spec fn covered(cells: Set<Cell>, cell_size: usize, px: int, py: int) -> bool {
    exists|c: Cell|
        #[trigger] cells.contains(c) && in_square(
            corner(c.x, cell_size),
            corner(c.y, cell_size),
            cell_size as int,
            px,
            py,
        )
}

proof fn lemma_pixel_coords(i: int, w: int, h: int)
    requires
        0 <= i < w * h,
        0 <= w,
        0 <= h,
    ensures
        0 <= i % w < w,
        0 <= i / w < h,
        i == (i / w) * w + i % w,
{
    assert(w > 0) by (nonlinear_arith)
        requires
            0 <= i < w * h,
            0 <= w,
            0 <= h,
    ;
    vstd::arithmetic::div_mod::lemma_fundamental_div_mod(i, w);
    vstd::arithmetic::div_mod::lemma_mod_pos_bound(i, w);
    let q = i / w;
    let r = i % w;
    assert(q * w == w * q) by (nonlinear_arith);
    assert(0 <= q < h) by (nonlinear_arith)
        requires
            i == w * q + r,
            0 <= r < w,
            0 <= i < w * h,
            w > 0,
    ;
}

impl Framebuffer {
    /// The buffer holds one pixel for each position.
    pub open spec fn wf(&self) -> bool {
        self.buffer@.len() == self.width * self.height
    }

    /// Index `i` of the buffer is the pixel at `(px, py)`.
    pub open spec fn at(&self, i: int, px: int, py: int) -> bool {
        i % (self.width as int) == px && i / (self.width as int) == py
    }

    /// A grid filled with `background`, drawing in white.
    pub fn new(width: usize, height: usize, background: u32) -> (r: Framebuffer)
        requires
            width * height <= usize::MAX,
        ensures
            r.wf(),
            r.width == width,
            r.height == height,
            r.background_color == background,
            r.current_color == 0xFFFFFFu32,
            forall|i: int| 0 <= i < r.buffer@.len() ==> #[trigger] r.buffer@[i] == background,
    {
        let n: usize = width * height;
        let mut buffer: Vec<u32> = Vec::new();
        let mut i: usize = 0;
        while i < n
            invariant
                0 <= i <= n,
                buffer@.len() == i,
                forall|k: int| 0 <= k < i ==> #[trigger] buffer@[k] == background,
            decreases n - i,
        {
            buffer.push(background);
            i = i + 1;
        }
        Framebuffer { width, height, buffer, background_color: background, current_color: 0xFFFFFF }
    }

    /// Paints every pixel in the background color.
    pub fn clear(&mut self)
        requires
            old(self).wf(),
        ensures
            final(self).wf(),
            final(self).width == old(self).width,
            final(self).height == old(self).height,
            final(self).background_color == old(self).background_color,
            final(self).current_color == old(self).current_color,
            forall|i: int| 0 <= i < final(self).buffer@.len() ==> #[trigger] final(self).buffer@[i] == old(self).background_color,
    {
        let mut i: usize = 0;
        while i < self.buffer.len()
            invariant
                0 <= i <= self.buffer@.len(),
                self.buffer@.len() == old(self).buffer@.len(),
                self.width == old(self).width,
                self.height == old(self).height,
                self.background_color == old(self).background_color,
                self.current_color == old(self).current_color,
                forall|k: int| 0 <= k < i ==> #[trigger] self.buffer@[k] == self.background_color,
            decreases self.buffer@.len() - i,
        {
            let color = self.background_color;
            self.buffer.set(i, color);
            i = i + 1;
        }
    }

    /// Sets the color that `clear` paints.
    pub fn set_background_color(&mut self, color: u32)
        ensures
            final(self).background_color == color,
            final(self).width == old(self).width,
            final(self).height == old(self).height,
            final(self).buffer@ == old(self).buffer@,
            final(self).current_color == old(self).current_color,
    {
        self.background_color = color;
    }

    /// Sets the color that drawing paints, as `0xRRGGBB`.
    pub fn set_current_color_hex(&mut self, color: u32)
        ensures
            final(self).current_color == color,
            final(self).width == old(self).width,
            final(self).height == old(self).height,
            final(self).buffer@ == old(self).buffer@,
            final(self).background_color == old(self).background_color,
    {
        self.current_color = color;
    }

    /// Paints the pixel at `(x, y)` in the current color; a point off the grid is ignored.
    pub fn draw_point(&mut self, x: usize, y: usize)
        requires
            old(self).wf(),
        ensures
            final(self).wf(),
            final(self).width == old(self).width,
            final(self).height == old(self).height,
            final(self).background_color == old(self).background_color,
            final(self).current_color == old(self).current_color,
            forall|i: int|
                0 <= i < final(self).buffer@.len() ==> #[trigger] final(self).buffer@[i] == if x < old(self).width
                    && y < old(self).height && old(self).at(i, x as int, y as int) {
                    old(self).current_color
                } else {
                    old(self).buffer@[i]
                },
    {
        if x < self.width && y < self.height {
            let len = self.buffer.len();
            let ghost w = self.width as int;
            let ghost h = self.height as int;
            proof {
                assert(y * w + x < w * h) by (nonlinear_arith)
                    requires
                        0 <= x < w,
                        0 <= y < h,
                ;
                assert(y * w + x < len);
            }
            let index = y * self.width + x;
            let ghost before = self.buffer@;
            let color = self.current_color;
            self.buffer.set(index, color);
            assert forall|i: int| 0 <= i < self.buffer@.len() implies #[trigger] self.buffer@[i] == if old(self).at(
                i,
                x as int,
                y as int,
            ) {
                color
            } else {
                before[i]
            } by {
                lemma_pixel_coords(i, w, h);
                vstd::arithmetic::div_mod::lemma_fundamental_div_mod_converse(index as int, w, y as int, x as int);
                if old(self).at(i, x as int, y as int) {
                    assert(i == index);
                }
            }
        }
    }
}

/// Paints the `cell_size` x `cell_size` square whose top-left pixel is `(x, y)` in the current
/// color; the part of it off the grid is ignored.
pub fn draw_cell(framebuffer: &mut Framebuffer, x: usize, y: usize, cell_size: usize)
    requires
        old(framebuffer).wf(),
    ensures
        final(framebuffer).wf(),
        final(framebuffer).width == old(framebuffer).width,
        final(framebuffer).height == old(framebuffer).height,
        final(framebuffer).background_color == old(framebuffer).background_color,
        final(framebuffer).current_color == old(framebuffer).current_color,
        forall|i: int|
            0 <= i < final(framebuffer).buffer@.len() ==> #[trigger] final(framebuffer).buffer@[i] == if in_square(
                x as int,
                y as int,
                cell_size as int,
                i % (old(framebuffer).width as int),
                i / (old(framebuffer).width as int),
            ) {
                old(framebuffer).current_color
            } else {
                old(framebuffer).buffer@[i]
            },
{
    let ghost w = framebuffer.width as int;
    let ghost h = framebuffer.height as int;
    let ghost color = framebuffer.current_color;
    let ghost orig = framebuffer.buffer@;
    if x < framebuffer.width && y < framebuffer.height {
        let x_end: usize = if cell_size > framebuffer.width - x { framebuffer.width } else { x + cell_size };
        let y_end: usize = if cell_size > framebuffer.height - y { framebuffer.height } else { y + cell_size };
        let mut a: usize = x;
        while a < x_end
            invariant
                x <= a <= x_end <= w,
                y <= y_end <= h,
                framebuffer.wf(),
                framebuffer.width == w,
                framebuffer.height == h,
                framebuffer.background_color == old(framebuffer).background_color,
                framebuffer.current_color == color,
                framebuffer.buffer@.len() == orig.len(),
                forall|i: int|
                    0 <= i < orig.len() ==> #[trigger] framebuffer.buffer@[i] == if x <= i % w < a && y <= i / w
                        < y_end {
                        color
                    } else {
                        orig[i]
                    },
            decreases x_end - a,
        {
            let mut b: usize = y;
            while b < y_end
                invariant
                    x <= a < x_end <= w,
                    y <= b <= y_end <= h,
                    framebuffer.wf(),
                    framebuffer.width == w,
                    framebuffer.height == h,
                    framebuffer.background_color == old(framebuffer).background_color,
                    framebuffer.current_color == color,
                    framebuffer.buffer@.len() == orig.len(),
                    forall|i: int|
                        0 <= i < orig.len() ==> #[trigger] framebuffer.buffer@[i] == if (x <= i % w < a && y <= i
                            / w < y_end) || (i % w == a && y <= i / w < b) {
                            color
                        } else {
                            orig[i]
                        },
                decreases y_end - b,
            {
                framebuffer.draw_point(a, b);
                b = b + 1;
            }
            a = a + 1;
        }
        assert forall|i: int| 0 <= i < orig.len() implies (x <= i % w < x_end && y <= i / w < y_end) == #[trigger] in_square(
            x as int,
            y as int,
            cell_size as int,
            i % w,
            i / w,
        ) by {
            lemma_pixel_coords(i, w, h);
        }
    } else {
        assert forall|i: int| 0 <= i < orig.len() implies !#[trigger] in_square(
            x as int,
            y as int,
            cell_size as int,
            i % w,
            i / w,
        ) by {
            lemma_pixel_coords(i, w, h);
        }
    }
}

/// Pixel `(px, py)` lies in the square of one of the first `j` of `cells`.
pub open spec fn covered_by_first(cells: Seq<Cell>, j: int, cell_size: usize, px: int, py: int) -> bool {
    exists|k: int|
        0 <= k < j && #[trigger] in_square(
            corner(cells[k].x, cell_size),
            corner(cells[k].y, cell_size),
            cell_size as int,
            px,
            py,
        )
}

/// Paints, in the current color, a `cell_size` x `cell_size` square for each live cell,
/// at `(x * cell_size + MARGIN, y * cell_size + MARGIN)`; every other pixel keeps its color.
pub fn render(framebuffer: &mut Framebuffer, state: &mut State, cell_size: usize)
    requires
        old(framebuffer).wf(),
    ensures
        *final(state) == *old(state),
        final(framebuffer).wf(),
        final(framebuffer).width == old(framebuffer).width,
        final(framebuffer).height == old(framebuffer).height,
        final(framebuffer).background_color == old(framebuffer).background_color,
        final(framebuffer).current_color == old(framebuffer).current_color,
        forall|i: int|
            0 <= i < final(framebuffer).buffer@.len() ==> #[trigger] final(framebuffer).buffer@[i] == if covered(
                old(state).live(),
                cell_size,
                i % (old(framebuffer).width as int),
                i / (old(framebuffer).width as int),
            ) {
                old(framebuffer).current_color
            } else {
                old(framebuffer).buffer@[i]
            },
{
    let ghost w = framebuffer.width as int;
    let ghost h = framebuffer.height as int;
    let ghost color = framebuffer.current_color;
    let ghost orig = framebuffer.buffer@;
    let ghost cells = state.living_cells@;
    let mut j: usize = 0;
    while j < state.living_cells.len()
        invariant
            0 <= j <= cells.len(),
            *state == *old(state),
            cells == state.living_cells@,
            framebuffer.wf(),
            framebuffer.width == w,
            framebuffer.height == h,
            framebuffer.background_color == old(framebuffer).background_color,
            framebuffer.current_color == color,
            framebuffer.buffer@.len() == orig.len(),
            orig.len() == w * h,
            forall|i: int|
                0 <= i < orig.len() ==> #[trigger] framebuffer.buffer@[i] == if covered_by_first(
                    cells,
                    j as int,
                    cell_size,
                    i % w,
                    i / w,
                ) {
                    color
                } else {
                    orig[i]
                },
        decreases cells.len() - j,
    {
        let cell = state.living_cells[j];
        let corners = match (cell.x.checked_mul(cell_size), cell.y.checked_mul(cell_size)) {
            (Some(a), Some(b)) => match (a.checked_add(MARGIN), b.checked_add(MARGIN)) {
                (Some(cx), Some(cy)) => Some((cx, cy)),
                _ => None,
            },
            _ => None,
        };
        let ghost before = framebuffer.buffer@;
        match corners {
            Some((cx, cy)) => {
                draw_cell(framebuffer, cx, cy, cell_size);
            },
            None => {},
        }
        assert forall|i: int| 0 <= i < orig.len() implies #[trigger] framebuffer.buffer@[i] == if covered_by_first(
            cells,
            j + 1,
            cell_size,
            i % w,
            i / w,
        ) {
            color
        } else {
            orig[i]
        } by {
            lemma_pixel_coords(i, w, h);
            let sq = in_square(corner(cell.x, cell_size), corner(cell.y, cell_size), cell_size as int, i % w, i / w);
            if corners is None {
                assert(cell.x * cell_size + MARGIN > usize::MAX || cell.y * cell_size + MARGIN > usize::MAX);
                assert(!sq);
            }
            if covered_by_first(cells, j + 1, cell_size, i % w, i / w) && !sq {
                let k = choose|k: int|
                    0 <= k < j + 1 && #[trigger] in_square(
                        corner(cells[k].x, cell_size),
                        corner(cells[k].y, cell_size),
                        cell_size as int,
                        i % w,
                        i / w,
                    );
                assert(k < j);
            }
            if sq {
                assert(cells[j as int] == cell);
            }
        }
        j = j + 1;
    }
    assert forall|i: int| 0 <= i < orig.len() implies covered_by_first(cells, cells.len() as int, cell_size, i % w, i / w)
        == #[trigger] covered(state.live(), cell_size, i % w, i / w) by {
        if covered_by_first(cells, cells.len() as int, cell_size, i % w, i / w) {
            let k = choose|k: int|
                0 <= k < cells.len() && #[trigger] in_square(
                    corner(cells[k].x, cell_size),
                    corner(cells[k].y, cell_size),
                    cell_size as int,
                    i % w,
                    i / w,
                );
            assert(state.live().contains(cells[k]));
        }
        if covered(state.live(), cell_size, i % w, i / w) {
            let c = choose|c: Cell|
                #[trigger] state.live().contains(c) && in_square(
                    corner(c.x, cell_size),
                    corner(c.y, cell_size),
                    cell_size as int,
                    i % w,
                    i / w,
                );
            let k = choose|k: int| 0 <= k < cells.len() && cells[k] == c;
            assert(in_square(
                corner(cells[k].x, cell_size),
                corner(cells[k].y, cell_size),
                cell_size as int,
                i % w,
                i / w,
            ));
        }
    }
}

} // verus!
