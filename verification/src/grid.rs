//! Neighbourhood walking on a rectangular grid.

use vstd::prelude::*;

verus! {

/// The four axis directions, in the order they are visited.
pub open spec fn dir4(k: int) -> (int, int) {
    if k == 0 {
        (0, 1)
    } else if k == 1 {
        (1, 0)
    } else if k == 2 {
        (0, -1)
    } else {
        (-1, 0)
    }
}

/// Direction `k` leads from `(y, x)` to a cell of the `h` by `w` grid.
pub open spec fn dir4_ok(y: int, x: int, h: int, w: int, k: int) -> bool {
    0 <= y + dir4(k).0 < h && 0 <= x + dir4(k).1 < w
}

/// The first direction index at or after `k` that stays on the grid, or
/// `4` if none does.
pub open spec fn next_dir4(y: int, x: int, h: int, w: int, k: int) -> int
    decreases 4 - k,
{
    if k >= 4 {
        4
    } else if dir4_ok(y, x, h, w, k) {
        k
    } else {
        next_dir4(y, x, h, w, k + 1)
    }
}

/// Returns the cell one step from `(y, x)` in direction `(dy, dx)`, or
/// `None` when the step leaves the `h` by `w` grid.
pub fn try_adj(y: usize, x: usize, dy: isize, dx: isize, h: usize, w: usize) -> (r: Option<
    (usize, usize),
>)
    requires
        y <= isize::MAX,
        x <= isize::MAX,
        y + dy <= isize::MAX,
        x + dx <= isize::MAX,
    ensures
        r == (if 0 <= y + dy < h && 0 <= x + dx < w {
            Some(((y + dy) as usize, (x + dx) as usize))
        } else {
            Option::<(usize, usize)>::None
        }),
{
    let ny = y as isize + dy;
    let nx = x as isize + dx;
    if ny >= 0 && nx >= 0 {
        let ny = ny as usize;
        let nx = nx as usize;
        if ny < h && nx < w {
            Some((ny, nx))
        } else {
            None
        }
    } else {
        None
    }
}

/// Iterator state over the up-to-four axis neighbours of a grid cell.
pub struct Adj4 {
    /// Row of the centre cell.
    pub y: usize,
    /// Column of the centre cell.
    pub x: usize,
    /// Number of rows of the grid.
    pub h: usize,
    /// Number of columns of the grid.
    pub w: usize,
    /// Next direction index to try.
    pub r: usize,
}

impl Adj4 {
    /// Hands out the next in-grid axis neighbour, or `None` when all four
    /// directions are exhausted.
    pub fn next(&mut self) -> (res: Option<(usize, usize)>)
        requires
            old(self).y + 1 <= isize::MAX,
            old(self).x + 1 <= isize::MAX,
        ensures
            final(self).y == old(self).y,
            final(self).x == old(self).x,
            final(self).h == old(self).h,
            final(self).w == old(self).w,
            ({
                let k = next_dir4(
                    old(self).y as int,
                    old(self).x as int,
                    old(self).h as int,
                    old(self).w as int,
                    old(self).r as int,
                );
                if k < 4 {
                    &&& res == Some(
                        (
                            (old(self).y + dir4(k).0) as usize,
                            (old(self).x + dir4(k).1) as usize,
                        ),
                    )
                    &&& final(self).r == k + 1
                } else {
                    &&& res == Option::<(usize, usize)>::None
                    &&& final(self).r == (if old(self).r >= 4 {
                        old(self).r as int
                    } else {
                        4
                    })
                }
            }),
    {
        while self.r < 4
            invariant
                self.y == old(self).y,
                self.x == old(self).x,
                self.h == old(self).h,
                self.w == old(self).w,
                old(self).r <= self.r,
                old(self).r < 4 ==> self.r <= 4,
                old(self).r >= 4 ==> self.r == old(self).r,
                self.y + 1 <= isize::MAX,
                self.x + 1 <= isize::MAX,
                next_dir4(
                    self.y as int,
                    self.x as int,
                    self.h as int,
                    self.w as int,
                    old(self).r as int,
                ) == next_dir4(self.y as int, self.x as int, self.h as int, self.w as int, self.r as int),
            decreases 4 - self.r,
        {
            let dy: isize;
            let dx: isize;
            match self.r {
                0 => {
                    dy = 0;
                    dx = 1;
                },
                1 => {
                    dy = 1;
                    dx = 0;
                },
                2 => {
                    dy = 0;
                    dx = -1;
                },
                _ => {
                    dy = -1;
                    dx = 0;
                },
            }
            self.r = self.r + 1;
            let step = try_adj(self.y, self.x, dy, dx, self.h, self.w);
            if step.is_some() {
                return step;
            }
        }
        None
    }
}

/// Starts walking the axis neighbours of `(y, x)` on an `h` by `w` grid.
pub fn adj4_iter(y: usize, x: usize, h: usize, w: usize) -> (it: Adj4)
    ensures
        it.y == y,
        it.x == x,
        it.h == h,
        it.w == w,
        it.r == 0,
{
    Adj4 { y, x, h, w, r: 0 }
}

} // verus!
