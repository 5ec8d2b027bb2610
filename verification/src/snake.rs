use vstd::prelude::*;
use crate::color::Color;
use crate::framebuffer::{Framebuffer, in_rect};

verus! {

/// One of the four directions the creature can face.
#[derive(Clone, Copy, PartialEq, Eq, Structural, Debug)]
pub enum Direction {
    Up,
    Down,
    Left,
    Right,
}

/// The 180-degree opposite of a direction.
pub open spec fn opposite(d: Direction) -> Direction {
    match d {
        Direction::Up => Direction::Down,
        Direction::Down => Direction::Up,
        Direction::Left => Direction::Right,
        Direction::Right => Direction::Left,
    }
}

/// The cell one grid step from `head` in direction `d`, over unbounded
/// integers. Grid coordinates are signed, so stepping over the low edge
/// goes negative instead of wrapping.
pub open spec fn step_cell(head: (i32, i32), d: Direction) -> (int, int) {
    match d {
        Direction::Up => (head.0 as int, head.1 - 1),
        Direction::Down => (head.0 as int, head.1 + 1),
        Direction::Left => (head.0 - 1, head.1 as int),
        Direction::Right => (head.0 + 1, head.1 as int),
    }
}

/// The body after one advance: the stepped head is prepended, and unless
/// growth was pending the old tail cell is dropped.
pub open spec fn moved_body(body: Seq<(i32, i32)>, d: Direction, grow: bool) -> Seq<(i32, i32)> {
    let h = step_cell(body[0], d);
    let grown = body.insert(0, (h.0 as i32, h.1 as i32));
    if grow {
        grown
    } else {
        grown.drop_last()
    }
}

/// Advancing a creature without pending growth keeps its body length;
/// advancing with growth pending lengthens the body by exactly one cell
/// and keeps the old tail cell as the new tail.
pub proof fn lemma_advance_length(body: Seq<(i32, i32)>, d: Direction, grow: bool)
    requires
        body.len() >= 1,
    ensures
        !grow ==> moved_body(body, d, grow).len() == body.len(),
        grow ==> moved_body(body, d, grow).len() == body.len() + 1,
        grow ==> moved_body(body, d, grow).last() == body.last(),
{
    let h = step_cell(body[0], d);
    let grown = body.insert(0, ((h.0 as i32), (h.1 as i32)));
    assert(grown.len() == body.len() + 1);
    if grow {
        assert(grown.last() == grown[body.len() as int]);
        assert(grown[body.len() as int] == body[body.len() - 1]);
    }
}

/// The player-controlled creature: an ordered body of grid cells with the
/// head first, the direction it faces, a pending-growth flag and the color
/// it is drawn in.
pub struct Snake {
    pub body: Vec<(i32, i32)>,
    pub direction: Direction,
    pub grow: bool,
    pub color: Color,
}

/// The head cell equals some other body cell.
pub open spec fn self_collides(body: Seq<(i32, i32)>) -> bool {
    exists|i: int| 1 <= i < body.len() && #[trigger] body[i] == body[0]
}

/// The cell-size rectangle of grid cell `c` covers pixel `(px, py)`. Cells
/// with a negative coordinate lie outside the pixel grid and cover nothing.
pub open spec fn cell_covers(c: (i32, i32), grid_size: int, px: int, py: int) -> bool {
    c.0 >= 0 && c.1 >= 0 && in_rect(c.0 * grid_size, c.1 * grid_size, grid_size, grid_size, px, py)
}

/// Some cell of `body` covers pixel `(px, py)` at the given cell size.
pub open spec fn body_covers(body: Seq<(i32, i32)>, grid_size: int, px: int, py: int) -> bool {
    exists|i: int| 0 <= i < body.len() && #[trigger] cell_covers(body[i], grid_size, px, py)
}

impl Snake {
    /// The body always holds at least the head cell.
    pub open spec fn wf(self) -> bool {
        self.body@.len() >= 1
    }

    /// The direction the creature currently faces.
    pub open spec fn spec_direction(self) -> Direction {
        self.direction
    }

    /// Whether a growth request is pending for the next advance.
    pub open spec fn grow_pending(self) -> bool {
        self.grow
    }

    /// The color the creature is drawn in.
    pub open spec fn spec_color(self) -> Color {
        self.color
    }

    /// A fresh creature: three cells in a row at `(start_x, start_y)` going
    /// left, facing right, with no growth pending.
    pub fn new(start_x: i32, start_y: i32, color: Color) -> (s: Snake)
        requires
            start_x - 2 >= i32::MIN,
        ensures
            s.wf(),
            s.body@ == seq![
                (start_x, start_y),
                ((start_x - 1) as i32, start_y),
                ((start_x - 2) as i32, start_y),
            ],
            s.spec_direction() == Direction::Right,
            !s.grow_pending(),
            s.spec_color() == color,
    {
        let mut body: Vec<(i32, i32)> = Vec::new();
        body.push((start_x, start_y));
        body.push((start_x - 1, start_y));
        body.push((start_x - 2, start_y));
        proof {
            assert(body@ =~= seq![
                (start_x, start_y),
                ((start_x - 1) as i32, start_y),
                ((start_x - 2) as i32, start_y),
            ]);
        }
        Snake { body, direction: Direction::Right, grow: false, color }
    }

    /// Overwrite the direction unconditionally; rejecting a reversal is the
    /// caller's rule, stated by `requested_direction` in the game module.
    pub fn set_direction(&mut self, direction: Direction)
        ensures
            final(self).spec_direction() == direction,
            final(self).body == old(self).body,
            final(self).grow_pending() == old(self).grow_pending(),
            final(self).spec_color() == old(self).spec_color(),
    {
        self.direction = direction;
    }

    /// Advance one grid step: prepend the stepped head and, unless growth
    /// was pending, drop the tail; a pending growth is consumed.
    pub fn move_forward(&mut self)
        requires
            old(self).wf(),
            i32::MIN <= step_cell(old(self).body@[0], old(self).spec_direction()).0 <= i32::MAX,
            i32::MIN <= step_cell(old(self).body@[0], old(self).spec_direction()).1 <= i32::MAX,
        ensures
            final(self).wf(),
            final(self).body@ == moved_body(
                old(self).body@,
                old(self).spec_direction(),
                old(self).grow_pending(),
            ),
            final(self).body@.len() == old(self).body@.len() + (if old(self).grow_pending() {
                1int
            } else {
                0int
            }),
            final(self).spec_direction() == old(self).spec_direction(),
            !final(self).grow_pending(),
            final(self).spec_color() == old(self).spec_color(),
    {
        let head = self.body[0];
        let new_head = match self.direction {
            Direction::Up => (head.0, head.1 - 1),
            Direction::Down => (head.0, head.1 + 1),
            Direction::Left => (head.0 - 1, head.1),
            Direction::Right => (head.0 + 1, head.1),
        };
        self.body.insert(0, new_head);
        if !self.grow {
            self.body.pop();
            proof {
                assert(self.body@ =~= moved_body(
                    old(self).body@,
                    old(self).spec_direction(),
                    old(self).grow_pending(),
                ));
            }
        } else {
            self.grow = false;
        }
    }

    /// Request growth; it takes effect on the next advance.
    pub fn grow(&mut self)
        ensures
            final(self).grow_pending(),
            final(self).body == old(self).body,
            final(self).spec_direction() == old(self).spec_direction(),
            final(self).spec_color() == old(self).spec_color(),
    {
        self.grow = true;
    }

    /// The head cell.
    pub fn head_position(&self) -> (h: (i32, i32))
        requires
            self.wf(),
        ensures
            h == self.body@[0],
    {
        self.body[0]
    }

    /// True exactly when the head cell equals some other body cell.
    pub fn check_collision(&self) -> (r: bool)
        requires
            self.wf(),
        ensures
            r == self_collides(self.body@),
    {
        let head = self.body[0];
        let n = self.body.len();
        let mut i: usize = 1;
        while i < n
            invariant
                1 <= i <= n,
                n == self.body@.len(),
                n >= 1,
                head == self.body@[0],
                forall|k: int| 1 <= k < i ==> #[trigger] self.body@[k] != self.body@[0],
            decreases n - i,
        {
            let c = self.body[i];
            if c.0 == head.0 && c.1 == head.1 {
                return true;
            }
            i = i + 1;
        }
        false
    }

    /// Fill one cell-size rectangle per body cell, clipped to the buffer:
    /// every pixel under some body cell takes the creature's color and every
    /// other pixel is untouched.
    pub fn draw(&self, framebuffer: &mut Framebuffer, grid_size: usize)
        requires
            self.wf(),
            old(framebuffer).wf(),
        ensures
            final(framebuffer).wf(),
            final(framebuffer).same_config(*old(framebuffer)),
            final(framebuffer).buffer@.len() == old(framebuffer).buffer@.len(),
            forall|px: int, py: int|
                old(framebuffer).in_bounds(px, py) ==> final(framebuffer).pixel(px, py) == (
                if body_covers(self.body@, grid_size as int, px, py) {
                    self.spec_color()
                } else {
                    old(framebuffer).pixel(px, py)
                }),
    {
        let n = self.body.len();
        let mut i: usize = 0;
        while i < n
            invariant
                i <= n,
                n == self.body@.len(),
                n >= 1,
                framebuffer.wf(),
                framebuffer.same_config(*old(framebuffer)),
                framebuffer.buffer@.len() == old(framebuffer).buffer@.len(),
                forall|px: int, py: int|
                    old(framebuffer).in_bounds(px, py) ==> framebuffer.pixel(px, py) == (
                    if body_covers(self.body@.take(i as int), grid_size as int, px, py) {
                        self.spec_color()
                    } else {
                        old(framebuffer).pixel(px, py)
                    }),
            decreases n - i,
        {
            let c = self.body[i];
            let ghost pre = *framebuffer;
            if c.0 >= 0 && c.1 >= 0 {
                let xs = (c.0 as usize).checked_mul(grid_size);
                let ys = (c.1 as usize).checked_mul(grid_size);
                if let (Some(xp), Some(yp)) = (xs, ys) {
                    let rw = if grid_size <= usize::MAX - xp {
                        grid_size
                    } else {
                        usize::MAX - xp
                    };
                    let rh = if grid_size <= usize::MAX - yp {
                        grid_size
                    } else {
                        usize::MAX - yp
                    };
                    framebuffer.draw_rectangle(xp, yp, rw, rh, self.color);
                    proof {
                        assert forall|px: int, py: int| old(framebuffer).in_bounds(px, py) implies
                            in_rect(xp as int, yp as int, rw as int, rh as int, px, py)
                            == cell_covers(self.body@[i as int], grid_size as int, px, py) by {
                            assert(xp == c.0 as int * grid_size);
                            assert(yp == c.1 as int * grid_size);
                        }
                    }
                } else {
                    proof {
                        assert forall|px: int, py: int| old(framebuffer).in_bounds(px, py) implies
                            !cell_covers(self.body@[i as int], grid_size as int, px, py) by {
                            assert(c.0 as int * grid_size > usize::MAX || c.1 as int * grid_size
                                > usize::MAX);
                        }
                    }
                }
            }
            proof {
                lemma_draw_cell_step(
                    pre,
                    *framebuffer,
                    *old(framebuffer),
                    self.body@,
                    i as int,
                    grid_size as int,
                    self.spec_color(),
                );
            }
            i = i + 1;
        }
        proof {
            assert(self.body@.take(n as int) =~= self.body@);
        }
    }

    /// The direction the creature faces.
    pub fn direction(&self) -> (d: Direction)
        ensures
            d == self.spec_direction(),
    {
        self.direction
    }
}

/// After the cell at index `i` has been painted (or rightly skipped because
/// it covers no in-bounds pixel), the painted region grows from the first
/// `i` cells to the first `i + 1`.
proof fn lemma_draw_cell_step(
    pre: Framebuffer,
    post: Framebuffer,
    orig: Framebuffer,
    body: Seq<(i32, i32)>,
    i: int,
    grid_size: int,
    color: Color,
    )
    requires
        0 <= i < body.len(),
        pre.wf(),
        post.width == pre.width,
        post.height == pre.height,
        forall|px: int, py: int|
            orig.in_bounds(px, py) ==> pre.pixel(px, py) == (if body_covers(
                body.take(i),
                grid_size,
                px,
                py,
            ) {
                color
            } else {
                orig.pixel(px, py)
            }),
        forall|px: int, py: int|
            orig.in_bounds(px, py) ==> post.pixel(px, py) == (if cell_covers(
                body[i],
                grid_size,
                px,
                py,
            ) {
                color
            } else {
                pre.pixel(px, py)
            }),
    ensures
        forall|px: int, py: int|
            orig.in_bounds(px, py) ==> post.pixel(px, py) == (if body_covers(
                body.take(i + 1),
                grid_size,
                px,
                py,
            ) {
                color
            } else {
                orig.pixel(px, py)
            }),
{
    assert forall|px: int, py: int| orig.in_bounds(px, py) implies post.pixel(px, py) == (
    if body_covers(body.take(i + 1), grid_size, px, py) {
        color
    } else {
        orig.pixel(px, py)
    }) by {
        if body_covers(body.take(i + 1), grid_size, px, py) {
            let k = choose|k: int|
                0 <= k < body.take(i + 1).len() && #[trigger] cell_covers(
                    body.take(i + 1)[k],
                    grid_size,
                    px,
                    py,
                );
            if k < i {
                assert(body.take(i)[k] == body.take(i + 1)[k]);
                assert(cell_covers(body.take(i)[k], grid_size, px, py));
                assert(body_covers(body.take(i), grid_size, px, py));
            } else {
                assert(body.take(i + 1)[i] == body[i]);
                assert(cell_covers(body[i], grid_size, px, py));
            }
        } else {
            assert(body.take(i + 1)[i] == body[i]);
            assert(!cell_covers(body.take(i + 1)[i], grid_size, px, py));
            assert(!body_covers(body.take(i), grid_size, px, py)) by {
                if body_covers(body.take(i), grid_size, px, py) {
                    let k = choose|k: int|
                        0 <= k < body.take(i).len() && #[trigger] cell_covers(
                            body.take(i)[k],
                            grid_size,
                            px,
                            py,
                        );
                    assert(cell_covers(body.take(i + 1)[k], grid_size, px, py));
                }
            }
        }
    }
}

} // verus!
