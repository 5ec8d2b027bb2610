use vstd::prelude::*;
use rand::Rng;
use crate::color::Color;
use crate::framebuffer::{Framebuffer, in_rect};
use crate::snake::{Snake, Direction, opposite, moved_body, self_collides};

verus! {

/// The direction the creature faces after one tick's input handling: keys
/// are tried in the fixed priority order up, down, left, right; the first
/// held key whose direction is not the exact reverse of the current one
/// wins, and otherwise the direction stays as it is.
pub open spec fn requested_direction(
    cur: Direction,
    up: bool,
    down: bool,
    left: bool,
    right: bool,
) -> Direction {
    if up && cur != Direction::Down {
        Direction::Up
    } else if down && cur != Direction::Up {
        Direction::Down
    } else if left && cur != Direction::Right {
        Direction::Left
    } else if right && cur != Direction::Left {
        Direction::Right
    } else {
        cur
    }
}

/// The reversal rule: whatever keys are held, the direction chosen for the
/// next tick is never the exact reverse of the current one, so a 180-degree
/// turn into the creature's own neck can never be requested.
pub proof fn lemma_no_reversal(cur: Direction, up: bool, down: bool, left: bool, right: bool)
    ensures
        requested_direction(cur, up, down, left, right) != opposite(cur),
{
}

/// Apply one tick's directional input to the creature, honoring at most one
/// direction change, in priority order, and rejecting exact reversals.
pub fn apply_direction_input(snake: &mut Snake, up: bool, down: bool, left: bool, right: bool)
    ensures
        final(snake).spec_direction() == requested_direction(
            old(snake).spec_direction(),
            up,
            down,
            left,
            right,
        ),
        final(snake).body == old(snake).body,
        final(snake).grow_pending() == old(snake).grow_pending(),
        final(snake).spec_color() == old(snake).spec_color(),
{
    if up && snake.direction() != Direction::Down {
        snake.set_direction(Direction::Up);
    } else if down && snake.direction() != Direction::Up {
        snake.set_direction(Direction::Down);
    } else if left && snake.direction() != Direction::Right {
        snake.set_direction(Direction::Left);
    } else if right && snake.direction() != Direction::Left {
        snake.set_direction(Direction::Right);
    }
}

/// Relies on rand's `Rng::gen_range` on the thread-local generator: for a
/// non-empty half-open range it returns a sample inside the range; it panics
/// only on an empty range, which the precondition rules out.
#[verifier::external_body]
fn random_in_range(lo: i32, hi: i32) -> (r: i32)
    requires
        lo < hi,
    ensures
        lo <= r < hi,
{
    rand::thread_rng().gen_range(lo..hi)
}

/// True exactly when `(x, y)` is one of the body's cells.
fn contains_cell(body: &Vec<(i32, i32)>, x: i32, y: i32) -> (r: bool)
    ensures
        r == body@.contains((x, y)),
{
    let n = body.len();
    let mut i: usize = 0;
    while i < n
        invariant
            i <= n,
            n == body@.len(),
            forall|k: int| 0 <= k < i ==> #[trigger] body@[k] != (x, y),
        decreases n - i,
    {
        let c = body[i];
        if c.0 == x && c.1 == y {
            assert(body@[i as int] == (x, y));
            return true;
        }
        i = i + 1;
    }
    assert(!body@.contains((x, y)));
    false
}

/// Pick a cell for a new food item: strictly inside the border and not on
/// any creature body cell. A few uniformly random draws are tried first;
/// if they all land on the creature, the interior is swept for a free cell.
/// `None` comes back only when every interior cell is occupied.
pub fn spawn_apple(snake: &Snake, width: i32, height: i32) -> (r: Option<(i32, i32)>)
    requires
        width >= 3,
        height >= 3,
    ensures
        match r {
            Some(c) => 1 <= c.0 < width - 1 && 1 <= c.1 < height - 1 && !snake.body@.contains(c),
            None => forall|cx: i32, cy: i32|
                1 <= cx < width - 1 && 1 <= cy < height - 1 ==> #[trigger] snake.body@.contains(
                    (cx, cy),
                ),
        },
{
    let mut attempts: u32 = 0;
    while attempts < 64
        invariant
            width >= 3,
            height >= 3,
        decreases 64 - attempts,
    {
        let x = random_in_range(1, width - 1);
        let y = random_in_range(1, height - 1);
        if !contains_cell(&snake.body, x, y) {
            return Some((x, y));
        }
        attempts = attempts + 1;
    }
    let mut x: i32 = 1;
    while x < width - 1
        invariant
            width >= 3,
            height >= 3,
            1 <= x <= width - 1,
            forall|cx: i32, cy: i32|
                1 <= cx < x && 1 <= cy < height - 1 ==> #[trigger] snake.body@.contains((cx, cy)),
        decreases width - 1 - x,
    {
        let mut y: i32 = 1;
        while y < height - 1
            invariant
                width >= 3,
                height >= 3,
                1 <= x < width - 1,
                1 <= y <= height - 1,
                forall|cx: i32, cy: i32|
                    1 <= cx < x && 1 <= cy < height - 1 ==> #[trigger] snake.body@.contains(
                        (cx, cy),
                    ),
                forall|cy: i32|
                    1 <= cy < y ==> #[trigger] snake.body@.contains((x, cy)),
            decreases height - 1 - y,
        {
            if !contains_cell(&snake.body, x, y) {
                return Some((x, y));
            }
            y = y + 1;
        }
        x = x + 1;
    }
    None
}

/// The color the static backdrop gives to grid cell `(cx, cy)` of an arena
/// of `nx` by `ny` cells: the outermost ring is the border color and the
/// interior is a two-color checker pattern.
pub open spec fn backdrop_cell_color(cx: int, cy: int, nx: int, ny: int) -> Color {
    if cx == 0 || cx == nx - 1 || cy == 0 || cy == ny - 1 {
        Color { r: 144, g: 12, b: 63 }
    } else if (cx + cy) % 2 == 0 {
        Color { r: 230, g: 176, b: 170 }
    } else {
        Color { r: 215, g: 189, b: 226 }
    }
}

/// For a positive cell size, a point lies in the cell-size square of cell
/// `(cx, cy)` exactly when its coordinates divide down to that cell.
proof fn lemma_cell_rect(g: int, cx: int, cy: int, px: int, py: int)
    requires
        g > 0,
        cx >= 0,
        cy >= 0,
        px >= 0,
        py >= 0,
    ensures
        in_rect(cx * g, cy * g, g, g, px, py) <==> (px / g == cx && py / g == cy),
{
    assert((cx * g <= px < cx * g + g) <==> px / g == cx) by (nonlinear_arith)
        requires
            g > 0,
            cx >= 0,
            px >= 0,
    ;
    assert((cy * g <= py < cy * g + g) <==> py / g == cy) by (nonlinear_arith)
        requires
            g > 0,
            cy >= 0,
            py >= 0,
    ;
}

/// For a positive cell size, a point is short of cell column `c` exactly
/// when it is short of that column's first pixel.
proof fn lemma_cell_lt(g: int, c: int, p: int)
    requires
        g > 0,
        c >= 0,
        p >= 0,
    ensures
        p / g < c <==> p < c * g,
{
    assert(p / g < c <==> p < c * g) by (nonlinear_arith)
        requires
            g > 0,
            c >= 0,
            p >= 0,
    ;
}

/// A cell index below the cell count keeps its pixels inside the measured
/// length.
proof fn lemma_cell_fits(g: int, c: int, len: int)
    requires
        g > 0,
        0 <= c < len / g,
    ensures
        c * g + g <= len,
{
    assert(c * g + g <= len) by (nonlinear_arith)
        requires
            g > 0,
            0 <= c < len / g,
    ;
}

/// The pixel map partway through painting the backdrop: the first `x1` cell
/// columns of the top and bottom border rows and the first `y2` cell rows of
/// the left and right border columns hold the border color, the interior
/// cells strictly before row `row`, column `col` (row-major) hold their
/// checker color, and every other pixel still holds its previous color.
spec fn backdrop_phase(
    pre: Framebuffer,
    post: Framebuffer,
    g: int,
    nx: int,
    ny: int,
    x1: int,
    y2: int,
    row: int,
    col: int,
) -> bool {
    &&& post.wf()
    &&& post.same_config(pre)
    &&& post.buffer@.len() == pre.buffer@.len()
    &&& forall|px: int, py: int|
        pre.in_bounds(px, py) ==> #[trigger] post.pixel(px, py) == (if (px / g < x1 && (py / g == 0
            || py / g == ny - 1)) || ((px / g == 0 || px / g == nx - 1) && py / g < y2) {
            Color { r: 144, g: 12, b: 63 }
        } else if 1 <= px / g < nx - 1 && 1 <= py / g && (py / g < row || (py / g == row && px / g
            < col)) {
            if (px / g + py / g) % 2 == 0 {
                Color { r: 230, g: 176, b: 170 }
            } else {
                Color { r: 215, g: 189, b: 226 }
            }
        } else {
            pre.pixel(px, py)
        })
}

/// Paint the static backdrop of the arena: one cell-size square per grid
/// cell, the outermost ring of cells in the border color and the interior
/// cells in an alternating two-color checker pattern. Pixels beyond the
/// last whole cell — and any part of a cell outside the buffer — are left
/// untouched.
pub fn draw_border_and_grid(
    framebuffer: &mut Framebuffer,
    width: usize,
    height: usize,
    grid_size: usize,
)
    requires
        old(framebuffer).wf(),
        grid_size > 0,
        grid_size <= width,
        grid_size <= height,
    ensures
        final(framebuffer).wf(),
        final(framebuffer).same_config(*old(framebuffer)),
        final(framebuffer).buffer@.len() == old(framebuffer).buffer@.len(),
        ({
            let g = grid_size as int;
            let nx = width as int / g;
            let ny = height as int / g;
            forall|px: int, py: int|
                old(framebuffer).in_bounds(px, py) ==> final(framebuffer).pixel(px, py) == (if px
                    < nx * g && py < ny * g {
                    backdrop_cell_color(px / g, py / g, nx, ny)
                } else {
                    old(framebuffer).pixel(px, py)
                })
        }),
{
    let nx = width / grid_size;
    let ny = height / grid_size;
    let border_color = Color::new(144, 12, 63);
    let color1 = Color::new(230, 176, 170);
    let color2 = Color::new(215, 189, 226);
    let ghost gi = grid_size as int;
    proof {
        assert(width / grid_size >= 1 && height / grid_size >= 1) by (nonlinear_arith)
            requires
                grid_size > 0,
                grid_size <= width,
                grid_size <= height,
        ;
    }

    let mut x: usize = 0;
    while x < nx
        invariant
            x <= nx,
            grid_size > 0,
            grid_size <= width,
            grid_size <= height,
            nx == width / grid_size,
            ny == height / grid_size,
            nx >= 1,
            ny >= 1,
            gi == grid_size as int,
            border_color == (Color { r: 144, g: 12, b: 63 }),
            backdrop_phase(
                *old(framebuffer),
                *framebuffer,
                gi,
                nx as int,
                ny as int,
                x as int,
                0,
                1,
                1,
            ),
        decreases nx - x,
    {
        proof {
            lemma_cell_fits(gi, x as int, width as int);
            lemma_cell_fits(gi, ny as int - 1, height as int);
        }
        framebuffer.draw_rectangle(x * grid_size, 0, grid_size, grid_size, border_color);
        proof {
            assert forall|px: int, py: int| old(framebuffer).in_bounds(px, py) implies (in_rect(
                x as int * gi,
                0,
                gi,
                gi,
                px,
                py,
            ) <==> (px / gi == x as int && py / gi == 0)) by {
                lemma_cell_rect(gi, x as int, 0, px, py);
            }
        }
        framebuffer.draw_rectangle(
            x * grid_size,
            (ny - 1) * grid_size,
            grid_size,
            grid_size,
            border_color,
        );
        proof {
            assert forall|px: int, py: int| old(framebuffer).in_bounds(px, py) implies (in_rect(
                x as int * gi,
                (ny - 1) as int * gi,
                gi,
                gi,
                px,
                py,
            ) <==> (px / gi == x as int && py / gi == ny as int - 1)) by {
                lemma_cell_rect(gi, x as int, ny as int - 1, px, py);
            }
        }
        x = x + 1;
    }

    let mut y: usize = 0;
    while y < ny
        invariant
            y <= ny,
            grid_size > 0,
            grid_size <= width,
            grid_size <= height,
            nx == width / grid_size,
            ny == height / grid_size,
            nx >= 1,
            ny >= 1,
            gi == grid_size as int,
            border_color == (Color { r: 144, g: 12, b: 63 }),
            backdrop_phase(
                *old(framebuffer),
                *framebuffer,
                gi,
                nx as int,
                ny as int,
                nx as int,
                y as int,
                1,
                1,
            ),
        decreases ny - y,
    {
        proof {
            lemma_cell_fits(gi, y as int, height as int);
            lemma_cell_fits(gi, nx as int - 1, width as int);
        }
        framebuffer.draw_rectangle(0, y * grid_size, grid_size, grid_size, border_color);
        proof {
            assert forall|px: int, py: int| old(framebuffer).in_bounds(px, py) implies (in_rect(
                0,
                y as int * gi,
                gi,
                gi,
                px,
                py,
            ) <==> (px / gi == 0 && py / gi == y as int)) by {
                lemma_cell_rect(gi, 0, y as int, px, py);
            }
        }
        framebuffer.draw_rectangle(
            (nx - 1) * grid_size,
            y * grid_size,
            grid_size,
            grid_size,
            border_color,
        );
        proof {
            assert forall|px: int, py: int| old(framebuffer).in_bounds(px, py) implies (in_rect(
                (nx - 1) as int * gi,
                y as int * gi,
                gi,
                gi,
                px,
                py,
            ) <==> (px / gi == nx as int - 1 && py / gi == y as int)) by {
                lemma_cell_rect(gi, nx as int - 1, y as int, px, py);
            }
        }
        y = y + 1;
    }

    let mut cy: usize = 1;
    while cy + 1 < ny
        invariant
            1 <= cy,
            ny >= 2 ==> cy <= ny - 1,
            ny < 2 ==> cy == 1,
            grid_size > 0,
            grid_size <= width,
            grid_size <= height,
            nx == width / grid_size,
            ny == height / grid_size,
            nx >= 1,
            ny >= 1,
            gi == grid_size as int,
            color1 == (Color { r: 230, g: 176, b: 170 }),
            color2 == (Color { r: 215, g: 189, b: 226 }),
            backdrop_phase(
                *old(framebuffer),
                *framebuffer,
                gi,
                nx as int,
                ny as int,
                nx as int,
                ny as int,
                cy as int,
                1,
            ),
        decreases ny - cy,
    {
        let mut cx: usize = 1;
        while cx + 1 < nx
            invariant
                1 <= cx,
                nx >= 2 ==> cx <= nx - 1,
                nx < 2 ==> cx == 1,
                1 <= cy,
                cy + 1 < ny,
                grid_size > 0,
                grid_size <= width,
                grid_size <= height,
                nx == width / grid_size,
                ny == height / grid_size,
                nx >= 1,
                ny >= 1,
                gi == grid_size as int,
                color1 == (Color { r: 230, g: 176, b: 170 }),
                color2 == (Color { r: 215, g: 189, b: 226 }),
                backdrop_phase(
                    *old(framebuffer),
                    *framebuffer,
                    gi,
                    nx as int,
                    ny as int,
                    nx as int,
                    ny as int,
                    cy as int,
                    cx as int,
                ),
            decreases nx - cx,
        {
            proof {
                lemma_cell_fits(gi, cx as int, width as int);
                lemma_cell_fits(gi, cy as int, height as int);
                assert((cx % 2 + cy % 2) % 2 == (cx + cy) % 2) by (nonlinear_arith);
            }
            let color = if (cx % 2 + cy % 2) % 2 == 0 {
                color1
            } else {
                color2
            };
                framebuffer.draw_rectangle(
                cx * grid_size,
                cy * grid_size,
                grid_size,
                grid_size,
                color,
            );
            proof {
                assert forall|px: int, py: int| old(framebuffer).in_bounds(px, py) implies (
                in_rect(cx as int * gi, cy as int * gi, gi, gi, px, py) <==> (px / gi == cx as int
                    && py / gi == cy as int)) by {
                    lemma_cell_rect(gi, cx as int, cy as int, px, py);
                }
            }
            cx = cx + 1;
        }
        cy = cy + 1;
    }

    proof {
        let nxi = nx as int;
        let nyi = ny as int;
        assert forall|px: int, py: int| old(framebuffer).in_bounds(px, py) implies framebuffer.pixel(
            px,
            py,
        ) == (if px < nxi * gi && py < nyi * gi {
            backdrop_cell_color(px / gi, py / gi, nxi, nyi)
        } else {
            old(framebuffer).pixel(px, py)
        }) by {
            lemma_cell_lt(gi, nxi, px);
            lemma_cell_lt(gi, nyi, py);
        }
    }
}

/// Everything one round of the game mutates each tick: the creature, the
/// food cell, the running score and the best score seen, over an arena of
/// `grid_width` by `grid_height` cells whose outermost ring is the border.
pub struct GameState {
    pub snake: Snake,
    pub apple: (i32, i32),
    pub score: u32,
    pub high_score: u32,
    pub grid_width: i32,
    pub grid_height: i32,
}

/// What one tick decided: whether the round ended, whether the food was
/// eaten, and whether the best score improved and should be persisted.
#[derive(Clone, Copy, PartialEq, Eq, Structural, Debug)]
pub struct TickResult {
    pub game_over: bool,
    pub ate: bool,
    pub new_high: bool,
}

/// Where the food may sit after a consumption: at a free interior cell, or
/// unchanged when the creature occupies every interior cell and no free
/// cell exists.
pub open spec fn respawned(
    apple: (i32, i32),
    old_apple: (i32, i32),
    body: Seq<(i32, i32)>,
    gw: int,
    gh: int,
) -> bool {
    ||| (1 <= apple.0 < gw - 1 && 1 <= apple.1 < gh - 1 && !body.contains(apple))
    ||| (apple == old_apple && forall|cx: i32, cy: i32|
        1 <= cx < gw - 1 && 1 <= cy < gh - 1 ==> #[trigger] body.contains((cx, cy)))
}

/// The head cell sits on or beyond the arena's border ring.
pub open spec fn hits_border(head: (i32, i32), grid_width: int, grid_height: int) -> bool {
    head.0 <= 0 || head.0 >= grid_width - 1 || head.1 <= 0 || head.1 >= grid_height - 1
}

impl GameState {
    /// The creature is well formed and the arena has room for an interior.
    pub open spec fn wf(self) -> bool {
        &&& self.snake.wf()
        &&& self.grid_width >= 3
        &&& self.grid_height >= 3
    }
}

/// One tick of the round, in the fixed order: apply at most one direction
/// change (reversals rejected), advance the creature, end the round if the
/// new head is on the border or on the body, otherwise consume the food if
/// the head reached it — growing the creature, counting the score, raising
/// the best score and respawning the food at a free interior cell.
pub fn tick(state: &mut GameState, up: bool, down: bool, left: bool, right: bool) -> (r:
    TickResult)
    requires
        old(state).wf(),
        i32::MIN < old(state).snake.body@[0].0 < i32::MAX,
        i32::MIN < old(state).snake.body@[0].1 < i32::MAX,
        old(state).score < u32::MAX,
    ensures
        final(state).wf(),
        final(state).grid_width == old(state).grid_width,
        final(state).grid_height == old(state).grid_height,
        final(state).snake.spec_color() == old(state).snake.spec_color(),
        ({
            let dir = requested_direction(old(state).snake.spec_direction(), up, down, left, right);
            let moved = moved_body(old(state).snake.body@, dir, old(state).snake.grow_pending());
            let head = moved[0];
            let over = hits_border(
                head,
                old(state).grid_width as int,
                old(state).grid_height as int,
            ) || self_collides(moved);
            let eats = !over && head == old(state).apple;
            &&& final(state).snake.spec_direction() == dir
            &&& final(state).snake.body@ == moved
            &&& final(state).snake.grow_pending() == eats
            &&& r.game_over == over
            &&& r.ate == eats
            &&& final(state).score == old(state).score + (if eats {
                1int
            } else {
                0int
            })
            &&& final(state).high_score == (if eats && final(state).score > old(
                state,
            ).high_score {
                final(state).score
            } else {
                old(state).high_score
            })
            &&& r.new_high == (eats && final(state).score > old(state).high_score)
            &&& (!eats ==> final(state).apple == old(state).apple)
            &&& (eats ==> respawned(
                final(state).apple,
                old(state).apple,
                final(state).snake.body@,
                old(state).grid_width as int,
                old(state).grid_height as int,
            ))
        }),
{
    apply_direction_input(&mut state.snake, up, down, left, right);
    state.snake.move_forward();
    let head = state.snake.head_position();
    let game_over = head.0 <= 0 || head.0 >= state.grid_width - 1 || head.1 <= 0 || head.1
        >= state.grid_height - 1 || state.snake.check_collision();
    let mut ate = false;
    let mut new_high = false;
    if !game_over && head.0 == state.apple.0 && head.1 == state.apple.1 {
        ate = true;
        state.snake.grow();
        state.score = state.score + 1;
        if state.score > state.high_score {
            state.high_score = state.score;
            new_high = true;
        }
        if let Some(c) = spawn_apple(&state.snake, state.grid_width, state.grid_height) {
            state.apple = c;
        }
    }
    TickResult { game_over, ate, new_high }
}

} // verus!
