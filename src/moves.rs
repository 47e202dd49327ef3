use vstd::prelude::*;

use crate::board::{
    count, lemma_count_lt, spec_coord, square_of, Player, Square, CELLS, HEIGHT, WIDTH,
};
use crate::state::{State, StateView};

verus! {

/// A placement, as (x, y).
pub type Move = (usize, usize);

/// A placement and the state that it leads to.
pub type Successor = (Move, State);

/// Number of compass directions.
pub const DIRECTION_COUNT: usize = 8;

/// Horizontal step of direction `d`: N, NE, E, SE, S, SW, W, NW.
pub open spec fn dir_dx(d: int) -> int {
    if d == 1 || d == 2 || d == 3 {
        1
    } else if d == 5 || d == 6 || d == 7 {
        -1
    } else {
        0
    }
}

/// Vertical step of direction `d`: N, NE, E, SE, S, SW, W, NW.
pub open spec fn dir_dy(d: int) -> int {
    if d == 0 || d == 1 || d == 7 {
        1
    } else if d == 3 || d == 4 || d == 5 {
        -1
    } else {
        0
    }
}

/// `v` moved `i` steps of the unit step `dv`.
pub open spec fn walk(v: int, dv: int, i: int) -> int {
    if dv > 0 {
        v + i
    } else if dv < 0 {
        v - i
    } else {
        v
    }
}

/// The cell at (x, y), or `None` off the board.
pub open spec fn cell_at(cells: Seq<Square>, x: int, y: int) -> Option<Square> {
    match spec_coord(x, y) {
        Some(i) => Some(cells[i]),
        None => None,
    }
}

/// The cell `i` steps from (x, y) in direction `d`.
pub open spec fn ray_cell(cells: Seq<Square>, x: int, y: int, d: int, i: int) -> Option<Square> {
    cell_at(cells, walk(x, dir_dx(d), i), walk(y, dir_dy(d), i))
}

/// Scanning from distance `i` on, in direction `d` from (x, y): the distance of the first cell
/// of `p`'s colour, reached across opponent cells only; 0 when an empty cell or the edge comes
/// first.
pub open spec fn anchor_from(cells: Seq<Square>, p: Player, x: int, y: int, d: int, i: int) -> int
    decreases CELLS - i,
{
    if i < 1 || i >= CELLS {
        0
    } else {
        match ray_cell(cells, x, y, d, i) {
            None => 0,
            Some(sq) => if sq == Square::Empty {
                0
            } else if sq == square_of(p) {
                i
            } else {
                anchor_from(cells, p, x, y, d, i + 1)
            },
        }
    }
}

/// How many opponent cells a piece of `p` placed at (x, y) captures in direction `d`.
pub open spec fn captures(cells: Seq<Square>, p: Player, x: int, y: int, d: int) -> int {
    let e = anchor_from(cells, p, x, y, d, 1);
    if e >= 2 {
        e - 1
    } else {
        0
    }
}

/// How far (cx, cy) lies from (x, y) along direction `d`, if it lies on that ray.
pub open spec fn ray_dist(x: int, y: int, d: int, cx: int, cy: int) -> int {
    if dir_dx(d) > 0 {
        cx - x
    } else if dir_dx(d) < 0 {
        x - cx
    } else if dir_dy(d) > 0 {
        cy - y
    } else {
        y - cy
    }
}

/// Whether (cx, cy) lies on the ray from (x, y) in direction `d`, at a distance in `[lo, hi)`.
pub open spec fn on_ray(x: int, y: int, d: int, cx: int, cy: int, lo: int, hi: int) -> bool {
    let i = ray_dist(x, y, d, cx, cy);
    &&& lo <= i < hi
    &&& cx == walk(x, dir_dx(d), i)
    &&& cy == walk(y, dir_dy(d), i)
}

/// Whether (cx, cy) is captured in direction `d` by a piece of `p` placed at (x, y).
pub open spec fn flipped_by(
    cells: Seq<Square>,
    p: Player,
    x: int,
    y: int,
    d: int,
    cx: int,
    cy: int,
) -> bool {
    on_ray(x, y, d, cx, cy, 1, captures(cells, p, x, y, d) + 1)
}

/// Whether (cx, cy) is captured in one of the first `n` directions.
pub open spec fn flipped_upto(
    cells: Seq<Square>,
    p: Player,
    x: int,
    y: int,
    n: int,
    cx: int,
    cy: int,
) -> bool
    decreases n,
{
    if n <= 0 {
        false
    } else {
        flipped_upto(cells, p, x, y, n - 1, cx, cy) || flipped_by(cells, p, x, y, n - 1, cx, cy)
    }
}

/// Whether one of the first `n` directions captures anything.
pub open spec fn captures_upto(cells: Seq<Square>, p: Player, x: int, y: int, n: int) -> bool
    decreases n,
{
    if n <= 0 {
        false
    } else {
        captures_upto(cells, p, x, y, n - 1) || captures(cells, p, x, y, n - 1) > 0
    }
}

/// A placement of `p` at (x, y) is legal: the cell is empty and some direction captures.
pub open spec fn legal_at(cells: Seq<Square>, p: Player, x: int, y: int) -> bool {
    &&& cell_at(cells, x, y) == Some(Square::Empty)
    &&& captures_upto(cells, p, x, y, DIRECTION_COUNT as int)
}

/// The board after `p` places at (x, y) and captures along the first `n` directions.
#[verifier::opaque]
pub open spec fn placed_upto(cells: Seq<Square>, p: Player, x: int, y: int, n: int) -> Seq<
    Square,
> {
    Seq::new(
        cells.len(),
        |j: int|
            if j == x + WIDTH * y || flipped_upto(
                cells,
                p,
                x,
                y,
                n,
                j % WIDTH as int,
                j / WIDTH as int,
            ) {
                square_of(p)
            } else {
                cells[j]
            },
    )
}

/// The board after `p` places at (x, y): that cell and every captured cell show `p`'s colour.
pub open spec fn placed(cells: Seq<Square>, p: Player, x: int, y: int) -> Seq<Square> {
    placed_upto(cells, p, x, y, DIRECTION_COUNT as int)
}

/// The state reached by the side to move placing at (x, y), when that placement is legal. The
/// turn goes over, and a placement is never a pass.
pub open spec fn successor_at(v: StateView, x: int, y: int) -> Option<StateView> {
    if legal_at(v.cells, v.next_player, x, y) {
        Some(
            StateView {
                cells: placed(v.cells, v.next_player, x, y),
                next_player: v.next_player.spec_opposite(),
                last_skipped: false,
            },
        )
    } else {
        None
    }
}

/// The legal placements among the first `k` cells in row-major order, with their states.
pub open spec fn successors_upto(v: StateView, k: int) -> Seq<((usize, usize), StateView)>
    decreases k,
{
    if k <= 0 {
        Seq::empty()
    } else {
        let x = (k - 1) % WIDTH as int;
        let y = (k - 1) / WIDTH as int;
        let rest = successors_upto(v, k - 1);
        match successor_at(v, x, y) {
            Some(t) => rest.push(((x as usize, y as usize), t)),
            None => rest,
        }
    }
}

/// All legal placements of the side to move, in row-major order (y outer, x inner).
pub open spec fn successors(v: StateView) -> Seq<((usize, usize), StateView)> {
    successors_upto(v, CELLS as int)
}

/// `cells` with the cells at distances `[1, n)` from (x, y) in direction `d` set to `sq`.
#[verifier::opaque]
pub open spec fn turned(cells: Seq<Square>, sq: Square, x: int, y: int, d: int, n: int) -> Seq<
    Square,
> {
    Seq::new(
        cells.len(),
        |j: int|
            if on_ray(x, y, d, j % WIDTH as int, j / WIDTH as int, 1, n) {
                sq
            } else {
                cells[j]
            },
    )
}

/// The board after the captures of direction `d` alone.
pub open spec fn flip_dir(cells: Seq<Square>, p: Player, x: int, y: int, d: int) -> Seq<Square> {
    turned(cells, square_of(p), x, y, d, captures(cells, p, x, y, d) + 1)
}

/// The index of an on-board (x, y) gives back its coordinates.
pub proof fn lemma_coord(x: int, y: int)
    requires
        0 <= x < WIDTH,
        0 <= y < HEIGHT,
    ensures
        0 <= x + WIDTH * y < CELLS,
        (x + WIDTH * y) % WIDTH as int == x,
        (x + WIDTH * y) / WIDTH as int == y,
        spec_coord(x, y) == Some(x + WIDTH * y),
{
}

/// Turning the cell at distance `i` extends the turned run by one, and that cell was untouched.
proof fn lemma_turned_step(cells: Seq<Square>, sq: Square, x: int, y: int, d: int, i: int)
    requires
        cells.len() == CELLS,
        0 <= x < WIDTH,
        0 <= y < HEIGHT,
        0 <= d < DIRECTION_COUNT,
        1 <= i,
        ray_cell(cells, x, y, d, i) is Some,
    ensures
        i < CELLS - 1,
        ({
            let j = walk(x, dir_dx(d), i) + WIDTH * walk(y, dir_dy(d), i);
            &&& 0 <= j < CELLS
            &&& turned(cells, sq, x, y, d, i)[j] == cells[j]
            &&& turned(cells, sq, x, y, d, i).update(j, sq) == turned(cells, sq, x, y, d, i + 1)
            &&& ray_cell(cells, x, y, d, i) == Some(cells[j])
        }),
{
    let cx = walk(x, dir_dx(d), i);
    let cy = walk(y, dir_dy(d), i);
    lemma_coord(cx, cy);
    let j = cx + WIDTH * cy;
    reveal(turned);
    assert(ray_dist(x, y, d, cx, cy) == i);
    assert(turned(cells, sq, x, y, d, i).update(j, sq) =~= turned(cells, sq, x, y, d, i + 1));
}

/// Nothing is turned before the scan starts.
proof fn lemma_turned_none(cells: Seq<Square>, sq: Square, x: int, y: int, d: int)
    ensures
        turned(cells, sq, x, y, d, 1) == cells,
{
    reveal(turned);
    assert(turned(cells, sq, x, y, d, 1) =~= cells);
}

/// Two different directions from one cell share no cell at a positive distance.
proof fn lemma_rays_disjoint(x: int, y: int, d: int, d2: int, i: int, lo: int, hi: int)
    requires
        0 <= d < DIRECTION_COUNT,
        0 <= d2 < DIRECTION_COUNT,
        d != d2,
        1 <= i,
        1 <= lo,
    ensures
        !on_ray(x, y, d2, walk(x, dir_dx(d), i), walk(y, dir_dy(d), i), lo, hi),
{
}

/// A cell at a positive distance on the ray of direction `d` is captured by no direction
/// before `d`.
proof fn lemma_not_flipped_before(
    cells: Seq<Square>,
    p: Player,
    x: int,
    y: int,
    n: int,
    d: int,
    i: int,
)
    requires
        n <= d < DIRECTION_COUNT,
        1 <= i,
    ensures
        !flipped_upto(cells, p, x, y, n, walk(x, dir_dx(d), i), walk(y, dir_dy(d), i)),
    decreases n,
{
    if n > 0 {
        lemma_not_flipped_before(cells, p, x, y, n - 1, d, i);
        lemma_rays_disjoint(x, y, d, n - 1, i, 1, captures(cells, p, x, y, n - 1) + 1);
    }
}

/// The scan of a direction reads only the cells of its ray at a positive distance.
proof fn lemma_anchor_agree(
    c1: Seq<Square>,
    c2: Seq<Square>,
    p: Player,
    x: int,
    y: int,
    d: int,
    i: int,
)
    requires
        forall|k: int| i <= k < CELLS ==> #[trigger] ray_cell(c1, x, y, d, k) == ray_cell(c2, x, y, d, k),
    ensures
        anchor_from(c1, p, x, y, d, i) == anchor_from(c2, p, x, y, d, i),
    decreases CELLS - i,
{
    if 1 <= i < CELLS {
        lemma_anchor_agree(c1, c2, p, x, y, d, i + 1);
    }
}

/// Applying direction `d` to the board built from the earlier directions: the captures of `d`
/// are those on the original board, and the result covers one more direction.
proof fn lemma_placed_step(cells: Seq<Square>, p: Player, x: int, y: int, d: int)
    requires
        cells.len() == CELLS,
        0 <= x < WIDTH,
        0 <= y < HEIGHT,
        0 <= d < DIRECTION_COUNT,
    ensures
        captures(placed_upto(cells, p, x, y, d), p, x, y, d) == captures(cells, p, x, y, d),
        flip_dir(placed_upto(cells, p, x, y, d), p, x, y, d) == placed_upto(cells, p, x, y, d + 1),
{
    let cur = placed_upto(cells, p, x, y, d);
    reveal(placed_upto);
    assert forall|k: int| 1 <= k < CELLS implies #[trigger] ray_cell(cur, x, y, d, k) == ray_cell(
        cells,
        x,
        y,
        d,
        k,
    ) by {
        let cx = walk(x, dir_dx(d), k);
        let cy = walk(y, dir_dy(d), k);
        if 0 <= cx < WIDTH && 0 <= cy < HEIGHT {
            lemma_coord(cx, cy);
            lemma_not_flipped_before(cells, p, x, y, d, d, k);
        }
    }
    lemma_anchor_agree(cur, cells, p, x, y, d, 1);
    reveal(turned);
    assert(flip_dir(cur, p, x, y, d) =~= placed_upto(cells, p, x, y, d + 1));
}

/// Before any direction, only the placed cell has changed.
proof fn lemma_placed_start(cells: Seq<Square>, p: Player, x: int, y: int)
    requires
        cells.len() == CELLS,
        0 <= x < WIDTH,
        0 <= y < HEIGHT,
    ensures
        placed_upto(cells, p, x, y, 0) == cells.update(x + WIDTH * y, square_of(p)),
{
    reveal(placed_upto);
    assert(placed_upto(cells, p, x, y, 0) =~= cells.update(x + WIDTH * y, square_of(p)));
}

/// Some direction among the first `n` captures.
proof fn lemma_pick_dir(cells: Seq<Square>, p: Player, x: int, y: int, n: int) -> (d: int)
    requires
        captures_upto(cells, p, x, y, n),
    ensures
        0 <= d < n,
        captures(cells, p, x, y, d) > 0,
    decreases n,
{
    if captures_upto(cells, p, x, y, n - 1) {
        lemma_pick_dir(cells, p, x, y, n - 1)
    } else {
        n - 1
    }
}

/// A cell captured by direction `d` is captured among any first `n > d` directions.
proof fn lemma_flipped_upto_intro(
    cells: Seq<Square>,
    p: Player,
    x: int,
    y: int,
    n: int,
    d: int,
    cx: int,
    cy: int,
)
    requires
        0 <= d < n,
        flipped_by(cells, p, x, y, d, cx, cy),
    ensures
        flipped_upto(cells, p, x, y, n, cx, cy),
    decreases n,
{
    if d < n - 1 {
        lemma_flipped_upto_intro(cells, p, x, y, n - 1, d, cx, cy);
    }
}

/// Each entry of the successor list is a legal placement on the board and the state it gives.
pub proof fn lemma_successors_shape(v: StateView, k: int)
    requires
        k <= CELLS,
    ensures
        forall|i: int|
            0 <= i < successors_upto(v, k).len() ==> {
                let m = #[trigger] successors_upto(v, k)[i];
                &&& 0 <= m.0.0 < WIDTH
                &&& 0 <= m.0.1 < HEIGHT
                &&& successor_at(v, m.0.0 as int, m.0.1 as int) == Some(m.1)
            },
    decreases k,
{
    if k > 0 {
        lemma_successors_shape(v, k - 1);
        let x = (k - 1) % WIDTH as int;
        let y = (k - 1) / WIDTH as int;
        let rest = successors_upto(v, k - 1);
        assert forall|i: int| 0 <= i < successors_upto(v, k).len() implies {
            let m = #[trigger] successors_upto(v, k)[i];
            &&& 0 <= m.0.0 < WIDTH
            &&& 0 <= m.0.1 < HEIGHT
            &&& successor_at(v, m.0.0 as int, m.0.1 as int) == Some(m.1)
        } by {
            if i < rest.len() {
                assert(successors_upto(v, k)[i] == rest[i]);
            }
        }
    }
}

/// What a legal placement does to the board: the cells of the mover stay, the placed cell
/// turns from empty to the mover's colour, and at least one opponent cell is captured.
pub proof fn lemma_successor_at(v: StateView, x: int, y: int)
    requires
        v.cells.len() == CELLS,
        successor_at(v, x, y) is Some,
    ensures
        ({
            let t = successor_at(v, x, y)->0;
            let own = square_of(v.next_player);
            &&& t.cells.len() == CELLS
            &&& t.next_player == v.next_player.spec_opposite()
            &&& !t.last_skipped
            &&& forall|j: int| 0 <= j < CELLS && v.cells[j] == own ==> t.cells[j] == own
            &&& forall|j: int| 0 <= j < CELLS && t.cells[j] == Square::Empty ==> v.cells[j] == Square::Empty
            &&& 0 <= x < WIDTH && 0 <= y < HEIGHT
            &&& v.cells[x + WIDTH * y] == Square::Empty
            &&& t.cells[x + WIDTH * y] == own
            &&& exists|j: int|
                0 <= j < CELLS && v.cells[j] == square_of(v.next_player.spec_opposite())
                    && t.cells[j] == own
        }),
{
    let p = v.next_player;
    let t = successor_at(v, x, y)->0;
    let own = square_of(p);
    lemma_coord(x, y);
    reveal(placed_upto);
    let d = lemma_pick_dir(v.cells, p, x, y, DIRECTION_COUNT as int);
    let cx = walk(x, dir_dx(d), 1);
    let cy = walk(y, dir_dy(d), 1);
    assert(ray_cell(v.cells, x, y, d, 1) is Some);
    lemma_coord(cx, cy);
    let j = cx + WIDTH * cy;
    assert(flipped_by(v.cells, p, x, y, d, cx, cy));
    lemma_flipped_upto_intro(v.cells, p, x, y, DIRECTION_COUNT as int, d, cx, cy);
    assert(t.cells[j] == own);
    assert(v.cells[j] == square_of(p.spec_opposite()));
}

/// Every listed successor has more cells of the mover than the state it comes from, and at
/// least one cell that belonged to the opponent now belongs to the mover.
pub proof fn lemma_successor_captures(v: StateView, i: int)
    requires
        v.cells.len() == CELLS,
        0 <= i < successors(v).len(),
    ensures
        ({
            let t = successors(v)[i].1;
            let own = square_of(v.next_player);
            &&& count(v.cells, own) < count(t.cells, own)
            &&& exists|j: int|
                0 <= j < CELLS && v.cells[j] == square_of(v.next_player.spec_opposite())
                    && t.cells[j] == own
        }),
{
    lemma_successors_shape(v, CELLS as int);
    let m = successors(v)[i];
    lemma_successor_at(v, m.0.0 as int, m.0.1 as int);
    lemma_count_lt(v.cells, m.1.cells, square_of(v.next_player), m.0.0 + WIDTH * m.0.1);
}

/// The unit step of direction `d`.
fn direction(d: usize) -> (r: (isize, isize))
    requires
        d < DIRECTION_COUNT,
    ensures
        r.0 == dir_dx(d as int),
        r.1 == dir_dy(d as int),
{
    match d {
        0 => (0, 1),
        1 => (1, 1),
        2 => (1, 0),
        3 => (1, -1),
        4 => (0, -1),
        5 => (-1, -1),
        6 => (-1, 0),
        _ => (-1, 1),
    }
}

/// Captures in direction `d` from (x, y), for the side to move: the state with that
/// direction's captured cells turned, or `None` when the direction captures nothing.
fn legal_move_dir(state: State, x: usize, y: usize, d: usize) -> (r: Option<State>)
    requires
        x < WIDTH,
        y < HEIGHT,
        d < DIRECTION_COUNT,
    ensures
        match r {
            Some(t) => captures(state@.cells, state.next_player, x as int, y as int, d as int) > 0
                && t.next_player == state.next_player && t.last_skipped == state.last_skipped
                && t@.cells == flip_dir(
                state@.cells,
                state.next_player,
                x as int,
                y as int,
                d as int,
            ),
            None => captures(state@.cells, state.next_player, x as int, y as int, d as int) == 0,
        },
{
    let mut next = state;
    let ghost orig = state@.cells;
    let ghost p = next.next_player;
    let own = next.next_player.square();
    let (dx, dy) = direction(d);
    let mut saw_opposite = false;
    let mut i: usize = 1;
    let mut cx: isize = x as isize;
    let mut cy: isize = y as isize;

    proof {
        lemma_turned_none(orig, own, x as int, y as int, d as int);
    }
    // Step along the direction vector
    loop
        invariant
            1 <= i < CELLS,
            x < WIDTH,
            y < HEIGHT,
            d < DIRECTION_COUNT,
            own == square_of(p),
            p == next.next_player,
            dx == dir_dx(d as int),
            dy == dir_dy(d as int),
            cx == walk(x as int, dx as int, i - 1),
            cy == walk(y as int, dy as int, i - 1),
            saw_opposite == (i > 1),
            anchor_from(orig, p, x as int, y as int, d as int, 1) == anchor_from(
                orig,
                p,
                x as int,
                y as int,
                d as int,
                i as int,
            ),
            next.last_skipped == state.last_skipped,
            next@.cells.len() == CELLS,
            orig.len() == CELLS,
            orig == state@.cells,
            p == state.next_player,
            next@.cells == turned(orig, own, x as int, y as int, d as int, i as int),
        decreases CELLS - i,
    {
        // Go to the next square, or return None if out of bounds
        cx = cx + dx;
        cy = cy + dy;
        if cx < 0 || cy < 0 {
            return None;
        }
        let sq = match next.board.get_mut(cx as usize, cy as usize) {
            Some(sq) => sq,
            None => return None,
        };
        proof {
            lemma_coord(cx as int, cy as int);
            lemma_turned_step(orig, own, x as int, y as int, d as int, i as int);
        }
        if *sq == Square::Empty {
            // No anchor
            return None;
        } else if *sq == own {
            // We've met our anchor
            if saw_opposite {
                return Some(next);
            } else {
                return None;
            }
        } else {
            // We've met another square opposite our color, set it to ours
            *sq = own;
            saw_opposite = true;
        }
        i += 1;
    }
}

/// The state after the side to move places at (x, y), or `None` when that placement is not
/// legal (off the board, on an occupied cell, or capturing nothing).
fn legal_move_pos(state: State, x: usize, y: usize) -> (r: Option<State>)
    ensures
        match successor_at(state@, x as int, y as int) {
            Some(t) => r is Some && r->0@ == t,
            None => r is None,
        },
{
    let ghost orig = state@.cells;
    let ghost p = state.next_player;
    let mut next = state;
    // Optimistically set the current square to our color
    match next.board.get_mut(x, y) {
        Some(s) => {
            if *s == Square::Empty {
                *s = next.next_player.square();
            } else {
                return None;
            }
        },
        None => {
            return None;
        },
    }
    proof {
        lemma_coord(x as int, y as int);
        lemma_placed_start(orig, p, x as int, y as int);
    }

    let mut is_legal = false;
    let mut d: usize = 0;
    while d < DIRECTION_COUNT
        invariant
            d <= DIRECTION_COUNT,
            x < WIDTH,
            y < HEIGHT,
            orig == state@.cells,
            p == state.next_player,
            orig.len() == CELLS,
            cell_at(orig, x as int, y as int) == Some(Square::Empty),
            next.next_player == p,
            next.last_skipped == state.last_skipped,
            next@.cells == placed_upto(orig, p, x as int, y as int, d as int),
            is_legal == captures_upto(orig, p, x as int, y as int, d as int),
        decreases DIRECTION_COUNT - d,
    {
        proof {
            lemma_placed_step(orig, p, x as int, y as int, d as int);
        }
        if let Some(part) = legal_move_dir(next, x, y, d) {
            is_legal = true;
            next = part;
        } else {
            proof {
                reveal(turned);
                assert(next@.cells =~= flip_dir(next@.cells, p, x as int, y as int, d as int));
            }
        }
        d += 1;
    }

    if is_legal {
        next.next_player = next.next_player.opposite();
        next.last_skipped = false;
        Some(next)
    } else {
        None
    }
}

/// Returns all legal moves from this state, in row-major order (y outer, x inner).
/// Also called the successor function
pub fn legal_moves(state: State) -> (r: Vec<Successor>)
    ensures
        r@.len() == successors(state@).len(),
        forall|i: int|
            #![trigger r@[i]]
            0 <= i < r@.len() ==> r@[i].0 == successors(state@)[i].0 && r@[i].1@ == successors(
                state@,
            )[i].1,
{
    let mut moves: Vec<Successor> = Vec::new();
    let mut y: usize = 0;
    while y < HEIGHT
        invariant
            y <= HEIGHT,
            moves@.len() == successors_upto(state@, WIDTH * y).len(),
            forall|i: int|
                0 <= i < moves@.len() ==> #[trigger] moves@[i].0 == successors_upto(
                    state@,
                    WIDTH * y,
                )[i].0 && moves@[i].1@ == successors_upto(state@, WIDTH * y)[i].1,
        decreases HEIGHT - y,
    {
        let mut x: usize = 0;
        while x < WIDTH
            invariant
                x <= WIDTH,
                y < HEIGHT,
                moves@.len() == successors_upto(state@, WIDTH * y + x).len(),
                forall|i: int|
                    0 <= i < moves@.len() ==> #[trigger] moves@[i].0 == successors_upto(
                        state@,
                        WIDTH * y + x,
                    )[i].0 && moves@[i].1@ == successors_upto(state@, WIDTH * y + x)[i].1,
            decreases WIDTH - x,
        {
            proof {
                lemma_coord(x as int, y as int);
            }
            let ghost k = WIDTH * y + x;
            if let Some(next) = legal_move_pos(state, x, y) {
                let ghost before = moves@;
                moves.push(((x, y), next));
                assert(successors_upto(state@, k + 1) == successors_upto(state@, k).push(
                    ((x, y), next@),
                ));
                assert forall|i: int| 0 <= i < moves@.len() implies #[trigger] moves@[i].0
                    == successors_upto(state@, k + 1)[i].0 && moves@[i].1@ == successors_upto(
                    state@,
                    k + 1,
                )[i].1 by {
                    if i < before.len() {
                        assert(moves@[i] == before[i]);
                    }
                }
            }
            x += 1;
        }
        assert(WIDTH * y + x == WIDTH * (y + 1));
        y += 1;
    }
    moves
}

} // verus!
