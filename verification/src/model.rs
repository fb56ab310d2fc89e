#![allow(unused_imports)]
use vstd::prelude::*;
use vstd::set_lib::lemma_len_subset;

use crate::grid_count::{
    cells_with, cells_with_before, lemma_cells_with_complement, lemma_coords_len_bound,
    lemma_rect_card, lemma_singleton, rect_set,
};

verus! {

/// One of the four cardinal directions a snake segment can point toward.
#[derive(Clone, Copy, Debug, PartialEq, Eq, Structural)]
pub enum Orientation {
    Up,
    Right,
    Down,
    Left,
}

/// The direction exactly opposite to `o`.
pub open spec fn opposite(o: Orientation) -> Orientation {
    match o {
        Orientation::Up => Orientation::Down,
        Orientation::Right => Orientation::Left,
        Orientation::Down => Orientation::Up,
        Orientation::Left => Orientation::Right,
    }
}

impl Orientation {
    /// Up/Down and Left/Right are mutually opposite; no other pair is.
    pub fn is_opposite(&self, other: Orientation) -> (r: bool)
        ensures
            r == (other == opposite(*self)),
    {
        matches!((self, other),
            (Orientation::Up, Orientation::Down) |
            (Orientation::Right, Orientation::Left) |
            (Orientation::Down, Orientation::Up) |
            (Orientation::Left, Orientation::Right)
        )
    }
}

/// Whether the game is on the title screen, running, or lost.
#[derive(Clone, Copy, Debug, PartialEq, Eq, Structural)]
pub enum GameState {
    TitleScreen,
    Playing,
    GameOver,
}

/// What one board cell holds.  The snake's whole path is encoded in the
/// cells themselves: a `Tail` points toward the next segment, every `Body`
/// records both the direction toward the head (`towards`) and the direction
/// the previous segment entered from (`from`), and the `Head` records the
/// direction it is travelling.
#[derive(Clone, Copy, Debug, PartialEq, Eq, Structural)]
pub enum CellContent {
    Empty,
    Head(Orientation),
    Tail(Orientation),
    Body { towards: Orientation, from: Orientation },
    Apple,
}

/// The fixed roster of cell contents a renderer can be asked to draw:
/// the apple, the empty cell, the four head and four tail orientations,
/// and the body tags, straight runs before bends.
pub open spec fn all_variants_seq() -> Seq<CellContent> {
    seq![
        CellContent::Apple,
        CellContent::Empty,
        CellContent::Head(Orientation::Up),
        CellContent::Head(Orientation::Right),
        CellContent::Head(Orientation::Down),
        CellContent::Head(Orientation::Left),
        CellContent::Tail(Orientation::Up),
        CellContent::Tail(Orientation::Right),
        CellContent::Tail(Orientation::Down),
        CellContent::Tail(Orientation::Left),
        CellContent::Body { towards: Orientation::Up, from: Orientation::Up },
        CellContent::Body { towards: Orientation::Right, from: Orientation::Right },
        CellContent::Body { towards: Orientation::Down, from: Orientation::Down },
        CellContent::Body { towards: Orientation::Left, from: Orientation::Left },
        CellContent::Body { towards: Orientation::Up, from: Orientation::Right },
        CellContent::Body { towards: Orientation::Up, from: Orientation::Left },
        CellContent::Body { towards: Orientation::Up, from: Orientation::Up },
        CellContent::Body { towards: Orientation::Right, from: Orientation::Down },
        CellContent::Body { towards: Orientation::Right, from: Orientation::Up },
        CellContent::Body { towards: Orientation::Right, from: Orientation::Right },
        CellContent::Body { towards: Orientation::Down, from: Orientation::Left },
        CellContent::Body { towards: Orientation::Down, from: Orientation::Right },
        CellContent::Body { towards: Orientation::Down, from: Orientation::Down },
        CellContent::Body { towards: Orientation::Left, from: Orientation::Up },
        CellContent::Body { towards: Orientation::Left, from: Orientation::Down },
        CellContent::Body { towards: Orientation::Left, from: Orientation::Left },
    ]
}

impl CellContent {
    /// Whether this cell is part of the snake.
    pub open spec fn is_snake(self) -> bool {
        self is Head || self is Tail || self is Body
    }

    /// The roster of [`all_variants_seq`] as an owned vector, for a
    /// renderer's smoke tests.
    pub fn all_variants() -> (r: Vec<CellContent>)
        ensures
            r@ == all_variants_seq(),
    {
        let r = vec![
            CellContent::Apple,
            CellContent::Empty,
            CellContent::Head(Orientation::Up),
            CellContent::Head(Orientation::Right),
            CellContent::Head(Orientation::Down),
            CellContent::Head(Orientation::Left),
            CellContent::Tail(Orientation::Up),
            CellContent::Tail(Orientation::Right),
            CellContent::Tail(Orientation::Down),
            CellContent::Tail(Orientation::Left),
            CellContent::Body { towards: Orientation::Up, from: Orientation::Up },
            CellContent::Body { towards: Orientation::Right, from: Orientation::Right },
            CellContent::Body { towards: Orientation::Down, from: Orientation::Down },
            CellContent::Body { towards: Orientation::Left, from: Orientation::Left },
            CellContent::Body { towards: Orientation::Up, from: Orientation::Right },
            CellContent::Body { towards: Orientation::Up, from: Orientation::Left },
            CellContent::Body { towards: Orientation::Up, from: Orientation::Up },
            CellContent::Body { towards: Orientation::Right, from: Orientation::Down },
            CellContent::Body { towards: Orientation::Right, from: Orientation::Up },
            CellContent::Body { towards: Orientation::Right, from: Orientation::Right },
            CellContent::Body { towards: Orientation::Down, from: Orientation::Left },
            CellContent::Body { towards: Orientation::Down, from: Orientation::Right },
            CellContent::Body { towards: Orientation::Down, from: Orientation::Down },
            CellContent::Body { towards: Orientation::Left, from: Orientation::Up },
            CellContent::Body { towards: Orientation::Left, from: Orientation::Down },
            CellContent::Body { towards: Orientation::Left, from: Orientation::Left },
        ];
        proof {
            assert(r@ =~= all_variants_seq());
        }
        r
    }
}

/// The coordinate one step from `p` in direction `o`; coordinates are
/// `(column, row)` pairs with the row growing downward.
pub open spec fn step_coord(p: (int, int), o: Orientation) -> (int, int) {
    match o {
        Orientation::Up => (p.0, p.1 - 1),
        Orientation::Down => (p.0, p.1 + 1),
        Orientation::Left => (p.0 - 1, p.1),
        Orientation::Right => (p.0 + 1, p.1),
    }
}

/// The direction a snake cell points toward the next segment (for the head:
/// the direction it travels).  Meaningless for `Empty` and `Apple`.
pub open spec fn cell_dir(c: CellContent) -> Orientation {
    match c {
        CellContent::Head(o) => o,
        CellContent::Tail(o) => o,
        CellContent::Body { towards, from } => towards,
        _ => Orientation::Up,
    }
}

/// The direction by which the snake entered a cell (for the head its
/// travel direction; for a body its `from` tag).  Meaningless elsewhere.
pub open spec fn entry_dir(c: CellContent) -> Orientation {
    match c {
        CellContent::Head(o) => o,
        CellContent::Body { towards, from } => from,
        _ => Orientation::Up,
    }
}

/// `g` is a `height`-by-`width` rectangle of cells.
pub open spec fn grid_rect(g: Seq<Seq<CellContent>>, width: int, height: int) -> bool {
    &&& g.len() == height
    &&& forall|y: int| 0 <= y < height ==> (#[trigger] g[y]).len() == width
}

/// Whether `p` lies on a `width`-by-`height` board.
pub open spec fn in_rect(p: (int, int), width: int, height: int) -> bool {
    0 <= p.0 < width && 0 <= p.1 < height
}

/// The content of cell `p` of `g`.
pub open spec fn cell_at(g: Seq<Seq<CellContent>>, p: (int, int)) -> CellContent {
    g[p.1][p.0]
}

/// `g` with cell `p` replaced by `c`.
pub open spec fn grid_set(g: Seq<Seq<CellContent>>, p: (int, int), c: CellContent) -> Seq<
    Seq<CellContent>,
> {
    g.update(p.1, g[p.1].update(p.0, c))
}

/// The snake's cells chain through the grid: `path` runs from the tail
/// (index 0) to the head (last index), every link follows the direction
/// stored in the cell itself, the `from` tags record the previous link,
/// and every cell off the path holds no snake segment.
pub open spec fn path_ok(g: Seq<Seq<CellContent>>, width: int, height: int, path: Seq<(int, int)>) -> bool {
    &&& path.len() >= 3
    &&& (forall|i: int| 0 <= i < path.len() ==> in_rect(#[trigger] path[i], width, height))
    &&& path.no_duplicates()
    &&& cell_at(g, path[0]) is Tail
    &&& (forall|i: int| 0 < i < path.len() - 1 ==> cell_at(g, #[trigger] path[i]) is Body)
    &&& cell_at(g, path.last()) is Head
    &&& (forall|i: int|
        #![trigger path[i], path[i + 1]]
        0 <= i < path.len() - 1 ==> step_coord(path[i], cell_dir(cell_at(g, path[i]))) == path[i
            + 1])
    &&& (forall|i: int|
        #![trigger path[i], path[i + 1]]
        0 <= i < path.len() - 1 ==> entry_dir(cell_at(g, path[i + 1])) == cell_dir(
            cell_at(g, path[i]),
        ))
    &&& (forall|p: (int, int)|
        in_rect(p, width, height) && !path.contains(p) ==> !(#[trigger] cell_at(g, p)).is_snake())
}

/// Exactly one apple sits on the board, at `apple`, off the snake's path;
/// every other cell off the path is empty.
pub open spec fn apple_ok(
    g: Seq<Seq<CellContent>>,
    width: int,
    height: int,
    path: Seq<(int, int)>,
    apple: (int, int),
) -> bool {
    &&& in_rect(apple, width, height)
    &&& !path.contains(apple)
    &&& cell_at(g, apple) is Apple
    &&& (forall|p: (int, int)|
        in_rect(p, width, height) && !path.contains(p) && p != apple ==> #[trigger] cell_at(g, p)
            is Empty)
}

/// The direction actually applied on a tick: the buffered turn, unless it
/// would reverse the head in place, in which case it is discarded and the
/// head keeps its previous direction.
pub open spec fn effective_dir(head_dir: Orientation, input: Option<Orientation>) -> Orientation {
    match input {
        Some(d) => if d == opposite(head_dir) {
            head_dir
        } else {
            d
        },
        None => head_dir,
    }
}

/// The snake's path after one advance in direction `eff`: the new head
/// cell is appended; without growth the tail cell drops off.
pub open spec fn advance_path(path: Seq<(int, int)>, eff: Orientation, grow: bool) -> Seq<
    (int, int),
> {
    let front = step_coord(path.last(), eff);
    if grow {
        path.push(front)
    } else {
        path.subrange(1, path.len() as int).push(front)
    }
}

/// The grid after one advance: the old head becomes a body bend toward
/// `eff`, the front cell the new head; without growth the tail cell is
/// cleared and the segment after it becomes the tail.
pub open spec fn advance_grid(
    g: Seq<Seq<CellContent>>,
    path: Seq<(int, int)>,
    eff: Orientation,
    grow: bool,
) -> Seq<Seq<CellContent>> {
    let head = path.last();
    let front = step_coord(head, eff);
    let g1 = if grow {
        g
    } else {
        grid_set(
            grid_set(g, path[0], CellContent::Empty),
            path[1],
            CellContent::Tail(cell_dir(cell_at(g, path[1]))),
        )
    };
    let g2 = grid_set(
        g1,
        head,
        CellContent::Body { towards: eff, from: cell_dir(cell_at(g, head)) },
    );
    grid_set(g2, front, CellContent::Head(eff))
}

/// The advance step is legal: the front cell is on the board and free —
/// empty or the vacating tail without growth, the apple with growth.
pub open spec fn can_advance(
    g: Seq<Seq<CellContent>>,
    width: int,
    height: int,
    path: Seq<(int, int)>,
    eff: Orientation,
    grow: bool,
) -> bool {
    let front = step_coord(path.last(), eff);
    &&& in_rect(front, width, height)
    &&& if grow {
        cell_at(g, front) is Apple
    } else {
        cell_at(g, front) is Empty || front == path[0]
    }
}

/// One step always moves: `step_coord` never returns its argument.
pub proof fn lemma_step_moves(p: (int, int), o: Orientation)
    ensures
        step_coord(p, o) != p,
{
}

/// What a single write to cell `p` does to a rectangular grid.
pub proof fn lemma_grid_set(g: Seq<Seq<CellContent>>, width: int, height: int, p: (int, int), c: CellContent)
    requires
        grid_rect(g, width, height),
        in_rect(p, width, height),
    ensures
        grid_rect(grid_set(g, p, c), width, height),
        cell_at(grid_set(g, p, c), p) == c,
        forall|q: (int, int)|
            in_rect(q, width, height) && q != p ==> #[trigger] cell_at(grid_set(g, p, c), q)
                == cell_at(g, q),
{
    assert forall|q: (int, int)| in_rect(q, width, height) && q != p implies #[trigger] cell_at(
        grid_set(g, p, c),
        q,
    ) == cell_at(g, q) by {
        if q.1 == p.1 {
            assert(q.0 != p.0);
        }
    }
}

/// The chain facts of `path_ok` at one link, spelled out so that callers
/// need not match the quantifier's trigger shape.
pub proof fn lemma_path_step(
    g: Seq<Seq<CellContent>>,
    width: int,
    height: int,
    path: Seq<(int, int)>,
    i: int,
)
    requires
        path_ok(g, width, height, path),
        0 <= i < path.len() - 1,
    ensures
        step_coord(path[i], cell_dir(cell_at(g, path[i]))) == path[i + 1],
        entry_dir(cell_at(g, path[i + 1])) == cell_dir(cell_at(g, path[i])),
        in_rect(path[i], width, height),
        in_rect(path[i + 1], width, height),
{
    // materialize the indexed pair so the paired triggers instantiate
    let a = path[i];
    let b = path[i + 1];
}

/// What a successful tail-to-head walk yields: a run of on-board cells
/// that starts at a tail, passes only body segments, ends at a head, and
/// follows the direction stored in each cell.  Unlike [`path_ok`] this
/// says nothing about the cells off the run.
pub open spec fn chain_shape(
    g: Seq<Seq<CellContent>>,
    width: int,
    height: int,
    cs: Seq<(int, int)>,
) -> bool {
    &&& cs.len() >= 1
    &&& (forall|i: int| 0 <= i < cs.len() ==> in_rect(#[trigger] cs[i], width, height))
    &&& cell_at(g, cs[0]) is Tail
    &&& (forall|i: int| 0 < i < cs.len() - 1 ==> cell_at(g, #[trigger] cs[i]) is Body)
    &&& cell_at(g, cs.last()) is Head
    &&& (forall|i: int|
        #![trigger cs[i], cs[i + 1]]
        0 <= i < cs.len() - 1 ==> step_coord(cs[i], cell_dir(cell_at(g, cs[i]))) == cs[i + 1])
    &&& (forall|i: int|
        #![trigger cs[i], cs[i + 1]]
        0 <= i < cs.len() - 1 ==> entry_dir(cell_at(g, cs[i + 1])) == cell_dir(cell_at(g, cs[i])))
}

/// A chain that touches a well-formed path runs along it to the common
/// head: the walk is deterministic, so there is only one way forward.
proof fn lemma_chain_align(
    g: Seq<Seq<CellContent>>,
    width: int,
    height: int,
    pw: Seq<(int, int)>,
    cs: Seq<(int, int)>,
    i: int,
)
    requires
        path_ok(g, width, height, pw),
        chain_shape(g, width, height, cs),
        0 <= i < cs.len(),
        i < pw.len(),
        cs[i] == pw[i],
    ensures
        pw.len() == cs.len(),
        forall|j: int| i <= j < cs.len() ==> cs[j] == pw[j],
    decreases cs.len() - i,
{
    let c = cell_at(g, cs[i]);
    if i == cs.len() - 1 {
        assert(cs[i] == cs.last());
        assert(c is Head);
        lemma_head_unique(g, width, height, pw, pw[i]);
        assert(pw[i] == pw[pw.len() - 1]);
        assert(i == pw.len() - 1);
    } else {
        if i == 0 {
            assert(cell_at(g, cs[0]) is Tail);
        } else {
            assert(cell_at(g, cs[i]) is Body);
        }
        assert(!(c is Head));
        if i == pw.len() - 1 {
            assert(pw[i] == pw[pw.len() - 1]);
            assert(cell_at(g, pw.last()) is Head);
        }
        assert(i < pw.len() - 1);
        lemma_path_step(g, width, height, pw, i);
        // materialize the indexed pair so the paired triggers instantiate
        let a = cs[i];
        let b = cs[i + 1];
        assert(cs[i + 1] == step_coord(cs[i], cell_dir(cell_at(g, cs[i]))));
        assert(cs[i + 1] == pw[i + 1]);
        lemma_chain_align(g, width, height, pw, cs, i + 1);
    }
}

/// Mid-walk alignment: while the walk `cs` follows the witness path `pw`
/// and has not reached a head cell, the witness continues, and its next
/// cell is exactly one legal step further.
proof fn lemma_walk_step(
    g: Seq<Seq<CellContent>>,
    width: int,
    height: int,
    pw: Seq<(int, int)>,
    cs: Seq<(int, int)>,
)
    requires
        path_ok(g, width, height, pw),
        1 <= cs.len() <= pw.len(),
        forall|i: int| 0 <= i < cs.len() ==> cs[i] == pw[i],
        !(cell_at(g, cs.last()) is Head),
    ensures
        cs.len() < pw.len(),
        step_coord(cs.last(), cell_dir(cell_at(g, cs.last()))) == pw[cs.len() as int],
        in_rect(pw[cs.len() as int], width, height),
        entry_dir(cell_at(g, pw[cs.len() as int])) == cell_dir(cell_at(g, cs.last())),
        cs.len() < pw.len() - 1 ==> cell_at(g, pw[cs.len() as int]) is Body,
        cs.len() == pw.len() - 1 ==> cell_at(g, pw[cs.len() as int]) is Head,
{
    assert(cs.last() == pw[cs.len() - 1]);
    if cs.len() == pw.len() {
        assert(pw[cs.len() - 1] == pw[pw.len() - 1]);
        assert(cell_at(g, pw.last()) is Head);
    }
    lemma_path_step(g, width, height, pw, cs.len() - 1);
    assert(pw[cs.len() - 1 + 1] == pw[cs.len() as int]);
    if cs.len() < pw.len() - 1 {
        assert(cell_at(g, pw[cs.len() as int]) is Body);
    } else {
        assert(pw[cs.len() as int] == pw[pw.len() - 1]);
        assert(cell_at(g, pw.last()) is Head);
    }
}

/// Step from an on-board cell in direction `o`, or `None` when the step
/// leaves the board.
fn step_cell(x: usize, y: usize, o: Orientation, width: usize, height: usize) -> (r: Option<
    (usize, usize),
>)
    requires
        x < width,
        y < height,
    ensures
        match r {
            Some(p) => (p.0 as int, p.1 as int) == step_coord((x as int, y as int), o) && in_rect(
                (p.0 as int, p.1 as int),
                width as int,
                height as int,
            ),
            None => !in_rect(
                step_coord((x as int, y as int), o),
                width as int,
                height as int,
            ),
        },
{
    match o {
        Orientation::Up => if y >= 1 {
            Some((x, y - 1))
        } else {
            None
        },
        Orientation::Down => if y + 1 < height {
            Some((x, y + 1))
        } else {
            None
        },
        Orientation::Left => if x >= 1 {
            Some((x - 1, y))
        } else {
            None
        },
        Orientation::Right => if x + 1 < width {
            Some((x + 1, y))
        } else {
            None
        },
    }
}

/// Under `path_ok` the one `Head` cell sits at the path's head end.
pub proof fn lemma_head_unique(
    g: Seq<Seq<CellContent>>,
    width: int,
    height: int,
    path: Seq<(int, int)>,
    p: (int, int),
)
    requires
        path_ok(g, width, height, path),
        in_rect(p, width, height),
        cell_at(g, p) is Head,
    ensures
        p == path.last(),
{
    assert(path.contains(p));
    let i = choose|i: int| 0 <= i < path.len() && path[i] == p;
    assert(path[i] == p);
    if i < path.len() - 1 {
        assert(!(cell_at(g, path[i]) is Head));
    }
}

/// Under `path_ok` the one `Tail` cell sits at the path's tail end.
pub proof fn lemma_tail_unique(
    g: Seq<Seq<CellContent>>,
    width: int,
    height: int,
    path: Seq<(int, int)>,
    p: (int, int),
)
    requires
        path_ok(g, width, height, path),
        in_rect(p, width, height),
        cell_at(g, p) is Tail,
    ensures
        p == path[0],
{
    assert(path.contains(p));
    let i = choose|i: int| 0 <= i < path.len() && path[i] == p;
    assert(path[i] == p);
    if i > 0 {
        assert(!(cell_at(g, path[i]) is Tail));
    }
}

/// Under `path_ok` and `apple_ok` the one `Apple` cell sits at `apple`.
pub proof fn lemma_apple_unique(
    g: Seq<Seq<CellContent>>,
    width: int,
    height: int,
    path: Seq<(int, int)>,
    apple: (int, int),
    p: (int, int),
)
    requires
        path_ok(g, width, height, path),
        apple_ok(g, width, height, path, apple),
        in_rect(p, width, height),
        cell_at(g, p) is Apple,
    ensures
        p == apple,
{
    if path.contains(p) {
        let i = choose|i: int| 0 <= i < path.len() && path[i] == p;
        assert(path[i] == p);
        assert(cell_at(g, path[i]).is_snake());
    }
}

/// Advancing a legal step keeps the snake chain well formed: the advanced
/// path matches the advanced grid cell for cell, without growth the apple
/// survives untouched, and with growth (the front cell was the apple)
/// every cell off the grown path is empty.
#[verifier::rlimit(100)]
pub proof fn lemma_advance(
    g: Seq<Seq<CellContent>>,
    width: int,
    height: int,
    path: Seq<(int, int)>,
    apple: (int, int),
    eff: Orientation,
    grow: bool,
)
    requires
        grid_rect(g, width, height),
        path_ok(g, width, height, path),
        apple_ok(g, width, height, path, apple),
        can_advance(g, width, height, path, eff, grow),
    ensures
        grid_rect(advance_grid(g, path, eff, grow), width, height),
        path_ok(advance_grid(g, path, eff, grow), width, height, advance_path(path, eff, grow)),
        advance_path(path, eff, grow).len() == path.len() + (if grow {
            1int
        } else {
            0int
        }),
        !grow ==> apple_ok(
            advance_grid(g, path, eff, grow),
            width,
            height,
            advance_path(path, eff, grow),
            apple,
        ),
        grow ==> (forall|p: (int, int)|
            in_rect(p, width, height) && !advance_path(path, eff, grow).contains(p)
                ==> #[trigger] cell_at(advance_grid(g, path, eff, grow), p) is Empty),
        grow ==> step_coord(path.last(), eff) == apple,
{
    let n = path.len() as int;
    let head = path.last();
    let front = step_coord(head, eff);
    let hd = cell_dir(cell_at(g, head));
    let t1 = cell_dir(cell_at(g, path[1]));
    let gp = advance_grid(g, path, eff, grow);
    let pp = advance_path(path, eff, grow);

    lemma_step_moves(head, eff);
    assert(head == path[n - 1]);

    // The front cell is never a snake segment other than the vacating tail.
    assert forall|i: int| 0 <= i < n && !(!grow && i == 0) implies path[i] != front by {
        if path[i] == front {
            if i == 0 {
                assert(cell_at(g, path[0]) is Tail);
            } else if i == n - 1 {
                assert(cell_at(g, path.last()) is Head);
            } else {
                assert(cell_at(g, path[i]) is Body);
            }
        }
    }
    if grow {
        lemma_apple_unique(g, width, height, path, apple, front);
    }

    // Point-by-point description of the advanced grid, following the
    // writes from the last one backward.
    if grow {
        let g2 = grid_set(g, head, CellContent::Body { towards: eff, from: hd });
        lemma_grid_set(g, width, height, head, CellContent::Body { towards: eff, from: hd });
        lemma_grid_set(g2, width, height, front, CellContent::Head(eff));
    } else {
        let g_a = grid_set(g, path[0], CellContent::Empty);
        let g_b = grid_set(g_a, path[1], CellContent::Tail(t1));
        let g_c = grid_set(g_b, head, CellContent::Body { towards: eff, from: hd });
        lemma_grid_set(g, width, height, path[0], CellContent::Empty);
        lemma_grid_set(g_a, width, height, path[1], CellContent::Tail(t1));
        lemma_grid_set(g_b, width, height, head, CellContent::Body { towards: eff, from: hd });
        lemma_grid_set(g_c, width, height, front, CellContent::Head(eff));
    }
    assert forall|q: (int, int)| in_rect(q, width, height) implies cell_at(gp, q) == (if q == front {
        CellContent::Head(eff)
    } else if q == head {
        CellContent::Body { towards: eff, from: hd }
    } else if !grow && q == path[1] {
        CellContent::Tail(t1)
    } else if !grow && q == path[0] {
        CellContent::Empty
    } else {
        cell_at(g, q)
    }) by {
    }

    // How the advanced path indexes into the old one.
    if grow {
        assert(pp.len() == n + 1);
        assert(forall|i: int| 0 <= i < n ==> pp[i] == path[i]);
        assert(pp[n] == front);
    } else {
        assert(pp.len() == n);
        assert(forall|i: int| 0 <= i < n - 1 ==> pp[i] == path[i + 1]);
        assert(pp[n - 1] == front);
    }

    // No cell appears twice on the advanced path.
    assert forall|i: int, j: int|
        0 <= i < pp.len() && 0 <= j < pp.len() && i != j implies pp[i] != pp[j] by {
    }
    assert(pp.no_duplicates());

    // The grid cells along the advanced path carry the right tags.
    assert(cell_at(gp, pp[0]) is Tail);
    assert forall|i: int| 0 < i < pp.len() - 1 implies cell_at(gp, #[trigger] pp[i]) is Body by {
        if !grow {
            if i < n - 2 {
                assert(cell_at(g, path[i + 1]) is Body);
            }
        } else {
            if i < n - 1 {
                assert(cell_at(g, path[i]) is Body);
            }
        }
    }
    assert(cell_at(gp, pp.last()) is Head);

    // The chain links and entry tags survive the advance.
    assert forall|i: int|
        #![trigger pp[i], pp[i + 1]]
        0 <= i < pp.len() - 1 implies step_coord(pp[i], cell_dir(cell_at(gp, pp[i]))) == pp[i + 1]
        && entry_dir(cell_at(gp, pp[i + 1])) == cell_dir(cell_at(gp, pp[i])) by {
        if !grow {
            if i < n - 2 {
                assert(step_coord(path[i + 1], cell_dir(cell_at(g, path[i + 1]))) == path[i + 2]);
                assert(entry_dir(cell_at(g, path[i + 2])) == cell_dir(cell_at(g, path[i + 1])));
            }
        } else {
            if i < n - 1 {
                assert(step_coord(path[i], cell_dir(cell_at(g, path[i]))) == path[i + 1]);
                assert(entry_dir(cell_at(g, path[i + 1])) == cell_dir(cell_at(g, path[i])));
            }
        }
    }

    // Cells off the advanced path hold no snake segment; without growth
    // the apple is untouched, with growth everything off the path is empty.
    assert forall|p: (int, int)| in_rect(p, width, height) && !pp.contains(p) implies !(
    #[trigger] cell_at(gp, p)).is_snake() && (if grow {
        cell_at(gp, p) is Empty
    } else {
        p == apple || cell_at(gp, p) is Empty
    }) by {
        assert(pp.contains(pp[0]));
        assert(forall|i: int| 0 <= i < pp.len() ==> pp.contains(#[trigger] pp[i]));
        if !grow {
            assert(forall|i: int| 0 < i < n ==> pp[i - 1] == path[i]);
        }
        if p == front || (exists|i: int| 0 <= i < n && path[i] == p && (grow || i > 0)) {
            assert(false);
        } else if !grow && p == path[0] {
            assert(cell_at(gp, p) is Empty);
        } else {
            assert(!path.contains(p));
            assert(cell_at(gp, p) == cell_at(g, p));
            if p != apple {
                assert(cell_at(g, p) is Empty);
            }
            if grow {
                assert(p != apple);
            }
        }
    }
    if !grow {
        assert(!pp.contains(apple)) by {
            if pp.contains(apple) {
                let i = choose|i: int| 0 <= i < pp.len() && pp[i] == apple;
                assert(pp[i] == apple);
                if i < n - 1 {
                    assert(path.contains(path[i + 1]));
                } else {
                    assert(cell_at(g, front) is Empty || front == path[0]);
                    assert(cell_at(g, apple) is Apple);
                    assert(path.contains(path[0]));
                }
            }
        }
        assert(cell_at(gp, apple) == cell_at(g, apple));
    }
}

/// The direction a raw advance walks in: the supplied one, or the head's
/// own when none is supplied.  Unlike [`effective_dir`] this applies no
/// reversal filter; `Model::update` filters before advancing.
pub open spec fn raw_dir(v: ModelView, input: Option<Orientation>) -> Orientation {
    input.unwrap_or(cell_dir(cell_at(v.grid, v.path.last())))
}

/// The direction the head of a well-formed playing model travels in.
pub open spec fn head_dir_of(v: ModelView) -> Orientation {
    cell_dir(cell_at(v.grid, v.path.last()))
}

/// A tick that grows the snake leaves at least one cell for the next
/// apple.  A board filled to the brim is a fatal capacity error the
/// engine must never be driven into.
pub open spec fn growth_fits(v: ModelView, input: Option<Orientation>) -> bool {
    let eff = effective_dir(head_dir_of(v), input);
    let front = step_coord(v.path.last(), eff);
    in_rect(front, v.width, v.height) && cell_at(v.grid, front) is Apple ==> v.snake_len + 1
        < v.width * v.height
}

/// Everything one tick does, as a relation between the model before
/// (`pre`) and after (`post`) and the returned state `r`.  The buffered
/// direction acts only through [`effective_dir`], so a reversal input and
/// no input lead to the same outcomes.  A front cell off the board or
/// holding a body segment ends the game and leaves the board untouched;
/// an empty or tail front cell advances the snake; an apple front cell
/// grows it and replants the apple on a cell that was empty right after
/// the move.
pub open spec fn update_post(
    pre: ModelView,
    post: ModelView,
    input: Option<Orientation>,
    r: GameState,
) -> bool {
    let eff = effective_dir(head_dir_of(pre), input);
    let front = step_coord(pre.path.last(), eff);
    &&& r == post.state
    &&& post.width == pre.width
    &&& post.height == pre.height
    &&& if !in_rect(front, pre.width, pre.height) || cell_at(pre.grid, front) is Body {
        &&& post.state is GameOver
        &&& post.grid == pre.grid
        &&& post.path == pre.path
        &&& post.apple == pre.apple
        &&& post.snake_len == pre.snake_len
    } else if cell_at(pre.grid, front) is Apple {
        &&& post.state is Playing
        &&& post.snake_len == pre.snake_len + 1
        &&& post.path == advance_path(pre.path, eff, true)
        &&& in_rect(post.apple, pre.width, pre.height)
        &&& cell_at(advance_grid(pre.grid, pre.path, eff, true), post.apple) is Empty
        &&& post.grid == grid_set(
            advance_grid(pre.grid, pre.path, eff, true),
            post.apple,
            CellContent::Apple,
        )
    } else {
        &&& post.state is Playing
        &&& post.snake_len == pre.snake_len
        &&& post.grid == advance_grid(pre.grid, pre.path, eff, false)
        &&& post.path == advance_path(pre.path, eff, false)
        &&& post.apple == pre.apple
    }
}

/// The rows of an executable grid as mathematical sequences.
pub open spec fn grid_view(g: Seq<Vec<CellContent>>) -> Seq<Seq<CellContent>> {
    g.map_values(|row: Vec<CellContent>| row@)
}

/// A grid is a valid playing board: some snake path and some apple
/// position satisfy the board invariants on it.
pub open spec fn valid_board(g: Seq<Seq<CellContent>>, width: int, height: int) -> bool {
    exists|path: Seq<(int, int)>, apple: (int, int)|
        path_ok(g, width, height, path) && apple_ok(g, width, height, path, apple)
}

/// The grid has at least one row and one column, all rows are equally
/// long, and the cell count fits the machine.
pub open spec fn board_shape_ok(g: Seq<Seq<CellContent>>) -> bool {
    &&& g.len() >= 1
    &&& g[0].len() >= 1
    &&& (forall|y: int| 0 <= y < g.len() ==> (#[trigger] g[y]).len() == g[0].len())
    &&& g.len() * g[0].len() <= usize::MAX
}

/// A sequence of on-board coordinates, as the mathematical pairs the
/// specifications use.
pub open spec fn coords_view(s: Seq<(usize, usize)>) -> Seq<(int, int)> {
    s.map_values(|p: (usize, usize)| (p.0 as int, p.1 as int))
}

/// The fixed starting shape: a four-cell snake standing in the middle of
/// the board, pointing up, with the apple one cell to its lower left.
pub open spec fn init_cell(width: int, height: int, p: (int, int)) -> CellContent {
    if p == (width / 2, height / 2) {
        CellContent::Head(Orientation::Up)
    } else if p == (width / 2, height / 2 + 1) {
        CellContent::Body { towards: Orientation::Up, from: Orientation::Up }
    } else if p == (width / 2, height / 2 + 2) {
        CellContent::Body { towards: Orientation::Up, from: Orientation::Up }
    } else if p == (width / 2, height / 2 + 3) {
        CellContent::Tail(Orientation::Up)
    } else if p == (width / 2 - 1, height / 2 + 2) {
        CellContent::Apple
    } else {
        CellContent::Empty
    }
}

/// The whole starting grid.
pub open spec fn init_grid(width: int, height: int) -> Seq<Seq<CellContent>> {
    Seq::new(height as nat, |y: int| Seq::new(width as nat, |x: int| init_cell(width, height, (x, y))))
}

/// The starting snake's path, from tail to head.
pub open spec fn init_path(width: int, height: int) -> Seq<(int, int)> {
    seq![
        (width / 2, height / 2 + 3),
        (width / 2, height / 2 + 2),
        (width / 2, height / 2 + 1),
        (width / 2, height / 2),
    ]
}

/// Where the starting apple sits.
pub open spec fn init_apple(width: int, height: int) -> (int, int) {
    (width / 2 - 1, height / 2 + 2)
}

/// Writing a non-snake content to a cell off the path leaves the chain
/// intact.
pub proof fn lemma_offpath_write(
    g: Seq<Seq<CellContent>>,
    width: int,
    height: int,
    path: Seq<(int, int)>,
    q: (int, int),
    c: CellContent,
)
    requires
        grid_rect(g, width, height),
        path_ok(g, width, height, path),
        in_rect(q, width, height),
        !path.contains(q),
        !c.is_snake(),
    ensures
        grid_rect(grid_set(g, q, c), width, height),
        path_ok(grid_set(g, q, c), width, height, path),
{
    lemma_grid_set(g, width, height, q, c);
    let gp = grid_set(g, q, c);
    assert forall|i: int| 0 <= i < path.len() implies cell_at(gp, #[trigger] path[i]) == cell_at(
        g,
        path[i],
    ) by {
        assert(path.contains(path[i]));
    }
    assert(cell_at(gp, path[0]) == cell_at(g, path[0]));
    assert(cell_at(gp, path.last()) == cell_at(g, path.last()));
    assert forall|i: int|
        #![trigger path[i], path[i + 1]]
        0 <= i < path.len() - 1 implies step_coord(path[i], cell_dir(cell_at(gp, path[i])))
        == path[i + 1] && entry_dir(cell_at(gp, path[i + 1])) == cell_dir(
        cell_at(gp, path[i]),
    ) by {
        assert(step_coord(path[i], cell_dir(cell_at(g, path[i]))) == path[i + 1]);
        assert(entry_dir(cell_at(g, path[i + 1])) == cell_dir(cell_at(g, path[i])));
    }
}

/// A fresh all-empty grid of the given dimensions.
fn empty_grid(width: usize, height: usize) -> (g: Vec<Vec<CellContent>>)
    ensures
        g@.len() == height,
        forall|y: int| 0 <= y < height ==> (#[trigger] g@[y])@.len() == width,
        forall|y: int, x: int|
            0 <= y < height && 0 <= x < width ==> (#[trigger] g@[y]@[x]) is Empty,
{
    let mut grid: Vec<Vec<CellContent>> = Vec::new();
    let mut y: usize = 0;
    while y < height
        invariant
            y <= height,
            grid@.len() == y,
            forall|yy: int| 0 <= yy < y ==> (#[trigger] grid@[yy])@.len() == width,
            forall|yy: int, xx: int|
                0 <= yy < y && 0 <= xx < width ==> (#[trigger] grid@[yy]@[xx]) is Empty,
        decreases height - y,
    {
        let mut row: Vec<CellContent> = Vec::new();
        let mut x: usize = 0;
        while x < width
            invariant
                x <= width,
                row@.len() == x,
                forall|xx: int| 0 <= xx < x ==> (#[trigger] row@[xx]) is Empty,
            decreases width - x,
        {
            row.push(CellContent::Empty);
            x = x + 1;
        }
        grid.push(row);
        y = y + 1;
    }
    grid
}

/// A fresh all-false visit mask of the given dimensions.
fn false_grid(width: usize, height: usize) -> (g: Vec<Vec<bool>>)
    ensures
        g@.len() == height,
        forall|y: int| 0 <= y < height ==> (#[trigger] g@[y])@.len() == width,
        forall|y: int, x: int| 0 <= y < height && 0 <= x < width ==> !(#[trigger] g@[y]@[x]),
{
    let mut grid: Vec<Vec<bool>> = Vec::new();
    let mut y: usize = 0;
    while y < height
        invariant
            y <= height,
            grid@.len() == y,
            forall|yy: int| 0 <= yy < y ==> (#[trigger] grid@[yy])@.len() == width,
            forall|yy: int, xx: int|
                0 <= yy < y && 0 <= xx < width ==> !(#[trigger] grid@[yy]@[xx]),
        decreases height - y,
    {
        let mut row: Vec<bool> = Vec::new();
        let mut x: usize = 0;
        while x < width
            invariant
                x <= width,
                row@.len() == x,
                forall|xx: int| 0 <= xx < x ==> !(#[trigger] row@[xx]),
            decreases width - x,
        {
            row.push(false);
            x = x + 1;
        }
        grid.push(row);
        y = y + 1;
    }
    grid
}

/// Relies on rand::random_range: a uniform draw from `0..n` is below `n`,
/// and the call panics only on an empty range, which `0 < n` rules out.
#[verifier::external_body]
fn random_below(n: usize) -> (r: usize)
    requires
        0 < n,
    ensures
        r < n,
{
    rand::random_range(0..n)
}

/// The mathematical image of a [`Model`]: the grid as a sequence of rows,
/// the two ghost coordinates that pin the snake's path and the apple down,
/// and the plain fields.
pub struct ModelView {
    pub grid: Seq<Seq<CellContent>>,
    pub state: GameState,
    pub snake_len: int,
    pub width: int,
    pub height: int,
    pub path: Seq<(int, int)>,
    pub apple: (int, int),
}

impl ModelView {
    /// Everything §invariants promise of a running game: a rectangular
    /// grid, one consistent snake chain, one apple, and a length field
    /// that matches the chain.
    pub open spec fn playing_wf(self) -> bool {
        &&& grid_rect(self.grid, self.width, self.height)
        &&& path_ok(self.grid, self.width, self.height, self.path)
        &&& apple_ok(self.grid, self.width, self.height, self.path, self.apple)
        &&& self.snake_len == self.path.len()
        &&& self.width * self.height <= usize::MAX
    }

    /// The model is well formed: whenever it claims to be playing, the
    /// board invariants hold.
    pub open spec fn wf(self) -> bool {
        self.state is Playing ==> self.playing_wf()
    }

    /// The board is wide and tall enough for the fixed starting shape.
    pub open spec fn dims_ok(self) -> bool {
        &&& self.width >= 2
        &&& self.height >= 7
        &&& self.width * self.height <= usize::MAX
    }
}

/// The whole game model: one grid whose cells encode the snake, the game
/// state, and the snake's length.  The two ghost fields record where the
/// snake and the apple are, so that the invariants can speak of them.
pub struct Model {
    game_state: GameState,
    snake_len: usize,
    width: usize,
    height: usize,
    grid: Vec<Vec<CellContent>>,
    path: Ghost<Seq<(int, int)>>,
    apple: Ghost<(int, int)>,
}

impl View for Model {
    type V = ModelView;

    closed spec fn view(&self) -> ModelView {
        ModelView {
            grid: grid_view(self.grid@),
            state: self.game_state,
            snake_len: self.snake_len as int,
            width: self.width as int,
            height: self.height as int,
            path: self.path@,
            apple: self.apple@,
        }
    }
}

impl Model {

    /// A fresh model: an all-empty `width` x `height` grid, showing the
    /// title screen.
    pub fn new(width: usize, height: usize) -> (r: Model)
        requires
            width >= 2,
            height >= 7,
            width * height <= usize::MAX,
        ensures
            r@.state is TitleScreen,
            r@.width == width,
            r@.height == height,
            r@.snake_len == 4,
            grid_rect(r@.grid, width as int, height as int),
            forall|p: (int, int)|
                in_rect(p, width as int, height as int) ==> #[trigger] cell_at(r@.grid, p)
                    is Empty,
            r@.dims_ok(),
            r@.wf(),
    {
        let grid = empty_grid(width, height);
        Model {
            game_state: GameState::TitleScreen,
            snake_len: 4,
            width,
            height,
            grid,
            path: Ghost(Seq::empty()),
            apple: Ghost((0int, 0int)),
        }
    }

    /// Find the tail and walk the chain cell by cell to the head,
    /// collecting the coordinates passed and refusing to visit any cell
    /// twice.  `None` comes back only from a board that no snake chain
    /// explains.
    #[verifier::rlimit(100)]
    fn walk_chain(&self) -> (r: Option<Vec<(usize, usize)>>)
        requires
            grid_rect(self@.grid, self@.width, self@.height),
            1 <= self@.width,
            1 <= self@.height,
            self@.width * self@.height <= usize::MAX,
        ensures
            match r {
                Some(coords) => {
                    &&& coords@.len() >= 1
                    &&& coords_view(coords@).no_duplicates()
                    &&& chain_shape(self@.grid, self@.width, self@.height, coords_view(coords@))
                },
                None => !valid_board(self@.grid, self@.width, self@.height),
            },
    {
        let ghost gv = self@.grid;
        let ghost w = self@.width;
        let ghost h = self@.height;
        let width = self.width;
        let height = self.height;

        // the witness pair for the only-if direction
        let ghost (pw, pa): (Seq<(int, int)>, (int, int)) = if valid_board(gv, w, h) {
            choose|pw: Seq<(int, int)>, pa: (int, int)|
                path_ok(gv, w, h, pw) && apple_ok(gv, w, h, pw, pa)
        } else {
            (Seq::<(int, int)>::empty(), (0int, 0int))
        };

        let t = match self.find_tail_cell() {
            Some(t) => t,
            None => {
                proof {
                    if valid_board(gv, w, h) {
                        assert(in_rect(pw[0], w, h));
                        assert(cell_at(gv, pw[0]) is Tail);
                    }
                }
                return None;
            },
        };
        proof {
            assert(valid_board(gv, w, h) ==> (t.0 as int, t.1 as int) == pw[0]) by {
                if valid_board(gv, w, h) {
                    lemma_tail_unique(gv, w, h, pw, (t.0 as int, t.1 as int));
                }
            }
        }

        // walk the chain, marking every cell passed
        let mut seen = false_grid(width, height);
        let mut cur = t;
        let mut coords: Vec<(usize, usize)> = Vec::new();
        coords.push(t);
        seen[t.1][t.0] = true;
        proof {
            assert(coords_view(coords@) =~= seq![(t.0 as int, t.1 as int)]);
            assert(1 <= w * h) by (nonlinear_arith)
                requires
                    1 <= w,
                    1 <= h,
            ;
        }
        loop
            invariant_except_break
                gv == self@.grid,
                w == self@.width,
                h == self@.height,
                w == width as int,
                h == height as int,
                1 <= w,
                1 <= h,
                w * h <= usize::MAX,
                grid_rect(gv, w, h),
                valid_board(gv, w, h) ==> path_ok(gv, w, h, pw) && apple_ok(gv, w, h, pw, pa),
                seen@.len() == h,
                forall|y: int| 0 <= y < h ==> (#[trigger] seen@[y])@.len() == w,
                coords@.len() >= 1,
                coords@.len() <= w * h,
                in_rect((cur.0 as int, cur.1 as int), w, h),
                coords_view(coords@).last() == (cur.0 as int, cur.1 as int),
                forall|i: int|
                    0 <= i < coords@.len() ==> in_rect(#[trigger] coords_view(coords@)[i], w, h),
                coords_view(coords@).no_duplicates(),
                forall|y: int, x: int|
                    0 <= y < h && 0 <= x < w ==> ((#[trigger] seen@[y]@[x]) <==> coords_view(
                        coords@,
                    ).contains((x, y))),
                cell_at(gv, coords_view(coords@)[0]) is Tail,
                forall|i: int|
                    0 < i < coords@.len() - 1 ==> cell_at(
                        gv,
                        #[trigger] coords_view(coords@)[i],
                    ) is Body,
                coords@.len() > 1 ==> (cell_at(gv, coords_view(coords@).last()) is Body || cell_at(
                    gv,
                    coords_view(coords@).last(),
                ) is Head),
                forall|i: int|
                    #![trigger coords_view(coords@)[i], coords_view(coords@)[i + 1]]
                    0 <= i < coords@.len() - 1 ==> step_coord(
                        coords_view(coords@)[i],
                        cell_dir(cell_at(gv, coords_view(coords@)[i])),
                    ) == coords_view(coords@)[i + 1] && entry_dir(
                        cell_at(gv, coords_view(coords@)[i + 1]),
                    ) == cell_dir(cell_at(gv, coords_view(coords@)[i])),
                valid_board(gv, w, h) ==> coords@.len() <= pw.len() && (forall|i: int|
                    0 <= i < coords@.len() ==> coords_view(coords@)[i] == pw[i]),
            ensures
                gv == self@.grid,
                coords@.len() >= 1,
                coords_view(coords@).no_duplicates(),
                chain_shape(gv, w, h, coords_view(coords@)),
            decreases w * h - coords@.len(),
        {
            let ghost cs = coords_view(coords@);
            let c = self.cell(cur.0, cur.1);
            if matches!(c, CellContent::Head(_)) {
                proof {
                    assert(cell_at(gv, cs.last()) is Head);
                }
                break;
            }
            proof {
                if coords@.len() == 1 {
                    assert(cell_at(gv, cs[0]) is Tail);
                }
            }
            let o = match c {
                CellContent::Tail(o) => o,
                CellContent::Body { towards, from } => towards,
                _ => {
                    proof {
                        assert(false);
                    }
                    unreached()
                },
            };
            let nxt_opt = step_cell(cur.0, cur.1, o, width, height);
            let ghost target = step_coord((cur.0 as int, cur.1 as int), o);
            proof {
                assert(o == cell_dir(cell_at(gv, cs.last())));
                assert(target == step_coord(cs.last(), cell_dir(cell_at(gv, cs.last()))));
            }
            let nxt = match nxt_opt {
                Some(n) => n,
                None => {
                    proof {
                        assert(!in_rect(target, w, h));
                        if valid_board(gv, w, h) {
                            lemma_walk_step(gv, w, h, pw, cs);
                        }
                    }
                    return None;
                },
            };
            proof {
                assert((nxt.0 as int, nxt.1 as int) == target);
                assert(in_rect(target, w, h));
            }
            let nc = self.cell(nxt.0, nxt.1);
            let ok_link = match nc {
                CellContent::Body { towards, from } => from == o,
                CellContent::Head(ho) => ho == o,
                _ => false,
            };
            if !ok_link {
                proof {
                    if valid_board(gv, w, h) {
                        lemma_walk_step(gv, w, h, pw, cs);
                        assert(target == pw[cs.len() as int]);
                    }
                }
                return None;
            }
            let already = seen[nxt.1][nxt.0];
            if already {
                proof {
                    assert(cs.contains((nxt.0 as int, nxt.1 as int)));
                    if valid_board(gv, w, h) {
                        lemma_walk_step(gv, w, h, pw, cs);
                        let j = choose|j: int|
                            0 <= j < cs.len() && cs[j] == (nxt.0 as int, nxt.1 as int);
                        assert(cs[j] == pw[j]);
                        assert(target == pw[cs.len() as int]);
                        assert(pw[j] == pw[cs.len() as int]);
                    }
                }
                return None;
            }
            let ghost seen0 = seen@;
            seen[nxt.1][nxt.0] = true;
            coords.push(nxt);
            cur = nxt;
            proof {
                let cs2 = coords_view(coords@);
                assert(cs2 =~= cs.push((nxt.0 as int, nxt.1 as int)));
                assert(!cs.contains((nxt.0 as int, nxt.1 as int)));
                assert forall|i: int, j: int|
                    0 <= i < cs2.len() && 0 <= j < cs2.len() && i != j implies cs2[i] != cs2[j] by {
                    if i < cs2.len() - 1 && j < cs2.len() - 1 {
                        assert(cs2[i] == cs[i] && cs2[j] == cs[j]);
                    }
                }
                assert(cs2.no_duplicates());
                lemma_coords_len_bound(cs2, w, h);
                assert forall|y: int, x: int| 0 <= y < h && 0 <= x < w implies ((#[trigger] seen@[y]@[x])
                    <==> cs2.contains((x, y))) by {
                    if (x, y) == (nxt.0 as int, nxt.1 as int) {
                        assert(seen@[y]@[x]);
                        assert(cs2[cs2.len() - 1] == (x, y));
                        assert(cs2.contains((x, y)));
                    } else {
                        if y == nxt.1 as int {
                            assert(seen@[y]@[x] == seen0[y]@[x]);
                        } else {
                            assert(seen@[y] == seen0[y]);
                        }
                        assert(seen0[y]@[x] <==> cs.contains((x, y)));
                        if cs2.contains((x, y)) {
                            let i = choose|i: int| 0 <= i < cs2.len() && cs2[i] == (x, y);
                            assert(i < cs2.len() - 1);
                            assert(cs[i] == (x, y));
                            assert(cs.contains((x, y)));
                        }
                        if cs.contains((x, y)) {
                            let i = choose|i: int| 0 <= i < cs.len() && cs[i] == (x, y);
                            assert(cs2[i] == (x, y));
                            assert(cs2.contains((x, y)));
                        }
                    }
                }
                assert(valid_board(gv, w, h) ==> cs2.len() <= pw.len() && (forall|i: int|
                    0 <= i < cs2.len() ==> cs2[i] == pw[i])) by {
                    if valid_board(gv, w, h) {
                        lemma_walk_step(gv, w, h, pw, cs);
                        assert(target == pw[cs.len() as int]);
                        assert forall|i: int| 0 <= i < cs2.len() implies cs2[i] == pw[i] by {
                            if i < cs2.len() - 1 {
                                assert(cs2[i] == cs[i]);
                            } else {
                                assert(cs2[i] == (nxt.0 as int, nxt.1 as int));
                            }
                        }
                    }
                }
            }
        }
        Some(coords)
    }

    /// Validate an arbitrary grid as a playing board.  On success the
    /// returned model is playing on exactly that grid.  `None` comes back
    /// if and only if the grid is misshapen or no snake chain and apple
    /// position satisfy the board invariants on it.
    #[verifier::rlimit(100)]
    pub fn from_grid(grid: Vec<Vec<CellContent>>) -> (r: Option<Model>)
        ensures
            match r {
                Some(m) => {
                    &&& m@.state is Playing
                    &&& m@.playing_wf()
                    &&& m@.height == grid@.len()
                    &&& m@.width == grid@[0]@.len()
                    &&& m@.grid == grid_view(grid@)
                    &&& m@.snake_len == m@.path.len()
                },
                None => !(board_shape_ok(grid_view(grid@)) && valid_board(
                    grid_view(grid@),
                    grid@[0]@.len() as int,
                    grid@.len() as int,
                )),
            },
    {
        let ghost gv = grid_view(grid@);
        let height = grid.len();
        if height == 0 {
            return None;
        }
        let width = grid[0].len();
        if width == 0 {
            return None;
        }
        let mut yy: usize = 1;
        while yy < height
            invariant
                1 <= yy <= height,
                gv == grid_view(grid@),
                height == grid@.len(),
                width == gv[0].len(),
                forall|y: int| 0 <= y < yy ==> (#[trigger] gv[y]).len() == width,
            decreases height - yy,
        {
            if grid[yy].len() != width {
                proof {
                    assert(gv[yy as int] == grid@[yy as int]@);
                    assert(gv[yy as int].len() != gv[0].len());
                }
                return None;
            }
            yy = yy + 1;
        }
        if width.checked_mul(height).is_none() {
            proof {
                assert(gv.len() == height as int);
                assert(gv[0] == grid@[0]@);
            }
            return None;
        }
        let ghost w = width as int;
        let ghost h = height as int;
        proof {
            assert(gv.len() == height as int);
            assert(gv[0] == grid@[0]@);
            assert(grid_rect(gv, w, h));
            assert(board_shape_ok(gv));
        }

        // the witness pair for the only-if direction
        let ghost (pw, pa): (Seq<(int, int)>, (int, int)) = if valid_board(gv, w, h) {
            choose|pw: Seq<(int, int)>, pa: (int, int)|
                path_ok(gv, w, h, pw) && apple_ok(gv, w, h, pw, pa)
        } else {
            (Seq::<(int, int)>::empty(), (0int, 0int))
        };

        let mut m = Model {
            game_state: GameState::TitleScreen,
            snake_len: 0,
            width,
            height,
            grid,
            path: Ghost(Seq::empty()),
            apple: Ghost((0int, 0int)),
        };
        proof {
            assert(m@.grid =~= gv);
        }

        // exactly one apple
        let (scount, acount, first_a) = m.scan_counts();
        if acount != 1 {
            proof {
                if valid_board(gv, w, h) {
                    let apples = cells_with(gv, w, h, |c: CellContent| c is Apple);
                    assert(apples =~= set![pa]) by {
                        assert forall|p: (int, int)| #[trigger] apples.contains(p) implies p
                            == pa by {
                            lemma_apple_unique(gv, w, h, pw, pa, p);
                        }
                        assert(in_rect(pa, w, h));
                    }
                }
            }
            return None;
        }
        let fa = match first_a {
            Some(a) => a,
            None => {
                proof {
                    assert(false);
                }
                unreached()
            },
        };

        // the unique tail starts the walk
        let coords = match m.walk_chain() {
            Some(cs) => cs,
            None => {
                return None;
            },
        };
        let ghost cs = coords_view(coords@);
        proof {
            assert(valid_board(gv, w, h) ==> cs == pw) by {
                if valid_board(gv, w, h) {
                    assert(in_rect(cs[0], w, h));
                    lemma_tail_unique(gv, w, h, pw, cs[0]);
                    lemma_chain_align(gv, w, h, pw, cs, 0);
                    assert(cs =~= pw);
                }
            }
        }

        // reject a chain too short to have a body
        if coords.len() < 3 {
            proof {
                if valid_board(gv, w, h) {
                    assert(coords@.len() == pw.len());
                }
            }
            return None;
        }

        // every snake cell on the board must lie on the walked chain
        let n = coords.len();
        if scount != n {
            proof {
                let cs = coords_view(coords@);
                if valid_board(gv, w, h) {
                    let snakes = cells_with(gv, w, h, |c: CellContent| c.is_snake());
                    assert(cs =~= pw);
                    assert(snakes =~= pw.to_set()) by {
                        assert forall|p: (int, int)| #[trigger] snakes.contains(p) implies pw
                            .to_set().contains(p) by {
                            assert(pw.contains(p));
                        }
                        assert forall|p: (int, int)| pw.to_set().contains(p) implies snakes
                            .contains(p) by {
                            let i = choose|i: int| 0 <= i < pw.len() && pw[i] == p;
                            assert(in_rect(pw[i], w, h));
                            if i == 0 {
                                assert(cell_at(gv, pw[0]) is Tail);
                            } else if i == pw.len() - 1 {
                                assert(cell_at(gv, pw.last()) is Head);
                            } else {
                                assert(cell_at(gv, pw[i]) is Body);
                            }
                        }
                    }
                    lemma_coords_len_bound(pw, w, h);
                }
            }
            return None;
        }

        // the walk succeeded and the counts agree: the board is valid
        proof {
            let snakes = cells_with(gv, w, h, |c: CellContent| c.is_snake());
            let apples = cells_with(gv, w, h, |c: CellContent| c is Apple);
            lemma_coords_len_bound(cs, w, h);
            assert(cs.to_set().subset_of(snakes)) by {
                assert forall|p: (int, int)| cs.to_set().contains(p) implies snakes.contains(
                    p,
                ) by {
                    let i = choose|i: int| 0 <= i < cs.len() && cs[i] == p;
                    assert(in_rect(cs[i], w, h));
                    if i == 0 {
                        assert(cell_at(gv, cs[0]) is Tail);
                    } else if i == cs.len() - 1 {
                        assert(cell_at(gv, cs.last()) is Head);
                    } else {
                        assert(cell_at(gv, cs[i]) is Body);
                    }
                }
            }
            vstd::set_lib::lemma_subset_equality(cs.to_set(), snakes);
            assert(cs.to_set() =~= snakes);

            assert(apples.contains((fa.0 as int, fa.1 as int)));
            lemma_singleton(apples, (fa.0 as int, fa.1 as int));

            // path_ok: all chain clauses come from the walk, and no snake
            // cell sits off the chain
            assert forall|p: (int, int)|
                in_rect(p, w, h) && !cs.contains(p) implies !(#[trigger] cell_at(
                gv,
                p,
            )).is_snake() by {
                if cell_at(gv, p).is_snake() {
                    assert(snakes.contains(p));
                    assert(cs.to_set().contains(p));
                }
            }
            assert(path_ok(gv, w, h, cs));

            // apple_ok: the single apple lies off the chain and every
            // other off-chain cell is empty
            assert(!cs.contains((fa.0 as int, fa.1 as int))) by {
                if cs.contains((fa.0 as int, fa.1 as int)) {
                    assert(cs.to_set().contains((fa.0 as int, fa.1 as int)));
                    assert(snakes.contains((fa.0 as int, fa.1 as int)));
                }
            }
            assert forall|p: (int, int)|
                in_rect(p, w, h) && !cs.contains(p) && p != (fa.0 as int, fa.1 as int) implies
                #[trigger] cell_at(gv, p) is Empty by {
                if cell_at(gv, p).is_snake() {
                    assert(snakes.contains(p));
                    assert(cs.to_set().contains(p));
                }
                if cell_at(gv, p) is Apple {
                    assert(apples.contains(p));
                }
            }
            assert(apple_ok(gv, w, h, cs, (fa.0 as int, fa.1 as int)));
        }

        m.snake_len = n;
        m.game_state = GameState::Playing;
        m.path = Ghost(cs);
        m.apple = Ghost((fa.0 as int, fa.1 as int));
        proof {
            assert(valid_board(gv, w, h)) by {
                assert(path_ok(gv, w, h, cs) && apple_ok(gv, w, h, cs, (fa.0 as int, fa.1 as int)));
            }
            assert(m@.playing_wf());
        }
        Some(m)
    }

    /// The current state of the game.
    pub fn game_state(&self) -> (r: GameState)
        ensures
            r == self@.state,
    {
        self.game_state
    }

    /// The snake's current length, which is also the score.
    pub fn snake_len(&self) -> (r: usize)
        ensures
            r == self@.snake_len,
    {
        self.snake_len
    }

    /// The board's width in cells.
    pub fn width(&self) -> (r: usize)
        ensures
            r == self@.width,
    {
        self.width
    }

    /// The board's height in cells.
    pub fn height(&self) -> (r: usize)
        ensures
            r == self@.height,
    {
        self.height
    }

    /// An owned deep copy of the grid, for handing across the rendering
    /// boundary: the engine never shares a live reference to its board.
    pub fn grid_snapshot(&self) -> (r: Vec<Vec<CellContent>>)
        requires
            grid_rect(self@.grid, self@.width, self@.height),
        ensures
            grid_view(r@) == self@.grid,
    {
        let mut out: Vec<Vec<CellContent>> = Vec::new();
        let mut y: usize = 0;
        while y < self.height
            invariant
                grid_rect(self@.grid, self@.width, self@.height),
                y <= self@.height,
                out@.len() == y,
                forall|yy: int| 0 <= yy < y ==> (#[trigger] out@[yy])@ == self@.grid[yy],
            decreases self@.height - y,
        {
            let mut row: Vec<CellContent> = Vec::new();
            let mut x: usize = 0;
            while x < self.width
                invariant
                    grid_rect(self@.grid, self@.width, self@.height),
                    y < self@.height,
                    x <= self@.width,
                    row@.len() == x,
                    forall|xx: int| 0 <= xx < x ==> (#[trigger] row@[xx]) == self@.grid[y as int][xx],
                decreases self@.width - x,
            {
                row.push(self.cell(x, y));
                x = x + 1;
            }
            proof {
                assert(row@ =~= self@.grid[y as int]);
            }
            out.push(row);
            y = y + 1;
        }
        proof {
            assert(grid_view(out@) =~= self@.grid);
        }
        out
    }

    /// The content of cell `(x, y)`, or `None` outside the board.
    pub fn get_cell(&self, x: usize, y: usize) -> (r: Option<CellContent>)
        requires
            grid_rect(self@.grid, self@.width, self@.height),
        ensures
            r == if in_rect((x as int, y as int), self@.width, self@.height) {
                Some(cell_at(self@.grid, (x as int, y as int)))
            } else {
                None::<CellContent>
            },
    {
        if y < self.grid.len() {
            let row = &self.grid[y];
            if x < row.len() {
                return Some(row[x]);
            }
        }
        None
    }

    /// The content of a cell known to lie on the board.
    fn cell(&self, x: usize, y: usize) -> (r: CellContent)
        requires
            grid_rect(self@.grid, self@.width, self@.height),
            in_rect((x as int, y as int), self@.width, self@.height),
        ensures
            r == cell_at(self@.grid, (x as int, y as int)),
    {
        proof {
            assert(self.grid@[y as int]@ == self@.grid[y as int]);
        }
        self.grid[y][x]
    }

    /// Scan the grid in row-major order for the first `Head` cell, if any.
    fn find_head_cell(&self) -> (r: Option<(usize, usize)>)
        requires
            grid_rect(self@.grid, self@.width, self@.height),
        ensures
            match r {
                Some(p) => in_rect((p.0 as int, p.1 as int), self@.width, self@.height) && cell_at(
                    self@.grid,
                    (p.0 as int, p.1 as int),
                ) is Head,
                None => forall|p: (int, int)|
                    in_rect(p, self@.width, self@.height) ==> !(#[trigger] cell_at(self@.grid, p)
                        is Head),
            },
    {
        let mut y: usize = 0;
        while y < self.height
            invariant
                y <= self@.height,
                grid_rect(self@.grid, self@.width, self@.height),
                forall|p: (int, int)|
                    in_rect(p, self@.width, self@.height) && p.1 < y ==> !(#[trigger] cell_at(
                        self@.grid,
                        p,
                    ) is Head),
            decreases self@.height - y,
        {
            let mut x: usize = 0;
            while x < self.width
                invariant
                    x <= self@.width,
                    y < self@.height,
                    grid_rect(self@.grid, self@.width, self@.height),
                    forall|p: (int, int)|
                        in_rect(p, self@.width, self@.height) && (p.1 < y || (p.1 == y && p.0 < x))
                            ==> !(#[trigger] cell_at(self@.grid, p) is Head),
                decreases self@.width - x,
            {
                if matches!(self.cell(x, y), CellContent::Head(_)) {
                    return Some((x, y));
                }
                x = x + 1;
            }
            y = y + 1;
        }
        None
    }

    /// Scan the grid in row-major order for the first `Tail` cell, if any.
    fn find_tail_cell(&self) -> (r: Option<(usize, usize)>)
        requires
            grid_rect(self@.grid, self@.width, self@.height),
        ensures
            match r {
                Some(p) => in_rect((p.0 as int, p.1 as int), self@.width, self@.height) && cell_at(
                    self@.grid,
                    (p.0 as int, p.1 as int),
                ) is Tail,
                None => forall|p: (int, int)|
                    in_rect(p, self@.width, self@.height) ==> !(#[trigger] cell_at(self@.grid, p)
                        is Tail),
            },
    {
        let mut y: usize = 0;
        while y < self.height
            invariant
                y <= self@.height,
                grid_rect(self@.grid, self@.width, self@.height),
                forall|p: (int, int)|
                    in_rect(p, self@.width, self@.height) && p.1 < y ==> !(#[trigger] cell_at(
                        self@.grid,
                        p,
                    ) is Tail),
            decreases self@.height - y,
        {
            let mut x: usize = 0;
            while x < self.width
                invariant
                    x <= self@.width,
                    y < self@.height,
                    grid_rect(self@.grid, self@.width, self@.height),
                    forall|p: (int, int)|
                        in_rect(p, self@.width, self@.height) && (p.1 < y || (p.1 == y && p.0 < x))
                            ==> !(#[trigger] cell_at(self@.grid, p) is Tail),
                decreases self@.width - x,
            {
                if matches!(self.cell(x, y), CellContent::Tail(_)) {
                    return Some((x, y));
                }
                x = x + 1;
            }
            y = y + 1;
        }
        None
    }

    /// The coordinates of the unique `Head` cell.
    pub fn head_coordinates(&self) -> (r: (usize, usize))
        requires
            grid_rect(self@.grid, self@.width, self@.height),
            path_ok(self@.grid, self@.width, self@.height, self@.path),
        ensures
            (r.0 as int, r.1 as int) == self@.path.last(),
            in_rect((r.0 as int, r.1 as int), self@.width, self@.height),
    {
        match self.find_head_cell() {
            Some(p) => {
                proof {
                    lemma_head_unique(
                        self@.grid,
                        self@.width,
                        self@.height,
                        self@.path,
                        (p.0 as int, p.1 as int),
                    );
                }
                p
            },
            None => {
                proof {
                    let hp = self@.path.last();
                    assert(in_rect(hp, self@.width, self@.height));
                    assert(cell_at(self@.grid, hp) is Head);
                    assert(false);
                }
                unreached()
            },
        }
    }

    /// The coordinates of the unique `Tail` cell.
    pub fn tail_coordinates(&self) -> (r: (usize, usize))
        requires
            grid_rect(self@.grid, self@.width, self@.height),
            path_ok(self@.grid, self@.width, self@.height, self@.path),
        ensures
            (r.0 as int, r.1 as int) == self@.path[0],
            in_rect((r.0 as int, r.1 as int), self@.width, self@.height),
    {
        match self.find_tail_cell() {
            Some(p) => {
                proof {
                    lemma_tail_unique(
                        self@.grid,
                        self@.width,
                        self@.height,
                        self@.path,
                        (p.0 as int, p.1 as int),
                    );
                }
                p
            },
            None => {
                proof {
                    let tp = self@.path[0];
                    assert(in_rect(tp, self@.width, self@.height));
                    assert(cell_at(self@.grid, tp) is Tail);
                    assert(false);
                }
                unreached()
            },
        }
    }

    /// Reset the board to the fixed starting shape: every cell emptied,
    /// then the four snake cells and the apple written near the middle.
    fn initialize_grid(&mut self)
        requires
            old(self)@.width >= 2,
            old(self)@.height >= 7,
        ensures
            final(self)@.grid == init_grid(old(self)@.width, old(self)@.height),
            final(self)@.path == init_path(old(self)@.width, old(self)@.height),
            final(self)@.apple == init_apple(old(self)@.width, old(self)@.height),
            final(self)@.snake_len == 4,
            final(self)@.state == old(self)@.state,
            final(self)@.width == old(self)@.width,
            final(self)@.height == old(self)@.height,
            grid_rect(final(self)@.grid, old(self)@.width, old(self)@.height),
            path_ok(final(self)@.grid, old(self)@.width, old(self)@.height, final(self)@.path),
            apple_ok(
                final(self)@.grid,
                old(self)@.width,
                old(self)@.height,
                final(self)@.path,
                final(self)@.apple,
            ),
    {
        let ghost w = self@.width;
        let ghost h = self@.height;
        let grid = empty_grid(self.width, self.height);
        self.grid = grid;
        let ghost g0 = self@.grid;
        proof {
            assert(grid_rect(g0, w, h));
        }
        let cx = self.width / 2;
        let cy = self.height / 2;
        self.set_cell(cx, cy, CellContent::Head(Orientation::Up));
        self.set_cell(cx, cy + 1, CellContent::Body { towards: Orientation::Up, from: Orientation::Up });
        self.set_cell(cx, cy + 2, CellContent::Body { towards: Orientation::Up, from: Orientation::Up });
        self.set_cell(cx, cy + 3, CellContent::Tail(Orientation::Up));
        self.set_cell(cx - 1, cy + 2, CellContent::Apple);
        self.snake_len = 4;
        self.path = Ghost(init_path(w, h));
        self.apple = Ghost(init_apple(w, h));
        proof {
            let g1 = grid_set(g0, (w / 2, h / 2), CellContent::Head(Orientation::Up));
            let b = CellContent::Body { towards: Orientation::Up, from: Orientation::Up };
            let g2 = grid_set(g1, (w / 2, h / 2 + 1), b);
            let g3 = grid_set(g2, (w / 2, h / 2 + 2), b);
            let g4 = grid_set(g3, (w / 2, h / 2 + 3), CellContent::Tail(Orientation::Up));
            lemma_grid_set(g0, w, h, (w / 2, h / 2), CellContent::Head(Orientation::Up));
            lemma_grid_set(g1, w, h, (w / 2, h / 2 + 1), b);
            lemma_grid_set(g2, w, h, (w / 2, h / 2 + 2), b);
            lemma_grid_set(g3, w, h, (w / 2, h / 2 + 3), CellContent::Tail(Orientation::Up));
            lemma_grid_set(g4, w, h, (w / 2 - 1, h / 2 + 2), CellContent::Apple);
            assert forall|p: (int, int)| in_rect(p, w, h) implies cell_at(self@.grid, p)
                == init_cell(w, h, p) by {
            }
            assert forall|y: int| 0 <= y < h implies self@.grid[y] =~= init_grid(w, h)[y] by {
                assert forall|x: int| 0 <= x < w implies self@.grid[y][x] == init_grid(w, h)[y][x] by {
                    assert(cell_at(self@.grid, (x, y)) == init_cell(w, h, (x, y)));
                }
            }
            assert(self@.grid =~= init_grid(w, h));
            assert(path_ok(self@.grid, w, h, init_path(w, h))) by {
                let path = init_path(w, h);
                assert(path.len() == 4);
                assert(path[0] == (w / 2, h / 2 + 3));
                assert(path[1] == (w / 2, h / 2 + 2));
                assert(path[2] == (w / 2, h / 2 + 1));
                assert(path[3] == (w / 2, h / 2));
                assert(path.last() == (w / 2, h / 2));
                assert forall|p: (int, int)|
                    in_rect(p, w, h) && !path.contains(p) implies !(#[trigger] cell_at(
                    self@.grid,
                    p,
                )).is_snake() by {
                    assert(cell_at(self@.grid, p) == init_cell(w, h, p));
                }
            }
            assert(apple_ok(self@.grid, w, h, init_path(w, h), init_apple(w, h))) by {
                let path = init_path(w, h);
                assert forall|p: (int, int)|
                    in_rect(p, w, h) && !path.contains(p) && p != init_apple(w, h) implies
                    #[trigger] cell_at(self@.grid, p) is Empty by {
                    assert(cell_at(self@.grid, p) == init_cell(w, h, p));
                }
            }
        }
    }

    /// Begin a round: from the title screen or after a game over, reset
    /// the board to the fixed starting shape and start playing.  A no-op
    /// while a game is already running.
    pub fn start_game(&mut self)
        requires
            old(self)@.dims_ok(),
            old(self)@.wf(),
        ensures
            final(self)@.wf(),
            final(self)@.dims_ok(),
            final(self)@.width == old(self)@.width,
            final(self)@.height == old(self)@.height,
            old(self)@.state is Playing ==> final(self)@ == old(self)@,
            !(old(self)@.state is Playing) ==> final(self)@ == (ModelView {
                state: GameState::Playing,
                grid: init_grid(old(self)@.width, old(self)@.height),
                snake_len: 4,
                path: init_path(old(self)@.width, old(self)@.height),
                apple: init_apple(old(self)@.width, old(self)@.height),
                ..old(self)@
            }),
    {
        match self.game_state {
            GameState::TitleScreen | GameState::GameOver => {
                self.initialize_grid();
                self.game_state = GameState::Playing;
            },
            GameState::Playing => {},
        }
    }

    /// Drop to the game-over state; the board is left as it stands, so
    /// the renderer can still show the final position.
    fn game_over(&mut self)
        ensures
            final(self)@ == (ModelView { state: GameState::GameOver, ..old(self)@ }),
    {
        self.game_state = GameState::GameOver;
    }

    /// One tick of the game.  The buffered direction is applied unless it
    /// would reverse the head in place; the cell in front of the head then
    /// decides: off the board or a body segment ends the game, an empty
    /// cell or the vacating tail advances the snake, and the apple grows
    /// it by one and replants the apple on a uniformly random empty cell.
    /// Returns the state the game is in afterwards.
    pub fn update(&mut self, input_direction: Option<Orientation>) -> (r: GameState)
        requires
            old(self)@.state is Playing,
            old(self)@.playing_wf(),
            growth_fits(old(self)@, input_direction),
        ensures
            final(self)@.wf(),
            update_post(old(self)@, final(self)@, input_direction, r),
    {
        let ghost g = self@.grid;
        let ghost w = self@.width;
        let ghost h = self@.height;
        let ghost path = self@.path;
        let ghost apple = self@.apple;

        let hc = self.head_coordinates();
        let head = self.cell(hc.0, hc.1);
        let ho = match head {
            CellContent::Head(o) => o,
            _ => {
                proof {
                    assert(cell_at(g, path.last()) is Head);
                }
                unreached()
            },
        };
        proof {
            assert(ho == head_dir_of(self@));
        }

        // A buffered turn straight back into the neck is discarded.
        let mut dir = input_direction;
        if let Some(d) = dir {
            if d.is_opposite(ho) {
                dir = None;
            }
        }
        let eff_o = match dir {
            Some(d) => d,
            None => ho,
        };
        let ghost eff = effective_dir(ho, input_direction);
        proof {
            assert(eff_o == eff);
            assert(eff == raw_dir(self@, dir));
        }

        // The cell in front of the head, `None` when it would leave the board.
        let front_opt: Option<(usize, usize)> = match eff_o {
            Orientation::Up => if hc.1 >= 1 {
                Some((hc.0, hc.1 - 1))
            } else {
                None
            },
            Orientation::Down => if hc.1 + 1 < self.height {
                Some((hc.0, hc.1 + 1))
            } else {
                None
            },
            Orientation::Left => if hc.0 >= 1 {
                Some((hc.0 - 1, hc.1))
            } else {
                None
            },
            Orientation::Right => if hc.0 + 1 < self.width {
                Some((hc.0 + 1, hc.1))
            } else {
                None
            },
        };
        let ghost front = step_coord(path.last(), eff);
        proof {
            match front_opt {
                Some(p) => {
                    assert((p.0 as int, p.1 as int) == front);
                    assert(in_rect(front, w, h));
                },
                None => {
                    assert(!in_rect(front, w, h));
                },
            }
        }

        let fr = match front_opt {
            Some(fr) => fr,
            None => {
                // Wall collision.
                self.game_over();
                return GameState::GameOver;
            },
        };

        let front_c = self.cell(fr.0, fr.1);
        match front_c {
            CellContent::Body { towards, from } => {
                // Self-collision.
                self.game_over();
                GameState::GameOver
            },
            CellContent::Head(o) => {
                proof {
                    lemma_head_unique(g, w, h, path, front);
                    lemma_step_moves(path.last(), eff);
                    assert(false);
                }
                unreached()
            },
            CellContent::Apple => {
                self.advance_snake(dir, true);
                proof {
                    lemma_advance(g, w, h, path, apple, eff, true);
                }
                self.snake_len = self.snake_len + 1;
                self.spawn_apple();
                GameState::Playing
            },
            CellContent::Empty | CellContent::Tail(_) => {
                proof {
                    if cell_at(g, front) is Tail {
                        lemma_tail_unique(g, w, h, path, front);
                    }
                }
                self.advance_snake(dir, false);
                proof {
                    lemma_advance(g, w, h, path, apple, eff, false);
                }
                GameState::Playing
            },
        }
    }

    /// Walk the chain from the tail to the head, following the direction
    /// stored in each cell, and collect the coordinates passed.  This walk
    /// is what the grid-embedded representation costs: no separate list
    /// records the snake, so recovering it is linear in its length.
    pub fn snake_coordinates(&self) -> (coords: Vec<(usize, usize)>)
        requires
            grid_rect(self@.grid, self@.width, self@.height),
            path_ok(self@.grid, self@.width, self@.height, self@.path),
        ensures
            coords@.len() == self@.path.len(),
            forall|j: int|
                0 <= j < coords@.len() ==> ((#[trigger] coords@[j]).0 as int, coords@[j].1 as int)
                    == self@.path[j],
    {
        let ghost g = self@.grid;
        let ghost w = self@.width;
        let ghost h = self@.height;
        let ghost path = self@.path;
        let (mut x, mut y) = self.tail_coordinates();
        let mut coords: Vec<(usize, usize)> = Vec::new();
        coords.push((x, y));
        let ghost mut i: int = 0;
        loop
            invariant_except_break
                g == self@.grid,
                w == self@.width,
                h == self@.height,
                path == self@.path,
                grid_rect(g, w, h),
                path_ok(g, w, h, path),
                0 <= i < path.len(),
                (x as int, y as int) == path[i],
                coords@.len() == i + 1,
                forall|j: int|
                    0 <= j <= i ==> ((#[trigger] coords@[j]).0 as int, coords@[j].1 as int)
                        == path[j],
            ensures
                coords@.len() == path.len(),
                forall|j: int|
                    0 <= j < coords@.len() ==> ((#[trigger] coords@[j]).0 as int, coords@[j].1
                        as int) == path[j],
            decreases path.len() - i,
        {
            let c = self.cell(x, y);
            if matches!(c, CellContent::Head(_)) {
                proof {
                    lemma_head_unique(g, w, h, path, (x as int, y as int));
                    assert(path[i] == path[path.len() - 1]);
                    assert(i == path.len() - 1);
                }
                break;
            }
            proof {
                if i == path.len() - 1 {
                    assert(cell_at(g, path.last()) is Head);
                }
                assert(i < path.len() - 1);
                assert(path[i + 1] == step_coord(path[i], cell_dir(cell_at(g, path[i]))));
                assert(in_rect(path[i + 1], w, h));
            }
            let o = match c {
                CellContent::Tail(o) => o,
                CellContent::Body { towards, from } => towards,
                CellContent::Head(o) => o,
                _ => {
                    proof {
                        if i == 0 {
                            assert(cell_at(g, path[0]) is Tail);
                        } else {
                            assert(cell_at(g, path[i]) is Body);
                        }
                    }
                    unreached()
                },
            };
            let nxt: (usize, usize) = match o {
                Orientation::Up => (x, y - 1),
                Orientation::Down => (x, y + 1),
                Orientation::Left => (x - 1, y),
                Orientation::Right => (x + 1, y),
            };
            x = nxt.0;
            y = nxt.1;
            coords.push((x, y));
            proof {
                i = i + 1;
            }
        }
        coords
    }

    /// Move the snake one cell in the walking direction — the supplied one,
    /// or straight ahead if none is supplied.  With `apple_is_eaten` the
    /// tail stays put (the snake grows); otherwise the tail cell empties
    /// and the next segment becomes the tail.  The caller must have ruled
    /// out walls and self-collisions; `snake_len` is not touched here.
    pub fn advance_snake(&mut self, input_direction: Option<Orientation>, apple_is_eaten: bool)
        requires
            grid_rect(old(self)@.grid, old(self)@.width, old(self)@.height),
            path_ok(old(self)@.grid, old(self)@.width, old(self)@.height, old(self)@.path),
            apple_ok(
                old(self)@.grid,
                old(self)@.width,
                old(self)@.height,
                old(self)@.path,
                old(self)@.apple,
            ),
            can_advance(
                old(self)@.grid,
                old(self)@.width,
                old(self)@.height,
                old(self)@.path,
                raw_dir(old(self)@, input_direction),
                apple_is_eaten,
            ),
        ensures
            final(self)@.grid == advance_grid(
                old(self)@.grid,
                old(self)@.path,
                raw_dir(old(self)@, input_direction),
                apple_is_eaten,
            ),
            final(self)@.path == advance_path(
                old(self)@.path,
                raw_dir(old(self)@, input_direction),
                apple_is_eaten,
            ),
            final(self)@.state == old(self)@.state,
            final(self)@.snake_len == old(self)@.snake_len,
            final(self)@.width == old(self)@.width,
            final(self)@.height == old(self)@.height,
            final(self)@.apple == old(self)@.apple,
    {
        let ghost g = self@.grid;
        let ghost w = self@.width;
        let ghost h = self@.height;
        let ghost path = self@.path;
        let ghost n = self@.path.len() as int;

        let coords = self.snake_coordinates();

        if !apple_is_eaten {
            let t = coords[0];
            let s = coords[1];
            let snd = self.cell(s.0, s.1);
            let next_tail_o = match snd {
                CellContent::Body { towards, from } => towards,
                _ => {
                    proof {
                        assert(cell_at(g, path[1]) is Body);
                    }
                    unreached()
                },
            };
            self.set_cell(t.0, t.1, CellContent::Empty);
            proof {
                lemma_grid_set(g, w, h, path[0], CellContent::Empty);
            }
            self.set_cell(s.0, s.1, CellContent::Tail(next_tail_o));
        }

        let hc = coords[coords.len() - 1];
        proof {
            assert((hc.0 as int, hc.1 as int) == path[n - 1]);
            assert(path[n - 1] == path.last());
            if !apple_is_eaten {
                // the two tail writes did not touch the head cell
                lemma_grid_set(g, w, h, path[0], CellContent::Empty);
                lemma_grid_set(
                    grid_set(g, path[0], CellContent::Empty),
                    w,
                    h,
                    path[1],
                    CellContent::Tail(cell_dir(cell_at(g, path[1]))),
                );
                assert(path.last() != path[0] && path.last() != path[1]);
                assert(cell_at(self@.grid, path.last()) == cell_at(g, path.last()));
            }
        }
        let head_c = self.cell(hc.0, hc.1);
        match head_c {
            CellContent::Head(ho) => {
                proof {
                    assert(ho == cell_dir(cell_at(g, path.last())));
                }
                let eff = match input_direction {
                    Some(d) => d,
                    None => ho,
                };
                proof {
                    assert(eff == raw_dir(old(self)@, input_direction));
                    assert(in_rect(step_coord(path.last(), eff), w, h));
                }
                self.set_cell(hc.0, hc.1, CellContent::Body { towards: eff, from: ho });
                let f: (usize, usize) = match eff {
                    Orientation::Up => (hc.0, hc.1 - 1),
                    Orientation::Down => (hc.0, hc.1 + 1),
                    Orientation::Left => (hc.0 - 1, hc.1),
                    Orientation::Right => (hc.0 + 1, hc.1),
                };
                proof {
                    assert((f.0 as int, f.1 as int) == step_coord(path.last(), eff));
                }
                self.set_cell(f.0, f.1, CellContent::Head(eff));
                proof {
                    self.path@ = advance_path(path, eff, apple_is_eaten);
                    assert(final(self)@.grid =~= advance_grid(g, path, eff, apple_is_eaten));
                }
            },
            _ => {
                proof {
                    assert(cell_at(g, path.last()) is Head);
                }
                unreached()
            },
        }
    }

    /// One row-major pass over the board: how many snake cells and how
    /// many apple cells it holds, and where the first apple sits.
    fn scan_counts(&self) -> (r: (usize, usize, Option<(usize, usize)>))
        requires
            grid_rect(self@.grid, self@.width, self@.height),
            self@.width * self@.height <= usize::MAX,
        ensures
            cells_with(self@.grid, self@.width, self@.height, |c: CellContent| c.is_snake())
                .finite(),
            cells_with(self@.grid, self@.width, self@.height, |c: CellContent| c is Apple)
                .finite(),
            r.0 == cells_with(
                self@.grid,
                self@.width,
                self@.height,
                |c: CellContent| c.is_snake(),
            ).len(),
            r.1 == cells_with(self@.grid, self@.width, self@.height, |c: CellContent| c is Apple)
                .len(),
            match r.2 {
                Some(a) => in_rect((a.0 as int, a.1 as int), self@.width, self@.height) && cell_at(
                    self@.grid,
                    (a.0 as int, a.1 as int),
                ) is Apple,
                None => r.1 == 0,
            },
    {
        let ghost g = self@.grid;
        let ghost w = self@.width;
        let ghost h = self@.height;
        let ghost fs = |c: CellContent| c.is_snake();
        let ghost fa = |c: CellContent| c is Apple;
        let mut scount: usize = 0;
        let mut acount: usize = 0;
        let mut first_a: Option<(usize, usize)> = None;
        let mut y: usize = 0;
        proof {
            lemma_rect_card(w, h);
            assert(cells_with_before(g, w, h, fs, (0int, 0int)) =~= Set::<(int, int)>::empty());
            assert(cells_with_before(g, w, h, fa, (0int, 0int)) =~= Set::<(int, int)>::empty());
        }
        while y < self.height
            invariant
                g == self@.grid,
                w == self@.width,
                h == self@.height,
                fs == (|c: CellContent| c.is_snake()),
                fa == (|c: CellContent| c is Apple),
                grid_rect(g, w, h),
                rect_set(w, h).finite(),
                rect_set(w, h).len() == w * h,
                w * h <= usize::MAX,
                y <= h,
                cells_with_before(g, w, h, fs, (0int, y as int)).finite(),
                cells_with_before(g, w, h, fa, (0int, y as int)).finite(),
                scount == cells_with_before(g, w, h, fs, (0int, y as int)).len(),
                acount == cells_with_before(g, w, h, fa, (0int, y as int)).len(),
                match first_a {
                    Some(a) => in_rect((a.0 as int, a.1 as int), w, h) && cell_at(
                        g,
                        (a.0 as int, a.1 as int),
                    ) is Apple,
                    None => acount == 0,
                },
            decreases h - y,
        {
            let mut x: usize = 0;
            proof {
                assert(cells_with_before(g, w, h, fs, (0int, y as int)) =~= cells_with_before(
                    g, w, h, fs, (x as int, y as int)));
                assert(cells_with_before(g, w, h, fa, (0int, y as int)) =~= cells_with_before(
                    g, w, h, fa, (x as int, y as int)));
            }
            while x < self.width
                invariant
                    g == self@.grid,
                    w == self@.width,
                    h == self@.height,
                    fs == (|c: CellContent| c.is_snake()),
                    fa == (|c: CellContent| c is Apple),
                    grid_rect(g, w, h),
                    rect_set(w, h).finite(),
                    rect_set(w, h).len() == w * h,
                    w * h <= usize::MAX,
                    y < h,
                    x <= w,
                    cells_with_before(g, w, h, fs, (x as int, y as int)).finite(),
                    cells_with_before(g, w, h, fa, (x as int, y as int)).finite(),
                    scount == cells_with_before(g, w, h, fs, (x as int, y as int)).len(),
                    acount == cells_with_before(g, w, h, fa, (x as int, y as int)).len(),
                    match first_a {
                        Some(a) => in_rect((a.0 as int, a.1 as int), w, h) && cell_at(
                            g,
                            (a.0 as int, a.1 as int),
                        ) is Apple,
                        None => acount == 0,
                    },
                decreases w - x,
            {
                let c = self.cell(x, y);
                let ghost p = (x as int, y as int);
                let ghost sb = cells_with_before(g, w, h, fs, p);
                let ghost ab = cells_with_before(g, w, h, fa, p);
                proof {
                    assert(!sb.contains(p));
                    assert(!ab.contains(p));
                    if fs(cell_at(g, p)) {
                        assert(cells_with_before(g, w, h, fs, (p.0 + 1, p.1)) =~= sb.insert(p));
                        assert(sb.insert(p).subset_of(rect_set(w, h)));
                        lemma_len_subset(sb.insert(p), rect_set(w, h));
                    } else {
                        assert(cells_with_before(g, w, h, fs, (p.0 + 1, p.1)) =~= sb);
                    }
                    if fa(cell_at(g, p)) {
                        assert(cells_with_before(g, w, h, fa, (p.0 + 1, p.1)) =~= ab.insert(p));
                        assert(ab.insert(p).subset_of(rect_set(w, h)));
                        lemma_len_subset(ab.insert(p), rect_set(w, h));
                    } else {
                        assert(cells_with_before(g, w, h, fa, (p.0 + 1, p.1)) =~= ab);
                    }
                }
                if matches!(c, CellContent::Head(_) | CellContent::Tail(_) | CellContent::Body { .. }) {
                    scount = scount + 1;
                } else if matches!(c, CellContent::Apple) {
                    acount = acount + 1;
                    if matches!(first_a, Option::None) {
                        first_a = Some((x, y));
                    }
                }
                x = x + 1;
            }
            proof {
                assert(cells_with_before(g, w, h, fs, (0int, y as int + 1)) =~= cells_with_before(
                    g, w, h, fs, (w, y as int)));
                assert(cells_with_before(g, w, h, fa, (0int, y as int + 1)) =~= cells_with_before(
                    g, w, h, fa, (w, y as int)));
            }
            y = y + 1;
        }
        proof {
            assert(cells_with_before(g, w, h, fs, (0int, h)) =~= cells_with(g, w, h, fs));
            assert(cells_with_before(g, w, h, fa, (0int, h)) =~= cells_with(g, w, h, fa));
        }
        (scount, acount, first_a)
    }

    /// Scan the grid in row-major order and return the coordinates of the
    /// `idx`-th empty cell.
    fn find_nth_empty(&self, idx: usize) -> (r: (usize, usize))
        requires
            grid_rect(self@.grid, self@.width, self@.height),
            idx < cells_with(self@.grid, self@.width, self@.height, |c: CellContent| c is Empty).len(),
            cells_with(self@.grid, self@.width, self@.height, |c: CellContent| c is Empty).finite(),
        ensures
            in_rect((r.0 as int, r.1 as int), self@.width, self@.height),
            cell_at(self@.grid, (r.0 as int, r.1 as int)) is Empty,
    {
        let ghost g = self@.grid;
        let ghost w = self@.width;
        let ghost h = self@.height;
        let ghost f = |c: CellContent| c is Empty;
        let mut seen: usize = 0;
        let mut y: usize = 0;
        proof {
            assert(cells_with_before(g, w, h, f, (0int, 0int)) =~= Set::<(int, int)>::empty());
        }
        while y < self.height
            invariant
                g == self@.grid,
                w == self@.width,
                h == self@.height,
                f == (|c: CellContent| c is Empty),
                grid_rect(g, w, h),
                y <= h,
                idx < cells_with(g, w, h, f).len(),
                cells_with(g, w, h, f).finite(),
                cells_with_before(g, w, h, f, (0int, y as int)).finite(),
                seen == cells_with_before(g, w, h, f, (0int, y as int)).len(),
                seen <= idx,
            decreases h - y,
        {
            let mut x: usize = 0;
            proof {
                assert(cells_with_before(g, w, h, f, (x as int, y as int)) =~= cells_with_before(
                    g,
                    w,
                    h,
                    f,
                    (0int, y as int),
                ));
            }
            while x < self.width
                invariant
                    g == self@.grid,
                    w == self@.width,
                    h == self@.height,
                    f == (|c: CellContent| c is Empty),
                    grid_rect(g, w, h),
                    y < h,
                    x <= w,
                    idx < cells_with(g, w, h, f).len(),
                    cells_with(g, w, h, f).finite(),
                    cells_with_before(g, w, h, f, (x as int, y as int)).finite(),
                    seen == cells_with_before(g, w, h, f, (x as int, y as int)).len(),
                    seen <= idx,
                decreases w - x,
            {
                let c = self.cell(x, y);
                let ghost before = cells_with_before(g, w, h, f, (x as int, y as int));
                if matches!(c, CellContent::Empty) {
                    if seen == idx {
                        return (x, y);
                    }
                    proof {
                        assert(cells_with_before(g, w, h, f, (x as int + 1, y as int))
                            =~= before.insert((x as int, y as int)));
                        assert(!before.contains((x as int, y as int)));
                    }
                    seen = seen + 1;
                } else {
                    proof {
                        assert(cells_with_before(g, w, h, f, (x as int + 1, y as int)) =~= before);
                    }
                }
                x = x + 1;
            }
            proof {
                assert(cells_with_before(g, w, h, f, (0int, y as int + 1)) =~= cells_with_before(
                    g,
                    w,
                    h,
                    f,
                    (w, y as int),
                ));
            }
            y = y + 1;
        }
        proof {
            assert(cells_with_before(g, w, h, f, (0int, h)) =~= cells_with(g, w, h, f));
            assert(false);
        }
        unreached()
    }

    /// After the snake has grown over the apple, draw a uniformly random
    /// index below the number of free cells and plant a new apple on the
    /// index-th empty cell, scanning in row-major order.
    fn spawn_apple(&mut self)
        requires
            grid_rect(old(self)@.grid, old(self)@.width, old(self)@.height),
            path_ok(old(self)@.grid, old(self)@.width, old(self)@.height, old(self)@.path),
            forall|p: (int, int)|
                in_rect(p, old(self)@.width, old(self)@.height) && !old(self)@.path.contains(p)
                    ==> #[trigger] cell_at(old(self)@.grid, p) is Empty,
            old(self)@.snake_len == old(self)@.path.len(),
            old(self)@.snake_len < old(self)@.width * old(self)@.height,
            old(self)@.width * old(self)@.height <= usize::MAX,
        ensures
            in_rect(final(self)@.apple, old(self)@.width, old(self)@.height),
            cell_at(old(self)@.grid, final(self)@.apple) is Empty,
            final(self)@.grid == grid_set(old(self)@.grid, final(self)@.apple, CellContent::Apple),
            final(self)@.path == old(self)@.path,
            final(self)@.state == old(self)@.state,
            final(self)@.snake_len == old(self)@.snake_len,
            final(self)@.width == old(self)@.width,
            final(self)@.height == old(self)@.height,
            grid_rect(final(self)@.grid, old(self)@.width, old(self)@.height),
            path_ok(final(self)@.grid, old(self)@.width, old(self)@.height, old(self)@.path),
            apple_ok(
                final(self)@.grid,
                old(self)@.width,
                old(self)@.height,
                old(self)@.path,
                final(self)@.apple,
            ),
    {
        let ghost g = self@.grid;
        let ghost w = self@.width;
        let ghost h = self@.height;
        let ghost path = self@.path;
        let ghost f = |c: CellContent| c is Empty;
        proof {
            assert forall|p: (int, int)| path.contains(p) implies (#[trigger] cell_at(
                g,
                p,
            )).is_snake() by {
                let i = choose|i: int| 0 <= i < path.len() && path[i] == p;
                if i == 0 {
                    assert(cell_at(g, path[0]) is Tail);
                } else if i == path.len() - 1 {
                    assert(cell_at(g, path.last()) is Head);
                } else {
                    assert(cell_at(g, path[i]) is Body);
                }
            }
            assert forall|p: (int, int)| in_rect(p, w, h) implies (f(#[trigger] cell_at(g, p))
                <==> !path.contains(p)) by {
                if path.contains(p) {
                    assert(cell_at(g, p).is_snake());
                }
            }
            lemma_cells_with_complement(g, w, h, f, path);
        }
        let available = self.width * self.height - self.snake_len;
        let idx = random_below(available);
        let a = self.find_nth_empty(idx);
        proof {
            if path.contains((a.0 as int, a.1 as int)) {
                assert(cell_at(g, (a.0 as int, a.1 as int)).is_snake());
            }
        }
        self.set_cell(a.0, a.1, CellContent::Apple);
        self.apple = Ghost((a.0 as int, a.1 as int));
        proof {
            lemma_offpath_write(g, w, h, path, (a.0 as int, a.1 as int), CellContent::Apple);
            lemma_grid_set(g, w, h, (a.0 as int, a.1 as int), CellContent::Apple);
        }
    }

    /// Overwrite cell `(x, y)` with `c`; every other cell keeps its content.
    fn set_cell(&mut self, x: usize, y: usize, c: CellContent)
        requires
            grid_rect(old(self)@.grid, old(self)@.width, old(self)@.height),
            in_rect((x as int, y as int), old(self)@.width, old(self)@.height),
        ensures
            final(self)@.grid == grid_set(old(self)@.grid, (x as int, y as int), c),
            final(self)@.state == old(self)@.state,
            final(self)@.snake_len == old(self)@.snake_len,
            final(self)@.width == old(self)@.width,
            final(self)@.height == old(self)@.height,
            final(self)@.path == old(self)@.path,
            final(self)@.apple == old(self)@.apple,
    {
        proof {
            assert(self.grid@.len() == old(self)@.grid.len());
            assert(self.grid@[y as int]@ == old(self)@.grid[y as int]);
        }
        self.grid[y][x] = c;
        proof {
            assert(final(self)@.grid =~= grid_set(old(self)@.grid, (x as int, y as int), c));
        }
    }
}

/// While the game is playing the grid holds exactly one `Head` cell,
/// exactly one `Tail` cell, exactly one `Apple` cell, and exactly
/// `snake_len` snake cells.  This engine keeps the snake at least three
/// cells long, so the tail cell is always present.
pub proof fn lemma_playing_invariant(v: ModelView)
    requires
        v.state is Playing,
        v.wf(),
    ensures
        cells_with(v.grid, v.width, v.height, |c: CellContent| c is Head) =~= set![v.path.last()],
        cells_with(v.grid, v.width, v.height, |c: CellContent| c is Tail) =~= set![v.path[0]],
        cells_with(v.grid, v.width, v.height, |c: CellContent| c is Apple) =~= set![v.apple],
        cells_with(v.grid, v.width, v.height, |c: CellContent| c is Head).len() == 1,
        cells_with(v.grid, v.width, v.height, |c: CellContent| c is Tail).len() == 1,
        cells_with(v.grid, v.width, v.height, |c: CellContent| c is Apple).len() == 1,
        cells_with(v.grid, v.width, v.height, |c: CellContent| c.is_snake()).finite(),
        cells_with(v.grid, v.width, v.height, |c: CellContent| c.is_snake()).len() == v.snake_len,
{
    let g = v.grid;
    let w = v.width;
    let h = v.height;
    let path = v.path;

    let heads = cells_with(g, w, h, |c: CellContent| c is Head);
    let tails = cells_with(g, w, h, |c: CellContent| c is Tail);
    let apples = cells_with(g, w, h, |c: CellContent| c is Apple);
    let snakes = cells_with(g, w, h, |c: CellContent| c.is_snake());

    assert(heads =~= set![path.last()]) by {
        assert forall|p: (int, int)| #[trigger] heads.contains(p) implies p == path.last() by {
            lemma_head_unique(g, w, h, path, p);
        }
        assert(in_rect(path.last(), w, h));
    }
    assert(tails =~= set![path[0]]) by {
        assert forall|p: (int, int)| #[trigger] tails.contains(p) implies p == path[0] by {
            lemma_tail_unique(g, w, h, path, p);
        }
        assert(in_rect(path[0], w, h));
    }
    assert(apples =~= set![v.apple]) by {
        assert forall|p: (int, int)| #[trigger] apples.contains(p) implies p == v.apple by {
            lemma_apple_unique(g, w, h, path, v.apple, p);
        }
        assert(in_rect(v.apple, w, h));
    }
    assert(snakes =~= path.to_set()) by {
        assert forall|p: (int, int)| #[trigger] snakes.contains(p) implies path.to_set().contains(
            p,
        ) by {
            assert(path.contains(p));
        }
        assert forall|p: (int, int)| path.to_set().contains(p) implies snakes.contains(p) by {
            let i = choose|i: int| 0 <= i < path.len() && path[i] == p;
            assert(in_rect(path[i], w, h));
            if i == 0 {
                assert(cell_at(g, path[0]) is Tail);
            } else if i == path.len() - 1 {
                assert(cell_at(g, path.last()) is Head);
            } else {
                assert(cell_at(g, path[i]) is Body);
            }
        }
    }
    lemma_coords_len_bound(path, w, h);
}

/// Reversal suppression: against a head travelling `o`, buffering the
/// direction opposite to `o` leads to exactly the same outcomes as
/// buffering nothing at all.
pub proof fn lemma_reversal_suppressed(pre: ModelView, post: ModelView, r: GameState)
    ensures
        update_post(pre, post, Some(opposite(head_dir_of(pre))), r) == update_post(
            pre,
            post,
            None,
            r,
        ),
{
    assert(effective_dir(head_dir_of(pre), Some(opposite(head_dir_of(pre)))) == effective_dir(
        head_dir_of(pre),
        None,
    ));
}

/// Away from the apple a tick is deterministic: [`update_post`] admits a
/// single outcome, so two updates of one model with inputs that resolve
/// to the same effective direction leave identical grids.  Only the apple
/// respawn draws a random cell.
pub proof fn lemma_update_deterministic(
    pre: ModelView,
    post1: ModelView,
    post2: ModelView,
    input: Option<Orientation>,
    r1: GameState,
    r2: GameState,
)
    requires
        update_post(pre, post1, input, r1),
        update_post(pre, post2, input, r2),
        !(in_rect(
            step_coord(pre.path.last(), effective_dir(head_dir_of(pre), input)),
            pre.width,
            pre.height,
        ) && cell_at(
            pre.grid,
            step_coord(pre.path.last(), effective_dir(head_dir_of(pre), input)),
        ) is Apple),
    ensures
        post1.grid == post2.grid,
        post1.state == post2.state,
        post1.path == post2.path,
        post1.snake_len == post2.snake_len,
        post1.apple == post2.apple,
        r1 == r2,
{
}

/// Growth: a tick whose front cell holds the apple raises `snake_len` by
/// exactly one, and the apple that appears afterwards sits on a cell that
/// was empty right after the move.
pub proof fn lemma_growth(
    pre: ModelView,
    post: ModelView,
    input: Option<Orientation>,
    r: GameState,
)
    requires
        pre.state is Playing,
        pre.wf(),
        update_post(pre, post, input, r),
        in_rect(
            step_coord(pre.path.last(), effective_dir(head_dir_of(pre), input)),
            pre.width,
            pre.height,
        ),
        cell_at(
            pre.grid,
            step_coord(pre.path.last(), effective_dir(head_dir_of(pre), input)),
        ) is Apple,
    ensures
        r is Playing,
        post.snake_len == pre.snake_len + 1,
        cell_at(
            advance_grid(pre.grid, pre.path, effective_dir(head_dir_of(pre), input), true),
            post.apple,
        ) is Empty,
        cell_at(post.grid, post.apple) is Apple,
{
    let eff = effective_dir(head_dir_of(pre), input);
    lemma_advance(pre.grid, pre.width, pre.height, pre.path, pre.apple, eff, true);
    lemma_grid_set(
        advance_grid(pre.grid, pre.path, eff, true),
        pre.width,
        pre.height,
        post.apple,
        CellContent::Apple,
    );
}

} // verus!

