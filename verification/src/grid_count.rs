#![allow(unused_imports)]
use vstd::prelude::*;
use vstd::set_lib::lemma_int_range;
use vstd::set_lib::lemma_len_subset;
use vstd::set_lib::lemma_map_size;
use vstd::set_lib::lemma_set_disjoint_lens;
use vstd::set_lib::set_int_range;

use crate::model::{cell_at, in_rect, CellContent};

verus! {

/// All coordinates of a `width`-by-`height` board.
pub open spec fn rect_set(width: int, height: int) -> Set<(int, int)> {
    Set::new(|p: (int, int)| in_rect(p, width, height))
}

/// Row-major order on coordinates: a scan visits `p` strictly before `q`.
pub open spec fn scanned_before(p: (int, int), q: (int, int)) -> bool {
    p.1 < q.1 || (p.1 == q.1 && p.0 < q.0)
}

/// The board cells whose content satisfies `f`.
pub open spec fn cells_with(
    g: Seq<Seq<CellContent>>,
    width: int,
    height: int,
    f: spec_fn(CellContent) -> bool,
) -> Set<(int, int)> {
    Set::new(|p: (int, int)| in_rect(p, width, height) && f(cell_at(g, p)))
}

/// The board cells a scan has passed when it stands at `q` whose content
/// satisfies `f`.
pub open spec fn cells_with_before(
    g: Seq<Seq<CellContent>>,
    width: int,
    height: int,
    f: spec_fn(CellContent) -> bool,
    q: (int, int),
) -> Set<(int, int)> {
    Set::new(
        |p: (int, int)| in_rect(p, width, height) && scanned_before(p, q) && f(cell_at(g, p)),
    )
}

/// One row of a board holds `width` cells.
proof fn lemma_row_card(width: int, y: int)
    requires
        0 <= width,
    ensures
        Set::new(|p: (int, int)| 0 <= p.0 < width && p.1 == y).finite(),
        Set::new(|p: (int, int)| 0 <= p.0 < width && p.1 == y).len() == width,
{
    let row = Set::new(|p: (int, int)| 0 <= p.0 < width && p.1 == y);
    let f = |x: int| (x, y);
    lemma_int_range(0, width);
    assert forall|p: (int, int)| row.contains(p) implies set_int_range(0, width).map(f).contains(
        p,
    ) by {
        assert(set_int_range(0, width).contains(p.0) && f(p.0) == p);
    }
    assert(set_int_range(0, width).map(f) =~= row);
    lemma_map_size(set_int_range(0, width), row, f);
}

/// A `width`-by-`height` board holds `width * height` cells.
pub proof fn lemma_rect_card(width: int, height: int)
    requires
        0 <= width,
        0 <= height,
    ensures
        rect_set(width, height).finite(),
        rect_set(width, height).len() == width * height,
    decreases height,
{
    if height == 0 {
        assert(rect_set(width, 0) =~= Set::<(int, int)>::empty());
    } else {
        lemma_rect_card(width, height - 1);
        let row = Set::new(|p: (int, int)| 0 <= p.0 < width && p.1 == height - 1);
        lemma_row_card(width, height - 1);
        assert(rect_set(width, height) =~= rect_set(width, height - 1) + row);
        lemma_set_disjoint_lens(rect_set(width, height - 1), row);
        assert(width * (height - 1) + width == width * height) by (nonlinear_arith);
    }
}

/// Distinct on-board coordinates are at most `width * height` many.
pub proof fn lemma_coords_len_bound(coords: Seq<(int, int)>, width: int, height: int)
    requires
        coords.no_duplicates(),
        forall|i: int| 0 <= i < coords.len() ==> in_rect(#[trigger] coords[i], width, height),
        0 <= width,
        0 <= height,
    ensures
        coords.len() <= width * height,
        coords.to_set().finite(),
        coords.to_set().len() == coords.len(),
{
    coords.unique_seq_to_set();
    lemma_rect_card(width, height);
    assert forall|p: (int, int)| coords.to_set().contains(p) implies rect_set(
        width,
        height,
    ).contains(p) by {
        let i = choose|i: int| 0 <= i < coords.len() && coords[i] == p;
        assert(in_rect(coords[i], width, height));
    }
    lemma_len_subset(coords.to_set(), rect_set(width, height));
}

/// On a board where `f` holds exactly off `path`, the matching cells
/// number the whole board minus the path.
pub proof fn lemma_cells_with_complement(
    g: Seq<Seq<CellContent>>,
    width: int,
    height: int,
    f: spec_fn(CellContent) -> bool,
    path: Seq<(int, int)>,
)
    requires
        0 <= width,
        0 <= height,
        path.no_duplicates(),
        forall|i: int| 0 <= i < path.len() ==> in_rect(#[trigger] path[i], width, height),
        forall|p: (int, int)|
            in_rect(p, width, height) ==> (f(#[trigger] cell_at(g, p)) <==> !path.contains(p)),
    ensures
        cells_with(g, width, height, f).finite(),
        cells_with(g, width, height, f).len() == width * height - path.len(),
{
    let m = cells_with(g, width, height, f);
    let ps = path.to_set();
    lemma_rect_card(width, height);
    lemma_coords_len_bound(path, width, height);
    assert forall|p: (int, int)| ps.contains(p) implies rect_set(width, height).contains(p) by {
        let i = choose|i: int| 0 <= i < path.len() && path[i] == p;
        assert(in_rect(path[i], width, height));
    }
    lemma_len_subset(m, rect_set(width, height));
    assert(m + ps =~= rect_set(width, height)) by {
        assert forall|p: (int, int)| rect_set(width, height).contains(p) implies (m + ps).contains(
            p,
        ) by {
            assert(f(cell_at(g, p)) <==> !path.contains(p));
            if path.contains(p) {
                assert(ps.contains(p));
            }
        }
    }
    assert(m.disjoint(ps)) by {
        assert forall|p: (int, int)| m.contains(p) implies !ps.contains(p) by {
            assert(f(cell_at(g, p)));
        }
    }
    lemma_set_disjoint_lens(m, ps);
}

/// A finite set of size one is exactly the singleton of any member.
pub proof fn lemma_singleton(s: Set<(int, int)>, a: (int, int))
    requires
        s.finite(),
        s.len() == 1,
        s.contains(a),
    ensures
        s =~= set![a],
{
    assert forall|b: (int, int)| s.contains(b) implies b == a by {
        if b != a {
            assert(s.remove(a).contains(b));
            assert(s.remove(a).len() == 0);
        }
    }
}

} // verus!
