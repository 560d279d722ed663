use vstd::prelude::*;

use crate::arith::ceil_div;
use crate::arith::floor_div;
use crate::grid::Grid;
use crate::position::dir_down;
use crate::position::dir_left;
use crate::position::dir_right;
use crate::position::dir_up;
use crate::position::is_cardinal;
use crate::position::vec_contains_pos;
use crate::position::Position;
use crate::tile::Tile;

verus! {

/// One row of the visibility scan: a depth (distance from the origin along
/// the scanned direction) and two slopes bounding the lateral extent, kept
/// as exact fractions with positive denominators.
#[derive(Debug, PartialEq, Eq, Structural, Clone, Copy)]
pub struct Row {
    pub depth: i64,
    pub start_num: i64,
    pub start_den: i64,
    pub end_num: i64,
    pub end_den: i64,
}

/// Field bounds under which all the scan's fraction arithmetic fits
/// comfortably in 128 bits.
pub open spec fn row_wf(r: Row) -> bool {
    &&& 1 <= r.depth <= 0x4_0000_0000
    &&& 0 < r.start_den <= 0x40_0000_0000
    &&& -0x40_0000_0000 <= r.start_num <= 0x40_0000_0000
    &&& 0 < r.end_den <= 0x40_0000_0000
    &&& -0x40_0000_0000 <= r.end_num <= 0x40_0000_0000
}

/// The least lateral offset of a row: `floor(depth * start + 1/2)`.
pub open spec fn row_min(r: Row) -> int {
    (2 * r.depth * r.start_num + r.start_den) as int / (2 * r.start_den) as int
}

/// The greatest lateral offset of a row: `ceil(depth * end - 1/2)`.
pub open spec fn row_max(r: Row) -> int {
    -((-(2 * r.depth * r.end_num - r.end_den)) as int / (2 * r.end_den) as int)
}

/// Whether offset `i` lies on or between the row's exact slope boundaries:
/// `depth * start <= i <= depth * end`.
pub open spec fn row_symmetric(r: Row, i: int) -> bool {
    i * r.start_den >= r.depth * r.start_num && i * r.end_den <= r.depth * r.end_num
}

/// The same row one step deeper.
pub open spec fn next_row(r: Row) -> Row {
    Row {
        depth: (r.depth + 1) as i64,
        start_num: r.start_num,
        start_den: r.start_den,
        end_num: r.end_num,
        end_den: r.end_den,
    }
}

/// The child row spawned below an obstruction found at offset `i`: one step
/// deeper, with the end slope clipped to that position's slope
/// `(2i - 1) / (2 depth)`.
pub open spec fn child_row(r: Row, i: int) -> Row {
    Row {
        depth: (r.depth + 1) as i64,
        start_num: r.start_num,
        start_den: r.start_den,
        end_num: (2 * i - 1) as i64,
        end_den: (2 * r.depth) as i64,
    }
}

/// The row with its start slope clipped to the slope of offset `i`, used
/// when the scan leaves a shadow.
pub open spec fn clipped_row(r: Row, i: int) -> Row {
    Row {
        depth: r.depth,
        start_num: (2 * i - 1) as i64,
        start_den: (2 * r.depth) as i64,
        end_num: r.end_num,
        end_den: r.end_den,
    }
}

/// The absolute `x` coordinate of the cell at depth `d`, offset `i` in the
/// quadrant frame of `dir`, over the unbounded integers.
pub open spec fn abs_x(o: Position, dir: Position, d: int, i: int) -> int {
    if dir == dir_up() || dir == dir_down() {
        o.x + i
    } else if dir == dir_left() {
        o.x - d
    } else {
        o.x + d
    }
}

/// The absolute `y` coordinate (see `abs_x`).
pub open spec fn abs_y(o: Position, dir: Position, d: int, i: int) -> int {
    if dir == dir_up() {
        o.y + d
    } else if dir == dir_down() {
        o.y - d
    } else {
        o.y + i
    }
}

/// Whether that absolute cell lies on the grid.
pub open spec fn abs_in_bounds(g: Grid<Tile>, o: Position, dir: Position, d: int, i: int) -> bool {
    0 <= abs_x(o, dir, d, i) < g.width && 0 <= abs_y(o, dir, d, i) < g.height
}

/// The absolute cell as a `Position` (exact for in-bounds cells).
pub open spec fn abs_position(o: Position, dir: Position, d: int, i: int) -> Position {
    Position { x: abs_x(o, dir, d, i) as i32, y: abs_y(o, dir, d, i) as i32 }
}

/// Whether the tile at that in-bounds cell is transparent.
pub open spec fn abs_transparent(g: Grid<Tile>, o: Position, dir: Position, d: int, i: int) -> bool {
    g@[g.spec_index_of(abs_position(o, dir, d, i))].transparent
}

/// The set of positions the scan marks visible, processing the current row
/// from offset `i` to `mx` and then the deeper rows. `prev` carries the
/// transparency of the last tile found on this row, if any; `fuel` bounds
/// the depth, and is chosen large enough by `get_visible` that rows beyond
/// it could never contain a tile the scan still reaches.
pub open spec fn scan_from(
    g: Grid<Tile>,
    o: Position,
    dir: Position,
    row: Row,
    i: int,
    mx: int,
    prev: Option<bool>,
    fuel: nat,
) -> Set<Position>
    decreases fuel, (if i > mx { 0int } else { mx + 1 - i }),
{
    if i > mx {
        if prev == Some(true) && fuel > 0 {
            let nr = next_row(row);
            scan_from(g, o, dir, nr, row_min(nr), row_max(nr), None, (fuel - 1) as nat)
        } else {
            Set::empty()
        }
    } else {
        if !abs_in_bounds(g, o, dir, row.depth as int, i) {
            scan_from(g, o, dir, row, i + 1, mx, prev, fuel)
        } else {
            let t = abs_transparent(g, o, dir, row.depth as int, i);
            let p = abs_position(o, dir, row.depth as int, i);
            let marked: Set<Position> = if t || row_symmetric(row, i) {
                Set::empty().insert(p)
            } else {
                Set::empty()
            };
            let child: Set<Position> = if prev == Some(true) && !t && fuel > 0 {
                let cr = child_row(row, i);
                scan_from(g, o, dir, cr, row_min(cr), row_max(cr), None, (fuel - 1) as nat)
            } else {
                Set::empty()
            };
            let row2 = if prev == Some(false) && t {
                clipped_row(row, i)
            } else {
                row
            };
            marked.union(child).union(scan_from(g, o, dir, row2, i + 1, mx, Some(t), fuel))
        }
    }
}

/// One whole row and everything below it.
pub open spec fn scan_row_spec(g: Grid<Tile>, o: Position, dir: Position, row: Row, fuel: nat) -> Set<
    Position,
> {
    scan_from(g, o, dir, row, row_min(row), row_max(row), None, fuel)
}

/// The first row of every scan: depth 1, slopes spanning `[-1, 1]`.
pub open spec fn initial_row() -> Row {
    Row { depth: 1, start_num: -1i64, start_den: 1, end_num: 1, end_den: 1 }
}

/// A depth budget past any cell the scan could still reach: a row only
/// continues deeper while it finds tiles on the grid, which cannot happen
/// beyond `width + height` steps from the origin's quadrant.
pub open spec fn fuel_of(g: Grid<Tile>) -> nat {
    (g.width + g.height + 2) as nat
}

/// The set of positions visible from `o`: the origin itself, plus what the
/// four quadrant scans mark.
pub open spec fn visible_spec(g: Grid<Tile>, o: Position) -> Set<Position> {
    Set::empty().insert(o).union(scan_row_spec(g, o, dir_up(), initial_row(), fuel_of(g))).union(
        scan_row_spec(g, o, dir_down(), initial_row(), fuel_of(g)),
    ).union(scan_row_spec(g, o, dir_left(), initial_row(), fuel_of(g))).union(
        scan_row_spec(g, o, dir_right(), initial_row(), fuel_of(g)),
    )
}

/// Everything a scan marks lies on the grid: only cells whose tile was
/// found are ever inserted.
proof fn lemma_scan_in_bounds(
    g: Grid<Tile>,
    o: Position,
    dir: Position,
    row: Row,
    i: int,
    mx: int,
    prev: Option<bool>,
    fuel: nat,
)
    requires
        g.width <= i32::MAX,
        g.height <= i32::MAX,
    ensures
        forall|p: Position|
            #[trigger] scan_from(g, o, dir, row, i, mx, prev, fuel).contains(p)
                ==> g.spec_in_bounds(p),
    decreases fuel, (if i > mx { 0int } else { mx + 1 - i }),
{
    if i > mx {
        if prev == Some(true) && fuel > 0 {
            let nr = next_row(row);
            lemma_scan_in_bounds(g, o, dir, nr, row_min(nr), row_max(nr), None, (fuel - 1) as nat);
            assert(scan_from(g, o, dir, row, i, mx, prev, fuel) == scan_from(
                g,
                o,
                dir,
                nr,
                row_min(nr),
                row_max(nr),
                None,
                (fuel - 1) as nat,
            ));
        } else {
            assert(scan_from(g, o, dir, row, i, mx, prev, fuel) =~= Set::<Position>::empty());
        }
    } else {
        if !abs_in_bounds(g, o, dir, row.depth as int, i) {
            lemma_scan_in_bounds(g, o, dir, row, i + 1, mx, prev, fuel);
            assert(scan_from(g, o, dir, row, i, mx, prev, fuel) == scan_from(
                g,
                o,
                dir,
                row,
                i + 1,
                mx,
                prev,
                fuel,
            ));
        } else {
            let t = abs_transparent(g, o, dir, row.depth as int, i);
            let p0 = abs_position(o, dir, row.depth as int, i);
            assert(g.spec_in_bounds(p0));
            if prev == Some(true) && !t && fuel > 0 {
                let cr = child_row(row, i);
                lemma_scan_in_bounds(
                    g,
                    o,
                    dir,
                    cr,
                    row_min(cr),
                    row_max(cr),
                    None,
                    (fuel - 1) as nat,
                );
            }
            let row2 = if prev == Some(false) && t {
                clipped_row(row, i)
            } else {
                row
            };
            lemma_scan_in_bounds(g, o, dir, row2, i + 1, mx, Some(t), fuel);
            assert forall|p: Position|
                #[trigger] scan_from(g, o, dir, row, i, mx, prev, fuel).contains(p) implies
                g.spec_in_bounds(p) by {
                if p != p0 && !scan_from(g, o, dir, row2, i + 1, mx, Some(t), fuel).contains(p) {
                    let cr = child_row(row, i);
                    assert(scan_from(
                        g,
                        o,
                        dir,
                        cr,
                        row_min(cr),
                        row_max(cr),
                        None,
                        (fuel - 1) as nat,
                    ).contains(p));
                }
            }
        }
    }
}

/// Visibility stays on the map: every visible position other than the
/// origin itself lies inside the grid.
pub proof fn lemma_visible_in_bounds(g: Grid<Tile>, o: Position)
    requires
        g.width <= i32::MAX,
        g.height <= i32::MAX,
    ensures
        forall|p: Position|
            #[trigger] visible_spec(g, o).contains(p) ==> p == o || g.spec_in_bounds(p),
{
    let r = initial_row();
    lemma_scan_in_bounds(g, o, dir_up(), r, row_min(r), row_max(r), None, fuel_of(g));
    lemma_scan_in_bounds(g, o, dir_down(), r, row_min(r), row_max(r), None, fuel_of(g));
    lemma_scan_in_bounds(g, o, dir_left(), r, row_min(r), row_max(r), None, fuel_of(g));
    lemma_scan_in_bounds(g, o, dir_right(), r, row_min(r), row_max(r), None, fuel_of(g));
}

/// The positions of `s`, as a set.
pub open spec fn vec_set(s: Seq<Position>) -> Set<Position> {
    Set::new(|p: Position| s.contains(p))
}

/// No position appears twice.
pub open spec fn distinct_seq(s: Seq<Position>) -> bool {
    forall|i: int, j: int| 0 <= i < j < s.len() ==> s[i] != s[j]
}

/// Adds `p` unless it is already present, keeping the vector duplicate-free.
fn insert_unique(vis: &mut Vec<Position>, p: Position)
    requires
        distinct_seq(old(vis)@),
    ensures
        distinct_seq(final(vis)@),
        vec_set(final(vis)@) == vec_set(old(vis)@).insert(p),
{
    let present = vec_contains_pos(vis, &p);
    if !present {
        vis.push(p);
    }
    proof {
        let before = old(vis)@;
        let after = vis@;
        assert forall|q: Position| #[trigger]
            vec_set(after).contains(q) implies vec_set(before).insert(p).contains(q) by {
            if after.contains(q) {
                let k = choose|k: int| 0 <= k < after.len() && after[k] == q;
                if k < before.len() {
                    assert(before[k] == q);
                }
            }
        }
        assert forall|q: Position| #[trigger]
            vec_set(before).insert(p).contains(q) implies vec_set(after).contains(q) by {
            if q == p {
                if present {
                    let k = choose|k: int| 0 <= k < before.len() && before[k] == q;
                    assert(after[k] == q);
                } else {
                    assert(after[after.len() - 1] == q);
                }
            } else {
                let k = choose|k: int| 0 <= k < before.len() && before[k] == q;
                assert(after[k] == q);
            }
        }
        assert(vec_set(after) =~= vec_set(before).insert(p));
    }
}

/// Scans one row and, recursively, everything visible beyond it, adding the
/// marked cells to `vis`. Mirrors `scan_row_spec` exactly.
fn scan(g: &Grid<Tile>, origin: &Position, dir: &Position, row: Row, fuel: u64, vis: &mut Vec<
    Position,
>)
    requires
        g.wf(),
        g.width <= i32::MAX,
        g.height <= i32::MAX,
        is_cardinal(*dir),
        row_wf(row),
        row.depth + fuel <= 0x4_0000_0000,
        distinct_seq(old(vis)@),
    ensures
        distinct_seq(final(vis)@),
        vec_set(final(vis)@) == vec_set(old(vis)@).union(
            scan_row_spec(*g, *origin, *dir, row, fuel as nat),
        ),
    decreases fuel,
{
    let d: i64 = row.depth;
    proof {
        assert(-0x400_0000_0000_0000_0000 <= 2 * (d as int) * (row.start_num as int) <= 0x400_0000_0000_0000_0000) by (nonlinear_arith)
            requires
                1 <= d <= 0x4_0000_0000,
                -0x40_0000_0000 <= row.start_num <= 0x40_0000_0000,
        ;
        assert(-0x400_0000_0000_0000_0000 <= 2 * (d as int) * (row.end_num as int) <= 0x400_0000_0000_0000_0000) by (nonlinear_arith)
            requires
                1 <= d <= 0x4_0000_0000,
                -0x40_0000_0000 <= row.end_num <= 0x40_0000_0000,
        ;
    }
    let mn: i128 = floor_div(
        2 * (d as i128) * (row.start_num as i128) + (row.start_den as i128),
        2 * (row.start_den as i128),
    );
    let mx: i128 = ceil_div(
        2 * (d as i128) * (row.end_num as i128) - (row.end_den as i128),
        2 * (row.end_den as i128),
    );
    proof {
        assert(mn == row_min(row));
        assert(mx == row_max(row));
    }
    let mut i: i128 = mn;
    let mut cur = row;
    let mut prev: Option<bool> = None;
    while i <= mx
        invariant
            g.wf(),
            g.width <= i32::MAX,
            g.height <= i32::MAX,
            is_cardinal(*dir),
            row_wf(cur),
            cur.depth == row.depth,
            cur.end_num == row.end_num,
            cur.end_den == row.end_den,
            d == row.depth,
            row.depth + fuel <= 0x4_0000_0000,
            mx == row_max(row),
            -0x1000_0000_0000_0000_0000_0000 <= mx <= 0x1000_0000_0000_0000_0000_0000,
            -0x1000_0000_0000_0000_0000_0000 <= i,
            i <= 0x1000_0000_0000_0000_0000_0001,
            distinct_seq(vis@),
            vec_set(old(vis)@).union(
                scan_from(*g, *origin, *dir, row, row_min(row), row_max(row), None, fuel as nat),
            ) == vec_set(vis@).union(
                scan_from(*g, *origin, *dir, cur, i as int, mx as int, prev, fuel as nat),
            ),
        decreases mx + 1 - i,
    {
        let ghost pre_vis = vis@;
        let ghost pre_cur = cur;
        let ghost pre_prev = prev;
        let (ax, ay): (i128, i128) = if dir.y == 1 {
            (origin.x as i128 + i, origin.y as i128 + d as i128)
        } else if dir.y == -1 {
            (origin.x as i128 + i, origin.y as i128 - d as i128)
        } else if dir.x == -1 {
            (origin.x as i128 - d as i128, origin.y as i128 + i)
        } else {
            (origin.x as i128 + d as i128, origin.y as i128 + i)
        };
        proof {
            assert(ax == abs_x(*origin, *dir, d as int, i as int));
            assert(ay == abs_y(*origin, *dir, d as int, i as int));
        }
        if 0 <= ax && ax < g.width as i128 && 0 <= ay && ay < g.height as i128 {
            let p = Position::new(ax as i32, ay as i32);
            proof {
                assert(p == abs_position(*origin, *dir, d as int, i as int));
                assert(-0x1_0000_0000 <= i <= 0x1_0000_0000);
                g.lemma_index_in_range(p);
            }
            let t = g.get(&p).unwrap().transparent;
            proof {
                assert(-0x400_0000_0000_0000_0000 <= (i as int) * (cur.start_den as int) <= 0x400_0000_0000_0000_0000 && -0x400_0000_0000_0000_0000 <= (i as int) * (cur.end_den as int) <= 0x400_0000_0000_0000_0000) by (nonlinear_arith)
                    requires
                        -0x1_0000_0000 <= i <= 0x1_0000_0000,
                        0 < cur.start_den <= 0x40_0000_0000,
                        0 < cur.end_den <= 0x40_0000_0000,
                ;
                assert(-0x400_0000_0000_0000_0000 <= (d as int) * (cur.start_num as int) <= 0x400_0000_0000_0000_0000 && -0x400_0000_0000_0000_0000 <= (d as int) * (cur.end_num as int) <= 0x400_0000_0000_0000_0000) by (nonlinear_arith)
                    requires
                        1 <= d <= 0x4_0000_0000,
                        -0x40_0000_0000 <= cur.start_num <= 0x40_0000_0000,
                        -0x40_0000_0000 <= cur.end_num <= 0x40_0000_0000,
                ;
            }
            let sym = {
                let lhs = i * (cur.start_den as i128);
                let rhs = (d as i128) * (cur.start_num as i128);
                let lhs2 = i * (cur.end_den as i128);
                let rhs2 = (d as i128) * (cur.end_num as i128);
                lhs >= rhs && lhs2 <= rhs2
            };
            proof {
                assert(sym == row_symmetric(cur, i as int));
            }
            if t || sym {
                insert_unique(vis, p);
            }
            let is_prev_true = match prev {
                Some(b) => b,
                None => false,
            };
            let is_prev_false = match prev {
                Some(b) => !b,
                None => false,
            };
            if is_prev_true && !t && fuel > 0 {
                let child = Row {
                    depth: d + 1,
                    start_num: cur.start_num,
                    start_den: cur.start_den,
                    end_num: 2 * (i as i64) - 1,
                    end_den: 2 * d,
                };
                proof {
                    assert(child == child_row(cur, i as int));
                }
                scan(g, origin, dir, child, fuel - 1, vis);
            }
            if is_prev_false && t {
                cur = Row {
                    depth: cur.depth,
                    start_num: 2 * (i as i64) - 1,
                    start_den: 2 * d,
                    end_num: cur.end_num,
                    end_den: cur.end_den,
                };
                proof {
                    assert(cur == clipped_row(pre_cur, i as int));
                }
            }
            prev = Some(t);
            proof {
                let gv = *g;
                let ov = *origin;
                let dv = *dir;
                let fe = fuel as nat;
                let t0 = abs_transparent(gv, ov, dv, d as int, i as int);
                assert(t == t0);
                let marked: Set<Position> = if t0 || row_symmetric(pre_cur, i as int) {
                    Set::empty().insert(p)
                } else {
                    Set::empty()
                };
                let child_set: Set<Position> = if pre_prev == Some(true) && !t0 && fe > 0 {
                    let cr = child_row(pre_cur, i as int);
                    scan_from(gv, ov, dv, cr, row_min(cr), row_max(cr), None, (fe - 1) as nat)
                } else {
                    Set::empty()
                };
                assert(scan_from(gv, ov, dv, pre_cur, i as int, mx as int, pre_prev, fe)
                    == marked.union(child_set).union(
                    scan_from(gv, ov, dv, cur, i + 1 as int, mx as int, Some(t0), fe),
                ));
                assert(vec_set(vis@) =~= vec_set(pre_vis).union(marked).union(child_set));
                assert(vec_set(pre_vis).union(
                    scan_from(gv, ov, dv, pre_cur, i as int, mx as int, pre_prev, fe),
                ) =~= vec_set(vis@).union(
                    scan_from(gv, ov, dv, cur, (i + 1) as int, mx as int, Some(t0), fe),
                ));
            }
        } else {
            proof {
                assert(scan_from(
                    *g,
                    *origin,
                    *dir,
                    cur,
                    i as int,
                    mx as int,
                    prev,
                    fuel as nat,
                ) == scan_from(*g, *origin, *dir, cur, (i + 1) as int, mx as int, prev, fuel as nat));
            }
        }
        i = i + 1;
    }
    let is_prev_true = match prev {
        Some(b) => b,
        None => false,
    };
    if is_prev_true && fuel > 0 {
        let nr = Row {
            depth: d + 1,
            start_num: cur.start_num,
            start_den: cur.start_den,
            end_num: cur.end_num,
            end_den: cur.end_den,
        };
        proof {
            assert(nr == next_row(cur));
        }
        scan(g, origin, dir, nr, fuel - 1, vis);
        proof {
            assert(scan_from(*g, *origin, *dir, cur, i as int, mx as int, prev, fuel as nat)
                == scan_row_spec(*g, *origin, *dir, next_row(cur), (fuel - 1) as nat));
        }
    } else {
        proof {
            assert(scan_from(*g, *origin, *dir, cur, i as int, mx as int, prev, fuel as nat)
                =~= Set::<Position>::empty());
        }
    }
}

/// Computes the set of positions visible from `origin` on `grid` by
/// symmetric recursive shadowcasting: the origin always sees itself; each of
/// the four quadrants is scanned in rows of increasing depth, opaque tiles
/// cast shadows that clip the rows behind them, and an opaque tile exactly
/// on a row's slope boundary is still shown. The result holds each visible
/// position exactly once.
pub fn get_visible(grid: &Grid<Tile>, origin: &Position) -> (r: Vec<Position>)
    requires
        grid.wf(),
        grid.width <= i32::MAX,
        grid.height <= i32::MAX,
    ensures
        vec_set(r@) == visible_spec(*grid, *origin),
        distinct_seq(r@),
        r@.contains(*origin),
{
    let mut vis: Vec<Position> = Vec::new();
    vis.push(*origin);
    proof {
        assert(vis@[0] == *origin);
        assert(vec_set(vis@) =~= Set::empty().insert(*origin));
    }
    let fuel: u64 = grid.width as u64 + grid.height as u64 + 2;
    let row = Row { depth: 1, start_num: -1, start_den: 1, end_num: 1, end_den: 1 };
    proof {
        assert(row == initial_row());
        assert(fuel as nat == fuel_of(*grid));
    }
    let up = Position::up();
    let down = Position::down();
    let left = Position::left();
    let right = Position::right();
    scan(grid, origin, &up, row, fuel, &mut vis);
    scan(grid, origin, &down, row, fuel, &mut vis);
    scan(grid, origin, &left, row, fuel, &mut vis);
    scan(grid, origin, &right, row, fuel, &mut vis);
    proof {
        assert(vec_set(vis@) =~= visible_spec(*grid, *origin));
        assert(vis@.contains(*origin)) by {
            assert(vec_set(vis@).contains(*origin));
        }
    }
    vis
}

} // verus!
