use vstd::prelude::*;

use crate::grid::Grid;
use vstd::string::StringSliceAdditionalSpecFns;
use crate::position::Position;
use crate::shadow;
use crate::tile::Tile;

verus! {

/// ASCII whitespace as the map format knows it: space, tab, carriage
/// return.
pub open spec fn is_ws(b: u8) -> bool {
    b == 0x20 || b == 0x09 || b == 0x0d
}

/// The line with its leading whitespace dropped.
pub open spec fn trim_front(s: Seq<u8>) -> Seq<u8>
    decreases s.len(),
{
    if s.len() > 0 && is_ws(s[0]) {
        trim_front(s.drop_first())
    } else {
        s
    }
}

/// The line with its trailing whitespace dropped.
pub open spec fn trim_back(s: Seq<u8>) -> Seq<u8>
    decreases s.len(),
{
    if s.len() > 0 && is_ws(s[s.len() - 1]) {
        trim_back(s.drop_last())
    } else {
        s
    }
}

/// The line with whitespace dropped on both sides.
pub open spec fn trim_ws(s: Seq<u8>) -> Seq<u8> {
    trim_back(trim_front(s))
}

/// The index where the last line of `s` starts: one past the last newline,
/// or zero.
pub open spec fn line_start(s: Seq<u8>) -> int
    decreases s.len(),
{
    if s.len() == 0 {
        0
    } else if s[s.len() - 1] == 10 {
        s.len() as int
    } else {
        line_start(s.drop_last())
    }
}

/// The trimmed `|`-rows of the text, bottom line first: the authored text
/// reads top-to-bottom, the grid's `y` axis grows upwards.
pub open spec fn wall_rows(s: Seq<u8>) -> Seq<Seq<u8>>
    decreases s.len(),
    via wall_rows_dec
{
    if s.len() == 0 {
        Seq::empty()
    } else if s[s.len() - 1] == 10 {
        wall_rows(s.drop_last())
    } else {
        let k = line_start(s);
        let line = trim_ws(s.subrange(k, s.len() as int));
        let prefix = if k > 0 {
            s.subrange(0, k - 1)
        } else {
            Seq::empty()
        };
        if line.len() > 0 && line[0] == 124 {
            seq![line] + wall_rows(prefix)
        } else {
            wall_rows(prefix)
        }
    }
}

#[via_fn]
proof fn wall_rows_dec(s: Seq<u8>) {
    lemma_line_start_props(s);
}

/// The index of the first `|` in `s`, or its length.
pub open spec fn first_pipe(s: Seq<u8>) -> int
    decreases s.len(),
{
    if s.len() == 0 {
        0
    } else if s[0] == 124 {
        0
    } else {
        1 + first_pipe(s.drop_first())
    }
}

/// The row body with every leading `|` dropped.
pub open spec fn strip_pipes(s: Seq<u8>) -> Seq<u8>
    decreases s.len(),
{
    if s.len() > 0 && s[0] == 124 {
        strip_pipes(s.drop_first())
    } else {
        s
    }
}

/// The `|`-separated cell tokens of a row body; a trailing empty token is
/// dropped, as `str::split_terminator` does.
pub open spec fn split_term(s: Seq<u8>) -> Seq<Seq<u8>>
    decreases s.len(),
    via split_term_dec
{
    if s.len() == 0 {
        Seq::empty()
    } else {
        let k = first_pipe(s);
        if k == s.len() {
            seq![s]
        } else {
            seq![s.subrange(0, k)] + split_term(s.subrange(k + 1, s.len() as int))
        }
    }
}

#[via_fn]
proof fn split_term_dec(s: Seq<u8>) {
    lemma_first_pipe_props(s);
}

/// Whether a token marks a wall: its first character is `W`. Anything else,
/// including an empty token, is the default walkable, transparent tile.
pub open spec fn token_is_wall(t: Seq<u8>) -> bool {
    t.len() > 0 && t[0] == 87
}

/// Whether the authored text puts a wall at `(x, y)`, with `y` counted
/// bottom-to-top over the `|`-rows.
pub open spec fn is_wall(s: Seq<u8>, x: int, y: int) -> bool {
    let rows = wall_rows(s);
    0 <= y < rows.len() && {
        let toks = split_term(strip_pipes(rows[y]));
        0 <= x < toks.len() && token_is_wall(toks[x])
    }
}

/// `line_start` is the unique index with a newline (or nothing) before it
/// and none after it.
proof fn lemma_line_start_props(s: Seq<u8>)
    ensures
        0 <= line_start(s) <= s.len(),
        line_start(s) == 0 || s[line_start(s) - 1] == 10,
        forall|m: int| line_start(s) <= m < s.len() ==> s[m] != 10,
    decreases s.len(),
{
    if s.len() > 0 && s[s.len() - 1] != 10 {
        lemma_line_start_props(s.drop_last());
        assert forall|m: int| line_start(s) <= m < s.len() implies s[m] != 10 by {
            if m < s.len() - 1 {
                assert(s.drop_last()[m] == s[m]);
            }
        }
    }
}

proof fn lemma_line_start_unique(s: Seq<u8>, k: int)
    requires
        0 <= k <= s.len(),
        k == 0 || s[k - 1] == 10,
        forall|m: int| k <= m < s.len() ==> s[m] != 10,
    ensures
        k == line_start(s),
{
    lemma_line_start_props(s);
    let ls = line_start(s);
    if k < ls {
        assert(s[ls - 1] == 10);
    } else if k > ls {
        assert(s[k - 1] != 10);
    }
}

/// `first_pipe` is the unique index of the first `|`.
proof fn lemma_first_pipe_props(s: Seq<u8>)
    ensures
        0 <= first_pipe(s) <= s.len(),
        first_pipe(s) == s.len() || s[first_pipe(s)] == 124,
        forall|m: int| 0 <= m < first_pipe(s) ==> s[m] != 124,
    decreases s.len(),
{
    if s.len() > 0 && s[0] != 124 {
        lemma_first_pipe_props(s.drop_first());
        assert forall|m: int| 0 <= m < first_pipe(s) implies s[m] != 124 by {
            if m > 0 {
                assert(s.drop_first()[m - 1] == s[m]);
            }
        }
    }
}

proof fn lemma_first_pipe_unique(s: Seq<u8>, k: int)
    requires
        0 <= k <= s.len(),
        k == s.len() || s[k] == 124,
        forall|m: int| 0 <= m < k ==> s[m] != 124,
    ensures
        k == first_pipe(s),
{
    lemma_first_pipe_props(s);
    let fp = first_pipe(s);
    if k < fp {
        assert(s[k] != 124);
    } else if k > fp {
        assert(s[fp] != 124);
    }
}

/// A run of leading whitespace pins `trim_front` to a subrange.
proof fn lemma_trim_front_range(s: Seq<u8>, n: int)
    requires
        0 <= n <= s.len(),
        forall|m: int| 0 <= m < n ==> is_ws(s[m]),
        n == s.len() || !is_ws(s[n]),
    ensures
        trim_front(s) =~= s.subrange(n, s.len() as int),
    decreases n,
{
    if n == 0 {
        if s.len() > 0 {
            assert(!is_ws(s[0]));
        }
        assert(trim_front(s) =~= s.subrange(0, s.len() as int));
    } else {
        assert(is_ws(s[0]));
        let s2 = s.drop_first();
        assert forall|m: int| 0 <= m < n - 1 implies is_ws(s2[m]) by {
            assert(s2[m] == s[m + 1]);
        }
        lemma_trim_front_range(s2, n - 1);
        assert(s2.subrange(n - 1, s2.len() as int) =~= s.subrange(n, s.len() as int));
    }
}

/// A run of trailing whitespace pins `trim_back` to a subrange.
proof fn lemma_trim_back_range(s: Seq<u8>, n: int)
    requires
        0 <= n <= s.len(),
        forall|m: int| n <= m < s.len() ==> is_ws(s[m]),
        n == 0 || !is_ws(s[n - 1]),
    ensures
        trim_back(s) =~= s.subrange(0, n),
    decreases s.len() - n,
{
    if n == s.len() {
        if s.len() > 0 {
            assert(!is_ws(s[s.len() - 1]));
        }
        assert(trim_back(s) =~= s.subrange(0, s.len() as int));
    } else {
        assert(is_ws(s[s.len() - 1]));
        let s2 = s.drop_last();
        lemma_trim_back_range(s2, n);
        assert(s2.subrange(0, n) =~= s.subrange(0, n));
    }
}

/// A run of leading pipes pins `strip_pipes` to a subrange.
proof fn lemma_strip_pipes_range(s: Seq<u8>, n: int)
    requires
        0 <= n <= s.len(),
        forall|m: int| 0 <= m < n ==> s[m] == 124,
        n == s.len() || s[n] != 124,
    ensures
        strip_pipes(s) =~= s.subrange(n, s.len() as int),
    decreases n,
{
    if n == 0 {
        if s.len() > 0 {
            assert(s[0] != 124);
        }
        assert(strip_pipes(s) =~= s.subrange(0, s.len() as int));
    } else {
        assert(s[0] == 124);
        let s2 = s.drop_first();
        assert forall|m: int| 0 <= m < n - 1 implies s2[m] == 124 by {
            assert(s2[m] == s[m + 1]);
        }
        lemma_strip_pipes_range(s2, n - 1);
        assert(s2.subrange(n - 1, s2.len() as int) =~= s.subrange(n, s.len() as int));
    }
}

/// What a wall does to a tile: it keeps the attached entities and turns the
/// cell solid and opaque.
pub open spec fn walled(t: Tile) -> Tile {
    Tile { walkable: false, transparent: false, entities: t.entities }
}

/// The tile after the parser visited it: walled where the text says so,
/// untouched everywhere else.
pub open spec fn tile_after(t: Tile, wall: bool) -> Tile {
    if wall {
        walled(t)
    } else {
        t
    }
}

/// Whether token `x` of a row body marks a wall.
pub open spec fn row_has_wall(row: Seq<u8>, x: int) -> bool {
    let toks = split_term(strip_pipes(row));
    0 <= x < toks.len() && token_is_wall(toks[x])
}

/// Whether row `y` of the parsed rows puts a wall at `x`.
pub open spec fn rows_wall(rows: Seq<Seq<u8>>, x: int, y: int) -> bool {
    0 <= y < rows.len() && row_has_wall(rows[y], x)
}

/// One row's walls applied to grid row `y`, everything else untouched.
pub open spec fn row_walls_applied(g: Grid<Tile>, g0: Grid<Tile>, row: Seq<u8>, y: int) -> bool {
    forall|p: Position|
        g.spec_in_bounds(p) ==> #[trigger] g@[g.spec_index_of(p)] == tile_after(
            g0@[g0.spec_index_of(p)],
            p.y == y && row_has_wall(row, p.x as int),
        )
}

/// The grid relation the token loop maintains: cells on row `y` left of
/// `x` have been walled where their token says so; everything else is
/// untouched.
pub open spec fn tokens_applied(
    g: Grid<Tile>,
    g0: Grid<Tile>,
    toks: Seq<Seq<u8>>,
    x: int,
    y: int,
) -> bool {
    forall|p: Position|
        g.spec_in_bounds(p) ==> #[trigger] g@[g.spec_index_of(p)] == tile_after(
            g0@[g0.spec_index_of(p)],
            p.y == y && 0 <= p.x < x && token_is_wall(toks[p.x as int]),
        )
}

/// Applies one row's wall tokens to the grid's row `y`.
fn apply_tokens(bytes: &[u8], b0: usize, hi: usize, y: u64, grid: &mut Grid<Tile>)
    requires
        b0 <= hi <= bytes@.len(),
        bytes@.len() < usize::MAX,
        b0 == hi || bytes@[b0 as int] != 124,
        old(grid).wf(),
        old(grid).width <= i32::MAX,
        old(grid).height <= i32::MAX,
    ensures
        final(grid).wf(),
        final(grid).width == old(grid).width,
        final(grid).height == old(grid).height,
        row_walls_applied(
            *final(grid),
            *old(grid),
            bytes@.subrange(b0 as int, hi as int),
            y as int,
        ),
{
    proof {
        lemma_strip_pipes_range(bytes@.subrange(b0 as int, hi as int), 0);
    }
    let ghost toks = split_term(bytes@.subrange(b0 as int, hi as int));
    let mut cur = b0;
    let mut x: u64 = 0;
    while cur < hi
        invariant
            b0 <= cur <= hi + 1,
            hi <= bytes@.len(),
            bytes@.len() < usize::MAX,
            x <= toks.len(),
            x <= cur - b0,
            cur <= hi ==> split_term(bytes@.subrange(cur as int, hi as int)) =~= toks.skip(
                x as int,
            ),
            cur > hi ==> x == toks.len(),
            grid.wf(),
            grid.width == old(grid).width,
            grid.height == old(grid).height,
            grid.width <= i32::MAX,
            grid.height <= i32::MAX,
            tokens_applied(*grid, *old(grid), toks, x as int, y as int),
        decreases hi + 1 - cur,
    {
        let ghost seg = bytes@.subrange(cur as int, hi as int);
        let mut pk = cur;
        while pk < hi && bytes[pk] != 124
            invariant
                cur <= pk <= hi <= bytes@.len(),
                forall|m: int| cur <= m < pk ==> bytes@[m] != 124,
            decreases hi - pk,
        {
            pk = pk + 1;
        }
        proof {
            assert forall|m: int| 0 <= m < pk - cur implies seg[m] != 124 by {
                assert(seg[m] == bytes@[cur + m]);
            }
            if pk < hi {
                assert(seg[pk - cur] == bytes@[pk as int]);
            }
            lemma_first_pipe_unique(seg, pk - cur);
            assert(seg.len() > 0);
            if pk == hi {
                assert(split_term(seg) =~= seq![seg]);
            } else {
                assert(split_term(seg) =~= seq![seg.subrange(0, pk - cur)] + split_term(
                    seg.subrange(pk - cur + 1, seg.len() as int),
                ));
                assert(seg.subrange(pk - cur + 1, seg.len() as int) =~= bytes@.subrange(
                    pk + 1 as int,
                    hi as int,
                ));
            }
            assert(toks.skip(x as int)[0] == split_term(seg)[0]);
            assert(toks[x as int] == split_term(seg)[0]);
            assert(seg.subrange(0, pk - cur) =~= bytes@.subrange(cur as int, pk as int));
        }
        let wall = pk > cur && bytes[cur] == 87;
        proof {
            if pk == hi {
                assert(toks[x as int] == seg);
                assert(token_is_wall(toks[x as int]) == wall) by {
                    if seg.len() > 0 {
                        assert(seg[0] == bytes@[cur as int]);
                    }
                }
            } else {
                assert(toks[x as int] == seg.subrange(0, pk - cur));
                assert(token_is_wall(toks[x as int]) == wall) by {
                    if pk > cur {
                        assert(seg.subrange(0, pk - cur)[0] == bytes@[cur as int]);
                    }
                }
            }
        }
        let ghost pre_grid = *grid;
        if wall && x < grid.width as u64 && y < grid.height as u64 {
            let pos = Position::new(x as i32, y as i32);
            proof {
                grid.lemma_index_in_range(pos);
            }
            let t = grid.get_mut(&pos);
            t.walkable = false;
            t.transparent = false;
            proof {
                assert(tokens_applied(pre_grid, *old(grid), toks, x as int, y as int));
                assert forall|p: Position|
                    grid.spec_in_bounds(p) implies #[trigger] grid@[grid.spec_index_of(p)]
                    == tile_after(
                    old(grid)@[old(grid).spec_index_of(p)],
                    p.y == y && 0 <= p.x < x + 1 && token_is_wall(toks[p.x as int]),
                ) by {
                    pre_grid.lemma_index_in_range(p);
                    assert(pre_grid@[pre_grid.spec_index_of(p)] == tile_after(
                        old(grid)@[old(grid).spec_index_of(p)],
                        p.y == y && 0 <= p.x < x && token_is_wall(toks[p.x as int]),
                    ));
                    if p == pos {
                        assert(token_is_wall(toks[x as int]));
                        assert(pre_grid@[pre_grid.spec_index_of(p)] == old(grid)@[old(
                            grid,
                        ).spec_index_of(p)]);
                        assert(grid@[grid.spec_index_of(p)] == walled(
                            pre_grid@[pre_grid.spec_index_of(p)],
                        ));
                    } else {
                        pre_grid.lemma_index_injective(p, pos);
                        assert(grid@[grid.spec_index_of(p)] == pre_grid@[pre_grid.spec_index_of(
                            p,
                        )]);
                    }
                }
                assert(tokens_applied(*grid, *old(grid), toks, x as int + 1, y as int));
            }
        } else {
            proof {
                assert(tokens_applied(pre_grid, *old(grid), toks, x as int, y as int));
                assert forall|p: Position|
                    grid.spec_in_bounds(p) implies #[trigger] grid@[grid.spec_index_of(p)]
                    == tile_after(
                    old(grid)@[old(grid).spec_index_of(p)],
                    p.y == y && 0 <= p.x < x + 1 && token_is_wall(toks[p.x as int]),
                ) by {
                    pre_grid.lemma_index_in_range(p);
                    assert(pre_grid@[pre_grid.spec_index_of(p)] == tile_after(
                        old(grid)@[old(grid).spec_index_of(p)],
                        p.y == y && 0 <= p.x < x && token_is_wall(toks[p.x as int]),
                    ));
                    if p.y == y && p.x == x {
                        assert(!(p.x < grid.width) || !wall);
                    }
                }
                assert(tokens_applied(*grid, *old(grid), toks, x as int + 1, y as int));
            }
        }
        proof {
            if pk < hi {
                assert(toks.skip(x as int).drop_first() =~= toks.skip(x as int + 1));
                assert(split_term(bytes@.subrange(pk + 1 as int, hi as int)) =~= toks.skip(
                    x as int + 1,
                ));
            } else {
                assert(toks.skip(x as int) =~= seq![seg]);
                assert(x + 1 == toks.len());
            }
        }
        cur = pk + 1;
        x = x + 1;
    }
    proof {
        if cur == hi {
            assert(split_term(bytes@.subrange(cur as int, hi as int)) =~= Seq::<Seq<u8>>::empty());
            assert(toks.skip(x as int) =~= Seq::<Seq<u8>>::empty());
            assert(x == toks.len());
        }
        assert forall|p: Position|
            grid.spec_in_bounds(p) implies #[trigger] grid@[grid.spec_index_of(p)] == tile_after(
            old(grid)@[old(grid).spec_index_of(p)],
            p.y == y && row_has_wall(bytes@.subrange(b0 as int, hi as int), p.x as int),
        ) by {
            assert(grid@[grid.spec_index_of(p)] == tile_after(
                old(grid)@[old(grid).spec_index_of(p)],
                p.y == y && 0 <= p.x < x && token_is_wall(toks[p.x as int]),
            ));
            if p.y == y {
                assert(strip_pipes(bytes@.subrange(b0 as int, hi as int)) =~= bytes@.subrange(
                    b0 as int,
                    hi as int,
                ));
            }
        }
    }
}

/// The grid relation the row loop maintains: rows `y` and above have been
/// walled where the parsed rows say so; rows below `y` are untouched.
pub open spec fn rows_applied(g: Grid<Tile>, g0: Grid<Tile>, rows: Seq<Seq<u8>>, y: int) -> bool {
    forall|p: Position|
        g.spec_in_bounds(p) ==> #[trigger] g@[g.spec_index_of(p)] == tile_after(
            g0@[g0.spec_index_of(p)],
            p.y >= y && rows_wall(rows, p.x as int, p.y - y),
        )
}

/// Whether byte `i` is map-format whitespace.
fn ws_at(bytes: &[u8], i: usize) -> (r: bool)
    requires
        i < bytes@.len(),
    ensures
        r == is_ws(bytes@[i as int]),
{
    let b = bytes[i];
    b == 0x20 || b == 0x09 || b == 0x0d
}

/// Applies the `|`-rows of `bytes[..rem]` to the grid, the last line of the
/// text becoming row `y`, earlier lines the rows above it.
fn apply_rows(bytes: &[u8], rem: usize, y: u64, grid: &mut Grid<Tile>)
    requires
        rem <= bytes@.len(),
        bytes@.len() < usize::MAX,
        y + rem <= u64::MAX,
        old(grid).wf(),
        old(grid).width <= i32::MAX,
        old(grid).height <= i32::MAX,
    ensures
        final(grid).wf(),
        final(grid).width == old(grid).width,
        final(grid).height == old(grid).height,
        rows_applied(*final(grid), *old(grid), wall_rows(bytes@.subrange(0, rem as int)), y as int),
    decreases rem,
{
    let ghost sub = bytes@.subrange(0, rem as int);
    if rem == 0 {
        proof {
            assert(sub =~= Seq::<u8>::empty());
            assert(wall_rows(sub) =~= Seq::<Seq<u8>>::empty());
        }
        return ;
    }
    if bytes[rem - 1] == 10 {
        apply_rows(bytes, rem - 1, y, grid);
        proof {
            assert(sub.drop_last() =~= bytes@.subrange(0, rem - 1));
            assert(wall_rows(sub) =~= wall_rows(bytes@.subrange(0, rem - 1)));
        }
        return ;
    }
    let mut k = rem;
    while k > 0 && bytes[k - 1] != 10
        invariant
            k <= rem <= bytes@.len(),
            forall|m: int| k <= m < rem ==> bytes@[m] != 10,
        decreases k,
    {
        k = k - 1;
    }
    proof {
        assert forall|m: int| k <= m < sub.len() implies sub[m] != 10 by {
            assert(sub[m] == bytes@[m]);
        }
        if k > 0 {
            assert(sub[k - 1] == bytes@[k - 1]);
        }
        lemma_line_start_unique(sub, k as int);
    }
    let mut lo = k;
    while lo < rem && ws_at(bytes, lo)
        invariant
            k <= lo <= rem <= bytes@.len(),
            forall|m: int| k <= m < lo ==> is_ws(bytes@[m]),
        decreases rem - lo,
    {
        lo = lo + 1;
    }
    let mut hi = rem;
    while hi > lo && ws_at(bytes, hi - 1)
        invariant
            lo <= hi <= rem <= bytes@.len(),
            forall|m: int| hi <= m < rem ==> is_ws(bytes@[m]),
        decreases hi,
    {
        hi = hi - 1;
    }
    let ghost line = bytes@.subrange(k as int, rem as int);
    let ghost trimmed = bytes@.subrange(lo as int, hi as int);
    proof {
        assert forall|m: int| 0 <= m < lo - k implies is_ws(line[m]) by {
            assert(line[m] == bytes@[k + m]);
        }
        if lo < rem {
            assert(line[lo - k] == bytes@[lo as int]);
        }
        lemma_trim_front_range(line, lo - k);
        let mid = bytes@.subrange(lo as int, rem as int);
        assert(trim_front(line) =~= mid);
        assert forall|m: int| hi - lo <= m < mid.len() implies is_ws(mid[m]) by {
            assert(mid[m] == bytes@[lo + m]);
        }
        if hi > lo {
            assert(mid[hi - lo - 1] == bytes@[hi - 1]);
        }
        lemma_trim_back_range(mid, hi - lo);
        assert(trim_ws(line) =~= trimmed);
    }
    let is_row = lo < hi && bytes[lo] == 124;
    let rem2 = if k > 0 {
        k - 1
    } else {
        0
    };
    let ghost prefix = bytes@.subrange(0, rem2 as int);
    proof {
        assert(sub[sub.len() - 1] == bytes@[rem - 1]);
        assert(sub.subrange(k as int, sub.len() as int) =~= line);
        if k > 0 {
            assert(sub.subrange(0, k - 1) =~= prefix);
        } else {
            assert(prefix =~= Seq::<u8>::empty());
        }
        if is_row {
            assert(trimmed[0] == bytes@[lo as int]);
            assert(wall_rows(sub) =~= seq![trimmed] + wall_rows(prefix));
        } else {
            if lo < hi {
                assert(trimmed[0] == bytes@[lo as int]);
            }
            assert(wall_rows(sub) =~= wall_rows(prefix));
        }
    }
    if is_row {
        let mut b0 = lo;
        while b0 < hi && bytes[b0] == 124
            invariant
                lo <= b0 <= hi <= bytes@.len(),
                forall|m: int| lo <= m < b0 ==> bytes@[m] == 124,
            decreases hi - b0,
        {
            b0 = b0 + 1;
        }
        proof {
            assert forall|m: int| 0 <= m < b0 - lo implies trimmed[m] == 124 by {
                assert(trimmed[m] == bytes@[lo + m]);
            }
            if b0 < hi {
                assert(trimmed[b0 - lo] == bytes@[b0 as int]);
            }
            lemma_strip_pipes_range(trimmed, b0 - lo);
            assert(strip_pipes(trimmed) =~= bytes@.subrange(b0 as int, hi as int));
        }
        let ghost g0 = *grid;
        apply_tokens(bytes, b0, hi, y, grid);
        let ghost g1 = *grid;
        apply_rows(bytes, rem2, y + 1, grid);
        proof {
            let rows = wall_rows(sub);
            let body = bytes@.subrange(b0 as int, hi as int);
            assert(strip_pipes(body) =~= body);
            assert(row_walls_applied(g1, g0, body, y as int));
            assert(rows_applied(*grid, g1, wall_rows(prefix), y as int + 1));
            assert forall|p: Position|
                grid.spec_in_bounds(p) implies #[trigger] grid@[grid.spec_index_of(p)]
                == tile_after(
                g0@[g0.spec_index_of(p)],
                p.y >= y && rows_wall(rows, p.x as int, p.y - y),
            ) by {
                g0.lemma_index_in_range(p);
                assert(g1.spec_in_bounds(p));
                assert(grid@[grid.spec_index_of(p)] == tile_after(
                    g1@[g1.spec_index_of(p)],
                    p.y >= y + 1 && rows_wall(wall_rows(prefix), p.x as int, p.y - (y + 1)),
                ));
                assert(g1@[g1.spec_index_of(p)] == tile_after(
                    g0@[g0.spec_index_of(p)],
                    p.y == y && row_has_wall(body, p.x as int),
                ));
                if p.y == y {
                    assert(rows_wall(rows, p.x as int, p.y - y) == row_has_wall(
                        trimmed,
                        p.x as int,
                    )) by {
                        assert(rows[0] == trimmed);
                    }
                    assert(row_has_wall(trimmed, p.x as int) == row_has_wall(
                        body,
                        p.x as int,
                    ));
                } else if p.y > y {
                    if p.y - y < rows.len() {
                        assert(rows[p.y - y] == wall_rows(prefix)[p.y - y - 1]);
                    }
                    assert(rows_wall(rows, p.x as int, p.y - y) == rows_wall(
                        wall_rows(prefix),
                        p.x as int,
                        p.y - (y + 1),
                    ));
                }
            }
        }
    } else {
        apply_rows(bytes, rem2, y, grid);
    }
}

/// A named grid of tiles, authored from text or left at the default.
pub struct TileMap {
    pub name: String,
    pub grid: Grid<Tile>,
}

impl TileMap {
    /// A map of `width * height` default tiles.
    pub fn new(name: &str, width: usize, height: usize) -> (r: Self)
        requires
            width * height <= usize::MAX,
        ensures
            r.grid.wf(),
            r.grid.width == width,
            r.grid.height == height,
            r.name@ == name@,
            forall|p: Position|
                r.grid.spec_in_bounds(p) ==> (#[trigger] r.grid@[r.grid.spec_index_of(
                    p,
                )]).walkable && r.grid@[r.grid.spec_index_of(p)].transparent
                    && r.grid@[r.grid.spec_index_of(p)].entities@.len() == 0,
    {
        let grid: Grid<Tile> = Grid::new(width, height);
        let r = TileMap { name: name.to_owned(), grid };
        proof {
            assert forall|p: Position|
                r.grid.spec_in_bounds(p) implies (#[trigger] r.grid@[r.grid.spec_index_of(
                p,
            )]).walkable && r.grid@[r.grid.spec_index_of(p)].transparent
                && r.grid@[r.grid.spec_index_of(p)].entities@.len() == 0 by {
                r.grid.lemma_index_in_range(p);
            }
        }
        r
    }

    /// Parses a map from its textual form: rows are read bottom-to-top,
    /// each `|`-delimited token marks a wall exactly when it starts with
    /// `W`; everything else, malformed text included, stays the default
    /// walkable, transparent tile.
    pub fn from_str(name: &str, width: usize, height: usize, s: &str) -> (r: Self)
        requires
            width * height <= usize::MAX,
            width <= i32::MAX,
            height <= i32::MAX,
            s.spec_bytes().len() < usize::MAX,
        ensures
            r.grid.wf(),
            r.grid.width == width,
            r.grid.height == height,
            r.name@ == name@,
            forall|p: Position|
                r.grid.spec_in_bounds(p) ==> {
                    let w = is_wall(s.spec_bytes(), p.x as int, p.y as int);
                    let c = #[trigger] r.grid@[r.grid.spec_index_of(p)];
                    c.walkable == !w && c.transparent == !w && c.entities@.len() == 0
                },
    {
        let mut grid: Grid<Tile> = Grid::new(width, height);
        let bytes = s.as_bytes();
        let n = bytes.len();
        apply_rows(bytes, n, 0, &mut grid);
        let r = TileMap { name: name.to_owned(), grid };
        proof {
            assert(bytes@.subrange(0, n as int) =~= s.spec_bytes());
            assert forall|p: Position|
                r.grid.spec_in_bounds(p) implies {
                let w = is_wall(s.spec_bytes(), p.x as int, p.y as int);
                let c = #[trigger] r.grid@[r.grid.spec_index_of(p)];
                c.walkable == !w && c.transparent == !w && c.entities@.len() == 0
            } by {
                r.grid.lemma_index_in_range(p);
            }
        }
        r
    }

    /// The set of positions visible from `origin` on this map (see
    /// `shadow::get_visible`).
    pub fn get_visible(&self, origin: &Position) -> (r: Vec<Position>)
        requires
            self.grid.wf(),
            self.grid.width <= i32::MAX,
            self.grid.height <= i32::MAX,
        ensures
            shadow::vec_set(r@) == shadow::visible_spec(self.grid, *origin),
            shadow::distinct_seq(r@),
            r@.contains(*origin),
    {
        shadow::get_visible(&self.grid, origin)
    }
}

} // verus!
