use vstd::prelude::*;

use crate::entropy_queue::came_from;
use crate::entropy_queue::heap_wf;
use crate::entropy_queue::seq_has_entry;
use crate::entropy_queue::seq_has_pos;
use crate::entropy_queue::EntropyEntry;
use crate::entropy_queue::EntropyQueue;
use crate::grid::Grid;
use crate::grid::GridValue;
use crate::position::cardinal_directions;
use crate::position::vec_contains_pos;
use crate::position::Position;
use crate::wfc_cell::lemma_each_weight_bounded;
use crate::wfc_cell::random_below;
use crate::wfc_cell::lemma_masked_sum_le_seq_sum;
use crate::wfc_cell::lemma_masked_sum_nonneg;
use crate::wfc_cell::lemma_wlog_le_weight;
use crate::wfc_cell::weights_bounded;
use crate::wfc_cell::weight_terms;
use crate::wfc_cell::Cell;
use vstd::arithmetic::div_mod::lemma_fundamental_div_mod;
use vstd::string::StringExecFns;
use vstd::arithmetic::div_mod::lemma_fundamental_div_mod_converse;
use vstd::arithmetic::div_mod::lemma_mod_division_less_than_divisor;
use vstd::multiset::Multiset;

verus! {

/// The result of one solver step.
#[derive(Debug, PartialEq, Eq, Structural, Clone, Copy)]
pub enum WfcStep {
    /// One more cell was collapsed and its constraints propagated.
    Progress,
    /// Every cell is already collapsed; the step did nothing.
    Solved,
    /// The cell picked for collapse had no possible tile type with positive
    /// weight left: generation failed and the engine must be discarded.
    Contradiction,
}

/// Whether one constraint row allows `j` as the neighbor in direction `dir`:
/// true when any of the row's entries for `dir` lists `j`. Several entries
/// for the same direction act as their union.
pub open spec fn row_allows(row: Seq<(Position, Vec<usize>)>, dir: Position, j: int) -> bool {
    exists|e: int, k: int|
        0 <= e < row.len() && row[e].0 == dir && 0 <= k < row[e].1@.len() && row[e].1@[k]
            == j
}

/// The neighbor position one step in `dir`.
pub open spec fn pos_offset(p: Position, dir: Position) -> Position {
    Position { x: (p.x + dir.x) as i32, y: (p.y + dir.y) as i32 }
}

/// The direction opposite to `dir`.
pub open spec fn opposite(dir: Position) -> Position {
    Position { x: (0 - dir.x) as i32, y: (0 - dir.y) as i32 }
}

/// The position a flat row-major index denotes.
pub open spec fn pos_of_index(width: int, k: int) -> Position {
    Position { x: (k % width) as i32, y: (k / width) as i32 }
}

/// Number of cells not yet collapsed.
pub open spec fn count_uncollapsed(s: Seq<Cell>) -> int
    decreases s.len(),
{
    if s.len() == 0 {
        0
    } else {
        count_uncollapsed(s.drop_last()) + if s.last().chosen_index.is_none() {
            1int
        } else {
            0
        }
    }
}

pub proof fn lemma_count_nonneg(s: Seq<Cell>)
    ensures
        0 <= count_uncollapsed(s) <= s.len(),
    decreases s.len(),
{
    if s.len() > 0 {
        lemma_count_nonneg(s.drop_last());
    }
}

/// With no uncollapsed cells left, every cell is collapsed.
pub proof fn lemma_count_zero_all_collapsed(s: Seq<Cell>)
    requires
        count_uncollapsed(s) == 0,
    ensures
        forall|i: int| 0 <= i < s.len() ==> (#[trigger] s[i]).chosen_index.is_some(),
    decreases s.len(),
{
    if s.len() > 0 {
        lemma_count_nonneg(s.drop_last());
        lemma_count_zero_all_collapsed(s.drop_last());
        assert forall|i: int| 0 <= i < s.len() implies (#[trigger] s[i]).chosen_index.is_some() by {
            if i < s.len() - 1 {
                assert(s.drop_last()[i] == s[i]);
            }
        }
    }
}

/// With uncollapsed cells left, one of them exists.
pub proof fn lemma_count_pos_exists(s: Seq<Cell>)
    requires
        count_uncollapsed(s) > 0,
    ensures
        exists|i: int| 0 <= i < s.len() && (#[trigger] s[i]).chosen_index.is_none(),
    decreases s.len(),
{
    if s.last().chosen_index.is_none() {
        assert(s[s.len() - 1].chosen_index.is_none());
    } else {
        lemma_count_pos_exists(s.drop_last());
        let i = choose|i: int|
            0 <= i < s.drop_last().len() && (#[trigger] s.drop_last()[i]).chosen_index.is_none();
        assert(s[i].chosen_index.is_none());
    }
}

/// A fully fresh state counts every cell.
pub proof fn lemma_count_all_none(s: Seq<Cell>)
    requires
        forall|i: int| 0 <= i < s.len() ==> (#[trigger] s[i]).chosen_index.is_none(),
    ensures
        count_uncollapsed(s) == s.len(),
    decreases s.len(),
{
    if s.len() > 0 {
        lemma_count_all_none(s.drop_last());
    }
}

/// The count only looks at each cell's chosen index.
pub proof fn lemma_count_pointwise(a: Seq<Cell>, b: Seq<Cell>)
    requires
        a.len() == b.len(),
        forall|i: int|
            0 <= i < a.len() ==> (#[trigger] a[i]).chosen_index == b[i].chosen_index,
    ensures
        count_uncollapsed(a) == count_uncollapsed(b),
    decreases a.len(),
{
    if a.len() > 0 {
        assert forall|i: int|
            0 <= i < a.drop_last().len() implies (#[trigger] a.drop_last()[i]).chosen_index
            == b.drop_last()[i].chosen_index by {
            assert(a.drop_last()[i] == a[i]);
        }
        lemma_count_pointwise(a.drop_last(), b.drop_last());
    }
}

/// Collapsing one uncollapsed cell lowers the count by exactly one.
pub proof fn lemma_count_update_collapse(s: Seq<Cell>, i: int, c: Cell)
    requires
        0 <= i < s.len(),
        s[i].chosen_index.is_none(),
        c.chosen_index.is_some(),
    ensures
        count_uncollapsed(s.update(i, c)) == count_uncollapsed(s) - 1,
    decreases s.len(),
{
    let su = s.update(i, c);
    if i == s.len() - 1 {
        assert(su.drop_last() =~= s.drop_last());
    } else {
        assert(su.drop_last() =~= s.drop_last().update(i, c));
        lemma_count_update_collapse(s.drop_last(), i, c);
    }
}

/// Count of set bits among the first `n`.
pub open spec fn count_trues(p: Seq<bool>, n: int) -> int
    decreases n,
{
    if n <= 0 {
        0
    } else {
        count_trues(p, n - 1) + if p[n - 1] {
            1int
        } else {
            0
        }
    }
}

pub proof fn lemma_count_trues_nonneg(p: Seq<bool>, n: int)
    ensures
        count_trues(p, n) >= 0,
    decreases n,
{
    if n > 0 {
        lemma_count_trues_nonneg(p, n - 1);
    }
}

/// Clearing a set bit lowers the count by one.
pub proof fn lemma_count_trues_clear(p: Seq<bool>, n: int, j: int)
    requires
        0 <= j < p.len(),
        n <= p.len(),
        p[j],
    ensures
        j < n ==> count_trues(p.update(j, false), n) == count_trues(p, n) - 1,
        j >= n ==> count_trues(p.update(j, false), n) == count_trues(p, n),
    decreases n,
{
    let pu = p.update(j, false);
    if n > 0 {
        lemma_count_trues_clear(p, n - 1, j);
        if j != n - 1 {
            assert(pu[n - 1] == p[n - 1]);
        }
    }
}

/// Total possibilities over all cells: the propagation worklist's
/// termination measure.
pub open spec fn total_possible(s: Seq<Cell>) -> int
    decreases s.len(),
{
    if s.len() == 0 {
        0
    } else {
        total_possible(s.drop_last()) + count_trues(
            s.last().possible@,
            s.last().possible@.len() as int,
        )
    }
}

/// Replacing one cell shifts the total by the difference of bit counts.
pub proof fn lemma_total_possible_update(s: Seq<Cell>, i: int, c: Cell)
    requires
        0 <= i < s.len(),
    ensures
        total_possible(s.update(i, c)) == total_possible(s) - count_trues(
            s[i].possible@,
            s[i].possible@.len() as int,
        ) + count_trues(c.possible@, c.possible@.len() as int),
    decreases s.len(),
{
    let su = s.update(i, c);
    if i == s.len() - 1 {
        assert(su.drop_last() =~= s.drop_last());
    } else {
        assert(su.drop_last() =~= s.drop_last().update(i, c));
        lemma_total_possible_update(s.drop_last(), i, c);
    }
}

pub proof fn lemma_total_possible_nonneg(s: Seq<Cell>)
    ensures
        total_possible(s) >= 0,
    decreases s.len(),
{
    if s.len() > 0 {
        lemma_total_possible_nonneg(s.drop_last());
        lemma_count_trues_nonneg(s.last().possible@, s.last().possible@.len() as int);
    }
}

/// Step monotonicity: possibilities only shrink, and collapsed cells never
/// change again.
pub open spec fn cells_monotone(before: Seq<Cell>, after: Seq<Cell>) -> bool {
    &&& after.len() == before.len()
    &&& forall|i: int|
        0 <= i < before.len() ==> (#[trigger] after[i]).possible@.len()
            == before[i].possible@.len()
    &&& forall|i: int, j: int|
        0 <= i < before.len() && 0 <= j < before[i].possible@.len() && (#[trigger] after[i].possible@[j])
            ==> before[i].possible@[j]
    &&& forall|i: int|
        0 <= i < before.len() && (#[trigger] before[i]).chosen_index.is_some() ==> after[i]
            == before[i]
    &&& forall|i: int|
        0 <= i < before.len() ==> (#[trigger] after[i]).entropy_noise
            == before[i].entropy_noise
}

pub proof fn lemma_monotone_trans(a: Seq<Cell>, b: Seq<Cell>, c: Seq<Cell>)
    requires
        cells_monotone(a, b),
        cells_monotone(b, c),
    ensures
        cells_monotone(a, c),
{
}

/// A vector of `n` `true` flags: the fresh everything-is-possible mask.
fn vec_of_trues(n: usize) -> (r: Vec<bool>)
    ensures
        r@.len() == n,
        forall|k: int| 0 <= k < n ==> r@[k],
{
    let mut r: Vec<bool> = Vec::new();
    let mut i: usize = 0;
    while i < n
        invariant
            i <= n,
            r@.len() == i,
            forall|k: int| 0 <= k < i ==> r@[k],
        decreases n - i,
    {
        r.push(true);
        i = i + 1;
    }
    r
}

/// The wave-function-collapse solver: a grid of cells that each hold the set
/// of tile types still possible there, a constraint table, per-type weights,
/// and a priority store picking the lowest-entropy cell to collapse next.
pub struct WFC {
    pub cells: Grid<Cell>,
    pub uncollapsed_cells: usize,
    pub constraints: Vec<Vec<(Position, Vec<usize>)>>,
    pub distributions: Vec<usize>,
    pub entropy_queue: EntropyQueue,
}

impl WFC {
    /// The number of tile types.
    pub open spec fn n_types(&self) -> int {
        self.distributions@.len() as int
    }

    /// The cell at an in-bounds position.
    pub open spec fn cell_at(&self, p: Position) -> Cell {
        self.cells@[self.cells.spec_index_of(p)]
    }

    /// Whether the constraint table allows `j` next to `i` in direction
    /// `dir`.
    pub open spec fn allows(&self, i: int, dir: Position, j: int) -> bool {
        row_allows(self.constraints@[i]@, dir, j)
    }

    /// Structural well-formedness: consistent sizes and well-formed cells.
    pub open spec fn base_ok(&self) -> bool {
        &&& self.cells.wf()
        &&& self.cells.width <= i32::MAX
        &&& self.cells.height <= i32::MAX
        &&& self.constraints@.len() == self.n_types()
        &&& weights_bounded(self.distributions@)
        &&& forall|i: int|
            0 <= i < self.cells@.len() ==> (#[trigger] self.cells@[i]).wf(self.distributions@)
    }

    /// The uncollapsed counter matches the cells.
    pub open spec fn count_ok(&self) -> bool {
        self.uncollapsed_cells == count_uncollapsed(self.cells@)
    }

    /// Every queue entry points into the grid, and every uncollapsed cell
    /// has at least one entry waiting: the store can never run dry early.
    pub open spec fn queue_ok(&self) -> bool {
        &&& heap_wf(self.entropy_queue@)
        &&& forall|e: int|
            0 <= e < self.entropy_queue@.len() ==> self.cells.spec_in_bounds(
                (#[trigger] self.entropy_queue@[e]).pos,
            )
        &&& forall|p: Position|
            self.cells.spec_in_bounds(p) && !(#[trigger] self.cell_at(p)).collapsed()
                ==> seq_has_pos(self.entropy_queue@, p)
    }

    /// One directed adjacency edge is consistent: if `p` is collapsed and
    /// its neighbor one step in direction number `k` is in bounds and not
    /// collapsed, everything the neighbor still holds possible is permitted
    /// next to the chosen type.
    pub open spec fn edge_ok(&self, p: Position, k: int) -> bool {
        let dir = cardinal_directions()[k];
        let q = pos_offset(p, dir);
        (self.cells.spec_in_bounds(p) && self.cell_at(p).collapsed()
            && self.cells.spec_in_bounds(q) && !self.cell_at(q).collapsed()) ==> forall|j: int|
            0 <= j < self.n_types() && (#[trigger] self.cell_at(q).possible@[j]) ==> self.allows(
                self.cell_at(p).chosen(),
                dir,
                j,
            )
    }

    /// Arc consistency around collapsed cells, except at positions still on
    /// the propagation worklist.
    pub open spec fn prop_ok_except(&self, pending: Seq<Position>) -> bool {
        forall|p: Position, k: int|
            0 <= k < 4 && !pending.contains(p) ==> #[trigger] self.edge_ok(p, k)
    }

    pub open spec fn prop_ok(&self) -> bool {
        self.prop_ok_except(Seq::empty())
    }

    /// One directed adjacency edge is consistent in the general sense:
    /// whatever the uncollapsed neighbor still holds possible is permitted
    /// by some remaining possibility of the source cell, collapsed or not.
    pub open spec fn gen_edge_ok(&self, p: Position, k: int) -> bool {
        let dir = cardinal_directions()[k];
        let q = pos_offset(p, dir);
        (self.cells.spec_in_bounds(p) && self.cells.spec_in_bounds(q) && !self.cell_at(
            q,
        ).collapsed()) ==> forall|j: int|
            0 <= j < self.n_types() && (#[trigger] self.cell_at(q).possible@[j])
                ==> some_type_allows(*self, p, dir, j)
    }

    /// General arc consistency, except at positions still on the worklist.
    pub open spec fn gen_prop_ok_except(&self, pending: Seq<Position>) -> bool {
        forall|p: Position, k: int|
            0 <= k < 4 && !pending.contains(p) ==> #[trigger] self.gen_edge_ok(p, k)
    }

    /// The full arc-consistency fixed point over every cell pair.
    pub open spec fn gen_prop_ok(&self) -> bool {
        self.gen_prop_ok_except(Seq::empty())
    }

    /// Two collapsed neighbors satisfy the table in at least the direction
    /// that was enforced when the later of the two collapsed.
    pub open spec fn adj_ok_at(&self, p: Position, k: int) -> bool {
        let dir = cardinal_directions()[k];
        let q = pos_offset(p, dir);
        (self.cells.spec_in_bounds(p) && self.cell_at(p).collapsed()
            && self.cells.spec_in_bounds(q) && self.cell_at(q).collapsed()) ==> (self.allows(
            self.cell_at(p).chosen(),
            dir,
            self.cell_at(q).chosen(),
        ) || self.allows(self.cell_at(q).chosen(), opposite(dir), self.cell_at(p).chosen()))
    }

    pub open spec fn adj_ok(&self) -> bool {
        forall|p: Position, k: int| 0 <= k < 4 ==> #[trigger] self.adj_ok_at(p, k)
    }

    /// The solver invariant, established by `new` and kept by every
    /// `Progress` step.
    pub open spec fn wf(&self) -> bool {
        &&& self.base_ok()
        &&& self.count_ok()
        &&& self.queue_ok()
        &&& self.prop_ok()
        &&& self.adj_ok()
    }

    /// Builds a solver over a `width * height` grid where every cell starts
    /// with all tile types possible, its entropy computed, and one entry on
    /// the priority store.
    pub fn new(
        width: usize,
        height: usize,
        constraints: Vec<Vec<(Position, Vec<usize>)>>,
        distributions: Vec<usize>,
    ) -> (r: Self)
        requires
            width * height <= usize::MAX,
            width <= i32::MAX,
            height <= i32::MAX,
            constraints@.len() == distributions@.len(),
            weights_bounded(distributions@),
        ensures
            r.wf(),
            r.cells.width == width,
            r.cells.height == height,
            r.cells@.len() == width * height,
            r.uncollapsed_cells == width * height,
            r.constraints == constraints,
            r.distributions == distributions,
            forall|i: int| 0 <= i < r.cells@.len() ==> !(#[trigger] r.cells@[i]).collapsed(),
            forall|i: int, j: int|
                0 <= i < r.cells@.len() && 0 <= j < distributions@.len()
                    ==> (#[trigger] r.cells@[i].possible@[j]),
    {
        let mut entropy_queue = EntropyQueue::new();
        let mut cells: Grid<Cell> = Grid::new(width, height);
        let n = cells.len();
        let ntypes = distributions.len();
        let mut i: usize = 0;
        while i < n
            invariant
                cells.wf(),
                cells.width == width,
                cells.height == height,
                n == cells@.len() == width * height,
                width <= i32::MAX,
                height <= i32::MAX,
                ntypes == distributions@.len(),
                weights_bounded(distributions@),
                i <= n,
                forall|k: int|
                    0 <= k < i ==> (#[trigger] cells@[k]).wf(distributions@)
                        && cells@[k].chosen_index.is_none() && cells@[k].possible@.len() == ntypes
                        && (forall|j: int| 0 <= j < ntypes ==> cells@[k].possible@[j]),
                forall|k: int| i <= k < n ==> (#[trigger] cells@[k]).is_initial(),
                heap_wf(entropy_queue@),
                forall|e: int|
                    0 <= e < entropy_queue@.len() ==> cells.spec_in_bounds(
                        (#[trigger] entropy_queue@[e]).pos,
                    ),
                forall|k: int|
                    0 <= k < i ==> seq_has_pos(
                        entropy_queue@,
                        #[trigger] pos_of_index(width as int, k),
                    ),
            decreases n - i,
        {
            proof {
                assert(width > 0) by (nonlinear_arith)
                    requires
                        i < n,
                        n == width * height,
                ;
                lemma_mod_division_less_than_divisor(i as int, width as int);
                vstd::arithmetic::div_mod::lemma_multiply_divide_lt(
                    i as int,
                    width as int,
                    height as int,
                );
                lemma_fundamental_div_mod(i as int, width as int);
            }
            let x = i % width;
            let y = i / width;
            let pos = Position::new(x as i32, y as i32);
            proof {
                assert(cells.spec_in_bounds(pos));
                assert(cells.spec_index_of(pos) == y * width + x);
                assert(y * width == width * y) by (nonlinear_arith);
                assert(cells.spec_index_of(pos) == i);
                cells.lemma_index_in_range(pos);
            }
            let poss = vec_of_trues(ntypes);
            let noise = random_below(10) as i64 + 1;
            let cell = cells.get_mut(&pos);
            cell.possible = poss;
            cell.set_entropy(&distributions, noise);
            proof {
                lemma_each_weight_bounded(distributions@);
                lemma_masked_sum_le_seq_sum(
                    cell.possible@,
                    weight_terms(distributions@),
                    ntypes as int,
                );
                lemma_wlog_le_weight(cell.possible@, distributions@, ntypes as int);
                lemma_masked_sum_nonneg(
                    cell.possible@,
                    weight_terms(distributions@),
                    ntypes as int,
                );
            }
            let key = cell.entropy();
            let entry = EntropyEntry { key, pos };
            let ghost q_pre = entropy_queue@;
            entropy_queue.push(entry);
            proof {
                assert(pos_of_index(width as int, i as int) == pos);
                assert forall|e2: int|
                    0 <= e2 < entropy_queue@.len() implies cells.spec_in_bounds(
                    (#[trigger] entropy_queue@[e2]).pos,
                ) by {
                    if entropy_queue@[e2] != entry {
                        let m = choose|m: int|
                            0 <= m < q_pre.len() && q_pre[m] == entropy_queue@[e2];
                    }
                }
            }
            i = i + 1;
        }
        let uncollapsed_cells = cells.len();
        let r = WFC { cells, uncollapsed_cells, constraints, distributions, entropy_queue };
        proof {
            lemma_count_all_none(r.cells@);
            assert forall|p: Position|
                r.cells.spec_in_bounds(p) && !(#[trigger] r.cell_at(p)).collapsed() implies
                seq_has_pos(r.entropy_queue@, p) by {
                r.cells.lemma_index_in_range(p);
                let k = r.cells.spec_index_of(p);
                lemma_fundamental_div_mod_converse(k, width as int, p.y as int, p.x as int);
                assert(width * (p.y as int) == (p.y as int) * width) by (nonlinear_arith);
                assert(pos_of_index(width as int, k) == p);
            }
            assert forall|p: Position, k: int| 0 <= k < 4 implies #[trigger] r.edge_ok(p, k) by {
                if r.cells.spec_in_bounds(p) {
                    r.cells.lemma_index_in_range(p);
                }
            }
            assert forall|p: Position, k: int| 0 <= k < 4 implies #[trigger] r.adj_ok_at(p, k) by {
                if r.cells.spec_in_bounds(p) {
                    r.cells.lemma_index_in_range(p);
                }
            }
        }
        r
    }
    /// Pops the priority store until an entry for a still-uncollapsed cell
    /// appears. Lazy deletion: entries for already-collapsed cells are stale
    /// and simply discarded. The store provably cannot run dry while
    /// uncollapsed cells remain, and the returned cell came from a
    /// minimum-entropy live entry: every strictly smaller-keyed entry of the
    /// store referred to an already-collapsed cell.
    fn choose_cell(&mut self) -> (r: Position)
        requires
            old(self).base_ok(),
            old(self).count_ok(),
            old(self).queue_ok(),
            old(self).uncollapsed_cells > 0,
        ensures
            final(self).cells == old(self).cells,
            final(self).uncollapsed_cells == old(self).uncollapsed_cells,
            final(self).constraints == old(self).constraints,
            final(self).distributions == old(self).distributions,
            final(self).cells.spec_in_bounds(r),
            !final(self).cell_at(r).collapsed(),
            heap_wf(final(self).entropy_queue@),
            forall|e: int|
                0 <= e < final(self).entropy_queue@.len() ==> final(self).cells.spec_in_bounds(
                    (#[trigger] final(self).entropy_queue@[e]).pos,
                ),
            forall|p: Position|
                final(self).cells.spec_in_bounds(p) && !(#[trigger] final(self).cell_at(
                    p,
                )).collapsed() && p != r ==> seq_has_pos(final(self).entropy_queue@, p),
            exists|en: EntropyEntry|
                #[trigger] came_from(old(self).entropy_queue@, en) && en.pos == r && (forall|
                    m: int,
                |
                    0 <= m < old(self).entropy_queue@.len()
                        && (#[trigger] (old(self).entropy_queue@[m])).key < en.key
                        ==> final(self).cell_at(old(self).entropy_queue@[m].pos).collapsed()),
    {
        let ghost mut popped: Multiset<EntropyEntry> = Multiset::empty();
        proof {
            assert(old(self).entropy_queue@.to_multiset() =~= self.entropy_queue@.to_multiset().add(
                popped,
            ));
        }
        loop
            invariant
                self.base_ok(),
                self.count_ok(),
                self.cells == old(self).cells,
                self.uncollapsed_cells == old(self).uncollapsed_cells,
                self.constraints == old(self).constraints,
                self.distributions == old(self).distributions,
                self.uncollapsed_cells > 0,
                heap_wf(self.entropy_queue@),
                forall|e: int|
                    0 <= e < self.entropy_queue@.len() ==> self.cells.spec_in_bounds(
                        (#[trigger] self.entropy_queue@[e]).pos,
                    ),
                forall|p: Position|
                    self.cells.spec_in_bounds(p) && !(#[trigger] self.cell_at(p)).collapsed()
                        ==> seq_has_pos(self.entropy_queue@, p),
                old(self).entropy_queue@.to_multiset() == self.entropy_queue@.to_multiset().add(
                    popped,
                ),
                forall|x: EntropyEntry| #[trigger]
                    popped.contains(x) ==> self.cells.spec_in_bounds(x.pos) && self.cell_at(
                        x.pos,
                    ).collapsed(),
                forall|x: EntropyEntry, m: int|
                    #![trigger popped.contains(x), self.entropy_queue@[m]]
                    popped.contains(x) && 0 <= m < self.entropy_queue@.len() ==> x.key
                        <= self.entropy_queue@[m].key,
            decreases self.entropy_queue@.len(),
        {
            let ghost snap = *self;
            proof {
                lemma_count_pos_exists(self.cells@);
                let i = choose|i: int|
                    0 <= i < self.cells@.len() && (#[trigger] self.cells@[i]).chosen_index.is_none();
                let w = self.cells.width as int;
                let h = self.cells.height as int;
                assert(w > 0) by (nonlinear_arith)
                    requires
                        0 <= i < w * h,
                        h >= 0,
                ;
                lemma_mod_division_less_than_divisor(i, w);
                vstd::arithmetic::div_mod::lemma_multiply_divide_lt(i, w, h);
                lemma_fundamental_div_mod(i, w);
                let p = pos_of_index(w, i);
                assert(w * (i / w) == (i / w) * w) by (nonlinear_arith);
                assert(self.cells.spec_index_of(p) == i);
                assert(self.cells.spec_in_bounds(p));
                assert(!self.cell_at(p).collapsed());
                assert(seq_has_pos(self.entropy_queue@, p));
            }
            let ghost q_before = self.entropy_queue@;
            let e_opt = self.entropy_queue.pop();
            let e = e_opt.unwrap();
            proof {
                assert forall|e2: int|
                    0 <= e2 < self.entropy_queue@.len() implies self.cells.spec_in_bounds(
                    (#[trigger] self.entropy_queue@[e2]).pos,
                ) by {
                    let p2 = self.entropy_queue@[e2].pos;
                    assert(seq_has_pos(self.entropy_queue@, p2));
                    assert(seq_has_pos(q_before, p2));
                    let j = choose|j: int| 0 <= j < q_before.len() && q_before[j].pos == p2;
                    assert(self.cells.spec_in_bounds(q_before[j].pos));
                }
                assert forall|p: Position|
                    self.cells.spec_in_bounds(p) && !(#[trigger] self.cell_at(p)).collapsed()
                        && p != e.pos implies seq_has_pos(self.entropy_queue@, p) by {
                    assert(snap.cells == self.cells);
                    assert(snap.cell_at(p) == self.cell_at(p));
                    assert(!snap.cell_at(p).collapsed());
                    assert(seq_has_pos(q_before, p));
                }
            }
            let cell = self.cells.get(&e.pos).unwrap();
            if cell.chosen_index.is_none() {
                proof {
                    broadcast use vstd::seq_lib::group_to_multiset_ensures;

                    assert(q_before.contains(e));
                    assert(q_before.to_multiset().count(e) > 0);
                    assert(old(self).entropy_queue@.to_multiset().count(e) > 0);
                    assert(old(self).entropy_queue@.contains(e));
                    let ghost q0 = old(self).entropy_queue@;
                    assert(came_from(q0, e)) by {
                        let w = choose|w: int| 0 <= w < q0.len() && q0[w] == e;
                    }
                    assert forall|m: int|
                        0 <= m < q0.len() && (#[trigger] (q0[m])).key < e.key implies self.cell_at(
                        q0[m].pos,
                    ).collapsed() by {
                        let v = q0[m];
                        assert(q0.contains(v));
                        assert(q0.to_multiset().count(v) > 0);
                        if q_before.to_multiset().count(v) > 0 {
                            assert(q_before.contains(v));
                            let w = choose|w: int| 0 <= w < q_before.len() && q_before[w] == v;
                            assert(e.key <= q_before[w].key);
                        } else {
                            assert(popped.count(v) > 0);
                            assert(popped.contains(v));
                        }
                    }
                }
                return e.pos;
            }
            proof {
                broadcast use vstd::seq_lib::group_to_multiset_ensures;

                assert(q_before.contains(e));
                assert(q_before.to_multiset().count(e) > 0);
                let ghost q_after = self.entropy_queue@;
                assert forall|x: EntropyEntry, m: int|
                    #![trigger popped.insert(e).contains(x), q_after[m]]
                    popped.insert(e).contains(x) && 0 <= m < q_after.len() implies x.key
                    <= q_after[m].key by {
                    let v = q_after[m];
                    assert(q_after.contains(v));
                    assert(q_after.to_multiset().count(v) > 0);
                    assert(q_before.to_multiset().count(v) > 0);
                    assert(q_before.contains(v));
                    let w = choose|w: int| 0 <= w < q_before.len() && q_before[w] == v;
                    if x == e {
                        assert(e.key <= q_before[w].key);
                    } else {
                        assert(popped.contains(x));
                        assert(x.key <= q_before[w].key);
                    }
                }
                assert(old(self).entropy_queue@.to_multiset() =~= q_after.to_multiset().add(
                    popped.insert(e),
                ));
                assert(self.cells.spec_in_bounds(e.pos)) by {
                    let w = choose|w: int| 0 <= w < q_before.len() && q_before[w] == e;
                    assert(q_before[w].pos == e.pos);
                    assert(seq_has_pos(q_before, e.pos));
                }
                assert forall|x: EntropyEntry| #[trigger]
                    popped.insert(e).contains(x) implies self.cells.spec_in_bounds(x.pos)
                    && self.cell_at(x.pos).collapsed() by {
                    if x != e {
                        assert(popped.contains(x));
                    } else {
                        assert(self.cell_at(e.pos).collapsed());
                    }
                }
                popped = popped.insert(e);
            }
        }
    }

    /// Collapses the cell at `pos`: draws one still-possible tile type, each
    /// weighted by its configured frequency, and removes every other
    /// possibility. Returns `false` on contradiction: the cell had no
    /// possible type with positive weight left, and nothing was changed.
    fn collapse_at(&mut self, pos: &Position) -> (ok: bool)
        requires
            old(self).base_ok(),
            old(self).cells.spec_in_bounds(*pos),
            !old(self).cell_at(*pos).collapsed(),
        ensures
            final(self).base_ok(),
            final(self).cells.width == old(self).cells.width,
            final(self).cells.height == old(self).cells.height,
            final(self).constraints == old(self).constraints,
            final(self).distributions == old(self).distributions,
            final(self).entropy_queue == old(self).entropy_queue,
            final(self).uncollapsed_cells == old(self).uncollapsed_cells,
            cells_monotone(old(self).cells@, final(self).cells@),
            !ok ==> final(self).cells == old(self).cells,
            !ok ==> forall|j: int|
                0 <= j < old(self).n_types() && (#[trigger] old(self).cell_at(
                    *pos,
                ).possible@[j]) ==> old(self).distributions@[j] == 0,
            ok ==> final(self).cells@ == old(self).cells@.update(
                old(self).cells.spec_index_of(*pos),
                final(self).cell_at(*pos),
            ),
            ok ==> final(self).cell_at(*pos).collapsed(),
            ok ==> 0 <= final(self).cell_at(*pos).chosen() < old(self).n_types(),
            ok ==> old(self).cell_at(*pos).possible@[final(self).cell_at(*pos).chosen()],
            ok ==> old(self).distributions@[final(self).cell_at(*pos).chosen()] > 0,
            ok <==> exists|j: int|
                0 <= j < old(self).n_types() && old(self).cell_at(*pos).possible@[j] && old(
                    self,
                ).distributions@[j] > 0,
    {
        proof {
            self.cells.lemma_index_in_range(*pos);
        }
        let picked = {
            let cref = self.cells.get(pos).unwrap();
            cref.choose_possible(&self.distributions)
        };
        match picked {
            None => false,
            Some(k) => {
                let ghost before = self.cells@;
                let ghost idx = self.cells.spec_index_of(*pos);
                let cm = self.cells.get_mut(pos);
                cm.collapse(k, &self.distributions);
                proof {
                    assert forall|i: int|
                        0 <= i < self.cells@.len() implies (#[trigger] self.cells@[i]).wf(
                        self.distributions@,
                    ) by {
                        if i != idx {
                            assert(self.cells@[i] == before[i]);
                        }
                    }
                }
                true
            },
        }
    }

    /// Everything one propagation step preserves, relative to a base state:
    /// structure, choices and the counter are untouched, possibilities only
    /// shrink, and the priority store still covers every uncollapsed cell.
    pub open spec fn evolved(&self, base: &Self) -> bool {
        &&& self.base_ok()
        &&& self.cells.width == base.cells.width
        &&& self.cells.height == base.cells.height
        &&& self.cells@.len() == base.cells@.len()
        &&& self.constraints == base.constraints
        &&& self.distributions == base.distributions
        &&& self.uncollapsed_cells == base.uncollapsed_cells
        &&& cells_monotone(base.cells@, self.cells@)
        &&& forall|i: int|
            0 <= i < base.cells@.len() ==> (#[trigger] self.cells@[i]).chosen_index
                == base.cells@[i].chosen_index
        &&& heap_wf(self.entropy_queue@)
        &&& forall|e: int|
            0 <= e < self.entropy_queue@.len() ==> self.cells.spec_in_bounds(
                (#[trigger] self.entropy_queue@[e]).pos,
            )
        &&& forall|p: Position|
            self.cells.spec_in_bounds(p) && !(#[trigger] self.cell_at(p)).collapsed()
                ==> seq_has_pos(self.entropy_queue@, p)
    }

    /// Runs the depth-first worklist from `start` until no reachable cell's
    /// possibility set changes further: for each frontier cell and each
    /// direction, whatever its remaining possibilities do not permit as a
    /// neighbor is removed from the neighbor, the neighbor's entropy entry is
    /// refreshed, and the neighbor rejoins the worklist. Collapsed cells are
    /// never modified. On return: arc consistency around collapsed cells
    /// holds everywhere; no possibility was removed without cause (each
    /// removed one lacks support across some incoming edge); every pruned
    /// cell holds a queue entry with its current entropy key; and if the
    /// grid was generally arc-consistent except at `start`, the full
    /// fixed point over every cell pair is reached.
    fn propagate(&mut self, start: Position)
        requires
            old(self).base_ok(),
            old(self).cells.spec_in_bounds(start),
            old(self).prop_ok_except(seq![start]),
            heap_wf(old(self).entropy_queue@),
            forall|e: int|
                0 <= e < old(self).entropy_queue@.len() ==> old(self).cells.spec_in_bounds(
                    (#[trigger] old(self).entropy_queue@[e]).pos,
                ),
            forall|p: Position|
                old(self).cells.spec_in_bounds(p) && !(#[trigger] old(self).cell_at(
                    p,
                )).collapsed() ==> seq_has_pos(old(self).entropy_queue@, p),
        ensures
            final(self).evolved(old(self)),
            final(self).prop_ok(),
            removals_justified(*final(self), *old(self)),
            old(self).gen_prop_ok_except(seq![start]) ==> final(self).gen_prop_ok(),
            forall|q: Position|
                final(self).cells.spec_in_bounds(q) && (#[trigger] final(self).cell_at(
                    q,
                )).possible@ != old(self).cell_at(q).possible@ ==> seq_has_entry(
                    final(self).entropy_queue@,
                    q,
                    final(self).cell_at(q).spec_key(),
                ),
    {
        let ghost base = *old(self);
        let ghost entry_gen = old(self).gen_prop_ok_except(seq![start]);
        let mut stack: Vec<Position> = Vec::new();
        stack.push(start);
        proof {
            assert(stack@[0] == start);
            assert(stack@.contains(start));
            assert forall|pp: Position, kk: int|
                0 <= kk < 4 && !stack@.contains(pp) implies #[trigger] self.edge_ok(pp, kk) by {
                assert(!seq![start].contains(pp));
            }
            if entry_gen {
                assert forall|pp: Position, kk: int|
                    0 <= kk < 4 && !stack@.contains(pp) implies #[trigger] self.gen_edge_ok(
                    pp,
                    kk,
                ) by {
                    assert(!seq![start].contains(pp));
                }
            }
        }
        while stack.len() > 0
            invariant
                self.evolved(&base),
                forall|si: int|
                    0 <= si < stack@.len() ==> self.cells.spec_in_bounds(#[trigger] stack@[si]),
                self.prop_ok_except(stack@),
                removals_justified(*self, base),
                entry_gen ==> self.gen_prop_ok_except(stack@),
                forall|q: Position|
                    self.cells.spec_in_bounds(q) && (#[trigger] self.cell_at(q)).possible@
                        != base.cell_at(q).possible@ ==> seq_has_entry(
                        self.entropy_queue@,
                        q,
                        self.cell_at(q).spec_key(),
                    ),
            decreases total_possible(self.cells@), stack@.len(),
        {
            let ghost head = *self;
            let ghost head_total = total_possible(self.cells@);
            let ghost stack_at_head = stack@;
            let pos = stack.pop().unwrap();
            let ghost head_stack = stack@;
            let mut removed_any = false;
            let dirs = Position::directions();
            let ntypes = self.distributions.len();
            proof {
                assert(stack_at_head =~= head_stack.push(pos));
                assert forall|pp: Position, kk: int|
                    0 <= kk < 4 && !stack@.contains(pp) && pp != pos implies #[trigger] self.edge_ok(
                    pp,
                    kk,
                ) by {
                    assert(!stack_at_head.contains(pp)) by {
                        if stack_at_head.contains(pp) {
                            let wi = choose|wi: int|
                                0 <= wi < stack_at_head.len() && stack_at_head[wi] == pp;
                            if wi < head_stack.len() {
                                assert(stack@[wi] == pp);
                            } else {
                                assert(stack_at_head[wi] == pos);
                            }
                        }
                    }
                    assert(head.edge_ok(pp, kk));
                }
                if entry_gen {
                    assert forall|pp: Position, kk: int|
                        0 <= kk < 4 && !stack@.contains(pp) && pp != pos implies
                        #[trigger] self.gen_edge_ok(pp, kk) by {
                        assert(!stack_at_head.contains(pp)) by {
                            if stack_at_head.contains(pp) {
                                let wi = choose|wi: int|
                                    0 <= wi < stack_at_head.len() && stack_at_head[wi] == pp;
                                if wi < head_stack.len() {
                                    assert(stack@[wi] == pp);
                                } else {
                                    assert(stack_at_head[wi] == pos);
                                }
                            }
                        }
                        assert(head.gen_edge_ok(pp, kk));
                    }
                }
            }
            let mut di: usize = 0;
            while di < 4
                invariant
                    self.evolved(&base),
                    ntypes == self.distributions@.len(),
                    dirs@ == cardinal_directions(),
                    di <= 4,
                    self.cells.spec_in_bounds(pos),
                    forall|si: int|
                        0 <= si < stack@.len() ==> self.cells.spec_in_bounds(
                            #[trigger] stack@[si],
                        ),
                    forall|si: int| 0 <= si < head_stack.len() ==> stack@[si] == head_stack[si],
                    stack@.len() >= head_stack.len(),
                    forall|pp: Position, kk: int|
                        0 <= kk < 4 && !stack@.contains(pp) && pp != pos ==> #[trigger] self.edge_ok(
                            pp,
                            kk,
                        ),
                    forall|kk: int| 0 <= kk < di ==> #[trigger] self.edge_ok(pos, kk),
                    entry_gen ==> (forall|pp: Position, kk: int|
                        0 <= kk < 4 && !stack@.contains(pp) && pp != pos
                            ==> #[trigger] self.gen_edge_ok(pp, kk)),
                    entry_gen ==> (forall|kk: int|
                        0 <= kk < di ==> #[trigger] self.gen_edge_ok(pos, kk)),
                    head_total == total_possible(head.cells@),
                    !removed_any ==> self.cells@ == head.cells@ && stack@ == head_stack,
                    removed_any ==> total_possible(self.cells@) < head_total,
                    removals_justified(*self, base),
                    forall|q: Position|
                        self.cells.spec_in_bounds(q) && (#[trigger] self.cell_at(q)).possible@
                            != base.cell_at(q).possible@ ==> seq_has_entry(
                            self.entropy_queue@,
                            q,
                            self.cell_at(q).spec_key(),
                        ),
                decreases 4 - di,
            {
                let ghost mid = *self;
                let dir = dirs[di];
                proof {
                    assert(dir == cardinal_directions()[di as int]);
                    assert(dir == crate::position::dir_up() || dir == crate::position::dir_down()
                        || dir == crate::position::dir_left() || dir
                        == crate::position::dir_right());
                }
                let neighbor = Position::new(pos.x + dir.x, pos.y + dir.y);
                proof {
                    assert(neighbor == pos_offset(pos, dir));
                }
                if !self.cells.in_bounds(&neighbor) {
                    proof {
                        assert(self.gen_edge_ok(pos, di as int));
                    }
                    di = di + 1;
                    continue;
                }
                proof {
                    self.cells.lemma_index_in_range(pos);
                    self.cells.lemma_index_in_range(neighbor);
                    assert(neighbor != pos);
                    self.cells.lemma_index_injective(pos, neighbor);
                }
                let ghost pc = self.cell_at(pos).possible@;
                let mut permitted: Vec<usize> = Vec::new();
                {
                    let current = self.cells.get(&pos).unwrap();
                    let mut ii: usize = 0;
                    while ii < ntypes
                        invariant
                            ntypes == self.distributions@.len(),
                            ntypes == self.constraints@.len(),
                            ii <= ntypes,
                            *current == self.cell_at(pos),
                            pc == current.possible@,
                            self.cells.spec_in_bounds(pos),
                            self.cells.wf(),
                            current.possible@.len() == ntypes,
                            all_allowed_by(self.constraints@, pc, dir, permitted@),
                            forall|i2: int, e: int, s2: int|
                                0 <= i2 < ii && pc[i2] && 0 <= e < self.constraints@[i2]@.len()
                                    && self.constraints@[i2]@[e].0 == dir && 0 <= s2
                                    < self.constraints@[i2]@[e].1@.len() ==> permitted@.contains(
                                    #[trigger] self.constraints@[i2]@[e].1@[s2],
                                ),
                        decreases ntypes - ii,
                    {
                        if current.possible[ii] {
                            let row = &self.constraints[ii];
                            let row_len = row.len();
                            let mut ei: usize = 0;
                            while ei < row_len
                                invariant
                                    ntypes == self.constraints@.len(),
                                    ii < ntypes,
                                    row_len == row@.len(),
                                    ei <= row_len,
                                    row@ == self.constraints@[ii as int]@,
                                    pc == current.possible@,
                                    current.possible@.len() == ntypes,
                                    current.possible@[ii as int],
                                    all_allowed_by(self.constraints@, pc, dir, permitted@),
                                    forall|i2: int, e: int, s2: int|
                                        0 <= i2 < ii && pc[i2] && 0 <= e < self.constraints@[i2]@.len()
                                            && self.constraints@[i2]@[e].0 == dir && 0 <= s2
                                            < self.constraints@[i2]@[e].1@.len() ==> permitted@.contains(
                                            #[trigger] self.constraints@[i2]@[e].1@[s2],
                                        ),
                                    forall|e: int, s2: int|
                                        0 <= e < ei && self.constraints@[ii as int]@[e].0 == dir
                                            && 0 <= s2
                                            < self.constraints@[ii as int]@[e].1@.len()
                                            ==> permitted@.contains(
                                            #[trigger] self.constraints@[ii as int]@[e].1@[s2],
                                        ),
                                decreases row_len - ei,
                            {
                                let entry = &row[ei];
                                if entry.0.x == dir.x && entry.0.y == dir.y {
                                    let slen = entry.1.len();
                                    let mut si: usize = 0;
                                    while si < slen
                                        invariant
                                            ntypes == self.constraints@.len(),
                                            ii < ntypes,
                                            ei < row@.len(),
                                            row@ == self.constraints@[ii as int]@,
                                            slen == row@[ei as int].1@.len(),
                                            entry == &row@[ei as int],
                                            entry.0 == dir,
                                            si <= slen,
                                            pc == current.possible@,
                                            current.possible@.len() == ntypes,
                                            current.possible@[ii as int],
                                            all_allowed_by(self.constraints@, pc, dir, permitted@),
                                            forall|i2: int, e: int, s2: int|
                                                0 <= i2 < ii && pc[i2] && 0 <= e < self.constraints@[i2]@.len()
                                                    && self.constraints@[i2]@[e].0 == dir && 0 <= s2
                                                    < self.constraints@[i2]@[e].1@.len() ==> permitted@.contains(
                                                    #[trigger] self.constraints@[i2]@[e].1@[s2],
                                                ),
                                            forall|e: int, s2: int|
                                                0 <= e < ei && self.constraints@[ii as int]@[e].0 == dir
                                                    && 0 <= s2
                                                    < self.constraints@[ii as int]@[e].1@.len()
                                                    ==> permitted@.contains(
                                                    #[trigger] self.constraints@[ii as int]@[e].1@[s2],
                                                ),
                                            forall|s2: int|
                                                0 <= s2 < si ==> permitted@.contains(
                                                    #[trigger] self.constraints@[ii as int]@[ei as int].1@[s2],
                                                ),
                                        decreases slen - si,
                                    {
                                        let v = entry.1[si];
                                        proof {
                                            assert(row_allows(
                                                self.constraints@[ii as int]@,
                                                dir,
                                                v as int,
                                            ));
                                            assert(entry_allowed_by(
                                                self.constraints@,
                                                pc,
                                                dir,
                                                v,
                                            ));
                                            lemma_all_allowed_push(
                                                self.constraints@,
                                                pc,
                                                dir,
                                                permitted@,
                                                v,
                                            );
                                            lemma_contains_after_push(permitted@, v);
                                        }
                                        permitted.push(v);
                                        si = si + 1;
                                    }
                                }
                                ei = ei + 1;
                            }
                        }
                        ii = ii + 1;
                    }
                }
                proof {
                    assert(all_covered_by(self.constraints@, pc, dir, permitted@));
                }
                let skip = {
                    let ncell = self.cells.get(&neighbor).unwrap();
                    ncell.chosen_index.is_some()
                };
                if skip {
                    proof {
                        assert(self.cell_at(neighbor).collapsed());
                        assert(self.edge_ok(pos, di as int));
                        assert(self.gen_edge_ok(pos, di as int));
                    }
                    di = di + 1;
                    continue;
                }
                let mut j: usize = 0;
                while j < ntypes
                    invariant
                        self.evolved(&base),
                        ntypes == self.distributions@.len(),
                        dirs@ == cardinal_directions(),
                        di < 4,
                        dir == cardinal_directions()[di as int],
                        j <= ntypes,
                        self.cells.spec_in_bounds(pos),
                        self.cells.spec_in_bounds(neighbor),
                        neighbor == pos_offset(pos, dir),
                        neighbor != pos,
                        !self.cell_at(neighbor).collapsed(),
                        self.cell_at(pos) == mid.cell_at(pos),
                        self.cell_at(pos).possible@ == pc,
                        self.cell_at(neighbor).possible@.len() == ntypes,
                        forall|si: int|
                            0 <= si < stack@.len() ==> self.cells.spec_in_bounds(
                                #[trigger] stack@[si],
                            ),
                        forall|si: int|
                            0 <= si < head_stack.len() ==> stack@[si] == head_stack[si],
                        stack@.len() >= head_stack.len(),
                        forall|pp: Position, kk: int|
                            0 <= kk < 4 && !stack@.contains(pp) && pp != pos
                                ==> #[trigger] self.edge_ok(pp, kk),
                        forall|kk: int| 0 <= kk < di ==> #[trigger] self.edge_ok(pos, kk),
                        entry_gen ==> (forall|pp: Position, kk: int|
                            0 <= kk < 4 && !stack@.contains(pp) && pp != pos
                                ==> #[trigger] self.gen_edge_ok(pp, kk)),
                        entry_gen ==> (forall|kk: int|
                            0 <= kk < di ==> #[trigger] self.gen_edge_ok(pos, kk)),
                        head_total == total_possible(head.cells@),
                        !removed_any ==> self.cells@ == head.cells@ && stack@ == head_stack,
                        removed_any ==> total_possible(self.cells@) < head_total,
                        removals_justified(*self, base),
                        forall|q: Position|
                            self.cells.spec_in_bounds(q) && (#[trigger] self.cell_at(q)).possible@
                                != base.cell_at(q).possible@ ==> seq_has_entry(
                                self.entropy_queue@,
                                q,
                                self.cell_at(q).spec_key(),
                            ),
                        all_allowed_by(self.constraints@, pc, dir, permitted@),
                        all_covered_by(self.constraints@, pc, dir, permitted@),
                        forall|jj: int|
                            0 <= jj < j && (#[trigger] self.cell_at(neighbor).possible@[jj])
                                ==> permitted@.contains(jj as usize),
                    decreases ntypes - j,
                {
                    let ghost before = *self;
                    proof {
                        self.cells.lemma_index_in_range(neighbor);
                    }
                    let do_remove = {
                        let ncell = self.cells.get(&neighbor).unwrap();
                        ncell.possible[j] && !vec_contains_usize(&permitted, j)
                    };
                    if do_remove {
                        let ghost nidx = self.cells.spec_index_of(neighbor);
                        proof {
                            self.cells.lemma_index_in_range(neighbor);
                            lemma_each_weight_bounded(self.distributions@);
                        }
                        let cm = self.cells.get_mut(&neighbor);
                        cm.remove_index(j, &self.distributions);
                        proof {
                            let now_cells = self.cells@;
                            assert(now_cells == before.cells@.update(
                                nidx,
                                now_cells[nidx],
                            ));
                            lemma_count_trues_clear(
                                before.cells@[nidx].possible@,
                                before.cells@[nidx].possible@.len() as int,
                                j as int,
                            );
                            lemma_total_possible_update(before.cells@, nidx, now_cells[nidx]);
                            lemma_total_possible_nonneg(before.cells@);
                            assert(total_possible(now_cells) == total_possible(before.cells@)
                                - 1);
                            assert forall|i: int|
                                0 <= i < self.cells@.len() implies (#[trigger] self.cells@[i]).wf(
                                self.distributions@,
                            ) by {
                                if i != nidx {
                                    assert(self.cells@[i] == before.cells@[i]);
                                }
                            }
                            assert(cells_monotone(before.cells@, self.cells@));
                            lemma_monotone_trans(base.cells@, before.cells@, self.cells@);
                        }
                        let key = {
                            let c2 = self.cells.get(&neighbor).unwrap();
                            proof {
                                lemma_masked_sum_le_seq_sum(
                                    c2.possible@,
                                    weight_terms(self.distributions@),
                                    ntypes as int,
                                );
                                lemma_wlog_le_weight(c2.possible@, self.distributions@,
                                    ntypes as int);
                                lemma_masked_sum_nonneg(
                                    c2.possible@,
                                    weight_terms(self.distributions@),
                                    ntypes as int,
                                );
                            }
                            c2.entropy()
                        };
                        let qe = EntropyEntry { key, pos: neighbor };
                        let ghost q_pre = self.entropy_queue@;
                        self.entropy_queue.push(qe);
                        proof {
                            assert forall|e2: int|
                                0 <= e2 < self.entropy_queue@.len() implies self.cells.spec_in_bounds(
                                (#[trigger] self.entropy_queue@[e2]).pos,
                            ) by {
                                if self.entropy_queue@[e2] != qe {
                                    let m = choose|m: int|
                                        0 <= m < q_pre.len() && q_pre[m]
                                            == self.entropy_queue@[e2];
                                }
                            }
                        }
                        let on_stack = vec_contains_pos(&stack, &neighbor);
                        let ghost stack_before = stack@;
                        if !on_stack {
                            stack.push(neighbor);
                        }
                        removed_any = true;
                        proof {
                            assert forall|si: int|
                                0 <= si < stack@.len() implies self.cells.spec_in_bounds(
                                #[trigger] stack@[si],
                            ) by {
                                if si < stack_before.len() {
                                    assert(stack@[si] == stack_before[si]);
                                }
                            }
                            assert(stack@.contains(neighbor)) by {
                                if on_stack {
                                    let wi = choose|wi: int|
                                        0 <= wi < stack_before.len() && stack_before[wi]
                                            == neighbor;
                                    assert(stack@[wi] == neighbor);
                                } else {
                                    assert(stack@[stack@.len() - 1] == neighbor);
                                }
                            }
                            assert forall|pp: Position, kk: int|
                                0 <= kk < 4 && !stack@.contains(pp) && pp != pos implies
                                #[trigger] self.edge_ok(pp, kk) by {
                                assert(!stack_before.contains(pp)) by {
                                    if stack_before.contains(pp) {
                                        let wi = choose|wi: int|
                                            0 <= wi < stack_before.len() && stack_before[wi]
                                                == pp;
                                        assert(stack@[wi] == pp);
                                    }
                                }
                                assert(before.edge_ok(pp, kk));
                                lemma_edge_ok_monotone(before, *self, pp, kk);
                            }
                            assert forall|kk: int| 0 <= kk < di implies #[trigger] self.edge_ok(
                                pos,
                                kk,
                            ) by {
                                assert(before.edge_ok(pos, kk));
                                lemma_edge_ok_monotone(before, *self, pos, kk);
                            }
                            if entry_gen {
                                assert forall|i5: int|
                                    0 <= i5 < before.cells@.len() implies (#[trigger] before.cells@[i5]).possible@.len()
                                    == before.distributions@.len() by {}
                                assert forall|pp: Position, kk: int|
                                    0 <= kk < 4 && !stack@.contains(pp) && pp != pos implies
                                    #[trigger] self.gen_edge_ok(pp, kk) by {
                                    assert(!stack_before.contains(pp)) by {
                                        if stack_before.contains(pp) {
                                            let wi = choose|wi: int|
                                                0 <= wi < stack_before.len() && stack_before[wi]
                                                    == pp;
                                            assert(stack@[wi] == pp);
                                        }
                                    }
                                    assert(before.gen_edge_ok(pp, kk));
                                    assert(pp != neighbor);
                                    if before.cells.spec_in_bounds(pp) {
                                        before.cells.lemma_index_in_range(pp);
                                        before.cells.lemma_index_injective(pp, neighbor);
                                        assert(self.cells@[before.cells.spec_index_of(pp)]
                                            == before.cells@[before.cells.spec_index_of(pp)]);
                                    }
                                    lemma_gen_edge_source_fixed(before, *self, pp, kk);
                                }
                                assert forall|kk: int|
                                    0 <= kk < di implies #[trigger] self.gen_edge_ok(pos, kk) by {
                                    assert(before.gen_edge_ok(pos, kk));
                                    before.cells.lemma_index_in_range(pos);
                                    before.cells.lemma_index_injective(pos, neighbor);
                                    assert(self.cells@[before.cells.spec_index_of(pos)]
                                        == before.cells@[before.cells.spec_index_of(pos)]);
                                    lemma_gen_edge_source_fixed(before, *self, pos, kk);
                                }
                            }
                            assert forall|p2: Position|
                                self.cells.spec_in_bounds(p2) && !(#[trigger] self.cell_at(
                                    p2,
                                )).collapsed() implies seq_has_pos(self.entropy_queue@, p2) by {
                                if p2 == neighbor {
                                } else {
                                    assert(before.cells.spec_in_bounds(p2));
                                    assert(self.cell_at(p2) == before.cell_at(p2)) by {
                                        before.cells.lemma_index_in_range(p2);
                                        if before.cells.spec_index_of(p2) != nidx {
                                        } else {
                                            before.cells.lemma_index_injective(p2, neighbor);
                                        }
                                    }
                                    assert(seq_has_pos(before.entropy_queue@, p2));
                                }
                            }
                            assert(self.cell_at(pos) == mid.cell_at(pos)) by {
                                before.cells.lemma_index_in_range(pos);
                                before.cells.lemma_index_injective(pos, neighbor);
                                assert(before.cells.spec_index_of(pos) != nidx);
                                assert(self.cells@[before.cells.spec_index_of(pos)]
                                    == before.cells@[before.cells.spec_index_of(pos)]);
                            }
                            // the removed possibility now lacks support on
                            // the processed edge, which justifies it
                            let ko = di as int;
                            assert(edge_unsupports(*self, neighbor, ko, j as int)) by {
                                assert(pos == pos_offset(neighbor, opposite(dir)));
                                assert(pos_offset(pos, dir) == neighbor);
                                assert(self.cell_at(pos).possible@ == pc);
                                self.cells.lemma_index_in_range(pos);
                                assert(pc.len() == self.n_types());
                                assert(!permitted@.contains(j));
                                lemma_uncovered_not_allowed(
                                    self.constraints@,
                                    pc,
                                    dir,
                                    permitted@,
                                    j,
                                );
                                assert forall|i2: int|
                                    0 <= i2 < self.n_types() && (#[trigger] self.cell_at(
                                        pos,
                                    ).possible@[i2]) implies !self.allows(i2, dir, j as int) by {
                                    assert(pc[i2]);
                                }
                            }
                            assert forall|q2: Position, j2: int|
                                self.cells.spec_in_bounds(q2) && 0 <= j2 < self.n_types()
                                    && before.cell_at(q2).possible@[j2] && !(#[trigger] (self.cell_at(
                                    q2,
                                ).possible@[j2])) implies unsupported_edge(*self, q2, j2) by {
                                before.cells.lemma_index_in_range(q2);
                                if q2 != neighbor {
                                    before.cells.lemma_index_injective(q2, neighbor);
                                    assert(self.cells@[before.cells.spec_index_of(q2)]
                                        == before.cells@[before.cells.spec_index_of(q2)]);
                                } else {
                                    assert(j2 == j);
                                }
                            }
                            assert(removals_justified(before, base));
                            assert forall|i2: int|
                                0 <= i2 < before.cells@.len() implies (#[trigger] before.cells@[i2]).possible@.len()
                                == before.distributions@.len() by {}
                            lemma_justified_step(before, *self, base);
                            // every cell whose possibilities shrank holds a
                            // queue entry with its current entropy key: the
                            // pruned neighbor just got a fresh one, and the
                            // others keep theirs
                            broadcast use vstd::seq_lib::group_to_multiset_ensures;

                            assert forall|q2: Position|
                                self.cells.spec_in_bounds(q2) && (#[trigger] self.cell_at(
                                    q2,
                                )).possible@ != base.cell_at(q2).possible@ implies seq_has_entry(
                                self.entropy_queue@,
                                q2,
                                self.cell_at(q2).spec_key(),
                            ) by {
                                if q2 == neighbor {
                                    assert(qe.key == self.cell_at(neighbor).spec_key());
                                    assert(self.entropy_queue@.to_multiset().count(qe) > 0);
                                    assert(self.entropy_queue@.contains(qe));
                                    let wi = choose|wi: int|
                                        0 <= wi < self.entropy_queue@.len()
                                            && self.entropy_queue@[wi] == qe;
                                    assert(self.entropy_queue@[wi].pos == q2);
                                } else {
                                    before.cells.lemma_index_in_range(q2);
                                    before.cells.lemma_index_injective(q2, neighbor);
                                    assert(self.cells@[before.cells.spec_index_of(q2)]
                                        == before.cells@[before.cells.spec_index_of(q2)]);
                                    assert(before.cell_at(q2).possible@ != base.cell_at(
                                        q2,
                                    ).possible@);
                                    assert(seq_has_entry(
                                        before.entropy_queue@,
                                        q2,
                                        before.cell_at(q2).spec_key(),
                                    ));
                                    let wi = choose|wi: int|
                                        0 <= wi < before.entropy_queue@.len()
                                            && before.entropy_queue@[wi].pos == q2
                                            && before.entropy_queue@[wi].key == before.cell_at(
                                            q2,
                                        ).spec_key();
                                    let x = before.entropy_queue@[wi];
                                    assert(before.entropy_queue@.contains(x));
                                    assert(before.entropy_queue@.to_multiset().count(x) > 0);
                                    assert(self.entropy_queue@.to_multiset().count(x) > 0);
                                    assert(self.entropy_queue@.contains(x));
                                    let w2 = choose|w2: int|
                                        0 <= w2 < self.entropy_queue@.len()
                                            && self.entropy_queue@[w2] == x;
                                    assert(self.entropy_queue@[w2].pos == q2);
                                }
                            }
                        }
                    }
                    j = j + 1;
                }
                proof {
                    assert(self.gen_edge_ok(pos, di as int)) by {
                        let q = pos_offset(pos, dir);
                        assert(q == neighbor);
                        if self.cells.spec_in_bounds(q) && !self.cell_at(q).collapsed() {
                            assert forall|j2: int|
                                0 <= j2 < self.n_types() && (#[trigger] self.cell_at(
                                    q,
                                ).possible@[j2]) implies some_type_allows(
                                *self,
                                pos,
                                dir,
                                j2,
                            ) by {
                                assert(permitted@.contains(j2 as usize));
                                let m = choose|m: int|
                                    0 <= m < permitted@.len() && permitted@[m] == j2 as usize;
                                assert(entry_allowed_by(
                                    self.constraints@,
                                    pc,
                                    dir,
                                    permitted@[m],
                                ));
                                let i2 = choose|i2: int|
                                    0 <= i2 < self.constraints@.len() && 0 <= i2 < pc.len()
                                        && pc[i2] && row_allows(
                                        self.constraints@[i2]@,
                                        dir,
                                        permitted@[m] as int,
                                    );
                                assert(self.cell_at(pos).possible@[i2]);
                            }
                        }
                    }
                    if self.cell_at(pos).collapsed() {
                        assert(self.edge_ok(pos, di as int)) by {
                            let q = pos_offset(pos, dir);
                            assert(q == neighbor);
                            if self.cells.spec_in_bounds(q) && !self.cell_at(q).collapsed() {
                                self.cells.lemma_index_in_range(pos);
                                let pcell = self.cell_at(pos);
                                let ch = pcell.chosen();
                                assert forall|j2: int|
                                    0 <= j2 < self.n_types() && (#[trigger] self.cell_at(
                                        q,
                                    ).possible@[j2]) implies self.allows(ch, dir, j2) by {
                                    assert(permitted@.contains(j2 as usize));
                                    let m = choose|m: int|
                                        0 <= m < permitted@.len() && permitted@[m] == j2 as usize;
                                    assert(entry_allowed_by(
                                        self.constraints@,
                                        pc,
                                        dir,
                                        permitted@[m],
                                    ));
                                    let i2 = choose|i2: int|
                                        0 <= i2 < self.constraints@.len() && 0 <= i2 < pc.len()
                                            && pc[i2] && row_allows(
                                            self.constraints@[i2]@,
                                            dir,
                                            permitted@[m] as int,
                                        );
                                    assert(pcell.possible@[i2]);
                                    assert(i2 == ch);
                                }
                            }
                        }
                    } else {
                        assert(self.edge_ok(pos, di as int));
                    }
                }
                di = di + 1;
            }
            proof {
                assert forall|pp: Position, kk: int|
                    0 <= kk < 4 && !stack@.contains(pp) implies #[trigger] self.edge_ok(pp, kk) by {
                    if pp == pos {
                        assert(self.edge_ok(pos, kk));
                    }
                }
                if entry_gen {
                    assert forall|pp: Position, kk: int|
                        0 <= kk < 4 && !stack@.contains(pp) implies #[trigger] self.gen_edge_ok(
                        pp,
                        kk,
                    ) by {
                        if pp == pos {
                            assert(self.gen_edge_ok(pos, kk));
                        }
                    }
                }
                if !removed_any {
                    assert(total_possible(self.cells@) == head_total);
                }
                lemma_total_possible_nonneg(self.cells@);
            }
        }
        proof {
            assert forall|pp: Position, kk: int|
                0 <= kk < 4 && !Seq::<Position>::empty().contains(pp) implies #[trigger] self.edge_ok(
                pp,
                kk,
            ) by {
                assert(!stack@.contains(pp));
            }
            if entry_gen {
                assert forall|pp: Position, kk: int|
                    0 <= kk < 4 && !Seq::<Position>::empty().contains(pp) implies
                    #[trigger] self.gen_edge_ok(pp, kk) by {
                    assert(!stack@.contains(pp));
                }
            }
        }
    }

    /// Advances the solver by one cell: picks the uncollapsed cell with the
    /// lowest entropy, collapses it to one weighted-random possibility, and
    /// propagates the consequences. `Solved` once nothing is left to do;
    /// `Contradiction` if the picked cell had no weighted possibility left,
    /// after which the engine must be discarded.
    #[verifier::rlimit(60)]
    pub fn next(&mut self) -> (r: WfcStep)
        requires
            old(self).wf(),
        ensures
            (r == WfcStep::Solved) <==> old(self).uncollapsed_cells == 0,
            r == WfcStep::Solved ==> *final(self) == *old(self),
            r == WfcStep::Progress ==> final(self).wf(),
            r == WfcStep::Progress ==> final(self).uncollapsed_cells == old(
                self,
            ).uncollapsed_cells - 1,
            r == WfcStep::Contradiction ==> final(self).cells == old(self).cells
                && final(self).uncollapsed_cells == old(self).uncollapsed_cells,
            r == WfcStep::Contradiction ==> exists|i: int|
                0 <= i < old(self).cells@.len() && !(#[trigger] old(
                    self,
                ).cells@[i]).chosen_index.is_some() && (forall|j: int|
                    0 <= j < old(self).n_types() && old(self).cells@[i].possible@[j] ==> old(
                        self,
                    ).distributions@[j] == 0),
            cells_monotone(old(self).cells@, final(self).cells@),
            final(self).cells.width == old(self).cells.width,
            final(self).cells.height == old(self).cells.height,
            final(self).cells@.len() == old(self).cells@.len(),
            final(self).constraints == old(self).constraints,
            final(self).distributions == old(self).distributions,
            r == WfcStep::Progress ==> forall|q: Position, j: int|
                #![trigger final(self).cell_at(q).possible@[j]]
                final(self).cells.spec_in_bounds(q) && 0 <= j < old(self).n_types()
                    && !(final(self).cell_at(q).collapsed())
                    && old(self).cell_at(q).possible@[j]
                    && !(final(self).cell_at(q).possible@[j])
                    ==> unsupported_edge(*final(self), q, j),
    {
        if self.uncollapsed_cells == 0 {
            return WfcStep::Solved;
        }
        let ghost orig = *old(self);
        let pos = self.choose_cell();
        let ghost chosen_state = *self;
        let ok = self.collapse_at(&pos);
        if !ok {
            proof {
                let i = chosen_state.cells.spec_index_of(pos);
                chosen_state.cells.lemma_index_in_range(pos);
                assert(!(old(self).cells@[i]).chosen_index.is_some());
                assert(forall|j: int|
                    0 <= j < old(self).n_types() && old(self).cells@[i].possible@[j] ==> old(
                        self,
                    ).distributions@[j] == 0);
            }
            return WfcStep::Contradiction;
        }
        let ghost collapsed_state = *self;
        let ghost pidx = self.cells.spec_index_of(pos);
        proof {
            self.cells.lemma_index_in_range(pos);
            // arc consistency can be broken only around the freshly
            // collapsed cell
            assert forall|pp: Position, kk: int|
                0 <= kk < 4 && !seq![pos].contains(pp) implies #[trigger] self.edge_ok(
                pp,
                kk,
            ) by {
                assert(seq![pos][0] == pos);
                assert(pp != pos);
                let dir = cardinal_directions()[kk];
                let q = pos_offset(pp, dir);
                if self.cells.spec_in_bounds(pp) && self.cell_at(pp).collapsed()
                    && self.cells.spec_in_bounds(q) && !self.cell_at(q).collapsed() {
                    self.cells.lemma_index_in_range(pp);
                    self.cells.lemma_index_in_range(q);
                    self.cells.lemma_index_injective(pp, pos);
                    assert(self.cell_at(pp) == orig.cell_at(pp));
                    assert(q != pos);
                    self.cells.lemma_index_injective(q, pos);
                    assert(self.cell_at(q) == orig.cell_at(q));
                    assert(!Seq::<Position>::empty().contains(pp));
                    assert(orig.edge_ok(pp, kk));
                }
            }
            // every uncollapsed cell still has a queue entry: only `pos`
            // lost its guarantee, and `pos` is collapsed now
            assert forall|p2: Position|
                self.cells.spec_in_bounds(p2) && !(#[trigger] self.cell_at(
                    p2,
                )).collapsed() implies seq_has_pos(self.entropy_queue@, p2) by {
                self.cells.lemma_index_in_range(p2);
                assert(p2 != pos);
                self.cells.lemma_index_injective(p2, pos);
                assert(chosen_state.cell_at(p2) == self.cell_at(p2));
                assert(chosen_state.cells.spec_in_bounds(p2));
            }
        }
        self.propagate(pos);
        proof {
            lemma_monotone_trans(orig.cells@, collapsed_state.cells@, self.cells@);
        }
        let ghost prop_state = *self;
        self.uncollapsed_cells = self.uncollapsed_cells - 1;
        proof {
            assert(self.cells == prop_state.cells);
            assert forall|pp: Position, kk: int|
                0 <= kk < 4 && !Seq::<Position>::empty().contains(pp) implies
                #[trigger] self.edge_ok(pp, kk) by {
                assert(prop_state.edge_ok(pp, kk));
            }
            // the counter still matches: exactly one cell went from
            // uncollapsed to collapsed
            lemma_count_update_collapse(
                orig.cells@,
                pidx,
                collapsed_state.cells@[pidx],
            );
            lemma_count_pointwise(collapsed_state.cells@, self.cells@);
            // two collapsed neighbors are consistent: for pairs not
            // involving `pos` this is inherited; for pairs with `pos`, the
            // edge from the older collapsed neighbor already constrained
            // `pos` before it collapsed, and the drawn index was possible
            assert forall|pp: Position, kk: int| 0 <= kk < 4 implies #[trigger] self.adj_ok_at(
                pp,
                kk,
            ) by {
                let dir = cardinal_directions()[kk];
                let q = pos_offset(pp, dir);
                if self.cells.spec_in_bounds(pp) && self.cell_at(pp).collapsed()
                    && self.cells.spec_in_bounds(q) && self.cell_at(q).collapsed() {
                    self.cells.lemma_index_in_range(pp);
                    self.cells.lemma_index_in_range(q);
                    assert(self.cells@[pidx].collapsed());
                    assert(pp != q) by {
                        if pp == q {
                            assert(dir == cardinal_directions()[kk]);
                        }
                    }
                    let k0 = collapsed_state.cell_at(pos).chosen();
                    assert(orig.cell_at(pos).possible@[k0]);
                    if pp == pos {
                        self.cells.lemma_index_injective(q, pos);
                        assert(self.cell_at(q) == orig.cell_at(q));
                        assert(self.cell_at(pos) == collapsed_state.cell_at(pos)) by {
                            assert(collapsed_state.cells@[pidx].chosen_index.is_some());
                        }
                        // the reverse edge from q constrained pos before
                        // the step
                        assert(pos == pos_offset(q, opposite(dir)));
                        let ko = if kk == 0 {
                            1int
                        } else if kk == 1 {
                            0int
                        } else if kk == 2 {
                            3int
                        } else {
                            2int
                        };
                        assert(opposite(dir) == cardinal_directions()[ko]);
                        assert(orig.edge_ok(q, ko));
                        assert(orig.allows(orig.cell_at(q).chosen(), opposite(dir), k0));
                    } else if q == pos {
                        self.cells.lemma_index_injective(pp, pos);
                        assert(self.cell_at(pp) == orig.cell_at(pp));
                        assert(self.cell_at(pos) == collapsed_state.cell_at(pos)) by {
                            assert(collapsed_state.cells@[pidx].chosen_index.is_some());
                        }
                        assert(orig.edge_ok(pp, kk));
                        assert(orig.allows(orig.cell_at(pp).chosen(), dir, k0));
                    } else {
                        self.cells.lemma_index_injective(pp, pos);
                        self.cells.lemma_index_injective(q, pos);
                        assert(self.cell_at(pp) == orig.cell_at(pp));
                        assert(self.cell_at(q) == orig.cell_at(q));
                        assert(orig.adj_ok_at(pp, kk));
                    }
                }
            }
            assert(self.base_ok());
            assert(self.count_ok());
            assert(self.queue_ok()) by {
                assert forall|p2: Position|
                    self.cells.spec_in_bounds(p2) && !(#[trigger] self.cell_at(
                        p2,
                    )).collapsed() implies seq_has_pos(self.entropy_queue@, p2) by {
                    assert(prop_state.cell_at(p2) == self.cell_at(p2));
                    assert(seq_has_pos(prop_state.entropy_queue@, p2));
                }
            }
            // possibilities removed at cells that stayed uncollapsed were
            // removed by propagation, so each lacks support on some edge
            assert(removals_justified(prop_state, collapsed_state));
            assert forall|i2: int|
                0 <= i2 < prop_state.cells@.len() implies (#[trigger] prop_state.cells@[i2]).possible@.len()
                == prop_state.distributions@.len() by {}
            lemma_justified_step(prop_state, *self, collapsed_state);
            assert forall|q: Position, j: int|
                #![trigger self.cell_at(q).possible@[j]]
                self.cells.spec_in_bounds(q) && 0 <= j < orig.n_types() && !self.cell_at(
                    q,
                ).collapsed() && orig.cell_at(q).possible@[j] && !self.cell_at(
                    q,
                ).possible@[j] implies unsupported_edge(*self, q, j) by {
                self.cells.lemma_index_in_range(q);
                assert(self.cells@[pidx].collapsed());
                assert(q != pos);
                self.cells.lemma_index_injective(q, pos);
                assert(collapsed_state.cell_at(q) == orig.cell_at(q));
            }
        }
        WfcStep::Progress
    }

    /// The grid's possibility sets as text, one line per row from `y = 0`
    /// up: each cell shows the still-possible indices run together, padded
    /// to three columns.
    pub fn render(&self) -> (r: String)
        requires
            self.base_ok(),
        ensures
            r@ == render_rows(
                self.cells@,
                self.cells.width as int,
                self.cells.height as int,
                0,
                self.n_types(),
            ),
    {
        let w = self.cells.width;
        let h = self.cells.height;
        let n = self.distributions.len();
        let ghost cs = self.cells@;
        let ghost total = render_rows(cs, w as int, h as int, 0, n as int);
        let mut out = String::new();
        let mut y: usize = 0;
        while y < h
            invariant
                self.base_ok(),
                w == self.cells.width,
                h == self.cells.height,
                n == self.distributions@.len(),
                cs == self.cells@,
                total == render_rows(cs, w as int, h as int, 0, n as int),
                y <= h,
                out@ + render_rows(cs, w as int, h as int, y as int, n as int) == total,
            decreases h - y,
        {
            let mut x: usize = 0;
            while x < w
                invariant
                    self.base_ok(),
                    w == self.cells.width,
                    h == self.cells.height,
                    n == self.distributions@.len(),
                    cs == self.cells@,
                    total == render_rows(cs, w as int, h as int, 0, n as int),
                    y < h,
                    x <= w,
                    out@ + render_cells(cs, w as int, y as int, x as int, n as int)
                        + render_rows(cs, w as int, h as int, y as int + 1, n as int) == total,
                decreases w - x,
            {
                let pos = Position::new(x as i32, y as i32);
                proof {
                    assert(self.cells.spec_in_bounds(pos));
                    self.cells.lemma_index_in_range(pos);
                    assert(self.cells.spec_index_of(pos) == y * w + x);
                }
                let cell = self.cells.get(&pos).unwrap();
                let ghost pv = cell.possible@;
                let mut token = String::new();
                let mut cnt: u64 = 0;
                let mut i: usize = 0;
                while i < n
                    invariant
                        n == pv.len(),
                        pv == cell.possible@,
                        i <= n,
                        token@ == cell_token(pv, i as int),
                        cnt == if token@.len() >= 4 {
                            4u64
                        } else {
                            token@.len() as u64
                        },
                    decreases n - i,
                {
                    if cell.possible[i] {
                        let ds = dec_string(i as u64);
                        let a = num_digits(i as u64);
                        token.append(ds.as_str());
                        cnt = if cnt >= 4 || a >= 4 {
                            4
                        } else if cnt + a >= 4 {
                            4
                        } else {
                            cnt + a
                        };
                        proof {
                            assert(cell_token(pv, i as int) + dec_chars(i as int) =~= cell_token(
                                pv,
                                i as int + 1,
                            ));
                        }
                    } else {
                        proof {
                            assert(cell_token(pv, i as int) + Seq::<char>::empty() =~= cell_token(
                                pv,
                                i as int + 1,
                            ));
                            assert(cell_token(pv, i as int + 1) =~= cell_token(pv, i as int));
                        }
                    }
                    i = i + 1;
                }
                proof {
                    reveal_strlit(" ");
                    reveal_strlit("  ");
                    reveal_strlit("   ");
                    reveal_strlit("    ");
                }
                if cnt >= 3 {
                    token.append(" ");
                    proof {
                        assert(token@ =~= padded(cell_token(pv, n as int)));
                    }
                } else if cnt == 2 {
                    token.append("  ");
                    proof {
                        assert(token@ =~= padded(cell_token(pv, n as int)));
                    }
                } else if cnt == 1 {
                    token.append("   ");
                    proof {
                        assert(token@ =~= padded(cell_token(pv, n as int)));
                    }
                } else {
                    token.append("    ");
                    proof {
                        assert(token@ =~= padded(cell_token(pv, n as int)));
                    }
                }
                out.append(token.as_str());
                proof {
                    assert(render_cells(cs, w as int, y as int, x as int, n as int) == padded(
                        cell_token(pv, n as int),
                    ) + render_cells(cs, w as int, y as int, x as int + 1, n as int));
                    assert(out@ + render_cells(cs, w as int, y as int, x as int + 1, n as int)
                        + render_rows(cs, w as int, h as int, y as int + 1, n as int) =~= total);
                }
                x = x + 1;
            }
            proof {
                reveal_strlit("\n");
            }
            out.append("\n");
            proof {
                assert(render_cells(cs, w as int, y as int, w as int, n as int) =~= seq!['\n']);
                assert(out@ + render_rows(cs, w as int, h as int, y as int + 1, n as int)
                    =~= total);
            }
            y = y + 1;
        }
        proof {
            assert(render_rows(cs, w as int, h as int, h as int, n as int)
                =~= Seq::<char>::empty());
            assert(out@ =~= total);
        }
        out
    }
}

/// Whether `v` is allowed next to some set type of `pc` under `cons` in
/// direction `dir`.
pub open spec fn entry_allowed_by(
    cons: Seq<Vec<(Position, Vec<usize>)>>,
    pc: Seq<bool>,
    dir: Position,
    v: usize,
) -> bool {
    exists|i2: int| 0 <= i2 < cons.len() && 0 <= i2 < pc.len() && pc[i2] && row_allows(cons[i2]@, dir, v as int)
}

/// Every gathered permitted entry is justified by a still-possible type.
pub open spec fn all_allowed_by(
    cons: Seq<Vec<(Position, Vec<usize>)>>,
    pc: Seq<bool>,
    dir: Position,
    perm: Seq<usize>,
) -> bool {
    forall|m: int| 0 <= m < perm.len() ==> entry_allowed_by(cons, pc, dir, #[trigger] perm[m])
}

proof fn lemma_all_allowed_push(
    cons: Seq<Vec<(Position, Vec<usize>)>>,
    pc: Seq<bool>,
    dir: Position,
    perm: Seq<usize>,
    v: usize,
)
    requires
        all_allowed_by(cons, pc, dir, perm),
        entry_allowed_by(cons, pc, dir, v),
    ensures
        all_allowed_by(cons, pc, dir, perm.push(v)),
{
    assert forall|m: int|
        0 <= m < perm.push(v).len() implies entry_allowed_by(
        cons,
        pc,
        dir,
        #[trigger] perm.push(v)[m],
    ) by {
        if m < perm.len() {
            assert(perm.push(v)[m] == perm[m]);
        } else {
            assert(perm.push(v)[m] == v);
        }
    }
}

/// Conversely, everything the constraint rows of the set types allow is
/// among the gathered permitted entries.
pub open spec fn all_covered_by(
    cons: Seq<Vec<(Position, Vec<usize>)>>,
    pc: Seq<bool>,
    dir: Position,
    perm: Seq<usize>,
) -> bool {
    forall|i2: int, e: int, s2: int|
        0 <= i2 < cons.len() && 0 <= i2 < pc.len() && pc[i2] && 0 <= e < cons[i2]@.len()
            && cons[i2]@[e].0 == dir && 0 <= s2 < cons[i2]@[e].1@.len() ==> perm.contains(
            #[trigger] cons[i2]@[e].1@[s2],
        )
}

/// Pushing keeps everything already contained.
proof fn lemma_contains_after_push(perm: Seq<usize>, v: usize)
    ensures
        forall|x: usize| perm.contains(x) ==> #[trigger] perm.push(v).contains(x),
        perm.push(v).contains(v),
{
    assert forall|x: usize| perm.contains(x) implies #[trigger] perm.push(v).contains(x) by {
        let w = choose|w: int| 0 <= w < perm.len() && perm[w] == x;
        assert(perm.push(v)[w] == x);
    }
    assert(perm.push(v)[perm.len() as int] == v);
}

/// A value missing from a complete union is allowed by no set type at all.
proof fn lemma_uncovered_not_allowed(
    cons: Seq<Vec<(Position, Vec<usize>)>>,
    pc: Seq<bool>,
    dir: Position,
    perm: Seq<usize>,
    j: usize,
)
    requires
        all_covered_by(cons, pc, dir, perm),
        !perm.contains(j),
    ensures
        forall|i2: int|
            0 <= i2 < cons.len() && 0 <= i2 < pc.len() && pc[i2] ==> !row_allows(
                (#[trigger] cons[i2])@,
                dir,
                j as int,
            ),
{
    assert forall|i2: int|
        0 <= i2 < cons.len() && 0 <= i2 < pc.len() && pc[i2] implies !row_allows(
        (#[trigger] cons[i2])@,
        dir,
        j as int,
    ) by {
        if row_allows(cons[i2]@, dir, j as int) {
            let (e, k) = choose|e: int, k: int|
                0 <= e < cons[i2]@.len() && cons[i2]@[e].0 == dir && 0 <= k
                    < cons[i2]@[e].1@.len() && cons[i2]@[e].1@[k] == j;
            assert(perm.contains(cons[i2]@[e].1@[k]));
        }
    }
}

/// Whether some remaining possibility of the cell at `p` allows `j` as its
/// neighbor in direction `dir`.
pub open spec fn some_type_allows(w: WFC, p: Position, dir: Position, j: int) -> bool {
    exists|i: int|
        0 <= i < w.n_types() && (#[trigger] w.cell_at(p).possible@[i]) && w.allows(i, dir, j)
}

/// A generally consistent edge stays consistent when the source cell is
/// untouched and possibility sets elsewhere only shrink.
proof fn lemma_gen_edge_source_fixed(a: WFC, b: WFC, p: Position, k: int)
    requires
        0 <= k < 4,
        a.gen_edge_ok(p, k),
        b.cells.wf(),
        forall|i: int|
            0 <= i < a.cells@.len() ==> (#[trigger] a.cells@[i]).possible@.len()
                == a.distributions@.len(),
        b.cells.width == a.cells.width,
        b.cells.height == a.cells.height,
        b.constraints == a.constraints,
        b.distributions == a.distributions,
        b.cells@.len() == a.cells@.len(),
        forall|i: int|
            0 <= i < a.cells@.len() ==> (#[trigger] b.cells@[i]).chosen_index
                == a.cells@[i].chosen_index,
        forall|i: int|
            0 <= i < a.cells@.len() ==> (#[trigger] b.cells@[i]).possible@.len()
                == a.cells@[i].possible@.len(),
        forall|i: int, j: int|
            0 <= i < a.cells@.len() && 0 <= j < a.cells@[i].possible@.len() && (
            #[trigger] b.cells@[i].possible@[j]) ==> a.cells@[i].possible@[j],
        a.cells.spec_in_bounds(p) ==> b.cell_at(p) == a.cell_at(p),
    ensures
        b.gen_edge_ok(p, k),
{
    let dir = cardinal_directions()[k];
    let q = pos_offset(p, dir);
    if b.cells.spec_in_bounds(p) && b.cells.spec_in_bounds(q) && !b.cell_at(q).collapsed() {
        b.cells.lemma_index_in_range(p);
        b.cells.lemma_index_in_range(q);
        assert(!a.cell_at(q).collapsed());
        assert forall|j: int|
            0 <= j < b.n_types() && (#[trigger] b.cell_at(q).possible@[j]) implies
            some_type_allows(b, p, dir, j) by {
            assert(a.cell_at(q).possible@[j]);
            assert(some_type_allows(a, p, dir, j));
            let i = choose|i: int|
                0 <= i < a.n_types() && (#[trigger] a.cell_at(p).possible@[i]) && a.allows(
                    i,
                    dir,
                    j,
                );
            assert(b.cell_at(p).possible@[i]);
        }
    }
}

/// Whether the incoming edge from direction number `k` withholds support
/// for possibility `j` at cell `q`: the neighbor the edge comes from is in
/// bounds and none of its remaining possibilities allows `j` here.
pub open spec fn edge_unsupports(w: WFC, q: Position, k: int, j: int) -> bool {
    let d = cardinal_directions()[k];
    let p = pos_offset(q, opposite(d));
    &&& w.cells.spec_in_bounds(p)
    &&& pos_offset(p, d) == q
    &&& forall|i: int|
        0 <= i < w.n_types() && (#[trigger] w.cell_at(p).possible@[i]) ==> !w.allows(i, d, j)
}

/// Whether possibility `j` at cell `q` lacks support across some incoming
/// edge. Propagation removes possibilities only at such cells.
pub open spec fn unsupported_edge(w: WFC, q: Position, j: int) -> bool {
    exists|k: int| 0 <= k < 4 && #[trigger] edge_unsupports(w, q, k, j)
}

/// Every possibility removed since `base` is justified: some incoming
/// neighbor's remaining possibilities no longer permit it. The
/// contrapositive is propagation's lower bound — a possibility that every
/// in-bounds neighbor still supports is never removed.
pub open spec fn removals_justified(w: WFC, base: WFC) -> bool {
    forall|q: Position, j: int|
        w.cells.spec_in_bounds(q) && 0 <= j < w.n_types() && base.cell_at(q).possible@[j]
            && !(#[trigger] (w.cell_at(q).possible@[j])) ==> unsupported_edge(w, q, j)
}

/// Justified removals persist while possibility sets only shrink further
/// (the unsupporting neighbor's set shrinks too); newly removed pairs must
/// bring their own justification.
proof fn lemma_justified_step(a: WFC, b: WFC, base: WFC)
    requires
        removals_justified(a, base),
        a.cells.wf(),
        b.cells.wf(),
        forall|i: int|
            0 <= i < a.cells@.len() ==> (#[trigger] a.cells@[i]).possible@.len()
                == a.distributions@.len(),
        b.cells.width == a.cells.width,
        b.cells.height == a.cells.height,
        b.constraints == a.constraints,
        b.distributions == a.distributions,
        b.cells@.len() == a.cells@.len(),
        forall|i: int|
            0 <= i < a.cells@.len() ==> (#[trigger] b.cells@[i]).possible@.len()
                == a.cells@[i].possible@.len(),
        forall|i: int, j: int|
            0 <= i < a.cells@.len() && 0 <= j < a.cells@[i].possible@.len() && (
            #[trigger] b.cells@[i].possible@[j]) ==> a.cells@[i].possible@[j],
        forall|q: Position, j: int|
            b.cells.spec_in_bounds(q) && 0 <= j < b.n_types() && a.cell_at(q).possible@[j]
                && !(#[trigger] (b.cell_at(q).possible@[j])) ==> unsupported_edge(b, q, j),
    ensures
        removals_justified(b, base),
{
    assert forall|q: Position, j: int|
        b.cells.spec_in_bounds(q) && 0 <= j < b.n_types() && base.cell_at(q).possible@[j]
            && !(#[trigger] (b.cell_at(q).possible@[j])) implies unsupported_edge(b, q, j) by {
        b.cells.lemma_index_in_range(q);
        if a.cell_at(q).possible@[j] {
        } else {
            assert(a.cells.spec_in_bounds(q));
            assert(unsupported_edge(a, q, j));
            let k = choose|k: int| 0 <= k < 4 && #[trigger] edge_unsupports(a, q, k, j);
            let d = cardinal_directions()[k];
            let p = pos_offset(q, opposite(d));
            a.cells.lemma_index_in_range(p);
            assert(b.cells.spec_in_bounds(p));
            assert forall|i: int|
                0 <= i < b.n_types() && (#[trigger] b.cell_at(p).possible@[i]) implies !b.allows(
                i,
                d,
                j,
            ) by {
                assert(a.cell_at(p).possible@[i]);
            }
            assert(edge_unsupports(b, q, k, j));
        }
    }
}

/// Whether `v` holds `x`.
fn vec_contains_usize(v: &Vec<usize>, x: usize) -> (r: bool)
    ensures
        r == v@.contains(x),
{
    let n = v.len();
    let mut i: usize = 0;
    while i < n
        invariant
            i <= n,
            n == v@.len(),
            forall|k: int| 0 <= k < i ==> v@[k] != x,
        decreases n - i,
    {
        if v[i] == x {
            return true;
        }
        i = i + 1;
    }
    false
}

/// An adjacency edge that is consistent stays consistent when possibility
/// sets only shrink and no cell's choice changes.
pub proof fn lemma_edge_ok_monotone(a: WFC, b: WFC, p: Position, k: int)
    requires
        0 <= k < 4,
        a.edge_ok(p, k),
        b.cells.wf(),
        forall|i: int|
            0 <= i < a.cells@.len() ==> (#[trigger] a.cells@[i]).possible@.len()
                == a.distributions@.len(),
        b.cells.width == a.cells.width,
        b.cells.height == a.cells.height,
        b.constraints == a.constraints,
        b.distributions == a.distributions,
        b.cells@.len() == a.cells@.len(),
        forall|i: int|
            0 <= i < a.cells@.len() ==> (#[trigger] b.cells@[i]).chosen_index
                == a.cells@[i].chosen_index,
        forall|i: int|
            0 <= i < a.cells@.len() ==> (#[trigger] b.cells@[i]).possible@.len()
                == a.cells@[i].possible@.len(),
        forall|i: int, j: int|
            0 <= i < a.cells@.len() && 0 <= j < a.cells@[i].possible@.len() && (
            #[trigger] b.cells@[i].possible@[j]) ==> a.cells@[i].possible@[j],
    ensures
        b.edge_ok(p, k),
{
    let dir = cardinal_directions()[k];
    let q = pos_offset(p, dir);
    if b.cells.spec_in_bounds(p) && b.cell_at(p).collapsed() && b.cells.spec_in_bounds(q)
        && !b.cell_at(q).collapsed() {
        b.cells.lemma_index_in_range(p);
        b.cells.lemma_index_in_range(q);
        assert(a.cell_at(p).chosen_index == b.cell_at(p).chosen_index);
        assert(!a.cell_at(q).collapsed());
        assert forall|j: int|
            0 <= j < b.n_types() && (#[trigger] b.cell_at(q).possible@[j]) implies b.allows(
            b.cell_at(p).chosen(),
            dir,
            j,
        ) by {
            assert(a.cell_at(q).possible@[j]);
        }
    }
}

/// Constraint-table symmetry: a type may stand beside another exactly when
/// the other may stand beside it from the opposite side.
pub open spec fn table_symmetric(w: &WFC) -> bool {
    forall|i: int, j: int, k: int|
        0 <= i < w.n_types() && 0 <= j < w.n_types() && 0 <= k < 4 ==> ((#[trigger] w.allows(
            i,
            cardinal_directions()[k],
            j,
        )) == w.allows(j, opposite(cardinal_directions()[k]), i))
}

/// Consistency at the end of a run: once no uncollapsed cells remain — the
/// state in which `next` answers `Solved` — every cell of a well-formed
/// solver carries a chosen tile type.
pub proof fn lemma_solved_all_chosen(w: &WFC)
    requires
        w.wf(),
        w.uncollapsed_cells == 0,
    ensures
        forall|i: int| 0 <= i < w.cells@.len() ==> (#[trigger] w.cells@[i]).chosen_index.is_some(),
{
    lemma_count_zero_all_collapsed(w.cells@);
}

/// Adjacency satisfaction: under a symmetric constraint table, the chosen
/// types of any two collapsed neighbors of a well-formed solver are allowed
/// next to each other, in the direction that joins them.
pub proof fn lemma_adjacent_satisfied(w: &WFC, p: Position, k: int)
    requires
        w.wf(),
        table_symmetric(w),
        0 <= k < 4,
        w.cells.spec_in_bounds(p),
        w.cells.spec_in_bounds(pos_offset(p, cardinal_directions()[k])),
        w.cell_at(p).collapsed(),
        w.cell_at(pos_offset(p, cardinal_directions()[k])).collapsed(),
    ensures
        w.allows(
            w.cell_at(p).chosen(),
            cardinal_directions()[k],
            w.cell_at(pos_offset(p, cardinal_directions()[k])).chosen(),
        ),
{
    let dir = cardinal_directions()[k];
    let q = pos_offset(p, dir);
    w.cells.lemma_index_in_range(p);
    w.cells.lemma_index_in_range(q);
    assert(w.adj_ok_at(p, k));
    let cp = w.cell_at(p).chosen();
    let cq = w.cell_at(q).chosen();
    assert(0 <= cp < w.n_types());
    assert(0 <= cq < w.n_types());
    if !w.allows(cp, dir, cq) {
        assert(w.allows(cq, opposite(dir), cp));
        assert(w.allows(cp, dir, cq) == w.allows(cq, opposite(dir), cp));
    }
}

/// The character of one decimal digit.
pub open spec fn digit_char(d: int) -> char {
    if d == 0 {
        '0'
    } else if d == 1 {
        '1'
    } else if d == 2 {
        '2'
    } else if d == 3 {
        '3'
    } else if d == 4 {
        '4'
    } else if d == 5 {
        '5'
    } else if d == 6 {
        '6'
    } else if d == 7 {
        '7'
    } else if d == 8 {
        '8'
    } else {
        '9'
    }
}

/// The decimal digits of a nonnegative number.
pub open spec fn dec_chars(n: int) -> Seq<char>
    decreases n,
{
    if n < 10 {
        seq![digit_char(n)]
    } else {
        dec_chars(n / 10).push(digit_char(n % 10))
    }
}

/// The still-possible indices of a cell, run together as text.
pub open spec fn cell_token(p: Seq<bool>, n: int) -> Seq<char>
    decreases n,
{
    if n <= 0 {
        Seq::empty()
    } else {
        cell_token(p, n - 1) + if p[n - 1] {
            dec_chars(n - 1)
        } else {
            Seq::empty()
        }
    }
}

/// A token padded to width three and followed by one space.
pub open spec fn padded(t: Seq<char>) -> Seq<char> {
    if t.len() >= 3 {
        t + seq![' ']
    } else if t.len() == 2 {
        t + seq![' ', ' ']
    } else if t.len() == 1 {
        t + seq![' ', ' ', ' ']
    } else {
        seq![' ', ' ', ' ', ' ']
    }
}

/// One grid row's cell tokens from column `x` on, ending in a newline.
pub open spec fn render_cells(cells: Seq<Cell>, w: int, y: int, x: int, n: int) -> Seq<char>
    decreases w - x,
{
    if x >= w {
        seq!['\n']
    } else {
        padded(cell_token(cells[y * w + x].possible@, n)) + render_cells(cells, w, y, x + 1, n)
    }
}

/// The textual form of the whole grid from row `y` on.
pub open spec fn render_rows(cells: Seq<Cell>, w: int, h: int, y: int, n: int) -> Seq<char>
    decreases h - y,
{
    if y >= h {
        Seq::empty()
    } else {
        render_cells(cells, w, y, 0, n) + render_rows(cells, w, h, y + 1, n)
    }
}

/// One decimal digit as text.
fn digit_str(d: u64) -> (r: &'static str)
    requires
        d < 10,
    ensures
        r@ == seq![digit_char(d as int)],
{
    proof {
        reveal_strlit("0");
        reveal_strlit("1");
        reveal_strlit("2");
        reveal_strlit("3");
        reveal_strlit("4");
        reveal_strlit("5");
        reveal_strlit("6");
        reveal_strlit("7");
        reveal_strlit("8");
        reveal_strlit("9");
    }
    if d == 0 {
        "0"
    } else if d == 1 {
        "1"
    } else if d == 2 {
        "2"
    } else if d == 3 {
        "3"
    } else if d == 4 {
        "4"
    } else if d == 5 {
        "5"
    } else if d == 6 {
        "6"
    } else if d == 7 {
        "7"
    } else if d == 8 {
        "8"
    } else {
        "9"
    }
}

/// A number in decimal.
fn dec_string(n: u64) -> (r: String)
    ensures
        r@ == dec_chars(n as int),
    decreases n,
{
    if n < 10 {
        digit_str(n).to_owned()
    } else {
        let mut s = dec_string(n / 10);
        s.append(digit_str(n % 10));
        proof {
            assert(dec_chars((n / 10) as int) + seq![digit_char((n % 10) as int)] =~= dec_chars(
                (n / 10) as int,
            ).push(digit_char((n % 10) as int)));
        }
        s
    }
}

/// The digit count of a number's decimal form.
fn num_digits(n: u64) -> (r: u64)
    ensures
        r == dec_chars(n as int).len(),
        r >= 1,
    decreases n,
{
    if n < 10 {
        1
    } else {
        let d = num_digits(n / 10);
        proof {
            lemma_dec_chars_len_le(n as int / 10);
        }
        d + 1
    }
}

/// A number's decimal form is never longer than the number itself plus one.
proof fn lemma_dec_chars_len_le(n: int)
    requires
        0 <= n,
    ensures
        dec_chars(n).len() <= n + 1,
    decreases n,
{
    if n >= 10 {
        lemma_dec_chars_len_le(n / 10);
    }
}


} // verus!
