use vstd::prelude::*;

use crate::arith::lemma_log2_floor_u32;
use crate::arith::log2_floor;
use crate::arith::log2_floor_u64;
use crate::grid::GridValue;
use vstd::arithmetic::mul::lemma_mul_inequality;

verus! {

/// Sum of the first `n` terms of `t` whose mask bit in `p` is set.
pub open spec fn masked_sum(p: Seq<bool>, t: Seq<int>, n: int) -> int
    decreases n,
{
    if n <= 0 {
        0
    } else {
        masked_sum(p, t, n - 1) + if p[n - 1] {
            t[n - 1]
        } else {
            0
        }
    }
}

/// Sum of the first `n` terms of `t`.
pub open spec fn seq_sum(t: Seq<int>, n: int) -> int
    decreases n,
{
    if n <= 0 {
        0
    } else {
        seq_sum(t, n - 1) + t[n - 1]
    }
}

/// Each tile type's weight, as a term sequence.
pub open spec fn weight_terms(d: Seq<usize>) -> Seq<int> {
    d.map(|i: int, w: usize| w as int)
}

/// Each tile type's weight times the integer log of its weight: the term the
/// entropy heuristic subtracts per remaining type.
pub open spec fn wlog_terms(d: Seq<usize>) -> Seq<int> {
    d.map(|i: int, w: usize| (w as nat * log2_floor(w as nat)) as int)
}

/// The total weight of the set tile types of `p` under distribution `d`.
pub open spec fn cell_weight(p: Seq<bool>, d: Seq<usize>) -> int {
    masked_sum(p, weight_terms(d), d.len() as int)
}

/// The total weight-log-weight of the set tile types of `p` under `d`.
pub open spec fn cell_wlog(p: Seq<bool>, d: Seq<usize>) -> int {
    masked_sum(p, wlog_terms(d), d.len() as int)
}

pub proof fn lemma_masked_sum_nonneg(p: Seq<bool>, t: Seq<int>, n: int)
    requires
        forall|i: int| 0 <= i < n ==> #[trigger] t[i] >= 0,
    ensures
        masked_sum(p, t, n) >= 0,
    decreases n,
{
    if n > 0 {
        lemma_masked_sum_nonneg(p, t, n - 1);
    }
}

pub proof fn lemma_masked_sum_le_seq_sum(p: Seq<bool>, t: Seq<int>, n: int)
    requires
        forall|i: int| 0 <= i < n ==> #[trigger] t[i] >= 0,
    ensures
        masked_sum(p, t, n) <= seq_sum(t, n),
    decreases n,
{
    if n > 0 {
        lemma_masked_sum_le_seq_sum(p, t, n - 1);
    }
}

/// Clearing one set mask bit removes exactly that term from the sum.
pub proof fn lemma_masked_sum_clear(p: Seq<bool>, t: Seq<int>, n: int, j: int)
    requires
        0 <= j < p.len(),
        n <= p.len(),
        p[j],
    ensures
        j < n ==> masked_sum(p.update(j, false), t, n) == masked_sum(p, t, n) - t[j],
        j >= n ==> masked_sum(p.update(j, false), t, n) == masked_sum(p, t, n),
    decreases n,
{
    let pu = p.update(j, false);
    if n > 0 {
        lemma_masked_sum_clear(p, t, n - 1, j);
        if j == n - 1 {
            assert(p[n - 1]);
            assert(!pu[n - 1]);
        } else {
            assert(pu[n - 1] == p[n - 1]);
        }
    }
}

/// A set bit's term is itself bounded by the whole masked sum.
pub proof fn lemma_masked_sum_term_le(p: Seq<bool>, t: Seq<int>, n: int, j: int)
    requires
        forall|i: int| 0 <= i < n ==> #[trigger] t[i] >= 0,
        0 <= j < n,
        n <= p.len(),
        p[j],
    ensures
        t[j] <= masked_sum(p, t, n),
{
    lemma_masked_sum_clear(p, t, n, j);
    lemma_masked_sum_nonneg(p.update(j, false), t, n);
}

/// A term is bounded by the whole sum when all terms are nonnegative.
pub proof fn lemma_seq_sum_term_le(t: Seq<int>, n: int, j: int)
    requires
        forall|i: int| 0 <= i < n ==> #[trigger] t[i] >= 0,
        0 <= j < n,
    ensures
        t[j] <= seq_sum(t, n),
    decreases n,
{
    if j < n - 1 {
        lemma_seq_sum_term_le(t, n - 1, j);
    } else {
        lemma_seq_sum_nonneg(t, n - 1);
    }
}

pub proof fn lemma_seq_sum_nonneg(t: Seq<int>, n: int)
    requires
        forall|i: int| 0 <= i < n ==> #[trigger] t[i] >= 0,
    ensures
        seq_sum(t, n) >= 0,
    decreases n,
{
    if n > 0 {
        lemma_seq_sum_nonneg(t, n - 1);
    }
}

/// A prefix sum of nonnegative terms is bounded by the full sum.
pub proof fn lemma_seq_sum_mono(t: Seq<int>, m: int, n: int)
    requires
        forall|i: int| 0 <= i < n ==> #[trigger] t[i] >= 0,
        m <= n,
    ensures
        seq_sum(t, m) <= seq_sum(t, n),
    decreases n - m,
{
    if m < n {
        lemma_seq_sum_mono(t, m, n - 1);
    }
}

/// The weight-log-weight sum is at most 31 times the weight sum, since every
/// 32-bit weight's logarithm is at most 31.
pub proof fn lemma_wlog_le_weight(p: Seq<bool>, d: Seq<usize>, n: int)
    requires
        n <= d.len(),
        forall|i: int| 0 <= i < d.len() ==> (#[trigger] d[i]) <= 0xffff_ffff,
    ensures
        masked_sum(p, wlog_terms(d), n) <= 31 * masked_sum(p, weight_terms(d), n),
    decreases n,
{
    if n > 0 {
        lemma_wlog_le_weight(p, d, n - 1);
        if p[n - 1] {
            let w = d[n - 1] as nat;
            lemma_log2_floor_u32(w);
            lemma_mul_inequality(log2_floor(w) as int, 31, w as int);
        }
    }
}

/// Under a bounded distribution, every single weight is below `2^32`.
pub proof fn lemma_each_weight_bounded(d: Seq<usize>)
    requires
        weights_bounded(d),
    ensures
        forall|i: int| 0 <= i < d.len() ==> (#[trigger] d[i]) <= 0xffff_ffff,
{
    assert forall|i: int| 0 <= i < d.len() implies (#[trigger] d[i]) <= 0xffff_ffff by {
        assert(forall|k: int|
            0 <= k < d.len() ==> #[trigger] weight_terms(d)[k] == d[k] as int);
        lemma_seq_sum_term_le(weight_terms(d), d.len() as int, i);
    }
}

/// One cell of the solver: which tile types are still possible, cached
/// aggregates of their weights for the entropy heuristic, a fixed random
/// tie-break term, and the index finally chosen at collapse time.
pub struct Cell {
    pub possible: Vec<bool>,
    pub total_weight: u64,
    pub total_weight_log_weight: u64,
    pub entropy_noise: i64,
    pub chosen_index: Option<usize>,
}

impl GridValue for Cell {
    open spec fn is_initial(&self) -> bool {
        &&& self.possible@.len() == 0
        &&& self.total_weight == 0
        &&& self.total_weight_log_weight == 0
        &&& self.entropy_noise == 0
        &&& self.chosen_index.is_none()
    }

    fn initial() -> (r: Self) {
        Cell {
            possible: Vec::new(),
            total_weight: 0,
            total_weight_log_weight: 0,
            entropy_noise: 0,
            chosen_index: None,
        }
    }
}

/// The bound every weight distribution must respect: the weights' total fits
/// in 32 bits, so the entropy arithmetic below cannot overflow.
pub open spec fn weights_bounded(d: Seq<usize>) -> bool {
    seq_sum(weight_terms(d), d.len() as int) <= 0xffff_ffff
}

/// The entropy key of a cell: a fixed-point rendering of
/// `log2(total) - (sum w*log2(w)) / total`, scaled by 1024, plus the cell's
/// tie-break noise. The key only orders the priority store; exact Shannon
/// entropy is not required, the integer logarithm keeps the same
/// fewest-choices-first shape.
pub open spec fn spec_entropy_key(total: int, wlog: int, noise: int) -> int {
    if total <= 0 {
        noise
    } else {
        1024 * log2_floor(total as nat) - (1024 * wlog) / total + noise
    }
}

impl Cell {
    /// Aggregate consistency: the cached sums match the mask, and the noise
    /// is small.
    pub open spec fn sums_ok(&self, d: Seq<usize>) -> bool {
        &&& self.possible@.len() == d.len()
        &&& self.total_weight == cell_weight(self.possible@, d)
        &&& self.total_weight_log_weight == cell_wlog(self.possible@, d)
        &&& 1 <= self.entropy_noise <= 10
    }

    /// Full cell well-formedness: aggregates consistent, and once an index is
    /// chosen it is the one and only possible index.
    pub open spec fn wf(&self, d: Seq<usize>) -> bool {
        &&& self.sums_ok(d)
        &&& match self.chosen_index {
            Some(k) => k < d.len() && forall|j: int|
                0 <= j < d.len() ==> (#[trigger] self.possible@[j] <==> j == k),
            None => true,
        }
    }

    pub open spec fn collapsed(&self) -> bool {
        self.chosen_index.is_some()
    }

    /// The chosen index, meaningful only for collapsed cells.
    pub open spec fn chosen(&self) -> int {
        match self.chosen_index {
            Some(k) => k as int,
            None => -1,
        }
    }

    /// The key under which this cell is pushed onto the priority store.
    pub open spec fn spec_key(&self) -> int {
        spec_entropy_key(
            self.total_weight as int,
            self.total_weight_log_weight as int,
            self.entropy_noise as int,
        )
    }

    /// The total weight of the still-possible tile types, computed from
    /// scratch.
    pub fn total_weight(&self, d: &Vec<usize>) -> (r: u64)
        requires
            self.possible@.len() == d@.len(),
            weights_bounded(d@),
        ensures
            r == cell_weight(self.possible@, d@),
    {
        let ghost t = weight_terms(d@);
        let n = self.possible.len();
        let mut total: u64 = 0;
        let mut i: usize = 0;
        while i < n
            invariant
                n == self.possible@.len() == d@.len(),
                weights_bounded(d@),
                t == weight_terms(d@),
                i <= n,
                total == masked_sum(self.possible@, t, i as int),
                total <= 0xffff_ffff,
            decreases n - i,
        {
            proof {
                lemma_masked_sum_le_seq_sum(self.possible@, t, i + 1);
                lemma_seq_sum_mono(t, i + 1, n as int);
                lemma_masked_sum_nonneg(self.possible@, t, i + 1);
            }
            if self.possible[i] {
                total = total + (d[i] as u64);
            }
            i = i + 1;
        }
        total
    }

    /// The total weight-log-weight of the still-possible tile types,
    /// computed from scratch.
    pub fn total_weight_log_weight(&self, d: &Vec<usize>) -> (r: u64)
        requires
            self.possible@.len() == d@.len(),
            weights_bounded(d@),
        ensures
            r == cell_wlog(self.possible@, d@),
    {
        let ghost t = wlog_terms(d@);
        let n = self.possible.len();
        let mut total: u64 = 0;
        let mut i: usize = 0;
        proof {
            lemma_each_weight_bounded(d@);
        }
        while i < n
            invariant
                n == self.possible@.len() == d@.len(),
                weights_bounded(d@),
                forall|k: int| 0 <= k < d@.len() ==> (#[trigger] d@[k]) <= 0xffff_ffff,
                t == wlog_terms(d@),
                i <= n,
                total == masked_sum(self.possible@, t, i as int),
                total <= 0x8_0000_0000_0000,
            decreases n - i,
        {
            proof {
                lemma_wlog_le_weight(self.possible@, d@, i + 1);
                lemma_masked_sum_le_seq_sum(self.possible@, weight_terms(d@), i + 1);
                lemma_seq_sum_mono(weight_terms(d@), i + 1, n as int);
                lemma_masked_sum_nonneg(self.possible@, weight_terms(d@), i + 1);
                lemma_masked_sum_nonneg(self.possible@, t, i + 1);
            }
            if self.possible[i] {
                let w = d[i] as u64;
                let lg = log2_floor_u64(w);
                proof {
                    lemma_log2_floor_u32(w as nat);
                    lemma_mul_inequality(lg as int, 31, w as int);
                }
                total = total + w * lg;
            }
            i = i + 1;
        }
        total
    }

    /// Recomputes the cached aggregates and installs the tie-break noise.
    pub fn set_entropy(&mut self, d: &Vec<usize>, noise: i64)
        requires
            old(self).possible@.len() == d@.len(),
            weights_bounded(d@),
            1 <= noise <= 10,
        ensures
            final(self).sums_ok(d@),
            final(self).possible == old(self).possible,
            final(self).chosen_index == old(self).chosen_index,
            final(self).entropy_noise == noise,
    {
        let tw = self.total_weight(d);
        let twlw = self.total_weight_log_weight(d);
        self.total_weight = tw;
        self.total_weight_log_weight = twlw;
        self.entropy_noise = noise;
    }

    /// The cell's entropy key: lower keys collapse first.
    pub fn entropy(&self) -> (r: i64)
        requires
            self.total_weight <= 0xffff_ffff,
            self.total_weight_log_weight <= 31 * self.total_weight,
            0 <= self.entropy_noise <= 10,
        ensures
            r == self.spec_key(),
    {
        if self.total_weight == 0 {
            return self.entropy_noise;
        }
        let lg = log2_floor_u64(self.total_weight);
        proof {
            lemma_log2_floor_u32(self.total_weight as nat);
        }
        let a: u64 = 1024 * lg;
        let b: u64 = (1024 * self.total_weight_log_weight) / self.total_weight;
        proof {
            vstd::arithmetic::div_mod::lemma_div_nonincreasing(
                1024 * self.total_weight_log_weight as int,
                self.total_weight as int,
            );
        }
        (a as i64) - (b as i64) + self.entropy_noise
    }

    /// Removes one still-possible tile type, keeping the cached aggregates in
    /// step by subtracting exactly that type's contributions.
    pub fn remove_index(&mut self, index: usize, d: &Vec<usize>)
        requires
            old(self).sums_ok(d@),
            weights_bounded(d@),
            index < d@.len(),
            old(self).possible@[index as int],
        ensures
            final(self).sums_ok(d@),
            final(self).possible@ == old(self).possible@.update(index as int, false),
            final(self).total_weight == old(self).total_weight - d@[index as int],
            final(self).chosen_index == old(self).chosen_index,
            final(self).entropy_noise == old(self).entropy_noise,
    {
        let ghost p0 = self.possible@;
        let ghost wt = weight_terms(d@);
        let ghost lt = wlog_terms(d@);
        let n = d.len();
        proof {
            lemma_each_weight_bounded(d@);
            lemma_masked_sum_term_le(p0, wt, n as int, index as int);
            lemma_masked_sum_term_le(p0, lt, n as int, index as int);
            lemma_masked_sum_clear(p0, wt, n as int, index as int);
            lemma_masked_sum_clear(p0, lt, n as int, index as int);
            lemma_masked_sum_nonneg(p0, lt, n as int);
            lemma_masked_sum_nonneg(p0.update(index as int, false), lt, n as int);
        }
        let w = d[index] as u64;
        let lg = log2_floor_u64(w);
        proof {
            lemma_log2_floor_u32(w as nat);
            lemma_mul_inequality(lg as int, 31, w as int);
        }
        let wl = w * lg;
        let slot = &mut self.possible[index];
        *slot = false;
        self.total_weight = self.total_weight - w;
        self.total_weight_log_weight = self.total_weight_log_weight - wl;
    }

    /// Collapses the cell to `chosen_index`: every other possibility is
    /// removed, and the choice is recorded, never to change again.
    pub fn collapse(&mut self, chosen_index: usize, d: &Vec<usize>)
        requires
            old(self).sums_ok(d@),
            weights_bounded(d@),
            old(self).chosen_index.is_none(),
            chosen_index < d@.len(),
            old(self).possible@[chosen_index as int],
        ensures
            final(self).wf(d@),
            final(self).chosen_index == Some(chosen_index),
            forall|j: int|
                0 <= j < d@.len() ==> (#[trigger] final(self).possible@[j] <==> j
                    == chosen_index),
            forall|j: int|
                0 <= j < d@.len() && #[trigger] final(self).possible@[j] ==> old(
                    self,
                ).possible@[j],
            final(self).entropy_noise == old(self).entropy_noise,
            final(self).possible@.len() == old(self).possible@.len(),
    {
        let n = d.len();
        let mut j: usize = 0;
        while j < n
            invariant
                n == d@.len() == self.possible@.len(),
                weights_bounded(d@),
                self.sums_ok(d@),
                chosen_index < n,
                self.chosen_index.is_none(),
                self.entropy_noise == old(self).entropy_noise,
                self.possible@[chosen_index as int],
                forall|k: int|
                    0 <= k < j && k != chosen_index ==> !(#[trigger] self.possible@[k]),
                forall|k: int|
                    (j <= k < n || k == chosen_index) ==> #[trigger] self.possible@[k] == old(
                        self,
                    ).possible@[k],
            decreases n - j,
        {
            if j != chosen_index && self.possible[j] {
                self.remove_index(j, d);
            }
            j = j + 1;
        }
        self.chosen_index = Some(chosen_index);
    }

    /// Draws one of the still-possible tile types, each with probability
    /// proportional to its weight: a type with weight `w` contributes `w`
    /// copies to the draw pool. Empty pool (no possible type with positive
    /// weight) means the cell cannot be collapsed.
    pub fn choose_possible(&self, d: &Vec<usize>) -> (r: Option<usize>)
        requires
            self.possible@.len() == d@.len(),
        ensures
            r.is_some() <==> exists|i: int|
                0 <= i < d@.len() && self.possible@[i] && d@[i] > 0,
            r matches Some(i) ==> i < d@.len() && self.possible@[i as int] && d@[i as int]
                > 0,
    {
        let mut choices: Vec<usize> = Vec::new();
        let n = self.possible.len();
        let mut idx: usize = 0;
        while idx < n
            invariant
                n == self.possible@.len() == d@.len(),
                idx <= n,
                forall|k: int|
                    0 <= k < choices@.len() ==> (#[trigger] choices@[k]) < n
                        && self.possible@[choices@[k] as int] && d@[choices@[k] as int] > 0,
                choices@.len() > 0 <==> exists|i: int|
                    0 <= i < idx && self.possible@[i] && d@[i] > 0,
            decreases n - idx,
        {
            if self.possible[idx] {
                let w = d[idx];
                let mut c: usize = 0;
                while c < w
                    invariant
                        n == self.possible@.len() == d@.len(),
                        idx < n,
                        c <= w,
                        w == d@[idx as int],
                        self.possible@[idx as int],
                        forall|k: int|
                            0 <= k < choices@.len() ==> (#[trigger] choices@[k]) < n
                                && self.possible@[choices@[k] as int] && d@[choices@[k] as int]
                                > 0,
                        c > 0 ==> choices@.len() > 0,
                        choices@.len() > 0 ==> (c > 0 || exists|i: int|
                            0 <= i < idx && self.possible@[i] && d@[i] > 0),
                        (exists|i: int| 0 <= i < idx && self.possible@[i] && d@[i] > 0)
                            ==> choices@.len() > 0,
                    decreases w - c,
                {
                    choices.push(idx);
                    c = c + 1;
                }
            }
            idx = idx + 1;
        }
        if choices.len() == 0 {
            return None;
        }
        let pick = random_below(choices.len());
        Some(choices[pick])
    }
}

/// Relies on `rand::Rng::gen_range` over `0..n`: the drawn value lies in the
/// half-open range, which is non-empty since `n > 0`. The draw comes from the
/// thread-local generator; nothing beyond membership is promised.
#[verifier::external_body]
pub(crate) fn random_below(n: usize) -> (r: usize)
    requires
        n > 0,
    ensures
        r < n,
{
    rand::Rng::gen_range(&mut rand::thread_rng(), 0..n)
}

} // verus!
