use vstd::prelude::*;

use crate::position::Position;

verus! {

/// A type that can fill a freshly built `Grid`: it provides the value every
/// cell starts from, together with the predicate that value satisfies.
pub trait GridValue: Sized {
    /// What it means for a value to be the pristine, just-constructed one.
    spec fn is_initial(&self) -> bool;

    /// Builds the initial value.
    fn initial() -> (r: Self)
        ensures
            r.is_initial(),
    ;
}

/// A dense, fixed-size 2D container addressed by `Position`, stored row-major:
/// the cell at `(x, y)` lives at index `y * width + x`.
pub struct Grid<T> {
    pub width: usize,
    pub height: usize,
    pub cells: Vec<T>,
}

impl<T> View for Grid<T> {
    type V = Seq<T>;

    /// The cells as a flat row-major sequence.
    open spec fn view(&self) -> Seq<T> {
        self.cells@
    }
}

impl<T> Grid<T> {
    /// The size invariant: exactly `width * height` cells, always.
    pub open spec fn wf(&self) -> bool {
        self@.len() == self.width * self.height
    }

    /// Whether `p` lies inside `[0, width) x [0, height)`.
    pub open spec fn spec_in_bounds(&self, p: Position) -> bool {
        0 <= p.x < self.width && 0 <= p.y < self.height
    }

    /// The flat index of an in-bounds position.
    pub open spec fn spec_index_of(&self, p: Position) -> int {
        p.y * self.width + p.x
    }

    /// An in-bounds position's flat index lies inside the cell sequence.
    pub proof fn lemma_index_in_range(&self, p: Position)
        requires
            self.wf(),
            self.spec_in_bounds(p),
        ensures
            0 <= self.spec_index_of(p) < self@.len(),
    {
        let x = p.x as int;
        let y = p.y as int;
        let w = self.width as int;
        let h = self.height as int;
        assert(y * w + x < w * h) by (nonlinear_arith)
            requires
                0 <= x < w,
                0 <= y < h,
        ;
    }

    /// Distinct in-bounds positions have distinct flat indices.
    pub proof fn lemma_index_injective(&self, p: Position, q: Position)
        requires
            self.spec_in_bounds(p),
            self.spec_in_bounds(q),
            p != q,
        ensures
            self.spec_index_of(p) != self.spec_index_of(q),
    {
        let w = self.width as int;
        if self.spec_index_of(p) == self.spec_index_of(q) {
            assert(p.y * w + p.x == q.y * w + q.x);
            assert((p.y - q.y) * w == q.x - p.x) by (nonlinear_arith)
                requires
                    p.y * w + p.x == q.y * w + q.x,
            ;
            if p.y == q.y {
                assert(p.x == q.x);
            } else if p.y > q.y {
                assert((p.y - q.y) * w >= w) by (nonlinear_arith)
                    requires
                        p.y - q.y >= 1,
                        w > 0,
                ;
            } else {
                assert((p.y - q.y) * w <= -w) by (nonlinear_arith)
                    requires
                        p.y - q.y <= -1,
                        w > 0,
                ;
            }
        }
    }

    /// Builds a grid of `width * height` cells, each the initial value of `T`.
    pub fn new(width: usize, height: usize) -> (r: Self) where T: GridValue
        requires
            width * height <= usize::MAX,
        ensures
            r.wf(),
            r.width == width,
            r.height == height,
            forall|i: int| 0 <= i < r@.len() ==> (#[trigger] r@[i]).is_initial(),
    {
        let n = width * height;
        let mut cells: Vec<T> = Vec::new();
        let mut i: usize = 0;
        while i < n
            invariant
                i <= n,
                cells@.len() == i,
                forall|k: int| 0 <= k < i ==> (#[trigger] cells@[k]).is_initial(),
            decreases n - i,
        {
            cells.push(T::initial());
            i = i + 1;
        }
        Grid { width, height, cells }
    }

    pub fn in_bounds(&self, pos: &Position) -> (r: bool)
        ensures
            r == self.spec_in_bounds(*pos),
    {
        pos.x >= 0 && (pos.x as usize) < self.width && pos.y >= 0 && (pos.y as usize)
            < self.height
    }

    /// Bounds-checked read access: absent exactly when `pos` is out of bounds.
    pub fn get(&self, pos: &Position) -> (r: Option<&T>)
        requires
            self.wf(),
        ensures
            self.spec_in_bounds(*pos) ==> r == Some(&self@[self.spec_index_of(*pos)]),
            !self.spec_in_bounds(*pos) ==> r.is_none(),
    {
        if !self.in_bounds(pos) {
            return None;
        }
        proof {
            self.lemma_index_in_range(*pos);
        }
        let n = self.cells.len();
        let index = pos.y as usize * self.width + pos.x as usize;
        Some(&self.cells[index])
    }

    /// Mutable access to an in-bounds cell. Callers test `in_bounds` first;
    /// an out-of-bounds position is rejected there rather than here, since a
    /// borrowed cell cannot be optional.
    pub fn get_mut(&mut self, pos: &Position) -> (r: &mut T)
        requires
            old(self).wf(),
            old(self).spec_in_bounds(*pos),
        ensures
            *r == old(self)@[old(self).spec_index_of(*pos)],
            final(self)@ == old(self)@.update(old(self).spec_index_of(*pos), *final(r)),
            final(self).width == old(self).width,
            final(self).height == old(self).height,
            final(self).wf(),
    {
        proof {
            self.lemma_index_in_range(*pos);
        }
        let n = self.cells.len();
        let index = pos.y as usize * self.width + pos.x as usize;
        &mut self.cells[index]
    }

    /// The number of cells, `width * height`.
    pub fn len(&self) -> (r: usize)
        ensures
            r == self@.len(),
    {
        self.cells.len()
    }

    /// The cells as a flat row-major vector, for iteration.
    pub fn iter(&self) -> (r: &Vec<T>)
        ensures
            r@ == self@,
    {
        &self.cells
    }

    /// The cells as a mutable flat row-major vector. The length must be left
    /// unchanged, or the grid stops being well-formed.
    pub fn iter_mut(&mut self) -> (r: &mut Vec<T>)
        ensures
            (*r)@ == old(self)@,
            final(self)@ == final(r)@,
            final(self).width == old(self).width,
            final(self).height == old(self).height,
    {
        &mut self.cells
    }
}

} // verus!
