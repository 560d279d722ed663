use vstd::prelude::*;

use crate::position::Position;

verus! {

/// The absolute value of an integer.
pub open spec fn iabs(v: int) -> int {
    if v >= 0 {
        v
    } else {
        -v
    }
}

/// Steps along the 8-connected line from a start towards an end position,
/// one cell per `next` call: an integer Bresenham-style walker. The error
/// accumulator picks the axis to step; an exact tie steps both axes at once.
///
/// For lines that are not axis-aligned or diagonal the stepper can pass by
/// `end` without landing on it, exactly as the error rule dictates; a driver
/// that walks until `end` is reached must only rely on that for the slopes
/// where the walk does land there.
pub struct Raycast {
    pub current: Position,
    pub end: Position,
    pub x_dir: i32,
    pub y_dir: i32,
    pub error: i32,
    pub error_correct: Position,
}

impl Raycast {
    /// The state invariant: unit step directions, nonnegative doubled deltas,
    /// and an error term that stays between `-error_correct.y` and
    /// `error_correct.x`.
    pub open spec fn wf(&self) -> bool {
        &&& (self.x_dir == 1 || self.x_dir == -1i32)
        &&& (self.y_dir == 1 || self.y_dir == -1i32)
        &&& 0 <= self.error_correct.x <= 0x7fff_fffe
        &&& 0 <= self.error_correct.y <= 0x7fff_fffe
        &&& -self.error_correct.y <= self.error <= self.error_correct.x
    }

    /// One step of the walk: positive error steps `x`, negative error steps
    /// `y`, zero error steps both diagonally.
    pub open spec fn step_of(s: Raycast) -> Raycast {
        if s.error > 0 {
            Raycast {
                current: Position { x: (s.current.x + s.x_dir) as i32, y: s.current.y },
                end: s.end,
                x_dir: s.x_dir,
                y_dir: s.y_dir,
                error: (s.error - s.error_correct.y) as i32,
                error_correct: s.error_correct,
            }
        } else if s.error < 0 {
            Raycast {
                current: Position { x: s.current.x, y: (s.current.y + s.y_dir) as i32 },
                end: s.end,
                x_dir: s.x_dir,
                y_dir: s.y_dir,
                error: (s.error + s.error_correct.x) as i32,
                error_correct: s.error_correct,
            }
        } else {
            Raycast {
                current: Position {
                    x: (s.current.x + s.x_dir) as i32,
                    y: (s.current.y + s.y_dir) as i32,
                },
                end: s.end,
                x_dir: s.x_dir,
                y_dir: s.y_dir,
                error: s.error,
                error_correct: s.error_correct,
            }
        }
    }

    /// The walker `new` builds, as a value.
    pub open spec fn ray_between(start: Position, end: Position) -> Raycast {
        Raycast {
            current: start,
            end,
            x_dir: if end.x > start.x {
                1
            } else {
                -1i32
            },
            y_dir: if end.y > start.y {
                1
            } else {
                -1i32
            },
            error: (iabs(start.x - end.x) - iabs(start.y - end.y)) as i32,
            error_correct: Position {
                x: (2 * iabs(start.x - end.x)) as i32,
                y: (2 * iabs(start.y - end.y)) as i32,
            },
        }
    }

    /// The walker after `k` unconditional steps.
    pub open spec fn steps_of(s: Raycast, k: nat) -> Raycast
        decreases k,
    {
        if k == 0 {
            s
        } else {
            Self::step_of(Self::steps_of(s, (k - 1) as nat))
        }
    }

    pub fn new(start: Position, end: Position) -> (r: Self)
        requires
            -0x3fff_ffff <= start.x - end.x <= 0x3fff_ffff,
            -0x3fff_ffff <= start.y - end.y <= 0x3fff_ffff,
        ensures
            r == Self::ray_between(start, end),
            r.wf(),
            r.current == start,
            r.end == end,
            r.x_dir == if end.x > start.x {
                1int
            } else {
                -1int
            },
            r.y_dir == if end.y > start.y {
                1int
            } else {
                -1int
            },
            r.error_correct.x == 2 * iabs(start.x - end.x),
            r.error_correct.y == 2 * iabs(start.y - end.y),
            r.error == iabs(start.x - end.x) - iabs(start.y - end.y),
    {
        let x_dir: i32 = if end.x > start.x {
            1
        } else {
            -1
        };
        let y_dir: i32 = if end.y > start.y {
            1
        } else {
            -1
        };
        let delta = start.sub(&end).abs();
        let error = delta.x - delta.y;
        let error_correct = delta.mul(2);
        Raycast { current: start, end, x_dir, y_dir, error, error_correct }
    }

    /// Takes one step, yielding the new cell, or nothing once the walk stands
    /// on `end`.
    pub fn next(&mut self) -> (r: Option<Position>)
        requires
            old(self).wf(),
            i32::MIN < old(self).current.x < i32::MAX,
            i32::MIN < old(self).current.y < i32::MAX,
        ensures
            final(self).wf(),
            (old(self).current == old(self).end) <==> r.is_none(),
            r.is_none() ==> *final(self) == *old(self),
            r.is_some() ==> *final(self) == Self::step_of(*old(self)) && r == Some(
                final(self).current,
            ),
    {
        if self.current.x == self.end.x && self.current.y == self.end.y {
            return None;
        }
        if self.error > 0 {
            self.current = Position::new(self.current.x + self.x_dir, self.current.y);
            self.error = self.error - self.error_correct.y;
        } else if self.error < 0 {
            self.current = Position::new(self.current.x, self.current.y + self.y_dir);
            self.error = self.error + self.error_correct.x;
        } else {
            self.current = Position::new(self.current.x + self.x_dir, self.current.y + self.y_dir);
        }
        Some(self.current)
    }
}

/// Tracing a horizontal line is direction-symmetric: after `k` steps the
/// walker stands `k` cells from `start` towards `end`, whichever way the
/// line points, so it lands exactly on `end` after `|Δx|` steps and never
/// earlier.
pub proof fn lemma_trace_horizontal(start: Position, end: Position, k: nat)
    requires
        start.y == end.y,
        -0x3fff_ffff <= start.x - end.x <= 0x3fff_ffff,
        k <= iabs(start.x - end.x),
    ensures
        Raycast::steps_of(Raycast::ray_between(start, end), k).current.x == if end.x >= start.x {
            start.x + k
        } else {
            start.x - k
        },
        Raycast::steps_of(Raycast::ray_between(start, end), k).current.y == start.y,
        k == iabs(start.x - end.x) ==> Raycast::steps_of(
            Raycast::ray_between(start, end),
            k,
        ).current == end,
        Raycast::steps_of(Raycast::ray_between(start, end), k).error == Raycast::ray_between(
            start,
            end,
        ).error,
        Raycast::steps_of(Raycast::ray_between(start, end), k).x_dir == Raycast::ray_between(
            start,
            end,
        ).x_dir,
        Raycast::steps_of(Raycast::ray_between(start, end), k).y_dir == Raycast::ray_between(
            start,
            end,
        ).y_dir,
        Raycast::steps_of(Raycast::ray_between(start, end), k).error_correct
            == Raycast::ray_between(start, end).error_correct,
        Raycast::steps_of(Raycast::ray_between(start, end), k).end == end,
    decreases k,
{
    if k > 0 {
        lemma_trace_horizontal(start, end, (k - 1) as nat);
    }
}

/// Tracing a vertical line is direction-symmetric in the same way.
pub proof fn lemma_trace_vertical(start: Position, end: Position, k: nat)
    requires
        start.x == end.x,
        -0x3fff_ffff <= start.y - end.y <= 0x3fff_ffff,
        k <= iabs(start.y - end.y),
    ensures
        Raycast::steps_of(Raycast::ray_between(start, end), k).current.y == if end.y >= start.y {
            start.y + k
        } else {
            start.y - k
        },
        Raycast::steps_of(Raycast::ray_between(start, end), k).current.x == start.x,
        k == iabs(start.y - end.y) ==> Raycast::steps_of(
            Raycast::ray_between(start, end),
            k,
        ).current == end,
        Raycast::steps_of(Raycast::ray_between(start, end), k).error == Raycast::ray_between(
            start,
            end,
        ).error,
        Raycast::steps_of(Raycast::ray_between(start, end), k).x_dir == Raycast::ray_between(
            start,
            end,
        ).x_dir,
        Raycast::steps_of(Raycast::ray_between(start, end), k).y_dir == Raycast::ray_between(
            start,
            end,
        ).y_dir,
        Raycast::steps_of(Raycast::ray_between(start, end), k).error_correct
            == Raycast::ray_between(start, end).error_correct,
        Raycast::steps_of(Raycast::ray_between(start, end), k).end == end,
    decreases k,
{
    if k > 0 {
        lemma_trace_vertical(start, end, (k - 1) as nat);
    }
}

/// Tracing a diagonal line is direction-symmetric: the walker moves one
/// cell on both axes each step and lands exactly on `end` after `|Δx|`
/// steps.
pub proof fn lemma_trace_diagonal(start: Position, end: Position, k: nat)
    requires
        iabs(start.x - end.x) == iabs(start.y - end.y),
        -0x3fff_ffff <= start.x - end.x <= 0x3fff_ffff,
        -0x3fff_ffff <= start.y - end.y <= 0x3fff_ffff,
        k <= iabs(start.x - end.x),
    ensures
        Raycast::steps_of(Raycast::ray_between(start, end), k).current.x == if end.x >= start.x {
            start.x + k
        } else {
            start.x - k
        },
        Raycast::steps_of(Raycast::ray_between(start, end), k).current.y == if end.y >= start.y {
            start.y + k
        } else {
            start.y - k
        },
        k == iabs(start.x - end.x) ==> Raycast::steps_of(
            Raycast::ray_between(start, end),
            k,
        ).current == end,
        Raycast::steps_of(Raycast::ray_between(start, end), k).error == 0,
        Raycast::steps_of(Raycast::ray_between(start, end), k).x_dir == Raycast::ray_between(
            start,
            end,
        ).x_dir,
        Raycast::steps_of(Raycast::ray_between(start, end), k).y_dir == Raycast::ray_between(
            start,
            end,
        ).y_dir,
        Raycast::steps_of(Raycast::ray_between(start, end), k).error_correct
            == Raycast::ray_between(start, end).error_correct,
        Raycast::steps_of(Raycast::ray_between(start, end), k).end == end,
    decreases k,
{
    if k > 0 {
        lemma_trace_diagonal(start, end, (k - 1) as nat);
    }
}

} // verus!
