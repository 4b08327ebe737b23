use vstd::prelude::*;
use crate::vector::{Vector2, trunc_div};

verus! {

/// How the editor places things: freely, or snapped to a grid.
#[derive(Debug, Default, Copy, Clone, PartialEq, Eq, Structural)]
pub enum EditorMode {
    #[default]
    Normal,
    Grid,
}

/// Grid size in pixels at scale 1.0.
pub const GRID_SIZE: i32 = 25;

/// Snap one coordinate to the grid the way integer arithmetic does:
/// `v / GRID_SIZE * GRID_SIZE`, rounding toward zero.
pub open spec fn snap(v: int) -> int {
    trunc_div(v, GRID_SIZE as int) * GRID_SIZE
}

impl EditorMode {
    /// The position where something dropped at `position` lands.
    pub fn align(&self, position: Vector2<i32>) -> (aligned: Vector2<i32>)
        ensures
            *self == EditorMode::Normal ==> aligned == position,
            *self == EditorMode::Grid ==> aligned.0 == snap(position.0 as int) && aligned.1 == snap(
                position.1 as int,
            ),
    {
        match self {
            EditorMode::Grid => {
                let grid = Vector2(GRID_SIZE, GRID_SIZE);
                let q = position.divided_by(grid);
                proof {
                    lemma_snap_fits(position.0 as int);
                    lemma_snap_fits(position.1 as int);
                }
                q.times(grid)
            },
            EditorMode::Normal => position,
        }
    }
}

/// A snapped coordinate lies between zero and the coordinate itself.
pub proof fn lemma_snap_fits(v: int)
    ensures
        v >= 0 ==> 0 <= snap(v) <= v,
        v < 0 ==> v <= snap(v) <= 0,
{
    if v >= 0 {
        assert(0 <= (v / 25) * 25 <= v) by (nonlinear_arith)
            requires
                v >= 0,
        ;
    } else {
        assert(0 <= ((-v) / 25) * 25 <= -v) by (nonlinear_arith)
            requires
                -v > 0,
        ;
    }
}

/// Snapping is idempotent: aligning an aligned position changes nothing.
pub proof fn lemma_align_idempotent(v: int)
    ensures
        snap(snap(v)) == snap(v),
{
    if v >= 0 {
        let q = v / 25;
        assert(q >= 0) by (nonlinear_arith)
            requires
                v >= 0,
                q == v / 25,
        ;
        assert((q * 25) / 25 == q) by (nonlinear_arith);
    } else {
        let q = (-v) / 25;
        assert(q >= 0) by (nonlinear_arith)
            requires
                -v > 0,
                q == (-v) / 25,
        ;
        assert((q * 25) / 25 == q) by (nonlinear_arith);
        assert(-(-(q * 25)) == q * 25);
    }
}

impl From<bool> for EditorMode {
    fn from(b: bool) -> (mode: Self) {
        match b {
            true => EditorMode::Grid,
            false => EditorMode::Normal,
        }
    }
}

impl vstd::std_specs::convert::FromSpecImpl<bool> for EditorMode {
    open spec fn obeys_from_spec() -> bool {
        true
    }

    open spec fn from_spec(b: bool) -> Self {
        if b {
            EditorMode::Grid
        } else {
            EditorMode::Normal
        }
    }
}

} // verus!
