use vstd::prelude::*;

use crate::obslog::ObservationLog;
use crate::KfError;

verus! {

/// The sizes of a filter: `n` state components, `m` process-noise inputs, `k`
/// observed components.
#[derive(Debug, Clone, Copy, PartialEq, Eq, Structural)]
pub struct Dims {
    pub n: usize,
    pub m: usize,
    pub k: usize,
}

/// The shape of a matrix: rows, then columns.
#[derive(Debug, Clone, Copy, PartialEq, Eq, Structural)]
pub struct Shape {
    pub rows: usize,
    pub cols: usize,
}

/// The model's shapes, with the state's length.
#[derive(Debug, Clone, Copy, PartialEq, Eq, Structural)]
pub struct ModelShapes {
    pub x_len: usize,
    pub v: Shape,
    pub f: Shape,
    pub g: Shape,
    pub h: Shape,
    pub q: Shape,
    pub r: Shape,
}

pub open spec fn is_shape(s: Shape, rows: usize, cols: usize) -> bool {
    s.rows == rows && s.cols == cols
}

/// The sizes that a model's shapes agree on: `x` has length `n`, `V` and `F` are
/// `n×n`, `G` is `n×m`, `H` is `k×n`, `Q` is `m×m` and `R` is `k×k`.
pub open spec fn consistent(s: ModelShapes, d: Dims) -> bool {
    &&& s.x_len == d.n
    &&& is_shape(s.v, d.n, d.n)
    &&& is_shape(s.f, d.n, d.n)
    &&& is_shape(s.g, d.n, d.m)
    &&& is_shape(s.h, d.k, d.n)
    &&& is_shape(s.q, d.m, d.m)
    &&& is_shape(s.r, d.k, d.k)
}

/// The sizes of a model, or `DimensionMismatch` when its shapes disagree.
pub fn check_dimensions(s: ModelShapes) -> (r: Result<Dims, KfError>)
    ensures
        match r {
            Ok(d) => consistent(s, d),
            Err(e) => e == KfError::DimensionMismatch && forall|d: Dims| !consistent(s, d),
        },
{
    let d = Dims { n: s.x_len, m: s.g.cols, k: s.h.rows };
    if s.v.rows == d.n && s.v.cols == d.n && s.f.rows == d.n && s.f.cols == d.n && s.g.rows == d.n
        && s.h.cols == d.n && s.q.rows == d.m && s.q.cols == d.m && s.r.rows == d.k && s.r.cols
        == d.k {
        Ok(d)
    } else {
        Err(KfError::DimensionMismatch)
    }
}

/// Whether every record of the log observes exactly `k` values; `DimensionMismatch` if not.
pub fn check_observations(log: &ObservationLog, k: usize) -> (r: Result<(), KfError>)
    ensures
        r is Ok <==> forall|i: int| 0 <= i < log.records@.len() ==> (#[trigger] log.records@[i]).values@.len() == k,
        r matches Err(e) ==> e == KfError::DimensionMismatch,
{
    let mut i: usize = 0;
    while i < log.records.len()
        invariant
            i <= log.records.len(),
            forall|j: int| 0 <= j < i ==> (#[trigger] log.records@[j]).values@.len() == k,
        decreases log.records.len() - i,
    {
        if log.records[i].values.len() != k {
            return Err(KfError::DimensionMismatch);
        }
        i = i + 1;
    }
    Ok(())
}

} // verus!
