//! Two-dimensional channel matrices of 8-bit samples, viewed as sequences of
//! sequences for specification purposes.

use vstd::prelude::*;

verus! {

/// The mathematical view of a channel matrix: one sequence per row.
pub open spec fn grid_view(m: &Vec<Vec<u8>>) -> Seq<Seq<u8>> {
    Seq::new(m@.len(), |i: int| m@[i]@)
}

/// A matrix is well formed for height `h` and width `w` when it has exactly
/// `h` rows of exactly `w` samples each.
pub open spec fn grid_wf(m: Seq<Seq<u8>>, h: int, w: int) -> bool {
    &&& m.len() == h
    &&& forall|y: int| 0 <= y < h ==> (#[trigger] m[y]).len() == w
}

/// The matrix `m` with the sample at row `y`, column `x` replaced by `v`.
pub open spec fn gset(m: Seq<Seq<u8>>, y: int, x: int, v: u8) -> Seq<Seq<u8>> {
    m.update(y, m[y].update(x, v))
}

pub proof fn lemma_gset_wf(m: Seq<Seq<u8>>, h: int, w: int, y: int, x: int, v: u8)
    requires
        grid_wf(m, h, w),
        0 <= y < h,
        0 <= x < w,
    ensures
        grid_wf(gset(m, y, x, v), h, w),
        gset(m, y, x, v)[y][x] == v,
        forall|y2: int, x2: int|
            0 <= y2 < h && 0 <= x2 < w && !(y2 == y && x2 == x) ==> #[trigger] gset(
                m,
                y,
                x,
                v,
            )[y2][x2] == m[y2][x2],
{
}

/// Writes one sample of a channel matrix.
pub(crate) fn grid_set(m: &mut Vec<Vec<u8>>, y: usize, x: usize, v: u8)
    requires
        y < grid_view(old(m)).len(),
        x < grid_view(old(m))[y as int].len(),
    ensures
        grid_view(final(m)) == gset(grid_view(old(m)), y as int, x as int, v),
{
    m[y][x] = v;
    proof {
        assert(grid_view(m) =~= gset(grid_view(old(m)), y as int, x as int, v));
    }
}

/// Reads one sample of a channel matrix.
pub(crate) fn grid_get(m: &Vec<Vec<u8>>, y: usize, x: usize) -> (r: u8)
    requires
        y < grid_view(m).len(),
        x < grid_view(m)[y as int].len(),
    ensures
        r == grid_view(m)[y as int][x as int],
{
    m[y][x]
}

} // verus!
