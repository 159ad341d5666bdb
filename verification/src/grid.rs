//! Shared vocabulary of the grid model: bounds, row-major indexing,
//! 8-directional adjacency, passability, paths and reachability, and the
//! integer step-cost arithmetic (orthogonal and diagonal moves).

use vstd::prelude::*;

verus! {

/// Sentinel cell cost marking an impassable cell (a wall).
pub const INFINITE_COST: u32 = u32::MAX;

/// Cost written into a goal cell once its agent has parked there, so that
/// other agents treat the cell as expensive but not impossible to cross.
pub const SOFT_OBSTACLE_COST: u32 = 100;

/// `p` lies on a `width` by `height` grid.
pub open spec fn in_bounds(width: u32, height: u32, p: (u32, u32)) -> bool {
    p.0 < width && p.1 < height
}

/// Row-major index of `p` in the dense cell arrays.
pub open spec fn cell_index(width: u32, p: (u32, u32)) -> int {
    p.1 * width + p.0
}

/// The cell at `p` can be traversed (its cost is not the wall sentinel).
pub open spec fn passable_at(data: Seq<u32>, width: u32, p: (u32, u32)) -> bool {
    data[cell_index(width, p)] != INFINITE_COST
}

/// `a` and `b` are distinct cells at Chebyshev distance 1: one move apart,
/// orthogonally or diagonally.
pub open spec fn adjacent(a: (u32, u32), b: (u32, u32)) -> bool {
    &&& a != b
    &&& -1 <= a.0 - b.0 <= 1
    &&& -1 <= a.1 - b.1 <= 1
}

/// A move from `a` to `b` changes both coordinates (a diagonal move).
pub open spec fn diagonal_move(a: (u32, u32), b: (u32, u32)) -> bool {
    a.0 != b.0 && a.1 != b.1
}

/// `path` is a non-empty chain of in-bounds, passable cells in which every
/// consecutive pair is adjacent.
pub open spec fn path_ok(data: Seq<u32>, width: u32, height: u32, path: Seq<(u32, u32)>) -> bool {
    &&& path.len() >= 1
    &&& forall|i: int|
        0 <= i < path.len() ==> in_bounds(width, height, #[trigger] path[i]) && passable_at(
            data,
            width,
            path[i],
        )
    &&& forall|i: int| 0 < i < path.len() ==> adjacent(path[i - 1], #[trigger] path[i])
}

/// Some chain of adjacent passable cells leads from `from` to `to`.
pub open spec fn reachable(
    data: Seq<u32>,
    width: u32,
    height: u32,
    from: (u32, u32),
    to: (u32, u32),
) -> bool {
    exists|path: Seq<(u32, u32)>|
        #[trigger] path_ok(data, width, height, path) && path.first() == from && path.last() == to
}

/// A cell reachable to itself: the singleton path.
pub proof fn lemma_reachable_self(data: Seq<u32>, width: u32, height: u32, p: (u32, u32))
    requires
        in_bounds(width, height, p),
        passable_at(data, width, p),
    ensures
        reachable(data, width, height, p, p),
{
    let path = seq![p];
    assert(path_ok(data, width, height, path));
    assert(path.first() == p && path.last() == p);
}

/// Reachability extends across one adjacent passable step.
pub proof fn lemma_reachable_step(
    data: Seq<u32>,
    width: u32,
    height: u32,
    from: (u32, u32),
    to: (u32, u32),
    next: (u32, u32),
)
    requires
        reachable(data, width, height, from, to),
        adjacent(to, next),
        in_bounds(width, height, next),
        passable_at(data, width, next),
    ensures
        reachable(data, width, height, from, next),
{
    let path = choose|path: Seq<(u32, u32)>|
        #[trigger] path_ok(data, width, height, path) && path.first() == from && path.last() == to;
    let longer = path.push(next);
    assert(longer.last() == next);
    assert(forall|i: int| 0 <= i < path.len() ==> longer[i] == path[i]);
    assert(path_ok(data, width, height, longer));
    assert(longer.first() == from);
}

/// Every cell on a valid path out of `from` belongs to any set that contains
/// `from` and is closed under adjacent passable steps.
pub proof fn lemma_path_stays_in_closed_set(
    data: Seq<u32>,
    width: u32,
    height: u32,
    s: Set<(u32, u32)>,
    path: Seq<(u32, u32)>,
)
    requires
        path_ok(data, width, height, path),
        s.contains(path.first()),
        forall|p: (u32, u32), q: (u32, u32)|
            s.contains(p) && adjacent(p, q) && in_bounds(width, height, q) && passable_at(
                data,
                width,
                q,
            ) ==> s.contains(q),
    ensures
        s.contains(path.last()),
    decreases path.len(),
{
    if path.len() == 1 {
        assert(path.last() == path.first());
    } else {
        let prefix = path.drop_last();
        assert(prefix.len() == path.len() - 1);
        assert(forall|i: int| 0 <= i < prefix.len() ==> prefix[i] == path[i]);
        assert(path_ok(data, width, height, prefix));
        assert(prefix.first() == path.first());
        lemma_path_stays_in_closed_set(data, width, height, s, prefix);
        let n = path.len() - 1;
        assert(adjacent(path[n - 1], path[n]));
        assert(prefix.last() == path[n - 1]);
    }
}

/// A set that contains `from` and is closed under adjacent passable steps
/// contains every cell reachable from `from`.
pub proof fn lemma_reachable_in_closed_set(
    data: Seq<u32>,
    width: u32,
    height: u32,
    s: Set<(u32, u32)>,
    from: (u32, u32),
    to: (u32, u32),
)
    requires
        reachable(data, width, height, from, to),
        s.contains(from),
        forall|p: (u32, u32), q: (u32, u32)|
            s.contains(p) && adjacent(p, q) && in_bounds(width, height, q) && passable_at(
                data,
                width,
                q,
            ) ==> s.contains(q),
    ensures
        s.contains(to),
{
    let path = choose|path: Seq<(u32, u32)>|
        #[trigger] path_ok(data, width, height, path) && path.first() == from && path.last() == to;
    lemma_path_stays_in_closed_set(data, width, height, s, path);
}

/// Two grids of equal shape whose cells agree on passability admit exactly
/// the same paths, hence the same reachability.
pub proof fn lemma_reachable_same_mask(
    data1: Seq<u32>,
    data2: Seq<u32>,
    width: u32,
    height: u32,
    from: (u32, u32),
    to: (u32, u32),
)
    requires
        data1.len() == data2.len(),
        forall|p: (u32, u32)|
            in_bounds(width, height, p) ==> (#[trigger] passable_at(data1, width, p)
                <==> passable_at(data2, width, p)),
        reachable(data1, width, height, from, to),
    ensures
        reachable(data2, width, height, from, to),
{
    let path = choose|path: Seq<(u32, u32)>|
        #[trigger] path_ok(data1, width, height, path) && path.first() == from && path.last()
            == to;
    assert(path_ok(data2, width, height, path));
}

/// Distinct in-bounds cells occupy distinct row-major indices.
pub proof fn lemma_cell_index_injective(width: u32, height: u32, p: (u32, u32), q: (u32, u32))
    requires
        in_bounds(width, height, p),
        in_bounds(width, height, q),
        cell_index(width, p) == cell_index(width, q),
    ensures
        p == q,
{
    assert(p.1 == q.1 && p.0 == q.0) by (nonlinear_arith)
        requires
            p.0 < width,
            q.0 < width,
            p.1 * width + p.0 == q.1 * width + q.0,
    ;
}

/// Distinct in-bounds cells never share a row-major index.
pub proof fn lemma_cell_index_distinct(width: u32, height: u32, p: (u32, u32), q: (u32, u32))
    requires
        in_bounds(width, height, p),
        in_bounds(width, height, q),
        p != q,
    ensures
        cell_index(width, p) != cell_index(width, q),
{
    if cell_index(width, p) == cell_index(width, q) {
        lemma_cell_index_injective(width, height, p, q);
    }
}

/// Number of set flags in a boolean sequence.
pub open spec fn count_true(s: Seq<bool>) -> nat
    decreases s.len(),
{
    if s.len() == 0 {
        0
    } else {
        count_true(s.drop_last()) + if s.last() {
            1nat
        } else {
            0nat
        }
    }
}

/// No more flags can be set than there are positions.
pub proof fn lemma_count_true_le(s: Seq<bool>)
    ensures
        count_true(s) <= s.len(),
    decreases s.len(),
{
    if s.len() > 0 {
        lemma_count_true_le(s.drop_last());
    }
}

/// Setting one clear flag raises the count by one.
pub proof fn lemma_count_true_update(s: Seq<bool>, i: int)
    requires
        0 <= i < s.len(),
        !s[i],
    ensures
        count_true(s.update(i, true)) == count_true(s) + 1,
    decreases s.len(),
{
    let t = s.update(i, true);
    if i == s.len() - 1 {
        assert(t.drop_last() =~= s.drop_last());
    } else {
        assert(t.drop_last() =~= s.drop_last().update(i, true));
        lemma_count_true_update(s.drop_last(), i);
    }
}

/// The row-major index of an in-bounds cell lies inside the cell array.
pub proof fn lemma_cell_index_bound(width: u32, height: u32, p: (u32, u32))
    requires
        in_bounds(width, height, p),
    ensures
        0 <= cell_index(width, p) < width * height,
{
    assert(p.1 * width + p.0 < width * height) by (nonlinear_arith)
        requires
            p.0 < width,
            p.1 < height,
    ;
}

/// The eight neighbor offsets, in the fixed enumeration order (diagonals
/// first, then east, west, north, south). The order carries no meaning but
/// keeps tie-breaking reproducible.
pub open spec fn neighbor_offsets() -> Seq<(int, int)> {
    seq![(1, 1), (-1, -1), (-1, 1), (1, -1), (1, 0), (-1, 0), (0, 1), (0, -1)]
}

/// The cell one offset `d` away from `p`.
pub open spec fn shifted(p: (u32, u32), d: (int, int)) -> (u32, u32) {
    (((p.0 + d.0) as u32), ((p.1 + d.1) as u32))
}

/// Applying offset `d` to `p` stays on the grid.
pub open spec fn offset_fits(width: u32, height: u32, p: (u32, u32), d: (int, int)) -> bool {
    &&& 0 <= p.0 + d.0 < width
    &&& 0 <= p.1 + d.1 < height
}

/// The in-bounds neighbor cells of `p` among the first `k` offsets, in the
/// fixed enumeration order.
pub open spec fn neighbor_seq_upto(width: u32, height: u32, p: (u32, u32), k: int) -> Seq<
    (u32, u32),
>
    decreases k,
{
    if k <= 0 {
        Seq::empty()
    } else {
        neighbor_seq_upto(width, height, p, k - 1) + if offset_fits(
            width,
            height,
            p,
            neighbor_offsets()[k - 1],
        ) {
            seq![shifted(p, neighbor_offsets()[k - 1])]
        } else {
            Seq::empty()
        }
    }
}

/// The in-bounds neighbors of `p`, in the fixed enumeration order.
pub open spec fn neighbor_seq(width: u32, height: u32, p: (u32, u32)) -> Seq<(u32, u32)> {
    neighbor_seq_upto(width, height, p, 8)
}

/// In-bounds neighbors of `pos`, orthogonal and diagonal: exactly the
/// in-bounds cells adjacent to `pos`, listed in the fixed enumeration
/// order (each at most once).
pub fn neighbors_of(width: u32, height: u32, pos: (u32, u32)) -> (r: Vec<(u32, u32)>)
    requires
        in_bounds(width, height, pos),
    ensures
        r@ == neighbor_seq(width, height, pos),
        forall|i: int|
            0 <= i < r@.len() ==> in_bounds(width, height, #[trigger] r@[i]) && adjacent(
                pos,
                r@[i],
            ),
        forall|q: (u32, u32)| in_bounds(width, height, q) && adjacent(pos, q) ==> r@.contains(q),
{
    let offs: Vec<(i64, i64)> = vec![
        (1, 1),
        (-1, -1),
        (-1, 1),
        (1, -1),
        (1, 0),
        (-1, 0),
        (0, 1),
        (0, -1),
    ];
    let mut r: Vec<(u32, u32)> = Vec::new();
    let mut k: usize = 0;
    while k < 8
        invariant
            k <= 8,
            in_bounds(width, height, pos),
            offs@.len() == 8,
            forall|j: int|
                0 <= j < 8 ==> (#[trigger] offs@[j].0 as int, offs@[j].1 as int)
                    == neighbor_offsets()[j],
            forall|i: int|
                0 <= i < r@.len() ==> in_bounds(width, height, #[trigger] r@[i]) && adjacent(
                    pos,
                    r@[i],
                ),
            forall|j: int|
                0 <= j < k && offset_fits(width, height, pos, #[trigger] neighbor_offsets()[j])
                    ==> r@.contains(shifted(pos, neighbor_offsets()[j])),
            r@ == neighbor_seq_upto(width, height, pos, k as int),
        decreases 8 - k,
    {
        let d: (i64, i64) = offs[k];
        let nx: i64 = pos.0 as i64 + d.0;
        let ny: i64 = pos.1 as i64 + d.1;
        let ghost r_before = r@;
        if 0 <= nx && nx < width as i64 && 0 <= ny && ny < height as i64 {
            r.push((nx as u32, ny as u32));
            proof {
                let dd = neighbor_offsets()[k as int];
                assert(shifted(pos, dd) == ((nx as u32), (ny as u32)));
                assert(r@.last() == shifted(pos, dd));
                assert(r@.contains(shifted(pos, dd))) by {
                    assert(r@[r@.len() - 1] == shifted(pos, dd));
                }
                assert(r@ =~= r_before + seq![shifted(pos, dd)]);
                assert(r@ =~= neighbor_seq_upto(width, height, pos, k + 1));
            }
        } else {
            proof {
                assert(!offset_fits(width, height, pos, neighbor_offsets()[k as int]));
                assert(r@ =~= neighbor_seq_upto(width, height, pos, k + 1));
            }
        }
        proof {
            assert forall|x: (u32, u32)| r_before.contains(x) implies r@.contains(x) by {
                let i = choose|i: int| 0 <= i < r_before.len() && r_before[i] == x;
                assert(r@[i] == x);
            }
        }
        k = k + 1;
    }
    proof {
        assert forall|q: (u32, u32)| in_bounds(width, height, q) && adjacent(pos, q) implies
            r@.contains(q) by {
            let dx = q.0 - pos.0;
            let dy = q.1 - pos.1;
            let j: int = if dx == 1 && dy == 1 {
                0
            } else if dx == -1 && dy == -1 {
                1
            } else if dx == -1 && dy == 1 {
                2
            } else if dx == 1 && dy == -1 {
                3
            } else if dx == 1 && dy == 0 {
                4
            } else if dx == -1 && dy == 0 {
                5
            } else if dx == 0 && dy == 1 {
                6
            } else {
                7
            };
            assert(neighbor_offsets()[j] == (dx, dy));
            assert(offset_fits(width, height, pos, neighbor_offsets()[j]));
            assert(shifted(pos, neighbor_offsets()[j]) == q);
        }
    }
    r
}

/// Largest integer whose square does not exceed `n`.
pub open spec fn int_sqrt(n: int) -> int {
    choose|r: int| 0 <= r && #[trigger] (r * r) <= n && n < (r + 1) * (r + 1)
}

/// The integer square root exists and satisfies its characterization.
pub proof fn lemma_int_sqrt(n: int)
    requires
        0 <= n,
    ensures
        0 <= int_sqrt(n),
        int_sqrt(n) * int_sqrt(n) <= n,
        n < (int_sqrt(n) + 1) * (int_sqrt(n) + 1),
    decreases n,
{
    if n == 0 {
        assert(0 <= 0 && (0 * 0) <= 0 && 0 < (0 + 1) * (0 + 1)) by (nonlinear_arith);
    } else {
        lemma_int_sqrt(n - 1);
        let r0 = choose|r: int| 0 <= r && #[trigger] (r * r) <= n - 1 && n - 1 < (r + 1) * (r + 1);
        if n < (r0 + 1) * (r0 + 1) {
            assert(0 <= r0 && (r0 * r0) <= n && n < (r0 + 1) * (r0 + 1));
        } else {
            assert(n == (r0 + 1) * (r0 + 1));
            assert(((r0 + 1) * (r0 + 1)) <= n);
            assert(n < (r0 + 2) * (r0 + 2)) by (nonlinear_arith)
                requires
                    n == (r0 + 1) * (r0 + 1),
                    r0 >= 0,
            ;
            assert(0 <= r0 + 1 && ((r0 + 1) * (r0 + 1)) <= n && n < (r0 + 1 + 1) * (r0 + 1 + 1));
        }
    }
}

/// Only one integer satisfies the square-root characterization.
pub proof fn lemma_int_sqrt_unique(n: int, a: int, b: int)
    requires
        0 <= a,
        a * a <= n,
        n < (a + 1) * (a + 1),
        0 <= b,
        b * b <= n,
        n < (b + 1) * (b + 1),
    ensures
        a == b,
{
    assert(a == b) by (nonlinear_arith)
        requires
            0 <= a,
            a * a <= n,
            n < (a + 1) * (a + 1),
            0 <= b,
            b * b <= n,
            n < (b + 1) * (b + 1),
    ;
}

/// A sum of cost-sized values, clamped at the wall sentinel.
pub open spec fn clamped_sum(a: int, b: int) -> int {
    if a + b <= u32::MAX {
        a + b
    } else {
        u32::MAX as int
    }
}

/// What one move into a cell of cost `dest` costs: the cell cost for an
/// orthogonal move, `floor(dest * sqrt(2))` for a diagonal one, clamped at
/// the wall sentinel.
pub open spec fn step_cost_value(dest: u32, diagonal: bool) -> int {
    if diagonal {
        if int_sqrt(2 * dest * dest) < u32::MAX {
            int_sqrt(2 * dest * dest)
        } else {
            u32::MAX as int
        }
    } else {
        dest as int
    }
}

/// Manhattan distance between two cells.
pub open spec fn manhattan(a: (u32, u32), b: (u32, u32)) -> int {
    vstd::math::abs(a.0 - b.0) + vstd::math::abs(a.1 - b.1) as int
}

/// Row-major index of an in-bounds cell, as a machine index.
pub fn cell_idx(width: u32, height: u32, p: (u32, u32)) -> (r: usize)
    requires
        in_bounds(width, height, p),
        width * height < u32::MAX,
    ensures
        r == cell_index(width, p),
        r < width * height,
{
    proof {
        lemma_cell_index_bound(width, height, p);
    }
    (p.1 as usize) * (width as usize) + (p.0 as usize)
}

/// The cell sitting at row-major index `idx`: the inverse of `cell_idx`.
pub fn cell_at(width: u32, height: u32, idx: usize) -> (r: (u32, u32))
    requires
        1 <= width,
        width * height < u32::MAX,
        idx < width * height,
    ensures
        in_bounds(width, height, r),
        cell_index(width, r) == idx,
{
    let x: usize = idx % (width as usize);
    let y: usize = idx / (width as usize);
    proof {
        assert(x < width && y < height && (y * width + x) == idx) by (nonlinear_arith)
            requires
                width >= 1,
                idx < width * height,
                x as int == (idx as int) % (width as int),
                y as int == (idx as int) / (width as int),
        ;
    }
    (x as u32, y as u32)
}

/// Addition on costs, saturating at the wall sentinel so that accumulated
/// costs never wrap around.
pub fn saturating_add_cost(a: u32, b: u32) -> (r: u32)
    ensures
        r == if a + b <= u32::MAX {
            a + b
        } else {
            u32::MAX as int
        },
{
    if a > u32::MAX - b {
        u32::MAX
    } else {
        a + b
    }
}

/// Cost of a diagonal move into a cell of cost `c`: the cell cost scaled by
/// the square root of two, truncated toward zero, saturating at the wall
/// sentinel. Since `floor(c * sqrt(2))` equals the integer square root of
/// `2 * c * c`, the result is characterized exactly by integer squares.
pub fn scaled_diagonal_cost(c: u32) -> (r: u32)
    ensures
        r * r <= 2 * c * c,
        r < u32::MAX ==> 2 * c * c < (r + 1) * (r + 1),
{
    proof {
        assert(2 * (c as int) * (c as int) <= 2 * (u32::MAX as int) * (u32::MAX as int))
            by (nonlinear_arith)
            requires
                c <= u32::MAX,
        ;
    }
    let n: u128 = 2u128 * (c as u128) * (c as u128);
    // Binary search for the integer square root of `n`.
    let mut lo: u64 = 0;
    let mut hi: u64 = 0x2_0000_0000;
    proof {
        assert((0x2_0000_0000u64 as int) * (0x2_0000_0000u64 as int) > n) by (nonlinear_arith)
            requires
                n == 2 * (c as int) * (c as int),
                c <= u32::MAX,
        ;
    }
    while lo + 1 < hi
        invariant
            lo < hi <= 0x2_0000_0000,
            lo * lo <= n,
            hi * hi > n,
            n == 2 * (c as int) * (c as int),
        decreases hi - lo,
    {
        let mid: u64 = lo + (hi - lo) / 2;
        proof {
            assert((mid as int) * (mid as int) <= 0x2_0000_0000 * 0x2_0000_0000)
                by (nonlinear_arith)
                requires
                    mid <= 0x2_0000_0000,
            ;
        }
        let sq: u128 = (mid as u128) * (mid as u128);
        if sq <= n {
            lo = mid;
        } else {
            hi = mid;
        }
    }
    if lo >= u32::MAX as u64 {
        proof {
            assert((u32::MAX as int) * (u32::MAX as int) <= (lo as int) * (lo as int))
                by (nonlinear_arith)
                requires
                    lo >= u32::MAX,
            ;
        }
        u32::MAX
    } else {
        proof {
            assert((lo + 1) * (lo + 1) > n);
        }
        lo as u32
    }
}

/// Cost of one move into a cell of cost `dest_cost`: the destination cell's
/// cost for an orthogonal move, its diagonally scaled cost for a diagonal
/// move. Every move out of a positive-cost grid costs at least one.
pub fn step_cost(dest_cost: u32, diagonal: bool) -> (r: u32)
    ensures
        r == step_cost_value(dest_cost, diagonal),
        !diagonal ==> r == dest_cost,
        diagonal ==> r * r <= 2 * dest_cost * dest_cost,
        diagonal && r < u32::MAX ==> 2 * dest_cost * dest_cost < (r + 1) * (r + 1),
        dest_cost >= 1 ==> r >= 1,
{
    if diagonal {
        let r = scaled_diagonal_cost(dest_cost);
        proof {
            if dest_cost >= 1 && r < u32::MAX {
                assert(r >= 1) by (nonlinear_arith)
                    requires
                        2 * dest_cost * dest_cost < (r + 1) * (r + 1),
                        dest_cost >= 1,
                ;
            }
            let n = 2 * (dest_cost as int) * (dest_cost as int);
            lemma_int_sqrt(n);
            if r < u32::MAX {
                lemma_int_sqrt_unique(n, r as int, int_sqrt(n));
            } else {
                // the clamped result means the true root reaches the sentinel
                if int_sqrt(n) < u32::MAX {
                    assert(n < (u32::MAX as int) * (u32::MAX as int)) by (nonlinear_arith)
                        requires
                            n < (int_sqrt(n) + 1) * (int_sqrt(n) + 1),
                            int_sqrt(n) < u32::MAX,
                            0 <= int_sqrt(n),
                    ;
                }
            }
        }
        r
    } else {
        dest_cost
    }
}

} // verus!
