//! Cross-implementation oracle: on corresponding grids, the bit-packed hit
//! count (AND of path lanes against storage lanes, summed popcounts) and
//! the coordinate-based baseline hit count (walking the route and comparing
//! tiles) are one and the same number.

use vstd::arithmetic::div_mod::{
    lemma_div_pos_is_pos, lemma_fundamental_div_mod, lemma_mod_bound, lemma_small_mod,
};
use vstd::prelude::*;

use crate::bits::seq_bit;
use crate::cells;
use crate::cells::{route_hits, Tile};
use crate::packed::{and_count, lemma_offset_mono, path_bit, path_col, path_offset, Grid};

verus! {

/// Number of the first `m` path points whose flat offset is a set bit of
/// the stored words.
pub open spec fn offset_hits(
    words: Seq<u64>,
    from: int,
    left: int,
    down: int,
    stride: int,
    m: int,
) -> nat
    decreases m,
{
    if m <= 0 {
        0
    } else {
        offset_hits(words, from, left, down, stride, m - 1) + if seq_bit(
            words,
            path_offset(from, left, down, stride, m - 1),
        ) {
            1nat
        } else {
            0nat
        }
    }
}

/// Number of path points whose flat offset lies below `i`.
pub open spec fn points_below(from: int, left: int, down: int, stride: int, i: int) -> nat
    decreases i,
{
    if i <= 0 {
        0
    } else {
        points_below(from, left, down, stride, i - 1) + if path_bit(
            from,
            left,
            down,
            stride,
            i - 1,
        ) {
            1nat
        } else {
            0nat
        }
    }
}

/// Counting hit positions bit by bit equals counting hit points point by
/// point: distinct path points have distinct offsets, so each set bit of
/// the AND corresponds to exactly one path point.
proof fn lemma_and_count_is_offset_hits(
    words: Seq<u64>,
    from: int,
    left: int,
    down: int,
    stride: int,
    i: int,
)
    requires
        0 <= from,
        0 <= left,
        1 <= down,
        1 <= stride,
        0 <= i,
    ensures
        and_count(words, from, left, down, stride, i) == offset_hits(
            words,
            from,
            left,
            down,
            stride,
            points_below(from, left, down, stride, i) as int,
        ),
        forall|k: int|
            0 <= k < points_below(from, left, down, stride, i) ==> path_offset(
                from,
                left,
                down,
                stride,
                k,
            ) < i,
        path_offset(
            from,
            left,
            down,
            stride,
            points_below(from, left, down, stride, i) as int,
        ) >= i,
    decreases i,
{
    if i == 0 {
        lemma_mod_bound(from, stride);
        assert(0 * down * stride == 0) by (nonlinear_arith);
    } else {
        lemma_and_count_is_offset_hits(words, from, left, down, stride, i - 1);
        let kc = points_below(from, left, down, stride, i - 1) as int;
        if path_bit(from, left, down, stride, i - 1) {
            let k0 = choose|k: int|
                0 <= k && path_offset(from, left, down, stride, k) == i - 1;
            if k0 > kc {
                lemma_offset_mono(from, left, down, stride, kc, k0);
                assert(false);
            }
            assert(k0 == kc);
            assert(points_below(from, left, down, stride, i) == kc + 1);
            lemma_offset_mono(from, left, down, stride, kc, kc + 1);
        } else {
            assert(path_offset(from, left, down, stride, kc) != i - 1) by {
                if path_offset(from, left, down, stride, kc) == i - 1 {
                    assert(path_bit(from, left, down, stride, i - 1));
                }
            }
        }
    }
}

/// Counts do not change over a span of path points that all miss.
proof fn lemma_offset_hits_stable(
    words: Seq<u64>,
    from: int,
    left: int,
    down: int,
    stride: int,
    m1: int,
    m2: int,
)
    requires
        0 <= m1 <= m2,
        forall|k: int|
            m1 <= k < m2 ==> !seq_bit(words, #[trigger] path_offset(from, left, down, stride, k)),
    ensures
        offset_hits(words, from, left, down, stride, m2) == offset_hits(
            words,
            from,
            left,
            down,
            stride,
            m1,
        ),
    decreases m2 - m1,
{
    if m1 < m2 {
        lemma_offset_hits_stable(words, from, left, down, stride, m1, m2 - 1);
    }
}

/// Which grids correspond: same width and height, and a tree exactly where
/// the packed grid has a set bit.
pub open spec fn corresponds(g: Grid, b: cells::Grid) -> bool {
    &&& b.spec_width() == g.spec_stride()
    &&& b.spec_height() == g.spec_rows()
    &&& forall|x: int, y: int|
        0 <= x < g.spec_stride() && 0 <= y < g.spec_rows() ==> ((b.spec_tile(x, y) == Tile::Tree)
            <==> g.bit(y * g.spec_stride() + x))
}

/// The baseline walk counts exactly the path points whose offset is a set
/// bit: inside the grid the tile matches the bit, and below the grid every
/// offset lies past the cursor, where no bit is set.
proof fn lemma_route_is_offset_hits(g: Grid, b: cells::Grid, left: int, down: int, m: int)
    requires
        g.wf(),
        b.wf(),
        1 <= down,
        0 <= left,
        0 <= m,
        g.spec_stride() >= 1,
        corresponds(g, b),
    ensures
        route_hits(b, left, down, m) == offset_hits(
            g.words(),
            0,
            left,
            down,
            g.spec_stride(),
            m,
        ),
    decreases m,
{
    if m > 0 {
        lemma_route_is_offset_hits(g, b, left, down, m - 1);
        let k = m - 1;
        let s = g.spec_stride();
        let h = g.spec_rows();
        lemma_mod_bound(k * left, s);
        let col = path_col(0, left, s, k);
        assert(col == (k * left) % s);
        if k * down < h {
            lemma_small_mod(col as nat, s as nat);
            assert((b.spec_tile(col, k * down) == Tile::Tree) <==> g.bit(k * down * s + col));
        } else {
            assert(k * down * s >= h * s) by (nonlinear_arith)
                requires
                    k * down >= h,
                    s >= 1,
            ;
            assert(!g.bit(path_offset(0, left, down, s, k)));
        }
    }
}

/// Cross-implementation oracle law: for corresponding grids and any path
/// parameters, the packed count over all stored bits equals the baseline
/// count over the route.
pub proof fn lemma_counts_agree(g: Grid, b: cells::Grid, left: int, down: int)
    requires
        g.wf(),
        b.wf(),
        1 <= down,
        0 <= left,
        g.spec_stride() >= 1,
        corresponds(g, b),
    ensures
        and_count(g.words(), 0, left, down, g.spec_stride(), 64 * g.words().len() as int)
            == route_hits(b, left, down, (g.spec_rows() + down - 1) / down),
{
    let s = g.spec_stride();
    let h = g.spec_rows();
    let words = g.words();
    let n = 64 * words.len() as int;
    lemma_and_count_is_offset_hits(words, 0, left, down, s, n);
    let kc = points_below(0, left, down, s, n) as int;
    let steps = (h + down - 1) / down;
    lemma_div_pos_is_pos(h + down - 1, down);
    lemma_route_is_offset_hits(g, b, left, down, steps);
    lemma_fundamental_div_mod(h + down - 1, down);
    lemma_mod_bound(h + down - 1, down);
    assert(steps * down >= h);
    if kc <= steps {
        assert forall|k: int| kc <= k < steps implies !seq_bit(
            words,
            #[trigger] path_offset(0, left, down, s, k),
        ) by {
            lemma_offset_mono(0, left, down, s, kc, k);
        }
        lemma_offset_hits_stable(words, 0, left, down, s, kc, steps);
    } else {
        assert forall|k: int| steps <= k < kc implies !seq_bit(
            words,
            #[trigger] path_offset(0, left, down, s, k),
        ) by {
            assert(k * down >= h) by (nonlinear_arith)
                requires
                    k >= steps,
                    steps >= 0,
                    steps * down >= h,
                    down >= 1,
            ;
            assert(k * down * s >= h * s) by (nonlinear_arith)
                requires
                    k * down >= h,
                    s >= 1,
            ;
            lemma_mod_bound(k * left, s);
            assert(!g.bit(path_offset(0, left, down, s, k)));
        }
        lemma_offset_hits_stable(words, 0, left, down, s, steps, kc);
    }
}

/// Boundary law: a grid with no set bits — in particular the grid built
/// from empty input — yields zero hits for any path.
pub proof fn lemma_empty_grid_no_hits(
    words: Seq<u64>,
    from: int,
    left: int,
    down: int,
    stride: int,
    n: int,
)
    requires
        forall|i: int| !seq_bit(words, i),
    ensures
        and_count(words, from, left, down, stride, n) == 0,
    decreases n,
{
    if n > 0 {
        lemma_empty_grid_no_hits(words, from, left, down, stride, n - 1);
    }
}

} // verus!
