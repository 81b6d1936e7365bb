use vstd::prelude::*;
use crate::cell::{Cell, Direction};
use crate::line::{compact, line_moves, pass_from, step};
use crate::state::{line_of, line_count, cell_row, cell_col, moved_grid, grid_moves, has_2048, is_lost};

verus! {

/// Tiles come first in the line, and no two neighbouring tiles are equal.
pub open spec fn settled(s: Seq<Cell>) -> bool {
    &&& forall|i: int, j: int| #![trigger s[i], s[j]] 0 <= i < j < s.len() && s[i] is Empty ==> s[j] is Empty
    &&& forall|i: int| 0 <= i < s.len() - 1 && s[i] is Value ==> #[trigger] s[i] != s[i + 1]
}

proof fn lemma_unmoved_pass_keeps(s: Seq<Cell>, d: int, k: int)
    requires
        !pass_from(s, d, k).1,
    ensures
        pass_from(s, d, k).0 == s,
    decreases s.len() - k,
{
    if !(k < 1 || k >= s.len() || d < 0 || d >= k) {
        let (s2, d2, m) = step(s, d, k);
        assert(s2 =~= s);
        lemma_unmoved_pass_keeps(s2, d2, k + 1);
    }
}

proof fn lemma_settled_pass_unmoved(s: Seq<Cell>, d: int, k: int)
    requires
        settled(s),
        0 <= d < k <= s.len(),
        s[d] is Empty ==> forall|i: int| d <= i < s.len() ==> #[trigger] s[i] is Empty,
        k != d + 1 ==> forall|i: int| d < i < s.len() ==> #[trigger] s[i] is Empty,
    ensures
        !pass_from(s, d, k).1,
    decreases s.len() - k,
{
    if k < s.len() {
        let (s2, d2, m) = step(s, d, k);
        if s[d] is Value && s[k] is Value {
            assert(k == d + 1);
            assert(s[d] != s[d + 1]);
            assert(s2 =~= s);
        }
        if s[d] is Value && s[k] is Empty {
            assert forall|i: int| d < i < s.len() implies #[trigger] s[i] is Empty by {
                if k != d + 1 {
                } else if i > k {
                    assert(s[k] is Empty);
                }
            }
        }
        lemma_settled_pass_unmoved(s2, d2, k + 1);
    }
}

/// A line whose tiles already stand first, with no two equal neighbours,
/// is left as it is by a move toward its leading edge.
pub proof fn lemma_settled_line_is_fixed(s: Seq<Cell>)
    requires
        settled(s),
        s.len() >= 2,
    ensures
        !line_moves(s),
        compact(s) == s,
{
    lemma_settled_pass_unmoved(s, 0, 1);
    lemma_unmoved_pass_keeps(s, 0, 1);
}

/// A move that alters nothing leaves the grid as it was, so repeating it
/// alters nothing either.
pub proof fn lemma_repeat_unmoved(g: Seq<Seq<Cell>>, g2: Seq<Seq<Cell>>, dir: Direction, w: int, h: int)
    requires
        w >= 2,
        h >= 2,
        g.len() == h,
        g2.len() == h,
        forall|r: int| 0 <= r < h ==> #[trigger] g[r].len() == w,
        forall|r: int| 0 <= r < h ==> #[trigger] g2[r].len() == w,
        moved_grid(g, g2, dir, w, h),
        !grid_moves(g, dir, w, h),
    ensures
        g2 == g,
        !grid_moves(g2, dir, w, h),
{
    assert forall|l: int| 0 <= l < line_count(dir, w, h) implies
        #[trigger] line_of(g2, dir, w, h, l) == line_of(g, dir, w, h, l) by {
        assert(!line_moves(line_of(g, dir, w, h, l)));
        lemma_unmoved_pass_keeps(line_of(g, dir, w, h, l), 0, 1);
    }
    assert forall|r: int, c: int| 0 <= r < h && 0 <= c < w implies #[trigger] g2[r][c] == g[r][c] by {
        let (l, k) = match dir {
            Direction::Up => (c, r),
            Direction::Down => (c, h - 1 - r),
            Direction::Left => (r, c),
            Direction::Right => (r, w - 1 - c),
        };
        assert(cell_row(dir, w, h, l, k) == r && cell_col(dir, w, h, l, k) == c);
        assert(line_of(g2, dir, w, h, l)[k] == line_of(g, dir, w, h, l)[k]);
    }
    assert forall|r: int| 0 <= r < h implies #[trigger] g2[r] == g[r] by {
        assert(g2[r] =~= g[r]);
    }
    assert(g2 =~= g);
}

/// A grid with two equal neighbours is not lost.
pub proof fn lemma_equal_neighbours_not_lost(g: Seq<Seq<Cell>>, w: int, h: int, r: int, c: int)
    requires
        0 <= r < h,
        0 <= c < w,
        (r + 1 < h && g[r][c] == g[r + 1][c]) || (c + 1 < w && g[r][c] == g[r][c + 1]),
    ensures
        !is_lost(g, w, h),
{
}

/// A grid is won exactly when one of its cells holds 2048; a grid whose
/// tiles are all at most 1024 is not won.
pub proof fn lemma_win_detection(g: Seq<Seq<Cell>>, w: int, h: int)
    ensures
        forall|r: int, c: int| 0 <= r < h && 0 <= c < w && #[trigger] g[r][c] == Cell::Value(2048)
            ==> has_2048(g, w, h),
        (forall|r: int, c: int| 0 <= r < h && 0 <= c < w && #[trigger] g[r][c] is Value ==> g[r][c]->Value_0 <= 1024)
            ==> !has_2048(g, w, h),
{
    if has_2048(g, w, h) {
        let (r, c) = choose|r: int, c: int| 0 <= r < h && 0 <= c < w && #[trigger] g[r][c] == Cell::Value(2048);
        assert(g[r][c] is Value);
    }
}

} // verus!
