use vstd::prelude::*;
use crate::cell::{Cell, Direction, empty_weight, doubleable};
use crate::line::{count_empty, compact, line_moves, pass_from, step, lemma_count_empty_update, lemma_count_empty_bounds, lemma_step_facts};

verus! {

/// The game: a `height` x `width` grid of cells stored row by row, the
/// number of empty cells, and whether the game goes on.
pub struct State {
    pub width: u32,
    pub height: u32,
    pub field: Vec<Vec<Cell>>,
    pub is_run: bool,
    pub empty_count: u32,
}

/// Number of empty cells of a grid.
pub open spec fn count_grid(g: Seq<Seq<Cell>>) -> int
    decreases g.len(),
{
    if g.len() == 0 {
        0
    } else {
        count_grid(g.drop_last()) + count_empty(g.last())
    }
}

/// Number of cells in a line of a move in direction `dir`.
pub open spec fn line_len(dir: Direction, w: int, h: int) -> int {
    match dir {
        Direction::Up | Direction::Down => h,
        Direction::Left | Direction::Right => w,
    }
}

/// Number of lines of a move in direction `dir`.
pub open spec fn line_count(dir: Direction, w: int, h: int) -> int {
    match dir {
        Direction::Up | Direction::Down => w,
        Direction::Left | Direction::Right => h,
    }
}

/// Row of the `k`-th cell of line `l`, counted from the leading edge.
pub open spec fn cell_row(dir: Direction, w: int, h: int, l: int, k: int) -> int {
    match dir {
        Direction::Up => k,
        Direction::Down => h - 1 - k,
        Direction::Left | Direction::Right => l,
    }
}

/// Column of the `k`-th cell of line `l`, counted from the leading edge.
pub open spec fn cell_col(dir: Direction, w: int, h: int, l: int, k: int) -> int {
    match dir {
        Direction::Up | Direction::Down => l,
        Direction::Left => k,
        Direction::Right => w - 1 - k,
    }
}

/// Line `l` of grid `g` for a move in direction `dir`, leading edge first.
pub open spec fn line_of(g: Seq<Seq<Cell>>, dir: Direction, w: int, h: int, l: int) -> Seq<Cell> {
    Seq::new(
        line_len(dir, w, h) as nat,
        |k: int| g[cell_row(dir, w, h, l, k)][cell_col(dir, w, h, l, k)],
    )
}

/// The grid after a move in direction `dir`, given line by line.
pub open spec fn moved_grid(g: Seq<Seq<Cell>>, g2: Seq<Seq<Cell>>, dir: Direction, w: int, h: int) -> bool {
    forall|l: int| 0 <= l < line_count(dir, w, h) ==>
        #[trigger] line_of(g2, dir, w, h, l) == compact(line_of(g, dir, w, h, l))
}

/// Whether a move in direction `dir` alters some line of the grid.
pub open spec fn grid_moves(g: Seq<Seq<Cell>>, dir: Direction, w: int, h: int) -> bool {
    exists|l: int| 0 <= l < line_count(dir, w, h) && #[trigger] line_moves(line_of(g, dir, w, h, l))
}

/// Some cell of the grid holds 2048.
pub open spec fn has_2048(g: Seq<Seq<Cell>>, w: int, h: int) -> bool {
    exists|r: int, c: int| 0 <= r < h && 0 <= c < w && #[trigger] g[r][c] == Cell::Value(2048)
}

/// The grid is full and no two neighbours are equal.
pub open spec fn is_lost(g: Seq<Seq<Cell>>, w: int, h: int) -> bool {
    &&& forall|r: int, c: int| 0 <= r < h && 0 <= c < w ==> #[trigger] g[r][c] is Value
    &&& forall|r: int, c: int| 0 <= r < h - 1 && 0 <= c < w ==> #[trigger] g[r][c] != g[r + 1][c]
    &&& forall|r: int, c: int| 0 <= r < h && 0 <= c < w - 1 ==> #[trigger] g[r][c] != g[r][c + 1]
}

/// Every tile of the grid can be doubled within `u16`.
pub open spec fn all_doubleable(g: Seq<Seq<Cell>>, w: int, h: int) -> bool {
    forall|r: int, c: int| 0 <= r < h && 0 <= c < w ==> doubleable(#[trigger] g[r][c])
}

pub proof fn lemma_count_grid_update(g: Seq<Seq<Cell>>, r: int, c: int, x: Cell)
    requires
        0 <= r < g.len(),
        0 <= c < g[r].len(),
    ensures
        count_grid(g.update(r, g[r].update(c, x))) == count_grid(g) - empty_weight(g[r][c]) + empty_weight(x),
    decreases g.len(),
{
    let g2 = g.update(r, g[r].update(c, x));
    lemma_count_empty_update(g[r], c, x);
    if r == g.len() - 1 {
        assert(g2.drop_last() =~= g.drop_last());
    } else {
        assert(g2.drop_last() =~= g.drop_last().update(r, g[r].update(c, x)));
        lemma_count_grid_update(g.drop_last(), r, c, x);
    }
}

pub proof fn lemma_count_grid_bounds(g: Seq<Seq<Cell>>, w: int)
    requires
        w >= 0,
        forall|r: int| 0 <= r < g.len() ==> #[trigger] g[r].len() == w,
    ensures
        0 <= count_grid(g) <= g.len() * w,
        count_grid(g) > 0 <==> exists|r: int, c: int| 0 <= r < g.len() && 0 <= c < w && #[trigger] g[r][c] is Empty,
    decreases g.len(),
{
    if g.len() > 0 {
        let g0 = g.drop_last();
        lemma_count_grid_bounds(g0, w);
        lemma_count_empty_bounds(g.last());
        if exists|r: int, c: int| 0 <= r < g.len() && 0 <= c < w && #[trigger] g[r][c] is Empty {
            let (r, c) = choose|r: int, c: int| 0 <= r < g.len() && 0 <= c < w && #[trigger] g[r][c] is Empty;
            if r < g.len() - 1 {
                assert(g0[r][c] is Empty);
            } else {
                assert(g.last()[c] is Empty);
            }
        }
        assert(g.len() * w == g0.len() * w + w) by (nonlinear_arith)
            requires g.len() == g0.len() + 1;
        if count_grid(g0) > 0 {
            let (r, c) = choose|r: int, c: int| 0 <= r < g0.len() && 0 <= c < w && #[trigger] g0[r][c] is Empty;
            assert(g[r][c] is Empty);
        } else if count_empty(g.last()) > 0 {
            let c = choose|i: int| 0 <= i < g.last().len() && g.last()[i] is Empty;
            assert(g[g.len() - 1][c] is Empty);
        }
    }
}

pub proof fn lemma_count_grid_take(g: Seq<Seq<Cell>>, i: int)
    requires
        0 <= i < g.len(),
    ensures
        count_grid(g.take(i + 1)) == count_grid(g.take(i)) + count_empty(g[i]),
{
    assert(g.take(i + 1).drop_last() =~= g.take(i));
}

impl State {
    /// The grid as rows of cells.
    pub open spec fn cells(&self) -> Seq<Seq<Cell>> {
        self.field@.map_values(|row: Vec<Cell>| row@)
    }

    /// Dimensions fit the algorithms and the rows have the stated shape.
    pub open spec fn shaped(&self) -> bool {
        &&& self.width >= 2
        &&& self.height >= 2
        &&& self.width * self.height <= u32::MAX
        &&& self.field@.len() == self.height
        &&& forall|r: int| 0 <= r < self.height ==> #[trigger] self.field@[r]@.len() == self.width
    }

    /// Well formed: shaped, and `empty_count` is the number of empty cells.
    pub open spec fn wf(&self) -> bool {
        &&& self.shaped()
        &&& self.empty_count == count_grid(self.cells())
    }

    /// A `height` x `width` grid of empty cells, running.
    pub fn new(width: u32, height: u32) -> (s: State)
        requires
            width >= 2,
            height >= 2,
            width * height <= u32::MAX,
        ensures
            s.wf(),
            s.width == width,
            s.height == height,
            s.is_run,
            s.empty_count == width * height,
            forall|r: int, c: int| 0 <= r < height && 0 <= c < width ==> #[trigger] s.cells()[r][c] == Cell::Empty,
    {
        let mut field: Vec<Vec<Cell>> = Vec::new();
        let mut i: u32 = 0;
        while i < height
            invariant
                i <= height,
                field@.len() == i,
                forall|r: int| 0 <= r < i ==> #[trigger] field@[r]@ == Seq::new(width as nat, |c: int| Cell::Empty),
            decreases height - i,
        {
            let mut row: Vec<Cell> = Vec::new();
            let mut j: u32 = 0;
            while j < width
                invariant
                    j <= width,
                    row@ == Seq::new(j as nat, |c: int| Cell::Empty),
                decreases width - j,
            {
                row.push(Cell::Empty);
                j = j + 1;
                assert(row@ =~= Seq::new(j as nat, |c: int| Cell::Empty));
            }
            field.push(row);
            i = i + 1;
        }
        let s = State { width, height, field, is_run: true, empty_count: width * height };
        proof {
            assert forall|r: int| 0 <= r < height implies #[trigger] s.cells()[r] == Seq::new(width as nat, |c: int| Cell::Empty) by {
                assert(s.cells()[r] == s.field@[r]@);
            }
            lemma_count_grid_all_empty(s.cells(), width as int);
            assert(s.shaped());
            assert(s.cells().len() == height);
            assert(height * width == width * height) by (nonlinear_arith);
        }
        s
    }
}

impl Default for State {
    /// A fresh 4 x 4 game.
    fn default() -> (s: State)
        ensures
            s.wf(),
            s.width == 4,
            s.height == 4,
            s.is_run,
            s.empty_count == 16,
            forall|r: int, c: int| 0 <= r < 4 && 0 <= c < 4 ==> #[trigger] s.cells()[r][c] == Cell::Empty,
    {
        State::new(4, 4)
    }
}

/// Grid position `(row, column)` of the `k`-th cell of line `l`.
fn position(dir: Direction, w: usize, h: usize, l: usize, k: usize) -> (p: (usize, usize))
    requires
        w >= 2,
        h >= 2,
        l < line_count(dir, w as int, h as int),
        k < line_len(dir, w as int, h as int),
    ensures
        p.0 == cell_row(dir, w as int, h as int, l as int, k as int),
        p.1 == cell_col(dir, w as int, h as int, l as int, k as int),
        p.0 < h,
        p.1 < w,
{
    match dir {
        Direction::Up => (k, l),
        Direction::Down => (h - 1 - k, l),
        Direction::Left => (l, k),
        Direction::Right => (l, w - 1 - k),
    }
}

/// Writing the `k`-th cell of line `l` changes that line at `k` and no other line.
pub proof fn lemma_line_after_set(g: Seq<Seq<Cell>>, dir: Direction, w: int, h: int, l: int, k: int, x: Cell)
    requires
        g.len() == h,
        forall|r: int| 0 <= r < h ==> #[trigger] g[r].len() == w,
        0 <= l < line_count(dir, w, h),
        0 <= k < line_len(dir, w, h),
    ensures
        ({
            let r = cell_row(dir, w, h, l, k);
            let c = cell_col(dir, w, h, l, k);
            let g2 = g.update(r, g[r].update(c, x));
            &&& line_of(g2, dir, w, h, l) == line_of(g, dir, w, h, l).update(k, x)
            &&& forall|l2: int| 0 <= l2 < line_count(dir, w, h) && l2 != l ==>
                #[trigger] line_of(g2, dir, w, h, l2) == line_of(g, dir, w, h, l2)
        }),
{
    let r = cell_row(dir, w, h, l, k);
    let c = cell_col(dir, w, h, l, k);
    let g2 = g.update(r, g[r].update(c, x));
    assert(line_of(g2, dir, w, h, l) =~= line_of(g, dir, w, h, l).update(k, x));
    assert forall|l2: int| 0 <= l2 < line_count(dir, w, h) && l2 != l implies
        #[trigger] line_of(g2, dir, w, h, l2) == line_of(g, dir, w, h, l2) by {
        assert(line_of(g2, dir, w, h, l2) =~= line_of(g, dir, w, h, l2));
    }
}

impl State {
    /// Moves every line toward the edge `direction` points to, merging equal
    /// neighbours once each; returns whether any cell changed.
    pub fn move_to(&mut self, direction: Direction) -> (moved: bool)
        requires
            old(self).wf(),
            all_doubleable(old(self).cells(), old(self).width as int, old(self).height as int),
        ensures
            final(self).wf(),
            final(self).width == old(self).width,
            final(self).height == old(self).height,
            final(self).is_run == old(self).is_run,
            moved_grid(old(self).cells(), final(self).cells(), direction, old(self).width as int, old(self).height as int),
            moved == grid_moves(old(self).cells(), direction, old(self).width as int, old(self).height as int),
    {
        let ghost w = self.width as int;
        let ghost h = self.height as int;
        let ghost g0 = self.cells();
        let count: usize = match direction {
            Direction::Up | Direction::Down => self.width as usize,
            Direction::Left | Direction::Right => self.height as usize,
        };
        let mut l: usize = 0;
        let mut moved = false;
        while l < count
            invariant
                self.wf(),
                self.width == w,
                self.height == h,
                self.is_run == old(self).is_run,
                count == line_count(direction, w, h),
                l <= count,
                all_doubleable(g0, w, h),
                g0.len() == h,
                forall|l2: int| 0 <= l2 < l ==>
                    #[trigger] line_of(self.cells(), direction, w, h, l2) == compact(line_of(g0, direction, w, h, l2)),
                forall|l2: int| l <= l2 < count ==>
                    #[trigger] line_of(self.cells(), direction, w, h, l2) == line_of(g0, direction, w, h, l2),
                moved == exists|l2: int| 0 <= l2 < l && #[trigger] line_moves(line_of(g0, direction, w, h, l2)),
            decreases count - l,
        {
            proof {
                assert(line_of(self.cells(), direction, w, h, l as int) == line_of(g0, direction, w, h, l as int));
                assert forall|k: int| 0 <= k < line_len(direction, w, h) implies
                    doubleable(#[trigger] line_of(self.cells(), direction, w, h, l as int)[k]) by {
                    assert(doubleable(g0[cell_row(direction, w, h, l as int, k)][cell_col(direction, w, h, l as int, k)]));
                }
            }
            let m = self.pass_line(direction, l);
            proof {
                if m {
                    assert(line_moves(line_of(g0, direction, w, h, l as int)));
                }
            }
            moved = moved || m;
            l = l + 1;
        }
        moved
    }

    /// Whether some cell holds 2048.
    pub fn check_win(&self) -> (r: bool)
        requires
            self.shaped(),
        ensures
            r == has_2048(self.cells(), self.width as int, self.height as int),
    {
        let mut i: usize = 0;
        while i < self.height as usize
            invariant
                self.shaped(),
                i <= self.height,
                forall|r: int, c: int| 0 <= r < i && 0 <= c < self.width ==> #[trigger] self.cells()[r][c] != Cell::Value(2048),
            decreases self.height - i,
        {
            let mut j: usize = 0;
            while j < self.width as usize
                invariant
                    self.shaped(),
                    i < self.height,
                    j <= self.width,
                    forall|r: int, c: int| 0 <= r < i && 0 <= c < self.width ==> #[trigger] self.cells()[r][c] != Cell::Value(2048),
                    forall|c: int| 0 <= c < j ==> #[trigger] self.cells()[i as int][c] != Cell::Value(2048),
                decreases self.width - j,
            {
                assert(self.cells()[i as int] == self.field@[i as int]@);
                if let Cell::Value(2048) = self.field[i][j] {
                    return true;
                }
                j = j + 1;
            }
            i = i + 1;
        }
        false
    }

    /// Whether the game is lost: no empty cell and no two equal neighbours.
    pub fn check_lose(&self) -> (r: bool)
        requires
            self.wf(),
        ensures
            r == is_lost(self.cells(), self.width as int, self.height as int),
    {
        let ghost g = self.cells();
        proof {
            assert forall|r: int| 0 <= r < self.height implies #[trigger] g[r].len() == self.width by {
                assert(g[r] == self.field@[r]@);
            }
            lemma_count_grid_bounds(g, self.width as int);
        }
        if self.empty_count != 0 {
            return false;
        }
        let h = self.height as usize;
        let w = self.width as usize;
        let mut i: usize = 0;
        while i < h
            invariant
                self.wf(),
                g == self.cells(),
                h == self.height,
                w == self.width,
                i <= h,
                forall|r: int, c: int| 0 <= r < h && 0 <= c < w ==> #[trigger] g[r][c] is Value,
                forall|r: int, c: int| 0 <= r < i && r < h - 1 && 0 <= c < w ==> #[trigger] g[r][c] != g[r + 1][c],
                forall|r: int, c: int| 0 <= r < i && 0 <= c < w - 1 ==> #[trigger] g[r][c] != g[r][c + 1],
            decreases h - i,
        {
            let mut j: usize = 0;
            while j < w
                invariant
                    self.wf(),
                    g == self.cells(),
                    h == self.height,
                    w == self.width,
                    i < h,
                    j <= w,
                    forall|r: int, c: int| 0 <= r < h && 0 <= c < w ==> #[trigger] g[r][c] is Value,
                    forall|r: int, c: int| 0 <= r < i && r < h - 1 && 0 <= c < w ==> #[trigger] g[r][c] != g[r + 1][c],
                    forall|r: int, c: int| 0 <= r < i && 0 <= c < w - 1 ==> #[trigger] g[r][c] != g[r][c + 1],
                    forall|c: int| 0 <= c < j && i < h - 1 ==> #[trigger] g[i as int][c] != g[i + 1][c],
                    forall|c: int| 0 <= c < j && c < w - 1 ==> #[trigger] g[i as int][c] != g[i as int][c + 1],
                decreases w - j,
            {
                assert(g[i as int] == self.field@[i as int]@);
                if i + 1 < h {
                    assert(g[i + 1] == self.field@[i + 1]@);
                    if self.field[i][j] == self.field[i + 1][j] {
                        return false;
                    }
                }
                if j + 1 < w && self.field[i][j] == self.field[i][j + 1] {
                    return false;
                }
                j = j + 1;
            }
            i = i + 1;
        }
        true
    }

    /// Overwrites one cell; `empty_count` is left to the caller.
    pub(crate) fn put(&mut self, r: usize, c: usize, x: Cell)
        requires
            old(self).shaped(),
            r < old(self).height,
            c < old(self).width,
        ensures
            final(self).shaped(),
            final(self).cells() == old(self).cells().update(r as int, old(self).cells()[r as int].update(c as int, x)),
            count_grid(final(self).cells()) == count_grid(old(self).cells()) - empty_weight(old(self).cells()[r as int][c as int]) + empty_weight(x),
            final(self).width == old(self).width,
            final(self).height == old(self).height,
            final(self).is_run == old(self).is_run,
            final(self).empty_count == old(self).empty_count,
    {
        proof {
            assert(old(self).cells()[r as int] == old(self).field@[r as int]@);
            lemma_count_grid_update(old(self).cells(), r as int, c as int, x);
        }
        self.field[r][c] = x;
        assert(self.cells() =~= old(self).cells().update(r as int, old(self).cells()[r as int].update(c as int, x)));
        assert forall|i: int| 0 <= i < self.height implies #[trigger] self.field@[i]@.len() == self.width by {
            assert(self.field@[i]@ == self.cells()[i]);
        }
    }

    /// Reads the `k`-th cell of line `l`.
    fn line_cell(&self, dir: Direction, l: usize, k: usize) -> (x: Cell)
        requires
            self.shaped(),
            l < line_count(dir, self.width as int, self.height as int),
            k < line_len(dir, self.width as int, self.height as int),
        ensures
            x == line_of(self.cells(), dir, self.width as int, self.height as int, l as int)[k as int],
    {
        let (r, c) = position(dir, self.width as usize, self.height as usize, l, k);
        assert(self.cells()[r as int] == self.field@[r as int]@);
        self.field[r][c]
    }

    /// Writes the `k`-th cell of line `l`; `empty_count` is left to the caller.
    fn put_line_cell(&mut self, dir: Direction, l: usize, k: usize, x: Cell)
        requires
            old(self).shaped(),
            l < line_count(dir, old(self).width as int, old(self).height as int),
            k < line_len(dir, old(self).width as int, old(self).height as int),
        ensures
            final(self).shaped(),
            line_of(final(self).cells(), dir, final(self).width as int, final(self).height as int, l as int)
                == line_of(old(self).cells(), dir, old(self).width as int, old(self).height as int, l as int).update(k as int, x),
            forall|l2: int| 0 <= l2 < line_count(dir, old(self).width as int, old(self).height as int) && l2 != l ==>
                #[trigger] line_of(final(self).cells(), dir, old(self).width as int, old(self).height as int, l2)
                    == line_of(old(self).cells(), dir, old(self).width as int, old(self).height as int, l2),
            count_grid(final(self).cells()) == count_grid(old(self).cells())
                - empty_weight(line_of(old(self).cells(), dir, old(self).width as int, old(self).height as int, l as int)[k as int])
                + empty_weight(x),
            final(self).width == old(self).width,
            final(self).height == old(self).height,
            final(self).is_run == old(self).is_run,
            final(self).empty_count == old(self).empty_count,
    {
        let (r, c) = position(dir, self.width as usize, self.height as usize, l, k);
        proof {
            let g = self.cells();
            assert forall|i: int| 0 <= i < self.height implies #[trigger] g[i].len() == self.width by {
                assert(g[i] == self.field@[i]@);
            }
            lemma_line_after_set(g, dir, self.width as int, self.height as int, l as int, k as int, x);
        }
        self.put(r, c, x);
    }

    /// One compaction-and-merge scan of line `l` toward its leading edge.
    fn pass_line(&mut self, dir: Direction, l: usize) -> (moved: bool)
        requires
            old(self).wf(),
            l < line_count(dir, old(self).width as int, old(self).height as int),
            forall|k: int| 0 <= k < line_len(dir, old(self).width as int, old(self).height as int) ==>
                doubleable(#[trigger] line_of(old(self).cells(), dir, old(self).width as int, old(self).height as int, l as int)[k]),
        ensures
            final(self).wf(),
            final(self).width == old(self).width,
            final(self).height == old(self).height,
            final(self).is_run == old(self).is_run,
            line_of(final(self).cells(), dir, old(self).width as int, old(self).height as int, l as int)
                == compact(line_of(old(self).cells(), dir, old(self).width as int, old(self).height as int, l as int)),
            forall|l2: int| 0 <= l2 < line_count(dir, old(self).width as int, old(self).height as int) && l2 != l ==>
                #[trigger] line_of(final(self).cells(), dir, old(self).width as int, old(self).height as int, l2)
                    == line_of(old(self).cells(), dir, old(self).width as int, old(self).height as int, l2),
            moved == line_moves(line_of(old(self).cells(), dir, old(self).width as int, old(self).height as int, l as int)),
    {
        let ghost w = self.width as int;
        let ghost h = self.height as int;
        let ghost g0 = self.cells();
        let ghost s0 = line_of(g0, dir, w, h, l as int);
        let n: usize = match dir {
            Direction::Up | Direction::Down => self.height as usize,
            Direction::Left | Direction::Right => self.width as usize,
        };
        let mut d: usize = 0;
        let mut k: usize = 1;
        let mut moved = false;
        while k < n
            invariant
                self.wf(),
                self.width == w,
                self.height == h,
                self.is_run == old(self).is_run,
                n == line_len(dir, w, h),
                l < line_count(dir, w, h),
                d < k <= n,
                pass_from(line_of(self.cells(), dir, w, h, l as int), d as int, k as int).0 == compact(s0),
                (moved || pass_from(line_of(self.cells(), dir, w, h, l as int), d as int, k as int).1) == line_moves(s0),
                forall|i: int| d <= i < n ==> doubleable(#[trigger] line_of(self.cells(), dir, w, h, l as int)[i]),
                forall|i: int| d < i < k ==> #[trigger] line_of(self.cells(), dir, w, h, l as int)[i] is Empty,
                forall|l2: int| 0 <= l2 < line_count(dir, w, h) && l2 != l ==>
                    #[trigger] line_of(self.cells(), dir, w, h, l2) == line_of(g0, dir, w, h, l2),
            decreases n - k,
        {
            let ghost s = line_of(self.cells(), dir, w, h, l as int);
            let ghost d0 = d;
            proof {
                lemma_step_facts(s, d as int, k as int);
                lemma_count_grid_bounds(self.cells(), w);
                assert forall|r: int| 0 <= r < h implies #[trigger] self.cells()[r].len() == w by {
                    assert(self.cells()[r] == self.field@[r]@);
                }
            }
            let a = self.line_cell(dir, l, d);
            let b = self.line_cell(dir, l, k);
            match a {
                Cell::Empty => match b {
                    Cell::Empty => {},
                    Cell::Value(v) => {
                        self.put_line_cell(dir, l, d, Cell::Value(v));
                        self.put_line_cell(dir, l, k, Cell::Empty);
                        moved = true;
                    },
                },
                Cell::Value(x) => match b {
                    Cell::Empty => {},
                    Cell::Value(y) => {
                        if x == y {
                            self.put_line_cell(dir, l, d, Cell::Value(x * 2));
                            self.put_line_cell(dir, l, k, Cell::Empty);
                            proof {
                                lemma_count_grid_bounds(self.cells(), w);
                                assert forall|r: int| 0 <= r < h implies #[trigger] self.cells()[r].len() == w by {
                                    assert(self.cells()[r] == self.field@[r]@);
                                }
                                lemma_count_grid_bounds(self.cells(), w);
                            }
                            self.empty_count = self.empty_count + 1;
                        } else {
                            let t = self.line_cell(dir, l, d + 1);
                            self.put_line_cell(dir, l, d + 1, b);
                            self.put_line_cell(dir, l, k, t);
                            if d + 1 != k {
                                moved = true;
                            }
                        }
                        d = d + 1;
                        moved = moved || x == y;
                    },
                },
            }
            proof {
                assert(line_of(self.cells(), dir, w, h, l as int) =~= step(s, d0 as int, k as int).0);
                assert(d == step(s, d0 as int, k as int).1);
            }
            k = k + 1;
        }
        moved
    }
}

proof fn lemma_count_grid_all_empty(g: Seq<Seq<Cell>>, w: int)
    requires
        w >= 0,
        forall|r: int| 0 <= r < g.len() ==> #[trigger] g[r] == Seq::new(w as nat, |c: int| Cell::Empty),
    ensures
        count_grid(g) == g.len() * w,
    decreases g.len(),
{
    if g.len() > 0 {
        lemma_count_grid_all_empty(g.drop_last(), w);
        lemma_count_all_empty(g.last());
        assert(g.len() * w == (g.len() - 1) * w + w) by (nonlinear_arith);
    }
}

proof fn lemma_count_all_empty(s: Seq<Cell>)
    requires
        forall|i: int| 0 <= i < s.len() ==> #[trigger] s[i] == Cell::Empty,
    ensures
        count_empty(s) == s.len(),
    decreases s.len(),
{
    if s.len() > 0 {
        lemma_count_all_empty(s.drop_last());
    }
}

} // verus!
