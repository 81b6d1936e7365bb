use vstd::prelude::*;
use rand::seq::SliceRandom;
use crate::cell::Cell;
use crate::line::{count_empty, lemma_count_empty_take};
use crate::state::{State, count_grid, lemma_count_grid_take, lemma_count_grid_bounds};

verus! {

/// Relies on `rand::random`: it draws a value from the thread-local
/// generator; nothing is promised of the value.
pub assume_specification<T>[ rand::random::<T> ]() -> (r: T)
    where
        rand::distributions::Standard: rand::distributions::Distribution<T>,
;

/// Relies on rand's `SliceRandom::shuffle` (thread-local generator): it only
/// swaps elements, so the result is a permutation of the input.
#[verifier::external_body]
fn shuffle_spots(v: &mut Vec<(usize, usize)>)
    ensures
        final(v)@.to_multiset() == old(v)@.to_multiset(),
{
    v.shuffle(&mut rand::thread_rng());
}

/// Integer base-2 logarithm, rounded down (0 for 0 and 1).
pub open spec fn log2_floor(n: nat) -> nat
    decreases n,
{
    if n < 2 {
        0
    } else {
        1 + log2_floor(n / 2)
    }
}

/// The most tiles one spawn places on a grid of `cells` cells.
pub open spec fn spawn_bound_of(cells: nat) -> int {
    log2_floor(cells) - 2
}

/// How many tiles a spawn places for a random `roll`.
pub open spec fn spawn_count_of(bound: int, roll: int, empty: int) -> int {
    let want = roll % bound + 1;
    if want < empty {
        want
    } else {
        empty
    }
}

/// The tile a spawn places for a random `roll`.
pub open spec fn tile_of(roll: int) -> Cell {
    if roll % 100 + 1 >= 75 {
        Cell::Value(4)
    } else {
        Cell::Value(2)
    }
}

/// `g2` is `g` with some empty cells filled with a 2 or a 4.
pub open spec fn filled_from(g: Seq<Seq<Cell>>, g2: Seq<Seq<Cell>>, w: int, h: int) -> bool {
    forall|r: int, c: int| 0 <= r < h && 0 <= c < w ==>
        #[trigger] g2[r][c] == g[r][c] || (g[r][c] is Empty && (g2[r][c] == Cell::Value(2) || g2[r][c] == Cell::Value(4)))
}

proof fn lemma_log2_floor_le(n: nat)
    ensures
        log2_floor(n) <= n,
        n >= 4 ==> log2_floor(n) >= 2,
    decreases n,
{
    if n >= 2 {
        lemma_log2_floor_le(n / 2);
    }
}

/// `floor(log2(cells)) - 2`.
pub fn spawn_bound(cells: u32) -> (b: u32)
    requires
        cells >= 4,
    ensures
        b == spawn_bound_of(cells as nat),
{
    proof {
        lemma_log2_floor_le(cells as nat);
    }
    let mut x: u32 = cells;
    let mut r: u32 = 0;
    while x >= 2
        invariant
            x >= 1,
            r + log2_floor(x as nat) == log2_floor(cells as nat),
            log2_floor(cells as nat) <= cells,
        decreases x,
    {
        x = x / 2;
        r = r + 1;
    }
    r - 2
}

/// `min(roll mod bound + 1, empty)`.
pub fn spawn_count(bound: u32, roll: u32, empty: usize) -> (n: usize)
    requires
        bound >= 1,
    ensures
        n == spawn_count_of(bound as int, roll as int, empty as int),
{
    let want: u32 = roll % bound + 1;
    if (want as usize) < empty {
        want as usize
    } else {
        empty
    }
}

/// A 4 when `roll mod 100 + 1 >= 75`, else a 2.
pub fn tile_for_roll(roll: u32) -> (c: Cell)
    ensures
        c == tile_of(roll as int),
{
    if roll % 100 + 1 >= 75 {
        Cell::Value(4)
    } else {
        Cell::Value(2)
    }
}

impl State {
    /// The empty cells, row by row.
    fn empty_spots(&self) -> (spots: Vec<(usize, usize)>)
        requires
            self.wf(),
        ensures
            spots@.len() == self.empty_count,
            spots@.no_duplicates(),
            forall|t: int| 0 <= t < spots@.len() ==> {
                let (r, c) = #[trigger] spots@[t];
                r < self.height && c < self.width && self.cells()[r as int][c as int] is Empty
            },
    {
        let ghost g = self.cells();
        let h = self.height as usize;
        let w = self.width as usize;
        let mut spots: Vec<(usize, usize)> = Vec::new();
        let mut i: usize = 0;
        while i < h
            invariant
                self.wf(),
                g == self.cells(),
                h == self.height,
                w == self.width,
                i <= h,
                spots@.len() == count_grid(g.take(i as int)),
                spots@.no_duplicates(),
                forall|t: int| 0 <= t < spots@.len() ==> {
                    let (r, c) = #[trigger] spots@[t];
                    r < i && c < w && g[r as int][c as int] is Empty
                },
            decreases h - i,
        {
            assert(g[i as int] == self.field@[i as int]@);
            let mut j: usize = 0;
            while j < w
                invariant
                    self.wf(),
                    g == self.cells(),
                    h == self.height,
                    w == self.width,
                    i < h,
                    j <= w,
                    g[i as int] == self.field@[i as int]@,
                    spots@.len() == count_grid(g.take(i as int)) + count_empty(g[i as int].take(j as int)),
                    spots@.no_duplicates(),
                    forall|t: int| 0 <= t < spots@.len() ==> {
                        let (r, c) = #[trigger] spots@[t];
                        (r < i || (r == i && c < j)) && c < w && g[r as int][c as int] is Empty
                    },
                decreases w - j,
            {
                proof {
                    lemma_count_empty_take(g[i as int], j as int);
                }
                if let Cell::Empty = self.field[i][j] {
                    let ghost before = spots@;
                    spots.push((i, j));
                    proof {
                        assert forall|a: int, b: int| 0 <= a < spots@.len() && 0 <= b < spots@.len() && a != b implies
                            spots@[a] != spots@[b] by {
                            if a < before.len() && b < before.len() {
                                assert(before[a] != before[b]);
                            }
                        }
                    }
                }
                j = j + 1;
            }
            proof {
                assert(g[i as int].take(w as int) =~= g[i as int]);
                lemma_count_grid_take(g, i as int);
            }
            i = i + 1;
        }
        assert(g.take(h as int) =~= g);
        spots
    }

    /// Places between one and `floor(log2(width * height)) - 2` new tiles,
    /// each a 2 or a 4, on randomly chosen empty cells.
    pub fn randomize(&mut self)
        requires
            old(self).wf(),
            spawn_bound_of((old(self).width * old(self).height) as nat) >= 1,
        ensures
            final(self).wf(),
            final(self).width == old(self).width,
            final(self).height == old(self).height,
            final(self).is_run == old(self).is_run,
            filled_from(old(self).cells(), final(self).cells(), old(self).width as int, old(self).height as int),
            final(self).empty_count <= old(self).empty_count,
            old(self).empty_count == 0 ==> final(self).empty_count == 0,
            old(self).empty_count > 0 ==> {
                let n = old(self).empty_count - final(self).empty_count;
                &&& 1 <= n
                &&& n <= spawn_bound_of((old(self).width * old(self).height) as nat)
                &&& n <= old(self).empty_count
            },
    {
        let ghost g0 = self.cells();
        let ghost w = self.width as int;
        let ghost h = self.height as int;
        let mut spots = self.empty_spots();
        let ghost before = spots@;
        shuffle_spots(&mut spots);
        proof {
            broadcast use vstd::seq_lib::group_to_multiset_ensures;
            before.lemma_multiset_has_no_duplicates();
            spots@.lemma_multiset_has_no_duplicates_conv();
            assert(spots@.to_multiset().len() == before.to_multiset().len());
            assert(spots@.len() == before.len());
            assert forall|t: int| 0 <= t < spots@.len() implies {
                let (r, c) = #[trigger] spots@[t];
                r < h && c < w && g0[r as int][c as int] is Empty
            } by {
                assert(spots@.contains(spots@[t]));
                assert(spots@.to_multiset().count(spots@[t]) > 0);
                assert(before.contains(spots@[t]));
                let u = choose|u: int| 0 <= u < before.len() && before[u] == spots@[t];
                assert(before[u] == spots@[t]);
            }
        }
        proof {
            let (a, b) = (self.width as int, self.height as int);
            assert(a * b >= 4) by (nonlinear_arith)
                requires a >= 2, b >= 2;
        }
        let bound = spawn_bound(self.width * self.height);
        let n = spawn_count(bound, rand::random::<u32>(), spots.len());
        let mut t: usize = 0;
        while t < n
            invariant
                self.wf(),
                self.width == w,
                self.height == h,
                self.is_run == old(self).is_run,
                n <= spots@.len(),
                t <= n,
                spots@.no_duplicates(),
                self.empty_count == count_grid(g0) - t,
                forall|u: int| t <= u < spots@.len() ==> {
                    let (r, c) = #[trigger] spots@[u];
                    r < h && c < w && self.cells()[r as int][c as int] is Empty
                },
                filled_from(g0, self.cells(), w, h),
            decreases n - t,
        {
            let (r, c) = spots[t];
            let tile = tile_for_roll(rand::random::<u32>());
            let ghost g1 = self.cells();
            assert(spots@[t as int] == (r, c));
            assert(g1[r as int][c as int] is Empty);
            proof {
                assert forall|i: int| 0 <= i < h implies #[trigger] g1[i].len() == w by {
                    assert(g1[i] == self.field@[i]@);
                }
                lemma_count_grid_bounds(g1, w);
            }
            self.put(r, c, tile);
            proof {
                assert forall|u: int| t + 1 <= u < spots@.len() implies {
                    let (r2, c2) = #[trigger] spots@[u];
                    r2 < h && c2 < w && self.cells()[r2 as int][c2 as int] is Empty
                } by {
                    assert(spots@[u] != spots@[t as int]);
                    let (r2, c2) = spots@[u];
                    assert(g1[r2 as int][c2 as int] is Empty);
                }
            }
            self.empty_count = self.empty_count - 1;
            t = t + 1;
        }
        proof {
            lemma_count_grid_bounds(g0, w);
        }
    }
}

} // verus!
