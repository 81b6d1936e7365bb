use vstd::prelude::*;
use crate::cell::{Cell, Direction};
use crate::state::{State, moved_grid, grid_moves, has_2048, is_lost, all_doubleable};
use crate::spawn::{spawn_bound_of, filled_from};
use crate::laws::lemma_repeat_unmoved;

verus! {

/// What one turn of play came to.
#[derive(Clone, Copy, PartialEq, Eq, Structural, Debug)]
pub enum Turn {
    /// The move altered nothing; no tile was spawned.
    Unmoved,
    /// The move made a 2048 tile.
    Won,
    /// New tiles were spawned and no move is left.
    Lost,
    /// New tiles were spawned and play goes on.
    Going,
}

impl State {
    /// Plays one turn: moves toward `direction`; if that altered the grid,
    /// reports a win, or else spawns tiles and reports whether the game is
    /// lost. A won or lost game stops running.
    pub fn play_turn(&mut self, direction: Direction) -> (t: Turn)
        requires
            old(self).wf(),
            all_doubleable(old(self).cells(), old(self).width as int, old(self).height as int),
            spawn_bound_of((old(self).width * old(self).height) as nat) >= 1,
        ensures
            final(self).wf(),
            final(self).width == old(self).width,
            final(self).height == old(self).height,
            (t == Turn::Unmoved) == !grid_moves(old(self).cells(), direction, old(self).width as int, old(self).height as int),
            t == Turn::Unmoved ==> final(self).cells() == old(self).cells() && final(self).is_run == old(self).is_run,
            t == Turn::Won ==> {
                &&& moved_grid(old(self).cells(), final(self).cells(), direction, old(self).width as int, old(self).height as int)
                &&& has_2048(final(self).cells(), old(self).width as int, old(self).height as int)
                &&& !final(self).is_run
            },
            t == Turn::Lost || t == Turn::Going ==> exists|mid: Seq<Seq<Cell>>|
                #[trigger] moved_grid(old(self).cells(), mid, direction, old(self).width as int, old(self).height as int)
                && !has_2048(mid, old(self).width as int, old(self).height as int)
                && filled_from(mid, final(self).cells(), old(self).width as int, old(self).height as int),
            t == Turn::Lost ==> is_lost(final(self).cells(), old(self).width as int, old(self).height as int) && !final(self).is_run,
            t == Turn::Going ==> !is_lost(final(self).cells(), old(self).width as int, old(self).height as int) && final(self).is_run,
    {
        let ghost g0 = self.cells();
        let ghost w = self.width as int;
        let ghost h = self.height as int;
        let moved = self.move_to(direction);
        if !moved {
            proof {
                assert forall|r: int| 0 <= r < h implies #[trigger] g0[r].len() == w by {
                    assert(g0[r] == old(self).field@[r]@);
                }
                assert forall|r: int| 0 <= r < h implies #[trigger] self.cells()[r].len() == w by {
                    assert(self.cells()[r] == self.field@[r]@);
                }
                lemma_repeat_unmoved(g0, self.cells(), direction, w, h);
            }
            return Turn::Unmoved;
        }
        if self.check_win() {
            self.is_run = false;
            return Turn::Won;
        }
        let ghost mid = self.cells();
        self.randomize();
        assert(moved_grid(g0, mid, direction, w, h));
        if self.check_lose() {
            self.is_run = false;
            Turn::Lost
        } else {
            self.is_run = true;
            Turn::Going
        }
    }
}

} // verus!
