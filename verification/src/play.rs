//! Playing: clicks, lives, the score, and the phases of a game.
//!
//! A game is played level by level. A click on a tile turns it and costs a
//! life. A solved level is won, and the next one is one cell wider and
//! higher. A game without lives is lost until it is started again.

use vstd::prelude::*;
use rand::rngs::SmallRng;
use crate::board::{GameBoard, Phase};
use crate::grid::Tiles;
use crate::level::{fewest_clicks, laid_out};
use crate::maze::{grid_of, is_maze};
use crate::tracker::{all_cells, settled_wf};

verus! {

/// What the timers of the shell tell the board.
#[derive(Clone, Copy, Debug)]
pub enum Tick {
    /// The time of one life has run out.
    LifeOut,
    /// The pause after a win is over; with it come the lives that the next
    /// level adds.
    WinOver(i32),
}

/// What a move of the pointer or a click did, for the shell to show and to
/// play.
#[derive(Clone, Copy, Debug)]
pub struct Feedback {
    /// The cell under the pointer, where no button was pressed.
    pub highlight: Option<usize>,
    /// The cell whose tile was turned.
    pub rotated: Option<usize>,
    /// Whether the click solved the level.
    pub won: bool,
    /// Whether the click took the last life.
    pub lost: bool,
}

/// The cell in column `x` and row `y`, if the board has it.
pub open spec fn cell_at(width: u8, height: u8, x: i32, y: i32) -> Option<int> {
    if 0 <= x < width && 0 <= y < height {
        Some(y * width + x)
    } else {
        None
    }
}

/// The higher of two scores.
pub open spec fn higher(a: int, b: int) -> int {
    if a > b {
        a
    } else {
        b
    }
}

/// The lives left when `value` is added to `life`: never below 0.
pub open spec fn lives_after(life: u32, value: i32) -> int {
    if life + value < 0 {
        0
    } else {
        life + value
    }
}

/// The phase after the lives have changed to `life`: a game that is not
/// won is lost without lives.
pub open spec fn phase_after(phase: Phase, life: u32) -> Phase {
    if life == 0 && phase != Phase::Won {
        Phase::Lost
    } else {
        phase
    }
}

impl GameBoard {
    /// A board without cells, in the first phase of a game, with ten lives.
    pub fn new(rng: SmallRng) -> (board: GameBoard)
        ensures
            board.wf(),
            board.sound_effects,
            board.width == 0,
            board.height == 0,
            board.pipes@.len() == 0,
            board.regions@.len() == 0,
            board.region_id_pool@.len() == 0,
            board.number_regions == 0,
            board.color_pool@.len() == 0,
            board.number_colors == 0,
            board.phase == Phase::Playing,
            board.level == 0,
            board.life == 10,
            board.score == 0,
            board.level_score == 0,
            board.click_count == 0,
            board.expect_min_click_count == 0,
            board.rng == rng,
    {
        let board = GameBoard {
            sound_effects: true,
            width: 0,
            height: 0,
            pipes: Vec::new(),
            regions: Vec::new(),
            region_id_pool: Vec::new(),
            number_regions: 0,
            color_pool: Vec::new(),
            number_colors: 0,
            phase: Phase::Playing,
            level: 0,
            life: 10,
            score: 0,
            level_score: 0,
            click_count: 0,
            expect_min_click_count: 0,
            rng,
        };
        assert(board.traced());
        assert(crate::colors::tinted(
            board.regions@,
            board.colors(),
            board.color_pool@,
            board.number_colors as int,
            crate::colors::cells_upto(board.pipes@.len() as int),
            0,
        ));
        board
    }

    /// Adds `value` lives, or takes them where `value` is negative. A game
    /// left without lives is lost, unless it is won already.
    pub fn add_life(&mut self, value: i32)
        requires
            old(self).life + value <= u32::MAX,
        ensures
            *final(self) == (GameBoard { life: final(self).life, phase: final(self).phase, ..*old(self) }),
            final(self).life == lives_after(old(self).life, value),
            final(self).phase == phase_after(old(self).phase, final(self).life),
    {
        let sum: i64 = self.life as i64 + value as i64;
        self.life = if sum < 0 {
            0
        } else {
            sum as u32
        };
        if self.life == 0 && self.phase != Phase::Won {
            self.trigger_lose();
        }
    }

    /// The game is lost.
    pub fn trigger_lose(&mut self)
        ensures
            *final(self) == (GameBoard { phase: Phase::Lost, ..*old(self) }),
    {
        self.phase = Phase::Lost;
    }

    /// The level is won.
    pub fn trigger_win(&mut self)
        ensures
            *final(self) == (GameBoard { phase: Phase::Won, ..*old(self) }),
    {
        self.phase = Phase::Won;
    }

    /// The board as a click on the cell `i` leaves it: the tile is turned,
    /// clockwise for the right button; the regions and their colours are
    /// brought up to date as `update_regions` does it; the click is
    /// counted; the score of the level is the highest number
    /// of links seen, and what it grows by is added to the score of the
    /// game; a solved level is won; a life is taken, and a game left
    /// without lives that is not won is lost.
    pub open spec fn clicked(&self, after: &GameBoard, i: int, right: bool) -> bool {
        &&& after.width == self.width
        &&& after.height == self.height
        &&& after.pipes@.len() == self.pipes@.len()
        &&& forall|k: int|
            0 <= k < self.pipes@.len() ==> (#[trigger] after.pipes@[k]).kind == self.pipes@[k].kind
                && after.pipes@[k].dir == if k == i {
                self.pipes@[k].clicked(right).dir
            } else {
                self.pipes@[k].dir
            }
        &&& after.click_count == self.click_count + 1
        &&& after.level_score == higher(self.level_score as int, after.tiles().link_count() as int)
        &&& after.score == self.score + (after.level_score - self.level_score)
        &&& after.life == lives_after(self.life, -1i32)
        &&& after.phase == if after.solved() {
            Phase::Won
        } else if after.life == 0 {
            Phase::Lost
        } else {
            Phase::Playing
        }
        &&& after.level == self.level
        &&& after.expect_min_click_count == self.expect_min_click_count
        &&& after.sound_effects == self.sound_effects
        &&& after.rng == self.rng
        &&& after.updated_from(self, i)
    }

    /// Starts a game anew: level 1 on four by four cells, no score, and
    /// `bonus` lives.
    pub fn reset(&mut self, bonus: i32)
        ensures
            final(self).width == 4,
            final(self).height == 4,
            final(self).freshly_traced(),
            final(self).level == 1,
            final(self).score == 0,
            final(self).level_score == 0,
            final(self).click_count == 0,
            final(self).sound_effects == old(self).sound_effects,
            final(self).life == lives_after(0, bonus),
            final(self).phase == phase_after(Phase::Playing, final(self).life),
            exists|maze: Seq<u8>, turns: Seq<u8>|
                {
                    &&& is_maze(grid_of(4, 4, maze))
                    &&& forall|i: int| 0 <= i < turns.len() ==> #[trigger] turns[i] < 4
                    &&& #[trigger] laid_out(final(self).pipes@, maze, turns)
                    &&& final(self).expect_min_click_count == fewest_clicks(turns)
                },
    {
        self.phase = Phase::Playing;
        self.level = 0;
        self.life = 0;
        self.score = 0;
        self.click_count = 0;
        self.new_level(4, 4, bonus);
    }

    /// Takes what the pointer does at column `x` and row `y` of the board:
    /// `pressed` is 0 for a move, 1 for a click of the left button, 2 for
    /// one of the right button. While the game is played, a move over a
    /// cell asks for its highlight, and a click on a cell turns its tile,
    /// counter-clockwise for the left button, and settles what follows from
    /// it. Outside the board, and while the game is won or lost, nothing
    /// happens.
    pub fn mouse_input(&mut self, x: i32, y: i32, pressed: u8) -> (feedback: Feedback)
        requires
            old(self).wf(),
            old(self).click_count < u32::MAX,
            old(self).score + 2 * old(self).pipes@.len() <= u32::MAX,
        ensures
            final(self).wf(),
            final(self).score >= old(self).score,
            final(self).level_score >= old(self).level_score,
            final(self).score - old(self).score == final(self).level_score - old(self).level_score,
            feedback.rotated is Some ==> final(self).level_score == higher(
                old(self).level_score as int,
                final(self).tiles().link_count() as int,
            ),
            old(self).phase != Phase::Playing || cell_at(old(self).width, old(self).height, x, y) is None ==> {
                &&& *final(self) == *old(self)
                &&& feedback.highlight is None
                &&& feedback.rotated is None
                &&& !feedback.won
                &&& !feedback.lost
            },
            old(self).phase == Phase::Playing && cell_at(old(self).width, old(self).height, x, y) is Some
                && pressed == 0 ==> {
                &&& *final(self) == *old(self)
                &&& feedback.highlight == Some(cell_at(old(self).width, old(self).height, x, y)->0 as usize)
                &&& feedback.rotated is None
                &&& !feedback.won
                &&& !feedback.lost
            },
            old(self).phase == Phase::Playing && cell_at(old(self).width, old(self).height, x, y) is Some
                && pressed != 0 ==> {
                &&& old(self).clicked(final(self), cell_at(old(self).width, old(self).height, x, y)->0, pressed != 1)
                &&& feedback.highlight is None
                &&& feedback.rotated == Some(cell_at(old(self).width, old(self).height, x, y)->0 as usize)
                &&& feedback.won == final(self).solved()
                &&& feedback.lost == (final(self).phase == Phase::Lost)
            },
    {
        let idle = Feedback { highlight: None, rotated: None, won: false, lost: false };
        if self.phase != Phase::Playing {
            return idle;
        }
        if !(x >= 0 && x < self.width as i32 && y >= 0 && y < self.height as i32) {
            return idle;
        }
        assert(0 <= y * self.width + x < self.width * self.height) by (nonlinear_arith)
            requires
                0 <= x < self.width,
                0 <= y < self.height,
        ;
        assert(self.width * self.height <= 255 * 255) by (nonlinear_arith)
            requires
                0 <= self.width <= 255,
                0 <= self.height <= 255,
        ;
        let i: usize = y as usize * self.width as usize + x as usize;
        if pressed == 0 {
            return Feedback { highlight: Some(i), rotated: None, won: false, lost: false };
        }
        let ghost before = self.tiles();
        proof {
            self.lemma_tiles_wf();
        }
        self.click_count = self.click_count + 1;
        self.pipes[i].click(pressed != 1);
        proof {
            assert(self.grid_wf());
            self.lemma_tiles_wf();
            let mask = before.masks[i as int];
            assert(self.tiles().with_mask(i as int, mask).masks =~= before.masks);
            assert(all_cells(self.tiles()) =~= all_cells(before));
            assert(settled_wf(
                self.tiles().with_mask(i as int, mask),
                self.regions@,
                self.region_id_pool@,
                self.number_regions as int,
                all_cells(self.tiles()),
            ));
        }
        proof {
            self.lemma_colored_as(old(self));
        }
        let ghost turned = *self;
        self.update_regions(i);
        let ghost updated = *self;
        proof {
            assert(turned.colors() =~= old(self).colors());
            assert(turned.ids() == old(self).ids());
            assert(updated.updated_from(old(self), i as int));
        }
        let new_max = self.count_connections();
        proof {
            self.tiles().lemma_links_bound(self.pipes@.len() as int);
        }
        if new_max > self.level_score {
            self.score = self.score + (new_max - self.level_score);
            self.level_score = new_max;
        }
        let won = self.check_is_done();
        if won {
            self.trigger_win();
        }
        self.add_life(-1);
        proof {
            self.lemma_colored_as(&updated);
            updated.lemma_same_tiles(self);
            assert(self.colors() == updated.colors());
            assert(self.ids() == updated.ids());
        }
        Feedback { highlight: None, rotated: Some(i), won, lost: self.phase == Phase::Lost }
    }

    /// Takes what a timer of the shell tells. When the time of a life has
    /// run out while the game is played, a life is taken. When the pause
    /// after a win is over, the next level starts, one cell wider and
    /// higher, and the game is played again. The result tells whether a
    /// level has started.
    pub fn animate(&mut self, tick: Tick) -> (started: bool)
        requires
            old(self).wf(),
            tick is WinOver && old(self).phase == Phase::Won ==> {
                &&& old(self).width < 255
                &&& old(self).height < 255
                &&& old(self).level < u32::MAX
                &&& old(self).life + tick->WinOver_0 <= u32::MAX
            },
        ensures
            final(self).wf(),
            final(self).score == old(self).score,
            tick is LifeOut && old(self).phase == Phase::Playing ==> {
                &&& *final(self) == (GameBoard { life: final(self).life, phase: final(self).phase, ..*old(self) })
                &&& final(self).life == lives_after(old(self).life, -1i32)
                &&& final(self).phase == phase_after(Phase::Playing, final(self).life)
                &&& !started
            },
            tick is WinOver && old(self).phase == Phase::Won ==> {
                &&& started
                &&& final(self).freshly_traced()
                &&& final(self).width == old(self).width + 1
                &&& final(self).height == old(self).height + 1
                &&& final(self).level == old(self).level + 1
                &&& final(self).level_score == 0
                &&& final(self).click_count == 0
                &&& final(self).score == old(self).score
                &&& final(self).sound_effects == old(self).sound_effects
                &&& final(self).life == lives_after(old(self).life, tick->WinOver_0)
                &&& final(self).phase == phase_after(Phase::Playing, final(self).life)
                &&& exists|maze: Seq<u8>, turns: Seq<u8>|
                    {
                        &&& is_maze(grid_of(final(self).width, final(self).height, maze))
                        &&& forall|i: int| 0 <= i < turns.len() ==> #[trigger] turns[i] < 4
                        &&& #[trigger] laid_out(final(self).pipes@, maze, turns)
                        &&& final(self).expect_min_click_count == fewest_clicks(turns)
                    }
            },
            !(tick is LifeOut && old(self).phase == Phase::Playing) && !(tick is WinOver && old(self).phase
                == Phase::Won) ==> *final(self) == *old(self) && !started,
    {
        match tick {
            Tick::LifeOut => {
                if self.phase == Phase::Playing {
                    self.add_life(-1);
                    proof {
                        self.lemma_colored_as(old(self));
                    }
                }
                false
            },
            Tick::WinOver(bonus) => {
                if self.phase == Phase::Won {
                    self.phase = Phase::Playing;
                    self.new_level(self.width + 1, self.height + 1, bonus);
                    true
                } else {
                    false
                }
            },
        }
    }
}

} // verus!
