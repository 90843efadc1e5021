//! Starting a level: from a maze to a board of turned tiles.
//!
//! Each cell of the maze becomes the tile whose openings, in its base
//! position or turned, are those of the cell. Then every tile is turned
//! by a random number of quarter steps, and the player has to turn them
//! back.

use vstd::prelude::*;
use rand::rngs::SmallRng;
use crate::board::{GameBoard, Phase};
use crate::maze::{grid_of, is_maze};
use crate::pipe::{
    base_mask, turned, Pipe, KIND_BLANK, KIND_CROSS, KIND_ELBOW, KIND_END, KIND_STRAIGHT, KIND_TEE,
};
use crate::random::gen_range;

verus! {

/// The shape and the turn of the tile that has the open sides `mask`. A
/// mask without openings, or one that is no mask of four bits, gives the
/// blank tile.
pub open spec fn shape_spec(mask: u8) -> (u8, u8) {
    if mask == 0b0001 {
        (KIND_END, 0)
    } else if mask == 0b0010 {
        (KIND_END, 1)
    } else if mask == 0b0100 {
        (KIND_END, 2)
    } else if mask == 0b1000 {
        (KIND_END, 3)
    } else if mask == 0b0011 {
        (KIND_ELBOW, 0)
    } else if mask == 0b0110 {
        (KIND_ELBOW, 1)
    } else if mask == 0b1100 {
        (KIND_ELBOW, 2)
    } else if mask == 0b1001 {
        (KIND_ELBOW, 3)
    } else if mask == 0b0101 {
        (KIND_STRAIGHT, 0)
    } else if mask == 0b1010 {
        (KIND_STRAIGHT, 1)
    } else if mask == 0b1110 {
        (KIND_TEE, 0)
    } else if mask == 0b1101 {
        (KIND_TEE, 1)
    } else if mask == 0b1011 {
        (KIND_TEE, 2)
    } else if mask == 0b0111 {
        (KIND_TEE, 3)
    } else if mask == 0b1111 {
        (KIND_CROSS, 0)
    } else {
        (KIND_BLANK, 0)
    }
}

/// The tile for a mask of four bits has the open sides of the mask.
pub proof fn lemma_shape(mask: u8)
    requires
        mask < 16,
    ensures
        shape_spec(mask).1 < 4,
        turned(base_mask(shape_spec(mask).0), shape_spec(mask).1) == mask,
{
    assert(forall|m: u8, t: u8|
        m < 16 && t < 4 ==> #[trigger] turned(m, t) == ((m << t) | (m >> ((4 - t) as u8))) & 0x0f);
    assert(((1u8 << 0u8) | (1u8 >> 4u8)) & 0x0f == 1 && ((1u8 << 1u8) | (1u8 >> 3u8)) & 0x0f == 2 && ((1u8
        << 2u8) | (1u8 >> 2u8)) & 0x0f == 4 && ((1u8 << 3u8) | (1u8 >> 1u8)) & 0x0f == 8) by (bit_vector);
    assert(((3u8 << 0u8) | (3u8 >> 4u8)) & 0x0f == 3 && ((3u8 << 1u8) | (3u8 >> 3u8)) & 0x0f == 6 && ((3u8
        << 2u8) | (3u8 >> 2u8)) & 0x0f == 12 && ((3u8 << 3u8) | (3u8 >> 1u8)) & 0x0f == 9) by (bit_vector);
    assert(((5u8 << 0u8) | (5u8 >> 4u8)) & 0x0f == 5 && ((5u8 << 1u8) | (5u8 >> 3u8)) & 0x0f == 10) by (bit_vector);
    assert(((14u8 << 0u8) | (14u8 >> 4u8)) & 0x0f == 14 && ((14u8 << 1u8) | (14u8 >> 3u8)) & 0x0f == 13
        && ((14u8 << 2u8) | (14u8 >> 2u8)) & 0x0f == 11 && ((14u8 << 3u8) | (14u8 >> 1u8)) & 0x0f == 7) by (bit_vector);
    assert(((15u8 << 0u8) | (15u8 >> 4u8)) & 0x0f == 15 && ((0u8 << 0u8) | (0u8 >> 4u8)) & 0x0f == 0) by (bit_vector);
}

/// The shape and the turn of the tile that has the open sides `mask`.
pub fn shape_of(mask: u8) -> (shape: (u8, u8))
    ensures
        shape == shape_spec(mask),
        shape.1 < 4,
{
    if mask == 0b0001 {
        (KIND_END, 0)
    } else if mask == 0b0010 {
        (KIND_END, 1)
    } else if mask == 0b0100 {
        (KIND_END, 2)
    } else if mask == 0b1000 {
        (KIND_END, 3)
    } else if mask == 0b0011 {
        (KIND_ELBOW, 0)
    } else if mask == 0b0110 {
        (KIND_ELBOW, 1)
    } else if mask == 0b1100 {
        (KIND_ELBOW, 2)
    } else if mask == 0b1001 {
        (KIND_ELBOW, 3)
    } else if mask == 0b0101 {
        (KIND_STRAIGHT, 0)
    } else if mask == 0b1010 {
        (KIND_STRAIGHT, 1)
    } else if mask == 0b1110 {
        (KIND_TEE, 0)
    } else if mask == 0b1101 {
        (KIND_TEE, 1)
    } else if mask == 0b1011 {
        (KIND_TEE, 2)
    } else if mask == 0b0111 {
        (KIND_TEE, 3)
    } else if mask == 0b1111 {
        (KIND_CROSS, 0)
    } else {
        (KIND_BLANK, 0)
    }
}

/// The fewest clicks that bring back tiles turned by `turns`: a tile
/// turned by three steps is one click away.
pub open spec fn fewest_clicks(turns: Seq<u8>) -> int
    decreases turns.len(),
{
    if turns.len() == 0 {
        0
    } else {
        fewest_clicks(turns.drop_last()) + if turns.last() <= 2 {
            turns.last() as int
        } else {
            4 - turns.last()
        }
    }
}

/// Whether `pipes` are the tiles of the maze `maze`, each turned on by its
/// entry of `turns`, and heading for colour 0.
pub open spec fn laid_out(pipes: Seq<Pipe>, maze: Seq<u8>, turns: Seq<u8>) -> bool {
    &&& pipes.len() == maze.len()
    &&& turns.len() == maze.len()
    &&& forall|i: int|
        0 <= i < maze.len() ==> (#[trigger] pipes[i]).kind == shape_spec(maze[i]).0 && pipes[i].dir == (
        shape_spec(maze[i]).1 + turns[i]) % 4
}

/// Draws for each of `cells` tiles by how many quarter steps it is turned.
pub fn random_turns(cells: usize, rng: &mut SmallRng) -> (turns: Vec<u8>)
    ensures
        turns@.len() == cells,
        forall|i: int| 0 <= i < cells ==> #[trigger] turns@[i] < 4,
{
    let mut turns: Vec<u8> = Vec::new();
    let mut i: usize = 0;
    while i < cells
        invariant
            i <= cells,
            turns@.len() == i,
            forall|k: int| 0 <= k < i ==> #[trigger] turns@[k] < 4,
        decreases cells - i,
    {
        let diff = gen_range(rng, 0, 4);
        turns.push(diff as u8);
        i = i + 1;
    }
    turns
}

impl GameBoard {
    /// Lays out a level: the board takes the size given and the tiles of
    /// `maze`, each turned on by its entry of `turns`; the regions are
    /// traced; the level counts one up, and its score and clicks start at 0.
    pub fn load_level(&mut self, width: u8, height: u8, maze: &Vec<u8>, turns: &Vec<u8>)
        requires
            maze@.len() == width * height,
            turns@.len() == maze@.len(),
            forall|i: int| 0 <= i < turns@.len() ==> #[trigger] turns@[i] < 4,
            old(self).level < u32::MAX,
        ensures
            final(self).width == width,
            final(self).height == height,
            laid_out(final(self).pipes@, maze@, turns@),
            final(self).level == old(self).level + 1,
            final(self).level_score == 0,
            final(self).click_count == 0,
            final(self).expect_min_click_count == fewest_clicks(turns@),
            final(self).score == old(self).score,
            final(self).life == old(self).life,
            final(self).phase == old(self).phase,
            final(self).sound_effects == old(self).sound_effects,
            final(self).rng == old(self).rng,
            final(self).freshly_traced(),
    {
        assert(width * height <= 255 * 255) by (nonlinear_arith)
            requires
                0 <= width <= 255,
                0 <= height <= 255,
        ;
        self.width = width;
        self.height = height;
        self.pipes = Vec::with_capacity(maze.len());
        self.click_count = 0;
        self.level = self.level + 1;
        self.level_score = 0;
        let mut total_diff: u32 = 0;
        let mut i: usize = 0;
        while i < maze.len()
            invariant
                i <= maze@.len(),
                turns@.len() == maze@.len(),
                maze@.len() <= 65025,
                forall|k: int| 0 <= k < turns@.len() ==> #[trigger] turns@[k] < 4,
                *self == (GameBoard { pipes: self.pipes, ..*self }),
                self.width == width,
                self.height == height,
                self.level == old(self).level + 1,
                self.level_score == 0,
                self.click_count == 0,
                self.score == old(self).score,
                self.life == old(self).life,
                self.phase == old(self).phase,
                self.sound_effects == old(self).sound_effects,
                self.rng == old(self).rng,
                self.pipes@.len() == i,
                forall|k: int| 0 <= k < i ==> (#[trigger] self.pipes@[k]).wf(),
                laid_out(self.pipes@, maze@.take(i as int), turns@.take(i as int)),
                total_diff == fewest_clicks(turns@.take(i as int)),
                total_diff <= 2 * i,
            decreases maze@.len() - i,
        {
            let (kind, dir) = shape_of(maze[i]);
            let diff = turns[i];
            total_diff = total_diff + if diff <= 2 {
                diff as u32
            } else {
                4 - diff as u32
            };
            self.pipes.push(Pipe::new(kind, (dir + diff) % 4));
            proof {
                assert(turns@.take(i + 1).drop_last() =~= turns@.take(i as int));
                assert(maze@.take(i + 1).drop_last() =~= maze@.take(i as int));
            }
            i = i + 1;
        }
        proof {
            assert(turns@.take(maze@.len() as int) =~= turns@);
            assert(maze@.take(maze@.len() as int) =~= maze@);
        }
        self.expect_min_click_count = total_diff;
        let ghost laid = self.pipes@;
        self.trace_regions();
        proof {
            assert forall|k: int| 0 <= k < maze@.len() implies (#[trigger] self.pipes@[k]).kind
                == shape_spec(maze@[k]).0 && self.pipes@[k].dir == (shape_spec(maze@[k]).1 + turns@[k]) % 4 by {
                assert(laid[k].kind == shape_spec(maze@[k]).0);
            }
        }
    }

    /// Starts a level of `width` times `height` cells: makes a maze, turns
    /// its tiles at random, lays them out, and adds `bonus` lives.
    pub fn new_level(&mut self, width: u8, height: u8, bonus: i32)
        requires
            width >= 1,
            height >= 1,
            old(self).level < u32::MAX,
            old(self).life + bonus <= u32::MAX,
        ensures
            final(self).width == width,
            final(self).height == height,
            final(self).freshly_traced(),
            final(self).level == old(self).level + 1,
            final(self).level_score == 0,
            final(self).click_count == 0,
            final(self).score == old(self).score,
            final(self).sound_effects == old(self).sound_effects,
            final(self).life == crate::play::lives_after(old(self).life, bonus),
            final(self).phase == crate::play::phase_after(old(self).phase, final(self).life),
            exists|maze: Seq<u8>, turns: Seq<u8>|
                {
                    &&& is_maze(grid_of(width, height, maze))
                    &&& forall|i: int| 0 <= i < turns.len() ==> #[trigger] turns[i] < 4
                    &&& #[trigger] laid_out(final(self).pipes@, maze, turns)
                    &&& final(self).expect_min_click_count == fewest_clicks(turns)
                },
    {
        assert(width * height <= 255 * 255) by (nonlinear_arith)
            requires
                0 <= width <= 255,
                0 <= height <= 255,
        ;
        let maze = GameBoard::gen_maze(width, height, &mut self.rng);
        let turns = random_turns(maze.len(), &mut self.rng);
        self.load_level(width, height, &maze, &turns);
        let ghost laid = *self;
        self.add_life(bonus);
        proof {
            assert(laid_out(self.pipes@, maze@, turns@));
            self.lemma_colored_as(&laid);
            self.lemma_same_tiles(&laid);
        }
    }
}

} // verus!
