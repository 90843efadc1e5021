//! A tile of the board: a connector shape that can be turned in quarter steps.
//!
//! The four sides of a cell are numbered clockwise from the east:
//! 0 is east, 1 is south, 2 is west and 3 is north. A set of sides is a
//! mask of four bits, bit `s` standing for side `s`.

use vstd::prelude::*;

verus! {

/// The kind of a tile with one opening.
pub const KIND_END: u8 = 0;

/// The kind of a tile with two openings on adjacent sides.
pub const KIND_ELBOW: u8 = 1;

/// The kind of a tile with two openings on opposite sides.
pub const KIND_STRAIGHT: u8 = 2;

/// The kind of a tile with three openings.
pub const KIND_TEE: u8 = 3;

/// The kind of a tile with four openings.
pub const KIND_CROSS: u8 = 4;

/// The kind of a tile without any opening.
pub const KIND_BLANK: u8 = 5;

/// Whether `mask` holds the side `side`.
pub open spec fn opens(mask: u8, side: u8) -> bool {
    mask & (1u8 << side) != 0
}

/// The side that faces `side` from the cell next door.
pub open spec fn opposite(side: u8) -> u8 {
    if side < 2 {
        (side + 2) as u8
    } else {
        (side - 2) as u8
    }
}

/// The openings of a shape before it is turned.
pub open spec fn base_mask(kind: u8) -> u8 {
    if kind == KIND_END {
        0b0001
    } else if kind == KIND_ELBOW {
        0b0011
    } else if kind == KIND_STRAIGHT {
        0b0101
    } else if kind == KIND_TEE {
        0b1110
    } else if kind == KIND_CROSS {
        0b1111
    } else {
        0
    }
}

/// A mask of four bits turned clockwise by `turns` quarter steps: the bit
/// of side `s` moves to side `s + turns`, counted modulo four.
pub open spec fn turned(mask: u8, turns: u8) -> u8 {
    ((mask << turns) | (mask >> ((4 - turns) as u8))) & 0x0f
}

/// Turning moves each opening `turns` sides further and keeps the mask
/// within four bits.
pub proof fn lemma_turned(mask: u8, turns: u8, side: u8)
    requires
        mask < 16,
        turns < 4,
        side < 4,
    ensures
        turned(mask, turns) < 16,
        opens(turned(mask, turns), side) == opens(mask, ((side + 4 - turns) % 4) as u8),
{
    assert(((mask << turns) | (mask >> ((4 - turns) as u8))) & 0x0f < 16) by (bit_vector)
        requires
            mask < 16,
            turns < 4,
    ;
    assert((((mask << turns) | (mask >> ((4 - turns) as u8))) & 0x0f) & (1u8 << side) != 0 <==> mask
        & (1u8 << (((side + 4 - turns) % 4) as u8)) != 0) by (bit_vector)
        requires
            mask < 16,
            turns < 4,
            side < 4,
    ;
}

/// A tile: its shape, how far it is turned, and the colour it is heading for.
#[derive(Clone, Copy, Debug)]
pub struct Pipe {
    /// Quarter turns clockwise from the shape's base position, below four.
    pub dir: u8,
    /// The shape, one of the `KIND_` constants.
    pub kind: u8,
    /// The colour that the tile is shown in once its fade has ended.
    pub target_color: u16,
}

impl Pipe {
    /// A tile is well formed when it is turned by fewer than four steps.
    pub open spec fn wf(self) -> bool {
        self.dir < 4
    }

    /// The open sides of the tile as it lies: the shape's openings turned
    /// by `dir`.
    pub open spec fn mask(self) -> u8 {
        turned(base_mask(self.kind), self.dir)
    }

    /// The tile after one click: a quarter turn clockwise for the right
    /// button, counter-clockwise for the left one.
    pub open spec fn clicked(self, right: bool) -> Pipe {
        Pipe {
            dir: if right {
                ((self.dir + 1) % 4) as u8
            } else {
                ((self.dir + 3) % 4) as u8
            },
            kind: self.kind,
            target_color: self.target_color,
        }
    }

    /// A tile of the given shape, turned by `dir` modulo four, with colour 0
    /// as its target.
    pub fn new(kind: u8, dir: u8) -> (pipe: Pipe)
        ensures
            pipe.kind == kind,
            pipe.dir == dir % 4,
            pipe.target_color == 0,
            pipe.wf(),
    {
        Pipe { dir: dir % 4, kind, target_color: 0 }
    }

    /// The mask of the open sides.
    pub fn open_sides(&self) -> (mask: u8)
        requires
            self.wf(),
        ensures
            mask == self.mask(),
            mask < 16,
    {
        let base: u8 = if self.kind == KIND_END {
            0b0001
        } else if self.kind == KIND_ELBOW {
            0b0011
        } else if self.kind == KIND_STRAIGHT {
            0b0101
        } else if self.kind == KIND_TEE {
            0b1110
        } else if self.kind == KIND_CROSS {
            0b1111
        } else {
            0
        };
        proof {
            lemma_turned(base, self.dir, 0);
        }
        turn_mask(base, self.dir)
    }

    /// Whether the tile is open towards `side`.
    pub fn connects_towards(&self, side: u8) -> (open: bool)
        requires
            self.wf(),
            side < 4,
        ensures
            open == opens(self.mask(), side),
    {
        mask_opens(self.open_sides(), side)
    }

    /// Whether the tile and `other`, the tile next door on `side`, are open
    /// towards each other.
    pub fn shares_edge_with(&self, other: &Pipe, side: u8) -> (shared: bool)
        requires
            self.wf(),
            other.wf(),
            side < 4,
        ensures
            shared == (opens(self.mask(), side) && opens(other.mask(), opposite(side))),
    {
        self.connects_towards(side) && other.connects_towards(opposite_side(side))
    }

    /// Turns the tile by a quarter: clockwise when `right` is set,
    /// counter-clockwise otherwise. Shape and colour stay.
    pub fn click(&mut self, right: bool)
        requires
            old(self).wf(),
        ensures
            *final(self) == old(self).clicked(right),
            final(self).wf(),
    {
        if right {
            self.dir = (self.dir + 1) % 4;
        } else {
            self.dir = (self.dir + 4 - 1) % 4;
        }
    }

    /// Sets the colour that the tile heads for, and tells whether it
    /// differs from the one before.
    pub fn change_color(&mut self, target: u16) -> (changed: bool)
        ensures
            final(self).target_color == target,
            final(self).kind == old(self).kind,
            final(self).dir == old(self).dir,
            changed == (target != old(self).target_color),
    {
        let changed = target != self.target_color;
        self.target_color = target;
        changed
    }
}

/// The mask turned clockwise by `turns` quarter steps.
pub fn turn_mask(mask: u8, turns: u8) -> (out: u8)
    requires
        mask < 16,
        turns < 4,
    ensures
        out == turned(mask, turns),
        out < 16,
{
    proof {
        lemma_turned(mask, turns, 0);
        assert((mask << turns) < 128) by (bit_vector)
            requires
                mask < 16,
                turns < 4,
        ;
    }
    ((mask << turns) | (mask >> (4 - turns))) & 0x0f
}

/// Whether `mask` holds `side`.
pub fn mask_opens(mask: u8, side: u8) -> (open: bool)
    requires
        side < 4,
    ensures
        open == opens(mask, side),
{
    mask & (1u8 << side) != 0
}

/// The side that faces `side` from the cell next door.
pub fn opposite_side(side: u8) -> (other: u8)
    requires
        side < 4,
    ensures
        other == opposite(side),
        other < 4,
{
    if side < 2 {
        side + 2
    } else {
        side - 2
    }
}

} // verus!
