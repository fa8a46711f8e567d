//! Packed color + parent-relation byte for red-black tree nodes.
//!
//! A node's color (red or black) and its relation to its parent (left child,
//! right child, or root) are packed into one byte: the two low bits hold the
//! relation and bit two holds the color. The raw bit layout is an internal
//! compact-representation detail; the accessors below are the interface.

use vstd::prelude::*;

verus! {

/// Relation bits: the node is its parent's left child.
pub const LEFT: u8 = 0b00;

/// Relation bits: the node is its parent's right child.
pub const RIGHT: u8 = 0b01;

/// Relation bits: the node is the root and has no parent.
pub const ROOT: u8 = 0b10;

/// Color bit pattern for a red node.
pub const RED: u8 = 0b000;

/// Color bit pattern for a black node.
pub const BLACK: u8 = 0b100;

/// Which child slot a node occupies under its parent, or `ROOT` if it has none.
#[derive(Clone, Copy, PartialEq, Eq, Structural)]
pub enum Rela {
    LEFT,
    RIGHT,
    ROOT,
}

/// A node's color in the red-black discipline.
#[derive(Clone, Copy, PartialEq, Eq, Structural)]
pub enum Color {
    RED,
    BLACK,
}

impl Color {
    /// The bit pattern of this color inside a packed flag byte.
    pub open spec fn spec_u8(self) -> u8 {
        match self {
            Color::RED => RED,
            Color::BLACK => BLACK,
        }
    }

    /// Returns the bit pattern of this color inside a packed flag byte.
    pub fn as_u8(&self) -> (r: u8)
        ensures
            r == self.spec_u8(),
    {
        match self {
            Color::RED => RED,
            Color::BLACK => BLACK,
        }
    }
}

/// The packed color + relation byte of one node.
#[derive(Clone, Copy)]
pub struct Flag {
    pub flag: u8,
}

impl Flag {
    /// The color encoded in the byte.
    pub open spec fn spec_color(self) -> Color {
        if self.flag & 0b100 == 0 {
            Color::RED
        } else {
            Color::BLACK
        }
    }

    /// The relation bits encoded in the byte.
    pub open spec fn spec_rela(self) -> u8 {
        self.flag & 0b11
    }

    /// Returns true iff the encoded color is red.
    #[inline(always)]
    pub fn is_red(&self) -> (r: bool)
        ensures
            r == (self.spec_color() == Color::RED),
    {
        self.flag & 0b100 == RED
    }

    /// Returns true iff the encoded color is black.
    #[inline(always)]
    pub fn is_black(&self) -> (r: bool)
        ensures
            r == (self.spec_color() == Color::BLACK),
    {
        proof {
            let f = self.flag;
            assert(f & 0b100 == 0 || f & 0b100 == 0b100) by (bit_vector);
        }
        self.flag & 0b100 == BLACK
    }

    /// Returns true iff the relation bits mark the node as the root.
    #[inline(always)]
    pub fn is_root(&self) -> (r: bool)
        ensures
            r == (self.spec_rela() & 0b10 == 0b10),
    {
        proof {
            let f = self.flag;
            assert((f & 0b11) & 0b10 == f & 0b10) by (bit_vector);
        }
        self.flag & 0b10 == ROOT
    }

    /// Returns true iff the node is its parent's left child.
    #[inline(always)]
    pub fn is_left(&self) -> (r: bool)
        ensures
            r == (self.spec_rela() == LEFT),
    {
        self.flag & 0b11 == LEFT
    }

    /// Returns true iff the node is its parent's right child.
    #[inline(always)]
    pub fn is_right(&self) -> (r: bool)
        ensures
            r == (self.spec_rela() == RIGHT),
    {
        self.flag & 0b11 == RIGHT
    }

    /// Overwrites the relation bits, keeping the color.
    #[inline(always)]
    pub fn set_rela(&mut self, rela: u8)
        requires
            rela == LEFT || rela == RIGHT || rela == ROOT,
        ensures
            final(self).spec_rela() == rela,
            final(self).spec_color() == old(self).spec_color(),
    {
        proof {
            let f = self.flag;
            let r = rela;
            assert(r <= 3 ==> ((f & 0b11111100) | r) & 0b11 == r) by (bit_vector);
            assert(((f & 0b11111100) | r) & 0b100 == (f & 0b100) || r > 3) by (bit_vector);
        }
        self.flag = (self.flag & 0b11111100) | rela;
    }

    /// Overwrites the color bit, keeping the relation.
    #[inline(always)]
    pub fn set_color(&mut self, color: Color)
        ensures
            final(self).spec_color() == color,
            final(self).spec_rela() == old(self).spec_rela(),
    {
        proof {
            let f = self.flag;
            let c = color.spec_u8();
            assert((c == 0 || c == 4) ==> ((f & 0b11111011) | c) & 0b100 == c) by (bit_vector);
            assert((c == 0 || c == 4) ==> ((f & 0b11111011) | c) & 0b11 == f & 0b11) by (bit_vector);
        }
        self.flag = (self.flag & 0b11111011) | color.as_u8();
    }

    /// Colors the node red, keeping the relation.
    #[inline(always)]
    pub fn set_red(&mut self)
        ensures
            final(self).spec_color() == Color::RED,
            final(self).spec_rela() == old(self).spec_rela(),
    {
        proof {
            let f = self.flag;
            assert(((f & 0b11111011) | 0) & 0b100 == 0) by (bit_vector);
            assert(((f & 0b11111011) | 0) & 0b11 == f & 0b11) by (bit_vector);
        }
        self.flag = (self.flag & 0b11111011) | RED;
    }

    /// Colors the node black, keeping the relation.
    #[inline(always)]
    pub fn set_black(&mut self)
        ensures
            final(self).spec_color() == Color::BLACK,
            final(self).spec_rela() == old(self).spec_rela(),
    {
        proof {
            let f = self.flag;
            assert(((f & 0b11111011) | 0b100) & 0b100 == 0b100) by (bit_vector);
            assert(((f & 0b11111011) | 0b100) & 0b11 == f & 0b11) by (bit_vector);
        }
        self.flag = (self.flag & 0b11111011) | BLACK;
    }

    /// Marks the node as the root; the root is always colored black.
    #[inline(always)]
    pub fn set_root(&mut self)
        ensures
            final(self).spec_rela() == ROOT,
            final(self).spec_color() == Color::BLACK,
    {
        proof {
            let f = self.flag;
            assert(((f & 0b11111000) | 0b10 | 0b100) & 0b11 == 0b10) by (bit_vector);
            assert(((f & 0b11111000) | 0b10 | 0b100) & 0b100 == 0b100) by (bit_vector);
        }
        self.flag = (self.flag & 0b11111000) | ROOT | BLACK;
    }

    /// Clears the root mark, leaving a root-marked node as a left child;
    /// color and a left or right relation are unchanged.
    #[inline(always)]
    pub fn clear_root(&mut self)
        ensures
            final(self).spec_rela() == old(self).spec_rela() & 0b01,
            final(self).spec_color() == old(self).spec_color(),
    {
        proof {
            let f = self.flag;
            assert((f & !2u8) & 0b11 == (f & 0b11) & 0b01) by (bit_vector);
            assert((f & !2u8) & 0b100 == f & 0b100) by (bit_vector);
        }
        self.flag = self.flag & !ROOT;
    }

    /// Returns the relation bits.
    #[inline(always)]
    pub fn rela(&self) -> (r: u8)
        ensures
            r == self.spec_rela(),
    {
        self.flag & 0b11
    }

    /// Returns the encoded color.
    #[inline(always)]
    pub fn color(&self) -> (r: Color)
        ensures
            r == self.spec_color(),
    {
        proof {
            let f = self.flag;
            assert(f & 0b100 == 0 || f & 0b100 == 0b100) by (bit_vector);
        }
        if self.flag & 0b100 == RED {
            Color::RED
        } else {
            Color::BLACK
        }
    }
}

/// The other child slot: left for right, right for left, root unchanged.
pub open spec fn spec_toggle_rela(rela: u8) -> u8 {
    if rela == LEFT {
        RIGHT
    } else if rela == RIGHT {
        LEFT
    } else {
        rela
    }
}

/// Swaps the left and right relations; the root relation is its own opposite.
pub fn toggle_rela(rela: u8) -> (r: u8)
    requires
        rela == LEFT || rela == RIGHT || rela == ROOT,
    ensures
        r == spec_toggle_rela(rela),
{
    if rela == LEFT {
        RIGHT
    } else if rela == RIGHT {
        LEFT
    } else {
        ROOT
    }
}

} // verus!
