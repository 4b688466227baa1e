//! Saturating grid coordinates.
//!
//! A coordinate is a [`Bounded`]: either a valid `usize` or a distinguished
//! `Invalid` value that poisons further arithmetic.  A [`Location`] is a pair
//! of such coordinates; neighbours of an edge cell are emitted with `Invalid`
//! coordinates so that a lookup can filter them out.

use vstd::prelude::*;

verus! {

/// A non-negative coordinate, or `Invalid` when an operation under- or
/// overflowed.  `Invalid` propagates through all arithmetic.
#[derive(Clone, Copy, Debug, PartialEq, Eq, Hash, Structural)]
pub enum Bounded {
    Invalid,
    Valid(usize),
}

/// The checked operations that [`Bounded::op`] applies.
#[derive(Clone, Copy, Debug, PartialEq, Eq, Hash, Structural)]
pub enum BoundedOp {
    CheckedAdd,
    CheckedSub,
    CheckedMul,
}

/// What [`Bounded::op`] returns: checked arithmetic on two valid coordinates,
/// `Invalid` as soon as either side is `Invalid` or the operation leaves
/// `0..=usize::MAX`.
pub open spec fn spec_bounded_op(lhs: Bounded, rhs: Bounded, operation: BoundedOp) -> Bounded {
    match (lhs, rhs) {
        (Bounded::Valid(a), Bounded::Valid(b)) => match operation {
            BoundedOp::CheckedAdd => if a + b <= usize::MAX {
                Bounded::Valid((a + b) as usize)
            } else {
                Bounded::Invalid
            },
            BoundedOp::CheckedSub => if a >= b {
                Bounded::Valid((a - b) as usize)
            } else {
                Bounded::Invalid
            },
            BoundedOp::CheckedMul => if a * b <= usize::MAX {
                Bounded::Valid((a * b) as usize)
            } else {
                Bounded::Invalid
            },
        },
        _ => Bounded::Invalid,
    }
}

impl Default for Bounded {
    fn default() -> (r: Self)
        ensures
            r == Bounded::Invalid,
    {
        Self::Invalid
    }
}

impl Bounded {
    /// Applies a checked operation; any `Invalid` operand or out-of-range
    /// result yields `Invalid`.
    pub fn op(self, other: Self, operation: BoundedOp) -> (r: Self)
        ensures
            r == spec_bounded_op(self, other, operation),
    {
        match (self, other) {
            (Bounded::Valid(lhs), Bounded::Valid(rhs)) => match operation {
                BoundedOp::CheckedAdd => match lhs.checked_add(rhs) {
                    Some(v) => Bounded::Valid(v),
                    None => Bounded::Invalid,
                },
                BoundedOp::CheckedSub => match lhs.checked_sub(rhs) {
                    Some(v) => Bounded::Valid(v),
                    None => Bounded::Invalid,
                },
                BoundedOp::CheckedMul => match lhs.checked_mul(rhs) {
                    Some(v) => Bounded::Valid(v),
                    None => Bounded::Invalid,
                },
            },
            _ => Bounded::Invalid,
        }
    }

    /// Returns `true` if the bounded is [`Bounded::Invalid`].
    pub fn is_invalid(&self) -> (r: bool)
        ensures
            r == (*self is Invalid),
    {
        matches!(self, Self::Invalid)
    }
}

/// A pair of saturating coordinates; `x` grows to the right and `y` downward.
#[derive(Clone, Copy, Debug, PartialEq, Eq, Hash, Structural)]
pub struct Location {
    pub x: Bounded,
    pub y: Bounded,
}

/// The four single-step moves used to enumerate Moore neighbours.
#[derive(Clone, Copy, Debug, PartialEq, Eq, Structural)]
pub enum Direction {
    Left,
    Right,
    Up,
    Down,
}

/// Both coordinates are valid and lie inside a `width` x `height` grid.
pub open spec fn loc_in_grid(l: Location, width: int, height: int) -> bool {
    &&& l.x matches Bounded::Valid(x) && x < width
    &&& l.y matches Bounded::Valid(y) && y < height
}

/// The flat row-major index of a location inside a grid of the given width,
/// when both coordinates are valid, `x` is below the width and the product
/// fits a `usize`; `None` otherwise.
pub open spec fn spec_to_index(l: Location, width: int) -> Option<int> {
    match (l.x, l.y) {
        (Bounded::Valid(x), Bounded::Valid(y)) => if x < width && y * width + x
            <= usize::MAX {
            Some(y * width + x)
        } else {
            None
        },
        _ => None,
    }
}

/// The location with row-major index `index` in a grid of the given width.
pub open spec fn spec_from_index(index: int, width: int) -> Location
    recommends
        width >= 1,
        index >= 0,
{
    Location {
        x: Bounded::Valid((index % width) as usize),
        y: Bounded::Valid((index / width) as usize),
    }
}

/// What a single-step move does to a location.
pub open spec fn spec_mv(l: Location, d: Direction) -> Location {
    match d {
        Direction::Left => Location {
            x: spec_bounded_op(l.x, Bounded::Valid(1), BoundedOp::CheckedSub),
            y: l.y,
        },
        Direction::Right => Location {
            x: spec_bounded_op(l.x, Bounded::Valid(1), BoundedOp::CheckedAdd),
            y: l.y,
        },
        Direction::Up => Location {
            x: l.x,
            y: spec_bounded_op(l.y, Bounded::Valid(1), BoundedOp::CheckedSub),
        },
        Direction::Down => Location {
            x: l.x,
            y: spec_bounded_op(l.y, Bounded::Valid(1), BoundedOp::CheckedAdd),
        },
    }
}

/// The eight Moore neighbours in the fixed order NW, N, NE, W, E, SW, S, SE.
/// Neighbours that fall off the grid carry `Invalid` coordinates.
pub open spec fn spec_neighbours(l: Location) -> Seq<Location> {
    seq![
        spec_mv(spec_mv(l, Direction::Up), Direction::Left),
        spec_mv(l, Direction::Up),
        spec_mv(spec_mv(l, Direction::Up), Direction::Right),
        spec_mv(l, Direction::Left),
        spec_mv(l, Direction::Right),
        spec_mv(spec_mv(l, Direction::Down), Direction::Left),
        spec_mv(l, Direction::Down),
        spec_mv(spec_mv(l, Direction::Down), Direction::Right),
    ]
}

/// Inside a grid, a location's row-major index exists, is below
/// `width * height`, and determines the location.
pub proof fn lemma_to_index_in_grid(l: Location, width: int, height: int)
    requires
        loc_in_grid(l, width, height),
        width * height <= usize::MAX,
    ensures
        spec_to_index(l, width) matches Some(i) && 0 <= i < width * height,
{
    let x = l.x->Valid_0 as int;
    let y = l.y->Valid_0 as int;
    assert(0 <= y * width + x < width * height) by (nonlinear_arith)
        requires
            0 <= x < width,
            0 <= y < height,
    ;
}

/// A valid row-major index decomposes uniquely: distinct in-grid locations
/// have distinct indices.
pub proof fn lemma_to_index_injective(a: Location, b: Location, width: int, height: int)
    requires
        loc_in_grid(a, width, height),
        loc_in_grid(b, width, height),
        width * height <= usize::MAX,
        spec_to_index(a, width) == spec_to_index(b, width),
    ensures
        a == b,
{
    lemma_to_index_in_grid(a, width, height);
    lemma_to_index_in_grid(b, width, height);
    let ax = a.x->Valid_0 as int;
    let ay = a.y->Valid_0 as int;
    let bx = b.x->Valid_0 as int;
    let by = b.y->Valid_0 as int;
    assert(ax == bx && ay == by) by (nonlinear_arith)
        requires
            0 <= ax < width,
            0 <= bx < width,
            0 <= ay,
            0 <= by,
            ay * width + ax == by * width + bx,
    ;
}

/// `spec_from_index` inverts `spec_to_index` on a grid of positive width.
pub proof fn lemma_from_index_to_index(index: int, width: int, height: int)
    requires
        width >= 1,
        0 <= index < width * height,
        width * height <= usize::MAX,
    ensures
        loc_in_grid(spec_from_index(index, width), width, height),
        spec_to_index(spec_from_index(index, width), width) == Some(index),
{
    vstd::arithmetic::div_mod::lemma_fundamental_div_mod(index, width);
    vstd::arithmetic::div_mod::lemma_mod_bound(index, width);
    vstd::arithmetic::div_mod::lemma_div_pos_is_pos(index, width);
    let q = index / width;
    let r = index % width;
    assert(index == q * width + r) by (nonlinear_arith)
        requires
            index == width * q + r,
    ;
    assert(q < height) by (nonlinear_arith)
        requires
            index == q * width + r,
            0 <= r < width,
            index < width * height,
            q >= 0,
    ;
}

/// `spec_to_index` inverts `spec_from_index` for in-grid locations.
/// The eight neighbours of a location with valid coordinates are pairwise
/// distinct: of the three column values and three row values around it, no
/// two can collapse to the same coordinate, not even through `Invalid`.
pub proof fn lemma_neighbours_distinct(l: Location)
    requires
        l.x is Valid,
        l.y is Valid,
    ensures
        spec_neighbours(l).no_duplicates(),
{
    let s = spec_neighbours(l);
    assert forall|i: int, j: int| 0 <= i < j < s.len() implies s[i] != s[j] by {
        assert(s[i] == spec_neighbours(l)[i]);
        assert(s[j] == spec_neighbours(l)[j]);
    }
}

pub proof fn lemma_to_from_index(l: Location, width: int, height: int)
    requires
        loc_in_grid(l, width, height),
        width * height <= usize::MAX,
    ensures
        spec_to_index(l, width) matches Some(i) && 0 <= i < width * height && spec_from_index(
            i,
            width,
        ) == l,
{
    lemma_to_index_in_grid(l, width, height);
    let i = spec_to_index(l, width)->Some_0;
    assert(width >= 1);
    lemma_from_index_to_index(i, width, height);
    lemma_to_index_injective(l, spec_from_index(i, width), width, height);
}

impl Location {
    /// A location with both coordinates valid.
    pub fn new(x: usize, y: usize) -> (r: Self)
        ensures
            r == (Location { x: Bounded::Valid(x), y: Bounded::Valid(y) }),
    {
        Self { x: Bounded::Valid(x), y: Bounded::Valid(y) }
    }

    /// The poisoned location: both coordinates `Invalid`.
    pub fn invalid() -> (r: Self)
        ensures
            r == (Location { x: Bounded::Invalid, y: Bounded::Invalid }),
    {
        Self { x: Bounded::Invalid, y: Bounded::Invalid }
    }

    /// Every location of a `width` x `height` grid, in row-major order.
    pub fn generate_all(width: usize, height: usize) -> (r: Vec<Location>)
        requires
            width * height <= usize::MAX,
        ensures
            r@.len() == width * height,
            forall|i: int|
                0 <= i < r@.len() ==> r@[i] == spec_from_index(i, width as int),
    {
        let total: usize = width * height;
        let mut out: Vec<Location> = Vec::new();
        let mut i: usize = 0;
        while i < total
            invariant
                i <= total,
                total == width * height,
                out@.len() == i,
                forall|j: int|
                    0 <= j < i ==> out@[j] == spec_from_index(j, width as int),
            decreases total - i,
        {
            proof {
                assert(width >= 1) by {
                    if width == 0 {
                        assert(total == 0);
                    }
                };
            }
            out.push(Location::from_index(i, width));
            i = i + 1;
        }
        out
    }

    /// The flat row-major index of this location, or `None` when a coordinate
    /// is invalid, `x` is not below the width, or the index would overflow.
    pub fn to_index(self, width: usize) -> (r: Option<usize>)
        ensures
            r matches Some(i) ==> spec_to_index(self, width as int) == Some(i as int),
            r is None ==> spec_to_index(self, width as int) is None,
    {
        match (self.x, self.y) {
            (Bounded::Valid(x), Bounded::Valid(y)) => {
                if x < width {
                    match y.checked_mul(width) {
                        Some(base) => match base.checked_add(x) {
                            Some(i) => Some(i),
                            None => None,
                        },
                        None => {
                            proof {
                                assert(y * width + x > usize::MAX) by (nonlinear_arith)
                                    requires
                                        y * width > usize::MAX,
                                        x >= 0,
                                ;
                            }
                            None
                        },
                    }
                } else {
                    None
                }
            },
            _ => None,
        }
    }

    /// The location at the given row-major index of a grid of the given width.
    pub fn from_index(index: usize, width: usize) -> (r: Self)
        requires
            width >= 1,
        ensures
            r == spec_from_index(index as int, width as int),
    {
        Self { x: Bounded::Valid(index % width), y: Bounded::Valid(index / width) }
    }

    /// The eight Moore neighbours, in the fixed order NW, N, NE, W, E, SW, S,
    /// SE; off-grid neighbours carry `Invalid` coordinates.
    pub fn neighbours(&self) -> (r: Vec<Location>)
        ensures
            r@ == spec_neighbours(*self),
    {
        let mut out: Vec<Location> = Vec::new();
        out.push(self.mv(Direction::Up).mv(Direction::Left));
        out.push(self.mv(Direction::Up));
        out.push(self.mv(Direction::Up).mv(Direction::Right));
        out.push(self.mv(Direction::Left));
        out.push(self.mv(Direction::Right));
        out.push(self.mv(Direction::Down).mv(Direction::Left));
        out.push(self.mv(Direction::Down));
        out.push(self.mv(Direction::Down).mv(Direction::Right));
        proof {
            assert(out@ =~= spec_neighbours(*self));
        }
        out
    }

    /// Moves `num` cells to the right, saturating to `Invalid` on overflow.
    pub fn x_plus(self, num: usize) -> (r: Self)
        ensures
            r.x == spec_bounded_op(self.x, Bounded::Valid(num), BoundedOp::CheckedAdd),
            r.y == self.y,
    {
        Self { x: self.x.op(Bounded::Valid(num), BoundedOp::CheckedAdd), y: self.y }
    }

    /// Moves `num` cells to the left, saturating to `Invalid` below zero.
    pub fn x_minus(self, num: usize) -> (r: Self)
        ensures
            r.x == spec_bounded_op(self.x, Bounded::Valid(num), BoundedOp::CheckedSub),
            r.y == self.y,
    {
        Self { x: self.x.op(Bounded::Valid(num), BoundedOp::CheckedSub), y: self.y }
    }

    /// Moves `num` cells down, saturating to `Invalid` on overflow.
    pub fn y_plus(self, num: usize) -> (r: Self)
        ensures
            r.x == self.x,
            r.y == spec_bounded_op(self.y, Bounded::Valid(num), BoundedOp::CheckedAdd),
    {
        Self { x: self.x, y: self.y.op(Bounded::Valid(num), BoundedOp::CheckedAdd) }
    }

    /// Moves `num` cells up, saturating to `Invalid` below zero.
    pub fn y_minus(self, num: usize) -> (r: Self)
        ensures
            r.x == self.x,
            r.y == spec_bounded_op(self.y, Bounded::Valid(num), BoundedOp::CheckedSub),
    {
        Self { x: self.x, y: self.y.op(Bounded::Valid(num), BoundedOp::CheckedSub) }
    }

    /// Moves one cell in the given direction.
    pub fn mv(self, d: Direction) -> (r: Self)
        ensures
            r == spec_mv(self, d),
    {
        match d {
            Direction::Left => self.x_minus(1),
            Direction::Right => self.x_plus(1),
            Direction::Up => self.y_minus(1),
            Direction::Down => self.y_plus(1),
        }
    }

    /// Moves one cell in the given direction, staying put instead of turning
    /// invalid.
    pub fn try_mv(self, d: Direction) -> (r: Self)
        ensures
            r == if spec_mv(self, d).x is Invalid || spec_mv(self, d).y is Invalid {
                self
            } else {
                spec_mv(self, d)
            },
    {
        let unmoved = self;
        let moved = self.mv(d);
        match moved.x.is_invalid() || moved.y.is_invalid() {
            true => unmoved,
            false => moved,
        }
    }

    /// The coordinates as a plain pair when both are valid.
    pub fn as_tuple(self) -> (r: Option<(usize, usize)>)
        ensures
            r == match (self.x, self.y) {
                (Bounded::Valid(x), Bounded::Valid(y)) => Some((x, y)),
                _ => None::<(usize, usize)>,
            },
    {
        match (self.x, self.y) {
            (Bounded::Valid(x), Bounded::Valid(y)) => Some((x, y)),
            _ => None,
        }
    }
}

} // verus!
