//! A dense, fixed-size `width` x `height` grid in row-major order, addressed
//! by [`Location`].  Out-of-range reads return `None`; out-of-range writes
//! are no-ops.

use vstd::prelude::*;

use crate::location::{
    lemma_to_index_in_grid, loc_in_grid, spec_from_index, spec_to_index, Bounded, Location,
};

verus! {

/// The mathematical model of an [`Area`]: its cells in row-major order and
/// its dimensions.
pub struct AreaView<T> {
    pub cells: Seq<T>,
    pub width: nat,
    pub height: nat,
}

impl<T> AreaView<T> {
    /// The cell at `l`, when `l` lies inside the grid and its flat index is
    /// backed by a cell.
    pub open spec fn get(self, l: Location) -> Option<T> {
        match spec_to_index(l, self.width as int) {
            Some(i) => if i < self.cells.len() {
                Some(self.cells[i])
            } else {
                None
            },
            None => None,
        }
    }

    /// The dense-grid invariant: one cell for each of `width * height`
    /// positions.
    pub open spec fn wf(self) -> bool {
        &&& self.cells.len() == self.width * self.height
        &&& self.cells.len() <= usize::MAX
    }

    /// The view after writing `value` at `l`; unchanged when `l` has no cell.
    pub open spec fn set(self, l: Location, value: T) -> AreaView<T> {
        match spec_to_index(l, self.width as int) {
            Some(i) => if i < self.cells.len() {
                AreaView { cells: self.cells.update(i, value), ..self }
            } else {
                self
            },
            None => self,
        }
    }
}

/// A `width` x `height` grid of `T` in row-major order.
#[derive(Debug)]
pub struct Area<T> {
    area: Vec<T>,
    width: usize,
    height: usize,
}

impl<T> View for Area<T> {
    type V = AreaView<T>;

    closed spec fn view(&self) -> AreaView<T> {
        AreaView { cells: self.area@, width: self.width as nat, height: self.height as nat }
    }
}

/// On a well-formed area, a location has a cell exactly when it lies inside
/// the grid.
pub proof fn lemma_get_in_grid<T>(v: AreaView<T>, l: Location)
    requires
        v.wf(),
    ensures
        v.get(l) is Some <==> loc_in_grid(l, v.width as int, v.height as int),
{
    if loc_in_grid(l, v.width as int, v.height as int) {
        lemma_to_index_in_grid(l, v.width as int, v.height as int);
    }
    if v.get(l) is Some {
        let x = l.x->Valid_0 as int;
        let y = l.y->Valid_0 as int;
        let i = spec_to_index(l, v.width as int)->Some_0;
        assert(y < v.height) by (nonlinear_arith)
            requires
                0 <= x < v.width,
                0 <= y,
                i == y * v.width + x,
                i < v.width * v.height,
        ;
    }
}

/// Writing one cell leaves every other location unchanged.
pub proof fn lemma_set_frame<T>(v: AreaView<T>, l: Location, value: T, x: Location)
    requires
        v.wf(),
        x != l,
    ensures
        v.set(l, value).get(x) == v.get(x),
{
    match spec_to_index(l, v.width as int) {
        Some(i) => {
            if i < v.cells.len() {
                match spec_to_index(x, v.width as int) {
                    Some(j) => {
                        if j < v.cells.len() && j == i {
                            lemma_get_in_grid(v, l);
                            lemma_get_in_grid(v, x);
                            crate::location::lemma_to_index_injective(
                                x,
                                l,
                                v.width as int,
                                v.height as int,
                            );
                        }
                    },
                    None => {},
                }
            }
        },
        None => {},
    }
}

/// Writing one cell makes that location read the new value, when it is on
/// the grid at all.
pub proof fn lemma_set_get<T>(v: AreaView<T>, l: Location, value: T)
    requires
        v.wf(),
    ensures
        v.set(l, value).get(l) == if v.get(l) is Some {
            Some(value)
        } else {
            None::<T>
        },
{
}

impl<T> Area<T> {
    /// A grid whose every cell holds the type's default value.
    pub fn new(width: usize, height: usize) -> (r: Self) where T: Default + Copy
        requires
            width * height <= usize::MAX,
        ensures
            r@.width == width,
            r@.height == height,
            r@.wf(),
            exists|d: T|
                (#[trigger] call_ensures(T::default, (), d)) && r@.cells == Seq::new(
                    (width * height) as nat,
                    |i: int| d,
                ),
    {
        let d: T = Default::default();
        Self::filled(width, height, d)
    }

    /// A grid whose every cell holds `value`.
    pub fn filled(width: usize, height: usize, value: T) -> (r: Self) where T: Copy
        requires
            width * height <= usize::MAX,
        ensures
            r@.width == width,
            r@.height == height,
            r@.wf(),
            r@.cells == Seq::new((width * height) as nat, |i: int| value),
    {
        let total: usize = width * height;
        let mut area: Vec<T> = Vec::new();
        let mut i: usize = 0;
        while i < total
            invariant
                i <= total,
                area@.len() == i,
                forall|j: int| 0 <= j < i ==> area@[j] == value,
            decreases total - i,
        {
            area.push(value);
            i = i + 1;
        }
        let r = Self { area, width, height };
        proof {
            assert(r@.cells =~= Seq::new((width * height) as nat, |i: int| value));
        }
        r
    }

    /// A grid over the given row-major cells.
    pub fn with_area(width: usize, height: usize, area: Vec<T>) -> (r: Self)
        requires
            area@.len() == width * height,
        ensures
            r@.width == width,
            r@.height == height,
            r@.cells == area@,
            r@.wf(),
    {
        proof {
            vstd::std_specs::vec::axiom_spec_len(&area);
        }
        Self { area, width, height }
    }

    /// The cell at `l`, or `None` when `l` falls outside the grid.
    pub fn get(&self, l: Location) -> (r: Option<&T>)
        ensures
            r matches Some(v) && self@.get(l) matches Some(s) && *v == s || r is None
                && self@.get(l) is None,
    {
        let index = match l.to_index(self.width) {
            Some(i) => i,
            None => {
                return None;
            },
        };
        self.area.get(index)
    }

    /// Writes `value` at `l`; a write outside the grid is a no-op.
    pub fn set(&mut self, l: Location, value: T)
        ensures
            final(self)@ == old(self)@.set(l, value),
    {
        let index = match l.to_index(self.width) {
            Some(i) => i,
            None => {
                return ;
            },
        };
        if index < self.area.len() {
            self.area[index] = value;
        }
    }

    /// Whether `l` has valid coordinates inside the grid.
    pub fn contains(&self, l: Location) -> (r: bool)
        ensures
            r == loc_in_grid(l, self@.width as int, self@.height as int),
    {
        match (l.x, l.y) {
            (Bounded::Valid(x), Bounded::Valid(y)) => x < self.width && y < self.height,
            _ => false,
        }
    }

    /// The grid's width.
    pub fn width(&self) -> (r: usize)
        ensures
            r == self@.width,
    {
        self.width
    }

    /// The grid's height.
    pub fn height(&self) -> (r: usize)
        ensures
            r == self@.height,
    {
        self.height
    }

    /// The number of cells.
    pub fn len(&self) -> (r: usize)
        ensures
            r == self@.cells.len(),
    {
        self.area.len()
    }

    /// The cell at the given flat row-major index.
    pub fn get_index(&self, index: usize) -> (r: Option<&T>)
        ensures
            r matches Some(v) && index < self@.cells.len() && *v == self@.cells[index as int]
                || r is None && index >= self@.cells.len(),
    {
        self.area.get(index)
    }

    /// Writes `value` at the given flat index; out of range is a no-op.
    pub fn set_index(&mut self, index: usize, value: T)
        ensures
            final(self)@.width == old(self)@.width,
            final(self)@.height == old(self)@.height,
            final(self)@.cells == if index < old(self)@.cells.len() {
                old(self)@.cells.update(index as int, value)
            } else {
                old(self)@.cells
            },
    {
        if index < self.area.len() {
            self.area[index] = value;
        }
    }

    /// The rows of the grid, top to bottom, each of length `width`.
    pub fn rows(&self) -> (r: Vec<Vec<T>>) where T: Copy
        requires
            self@.wf(),
        ensures
            r@.len() == self@.height,
            forall|y: int|
                0 <= y < r@.len() ==> r@[y]@ == self@.cells.subrange(
                    y * self@.width,
                    (y + 1) * self@.width,
                ),
    {
        let mut out: Vec<Vec<T>> = Vec::new();
        let mut y: usize = 0;
        let mut base: usize = 0;
        let n: usize = self.area.len();
        while y < self.height
            invariant
                y <= self@.height,
                self@.wf(),
                n == self@.cells.len(),
                base == y * self@.width,
                base <= n,
                out@.len() == y,
                forall|j: int|
                    0 <= j < y ==> out@[j]@ == self@.cells.subrange(
                        j * self@.width,
                        (j + 1) * self@.width,
                    ),
            decreases self@.height - y,
        {
            proof {
                assert((y + 1) * self@.width <= self@.height * self@.width) by (nonlinear_arith)
                    requires
                        y < self@.height,
                        self@.width >= 0,
                ;
                assert(self@.height * self@.width == self@.width * self@.height) by (
                nonlinear_arith);
                assert(y * self@.width + self@.width == (y + 1) * self@.width) by (nonlinear_arith);
            }
            let mut row: Vec<T> = Vec::new();
            let mut x: usize = 0;
            while x < self.width
                invariant
                    x <= self@.width,
                    base + self@.width <= n,
                    n == self@.cells.len(),
                    row@.len() == x,
                    forall|k: int| 0 <= k < x ==> row@[k] == self@.cells[base + k],
                decreases self@.width - x,
            {
                let v = *self.area.get(base + x).unwrap();
                row.push(v);
                x = x + 1;
            }
            proof {
                assert(row@ =~= self@.cells.subrange(
                    y as int * self@.width,
                    (y as int + 1) * self@.width,
                ));
            }
            out.push(row);
            base = base + self.width;
            y = y + 1;
        }
        out
    }

    /// Every `(location, cell)` pair of the grid in row-major order.
    pub fn loc_iter(&self) -> (r: Vec<(Location, T)>) where T: Copy
        requires
            self@.wf(),
        ensures
            r@.len() == self@.cells.len(),
            forall|i: int|
                0 <= i < r@.len() ==> r@[i] == (
                    spec_from_index(i, self@.width as int),
                    self@.cells[i],
                ),
    {
        let mut out: Vec<(Location, T)> = Vec::new();
        let mut i: usize = 0;
        let total = self.area.len();
        while i < total
            invariant
                i <= total,
                total == self@.cells.len(),
                self@.wf(),
                out@.len() == i,
                forall|j: int|
                    0 <= j < i ==> out@[j] == (
                        spec_from_index(j, self@.width as int),
                        self@.cells[j],
                    ),
            decreases total - i,
        {
            proof {
                assert(self@.width >= 1) by {
                    if self@.width == 0 {
                        assert(self@.width * self@.height == 0) by (nonlinear_arith)
                            requires
                                self@.width == 0,
                        ;
                    }
                };
            }
            let l = Location::from_index(i, self.width);
            let v = *self.area.get(i).unwrap();
            out.push((l, v));
            i = i + 1;
        }
        out
    }
}

impl<T> Default for Area<T> {
    /// The transient empty grid used before the generator has run.
    fn default() -> (r: Self)
        ensures
            r@.width == 0,
            r@.height == 0,
            r@.cells == Seq::<T>::empty(),
            r@.wf(),
    {
        Self { area: Vec::new(), width: 0, height: 0 }
    }
}

} // verus!
