//! A 2D list type with bounds-checked indexing.

use vstd::prelude::*;

verus! {

/// A 2D list.
///
/// Indices are `(x, y)` tuples, with `(0, 0)` signifying the top-left element.
///
/// Data is stored in row-major order,
/// and all iteration over the grid is in row-major order.
#[derive(Debug)]
pub struct Grid<T> {
    /// The elements of the grid, stored contiguously in a 1D `Vec`.
    data: Vec<T>,
    /// The horizontal size of the grid.
    width: usize,
    /// The vertical size of the grid.
    height: usize,
}

impl<T> Grid<T> {
    /// Well-formedness: the backing storage holds exactly one element per cell.
    pub closed spec fn wf(self) -> bool {
        self.data@.len() == self.width * self.height
    }

    /// The horizontal size, as a mathematical integer.
    pub closed spec fn spec_width(self) -> int {
        self.width as int
    }

    /// The vertical size, as a mathematical integer.
    pub closed spec fn spec_height(self) -> int {
        self.height as int
    }

    /// Whether mathematical coordinates lie inside the grid's rectangle.
    pub open spec fn in_bounds(self, x: int, y: int) -> bool {
        0 <= x < self.spec_width() && 0 <= y < self.spec_height()
    }

    /// The element stored at in-bounds coordinates.
    pub closed spec fn cell(self, x: int, y: int) -> T
        recommends
            self.wf(),
            self.in_bounds(x, y),
    {
        self.data@[y * self.spec_width() + x]
    }

    /// The flat row-major storage position of in-bounds coordinates.
    proof fn lemma_flat_index_bounds(self, x: int, y: int)
        requires
            self.wf(),
            self.in_bounds(x, y),
        ensures
            0 <= y * self.spec_width() + x < self.data@.len(),
    {
        let w = self.spec_width();
        let h = self.spec_height();
        assert(y * w + x < h * w) by (nonlinear_arith)
            requires
                0 <= x < w,
                0 <= y < h,
        ;
        assert(0 <= y * w) by (nonlinear_arith)
            requires
                0 <= y,
                0 <= w,
        ;
        assert(h * w == w * h) by (nonlinear_arith);
    }

    /// Basic facts about a grid's dimensions: they are nonnegative, and for a
    /// well-formed grid their product is the length of the backing storage.
    pub proof fn lemma_dims(self)
        ensures
            self.spec_width() >= 0,
            self.spec_height() >= 0,
            self.wf() ==> self.spec_width() * self.spec_height() <= usize::MAX,
    {
        if self.wf() {
            vstd::std_specs::vec::axiom_spec_len(&self.data);
        }
    }

    /// The horizontal size of the grid.
    pub fn width(&self) -> (w: usize)
        ensures
            w == self.spec_width(),
    {
        self.width
    }

    /// The vertical size of the grid.
    pub fn height(&self) -> (h: usize)
        ensures
            h == self.spec_height(),
    {
        self.height
    }

    /// A `(width, height)` tuple describing the size of the grid.
    pub fn dimensions(&self) -> (d: (usize, usize))
        ensures
            d.0 == self.spec_width(),
            d.1 == self.spec_height(),
    {
        (self.width, self.height)
    }
}

impl<T> Grid<T> {
    /// Converts a 2D index into a 1D index for the grid's data `Vec`, if possible.
    fn convert_index_to_1d<I: GridIndex>(&self, index: I) -> (r: Result<usize, IndexError>)
        requires
            self.wf(),
        ensures
            match r {
                Ok(i) => self.in_bounds(index.spec_x(), index.spec_y()) && i
                    == index.spec_y() * self.spec_width() + index.spec_x() && i < self.data@.len(),
                Err(_) => !self.in_bounds(index.spec_x(), index.spec_y()),
            },
    {
        proof {
            vstd::std_specs::vec::axiom_spec_len(&self.data);
        }
        index.to_1d_index(self.width, self.height)
    }

    /// Returns a reference to the element with the given index,
    /// or None if the index is out of bounds.
    pub fn get<I: GridIndex>(&self, index: I) -> (r: Option<&T>)
        requires
            self.wf(),
        ensures
            match r {
                Some(t) => self.in_bounds(index.spec_x(), index.spec_y()) && *t == self.cell(
                    index.spec_x(),
                    index.spec_y(),
                ),
                None => !self.in_bounds(index.spec_x(), index.spec_y()),
            },
    {
        match self.convert_index_to_1d(index) {
            Ok(i) => Some(&self.data[i]),
            Err(_) => None,
        }
    }

    /// Returns a mutable reference to the element with the given index,
    /// or None if the index is out of bounds.
    pub fn get_mut<I: GridIndex>(&mut self, index: I) -> (r: Option<&mut T>)
        requires
            old(self).wf(),
        ensures
            match r {
                Some(t) => {
                    let x = index.spec_x();
                    let y = index.spec_y();
                    &&& old(self).in_bounds(x, y)
                    &&& *t == old(self).cell(x, y)
                    &&& final(self).wf()
                    &&& final(self).spec_width() == old(self).spec_width()
                    &&& final(self).spec_height() == old(self).spec_height()
                    &&& final(self).cell(x, y) == *final(t)
                    &&& forall|a: int, b: int|
                        old(self).in_bounds(a, b) && !(a == x && b == y) ==> final(self).cell(a, b)
                            == old(self).cell(a, b)
                },
                None => !old(self).in_bounds(index.spec_x(), index.spec_y()) && *final(self)
                    == *old(self),
            },
    {
        match self.convert_index_to_1d(index) {
            Ok(i) => {
                proof {
                    broadcast use vstd::std_specs::vec::group_vec_axioms;

                    assert forall|a: int, b: int|
                        old(self).in_bounds(a, b) && !(a == index.spec_x() && b
                            == index.spec_y()) implies b * old(self).spec_width() + a != i by {
                        lemma_flat_index_injective(
                            old(self).spec_width(),
                            old(self).spec_height(),
                            a,
                            b,
                            index.spec_x(),
                            index.spec_y(),
                        );
                    }
                    assert forall|a: int, b: int| old(self).in_bounds(a, b) implies 0 <= b * old(
                        self,
                    ).spec_width() + a < old(self).data@.len() by {
                        old(self).lemma_flat_index_bounds(a, b);
                    }
                }
                Some(&mut self.data[i])
            },
            Err(_) => None,
        }
    }
}

/// Distinct in-bounds coordinates occupy distinct flat storage positions.
proof fn lemma_flat_index_injective(w: int, h: int, a: int, b: int, x: int, y: int)
    requires
        0 <= a < w,
        0 <= b < h,
        0 <= x < w,
        0 <= y < h,
        !(a == x && b == y),
    ensures
        b * w + a != y * w + x,
{
    if b == y {
        assert(b * w + a != y * w + x);
    } else {
        assert(b * w + a != y * w + x) by (nonlinear_arith)
            requires
                0 <= a < w,
                0 <= x < w,
                b != y,
        ;
    }
}

impl<T: Copy> Grid<T> {
    /// Constructs a grid filled with the given value and dimensions.
    pub fn filled(value: T, dimensions: (usize, usize)) -> (g: Grid<T>)
        requires
            dimensions.0 * dimensions.1 <= usize::MAX,
        ensures
            g.wf(),
            g.spec_width() == dimensions.0,
            g.spec_height() == dimensions.1,
            forall|x: int, y: int| g.in_bounds(x, y) ==> g.cell(x, y) == value,
    {
        let (width, height) = dimensions;
        let n: usize = width * height;
        let mut data: Vec<T> = Vec::new();
        let mut i: usize = 0;
        while i < n
            invariant
                i <= n,
                data@.len() == i,
                forall|j: int| 0 <= j < i ==> data@[j] == value,
            decreases n - i,
        {
            data.push(value);
            i = i + 1;
        }
        let g = Grid { data, width, height };
        proof {
            assert forall|x: int, y: int| g.in_bounds(x, y) implies g.cell(x, y) == value by {
                g.lemma_flat_index_bounds(x, y);
            }
        }
        g
    }
}

impl<T: Copy> Grid<T> {
    /// Constructs a grid representing the same 2D list as the given 2D array.
    pub fn from_2d_array<const W: usize, const H: usize>(arr: [[T; W]; H]) -> (g: Grid<T>)
        requires
            W * H <= usize::MAX,
        ensures
            g.wf(),
            g.spec_width() == W,
            g.spec_height() == H,
            forall|x: int, y: int| g.in_bounds(x, y) ==> g.cell(x, y) == arr@[y]@[x],
    {
        let mut data: Vec<T> = Vec::new();
        let mut yi: usize = 0;
        while yi < H
            invariant
                yi <= H,
                W * H <= usize::MAX,
                data@.len() == yi * W,
                forall|b: int, a: int|
                    0 <= b < yi && 0 <= a < W ==> data@[b * W + a] == arr@[b]@[a],
            decreases H - yi,
        {
            proof {
                assert(yi * W + W <= H * W) by (nonlinear_arith)
                    requires
                        yi < H,
                        0 <= W,
                ;
                assert(H * W == W * H) by (nonlinear_arith);
            }
            let mut xi: usize = 0;
            while xi < W
                invariant
                    yi < H,
                    xi <= W,
                    yi * W + W <= W * H <= usize::MAX,
                    data@.len() == yi * W + xi,
                    forall|b: int, a: int|
                        0 <= b < yi && 0 <= a < W ==> data@[b * W + a] == arr@[b]@[a],
                    forall|a: int| 0 <= a < xi ==> data@[yi * W + a] == arr@[yi as int]@[a],
                decreases W - xi,
            {
                proof {
                    assert forall|b: int, a: int|
                        #![trigger b * W + a]
                        0 <= b < yi && 0 <= a < W implies 0 <= b * W + a < yi * W by {
                        assert(b * W + a < yi * W && 0 <= b * W) by (nonlinear_arith)
                            requires
                                0 <= a < W,
                                0 <= b < yi,
                        ;
                    }
                }
                data.push(arr[yi][xi]);
                xi = xi + 1;
            }
            proof {
                assert((yi + 1) * W == yi * W + W) by (nonlinear_arith);
            }
            yi = yi + 1;
        }
        let g = Grid { data, width: W, height: H };
        proof {
            assert(H * W == W * H) by (nonlinear_arith);
            assert(g.wf());
            assert forall|x: int, y: int| g.in_bounds(x, y) implies g.cell(x, y) == arr@[y]@[x] by {
                g.lemma_flat_index_bounds(x, y);
            }
        }
        g
    }

    /// Returns an `(index, element)` list over the grid, in row-major order.
    pub fn enumerate<I: GridIndex>(&self) -> (r: Vec<(I, T)>)
        requires
            self.wf(),
            forall|j: int|
                0 <= j < self.spec_width() * self.spec_height() ==> I::representable(
                    j,
                    self.spec_width(),
                    self.spec_height(),
                ),
        ensures
            r@.len() == self.spec_width() * self.spec_height(),
            forall|j: int|
                #![trigger r@[j]]
                0 <= j < r@.len() ==> {
                    let x = j % self.spec_width();
                    let y = j / self.spec_width();
                    &&& r@[j].0.spec_x() == x
                    &&& r@[j].0.spec_y() == y
                    &&& r@[j].1 == self.cell(x, y)
                },
    {
        let mut r: Vec<(I, T)> = Vec::new();
        let n = self.data.len();
        let mut i: usize = 0;
        while i < n
            invariant
                i <= n,
                n == self.data@.len(),
                self.wf(),
                forall|j: int|
                    0 <= j < self.spec_width() * self.spec_height() ==> I::representable(
                        j,
                        self.spec_width(),
                        self.spec_height(),
                    ),
                r@.len() == i,
                forall|j: int|
                    #![trigger r@[j]]
                    0 <= j < i ==> {
                        let x = j % self.spec_width();
                        let y = j / self.spec_width();
                        &&& r@[j].0.spec_x() == x
                        &&& r@[j].0.spec_y() == y
                        &&& r@[j].1 == self.cell(x, y)
                    },
            decreases n - i,
        {
            proof {
                assert(self.spec_width() > 0) by {
                    if self.spec_width() == 0 {
                        assert(self.spec_width() * self.spec_height() == 0) by (nonlinear_arith)
                            requires
                                self.spec_width() == 0,
                        ;
                    }
                }
                vstd::arithmetic::div_mod::lemma_fundamental_div_mod(
                    i as int,
                    self.spec_width(),
                );
                vstd::arithmetic::div_mod::lemma_mod_bound(i as int, self.spec_width());
                vstd::arithmetic::div_mod::lemma_div_pos_is_pos(i as int, self.spec_width());
                let w = self.spec_width();
                assert(i as int / w < self.spec_height() && (i as int / w) * w + (i as int % w)
                    == i) by (nonlinear_arith)
                    requires
                        w * (i as int / w) + (i as int % w) == i,
                        0 <= i as int % w < w,
                        i < w * self.spec_height(),
                        w > 0,
                        0 <= i as int / w,
                ;
                assert(self.in_bounds(i as int % w, i as int / w));
                assert(self.cell(i as int % w, i as int / w) == self.data@[i as int]);
            }
            let idx = I::from_1d_index(i, self.width, self.height);
            r.push((idx, self.data[i]));
            i = i + 1;
        }
        r
    }

    /// Transforms the grid by applying `f` to each element.
    pub fn map<U, F: Fn(T) -> U>(self, f: F) -> (r: Grid<U>)
        requires
            self.wf(),
            forall|x: int, y: int|
                self.in_bounds(x, y) ==> call_requires(f, (self.cell(x, y),)),
        ensures
            r.wf(),
            r.spec_width() == self.spec_width(),
            r.spec_height() == self.spec_height(),
            forall|x: int, y: int|
                r.in_bounds(x, y) ==> call_ensures(f, (self.cell(x, y),), #[trigger] r.cell(x, y)),
    {
        let mut data: Vec<U> = Vec::new();
        let n = self.data.len();
        let mut i: usize = 0;
        while i < n
            invariant
                i <= n,
                n == self.data@.len(),
                self.wf(),
                forall|x: int, y: int|
                    self.in_bounds(x, y) ==> call_requires(f, (self.cell(x, y),)),
                data@.len() == i,
                forall|j: int|
                    0 <= j < i ==> call_ensures(f, (self.data@[j],), #[trigger] data@[j]),
            decreases n - i,
        {
            proof {
                assert(self.spec_width() > 0) by {
                    if self.spec_width() == 0 {
                        assert(self.spec_width() * self.spec_height() == 0) by (nonlinear_arith)
                            requires
                                self.spec_width() == 0,
                        ;
                    }
                }
                let w = self.spec_width();
                vstd::arithmetic::div_mod::lemma_fundamental_div_mod(i as int, w);
                vstd::arithmetic::div_mod::lemma_mod_bound(i as int, w);
                vstd::arithmetic::div_mod::lemma_div_pos_is_pos(i as int, w);
                assert(i as int / w < self.spec_height() && (i as int / w) * w + (i as int % w)
                    == i) by (nonlinear_arith)
                    requires
                        w * (i as int / w) + (i as int % w) == i,
                        0 <= i as int % w < w,
                        i < w * self.spec_height(),
                        w > 0,
                        0 <= i as int / w,
                ;
                assert(self.in_bounds(i as int % w, i as int / w));
                assert(self.cell(i as int % w, i as int / w) == self.data@[i as int]);
            }
            let v = f(self.data[i]);
            data.push(v);
            i = i + 1;
        }
        let g = Grid { data, width: self.width, height: self.height };
        proof {
            assert forall|x: int, y: int| g.in_bounds(x, y) implies call_ensures(
                f,
                (self.cell(x, y),),
                g.cell(x, y),
            ) by {
                g.lemma_flat_index_bounds(x, y);
                self.lemma_flat_index_bounds(x, y);
                let w = self.spec_width();
                let j = y * w + x;
                vstd::arithmetic::div_mod::lemma_fundamental_div_mod_converse(j, w, y, x);
            }
        }
        g
    }
}

// Equality compares dimensions and elements. It is provided for executable
// use (such as test assertions); contracts in this crate speak about grids
// through `cell` and the dimension spec functions instead, so no spec-level
// meaning is attached to `==` here.
impl<T: PartialEq> PartialEq for Grid<T> {
    fn eq(&self, other: &Grid<T>) -> bool {
        if self.width != other.width || self.height != other.height
            || self.data.len() != other.data.len() {
            return false;
        }
        let n = self.data.len();
        let mut i: usize = 0;
        while i < n
            invariant
                i <= n,
                n == self.data@.len(),
                n == other.data@.len(),
            decreases n - i,
        {
            if !self.data[i].eq(&other.data[i]) {
                return false;
            }
            i = i + 1;
        }
        true
    }
}

impl<T: PartialEq> vstd::std_specs::cmp::PartialEqSpecImpl for Grid<T> {
    open spec fn obeys_eq_spec() -> bool {
        false
    }

    open spec fn eq_spec(&self, other: &Grid<T>) -> bool {
        true
    }
}

/// Trait for types that can be used as an index for a grid.
pub trait GridIndex: Sized {
    /// The x-coordinate denoted by this index, as a mathematical integer.
    spec fn spec_x(self) -> int;

    /// The y-coordinate denoted by this index, as a mathematical integer.
    spec fn spec_y(self) -> int;

    /// Whether the 2D coordinates of the given flat row-major storage position
    /// are representable as a value of this index type.
    spec fn representable(index: int, width: int, height: int) -> bool;

    /// Converts a 2D index into a 1D index for the data `Vec` of a grid
    /// based on the given dimensions, if possible.
    ///
    /// If successful, the returned 1D index must be in bounds.
    fn to_1d_index(self, width: usize, height: usize) -> (r: Result<usize, IndexError>)
        requires
            width * height <= usize::MAX,
        ensures
            match r {
                Ok(i) => {
                    &&& 0 <= self.spec_x() < width
                    &&& 0 <= self.spec_y() < height
                    &&& i == self.spec_y() * width + self.spec_x()
                    &&& i < width * height
                },
                Err(_) => !(0 <= self.spec_x() < width && 0 <= self.spec_y() < height),
            },
    ;

    /// Converts a 1D index for the data `Vec` of a grid
    /// into a 2D index based on the given dimensions.
    ///
    /// Will only be called with 1D indices that are in bounds.
    fn from_1d_index(index: usize, width: usize, height: usize) -> (r: Self)
        requires
            0 < width,
            index < width * height,
            Self::representable(index as int, width as int, height as int),
        ensures
            r.spec_x() == index as int % width as int,
            r.spec_y() == index as int / width as int,
    ;
}

impl GridIndex for (i32, i32) {
    open spec fn spec_x(self) -> int {
        self.0 as int
    }

    open spec fn spec_y(self) -> int {
        self.1 as int
    }

    open spec fn representable(index: int, width: int, height: int) -> bool {
        index % width <= i32::MAX && index / width <= i32::MAX
    }

    fn to_1d_index(self, width: usize, height: usize) -> (r: Result<usize, IndexError>) {
        let (x, y) = self;
        // If the coordinates are negative, they are definitely out of bounds.
        if x < 0 || y < 0 {
            return Err(IndexError { x, y, width, height });
        }
        let ux = x as usize;
        let uy = y as usize;
        if ux < width && uy < height {
            proof {
                assert(uy * width + ux < width * height) by (nonlinear_arith)
                    requires
                        0 <= ux < width,
                        0 <= uy < height,
                ;
            }
            Ok(uy * width + ux)
        } else {
            Err(IndexError { x, y, width, height })
        }
    }

    fn from_1d_index(index: usize, width: usize, height: usize) -> (r: Self) {
        let x = index % width;
        let y = index / width;
        (x as i32, y as i32)
    }
}

/// An error for out-of-bounds indices.
#[derive(Clone, Copy, PartialEq, Eq, Structural, Debug)]
pub struct IndexError {
    /// x-coordinate of the out-of-bounds index.
    pub x: i32,
    /// y-coordinate of the out-of-bounds index.
    pub y: i32,
    /// Width of the grid that's being indexed.
    pub width: usize,
    /// Height of the grid that's being indexed.
    pub height: usize,
}

} // verus!
