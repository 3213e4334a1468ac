//! Integer grid coordinates and a rectangular two-dimensional array.
use vstd::prelude::*;

verus! {

/// A cell coordinate on the map.
#[derive(Clone, Copy, Debug, PartialEq, Eq, Hash, Structural)]
pub struct GridPosition {
    pub x: i32,
    pub y: i32,
}

impl GridPosition {
    pub open spec fn at(x: int, y: int) -> GridPosition {
        GridPosition { x: x as i32, y: y as i32 }
    }
}

/// A rectangular array addressed by `(x, y)`, stored column by column.
pub struct Array2D<T> {
    pub elems: Vec<Vec<T>>,
    pub height: usize,
}

impl<T> Array2D<T> {
    /// Every column has the same height.
    pub open spec fn wf(&self) -> bool {
        forall|i: int| 0 <= i < self.elems@.len() ==> (#[trigger] self.elems@[i])@.len() == self.height
    }

    pub open spec fn width(&self) -> int {
        self.elems@.len() as int
    }

    pub open spec fn in_bounds(&self, x: int, y: int) -> bool {
        0 <= x < self.elems@.len() && 0 <= y < self.height
    }

    pub open spec fn at(&self, x: int, y: int) -> T {
        self.elems@[x]@[y]
    }

    /// Same dimensions as `other`.
    pub open spec fn same_shape<U>(&self, other: &Array2D<U>) -> bool {
        self.elems@.len() == other.elems@.len() && self.height == other.height
    }

    /// An array of `x` columns and `y` rows, every cell holding `val`.
    pub fn with_elem(x: i32, y: i32, val: T) -> (r: Self)
        where T: Copy,
        requires
            x >= 0,
            y >= 0,
        ensures
            r.wf(),
            r.width() == x,
            r.height == y,
            forall|i: int, j: int| r.in_bounds(i, j) ==> r.at(i, j) == val,
    {
        let mut elems: Vec<Vec<T>> = Vec::new();
        let mut i: i32 = 0;
        while i < x
            invariant
                y >= 0,
                0 <= i <= x,
                elems@.len() == i,
                forall|k: int| 0 <= k < i ==> (#[trigger] elems@[k])@.len() == y,
                forall|k: int, j: int| 0 <= k < i && 0 <= j < y ==> elems@[k]@[j] == val,
            decreases x - i,
        {
            let mut col: Vec<T> = Vec::new();
            let mut j: i32 = 0;
            while j < y
                invariant
                    y >= 0,
                    0 <= j <= y,
                    col@.len() == j,
                    forall|k: int| 0 <= k < j ==> col@[k] == val,
                decreases y - j,
            {
                col.push(val);
                j = j + 1;
            }
            elems.push(col);
            i = i + 1;
        }
        Array2D { elems, height: y as usize }
    }

    /// The array made of the given columns, when they all have the same height.
    pub fn from_vecs(elems: Vec<Vec<T>>) -> (r: Option<Self>)
        ensures
            r is Some <==> (elems@.len() > 0 ==> forall|i: int| 0 <= i < elems@.len() ==> (#[trigger] elems@[i])@.len() == elems@[0]@.len()),
            r matches Some(a) ==> a.wf() && a.elems@ == elems@,
    {
        if elems.len() == 0 {
            return Some(Array2D { elems, height: 0 });
        }
        let h = elems[0].len();
        let mut i: usize = 0;
        while i < elems.len()
            invariant
                0 <= i <= elems@.len(),
                h == elems@[0]@.len(),
                forall|k: int| 0 <= k < i ==> (#[trigger] elems@[k])@.len() == h,
            decreases elems@.len() - i,
        {
            if elems[i].len() != h {
                return None;
            }
            i = i + 1;
        }
        Some(Array2D { elems, height: h })
    }

    /// The cell at `(x, y)`, or `None` outside the array.
    pub fn get(&self, x: i32, y: i32) -> (r: Option<&T>)
        requires
            self.wf(),
        ensures
            self.in_bounds(x as int, y as int) ==> r == Some(&self.at(x as int, y as int)),
            !self.in_bounds(x as int, y as int) ==> r is None,
    {
        if x >= 0 && (x as usize) < self.elems.len() && y >= 0 && (y as usize) < self.height {
            Some(&self.elems[x as usize][y as usize])
        } else {
            None
        }
    }

    /// Width and height of the array.
    pub fn size(&self) -> (r: (usize, usize))
        ensures
            r.0 == self.width(),
            r.1 == self.height,
    {
        (self.elems.len(), self.height)
    }
}

} // verus!
