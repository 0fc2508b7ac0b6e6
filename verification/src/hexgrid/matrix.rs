//! A dense two-dimensional table stored row after row in one vector.

use vstd::prelude::*;
use crate::hexgrid::XYCont;

verus! {

/// A table of cells; the cell at `(x, y)` lives at flat index `x * size_y + y`.
#[derive(Debug)]
pub struct Matrix<T> {
    size_y: usize,
    data: Vec<T>,
}

impl<T> Matrix<T> {
    /// The length of one row.
    pub closed spec fn size_y(&self) -> nat {
        self.size_y as nat
    }

    /// All cells, row after row.
    pub closed spec fn cells(&self) -> Seq<T> {
        self.data@
    }

    /// The flat index of the cell at `(x, y)`.
    pub open spec fn slot(&self, x: int, y: int) -> int {
        x * self.size_y() + y
    }

    /// The length of one row.
    pub fn row_len(&self) -> (r: usize)
        ensures
            r == self.size_y(),
    {
        self.size_y
    }

    /// The number of cells.
    pub fn cell_count(&self) -> (r: usize)
        ensures
            r == self.cells().len(),
    {
        self.data.len()
    }
}

/// The flat index of `(x, y)` in rows of length `size_y`, when it is a valid `usize`.
fn flat_index(x: usize, size_y: usize, y: usize) -> (r: Option<usize>)
    ensures
        r == if x * size_y + y <= usize::MAX {
            Some((x * size_y + y) as usize)
        } else {
            None::<usize>
        },
{
    match x.checked_mul(size_y) {
        Some(row) => row.checked_add(y),
        None => {
            assert(x * size_y + y > usize::MAX);
            None
        },
    }
}

proof fn lemma_slot_bound(x: int, y: int, size_x: int, size_y: int)
    requires
        0 <= x < size_x,
        0 <= y < size_y,
    ensures
        0 <= x * size_y + y < size_x * size_y,
        x * size_y + y < (x + 1) * size_y,
        (x + 1) * size_y <= size_x * size_y,
{
    assert(0 <= x * size_y) by (nonlinear_arith)
        requires
            0 <= x,
            0 <= size_y,
    ;
    assert((x + 1) * size_y == x * size_y + size_y) by (nonlinear_arith);
    assert((x + 1) * size_y <= size_x * size_y) by (nonlinear_arith)
        requires
            x + 1 <= size_x,
            0 <= size_y,
    ;
}

/// Builds a table of `size_x` rows of length `size_y` from the leading part of
/// the rows of `s`; every cell is a clone of the cell it was read from.
pub fn new<T: Clone>(size_x: usize, size_y: usize, s: Vec<Vec<T>>) -> (m: Matrix<T>)
    requires
        size_x <= s.len(),
        forall|x: int| 0 <= x < size_x ==> size_y <= (#[trigger] s[x]).len(),
        size_x * size_y <= usize::MAX,
    ensures
        m.size_y() == size_y,
        m.cells().len() == size_x * size_y,
        forall|x: int, y: int|
            0 <= x < size_x && 0 <= y < size_y ==> cloned(
                #[trigger] s[x][y],
                m.cells()[m.slot(x, y)],
            ),
{
    let mut data: Vec<T> = Vec::new();
    let mut x: usize = 0;
    while x < size_x
        invariant
            x <= size_x,
            size_x <= s.len(),
            forall|i: int| 0 <= i < size_x ==> size_y <= (#[trigger] s[i]).len(),
            size_x * size_y <= usize::MAX,
            data@.len() == x * size_y,
            forall|i: int, j: int|
                0 <= i < x && 0 <= j < size_y ==> cloned(#[trigger] s[i][j], data@[i * size_y + j]),
        decreases size_x - x,
    {
        let mut y: usize = 0;
        while y < size_y
            invariant
                x < size_x,
                y <= size_y,
                size_x <= s.len(),
                size_y <= s[x as int].len(),
                size_x * size_y <= usize::MAX,
                data@.len() == x * size_y + y,
                forall|i: int, j: int|
                    0 <= i < x && 0 <= j < size_y ==> cloned(
                        #[trigger] s[i][j],
                        data@[i * size_y + j],
                    ),
                forall|j: int| 0 <= j < y ==> cloned(#[trigger] s[x as int][j], data@[x * size_y + j]),
            decreases size_y - y,
        {
            let ghost before = data@;
            let cell = s[x][y].clone();
            data.push(cell);
            proof {
                assert forall|i: int, j: int| 0 <= i < x && 0 <= j < size_y implies cloned(
                    #[trigger] s[i][j],
                    data@[i * size_y + j],
                ) by {
                    lemma_slot_bound(i, j, x as int, size_y as int);
                    assert(data@[i * size_y + j] == before[i * size_y + j]);
                }
                assert forall|j: int| 0 <= j < y + 1 implies cloned(
                    #[trigger] s[x as int][j],
                    data@[x * size_y + j],
                ) by {
                    if j < y {
                        assert(data@[x * size_y + j] == before[x * size_y + j]);
                    }
                }
            }
            y = y + 1;
        }
        proof {
            assert((x + 1) * size_y == x * size_y + size_y) by (nonlinear_arith);
            assert forall|i: int, j: int| 0 <= i < x + 1 && 0 <= j < size_y implies cloned(
                #[trigger] s[i][j],
                data@[i * size_y + j],
            ) by {
                if i == x {
                    assert(cloned(s[x as int][j], data@[x * size_y + j]));
                }
            }
        }
        x = x + 1;
    }
    Matrix { size_y, data }
}

/// Replaces the cell at `pos`.
pub fn set<T>(m: &mut Matrix<T>, i: T, pos: XYCont<usize>)
    requires
        old(m).slot(pos.x as int, pos.y as int) < old(m).cells().len(),
    ensures
        final(m).size_y() == old(m).size_y(),
        final(m).cells() == old(m).cells().update(old(m).slot(pos.x as int, pos.y as int), i),
    no_unwind
{
    let len = m.data.len();
    proof {
        let x = pos.x as int;
        let w = m.size_y as int;
        assert(0 <= x * w) by (nonlinear_arith)
            requires
                0 <= x,
                0 <= w,
        ;
        assert(x * w + pos.y < m.data@.len());
    }
    let index = pos.x * m.size_y + pos.y;
    m.data[index] = i;
}

/// The cell at `pos`, or `None` when its flat index lies past the last cell.
pub fn get<T>(m: &Matrix<T>, pos: XYCont<usize>) -> (r: Option<&T>)
    ensures
        r == if m.slot(pos.x as int, pos.y as int) < m.cells().len() {
            Some(&m.cells()[m.slot(pos.x as int, pos.y as int)])
        } else {
            None::<&T>
        },
{
    let flat = flat_index(pos.x, m.size_y, pos.y);
    let len = m.data.len();
    match flat {
        Some(index) => if index < len {
            Some(&m.data[index])
        } else {
            None
        },
        None => None,
    }
}

} // verus!
