//! A fixed-size matrix stored row by row.
use vstd::prelude::*;

verus! {

/// An `R` by `C` matrix of copyable cells.
pub struct Matrix<T: Clone + Copy, const R: usize, const C: usize> {
    data: [[T; C]; R],
}

impl<T: Clone + Copy, const R: usize, const C: usize> Matrix<T, R, C> {
    /// The cells, row by row.
    pub closed spec fn cells(&self) -> Seq<Seq<T>> {
        self.data@.map_values(|row: [T; C]| row@)
    }

    /// Creates a matrix whose every cell holds the one value the constructor returns; the
    /// constructor is called once.
    pub fn new(constructor: impl Fn() -> T) -> (m: Self)
        requires
            call_requires(constructor, ()),
        ensures
            m.cells().len() == R,
            exists|value: T|
                call_ensures(constructor, (), value) && forall|i: int, j: int|
                    0 <= i < R && 0 <= j < C ==> #[trigger] m.cells()[i][j] == value,
            forall|i: int| 0 <= i < R ==> #[trigger] m.cells()[i].len() == C,
    {
        let value = constructor();
        let row = [value; C];
        let data = [row; R];
        let m = Matrix { data };
        proof {
            assert(forall|j: int| 0 <= j < C ==> row@[j] == value);
            assert(forall|i: int| 0 <= i < R ==> data@[i] == row);
            assert(forall|i: int, j: int|
                0 <= i < R && 0 <= j < C ==> #[trigger] m.cells()[i][j] == value);
        }
        m
    }
}

} // verus!
