//! Row-major matrices and the shape rules of the dense operations.
//!
//! The element type is a parameter: the shape rules, the row layout and the
//! gathering of rows do not depend on what an element is.

use crate::error::EngineError;
use crate::text::{decimal, owned, push_count};
use vstd::prelude::*;
use vstd::slice::slice_subrange;
use vstd::string::*;

verus! {

/// A row-major 2-D matrix.
#[derive(Debug)]
pub struct Matrix<T> {
    data: Vec<T>,
    rows: usize,
    cols: usize,
}

/// What a matrix holds.
pub ghost struct MatrixModel<T> {
    pub data: Seq<T>,
    pub rows: int,
    pub cols: int,
}

impl<T> MatrixModel<T> {
    pub open spec fn wf(self) -> bool {
        &&& self.rows >= 0
        &&& self.cols >= 0
        &&& self.data.len() == self.rows * self.cols
    }

    /// Row `i`.
    pub open spec fn row(self, i: int) -> Seq<T> {
        self.data.subrange(i * self.cols, i * self.cols + self.cols)
    }
}

impl<T> View for Matrix<T> {
    type V = MatrixModel<T>;

    closed spec fn view(&self) -> MatrixModel<T> {
        MatrixModel { data: self.data@, rows: self.rows as int, cols: self.cols as int }
    }
}

/// A row lies inside the data of its matrix.
pub proof fn lemma_row_range(i: int, rows: int, cols: int)
    requires
        0 <= i < rows,
        0 <= cols,
    ensures
        0 <= i * cols,
        i * cols + cols <= rows * cols,
{
    assert(0 <= i * cols) by (nonlinear_arith)
        requires
            0 <= i,
            0 <= cols,
    ;
    assert((i + 1) * cols == i * cols + cols) by (nonlinear_arith);
    assert((i + 1) * cols <= rows * cols) by (nonlinear_arith)
        requires
            i + 1 <= rows,
            0 <= cols,
    ;
}

/// Why row-major data does not make up a matrix of that shape.
pub open spec fn size_complaint(len: int, rows: int, cols: int) -> Seq<char> {
    "matrix data has "@ + decimal(len as nat) + " elements, expected "@ + decimal(rows as nat)
        + "x"@ + decimal(cols as nat) + " = "@ + decimal((rows * cols) as nat)
}

impl<T> Matrix<T> {
    pub open spec fn wf(&self) -> bool {
        self@.wf()
    }

    /// Creates a matrix from row-major data.
    pub fn new(data: Vec<T>, rows: usize, cols: usize) -> (r: Result<Self, EngineError>)
        requires
            rows * cols <= usize::MAX,
        ensures
            match r {
                Ok(m) => data@.len() == rows * cols && m.wf() && m@ == (MatrixModel {
                    data: data@,
                    rows: rows as int,
                    cols: cols as int,
                }),
                Err(e) => data@.len() != rows * cols && e.is_internal(
                    size_complaint(data@.len() as int, rows as int, cols as int),
                ),
            },
    {
        let expected: usize = rows * cols;
        if data.len() != expected {
            let mut m = owned("matrix data has ");
            push_count(&mut m, data.len());
            m.append(" elements, expected ");
            push_count(&mut m, rows);
            m.append("x");
            push_count(&mut m, cols);
            m.append(" = ");
            push_count(&mut m, expected);
            return Err(EngineError::Internal(m));
        }
        Ok(Matrix { data, rows, cols })
    }

    pub fn rows(&self) -> (r: usize)
        ensures
            r == self@.rows,
    {
        self.rows
    }

    pub fn cols(&self) -> (r: usize)
        ensures
            r == self@.cols,
    {
        self.cols
    }

    pub fn data(&self) -> (r: &[T])
        ensures
            r@ == self@.data,
    {
        self.data.as_slice()
    }

    /// The elements, to be changed in place; their number stays.
    pub fn data_mut(&mut self) -> (r: &mut [T])
        ensures
            r@ == old(self)@.data,
            final(self)@ == (MatrixModel { data: final(r)@, ..old(self)@ }),
    {
        self.data.as_mut_slice()
    }

    pub fn into_data(self) -> (r: Vec<T>)
        ensures
            r@ == self@.data,
    {
        self.data
    }

    /// Borrows row `i`.
    pub fn row(&self, i: usize) -> (r: Option<&[T]>)
        requires
            self.wf(),
        ensures
            match r {
                Some(row) => i < self@.rows && row@ == self@.row(i as int),
                None => i >= self@.rows,
            },
    {
        if i >= self.rows {
            return None;
        }
        proof {
            assert(self.data.len() == self@.data.len());
            lemma_row_range(i as int, self@.rows, self@.cols);
        }
        let from: usize = i * self.cols;
        Some(slice_subrange(self.data.as_slice(), from, from + self.cols))
    }
}

impl<T: Copy> Matrix<T> {
    /// A matrix with every element `fill`.
    pub fn filled(rows: usize, cols: usize, fill: T) -> (r: Self)
        requires
            rows * cols <= usize::MAX,
        ensures
            r.wf(),
            r@.rows == rows,
            r@.cols == cols,
            forall|i: int| 0 <= i < r@.data.len() ==> #[trigger] r@.data[i] == fill,
    {
        let total: usize = rows * cols;
        let mut data: Vec<T> = Vec::new();
        let mut i: usize = 0;
        while i < total
            invariant
                i <= total,
                data@.len() == i,
                forall|k: int| 0 <= k < i ==> #[trigger] data@[k] == fill,
            decreases total - i,
        {
            data.push(fill);
            i += 1;
        }
        Matrix { data, rows, cols }
    }

    /// The rows with the given numbers, in that order, as a matrix of their
    /// own; or, for a number that is not a row, that number's place in the
    /// list, the first such.
    pub fn gather(&self, numbers: &[usize]) -> (r: Result<Matrix<T>, usize>)
        requires
            self.wf(),
            numbers@.len() * self@.cols <= usize::MAX,
        ensures
            match r {
                Ok(m) => {
                    &&& m.wf()
                    &&& m@.rows == numbers@.len()
                    &&& m@.cols == self@.cols
                    &&& forall|i: int|
                        0 <= i < numbers@.len() ==> (#[trigger] numbers@[i]) < self@.rows
                            && m@.row(i) == self@.row(numbers@[i] as int)
                },
                Err(at) => {
                    &&& at < numbers@.len()
                    &&& numbers@[at as int] >= self@.rows
                    &&& forall|i: int| 0 <= i < at ==> (#[trigger] numbers@[i]) < self@.rows
                },
            },
    {
        let mut data: Vec<T> = Vec::new();
        let cols: usize = self.cols;
        let mut i: usize = 0;
        proof {
            assert(0 * self@.cols == 0);
        }
        while i < numbers.len()
            invariant
                self.wf(),
                cols == self@.cols,
                i <= numbers@.len(),
                data@.len() == i * cols,
                forall|k: int|
                    0 <= k < i ==> (#[trigger] numbers@[k]) < self@.rows && data@.subrange(
                        k * cols,
                        k * cols + cols,
                    ) == self@.row(numbers@[k] as int),
            decreases numbers@.len() - i,
        {
            let ghost before = data@;
            let row = match self.row(numbers[i]) {
                Some(row) => row,
                None => {
                    return Err(i);
                },
            };
            proof {
                lemma_row_range(numbers@[i as int] as int, self@.rows, self@.cols);
            }
            let mut j: usize = 0;
            while j < cols
                invariant
                    j <= cols,
                    row@.len() == cols,
                    data@ == before + row@.take(j as int),
                decreases cols - j,
            {
                data.push(row[j]);
                proof {
                    assert(row@.take(j + 1) =~= row@.take(j as int).push(row@[j as int]));
                    assert(data@ =~= before + row@.take(j + 1));
                }
                j += 1;
            }
            proof {
                assert(row@.take(cols as int) =~= row@);
                assert((i + 1) * cols == i * cols + cols) by (nonlinear_arith);
                assert forall|k: int| 0 <= k < i + 1 implies (#[trigger] numbers@[k]) < self@.rows
                    && data@.subrange(k * cols, k * cols + cols) == self@.row(
                    numbers@[k] as int,
                ) by {
                    if k < i {
                        lemma_row_range(k, i as int, cols as int);
                        assert(data@.subrange(k * cols, k * cols + cols) =~= before.subrange(
                            k * cols,
                            k * cols + cols,
                        ));
                    } else {
                        assert(data@.subrange(k * cols, k * cols + cols) =~= row@);
                    }
                }
            }
            i += 1;
        }
        Ok(Matrix { data, rows: numbers.len(), cols })
    }
}

/// Why a linear layer cannot be applied, if it cannot: `k` is the number of
/// features of the input, and the weight is stored as
/// `[out_features, in_features]`.
pub open spec fn linear_complaint(
    k: int,
    out_features: int,
    in_features: int,
    bias: Option<int>,
) -> Option<Seq<char>> {
    if k != in_features {
        Some(
            "linear shape mismatch: input has "@ + decimal(k as nat) + " features, weight expects "@
                + decimal(in_features as nat),
        )
    } else {
        match bias {
            Some(b) if b != out_features => Some(
                "bias has "@ + decimal(b as nat) + " elements, expected "@ + decimal(
                    out_features as nat,
                ),
            ),
            _ => None,
        }
    }
}

/// Checks the shapes of a linear layer.
pub fn check_linear<T>(x: &Matrix<T>, weight: &Matrix<T>, bias: Option<usize>) -> (r: Result<
    (),
    EngineError,
>)
    ensures
        ({
            let b = match bias {
                Some(n) => Some(n as int),
                None => None,
            };
            let complaint = linear_complaint(x@.cols, weight@.rows, weight@.cols, b);
            match r {
                Ok(()) => complaint is None,
                Err(e) => complaint is Some && e.is_internal(complaint->0),
            }
        }),
{
    if x.cols != weight.cols {
        let mut m = owned("linear shape mismatch: input has ");
        push_count(&mut m, x.cols);
        m.append(" features, weight expects ");
        push_count(&mut m, weight.cols);
        return Err(EngineError::Internal(m));
    }
    match bias {
        Some(n) => {
            if n != weight.rows {
                let mut m = owned("bias has ");
                push_count(&mut m, n);
                m.append(" elements, expected ");
                push_count(&mut m, weight.rows);
                return Err(EngineError::Internal(m));
            }
        },
        None => {},
    }
    Ok(())
}

/// Checks the number of weights of a row normalization.
pub fn check_norm(weights: usize, cols: usize) -> (r: Result<(), EngineError>)
    ensures
        match r {
            Ok(()) => weights == cols,
            Err(e) => weights != cols && e.is_internal(
                "rms_norm weight has "@ + decimal(weights as nat) + " elements, expected "@
                    + decimal(cols as nat),
            ),
        },
{
    if weights != cols {
        let mut m = owned("rms_norm weight has ");
        push_count(&mut m, weights);
        m.append(" elements, expected ");
        push_count(&mut m, cols);
        return Err(EngineError::Internal(m));
    }
    Ok(())
}

/// Checks that a gate and the values it gates have one shape.
pub fn check_gate<T>(gate: &Matrix<T>, up: &Matrix<T>) -> (r: Result<(), EngineError>)
    ensures
        match r {
            Ok(()) => gate@.rows == up@.rows && gate@.cols == up@.cols,
            Err(e) => !(gate@.rows == up@.rows && gate@.cols == up@.cols) && e.is_internal(
                "swiglu shape mismatch: gate is "@ + decimal(gate@.rows as nat) + "x"@ + decimal(
                    gate@.cols as nat,
                ) + ", up is "@ + decimal(up@.rows as nat) + "x"@ + decimal(up@.cols as nat),
            ),
        },
{
    if gate.rows != up.rows || gate.cols != up.cols {
        let mut m = owned("swiglu shape mismatch: gate is ");
        push_count(&mut m, gate.rows);
        m.append("x");
        push_count(&mut m, gate.cols);
        m.append(", up is ");
        push_count(&mut m, up.rows);
        m.append("x");
        push_count(&mut m, up.cols);
        return Err(EngineError::Internal(m));
    }
    Ok(())
}

/// Rotary position tables: one row of cosines and one of sines for each
/// position, each half as wide as a head.
///
/// Both depend on the position and the head dimension alone, never on the
/// data, so they are computed once, by the caller that has the arithmetic, and
/// looked up here.
#[derive(Debug)]
pub struct RopeTable<T> {
    cos: Matrix<T>,
    sin: Matrix<T>,
    head_dim: usize,
    max_positions: usize,
}

/// The width of a table's rows, or why there is none.
pub fn rope_width(head_dim: usize) -> (r: Result<usize, EngineError>)
    ensures
        match r {
            Ok(half) => head_dim % 2 == 0 && half * 2 == head_dim,
            Err(e) => head_dim % 2 != 0 && e.is_internal(
                "RoPE requires an even head_dim, got "@ + decimal(head_dim as nat),
            ),
        },
{
    if head_dim % 2 != 0 {
        let mut m = owned("RoPE requires an even head_dim, got ");
        push_count(&mut m, head_dim);
        return Err(EngineError::Internal(m));
    }
    Ok(head_dim / 2)
}

impl<T> RopeTable<T> {
    pub closed spec fn cosines(&self) -> MatrixModel<T> {
        self.cos@
    }

    pub closed spec fn sines(&self) -> MatrixModel<T> {
        self.sin@
    }

    pub closed spec fn width(&self) -> int {
        self.head_dim as int
    }

    /// Both tables have a row for each position, half a head wide.
    pub open spec fn wf(&self) -> bool {
        &&& self.cosines().wf()
        &&& self.sines().wf()
        &&& self.cosines().rows == self.sines().rows
        &&& self.width() % 2 == 0
        &&& self.cosines().cols * 2 == self.width()
        &&& self.sines().cols * 2 == self.width()
        &&& self.counted()
    }

    pub closed spec fn counted(&self) -> bool {
        self.max_positions == self.cos@.rows
    }

    /// A table of the given rows, for heads of that dimension.
    pub fn new(head_dim: usize, max_positions: usize, cos: Vec<T>, sin: Vec<T>) -> (r: Result<
        Self,
        EngineError,
    >)
        requires
            max_positions * (head_dim / 2) <= usize::MAX,
            cos@.len() == max_positions * (head_dim / 2),
            sin@.len() == max_positions * (head_dim / 2),
        ensures
            match r {
                Ok(t) => {
                    &&& head_dim % 2 == 0
                    &&& t.wf()
                    &&& t.width() == head_dim
                    &&& t.cosines().rows == max_positions
                    &&& t.cosines().data == cos@
                    &&& t.sines().data == sin@
                },
                Err(e) => head_dim % 2 != 0 && e.is_internal(
                    "RoPE requires an even head_dim, got "@ + decimal(head_dim as nat),
                ),
            },
    {
        let half: usize = match rope_width(head_dim) {
            Ok(half) => half,
            Err(e) => {
                return Err(e);
            },
        };
        Ok(
            RopeTable {
                cos: Matrix { data: cos, rows: max_positions, cols: half },
                sin: Matrix { data: sin, rows: max_positions, cols: half },
                head_dim,
                max_positions,
            },
        )
    }

    pub fn head_dim(&self) -> (r: usize)
        ensures
            r == self.width(),
    {
        self.head_dim
    }

    pub fn max_positions(&self) -> (r: usize)
        requires
            self.wf(),
        ensures
            r == self.cosines().rows,
    {
        self.max_positions
    }

    /// The cos/sin rows for a given position.
    pub fn at(&self, pos: usize) -> (r: Option<(&[T], &[T])>)
        requires
            self.wf(),
        ensures
            match r {
                Some((cos, sin)) => pos < self.cosines().rows && cos@ == self.cosines().row(
                    pos as int,
                ) && sin@ == self.sines().row(pos as int),
                None => pos >= self.cosines().rows,
            },
    {
        if pos >= self.max_positions {
            return None;
        }
        match (self.cos.row(pos), self.sin.row(pos)) {
            (Some(cos), Some(sin)) => Some((cos, sin)),
            _ => None,
        }
    }
}

/// Checks that table rows fit a head of `len` elements.
pub fn check_rope(len: usize, cos: usize, sin: usize) -> (r: Result<usize, EngineError>)
    ensures
        match r {
            Ok(half) => half == len / 2 && cos == half && sin == half,
            Err(e) => (cos != len / 2 || sin != len / 2) && e.is_internal(
                "RoPE table width "@ + decimal(cos as nat) + " does not match half of head_dim "@
                    + decimal((len / 2) as nat),
            ),
        },
{
    let half: usize = len / 2;
    if cos != half || sin != half {
        let mut m = owned("RoPE table width ");
        push_count(&mut m, cos);
        m.append(" does not match half of head_dim ");
        push_count(&mut m, half);
        return Err(EngineError::Internal(m));
    }
    Ok(half)
}

/// The pairs of a head vector that are rotated together: the first half with
/// the second, each element with the one half a head further on. Every element
/// of an even-sized head is in exactly one pair.
pub proof fn law_rotated_pairs_cover_the_head(len: int, at: int)
    requires
        len % 2 == 0,
        0 <= at < len,
    ensures
        (at < len / 2) != (0 <= at - len / 2 < len / 2),
        at < len / 2 ==> at + len / 2 < len,
{
}

} // verus!
