//! The change to a base weight: how it comes from two low-rank factors.

use crate::dtype::{merge_size, mergeable, stored_size, unsupported, Dtype};
use crate::error::{Fault, Result, SurgeryError};
use crate::numerics::{Grid, Matrix, Numerics};
use vstd::prelude::*;
use vstd::slice::slice_to_vec;

verus! {

/// How the change to a base weight comes from the two low-rank factors.
#[derive(Clone, Copy, PartialEq, Eq, Structural, Debug)]
pub enum DeltaLayout {
    /// `B @ A`, for a base weight stored as `[out_features, in_features]`.
    Product,
    /// `(B @ A)^T`, for a base weight stored as `[in_features, out_features]`.
    ProductTransposed,
    /// `B @ A^T`, for an `A` that is stored transposed, as `[in_features, r]`.
    FactorTransposed,
}

/// The dimensions of a matrix.
pub struct Dims {
    pub rows: nat,
    pub cols: nat,
}

/// The dimensions of a matrix.
pub open spec fn dims<T>(grid: Grid<T>) -> Dims {
    Dims { rows: grid.rows, cols: grid.cols }
}

/// How the change to a base weight of these dimensions comes from factors of these dimensions,
/// if they fit. Without `fan_in_fan_out` it is `B @ A`. With it, it is `(B @ A)^T`; only if the
/// factors do not fit that, `A` may be stored transposed.
pub open spec fn delta_layout(base: Dims, a: Dims, b: Dims, fan_in_fan_out: bool) -> Option<
    DeltaLayout,
> {
    if !fan_in_fan_out {
        if b.rows == base.rows && a.cols == base.cols && b.cols == a.rows {
            Some(DeltaLayout::Product)
        } else {
            None
        }
    } else if b.rows == base.cols && a.cols == base.rows && b.cols == a.rows {
        Some(DeltaLayout::ProductTransposed)
    } else if b.rows == base.rows && a.rows == base.cols && b.cols == a.cols {
        Some(DeltaLayout::FactorTransposed)
    } else {
        None
    }
}

/// What is said of factors that do not fit: the first dimension that is off.
pub open spec fn factor_fault(base: Dims, a: Dims, b: Dims, fan_in_fan_out: bool) -> Fault {
    let b_rows = if fan_in_fan_out {
        base.cols
    } else {
        base.rows
    };
    let a_cols = if fan_in_fan_out {
        base.rows
    } else {
        base.cols
    };
    if b.rows != b_rows {
        Fault::ShapeMismatch {
            name: "lora_B rows vs base"@,
            expected: seq![b_rows as usize],
            got: seq![b.rows as usize],
        }
    } else if a.cols != a_cols {
        Fault::ShapeMismatch {
            name: "lora_A cols vs base"@,
            expected: seq![a_cols as usize],
            got: seq![a.cols as usize],
        }
    } else {
        Fault::ShapeMismatch {
            name: "LoRA matmul inner dimension"@,
            expected: seq![b.cols as usize],
            got: seq![a.rows as usize],
        }
    }
}

/// What keeps low-rank factors from being merged into a base tensor: the base has not two
/// dimensions, is of a type that is not merged, or has another number of bytes, or the factors
/// do not fit it.
pub open spec fn lora_fault(
    count: nat,
    shape: Seq<usize>,
    dtype: Dtype,
    a: Dims,
    b: Dims,
    fan_in_fan_out: bool,
) -> Option<Fault> {
    if shape.len() != 2 {
        Some(Fault::ShapeMismatch { name: "base tensor"@, expected: seq![0, 0], got: shape })
    } else if !mergeable(dtype) {
        Some(unsupported("output"@, dtype))
    } else if count != shape[0] * shape[1] * stored_size(dtype) {
        Some(
            Fault::ShapeMismatch {
                name: "base tensor bytes"@,
                expected: seq![(shape[0] * shape[1] * stored_size(dtype)) as usize],
                got: seq![count as usize],
            },
        )
    } else {
        let base = Dims { rows: shape[0] as nat, cols: shape[1] as nat };
        if delta_layout(base, a, b, fan_in_fan_out) is None {
            Some(factor_fault(base, a, b, fan_in_fan_out))
        } else {
            None
        }
    }
}

/// Whether the size of a base tensor can be counted, if it is of two dimensions and of a type that
/// is merged.
pub open spec fn countable_base(dtype: Dtype, shape: Seq<usize>) -> bool {
    shape.len() == 2 && mergeable(dtype) ==> shape[0] * shape[1] * stored_size(dtype) <= usize::MAX
}

/// An error for a dimension, or a number of bytes, that is another than expected.
fn size_mismatch(name: &str, expected: usize, got: usize) -> (r: SurgeryError)
    ensures
        r@ == (Fault::ShapeMismatch { name: name@, expected: seq![expected], got: seq![got] }),
{
    let r = SurgeryError::ShapeMismatch {
        name: name.to_owned(),
        expected: vec![expected],
        got: vec![got],
    };
    assert(r@->ShapeMismatch_expected =~= seq![expected]);
    assert(r@->ShapeMismatch_got =~= seq![got]);
    r
}

/// Checks that low-rank factors can be merged into a base tensor, and tells how.
pub(crate) fn check_lora<T>(
    count: usize,
    shape: &[usize],
    dtype: Dtype,
    lora_a: &Matrix<T>,
    lora_b: &Matrix<T>,
    fan_in_fan_out: bool,
) -> (r: Result<DeltaLayout>)
    requires
        countable_base(dtype, shape@),
    ensures
        match r {
            Ok(layout) => lora_fault(
                count as nat,
                shape@,
                dtype,
                dims(lora_a@),
                dims(lora_b@),
                fan_in_fan_out,
            ) is None && delta_layout(
                Dims { rows: shape@[0] as nat, cols: shape@[1] as nat },
                dims(lora_a@),
                dims(lora_b@),
                fan_in_fan_out,
            ) == Some(layout),
            Err(error) => lora_fault(
                count as nat,
                shape@,
                dtype,
                dims(lora_a@),
                dims(lora_b@),
                fan_in_fan_out,
            ) == Some(error@),
        },
{
    if shape.len() != 2 {
        let expected: Vec<usize> = vec![0, 0];
        let error = SurgeryError::ShapeMismatch {
            name: "base tensor".to_owned(),
            expected,
            got: slice_to_vec(shape),
        };
        assert(error@->ShapeMismatch_expected =~= seq![0usize, 0usize]);
        return Err(error);
    }
    let rows: usize = shape[0];
    let cols: usize = shape[1];
    let size: usize = match merge_size(dtype, "output") {
        Ok(size) => size,
        Err(error) => {
            return Err(error);
        },
    };
    proof {
        assert(rows * cols <= rows * cols * size) by (nonlinear_arith)
            requires
                size >= 1,
                0 <= rows * cols,
        ;
    }
    let expected: usize = rows * cols * size;
    if count != expected {
        return Err(size_mismatch("base tensor bytes", expected, count));
    }
    let a_rows: usize = lora_a.nrows();
    let a_cols: usize = lora_a.ncols();
    let b_rows: usize = lora_b.nrows();
    let b_cols: usize = lora_b.ncols();
    let (expected_b_rows, expected_a_cols) = if fan_in_fan_out {
        (cols, rows)
    } else {
        (rows, cols)
    };
    if b_rows == expected_b_rows && a_cols == expected_a_cols && b_cols == a_rows {
        return Ok(
            if fan_in_fan_out {
                DeltaLayout::ProductTransposed
            } else {
                DeltaLayout::Product
            },
        );
    }
    if fan_in_fan_out && b_rows == rows && a_rows == cols && b_cols == a_cols {
        return Ok(DeltaLayout::FactorTransposed);
    }
    if b_rows != expected_b_rows {
        return Err(size_mismatch("lora_B rows vs base", expected_b_rows, b_rows));
    }
    if a_cols != expected_a_cols {
        return Err(size_mismatch("lora_A cols vs base", expected_a_cols, a_cols));
    }
    Err(size_mismatch("LoRA matmul inner dimension", b_cols, a_rows))
}

/// The left factor of the product that gives the rows of the change from `start` up to `end`.
pub open spec fn left_factor<T>(
    layout: DeltaLayout,
    a: Grid<T>,
    b: Grid<T>,
    start: int,
    end: int,
) -> Grid<T> {
    match layout {
        DeltaLayout::Product | DeltaLayout::FactorTransposed => b.band(start, end),
        DeltaLayout::ProductTransposed => a.transposed().band(start, end),
    }
}

/// The right factor of the products that give the rows of the change.
pub open spec fn right_factor<T>(layout: DeltaLayout, a: Grid<T>, b: Grid<T>) -> Grid<T> {
    match layout {
        DeltaLayout::Product => a,
        DeltaLayout::ProductTransposed => b.transposed(),
        DeltaLayout::FactorTransposed => a.transposed(),
    }
}

/// The rows of a part of the left factor are those rows of the whole.
pub(crate) proof fn lemma_left_factor_band<T>(
    layout: DeltaLayout,
    a: Grid<T>,
    b: Grid<T>,
    rows: int,
    start: int,
    end: int,
)
    requires
        0 <= start <= end <= rows,
        a.values.len() == a.rows * a.cols,
        b.values.len() == b.rows * b.cols,
        layout == DeltaLayout::ProductTransposed ==> rows == a.cols,
        layout != DeltaLayout::ProductTransposed ==> rows == b.rows,
    ensures
        left_factor(layout, a, b, 0, rows).band(start, end) == left_factor(
            layout,
            a,
            b,
            start,
            end,
        ),
{
    let cols = if layout == DeltaLayout::ProductTransposed {
        a.rows
    } else {
        b.cols
    };
    assert(0 * cols == 0) by (nonlinear_arith);
    assert(0 <= start * cols <= end * cols <= rows * cols) by (nonlinear_arith)
        requires
            0 <= start <= end <= rows,
    ;
    assert(a.rows * a.cols == a.cols * a.rows) by (nonlinear_arith);
    assert(left_factor(layout, a, b, 0, rows).band(start, end) =~= left_factor(
        layout,
        a,
        b,
        start,
        end,
    ));
}

/// Whether a matrix is the product of the factors' parts for the rows from `start` up to `end` of
/// the change.
pub open spec fn delta_product<N: Numerics>(
    num: &N,
    a: Grid<N::Double>,
    b: Grid<N::Double>,
    layout: DeltaLayout,
    start: int,
    end: int,
    product: Matrix<N::Double>,
) -> bool {
    exists|left: Matrix<N::Double>, right: Matrix<N::Double>|
        left@ == left_factor(layout, a, b, start, end) && right@ == right_factor(layout, a, b)
            && #[trigger] call_ensures(N::product, (num, &left, &right), product)
}

/// Whether an error says that the product of the factors for some rows has other dimensions
/// than those rows of the base.
pub open spec fn product_failed<N: Numerics>(
    num: &N,
    a: Grid<N::Double>,
    b: Grid<N::Double>,
    layout: DeltaLayout,
    cols: nat,
    error: Fault,
) -> bool {
    exists|
        start: int,
        height: usize,
        product: Matrix<N::Double>,
    | #[trigger]
        delta_product(num, a, b, layout, start, start + height, product) && !(product@.rows
            == height && product@.cols == cols) && error == (
        Fault::ShapeMismatch {
            name: "LoRA delta"@,
            expected: seq![height, cols as usize],
            got: seq![product@.rows as usize, product@.cols as usize],
        })
}

/// Multiplies the parts of the factors that give the rows from `start` up to `end` of the change.
pub(crate) fn delta_rows<N: Numerics>(
    lora_a: &Matrix<N::Double>,
    lora_b: &Matrix<N::Double>,
    layout: DeltaLayout,
    cols: usize,
    start: usize,
    end: usize,
    num: &N,
) -> (r: Result<Matrix<N::Double>>)
    requires
        start <= end,
        layout == DeltaLayout::ProductTransposed ==> end <= lora_a@.cols,
        layout != DeltaLayout::ProductTransposed ==> end <= lora_b@.rows,
    ensures
        match r {
            Ok(product) => product@.rows == end - start && product@.cols == cols && delta_product(
                num,
                lora_a@,
                lora_b@,
                layout,
                start as int,
                end as int,
                product,
            ),
            Err(error) => product_failed(num, lora_a@, lora_b@, layout, cols as nat, error@),
        },
{
    let left = match layout {
        DeltaLayout::Product | DeltaLayout::FactorTransposed => lora_b.band(start, end),
        DeltaLayout::ProductTransposed => lora_a.transposed_band(start, end),
    };
    let product;
    let ghost right_matrix: Matrix<N::Double>;
    match layout {
        DeltaLayout::Product => {
            product = num.product(&left, lora_a);
            proof {
                right_matrix = *lora_a;
            }
        },
        DeltaLayout::ProductTransposed => {
            let right = lora_b.transposed_band(0, lora_b.ncols());
            proof {
                assert(lora_b@.rows * lora_b@.cols == lora_b@.cols * lora_b@.rows)
                    by (nonlinear_arith);
                lemma_whole_band(lora_b@.transposed());
                right_matrix = right;
            }
            product = num.product(&left, &right);
        },
        DeltaLayout::FactorTransposed => {
            let right = lora_a.transposed_band(0, lora_a.ncols());
            proof {
                assert(lora_a@.rows * lora_a@.cols == lora_a@.cols * lora_a@.rows)
                    by (nonlinear_arith);
                lemma_whole_band(lora_a@.transposed());
                right_matrix = right;
            }
            product = num.product(&left, &right);
        },
    }
    assert(delta_product(num, lora_a@, lora_b@, layout, start as int, end as int, product)) by {
        assert(call_ensures(N::product, (num, &left, &right_matrix), product));
    }
    let height: usize = end - start;
    let rows: usize = product.nrows();
    if rows != height || product.ncols() != cols {
        let error = SurgeryError::ShapeMismatch {
            name: "LoRA delta".to_owned(),
            expected: vec![height, cols],
            got: vec![rows, product.ncols()],
        };
        proof {
            assert(error@->ShapeMismatch_expected =~= seq![height, cols]);
            assert(error@->ShapeMismatch_got =~= seq![
                product@.rows as usize,
                product@.cols as usize,
            ]);
            assert(start + height == end);
        }
        return Err(error);
    }
    Ok(product)
}

pub(crate) proof fn lemma_whole_band<T>(grid: Grid<T>)
    requires
        grid.values.len() == grid.rows * grid.cols,
    ensures
        grid.band(0, grid.rows as int) == grid,
{
    assert(0 * grid.cols == 0) by (nonlinear_arith);
    assert(grid.band(0, grid.rows as int).values =~= grid.values);
}

/// Whether a product has the rows of its left factor and the columns of its right factor, if the
/// factors fit each other.
pub open spec fn dimensioned<N: Numerics>(num: &N) -> bool {
    forall|left: Matrix<N::Double>, right: Matrix<N::Double>, product: Matrix<N::Double>| #[trigger]
        call_ensures(N::product, (num, &left, &right), product) && left@.cols == right@.rows
            ==> product@.rows == left@.rows && product@.cols == right@.cols
}

/// Whether the product of two transposed matrices, in the other order, is the transposed product.
pub open spec fn transposes_products<N: Numerics>(num: &N) -> bool {
    forall|
        left: Matrix<N::Double>,
        right: Matrix<N::Double>,
        product: Matrix<N::Double>,
        first: Matrix<N::Double>,
        second: Matrix<N::Double>,
        other: Matrix<N::Double>,
    |
        #[trigger] call_ensures(N::product, (num, &left, &right), product)
            && #[trigger] call_ensures(N::product, (num, &first, &second), other) && first@
            == right@.transposed() && second@ == left@.transposed() ==> other@
            == product@.transposed()
}

/// With `fan_in_fan_out` the change is that of a merge without it, transposed.
pub proof fn law_fan_in_fan_out_transposes_the_change<N: Numerics>(
    num: &N,
    a: Matrix<N::Double>,
    b: Matrix<N::Double>,
    plain: Matrix<N::Double>,
    transposed: Matrix<N::Double>,
)
    requires
        transposes_products(num),
        a@.values.len() == a@.rows * a@.cols,
        b@.values.len() == b@.rows * b@.cols,
        delta_product(num, a@, b@, DeltaLayout::Product, 0, b@.rows as int, plain),
        delta_product(
            num,
            a@,
            b@,
            DeltaLayout::ProductTransposed,
            0,
            a@.cols as int,
            transposed,
        ),
    ensures
        transposed@ == plain@.transposed(),
{
    lemma_whole_band(b@);
    assert(a@.rows * a@.cols == a@.cols * a@.rows) by (nonlinear_arith);
    lemma_whole_band(a@.transposed());
}

} // verus!
