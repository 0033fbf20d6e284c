//! That a merge is `base + (alpha / r) * (B @ A)`: what comes out of it in a ring in which the
//! arithmetic is exact.

use crate::config::Settings;
use crate::convert::{
    bits_at, element_bytes, law_bits_of_element_bytes, matrix_fault, piece, single_values,
    stores_all, stores_single,
};
use crate::delta::{
    delta_layout, delta_product, dims, left_factor, lora_fault, right_factor, DeltaLayout, Dims,
};
use crate::dtype::{stored_size, Dtype};
use crate::error::Result;
use crate::header::{elements, sizable, Contents, Head};
use crate::mapped::{lemma_position, position, sound, tensor_named};
use crate::merge::{
    lemma_rows_size, merge_outcome, merged_element, merged_elements, merged_tensor, merged_tile,
    row_bytes, sums, tile_end, tile_height,
};
use crate::numerics::{lemma_place_within, Grid, Matrix, Numerics};
use crate::process::{
    converts, factor_layout, lemma_countable, reads_factor, shape_dims, tensor_fault,
    tensor_output, Plan,
};
use crate::sink::{wrote, Sink};
use crate::tiling::lemma_element_in_rows;
use vstd::arithmetic::div_mod::lemma_fundamental_div_mod_converse;
use vstd::prelude::*;

verus! {

/// Numbers that stand for those of an arithmetic, with a sum and a product: those in single and in
/// double precision, and those that the bits of an element stand for.
#[verifier::reject_recursive_types(N)]
#[verifier::reject_recursive_types(R)]
pub struct Model<N: Numerics, R> {
    pub single: spec_fn(N::Single) -> R,
    pub double: spec_fn(N::Double) -> R,
    pub element: spec_fn(Dtype, nat) -> R,
    pub zero: R,
    pub plus: spec_fn(R, R) -> R,
    pub times: spec_fn(R, R) -> R,
}

/// The sum of the products of two rows of numbers.
pub open spec fn dot<N: Numerics, R>(
    m: Model<N, R>,
    left: spec_fn(int) -> R,
    right: spec_fn(int) -> R,
    count: nat,
) -> R
    decreases count,
{
    if count == 0 {
        m.zero
    } else {
        (m.plus)(
            dot(m, left, right, (count - 1) as nat),
            (m.times)(left(count - 1), right(count - 1)),
        )
    }
}

/// Whether elements are read as the numbers that they stand for, and written as such.
pub open spec fn exact_elements<N: Numerics, R>(num: &N, m: Model<N, R>) -> bool {
    &&& forall|dtype: Dtype, bits: u32, x: N::Single| #[trigger]
        call_ensures(N::single, (num, dtype, bits), x) ==> (m.single)(x) == (m.element)(
            dtype,
            bits as nat,
        )
    &&& forall|dtype: Dtype, bits: u32, x: N::Double| #[trigger]
        call_ensures(N::double, (num, dtype, bits), x) ==> (m.double)(x) == (m.element)(
            dtype,
            bits as nat,
        )
    &&& forall|dtype: Dtype, x: N::Single, bits: u32| #[trigger]
        call_ensures(N::single_bits, (num, dtype, &x), bits) ==> (m.element)(
            dtype,
            if dtype == Dtype::F32 {
                bits as nat
            } else {
                (bits % 0x1_0000) as nat
            },
        ) == (m.single)(x)
    &&& forall|dtype: Dtype, x: N::Double, bits: u32| #[trigger]
        call_ensures(N::double_bits, (num, dtype, &x), bits) ==> (m.element)(
            dtype,
            if dtype == Dtype::F32 {
                bits as nat
            } else {
                (bits % 0x1_0000) as nat
            },
        ) == (m.double)(x)
}

/// Whether sums and products are those of the numbers.
pub open spec fn exact_sums<N: Numerics, R>(num: &N, m: Model<N, R>) -> bool {
    &&& forall|x: N::Single, y: N::Double| #[trigger]
        call_ensures(N::widened, (num, &x), y) ==> (m.double)(y) == (m.single)(x)
    &&& forall|x: N::Single, y: N::Single, z: N::Single| #[trigger]
        call_ensures(N::sum, (num, &x, &y), z) ==> (m.single)(z) == (m.plus)(
            (m.single)(x),
            (m.single)(y),
        )
    &&& forall|x: N::Double, y: N::Double, z: N::Double| #[trigger]
        call_ensures(N::double_sum, (num, &x, &y), z) ==> (m.double)(z) == (m.plus)(
            (m.double)(x),
            (m.double)(y),
        )
    &&& forall|x: N::Double, y: N::Double, z: N::Double| #[trigger]
        call_ensures(N::scaled, (num, &x, &y), z) ==> (m.double)(z) == (m.times)(
            (m.double)(x),
            (m.double)(y),
        )
    &&& forall|x: R, y: R| #[trigger] (m.times)(x, y) == (m.times)(y, x)
}

/// The number at a place of a matrix.
pub open spec fn entry<N: Numerics, R>(
    m: Model<N, R>,
    grid: Grid<N::Double>,
    row: int,
    col: int,
) -> R {
    (m.double)(grid.values[row * grid.cols + col])
}

/// Whether products of matrices are those of the numbers.
pub open spec fn exact_products<N: Numerics, R>(num: &N, m: Model<N, R>) -> bool {
    forall|left: Matrix<N::Double>, right: Matrix<N::Double>, p: Matrix<N::Double>| #[trigger]
        call_ensures(N::product, (num, &left, &right), p) && left@.cols == right@.rows
            ==> is_product(m, left@, right@, p@)
}

/// Whether a matrix is the product of two others: in each place the sum of the products of a row
/// of the one and a column of the other.
pub open spec fn is_product<N: Numerics, R>(
    m: Model<N, R>,
    left: Grid<N::Double>,
    right: Grid<N::Double>,
    p: Grid<N::Double>,
) -> bool {
    &&& p.rows == left.rows
    &&& p.cols == right.cols
    &&& forall|i: int, j: int|
        0 <= i < p.rows && 0 <= j < p.cols ==> #[trigger] entry(m, p, i, j) == dot(
            m,
            |k: int| entry(m, left, i, k),
            |k: int| entry(m, right, k, j),
            left.cols,
        )
}

/// Whether an arithmetic is exact on the numbers of a model.
pub open spec fn exact<N: Numerics, R>(num: &N, m: Model<N, R>) -> bool {
    exact_elements(num, m) && exact_sums(num, m) && exact_products(num, m)
}

/// The number that bytes stand for, least significant byte first.
pub open spec fn little_endian(bytes: Seq<u8>) -> nat
    decreases bytes.len(),
{
    if bytes.len() == 0 {
        0
    } else {
        bytes[0] as nat + 256 * little_endian(bytes.drop_first())
    }
}

/// The number that the element at a place of a tensor stands for: of two bytes in a tensor of
/// sixteen bits, of four in one of thirty-two.
pub open spec fn weight<N: Numerics, R>(
    m: Model<N, R>,
    dtype: Dtype,
    bytes: Seq<u8>,
    place: int,
) -> R {
    if dtype == Dtype::F32 {
        (m.element)(dtype, little_endian(bytes.subrange(4 * place, 4 * place + 4)))
    } else {
        (m.element)(dtype, little_endian(bytes.subrange(2 * place, 2 * place + 2)))
    }
}

/// Sums of products of the same numbers are the same.
proof fn lemma_same_dot<N: Numerics, R>(
    m: Model<N, R>,
    left: spec_fn(int) -> R,
    right: spec_fn(int) -> R,
    first: spec_fn(int) -> R,
    second: spec_fn(int) -> R,
    count: nat,
)
    requires
        forall|k: int|
            0 <= k < count ==> #[trigger] (m.times)(left(k), right(k)) == (m.times)(
                first(k),
                second(k),
            ),
    ensures
        dot(m, left, right, count) == dot(m, first, second, count),
    decreases count,
{
    if count > 0 {
        lemma_same_dot(m, left, right, first, second, (count - 1) as nat);
        let k = count - 1;
        assert((m.times)(left(k), right(k)) == (m.times)(first(k), second(k)));
    }
}

/// The bits of an element are the number that its bytes stand for.
pub(crate) proof fn lemma_little_endian(bytes: Seq<u8>, dtype: Dtype, place: int)
    requires
        dtype == Dtype::F16 || dtype == Dtype::BF16 || dtype == Dtype::F32,
        0 <= place,
        (place + 1) * stored_size(dtype) <= bytes.len(),
    ensures
        bits_at(bytes, stored_size(dtype), place) == (if dtype == Dtype::F32 {
            little_endian(bytes.subrange(4 * place, 4 * place + 4))
        } else {
            little_endian(bytes.subrange(2 * place, 2 * place + 2))
        }),
{
    reveal_with_fuel(little_endian, 5);
    if dtype == Dtype::F32 {
        let s = bytes.subrange(4 * place, 4 * place + 4);
        assert(s.drop_first().drop_first().drop_first().drop_first().len() == 0);
        assert(little_endian(s) == s[0] + 256 * (s[1] + 256 * (s[2] + 256 * s[3])));
    } else {
        let s = bytes.subrange(2 * place, 2 * place + 2);
        assert(s.drop_first().drop_first().len() == 0);
        assert(little_endian(s) == s[0] + 256 * s[1]);
    }
}

/// The number at a place in some rows of a matrix.
pub(crate) proof fn lemma_band_entry<N: Numerics, R>(
    m: Model<N, R>,
    grid: Grid<N::Double>,
    start: int,
    end: int,
    i: int,
    k: int,
)
    requires
        0 <= start <= i < end <= grid.rows,
        0 <= k < grid.cols,
        grid.values.len() == grid.rows * grid.cols,
    ensures
        entry(m, grid.band(start, end), i - start, k) == entry(m, grid, i, k),
{
    let cols = grid.cols as int;
    assert((i - start) * cols + start * cols == i * cols) by (nonlinear_arith);
    assert(0 <= (i - start) * cols) by (nonlinear_arith)
        requires
            start <= i,
            0 <= cols,
    ;
    assert(0 <= start * cols) by (nonlinear_arith)
        requires
            0 <= start,
            0 <= cols,
    ;
    assert(i * cols + cols <= end * cols && end * cols <= grid.rows * cols) by (nonlinear_arith)
        requires
            i + 1 <= end <= grid.rows,
            0 <= cols,
    ;
}

/// The number at a place of a transposed matrix.
pub(crate) proof fn lemma_transposed_entry<N: Numerics, R>(
    m: Model<N, R>,
    grid: Grid<N::Double>,
    i: int,
    k: int,
)
    requires
        0 <= i < grid.cols,
        0 <= k < grid.rows,
        grid.values.len() == grid.rows * grid.cols,
    ensures
        entry(m, grid.transposed(), i, k) == entry(m, grid, k, i),
        grid.transposed().values.len() == grid.transposed().rows * grid.transposed().cols,
{
    let rows = grid.rows as int;
    let at = i * rows + k;
    lemma_fundamental_div_mod_converse(at, rows, i, k);
    lemma_place_within(i, grid.cols as int, rows, k + 1);
    assert(grid.cols * grid.rows == grid.rows * grid.cols) by (nonlinear_arith);
}

/// The change in a place: `B @ A`, its transpose, or `B @ A^T`.
pub open spec fn change<N: Numerics, R>(
    m: Model<N, R>,
    a: Grid<N::Double>,
    b: Grid<N::Double>,
    fan_in_fan_out: bool,
    rows: int,
    cols: int,
    i: int,
    j: int,
) -> R {
    if !fan_in_fan_out {
        dot(m, |k: int| entry(m, b, i, k), |k: int| entry(m, a, k, j), b.cols)
    } else if b.rows == cols && a.cols == rows && b.cols == a.rows {
        dot(m, |k: int| entry(m, b, j, k), |k: int| entry(m, a, k, i), b.cols)
    } else {
        dot(m, |k: int| entry(m, b, i, k), |k: int| entry(m, a, j, k), b.cols)
    }
}

/// The product of the parts of the factors for some rows holds the change for these rows.
proof fn lemma_change<N: Numerics, R>(
    num: &N,
    m: Model<N, R>,
    a: Matrix<N::Double>,
    b: Matrix<N::Double>,
    layout: DeltaLayout,
    base: Dims,
    fan_in_fan_out: bool,
    start: int,
    end: int,
    p: Matrix<N::Double>,
    i: int,
    j: int,
)
    requires
        exact(num, m),
        a@.values.len() == a@.rows * a@.cols,
        b@.values.len() == b@.rows * b@.cols,
        delta_layout(base, dims(a@), dims(b@), fan_in_fan_out) == Some(layout),
        delta_product(num, a@, b@, layout, start, end, p),
        0 <= start <= i < end <= base.rows,
        0 <= j < base.cols,
    ensures
        p@.rows == end - start,
        p@.cols == base.cols,
        entry(m, p@, i - start, j) == change(
            m,
            a@,
            b@,
            fan_in_fan_out,
            base.rows as int,
            base.cols as int,
            i,
            j,
        ),
{
    let (left, right) = choose|left: Matrix<N::Double>, right: Matrix<N::Double>|
        left@ == left_factor(layout, a@, b@, start, end) && right@ == right_factor(
            layout,
            a@,
            b@,
        ) && #[trigger] call_ensures(N::product, (num, &left, &right), p);
    assert(left@.cols == right@.rows);
    assert(is_product(m, left@, right@, p@));
    let got = entry(m, p@, i - start, j);
    let x = |k: int| entry(m, left@, i - start, k);
    let y = |k: int| entry(m, right@, k, j);
    assert(got == dot(m, x, y, left@.cols));
    match layout {
        DeltaLayout::Product => {
            let first = |k: int| entry(m, b@, i, k);
            let second = |k: int| entry(m, a@, k, j);
            assert forall|k: int| 0 <= k < left@.cols implies #[trigger] (m.times)(x(k), y(k))
                == (m.times)(first(k), second(k)) by {
                lemma_band_entry(m, b@, start, end, i, k);
            }
            lemma_same_dot(m, x, y, first, second, left@.cols);
        },
        DeltaLayout::ProductTransposed => {
            let first = |k: int| entry(m, b@, j, k);
            let second = |k: int| entry(m, a@, k, i);
            assert forall|k: int| 0 <= k < left@.cols implies #[trigger] (m.times)(x(k), y(k))
                == (m.times)(first(k), second(k)) by {
                lemma_transposed_entry(m, a@, i, k);
                lemma_transposed_entry(m, b@, k, j);
                lemma_band_entry(m, a@.transposed(), start, end, i, k);
                assert((m.times)(first(k), second(k)) == (m.times)(second(k), first(k)));
            }
            lemma_same_dot(m, x, y, first, second, left@.cols);
        },
        DeltaLayout::FactorTransposed => {
            let first = |k: int| entry(m, b@, i, k);
            let second = |k: int| entry(m, a@, j, k);
            assert forall|k: int| 0 <= k < left@.cols implies #[trigger] (m.times)(x(k), y(k))
                == (m.times)(first(k), second(k)) by {
                lemma_band_entry(m, b@, start, end, i, k);
                lemma_transposed_entry(m, a@, k, j);
            }
            lemma_same_dot(m, x, y, first, second, left@.cols);
        },
    }
}

/// What is written for an element of a merged tensor.
proof fn lemma_formula<N: Numerics, R>(
    num: &N,
    m: Model<N, R>,
    base: Seq<u8>,
    a: Matrix<N::Double>,
    b: Matrix<N::Double>,
    scaling: N::Double,
    fan_in_fan_out: bool,
    shape: Seq<usize>,
    dtype: Dtype,
    low_memory: bool,
    out: Seq<u8>,
    i: int,
    j: int,
)
    requires
        exact(num, m),
        a@.values.len() == a@.rows * a@.cols,
        b@.values.len() == b@.rows * b@.cols,
        lora_fault(base.len(), shape, dtype, dims(a@), dims(b@), fan_in_fan_out) is None,
        ({
            let dim = Dims { rows: shape[0] as nat, cols: shape[1] as nat };
            merged_tensor(
                num,
                base,
                a@,
                b@,
                scaling,
                delta_layout(dim, dims(a@), dims(b@), fan_in_fan_out)->0,
                dim,
                dtype,
                low_memory,
                out,
            )
        }),
        0 <= i < shape[0],
        0 <= j < shape[1],
    ensures
        weight(m, dtype, out, i * shape[1] + j) == (m.plus)(
            weight(m, dtype, base, i * shape[1] + j),
            (m.times)(
                change(
                    m,
                    a@,
                    b@,
                    fan_in_fan_out,
                    shape[0] as int,
                    shape[1] as int,
                    i,
                    j,
                ),
                (m.double)(scaling),
            ),
        ),
{
    let dim = Dims { rows: shape[0] as nat, cols: shape[1] as nat };
    let layout = delta_layout(dim, dims(a@), dims(b@), fan_in_fan_out)->0;
    let size = stored_size(dtype);
    let rows = dim.rows;
    let cols = dim.cols;
    let width = cols * size;
    let height = tile_height(rows, low_memory);
    let at = i * cols + j;
    assert(rows * cols * size == rows * width) by (nonlinear_arith)
        requires
            width == cols * size,
    ;
    let tile = if low_memory {
        i / 512
    } else {
        0
    };
    let start = tile * height;
    if !low_memory {
        assert(0 * rows == 0) by (nonlinear_arith);
    }
    let end = tile_end(rows, height, start);
    assert(0 <= start <= i < end <= rows);
    assert(merged_tile(num, base, a@, b@, scaling, layout, dim, dtype, height, tile, out));
    let p = choose|p: Matrix<N::Double>| #[trigger]
        delta_product(num, a@, b@, layout, start, end, p) && p@.rows == end - start && p@.cols
            == cols && merged_elements(
            num,
            dtype,
            row_bytes(base, width, start, end),
            p@.values,
            scaling,
            row_bytes(out, width, start, end),
        );
    lemma_change(num, m, a, b, layout, dim, fan_in_fan_out, start, end, p, i, j);
    let here = (i - start) * cols + j;
    assert(start * cols + here == at) by (nonlinear_arith)
        requires
            here == (i - start) * cols + j,
            at == i * cols + j,
    ;
    lemma_place_within(i - start, end - start, cols as int, j + 1);
    lemma_place_within(i, rows as int, cols as int, j + 1);
    lemma_rows_size(rows as int, cols as int, size as int, start, end);
    assert(p@.values.len() * size == (end - start) * cols * size);
    assert(p@.values.len() == (end - start) * cols) by (nonlinear_arith)
        requires
            p@.values.len() * size == (end - start) * cols * size,
            size == 2 || size == 4,
    ;
    lemma_element_in_rows(base, size, rows, cols, start, end, here);
    lemma_element_in_rows(out, size, rows, cols, start, end, here);
    assert(merged_element(
        num,
        dtype,
        bits_at(row_bytes(base, width, start, end), size, here),
        p@.values[here],
        scaling,
        piece(row_bytes(out, width, start, end), size, here),
    ));
    let part = piece(out, size, at);
    let (x, delta, merged) = choose|x: N::Double, delta: N::Double, merged: N::Double|
        call_ensures(N::double, (num, dtype, bits_at(base, size, at)), x) && call_ensures(
            N::scaled,
            (num, &p@.values[here], &scaling),
            delta,
        ) && #[trigger] call_ensures(N::double_sum, (num, &x, &delta), merged) && exists|
            bits: u32,
        | #[trigger]
            call_ensures(N::double_bits, (num, dtype, &merged), bits) && part == element_bytes(
                bits,
                size,
            );
    let bits = choose|bits: u32| #[trigger]
        call_ensures(N::double_bits, (num, dtype, &merged), bits) && part == element_bytes(
            bits,
            size,
        );
    law_bits_of_element_bytes(bits, size);
    assert((at + 1) * size <= rows * cols * size) by (nonlinear_arith)
        requires
            at + 1 <= rows * cols,
    ;
    assert((at + 1) * size == at * size + size) by (nonlinear_arith);
    assert(bits_at(part, size, 0) == bits_at(out, size, at));
    lemma_little_endian(base, dtype, at);
    lemma_little_endian(out, dtype, at);
}

/// A merge gives `base + scaling * (B @ A)`: whatever the element type is, and in tiles or at once,
/// each weight of the output is the weight of the base plus the change in that place, times the
/// scaling. The change is `B @ A`; with `fan_in_fan_out` it is transposed, for a square base as for
/// any other, and only if `B` and `A` do not fit that it is `B @ A^T`.
pub proof fn law_merge_adds_the_scaled_product<N: Numerics, S: Sink, R>(
    num: &N,
    m: Model<N, R>,
    base: Seq<u8>,
    a: Matrix<N::Double>,
    b: Matrix<N::Double>,
    scaling: N::Double,
    fan_in_fan_out: bool,
    shape: Seq<usize>,
    dtype: Dtype,
    low_memory: bool,
    writer: S,
    r: (S, Result<()>),
)
    requires
        exact(num, m),
        a@.values.len() == a@.rows * a@.cols,
        b@.values.len() == b@.rows * b@.cols,
        merge_outcome(
            num,
            base,
            a@,
            b@,
            scaling,
            fan_in_fan_out,
            shape,
            dtype,
            low_memory,
            writer,
            r,
        ),
        r.1 is Ok,
    ensures
        shape.len() == 2,
        dtype == Dtype::F16 || dtype == Dtype::BF16 || dtype == Dtype::F32,
        base.len() == shape[0] * shape[1] * (if dtype == Dtype::F32 {
            4int
        } else {
            2int
        }),
        exists|out: Seq<u8>| #[trigger]
            wrote(writer, out, r.0) && out.len() == base.len() && forall|i: int, j: int|
                0 <= i < shape[0] && 0 <= j < shape[1] ==> #[trigger] weight(
                    m,
                    dtype,
                    out,
                    i * shape[1] + j,
                ) == (m.plus)(
                    weight(m, dtype, base, i * shape[1] + j),
                    (m.times)(
                        change(
                            m,
                            a@,
                            b@,
                            fan_in_fan_out,
                            shape[0] as int,
                            shape[1] as int,
                            i,
                            j,
                        ),
                        (m.double)(scaling),
                    ),
                ),
{
    let dim = Dims { rows: shape[0] as nat, cols: shape[1] as nat };
    let layout = delta_layout(dim, dims(a@), dims(b@), fan_in_fan_out)->0;
    let out = choose|out: Seq<u8>| #[trigger]
        wrote(writer, out, r.0) && merged_tensor(
            num,
            base,
            a@,
            b@,
            scaling,
            layout,
            dim,
            dtype,
            low_memory,
            out,
        );
    assert forall|i: int, j: int| 0 <= i < shape[0] && 0 <= j < shape[1] implies #[trigger] weight(
        m,
        dtype,
        out,
        i * shape[1] + j,
    ) == (m.plus)(
        weight(m, dtype, base, i * shape[1] + j),
        (m.times)(
            change(m, a@, b@, fan_in_fan_out, shape[0] as int, shape[1] as int, i, j),
            (m.double)(scaling),
        ),
    ) by {
        lemma_formula(
            num,
            m,
            base,
            a,
            b,
            scaling,
            fan_in_fan_out,
            shape,
            dtype,
            low_memory,
            out,
            i,
            j,
        );
    }
}

/// The number at a place of a matrix that a tensor holds row by row.
pub open spec fn factor<N: Numerics, R>(
    m: Model<N, R>,
    head: Head,
    data: Seq<u8>,
    row: int,
    col: int,
) -> R {
    weight(m, head.dtype, data, row * head.shape[1] + col)
}

/// The change in a place, from the tensors that hold the factors `A` and `B`.
pub open spec fn tensor_change<N: Numerics, R>(
    m: Model<N, R>,
    a: (Head, Seq<u8>),
    b: (Head, Seq<u8>),
    fan_in_fan_out: bool,
    rows: int,
    cols: int,
    i: int,
    j: int,
) -> R {
    let rank = b.0.shape[1] as nat;
    if !fan_in_fan_out {
        dot(m, |k: int| factor(m, b.0, b.1, i, k), |k: int| factor(m, a.0, a.1, k, j), rank)
    } else if b.0.shape[0] == cols && a.0.shape[1] == rows && b.0.shape[1] == a.0.shape[0] {
        dot(m, |k: int| factor(m, b.0, b.1, j, k), |k: int| factor(m, a.0, a.1, k, i), rank)
    } else {
        dot(m, |k: int| factor(m, b.0, b.1, i, k), |k: int| factor(m, a.0, a.1, j, k), rank)
    }
}

/// A factor that was read holds the numbers of its tensor.
proof fn lemma_factor<N: Numerics, R>(
    num: &N,
    m: Model<N, R>,
    tensor: (Head, Seq<u8>),
    matrix: Matrix<N::Double>,
    row: int,
    col: int,
)
    requires
        exact(num, m),
        reads_factor(num, tensor, matrix),
        matrix_fault(tensor.1.len(), tensor.0.dtype, tensor.0.shape, tensor.0.name) is None,
        0 <= row < tensor.0.shape[0],
        0 <= col < tensor.0.shape[1],
    ensures
        entry(m, matrix@, row, col) == factor(m, tensor.0, tensor.1, row, col),
{
    let cols = tensor.0.shape[1] as int;
    let rows = tensor.0.shape[0] as int;
    let at = row * cols + col;
    let size = stored_size(tensor.0.dtype);
    lemma_place_within(row, rows, cols, col + 1);
    assert((at + 1) * size <= rows * cols * size) by (nonlinear_arith)
        requires
            at + 1 <= rows * cols,
    ;
    lemma_little_endian(tensor.1, tensor.0.dtype, at);
    assert(call_ensures(
        N::double,
        (num, tensor.0.dtype, bits_at(tensor.1, size, at)),
        matrix@.values[at],
    ));
}

/// The change from factors that were read is the change from their tensors.
proof fn lemma_tensor_change<N: Numerics, R>(
    num: &N,
    m: Model<N, R>,
    x: (Head, Seq<u8>),
    y: (Head, Seq<u8>),
    a: Matrix<N::Double>,
    b: Matrix<N::Double>,
    fan_in_fan_out: bool,
    base: Dims,
    i: int,
    j: int,
)
    requires
        exact(num, m),
        reads_factor(num, x, a),
        reads_factor(num, y, b),
        matrix_fault(x.1.len(), x.0.dtype, x.0.shape, x.0.name) is None,
        matrix_fault(y.1.len(), y.0.dtype, y.0.shape, y.0.name) is None,
        delta_layout(base, dims(a@), dims(b@), fan_in_fan_out) is Some,
        0 <= i < base.rows,
        0 <= j < base.cols,
    ensures
        change(m, a@, b@, fan_in_fan_out, base.rows as int, base.cols as int, i, j)
            == tensor_change(m, x, y, fan_in_fan_out, base.rows as int, base.cols as int, i, j),
{
    let rows = base.rows as int;
    let cols = base.cols as int;
    let transposed = fan_in_fan_out && b@.rows == cols && a@.cols == rows && b@.cols == a@.rows;
    let row = if transposed {
        j
    } else {
        i
    };
    let first = |k: int| entry(m, b@, row, k);
    let wanted = |k: int| factor(m, y.0, y.1, row, k);
    if !fan_in_fan_out || transposed {
        let col = if transposed {
            i
        } else {
            j
        };
        let second = |k: int| entry(m, a@, k, col);
        let other = |k: int| factor(m, x.0, x.1, k, col);
        assert forall|k: int| 0 <= k < b@.cols implies #[trigger] (m.times)(first(k), second(k))
            == (m.times)(wanted(k), other(k)) by {
            lemma_factor(num, m, y, b, row, k);
            lemma_factor(num, m, x, a, k, col);
        }
        lemma_same_dot(m, first, second, wanted, other, b@.cols);
    } else {
        let second = |k: int| entry(m, a@, j, k);
        let other = |k: int| factor(m, x.0, x.1, j, k);
        assert forall|k: int| 0 <= k < b@.cols implies #[trigger] (m.times)(first(k), second(k))
            == (m.times)(wanted(k), other(k)) by {
            lemma_factor(num, m, y, b, row, k);
            lemma_factor(num, m, x, a, j, k);
        }
        lemma_same_dot(m, first, second, wanted, other, b@.cols);
    }
}

/// Whether output bytes are, weight by weight, those of a base tensor plus the change from two
/// factors times a number.
pub open spec fn adds_change<N: Numerics, R>(
    m: Model<N, R>,
    a: (Head, Seq<u8>),
    b: (Head, Seq<u8>),
    fan_in_fan_out: bool,
    head: Head,
    data: Seq<u8>,
    scaling: R,
    out: Seq<u8>,
) -> bool {
    let rows = head.shape[0] as int;
    let cols = head.shape[1] as int;
    &&& out.len() == data.len()
    &&& forall|i: int, j: int|
        0 <= i < rows && 0 <= j < cols ==> #[trigger] factor(m, head, out, i, j) == (m.plus)(
            factor(m, head, data, i, j),
            (m.times)(tensor_change(m, a, b, fan_in_fan_out, rows, cols, i, j), scaling),
        )
}

/// What is written for a base tensor that two factors are merged into is the tensor plus
/// `alpha / r` times their product, whatever its element type is, with or without `low_memory`:
/// the number that the change is scaled by is the quotient of alpha and rank.
pub proof fn law_merged_tensor_is_base_plus_change<N: Numerics, R>(
    num: &N,
    m: Model<N, R>,
    settings: Settings<N::Single>,
    low_memory: bool,
    a: int,
    b: int,
    head: Head,
    data: Seq<u8>,
    adapter: Contents,
    out: Seq<u8>,
)
    requires
        exact(num, m),
        sound(adapter),
        0 <= a < adapter.heads.len(),
        0 <= b < adapter.heads.len(),
        ({
            let plan = Plan::Merge(adapter.heads[a].name, adapter.heads[b].name);
            &&& tensor_fault(plan, head, data, adapter, settings.fan_in_fan_out) is None
            &&& tensor_output(num, settings, low_memory, plan, head, data, adapter, out)
        }),
    ensures
        exists|quotient: N::Single| #[trigger]
            call_ensures(N::quotient, (num, &settings.alpha, settings.rank), quotient)
                && adds_change(
                m,
                (adapter.heads[a], adapter.data[a]),
                (adapter.heads[b], adapter.data[b]),
                settings.fan_in_fan_out,
                head,
                data,
                (m.single)(quotient),
                out,
            ),
{
    let x = (adapter.heads[a], adapter.data[a]);
    let y = (adapter.heads[b], adapter.data[b]);
    lemma_named(adapter, a);
    lemma_named(adapter, b);
    let (first, second, quotient, scaling) = choose|
        first: Matrix<N::Double>,
        second: Matrix<N::Double>,
        quotient: N::Single,
        scaling: N::Double,
    | #[trigger]
        reads_factor(num, x, first) && #[trigger] reads_factor(num, y, second) && call_ensures(
            N::quotient,
            (num, &settings.alpha, settings.rank),
            quotient,
        ) && #[trigger] call_ensures(N::widened, (num, &quotient), scaling) && merged_tensor(
            num,
            data,
            first@,
            second@,
            scaling,
            factor_layout(head, x, y, settings.fan_in_fan_out),
            shape_dims(head.shape),
            head.dtype,
            low_memory,
            out,
        );
    let base = shape_dims(head.shape);
    assert forall|i: int, j: int| 0 <= i < base.rows && 0 <= j < base.cols implies
        #[trigger] factor(m, head, out, i, j) == (m.plus)(
        factor(m, head, data, i, j),
        (m.times)(
            tensor_change(
                m,
                x,
                y,
                settings.fan_in_fan_out,
                base.rows as int,
                base.cols as int,
                i,
                j,
            ),
            (m.single)(quotient),
        ),
    ) by {
        lemma_formula(
            num,
            m,
            data,
            first,
            second,
            scaling,
            settings.fan_in_fan_out,
            head.shape,
            head.dtype,
            low_memory,
            out,
            i,
            j,
        );
        lemma_tensor_change(num, m, x, y, first, second, settings.fan_in_fan_out, base, i, j);
    }
}

/// A tensor is found by its name.
pub(crate) proof fn lemma_named(contents: Contents, i: int)
    requires
        sound(contents),
        0 <= i < contents.heads.len(),
    ensures
        tensor_named(contents, contents.heads[i].name) == Some(
            (contents.heads[i], contents.data[i]),
        ),
{
    let name = contents.heads[i].name;
    lemma_position(contents.heads, name, 0);
    let k = position(contents.heads, name, 0)->0;
    assert(contents.heads[k].name == contents.heads[i].name);
}

/// What is written for a base bias that an adapter bias is added to is, number by number, their
/// sum, whatever the element types of the two are.
pub proof fn law_bias_is_added<N: Numerics, R>(
    num: &N,
    m: Model<N, R>,
    settings: Settings<N::Single>,
    low_memory: bool,
    source: int,
    head: Head,
    data: Seq<u8>,
    adapter: Contents,
    out: Seq<u8>,
    i: int,
)
    requires
        exact(num, m),
        sound(adapter),
        sizable(head),
        0 <= source < adapter.heads.len(),
        ({
            let plan = Plan::AddBias(adapter.heads[source].name);
            &&& tensor_fault(plan, head, data, adapter, settings.fan_in_fan_out) is None
            &&& tensor_output(num, settings, low_memory, plan, head, data, adapter, out)
        }),
        0 <= i,
        i * (if head.dtype == Dtype::F32 {
            4int
        } else {
            2int
        }) < data.len(),
    ensures
        out.len() == data.len(),
        weight(m, head.dtype, out, i) == (m.plus)(
            weight(m, head.dtype, data, i),
            weight(m, adapter.heads[source].dtype, adapter.data[source], i),
        ),
{
    let x = (adapter.heads[source], adapter.data[source]);
    lemma_named(adapter, source);
    lemma_countable(head);
    lemma_countable(x.0);
    let (base, other, merged) = choose|
        base: Matrix<N::Single>,
        other: Matrix<N::Single>,
        merged: Matrix<N::Single>,
    |
        single_values(num, head.dtype, data, base@.values) && single_values(
            num,
            x.0.dtype,
            x.1,
            other@.values,
        ) && #[trigger] sums(num, base@.values, other@.values, merged@.values)
            && base@.values.len() == elements(head.shape) && other@.values.len()
            == base@.values.len() && stores_all(num, head.dtype, merged@.values, out);
    let count = elements(head.shape) as int;
    let size = stored_size(head.dtype) as int;
    let other_size = stored_size(x.0.dtype) as int;
    assert(data.len() == count * size);
    assert(i < count) by (nonlinear_arith)
        requires
            i * size < count * size,
            size == 2 || size == 4,
    ;
    assert(x.1.len() == count * other_size);
    lemma_place_within(i, count, size, size);
    lemma_place_within(i, count, other_size, other_size);
    lemma_little_endian(data, head.dtype, i);
    lemma_little_endian(x.1, x.0.dtype, i);
    lemma_little_endian(out, head.dtype, i);
    assert(call_ensures(
        N::single,
        (num, head.dtype, bits_at(data, size as nat, i)),
        base@.values[i],
    ));
    assert(call_ensures(
        N::single,
        (num, x.0.dtype, bits_at(x.1, other_size as nat, i)),
        other@.values[i],
    ));
    assert(call_ensures(N::sum, (num, &base@.values[i], &other@.values[i]), merged@.values[i]));
    lemma_stored(num, m, head.dtype, merged@.values, out, i);
}

/// Numbers that were written are those that the elements stand for.
proof fn lemma_stored<N: Numerics, R>(
    num: &N,
    m: Model<N, R>,
    dtype: Dtype,
    values: Seq<N::Single>,
    out: Seq<u8>,
    i: int,
)
    requires
        exact(num, m),
        dtype == Dtype::F16 || dtype == Dtype::BF16 || dtype == Dtype::F32,
        stores_all(num, dtype, values, out),
        0 <= i < values.len(),
    ensures
        weight(m, dtype, out, i) == (m.single)(values[i]),
{
    let size = stored_size(dtype);
    lemma_place_within(i, values.len() as int, size as int, size as int);
    let part = piece(out, size, i);
    assert(stores_single(num, dtype, values[i], part));
    let bits = choose|bits: u32| #[trigger]
        call_ensures(N::single_bits, (num, dtype, &values[i]), bits) && part == element_bytes(
            bits,
            size,
        );
    law_bits_of_element_bytes(bits, size);
    assert(bits_at(part, size, 0) == bits_at(out, size, i));
    lemma_little_endian(out, dtype, i);
}

/// What is written for a replaced tensor is the adapter's: byte by byte, if it is of the type of
/// the base or one of the two types is not merged; else number by number, in the type of the base.
pub proof fn law_replacement_is_written<N: Numerics, R>(
    num: &N,
    m: Model<N, R>,
    settings: Settings<N::Single>,
    low_memory: bool,
    source: int,
    head: Head,
    data: Seq<u8>,
    adapter: Contents,
    out: Seq<u8>,
)
    requires
        exact(num, m),
        sound(adapter),
        0 <= source < adapter.heads.len(),
        tensor_output(
            num,
            settings,
            low_memory,
            Plan::Replace(adapter.heads[source].name),
            head,
            data,
            adapter,
            out,
        ),
    ensures
        ({
            let from = adapter.heads[source].dtype;
            let to = head.dtype;
            let from_merged = from == Dtype::F16 || from == Dtype::BF16 || from == Dtype::F32;
            let to_merged = to == Dtype::F16 || to == Dtype::BF16 || to == Dtype::F32;
            if from == to || !from_merged || !to_merged {
                out == adapter.data[source]
            } else {
                let from_size = if from == Dtype::F32 {
                    4int
                } else {
                    2int
                };
                let to_size = if to == Dtype::F32 {
                    4int
                } else {
                    2int
                };
                &&& out.len() * from_size == adapter.data[source].len() * to_size
                &&& forall|i: int|
                    0 <= i && i * to_size < out.len() ==> #[trigger] weight(m, to, out, i)
                        == weight(m, from, adapter.data[source], i)
            }
        }),
{
    let x = (adapter.heads[source], adapter.data[source]);
    lemma_named(adapter, source);
    if converts(x.0, head) {
        let values = choose|values: Seq<N::Single>| #[trigger]
            single_values(num, x.0.dtype, x.1, values) && values.len() == elements(x.0.shape)
                && stores_all(num, head.dtype, values, out);
        let count = values.len() as int;
        let from_size = stored_size(x.0.dtype) as int;
        let to_size = stored_size(head.dtype) as int;
        assert(sizable(x.0));
        assert(x.1.len() == count * from_size);
        assert(out.len() == count * to_size);
        assert(count * to_size * from_size == count * from_size * to_size) by (nonlinear_arith);
        assert forall|i: int| 0 <= i && i * to_size < out.len() implies #[trigger] weight(
            m,
            head.dtype,
            out,
            i,
        ) == weight(m, x.0.dtype, x.1, i) by {
            assert(i < count) by (nonlinear_arith)
                requires
                    i * to_size < count * to_size,
                    to_size == 2 || to_size == 4,
            ;
            lemma_stored(num, m, head.dtype, values, out, i);
            lemma_place_within(i, count, from_size, from_size);
            lemma_little_endian(x.1, x.0.dtype, i);
            assert(call_ensures(
                N::single,
                (num, x.0.dtype, bits_at(x.1, from_size as nat, i)),
                values[i],
            ));
        }
    }
}

} // verus!
