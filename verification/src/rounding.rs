//! What each weight of a merged tensor is made of, step by step, and what `fan_in_fan_out` makes of
//! a merge.

use crate::config::Settings;
use crate::convert::{
    bits_at, element_bytes, law_bits_of_element_bytes, matrix_fault, piece, single_values,
    stores_all, stores_double, stores_single,
};
use crate::delta::{
    delta_layout, delta_product, dims, left_factor, lora_fault, right_factor, DeltaLayout, Dims,
};
use crate::dtype::{stored_size, Dtype};
use crate::error::Result;
use crate::formula::{
    change, exact, law_merge_adds_the_scaled_product, lemma_band_entry, lemma_little_endian,
    lemma_named, lemma_transposed_entry, little_endian, tensor_change, weight, Model,
};
use crate::header::{elements, sizable, Contents, Head};
use crate::mapped::sound;
use crate::merge::{
    lemma_rows_size, merge_outcome, merged_element, merged_elements, merged_tensor, merged_tile,
    row_bytes, sums, tile_end, tile_height,
};
use crate::numerics::{lemma_place_within, Grid, Matrix, Numerics};
use crate::process::{
    factor_layout, lemma_countable, reads_factor, shape_dims, tensor_fault, tensor_output, Plan,
};
use crate::sink::{wrote, Sink};
use crate::tiling::{determined, lemma_element_in_rows};
use vstd::prelude::*;

verus! {

/// With `fan_in_fan_out`, factors that fit the transposed base give the transposed product, whether
/// the base is square or not, and `B @ A` is never taken; without it nothing else is. Only factors
/// of which neither that nor `B @ A^T` fits are refused with it, and only those of which `B @ A`
/// does not fit without it. So what fits a base without it fits the transposed base with it.
pub proof fn law_flag_decides_the_layout(base: Dims, a: Dims, b: Dims)
    ensures
        b.rows == base.cols && a.cols == base.rows && b.cols == a.rows ==> delta_layout(
            base,
            a,
            b,
            true,
        ) == Some(DeltaLayout::ProductTransposed),
        b.rows == base.rows && a.rows == base.cols && b.cols == a.cols && !(b.rows == base.cols
            && a.cols == base.rows && b.cols == a.rows) ==> delta_layout(base, a, b, true) == Some(
            DeltaLayout::FactorTransposed,
        ),
        b.rows == base.rows && a.cols == base.cols && b.cols == a.rows ==> delta_layout(
            base,
            a,
            b,
            false,
        ) == Some(DeltaLayout::Product),
        delta_layout(base, a, b, false) is Some ==> b.rows == base.rows && a.cols == base.cols
            && b.cols == a.rows,
        delta_layout(base, a, b, true) is Some ==> b.rows == base.cols && a.cols == base.rows
            && b.cols == a.rows || b.rows == base.rows && a.rows == base.cols && b.cols == a.cols,
        delta_layout(base, a, b, false) is Some ==> delta_layout(
            Dims { rows: base.cols, cols: base.rows },
            a,
            b,
            true,
        ) == Some(DeltaLayout::ProductTransposed),
{
}

/// The factors of a tensor's change give with `fan_in_fan_out` the transposed change that they
/// give without it, for a square base as for any other.
pub proof fn law_flag_transposes_the_change<N: Numerics, R>(
    m: Model<N, R>,
    a: (Head, Seq<u8>),
    b: (Head, Seq<u8>),
    rows: int,
    cols: int,
    i: int,
    j: int,
)
    requires
        a.0.shape.len() == 2,
        b.0.shape.len() == 2,
        b.0.shape[0] == rows,
        a.0.shape[1] == cols,
        b.0.shape[1] == a.0.shape[0],
    ensures
        tensor_change(m, a, b, true, cols, rows, j, i) == tensor_change(
            m,
            a,
            b,
            false,
            rows,
            cols,
            i,
            j,
        ),
{
}

/// A merge with `fan_in_fan_out` into a transposed base gives the transpose of what the merge
/// without it gives, whether the base is square or not and whatever the element types are.
pub proof fn law_flag_transposes_the_merge<N: Numerics, S: Sink, R>(
    num: &N,
    m: Model<N, R>,
    a: Matrix<N::Double>,
    b: Matrix<N::Double>,
    scaling: N::Double,
    base: Seq<u8>,
    shape: Seq<usize>,
    dtype: Dtype,
    low_memory: bool,
    writer: S,
    r: (S, Result<()>),
    other: Seq<u8>,
    exchanged: Seq<usize>,
    kind: Dtype,
    tiled: bool,
    sink: S,
    s: (S, Result<()>),
)
    requires
        exact(num, m),
        a@.values.len() == a@.rows * a@.cols,
        b@.values.len() == b@.rows * b@.cols,
        merge_outcome(
            num,
            base,
            a@,
            b@,
            scaling,
            false,
            shape,
            dtype,
            low_memory,
            writer,
            r,
        ),
        merge_outcome(num, other, a@, b@, scaling, true, exchanged, kind, tiled, sink, s),
        r.1 is Ok,
        s.1 is Ok,
        shape.len() == 2,
        exchanged =~= seq![shape[1], shape[0]],
        forall|i: int, j: int|
            0 <= i < shape[0] && 0 <= j < shape[1] ==> #[trigger] weight(
                m,
                kind,
                other,
                j * shape[0] + i,
            ) == #[trigger] weight(m, dtype, base, i * shape[1] + j),
    ensures
        exists|out: Seq<u8>, transposed: Seq<u8>| #[trigger]
            wrote(writer, out, r.0) && #[trigger] wrote(sink, transposed, s.0) && forall|
                i: int,
                j: int,
            |
                0 <= i < shape[0] && 0 <= j < shape[1] ==> #[trigger] weight(
                    m,
                    kind,
                    transposed,
                    j * shape[0] + i,
                ) == #[trigger] weight(m, dtype, out, i * shape[1] + j),
{
    law_merge_adds_the_scaled_product(
        num,
        m,
        base,
        a,
        b,
        scaling,
        false,
        shape,
        dtype,
        low_memory,
        writer,
        r,
    );
    law_merge_adds_the_scaled_product(
        num,
        m,
        other,
        a,
        b,
        scaling,
        true,
        exchanged,
        kind,
        tiled,
        sink,
        s,
    );
    let rows = shape[0] as int;
    let cols = shape[1] as int;
    let out = choose|out: Seq<u8>| #[trigger]
        wrote(writer, out, r.0) && out.len() == base.len() && forall|i: int, j: int|
            0 <= i < shape[0] && 0 <= j < shape[1] ==> #[trigger] weight(
                m,
                dtype,
                out,
                i * shape[1] + j,
            ) == (m.plus)(
                weight(m, dtype, base, i * shape[1] + j),
                (m.times)(
                    change(m, a@, b@, false, rows, cols, i, j),
                    (m.double)(scaling),
                ),
            );
    let transposed = choose|out: Seq<u8>| #[trigger]
        wrote(sink, out, s.0) && out.len() == other.len() && forall|i: int, j: int|
            0 <= i < exchanged[0] && 0 <= j < exchanged[1] ==> #[trigger] weight(
                m,
                kind,
                out,
                i * exchanged[1] + j,
            ) == (m.plus)(
                weight(m, kind, other, i * exchanged[1] + j),
                (m.times)(
                    change(m, a@, b@, true, cols, rows, i, j),
                    (m.double)(scaling),
                ),
            );
    assert forall|i: int, j: int| 0 <= i < shape[0] && 0 <= j < shape[1] implies #[trigger] weight(
        m,
        kind,
        transposed,
        j * shape[0] + i,
    ) == #[trigger] weight(m, dtype, out, i * shape[1] + j) by {
        assert(weight(m, kind, transposed, j * exchanged[1] + i) == (m.plus)(
            weight(m, kind, other, j * exchanged[1] + i),
            (m.times)(
                change(m, a@, b@, true, cols, rows, j, i),
                (m.double)(scaling),
            ),
        ));
        assert(weight(m, kind, other, j * shape[0] + i) == weight(
            m,
            dtype,
            base,
            i * shape[1] + j,
        ));
    }
    assert(wrote(writer, out, r.0) && wrote(sink, transposed, s.0));
}

/// The value at a place of a matrix.
pub open spec fn value<T>(grid: Grid<T>, row: int, col: int) -> T {
    grid.values[row * grid.cols + col]
}

/// Whether two matrices are laid out for the base's row `i`, which the left one has at `k`: the
/// left one holds row `i` of `B` there, and the right one `A`. With `fan_in_fan_out`, where the
/// factors fit that, they hold column `i` of `A` and the transposed `B`, and else row `i` of `B`
/// and the transposed `A`.
pub open spec fn laid_out<T>(
    a: Grid<T>,
    b: Grid<T>,
    fan_in_fan_out: bool,
    rows: int,
    cols: int,
    i: int,
    left: Grid<T>,
    right: Grid<T>,
    k: int,
) -> bool {
    &&& 0 <= k < left.rows
    &&& left.cols == b.cols
    &&& right.rows == b.cols
    &&& right.cols == cols
    &&& forall|q: int|
        0 <= q < b.cols ==> #[trigger] value(left, k, q) == if fan_in_fan_out && b.rows == cols
            && a.cols == rows && b.cols == a.rows {
            value(a, q, i)
        } else {
            value(b, i, q)
        }
    &&& forall|q: int, c: int|
        0 <= q < b.cols && 0 <= c < cols ==> #[trigger] value(right, q, c) == if !fan_in_fan_out {
            value(a, q, c)
        } else if b.rows == cols && a.cols == rows && b.cols == a.rows {
            value(b, c, q)
        } else {
            value(a, c, q)
        }
}

/// Whether a number stands in the base's row `i` and column `j` in a product of matrices that are
/// laid out for that row.
pub open spec fn multiplied<N: Numerics>(
    num: &N,
    a: Grid<N::Double>,
    b: Grid<N::Double>,
    fan_in_fan_out: bool,
    rows: int,
    cols: int,
    i: int,
    j: int,
    x: N::Double,
) -> bool {
    exists|left: Matrix<N::Double>, right: Matrix<N::Double>, p: Matrix<N::Double>, k: int|
        #[trigger] call_ensures(N::product, (num, &left, &right), p) && #[trigger] laid_out(
            a,
            b,
            fan_in_fan_out,
            rows,
            cols,
            i,
            left@,
            right@,
            k,
        ) && p@.rows == left@.rows && p@.cols == cols && x == value(p@, k, j)
}

/// The bits of an element as its bytes give them.
pub open spec fn element(dtype: Dtype, bytes: Seq<u8>, place: int) -> nat {
    if dtype == Dtype::F32 {
        little_endian(bytes.subrange(4 * place, 4 * place + 4))
    } else {
        little_endian(bytes.subrange(2 * place, 2 * place + 2))
    }
}

/// Whether bits of an output are the base's weight in double precision, plus a number times the
/// scaling, rounded once to the element type.
pub open spec fn rounded_once<N: Numerics>(
    num: &N,
    dtype: Dtype,
    base: nat,
    x: N::Double,
    scaling: N::Double,
    out: nat,
) -> bool {
    exists|old_value: N::Double, delta: N::Double, new_value: N::Double, bits: u32|
        call_ensures(N::double, (num, dtype, base as u32), old_value) && call_ensures(
            N::scaled,
            (num, &x, &scaling),
            delta,
        ) && #[trigger] call_ensures(N::double_sum, (num, &old_value, &delta), new_value)
            && #[trigger] call_ensures(N::double_bits, (num, dtype, &new_value), bits) && out == (
        if dtype == Dtype::F32 {
            bits as nat
        } else {
            (bits % 0x1_0000) as nat
        })
}

/// Whether an element of an output is made of the base's element in its place and the product of
/// the factors.
pub open spec fn made<N: Numerics>(
    num: &N,
    dtype: Dtype,
    base: Seq<u8>,
    a: Grid<N::Double>,
    b: Grid<N::Double>,
    scaling: N::Double,
    fan_in_fan_out: bool,
    shape: Seq<usize>,
    out: Seq<u8>,
    i: int,
    j: int,
) -> bool {
    let place = i * shape[1] + j;
    exists|x: N::Double| #[trigger]
        multiplied(num, a, b, fan_in_fan_out, shape[0] as int, shape[1] as int, i, j, x)
            && rounded_once(
            num,
            dtype,
            element(dtype, base, place),
            x,
            scaling,
            element(dtype, out, place),
        )
}

/// What a place of the product for some rows holds.
proof fn lemma_multiplied<N: Numerics>(
    num: &N,
    a: Matrix<N::Double>,
    b: Matrix<N::Double>,
    layout: DeltaLayout,
    base: Dims,
    fan_in_fan_out: bool,
    start: int,
    end: int,
    p: Matrix<N::Double>,
    i: int,
    j: int,
)
    requires
        a@.values.len() == a@.rows * a@.cols,
        b@.values.len() == b@.rows * b@.cols,
        delta_layout(base, dims(a@), dims(b@), fan_in_fan_out) == Some(layout),
        delta_product(num, a@, b@, layout, start, end, p),
        p@.rows == end - start,
        p@.cols == base.cols,
        0 <= start <= i < end <= base.rows,
        0 <= j < base.cols,
    ensures
        multiplied(
            num,
            a@,
            b@,
            fan_in_fan_out,
            base.rows as int,
            base.cols as int,
            i,
            j,
            value(p@, i - start, j),
        ),
{
    let (left, right) = choose|left: Matrix<N::Double>, right: Matrix<N::Double>|
        left@ == left_factor(layout, a@, b@, start, end) && right@ == right_factor(
            layout,
            a@,
            b@,
        ) && #[trigger] call_ensures(N::product, (num, &left, &right), p);
    let rows = base.rows as int;
    let cols = base.cols as int;
    let k = i - start;
    let m = Model::<N, N::Double> {
        single: |x: N::Single| arbitrary(),
        double: |x: N::Double| x,
        element: |dtype: Dtype, bits: nat| arbitrary(),
        zero: arbitrary(),
        plus: |x: N::Double, y: N::Double| x,
        times: |x: N::Double, y: N::Double| x,
    };
    assert(left@.cols == b@.cols && right@.rows == b@.cols && right@.cols == cols);
    let transposed = fan_in_fan_out && b@.rows == cols && a@.cols == rows && b@.cols == a@.rows;
    assert forall|q: int| 0 <= q < b@.cols implies #[trigger] value(left@, k, q) == if transposed {
        value(a@, q, i)
    } else {
        value(b@, i, q)
    } by {
        if transposed {
            lemma_transposed_entry(m, a@, i, q);
            lemma_band_entry(m, a@.transposed(), start, end, i, q);
        } else {
            lemma_band_entry(m, b@, start, end, i, q);
        }
    }
    assert forall|q: int, c: int| 0 <= q < b@.cols && 0 <= c < cols implies #[trigger] value(
        right@,
        q,
        c,
    ) == if !fan_in_fan_out {
        value(a@, q, c)
    } else if transposed {
        value(b@, c, q)
    } else {
        value(a@, c, q)
    } by {
        if transposed {
            lemma_transposed_entry(m, b@, q, c);
        } else if fan_in_fan_out {
            lemma_transposed_entry(m, a@, q, c);
        }
    }
    assert(laid_out(a@, b@, fan_in_fan_out, rows, cols, i, left@, right@, k));
    assert(call_ensures(N::product, (num, &left, &right), p));
}

/// The change that two elements get from the same product and scaling is one number, the product
/// scaled, whatever the types of the two are, if scaling has one result.
pub proof fn law_change_is_the_same_for_all_types<N: Numerics>(
    num: &N,
    product: N::Double,
    scaling: N::Double,
    first: (Dtype, u32, Seq<u8>),
    second: (Dtype, u32, Seq<u8>),
)
    requires
        determined(num),
        merged_element(num, first.0, first.1, product, scaling, first.2),
        merged_element(num, second.0, second.1, product, scaling, second.2),
    ensures
        exists|delta: N::Double, x: N::Double, y: N::Double|
            call_ensures(N::scaled, (num, &product, &scaling), delta) && #[trigger] sums_to(
                num,
                first.0,
                first.1,
                delta,
                x,
            ) && #[trigger] sums_to(num, second.0, second.1, delta, y) && stores_double(
                num,
                first.0,
                x,
                first.2,
            ) && stores_double(num, second.0, y, second.2),
{
    let (a, delta, x) = choose|a: N::Double, delta: N::Double, x: N::Double|
        call_ensures(N::double, (num, first.0, first.1), a) && call_ensures(
            N::scaled,
            (num, &product, &scaling),
            delta,
        ) && #[trigger] call_ensures(N::double_sum, (num, &a, &delta), x) && stores_double(
            num,
            first.0,
            x,
            first.2,
        );
    let (b, other, y) = choose|b: N::Double, other: N::Double, y: N::Double|
        call_ensures(N::double, (num, second.0, second.1), b) && call_ensures(
            N::scaled,
            (num, &product, &scaling),
            other,
        ) && #[trigger] call_ensures(N::double_sum, (num, &b, &other), y) && stores_double(
            num,
            second.0,
            y,
            second.2,
        );
    assert(delta == other);
    assert(sums_to(num, first.0, first.1, delta, x)) by {
        assert(call_ensures(N::double_sum, (num, &a, &delta), x));
    }
    assert(sums_to(num, second.0, second.1, delta, y)) by {
        assert(call_ensures(N::double_sum, (num, &b, &delta), y));
    }
}

/// Whether a number is the sum of the one that the bits of an element stand for and another.
pub open spec fn sums_to<N: Numerics>(
    num: &N,
    dtype: Dtype,
    bits: u32,
    delta: N::Double,
    sum: N::Double,
) -> bool {
    exists|x: N::Double|
        call_ensures(N::double, (num, dtype, bits), x) && #[trigger] call_ensures(
            N::double_sum,
            (num, &x, &delta),
            sum,
        )
}

/// Each weight of a merge is made in the same steps, whatever the element type is and in tiles or
/// at once: the base's weight is read in double precision, the number that stands in its place in
/// the product of the factors is multiplied by the scaling and added, and the sum is rounded once.
pub proof fn law_each_weight_is_rounded_once<N: Numerics, S: Sink>(
    num: &N,
    base: Seq<u8>,
    a: Matrix<N::Double>,
    b: Matrix<N::Double>,
    scaling: N::Double,
    fan_in_fan_out: bool,
    shape: Seq<usize>,
    dtype: Dtype,
    low_memory: bool,
    writer: S,
    r: (S, Result<()>),
)
    requires
        a@.values.len() == a@.rows * a@.cols,
        b@.values.len() == b@.rows * b@.cols,
        merge_outcome(
            num,
            base,
            a@,
            b@,
            scaling,
            fan_in_fan_out,
            shape,
            dtype,
            low_memory,
            writer,
            r,
        ),
        r.1 is Ok,
    ensures
        exists|out: Seq<u8>| #[trigger]
            wrote(writer, out, r.0) && out.len() == base.len() && forall|i: int, j: int|
                0 <= i < shape[0] && 0 <= j < shape[1] ==> #[trigger] made(
                    num,
                    dtype,
                    base,
                    a@,
                    b@,
                    scaling,
                    fan_in_fan_out,
                    shape,
                    out,
                    i,
                    j,
                ),
{
    let dim = Dims { rows: shape[0] as nat, cols: shape[1] as nat };
    let layout = delta_layout(dim, dims(a@), dims(b@), fan_in_fan_out)->0;
    let out = choose|out: Seq<u8>| #[trigger]
        wrote(writer, out, r.0) && merged_tensor(
            num,
            base,
            a@,
            b@,
            scaling,
            layout,
            dim,
            dtype,
            low_memory,
            out,
        );
    assert forall|i: int, j: int| 0 <= i < shape[0] && 0 <= j < shape[1] implies #[trigger] made(
        num,
        dtype,
        base,
        a@,
        b@,
        scaling,
        fan_in_fan_out,
        shape,
        out,
        i,
        j,
    ) by {
        let x = lemma_rounded(
            num,
            base,
            a,
            b,
            scaling,
            fan_in_fan_out,
            shape,
            dtype,
            low_memory,
            out,
            i,
            j,
        );
    }
}

/// How an element of a merged tensor was made.
proof fn lemma_rounded<N: Numerics>(
    num: &N,
    base: Seq<u8>,
    a: Matrix<N::Double>,
    b: Matrix<N::Double>,
    scaling: N::Double,
    fan_in_fan_out: bool,
    shape: Seq<usize>,
    dtype: Dtype,
    low_memory: bool,
    out: Seq<u8>,
    i: int,
    j: int,
) -> (x: N::Double)
    requires
        a@.values.len() == a@.rows * a@.cols,
        b@.values.len() == b@.rows * b@.cols,
        lora_fault(base.len(), shape, dtype, dims(a@), dims(b@), fan_in_fan_out) is None,
        ({
            let dim = Dims { rows: shape[0] as nat, cols: shape[1] as nat };
            merged_tensor(
                num,
                base,
                a@,
                b@,
                scaling,
                delta_layout(dim, dims(a@), dims(b@), fan_in_fan_out)->0,
                dim,
                dtype,
                low_memory,
                out,
            )
        }),
        0 <= i < shape[0],
        0 <= j < shape[1],
    ensures
        multiplied(
            num,
            a@,
            b@,
            fan_in_fan_out,
            shape[0] as int,
            shape[1] as int,
            i,
            j,
            x,
        ),
        rounded_once(
            num,
            dtype,
            element(dtype, base, i * shape[1] + j),
            x,
            scaling,
            element(dtype, out, i * shape[1] + j),
        ),
{
    let dim = Dims { rows: shape[0] as nat, cols: shape[1] as nat };
    let layout = delta_layout(dim, dims(a@), dims(b@), fan_in_fan_out)->0;
    let size = stored_size(dtype);
    let rows = dim.rows;
    let cols = dim.cols;
    let width = cols * size;
    let height = tile_height(rows, low_memory);
    let at = i * cols + j;
    assert(rows * cols * size == rows * width) by (nonlinear_arith)
        requires
            width == cols * size,
    ;
    let tile = if low_memory {
        i / 512
    } else {
        0
    };
    let start = tile * height;
    if !low_memory {
        assert(0 * rows == 0) by (nonlinear_arith);
    }
    let end = tile_end(rows, height, start);
    assert(0 <= start <= i < end <= rows);
    assert(merged_tile(num, base, a@, b@, scaling, layout, dim, dtype, height, tile, out));
    let p = choose|p: Matrix<N::Double>| #[trigger]
        delta_product(num, a@, b@, layout, start, end, p) && p@.rows == end - start && p@.cols
            == cols && merged_elements(
            num,
            dtype,
            row_bytes(base, width, start, end),
            p@.values,
            scaling,
            row_bytes(out, width, start, end),
        );
    lemma_multiplied(num, a, b, layout, dim, fan_in_fan_out, start, end, p, i, j);
    let here = (i - start) * cols + j;
    assert(start * cols + here == at) by (nonlinear_arith)
        requires
            here == (i - start) * cols + j,
            at == i * cols + j,
    ;
    lemma_place_within(i - start, end - start, cols as int, j + 1);
    lemma_place_within(i, rows as int, cols as int, j + 1);
    lemma_rows_size(rows as int, cols as int, size as int, start, end);
    assert(p@.values.len() * size == (end - start) * cols * size);
    assert(p@.values.len() == (end - start) * cols) by (nonlinear_arith)
        requires
            p@.values.len() * size == (end - start) * cols * size,
            size == 2 || size == 4,
    ;
    lemma_element_in_rows(base, size, rows, cols, start, end, here);
    lemma_element_in_rows(out, size, rows, cols, start, end, here);
    let x = p@.values[here];
    let part = piece(out, size, at);
    assert(merged_element(num, dtype, bits_at(base, size, at), x, scaling, part));
    let (read, delta, merged) = choose|read: N::Double, delta: N::Double, merged: N::Double|
        call_ensures(N::double, (num, dtype, bits_at(base, size, at)), read) && call_ensures(
            N::scaled,
            (num, &x, &scaling),
            delta,
        ) && #[trigger] call_ensures(N::double_sum, (num, &read, &delta), merged) && exists|
            bits: u32,
        | #[trigger]
            call_ensures(N::double_bits, (num, dtype, &merged), bits) && part == element_bytes(
                bits,
                size,
            );
    let bits = choose|bits: u32| #[trigger]
        call_ensures(N::double_bits, (num, dtype, &merged), bits) && part == element_bytes(
            bits,
            size,
        );
    law_bits_of_element_bytes(bits, size);
    assert((at + 1) * size <= rows * cols * size) by (nonlinear_arith)
        requires
            at + 1 <= rows * cols,
    ;
    assert((at + 1) * size == at * size + size) by (nonlinear_arith);
    assert(bits_at(part, size, 0) == bits_at(out, size, at));
    lemma_little_endian(base, dtype, at);
    lemma_little_endian(out, dtype, at);
    assert(call_ensures(N::double_sum, (num, &read, &delta), merged));
    assert(call_ensures(N::double_bits, (num, dtype, &merged), bits));
    x
}

/// Whether a matrix holds the numbers of a tensor, in its rows and columns, in double precision.
pub open spec fn holds_tensor<N: Numerics>(
    num: &N,
    head: Head,
    data: Seq<u8>,
    grid: Grid<N::Double>,
) -> bool {
    &&& head.shape.len() == 2
    &&& grid.rows == head.shape[0]
    &&& grid.cols == head.shape[1]
    &&& forall|i: int, j: int|
        0 <= i < head.shape[0] && 0 <= j < head.shape[1] ==> call_ensures(
            N::double,
            (num, head.dtype, element(head.dtype, data, i * head.shape[1] + j) as u32),
            #[trigger] value(grid, i, j),
        )
}

/// A factor that was read holds the numbers of its tensor.
proof fn lemma_holds_tensor<N: Numerics>(
    num: &N,
    tensor: (Head, Seq<u8>),
    matrix: Matrix<N::Double>,
)
    requires
        reads_factor(num, tensor, matrix),
        matrix_fault(tensor.1.len(), tensor.0.dtype, tensor.0.shape, tensor.0.name) is None,
    ensures
        holds_tensor(num, tensor.0, tensor.1, matrix@),
{
    let rows = tensor.0.shape[0] as int;
    let cols = tensor.0.shape[1] as int;
    let dtype = tensor.0.dtype;
    let size = stored_size(dtype);
    assert forall|i: int, j: int| 0 <= i < rows && 0 <= j < cols implies call_ensures(
        N::double,
        (num, dtype, element(dtype, tensor.1, i * cols + j) as u32),
        #[trigger] value(matrix@, i, j),
    ) by {
        let at = i * cols + j;
        lemma_place_within(i, rows, cols, j + 1);
        assert((at + 1) * size <= rows * cols * size) by (nonlinear_arith)
            requires
                at + 1 <= rows * cols,
        ;
        lemma_little_endian(tensor.1, dtype, at);
        assert(call_ensures(
            N::double,
            (num, dtype, bits_at(tensor.1, size, at)),
            matrix@.values[at],
        ));
    }
}

/// A base tensor that two factors are merged into is made in the same steps with `low_memory` as
/// without: alpha is divided by the rank and widened, the factors are read in double precision, and
/// each weight is made of them.
pub proof fn law_merged_tensor_is_made_in_steps<N: Numerics>(
    num: &N,
    settings: Settings<N::Single>,
    low_memory: bool,
    a: int,
    b: int,
    head: Head,
    data: Seq<u8>,
    adapter: Contents,
    out: Seq<u8>,
)
    requires
        sound(adapter),
        0 <= a < adapter.heads.len(),
        0 <= b < adapter.heads.len(),
        ({
            let plan = Plan::Merge(adapter.heads[a].name, adapter.heads[b].name);
            &&& tensor_fault(plan, head, data, adapter, settings.fan_in_fan_out) is None
            &&& tensor_output(num, settings, low_memory, plan, head, data, adapter, out)
        }),
    ensures
        out.len() == data.len(),
        exists|
            first: Matrix<N::Double>,
            second: Matrix<N::Double>,
            quotient: N::Single,
            scaling: N::Double,
        |
            call_ensures(N::quotient, (num, &settings.alpha, settings.rank), quotient)
                && #[trigger] call_ensures(N::widened, (num, &quotient), scaling)
                && #[trigger] holds_tensor(num, adapter.heads[a], adapter.data[a], first@)
                && #[trigger] holds_tensor(num, adapter.heads[b], adapter.data[b], second@)
                && forall|i: int, j: int|
                0 <= i < head.shape[0] && 0 <= j < head.shape[1] ==> #[trigger] made(
                    num,
                    head.dtype,
                    data,
                    first@,
                    second@,
                    scaling,
                    settings.fan_in_fan_out,
                    head.shape,
                    out,
                    i,
                    j,
                ),
{
    let x = (adapter.heads[a], adapter.data[a]);
    let y = (adapter.heads[b], adapter.data[b]);
    lemma_named(adapter, a);
    lemma_named(adapter, b);
    let (first, second, quotient, scaling) = choose|
        first: Matrix<N::Double>,
        second: Matrix<N::Double>,
        quotient: N::Single,
        scaling: N::Double,
    | #[trigger]
        reads_factor(num, x, first) && #[trigger] reads_factor(num, y, second) && call_ensures(
            N::quotient,
            (num, &settings.alpha, settings.rank),
            quotient,
        ) && #[trigger] call_ensures(N::widened, (num, &quotient), scaling) && merged_tensor(
            num,
            data,
            first@,
            second@,
            scaling,
            factor_layout(head, x, y, settings.fan_in_fan_out),
            shape_dims(head.shape),
            head.dtype,
            low_memory,
            out,
        );
    lemma_holds_tensor(num, x, first);
    lemma_holds_tensor(num, y, second);
    assert forall|i: int, j: int|
        0 <= i < head.shape[0] && 0 <= j < head.shape[1] implies #[trigger] made(
        num,
        head.dtype,
        data,
        first@,
        second@,
        scaling,
        settings.fan_in_fan_out,
        head.shape,
        out,
        i,
        j,
    ) by {
        let x = lemma_rounded(
            num,
            data,
            first,
            second,
            scaling,
            settings.fan_in_fan_out,
            head.shape,
            head.dtype,
            low_memory,
            out,
            i,
            j,
        );
    }
    assert(call_ensures(N::widened, (num, &quotient), scaling));
    assert(holds_tensor(num, adapter.heads[a], adapter.data[a], first@));
    assert(holds_tensor(num, adapter.heads[b], adapter.data[b], second@));
}

/// Whether bits of an output stand for a number in single precision.
pub open spec fn rounds_single<N: Numerics>(
    num: &N,
    dtype: Dtype,
    value: N::Single,
    out: nat,
) -> bool {
    exists|bits: u32| #[trigger]
        call_ensures(N::single_bits, (num, dtype, &value), bits) && out == (if dtype == Dtype::F32 {
            bits as nat
        } else {
            (bits % 0x1_0000) as nat
        })
}

/// The bits that a number was stored as.
pub(crate) proof fn lemma_rounds_single<N: Numerics>(
    num: &N,
    dtype: Dtype,
    values: Seq<N::Single>,
    out: Seq<u8>,
    i: int,
)
    requires
        dtype == Dtype::F16 || dtype == Dtype::BF16 || dtype == Dtype::F32,
        stores_all(num, dtype, values, out),
        0 <= i < values.len(),
    ensures
        rounds_single(num, dtype, values[i], element(dtype, out, i)),
{
    let size = stored_size(dtype);
    lemma_place_within(i, values.len() as int, size as int, size as int);
    let part = piece(out, size, i);
    assert(stores_single(num, dtype, values[i], part));
    let bits = choose|bits: u32| #[trigger]
        call_ensures(N::single_bits, (num, dtype, &values[i]), bits) && part == element_bytes(
            bits,
            size,
        );
    law_bits_of_element_bytes(bits, size);
    assert(bits_at(part, size, 0) == bits_at(out, size, i));
    lemma_little_endian(out, dtype, i);
}

/// An element of a bias that an adapter bias is added to is made in these steps: the two elements
/// are read in single precision, each from its own type, added, and the sum is rounded to the type
/// of the base.
pub proof fn law_bias_is_made_in_steps<N: Numerics>(
    num: &N,
    settings: Settings<N::Single>,
    low_memory: bool,
    source: int,
    head: Head,
    data: Seq<u8>,
    adapter: Contents,
    out: Seq<u8>,
    i: int,
)
    requires
        sound(adapter),
        sizable(head),
        0 <= source < adapter.heads.len(),
        ({
            let plan = Plan::AddBias(adapter.heads[source].name);
            &&& tensor_fault(plan, head, data, adapter, settings.fan_in_fan_out) is None
            &&& tensor_output(num, settings, low_memory, plan, head, data, adapter, out)
        }),
        0 <= i,
        i * (if head.dtype == Dtype::F32 {
            4int
        } else {
            2int
        }) < data.len(),
    ensures
        out.len() == data.len(),
        exists|x: N::Single, y: N::Single, z: N::Single|
            call_ensures(
                N::single,
                (num, head.dtype, element(head.dtype, data, i) as u32),
                x,
            ) && call_ensures(
                N::single,
                (
                    num,
                    adapter.heads[source].dtype,
                    element(adapter.heads[source].dtype, adapter.data[source], i) as u32,
                ),
                y,
            ) && #[trigger] call_ensures(N::sum, (num, &x, &y), z) && rounds_single(
                num,
                head.dtype,
                z,
                element(head.dtype, out, i),
            ),
{
    let x = (adapter.heads[source], adapter.data[source]);
    lemma_named(adapter, source);
    lemma_countable(head);
    lemma_countable(x.0);
    let (base, other, merged) = choose|
        base: Matrix<N::Single>,
        other: Matrix<N::Single>,
        merged: Matrix<N::Single>,
    |
        single_values(num, head.dtype, data, base@.values) && single_values(
            num,
            x.0.dtype,
            x.1,
            other@.values,
        ) && #[trigger] sums(num, base@.values, other@.values, merged@.values)
            && base@.values.len() == elements(head.shape) && other@.values.len()
            == base@.values.len() && stores_all(num, head.dtype, merged@.values, out);
    let count = elements(head.shape) as int;
    let size = stored_size(head.dtype) as int;
    let other_size = stored_size(x.0.dtype) as int;
    assert(data.len() == count * size);
    assert(i < count) by (nonlinear_arith)
        requires
            i * size < count * size,
            size == 2 || size == 4,
    ;
    assert(x.1.len() == count * other_size);
    lemma_place_within(i, count, size, size);
    lemma_place_within(i, count, other_size, other_size);
    lemma_little_endian(data, head.dtype, i);
    lemma_little_endian(x.1, x.0.dtype, i);
    assert(call_ensures(
        N::single,
        (num, head.dtype, bits_at(data, size as nat, i)),
        base@.values[i],
    ));
    assert(call_ensures(
        N::single,
        (num, x.0.dtype, bits_at(x.1, other_size as nat, i)),
        other@.values[i],
    ));
    assert(call_ensures(N::sum, (num, &base@.values[i], &other@.values[i]), merged@.values[i]));
    lemma_rounds_single(num, head.dtype, merged@.values, out, i);
}

/// An element of a replacement of another type, where both types are merged, is read in single
/// precision from its own type and rounded to that of the base. There are as many as the adapter
/// has.
pub proof fn law_replacement_is_made_in_steps<N: Numerics>(
    num: &N,
    settings: Settings<N::Single>,
    low_memory: bool,
    source: int,
    head: Head,
    data: Seq<u8>,
    adapter: Contents,
    out: Seq<u8>,
    i: int,
)
    requires
        sound(adapter),
        0 <= source < adapter.heads.len(),
        ({
            let from = adapter.heads[source].dtype;
            let to = head.dtype;
            &&& from != to
            &&& from == Dtype::F16 || from == Dtype::BF16 || from == Dtype::F32
            &&& to == Dtype::F16 || to == Dtype::BF16 || to == Dtype::F32
        }),
        tensor_output(
            num,
            settings,
            low_memory,
            Plan::Replace(adapter.heads[source].name),
            head,
            data,
            adapter,
            out,
        ),
        0 <= i,
        i * (if adapter.heads[source].dtype == Dtype::F32 {
            4int
        } else {
            2int
        }) < adapter.data[source].len(),
    ensures
        (i + 1) * (if head.dtype == Dtype::F32 {
            4int
        } else {
            2int
        }) <= out.len(),
        exists|x: N::Single| #[trigger]
            call_ensures(
                N::single,
                (
                    num,
                    adapter.heads[source].dtype,
                    element(adapter.heads[source].dtype, adapter.data[source], i) as u32,
                ),
                x,
            ) && rounds_single(num, head.dtype, x, element(head.dtype, out, i)),
{
    let x = (adapter.heads[source], adapter.data[source]);
    lemma_named(adapter, source);
    let values = choose|values: Seq<N::Single>| #[trigger]
        single_values(num, x.0.dtype, x.1, values) && values.len() == elements(x.0.shape)
            && stores_all(num, head.dtype, values, out);
    let count = values.len() as int;
    let from_size = stored_size(x.0.dtype) as int;
    let to_size = stored_size(head.dtype) as int;
    assert(sizable(x.0));
    assert(x.1.len() == count * from_size);
    assert(i < count) by (nonlinear_arith)
        requires
            i * from_size < count * from_size,
            from_size == 2 || from_size == 4,
    ;
    lemma_place_within(i, count, from_size, from_size);
    lemma_place_within(i, count, to_size, to_size);
    lemma_little_endian(x.1, x.0.dtype, i);
    assert(call_ensures(
        N::single,
        (num, x.0.dtype, bits_at(x.1, from_size as nat, i)),
        values[i],
    ));
    lemma_rounds_single(num, head.dtype, values, out, i);
}

} // verus!
