//! That a merge may be done in tiles.

use crate::convert::{bits_at, lemma_same_pieces, piece};
use crate::delta::{
    delta_layout, delta_product, dimensioned, dims, left_factor, lemma_left_factor_band,
    lora_fault, product_failed, right_factor, DeltaLayout, Dims,
};
use crate::dtype::{stored_size, Dtype};
use crate::error::{Fault, Result};
use crate::merge::{
    lemma_rows_size, merge_outcome, merged_element, merged_elements, merged_tensor, merged_tile,
    row_bytes, tile_end, tile_height,
};
use crate::numerics::{Grid, Matrix, Numerics};
use crate::sink::{steady, wrote, Sink};
use vstd::prelude::*;

verus! {

/// Whether the conversions, the scaling and the sums have one result each.
pub open spec fn determined<N: Numerics>(num: &N) -> bool {
    &&& forall|dtype: Dtype, bits: u32, x: N::Double, y: N::Double| #[trigger]
        call_ensures(N::double, (num, dtype, bits), x) && #[trigger] call_ensures(
            N::double,
            (num, dtype, bits),
            y,
        ) ==> x == y
    &&& forall|value: N::Double, scaling: N::Double, x: N::Double, y: N::Double| #[trigger]
        call_ensures(N::scaled, (num, &value, &scaling), x) && #[trigger] call_ensures(
            N::scaled,
            (num, &value, &scaling),
            y,
        ) ==> x == y
    &&& forall|left: N::Double, right: N::Double, x: N::Double, y: N::Double| #[trigger]
        call_ensures(N::double_sum, (num, &left, &right), x) && #[trigger] call_ensures(
            N::double_sum,
            (num, &left, &right),
            y,
        ) ==> x == y
    &&& forall|dtype: Dtype, value: N::Double, x: u32, y: u32| #[trigger]
        call_ensures(N::double_bits, (num, dtype, &value), x) && #[trigger] call_ensures(
            N::double_bits,
            (num, dtype, &value),
            y,
        ) ==> x == y
}

/// Whether a row of a matrix product comes from the same row of the left factor, whatever other
/// rows that factor has.
pub open spec fn row_wise<N: Numerics>(num: &N) -> bool {
    forall|
        left: Matrix<N::Double>,
        right: Matrix<N::Double>,
        whole: Matrix<N::Double>,
        band: Matrix<N::Double>,
        same: Matrix<N::Double>,
        part: Matrix<N::Double>,
        start: int,
        end: int,
    |
        #[trigger] call_ensures(N::product, (num, &left, &right), whole)
            && #[trigger] call_ensures(N::product, (num, &band, &same), part) && 0 <= start <= end
            <= left@.rows && band@ == #[trigger] left@.band(start, end) && same@ == right@ ==> part@
            == whole@.band(start, end)
}

/// With arithmetic that has one result each, an element has one merged value.
proof fn lemma_one_merged_element<N: Numerics>(
    num: &N,
    dtype: Dtype,
    bits: u32,
    product: N::Double,
    scaling: N::Double,
    x: Seq<u8>,
    y: Seq<u8>,
)
    requires
        determined(num),
        merged_element(num, dtype, bits, product, scaling, x),
        merged_element(num, dtype, bits, product, scaling, y),
    ensures
        x == y,
{
}

/// The place of an element among the rows from `start` up to `end`.
pub(crate) proof fn lemma_element_in_rows(
    bytes: Seq<u8>,
    size: nat,
    rows: nat,
    cols: nat,
    start: int,
    end: int,
    i: int,
)
    requires
        size == 2 || size == 4,
        0 <= start <= end <= rows,
        bytes.len() == rows * (cols * size),
        0 <= i < (end - start) * cols,
    ensures
        bits_at(row_bytes(bytes, cols * size, start, end), size, i) == bits_at(
            bytes,
            size,
            start * cols + i,
        ),
        piece(row_bytes(bytes, cols * size, start, end), size, i) == piece(
            bytes,
            size,
            start * cols + i,
        ),
{
    lemma_rows_size(rows as int, cols as int, size as int, start, end);
    let at = start * cols + i;
    assert(at * size == start * (cols * size) + i * size) by (nonlinear_arith)
        requires
            at == start * cols + i,
    ;
    assert((at + 1) * size == at * size + size) by (nonlinear_arith);
    assert((i + 1) * size == i * size + size) by (nonlinear_arith);
    assert(0 <= i * size && (i + 1) * size <= (end - start) * cols * size) by (nonlinear_arith)
        requires
            0 <= i < (end - start) * cols,
    ;
    assert(piece(row_bytes(bytes, cols * size, start, end), size, i) =~= piece(bytes, size, at));
}

/// A merged tensor is the same in tiles and at once.
pub(crate) proof fn lemma_tiles_change_nothing<N: Numerics>(
    num: &N,
    base: Seq<u8>,
    a: Matrix<N::Double>,
    b: Matrix<N::Double>,
    scaling: N::Double,
    fan_in_fan_out: bool,
    shape: Seq<usize>,
    dtype: Dtype,
    tiled: Seq<u8>,
    whole: Seq<u8>,
)
    requires
        determined(num),
        row_wise(num),
        a@.values.len() == a@.rows * a@.cols,
        b@.values.len() == b@.rows * b@.cols,
        lora_fault(base.len(), shape, dtype, dims(a@), dims(b@), fan_in_fan_out) is None,
        ({
            let size = Dims { rows: shape[0] as nat, cols: shape[1] as nat };
            let layout = delta_layout(size, dims(a@), dims(b@), fan_in_fan_out)->0;
            &&& merged_tensor(num, base, a@, b@, scaling, layout, size, dtype, true, tiled)
            &&& merged_tensor(num, base, a@, b@, scaling, layout, size, dtype, false, whole)
        }),
    ensures
        tiled == whole,
{
    let dim = Dims { rows: shape[0] as nat, cols: shape[1] as nat };
    let layout = delta_layout(dim, dims(a@), dims(b@), fan_in_fan_out)->0;
    let size = stored_size(dtype);
    let rows = dim.rows;
    let cols = dim.cols;
    let width = cols * size;
    assert(rows * cols * size == rows * width) by (nonlinear_arith)
        requires
            width == cols * size,
    ;
    assert forall|i: int| 0 <= i < rows * cols implies #[trigger] piece(tiled, size, i) == piece(
        whole,
        size,
        i,
    ) by {
        let row = i / cols as int;
        assert(0 <= row < rows && row * cols <= i < (row + 1) * cols) by (nonlinear_arith)
            requires
                0 <= i < rows * cols,
                row == i / cols as int,
        ;
        let tile = row / 512;
        let start = tile * 512;
        let end = tile_end(rows, 512, start);
        assert(0 * rows == 0) by (nonlinear_arith);
        assert(0 * width == 0) by (nonlinear_arith);
        assert(tile * tile_height(rows, true) < rows);
        assert(0 * tile_height(rows, false) < rows);
        assert(merged_tile(num, base, a@, b@, scaling, layout, dim, dtype, 512, tile, tiled));
        assert(merged_tile(num, base, a@, b@, scaling, layout, dim, dtype, rows, 0, whole));
        assert(row_bytes(whole, width, 0, rows as int) =~= whole);
        assert(row_bytes(base, width, 0, rows as int) =~= base);
        let part = choose|p: Matrix<N::Double>| #[trigger]
            delta_product(num, a@, b@, layout, start, end, p) && p@.rows == end - start && p@.cols
                == cols && merged_elements(
                num,
                dtype,
                row_bytes(base, width, start, end),
                p@.values,
                scaling,
                row_bytes(tiled, width, start, end),
            );
        let full = choose|p: Matrix<N::Double>| #[trigger]
            delta_product(num, a@, b@, layout, 0, rows as int, p) && p@.rows == rows && p@.cols
                == cols && merged_elements(num, dtype, base, p@.values, scaling, whole);
        lemma_left_factor_band(layout, a@, b@, rows as int, start, end);
        let (left, right) = choose|left: Matrix<N::Double>, right: Matrix<N::Double>|
            left@ == left_factor(layout, a@, b@, 0, rows as int) && right@ == right_factor(
                layout,
                a@,
                b@,
            ) && #[trigger] call_ensures(N::product, (num, &left, &right), full);
        let (band, same) = choose|band: Matrix<N::Double>, same: Matrix<N::Double>|
            band@ == left_factor(layout, a@, b@, start, end) && same@ == right_factor(
                layout,
                a@,
                b@,
            ) && #[trigger] call_ensures(N::product, (num, &band, &same), part);
        assert(band@ == left@.band(start, end));
        assert(part@ == full@.band(start, end));
        let j = i - start * cols;
        assert(0 <= j < (end - start) * cols) by (nonlinear_arith)
            requires
                start <= row < end,
                row * cols <= i < (row + 1) * cols,
                j == i - start * cols,
        ;
        assert(full@.values.len() * size == rows * cols * size);
        assert(full@.values.len() == rows * cols) by (nonlinear_arith)
            requires
                full@.values.len() * size == rows * cols * size,
                size == 2 || size == 4,
        ;
        assert(0 <= start * cols <= end * cols <= rows * cols) by (nonlinear_arith)
            requires
                0 <= start <= end <= rows,
        ;
        assert((end - start) * cols == end * cols - start * cols) by (nonlinear_arith);
        assert(part@.values[j] == full@.values[i]);
        lemma_element_in_rows(base, size, rows, cols, start, end, j);
        lemma_element_in_rows(tiled, size, rows, cols, start, end, j);
        assert(merged_element(
            num,
            dtype,
            bits_at(row_bytes(base, width, start, end), size, j),
            part@.values[j],
            scaling,
            piece(row_bytes(tiled, width, start, end), size, j),
        ));
        assert(merged_element(
            num,
            dtype,
            bits_at(base, size, i),
            full@.values[i],
            scaling,
            piece(whole, size, i),
        ));
        lemma_one_merged_element(
            num,
            dtype,
            bits_at(base, size, i),
            full@.values[i],
            scaling,
            piece(tiled, size, i),
            piece(whole, size, i),
        );
    }
    lemma_same_pieces(tiled, whole, size, (rows * cols) as int);
}

/// With factors that fit and products of the right dimensions, no product fails.
pub(crate) proof fn lemma_no_product_fails<N: Numerics>(
    num: &N,
    a: Grid<N::Double>,
    b: Grid<N::Double>,
    layout: DeltaLayout,
    base: Dims,
    fan_in_fan_out: bool,
    error: Fault,
)
    requires
        dimensioned(num),
        delta_layout(base, dims(a), dims(b), fan_in_fan_out) == Some(layout),
    ensures
        !product_failed(num, a, b, layout, base.cols, error),
{
    if product_failed(num, a, b, layout, base.cols, error) {
        let (start, height, product) = choose|
            start: int,
            height: usize,
            product: Matrix<N::Double>,
        | #[trigger]
            delta_product(num, a, b, layout, start, start + height, product) && !(product@.rows
                == height && product@.cols == base.cols);
        let (left, right) = choose|left: Matrix<N::Double>, right: Matrix<N::Double>|
            left@ == left_factor(layout, a, b, start, start + height) && right@ == right_factor(
                layout,
                a,
                b,
            ) && #[trigger] call_ensures(N::product, (num, &left, &right), product);
        assert(left@.rows == height);
    }
}

/// With `low_memory` a merge does what it does without: both fail for the same reason and leave
/// their sinks alone, or both succeed and write the same bytes. That is so if no write fails, the
/// arithmetic has one result each, and the product of matrices has its dimensions and goes row by
/// row.
pub proof fn law_low_memory_changes_nothing<N: Numerics, S: Sink>(
    num: &N,
    base: Seq<u8>,
    a: Matrix<N::Double>,
    b: Matrix<N::Double>,
    scaling: N::Double,
    fan_in_fan_out: bool,
    shape: Seq<usize>,
    dtype: Dtype,
    first: S,
    tiled: (S, Result<()>),
    second: S,
    whole: (S, Result<()>),
)
    requires
        determined(num),
        row_wise(num),
        dimensioned(num),
        steady::<S>(),
        a@.values.len() == a@.rows * a@.cols,
        b@.values.len() == b@.rows * b@.cols,
        merge_outcome(
            num,
            base,
            a@,
            b@,
            scaling,
            fan_in_fan_out,
            shape,
            dtype,
            true,
            first,
            tiled,
        ),
        merge_outcome(
            num,
            base,
            a@,
            b@,
            scaling,
            fan_in_fan_out,
            shape,
            dtype,
            false,
            second,
            whole,
        ),
    ensures
        match lora_fault(base.len(), shape, dtype, dims(a@), dims(b@), fan_in_fan_out) {
            Some(fault) => tiled.0 == first && whole.0 == second && (tiled.1 matches Err(error)
                && error@ == fault) && (whole.1 matches Err(error) && error@ == fault),
            None => tiled.1 is Ok && whole.1 is Ok && exists|bytes: Seq<u8>| #[trigger]
                wrote(first, bytes, tiled.0) && wrote(second, bytes, whole.0),
        },
{
    let fault = lora_fault(base.len(), shape, dtype, dims(a@), dims(b@), fan_in_fan_out);
    if fault is None {
        let dim = Dims { rows: shape[0] as nat, cols: shape[1] as nat };
        let layout = delta_layout(dim, dims(a@), dims(b@), fan_in_fan_out)->0;
        if tiled.1 is Err {
            let error = (tiled.1->Err_0)@;
            lemma_no_product_fails(num, a@, b@, layout, dim, fan_in_fan_out, error);
        }
        if whole.1 is Err {
            let error = (whole.1->Err_0)@;
            lemma_no_product_fails(num, a@, b@, layout, dim, fan_in_fan_out, error);
        }
        let x = choose|out: Seq<u8>| #[trigger]
            wrote(first, out, tiled.0) && merged_tensor(
                num,
                base,
                a@,
                b@,
                scaling,
                layout,
                dim,
                dtype,
                true,
                out,
            );
        let y = choose|out: Seq<u8>| #[trigger]
            wrote(second, out, whole.0) && merged_tensor(
                num,
                base,
                a@,
                b@,
                scaling,
                layout,
                dim,
                dtype,
                false,
                out,
            );
        lemma_tiles_change_nothing(
            num,
            base,
            a,
            b,
            scaling,
            fan_in_fan_out,
            shape,
            dtype,
            x,
            y,
        );
    }
}

} // verus!
