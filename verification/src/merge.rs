//! LoRA merge: adding biases, and merging low-rank factors into base weights.

use crate::convert::{
    bits_at, element_bytes, lemma_pieces_kept, piece, push_bits, read_bits, stores_double,
};
use crate::delta::{
    check_lora, countable_base, delta_layout, delta_product, delta_rows, dims, lora_fault,
    product_failed, DeltaLayout, Dims,
};
use crate::dtype::{merge_size, mergeable, stored_size, Dtype};
use crate::error::{Fault, Result, SurgeryError};
use crate::numerics::{lemma_place_within, Grid, Matrix, Numerics};
use crate::sink::{
    broke, lemma_wrote_concat, lemma_wrote_nothing, lemma_wrote_once, wrote, wrote_some, Sink,
};
use vstd::prelude::*;
use vstd::slice::slice_subrange;

pub use crate::convert::{bytes_to_f32, bytes_to_f64, f32_to_bytes, f64_to_bytes};

verus! {

/// Whether numbers are the sums, place by place, of two rows of numbers.
pub open spec fn sums<N: Numerics>(
    num: &N,
    left: Seq<N::Single>,
    right: Seq<N::Single>,
    values: Seq<N::Single>,
) -> bool {
    &&& values.len() == left.len()
    &&& forall|i: int|
        0 <= i < values.len() ==> call_ensures(
            N::sum,
            (num, &left[i], &right[i]),
            #[trigger] values[i],
        )
}

/// Adds two rows of numbers, place by place.
fn add_values<N: Numerics>(left: &Vec<N::Single>, right: &Vec<N::Single>, num: &N) -> (r: Vec<
    N::Single,
>)
    requires
        left@.len() == right@.len(),
    ensures
        sums(num, left@, right@, r@),
{
    let mut r: Vec<N::Single> = Vec::new();
    for i in 0..left.len()
        invariant
            left@.len() == right@.len(),
            r@.len() == i,
            forall|k: int|
                0 <= k < i ==> call_ensures(
                    N::sum,
                    (num, &left@[k], &right@[k]),
                    #[trigger] r@[k],
                ),
    {
        let value = num.sum(&left[i], &right[i]);
        r.push(value);
    }
    r
}

/// Adds adapter bias values to base bias values element-wise.
pub fn merge_bias<N: Numerics>(
    base_bias: &Matrix<N::Single>,
    adapter_bias: &Matrix<N::Single>,
    num: &N,
) -> (r: Result<Matrix<N::Single>>)
    ensures
        match r {
            Ok(merged) => base_bias@.rows == adapter_bias@.rows && base_bias@.cols
                == adapter_bias@.cols && merged@.rows == base_bias@.rows && merged@.cols
                == base_bias@.cols && sums(
                num,
                base_bias@.values,
                adapter_bias@.values,
                merged@.values,
            ),
            Err(error) => !(base_bias@.rows == adapter_bias@.rows && base_bias@.cols
                == adapter_bias@.cols) && error@ == (Fault::ShapeMismatch {
                name: "bias"@,
                expected: seq![base_bias@.rows as usize, base_bias@.cols as usize],
                got: seq![adapter_bias@.rows as usize, adapter_bias@.cols as usize],
            }),
        },
{
    let rows: usize = base_bias.nrows();
    let cols: usize = base_bias.ncols();
    if rows != adapter_bias.nrows() || cols != adapter_bias.ncols() {
        let error = SurgeryError::ShapeMismatch {
            name: "bias".to_owned(),
            expected: vec![rows, cols],
            got: vec![adapter_bias.nrows(), adapter_bias.ncols()],
        };
        assert(error@->ShapeMismatch_expected =~= seq![rows, cols]);
        assert(error@->ShapeMismatch_got =~= seq![
            adapter_bias@.rows as usize,
            adapter_bias@.cols as usize,
        ]);
        return Err(error);
    }
    let values = add_values(base_bias.values(), adapter_bias.values(), num);
    match Matrix::from_values(rows, cols, values) {
        Some(merged) => Ok(merged),
        None => Err(SurgeryError::Safetensors("array is not contiguous in memory".to_owned())),
    }
}

/// Whether bytes are those of the element that stands for the sum of a base element and a value
/// of the product of the factors, scaled: all in double precision, rounded once.
pub open spec fn merged_element<N: Numerics>(
    num: &N,
    dtype: Dtype,
    bits: u32,
    product: N::Double,
    scaling: N::Double,
    bytes: Seq<u8>,
) -> bool {
    exists|base: N::Double, delta: N::Double, merged: N::Double|
        call_ensures(N::double, (num, dtype, bits), base) && call_ensures(
            N::scaled,
            (num, &product, &scaling),
            delta,
        ) && #[trigger] call_ensures(N::double_sum, (num, &base, &delta), merged)
            && stores_double(num, dtype, merged, bytes)
}

/// Whether output bytes come, element by element, from base bytes and as many values of the
/// product of the factors.
pub open spec fn merged_elements<N: Numerics>(
    num: &N,
    dtype: Dtype,
    base: Seq<u8>,
    products: Seq<N::Double>,
    scaling: N::Double,
    out: Seq<u8>,
) -> bool {
    &&& base.len() == products.len() * stored_size(dtype)
    &&& out.len() == base.len()
    &&& forall|i: int|
        0 <= i < products.len() ==> #[trigger] merged_element(
            num,
            dtype,
            bits_at(base, stored_size(dtype), i),
            products[i],
            scaling,
            piece(out, stored_size(dtype), i),
        )
}

/// The elements of bytes in a row are those of the first part, then those of the second.
proof fn lemma_elements_concat(first: Seq<u8>, second: Seq<u8>, size: nat, count: int, i: int)
    requires
        size == 2 || size == 4,
        0 <= count,
        first.len() == count * size,
        0 <= i,
        (i + 1) * size <= first.len() + second.len(),
    ensures
        i < count ==> bits_at(first + second, size, i) == bits_at(first, size, i) && piece(
            first + second,
            size,
            i,
        ) == piece(first, size, i),
        i >= count ==> bits_at(first + second, size, i) == bits_at(second, size, i - count)
            && piece(first + second, size, i) == piece(second, size, i - count),
{
    assert((i + 1) * size == i * size + size) by (nonlinear_arith);
    assert((i + 1 - count) * size == i * size + size - count * size) by (nonlinear_arith);
    assert((i - count) * size == i * size - count * size) by (nonlinear_arith);
    if i < count {
        lemma_place_within(i, count, size as int, size as int);
        assert(piece(first + second, size, i) =~= piece(first, size, i));
    } else {
        assert(i * size >= count * size) by (nonlinear_arith)
            requires
                i >= count,
        ;
        assert(piece(first + second, size, i) =~= piece(second, size, i - count));
    }
}

/// Elements merged in two parts are merged elements.
pub proof fn lemma_merged_concat<N: Numerics>(
    num: &N,
    dtype: Dtype,
    scaling: N::Double,
    base: (Seq<u8>, Seq<u8>),
    products: (Seq<N::Double>, Seq<N::Double>),
    out: (Seq<u8>, Seq<u8>),
)
    requires
        mergeable(dtype),
        merged_elements(num, dtype, base.0, products.0, scaling, out.0),
        merged_elements(num, dtype, base.1, products.1, scaling, out.1),
    ensures
        merged_elements(
            num,
            dtype,
            base.0 + base.1,
            products.0 + products.1,
            scaling,
            out.0 + out.1,
        ),
{
    let size = stored_size(dtype);
    let count = products.0.len() as int;
    let both = products.0 + products.1;
    assert(both.len() * size == products.0.len() * size + products.1.len() * size)
        by (nonlinear_arith)
        requires
            both.len() == products.0.len() + products.1.len(),
    ;
    assert forall|i: int| 0 <= i < both.len() implies #[trigger] merged_element(
        num,
        dtype,
        bits_at(base.0 + base.1, size, i),
        both[i],
        scaling,
        piece(out.0 + out.1, size, i),
    ) by {
        assert((i + 1) * size <= both.len() * size) by (nonlinear_arith)
            requires
                i + 1 <= both.len(),
        ;
        lemma_elements_concat(base.0, base.1, size, count, i);
        lemma_elements_concat(out.0, out.1, size, count, i);
        if i < count {
            assert(merged_element(
                num,
                dtype,
                bits_at(base.0, size, i),
                products.0[i],
                scaling,
                piece(out.0, size, i),
            ));
        } else {
            assert(merged_element(
                num,
                dtype,
                bits_at(base.1, size, i - count),
                products.1[i - count],
                scaling,
                piece(out.1, size, i - count),
            ));
        }
    }
}

/// The rows that are merged at a time: a fixed number of them to save memory, else all.
pub open spec fn tile_height(rows: nat, low_memory: bool) -> nat {
    if low_memory {
        512
    } else {
        rows
    }
}

/// Where a tile of rows ends.
pub open spec fn tile_end(rows: nat, height: nat, start: int) -> int {
    if start + height < rows {
        start + height
    } else {
        rows as int
    }
}

/// Whether the rows from `start` up to `end` of the output are the base's, element by element,
/// plus the scaled product of the factors' parts for these rows.
pub open spec fn merged_rows<N: Numerics>(
    num: &N,
    base: Seq<u8>,
    a: Grid<N::Double>,
    b: Grid<N::Double>,
    scaling: N::Double,
    layout: DeltaLayout,
    cols: nat,
    dtype: Dtype,
    start: int,
    end: int,
    out: Seq<u8>,
) -> bool {
    exists|product: Matrix<N::Double>| #[trigger]
        delta_product(num, a, b, layout, start, end, product) && product@.rows == end - start
            && product@.cols == cols && merged_elements(
            num,
            dtype,
            base,
            product@.values,
            scaling,
            out,
        )
}

/// The bytes of the rows from `start` up to `end`.
pub open spec fn row_bytes(bytes: Seq<u8>, width: nat, start: int, end: int) -> Seq<u8> {
    bytes.subrange(start * width, end * width)
}

/// Whether the output is the base tensor with the change from the low-rank factors added, tile
/// by tile.
pub open spec fn merged_tensor<N: Numerics>(
    num: &N,
    base: Seq<u8>,
    a: Grid<N::Double>,
    b: Grid<N::Double>,
    scaling: N::Double,
    layout: DeltaLayout,
    shape: Dims,
    dtype: Dtype,
    low_memory: bool,
    out: Seq<u8>,
) -> bool {
    let width = shape.cols * stored_size(dtype);
    let height = tile_height(shape.rows, low_memory);
    &&& out.len() == base.len()
    &&& forall|tile: int|
        0 <= tile && tile * height < shape.rows ==> #[trigger] merged_tile(
            num,
            base,
            a,
            b,
            scaling,
            layout,
            shape,
            dtype,
            height,
            tile,
            out,
        )
}

/// Whether one tile of the output is the base's with the change added.
pub open spec fn merged_tile<N: Numerics>(
    num: &N,
    base: Seq<u8>,
    a: Grid<N::Double>,
    b: Grid<N::Double>,
    scaling: N::Double,
    layout: DeltaLayout,
    shape: Dims,
    dtype: Dtype,
    height: nat,
    tile: int,
    out: Seq<u8>,
) -> bool {
    let width = shape.cols * stored_size(dtype);
    let start = tile * height;
    let end = tile_end(shape.rows, height, start);
    merged_rows(
        num,
        row_bytes(base, width, start, end),
        a,
        b,
        scaling,
        layout,
        shape.cols,
        dtype,
        start,
        end,
        row_bytes(out, width, start, end),
    )
}

/// Scales the values of a product.
fn scaled_values<N: Numerics>(product: &Matrix<N::Double>, scaling: &N::Double, num: &N) -> (r:
    Vec<N::Double>)
    ensures
        r@.len() == product@.values.len(),
        forall|i: int|
            0 <= i < r@.len() ==> call_ensures(
                N::scaled,
                (num, &product@.values[i], scaling),
                #[trigger] r@[i],
            ),
{
    let values = product.values();
    let mut r: Vec<N::Double> = Vec::new();
    for i in 0..values.len()
        invariant
            values@ == product@.values,
            r@.len() == i,
            forall|k: int|
                0 <= k < i ==> call_ensures(
                    N::scaled,
                    (num, &product@.values[k], scaling),
                    #[trigger] r@[k],
                ),
    {
        let value = num.scaled(&values[i], scaling);
        r.push(value);
    }
    r
}

/// Adds two rows of numbers in double precision, place by place.
fn add_doubles<N: Numerics>(left: &Vec<N::Double>, right: &Vec<N::Double>, num: &N) -> (r: Vec<
    N::Double,
>)
    requires
        left@.len() == right@.len(),
    ensures
        r@.len() == left@.len(),
        forall|i: int|
            0 <= i < r@.len() ==> call_ensures(
                N::double_sum,
                (num, &left@[i], &right@[i]),
                #[trigger] r@[i],
            ),
{
    let mut r: Vec<N::Double> = Vec::new();
    for i in 0..left.len()
        invariant
            left@.len() == right@.len(),
            r@.len() == i,
            forall|k: int|
                0 <= k < i ==> call_ensures(
                    N::double_sum,
                    (num, &left@[k], &right@[k]),
                    #[trigger] r@[k],
                ),
    {
        let value = num.double_sum(&left[i], &right[i]);
        r.push(value);
    }
    r
}

/// Merges a band of rows: the base as a matrix, the change as another, their sum as bytes.
fn merge_band<N: Numerics>(
    base: &[u8],
    dtype: Dtype,
    product: &Matrix<N::Double>,
    scaling: &N::Double,
    num: &N,
) -> (r: Result<Vec<u8>>)
    requires
        mergeable(dtype),
        product@.values.len() == product@.rows * product@.cols,
        base@.len() == product@.values.len() * stored_size(dtype),
    ensures
        r is Ok,
        merged_elements(num, dtype, base@, product@.values, *scaling, r->Ok_0@),
{
    let count: usize = base.len();
    let delta = scaled_values(product, scaling, num);
    let shape: Vec<usize> = vec![product.nrows(), product.ncols()];
    let tile = match bytes_to_f64(base, dtype, shape.as_slice(), "tile", num) {
        Ok(tile) => tile,
        Err(error) => {
            return Err(error);
        },
    };
    let sum = add_doubles(tile.values(), &delta, num);
    match Matrix::from_values(product.nrows(), product.ncols(), sum) {
        Some(merged) => {
            let r = f64_to_bytes(&merged, dtype, num);
            proof {
                let size = stored_size(dtype);
                let out = r->Ok_0@;
                assert forall|i: int| 0 <= i < product@.values.len() implies #[trigger]
                    merged_element(
                    num,
                    dtype,
                    bits_at(base@, size, i),
                    product@.values[i],
                    *scaling,
                    piece(out, size, i),
                ) by {
                    assert(stores_double(num, dtype, merged@.values[i], piece(out, size, i)));
                    assert(call_ensures(
                        N::double,
                        (num, dtype, bits_at(base@, size, i)),
                        tile@.values[i],
                    ));
                    assert(call_ensures(
                        N::scaled,
                        (num, &product@.values[i], scaling),
                        delta@[i],
                    ));
                    assert(call_ensures(
                        N::double_sum,
                        (num, &tile@.values[i], &delta@[i]),
                        sum@[i],
                    ));
                }
            }
            r
        },
        None => Err(SurgeryError::Safetensors("array is not contiguous in memory".to_owned())),
    }
}

/// Merges a row, element by element.
fn merge_row<N: Numerics>(
    base: &[u8],
    dtype: Dtype,
    size: usize,
    products: &Vec<N::Double>,
    first: usize,
    cols: usize,
    scaling: &N::Double,
    num: &N,
) -> (r: Vec<u8>)
    requires
        mergeable(dtype),
        size == stored_size(dtype),
        first + cols <= products@.len(),
        base@.len() == cols * size,
    ensures
        merged_elements(
            num,
            dtype,
            base@,
            products@.subrange(first as int, first + cols),
            *scaling,
            r@,
        ),
{
    let ghost row = products@.subrange(first as int, first + cols);
    let total: usize = products.len();
    let mut out: Vec<u8> = Vec::new();
    assert(0 * size == 0) by (nonlinear_arith);
    for i in 0..cols
        invariant
            size == 2 || size == 4,
            size == stored_size(dtype),
            first + cols <= products@.len() == total,
            base@.len() == cols * size,
            row == products@.subrange(first as int, first + cols),
            out@.len() == i * size,
            forall|k: int|
                0 <= k < i ==> #[trigger] merged_element(
                    num,
                    dtype,
                    bits_at(base@, size as nat, k),
                    row[k],
                    *scaling,
                    piece(out@, size as nat, k),
                ),
    {
        proof {
            lemma_place_within(i as int, cols as int, size as int, size as int);
        }
        let base_value = num.double(dtype, read_bits(base, size, i));
        let delta = num.scaled(&products[first + i], scaling);
        let merged = num.double_sum(&base_value, &delta);
        let bits: u32 = num.double_bits(dtype, &merged);
        let ghost before = out@;
        push_bits(&mut out, bits, size);
        proof {
            let more = element_bytes(bits, size as nat);
            lemma_pieces_kept(before, more, size as nat, i as int);
            assert(stores_double(num, dtype, merged, more));
            assert(row[i as int] == products@[first + i]);
            assert(merged_element(
                num,
                dtype,
                bits_at(base@, size as nat, i as int),
                row[i as int],
                *scaling,
                piece(out@, size as nat, i as int),
            ));
            assert forall|k: int| 0 <= k < i implies #[trigger] merged_element(
                num,
                dtype,
                bits_at(base@, size as nat, k),
                row[k],
                *scaling,
                piece(out@, size as nat, k),
            ) by {
                assert(merged_element(
                    num,
                    dtype,
                    bits_at(base@, size as nat, k),
                    row[k],
                    *scaling,
                    piece(before, size as nat, k),
                ));
            }
        }
    }
    out
}

/// Whether writing a merged tensor, and nothing else, can take a sink from one state to another.
pub open spec fn wrote_merged<N: Numerics, S: Sink>(
    num: &N,
    base: Seq<u8>,
    a: Grid<N::Double>,
    b: Grid<N::Double>,
    scaling: N::Double,
    layout: DeltaLayout,
    shape: Dims,
    dtype: Dtype,
    low_memory: bool,
    before: S,
    after: S,
) -> bool {
    exists|out: Seq<u8>| #[trigger]
        wrote(before, out, after) && merged_tensor(
            num,
            base,
            a,
            b,
            scaling,
            layout,
            shape,
            dtype,
            low_memory,
            out,
        )
}

/// A part of some rows that begins where others end: its size, its place and its end.
pub(crate) proof fn lemma_rows_size(rows: int, cols: int, size: int, start: int, end: int)
    requires
        0 <= start <= end <= rows,
        0 <= cols,
        0 <= size,
    ensures
        rows * cols * size == rows * (cols * size),
        (end - start) * cols * size == end * (cols * size) - start * (cols * size),
        0 <= start * (cols * size) <= end * (cols * size) <= rows * (cols * size),
        rows >= 1 ==> cols * size <= rows * (cols * size),
{
    let width = cols * size;
    assert(0 <= width) by (nonlinear_arith)
        requires
            0 <= cols,
            0 <= size,
            width == cols * size,
    ;
    assert(rows * cols * size == rows * (cols * size)) by (nonlinear_arith);
    assert((end - start) * cols * size == end * (cols * size) - start * (cols * size))
        by (nonlinear_arith);
    assert(0 <= start * width <= end * width <= rows * width) by (nonlinear_arith)
        requires
            0 <= start <= end <= rows,
            0 <= width,
    ;
    if rows >= 1 {
        assert(width <= rows * width) by (nonlinear_arith)
            requires
                rows >= 1,
                0 <= width,
        ;
    }
}

/// Rows that were there stay as they are when more bytes follow.
proof fn lemma_rows_kept(
    before: Seq<u8>,
    more: Seq<u8>,
    width: nat,
    start: int,
    end: int,
    rows: int,
)
    requires
        0 <= start <= end <= rows,
        before.len() == rows * width,
    ensures
        row_bytes(before + more, width, start, end) == row_bytes(before, width, start, end),
{
    assert(0 <= start * width <= end * width <= rows * width) by (nonlinear_arith)
        requires
            0 <= start <= end <= rows,
    ;
    assert(row_bytes(before + more, width, start, end) =~= row_bytes(before, width, start, end));
}

/// Merges a tensor tile by tile, so that the change for one tile at a time is in memory, and
/// writes each tile.
fn write_tiles<N: Numerics, S: Sink>(
    base: &[u8],
    lora_a: &Matrix<N::Double>,
    lora_b: &Matrix<N::Double>,
    scaling: &N::Double,
    layout: DeltaLayout,
    rows: usize,
    cols: usize,
    dtype: Dtype,
    num: &N,
    writer: S,
) -> (r: (S, Result<()>))
    requires
        mergeable(dtype),
        base@.len() == rows * cols * stored_size(dtype),
        layout == DeltaLayout::ProductTransposed ==> rows <= lora_a@.cols,
        layout != DeltaLayout::ProductTransposed ==> rows <= lora_b@.rows,
    ensures
        match r.1 {
            Ok(_) => wrote_merged(
                num,
                base@,
                lora_a@,
                lora_b@,
                *scaling,
                layout,
                Dims { rows: rows as nat, cols: cols as nat },
                dtype,
                true,
                writer,
                r.0,
            ),
            Err(error) => merge_broke(
                num,
                lora_a@,
                lora_b@,
                layout,
                cols as nat,
                true,
                writer,
                error,
                r.0,
            ),
        },
{
    let size: usize = match merge_size(dtype, "output") {
        Ok(size) => size,
        Err(error) => {
            return (writer, Err(error));
        },
    };
    let count: usize = base.len();
    let ghost width = cols as nat * size as nat;
    let ghost shape = Dims { rows: rows as nat, cols: cols as nat };
    let mut sink = writer;
    let mut start: usize = 0;
    let ghost mut out = Seq::<u8>::empty();
    let ghost mut tiles: int = 0;
    proof {
        lemma_wrote_nothing(writer);
        assert(0 * width == 0) by (nonlinear_arith);
    }
    while start < rows
        invariant
            mergeable(dtype),
            size == stored_size(dtype),
            width == cols as nat * size as nat,
            shape == (Dims { rows: rows as nat, cols: cols as nat }),
            count == base@.len() == rows * cols * size,
            layout == DeltaLayout::ProductTransposed ==> rows <= lora_a@.cols,
            layout != DeltaLayout::ProductTransposed ==> rows <= lora_b@.rows,
            start <= rows,
            0 <= tiles,
            start < rows ==> start == tiles * 512,
            start <= tiles * 512,
            out.len() == start * width,
            wrote(writer, out, sink),
            forall|tile: int|
                0 <= tile < tiles ==> #[trigger] merged_tile(
                    num,
                    base@,
                    lora_a@,
                    lora_b@,
                    *scaling,
                    layout,
                    shape,
                    dtype,
                    512,
                    tile,
                    out,
                ),
        decreases rows - start,
    {
        let end: usize = if rows - start > 512 {
            start + 512
        } else {
            rows
        };
        proof {
            lemma_rows_size(rows as int, cols as int, size as int, start as int, end as int);
            lemma_rows_size(rows as int, cols as int, size as int, 0, start as int);
        }
        let row_size: usize = cols * size;
        let product = match delta_rows(lora_a, lora_b, layout, cols, start, end, num) {
            Ok(product) => product,
            Err(error) => {
                return (sink, Err(error));
            },
        };
        let band = slice_subrange(base, start * row_size, end * row_size);
        let height: usize = product.nrows();
        let merged = match merge_band(band, dtype, &product, scaling, num) {
            Ok(merged) => merged,
            Err(error) => {
                return (sink, Err(error));
            },
        };
        let ghost before = sink;
        let bytes = merged.as_slice();
        let (next, outcome) = sink.write(bytes);
        sink = next;
        if let Err(error) = outcome {
            return (sink, Err(error));
        }
        proof {
            let more = merged@;
            lemma_wrote_once(before, bytes, sink, outcome);
            lemma_wrote_concat(writer, out, before, more, sink);
            let longer = out + more;
            assert forall|tile: int| 0 <= tile < tiles + 1 implies #[trigger] merged_tile(
                num,
                base@,
                lora_a@,
                lora_b@,
                *scaling,
                layout,
                shape,
                dtype,
                512,
                tile,
                longer,
            ) by {
                let first = tile * 512;
                let last = tile_end(rows as nat, 512, first);
                if tile < tiles {
                    assert(merged_tile(
                        num,
                        base@,
                        lora_a@,
                        lora_b@,
                        *scaling,
                        layout,
                        shape,
                        dtype,
                        512,
                        tile,
                        out,
                    ));
                    lemma_rows_kept(out, more, width, first, last, start as int);
                } else {
                    assert(row_bytes(longer, width, start as int, end as int) =~= more);
                    assert(row_bytes(base@, width, start as int, end as int) =~= band@);
                    assert(delta_product(
                        num,
                        lora_a@,
                        lora_b@,
                        layout,
                        first,
                        last,
                        product,
                    ));
                }
            }
            out = longer;
            tiles = tiles + 1;
        }
        start = end;
    }
    proof {
        assert(rows * (cols * size) == rows * cols * size) by (nonlinear_arith);
        assert(merged_tensor(
            num,
            base@,
            lora_a@,
            lora_b@,
            *scaling,
            layout,
            shape,
            dtype,
            true,
            out,
        ));
    }
    (sink, Ok(()))
}

/// Multiplies the factors at once, and merges and writes a tensor row by row.
fn write_rows<N: Numerics, S: Sink>(
    base: &[u8],
    lora_a: &Matrix<N::Double>,
    lora_b: &Matrix<N::Double>,
    scaling: &N::Double,
    layout: DeltaLayout,
    rows: usize,
    cols: usize,
    dtype: Dtype,
    num: &N,
    writer: S,
) -> (r: (S, Result<()>))
    requires
        mergeable(dtype),
        base@.len() == rows * cols * stored_size(dtype),
        layout == DeltaLayout::ProductTransposed ==> rows <= lora_a@.cols,
        layout != DeltaLayout::ProductTransposed ==> rows <= lora_b@.rows,
    ensures
        match r.1 {
            Ok(_) => wrote_merged(
                num,
                base@,
                lora_a@,
                lora_b@,
                *scaling,
                layout,
                Dims { rows: rows as nat, cols: cols as nat },
                dtype,
                false,
                writer,
                r.0,
            ),
            Err(error) => merge_broke(
                num,
                lora_a@,
                lora_b@,
                layout,
                cols as nat,
                false,
                writer,
                error,
                r.0,
            ),
        },
{
    let size: usize = match merge_size(dtype, "output") {
        Ok(size) => size,
        Err(error) => {
            return (writer, Err(error));
        },
    };
    let count: usize = base.len();
    let ghost width = cols as nat * size as nat;
    let product = match delta_rows(lora_a, lora_b, layout, cols, 0, rows, num) {
        Ok(product) => product,
        Err(error) => {
            proof {
                lemma_wrote_nothing(writer);
            }
            return (writer, Err(error));
        },
    };
    let products = product.values();
    let places: usize = products.len();
    let mut sink = writer;
    let ghost mut out = Seq::<u8>::empty();
    proof {
        lemma_wrote_nothing(writer);
        assert(0 * width == 0) by (nonlinear_arith);
        assert(0 * cols == 0) by (nonlinear_arith);
        assert(base@.subrange(0, 0int * width) =~= Seq::<u8>::empty());
        assert(products@.subrange(0, 0int * cols) =~= Seq::<N::Double>::empty());
    }
    for row in 0..rows
        invariant
            mergeable(dtype),
            size == stored_size(dtype),
            width == cols as nat * size as nat,
            count == base@.len() == rows * cols * size,
            places == products@.len() == rows * cols,
            out.len() == row * width,
            wrote(writer, out, sink),
            merged_elements(
                num,
                dtype,
                base@.subrange(0, row * width),
                products@.subrange(0, row * cols),
                *scaling,
                out,
            ),
    {
        proof {
            lemma_rows_size(rows as int, cols as int, size as int, row as int, row + 1);
            lemma_place_within(row as int, rows as int, cols as int, cols as int);
            assert((row + 1 - row) * cols == cols) by (nonlinear_arith);
        }
        let row_size: usize = cols * size;
        let first: usize = row * row_size;
        let band = slice_subrange(base, first, first + row_size);
        let merged = merge_row(band, dtype, size, products, row * cols, cols, scaling, num);
        let ghost before = sink;
        let bytes = merged.as_slice();
        let (next, outcome) = sink.write(bytes);
        sink = next;
        if let Err(error) = outcome {
            return (sink, Err(error));
        }
        proof {
            lemma_wrote_once(before, bytes, sink, outcome);
            lemma_wrote_concat(writer, out, before, merged@, sink);
            let done = base@.subrange(0, row * width);
            let used = products@.subrange(0, row * cols);
            let row_products = products@.subrange(row * cols, row * cols + cols);
            lemma_merged_concat(
                num,
                dtype,
                *scaling,
                (done, band@),
                (used, row_products),
                (out, merged@),
            );
            assert(done + band@ =~= base@.subrange(0, (row + 1) * width));
            assert(used + row_products =~= products@.subrange(0, (row + 1) * cols));
            out = out + merged@;
        }
    }
    proof {
        let shape = Dims { rows: rows as nat, cols: cols as nat };
        lemma_rows_size(rows as int, cols as int, size as int, 0, rows as int);
        assert(base@.subrange(0, rows * width) =~= base@);
        assert(products@.subrange(0, rows * cols) =~= products@);
        assert forall|tile: int| 0 <= tile && tile * rows < rows implies #[trigger] merged_tile(
            num,
            base@,
            lora_a@,
            lora_b@,
            *scaling,
            layout,
            shape,
            dtype,
            rows as nat,
            tile,
            out,
        ) by {
            assert(tile == 0) by (nonlinear_arith)
                requires
                    0 <= tile,
                    tile * rows < rows,
            ;
            assert(0 * rows == 0) by (nonlinear_arith);
            assert(row_bytes(out, width, 0, rows as int) =~= out);
            assert(delta_product(num, lora_a@, lora_b@, layout, 0, rows as int, product));
        }
    }
    (sink, Ok(()))
}

/// Whether a merge that was begun can fail with an error and leave a sink in some state: the
/// product of the factors has other dimensions than the base, or a write failed. A merge at once
/// has written nothing when the product is off.
pub open spec fn merge_broke<N: Numerics, S: Sink>(
    num: &N,
    a: Grid<N::Double>,
    b: Grid<N::Double>,
    layout: DeltaLayout,
    cols: nat,
    low_memory: bool,
    before: S,
    error: SurgeryError,
    after: S,
) -> bool {
    ||| product_failed(num, a, b, layout, cols, error@) && wrote_some(before, after) && (!low_memory
        ==> after == before)
    ||| broke(before, error, after)
}

/// What comes of merging low-rank factors into a base tensor. What cannot be merged leaves the
/// sink alone.
pub open spec fn merge_outcome<N: Numerics, S: Sink>(
    num: &N,
    base: Seq<u8>,
    a: Grid<N::Double>,
    b: Grid<N::Double>,
    scaling: N::Double,
    fan_in_fan_out: bool,
    shape: Seq<usize>,
    dtype: Dtype,
    low_memory: bool,
    writer: S,
    r: (S, Result<()>),
) -> bool {
    let fault = lora_fault(base.len(), shape, dtype, dims(a), dims(b), fan_in_fan_out);
    let dim = Dims { rows: shape[0] as nat, cols: shape[1] as nat };
    let layout = delta_layout(dim, dims(a), dims(b), fan_in_fan_out)->0;
    match r.1 {
        Ok(_) => fault is None && wrote_merged(
            num,
            base,
            a,
            b,
            scaling,
            layout,
            dim,
            dtype,
            low_memory,
            writer,
            r.0,
        ),
        Err(error) => fault == Some(error@) && r.0 == writer || (fault is None && merge_broke(
            num,
            a,
            b,
            layout,
            dim.cols,
            low_memory,
            writer,
            error,
            r.0,
        )),
    }
}

/// Merges low-rank factors into a base tensor and writes the result. With `low_memory` the
/// change is computed for a bounded number of rows at a time. The product of the factors is
/// computed, scaled and added to the base in double precision, and the sum is rounded once, to the
/// element type of the base.
pub fn streaming_lora_merge_write<N: Numerics, S: Sink>(
    base_bytes: &[u8],
    lora_a: &Matrix<N::Double>,
    lora_b: &Matrix<N::Double>,
    scaling: &N::Double,
    fan_in_fan_out: bool,
    base_shape: &[usize],
    dtype: Dtype,
    low_memory: bool,
    num: &N,
    writer: S,
) -> (r: (S, Result<()>))
    requires
        countable_base(dtype, base_shape@),
    ensures
        merge_outcome(
            num,
            base_bytes@,
            lora_a@,
            lora_b@,
            *scaling,
            fan_in_fan_out,
            base_shape@,
            dtype,
            low_memory,
            writer,
            r,
        ),
{
    let layout = match check_lora(
        base_bytes.len(),
        base_shape,
        dtype,
        lora_a,
        lora_b,
        fan_in_fan_out,
    ) {
        Ok(layout) => layout,
        Err(error) => {
            return (writer, Err(error));
        },
    };
    let rows: usize = base_shape[0];
    let cols: usize = base_shape[1];
    if low_memory {
        write_tiles(base_bytes, lora_a, lora_b, scaling, layout, rows, cols, dtype, num, writer)
    } else {
        write_rows(base_bytes, lora_a, lora_b, scaling, layout, rows, cols, dtype, num, writer)
    }
}

} // verus!
