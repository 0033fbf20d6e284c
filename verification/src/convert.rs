//! Tensors as matrices: the conversion of raw bytes to numbers and back.

use crate::dtype::{merge_size, mergeable, stored_size, unsupported, Dtype};
use crate::error::{Fault, Result, SurgeryError};
use crate::numerics::{lemma_place_within, Grid, Matrix, Numerics};
use vstd::prelude::*;
use vstd::slice::slice_to_vec;

verus! {

/// The bits of the element at a place, least significant byte first, in a tensor whose elements
/// take two bytes or four.
pub open spec fn bits_at(bytes: Seq<u8>, size: nat, i: int) -> u32 {
    if size == 2 {
        (bytes[2 * i] + 0x100 * bytes[2 * i + 1]) as u32
    } else {
        (bytes[4 * i] + 0x100 * bytes[4 * i + 1] + 0x1_0000 * bytes[4 * i + 2] + 0x100_0000
            * bytes[4 * i + 3]) as u32
    }
}

/// The bytes of an element of two bytes or four, least significant byte first.
pub open spec fn element_bytes(bits: u32, size: nat) -> Seq<u8> {
    if size == 2 {
        seq![(bits % 0x100) as u8, (bits / 0x100 % 0x100) as u8]
    } else {
        seq![
            (bits % 0x100) as u8,
            (bits / 0x100 % 0x100) as u8,
            (bits / 0x1_0000 % 0x100) as u8,
            (bits / 0x100_0000) as u8,
        ]
    }
}

/// The bytes of the element at a place.
pub open spec fn piece(bytes: Seq<u8>, size: nat, i: int) -> Seq<u8> {
    bytes.subrange(i * size, (i + 1) * size)
}

/// The bits of an element come back from its bytes, cut to the bytes that it has.
pub proof fn law_bits_of_element_bytes(bits: u32, size: nat)
    requires
        size == 2 || size == 4,
    ensures
        element_bytes(bits, size).len() == size,
        size == 4 ==> bits_at(element_bytes(bits, size), size, 0) == bits,
        size == 2 ==> bits_at(element_bytes(bits, size), size, 0) == bits % 0x1_0000,
{
    if size == 4 {
        assert(bits == bits % 0x100 + 0x100 * (bits / 0x100 % 0x100) + 0x1_0000 * (bits / 0x1_0000
            % 0x100) + 0x100_0000 * (bits / 0x100_0000)) by (bit_vector);
    } else {
        assert(bits % 0x1_0000 == bits % 0x100 + 0x100 * (bits / 0x100 % 0x100)) by (bit_vector);
    }
}

/// The bytes of an element come back from its bits.
pub proof fn law_element_bytes_of_bits(bytes: Seq<u8>, size: nat)
    requires
        size == 2 || size == 4,
        bytes.len() == size,
    ensures
        element_bytes(bits_at(bytes, size, 0), size) == bytes,
{
    let bits = bits_at(bytes, size, 0);
    let a = bytes[0];
    let b = bytes[1];
    if size == 2 {
        assert(bits == a + 0x100 * b);
        assert(bits % 0x100 == a && bits / 0x100 % 0x100 == b) by (bit_vector)
            requires
                bits == a + 0x100 * b,
        ;
    } else {
        let c = bytes[2];
        let d = bytes[3];
        assert(bits == a + 0x100 * b + 0x1_0000 * c + 0x100_0000 * d);
        assert(bits % 0x100 == a && bits / 0x100 % 0x100 == b && bits / 0x1_0000 % 0x100 == c
            && bits / 0x100_0000 == d) by (bit_vector)
            requires
                bits == a + 0x100 * b + 0x1_0000 * c + 0x100_0000 * d,
        ;
    }
    assert(element_bytes(bits, size) =~= bytes);
}

/// Reads the bits of the element at a place.
pub(crate) fn read_bits(bytes: &[u8], size: usize, i: usize) -> (r: u32)
    requires
        size == 2 || size == 4,
        (i + 1) * size <= bytes@.len(),
    ensures
        r == bits_at(bytes@, size as nat, i as int),
{
    let count: usize = bytes.len();
    if size == 2 {
        let at: usize = 2 * i;
        bytes[at] as u32 + 0x100 * bytes[at + 1] as u32
    } else {
        let at: usize = 4 * i;
        bytes[at] as u32 + 0x100 * bytes[at + 1] as u32 + 0x1_0000 * bytes[at + 2] as u32
            + 0x100_0000 * bytes[at + 3] as u32
    }
}

/// Appends the bytes of an element.
pub(crate) fn push_bits(out: &mut Vec<u8>, bits: u32, size: usize)
    requires
        size == 2 || size == 4,
    ensures
        final(out)@ == old(out)@ + element_bytes(bits, size as nat),
{
    out.push((bits % 0x100) as u8);
    out.push((bits / 0x100 % 0x100) as u8);
    if size == 4 {
        out.push((bits / 0x1_0000 % 0x100) as u8);
        out.push((bits / 0x100_0000) as u8);
    }
    assert(out@ =~= old(out)@ + element_bytes(bits, size as nat));
}

/// What keeps bytes from being a matrix of a shape and an element type: the shape has not two
/// dimensions, the type is not one that is merged, or the number of bytes is another.
pub open spec fn matrix_fault(
    count: nat,
    dtype: Dtype,
    shape: Seq<usize>,
    name: Seq<char>,
) -> Option<Fault> {
    if shape.len() != 2 {
        Some(Fault::ShapeMismatch { name, expected: seq![0, 0], got: shape })
    } else if !mergeable(dtype) {
        Some(unsupported(name, dtype))
    } else if count != shape[0] * shape[1] * stored_size(dtype) {
        Some(
            Fault::ShapeMismatch {
                name,
                expected: seq![(shape[0] * shape[1] * stored_size(dtype)) as usize],
                got: seq![count as usize],
            },
        )
    } else {
        None
    }
}

/// Whether the size of a matrix of a shape and an element type can be counted.
pub open spec fn countable(dtype: Dtype, shape: Seq<usize>) -> bool {
    shape.len() == 2 ==> shape[0] * shape[1] * (if mergeable(dtype) {
        stored_size(dtype)
    } else {
        1
    }) <= usize::MAX
}

/// Checks that bytes are a matrix of a shape and an element type, and gives the size of an
/// element.
pub(crate) fn check_matrix(count: usize, dtype: Dtype, shape: &[usize], name: &str) -> (r: Result<
    usize,
>)
    requires
        countable(dtype, shape@),
    ensures
        match r {
            Ok(size) => matrix_fault(count as nat, dtype, shape@, name@) is None && size
                == stored_size(dtype),
            Err(error) => matrix_fault(count as nat, dtype, shape@, name@) == Some(error@),
        },
{
    if shape.len() != 2 {
        let expected: Vec<usize> = vec![0, 0];
        let error = SurgeryError::ShapeMismatch {
            name: name.to_owned(),
            expected,
            got: slice_to_vec(shape),
        };
        assert(error@->ShapeMismatch_expected =~= seq![0usize, 0usize]);
        assert(error@->ShapeMismatch_got =~= shape@);
        return Err(error);
    }
    proof {
        assert(shape@[0] * shape@[1] <= shape@[0] * shape@[1] * stored_size(dtype))
            by (nonlinear_arith)
            requires
                stored_size(dtype) >= 1,
                0 <= shape@[0] * shape@[1],
        ;
        assert(shape@[0] * shape@[1] * 1 == shape@[0] * shape@[1]) by (nonlinear_arith);
    }
    let elements: usize = shape[0] * shape[1];
    let size = match merge_size(dtype, name) {
        Ok(size) => size,
        Err(error) => {
            return Err(error);
        },
    };
    let expected: usize = elements * size;
    if count != expected {
        let error = SurgeryError::ShapeMismatch {
            name: name.to_owned(),
            expected: vec![expected],
            got: vec![count],
        };
        assert(error@->ShapeMismatch_expected =~= seq![expected]);
        assert(error@->ShapeMismatch_got =~= seq![count]);
        return Err(error);
    }
    Ok(size)
}

/// Whether numbers are those that the elements of a tensor stand for, in single precision.
pub open spec fn single_values<N: Numerics>(
    num: &N,
    dtype: Dtype,
    bytes: Seq<u8>,
    values: Seq<N::Single>,
) -> bool {
    forall|i: int|
        0 <= i < values.len() ==> call_ensures(
            N::single,
            (num, dtype, bits_at(bytes, stored_size(dtype), i)),
            #[trigger] values[i],
        )
}

/// Whether numbers are those that the elements of a tensor stand for, in double precision.
pub open spec fn double_values<N: Numerics>(
    num: &N,
    dtype: Dtype,
    bytes: Seq<u8>,
    values: Seq<N::Double>,
) -> bool {
    forall|i: int|
        0 <= i < values.len() ==> call_ensures(
            N::double,
            (num, dtype, bits_at(bytes, stored_size(dtype), i)),
            #[trigger] values[i],
        )
}

/// What comes of reading bytes as a matrix in single precision.
pub open spec fn reads_single<N: Numerics>(
    num: &N,
    bytes: Seq<u8>,
    dtype: Dtype,
    shape: Seq<usize>,
    name: Seq<char>,
    r: Result<Matrix<N::Single>>,
) -> bool {
    match r {
        Ok(matrix) => matrix_fault(bytes.len(), dtype, shape, name) is None && matrix@.rows
            == shape[0] && matrix@.cols == shape[1] && matrix@.values.len() == shape[0] * shape[1]
            && single_values(num, dtype, bytes, matrix@.values),
        Err(error) => matrix_fault(bytes.len(), dtype, shape, name) == Some(error@),
    }
}

/// What comes of reading bytes as a matrix in double precision.
pub open spec fn reads_double<N: Numerics>(
    num: &N,
    bytes: Seq<u8>,
    dtype: Dtype,
    shape: Seq<usize>,
    name: Seq<char>,
    r: Result<Matrix<N::Double>>,
) -> bool {
    match r {
        Ok(matrix) => matrix_fault(bytes.len(), dtype, shape, name) is None && matrix@.rows
            == shape[0] && matrix@.cols == shape[1] && matrix@.values.len() == shape[0] * shape[1]
            && double_values(num, dtype, bytes, matrix@.values),
        Err(error) => matrix_fault(bytes.len(), dtype, shape, name) == Some(error@),
    }
}

/// Converts raw tensor bytes to a matrix in single precision, upcasting from the storage dtype.
pub fn bytes_to_f32<N: Numerics>(
    bytes: &[u8],
    dtype: Dtype,
    shape: &[usize],
    name: &str,
    num: &N,
) -> (r: Result<Matrix<N::Single>>)
    requires
        countable(dtype, shape@),
    ensures
        reads_single(num, bytes@, dtype, shape@, name@, r),
{
    let size: usize = match check_matrix(bytes.len(), dtype, shape, name) {
        Ok(size) => size,
        Err(error) => {
            return Err(error);
        },
    };
    let count: usize = bytes.len() / size;
    let mut values: Vec<N::Single> = Vec::new();
    for i in 0..count
        invariant
            size == 2 || size == 4,
            size == stored_size(dtype),
            count == bytes@.len() / size as nat,
            values@.len() == i,
            single_values(num, dtype, bytes@, values@),
    {
        assert((i + 1) * size <= bytes@.len()) by (nonlinear_arith)
            requires
                i < count,
                count == bytes@.len() / size as nat,
                size == 2 || size == 4,
        ;
        let bits: u32 = read_bits(bytes, size, i);
        values.push(num.single(dtype, bits));
    }
    proof {
        let n = shape@[0] * shape@[1];
        assert(n * size / (size as int) == n) by (nonlinear_arith)
            requires
                size > 0,
        ;
    }
    match Matrix::from_values(shape[0], shape[1], values) {
        Some(matrix) => Ok(matrix),
        None => Err(
            SurgeryError::ShapeMismatch {
                name: name.to_owned(),
                expected: slice_to_vec(shape),
                got: slice_to_vec(shape),
            },
        ),
    }
}

/// Converts raw tensor bytes to a matrix in double precision, upcasting from the storage dtype.
pub fn bytes_to_f64<N: Numerics>(
    bytes: &[u8],
    dtype: Dtype,
    shape: &[usize],
    name: &str,
    num: &N,
) -> (r: Result<Matrix<N::Double>>)
    requires
        countable(dtype, shape@),
    ensures
        reads_double(num, bytes@, dtype, shape@, name@, r),
{
    let size: usize = match check_matrix(bytes.len(), dtype, shape, name) {
        Ok(size) => size,
        Err(error) => {
            return Err(error);
        },
    };
    let count: usize = bytes.len() / size;
    let mut values: Vec<N::Double> = Vec::new();
    for i in 0..count
        invariant
            size == 2 || size == 4,
            size == stored_size(dtype),
            count == bytes@.len() / size as nat,
            values@.len() == i,
            double_values(num, dtype, bytes@, values@),
    {
        assert((i + 1) * size <= bytes@.len()) by (nonlinear_arith)
            requires
                i < count,
                count == bytes@.len() / size as nat,
                size == 2 || size == 4,
        ;
        let bits: u32 = read_bits(bytes, size, i);
        values.push(num.double(dtype, bits));
    }
    proof {
        let n = shape@[0] * shape@[1];
        assert(n * size / (size as int) == n) by (nonlinear_arith)
            requires
                size > 0,
        ;
    }
    match Matrix::from_values(shape[0], shape[1], values) {
        Some(matrix) => Ok(matrix),
        None => Err(
            SurgeryError::ShapeMismatch {
                name: name.to_owned(),
                expected: slice_to_vec(shape),
                got: slice_to_vec(shape),
            },
        ),
    }
}

/// Whether bytes are those of the element that stands for a number in single precision.
pub open spec fn stores_single<N: Numerics>(
    num: &N,
    dtype: Dtype,
    value: N::Single,
    bytes: Seq<u8>,
) -> bool {
    exists|bits: u32| #[trigger]
        call_ensures(N::single_bits, (num, dtype, &value), bits) && bytes == element_bytes(
            bits,
            stored_size(dtype),
        )
}

/// Whether bytes are those of the elements that stand for numbers in single precision.
pub open spec fn stores_all<N: Numerics>(
    num: &N,
    dtype: Dtype,
    values: Seq<N::Single>,
    bytes: Seq<u8>,
) -> bool {
    &&& bytes.len() == values.len() * stored_size(dtype)
    &&& forall|i: int|
        0 <= i < values.len() ==> stores_single(
            num,
            dtype,
            values[i],
            #[trigger] piece(bytes, stored_size(dtype), i),
        )
}

/// Whether bytes are those of the element that stands for a number in double precision.
pub open spec fn stores_double<N: Numerics>(
    num: &N,
    dtype: Dtype,
    value: N::Double,
    bytes: Seq<u8>,
) -> bool {
    exists|bits: u32| #[trigger]
        call_ensures(N::double_bits, (num, dtype, &value), bits) && bytes == element_bytes(
            bits,
            stored_size(dtype),
        )
}

/// What was appended to a row of elements left the elements before in their places.
pub(crate) proof fn lemma_pieces_kept(before: Seq<u8>, more: Seq<u8>, size: nat, count: int)
    requires
        size > 0,
        count >= 0,
        before.len() == count * size,
    ensures
        forall|i: int| 0 <= i < count ==> #[trigger] piece(before + more, size, i) == piece(
            before,
            size,
            i,
        ),
        more.len() == size ==> piece(before + more, size, count) == more,
        more.len() == size ==> (before + more).len() == (count + 1) * size,
{
    assert((count + 1) * size == count * size + size) by (nonlinear_arith);
    assert forall|i: int| 0 <= i < count implies #[trigger] piece(before + more, size, i) == piece(
        before,
        size,
        i,
    ) by {
        lemma_place_within(i, count, size as int, size as int);
        assert(piece(before + more, size, i) =~= piece(before, size, i));
    }
    if more.len() == size {
        assert(piece(before + more, size, count) =~= more);
    }
}

/// Converts a matrix in single precision back to raw bytes, downcasting to the storage dtype.
pub fn f32_to_bytes<N: Numerics>(array: &Matrix<N::Single>, dtype: Dtype, num: &N) -> (r: Result<
    Vec<u8>,
>)
    ensures
        match r {
            Ok(bytes) => mergeable(dtype) && stores_all(num, dtype, array@.values, bytes@),
            Err(error) => !mergeable(dtype) && error@ == unsupported("output"@, dtype),
        },
{
    let size: usize = match merge_size(dtype, "output") {
        Ok(size) => size,
        Err(error) => {
            return Err(error);
        },
    };
    let values = array.values();
    let mut bytes: Vec<u8> = Vec::new();
    assert(0 * size == 0) by (nonlinear_arith);
    for i in 0..values.len()
        invariant
            values@ == array@.values,
            size == 2 || size == 4,
            size == stored_size(dtype),
            bytes@.len() == i * size,
            forall|k: int|
                0 <= k < i ==> stores_single(
                    num,
                    dtype,
                    array@.values[k],
                    #[trigger] piece(bytes@, size as nat, k),
                ),
    {
        let bits: u32 = num.single_bits(dtype, &values[i]);
        proof {
            lemma_pieces_kept(
                bytes@,
                element_bytes(bits, size as nat),
                size as nat,
                i as int,
            );
        }
        push_bits(&mut bytes, bits, size);
    }
    Ok(bytes)
}

/// Converts a matrix in double precision to raw bytes, downcasting to the storage dtype.
pub fn f64_to_bytes<N: Numerics>(array: &Matrix<N::Double>, dtype: Dtype, num: &N) -> (r: Result<
    Vec<u8>,
>)
    ensures
        match r {
            Ok(bytes) => mergeable(dtype) && bytes@.len() == array@.values.len() * stored_size(
                dtype,
            ) && forall|i: int|
                0 <= i < array@.values.len() ==> stores_double(
                    num,
                    dtype,
                    array@.values[i],
                    #[trigger] piece(bytes@, stored_size(dtype), i),
                ),
            Err(error) => !mergeable(dtype) && error@ == unsupported("output"@, dtype),
        },
{
    let size: usize = match merge_size(dtype, "output") {
        Ok(size) => size,
        Err(error) => {
            return Err(error);
        },
    };
    let values = array.values();
    let mut bytes: Vec<u8> = Vec::new();
    assert(0 * size == 0) by (nonlinear_arith);
    for i in 0..values.len()
        invariant
            values@ == array@.values,
            size == 2 || size == 4,
            size == stored_size(dtype),
            bytes@.len() == i * size,
            forall|k: int|
                0 <= k < i ==> stores_double(
                    num,
                    dtype,
                    array@.values[k],
                    #[trigger] piece(bytes@, size as nat, k),
                ),
    {
        let bits: u32 = num.double_bits(dtype, &values[i]);
        proof {
            lemma_pieces_kept(
                bytes@,
                element_bytes(bits, size as nat),
                size as nat,
                i as int,
            );
        }
        push_bits(&mut bytes, bits, size);
    }
    Ok(bytes)
}

/// Whether the number in single precision that an element is read as stands for the bits that it
/// was read from.
pub open spec fn lossless<N: Numerics>(num: &N, dtype: Dtype, bits: u32) -> bool {
    forall|value: N::Single, back: u32| #[trigger]
        call_ensures(N::single, (num, dtype, bits), value) && #[trigger] call_ensures(
            N::single_bits,
            (num, dtype, &value),
            back,
        ) ==> element_bytes(back, stored_size(dtype)) == element_bytes(bits, stored_size(dtype))
}

/// Bytes whose elements are the same are the same.
pub(crate) proof fn lemma_same_pieces(x: Seq<u8>, y: Seq<u8>, size: nat, count: int)
    requires
        size == 2 || size == 4,
        x.len() == count * size,
        y.len() == count * size,
        forall|i: int| 0 <= i < count ==> #[trigger] piece(x, size, i) == piece(y, size, i),
    ensures
        x == y,
{
    assert forall|k: int| 0 <= k < x.len() implies x[k] == y[k] by {
        let i = k / size as int;
        assert(0 <= i < count && i * size <= k < (i + 1) * size) by (nonlinear_arith)
            requires
                0 <= k < count * size,
                i == k / size as int,
                size == 2 || size == 4,
        ;
        lemma_place_within(i, count, size as int, size as int);
        assert(piece(x, size, i) == piece(y, size, i));
        assert(x[k] == piece(x, size, i)[k - i * size]);
        assert(y[k] == piece(y, size, i)[k - i * size]);
    }
    assert(x =~= y);
}

/// Bytes that were read as numbers in single precision and written again are the same bytes, if
/// each of their numbers stands for the bits that it was read from.
pub proof fn law_conversion_round_trip<N: Numerics>(
    num: &N,
    dtype: Dtype,
    bytes: Seq<u8>,
    values: Seq<N::Single>,
    out: Seq<u8>,
)
    requires
        mergeable(dtype),
        bytes.len() == values.len() * stored_size(dtype),
        forall|i: int|
            0 <= i < values.len() ==> lossless(
                num,
                dtype,
                #[trigger] bits_at(bytes, stored_size(dtype), i),
            ),
        single_values(num, dtype, bytes, values),
        stores_all(num, dtype, values, out),
    ensures
        out == bytes,
{
    let size = stored_size(dtype);
    assert forall|i: int| 0 <= i < values.len() implies #[trigger] piece(out, size, i) == piece(
        bytes,
        size,
        i,
    ) by {
        lemma_place_within(i, values.len() as int, size as int, size as int);
        let part = piece(bytes, size, i);
        assert(stores_single(num, dtype, values[i], piece(out, size, i)));
        assert(bits_at(part, size, 0) == bits_at(bytes, size, i));
        law_element_bytes_of_bits(part, size);
        assert(lossless(num, dtype, bits_at(bytes, size, i)));
    }
    lemma_same_pieces(out, bytes, size, values.len() as int);
}

/// The bits of an element of two bytes or four, cut to the bytes that it has.
pub open spec fn cut(bits: u32, size: nat) -> u32 {
    if size == 2 {
        (bits % 0x1_0000) as u32
    } else {
        bits
    }
}

/// Whether the element that stands for a number in single precision is read as that number.
pub open spec fn representable<N: Numerics>(num: &N, dtype: Dtype, value: N::Single) -> bool {
    forall|bits: u32, back: N::Single| #[trigger]
        call_ensures(N::single_bits, (num, dtype, &value), bits) && #[trigger] call_ensures(
            N::single,
            (num, dtype, cut(bits, stored_size(dtype))),
            back,
        ) ==> back == value
}

/// Numbers in single precision that were written and read again are the same numbers, if the
/// element type holds them exactly.
pub proof fn law_numbers_come_back<N: Numerics>(
    num: &N,
    dtype: Dtype,
    rows: usize,
    cols: usize,
    values: Seq<N::Single>,
    bytes: Seq<u8>,
    name: Seq<char>,
    r: Result<Matrix<N::Single>>,
)
    requires
        mergeable(dtype),
        values.len() == rows * cols,
        forall|i: int| 0 <= i < values.len() ==> representable(num, dtype, #[trigger] values[i]),
        stores_all(num, dtype, values, bytes),
        reads_single(num, bytes, dtype, seq![rows, cols], name, r),
    ensures
        r matches Ok(matrix) && matrix@ == (Grid { rows: rows as nat, cols: cols as nat, values }),
{
    let size = stored_size(dtype);
    let shape = seq![rows, cols];
    assert(bytes.len() == shape[0] * shape[1] * size);
    let read = r->Ok_0@.values;
    assert forall|i: int| 0 <= i < values.len() implies read[i] == values[i] by {
        lemma_place_within(i, values.len() as int, size as int, size as int);
        let part = piece(bytes, size, i);
        assert(stores_single(num, dtype, values[i], part));
        let bits = choose|bits: u32| #[trigger]
            call_ensures(N::single_bits, (num, dtype, &values[i]), bits) && part == element_bytes(
                bits,
                size,
            );
        law_bits_of_element_bytes(bits, size);
        assert(bits_at(part, size, 0) == bits_at(bytes, size, i));
        assert(bits_at(bytes, size, i) == cut(bits, size));
        assert(call_ensures(N::single, (num, dtype, bits_at(bytes, size, i)), read[i]));
        assert(representable(num, dtype, values[i]));
    }
    assert(read =~= values);
}

/// Whether an element is read in double precision as what it is read as in single precision,
/// widened.
pub open spec fn widens<N: Numerics>(num: &N, dtype: Dtype, bits: u32) -> bool {
    forall|single: N::Single, double: N::Double, wide: N::Double| #[trigger]
        call_ensures(N::single, (num, dtype, bits), single) && #[trigger] call_ensures(
            N::double,
            (num, dtype, bits),
            double,
        ) && #[trigger] call_ensures(N::widened, (num, &single), wide) ==> double == wide
}

/// Bytes are read in double precision if and only if they are read in single precision, and fail
/// for the same reason. The matrices have the same dimensions, and each number in double precision
/// is the one in single precision, widened, if the element is one of which that holds.
pub proof fn law_double_precision_widens_single<N: Numerics>(
    num: &N,
    bytes: Seq<u8>,
    dtype: Dtype,
    shape: Seq<usize>,
    name: Seq<char>,
    narrow: Result<Matrix<N::Single>>,
    wide: Result<Matrix<N::Double>>,
)
    requires
        reads_single(num, bytes, dtype, shape, name, narrow),
        reads_double(num, bytes, dtype, shape, name, wide),
    ensures
        match (narrow, wide) {
            (Ok(x), Ok(y)) => {
                &&& x@.rows == y@.rows
                &&& x@.cols == y@.cols
                &&& x@.values.len() == y@.values.len()
                &&& forall|i: int, value: N::Double|
                    0 <= i < x@.values.len() && widens(
                        num,
                        dtype,
                        bits_at(bytes, stored_size(dtype), i),
                    ) && #[trigger] call_ensures(N::widened, (num, &x@.values[i]), value)
                        ==> y@.values[i] == value
            },
            (Err(first), Err(second)) => first@ == second@,
            _ => false,
        },
{
    if narrow is Ok && wide is Ok {
        let x = narrow->Ok_0@.values;
        let y = wide->Ok_0@.values;
        assert forall|i: int, value: N::Double|
            0 <= i < x.len() && widens(num, dtype, bits_at(bytes, stored_size(dtype), i))
                && #[trigger] call_ensures(N::widened, (num, &x[i]), value) implies y[i]
            == value by {
            let bits = bits_at(bytes, stored_size(dtype), i);
            assert(call_ensures(N::single, (num, dtype, bits), x[i]));
            assert(call_ensures(N::double, (num, dtype, bits), y[i]));
        }
    }
}

} // verus!
