use half::{bf16, f16};
use ndarray::Array2;
use safetensors_surgery::dtype::{dtype_byte_size, dtype_to_string};
use safetensors_surgery::merge::{
    bytes_to_f32, bytes_to_f64, f32_to_bytes, f64_to_bytes, merge_bias, streaming_lora_merge_write,
};
use safetensors_surgery::numerics::{Matrix, Numerics};
use safetensors_surgery::sink::Sink;
use safetensors_surgery::{Dtype, IoError, IoErrorKind, Result, SurgeryError};

/// Floating-point arithmetic.
struct Real;

impl Numerics for Real {
    type Single = f32;
    type Double = f64;

    fn single(&self, dtype: Dtype, bits: u32) -> f32 {
        match dtype {
            Dtype::F16 => f16::from_bits(bits as u16).to_f32(),
            Dtype::BF16 => bf16::from_bits(bits as u16).to_f32(),
            _ => f32::from_bits(bits),
        }
    }

    fn double(&self, dtype: Dtype, bits: u32) -> f64 {
        match dtype {
            Dtype::F16 => f16::from_bits(bits as u16).to_f64(),
            Dtype::BF16 => bf16::from_bits(bits as u16).to_f64(),
            _ => f32::from_bits(bits) as f64,
        }
    }

    fn single_bits(&self, dtype: Dtype, value: &f32) -> u32 {
        match dtype {
            Dtype::F16 => f16::from_f32(*value).to_bits() as u32,
            Dtype::BF16 => bf16::from_f32(*value).to_bits() as u32,
            _ => value.to_bits(),
        }
    }

    fn double_bits(&self, dtype: Dtype, value: &f64) -> u32 {
        match dtype {
            Dtype::F16 => f16::from_f64(*value).to_bits() as u32,
            Dtype::BF16 => bf16::from_f64(*value).to_bits() as u32,
            _ => (*value as f32).to_bits(),
        }
    }

    fn widened(&self, value: &f32) -> f64 {
        *value as f64
    }

    fn sum(&self, left: &f32, right: &f32) -> f32 {
        left + right
    }

    fn double_sum(&self, left: &f64, right: &f64) -> f64 {
        left + right
    }

    fn quotient(&self, dividend: &f32, divisor: u32) -> f32 {
        dividend / divisor as f32
    }

    fn product(&self, left: &Matrix<f64>, right: &Matrix<f64>) -> Matrix<f64> {
        let a = Array2::from_shape_vec((left.nrows(), left.ncols()), left.values().clone()).unwrap();
        let b =
            Array2::from_shape_vec((right.nrows(), right.ncols()), right.values().clone()).unwrap();
        let c = a.dot(&b);
        let (rows, cols) = c.dim();
        Matrix::from_values(rows, cols, c.iter().copied().collect()).unwrap()
    }

    fn scaled(&self, value: &f64, scaling: &f64) -> f64 {
        value * scaling
    }
}

/// Keeps what is written, up to a limit.
struct Memory {
    writes: Vec<Vec<u8>>,
    limit: usize,
}

impl Sink for Memory {
    fn write(mut self, bytes: &[u8]) -> (Self, Result<()>) {
        if self.writes.len() == self.limit {
            let error = SurgeryError::Io(IoError {
                kind: IoErrorKind::Other,
                message: "full".to_string(),
            });
            return (self, Err(error));
        }
        self.writes.push(bytes.to_vec());
        (self, Ok(()))
    }

    fn progress(self, _current: usize, _total: usize) -> Self {
        panic!("no progress was made on a model");
    }

    fn warn(self, _text: &str) -> Self {
        panic!("nothing was skipped");
    }
}

fn memory() -> Memory {
    Memory {
        writes: vec![],
        limit: usize::MAX,
    }
}

fn matrix<T>(rows: usize, cols: usize, values: Vec<T>) -> Matrix<T> {
    Matrix::from_values(rows, cols, values).unwrap()
}

#[test]
fn roundtrip_f16() {
    let original = matrix(2, 3, vec![1.0f32, 2.0, 3.0, 4.0, 5.0, 6.0]);
    let bytes = f32_to_bytes(&original, Dtype::F16, &Real).unwrap();
    let recovered = bytes_to_f32(&bytes, Dtype::F16, &[2, 3], "test", &Real).unwrap();
    assert_eq!(recovered.values().len(), 6);
    for (a, b) in original.values().iter().zip(recovered.values().iter()) {
        assert!((a - b).abs() < 0.01, "f16 roundtrip: {a} vs {b}");
    }
}

#[test]
fn roundtrip_bf16() {
    let original = matrix(2, 2, vec![1.0f32, -2.0, 0.5, 3.0]);
    let bytes = f32_to_bytes(&original, Dtype::BF16, &Real).unwrap();
    let recovered = bytes_to_f32(&bytes, Dtype::BF16, &[2, 2], "test", &Real).unwrap();
    assert_eq!(recovered.values().len(), 4);
    for (a, b) in original.values().iter().zip(recovered.values().iter()) {
        assert!((a - b).abs() < 0.05, "bf16 roundtrip: {a} vs {b}");
    }
}

#[test]
fn roundtrip_f32() {
    let original = matrix(2, 2, vec![1.0_f32, 2.0, 3.0, 4.0]);
    let bytes = f32_to_bytes(&original, Dtype::F32, &Real).unwrap();
    let recovered = bytes_to_f32(&bytes, Dtype::F32, &[2, 2], "test", &Real).unwrap();
    assert_eq!(original.nrows(), recovered.nrows());
    assert_eq!(original.ncols(), recovered.ncols());
    assert_eq!(original.values(), recovered.values());
}

#[test]
fn merge_bias_basic() {
    let base = matrix(1, 4, vec![1.0f32, 2.0, 3.0, 4.0]);
    let adapter = matrix(1, 4, vec![0.1f32, 0.2, 0.3, 0.4]);
    let result = merge_bias(&base, &adapter, &Real).unwrap();
    assert!((result.values()[0] - 1.1).abs() < 1e-6);
    assert!((result.values()[3] - 4.4).abs() < 1e-6);
}

#[test]
fn unsupported_dtype_errors() {
    let bytes = vec![0u8; 16];
    let err = bytes_to_f32(&bytes, Dtype::I32, &[2, 2], "test_tensor", &Real).unwrap_err();
    assert!(err.message().contains("unsupported dtype"));
}

#[test]
fn bytes_to_f32_wrong_length_errors() {
    // Shape says 2x2 (4 elements = 16 bytes for F32), but only give 8 bytes
    let bytes = vec![0u8; 8];
    let err = bytes_to_f32(&bytes, Dtype::F32, &[2, 2], "test_tensor", &Real).unwrap_err();
    assert!(err.message().contains("shape mismatch"));
}

#[test]
fn bytes_to_f32_1d_shape_errors() {
    let bytes = vec![0u8; 8];
    let err = bytes_to_f32(&bytes, Dtype::F32, &[2], "test_tensor", &Real).unwrap_err();
    assert!(err.message().contains("shape mismatch"));
}

#[test]
fn f64_to_bytes_bf16_roundtrip() {
    let array = matrix(1, 4, vec![1.0_f64, 2.0, -3.0, 0.5]);
    let bytes = f64_to_bytes(&array, Dtype::BF16, &Real).unwrap();
    // Should produce 8 bytes (4 elements * 2 bytes each)
    assert_eq!(bytes.len(), 8);
    // Read back via bytes_to_f32
    let recovered = bytes_to_f32(&bytes, Dtype::BF16, &[1, 4], "test", &Real).unwrap();
    assert!((recovered.values()[0] - 1.0).abs() < 0.05);
    assert!((recovered.values()[1] - 2.0).abs() < 0.05);
    assert!((recovered.values()[2] - (-3.0)).abs() < 0.05);
    assert!((recovered.values()[3] - 0.5).abs() < 0.05);
}

#[test]
fn elements_are_stored_least_significant_byte_first() {
    let one = matrix(1, 1, vec![1.0f32]);
    assert_eq!(
        f32_to_bytes(&one, Dtype::F32, &Real).unwrap(),
        vec![0, 0, 0x80, 0x3f]
    );
    assert_eq!(f32_to_bytes(&one, Dtype::F16, &Real).unwrap(), vec![0, 0x3c]);
    assert_eq!(
        f32_to_bytes(&one, Dtype::BF16, &Real).unwrap(),
        vec![0x80, 0x3f]
    );
    let two = bytes_to_f64(&[0, 0x40], Dtype::F16, &[1, 1], "two", &Real).unwrap();
    assert_eq!(two.values(), &vec![2.0f64]);
    assert_eq!(
        f64_to_bytes(&two, Dtype::F32, &Real).unwrap(),
        vec![0, 0, 0, 0x40]
    );
}

#[test]
fn bytes_survive_the_way_through_single_precision() {
    let bytes: Vec<u8> = vec![0x01, 0x02, 0x33, 0x44, 0x55, 0x3a, 0x00, 0x80];
    for dtype in [Dtype::F16, Dtype::BF16] {
        let values = bytes_to_f32(&bytes, dtype, &[2, 2], "t", &Real).unwrap();
        assert_eq!(f32_to_bytes(&values, dtype, &Real).unwrap(), bytes);
    }
    let values = bytes_to_f32(&bytes, Dtype::F32, &[1, 2], "t", &Real).unwrap();
    assert_eq!(f32_to_bytes(&values, Dtype::F32, &Real).unwrap(), bytes);
}

#[test]
fn conversion_errors_name_the_tensor() {
    let err = bytes_to_f64(&[0; 3], Dtype::F16, &[1, 2], "x", &Real).unwrap_err();
    assert_eq!(
        err.message(),
        "shape mismatch for tensor 'x': expected [4], got [3]"
    );
    let err = bytes_to_f64(&[], Dtype::F32, &[1, 2, 3], "x", &Real).unwrap_err();
    assert_eq!(
        err.message(),
        "shape mismatch for tensor 'x': expected [0, 0], got [1, 2, 3]"
    );
    let err = bytes_to_f64(&[], Dtype::U64, &[0, 0], "x", &Real).unwrap_err();
    assert_eq!(
        err.message(),
        "unsupported dtype 'U64' for tensor 'x'; only F16, BF16, and F32 are supported"
    );
    let err = f32_to_bytes(&matrix(0, 0, vec![]), Dtype::BOOL, &Real).unwrap_err();
    assert_eq!(
        err.message(),
        "unsupported dtype 'BOOL' for tensor 'output'; only F16, BF16, and F32 are supported"
    );
    let err = f64_to_bytes(&matrix(0, 0, vec![]), Dtype::F8_E4M3, &Real).unwrap_err();
    assert_eq!(
        err.message(),
        "unsupported dtype 'F8_E4M3' for tensor 'output'; only F16, BF16, and F32 are supported"
    );
}

#[test]
fn biases_of_other_shapes_are_refused() {
    let base = matrix(1, 2, vec![1.0f32, 2.0]);
    let adapter = matrix(2, 1, vec![1.0f32, 2.0]);
    let err = merge_bias(&base, &adapter, &Real).unwrap_err();
    assert_eq!(
        err.message(),
        "shape mismatch for tensor 'bias': expected [1, 2], got [2, 1]"
    );
}

#[test]
fn only_the_types_that_are_merged_have_an_output_size() {
    assert_eq!(dtype_byte_size(Dtype::F16).unwrap(), 2);
    assert_eq!(dtype_byte_size(Dtype::BF16).unwrap(), 2);
    assert_eq!(dtype_byte_size(Dtype::F32).unwrap(), 4);
    assert_eq!(
        dtype_byte_size(Dtype::F64).unwrap_err().message(),
        "unsupported dtype 'F64' for tensor 'unknown'; only F16, BF16, and F32 are supported"
    );
    assert_eq!(dtype_to_string(Dtype::BF16), "BF16");
    assert_eq!(dtype_to_string(Dtype::F8_E5M2), "F32");
    assert_eq!(dtype_to_string(Dtype::BOOL), "BOOL");
}

fn f32_bytes(values: &[f32]) -> Vec<u8> {
    values.iter().flat_map(|v| v.to_le_bytes()).collect()
}

#[test]
fn a_merge_is_written_row_by_row() {
    let base = f32_bytes(&[1.0, 0.0, 0.0, 1.0]);
    let a = matrix(1, 2, vec![1.0f64, 2.0]);
    let b = matrix(2, 1, vec![3.0f64, 4.0]);
    let (sink, outcome) = streaming_lora_merge_write(
        &base,
        &a,
        &b,
        &0.5f64,
        false,
        &[2, 2],
        Dtype::F32,
        false,
        &Real,
        memory(),
    );
    assert!(outcome.is_ok());
    assert_eq!(
        sink.writes,
        vec![f32_bytes(&[2.5, 3.0]), f32_bytes(&[2.0, 5.0])]
    );
}

#[test]
fn a_merge_that_saves_memory_gives_the_same_bytes() {
    let (rows, cols) = (1030usize, 3usize);
    let values: Vec<f32> = (0..rows * cols).map(|k| k as f32 * 0.25).collect();
    let base = f32_bytes(&values);
    let a = matrix(2, cols, vec![1.0f64, 0.5, -2.0, 0.25, 3.0, 1.5]);
    let b = matrix(rows, 2, (0..rows * 2).map(|k| (k % 17) as f64 - 8.0).collect());
    let at = matrix(
        2,
        rows,
        (0..rows * 2).map(|k| (k % 13) as f64 * 0.5).collect(),
    );
    let bt = matrix(cols, 2, vec![1.0f64, -1.0, 0.5, 2.0, 0.0, 4.0]);
    for (fan, x, y) in [(false, &a, &b), (true, &at, &bt)] {
        let mut outputs: Vec<Vec<u8>> = vec![];
        let mut counts: Vec<usize> = vec![];
        for low_memory in [false, true] {
            let (sink, outcome) = streaming_lora_merge_write(
                &base,
                x,
                y,
                &2.0f64,
                fan,
                &[rows, cols],
                Dtype::F32,
                low_memory,
                &Real,
                memory(),
            );
            assert!(outcome.is_ok());
            counts.push(sink.writes.len());
            outputs.push(sink.writes.concat());
        }
        assert_eq!(counts, vec![1030, 3]);
        assert_eq!(outputs[0], outputs[1]);
        assert_eq!(outputs[0].len(), base.len());
    }
}

#[test]
fn with_fan_in_fan_out_the_change_is_transposed() {
    // B @ A = [[1], [10]] @ [[1, 2, 3]] = [[1, 2, 3], [10, 20, 30]], transposed to 3 by 2.
    let base = f32_bytes(&[0.0; 6]);
    let a = matrix(1, 3, vec![1.0f64, 2.0, 3.0]);
    let b = matrix(2, 1, vec![1.0f64, 10.0]);
    for low_memory in [false, true] {
        let (sink, outcome) = streaming_lora_merge_write(
            &base,
            &a,
            &b,
            &1.0f64,
            true,
            &[3, 2],
            Dtype::F32,
            low_memory,
            &Real,
            memory(),
        );
        assert!(outcome.is_ok());
        assert_eq!(
            sink.writes.concat(),
            f32_bytes(&[1.0, 10.0, 2.0, 20.0, 3.0, 30.0])
        );
    }
}

#[test]
fn factors_that_do_not_fit_are_refused() {
    let base = f32_bytes(&[0.0; 6]);
    let zeros = |rows: usize, cols: usize| matrix(rows, cols, vec![0.0f64; rows * cols]);
    let say = |a: (usize, usize), b: (usize, usize), fan: bool, shape: &[usize], dtype: Dtype| {
        let (sink, outcome) = streaming_lora_merge_write(
            &base,
            &zeros(a.0, a.1),
            &zeros(b.0, b.1),
            &1.0f64,
            fan,
            shape,
            dtype,
            false,
            &Real,
            memory(),
        );
        assert!(sink.writes.is_empty());
        outcome.unwrap_err().message()
    };
    assert_eq!(
        say((1, 3), (3, 1), false, &[2, 3], Dtype::F32),
        "shape mismatch for tensor 'lora_B rows vs base': expected [2], got [3]"
    );
    assert_eq!(
        say((1, 2), (2, 1), false, &[2, 3], Dtype::F32),
        "shape mismatch for tensor 'lora_A cols vs base': expected [3], got [2]"
    );
    assert_eq!(
        say((2, 3), (2, 1), false, &[2, 3], Dtype::F32),
        "shape mismatch for tensor 'LoRA matmul inner dimension': expected [1], got [2]"
    );
    assert_eq!(
        say((1, 3), (2, 1), true, &[2, 3], Dtype::F32),
        "shape mismatch for tensor 'lora_B rows vs base': expected [3], got [2]"
    );
    assert_eq!(
        say((1, 3), (2, 1), false, &[6], Dtype::F32),
        "shape mismatch for tensor 'base tensor': expected [0, 0], got [6]"
    );
    assert_eq!(
        say((1, 3), (2, 1), false, &[2, 3], Dtype::F16),
        "shape mismatch for tensor 'base tensor bytes': expected [12], got [24]"
    );
    assert_eq!(
        say((1, 3), (2, 1), false, &[2, 3], Dtype::I32),
        "unsupported dtype 'I32' for tensor 'output'; only F16, BF16, and F32 are supported"
    );
}

#[test]
fn what_the_sink_says_comes_back() {
    let base = f32_bytes(&[1.0, 2.0]);
    let a = matrix(1, 1, vec![1.0f64]);
    let b = matrix(2, 1, vec![1.0f64, 1.0]);
    let sink = Memory {
        writes: vec![],
        limit: 1,
    };
    let (sink, outcome) = streaming_lora_merge_write(
        &base,
        &a,
        &b,
        &1.0f64,
        false,
        &[2, 1],
        Dtype::F32,
        false,
        &Real,
        sink,
    );
    assert_eq!(outcome.unwrap_err().message(), "I/O error: full");
    assert_eq!(sink.writes, vec![f32_bytes(&[2.0])]);
}

/// Arithmetic whose product has a row too many.
struct Crooked;

impl Numerics for Crooked {
    type Single = f32;
    type Double = f64;

    fn single(&self, _dtype: Dtype, bits: u32) -> f32 {
        f32::from_bits(bits)
    }

    fn double(&self, _dtype: Dtype, bits: u32) -> f64 {
        f32::from_bits(bits) as f64
    }

    fn single_bits(&self, _dtype: Dtype, value: &f32) -> u32 {
        value.to_bits()
    }

    fn double_bits(&self, _dtype: Dtype, value: &f64) -> u32 {
        (*value as f32).to_bits()
    }

    fn widened(&self, value: &f32) -> f64 {
        *value as f64
    }

    fn sum(&self, left: &f32, right: &f32) -> f32 {
        left + right
    }

    fn double_sum(&self, left: &f64, right: &f64) -> f64 {
        left + right
    }

    fn quotient(&self, dividend: &f32, divisor: u32) -> f32 {
        dividend / divisor as f32
    }

    fn product(&self, left: &Matrix<f64>, right: &Matrix<f64>) -> Matrix<f64> {
        let (rows, cols) = (left.nrows() + 1, right.ncols());
        Matrix::from_values(rows, cols, vec![0.0; rows * cols]).unwrap()
    }

    fn scaled(&self, value: &f64, scaling: &f64) -> f64 {
        value * scaling
    }
}

#[test]
fn a_product_of_other_dimensions_is_refused() {
    let base = f32_bytes(&[1.0, 2.0]);
    let a = matrix(1, 1, vec![1.0f64]);
    let b = matrix(2, 1, vec![1.0f64, 1.0]);
    for low_memory in [false, true] {
        let (sink, outcome) = streaming_lora_merge_write(
            &base,
            &a,
            &b,
            &1.0f64,
            false,
            &[2, 1],
            Dtype::F32,
            low_memory,
            &Crooked,
            memory(),
        );
        assert!(sink.writes.is_empty());
        assert_eq!(
            outcome.unwrap_err().message(),
            "shape mismatch for tensor 'LoRA delta': expected [2, 1], got [3, 1]"
        );
    }
}

#[test]
fn base_and_change_are_added_in_double_precision() {
    let two = 2f64;
    let cases: [(f32, f64, f32); 2] = [
        // Rounded on its own, the change would be half a unit in the last place of 1.
        (
            1.0,
            two.powi(-24) + two.powi(-50),
            1.0 + f32::EPSILON,
        ),
        // Rounded on its own, the change would be 1.
        (-1.0, 1.0 + two.powi(-30), two.powi(-30) as f32),
    ];
    for (base, change, expected) in cases {
        for low_memory in [false, true] {
            let (sink, outcome) = streaming_lora_merge_write(
                &base.to_le_bytes(),
                &matrix(1, 1, vec![change]),
                &matrix(1, 1, vec![1.0f64]),
                &1.0f64,
                false,
                &[1, 1],
                Dtype::F32,
                low_memory,
                &Real,
                memory(),
            );
            assert!(outcome.is_ok());
            assert_eq!(sink.writes, vec![f32_bytes(&[expected])]);
        }
    }
}

#[test]
fn a_base_of_a_type_that_is_not_merged_need_not_be_counted() {
    let (sink, outcome) = streaming_lora_merge_write(
        &[],
        &matrix(1, 1, vec![1.0f64]),
        &matrix(1, 1, vec![1.0f64]),
        &1.0f64,
        false,
        &[usize::MAX, usize::MAX],
        Dtype::U8,
        false,
        &Real,
        memory(),
    );
    assert_eq!(
        outcome.unwrap_err().message(),
        "unsupported dtype 'U8' for tensor 'output'; only F16, BF16, and F32 are supported"
    );
    assert!(sink.writes.is_empty());
}

#[test]
fn numbers_that_a_type_holds_come_back() {
    let numbers = matrix(2, 2, vec![1.5f32, -0.0, 65504.0, 0.25]);
    for dtype in [Dtype::F16, Dtype::F32] {
        let bytes = f32_to_bytes(&numbers, dtype, &Real).unwrap();
        let back = bytes_to_f32(&bytes, dtype, &[2, 2], "x", &Real).unwrap();
        assert_eq!(back.values(), numbers.values());
        assert_eq!((back.nrows(), back.ncols()), (2, 2));
    }
}

#[test]
fn double_precision_is_single_precision_widened() {
    let bytes = f32_bytes(&[1.1, -3.5e-12, 7.0e30, 0.0]);
    for (dtype, shape) in [(Dtype::F32, [2, 2]), (Dtype::F16, [4, 2]), (Dtype::BF16, [2, 4])] {
        let narrow = bytes_to_f32(&bytes, dtype, &shape, "x", &Real).unwrap();
        let wide = bytes_to_f64(&bytes, dtype, &shape, "x", &Real).unwrap();
        let widened: Vec<f64> = narrow.values().iter().map(|v| *v as f64).collect();
        assert_eq!(wide.values(), &widened);
    }
    for (dtype, shape) in [(Dtype::F32, vec![4]), (Dtype::F16, vec![2, 2]), (Dtype::I8, vec![4, 4])] {
        assert_eq!(
            bytes_to_f32(&bytes, dtype, &shape, "x", &Real).unwrap_err().message(),
            bytes_to_f64(&bytes, dtype, &shape, "x", &Real).unwrap_err().message()
        );
    }
}
