use half::{bf16, f16};
use ndarray::Array2;
use safetensors::tensor::{serialize, SafeTensors, TensorView};
use safetensors_surgery::config::{default_bias, AdapterConfig, BiasMode};
use safetensors_surgery::io::{merge_adapter, merge_and_write, BaseModel, MergeOutcome};
use safetensors_surgery::mapped::{HeaderRow, MappedSafetensors, RawHeader};
use safetensors_surgery::merge::bytes_to_f32;
use safetensors_surgery::numerics::{Matrix, Numerics};
use safetensors_surgery::shard::{
    resolve_base_model, write_output_index, BaseModelSource, PathProbe, ShardIndex, ShardStep,
    ShardedMerge,
};
use safetensors_surgery::sink::Sink;
use safetensors_surgery::{
    dry_run_info, Dtype, IoError, IoErrorKind, MergeStats, Result, SurgeryError,
};
use serde_json::Value;
use std::collections::HashMap;

/// Floating-point arithmetic.
struct Real;

impl Numerics for Real {
    type Single = f32;
    type Double = f64;

    fn single(&self, dtype: Dtype, bits: u32) -> f32 {
        match dtype {
            Dtype::F16 => f16::from_bits(bits as u16).to_f32(),
            Dtype::BF16 => bf16::from_bits(bits as u16).to_f32(),
            _ => f32::from_bits(bits),
        }
    }

    fn double(&self, dtype: Dtype, bits: u32) -> f64 {
        match dtype {
            Dtype::F16 => f16::from_bits(bits as u16).to_f64(),
            Dtype::BF16 => bf16::from_bits(bits as u16).to_f64(),
            _ => f32::from_bits(bits) as f64,
        }
    }

    fn single_bits(&self, dtype: Dtype, value: &f32) -> u32 {
        match dtype {
            Dtype::F16 => f16::from_f32(*value).to_bits() as u32,
            Dtype::BF16 => bf16::from_f32(*value).to_bits() as u32,
            _ => value.to_bits(),
        }
    }

    fn double_bits(&self, dtype: Dtype, value: &f64) -> u32 {
        match dtype {
            Dtype::F16 => f16::from_f64(*value).to_bits() as u32,
            Dtype::BF16 => bf16::from_f64(*value).to_bits() as u32,
            _ => (*value as f32).to_bits(),
        }
    }

    fn widened(&self, value: &f32) -> f64 {
        *value as f64
    }

    fn sum(&self, left: &f32, right: &f32) -> f32 {
        left + right
    }

    fn double_sum(&self, left: &f64, right: &f64) -> f64 {
        left + right
    }

    fn quotient(&self, dividend: &f32, divisor: u32) -> f32 {
        dividend / divisor as f32
    }

    fn product(&self, left: &Matrix<f64>, right: &Matrix<f64>) -> Matrix<f64> {
        let a = Array2::from_shape_vec((left.nrows(), left.ncols()), left.values().clone()).unwrap();
        let b =
            Array2::from_shape_vec((right.nrows(), right.ncols()), right.values().clone()).unwrap();
        let c = a.dot(&b);
        let (rows, cols) = c.dim();
        Matrix::from_values(rows, cols, c.iter().copied().collect()).unwrap()
    }

    fn scaled(&self, value: &f64, scaling: &f64) -> f64 {
        value * scaling
    }
}

/// Keeps what is written and reported, up to a number of bytes.
struct Memory {
    bytes: Vec<u8>,
    reports: Vec<(usize, usize)>,
    written_at_reports: Vec<usize>,
    warnings: Vec<String>,
    limit: usize,
}

impl Sink for Memory {
    fn write(mut self, bytes: &[u8]) -> (Self, Result<()>) {
        if self.bytes.len() + bytes.len() > self.limit {
            let error = SurgeryError::Io(IoError {
                kind: IoErrorKind::Other,
                message: "disk full".to_string(),
            });
            return (self, Err(error));
        }
        self.bytes.extend_from_slice(bytes);
        (self, Ok(()))
    }

    fn progress(mut self, current: usize, total: usize) -> Self {
        self.reports.push((current, total));
        self.written_at_reports.push(self.bytes.len());
        self
    }

    fn warn(mut self, text: &str) -> Self {
        self.warnings.push(text.to_string());
        self
    }
}

fn memory() -> Memory {
    Memory {
        bytes: vec![],
        reports: vec![],
        written_at_reports: vec![],
        warnings: vec![],
        limit: usize::MAX,
    }
}

/// Encodes numbers as elements.
fn encode(values: &[f32], dtype: safetensors::Dtype) -> Vec<u8> {
    match dtype {
        safetensors::Dtype::F16 => values
            .iter()
            .flat_map(|v| f16::from_f32(*v).to_le_bytes())
            .collect(),
        safetensors::Dtype::BF16 => values
            .iter()
            .flat_map(|v| bf16::from_f32(*v).to_le_bytes())
            .collect(),
        safetensors::Dtype::F32 => values.iter().flat_map(|v| v.to_le_bytes()).collect(),
        _ => panic!("unsupported dtype in test helper"),
    }
}

/// The bytes of a safetensors file with an explicit dtype per tensor.
fn typed_file_with(
    tensors: &[(&str, &[f32], Vec<usize>, safetensors::Dtype)],
    notes: &Option<HashMap<String, String>>,
) -> Vec<u8> {
    let data: Vec<Vec<u8>> = tensors
        .iter()
        .map(|(_, values, _, dtype)| encode(values, *dtype))
        .collect();
    let views: Vec<(&str, TensorView)> = tensors
        .iter()
        .zip(data.iter())
        .map(|((name, _, shape, dtype), bytes)| {
            (
                *name,
                TensorView::new(*dtype, shape.clone(), bytes).unwrap(),
            )
        })
        .collect();
    serialize(views, notes).unwrap()
}

fn typed_file(tensors: &[(&str, &[f32], Vec<usize>, safetensors::Dtype)]) -> Vec<u8> {
    typed_file_with(tensors, &None)
}

/// The bytes of a safetensors file of 32-bit numbers.
fn f32_file(tensors: &[(&str, &[f32], Vec<usize>)]) -> Vec<u8> {
    let typed: Vec<(&str, &[f32], Vec<usize>, safetensors::Dtype)> = tensors
        .iter()
        .map(|(name, values, shape)| (*name, *values, shape.clone(), safetensors::Dtype::F32))
        .collect();
    typed_file(&typed)
}

/// Reads a tensor, converting any supported dtype to numbers.
fn read_as_f32(file: &[u8], name: &str) -> Vec<f32> {
    let tensors = SafeTensors::deserialize(file).unwrap();
    let view = tensors.tensor(name).unwrap();
    match view.dtype() {
        safetensors::Dtype::F32 => view
            .data()
            .chunks_exact(4)
            .map(|c| f32::from_le_bytes([c[0], c[1], c[2], c[3]]))
            .collect(),
        safetensors::Dtype::F16 => view
            .data()
            .chunks_exact(2)
            .map(|c| f16::from_le_bytes([c[0], c[1]]).to_f32())
            .collect(),
        safetensors::Dtype::BF16 => view
            .data()
            .chunks_exact(2)
            .map(|c| bf16::from_le_bytes([c[0], c[1]]).to_f32())
            .collect(),
        _ => panic!("unsupported dtype"),
    }
}

fn texts(value: &Value) -> Vec<String> {
    value
        .as_array()
        .unwrap()
        .iter()
        .map(|text| text.as_str().unwrap().to_string())
        .collect()
}

/// Reads a configuration and validates it.
fn config(json: &str) -> AdapterConfig<f32> {
    let value: Value = serde_json::from_str(json).unwrap();
    let bias = match value.get("bias").and_then(|bias| bias.as_str()) {
        Some("lora_only") => BiasMode::LoraOnly,
        Some("all") => BiasMode::All,
        _ => default_bias(),
    };
    let modules_to_save = match value.get("modules_to_save") {
        Some(Value::Array(_)) => Some(texts(&value["modules_to_save"])),
        _ => None,
    };
    AdapterConfig::from_fields(
        value["r"].as_u64().unwrap() as u32,
        value["lora_alpha"].as_f64().unwrap() as f32,
        texts(&value["target_modules"]),
        value
            .get("fan_in_fan_out")
            .and_then(|flag| flag.as_bool())
            .unwrap_or(false),
        bias,
        modules_to_save,
        value["peft_type"].as_str().unwrap(),
    )
    .unwrap()
}

const RANK_ONE: &str = r#"{
    "r": 1,
    "lora_alpha": 1,
    "target_modules": ["q_proj"],
    "fan_in_fan_out": false,
    "bias": "none",
    "peft_type": "LORA"
}"#;

const Q_PROJ: &str = "model.layers.0.self_attn.q_proj.weight";
const V_PROJ: &str = "model.layers.0.self_attn.v_proj.weight";
const EMBED: &str = "model.embed_tokens.weight";
const Q_LORA_A: &str = "base_model.model.model.layers.0.self_attn.q_proj.lora_A.weight";
const Q_LORA_B: &str = "base_model.model.model.layers.0.self_attn.q_proj.lora_B.weight";
const V_LORA_A: &str = "base_model.model.model.layers.0.self_attn.v_proj.lora_A.weight";
const V_LORA_B: &str = "base_model.model.model.layers.0.self_attn.v_proj.lora_B.weight";

/// What a merge leaves.
struct Merged {
    sink: Memory,
    stats: MergeStats,
}

/// Merges a base model of one file.
fn merge_single(base: &[u8], adapter: &[u8], config: &AdapterConfig<f32>) -> Merged {
    let (sink, outcome) = merge_adapter(
        BaseModel::SingleFile(base),
        adapter,
        config,
        false,
        &Real,
        memory(),
    );
    match outcome {
        Ok(MergeOutcome::Merged(stats)) => Merged { sink, stats },
        Ok(MergeOutcome::Sharded(_)) => panic!("expected a single file"),
        Err(error) => panic!("merge failed: {}", error.message()),
    }
}

fn close(got: &[f32], want: &[f32], tolerance: f32) {
    assert_eq!(got.len(), want.len());
    for (i, (got, want)) in got.iter().zip(want.iter()).enumerate() {
        assert!(
            (got - want).abs() < tolerance,
            "[{i}]: got {got}, expected {want}"
        );
    }
}

#[test]
fn end_to_end_merge() {
    let base = typed_file(&[
        (
            Q_PROJ,
            &[1.0, 0.0, 0.0, 1.0],
            vec![2, 2],
            safetensors::Dtype::F16,
        ),
        (
            EMBED,
            &[0.1, 0.2, 0.3, 0.4, 0.5, 0.6],
            vec![3, 2],
            safetensors::Dtype::F16,
        ),
    ]);
    let adapter = typed_file(&[
        (Q_LORA_A, &[1.0, 1.0], vec![1, 2], safetensors::Dtype::F16),
        (Q_LORA_B, &[1.0, 1.0], vec![2, 1], safetensors::Dtype::F16),
    ]);
    let (sink, outcome) =
        merge_and_write(&base, &adapter, &config(RANK_ONE), false, &Real, memory());
    let stats = outcome.unwrap();

    assert_eq!(stats.tensors_merged, 1);
    assert_eq!(stats.tensors_copied, 1);
    assert_eq!(stats.tensors_replaced, 0);

    let output = MappedSafetensors::open(&sink.bytes).unwrap_or_else(|_| panic!("output"));
    assert_eq!(output.len(), 2);

    let embed_info = output.tensor_info(EMBED).unwrap();
    assert_eq!(embed_info.shape, vec![3, 2]);

    let q_proj_info = output.tensor_info(Q_PROJ).unwrap();
    assert_eq!(q_proj_info.shape, vec![2, 2]);
    let q_proj_data = output.tensor_data(Q_PROJ).unwrap();
    let q_proj_f32 = bytes_to_f32(
        q_proj_data,
        q_proj_info.dtype,
        &q_proj_info.shape,
        "q_proj",
        &Real,
    )
    .unwrap();

    // base [[1,0],[0,1]] + 1.0 * B@A [[1,1],[1,1]] = [[2,1],[1,2]]
    assert!((q_proj_f32.values()[0] - 2.0).abs() < 0.01);
    assert!((q_proj_f32.values()[1] - 1.0).abs() < 0.01);
    assert!((q_proj_f32.values()[2] - 1.0).abs() < 0.01);
    assert!((q_proj_f32.values()[3] - 2.0).abs() < 0.01);
}

/// Merges a sharded model whose files are in memory; gives the files that were written, the
/// reports and the statistics.
fn merge_shards(
    files: &HashMap<&str, Vec<u8>>,
    index: &ShardIndex,
    adapter: &[u8],
    config: &AdapterConfig<f32>,
) -> (HashMap<String, Vec<u8>>, Vec<(usize, usize)>, MergeStats) {
    let adapter_file = MappedSafetensors::open(adapter).unwrap_or_else(|_| panic!("adapter"));
    let mut written: HashMap<String, Vec<u8>> = HashMap::new();
    let (mut sink, outcome) = merge_adapter(
        BaseModel::Sharded(index),
        adapter,
        config,
        false,
        &Real,
        memory(),
    );
    let mut merge = match outcome {
        Ok(MergeOutcome::Sharded(merge)) => merge,
        _ => panic!("expected a sharded merge"),
    };
    loop {
        let step = match merge.next_step() {
            ShardStep::Survey(file) => (0, file.to_string()),
            ShardStep::MapNames => (1, String::new()),
            ShardStep::Write(file) => (2, file.to_string()),
            ShardStep::Finish => break,
        };
        if step.0 == 1 {
            let (told, mapped) = merge.map_names(&adapter_file, config, sink);
            sink = told;
            merge = mapped.unwrap_or_else(|error| panic!("{}", error.message()));
            continue;
        }
        let bytes = &files[step.1.as_str()];
        let shard = MappedSafetensors::open(bytes).unwrap_or_else(|_| panic!("shard"));
        if step.0 == 0 {
            merge = merge.survey(&shard);
        } else {
            let (after, next) = merge.write(&shard, &adapter_file, config, false, &Real, sink);
            merge = next.unwrap_or_else(|error| panic!("{}", error.message()));
            written.insert(step.1, after.bytes);
            sink = Memory {
                bytes: vec![],
                reports: after.reports,
                written_at_reports: vec![],
                warnings: vec![],
                limit: usize::MAX,
            };
        }
    }
    let (sink, stats) = merge.finish(sink);
    (written, sink.reports, stats)
}

fn index_of(pairs: &[(&str, &str)]) -> ShardIndex {
    ShardIndex::from_weight_map(
        pairs
            .iter()
            .map(|(name, file)| (name.to_string(), file.to_string()))
            .collect(),
    )
    .unwrap()
}

const SHARD_1: &str = "model-00001-of-00002.safetensors";
const SHARD_2: &str = "model-00002-of-00002.safetensors";

#[test]
fn sharded_merge() {
    let mut files: HashMap<&str, Vec<u8>> = HashMap::new();
    files.insert(
        SHARD_1,
        typed_file(&[(
            Q_PROJ,
            &[1.0, 0.0, 0.0, 1.0],
            vec![2, 2],
            safetensors::Dtype::F16,
        )]),
    );
    files.insert(
        SHARD_2,
        typed_file(&[(
            EMBED,
            &[0.1, 0.2, 0.3, 0.4, 0.5, 0.6],
            vec![3, 2],
            safetensors::Dtype::F16,
        )]),
    );
    let index = index_of(&[(Q_PROJ, SHARD_1), (EMBED, SHARD_2)]);
    let adapter = typed_file(&[
        (Q_LORA_A, &[1.0, 1.0], vec![1, 2], safetensors::Dtype::F16),
        (Q_LORA_B, &[1.0, 1.0], vec![2, 1], safetensors::Dtype::F16),
    ]);
    let (written, reports, stats) = merge_shards(&files, &index, &adapter, &config(RANK_ONE));

    assert_eq!(stats.tensors_merged, 1);
    assert_eq!(stats.tensors_copied, 1);
    assert_eq!(reports, vec![(0, 2), (1, 2), (2, 2)]);

    let shard1 = MappedSafetensors::open(&written[SHARD_1]).unwrap_or_else(|_| panic!("shard 1"));
    assert_eq!(shard1.len(), 1);
    let q_data = shard1.tensor_data(Q_PROJ).unwrap();
    let q_info = shard1.tensor_info(Q_PROJ).unwrap();
    let q_f32 = bytes_to_f32(q_data, q_info.dtype, &q_info.shape, "q_proj", &Real).unwrap();
    assert!((q_f32.values()[0] - 2.0).abs() < 0.01);
    assert!((q_f32.values()[3] - 2.0).abs() < 0.01);

    let shard2 = MappedSafetensors::open(&written[SHARD_2]).unwrap_or_else(|_| panic!("shard 2"));
    assert_eq!(shard2.len(), 1);
    assert!(shard2.tensor_info(EMBED).is_ok());

    let text = write_output_index(&index);
    let value: Value = serde_json::from_str(&text).unwrap();
    let map = value["weight_map"].as_object().unwrap();
    let out_index = ShardIndex::from_weight_map(
        map.iter()
            .map(|(name, file)| (name.clone(), file.as_str().unwrap().to_string()))
            .collect(),
    )
    .unwrap();
    assert_eq!(out_index.len(), 2);
    assert_eq!(out_index.file_of(Q_PROJ), Some(SHARD_1));
}

#[test]
fn resolve_single_file() {
    let probe = PathProbe {
        is_file: true,
        is_dir: false,
        has_model: false,
        has_index: false,
    };
    assert_eq!(
        resolve_base_model("model.safetensors", &probe).unwrap(),
        BaseModelSource::SingleFile
    );
}

#[test]
fn resolve_directory_single_file() {
    let probe = PathProbe {
        is_file: false,
        is_dir: true,
        has_model: true,
        has_index: false,
    };
    assert_eq!(
        resolve_base_model("dir", &probe).unwrap(),
        BaseModelSource::DirectoryFile
    );
}

#[test]
fn a_single_file_comes_before_an_index() {
    let probe = PathProbe {
        is_file: false,
        is_dir: true,
        has_model: true,
        has_index: true,
    };
    assert_eq!(
        resolve_base_model("dir", &probe).unwrap(),
        BaseModelSource::DirectoryFile
    );
}

#[test]
fn resolve_directory_sharded() {
    let probe = PathProbe {
        is_file: false,
        is_dir: true,
        has_model: false,
        has_index: true,
    };
    assert_eq!(
        resolve_base_model("dir", &probe).unwrap(),
        BaseModelSource::Sharded
    );
    let index = index_of(&[("a", "shard-00001.safetensors")]);
    assert_eq!(index.shard_filenames(), vec!["shard-00001.safetensors"]);
}

#[test]
fn resolve_empty_directory_errors() {
    let probe = PathProbe {
        is_file: false,
        is_dir: true,
        has_model: false,
        has_index: false,
    };
    let error = resolve_base_model("some/dir", &probe).unwrap_err();
    assert_eq!(
        error.message(),
        "I/O error: directory 'some/dir' contains neither model.safetensors nor \
         model.safetensors.index.json"
    );
}

#[test]
fn a_path_without_anything_does_not_exist() {
    let probe = PathProbe {
        is_file: false,
        is_dir: false,
        has_model: false,
        has_index: false,
    };
    let error = resolve_base_model("nowhere", &probe).unwrap_err();
    assert_eq!(
        error.message(),
        "I/O error: base model path 'nowhere' does not exist"
    );
    match error {
        SurgeryError::Io(error) => assert_eq!(error.kind, IoErrorKind::NotFound),
        _ => panic!("expected an I/O error"),
    }
}

#[test]
fn merge_two_4x4_lora_targets() {
    let q_base: [f32; 16] = [
        1.0, 0.0, 0.0, 0.0, 0.0, 1.0, 0.0, 0.0, 0.0, 0.0, 1.0, 0.0, 0.0, 0.0, 0.0, 1.0,
    ];
    let v_base: [f32; 16] = [
        2.0, 0.0, 0.0, 0.0, 0.0, 2.0, 0.0, 0.0, 0.0, 0.0, 2.0, 0.0, 0.0, 0.0, 0.0, 2.0,
    ];
    let base = f32_file(&[
        (Q_PROJ, &q_base, vec![4, 4]),
        (V_PROJ, &v_base, vec![4, 4]),
    ]);
    let adapter = f32_file(&[
        (
            Q_LORA_A,
            &[1.0, 0.0, 0.0, 0.0, 0.0, 1.0, 0.0, 0.0],
            vec![2, 4],
        ),
        (
            Q_LORA_B,
            &[1.0, 0.0, 0.0, 1.0, 0.0, 0.0, 0.0, 0.0],
            vec![4, 2],
        ),
        (
            V_LORA_A,
            &[0.0, 0.0, 1.0, 0.0, 0.0, 0.0, 0.0, 1.0],
            vec![2, 4],
        ),
        (
            V_LORA_B,
            &[0.0, 0.0, 0.0, 0.0, 1.0, 0.0, 0.0, 1.0],
            vec![4, 2],
        ),
    ]);
    let settings = config(
        r#"{
        "r": 2,
        "lora_alpha": 4,
        "target_modules": ["q_proj", "v_proj"],
        "fan_in_fan_out": false,
        "bias": "none",
        "peft_type": "LORA"
    }"#,
    );
    let merged = merge_single(&base, &adapter, &settings);

    assert_eq!(merged.stats.tensors_merged, 2);
    assert_eq!(merged.stats.tensors_copied, 0);
    assert_eq!(merged.stats.tensors_replaced, 0);
    assert_eq!(merged.stats.biases_merged, 0);

    let output = SafeTensors::deserialize(&merged.sink.bytes).unwrap();
    assert_eq!(output.len(), 2);

    let q_expected: [f32; 16] = [
        3.0, 0.0, 0.0, 0.0, 0.0, 3.0, 0.0, 0.0, 0.0, 0.0, 1.0, 0.0, 0.0, 0.0, 0.0, 1.0,
    ];
    close(&read_as_f32(&merged.sink.bytes, Q_PROJ), &q_expected, 1e-6);
    let v_expected: [f32; 16] = [
        2.0, 0.0, 0.0, 0.0, 0.0, 2.0, 0.0, 0.0, 0.0, 0.0, 4.0, 0.0, 0.0, 0.0, 0.0, 4.0,
    ];
    close(&read_as_f32(&merged.sink.bytes, V_PROJ), &v_expected, 1e-6);

    let q_view = output.tensor(Q_PROJ).unwrap();
    assert_eq!(q_view.shape(), &[4, 4]);
    assert_eq!(q_view.dtype(), safetensors::Dtype::F32);
    let v_view = output.tensor(V_PROJ).unwrap();
    assert_eq!(v_view.shape(), &[4, 4]);
    assert_eq!(v_view.dtype(), safetensors::Dtype::F32);
}

#[test]
fn merge_with_passthrough_tensors() {
    let q_base: [f32; 16] = [
        1.0, 0.0, 0.0, 0.0, 0.0, 1.0, 0.0, 0.0, 0.0, 0.0, 1.0, 0.0, 0.0, 0.0, 0.0, 1.0,
    ];
    let embed: [f32; 6] = [0.1, 0.2, 0.3, 0.4, 0.5, 0.6];
    let base = f32_file(&[(Q_PROJ, &q_base, vec![4, 4]), (EMBED, &embed, vec![2, 3])]);
    let adapter = f32_file(&[
        (Q_LORA_A, &[1.0, 0.0, 0.0, 0.0], vec![1, 4]),
        (Q_LORA_B, &[1.0, 0.0, 0.0, 0.0], vec![4, 1]),
    ]);
    let merged = merge_single(&base, &adapter, &config(RANK_ONE));

    assert_eq!(merged.stats.tensors_copied, 1);
    assert_eq!(merged.stats.tensors_merged, 1);

    let base_tensors = SafeTensors::deserialize(&base).unwrap();
    let output_tensors = SafeTensors::deserialize(&merged.sink.bytes).unwrap();
    assert_eq!(
        base_tensors.tensor(EMBED).unwrap().data(),
        output_tensors.tensor(EMBED).unwrap().data()
    );
}

#[test]
fn merge_with_bias_lora_only() {
    let bias = "model.layers.0.self_attn.q_proj.bias";
    let base = f32_file(&[
        (Q_PROJ, &[1.0, 0.0, 0.0, 1.0], vec![2, 2]),
        (bias, &[1.0, 2.0, 3.0, 4.0], vec![1, 4]),
    ]);
    let adapter = f32_file(&[
        (Q_LORA_A, &[1.0, 0.0], vec![1, 2]),
        (Q_LORA_B, &[1.0, 0.0], vec![2, 1]),
        (
            "base_model.model.model.layers.0.self_attn.q_proj.bias",
            &[0.5, 0.5, 0.5, 0.5],
            vec![1, 4],
        ),
    ]);
    let settings = config(
        r#"{
        "r": 1,
        "lora_alpha": 1,
        "target_modules": ["q_proj"],
        "fan_in_fan_out": false,
        "bias": "lora_only",
        "peft_type": "LORA"
    }"#,
    );
    let merged = merge_single(&base, &adapter, &settings);

    assert_eq!(merged.stats.tensors_merged, 1);
    assert_eq!(merged.stats.biases_merged, 1);
    close(
        &read_as_f32(&merged.sink.bytes, bias),
        &[1.5, 2.5, 3.5, 4.5],
        1e-6,
    );
}

#[test]
fn merge_with_modules_to_save() {
    let base = f32_file(&[
        (Q_PROJ, &[1.0, 0.0, 0.0, 1.0], vec![2, 2]),
        ("lm_head.weight", &[1.0, 1.0, 1.0, 1.0], vec![2, 2]),
    ]);
    let adapter = f32_file(&[
        (Q_LORA_A, &[1.0, 0.0], vec![1, 2]),
        (Q_LORA_B, &[1.0, 0.0], vec![2, 1]),
        (
            "base_model.model.lm_head.weight",
            &[9.0, 9.0, 9.0, 9.0],
            vec![2, 2],
        ),
    ]);
    let settings = config(
        r#"{
        "r": 1,
        "lora_alpha": 1,
        "target_modules": ["q_proj"],
        "modules_to_save": ["lm_head"],
        "fan_in_fan_out": false,
        "bias": "none",
        "peft_type": "LORA"
    }"#,
    );
    let merged = merge_single(&base, &adapter, &settings);

    assert_eq!(merged.stats.tensors_merged, 1);
    assert_eq!(merged.stats.tensors_replaced, 1);
    close(
        &read_as_f32(&merged.sink.bytes, "lm_head.weight"),
        &[9.0, 9.0, 9.0, 9.0],
        1e-6,
    );
}

/// Merges a rank-one adapter into an identity, all of one dtype.
fn merge_identity(dtype: safetensors::Dtype) -> Merged {
    let base = typed_file(&[(Q_PROJ, &[1.0, 0.0, 0.0, 1.0], vec![2, 2], dtype)]);
    let adapter = typed_file(&[
        (Q_LORA_A, &[1.0, 1.0], vec![1, 2], dtype),
        (Q_LORA_B, &[1.0, 1.0], vec![2, 1], dtype),
    ]);
    merge_single(&base, &adapter, &config(RANK_ONE))
}

#[test]
fn merge_bf16_preserves_dtype() {
    let merged = merge_identity(safetensors::Dtype::BF16);
    assert_eq!(merged.stats.tensors_merged, 1);
    let output = SafeTensors::deserialize(&merged.sink.bytes).unwrap();
    assert_eq!(
        output.tensor(Q_PROJ).unwrap().dtype(),
        safetensors::Dtype::BF16
    );
    close(
        &read_as_f32(&merged.sink.bytes, Q_PROJ),
        &[2.0, 1.0, 1.0, 2.0],
        0.1,
    );
}

#[test]
fn merge_f16_preserves_dtype() {
    let merged = merge_identity(safetensors::Dtype::F16);
    assert_eq!(merged.stats.tensors_merged, 1);
    let output = SafeTensors::deserialize(&merged.sink.bytes).unwrap();
    assert_eq!(
        output.tensor(Q_PROJ).unwrap().dtype(),
        safetensors::Dtype::F16
    );
    close(
        &read_as_f32(&merged.sink.bytes, Q_PROJ),
        &[2.0, 1.0, 1.0, 2.0],
        0.01,
    );
}

#[test]
fn merge_with_fan_in_fan_out() {
    // lora_A shape [2, 1]: [[1], [2]]  -> A^T = [[1, 2]]
    // lora_B shape [2, 1]: [[3], [4]]
    // B @ A^T = [[3],[4]] @ [[1,2]] = [[3,6],[4,8]]
    // merged = [[1,0],[0,1]] + 1.0 * [[3,6],[4,8]] = [[4,6],[4,9]]
    let base = f32_file(&[(Q_PROJ, &[1.0, 0.0, 0.0, 1.0], vec![2, 2])]);
    let adapter = f32_file(&[
        (Q_LORA_A, &[1.0, 2.0], vec![2, 1]),
        (Q_LORA_B, &[3.0, 4.0], vec![2, 1]),
    ]);
    let settings = config(
        r#"{
        "r": 1,
        "lora_alpha": 1,
        "target_modules": ["q_proj"],
        "fan_in_fan_out": true,
        "bias": "none",
        "peft_type": "LORA"
    }"#,
    );
    let merged = merge_single(&base, &adapter, &settings);
    assert_eq!(merged.stats.tensors_merged, 1);
    close(
        &read_as_f32(&merged.sink.bytes, Q_PROJ),
        &[4.0, 6.0, 4.0, 9.0],
        1e-6,
    );
}

#[test]
fn dry_run_reports_correct_counts() {
    let identity: [f32; 4] = [1.0, 0.0, 0.0, 1.0];
    let embed: [f32; 6] = [0.1, 0.2, 0.3, 0.4, 0.5, 0.6];
    let base = f32_file(&[
        (Q_PROJ, &identity, vec![2, 2]),
        (V_PROJ, &identity, vec![2, 2]),
        (EMBED, &embed, vec![2, 3]),
    ]);
    let adapter = f32_file(&[
        (Q_LORA_A, &[1.0, 0.0], vec![1, 2]),
        (Q_LORA_B, &[1.0, 0.0], vec![2, 1]),
        (V_LORA_A, &[1.0, 0.0], vec![1, 2]),
        (V_LORA_B, &[1.0, 0.0], vec![2, 1]),
    ]);
    let settings = config(
        r#"{
        "r": 1,
        "lora_alpha": 1,
        "target_modules": ["q_proj", "v_proj"],
        "fan_in_fan_out": false,
        "bias": "none",
        "peft_type": "LORA"
    }"#,
    );
    let info = dry_run_info(&[&base], false, &adapter, &settings, memory()).1.unwrap();

    assert_eq!(info.base_tensor_count, 3);
    assert_eq!(info.lora_target_count, 2);
    assert_eq!(info.passthrough_count, 1);
    assert_eq!(info.replacement_count, 0);
    assert_eq!(info.bias_merge_count, 0);
    assert!(!info.is_sharded);
    assert_eq!(info.shard_count, 1);
    assert_eq!(info.estimated_output_bytes, 16 + 16 + 24);

    // The merge does what the look at it said.
    let stats = merge_single(&base, &adapter, &settings).stats;
    assert_eq!(stats.tensors_merged, info.lora_target_count);
    assert_eq!(stats.tensors_copied, info.passthrough_count);
    assert_eq!(stats.tensors_replaced, info.replacement_count);
    assert_eq!(stats.biases_merged, info.bias_merge_count);
}

#[test]
fn merge_with_progress_callback() {
    let base = f32_file(&[
        (Q_PROJ, &[1.0, 0.0, 0.0, 1.0], vec![2, 2]),
        (EMBED, &[0.1, 0.2, 0.3, 0.4], vec![2, 2]),
    ]);
    let adapter = f32_file(&[
        (Q_LORA_A, &[1.0, 0.0], vec![1, 2]),
        (Q_LORA_B, &[1.0, 0.0], vec![2, 1]),
    ]);
    let merged = merge_single(&base, &adapter, &config(RANK_ONE));

    // Progress fires once per tensor (2) + once for the final call = 3
    let count = merged.sink.reports.len();
    assert_eq!(count, 3, "expected 3 progress callbacks, got {count}");
    assert_eq!(merged.sink.reports, vec![(0, 2), (1, 2), (2, 2)]);
}

#[test]
fn progress_is_reported_before_each_tensor() {
    let base = f32_file(&[
        (Q_PROJ, &[1.0, 0.0, 0.0, 1.0], vec![2, 2]),
        (EMBED, &[0.1, 0.2, 0.3, 0.4, 0.5, 0.6], vec![3, 2]),
    ]);
    let adapter = f32_file(&[
        (Q_LORA_A, &[1.0, 0.0], vec![1, 2]),
        (Q_LORA_B, &[1.0, 0.0], vec![2, 1]),
    ]);
    let merged = merge_single(&base, &adapter, &config(RANK_ONE));

    // The embedding comes first in the file: 24 bytes, and then 16 of the projection.
    let end = merged.sink.bytes.len();
    assert_eq!(merged.sink.written_at_reports, vec![end - 40, end - 16, end]);
}

#[test]
fn merge_sharded_model() {
    let mut files: HashMap<&str, Vec<u8>> = HashMap::new();
    files.insert(
        SHARD_1,
        f32_file(&[(Q_PROJ, &[1.0, 0.0, 0.0, 1.0], vec![2, 2])]),
    );
    let embed: [f32; 6] = [0.1, 0.2, 0.3, 0.4, 0.5, 0.6];
    files.insert(SHARD_2, f32_file(&[(EMBED, &embed, vec![2, 3])]));
    let index = index_of(&[(Q_PROJ, SHARD_1), (EMBED, SHARD_2)]);
    let adapter = f32_file(&[
        (Q_LORA_A, &[1.0, 1.0], vec![1, 2]),
        (Q_LORA_B, &[1.0, 1.0], vec![2, 1]),
    ]);
    let (written, _, stats) = merge_shards(&files, &index, &adapter, &config(RANK_ONE));

    assert_eq!(stats.tensors_merged, 1);
    assert_eq!(stats.tensors_copied, 1);
    assert!(written.contains_key(SHARD_1));
    assert!(written.contains_key(SHARD_2));
    assert_eq!(
        write_output_index(&index),
        "{\n  \"metadata\": {},\n  \"weight_map\": {\n    \"model.embed_tokens.weight\": \
         \"model-00002-of-00002.safetensors\",\n    \
         \"model.layers.0.self_attn.q_proj.weight\": \
         \"model-00001-of-00002.safetensors\"\n  }\n}"
    );

    // B @ A = [[1],[1]] @ [[1,1]] = [[1,1],[1,1]]
    // merged = identity + 1.0 * [[1,1],[1,1]] = [[2,1],[1,2]]
    close(
        &read_as_f32(&written[SHARD_1], Q_PROJ),
        &[2.0, 1.0, 1.0, 2.0],
        1e-6,
    );

    let base_tensors = SafeTensors::deserialize(&files[SHARD_2]).unwrap();
    let output_tensors = SafeTensors::deserialize(&written[SHARD_2]).unwrap();
    assert_eq!(
        base_tensors.tensor(EMBED).unwrap().data(),
        output_tensors.tensor(EMBED).unwrap().data()
    );

    // A look at the sharded merge counts the same.
    let info = dry_run_info(
        &[&files[SHARD_1], &files[SHARD_2]],
        true,
        &adapter,
        &config(RANK_ONE),
        memory(),
    )
    .1
    .unwrap();
    assert!(info.is_sharded);
    assert_eq!(info.shard_count, 2);
    assert_eq!(info.base_tensor_count, 2);
    assert_eq!(info.lora_target_count, 1);
    assert_eq!(info.passthrough_count, 1);
    assert_eq!(info.estimated_output_bytes, 16 + 24);
}

#[test]
fn merge_errors_when_no_targets_match() {
    let base = f32_file(&[(Q_PROJ, &[1.0, 0.0, 0.0, 1.0], vec![2, 2])]);
    let adapter = f32_file(&[
        (Q_LORA_A, &[1.0, 0.0], vec![1, 2]),
        (Q_LORA_B, &[1.0, 0.0], vec![2, 1]),
    ]);
    let settings = config(
        r#"{
        "r": 1,
        "lora_alpha": 1,
        "target_modules": ["nonexistent_module"],
        "fan_in_fan_out": false,
        "bias": "none",
        "peft_type": "LORA"
    }"#,
    );
    let (sink, result) = merge_and_write(&base, &adapter, &settings, false, &Real, memory());
    assert!(sink.bytes.is_empty() && sink.reports.is_empty());
    let err_msg = result.err().unwrap().message();
    assert!(
        err_msg.contains("nonexistent_module"),
        "error should mention the module name, got: {err_msg}"
    );
    let error = dry_run_info(&[&base], false, &adapter, &settings, memory()).1.unwrap_err();
    assert_eq!(
        error.message(),
        "adapter targets module 'nonexistent_module' but no matching tensor found in adapter file"
    );
}

#[test]
fn the_output_keeps_the_notes_of_the_base() {
    let mut notes: HashMap<String, String> = HashMap::new();
    notes.insert("format".to_string(), "pt".to_string());
    notes.insert("a \"quoted\"\n\u{1}name".to_string(), "\\ \u{e9}\u{1f600}".to_string());
    let base = typed_file_with(
        &[(
            Q_PROJ,
            &[1.0, 0.0, 0.0, 1.0],
            vec![2, 2],
            safetensors::Dtype::F32,
        )],
        &Some(notes.clone()),
    );
    let adapter = f32_file(&[
        (Q_LORA_A, &[1.0, 0.0], vec![1, 2]),
        (Q_LORA_B, &[1.0, 0.0], vec![2, 1]),
    ]);
    let merged = merge_single(&base, &adapter, &config(RANK_ONE));
    let (_, metadata) = SafeTensors::read_metadata(&merged.sink.bytes).unwrap();
    assert_eq!(metadata.metadata(), &Some(notes));
}

/// A file with this header and these data.
fn raw_file(header: &str, data: &[u8]) -> Vec<u8> {
    let mut bytes: Vec<u8> = (header.len() as u64).to_le_bytes().to_vec();
    bytes.extend_from_slice(header.as_bytes());
    bytes.extend_from_slice(data);
    bytes
}

#[test]
fn the_header_is_the_expected_text() {
    let data = [
        5.0f32.to_le_bytes(),
        1.0f32.to_le_bytes(),
        2.0f32.to_le_bytes(),
    ]
    .concat();
    let base = raw_file(
        "{ \"b\\\"\\\\\\u0007\\u00e9.weight\" : {\"dtype\":\"F32\",\"shape\":[1,1],\
         \"data_offsets\":[0,4]}, \"__metadata__\":{\"z\":\"\\/\",\"k\":\"v\"},\
         \"a.weight\":{\"shape\":[2,1],\"dtype\":\"F32\",\"data_offsets\":[4,12]}}  ",
        &data,
    );
    let settings = config(
        r#"{"r": 1, "lora_alpha": 1, "target_modules": [], "peft_type": "LORA"}"#,
    );
    let merged = merge_single(&base, &f32_file(&[]), &settings);
    let expected = raw_file(
        "{\"__metadata__\":{\"k\":\"v\",\"z\":\"/\"},\
         \"a.weight\":{\"data_offsets\":[4,12],\"dtype\":\"F32\",\"shape\":[2,1]},\
         \"b\\\"\\\\\\u0007\u{e9}.weight\":{\"data_offsets\":[0,4],\"dtype\":\"F32\",\
         \"shape\":[1,1]}}",
        &data,
    );
    assert_eq!(merged.sink.bytes, expected);

    // What was written is read back.
    let file = MappedSafetensors::open(&merged.sink.bytes).unwrap_or_else(|_| panic!("output"));
    assert_eq!(
        file.tensor_data("a.weight").unwrap(),
        [1.0f32.to_le_bytes(), 2.0f32.to_le_bytes()].concat()
    );
    assert_eq!(
        file.tensor_data("b\"\\\u{7}\u{e9}.weight").unwrap(),
        5.0f32.to_le_bytes()
    );
    let again = merge_single(&merged.sink.bytes, &f32_file(&[]), &settings);
    assert_eq!(again.sink.bytes, expected);
}

#[test]
fn a_file_takes_its_tensors_from_its_header() {
    let row = |name: &str, dtype: &str, shape: Vec<usize>, start: usize, end: usize| HeaderRow {
        name: name.to_string(),
        dtype: dtype.to_string(),
        shape,
        start,
        end,
    };
    let bytes = raw_file("{}", &[1, 2, 3, 4, 5, 6]);
    let raw = RawHeader {
        length: 2,
        rows: vec![
            row("late", "BF16", vec![2], 2, 6),
            row("early", "I8", vec![2, 1], 0, 2),
        ],
        notes: Some(vec![("k".to_string(), "v".to_string())]),
    };
    let file = MappedSafetensors::from_header(&bytes, raw);
    assert_eq!(file.len(), 2);
    assert_eq!(file.name(0), "early");
    assert_eq!(file.name(1), "late");
    assert_eq!(file.data(0), &[1, 2]);
    assert_eq!(file.data(1), &[3, 4, 5, 6]);
    assert_eq!(file.info(0).dtype, Dtype::I8);
    assert_eq!(file.info(1).dtype, Dtype::BF16);
    assert_eq!((file.info(1).data_start, file.info(1).data_end), (12, 16));
}

#[test]
fn sharding_changes_nothing_in_the_tensors() {
    let tensors: Vec<(&str, Vec<f32>, Vec<usize>)> = vec![
        (Q_PROJ, vec![1.0, 2.0, 3.0, 4.0], vec![2, 2]),
        (V_PROJ, vec![5.0, 6.0, 7.0, 8.0], vec![2, 2]),
        (EMBED, vec![9.0, 10.0], vec![1, 2]),
    ];
    let adapter = f32_file(&[
        (Q_LORA_A, &[1.0, 2.0], vec![1, 2]),
        (Q_LORA_B, &[3.0, 4.0], vec![2, 1]),
        ("base_model.model.model.embed_tokens.weight", &[0.0, 1.0], vec![1, 2]),
    ]);
    let settings = config(
        r#"{"r": 1, "lora_alpha": 2, "target_modules": ["q_proj"],
            "modules_to_save": ["embed_tokens"], "peft_type": "LORA"}"#,
    );
    let whole: Vec<(&str, &[f32], Vec<usize>)> = tensors
        .iter()
        .map(|(name, values, shape)| (*name, &values[..], shape.clone()))
        .collect();
    let single = merge_single(&f32_file(&whole), &adapter, &settings);

    let mut files: HashMap<&str, Vec<u8>> = HashMap::new();
    files.insert(SHARD_1, f32_file(&whole[..1]));
    files.insert(SHARD_2, f32_file(&whole[1..]));
    let index = index_of(&[(Q_PROJ, SHARD_1), (V_PROJ, SHARD_2), (EMBED, SHARD_2)]);
    let (written, reports, stats) = merge_shards(&files, &index, &adapter, &settings);

    assert_eq!(stats, single.stats);
    assert_eq!(reports, single.sink.reports);
    assert_eq!(
        stats.tensors_copied + stats.tensors_merged + stats.tensors_replaced + stats.biases_merged,
        3
    );
    for (name, file) in [(Q_PROJ, SHARD_1), (V_PROJ, SHARD_2), (EMBED, SHARD_2)] {
        assert_eq!(
            read_as_f32(&written[file], name),
            read_as_f32(&single.sink.bytes, name)
        );
    }
    // 1 + 2 * 3, 2 + 2 * 6, 3 + 2 * 4, 4 + 2 * 8
    assert_eq!(
        read_as_f32(&single.sink.bytes, Q_PROJ),
        vec![7.0, 14.0, 11.0, 20.0]
    );
    assert_eq!(read_as_f32(&single.sink.bytes, EMBED), vec![0.0, 1.0]);
}

#[test]
fn tensors_are_listed_in_the_order_of_their_data() {
    let header = "{\"x\":{\"dtype\":\"F32\",\"shape\":[1],\"data_offsets\":[4,8]},\
                  \"y\":{\"dtype\":\"F16\",\"shape\":[2],\"data_offsets\":[0,4]},\
                  \"z\":{\"dtype\":\"U8\",\"shape\":[0,3],\"data_offsets\":[8,8]}}";
    let bytes = raw_file(header, &[1, 2, 3, 4, 5, 6, 7, 8]);
    let file = MappedSafetensors::open(&bytes).unwrap_or_else(|_| panic!("file"));
    assert_eq!(file.len(), 3);
    assert_eq!(file.name(0), "y");
    assert_eq!(file.name(1), "x");
    assert_eq!(file.name(2), "z");
    assert_eq!(file.data(0), &[1, 2, 3, 4]);
    assert_eq!(file.data(1), &[5, 6, 7, 8]);
    assert_eq!(file.info(0).dtype, Dtype::F16);
    assert_eq!(file.info(2).shape, vec![0, 3]);
    assert_eq!(file.data_size(), 8);
    assert_eq!(
        file.tensor_data("w").unwrap_err().message(),
        "tensor 'w' not found in file"
    );
    assert_eq!(
        file.tensor_info("").unwrap_err().message(),
        "tensor '' not found in file"
    );
}

#[test]
fn files_that_cannot_be_read_are_refused() {
    let say = |bytes: &[u8]| match MappedSafetensors::open(bytes) {
        Ok(_) => panic!("expected an error"),
        Err(error) => error.message(),
    };
    assert_eq!(
        say(&[1, 2, 3]),
        "safetensors error: failed to parse safetensors header: HeaderTooSmall"
    );
    assert_eq!(
        say(&[255, 255, 255, 255, 255, 255, 255, 255]),
        "safetensors error: failed to parse safetensors header: HeaderTooLarge"
    );
    assert_eq!(
        say(&[9, 0, 0, 0, 0, 0, 0, 0]),
        "safetensors error: failed to parse safetensors header: InvalidHeaderLength"
    );
    assert_eq!(
        say(&[2, 0, 0, 0, 0, 0, 0, 0, b'{', b'x']),
        "safetensors error: failed to parse safetensors header: InvalidHeaderDeserialization"
    );
    // One byte too many behind the data.
    assert_eq!(
        say(&[2, 0, 0, 0, 0, 0, 0, 0, b'{', b'}', 0]),
        "safetensors error: failed to parse safetensors header: MetadataIncompleteBuffer"
    );
}

#[test]
fn offsets_that_cannot_be_counted_are_refused() {
    let header = "{\"x\":{\"dtype\":\"U8\",\"shape\":[18446744073709551615],\
                  \"data_offsets\":[0,18446744073709551615]}}";
    let bytes = raw_file(header, &[]);
    let error = match MappedSafetensors::open(&bytes) {
        Ok(_) => panic!("expected an error"),
        Err(error) => error,
    };
    assert_eq!(
        error.message(),
        "safetensors error: failed to parse safetensors header: MetadataIncompleteBuffer"
    );
    // A large number that is no offset does no harm.
    let header = "{\"x\":{\"dtype\":\"U8\",\"shape\":[18446744073709551615,0],\
                  \"data_offsets\":[0,0]}}";
    let bytes = raw_file(header, &[]);
    assert!(MappedSafetensors::open(&bytes).is_ok());
}

#[test]
fn a_base_of_another_type_is_refused() {
    let header = "{\"x\":{\"dtype\":\"I64\",\"shape\":[1],\"data_offsets\":[0,8]}}";
    let base = raw_file(header, &[0; 8]);
    let settings = config(
        r#"{"r": 1, "lora_alpha": 1, "target_modules": [], "peft_type": "LORA"}"#,
    );
    let (sink, outcome) =
        merge_and_write(&base, &f32_file(&[]), &settings, false, &Real, memory());
    assert!(sink.bytes.is_empty() && sink.reports.is_empty());
    assert_eq!(
        outcome.unwrap_err().message(),
        "unsupported dtype 'I64' for tensor 'unknown'; only F16, BF16, and F32 are supported"
    );
}

#[test]
fn a_full_disk_stops_the_merge() {
    let base = f32_file(&[("x", &[1.0], vec![1])]);
    let settings = config(
        r#"{"r": 1, "lora_alpha": 1, "target_modules": [], "peft_type": "LORA"}"#,
    );
    let sink = Memory {
        bytes: vec![],
        reports: vec![],
        written_at_reports: vec![],
        warnings: vec![],
        limit: 4,
    };
    let (sink, outcome) = merge_and_write(&base, &f32_file(&[]), &settings, true, &Real, sink);
    assert_eq!(outcome.unwrap_err().message(), "I/O error: disk full");
    assert!(sink.bytes.is_empty() && sink.reports.is_empty());
}

#[test]
fn a_bias_of_one_dimension_is_a_row() {
    let base = f32_file(&[("l.bias", &[1.0, 2.0], vec![2])]);
    let adapter = f32_file(&[("base_model.model.l.bias", &[0.5, 0.25], vec![1, 2])]);
    let settings = config(
        r#"{"r": 1, "lora_alpha": 1, "target_modules": [], "bias": "all", "peft_type": "LORA"}"#,
    );
    let merged = merge_single(&base, &adapter, &settings);
    assert_eq!(merged.stats.biases_merged, 1);
    assert_eq!(read_as_f32(&merged.sink.bytes, "l.bias"), vec![1.5, 2.25]);

    // Without a bias mode the bias is left as it is.
    let settings = config(
        r#"{"r": 1, "lora_alpha": 1, "target_modules": [], "peft_type": "LORA"}"#,
    );
    let merged = merge_single(&base, &adapter, &settings);
    assert_eq!(merged.stats.biases_merged, 0);
    assert_eq!(merged.stats.tensors_copied, 1);
    assert_eq!(read_as_f32(&merged.sink.bytes, "l.bias"), vec![1.0, 2.0]);
}

#[test]
fn replacement_comes_before_the_merge_of_factors() {
    let base = f32_file(&[("m.x.weight", &[1.0], vec![1, 1])]);
    let adapter = f32_file(&[
        ("base_model.model.m.x.weight", &[7.0], vec![1, 1]),
        ("base_model.model.m.x.lora_A.weight", &[1.0], vec![1, 1]),
        ("base_model.model.m.x.lora_B.weight", &[1.0], vec![1, 1]),
    ]);
    let settings = config(
        r#"{"r": 1, "lora_alpha": 1, "target_modules": ["x"], "modules_to_save": ["m"],
            "peft_type": "LORA"}"#,
    );
    let merged = merge_single(&base, &adapter, &settings);
    assert_eq!(merged.stats.tensors_replaced, 1);
    assert_eq!(merged.stats.tensors_merged, 0);
    assert_eq!(read_as_f32(&merged.sink.bytes, "m.x.weight"), vec![7.0]);
}

#[test]
fn the_scaling_is_alpha_over_rank() {
    let base = f32_file(&[("x.weight", &[1.0], vec![1, 1])]);
    let adapter = f32_file(&[
        ("base_model.model.x.lora_A.weight", &[2.0, 0.0], vec![2, 1]),
        ("base_model.model.x.lora_B.weight", &[3.0, 0.0], vec![1, 2]),
    ]);
    let settings = config(
        r#"{"r": 2, "lora_alpha": 3, "target_modules": ["x"], "peft_type": "LORA"}"#,
    );
    let merged = merge_single(&base, &adapter, &settings);
    // 1 + 3 / 2 * (3 * 2) = 10
    assert_eq!(read_as_f32(&merged.sink.bytes, "x.weight"), vec![10.0]);
    assert!(merged.sink.warnings.is_empty());
}

#[test]
fn factors_without_a_partner_are_warned_of() {
    let base = f32_file(&[("x.weight", &[1.0], vec![1, 1])]);
    let adapter = f32_file(&[("base_model.model.x.lora_A.weight", &[2.0], vec![1, 1])]);
    let settings = config(
        r#"{"r": 1, "lora_alpha": 1, "target_modules": [], "peft_type": "LORA"}"#,
    );
    let merged = merge_single(&base, &adapter, &settings);
    assert_eq!(
        merged.sink.warnings,
        vec!["warning: adapter has lora_A for 'x.weight' but no matching lora_B (skipped)"]
    );
    assert_eq!(merged.stats.tensors_copied, 1);
}

#[test]
fn an_empty_index_is_refused() {
    let error = ShardIndex::from_weight_map(vec![]).unwrap_err();
    assert_eq!(
        error.message(),
        "sharding error: weight_map is empty in index.json"
    );
}

#[test]
fn shards_are_named_once_and_in_order() {
    let index = index_of(&[("a", "s2"), ("b", "s1"), ("c", "s2"), ("a", "s3")]);
    assert_eq!(index.len(), 3);
    assert_eq!(index.file_of("a"), Some("s3"));
    assert_eq!(index.file_of("d"), None);
    assert_eq!(index.shard_filenames(), vec!["s1", "s2", "s3"]);
    let merge = ShardedMerge::begin(&index);
    assert_eq!(merge.total(), 0);
    assert_eq!(merge.done(), 0);
    match merge.next_step() {
        ShardStep::Survey(file) => assert_eq!(file, "s1"),
        _ => panic!("expected a survey"),
    }
}

#[test]
fn a_sharded_merge_without_targets_fails_when_the_names_are_mapped() {
    let index = index_of(&[("x.weight", "s1")]);
    let shard_bytes = f32_file(&[("x.weight", &[1.0], vec![1, 1])]);
    let shard = MappedSafetensors::open(&shard_bytes).unwrap_or_else(|_| panic!("shard"));
    let adapter_bytes = f32_file(&[]);
    let adapter = MappedSafetensors::open(&adapter_bytes).unwrap_or_else(|_| panic!("adapter"));
    let merge = ShardedMerge::begin(&index).survey(&shard);
    assert!(matches!(merge.next_step(), ShardStep::MapNames));
    let (_, outcome) = merge.map_names(&adapter, &config(RANK_ONE), memory());
    assert_eq!(
        outcome.err().unwrap().message(),
        "adapter targets module 'q_proj' but no matching tensor found in adapter file"
    );
}

const SAVED_HEAD: &str = r#"{"r": 1, "lora_alpha": 1, "target_modules": [],
    "modules_to_save": ["head"], "peft_type": "LORA"}"#;

#[test]
fn a_replacement_is_written_in_the_type_of_the_base() {
    let settings = config(SAVED_HEAD);
    for (base_type, adapter_type) in [
        (safetensors::Dtype::F16, safetensors::Dtype::F32),
        (safetensors::Dtype::F32, safetensors::Dtype::BF16),
        (safetensors::Dtype::BF16, safetensors::Dtype::BF16),
    ] {
        let base = typed_file(&[
            ("head.weight", &[1.0, 2.0, 3.0, 4.0], vec![2, 2], base_type),
            ("x", &[9.0], vec![1], base_type),
        ]);
        let adapter = typed_file(&[(
            "base_model.model.head.weight",
            &[0.5, -6.0, 7.0, 0.25],
            vec![2, 2],
            adapter_type,
        )]);
        let merged = merge_single(&base, &adapter, &settings);
        assert_eq!(merged.stats.tensors_replaced, 1);
        let output = SafeTensors::deserialize(&merged.sink.bytes).unwrap();
        let head = output.tensor("head.weight").unwrap();
        assert_eq!(head.dtype(), base_type);
        assert_eq!(head.data(), encode(&[0.5, -6.0, 7.0, 0.25], base_type));
        assert_eq!(output.tensor("x").unwrap().data(), encode(&[9.0], base_type));
    }
}

#[test]
fn a_replacement_of_another_size_is_written_whole() {
    let base = f32_file(&[("head.weight", &[1.0, 2.0, 3.0, 4.0], vec![2, 2])]);
    let values = [1.0, -2.0, 0.5, 4.0, 5.0, 6.0];
    for stored in [safetensors::Dtype::F32, safetensors::Dtype::F16] {
        let adapter = typed_file(&[("base_model.model.head.weight", &values, vec![3, 2], stored)]);
        let merged = merge_single(&base, &adapter, &config(SAVED_HEAD));
        assert_eq!(merged.stats.tensors_replaced, 1);
        let header = u64::from_le_bytes(merged.sink.bytes[..8].try_into().unwrap()) as usize;
        assert_eq!(
            &merged.sink.bytes[8 + header..],
            &encode(&values, safetensors::Dtype::F32)[..]
        );
    }
}

#[test]
fn a_replacement_of_a_type_that_is_not_merged_is_written_as_it_is() {
    let base = f32_file(&[("head.weight", &[1.0, 2.0], vec![2])]);
    let header = "{\"base_model.model.head.weight\":\
                  {\"dtype\":\"I64\",\"shape\":[1],\"data_offsets\":[0,8]}}";
    let data = [1, 2, 3, 4, 5, 6, 7, 8];
    let adapter = raw_file(header, &data);
    let merged = merge_single(&base, &adapter, &config(SAVED_HEAD));
    let end = merged.sink.bytes.len();
    assert_eq!(&merged.sink.bytes[end - 8..], &data[..]);
}

#[test]
fn a_base_that_is_no_matrix_is_named_before_its_factors() {
    let adapter = f32_file(&[
        ("base_model.model.x.lora_A.weight", &[1.0], vec![1]),
        ("base_model.model.x.lora_B.weight", &[1.0], vec![1]),
    ]);
    let settings = config(
        r#"{"r": 1, "lora_alpha": 1, "target_modules": ["x"], "peft_type": "LORA"}"#,
    );
    let say = |shape: Vec<usize>| {
        let base = f32_file(&[("x.weight", &[1.0], shape)]);
        let (sink, outcome) = merge_and_write(&base, &adapter, &settings, false, &Real, memory());
        assert_eq!(sink.reports, vec![(0, 1)]);
        outcome.unwrap_err().message()
    };
    assert_eq!(
        say(vec![1]),
        "shape mismatch for tensor 'x.weight': expected [0, 0], got [1]"
    );
    assert_eq!(
        say(vec![1, 1]),
        "shape mismatch for tensor 'base_model.model.x.lora_A.weight': expected [0, 0], got [1]"
    );
}

#[test]
fn warnings_come_before_a_failure() {
    let base = f32_file(&[("x.weight", &[1.0], vec![1, 1])]);
    let adapter = f32_file(&[("base_model.model.x.lora_A.weight", &[2.0], vec![1, 1])]);
    let expected = vec!["warning: adapter has lora_A for 'x.weight' but no matching lora_B (skipped)"];
    let (sink, outcome) =
        merge_and_write(&base, &adapter, &config(RANK_ONE), false, &Real, memory());
    assert!(outcome.is_err());
    assert_eq!(sink.warnings, expected);
    let (sink, outcome) = dry_run_info(&[&base], false, &adapter, &config(RANK_ONE), memory());
    assert!(outcome.is_err());
    assert_eq!(sink.warnings, expected);
    assert!(sink.bytes.is_empty() && sink.reports.is_empty());

    let index = index_of(&[("x.weight", "s1")]);
    let shard = MappedSafetensors::open(&base).unwrap_or_else(|_| panic!("shard"));
    let file = MappedSafetensors::open(&adapter).unwrap_or_else(|_| panic!("adapter"));
    let merge = ShardedMerge::begin(&index).survey(&shard);
    let (sink, outcome) = merge.map_names(&file, &config(RANK_ONE), memory());
    assert!(outcome.is_err());
    assert_eq!(sink.warnings, expected);
}

#[test]
fn a_file_that_cannot_be_read_leaves_the_sink_alone() {
    let base = f32_file(&[("x", &[1.0], vec![1])]);
    for (first, second) in [(&base[..4], &base[..]), (&base[..], &base[..4])] {
        let (sink, outcome) =
            merge_and_write(first, second, &config(RANK_ONE), false, &Real, memory());
        assert!(outcome.is_err());
        assert!(sink.bytes.is_empty() && sink.reports.is_empty() && sink.warnings.is_empty());
    }
}

#[test]
fn headers_that_are_off_before_they_are_uncountable_are_refused_for_that() {
    let say = |header: &[u8]| {
        let mut bytes = (header.len() as u64).to_le_bytes().to_vec();
        bytes.extend_from_slice(header);
        match MappedSafetensors::open(&bytes) {
            Ok(_) => panic!("expected an error"),
            Err(error) => error.message(),
        }
    };
    let reason = |text: &str| {
        format!("safetensors error: failed to parse safetensors header: {text}")
    };
    // A gap before the tensor.
    assert_eq!(
        say(b"{\"x\":{\"dtype\":\"U8\",\"shape\":[1],\
              \"data_offsets\":[18446744073709551614,18446744073709551615]}}"),
        reason("InvalidOffset(\"x\")")
    );
    // Fewer bytes than the shape asks for.
    assert_eq!(
        say(b"{\"x\":{\"dtype\":\"U8\",\"shape\":[2],\
              \"data_offsets\":[0,18446744073709551615]}}"),
        reason("TensorInvalidInfo")
    );
    // More elements than can be counted.
    assert_eq!(
        say(b"{\"x\":{\"dtype\":\"U8\",\"shape\":[18446744073709551615,2],\
              \"data_offsets\":[0,18446744073709551615]}}"),
        reason("ValidationOverflow")
    );
    // Two tensors in one place.
    let error = say(
        b"{\"x\":{\"dtype\":\"U8\",\"shape\":[18446744073709551615],\
          \"data_offsets\":[0,18446744073709551615]},\
          \"y\":{\"dtype\":\"U8\",\"shape\":[18446744073709551615],\
          \"data_offsets\":[0,18446744073709551615]}}",
    );
    assert!(error.contains("InvalidOffset"), "{error}");
    // No text.
    assert_eq!(
        say(b"{\"x\":{\"dtype\":\"U8\",\"shape\":[18446744073709551615],\"z\":\"\xff\",\
              \"data_offsets\":[0,18446744073709551615]}}"),
        reason("InvalidHeader")
    );
}

#[test]
fn places_are_counted_from_the_start_of_the_file() {
    let header = "{\"x\":{\"dtype\":\"F32\",\"shape\":[1],\"data_offsets\":[4,8]},\
                  \"y\":{\"dtype\":\"F16\",\"shape\":[2],\"data_offsets\":[0,4]}}";
    let bytes = raw_file(header, &[1, 2, 3, 4, 5, 6, 7, 8]);
    let file = MappedSafetensors::open(&bytes).unwrap_or_else(|_| panic!("file"));
    let start = bytes.len() - 8;
    let x = file.tensor_info("x").unwrap();
    assert_eq!((x.data_start, x.data_end), (start + 4, start + 8));
    let y = file.info(0);
    assert_eq!((y.data_start, y.data_end), (start, start + 4));
}
