use safetensors_surgery::config::{default_bias, AdapterConfig, BiasMode};
use safetensors_surgery::numerics::{Matrix, Numerics};
use safetensors_surgery::{Dtype, Result, SurgeryError};
use serde_json::Value;

/// The arithmetic that a configuration needs.
struct Division;

impl Numerics for Division {
    type Single = f32;
    type Double = f64;

    fn single(&self, _dtype: Dtype, bits: u32) -> f32 {
        f32::from_bits(bits)
    }

    fn double(&self, _dtype: Dtype, bits: u32) -> f64 {
        f32::from_bits(bits) as f64
    }

    fn single_bits(&self, _dtype: Dtype, value: &f32) -> u32 {
        value.to_bits()
    }

    fn double_bits(&self, _dtype: Dtype, value: &f64) -> u32 {
        (*value as f32).to_bits()
    }

    fn widened(&self, value: &f32) -> f64 {
        *value as f64
    }

    fn sum(&self, left: &f32, right: &f32) -> f32 {
        left + right
    }

    fn double_sum(&self, left: &f64, right: &f64) -> f64 {
        left + right
    }

    fn quotient(&self, dividend: &f32, divisor: u32) -> f32 {
        dividend / divisor as f32
    }

    fn product(&self, left: &Matrix<f64>, _right: &Matrix<f64>) -> Matrix<f64> {
        left.band(0, left.nrows())
    }

    fn scaled(&self, value: &f64, scaling: &f64) -> f64 {
        value * scaling
    }
}

fn texts(value: &Value) -> Vec<String> {
    value
        .as_array()
        .unwrap()
        .iter()
        .map(|text| text.as_str().unwrap().to_string())
        .collect()
}

/// Reads a configuration and validates it.
fn from_json(json: &str) -> Result<AdapterConfig<f32>> {
    let value: Value = serde_json::from_str(json).unwrap();
    let bias = match value.get("bias").and_then(|bias| bias.as_str()) {
        Some("lora_only") => BiasMode::LoraOnly,
        Some("all") => BiasMode::All,
        _ => default_bias(),
    };
    let modules_to_save = match value.get("modules_to_save") {
        Some(Value::Array(_)) => Some(texts(&value["modules_to_save"])),
        _ => None,
    };
    AdapterConfig::from_fields(
        value["r"].as_u64().unwrap() as u32,
        value["lora_alpha"].as_f64().unwrap() as f32,
        texts(&value["target_modules"]),
        value
            .get("fan_in_fan_out")
            .and_then(|flag| flag.as_bool())
            .unwrap_or(false),
        bias,
        modules_to_save,
        value["peft_type"].as_str().unwrap(),
    )
}

#[test]
fn parse_valid_config() {
    let json = r#"{
        "r": 8,
        "lora_alpha": 16,
        "target_modules": ["q_proj", "v_proj"],
        "fan_in_fan_out": false,
        "bias": "none",
        "modules_to_save": null,
        "base_model_name_or_path": "meta-llama/Llama-2-7b-hf",
        "peft_type": "LORA"
    }"#;
    let config = from_json(json).unwrap();
    assert_eq!(config.rank(), 8);
    assert_eq!(*config.alpha(), 16.0);
    assert_eq!(config.scaling(&Division), 2.0);
    assert_eq!(config.target_modules(), &["q_proj", "v_proj"]);
    assert!(!config.fan_in_fan_out());
    assert_eq!(config.bias(), &BiasMode::NoBias);
    assert!(config.modules_to_save().is_none());
}

#[test]
fn parse_config_with_lora_only_bias() {
    let json = r#"{
        "r": 16,
        "lora_alpha": 32,
        "target_modules": ["q_proj"],
        "bias": "lora_only",
        "peft_type": "LORA"
    }"#;
    let config = from_json(json).unwrap();
    assert_eq!(config.bias(), &BiasMode::LoraOnly);
    assert!(!config.fan_in_fan_out());
}

#[test]
fn reject_non_lora_peft_type() {
    let json = r#"{
        "r": 8,
        "lora_alpha": 16,
        "target_modules": ["q_proj"],
        "peft_type": "PREFIX_TUNING"
    }"#;
    let err = from_json(json).unwrap_err();
    let msg = err.message();
    assert!(msg.contains("PREFIX_TUNING"));
    assert!(msg.contains("LORA"));
}

#[test]
fn reject_zero_rank() {
    let json = r#"{
        "r": 0,
        "lora_alpha": 16,
        "target_modules": ["q_proj"],
        "peft_type": "LORA"
    }"#;
    let err = from_json(json).unwrap_err();
    assert!(err.message().contains("rank"));
}

#[test]
fn parse_with_modules_to_save() {
    let json = r#"{
        "r": 8,
        "lora_alpha": 16,
        "target_modules": ["q_proj"],
        "modules_to_save": ["lm_head"],
        "peft_type": "LORA"
    }"#;
    let config = from_json(json).unwrap();
    assert_eq!(config.modules_to_save().unwrap(), &["lm_head"]);
}

#[test]
fn the_kind_of_adapter_is_checked_before_the_rank() {
    let json = r#"{
        "r": 0,
        "lora_alpha": 16,
        "target_modules": [],
        "peft_type": "IA3"
    }"#;
    let err = from_json(json).unwrap_err();
    assert_eq!(
        err.message(),
        "invalid adapter config: unsupported peft_type 'IA3', expected 'LORA'"
    );
    assert!(matches!(err, SurgeryError::InvalidConfig(_)));
}

#[test]
fn a_zero_rank_is_named_in_full() {
    let err = AdapterConfig::from_fields(
        0,
        1.0f32,
        vec![],
        false,
        BiasMode::NoBias,
        None,
        "LORA",
    )
    .unwrap_err();
    assert_eq!(
        err.message(),
        "invalid adapter config: rank (r) must be greater than zero"
    );
}

#[test]
fn a_configuration_keeps_what_it_was_given() {
    let config = AdapterConfig::from_fields(
        3,
        12.0f32,
        vec!["a".to_string()],
        true,
        BiasMode::All,
        Some(vec![]),
        "LORA",
    )
    .unwrap();
    assert_eq!(config.rank(), 3);
    assert_eq!(*config.alpha(), 12.0);
    assert_eq!(config.scaling(&Division), 4.0);
    assert!(config.fan_in_fan_out());
    assert_eq!(config.bias(), &BiasMode::All);
    assert_eq!(config.modules_to_save().unwrap().len(), 0);
}
