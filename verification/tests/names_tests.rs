use safetensors_surgery::names::{build_name_mapping, has_path_segment, unpaired_factors};
use safetensors_surgery::SurgeryError;

#[test]
fn basic_name_mapping() {
    let base_names = vec![
        "model.layers.0.self_attn.q_proj.weight",
        "model.layers.0.self_attn.k_proj.weight",
        "model.layers.0.self_attn.v_proj.weight",
        "model.embed_tokens.weight",
    ];
    let adapter_names = vec![
        "base_model.model.model.layers.0.self_attn.q_proj.lora_A.weight",
        "base_model.model.model.layers.0.self_attn.q_proj.lora_B.weight",
        "base_model.model.model.layers.0.self_attn.v_proj.lora_A.weight",
        "base_model.model.model.layers.0.self_attn.v_proj.lora_B.weight",
    ];
    let target_modules = vec!["q_proj".to_string(), "v_proj".to_string()];

    let mapping = build_name_mapping(&base_names, &adapter_names, &target_modules, None).unwrap();

    assert!(mapping.is_lora_target("model.layers.0.self_attn.q_proj.weight"));
    assert!(mapping.is_lora_target("model.layers.0.self_attn.v_proj.weight"));
    assert!(!mapping.is_lora_target("model.layers.0.self_attn.k_proj.weight"));
    assert!(!mapping.is_lora_target("model.embed_tokens.weight"));

    let (a, b) = mapping
        .lora_pair("model.layers.0.self_attn.q_proj.weight")
        .unwrap();
    assert_eq!(
        a,
        "base_model.model.model.layers.0.self_attn.q_proj.lora_A.weight"
    );
    assert_eq!(
        b,
        "base_model.model.model.layers.0.self_attn.q_proj.lora_B.weight"
    );
}

#[test]
fn missing_some_target_modules_still_succeeds() {
    let base_names = vec!["model.layers.0.self_attn.q_proj.weight"];
    let adapter_names = vec![
        "base_model.model.model.layers.0.self_attn.q_proj.lora_A.weight",
        "base_model.model.model.layers.0.self_attn.q_proj.lora_B.weight",
    ];
    let target_modules = vec!["q_proj".to_string(), "v_proj".to_string()];

    let mapping = build_name_mapping(&base_names, &adapter_names, &target_modules, None).unwrap();
    assert!(mapping.is_lora_target("model.layers.0.self_attn.q_proj.weight"));
}

#[test]
fn no_target_modules_match_errors() {
    let base_names = vec!["model.layers.0.self_attn.k_proj.weight"];
    let adapter_names = vec![
        "base_model.model.model.layers.0.self_attn.k_proj.lora_A.weight",
    ];
    let target_modules = vec!["q_proj".to_string(), "v_proj".to_string()];

    let err = build_name_mapping(&base_names, &adapter_names, &target_modules, None).unwrap_err();
    assert!(err.message().contains("q_proj, v_proj"));
    assert!(matches!(err, SurgeryError::MissingAdapterTensor { .. }));
}

#[test]
fn module_replacement_mapping() {
    let base_names = vec!["model.layers.0.self_attn.q_proj.weight", "lm_head.weight"];
    let adapter_names = vec![
        "base_model.model.model.layers.0.self_attn.q_proj.lora_A.weight",
        "base_model.model.model.layers.0.self_attn.q_proj.lora_B.weight",
        "base_model.model.lm_head.weight",
    ];
    let target_modules = vec!["q_proj".to_string()];
    let modules_to_save = vec!["lm_head".to_string()];

    let mapping = build_name_mapping(
        &base_names,
        &adapter_names,
        &target_modules,
        Some(&modules_to_save),
    )
    .unwrap();

    assert_eq!(
        mapping.replacement("lm_head.weight"),
        Some("base_model.model.lm_head.weight")
    );
}

#[test]
fn modules_to_save_exact_segment_match() {
    let base_names = vec![
        "model.layers.0.self_attn.q_proj.weight",
        "lm_head.weight",
        "old_lm_head.weight",
    ];
    let adapter_names = vec![
        "base_model.model.model.layers.0.self_attn.q_proj.lora_A.weight",
        "base_model.model.model.layers.0.self_attn.q_proj.lora_B.weight",
        "base_model.model.lm_head.weight",
        "base_model.model.old_lm_head.weight",
    ];
    let target_modules = vec!["q_proj".to_string()];
    let modules_to_save = vec!["lm_head".to_string()];

    let mapping = build_name_mapping(
        &base_names,
        &adapter_names,
        &target_modules,
        Some(&modules_to_save),
    )
    .unwrap();

    assert_eq!(
        mapping.replacement("lm_head.weight"),
        Some("base_model.model.lm_head.weight")
    );
    // "old_lm_head" should NOT match "lm_head": an exact segment match is required.
    assert_eq!(mapping.replacement("old_lm_head.weight"), None);
}

#[test]
fn bias_name_mapping() {
    let base_names = vec![
        "model.layers.0.self_attn.q_proj.weight",
        "model.layers.0.self_attn.q_proj.bias",
    ];
    let adapter_names = vec![
        "base_model.model.model.layers.0.self_attn.q_proj.lora_A.weight",
        "base_model.model.model.layers.0.self_attn.q_proj.lora_B.weight",
        "base_model.model.model.layers.0.self_attn.q_proj.bias",
    ];
    let target_modules = vec!["q_proj".to_string()];

    let mapping = build_name_mapping(&base_names, &adapter_names, &target_modules, None).unwrap();

    assert_eq!(
        mapping.bias_source("model.layers.0.self_attn.q_proj.bias"),
        Some("base_model.model.model.layers.0.self_attn.q_proj.bias")
    );
}

#[test]
fn unpaired_lora_a_without_b() {
    let base_names = vec![
        "model.layers.0.self_attn.q_proj.weight",
        "model.layers.0.self_attn.v_proj.weight",
    ];
    let adapter_names = vec![
        "base_model.model.model.layers.0.self_attn.q_proj.lora_A.weight",
        "base_model.model.model.layers.0.self_attn.q_proj.lora_B.weight",
        // v_proj has only lora_A, no lora_B, and is no target
        "base_model.model.model.layers.0.self_attn.v_proj.lora_A.weight",
    ];
    let target_modules = vec!["q_proj".to_string(), "v_proj".to_string()];

    let mapping = build_name_mapping(&base_names, &adapter_names, &target_modules, None).unwrap();

    assert!(mapping.is_lora_target("model.layers.0.self_attn.q_proj.weight"));
    assert!(!mapping.is_lora_target("model.layers.0.self_attn.v_proj.weight"));
    assert_eq!(
        mapping.warnings(),
        vec![
            "warning: adapter has lora_A for 'model.layers.0.self_attn.v_proj.weight' but no \
             matching lora_B (skipped)"
                .to_string()
        ]
    );
}

#[test]
fn a_factor_without_lora_a_is_skipped_too() {
    let base_names = vec!["a.weight", "b.weight"];
    let adapter_names = vec![
        "base_model.model.a.lora_A.weight",
        "base_model.model.a.lora_B.weight",
        "base_model.model.b.lora_B.weight",
    ];
    let mapping =
        build_name_mapping(&base_names, &adapter_names, &["a".to_string()], None).unwrap();
    assert!(mapping.lora_pair("b.weight").is_none());
    assert_eq!(
        mapping.warnings(),
        vec![
            "warning: adapter has lora_B for 'b.weight' but no matching lora_A (skipped)"
                .to_string()
        ]
    );
}

#[test]
fn names_without_the_prefix_are_passed_over() {
    let base_names = vec!["a.weight", "a.bias"];
    let adapter_names = vec!["a.lora_A.weight", "a.lora_B.weight", "a.bias"];
    let mapping = build_name_mapping(&base_names, &adapter_names, &[], None).unwrap();
    assert!(!mapping.is_lora_target("a.weight"));
    assert!(mapping.bias_source("a.bias").is_none());
}

#[test]
fn without_target_modules_nothing_has_to_match() {
    let mapping = build_name_mapping(&["a.weight"], &[], &[], None).unwrap();
    assert!(!mapping.is_lora_target("a.weight"));
    assert!(mapping.warnings().is_empty());
}

#[test]
fn a_path_segment_stands_between_dots() {
    assert!(has_path_segment("model.lm_head.weight", "lm_head"));
    assert!(has_path_segment("lm_head", "lm_head"));
    assert!(has_path_segment("a..b", ""));
    assert!(!has_path_segment("model.old_lm_head.weight", "lm_head"));
    assert!(!has_path_segment("model.lm_head.weight", "model.lm_head"));
    assert!(!has_path_segment("a.b", ""));
}

#[test]
fn factors_are_never_replacements() {
    let base_names = vec!["m.x.lora_A.weight", "m.x.weight"];
    let adapter_names = vec![
        "base_model.model.m.x.lora_A.weight",
        "base_model.model.m.x.weight",
    ];
    let saved = vec!["m".to_string()];
    let mapping = build_name_mapping(&base_names, &adapter_names, &[], Some(&saved)).unwrap();
    assert_eq!(mapping.replacement("m.x.lora_A.weight"), None);
    assert_eq!(
        mapping.replacement("m.x.weight"),
        Some("base_model.model.m.x.weight")
    );
}

#[test]
fn factors_without_a_partner_are_named_though_no_target_matches() {
    let base_names = vec!["a.weight", "b.weight"];
    let adapter_names = vec![
        "base_model.model.a.lora_A.weight",
        "base_model.model.b.lora_B.weight",
        "base_model.model.c.lora_B.weight",
    ];
    assert!(build_name_mapping(&base_names, &adapter_names, &["a".to_string()], None).is_err());
    assert_eq!(
        unpaired_factors(&base_names, &adapter_names),
        vec![
            "warning: adapter has lora_A for 'a.weight' but no matching lora_B (skipped)",
            "warning: adapter has lora_B for 'b.weight' but no matching lora_A (skipped)",
        ]
    );
}
