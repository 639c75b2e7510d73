use hologram_ai::manifest::{
    bind_rows, derivation_dtype, parse_dtype, parse_kappas, parse_manifest, stage_layers,
    staged_block, BoundTensor, DType, ManifestError, NamedTensor, RawRow,
};
use hologram_ai::quant::{
    parse_quant_json, quant_key, quant_map, QuantEntry, QuantMapError, QuantTier,
};
use hologram_ai::session::{plan_session, window_message, SessionRequest};

fn row(key: &str, shape: &str, dtype: &str) -> RawRow {
    RawRow {
        key: Some(key.to_string()),
        shape: Some(shape.to_string()),
        dtype: Some(dtype.to_string()),
    }
}

#[test]
fn every_mapped_element_type_reads() {
    for (tag, dtype) in [
        ("F32", DType::F32),
        ("F16", DType::F16),
        ("BF16", DType::BF16),
        ("F64", DType::F64),
        ("I64", DType::Int64),
        ("INT64", DType::Int64),
        ("I32", DType::Int32),
        ("INT32", DType::Int32),
        ("I8", DType::Int8),
        ("INT8", DType::Int8),
        ("U8", DType::U8),
        ("BOOL", DType::Bool),
    ] {
        assert_eq!(parse_dtype(tag), Some(dtype));
    }
    assert_eq!(parse_dtype("f32"), None);
    assert_eq!(derivation_dtype("BF16"), Some(DType::BF16));
    assert_eq!(derivation_dtype("I8"), None);
}

#[test]
fn a_manifest_reads_row_by_row() {
    let raw = vec![row("w", "[2, 3]", "F32"), row("b", "[]", "I8")];
    let rows = parse_manifest(&raw).expect("a well-formed manifest");
    assert_eq!(rows.len(), 2);
    assert_eq!(rows[0].key, "w");
    assert_eq!(rows[0].shape, vec![2, 3]);
    assert_eq!(rows[0].dtype, DType::F32);
    assert_eq!(rows[1].shape, Vec::<u64>::new());
    let kappas = parse_kappas(&rows, &vec![Some("k0".to_string()), Some("k1".to_string())]);
    assert_eq!(kappas, Ok(vec!["k0".to_string(), "k1".to_string()]));
}

#[test]
fn each_refused_row_is_named() {
    let good = row("w", "[1]", "F32");
    let refused = |bad: RawRow| parse_manifest(&vec![good.clone(), bad]).unwrap_err();
    assert_eq!(
        refused(RawRow { key: None, shape: None, dtype: None }),
        ManifestError::Key(1)
    );
    assert_eq!(
        refused(RawRow { shape: None, ..row("b", "", "?") }),
        ManifestError::Shape("b".to_string())
    );
    assert_eq!(
        refused(RawRow { dtype: None, ..row("b", "nonsense", "") }),
        ManifestError::DTypeText("b".to_string())
    );
    for shape in ["nonsense", "[-1]", "[1.5]", "{}", "[18446744073709551616]"] {
        assert_eq!(
            refused(row("b", shape, "?")),
            ManifestError::ShapeParse("b".to_string())
        );
    }
    assert_eq!(
        refused(row("b", "[1]", "F8")),
        ManifestError::Unsupported { key: "b".to_string(), dtype: "F8".to_string() }
    );
    let rows = parse_manifest(&vec![good.clone(), row("b", "[1]", "F16")]).unwrap();
    assert_eq!(
        parse_kappas(&rows, &vec![Some("k".to_string())]),
        Err(ManifestError::Kappa("b".to_string()))
    );
    assert_eq!(
        parse_kappas(&rows, &vec![None, None]),
        Err(ManifestError::Kappa("w".to_string()))
    );
}

#[test]
fn a_stage_holds_at_least_one_layer() {
    assert_eq!(stage_layers(0), Err(ManifestError::NoLayers));
    assert_eq!(stage_layers(4), Ok(4));
    assert_eq!(staged_block(Some(4)), Some(4));
    assert_eq!(staged_block(Some(0)), None);
    assert_eq!(staged_block(None), None);
}

#[test]
fn rows_are_bound_to_named_or_fresh_tensors() {
    let names = vec![
        NamedTensor { id: 7, name: "w".to_string() },
        NamedTensor { id: 3, name: "b".to_string() },
    ];
    let raw = vec![
        row("b", "[1]", "F32"),
        row("x", "[1]", "F32"),
        row("w", "[1]", "F32"),
        row("x", "[1]", "F32"),
    ];
    let rows = parse_manifest(&raw).unwrap();
    assert_eq!(
        bind_rows(&names, &rows),
        vec![
            BoundTensor { id: 3, fresh: false },
            BoundTensor { id: 8, fresh: true },
            BoundTensor { id: 7, fresh: false },
            BoundTensor { id: 9, fresh: true },
        ]
    );
    assert_eq!(
        bind_rows(&vec![], &rows[..1].to_vec()),
        vec![BoundTensor { id: 1, fresh: true }]
    );
}

fn entries_of(text: &str) -> Option<Vec<QuantEntry>> {
    let value: serde_json::Value = serde_json::from_str(text).ok()?;
    value
        .as_array()?
        .iter()
        .map(|e| {
            Some(QuantEntry {
                wide: e.get("wide")?.as_str()?.to_string(),
                artifact: e.get("artifact")?.as_str()?.to_string(),
                out_features: e.get("out")?.as_u64()?,
                in_features: e.get("in")?.as_u64()?,
                offset: e.get("offset").and_then(|v| v.as_u64()),
                len: e.get("len").and_then(|v| v.as_u64()),
                tier: e.get("tier").and_then(|v| v.as_str()).map(str::to_string),
            })
        })
        .collect()
}

#[test]
fn parse_quant_json_builds_composite_keys_for_ranged_head_chunks() {
    let json = r#"[
            {"wide":"proj-k","artifact":"proj-art","out":4,"in":8},
            {"wide":"embed-k","artifact":"chunk-art-a","out":3,"in":8,"offset":0,"len":48},
            {"wide":"embed-k","artifact":"chunk-art-b","out":3,"in":8,"offset":48,"len":48}
        ]"#;
    let map = parse_quant_json(Some(json), entries_of)
        .expect("valid quant JSON parses")
        .expect("a non-empty map");
    // Whole projection: bare-κ key.
    assert_eq!(
        map.get("proj-k")
            .map(|v| (v.artifact.as_str(), v.out_features, v.in_features)),
        Some(("proj-art", 4, 8))
    );
    // Head chunks: κ@offset+len keys, one artifact each, sharing the wide κ.
    assert_eq!(
        map.get("embed-k@0+48").map(|v| v.artifact.as_str()),
        Some("chunk-art-a")
    );
    assert_eq!(
        map.get("embed-k@48+48").map(|v| v.artifact.as_str()),
        Some("chunk-art-b")
    );
    assert_eq!(
        map.len(),
        3,
        "three distinct keys — the two chunks do not collide"
    );
}

#[test]
fn no_quant_text_means_nothing_is_quantized() {
    assert!(matches!(parse_quant_json(None, entries_of), Ok(None)));
    assert!(matches!(parse_quant_json(Some(""), entries_of), Ok(None)));
    assert!(matches!(
        parse_quant_json(Some("[{}]"), entries_of),
        Err(QuantMapError)
    ));
}

#[test]
fn a_later_entry_of_one_key_counts() {
    let entry = |artifact: &str, tier: Option<&str>| QuantEntry {
        wide: "k".to_string(),
        artifact: artifact.to_string(),
        out_features: 1,
        in_features: 2,
        offset: Some(3),
        len: None,
        tier: tier.map(str::to_string),
    };
    let map = quant_map(&vec![entry("a", None), entry("b", Some("int4"))]);
    assert_eq!(map.len(), 1);
    let binding = map.get("k").expect("without a length the key is bare");
    assert_eq!(binding.artifact, "b");
    assert_eq!(binding.tier, QuantTier::Int4);
}

#[test]
fn tiers_default_to_eight_bits() {
    assert_eq!(QuantTier::from_tag(None), QuantTier::Int8);
    assert_eq!(QuantTier::from_tag(Some("int8")), QuantTier::Int8);
    assert_eq!(QuantTier::from_tag(Some("int4")), QuantTier::Int4);
    for tier in [QuantTier::Int8, QuantTier::Int4] {
        assert_eq!(QuantTier::from_tag(Some(tier.tag())), tier);
    }
    assert_eq!(quant_key("k", Some((10, 205))), "k@10+205");
    assert_eq!(quant_key("k", None), "k");
}

fn request() -> SessionRequest {
    SessionRequest {
        rows: vec![row("w", "[2]", "F32")],
        kappas: vec![Some("k".to_string())],
        context_length: Some(2048),
        layers_per_stage: 2,
        derived_load: true,
        derived_store: true,
        derived_evaporate: true,
        weight_budget: Some(1024),
        narrate: false,
        hard_ceiling: true,
    }
}

#[test]
fn a_session_is_planned_from_its_request() {
    let plan = plan_session(&request()).expect("a plan");
    assert_eq!(plan.kappas, vec!["k".to_string()]);
    assert_eq!(plan.context_length, Some(2048));
    assert_eq!(plan.layers_per_stage, 2);
    assert!(plan.derived);
    assert_eq!(plan.residency, Some(3 << 30));
    assert!(plan.bound_by_footprint);
    assert_eq!(plan.paging, Some(1024));

    let soft = SessionRequest {
        derived_evaporate: false,
        weight_budget: None,
        hard_ceiling: false,
        ..request()
    };
    let plan = plan_session(&soft).expect("a plan");
    assert!(!plan.derived, "a partial store is not wired");
    assert_eq!(plan.residency, None);
    assert!(!plan.bound_by_footprint);
    assert_eq!(plan.paging, None);
}

#[test]
fn a_session_is_refused_by_its_first_fault() {
    let no_layers = SessionRequest { layers_per_stage: 0, ..request() };
    assert!(matches!(
        plan_session(&no_layers),
        Err(ManifestError::NoLayers)
    ));
    let no_kappa = SessionRequest { kappas: vec![], layers_per_stage: 0, ..request() };
    assert!(matches!(
        plan_session(&no_kappa),
        Err(ManifestError::Kappa(key)) if key == "w"
    ));
}

#[test]
fn window_changes_are_narrated() {
    assert_eq!(window_message(512, false), "compiling a 512-token window");
    assert_eq!(
        window_message(0, true),
        "resolving (derived κ) a 0-token window"
    );
}
