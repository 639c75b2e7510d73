use hologram_ai::kappa::kappa_of;
use hologram_ai::prism::{
    concrete_shape, emitter_semantics_id, graph_manifest, op_label, tensor_id, GraphModel,
    GraphNode, GraphParam, GraphTensor, Manifest, ManifestError, ParamSource, PrismProvenance,
    PRISM_MANIFEST_EXT,
};

fn provenance() -> PrismProvenance {
    PrismProvenance {
        config_kappa: kappa_of(b"config.json"),
        tensor_manifest_kappa: format!("sha256:{}", "5a".repeat(32)),
        source_kappas: vec![kappa_of(b"model.safetensors")],
        substrate_witnesses: vec![kappa_of(b"witness")],
    }
}

/// A contract that admits manifests whose labels are an axis and sixty-four hex digits.
fn admit_labels(m: &Manifest) -> Result<(), String> {
    let p = &m.provenance;
    let labels = [&p.config_kappa, &p.tensor_manifest_kappa]
        .into_iter()
        .chain(&p.source_kappas)
        .chain(m.weights.iter().map(|w| &w.kappa));
    for label in labels {
        let digits = label
            .strip_prefix("blake3:")
            .or_else(|| label.strip_prefix("sha256:"));
        match digits {
            Some(d) if d.len() == 64 && d.bytes().all(|b| b.is_ascii_hexdigit()) => {}
            _ => return Err(format!("label {label}")),
        }
    }
    Ok(())
}

fn graph(params: Vec<GraphParam>) -> GraphModel {
    GraphModel {
        inputs: vec![0],
        outputs: vec![300],
        nodes: vec![GraphNode {
            op: "MatMul { transpose: false }".to_string(),
            inputs: vec![0, 7],
            outputs: vec![300],
        }],
        params,
        tensor_info: vec![
            GraphTensor { id: 0, dtype: "F32".to_string(), shape: vec![Some(1), None] },
            GraphTensor { id: 7, dtype: "F16".to_string(), shape: vec![Some(2)] },
        ],
    }
}

#[test]
fn tensor_ids_are_fixed_width() {
    assert_eq!(tensor_id(0), "t00000000");
    assert_eq!(tensor_id(300), "t0000012c");
    assert_eq!(tensor_id(u32::MAX), "tffffffff");
    assert_eq!(PRISM_MANIFEST_EXT, "prism.manifest");
}

#[test]
fn the_emitter_is_named_by_a_digest() {
    let identity =
        "hologram-ai/prism-emitter/1\nprism-archive rev 18d602ade7891dc79a51323caf33551138006e01\n";
    let expected = blake3::hash(identity.as_bytes()).to_hex().to_string();
    assert_eq!(emitter_semantics_id(), expected);
    assert_eq!(emitter_semantics_id().len(), 64);
}

#[test]
fn symbolic_dimensions_are_zero() {
    assert_eq!(concrete_shape(&vec![Some(3), None]), vec![3, 0]);
}

#[test]
fn a_graph_has_a_manifest() {
    let params = vec![
        GraphParam { id: 7, source: ParamSource::Inline { data: b"w".to_vec() } },
        GraphParam { id: 2, source: ParamSource::External { kappa: kappa_of(b"k") } },
        GraphParam { id: 9, source: ParamSource::Mapped { content: Ok(b"m".to_vec()) } },
    ];
    let m = graph_manifest(&graph(params), "decoder", "main", provenance(), admit_labels)
        .expect("a manifest");
    let weights: Vec<(&str, &str)> = m
        .weights
        .iter()
        .map(|w| (w.tensor.as_str(), w.kappa.as_str()))
        .collect();
    let (w, external, mapped) = (kappa_of(b"w"), kappa_of(b"k"), kappa_of(b"m"));
    assert_eq!(
        weights,
        vec![
            ("t00000002", external.as_str()),
            ("t00000007", w.as_str()),
            ("t00000009", mapped.as_str()),
        ]
    );
    let ids: Vec<&str> = m.tensors.iter().map(|t| t.id.as_str()).collect();
    let mut sorted = ids.clone();
    sorted.sort();
    sorted.dedup();
    assert_eq!(ids, sorted, "the tensor table is in order, each tensor once");
    assert!(ids.contains(&"t0000012c"));
    assert_eq!(m.component.id, "decoder");
    assert_eq!(m.component.role, "main");
    assert_eq!(m.component.inputs, vec!["t00000000".to_string()]);
    assert_eq!(m.component.outputs, vec!["t0000012c".to_string()]);
    assert_eq!(m.component.nodes[0].op, op_label("MatMul { transpose: false }"));
    assert_eq!(m.provenance.config_kappa, kappa_of(b"config.json"));
    assert_eq!(m.provenance.tensor_manifest_kappa, format!("sha256:{}", "5a".repeat(32)));
    assert_eq!(m.provenance.source_kappas, vec![kappa_of(b"model.safetensors")]);
    assert_eq!(m.provenance.substrate_witnesses, vec![kappa_of(b"witness")]);
    assert_eq!(m.provenance.emitter_semantics_id, emitter_semantics_id());
}

#[test]
fn an_unreadable_parameter_is_named() {
    let params = vec![GraphParam {
        id: 9,
        source: ParamSource::Mapped { content: Err("gone".to_string()) },
    }];
    let e = graph_manifest(&graph(params), "c", "r", provenance(), admit_labels)
        .map(|_| ())
        .expect_err("unreadable");
    match e {
        ManifestError::Unreadable(param) => {
            assert_eq!((param.id, param.reason.as_str()), (9, "gone"));
        }
        other => panic!("{other:?}"),
    }
}

#[test]
fn a_manifest_that_is_not_admitted_is_not_handed_out() {
    let params = vec![GraphParam {
        id: 7,
        source: ParamSource::External { kappa: "blake3:short".to_string() },
    }];
    let e = graph_manifest(&graph(params), "c", "r", provenance(), admit_labels)
        .map(|_| ())
        .expect_err("refused");
    match e {
        ManifestError::Refused { reason } => assert_eq!(reason, "label blake3:short"),
        other => panic!("{other:?}"),
    }
    // The contract sees the whole manifest.
    let seen = |m: &Manifest| Err(format!("{} {}", m.component.id, m.tensors.len()));
    let e = graph_manifest(&graph(Vec::new()), "c", "r", provenance(), seen)
        .map(|_| ())
        .expect_err("refused");
    assert!(matches!(e, ManifestError::Refused { reason } if reason == "c 3"));
}
