use hologram_ai::forward::{
    decode_i4, decode_words, describe, dtype_name, output_shapes, ports, run_inputs, synth, OutputShape, RunError,
};
use hologram_ai::runner::{
    dtype_byte_width, port_byte_size, port_sizes_fit, Binding, HoloRunner, OutputReply, OutputStep,
    PortInfo, WalkError,
};

fn port(name: &str, dtype: u8, element_count: usize) -> PortInfo {
    PortInfo {
        name: name.to_string(),
        dtype,
        element_count,
        shape: vec![1, element_count],
    }
}

fn decoder() -> HoloRunner<u64> {
    HoloRunner::new(
        vec![port("ids", 5, 1), port("past_k_0", 8, 4), port("past_v_0", 8, 4)],
        vec![port("logits", 8, 3), port("k_new_0", 8, 4), port("v_new_0", 8, 4)],
    )
}

#[test]
fn element_widths_follow_the_tags() {
    let widths: Vec<usize> = (0..12u8).map(dtype_byte_width).collect();
    assert_eq!(widths, vec![1, 1, 1, 8, 4, 8, 2, 2, 4, 8, 4, 4]);
    assert_eq!(port_byte_size(5, 10), 3, "four-bit integers pack two to a byte");
    assert_eq!(port_byte_size(5, 7), 10);
    assert!(port_sizes_fit(&vec![port("a", 10, usize::MAX)]));
    assert!(!port_sizes_fit(&vec![port("a", 3, usize::MAX)]));
}

#[test]
fn ports_are_found_by_name() {
    let runner = decoder();
    assert_eq!(runner.input_count(), 3);
    assert_eq!(runner.output_count(), 3);
    assert_eq!(runner.input_byte_sizes(), vec![8, 16, 16]);
    assert_eq!(runner.output_byte_sizes(), vec![12, 16, 16]);
    assert_eq!(runner.input_index_by_name("past_v_0"), Some(2));
    assert_eq!(runner.output_index_by_name("past_v_0"), None);
    assert_eq!(runner.output_port_info()[1].name, "k_new_0");
    assert_eq!(runner.input_port_info()[0].shape, vec![1, 1]);
}

fn bindings(plan: &[Binding<u64>]) -> Vec<Result<u64, usize>> {
    plan.iter()
        .map(|b| match b {
            Binding::Carried(label) => Ok(*label),
            Binding::Fresh(i) => Err(*i),
        })
        .collect()
}

#[test]
fn a_settled_cache_is_bound_by_the_next_walk() {
    let mut runner = decoder();
    assert!(!runner.has_kv_carry());
    assert_eq!(runner.drop_stale_carry(false), Vec::<u64>::new());
    let plan = runner.bind_kv_resident(3, false).expect("three inputs");
    assert_eq!(bindings(&plan.bindings), vec![Err(0), Err(1), Err(2)]);

    let steps = runner.plan_outputs(3).expect("three labels");
    assert!(matches!(steps[0], OutputStep::Resolve));
    assert!(matches!(&steps[1], OutputStep::Retain { next_in } if next_in == "past_k_0"));
    let replies = vec![
        OutputReply::Resolved(Some(vec![7])),
        OutputReply::Retained(true),
        OutputReply::Retained(true),
    ];
    let outputs = runner
        .settle_kv_resident(&vec![10, 11, 12], &replies)
        .expect("settles");
    assert_eq!(outputs, vec![Some(vec![7]), None, None]);
    assert!(runner.has_kv_carry());

    let plan = runner.bind_kv_resident(3, true).expect("three inputs");
    assert_eq!(bindings(&plan.bindings), vec![Err(0), Ok(11), Ok(12)]);
    assert_eq!(plan.missing, None);
    assert_eq!(runner.drop_stale_carry(true), Vec::<u64>::new());
    assert_eq!(
        runner.take_kv_carry(),
        vec![("past_k_0".to_string(), 11), ("past_v_0".to_string(), 12)]
    );
    assert!(!runner.has_kv_carry());
    assert_eq!(runner.take_kv_carry(), Vec::<(String, u64)>::new());
    let plan = runner.bind_kv_resident(3, true).expect("three inputs");
    assert_eq!(plan.missing, Some("past_k_0".to_string()));
    assert_eq!(bindings(&plan.bindings), vec![Err(0)]);
}

#[test]
fn a_fresh_walk_gives_up_the_stale_carry() {
    let mut runner = decoder();
    let replies = vec![
        OutputReply::Resolved(Some(vec![])),
        OutputReply::Retained(true),
        OutputReply::Retained(true),
    ];
    runner
        .settle_kv_resident(&vec![1, 2, 3], &replies)
        .expect("settles");
    assert_eq!(runner.drop_stale_carry(false), vec![2, 3]);
    assert!(!runner.has_kv_carry());
}

#[test]
fn each_broken_walk_has_its_own_error() {
    let mut runner = decoder();
    assert!(matches!(
        runner.bind_kv_resident(2, false),
        Err(WalkError::InputCount { supplied: 2, expected: 3 })
    ));
    assert!(matches!(
        runner.plan_outputs(4),
        Err(WalkError::OutputCount { produced: 4, expected: 3 })
    ));
    let unresolved = vec![OutputReply::Resolved(None)];
    assert!(matches!(
        runner.settle_kv_resident(&vec![1, 2, 3], &unresolved),
        Err(WalkError::Unresolved { port }) if port == "logits"
    ));
    let evicted = vec![OutputReply::Resolved(Some(vec![])), OutputReply::Retained(false)];
    assert!(matches!(
        runner.settle_kv_resident(&vec![1, 2, 3], &evicted),
        Err(WalkError::NotResident { port }) if port == "k_new_0"
    ));
}

#[test]
fn element_types_have_names() {
    let names: Vec<&str> = (0..12u8).map(dtype_name).collect();
    assert_eq!(
        names,
        vec!["bool", "u8", "i8", "u64", "i32", "i64", "f16", "bf16", "f32", "f64", "i4", "?"]
    );
}

#[test]
fn a_model_is_described_by_its_ports() {
    let info = describe(&HoloRunner::<u64>::new(
        vec![port("x", 8, 4)],
        vec![port("y", 8, 4)],
    ));
    assert_eq!(info.inputs.len(), 1);
    assert_eq!(info.inputs[0].dtype_name, "f32");
    assert_eq!(info.inputs[0].element_count, 4);
    assert_eq!(info.inputs[0].bytes, 16);
    assert_eq!(info.outputs[0].element_count, 4);
    assert_eq!(info.outputs[0].name, "y");
    assert_eq!(ports(&vec![port("a", 0, 1), port("b", 0, 1)], &vec![1]).len(), 1);
}

#[test]
fn inputs_are_checked_or_made() {
    let info = vec![port("x", 8, 2), port("n", 10, 3)];
    let sizes = vec![8, 2];
    let one = 1.0f32.to_le_bytes().to_vec();
    let filled = run_inputs(&vec![], &info, &sizes, Some(&vec![one.clone(), vec![0xFD]]));
    assert_eq!(filled, Ok(vec![one.repeat(2), vec![0xDD, 0xDD]]));
    assert_eq!(
        run_inputs(&vec![], &info, &sizes, None),
        Ok(vec![vec![0; 8], vec![0; 2]])
    );
    let given = vec![vec![5; 8], vec![]];
    assert_eq!(
        run_inputs(&given, &info, &sizes, None),
        Ok(vec![vec![5; 8], vec![0; 2]])
    );
    assert_eq!(
        run_inputs(&vec![vec![5; 8]], &info, &sizes, None),
        Err(RunError::Count { expected: 2, got: 1 })
    );
    assert_eq!(
        run_inputs(&vec![vec![5; 7], vec![]], &info, &sizes, None),
        Err(RunError::Size { index: 0, got: 7, want: 8 })
    );
}

#[test]
fn four_bit_integers_unpack_low_half_first() {
    assert_eq!(decode_i4(&[0x7F, 0x80]), vec![-1, 7, 0, -8]);
    for value in -8i8..=7 {
        let buffer = synth(2, 4, 10, Some(&[value as u8]));
        assert_eq!(decode_i4(&buffer), vec![value; 4]);
    }
    assert_eq!(synth(3, 2, 4, None), vec![0; 3]);
    assert_eq!(synth(0, 2, 4, Some(&[1, 2])), vec![1, 2, 1, 2]);
}

#[test]
fn outputs_are_read_element_by_element() {
    assert_eq!(decode_words(&[1, 2, 3], 1), vec![1, 2, 3]);
    assert_eq!(decode_words(&[1, 2, 3, 4, 5], 6), vec![0x0201, 0x0403]);
    assert_eq!(decode_words(&[0xFF; 9], 5), vec![u64::MAX]);
    assert_eq!(decode_words(&[7, 8], 99), vec![7, 8]);
    let ones = synth(16, 4, 8, Some(&1.0f32.to_le_bytes()));
    let values: Vec<f32> = decode_words(&ones, 8)
        .into_iter()
        .map(|w| f32::from_bits(w as u32))
        .collect();
    assert_eq!(values, vec![1.0; 4]);
}

#[test]
fn an_output_without_a_port_is_an_empty_float() {
    assert_eq!(
        output_shapes(&vec![port("y", 5, 2)], 2),
        vec![
            OutputShape { dtype: 5, element_count: 2 },
            OutputShape { dtype: 8, element_count: 0 },
        ]
    );
}
