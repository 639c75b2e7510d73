use hologram_ai::chat::{
    config_vocab_size, tokenizer_source, ChatState, GenOpts, Turn, TurnEvent, TurnPhase,
    TurnRequest, TurnStep, DEFAULT_SEED,
};
use hologram_ai::residency::{
    decode_residency_budget, DecodeGeometry, KvCharge, HOST_HEADROOM, STRUCTURAL_CEILING,
};

fn geom(bucket: usize) -> DecodeGeometry {
    DecodeGeometry {
        layers: 28,
        kv_heads: 2,
        heads: 12,
        head_dim: 128,
        bucket,
        chunk: 1,
        vocab: 151936,
        resident_kv: false,
    }
}

#[test]
fn the_budget_shrinks_as_the_carried_kv_grows() {
    // Nothing carried: the whole ceiling less the HOST's own headroom.
    assert_eq!(
        decode_residency_budget(0),
        STRUCTURAL_CEILING - HOST_HEADROOM
    );
    // The model's own K/V is charged, so a wider bucket leaves less room for
    // resident weights — the term a fixed reserve silently omitted.
    let small = geom(128).carried_kv_bytes().unwrap();
    let large = geom(32768).carried_kv_bytes().unwrap();
    assert!(large > small);
    assert!(decode_residency_budget(large) < decode_residency_budget(small));
    assert_eq!(
        decode_residency_budget(small),
        STRUCTURAL_CEILING - HOST_HEADROOM - small
    );
}

#[test]
fn a_long_context_kv_dwarfs_any_fixed_reserve() {
    // At a 32 k bucket this model carries nearly twice the host headroom.
    let kv = geom(32768).carried_kv_bytes().unwrap();
    assert!(
        kv > HOST_HEADROOM,
        "carried K/V {kv} must exceed the host headroom"
    );
}

#[test]
fn the_budget_saturates_rather_than_wrapping() {
    // A carried K/V larger than the whole ceiling yields zero residency, not
    // an underflowed enormous budget.
    assert_eq!(decode_residency_budget(u64::MAX), 0);
    assert_eq!(decode_residency_budget(STRUCTURAL_CEILING), 0);
}

#[test]
fn carried_caches_are_counted_exactly() {
    assert_eq!(geom(0).carried_kv_bytes_per_row(), Some(57344));
    assert_eq!(geom(128).carried_kv_bytes(), Some(57344 * 128));
    let huge = DecodeGeometry { layers: usize::MAX, ..geom(1) };
    assert_eq!(huge.carried_kv_bytes_per_row(), None);
    let none = DecodeGeometry { layers: usize::MAX, kv_heads: 0, ..geom(1) };
    assert_eq!(none.carried_kv_bytes(), Some(0));
    let wide = DecodeGeometry { head_dim: usize::MAX, layers: 1, kv_heads: 1, ..geom(1) };
    assert_eq!(wide.carried_kv_bytes(), None);
    assert_eq!(geom(usize::MAX).carried_kv_bytes(), None);
}

#[test]
fn a_pair_is_charged_together() {
    let mut charge = KvCharge::new();
    assert_eq!(charge.charge_target(1 << 20, 1024), 2 << 30);
    assert_eq!(charge.charge_draft(1 << 20, 512), (2u64 << 30) - (512 << 20));
    assert_eq!(charge.kv_total(), (1 << 30) + (512 << 20));
    assert_eq!(charge.charge_target(1 << 20, 512), 2 << 30);
    assert_eq!(charge.charge_draft(u64::MAX, 2), 0);
    assert_eq!(charge.kv_total(), u64::MAX);
    assert_eq!(KvCharge::default(), KvCharge::new());
}

#[test]
fn absent_options_have_defaults() {
    let config = GenOpts::default().config();
    assert_eq!(config.max_tokens, None);
    assert_eq!(f32::from_bits(config.temperature_bits), 0.0);
    assert_eq!(config.seed, 0x9E3779B97F4A7C15);
    assert_eq!(config.seed, DEFAULT_SEED);
    let opts = GenOpts {
        max_tokens: Some(3),
        temperature_bits: Some(0.5f32.to_bits()),
        stop: vec!["end".to_string()],
        eos: Some(9),
        seed: Some(1),
        ..GenOpts::default()
    };
    let config = opts.config();
    assert_eq!(config.max_tokens, Some(3));
    assert_eq!(f32::from_bits(config.temperature_bits), 0.5);
    assert_eq!(config.stop, vec!["end".to_string()]);
    assert_eq!(config.eos, Some(9));
    assert_eq!(config.seed, 1);
}

#[test]
fn a_supplied_tokenizer_comes_first() {
    assert_eq!(tokenizer_source(Some(vec![1]), Some(vec![2])), Some(vec![1]));
    assert_eq!(tokenizer_source(None, Some(vec![2])), Some(vec![2]));
    assert_eq!(tokenizer_source(None, None), None);
}

#[test]
fn the_vocabulary_comes_from_the_configuration() {
    assert_eq!(config_vocab_size(br#"{"vocab_size": 32000}"#), Some(32000));
    assert_eq!(config_vocab_size(br#"{"vocab_size": "many"}"#), Some(0));
    assert_eq!(config_vocab_size(b"{}"), Some(0));
    assert_eq!(config_vocab_size(b"{"), None);
}

fn request(speculative_draft: Option<usize>) -> TurnRequest {
    TurnRequest { prompt_tokens: 24, max_tokens: Some(8), speculative_draft }
}

#[test]
fn a_first_turn_builds_everything_it_can() {
    let mut state = ChatState::new(2048, 100, true);
    let draft = ChatState::new(16, 100, true);
    assert_eq!(state.attach_draft(&draft, None), Ok(()));
    let (mut turn, action) = Turn::open(&state, request(Some(4)));
    assert_eq!(
        action.step,
        TurnStep::BuildTarget { prompt: 24, declared: 8, context: 2048 }
    );
    assert_eq!(action.budget, None);

    let event = TurnEvent::TargetBuilt { kv_row: 1 << 20, bucket: 1024 };
    let action = turn.advance(&mut state, event);
    assert_eq!(action.budget, Some(2 << 30));
    assert_eq!(
        action.step,
        TurnStep::BuildDraft { prompt: 16, declared: 8, context: 16 }
    );

    let event = TurnEvent::DraftBuilt { kv_row: 1 << 20, bucket: 512 };
    let action = turn.advance(&mut state, event);
    assert_eq!(action.budget, Some((2u64 << 30) - (512 << 20)));
    assert_eq!(action.step, TurnStep::ReportGeometry);

    let event = TurnEvent::Geometry { bucket: 1024, seeded: false, base: 64 };
    let action = turn.advance(&mut state, event);
    assert_eq!(action.step, TurnStep::InstallSeeder { bucket: 1024, chunk: 64 });
    let action = turn.advance(&mut state, TurnEvent::SeederInstalled);
    assert_eq!(action.step, TurnStep::BuildVerify { bucket: 1024, width: 4 });
    let action = turn.advance(&mut state, TurnEvent::VerifyBuilt);
    assert_eq!(action.step, TurnStep::Speculate { width: 4, paired_model: true });
    let action = turn.advance(&mut state, TurnEvent::Generated);
    assert_eq!(action.step, TurnStep::Finish);
    assert_eq!(turn.phase, TurnPhase::Over);

    // A warm turn keeps what the first one built.
    let (mut turn, action) = Turn::open(&state, request(None));
    assert_eq!(action.step, TurnStep::ReportGeometry);
    let event = TurnEvent::Geometry { bucket: 1024, seeded: true, base: 64 };
    let action = turn.advance(&mut state, event);
    assert_eq!(action.step, TurnStep::DecodePlainly);
    assert_eq!(action.budget, None);
}

#[test]
fn what_only_speeds_a_turn_up_never_refuses_it() {
    let mut state = ChatState::new(2048, 100, true);
    let draft = ChatState::new(0, 100, true);
    assert_eq!(state.attach_draft(&draft, None), Ok(()));
    let (mut turn, _) = Turn::open(&state, request(Some(2)));
    let event = TurnEvent::TargetBuilt { kv_row: 1, bucket: 64 };
    let action = turn.advance(&mut state, event);
    assert_eq!(
        action.step,
        TurnStep::BuildDraft { prompt: 1, declared: 8, context: 1 }
    );
    let action = turn.advance(&mut state, TurnEvent::DraftFailed);
    assert_eq!(action.step, TurnStep::ReportGeometry);
    assert!(!state.draft_ready);
    let event = TurnEvent::Geometry { bucket: 32, seeded: false, base: 64 };
    let action = turn.advance(&mut state, event);
    assert_eq!(action.step, TurnStep::InstallSeeder { bucket: 32, chunk: 32 });
    let action = turn.advance(&mut state, TurnEvent::SeederFailed);
    assert_eq!(action.step, TurnStep::BuildVerify { bucket: 32, width: 2 });
    let action = turn.advance(&mut state, TurnEvent::VerifyFailed);
    assert_eq!(action.step, TurnStep::DecodePlainly);
    let action = turn.advance(&mut state, TurnEvent::GenerationFailed);
    assert_eq!(action.step, TurnStep::Fail);

    // The draft is tried again at the next turn.
    let (_, action) = Turn::open(&state, request(None));
    assert_eq!(
        action.step,
        TurnStep::BuildDraft { prompt: 1, declared: 8, context: 1 }
    );
}

#[test]
fn a_target_that_cannot_be_built_refuses_the_turn() {
    let mut state = ChatState::new(8, 0, true);
    let (mut turn, action) = Turn::open(
        &state,
        TurnRequest { prompt_tokens: 0, max_tokens: None, speculative_draft: Some(1) },
    );
    assert_eq!(
        action.step,
        TurnStep::BuildTarget { prompt: 1, declared: 0, context: 8 }
    );
    let action = turn.advance(&mut state, TurnEvent::TargetFailed);
    assert_eq!(action.step, TurnStep::Fail);
    assert!(!state.target_ready);
}

#[test]
fn drafts_of_one_token_decode_plainly_and_tiny_contexts_have_no_seeder() {
    let mut state = ChatState::new(8, 0, true);
    let (mut turn, _) = Turn::open(&state, request(Some(1)));
    let event = TurnEvent::TargetBuilt { kv_row: 1, bucket: 8 };
    assert_eq!(
        turn.advance(&mut state, event).step,
        TurnStep::ReportGeometry
    );
    let event = TurnEvent::Geometry { bucket: 8, seeded: false, base: 1 };
    assert_eq!(turn.advance(&mut state, event).step, TurnStep::DecodePlainly);
}

#[test]
fn a_refused_pairing_changes_nothing() {
    let mut state = ChatState::new(2048, 0, true);
    let before = state;
    let draft = ChatState::new(16, 100, true);
    let refused = state.attach_draft(&draft, Some("the vocabulary is unknown"));
    assert_eq!(
        refused,
        Err(
            "refusing the draft pairing: the vocabulary is unknown; drafting by prompt-lookup \
             instead"
                .to_string()
        )
    );
    assert_eq!(state, before);
}

#[test]
fn without_a_hard_ceiling_no_budget_is_set() {
    let mut state = ChatState::new(2048, 100, false);
    let draft = ChatState::new(16, 100, false);
    assert_eq!(state.attach_draft(&draft, None), Ok(()));
    let (mut turn, _) = Turn::open(&state, request(None));
    let event = TurnEvent::TargetBuilt { kv_row: 1 << 20, bucket: 1024 };
    assert_eq!(turn.advance(&mut state, event).budget, None);
    let event = TurnEvent::DraftBuilt { kv_row: 1 << 20, bucket: 512 };
    assert_eq!(turn.advance(&mut state, event).budget, None);
    // The caches are charged all the same.
    assert_eq!(state.charge.kv_total(), (1 << 30) + (512 << 20));
    assert_eq!(state.charge_target(1 << 20, 2048), None);
    assert_eq!(state.charge_draft(1 << 20, 16), None);

    let mut bounded = ChatState::new(2048, 100, true);
    assert_eq!(bounded.charge_target(1 << 20, 1024), Some(2 << 30));
    assert_eq!(bounded.charge_draft(1 << 20, 512), Some((2u64 << 30) - (512 << 20)));
}

#[test]
fn drafting_shows_only_in_the_choice_of_decoding() {
    let before = [
        TurnEvent::TargetBuilt { kv_row: 1 << 20, bucket: 1024 },
        TurnEvent::DraftBuilt { kv_row: 1 << 20, bucket: 512 },
        TurnEvent::Geometry { bucket: 1024, seeded: false, base: 64 },
    ];
    let paired = || {
        let mut state = ChatState::new(2048, 100, true);
        assert_eq!(state.attach_draft(&ChatState::new(16, 100, true), None), Ok(()));
        state
    };
    let (mut plain, mut drafting) = (paired(), paired());
    let (mut a, first) = Turn::open(&plain, request(None));
    let (mut b, other) = Turn::open(&drafting, request(Some(4)));
    assert_eq!(first, other);
    for event in before {
        assert_eq!(a.advance(&mut plain, event), b.advance(&mut drafting, event));
        assert_eq!(a.phase, b.phase);
        assert_eq!(plain, drafting);
    }
    let event = TurnEvent::SeederInstalled;
    assert_eq!(a.advance(&mut plain, event).step, TurnStep::DecodePlainly);
    let step = b.advance(&mut drafting, event).step;
    assert_eq!(step, TurnStep::BuildVerify { bucket: 1024, width: 4 });
    let _ = a.advance(&mut plain, TurnEvent::Generated);
    let _ = b.advance(&mut drafting, TurnEvent::VerifyBuilt);
    let _ = b.advance(&mut drafting, TurnEvent::Generated);
    assert_eq!(plain, drafting);
}
