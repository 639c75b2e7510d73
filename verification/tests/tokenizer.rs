use hologram_ai::json::{read_json, Json};
use hologram_ai::tokenizer::{
    looks_like_tiktoken_ranks, parse_byte_fallback, special_token_content, strip_bom_and_ws,
    NativeTokenizer, SpError,
};
use hologram_ai::tokenizer_config::{
    from_unigram_json, from_wordpiece_json, parse_normalization, parse_pre_tokenizer,
    parse_special_tokens, NormStep, NormalizationConfig, PreTokenizerConfig, SpecialTokens,
    TokenizerAlgorithm, TokenizerConfig, TokenizerError,
};
use hologram_ai::vocab::{Merge, MergeRules, VocabMap, VocabTable};

fn no_model(_: &[u8]) -> Result<TokenizerConfig, SpError> {
    Err(SpError::NotModelProto("no pieces".to_string()))
}

fn load(text: &str) -> NativeTokenizer {
    NativeTokenizer::from_tokenizer_json_bytes(text.as_bytes(), no_model)
        .ok()
        .expect("a tokenizer")
}

fn refused(bytes: &[u8]) -> TokenizerError {
    NativeTokenizer::from_tokenizer_json_bytes(bytes, no_model)
        .err()
        .expect("refused")
}

fn bpe_config() -> TokenizerConfig {
    // Vocab covers single bytes h,e,l,o plus the merge "ll".
    let vocab = VocabTable::new(vec![
        b"h".to_vec(),
        b"e".to_vec(),
        b"l".to_vec(),
        b"o".to_vec(),
        b"ll".to_vec(),
    ]);
    let merges = MergeRules {
        merges: vec![Merge { left: b"l".to_vec(), right: b"l".to_vec() }],
    };
    TokenizerConfig {
        algorithm: TokenizerAlgorithm::Bpe { vocab, merges },
        special_tokens: SpecialTokens {
            bos_id: None,
            // Out of the content-token range (vocab ids 0..5) so decode's eos
            // filtering never drops a real token.
            eos_id: 100,
            pad_id: None,
            unk_id: None,
            additional: VocabMap::new(),
        },
        normalization: NormalizationConfig::Nothing,
        pre_tokenizer: PreTokenizerConfig::Nothing,
        byte_fallback: false,
        add_bos: false,
        add_eos: false,
    }
}

/// A piece encoder for the vocabulary above: one merge, greedily.
fn encode_piece(tok: &NativeTokenizer, piece: &str) -> Vec<u32> {
    let mut ids = Vec::new();
    let mut rest = piece;
    while !rest.is_empty() {
        let n = if rest.starts_with("ll") { 2 } else { 1 };
        ids.push(tok.token_to_id(&rest[..n]).expect("in the vocabulary"));
        rest = &rest[n..];
    }
    ids
}

fn decode_pieces(tok: &NativeTokenizer, ids: &[u32]) -> String {
    ids.iter().filter_map(|id| tok.id_to_token(*id)).collect()
}

#[test]
fn from_config_bpe_encodes_with_merges() {
    let tok = NativeTokenizer::from_config(bpe_config());
    // "hello" → h, e, ll (merged), o  → ids [0, 1, 4, 3]
    assert_eq!(
        tok.encode("hello", |p: &str| encode_piece(&tok, p)),
        vec![0, 1, 4, 3]
    );
    assert_eq!(tok.vocab_size(), 5);
}

#[test]
fn from_config_decode_roundtrips() {
    let tok = NativeTokenizer::from_config(bpe_config());
    let ids = tok.encode("hello", |p: &str| encode_piece(&tok, p));
    assert_eq!(
        tok.decode(&ids, |ids: &Vec<u32>| decode_pieces(&tok, ids)),
        "hello"
    );
}

#[test]
fn eos_resolves_from_sibling_tokenizer_config() {
    let tokenizer_json = r#"{
            "model": {
                "type": "BPE",
                "vocab": {"h": 0, "e": 1, "l": 2, "o": 3, "ll": 4, "<|im_end|>": 5},
                "merges": ["l l"],
                "byte_fallback": false
            },
            "post_processor": {"type": "ByteLevel"},
            "added_tokens": [
                {"id": 5, "content": "<|im_end|>", "special": true}
            ]
        }"#;

    // Without the config: eos falls back to the default 2, and the presence of a
    // post_processor coarsely implies add_bos.
    let bare = load(tokenizer_json);
    assert_eq!(bare.eos_token_id(), 2, "no config ⇒ documented default");
    assert!(bare.config.add_bos, "post_processor ⇒ coarse add_bos");

    // With the sibling config naming `<|im_end|>`: eos resolves to id 5.
    let mut tok = load(tokenizer_json);
    tok.resolve_special_tokens(br#"{"eos_token": "<|im_end|>", "add_bos_token": false}"#);
    assert_eq!(
        tok.eos_token_id(),
        5,
        "eos must come from the model's own config, not the Llama default"
    );
    assert!(
        !tok.config.add_bos,
        "the model's own add_bos_token: false must override the post_processor heuristic"
    );

    // The AddedToken object form (`{content}`) resolves identically.
    let mut tok = load(tokenizer_json);
    tok.resolve_special_tokens(br#"{"eos_token": {"content": "<|im_end|>", "special": true}}"#);
    assert_eq!(tok.eos_token_id(), 5);

    // What is no JSON, or names an unknown token, leaves the tokenizer alone.
    let mut tok = load(tokenizer_json);
    tok.resolve_special_tokens(b"not json");
    tok.resolve_special_tokens(br#"{"eos_token": "<|nowhere|>"}"#);
    assert_eq!(tok.eos_token_id(), 2);
    assert!(tok.config.add_bos);
}

#[test]
fn each_refused_tokenizer_has_its_own_error() {
    assert!(matches!(refused(b"{\"a\":"), TokenizerError::Json));
    assert!(matches!(refused(b"{}"), TokenizerError::MissingType));
    assert!(matches!(
        refused(br#"{"model":{"type":"Other"}}"#),
        TokenizerError::UnsupportedType { name } if name == "Other"
    ));
    assert!(matches!(
        refused(br#"{"model":{"type":"BPE"}}"#),
        TokenizerError::MissingVocab
    ));
    assert!(matches!(
        refused(br#"{"model":{"type":"BPE","vocab":{}}}"#),
        TokenizerError::MissingMerges
    ));
    assert!(matches!(
        refused(br#"{"model":{"type":"Unigram","vocab":[1]}}"#),
        TokenizerError::VocabEntry
    ));
    assert!(matches!(
        refused(br#"{"model":{"type":"Unigram","vocab":[[1, -1.5]]}}"#),
        TokenizerError::VocabToken
    ));
    assert!(matches!(refused(b"IQ== 0\nIg== 1\n"), TokenizerError::TokenRanks));
    assert!(matches!(
        refused(b"\x0anonsense"),
        TokenizerError::Unrecognized { first: Some(_), .. }
    ));
    let refusing = |_: &[u8]| Err(SpError::Refused("a char model".to_string()));
    assert!(matches!(
        NativeTokenizer::from_tokenizer_json_bytes(&[0x0A, 0x01], refusing).err(),
        Some(TokenizerError::Refused { .. })
    ));
}

#[test]
fn leading_marks_and_white_space_are_stripped() {
    assert_eq!(strip_bom_and_ws(b"\xEF\xBB\xBF \n{}"), b"{}");
    assert_eq!(strip_bom_and_ws(b"x "), b"x ");
    assert_eq!(strip_bom_and_ws(b""), b"");
    assert!(looks_like_tiktoken_ranks(b"IQ== 0\n"));
    assert!(!looks_like_tiktoken_ranks(b"{\"a\": 0}"));
}

#[test]
fn byte_pieces_name_one_byte() {
    assert_eq!(parse_byte_fallback("<0x0A>"), Some(0x0A));
    assert_eq!(parse_byte_fallback("<0xff>"), Some(0xFF));
    assert_eq!(parse_byte_fallback("<0x0G>"), None);
    assert_eq!(parse_byte_fallback("hello"), None);
}

const UNIGRAM: &str = r#"{
    "model": {
        "type": "Unigram",
        "vocab": [["<unk>", 0.0], ["</s>", 0.0], ["▁he", -1.5], ["llo", -2.25], ["<0x21>", -9.0], ["<0xFF>", -9.0]],
        "byte_fallback": true
    },
    "pre_tokenizer": {"type": "Metaspace", "replacement": "▁", "add_prefix_space": true},
    "added_tokens": [{"id": 1, "content": "</s>"}]
}"#;

#[test]
fn metaspace_pieces_decode_to_text() {
    let tok = load(UNIGRAM);
    assert_eq!(tok.eos_token_id(), 1);
    let unused = |_: &Vec<u32>| String::new();
    assert_eq!(tok.decode(&[2, 3, 4, 1], unused), "hello!");
    assert_eq!(tok.decode(&[2, 3, 2, 3], unused), "hello hello");
    assert_eq!(
        tok.decode(&[3, 5], unused),
        "llo\u{FFFD}",
        "bytes that are no text are replaced"
    );
    match &tok.config.algorithm {
        TokenizerAlgorithm::Unigram { score_bits, .. } => {
            assert_eq!(f64::from_bits(score_bits[3]), -2.25);
        }
        _ => panic!("a unigram model"),
    }
    assert_eq!(tok.encoder_inputs("a b"), vec!["▁a▁b".to_string()]);
}

fn unigram_config(normalization: NormalizationConfig) -> TokenizerConfig {
    TokenizerConfig {
        algorithm: TokenizerAlgorithm::Unigram {
            vocab: VocabTable::new(vec![b" a".to_vec(), b" b".to_vec()]),
            score_bits: vec![0, 0],
        },
        normalization,
        ..bpe_config()
    }
}

#[test]
fn normalization_leaves_no_extra_space_and_prepends_one() {
    let steps = vec![NormStep::RemoveExtraWhitespace, NormStep::PrependSpace];
    let tok = NativeTokenizer::from_config(unigram_config(NormalizationConfig::Sequence(steps)));
    let normalized: String = tok.normalize("  a   b ").into_iter().collect();
    assert_eq!(normalized, " a b");
    assert_eq!(tok.encoder_inputs("  a   b "), vec![" a b".to_string()]);
    // The space that was put in front is taken off again.
    let unused = |_: &Vec<u32>| String::new();
    assert_eq!(tok.decode(&[0, 1], unused), "a b");

    let plain = NativeTokenizer::from_config(unigram_config(NormalizationConfig::Nfc));
    let same: String = plain.normalize("  a ").into_iter().collect();
    assert_eq!(same, "  a ", "other normalizations are on record, not applied");
    assert_eq!(plain.decode(&[0, 1], unused), " a b");
}

#[test]
fn begin_and_end_tokens_frame_an_encoding_and_do_not_decode() {
    let mut config = unigram_config(NormalizationConfig::Nothing);
    config.add_bos = true;
    config.add_eos = true;
    config.special_tokens.bos_id = Some(7);
    let tok = NativeTokenizer::from_config(config);
    assert_eq!(tok.bos_token_id(), Some(7));
    let ids = tok.encode("x", |_: &str| vec![1]);
    assert_eq!(ids, vec![7, 1, 100]);
    assert_eq!(tok.decode(&ids, |_: &Vec<u32>| String::new()), " b");
}

#[test]
fn word_pieces_are_split_at_white_space_and_joined() {
    let config = TokenizerConfig {
        algorithm: TokenizerAlgorithm::WordPiece {
            vocab: VocabTable::new(vec![b"un".to_vec(), b"##do".to_vec()]),
            continuing_subword_prefix: "##".to_string(),
            max_input_chars_per_word: 100,
        },
        ..bpe_config()
    };
    let tok = NativeTokenizer::from_config(config);
    assert_eq!(
        tok.encoder_inputs(" undo\tit "),
        vec!["undo".to_string(), "it".to_string()]
    );
    assert_eq!(tok.decode(&[0, 1, 9], |_: &Vec<u32>| String::new()), "un##do");
}

#[test]
fn tokens_are_counted_with_their_specials() {
    let tok = load(UNIGRAM);
    let n = tok.encode("hello", |_: &str| vec![2, 3]).len();
    assert_eq!(
        tok.count_tokens("hello", |_: &str| vec![2, 3]),
        Some(n as u32)
    );
}

#[test]
fn vocabularies_answer_both_ways() {
    let mut map = VocabMap::new();
    map.insert("a", 1);
    map.insert("a", 2);
    map.insert_new("a", 9);
    map.insert_new("b", 0);
    assert_eq!(map.get("a"), Some(2));
    assert_eq!(map.get("b"), Some(0));
    assert_eq!(map.get("c"), None);
    let table = VocabTable::from_vocab_map(map);
    assert_eq!(table.len(), 3);
    assert_eq!(VocabTable::from_vocab_map(VocabMap::new()).len(), 0);
    assert_eq!(table.id_to_str(1), Some(""));
    assert_eq!(table.id_to_str(2), Some("a"));
    assert_eq!(table.str_to_id("b"), Some(0));
    assert_eq!(table.token(7), None);
}

fn json(text: &str) -> Json {
    read_json(text.as_bytes()).expect("a JSON text")
}

#[test]
fn json_texts_are_read() {
    let j = json(r#"{"a": [1, -2, 0.5, null, true, "x"], "b": {"c": 18446744073709551615}}"#);
    let items = j.array_at("a").expect("an array");
    assert_eq!(items[0].as_u64(), Some(1));
    assert_eq!(items[1].as_u64(), None);
    assert_eq!(items[2].as_double_bits().map(f64::from_bits), Some(0.5));
    assert!(items[3].is_null());
    assert_eq!(items[4].as_bool(), Some(true));
    assert_eq!(items[5].as_str(), Some("x"));
    assert_eq!(j.get("b").and_then(|b| b.u64_at("c")), Some(u64::MAX));
    assert!(j.get("z").is_none());
    assert!(read_json(b"{").is_none());
    assert_eq!(special_token_content(&json("\"<s>\"")), Some("<s>"));
    assert_eq!(special_token_content(&json("{\"content\": \"</s>\"}")), Some("</s>"));
    assert_eq!(special_token_content(&json("1")), None);
}

#[test]
fn pre_tokenizers_and_normalizers_are_read() {
    assert!(matches!(
        parse_pre_tokenizer(&json(r#"{"pre_tokenizer": {"type": "ByteLevel"}}"#)),
        PreTokenizerConfig::ByteLevel { regex: None }
    ));
    assert!(matches!(
        parse_pre_tokenizer(&json("{}")),
        PreTokenizerConfig::Nothing
    ));
    assert!(matches!(
        parse_normalization(&json(r#"{"normalizer": {"type": "NFKC"}}"#)),
        NormalizationConfig::Nfkc
    ));
    assert!(matches!(
        parse_normalization(&json(r#"{"normalizer": null}"#)),
        NormalizationConfig::Nothing
    ));
    let special = parse_special_tokens(&json(
        r#"{"added_tokens": [{"id": 0, "content": "<unk>"}, {"id": 1, "content": "<s>"}, {"id": 9, "content": "</s>"}, {"id": 12, "content": "<tool>"}]}"#,
    ));
    assert_eq!(special.bos_id, Some(1));
    assert_eq!(special.eos_id, 9);
    assert_eq!(special.unk_id, Some(0));
}

#[test]
fn other_models_are_read() {
    let unigram = from_unigram_json(&json(UNIGRAM)).ok().expect("unigram");
    assert!(unigram.byte_fallback);
    let wordpiece = from_wordpiece_json(&json(
        r###"{"model": {"type": "WordPiece", "vocab": {"[UNK]": 0, "##s": 1}, "continuing_subword_prefix": "##"}}"###,
    ))
    .ok()
    .expect("wordpiece");
    match wordpiece.algorithm {
        TokenizerAlgorithm::WordPiece { continuing_subword_prefix, max_input_chars_per_word, .. } => {
            assert_eq!(continuing_subword_prefix, "##");
            assert_eq!(max_input_chars_per_word, 200);
        }
        _ => panic!("a wordpiece model"),
    }
}
