//! Tokenizer configurations, and how they are read from `tokenizer.json`.

use crate::json::{Json, JsonV};
use crate::text::{chars_of, copy_str, same_text};
use crate::vocab::{MergeRules, VocabMap, VocabTable};
use vstd::prelude::*;

verus! {

/// The special tokens of a vocabulary.
pub struct SpecialTokens {
    pub bos_id: Option<u32>,
    pub eos_id: u32,
    pub pad_id: Option<u32>,
    pub unk_id: Option<u32>,
    /// Every other added token that is marked as special.
    pub additional: VocabMap,
}

/// One step of a normalization sequence.
#[derive(Debug, Clone, Copy, PartialEq, Eq, Structural)]
pub enum NormStep {
    /// Drop leading and trailing spaces and keep one of each run of spaces.
    RemoveExtraWhitespace,
    /// Put a space in front.
    PrependSpace,
    /// A step that is on record but not applied.
    Other,
}

/// How a text is normalized.
pub enum NormalizationConfig {
    Nothing,
    Nfc,
    Nfkc,
    PrependSpace,
    Sequence(Vec<NormStep>),
}

/// How a text is split before it is encoded.
pub enum PreTokenizerConfig {
    Nothing,
    /// Spaces are written as `replacement`, with one in front if `prepend`.
    Metaspace { replacement: char, prepend: bool },
    Regex(String),
    ByteLevel { regex: Option<String> },
}

/// The encoding algorithm with its vocabulary.
pub enum TokenizerAlgorithm {
    Bpe { vocab: VocabTable, merges: MergeRules },
    /// The scores are double-precision bits, one a token.
    Unigram { vocab: VocabTable, score_bits: Vec<u64> },
    WordPiece {
        vocab: VocabTable,
        continuing_subword_prefix: String,
        max_input_chars_per_word: usize,
    },
}

/// A tokenizer's configuration.
pub struct TokenizerConfig {
    pub algorithm: TokenizerAlgorithm,
    pub special_tokens: SpecialTokens,
    pub normalization: NormalizationConfig,
    pub pre_tokenizer: PreTokenizerConfig,
    pub byte_fallback: bool,
    pub add_bos: bool,
    pub add_eos: bool,
}

/// Why a tokenizer cannot be loaded.
#[derive(Debug, Clone, PartialEq, Eq)]
pub enum TokenizerError {
    /// The bytes are no JSON text.
    Json,
    /// The model has no type.
    MissingType,
    /// The model's type is not supported.
    UnsupportedType { name: String },
    /// The model has no vocabulary.
    MissingVocab,
    /// The model has no merges.
    MissingMerges,
    /// A vocabulary entry is not a token and a score.
    VocabEntry,
    /// A vocabulary token is not a string.
    VocabToken,
    /// The bytes are token ranks, which do not determine a tokenizer.
    TokenRanks,
    /// The SentencePiece model is refused.
    Refused { why: String },
    /// The bytes are of no known form; `first` is their first byte behind a
    /// byte-order mark and white space.
    Unrecognized { first: Option<u8>, why: String },
}

/// The low 32 bits of a number.
pub open spec fn low32(n: u64) -> u32 {
    (n % 0x1_0000_0000) as u32
}

fn low_bits(n: u64) -> (r: u32)
    ensures
        r == low32(n),
{
    (n % 0x1_0000_0000) as u32
}

/// The special tokens found so far.
#[verifier::ext_equal]
pub struct SpecialV {
    pub bos: Option<u32>,
    pub eos: Option<u32>,
    pub pad: Option<u32>,
    pub unk: Option<u32>,
    pub additional: Map<Seq<char>, u32>,
}

/// The text of an added token, empty where it has none.
pub open spec fn added_content(t: JsonV) -> Seq<char> {
    match crate::json::text_of(crate::json::at(t, "content"@)) {
        Some(s) => s,
        None => ""@,
    }
}

/// The id of an added token, 0 where it has none.
pub open spec fn added_id(t: JsonV) -> u32 {
    match crate::json::unsigned_of(crate::json::at(t, "id"@)) {
        Some(n) => low32(n),
        None => 0,
    }
}

/// Whether an added token is marked as special.
pub open spec fn added_special(t: JsonV) -> bool {
    crate::json::bool_of(crate::json::at(t, "special"@)) == Some(true)
}

/// The special tokens of a list of added tokens; of several with one role the
/// last counts.
pub open spec fn special_scan(items: Seq<JsonV>) -> SpecialV
    decreases items.len(),
{
    if items.len() == 0 {
        SpecialV { bos: None, eos: None, pad: None, unk: None, additional: Map::empty() }
    } else {
        let front = special_scan(items.drop_last());
        let t = items.last();
        let content = added_content(t);
        let id = added_id(t);
        if content == "<s>"@ {
            SpecialV { bos: Some(id), ..front }
        } else if content == "</s>"@ {
            SpecialV { eos: Some(id), ..front }
        } else if content == "<unk>"@ {
            SpecialV { unk: Some(id), ..front }
        } else if content == "<pad>"@ {
            SpecialV { pad: Some(id), ..front }
        } else if added_special(t) {
            SpecialV { additional: front.additional.insert(content, id), ..front }
        } else {
            front
        }
    }
}

/// The added tokens of a tokenizer.
pub open spec fn added_tokens(json: JsonV) -> Seq<JsonV> {
    match crate::json::items_of(crate::json::at(json, "added_tokens"@)) {
        Some(items) => items,
        None => Seq::empty(),
    }
}

/// Whether special tokens are those of a tokenizer; without an end token the
/// id is 2.
pub open spec fn special_tokens_match(s: SpecialTokens, json: JsonV) -> bool {
    let v = special_scan(added_tokens(json));
    &&& s.bos_id == v.bos
    &&& s.eos_id == (match v.eos {
        Some(id) => id,
        None => 2u32,
    })
    &&& s.pad_id == v.pad
    &&& s.unk_id == v.unk
    &&& s.additional@ == v.additional
}

/// The special tokens of a tokenizer.
pub fn parse_special_tokens(json: &Json) -> (r: SpecialTokens)
    ensures
        special_tokens_match(r, json@),
{
    let mut bos_id: Option<u32> = None;
    let mut eos_id: Option<u32> = None;
    let mut unk_id: Option<u32> = None;
    let mut pad_id: Option<u32> = None;
    let mut additional = VocabMap::new();
    if let Some(items) = json.array_at("added_tokens") {
        let ghost views = crate::json::item_views(items@);
        let mut i: usize = 0;
        proof {
            crate::json::lemma_item_views(items@);
            assert(views.take(0) =~= Seq::empty());
        }
        while i < items.len()
            invariant
                i <= items@.len(),
                views == crate::json::item_views(items@),
                views.len() == items@.len(),
                forall|k: int| 0 <= k < items@.len() ==> #[trigger] views[k] == items@[k]@,
                special_scan(views.take(i as int)) == (SpecialV {
                    bos: bos_id,
                    eos: eos_id,
                    pad: pad_id,
                    unk: unk_id,
                    additional: additional@,
                }),
            decreases items@.len() - i,
        {
            let t = &items[i];
            proof {
                assert(views.take(i + 1).drop_last() =~= views.take(i as int));
                assert(views.take(i + 1).last() == t@);
            }
            let id: u32 = match t.u64_at("id") {
                Some(n) => low_bits(n),
                None => 0,
            };
            let content = match t.text_at("content") {
                Some(s) => s,
                None => "",
            };
            let special: bool = match t.bool_at("special") {
                Some(b) => b,
                None => false,
            };
            if same_text(content, "<s>") {
                bos_id = Some(id);
            } else if same_text(content, "</s>") {
                eos_id = Some(id);
            } else if same_text(content, "<unk>") {
                unk_id = Some(id);
            } else if same_text(content, "<pad>") {
                pad_id = Some(id);
            } else if special {
                additional.insert(content, id);
            }
            i += 1;
        }
        proof {
            assert(views.take(views.len() as int) =~= views);
        }
    }
    SpecialTokens {
        bos_id,
        eos_id: match eos_id {
            Some(id) => id,
            None => 2,
        },
        pad_id,
        unk_id,
        additional,
    }
}

/// The model of a [`PreTokenizerConfig`].
pub enum PreV {
    Nothing,
    Metaspace { replacement: char, prepend: bool },
    Regex(Seq<char>),
    ByteLevel { regex: Option<Seq<char>> },
}

/// The model of an optional text.
pub open spec fn text_view(s: Option<String>) -> Option<Seq<char>> {
    match s {
        Some(t) => Some(t@),
        None => None,
    }
}

impl View for PreTokenizerConfig {
    type V = PreV;

    open spec fn view(&self) -> PreV {
        match self {
            PreTokenizerConfig::Nothing => PreV::Nothing,
            PreTokenizerConfig::Metaspace { replacement, prepend } => PreV::Metaspace {
                replacement: *replacement,
                prepend: *prepend,
            },
            PreTokenizerConfig::Regex(s) => PreV::Regex(s@),
            PreTokenizerConfig::ByteLevel { regex } => PreV::ByteLevel { regex: text_view(*regex) },
        }
    }
}

/// The type of a pre-tokenizer.
pub open spec fn type_of(pt: JsonV) -> Option<Seq<char>> {
    crate::json::text_of(crate::json::at(pt, "type"@))
}

/// A metaspace pre-tokenizer: the replacement is the first character of its
/// text, a lower one-eighth block by default; it is put in front where the
/// scheme says so, and else where `add_prefix_space` does not deny it.
pub open spec fn metaspace_of(pt: JsonV) -> PreV {
    let scheme = crate::json::text_of(crate::json::at(pt, "prepend_scheme"@));
    PreV::Metaspace {
        replacement: match crate::json::text_of(crate::json::at(pt, "replacement"@)) {
            Some(s) => if s.len() > 0 {
                s[0]
            } else {
                '\u{2581}'
            },
            None => '\u{2581}',
        },
        prepend: if scheme == Some("first"@) || scheme == Some("always"@) {
            true
        } else {
            crate::json::bool_of(crate::json::at(pt, "add_prefix_space"@)) != Some(false)
        },
    }
}

/// The pattern of a split pre-tokenizer.
pub open spec fn split_pattern(pt: JsonV) -> Option<Seq<char>> {
    crate::json::text_of(crate::json::at(crate::json::at(pt, "pattern"@), "Regex"@))
}

/// What a sequence of pre-tokenizers holds: its first metaspace, and before
/// that, the pattern of the last split and whether there is a byte level.
#[verifier::ext_equal]
pub struct SequenceV {
    pub metaspace: Option<PreV>,
    pub regex: Option<Seq<char>>,
    pub byte_level: bool,
}

/// Scan a sequence of pre-tokenizers.
pub open spec fn sequence_scan(subs: Seq<JsonV>) -> SequenceV
    decreases subs.len(),
{
    if subs.len() == 0 {
        SequenceV { metaspace: None, regex: None, byte_level: false }
    } else {
        let front = sequence_scan(subs.drop_last());
        let sub = subs.last();
        if front.metaspace is Some {
            front
        } else if type_of(sub) == Some("Split"@) {
            SequenceV { regex: split_pattern(sub), ..front }
        } else if type_of(sub) == Some("ByteLevel"@) {
            SequenceV { byte_level: true, ..front }
        } else if type_of(sub) == Some("Metaspace"@) {
            SequenceV { metaspace: Some(metaspace_of(sub)), ..front }
        } else {
            front
        }
    }
}

/// A sequence of pre-tokenizers: a metaspace decides alone, a byte level takes
/// the pattern of the split, and a pattern alone stands for itself.
pub open spec fn sequence_of(subs: Seq<JsonV>) -> PreV {
    let s = sequence_scan(subs);
    match s.metaspace {
        Some(m) => m,
        None => if s.byte_level {
            PreV::ByteLevel { regex: s.regex }
        } else {
            match s.regex {
                Some(p) => PreV::Regex(p),
                None => PreV::Nothing,
            }
        },
    }
}

/// The pre-tokenizer that a JSON value describes.
pub open spec fn pre_tokenizer_of(pt: JsonV) -> PreV {
    let kind = type_of(pt);
    if kind == Some("Metaspace"@) {
        metaspace_of(pt)
    } else if kind == Some("Split"@) {
        match split_pattern(pt) {
            Some(p) => PreV::Regex(p),
            None => PreV::Nothing,
        }
    } else if kind == Some("ByteLevel"@) {
        PreV::ByteLevel { regex: None }
    } else if kind == Some("Sequence"@) {
        match crate::json::items_of(crate::json::at(pt, "pretokenizers"@)) {
            Some(subs) => sequence_of(subs),
            None => PreV::Nothing,
        }
    } else {
        PreV::Nothing
    }
}

fn parse_metaspace(pt: &Json) -> (r: PreTokenizerConfig)
    ensures
        r@ == metaspace_of(pt@),
{
    let replacement: char = match pt.text_at("replacement") {
        Some(s) => {
            let chars = chars_of(s);
            if chars.len() > 0 {
                chars[0]
            } else {
                '\u{2581}'
            }
        },
        None => '\u{2581}',
    };
    let named: bool = match pt.text_at("prepend_scheme") {
        Some(s) => same_text(s, "first") || same_text(s, "always"),
        None => false,
    };
    let prepend: bool = if named {
        true
    } else {
        match pt.bool_at("add_prefix_space") {
            Some(b) => b,
            None => true,
        }
    };
    PreTokenizerConfig::Metaspace { replacement, prepend }
}

fn parse_split_pattern(pt: &Json) -> (r: Option<String>)
    ensures
        text_view(r) == split_pattern(pt@),
{
    match pt.get("pattern") {
        Some(p) => match p.text_at("Regex") {
            Some(s) => Some(copy_str(s)),
            None => None,
        },
        None => None,
    }
}

proof fn lemma_sequence_scan_stops(subs: Seq<JsonV>, n: int)
    requires
        0 <= n <= subs.len(),
        sequence_scan(subs.take(n)).metaspace is Some,
    ensures
        sequence_scan(subs) == sequence_scan(subs.take(n)),
    decreases subs.len(),
{
    if n == subs.len() {
        assert(subs.take(n) =~= subs);
    } else {
        assert(subs.drop_last().take(n) =~= subs.take(n));
        lemma_sequence_scan_stops(subs.drop_last(), n);
    }
}

fn parse_sequence(subs: &Vec<Json>) -> (r: PreTokenizerConfig)
    ensures
        r@ == sequence_of(crate::json::item_views(subs@)),
{
    let ghost views = crate::json::item_views(subs@);
    let mut regex: Option<String> = None;
    let mut has_byte_level: bool = false;
    let mut i: usize = 0;
    proof {
        crate::json::lemma_item_views(subs@);
        assert(views.take(0) =~= Seq::empty());
    }
    while i < subs.len()
        invariant
            i <= subs@.len(),
            views == crate::json::item_views(subs@),
            views.len() == subs@.len(),
            forall|k: int| 0 <= k < subs@.len() ==> #[trigger] views[k] == subs@[k]@,
            sequence_scan(views.take(i as int)) == (SequenceV {
                metaspace: None,
                regex: text_view(regex),
                byte_level: has_byte_level,
            }),
        decreases subs@.len() - i,
    {
        let sub = &subs[i];
        proof {
            assert(views.take(i + 1).drop_last() =~= views.take(i as int));
            assert(views.take(i + 1).last() == sub@);
        }
        let kind = match sub.text_at("type") {
            Some(s) => s,
            None => {
                i += 1;
                continue ;
            },
        };
        if same_text(kind, "Split") {
            regex = parse_split_pattern(sub);
        } else if same_text(kind, "ByteLevel") {
            has_byte_level = true;
        } else if same_text(kind, "Metaspace") {
            proof {
                lemma_sequence_scan_stops(views, i + 1);
            }
            return parse_metaspace(sub);
        }
        i += 1;
    }
    proof {
        assert(views.take(views.len() as int) =~= views);
    }
    if has_byte_level {
        PreTokenizerConfig::ByteLevel { regex }
    } else {
        match regex {
            Some(pattern) => PreTokenizerConfig::Regex(pattern),
            None => PreTokenizerConfig::Nothing,
        }
    }
}

/// The pre-tokenizer that a JSON value describes.
pub fn parse_pre_tokenizer_value(pt: &Json) -> (r: PreTokenizerConfig)
    ensures
        r@ == pre_tokenizer_of(pt@),
{
    let kind = match pt.text_at("type") {
        Some(s) => s,
        None => {
            return PreTokenizerConfig::Nothing;
        },
    };
    if same_text(kind, "Metaspace") {
        parse_metaspace(pt)
    } else if same_text(kind, "Split") {
        match parse_split_pattern(pt) {
            Some(pattern) => PreTokenizerConfig::Regex(pattern),
            None => PreTokenizerConfig::Nothing,
        }
    } else if same_text(kind, "ByteLevel") {
        PreTokenizerConfig::ByteLevel { regex: None }
    } else if same_text(kind, "Sequence") {
        match pt.array_at("pretokenizers") {
            Some(subs) => parse_sequence(subs),
            None => PreTokenizerConfig::Nothing,
        }
    } else {
        PreTokenizerConfig::Nothing
    }
}

/// The pre-tokenizer of a tokenizer: none where it is absent or `null`.
pub open spec fn pre_tokenizer_in(json: JsonV) -> PreV {
    match crate::json::member(json, "pre_tokenizer"@) {
        Some(v) => if v == JsonV::Null {
            PreV::Nothing
        } else {
            pre_tokenizer_of(v)
        },
        None => PreV::Nothing,
    }
}

/// The pre-tokenizer of a tokenizer.
pub fn parse_pre_tokenizer(json: &Json) -> (r: PreTokenizerConfig)
    ensures
        r@ == pre_tokenizer_in(json@),
{
    match json.get("pre_tokenizer") {
        Some(v) => if v.is_null() {
            PreTokenizerConfig::Nothing
        } else {
            parse_pre_tokenizer_value(v)
        },
        None => PreTokenizerConfig::Nothing,
    }
}

/// The model of a [`NormalizationConfig`].
pub enum NormV {
    Nothing,
    Nfc,
    Nfkc,
    PrependSpace,
    Sequence(Seq<NormStep>),
}

impl View for NormalizationConfig {
    type V = NormV;

    open spec fn view(&self) -> NormV {
        match self {
            NormalizationConfig::Nothing => NormV::Nothing,
            NormalizationConfig::Nfc => NormV::Nfc,
            NormalizationConfig::Nfkc => NormV::Nfkc,
            NormalizationConfig::PrependSpace => NormV::PrependSpace,
            NormalizationConfig::Sequence(steps) => NormV::Sequence(steps@),
        }
    }
}

/// The normalization of a tokenizer.
pub open spec fn normalization_in(json: JsonV) -> NormV {
    let kind = type_of(crate::json::at(json, "normalizer"@));
    if kind == Some("NFC"@) {
        NormV::Nfc
    } else if kind == Some("NFKC"@) {
        NormV::Nfkc
    } else if kind == Some("Prepend"@) {
        NormV::PrependSpace
    } else {
        NormV::Nothing
    }
}

/// The normalization of a tokenizer.
pub fn parse_normalization(json: &Json) -> (r: NormalizationConfig)
    ensures
        r@ == normalization_in(json@),
{
    let norm = match json.get("normalizer") {
        Some(v) => v,
        None => {
            return NormalizationConfig::Nothing;
        },
    };
    let kind = match norm.text_at("type") {
        Some(s) => s,
        None => {
            return NormalizationConfig::Nothing;
        },
    };
    if same_text(kind, "NFC") {
        NormalizationConfig::Nfc
    } else if same_text(kind, "NFKC") {
        NormalizationConfig::Nfkc
    } else if same_text(kind, "Prepend") {
        NormalizationConfig::PrependSpace
    } else {
        NormalizationConfig::Nothing
    }
}

/// The ids of the members of a vocabulary object; a value that is no unsigned
/// integer counts as 0.
pub open spec fn member_ids(members: Seq<(Seq<char>, JsonV)>) -> Map<Seq<char>, u32>
    decreases members.len(),
{
    if members.len() == 0 {
        Map::empty()
    } else {
        let (key, value) = members.last();
        member_ids(members.drop_last()).insert(
            key,
            match crate::json::unsigned_of(value) {
                Some(n) => low32(n),
                None => 0u32,
            },
        )
    }
}

/// A vocabulary with added tokens merged in: each with a text and an id, where
/// the text has no id yet.
pub open spec fn with_added(vocab: Map<Seq<char>, u32>, items: Seq<JsonV>) -> Map<Seq<char>, u32>
    decreases items.len(),
{
    if items.len() == 0 {
        vocab
    } else {
        let front = with_added(vocab, items.drop_last());
        let t = items.last();
        let content = added_content(t);
        match crate::json::unsigned_of(crate::json::at(t, "id"@)) {
            Some(n) => if content.len() > 0 && !front.dom().contains(content) {
                front.insert(content, low32(n))
            } else {
                front
            },
            None => front,
        }
    }
}

fn vocab_of_members(members: &Vec<crate::json::Member>) -> (r: VocabMap)
    ensures
        r@ == member_ids(crate::json::member_views(members@)),
{
    let ghost views = crate::json::member_views(members@);
    let mut vocab = VocabMap::new();
    let mut i: usize = 0;
    proof {
        crate::json::lemma_member_views(members@);
        assert(views.take(0) =~= Seq::empty());
    }
    while i < members.len()
        invariant
            i <= members@.len(),
            views == crate::json::member_views(members@),
            views.len() == members@.len(),
            forall|k: int|
                0 <= k < members@.len() ==> #[trigger] views[k] == (
                    members@[k].key@,
                    members@[k].value@,
                ),
            vocab@ == member_ids(views.take(i as int)),
        decreases members@.len() - i,
    {
        let m = &members[i];
        proof {
            assert(views.take(i + 1).drop_last() =~= views.take(i as int));
            assert(views.take(i + 1).last() == (m.key@, m.value@));
        }
        let id: u32 = match m.value.as_u64() {
            Some(n) => low_bits(n),
            None => 0,
        };
        vocab.insert(m.key.as_str(), id);
        i += 1;
    }
    proof {
        assert(views.take(views.len() as int) =~= views);
    }
    vocab
}

fn merge_added(vocab: &mut VocabMap, items: &Vec<Json>)
    ensures
        final(vocab)@ == with_added(old(vocab)@, crate::json::item_views(items@)),
{
    let ghost views = crate::json::item_views(items@);
    let ghost base = vocab@;
    let mut i: usize = 0;
    proof {
        crate::json::lemma_item_views(items@);
        assert(views.take(0) =~= Seq::empty());
        reveal_strlit("");
    }
    while i < items.len()
        invariant
            i <= items@.len(),
            base == old(vocab)@,
            views == crate::json::item_views(items@),
            views.len() == items@.len(),
            forall|k: int| 0 <= k < items@.len() ==> #[trigger] views[k] == items@[k]@,
            vocab@ == with_added(base, views.take(i as int)),
        decreases items@.len() - i,
    {
        let t = &items[i];
        proof {
            reveal_strlit("");
            assert(views.take(i + 1).drop_last() =~= views.take(i as int));
            assert(views.take(i + 1).last() == t@);
        }
        let content = match t.text_at("content") {
            Some(s) => s,
            None => "",
        };
        if let Some(n) = t.u64_at("id") {
            let chars = chars_of(content);
            if chars.len() > 0 {
                vocab.insert_new(content, low_bits(n));
            }
        }
        i += 1;
    }
    proof {
        assert(views.take(views.len() as int) =~= views);
    }
}

/// The model of a tokenizer.
pub open spec fn model_of(json: JsonV) -> JsonV {
    crate::json::at(json, "model"@)
}

/// What every algorithm has in common: special tokens, normalization and
/// pre-tokenizer are those of the tokenizer, and no end token is added.
pub open spec fn common_match(c: TokenizerConfig, json: JsonV) -> bool {
    &&& special_tokens_match(c.special_tokens, json)
    &&& c.normalization@ == normalization_in(json)
    &&& c.pre_tokenizer@ == pre_tokenizer_in(json)
    &&& !c.add_eos
}

/// Whether the model asks for byte fallback.
pub open spec fn falls_back(json: JsonV) -> bool {
    crate::json::bool_of(crate::json::at(model_of(json), "byte_fallback"@)) == Some(true)
}

/// Whether the tokenizer has a post-processor.
pub open spec fn has_post_processor(json: JsonV) -> bool {
    crate::json::member(json, "post_processor"@) is Some
}

/// Whether a result is that of loading a byte-pair encoding.
pub open spec fn bpe_loads(json: JsonV, r: Result<TokenizerConfig, TokenizerError>) -> bool {
    let model = model_of(json);
    match crate::json::members_of(crate::json::at(model, "vocab"@)) {
        None => r == Err::<TokenizerConfig, TokenizerError>(TokenizerError::MissingVocab),
        Some(members) => match crate::json::items_of(crate::json::at(model, "merges"@)) {
            None => r == Err::<TokenizerConfig, TokenizerError>(TokenizerError::MissingMerges),
            Some(items) => {
                &&& r matches Ok(c)
                &&& c.algorithm matches TokenizerAlgorithm::Bpe { vocab, merges }
                &&& vocab.ids() == with_added(member_ids(members), added_tokens(json))
                &&& crate::vocab::lists(vocab.tokens(), vocab.ids())
                &&& crate::vocab::merge_views(merges.merges@) == crate::vocab::merges_of(items)
                &&& common_match(c, json)
                &&& c.byte_fallback == falls_back(json)
                &&& c.add_bos == has_post_processor(json)
            },
        },
    }
}

/// Load a byte-pair encoding.
///
/// The added tokens live outside the model's vocabulary and are merged into it,
/// so that their ids resolve.
pub fn from_bpe_json(json: &Json) -> (r: Result<TokenizerConfig, TokenizerError>)
    ensures
        bpe_loads(json@, r),
{
    let model = match json.get("model") {
        Some(model) => model,
        None => {
            return Err(TokenizerError::MissingVocab);
        },
    };
    let members = match model.object_at("vocab") {
        Some(members) => members,
        None => {
            return Err(TokenizerError::MissingVocab);
        },
    };
    let mut map = vocab_of_members(members);
    if let Some(added) = json.array_at("added_tokens") {
        merge_added(&mut map, added);
    }
    let items = match model.array_at("merges") {
        Some(items) => items,
        None => {
            return Err(TokenizerError::MissingMerges);
        },
    };
    let merges = MergeRules::from_json_merges(items);
    let vocab = VocabTable::from_vocab_map(map);
    let byte_fallback: bool = match model.bool_at("byte_fallback") {
        Some(b) => b,
        None => false,
    };
    Ok(
        TokenizerConfig {
            algorithm: TokenizerAlgorithm::Bpe { vocab, merges },
            special_tokens: parse_special_tokens(json),
            normalization: parse_normalization(json),
            pre_tokenizer: parse_pre_tokenizer(json),
            byte_fallback,
            add_bos: json.get("post_processor").is_some(),
            add_eos: false,
        },
    )
}

/// The tokens of a scored vocabulary and the bits of their scores; a score that
/// is no number is 0.
pub open spec fn scored(entries: Seq<JsonV>) -> Result<(Seq<Seq<u8>>, Seq<u64>), TokenizerError>
    decreases entries.len(),
{
    if entries.len() == 0 {
        Ok((Seq::empty(), Seq::empty()))
    } else {
        match scored(entries.drop_last()) {
            Err(e) => Err(e),
            Ok((tokens, bits)) => match crate::json::items_of(entries.last()) {
                None => Err(TokenizerError::VocabEntry),
                Some(items) => if items.len() == 0 {
                    Err(TokenizerError::VocabEntry)
                } else {
                    match crate::json::text_of(items[0]) {
                        None => Err(TokenizerError::VocabToken),
                        Some(s) => if items.len() == 1 {
                            Err(TokenizerError::VocabEntry)
                        } else {
                            Ok(
                                (
                                    tokens.push(vstd::utf8::encode_utf8(s)),
                                    bits.push(
                                        match crate::json::double_bits_of(items[1]) {
                                            Some(b) => b,
                                            None => 0u64,
                                        },
                                    ),
                                ),
                            )
                        },
                    }
                },
            },
        }
    }
}

/// Whether a result is that of loading a unigram model.
pub open spec fn unigram_loads(json: JsonV, r: Result<TokenizerConfig, TokenizerError>) -> bool {
    match crate::json::items_of(crate::json::at(model_of(json), "vocab"@)) {
        None => r == Err::<TokenizerConfig, TokenizerError>(TokenizerError::MissingVocab),
        Some(entries) => match scored(entries) {
            Err(e) => r == Err::<TokenizerConfig, TokenizerError>(e),
            Ok((tokens, bits)) => {
                &&& r matches Ok(c)
                &&& c.algorithm matches TokenizerAlgorithm::Unigram { vocab, score_bits }
                &&& vocab.tokens() == tokens
                &&& vocab.ids() == crate::vocab::ids_of(tokens)
                &&& score_bits@ == bits
                &&& common_match(c, json)
                &&& c.byte_fallback == falls_back(json)
                &&& c.add_bos == has_post_processor(json)
            },
        },
    }
}

proof fn lemma_scored_stops(entries: Seq<JsonV>, n: int)
    requires
        0 <= n <= entries.len(),
        scored(entries.take(n)) is Err,
    ensures
        scored(entries) == scored(entries.take(n)),
    decreases entries.len(),
{
    if n == entries.len() {
        assert(entries.take(n) =~= entries);
    } else {
        assert(entries.drop_last().take(n) =~= entries.take(n));
        lemma_scored_stops(entries.drop_last(), n);
    }
}

/// Load a unigram model.
pub fn from_unigram_json(json: &Json) -> (r: Result<TokenizerConfig, TokenizerError>)
    ensures
        unigram_loads(json@, r),
{
    let model = match json.get("model") {
        Some(model) => model,
        None => {
            return Err(TokenizerError::MissingVocab);
        },
    };
    let entries = match model.array_at("vocab") {
        Some(entries) => entries,
        None => {
            return Err(TokenizerError::MissingVocab);
        },
    };
    let ghost views = crate::json::item_views(entries@);
    let mut tokens: Vec<Vec<u8>> = Vec::new();
    let mut score_bits: Vec<u64> = Vec::new();
    let mut i: usize = 0;
    proof {
        crate::json::lemma_item_views(entries@);
        assert(views.take(0) =~= Seq::empty());
        assert(crate::vocab::token_bytes(tokens@) =~= Seq::empty());
        assert(score_bits@ =~= Seq::empty());
    }
    while i < entries.len()
        invariant
            i <= entries@.len(),
            views == crate::json::item_views(entries@),
            views.len() == entries@.len(),
            crate::json::items_of(crate::json::at(model_of(json@), "vocab"@)) == Some(views),
            forall|k: int| 0 <= k < entries@.len() ==> #[trigger] views[k] == entries@[k]@,
            scored(views.take(i as int)) == Ok::<(Seq<Seq<u8>>, Seq<u64>), TokenizerError>(
                (crate::vocab::token_bytes(tokens@), score_bits@),
            ),
        decreases entries@.len() - i,
    {
        let entry = &entries[i];
        let ghost before = crate::vocab::token_bytes(tokens@);
        proof {
            assert(views.take(i + 1).drop_last() =~= views.take(i as int));
            assert(views.take(i + 1).last() == entry@);
        }
        let items = match entry.as_array() {
            Some(items) => items,
            None => {
                proof {
                    lemma_scored_stops(views, i + 1);
                }
                return Err(TokenizerError::VocabEntry);
            },
        };
        proof {
            crate::json::lemma_item_views(items@);
        }
        if items.len() == 0 {
            proof {
                lemma_scored_stops(views, i + 1);
            }
            return Err(TokenizerError::VocabEntry);
        }
        proof {
            assert(crate::json::item_views(items@)[0] == items@[0]@);
        }
        let token = match items[0].as_str() {
            Some(token) => token,
            None => {
                proof {
                    lemma_scored_stops(views, i + 1);
                }
                return Err(TokenizerError::VocabToken);
            },
        };
        if items.len() == 1 {
            proof {
                lemma_scored_stops(views, i + 1);
            }
            return Err(TokenizerError::VocabEntry);
        }
        proof {
            assert(crate::json::item_views(items@)[1] == items@[1]@);
        }
        let bits: u64 = match items[1].as_double_bits() {
            Some(b) => b,
            None => 0,
        };
        let bytes = vstd::slice::slice_to_vec(token.as_bytes());
        let ghost model_bytes = bytes@;
        tokens.push(bytes);
        score_bits.push(bits);
        proof {
            assert(crate::vocab::token_bytes(tokens@) =~= before.push(model_bytes));
        }
        i += 1;
    }
    proof {
        assert(views.take(views.len() as int) =~= views);
    }
    let vocab = VocabTable::new(tokens);
    let byte_fallback: bool = match model.bool_at("byte_fallback") {
        Some(b) => b,
        None => false,
    };
    Ok(
        TokenizerConfig {
            algorithm: TokenizerAlgorithm::Unigram { vocab, score_bits },
            special_tokens: parse_special_tokens(json),
            normalization: parse_normalization(json),
            pre_tokenizer: parse_pre_tokenizer(json),
            byte_fallback,
            add_bos: json.get("post_processor").is_some(),
            add_eos: false,
        },
    )
}

/// Whether a result is that of loading a word-piece model.
pub open spec fn wordpiece_loads(json: JsonV, r: Result<TokenizerConfig, TokenizerError>) -> bool {
    let model = model_of(json);
    match crate::json::members_of(crate::json::at(model, "vocab"@)) {
        None => r == Err::<TokenizerConfig, TokenizerError>(TokenizerError::MissingVocab),
        Some(members) => {
            &&& r matches Ok(c)
            &&& c.algorithm matches TokenizerAlgorithm::WordPiece {
                vocab,
                continuing_subword_prefix,
                max_input_chars_per_word,
            }
            &&& vocab.ids() == member_ids(members)
            &&& crate::vocab::lists(vocab.tokens(), vocab.ids())
            &&& continuing_subword_prefix@ == (match crate::json::text_of(
                crate::json::at(model, "continuing_subword_prefix"@),
            ) {
                Some(s) => s,
                None => "##"@,
            })
            &&& max_input_chars_per_word == (match crate::json::unsigned_of(
                crate::json::at(model, "max_input_chars_per_word"@),
            ) {
                Some(n) => n as usize,
                None => 200usize,
            })
            &&& common_match(c, json)
            &&& !c.byte_fallback
            &&& !c.add_bos
        },
    }
}

/// Load a word-piece model.
pub fn from_wordpiece_json(json: &Json) -> (r: Result<TokenizerConfig, TokenizerError>)
    ensures
        wordpiece_loads(json@, r),
{
    let model = match json.get("model") {
        Some(model) => model,
        None => {
            return Err(TokenizerError::MissingVocab);
        },
    };
    let members = match model.object_at("vocab") {
        Some(members) => members,
        None => {
            return Err(TokenizerError::MissingVocab);
        },
    };
    let vocab = VocabTable::from_vocab_map(vocab_of_members(members));
    let continuing_subword_prefix: String = match model.text_at("continuing_subword_prefix") {
        Some(s) => copy_str(s),
        None => copy_str("##"),
    };
    let max_input_chars_per_word: usize = match model.u64_at("max_input_chars_per_word") {
        Some(n) => n as usize,
        None => 200,
    };
    Ok(
        TokenizerConfig {
            algorithm: TokenizerAlgorithm::WordPiece {
                vocab,
                continuing_subword_prefix,
                max_input_chars_per_word,
            },
            special_tokens: parse_special_tokens(json),
            normalization: parse_normalization(json),
            pre_tokenizer: parse_pre_tokenizer(json),
            byte_fallback: false,
            add_bos: false,
            add_eos: false,
        },
    )
}

/// Whether an added token has a text; one without any has the empty one.
pub open spec fn says(t: JsonV, text: Seq<char>) -> bool {
    ||| crate::json::at(t, "content"@) == JsonV::Text(text)
    ||| !(crate::json::at(t, "content"@) is Text) && text.len() == 0
}

/// Whether an added token has a number: the low 32 bits of its id, or 0 without one.
pub open spec fn is_numbered(t: JsonV, id: u32) -> bool {
    match crate::json::at(t, "id"@) {
        JsonV::Number { unsigned: Some(n), double_bits } => id == n % 0x1_0000_0000,
        _ => id == 0,
    }
}

/// Whether the last of some added tokens with a text has a number; nothing where there
/// is none with that text.
pub open spec fn last_numbered(items: Seq<JsonV>, text: Seq<char>, id: Option<u32>) -> bool {
    match id {
        Some(n) => exists|i: int|
            0 <= i < items.len() && says(#[trigger] items[i], text) && is_numbered(items[i], n)
                && forall|k: int| i < k < items.len() ==> !says(#[trigger] items[k], text),
        None => forall|k: int| 0 <= k < items.len() ==> !says(#[trigger] items[k], text),
    }
}

proof fn lemma_last_numbered(items: Seq<JsonV>, text: Seq<char>, before: Option<u32>)
    requires
        items.len() > 0,
        last_numbered(items.drop_last(), text, before),
    ensures
        says(items.last(), text) ==> last_numbered(items, text, Some(added_id(items.last()))),
        !says(items.last(), text) ==> last_numbered(items, text, before),
{
    let front = items.drop_last();
    let last = items.len() - 1;
    assert forall|k: int| 0 <= k < front.len() implies #[trigger] items[k] == front[k] by {}
    assert(items[last] == items.last());
    if says(items.last(), text) {
        assert(is_numbered(items[last], added_id(items.last())));
    } else if let Some(n) = before {
        let i = choose|i: int|
            0 <= i < front.len() && says(#[trigger] front[i], text) && is_numbered(front[i], n)
                && forall|k: int| i < k < front.len() ==> !says(#[trigger] front[k], text);
        assert(items[i] == front[i]);
        assert forall|k: int| i < k < items.len() implies !says(#[trigger] items[k], text) by {
            if k < last {
                assert(front[k] == items[k]);
            }
        }
    } else {
        assert forall|k: int| 0 <= k < items.len() implies !says(#[trigger] items[k], text) by {
            if k < last {
                assert(front[k] == items[k]);
            }
        }
    }
}

proof fn lemma_says(t: JsonV, text: Seq<char>)
    ensures
        says(t, text) <==> added_content(t) == text,
{
    reveal_strlit("");
    if text.len() == 0 {
        assert(text =~= ""@);
    }
}

proof fn lemma_role_texts()
    ensures
        "<s>"@ != "</s>"@,
        "<s>"@ != "<unk>"@,
        "<s>"@ != "<pad>"@,
        "</s>"@ != "<unk>"@,
        "</s>"@ != "<pad>"@,
        "<unk>"@ != "<pad>"@,
{
    reveal_strlit("<s>");
    reveal_strlit("</s>");
    reveal_strlit("<unk>");
    reveal_strlit("<pad>");
    assert("<s>"@.len() == 3);
    assert("</s>"@.len() == 4);
    assert("<unk>"@.len() == 5);
    assert("<pad>"@.len() == 5);
    assert("<unk>"@[1] != "<pad>"@[1]);
}

proof fn lemma_special_scan(items: Seq<JsonV>)
    ensures
        last_numbered(items, "<s>"@, special_scan(items).bos),
        last_numbered(items, "</s>"@, special_scan(items).eos),
        last_numbered(items, "<unk>"@, special_scan(items).unk),
        last_numbered(items, "<pad>"@, special_scan(items).pad),
    decreases items.len(),
{
    if items.len() > 0 {
        let front = items.drop_last();
        lemma_special_scan(front);
        let v = special_scan(front);
        lemma_role_texts();
        lemma_says(items.last(), "<s>"@);
        lemma_says(items.last(), "</s>"@);
        lemma_says(items.last(), "<unk>"@);
        lemma_says(items.last(), "<pad>"@);
        lemma_last_numbered(items, "<s>"@, v.bos);
        lemma_last_numbered(items, "</s>"@, v.eos);
        lemma_last_numbered(items, "<unk>"@, v.unk);
        lemma_last_numbered(items, "<pad>"@, v.pad);
    }
}

/// The begin, end, unknown and padding token are each the last added token with the
/// text of that role; without an end token the id 2 stands for it.
pub proof fn law_the_last_token_of_a_role_counts(s: SpecialTokens, json: JsonV, items: Seq<JsonV>)
    requires
        special_tokens_match(s, json),
        crate::json::at(json, "added_tokens"@) == JsonV::Array(items),
    ensures
        last_numbered(items, "<s>"@, s.bos_id),
        last_numbered(items, "<unk>"@, s.unk_id),
        last_numbered(items, "<pad>"@, s.pad_id),
        last_numbered(items, "</s>"@, Some(s.eos_id)) || last_numbered(items, "</s>"@, None)
            && s.eos_id == 2,
{
    lemma_special_scan(items);
}

/// Without added tokens no role is filled, and the end token's id is 2.
pub proof fn law_without_added_tokens_no_role_is_filled(s: SpecialTokens, json: JsonV)
    requires
        special_tokens_match(s, json),
        !(crate::json::at(json, "added_tokens"@) is Array),
    ensures
        s.bos_id is None && s.unk_id is None && s.pad_id is None && s.eos_id == 2,
        s.additional@.dom() == Set::<Seq<char>>::empty(),
{
}

/// Whether an added token fills none of the four roles and is marked as special.
pub open spec fn is_extra(t: JsonV) -> bool {
    &&& crate::json::at(t, "special"@) == JsonV::Bool(true)
    &&& !says(t, "<s>"@) && !says(t, "</s>"@) && !says(t, "<unk>"@) && !says(t, "<pad>"@)
}

/// The further special tokens are those that are marked as special and fill no role,
/// each text with the id of the last such token.
pub proof fn law_marked_tokens_are_kept(items: Seq<JsonV>, text: Seq<char>)
    ensures
        ({
            let kept = special_scan(items).additional;
            if kept.dom().contains(text) {
                exists|i: int|
                    0 <= i < items.len() && says(#[trigger] items[i], text) && is_extra(items[i])
                        && is_numbered(items[i], kept[text]) && forall|k: int|
                        i < k < items.len() ==> !(says(#[trigger] items[k], text) && is_extra(
                            items[k],
                        ))
            } else {
                forall|k: int|
                    0 <= k < items.len() ==> !(says(#[trigger] items[k], text) && is_extra(items[k]))
            }
        }),
    decreases items.len(),
{
    if items.len() > 0 {
        let front = items.drop_last();
        law_marked_tokens_are_kept(front, text);
        let t = items.last();
        let last = items.len() - 1;
        lemma_says(t, "<s>"@);
        lemma_says(t, "</s>"@);
        lemma_says(t, "<unk>"@);
        lemma_says(t, "<pad>"@);
        lemma_says(t, text);
        assert(items[last] == t);
        assert forall|k: int| 0 <= k < front.len() implies #[trigger] items[k] == front[k] by {}
        let before = special_scan(front).additional;
        let kept = special_scan(items).additional;
        if says(t, text) && is_extra(t) {
            assert(kept.dom().contains(text) && kept[text] == added_id(t));
            assert(is_numbered(items[last], kept[text]));
        } else {
            assert(kept.dom().contains(text) <==> before.dom().contains(text));
            if before.dom().contains(text) {
                assert(kept[text] == before[text]);
                let i = choose|i: int|
                    0 <= i < front.len() && says(#[trigger] front[i], text) && is_extra(front[i])
                        && is_numbered(front[i], before[text]) && forall|k: int|
                        i < k < front.len() ==> !(says(#[trigger] front[k], text) && is_extra(
                            front[k],
                        ));
                assert(items[i] == front[i]);
                assert forall|k: int| i < k < items.len() implies !(says(#[trigger] items[k], text)
                    && is_extra(items[k])) by {
                    if k < last {
                        assert(front[k] == items[k]);
                    }
                }
            } else {
                assert forall|k: int| 0 <= k < items.len() implies !(says(#[trigger] items[k], text)
                    && is_extra(items[k])) by {
                    if k < last {
                        assert(front[k] == items[k]);
                    }
                }
            }
        }
    }
}

/// Whether a JSON value counts as an id: the low 32 bits of an unsigned number, or 0 for
/// anything else.
pub open spec fn counts_as(v: JsonV, id: u32) -> bool {
    match v {
        JsonV::Number { unsigned: Some(n), double_bits } => id == n % 0x1_0000_0000,
        _ => id == 0,
    }
}

/// A vocabulary object gives each of its keys the number of the last member with that
/// key, and no other text an id.
pub proof fn law_members_are_numbered(members: Seq<(Seq<char>, JsonV)>, key: Seq<char>)
    ensures
        if member_ids(members).dom().contains(key) {
            exists|i: int|
                0 <= i < members.len() && (#[trigger] members[i]).0 == key && counts_as(
                    members[i].1,
                    member_ids(members)[key],
                ) && forall|k: int| i < k < members.len() ==> (#[trigger] members[k]).0 != key
        } else {
            forall|k: int| 0 <= k < members.len() ==> (#[trigger] members[k]).0 != key
        },
    decreases members.len(),
{
    if members.len() > 0 {
        let front = members.drop_last();
        let last = members.len() - 1;
        law_members_are_numbered(front, key);
        assert(members[last] == members.last());
        assert forall|k: int| 0 <= k < front.len() implies #[trigger] members[k] == front[k] by {}
        if members.last().0 == key {
            assert(members[last].0 == key);
            assert(counts_as(members[last].1, member_ids(members)[key]));
        } else if member_ids(front).dom().contains(key) {
            let i = choose|i: int|
                0 <= i < front.len() && (#[trigger] front[i]).0 == key && counts_as(
                    front[i].1,
                    member_ids(front)[key],
                ) && forall|k: int| i < k < front.len() ==> (#[trigger] front[k]).0 != key;
            assert(members[i] == front[i]);
            assert forall|k: int| i < k < members.len() implies (#[trigger] members[k]).0 != key by {
                if k < last {
                    assert(front[k] == members[k]);
                }
            }
        } else {
            assert forall|k: int| 0 <= k < members.len() implies (#[trigger] members[k]).0 != key by {
                if k < last {
                    assert(front[k] == members[k]);
                }
            }
        }
    }
}

/// Whether an added token can join a vocabulary: it has a text that is not empty and an
/// unsigned id.
pub open spec fn can_join(t: JsonV, text: Seq<char>) -> bool {
    &&& text.len() > 0
    &&& crate::json::at(t, "content"@) == JsonV::Text(text)
    &&& crate::json::at(t, "id"@) matches JsonV::Number { unsigned: Some(n), double_bits }
}

/// Added tokens join a vocabulary and change nothing in it: every text that had an id
/// keeps it, a new one has the id of the first added token that can join with it, and
/// no other text comes in.
pub proof fn law_added_tokens_join(vocab: Map<Seq<char>, u32>, items: Seq<JsonV>, text: Seq<char>)
    ensures
        ({
            let all = with_added(vocab, items);
            if vocab.dom().contains(text) {
                all.dom().contains(text) && all[text] == vocab[text]
            } else if all.dom().contains(text) {
                exists|i: int|
                    0 <= i < items.len() && can_join(#[trigger] items[i], text) && is_numbered(
                        items[i],
                        all[text],
                    ) && forall|k: int| 0 <= k < i ==> !can_join(#[trigger] items[k], text)
            } else {
                forall|k: int| 0 <= k < items.len() ==> !can_join(#[trigger] items[k], text)
            }
        }),
    decreases items.len(),
{
    if items.len() > 0 {
        let front = items.drop_last();
        law_added_tokens_join(vocab, front, text);
        let t = items.last();
        let last = items.len() - 1;
        lemma_says(t, text);
        assert(items[last] == t);
        assert forall|k: int| 0 <= k < front.len() implies #[trigger] items[k] == front[k] by {}
        let before = with_added(vocab, front);
        let all = with_added(vocab, items);
        if !vocab.dom().contains(text) {
            if before.dom().contains(text) {
                let i = choose|i: int|
                    0 <= i < front.len() && can_join(#[trigger] front[i], text) && is_numbered(
                        front[i],
                        before[text],
                    ) && forall|k: int| 0 <= k < i ==> !can_join(#[trigger] front[k], text);
                assert(items[i] == front[i]);
                assert(all.dom().contains(text) && all[text] == before[text]);
                assert forall|k: int| 0 <= k < i implies !can_join(#[trigger] items[k], text) by {
                    assert(front[k] == items[k]);
                }
            } else {
                assert forall|k: int| 0 <= k < last implies !can_join(#[trigger] items[k], text) by {
                    assert(front[k] == items[k]);
                }
                assert(all.dom().contains(text) <==> can_join(items[last], text));
            }
        }
    }
}

/// Whether an entry of a scored vocabulary is a token and a score.
pub open spec fn is_scored(entry: JsonV) -> bool {
    entry matches JsonV::Array(items) && items.len() >= 2 && items[0] is Text
}

/// A scored vocabulary is read one entry after the other: each gives the bytes of its
/// token and the bits of its score, 0 where that is no number. It is refused at the
/// first entry that is no token with a score, for its token where that is there but is
/// no text.
pub proof fn law_scored_entries_are_read_one_by_one(entries: Seq<JsonV>)
    ensures
        match scored(entries) {
            Ok((tokens, bits)) => tokens.len() == entries.len() && bits.len() == entries.len()
                && forall|i: int|
                0 <= i < entries.len() ==> is_scored(#[trigger] entries[i]) && ({
                    let items = entries[i]->Array_0;
                    &&& tokens[i] == vstd::utf8::encode_utf8(items[0]->Text_0)
                    &&& items[1] matches JsonV::Number { unsigned, double_bits: Some(b) }
                        ==> bits[i] == b
                    &&& !(items[1] matches JsonV::Number { unsigned, double_bits: Some(b) })
                        ==> bits[i] == 0
                }),
            Err(e) => exists|i: int|
                0 <= i < entries.len() && !is_scored(#[trigger] entries[i]) && (e
                    == if entries[i] matches JsonV::Array(items) && items.len() >= 1
                    && !(items[0] is Text) {
                    TokenizerError::VocabToken
                } else {
                    TokenizerError::VocabEntry
                }) && forall|k: int| 0 <= k < i ==> is_scored(#[trigger] entries[k]),
        },
    decreases entries.len(),
{
    if entries.len() > 0 {
        let front = entries.drop_last();
        let last = entries.len() - 1;
        law_scored_entries_are_read_one_by_one(front);
        assert(entries[last] == entries.last());
        assert forall|k: int| 0 <= k < front.len() implies #[trigger] entries[k] == front[k] by {}
        match scored(front) {
            Ok((tokens, bits)) => {
                assert forall|k: int| 0 <= k < last implies is_scored(#[trigger] entries[k]) by {
                    assert(front[k] == entries[k]);
                }
                if let Ok((all, marks)) = scored(entries) {
                    assert forall|i: int| 0 <= i < entries.len() implies is_scored(
                        #[trigger] entries[i],
                    ) && ({
                        let items = entries[i]->Array_0;
                        &&& all[i] == vstd::utf8::encode_utf8(items[0]->Text_0)
                        &&& items[1] matches JsonV::Number { unsigned, double_bits: Some(b) }
                            ==> marks[i] == b
                        &&& !(items[1] matches JsonV::Number { unsigned, double_bits: Some(b) })
                            ==> marks[i] == 0
                    }) by {
                        if i < last {
                            assert(front[i] == entries[i]);
                            assert(all[i] == tokens[i]);
                            assert(marks[i] == bits[i]);
                        }
                    }
                } else {
                    assert(!is_scored(entries[last]));
                }
            },
            Err(e) => {
                let i = choose|i: int|
                    0 <= i < front.len() && !is_scored(#[trigger] front[i]) && (e
                        == if front[i] matches JsonV::Array(items) && items.len() >= 1
                        && !(items[0] is Text) {
                        TokenizerError::VocabToken
                    } else {
                        TokenizerError::VocabEntry
                    }) && forall|k: int| 0 <= k < i ==> is_scored(#[trigger] front[k]);
                assert(entries[i] == front[i]);
                assert forall|k: int| 0 <= k < i implies is_scored(#[trigger] entries[k]) by {
                    assert(front[k] == entries[k]);
                }
            },
        }
    }
}

/// A metaspace takes the first character of its replacement text, and a lower
/// one-eighth block where that text is missing or empty. It is put in front where the
/// scheme is `first` or `always`, and under any other unless the prefix space is denied.
pub proof fn law_a_metaspace_is_what_it_states(pt: JsonV)
    ensures
        metaspace_of(pt) is Metaspace,
        crate::json::at(pt, "replacement"@) matches JsonV::Text(s) ==> s.len() > 0
            ==> metaspace_of(pt)->replacement == s[0],
        !(crate::json::at(pt, "replacement"@) matches JsonV::Text(s) && s.len() > 0)
            ==> metaspace_of(pt)->replacement as int == 0x2581,
        crate::json::at(pt, "prepend_scheme"@) == JsonV::Text("first"@) ==> metaspace_of(
            pt,
        )->prepend,
        crate::json::at(pt, "prepend_scheme"@) == JsonV::Text("always"@) ==> metaspace_of(
            pt,
        )->prepend,
        crate::json::at(pt, "add_prefix_space"@) != JsonV::Bool(false) ==> metaspace_of(
            pt,
        )->prepend,
        crate::json::at(pt, "prepend_scheme"@) != JsonV::Text("first"@) && crate::json::at(
            pt,
            "prepend_scheme"@,
        ) != JsonV::Text("always"@) && crate::json::at(pt, "add_prefix_space"@) == JsonV::Bool(
            false,
        ) ==> !metaspace_of(pt)->prepend,
{
}

/// Whether a pre-tokenizer is of a type.
pub open spec fn is_of_type(pt: JsonV, kind: Seq<char>) -> bool {
    crate::json::at(pt, "type"@) == JsonV::Text(kind)
}

/// Whether `p` is the pattern of the last split of a sequence; nothing where it has no
/// split, or where the last has no pattern.
pub open spec fn last_pattern(subs: Seq<JsonV>, p: Option<Seq<char>>) -> bool {
    ||| p is None && forall|k: int|
        0 <= k < subs.len() ==> !is_of_type(#[trigger] subs[k], "Split"@)
    ||| exists|i: int|
        0 <= i < subs.len() && is_of_type(#[trigger] subs[i], "Split"@) && (match p {
            Some(s) => crate::json::at(crate::json::at(subs[i], "pattern"@), "Regex"@)
                == JsonV::Text(s),
            None => !(crate::json::at(crate::json::at(subs[i], "pattern"@), "Regex"@) is Text),
        }) && forall|k: int| i < k < subs.len() ==> !is_of_type(#[trigger] subs[k], "Split"@)
}

proof fn lemma_types()
    ensures
        "Split"@ != "ByteLevel"@,
        "Split"@ != "Metaspace"@,
        "ByteLevel"@ != "Metaspace"@,
        "Sequence"@ != "Split"@,
        "Sequence"@ != "ByteLevel"@,
        "Sequence"@ != "Metaspace"@,
{
    reveal_strlit("Split");
    reveal_strlit("ByteLevel");
    reveal_strlit("Metaspace");
    reveal_strlit("Sequence");
    assert("Split"@.len() == 5);
    assert("ByteLevel"@.len() == 9);
    assert("Metaspace"@.len() == 9);
    assert("Sequence"@.len() == 8);
    assert("ByteLevel"@[0] != "Metaspace"@[0]);
}

proof fn lemma_sequence_scan(subs: Seq<JsonV>)
    requires
        forall|k: int| 0 <= k < subs.len() ==> !is_of_type(#[trigger] subs[k], "Metaspace"@),
    ensures
        sequence_scan(subs).metaspace is None,
        last_pattern(subs, sequence_scan(subs).regex),
        sequence_scan(subs).byte_level <==> exists|k: int|
            0 <= k < subs.len() && is_of_type(#[trigger] subs[k], "ByteLevel"@),
    decreases subs.len(),
{
    if subs.len() > 0 {
        let front = subs.drop_last();
        let last = subs.len() - 1;
        assert forall|k: int| 0 <= k < front.len() implies #[trigger] subs[k] == front[k] by {}
        assert forall|k: int| 0 <= k < front.len() implies !is_of_type(
            #[trigger] front[k],
            "Metaspace"@,
        ) by {
            assert(subs[k] == front[k]);
        }
        lemma_sequence_scan(front);
        lemma_types();
        assert(subs[last] == subs.last());
        assert(!is_of_type(subs[last], "Metaspace"@));
        let before = sequence_scan(front);
        let now = sequence_scan(subs);
        if is_of_type(subs[last], "Split"@) {
            assert(now.regex == split_pattern(subs[last]));
        } else {
            assert(now.regex == before.regex);
            if exists|i: int| 0 <= i < front.len() && is_of_type(#[trigger] front[i], "Split"@) {
                let i = choose|i: int|
                    0 <= i < front.len() && is_of_type(#[trigger] front[i], "Split"@) && (
                    match before.regex {
                        Some(s) => crate::json::at(
                            crate::json::at(front[i], "pattern"@),
                            "Regex"@,
                        ) == JsonV::Text(s),
                        None => !(crate::json::at(
                            crate::json::at(front[i], "pattern"@),
                            "Regex"@,
                        ) is Text),
                    }) && forall|k: int|
                        i < k < front.len() ==> !is_of_type(#[trigger] front[k], "Split"@);
                assert(subs[i] == front[i]);
                assert forall|k: int| i < k < subs.len() implies !is_of_type(
                    #[trigger] subs[k],
                    "Split"@,
                ) by {
                    if k < last {
                        assert(front[k] == subs[k]);
                    }
                }
            } else {
                assert forall|k: int| 0 <= k < subs.len() implies !is_of_type(
                    #[trigger] subs[k],
                    "Split"@,
                ) by {
                    if k < last {
                        assert(front[k] == subs[k]);
                    }
                }
            }
        }
        if before.byte_level {
            let k = choose|k: int|
                0 <= k < front.len() && is_of_type(#[trigger] front[k], "ByteLevel"@);
            assert(is_of_type(subs[k], "ByteLevel"@));
        }
        if exists|k: int| 0 <= k < subs.len() && is_of_type(#[trigger] subs[k], "ByteLevel"@) {
            let k = choose|k: int|
                0 <= k < subs.len() && is_of_type(#[trigger] subs[k], "ByteLevel"@);
            if k < last {
                assert(is_of_type(front[k], "ByteLevel"@));
            }
        }
    }
}

/// What a sequence of pre-tokenizers comes to: its first metaspace, whatever else it
/// holds; without one, a byte level with the pattern of the last split where it holds a
/// byte level, else that pattern alone, and nothing without a pattern.
pub proof fn law_what_a_sequence_comes_to(subs: Seq<JsonV>, i: int)
    ensures
        0 <= i < subs.len() && is_of_type(subs[i], "Metaspace"@) && (forall|k: int|
            0 <= k < i ==> !is_of_type(#[trigger] subs[k], "Metaspace"@)) ==> sequence_of(subs)
            == metaspace_of(subs[i]),
        (forall|k: int| 0 <= k < subs.len() ==> !is_of_type(#[trigger] subs[k], "Metaspace"@))
            ==> match sequence_of(subs) {
            PreV::ByteLevel { regex } => last_pattern(subs, regex) && exists|k: int|
                0 <= k < subs.len() && is_of_type(#[trigger] subs[k], "ByteLevel"@),
            PreV::Regex(p) => last_pattern(subs, Some(p)) && forall|k: int|
                0 <= k < subs.len() ==> !is_of_type(#[trigger] subs[k], "ByteLevel"@),
            PreV::Nothing => last_pattern(subs, None) && forall|k: int|
                0 <= k < subs.len() ==> !is_of_type(#[trigger] subs[k], "ByteLevel"@),
            PreV::Metaspace { .. } => false,
        },
{
    if 0 <= i < subs.len() && is_of_type(subs[i], "Metaspace"@) && (forall|k: int|
        0 <= k < i ==> !is_of_type(#[trigger] subs[k], "Metaspace"@)) {
        let front = subs.take(i);
        assert forall|k: int| 0 <= k < front.len() implies !is_of_type(
            #[trigger] front[k],
            "Metaspace"@,
        ) by {
            assert(front[k] == subs[k]);
        }
        lemma_sequence_scan(front);
        lemma_types();
        let upto = subs.take(i + 1);
        assert(upto.drop_last() =~= front);
        assert(upto.last() == subs[i]);
        lemma_sequence_scan_stops(subs, i + 1);
    }
    if forall|k: int| 0 <= k < subs.len() ==> !is_of_type(#[trigger] subs[k], "Metaspace"@) {
        lemma_sequence_scan(subs);
    }
}

/// A sequence of one pre-tokenizer is that pre-tokenizer; one of a type that is not
/// known comes to nothing, and so does a tokenizer without one.
pub proof fn law_a_sequence_of_one_is_that_one(pt: JsonV, json: JsonV)
    ensures
        !is_of_type(pt, "Sequence"@) ==> sequence_of(seq![pt]) == pre_tokenizer_of(pt),
        is_of_type(pt, "ByteLevel"@) ==> pre_tokenizer_of(pt) == (PreV::ByteLevel { regex: None }),
        is_of_type(pt, "Metaspace"@) ==> pre_tokenizer_of(pt) == metaspace_of(pt),
        is_of_type(pt, "Split"@) ==> match pre_tokenizer_of(pt) {
            PreV::Regex(p) => last_pattern(seq![pt], Some(p)),
            PreV::Nothing => last_pattern(seq![pt], None),
            _ => false,
        },
        is_of_type(pt, "Sequence"@) ==> pre_tokenizer_of(pt) == (match crate::json::at(
            pt,
            "pretokenizers"@,
        ) {
            JsonV::Array(subs) => sequence_of(subs),
            _ => PreV::Nothing,
        }),
        !is_of_type(pt, "ByteLevel"@) && !is_of_type(pt, "Metaspace"@) && !is_of_type(
            pt,
            "Split"@,
        ) && !is_of_type(pt, "Sequence"@) ==> pre_tokenizer_of(pt) == PreV::Nothing,
        pre_tokenizer_in(json) == pre_tokenizer_of(crate::json::at(json, "pre_tokenizer"@)),
{
    reveal_with_fuel(sequence_scan, 2);
    let one = seq![pt];
    assert(one.drop_last() =~= Seq::empty());
    assert(one.last() == pt);
    assert(one[0] == pt);
    lemma_types();
    if is_of_type(pt, "Split"@) {
        assert forall|k: int| 0 <= k < one.len() implies !is_of_type(
            #[trigger] one[k],
            "Metaspace"@,
        ) by {}
        lemma_sequence_scan(one);
    }
}

/// A normalizer is known by its type; one of any other type, or none, changes nothing.
pub proof fn law_a_normalizer_is_known_by_its_type(json: JsonV)
    ensures
        ({
            let n = crate::json::at(json, "normalizer"@);
            &&& is_of_type(n, "NFC"@) <==> normalization_in(json) == NormV::Nfc
            &&& is_of_type(n, "NFKC"@) <==> normalization_in(json) == NormV::Nfkc
            &&& is_of_type(n, "Prepend"@) <==> normalization_in(json) == NormV::PrependSpace
            &&& !(normalization_in(json) is Sequence)
        }),
{
    reveal_strlit("NFC");
    reveal_strlit("NFKC");
    reveal_strlit("Prepend");
    assert("NFC"@.len() == 3);
    assert("NFKC"@.len() == 4);
    assert("Prepend"@.len() == 7);
    let n = crate::json::at(json, "normalizer"@);
    assert(type_of(n) == Some("NFC"@) <==> is_of_type(n, "NFC"@));
    assert(type_of(n) == Some("NFKC"@) <==> is_of_type(n, "NFKC"@));
    assert(type_of(n) == Some("Prepend"@) <==> is_of_type(n, "Prepend"@));
}

/// A byte-pair encoding loads exactly where its model has an object of tokens and an
/// array of merges. It falls back to bytes where the model says so, adds the begin
/// token where there is a post-processor, and never the end token; every token of the
/// object keeps its number.
pub proof fn law_what_a_byte_pair_encoding_loads_to(
    json: JsonV,
    r: Result<TokenizerConfig, TokenizerError>,
)
    requires
        bpe_loads(json, r),
    ensures
        ({
            let model = crate::json::at(json, "model"@);
            let vocab = crate::json::at(model, "vocab"@);
            let merges = crate::json::at(model, "merges"@);
            &&& !(vocab is Object) ==> r == Err::<TokenizerConfig, TokenizerError>(
                TokenizerError::MissingVocab,
            )
            &&& vocab is Object && !(merges is Array) ==> r == Err::<
                TokenizerConfig,
                TokenizerError,
            >(TokenizerError::MissingMerges)
            &&& vocab is Object && merges is Array ==> (r matches Ok(c) && c.algorithm is Bpe
                && c.byte_fallback == (crate::json::at(model, "byte_fallback"@) == JsonV::Bool(
                true,
            )) && c.add_bos == (crate::json::member(json, "post_processor"@) is Some)
                && !c.add_eos && special_tokens_match(c.special_tokens, json)
                && c.normalization@ == normalization_in(json) && c.pre_tokenizer@
                == pre_tokenizer_in(json) && (c.algorithm matches TokenizerAlgorithm::Bpe {
                vocab: table,
                merges: rules,
            } && (forall|t: Seq<char>| #[trigger]
                member_ids(vocab->Object_0).dom().contains(t) ==> table.ids().dom().contains(t)
                    && table.ids()[t] == member_ids(vocab->Object_0)[t])
                && crate::vocab::merge_views(rules.merges@) == crate::vocab::merges_of(
                merges->Array_0,
            ) && crate::vocab::lists(table.tokens(), table.ids())))
        }),
{
    let model = crate::json::at(json, "model"@);
    let vocab = crate::json::at(model, "vocab"@);
    if vocab is Object && crate::json::at(model, "merges"@) is Array {
        let base = member_ids(vocab->Object_0);
        assert forall|t: Seq<char>| #[trigger] base.dom().contains(t) implies with_added(
            base,
            added_tokens(json),
        ).dom().contains(t) && with_added(base, added_tokens(json))[t] == base[t] by {
            law_added_tokens_join(base, added_tokens(json), t);
        }
    }
}

/// A unigram model loads exactly where its vocabulary is a list of tokens with scores;
/// every token stands at its place in the list, with its score.
pub proof fn law_what_a_unigram_model_loads_to(
    json: JsonV,
    r: Result<TokenizerConfig, TokenizerError>,
)
    requires
        unigram_loads(json, r),
    ensures
        ({
            let model = crate::json::at(json, "model"@);
            let vocab = crate::json::at(model, "vocab"@);
            &&& !(vocab is Array) ==> r == Err::<TokenizerConfig, TokenizerError>(
                TokenizerError::MissingVocab,
            )
            &&& vocab matches JsonV::Array(entries) ==> (r is Ok <==> forall|i: int|
                0 <= i < entries.len() ==> is_scored(#[trigger] entries[i]))
            &&& vocab matches JsonV::Array(entries) ==> r matches Ok(c) ==> {
                &&& c.algorithm matches TokenizerAlgorithm::Unigram { vocab: table, score_bits }
                &&& table.tokens().len() == entries.len()
                &&& score_bits@.len() == entries.len()
                &&& forall|i: int|
                    0 <= i < entries.len() ==> table.tokens()[i] == vstd::utf8::encode_utf8(
                        (#[trigger] entries[i])->Array_0[0]->Text_0,
                    )
                &&& table.ids() == crate::vocab::ids_of(table.tokens())
                &&& c.byte_fallback == (crate::json::at(model, "byte_fallback"@) == JsonV::Bool(
                    true,
                ))
                &&& c.add_bos == (crate::json::member(json, "post_processor"@) is Some)
                &&& !c.add_eos
                &&& special_tokens_match(c.special_tokens, json)
                &&& c.normalization@ == normalization_in(json)
                &&& c.pre_tokenizer@ == pre_tokenizer_in(json)
            }
        }),
{
    let vocab = crate::json::at(crate::json::at(json, "model"@), "vocab"@);
    if let JsonV::Array(entries) = vocab {
        law_scored_entries_are_read_one_by_one(entries);
    }
}

/// A word-piece model loads exactly where its vocabulary is an object. It continues
/// words with the stated prefix, by default `##`, takes words of the stated length, by
/// default of 200 characters, never falls back to bytes and adds no token.
pub proof fn law_what_a_word_piece_model_loads_to(
    json: JsonV,
    r: Result<TokenizerConfig, TokenizerError>,
)
    requires
        wordpiece_loads(json, r),
    ensures
        ({
            let model = crate::json::at(json, "model"@);
            let vocab = crate::json::at(model, "vocab"@);
            let prefix = crate::json::at(model, "continuing_subword_prefix"@);
            let longest = crate::json::at(model, "max_input_chars_per_word"@);
            &&& !(vocab is Object) ==> r == Err::<TokenizerConfig, TokenizerError>(
                TokenizerError::MissingVocab,
            )
            &&& vocab matches JsonV::Object(members) ==> {
                &&& r matches Ok(c)
                &&& c.algorithm matches TokenizerAlgorithm::WordPiece {
                    vocab: table,
                    continuing_subword_prefix,
                    max_input_chars_per_word,
                }
                &&& table.ids() == member_ids(members)
                &&& crate::vocab::lists(table.tokens(), table.ids())
                &&& prefix matches JsonV::Text(s) ==> continuing_subword_prefix@ == s
                &&& !(prefix is Text) ==> continuing_subword_prefix@ == "##"@
                &&& longest matches JsonV::Number { unsigned: Some(n), double_bits } ==> n
                    <= usize::MAX ==> max_input_chars_per_word == n
                &&& !(longest matches JsonV::Number { unsigned: Some(n), double_bits })
                    ==> max_input_chars_per_word == 200
                &&& !c.byte_fallback && !c.add_bos && !c.add_eos
                &&& special_tokens_match(c.special_tokens, json)
                &&& c.normalization@ == normalization_in(json)
                &&& c.pre_tokenizer@ == pre_tokenizer_in(json)
            }
        }),
{
}

/// A pre-tokenizer and a normalization are modelled by all that they state.
pub proof fn law_configurations_are_modelled_whole(
    pre: PreTokenizerConfig,
    norm: NormalizationConfig,
)
    ensures
        match pre {
            PreTokenizerConfig::Nothing => pre@ is Nothing,
            PreTokenizerConfig::Metaspace { replacement, prepend } => pre@ == (PreV::Metaspace {
                replacement,
                prepend,
            }),
            PreTokenizerConfig::Regex(s) => pre@ == PreV::Regex(s@),
            PreTokenizerConfig::ByteLevel { regex: Some(s) } => pre@ == (PreV::ByteLevel {
                regex: Some(s@),
            }),
            PreTokenizerConfig::ByteLevel { regex: None } => pre@ == (PreV::ByteLevel {
                regex: None,
            }),
        },
        match norm {
            NormalizationConfig::Nothing => norm@ is Nothing,
            NormalizationConfig::Nfc => norm@ is Nfc,
            NormalizationConfig::Nfkc => norm@ is Nfkc,
            NormalizationConfig::PrependSpace => norm@ is PrependSpace,
            NormalizationConfig::Sequence(steps) => norm@ == NormV::Sequence(steps@),
        },
{
}

} // verus!
