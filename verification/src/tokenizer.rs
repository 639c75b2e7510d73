//! The tokenizer: telling formats apart, normalizing, encoding and decoding.
//!
//! The piece encoders themselves are the caller's; what they are handed, and
//! what is made of their ids, is decided here.

use crate::json::{read_json, Json, JsonV};
use crate::text::{chars_of, copy_str, same_text, string_of, white_space};
use crate::tokenizer_config::{
    from_bpe_json, from_unigram_json, from_wordpiece_json, NormStep, NormV, NormalizationConfig,
    PreTokenizerConfig, PreV, TokenizerAlgorithm, TokenizerConfig, TokenizerError,
};
use crate::vocab::VocabTable;
use vstd::prelude::*;
use vstd::slice::slice_subrange;

verus! {

/// A tokenizer.
pub struct NativeTokenizer {
    pub config: TokenizerConfig,
}

/// Why a SentencePiece model cannot be taken.
#[derive(Debug, Clone, PartialEq, Eq)]
pub enum SpError {
    /// The model is well-formed but refused.
    Refused(String),
    /// The bytes are no model.
    NotModelProto(String),
}

/// Whether a byte is ASCII white space: space, tab, newline, form feed or
/// carriage return.
pub open spec fn is_ascii_space(b: u8) -> bool {
    b == 32 || b == 9 || b == 10 || b == 12 || b == 13
}

/// What stands behind the leading ASCII white space.
pub open spec fn behind_spaces(s: Seq<u8>) -> Seq<u8>
    decreases s.len(),
{
    if s.len() > 0 && is_ascii_space(s[0]) {
        behind_spaces(s.skip(1))
    } else {
        s
    }
}

/// What stands behind a byte-order mark.
pub open spec fn behind_bom(s: Seq<u8>) -> Seq<u8> {
    if s.len() >= 3 && s[0] == 0xEF && s[1] == 0xBB && s[2] == 0xBF {
        s.skip(3)
    } else {
        s
    }
}

/// The body by which a format is told: without a byte-order mark and leading
/// white space.
pub open spec fn body_of(s: Seq<u8>) -> Seq<u8> {
    behind_spaces(behind_bom(s))
}

/// The bytes without a byte-order mark and leading ASCII white space.
pub fn strip_bom_and_ws(bytes: &[u8]) -> (r: &[u8])
    ensures
        r@ == body_of(bytes@),
{
    let mut rest: &[u8] = bytes;
    if bytes.len() >= 3 && bytes[0] == 0xEF && bytes[1] == 0xBB && bytes[2] == 0xBF {
        rest = slice_subrange(bytes, 3, bytes.len());
        proof {
            assert(rest@ =~= bytes@.skip(3));
        }
    }
    while rest.len() > 0 && (rest[0] == 32 || rest[0] == 9 || rest[0] == 10 || rest[0] == 12
        || rest[0] == 13)
        invariant
            body_of(bytes@) == behind_spaces(rest@),
        ensures
            body_of(bytes@) == rest@,
        decreases rest@.len(),
    {
        let ghost before = rest@;
        rest = slice_subrange(rest, 1, rest.len());
        proof {
            assert(rest@ =~= before.skip(1));
        }
    }
    rest
}

/// Whether a byte stands in base-64 text.
pub open spec fn is_base64(b: u8) -> bool {
    ||| 48 <= b <= 57
    ||| 65 <= b <= 90
    ||| 97 <= b <= 122
    ||| b == 43
    ||| b == 47
    ||| b == 61
}

/// The first line of some bytes, without the carriage return that ends it.
pub open spec fn first_line(s: Seq<u8>) -> Seq<u8> {
    let line = match crate::text::find(s, seq![10u8]) {
        Some(i) => s.take(i),
        None => s,
    };
    if line.len() > 0 && line.last() == 13 {
        line.drop_last()
    } else {
        line
    }
}

/// Whether some bytes begin like token ranks: a base-64 token, a space and a
/// decimal rank on the first line.
pub open spec fn is_token_ranks(s: Seq<u8>) -> bool {
    let line = first_line(s);
    match crate::text::find(line, seq![32u8]) {
        None => false,
        Some(i) => {
            let token = line.take(i);
            let rank = line.skip(i + 1);
            &&& token.len() > 0
            &&& rank.len() > 0
            &&& forall|k: int| 0 <= k < token.len() ==> is_base64(#[trigger] token[k])
            &&& forall|k: int| 0 <= k < rank.len() ==> 48 <= #[trigger] rank[k] <= 57
        },
    }
}

proof fn lemma_find_byte(s: Seq<u8>, b: u8, i: int)
    requires
        0 <= i < s.len(),
        s[i] == b,
        forall|k: int| 0 <= k < i ==> s[k] != b,
    ensures
        crate::text::find(s, seq![b]) == Some(i),
{
    let a = s.take(i);
    let c = s.skip(i + 1);
    assert(s =~= a + seq![b] + c);
    crate::text::lemma_find_behind(a, seq![b], c);
}

/// The position of the first byte `b`.
fn position(bytes: &[u8], b: u8) -> (r: Option<usize>)
    ensures
        match r {
            Some(i) => crate::text::find(bytes@, seq![b]) == Some(i as int) && i < bytes@.len(),
            None => crate::text::find(bytes@, seq![b]) == None::<int>,
        },
{
    let mut i: usize = 0;
    while i < bytes.len()
        invariant
            i <= bytes@.len(),
            forall|k: int| 0 <= k < i ==> bytes@[k] != b,
        decreases bytes@.len() - i,
    {
        if bytes[i] == b {
            proof {
                lemma_find_byte(bytes@, b, i as int);
            }
            return Some(i);
        }
        i += 1;
    }
    proof {
        crate::text::lemma_find_nothing(bytes@, seq![b]);
    }
    None
}

/// Whether the bytes begin like a `.tiktoken` rank file.
pub fn looks_like_tiktoken_ranks(body: &[u8]) -> (r: bool)
    ensures
        r == is_token_ranks(body@),
{
    let mut line: &[u8] = body;
    if let Some(i) = position(body, 10) {
        line = slice_subrange(body, 0, i);
        proof {
            assert(line@ =~= body@.take(i as int));
        }
    }
    if line.len() > 0 && line[line.len() - 1] == 13 {
        let ghost before = line@;
        line = slice_subrange(line, 0, line.len() - 1);
        proof {
            assert(line@ =~= before.drop_last());
        }
    }
    let space: usize = match position(line, 32) {
        Some(i) => i,
        None => {
            return false;
        },
    };
    let token = slice_subrange(line, 0, space);
    let rank = slice_subrange(line, space + 1, line.len());
    proof {
        assert(token@ =~= line@.take(space as int));
        assert(rank@ =~= line@.skip(space + 1));
    }
    if token.len() == 0 || rank.len() == 0 {
        return false;
    }
    let mut i: usize = 0;
    while i < token.len()
        invariant
            i <= token@.len(),
            token@ == line@.take(space as int),
            line@ == first_line(body@),
            crate::text::find(line@, seq![32u8]) == Some(space as int),
            forall|k: int| 0 <= k < i ==> is_base64(#[trigger] token@[k]),
        decreases token@.len() - i,
    {
        let b: u8 = token[i];
        let ok: bool = (48 <= b && b <= 57) || (65 <= b && b <= 90) || (97 <= b && b <= 122) || b
            == 43 || b == 47 || b == 61;
        if !ok {
            return false;
        }
        i += 1;
    }
    let mut j: usize = 0;
    while j < rank.len()
        invariant
            j <= rank@.len(),
            rank@ == line@.skip(space + 1),
            line@ == first_line(body@),
            crate::text::find(line@, seq![32u8]) == Some(space as int),
            forall|k: int| 0 <= k < j ==> 48 <= #[trigger] rank@[k] <= 57,
        decreases rank@.len() - j,
    {
        if !(48 <= rank[j] && rank[j] <= 57) {
            return false;
        }
        j += 1;
    }
    true
}

/// Whether a result is that of loading a parsed `tokenizer.json`.
pub open spec fn json_loads(json: JsonV, r: Result<TokenizerConfig, TokenizerError>) -> bool {
    let model = crate::tokenizer_config::model_of(json);
    match crate::json::text_of(crate::json::at(model, "type"@)) {
        None => r == Err::<TokenizerConfig, TokenizerError>(TokenizerError::MissingType),
        Some(kind) => if kind == "BPE"@ {
            crate::tokenizer_config::bpe_loads(json, r)
        } else if kind == "Unigram"@ {
            crate::tokenizer_config::unigram_loads(json, r)
        } else if kind == "WordPiece"@ {
            crate::tokenizer_config::wordpiece_loads(json, r)
        } else {
            r matches Err(TokenizerError::UnsupportedType { name }) && name@ == kind
        },
    }
}

/// Load a parsed `tokenizer.json`.
pub fn from_json(json: &Json) -> (r: Result<TokenizerConfig, TokenizerError>)
    ensures
        json_loads(json@, r),
{
    let model = match json.get("model") {
        Some(model) => model,
        None => {
            return Err(TokenizerError::MissingType);
        },
    };
    let kind = match model.text_at("type") {
        Some(kind) => kind,
        None => {
            return Err(TokenizerError::MissingType);
        },
    };
    if same_text(kind, "BPE") {
        from_bpe_json(json)
    } else if same_text(kind, "Unigram") {
        from_unigram_json(json)
    } else if same_text(kind, "WordPiece") {
        from_wordpiece_json(json)
    } else {
        Err(TokenizerError::UnsupportedType { name: copy_str(kind) })
    }
}

/// The first byte of a body.
pub open spec fn first_byte(s: Seq<u8>) -> Option<u8> {
    if s.len() > 0 {
        Some(s[0])
    } else {
        None
    }
}

/// The model of a loaded tokenizer's configuration.
pub open spec fn config_of(r: Result<NativeTokenizer, TokenizerError>) -> Result<
    TokenizerConfig,
    TokenizerError,
> {
    match r {
        Ok(t) => Ok(t.config),
        Err(e) => Err(e),
    }
}

/// Whether a result is what a SentencePiece parse comes to.
pub open spec fn proto_loads(
    parsed: Result<TokenizerConfig, SpError>,
    body: Seq<u8>,
    r: Result<TokenizerConfig, TokenizerError>,
) -> bool {
    match parsed {
        Ok(c) => r == Ok::<TokenizerConfig, TokenizerError>(c),
        Err(SpError::Refused(why)) => r == Err::<TokenizerConfig, TokenizerError>(
            TokenizerError::Refused { why },
        ),
        Err(SpError::NotModelProto(why)) => r == Err::<TokenizerConfig, TokenizerError>(
            TokenizerError::Unrecognized { first: first_byte(body), why },
        ),
    }
}

/// What a text encoder made of a text.
pub open spec fn encodes<E: Fn(&str) -> Vec<u32>>(encode: E, text: Seq<char>, ids: Seq<u32>) -> bool {
    exists|t: &str, v: Vec<u32>| #[trigger]
        call_ensures(encode, (t,), v) && t@ == text && v@ == ids
}

/// A text without leading spaces.
pub open spec fn trim_front(s: Seq<char>) -> Seq<char>
    decreases s.len(),
{
    if s.len() > 0 && s[0] == ' ' {
        trim_front(s.skip(1))
    } else {
        s
    }
}

/// A text without trailing spaces.
pub open spec fn trim_back(s: Seq<char>) -> Seq<char>
    decreases s.len(),
{
    if s.len() > 0 && s.last() == ' ' {
        trim_back(s.drop_last())
    } else {
        s
    }
}

/// A text with each run of spaces cut to its first.
pub open spec fn collapse(s: Seq<char>) -> Seq<char>
    decreases s.len(),
{
    if s.len() == 0 {
        s
    } else {
        let front = collapse(s.drop_last());
        if s.last() == ' ' && s.len() > 1 && s[s.len() - 2] == ' ' {
            front
        } else {
            front.push(s.last())
        }
    }
}

/// One normalization step.
pub open spec fn norm_step(s: Seq<char>, step: NormStep) -> Seq<char> {
    match step {
        NormStep::RemoveExtraWhitespace => collapse(trim_back(trim_front(s))),
        NormStep::PrependSpace => seq![' '] + s,
        NormStep::Other => s,
    }
}

/// Normalization steps one after the other.
pub open spec fn norm_steps(s: Seq<char>, steps: Seq<NormStep>) -> Seq<char>
    decreases steps.len(),
{
    if steps.len() == 0 {
        s
    } else {
        norm_step(norm_steps(s, steps.drop_last()), steps.last())
    }
}

/// A normalized text: only a sequence of steps is applied.
pub open spec fn normalized(norm: NormV, s: Seq<char>) -> Seq<char> {
    match norm {
        NormV::Sequence(steps) => norm_steps(s, steps),
        _ => s,
    }
}

fn trimmed(chars: &[char]) -> (r: &[char])
    ensures
        r@ == trim_back(trim_front(chars@)),
{
    let mut rest: &[char] = chars;
    while rest.len() > 0 && rest[0] == ' '
        invariant
            trim_front(chars@) == trim_front(rest@),
        ensures
            trim_front(chars@) == rest@,
        decreases rest@.len(),
    {
        let ghost before = rest@;
        rest = slice_subrange(rest, 1, rest.len());
        proof {
            assert(rest@ =~= before.skip(1));
        }
    }
    let ghost front = rest@;
    while rest.len() > 0 && rest[rest.len() - 1] == ' '
        invariant
            trim_back(front) == trim_back(rest@),
        ensures
            trim_back(front) == rest@,
        decreases rest@.len(),
    {
        let ghost before = rest@;
        rest = slice_subrange(rest, 0, rest.len() - 1);
        proof {
            assert(rest@ =~= before.drop_last());
        }
    }
    rest
}

fn collapsed(chars: &[char]) -> (r: Vec<char>)
    ensures
        r@ == collapse(chars@),
{
    let mut out: Vec<char> = Vec::new();
    let mut i: usize = 0;
    proof {
        assert(chars@.take(0) =~= Seq::empty());
    }
    while i < chars.len()
        invariant
            i <= chars@.len(),
            out@ == collapse(chars@.take(i as int)),
        decreases chars@.len() - i,
    {
        proof {
            assert(chars@.take(i + 1).drop_last() =~= chars@.take(i as int));
            assert(chars@.take(i + 1).last() == chars@[i as int]);
        }
        let c = chars[i];
        if !(c == ' ' && i > 0 && chars[i - 1] == ' ') {
            out.push(c);
        }
        i += 1;
    }
    proof {
        assert(chars@.take(chars@.len() as int) =~= chars@);
    }
    out
}

/// The text with each `from` written as `to`.
pub open spec fn replaced(s: Seq<char>, from: char, to: char) -> Seq<char> {
    s.map_values(|c: char| if c == from { to } else { c })
}

fn replace_char(chars: &[char], from: char, to: char) -> (r: Vec<char>)
    ensures
        r@ == replaced(chars@, from, to),
{
    let ghost all = replaced(chars@, from, to);
    let mut out: Vec<char> = Vec::new();
    let mut i: usize = 0;
    while i < chars.len()
        invariant
            i <= chars@.len(),
            all == replaced(chars@, from, to),
            out@ == all.take(i as int),
        decreases chars@.len() - i,
    {
        let c = chars[i];
        out.push(if c == from { to } else { c });
        proof {
            assert(out@ =~= all.take(i + 1));
        }
        i += 1;
    }
    proof {
        assert(all.take(all.len() as int) =~= all);
    }
    out
}

/// A text as a metaspace pre-tokenizer writes it.
pub open spec fn metaspaced(s: Seq<char>, replacement: char, prepend: bool) -> Seq<char> {
    let t = replaced(s, ' ', replacement);
    if prepend {
        seq![replacement] + t
    } else {
        t
    }
}

/// What stands behind the leading white space.
pub open spec fn behind_white_space(s: Seq<char>) -> Seq<char>
    decreases s.len(),
{
    if s.len() > 0 && crate::text::is_white_space(s[0]) {
        behind_white_space(s.skip(1))
    } else {
        s
    }
}

/// The length of the word with which a text begins.
pub open spec fn word_length(s: Seq<char>) -> int
    decreases s.len(),
{
    if s.len() == 0 || crate::text::is_white_space(s[0]) {
        0
    } else {
        1 + word_length(s.skip(1))
    }
}

proof fn lemma_word_length(s: Seq<char>)
    ensures
        0 <= word_length(s) <= s.len(),
        s.len() > 0 && !crate::text::is_white_space(s[0]) ==> word_length(s) > 0,
    decreases s.len(),
{
    if s.len() > 0 && !crate::text::is_white_space(s[0]) {
        lemma_word_length(s.skip(1));
    }
}

proof fn lemma_behind_white_space(s: Seq<char>)
    ensures
        behind_white_space(s).len() <= s.len(),
        behind_white_space(s).len() > 0 ==> !crate::text::is_white_space(behind_white_space(s)[0]),
    decreases s.len(),
{
    if s.len() > 0 && crate::text::is_white_space(s[0]) {
        lemma_behind_white_space(s.skip(1));
    }
}

/// The words of a text: its maximal runs without white space.
pub open spec fn words(s: Seq<char>) -> Seq<Seq<char>>
    decreases s.len(),
    via words_decreases
{
    let t = behind_white_space(s);
    if t.len() == 0 {
        Seq::empty()
    } else {
        let n = word_length(t);
        seq![t.take(n)] + words(t.skip(n))
    }
}

#[via_fn]
proof fn words_decreases(s: Seq<char>) {
    lemma_behind_white_space(s);
    lemma_word_length(behind_white_space(s));
}

/// The texts that the piece encoder is handed, in order.
pub open spec fn encoder_texts(config: TokenizerConfig, text: Seq<char>) -> Seq<Seq<char>> {
    let s = normalized(config.normalization@, text);
    match config.algorithm {
        TokenizerAlgorithm::Bpe { .. } => seq![s],
        TokenizerAlgorithm::Unigram { .. } => match config.pre_tokenizer@ {
            PreV::Metaspace { replacement, prepend } => seq![metaspaced(s, replacement, prepend)],
            _ => seq![s],
        },
        TokenizerAlgorithm::WordPiece { .. } => words(s),
    }
}

/// The ids of several encodings, one behind the other.
pub open spec fn joined(parts: Seq<Seq<u32>>) -> Seq<u32>
    decreases parts.len(),
{
    if parts.len() == 0 {
        Seq::empty()
    } else {
        joined(parts.drop_last()) + parts.last()
    }
}

/// The ids that are put in front of an encoding.
pub open spec fn leading_ids(config: TokenizerConfig) -> Seq<u32> {
    match config.special_tokens.bos_id {
        Some(bos) => if config.add_bos {
            seq![bos]
        } else {
            Seq::empty()
        },
        None => Seq::empty(),
    }
}

/// The ids that are put behind an encoding.
pub open spec fn trailing_ids(config: TokenizerConfig) -> Seq<u32> {
    if config.add_eos {
        seq![config.special_tokens.eos_id]
    } else {
        Seq::empty()
    }
}

/// Whether `parts` are what the encoder made of `texts`, one for one.
pub open spec fn all_encoded<E: Fn(&str) -> Vec<u32>>(
    encode: E,
    texts: Seq<Seq<char>>,
    parts: Seq<Seq<u32>>,
) -> bool {
    &&& parts.len() == texts.len()
    &&& forall|i: int| 0 <= i < texts.len() ==> encodes(encode, #[trigger] texts[i], parts[i])
}

/// `String::from_utf8_lossy` of some bytes.
pub uninterp spec fn lossy_text(bytes: Seq<u8>) -> Seq<char>;

/// `String::from_utf8_lossy` is the text of valid UTF-8; of other bytes it is a
/// text with replacement characters.
#[verifier::external_body]
fn from_utf8_lossy(bytes: &[u8]) -> (r: String)
    ensures
        r@ == lossy_text(bytes@),
        vstd::utf8::valid_utf8(bytes@) ==> r@ == vstd::utf8::decode_utf8(bytes@),
{
    String::from_utf8_lossy(bytes).into_owned()
}

/// The byte that a piece of the form `<0xNN>` stands for.
pub open spec fn byte_piece(s: Seq<char>) -> Option<u8> {
    if s.len() == 6 && s[0] == '<' && s[1] == '0' && s[2] == 'x' && s[5] == '>' {
        match (hex_digit(s[3]), hex_digit(s[4])) {
            (Some(h), Some(l)) => Some((16 * h + l) as u8),
            _ => None,
        }
    } else {
        None
    }
}

/// The value of a hex digit of either case.
pub open spec fn hex_digit(c: char) -> Option<u8> {
    if '0' <= c <= '9' {
        Some((c as u8 - 48) as u8)
    } else if 'a' <= c <= 'f' {
        Some((c as u8 - 87) as u8)
    } else if 'A' <= c <= 'F' {
        Some((c as u8 - 55) as u8)
    } else {
        None
    }
}

fn hex_digit_of(c: char) -> (r: Option<u8>)
    ensures
        r == hex_digit(c),
        r is Some ==> r->0 < 16,
{
    if '0' <= c && c <= '9' {
        Some(c as u8 - 48)
    } else if 'a' <= c && c <= 'f' {
        Some(c as u8 - 87)
    } else if 'A' <= c && c <= 'F' {
        Some(c as u8 - 55)
    } else {
        None
    }
}

/// The byte that a piece of the form `<0xNN>` stands for.
pub fn parse_byte_fallback(piece: &str) -> (r: Option<u8>)
    ensures
        r == byte_piece(piece@),
{
    let c = chars_of(piece);
    if c.len() == 6 && c[0] == '<' && c[1] == '0' && c[2] == 'x' && c[5] == '>' {
        match (hex_digit_of(c[3]), hex_digit_of(c[4])) {
            (Some(h), Some(l)) => Some(16 * h + l),
            _ => None,
        }
    } else {
        None
    }
}

/// The bytes of one token: the byte that it stands for, where bytes fall back to
/// pieces, else its own bytes; nothing for an unknown id.
pub open spec fn piece_bytes(tokens: Seq<Seq<u8>>, byte_fallback: bool, id: u32) -> Seq<u8> {
    let byte = match crate::vocab::token_text(tokens, id) {
        Some(s) => byte_piece(s),
        None => None,
    };
    if byte_fallback && byte is Some {
        seq![byte->0]
    } else if id < tokens.len() {
        tokens[id as int]
    } else {
        Seq::empty()
    }
}

/// The bytes of some tokens, one behind the other.
pub open spec fn pieces_bytes(tokens: Seq<Seq<u8>>, byte_fallback: bool, ids: Seq<u32>) -> Seq<u8>
    decreases ids.len(),
{
    if ids.len() == 0 {
        Seq::empty()
    } else {
        pieces_bytes(tokens, byte_fallback, ids.drop_last()) + piece_bytes(
            tokens,
            byte_fallback,
            ids.last(),
        )
    }
}

/// A text without its one leading space.
pub open spec fn without_space(s: Seq<char>) -> Seq<char> {
    if s.len() > 0 && s[0] == ' ' {
        s.skip(1)
    } else {
        s
    }
}

/// Whether a normalization puts a space in front.
pub open spec fn prepends_space(norm: NormV) -> bool {
    match norm {
        NormV::Sequence(steps) => exists|i: int|
            0 <= i < steps.len() && #[trigger] steps[i] == NormStep::PrependSpace,
        _ => false,
    }
}

/// The text of a decoded unigram sentence: the metaspace becomes a space again,
/// and the space that encoding put in front is taken off.
pub open spec fn sentence_text(pre: PreV, norm: NormV, s: Seq<char>) -> Seq<char> {
    match pre {
        PreV::Metaspace { replacement, prepend } => {
            let t = replaced(s, replacement, ' ');
            if prepend {
                without_space(t)
            } else {
                t
            }
        },
        _ => if prepends_space(norm) {
            without_space(s)
        } else {
            s
        },
    }
}

/// The texts of those tokens that are text, one behind the other.
pub open spec fn token_texts(tokens: Seq<Seq<u8>>, ids: Seq<u32>) -> Seq<char>
    decreases ids.len(),
{
    if ids.len() == 0 {
        Seq::empty()
    } else {
        let front = token_texts(tokens, ids.drop_last());
        match crate::vocab::token_text(tokens, ids.last()) {
            Some(s) => front + s,
            None => front,
        }
    }
}

/// The ids that decoding looks at: all but the begin and the end token.
pub open spec fn content_ids(bos: Option<u32>, eos: u32, ids: Seq<u32>) -> Seq<u32>
    decreases ids.len(),
{
    if ids.len() == 0 {
        Seq::empty()
    } else {
        let front = content_ids(bos, eos, ids.drop_last());
        if bos == Some(ids.last()) || ids.last() == eos {
            front
        } else {
            front.push(ids.last())
        }
    }
}

/// Whether `r` is what the ids decode to. A byte-pair encoding is decoded by its
/// own decoder.
pub open spec fn decodes<D: Fn(&Vec<u32>) -> String>(
    config: TokenizerConfig,
    decode: D,
    ids: Seq<u32>,
    r: Seq<char>,
) -> bool {
    match config.algorithm {
        TokenizerAlgorithm::Bpe { .. } => exists|v: Vec<u32>, s: String| #[trigger]
            call_ensures(decode, (&v,), s) && v@ == ids && s@ == r,
        TokenizerAlgorithm::Unigram { vocab, .. } => r == sentence_text(
            config.pre_tokenizer@,
            config.normalization@,
            lossy_text(pieces_bytes(vocab.tokens(), config.byte_fallback, ids)),
        ),
        TokenizerAlgorithm::WordPiece { vocab, .. } => r == token_texts(vocab.tokens(), ids),
    }
}

/// The vocabulary of an algorithm.
pub open spec fn vocab_of(a: TokenizerAlgorithm) -> VocabTable {
    match a {
        TokenizerAlgorithm::Bpe { vocab, .. } => vocab,
        TokenizerAlgorithm::Unigram { vocab, .. } => vocab,
        TokenizerAlgorithm::WordPiece { vocab, .. } => vocab,
    }
}

/// The text of a special-token field: a string, or the `content` of an object.
pub open spec fn special_content(v: JsonV) -> Option<Seq<char>> {
    match crate::json::text_of(v) {
        Some(s) => Some(s),
        None => crate::json::text_of(crate::json::at(v, "content"@)),
    }
}

/// The text of a special-token field.
pub fn special_token_content(v: &Json) -> (r: Option<&str>)
    ensures
        match r {
            Some(s) => special_content(v@) == Some(s@),
            None => special_content(v@) == None::<Seq<char>>,
        },
{
    match v.as_str() {
        Some(s) => Some(s),
        None => v.text_at("content"),
    }
}

/// The id that a configuration names for a role, where the vocabulary knows the
/// token.
pub open spec fn named_id(ids: Map<Seq<char>, u32>, cfg: JsonV, key: Seq<char>) -> Option<u32> {
    match special_content(crate::json::at(cfg, key)) {
        Some(s) => if ids.dom().contains(s) {
            Some(ids[s])
        } else {
            None
        },
        None => None,
    }
}

fn find_named_id(vocab: &VocabTable, cfg: &Json, key: &str) -> (r: Option<u32>)
    ensures
        r == named_id(vocab.ids(), cfg@, key@),
{
    match cfg.get(key) {
        Some(v) => match special_token_content(v) {
            Some(s) => vocab.str_to_id(s),
            None => None,
        },
        None => None,
    }
}

/// The end id, begin id and begin flag after a `tokenizer_config.json` has been
/// consulted: what it does not state, or names no known token for, stays.
pub open spec fn resolved_specials(
    config: TokenizerConfig,
    cfg: Option<JsonV>,
) -> (u32, Option<u32>, bool) {
    let ids = vocab_of(config.algorithm).ids();
    match cfg {
        None => (config.special_tokens.eos_id, config.special_tokens.bos_id, config.add_bos),
        Some(c) => (
            match named_id(ids, c, "eos_token"@) {
                Some(id) => id,
                None => config.special_tokens.eos_id,
            },
            match named_id(ids, c, "bos_token"@) {
                Some(id) => Some(id),
                None => config.special_tokens.bos_id,
            },
            match crate::json::bool_of(crate::json::at(c, "add_bos_token"@)) {
                Some(b) => b,
                None => config.add_bos,
            },
        ),
    }
}

impl NativeTokenizer {
    /// A tokenizer of a configuration.
    pub fn from_config(config: TokenizerConfig) -> (r: NativeTokenizer)
        ensures
            r.config == config,
    {
        NativeTokenizer { config }
    }

    /// Load a tokenizer from bytes: a `tokenizer.json` or a SentencePiece model,
    /// told apart by their content. Token ranks are refused, for they do not
    /// determine a tokenizer.
    pub fn from_tokenizer_json_bytes<P: Fn(&[u8]) -> Result<TokenizerConfig, SpError>>(
        bytes: &[u8],
        parse_model_proto: P,
    ) -> (r: Result<NativeTokenizer, TokenizerError>)
        requires
            forall|b: &[u8]| call_requires(parse_model_proto, (b,)),
        ensures
            ({
                let body = body_of(bytes@);
                if first_byte(body) == Some(123u8) {
                    match crate::json::parsed_json(body) {
                        None => r == Err::<NativeTokenizer, TokenizerError>(TokenizerError::Json),
                        Some(json) => json_loads(json, config_of(r)),
                    }
                } else if is_token_ranks(body) {
                    r == Err::<NativeTokenizer, TokenizerError>(TokenizerError::TokenRanks)
                } else {
                    exists|parsed: Result<TokenizerConfig, SpError>| #[trigger]
                        call_ensures(parse_model_proto, (bytes,), parsed) && proto_loads(
                            parsed,
                            body,
                            config_of(r),
                        )
                }
            }),
    {
        let body = strip_bom_and_ws(bytes);
        if body.len() > 0 && body[0] == 123 {
            return match read_json(body) {
                None => Err(TokenizerError::Json),
                Some(json) => match from_json(&json) {
                    Ok(config) => Ok(NativeTokenizer { config }),
                    Err(e) => Err(e),
                },
            };
        }
        if looks_like_tiktoken_ranks(body) {
            return Err(TokenizerError::TokenRanks);
        }
        let parsed = parse_model_proto(bytes);
        proof {
            assert(call_ensures(parse_model_proto, (bytes,), parsed));
        }
        match parsed {
            Ok(config) => Ok(NativeTokenizer::from_config(config)),
            Err(SpError::Refused(why)) => Err(TokenizerError::Refused { why }),
            Err(SpError::NotModelProto(why)) => {
                let first: Option<u8> = if body.len() > 0 {
                    Some(body[0])
                } else {
                    None
                };
                Err(TokenizerError::Unrecognized { first, why })
            },
        }
    }

    /// Take the begin and end token from a `tokenizer_config.json`.
    ///
    /// This enriches and never fails: bytes that are no JSON text, a missing
    /// field and an unknown token leave what is there.
    pub fn resolve_special_tokens(&mut self, bytes: &[u8])
        ensures
            ({
                let (eos, bos, add_bos) = resolved_specials(
                    old(self).config,
                    crate::json::parsed_json(bytes@),
                );
                &&& final(self).config.special_tokens.eos_id == eos
                &&& final(self).config.special_tokens.bos_id == bos
                &&& final(self).config.add_bos == add_bos
                &&& final(self).config.algorithm == old(self).config.algorithm
                &&& final(self).config.special_tokens.pad_id == old(
                    self,
                ).config.special_tokens.pad_id
                &&& final(self).config.special_tokens.unk_id == old(
                    self,
                ).config.special_tokens.unk_id
                &&& final(self).config.special_tokens.additional == old(
                    self,
                ).config.special_tokens.additional
                &&& final(self).config.normalization == old(self).config.normalization
                &&& final(self).config.pre_tokenizer == old(self).config.pre_tokenizer
                &&& final(self).config.byte_fallback == old(self).config.byte_fallback
                &&& final(self).config.add_eos == old(self).config.add_eos
            }),
    {
        let cfg = match read_json(bytes) {
            Some(cfg) => cfg,
            None => {
                return;
            },
        };
        let eos: Option<u32> = find_named_id(self.vocab_table(), &cfg, "eos_token");
        let bos: Option<u32> = find_named_id(self.vocab_table(), &cfg, "bos_token");
        if let Some(id) = eos {
            self.config.special_tokens.eos_id = id;
        }
        if let Some(id) = bos {
            self.config.special_tokens.bos_id = Some(id);
        }
        if let Some(b) = cfg.bool_at("add_bos_token") {
            self.config.add_bos = b;
        }
    }

    /// The vocabulary.
    pub fn vocab_table(&self) -> (r: &VocabTable)
        ensures
            *r == vocab_of(self.config.algorithm),
    {
        match &self.config.algorithm {
            TokenizerAlgorithm::Bpe { vocab, .. } => vocab,
            TokenizerAlgorithm::Unigram { vocab, .. } => vocab,
            TokenizerAlgorithm::WordPiece { vocab, .. } => vocab,
        }
    }

    /// The normalized text.
    pub fn normalize(&self, text: &str) -> (r: Vec<char>)
        ensures
            r@ == normalized(self.config.normalization@, text@),
    {
        let mut out = chars_of(text);
        let steps = match &self.config.normalization {
            NormalizationConfig::Sequence(steps) => steps,
            _ => {
                return out;
            },
        };
        let mut i: usize = 0;
        proof {
            assert(steps@.take(0) =~= Seq::empty());
        }
        while i < steps.len()
            invariant
                i <= steps@.len(),
                out@ == norm_steps(text@, steps@.take(i as int)),
            decreases steps@.len() - i,
        {
            proof {
                assert(steps@.take(i + 1).drop_last() =~= steps@.take(i as int));
                assert(steps@.take(i + 1).last() == steps@[i as int]);
            }
            match steps[i] {
                NormStep::RemoveExtraWhitespace => {
                    out = collapsed(trimmed(out.as_slice()));
                },
                NormStep::PrependSpace => {
                    let ghost before = out@;
                    out.insert(0, ' ');
                    proof {
                        assert(out@ =~= seq![' '] + before);
                    }
                },
                NormStep::Other => {},
            }
            i += 1;
        }
        proof {
            assert(steps@.take(steps@.len() as int) =~= steps@);
        }
        out
    }

    /// The texts that the piece encoder is handed.
    pub fn encoder_inputs(&self, text: &str) -> (r: Vec<String>)
        ensures
            crate::prism::string_views(r@) == encoder_texts(self.config, text@),
    {
        let chars = self.normalize(text);
        let mut out: Vec<String> = Vec::new();
        match &self.config.algorithm {
            TokenizerAlgorithm::Bpe { .. } => {
                out.push(string_of(chars.as_slice()));
            },
            TokenizerAlgorithm::Unigram { .. } => {
                match &self.config.pre_tokenizer {
                    PreTokenizerConfig::Metaspace { replacement, prepend } => {
                        let mut t = replace_char(chars.as_slice(), ' ', *replacement);
                        if *prepend {
                            let ghost before = t@;
                            t.insert(0, *replacement);
                            proof {
                                assert(t@ =~= seq![*replacement] + before);
                            }
                        }
                        out.push(string_of(t.as_slice()));
                    },
                    _ => {
                        out.push(string_of(chars.as_slice()));
                    },
                }
            },
            TokenizerAlgorithm::WordPiece { .. } => {
                return split_words(chars.as_slice());
            },
        }
        proof {
            assert(crate::prism::string_views(out@) =~= encoder_texts(self.config, text@));
        }
        out
    }

    /// Encode a text: the ids of its pieces, with the begin and end token where
    /// the configuration asks for them. `encode_piece` is the piece encoder of
    /// the algorithm.
    pub fn encode<E: Fn(&str) -> Vec<u32>>(&self, text: &str, encode_piece: E) -> (ids: Vec<u32>)
        requires
            forall|t: &str| call_requires(encode_piece, (t,)),
        ensures
            exists|parts: Seq<Seq<u32>>| #[trigger]
                all_encoded(encode_piece, encoder_texts(self.config, text@), parts) && ids@
                    == leading_ids(self.config) + joined(parts) + trailing_ids(self.config),
    {
        let ghost texts = encoder_texts(self.config, text@);
        let ghost mut parts: Seq<Seq<u32>> = Seq::empty();
        let ghost lead = leading_ids(self.config);
        let mut ids: Vec<u32> = Vec::new();
        if self.config.add_bos {
            if let Some(bos) = self.config.special_tokens.bos_id {
                ids.push(bos);
            }
        }
        proof {
            assert(ids@ =~= lead);
            assert(lead + joined(parts) =~= lead);
        }
        let inputs = self.encoder_inputs(text);
        let mut i: usize = 0;
        while i < inputs.len()
            invariant
                i <= inputs@.len(),
                crate::prism::string_views(inputs@) == texts,
                forall|t: &str| call_requires(encode_piece, (t,)),
                parts.len() == i,
                forall|k: int|
                    0 <= k < i ==> encodes(encode_piece, #[trigger] texts[k], parts[k]),
                ids@ == lead + joined(parts),
            decreases inputs@.len() - i,
        {
            let piece = inputs[i].as_str();
            let mut more = encode_piece(piece);
            proof {
                assert(texts[i as int] == piece@);
                assert(call_ensures(encode_piece, (piece,), more));
                assert(encodes(encode_piece, texts[i as int], more@));
                let next = parts.push(more@);
                assert(next.drop_last() =~= parts);
                assert(lead + joined(parts) + more@ =~= lead + joined(next));
                parts = next;
            }
            ids.append(&mut more);
            i += 1;
        }
        if self.config.add_eos {
            ids.push(self.config.special_tokens.eos_id);
        }
        proof {
            assert(all_encoded(encode_piece, texts, parts));
            assert(ids@ =~= lead + joined(parts) + trailing_ids(self.config));
        }
        ids
    }

    /// The number of ids of a text, the begin and end token included; nothing where
    /// it does not fit 32 bits.
    pub fn count_tokens<E: Fn(&str) -> Vec<u32>>(&self, text: &str, encode_piece: E) -> (r: Option<
        u32,
    >)
        requires
            forall|t: &str| call_requires(encode_piece, (t,)),
        ensures
            exists|parts: Seq<Seq<u32>>| #[trigger]
                all_encoded(encode_piece, encoder_texts(self.config, text@), parts) && ({
                    let n = (leading_ids(self.config) + joined(parts) + trailing_ids(
                        self.config,
                    )).len();
                    r == (if n <= u32::MAX {
                        Some(n as u32)
                    } else {
                        None
                    })
                }),
    {
        let count: usize = self.encode(text, encode_piece).len();
        if count as u64 <= 0xffff_ffff {
            Some(count as u32)
        } else {
            None
        }
    }

    fn decode_raw<D: Fn(&Vec<u32>) -> String>(&self, tokens: Vec<u32>, decode_bpe: D) -> (r: String)
        requires
            forall|v: &Vec<u32>| call_requires(decode_bpe, (v,)),
        ensures
            decodes(self.config, decode_bpe, tokens@, r@),
    {
        match &self.config.algorithm {
            TokenizerAlgorithm::Bpe { .. } => {
                let s = decode_bpe(&tokens);
                proof {
                    assert(call_ensures(decode_bpe, (&tokens,), s));
                }
                s
            },
            TokenizerAlgorithm::Unigram { vocab, .. } => {
                let bytes = gather_bytes(vocab, self.config.byte_fallback, &tokens);
                let text = from_utf8_lossy(bytes.as_slice());
                let chars = chars_of(text.as_str());
                match &self.config.pre_tokenizer {
                    PreTokenizerConfig::Metaspace { replacement, prepend } => {
                        let t = replace_char(chars.as_slice(), *replacement, ' ');
                        if *prepend {
                            strip_space(t.as_slice())
                        } else {
                            string_of(t.as_slice())
                        }
                    },
                    _ => if has_prepend(&self.config.normalization) {
                        strip_space(chars.as_slice())
                    } else {
                        text
                    },
                }
            },
            TokenizerAlgorithm::WordPiece { vocab, .. } => {
                let mut out: String = String::new();
                let mut i: usize = 0;
                proof {
                    assert(tokens@.take(0) =~= Seq::empty());
                    assert(out@ =~= Seq::empty());
                }
                while i < tokens.len()
                    invariant
                        i <= tokens@.len(),
                        out@ == token_texts(vocab.tokens(), tokens@.take(i as int)),
                    decreases tokens@.len() - i,
                {
                    proof {
                        assert(tokens@.take(i + 1).drop_last() =~= tokens@.take(i as int));
                        assert(tokens@.take(i + 1).last() == tokens@[i as int]);
                    }
                    if let Some(s) = vocab.id_to_str(tokens[i]) {
                        out.append(s);
                    }
                    i += 1;
                }
                proof {
                    assert(tokens@.take(tokens@.len() as int) =~= tokens@);
                }
                out
            },
        }
    }

    /// Decode ids to text; the begin and the end token are left out.
    /// `decode_bpe` is the decoder of a byte-pair encoding.
    pub fn decode<D: Fn(&Vec<u32>) -> String>(&self, tokens: &[u32], decode_bpe: D) -> (r: String)
        requires
            forall|v: &Vec<u32>| call_requires(decode_bpe, (v,)),
        ensures
            decodes(
                self.config,
                decode_bpe,
                content_ids(
                    self.config.special_tokens.bos_id,
                    self.config.special_tokens.eos_id,
                    tokens@,
                ),
                r@,
            ),
    {
        let bos = self.config.special_tokens.bos_id;
        let eos: u32 = self.config.special_tokens.eos_id;
        let mut kept: Vec<u32> = Vec::new();
        let mut i: usize = 0;
        proof {
            assert(tokens@.take(0) =~= Seq::empty());
        }
        while i < tokens.len()
            invariant
                i <= tokens@.len(),
                kept@ == content_ids(bos, eos, tokens@.take(i as int)),
            decreases tokens@.len() - i,
        {
            let id: u32 = tokens[i];
            proof {
                assert(tokens@.take(i + 1).drop_last() =~= tokens@.take(i as int));
                assert(tokens@.take(i + 1).last() == id);
            }
            let is_bos: bool = match bos {
                Some(b) => b == id,
                None => false,
            };
            if !(is_bos || id == eos) {
                kept.push(id);
            }
            i += 1;
        }
        proof {
            assert(tokens@.take(tokens@.len() as int) =~= tokens@);
        }
        self.decode_raw(kept, decode_bpe)
    }

    /// The id of the end token.
    pub fn eos_token_id(&self) -> (id: u32)
        ensures
            id == self.config.special_tokens.eos_id,
    {
        self.config.special_tokens.eos_id
    }

    /// The id of the begin token.
    pub fn bos_token_id(&self) -> (id: Option<u32>)
        ensures
            id == self.config.special_tokens.bos_id,
    {
        self.config.special_tokens.bos_id
    }

    /// The number of ids.
    pub fn vocab_size(&self) -> (n: usize)
        ensures
            n == vocab_of(self.config.algorithm).tokens().len(),
    {
        self.vocab_table().len()
    }

    /// The text of a token.
    pub fn id_to_token(&self, id: u32) -> (r: Option<&str>)
        ensures
            match r {
                Some(t) => crate::vocab::token_text(vocab_of(self.config.algorithm).tokens(), id)
                    == Some(t@),
                None => crate::vocab::token_text(vocab_of(self.config.algorithm).tokens(), id)
                    == None::<Seq<char>>,
            },
    {
        self.vocab_table().id_to_str(id)
    }

    /// The id of a token.
    pub fn token_to_id(&self, token: &str) -> (r: Option<u32>)
        ensures
            ({
                let ids = vocab_of(self.config.algorithm).ids();
                match r {
                    Some(id) => ids.dom().contains(token@) && ids[token@] == id,
                    None => !ids.dom().contains(token@),
                }
            }),
    {
        self.vocab_table().str_to_id(token)
    }
}

fn strip_space(chars: &[char]) -> (r: String)
    ensures
        r@ == without_space(chars@),
{
    if chars.len() > 0 && chars[0] == ' ' {
        let rest = slice_subrange(chars, 1, chars.len());
        proof {
            assert(rest@ =~= chars@.skip(1));
        }
        string_of(rest)
    } else {
        string_of(chars)
    }
}

fn has_prepend(norm: &NormalizationConfig) -> (r: bool)
    ensures
        r == prepends_space(norm@),
{
    let steps = match norm {
        NormalizationConfig::Sequence(steps) => steps,
        _ => {
            return false;
        },
    };
    let mut i: usize = 0;
    while i < steps.len()
        invariant
            i <= steps@.len(),
            norm@ == NormV::Sequence(steps@),
            forall|k: int| 0 <= k < i ==> #[trigger] steps@[k] != NormStep::PrependSpace,
        decreases steps@.len() - i,
    {
        if steps[i] == NormStep::PrependSpace {
            return true;
        }
        i += 1;
    }
    false
}

fn gather_bytes(vocab: &VocabTable, byte_fallback: bool, tokens: &Vec<u32>) -> (bytes: Vec<u8>)
    ensures
        bytes@ == pieces_bytes(vocab.tokens(), byte_fallback, tokens@),
{
    let mut bytes: Vec<u8> = Vec::new();
    let mut i: usize = 0;
    proof {
        assert(tokens@.take(0) =~= Seq::empty());
    }
    while i < tokens.len()
        invariant
            i <= tokens@.len(),
            bytes@ == pieces_bytes(vocab.tokens(), byte_fallback, tokens@.take(i as int)),
        decreases tokens@.len() - i,
    {
        let id: u32 = tokens[i];
        let ghost before = bytes@;
        proof {
            assert(tokens@.take(i + 1).drop_last() =~= tokens@.take(i as int));
            assert(tokens@.take(i + 1).last() == id);
        }
        let byte: Option<u8> = match vocab.id_to_str(id) {
            Some(s) => parse_byte_fallback(s),
            None => None,
        };
        let whole: bool = match byte {
            Some(b) => if byte_fallback {
                bytes.push(b);
                proof {
                    assert(bytes@ =~= before + seq![b]);
                }
                false
            } else {
                true
            },
            None => true,
        };
        if whole {
            match vocab.token(id) {
                Some(t) => {
                    crate::bytes::push_bytes(&mut bytes, t.as_slice());
                },
                None => {
                    proof {
                        assert(before + Seq::<u8>::empty() =~= before);
                    }
                },
            }
        }
        i += 1;
    }
    proof {
        assert(tokens@.take(tokens@.len() as int) =~= tokens@);
    }
    bytes
}

fn split_words(chars: &[char]) -> (r: Vec<String>)
    ensures
        crate::prism::string_views(r@) == words(chars@),
{
    let mut out: Vec<String> = Vec::new();
    let mut rest: &[char] = chars;
    proof {
        assert(crate::prism::string_views(out@) =~= Seq::empty());
        assert(crate::prism::string_views(out@) + words(rest@) =~= words(rest@));
    }
    loop
        invariant
            words(chars@) == crate::prism::string_views(out@) + words(rest@),
        decreases rest@.len(),
    {
        let ghost whole = rest@;
        proof {
            lemma_behind_white_space(whole);
            lemma_word_length(behind_white_space(whole));
        }
        while rest.len() > 0 && white_space(rest[0])
            invariant
                rest@.len() <= whole.len(),
                behind_white_space(whole) == behind_white_space(rest@),
            ensures
                rest@ == behind_white_space(whole),
            decreases rest@.len(),
        {
            let ghost before = rest@;
            rest = slice_subrange(rest, 1, rest.len());
            proof {
                assert(rest@ =~= before.skip(1));
            }
        }
        if rest.len() == 0 {
            proof {
                assert(crate::prism::string_views(out@) + Seq::empty()
                    =~= crate::prism::string_views(out@));
            }
            return out;
        }
        let mut n: usize = 0;
        proof {
            assert(rest@.skip(0) =~= rest@);
        }
        while n < rest.len() && !white_space(rest[n])
            invariant
                n <= rest@.len(),
                word_length(rest@) == n + word_length(rest@.skip(n as int)),
            ensures
                n == word_length(rest@),
                n <= rest@.len(),
            decreases rest@.len() - n,
        {
            proof {
                assert(rest@.skip(n as int)[0] == rest@[n as int]);
                assert(rest@.skip(n as int).skip(1) =~= rest@.skip(n + 1));
            }
            n += 1;
        }
        let ghost t = rest@;
        let ghost before = crate::prism::string_views(out@);
        let word = slice_subrange(rest, 0, n);
        out.push(string_of(word));
        rest = slice_subrange(rest, n, rest.len());
        proof {
            assert(word@ =~= t.take(n as int));
            assert(rest@ =~= t.skip(n as int));
            assert(crate::prism::string_views(out@) =~= before.push(t.take(n as int)));
            assert(before + (seq![t.take(n as int)] + words(rest@))
                =~= crate::prism::string_views(out@) + words(rest@));
        }
    }
}

/// Decoding undoes the metaspace: a text that does not hold the replacement
/// character comes back as it was.
pub proof fn law_metaspace_round_trips(
    s: Seq<char>,
    replacement: char,
    prepend: bool,
    norm: NormV,
)
    requires
        !s.contains(replacement),
    ensures
        sentence_text(
            PreV::Metaspace { replacement, prepend },
            norm,
            metaspaced(s, replacement, prepend),
        ) == s,
{
    let t = replaced(metaspaced(s, replacement, prepend), replacement, ' ');
    let k: int = if prepend {
        1
    } else {
        0
    };
    assert forall|i: int| 0 <= i < s.len() implies t[i + k] == s[i] by {
        assert(s[i] != replacement) by {
            assert(s.contains(s[i]));
        }
    }
    if prepend {
        assert(t[0] == ' ');
        assert(t.skip(1) =~= s);
    } else {
        assert(t =~= s);
    }
}

/// Decoding takes off the space that normalization put in front.
pub proof fn law_a_prepended_space_is_taken_off(s: Seq<char>, pre: PreV)
    requires
        !(pre is Metaspace),
    ensures
        ({
            let norm = NormV::Sequence(seq![NormStep::PrependSpace]);
            sentence_text(pre, norm, normalized(norm, s)) == s
        }),
{
    let steps = seq![NormStep::PrependSpace];
    let norm = NormV::Sequence(steps);
    assert(steps[0] == NormStep::PrependSpace);
    reveal_with_fuel(norm_steps, 2);
    assert(steps.drop_last() =~= Seq::empty());
    assert(normalized(norm, s) == seq![' '] + s);
    assert((seq![' '] + s).skip(1) =~= s);
}

/// Whitespace removal leaves no leading, trailing or doubled space.
pub proof fn law_no_extra_space_is_left(s: Seq<char>)
    ensures
        ({
            let t = norm_step(s, NormStep::RemoveExtraWhitespace);
            &&& t.len() > 0 ==> t[0] != ' ' && t.last() != ' '
            &&& forall|i: int| 0 <= i < t.len() - 1 ==> !(#[trigger] t[i] == ' ' && t[i + 1] == ' ')
        }),
{
    let u = trim_front(s);
    lemma_trim_front(s);
    lemma_trim_back(u);
    let v = trim_back(u);
    lemma_collapse(v);
}

proof fn lemma_trim_front(s: Seq<char>)
    ensures
        trim_front(s).len() > 0 ==> trim_front(s)[0] != ' ',
    decreases s.len(),
{
    if s.len() > 0 && s[0] == ' ' {
        lemma_trim_front(s.skip(1));
    }
}

proof fn lemma_trim_back(s: Seq<char>)
    ensures
        trim_back(s).len() <= s.len(),
        trim_back(s).len() > 0 ==> trim_back(s).last() != ' ' && trim_back(s)[0] == s[0],
    decreases s.len(),
{
    if s.len() > 0 && s.last() == ' ' {
        lemma_trim_back(s.drop_last());
    }
}

proof fn lemma_collapse(s: Seq<char>)
    ensures
        s.len() > 0 ==> collapse(s).len() > 0 && collapse(s)[0] == s[0] && collapse(s).last()
            == s.last(),
        s.len() == 0 ==> collapse(s).len() == 0,
        forall|i: int|
            0 <= i < collapse(s).len() - 1 ==> !(#[trigger] collapse(s)[i] == ' ' && collapse(
                s,
            )[i + 1] == ' '),
    decreases s.len(),
{
    if s.len() > 0 {
        let front = s.drop_last();
        lemma_collapse(front);
        if s.len() > 1 {
            assert(front.last() == s[s.len() - 2]);
        }
    }
}

/// The begin and the end token never reach the text: decoding ids with them is
/// decoding the ids without them.
pub proof fn law_special_ids_do_not_decode(bos: Option<u32>, eos: u32, ids: Seq<u32>)
    ensures
        !content_ids(bos, eos, ids).contains(eos),
        bos is Some ==> !content_ids(bos, eos, ids).contains(bos->0),
        content_ids(bos, eos, content_ids(bos, eos, ids)) == content_ids(bos, eos, ids),
    decreases ids.len(),
{
    if ids.len() > 0 {
        let front = content_ids(bos, eos, ids.drop_last());
        law_special_ids_do_not_decode(bos, eos, ids.drop_last());
        let all = content_ids(bos, eos, ids);
        if !(bos == Some(ids.last()) || ids.last() == eos) {
            assert(all.drop_last() =~= front);
            assert forall|x: u32| all.contains(x) implies front.contains(x) || x == ids.last() by {
                let k = choose|k: int| 0 <= k < all.len() && all[k] == x;
                if k < front.len() {
                    assert(front[k] == x);
                }
            }
        }
    }
}

/// The ids of the pieces stand one behind the other in the order of the pieces: no
/// piece gives no id, one piece its own ids, and pieces that follow others give theirs
/// behind them.
pub proof fn law_piece_ids_stand_in_piece_order(a: Seq<Seq<u32>>, b: Seq<Seq<u32>>, p: Seq<u32>)
    ensures
        joined(Seq::empty()) == Seq::<u32>::empty(),
        joined(seq![p]) == p,
        joined(a + b) == joined(a) + joined(b),
    decreases b.len(),
{
    reveal_with_fuel(joined, 2);
    assert(seq![p].drop_last() =~= Seq::empty());
    assert(joined(seq![p]) =~= p);
    if b.len() == 0 {
        assert(a + b =~= a);
        assert(joined(a) + joined(b) =~= joined(a));
    } else {
        law_piece_ids_stand_in_piece_order(a, b.drop_last(), p);
        assert((a + b).drop_last() =~= a + b.drop_last());
        assert((a + b).last() == b.last());
        assert(joined(a + b) =~= joined(a) + joined(b));
    }
}

/// An encoding is the begin id where one is asked for and known, the ids of each piece
/// behind those of the pieces before it, and the end id where it is asked for.
pub proof fn law_an_encoding_frames_its_pieces(
    config: TokenizerConfig,
    parts: Seq<Seq<u32>>,
    k: int,
)
    requires
        0 <= k < parts.len(),
    ensures
        ({
            let ids = leading_ids(config) + joined(parts) + trailing_ids(config);
            let framed: int = if config.add_bos && config.special_tokens.bos_id is Some {
                1
            } else {
                0
            };
            let at = framed + joined(parts.take(k)).len();
            &&& framed == 1 ==> Some(ids[0]) == config.special_tokens.bos_id
            &&& at + parts[k].len() <= ids.len()
            &&& ids.subrange(at, (at + parts[k].len()) as int) == parts[k]
            &&& k == parts.len() - 1 ==> ids.len() == at + parts[k].len() + (if config.add_eos {
                1int
            } else {
                0int
            })
            &&& config.add_eos ==> ids.last() == config.special_tokens.eos_id
        }),
{
    let front = parts.take(k);
    let back = parts.skip(k + 1);
    assert(parts =~= front + seq![parts[k]] + back);
    law_piece_ids_stand_in_piece_order(front + seq![parts[k]], back, parts[k]);
    law_piece_ids_stand_in_piece_order(front, seq![parts[k]], parts[k]);
    let ids = leading_ids(config) + joined(parts) + trailing_ids(config);
    let at = leading_ids(config).len() + joined(front).len();
    assert(ids.subrange(at as int, (at + parts[k].len()) as int) =~= parts[k]);
    if k == parts.len() - 1 {
        assert(back =~= Seq::empty());
        law_piece_ids_stand_in_piece_order(front, front, parts[k]);
    }
}

/// Whether some characters hold no white space.
pub open spec fn unspaced(s: Seq<char>) -> bool {
    forall|i: int| 0 <= i < s.len() ==> !crate::text::is_white_space(#[trigger] s[i])
}

proof fn lemma_word_length_is(s: Seq<char>, n: int)
    requires
        0 <= n <= s.len(),
        unspaced(s.take(n)),
        n < s.len() ==> crate::text::is_white_space(s[n]),
    ensures
        word_length(s) == n,
    decreases s.len(),
{
    if n > 0 {
        assert(s.take(n)[0] == s[0]);
        let rest = s.skip(1);
        assert forall|i: int| 0 <= i < n - 1 implies !crate::text::is_white_space(
            #[trigger] rest.take(n - 1)[i],
        ) by {
            assert(rest.take(n - 1)[i] == s.take(n)[i + 1]);
        }
        lemma_word_length_is(rest, n - 1);
    }
}

proof fn lemma_word_is_unspaced(s: Seq<char>)
    ensures
        0 <= word_length(s) <= s.len(),
        unspaced(s.take(word_length(s))),
        word_length(s) < s.len() ==> crate::text::is_white_space(s[word_length(s)]),
    decreases s.len(),
{
    if s.len() > 0 && !crate::text::is_white_space(s[0]) {
        let rest = s.skip(1);
        lemma_word_is_unspaced(rest);
        let n = word_length(s);
        assert forall|i: int| 0 <= i < n implies !crate::text::is_white_space(
            #[trigger] s.take(n)[i],
        ) by {
            if i > 0 {
                assert(s.take(n)[i] == rest.take(n - 1)[i - 1]);
            }
        }
    }
}

/// White space parts words and nothing else does: a text without white space is one
/// word, and the words of two texts with white space between them are those of the one
/// and then those of the other.
pub proof fn law_words_part_at_white_space(a: Seq<char>, c: char, b: Seq<char>)
    requires
        crate::text::is_white_space(c),
    ensures
        words(a + seq![c] + b) == words(a) + words(b),
        a.len() > 0 && unspaced(a) ==> words(a) == seq![a],
        a.len() == 0 ==> words(a) == Seq::<Seq<char>>::empty(),
    decreases a.len(),
{
    let whole = a + seq![c] + b;
    let rest = whole.skip(1);
    if a.len() == 0 {
        assert(rest =~= b);
        assert(behind_white_space(whole) == behind_white_space(b));
        assert(words(whole) == words(b));
        assert(words(a) + words(b) =~= words(b));
    } else if crate::text::is_white_space(a[0]) {
        law_words_part_at_white_space(a.skip(1), c, b);
        assert(rest =~= a.skip(1) + seq![c] + b);
        assert(whole[0] == a[0]);
        assert(behind_white_space(whole) == behind_white_space(rest));
        assert(words(whole) == words(rest));
        assert(words(a) == words(a.skip(1)));
    } else {
        lemma_word_is_unspaced(a);
        lemma_word_length(a);
        let n = word_length(a);
        assert(whole.take(n) =~= a.take(n));
        assert(n < a.len() ==> whole[n] == a[n]);
        assert(n == a.len() ==> whole[n] == c);
        lemma_word_length_is(whole, n);
        assert(whole.skip(n) =~= a.skip(n) + seq![c] + b);
        law_words_part_at_white_space(a.skip(n), c, b);
        assert(whole[0] == a[0]);
        assert(words(whole) == seq![whole.take(n)] + words(whole.skip(n)));
        assert(words(a) == seq![a.take(n)] + words(a.skip(n)));
        assert(words(whole) =~= words(a) + words(b));
        if unspaced(a) {
            assert(n == a.len());
            assert(a.take(n) =~= a);
            assert(a.skip(n) =~= Seq::empty());
            assert(words(a) =~= seq![a]);
        }
    }
}

/// Every word has a character and no white space.
pub proof fn law_words_are_unspaced(s: Seq<char>)
    ensures
        forall|i: int|
            0 <= i < words(s).len() ==> (#[trigger] words(s)[i]).len() > 0 && unspaced(words(s)[i]),
    decreases s.len(),
{
    let t = behind_white_space(s);
    lemma_behind_white_space(s);
    if t.len() > 0 {
        lemma_word_length(t);
        lemma_word_is_unspaced(t);
        let n = word_length(t);
        let rest = t.skip(n);
        law_words_are_unspaced(rest);
        assert(words(s) == seq![t.take(n)] + words(rest));
        assert forall|i: int| 0 <= i < words(s).len() implies (#[trigger] words(s)[i]).len() > 0
            && unspaced(words(s)[i]) by {
            if i > 0 {
                assert(words(s)[i] == words(rest)[i - 1]);
            }
        }
    }
}

/// What the piece encoder is handed: of a word-piece tokenizer the words of the
/// normalized text, of any other that text itself and nothing else; under a metaspace
/// a unigram text with the replacement for each space, and in front where it is asked
/// for.
pub proof fn law_what_the_encoder_is_handed(config: TokenizerConfig, text: Seq<char>)
    ensures
        ({
            let s = normalized(config.normalization@, text);
            let handed = encoder_texts(config, text);
            match config.algorithm {
                TokenizerAlgorithm::Bpe { .. } => handed == seq![s],
                TokenizerAlgorithm::WordPiece { .. } => handed == words(s),
                TokenizerAlgorithm::Unigram { .. } => match config.pre_tokenizer@ {
                    PreV::Metaspace { replacement, prepend } => {
                        let front: int = if prepend {
                            1
                        } else {
                            0
                        };
                        &&& handed.len() == 1
                        &&& handed[0].len() == s.len() + front
                        &&& prepend ==> handed[0][0] == replacement
                        &&& forall|i: int|
                            0 <= i < s.len() ==> #[trigger] handed[0][front + i] == (if s[i] == ' ' {
                                replacement
                            } else {
                                s[i]
                            })
                    },
                    _ => handed == seq![s],
                },
            }
        }),
{
}

/// Normalization is its steps one after the other: without steps a text stays as it is,
/// further steps are applied to what the steps before them made, one step puts a space
/// in front, and a step that is not known changes nothing.
pub proof fn law_normalization_is_its_steps(a: Seq<NormStep>, b: Seq<NormStep>, s: Seq<char>)
    ensures
        normalized(NormV::Sequence(Seq::empty()), s) == s,
        normalized(NormV::Sequence(a + b), s) == normalized(
            NormV::Sequence(b),
            normalized(NormV::Sequence(a), s),
        ),
        normalized(NormV::Sequence(seq![NormStep::Other]), s) == s,
        normalized(NormV::Sequence(seq![NormStep::PrependSpace]), s) == seq![' '] + s,
        normalized(NormV::Sequence(seq![NormStep::RemoveExtraWhitespace]), s) == norm_step(
            s,
            NormStep::RemoveExtraWhitespace,
        ),
    decreases b.len(),
{
    reveal_with_fuel(norm_steps, 2);
    assert(seq![NormStep::Other].drop_last() =~= Seq::empty());
    assert(seq![NormStep::PrependSpace].drop_last() =~= Seq::empty());
    assert(seq![NormStep::RemoveExtraWhitespace].drop_last() =~= Seq::empty());
    if b.len() == 0 {
        assert(a + b =~= a);
    } else {
        law_normalization_is_its_steps(a, b.drop_last(), s);
        assert((a + b).drop_last() =~= a + b.drop_last());
        assert((a + b).last() == b.last());
    }
}

proof fn lemma_collapse_join(a: Seq<char>, b: Seq<char>)
    requires
        a.len() == 0 || b.len() == 0 || a.last() != ' ' || b[0] != ' ',
    ensures
        collapse(a + b) == collapse(a) + collapse(b),
    decreases b.len(),
{
    let s = a + b;
    if b.len() == 0 {
        assert(s =~= a);
        assert(collapse(a) + collapse(b) =~= collapse(a));
    } else {
        let front = b.drop_last();
        lemma_collapse_join(a, front);
        assert(s.drop_last() =~= a + front);
        assert(s.last() == b.last());
        if b.len() > 1 {
            assert(s[s.len() - 2] == b[b.len() - 2]);
        } else if a.len() > 0 {
            assert(s[s.len() - 2] == a.last());
        }
        assert(collapse(s) =~= collapse(a) + collapse(b));
    }
}

proof fn lemma_collapse_spaces(n: nat)
    requires
        n > 0,
    ensures
        collapse(Seq::new(n, |i: int| ' ')) == seq![' '],
    decreases n,
{
    let s = Seq::new(n, |i: int| ' ');
    reveal_with_fuel(collapse, 2);
    if n == 1 {
        assert(s.drop_last() =~= Seq::empty());
        assert(collapse(s) =~= seq![' ']);
    } else {
        lemma_collapse_spaces((n - 1) as nat);
        assert(s.drop_last() =~= Seq::new((n - 1) as nat, |i: int| ' '));
        assert(s[s.len() - 2] == ' ');
    }
}

proof fn lemma_collapse_clean(s: Seq<char>)
    requires
        !s.contains(' '),
    ensures
        collapse(s) == s,
    decreases s.len(),
{
    if s.len() > 0 {
        let front = s.drop_last();
        assert(s.last() != ' ') by {
            assert(s[s.len() - 1] == s.last());
        }
        assert forall|i: int| 0 <= i < front.len() implies front[i] != ' ' by {
            assert(s[i] == front[i]);
        }
        lemma_collapse_clean(front);
        assert(front.push(s.last()) =~= s);
    }
}

proof fn lemma_trim_back_front(s: Seq<char>)
    ensures
        trim_back(trim_front(s.push(' '))) == trim_back(trim_front(s)),
    decreases s.len(),
{
    let t = s.push(' ');
    if s.len() == 0 {
        assert(t.skip(1) =~= s);
        assert(trim_front(t) == trim_front(s));
    } else if s[0] == ' ' {
        lemma_trim_back_front(s.skip(1));
        assert(t.skip(1) =~= s.skip(1).push(' '));
    } else {
        assert(trim_front(t) == t);
        assert(trim_front(s) == s);
        assert(t.drop_last() =~= s);
    }
}

/// Removing extra white space drops the spaces at both ends, writes each run of spaces
/// between two texts as one, and leaves a text without a space as it is.
pub proof fn law_extra_spaces_are_removed(a: Seq<char>, n: nat, b: Seq<char>)
    ensures
        norm_step(seq![' '] + a, NormStep::RemoveExtraWhitespace) == norm_step(
            a,
            NormStep::RemoveExtraWhitespace,
        ),
        norm_step(a.push(' '), NormStep::RemoveExtraWhitespace) == norm_step(
            a,
            NormStep::RemoveExtraWhitespace,
        ),
        !a.contains(' ') ==> norm_step(a, NormStep::RemoveExtraWhitespace) == a,
        n > 0 && a.len() > 0 && b.len() > 0 && a[0] != ' ' && a.last() != ' ' && b[0] != ' '
            && b.last() != ' ' ==> norm_step(
            a + Seq::new(n, |i: int| ' ') + b,
            NormStep::RemoveExtraWhitespace,
        ) == norm_step(a, NormStep::RemoveExtraWhitespace) + seq![' '] + norm_step(
            b,
            NormStep::RemoveExtraWhitespace,
        ),
{
    assert((seq![' '] + a).skip(1) =~= a);
    assert((seq![' '] + a)[0] == ' ');
    lemma_trim_back_front(a);
    if !a.contains(' ') {
        if a.len() > 0 {
            assert(a[0] != ' ') by {
                assert(a.contains(a[0]));
            }
            assert(a.last() != ' ') by {
                assert(a[a.len() - 1] == a.last());
                assert(a.contains(a.last()));
            }
        }
        lemma_collapse_clean(a);
    }
    if n > 0 && a.len() > 0 && b.len() > 0 && a[0] != ' ' && a.last() != ' ' && b[0] != ' '
        && b.last() != ' ' {
        let gap = Seq::new(n, |i: int| ' ');
        let whole = a + gap + b;
        assert(whole[0] == a[0]);
        assert(whole.last() == b.last());
        lemma_collapse_join(a, gap);
        lemma_collapse_join(a + gap, b);
        lemma_collapse_spaces(n);
    }
}

/// The bytes of tokens stand in the order of the tokens.
pub proof fn law_token_bytes_stand_in_order(
    tokens: Seq<Seq<u8>>,
    byte_fallback: bool,
    a: Seq<u32>,
    b: Seq<u32>,
)
    ensures
        pieces_bytes(tokens, byte_fallback, Seq::empty()) == Seq::<u8>::empty(),
        pieces_bytes(tokens, byte_fallback, a + b) == pieces_bytes(tokens, byte_fallback, a)
            + pieces_bytes(tokens, byte_fallback, b),
        token_texts(tokens, Seq::empty()) == Seq::<char>::empty(),
        token_texts(tokens, a + b) == token_texts(tokens, a) + token_texts(tokens, b),
    decreases b.len(),
{
    if b.len() == 0 {
        assert(a + b =~= a);
        assert(pieces_bytes(tokens, byte_fallback, a) + pieces_bytes(tokens, byte_fallback, b)
            =~= pieces_bytes(tokens, byte_fallback, a));
        assert(token_texts(tokens, a) + token_texts(tokens, b) =~= token_texts(tokens, a));
    } else {
        law_token_bytes_stand_in_order(tokens, byte_fallback, a, b.drop_last());
        assert((a + b).drop_last() =~= a + b.drop_last());
        assert((a + b).last() == b.last());
        assert(pieces_bytes(tokens, byte_fallback, a + b) =~= pieces_bytes(tokens, byte_fallback, a)
            + pieces_bytes(tokens, byte_fallback, b));
        assert(token_texts(tokens, a + b) =~= token_texts(tokens, a) + token_texts(tokens, b));
    }
}

/// A token decodes to its own bytes; where bytes fall back to pieces, the piece that
/// spells a byte, in either case, decodes to that byte. An unknown id decodes to
/// nothing, and a token whose bytes are a text to that text.
pub proof fn law_a_token_decodes_to_itself(
    tokens: Seq<Seq<u8>>,
    byte_fallback: bool,
    id: u32,
    text: Seq<char>,
    byte: u8,
)
    ensures
        id >= tokens.len() ==> pieces_bytes(tokens, byte_fallback, seq![id]) == Seq::<u8>::empty()
            && token_texts(tokens, seq![id]) == Seq::<char>::empty(),
        id < tokens.len() && !byte_fallback ==> pieces_bytes(tokens, byte_fallback, seq![id])
            == tokens[id as int],
        id < tokens.len() && tokens[id as int] == vstd::utf8::encode_utf8(text) ==> token_texts(
            tokens,
            seq![id],
        ) == text,
        id < tokens.len() && tokens[id as int] == vstd::utf8::encode_utf8(text) && byte_fallback
            ==> pieces_bytes(tokens, byte_fallback, seq![id]) == (match byte_piece(text) {
            Some(b) => seq![b],
            None => tokens[id as int],
        }),
        id < tokens.len() && !vstd::utf8::valid_utf8(tokens[id as int]) ==> pieces_bytes(
            tokens,
            byte_fallback,
            seq![id],
        ) == tokens[id as int] && token_texts(tokens, seq![id]) == Seq::<char>::empty(),
{
    let ids = seq![id];
    reveal_with_fuel(pieces_bytes, 2);
    reveal_with_fuel(token_texts, 2);
    assert(ids.drop_last() =~= Seq::empty());
    assert(ids.last() == id);
    assert(pieces_bytes(tokens, byte_fallback, ids) =~= piece_bytes(tokens, byte_fallback, id));
    vstd::utf8::encode_utf8_valid_utf8(text);
    vstd::utf8::encode_utf8_decode_utf8(text);
    match crate::vocab::token_text(tokens, id) {
        Some(s) => {
            assert(token_texts(tokens, ids) =~= s);
        },
        None => {},
    }
}

/// The pieces that spell a byte are `<0x`, two hex digits of either case and `>`, and
/// the digits spell the byte.
pub proof fn law_a_byte_piece_spells_its_byte(s: Seq<char>, byte: u8)
    ensures
        ({
            let low = "0123456789abcdef"@;
            let high = "0123456789ABCDEF"@;
            let h = byte as int / 16;
            let l = byte as int % 16;
            byte_piece(s) == Some(byte) <==> s.len() == 6 && s[0] == '<' && s[1] == '0' && s[2]
                == 'x' && (s[3] == low[h] || s[3] == high[h]) && (s[4] == low[l] || s[4] == high[l])
                && s[5] == '>'
        }),
{
    reveal_strlit("0123456789abcdef");
    reveal_strlit("0123456789ABCDEF");
    let h = byte as int / 16;
    let l = byte as int % 16;
    if s.len() == 6 {
        lemma_hex_digit(s[3], h);
        lemma_hex_digit(s[4], l);
        lemma_hex_digit_bounds(s[3]);
        lemma_hex_digit_bounds(s[4]);
        assert(byte == 16 * h + l);
        if byte_piece(s) == Some(byte) {
            let a = hex_digit(s[3])->0 as int;
            let b = hex_digit(s[4])->0 as int;
            assert(16 * a + b == byte);
            assert(a == h && b == l);
        }
    }
}

proof fn lemma_hex_digit_bounds(c: char)
    ensures
        hex_digit(c) is Some ==> hex_digit(c)->0 < 16,
{
}

proof fn lemma_hex_digit(c: char, v: int)
    requires
        0 <= v < 16,
    ensures
        hex_digit(c) == Some(v as u8) <==> c == "0123456789abcdef"@[v] || c
            == "0123456789ABCDEF"@[v],
{
    reveal_strlit("0123456789abcdef");
    reveal_strlit("0123456789ABCDEF");
    let low = "0123456789abcdef"@[v];
    let high = "0123456789ABCDEF"@[v];
    assert(v < 10 ==> low as int == 48 + v && high as int == 48 + v);
    assert(v >= 10 ==> low as int == 87 + v && high as int == 55 + v);
}

/// Decoding looks at every id but the begin and the end token, in their order.
pub proof fn law_content_ids_are_the_others(bos: Option<u32>, eos: u32, ids: Seq<u32>)
    ensures
        content_ids(bos, eos, ids) == ids.filter(|id: u32| id != eos && bos != Some(id)),
    decreases ids.len(),
{
    let kept = |id: u32| id != eos && bos != Some(id);
    reveal(Seq::filter);
    if ids.len() > 0 {
        law_content_ids_are_the_others(bos, eos, ids.drop_last());
        assert(content_ids(bos, eos, ids.drop_last()) == ids.drop_last().filter(kept));
    }
    assert(content_ids(bos, eos, ids) == ids.filter(kept));
}

/// A decoded sentence is what its pieces spell, with a space for each metaspace; one
/// leading space is taken off where encoding had put one in front.
pub proof fn law_a_sentence_is_its_pieces(pre: PreV, norm: NormV, s: Seq<char>)
    ensures
        ({
            let r = sentence_text(pre, norm, s);
            let put = match pre {
                PreV::Metaspace { replacement, prepend } => prepend,
                _ => norm matches NormV::Sequence(steps) && exists|i: int|
                    0 <= i < steps.len() && #[trigger] steps[i] == NormStep::PrependSpace,
            };
            let shown = |i: int|
                match pre {
                    PreV::Metaspace { replacement, prepend } => if s[i] == replacement {
                        ' '
                    } else {
                        s[i]
                    },
                    _ => s[i],
                };
            let off: int = if put && s.len() > 0 && shown(0) == ' ' {
                1
            } else {
                0
            };
            &&& r.len() == s.len() - off
            &&& forall|i: int| 0 <= i < r.len() ==> #[trigger] r[i] == shown(i + off)
        }),
{
}

/// Whether `body` is what stands in `t` behind its leading ASCII white space.
pub open spec fn stands_behind_space(t: Seq<u8>, body: Seq<u8>) -> bool {
    exists|n: int|
        {
            &&& 0 <= n <= t.len()
            &&& body == #[trigger] t.skip(n)
            &&& forall|k: int|
                0 <= k < n ==> #[trigger] t[k] == 32 || t[k] == 9 || t[k] == 10 || t[k] == 12
                    || t[k] == 13
            &&& n < t.len() ==> t[n] != 32 && t[n] != 9 && t[n] != 10 && t[n] != 12 && t[n] != 13
        }
}

/// The body by which a format is told is what stands behind the byte-order mark, if
/// there is one, and the ASCII white space behind that.
pub proof fn law_the_body_is_behind_mark_and_space(s: Seq<u8>)
    ensures
        s.len() >= 3 && s[0] == 0xEF && s[1] == 0xBB && s[2] == 0xBF ==> stands_behind_space(
            s.skip(3),
            body_of(s),
        ),
        s.len() < 3 || s[0] != 0xEF || s[1] != 0xBB || s[2] != 0xBF ==> stands_behind_space(
            s,
            body_of(s),
        ),
{
    let t = behind_bom(s);
    let n = lemma_behind_spaces(t);
    assert(body_of(s) == t.skip(n));
    assert forall|k: int| 0 <= k < n implies #[trigger] t[k] == 32 || t[k] == 9 || t[k] == 10
        || t[k] == 12 || t[k] == 13 by {
        assert(is_ascii_space(t[k]));
    }
    assert(stands_behind_space(t, body_of(s)));
}

proof fn lemma_behind_spaces(t: Seq<u8>) -> (n: int)
    ensures
        0 <= n <= t.len(),
        behind_spaces(t) == t.skip(n),
        forall|k: int| 0 <= k < n ==> is_ascii_space(#[trigger] t[k]),
        n < t.len() ==> !is_ascii_space(t[n]),
    decreases t.len(),
{
    if t.len() > 0 && is_ascii_space(t[0]) {
        let rest = t.skip(1);
        let n = lemma_behind_spaces(rest);
        assert(rest.skip(n) =~= t.skip(n + 1));
        assert forall|k: int| 0 <= k < n + 1 implies is_ascii_space(#[trigger] t[k]) by {
            if k > 0 {
                assert(rest[k - 1] == t[k]);
            }
        }
        assert(n + 1 < t.len() ==> rest[n] == t[n + 1]);
        n + 1
    } else {
        assert(t.skip(0) =~= t);
        0
    }
}

/// Whether some bytes begin with a base-64 token, a space and a decimal rank that ends
/// its line: the token in front of place `i`, the rank from there to place `j`.
pub open spec fn ranks_at(s: Seq<u8>, i: int, j: int) -> bool {
    &&& 0 < i && i + 1 < j <= s.len()
    &&& s[i] == 32
    &&& forall|k: int|
        0 <= k < i ==> 48 <= #[trigger] s[k] <= 57 || 65 <= s[k] <= 90 || 97 <= s[k] <= 122 || s[k]
            == 43 || s[k] == 47 || s[k] == 61
    &&& forall|k: int| i < k < j ==> 48 <= #[trigger] s[k] <= 57
    &&& j == s.len() || s[j] == 10 || (s[j] == 13 && (j + 1 == s.len() || s[j + 1] == 10))
}

/// Token ranks are told by their first line: a base-64 token, one space and a decimal
/// rank, with nothing else on the line but the carriage return that may end it.
pub proof fn law_token_ranks_are_told_by_their_first_line(s: Seq<u8>)
    ensures
        is_token_ranks(s) <==> exists|i: int, j: int| ranks_at(s, i, j),
{
    let line = first_line(s);
    if is_token_ranks(s) {
        crate::text::law_the_first_place_is_found(s, seq![10u8]);
        crate::text::law_the_first_place_is_found(line, seq![32u8]);
        let i = crate::text::find(line, seq![32u8])->0;
        let j = line.len() as int;
        let token = line.take(i);
        let rank = line.skip(i + 1);
        assert(line.subrange(i, i + 1)[0] == 32);
        assert(line[i] == 32);
        assert(line =~= s.take(j));
        match crate::text::find(s, seq![10u8]) {
            Some(p) => {
                assert(s.subrange(p, p + 1)[0] == 10);
                assert(s[p] == 10);
                if j < p {
                    assert(s.take(p).last() == s[p - 1]);
                }
            },
            None => {
                if j < s.len() {
                    assert(s.last() == s[s.len() - 1]);
                }
            },
        }
        assert forall|k: int| 0 <= k < i implies 48 <= #[trigger] s[k] <= 57 || 65 <= s[k] <= 90
            || 97 <= s[k] <= 122 || s[k] == 43 || s[k] == 47 || s[k] == 61 by {
            assert(token[k] == s[k]);
            assert(is_base64(token[k]));
        }
        assert forall|k: int| i < k < j implies 48 <= #[trigger] s[k] <= 57 by {
            assert(rank[k - i - 1] == s[k]);
        }
        assert(s[i] == line[i]);
        assert(ranks_at(s, i, j));
    }
    if exists|i: int, j: int| ranks_at(s, i, j) {
        let (i, j) = choose|i: int, j: int| ranks_at(s, i, j);
        assert forall|k: int| 0 <= k < j implies s[k] != 10 && s[k] != 13 by {
            if k < i {
                assert(48 <= s[k] <= 57 || 65 <= s[k] <= 90 || 97 <= s[k] <= 122 || s[k] == 43
                    || s[k] == 47 || s[k] == 61);
            } else if k > i {
                assert(48 <= s[k] <= 57);
            }
        }
        if j == s.len() {
            crate::text::lemma_find_nothing(s, seq![10u8]);
            assert(s.last() == s[j - 1]);
            assert(s.take(j) =~= s);
        } else if s[j] == 10 {
            lemma_find_byte(s, 10, j);
            assert(s.take(j).last() == s[j - 1]);
        } else if j + 1 == s.len() {
            crate::text::lemma_find_nothing(s, seq![10u8]);
            assert(s.last() == s[j]);
            assert(s.drop_last() =~= s.take(j));
        } else {
            lemma_find_byte(s, 10, j + 1);
            assert(s.take(j + 1).last() == s[j]);
            assert(s.take(j + 1).drop_last() =~= s.take(j));
        }
        assert(line =~= s.take(j));
        assert forall|k: int| 0 <= k < i implies line[k] != 32 by {
            assert(line[k] == s[k]);
        }
        lemma_find_byte(line, 32, i);
        let token = line.take(i);
        let rank = line.skip(i + 1);
        assert forall|k: int| 0 <= k < token.len() implies is_base64(#[trigger] token[k]) by {
            assert(token[k] == s[k]);
        }
        assert forall|k: int| 0 <= k < rank.len() implies 48 <= #[trigger] rank[k] <= 57 by {
            assert(rank[k] == s[k + i + 1]);
        }
    }
}

/// A tokenizer loads by the type of its model: a model without one is refused, so is one
/// of another type, by its name, and each known type loads to its own algorithm.
pub proof fn law_a_tokenizer_loads_by_its_type(
    json: JsonV,
    r: Result<TokenizerConfig, TokenizerError>,
)
    requires
        json_loads(json, r),
    ensures
        ({
            let kind = crate::json::at(crate::json::at(json, "model"@), "type"@);
            &&& !(kind is Text) ==> r == Err::<TokenizerConfig, TokenizerError>(
                TokenizerError::MissingType,
            )
            &&& kind == JsonV::Text("BPE"@) ==> (r matches Ok(c) ==> c.algorithm is Bpe)
            &&& kind == JsonV::Text("BPE"@) ==> crate::tokenizer_config::bpe_loads(json, r)
            &&& kind == JsonV::Text("Unigram"@) ==> (r matches Ok(c) ==> c.algorithm is Unigram)
            &&& kind == JsonV::Text("Unigram"@) ==> crate::tokenizer_config::unigram_loads(json, r)
            &&& kind == JsonV::Text("WordPiece"@) ==> (r matches Ok(c)
                ==> c.algorithm is WordPiece)
            &&& kind == JsonV::Text("WordPiece"@) ==> crate::tokenizer_config::wordpiece_loads(
                json,
                r,
            )
            &&& kind is Text && kind != JsonV::Text("BPE"@) && kind != JsonV::Text("Unigram"@)
                && kind != JsonV::Text("WordPiece"@) ==> (
            r matches Err(TokenizerError::UnsupportedType { name }) && kind == JsonV::Text(name@))
        }),
{
    reveal_strlit("BPE");
    reveal_strlit("Unigram");
    reveal_strlit("WordPiece");
    assert("BPE"@.len() == 3);
    assert("Unigram"@.len() == 7);
    assert("WordPiece"@.len() == 9);
    let kind = crate::json::at(crate::json::at(json, "model"@), "type"@);
    if kind == JsonV::Text("BPE"@) {
        crate::tokenizer_config::law_what_a_byte_pair_encoding_loads_to(json, r);
    }
}

/// A parsed SentencePiece model is taken as it is; a refusal is handed on with its
/// reason, and bytes that are no model are refused with theirs and the byte that they
/// begin with.
pub proof fn law_a_parsed_model_is_taken_as_it_is(
    parsed: Result<TokenizerConfig, SpError>,
    body: Seq<u8>,
    r: Result<TokenizerConfig, TokenizerError>,
)
    requires
        proto_loads(parsed, body, r),
    ensures
        parsed is Ok <==> r is Ok,
        parsed is Ok ==> r->Ok_0 == parsed->Ok_0,
        parsed matches Err(SpError::Refused(reason)) ==> (
        r matches Err(TokenizerError::Refused { why }) && why == reason),
        parsed matches Err(SpError::NotModelProto(reason)) ==> (
        r matches Err(TokenizerError::Unrecognized { first, why }) && why == reason && (first is Some
            <==> body.len() > 0) && (body.len() > 0 ==> first == Some(body[0]))),
{
}

/// Whether a configuration names a token for a role: by its text, or by an object with
/// that content.
pub open spec fn names(cfg: JsonV, key: Seq<char>, text: Seq<char>) -> bool {
    let v = crate::json::at(cfg, key);
    v == JsonV::Text(text) || (!(v is Text) && crate::json::at(v, "content"@) == JsonV::Text(text))
}

/// A configuration decides on the begin and the end token as far as it can: a token that
/// it names and the vocabulary knows gets its id, one that it does not name or that is
/// not known stays what it was, and so does whether the begin token is added where it
/// does not say.
pub proof fn law_named_tokens_are_resolved(
    config: TokenizerConfig,
    cfg: JsonV,
    text: Seq<char>,
)
    ensures
        ({
            let ids = vocab_of(config.algorithm).ids();
            let (eos, bos, add_bos) = resolved_specials(config, Some(cfg));
            &&& names(cfg, "eos_token"@, text) ==> eos == (if ids.dom().contains(text) {
                ids[text]
            } else {
                config.special_tokens.eos_id
            })
            &&& (forall|t: Seq<char>| !#[trigger] names(cfg, "eos_token"@, t)) ==> eos
                == config.special_tokens.eos_id
            &&& names(cfg, "bos_token"@, text) ==> bos == (if ids.dom().contains(text) {
                Some(ids[text])
            } else {
                config.special_tokens.bos_id
            })
            &&& (forall|t: Seq<char>| !#[trigger] names(cfg, "bos_token"@, t)) ==> bos
                == config.special_tokens.bos_id
            &&& crate::json::at(cfg, "add_bos_token"@) matches JsonV::Bool(b) ==> add_bos == b
            &&& !(crate::json::at(cfg, "add_bos_token"@) is Bool) ==> add_bos == config.add_bos
        }),
        resolved_specials(config, None) == (
            config.special_tokens.eos_id,
            config.special_tokens.bos_id,
            config.add_bos,
        ),
{
    lemma_special_content(cfg, "eos_token"@);
    lemma_special_content(cfg, "bos_token"@);
}

proof fn lemma_special_content(cfg: JsonV, key: Seq<char>)
    ensures
        match special_content(crate::json::at(cfg, key)) {
            Some(s) => names(cfg, key, s) && forall|t: Seq<char>| #[trigger]
                names(cfg, key, t) ==> t == s,
            None => forall|t: Seq<char>| !#[trigger] names(cfg, key, t),
        },
{
    if let Some(s) = special_content(crate::json::at(cfg, key)) {
        assert(names(cfg, key, s));
    }
}

/// The vocabulary of a tokenizer is that of its algorithm, whichever it is.
pub proof fn law_the_vocabulary_is_the_algorithms(a: TokenizerAlgorithm)
    ensures
        a matches TokenizerAlgorithm::Bpe { vocab, merges } ==> vocab_of(a) == vocab,
        a matches TokenizerAlgorithm::Unigram { vocab, score_bits } ==> vocab_of(a) == vocab,
        a is WordPiece ==> vocab_of(a) == a->WordPiece_vocab,
{
}

/// The parts of an encoding are what the encoder made of the texts, one for one and in
/// their order.
pub proof fn law_each_text_is_encoded_once<E: Fn(&str) -> Vec<u32>>(
    encode: E,
    texts: Seq<Seq<char>>,
    parts: Seq<Seq<u32>>,
    i: int,
)
    requires
        all_encoded(encode, texts, parts),
        0 <= i < texts.len(),
    ensures
        parts.len() == texts.len(),
        exists|t: &str, v: Vec<u32>| #[trigger]
            call_ensures(encode, (t,), v) && t@ == texts[i] && v@ == parts[i],
{
    assert(encodes(encode, texts[i], parts[i]));
}

/// What ids decode to: of a byte-pair encoding what its decoder gives for them, of a
/// unigram model the sentence of the bytes of its pieces, of a word-piece model the
/// texts of its tokens.
pub proof fn law_what_ids_decode_to<D: Fn(&Vec<u32>) -> String>(
    config: TokenizerConfig,
    decode: D,
    ids: Seq<u32>,
    r: Seq<char>,
)
    requires
        decodes(config, decode, ids, r),
    ensures
        config.algorithm is Bpe ==> exists|v: Vec<u32>, s: String| #[trigger]
            call_ensures(decode, (&v,), s) && v@ == ids && s@ == r,
        config.algorithm is Unigram ==> r == sentence_text(
            config.pre_tokenizer@,
            config.normalization@,
            lossy_text(
                pieces_bytes(vocab_of(config.algorithm).tokens(), config.byte_fallback, ids),
            ),
        ),
        config.algorithm is WordPiece ==> r == token_texts(vocab_of(config.algorithm).tokens(), ids),
{
}

/// An encoding begins with the begin id where it is asked for and known, ends with the
/// end id where it is asked for, and holds in between what the encoder made of each
/// text that it was handed, in the order of those texts.
pub proof fn law_an_encoding_is_its_pieces_in_order<E: Fn(&str) -> Vec<u32>>(
    t: &NativeTokenizer,
    text: &str,
    encode_piece: E,
    ids: Vec<u32>,
)
    requires
        call_ensures(NativeTokenizer::encode::<E>, (t, text, encode_piece), ids),
    ensures
        exists|parts: Seq<Seq<u32>>| #[trigger]
            all_encoded(encode_piece, encoder_texts(t.config, text@), parts) && ({
                let lead: int = if t.config.add_bos && t.config.special_tokens.bos_id is Some {
                    1
                } else {
                    0
                };
                let tail: int = if t.config.add_eos {
                    1
                } else {
                    0
                };
                &&& ids@.len() == lead + joined(parts).len() + tail
                &&& lead == 1 ==> Some(ids@[0]) == t.config.special_tokens.bos_id
                &&& tail == 1 ==> ids@.last() == t.config.special_tokens.eos_id
                &&& ids@.subrange(lead, ids@.len() - tail) == joined(parts)
            }),
{
    let parts = choose|parts: Seq<Seq<u32>>| #[trigger]
        all_encoded(encode_piece, encoder_texts(t.config, text@), parts) && ids@ == leading_ids(
            t.config,
        ) + joined(parts) + trailing_ids(t.config);
    let lead = leading_ids(t.config).len() as int;
    let tail = trailing_ids(t.config).len() as int;
    assert(ids@.subrange(lead, ids@.len() - tail) =~= joined(parts));
}

/// Tokens are counted with the begin and end token, as far as 32 bits hold their number.
pub proof fn law_tokens_are_counted_as_they_are_encoded<E: Fn(&str) -> Vec<u32>>(
    t: &NativeTokenizer,
    text: &str,
    encode_piece: E,
    r: Option<u32>,
)
    requires
        call_ensures(NativeTokenizer::count_tokens::<E>, (t, text, encode_piece), r),
    ensures
        exists|parts: Seq<Seq<u32>>| #[trigger]
            all_encoded(encode_piece, encoder_texts(t.config, text@), parts) && ({
                let n = joined(parts).len() + (if t.config.add_bos
                    && t.config.special_tokens.bos_id is Some {
                    1int
                } else {
                    0int
                }) + (if t.config.add_eos {
                    1int
                } else {
                    0int
                });
                &&& n <= u32::MAX ==> (r matches Some(c) && c == n)
                &&& n > u32::MAX ==> r is None
            }),
{
}

/// Decoding decodes the ids that are left without the begin and the end token.
pub proof fn law_decoding_leaves_the_frame_out<D: Fn(&Vec<u32>) -> String>(
    t: &NativeTokenizer,
    tokens: &[u32],
    decode_bpe: D,
    r: String,
)
    requires
        call_ensures(NativeTokenizer::decode::<D>, (t, tokens, decode_bpe), r),
    ensures
        decodes(
            t.config,
            decode_bpe,
            tokens@.filter(
                |id: u32|
                    id != t.config.special_tokens.eos_id && t.config.special_tokens.bos_id != Some(
                        id,
                    ),
            ),
            r@,
        ),
{
    law_content_ids_are_the_others(
        t.config.special_tokens.bos_id,
        t.config.special_tokens.eos_id,
        tokens@,
    );
}

/// A tokenizer speaks of the ids and tokens of the configuration that it was made from:
/// the text of an id is the one whose bytes stand at that id in its vocabulary.
pub proof fn law_a_tokenizer_speaks_of_its_configuration(
    config: TokenizerConfig,
    t: NativeTokenizer,
    eos: u32,
    bos: Option<u32>,
    n: usize,
    id: u32,
    token: Option<&str>,
)
    requires
        call_ensures(NativeTokenizer::from_config, (config,), t),
        call_ensures(NativeTokenizer::eos_token_id, (&t,), eos),
        call_ensures(NativeTokenizer::bos_token_id, (&t,), bos),
        call_ensures(NativeTokenizer::vocab_size, (&t,), n),
        call_ensures(NativeTokenizer::id_to_token, (&t, id), token),
    ensures
        eos == config.special_tokens.eos_id,
        bos == config.special_tokens.bos_id,
        n == vocab_of(config.algorithm).tokens().len(),
        id >= n ==> token is None,
        token matches Some(s) ==> id < n && vocab_of(config.algorithm).tokens()[id as int]
            == vstd::utf8::encode_utf8(s@),
{
    if let Some(s) = token {
        crate::vocab::law_a_token_text_is_its_bytes(
            vocab_of(config.algorithm).tokens(),
            id,
            s@,
        );
    }
}

} // verus!
