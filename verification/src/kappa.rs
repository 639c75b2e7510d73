//! κ-labels: the textual address of a piece of content.
//!
//! The label of some bytes is `blake3:` followed by the 64 lower-case hex
//! digits of their BLAKE3 digest. Content addressing is the integrity check:
//! bytes belong to a label exactly when they hash back to it.

use crate::text::string_of;
use vstd::prelude::*;
use vstd::utf8::*;

verus! {

/// The BLAKE3 digest of `bytes`.
pub uninterp spec fn blake3_digest(bytes: Seq<u8>) -> [u8; 32];

/// `blake3::hash` computes the digest of its input.
#[verifier::external_body]
pub(crate) fn blake3_hash(bytes: &[u8]) -> (digest: [u8; 32])
    ensures
        digest == blake3_digest(bytes@),
{
    *blake3::hash(bytes).as_bytes()
}

#[verifier::external_type_specification]
#[verifier::external_body]
pub struct ExHasher(blake3::Hasher);

/// The bytes that an incremental hasher has absorbed, in order.
pub uninterp spec fn absorbed(hasher: blake3::Hasher) -> Seq<u8>;

/// Whether an incremental hasher is in the default mode, without a key and without
/// a derivation context.
pub uninterp spec fn unkeyed(hasher: blake3::Hasher) -> bool;

/// `blake3::Hasher::new` is in the default mode and has absorbed nothing.
#[verifier::external_body]
fn hasher_new() -> (hasher: blake3::Hasher)
    ensures
        absorbed(hasher) == Seq::<u8>::empty(),
        unkeyed(hasher),
{
    blake3::Hasher::new()
}

/// `blake3::Hasher::update` in the default mode absorbs its input behind what came
/// before, and stays in that mode.
#[verifier::external_body]
fn hasher_update(hasher: &mut blake3::Hasher, bytes: &[u8])
    requires
        unkeyed(*old(hasher)),
    ensures
        absorbed(*final(hasher)) == absorbed(*old(hasher)) + bytes@,
        unkeyed(*final(hasher)),
{
    hasher.update(bytes);
}

/// `blake3::Hasher::finalize` in the default mode is the digest of everything
/// absorbed.
#[verifier::external_body]
fn hasher_finalize(hasher: &blake3::Hasher) -> (digest: [u8; 32])
    requires
        unkeyed(*hasher),
    ensures
        digest == blake3_digest(absorbed(*hasher)),
{
    *hasher.finalize().as_bytes()
}

/// The lower-case hex digit of a value below sixteen.
pub open spec fn hex_char(n: int) -> char {
    if n < 10 {
        ('0' as int + n) as char
    } else {
        ('a' as int + n - 10) as char
    }
}

/// The lower-case hex form of `bytes`, two digits a byte, high digit first.
pub open spec fn hex(bytes: Seq<u8>) -> Seq<char> {
    Seq::new(
        2 * bytes.len(),
        |i: int| hex_char(if i % 2 == 0 { bytes[i / 2] as int / 16 } else { bytes[i / 2] as int % 16 }),
    )
}

/// The label that names a digest.
pub open spec fn label_of_digest(digest: Seq<u8>) -> Seq<char> {
    "blake3:"@ + hex(digest)
}

/// The κ-label of `bytes`.
pub open spec fn kappa_label(bytes: Seq<u8>) -> Seq<char> {
    label_of_digest(blake3_digest(bytes)@)
}

fn hex_digit(n: u8) -> (c: char)
    requires
        n < 16,
    ensures
        c == hex_char(n as int),
{
    if n < 10 {
        (48 + n) as char
    } else {
        (97 + (n - 10)) as char
    }
}

/// Append the lower-case hex form of `bytes`.
pub(crate) fn push_hex(out: &mut Vec<char>, bytes: &[u8])
    ensures
        final(out)@ == old(out)@ + hex(bytes@),
{
    let ghost start = out@;
    let mut i: usize = 0;
    while i < bytes.len()
        invariant
            i <= bytes@.len(),
            out@ == start + hex(bytes@).take(2 * i),
        decreases bytes@.len() - i,
    {
        let b: u8 = bytes[i];
        out.push(hex_digit(b / 16));
        out.push(hex_digit(b % 16));
        proof {
            assert(hex(bytes@)[2 * i as int] == hex_char(b as int / 16));
            assert(hex(bytes@)[2 * i + 1] == hex_char(b as int % 16));
            assert(out@ =~= start + hex(bytes@).take(2 * (i + 1)));
        }
        i += 1;
    }
    proof {
        assert(hex(bytes@).take(2 * bytes@.len() as int) =~= hex(bytes@));
    }
}

/// The label that names `digest`.
fn label_text(digest: &[u8; 32]) -> (label: String)
    ensures
        label@ == label_of_digest(digest@),
{
    let mut chars = crate::text::chars_of("blake3:");
    push_hex(&mut chars, digest.as_slice());
    string_of(chars.as_slice())
}

/// The κ-label of `bytes`: `blake3:` and the lower-case hex of their digest.
pub fn kappa_of(bytes: &[u8]) -> (label: String)
    ensures
        label@ == kappa_label(bytes@),
{
    let digest = blake3_hash(bytes);
    label_text(&digest)
}

/// The address of `bytes` as the browser computes it: the same label.
pub fn compute_kappa(bytes: &[u8]) -> (label: String)
    ensures
        label@ == kappa_label(bytes@),
{
    kappa_of(bytes)
}

/// An incremental κ-label: content is fed chunk by chunk and the label of the
/// whole comes out, without the whole ever being held at once.
pub struct KappaHasher {
    hasher: blake3::Hasher,
}

impl View for KappaHasher {
    type V = Seq<u8>;

    closed spec fn view(&self) -> Seq<u8> {
        absorbed(self.hasher)
    }
}

impl KappaHasher {
    #[verifier::type_invariant]
    spec fn in_default_mode(self) -> bool {
        unkeyed(self.hasher)
    }

    /// A hasher that has seen nothing.
    pub fn new() -> (h: KappaHasher)
        ensures
            h@ == Seq::<u8>::empty(),
    {
        KappaHasher { hasher: hasher_new() }
    }

    /// Feed the next chunk.
    pub fn update(&mut self, bytes: &[u8])
        ensures
            final(self)@ == old(self)@ + bytes@,
    {
        proof {
            use_type_invariant(&*self);
        }
        let mut hasher = hasher_new();
        std::mem::swap(&mut hasher, &mut self.hasher);
        hasher_update(&mut hasher, bytes);
        self.hasher = hasher;
    }

    /// The label of everything fed, whatever the chunks were.
    pub fn finalize(self) -> (label: String)
        ensures
            label@ == kappa_label(self@),
    {
        proof {
            use_type_invariant(&self);
        }
        let digest = hasher_finalize(&self.hasher);
        label_text(&digest)
    }
}

impl Default for KappaHasher {
    fn default() -> (h: KappaHasher)
        ensures
            h@ == Seq::<u8>::empty(),
    {
        KappaHasher::new()
    }
}

/// Why a label names no digest.
#[derive(Debug, Clone, Copy, PartialEq, Eq, Structural)]
pub enum DigestError {
    /// The label does not begin with `blake3:`.
    Scheme,
    /// The digest part is this many bytes long, and not 64.
    Length(usize),
    /// A byte of the digest part is no hex digit.
    NotHex,
}

/// The value of a hex digit of either case.
pub open spec fn hex_value(b: u8) -> Option<u8> {
    if 48 <= b <= 57 {
        Some((b - 48) as u8)
    } else if 97 <= b <= 102 {
        Some((b - 87) as u8)
    } else if 65 <= b <= 70 {
        Some((b - 55) as u8)
    } else {
        None
    }
}

/// The value of a two-byte hex number: two hex digits, and nothing else.
pub open spec fn pair_value(hi: u8, lo: u8) -> Option<u8> {
    match (hex_value(hi), hex_value(lo)) {
        (Some(h), Some(l)) => Some((16 * h + l) as u8),
        _ => None,
    }
}

/// The bytes of the label behind `blake3:`, if it begins so.
pub open spec fn label_hex(kappa: Seq<char>) -> Option<Seq<u8>> {
    let bytes = encode_utf8(kappa);
    if crate::text::starts_with(bytes, encode_utf8("blake3:"@)) {
        Some(bytes.skip(7))
    } else {
        None
    }
}

/// The value of the `i`th byte pair of a digest part.
pub open spec fn digest_byte(digits: Seq<u8>, i: int) -> Option<u8> {
    pair_value(digits[2 * i], digits[2 * i + 1])
}

/// The digest that a label names, or why it names none.
pub open spec fn label_digest(kappa: Seq<char>) -> Result<Seq<u8>, DigestError> {
    match label_hex(kappa) {
        None => Err(DigestError::Scheme),
        Some(digits) => if digits.len() != 64 {
            Err(DigestError::Length(digits.len() as usize))
        } else if exists|i: int| 0 <= i < 32 && digest_byte(digits, i) is None {
            Err(DigestError::NotHex)
        } else {
            Ok(Seq::new(32, |i: int| digest_byte(digits, i)->0))
        },
    }
}

fn hex_digit_value(b: u8) -> (r: Option<u8>)
    ensures
        r == hex_value(b),
        r is Some ==> r->0 < 16,
{
    if 48 <= b && b <= 57 {
        Some(b - 48)
    } else if 97 <= b && b <= 102 {
        Some(b - 87)
    } else if 65 <= b && b <= 70 {
        Some(b - 55)
    } else {
        None
    }
}

proof fn lemma_scheme_bytes()
    ensures
        encode_utf8("blake3:"@) == seq![98u8, 108, 97, 107, 101, 51, 58],
        encode_utf8("blake3:"@).len() == 7,
        is_ascii_chars("blake3:"@),
{
    reveal_strlit("blake3:");
    assert(is_ascii_chars("blake3:"@));
    is_ascii_chars_encode_utf8("blake3:"@);
    assert(encode_utf8("blake3:"@) =~= seq![98u8, 108, 97, 107, 101, 51, 58]) by {
        let c = "blake3:"@;
        assert(c[0] as u8 == 98 && c[1] as u8 == 108 && c[2] as u8 == 97 && c[3] as u8 == 107
            && c[4] as u8 == 101 && c[5] as u8 == 51 && c[6] as u8 == 58);
    }
}

/// The 32-byte digest that a κ-label names.
///
/// The digits may be written in either case; a label that holds anything else is
/// refused.
pub fn kappa_digest(kappa: &str) -> (r: Result<[u8; 32], DigestError>)
    ensures
        match r {
            Ok(d) => label_digest(kappa@) == Ok::<Seq<u8>, DigestError>(d@),
            Err(e) => label_digest(kappa@) == Err::<Seq<u8>, DigestError>(e),
        },
{
    let bytes = kappa.as_bytes();
    let scheme = "blake3:".as_bytes();
    proof {
        lemma_scheme_bytes();
    }
    if bytes.len() < 7 {
        return Err(DigestError::Scheme);
    }
    if !crate::text::same_bytes(vstd::slice::slice_subrange(bytes, 0, 7), scheme) {
        return Err(DigestError::Scheme);
    }
    let digits = vstd::slice::slice_subrange(bytes, 7, bytes.len());
    proof {
        assert(digits@ =~= encode_utf8(kappa@).skip(7));
    }
    if digits.len() != 64 {
        return Err(DigestError::Length(digits.len()));
    }
    let mut out: [u8; 32] = [0u8; 32];
    let mut i: usize = 0;
    while i < 32
        invariant
            i <= 32,
            digits@.len() == 64,
            label_hex(kappa@) == Some(digits@),
            forall|k: int| 0 <= k < i ==> #[trigger] digest_byte(digits@, k) == Some(out@[k]),
        decreases 32 - i,
    {
        let hi: u8 = digits[2 * i];
        let lo: u8 = digits[2 * i + 1];
        let ghost v = digest_byte(digits@, i as int);
        let value: Option<u8> = match (hex_digit_value(hi), hex_digit_value(lo)) {
            (Some(h), Some(l)) => Some(16 * h + l),
            _ => None,
        };
        match value {
            Some(b) => {
                out[i] = b;
            },
            None => {
                proof {
                    assert(v is None);
                }
                return Err(DigestError::NotHex);
            },
        }
        i += 1;
    }
    proof {
        assert(out@ =~= Seq::new(32, |i: int| digest_byte(digits@, i)->0));
    }
    Ok(out)
}

proof fn lemma_hex_ascii(bytes: Seq<u8>)
    ensures
        is_ascii_chars(hex(bytes)),
        forall|i: int| 0 <= i < 2 * bytes.len() ==> (#[trigger] hex(bytes)[i]) as u8 <= 102,
{
}

proof fn lemma_hex_char(n: int)
    requires
        0 <= n < 16,
    ensures
        hex_value(hex_char(n) as u8) == Some(n as u8),
{
}

/// Whether a byte is a hex digit of either case.
pub open spec fn is_hex_digit(b: u8) -> bool {
    48 <= b <= 57 || 65 <= b <= 70 || 97 <= b <= 102
}

/// A label names a digest exactly when it is `blake3:` and sixty-four hex digits:
/// every malformed label is refused.
pub proof fn law_only_well_formed_labels_name_a_digest(kappa: Seq<char>)
    ensures
        label_digest(kappa) is Ok <==> (label_hex(kappa) matches Some(digits) && digits.len() == 64
            && forall|i: int| 0 <= i < 64 ==> is_hex_digit(#[trigger] digits[i])),
{
    if let Some(digits) = label_hex(kappa) {
        if digits.len() == 64 {
            if label_digest(kappa) is Ok {
                assert forall|i: int| 0 <= i < 64 implies is_hex_digit(#[trigger] digits[i]) by {
                    assert(digest_byte(digits, i / 2) is Some);
                    assert(i == 2 * (i / 2) || i == 2 * (i / 2) + 1);
                }
            }
            if forall|i: int| 0 <= i < 64 ==> is_hex_digit(#[trigger] digits[i]) {
                assert forall|i: int| 0 <= i < 32 implies digest_byte(digits, i) is Some by {
                    assert(is_hex_digit(digits[2 * i]));
                    assert(is_hex_digit(digits[2 * i + 1]));
                }
            }
        }
    }
}

/// A label decodes to the digest that it was made from.
pub proof fn law_label_names_its_digest(digest: Seq<u8>)
    requires
        digest.len() == 32,
    ensures
        label_digest(label_of_digest(digest)) == Ok::<Seq<u8>, DigestError>(digest),
{
    let label = label_of_digest(digest);
    lemma_scheme_bytes();
    reveal_strlit("blake3:");
    lemma_hex_ascii(digest);
    assert(is_ascii_chars(label)) by {
        assert forall|i: int| 0 <= i < label.len() implies '\0' <= #[trigger] label[i] <= '\u{7f}' by {
            if i < 7 {
                assert(label[i] == "blake3:"@[i]);
            } else {
                assert(label[i] == hex(digest)[i - 7]);
            }
        }
    }
    is_ascii_chars_encode_utf8(label);
    let bytes = encode_utf8(label);
    assert(bytes.take(7) =~= encode_utf8("blake3:"@)) by {
        assert forall|i: int| 0 <= i < 7 implies bytes[i] == encode_utf8("blake3:"@)[i] by {
            assert(label[i] == "blake3:"@[i]);
            is_ascii_chars_encode_utf8("blake3:"@);
            assert("blake3:"@[i] as u8 == encode_utf8("blake3:"@)[i]);
        }
    }
    let digits = bytes.skip(7);
    assert(digits.len() == 64);
    assert forall|i: int| 0 <= i < 32 implies #[trigger] digest_byte(digits, i) == Some(digest[i]) by {
        let b = digest[i];
        assert(label[7 + 2 * i] == hex(digest)[2 * i]);
        assert(label[7 + 2 * i + 1] == hex(digest)[2 * i + 1]);
        lemma_hex_char(b as int / 16);
        lemma_hex_char(b as int % 16);
        assert(digits[2 * i] == label[7 + 2 * i] as u8);
        assert(digits[2 * i + 1] == label[7 + 2 * i + 1] as u8);
        assert((2 * i + 1) / 2 == i);
    }
    assert(Seq::new(32, |i: int| digest_byte(digits, i)->0) =~= digest);
}

/// The κ of some content names exactly the digest of that content.
pub proof fn law_kappa_names_the_content_digest(bytes: Seq<u8>)
    ensures
        label_digest(kappa_label(bytes)) == Ok::<Seq<u8>, DigestError>(blake3_digest(bytes)@),
{
    law_label_names_its_digest(blake3_digest(bytes)@);
}

/// Two labels are equal exactly when the digests that they name are.
pub proof fn law_labels_separate_digests(a: Seq<u8>, b: Seq<u8>)
    requires
        a.len() == 32,
        b.len() == 32,
    ensures
        label_of_digest(a) == label_of_digest(b) <==> a == b,
{
    law_label_names_its_digest(a);
    law_label_names_its_digest(b);
}

/// A κ-label is seven characters of scheme and 64 hex digits.
pub proof fn law_label_shape(bytes: Seq<u8>)
    ensures
        kappa_label(bytes).len() == 71,
        crate::text::starts_with(kappa_label(bytes), "blake3:"@),
{
    reveal_strlit("blake3:");
    assert(kappa_label(bytes).take(7) =~= "blake3:"@);
}

/// The name of the file that holds a κ's content: `:` would split off a data
/// stream on some filesystems, so each is written `-`, and `.bin` is appended.
pub open spec fn file_name(kappa: Seq<char>) -> Seq<char> {
    kappa.map_values(|c: char| if c == ':' { '-' } else { c }) + ".bin"@
}

/// The name of the file that holds the content of `kappa`.
pub fn kappa_file_name(kappa: &str) -> (name: String)
    ensures
        name@ == file_name(kappa@),
{
    let chars = crate::text::chars_of(kappa);
    let mut out: Vec<char> = Vec::new();
    let ghost mapped = kappa@.map_values(|c: char| if c == ':' { '-' } else { c });
    let mut i: usize = 0;
    while i < chars.len()
        invariant
            i <= chars@.len(),
            chars@ == kappa@,
            mapped == kappa@.map_values(|c: char| if c == ':' { '-' } else { c }),
            out@ == mapped.take(i as int),
        decreases chars@.len() - i,
    {
        let c = chars[i];
        out.push(if c == ':' { '-' } else { c });
        proof {
            assert(out@ =~= mapped.take(i + 1));
        }
        i += 1;
    }
    let mut ext = crate::text::chars_of(".bin");
    out.append(&mut ext);
    proof {
        assert(mapped.take(mapped.len() as int) =~= mapped);
        assert(out@ =~= file_name(kappa@));
    }
    string_of(out.as_slice())
}

/// A file name holds no `:`, so every entry is a plain file.
pub proof fn law_file_name_is_portable(kappa: Seq<char>)
    ensures
        !file_name(kappa).contains(':'),
{
    reveal_strlit(".bin");
    assert forall|i: int| 0 <= i < file_name(kappa).len() implies file_name(kappa)[i] != ':' by {
        if i >= kappa.len() {
            assert(file_name(kappa)[i] == ".bin"@[i - kappa.len()]);
        }
    }
}

/// Distinct content labels get distinct files.
pub proof fn law_file_names_separate_labels(a: Seq<u8>, b: Seq<u8>)
    requires
        a.len() == 32,
        b.len() == 32,
        file_name(label_of_digest(a)) == file_name(label_of_digest(b)),
    ensures
        a == b,
{
    let x = label_of_digest(a);
    let y = label_of_digest(b);
    reveal_strlit("blake3:");
    assert(x.len() == y.len() == 71);
    assert forall|i: int| 0 <= i < 71 implies x[i] == y[i] by {
        assert(file_name(x)[i] == (if x[i] == ':' { '-' } else { x[i] }));
        assert(file_name(y)[i] == (if y[i] == ':' { '-' } else { y[i] }));
        if i >= 7 {
            assert(x[i] == hex(a)[i - 7]);
            assert(y[i] == hex(b)[i - 7]);
        }
    }
    assert(x =~= y);
    law_labels_separate_digests(a, b);
}

/// Distinct labels get distinct files, whatever their scheme, where no label holds the
/// `-` that stands for `:` in a file name.
pub proof fn law_file_names_separate_plain_labels(a: Seq<char>, b: Seq<char>)
    requires
        !a.contains('-'),
        !b.contains('-'),
        file_name(a) == file_name(b),
    ensures
        a == b,
{
    reveal_strlit(".bin");
    assert(file_name(a).len() == a.len() + 4);
    assert(file_name(b).len() == b.len() + 4);
    assert forall|i: int| 0 <= i < a.len() implies a[i] == b[i] by {
        assert(a.contains(a[i]));
        assert(b.contains(b[i]));
        assert(file_name(a)[i] == (if a[i] == ':' { '-' } else { a[i] }));
        assert(file_name(b)[i] == (if b[i] == ':' { '-' } else { b[i] }));
    }
    assert(a =~= b);
}

/// The hex form of some bytes is two digits a byte, those of its high and of its low
/// half.
pub proof fn law_hex_spells_each_byte(bytes: Seq<u8>, i: int)
    requires
        0 <= i < bytes.len(),
    ensures
        hex(bytes).len() == 2 * bytes.len(),
        hex(bytes)[2 * i] == "0123456789abcdef"@[bytes[i] as int / 16],
        hex(bytes)[2 * i + 1] == "0123456789abcdef"@[bytes[i] as int % 16],
{
    reveal_strlit("0123456789abcdef");
    assert((2 * i) / 2 == i && (2 * i) % 2 == 0);
    assert((2 * i + 1) / 2 == i && (2 * i + 1) % 2 == 1);
    assert forall|k: int| 0 <= k < 16 implies #[trigger] "0123456789abcdef"@[k] == hex_char(k) by {}
}

/// Whether a byte is the hex digit of a value, in either case.
pub open spec fn spells_digit(b: u8, v: int) -> bool {
    b as char == "0123456789abcdef"@[v] || b as char == "0123456789ABCDEF"@[v]
}

proof fn lemma_spells_digit(b: u8)
    ensures
        match hex_value(b) {
            Some(v) => v < 16 && spells_digit(b, v as int),
            None => forall|v: int| 0 <= v < 16 ==> !#[trigger] spells_digit(b, v),
        },
{
    reveal_strlit("0123456789abcdef");
    reveal_strlit("0123456789ABCDEF");
    let low = "0123456789abcdef"@;
    let high = "0123456789ABCDEF"@;
    assert forall|v: int| 0 <= v < 16 implies #[trigger] low[v] as int == (if v < 10 {
        48 + v
    } else {
        87 + v
    }) by {}
    assert forall|v: int| 0 <= v < 16 implies #[trigger] high[v] as int == (if v < 10 {
        48 + v
    } else {
        55 + v
    }) by {}
    if let Some(v) = hex_value(b) {
        assert(low[v as int] as int == (if v < 10 {
            48 + v
        } else {
            87 + v
        }));
        assert(high[v as int] as int == (if v < 10 {
            48 + v
        } else {
            55 + v
        }));
    } else {
        assert forall|v: int| 0 <= v < 16 implies !#[trigger] spells_digit(b, v) by {
            assert(low[v] as int == (if v < 10 {
                48 + v
            } else {
                87 + v
            }));
            assert(high[v] as int == (if v < 10 {
                48 + v
            } else {
                55 + v
            }));
        }
    }
}

/// The digest of a label is the thirty-two bytes that its hex digits spell, two digits a
/// byte in either case. A label is refused for its scheme, else for the length of what
/// stands behind it, else for a byte that is no digit.
pub proof fn law_a_label_spells_its_digest(kappa: Seq<char>)
    requires
        encode_utf8(kappa).len() <= usize::MAX,
    ensures
        ({
            let b = encode_utf8(kappa);
            let scheme = b.len() >= 7 && b.take(7) == encode_utf8("blake3:"@);
            match label_digest(kappa) {
                Ok(d) => scheme && b.len() == 71 && d.len() == 32 && forall|i: int|
                    0 <= i < 32 ==> spells_digit(b[7 + 2 * i], #[trigger] d[i] as int / 16)
                        && spells_digit(b[8 + 2 * i], d[i] as int % 16),
                Err(DigestError::Scheme) => !scheme,
                Err(DigestError::Length(n)) => scheme && n == b.len() - 7 && n != 64,
                Err(DigestError::NotHex) => scheme && b.len() == 71 && exists|i: int|
                    7 <= i < 71 && forall|v: int|
                        0 <= v < 16 ==> !spells_digit(#[trigger] b[i], v),
            }
        }),
{
    lemma_scheme_bytes();
    let b = encode_utf8(kappa);
    match label_digest(kappa) {
        Ok(d) => {
            let digits = b.skip(7);
            assert forall|i: int| 0 <= i < 32 implies spells_digit(
                b[7 + 2 * i],
                #[trigger] d[i] as int / 16,
            ) && spells_digit(b[8 + 2 * i], d[i] as int % 16) by {
                let hi = digits[2 * i];
                let lo = digits[2 * i + 1];
                assert(hi == b[7 + 2 * i] && lo == b[8 + 2 * i]);
                lemma_spells_digit(hi);
                lemma_spells_digit(lo);
                assert(digest_byte(digits, i) is Some);
                let h = hex_value(hi)->0 as int;
                let l = hex_value(lo)->0 as int;
                assert(d[i] == 16 * h + l);
                assert(d[i] as int / 16 == h && d[i] as int % 16 == l);
            }
        },
        Err(DigestError::NotHex) => {
            let digits = b.skip(7);
            let i = choose|i: int| 0 <= i < 32 && digest_byte(digits, i) is None;
            lemma_spells_digit(digits[2 * i]);
            lemma_spells_digit(digits[2 * i + 1]);
            if hex_value(digits[2 * i]) is None {
                assert(b[7 + 2 * i] == digits[2 * i]);
                assert(forall|v: int| 0 <= v < 16 ==> !#[trigger] spells_digit(b[7 + 2 * i], v));
            } else {
                assert(b[8 + 2 * i] == digits[2 * i + 1]);
                assert(forall|v: int| 0 <= v < 16 ==> !#[trigger] spells_digit(b[8 + 2 * i], v));
            }
        },
        _ => {},
    }
}

/// A file name is its label with each `:` written `-`, and `.bin` behind it.
pub proof fn law_a_file_is_named_by_its_label(kappa: Seq<char>)
    ensures
        file_name(kappa).len() == kappa.len() + 4,
        file_name(kappa).skip(kappa.len() as int) == ".bin"@,
        forall|i: int|
            0 <= i < kappa.len() ==> #[trigger] file_name(kappa)[i] == (if kappa[i] == ':' {
                '-'
            } else {
                kappa[i]
            }),
{
    reveal_strlit(".bin");
    assert(file_name(kappa).skip(kappa.len() as int) =~= ".bin"@);
}

/// Contents that are hashed in two parts bear the label of the whole.
pub proof fn law_parts_are_labelled_as_the_whole(
    start: KappaHasher,
    first: &mut KappaHasher,
    second: &mut KappaHasher,
    x: &[u8],
    y: &[u8],
    label: String,
)
    requires
        call_ensures(KappaHasher::new, (), start),
        *first == start,
        call_ensures(KappaHasher::update, (first, x), ()),
        *second == *final(first),
        call_ensures(KappaHasher::update, (second, y), ()),
        call_ensures(KappaHasher::finalize, (*final(second),), label),
    ensures
        label@ == kappa_label(x@ + y@),
{
    assert(start@ + x@ + y@ =~= x@ + y@);
}

} // verus!
