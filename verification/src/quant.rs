//! The map from wide weights to their quantized artifacts.

use crate::text::{chars_of, copy_str, push_decimal, same_text, string_of};
use crate::textmap::TextMap;
use vstd::prelude::*;

verus! {

/// The width of a quantized artifact's codes.
#[derive(Debug, Clone, Copy, PartialEq, Eq, Structural)]
pub enum QuantTier {
    Int8,
    Int4,
}

/// The tier a tag selects: `int4`, or the default `int8`.
pub open spec fn tier_of(tag: Option<Seq<char>>) -> QuantTier {
    if tag == Some("int4"@) {
        QuantTier::Int4
    } else {
        QuantTier::Int8
    }
}

impl QuantTier {
    /// The tier a tag selects.
    pub fn from_tag(tag: Option<&str>) -> (r: QuantTier)
        ensures
            r == tier_of(
                match tag {
                    Some(t) => Some(t@),
                    None => None,
                },
            ),
    {
        match tag {
            Some(t) => if same_text(t, "int4") {
                QuantTier::Int4
            } else {
                QuantTier::Int8
            },
            None => QuantTier::Int8,
        }
    }

    /// The tag of a tier.
    pub open spec fn tag_text(self) -> Seq<char> {
        match self {
            QuantTier::Int8 => "int8"@,
            QuantTier::Int4 => "int4"@,
        }
    }

    /// The tag of a tier.
    pub fn tag(self) -> (r: &'static str)
        ensures
            r@ == self.tag_text(),
    {
        match self {
            QuantTier::Int8 => "int8",
            QuantTier::Int4 => "int4",
        }
    }
}

/// One entry of the recorded map. A head chunk carries the byte range it covers
/// of its wide tensor; a whole projection carries none.
#[derive(Debug, Clone, PartialEq, Eq)]
pub struct QuantEntry {
    pub wide: String,
    pub artifact: String,
    pub out_features: u64,
    pub in_features: u64,
    pub offset: Option<u64>,
    pub len: Option<u64>,
    pub tier: Option<String>,
}

/// What a wide weight, or a range of it, is bound to.
#[derive(Debug, Clone, PartialEq, Eq)]
pub struct QuantBinding {
    pub artifact: String,
    pub out_features: u64,
    pub in_features: u64,
    pub tier: QuantTier,
}

/// The byte range of an entry: it has one only where both its ends are given.
pub open spec fn entry_range(e: QuantEntry) -> Option<(u64, u64)> {
    match (e.offset, e.len) {
        (Some(offset), Some(len)) => Some((offset, len)),
        _ => None,
    }
}

/// The key of a wide weight: its κ, followed by the byte range where there is one.
pub open spec fn key_text(kappa: Seq<char>, range: Option<(u64, u64)>) -> Seq<char> {
    match range {
        None => kappa,
        Some((offset, len)) => kappa + seq!['@'] + crate::text::decimal(offset as nat) + seq!['+']
            + crate::text::decimal(len as nat),
    }
}

/// The key of a wide weight, or of a byte range of it.
pub fn quant_key(kappa: &str, range: Option<(u64, u64)>) -> (r: String)
    ensures
        r@ == key_text(kappa@, range),
{
    match range {
        None => copy_str(kappa),
        Some((offset, len)) => {
            let mut out: Vec<char> = chars_of(kappa);
            out.push('@');
            push_decimal(&mut out, offset);
            out.push('+');
            push_decimal(&mut out, len);
            proof {
                assert(out@ =~= key_text(kappa@, range));
            }
            string_of(out.as_slice())
        },
    }
}

/// The model of a binding.
#[verifier::ext_equal]
pub struct QuantBindingV {
    pub artifact: Seq<char>,
    pub out_features: u64,
    pub in_features: u64,
    pub tier: QuantTier,
}

impl View for QuantBinding {
    type V = QuantBindingV;

    open spec fn view(&self) -> QuantBindingV {
        QuantBindingV {
            artifact: self.artifact@,
            out_features: self.out_features,
            in_features: self.in_features,
            tier: self.tier,
        }
    }
}

/// The tag of an entry.
pub open spec fn entry_tag(e: QuantEntry) -> Option<Seq<char>> {
    match e.tier {
        Some(t) => Some(t@),
        None => None,
    }
}

/// The key an entry is found under.
pub open spec fn entry_key(e: QuantEntry) -> Seq<char> {
    key_text(e.wide@, entry_range(e))
}

/// What an entry binds.
pub open spec fn entry_binding(e: QuantEntry) -> QuantBindingV {
    QuantBindingV {
        artifact: e.artifact@,
        out_features: e.out_features,
        in_features: e.in_features,
        tier: tier_of(entry_tag(e)),
    }
}

/// The map some entries make: of two with one key the later counts.
pub open spec fn quant_map_of(entries: Seq<QuantEntry>) -> Map<Seq<char>, QuantBindingV>
    decreases entries.len(),
{
    if entries.len() == 0 {
        Map::empty()
    } else {
        quant_map_of(entries.drop_last()).insert(
            entry_key(entries.last()),
            entry_binding(entries.last()),
        )
    }
}

/// The model of a map of bindings.
pub open spec fn binding_views(m: Map<Seq<char>, QuantBinding>) -> Map<Seq<char>, QuantBindingV> {
    m.map_values(|b: QuantBinding| b@)
}

/// Make the map of some entries.
pub fn quant_map(entries: &Vec<QuantEntry>) -> (r: TextMap<QuantBinding>)
    ensures
        binding_views(r@) == quant_map_of(entries@),
{
    let mut out: TextMap<QuantBinding> = TextMap::new();
    let end: usize = entries.len();
    let mut i: usize = 0;
    proof {
        assert(entries@.take(0) =~= Seq::empty());
        assert(binding_views(out@) =~= Map::empty());
    }
    while i < end
        invariant
            i <= end,
            end == entries@.len(),
            binding_views(out@) == quant_map_of(entries@.take(i as int)),
        decreases end - i,
    {
        proof {
            assert(entries@.take(i + 1).drop_last() =~= entries@.take(i as int));
        }
        let e = &entries[i];
        let range: Option<(u64, u64)> = match (e.offset, e.len) {
            (Some(offset), Some(len)) => Some((offset, len)),
            _ => None,
        };
        let tier = QuantTier::from_tag(
            match &e.tier {
                Some(t) => Some(t.as_str()),
                None => None,
            },
        );
        let key = quant_key(e.wide.as_str(), range);
        let binding = QuantBinding {
            artifact: copy_str(e.artifact.as_str()),
            out_features: e.out_features,
            in_features: e.in_features,
            tier,
        };
        proof {
            assert(key@ == entry_key(entries@[i as int]));
            assert(binding@ == entry_binding(entries@[i as int]));
            assert(binding_views(out@.insert(key@, binding)) =~= binding_views(out@).insert(
                key@,
                binding@,
            ));
        }
        out.insert(key, binding);
        i += 1;
    }
    proof {
        assert(entries@.take(i as int) =~= entries@);
    }
    out
}

/// The recorded map does not read.
#[derive(Debug, Clone, Copy, PartialEq, Eq, Structural)]
pub struct QuantMapError;

/// Read the recorded map. No text, or an empty one, means that nothing is
/// quantized; what another text holds, `read_entries` says.
pub fn parse_quant_json<F: Fn(&str) -> Option<Vec<QuantEntry>>>(
    quant_json: Option<&str>,
    read_entries: F,
) -> (r: Result<Option<TextMap<QuantBinding>>, QuantMapError>)
    requires
        quant_json matches Some(text) ==> text@.len() > 0 ==> call_requires(read_entries, (text,)),
    ensures
        match quant_json {
            None => r == Ok::<_, QuantMapError>(None::<TextMap<QuantBinding>>),
            Some(text) => if text@.len() == 0 {
                r == Ok::<_, QuantMapError>(None::<TextMap<QuantBinding>>)
            } else {
                match r {
                    Ok(None) => false,
                    Ok(Some(map)) => exists|entries: Vec<QuantEntry>| #[trigger]
                        call_ensures(read_entries, (text,), Some(entries)) && binding_views(map@)
                            == quant_map_of(entries@),
                    Err(_) => call_ensures(read_entries, (text,), None),
                }
            },
        },
{
    match quant_json {
        None => Ok(None),
        Some(text) => {
            let chars: Vec<char> = chars_of(text);
            if chars.len() == 0 {
                return Ok(None);
            }
            match read_entries(text) {
                Some(entries) => {
                    let map = quant_map(&entries);
                    Ok(Some(map))
                },
                None => Err(QuantMapError),
            }
        },
    }
}

/// A tag reads back as the tier it is the tag of.
pub proof fn law_tags_round_trip(tier: QuantTier)
    ensures
        tier_of(Some(tier.tag_text())) == tier,
{
    reveal_strlit("int4");
    reveal_strlit("int8");
    assert("int4"@[3] == '4');
    assert("int8"@[3] == '8');
}

/// Whether a κ holds no character that a range is written with.
pub open spec fn plain_kappa(kappa: Seq<char>) -> bool {
    forall|i: int| 0 <= i < kappa.len() ==> kappa[i] != '@'
}

/// Weights of different κs, and different ranges of one weight, have different
/// keys.
pub proof fn law_keys_separate_weights_and_ranges(
    k1: Seq<char>,
    r1: Option<(u64, u64)>,
    k2: Seq<char>,
    r2: Option<(u64, u64)>,
)
    requires
        plain_kappa(k1),
        plain_kappa(k2),
        key_text(k1, r1) == key_text(k2, r2),
    ensures
        k1 == k2,
        r1 == r2,
{
    let t1 = key_text(k1, r1);
    let t2 = key_text(k2, r2);
    match (r1, r2) {
        (None, None) => {},
        (None, Some(_)) => {
            assert(t2[k2.len() as int] == '@');
            assert(k1[k2.len() as int] == '@');
        },
        (Some(_), None) => {
            assert(t1[k1.len() as int] == '@');
            assert(k2[k1.len() as int] == '@');
        },
        (Some((o1, l1)), Some((o2, l2))) => {
            assert(key_text(k1, r1) =~= k1 + seq!['@'] + range_text(o1, l1));
            assert(key_text(k2, r2) =~= k2 + seq!['@'] + range_text(o2, l2));
            lemma_cut_equal(k1, k2, range_text(o1, l1), range_text(o2, l2), '@');
            let d1 = crate::text::decimal(o1 as nat);
            let d2 = crate::text::decimal(o2 as nat);
            crate::text::lemma_decimal(o1 as nat);
            crate::text::lemma_decimal(o2 as nat);
            lemma_cut_equal(
                d1,
                d2,
                crate::text::decimal(l1 as nat),
                crate::text::decimal(l2 as nat),
                '+',
            );
            crate::text::lemma_decimal(l1 as nat);
            crate::text::lemma_decimal(l2 as nat);
        },
    }
}

/// A text is cut in one way only at the first place of a character.
proof fn lemma_cut_equal(a: Seq<char>, b: Seq<char>, x: Seq<char>, y: Seq<char>, c: char)
    requires
        a + seq![c] + x == b + seq![c] + y,
        forall|i: int| 0 <= i < a.len() ==> a[i] != c,
        forall|i: int| 0 <= i < b.len() ==> b[i] != c,
    ensures
        a == b,
        x == y,
{
    let s = a + seq![c] + x;
    let t = b + seq![c] + y;
    assert(s[a.len() as int] == c);
    assert(t[b.len() as int] == c);
    if a.len() < b.len() {
        assert(t[a.len() as int] == b[a.len() as int]);
    }
    if b.len() < a.len() {
        assert(s[b.len() as int] == a[b.len() as int]);
    }
    assert(a =~= s.take(a.len() as int));
    assert(b =~= t.take(b.len() as int));
    assert(x =~= s.skip(a.len() as int + 1));
    assert(y =~= t.skip(b.len() as int + 1));
}

/// The range as it is written in a key.
spec fn range_text(offset: u64, len: u64) -> Seq<char> {
    crate::text::decimal(offset as nat) + seq!['+'] + crate::text::decimal(len as nat)
}

/// The entry that a key finds is the last with that key, and it is found as it was
/// recorded; a key that no entry has finds nothing.
pub proof fn law_the_last_entry_of_a_key_is_found(entries: Seq<QuantEntry>, key: Seq<char>)
    ensures
        if quant_map_of(entries).dom().contains(key) {
            exists|i: int|
                0 <= i < entries.len() && is_kept_under(#[trigger] entries[i], key) && is_bound_to(
                    entries[i],
                    quant_map_of(entries)[key],
                ) && forall|k: int|
                    i < k < entries.len() ==> !is_kept_under(#[trigger] entries[k], key)
        } else {
            forall|k: int| 0 <= k < entries.len() ==> !is_kept_under(#[trigger] entries[k], key)
        },
    decreases entries.len(),
{
    if entries.len() > 0 {
        let front = entries.drop_last();
        let last = entries.len() - 1;
        law_the_last_entry_of_a_key_is_found(front, key);
        assert(entries[last] == entries.last());
        assert forall|k: int| 0 <= k < front.len() implies #[trigger] entries[k] == front[k] by {}
        let e = entries.last();
        reveal_strlit("int4");
        assert(is_kept_under(e, key) <==> entry_key(e) == key);
        if entry_key(e) == key {
            assert(is_bound_to(entries[last], quant_map_of(entries)[key]));
        } else if quant_map_of(front).dom().contains(key) {
            let i = choose|i: int|
                0 <= i < front.len() && is_kept_under(#[trigger] front[i], key) && is_bound_to(
                    front[i],
                    quant_map_of(front)[key],
                ) && forall|k: int|
                    i < k < front.len() ==> !is_kept_under(#[trigger] front[k], key);
            assert(entries[i] == front[i]);
            assert forall|k: int| i < k < entries.len() implies !is_kept_under(
                #[trigger] entries[k],
                key,
            ) by {
                if k < last {
                    assert(front[k] == entries[k]);
                }
            }
        } else {
            assert forall|k: int| 0 <= k < entries.len() implies !is_kept_under(
                #[trigger] entries[k],
                key,
            ) by {
                if k < last {
                    assert(front[k] == entries[k]);
                }
            }
        }
    }
}

/// Whether an entry is kept under a key: that of its wide weight, or of the range of it
/// where both ends of the range are given.
pub open spec fn is_kept_under(e: QuantEntry, key: Seq<char>) -> bool {
    if e.offset is Some && e.len is Some {
        key == key_text(e.wide@, Some((e.offset->0, e.len->0)))
    } else {
        key == key_text(e.wide@, None)
    }
}

/// Whether a binding is that of an entry: its artifact and its two sizes, at four bits
/// where the entry says `int4` and at eight bits otherwise.
pub open spec fn is_bound_to(e: QuantEntry, b: QuantBindingV) -> bool {
    &&& b.artifact == e.artifact@
    &&& b.out_features == e.out_features
    &&& b.in_features == e.in_features
    &&& b.tier == QuantTier::Int4 <==> (e.tier matches Some(t) && t@ == "int4"@)
}

/// A key reads as the target that it is: a κ, with its range where it has one.
pub proof fn law_a_key_reads_as_its_target(
    constant: u32,
    kappa: Seq<char>,
    range: Option<(u64, u64)>,
)
    requires
        !kappa.contains('@'),
    ensures
        crate::kappa_map::target_of(constant, key_text(kappa, range)) == Ok::<
            crate::kappa_map::RequirementV,
            crate::kappa_map::LineFault,
        >(crate::kappa_map::RequirementV { constant, kappa, range }),
{
    match range {
        None => {
            crate::kappa_map::law_a_target_states_its_range(constant, kappa, Seq::empty(), kappa);
        },
        Some((offset, len)) => {
            let a = crate::text::decimal(offset as nat);
            let b = crate::text::decimal(len as nat);
            crate::text::lemma_decimal(offset as nat);
            crate::text::lemma_decimal_parses(offset as nat, u64::MAX as nat);
            crate::text::lemma_decimal_parses(len as nat, u64::MAX as nat);
            assert(key_text(kappa, range) =~= kappa + seq!['@'] + (a + seq!['+'] + b));
            assert(!a.contains('+'));
            crate::kappa_map::law_a_target_states_its_range(constant, kappa, a, b);
        },
    }
}

/// Only `int4` selects four bits; any other tag, and none, selects eight.
pub proof fn law_only_int4_selects_four_bits(tag: Option<Seq<char>>)
    ensures
        tier_of(tag) == QuantTier::Int4 <==> tag == Some("int4"@),
        tier_of(None) == QuantTier::Int8,
        QuantTier::Int4.tag_text() == "int4"@,
        QuantTier::Int8.tag_text() == "int8"@,
{
}

/// Bindings are modelled by all that they hold, each under its own key.
pub proof fn law_quant_bindings_are_modelled_whole(m: Map<Seq<char>, QuantBinding>, key: Seq<char>)
    ensures
        binding_views(m).dom() == m.dom(),
        m.dom().contains(key) ==> binding_views(m)[key].artifact == m[key].artifact@
            && binding_views(m)[key].out_features == m[key].out_features && binding_views(
            m,
        )[key].in_features == m[key].in_features && binding_views(m)[key].tier == m[key].tier,
{
    assert(binding_views(m).dom() =~= m.dom());
}

} // verus!
