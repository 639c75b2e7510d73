//! The weights section of an archive.
//!
//! The section is a little-endian count of 32 bits and then, for each weight,
//! its 32-byte fingerprint, its length in 64 bits and its body. Constants find
//! a weight by its fingerprint and never by its position, so the entries may
//! stand in any order; the canonical order is by fingerprint.

use crate::bytes::{push_bytes, push_le, read_le};
use vstd::prelude::*;
use vstd::relations::*;
use vstd::seq_lib::*;
use vstd::slice::slice_subrange;

verus! {

/// One weight of a section.
pub struct WeightV {
    pub fingerprint: Seq<u8>,
    pub body: Seq<u8>,
}

/// Where a weights section breaks off.
#[derive(Debug, Clone, Copy, PartialEq, Eq, Structural)]
pub enum WeightsError {
    /// The section is too short for its count.
    Count,
    /// The section is truncated at a fingerprint.
    Fingerprint,
    /// The section is truncated at a length.
    Length,
    /// The section is truncated at a body.
    Body,
}

/// The first `count` weights of the bytes behind the count.
pub open spec fn weights_from(rest: Seq<u8>, count: nat) -> Result<Seq<WeightV>, WeightsError>
    decreases count,
{
    if count == 0 {
        Ok(Seq::empty())
    } else if rest.len() < 32 {
        Err(WeightsError::Fingerprint)
    } else if rest.len() < 40 {
        Err(WeightsError::Length)
    } else {
        let size = crate::bytes::le_value(rest.subrange(32, 40));
        if rest.len() < 40 + size {
            Err(WeightsError::Body)
        } else {
            let weight = WeightV {
                fingerprint: rest.take(32),
                body: rest.subrange(40, 40 + size as int),
            };
            join(seq![weight], weights_from(rest.skip(40 + size as int), (count - 1) as nat))
        }
    }
}

/// A result with some weights put before it.
pub open spec fn join(
    head: Seq<WeightV>,
    tail: Result<Seq<WeightV>, WeightsError>,
) -> Result<Seq<WeightV>, WeightsError> {
    match tail {
        Ok(v) => Ok(head + v),
        Err(e) => Err(e),
    }
}

/// The weights of a section, in their order; what follows them is ignored.
pub open spec fn section_weights(section: Seq<u8>) -> Result<Seq<WeightV>, WeightsError> {
    if section.len() < 4 {
        Err(WeightsError::Count)
    } else {
        weights_from(section.skip(4), crate::bytes::le_value(section.take(4)))
    }
}

/// One weight as it stands in a section.
pub open spec fn weight_bytes(w: WeightV) -> Seq<u8> {
    w.fingerprint + crate::bytes::le_bytes(w.body.len(), 8) + w.body
}

/// The weights of a section, one behind the other.
pub open spec fn weights_bytes(ws: Seq<WeightV>) -> Seq<u8>
    decreases ws.len(),
{
    if ws.len() == 0 {
        Seq::empty()
    } else {
        weight_bytes(ws[0]) + weights_bytes(ws.skip(1))
    }
}

/// A section that holds `ws`.
pub open spec fn section_bytes(ws: Seq<WeightV>) -> Seq<u8> {
    crate::bytes::le_bytes(ws.len(), 4) + weights_bytes(ws)
}

/// Whether `a` comes before `b` in the lexicographic order of bytes.
pub open spec fn lex_lt(a: Seq<u8>, b: Seq<u8>) -> bool
    decreases b.len(),
{
    if b.len() == 0 {
        false
    } else if a.len() == 0 {
        true
    } else if a[0] != b[0] {
        a[0] < b[0]
    } else {
        lex_lt(a.skip(1), b.skip(1))
    }
}

/// Where a weight goes among weights that are in order: behind every weight
/// whose fingerprint does not come after its own.
pub open spec fn place(s: Seq<WeightV>, w: WeightV) -> int
    decreases s.len(),
{
    if s.len() == 0 || !lex_lt(w.fingerprint, s.last().fingerprint) {
        s.len() as int
    } else {
        place(s.drop_last(), w)
    }
}

/// The weights in the order of their fingerprints; those with the same
/// fingerprint keep their order.
pub open spec fn by_fingerprint(s: Seq<WeightV>) -> Seq<WeightV>
    decreases s.len(),
{
    if s.len() == 0 {
        s
    } else {
        let front = by_fingerprint(s.drop_last());
        front.insert(place(front, s.last()), s.last())
    }
}

/// The canonical form of a weights section.
pub open spec fn canonical_section(section: Seq<u8>) -> Result<Seq<u8>, WeightsError> {
    match section_weights(section) {
        Ok(ws) => Ok(section_bytes(by_fingerprint(ws))),
        Err(e) => Err(e),
    }
}

/// One weight of a section, borrowed from it.
pub struct Weight<'a> {
    pub fingerprint: &'a [u8],
    pub body: &'a [u8],
}

impl<'a> View for Weight<'a> {
    type V = WeightV;

    open spec fn view(&self) -> WeightV {
        WeightV { fingerprint: self.fingerprint@, body: self.body@ }
    }
}

/// The models of some weights.
pub open spec fn weight_views(ws: Seq<Weight>) -> Seq<WeightV> {
    ws.map_values(|w: Weight| w@)
}

/// Whether `a` comes before `b` in the lexicographic order.
pub fn bytes_before(a: &[u8], b: &[u8]) -> (r: bool)
    ensures
        r == lex_lt(a@, b@),
{
    let mut i: usize = 0;
    proof {
        assert(a@.skip(0) =~= a@);
        assert(b@.skip(0) =~= b@);
    }
    loop
        invariant
            i <= a@.len(),
            i <= b@.len(),
            lex_lt(a@, b@) == lex_lt(a@.skip(i as int), b@.skip(i as int)),
        decreases a@.len() - i,
    {
        if i >= b.len() {
            return false;
        }
        if i >= a.len() {
            return true;
        }
        if a[i] != b[i] {
            return a[i] < b[i];
        }
        proof {
            assert(a@.skip(i as int).skip(1) =~= a@.skip(i + 1));
            assert(b@.skip(i as int).skip(1) =~= b@.skip(i + 1));
        }
        i += 1;
    }
}

proof fn lemma_place(s: Seq<WeightV>, w: WeightV, j: int)
    requires
        0 <= j <= s.len(),
        forall|k: int| j <= k < s.len() ==> lex_lt(w.fingerprint, (#[trigger] s[k]).fingerprint),
        j > 0 ==> !lex_lt(w.fingerprint, s[j - 1].fingerprint),
    ensures
        place(s, w) == j,
    decreases s.len(),
{
    if j < s.len() {
        let t = s.drop_last();
        assert forall|k: int| j <= k < t.len() implies lex_lt(
            w.fingerprint,
            (#[trigger] t[k]).fingerprint,
        ) by {
            assert(t[k] == s[k]);
        }
        assert(s.last() == s[s.len() - 1]);
        lemma_place(t, w, j);
    }
}

proof fn lemma_place_bounds(s: Seq<WeightV>, w: WeightV)
    ensures
        0 <= place(s, w) <= s.len(),
        forall|k: int| place(s, w) <= k < s.len() ==> lex_lt(
            w.fingerprint,
            (#[trigger] s[k]).fingerprint,
        ),
        place(s, w) > 0 ==> !lex_lt(w.fingerprint, s[place(s, w) - 1].fingerprint),
    decreases s.len(),
{
    if s.len() > 0 && lex_lt(w.fingerprint, s.last().fingerprint) {
        lemma_place_bounds(s.drop_last(), w);
        let p = place(s, w);
        assert forall|k: int| p <= k < s.len() implies lex_lt(
            w.fingerprint,
            (#[trigger] s[k]).fingerprint,
        ) by {
            if k < s.len() - 1 {
                assert(s.drop_last()[k] == s[k]);
            }
        }
    }
}

/// Put `w` in its place among weights that are in order.
fn insert_in_order<'a>(ws: &mut Vec<Weight<'a>>, w: Weight<'a>)
    ensures
        weight_views(final(ws)@) == weight_views(old(ws)@).insert(
            place(weight_views(old(ws)@), w@),
            w@,
        ),
{
    let ghost views = weight_views(ws@);
    let mut j: usize = ws.len();
    while j > 0 && bytes_before(w.fingerprint, ws[j - 1].fingerprint)
        invariant
            j <= ws@.len(),
            ws@ == old(ws)@,
            views == weight_views(ws@),
            forall|k: int|
                j <= k < ws@.len() ==> lex_lt(w.fingerprint@, (#[trigger] views[k]).fingerprint),
        ensures
            j <= ws@.len(),
            forall|k: int|
                j <= k < ws@.len() ==> lex_lt(w.fingerprint@, (#[trigger] views[k]).fingerprint),
            j > 0 ==> !lex_lt(w.fingerprint@, views[j - 1].fingerprint),
        decreases j,
    {
        j = j - 1;
    }
    proof {
        lemma_place(views, w@, j as int);
    }
    let ghost model = w@;
    ws.insert(j, w);
    proof {
        assert(weight_views(ws@) =~= views.insert(j as int, model));
    }
}

proof fn lemma_sorted_join(a: Seq<WeightV>, w: WeightV)
    ensures
        by_fingerprint(a.push(w)) == by_fingerprint(a).insert(place(by_fingerprint(a), w), w),
{
    assert(a.push(w).drop_last() =~= a);
    assert(a.push(w).last() == w);
}

/// Parse a section and put its weights in canonical order.
fn ordered_weights<'a>(section: &'a [u8]) -> (r: Result<Vec<Weight<'a>>, WeightsError>)
    ensures
        match r {
            Ok(ws) => section_weights(section@) matches Ok(v) && weight_views(ws@)
                == by_fingerprint(v),
            Err(e) => section_weights(section@) == Err::<Seq<WeightV>, WeightsError>(e),
        },
{
    if section.len() < 4 {
        return Err(WeightsError::Count);
    }
    let head = slice_subrange(section, 0, 4);
    proof {
        assert(head@ =~= section@.take(4));
    }
    let count: u64 = read_le(head);
    let mut rest: &[u8] = slice_subrange(section, 4, section.len());
    proof {
        assert(rest@ =~= section@.skip(4));
    }
    let mut ws: Vec<Weight<'a>> = Vec::new();
    let ghost mut parsed: Seq<WeightV> = Seq::empty();
    proof {
        let tail = weights_from(rest@, count as nat);
        if tail is Ok {
            assert(parsed + tail->Ok_0 =~= tail->Ok_0);
        }
        assert(weight_views(ws@) =~= by_fingerprint(parsed));
    }
    let mut left: u64 = count;
    while left > 0
        invariant
            section_weights(section@) == join(parsed, weights_from(rest@, left as nat)),
            weight_views(ws@) == by_fingerprint(parsed),
        decreases left,
    {
        let ghost before = rest@;
        if rest.len() < 32 {
            return Err(WeightsError::Fingerprint);
        }
        if rest.len() < 40 {
            return Err(WeightsError::Length);
        }
        let field = slice_subrange(rest, 32, 40);
        let size: u64 = read_le(field);
        if size > (rest.len() - 40) as u64 {
            return Err(WeightsError::Body);
        }
        let end: usize = 40 + size as usize;
        let w = Weight {
            fingerprint: slice_subrange(rest, 0, 32),
            body: slice_subrange(rest, 40, end),
        };
        rest = slice_subrange(rest, end, rest.len());
        let ghost model = w@;
        proof {
            assert(model.fingerprint =~= before.take(32));
            assert(rest@ =~= before.skip(40 + size as int));
            let tail = weights_from(rest@, (left - 1) as nat);
            if tail is Ok {
                assert(parsed + (seq![model] + tail->Ok_0) =~= parsed.push(model) + tail->Ok_0);
            }
            lemma_sorted_join(parsed, model);
            parsed = parsed.push(model);
        }
        insert_in_order(&mut ws, w);
        left = left - 1;
    }
    proof {
        assert(parsed + Seq::<WeightV>::empty() =~= parsed);
    }
    Ok(ws)
}

proof fn lemma_weights_bytes_push(ws: Seq<WeightV>, w: WeightV)
    ensures
        weights_bytes(ws.push(w)) == weights_bytes(ws) + weight_bytes(w),
    decreases ws.len(),
{
    if ws.len() == 0 {
        reveal_with_fuel(weights_bytes, 2);
        assert(ws.push(w).skip(1) =~= Seq::<WeightV>::empty());
        assert(ws.push(w)[0] == w);
        assert(weights_bytes(ws.push(w)) =~= weight_bytes(w));
        assert(weights_bytes(ws) + weight_bytes(w) =~= weight_bytes(w));
    } else {
        assert(ws.push(w).skip(1) =~= ws.skip(1).push(w));
        lemma_weights_bytes_push(ws.skip(1), w);
        assert(weights_bytes(ws.push(w)) =~= weights_bytes(ws) + weight_bytes(w));
    }
}

/// Re-encode a weights section with its entries sorted by fingerprint.
pub fn sort_weights_section(section: &[u8]) -> (r: Result<Vec<u8>, WeightsError>)
    ensures
        match r {
            Ok(out) => canonical_section(section@) == Ok::<Seq<u8>, WeightsError>(out@),
            Err(e) => canonical_section(section@) == Err::<Seq<u8>, WeightsError>(e),
        },
{
    let ws = match ordered_weights(section) {
        Ok(ws) => ws,
        Err(e) => {
            return Err(e);
        },
    };
    let ghost views = weight_views(ws@);
    let mut out: Vec<u8> = Vec::new();
    push_le(&mut out, ws.len() as u64, 4);
    let ghost head = crate::bytes::le_bytes(views.len(), 4);
    let mut i: usize = 0;
    proof {
        assert(out@ =~= head);
        assert(views.take(0) =~= Seq::<WeightV>::empty());
        assert(head + weights_bytes(views.take(0)) =~= head);
    }
    while i < ws.len()
        invariant
            i <= ws@.len(),
            views == weight_views(ws@),
            out@ == head + weights_bytes(views.take(i as int)),
        decreases ws@.len() - i,
    {
        let w = &ws[i];
        let ghost before = out@;
        push_bytes(&mut out, w.fingerprint);
        push_le(&mut out, w.body.len() as u64, 8);
        push_bytes(&mut out, w.body);
        proof {
            assert(views[i as int] == w@);
            assert(views.take(i + 1) =~= views.take(i as int).push(w@));
            lemma_weights_bytes_push(views.take(i as int), w@);
            assert(out@ =~= before + weight_bytes(w@));
            assert(out@ =~= head + weights_bytes(views.take(i + 1)));
        }
        i += 1;
    }
    proof {
        assert(views.take(views.len() as int) =~= views);
    }
    Ok(out)
}

proof fn lemma_lex_irreflexive(a: Seq<u8>)
    ensures
        !lex_lt(a, a),
    decreases a.len(),
{
    if a.len() > 0 {
        lemma_lex_irreflexive(a.skip(1));
    }
}

proof fn lemma_lex_total(a: Seq<u8>, b: Seq<u8>)
    ensures
        lex_lt(a, b) || lex_lt(b, a) || a == b,
        !(lex_lt(a, b) && lex_lt(b, a)),
    decreases a.len() + b.len(),
{
    if a.len() > 0 && b.len() > 0 {
        lemma_lex_total(a.skip(1), b.skip(1));
        if a[0] == b[0] && a.skip(1) == b.skip(1) {
            assert(a =~= seq![a[0]] + a.skip(1));
            assert(b =~= seq![b[0]] + b.skip(1));
        }
    } else if a.len() == 0 && b.len() == 0 {
        assert(a =~= b);
    }
}

proof fn lemma_lex_transitive(a: Seq<u8>, b: Seq<u8>, c: Seq<u8>)
    requires
        lex_lt(a, b),
        lex_lt(b, c),
    ensures
        lex_lt(a, c),
    decreases c.len(),
{
    if a.len() > 0 && b.len() > 0 && c.len() > 0 && a[0] == b[0] && b[0] == c[0] {
        lemma_lex_transitive(a.skip(1), b.skip(1), c.skip(1));
    }
}

/// Whether weights are in the order of their fingerprints.
pub open spec fn in_order(s: Seq<WeightV>) -> bool {
    forall|i: int, j: int|
        0 <= i < j < s.len() ==> !lex_lt(#[trigger] s[j].fingerprint, #[trigger] s[i].fingerprint)
}

/// Whether no two weights have the same fingerprint.
pub open spec fn distinct_fingerprints(s: Seq<WeightV>) -> bool {
    forall|i: int, j: int|
        0 <= i < j < s.len() ==> #[trigger] s[i].fingerprint != #[trigger] s[j].fingerprint
}

/// Sorting puts the weights in order and only moves them.
pub proof fn law_sorting_orders_and_permutes(s: Seq<WeightV>)
    ensures
        in_order(by_fingerprint(s)),
        by_fingerprint(s).to_multiset() == s.to_multiset(),
        by_fingerprint(s).len() == s.len(),
    decreases s.len(),
{
    broadcast use group_to_multiset_ensures;

    if s.len() > 0 {
        let front = by_fingerprint(s.drop_last());
        let w = s.last();
        let p = place(front, w);
        let out = front.insert(p, w);
        law_sorting_orders_and_permutes(s.drop_last());
        lemma_place_bounds(front, w);
        assert(s =~= s.drop_last().push(w));
        to_multiset_insert(front, p, w);
        to_multiset_build(s.drop_last(), w);
        assert forall|i: int, j: int| 0 <= i < j < out.len() implies !lex_lt(
            #[trigger] out[j].fingerprint,
            #[trigger] out[i].fingerprint,
        ) by {
            if j == p {
                assert(out[i] == front[i]);
                // front[i] does not come after front[p - 1], which does not come after w
                let x = front[i].fingerprint;
                let y = front[p - 1].fingerprint;
                if lex_lt(w.fingerprint, x) {
                    lemma_lex_total(y, x);
                    if i < p - 1 {
                        if lex_lt(x, y) {
                            lemma_lex_transitive(w.fingerprint, x, y);
                        }
                    }
                }
            } else if i == p {
                assert(out[j] == front[j - 1]);
                lemma_lex_total(w.fingerprint, front[j - 1].fingerprint);
            } else {
                let i0 = if i < p { i } else { i - 1 };
                let j0 = if j < p { j } else { j - 1 };
                assert(out[i] == front[i0]);
                assert(out[j] == front[j0]);
            }
        }
    }
}

/// Weights that are in order stay as they are.
pub proof fn law_sorting_keeps_order(s: Seq<WeightV>)
    requires
        in_order(s),
    ensures
        by_fingerprint(s) == s,
    decreases s.len(),
{
    if s.len() > 0 {
        let front = s.drop_last();
        assert forall|i: int, j: int| 0 <= i < j < front.len() implies !lex_lt(
            #[trigger] front[j].fingerprint,
            #[trigger] front[i].fingerprint,
        ) by {
            assert(front[i] == s[i] && front[j] == s[j]);
        }
        law_sorting_keeps_order(front);
        if front.len() > 0 {
            assert(front.last() == s[s.len() - 2]);
            assert(s.last() == s[s.len() - 1]);
        }
        assert(front.insert(front.len() as int, s.last()) =~= s);
    }
}

spec fn weight_leq(a: WeightV, b: WeightV) -> bool {
    lex_lt(a.fingerprint, b.fingerprint) || (a.fingerprint == b.fingerprint && !lex_lt(
        b.body,
        a.body,
    ))
}

proof fn lemma_weight_order()
    ensures
        total_ordering(|a: WeightV, b: WeightV| weight_leq(a, b)),
{
    let leq = |a: WeightV, b: WeightV| weight_leq(a, b);
    assert forall|x: WeightV| #[trigger] leq(x, x) by {
        lemma_lex_irreflexive(x.body);
    }
    assert forall|x: WeightV, y: WeightV| #[trigger] leq(x, y) && #[trigger] leq(y, x) implies x
        == y by {
        lemma_lex_total(x.fingerprint, y.fingerprint);
        lemma_lex_irreflexive(x.fingerprint);
        lemma_lex_total(x.body, y.body);
    }
    assert forall|x: WeightV, y: WeightV, z: WeightV| #[trigger] leq(x, y) && #[trigger] leq(
        y,
        z,
    ) implies leq(x, z) by {
        if lex_lt(x.fingerprint, y.fingerprint) && lex_lt(y.fingerprint, z.fingerprint) {
            lemma_lex_transitive(x.fingerprint, y.fingerprint, z.fingerprint);
        }
        if lex_lt(z.body, x.body) && x.fingerprint == y.fingerprint && y.fingerprint
            == z.fingerprint {
            lemma_lex_total(x.body, y.body);
            lemma_lex_total(y.body, z.body);
            if lex_lt(x.body, y.body) {
                lemma_lex_transitive(z.body, x.body, y.body);
            }
        }
    }
    assert forall|x: WeightV, y: WeightV| #[trigger] leq(x, y) || #[trigger] leq(y, x) by {
        lemma_lex_total(x.fingerprint, y.fingerprint);
        lemma_lex_total(x.body, y.body);
    }
}

proof fn lemma_sorted_is_total(s: Seq<WeightV>)
    requires
        in_order(s),
        distinct_fingerprints(s),
    ensures
        sorted_by(s, |a: WeightV, b: WeightV| weight_leq(a, b)),
{
    let leq = |a: WeightV, b: WeightV| weight_leq(a, b);
    assert forall|i: int, j: int| 0 <= i < j < s.len() implies #[trigger] leq(s[i], s[j]) by {
        assert(s[i].fingerprint != s[j].fingerprint);
        assert(!lex_lt(s[j].fingerprint, s[i].fingerprint));
        lemma_lex_total(s[i].fingerprint, s[j].fingerprint);
    }
}

proof fn lemma_distinct_multiset(a: Seq<WeightV>, b: Seq<WeightV>)
    requires
        distinct_fingerprints(a),
        a.to_multiset() == b.to_multiset(),
    ensures
        distinct_fingerprints(b),
{
    broadcast use group_to_multiset_ensures;

    assert(a.no_duplicates()) by {
        assert forall|i: int, j: int| 0 <= i < a.len() && 0 <= j < a.len() && i != j implies a[i]
            != a[j] by {
            if i < j {
                assert(a[i].fingerprint != a[j].fingerprint);
            } else {
                assert(a[j].fingerprint != a[i].fingerprint);
            }
        }
    }
    a.lemma_multiset_has_no_duplicates();
    assert(b.no_duplicates()) by {
        b.lemma_multiset_has_no_duplicates_conv();
    }
    assert forall|i: int, j: int| 0 <= i < j < b.len() implies #[trigger] b[i].fingerprint
        != #[trigger] b[j].fingerprint by {
        assert(b.to_multiset().contains(b[i]));
        assert(b.to_multiset().contains(b[j]));
        assert(a.contains(b[i]) && a.contains(b[j]));
        let x = choose|x: int| 0 <= x < a.len() && a[x] == b[i];
        let y = choose|y: int| 0 <= y < a.len() && a[y] == b[j];
        assert(b[i] != b[j]);
        assert(x != y);
        if x < y {
            assert(a[x].fingerprint != a[y].fingerprint);
        } else {
            assert(a[y].fingerprint != a[x].fingerprint);
        }
    }
}

/// The canonical order does not depend on the order in which the same weights
/// were emitted, where their fingerprints are distinct.
pub proof fn law_order_is_canonical(a: Seq<WeightV>, b: Seq<WeightV>)
    requires
        a.to_multiset() == b.to_multiset(),
        distinct_fingerprints(a),
    ensures
        by_fingerprint(a) == by_fingerprint(b),
{
    law_sorting_orders_and_permutes(a);
    law_sorting_orders_and_permutes(b);
    lemma_distinct_multiset(a, by_fingerprint(a));
    lemma_distinct_multiset(a, by_fingerprint(b));
    lemma_sorted_is_total(by_fingerprint(a));
    lemma_sorted_is_total(by_fingerprint(b));
    lemma_weight_order();
    lemma_sorted_unique(
        by_fingerprint(a),
        by_fingerprint(b),
        |x: WeightV, y: WeightV| weight_leq(x, y),
    );
}

/// Whether a weight can be written to a section.
pub open spec fn storable(w: WeightV) -> bool {
    w.fingerprint.len() == 32 && w.body.len() <= u64::MAX
}

/// Whether weights can be written to a section.
pub open spec fn all_storable(ws: Seq<WeightV>) -> bool {
    ws.len() <= u32::MAX && forall|i: int| 0 <= i < ws.len() ==> storable(#[trigger] ws[i])
}

proof fn lemma_weights_round_trip(ws: Seq<WeightV>, more: Seq<u8>)
    requires
        forall|i: int| 0 <= i < ws.len() ==> storable(#[trigger] ws[i]),
    ensures
        weights_from(weights_bytes(ws) + more, ws.len()) == Ok::<Seq<WeightV>, WeightsError>(ws),
    decreases ws.len(),
{
    if ws.len() == 0 {
        assert(ws =~= Seq::empty());
    } else {
        let w = ws[0];
        assert(storable(w));
        let rest = weights_bytes(ws) + more;
        let tail = weights_bytes(ws.skip(1)) + more;
        let field = crate::bytes::le_bytes(w.body.len(), 8);
        crate::bytes::lemma_le_bytes_len(w.body.len(), 8);
        crate::bytes::lemma_le_limits();
        crate::bytes::lemma_le_round_trip(w.body.len(), 8);
        assert(rest =~= w.fingerprint + field + w.body + tail);
        assert(rest.take(32) =~= w.fingerprint);
        assert(rest.subrange(32, 40) =~= field);
        assert(rest.subrange(40, 40 + w.body.len() as int) =~= w.body);
        assert(rest.skip(40 + w.body.len() as int) =~= tail);
        assert forall|i: int| 0 <= i < ws.skip(1).len() implies storable(
            #[trigger] ws.skip(1)[i],
        ) by {
            assert(ws.skip(1)[i] == ws[i + 1]);
        }
        lemma_weights_round_trip(ws.skip(1), more);
        assert(seq![w] + ws.skip(1) =~= ws);
    }
}

/// A section that was written reads back as the weights that were written.
pub proof fn law_section_round_trips(ws: Seq<WeightV>)
    requires
        all_storable(ws),
    ensures
        section_weights(section_bytes(ws)) == Ok::<Seq<WeightV>, WeightsError>(ws),
{
    let head = crate::bytes::le_bytes(ws.len(), 4);
    crate::bytes::lemma_le_bytes_len(ws.len(), 4);
    crate::bytes::lemma_le_limits();
    crate::bytes::lemma_le_round_trip(ws.len(), 4);
    let section = section_bytes(ws);
    assert(section.take(4) =~= head);
    assert(section.skip(4) =~= weights_bytes(ws) + Seq::empty());
    lemma_weights_round_trip(ws, Seq::empty());
}

proof fn lemma_parsed_storable(rest: Seq<u8>, count: nat)
    requires
        weights_from(rest, count) is Ok,
    ensures
        weights_from(rest, count)->Ok_0.len() == count,
        forall|i: int|
            0 <= i < count ==> storable(#[trigger] weights_from(rest, count)->Ok_0[i]),
    decreases count,
{
    if count > 0 {
        let size = crate::bytes::le_value(rest.subrange(32, 40));
        crate::bytes::lemma_le_value_bytes(rest.subrange(32, 40));
        crate::bytes::lemma_le_limits();
        let tail = rest.skip(40 + size as int);
        lemma_parsed_storable(tail, (count - 1) as nat);
        let ws = weights_from(rest, count)->Ok_0;
        let more = weights_from(tail, (count - 1) as nat)->Ok_0;
        assert forall|i: int| 0 <= i < count implies storable(#[trigger] ws[i]) by {
            if i > 0 {
                assert(ws[i] == more[i - 1]);
            }
        }
    }
}

proof fn lemma_permutation_storable(a: Seq<WeightV>, b: Seq<WeightV>)
    requires
        all_storable(a),
        a.to_multiset() == b.to_multiset(),
    ensures
        all_storable(b),
{
    broadcast use group_to_multiset_ensures;

    assert(a.len() == a.to_multiset().len());
    assert(b.len() == b.to_multiset().len());
    assert forall|i: int| 0 <= i < b.len() implies storable(#[trigger] b[i]) by {
        assert(b.to_multiset().contains(b[i]));
        assert(a.contains(b[i]));
        let x = choose|x: int| 0 <= x < a.len() && a[x] == b[i];
        assert(storable(a[x]));
    }
}

/// The canonical form of a section holds the same weights.
pub proof fn law_canonical_section_keeps_weights(section: Seq<u8>)
    requires
        canonical_section(section) is Ok,
    ensures
        section_weights(canonical_section(section)->Ok_0) == Ok::<Seq<WeightV>, WeightsError>(
            by_fingerprint(section_weights(section)->Ok_0),
        ),
{
    let count = crate::bytes::le_value(section.take(4));
    crate::bytes::lemma_le_value_bytes(section.take(4));
    crate::bytes::lemma_le_limits();
    lemma_parsed_storable(section.skip(4), count);
    let ws = section_weights(section)->Ok_0;
    law_sorting_orders_and_permutes(ws);
    lemma_permutation_storable(ws, by_fingerprint(ws));
    law_section_round_trips(by_fingerprint(ws));
}

/// Canonicalizing a section twice is canonicalizing it once.
pub proof fn law_canonical_section_is_idempotent(section: Seq<u8>)
    requires
        canonical_section(section) is Ok,
    ensures
        canonical_section(canonical_section(section)->Ok_0) == canonical_section(section),
{
    law_canonical_section_keeps_weights(section);
    let ws = section_weights(section)->Ok_0;
    law_sorting_orders_and_permutes(ws);
    law_sorting_keeps_order(by_fingerprint(ws));
}

/// Two sections that hold the same weights in different orders have the same
/// canonical bytes, where the fingerprints are distinct.
pub proof fn law_canonical_section_ignores_order(a: Seq<WeightV>, b: Seq<WeightV>)
    requires
        all_storable(a),
        a.to_multiset() == b.to_multiset(),
        distinct_fingerprints(a),
    ensures
        canonical_section(section_bytes(a)) == canonical_section(section_bytes(b)),
        canonical_section(section_bytes(a)) is Ok,
{
    lemma_permutation_storable(a, b);
    law_section_round_trips(a);
    law_section_round_trips(b);
    law_order_is_canonical(a, b);
}

/// Bytes come before others where they are smaller at the first difference, or where
/// they are the beginning of the others.
pub proof fn law_order_is_by_the_first_difference(a: Seq<u8>, b: Seq<u8>)
    ensures
        lex_lt(a, b) <==> (a.len() < b.len() && b.take(a.len() as int) == a) || exists|i: int|
            0 <= i < a.len() && i < b.len() && #[trigger] a[i] < b[i] && a.take(i) == b.take(i),
    decreases b.len(),
{
    if b.len() > 0 && a.len() > 0 {
        let x = a.skip(1);
        let y = b.skip(1);
        law_order_is_by_the_first_difference(x, y);
        if a[0] == b[0] {
            if lex_lt(a, b) {
                if x.len() < y.len() && y.take(x.len() as int) == x {
                    assert forall|k: int| 0 <= k < a.len() implies #[trigger] b.take(a.len() as int)[k] == a[k] by {
                        if k > 0 {
                            assert(y.take(x.len() as int)[k - 1] == x[k - 1]);
                        }
                    }
                    assert(b.take(a.len() as int) =~= a);
                } else {
                    let i = choose|i: int|
                        0 <= i < x.len() && i < y.len() && #[trigger] x[i] < y[i] && x.take(i)
                            == y.take(i);
                    assert(a[i + 1] < b[i + 1]);
                    assert forall|k: int| 0 <= k < i + 1 implies #[trigger] a.take(i + 1)[k] == b.take(i + 1)[k] by {
                        if k > 0 {
                            assert(x.take(i)[k - 1] == y.take(i)[k - 1]);
                        }
                    }
                    assert(a.take(i + 1) =~= b.take(i + 1));
                }
            }
            if a.len() < b.len() && b.take(a.len() as int) == a {
                assert forall|k: int| 0 <= k < x.len() implies #[trigger] y.take(x.len() as int)[k] == x[k] by {
                    assert(b.take(a.len() as int)[k + 1] == a[k + 1]);
                }
                assert(y.take(x.len() as int) =~= x);
            }
            if exists|i: int|
                0 <= i < a.len() && i < b.len() && #[trigger] a[i] < b[i] && a.take(i) == b.take(i) {
                let i = choose|i: int|
                    0 <= i < a.len() && i < b.len() && #[trigger] a[i] < b[i] && a.take(i)
                        == b.take(i);
                assert(i > 0);
                assert(x[i - 1] < y[i - 1]);
                assert forall|k: int| 0 <= k < i - 1 implies #[trigger] x.take(i - 1)[k] == y.take(i - 1)[k] by {
                    assert(a.take(i)[k + 1] == b.take(i)[k + 1]);
                }
                assert(x.take(i - 1) =~= y.take(i - 1));
            }
        } else {
            if a[0] < b[0] {
                assert(a.take(0) =~= b.take(0));
            } else {
                if a.len() < b.len() && b.take(a.len() as int) == a {
                    assert(b.take(a.len() as int)[0] == a[0]);
                }
                if exists|i: int|
                    0 <= i < a.len() && i < b.len() && #[trigger] a[i] < b[i] && a.take(i)
                        == b.take(i) {
                    let i = choose|i: int|
                        0 <= i < a.len() && i < b.len() && #[trigger] a[i] < b[i] && a.take(i)
                            == b.take(i);
                    assert(i > 0);
                    assert(a.take(i)[0] == b.take(i)[0]);
                }
            }
        }
    } else if b.len() > 0 {
        assert(b.take(0) =~= a);
    }
}

/// The bytes that the first weights of a section take behind its count.
pub open spec fn room(ws: Seq<WeightV>, n: int) -> int
    decreases n,
{
    if n <= 0 {
        0
    } else {
        room(ws, n - 1) + 40 + ws[n - 1].body.len()
    }
}

proof fn lemma_room_skip(ws: Seq<WeightV>, n: int)
    requires
        1 <= n <= ws.len(),
    ensures
        room(ws, n) == 40 + ws[0].body.len() + room(ws.skip(1), n - 1),
        room(ws, n) >= 0,
        room(ws.skip(1), n - 1) >= 0,
    decreases n,
{
    reveal_with_fuel(room, 2);
    if n > 1 {
        lemma_room_skip(ws, n - 1);
        assert(ws.skip(1)[n - 2] == ws[n - 1]);
    }
}

/// Whether a weight stands in some bytes at a place: its fingerprint, its length in
/// eight bytes and its body.
pub open spec fn stands_at(s: Seq<u8>, at: int, w: WeightV) -> bool {
    &&& 0 <= at && at + 40 + w.body.len() <= s.len()
    &&& s.subrange(at, at + 32) == w.fingerprint
    &&& crate::bytes::le_value(s.subrange(at + 32, at + 40)) == w.body.len()
    &&& s.subrange(at + 40, at + 40 + w.body.len() as int) == w.body
}

proof fn lemma_stands_behind(s: Seq<u8>, first: int, at: int, w: WeightV)
    requires
        0 <= first <= s.len(),
        stands_at(s.skip(first), at, w),
    ensures
        stands_at(s, first + at, w),
{
    let t = s.skip(first);
    let b = first + at;
    let n = w.body.len() as int;
    assert(s.subrange(b, b + 32) =~= t.subrange(at, at + 32));
    assert(s.subrange(b + 32, b + 40) =~= t.subrange(at + 32, at + 40));
    assert(s.subrange(b + 40, b + 40 + n) =~= t.subrange(at + 40, at + 40 + n));
}

proof fn lemma_weights_stand(rest: Seq<u8>, count: nat)
    requires
        weights_from(rest, count) is Ok,
    ensures
        ({
            let ws = weights_from(rest, count)->Ok_0;
            &&& ws.len() == count
            &&& room(ws, count as int) <= rest.len()
            &&& forall|i: int| 0 <= i < count ==> stands_at(rest, room(ws, i), #[trigger] ws[i])
        }),
    decreases count,
{
    if count > 0 {
        let size = crate::bytes::le_value(rest.subrange(32, 40));
        let tail = rest.skip(40 + size as int);
        let ws = weights_from(rest, count)->Ok_0;
        let more = weights_from(tail, (count - 1) as nat)->Ok_0;
        lemma_weights_stand(tail, (count - 1) as nat);
        assert(ws.skip(1) =~= more);
        lemma_room_skip(ws, count as int);
        assert forall|i: int| 0 <= i < count implies stands_at(
            rest,
            room(ws, i),
            #[trigger] ws[i],
        ) by {
            if i == 0 {
                assert(rest.subrange(0, 32) =~= rest.take(32));
            } else {
                lemma_room_skip(ws, i);
                assert(ws[i] == more[i - 1]);
                lemma_stands_behind(rest, 40 + size as int, room(more, i - 1), ws[i]);
            }
        }
    }
}

/// A section holds its weights where its format says: their number in the first four
/// bytes, and behind it one weight after the other, each its fingerprint, its length in
/// eight bytes and its body.
pub proof fn law_weights_stand_one_behind_the_other(section: Seq<u8>)
    requires
        section_weights(section) is Ok,
    ensures
        ({
            let ws = section_weights(section)->Ok_0;
            &&& section.len() >= 4 + room(ws, ws.len() as int)
            &&& crate::bytes::le_value(section.take(4)) == ws.len()
            &&& forall|i: int|
                0 <= i < ws.len() ==> stands_at(section, 4 + room(ws, i), #[trigger] ws[i])
        }),
{
    let rest = section.skip(4);
    let count = crate::bytes::le_value(section.take(4));
    let ws = section_weights(section)->Ok_0;
    lemma_weights_stand(rest, count);
    assert forall|i: int| 0 <= i < ws.len() implies stands_at(
        section,
        4 + room(ws, i),
        #[trigger] ws[i],
    ) by {
        lemma_stands_behind(section, 4, room(ws, i), ws[i]);
    }
}

proof fn lemma_truncated(ws: Seq<WeightV>, m: int, i: int)
    requires
        forall|k: int| 0 <= k < ws.len() ==> storable(#[trigger] ws[k]),
        0 <= i < ws.len(),
        room(ws, i) <= m < room(ws, i + 1),
    ensures
        weights_bytes(ws).len() == room(ws, ws.len() as int),
        m < weights_bytes(ws).len(),
        weights_from(weights_bytes(ws).take(m), ws.len()) == Err::<Seq<WeightV>, WeightsError>(
            if m - room(ws, i) < 32 {
                WeightsError::Fingerprint
            } else if m - room(ws, i) < 40 {
                WeightsError::Length
            } else {
                WeightsError::Body
            },
        ),
    decreases ws.len(),
{
    let w = ws[0];
    let more = ws.skip(1);
    assert(storable(w));
    assert forall|k: int| 0 <= k < more.len() implies storable(#[trigger] more[k]) by {
        assert(more[k] == ws[k + 1]);
    }
    lemma_weights_len(ws);
    lemma_weights_len(more);
    lemma_room_grows(ws, i + 1, ws.len() as int);
    let field = crate::bytes::le_bytes(w.body.len(), 8);
    crate::bytes::lemma_le_bytes_len(w.body.len(), 8);
    crate::bytes::lemma_le_limits();
    crate::bytes::lemma_le_round_trip(w.body.len(), 8);
    let all = weights_bytes(ws);
    let cut = all.take(m);
    let first = 40 + w.body.len() as int;
    lemma_room_skip(ws, i + 1);
    if m >= 40 {
        assert(cut.subrange(32, 40) =~= field);
    }
    if i == 0 {
        assert(room(more, 0) == 0);
    } else {
        lemma_room_skip(ws, i);
        lemma_truncated(more, m - first, i - 1);
        assert(cut.skip(first) =~= weights_bytes(more).take(m - first));
    }
}

proof fn lemma_weights_len(ws: Seq<WeightV>)
    requires
        forall|k: int| 0 <= k < ws.len() ==> storable(#[trigger] ws[k]),
    ensures
        weights_bytes(ws).len() == room(ws, ws.len() as int),
    decreases ws.len(),
{
    if ws.len() > 0 {
        let more = ws.skip(1);
        assert(storable(ws[0]));
        assert forall|k: int| 0 <= k < more.len() implies storable(#[trigger] more[k]) by {
            assert(more[k] == ws[k + 1]);
        }
        lemma_weights_len(more);
        lemma_room_skip(ws, ws.len() as int);
        crate::bytes::lemma_le_bytes_len(ws[0].body.len(), 8);
    }
}

proof fn lemma_room_grows(ws: Seq<WeightV>, a: int, b: int)
    requires
        a <= b,
    ensures
        room(ws, a) <= room(ws, b),
    decreases b - a,
{
    if a < b && b > 0 {
        lemma_room_grows(ws, a, b - 1);
    }
}

/// A written section has no byte too many, reads back with anything behind it, and is
/// refused as soon as it is cut: for its count, or for the part of the weight in which
/// it was cut.
pub proof fn law_a_cut_section_is_refused(ws: Seq<WeightV>, more: Seq<u8>, m: int, i: int)
    requires
        all_storable(ws),
    ensures
        section_bytes(ws).len() == 4 + room(ws, ws.len() as int),
        section_weights(section_bytes(ws) + more) == Ok::<Seq<WeightV>, WeightsError>(ws),
        0 <= m < 4 ==> section_weights(section_bytes(ws).take(m)) == Err::<
            Seq<WeightV>,
            WeightsError,
        >(WeightsError::Count),
        0 <= i < ws.len() && room(ws, i) <= m < room(ws, i + 1) ==> section_weights(
            section_bytes(ws).take(4 + m),
        ) == Err::<Seq<WeightV>, WeightsError>(
            if m - room(ws, i) < 32 {
                WeightsError::Fingerprint
            } else if m - room(ws, i) < 40 {
                WeightsError::Length
            } else {
                WeightsError::Body
            },
        ),
{
    let head = crate::bytes::le_bytes(ws.len(), 4);
    crate::bytes::lemma_le_bytes_len(ws.len(), 4);
    crate::bytes::lemma_le_limits();
    crate::bytes::lemma_le_round_trip(ws.len(), 4);
    lemma_weights_len(ws);
    lemma_room_grows(ws, 0, ws.len() as int);
    let section = section_bytes(ws);
    let long = section + more;
    assert(long.take(4) =~= head);
    assert(long.skip(4) =~= weights_bytes(ws) + more);
    lemma_weights_round_trip(ws, more);
    if 0 <= i < ws.len() && room(ws, i) <= m < room(ws, i + 1) {
        lemma_room_grows(ws, 0, i);
        lemma_truncated(ws, m, i);
        let cut = section.take(4 + m);
        assert(cut.take(4) =~= head);
        assert(cut.skip(4) =~= weights_bytes(ws).take(m));
    }
}

/// Sorting keeps the order of weights that have the same fingerprint.
pub proof fn law_sorting_is_stable(s: Seq<WeightV>, fingerprint: Seq<u8>)
    ensures
        by_fingerprint(s).filter(|w: WeightV| w.fingerprint == fingerprint) == s.filter(
            |w: WeightV| w.fingerprint == fingerprint,
        ),
    decreases s.len(),
{
    let same = |w: WeightV| w.fingerprint == fingerprint;
    if s.len() > 0 {
        law_sorting_is_stable(s.drop_last(), fingerprint);
        let front = by_fingerprint(s.drop_last());
        let w = s.last();
        let p = place(front, w);
        lemma_place_bounds(front, w);
        let a = front.take(p);
        let b = front.skip(p);
        let out = by_fingerprint(s);
        assert(out =~= a.push(w) + b);
        assert(front =~= a + b);
        assert(s =~= s.drop_last().push(w));
        Seq::filter_distributes_over_add(a.push(w), b, same);
        Seq::filter_distributes_over_add(a, b, same);
        assert(s.drop_last().filter(same) == front.filter(same));
        lemma_filter_push(a, w, same);
        lemma_filter_push(s.drop_last(), w, same);
        if same(w) {
            lemma_lex_irreflexive(fingerprint);
            assert forall|k: int| 0 <= k < b.len() implies !same(#[trigger] b[k]) by {
                assert(b[k] == front[p + k]);
            }
            lemma_filter_nothing(b, same);
            assert(out.filter(same) =~= s.filter(same));
        } else {
            assert(out.filter(same) =~= s.filter(same));
        }
    }
    assert(by_fingerprint(s).filter(same) == s.filter(same));
}

proof fn lemma_filter_push(s: Seq<WeightV>, w: WeightV, p: spec_fn(WeightV) -> bool)
    ensures
        s.push(w).filter(p) == if p(w) {
            s.filter(p).push(w)
        } else {
            s.filter(p)
        },
{
    reveal(Seq::filter);
    assert(s.push(w).drop_last() =~= s);
}

proof fn lemma_filter_nothing(s: Seq<WeightV>, p: spec_fn(WeightV) -> bool)
    requires
        forall|k: int| 0 <= k < s.len() ==> !p(#[trigger] s[k]),
    ensures
        s.filter(p) == Seq::<WeightV>::empty(),
    decreases s.len(),
{
    reveal(Seq::filter);
    if s.len() > 0 {
        let front = s.drop_last();
        assert forall|k: int| 0 <= k < front.len() implies !p(#[trigger] front[k]) by {
            assert(front[k] == s[k]);
        }
        lemma_filter_nothing(front, p);
        assert(!p(s[s.len() - 1]));
    }
}

/// Weights are modelled by their fingerprint and their body, each at its own place.
pub proof fn law_weights_are_modelled_whole(ws: Seq<Weight>)
    ensures
        weight_views(ws).len() == ws.len(),
        forall|i: int|
            0 <= i < ws.len() ==> (#[trigger] weight_views(ws)[i]).fingerprint == ws[i].fingerprint@
                && weight_views(ws)[i].body == ws[i].body@,
{
}

} // verus!
