//! Re-emitting an archive section by section.
//!
//! An archive is a header, a table with one entry a section, the section
//! bodies one behind the other, and a footer that is the BLAKE3 digest of all
//! that stands before it.

use crate::bytes::{copy_bytes, push_bytes, push_le, slice_range};
use crate::kappa::blake3_hash;
use crate::weights::{sort_weights_section, WeightsError};
use vstd::prelude::*;
use vstd::slice::slice_to_vec;

verus! {

/// What a section holds, as far as a rewrite tells sections apart.
#[derive(Debug, Clone, Copy, PartialEq, Eq, Structural)]
pub enum SectionKind {
    Constants,
    Weights,
    WarmStart,
    /// The section that holds the κ-map, alone or beside other extensions.
    KappaMap,
    Other,
}

/// One entry of the section table.
#[derive(Debug, Clone, Copy, PartialEq, Eq, Structural)]
pub struct SectionRef {
    pub kind: SectionKind,
    /// The byte by which the table names the kind.
    pub tag: u8,
    pub offset: u64,
    pub length: u64,
}

/// The magic bytes and the version with which an archive begins.
#[derive(Debug, Clone, Copy)]
pub struct Format {
    pub magic: [u8; 4],
    pub version: u16,
}

/// How a rewrite treats the sections.
pub enum Rewrite {
    /// Replace the constants and drop the warm start, which was folded over
    /// empty placeholders.
    Materialize { constants: Vec<u8> },
    /// Replace the constants and drop the warm start, the weights and the κ-map:
    /// every interned weight is inline, the model weights page in, and the map would
    /// state bindings that are no longer to be filled. The section of the map keeps
    /// the extensions that stand beside it, as `beside_map` writes them; without any
    /// it is dropped whole.
    Page { constants: Vec<u8>, beside_map: Option<Vec<u8>> },
    /// Put the weights in canonical order and keep everything else.
    Canonicalize,
}

/// The model of a [`Rewrite`].
pub enum RewriteV {
    Materialize { constants: Seq<u8> },
    Page { constants: Seq<u8>, beside_map: Option<Seq<u8>> },
    Canonicalize,
}

impl View for Rewrite {
    type V = RewriteV;

    open spec fn view(&self) -> RewriteV {
        match self {
            Rewrite::Materialize { constants } => RewriteV::Materialize { constants: constants@ },
            Rewrite::Page { constants, beside_map } => RewriteV::Page {
                constants: constants@,
                beside_map: crate::bytes::bytes_view(*beside_map),
            },
            Rewrite::Canonicalize => RewriteV::Canonicalize,
        }
    }
}

/// Why an archive cannot be re-emitted.
#[derive(Debug, Clone, Copy, PartialEq, Eq, Structural)]
pub enum AssembleError {
    /// A section lies outside the archive.
    SectionRange,
    /// A weights section is truncated.
    Weights(WeightsError),
}

/// One section to be emitted.
pub struct PayloadV {
    pub kind: SectionKind,
    pub tag: u8,
    pub body: Seq<u8>,
}

/// The new body of a section, or nothing where the section is dropped.
pub open spec fn rewritten(rule: RewriteV, kind: SectionKind, body: Seq<u8>) -> Result<
    Option<Seq<u8>>,
    WeightsError,
> {
    match rule {
        RewriteV::Materialize { constants } => match kind {
            SectionKind::Constants => Ok(Some(constants)),
            SectionKind::WarmStart => Ok(None),
            _ => Ok(Some(body)),
        },
        RewriteV::Page { constants, beside_map } => match kind {
            SectionKind::Constants => Ok(Some(constants)),
            SectionKind::WarmStart => Ok(None),
            SectionKind::Weights => Ok(None),
            SectionKind::KappaMap => Ok(beside_map),
            _ => Ok(Some(body)),
        },
        RewriteV::Canonicalize => match kind {
            SectionKind::Weights => match crate::weights::canonical_section(body) {
                Ok(s) => Ok(Some(s)),
                Err(e) => Err(e),
            },
            _ => Ok(Some(body)),
        },
    }
}

/// What a section that is kept holds afterwards: the section of the κ-map holds no map
/// any more once it is paged.
pub open spec fn kind_after(rule: RewriteV, kind: SectionKind) -> SectionKind {
    if rule is Page && kind == SectionKind::KappaMap {
        SectionKind::Other
    } else {
        kind
    }
}

/// What one section contributes: nothing where it is dropped.
pub open spec fn section_payload(archive: Seq<u8>, s: SectionRef, rule: RewriteV) -> Result<
    Seq<PayloadV>,
    AssembleError,
> {
    match crate::bytes::byte_range(archive, s.offset, s.length) {
        None => Err(AssembleError::SectionRange),
        Some(body) => match rewritten(rule, s.kind, body) {
            Err(e) => Err(AssembleError::Weights(e)),
            Ok(None) => Ok(Seq::empty()),
            Ok(Some(new_body)) => Ok(
                seq![PayloadV { kind: kind_after(rule, s.kind), tag: s.tag, body: new_body }],
            ),
        },
    }
}

/// A result with some payloads put before it.
pub open spec fn behind(head: Seq<PayloadV>, tail: Result<Seq<PayloadV>, AssembleError>) -> Result<
    Seq<PayloadV>,
    AssembleError,
> {
    match tail {
        Ok(v) => Ok(head + v),
        Err(e) => Err(e),
    }
}

/// The sections of the rewritten archive, in their order; the first section
/// that cannot be rewritten is the error.
pub open spec fn payloads_of(
    archive: Seq<u8>,
    sections: Seq<SectionRef>,
    rule: RewriteV,
) -> Result<Seq<PayloadV>, AssembleError>
    decreases sections.len(),
{
    if sections.len() == 0 {
        Ok(Seq::empty())
    } else {
        match section_payload(archive, sections[0], rule) {
            Err(e) => Err(e),
            Ok(head) => behind(head, payloads_of(archive, sections.skip(1), rule)),
        }
    }
}

/// The header of an archive of `count` sections.
pub open spec fn header(format: Format, count: nat) -> Seq<u8> {
    format.magic@ + crate::bytes::le_bytes(format.version as nat, 2) + crate::bytes::le_bytes(0, 2)
        + crate::bytes::le_bytes(count, 2)
}

/// One entry of the section table.
pub open spec fn table_entry(p: PayloadV, offset: nat) -> Seq<u8> {
    seq![p.tag] + crate::bytes::zeros(7) + crate::bytes::le_bytes(offset, 8)
        + crate::bytes::le_bytes(p.body.len(), 8)
}

/// The section table, where the first body stands at `offset`.
pub open spec fn table(payloads: Seq<PayloadV>, offset: nat) -> Seq<u8>
    decreases payloads.len(),
{
    if payloads.len() == 0 {
        Seq::empty()
    } else {
        table_entry(payloads[0], offset) + table(
            payloads.skip(1),
            offset + payloads[0].body.len(),
        )
    }
}

/// The bodies, one behind the other.
pub open spec fn bodies(payloads: Seq<PayloadV>) -> Seq<u8>
    decreases payloads.len(),
{
    if payloads.len() == 0 {
        Seq::empty()
    } else {
        payloads[0].body + bodies(payloads.skip(1))
    }
}

/// Where the first body stands: behind a header of 10 bytes and a table of 24
/// bytes a section.
pub open spec fn first_offset(payloads: Seq<PayloadV>) -> nat {
    10 + 24 * payloads.len()
}

/// An archive without its footer.
pub open spec fn unsealed(format: Format, payloads: Seq<PayloadV>) -> Seq<u8> {
    header(format, payloads.len()) + table(payloads, first_offset(payloads)) + bodies(payloads)
}

/// An archive with its footer.
pub open spec fn emitted(format: Format, payloads: Seq<PayloadV>) -> Seq<u8> {
    let front = unsealed(format, payloads);
    front + crate::kappa::blake3_digest(front)@
}

/// An archive rewritten by a rule.
pub open spec fn reassembled(
    archive: Seq<u8>,
    format: Format,
    sections: Seq<SectionRef>,
    rule: RewriteV,
) -> Result<Seq<u8>, AssembleError> {
    match payloads_of(archive, sections, rule) {
        Ok(payloads) => Ok(emitted(format, payloads)),
        Err(e) => Err(e),
    }
}

struct Payload {
    kind: SectionKind,
    tag: u8,
    body: Vec<u8>,
}

impl View for Payload {
    type V = PayloadV;

    closed spec fn view(&self) -> PayloadV {
        PayloadV { kind: self.kind, tag: self.tag, body: self.body@ }
    }
}

spec fn payload_views(s: Seq<Payload>) -> Seq<PayloadV> {
    s.map_values(|p: Payload| p@)
}

fn rewrite_body(rule: &Rewrite, kind: SectionKind, body: Vec<u8>) -> (r: Result<
    Option<Vec<u8>>,
    WeightsError,
>)
    ensures
        match r {
            Ok(b) => rewritten(rule@, kind, body@) == Ok::<Option<Seq<u8>>, WeightsError>(
                crate::bytes::bytes_view(b),
            ),
            Err(e) => rewritten(rule@, kind, body@) == Err::<Option<Seq<u8>>, WeightsError>(e),
        },
{
    match rule {
        Rewrite::Materialize { constants } => match kind {
            SectionKind::Constants => Ok(Some(copy_bytes(constants.as_slice()))),
            SectionKind::WarmStart => Ok(None),
            _ => Ok(Some(body)),
        },
        Rewrite::Page { constants, beside_map } => match kind {
            SectionKind::Constants => Ok(Some(copy_bytes(constants.as_slice()))),
            SectionKind::WarmStart => Ok(None),
            SectionKind::Weights => Ok(None),
            SectionKind::KappaMap => match beside_map {
                Some(rest) => Ok(Some(copy_bytes(rest.as_slice()))),
                None => Ok(None),
            },
            _ => Ok(Some(body)),
        },
        Rewrite::Canonicalize => match kind {
            SectionKind::Weights => match sort_weights_section(body.as_slice()) {
                Ok(s) => Ok(Some(s)),
                Err(e) => Err(e),
            },
            _ => Ok(Some(body)),
        },
    }
}

fn kept_kind(rule: &Rewrite, kind: SectionKind) -> (r: SectionKind)
    ensures
        r == kind_after(rule@, kind),
{
    match (rule, kind) {
        (Rewrite::Page { .. }, SectionKind::KappaMap) => SectionKind::Other,
        _ => kind,
    }
}

fn gather(archive: &[u8], sections: &Vec<SectionRef>, rule: &Rewrite) -> (r: Result<
    Vec<Payload>,
    AssembleError,
>)
    ensures
        match r {
            Ok(v) => payloads_of(archive@, sections@, rule@) == Ok::<Seq<PayloadV>, AssembleError>(
                payload_views(v@),
            ),
            Err(e) => payloads_of(archive@, sections@, rule@) == Err::<
                Seq<PayloadV>,
                AssembleError,
            >(e),
        },
{
    let mut out: Vec<Payload> = Vec::new();
    let mut i: usize = 0;
    proof {
        assert(sections@.skip(0) =~= sections@);
        assert(payload_views(out@) =~= Seq::empty());
        let tail = payloads_of(archive@, sections@, rule@);
        if tail is Ok {
            assert(payload_views(out@) + tail->Ok_0 =~= tail->Ok_0);
        }
    }
    while i < sections.len()
        invariant
            i <= sections@.len(),
            payloads_of(archive@, sections@, rule@) == behind(
                payload_views(out@),
                payloads_of(archive@, sections@.skip(i as int), rule@),
            ),
        decreases sections@.len() - i,
    {
        let s: SectionRef = sections[i];
        let ghost rest = sections@.skip(i as int);
        let ghost before = payload_views(out@);
        proof {
            assert(rest[0] == s);
            assert(rest.skip(1) =~= sections@.skip(i + 1));
        }
        let body = match slice_range(archive, s.offset, s.length) {
            None => {
                return Err(AssembleError::SectionRange);
            },
            Some(body) => body,
        };
        let ghost tail = payloads_of(archive@, sections@.skip(i + 1), rule@);
        match rewrite_body(rule, s.kind, body) {
            Err(e) => {
                return Err(AssembleError::Weights(e));
            },
            Ok(None) => {
                proof {
                    if tail is Ok {
                        assert(before + (Seq::<PayloadV>::empty() + tail->Ok_0) =~= before
                            + tail->Ok_0);
                    }
                }
            },
            Ok(Some(new_body)) => {
                let p = Payload { kind: kept_kind(rule, s.kind), tag: s.tag, body: new_body };
                let ghost model = p@;
                out.push(p);
                proof {
                    assert(payload_views(out@) =~= before.push(model));
                    if tail is Ok {
                        assert(before + (seq![model] + tail->Ok_0) =~= payload_views(out@)
                            + tail->Ok_0);
                    }
                }
            },
        }
        i += 1;
    }
    proof {
        assert(sections@.skip(sections@.len() as int) =~= Seq::empty());
        assert(payload_views(out@) + Seq::empty() =~= payload_views(out@));
    }
    Ok(out)
}

/// Only the low bytes of a number show in its little-endian form.
proof fn lemma_le_bytes_low(n: nat, width: nat)
    ensures
        crate::bytes::le_bytes(n, width) == crate::bytes::le_bytes(
            n % crate::bytes::le_limit(width),
            width,
        ),
        crate::bytes::le_limit(width) > 0,
    decreases width,
{
    if width > 0 {
        let w = (width - 1) as nat;
        let limit = crate::bytes::le_limit(w);
        lemma_le_bytes_low(n / 256, w);
        let m = n % (256 * limit);
        vstd::arithmetic::div_mod::lemma_mod_breakdown(n as int, 256, limit as int);
        let q = (n / 256) % limit;
        assert(m == 256 * q + n % 256);
        assert(m % 256 == n % 256);
        assert(m / 256 == q);
        lemma_le_bytes_low(q, w);
        vstd::arithmetic::div_mod::lemma_mod_twice((n / 256) as int, limit as int);
    }
}

proof fn lemma_table_push(front: Seq<PayloadV>, p: PayloadV, offset: nat)
    ensures
        table(front.push(p), offset) == table(front, offset) + table_entry(
            p,
            offset + bodies(front).len(),
        ),
        bodies(front.push(p)) == bodies(front) + p.body,
    decreases front.len(),
{
    if front.len() == 0 {
        reveal_with_fuel(table, 2);
        reveal_with_fuel(bodies, 2);
        assert(front.push(p).skip(1) =~= Seq::<PayloadV>::empty());
        assert(front.push(p)[0] == p);
        assert(table(front.push(p), offset) =~= table(front, offset) + table_entry(p, offset));
        assert(bodies(front.push(p)) =~= bodies(front) + p.body);
    } else {
        let rest = front.skip(1);
        assert(front.push(p).skip(1) =~= rest.push(p));
        lemma_table_push(rest, p, offset + front[0].body.len());
        assert(table(front.push(p), offset) =~= table(front, offset) + table_entry(
            p,
            offset + bodies(front).len(),
        ));
        assert(bodies(front.push(p)) =~= bodies(front) + p.body);
    }
}

fn emit(format: &Format, payloads: &Vec<Payload>) -> (out: Vec<u8>)
    ensures
        out@ == emitted(*format, payload_views(payloads@)),
{
    let ghost views = payload_views(payloads@);
    let ghost start = first_offset(views);
    let mut out: Vec<u8> = slice_to_vec(format.magic.as_slice());
    push_le(&mut out, format.version as u64, 2);
    push_le(&mut out, 0, 2);
    push_le(&mut out, payloads.len() as u64, 2);
    let ghost head = header(*format, views.len());
    let size: u64 = payloads.len() as u64;
    let mut offset: u64 = 10u64.wrapping_add(24u64.wrapping_mul(size));
    proof {
        crate::bytes::lemma_le_limits();
        assert(out@ =~= head);
        assert(views.take(0) =~= Seq::<PayloadV>::empty());
        assert(head + table(views.take(0), start) =~= head);
        assert(offset as nat == (start + bodies(views.take(0)).len()) % 0x1_0000_0000_0000_0000) by {
            let limit: int = 0x1_0000_0000_0000_0000;
            vstd::arithmetic::div_mod::lemma_add_mod_noop(10, 24 * size as int, limit);
            vstd::arithmetic::div_mod::lemma_mod_twice(24 * size as int, limit);
            vstd::arithmetic::div_mod::lemma_add_mod_noop(
                10,
                (24 * size as int) % limit,
                limit,
            );
        }
    }
    let mut i: usize = 0;
    while i < payloads.len()
        invariant
            i <= payloads@.len(),
            views == payload_views(payloads@),
            out@ == head + table(views.take(i as int), start),
            offset as nat == (start + bodies(views.take(i as int)).len())
                % 0x1_0000_0000_0000_0000,
        decreases payloads@.len() - i,
    {
        let p = &payloads[i];
        let ghost before = out@;
        out.push(p.tag);
        push_le(&mut out, 0, 7);
        push_le(&mut out, offset, 8);
        push_le(&mut out, p.body.len() as u64, 8);
        proof {
            let front = views.take(i as int);
            let at = start + bodies(front).len();
            assert(views[i as int] == p@);
            assert(views.take(i + 1) =~= front.push(p@));
            lemma_table_push(front, p@, start);
            lemma_zero_bytes(7);
            crate::bytes::lemma_le_limits();
            lemma_le_bytes_low(at, 8);
            assert(out@ =~= before + table_entry(p@, at));
            assert(out@ =~= head + table(views.take(i + 1), start));
            let limit: int = 0x1_0000_0000_0000_0000;
            let more = p@.body.len() as int;
            vstd::arithmetic::div_mod::lemma_add_mod_noop(at as int, more, limit);
            vstd::arithmetic::div_mod::lemma_mod_twice(at as int, limit);
            vstd::arithmetic::div_mod::lemma_add_mod_noop(at as int % limit, more, limit);
        }
        offset = offset.wrapping_add(p.body.len() as u64);
        i += 1;
    }
    proof {
        assert(views.take(views.len() as int) =~= views);
        assert(views.take(0) =~= Seq::<PayloadV>::empty());
    }
    let ghost front = head + table(views, start);
    let mut k: usize = 0;
    proof {
        assert(front + bodies(views.take(0)) =~= front);
    }
    while k < payloads.len()
        invariant
            k <= payloads@.len(),
            views == payload_views(payloads@),
            out@ == front + bodies(views.take(k as int)),
        decreases payloads@.len() - k,
    {
        let p = &payloads[k];
        let ghost before = out@;
        push_bytes(&mut out, p.body.as_slice());
        proof {
            assert(views[k as int] == p@);
            assert(views.take(k + 1) =~= views.take(k as int).push(p@));
            lemma_table_push(views.take(k as int), p@, 0);
            assert(out@ =~= front + bodies(views.take(k + 1)));
        }
        k += 1;
    }
    proof {
        assert(views.take(views.len() as int) =~= views);
        assert(out@ =~= unsealed(*format, views));
    }
    let footer = blake3_hash(out.as_slice());
    push_bytes(&mut out, footer.as_slice());
    out
}

proof fn lemma_zero_bytes(width: nat)
    ensures
        crate::bytes::le_bytes(0, width) == crate::bytes::zeros(width),
    decreases width,
{
    if width > 0 {
        lemma_zero_bytes((width - 1) as nat);
    }
    assert(crate::bytes::le_bytes(0, width) =~= crate::bytes::zeros(width));
}

/// Re-emit an archive section by section under a rule, with a fresh footer.
pub fn reassemble(
    archive: &[u8],
    format: &Format,
    sections: &Vec<SectionRef>,
    rule: &Rewrite,
) -> (r: Result<Vec<u8>, AssembleError>)
    ensures
        match r {
            Ok(out) => reassembled(archive@, *format, sections@, rule@) == Ok::<
                Seq<u8>,
                AssembleError,
            >(out@),
            Err(e) => reassembled(archive@, *format, sections@, rule@) == Err::<
                Seq<u8>,
                AssembleError,
            >(e),
        },
{
    match gather(archive, sections, rule) {
        Ok(payloads) => Ok(emit(format, &payloads)),
        Err(e) => Err(e),
    }
}

/// Re-emit an archive with its constants replaced and its warm start dropped.
pub fn rebuild_archive(
    archive: &[u8],
    format: &Format,
    sections: &Vec<SectionRef>,
    new_constants: Vec<u8>,
) -> (r: Result<Vec<u8>, AssembleError>)
    ensures
        ({
            let rule = RewriteV::Materialize { constants: new_constants@ };
            match r {
                Ok(out) => reassembled(archive@, *format, sections@, rule) == Ok::<
                    Seq<u8>,
                    AssembleError,
                >(out@),
                Err(e) => reassembled(archive@, *format, sections@, rule) == Err::<
                    Seq<u8>,
                    AssembleError,
                >(e),
            }
        }),
{
    let rule = Rewrite::Materialize { constants: new_constants };
    reassemble(archive, format, sections, &rule)
}

/// The section table that the emitter writes, where the first body stands at
/// `offset`.
pub open spec fn written_from(payloads: Seq<PayloadV>, offset: nat) -> Seq<SectionRef>
    decreases payloads.len(),
{
    if payloads.len() == 0 {
        Seq::empty()
    } else {
        let p = payloads[0];
        seq![
            SectionRef {
                kind: p.kind,
                tag: p.tag,
                offset: offset as u64,
                length: p.body.len() as u64,
            },
        ] + written_from(payloads.skip(1), offset + p.body.len())
    }
}

/// The section table that the emitter writes.
pub open spec fn written_sections(payloads: Seq<PayloadV>) -> Seq<SectionRef> {
    written_from(payloads, first_offset(payloads))
}

proof fn lemma_layout_sizes(format: Format, payloads: Seq<PayloadV>, offset: nat)
    ensures
        header(format, payloads.len()).len() == 10,
        table(payloads, offset).len() == 24 * payloads.len(),
    decreases payloads.len(),
{
    crate::bytes::lemma_le_bytes_len(format.version as nat, 2);
    crate::bytes::lemma_le_bytes_len(0, 2);
    crate::bytes::lemma_le_bytes_len(payloads.len(), 2);
    if payloads.len() > 0 {
        crate::bytes::lemma_le_bytes_len(offset, 8);
        crate::bytes::lemma_le_bytes_len(payloads[0].body.len(), 8);
        lemma_layout_sizes(format, payloads.skip(1), offset + payloads[0].body.len());
    }
}

/// The rule sends a payload to itself.
pub open spec fn settled(rule: RewriteV, p: PayloadV) -> bool {
    &&& rewritten(rule, p.kind, p.body) == Ok::<Option<Seq<u8>>, WeightsError>(Some(p.body))
    &&& kind_after(rule, p.kind) == p.kind
}

proof fn lemma_read_back(
    archive: Seq<u8>,
    payloads: Seq<PayloadV>,
    offset: nat,
    rule: RewriteV,
)
    requires
        offset + bodies(payloads).len() <= archive.len(),
        archive.len() <= u64::MAX,
        archive.subrange(offset as int, (offset + bodies(payloads).len()) as int) == bodies(
            payloads,
        ),
        forall|i: int| 0 <= i < payloads.len() ==> settled(rule, #[trigger] payloads[i]),
    ensures
        payloads_of(archive, written_from(payloads, offset), rule) == Ok::<
            Seq<PayloadV>,
            AssembleError,
        >(payloads),
    decreases payloads.len(),
{
    if payloads.len() == 0 {
        assert(payloads =~= Seq::empty());
    } else {
        let p = payloads[0];
        let all = bodies(payloads);
        let rest = payloads.skip(1);
        let next = offset + p.body.len();
        let sections = written_from(payloads, offset);
        assert(settled(rule, p));
        assert(all == p.body + bodies(rest));
        assert(archive.subrange(offset as int, next as int) =~= p.body) by {
            assert forall|k: int| 0 <= k < p.body.len() implies archive[offset + k] == p.body[k] by {
                assert(archive.subrange(offset as int, (offset + all.len()) as int)[k] == all[k]);
            }
        }
        assert(archive.subrange(next as int, (next + bodies(rest).len()) as int) =~= bodies(rest))
            by {
            assert forall|k: int| 0 <= k < bodies(rest).len() implies archive[next + k] == bodies(
                rest,
            )[k] by {
                assert(archive.subrange(
                    offset as int,
                    (offset + all.len()) as int,
                )[p.body.len() + k] == all[p.body.len() + k]);
            }
        }
        assert forall|i: int| 0 <= i < rest.len() implies settled(rule, #[trigger] rest[i]) by {
            assert(rest[i] == payloads[i + 1]);
        }
        lemma_read_back(archive, rest, next, rule);
        assert(sections.skip(1) =~= written_from(rest, next));
        assert(section_payload(archive, sections[0], rule) == Ok::<Seq<PayloadV>, AssembleError>(
            seq![p],
        ));
        assert(seq![p] + rest =~= payloads);
    }
}

/// Reading an emitted archive through the table that was written gives back
/// the bodies that were written, under every rule that leaves them as they are.
pub proof fn law_emitted_sections_read_back(format: Format, payloads: Seq<PayloadV>, rule: RewriteV)
    requires
        emitted(format, payloads).len() <= u64::MAX,
        forall|i: int| 0 <= i < payloads.len() ==> settled(rule, #[trigger] payloads[i]),
    ensures
        payloads_of(emitted(format, payloads), written_sections(payloads), rule) == Ok::<
            Seq<PayloadV>,
            AssembleError,
        >(payloads),
{
    let start = first_offset(payloads);
    lemma_layout_sizes(format, payloads, start);
    let archive = emitted(format, payloads);
    assert(archive.subrange(start as int, (start + bodies(payloads).len()) as int) =~= bodies(
        payloads,
    ));
    lemma_read_back(archive, payloads, start, rule);
}

/// The wire form of the `i`th table entry is the `i`th section that the
/// emitter wrote, and the footer is the digest of all that stands before it.
pub proof fn law_emitted_table_is_on_the_wire(format: Format, payloads: Seq<PayloadV>, i: int)
    requires
        emitted(format, payloads).len() <= u64::MAX,
        0 <= i < payloads.len(),
    ensures
        ({
            let archive = emitted(format, payloads);
            let at = 10 + 24 * i;
            let s = written_sections(payloads)[i];
            &&& written_sections(payloads).len() == payloads.len()
            &&& archive.len() == first_offset(payloads) + bodies(payloads).len() + 32
            &&& archive[at] == s.tag
            &&& crate::bytes::le_value(archive.subrange(at + 8, at + 16)) == s.offset
            &&& crate::bytes::le_value(archive.subrange(at + 16, at + 24)) == s.length
            &&& archive.skip(archive.len() - 32) == crate::kappa::blake3_digest(
                archive.take(archive.len() - 32),
            )@
        }),
{
    let start = first_offset(payloads);
    let archive = emitted(format, payloads);
    lemma_layout_sizes(format, payloads, start);
    let front = unsealed(format, payloads);
    assert(archive.take(archive.len() - 32) =~= front);
    assert(archive.skip(archive.len() - 32) =~= crate::kappa::blake3_digest(front)@);
    lemma_table_entry(payloads, start, i, archive.len());
    let t = table(payloads, start);
    let at = 10 + 24 * i;
    assert(archive.subrange(at, at + 24) =~= t.subrange(24 * i, 24 * i + 24));
    let e = t.subrange(24 * i, 24 * i + 24);
    assert(archive[at] == archive.subrange(at, at + 24)[0]);
    assert(archive.subrange(at + 8, at + 16) =~= e.subrange(8, 16));
    assert(archive.subrange(at + 16, at + 24) =~= e.subrange(16, 24));
}

proof fn lemma_table_entry(payloads: Seq<PayloadV>, offset: nat, i: int, total: nat)
    requires
        0 <= i < payloads.len(),
        offset + bodies(payloads).len() <= total,
        total <= u64::MAX,
    ensures
        table(payloads, offset).len() == 24 * payloads.len(),
        written_from(payloads, offset).len() == payloads.len(),
        ({
            let e = table(payloads, offset).subrange(24 * i, 24 * i + 24);
            let s = written_from(payloads, offset)[i];
            &&& e[0] == s.tag
            &&& crate::bytes::le_value(e.subrange(8, 16)) == s.offset
            &&& crate::bytes::le_value(e.subrange(16, 24)) == s.length
        }),
    decreases payloads.len(),
{
    let p = payloads[0];
    let rest = payloads.skip(1);
    let next = offset + p.body.len();
    let t = table(payloads, offset);
    let first = table_entry(p, offset);
    crate::bytes::lemma_le_bytes_len(offset, 8);
    crate::bytes::lemma_le_bytes_len(p.body.len(), 8);
    assert(bodies(payloads) == p.body + bodies(rest));
    lemma_written_len(rest, next);
    lemma_layout_sizes(Format { magic: [0, 0, 0, 0], version: 0 }, rest, next);
    if i == 0 {
        crate::bytes::lemma_le_limits();
        crate::bytes::lemma_le_round_trip(offset, 8);
        crate::bytes::lemma_le_round_trip(p.body.len(), 8);
        let e = t.subrange(0, 24);
        assert(e =~= first);
        assert(e.subrange(8, 16) =~= crate::bytes::le_bytes(offset, 8));
        assert(e.subrange(16, 24) =~= crate::bytes::le_bytes(p.body.len(), 8));
    } else {
        lemma_table_entry(rest, next, i - 1, total);
        assert(t.subrange(24 * i, 24 * i + 24) =~= table(rest, next).subrange(
            24 * (i - 1),
            24 * (i - 1) + 24,
        ));
        assert(written_from(payloads, offset)[i] == written_from(rest, next)[i - 1]);
    }
}

pub proof fn lemma_written_len(payloads: Seq<PayloadV>, offset: nat)
    ensures
        written_from(payloads, offset).len() == payloads.len(),
    decreases payloads.len(),
{
    if payloads.len() > 0 {
        lemma_written_len(payloads.skip(1), offset + payloads[0].body.len());
    }
}

proof fn lemma_canonical_settled(archive: Seq<u8>, sections: Seq<SectionRef>)
    requires
        payloads_of(archive, sections, RewriteV::Canonicalize) is Ok,
    ensures
        forall|i: int|
            0 <= i < payloads_of(archive, sections, RewriteV::Canonicalize)->Ok_0.len() ==> settled(
                RewriteV::Canonicalize,
                #[trigger] payloads_of(archive, sections, RewriteV::Canonicalize)->Ok_0[i],
            ),
    decreases sections.len(),
{
    if sections.len() > 0 {
        let rule = RewriteV::Canonicalize;
        let all = payloads_of(archive, sections, rule)->Ok_0;
        let head = section_payload(archive, sections[0], rule)->Ok_0;
        let rest = payloads_of(archive, sections.skip(1), rule);
        lemma_canonical_settled(archive, sections.skip(1));
        let body = crate::bytes::byte_range(archive, sections[0].offset, sections[0].length)->0;
        if sections[0].kind == SectionKind::Weights {
            crate::weights::law_canonical_section_is_idempotent(body);
        }
        assert forall|i: int| 0 <= i < all.len() implies settled(rule, #[trigger] all[i]) by {
            if i >= head.len() {
                assert(all[i] == rest->Ok_0[i - head.len()]);
            }
        }
    }
}

/// Canonicalizing an archive twice is canonicalizing it once: the second time
/// finds every section as it left it.
pub proof fn law_canonicalizing_is_idempotent(
    archive: Seq<u8>,
    format: Format,
    sections: Seq<SectionRef>,
)
    requires
        reassembled(archive, format, sections, RewriteV::Canonicalize) is Ok,
        reassembled(archive, format, sections, RewriteV::Canonicalize)->Ok_0.len() <= u64::MAX,
    ensures
        ({
            let rule = RewriteV::Canonicalize;
            let once = reassembled(archive, format, sections, rule)->Ok_0;
            let table = written_sections(payloads_of(archive, sections, rule)->Ok_0);
            reassembled(once, format, table, rule) == Ok::<Seq<u8>, AssembleError>(once)
        }),
{
    let rule = RewriteV::Canonicalize;
    lemma_canonical_settled(archive, sections);
    law_emitted_sections_read_back(format, payloads_of(archive, sections, rule)->Ok_0, rule);
}

/// An archive that the emitter wrote and that holds no weights section is
/// already canonical.
pub proof fn law_canonicalizing_without_weights_changes_nothing(
    format: Format,
    payloads: Seq<PayloadV>,
)
    requires
        emitted(format, payloads).len() <= u64::MAX,
        forall|i: int|
            0 <= i < payloads.len() ==> (#[trigger] payloads[i]).kind != SectionKind::Weights,
    ensures
        reassembled(
            emitted(format, payloads),
            format,
            written_sections(payloads),
            RewriteV::Canonicalize,
        ) == Ok::<Seq<u8>, AssembleError>(emitted(format, payloads)),
{
    assert forall|i: int| 0 <= i < payloads.len() implies settled(
        RewriteV::Canonicalize,
        #[trigger] payloads[i],
    ) by {}
    law_emitted_sections_read_back(format, payloads, RewriteV::Canonicalize);
}

/// Whether a rewrite drops the sections of a kind.
pub open spec fn drops(rule: RewriteV, kind: SectionKind) -> bool {
    match rule {
        RewriteV::Materialize { .. } => kind == SectionKind::WarmStart,
        RewriteV::Page { beside_map, .. } => kind == SectionKind::WarmStart || kind
            == SectionKind::Weights || (kind == SectionKind::KappaMap && beside_map is None),
        RewriteV::Canonicalize => false,
    }
}

/// The sections that a rewrite keeps, in their order.
pub open spec fn survivors(sections: Seq<SectionRef>, rule: RewriteV) -> Seq<SectionRef>
    decreases sections.len(),
{
    if sections.len() == 0 {
        Seq::empty()
    } else if drops(rule, sections[0].kind) {
        survivors(sections.skip(1), rule)
    } else {
        seq![sections[0]] + survivors(sections.skip(1), rule)
    }
}

/// A rewrite keeps the sections that it does not drop, in their order and under
/// their tags: the constants are replaced where it brings new ones, the weights
/// are sorted where it canonicalizes, the κ-map leaves its section where it pages, and
/// every other body is carried over as it is.
pub proof fn law_a_rewrite_keeps_the_other_sections(
    archive: Seq<u8>,
    sections: Seq<SectionRef>,
    rule: RewriteV,
)
    requires
        payloads_of(archive, sections, rule) is Ok,
    ensures
        ({
            let kept = survivors(sections, rule);
            let payloads = payloads_of(archive, sections, rule)->Ok_0;
            &&& payloads.len() == kept.len()
            &&& forall|i: int|
                0 <= i < kept.len() ==> {
                    let s = #[trigger] kept[i];
                    let body = crate::bytes::byte_range(archive, s.offset, s.length);
                    &&& payloads[i].kind == kind_after(rule, s.kind)
                    &&& payloads[i].tag == s.tag
                    &&& body is Some
                    &&& rewritten(rule, s.kind, body->0) == Ok::<Option<Seq<u8>>, WeightsError>(
                        Some(payloads[i].body),
                    )
                    &&& s.kind == SectionKind::Other ==> payloads[i].body == body->0
                }
        }),
    decreases sections.len(),
{
    if sections.len() > 0 {
        law_a_rewrite_keeps_the_other_sections(archive, sections.skip(1), rule);
        let kept = survivors(sections, rule);
        let rest = survivors(sections.skip(1), rule);
        let head = section_payload(archive, sections[0], rule)->Ok_0;
        let tail = payloads_of(archive, sections.skip(1), rule)->Ok_0;
        let payloads = payloads_of(archive, sections, rule)->Ok_0;
        assert(payloads == head + tail);
        assert forall|i: int| 0 <= i < kept.len() implies {
            let s = #[trigger] kept[i];
            let body = crate::bytes::byte_range(archive, s.offset, s.length);
            &&& payloads[i].kind == kind_after(rule, s.kind)
            &&& payloads[i].tag == s.tag
            &&& body is Some
            &&& rewritten(rule, s.kind, body->0) == Ok::<Option<Seq<u8>>, WeightsError>(
                Some(payloads[i].body),
            )
            &&& s.kind == SectionKind::Other ==> payloads[i].body == body->0
        } by {
            let skipped: int = kept.len() - rest.len();
            if i >= skipped {
                assert(kept[i] == rest[i - skipped]);
                assert(payloads[i] == tail[i - skipped]);
            } else {
                assert(kept[0] == sections[0]);
                assert(payloads[0] == head[0]);
            }
        }
    }
}

/// Whether a section of this kind is stale once the archive is paged: a κ-map states
/// bindings that are no longer to be filled, a weights section holds bodies that are
/// inline, and a warm start was folded over placeholders.
pub open spec fn stale_when_paged(kind: SectionKind) -> bool {
    kind == SectionKind::KappaMap || kind == SectionKind::Weights || kind
        == SectionKind::WarmStart
}

/// No section of a paged archive holds a κ-map, weights or a warm start, and so the
/// table that is written for it lists none.
pub proof fn law_a_paged_archive_holds_nothing_stale(
    archive: Seq<u8>,
    sections: Seq<SectionRef>,
    constants: Seq<u8>,
    beside_map: Option<Seq<u8>>,
)
    ensures
        payloads_of(archive, sections, RewriteV::Page { constants, beside_map }) matches Ok(p)
            ==> (forall|i: int| 0 <= i < p.len() ==> !stale_when_paged((#[trigger] p[i]).kind))
            && forall|i: int|
            0 <= i < p.len() ==> !stale_when_paged((#[trigger] written_sections(p)[i]).kind),
    decreases sections.len(),
{
    let rule = RewriteV::Page { constants, beside_map };
    if sections.len() > 0 && payloads_of(archive, sections, rule) is Ok {
        law_a_paged_archive_holds_nothing_stale(
            archive,
            sections.skip(1),
            constants,
            beside_map,
        );
        let p = payloads_of(archive, sections, rule)->Ok_0;
        let head = section_payload(archive, sections[0], rule)->Ok_0;
        let tail = payloads_of(archive, sections.skip(1), rule)->Ok_0;
        assert forall|i: int| 0 <= i < p.len() implies !stale_when_paged(
            (#[trigger] p[i]).kind,
        ) by {
            if i >= head.len() {
                assert(p[i] == tail[i - head.len()]);
            }
        }
        assert forall|i: int| 0 <= i < p.len() implies !stale_when_paged(
            (#[trigger] written_sections(p)[i]).kind,
        ) by {
            lemma_written_kind(p, first_offset(p), i);
            assert(!stale_when_paged(p[i].kind));
        }
    }
}

proof fn lemma_written_kind(payloads: Seq<PayloadV>, offset: nat, i: int)
    requires
        0 <= i < payloads.len(),
    ensures
        written_from(payloads, offset)[i].kind == payloads[i].kind,
    decreases payloads.len(),
{
    if i > 0 {
        let next = offset + payloads[0].body.len();
        lemma_written_len(payloads.skip(1), next);
        lemma_written_kind(payloads.skip(1), next, i - 1);
        assert(written_from(payloads, offset)[i] == written_from(payloads.skip(1), next)[i - 1]);
    }
}

/// Whether two archives differ, section by section, in nothing but the order of the
/// entries inside their weights sections, where no fingerprint occurs twice.
pub open spec fn same_but_for_weight_order(
    a: Seq<u8>,
    a_sections: Seq<SectionRef>,
    b: Seq<u8>,
    b_sections: Seq<SectionRef>,
) -> bool {
    &&& a_sections.len() == b_sections.len()
    &&& forall|i: int|
        #![trigger a_sections[i]]
        #![trigger b_sections[i]]
        0 <= i < a_sections.len() ==> same_section(a, a_sections[i], b, b_sections[i])
}

/// Whether two sections have the same kind and tag, and the same body up to the order
/// of distinct weights.
pub open spec fn same_section(a: Seq<u8>, s: SectionRef, b: Seq<u8>, t: SectionRef) -> bool {
    &&& s.kind == t.kind
    &&& s.tag == t.tag
    &&& crate::bytes::byte_range(a, s.offset, s.length) matches Some(x)
        && crate::bytes::byte_range(b, t.offset, t.length) matches Some(y) && (if s.kind
        == SectionKind::Weights {
        crate::weights::section_weights(x) matches Ok(v) && crate::weights::section_weights(
            y,
        ) matches Ok(w) && v.to_multiset() == w.to_multiset()
            && crate::weights::distinct_fingerprints(v)
    } else {
        x == y
    })
}

proof fn lemma_order_does_not_show(
    a: Seq<u8>,
    a_sections: Seq<SectionRef>,
    b: Seq<u8>,
    b_sections: Seq<SectionRef>,
)
    requires
        same_but_for_weight_order(a, a_sections, b, b_sections),
    ensures
        payloads_of(a, a_sections, RewriteV::Canonicalize) == payloads_of(
            b,
            b_sections,
            RewriteV::Canonicalize,
        ),
        payloads_of(a, a_sections, RewriteV::Canonicalize) is Ok,
    decreases a_sections.len(),
{
    if a_sections.len() > 0 {
        let s = a_sections[0];
        let t = b_sections[0];
        assert(same_section(a, s, b, t));
        let x = crate::bytes::byte_range(a, s.offset, s.length)->0;
        let y = crate::bytes::byte_range(b, t.offset, t.length)->0;
        if s.kind == SectionKind::Weights {
            let v = crate::weights::section_weights(x)->Ok_0;
            let w = crate::weights::section_weights(y)->Ok_0;
            crate::weights::law_order_is_canonical(v, w);
        }
        assert forall|i: int| 0 <= i < a_sections.skip(1).len() implies same_section(
            a,
            #[trigger] a_sections.skip(1)[i],
            b,
            b_sections.skip(1)[i],
        ) by {
            assert(a_sections.skip(1)[i] == a_sections[i + 1]);
            assert(b_sections.skip(1)[i] == b_sections[i + 1]);
        }
        lemma_order_does_not_show(a, a_sections.skip(1), b, b_sections.skip(1));
    }
}

/// Equal models give equal bytes: two archives that differ only in the order of the
/// entries inside their weights sections, each fingerprint once, are canonicalized to
/// the same archive.
pub proof fn law_canonicalizing_ignores_the_order_of_weights(
    format: Format,
    a: Seq<u8>,
    a_sections: Seq<SectionRef>,
    b: Seq<u8>,
    b_sections: Seq<SectionRef>,
)
    requires
        same_but_for_weight_order(a, a_sections, b, b_sections),
    ensures
        reassembled(a, format, a_sections, RewriteV::Canonicalize) == reassembled(
            b,
            format,
            b_sections,
            RewriteV::Canonicalize,
        ),
        reassembled(a, format, a_sections, RewriteV::Canonicalize) is Ok,
{
    lemma_order_does_not_show(a, a_sections, b, b_sections);
}

/// Whether a section lies inside an archive.
pub open spec fn section_inside(archive: Seq<u8>, s: SectionRef) -> bool {
    s.offset + s.length <= archive.len()
}

/// The bytes of a section of an archive.
pub open spec fn bytes_of_section(archive: Seq<u8>, s: SectionRef) -> Seq<u8> {
    archive.subrange(s.offset as int, s.offset + s.length)
}

proof fn lemma_payloads(
    archive: Seq<u8>,
    sections: Seq<SectionRef>,
    rule: RewriteV,
    kept: spec_fn(SectionRef) -> bool,
)
    requires
        !(rule is Canonicalize),
        forall|s: SectionRef| #[trigger] kept(s) <==> !drops(rule, s.kind),
    ensures
        payloads_of(archive, sections, rule) is Ok <==> forall|i: int|
            0 <= i < sections.len() ==> section_inside(archive, #[trigger] sections[i]),
        payloads_of(archive, sections, rule) is Err ==> payloads_of(archive, sections, rule) == Err::<
            Seq<PayloadV>,
            AssembleError,
        >(AssembleError::SectionRange),
        payloads_of(archive, sections, rule) matches Ok(p) ==> ({
            let rest = sections.filter(kept);
            &&& p.len() == rest.len()
            &&& forall|i: int|
                0 <= i < rest.len() ==> {
                    let s = #[trigger] rest[i];
                    &&& p[i].kind == kind_after(rule, s.kind)
                    &&& p[i].tag == s.tag
                    &&& rewritten(rule, s.kind, bytes_of_section(archive, s)) == Ok::<
                        Option<Seq<u8>>,
                        WeightsError,
                    >(Some(p[i].body))
                }
        }),
    decreases sections.len(),
{
    if sections.len() > 0 {
        let s = sections[0];
        let tail = sections.skip(1);
        lemma_payloads(archive, tail, rule, kept);
        assert forall|i: int| 0 <= i < tail.len() implies #[trigger] tail[i] == sections[i + 1] by {}
        assert(payloads_of(archive, sections, rule) is Ok <==> forall|i: int|
            0 <= i < sections.len() ==> section_inside(archive, #[trigger] sections[i])) by {
            if forall|i: int|
                0 <= i < sections.len() ==> section_inside(archive, #[trigger] sections[i]) {
                assert(section_inside(archive, sections[0]));
                assert forall|i: int| 0 <= i < tail.len() implies section_inside(
                    archive,
                    #[trigger] tail[i],
                ) by {
                    assert(section_inside(archive, sections[i + 1]));
                }
            }
            if payloads_of(archive, sections, rule) is Ok {
                assert forall|i: int| 0 <= i < sections.len() implies section_inside(
                    archive,
                    #[trigger] sections[i],
                ) by {
                    if i > 0 {
                        assert(section_inside(archive, tail[i - 1]));
                    }
                }
            }
        }
        assert(sections =~= seq![s] + tail);
        Seq::filter_distributes_over_add(seq![s], tail, kept);
        reveal_with_fuel(Seq::filter, 2);
        let one = seq![s];
        assert(one.drop_last() =~= Seq::<SectionRef>::empty());
        assert(one.last() == s);
        assert(one.drop_last().filter(kept) =~= Seq::<SectionRef>::empty());
        assert(one.filter(kept) =~= if kept(s) {
            one
        } else {
            Seq::empty()
        });
        if let Ok(p) = payloads_of(archive, sections, rule) {
            let head = section_payload(archive, s, rule)->Ok_0;
            let more = payloads_of(archive, tail, rule)->Ok_0;
            let all = sections.filter(kept);
            let rest = tail.filter(kept);
            assert(p =~= head + more);
            let n: int = all.len() - rest.len();
            assert forall|i: int| 0 <= i < all.len() implies {
                let s = #[trigger] all[i];
                &&& p[i].kind == kind_after(rule, s.kind)
                &&& p[i].tag == s.tag
                &&& rewritten(rule, s.kind, bytes_of_section(archive, s)) == Ok::<
                    Option<Seq<u8>>,
                    WeightsError,
                >(Some(p[i].body))
            } by {
                if i >= n {
                    assert(all[i] == rest[i - n]);
                    assert(p[i] == more[i - n]);
                }
            }
        }
    } else {
        reveal(Seq::filter);
    }
}

/// Materializing changes the constants and nothing else. It fails exactly where a
/// section lies outside the archive. Otherwise the warm start goes, every other section
/// stays in its place among the rest, under its kind and tag; a constants section holds
/// the new constants, and every other one, weights and κ-map among them, the very bytes
/// that it held.
pub proof fn law_materializing_changes_only_the_constants(
    archive: Seq<u8>,
    sections: Seq<SectionRef>,
    constants: Seq<u8>,
)
    ensures
        ({
            let r = payloads_of(archive, sections, RewriteV::Materialize { constants });
            let kept = sections.filter(|s: SectionRef| s.kind != SectionKind::WarmStart);
            if forall|i: int|
                0 <= i < sections.len() ==> (#[trigger] sections[i]).offset + sections[i].length
                    <= archive.len() {
                &&& r matches Ok(p)
                &&& p.len() == kept.len()
                &&& forall|i: int|
                    0 <= i < kept.len() ==> (#[trigger] p[i]).kind == kept[i].kind && p[i].tag
                        == kept[i].tag && p[i].body == (if kept[i].kind == SectionKind::Constants {
                        constants
                    } else {
                        archive.subrange(kept[i].offset as int, kept[i].offset + kept[i].length)
                    })
            } else {
                r == Err::<Seq<PayloadV>, AssembleError>(AssembleError::SectionRange)
            }
        }),
{
    let rule = RewriteV::Materialize { constants };
    let keeps = |s: SectionRef| s.kind != SectionKind::WarmStart;
    lemma_payloads(archive, sections, rule, keeps);
    if forall|i: int|
        0 <= i < sections.len() ==> (#[trigger] sections[i]).offset + sections[i].length
            <= archive.len() {
        assert forall|i: int| 0 <= i < sections.len() implies section_inside(
            archive,
            #[trigger] sections[i],
        ) by {}
        let p = payloads_of(archive, sections, rule)->Ok_0;
        let kept = sections.filter(keeps);
        assert forall|i: int| 0 <= i < kept.len() implies (#[trigger] p[i]).kind == kept[i].kind
            && p[i].tag == kept[i].tag && p[i].body == (if kept[i].kind == SectionKind::Constants {
            constants
        } else {
            archive.subrange(kept[i].offset as int, kept[i].offset + kept[i].length)
        }) by {
            assert(p[i].kind == kind_after(rule, kept[i].kind));
            sections.lemma_filter_pred(keeps, i);
        }
    } else if payloads_of(archive, sections, rule) is Ok {
        assert forall|i: int| 0 <= i < sections.len() implies (#[trigger] sections[i]).offset
            + sections[i].length <= archive.len() by {
            assert(section_inside(archive, sections[i]));
        }
    }
}

/// Paging changes the constants and the section of the κ-map and nothing else. It fails
/// exactly where a section lies outside the archive. Otherwise the warm start and the
/// weights go, and so does the section of the map where nothing stands beside it; every
/// other section stays in its place under its tag; a constants section holds the new
/// constants, the section of the map what stands beside it, and every other one the
/// very bytes that it held.
pub proof fn law_paging_changes_only_constants_and_map(
    archive: Seq<u8>,
    sections: Seq<SectionRef>,
    constants: Seq<u8>,
    beside_map: Option<Seq<u8>>,
)
    ensures
        ({
            let r = payloads_of(archive, sections, RewriteV::Page { constants, beside_map });
            let kept = sections.filter(
                |s: SectionRef|
                    s.kind == SectionKind::Constants || s.kind == SectionKind::Other || (s.kind
                        == SectionKind::KappaMap && beside_map is Some),
            );
            if forall|i: int|
                0 <= i < sections.len() ==> (#[trigger] sections[i]).offset + sections[i].length
                    <= archive.len() {
                &&& r matches Ok(p)
                &&& p.len() == kept.len()
                &&& forall|i: int|
                    0 <= i < kept.len() ==> (#[trigger] p[i]).tag == kept[i].tag && p[i].kind == (
                    if kept[i].kind == SectionKind::KappaMap {
                        SectionKind::Other
                    } else {
                        kept[i].kind
                    }) && p[i].body == (if kept[i].kind == SectionKind::Constants {
                        constants
                    } else if kept[i].kind == SectionKind::KappaMap {
                        beside_map->0
                    } else {
                        archive.subrange(kept[i].offset as int, kept[i].offset + kept[i].length)
                    })
            } else {
                r == Err::<Seq<PayloadV>, AssembleError>(AssembleError::SectionRange)
            }
        }),
{
    let rule = RewriteV::Page { constants, beside_map };
    let keeps = |s: SectionRef|
        s.kind == SectionKind::Constants || s.kind == SectionKind::Other || (s.kind
            == SectionKind::KappaMap && beside_map is Some);
    lemma_payloads(archive, sections, rule, keeps);
    if forall|i: int|
        0 <= i < sections.len() ==> (#[trigger] sections[i]).offset + sections[i].length
            <= archive.len() {
        assert forall|i: int| 0 <= i < sections.len() implies section_inside(
            archive,
            #[trigger] sections[i],
        ) by {}
        let p = payloads_of(archive, sections, rule)->Ok_0;
        let kept = sections.filter(keeps);
        assert forall|i: int| 0 <= i < kept.len() implies (#[trigger] p[i]).tag == kept[i].tag
            && p[i].kind == (if kept[i].kind == SectionKind::KappaMap {
            SectionKind::Other
        } else {
            kept[i].kind
        }) && p[i].body == (if kept[i].kind == SectionKind::Constants {
            constants
        } else if kept[i].kind == SectionKind::KappaMap {
            beside_map->0
        } else {
            archive.subrange(kept[i].offset as int, kept[i].offset + kept[i].length)
        }) by {
            assert(p[i].tag == kept[i].tag);
            assert(p[i].kind == kind_after(rule, kept[i].kind));
            sections.lemma_filter_pred(keeps, i);
        }
    } else if payloads_of(archive, sections, rule) is Ok {
        assert forall|i: int| 0 <= i < sections.len() implies (#[trigger] sections[i]).offset
            + sections[i].length <= archive.len() by {
            assert(section_inside(archive, sections[i]));
        }
    }
}

/// Canonicalizing keeps every section in its place, under its kind and tag, and every
/// section that holds no weights byte for byte; a weights section holds the same
/// weights as before.
pub proof fn law_canonicalizing_changes_only_the_weights(
    archive: Seq<u8>,
    sections: Seq<SectionRef>,
)
    requires
        payloads_of(archive, sections, RewriteV::Canonicalize) is Ok,
    ensures
        ({
            let p = payloads_of(archive, sections, RewriteV::Canonicalize)->Ok_0;
            &&& p.len() == sections.len()
            &&& forall|i: int|
                0 <= i < sections.len() ==> {
                    let s = #[trigger] sections[i];
                    let body = archive.subrange(s.offset as int, s.offset + s.length);
                    &&& s.offset + s.length <= archive.len()
                    &&& p[i].kind == s.kind
                    &&& p[i].tag == s.tag
                    &&& s.kind != SectionKind::Weights ==> p[i].body == body
                    &&& s.kind == SectionKind::Weights ==> (crate::weights::section_weights(
                        body,
                    ) matches Ok(before) && crate::weights::section_weights(
                        p[i].body,
                    ) matches Ok(after) && before.to_multiset() == after.to_multiset())
                }
        }),
    decreases sections.len(),
{
    let rule = RewriteV::Canonicalize;
    if sections.len() > 0 {
        let s = sections[0];
        let tail = sections.skip(1);
        law_canonicalizing_changes_only_the_weights(archive, tail);
        let p = payloads_of(archive, sections, rule)->Ok_0;
        let more = payloads_of(archive, tail, rule)->Ok_0;
        let first = bytes_of_section(archive, s);
        if s.kind == SectionKind::Weights {
            crate::weights::law_canonical_section_keeps_weights(first);
            crate::weights::law_sorting_orders_and_permutes(
                crate::weights::section_weights(first)->Ok_0,
            );
        }
        assert forall|i: int| 0 <= i < sections.len() implies {
            let s = #[trigger] sections[i];
            let body = archive.subrange(s.offset as int, s.offset + s.length);
            &&& s.offset + s.length <= archive.len()
            &&& p[i].kind == s.kind
            &&& p[i].tag == s.tag
            &&& s.kind != SectionKind::Weights ==> p[i].body == body
            &&& s.kind == SectionKind::Weights ==> (crate::weights::section_weights(
                body,
            ) matches Ok(before) && crate::weights::section_weights(p[i].body) matches Ok(after)
                && before.to_multiset() == after.to_multiset())
        } by {
            if i > 0 {
                assert(tail[i - 1] == sections[i]);
                assert(p[i] == more[i - 1]);
            }
        }
    }
}

/// An emitted archive is on the wire as its format says: the magic bytes, the version,
/// two zero bytes and the number of sections in front; one entry of 24 bytes a section,
/// its tag, seven zero bytes, its offset and its length; at that offset the very body;
/// and at the end the digest of all that stands before it.
pub proof fn law_an_emitted_archive_is_laid_out(format: Format, payloads: Seq<PayloadV>)
    requires
        emitted(format, payloads).len() <= u64::MAX,
    ensures
        ({
            let a = emitted(format, payloads);
            &&& a.take(4) == format.magic@
            &&& crate::bytes::le_value(a.subrange(4, 6)) == format.version
            &&& a[6] == 0 && a[7] == 0
            &&& crate::bytes::le_value(a.subrange(8, 10)) == payloads.len() % 0x1_0000
            &&& forall|i: int|
                0 <= i < payloads.len() ==> {
                    let p = #[trigger] payloads[i];
                    let at = 10 + 24 * i;
                    let offset = crate::bytes::le_value(a.subrange(at + 8, at + 16));
                    &&& a[at] == p.tag
                    &&& a.subrange(at + 1, at + 8) == Seq::new(7, |k: int| 0u8)
                    &&& crate::bytes::le_value(a.subrange(at + 16, at + 24)) == p.body.len()
                    &&& offset + p.body.len() <= a.len() - 32
                    &&& a.subrange(offset as int, (offset + p.body.len()) as int) == p.body
                }
            &&& a.skip(a.len() - 32) == crate::kappa::blake3_digest(a.take(a.len() - 32))@
        }),
{
    let a = emitted(format, payloads);
    let start = first_offset(payloads);
    let head = header(format, payloads.len());
    lemma_layout_sizes(format, payloads, start);
    crate::bytes::lemma_le_limits();
    crate::bytes::lemma_le_bytes_len(format.version as nat, 2);
    crate::bytes::lemma_le_bytes_len(0, 2);
    crate::bytes::lemma_le_bytes_len(payloads.len(), 2);
    crate::bytes::lemma_le_round_trip(format.version as nat, 2);
    lemma_le_bytes_low(payloads.len(), 2);
    crate::bytes::lemma_le_round_trip(payloads.len() % 0x1_0000, 2);
    lemma_zero_bytes(2);
    assert(a.take(4) =~= format.magic@);
    assert(a.subrange(4, 6) =~= crate::bytes::le_bytes(format.version as nat, 2));
    assert(a.subrange(6, 8) =~= crate::bytes::le_bytes(0, 2));
    assert(a[6] == a.subrange(6, 8)[0] && a[7] == a.subrange(6, 8)[1]);
    assert(a.subrange(8, 10) =~= crate::bytes::le_bytes(payloads.len(), 2));
    assert(a.take(a.len() - 32) =~= unsealed(format, payloads));
    assert(a.skip(a.len() - 32) =~= crate::kappa::blake3_digest(unsealed(format, payloads))@);
    assert forall|i: int| 0 <= i < payloads.len() implies {
        let p = #[trigger] payloads[i];
        let at = 10 + 24 * i;
        let offset = crate::bytes::le_value(a.subrange(at + 8, at + 16));
        &&& a[at] == p.tag
        &&& a.subrange(at + 1, at + 8) == Seq::new(7, |k: int| 0u8)
        &&& crate::bytes::le_value(a.subrange(at + 16, at + 24)) == p.body.len()
        &&& offset + p.body.len() <= a.len() - 32
        &&& a.subrange(offset as int, (offset + p.body.len()) as int) == p.body
    } by {
        let at = 10 + 24 * i;
        law_emitted_table_is_on_the_wire(format, payloads, i);
        lemma_body_place(payloads, start, i);
        let all = bodies(payloads);
        let e = table(payloads, start).subrange(24 * i, 24 * i + 24);
        assert(a.subrange(at, at + 24) =~= e);
        assert(a.subrange(at + 1, at + 8) =~= e.subrange(1, 8));
        let from = written_sections(payloads)[i].offset as int;
        let k = from - start;
        let n = payloads[i].body.len() as int;
        assert(a.subrange(from, from + n) =~= all.subrange(k, k + n));
    }
}

/// Where the `i`th body stands among the bodies, and what fills its table entry.
proof fn lemma_body_place(payloads: Seq<PayloadV>, offset: nat, i: int)
    requires
        0 <= i < payloads.len(),
        offset + bodies(payloads).len() <= u64::MAX,
    ensures
        table(payloads, offset).len() == 24 * payloads.len(),
        ({
            let s = written_from(payloads, offset)[i];
            let n = payloads[i].body.len();
            let k = s.offset - offset;
            &&& s.length == n
            &&& s.tag == payloads[i].tag
            &&& 0 <= k
            &&& k + n <= bodies(payloads).len()
            &&& bodies(payloads).subrange(k, k + n) == payloads[i].body
            &&& table(payloads, offset).subrange(24 * i, 24 * i + 24).subrange(1, 8) == Seq::new(
                7,
                |k: int| 0u8,
            )
        }),
    decreases payloads.len(),
{
    let p = payloads[0];
    let rest = payloads.skip(1);
    let next = offset + p.body.len();
    let all = bodies(payloads);
    crate::bytes::lemma_le_bytes_len(offset, 8);
    crate::bytes::lemma_le_bytes_len(p.body.len(), 8);
    lemma_layout_sizes(Format { magic: [0, 0, 0, 0], version: 0 }, rest, next);
    lemma_written_len(rest, next);
    assert(all == p.body + bodies(rest));
    let t = table(payloads, offset);
    if i == 0 {
        assert(all.subrange(0, p.body.len() as int) =~= p.body);
        assert(t.subrange(0, 24) =~= table_entry(p, offset));
        assert(t.subrange(0, 24).subrange(1, 8) =~= Seq::new(7, |k: int| 0u8));
    } else {
        lemma_body_place(rest, next, i - 1);
        assert(rest[i - 1] == payloads[i]);
        assert(written_from(payloads, offset)[i] == written_from(rest, next)[i - 1]);
        let s = written_from(payloads, offset)[i];
        let k = s.offset - offset;
        let n = payloads[i].body.len() as int;
        let inner = k - p.body.len();
        assert(all.subrange(k, k + n) =~= bodies(rest).subrange(inner, inner + n));
        assert(t.subrange(24 * i, 24 * i + 24) =~= table(rest, next).subrange(
            24 * (i - 1),
            24 * (i - 1) + 24,
        ));
    }
}

proof fn lemma_written_offsets(payloads: Seq<PayloadV>, offset: nat, i: int)
    requires
        0 <= i < payloads.len(),
        offset + bodies(payloads).len() <= u64::MAX,
    ensures
        ({
            let s = written_from(payloads, offset);
            &&& s.len() == payloads.len()
            &&& s[0].offset == offset
            &&& i + 1 < payloads.len() ==> s[i + 1].offset == s[i].offset + payloads[i].body.len()
            &&& i + 1 == payloads.len() ==> s[i].offset + payloads[i].body.len() == offset + bodies(
                payloads,
            ).len()
        }),
    decreases payloads.len(),
{
    let rest = payloads.skip(1);
    let next = offset + payloads[0].body.len();
    lemma_written_len(rest, next);
    assert(bodies(payloads) == payloads[0].body + bodies(rest));
    if rest.len() == 0 {
        assert(bodies(rest).len() == 0);
        assert(written_from(payloads, offset)[0].offset == offset);
    } else {
        lemma_written_offsets(
            rest,
            next,
            if i > 0 {
                i - 1
            } else {
                0
            },
        );
        if i > 0 {
            assert(rest[i - 1] == payloads[i]);
            assert(written_from(payloads, offset)[i] == written_from(rest, next)[i - 1]);
        }
        if i + 1 < payloads.len() {
            assert(written_from(payloads, offset)[i + 1] == written_from(rest, next)[i]);
        }
    }
}

/// The bodies of an emitted archive stand without a gap: the first directly behind the
/// table, each next one behind the one before it, and the digest behind the last.
pub proof fn law_emitted_bodies_stand_without_a_gap(format: Format, payloads: Seq<PayloadV>, i: int)
    requires
        emitted(format, payloads).len() <= u64::MAX,
        0 <= i < payloads.len(),
    ensures
        ({
            let a = emitted(format, payloads);
            let n = payloads.len() as int;
            let at = 10 + 24 * i;
            let offset = crate::bytes::le_value(a.subrange(at + 8, at + 16));
            &&& i == 0 ==> offset == 10 + 24 * n
            &&& i + 1 < n ==> crate::bytes::le_value(a.subrange(at + 32, at + 40)) == offset
                + payloads[i].body.len()
            &&& i + 1 == n ==> a.len() == offset + payloads[i].body.len() + 32
        }),
{
    let start = first_offset(payloads);
    lemma_layout_sizes(format, payloads, start);
    law_emitted_table_is_on_the_wire(format, payloads, i);
    lemma_written_offsets(payloads, start, i);
    if i + 1 < payloads.len() {
        law_emitted_table_is_on_the_wire(format, payloads, i + 1);
    }
}

/// What is wrong with a section that is to be canonicalized: that it lies outside the
/// archive, or that it holds weights which break off, with the place where they do.
pub open spec fn canonical_fault(archive: Seq<u8>, s: SectionRef) -> Option<AssembleError> {
    if !section_inside(archive, s) {
        Some(AssembleError::SectionRange)
    } else if s.kind != SectionKind::Weights {
        None
    } else {
        match crate::weights::section_weights(bytes_of_section(archive, s)) {
            Ok(_) => None,
            Err(fault) => Some(AssembleError::Weights(fault)),
        }
    }
}

/// Canonicalizing succeeds exactly where nothing is wrong with any section; else it is
/// refused for what is wrong with the first.
pub proof fn law_what_canonicalizing_is_refused_for(archive: Seq<u8>, sections: Seq<SectionRef>)
    ensures
        match payloads_of(archive, sections, RewriteV::Canonicalize) {
            Ok(_) => forall|k: int|
                0 <= k < sections.len() ==> canonical_fault(archive, #[trigger] sections[k]) is None,
            Err(e) => exists|i: int|
                0 <= i < sections.len() && canonical_fault(archive, #[trigger] sections[i]) == Some(
                    e,
                ) && forall|k: int|
                    0 <= k < i ==> canonical_fault(archive, #[trigger] sections[k]) is None,
        },
    decreases sections.len(),
{
    let rule = RewriteV::Canonicalize;
    if sections.len() > 0 {
        let s = sections[0];
        assert(match section_payload(archive, s, rule) {
            Ok(_) => canonical_fault(archive, s) is None,
            Err(e) => canonical_fault(archive, s) == Some(e),
        });
        if section_payload(archive, s, rule) is Ok {
            let tail = sections.skip(1);
            law_what_canonicalizing_is_refused_for(archive, tail);
            match payloads_of(archive, tail, rule) {
                Ok(_) => {
                    assert forall|k: int| 0 <= k < sections.len() implies canonical_fault(
                        archive,
                        #[trigger] sections[k],
                    ) is None by {
                        if k > 0 {
                            assert(tail[k - 1] == sections[k]);
                        }
                    }
                },
                Err(e) => {
                    let i = choose|i: int|
                        0 <= i < tail.len() && canonical_fault(archive, #[trigger] tail[i]) == Some(
                            e,
                        ) && forall|k: int|
                            0 <= k < i ==> canonical_fault(archive, #[trigger] tail[k]) is None;
                    assert(sections[i + 1] == tail[i]);
                    assert forall|k: int| 0 <= k < i + 1 implies canonical_fault(
                        archive,
                        #[trigger] sections[k],
                    ) is None by {
                        if k > 0 {
                            assert(tail[k - 1] == sections[k]);
                        }
                    }
                },
            }
        }
    }
}

/// A materialized archive holds on the wire what it should: as many sections as were
/// kept, each under its tag, the constants as they were given and every other section
/// as the source archive holds it.
pub proof fn law_a_materialized_archive_is_on_the_wire(
    archive: Seq<u8>,
    format: Format,
    sections: Seq<SectionRef>,
    constants: Seq<u8>,
    a: Seq<u8>,
)
    requires
        reassembled(archive, format, sections, RewriteV::Materialize { constants }) == Ok::<
            Seq<u8>,
            AssembleError,
        >(a),
        a.len() <= u64::MAX,
    ensures
        ({
            let kept = sections.filter(|s: SectionRef| s.kind != SectionKind::WarmStart);
            &&& a.take(4) == format.magic@
            &&& crate::bytes::le_value(a.subrange(4, 6)) == format.version
            &&& crate::bytes::le_value(a.subrange(8, 10)) == kept.len() % 0x1_0000
            &&& forall|i: int|
                0 <= i < kept.len() ==> {
                    let s = #[trigger] kept[i];
                    let at = 10 + 24 * i;
                    let from = crate::bytes::le_value(a.subrange(at + 8, at + 16)) as int;
                    let len = crate::bytes::le_value(a.subrange(at + 16, at + 24)) as int;
                    &&& a[at] == s.tag
                    &&& a.subrange(from, from + len) == (if s.kind == SectionKind::Constants {
                        constants
                    } else {
                        archive.subrange(s.offset as int, s.offset + s.length)
                    })
                }
            &&& a.skip(a.len() - 32) == crate::kappa::blake3_digest(a.take(a.len() - 32))@
        }),
{
    let rule = RewriteV::Materialize { constants };
    let p = payloads_of(archive, sections, rule)->Ok_0;
    let keeps = |s: SectionRef| s.kind != SectionKind::WarmStart;
    let kept = sections.filter(keeps);
    law_materializing_changes_only_the_constants(archive, sections, constants);
    law_an_emitted_archive_is_laid_out(format, p);
    assert(p.len() == kept.len());
    assert forall|i: int| 0 <= i < kept.len() implies {
        let s = #[trigger] kept[i];
        let at = 10 + 24 * i;
        let from = crate::bytes::le_value(a.subrange(at + 8, at + 16)) as int;
        let len = crate::bytes::le_value(a.subrange(at + 16, at + 24)) as int;
        &&& a[at] == s.tag
        &&& a.subrange(from, from + len) == (if s.kind == SectionKind::Constants {
            constants
        } else {
            archive.subrange(s.offset as int, s.offset + s.length)
        })
    } by {
        assert(p[i].kind == kept[i].kind);
    }
}

/// An archive is assembled from what its sections come to, and fails as they do.
pub proof fn law_an_archive_is_assembled_from_its_sections(
    archive: Seq<u8>,
    format: Format,
    sections: Seq<SectionRef>,
    rule: RewriteV,
)
    ensures
        ({
            let made = reassembled(archive, format, sections, rule);
            &&& payloads_of(archive, sections, rule) matches Err(e) ==> made == Err::<
                Seq<u8>,
                AssembleError,
            >(e)
            &&& payloads_of(archive, sections, rule) matches Ok(p) ==> made == Ok::<
                Seq<u8>,
                AssembleError,
            >(emitted(format, p))
        }),
{
}

/// A rewrite is modelled by all that it states.
pub proof fn law_rewrites_are_modelled_whole(rule: Rewrite)
    ensures
        match rule {
            Rewrite::Materialize { constants } => rule@ == (RewriteV::Materialize {
                constants: constants@,
            }),
            Rewrite::Page { constants, beside_map: Some(b) } => rule@ == (RewriteV::Page {
                constants: constants@,
                beside_map: Some(b@),
            }),
            Rewrite::Page { constants, beside_map: None } => rule@ == (RewriteV::Page {
                constants: constants@,
                beside_map: None,
            }),
            Rewrite::Canonicalize => rule@ is Canonicalize,
        },
{
}

} // verus!
