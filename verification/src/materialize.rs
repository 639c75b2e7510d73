//! κ-materialization: an archive whose weight constants are placeholders
//! becomes an executable one.
//!
//! Every binding of the κ-map is resolved against a store, the content is
//! verified to hash back to its label, and the placeholder is filled. A missing
//! or corrupt κ aborts with its label; there is no fallback.

use crate::bytes::slice_range;
use crate::kappa::kappa_of;
use crate::kappa_map::{KappaRequirement, RequirementV};
use crate::store::{JournaledStore, KappaStore, StoreError, StoreEvent, VerifiedSet};
use crate::text::same_text;
use vstd::prelude::*;

verus! {

/// One entry of the constants section.
pub struct ConstantEntry {
    pub slot: u32,
    pub bytes: Vec<u8>,
    /// Whether the entry refers to a weight by its fingerprint.
    pub by_reference: bool,
    pub fingerprint: [u8; 32],
}

/// The model of a [`ConstantEntry`].
#[verifier::ext_equal]
pub struct EntryV {
    pub slot: u32,
    pub bytes: Seq<u8>,
    pub by_reference: bool,
    pub fingerprint: Seq<u8>,
}

impl View for ConstantEntry {
    type V = EntryV;

    open spec fn view(&self) -> EntryV {
        EntryV {
            slot: self.slot,
            bytes: self.bytes@,
            by_reference: self.by_reference,
            fingerprint: self.fingerprint@,
        }
    }
}

/// The models of some entries.
pub open spec fn entry_views(entries: Seq<ConstantEntry>) -> Seq<EntryV> {
    entries.map_values(|e: ConstantEntry| e@)
}

/// Why a constant could not be filled.
#[derive(Debug)]
pub enum PatchError {
    /// The constants section is empty.
    Empty,
    /// The κ-map names a constant behind the last entry.
    MissingEntry { constant: u32 },
    /// The entry of a constant is not in the slot that its id asks for.
    Drift { constant: u32, slot: u32 },
    /// The constant refers to the weight pool; placeholders are inline.
    Reference { constant: u32 },
    /// The constant already holds content, which is not overwritten.
    Material { constant: u32, size: usize },
    /// The store did not give the content.
    Resolve { kappa: String, cause: StoreError },
    /// The store did not give the range of a verified content.
    ResolveRange { kappa: String, offset: u64, len: u64, cause: StoreError },
    /// The content hashes to another label, and so does what a deeper tier
    /// gave, if it gave any.
    Integrity { constant: u32, derived: String, kappa: String },
    /// The range lies outside the content, which has `size` bytes.
    Range { constant: u32, offset: u64, len: u64, size: usize, kappa: String },
}

/// The model of a [`PatchError`].
pub enum PatchErrorV {
    Empty,
    MissingEntry { constant: u32 },
    Drift { constant: u32, slot: u32 },
    Reference { constant: u32 },
    Material { constant: u32, size: nat },
    Resolve { kappa: Seq<char>, cause: StoreError },
    ResolveRange { kappa: Seq<char>, offset: u64, len: u64, cause: StoreError },
    Integrity { constant: u32, derived: Seq<char>, kappa: Seq<char> },
    Range { constant: u32, offset: u64, len: u64, size: nat, kappa: Seq<char> },
}

impl View for PatchError {
    type V = PatchErrorV;

    open spec fn view(&self) -> PatchErrorV {
        match self {
            PatchError::Empty => PatchErrorV::Empty,
            PatchError::MissingEntry { constant } => PatchErrorV::MissingEntry {
                constant: *constant,
            },
            PatchError::Drift { constant, slot } => PatchErrorV::Drift {
                constant: *constant,
                slot: *slot,
            },
            PatchError::Reference { constant } => PatchErrorV::Reference { constant: *constant },
            PatchError::Material { constant, size } => PatchErrorV::Material {
                constant: *constant,
                size: *size as nat,
            },
            PatchError::Resolve { kappa, cause } => PatchErrorV::Resolve {
                kappa: kappa@,
                cause: *cause,
            },
            PatchError::ResolveRange { kappa, offset, len, cause } => PatchErrorV::ResolveRange {
                kappa: kappa@,
                offset: *offset,
                len: *len,
                cause: *cause,
            },
            PatchError::Integrity { constant, derived, kappa } => PatchErrorV::Integrity {
                constant: *constant,
                derived: derived@,
                kappa: kappa@,
            },
            PatchError::Range { constant, offset, len, size, kappa } => PatchErrorV::Range {
                constant: *constant,
                offset: *offset,
                len: *len,
                size: *size as nat,
                kappa: kappa@,
            },
        }
    }
}

/// What patching works on: the entries, and the labels that the session has
/// verified.
#[verifier::ext_equal]
pub struct PatchState {
    pub entries: Seq<EntryV>,
    pub verified: Set<Seq<char>>,
}

/// What patching did: the state that it left, how it ended, and the requests
/// that it made of the store.
#[verifier::ext_equal]
pub struct PatchRun {
    pub state: PatchState,
    pub outcome: Result<(), PatchErrorV>,
    pub events: Seq<StoreEvent>,
}

/// A run that ended in an error.
pub open spec fn stopped(state: PatchState, error: PatchErrorV, events: Seq<StoreEvent>) -> PatchRun {
    PatchRun { state, outcome: Err(error), events }
}

/// A run that put `bytes` into the entry of a constant.
pub open spec fn filled(
    state: PatchState,
    constant: u32,
    bytes: Seq<u8>,
    events: Seq<StoreEvent>,
) -> PatchRun {
    let entry = EntryV { bytes, ..state.entries[constant as int] };
    PatchRun {
        state: PatchState {
            entries: state.entries.update(constant as int, entry),
            verified: state.verified,
        },
        outcome: Ok(()),
        events,
    }
}

/// Bind verified content to a constant: the whole of it, or the range that the
/// binding names.
pub open spec fn bind_content(
    state: PatchState,
    req: RequirementV,
    content: Seq<u8>,
    events: Seq<StoreEvent>,
) -> PatchRun {
    match req.range {
        None => filled(state, req.constant, content, events),
        Some((offset, len)) => match crate::bytes::byte_range(content, offset, len) {
            Some(bytes) => filled(state, req.constant, bytes, events),
            None => stopped(
                state,
                PatchErrorV::Range {
                    constant: req.constant,
                    offset,
                    len,
                    size: content.len(),
                    kappa: req.kappa,
                },
                events,
            ),
        },
    }
}

/// The session with one more verified label.
pub open spec fn with_verified(state: PatchState, kappa: Seq<char>) -> PatchState {
    PatchState { entries: state.entries, verified: state.verified.insert(kappa) }
}

/// Fetch the content of a binding, verify it where the session has not done so,
/// and bind it.
///
/// `oracle` holds the events from which the replies of the store are taken.
/// Content that does not hash to its label is unpinned: the store is told to
/// evict it and is asked once more, and only content that hashes right is bound.
pub open spec fn fetch_and_bind(
    state: PatchState,
    req: RequirementV,
    oracle: Seq<StoreEvent>,
) -> PatchRun {
    let first = crate::store::resolved(oracle[0]);
    let asked = seq![StoreEvent::Resolve { kappa: req.kappa, reply: first }];
    match first {
        Err(cause) => stopped(state, PatchErrorV::Resolve { kappa: req.kappa, cause }, asked),
        Ok(content) => if state.verified.contains(req.kappa) {
            bind_content(state, req, content, asked)
        } else if crate::kappa::kappa_label(content) == req.kappa {
            bind_content(with_verified(state, req.kappa), req, content, asked)
        } else {
            let second = crate::store::resolved(oracle[2]);
            let retried = asked + seq![
                StoreEvent::Invalidate { kappa: req.kappa },
                StoreEvent::Resolve { kappa: req.kappa, reply: second },
            ];
            if second is Ok && crate::kappa::kappa_label(second->Ok_0) == req.kappa {
                bind_content(with_verified(state, req.kappa), req, second->Ok_0, retried)
            } else {
                stopped(
                    state,
                    PatchErrorV::Integrity {
                        constant: req.constant,
                        derived: crate::kappa::kappa_label(content),
                        kappa: req.kappa,
                    },
                    retried,
                )
            }
        },
    }
}

/// Fill the constant of one binding.
///
/// A ranged binding of a label that the session has verified moves only its
/// slice. Every other binding must find an empty inline placeholder in the slot
/// that its id asks for.
pub open spec fn patch_one(
    state: PatchState,
    base_slot: u32,
    req: RequirementV,
    oracle: Seq<StoreEvent>,
) -> PatchRun {
    let nothing = Seq::<StoreEvent>::empty();
    let c = req.constant;
    if c >= state.entries.len() {
        stopped(state, PatchErrorV::MissingEntry { constant: c }, nothing)
    } else if req.range is Some && state.verified.contains(req.kappa) {
        let (offset, len) = req.range->0;
        let reply = crate::store::resolved_range(oracle[0]);
        let asked = seq![StoreEvent::ResolveRange { kappa: req.kappa, offset, len, reply }];
        match reply {
            Err(cause) => stopped(
                state,
                PatchErrorV::ResolveRange { kappa: req.kappa, offset, len, cause },
                asked,
            ),
            Ok(bytes) => filled(state, c, bytes, asked),
        }
    } else {
        let entry = state.entries[c as int];
        if entry.slot != base_slot + c {
            stopped(state, PatchErrorV::Drift { constant: c, slot: entry.slot }, nothing)
        } else if entry.by_reference {
            stopped(state, PatchErrorV::Reference { constant: c }, nothing)
        } else if entry.bytes.len() > 0 {
            stopped(state, PatchErrorV::Material { constant: c, size: entry.bytes.len() }, nothing)
        } else {
            fetch_and_bind(state, req, oracle)
        }
    }
}

/// Fill the constants of a list of bindings in their order, up to the first
/// that fails.
pub open spec fn patch_run(
    state: PatchState,
    base_slot: u32,
    reqs: Seq<RequirementV>,
    oracle: Seq<StoreEvent>,
) -> PatchRun
    decreases reqs.len(),
{
    if reqs.len() == 0 {
        PatchRun { state, outcome: Ok(()), events: Seq::empty() }
    } else {
        let front = patch_run(state, base_slot, reqs.drop_last(), oracle);
        if front.outcome is Err {
            front
        } else {
            let step = patch_one(
                front.state,
                base_slot,
                reqs.last(),
                oracle.skip(front.events.len() as int),
            );
            PatchRun { events: front.events + step.events, ..step }
        }
    }
}

/// Fill the constants of a list of bindings. The slots are anchored on the
/// first entry.
pub open spec fn patched(
    state: PatchState,
    reqs: Seq<RequirementV>,
    oracle: Seq<StoreEvent>,
) -> PatchRun {
    if state.entries.len() == 0 {
        stopped(state, PatchErrorV::Empty, Seq::empty())
    } else {
        patch_run(state, state.entries[0].slot, reqs, oracle)
    }
}

proof fn lemma_patch_one_local(
    state: PatchState,
    base_slot: u32,
    req: RequirementV,
    a: Seq<StoreEvent>,
    b: Seq<StoreEvent>,
)
    requires
        forall|k: int|
            0 <= k < patch_one(state, base_slot, req, a).events.len() ==> a[k] == b[k],
    ensures
        patch_one(state, base_slot, req, a) == patch_one(state, base_slot, req, b),
{
    let run = patch_one(state, base_slot, req, a);
    if run.events.len() > 0 {
        assert(a[0] == b[0]);
    }
    if run.events.len() > 2 {
        assert(a[2] == b[2]);
    }
}

proof fn lemma_patch_run_local(
    state: PatchState,
    base_slot: u32,
    reqs: Seq<RequirementV>,
    a: Seq<StoreEvent>,
    b: Seq<StoreEvent>,
)
    requires
        patch_run(state, base_slot, reqs, a).events.len() <= a.len(),
        patch_run(state, base_slot, reqs, a).events.len() <= b.len(),
        forall|k: int|
            0 <= k < patch_run(state, base_slot, reqs, a).events.len() ==> a[k] == b[k],
    ensures
        patch_run(state, base_slot, reqs, a) == patch_run(state, base_slot, reqs, b),
    decreases reqs.len(),
{
    if reqs.len() > 0 {
        let front = patch_run(state, base_slot, reqs.drop_last(), a);
        lemma_patch_run_local(state, base_slot, reqs.drop_last(), a, b);
        if front.outcome is Ok {
            let n = front.events.len() as int;
            let step = patch_one(front.state, base_slot, reqs.last(), a.skip(n));
            assert forall|k: int| 0 <= k < step.events.len() implies a.skip(n)[k] == b.skip(
                n,
            )[k] by {
                assert(a[n + k] == b[n + k]);
            }
            lemma_patch_one_local(front.state, base_slot, reqs.last(), a.skip(n), b.skip(n));
        }
    }
}

/// Patching looks at no reply behind those that it asked for.
pub proof fn lemma_patched_local(
    state: PatchState,
    reqs: Seq<RequirementV>,
    a: Seq<StoreEvent>,
    b: Seq<StoreEvent>,
)
    requires
        patched(state, reqs, a).events.len() <= a.len(),
        patched(state, reqs, a).events.len() <= b.len(),
        forall|k: int| 0 <= k < patched(state, reqs, a).events.len() ==> a[k] == b[k],
    ensures
        patched(state, reqs, a) == patched(state, reqs, b),
{
    if state.entries.len() > 0 {
        lemma_patch_run_local(state, state.entries[0].slot, reqs, a, b);
    }
}

fn fill_entry(entries: &mut Vec<ConstantEntry>, idx: usize, bytes: Vec<u8>)
    requires
        idx < old(entries)@.len(),
    ensures
        entry_views(final(entries)@) == entry_views(old(entries)@).update(
            idx as int,
            EntryV { bytes: bytes@, ..entry_views(old(entries)@)[idx as int] },
        ),
{
    entries[idx].bytes = bytes;
    proof {
        assert(entry_views(entries@) =~= entry_views(old(entries)@).update(
            idx as int,
            EntryV { bytes: bytes@, ..entry_views(old(entries)@)[idx as int] },
        ));
    }
}

/// The state that a caller's entries and session make up.
pub open spec fn patch_state(entries: Seq<ConstantEntry>, verified: Set<Seq<char>>) -> PatchState {
    PatchState { entries: entry_views(entries), verified }
}

/// The model of a result.
pub open spec fn outcome_view(r: Result<(), PatchError>) -> Result<(), PatchErrorV> {
    match r {
        Ok(()) => Ok(()),
        Err(e) => Err(e@),
    }
}

/// Bind verified content to the constant of `req`.
fn bind_bytes(
    entries: &mut Vec<ConstantEntry>,
    req: &KappaRequirement,
    content: Vec<u8>,
    Ghost(verified): Ghost<Set<Seq<char>>>,
    Ghost(events): Ghost<Seq<StoreEvent>>,
) -> (r: Result<(), PatchError>)
    requires
        req.constant < old(entries)@.len(),
    ensures
        ({
            let run = bind_content(patch_state(old(entries)@, verified), req@, content@, events);
            run == (PatchRun {
                state: patch_state(final(entries)@, verified),
                outcome: outcome_view(r),
                events,
            })
        }),
{
    let idx: usize = req.constant as usize;
    match req.range {
        None => {
            fill_entry(entries, idx, content);
            Ok(())
        },
        Some((offset, len)) => match slice_range(content.as_slice(), offset, len) {
            Some(bytes) => {
                fill_entry(entries, idx, bytes);
                Ok(())
            },
            None => Err(
                PatchError::Range {
                    constant: req.constant,
                    offset,
                    len,
                    size: content.len(),
                    kappa: req.kappa.clone(),
                },
            ),
        },
    }
}

/// Fetch, verify and bind the content of one binding.
fn fetch_bytes<S: KappaStore>(
    entries: &mut Vec<ConstantEntry>,
    req: &KappaRequirement,
    store: &mut JournaledStore<S>,
    verified: &mut VerifiedSet,
) -> (r: Result<(), PatchError>)
    requires
        req.constant < old(entries)@.len(),
    ensures
        ({
            let t = crate::store::gained(old(store)@, final(store)@);
            &&& final(store)@ == old(store)@ + t
            &&& fetch_and_bind(patch_state(old(entries)@, old(verified)@), req@, t) == (PatchRun {
                state: patch_state(final(entries)@, final(verified)@),
                outcome: outcome_view(r),
                events: t,
            })
        }),
        exists|states: Seq<S>, calls: Seq<&mut S>| #[trigger]
            crate::store::calls_of(
                old(store).inner(),
                states,
                calls,
                crate::store::gained(old(store)@, final(store)@),
                final(store).inner(),
            ) && forall|i: int|
                0 <= i < calls.len() ==> *final(#[trigger] calls[i]) == states[i + 1],
{
    let ghost journal = store@;
    let ghost begun = *store;
    let kappa = req.kappa.as_str();
    let first = store.resolve(kappa);
    let ghost e0 = StoreEvent::Resolve { kappa: kappa@, reply: crate::store::reply_view(first) };
    let ghost one = seq![e0];
    proof {
        assert(crate::store::gained(journal, store@) =~= seq![e0]);
        assert(store@ =~= journal + seq![e0]);
    }
    let content = match first {
        Ok(content) => content,
        Err(cause) => {
            return Err(PatchError::Resolve { kappa: req.kappa.clone(), cause });
        },
    };
    if verified.contains(kappa) {
        return bind_bytes(entries, req, content, Ghost(verified@), Ghost(one));
    }
    let derived = kappa_of(content.as_slice());
    if same_text(derived.as_str(), kappa) {
        verified.insert(kappa);
        return bind_bytes(entries, req, content, Ghost(verified@), Ghost(one));
    }
    let ghost resolved = *store;
    store.invalidate(kappa);
    let ghost evicted = *store;
    let second = store.resolve(kappa);
    let ghost e1 = StoreEvent::Invalidate { kappa: kappa@ };
    let ghost e2 = StoreEvent::Resolve { kappa: kappa@, reply: crate::store::reply_view(second) };
    let ghost t = seq![e0, e1, e2];
    proof {
        assert(crate::store::gained(journal, store@) =~= t);
        assert(store@ =~= journal + t);
        assert(seq![e0] + seq![e1, e2] =~= t);
        assert(evicted@ =~= resolved@ + crate::store::gained(resolved@, evicted@));
        assert(store@ =~= evicted@ + crate::store::gained(evicted@, store@));
        crate::store::lemma_talk_join(begun, resolved, evicted);
        crate::store::lemma_talk_join(begun, evicted, *store);
    }
    if let Ok(recovered) = second {
        let again = kappa_of(recovered.as_slice());
        if same_text(again.as_str(), kappa) {
            verified.insert(kappa);
            return bind_bytes(entries, req, recovered, Ghost(verified@), Ghost(t));
        }
    }
    Err(PatchError::Integrity { constant: req.constant, derived, kappa: req.kappa.clone() })
}

/// Fill the constant of one binding.
fn patch_entry<S: KappaStore>(
    entries: &mut Vec<ConstantEntry>,
    base_slot: u32,
    req: &KappaRequirement,
    store: &mut JournaledStore<S>,
    verified: &mut VerifiedSet,
) -> (r: Result<(), PatchError>)
    ensures
        ({
            let t = crate::store::gained(old(store)@, final(store)@);
            &&& final(store)@ == old(store)@ + t
            &&& patch_one(patch_state(old(entries)@, old(verified)@), base_slot, req@, t) == (
            PatchRun {
                state: patch_state(final(entries)@, final(verified)@),
                outcome: outcome_view(r),
                events: t,
            })
        }),
        exists|states: Seq<S>, calls: Seq<&mut S>| #[trigger]
            crate::store::calls_of(
                old(store).inner(),
                states,
                calls,
                crate::store::gained(old(store)@, final(store)@),
                final(store).inner(),
            ) && forall|i: int|
                0 <= i < calls.len() ==> *final(#[trigger] calls[i]) == states[i + 1],
{
    let ghost journal = store@;
    proof {
        crate::store::lemma_talk_start(*store);
        assert(journal + Seq::empty() =~= journal);
    }
    let kappa = req.kappa.as_str();
    let idx: usize = req.constant as usize;
    if idx >= entries.len() {
        return Err(PatchError::MissingEntry { constant: req.constant });
    }
    if let Some((offset, len)) = req.range {
        if verified.contains(kappa) {
            let reply = store.resolve_range(kappa, offset, len);
            proof {
                let e0 = StoreEvent::ResolveRange {
                    kappa: kappa@,
                    offset,
                    len,
                    reply: crate::store::reply_view(reply),
                };
                assert(crate::store::gained(journal, store@) =~= seq![e0]);
                assert(store@ =~= journal + seq![e0]);
            }
            return match reply {
                Ok(bytes) => {
                    fill_entry(entries, idx, bytes);
                    Ok(())
                },
                Err(cause) => Err(
                    PatchError::ResolveRange { kappa: req.kappa.clone(), offset, len, cause },
                ),
            };
        }
    }
    let slot: u32 = entries[idx].slot;
    proof {
        assert(entry_views(entries@)[idx as int] == entries@[idx as int]@);
    }
    if slot as u64 != base_slot as u64 + req.constant as u64 {
        return Err(PatchError::Drift { constant: req.constant, slot });
    }
    if entries[idx].by_reference {
        return Err(PatchError::Reference { constant: req.constant });
    }
    let size: usize = entries[idx].bytes.len();
    if size > 0 {
        return Err(PatchError::Material { constant: req.constant, size });
    }
    fetch_bytes(entries, req, store, verified)
}

/// Resolve and verify every binding and write its content into its entry.
///
/// On an error the bindings before it have been filled, and the labels that
/// were verified on the way stay verified.
pub fn patch_constants<S: KappaStore>(
    entries: &mut Vec<ConstantEntry>,
    requirements: &Vec<KappaRequirement>,
    store: &mut JournaledStore<S>,
    verified: &mut VerifiedSet,
) -> (r: Result<(), PatchError>)
    ensures
        ({
            let t = crate::store::gained(old(store)@, final(store)@);
            &&& final(store)@ == old(store)@ + t
            &&& patched(
                patch_state(old(entries)@, old(verified)@),
                crate::kappa_map::requirement_views(requirements@),
                t,
            ) == (PatchRun {
                state: patch_state(final(entries)@, final(verified)@),
                outcome: outcome_view(r),
                events: t,
            })
        }),
        exists|states: Seq<S>, calls: Seq<&mut S>| #[trigger]
            crate::store::calls_of(
                old(store).inner(),
                states,
                calls,
                crate::store::gained(old(store)@, final(store)@),
                final(store).inner(),
            ) && forall|i: int|
                0 <= i < calls.len() ==> *final(#[trigger] calls[i]) == states[i + 1],
{
    let ghost journal = store@;
    let ghost start = patch_state(entries@, verified@);
    let ghost reqs = crate::kappa_map::requirement_views(requirements@);
    let ghost begun = *store;
    proof {
        crate::store::lemma_talk_start(*store);
        assert(journal + Seq::empty() =~= journal);
    }
    if entries.len() == 0 {
        return Err(PatchError::Empty);
    }
    let base_slot: u32 = entries[0].slot;
    let ghost mut t: Seq<StoreEvent> = Seq::empty();
    proof {
        assert(reqs.take(0) =~= Seq::empty());
        assert(start.entries[0] == entries@[0]@);
    }
    let mut i: usize = 0;
    while i < requirements.len()
        invariant
            i <= requirements@.len(),
            reqs == crate::kappa_map::requirement_views(requirements@),
            start.entries.len() > 0,
            start.entries[0].slot == base_slot,
            journal == old(store)@,
            start == patch_state(old(entries)@, old(verified)@),
            store@ == journal + t,
            patch_run(start, base_slot, reqs.take(i as int), t) == (PatchRun {
                state: patch_state(entries@, verified@),
                outcome: Ok(()),
                events: t,
            }),
            begun == *old(store),
            exists|states: Seq<S>, calls: Seq<&mut S>| #[trigger]
                crate::store::calls_of(
                    begun.inner(),
                    states,
                    calls,
                    crate::store::gained(begun@, store@),
                    store.inner(),
                ) && forall|i: int|
                    0 <= i < calls.len() ==> *final(#[trigger] calls[i]) == states[i + 1],
        decreases requirements@.len() - i,
    {
        let req = &requirements[i];
        let ghost before = store@;
        let ghost between = *store;
        let ghost state = patch_state(entries@, verified@);
        let r = patch_entry(entries, base_slot, req, store, verified);
        proof {
            let s = crate::store::gained(before, store@);
            let all = t + s;
            let step = patch_one(state, base_slot, req@, s);
            assert(reqs[i as int] == req@);
            assert(reqs.take(i + 1).drop_last() =~= reqs.take(i as int));
            assert(reqs.take(i + 1).last() == req@);
            lemma_patch_run_local(start, base_slot, reqs.take(i as int), t, all);
            assert(all.skip(t.len() as int) =~= s);
            assert(store@ =~= journal + all);
            assert(crate::store::gained(journal, store@) =~= all);
            assert(crate::store::gained(journal, before) =~= t);
            crate::store::lemma_talk_join(begun, between, *store);
            assert(patch_run(start, base_slot, reqs.take(i + 1), all) == (PatchRun {
                events: all,
                ..step
            }));
            t = all;
            if r is Err {
                lemma_patch_run_stops(start, base_slot, reqs, i + 1, t);
            }
        }
        if let Err(e) = r {
            return Err(e);
        }
        i += 1;
    }
    proof {
        assert(reqs.take(reqs.len() as int) =~= reqs);
        assert(crate::store::gained(journal, store@) =~= t);
    }
    Ok(())
}

proof fn lemma_patch_run_stops(
    state: PatchState,
    base_slot: u32,
    reqs: Seq<RequirementV>,
    n: int,
    oracle: Seq<StoreEvent>,
)
    requires
        0 <= n <= reqs.len(),
        patch_run(state, base_slot, reqs.take(n), oracle).outcome is Err,
    ensures
        patch_run(state, base_slot, reqs, oracle) == patch_run(
            state,
            base_slot,
            reqs.take(n),
            oracle,
        ),
    decreases reqs.len(),
{
    if n == reqs.len() {
        assert(reqs.take(n) =~= reqs);
    } else {
        assert(reqs.drop_last().take(n) =~= reqs.take(n));
        lemma_patch_run_stops(state, base_slot, reqs.drop_last(), n, oracle);
    }
}

/// The label that a request to the store names.
pub open spec fn asked_kappa(e: StoreEvent) -> Seq<char> {
    match e {
        StoreEvent::Resolve { kappa, .. } => kappa,
        StoreEvent::Invalidate { kappa } => kappa,
        StoreEvent::ResolveRange { kappa, .. } => kappa,
        StoreEvent::ContentSize { kappa, .. } => kappa,
    }
}

/// Whether some reply among `events` hashed to `kappa`.
pub open spec fn hashed_right(events: Seq<StoreEvent>, kappa: Seq<char>) -> bool {
    exists|i: int|
        0 <= i < events.len() && (#[trigger] events[i] matches StoreEvent::Resolve {
            kappa: k,
            reply: Ok(b),
        } && k == kappa && crate::kappa::kappa_label(b) == kappa)
}

/// Whether two lists of entries agree in everything but their bytes, and in the
/// bytes too outside the constants of `reqs`.
pub open spec fn only_bound_bytes_differ(
    a: Seq<EntryV>,
    b: Seq<EntryV>,
    reqs: Seq<RequirementV>,
) -> bool {
    &&& a.len() == b.len()
    &&& forall|i: int|
        0 <= i < a.len() ==> (#[trigger] a[i]).slot == b[i].slot && a[i].by_reference
            == b[i].by_reference && a[i].fingerprint == b[i].fingerprint
    &&& forall|i: int|
        0 <= i < a.len() && (forall|k: int| 0 <= k < reqs.len() ==> reqs[k].constant != i)
            ==> #[trigger] a[i] == b[i]
}

/// The first touch of a whole binding is verified: what the constant then holds
/// hashes to the label that the binding names.
pub proof fn law_first_touch_is_verified(
    state: PatchState,
    base_slot: u32,
    req: RequirementV,
    oracle: Seq<StoreEvent>,
)
    requires
        !state.verified.contains(req.kappa),
        req.range is None,
        patch_one(state, base_slot, req, oracle).outcome is Ok,
    ensures
        crate::kappa::kappa_label(
            patch_one(state, base_slot, req, oracle).state.entries[req.constant as int].bytes,
        ) == req.kappa,
{
}

/// The first touch of a ranged binding is verified: what the constant then holds
/// is the range of a content that hashes to the label.
pub proof fn law_first_ranged_touch_is_verified(
    state: PatchState,
    base_slot: u32,
    req: RequirementV,
    oracle: Seq<StoreEvent>,
    offset: u64,
    len: u64,
)
    requires
        !state.verified.contains(req.kappa),
        req.range == Some((offset, len)),
        patch_one(state, base_slot, req, oracle).outcome is Ok,
    ensures
        exists|content: Seq<u8>|
            #[trigger] crate::kappa::kappa_label(content) == req.kappa && crate::bytes::byte_range(
                content,
                offset,
                len,
            ) == Some(
                patch_one(state, base_slot, req, oracle).state.entries[req.constant as int].bytes,
            ),
{
    let first = crate::store::resolved(oracle[0])->Ok_0;
    let second = crate::store::resolved(oracle[2]);
    if crate::kappa::kappa_label(first) != req.kappa {
        assert(crate::kappa::kappa_label(second->Ok_0) == req.kappa);
    }
}

/// Once a session has verified a label, a ranged binding of it makes one
/// request, for its range alone, and the content is not hashed again.
pub proof fn law_verified_range_moves_only_its_slice(
    state: PatchState,
    base_slot: u32,
    req: RequirementV,
    oracle: Seq<StoreEvent>,
    offset: u64,
    len: u64,
    bytes: Seq<u8>,
)
    requires
        state.verified.contains(req.kappa),
        req.range == Some((offset, len)),
        req.constant < state.entries.len(),
        oracle.len() == 1,
        oracle[0] == (StoreEvent::ResolveRange { kappa: req.kappa, offset, len, reply: Ok(bytes) }),
    ensures
        patch_one(state, base_slot, req, oracle) == filled(state, req.constant, bytes, oracle),
{
    assert(oracle =~= seq![oracle[0]]);
}

/// Once a session has verified a label, a whole binding of it takes the content
/// as it comes: one request, and no second hash.
pub proof fn law_verified_content_is_not_hashed_again(
    state: PatchState,
    base_slot: u32,
    req: RequirementV,
    oracle: Seq<StoreEvent>,
    bytes: Seq<u8>,
)
    requires
        state.verified.contains(req.kappa),
        req.range is None,
        req.constant < state.entries.len(),
        state.entries[req.constant as int].slot == base_slot + req.constant,
        !state.entries[req.constant as int].by_reference,
        state.entries[req.constant as int].bytes.len() == 0,
        oracle.len() == 1,
        oracle[0] == (StoreEvent::Resolve { kappa: req.kappa, reply: Ok(bytes) }),
    ensures
        patch_one(state, base_slot, req, oracle) == filled(state, req.constant, bytes, oracle),
{
    assert(oracle =~= seq![oracle[0]]);
}

/// Corrupt content fails closed: where neither the first reply nor the one after
/// the eviction hashes to the label, nothing is bound, nothing becomes verified,
/// and the error names the label.
pub proof fn law_corrupt_content_fails_closed(
    state: PatchState,
    req: RequirementV,
    oracle: Seq<StoreEvent>,
    first: Seq<u8>,
)
    requires
        !state.verified.contains(req.kappa),
        crate::store::resolved(oracle[0]) == Ok::<Seq<u8>, StoreError>(first),
        crate::kappa::kappa_label(first) != req.kappa,
        crate::store::resolved(oracle[2]) matches Ok(b) ==> crate::kappa::kappa_label(b)
            != req.kappa,
    ensures
        ({
            let run = fetch_and_bind(state, req, oracle);
            &&& run.state == state
            &&& run.outcome matches Err(PatchErrorV::Integrity { kappa, .. }) && kappa == req.kappa
        }),
{
}

/// Corruption of a cached entry recovers: where the content that comes after the
/// eviction hashes to the label, it is bound.
pub proof fn law_corruption_recovers_from_a_deeper_tier(
    state: PatchState,
    req: RequirementV,
    oracle: Seq<StoreEvent>,
    corrupt: Seq<u8>,
    good: Seq<u8>,
)
    requires
        !state.verified.contains(req.kappa),
        req.range is None,
        crate::store::resolved(oracle[0]) == Ok::<Seq<u8>, StoreError>(corrupt),
        crate::kappa::kappa_label(corrupt) != req.kappa,
        crate::store::resolved(oracle[2]) == Ok::<Seq<u8>, StoreError>(good),
        crate::kappa::kappa_label(good) == req.kappa,
    ensures
        ({
            let run = fetch_and_bind(state, req, oracle);
            &&& run.outcome is Ok
            &&& run.state.entries == filled(state, req.constant, good, run.events).state.entries
            &&& run.events[1] == (StoreEvent::Invalidate { kappa: req.kappa })
        }),
{
}

proof fn lemma_step(
    state: PatchState,
    base_slot: u32,
    req: RequirementV,
    oracle: Seq<StoreEvent>,
)
    ensures
        ({
            let run = patch_one(state, base_slot, req, oracle);
            &&& only_bound_bytes_differ(state.entries, run.state.entries, seq![req])
            &&& state.verified.subset_of(run.state.verified)
            &&& forall|i: int|
                0 <= i < run.events.len() ==> asked_kappa(#[trigger] run.events[i]) == req.kappa
            &&& forall|k: Seq<char>|
                run.state.verified.contains(k) && !state.verified.contains(k) ==> k == req.kappa
                    && hashed_right(run.events, k)
        }),
{
    let run = patch_one(state, base_slot, req, oracle);
    assert(seq![req][0].constant == req.constant);
    assert forall|k: Seq<char>|
        run.state.verified.contains(k) && !state.verified.contains(k) implies k == req.kappa
        && hashed_right(run.events, k) by {
        let first = crate::store::resolved(oracle[0])->Ok_0;
        if crate::kappa::kappa_label(first) == req.kappa {
            assert(run.events[0] == (StoreEvent::Resolve { kappa: req.kappa, reply: Ok(first) }));
        } else {
            let second = crate::store::resolved(oracle[2]);
            assert(run.events[2] == (StoreEvent::Resolve { kappa: req.kappa, reply: second }));
        }
    }
}

/// Patching writes only the bytes of the constants that the κ-map names: slots,
/// references and every other entry stay as they were.
pub proof fn law_patching_writes_only_bound_constants(
    state: PatchState,
    base_slot: u32,
    reqs: Seq<RequirementV>,
    oracle: Seq<StoreEvent>,
)
    ensures
        only_bound_bytes_differ(
            state.entries,
            patch_run(state, base_slot, reqs, oracle).state.entries,
            reqs,
        ),
    decreases reqs.len(),
{
    if reqs.len() > 0 {
        let front = patch_run(state, base_slot, reqs.drop_last(), oracle);
        law_patching_writes_only_bound_constants(state, base_slot, reqs.drop_last(), oracle);
        let a = state.entries;
        let b = front.state.entries;
        assert forall|i: int|
            0 <= i < a.len() && (forall|k: int| 0 <= k < reqs.len() ==> reqs[k].constant
                != i) implies #[trigger] a[i] == b[i] by {
            assert forall|k: int| 0 <= k < reqs.drop_last().len() implies reqs.drop_last()[k].constant
                != i by {
                assert(reqs.drop_last()[k] == reqs[k]);
            }
        }
        if front.outcome is Ok {
            let rest = oracle.skip(front.events.len() as int);
            let step = patch_one(front.state, base_slot, reqs.last(), rest);
            lemma_step(front.state, base_slot, reqs.last(), rest);
            let c = step.state.entries;
            assert forall|i: int|
                0 <= i < a.len() && (forall|k: int| 0 <= k < reqs.len() ==> reqs[k].constant
                    != i) implies #[trigger] a[i] == c[i] by {
                assert(a[i] == b[i]);
                assert(reqs[reqs.len() - 1].constant != i);
                assert(seq![reqs.last()][0].constant != i);
                assert(b[i] == c[i]);
            }
            assert forall|i: int| 0 <= i < a.len() implies (#[trigger] a[i]).slot == c[i].slot
                && a[i].by_reference == c[i].by_reference && a[i].fingerprint
                == c[i].fingerprint by {
                assert(b[i].slot == c[i].slot);
            }
        }
    }
}

/// The store is asked for no label but those that the κ-map names.
pub proof fn law_only_bound_labels_are_asked_for(
    state: PatchState,
    base_slot: u32,
    reqs: Seq<RequirementV>,
    oracle: Seq<StoreEvent>,
    i: int,
)
    requires
        0 <= i < patch_run(state, base_slot, reqs, oracle).events.len(),
    ensures
        exists|k: int|
            0 <= k < reqs.len() && asked_kappa(
                patch_run(state, base_slot, reqs, oracle).events[i],
            ) == (#[trigger] reqs[k]).kappa,
    decreases reqs.len(),
{
    if reqs.len() > 0 {
        let run = patch_run(state, base_slot, reqs, oracle);
        let front = patch_run(state, base_slot, reqs.drop_last(), oracle);
        if i < front.events.len() {
            law_only_bound_labels_are_asked_for(state, base_slot, reqs.drop_last(), oracle, i);
            let k = choose|k: int|
                0 <= k < reqs.drop_last().len() && asked_kappa(front.events[i]) == (
                #[trigger] reqs.drop_last()[k]).kappa;
            assert(reqs.drop_last()[k] == reqs[k]);
            assert(run.events[i] == front.events[i]);
        } else {
            let rest = oracle.skip(front.events.len() as int);
            let step = patch_one(front.state, base_slot, reqs.last(), rest);
            lemma_step(front.state, base_slot, reqs.last(), rest);
            assert(run.events[i] == step.events[i - front.events.len()]);
            assert(reqs[reqs.len() - 1] == reqs.last());
        }
    }
}

/// A session trusts no label on its own: each label that a run adds to the
/// verified set was the hash of a reply in that run.
pub proof fn law_verified_labels_were_hashed(
    state: PatchState,
    base_slot: u32,
    reqs: Seq<RequirementV>,
    oracle: Seq<StoreEvent>,
)
    ensures
        ({
            let run = patch_run(state, base_slot, reqs, oracle);
            &&& state.verified.subset_of(run.state.verified)
            &&& forall|k: Seq<char>|
                run.state.verified.contains(k) && !state.verified.contains(k) ==> hashed_right(
                    run.events,
                    k,
                )
        }),
    decreases reqs.len(),
{
    if reqs.len() > 0 {
        let run = patch_run(state, base_slot, reqs, oracle);
        let front = patch_run(state, base_slot, reqs.drop_last(), oracle);
        law_verified_labels_were_hashed(state, base_slot, reqs.drop_last(), oracle);
        if front.outcome is Ok {
            let rest = oracle.skip(front.events.len() as int);
            let step = patch_one(front.state, base_slot, reqs.last(), rest);
            lemma_step(front.state, base_slot, reqs.last(), rest);
            assert forall|k: Seq<char>|
                run.state.verified.contains(k) && !state.verified.contains(k) implies hashed_right(
                run.events,
                k,
            ) by {
                if front.state.verified.contains(k) {
                    assert(hashed_right(front.events, k));
                    let i = choose|i: int|
                        0 <= i < front.events.len() && (
                        #[trigger] front.events[i] matches StoreEvent::Resolve {
                            kappa: l,
                            reply: Ok(b),
                        } && l == k && crate::kappa::kappa_label(b) == k);
                    assert(run.events[i] == front.events[i]);
                } else {
                    assert(hashed_right(step.events, k));
                    let i = choose|i: int|
                        0 <= i < step.events.len() && (
                        #[trigger] step.events[i] matches StoreEvent::Resolve {
                            kappa: l,
                            reply: Ok(b),
                        } && l == k && crate::kappa::kappa_label(b) == k);
                    assert(run.events[front.events.len() + i] == step.events[i]);
                }
            }
        }
    }
}

/// Every label that a session has verified after a run it had verified before, or
/// the κ-map names it.
proof fn lemma_verified_labels_are_named(
    state: PatchState,
    base_slot: u32,
    reqs: Seq<RequirementV>,
    oracle: Seq<StoreEvent>,
    kappa: Seq<char>,
)
    requires
        patch_run(state, base_slot, reqs, oracle).state.verified.contains(kappa),
        !state.verified.contains(kappa),
    ensures
        exists|k: int| 0 <= k < reqs.len() && (#[trigger] reqs[k]).kappa == kappa,
    decreases reqs.len(),
{
    if reqs.len() > 0 {
        let front = patch_run(state, base_slot, reqs.drop_last(), oracle);
        if front.state.verified.contains(kappa) {
            lemma_verified_labels_are_named(state, base_slot, reqs.drop_last(), oracle, kappa);
            let k = choose|k: int|
                0 <= k < reqs.drop_last().len() && (#[trigger] reqs.drop_last()[k]).kappa == kappa;
            assert(reqs[k].kappa == kappa);
        } else {
            let rest = oracle.skip(front.events.len() as int);
            lemma_step(front.state, base_slot, reqs.last(), rest);
            assert(reqs[reqs.len() - 1].kappa == kappa);
        }
    }
}

/// Whether no two bindings name one constant.
pub open spec fn constants_distinct(reqs: Seq<RequirementV>) -> bool {
    forall|i: int, j: int|
        0 <= i < j < reqs.len() ==> (#[trigger] reqs[i]).constant != (#[trigger] reqs[j]).constant
}

/// What a whole run leaves in a constant is verified content: where a binding is
/// the first of its label in the session, the constant ends up with bytes that
/// hash to the label.
pub proof fn law_a_run_leaves_verified_content(
    state: PatchState,
    base_slot: u32,
    reqs: Seq<RequirementV>,
    oracle: Seq<StoreEvent>,
    k: int,
)
    requires
        constants_distinct(reqs),
        patch_run(state, base_slot, reqs, oracle).outcome is Ok,
        0 <= k < reqs.len(),
        reqs[k].range is None,
        !state.verified.contains(reqs[k].kappa),
        forall|j: int| 0 <= j < k ==> (#[trigger] reqs[j]).kappa != reqs[k].kappa,
    ensures
        crate::kappa::kappa_label(
            patch_run(
                state,
                base_slot,
                reqs,
                oracle,
            ).state.entries[reqs[k].constant as int].bytes,
        ) == reqs[k].kappa,
    decreases reqs.len(),
{
    let before = reqs.drop_last();
    let front = patch_run(state, base_slot, before, oracle);
    let rest = oracle.skip(front.events.len() as int);
    let step = patch_one(front.state, base_slot, reqs.last(), rest);
    if k == reqs.len() - 1 {
        if front.state.verified.contains(reqs[k].kappa) {
            lemma_verified_labels_are_named(state, base_slot, before, oracle, reqs[k].kappa);
            let j = choose|j: int|
                0 <= j < before.len() && (#[trigger] before[j]).kappa == reqs[k].kappa;
            assert(reqs[j].kappa == reqs[k].kappa);
        }
        law_first_touch_is_verified(front.state, base_slot, reqs.last(), rest);
    } else {
        assert forall|i: int, j: int| 0 <= i < j < before.len() implies (
        #[trigger] before[i]).constant != (#[trigger] before[j]).constant by {
            assert(reqs[i].constant != reqs[j].constant);
        }
        assert forall|j: int| 0 <= j < k implies (#[trigger] before[j]).kappa
            != before[k].kappa by {
            assert(reqs[j].kappa != reqs[k].kappa);
        }
        law_a_run_leaves_verified_content(state, base_slot, before, oracle, k);
        lemma_step(front.state, base_slot, reqs.last(), rest);
        lemma_touched_in_range(state, base_slot, before, oracle, k);
        let c = reqs[k].constant as int;
        assert(reqs[k].constant != reqs[reqs.len() - 1].constant);
        assert(front.state.entries[c] == step.state.entries[c]);
    }
}

/// A run that succeeds names no constant behind the last entry.
proof fn lemma_touched_in_range(
    state: PatchState,
    base_slot: u32,
    reqs: Seq<RequirementV>,
    oracle: Seq<StoreEvent>,
    k: int,
)
    requires
        patch_run(state, base_slot, reqs, oracle).outcome is Ok,
        0 <= k < reqs.len(),
    ensures
        reqs[k].constant < state.entries.len(),
        patch_run(state, base_slot, reqs, oracle).state.entries.len() == state.entries.len(),
    decreases reqs.len(),
{
    let before = reqs.drop_last();
    law_patching_writes_only_bound_constants(state, base_slot, reqs, oracle);
    law_patching_writes_only_bound_constants(state, base_slot, before, oracle);
    if k < reqs.len() - 1 {
        lemma_touched_in_range(state, base_slot, before, oracle, k);
        assert(before[k] == reqs[k]);
    }
}

/// Whether every reply among some events is what `contents` holds.
pub open spec fn honest(events: Seq<StoreEvent>, contents: Map<Seq<char>, Seq<u8>>) -> bool {
    forall|i: int|
        0 <= i < events.len() ==> match #[trigger] events[i] {
            StoreEvent::Resolve { kappa, reply } => reply == Ok::<Seq<u8>, StoreError>(
                contents[kappa],
            ),
            StoreEvent::ResolveRange { kappa, offset, len, reply } =>
                crate::bytes::byte_range(contents[kappa], offset, len) matches Some(b) && reply
                    == Ok::<Seq<u8>, StoreError>(b),
            _ => true,
        }
}

/// A store that answers every request for the whole and for a range from `contents`
/// leaves an honest record.
pub proof fn law_a_store_of_contents_is_honest<S: KappaStore>(
    before: S,
    events: Seq<StoreEvent>,
    after: S,
    contents: Map<Seq<char>, Seq<u8>>,
)
    requires
        exists|states: Seq<S>, calls: Seq<&mut S>| #[trigger]
            crate::store::calls_of(before, states, calls, events, after) && forall|i: int|
                0 <= i < calls.len() ==> *final(#[trigger] calls[i]) == states[i + 1],
        forall|call: &mut S, k: &str, r: Result<Vec<u8>, StoreError>| #[trigger]
            call_ensures(S::resolve, (call, k), r) ==> (r matches Ok(v) && v@ == contents[k@]),
        forall|call: &mut S, k: &str, offset: u64, len: u64, r: Result<Vec<u8>, StoreError>|
            #[trigger]
            call_ensures(S::resolve_range, (call, k, offset, len), r) ==> (
            crate::bytes::byte_range(contents[k@], offset, len) matches Some(b) && r matches Ok(v)
                && v@ == b),
    ensures
        honest(events, contents),
{
    let whole = |kappa: Seq<char>, reply: Result<Seq<u8>, StoreError>|
        reply == Ok::<Seq<u8>, StoreError>(contents[kappa]);
    let part = |kappa: Seq<char>, offset: u64, len: u64, reply: Result<Seq<u8>, StoreError>|
        crate::bytes::byte_range(contents[kappa], offset, len) matches Some(b) && reply == Ok::<
            Seq<u8>,
            StoreError,
        >(b);
    let length = |kappa: Seq<char>, size: Result<u64, StoreError>| true;
    crate::store::law_the_record_is_what_the_store_answered(
        before,
        events,
        after,
        whole,
        part,
        length,
    );
}

/// What a binding takes of its content.
pub open spec fn bound_part(content: Seq<u8>, range: Option<(u64, u64)>) -> Option<Seq<u8>> {
    match range {
        None => Some(content),
        Some((offset, len)) => crate::bytes::byte_range(content, offset, len),
    }
}

/// Whether a binding finds its placeholder, and its content is to be had.
pub open spec fn bindable(
    entries: Seq<EntryV>,
    base_slot: u32,
    req: RequirementV,
    contents: Map<Seq<char>, Seq<u8>>,
) -> bool {
    &&& req.constant < entries.len()
    &&& entries[req.constant as int].slot == base_slot + req.constant
    &&& !entries[req.constant as int].by_reference
    &&& entries[req.constant as int].bytes.len() == 0
    &&& crate::kappa::kappa_label(contents[req.kappa]) == req.kappa
    &&& bound_part(contents[req.kappa], req.range) is Some
}

/// A store that holds every content materializes everything: each placeholder ends
/// up with exactly the content, or the range of it, that its binding names.
pub proof fn law_an_honest_store_materializes_everything(
    state: PatchState,
    base_slot: u32,
    reqs: Seq<RequirementV>,
    oracle: Seq<StoreEvent>,
    contents: Map<Seq<char>, Seq<u8>>,
)
    requires
        constants_distinct(reqs),
        forall|k: int|
            0 <= k < reqs.len() ==> bindable(
                state.entries,
                base_slot,
                #[trigger] reqs[k],
                contents,
            ),
        honest(patch_run(state, base_slot, reqs, oracle).events, contents),
    ensures
        ({
            let run = patch_run(state, base_slot, reqs, oracle);
            &&& run.outcome is Ok
            &&& forall|k: int|
                0 <= k < reqs.len() ==> bound_part(
                    contents[(#[trigger] reqs[k]).kappa],
                    reqs[k].range,
                ) == Some(run.state.entries[reqs[k].constant as int].bytes)
        }),
    decreases reqs.len(),
{
    if reqs.len() > 0 {
        let before = reqs.drop_last();
        let run = patch_run(state, base_slot, reqs, oracle);
        let front = patch_run(state, base_slot, before, oracle);
        assert forall|i: int| 0 <= i < front.events.len() implies run.events[i]
            == #[trigger] front.events[i] by {}
        assert(honest(front.events, contents)) by {
            assert forall|i: int| 0 <= i < front.events.len() implies match #[trigger] front.events[i] {
                StoreEvent::Resolve { kappa, reply } => reply == Ok::<Seq<u8>, StoreError>(
                    contents[kappa],
                ),
                StoreEvent::ResolveRange { kappa, offset, len, reply } =>
                    crate::bytes::byte_range(contents[kappa], offset, len) matches Some(b) && reply
                        == Ok::<Seq<u8>, StoreError>(b),
                _ => true,
            } by {
                assert(run.events[i] == front.events[i]);
            }
        }
        assert forall|k: int| 0 <= k < before.len() implies bindable(
            state.entries,
            base_slot,
            #[trigger] before[k],
            contents,
        ) by {
            assert(before[k] == reqs[k]);
        }
        assert forall|i: int, j: int| 0 <= i < j < before.len() implies (
        #[trigger] before[i]).constant != (#[trigger] before[j]).constant by {
            assert(reqs[i].constant != reqs[j].constant);
        }
        law_an_honest_store_materializes_everything(state, base_slot, before, oracle, contents);
        let last = reqs.last();
        let c = last.constant as int;
        let n = front.events.len() as int;
        let rest = oracle.skip(n);
        let step = patch_one(front.state, base_slot, last, rest);
        law_patching_writes_only_bound_constants(state, base_slot, before, oracle);
        assert(bindable(state.entries, base_slot, reqs[reqs.len() - 1], contents));
        assert(state.entries[c] == front.state.entries[c]) by {
            assert forall|k: int| 0 <= k < before.len() implies before[k].constant != c by {
                assert(reqs[k].constant != reqs[reqs.len() - 1].constant);
            }
        }
        if step.events.len() > 0 {
            assert(run.events[n] == step.events[0]);
        }
        assert(step.outcome is Ok);
        assert(bound_part(contents[last.kappa], last.range) == Some(step.state.entries[c].bytes));
        lemma_step(front.state, base_slot, last, rest);
        assert forall|k: int| 0 <= k < reqs.len() implies bound_part(
            contents[(#[trigger] reqs[k]).kappa],
            reqs[k].range,
        ) == Some(run.state.entries[reqs[k].constant as int].bytes) by {
            if k < reqs.len() - 1 {
                assert(before[k] == reqs[k]);
                assert(reqs[k].constant != reqs[reqs.len() - 1].constant);
                let d = reqs[k].constant as int;
                assert(bindable(state.entries, base_slot, reqs[k], contents));
                assert(front.state.entries[d] == step.state.entries[d]);
            }
        }
    }
}

/// What stops a binding, and what it is stopped with: a constant behind the last entry;
/// an entry in another slot, one that refers to the weight pool or one that holds
/// content, each found as it is; a store that fails, with its cause; content that
/// hashes to another label twice, named by the label of the first; or a range that
/// reaches behind the content. Whatever stops it, no entry has changed.
pub proof fn law_what_stops_a_binding(
    state: PatchState,
    base_slot: u32,
    req: RequirementV,
    oracle: Seq<StoreEvent>,
)
    ensures
        ({
            let run = patch_one(state, base_slot, req, oracle);
            let c = req.constant as int;
            let known = req.range is Some && state.verified.contains(req.kappa);
            let placed = c < state.entries.len() && !known;
            run.outcome matches Err(e) ==> run.state.entries == state.entries && match e {
                PatchErrorV::Empty => false,
                PatchErrorV::MissingEntry { constant } => constant == c && c >= state.entries.len(),
                PatchErrorV::Drift { constant, slot } => placed && constant == c && slot
                    == state.entries[c].slot && slot != base_slot + c,
                PatchErrorV::Reference { constant } => placed && constant == c
                    && state.entries[c].by_reference,
                PatchErrorV::Material { constant, size } => placed && constant == c && size > 0
                    && size == state.entries[c].bytes.len(),
                PatchErrorV::Resolve { kappa, cause } => placed && kappa == req.kappa
                    && run.events.len() == 1 && run.events[0] == (StoreEvent::Resolve {
                    kappa,
                    reply: Err(cause),
                }),
                PatchErrorV::ResolveRange { kappa, offset, len, cause } => known && kappa
                    == req.kappa && req.range == Some((offset, len)) && run.events.len() == 1
                    && run.events[0] == (StoreEvent::ResolveRange {
                    kappa,
                    offset,
                    len,
                    reply: Err(cause),
                }),
                PatchErrorV::Integrity { constant, derived, kappa } => placed && constant == c
                    && kappa == req.kappa && derived != kappa && run.events.len() == 3 && (
                run.events[0] matches StoreEvent::Resolve { kappa: k, reply: Ok(b) } && k == kappa
                    && crate::kappa::kappa_label(b) == derived) && run.events[1] == (
                StoreEvent::Invalidate { kappa }) && (
                run.events[2] matches StoreEvent::Resolve { kappa: k, reply } && k == kappa && (
                reply matches Ok(b) ==> crate::kappa::kappa_label(b) != kappa)),
                PatchErrorV::Range { constant, offset, len, size, kappa } => placed && constant == c
                    && kappa == req.kappa && req.range == Some((offset, len)) && offset + len > size
                    && (run.events.last() matches StoreEvent::Resolve { kappa: k, reply: Ok(b) } && k
                    == kappa && b.len() == size),
            }
        }),
{
}

/// What a binding that succeeds did: it found an empty inline placeholder in the slot of
/// its id, or held a range of a verified label; what the store gave last is what the
/// constant holds now, the whole of it or the range that the binding names; and the
/// label is verified.
pub proof fn law_what_a_binding_does(
    state: PatchState,
    base_slot: u32,
    req: RequirementV,
    oracle: Seq<StoreEvent>,
)
    requires
        patch_one(state, base_slot, req, oracle).outcome is Ok,
    ensures
        ({
            let run = patch_one(state, base_slot, req, oracle);
            let c = req.constant as int;
            let known = req.range is Some && state.verified.contains(req.kappa);
            let now = run.state.entries[c].bytes;
            &&& c < state.entries.len()
            &&& run.state.verified.contains(req.kappa)
            &&& run.events.len() == 1 || run.events.len() == 3
            &&& run.state.entries.len() == state.entries.len()
            &&& forall|i: int|
                0 <= i < state.entries.len() && i != c ==> #[trigger] run.state.entries[i]
                    == state.entries[i]
            &&& run.state.entries[c].slot == state.entries[c].slot
            &&& run.state.entries[c].by_reference == state.entries[c].by_reference
            &&& run.state.entries[c].fingerprint == state.entries[c].fingerprint
            &&& !known ==> state.entries[c].slot == base_slot + c && !state.entries[c].by_reference
                && state.entries[c].bytes.len() == 0
            &&& known ==> (req.range matches Some((offset, len)) && run.events[0] == (
            StoreEvent::ResolveRange { kappa: req.kappa, offset, len, reply: Ok(now) }))
            &&& !known ==> (run.events.last() matches StoreEvent::Resolve { kappa, reply: Ok(b) }
                && kappa == req.kappa && match req.range {
                None => now == b,
                Some((offset, len)) => offset + len <= b.len() && now == b.subrange(
                    offset as int,
                    offset + len,
                ),
            })
        }),
{
}

/// Bindings are filled one after the other: those behind others go on from what those
/// left, with the replies that those did not use, and only where those succeeded.
pub proof fn law_bindings_are_filled_in_turn(
    state: PatchState,
    base_slot: u32,
    a: Seq<RequirementV>,
    b: Seq<RequirementV>,
    oracle: Seq<StoreEvent>,
)
    requires
        patch_run(state, base_slot, a + b, oracle).events.len() <= oracle.len(),
    ensures
        ({
            let front = patch_run(state, base_slot, a, oracle);
            let all = patch_run(state, base_slot, a + b, oracle);
            if front.outcome is Err {
                all == front
            } else {
                let back = patch_run(
                    front.state,
                    base_slot,
                    b,
                    oracle.skip(front.events.len() as int),
                );
                all.state == back.state && all.outcome == back.outcome && all.events
                    == front.events + back.events
            }
        }),
    decreases b.len(),
{
    let front = patch_run(state, base_slot, a, oracle);
    if b.len() == 0 {
        assert(a + b =~= a);
        assert(front.events + Seq::<StoreEvent>::empty() =~= front.events);
    } else {
        let less = b.drop_last();
        let both = (a + b).drop_last();
        assert(both =~= a + less);
        let last = b.last();
        assert((a + b).last() == last);
        let before = patch_run(state, base_slot, both, oracle);
        lemma_run_unfolds(state, base_slot, a + b, oracle);
        law_bindings_are_filled_in_turn(state, base_slot, a, less, oracle);
        if front.outcome is Ok {
            let rest = oracle.skip(front.events.len() as int);
            let mid = patch_run(front.state, base_slot, less, rest);
            lemma_run_unfolds(front.state, base_slot, b, rest);
            if mid.outcome is Ok {
                let left = rest.skip(mid.events.len() as int);
                assert(left =~= oracle.skip(before.events.len() as int));
                let more = patch_one(mid.state, base_slot, last, left).events;
                assert(front.events + mid.events + more =~= front.events + (mid.events + more));
            }
        }
    }
}

proof fn lemma_run_unfolds(
    state: PatchState,
    base_slot: u32,
    reqs: Seq<RequirementV>,
    oracle: Seq<StoreEvent>,
)
    requires
        reqs.len() > 0,
    ensures
        ({
            let run = patch_run(state, base_slot, reqs, oracle);
            let front = patch_run(state, base_slot, reqs.drop_last(), oracle);
            let step = patch_one(
                front.state,
                base_slot,
                reqs.last(),
                oracle.skip(front.events.len() as int),
            );
            &&& front.outcome is Err ==> run == front
            &&& front.outcome is Ok ==> run.state == step.state && run.outcome == step.outcome
                && run.events == front.events + step.events
            &&& front.events.len() <= run.events.len()
        }),
{
}

/// A single binding is filled alone, from the first reply on, and no binding at all
/// changes nothing and asks nothing.
pub proof fn law_one_binding_is_filled_alone(
    state: PatchState,
    base_slot: u32,
    req: RequirementV,
    oracle: Seq<StoreEvent>,
)
    ensures
        patch_run(state, base_slot, Seq::empty(), oracle) == (PatchRun {
            state,
            outcome: Ok(()),
            events: Seq::empty(),
        }),
        patch_run(state, base_slot, seq![req], oracle) == patch_one(state, base_slot, req, oracle),
{
    let one = seq![req];
    assert(one.drop_last() =~= Seq::empty());
    assert(one.last() == req);
    assert(oracle.skip(0) =~= oracle);
    lemma_run_unfolds(state, base_slot, one, oracle);
    let alone = patch_one(state, base_slot, req, oracle);
    assert(Seq::<StoreEvent>::empty() + alone.events =~= alone.events);
}

/// Patching counts the slots from the first entry, and refuses a section without any.
pub proof fn law_slots_count_from_the_first_entry(
    state: PatchState,
    reqs: Seq<RequirementV>,
    oracle: Seq<StoreEvent>,
)
    ensures
        state.entries.len() == 0 ==> patched(state, reqs, oracle).outcome == Err::<(), PatchErrorV>(
            PatchErrorV::Empty,
        ) && patched(state, reqs, oracle).state == state && patched(
            state,
            reqs,
            oracle,
        ).events.len() == 0,
        state.entries.len() > 0 ==> patched(state, reqs, oracle) == patch_run(
            state,
            state.entries[0].slot,
            reqs,
            oracle,
        ),
{
}

/// Entries are modelled by all that they hold, each at its own place.
pub proof fn law_entries_are_modelled_whole(entries: Seq<ConstantEntry>, verified: Set<Seq<char>>)
    ensures
        entry_views(entries).len() == entries.len(),
        forall|i: int|
            0 <= i < entries.len() ==> ({
                let v = #[trigger] entry_views(entries)[i];
                &&& v.slot == entries[i].slot
                &&& v.bytes == entries[i].bytes@
                &&& v.by_reference == entries[i].by_reference
                &&& v.fingerprint == entries[i].fingerprint@
            }),
        patch_state(entries, verified).entries == entry_views(entries),
        patch_state(entries, verified).verified == verified,
{
}

/// What stops a patch is modelled by all that it states.
pub proof fn law_patch_errors_are_modelled_whole(e: PatchError)
    ensures
        match e {
            PatchError::Empty => e@ is Empty,
            PatchError::MissingEntry { constant } => e@ == (PatchErrorV::MissingEntry { constant }),
            PatchError::Drift { constant, slot } => e@ == (PatchErrorV::Drift { constant, slot }),
            PatchError::Reference { constant } => e@ == (PatchErrorV::Reference { constant }),
            PatchError::Material { constant, size } => e@ == (PatchErrorV::Material {
                constant,
                size: size as nat,
            }),
            PatchError::Resolve { kappa, cause } => e@ == (PatchErrorV::Resolve {
                kappa: kappa@,
                cause,
            }),
            PatchError::ResolveRange { kappa, offset, len, cause } => e@ == (
            PatchErrorV::ResolveRange { kappa: kappa@, offset, len, cause }),
            PatchError::Integrity { constant, derived, kappa } => e@ == (PatchErrorV::Integrity {
                constant,
                derived: derived@,
                kappa: kappa@,
            }),
            PatchError::Range { constant, offset, len, size, kappa } => e@ == (PatchErrorV::Range {
                constant,
                offset,
                len,
                size: size as nat,
                kappa: kappa@,
            }),
        },
        outcome_view(Err(e)) == Err::<(), PatchErrorV>(e@),
        outcome_view(Ok(())) is Ok,
{
}

} // verus!
