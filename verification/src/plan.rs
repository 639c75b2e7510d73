//! Archives as their loader hands them over, and what is made of them.
//!
//! Loading an archive and decoding its constants are the archive codec's work.
//! Its findings arrive here as plain values, failures included, and the
//! functions of this module decide what follows from them.

use crate::archive::{
    reassemble, rebuild_archive, AssembleError, Format, Rewrite, RewriteV, SectionRef,
};
use crate::bytes::copy_bytes;
use crate::kappa_map::{parse_kappa_map, KappaRequirement, MapError, MapErrorV, RequirementV};
use crate::materialize::{
    patch_constants, ConstantEntry, EntryV, PatchError, PatchErrorV,
};
use crate::kappa::DigestError;
use crate::store::{JournaledStore, KappaStore, StoreError, StoreEvent, VerifiedSet};
use crate::text::same_text;
use vstd::prelude::*;

verus! {

/// The archive extension that binds weight constants to κ-labels.
pub const KAPPA_MAP_EXTENSION: &'static str = "holospaces.kappa_map";

/// Why an archive could not be loaded.
#[derive(Debug, Clone, PartialEq, Eq)]
pub enum LoadError {
    /// The bytes are no archive.
    Archive { reason: String },
    /// The sections of the archive cannot be decoded.
    Sections { reason: String },
}

impl LoadError {
    /// A copy of the error.
    pub fn copy(&self) -> (r: LoadError)
        ensures
            r == *self,
    {
        match self {
            LoadError::Archive { reason } => LoadError::Archive { reason: reason.clone() },
            LoadError::Sections { reason } => LoadError::Sections { reason: reason.clone() },
        }
    }
}

/// Why the constants of an archive are not at hand.
#[derive(Debug, Clone, PartialEq, Eq)]
pub enum ConstantsFault {
    /// The archive has no constants section.
    Absent { reason: String },
    /// The constants section cannot be decoded.
    Undecodable { reason: String },
}

/// One extension of an archive.
pub struct Extension {
    pub key: String,
    pub bytes: Vec<u8>,
}

/// A weight that the archive itself carries.
pub struct InternedWeight {
    pub fingerprint: [u8; 32],
    pub body: Vec<u8>,
}

/// What the loader found in an archive.
pub struct ArchivePlan {
    pub format: Format,
    pub sections: Vec<SectionRef>,
    pub extensions: Result<Vec<Extension>, String>,
    /// The section of the κ-map as it reads without the map, where other extensions
    /// share it; nothing where the map is all that it holds.
    pub beside_map: Option<Vec<u8>>,
    pub constants: Result<Vec<ConstantEntry>, ConstantsFault>,
    /// The weights section, where there is one: its weights, each fingerprint
    /// once, or why it cannot be decoded.
    pub weights: Option<Result<Vec<InternedWeight>, String>>,
}

/// Why an archive could not be processed.
#[derive(Debug)]
pub enum ArchiveError {
    Load(LoadError),
    /// The extensions cannot be decoded.
    Extensions { reason: String },
    KappaMap(MapError),
    Constants(ConstantsFault),
    Patch(PatchError),
    /// The weights section cannot be decoded.
    Weights { reason: String },
    /// The constant in this slot refers to a weight that the archive lacks.
    Interned { slot: u32 },
    /// The store did not tell the size of a content.
    Size { kappa: String, cause: StoreError },
    /// A label names no digest.
    Digest { kappa: String, error: DigestError },
    Assemble(AssembleError),
}

/// The model of an [`ArchiveError`].
pub enum ArchiveErrorV {
    Load(LoadError),
    Extensions { reason: String },
    KappaMap(MapErrorV),
    Constants(ConstantsFault),
    Patch(PatchErrorV),
    Weights { reason: String },
    Interned { slot: u32 },
    Size { kappa: Seq<char>, cause: StoreError },
    Digest { kappa: Seq<char>, error: DigestError },
    Assemble(AssembleError),
}

impl View for ArchiveError {
    type V = ArchiveErrorV;

    open spec fn view(&self) -> ArchiveErrorV {
        match self {
            ArchiveError::Load(e) => ArchiveErrorV::Load(*e),
            ArchiveError::Extensions { reason } => ArchiveErrorV::Extensions { reason: *reason },
            ArchiveError::KappaMap(e) => ArchiveErrorV::KappaMap(e@),
            ArchiveError::Constants(e) => ArchiveErrorV::Constants(*e),
            ArchiveError::Patch(e) => ArchiveErrorV::Patch(e@),
            ArchiveError::Weights { reason } => ArchiveErrorV::Weights { reason: *reason },
            ArchiveError::Interned { slot } => ArchiveErrorV::Interned { slot: *slot },
            ArchiveError::Size { kappa, cause } => ArchiveErrorV::Size {
                kappa: kappa@,
                cause: *cause,
            },
            ArchiveError::Digest { kappa, error } => ArchiveErrorV::Digest {
                kappa: kappa@,
                error: *error,
            },
            ArchiveError::Assemble(e) => ArchiveErrorV::Assemble(*e),
        }
    }
}

/// The bytes of the first extension under `key`.
pub open spec fn extension_under(extensions: Seq<Extension>, key: Seq<char>) -> Option<Seq<u8>>
    decreases extensions.len(),
{
    if extensions.len() == 0 {
        None
    } else if extensions[0].key@ == key {
        Some(extensions[0].bytes@)
    } else {
        extension_under(extensions.skip(1), key)
    }
}

/// The bindings that an archive states: none where it carries no κ-map.
pub open spec fn plan_requirements(plan: ArchivePlan) -> Result<Seq<RequirementV>, ArchiveErrorV> {
    match plan.extensions {
        Err(reason) => Err(ArchiveErrorV::Extensions { reason }),
        Ok(extensions) => match extension_under(extensions@, KAPPA_MAP_EXTENSION@) {
            None => Ok(Seq::empty()),
            Some(bytes) => match crate::kappa_map::map_bindings(bytes) {
                Ok(reqs) => Ok(reqs),
                Err(e) => Err(ArchiveErrorV::KappaMap(e)),
            },
        },
    }
}

/// The bindings of an archive that may have failed to load.
pub open spec fn requirements_of(loaded: Result<ArchivePlan, LoadError>) -> Result<
    Seq<RequirementV>,
    ArchiveErrorV,
> {
    match loaded {
        Err(e) => Err(ArchiveErrorV::Load(e)),
        Ok(plan) => plan_requirements(plan),
    }
}

fn find_extension<'a>(extensions: &'a Vec<Extension>, key: &str) -> (r: Option<&'a Vec<u8>>)
    ensures
        match r {
            Some(bytes) => extension_under(extensions@, key@) == Some(bytes@),
            None => extension_under(extensions@, key@) == None::<Seq<u8>>,
        },
{
    let mut i: usize = 0;
    proof {
        assert(extensions@.skip(0) =~= extensions@);
    }
    while i < extensions.len()
        invariant
            i <= extensions@.len(),
            extension_under(extensions@, key@) == extension_under(
                extensions@.skip(i as int),
                key@,
            ),
        decreases extensions@.len() - i,
    {
        let ext = &extensions[i];
        proof {
            assert(extensions@.skip(i as int)[0] == ext);
            assert(extensions@.skip(i as int).skip(1) =~= extensions@.skip(i + 1));
        }
        if same_text(ext.key.as_str(), key) {
            return Some(&ext.bytes);
        }
        i += 1;
    }
    None
}

/// The κ-map bindings of an archive; none where it carries no map and so is
/// material already.
pub fn kappa_requirements(loaded: &Result<ArchivePlan, LoadError>) -> (r: Result<
    Vec<KappaRequirement>,
    ArchiveError,
>)
    ensures
        match r {
            Ok(reqs) => requirements_of(*loaded) == Ok::<Seq<RequirementV>, ArchiveErrorV>(
                crate::kappa_map::requirement_views(reqs@),
            ),
            Err(e) => requirements_of(*loaded) == Err::<Seq<RequirementV>, ArchiveErrorV>(e@),
        },
{
    let plan = match loaded {
        Ok(plan) => plan,
        Err(e) => {
            return Err(ArchiveError::Load(e.copy()));
        },
    };
    let extensions = match &plan.extensions {
        Ok(extensions) => extensions,
        Err(reason) => {
            return Err(ArchiveError::Extensions { reason: reason.clone() });
        },
    };
    match find_extension(extensions, KAPPA_MAP_EXTENSION) {
        None => {
            let none: Vec<KappaRequirement> = Vec::new();
            proof {
                assert(crate::kappa_map::requirement_views(none@) =~= Seq::empty());
            }
            Ok(none)
        },
        Some(bytes) => match parse_kappa_map(bytes.as_slice()) {
            Ok(reqs) => Ok(reqs),
            Err(e) => Err(ArchiveError::KappaMap(e)),
        },
    }
}

/// What materializing comes to before the constants are encoded.
pub enum MaterialV {
    /// The archive is material already.
    Unchanged,
    /// The constants to be written.
    Patched { entries: Seq<EntryV> },
}

/// What materializing did: how it ended, the labels verified when it ended, and
/// the requests that it made of the store.
#[verifier::ext_equal]
pub struct MaterialRun {
    pub outcome: Result<MaterialV, ArchiveErrorV>,
    pub verified: Set<Seq<char>>,
    pub events: Seq<StoreEvent>,
}

/// Materialize an archive, where the replies of the store are those of `oracle`.
pub open spec fn material_run(
    loaded: Result<ArchivePlan, LoadError>,
    verified: Set<Seq<char>>,
    oracle: Seq<StoreEvent>,
) -> MaterialRun {
    let nothing = Seq::<StoreEvent>::empty();
    match requirements_of(loaded) {
        Err(e) => MaterialRun { outcome: Err(e), verified, events: nothing },
        Ok(reqs) => if reqs.len() == 0 {
            MaterialRun { outcome: Ok(MaterialV::Unchanged), verified, events: nothing }
        } else {
            match (loaded->Ok_0).constants {
                Err(fault) => MaterialRun {
                    outcome: Err(ArchiveErrorV::Constants(fault)),
                    verified,
                    events: nothing,
                },
                Ok(entries) => {
                    let start = crate::materialize::patch_state(entries@, verified);
                    let run = crate::materialize::patched(start, reqs, oracle);
                    MaterialRun {
                        outcome: match run.outcome {
                            Ok(()) => Ok(MaterialV::Patched { entries: run.state.entries }),
                            Err(e) => Err(ArchiveErrorV::Patch(e)),
                        },
                        verified: run.state.verified,
                        events: run.events,
                    }
                },
            }
        },
    }
}

/// The model of the result of a rewrite.
pub open spec fn archive_view(r: Result<Vec<u8>, ArchiveError>) -> Result<Seq<u8>, ArchiveErrorV> {
    match r {
        Ok(bytes) => Ok(bytes@),
        Err(e) => Err(e@),
    }
}

/// A rewrite whose failure is reported as an [`ArchiveErrorV`].
pub open spec fn rewritten_archive(archive: Seq<u8>, plan: ArchivePlan, rule: RewriteV) -> Result<
    Seq<u8>,
    ArchiveErrorV,
> {
    match crate::archive::reassembled(archive, plan.format, plan.sections@, rule) {
        Ok(bytes) => Ok(bytes),
        Err(e) => Err(ArchiveErrorV::Assemble(e)),
    }
}

/// Whether `out` is the archive with `entries` for its constants, as the codec
/// `encode` writes them.
pub open spec fn carries<F: Fn(&Vec<ConstantEntry>) -> Vec<u8>>(
    encode: F,
    archive: Seq<u8>,
    plan: ArchivePlan,
    entries: Seq<EntryV>,
    out: Result<Seq<u8>, ArchiveErrorV>,
) -> bool {
    exists|v: Vec<ConstantEntry>, constants: Vec<u8>|
        crate::materialize::entry_views(v@) == entries && #[trigger] call_ensures(
            encode,
            (&v,),
            constants,
        ) && out == rewritten_archive(
            archive,
            plan,
            RewriteV::Materialize { constants: constants@ },
        )
}

/// Materialize an archive with a session of its own.
pub fn materialize_archive<S: KappaStore, F: Fn(&Vec<ConstantEntry>) -> Vec<u8>>(
    archive: &[u8],
    loaded: Result<ArchivePlan, LoadError>,
    encode: F,
    store: &mut JournaledStore<S>,
) -> (r: Result<Vec<u8>, ArchiveError>)
    requires
        forall|v: &Vec<ConstantEntry>| call_requires(encode, (v,)),
    ensures
        ({
            let t = crate::store::gained(old(store)@, final(store)@);
            let run = material_run(loaded, Set::empty(), t);
            &&& final(store)@ == old(store)@ + t
            &&& run.events == t
            &&& match run.outcome {
                Err(e) => archive_view(r) == Err::<Seq<u8>, ArchiveErrorV>(e),
                Ok(MaterialV::Unchanged) => archive_view(r) == Ok::<Seq<u8>, ArchiveErrorV>(
                    archive@,
                ),
                Ok(MaterialV::Patched { entries }) => carries(
                    encode,
                    archive@,
                    loaded->Ok_0,
                    entries,
                    archive_view(r),
                ),
            }
        }),
        exists|states: Seq<S>, calls: Seq<&mut S>| #[trigger]
            crate::store::calls_of(
                old(store).inner(),
                states,
                calls,
                crate::store::gained(old(store)@, final(store)@),
                final(store).inner(),
            ) && forall|i: int|
                0 <= i < calls.len() ==> *final(#[trigger] calls[i]) == states[i + 1],
{
    let mut verified = VerifiedSet::new();
    materialize_archive_with(archive, loaded, encode, store, &mut verified)
}

/// Materialize an archive within a session.
///
/// Every binding is resolved and verified, where the session has not verified
/// its label yet, and written into its constant; the archive is re-emitted with
/// the constants as `encode` writes them, without the warm start, and with a
/// fresh footer. An archive without a κ-map is returned unchanged.
pub fn materialize_archive_with<S: KappaStore, F: Fn(&Vec<ConstantEntry>) -> Vec<u8>>(
    archive: &[u8],
    loaded: Result<ArchivePlan, LoadError>,
    encode: F,
    store: &mut JournaledStore<S>,
    verified: &mut VerifiedSet,
) -> (r: Result<Vec<u8>, ArchiveError>)
    requires
        forall|v: &Vec<ConstantEntry>| call_requires(encode, (v,)),
    ensures
        ({
            let t = crate::store::gained(old(store)@, final(store)@);
            let run = material_run(loaded, old(verified)@, t);
            &&& final(store)@ == old(store)@ + t
            &&& run.events == t
            &&& final(verified)@ == run.verified
            &&& match run.outcome {
                Err(e) => archive_view(r) == Err::<Seq<u8>, ArchiveErrorV>(e),
                Ok(MaterialV::Unchanged) => archive_view(r) == Ok::<Seq<u8>, ArchiveErrorV>(
                    archive@,
                ),
                Ok(MaterialV::Patched { entries }) => carries(
                    encode,
                    archive@,
                    loaded->Ok_0,
                    entries,
                    archive_view(r),
                ),
            }
        }),
        exists|states: Seq<S>, calls: Seq<&mut S>| #[trigger]
            crate::store::calls_of(
                old(store).inner(),
                states,
                calls,
                crate::store::gained(old(store)@, final(store)@),
                final(store).inner(),
            ) && forall|i: int|
                0 <= i < calls.len() ==> *final(#[trigger] calls[i]) == states[i + 1],
{
    let ghost journal = store@;
    proof {
        crate::store::lemma_talk_start(*store);
        assert(journal + Seq::empty() =~= journal);
    }
    let requirements = match kappa_requirements(&loaded) {
        Ok(requirements) => requirements,
        Err(e) => {
            return Err(e);
        },
    };
    proof {
        assert(crate::kappa_map::requirement_views(requirements@).len() == requirements@.len());
    }
    if requirements.len() == 0 {
        return Ok(copy_bytes(archive));
    }
    let plan = match loaded {
        Ok(plan) => plan,
        Err(e) => {
            return Err(ArchiveError::Load(e));
        },
    };
    let mut entries = match plan.constants {
        Ok(entries) => entries,
        Err(fault) => {
            return Err(ArchiveError::Constants(fault));
        },
    };
    match patch_constants(&mut entries, &requirements, store, verified) {
        Ok(()) => {},
        Err(e) => {
            return Err(ArchiveError::Patch(e));
        },
    }
    let constants = encode(&entries);
    proof {
        assert(call_ensures(encode, (&entries,), constants));
    }
    match rebuild_archive(archive, &plan.format, &plan.sections, constants) {
        Ok(out) => Ok(out),
        Err(e) => Err(ArchiveError::Assemble(e)),
    }
}

/// Re-emit an archive in its canonical form, so that equal models give equal
/// bytes and so one κ.
pub fn canonicalize_archive(archive: &[u8], loaded: &Result<ArchivePlan, LoadError>) -> (r: Result<
    Vec<u8>,
    ArchiveError,
>)
    ensures
        match *loaded {
            Err(e) => archive_view(r) == Err::<Seq<u8>, ArchiveErrorV>(ArchiveErrorV::Load(e)),
            Ok(plan) => archive_view(r) == rewritten_archive(
                archive@,
                plan,
                RewriteV::Canonicalize,
            ),
        },
{
    match loaded {
        Err(e) => Err(ArchiveError::Load(e.copy())),
        Ok(plan) => match reassemble(
            archive,
            &plan.format,
            &plan.sections,
            &Rewrite::Canonicalize,
        ) {
            Ok(out) => Ok(out),
            Err(e) => Err(ArchiveError::Assemble(e)),
        },
    }
}

/// What is no archive never passes through: where loading fails, so does
/// materializing, with no request made of the store.
pub proof fn law_what_does_not_load_is_refused(
    e: LoadError,
    verified: Set<Seq<char>>,
    oracle: Seq<StoreEvent>,
)
    ensures
        material_run(Err::<ArchivePlan, LoadError>(e), verified, oracle) == (MaterialRun {
            outcome: Err::<MaterialV, ArchiveErrorV>(ArchiveErrorV::Load(e)),
            verified,
            events: Seq::empty(),
        }),
{
}

/// An archive without a κ-map is material already: it is returned as it is, with
/// no request made of the store.
pub proof fn law_a_material_archive_is_unchanged(
    plan: ArchivePlan,
    verified: Set<Seq<char>>,
    oracle: Seq<StoreEvent>,
)
    requires
        plan.extensions matches Ok(extensions) && extension_under(
            extensions@,
            KAPPA_MAP_EXTENSION@,
        ) is None,
    ensures
        material_run(Ok::<ArchivePlan, LoadError>(plan), verified, oracle) == (MaterialRun {
            outcome: Ok::<MaterialV, ArchiveErrorV>(MaterialV::Unchanged),
            verified,
            events: Seq::empty(),
        }),
{
}

/// Whether an archive binds one whole content, and the binding finds its placeholder.
pub open spec fn binds_one_whole(plan: ArchivePlan, req: RequirementV) -> bool {
    &&& plan_requirements(plan) == Ok::<Seq<RequirementV>, ArchiveErrorV>(seq![req])
    &&& req.range is None
    &&& plan.constants matches Ok(entries) && req.constant < entries@.len() && ({
        let entry = entries@[req.constant as int];
        &&& entry.slot == entries@[0].slot + req.constant
        &&& !entry.by_reference
        &&& entry.bytes@.len() == 0
    })
}

proof fn lemma_one_whole(
    plan: ArchivePlan,
    req: RequirementV,
    verified: Set<Seq<char>>,
    oracle: Seq<StoreEvent>,
)
    requires
        binds_one_whole(plan, req),
    ensures
        ({
            let start = crate::materialize::patch_state(plan.constants->Ok_0@, verified);
            let step = crate::materialize::fetch_and_bind(start, req, oracle);
            &&& material_run(Ok::<ArchivePlan, LoadError>(plan), verified, oracle) == (MaterialRun {
                outcome: match step.outcome {
                    Ok(()) => Ok::<MaterialV, ArchiveErrorV>(
                        MaterialV::Patched { entries: step.state.entries },
                    ),
                    Err(e) => Err::<MaterialV, ArchiveErrorV>(ArchiveErrorV::Patch(e)),
                },
                verified: step.state.verified,
                events: step.events,
            })
            &&& start.entries[req.constant as int].slot == start.entries[0].slot + req.constant
            &&& req.constant < start.entries.len()
        }),
{
    let start = crate::materialize::patch_state(plan.constants->Ok_0@, verified);
    let reqs = seq![req];
    let slot = start.entries[0].slot;
    assert(reqs.drop_last() =~= Seq::empty());
    reveal_with_fuel(crate::materialize::patch_run, 2);
    assert(oracle.skip(0) =~= oracle);
    let step = crate::materialize::patch_one(start, slot, req, oracle);
    assert(start.entries[0] == plan.constants->Ok_0@[0]@);
    assert(start.entries[req.constant as int] == plan.constants->Ok_0@[req.constant as int]@);
    assert(Seq::<StoreEvent>::empty() + step.events =~= step.events);
}

/// A label that the session has verified is taken as it comes. Where the store answers
/// such a label with `bytes`, whatever their own label is, materializing succeeds, the
/// constant holds the bytes, the store was asked once and told to evict nothing, and
/// the session trusts what it did before.
pub proof fn law_a_verified_label_is_taken_as_it_comes<S: KappaStore>(
    plan: ArchivePlan,
    req: RequirementV,
    verified: Set<Seq<char>>,
    before: S,
    events: Seq<StoreEvent>,
    after: S,
    bytes: Seq<u8>,
)
    requires
        binds_one_whole(plan, req),
        verified.contains(req.kappa),
        material_run(Ok::<ArchivePlan, LoadError>(plan), verified, events).events == events,
        exists|states: Seq<S>, calls: Seq<&mut S>| #[trigger]
            crate::store::calls_of(before, states, calls, events, after) && forall|i: int|
                0 <= i < calls.len() ==> *final(#[trigger] calls[i]) == states[i + 1],
        forall|call: &mut S, k: &str, r: Result<Vec<u8>, StoreError>| #[trigger]
            call_ensures(S::resolve, (call, k), r) && k@ == req.kappa ==> (r matches Ok(v) && v@
                == bytes),
    ensures
        ({
            let run = material_run(Ok::<ArchivePlan, LoadError>(plan), verified, events);
            &&& run.outcome matches Ok(MaterialV::Patched { entries })
                && entries[req.constant as int].bytes == bytes
            &&& events == seq![StoreEvent::Resolve { kappa: req.kappa, reply: Ok(bytes) }]
            &&& run.verified == verified
        }),
{
    lemma_one_whole(plan, req, verified, events);
    let whole = |kappa: Seq<char>, reply: Result<Seq<u8>, StoreError>|
        kappa == req.kappa ==> reply == Ok::<Seq<u8>, StoreError>(bytes);
    crate::store::law_the_record_is_what_the_store_answered(
        before,
        events,
        after,
        whole,
        |kappa: Seq<char>, offset: u64, len: u64, reply: Result<Seq<u8>, StoreError>| true,
        |kappa: Seq<char>, size: Result<u64, StoreError>| true,
    );
    assert(events[0] is Resolve);
}

/// The same store fails closed in a session that has not verified the label: where the
/// bytes do not hash to it, the error names the label and what they hash to, the store
/// was told to evict them and asked once more, and nothing becomes trusted.
pub proof fn law_an_unverified_label_fails_closed<S: KappaStore>(
    plan: ArchivePlan,
    req: RequirementV,
    verified: Set<Seq<char>>,
    before: S,
    events: Seq<StoreEvent>,
    after: S,
    bytes: Seq<u8>,
)
    requires
        binds_one_whole(plan, req),
        !verified.contains(req.kappa),
        crate::kappa::kappa_label(bytes) != req.kappa,
        material_run(Ok::<ArchivePlan, LoadError>(plan), verified, events).events == events,
        exists|states: Seq<S>, calls: Seq<&mut S>| #[trigger]
            crate::store::calls_of(before, states, calls, events, after) && forall|i: int|
                0 <= i < calls.len() ==> *final(#[trigger] calls[i]) == states[i + 1],
        forall|call: &mut S, k: &str, r: Result<Vec<u8>, StoreError>| #[trigger]
            call_ensures(S::resolve, (call, k), r) && k@ == req.kappa ==> (r matches Ok(v) && v@
                == bytes),
    ensures
        ({
            let run = material_run(Ok::<ArchivePlan, LoadError>(plan), verified, events);
            &&& run.outcome == Err::<MaterialV, ArchiveErrorV>(
                ArchiveErrorV::Patch(
                    PatchErrorV::Integrity {
                        constant: req.constant,
                        derived: crate::kappa::kappa_label(bytes),
                        kappa: req.kappa,
                    },
                ),
            )
            &&& events == seq![
                StoreEvent::Resolve { kappa: req.kappa, reply: Ok(bytes) },
                StoreEvent::Invalidate { kappa: req.kappa },
                StoreEvent::Resolve { kappa: req.kappa, reply: Ok(bytes) },
            ]
            &&& run.verified == verified
        }),
{
    lemma_one_whole(plan, req, verified, events);
    let whole = |kappa: Seq<char>, reply: Result<Seq<u8>, StoreError>|
        kappa == req.kappa ==> reply == Ok::<Seq<u8>, StoreError>(bytes);
    crate::store::law_the_record_is_what_the_store_answered(
        before,
        events,
        after,
        whole,
        |kappa: Seq<char>, offset: u64, len: u64, reply: Result<Seq<u8>, StoreError>| true,
        |kappa: Seq<char>, size: Result<u64, StoreError>| true,
    );
    assert(events[0] is Resolve);
    assert(events[2] is Resolve);
}

/// An extension is the first of its key: its bytes are those at the first place where
/// the key stands, and there is none exactly where it stands nowhere.
pub proof fn law_the_first_extension_of_a_key_counts(extensions: Seq<Extension>, key: Seq<char>)
    ensures
        match extension_under(extensions, key) {
            Some(bytes) => exists|i: int|
                0 <= i < extensions.len() && (#[trigger] extensions[i]).key@ == key
                    && extensions[i].bytes@ == bytes && forall|k: int|
                    0 <= k < i ==> (#[trigger] extensions[k]).key@ != key,
            None => forall|k: int|
                0 <= k < extensions.len() ==> (#[trigger] extensions[k]).key@ != key,
        },
    decreases extensions.len(),
{
    if extensions.len() > 0 {
        if extensions[0].key@ == key {
            assert(extensions[0].key@ == key);
        } else {
            let rest = extensions.skip(1);
            law_the_first_extension_of_a_key_counts(rest, key);
            assert forall|k: int| 0 <= k < rest.len() implies #[trigger] rest[k] == extensions[k
                + 1] by {}
            match extension_under(rest, key) {
                Some(bytes) => {
                    let i = choose|i: int|
                        0 <= i < rest.len() && (#[trigger] rest[i]).key@ == key && rest[i].bytes@
                            == bytes && forall|k: int|
                            0 <= k < i ==> (#[trigger] rest[k]).key@ != key;
                    assert(extensions[i + 1].key@ == key);
                    assert forall|k: int| 0 <= k < i + 1 implies (#[trigger] extensions[k]).key@
                        != key by {
                        if k > 0 {
                            assert(rest[k - 1] == extensions[k]);
                        }
                    }
                },
                None => {
                    assert forall|k: int| 0 <= k < extensions.len() implies (
                    #[trigger] extensions[k]).key@ != key by {
                        if k > 0 {
                            assert(rest[k - 1] == extensions[k]);
                        }
                    }
                },
            }
        }
    }
}

/// The bindings of an archive are those of its κ-map: of the first extension of that
/// name, in the order of its lines. Without one there are none; extensions that cannot
/// be decoded, and a map that cannot be read, are refused as what they are.
pub proof fn law_the_bindings_are_those_of_the_map(plan: ArchivePlan, i: int)
    ensures
        requirements_of(Ok(plan)) == plan_requirements(plan),
        plan.extensions matches Err(reason) ==> plan_requirements(plan) == Err::<
            Seq<RequirementV>,
            ArchiveErrorV,
        >(ArchiveErrorV::Extensions { reason }),
        plan.extensions matches Ok(extensions) ==> (forall|k: int|
            0 <= k < extensions@.len() ==> (#[trigger] extensions@[k]).key@
                != "holospaces.kappa_map"@) ==> plan_requirements(plan) == Ok::<
            Seq<RequirementV>,
            ArchiveErrorV,
        >(Seq::empty()),
        plan.extensions matches Ok(extensions) ==> 0 <= i < extensions@.len() && extensions@[i].key@
            == "holospaces.kappa_map"@ && (forall|k: int|
            0 <= k < i ==> (#[trigger] extensions@[k]).key@ != "holospaces.kappa_map"@) ==> ({
            let map = crate::kappa_map::map_bindings(extensions@[i].bytes@);
            &&& map matches Ok(reqs) ==> plan_requirements(plan) == Ok::<
                Seq<RequirementV>,
                ArchiveErrorV,
            >(reqs)
            &&& map matches Err(e) ==> plan_requirements(plan) == Err::<
                Seq<RequirementV>,
                ArchiveErrorV,
            >(ArchiveErrorV::KappaMap(e))
        }),
{
    if let Ok(extensions) = plan.extensions {
        law_the_first_extension_of_a_key_counts(extensions@, "holospaces.kappa_map"@);
        let all = extensions@;
        if 0 <= i < all.len() && all[i].key@ == "holospaces.kappa_map"@ && (forall|k: int|
            0 <= k < i ==> (#[trigger] all[k]).key@ != "holospaces.kappa_map"@) {
            let bytes = extension_under(all, "holospaces.kappa_map"@)->0;
            let j = choose|j: int|
                0 <= j < all.len() && (#[trigger] all[j]).key@ == "holospaces.kappa_map"@
                    && all[j].bytes@ == bytes && forall|k: int|
                    0 <= k < j ==> (#[trigger] all[k]).key@ != "holospaces.kappa_map"@;
            assert(i == j) by {
                if i < j {
                    assert(all[i].key@ != "holospaces.kappa_map"@);
                }
                if j < i {
                    assert(all[j].key@ != "holospaces.kappa_map"@);
                }
            }
        }
    }
}

/// An archive with bindings is materialized by filling its constants: without constants
/// it is refused for them and the store is not asked; else what patching asked, what it
/// verified, the entries that it left and the error that stopped it are those of the
/// archive.
pub proof fn law_materializing_is_patching(
    plan: ArchivePlan,
    verified: Set<Seq<char>>,
    oracle: Seq<StoreEvent>,
)
    requires
        plan_requirements(plan) is Ok,
        plan_requirements(plan)->Ok_0.len() > 0,
    ensures
        ({
            let run = material_run(Ok(plan), verified, oracle);
            let reqs = plan_requirements(plan)->Ok_0;
            &&& plan.constants matches Err(fault) ==> run.outcome == Err::<
                MaterialV,
                ArchiveErrorV,
            >(ArchiveErrorV::Constants(fault)) && run.events.len() == 0 && run.verified == verified
            &&& plan.constants matches Ok(entries) ==> ({
                let views = crate::materialize::entry_views(entries@);
                let done = crate::materialize::patched(
                    crate::materialize::PatchState { entries: views, verified },
                    reqs,
                    oracle,
                );
                &&& run.events == done.events
                &&& run.verified == done.state.verified
                &&& done.outcome matches Err(e) ==> run.outcome == Err::<MaterialV, ArchiveErrorV>(
                    ArchiveErrorV::Patch(e),
                )
                &&& done.outcome is Ok ==> (run.outcome matches Ok(MaterialV::Patched { entries: after })
                    && after == done.state.entries)
            })
        }),
{
}

/// A rewritten archive is the one that was assembled, and fails with its error.
pub proof fn law_a_rewrite_is_what_was_assembled(archive: Seq<u8>, plan: ArchivePlan, rule: RewriteV)
    ensures
        ({
            let made = crate::archive::reassembled(archive, plan.format, plan.sections@, rule);
            let r = rewritten_archive(archive, plan, rule);
            &&& r is Ok <==> made is Ok
            &&& made matches Ok(bytes) ==> r->Ok_0 == bytes
            &&& made matches Err(e) ==> r->Err_0 == ArchiveErrorV::Assemble(e)
        }),
{
}

/// A carried archive holds the constants that the codec wrote: some bytes that the codec
/// gives for the entries are what the archive was assembled with, and where it could
/// not be, the error is that of the assembly.
pub proof fn law_a_carried_archive_holds_the_written_constants<
    F: Fn(&Vec<ConstantEntry>) -> Vec<u8>,
>(
    encode: F,
    archive: Seq<u8>,
    plan: ArchivePlan,
    entries: Seq<EntryV>,
    out: Result<Seq<u8>, ArchiveErrorV>,
)
    requires
        carries(encode, archive, plan, entries, out),
    ensures
        exists|v: Vec<ConstantEntry>, constants: Vec<u8>| #[trigger]
            call_ensures(encode, (&v,), constants) && crate::materialize::entry_views(v@) == entries
                && match crate::archive::reassembled(
                archive,
                plan.format,
                plan.sections@,
                RewriteV::Materialize { constants: constants@ },
            ) {
                Ok(bytes) => out matches Ok(b) && b == bytes,
                Err(e) => out matches Err(x) && x == ArchiveErrorV::Assemble(e),
            },
{
    let (v, constants) = choose|v: Vec<ConstantEntry>, constants: Vec<u8>|
        crate::materialize::entry_views(v@) == entries && #[trigger] call_ensures(
            encode,
            (&v,),
            constants,
        ) && out == rewritten_archive(
            archive,
            plan,
            RewriteV::Materialize { constants: constants@ },
        );
    assert(call_ensures(encode, (&v,), constants));
}

/// What stops an archive is modelled by all that it states.
pub proof fn law_archive_errors_are_modelled_whole(e: ArchiveError)
    ensures
        match e {
            ArchiveError::Load(x) => e@ == ArchiveErrorV::Load(x),
            ArchiveError::Extensions { reason } => e@ == (ArchiveErrorV::Extensions { reason }),
            ArchiveError::KappaMap(x) => e@ == ArchiveErrorV::KappaMap(x@),
            ArchiveError::Constants(x) => e@ == ArchiveErrorV::Constants(x),
            ArchiveError::Patch(x) => e@ == ArchiveErrorV::Patch(x@),
            ArchiveError::Weights { reason } => e@ == (ArchiveErrorV::Weights { reason }),
            ArchiveError::Interned { slot } => e@ == (ArchiveErrorV::Interned { slot }),
            ArchiveError::Size { kappa, cause } => e@ == (ArchiveErrorV::Size {
                kappa: kappa@,
                cause,
            }),
            ArchiveError::Digest { kappa, error } => e@ == (ArchiveErrorV::Digest {
                kappa: kappa@,
                error,
            }),
            ArchiveError::Assemble(x) => e@ == ArchiveErrorV::Assemble(x),
        },
        archive_view(Err(e)) == Err::<Seq<u8>, ArchiveErrorV>(e@),
{
}

} // verus!
