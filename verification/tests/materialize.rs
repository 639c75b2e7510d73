use hologram_ai::archive::{
    reassemble, rebuild_archive, AssembleError, Format, Rewrite, SectionKind, SectionRef,
};
use hologram_ai::kappa::{kappa_digest, kappa_file_name, kappa_of, DigestError};
use hologram_ai::kappa_map::{KappaRequirement, MapError};
use hologram_ai::materialize::{patch_constants, ConstantEntry, PatchError};
use hologram_ai::paging::{paged_archive, paged_archive_with, WeightBindingTable};
use hologram_ai::plan::{
    canonicalize_archive, kappa_requirements, materialize_archive, materialize_archive_with,
    ArchiveError, ArchivePlan, ConstantsFault, Extension, InternedWeight, LoadError,
    KAPPA_MAP_EXTENSION,
};
use hologram_ai::store::{
    ranged_reply, seek_reply, DirKappaStore, JournaledStore, KappaStore, StoreError, VerifiedSet,
};
use hologram_ai::weights::WeightsError;

/// A store over a list of labels and contents, with a deeper tier behind it.
struct Tiers {
    cache: Vec<(String, Vec<u8>)>,
    deep: Vec<(String, Vec<u8>)>,
    resolves: usize,
    ranged: usize,
}

impl Tiers {
    fn of(cache: Vec<(String, Vec<u8>)>) -> Tiers {
        Tiers { cache, deep: Vec::new(), resolves: 0, ranged: 0 }
    }
}

impl KappaStore for Tiers {
    fn resolve(&mut self, kappa: &str) -> Result<Vec<u8>, StoreError> {
        self.resolves += 1;
        self.cache
            .iter()
            .chain(self.deep.iter())
            .find(|(k, _)| k == kappa)
            .map(|(_, content)| content.clone())
            .ok_or_else(|| StoreError::Missing { kappa: kappa.to_string() })
    }

    fn invalidate(&mut self, kappa: &str) {
        self.cache.retain(|(k, _)| k != kappa);
    }

    fn resolve_range(&mut self, kappa: &str, offset: u64, len: u64) -> Result<Vec<u8>, StoreError> {
        self.ranged += 1;
        let content = self.resolve(kappa)?;
        self.resolves -= 1;
        ranged_reply(&content, kappa, offset, len)
    }
}

/// A store that only resolves.
struct Plain(Vec<u8>);

impl KappaStore for Plain {
    fn resolve(&mut self, _kappa: &str) -> Result<Vec<u8>, StoreError> {
        Ok(self.0.clone())
    }
}

fn placeholder(slot: u32) -> ConstantEntry {
    ConstantEntry { slot, bytes: Vec::new(), by_reference: false, fingerprint: [0; 32] }
}

fn encode(entries: &Vec<ConstantEntry>) -> Vec<u8> {
    let mut out = Vec::new();
    for e in entries {
        out.push(e.slot as u8);
        out.push(e.by_reference as u8);
        if e.by_reference {
            out.extend_from_slice(&e.fingerprint);
        } else {
            out.extend_from_slice(&e.bytes);
        }
    }
    out
}

const FORMAT: Format = Format { magic: *b"HOLO", version: 2 };

const ARCHIVE: &[u8] = b"constwarmgraph";

fn sections() -> Vec<SectionRef> {
    vec![
        SectionRef { kind: SectionKind::Constants, tag: 3, offset: 0, length: 5 },
        SectionRef { kind: SectionKind::WarmStart, tag: 9, offset: 5, length: 4 },
        SectionRef { kind: SectionKind::Other, tag: 1, offset: 9, length: 5 },
    ]
}

fn plan(entries: Vec<ConstantEntry>, map: Option<String>) -> ArchivePlan {
    let extensions = match map {
        Some(text) => vec![Extension {
            key: KAPPA_MAP_EXTENSION.to_string(),
            bytes: text.into_bytes(),
        }],
        None => vec![],
    };
    ArchivePlan {
        format: FORMAT,
        sections: sections(),
        extensions: Ok(extensions),
        beside_map: None,
        constants: Ok(entries),
        weights: None,
    }
}

fn emitted(payloads: &[(u8, &[u8])]) -> Vec<u8> {
    let mut out = b"HOLO".to_vec();
    out.extend_from_slice(&2u16.to_le_bytes());
    out.extend_from_slice(&0u16.to_le_bytes());
    out.extend_from_slice(&(payloads.len() as u16).to_le_bytes());
    let mut offset = 10 + 24 * payloads.len() as u64;
    for (tag, body) in payloads {
        out.push(*tag);
        out.extend_from_slice(&[0; 7]);
        out.extend_from_slice(&offset.to_le_bytes());
        out.extend_from_slice(&(body.len() as u64).to_le_bytes());
        offset += body.len() as u64;
    }
    for (_, body) in payloads {
        out.extend_from_slice(body);
    }
    let footer = blake3::hash(&out);
    out.extend_from_slice(footer.as_bytes());
    out
}

/// Deterministic non-trivial 4×4 weight bytes.
fn weight_bytes() -> Vec<u8> {
    let vals: Vec<f32> = (0..16).map(|i| (i as f32) * 0.25 - 1.5).collect();
    vals.iter().flat_map(|v| v.to_le_bytes()).collect()
}

#[test]
fn material_archive_passes_through() {
    // What is not an archive must fail loud, proving that nothing else is ever
    // silently passed through.
    let mut store = JournaledStore::new(Tiers::of(vec![]));
    let loaded = Err(LoadError::Archive { reason: "BadMagic".to_string() });
    assert!(materialize_archive(b"not an archive", loaded, encode, &mut store).is_err());

    // An archive with no κ-map is already material: identity.
    let loaded = Ok(plan(vec![placeholder(0)], None));
    let out = materialize_archive(ARCHIVE, loaded, encode, &mut store).expect("material");
    assert_eq!(out, ARCHIVE);
    assert_eq!(store.into_inner().resolves, 0);
}

#[test]
fn a_placeholder_is_filled_and_the_archive_sealed_again() {
    let w = weight_bytes();
    let kappa = kappa_of(&w);
    let map = format!("ConstantId(1):{kappa}\n");
    let entries = vec![placeholder(4), placeholder(5)];
    let loaded = Ok(plan(entries, Some(map)));
    let reqs = kappa_requirements(&loaded).expect("κ-map parses");
    assert_eq!(reqs.len(), 1, "one external weight → one requirement");
    assert_eq!(reqs[0].kappa, kappa);

    let mut store = JournaledStore::new(Tiers::of(vec![(kappa, w.clone())]));
    let out = materialize_archive(ARCHIVE, loaded, encode, &mut store).expect("materializes");
    let mut constants = vec![4, 0, 5, 0];
    constants.extend_from_slice(&w);
    assert_eq!(out, emitted(&[(3, constants.as_slice()), (1, &b"graph"[..])]));

    let inline = Ok(plan(vec![placeholder(0)], None));
    assert!(
        kappa_requirements(&inline).expect("no κ-map is fine").is_empty(),
        "inline archives carry no κ-map"
    );
}

#[test]
fn missing_kappa_aborts_naming_the_label() {
    let kappa = kappa_of(&weight_bytes());
    let map = format!("ConstantId(0):{kappa}\n");
    let loaded = Ok(plan(vec![placeholder(0)], Some(map)));
    let mut store = JournaledStore::new(Tiers::of(vec![]));
    let err = materialize_archive(ARCHIVE, loaded, encode, &mut store)
        .expect_err("an empty store cannot materialize");
    let msg = format!("{err:?}");
    assert!(msg.contains(&kappa), "error must name the missing κ: {msg}");
    assert!(matches!(err, ArchiveError::Patch(PatchError::Resolve { .. })));
}

#[test]
fn corrupt_store_content_fails_integrity() {
    let w = weight_bytes();
    let kappa = kappa_of(&w);
    let map = format!("ConstantId(0):{kappa}\n");
    let mut wrong = w;
    wrong[0] ^= 0xFF;
    let derived = kappa_of(&wrong);
    let loaded = Ok(plan(vec![placeholder(0)], Some(map)));
    let mut store = JournaledStore::new(Tiers::of(vec![(kappa.clone(), wrong)]));
    let err = materialize_archive(ARCHIVE, loaded, encode, &mut store)
        .expect_err("corrupt content must not materialize");
    match err {
        ArchiveError::Patch(PatchError::Integrity { constant, derived: d, kappa: k }) => {
            assert_eq!((constant, d, k), (0, derived, kappa));
        }
        other => panic!("error must be the κ integrity failure: {other:?}"),
    }
}

#[test]
fn corruption_recovers_from_a_deeper_tier() {
    let w = weight_bytes();
    let kappa = kappa_of(&w);
    let mut tiers = Tiers::of(vec![(kappa.clone(), b"corrupt".to_vec())]);
    tiers.deep = vec![(kappa.clone(), w.clone())];
    let mut store = JournaledStore::new(tiers);
    let mut verified = VerifiedSet::new();
    let mut entries = vec![placeholder(0)];
    let reqs = vec![KappaRequirement { constant: 0, kappa: kappa.clone(), range: None }];
    patch_constants(&mut entries, &reqs, &mut store, &mut verified).expect("recovers");
    assert_eq!(entries[0].bytes, w);
    assert!(verified.contains(&kappa));
    assert_eq!(store.into_inner().resolves, 2);
}

#[test]
fn a_verified_range_moves_only_its_slice() {
    let w = weight_bytes();
    let kappa = kappa_of(&w);
    let ranged = |constant, offset, len| KappaRequirement {
        constant,
        kappa: kappa.clone(),
        range: Some((offset, len)),
    };
    let mut store = JournaledStore::new(Tiers::of(vec![(kappa.clone(), w.clone())]));
    let mut verified = VerifiedSet::new();
    let mut entries = vec![placeholder(0), placeholder(1)];
    let reqs = vec![ranged(0, 0, 16), ranged(1, 16, 48)];
    patch_constants(&mut entries, &reqs, &mut store, &mut verified).expect("both slices");
    assert_eq!(entries[0].bytes, w[..16]);
    assert_eq!(entries[1].bytes, w[16..]);
    let tiers = store.into_inner();
    assert_eq!((tiers.resolves, tiers.ranged), (1, 1));
}

fn patch_fault(entries: Vec<ConstantEntry>, req: KappaRequirement, store: Tiers) -> PatchError {
    let mut entries = entries;
    let mut verified = VerifiedSet::new();
    let mut store = JournaledStore::new(store);
    patch_constants(&mut entries, &vec![req], &mut store, &mut verified).expect_err("refused")
}

#[test]
fn each_refused_constant_has_its_own_error() {
    let w = weight_bytes();
    let kappa = kappa_of(&w);
    let req = |constant, range| KappaRequirement { constant, kappa: kappa.clone(), range };
    let full = || Tiers::of(vec![(kappa.clone(), w.clone())]);

    assert!(matches!(patch_fault(vec![], req(0, None), full()), PatchError::Empty));
    assert!(matches!(
        patch_fault(vec![placeholder(0)], req(1, None), full()),
        PatchError::MissingEntry { constant: 1 }
    ));
    assert!(matches!(
        patch_fault(vec![placeholder(2), placeholder(9)], req(1, None), full()),
        PatchError::Drift { constant: 1, slot: 9 }
    ));
    let by_reference = ConstantEntry { by_reference: true, ..placeholder(0) };
    assert!(matches!(
        patch_fault(vec![by_reference], req(0, None), full()),
        PatchError::Reference { constant: 0 }
    ));
    let material = ConstantEntry { bytes: vec![1, 2], ..placeholder(0) };
    assert!(matches!(
        patch_fault(vec![material], req(0, None), full()),
        PatchError::Material { constant: 0, size: 2 }
    ));
    assert!(matches!(
        patch_fault(vec![placeholder(0)], req(0, Some((60, 5))), full()),
        PatchError::Range { constant: 0, offset: 60, len: 5, size: 64, .. }
    ));

    let mut entries = vec![placeholder(0)];
    let mut verified = VerifiedSet::new();
    verified.insert(&kappa);
    let mut store = JournaledStore::new(full());
    let r = patch_constants(
        &mut entries,
        &vec![req(0, Some((60, 5)))],
        &mut store,
        &mut verified,
    );
    assert!(matches!(
        r,
        Err(PatchError::ResolveRange { offset: 60, len: 5, .. })
    ));
}

#[test]
fn each_unreadable_archive_has_its_own_error() {
    let kappa = kappa_of(b"w");
    let map = Some(format!("ConstantId(0):{kappa}\n"));
    let run = |p: ArchivePlan| {
        let mut store = JournaledStore::new(Plain(b"w".to_vec()));
        materialize_archive(ARCHIVE, Ok(p), encode, &mut store)
    };
    let broken = ArchivePlan {
        extensions: Err("truncated".to_string()),
        ..plan(vec![placeholder(0)], None)
    };
    assert!(matches!(run(broken), Err(ArchiveError::Extensions { .. })));
    let garbled = plan(vec![placeholder(0)], Some("garbage".to_string()));
    assert!(matches!(
        run(garbled),
        Err(ArchiveError::KappaMap(MapError::Line { .. }))
    ));
    let absent = ArchivePlan {
        constants: Err(ConstantsFault::Absent { reason: "none".to_string() }),
        ..plan(vec![], map.clone())
    };
    assert!(matches!(
        run(absent),
        Err(ArchiveError::Constants(ConstantsFault::Absent { .. }))
    ));
    let mut outside = plan(vec![placeholder(0)], map);
    outside.sections[2].length = 6;
    assert!(matches!(
        run(outside),
        Err(ArchiveError::Assemble(AssembleError::SectionRange))
    ));
    let unloaded: Result<ArchivePlan, LoadError> =
        Err(LoadError::Sections { reason: "cut".to_string() });
    assert!(matches!(
        kappa_requirements(&unloaded),
        Err(ArchiveError::Load(LoadError::Sections { .. }))
    ));
}

#[test]
fn a_session_verifies_a_label_once() {
    let w = weight_bytes();
    let kappa = kappa_of(&w);
    let map = format!("ConstantId(0):{kappa}\n");
    let mut verified = VerifiedSet::new();
    let mut store = JournaledStore::new(Tiers::of(vec![(kappa.clone(), w)]));
    let loaded = Ok(plan(vec![placeholder(0)], Some(map)));
    materialize_archive_with(ARCHIVE, loaded, encode, &mut store, &mut verified)
        .expect("materializes");
    assert!(verified.contains(&kappa));
    assert!(!verified.contains("blake3:0000"));
}

/// A store that answers every label with the same bytes, and counts what it is asked.
struct Stubborn {
    bytes: Vec<u8>,
    resolves: usize,
    evictions: usize,
}

impl KappaStore for Stubborn {
    fn resolve(&mut self, _kappa: &str) -> Result<Vec<u8>, StoreError> {
        self.resolves += 1;
        Ok(self.bytes.clone())
    }

    fn invalidate(&mut self, _kappa: &str) {
        self.evictions += 1;
    }
}

#[test]
fn a_verified_label_is_taken_as_it_comes() {
    let kappa = kappa_of(b"the content");
    let map = format!("ConstantId(0):{kappa}\n");
    let stubborn = || Stubborn { bytes: b"other".to_vec(), resolves: 0, evictions: 0 };

    let mut verified = VerifiedSet::new();
    verified.insert(&kappa);
    let mut store = JournaledStore::new(stubborn());
    let loaded = Ok(plan(vec![placeholder(0)], Some(map.clone())));
    let out = materialize_archive_with(ARCHIVE, loaded, encode, &mut store, &mut verified)
        .expect("the session trusts the label");
    assert_eq!(out, emitted(&[(3, &b"\x00\x00other"[..]), (1, &b"graph"[..])]));
    let store = store.into_inner();
    assert_eq!((store.resolves, store.evictions), (1, 0));

    // A session that has not verified the label fails closed on the same store.
    let mut verified = VerifiedSet::new();
    let mut store = JournaledStore::new(stubborn());
    let loaded = Ok(plan(vec![placeholder(0)], Some(map)));
    let refused = materialize_archive_with(ARCHIVE, loaded, encode, &mut store, &mut verified);
    assert!(matches!(
        refused,
        Err(ArchiveError::Patch(PatchError::Integrity { constant: 0, derived, kappa: k }))
            if derived == kappa_of(b"other") && k == kappa
    ));
    assert!(!verified.contains(&kappa));
    let store = store.into_inner();
    assert_eq!((store.resolves, store.evictions), (2, 1));
}

/// A store that sizes without reading.
struct Sizer {
    content: Vec<u8>,
    resolves: usize,
}

impl KappaStore for Sizer {
    fn resolve(&mut self, _kappa: &str) -> Result<Vec<u8>, StoreError> {
        self.resolves += 1;
        Ok(self.content.clone())
    }

    fn content_size(&mut self, _kappa: &str) -> Result<u64, StoreError> {
        Ok(self.content.len() as u64)
    }
}

#[test]
fn a_label_bound_whole_is_only_sized() {
    let w = weight_bytes();
    let kappa = kappa_of(&w);
    let loaded = Ok(plan(vec![placeholder(0)], Some(format!("ConstantId(0):{kappa}\n"))));
    let mut store = JournaledStore::new(Sizer { content: w.clone(), resolves: 0 });
    let paged = paged_archive(ARCHIVE, loaded, encode, &mut store).expect("pages");
    assert_eq!(store.into_inner().resolves, 0);
    assert_eq!(paged.table.len(), 1);
    let digest = kappa_digest(&kappa).unwrap();
    assert_eq!(paged.table.resolve(&digest), Some((kappa.as_str(), w.len() as u64)));
}

#[test]
fn sections_are_rewritten_in_order() {
    let out = rebuild_archive(ARCHIVE, &FORMAT, &sections(), b"new".to_vec());
    assert_eq!(out, Ok(emitted(&[(3, &b"new"[..]), (1, &b"graph"[..])])));
    let kept = reassemble(ARCHIVE, &FORMAT, &sections(), &Rewrite::Canonicalize);
    assert_eq!(
        kept,
        Ok(emitted(&[(3, &b"const"[..]), (9, &b"warm"[..]), (1, &b"graph"[..])]))
    );
    let mut cut = sections();
    cut[1].kind = SectionKind::Weights;
    let paged = reassemble(
        ARCHIVE,
        &FORMAT,
        &cut,
        &Rewrite::Page { constants: b"c".to_vec(), beside_map: None },
    );
    assert_eq!(paged, Ok(emitted(&[(3, &b"c"[..]), (1, &b"graph"[..])])));
    assert_eq!(
        reassemble(ARCHIVE, &FORMAT, &cut, &Rewrite::Canonicalize),
        Err(AssembleError::Weights(WeightsError::Fingerprint))
    );
}

#[test]
fn canonicalizing_sorts_the_weights_and_is_idempotent() {
    let weight = |byte: u8| {
        let mut out = vec![byte; 32];
        out.extend_from_slice(&1u64.to_le_bytes());
        out.push(byte);
        out
    };
    let mut section = 2u32.to_le_bytes().to_vec();
    section.extend_from_slice(&weight(9));
    section.extend_from_slice(&weight(4));
    let refs = |offset: u64| {
        vec![SectionRef {
            kind: SectionKind::Weights,
            tag: 7,
            offset,
            length: section.len() as u64,
        }]
    };
    let with = |offset: u64| {
        Ok(ArchivePlan { sections: refs(offset), ..plan(vec![], None) })
    };
    let once = canonicalize_archive(&section, &with(0)).expect("canonical");
    let mut sorted = 2u32.to_le_bytes().to_vec();
    sorted.extend_from_slice(&weight(4));
    sorted.extend_from_slice(&weight(9));
    assert_eq!(once, emitted(&[(7, sorted.as_slice())]));
    // The same weights in another order come to the same archive.
    assert_eq!(canonicalize_archive(&sorted, &with(0)).expect("canonical"), once);
    assert_eq!(canonicalize_archive(&once, &with(34)).expect("again"), once);
}

#[test]
fn canonicalizing_an_archive_without_weights_changes_nothing() {
    let archive = emitted(&[(3, &b"const"[..]), (1, &b"graph"[..])]);
    let refs = vec![
        SectionRef { kind: SectionKind::Constants, tag: 3, offset: 58, length: 5 },
        SectionRef { kind: SectionKind::Other, tag: 1, offset: 63, length: 5 },
    ];
    let loaded = Ok(ArchivePlan { sections: refs, ..plan(vec![], None) });
    assert_eq!(canonicalize_archive(&archive, &loaded).expect("canonical"), archive);
}

#[test]
fn a_paged_archive_names_its_weights_and_holds_none() {
    let w = weight_bytes();
    let kappa = kappa_of(&w);
    let map = format!("ConstantId(1):{kappa}\n");
    let interned = ConstantEntry {
        by_reference: true,
        fingerprint: [5; 32],
        ..placeholder(4)
    };
    let loaded = Ok(ArchivePlan {
        weights: Some(Ok(vec![InternedWeight { fingerprint: [5; 32], body: b"pool".to_vec() }])),
        ..plan(vec![interned, placeholder(5)], Some(map))
    });
    let mut store = JournaledStore::new(Tiers::of(vec![(kappa.clone(), w.clone())]));
    let paged = paged_archive(ARCHIVE, loaded, encode, &mut store).expect("pages");
    let digest = kappa_digest(&kappa).unwrap();
    let mut constants = vec![4, 0];
    constants.extend_from_slice(b"pool");
    constants.extend_from_slice(&[5, 1]);
    constants.extend_from_slice(&digest);
    assert_eq!(
        paged.archive,
        emitted(&[(3, constants.as_slice()), (1, &b"graph"[..])])
    );
    assert_eq!(paged.table.len(), 1);
    assert!(!paged.table.is_empty());
    assert_eq!(paged.table.total_bytes(), w.len() as u64);
    assert_eq!(
        paged.table.resolve(&digest),
        Some((kappa.as_str(), w.len() as u64))
    );
    assert_eq!(paged.table.resolve(&[0; 32]), None);
}

/// A loader of a small format: constants under tag 3, a warm start under tag 9, and
/// under tag 5 one extension a section, its key and a `=` before its bytes.
fn load(archive: &[u8], entries: Vec<ConstantEntry>) -> Result<ArchivePlan, LoadError> {
    let number = |at: usize| u64::from_le_bytes(archive[at..at + 8].try_into().unwrap());
    let count = u16::from_le_bytes([archive[8], archive[9]]) as usize;
    let mut sections = Vec::new();
    let mut extensions = Vec::new();
    for i in 0..count {
        let at = 10 + 24 * i;
        let (tag, offset, length) = (archive[at], number(at + 8), number(at + 16));
        let body = &archive[offset as usize..(offset + length) as usize];
        let kind = match tag {
            3 => SectionKind::Constants,
            9 => SectionKind::WarmStart,
            5 => {
                let split = body.iter().position(|b| *b == b'=').expect("a key");
                let key = String::from_utf8(body[..split].to_vec()).expect("a text key");
                let is_map = key == KAPPA_MAP_EXTENSION;
                extensions.push(Extension { key, bytes: body[split + 1..].to_vec() });
                if is_map {
                    SectionKind::KappaMap
                } else {
                    SectionKind::Other
                }
            }
            _ => SectionKind::Other,
        };
        sections.push(SectionRef { kind, tag, offset, length });
    }
    Ok(ArchivePlan {
        format: FORMAT,
        sections,
        extensions: Ok(extensions),
        beside_map: None,
        constants: Ok(entries),
        weights: None,
    })
}

#[test]
fn a_paged_archive_states_no_bindings() {
    let w = weight_bytes();
    let kappa = kappa_of(&w);
    let map = format!("{KAPPA_MAP_EXTENSION}=ConstantId(0):{kappa}\n");
    let tokenizer = b"tokenizer.json={}";
    let kform = emitted(&[
        (3, &b"const"[..]),
        (5, map.as_bytes()),
        (9, &b"warm"[..]),
        (5, &tokenizer[..]),
        (1, &b"graph"[..]),
    ]);
    let loaded = load(&kform, vec![placeholder(0)]);
    assert_eq!(kappa_requirements(&loaded).expect("a map").len(), 1);

    let mut store = JournaledStore::new(Tiers::of(vec![(kappa.clone(), w.clone())]));
    let paged = paged_archive(&kform, loaded, encode, &mut store).expect("pages");
    let mut constants = vec![0, 1];
    constants.extend_from_slice(&kappa_digest(&kappa).unwrap());
    assert_eq!(
        paged.archive,
        emitted(&[(3, constants.as_slice()), (5, &tokenizer[..]), (1, &b"graph"[..])])
    );
    let again = load(&paged.archive, vec![placeholder(0)]);
    assert_eq!(kappa_requirements(&again).expect("no map"), vec![]);
    // The label that pages is in the table, and paging once more changes nothing.
    assert_eq!(paged.table.len(), 1);
    let twice = paged_archive(&paged.archive, again, encode, &mut store).expect("material");
    assert_eq!(twice.archive, paged.archive);
    assert!(twice.table.is_empty());

    // Materializing keeps the map.
    let loaded = load(&kform, vec![placeholder(0)]);
    let out = materialize_archive(&kform, loaded, encode, &mut store).expect("materializes");
    let kept = load(&out, vec![]);
    assert_eq!(kappa_requirements(&kept).expect("a map").len(), 1);
}

#[test]
fn what_stands_beside_the_map_stays() {
    let mut shared = sections();
    shared[2].kind = SectionKind::KappaMap;
    let rule = Rewrite::Page { constants: b"c".to_vec(), beside_map: Some(b"rest".to_vec()) };
    let paged = reassemble(ARCHIVE, &FORMAT, &shared, &rule);
    assert_eq!(paged, Ok(emitted(&[(3, &b"c"[..]), (1, &b"rest"[..])])));
    let rule = Rewrite::Page { constants: b"c".to_vec(), beside_map: None };
    let alone = reassemble(ARCHIVE, &FORMAT, &shared, &rule);
    assert_eq!(alone, Ok(emitted(&[(3, &b"c"[..])])));

    let kappa = kappa_of(b"w");
    let loaded = Ok(ArchivePlan {
        sections: shared,
        beside_map: Some(b"rest".to_vec()),
        ..plan(vec![placeholder(0)], Some(format!("ConstantId(0):{kappa}\n")))
    });
    let mut store = JournaledStore::new(Tiers::of(vec![(kappa.clone(), b"w".to_vec())]));
    let paged = paged_archive(ARCHIVE, loaded, encode, &mut store).expect("pages");
    let mut constants = vec![0, 1];
    constants.extend_from_slice(&kappa_digest(&kappa).unwrap());
    assert_eq!(
        paged.archive,
        emitted(&[(3, constants.as_slice()), (1, &b"rest"[..])])
    );
}

#[test]
fn a_material_archive_pages_to_itself() {
    let mut store = JournaledStore::new(Tiers::of(vec![]));
    let mut verified = VerifiedSet::new();
    let loaded = Ok(plan(vec![placeholder(0)], None));
    let paged = paged_archive_with(ARCHIVE, loaded, encode, &mut store, &mut verified)
        .expect("material");
    assert_eq!(paged.archive, ARCHIVE);
    assert!(paged.table.is_empty());
}

#[test]
fn each_unpageable_archive_has_its_own_error() {
    let kappa = kappa_of(b"w");
    let map = |k: &str| Some(format!("ConstantId(0):{k}\n"));
    let run = |p: ArchivePlan, store: Tiers| {
        paged_archive(ARCHIVE, Ok(p), encode, &mut JournaledStore::new(store)).map(|p| p.archive)
    };
    let missing = run(plan(vec![placeholder(0)], map(&kappa)), Tiers::of(vec![]));
    assert!(matches!(missing, Err(ArchiveError::Size { .. })), "{missing:?}");
    let malformed = run(
        plan(vec![placeholder(0)], map("blake3:short")),
        Tiers::of(vec![("blake3:short".to_string(), b"w".to_vec())]),
    );
    assert!(
        matches!(
            malformed,
            Err(ArchiveError::Digest { error: DigestError::Length(5), .. })
        ),
        "{malformed:?}"
    );
    let interned = || ConstantEntry { by_reference: true, ..placeholder(1) };
    let holding = || Tiers::of(vec![(kappa.clone(), b"w".to_vec())]);
    let unknown = run(plan(vec![placeholder(0), interned()], map(&kappa)), holding());
    assert!(
        matches!(unknown, Err(ArchiveError::Interned { slot: 1 })),
        "{unknown:?}"
    );
    let cut = ArchivePlan {
        weights: Some(Err("cut".to_string())),
        ..plan(vec![placeholder(0), interned()], map(&kappa))
    };
    let cut = run(cut, holding());
    assert!(matches!(cut, Err(ArchiveError::Weights { .. })), "{cut:?}");
}

#[test]
fn the_default_store_slices_and_measures() {
    let mut store = Plain(b"abcdef".to_vec());
    assert_eq!(store.resolve_range("k", 1, 3), Ok(b"bcd".to_vec()));
    assert_eq!(store.content_size("k"), Ok(6));
    store.invalidate("k");
    assert_eq!(
        store.resolve_range("k", 5, 2),
        Err(StoreError::Range { kappa: "k".to_string(), offset: 5, len: 2, size: 6 })
    );
}

#[test]
fn a_seekable_tier_must_give_what_was_asked() {
    assert_eq!(seek_reply(None, "k", 0, 2), Ok(None));
    assert_eq!(seek_reply(Some(vec![1, 2]), "k", 0, 2), Ok(Some(vec![1, 2])));
    assert_eq!(
        seek_reply(Some(vec![1]), "k", 0, 2),
        Err(StoreError::Range { kappa: "k".to_string(), offset: 0, len: 2, size: 1 })
    );
}

#[test]
fn a_directory_files_content_under_its_label() {
    let store = DirKappaStore::new("/store");
    assert_eq!(store.root(), "/store");
    let entry = store.entry_for(b"tensor-bytes");
    assert_eq!(entry.kappa, kappa_of(b"tensor-bytes"));
    assert_eq!(entry.file_name, kappa_file_name(&entry.kappa));
}

#[test]
fn a_binding_table_keeps_the_last_binding_of_a_fingerprint() {
    let mut table = WeightBindingTable::default();
    assert_eq!(table.total_bytes(), 0);
    table.insert_binding([1; 32], "a".to_string(), 10);
    table.insert_binding([2; 32], "b".to_string(), 5);
    table.insert_binding([1; 32], "c".to_string(), 7);
    assert_eq!(table.len(), 2);
    assert_eq!(table.total_bytes(), 12);
    assert_eq!(table.checked_total_bytes(), Some(12));
    table.insert_binding([3; 32], "d".to_string(), u64::MAX - 12);
    assert_eq!(table.total_bytes(), u64::MAX);
    table.insert_binding([4; 32], "e".to_string(), 1);
    assert_eq!(table.checked_total_bytes(), None);
    assert_eq!(table.resolve(&[1; 32]), Some(("c", 7)));
}
