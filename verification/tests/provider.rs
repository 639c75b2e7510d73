use hologram_ai::kappa::{kappa_digest, kappa_of};
use hologram_ai::paging::WeightBindingTable;
use hologram_ai::provider::{resolve_verified, KappaWeightProvider, PageInError};
use hologram_ai::store::{JournaledStore, KappaStore, StoreError, VerifiedSet};

/// A κ-store with a shallow cache tier over a deep tier, so corruption in the
/// cache RECOVERS from the deep tier after an `invalidate`.
struct TwoTier {
    good: Vec<u8>,
    cache_corrupt: bool,
    resolves: usize,
}

impl KappaStore for TwoTier {
    fn resolve(&mut self, _kappa: &str) -> Result<Vec<u8>, StoreError> {
        self.resolves += 1;
        if self.cache_corrupt {
            Ok(b"corrupt-cache-bytes-wrong-length!".to_vec())
        } else {
            Ok(self.good.clone())
        }
    }

    fn invalidate(&mut self, _kappa: &str) {
        self.cache_corrupt = false; // the deep tier recovers
    }
}

fn fingerprint_of(body: &[u8]) -> [u8; 32] {
    *blake3::hash(body).as_bytes()
}

fn provider_for<S: KappaStore>(store: S, body: &[u8]) -> KappaWeightProvider<S> {
    let mut table = WeightBindingTable::default();
    table.insert_binding(fingerprint_of(body), kappa_of(body), body.len() as u64);
    KappaWeightProvider::new(table, store)
}

#[test]
fn provider_recovers_a_corrupt_kappa_by_invalidate_and_re_resolve() {
    let body = b"the-real-weight-body".to_vec();
    let store = TwoTier { good: body.clone(), cache_corrupt: true, resolves: 0 };
    let mut provider = provider_for(store, &body);
    let fp = fingerprint_of(&body);
    let got = provider
        .get_range(&fp, 0, body.len())
        .expect("corruption recovers from the deep tier");
    assert_eq!(got, body, "recovered content is the real body");
}

struct Empty;

impl KappaStore for Empty {
    fn resolve(&mut self, kappa: &str) -> Result<Vec<u8>, StoreError> {
        Err(StoreError::Other { reason: format!("κ `{kappa}` not present in store") })
    }
}

#[test]
fn provider_fails_closed_on_a_missing_kappa() {
    let body = b"weight".to_vec();
    let mut provider = provider_for(Empty, &body);
    let fp = fingerprint_of(&body);
    assert!(
        provider.get_range(&fp, 0, body.len()).is_none(),
        "a missing κ fails closed (None), never a wrong or unverified body"
    );
}

struct Zero;

impl KappaStore for Zero {
    fn resolve(&mut self, _kappa: &str) -> Result<Vec<u8>, StoreError> {
        Ok(Vec::new())
    }
}

#[test]
fn provider_serves_a_zero_byte_weight() {
    let body: &[u8] = &[];
    let mut provider = provider_for(Zero, body);
    let fp = fingerprint_of(body);
    let got = provider
        .get_range(&fp, 0, 0)
        .expect("a 0-byte weight resolves");
    assert!(got.is_empty());
}

struct WrongLen;

impl KappaStore for WrongLen {
    fn resolve(&mut self, _kappa: &str) -> Result<Vec<u8>, StoreError> {
        Ok(vec![0u8; 8]) // real body is 8 bytes …
    }
}

#[test]
fn provider_fails_closed_when_the_stat_disagrees_with_the_body() {
    let mut table = WeightBindingTable::default();
    let fp = fingerprint_of(&[0u8; 8]);
    table.insert_binding(fp, kappa_of(&[0u8; 8]), 16); // … but the stat said 16
    let mut provider = KappaWeightProvider::new(table, WrongLen);
    assert!(
        provider.get_range(&fp, 0, 8).is_none(),
        "a stat/body length disagreement fails closed"
    );
}

#[test]
fn a_provider_serves_ranges_of_what_it_knows() {
    let body = b"0123456789".to_vec();
    let store = TwoTier { good: body.clone(), cache_corrupt: false, resolves: 0 };
    let mut provider = provider_for(store, &body);
    let fp = kappa_digest(&kappa_of(&body)).unwrap();
    assert_eq!(provider.size(&fp), Some(10));
    assert_eq!(provider.total_bytes(), 10);
    assert_eq!(provider.checked_total_bytes(), Some(10));
    assert_eq!(provider.get_range(&fp, 2, 3), Some(b"234".to_vec()));
    assert_eq!(provider.get_range(&fp, 9, 2), None);
    assert_eq!(provider.get_range(&fp, usize::MAX, 2), None);
    assert_eq!(provider.size(&[0; 32]), None);
    assert_eq!(provider.get_range(&[0; 32], 0, 0), None);
}

#[test]
fn verification_happens_once_and_corruption_is_told_apart() {
    let body = b"body".to_vec();
    let kappa = kappa_of(&body);
    let mut verified = VerifiedSet::new();
    let mut store = JournaledStore::new(TwoTier {
        good: body.clone(),
        cache_corrupt: true,
        resolves: 0,
    });
    assert_eq!(
        resolve_verified(&mut store, &mut verified, &kappa, 4).expect("recovers"),
        body
    );
    assert!(verified.contains(&kappa));
    resolve_verified(&mut store, &mut verified, &kappa, 4).expect("known");
    assert_eq!(store.into_inner().resolves, 3);

    let mut store = JournaledStore::new(Zero);
    let mut fresh = VerifiedSet::new();
    assert!(matches!(
        resolve_verified(&mut store, &mut fresh, &kappa, 4),
        Err(PageInError::Integrity)
    ));
    let mut store = JournaledStore::new(Empty);
    assert!(matches!(
        resolve_verified(&mut store, &mut fresh, &kappa, 4),
        Err(PageInError::Store(StoreError::Other { .. }))
    ));
}
