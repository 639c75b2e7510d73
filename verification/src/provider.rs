//! Serving paged weights from a κ-store.

use crate::bytes::slice_range;
use crate::kappa::kappa_of;
use crate::paging::{BindingV, WeightBindingTable};
use crate::store::{JournaledStore, KappaStore, StoreError, StoreEvent, VerifiedSet};
use crate::text::same_text;
use vstd::prelude::*;

verus! {

/// Why a content could not be paged in.
#[derive(Debug)]
pub enum PageInError {
    /// The store did not answer.
    Store(StoreError),
    /// The content does not hash to its label, nor does what came after it was
    /// evicted.
    Integrity,
}

/// What paging in a content did.
#[verifier::ext_equal]
pub struct PageIn {
    pub outcome: Result<Seq<u8>, PageInError>,
    pub verified: Set<Seq<char>>,
    pub events: Seq<StoreEvent>,
}

/// Page in the content of a label of `size` bytes.
///
/// A verified label is read without a second hash. The first touch of a label
/// is verified; content that fails is evicted and asked for once more.
pub open spec fn page_in(
    verified: Set<Seq<char>>,
    kappa: Seq<char>,
    size: u64,
    oracle: Seq<StoreEvent>,
) -> PageIn {
    if verified.contains(kappa) {
        let reply = crate::store::resolved_range(oracle[0]);
        PageIn {
            outcome: match reply {
                Ok(b) => Ok(b),
                Err(e) => Err(PageInError::Store(e)),
            },
            verified,
            events: seq![StoreEvent::ResolveRange { kappa, offset: 0, len: size, reply }],
        }
    } else {
        let first = crate::store::resolved(oracle[0]);
        let asked = seq![StoreEvent::Resolve { kappa, reply: first }];
        match first {
            Err(e) => PageIn { outcome: Err(PageInError::Store(e)), verified, events: asked },
            Ok(content) => if crate::kappa::kappa_label(content) == kappa {
                PageIn { outcome: Ok(content), verified: verified.insert(kappa), events: asked }
            } else {
                let second = crate::store::resolved(oracle[2]);
                let retried = asked + seq![
                    StoreEvent::Invalidate { kappa },
                    StoreEvent::Resolve { kappa, reply: second },
                ];
                match second {
                    Err(e) => PageIn {
                        outcome: Err(PageInError::Store(e)),
                        verified,
                        events: retried,
                    },
                    Ok(recovered) => if crate::kappa::kappa_label(recovered) == kappa {
                        PageIn {
                            outcome: Ok(recovered),
                            verified: verified.insert(kappa),
                            events: retried,
                        }
                    } else {
                        PageIn {
                            outcome: Err(PageInError::Integrity),
                            verified,
                            events: retried,
                        }
                    },
                }
            },
        }
    }
}

/// The model of a paged content.
pub open spec fn paged_view(r: Result<Vec<u8>, PageInError>) -> Result<Seq<u8>, PageInError> {
    match r {
        Ok(v) => Ok(v@),
        Err(e) => Err(e),
    }
}

/// Resolve `kappa`, whose content has `size` bytes, and verify it where the
/// session has not.
pub fn resolve_verified<S: KappaStore>(
    store: &mut JournaledStore<S>,
    verified: &mut VerifiedSet,
    kappa: &str,
    size: u64,
) -> (r: Result<Vec<u8>, PageInError>)
    ensures
        ({
            let t = crate::store::gained(old(store)@, final(store)@);
            &&& final(store)@ == old(store)@ + t
            &&& page_in(old(verified)@, kappa@, size, t) == (PageIn {
                outcome: paged_view(r),
                verified: final(verified)@,
                events: t,
            })
        }),
        exists|states: Seq<S>, calls: Seq<&mut S>| #[trigger]
            crate::store::calls_of(
                old(store).inner(),
                states,
                calls,
                crate::store::gained(old(store)@, final(store)@),
                final(store).inner(),
            ) && forall|i: int|
                0 <= i < calls.len() ==> *final(#[trigger] calls[i]) == states[i + 1],
{
    let ghost journal = store@;
    let ghost begun = *store;
    if verified.contains(kappa) {
        let reply = store.resolve_range(kappa, 0, size);
        proof {
            let e0 = StoreEvent::ResolveRange {
                kappa: kappa@,
                offset: 0,
                len: size,
                reply: crate::store::reply_view(reply),
            };
            assert(crate::store::gained(journal, store@) =~= seq![e0]);
            assert(store@ =~= journal + seq![e0]);
        }
        return match reply {
            Ok(bytes) => Ok(bytes),
            Err(e) => Err(PageInError::Store(e)),
        };
    }
    let first = store.resolve(kappa);
    let ghost e0 = StoreEvent::Resolve { kappa: kappa@, reply: crate::store::reply_view(first) };
    proof {
        assert(crate::store::gained(journal, store@) =~= seq![e0]);
        assert(store@ =~= journal + seq![e0]);
    }
    let content = match first {
        Ok(content) => content,
        Err(e) => {
            return Err(PageInError::Store(e));
        },
    };
    let derived = kappa_of(content.as_slice());
    if same_text(derived.as_str(), kappa) {
        verified.insert(kappa);
        return Ok(content);
    }
    let ghost resolved = *store;
    store.invalidate(kappa);
    let ghost evicted = *store;
    let second = store.resolve(kappa);
    proof {
        let e1 = StoreEvent::Invalidate { kappa: kappa@ };
        let e2 = StoreEvent::Resolve { kappa: kappa@, reply: crate::store::reply_view(second) };
        assert(crate::store::gained(journal, store@) =~= seq![e0, e1, e2]);
        assert(store@ =~= journal + seq![e0, e1, e2]);
        assert(seq![e0] + seq![e1, e2] =~= seq![e0, e1, e2]);
        assert(evicted@ =~= resolved@ + crate::store::gained(resolved@, evicted@));
        assert(store@ =~= evicted@ + crate::store::gained(evicted@, store@));
        crate::store::lemma_talk_join(begun, resolved, evicted);
        crate::store::lemma_talk_join(begun, evicted, *store);
    }
    let recovered = match second {
        Ok(recovered) => recovered,
        Err(e) => {
            return Err(PageInError::Store(e));
        },
    };
    let again = kappa_of(recovered.as_slice());
    if same_text(again.as_str(), kappa) {
        verified.insert(kappa);
        return Ok(recovered);
    }
    Err(PageInError::Integrity)
}

/// A provider of paged weights: the table that tells which content a
/// fingerprint pages from, the store that holds the content, and the labels
/// that the session has verified.
pub struct KappaWeightProvider<S> {
    table: WeightBindingTable,
    store: JournaledStore<S>,
    verified: VerifiedSet,
}

/// What a provider answers to a ranged read, and what the read did.
#[verifier::ext_equal]
pub struct ServedV {
    pub answer: Option<Seq<u8>>,
    pub verified: Set<Seq<char>>,
    pub events: Seq<StoreEvent>,
}

/// Serve the bytes `[offset, offset + len)` of the weight with a fingerprint.
///
/// Nothing is served for a fingerprint without a binding, for a content beyond
/// the address space, for a range outside the content, for a content that
/// cannot be paged in, and for one whose length is not what the table says.
pub open spec fn serve(
    table: Map<Seq<u8>, BindingV>,
    verified: Set<Seq<char>>,
    fingerprint: Seq<u8>,
    offset: usize,
    len: usize,
    oracle: Seq<StoreEvent>,
) -> ServedV {
    let nothing = ServedV { answer: None, verified, events: Seq::empty() };
    if !table.dom().contains(fingerprint) {
        nothing
    } else {
        let binding = table[fingerprint];
        if binding.size > usize::MAX || offset + len > binding.size {
            nothing
        } else {
            let run = page_in(verified, binding.kappa, binding.size, oracle);
            ServedV {
                answer: match run.outcome {
                    Ok(content) => if content.len() == binding.size {
                        Some(content.subrange(offset as int, offset + len))
                    } else {
                        None
                    },
                    Err(_) => None,
                },
                verified: run.verified,
                events: run.events,
            }
        }
    }
}

impl<S> KappaWeightProvider<S> {
    /// The bindings that the provider serves.
    pub closed spec fn bindings(&self) -> Map<Seq<u8>, BindingV> {
        self.table@
    }

    /// The requests made of the store.
    pub closed spec fn journal(&self) -> Seq<StoreEvent> {
        self.store@
    }

    /// The store itself.
    pub closed spec fn store(&self) -> S {
        self.store.inner()
    }

    /// The labels that the session has verified.
    pub closed spec fn verified_labels(&self) -> Set<Seq<char>> {
        self.verified@
    }
}

impl<S: KappaStore> KappaWeightProvider<S> {
    /// A provider that has verified nothing yet.
    pub fn new(table: WeightBindingTable, store: S) -> (r: KappaWeightProvider<S>)
        ensures
            r.bindings() == table@,
            r.journal() == Seq::<StoreEvent>::empty(),
            r.store() == store,
            r.verified_labels() == Set::<Seq<char>>::empty(),
    {
        KappaWeightProvider {
            table,
            store: JournaledStore::new(store),
            verified: VerifiedSet::new(),
        }
    }

    /// The bytes that the provider addresses in all.
    pub fn total_bytes(&self) -> (n: u64)
        requires
            crate::paging::table_total(self.bindings()) <= u64::MAX,
        ensures
            n == crate::paging::table_total(self.bindings()),
    {
        self.table.total_bytes()
    }

    /// The bytes that the provider addresses in all, where their number fits.
    pub fn checked_total_bytes(&self) -> (r: Option<u64>)
        ensures
            match r {
                Some(n) => n == crate::paging::table_total(self.bindings()),
                None => crate::paging::table_total(self.bindings()) > u64::MAX,
            },
    {
        self.table.checked_total_bytes()
    }

    /// The length of the weight with a fingerprint, where it fits the address
    /// space.
    pub fn size(&self, fingerprint: &[u8; 32]) -> (r: Option<usize>)
        ensures
            match r {
                Some(n) => self.bindings().dom().contains(fingerprint@)
                    && self.bindings()[fingerprint@].size == n,
                None => !self.bindings().dom().contains(fingerprint@)
                    || self.bindings()[fingerprint@].size > usize::MAX,
            },
    {
        match self.table.resolve(fingerprint) {
            Some((_, size)) => if size <= usize::MAX as u64 {
                Some(size as usize)
            } else {
                None
            },
            None => None,
        }
    }

    /// The bytes `[offset, offset + len)` of the weight with a fingerprint.
    pub fn get_range(&mut self, fingerprint: &[u8; 32], offset: usize, len: usize) -> (r: Option<
        Vec<u8>,
    >)
        ensures
            ({
                let t = crate::store::gained(old(self).journal(), final(self).journal());
                &&& final(self).bindings() == old(self).bindings()
                &&& final(self).journal() == old(self).journal() + t
                &&& serve(
                    old(self).bindings(),
                    old(self).verified_labels(),
                    fingerprint@,
                    offset,
                    len,
                    t,
                ) == (ServedV {
                    answer: crate::bytes::bytes_view(r),
                    verified: final(self).verified_labels(),
                    events: t,
                })
            }),
            exists|states: Seq<S>, calls: Seq<&mut S>| #[trigger]
                crate::store::calls_of(
                    old(self).store(),
                    states,
                    calls,
                    crate::store::gained(old(self).journal(), final(self).journal()),
                    final(self).store(),
                ) && forall|i: int|
                    0 <= i < calls.len() ==> *final(#[trigger] calls[i]) == states[i + 1],
    {
        let ghost journal = self.journal();
        proof {
            crate::store::lemma_talk_start(self.store);
            assert(self.store() == self.store.inner());
            assert(journal + Seq::empty() =~= journal);
        }
        let (kappa, size) = match self.table.resolve(fingerprint) {
            Some((kappa, size)) => (crate::text::copy_str(kappa), size),
            None => {
                return None;
            },
        };
        if size > usize::MAX as u64 {
            return None;
        }
        let whole: usize = size as usize;
        if offset > whole || len > whole - offset {
            return None;
        }
        let reply = resolve_verified(&mut self.store, &mut self.verified, kappa.as_str(), size);
        proof {
            assert(self.store() == self.store.inner());
        }
        let bytes = match reply {
            Ok(bytes) => bytes,
            Err(_) => {
                return None;
            },
        };
        if bytes.len() != whole {
            return None;
        }
        slice_range(bytes.as_slice(), offset as u64, len as u64)
    }
}

/// What is served on the first touch of a label is a range of a content that
/// hashes to that label: unverified content is never served.
pub proof fn law_first_touch_serves_only_verified_content(
    table: Map<Seq<u8>, BindingV>,
    verified: Set<Seq<char>>,
    fingerprint: Seq<u8>,
    offset: usize,
    len: usize,
    oracle: Seq<StoreEvent>,
)
    requires
        !verified.contains(table[fingerprint].kappa),
        serve(table, verified, fingerprint, offset, len, oracle).answer is Some,
    ensures
        exists|content: Seq<u8>|
            #[trigger] crate::kappa::kappa_label(content) == table[fingerprint].kappa
                && content.len() == table[fingerprint].size
                && serve(table, verified, fingerprint, offset, len, oracle).answer == Some(
                content.subrange(offset as int, offset + len),
            ),
        serve(table, verified, fingerprint, offset, len, oracle).verified == verified.insert(
            table[fingerprint].kappa,
        ),
{
    let run = page_in(verified, table[fingerprint].kappa, table[fingerprint].size, oracle);
    let content = run.outcome->Ok_0;
    assert(crate::kappa::kappa_label(content) == table[fingerprint].kappa);
}

/// Once a label is verified, paging it in again is one read of its bytes, with
/// no hash and no eviction.
pub proof fn law_a_verified_label_is_only_read(
    verified: Set<Seq<char>>,
    kappa: Seq<char>,
    size: u64,
    oracle: Seq<StoreEvent>,
)
    requires
        verified.contains(kappa),
    ensures
        page_in(verified, kappa, size, oracle).events.len() == 1,
        page_in(verified, kappa, size, oracle).events[0] is ResolveRange,
        page_in(verified, kappa, size, oracle).verified == verified,
{
}

/// A missing κ, a corrupt one without a deeper tier, and a length that is not
/// the one on record fail closed: nothing is served.
pub proof fn law_paging_fails_closed(
    table: Map<Seq<u8>, BindingV>,
    verified: Set<Seq<char>>,
    fingerprint: Seq<u8>,
    offset: usize,
    len: usize,
    oracle: Seq<StoreEvent>,
)
    requires
        table.dom().contains(fingerprint),
        match page_in(verified, table[fingerprint].kappa, table[fingerprint].size, oracle).outcome {
            Ok(content) => content.len() != table[fingerprint].size,
            Err(_) => true,
        },
    ensures
        serve(table, verified, fingerprint, offset, len, oracle).answer is None,
{
}

/// A store that holds the content of a label serves every range of it, whether or
/// not the label was verified before.
pub proof fn law_an_honest_store_serves_the_content(
    table: Map<Seq<u8>, BindingV>,
    verified: Set<Seq<char>>,
    fingerprint: Seq<u8>,
    offset: usize,
    len: usize,
    oracle: Seq<StoreEvent>,
    contents: Map<Seq<char>, Seq<u8>>,
)
    requires
        table.dom().contains(fingerprint),
        table[fingerprint].size <= usize::MAX,
        contents[table[fingerprint].kappa].len() == table[fingerprint].size,
        crate::kappa::kappa_label(contents[table[fingerprint].kappa]) == table[fingerprint].kappa,
        offset + len <= table[fingerprint].size,
        crate::materialize::honest(
            serve(table, verified, fingerprint, offset, len, oracle).events,
            contents,
        ),
    ensures
        serve(table, verified, fingerprint, offset, len, oracle).answer == Some(
            contents[table[fingerprint].kappa].subrange(offset as int, offset + len),
        ),
{
    let kappa = table[fingerprint].kappa;
    let run = page_in(verified, kappa, table[fingerprint].size, oracle);
    let content = contents[kappa];
    assert(run.events[0] == serve(table, verified, fingerprint, offset, len, oracle).events[0]);
    assert(content.subrange(0, content.len() as int) =~= content);
}

/// What paging in a content comes to. A label that the session has verified is read as
/// a range of the whole size, once, and what comes is taken or its failure handed on.
/// Any other is resolved: only bytes that hash to the label are handed out, and they
/// make it verified; bytes that do not are evicted and asked for once more.
pub proof fn law_what_paging_in_comes_to(
    verified: Set<Seq<char>>,
    kappa: Seq<char>,
    size: u64,
    oracle: Seq<StoreEvent>,
)
    ensures
        ({
            let run = page_in(verified, kappa, size, oracle);
            &&& verified.contains(kappa) ==> run.verified == verified && run.events.len() == 1 && (
            run.events[0] matches StoreEvent::ResolveRange { kappa: k, offset, len, reply } && k
                == kappa && offset == 0 && len == size && match reply {
                Ok(b) => run.outcome == Ok::<Seq<u8>, PageInError>(b),
                Err(e) => run.outcome == Err::<Seq<u8>, PageInError>(PageInError::Store(e)),
            })
            &&& !verified.contains(kappa) ==> match run.outcome {
                Ok(b) => crate::kappa::kappa_label(b) == kappa && run.verified == verified.insert(
                    kappa,
                ) && run.events.last() == (StoreEvent::Resolve { kappa, reply: Ok(b) }),
                Err(PageInError::Store(e)) => run.verified == verified && run.events.last() == (
                StoreEvent::Resolve { kappa, reply: Err(e) }),
                Err(PageInError::Integrity) => run.verified == verified && run.events.len() == 3 && (
                run.events[2] matches StoreEvent::Resolve { kappa: k, reply: Ok(b) } && k == kappa
                    && crate::kappa::kappa_label(b) != kappa),
            }
            &&& !verified.contains(kappa) ==> run.events[0] is Resolve && (run.events.len() == 1
                || run.events.len() == 3 && (run.events[0] matches StoreEvent::Resolve {
                kappa: k,
                reply: Ok(b),
            } && k == kappa && crate::kappa::kappa_label(b) != kappa) && run.events[1] == (
            StoreEvent::Invalidate { kappa }))
        }),
{
}

/// What a read is answered with: nothing, and without a request, for a fingerprint that
/// the table does not bind, for a content beyond the address space and for a range that
/// reaches behind the size that the table states; else the range of the content that was
/// paged in, where it has that size, and nothing where it has another or could not be
/// paged in.
pub proof fn law_what_a_read_is_answered_with(
    table: Map<Seq<u8>, BindingV>,
    verified: Set<Seq<char>>,
    fingerprint: Seq<u8>,
    offset: usize,
    len: usize,
    oracle: Seq<StoreEvent>,
)
    ensures
        ({
            let r = serve(table, verified, fingerprint, offset, len, oracle);
            let bound = table.dom().contains(fingerprint);
            let b = table[fingerprint];
            if !bound || b.size > usize::MAX || offset + len > b.size {
                r.answer is None && r.verified == verified && r.events.len() == 0
            } else {
                let run = page_in(verified, b.kappa, b.size, oracle);
                &&& r.verified == run.verified
                &&& r.events == run.events
                &&& run.outcome matches Ok(content) ==> content.len() == b.size ==> (
                r.answer matches Some(bytes) && bytes.len() == len && forall|i: int|
                    0 <= i < len ==> #[trigger] bytes[i] == content[offset + i])
                &&& !(run.outcome matches Ok(content) && content.len() == b.size) ==> r.answer is None
            }
        }),
{
}

/// A new provider addresses what its table does, over the store that it was given, with
/// nothing asked and nothing verified; a weight has the length that the table states.
pub proof fn law_a_provider_starts_from_its_table<S: KappaStore>(
    table: WeightBindingTable,
    store: S,
    p: KappaWeightProvider<S>,
    fingerprint: &[u8; 32],
    size: Option<usize>,
)
    requires
        call_ensures(KappaWeightProvider::<S>::new, (table, store), p),
        call_ensures(KappaWeightProvider::<S>::size, (&p, fingerprint), size),
    ensures
        p.journal().len() == 0,
        p.store() == store,
        forall|k: Seq<char>| !(#[trigger] p.verified_labels().contains(k)),
        table@.dom().contains(fingerprint@) && table@[fingerprint@].size <= usize::MAX ==> size
            == Some(table@[fingerprint@].size as usize),
        !table@.dom().contains(fingerprint@) ==> size is None,
{
}

} // verus!
