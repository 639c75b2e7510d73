//! The weight pager: whole weights stay in the κ-store, and the archive refers
//! to each by the digest that its label names.

use crate::archive::{reassemble, Rewrite, RewriteV};
use crate::bytes::copy_bytes;
use crate::kappa::{kappa_digest, DigestError};
use crate::kappa_map::{KappaRequirement, RequirementV};
use crate::materialize::{
    patch_constants, ConstantEntry, EntryV, PatchError, PatchErrorV, PatchState,
};
use crate::plan::{
    kappa_requirements, ArchiveError, ArchiveErrorV, ArchivePlan, InternedWeight, LoadError,
};
use crate::store::{JournaledStore, KappaStore, StoreError, StoreEvent, VerifiedSet};
use crate::text::same_bytes;
use vstd::prelude::*;

verus! {

/// The content that a fingerprint pages from: its label and its byte length.
#[verifier::ext_equal]
pub struct BindingV {
    pub kappa: Seq<char>,
    pub size: u64,
}

struct Binding {
    fingerprint: [u8; 32],
    kappa: String,
    size: u64,
}

/// The pager's table: which content a fingerprint pages from, and how long that
/// content is.
pub struct WeightBindingTable {
    bindings: Vec<Binding>,
}

/// The sum of the sizes in a finite table.
pub open spec fn table_total(m: Map<Seq<u8>, BindingV>) -> nat
    decreases m.dom().len(),
    when m.dom().finite()
{
    if m.dom().is_empty() {
        0
    } else {
        let k = m.dom().choose();
        m[k].size as nat + table_total(m.remove(k))
    }
}

proof fn lemma_table_total_remove(m: Map<Seq<u8>, BindingV>, k: Seq<u8>)
    requires
        m.dom().finite(),
        m.dom().contains(k),
    ensures
        table_total(m) == m[k].size + table_total(m.remove(k)),
    decreases m.dom().len(),
{
    let c = m.dom().choose();
    if c != k {
        let a = m.remove(c);
        let b = m.remove(k);
        assert(a.dom() =~= m.dom().remove(c));
        assert(b.dom() =~= m.dom().remove(k));
        lemma_table_total_remove(a, k);
        lemma_table_total_remove(b, c);
        assert(a.remove(k) =~= b.remove(c));
    }
}

/// What the first bindings of a list come to.
spec fn bindings_map(s: Seq<Binding>) -> Map<Seq<u8>, BindingV>
    decreases s.len(),
{
    if s.len() == 0 {
        Map::empty()
    } else {
        bindings_map(s.drop_last()).insert(
            s.last().fingerprint@,
            BindingV { kappa: s.last().kappa@, size: s.last().size },
        )
    }
}

spec fn distinct(s: Seq<Binding>) -> bool {
    forall|i: int, j: int|
        0 <= i < j < s.len() ==> (#[trigger] s[i]).fingerprint@ != (#[trigger] s[j]).fingerprint@
}

proof fn lemma_bindings_map(s: Seq<Binding>)
    requires
        distinct(s),
    ensures
        bindings_map(s).dom().finite(),
        bindings_map(s).dom().len() == s.len(),
        forall|i: int|
            0 <= i < s.len() ==> bindings_map(s).dom().contains((#[trigger] s[i]).fingerprint@)
                && bindings_map(s)[s[i].fingerprint@] == (BindingV {
                kappa: s[i].kappa@,
                size: s[i].size,
            }),
        forall|k: Seq<u8>|
            bindings_map(s).dom().contains(k) ==> exists|i: int|
                0 <= i < s.len() && (#[trigger] s[i]).fingerprint@ == k,
    decreases s.len(),
{
    if s.len() > 0 {
        let t = s.drop_last();
        assert forall|i: int, j: int| 0 <= i < j < t.len() implies (#[trigger] t[i]).fingerprint@
            != (#[trigger] t[j]).fingerprint@ by {
            assert(t[i] == s[i] && t[j] == s[j]);
        }
        lemma_bindings_map(t);
        let m = bindings_map(t);
        let last = s.last();
        assert(!m.dom().contains(last.fingerprint@)) by {
            if m.dom().contains(last.fingerprint@) {
                let i = choose|i: int|
                    0 <= i < t.len() && (#[trigger] t[i]).fingerprint@ == last.fingerprint@;
                assert(s[i].fingerprint@ != s[s.len() - 1].fingerprint@);
            }
        }
        assert(bindings_map(s).dom() =~= m.dom().insert(last.fingerprint@));
        assert forall|i: int| 0 <= i < s.len() implies bindings_map(s).dom().contains(
            (#[trigger] s[i]).fingerprint@,
        ) && bindings_map(s)[s[i].fingerprint@] == (BindingV {
            kappa: s[i].kappa@,
            size: s[i].size,
        }) by {
            if i < t.len() {
                assert(t[i] == s[i]);
                assert(s[i].fingerprint@ != s[s.len() - 1].fingerprint@);
            }
        }
        assert forall|k: Seq<u8>| bindings_map(s).dom().contains(k) implies exists|i: int|
            0 <= i < s.len() && (#[trigger] s[i]).fingerprint@ == k by {
            if k == last.fingerprint@ {
                assert(s[s.len() - 1].fingerprint@ == k);
            } else {
                let i = choose|i: int| 0 <= i < t.len() && (#[trigger] t[i]).fingerprint@ == k;
                assert(s[i].fingerprint@ == k);
            }
        }
    }
}

proof fn lemma_bindings_update(s: Seq<Binding>, i: int, b: Binding)
    requires
        distinct(s),
        0 <= i < s.len(),
        s[i].fingerprint@ == b.fingerprint@,
    ensures
        distinct(s.update(i, b)),
        bindings_map(s.update(i, b)) == bindings_map(s).insert(
            b.fingerprint@,
            BindingV { kappa: b.kappa@, size: b.size },
        ),
{
    let t = s.update(i, b);
    assert forall|x: int, y: int| 0 <= x < y < t.len() implies (#[trigger] t[x]).fingerprint@ != (
    #[trigger] t[y]).fingerprint@ by {
        assert(s[x].fingerprint@ != s[y].fingerprint@);
    }
    lemma_bindings_map(s);
    lemma_bindings_map(t);
    let m = bindings_map(s).insert(b.fingerprint@, BindingV { kappa: b.kappa@, size: b.size });
    assert(bindings_map(t) =~= m) by {
        assert forall|k: Seq<u8>| bindings_map(t).dom().contains(k) <==> m.dom().contains(k) by {
            if bindings_map(t).dom().contains(k) {
                let x = choose|x: int| 0 <= x < t.len() && (#[trigger] t[x]).fingerprint@ == k;
                assert(bindings_map(s).dom().contains(s[x].fingerprint@));
            }
            if m.dom().contains(k) {
                if k == b.fingerprint@ {
                    assert(t[i].fingerprint@ == k);
                } else {
                    let x = choose|x: int| 0 <= x < s.len() && (#[trigger] s[x]).fingerprint@ == k;
                    assert(t[x].fingerprint@ == k);
                }
            }
        }
        assert forall|k: Seq<u8>| bindings_map(t).dom().contains(k) implies bindings_map(t)[k]
            == m[k] by {
            let x = choose|x: int| 0 <= x < t.len() && (#[trigger] t[x]).fingerprint@ == k;
            if x == i {
                assert(t[i] == b);
            } else {
                assert(t[x] == s[x]);
                if x < i {
                    assert(s[x].fingerprint@ != s[i].fingerprint@);
                } else {
                    assert(s[i].fingerprint@ != s[x].fingerprint@);
                }
            }
        }
    }
}

impl View for WeightBindingTable {
    type V = Map<Seq<u8>, BindingV>;

    closed spec fn view(&self) -> Map<Seq<u8>, BindingV> {
        bindings_map(self.bindings@)
    }
}

impl WeightBindingTable {
    #[verifier::type_invariant]
    spec fn inv(self) -> bool {
        distinct(self.bindings@)
    }

    /// A table without bindings.
    pub fn new() -> (r: WeightBindingTable)
        ensures
            r@ == Map::<Seq<u8>, BindingV>::empty(),
    {
        WeightBindingTable { bindings: Vec::new() }
    }

    fn index_of(&self, fingerprint: &[u8; 32]) -> (r: Option<usize>)
        ensures
            match r {
                Some(i) => i < self.bindings@.len() && self.bindings@[i as int].fingerprint@
                    == fingerprint@,
                None => forall|i: int|
                    0 <= i < self.bindings@.len() ==> (#[trigger] self.bindings@[i]).fingerprint@
                        != fingerprint@,
            },
    {
        let mut i: usize = 0;
        while i < self.bindings.len()
            invariant
                i <= self.bindings@.len(),
                forall|k: int|
                    0 <= k < i ==> (#[trigger] self.bindings@[k]).fingerprint@ != fingerprint@,
            decreases self.bindings@.len() - i,
        {
            if same_bytes(self.bindings[i].fingerprint.as_slice(), fingerprint.as_slice()) {
                return Some(i);
            }
            i += 1;
        }
        None
    }

    /// The label that a fingerprint's bytes page from, and the length of the
    /// whole content.
    pub fn resolve(&self, fingerprint: &[u8; 32]) -> (r: Option<(&str, u64)>)
        ensures
            match r {
                Some((kappa, size)) => self@.dom().contains(fingerprint@)
                    && self@[fingerprint@] == (BindingV { kappa: kappa@, size }),
                None => !self@.dom().contains(fingerprint@),
            },
    {
        proof {
            use_type_invariant(self);
            lemma_bindings_map(self.bindings@);
        }
        match self.index_of(fingerprint) {
            Some(i) => {
                let b = &self.bindings[i];
                Some((b.kappa.as_str(), b.size))
            },
            None => None,
        }
    }

    /// The number of distinct paged weights.
    pub fn len(&self) -> (n: usize)
        ensures
            self@.dom().finite(),
            n == self@.dom().len(),
    {
        proof {
            use_type_invariant(self);
            lemma_bindings_map(self.bindings@);
        }
        self.bindings.len()
    }

    /// Whether the table has no binding.
    pub fn is_empty(&self) -> (r: bool)
        ensures
            r == (self@ == Map::<Seq<u8>, BindingV>::empty()),
    {
        proof {
            use_type_invariant(self);
            lemma_bindings_map(self.bindings@);
        }
        if self.bindings.len() == 0 {
            true
        } else {
            proof {
                assert(self@.dom().contains(self.bindings@[0].fingerprint@));
            }
            false
        }
    }

    /// The bytes that the table addresses in all.
    pub fn total_bytes(&self) -> (n: u64)
        requires
            table_total(self@) <= u64::MAX,
        ensures
            n == table_total(self@),
    {
        match self.checked_total_bytes() {
            Some(total) => total,
            None => 0,
        }
    }

    /// The bytes that the table addresses in all, where their number fits.
    pub fn checked_total_bytes(&self) -> (r: Option<u64>)
        ensures
            match r {
                Some(n) => n == table_total(self@),
                None => table_total(self@) > u64::MAX,
            },
    {
        proof {
            use_type_invariant(self);
        }
        let ghost all = self.bindings@;
        let mut total: u64 = 0;
        let mut i: usize = self.bindings.len();
        proof {
            assert(all.take(all.len() as int) =~= all);
        }
        while i > 0
            invariant
                i <= all.len(),
                all == self.bindings@,
                distinct(all),
                table_total(self@) == total + table_total(bindings_map(all.take(i as int))),
            decreases i,
        {
            proof {
                let s = all.take(i as int);
                let t = all.take(i - 1);
                lemma_distinct_take(all, i as int);
                lemma_distinct_take(all, i - 1);
                lemma_bindings_map(s);
                lemma_bindings_map(t);
                assert(s.drop_last() =~= t);
                let k = s.last().fingerprint@;
                assert(s.last() == s[i - 1]);
                assert(!bindings_map(t).dom().contains(k)) by {
                    if bindings_map(t).dom().contains(k) {
                        let x = choose|x: int|
                            0 <= x < t.len() && (#[trigger] t[x]).fingerprint@ == k;
                        assert(all[x].fingerprint@ != all[i - 1].fingerprint@);
                    }
                }
                assert(bindings_map(s).remove(k) =~= bindings_map(t));
                lemma_table_total_remove(bindings_map(s), k);
            }
            i = i - 1;
            total = match total.checked_add(self.bindings[i].size) {
                Some(sum) => sum,
                None => {
                    return None;
                },
            };
        }
        proof {
            assert(all.take(0) =~= Seq::empty());
            assert(bindings_map(all.take(0)).dom() =~= Set::empty());
        }
        Some(total)
    }

    /// Bind a fingerprint to a label and a size; an earlier binding of the
    /// fingerprint is replaced.
    pub fn insert_binding(&mut self, fingerprint: [u8; 32], kappa: String, size: u64)
        ensures
            final(self)@ == old(self)@.insert(fingerprint@, BindingV { kappa: kappa@, size }),
    {
        proof {
            use_type_invariant(&*self);
        }
        let found = self.index_of(&fingerprint);
        let mut bindings: Vec<Binding> = Vec::new();
        std::mem::swap(&mut bindings, &mut self.bindings);
        let ghost before = bindings@;
        let b = Binding { fingerprint, kappa, size };
        match found {
            Some(i) => {
                proof {
                    lemma_bindings_update(before, i as int, b);
                }
                bindings.set(i, b);
            },
            None => {
                proof {
                    assert(before.push(b).drop_last() =~= before);
                }
                bindings.push(b);
            },
        }
        self.bindings = bindings;
    }
}

proof fn lemma_distinct_take(s: Seq<Binding>, n: int)
    requires
        distinct(s),
        0 <= n <= s.len(),
    ensures
        distinct(s.take(n)),
{
    assert forall|i: int, j: int| 0 <= i < j < s.take(n).len() implies (
    #[trigger] s.take(n)[i]).fingerprint@ != (#[trigger] s.take(n)[j]).fingerprint@ by {
        assert(s[i].fingerprint@ != s[j].fingerprint@);
    }
}

impl Default for WeightBindingTable {
    fn default() -> (r: WeightBindingTable)
        ensures
            r@ == Map::<Seq<u8>, BindingV>::empty(),
    {
        WeightBindingTable::new()
    }
}

/// The body of the first weight with a fingerprint.
pub open spec fn interned_body(weights: Seq<InternedWeight>, fingerprint: Seq<u8>) -> Option<Seq<u8>>
    decreases weights.len(),
{
    if weights.len() == 0 {
        None
    } else if weights[0].fingerprint@ == fingerprint {
        Some(weights[0].body@)
    } else {
        interned_body(weights.skip(1), fingerprint)
    }
}

/// An entry with its reference replaced by the body that it refers to; nothing
/// where the archive lacks that body.
pub open spec fn inlined_entry(e: EntryV, weights: Option<Seq<InternedWeight>>) -> Option<EntryV> {
    if !e.by_reference {
        Some(e)
    } else {
        match weights {
            None => None,
            Some(ws) => match interned_body(ws, e.fingerprint) {
                None => None,
                Some(bytes) => Some(EntryV { bytes, by_reference: false, ..e }),
            },
        }
    }
}

/// The entries with every reference inlined; the slot of the first entry whose
/// weight is lacking is the error.
pub open spec fn inlined(entries: Seq<EntryV>, weights: Option<Seq<InternedWeight>>) -> Result<
    Seq<EntryV>,
    u32,
>
    decreases entries.len(),
{
    if entries.len() == 0 {
        Ok(Seq::empty())
    } else {
        match inlined(entries.drop_last(), weights) {
            Err(slot) => Err(slot),
            Ok(front) => match inlined_entry(entries.last(), weights) {
                None => Err(entries.last().slot),
                Some(e) => Ok(front.push(e)),
            },
        }
    }
}

/// What paging whole bindings works on.
#[verifier::ext_equal]
pub struct PageState {
    pub entries: Seq<EntryV>,
    pub table: Map<Seq<u8>, BindingV>,
}

/// What paging whole bindings did.
#[verifier::ext_equal]
pub struct PageRun {
    pub state: PageState,
    pub outcome: Result<(), ArchiveErrorV>,
    pub events: Seq<StoreEvent>,
}

/// A run that ended in an error.
pub open spec fn unpaged(state: PageState, error: ArchiveErrorV, events: Seq<StoreEvent>) -> PageRun {
    PageRun { state, outcome: Err(error), events }
}

/// Turn the constant of one whole binding into a reference: its fingerprint is
/// the digest that the label names, and only the size of the content is asked
/// for.
pub open spec fn page_one(
    state: PageState,
    base_slot: u32,
    req: RequirementV,
    oracle: Seq<StoreEvent>,
) -> PageRun {
    let nothing = Seq::<StoreEvent>::empty();
    let c = req.constant;
    if c >= state.entries.len() {
        unpaged(
            state,
            ArchiveErrorV::Patch(PatchErrorV::MissingEntry { constant: c }),
            nothing,
        )
    } else {
        let entry = state.entries[c as int];
        if entry.slot != base_slot + c {
            unpaged(
                state,
                ArchiveErrorV::Patch(PatchErrorV::Drift { constant: c, slot: entry.slot }),
                nothing,
            )
        } else if entry.by_reference {
            unpaged(
                state,
                ArchiveErrorV::Patch(PatchErrorV::Reference { constant: c }),
                nothing,
            )
        } else {
            let reply = crate::store::sized(oracle[0]);
            let asked = seq![StoreEvent::ContentSize { kappa: req.kappa, size: reply }];
            match reply {
                Err(cause) => unpaged(
                    state,
                    ArchiveErrorV::Size { kappa: req.kappa, cause },
                    asked,
                ),
                Ok(size) => match crate::kappa::label_digest(req.kappa) {
                    Err(error) => unpaged(
                        state,
                        ArchiveErrorV::Digest { kappa: req.kappa, error },
                        asked,
                    ),
                    Ok(digest) => PageRun {
                        state: PageState {
                            entries: state.entries.update(
                                c as int,
                                EntryV {
                                    slot: entry.slot,
                                    bytes: Seq::empty(),
                                    by_reference: true,
                                    fingerprint: digest,
                                },
                            ),
                            table: state.table.insert(
                                digest,
                                BindingV { kappa: req.kappa, size },
                            ),
                        },
                        outcome: Ok(()),
                        events: asked,
                    },
                },
            }
        }
    }
}

/// Page a list of whole bindings in their order, up to the first that fails.
pub open spec fn page_whole(
    state: PageState,
    base_slot: u32,
    reqs: Seq<RequirementV>,
    oracle: Seq<StoreEvent>,
) -> PageRun
    decreases reqs.len(),
{
    if reqs.len() == 0 {
        PageRun { state, outcome: Ok(()), events: Seq::empty() }
    } else {
        let front = page_whole(state, base_slot, reqs.drop_last(), oracle);
        if front.outcome is Err {
            front
        } else {
            let step = page_one(
                front.state,
                base_slot,
                reqs.last(),
                oracle.skip(front.events.len() as int),
            );
            PageRun { events: front.events + step.events, ..step }
        }
    }
}

/// What paging comes to before the constants are encoded.
pub enum PagedV {
    /// The archive is material already.
    Unchanged,
    /// The constants to be written, and the table that serves them.
    Paged { entries: Seq<EntryV>, table: Map<Seq<u8>, BindingV> },
}

/// What paging an archive did.
#[verifier::ext_equal]
pub struct PagedRun {
    pub outcome: Result<PagedV, ArchiveErrorV>,
    pub verified: Set<Seq<char>>,
    pub events: Seq<StoreEvent>,
}

/// The bindings of a slice, which are materialized inline.
pub open spec fn ranged(reqs: Seq<RequirementV>) -> Seq<RequirementV> {
    reqs.filter(|r: RequirementV| r.range is Some)
}

/// The bindings of a whole content, which page.
pub open spec fn whole(reqs: Seq<RequirementV>) -> Seq<RequirementV> {
    reqs.filter(|r: RequirementV| r.range is None)
}

/// The weights that an archive carries.
pub open spec fn interned_weights(plan: ArchivePlan) -> Result<
    Option<Seq<InternedWeight>>,
    ArchiveErrorV,
> {
    match plan.weights {
        None => Ok(None),
        Some(Ok(ws)) => Ok(Some(ws@)),
        Some(Err(reason)) => Err(ArchiveErrorV::Weights { reason }),
    }
}

/// Page the constants of an archive: references to interned weights are
/// inlined, slices are materialized, and whole bindings become references.
pub open spec fn page_entries(
    entries: Seq<EntryV>,
    weights: Option<Seq<InternedWeight>>,
    reqs: Seq<RequirementV>,
    verified: Set<Seq<char>>,
    oracle: Seq<StoreEvent>,
) -> PagedRun {
    let nothing = Seq::<StoreEvent>::empty();
    match inlined(entries, weights) {
        Err(slot) => PagedRun {
            outcome: Err(ArchiveErrorV::Interned { slot }),
            verified,
            events: nothing,
        },
        Ok(inline) => {
            let run = crate::materialize::patched(
                PatchState { entries: inline, verified },
                ranged(reqs),
                oracle,
            );
            match run.outcome {
                Err(e) => PagedRun {
                    outcome: Err(ArchiveErrorV::Patch(e)),
                    verified: run.state.verified,
                    events: run.events,
                },
                Ok(()) => {
                    let paged = page_whole(
                        PageState { entries: run.state.entries, table: Map::empty() },
                        entries[0].slot,
                        whole(reqs),
                        oracle.skip(run.events.len() as int),
                    );
                    PagedRun {
                        outcome: match paged.outcome {
                            Err(e) => Err(e),
                            Ok(()) => Ok(
                                PagedV::Paged {
                                    entries: paged.state.entries,
                                    table: paged.state.table,
                                },
                            ),
                        },
                        verified: run.state.verified,
                        events: run.events + paged.events,
                    }
                },
            }
        },
    }
}

/// Page an archive, where the replies of the store are those of `oracle`.
pub open spec fn paged_run(
    loaded: Result<ArchivePlan, LoadError>,
    verified: Set<Seq<char>>,
    oracle: Seq<StoreEvent>,
) -> PagedRun {
    let nothing = Seq::<StoreEvent>::empty();
    match crate::plan::requirements_of(loaded) {
        Err(e) => PagedRun { outcome: Err(e), verified, events: nothing },
        Ok(reqs) => if reqs.len() == 0 {
            PagedRun { outcome: Ok(PagedV::Unchanged), verified, events: nothing }
        } else {
            match (loaded->Ok_0).constants {
                Err(fault) => PagedRun {
                    outcome: Err(ArchiveErrorV::Constants(fault)),
                    verified,
                    events: nothing,
                },
                Ok(entries) => if entries@.len() == 0 {
                    PagedRun {
                        outcome: Err(ArchiveErrorV::Patch(PatchErrorV::Empty)),
                        verified,
                        events: nothing,
                    }
                } else {
                    match interned_weights(loaded->Ok_0) {
                        Err(e) => PagedRun { outcome: Err(e), verified, events: nothing },
                        Ok(weights) => page_entries(
                            crate::materialize::entry_views(entries@),
                            weights,
                            reqs,
                            verified,
                            oracle,
                        ),
                    }
                },
            }
        },
    }
}

proof fn lemma_page_one_local(
    state: PageState,
    base_slot: u32,
    req: RequirementV,
    a: Seq<StoreEvent>,
    b: Seq<StoreEvent>,
)
    requires
        forall|k: int| 0 <= k < page_one(state, base_slot, req, a).events.len() ==> a[k] == b[k],
    ensures
        page_one(state, base_slot, req, a) == page_one(state, base_slot, req, b),
{
    if page_one(state, base_slot, req, a).events.len() > 0 {
        assert(a[0] == b[0]);
    }
}

proof fn lemma_page_whole_local(
    state: PageState,
    base_slot: u32,
    reqs: Seq<RequirementV>,
    a: Seq<StoreEvent>,
    b: Seq<StoreEvent>,
)
    requires
        page_whole(state, base_slot, reqs, a).events.len() <= a.len(),
        page_whole(state, base_slot, reqs, a).events.len() <= b.len(),
        forall|k: int|
            0 <= k < page_whole(state, base_slot, reqs, a).events.len() ==> a[k] == b[k],
    ensures
        page_whole(state, base_slot, reqs, a) == page_whole(state, base_slot, reqs, b),
    decreases reqs.len(),
{
    if reqs.len() > 0 {
        let front = page_whole(state, base_slot, reqs.drop_last(), a);
        lemma_page_whole_local(state, base_slot, reqs.drop_last(), a, b);
        if front.outcome is Ok {
            let n = front.events.len() as int;
            let step = page_one(front.state, base_slot, reqs.last(), a.skip(n));
            assert forall|k: int| 0 <= k < step.events.len() implies a.skip(n)[k] == b.skip(
                n,
            )[k] by {
                assert(a[n + k] == b[n + k]);
            }
            lemma_page_one_local(front.state, base_slot, reqs.last(), a.skip(n), b.skip(n));
        }
    }
}

proof fn lemma_page_whole_stops(
    state: PageState,
    base_slot: u32,
    reqs: Seq<RequirementV>,
    n: int,
    oracle: Seq<StoreEvent>,
)
    requires
        0 <= n <= reqs.len(),
        page_whole(state, base_slot, reqs.take(n), oracle).outcome is Err,
    ensures
        page_whole(state, base_slot, reqs, oracle) == page_whole(
            state,
            base_slot,
            reqs.take(n),
            oracle,
        ),
    decreases reqs.len(),
{
    if n == reqs.len() {
        assert(reqs.take(n) =~= reqs);
    } else {
        assert(reqs.drop_last().take(n) =~= reqs.take(n));
        lemma_page_whole_stops(state, base_slot, reqs.drop_last(), n, oracle);
    }
}

fn find_interned<'a>(weights: &'a Vec<InternedWeight>, fingerprint: &[u8; 32]) -> (r: Option<
    &'a Vec<u8>,
>)
    ensures
        match r {
            Some(body) => interned_body(weights@, fingerprint@) == Some(body@),
            None => interned_body(weights@, fingerprint@) == None::<Seq<u8>>,
        },
{
    let mut i: usize = 0;
    proof {
        assert(weights@.skip(0) =~= weights@);
    }
    while i < weights.len()
        invariant
            i <= weights@.len(),
            interned_body(weights@, fingerprint@) == interned_body(
                weights@.skip(i as int),
                fingerprint@,
            ),
        decreases weights@.len() - i,
    {
        let w = &weights[i];
        proof {
            assert(weights@.skip(i as int)[0] == w);
            assert(weights@.skip(i as int).skip(1) =~= weights@.skip(i + 1));
        }
        if same_bytes(w.fingerprint.as_slice(), fingerprint.as_slice()) {
            return Some(&w.body);
        }
        i += 1;
    }
    None
}

proof fn lemma_inlined_stops(entries: Seq<EntryV>, weights: Option<Seq<InternedWeight>>, n: int)
    requires
        0 <= n <= entries.len(),
        inlined(entries.take(n), weights) is Err,
    ensures
        inlined(entries, weights) == inlined(entries.take(n), weights),
    decreases entries.len(),
{
    if n == entries.len() {
        assert(entries.take(n) =~= entries);
    } else {
        assert(entries.drop_last().take(n) =~= entries.take(n));
        lemma_inlined_stops(entries.drop_last(), weights, n);
    }
}

/// Replace every reference by the body that it refers to.
fn inline_references(
    entries: &mut Vec<ConstantEntry>,
    weights: Option<&Vec<InternedWeight>>,
) -> (r: Result<(), u32>)
    ensures
        ({
            let ws = match weights {
                Some(v) => Some(v@),
                None => None,
            };
            let result = inlined(crate::materialize::entry_views(old(entries)@), ws);
            match r {
                Ok(()) => result == Ok::<Seq<EntryV>, u32>(
                    crate::materialize::entry_views(final(entries)@),
                ),
                Err(slot) => result == Err::<Seq<EntryV>, u32>(slot),
            }
        }),
{
    let ghost given = crate::materialize::entry_views(entries@);
    let ghost ws: Option<Seq<InternedWeight>> = match weights {
        Some(v) => Some(v@),
        None => None,
    };
    let mut i: usize = 0;
    proof {
        assert(given.take(0) =~= Seq::empty());
    }
    while i < entries.len()
        invariant
            i <= entries@.len(),
            entries@.len() == given.len(),
            given == crate::materialize::entry_views(old(entries)@),
            ws == (match weights {
                Some(v) => Some(v@),
                None => None,
            }),
            inlined(given.take(i as int), ws) matches Ok(front) && front.len() == i && (forall|
                k: int,
            |
                0 <= k < i ==> front[k] == (#[trigger] entries@[k])@),
            forall|k: int| i <= k < given.len() ==> given[k] == (#[trigger] entries@[k])@,
        decreases entries@.len() - i,
    {
        let ghost before = entries@;
        proof {
            assert(given.take(i + 1).drop_last() =~= given.take(i as int));
            assert(given.take(i + 1).last() == entries@[i as int]@);
        }
        if entries[i].by_reference {
            let slot: u32 = entries[i].slot;
            let body: Option<&Vec<u8>> = match weights {
                None => None,
                Some(v) => find_interned(v, &entries[i].fingerprint),
            };
            match body {
                None => {
                    proof {
                        lemma_inlined_stops(given, ws, i + 1);
                    }
                    return Err(slot);
                },
                Some(body) => {
                    entries[i].bytes = copy_bytes(body.as_slice());
                    entries[i].by_reference = false;
                },
            }
        }
        proof {
            let e = entries@[i as int]@;
            let front = inlined(given.take(i as int), ws)->Ok_0;
            assert(inlined_entry(given[i as int], ws) == Some(e));
            assert(inlined(given.take(i + 1), ws) == Ok::<Seq<EntryV>, u32>(front.push(e)));
            assert forall|k: int| 0 <= k < i + 1 implies front.push(e)[k] == (
            #[trigger] entries@[k])@ by {
                if k < i {
                    assert(entries@[k] == before[k]);
                }
            }
            assert forall|k: int| i + 1 <= k < given.len() implies given[k] == (
            #[trigger] entries@[k])@ by {
                assert(entries@[k] == before[k]);
            }
        }
        i += 1;
    }
    proof {
        assert(given.take(given.len() as int) =~= given);
        assert(inlined(given, ws)->Ok_0 =~= crate::materialize::entry_views(entries@));
    }
    Ok(())
}

/// The bindings of slices and of whole contents, each in their order.
fn split_requirements(reqs: &Vec<KappaRequirement>) -> (r: (
    Vec<KappaRequirement>,
    Vec<KappaRequirement>,
))
    ensures
        crate::kappa_map::requirement_views(r.0@) == ranged(
            crate::kappa_map::requirement_views(reqs@),
        ),
        crate::kappa_map::requirement_views(r.1@) == whole(
            crate::kappa_map::requirement_views(reqs@),
        ),
{
    let ghost views = crate::kappa_map::requirement_views(reqs@);
    let mut slices: Vec<KappaRequirement> = Vec::new();
    let mut wholes: Vec<KappaRequirement> = Vec::new();
    let mut i: usize = 0;
    proof {
        assert(views.take(0) =~= Seq::empty());
        reveal(Seq::filter);
        assert(crate::kappa_map::requirement_views(slices@) =~= Seq::empty());
        assert(crate::kappa_map::requirement_views(wholes@) =~= Seq::empty());
    }
    while i < reqs.len()
        invariant
            i <= reqs@.len(),
            views == crate::kappa_map::requirement_views(reqs@),
            crate::kappa_map::requirement_views(slices@) == ranged(views.take(i as int)),
            crate::kappa_map::requirement_views(wholes@) == whole(views.take(i as int)),
        decreases reqs@.len() - i,
    {
        let req = &reqs[i];
        let ghost a = crate::kappa_map::requirement_views(slices@);
        let ghost b = crate::kappa_map::requirement_views(wholes@);
        let item = req.copy();
        proof {
            reveal(Seq::filter);
            assert(views.take(i + 1).drop_last() =~= views.take(i as int));
            assert(views.take(i + 1).last() == req@);
        }
        if req.range.is_some() {
            slices.push(item);
            proof {
                assert(crate::kappa_map::requirement_views(slices@) =~= a.push(req@));
            }
        } else {
            wholes.push(item);
            proof {
                assert(crate::kappa_map::requirement_views(wholes@) =~= b.push(req@));
            }
        }
        i += 1;
    }
    proof {
        assert(views.take(views.len() as int) =~= views);
    }
    (slices, wholes)
}

/// The model of a step's result.
pub open spec fn step_view(r: Result<(), ArchiveError>) -> Result<(), ArchiveErrorV> {
    match r {
        Ok(()) => Ok(()),
        Err(e) => Err(e@),
    }
}

/// The state that some entries and a table make up.
pub open spec fn page_state(entries: Seq<ConstantEntry>, table: WeightBindingTable) -> PageState {
    PageState { entries: crate::materialize::entry_views(entries), table: table@ }
}

fn page_entry<S: KappaStore>(
    entries: &mut Vec<ConstantEntry>,
    base_slot: u32,
    req: &KappaRequirement,
    store: &mut JournaledStore<S>,
    table: &mut WeightBindingTable,
) -> (r: Result<(), ArchiveError>)
    ensures
        ({
            let t = crate::store::gained(old(store)@, final(store)@);
            &&& final(store)@ == old(store)@ + t
            &&& page_one(page_state(old(entries)@, *old(table)), base_slot, req@, t) == (PageRun {
                state: page_state(final(entries)@, *final(table)),
                outcome: step_view(r),
                events: t,
            })
        }),
        exists|states: Seq<S>, calls: Seq<&mut S>| #[trigger]
            crate::store::calls_of(
                old(store).inner(),
                states,
                calls,
                crate::store::gained(old(store)@, final(store)@),
                final(store).inner(),
            ) && forall|i: int|
                0 <= i < calls.len() ==> *final(#[trigger] calls[i]) == states[i + 1],
{
    let ghost journal = store@;
    let ghost start = page_state(entries@, *table);
    proof {
        crate::store::lemma_talk_start(*store);
        assert(journal + Seq::empty() =~= journal);
    }
    let idx: usize = req.constant as usize;
    if idx >= entries.len() {
        return Err(ArchiveError::Patch(PatchError::MissingEntry { constant: req.constant }));
    }
    let slot: u32 = entries[idx].slot;
    proof {
        assert(start.entries[idx as int] == entries@[idx as int]@);
    }
    if slot as u64 != base_slot as u64 + req.constant as u64 {
        return Err(ArchiveError::Patch(PatchError::Drift { constant: req.constant, slot }));
    }
    if entries[idx].by_reference {
        return Err(ArchiveError::Patch(PatchError::Reference { constant: req.constant }));
    }
    let kappa = req.kappa.as_str();
    let reply = store.content_size(kappa);
    proof {
        let e0 = StoreEvent::ContentSize { kappa: kappa@, size: reply };
        assert(crate::store::gained(journal, store@) =~= seq![e0]);
        assert(store@ =~= journal + seq![e0]);
    }
    let size: u64 = match reply {
        Ok(size) => size,
        Err(cause) => {
            return Err(ArchiveError::Size { kappa: req.kappa.clone(), cause });
        },
    };
    let digest = match kappa_digest(kappa) {
        Ok(digest) => digest,
        Err(error) => {
            return Err(ArchiveError::Digest { kappa: req.kappa.clone(), error });
        },
    };
    entries[idx].by_reference = true;
    entries[idx].fingerprint = digest;
    entries[idx].bytes = Vec::new();
    table.insert_binding(digest, req.kappa.clone(), size);
    proof {
        let run = page_one(start, base_slot, req@, crate::store::gained(journal, store@));
        assert(crate::materialize::entry_views(entries@) =~= run.state.entries);
        assert(table@ =~= run.state.table);
    }
    Ok(())
}

fn page_requirements<S: KappaStore>(
    entries: &mut Vec<ConstantEntry>,
    base_slot: u32,
    requirements: &Vec<KappaRequirement>,
    store: &mut JournaledStore<S>,
    table: &mut WeightBindingTable,
) -> (r: Result<(), ArchiveError>)
    ensures
        ({
            let t = crate::store::gained(old(store)@, final(store)@);
            &&& final(store)@ == old(store)@ + t
            &&& page_whole(
                page_state(old(entries)@, *old(table)),
                base_slot,
                crate::kappa_map::requirement_views(requirements@),
                t,
            ) == (PageRun {
                state: page_state(final(entries)@, *final(table)),
                outcome: step_view(r),
                events: t,
            })
        }),
        exists|states: Seq<S>, calls: Seq<&mut S>| #[trigger]
            crate::store::calls_of(
                old(store).inner(),
                states,
                calls,
                crate::store::gained(old(store)@, final(store)@),
                final(store).inner(),
            ) && forall|i: int|
                0 <= i < calls.len() ==> *final(#[trigger] calls[i]) == states[i + 1],
{
    let ghost journal = store@;
    let ghost start = page_state(entries@, *table);
    let ghost reqs = crate::kappa_map::requirement_views(requirements@);
    let ghost mut t: Seq<StoreEvent> = Seq::empty();
    let ghost begun = *store;
    proof {
        crate::store::lemma_talk_start(*store);
        assert(journal + Seq::empty() =~= journal);
        assert(reqs.take(0) =~= Seq::empty());
    }
    let mut i: usize = 0;
    while i < requirements.len()
        invariant
            i <= requirements@.len(),
            reqs == crate::kappa_map::requirement_views(requirements@),
            journal == old(store)@,
            start == page_state(old(entries)@, *old(table)),
            store@ == journal + t,
            page_whole(start, base_slot, reqs.take(i as int), t) == (PageRun {
                state: page_state(entries@, *table),
                outcome: Ok(()),
                events: t,
            }),
            begun == *old(store),
            exists|states: Seq<S>, calls: Seq<&mut S>| #[trigger]
                crate::store::calls_of(
                    begun.inner(),
                    states,
                    calls,
                    crate::store::gained(begun@, store@),
                    store.inner(),
                ) && forall|i: int|
                    0 <= i < calls.len() ==> *final(#[trigger] calls[i]) == states[i + 1],
        decreases requirements@.len() - i,
    {
        let req = &requirements[i];
        let ghost before = store@;
        let ghost between = *store;
        let ghost state = page_state(entries@, *table);
        let r = page_entry(entries, base_slot, req, store, table);
        proof {
            let s = crate::store::gained(before, store@);
            let all = t + s;
            let step = page_one(state, base_slot, req@, s);
            assert(reqs[i as int] == req@);
            assert(reqs.take(i + 1).drop_last() =~= reqs.take(i as int));
            assert(reqs.take(i + 1).last() == req@);
            lemma_page_whole_local(start, base_slot, reqs.take(i as int), t, all);
            assert(all.skip(t.len() as int) =~= s);
            assert(store@ =~= journal + all);
            assert(crate::store::gained(journal, store@) =~= all);
            assert(crate::store::gained(journal, before) =~= t);
            crate::store::lemma_talk_join(begun, between, *store);
            assert(page_whole(start, base_slot, reqs.take(i + 1), all) == (PageRun {
                events: all,
                ..step
            }));
            t = all;
            if r is Err {
                lemma_page_whole_stops(start, base_slot, reqs, i + 1, t);
            }
        }
        if let Err(e) = r {
            return Err(e);
        }
        i += 1;
    }
    proof {
        assert(reqs.take(reqs.len() as int) =~= reqs);
        assert(crate::store::gained(journal, store@) =~= t);
    }
    Ok(())
}

/// What paging an archive gives: the archive, and the table that serves its
/// references.
pub struct Paged {
    pub archive: Vec<u8>,
    pub table: WeightBindingTable,
}

/// Whether a paged archive, or the failure to emit one, is what the codec
/// `encode` and the emitter make of `entries`.
pub open spec fn carries_paged<F: Fn(&Vec<ConstantEntry>) -> Vec<u8>>(
    encode: F,
    archive: Seq<u8>,
    plan: ArchivePlan,
    entries: Seq<EntryV>,
    table: Map<Seq<u8>, BindingV>,
    r: Result<Paged, ArchiveError>,
) -> bool {
    exists|v: Vec<ConstantEntry>, constants: Vec<u8>|
        crate::materialize::entry_views(v@) == entries && #[trigger] call_ensures(
            encode,
            (&v,),
            constants,
        ) && match crate::plan::rewritten_archive(
            archive,
            plan,
            RewriteV::Page {
                constants: constants@,
                beside_map: crate::bytes::bytes_view(plan.beside_map),
            },
        ) {
            Ok(out) => r matches Ok(p) && p.archive@ == out && p.table@ == table,
            Err(e) => r matches Err(x) && x@ == e,
        }
}

/// Whether `r` is the result of paging an archive.
pub open spec fn paging_result<F: Fn(&Vec<ConstantEntry>) -> Vec<u8>>(
    encode: F,
    archive: Seq<u8>,
    loaded: Result<ArchivePlan, LoadError>,
    outcome: Result<PagedV, ArchiveErrorV>,
    r: Result<Paged, ArchiveError>,
) -> bool {
    match outcome {
        Err(e) => r matches Err(x) && x@ == e,
        Ok(PagedV::Unchanged) => r matches Ok(p) && p.archive@ == archive && p.table@
            == Map::<Seq<u8>, BindingV>::empty(),
        Ok(PagedV::Paged { entries, table }) => carries_paged(
            encode,
            archive,
            loaded->Ok_0,
            entries,
            table,
            r,
        ),
    }
}

/// Page an archive with a session of its own.
pub fn paged_archive<S: KappaStore, F: Fn(&Vec<ConstantEntry>) -> Vec<u8>>(
    archive: &[u8],
    loaded: Result<ArchivePlan, LoadError>,
    encode: F,
    store: &mut JournaledStore<S>,
) -> (r: Result<Paged, ArchiveError>)
    requires
        forall|v: &Vec<ConstantEntry>| call_requires(encode, (v,)),
    ensures
        ({
            let t = crate::store::gained(old(store)@, final(store)@);
            let run = paged_run(loaded, Set::empty(), t);
            &&& final(store)@ == old(store)@ + t
            &&& run.events == t
            &&& paging_result(encode, archive@, loaded, run.outcome, r)
        }),
        exists|states: Seq<S>, calls: Seq<&mut S>| #[trigger]
            crate::store::calls_of(
                old(store).inner(),
                states,
                calls,
                crate::store::gained(old(store)@, final(store)@),
                final(store).inner(),
            ) && forall|i: int|
                0 <= i < calls.len() ==> *final(#[trigger] calls[i]) == states[i + 1],
{
    let mut verified = VerifiedSet::new();
    paged_archive_with(archive, loaded, encode, store, &mut verified)
}

/// Page an archive within a session.
///
/// Each whole binding becomes a reference by the digest that its label names,
/// and is served by the table; each ranged binding is materialized inline. The
/// archive is re-emitted without its warm start, without its weights and without its
/// κ-map, which is stale now: the paged archive states no bindings, and the labels that
/// page are in the table. An archive without a κ-map is returned unchanged, with an
/// empty table.
pub fn paged_archive_with<S: KappaStore, F: Fn(&Vec<ConstantEntry>) -> Vec<u8>>(
    archive: &[u8],
    loaded: Result<ArchivePlan, LoadError>,
    encode: F,
    store: &mut JournaledStore<S>,
    verified: &mut VerifiedSet,
) -> (r: Result<Paged, ArchiveError>)
    requires
        forall|v: &Vec<ConstantEntry>| call_requires(encode, (v,)),
    ensures
        ({
            let t = crate::store::gained(old(store)@, final(store)@);
            let run = paged_run(loaded, old(verified)@, t);
            &&& final(store)@ == old(store)@ + t
            &&& run.events == t
            &&& final(verified)@ == run.verified
            &&& paging_result(encode, archive@, loaded, run.outcome, r)
        }),
        exists|states: Seq<S>, calls: Seq<&mut S>| #[trigger]
            crate::store::calls_of(
                old(store).inner(),
                states,
                calls,
                crate::store::gained(old(store)@, final(store)@),
                final(store).inner(),
            ) && forall|i: int|
                0 <= i < calls.len() ==> *final(#[trigger] calls[i]) == states[i + 1],
{
    let ghost journal = store@;
    let ghost begun = *store;
    let ghost session = verified@;
    proof {
        crate::store::lemma_talk_start(*store);
        assert(journal + Seq::empty() =~= journal);
    }
    let requirements = match kappa_requirements(&loaded) {
        Ok(requirements) => requirements,
        Err(e) => {
            return Err(e);
        },
    };
    let ghost reqs = crate::kappa_map::requirement_views(requirements@);
    if requirements.len() == 0 {
        return Ok(Paged { archive: copy_bytes(archive), table: WeightBindingTable::new() });
    }
    let plan = match loaded {
        Ok(plan) => plan,
        Err(e) => {
            return Err(ArchiveError::Load(e));
        },
    };
    let mut entries = match plan.constants {
        Ok(entries) => entries,
        Err(fault) => {
            return Err(ArchiveError::Constants(fault));
        },
    };
    if entries.len() == 0 {
        return Err(ArchiveError::Patch(PatchError::Empty));
    }
    let base_slot: u32 = entries[0].slot;
    let interned: Option<Vec<InternedWeight>> = match plan.weights {
        None => None,
        Some(Ok(ws)) => Some(ws),
        Some(Err(reason)) => {
            return Err(ArchiveError::Weights { reason });
        },
    };
    let ghost views = crate::materialize::entry_views(entries@);
    proof {
        assert(views[0] == entries@[0]@);
    }
    match inline_references(&mut entries, interned.as_ref()) {
        Ok(()) => {},
        Err(slot) => {
            return Err(ArchiveError::Interned { slot });
        },
    }
    let (slices, wholes) = split_requirements(&requirements);
    let ghost inline = crate::materialize::patch_state(entries@, session);
    let patch = patch_constants(&mut entries, &slices, store, verified);
    let ghost t1 = crate::store::gained(journal, store@);
    let ghost middle = store@;
    let ghost between = *store;
    match patch {
        Ok(()) => {},
        Err(e) => {
            return Err(ArchiveError::Patch(e));
        },
    }
    let mut table = WeightBindingTable::new();
    let page = page_requirements(&mut entries, base_slot, &wholes, store, &mut table);
    proof {
        let t2 = crate::store::gained(middle, store@);
        let t = t1 + t2;
        assert(store@ =~= journal + t);
        assert(crate::store::gained(journal, store@) =~= t);
        crate::materialize::lemma_patched_local(inline, ranged(reqs), t1, t);
        assert(t.skip(t1.len() as int) =~= t2);
        crate::store::lemma_talk_join(begun, between, *store);
    }
    match page {
        Ok(()) => {},
        Err(e) => {
            return Err(e);
        },
    }
    let constants = encode(&entries);
    proof {
        assert(call_ensures(encode, (&entries,), constants));
    }
    let rule = Rewrite::Page { constants, beside_map: plan.beside_map };
    match reassemble(archive, &plan.format, &plan.sections, &rule) {
        Ok(out) => Ok(Paged { archive: out, table }),
        Err(e) => Err(ArchiveError::Assemble(e)),
    }
}

/// Paging does not change what a weight is: the reference that replaces a
/// binding of some content carries the digest of that very content, and the
/// table sends that digest back to its label.
pub proof fn law_a_paged_reference_names_its_content(
    state: PageState,
    base_slot: u32,
    req: RequirementV,
    oracle: Seq<StoreEvent>,
    content: Seq<u8>,
)
    requires
        req.kappa == crate::kappa::kappa_label(content),
        page_one(state, base_slot, req, oracle).outcome is Ok,
    ensures
        ({
            let after = page_one(state, base_slot, req, oracle).state;
            let digest = crate::kappa::blake3_digest(content)@;
            &&& after.entries[req.constant as int].by_reference
            &&& after.entries[req.constant as int].fingerprint == digest
            &&& after.table.dom().contains(digest)
            &&& after.table[digest].kappa == req.kappa
        }),
{
    crate::kappa::law_kappa_names_the_content_digest(content);
}

/// Paging reads no body: it asks the store for sizes alone.
pub proof fn law_paging_asks_only_for_sizes(
    state: PageState,
    base_slot: u32,
    reqs: Seq<RequirementV>,
    oracle: Seq<StoreEvent>,
)
    ensures
        forall|i: int|
            0 <= i < page_whole(state, base_slot, reqs, oracle).events.len()
                ==> #[trigger] page_whole(state, base_slot, reqs, oracle).events[i] is ContentSize,
    decreases reqs.len(),
{
    if reqs.len() > 0 {
        law_paging_asks_only_for_sizes(state, base_slot, reqs.drop_last(), oracle);
        let front = page_whole(state, base_slot, reqs.drop_last(), oracle);
        let run = page_whole(state, base_slot, reqs, oracle);
        assert forall|i: int| 0 <= i < run.events.len() implies #[trigger] run.events[i] is ContentSize by {
            if i < front.events.len() {
                assert(run.events[i] == front.events[i]);
            }
        }
    }
}

/// Whether every reference among `entries` has a binding in `table`.
pub open spec fn served(entries: Seq<EntryV>, table: Map<Seq<u8>, BindingV>) -> bool {
    forall|i: int|
        0 <= i < entries.len() && (#[trigger] entries[i]).by_reference ==> table.dom().contains(
            entries[i].fingerprint,
        )
}

proof fn lemma_inlined_has_no_references(
    entries: Seq<EntryV>,
    weights: Option<Seq<InternedWeight>>,
)
    requires
        inlined(entries, weights) is Ok,
    ensures
        inlined(entries, weights)->Ok_0.len() == entries.len(),
        forall|i: int|
            0 <= i < entries.len() ==> !(#[trigger] inlined(entries, weights)->Ok_0[i]).by_reference,
    decreases entries.len(),
{
    if entries.len() > 0 {
        lemma_inlined_has_no_references(entries.drop_last(), weights);
    }
}

proof fn lemma_page_whole_serves(
    state: PageState,
    base_slot: u32,
    reqs: Seq<RequirementV>,
    oracle: Seq<StoreEvent>,
)
    requires
        served(state.entries, state.table),
    ensures
        served(
            page_whole(state, base_slot, reqs, oracle).state.entries,
            page_whole(state, base_slot, reqs, oracle).state.table,
        ),
    decreases reqs.len(),
{
    if reqs.len() > 0 {
        lemma_page_whole_serves(state, base_slot, reqs.drop_last(), oracle);
        let front = page_whole(state, base_slot, reqs.drop_last(), oracle);
        if front.outcome is Ok {
            let rest = oracle.skip(front.events.len() as int);
            let step = page_one(front.state, base_slot, reqs.last(), rest);
            let c = reqs.last().constant;
            assert forall|i: int|
                0 <= i < step.state.entries.len() && (
                #[trigger] step.state.entries[i]).by_reference implies step.state.table.dom().contains(
            step.state.entries[i].fingerprint) by {
                if step.outcome is Ok && i != c {
                    assert(step.state.entries[i] == front.state.entries[i]);
                }
            }
        }
    }
}

/// A paged archive refers to nothing that its table does not serve.
pub proof fn law_every_paged_reference_is_served(
    entries: Seq<EntryV>,
    weights: Option<Seq<InternedWeight>>,
    reqs: Seq<RequirementV>,
    verified: Set<Seq<char>>,
    oracle: Seq<StoreEvent>,
)
    requires
        page_entries(entries, weights, reqs, verified, oracle).outcome is Ok,
    ensures
        page_entries(entries, weights, reqs, verified, oracle).outcome matches Ok(
            PagedV::Paged { entries: e, table },
        ) && served(e, table),
{
    lemma_inlined_has_no_references(entries, weights);
    let inline = inlined(entries, weights)->Ok_0;
    let start = PatchState { entries: inline, verified };
    let run = crate::materialize::patched(start, ranged(reqs), oracle);
    if inline.len() > 0 {
        crate::materialize::law_patching_writes_only_bound_constants(
            start,
            inline[0].slot,
            ranged(reqs),
            oracle,
        );
    }
    assert(served(run.state.entries, Map::empty())) by {
        assert forall|i: int|
            0 <= i < run.state.entries.len() implies !(
            #[trigger] run.state.entries[i]).by_reference by {
            assert(inline[i].by_reference == run.state.entries[i].by_reference);
        }
    }
    lemma_page_whole_serves(
        PageState { entries: run.state.entries, table: Map::empty() },
        entries[0].slot,
        whole(reqs),
        oracle.skip(run.events.len() as int),
    );
}

/// A label that an archive binds only whole is only sized: no request of the run moves
/// its content, or a part of it, or has it evicted.
pub proof fn law_a_label_bound_whole_is_only_sized(
    loaded: Result<ArchivePlan, LoadError>,
    verified: Set<Seq<char>>,
    oracle: Seq<StoreEvent>,
    kappa: Seq<char>,
)
    requires
        crate::plan::requirements_of(loaded) matches Ok(reqs) ==> forall|k: int|
            0 <= k < reqs.len() && (#[trigger] reqs[k]).kappa == kappa ==> reqs[k].range is None,
    ensures
        forall|i: int|
            0 <= i < paged_run(loaded, verified, oracle).events.len()
                && crate::materialize::asked_kappa(
                #[trigger] paged_run(loaded, verified, oracle).events[i],
            ) == kappa ==> paged_run(loaded, verified, oracle).events[i] is ContentSize,
{
    let run = paged_run(loaded, verified, oracle);
    if run.events.len() > 0 {
        let reqs = crate::plan::requirements_of(loaded)->Ok_0;
        let entries = crate::materialize::entry_views((loaded->Ok_0).constants->Ok_0@);
        let inline = inlined(entries, interned_weights(loaded->Ok_0)->Ok_0)->Ok_0;
        let start = PatchState { entries: inline, verified };
        let slices = crate::materialize::patched(start, ranged(reqs), oracle);
        let rest = oracle.skip(slices.events.len() as int);
        let state = PageState { entries: slices.state.entries, table: Map::empty() };
        law_paging_asks_only_for_sizes(state, entries[0].slot, whole(reqs), rest);
        assert forall|i: int|
            0 <= i < run.events.len() && crate::materialize::asked_kappa(#[trigger] run.events[i])
                == kappa implies run.events[i] is ContentSize by {
            if i < slices.events.len() {
                assert(run.events[i] == slices.events[i]);
                crate::materialize::law_only_bound_labels_are_asked_for(
                    start,
                    inline[0].slot,
                    ranged(reqs),
                    oracle,
                    i,
                );
                let k = choose|k: int|
                    0 <= k < ranged(reqs).len() && crate::materialize::asked_kappa(
                        slices.events[i],
                    ) == (#[trigger] ranged(reqs)[k]).kappa;
                lemma_ranged(reqs, k);
                let j = choose|j: int| 0 <= j < reqs.len() && reqs[j] == ranged(reqs)[k];
                assert(reqs[j].range is Some);
            }
        }
    }
}

/// Whether a table binds nothing but what some whole bindings name: each fingerprint is
/// the digest of the label of one of them, and its size is what the store answered for
/// that label.
pub open spec fn binds_only(
    table: Map<Seq<u8>, BindingV>,
    reqs: Seq<RequirementV>,
    events: Seq<StoreEvent>,
) -> bool {
    forall|fingerprint: Seq<u8>| #[trigger]
        table.dom().contains(fingerprint) ==> {
            let binding = table[fingerprint];
            &&& exists|k: int|
                0 <= k < reqs.len() && (#[trigger] reqs[k]).range is None && reqs[k].kappa
                    == binding.kappa
            &&& crate::kappa::label_digest(binding.kappa) == Ok::<Seq<u8>, DigestError>(fingerprint)
            &&& events.contains(
                StoreEvent::ContentSize { kappa: binding.kappa, size: Ok(binding.size) },
            )
        }
}

/// Whether a table binds everything that some whole bindings name.
pub open spec fn binds_every(table: Map<Seq<u8>, BindingV>, reqs: Seq<RequirementV>) -> bool {
    forall|k: int|
        0 <= k < reqs.len() && (#[trigger] reqs[k]).range is None ==> (
        crate::kappa::label_digest(reqs[k].kappa) matches Ok(digest) && table.dom().contains(
            digest,
        ))
}

proof fn lemma_page_whole_binds(
    state: PageState,
    base_slot: u32,
    reqs: Seq<RequirementV>,
    oracle: Seq<StoreEvent>,
)
    requires
        state.table == Map::<Seq<u8>, BindingV>::empty(),
        forall|k: int| 0 <= k < reqs.len() ==> (#[trigger] reqs[k]).range is None,
        page_whole(state, base_slot, reqs, oracle).outcome is Ok,
    ensures
        ({
            let run = page_whole(state, base_slot, reqs, oracle);
            binds_only(run.state.table, reqs, run.events) && binds_every(run.state.table, reqs)
        }),
    decreases reqs.len(),
{
    if reqs.len() > 0 {
        let before = reqs.drop_last();
        let front = page_whole(state, base_slot, before, oracle);
        let run = page_whole(state, base_slot, reqs, oracle);
        lemma_page_whole_binds(state, base_slot, before, oracle);
        let last = reqs.last();
        assert(reqs[reqs.len() - 1] == last);
        let digest = crate::kappa::label_digest(last.kappa)->Ok_0;
        assert forall|fingerprint: Seq<u8>| #[trigger]
            run.state.table.dom().contains(fingerprint) implies ({
            let binding = run.state.table[fingerprint];
            &&& exists|k: int|
                0 <= k < reqs.len() && (#[trigger] reqs[k]).range is None && reqs[k].kappa
                    == binding.kappa
            &&& crate::kappa::label_digest(binding.kappa) == Ok::<Seq<u8>, DigestError>(fingerprint)
            &&& run.events.contains(
                StoreEvent::ContentSize { kappa: binding.kappa, size: Ok(binding.size) },
            )
        }) by {
            let binding = run.state.table[fingerprint];
            let event = StoreEvent::ContentSize { kappa: binding.kappa, size: Ok(binding.size) };
            if fingerprint == digest {
                assert(run.events[run.events.len() - 1] == event);
            } else {
                assert(front.state.table.dom().contains(fingerprint));
                let k = choose|k: int|
                    0 <= k < before.len() && (#[trigger] before[k]).range is None && before[k].kappa
                        == binding.kappa;
                assert(reqs[k] == before[k]);
                let i = choose|i: int| 0 <= i < front.events.len() && front.events[i] == event;
                assert(run.events[i] == event);
            }
        }
        assert forall|k: int|
            0 <= k < reqs.len() && (#[trigger] reqs[k]).range is None implies (
        crate::kappa::label_digest(reqs[k].kappa) matches Ok(d)
            && run.state.table.dom().contains(d)) by {
            if k < before.len() {
                assert(before[k] == reqs[k]);
            }
        }
    }
}

/// The table of a paged archive binds the whole bindings of its κ-map and nothing else,
/// and each size in it is the answer of the store.
pub proof fn law_the_table_binds_the_whole_bindings(
    loaded: Result<ArchivePlan, LoadError>,
    verified: Set<Seq<char>>,
    oracle: Seq<StoreEvent>,
    reqs: Seq<RequirementV>,
    entries: Seq<EntryV>,
    table: Map<Seq<u8>, BindingV>,
)
    requires
        crate::plan::requirements_of(loaded) == Ok::<Seq<RequirementV>, ArchiveErrorV>(reqs),
        paged_run(loaded, verified, oracle).outcome == Ok::<PagedV, ArchiveErrorV>(
            PagedV::Paged { entries, table },
        ),
    ensures
        binds_only(table, reqs, paged_run(loaded, verified, oracle).events),
        binds_every(table, reqs),
{
    let run = paged_run(loaded, verified, oracle);
    let views = crate::materialize::entry_views((loaded->Ok_0).constants->Ok_0@);
    let inline = inlined(views, interned_weights(loaded->Ok_0)->Ok_0)->Ok_0;
    let slices = crate::materialize::patched(
        PatchState { entries: inline, verified },
        ranged(reqs),
        oracle,
    );
    let rest = oracle.skip(slices.events.len() as int);
    let state = PageState { entries: slices.state.entries, table: Map::empty() };
    let paged = page_whole(state, views[0].slot, whole(reqs), rest);
    assert forall|k: int| 0 <= k < whole(reqs).len() implies (
    #[trigger] whole(reqs)[k]).range is None by {
        lemma_whole(reqs, k);
    }
    lemma_page_whole_binds(state, views[0].slot, whole(reqs), rest);
    assert forall|fingerprint: Seq<u8>| #[trigger] table.dom().contains(fingerprint) implies ({
        let binding = table[fingerprint];
        &&& exists|k: int|
            0 <= k < reqs.len() && (#[trigger] reqs[k]).range is None && reqs[k].kappa
                == binding.kappa
        &&& crate::kappa::label_digest(binding.kappa) == Ok::<Seq<u8>, DigestError>(fingerprint)
        &&& run.events.contains(
            StoreEvent::ContentSize { kappa: binding.kappa, size: Ok(binding.size) },
        )
    }) by {
        let binding = table[fingerprint];
        let event = StoreEvent::ContentSize { kappa: binding.kappa, size: Ok(binding.size) };
        let k = choose|k: int|
            0 <= k < whole(reqs).len() && (#[trigger] whole(reqs)[k]).range is None && whole(
                reqs,
            )[k].kappa == binding.kappa;
        lemma_whole(reqs, k);
        let j = choose|j: int| 0 <= j < reqs.len() && reqs[j] == whole(reqs)[k];
        assert(reqs[j].kappa == binding.kappa);
        let i = choose|i: int| 0 <= i < paged.events.len() && paged.events[i] == event;
        assert(run.events[slices.events.len() + i] == event);
    }
    assert forall|k: int| 0 <= k < reqs.len() && (#[trigger] reqs[k]).range is None implies (
    crate::kappa::label_digest(reqs[k].kappa) matches Ok(d) && table.dom().contains(d)) by {
        lemma_whole_keeps(reqs, k);
        let j = choose|j: int| 0 <= j < whole(reqs).len() && whole(reqs)[j] == reqs[k];
        assert(whole(reqs)[j].range is None);
    }
}

proof fn lemma_ranged(reqs: Seq<RequirementV>, k: int)
    requires
        0 <= k < ranged(reqs).len(),
    ensures
        ranged(reqs)[k].range is Some,
        reqs.contains(ranged(reqs)[k]),
{
    let p = |r: RequirementV| r.range is Some;
    assert(ranged(reqs) == reqs.filter(p));
    reqs.lemma_filter_pred(p, k);
    assert(reqs.filter(p).contains(ranged(reqs)[k]));
    reqs.lemma_filter_contains_rev(p, ranged(reqs)[k]);
}

proof fn lemma_whole(reqs: Seq<RequirementV>, k: int)
    requires
        0 <= k < whole(reqs).len(),
    ensures
        whole(reqs)[k].range is None,
        reqs.contains(whole(reqs)[k]),
{
    let p = |r: RequirementV| r.range is None;
    assert(whole(reqs) == reqs.filter(p));
    reqs.lemma_filter_pred(p, k);
    assert(reqs.filter(p).contains(whole(reqs)[k]));
    reqs.lemma_filter_contains_rev(p, whole(reqs)[k]);
}

proof fn lemma_whole_keeps(reqs: Seq<RequirementV>, k: int)
    requires
        0 <= k < reqs.len(),
        reqs[k].range is None,
    ensures
        whole(reqs).contains(reqs[k]),
{
    let p = |r: RequirementV| r.range is None;
    assert(whole(reqs) == reqs.filter(p));
    reqs.lemma_filter_contains(p, k);
}

/// Whether a loader tells the κ-map apart: where it finds the map among the extensions,
/// it marks the section that holds it.
pub open spec fn marks_the_map(plan: ArchivePlan) -> bool {
    plan.extensions matches Ok(extensions) ==> crate::plan::extension_under(
        extensions@,
        crate::plan::KAPPA_MAP_EXTENSION@,
    ) is Some ==> exists|i: int|
        0 <= i < plan.sections@.len() && (#[trigger] plan.sections@[i]).kind
            == crate::archive::SectionKind::KappaMap
}

/// A paged archive states no bindings. What a loader that tells the κ-map apart makes
/// of the table that was written has no requirements; so paging it once more changes
/// nothing and asks the store for nothing.
pub proof fn law_a_paged_archive_states_no_bindings(
    archive: Seq<u8>,
    plan: ArchivePlan,
    constants: Seq<u8>,
    again: ArchivePlan,
    verified: Set<Seq<char>>,
    oracle: Seq<StoreEvent>,
)
    requires
        ({
            let rule = RewriteV::Page {
                constants,
                beside_map: crate::bytes::bytes_view(plan.beside_map),
            };
            crate::archive::payloads_of(archive, plan.sections@, rule) matches Ok(payloads)
                && again.sections@ == crate::archive::written_sections(payloads)
        }),
        again.extensions is Ok,
        marks_the_map(again),
    ensures
        crate::plan::requirements_of(Ok::<ArchivePlan, LoadError>(again)) == Ok::<
            Seq<RequirementV>,
            ArchiveErrorV,
        >(Seq::empty()),
        paged_run(Ok::<ArchivePlan, LoadError>(again), verified, oracle) == (PagedRun {
            outcome: Ok::<PagedV, ArchiveErrorV>(PagedV::Unchanged),
            verified,
            events: Seq::empty(),
        }),
{
    let beside_map = crate::bytes::bytes_view(plan.beside_map);
    let rule = RewriteV::Page { constants, beside_map };
    let payloads = crate::archive::payloads_of(archive, plan.sections@, rule)->Ok_0;
    crate::archive::law_a_paged_archive_holds_nothing_stale(
        archive,
        plan.sections@,
        constants,
        beside_map,
    );
    crate::archive::lemma_written_len(payloads, crate::archive::first_offset(payloads));
    assert forall|i: int| 0 <= i < again.sections@.len() implies (
    #[trigger] again.sections@[i]).kind != crate::archive::SectionKind::KappaMap by {
        assert(!crate::archive::stale_when_paged(
            crate::archive::written_sections(payloads)[i].kind,
        ));
    }
}

/// The bytes that a table addresses are those of its bindings together: none for an
/// empty table, and one binding more adds its own.
pub proof fn law_a_table_addresses_its_bindings(
    m: Map<Seq<u8>, BindingV>,
    k: Seq<u8>,
    b: BindingV,
)
    requires
        m.dom().finite(),
    ensures
        table_total(Map::empty()) == 0,
        !m.dom().contains(k) ==> table_total(m.insert(k, b)) == table_total(m) + b.size,
        m.dom().contains(k) ==> table_total(m.insert(k, b)) == table_total(m) - m[k].size + b.size,
{
    let n = m.insert(k, b);
    assert(n.dom() =~= m.dom().insert(k));
    lemma_table_total_remove(n, k);
    if m.dom().contains(k) {
        lemma_table_total_remove(m, k);
        assert(n.remove(k) =~= m.remove(k));
    } else {
        assert(n.remove(k) =~= m);
    }
}

/// The body of a fingerprint is that of the first weight that has it; there is none
/// exactly where no weight has it.
pub proof fn law_the_first_weight_of_a_fingerprint_counts(
    weights: Seq<InternedWeight>,
    fingerprint: Seq<u8>,
)
    ensures
        match interned_body(weights, fingerprint) {
            Some(body) => exists|i: int|
                0 <= i < weights.len() && (#[trigger] weights[i]).fingerprint@ == fingerprint
                    && weights[i].body@ == body && forall|k: int|
                    0 <= k < i ==> (#[trigger] weights[k]).fingerprint@ != fingerprint,
            None => forall|k: int|
                0 <= k < weights.len() ==> (#[trigger] weights[k]).fingerprint@ != fingerprint,
        },
    decreases weights.len(),
{
    if weights.len() > 0 {
        if weights[0].fingerprint@ == fingerprint {
            assert(weights[0].body@ == weights[0].body@);
        } else {
            let rest = weights.skip(1);
            law_the_first_weight_of_a_fingerprint_counts(rest, fingerprint);
            assert forall|k: int| 0 <= k < rest.len() implies #[trigger] rest[k] == weights[k
                + 1] by {}
            match interned_body(rest, fingerprint) {
                Some(body) => {
                    let i = choose|i: int|
                        0 <= i < rest.len() && (#[trigger] rest[i]).fingerprint@ == fingerprint
                            && rest[i].body@ == body && forall|k: int|
                            0 <= k < i ==> (#[trigger] rest[k]).fingerprint@ != fingerprint;
                    assert(weights[i + 1].fingerprint@ == fingerprint);
                    assert forall|k: int| 0 <= k < i + 1 implies (
                    #[trigger] weights[k]).fingerprint@ != fingerprint by {
                        if k > 0 {
                            assert(rest[k - 1] == weights[k]);
                        }
                    }
                },
                None => {
                    assert forall|k: int| 0 <= k < weights.len() implies (
                    #[trigger] weights[k]).fingerprint@ != fingerprint by {
                        if k > 0 {
                            assert(rest[k - 1] == weights[k]);
                        }
                    }
                },
            }
        }
    }
}

/// The body that some weights hold under a fingerprint.
pub open spec fn body_in(weights: Option<Seq<InternedWeight>>, fingerprint: Seq<u8>) -> Option<
    Seq<u8>,
> {
    match weights {
        Some(ws) => interned_body(ws, fingerprint),
        None => None,
    }
}

/// Inlining replaces references and nothing else: every entry stays in its place and
/// slot, an inline one as it was, and one that refers to a weight holds the body of
/// that weight inline. The first entry whose weight is lacking is the error, by its
/// slot.
pub proof fn law_inlining_replaces_references(
    entries: Seq<EntryV>,
    weights: Option<Seq<InternedWeight>>,
)
    ensures
        match inlined(entries, weights) {
            Ok(out) => out.len() == entries.len() && forall|i: int|
                0 <= i < entries.len() ==> ({
                    let e = #[trigger] entries[i];
                    &&& !e.by_reference ==> out[i] == e
                    &&& e.by_reference ==> out[i].slot == e.slot && out[i].fingerprint
                        == e.fingerprint && !out[i].by_reference && body_in(weights, e.fingerprint)
                        == Some(out[i].bytes)
                }),
            Err(slot) => exists|i: int|
                0 <= i < entries.len() && (#[trigger] entries[i]).by_reference && body_in(
                    weights,
                    entries[i].fingerprint,
                ) is None && slot == entries[i].slot && forall|k: int|
                    0 <= k < i ==> !(#[trigger] entries[k]).by_reference || body_in(
                        weights,
                        entries[k].fingerprint,
                    ) is Some,
        },
    decreases entries.len(),
{
    if entries.len() > 0 {
        let front = entries.drop_last();
        let last = entries.len() - 1;
        law_inlining_replaces_references(front, weights);
        assert(entries[last] == entries.last());
        assert forall|k: int| 0 <= k < front.len() implies #[trigger] entries[k] == front[k] by {}
        match inlined(front, weights) {
            Ok(before) => {
                assert forall|k: int| 0 <= k < last implies !(#[trigger] entries[k]).by_reference
                    || body_in(weights, entries[k].fingerprint) is Some by {
                    assert(front[k] == entries[k]);
                }
                if let Ok(out) = inlined(entries, weights) {
                    assert forall|i: int| 0 <= i < entries.len() implies ({
                        let e = #[trigger] entries[i];
                        &&& !e.by_reference ==> out[i] == e
                        &&& e.by_reference ==> out[i].slot == e.slot && out[i].fingerprint
                            == e.fingerprint && !out[i].by_reference && body_in(
                            weights,
                            e.fingerprint,
                        ) == Some(out[i].bytes)
                    }) by {
                        if i < last {
                            assert(front[i] == entries[i]);
                            assert(out[i] == before[i]);
                        }
                    }
                } else {
                    assert(entries[last].by_reference);
                }
            },
            Err(slot) => {
                let i = choose|i: int|
                    0 <= i < front.len() && (#[trigger] front[i]).by_reference && body_in(
                        weights,
                        front[i].fingerprint,
                    ) is None && slot == front[i].slot && forall|k: int|
                        0 <= k < i ==> !(#[trigger] front[k]).by_reference || body_in(
                            weights,
                            front[k].fingerprint,
                        ) is Some;
                assert(entries[i] == front[i]);
                assert forall|k: int| 0 <= k < i implies !(#[trigger] entries[k]).by_reference
                    || body_in(weights, entries[k].fingerprint) is Some by {
                    assert(front[k] == entries[k]);
                }
            },
        }
    }
}

/// What stops the paging of a whole binding: a constant behind the last entry, an entry
/// in another slot or one that is a reference already, each found as it is; a store
/// that does not tell the size, with its cause; or a label that names no digest.
/// Whatever stops it, entries and table are as they were.
pub proof fn law_what_stops_a_paged_binding(
    state: PageState,
    base_slot: u32,
    req: RequirementV,
    oracle: Seq<StoreEvent>,
)
    ensures
        ({
            let run = page_one(state, base_slot, req, oracle);
            let c = req.constant as int;
            run.outcome matches Err(e) ==> run.state == state && match e {
                ArchiveErrorV::Patch(PatchErrorV::MissingEntry { constant }) => constant == c && c
                    >= state.entries.len() && run.events.len() == 0,
                ArchiveErrorV::Patch(PatchErrorV::Drift { constant, slot }) => c
                    < state.entries.len() && constant == c && slot == state.entries[c].slot && slot
                    != base_slot + c && run.events.len() == 0,
                ArchiveErrorV::Patch(PatchErrorV::Reference { constant }) => c < state.entries.len()
                    && constant == c && state.entries[c].by_reference && run.events.len() == 0,
                ArchiveErrorV::Size { kappa, cause } => kappa == req.kappa && run.events.len() == 1
                    && run.events[0] == (StoreEvent::ContentSize { kappa, size: Err(cause) }),
                ArchiveErrorV::Digest { kappa, error } => kappa == req.kappa
                    && crate::kappa::label_digest(kappa) == Err::<Seq<u8>, DigestError>(error) && (
                run.events[0] matches StoreEvent::ContentSize { kappa: k, size: Ok(n) } && k
                    == kappa && run.events.len() == 1),
                _ => false,
            }
        }),
{
}

/// What the paging of a whole binding does: the entry of its constant, found inline in
/// the slot of its id, becomes a reference to the digest that the label names, and the
/// table sends that digest to the label with the size that the store told; nothing else
/// in either changes.
pub proof fn law_what_a_paged_binding_does(
    state: PageState,
    base_slot: u32,
    req: RequirementV,
    oracle: Seq<StoreEvent>,
)
    requires
        page_one(state, base_slot, req, oracle).outcome is Ok,
    ensures
        ({
            let run = page_one(state, base_slot, req, oracle);
            let c = req.constant as int;
            &&& c < state.entries.len()
            &&& state.entries[c].slot == base_slot + c
            &&& !state.entries[c].by_reference
            &&& crate::kappa::label_digest(req.kappa) matches Ok(digest)
            &&& run.events.len() == 1
            &&& run.events[0] matches StoreEvent::ContentSize { kappa, size: Ok(n) }
            &&& kappa == req.kappa
            &&& run.state.entries.len() == state.entries.len()
            &&& run.state.entries[c].slot == state.entries[c].slot
            &&& run.state.entries[c].bytes.len() == 0
            &&& run.state.entries[c].by_reference
            &&& run.state.entries[c].fingerprint == digest
            &&& forall|i: int|
                0 <= i < state.entries.len() && i != c ==> #[trigger] run.state.entries[i]
                    == state.entries[i]
            &&& run.state.table.dom() == state.table.dom().insert(digest)
            &&& run.state.table[digest].kappa == req.kappa
            &&& run.state.table[digest].size == n
            &&& forall|k: Seq<u8>|
                k != digest && state.table.dom().contains(k) ==> #[trigger] run.state.table[k]
                    == state.table[k]
        }),
{
}

/// Whole bindings are paged one after the other: those behind others go on from what
/// those left, and only where those succeeded; a single one is paged alone.
pub proof fn law_whole_bindings_are_paged_in_turn(
    state: PageState,
    base_slot: u32,
    a: Seq<RequirementV>,
    b: Seq<RequirementV>,
    oracle: Seq<StoreEvent>,
)
    requires
        page_whole(state, base_slot, a + b, oracle).events.len() <= oracle.len(),
    ensures
        ({
            let front = page_whole(state, base_slot, a, oracle);
            let all = page_whole(state, base_slot, a + b, oracle);
            if front.outcome is Err {
                all == front
            } else {
                let back = page_whole(
                    front.state,
                    base_slot,
                    b,
                    oracle.skip(front.events.len() as int),
                );
                all.state == back.state && all.outcome == back.outcome && all.events
                    == front.events + back.events
            }
        }),
    decreases b.len(),
{
    let front = page_whole(state, base_slot, a, oracle);
    if b.len() == 0 {
        assert(a + b =~= a);
        assert(front.events + Seq::<StoreEvent>::empty() =~= front.events);
    } else {
        let less = b.drop_last();
        let both = (a + b).drop_last();
        assert(both =~= a + less);
        assert((a + b).last() == b.last());
        let before = page_whole(state, base_slot, both, oracle);
        lemma_whole_unfolds(state, base_slot, a + b, oracle);
        law_whole_bindings_are_paged_in_turn(state, base_slot, a, less, oracle);
        if front.outcome is Ok {
            let rest = oracle.skip(front.events.len() as int);
            let mid = page_whole(front.state, base_slot, less, rest);
            lemma_whole_unfolds(front.state, base_slot, b, rest);
            if mid.outcome is Ok {
                let left = rest.skip(mid.events.len() as int);
                assert(left =~= oracle.skip(before.events.len() as int));
                let more = page_one(mid.state, base_slot, b.last(), left).events;
                assert(front.events + mid.events + more =~= front.events + (mid.events + more));
            }
        }
    }
}

proof fn lemma_whole_unfolds(
    state: PageState,
    base_slot: u32,
    reqs: Seq<RequirementV>,
    oracle: Seq<StoreEvent>,
)
    requires
        reqs.len() > 0,
    ensures
        ({
            let run = page_whole(state, base_slot, reqs, oracle);
            let front = page_whole(state, base_slot, reqs.drop_last(), oracle);
            let step = page_one(
                front.state,
                base_slot,
                reqs.last(),
                oracle.skip(front.events.len() as int),
            );
            &&& front.outcome is Err ==> run == front
            &&& front.outcome is Ok ==> run.state == step.state && run.outcome == step.outcome
                && run.events == front.events + step.events
            &&& front.events.len() <= run.events.len()
        }),
{
}

/// A single whole binding is paged alone, from the first reply on, and none at all
/// changes nothing and asks nothing.
pub proof fn law_one_whole_binding_is_paged_alone(
    state: PageState,
    base_slot: u32,
    req: RequirementV,
    oracle: Seq<StoreEvent>,
)
    ensures
        page_whole(state, base_slot, Seq::empty(), oracle) == (PageRun {
            state,
            outcome: Ok(()),
            events: Seq::empty(),
        }),
        page_whole(state, base_slot, seq![req], oracle) == page_one(state, base_slot, req, oracle),
{
    let one = seq![req];
    assert(one.drop_last() =~= Seq::empty());
    assert(one.last() == req);
    assert(oracle.skip(0) =~= oracle);
    lemma_whole_unfolds(state, base_slot, one, oracle);
    let alone = page_one(state, base_slot, req, oracle);
    assert(Seq::<StoreEvent>::empty() + alone.events =~= alone.events);
}

proof fn lemma_page_whole_marks(
    state: PageState,
    base_slot: u32,
    reqs: Seq<RequirementV>,
    oracle: Seq<StoreEvent>,
)
    requires
        page_whole(state, base_slot, reqs, oracle).outcome is Ok,
    ensures
        ({
            let after = page_whole(state, base_slot, reqs, oracle).state.entries;
            &&& after.len() == state.entries.len()
            &&& forall|k: int|
                0 <= k < reqs.len() ==> ({
                    let r = #[trigger] reqs[k];
                    let e = after[r.constant as int];
                    &&& r.constant < after.len()
                    &&& crate::kappa::label_digest(r.kappa) == Ok::<Seq<u8>, DigestError>(
                        e.fingerprint,
                    )
                    &&& e.by_reference && e.bytes.len() == 0
                    &&& e.slot == state.entries[r.constant as int].slot
                })
            &&& forall|i: int|
                0 <= i < after.len() && (forall|k: int|
                    0 <= k < reqs.len() ==> (#[trigger] reqs[k]).constant != i)
                    ==> #[trigger] after[i] == state.entries[i]
            &&& forall|i: int| 0 <= i < after.len() && !(#[trigger] after[i]).by_reference ==> after[i]
                == state.entries[i]
            &&& forall|i: int|
                0 <= i < after.len() ==> (#[trigger] after[i]).slot == state.entries[i].slot
        }),
    decreases reqs.len(),
{
    if reqs.len() > 0 {
        let before = reqs.drop_last();
        let front = page_whole(state, base_slot, before, oracle);
        let rest = oracle.skip(front.events.len() as int);
        let last = reqs.last();
        lemma_page_whole_marks(state, base_slot, before, oracle);
        law_what_a_paged_binding_does(front.state, base_slot, last, rest);
        let mid = front.state.entries;
        let after = page_whole(state, base_slot, reqs, oracle).state.entries;
        let c = last.constant as int;
        assert(reqs[reqs.len() - 1] == last);
        assert forall|k: int| 0 <= k < reqs.len() implies ({
            let r = #[trigger] reqs[k];
            let e = after[r.constant as int];
            &&& r.constant < after.len()
            &&& crate::kappa::label_digest(r.kappa) == Ok::<Seq<u8>, DigestError>(e.fingerprint)
            &&& e.by_reference && e.bytes.len() == 0
            &&& e.slot == state.entries[r.constant as int].slot
        }) by {
            if k < before.len() {
                assert(before[k] == reqs[k]);
                let d = reqs[k].constant as int;
                assert(mid[d].by_reference);
                assert(d != c);
                assert(after[d] == mid[d]);
            }
        }
        assert forall|i: int|
            0 <= i < after.len() && (forall|k: int|
                0 <= k < reqs.len() ==> (#[trigger] reqs[k]).constant != i) implies #[trigger] after[i]
            == state.entries[i] by {
            assert forall|k: int| 0 <= k < before.len() implies (#[trigger] before[k]).constant
                != i by {
                assert(before[k] == reqs[k]);
            }
            assert(reqs[reqs.len() - 1].constant != i);
            assert(after[i] == mid[i]);
        }
        assert forall|i: int|
            0 <= i < after.len() && !(#[trigger] after[i]).by_reference implies after[i]
            == state.entries[i] by {
            assert(i != c);
            assert(after[i] == mid[i]);
        }
        assert forall|i: int| 0 <= i < after.len() implies (#[trigger] after[i]).slot
            == state.entries[i].slot by {
            if i != c {
                assert(after[i] == mid[i]);
            }
            assert(mid[i].slot == state.entries[i].slot);
        }
    }
}

/// What paging leaves in the constants: every entry keeps its place and its slot; the
/// constant of a binding of a whole content is an empty reference to the digest that
/// the label names; and a constant that no binding names is what it was, with the body
/// of its weight in place of a reference.
pub proof fn law_what_paging_leaves_in_the_constants(
    entries: Seq<EntryV>,
    weights: Option<Seq<InternedWeight>>,
    reqs: Seq<RequirementV>,
    verified: Set<Seq<char>>,
    oracle: Seq<StoreEvent>,
    after: Seq<EntryV>,
    table: Map<Seq<u8>, BindingV>,
)
    requires
        page_entries(entries, weights, reqs, verified, oracle).outcome == Ok::<
            PagedV,
            ArchiveErrorV,
        >(PagedV::Paged { entries: after, table }),
    ensures
        after.len() == entries.len(),
        forall|i: int| 0 <= i < entries.len() ==> (#[trigger] after[i]).slot == entries[i].slot,
        forall|k: int|
            0 <= k < reqs.len() && (#[trigger] reqs[k]).range is None ==> reqs[k].constant
                < after.len() && after[reqs[k].constant as int].by_reference
                && after[reqs[k].constant as int].bytes.len() == 0 && crate::kappa::label_digest(
                reqs[k].kappa,
            ) == Ok::<Seq<u8>, DigestError>(after[reqs[k].constant as int].fingerprint),
        forall|i: int|
            0 <= i < entries.len() && (forall|k: int|
                0 <= k < reqs.len() ==> (#[trigger] reqs[k]).constant != i) ==> (
            !#[trigger] entries[i].by_reference ==> after[i] == entries[i]) && (
            entries[i].by_reference ==> !after[i].by_reference && body_in(
                weights,
                entries[i].fingerprint,
            ) == Some(after[i].bytes)),
{
    law_inlining_replaces_references(entries, weights);
    let inline = inlined(entries, weights)->Ok_0;
    let start = PatchState { entries: inline, verified };
    let run = crate::materialize::patched(start, ranged(reqs), oracle);
    let mid = run.state.entries;
    if inline.len() > 0 {
        crate::materialize::law_patching_writes_only_bound_constants(
            start,
            inline[0].slot,
            ranged(reqs),
            oracle,
        );
    }
    let rest = oracle.skip(run.events.len() as int);
    let state = PageState { entries: mid, table: Map::empty() };
    lemma_page_whole_marks(state, entries[0].slot, whole(reqs), rest);
    assert(mid.len() == inline.len());
    assert forall|i: int| 0 <= i < entries.len() implies (#[trigger] after[i]).slot
        == entries[i].slot by {
        assert(mid[i].slot == inline[i].slot);
        assert(inline[i].slot == entries[i].slot);
    }
    assert forall|k: int| 0 <= k < reqs.len() && (#[trigger] reqs[k]).range is None implies reqs[k].constant
        < after.len() && after[reqs[k].constant as int].by_reference
        && after[reqs[k].constant as int].bytes.len() == 0 && crate::kappa::label_digest(
        reqs[k].kappa,
    ) == Ok::<Seq<u8>, DigestError>(after[reqs[k].constant as int].fingerprint) by {
        lemma_whole_keeps(reqs, k);
        let w = whole(reqs);
        let j = choose|j: int| 0 <= j < w.len() && w[j] == reqs[k];
        assert(w[j] == reqs[k]);
    }
    assert forall|i: int|
        0 <= i < entries.len() && (forall|k: int|
            0 <= k < reqs.len() ==> (#[trigger] reqs[k]).constant != i) implies (
    !#[trigger] entries[i].by_reference ==> after[i] == entries[i]) && (entries[i].by_reference
        ==> !after[i].by_reference && body_in(weights, entries[i].fingerprint) == Some(
        after[i].bytes,
    )) by {
        let p = |r: RequirementV| r.range is Some;
        let q = |r: RequirementV| r.range is None;
        assert forall|k: int| 0 <= k < ranged(reqs).len() implies ranged(reqs)[k].constant != i by {
            assert(ranged(reqs) == reqs.filter(p));
            let r = ranged(reqs)[k];
            assert(reqs.filter(p).contains(r));
            reqs.lemma_filter_contains_rev(p, r);
            let j = choose|j: int| 0 <= j < reqs.len() && reqs[j] == r;
            assert(reqs[j].constant != i);
        }
        assert forall|k: int| 0 <= k < whole(reqs).len() implies (
        #[trigger] whole(reqs)[k]).constant != i by {
            assert(whole(reqs) == reqs.filter(q));
            let r = whole(reqs)[k];
            assert(reqs.filter(q).contains(r));
            reqs.lemma_filter_contains_rev(q, r);
            let j = choose|j: int| 0 <= j < reqs.len() && reqs[j] == r;
            assert(reqs[j].constant != i);
        }
        assert(inline[i] == mid[i]);
        assert(after[i] == mid[i]);
    }
}

/// Paging is refused where materializing would be, and with the same words: what does
/// not load, a map that cannot be read, constants that are not at hand or are none; and
/// besides where the weights cannot be decoded. Without bindings nothing changes. None
/// of these asks the store anything.
pub proof fn law_what_paging_is_refused_for(
    loaded: Result<ArchivePlan, LoadError>,
    verified: Set<Seq<char>>,
    oracle: Seq<StoreEvent>,
)
    ensures
        ({
            let run = paged_run(loaded, verified, oracle);
            let material = crate::plan::material_run(loaded, verified, oracle);
            let quiet = run.events.len() == 0 && run.verified == verified;
            &&& crate::plan::requirements_of(loaded) matches Err(e) ==> quiet && run.outcome
                == Err::<PagedV, ArchiveErrorV>(e) && material.outcome == Err::<
                crate::plan::MaterialV,
                ArchiveErrorV,
            >(e)
            &&& crate::plan::requirements_of(loaded) matches Ok(reqs) ==> reqs.len() == 0 ==> quiet
                && run.outcome == Ok::<PagedV, ArchiveErrorV>(PagedV::Unchanged)
            &&& crate::plan::requirements_of(loaded) matches Ok(reqs) ==> reqs.len() > 0 ==> ({
                let plan = loaded->Ok_0;
                &&& plan.constants matches Err(fault) ==> quiet && run.outcome == Err::<
                    PagedV,
                    ArchiveErrorV,
                >(ArchiveErrorV::Constants(fault))
                &&& plan.constants matches Ok(entries) ==> entries@.len() == 0 ==> quiet
                    && run.outcome == Err::<PagedV, ArchiveErrorV>(
                    ArchiveErrorV::Patch(PatchErrorV::Empty),
                )
                &&& plan.constants matches Ok(entries) ==> entries@.len() > 0 ==> (
                plan.weights matches Some(Err(reason)) ==> quiet && run.outcome == Err::<
                    PagedV,
                    ArchiveErrorV,
                >(ArchiveErrorV::Weights { reason }))
            })
        }),
{
}

/// Paging goes in three steps, each from what the one before it left: references are
/// inlined, slices are materialized within the session, whole bindings are paged with
/// the replies that are left. The first step that fails is what paging fails with.
pub proof fn law_paging_goes_in_three_steps(
    entries: Seq<EntryV>,
    weights: Option<Seq<InternedWeight>>,
    reqs: Seq<RequirementV>,
    verified: Set<Seq<char>>,
    oracle: Seq<StoreEvent>,
)
    ensures
        ({
            let run = page_entries(entries, weights, reqs, verified, oracle);
            let slices = reqs.filter(|r: RequirementV| r.range is Some);
            let wholes = reqs.filter(|r: RequirementV| r.range is None);
            &&& inlined(entries, weights) matches Err(slot) ==> run.outcome == Err::<
                PagedV,
                ArchiveErrorV,
            >(ArchiveErrorV::Interned { slot }) && run.events.len() == 0
            &&& inlined(entries, weights) matches Ok(inline) ==> ({
                let first = crate::materialize::patched(
                    PatchState { entries: inline, verified },
                    slices,
                    oracle,
                );
                &&& run.verified == first.state.verified
                &&& first.outcome matches Err(e) ==> run.outcome == Err::<PagedV, ArchiveErrorV>(
                    ArchiveErrorV::Patch(e),
                ) && run.events == first.events
                &&& first.outcome is Ok ==> ({
                    let next = page_whole(
                        PageState { entries: first.state.entries, table: Map::empty() },
                        entries[0].slot,
                        wholes,
                        oracle.skip(first.events.len() as int),
                    );
                    &&& run.events == first.events + next.events
                    &&& next.outcome matches Err(e) ==> run.outcome == Err::<PagedV, ArchiveErrorV>(
                        e,
                    )
                    &&& next.outcome is Ok ==> run.outcome == Ok::<PagedV, ArchiveErrorV>(
                        PagedV::Paged { entries: next.state.entries, table: next.state.table },
                    )
                })
            })
        }),
{
    assert(ranged(reqs) == reqs.filter(|r: RequirementV| r.range is Some));
    assert(whole(reqs) == reqs.filter(|r: RequirementV| r.range is None));
}

/// A result of paging is what the run came to: its error, the archive itself with an
/// empty table where nothing pages, or the archive assembled with constants that the
/// codec gives for the entries, beside the table of the run.
pub proof fn law_what_paging_gives_out<F: Fn(&Vec<ConstantEntry>) -> Vec<u8>>(
    encode: F,
    archive: Seq<u8>,
    plan: ArchivePlan,
    outcome: Result<PagedV, ArchiveErrorV>,
    r: Result<Paged, ArchiveError>,
)
    requires
        paging_result(encode, archive, Ok(plan), outcome, r),
    ensures
        outcome matches Err(e) ==> (r matches Err(x) && x@ == e),
        outcome matches Ok(PagedV::Unchanged) ==> (r matches Ok(p) && p.archive@ == archive
            && p.table@.dom() =~= Set::<Seq<u8>>::empty()),
        outcome matches Ok(PagedV::Paged { entries, table }) ==> exists|
            v: Vec<ConstantEntry>,
            constants: Vec<u8>,
        | #[trigger]
            call_ensures(encode, (&v,), constants) && crate::materialize::entry_views(v@) == entries
                && match crate::archive::reassembled(
                archive,
                plan.format,
                plan.sections@,
                RewriteV::Page {
                    constants: constants@,
                    beside_map: match plan.beside_map {
                        Some(b) => Some(b@),
                        None => None,
                    },
                },
            ) {
                Ok(bytes) => r matches Ok(p) && p.archive@ == bytes && p.table@ == table,
                Err(e) => r matches Err(x) && x@ == ArchiveErrorV::Assemble(e),
            },
{
    if let Ok(PagedV::Paged { entries, table }) = outcome {
        assert(carries_paged(encode, archive, plan, entries, table, r));
        let (v, constants) = choose|v: Vec<ConstantEntry>, constants: Vec<u8>|
            crate::materialize::entry_views(v@) == entries && #[trigger] call_ensures(
                encode,
                (&v,),
                constants,
            ) && match crate::plan::rewritten_archive(
                archive,
                plan,
                RewriteV::Page {
                    constants: constants@,
                    beside_map: crate::bytes::bytes_view(plan.beside_map),
                },
            ) {
                Ok(out) => r matches Ok(p) && p.archive@ == out && p.table@ == table,
                Err(e) => r matches Err(x) && x@ == e,
            };
        assert(call_ensures(encode, (&v,), constants));
    }
}

/// A binding that is inserted is resolved by its fingerprint, and every other
/// fingerprint resolves as it did before.
pub proof fn law_an_inserted_binding_is_resolved(
    table: &mut WeightBindingTable,
    fingerprint: [u8; 32],
    kappa: String,
    size: u64,
    asked: &[u8; 32],
    before: Option<(&str, u64)>,
    after: Option<(&str, u64)>,
)
    requires
        call_ensures(WeightBindingTable::insert_binding, (table, fingerprint, kappa, size), ()),
        call_ensures(WeightBindingTable::resolve, (&*table, asked), before),
        call_ensures(WeightBindingTable::resolve, (&*final(table), asked), after),
    ensures
        asked@ == fingerprint@ ==> (after matches Some((k, n)) && k@ == kappa@ && n == size),
        asked@ != fingerprint@ ==> (after is Some <==> before is Some),
        asked@ != fingerprint@ && before is Some ==> after->Some_0.0@ == before->Some_0.0@
            && after->Some_0.1 == before->Some_0.1,
{
}

} // verus!
