//! κ-stores: where the content of a label comes from.
//!
//! What a store answers is its own affair. The library therefore keeps, for the
//! proofs alone, a journal of every request that it made and of every reply
//! that came back. Its contracts say that each event on record is a call of the
//! store, and what follows from the replies.

use crate::bytes::slice_range;
use crate::text::copy_str;
use vstd::prelude::*;

verus! {

/// Why a store did not answer.
#[derive(Debug, Clone, PartialEq, Eq)]
pub enum StoreError {
    /// The content of this label is not present.
    Missing { kappa: String },
    /// The range lies outside the content, which has `size` bytes.
    Range { kappa: String, offset: u64, len: u64, size: usize },
    /// The store failed for a reason of its own.
    Other { reason: String },
}

/// Whether `r` is what the reply to a request for the whole comes to as a range: its
/// slice, or an error that names the range and the size of the content.
pub open spec fn sliced(
    reply: Result<Vec<u8>, StoreError>,
    kappa: Seq<char>,
    offset: u64,
    len: u64,
    r: Result<Vec<u8>, StoreError>,
) -> bool {
    match reply {
        Err(e) => r == Err::<Vec<u8>, StoreError>(e),
        Ok(content) => match crate::bytes::byte_range(content@, offset, len) {
            Some(s) => r matches Ok(v) && v@ == s,
            None => r matches Err(StoreError::Range { kappa: k, offset: o, len: l, size }) && k@
                == kappa && o == offset && l == len && size == content@.len(),
        },
    }
}

/// Whether `r` is the byte length of the reply to a request for the whole.
pub open spec fn measured(
    reply: Result<Vec<u8>, StoreError>,
    r: Result<u64, StoreError>,
) -> bool {
    match reply {
        Err(e) => r == Err::<u64, StoreError>(e),
        Ok(content) => r matches Ok(n) && n == content@.len(),
    }
}

/// A content store that is addressed by κ-labels.
pub trait KappaStore {
    /// The content addressed by `kappa`.
    fn resolve(&mut self, kappa: &str) -> Result<Vec<u8>, StoreError>;

    /// Evict a cached entry whose content failed verification, so that the
    /// next [`KappaStore::resolve`] reaches a deeper tier. A store without a
    /// cache has nothing to do.
    fn invalidate(&mut self, _kappa: &str) {
    }

    /// The bytes `[offset, offset + len)` of the content addressed by `kappa`.
    ///
    /// The default resolves the whole, once, and slices it; a store that can seek
    /// moves only the range.
    fn resolve_range(&mut self, kappa: &str, offset: u64, len: u64) -> (r: Result<
        Vec<u8>,
        StoreError,
    >)
        default_ensures
            exists|call: &mut Self, reply: Result<Vec<u8>, StoreError>| #[trigger]
                call_ensures(Self::resolve, (call, kappa), reply) && &*call == &*old(self)
                    && &*final(call) == &*final(self) && sliced(reply, kappa@, offset, len, r),
    {
        match self.resolve(kappa) {
            Ok(bytes) => ranged_reply(bytes.as_slice(), kappa, offset, len),
            Err(e) => Err(e),
        }
    }

    /// The byte length of the content addressed by `kappa`.
    ///
    /// The default resolves the body, once, and measures it; a store that can tell
    /// a length without reading does so.
    fn content_size(&mut self, kappa: &str) -> (r: Result<u64, StoreError>)
        default_ensures
            exists|call: &mut Self, reply: Result<Vec<u8>, StoreError>| #[trigger]
                call_ensures(Self::resolve, (call, kappa), reply) && &*call == &*old(self)
                    && &*final(call) == &*final(self) && measured(reply, r),
    {
        match self.resolve(kappa) {
            Ok(bytes) => Ok(bytes.len() as u64),
            Err(e) => Err(e),
        }
    }
}

/// What a store that holds `content` answers to a ranged request: the slice,
/// or an error that names the range and the size of the content.
pub fn ranged_reply(content: &[u8], kappa: &str, offset: u64, len: u64) -> (r: Result<
    Vec<u8>,
    StoreError,
>)
    ensures
        match crate::bytes::byte_range(content@, offset, len) {
            Some(s) => r matches Ok(v) && v@ == s,
            None => r matches Err(StoreError::Range { kappa: k, offset: o, len: l, size }) && k@
                == kappa@ && o == offset && l == len && size == content@.len(),
        },
{
    match slice_range(content, offset, len) {
        Some(v) => Ok(v),
        None => Err(
            StoreError::Range { kappa: copy_str(kappa), offset, len, size: content.len() },
        ),
    }
}

/// What the reply of a seekable tier to a request for `len` bytes comes to: the
/// bytes, if they are that many; nothing, if the tier missed and the whole has to
/// be resolved; else an error that names their number.
pub fn seek_reply(reply: Option<Vec<u8>>, kappa: &str, offset: u64, len: u64) -> (r: Result<
    Option<Vec<u8>>,
    StoreError,
>)
    ensures
        match reply {
            None => r matches Ok(None),
            Some(bytes) => if bytes@.len() == len {
                r == Ok::<Option<Vec<u8>>, StoreError>(Some(bytes))
            } else {
                r matches Err(StoreError::Range { kappa: k, offset: o, len: l, size }) && k@
                    == kappa@ && o == offset && l == len && size == bytes@.len()
            },
        },
{
    match reply {
        None => Ok(None),
        Some(bytes) => {
            let got: usize = bytes.len();
            if got as u64 == len {
                Ok(Some(bytes))
            } else {
                Err(StoreError::Range { kappa: copy_str(kappa), offset, len, size: got })
            }
        },
    }
}

/// The model of a reply with bytes.
pub open spec fn reply_view(r: Result<Vec<u8>, StoreError>) -> Result<Seq<u8>, StoreError> {
    match r {
        Ok(v) => Ok(v@),
        Err(e) => Err(e),
    }
}

/// One request to a store and the reply that it gave.
pub enum StoreEvent {
    Resolve { kappa: Seq<char>, reply: Result<Seq<u8>, StoreError> },
    Invalidate { kappa: Seq<char> },
    ResolveRange { kappa: Seq<char>, offset: u64, len: u64, reply: Result<Seq<u8>, StoreError> },
    ContentSize { kappa: Seq<char>, size: Result<u64, StoreError> },
}

/// The bytes that a `Resolve` event gave.
pub open spec fn resolved(e: StoreEvent) -> Result<Seq<u8>, StoreError> {
    e->Resolve_reply
}

/// The bytes that a `ResolveRange` event gave.
pub open spec fn resolved_range(e: StoreEvent) -> Result<Seq<u8>, StoreError> {
    e->ResolveRange_reply
}

/// The size that a `ContentSize` event gave.
pub open spec fn sized(e: StoreEvent) -> Result<u64, StoreError> {
    e->size
}

/// The events that a journal gained.
pub open spec fn gained(before: Seq<StoreEvent>, after: Seq<StoreEvent>) -> Seq<StoreEvent> {
    after.skip(before.len() as int)
}

/// Whether a request and its reply on record are this call of the store.
pub open spec fn made<S: KappaStore>(call: &mut S, event: StoreEvent) -> bool {
    match event {
        StoreEvent::Resolve { kappa, reply } => exists|k: &str, r: Result<Vec<u8>, StoreError>|
            #[trigger]
            call_ensures(S::resolve, (call, k), r) && k@ == kappa && reply_view(r) == reply,
        StoreEvent::Invalidate { kappa } => exists|k: &str| #[trigger]
            call_ensures(S::invalidate, (call, k), ()) && k@ == kappa,
        StoreEvent::ResolveRange { kappa, offset, len, reply } => exists|
            k: &str,
            r: Result<Vec<u8>, StoreError>,
        | #[trigger]
            call_ensures(S::resolve_range, (call, k, offset, len), r) && k@ == kappa && reply_view(
                r,
            ) == reply,
        StoreEvent::ContentSize { kappa, size } => exists|k: &str| #[trigger]
            call_ensures(S::content_size, (call, k), size) && k@ == kappa,
    }
}

/// Whether the events on record are these calls of the store, one for one: the first
/// was made in the state `before`, each in the state that the one in front of it left,
/// and the last left `after`.
///
/// `states` lists the states: the call at position `i` was made in `states[i]`, and
/// has to leave `states[i + 1]`.
pub open spec fn calls_of<S: KappaStore>(
    before: S,
    states: Seq<S>,
    calls: Seq<&mut S>,
    events: Seq<StoreEvent>,
    after: S,
) -> bool {
    &&& states.len() == events.len() + 1
    &&& calls.len() == events.len()
    &&& states[0] == before
    &&& states[events.len() as int] == after
    &&& forall|i: int|
        0 <= i < events.len() ==> *calls[i] == states[i] && made(#[trigger] calls[i], events[i])
}

/// Nothing asked leaves a store as it is.
proof fn lemma_no_call<S: KappaStore>(store: S)
    ensures
        exists|states: Seq<S>, calls: Seq<&mut S>| #[trigger]
            calls_of(store, states, calls, Seq::empty(), store) && forall|i: int|
                0 <= i < calls.len() ==> *final(#[trigger] calls[i]) == states[i + 1],
{
    let states = seq![store];
    let calls = Seq::<&mut S>::empty();
    assert(calls_of(store, states, calls, Seq::empty(), store));
}

/// A single call is a conversation of one event.
proof fn lemma_one_call<S: KappaStore>(before: S, event: StoreEvent, after: S)
    requires
        exists|call: &mut S| #[trigger]
            made(call, event) && *call == before && *final(call) == after,
    ensures
        exists|states: Seq<S>, calls: Seq<&mut S>| #[trigger]
            calls_of(before, states, calls, Seq::empty().push(event), after) && forall|i: int|
                0 <= i < calls.len() ==> *final(#[trigger] calls[i]) == states[i + 1],
{
    let call = choose|call: &mut S| #[trigger]
        made(call, event) && *call == before && *final(call) == after;
    let states = seq![before, after];
    let calls = seq![call];
    assert(calls_of(before, states, calls, Seq::empty().push(event), after));
}

/// What was asked first and what was asked then are one conversation.
proof fn lemma_calls_join<S: KappaStore>(
    before: S,
    first: Seq<StoreEvent>,
    mid: S,
    second: Seq<StoreEvent>,
    after: S,
)
    requires
        exists|states: Seq<S>, calls: Seq<&mut S>| #[trigger]
            calls_of(before, states, calls, first, mid) && forall|i: int|
                0 <= i < calls.len() ==> *final(#[trigger] calls[i]) == states[i + 1],
        exists|states: Seq<S>, calls: Seq<&mut S>| #[trigger]
            calls_of(mid, states, calls, second, after) && forall|i: int|
                0 <= i < calls.len() ==> *final(#[trigger] calls[i]) == states[i + 1],
    ensures
        exists|states: Seq<S>, calls: Seq<&mut S>| #[trigger]
            calls_of(before, states, calls, first + second, after) && forall|i: int|
                0 <= i < calls.len() ==> *final(#[trigger] calls[i]) == states[i + 1],
{
    let (s, c) = choose|states: Seq<S>, calls: Seq<&mut S>| #[trigger]
        calls_of(before, states, calls, first, mid) && forall|i: int|
            0 <= i < calls.len() ==> *final(#[trigger] calls[i]) == states[i + 1];
    let (t, d) = choose|states: Seq<S>, calls: Seq<&mut S>| #[trigger]
        calls_of(mid, states, calls, second, after) && forall|i: int|
            0 <= i < calls.len() ==> *final(#[trigger] calls[i]) == states[i + 1];
    let states = s.drop_last() + t;
    let calls = c + d;
    assert(calls_of(before, states, calls, first + second, after));
    assert forall|i: int| 0 <= i < calls.len() implies *final(#[trigger] calls[i]) == states[i
        + 1] by {
        if i < c.len() {
            assert(calls[i] == c[i]);
        } else {
            assert(calls[i] == d[i - c.len()]);
        }
    }
}

/// A store whose requests and replies are on record. The record exists for the
/// proofs only.
pub struct JournaledStore<S> {
    inner: S,
    journal: Ghost<Seq<StoreEvent>>,
}

impl<S> View for JournaledStore<S> {
    type V = Seq<StoreEvent>;

    closed spec fn view(&self) -> Seq<StoreEvent> {
        self.journal@
    }
}

impl<S> JournaledStore<S> {
    /// The store itself.
    pub closed spec fn inner(&self) -> S {
        self.inner
    }
}

impl<S: KappaStore> JournaledStore<S> {
    /// A journal that begins with nothing asked.
    pub fn new(inner: S) -> (r: JournaledStore<S>)
        ensures
            r@ == Seq::<StoreEvent>::empty(),
            r.inner() == inner,
    {
        JournaledStore { inner, journal: Ghost(Seq::empty()) }
    }

    /// Give the store back.
    pub fn into_inner(self) -> (r: S)
        ensures
            r == self.inner(),
    {
        self.inner
    }

    /// Ask for the content of `kappa`.
    pub fn resolve(&mut self, kappa: &str) -> (r: Result<Vec<u8>, StoreError>)
        ensures
            final(self)@ == old(self)@.push(
                StoreEvent::Resolve { kappa: kappa@, reply: reply_view(r) },
            ),
            exists|call: &mut S| #[trigger]
                call_ensures(S::resolve, (call, kappa), r) && *call == old(self).inner()
                    && *final(call) == final(self).inner(),
            exists|states: Seq<S>, calls: Seq<&mut S>| #[trigger]
                calls_of(
                    old(self).inner(),
                    states,
                    calls,
                    gained(old(self)@, final(self)@),
                    final(self).inner(),
                ) && forall|i: int|
                    0 <= i < calls.len() ==> *final(#[trigger] calls[i]) == states[i + 1],
    {
        let ghost before = self.inner();
        let r = self.inner.resolve(kappa);
        self.journal = Ghost(
            self.journal@.push(StoreEvent::Resolve { kappa: kappa@, reply: reply_view(r) }),
        );
        proof {
            let event = StoreEvent::Resolve { kappa: kappa@, reply: reply_view(r) };
            assert(exists|call: &mut S| #[trigger]
                made(call, event) && *call == before && *final(call) == self.inner()) by {
                let call = choose|call: &mut S| #[trigger]
                    call_ensures(S::resolve, (call, kappa), r) && *call == before && *final(call)
                        == self.inner();
                assert(made(call, event));
            }
            lemma_one_call(before, event, self.inner());
            assert(gained(old(self)@, self@) =~= Seq::empty().push(event));
        }
        r
    }

    /// Have the cached entry of `kappa` evicted.
    pub fn invalidate(&mut self, kappa: &str)
        ensures
            final(self)@ == old(self)@.push(StoreEvent::Invalidate { kappa: kappa@ }),
            exists|call: &mut S| #[trigger]
                call_ensures(S::invalidate, (call, kappa), ()) && *call == old(self).inner()
                    && *final(call) == final(self).inner(),
            exists|states: Seq<S>, calls: Seq<&mut S>| #[trigger]
                calls_of(
                    old(self).inner(),
                    states,
                    calls,
                    gained(old(self)@, final(self)@),
                    final(self).inner(),
                ) && forall|i: int|
                    0 <= i < calls.len() ==> *final(#[trigger] calls[i]) == states[i + 1],
    {
        let ghost before = self.inner();
        self.inner.invalidate(kappa);
        self.journal = Ghost(self.journal@.push(StoreEvent::Invalidate { kappa: kappa@ }));
        proof {
            let event = StoreEvent::Invalidate { kappa: kappa@ };
            assert(exists|call: &mut S| #[trigger]
                made(call, event) && *call == before && *final(call) == self.inner()) by {
                let call = choose|call: &mut S| #[trigger]
                    call_ensures(S::invalidate, (call, kappa), ()) && *call == before && *final(call)
                        == self.inner();
                assert(made(call, event));
            }
            lemma_one_call(before, event, self.inner());
            assert(gained(old(self)@, self@) =~= Seq::empty().push(event));
        }
    }

    /// Ask for a range of the content of `kappa`.
    pub fn resolve_range(&mut self, kappa: &str, offset: u64, len: u64) -> (r: Result<
        Vec<u8>,
        StoreError,
    >)
        ensures
            final(self)@ == old(self)@.push(
                StoreEvent::ResolveRange { kappa: kappa@, offset, len, reply: reply_view(r) },
            ),
            exists|call: &mut S| #[trigger]
                call_ensures(S::resolve_range, (call, kappa, offset, len), r) && *call == old(self).inner()
                    && *final(call) == final(self).inner(),
            exists|states: Seq<S>, calls: Seq<&mut S>| #[trigger]
                calls_of(
                    old(self).inner(),
                    states,
                    calls,
                    gained(old(self)@, final(self)@),
                    final(self).inner(),
                ) && forall|i: int|
                    0 <= i < calls.len() ==> *final(#[trigger] calls[i]) == states[i + 1],
    {
        let ghost before = self.inner();
        let r = self.inner.resolve_range(kappa, offset, len);
        self.journal = Ghost(
            self.journal@.push(
                StoreEvent::ResolveRange { kappa: kappa@, offset, len, reply: reply_view(r) },
            ),
        );
        proof {
            let event = StoreEvent::ResolveRange { kappa: kappa@, offset, len, reply: reply_view(r) };
            assert(exists|call: &mut S| #[trigger]
                made(call, event) && *call == before && *final(call) == self.inner()) by {
                let call = choose|call: &mut S| #[trigger]
                    call_ensures(S::resolve_range, (call, kappa, offset, len), r) && *call == before && *final(call)
                        == self.inner();
                assert(made(call, event));
            }
            lemma_one_call(before, event, self.inner());
            assert(gained(old(self)@, self@) =~= Seq::empty().push(event));
        }
        r
    }

    /// Ask for the byte length of the content of `kappa`.
    pub fn content_size(&mut self, kappa: &str) -> (r: Result<u64, StoreError>)
        ensures
            final(self)@ == old(self)@.push(StoreEvent::ContentSize { kappa: kappa@, size: r }),
            exists|call: &mut S| #[trigger]
                call_ensures(S::content_size, (call, kappa), r) && *call == old(self).inner()
                    && *final(call) == final(self).inner(),
            exists|states: Seq<S>, calls: Seq<&mut S>| #[trigger]
                calls_of(
                    old(self).inner(),
                    states,
                    calls,
                    gained(old(self)@, final(self)@),
                    final(self).inner(),
                ) && forall|i: int|
                    0 <= i < calls.len() ==> *final(#[trigger] calls[i]) == states[i + 1],
    {
        let ghost before = self.inner();
        let r = self.inner.content_size(kappa);
        self.journal = Ghost(
            self.journal@.push(StoreEvent::ContentSize { kappa: kappa@, size: r }),
        );
        proof {
            let event = StoreEvent::ContentSize { kappa: kappa@, size: r };
            assert(exists|call: &mut S| #[trigger]
                made(call, event) && *call == before && *final(call) == self.inner()) by {
                let call = choose|call: &mut S| #[trigger]
                    call_ensures(S::content_size, (call, kappa), r) && *call == before && *final(call)
                        == self.inner();
                assert(made(call, event));
            }
            lemma_one_call(before, event, self.inner());
            assert(gained(old(self)@, self@) =~= Seq::empty().push(event));
        }
        r
    }
}

/// A journal that gained nothing holds no call.
pub proof fn lemma_talk_start<S: KappaStore>(store: JournaledStore<S>)
    ensures
        gained(store@, store@) == Seq::<StoreEvent>::empty(),
        exists|states: Seq<S>, calls: Seq<&mut S>| #[trigger]
            calls_of(store.inner(), states, calls, gained(store@, store@), store.inner())
                && forall|i: int|
                0 <= i < calls.len() ==> *final(#[trigger] calls[i]) == states[i + 1],
{
    assert(gained(store@, store@) =~= Seq::empty());
    lemma_no_call(store.inner());
}

/// What a journal gained up to some point and from there on are calls of its store, so
/// what it gained in all is.
pub proof fn lemma_talk_join<S: KappaStore>(
    start: JournaledStore<S>,
    mid: JournaledStore<S>,
    end: JournaledStore<S>,
)
    requires
        mid@ == start@ + gained(start@, mid@),
        end@ == mid@ + gained(mid@, end@),
        exists|states: Seq<S>, calls: Seq<&mut S>| #[trigger]
            calls_of(start.inner(), states, calls, gained(start@, mid@), mid.inner())
                && forall|i: int|
                0 <= i < calls.len() ==> *final(#[trigger] calls[i]) == states[i + 1],
        exists|states: Seq<S>, calls: Seq<&mut S>| #[trigger]
            calls_of(mid.inner(), states, calls, gained(mid@, end@), end.inner())
                && forall|i: int|
                0 <= i < calls.len() ==> *final(#[trigger] calls[i]) == states[i + 1],
    ensures
        end@ == start@ + gained(start@, end@),
        gained(start@, end@) == gained(start@, mid@) + gained(mid@, end@),
        exists|states: Seq<S>, calls: Seq<&mut S>| #[trigger]
            calls_of(start.inner(), states, calls, gained(start@, end@), end.inner())
                && forall|i: int|
                0 <= i < calls.len() ==> *final(#[trigger] calls[i]) == states[i + 1],
{
    lemma_calls_join(
        start.inner(),
        gained(start@, mid@),
        mid.inner(),
        gained(mid@, end@),
        end.inner(),
    );
    assert(gained(start@, end@) =~= gained(start@, mid@) + gained(mid@, end@));
    assert(end@ =~= start@ + gained(start@, end@));
}

/// What is on record is what the store answered: whatever holds of every answer of its
/// methods holds of the replies among the events.
pub proof fn law_the_record_is_what_the_store_answered<S: KappaStore>(
    before: S,
    events: Seq<StoreEvent>,
    after: S,
    whole: spec_fn(Seq<char>, Result<Seq<u8>, StoreError>) -> bool,
    part: spec_fn(Seq<char>, u64, u64, Result<Seq<u8>, StoreError>) -> bool,
    length: spec_fn(Seq<char>, Result<u64, StoreError>) -> bool,
)
    requires
        exists|states: Seq<S>, calls: Seq<&mut S>| #[trigger]
            calls_of(before, states, calls, events, after) && forall|i: int|
                0 <= i < calls.len() ==> *final(#[trigger] calls[i]) == states[i + 1],
        forall|call: &mut S, k: &str, r: Result<Vec<u8>, StoreError>| #[trigger]
            call_ensures(S::resolve, (call, k), r) ==> whole(k@, reply_view(r)),
        forall|call: &mut S, k: &str, offset: u64, len: u64, r: Result<Vec<u8>, StoreError>|
            #[trigger]
            call_ensures(S::resolve_range, (call, k, offset, len), r) ==> part(
                k@,
                offset,
                len,
                reply_view(r),
            ),
        forall|call: &mut S, k: &str, r: Result<u64, StoreError>| #[trigger]
            call_ensures(S::content_size, (call, k), r) ==> length(k@, r),
    ensures
        forall|i: int|
            0 <= i < events.len() ==> match #[trigger] events[i] {
                StoreEvent::Resolve { kappa, reply } => whole(kappa, reply),
                StoreEvent::ResolveRange { kappa, offset, len, reply } => part(
                    kappa,
                    offset,
                    len,
                    reply,
                ),
                StoreEvent::ContentSize { kappa, size } => length(kappa, size),
                StoreEvent::Invalidate { .. } => true,
            },
{
    let (states, calls) = choose|states: Seq<S>, calls: Seq<&mut S>| #[trigger]
        calls_of(before, states, calls, events, after);
    assert forall|i: int| 0 <= i < events.len() implies match #[trigger] events[i] {
        StoreEvent::Resolve { kappa, reply } => whole(kappa, reply),
        StoreEvent::ResolveRange { kappa, offset, len, reply } => part(kappa, offset, len, reply),
        StoreEvent::ContentSize { kappa, size } => length(kappa, size),
        StoreEvent::Invalidate { .. } => true,
    } by {
        assert(made(calls[i], events[i]));
    }
}

/// A store over a directory with one file a label.
pub struct DirKappaStore {
    root: String,
}

impl View for DirKappaStore {
    type V = Seq<char>;

    closed spec fn view(&self) -> Seq<char> {
        self.root@
    }
}

/// Where and under which label some content is filed.
pub struct DirEntry {
    pub kappa: String,
    pub file_name: String,
}

impl DirKappaStore {
    /// A store rooted at `root`.
    pub fn new(root: &str) -> (r: DirKappaStore)
        ensures
            r@ == root@,
    {
        DirKappaStore { root: copy_str(root) }
    }

    /// The directory of the store.
    pub fn root(&self) -> (r: &str)
        ensures
            r@ == self@,
    {
        self.root.as_str()
    }

    /// The entry under which `bytes` are persisted: their own label, and the
    /// file of that label.
    pub fn entry_for(&self, bytes: &[u8]) -> (e: DirEntry)
        ensures
            e.kappa@ == crate::kappa::kappa_label(bytes@),
            e.file_name@ == crate::kappa::file_name(crate::kappa::kappa_label(bytes@)),
    {
        let kappa = crate::kappa::kappa_of(bytes);
        let file_name = crate::kappa::kappa_file_name(kappa.as_str());
        DirEntry { kappa, file_name }
    }
}

/// The labels whose content has been verified in the running session.
pub struct VerifiedSet {
    labels: vstd::hash_set::StringHashSet,
}

impl View for VerifiedSet {
    type V = Set<Seq<char>>;

    closed spec fn view(&self) -> Set<Seq<char>> {
        self.labels@
    }
}

impl VerifiedSet {
    /// A session that has verified nothing.
    pub fn new() -> (r: VerifiedSet)
        ensures
            r@ == Set::<Seq<char>>::empty(),
    {
        VerifiedSet { labels: vstd::hash_set::StringHashSet::new() }
    }

    /// Whether the content of `kappa` has been verified.
    pub fn contains(&self, kappa: &str) -> (r: bool)
        ensures
            r == self@.contains(kappa@),
    {
        self.labels.contains(kappa)
    }

    /// Record that the content of `kappa` has been verified.
    pub fn insert(&mut self, kappa: &str)
        ensures
            final(self)@ == old(self)@.insert(kappa@),
    {
        let _ = self.labels.insert(copy_str(kappa));
    }
}

/// What a reply comes to as a range: a failure stays that failure; content that reaches
/// to the end of the range gives the bytes of the range; any other is an error that
/// names the label, the range and the size that there is.
pub proof fn law_a_reply_is_sliced(
    reply: Result<Vec<u8>, StoreError>,
    kappa: Seq<char>,
    offset: u64,
    len: u64,
    r: Result<Vec<u8>, StoreError>,
)
    requires
        sliced(reply, kappa, offset, len, r),
    ensures
        reply matches Err(e) ==> r == Err::<Vec<u8>, StoreError>(e),
        reply matches Ok(content) ==> offset + len <= content@.len() ==> (r matches Ok(v) && v@.len()
            == len && forall|i: int| 0 <= i < len ==> #[trigger] v@[i] == content@[offset + i]),
        reply matches Ok(content) ==> offset + len > content@.len() ==> (
        r matches Err(StoreError::Range { kappa: k, offset: o, len: l, size }) && k@ == kappa && o
            == offset && l == len && size == content@.len()),
{
}

/// What a reply measures: a failure stays that failure, and content has its length.
pub proof fn law_a_reply_is_measured(reply: Result<Vec<u8>, StoreError>, r: Result<u64, StoreError>)
    requires
        measured(reply, r),
    ensures
        reply is Ok <==> r is Ok,
        reply matches Err(e) ==> r == Err::<u64, StoreError>(e),
        reply matches Ok(content) ==> r->Ok_0 == content@.len(),
{
}

/// What was read of a range is answered as it is where it has the length that was asked
/// for; another length is refused with the range that was asked and the length that
/// came, and where nothing was found nothing is answered.
pub proof fn law_a_read_range_is_answered_as_it_is(
    reply: Option<Vec<u8>>,
    kappa: &str,
    offset: u64,
    len: u64,
    r: Result<Option<Vec<u8>>, StoreError>,
)
    requires
        call_ensures(seek_reply, (reply, kappa, offset, len), r),
    ensures
        r is Ok ==> r->Ok_0 == reply,
        r is Ok <==> (reply matches Some(bytes) ==> bytes@.len() == len),
        r is Err ==> (r->Err_0 matches StoreError::Range { kappa: k, offset: o, len: l, size } && k@
            == kappa@ && o == offset && l == len && reply is Some && size
            == reply->Some_0@.len()),
{
}

/// A range is answered with the bytes that stand there in the content, one for one; a
/// range that the content does not hold is refused with the range and the length of the
/// content.
pub proof fn law_a_range_is_answered_from_the_content(
    content: &[u8],
    kappa: &str,
    offset: u64,
    len: u64,
    r: Result<Vec<u8>, StoreError>,
)
    requires
        call_ensures(ranged_reply, (content, kappa, offset, len), r),
    ensures
        r is Ok <==> offset + len <= content@.len(),
        r is Ok ==> r->Ok_0@.len() == len && forall|i: int|
            0 <= i < len ==> #[trigger] r->Ok_0@[i] == content@[offset + i],
        r is Err ==> (r->Err_0 matches StoreError::Range { kappa: k, offset: o, len: l, size } && k@
            == kappa@ && o == offset && l == len && size == content@.len()),
{
    crate::bytes::law_a_range_is_what_the_content_holds(content@, offset, len);
}

/// Contents are filed under their own label, whatever directory the store has.
pub proof fn law_contents_are_filed_under_their_label(
    a: &DirKappaStore,
    b: &DirKappaStore,
    bytes: &[u8],
    x: DirEntry,
    y: DirEntry,
)
    requires
        call_ensures(DirKappaStore::entry_for, (a, bytes), x),
        call_ensures(DirKappaStore::entry_for, (b, bytes), y),
    ensures
        x.kappa@ == crate::kappa::kappa_label(bytes@),
        x.file_name@ == crate::kappa::file_name(x.kappa@),
        x.kappa@ == y.kappa@,
        x.file_name@ == y.file_name@,
{
}

/// A label counts as verified once it was entered, and entering it changes nothing for
/// another label.
pub proof fn law_an_entered_label_is_verified(
    set: &mut VerifiedSet,
    kappa: &str,
    asked: &str,
    before: bool,
    after: bool,
)
    requires
        call_ensures(VerifiedSet::insert, (set, kappa), ()),
        call_ensures(VerifiedSet::contains, (&*set, asked), before),
        call_ensures(VerifiedSet::contains, (&*final(set), asked), after),
    ensures
        asked@ == kappa@ ==> after,
        asked@ != kappa@ ==> after == before,
{
}

} // verus!
