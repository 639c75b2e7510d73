//! Chat over the decode plan: the options of a turn, and the decisions a turn
//! takes between the pipelines it has built and those it tries to build.
//!
//! A turn is a conversation. The caller opens it, performs the step it is told,
//! reports what came of it, and is told the next. What may fail without refusing
//! the turn (the paired draft, the prefill seeder, the verify pipeline) only
//! changes which step comes next.

use crate::json::read_json;
use crate::residency::KvCharge;
use crate::text::{chars_of, copy_str, string_of};
use vstd::prelude::*;

verus! {

/// The options of a generation; all of them may be left out.
#[derive(Debug, Clone, PartialEq, Eq)]
pub struct GenOpts {
    pub prompt_template: Option<String>,
    pub max_tokens: Option<usize>,
    /// The bits of the sampling temperature, a single-width float.
    pub temperature_bits: Option<u32>,
    pub top_k: Option<usize>,
    pub stop: Vec<String>,
    pub eos: Option<u32>,
    pub seed: Option<u64>,
    /// How many tokens are drafted at a time; fewer than two decode plainly.
    pub speculative_draft: Option<usize>,
}

/// The configuration of a generation.
#[derive(Debug, Clone, PartialEq, Eq)]
pub struct GenConfig {
    /// The tokens to generate at most; none leaves the bound to the stop conditions
    /// and the context.
    pub max_tokens: Option<usize>,
    pub temperature_bits: u32,
    pub top_k: Option<usize>,
    pub stop: Vec<String>,
    pub eos: Option<u32>,
    pub seed: u64,
}

/// The seed of a generation that names none.
pub const DEFAULT_SEED: u64 = 0x9E3779B97F4A7C15;

fn copy_strings(list: &Vec<String>) -> (r: Vec<String>)
    ensures
        crate::prism::string_views(r@) == crate::prism::string_views(list@),
{
    let mut out: Vec<String> = Vec::new();
    let end: usize = list.len();
    let mut i: usize = 0;
    while i < end
        invariant
            i <= end,
            end == list@.len(),
            out@.len() == i,
            forall|k: int| 0 <= k < i ==> (#[trigger] out@[k])@ == list@[k]@,
        decreases end - i,
    {
        out.push(copy_str(list[i].as_str()));
        i += 1;
    }
    proof {
        assert(crate::prism::string_views(out@) =~= crate::prism::string_views(list@));
    }
    out
}

impl Default for GenOpts {
    fn default() -> (r: GenOpts)
        ensures
            r.prompt_template is None,
            r.max_tokens is None,
            r.temperature_bits is None,
            r.top_k is None,
            r.stop@ == Seq::<String>::empty(),
            r.eos is None,
            r.seed is None,
            r.speculative_draft is None,
    {
        GenOpts {
            prompt_template: None,
            max_tokens: None,
            temperature_bits: None,
            top_k: None,
            stop: Vec::new(),
            eos: None,
            seed: None,
            speculative_draft: None,
        }
    }
}

impl GenOpts {
    /// The configuration the options select: an absent temperature is zero, an
    /// absent seed the default; an absent bound on the tokens stays absent.
    pub fn config(&self) -> (r: GenConfig)
        ensures
            r.max_tokens == self.max_tokens,
            r.temperature_bits == (match self.temperature_bits {
                Some(bits) => bits,
                None => 0,
            }),
            r.top_k == self.top_k,
            crate::prism::string_views(r.stop@) == crate::prism::string_views(self.stop@),
            r.eos == self.eos,
            r.seed == (match self.seed {
                Some(seed) => seed,
                None => DEFAULT_SEED,
            }),
    {
        GenConfig {
            max_tokens: self.max_tokens,
            temperature_bits: match self.temperature_bits {
                Some(bits) => bits,
                None => 0,
            },
            top_k: self.top_k,
            stop: copy_strings(&self.stop),
            eos: self.eos,
            seed: match self.seed {
                Some(seed) => seed,
                None => DEFAULT_SEED,
            },
        }
    }
}

/// The tokenizer a generation runs with: the supplied one, or else the one in the
/// archive; nothing where there is neither.
pub fn tokenizer_source(supplied: Option<Vec<u8>>, embedded: Option<Vec<u8>>) -> (r: Option<
    Vec<u8>,
>)
    ensures
        r == (if supplied is Some {
            supplied
        } else {
            embedded
        }),
{
    match supplied {
        Some(bytes) => Some(bytes),
        None => embedded,
    }
}

/// The vocabulary size a model's configuration gives; zero where it gives none,
/// and nothing where it is no JSON.
pub open spec fn vocab_size_of(config: Seq<u8>) -> Option<u64> {
    match crate::json::parsed_json(config) {
        None => None,
        Some(j) => match crate::json::unsigned_of(crate::json::at(j, "vocab_size"@)) {
            Some(n) => Some(n),
            None => Some(0),
        },
    }
}

/// Read the vocabulary size of a model's configuration.
pub fn config_vocab_size(config: &[u8]) -> (r: Option<u64>)
    ensures
        r == vocab_size_of(config@),
{
    match read_json(config) {
        Some(j) => match j.u64_at("vocab_size") {
            Some(n) => Some(n),
            None => Some(0),
        },
        None => None,
    }
}

/// What a chat session keeps from turn to turn.
#[derive(Debug, Clone, Copy, PartialEq, Eq, Structural)]
pub struct ChatState {
    pub context_length: u64,
    /// The vocabulary of the target; zero where it is unknown.
    pub vocab_size: u64,
    /// Whether the decode pipeline is built.
    pub target_ready: bool,
    /// The context of the paired draft, once one is attached.
    pub draft_context: Option<u64>,
    /// Whether the draft's decode pipeline is built.
    pub draft_ready: bool,
    /// Whether the host has a hard address ceiling, under which the carried caches
    /// leave less for the weights.
    pub hard_ceiling: bool,
    pub charge: KvCharge,
}

/// What a turn asks for.
#[derive(Debug, Clone, Copy, PartialEq, Eq, Structural)]
pub struct TurnRequest {
    /// The tokens of the templated prompt.
    pub prompt_tokens: usize,
    /// The tokens the caller declared to generate at most.
    pub max_tokens: Option<usize>,
    /// How many tokens are drafted at a time.
    pub speculative_draft: Option<usize>,
}

/// Where a turn stands: what it waits for.
#[derive(Debug, Clone, Copy, PartialEq, Eq, Structural)]
pub enum TurnPhase {
    /// The target's pipeline.
    Target,
    /// The draft's pipeline.
    Draft,
    /// The geometry of the target's session.
    Geometry,
    /// The prefill seeder, at this bucket.
    Seeder { bucket: u64 },
    /// The verify pipeline, for drafts of this width.
    Verify { width: usize },
    /// The generated text.
    Text,
    /// Nothing: the turn is over.
    Over,
}

/// The next step of a turn.
#[derive(Debug, Clone, Copy, PartialEq, Eq, Structural)]
pub enum TurnStep {
    /// Build the target's pipeline for a turn of this size.
    BuildTarget { prompt: u64, declared: usize, context: u64 },
    /// Build the draft's pipeline for a turn of this size.
    BuildDraft { prompt: u64, declared: usize, context: u64 },
    /// Report the bucket of the target's session and its seeder.
    ReportGeometry,
    /// Install a prefill seeder.
    InstallSeeder { bucket: u64, chunk: u64 },
    /// Build the verify pipeline at the session's own bucket.
    BuildVerify { bucket: u64, width: usize },
    /// Decode speculatively; the paired model drafts, or else prompt lookup.
    Speculate { width: usize, paired_model: bool },
    /// Decode one position at a time.
    DecodePlainly,
    /// Return the generated text.
    Finish,
    /// Return the reported error.
    Fail,
}

/// A step, and the residency budget that is to be set before it, if any. The
/// budget holds for the target's session, and for the draft's where one is
/// attached.
#[derive(Debug, Clone, Copy, PartialEq, Eq, Structural)]
pub struct TurnAction {
    pub budget: Option<u64>,
    pub step: TurnStep,
}

/// What came of a step.
#[derive(Debug, Clone, Copy, PartialEq, Eq, Structural)]
pub enum TurnEvent {
    /// The target's pipeline, with the bytes one position carries.
    TargetBuilt { kv_row: u64, bucket: u64 },
    TargetFailed,
    DraftBuilt { kv_row: u64, bucket: u64 },
    DraftFailed,
    /// The bucket of the target's session, whether it has a seeder, and the base of
    /// the window policy for its context.
    Geometry { bucket: u64, seeded: bool, base: u64 },
    SeederInstalled,
    SeederFailed,
    VerifyBuilt,
    VerifyFailed,
    Generated,
    GenerationFailed,
}

/// A turn in progress.
#[derive(Debug, Clone, Copy, PartialEq, Eq, Structural)]
pub struct Turn {
    pub request: TurnRequest,
    pub phase: TurnPhase,
}

/// The prompt's share of a window: at least one position, at most the context.
pub open spec fn prompt_share(tokens: usize, context: u64) -> u64 {
    let n = if tokens == 0 {
        1
    } else {
        tokens as u64
    };
    if n < context {
        n
    } else {
        context
    }
}

/// The generation a caller declared; none is no declaration.
pub open spec fn declared(request: TurnRequest) -> usize {
    match request.max_tokens {
        Some(n) => n,
        None => 0,
    }
}

/// The context a draft's pipeline is sized by.
pub open spec fn draft_span(context: u64) -> u64 {
    if context == 0 {
        1
    } else {
        context
    }
}

/// The phase and step once the target stands: the attached draft is built where it
/// is not yet, else the geometry is asked for.
pub open spec fn after_target(state: ChatState, request: TurnRequest) -> (TurnPhase, TurnStep) {
    match state.draft_context {
        Some(context) => if state.draft_ready {
            (TurnPhase::Geometry, TurnStep::ReportGeometry)
        } else {
            (
                TurnPhase::Draft,
                TurnStep::BuildDraft {
                    prompt: prompt_share(request.prompt_tokens, draft_span(context)),
                    declared: declared(request),
                    context: draft_span(context),
                },
            )
        },
        None => (TurnPhase::Geometry, TurnStep::ReportGeometry),
    }
}

/// The phase and step that open a turn: a session that was kept is not rebuilt.
pub open spec fn opening(state: ChatState, request: TurnRequest) -> (TurnPhase, TurnStep) {
    if state.target_ready {
        after_target(state, request)
    } else {
        (
            TurnPhase::Target,
            TurnStep::BuildTarget {
                prompt: prompt_share(request.prompt_tokens, state.context_length),
                declared: declared(request),
                context: state.context_length,
            },
        )
    }
}

/// The phase and step that choose how to decode: drafts of two tokens or more are
/// verified, fewer are not drafted.
pub open spec fn decoding(request: TurnRequest, bucket: u64) -> (TurnPhase, TurnStep) {
    match request.speculative_draft {
        Some(width) => if width >= 2 {
            (TurnPhase::Verify { width }, TurnStep::BuildVerify { bucket, width })
        } else {
            (TurnPhase::Text, TurnStep::DecodePlainly)
        },
        None => (TurnPhase::Text, TurnStep::DecodePlainly),
    }
}

/// The chunk of a seeder: the base of the window policy, within the bucket.
pub open spec fn seeder_chunk(base: u64, bucket: u64) -> u64 {
    if base < bucket {
        base
    } else {
        bucket
    }
}

/// The session's state after an event: a pipeline that was built is kept, and its
/// caches are charged.
pub open spec fn state_after(state: ChatState, event: TurnEvent) -> ChatState {
    match event {
        TurnEvent::TargetBuilt { kv_row, bucket } => ChatState {
            target_ready: true,
            charge: state.charge.with_target(kv_row, bucket),
            ..state
        },
        TurnEvent::DraftBuilt { kv_row, bucket } => ChatState {
            draft_ready: true,
            charge: state.charge.with_draft(kv_row, bucket),
            ..state
        },
        _ => state,
    }
}

/// The budget to be set for a charge: what the pair's caches leave under a hard address
/// ceiling. Without one the caches lie outside the budget, and none is set.
pub open spec fn budget_for(hard_ceiling: bool, charge: KvCharge) -> Option<u64> {
    if hard_ceiling {
        Some(crate::residency::budget_beside(charge.carried()) as u64)
    } else {
        None
    }
}

/// The budget to be set after an event, whenever the pair's caches changed.
pub open spec fn budget_after(state: ChatState, event: TurnEvent) -> Option<u64> {
    match event {
        TurnEvent::TargetBuilt { .. } | TurnEvent::DraftBuilt { .. } => budget_for(
            state.hard_ceiling,
            state_after(state, event).charge,
        ),
        _ => None,
    }
}

/// The phase and step after an event; `state` is the state after it.
pub open spec fn step_after(
    state: ChatState,
    request: TurnRequest,
    phase: TurnPhase,
    event: TurnEvent,
) -> (TurnPhase, TurnStep) {
    match event {
        TurnEvent::TargetBuilt { .. } => after_target(state, request),
        TurnEvent::TargetFailed => (TurnPhase::Over, TurnStep::Fail),
        TurnEvent::DraftBuilt { .. } | TurnEvent::DraftFailed => (
            TurnPhase::Geometry,
            TurnStep::ReportGeometry,
        ),
        TurnEvent::Geometry { bucket, seeded, base } => if !seeded && seeder_chunk(base, bucket)
            >= 2 {
            (
                TurnPhase::Seeder { bucket },
                TurnStep::InstallSeeder { bucket, chunk: seeder_chunk(base, bucket) },
            )
        } else {
            decoding(request, bucket)
        },
        TurnEvent::SeederInstalled | TurnEvent::SeederFailed => decoding(
            request,
            phase->Seeder_bucket,
        ),
        TurnEvent::VerifyBuilt => (
            TurnPhase::Text,
            TurnStep::Speculate { width: phase->width, paired_model: state.draft_ready },
        ),
        TurnEvent::VerifyFailed => (TurnPhase::Text, TurnStep::DecodePlainly),
        TurnEvent::Generated => (TurnPhase::Over, TurnStep::Finish),
        TurnEvent::GenerationFailed => (TurnPhase::Over, TurnStep::Fail),
    }
}

/// Whether an event answers what a phase waits for.
pub open spec fn answers(phase: TurnPhase, event: TurnEvent) -> bool {
    match phase {
        TurnPhase::Target => event is TargetBuilt || event is TargetFailed,
        TurnPhase::Draft => event is DraftBuilt || event is DraftFailed,
        TurnPhase::Geometry => event is Geometry,
        TurnPhase::Seeder { .. } => event is SeederInstalled || event is SeederFailed,
        TurnPhase::Verify { .. } => event is VerifyBuilt || event is VerifyFailed,
        TurnPhase::Text => event is Generated || event is GenerationFailed,
        TurnPhase::Over => false,
    }
}

fn share(tokens: usize, context: u64) -> (r: u64)
    ensures
        r == prompt_share(tokens, context),
{
    let n: u64 = if tokens == 0 {
        1
    } else {
        tokens as u64
    };
    if n < context {
        n
    } else {
        context
    }
}

fn span(context: u64) -> (r: u64)
    ensures
        r == draft_span(context),
{
    if context == 0 {
        1
    } else {
        context
    }
}

fn declared_tokens(request: &TurnRequest) -> (r: usize)
    ensures
        r == declared(*request),
{
    match request.max_tokens {
        Some(n) => n,
        None => 0,
    }
}

fn pair(state: &ChatState, request: &TurnRequest) -> (r: (TurnPhase, TurnStep))
    ensures
        r == after_target(*state, *request),
{
    match state.draft_context {
        Some(context) if !state.draft_ready => {
            let context: u64 = span(context);
            (
                TurnPhase::Draft,
                TurnStep::BuildDraft {
                    prompt: share(request.prompt_tokens, context),
                    declared: declared_tokens(request),
                    context,
                },
            )
        },
        _ => (TurnPhase::Geometry, TurnStep::ReportGeometry),
    }
}

fn choose_decoding(request: &TurnRequest, bucket: u64) -> (r: (TurnPhase, TurnStep))
    ensures
        r == decoding(*request, bucket),
{
    match request.speculative_draft {
        Some(width) if width >= 2 => (
            TurnPhase::Verify { width },
            TurnStep::BuildVerify { bucket, width },
        ),
        _ => (TurnPhase::Text, TurnStep::DecodePlainly),
    }
}

impl ChatState {
    /// A session that has taken no turn.
    pub fn new(context_length: u64, vocab_size: u64, hard_ceiling: bool) -> (r: ChatState)
        ensures
            r.context_length == context_length,
            r.vocab_size == vocab_size,
            r.hard_ceiling == hard_ceiling,
            !r.target_ready,
            r.draft_context is None,
            !r.draft_ready,
            r.charge.target == 0,
            r.charge.draft == 0,
    {
        ChatState {
            context_length,
            vocab_size,
            target_ready: false,
            draft_context: None,
            draft_ready: false,
            hard_ceiling,
            charge: KvCharge::new(),
        }
    }

    /// Charge the target's caches at a bucket: the budget to be set, if one is.
    pub fn charge_target(&mut self, kv_row: u64, bucket: u64) -> (r: Option<u64>)
        ensures
            *final(self) == (ChatState {
                charge: old(self).charge.with_target(kv_row, bucket),
                ..*old(self)
            }),
            r == budget_for(old(self).hard_ceiling, final(self).charge),
    {
        let budget: u64 = self.charge.charge_target(kv_row, bucket);
        if self.hard_ceiling {
            Some(budget)
        } else {
            None
        }
    }

    /// Charge the draft's caches at a bucket: the budget to be set, if one is.
    pub fn charge_draft(&mut self, kv_row: u64, bucket: u64) -> (r: Option<u64>)
        ensures
            *final(self) == (ChatState {
                charge: old(self).charge.with_draft(kv_row, bucket),
                ..*old(self)
            }),
            r == budget_for(old(self).hard_ceiling, final(self).charge),
    {
        let budget: u64 = self.charge.charge_draft(kv_row, bucket);
        if self.hard_ceiling {
            Some(budget)
        } else {
            None
        }
    }

    /// Attach a paired draft, unless the pairing policy gave a reason to refuse it.
    /// A refused pairing changes nothing.
    pub fn attach_draft(&mut self, draft: &ChatState, refusal: Option<&str>) -> (r: Result<
        (),
        String,
    >)
        ensures
            match (refusal, r) {
                (None, Ok(_)) => *final(self) == (ChatState {
                    draft_context: Some(draft.context_length),
                    ..*old(self)
                }),
                (Some(reason), Err(text)) => *final(self) == *old(self) && text@
                    == "refusing the draft pairing: "@ + reason@
                    + "; drafting by prompt-lookup instead"@,
                _ => false,
            },
    {
        match refusal {
            Some(reason) => {
                let mut out: Vec<char> = chars_of("refusing the draft pairing: ");
                let mut why: Vec<char> = chars_of(reason);
                let mut end: Vec<char> = chars_of("; drafting by prompt-lookup instead");
                out.append(&mut why);
                out.append(&mut end);
                Err(string_of(out.as_slice()))
            },
            None => {
                self.draft_context = Some(draft.context_length);
                Ok(())
            },
        }
    }
}

impl Turn {
    /// Open a turn: the first step.
    pub fn open(state: &ChatState, request: TurnRequest) -> (r: (Turn, TurnAction))
        ensures
            r.0.request == request,
            (r.0.phase, r.1.step) == opening(*state, request),
            r.1.budget is None,
    {
        let (phase, step) = if state.target_ready {
            pair(state, &request)
        } else {
            (
                TurnPhase::Target,
                TurnStep::BuildTarget {
                    prompt: share(request.prompt_tokens, state.context_length),
                    declared: declared_tokens(&request),
                    context: state.context_length,
                },
            )
        };
        (Turn { request, phase }, TurnAction { budget: None, step })
    }

    /// Take what came of the last step: the next step.
    pub fn advance(&mut self, state: &mut ChatState, event: TurnEvent) -> (action: TurnAction)
        requires
            answers(old(self).phase, event),
        ensures
            final(self).request == old(self).request,
            *final(state) == state_after(*old(state), event),
            action.budget == budget_after(*old(state), event),
            (final(self).phase, action.step) == step_after(
                *final(state),
                old(self).request,
                old(self).phase,
                event,
            ),
    {
        let mut budget: Option<u64> = None;
        let (phase, step) = match event {
            TurnEvent::TargetBuilt { kv_row, bucket } => {
                state.target_ready = true;
                budget = state.charge_target(kv_row, bucket);
                pair(state, &self.request)
            },
            TurnEvent::DraftBuilt { kv_row, bucket } => {
                state.draft_ready = true;
                budget = state.charge_draft(kv_row, bucket);
                (TurnPhase::Geometry, TurnStep::ReportGeometry)
            },
            TurnEvent::DraftFailed => (TurnPhase::Geometry, TurnStep::ReportGeometry),
            TurnEvent::Geometry { bucket, seeded, base } => {
                let chunk: u64 = if base < bucket {
                    base
                } else {
                    bucket
                };
                if !seeded && chunk >= 2 {
                    (TurnPhase::Seeder { bucket }, TurnStep::InstallSeeder { bucket, chunk })
                } else {
                    choose_decoding(&self.request, bucket)
                }
            },
            TurnEvent::SeederInstalled | TurnEvent::SeederFailed => match self.phase {
                TurnPhase::Seeder { bucket } => choose_decoding(&self.request, bucket),
                _ => (TurnPhase::Over, TurnStep::Fail),
            },
            TurnEvent::VerifyBuilt => match self.phase {
                TurnPhase::Verify { width } => (
                    TurnPhase::Text,
                    TurnStep::Speculate { width, paired_model: state.draft_ready },
                ),
                _ => (TurnPhase::Over, TurnStep::Fail),
            },
            TurnEvent::VerifyFailed => (TurnPhase::Text, TurnStep::DecodePlainly),
            TurnEvent::Generated => (TurnPhase::Over, TurnStep::Finish),
            TurnEvent::TargetFailed | TurnEvent::GenerationFailed => (
                TurnPhase::Over,
                TurnStep::Fail,
            ),
        };
        self.phase = phase;
        TurnAction { budget, step }
    }
}

/// How many answers a turn can still take.
pub open spec fn answers_left(phase: TurnPhase) -> nat {
    match phase {
        TurnPhase::Target => 6,
        TurnPhase::Draft => 5,
        TurnPhase::Geometry => 4,
        TurnPhase::Seeder { .. } => 3,
        TurnPhase::Verify { .. } => 2,
        TurnPhase::Text => 1,
        TurnPhase::Over => 0,
    }
}

/// Every answer brings a turn nearer to its end, so every turn ends.
pub proof fn law_a_turn_ends(
    state: ChatState,
    request: TurnRequest,
    phase: TurnPhase,
    event: TurnEvent,
)
    requires
        answers(phase, event),
    ensures
        ({
            let next = step_after(state_after(state, event), request, phase, event);
            &&& answers_left(next.0) < answers_left(phase)
            &&& next.0 is Over <==> (next.1 is Finish || next.1 is Fail)
        }),
{
}

/// Only a target that cannot be built and a generation that fails refuse a turn: a
/// draft, a seeder or a verify pipeline that is not to be had never does.
pub proof fn law_only_the_target_refuses_a_turn(
    state: ChatState,
    request: TurnRequest,
    phase: TurnPhase,
    event: TurnEvent,
)
    requires
        answers(phase, event),
    ensures
        step_after(state_after(state, event), request, phase, event).1 is Fail <==> (event
            is TargetFailed || event is GenerationFailed),
{
}

/// A later turn keeps the sessions it has: it opens by asking for the geometry,
/// and with a seeder in place nothing is built before decoding.
pub proof fn law_a_warm_turn_builds_nothing(state: ChatState, request: TurnRequest, bucket: u64, base: u64)
    requires
        state.target_ready,
        state.draft_context is Some ==> state.draft_ready,
    ensures
        opening(state, request) == (TurnPhase::Geometry, TurnStep::ReportGeometry),
        step_after(
            state,
            request,
            TurnPhase::Geometry,
            (TurnEvent::Geometry { bucket, seeded: true, base }),
        ) == decoding(request, bucket),
{
}

/// What was built stays built, and neither the contexts nor the vocabulary change
/// in a turn.
pub proof fn law_sessions_survive_a_turn(state: ChatState, event: TurnEvent)
    ensures
        state.target_ready ==> state_after(state, event).target_ready,
        state.draft_ready ==> state_after(state, event).draft_ready,
        state_after(state, event).context_length == state.context_length,
        state_after(state, event).draft_context == state.draft_context,
        state_after(state, event).vocab_size == state.vocab_size,
        state_after(state, event).hard_ceiling == state.hard_ceiling,
{
}

/// Under a hard address ceiling a budget is set whenever the charge of the carried
/// caches changed, and it is what the pair's caches leave; without a ceiling none is
/// ever set.
pub proof fn law_the_budget_follows_the_charge(state: ChatState, event: TurnEvent)
    ensures
        state.hard_ceiling && state_after(state, event).charge != state.charge ==> budget_after(
            state,
            event,
        ) is Some,
        !state.hard_ceiling ==> budget_after(state, event) is None,
        budget_after(state, event) is Some ==> budget_after(state, event) == Some(
            crate::residency::budget_beside(state_after(state, event).charge.carried()) as u64,
        ),
{
}

/// A turn speculates only where drafts of two tokens or more were asked for and
/// the verify pipeline stands; the paired model drafts exactly where it is built.
pub proof fn law_speculation_is_asked_for(
    state: ChatState,
    request: TurnRequest,
    phase: TurnPhase,
    event: TurnEvent,
    bucket: u64,
)
    requires
        answers(phase, event),
    ensures
        step_after(state_after(state, event), request, phase, event).1 is Speculate ==> event
            is VerifyBuilt && phase is Verify,
        decoding(request, bucket).0 is Verify <==> (request.speculative_draft matches Some(width)
            && width >= 2),
        (event is VerifyBuilt) ==> step_after(state, request, phase, event).1 == (
        TurnStep::Speculate { width: phase->width, paired_model: state.draft_ready }),
{
}

/// Where a turn stands after some answers, and what its last answer came to.
pub struct TurnPoint {
    pub state: ChatState,
    pub phase: TurnPhase,
    pub action: TurnAction,
}

/// A turn from its opening through some answers.
pub open spec fn turn_after(
    state: ChatState,
    request: TurnRequest,
    events: Seq<TurnEvent>,
) -> TurnPoint
    decreases events.len(),
{
    if events.len() == 0 {
        let (phase, step) = opening(state, request);
        TurnPoint { state, phase, action: TurnAction { budget: None, step } }
    } else {
        let front = turn_after(state, request, events.drop_last());
        let next = state_after(front.state, events.last());
        let (phase, step) = step_after(next, request, front.phase, events.last());
        TurnPoint {
            state: next,
            phase,
            action: TurnAction { budget: budget_after(front.state, events.last()), step },
        }
    }
}

/// Whether each of some answers is what the turn waited for.
pub open spec fn answered(state: ChatState, request: TurnRequest, events: Seq<TurnEvent>) -> bool
    decreases events.len(),
{
    events.len() > 0 ==> {
        &&& answered(state, request, events.drop_last())
        &&& answers(turn_after(state, request, events.drop_last()).phase, events.last())
    }
}

/// Whether a turn has yet to choose how it decodes.
pub open spec fn undecided(phase: TurnPhase) -> bool {
    phase is Target || phase is Draft || phase is Geometry || phase is Seeder
}

/// Whether two requests differ in nothing but the drafting they ask for.
pub open spec fn same_but_for_drafting(a: TurnRequest, b: TurnRequest) -> bool {
    a.prompt_tokens == b.prompt_tokens && a.max_tokens == b.max_tokens
}

/// Drafting changes nothing before the choice of decoding: as long as a turn has not
/// chosen, the same answers bring a turn that differs only in the drafting it asks for
/// to the same state, phase, budget and step.
pub proof fn law_drafting_changes_nothing_before_the_choice(
    state: ChatState,
    a: TurnRequest,
    b: TurnRequest,
    events: Seq<TurnEvent>,
)
    requires
        same_but_for_drafting(a, b),
        answered(state, a, events),
        undecided(turn_after(state, a, events).phase),
    ensures
        turn_after(state, a, events) == turn_after(state, b, events),
        answered(state, b, events),
    decreases events.len(),
{
    if events.len() > 0 {
        law_drafting_changes_nothing_before_the_choice(state, a, b, events.drop_last());
    }
}

/// At the choice the turns part in their step alone: the answer that ends the waiting
/// leaves the same state and sets the same budget, and either refuses both or lets each
/// choose by its own drafting at the same bucket.
pub proof fn law_drafting_shows_only_in_the_choice(
    state: ChatState,
    a: TurnRequest,
    b: TurnRequest,
    events: Seq<TurnEvent>,
    event: TurnEvent,
)
    requires
        same_but_for_drafting(a, b),
        answered(state, a, events.push(event)),
        undecided(turn_after(state, a, events).phase),
    ensures
        ({
            let x = turn_after(state, a, events.push(event));
            let y = turn_after(state, b, events.push(event));
            &&& answered(state, b, events.push(event))
            &&& x.state == y.state
            &&& x.action.budget == y.action.budget
            &&& x == y || exists|bucket: u64|
                (x.phase, x.action.step) == #[trigger] decoding(a, bucket) && (
                y.phase,
                y.action.step,
                ) == decoding(b, bucket)
        }),
{
    let all = events.push(event);
    assert(all.drop_last() =~= events);
    law_drafting_changes_nothing_before_the_choice(state, a, b, events);
    let front = turn_after(state, a, events);
    let x = turn_after(state, a, all);
    match event {
        TurnEvent::Geometry { bucket, .. } => {
            assert((x.phase, x.action.step) == decoding(a, bucket) || undecided(x.phase));
        },
        TurnEvent::SeederInstalled | TurnEvent::SeederFailed => {
            let bucket = front.phase->Seeder_bucket;
            assert((x.phase, x.action.step) == decoding(a, bucket));
        },
        _ => {},
    }
}

/// How a turn decodes does not show in the session: from the choice on, no answer
/// changes the state or sets a budget.
pub proof fn law_decoding_leaves_the_session_alone(
    state: ChatState,
    request: TurnRequest,
    phase: TurnPhase,
    event: TurnEvent,
)
    requires
        answers(phase, event),
        !undecided(phase),
    ensures
        state_after(state, event) == state,
        budget_after(state, event) is None,
        !undecided(step_after(state, request, phase, event).0),
{
}

proof fn lemma_after_the_choice(
    state: ChatState,
    request: TurnRequest,
    base: Seq<TurnEvent>,
    tail: Seq<TurnEvent>,
)
    requires
        answered(state, request, base + tail),
        !undecided(turn_after(state, request, base).phase),
    ensures
        turn_after(state, request, base + tail).state == turn_after(state, request, base).state,
        !undecided(turn_after(state, request, base + tail).phase),
        answered(state, request, base),
    decreases tail.len(),
{
    if tail.len() == 0 {
        assert(base + tail =~= base);
    } else {
        let front = base + tail.drop_last();
        assert((base + tail).drop_last() =~= front);
        assert((base + tail).last() == tail.last());
        lemma_after_the_choice(state, request, base, tail.drop_last());
        let point = turn_after(state, request, front);
        law_decoding_leaves_the_session_alone(point.state, request, point.phase, tail.last());
    }
}

/// A turn that drafts and one that does not leave the same session behind: given the
/// same answers up to the choice of decoding, whatever comes of decoding in each, the
/// state that the next turn finds is the same.
pub proof fn law_drafting_leaves_the_same_session(
    state: ChatState,
    a: TurnRequest,
    b: TurnRequest,
    events: Seq<TurnEvent>,
    event: TurnEvent,
    a_rest: Seq<TurnEvent>,
    b_rest: Seq<TurnEvent>,
)
    requires
        same_but_for_drafting(a, b),
        undecided(turn_after(state, a, events).phase),
        !undecided(turn_after(state, a, events.push(event)).phase),
        answered(state, a, events.push(event) + a_rest),
        answered(state, b, events.push(event) + b_rest),
    ensures
        turn_after(state, a, events.push(event) + a_rest).state == turn_after(
            state,
            b,
            events.push(event) + b_rest,
        ).state,
{
    let all = events.push(event);
    lemma_after_the_choice(state, a, all, a_rest);
    law_drafting_shows_only_in_the_choice(state, a, b, events, event);
    lemma_after_the_choice(state, b, all, b_rest);
}

/// Whether a pipeline is sized for a turn: within its context, by the prompt, which
/// counts as at least one position and as no more than the context holds, and by the
/// generation that was declared, nothing where none was.
pub open spec fn is_sized_for(
    request: TurnRequest,
    prompt: u64,
    generation: usize,
    context: u64,
) -> bool {
    &&& 1 <= request.prompt_tokens <= context ==> prompt == request.prompt_tokens
    &&& request.prompt_tokens > context ==> prompt == context
    &&& request.prompt_tokens == 0 && context >= 1 ==> prompt == 1
    &&& request.prompt_tokens == 0 && context == 0 ==> prompt == 0
    &&& request.max_tokens matches Some(n) ==> generation == n
    &&& request.max_tokens is None ==> generation == 0
}

/// A turn opens with the target's pipeline where it is not built, sized for the turn
/// within the session's context; a target that is built is not built again.
pub proof fn law_a_turn_opens_with_the_target(state: ChatState, request: TurnRequest)
    ensures
        !state.target_ready ==> opening(state, request).0 is Target && (opening(
            state,
            request,
        ).1 matches TurnStep::BuildTarget { prompt, declared, context } && context
            == state.context_length && is_sized_for(request, prompt, declared, context)),
        state.target_ready ==> !(opening(state, request).1 is BuildTarget),
{
}

/// With the target standing, the attached draft is built where it is not, sized for the
/// turn within its own context, which counts as at least one position; without a draft,
/// or with one that is built, the geometry is asked for.
pub proof fn law_an_attached_draft_is_built_once(
    state: ChatState,
    request: TurnRequest,
    kv_row: u64,
    bucket: u64,
)
    ensures
        ({
            let built = TurnEvent::TargetBuilt { kv_row, bucket };
            let next = step_after(state, request, TurnPhase::Target, built);
            &&& state.target_ready ==> opening(state, request) == next
            &&& state.draft_context is Some && !state.draft_ready ==> next.0 is Draft && (
            next.1 matches TurnStep::BuildDraft { prompt, declared, context } && (
            state.draft_context->0 >= 1 ==> context == state.draft_context->0) && (
            state.draft_context->0 == 0 ==> context == 1) && is_sized_for(
                request,
                prompt,
                declared,
                context,
            ))
            &&& state.draft_context is None || state.draft_ready ==> next == (
                TurnPhase::Geometry,
                TurnStep::ReportGeometry,
            )
        }),
{
}

/// A seeder is installed where the session has none and both the base of the window
/// policy and the bucket hold two positions or more; its chunk is the smaller of the
/// two. Else decoding is chosen at once; and it is chosen at the session's own bucket,
/// whatever came of the seeder.
pub proof fn law_when_a_seeder_is_installed(
    state: ChatState,
    request: TurnRequest,
    bucket: u64,
    seeded: bool,
    base: u64,
)
    ensures
        ({
            let told = TurnEvent::Geometry { bucket, seeded, base };
            let next = step_after(state, request, TurnPhase::Geometry, told);
            let waiting = TurnPhase::Seeder { bucket };
            &&& !seeded && base >= 2 && bucket >= 2 ==> next.0 == waiting && (
            next.1 matches TurnStep::InstallSeeder { bucket: b, chunk } && b == bucket && chunk
                <= base && chunk <= bucket && (chunk == base || chunk == bucket))
            &&& seeded || base < 2 || bucket < 2 ==> next == decoding(request, bucket)
            &&& step_after(state, request, waiting, TurnEvent::SeederInstalled) == decoding(
                request,
                bucket,
            )
            &&& step_after(state, request, waiting, TurnEvent::SeederFailed) == decoding(
                request,
                bucket,
            )
        }),
{
}

/// Drafts of two tokens or more are verified by a pipeline of that very width at the
/// session's own bucket, and speculated at that width; without it, and for fewer
/// tokens, decoding is plain.
pub proof fn law_how_a_turn_decodes(state: ChatState, request: TurnRequest, bucket: u64, width: usize)
    ensures
        request.speculative_draft == Some(width) && width >= 2 ==> decoding(request, bucket) == (
            TurnPhase::Verify { width },
            TurnStep::BuildVerify { bucket, width },
        ) && step_after(
            state,
            request,
            decoding(request, bucket).0,
            TurnEvent::VerifyBuilt,
        ) == (
            TurnPhase::Text,
            TurnStep::Speculate { width, paired_model: state.draft_ready },
        ) && step_after(
            state,
            request,
            decoding(request, bucket).0,
            TurnEvent::VerifyFailed,
        ) == (TurnPhase::Text, TurnStep::DecodePlainly),
        request.speculative_draft == Some(width) && width < 2 ==> decoding(request, bucket) == (
            TurnPhase::Text,
            TurnStep::DecodePlainly,
        ),
        request.speculative_draft is None ==> decoding(request, bucket) == (
            TurnPhase::Text,
            TurnStep::DecodePlainly,
        ),
{
}

/// Whether a step is what a phase waits for.
pub open spec fn awaits(phase: TurnPhase, step: TurnStep) -> bool {
    match phase {
        TurnPhase::Target => step is BuildTarget,
        TurnPhase::Draft => step is BuildDraft,
        TurnPhase::Geometry => step is ReportGeometry,
        TurnPhase::Seeder { bucket } => step matches TurnStep::InstallSeeder { bucket: b, chunk }
            && b == bucket,
        TurnPhase::Verify { width } => step matches TurnStep::BuildVerify { bucket, width: w } && w
            == width,
        TurnPhase::Text => step is Speculate || step is DecodePlainly,
        TurnPhase::Over => step is Finish || step is Fail,
    }
}

/// Throughout a turn the step it is told is what it waits for, what is drafted is of the
/// width that was asked for, and the paired model drafts where its pipeline stands. A
/// generated text finishes the turn.
pub proof fn law_a_turn_waits_for_what_it_asked(
    state: ChatState,
    request: TurnRequest,
    events: Seq<TurnEvent>,
)
    requires
        answered(state, request, events),
    ensures
        ({
            let point = turn_after(state, request, events);
            &&& awaits(point.phase, point.action.step)
            &&& point.phase matches TurnPhase::Verify { width } ==> width >= 2
                && request.speculative_draft == Some(width)
            &&& point.action.step matches TurnStep::Speculate { width, paired_model }
                ==> request.speculative_draft == Some(width) && paired_model
                == point.state.draft_ready
            &&& point.action.step is Finish <==> events.len() > 0 && events.last() is Generated
        }),
    decreases events.len(),
{
    if events.len() > 0 {
        law_a_turn_waits_for_what_it_asked(state, request, events.drop_last());
    }
}

/// What an event leaves in the session: a pipeline that was built is on record with the
/// bytes that its rows carry at its bucket, as far as 64 bits hold them; every other
/// event leaves the session as it was.
pub proof fn law_what_an_event_leaves(state: ChatState, kv_row: u64, bucket: u64, event: TurnEvent)
    ensures
        ({
            let after = state_after(state, TurnEvent::TargetBuilt { kv_row, bucket });
            &&& after.target_ready
            &&& after.draft_ready == state.draft_ready
            &&& after.charge.draft == state.charge.draft
            &&& kv_row * bucket <= u64::MAX ==> after.charge.target == kv_row * bucket
            &&& kv_row * bucket > u64::MAX ==> after.charge.target == u64::MAX
        }),
        ({
            let after = state_after(state, TurnEvent::DraftBuilt { kv_row, bucket });
            &&& after.draft_ready
            &&& after.target_ready == state.target_ready
            &&& after.charge.target == state.charge.target
            &&& kv_row * bucket <= u64::MAX ==> after.charge.draft == kv_row * bucket
            &&& kv_row * bucket > u64::MAX ==> after.charge.draft == u64::MAX
        }),
        !(event is TargetBuilt) && !(event is DraftBuilt) ==> state_after(state, event) == state
            && budget_after(state, event) is None,
        state.hard_ceiling && (event is TargetBuilt || event is DraftBuilt) ==> budget_after(
            state,
            event,
        ) is Some,
{
    crate::residency::law_a_charge_is_its_rows(state.charge, kv_row, bucket);
}

/// The vocabulary size of a model is the number that its configuration states, and 0
/// where it states none; what is no configuration has none.
pub proof fn law_a_vocabulary_size_is_stated(config: Seq<u8>)
    ensures
        vocab_size_of(config) is None <==> crate::json::parsed_json(config) is None,
        crate::json::parsed_json(config) matches Some(j) ==> match crate::json::at(
            j,
            "vocab_size"@,
        ) {
            crate::json::JsonV::Number { unsigned: Some(n), double_bits } => vocab_size_of(config)
                == Some(n),
            _ => vocab_size_of(config) == Some(0u64),
        },
{
}

/// The budget of a charge is what is left under the ceiling beside the host and what the
/// pair carries, nothing where they leave nothing; without a hard ceiling none is set.
pub proof fn law_a_budget_is_what_the_charge_leaves(charge: KvCharge)
    ensures
        budget_for(false, charge) is None,
        budget_for(true, charge) matches Some(b) && (if charge.carried()
            + crate::residency::HOST_HEADROOM <= crate::residency::STRUCTURAL_CEILING {
            b + charge.carried() + crate::residency::HOST_HEADROOM
                == crate::residency::STRUCTURAL_CEILING
        } else {
            b == 0
        }),
{
}

/// A generation runs with the tokenizer that was supplied, whatever the archive embeds,
/// and with the embedded one only where none was supplied.
pub proof fn law_a_supplied_tokenizer_comes_first(
    supplied: Option<Vec<u8>>,
    embedded: Option<Vec<u8>>,
    r: Option<Vec<u8>>,
)
    requires
        call_ensures(tokenizer_source, (supplied, embedded), r),
    ensures
        supplied is Some ==> r == supplied,
        supplied is None ==> r == embedded,
{
}

/// A configuration is what its options state: the bound on the tokens, the sampling, the
/// stop texts in their order and the end token as they are, a zero temperature and the
/// default seed where none is named.
pub proof fn law_a_configuration_is_what_its_options_state(o: &GenOpts, r: GenConfig)
    requires
        call_ensures(GenOpts::config, (o,), r),
    ensures
        r.max_tokens == o.max_tokens,
        r.top_k == o.top_k,
        r.eos == o.eos,
        o.temperature_bits matches Some(bits) ==> r.temperature_bits == bits,
        o.temperature_bits is None ==> r.temperature_bits == 0,
        o.seed matches Some(seed) ==> r.seed == seed,
        o.seed is None ==> r.seed == 0x9E3779B97F4A7C15,
        r.stop@.len() == o.stop@.len(),
        forall|i: int| 0 <= i < o.stop@.len() ==> (#[trigger] r.stop@[i])@ == o.stop@[i]@,
{
    let a = r.stop@.map_values(|t: String| t@);
    let b = o.stop@.map_values(|t: String| t@);
    assert(crate::prism::string_views(r.stop@) == a);
    assert(crate::prism::string_views(o.stop@) == b);
    assert(a.len() == r.stop@.len() && b.len() == o.stop@.len());
    assert forall|i: int| 0 <= i < o.stop@.len() implies (#[trigger] r.stop@[i])@ == o.stop@[i]@ by {
        assert(a[i] == b[i]);
    }
}

/// A chat starts cold: with what it was made from, no session, no draft and nothing
/// charged. A draft that may be paired is attached with its own context and changes
/// nothing else; a refused one changes nothing at all.
pub proof fn law_a_chat_starts_cold(
    context_length: u64,
    vocab_size: u64,
    hard_ceiling: bool,
    start: ChatState,
    state: &mut ChatState,
    draft: &ChatState,
    refusal: Option<&str>,
    r: Result<(), String>,
)
    requires
        call_ensures(ChatState::new, (context_length, vocab_size, hard_ceiling), start),
        *state == start,
        call_ensures(ChatState::attach_draft, (state, draft, refusal), r),
    ensures
        start.context_length == context_length,
        start.vocab_size == vocab_size,
        start.hard_ceiling == hard_ceiling,
        !start.target_ready && !start.draft_ready && start.draft_context is None,
        start.charge.target == 0 && start.charge.draft == 0,
        r is Ok <==> refusal is None,
        refusal is None ==> final(state).draft_context == Some(draft.context_length),
        refusal is Some ==> final(state).draft_context is None,
        final(state).context_length == context_length,
        final(state).vocab_size == vocab_size,
        final(state).hard_ceiling == hard_ceiling,
        !final(state).target_ready && !final(state).draft_ready,
        final(state).charge == start.charge,
{
}

} // verus!
