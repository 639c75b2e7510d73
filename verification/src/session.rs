//! Planning a growable staged session: what it is built from and which of its
//! optional parts are wired.

use crate::manifest::{
    parse_kappas, parse_manifest, stage_layers, ManifestError, ManifestRow, RawRow,
};
use crate::residency::decode_residency_budget;
use crate::text::{chars_of, push_decimal, string_of};
use vstd::prelude::*;

verus! {

/// What a client asks a session to be built from.
pub struct SessionRequest {
    pub rows: Vec<RawRow>,
    pub kappas: Vec<Option<String>>,
    pub context_length: Option<u32>,
    pub layers_per_stage: u32,
    /// Whether the client loads, stores and evaporates derived artifacts.
    pub derived_load: bool,
    pub derived_store: bool,
    pub derived_evaporate: bool,
    /// The resident bytes a paged stage may hold.
    pub weight_budget: Option<u32>,
    /// Whether the client listens to progress.
    pub narrate: bool,
    /// Whether the host has a hard address ceiling.
    pub hard_ceiling: bool,
}

/// How a session is built.
pub struct SessionPlan {
    pub rows: Vec<ManifestRow>,
    pub kappas: Vec<String>,
    pub context_length: Option<u64>,
    pub layers_per_stage: u64,
    /// Whether a derived-artifact store is wired: only where it can load, store
    /// and evaporate.
    pub derived: bool,
    /// The residency budget before anything is carried, under a hard ceiling.
    pub residency: Option<u64>,
    /// Whether stages are admitted by their true footprint: under a hard ceiling.
    pub bound_by_footprint: bool,
    /// The resident bytes of paged stages; none where stages are not paged.
    pub paging: Option<usize>,
    pub narrate: bool,
}

/// A width made wider.
pub open spec fn widened(n: Option<u32>) -> Option<u64> {
    match n {
        Some(n) => Some(n as u64),
        None => None,
    }
}

/// Whether a plan wires what a request asks for.
pub open spec fn wires(plan: SessionPlan, request: SessionRequest) -> bool {
    &&& plan.context_length == widened(request.context_length)
    &&& plan.layers_per_stage == request.layers_per_stage
    &&& plan.derived == (request.derived_load && request.derived_store
        && request.derived_evaporate)
    &&& plan.residency == (if request.hard_ceiling {
        Some(crate::residency::budget_beside(0) as u64)
    } else {
        None
    })
    &&& plan.bound_by_footprint == request.hard_ceiling
    &&& plan.paging == (match request.weight_budget {
        Some(n) => Some(n as usize),
        None => None,
    })
    &&& plan.narrate == request.narrate
}

/// Why a request is refused: its rows, then its κs, then its stages.
pub open spec fn refusal(request: SessionRequest) -> Option<crate::manifest::ManifestErrorV> {
    match crate::manifest::manifest_of(request.rows@) {
        Err(e) => Some(e),
        Ok(rows) => match crate::manifest::kappas_of(rows, request.kappas@) {
            Err(e) => Some(e),
            Ok(_) => if request.layers_per_stage == 0 {
                Some(crate::manifest::ManifestErrorV::NoLayers)
            } else {
                None
            },
        },
    }
}

/// Plan a session.
pub fn plan_session(request: &SessionRequest) -> (r: Result<SessionPlan, ManifestError>)
    ensures
        match r {
            Ok(plan) => {
                &&& refusal(*request) is None
                &&& crate::manifest::manifest_of(request.rows@) == Ok::<
                    Seq<crate::manifest::RowV>,
                    crate::manifest::ManifestErrorV,
                >(crate::manifest::row_views(plan.rows@))
                &&& crate::manifest::kappas_of(
                    crate::manifest::row_views(plan.rows@),
                    request.kappas@,
                ) == Ok::<Seq<Seq<char>>, crate::manifest::ManifestErrorV>(
                    crate::prism::string_views(plan.kappas@),
                )
                &&& wires(plan, *request)
            },
            Err(e) => refusal(*request) == Some(e@),
        },
{
    let rows = match parse_manifest(&request.rows) {
        Ok(rows) => rows,
        Err(e) => return Err(e),
    };
    let kappas = match parse_kappas(&rows, &request.kappas) {
        Ok(kappas) => kappas,
        Err(e) => return Err(e),
    };
    let layers_per_stage: u64 = match stage_layers(request.layers_per_stage) {
        Ok(n) => n,
        Err(e) => return Err(e),
    };
    let residency: Option<u64> = if request.hard_ceiling {
        Some(decode_residency_budget(0))
    } else {
        None
    };
    Ok(
        SessionPlan {
            rows,
            kappas,
            context_length: match request.context_length {
                Some(n) => Some(n as u64),
                None => None,
            },
            layers_per_stage,
            derived: request.derived_load && request.derived_store && request.derived_evaporate,
            residency,
            bound_by_footprint: request.hard_ceiling,
            paging: match request.weight_budget {
                Some(n) => Some(n as usize),
                None => None,
            },
            narrate: request.narrate,
        },
    )
}

/// What is said when a window is made ready.
pub open spec fn window_text(window: u64, resolved: bool) -> Seq<char> {
    (if resolved {
        "resolving (derived κ)"@
    } else {
        "compiling"@
    }) + " a "@ + crate::text::decimal(window as nat) + "-token window"@
}

fn push_text(out: &mut Vec<char>, text: &str)
    ensures
        final(out)@ == old(out)@ + text@,
{
    let mut more: Vec<char> = chars_of(text);
    out.append(&mut more);
}

/// What is said when a window is made ready.
pub fn window_message(window: u64, resolved: bool) -> (r: String)
    ensures
        r@ == window_text(window, resolved),
{
    let mut out: Vec<char> = chars_of(
        if resolved {
            "resolving (derived κ)"
        } else {
            "compiling"
        },
    );
    push_text(&mut out, " a ");
    push_decimal(&mut out, window);
    push_text(&mut out, "-token window");
    string_of(out.as_slice())
}

/// A manifest whose κs were read has one for every row, in order.
pub proof fn law_a_planned_session_binds_every_row(
    rows: Seq<crate::manifest::RowV>,
    kappas: Seq<Option<String>>,
)
    requires
        crate::manifest::kappas_of(rows, kappas) is Ok,
    ensures
        crate::manifest::kappas_of(rows, kappas)->Ok_0.len() == rows.len(),
        forall|i: int|
            0 <= i < rows.len() ==> crate::manifest::kappa_at(kappas, i) == Some(
                #[trigger] crate::manifest::kappas_of(rows, kappas)->Ok_0[i],
            ),
    decreases rows.len(),
{
    if rows.len() > 0 {
        let front = rows.drop_last();
        law_a_planned_session_binds_every_row(front, kappas);
        let all = crate::manifest::kappas_of(rows, kappas)->Ok_0;
        let before = crate::manifest::kappas_of(front, kappas)->Ok_0;
        assert forall|i: int| 0 <= i < rows.len() implies crate::manifest::kappa_at(kappas, i)
            == Some(#[trigger] all[i]) by {
            if i < rows.len() - 1 {
                assert(all[i] == before[i]);
            }
        }
    }
}

/// A plan wires what its request asks for: the context and the stages of the request,
/// derived artifacts only where the client can load, store and evaporate them, and
/// under a hard ceiling, and only there, the whole decode residency and admission by
/// footprint; stages are paged within the budget that the request gives, or not at all.
pub proof fn law_a_plan_wires_its_request(plan: SessionPlan, request: SessionRequest)
    requires
        wires(plan, request),
    ensures
        plan.context_length is Some <==> request.context_length is Some,
        request.context_length matches Some(n) ==> plan.context_length->0 == n,
        plan.layers_per_stage == request.layers_per_stage,
        plan.derived ==> request.derived_load && request.derived_store
            && request.derived_evaporate,
        request.derived_load && request.derived_store && request.derived_evaporate ==> plan.derived,
        plan.residency is Some <==> request.hard_ceiling,
        plan.residency matches Some(n) ==> n == crate::residency::budget_beside(0) as u64,
        plan.bound_by_footprint == request.hard_ceiling,
        plan.paging is Some <==> request.weight_budget is Some,
        request.weight_budget matches Some(n) ==> plan.paging->0 == n,
        plan.narrate == request.narrate,
{
}

/// A request is planned exactly where its rows read, every row has a κ and a stage holds
/// a layer; what is wrong with the rows comes before what is wrong with the κs, and the
/// stages come last.
pub proof fn law_what_a_request_is_refused_for(request: SessionRequest)
    ensures
        ({
            let rows = crate::manifest::manifest_of(request.rows@);
            &&& rows matches Err(e) ==> refusal(request) == Some(e)
            &&& rows matches Ok(r) ==> ({
                let ks = crate::manifest::kappas_of(r, request.kappas@);
                &&& ks matches Err(e) ==> refusal(request) == Some(e)
                &&& ks is Ok && request.layers_per_stage == 0 ==> refusal(request) == Some(
                    crate::manifest::ManifestErrorV::NoLayers,
                )
                &&& ks is Ok && request.layers_per_stage > 0 ==> refusal(request) is None
            })
        }),
{
}

/// What is said of a window states its number of tokens, and whether it is compiled or
/// resolved: no two windows are spoken of in the same words.
pub proof fn law_a_window_is_spoken_of_by_its_size(a: u64, b: u64, resolved: bool, other: bool)
    ensures
        window_text(a, false) == "compiling a "@ + crate::text::decimal(a as nat) + "-token window"@,
        window_text(a, true) == "resolving (derived κ) a "@ + crate::text::decimal(a as nat)
            + "-token window"@,
        window_text(a, resolved) == window_text(b, other) ==> a == b && resolved == other,
{
    reveal_strlit("compiling a ");
    reveal_strlit("compiling");
    reveal_strlit(" a ");
    reveal_strlit("-token window");
    reveal_strlit("resolving (derived κ) a ");
    reveal_strlit("resolving (derived κ)");
    let d = crate::text::decimal(a as nat);
    let e = crate::text::decimal(b as nat);
    let end = "-token window"@;
    assert("compiling"@ + " a "@ =~= "compiling a "@);
    assert("resolving (derived κ)"@ + " a "@ =~= "resolving (derived κ) a "@);
    let x = window_text(a, resolved);
    let y = window_text(b, other);
    if x == y {
        assert(x[0] == (if resolved { 'r' } else { 'c' }));
        assert(y[0] == (if other { 'r' } else { 'c' }));
        assert(resolved == other);
        let n: int = if resolved {
            24
        } else {
            12
        };
        assert(x.len() == n + d.len() + 13);
        assert(y.len() == n + e.len() + 13);
        assert(x.subrange(n, n + d.len() as int) =~= d);
        assert(y.subrange(n, n + e.len() as int) =~= e);
        crate::text::lemma_decimal(a as nat);
        crate::text::lemma_decimal(b as nat);
    }
}

} // verus!
