//! The contract manifest of a compiled graph: its tensors, its weight bindings,
//! its components and the provenance of the model.

use crate::kappa::{kappa_of, push_hex};
use crate::text::{chars_of, copy_str, string_of};
use vstd::prelude::*;
use vstd::slice::slice_subrange;

verus! {

/// The archive extension that holds the canonical manifest.
pub const PRISM_MANIFEST_EXT: &'static str = "prism.manifest";

/// Content-addressed provenance of a manifest.
pub struct PrismProvenance {
    /// The κ of the source model's canonical configuration.
    pub config_kappa: String,
    /// The κ of the source tensor container.
    pub tensor_manifest_kappa: String,
    /// The κ of every source artifact consumed, sorted, each once.
    pub source_kappas: Vec<String>,
    /// The substrate witness identifiers, sorted, each once.
    pub substrate_witnesses: Vec<String>,
}

/// One node of a graph: the text of its operation, and its tensors.
pub struct GraphNode {
    pub op: String,
    pub inputs: Vec<u32>,
    pub outputs: Vec<u32>,
}

/// Where the bytes of a parameter are.
pub enum ParamSource {
    /// In the κ-store, under this label.
    External { kappa: String },
    /// In the graph.
    Inline { data: Vec<u8> },
    /// In a file range, which has been read, or why it could not be.
    Mapped { content: Result<Vec<u8>, String> },
}

/// One parameter of a graph.
pub struct GraphParam {
    pub id: u32,
    pub source: ParamSource,
}

/// What is known of a tensor: the text of its element type, and its dimensions;
/// one that is still symbolic is unknown.
pub struct GraphTensor {
    pub id: u32,
    pub dtype: String,
    pub shape: Vec<Option<u64>>,
}

/// A compiled graph, as far as its manifest tells.
pub struct GraphModel {
    pub inputs: Vec<u32>,
    pub outputs: Vec<u32>,
    pub nodes: Vec<GraphNode>,
    pub params: Vec<GraphParam>,
    pub tensor_info: Vec<GraphTensor>,
}

/// A tensor of a manifest.
pub struct Tensor {
    pub dtype: String,
    pub id: String,
    pub shape: Vec<u64>,
}

/// A weight binding of a manifest.
pub struct Weight {
    pub kappa: String,
    pub tensor: String,
}

/// A node of a manifest.
pub struct Node {
    pub inputs: Vec<String>,
    pub op: String,
    pub outputs: Vec<String>,
}

/// The one component of a manifest; its weights are the group of its own id.
pub struct Component {
    pub inputs: Vec<String>,
    pub nodes: Vec<Node>,
    pub outputs: Vec<String>,
    pub id: String,
    pub role: String,
    pub weight_group: String,
}

/// The provenance that a manifest records.
pub struct Provenance {
    pub config_kappa: String,
    pub emitter_semantics_id: String,
    pub source_kappas: Vec<String>,
    pub substrate_witnesses: Vec<String>,
    pub tensor_manifest_kappa: String,
}

/// A manifest of one component, without connections.
pub struct Manifest {
    pub component: Component,
    pub provenance: Provenance,
    pub tensors: Vec<Tensor>,
    pub weights: Vec<Weight>,
}

/// A parameter whose file range could not be read.
#[derive(Debug)]
pub struct UnreadableParam {
    pub id: u32,
    pub reason: String,
}

/// Why a graph has no manifest.
#[derive(Debug)]
pub enum ManifestError {
    /// A parameter could not be read.
    Unreadable(UnreadableParam),
    /// The contract did not admit the manifest.
    Refused { reason: String },
}

/// The four bytes of a number, most significant first.
pub open spec fn be_bytes(n: u32) -> Seq<u8> {
    seq![
        (n / 0x100_0000) as u8,
        (n / 0x1_0000 % 0x100) as u8,
        (n / 0x100 % 0x100) as u8,
        (n % 0x100) as u8,
    ]
}

/// The text of a tensor id: `t` and eight hex digits, so that the order of the
/// texts is the order of the numbers.
pub open spec fn tensor_text(id: u32) -> Seq<char> {
    "t"@ + crate::kappa::hex(be_bytes(id))
}

/// The texts of some tensor ids.
pub open spec fn tensor_texts(ids: Seq<u32>) -> Seq<Seq<char>> {
    ids.map_values(|id: u32| tensor_text(id))
}

/// The models of some strings.
pub open spec fn string_views(s: Seq<String>) -> Seq<Seq<char>> {
    s.map_values(|t: String| t@)
}

/// A character with the upper-case ASCII letters made lower-case.
pub open spec fn lower(c: char) -> char {
    if 'A' <= c <= 'Z' {
        (c as u32 + 32) as char
    } else {
        c
    }
}

/// A text with the upper-case ASCII letters made lower-case.
pub open spec fn lowered(s: Seq<char>) -> Seq<char> {
    s.map_values(|c: char| lower(c))
}

/// Whether a character ends the name of an operation.
pub open spec fn ends_op(c: char) -> bool {
    c == '(' || c == ' ' || c == '{'
}

/// The length of the name with which the text of an operation begins.
pub open spec fn op_length(s: Seq<char>) -> int
    decreases s.len(),
{
    if s.len() == 0 || ends_op(s[0]) {
        0
    } else {
        1 + op_length(s.skip(1))
    }
}

/// The name of an operation: what stands before the first bracket, brace or
/// space, in lower case.
pub open spec fn op_name(s: Seq<char>) -> Seq<char> {
    lowered(s.take(op_length(s)))
}

/// Whether a graph mentions a tensor.
pub open spec fn mentions(graph: GraphModel, id: u32) -> bool {
    ||| graph.inputs@.contains(id)
    ||| graph.outputs@.contains(id)
    ||| exists|i: int|
        0 <= i < graph.nodes@.len() && (#[trigger] graph.nodes@[i]).inputs@.contains(id)
    ||| exists|i: int|
        0 <= i < graph.nodes@.len() && (#[trigger] graph.nodes@[i]).outputs@.contains(id)
    ||| exists|i: int| 0 <= i < graph.params@.len() && (#[trigger] graph.params@[i]).id == id
}

/// Whether ids stand in ascending order, each once.
pub open spec fn ascending(ids: Seq<u32>) -> bool {
    forall|i: int, j: int| 0 <= i < j < ids.len() ==> #[trigger] ids[i] < #[trigger] ids[j]
}

/// Whether `ids` are the tensors that a graph mentions, in ascending order.
pub open spec fn id_table(graph: GraphModel, ids: Seq<u32>) -> bool {
    ascending(ids) && forall|id: u32| #[trigger] ids.contains(id) <==> mentions(graph, id)
}

/// The first entry about a tensor.
pub open spec fn info_of(infos: Seq<GraphTensor>, id: u32) -> Option<GraphTensor>
    decreases infos.len(),
{
    if infos.len() == 0 {
        None
    } else if infos[0].id == id {
        Some(infos[0])
    } else {
        info_of(infos.skip(1), id)
    }
}

/// A tensor of a manifest.
#[verifier::ext_equal]
pub struct TensorV {
    pub dtype: Seq<char>,
    pub id: Seq<char>,
    pub shape: Seq<u64>,
}

impl View for Tensor {
    type V = TensorV;

    open spec fn view(&self) -> TensorV {
        TensorV { dtype: self.dtype@, id: self.id@, shape: self.shape@ }
    }
}

/// The manifest entry of a tensor: a symbolic dimension is recorded as 0, and a
/// tensor of which nothing is known has the type `unknown` and no dimension.
pub open spec fn tensor_entry(infos: Seq<GraphTensor>, id: u32) -> TensorV {
    match info_of(infos, id) {
        None => TensorV { dtype: "unknown"@, id: tensor_text(id), shape: Seq::empty() },
        Some(info) => TensorV {
            dtype: lowered(info.dtype@),
            id: tensor_text(id),
            shape: info.shape@.map_values(
                |d: Option<u64>|
                    match d {
                        Some(n) => n,
                        None => 0u64,
                    },
            ),
        },
    }
}

/// The models of some tensors.
pub open spec fn tensor_views(s: Seq<Tensor>) -> Seq<TensorV> {
    s.map_values(|t: Tensor| t@)
}

/// A weight binding of a manifest, with the number of its tensor.
#[verifier::ext_equal]
pub struct WeightV {
    pub id: u32,
    pub kappa: Seq<char>,
}

/// The label of a parameter: its own where it is external, else that of its
/// bytes; the reason where they could not be read.
pub open spec fn param_kappa(source: ParamSource) -> Result<Seq<char>, String> {
    match source {
        ParamSource::External { kappa } => Ok(kappa@),
        ParamSource::Inline { data } => Ok(crate::kappa::kappa_label(data@)),
        ParamSource::Mapped { content: Ok(bytes) } => Ok(crate::kappa::kappa_label(bytes@)),
        ParamSource::Mapped { content: Err(reason) } => Err(reason),
    }
}

/// Where a binding goes among bindings in the order of their tensors: behind
/// every binding whose tensor does not come after its own.
pub open spec fn place(s: Seq<WeightV>, w: WeightV) -> int
    decreases s.len(),
{
    if s.len() == 0 || w.id >= s.last().id {
        s.len() as int
    } else {
        place(s.drop_last(), w)
    }
}

/// The bindings of some parameters in the order of their tensors, or the first
/// parameter that could not be read.
pub open spec fn weight_table(params: Seq<GraphParam>) -> Result<Seq<WeightV>, UnreadableParam>
    decreases params.len(),
{
    if params.len() == 0 {
        Ok(Seq::empty())
    } else {
        match weight_table(params.drop_last()) {
            Err(e) => Err(e),
            Ok(front) => match param_kappa(params.last().source) {
                Err(reason) => Err(UnreadableParam { id: params.last().id, reason }),
                Ok(kappa) => {
                    let w = WeightV { id: params.last().id, kappa };
                    Ok(front.insert(place(front, w), w))
                },
            },
        }
    }
}

/// Whether manifest bindings are the bindings of a table.
pub open spec fn weights_match(weights: Seq<Weight>, table: Seq<WeightV>) -> bool {
    &&& weights.len() == table.len()
    &&& forall|i: int|
        0 <= i < weights.len() ==> (#[trigger] weights[i]).tensor@ == tensor_text(table[i].id)
            && weights[i].kappa@ == table[i].kappa
}

/// Whether a manifest node is the node of a graph.
pub open spec fn node_matches(n: Node, g: GraphNode) -> bool {
    &&& string_views(n.inputs@) == tensor_texts(g.inputs@)
    &&& string_views(n.outputs@) == tensor_texts(g.outputs@)
    &&& n.op@ == op_name(g.op@)
}

/// Whether manifest nodes are the nodes of a graph, in their order.
pub open spec fn nodes_match(nodes: Seq<Node>, graph: Seq<GraphNode>) -> bool {
    &&& nodes.len() == graph.len()
    &&& forall|i: int| 0 <= i < nodes.len() ==> node_matches(#[trigger] nodes[i], graph[i])
}

/// The identity under which this crate emits manifests.
pub open spec fn emitter_identity() -> Seq<char> {
    "hologram-ai/prism-emitter/1\nprism-archive rev 18d602ade7891dc79a51323caf33551138006e01\n"@
}

/// The digest of the emitter's identity, in hex.
pub open spec fn emitter_text() -> Seq<char> {
    crate::kappa::hex(
        crate::kappa::blake3_digest(vstd::utf8::encode_utf8(emitter_identity()))@,
    )
}

/// The digest that provenance records for the emitter.
pub fn emitter_semantics_id() -> (r: String)
    ensures
        r@ == emitter_text(),
{
    let identity =
        "hologram-ai/prism-emitter/1\nprism-archive rev 18d602ade7891dc79a51323caf33551138006e01\n";
    let label = chars_of(kappa_of(identity.as_bytes()).as_str());
    proof {
        reveal_strlit("blake3:");
        assert(label@.skip(7) =~= emitter_text());
    }
    let rest = slice_subrange(label.as_slice(), 7, label.len());
    proof {
        assert(rest@ =~= label@.skip(7));
    }
    string_of(rest)
}

/// The text of a tensor id.
pub fn tensor_id(id: u32) -> (r: String)
    ensures
        r@ == tensor_text(id),
{
    let bytes: [u8; 4] = [
        (id / 0x100_0000) as u8,
        (id / 0x1_0000 % 0x100) as u8,
        (id / 0x100 % 0x100) as u8,
        (id % 0x100) as u8,
    ];
    let mut out = chars_of("t");
    push_hex(&mut out, bytes.as_slice());
    proof {
        assert(bytes@ =~= be_bytes(id));
    }
    string_of(out.as_slice())
}

fn tensor_ids(ids: &Vec<u32>) -> (r: Vec<String>)
    ensures
        string_views(r@) == tensor_texts(ids@),
{
    let mut out: Vec<String> = Vec::new();
    let mut i: usize = 0;
    proof {
        assert(string_views(out@) =~= tensor_texts(ids@).take(0));
    }
    while i < ids.len()
        invariant
            i <= ids@.len(),
            string_views(out@) == tensor_texts(ids@).take(i as int),
        decreases ids@.len() - i,
    {
        let ghost before = string_views(out@);
        out.push(tensor_id(ids[i]));
        proof {
            assert(string_views(out@) =~= before.push(tensor_text(ids@[i as int])));
            assert(tensor_texts(ids@).take(i + 1) =~= before.push(tensor_text(ids@[i as int])));
        }
        i += 1;
    }
    proof {
        assert(tensor_texts(ids@).take(ids@.len() as int) =~= tensor_texts(ids@));
    }
    out
}

fn lower_text(chars: &[char]) -> (r: String)
    ensures
        r@ == lowered(chars@),
{
    let mut out: Vec<char> = Vec::new();
    let mut i: usize = 0;
    proof {
        assert(out@ =~= lowered(chars@).take(0));
    }
    while i < chars.len()
        invariant
            i <= chars@.len(),
            out@ == lowered(chars@).take(i as int),
        decreases chars@.len() - i,
    {
        let c = chars[i];
        let l: char = if 'A' <= c && c <= 'Z' {
            (c as u8 + 32) as char
        } else {
            c
        };
        out.push(l);
        proof {
            assert(l == lower(c));
            assert(out@ =~= lowered(chars@).take(i + 1));
        }
        i += 1;
    }
    proof {
        assert(lowered(chars@).take(chars@.len() as int) =~= lowered(chars@));
    }
    string_of(out.as_slice())
}

proof fn lemma_op_length(s: Seq<char>, n: int)
    requires
        0 <= n <= s.len(),
        forall|k: int| 0 <= k < n ==> !ends_op(#[trigger] s[k]),
        n < s.len() ==> ends_op(s[n]),
    ensures
        op_length(s) == n,
    decreases s.len(),
{
    if n > 0 {
        assert(!ends_op(s[0]));
        assert forall|k: int| 0 <= k < n - 1 implies !ends_op(#[trigger] s.skip(1)[k]) by {
            assert(s.skip(1)[k] == s[k + 1]);
        }
        lemma_op_length(s.skip(1), n - 1);
    }
}

/// The name of an operation, from the text that describes it.
pub fn op_label(op: &str) -> (r: String)
    ensures
        r@ == op_name(op@),
{
    let chars = chars_of(op);
    let mut n: usize = 0;
    while n < chars.len() && !(chars[n] == '(' || chars[n] == ' ' || chars[n] == '{')
        invariant
            n <= chars@.len(),
            forall|k: int| 0 <= k < n ==> !ends_op(#[trigger] chars@[k]),
        ensures
            n <= chars@.len(),
            forall|k: int| 0 <= k < n ==> !ends_op(#[trigger] chars@[k]),
            n < chars@.len() ==> ends_op(chars@[n as int]),
        decreases chars@.len() - n,
    {
        n += 1;
    }
    proof {
        lemma_op_length(chars@, n as int);
        assert(chars@.take(n as int) =~= chars@.subrange(0, n as int));
    }
    lower_text(slice_subrange(chars.as_slice(), 0, n))
}

/// Whether `b` holds what `a` held and `id` besides.
spec fn joined(a: Seq<u32>, b: Seq<u32>, id: u32) -> bool {
    forall|x: u32| #[trigger] b.contains(x) <==> a.contains(x) || x == id
}

fn insert_id(ids: &mut Vec<u32>, id: u32)
    requires
        ascending(old(ids)@),
    ensures
        ascending(final(ids)@),
        joined(old(ids)@, final(ids)@, id),
{
    let ghost before = ids@;
    let mut j: usize = ids.len();
    while j > 0 && ids[j - 1] > id
        invariant
            j <= ids@.len(),
            ids@ == before,
            ascending(before),
            forall|k: int| j <= k < ids@.len() ==> #[trigger] ids@[k] > id,
        ensures
            j <= ids@.len(),
            forall|k: int| j <= k < ids@.len() ==> #[trigger] ids@[k] > id,
            j > 0 ==> ids@[j - 1] <= id,
        decreases j,
    {
        j = j - 1;
    }
    if j > 0 && ids[j - 1] == id {
        proof {
            assert(before[j - 1] == id);
            assert(before.contains(id));
        }
        return;
    }
    ids.insert(j, id);
    proof {
        let after = ids@;
        assert(after =~= before.insert(j as int, id));
        assert forall|a: int, b: int| 0 <= a < b < after.len() implies #[trigger] after[a]
            < #[trigger] after[b] by {
            if a < j && b == j {
                assert(after[a] == before[a]);
                if a < j - 1 {
                    assert(before[a] < before[j - 1]);
                }
            } else if a == j {
                assert(after[b] == before[b - 1]);
            } else {
                let x = if a < j { a } else { a - 1 };
                let y = if b < j { b } else { b - 1 };
                assert(after[a] == before[x] && after[b] == before[y]);
            }
        }
        assert forall|x: u32| #[trigger] after.contains(x) <==> before.contains(x) || x == id by {
            if before.contains(x) {
                let k = choose|k: int| 0 <= k < before.len() && before[k] == x;
                let m = if k < j { k } else { k + 1 };
                assert(after[m] == x);
            }
            if x == id {
                assert(after[j as int] == id);
            }
            if after.contains(x) {
                let k = choose|k: int| 0 <= k < after.len() && after[k] == x;
                if k < j {
                    assert(before[k] == x);
                } else if k > j {
                    assert(before[k - 1] == x);
                }
            }
        }
    }
}

fn insert_ids(ids: &mut Vec<u32>, more: &Vec<u32>)
    requires
        ascending(old(ids)@),
    ensures
        ascending(final(ids)@),
        forall|x: u32| #[trigger] final(ids)@.contains(x) <==> old(ids)@.contains(x) || more@.contains(x),
{
    let ghost before = ids@;
    let mut i: usize = 0;
    while i < more.len()
        invariant
            i <= more@.len(),
            before == old(ids)@,
            ascending(ids@),
            forall|x: u32| #[trigger]
                ids@.contains(x) <==> before.contains(x) || more@.take(i as int).contains(x),
        decreases more@.len() - i,
    {
        let ghost prev = ids@;
        insert_id(ids, more[i]);
        proof {
            assert forall|x: u32| #[trigger]
                ids@.contains(x) <==> before.contains(x) || more@.take(i + 1).contains(x) by {
                let t = more@.take(i as int);
                let u = more@.take(i + 1);
                assert(u =~= t.push(more@[i as int]));
                assert(ids@.contains(x) <==> prev.contains(x) || x == more@[i as int]);
                if t.contains(x) {
                    let k = choose|k: int| 0 <= k < t.len() && t[k] == x;
                    assert(u[k] == x);
                }
                if x == more@[i as int] {
                    assert(u[i as int] == x);
                }
                if u.contains(x) {
                    let k = choose|k: int| 0 <= k < u.len() && u[k] == x;
                    if k < i {
                        assert(t[k] == x);
                    }
                }
            }
        }
        i += 1;
    }
    proof {
        assert(more@.take(more@.len() as int) =~= more@);
    }
}

spec fn mentioned_before(graph: GraphModel, id: u32, nodes: int, params: int) -> bool {
    ||| graph.inputs@.contains(id)
    ||| graph.outputs@.contains(id)
    ||| exists|i: int| 0 <= i < nodes && (#[trigger] graph.nodes@[i]).inputs@.contains(id)
    ||| exists|i: int| 0 <= i < nodes && (#[trigger] graph.nodes@[i]).outputs@.contains(id)
    ||| exists|i: int| 0 <= i < params && (#[trigger] graph.params@[i]).id == id
}

fn collect_ids(graph: &GraphModel) -> (ids: Vec<u32>)
    ensures
        id_table(*graph, ids@),
{
    let mut ids: Vec<u32> = Vec::new();
    insert_ids(&mut ids, &graph.inputs);
    insert_ids(&mut ids, &graph.outputs);
    let mut i: usize = 0;
    while i < graph.nodes.len()
        invariant
            i <= graph.nodes@.len(),
            ascending(ids@),
            forall|x: u32| #[trigger]
                ids@.contains(x) <==> mentioned_before(*graph, x, i as int, 0),
        decreases graph.nodes@.len() - i,
    {
        let ghost prev = ids@;
        insert_ids(&mut ids, &graph.nodes[i].inputs);
        insert_ids(&mut ids, &graph.nodes[i].outputs);
        proof {
            let node = graph.nodes@[i as int];
            assert forall|x: u32| #[trigger] ids@.contains(x) <==> mentioned_before(
                *graph,
                x,
                i + 1,
                0,
            ) by {
                assert(ids@.contains(x) <==> prev.contains(x) || node.inputs@.contains(x)
                    || node.outputs@.contains(x));
                if mentioned_before(*graph, x, i + 1, 0) && !mentioned_before(
                    *graph,
                    x,
                    i as int,
                    0,
                ) {
                    if exists|k: int|
                        0 <= k < i + 1 && (#[trigger] graph.nodes@[k]).inputs@.contains(x) {
                        let k = choose|k: int|
                            0 <= k < i + 1 && (#[trigger] graph.nodes@[k]).inputs@.contains(x);
                        assert(k == i);
                    } else {
                        let k = choose|k: int|
                            0 <= k < i + 1 && (#[trigger] graph.nodes@[k]).outputs@.contains(x);
                        assert(k == i);
                    }
                }
            }
        }
        i += 1;
    }
    let mut p: usize = 0;
    while p < graph.params.len()
        invariant
            p <= graph.params@.len(),
            ascending(ids@),
            forall|x: u32| #[trigger]
                ids@.contains(x) <==> mentioned_before(
                    *graph,
                    x,
                    graph.nodes@.len() as int,
                    p as int,
                ),
        decreases graph.params@.len() - p,
    {
        let ghost prev = ids@;
        let id: u32 = graph.params[p].id;
        insert_id(&mut ids, id);
        proof {
            let n = graph.nodes@.len() as int;
            assert forall|x: u32| #[trigger] ids@.contains(x) <==> mentioned_before(
                *graph,
                x,
                n,
                p + 1,
            ) by {
                assert(ids@.contains(x) <==> prev.contains(x) || x == id);
                if x == id {
                    assert(graph.params@[p as int].id == x);
                }
                if mentioned_before(*graph, x, n, p + 1) && !mentioned_before(
                    *graph,
                    x,
                    n,
                    p as int,
                ) {
                    let k = choose|k: int|
                        0 <= k < p + 1 && (#[trigger] graph.params@[k]).id == x;
                    assert(k == p);
                }
            }
        }
        p += 1;
    }
    ids
}

fn find_info<'a>(infos: &'a Vec<GraphTensor>, id: u32) -> (r: Option<&'a GraphTensor>)
    ensures
        match r {
            Some(info) => info_of(infos@, id) == Some(*info),
            None => info_of(infos@, id) == None::<GraphTensor>,
        },
{
    let mut i: usize = 0;
    proof {
        assert(infos@.skip(0) =~= infos@);
    }
    while i < infos.len()
        invariant
            i <= infos@.len(),
            info_of(infos@, id) == info_of(infos@.skip(i as int), id),
        decreases infos@.len() - i,
    {
        proof {
            assert(infos@.skip(i as int)[0] == infos@[i as int]);
            assert(infos@.skip(i as int).skip(1) =~= infos@.skip(i + 1));
        }
        if infos[i].id == id {
            return Some(&infos[i]);
        }
        i += 1;
    }
    None
}

/// The dimensions of a tensor; one that is still symbolic is recorded as 0.
pub fn concrete_shape(dims: &Vec<Option<u64>>) -> (r: Vec<u64>)
    ensures
        r@ == dims@.map_values(
            |d: Option<u64>|
                match d {
                    Some(n) => n,
                    None => 0u64,
                },
        ),
{
    let ghost all = dims@.map_values(
        |d: Option<u64>|
            match d {
                Some(n) => n,
                None => 0u64,
            },
    );
    let mut out: Vec<u64> = Vec::new();
    let mut i: usize = 0;
    while i < dims.len()
        invariant
            i <= dims@.len(),
            all == dims@.map_values(
                |d: Option<u64>|
                    match d {
                        Some(n) => n,
                        None => 0u64,
                    },
            ),
            out@ == all.take(i as int),
        decreases dims@.len() - i,
    {
        let n: u64 = match dims[i] {
            Some(n) => n,
            None => 0,
        };
        out.push(n);
        proof {
            assert(out@ =~= all.take(i + 1));
        }
        i += 1;
    }
    proof {
        assert(all.take(all.len() as int) =~= all);
    }
    out
}

fn manifest_tensor(infos: &Vec<GraphTensor>, id: u32) -> (t: Tensor)
    ensures
        t@ == tensor_entry(infos@, id),
{
    match find_info(infos, id) {
        None => {
            let shape: Vec<u64> = Vec::new();
            proof {
                assert(shape@ =~= Seq::empty());
            }
            Tensor { dtype: copy_str("unknown"), id: tensor_id(id), shape }
        },
        Some(info) => {
            let chars = chars_of(info.dtype.as_str());
            Tensor {
                dtype: lower_text(chars.as_slice()),
                id: tensor_id(id),
                shape: concrete_shape(&info.shape),
            }
        },
    }
}

fn manifest_tensors(infos: &Vec<GraphTensor>, ids: &Vec<u32>) -> (r: Vec<Tensor>)
    ensures
        tensor_views(r@) == ids@.map_values(|id: u32| tensor_entry(infos@, id)),
{
    let ghost all = ids@.map_values(|id: u32| tensor_entry(infos@, id));
    let mut out: Vec<Tensor> = Vec::new();
    let mut i: usize = 0;
    proof {
        assert(tensor_views(out@) =~= all.take(0));
    }
    while i < ids.len()
        invariant
            i <= ids@.len(),
            all == ids@.map_values(|id: u32| tensor_entry(infos@, id)),
            tensor_views(out@) == all.take(i as int),
        decreases ids@.len() - i,
    {
        let t = manifest_tensor(infos, ids[i]);
        let ghost before = tensor_views(out@);
        out.push(t);
        proof {
            assert(tensor_views(out@) =~= before.push(t@));
            assert(all.take(i + 1) =~= before.push(all[i as int]));
        }
        i += 1;
    }
    proof {
        assert(all.take(all.len() as int) =~= all);
    }
    out
}

proof fn lemma_place(s: Seq<WeightV>, w: WeightV, j: int)
    requires
        0 <= j <= s.len(),
        forall|k: int| j <= k < s.len() ==> w.id < (#[trigger] s[k]).id,
        j > 0 ==> w.id >= s[j - 1].id,
    ensures
        place(s, w) == j,
    decreases s.len(),
{
    if j < s.len() {
        assert forall|k: int| j <= k < s.drop_last().len() implies w.id < (
        #[trigger] s.drop_last()[k]).id by {
            assert(s.drop_last()[k] == s[k]);
        }
        assert(s.last() == s[s.len() - 1]);
        lemma_place(s.drop_last(), w, j);
    }
}

proof fn lemma_weight_table_stops(params: Seq<GraphParam>, n: int)
    requires
        0 <= n <= params.len(),
        weight_table(params.take(n)) is Err,
    ensures
        weight_table(params) == weight_table(params.take(n)),
    decreases params.len(),
{
    if n == params.len() {
        assert(params.take(n) =~= params);
    } else {
        assert(params.drop_last().take(n) =~= params.take(n));
        lemma_weight_table_stops(params.drop_last(), n);
    }
}

fn manifest_weights(params: &Vec<GraphParam>) -> (r: Result<Vec<Weight>, UnreadableParam>)
    ensures
        match r {
            Ok(ws) => weight_table(params@) matches Ok(table) && weights_match(ws@, table),
            Err(e) => weight_table(params@) == Err::<Seq<WeightV>, UnreadableParam>(e),
        },
{
    let mut out: Vec<Weight> = Vec::new();
    let mut ids: Vec<u32> = Vec::new();
    let ghost mut table: Seq<WeightV> = Seq::empty();
    let mut i: usize = 0;
    proof {
        assert(params@.take(0) =~= Seq::empty());
    }
    while i < params.len()
        invariant
            i <= params@.len(),
            weight_table(params@.take(i as int)) == Ok::<Seq<WeightV>, UnreadableParam>(table),
            weights_match(out@, table),
            ids@.len() == table.len(),
            forall|k: int| 0 <= k < ids@.len() ==> #[trigger] ids@[k] == table[k].id,
        decreases params@.len() - i,
    {
        let param = &params[i];
        let id: u32 = param.id;
        proof {
            assert(params@.take(i + 1).drop_last() =~= params@.take(i as int));
            assert(params@.take(i + 1).last() == *param);
        }
        let kappa: String = match &param.source {
            ParamSource::External { kappa } => kappa.clone(),
            ParamSource::Inline { data } => kappa_of(data.as_slice()),
            ParamSource::Mapped { content } => match content {
                Ok(bytes) => kappa_of(bytes.as_slice()),
                Err(reason) => {
                    proof {
                        lemma_weight_table_stops(params@, i + 1);
                    }
                    return Err(UnreadableParam { id, reason: reason.clone() });
                },
            },
        };
        let ghost w = WeightV { id, kappa: kappa@ };
        let mut j: usize = ids.len();
        while j > 0 && id < ids[j - 1]
            invariant
                j <= ids@.len(),
                ids@.len() == table.len(),
                forall|k: int| 0 <= k < ids@.len() ==> #[trigger] ids@[k] == table[k].id,
                forall|k: int| j <= k < table.len() ==> id < (#[trigger] table[k]).id,
            ensures
                j <= ids@.len(),
                forall|k: int| j <= k < table.len() ==> id < (#[trigger] table[k]).id,
                j > 0 ==> id >= table[j - 1].id,
            decreases j,
        {
            proof {
                assert(ids@[j - 1] == table[j - 1].id);
            }
            j = j - 1;
        }
        proof {
            if j > 0 {
                assert(ids@[j - 1] == table[j - 1].id);
            }
            lemma_place(table, w, j as int);
        }
        let ghost old_out = out@;
        let ghost old_ids = ids@;
        let ghost old_table = table;
        out.insert(j, Weight { kappa, tensor: tensor_id(id) });
        ids.insert(j, id);
        proof {
            table = table.insert(j as int, w);
            assert(out@.len() == table.len());
            assert forall|k: int| 0 <= k < out@.len() implies (#[trigger] out@[k]).tensor@
                == tensor_text(table[k].id) && out@[k].kappa@ == table[k].kappa by {
                if k < j {
                    assert(out@[k] == old_out[k]);
                    assert(table[k] == old_table[k]);
                } else if k > j {
                    assert(out@[k] == old_out[k - 1]);
                    assert(table[k] == old_table[k - 1]);
                }
            }
            assert forall|k: int| 0 <= k < ids@.len() implies #[trigger] ids@[k] == table[k].id by {
                if k < j {
                    assert(ids@[k] == old_ids[k]);
                } else if k > j {
                    assert(ids@[k] == old_ids[k - 1]);
                }
            }
        }
        i += 1;
    }
    proof {
        assert(params@.take(params@.len() as int) =~= params@);
    }
    Ok(out)
}

fn manifest_nodes(nodes: &Vec<GraphNode>) -> (r: Vec<Node>)
    ensures
        nodes_match(r@, nodes@),
{
    let mut out: Vec<Node> = Vec::new();
    let mut i: usize = 0;
    while i < nodes.len()
        invariant
            i <= nodes@.len(),
            out@.len() == i,
            forall|k: int| 0 <= k < i ==> node_matches(#[trigger] out@[k], nodes@[k]),
        decreases nodes@.len() - i,
    {
        let g = &nodes[i];
        let n = Node {
            inputs: tensor_ids(&g.inputs),
            op: op_label(g.op.as_str()),
            outputs: tensor_ids(&g.outputs),
        };
        out.push(n);
        i += 1;
    }
    out
}

/// Whether a manifest is that of a graph.
pub open spec fn is_manifest(
    m: Manifest,
    graph: GraphModel,
    component_id: Seq<char>,
    role: Seq<char>,
    provenance: PrismProvenance,
) -> bool {
    &&& exists|ids: Seq<u32>| #[trigger]
        id_table(graph, ids) && tensor_views(m.tensors@) == ids.map_values(
            |id: u32| tensor_entry(graph.tensor_info@, id),
        )
    &&& weight_table(graph.params@) matches Ok(table) && weights_match(m.weights@, table)
    &&& nodes_match(m.component.nodes@, graph.nodes@)
    &&& string_views(m.component.inputs@) == tensor_texts(graph.inputs@)
    &&& string_views(m.component.outputs@) == tensor_texts(graph.outputs@)
    &&& m.component.id@ == component_id
    &&& m.component.weight_group@ == component_id
    &&& m.component.role@ == role
    &&& m.provenance.emitter_semantics_id@ == emitter_text()
    &&& m.provenance.config_kappa == provenance.config_kappa
    &&& m.provenance.source_kappas == provenance.source_kappas
    &&& m.provenance.substrate_witnesses == provenance.substrate_witnesses
    &&& m.provenance.tensor_manifest_kappa == provenance.tensor_manifest_kappa
}

/// The manifest of one compiled component graph.
///
/// The tensors are all that the graph mentions, in ascending order. Each
/// parameter gives a weight binding: an external one by its label, any other by
/// the label of its bytes. The manifest is checked before anything is made of it: one
/// that `admission` refuses is not handed out.
pub fn graph_manifest<A: Fn(&Manifest) -> Result<(), String>>(
    graph: &GraphModel,
    component_id: &str,
    role: &str,
    provenance: PrismProvenance,
    admission: A,
) -> (r: Result<Manifest, ManifestError>)
    requires
        forall|m: &Manifest| call_requires(admission, (m,)),
    ensures
        match r {
            Ok(m) => is_manifest(m, *graph, component_id@, role@, provenance) && call_ensures(
                admission,
                (&m,),
                Ok(()),
            ),
            Err(ManifestError::Unreadable(e)) => weight_table(graph.params@) == Err::<
                Seq<WeightV>,
                UnreadableParam,
            >(e),
            Err(ManifestError::Refused { reason }) => exists|m: Manifest| #[trigger]
                is_manifest(m, *graph, component_id@, role@, provenance) && call_ensures(
                    admission,
                    (&m,),
                    Err(reason),
                ),
        },
{
    let ids = collect_ids(graph);
    let tensors = manifest_tensors(&graph.tensor_info, &ids);
    let weights = match manifest_weights(&graph.params) {
        Ok(weights) => weights,
        Err(e) => {
            return Err(ManifestError::Unreadable(e));
        },
    };
    let component = Component {
        inputs: tensor_ids(&graph.inputs),
        nodes: manifest_nodes(&graph.nodes),
        outputs: tensor_ids(&graph.outputs),
        id: copy_str(component_id),
        role: copy_str(role),
        weight_group: copy_str(component_id),
    };
    let recorded = Provenance {
        config_kappa: provenance.config_kappa,
        emitter_semantics_id: emitter_semantics_id(),
        source_kappas: provenance.source_kappas,
        substrate_witnesses: provenance.substrate_witnesses,
        tensor_manifest_kappa: provenance.tensor_manifest_kappa,
    };
    proof {
        assert(id_table(*graph, ids@));
    }
    let manifest = Manifest { component, provenance: recorded, tensors, weights };
    proof {
        assert(is_manifest(manifest, *graph, component_id@, role@, provenance));
    }
    let verdict = admission(&manifest);
    match verdict {
        Ok(unit) => {
            proof {
                assert(unit == ());
                assert(verdict == Ok::<(), String>(unit));
            }
            Ok(manifest)
        },
        Err(reason) => Err(ManifestError::Refused { reason }),
    }
}

/// Whether `a` comes before `b`, both of the same length, at their first
/// difference.
pub open spec fn text_before(a: Seq<char>, b: Seq<char>) -> bool {
    exists|i: int|
        0 <= i < a.len() && i < b.len() && #[trigger] a[i] < b[i] && (forall|k: int|
            0 <= k < i ==> a[k] == b[k])
}

spec fn nibble(n: u32, i: int) -> int {
    let b = be_bytes(n)[i / 2] as int;
    if i % 2 == 0 {
        b / 16
    } else {
        b % 16
    }
}

proof fn lemma_nibbles(n: u32)
    ensures
        n == ((((((nibble(n, 0) * 16 + nibble(n, 1)) * 16 + nibble(n, 2)) * 16 + nibble(n, 3)) * 16
            + nibble(n, 4)) * 16 + nibble(n, 5)) * 16 + nibble(n, 6)) * 16 + nibble(n, 7),
        forall|i: int| 0 <= i < 8 ==> 0 <= #[trigger] nibble(n, i) < 16,
        tensor_text(n).len() == 9,
        tensor_text(n)[0] == 't',
        forall|i: int| 0 <= i < 8 ==> tensor_text(n)[i + 1] == crate::kappa::hex_char(
            #[trigger] nibble(n, i),
        ),
{
    reveal_strlit("t");
    let b = be_bytes(n);
    assert(b[0] as int == n as int / 0x100_0000);
    assert(n == b[0] * 0x100_0000 + b[1] * 0x1_0000 + b[2] * 0x100 + b[3]);
    assert(nibble(n, 0) * 16 + nibble(n, 1) == b[0]);
    assert(nibble(n, 2) * 16 + nibble(n, 3) == b[1]);
    assert(nibble(n, 4) * 16 + nibble(n, 5) == b[2]);
    assert(nibble(n, 6) * 16 + nibble(n, 7) == b[3]);
    assert forall|i: int| 0 <= i < 8 implies tensor_text(n)[i + 1] == crate::kappa::hex_char(
        #[trigger] nibble(n, i),
    ) by {
        assert(tensor_text(n)[i + 1] == crate::kappa::hex(b)[i]);
    }
}

/// The order of tensor texts is the order of their numbers.
pub proof fn law_text_order_is_numeric_order(a: u32, b: u32)
    ensures
        text_before(tensor_text(a), tensor_text(b)) <==> a < b,
{
    lemma_nibbles(a);
    lemma_nibbles(b);
    let s = tensor_text(a);
    let t = tensor_text(b);
    if text_before(s, t) {
        let i = choose|i: int|
            0 <= i < s.len() && i < t.len() && #[trigger] s[i] < t[i] && (forall|k: int|
                0 <= k < i ==> s[k] == t[k]);
        assert(i > 0);
        assert forall|k: int| 0 <= k < i - 1 implies #[trigger] nibble(a, k) == nibble(b, k) by {
            assert(s[k + 1] == t[k + 1]);
        }
        assert(nibble(a, i - 1) < nibble(b, i - 1));
        lemma_first_nibble(a, b, i - 1);
    }
    if a < b {
        let i = first_difference(a, b, 0);
        lemma_first_difference(a, b, 0);
        if nibble(a, i) > nibble(b, i) {
            lemma_first_nibble(b, a, i);
        }
        assert(s[i + 1] < t[i + 1]);
        assert forall|k: int| 0 <= k < i + 1 implies s[k] == t[k] by {
            if k > 0 {
                assert(nibble(a, k - 1) == nibble(b, k - 1));
                assert(s[k - 1 + 1] == t[k - 1 + 1]);
            }
        }
    }
}

proof fn lemma_first_nibble(a: u32, b: u32, i: int)
    requires
        0 <= i < 8,
        nibble(a, i) < nibble(b, i),
        forall|k: int| 0 <= k < i ==> #[trigger] nibble(a, k) == nibble(b, k),
    ensures
        a < b,
{
    lemma_nibbles(a);
    lemma_nibbles(b);
    assert(nibble(a, 0) < 16 && nibble(a, 1) < 16 && nibble(a, 2) < 16 && nibble(a, 3) < 16
        && nibble(a, 4) < 16 && nibble(a, 5) < 16 && nibble(a, 6) < 16 && nibble(a, 7) < 16);
    assert(nibble(b, 0) >= 0 && nibble(b, 1) >= 0 && nibble(b, 2) >= 0 && nibble(b, 3) >= 0
        && nibble(b, 4) >= 0 && nibble(b, 5) >= 0 && nibble(b, 6) >= 0 && nibble(b, 7) >= 0);
    assert(i > 0 ==> nibble(a, 0) == nibble(b, 0));
    assert(i > 1 ==> nibble(a, 1) == nibble(b, 1));
    assert(i > 2 ==> nibble(a, 2) == nibble(b, 2));
    assert(i > 3 ==> nibble(a, 3) == nibble(b, 3));
    assert(i > 4 ==> nibble(a, 4) == nibble(b, 4));
    assert(i > 5 ==> nibble(a, 5) == nibble(b, 5));
    assert(i > 6 ==> nibble(a, 6) == nibble(b, 6));
    assert(i == 0 || i == 1 || i == 2 || i == 3 || i == 4 || i == 5 || i == 6 || i == 7);
}

spec fn first_difference(a: u32, b: u32, from: int) -> int
    decreases 8 - from,
{
    if from >= 7 || nibble(a, from) != nibble(b, from) {
        from
    } else {
        first_difference(a, b, from + 1)
    }
}

proof fn lemma_first_difference(a: u32, b: u32, from: int)
    requires
        0 <= from < 8,
        a != b,
        forall|k: int| 0 <= k < from ==> #[trigger] nibble(a, k) == nibble(b, k),
    ensures
        from <= first_difference(a, b, from) < 8,
        nibble(a, first_difference(a, b, from)) != nibble(b, first_difference(a, b, from)),
        forall|k: int|
            0 <= k < first_difference(a, b, from) ==> #[trigger] nibble(a, k) == nibble(b, k),
    decreases 8 - from,
{
    if nibble(a, from) == nibble(b, from) {
        if from == 7 {
            lemma_nibbles(a);
            lemma_nibbles(b);
            assert(nibble(a, 0) == nibble(b, 0) && nibble(a, 1) == nibble(b, 1) && nibble(a, 2)
                == nibble(b, 2) && nibble(a, 3) == nibble(b, 3) && nibble(a, 4) == nibble(b, 4)
                && nibble(a, 5) == nibble(b, 5) && nibble(a, 6) == nibble(b, 6));
        } else {
            lemma_first_difference(a, b, from + 1);
        }
    }
}

/// Distinct tensors have distinct texts.
pub proof fn law_tensor_texts_are_distinct(a: u32, b: u32)
    requires
        tensor_text(a) == tensor_text(b),
    ensures
        a == b,
{
    law_text_order_is_numeric_order(a, b);
    law_text_order_is_numeric_order(b, a);
}

/// A graph has one table of tensors: the table depends on nothing but which
/// tensors the graph mentions.
pub proof fn law_the_tensor_table_is_unique(graph: GraphModel, a: Seq<u32>, b: Seq<u32>)
    requires
        id_table(graph, a),
        id_table(graph, b),
    ensures
        a == b,
{
    assert forall|x: u32| a.contains(x) <==> b.contains(x) by {
        assert(a.contains(x) <==> mentions(graph, x));
        assert(b.contains(x) <==> mentions(graph, x));
    }
    lemma_ascending_unique(a, b);
}

proof fn lemma_ascending_unique(a: Seq<u32>, b: Seq<u32>)
    requires
        ascending(a),
        ascending(b),
        forall|x: u32| a.contains(x) <==> b.contains(x),
    ensures
        a == b,
    decreases a.len(),
{
    if a.len() == 0 {
        if b.len() > 0 {
            assert(b.contains(b[0]));
            assert(a.contains(b[0]));
        }
        assert(a =~= b);
    } else {
        assert(a.contains(a.last())) by {
            assert(a[a.len() - 1] == a.last());
        }
        assert(b.contains(a.last()));
        assert(b.contains(b.last())) by {
            assert(b[b.len() - 1] == b.last());
        }
        assert(a.contains(b.last()));
        let i = choose|i: int| 0 <= i < b.len() && b[i] == a.last();
        let j = choose|j: int| 0 <= j < a.len() && a[j] == b.last();
        assert(a.last() == b.last()) by {
            if i < b.len() - 1 {
                assert(b[i] < b[b.len() - 1]);
            }
            if j < a.len() - 1 {
                assert(a[j] < a[a.len() - 1]);
            }
        }
        let x = a.drop_last();
        let y = b.drop_last();
        assert forall|p: int, q: int| 0 <= p < q < x.len() implies #[trigger] x[p]
            < #[trigger] x[q] by {
            assert(a[p] < a[q]);
        }
        assert forall|p: int, q: int| 0 <= p < q < y.len() implies #[trigger] y[p]
            < #[trigger] y[q] by {
            assert(b[p] < b[q]);
        }
        assert forall|v: u32| x.contains(v) <==> y.contains(v) by {
            if x.contains(v) {
                let k = choose|k: int| 0 <= k < x.len() && x[k] == v;
                assert(a[k] == v);
                assert(a[k] < a[a.len() - 1]);
                assert(a.contains(v));
                let m = choose|m: int| 0 <= m < b.len() && b[m] == v;
                assert(m < b.len() - 1);
                assert(y[m] == v);
            }
            if y.contains(v) {
                let k = choose|k: int| 0 <= k < y.len() && y[k] == v;
                assert(b[k] == v);
                assert(b[k] < b[b.len() - 1]);
                assert(b.contains(v));
                let m = choose|m: int| 0 <= m < a.len() && a[m] == v;
                assert(m < a.len() - 1);
                assert(x[m] == v);
            }
        }
        lemma_ascending_unique(x, y);
        assert(a =~= x.push(a.last()));
        assert(b =~= y.push(b.last()));
    }
}

/// The weight bindings of a manifest stand in the order of their tensors.
pub proof fn law_weights_are_in_tensor_order(params: Seq<GraphParam>)
    requires
        weight_table(params) is Ok,
    ensures
        forall|i: int, j: int|
            0 <= i < j < weight_table(params)->Ok_0.len() ==> (#[trigger] weight_table(
                params,
            )->Ok_0[i]).id <= (#[trigger] weight_table(params)->Ok_0[j]).id,
        weight_table(params)->Ok_0.len() == params.len(),
    decreases params.len(),
{
    if params.len() > 0 {
        law_weights_are_in_tensor_order(params.drop_last());
        let front = weight_table(params.drop_last())->Ok_0;
        let w = WeightV {
            id: params.last().id,
            kappa: param_kappa(params.last().source)->Ok_0,
        };
        let p = place(front, w);
        lemma_place_bounds(front, w);
        let out = front.insert(p, w);
        assert forall|i: int, j: int| 0 <= i < j < out.len() implies (#[trigger] out[i]).id <= (
        #[trigger] out[j]).id by {
            let i0 = if i < p { i } else { i - 1 };
            let j0 = if j < p { j } else { j - 1 };
            if i == p {
                assert(out[j] == front[j0]);
            } else if j == p {
                assert(out[i] == front[i]);
                if i < p - 1 {
                    assert(front[i].id <= front[p - 1].id);
                }
            } else {
                assert(out[i] == front[i0] && out[j] == front[j0]);
            }
        }
    }
}

proof fn lemma_place_bounds(s: Seq<WeightV>, w: WeightV)
    ensures
        0 <= place(s, w) <= s.len(),
        forall|k: int| place(s, w) <= k < s.len() ==> w.id < (#[trigger] s[k]).id,
        place(s, w) > 0 ==> w.id >= s[place(s, w) - 1].id,
    decreases s.len(),
{
    if s.len() > 0 && w.id < s.last().id {
        lemma_place_bounds(s.drop_last(), w);
        assert forall|k: int| place(s, w) <= k < s.len() implies w.id < (#[trigger] s[k]).id by {
            if k < s.len() - 1 {
                assert(s.drop_last()[k] == s[k]);
            }
        }
    }
}

/// Whether a tensor occurs in a graph: as an input or an output of the graph or of one
/// of its nodes, or as a parameter.
pub open spec fn occurs(graph: GraphModel, id: u32) -> bool {
    ||| exists|i: int| 0 <= i < graph.inputs@.len() && #[trigger] graph.inputs@[i] == id
    ||| exists|i: int| 0 <= i < graph.outputs@.len() && #[trigger] graph.outputs@[i] == id
    ||| exists|n: int, i: int|
        0 <= n < graph.nodes@.len() && 0 <= i < graph.nodes@[n].inputs@.len()
            && #[trigger] graph.nodes@[n].inputs@[i] == id
    ||| exists|n: int, i: int|
        0 <= n < graph.nodes@.len() && 0 <= i < graph.nodes@[n].outputs@.len()
            && #[trigger] graph.nodes@[n].outputs@[i] == id
    ||| exists|i: int| 0 <= i < graph.params@.len() && (#[trigger] graph.params@[i]).id == id
}

/// Whether `b` is `a` with the upper-case ASCII letters in lower case.
pub open spec fn in_lower_case(a: Seq<char>, b: Seq<char>) -> bool {
    &&& a.len() == b.len()
    &&& forall|i: int|
        0 <= i < a.len() ==> if 65 <= #[trigger] a[i] as int <= 90 {
            b[i] as int == a[i] as int + 32
        } else {
            b[i] == a[i]
        }
}

proof fn lemma_lowered(s: Seq<char>)
    ensures
        in_lower_case(s, lowered(s)),
{
    assert forall|i: int| 0 <= i < s.len() implies if 65 <= #[trigger] s[i] as int <= 90 {
        lowered(s)[i] as int == s[i] as int + 32
    } else {
        lowered(s)[i] == s[i]
    } by {
        assert(lowered(s)[i] == lower(s[i]));
    }
}

proof fn lemma_occurs(graph: GraphModel, id: u32)
    ensures
        occurs(graph, id) <==> mentions(graph, id),
{
    if mentions(graph, id) {
        if exists|n: int|
            0 <= n < graph.nodes@.len() && (#[trigger] graph.nodes@[n]).inputs@.contains(id) {
            let n = choose|n: int|
                0 <= n < graph.nodes@.len() && (#[trigger] graph.nodes@[n]).inputs@.contains(id);
            let s = graph.nodes@[n].inputs@;
            let i = choose|i: int| 0 <= i < s.len() && s[i] == id;
            assert(graph.nodes@[n].inputs@[i] == id);
        }
        if exists|n: int|
            0 <= n < graph.nodes@.len() && (#[trigger] graph.nodes@[n]).outputs@.contains(id) {
            let n = choose|n: int|
                0 <= n < graph.nodes@.len() && (#[trigger] graph.nodes@[n]).outputs@.contains(id);
            let s = graph.nodes@[n].outputs@;
            let i = choose|i: int| 0 <= i < s.len() && s[i] == id;
            assert(graph.nodes@[n].outputs@[i] == id);
        }
    }
    if occurs(graph, id) {
        if exists|n: int, i: int|
            0 <= n < graph.nodes@.len() && 0 <= i < graph.nodes@[n].inputs@.len()
                && #[trigger] graph.nodes@[n].inputs@[i] == id {
            let (n, i) = choose|n: int, i: int|
                0 <= n < graph.nodes@.len() && 0 <= i < graph.nodes@[n].inputs@.len()
                    && #[trigger] graph.nodes@[n].inputs@[i] == id;
            assert(graph.nodes@[n].inputs@.contains(id));
        }
        if exists|n: int, i: int|
            0 <= n < graph.nodes@.len() && 0 <= i < graph.nodes@[n].outputs@.len()
                && #[trigger] graph.nodes@[n].outputs@[i] == id {
            let (n, i) = choose|n: int, i: int|
                0 <= n < graph.nodes@.len() && 0 <= i < graph.nodes@[n].outputs@.len()
                    && #[trigger] graph.nodes@[n].outputs@[i] == id;
            assert(graph.nodes@[n].outputs@.contains(id));
        }
    }
}

proof fn lemma_info_of(infos: Seq<GraphTensor>, id: u32, j: int)
    requires
        0 <= j < infos.len(),
        infos[j].id == id,
        forall|k: int| 0 <= k < j ==> (#[trigger] infos[k]).id != id,
    ensures
        info_of(infos, id) == Some(infos[j]),
    decreases infos.len(),
{
    if j > 0 {
        assert(infos[0].id != id);
        let rest = infos.skip(1);
        assert(rest[j - 1] == infos[j]);
        assert forall|k: int| 0 <= k < j - 1 implies (#[trigger] rest[k]).id != id by {
            assert(rest[k] == infos[k + 1]);
        }
        lemma_info_of(rest, id, j - 1);
    }
}

proof fn lemma_no_info_of(infos: Seq<GraphTensor>, id: u32)
    requires
        forall|k: int| 0 <= k < infos.len() ==> (#[trigger] infos[k]).id != id,
    ensures
        info_of(infos, id) == None::<GraphTensor>,
    decreases infos.len(),
{
    if infos.len() > 0 {
        let rest = infos.skip(1);
        assert forall|k: int| 0 <= k < rest.len() implies (#[trigger] rest[k]).id != id by {
            assert(rest[k] == infos[k + 1]);
        }
        lemma_no_info_of(rest, id);
    }
}

/// A manifest records of a tensor what the graph does: every tensor that occurs in the
/// graph and of which something is known has an entry with as many dimensions as are
/// recorded of it, each the recorded number, or 0 where it is still symbolic, and with
/// the recorded type in lower case.
pub proof fn law_a_known_tensor_is_recorded(
    m: Manifest,
    graph: GraphModel,
    component_id: Seq<char>,
    role: Seq<char>,
    provenance: PrismProvenance,
    j: int,
)
    requires
        is_manifest(m, graph, component_id, role, provenance),
        0 <= j < graph.tensor_info@.len(),
        occurs(graph, graph.tensor_info@[j].id),
        forall|k: int|
            0 <= k < j ==> (#[trigger] graph.tensor_info@[k]).id != graph.tensor_info@[j].id,
    ensures
        exists|k: int|
            {
                let known = graph.tensor_info@[j];
                &&& 0 <= k < m.tensors@.len()
                &&& (#[trigger] m.tensors@[k]).id@ == tensor_text(known.id)
                &&& in_lower_case(known.dtype@, m.tensors@[k].dtype@)
                &&& m.tensors@[k].shape@.len() == known.shape@.len()
                &&& forall|d: int|
                    0 <= d < known.shape@.len() ==> match #[trigger] known.shape@[d] {
                        Some(n) => m.tensors@[k].shape@[d] == n,
                        None => m.tensors@[k].shape@[d] == 0,
                    }
            },
{
    let infos = graph.tensor_info@;
    let known = infos[j];
    let id = known.id;
    lemma_occurs(graph, id);
    lemma_info_of(infos, id, j);
    lemma_lowered(known.dtype@);
    let ids = choose|ids: Seq<u32>| #[trigger]
        id_table(graph, ids) && tensor_views(m.tensors@) == ids.map_values(
            |id: u32| tensor_entry(infos, id),
        );
    assert(ids.contains(id));
    let k = choose|k: int| 0 <= k < ids.len() && ids[k] == id;
    assert(tensor_views(m.tensors@).len() == ids.len());
    assert(tensor_views(m.tensors@)[k] == tensor_entry(infos, id));
    assert(m.tensors@[k]@ == tensor_entry(infos, id));
    assert(m.tensors@[k].id@ == tensor_text(known.id));
}

/// A tensor that occurs in the graph and of which nothing is known has an entry of the
/// type `unknown` without dimensions.
pub proof fn law_an_unknown_tensor_is_recorded(
    m: Manifest,
    graph: GraphModel,
    component_id: Seq<char>,
    role: Seq<char>,
    provenance: PrismProvenance,
    id: u32,
)
    requires
        is_manifest(m, graph, component_id, role, provenance),
        occurs(graph, id),
        forall|k: int|
            0 <= k < graph.tensor_info@.len() ==> (#[trigger] graph.tensor_info@[k]).id != id,
    ensures
        exists|k: int|
            0 <= k < m.tensors@.len() && (#[trigger] m.tensors@[k]).id@ == tensor_text(id)
                && m.tensors@[k].dtype@ == "unknown"@ && m.tensors@[k].shape@.len() == 0,
{
    let infos = graph.tensor_info@;
    lemma_occurs(graph, id);
    lemma_no_info_of(infos, id);
    let ids = choose|ids: Seq<u32>| #[trigger]
        id_table(graph, ids) && tensor_views(m.tensors@) == ids.map_values(
            |id: u32| tensor_entry(infos, id),
        );
    assert(ids.contains(id));
    let k = choose|k: int| 0 <= k < ids.len() && ids[k] == id;
    assert(tensor_views(m.tensors@).len() == ids.len());
    assert(tensor_views(m.tensors@)[k] == tensor_entry(infos, id));
    assert(m.tensors@[k]@ == tensor_entry(infos, id));
    assert(m.tensors@[k].id@ == tensor_text(id));
}

/// Whether a text is that of a tensor that occurs in a graph.
pub open spec fn occurs_as(graph: GraphModel, text: Seq<char>) -> bool {
    exists|id: u32| text == #[trigger] tensor_text(id) && occurs(graph, id)
}

/// The tensors of a manifest are tensors that occur in the graph and no others, each
/// once, in the order of their texts.
pub proof fn law_the_tensors_occur_in_the_graph(
    m: Manifest,
    graph: GraphModel,
    component_id: Seq<char>,
    role: Seq<char>,
    provenance: PrismProvenance,
)
    requires
        is_manifest(m, graph, component_id, role, provenance),
    ensures
        forall|k: int|
            0 <= k < m.tensors@.len() ==> occurs_as(graph, (#[trigger] m.tensors@[k]).id@),
        forall|a: int, b: int|
            0 <= a < b < m.tensors@.len() ==> text_before(
                (#[trigger] m.tensors@[a]).id@,
                (#[trigger] m.tensors@[b]).id@,
            ),
{
    let infos = graph.tensor_info@;
    let ids = choose|ids: Seq<u32>| #[trigger]
        id_table(graph, ids) && tensor_views(m.tensors@) == ids.map_values(
            |id: u32| tensor_entry(infos, id),
        );
    assert(tensor_views(m.tensors@).len() == ids.len());
    assert forall|k: int| 0 <= k < m.tensors@.len() implies (#[trigger] m.tensors@[k]).id@
        == tensor_text(ids[k]) by {
        assert(tensor_views(m.tensors@)[k] == tensor_entry(infos, ids[k]));
        assert(m.tensors@[k]@ == tensor_entry(infos, ids[k]));
    }
    assert forall|k: int| 0 <= k < m.tensors@.len() implies occurs_as(
        graph,
        (#[trigger] m.tensors@[k]).id@,
    ) by {
        assert(ids.contains(ids[k]));
        lemma_occurs(graph, ids[k]);
        assert(m.tensors@[k].id@ == tensor_text(ids[k]));
    }
    assert forall|a: int, b: int| 0 <= a < b < m.tensors@.len() implies text_before(
        (#[trigger] m.tensors@[a]).id@,
        (#[trigger] m.tensors@[b]).id@,
    ) by {
        assert(ids[a] < ids[b]);
        law_text_order_is_numeric_order(ids[a], ids[b]);
    }
}

/// Whether a label is the one that a parameter is bound by: its own where it is
/// external, else the label of its bytes.
pub open spec fn binds(source: ParamSource, kappa: Seq<char>) -> bool {
    &&& source matches ParamSource::External { kappa: own } ==> kappa == own@
    &&& source matches ParamSource::Inline { data } ==> kappa == crate::kappa::kappa_label(data@)
    &&& source matches ParamSource::Mapped { content: Ok(bytes) } ==> kappa
        == crate::kappa::kappa_label(bytes@)
    &&& !(source matches ParamSource::Mapped { content: Err(reason) })
}

/// Whether each parameter is bound at its own place: its tensor stands there with its
/// label, and parameters of one tensor stand in their order.
pub open spec fn bound_at(weights: Seq<Weight>, params: Seq<GraphParam>, at: Seq<int>) -> bool {
    &&& at.len() == params.len()
    &&& forall|p: int|
        0 <= p < at.len() ==> 0 <= #[trigger] at[p] < weights.len() && weights[at[p]].tensor@
            == tensor_text(params[p].id) && binds(params[p].source, weights[at[p]].kappa@)
    &&& forall|p: int, q: int|
        0 <= p < q < at.len() ==> #[trigger] at[p] != #[trigger] at[q] && (params[p].id
            == params[q].id ==> at[p] < at[q])
}

/// Where the binding of each parameter stands in the table.
proof fn lemma_weight_places(params: Seq<GraphParam>) -> (at: Seq<int>)
    requires
        weight_table(params) is Ok,
    ensures
        weight_table(params)->Ok_0.len() == params.len(),
        at.len() == params.len(),
        forall|p: int|
            0 <= p < params.len() ==> 0 <= #[trigger] at[p] < params.len() && weight_table(
                params,
            )->Ok_0[at[p]].id == params[p].id && binds(
                params[p].source,
                weight_table(params)->Ok_0[at[p]].kappa,
            ),
        forall|p: int, q: int|
            0 <= p < q < params.len() ==> #[trigger] at[p] != #[trigger] at[q] && (params[p].id
                == params[q].id ==> at[p] < at[q]),
    decreases params.len(),
{
    if params.len() == 0 {
        Seq::empty()
    } else {
        let before = params.drop_last();
        let old_at = lemma_weight_places(before);
        let front = weight_table(before)->Ok_0;
        let w = WeightV { id: params.last().id, kappa: param_kappa(params.last().source)->Ok_0 };
        let s = place(front, w);
        lemma_place_bounds(front, w);
        let out = weight_table(params)->Ok_0;
        assert(out == front.insert(s, w));
        let moved = Seq::new(
            before.len(),
            |p: int|
                if old_at[p] < s {
                    old_at[p]
                } else {
                    old_at[p] + 1
                },
        );
        let at = moved.push(s);
        assert forall|p: int| 0 <= p < params.len() implies 0 <= #[trigger] at[p] < params.len()
            && out[at[p]].id == params[p].id && binds(params[p].source, out[at[p]].kappa) by {
            if p < before.len() {
                assert(before[p] == params[p]);
                assert(0 <= old_at[p] < before.len());
                assert(out[at[p]] == front[old_at[p]]);
            }
        }
        assert forall|p: int, q: int| 0 <= p < q < params.len() implies #[trigger] at[p]
            != #[trigger] at[q] && (params[p].id == params[q].id ==> at[p] < at[q]) by {
            assert(before[p] == params[p]);
            assert(0 <= old_at[p] < before.len());
            if q < before.len() {
                assert(before[q] == params[q]);
                assert(old_at[p] != old_at[q]);
            } else if params[p].id == params[q].id && old_at[p] >= s {
                assert(w.id < front[old_at[p]].id);
            }
        }
        at
    }
}

/// The weights of a manifest are the parameters of the graph, one for one: each
/// parameter has a place of its own among them, where its tensor stands beside its own
/// label if it is external and beside the label of its bytes if not; parameters of one
/// tensor keep their order.
pub proof fn law_every_parameter_is_bound(
    m: Manifest,
    graph: GraphModel,
    component_id: Seq<char>,
    role: Seq<char>,
    provenance: PrismProvenance,
)
    requires
        is_manifest(m, graph, component_id, role, provenance),
    ensures
        m.weights@.len() == graph.params@.len(),
        exists|at: Seq<int>| bound_at(m.weights@, graph.params@, at),
        forall|a: int, b: int|
            0 <= a < b < m.weights@.len() ==> (#[trigger] m.weights@[a]).tensor@ == (
            #[trigger] m.weights@[b]).tensor@ || text_before(
                m.weights@[a].tensor@,
                m.weights@[b].tensor@,
            ),
{
    let params = graph.params@;
    let table = weight_table(params)->Ok_0;
    let at = lemma_weight_places(params);
    law_weights_are_in_tensor_order(params);
    assert(bound_at(m.weights@, params, at));
    assert forall|a: int, b: int| 0 <= a < b < m.weights@.len() implies (
    #[trigger] m.weights@[a]).tensor@ == (#[trigger] m.weights@[b]).tensor@ || text_before(
        m.weights@[a].tensor@,
        m.weights@[b].tensor@,
    ) by {
        assert(table[a].id <= table[b].id);
        law_text_order_is_numeric_order(table[a].id, table[b].id);
    }
}

/// The parameters of a graph are bound exactly where all of them could be read; else the
/// first that could not is named, with its reason.
pub proof fn law_the_first_unreadable_parameter_is_named(params: Seq<GraphParam>)
    ensures
        match weight_table(params) {
            Ok(_) => forall|p: int|
                0 <= p < params.len() ==> !((#[trigger] params[p]).source matches ParamSource::Mapped {
                    content: Err(reason),
                }),
            Err(e) => exists|p: int|
                0 <= p < params.len() && ((#[trigger] params[p]).source matches ParamSource::Mapped {
                    content: Err(reason),
                } && e.reason == reason) && e.id == params[p].id && forall|k: int|
                    0 <= k < p ==> !((#[trigger] params[k]).source matches ParamSource::Mapped {
                        content: Err(reason),
                    }),
        },
    decreases params.len(),
{
    if params.len() > 0 {
        let before = params.drop_last();
        law_the_first_unreadable_parameter_is_named(before);
        assert forall|p: int| 0 <= p < before.len() implies #[trigger] before[p] == params[p] by {}
        match weight_table(before) {
            Ok(_) => {
                assert forall|p: int| 0 <= p < params.len() - 1 implies !((
                #[trigger] params[p]).source matches ParamSource::Mapped { content: Err(reason) }) by {
                    assert(before[p] == params[p]);
                }
                assert(params[params.len() - 1] == params.last());
            },
            Err(e) => {
                let p = choose|p: int|
                    0 <= p < before.len() && ((
                    #[trigger] before[p]).source matches ParamSource::Mapped {
                        content: Err(reason),
                    } && e.reason == reason) && e.id == before[p].id && forall|k: int|
                        0 <= k < p ==> !((#[trigger] before[k]).source matches ParamSource::Mapped {
                            content: Err(reason),
                        });
                assert(params[p] == before[p]);
                assert forall|k: int| 0 <= k < p implies !((
                #[trigger] params[k]).source matches ParamSource::Mapped { content: Err(reason) }) by {
                    assert(before[k] == params[k]);
                }
            },
        }
    }
}

/// The name of an operation is what its text begins with, up to the first bracket,
/// brace or space, in lower case.
pub proof fn law_an_operation_is_named_by_its_head(s: Seq<char>)
    ensures
        exists|n: int|
            {
                &&& 0 <= n <= s.len()
                &&& in_lower_case(#[trigger] s.take(n), op_name(s))
                &&& forall|k: int|
                    0 <= k < n ==> #[trigger] s[k] != '(' && s[k] != ' ' && s[k] != '{'
                &&& n < s.len() ==> s[n] == '(' || s[n] == ' ' || s[n] == '{'
            },
{
    lemma_op_length_bounds(s);
    let n = op_length(s);
    lemma_lowered(s.take(n));
    assert(in_lower_case(s.take(n), op_name(s)));
}

proof fn lemma_op_length_bounds(s: Seq<char>)
    ensures
        0 <= op_length(s) <= s.len(),
        forall|k: int| 0 <= k < op_length(s) ==> !ends_op(#[trigger] s[k]),
        op_length(s) < s.len() ==> ends_op(s[op_length(s)]),
    decreases s.len(),
{
    if s.len() > 0 && !ends_op(s[0]) {
        let rest = s.skip(1);
        lemma_op_length_bounds(rest);
        assert forall|k: int| 0 <= k < op_length(s) implies !ends_op(#[trigger] s[k]) by {
            if k > 0 {
                assert(rest[k - 1] == s[k]);
            }
        }
    }
}

/// The component of a manifest is the graph: its inputs, outputs and nodes stand in the
/// graph's order, every tensor by its text; it bears the given id, which its weights
/// bear too, and the given role.
pub proof fn law_the_component_is_the_graph(
    m: Manifest,
    graph: GraphModel,
    component_id: Seq<char>,
    role: Seq<char>,
    provenance: PrismProvenance,
)
    requires
        is_manifest(m, graph, component_id, role, provenance),
    ensures
        m.component.inputs@.len() == graph.inputs@.len(),
        forall|i: int|
            0 <= i < graph.inputs@.len() ==> (#[trigger] m.component.inputs@[i])@ == tensor_text(
                graph.inputs@[i],
            ),
        m.component.outputs@.len() == graph.outputs@.len(),
        forall|i: int|
            0 <= i < graph.outputs@.len() ==> (#[trigger] m.component.outputs@[i])@ == tensor_text(
                graph.outputs@[i],
            ),
        m.component.nodes@.len() == graph.nodes@.len(),
        forall|n: int|
            0 <= n < graph.nodes@.len() ==> ({
                let node = #[trigger] m.component.nodes@[n];
                let of = graph.nodes@[n];
                &&& node.op@ == op_name(of.op@)
                &&& node.inputs@.len() == of.inputs@.len()
                &&& node.outputs@.len() == of.outputs@.len()
                &&& forall|i: int|
                    0 <= i < of.inputs@.len() ==> (#[trigger] node.inputs@[i])@ == tensor_text(
                        of.inputs@[i],
                    )
                &&& forall|i: int|
                    0 <= i < of.outputs@.len() ==> (#[trigger] node.outputs@[i])@ == tensor_text(
                        of.outputs@[i],
                    )
            }),
        m.component.id@ == component_id,
        m.component.weight_group@ == component_id,
        m.component.role@ == role,
        m.provenance.config_kappa@ == provenance.config_kappa@,
        m.provenance.tensor_manifest_kappa@ == provenance.tensor_manifest_kappa@,
        m.provenance.source_kappas@ == provenance.source_kappas@,
        m.provenance.substrate_witnesses@ == provenance.substrate_witnesses@,
        "blake3:"@ + m.provenance.emitter_semantics_id@ == crate::kappa::kappa_label(
            vstd::utf8::encode_utf8(
                "hologram-ai/prism-emitter/1\nprism-archive rev 18d602ade7891dc79a51323caf33551138006e01\n"@,
            ),
        ),
{
    lemma_texts(m.component.inputs@, graph.inputs@);
    lemma_texts(m.component.outputs@, graph.outputs@);
    assert forall|n: int| 0 <= n < graph.nodes@.len() implies ({
        let node = #[trigger] m.component.nodes@[n];
        let of = graph.nodes@[n];
        &&& node.op@ == op_name(of.op@)
        &&& node.inputs@.len() == of.inputs@.len()
        &&& node.outputs@.len() == of.outputs@.len()
        &&& forall|i: int|
            0 <= i < of.inputs@.len() ==> (#[trigger] node.inputs@[i])@ == tensor_text(of.inputs@[i])
        &&& forall|i: int|
            0 <= i < of.outputs@.len() ==> (#[trigger] node.outputs@[i])@ == tensor_text(
                of.outputs@[i],
            )
    }) by {
        let node = m.component.nodes@[n];
        assert(node_matches(node, graph.nodes@[n]));
        lemma_texts(node.inputs@, graph.nodes@[n].inputs@);
        lemma_texts(node.outputs@, graph.nodes@[n].outputs@);
    }
}

proof fn lemma_texts(texts: Seq<String>, ids: Seq<u32>)
    requires
        string_views(texts) == tensor_texts(ids),
    ensures
        texts.len() == ids.len(),
        forall|i: int| 0 <= i < ids.len() ==> (#[trigger] texts[i])@ == tensor_text(ids[i]),
{
    let a = texts.map_values(|t: String| t@);
    let b = ids.map_values(|id: u32| tensor_text(id));
    assert(string_views(texts) == a);
    assert(tensor_texts(ids) == b);
    assert(a.len() == texts.len());
    assert(b.len() == ids.len());
    assert forall|i: int| 0 <= i < ids.len() implies (#[trigger] texts[i])@ == tensor_text(ids[i]) by {
        assert(a[i] == b[i]);
        assert(a[i] == texts[i]@);
        assert(b[i] == tensor_text(ids[i]));
    }
}

/// The text of a tensor is the letter `t` and the eight hex digits of its number, the
/// highest first.
pub proof fn law_a_tensor_text_spells_its_number(n: u32)
    ensures
        tensor_text(n).len() == 9,
        tensor_text(n)[0] == 't',
        ({
            let digits = "0123456789abcdef"@;
            &&& tensor_text(n)[1] == digits[n as int / 0x1000_0000]
            &&& tensor_text(n)[2] == digits[n as int / 0x100_0000 % 16]
            &&& tensor_text(n)[3] == digits[n as int / 0x10_0000 % 16]
            &&& tensor_text(n)[4] == digits[n as int / 0x1_0000 % 16]
            &&& tensor_text(n)[5] == digits[n as int / 0x1000 % 16]
            &&& tensor_text(n)[6] == digits[n as int / 0x100 % 16]
            &&& tensor_text(n)[7] == digits[n as int / 0x10 % 16]
            &&& tensor_text(n)[8] == digits[n as int % 16]
        }),
{
    lemma_nibbles(n);
    lemma_nibble_values(n);
    lemma_hex_alphabet();
    let t = tensor_text(n);
    assert(t[0int + 1] == crate::kappa::hex_char(nibble(n, 0)));
    assert(t[1int + 1] == crate::kappa::hex_char(nibble(n, 1)));
    assert(t[2int + 1] == crate::kappa::hex_char(nibble(n, 2)));
    assert(t[3int + 1] == crate::kappa::hex_char(nibble(n, 3)));
    assert(t[4int + 1] == crate::kappa::hex_char(nibble(n, 4)));
    assert(t[5int + 1] == crate::kappa::hex_char(nibble(n, 5)));
    assert(t[6int + 1] == crate::kappa::hex_char(nibble(n, 6)));
    assert(t[7int + 1] == crate::kappa::hex_char(nibble(n, 7)));
}

proof fn lemma_hex_alphabet()
    ensures
        forall|k: int|
            0 <= k < 16 ==> #[trigger] "0123456789abcdef"@[k] == crate::kappa::hex_char(k),
{
    reveal_strlit("0123456789abcdef");
}

proof fn lemma_nibble_values(n: u32)
    ensures
        nibble(n, 0) == n as int / 0x1000_0000,
        nibble(n, 1) == n as int / 0x100_0000 % 16,
        nibble(n, 2) == n as int / 0x10_0000 % 16,
        nibble(n, 3) == n as int / 0x1_0000 % 16,
        nibble(n, 4) == n as int / 0x1000 % 16,
        nibble(n, 5) == n as int / 0x100 % 16,
        nibble(n, 6) == n as int / 0x10 % 16,
        nibble(n, 7) == n as int % 16,
{
    let b = be_bytes(n);
    assert(b[0] as int == n as int / 0x100_0000);
    assert(b[1] as int == n as int / 0x1_0000 % 0x100);
    assert(b[2] as int == n as int / 0x100 % 0x100);
    assert(b[3] as int == n as int % 0x100);
    let x = n as int;
    lemma_nibble_pair(x / 0x100_0000);
    lemma_nibble_pair(x / 0x1_0000);
    lemma_nibble_pair(x / 0x100);
    lemma_nibble_pair(x);
    assert(x / 0x100_0000 / 16 == x / 0x1000_0000);
    assert(x / 0x1_0000 / 16 == x / 0x10_0000);
    assert(x / 0x100 / 16 == x / 0x1000);
    assert(x / 0x100_0000 % 0x100 == x / 0x100_0000);
}

proof fn lemma_nibble_pair(x: int)
    requires
        x >= 0,
    ensures
        x % 256 / 16 == x / 16 % 16,
        x % 256 % 16 == x % 16,
{
}

/// Tensors and texts are modelled by all that they hold, each at its own place.
pub proof fn law_tensors_and_texts_are_modelled_whole(tensors: Seq<Tensor>, texts: Seq<String>)
    ensures
        tensor_views(tensors).len() == tensors.len(),
        forall|i: int|
            0 <= i < tensors.len() ==> (#[trigger] tensor_views(tensors)[i]).dtype
                == tensors[i].dtype@ && tensor_views(tensors)[i].id == tensors[i].id@
                && tensor_views(tensors)[i].shape == tensors[i].shape@,
        string_views(texts).len() == texts.len(),
        forall|i: int| 0 <= i < texts.len() ==> #[trigger] string_views(texts)[i] == texts[i]@,
{
}

/// A concrete shape keeps every stated extent at its place and has zero where an extent
/// is not stated.
pub proof fn law_a_shape_keeps_its_extents(dims: &Vec<Option<u64>>, r: Vec<u64>)
    requires
        call_ensures(concrete_shape, (dims,), r),
    ensures
        r@.len() == dims@.len(),
        forall|i: int|
            0 <= i < dims@.len() ==> (#[trigger] dims@[i] matches Some(n) ==> r@[i] == n),
        forall|i: int| 0 <= i < dims@.len() && #[trigger] dims@[i] is None ==> r@[i] == 0,
{
}

} // verus!
