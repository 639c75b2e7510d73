//! The decisions of an inference runner: port sizes, and which key/value caches
//! stay resident from one decode walk to the next.
//!
//! The execution session itself is the caller's. A resident walk asks it to
//! release, intern, execute, retain and resolve; the functions here say what to
//! ask for, in which order, and what follows from its replies.

use crate::bytes::copy_bytes;
use crate::text::{chars_of, has_prefix, same_text, string_of};
use crate::textmap::TextMap;
use vstd::prelude::*;
use vstd::slice::slice_subrange;

verus! {

/// Shape and type of one graph port.
#[derive(Debug, Clone)]
pub struct PortInfo {
    /// The semantic name of the port, or nothing if it is unnamed.
    pub name: String,
    /// The backend's tag of the element type.
    pub dtype: u8,
    /// The number of elements.
    pub element_count: usize,
    /// The row-major shape, or nothing if the rank was not registered.
    pub shape: Vec<usize>,
}

/// The model of a [`PortInfo`].
#[verifier::ext_equal]
pub struct PortV {
    pub name: Seq<char>,
    pub dtype: u8,
    pub element_count: usize,
    pub shape: Seq<usize>,
}

impl View for PortInfo {
    type V = PortV;

    open spec fn view(&self) -> PortV {
        PortV {
            name: self.name@,
            dtype: self.dtype,
            element_count: self.element_count,
            shape: self.shape@,
        }
    }
}

impl PortInfo {
    /// A copy of the port.
    pub fn copy(&self) -> (r: PortInfo)
        ensures
            r@ == self@,
    {
        let mut shape: Vec<usize> = Vec::new();
        let mut i: usize = 0;
        while i < self.shape.len()
            invariant
                i <= self.shape@.len(),
                shape@ == self.shape@.take(i as int),
            decreases self.shape@.len() - i,
        {
            shape.push(self.shape[i]);
            proof {
                assert(shape@ =~= self.shape@.take(i + 1));
            }
            i += 1;
        }
        proof {
            assert(self.shape@.take(self.shape@.len() as int) =~= self.shape@);
        }
        PortInfo {
            name: self.name.clone(),
            dtype: self.dtype,
            element_count: self.element_count,
            shape,
        }
    }
}

/// The models of some ports.
pub open spec fn port_views(ports: Seq<PortInfo>) -> Seq<PortV> {
    ports.map_values(|p: PortInfo| p@)
}

/// The bytes of one element of a whole-byte type: 1 for bool, u8 and i8, 2 for
/// the half-width floats, 8 for u64, i64 and the double, 4 for the rest.
pub open spec fn element_width(tag: u8) -> nat {
    if tag <= 2 {
        1
    } else if tag == 6 || tag == 7 {
        2
    } else if tag == 3 || tag == 5 || tag == 9 {
        8
    } else {
        4
    }
}

/// The bytes of `count` elements: four-bit integers pack two to a byte.
pub open spec fn packed_size(count: nat, tag: u8) -> nat {
    if tag == 10 {
        (count + 1) / 2
    } else {
        count * element_width(tag)
    }
}

/// The bytes of one element of a whole-byte type.
pub fn dtype_byte_width(tag: u8) -> (w: usize)
    ensures
        w == element_width(tag),
{
    match tag {
        0 | 1 | 2 => 1,
        6 | 7 => 2,
        4 => 4,
        8 => 4,
        3 | 5 | 9 => 8,
        _ => 4,
    }
}

/// The bytes of a port of `element_count` elements.
pub fn port_byte_size(element_count: usize, tag: u8) -> (n: usize)
    requires
        packed_size(element_count as nat, tag) <= usize::MAX,
    ensures
        n == packed_size(element_count as nat, tag),
{
    if tag == 10 {
        element_count / 2 + element_count % 2
    } else {
        let w: usize = dtype_byte_width(tag);
        element_count * w
    }
}

/// Whether the size of every port fits the address space.
pub open spec fn sizes_fit(ports: Seq<PortV>) -> bool {
    forall|i: int|
        0 <= i < ports.len() ==> packed_size(
            (#[trigger] ports[i]).element_count as nat,
            ports[i].dtype,
        ) <= usize::MAX
}

/// Whether the size of every port fits the address space.
pub fn port_sizes_fit(ports: &Vec<PortInfo>) -> (r: bool)
    ensures
        r == sizes_fit(port_views(ports@)),
{
    let ghost views = port_views(ports@);
    let mut i: usize = 0;
    while i < ports.len()
        invariant
            i <= ports@.len(),
            views == port_views(ports@),
            forall|k: int|
                0 <= k < i ==> packed_size(
                    (#[trigger] views[k]).element_count as nat,
                    views[k].dtype,
                ) <= usize::MAX,
        decreases ports@.len() - i,
    {
        let p = &ports[i];
        proof {
            assert(views[i as int] == p@);
        }
        if p.dtype != 10 && p.element_count.checked_mul(dtype_byte_width(p.dtype)).is_none() {
            return false;
        }
        i += 1;
    }
    true
}

fn byte_sizes(ports: &Vec<PortInfo>) -> (sizes: Vec<usize>)
    requires
        sizes_fit(port_views(ports@)),
    ensures
        sizes@.len() == ports@.len(),
        forall|i: int|
            0 <= i < sizes@.len() ==> #[trigger] sizes@[i] == packed_size(
                ports@[i].element_count as nat,
                ports@[i].dtype,
            ),
{
    let mut sizes: Vec<usize> = Vec::new();
    let mut i: usize = 0;
    while i < ports.len()
        invariant
            i <= ports@.len(),
            sizes_fit(port_views(ports@)),
            sizes@.len() == i,
            forall|k: int|
                0 <= k < i ==> #[trigger] sizes@[k] == packed_size(
                    ports@[k].element_count as nat,
                    ports@[k].dtype,
                ),
        decreases ports@.len() - i,
    {
        proof {
            assert(port_views(ports@)[i as int] == ports@[i as int]@);
        }
        sizes.push(port_byte_size(ports[i].element_count, ports[i].dtype));
        i += 1;
    }
    sizes
}

/// Whether an input port takes a carried key/value cache.
pub open spec fn takes_cache(name: Seq<char>) -> bool {
    crate::text::starts_with(name, "past_k_"@) || crate::text::starts_with(name, "past_v_"@)
}

/// The input port that consumes an output cache in the next walk; nothing for
/// an output that is no cache.
pub open spec fn next_input(name: Seq<char>) -> Option<Seq<char>> {
    if crate::text::starts_with(name, "k_new_"@) {
        Some("past_k_"@ + name.skip(6))
    } else if crate::text::starts_with(name, "v_new_"@) {
        Some("past_v_"@ + name.skip(6))
    } else {
        None
    }
}

/// Where the value of an input port comes from.
pub enum Binding<L> {
    /// A retained label; its lease is released when it is bound.
    Carried(L),
    /// The supplied bytes of this index, to be interned.
    Fresh(usize),
}

/// The bindings of a walk, up to the first port that cannot be bound.
pub struct BindPlan<L> {
    pub bindings: Vec<Binding<L>>,
    /// The port for which no label is retained although the carry was declared
    /// current.
    pub missing: Option<String>,
}

/// The model of a [`BindPlan`].
#[verifier::ext_equal]
pub struct BindPlanV<L> {
    pub bindings: Seq<Binding<L>>,
    pub missing: Option<Seq<char>>,
}

impl<L> View for BindPlan<L> {
    type V = BindPlanV<L>;

    open spec fn view(&self) -> BindPlanV<L> {
        BindPlanV {
            bindings: self.bindings@,
            missing: match self.missing {
                Some(s) => Some(s@),
                None => None,
            },
        }
    }
}

/// How the input ports are bound: a cache port by its retained label where the
/// carry is current, every other port by its supplied bytes.
pub open spec fn bound<L>(ports: Seq<PortV>, retained: Map<Seq<char>, L>, carry: bool) -> BindPlanV<L>
    decreases ports.len(),
{
    if ports.len() == 0 {
        BindPlanV { bindings: Seq::empty(), missing: None }
    } else {
        let front = bound(ports.drop_last(), retained, carry);
        let name = ports.last().name;
        if front.missing is Some {
            front
        } else if carry && takes_cache(name) {
            if retained.dom().contains(name) {
                BindPlanV {
                    bindings: front.bindings.push(Binding::Carried(retained[name])),
                    missing: None,
                }
            } else {
                BindPlanV { bindings: front.bindings, missing: Some(name) }
            }
        } else {
            BindPlanV {
                bindings: front.bindings.push(Binding::Fresh((ports.len() - 1) as usize)),
                missing: None,
            }
        }
    }
}

/// What to do with an output label.
pub enum OutputStep {
    /// Retain it, for this input port of the next walk.
    Retain { next_in: String },
    /// Resolve it to bytes.
    Resolve,
}

/// The model of an [`OutputStep`].
pub enum OutputStepV {
    Retain { next_in: Seq<char> },
    Resolve,
}

impl View for OutputStep {
    type V = OutputStepV;

    open spec fn view(&self) -> OutputStepV {
        match self {
            OutputStep::Retain { next_in } => OutputStepV::Retain { next_in: next_in@ },
            OutputStep::Resolve => OutputStepV::Resolve,
        }
    }
}

/// What to do with the label of an output port.
pub open spec fn output_step(port: PortV) -> OutputStepV {
    match next_input(port.name) {
        Some(next_in) => OutputStepV::Retain { next_in },
        None => OutputStepV::Resolve,
    }
}

/// What the session replied to an [`OutputStep`].
pub enum OutputReply {
    /// Whether the label was resident and is now leased.
    Retained(bool),
    /// The bytes of the label, where it resolved.
    Resolved(Option<Vec<u8>>),
}

/// The model of an [`OutputReply`].
pub enum OutputReplyV {
    Retained(bool),
    Resolved(Option<Seq<u8>>),
}

impl View for OutputReply {
    type V = OutputReplyV;

    open spec fn view(&self) -> OutputReplyV {
        match self {
            OutputReply::Retained(b) => OutputReplyV::Retained(*b),
            OutputReply::Resolved(r) => OutputReplyV::Resolved(crate::bytes::bytes_view(*r)),
        }
    }
}

/// The models of some replies.
pub open spec fn reply_views(replies: Seq<OutputReply>) -> Seq<OutputReplyV> {
    replies.map_values(|r: OutputReply| r@)
}

/// Why a resident walk failed.
#[derive(Debug)]
pub enum WalkError {
    /// The number of supplied inputs is not the number of input ports.
    InputCount { supplied: usize, expected: usize },
    /// The number of output labels is not the number of output ports.
    OutputCount { produced: usize, expected: usize },
    /// An updated cache is not resident and cannot be carried.
    NotResident { port: String },
    /// An output did not resolve.
    Unresolved { port: String },
}

/// The model of a [`WalkError`].
pub enum WalkErrorV {
    InputCount { supplied: usize, expected: nat },
    OutputCount { produced: usize, expected: nat },
    NotResident { port: Seq<char> },
    Unresolved { port: Seq<char> },
}

impl View for WalkError {
    type V = WalkErrorV;

    open spec fn view(&self) -> WalkErrorV {
        match self {
            WalkError::InputCount { supplied, expected } => WalkErrorV::InputCount {
                supplied: *supplied,
                expected: *expected as nat,
            },
            WalkError::OutputCount { produced, expected } => WalkErrorV::OutputCount {
                produced: *produced,
                expected: *expected as nat,
            },
            WalkError::NotResident { port } => WalkErrorV::NotResident { port: port@ },
            WalkError::Unresolved { port } => WalkErrorV::Unresolved { port: port@ },
        }
    }
}

/// The caches carried to the next walk, the order in which their ports came up, and the
/// outputs of this walk, up to the first reply that failed.
#[verifier::ext_equal]
pub struct Settled<L> {
    pub carry: Map<Seq<char>, L>,
    pub order: Seq<Seq<char>>,
    pub outputs: Seq<Option<Seq<u8>>>,
    pub failure: Option<WalkErrorV>,
}

/// What the replies to the output steps come to: a retained cache is carried
/// under its next input port and gives no bytes, any other output gives its
/// bytes.
pub open spec fn settled<L>(
    ports: Seq<PortV>,
    labels: Seq<L>,
    replies: Seq<OutputReplyV>,
) -> Settled<L>
    decreases replies.len(),
{
    if replies.len() == 0 {
        Settled {
            carry: Map::empty(),
            order: Seq::empty(),
            outputs: Seq::empty(),
            failure: None,
        }
    } else {
        let front = settled(ports, labels, replies.drop_last());
        let i = replies.len() - 1;
        if front.failure is Some {
            front
        } else {
            match next_input(ports[i].name) {
                Some(next_in) => if replies.last() == OutputReplyV::Retained(true) {
                    Settled {
                        carry: front.carry.insert(next_in, labels[i]),
                        order: if front.carry.dom().contains(next_in) {
                            front.order
                        } else {
                            front.order.push(next_in)
                        },
                        outputs: front.outputs.push(None),
                        failure: None,
                    }
                } else {
                    Settled {
                        failure: Some(WalkErrorV::NotResident { port: ports[i].name }),
                        ..front
                    }
                },
                None => match replies.last() {
                    OutputReplyV::Resolved(Some(bytes)) => Settled {
                        outputs: front.outputs.push(Some(bytes)),
                        ..front
                    },
                    _ => Settled {
                        failure: Some(WalkErrorV::Unresolved { port: ports[i].name }),
                        ..front
                    },
                },
            }
        }
    }
}

/// The model of the outputs of a walk.
pub open spec fn output_views(outputs: Seq<Option<Vec<u8>>>) -> Seq<Option<Seq<u8>>> {
    outputs.map_values(|o: Option<Vec<u8>>| crate::bytes::bytes_view(o))
}

/// A loaded model: its ports, and the labels of the caches that its previous
/// resident walk left behind, under the input ports that consume them next.
pub struct HoloRunner<L> {
    inputs: Vec<PortInfo>,
    outputs: Vec<PortInfo>,
    kv_carry: TextMap<L>,
}

fn prefixed(prefix: &str, chars: &Vec<char>) -> (r: String)
    requires
        chars@.len() >= 6,
    ensures
        r@ == prefix@ + chars@.skip(6),
{
    let mut out = chars_of(prefix);
    let mut rest = vstd::slice::slice_to_vec(slice_subrange(chars.as_slice(), 6, chars.len()));
    proof {
        assert(rest@ =~= chars@.skip(6));
    }
    out.append(&mut rest);
    string_of(out.as_slice())
}

fn next_input_port(name: &str) -> (r: Option<String>)
    ensures
        match r {
            Some(s) => next_input(name@) == Some(s@),
            None => next_input(name@) == None::<Seq<char>>,
        },
{
    proof {
        reveal_strlit("k_new_");
        reveal_strlit("v_new_");
    }
    let chars = chars_of(name);
    if has_prefix(chars.as_slice(), "k_new_") {
        Some(prefixed("past_k_", &chars))
    } else if has_prefix(chars.as_slice(), "v_new_") {
        Some(prefixed("past_v_", &chars))
    } else {
        None
    }
}

fn copy_ports(ports: &Vec<PortInfo>) -> (r: Vec<PortInfo>)
    ensures
        port_views(r@) == port_views(ports@),
{
    let mut out: Vec<PortInfo> = Vec::new();
    let mut i: usize = 0;
    while i < ports.len()
        invariant
            i <= ports@.len(),
            port_views(out@) == port_views(ports@).take(i as int),
        decreases ports@.len() - i,
    {
        let p = ports[i].copy();
        let ghost before = port_views(out@);
        out.push(p);
        proof {
            assert(port_views(out@) =~= before.push(p@));
            assert(port_views(ports@).take(i + 1) =~= before.push(port_views(ports@)[i as int]));
        }
        i += 1;
    }
    proof {
        assert(port_views(ports@).take(ports@.len() as int) =~= port_views(ports@));
    }
    out
}

/// The index of the first port with a name.
pub open spec fn port_named(ports: Seq<PortV>, name: Seq<char>) -> Option<int>
    decreases ports.len(),
{
    if ports.len() == 0 {
        None
    } else {
        match port_named(ports.drop_last(), name) {
            Some(i) => Some(i),
            None => if ports.last().name == name {
                Some(ports.len() - 1)
            } else {
                None
            },
        }
    }
}

proof fn lemma_port_named(ports: Seq<PortV>, name: Seq<char>, i: int)
    requires
        0 <= i < ports.len(),
        ports[i].name == name,
        forall|k: int| 0 <= k < i ==> (#[trigger] ports[k]).name != name,
    ensures
        port_named(ports, name) == Some(i),
    decreases ports.len(),
{
    if i == ports.len() - 1 {
        lemma_no_port_named(ports.drop_last(), name);
    } else {
        assert forall|k: int| 0 <= k < i implies (#[trigger] ports.drop_last()[k]).name
            != name by {
            assert(ports.drop_last()[k] == ports[k]);
        }
        lemma_port_named(ports.drop_last(), name, i);
    }
}

proof fn lemma_no_port_named(ports: Seq<PortV>, name: Seq<char>)
    requires
        forall|k: int| 0 <= k < ports.len() ==> (#[trigger] ports[k]).name != name,
    ensures
        port_named(ports, name) == None::<int>,
    decreases ports.len(),
{
    if ports.len() > 0 {
        assert forall|k: int| 0 <= k < ports.drop_last().len() implies (
        #[trigger] ports.drop_last()[k]).name != name by {
            assert(ports.drop_last()[k] == ports[k]);
        }
        lemma_no_port_named(ports.drop_last(), name);
    }
}

fn index_by_name(ports: &Vec<PortInfo>, name: &str) -> (r: Option<usize>)
    ensures
        match r {
            Some(i) => port_named(port_views(ports@), name@) == Some(i as int),
            None => port_named(port_views(ports@), name@) == None::<int>,
        },
{
    let ghost views = port_views(ports@);
    let mut i: usize = 0;
    while i < ports.len()
        invariant
            i <= ports@.len(),
            views == port_views(ports@),
            forall|k: int| 0 <= k < i ==> (#[trigger] views[k]).name != name@,
        decreases ports@.len() - i,
    {
        proof {
            assert(views[i as int] == ports@[i as int]@);
        }
        if same_text(ports[i].name.as_str(), name) {
            proof {
                lemma_port_named(views, name@, i as int);
            }
            return Some(i);
        }
        i += 1;
    }
    proof {
        lemma_no_port_named(views, name@);
    }
    None
}

impl<L> HoloRunner<L> {
    /// The input ports.
    pub closed spec fn inputs(&self) -> Seq<PortV> {
        port_views(self.inputs@)
    }

    /// The output ports.
    pub closed spec fn outputs(&self) -> Seq<PortV> {
        port_views(self.outputs@)
    }

    /// The carried labels.
    pub closed spec fn carry(&self) -> Map<Seq<char>, L> {
        self.kv_carry@
    }

    /// The ports of the carried labels, in the order in which they were settled.
    pub closed spec fn carry_order(&self) -> Seq<Seq<char>> {
        self.kv_carry.order()
    }
}

impl<L: Copy> HoloRunner<L> {
    /// A runner over the ports of a loaded session, without a carry.
    pub fn new(inputs: Vec<PortInfo>, outputs: Vec<PortInfo>) -> (r: HoloRunner<L>)
        ensures
            r.inputs() == port_views(inputs@),
            r.outputs() == port_views(outputs@),
            r.carry() == Map::<Seq<char>, L>::empty(),
            r.carry_order() == Seq::<Seq<char>>::empty(),
    {
        HoloRunner { inputs, outputs, kv_carry: TextMap::new() }
    }

    /// The number of graph inputs.
    pub fn input_count(&self) -> (n: usize)
        ensures
            n == self.inputs().len(),
    {
        self.inputs.len()
    }

    /// The number of graph outputs.
    pub fn output_count(&self) -> (n: usize)
        ensures
            n == self.outputs().len(),
    {
        self.outputs.len()
    }

    /// The bytes of each graph input.
    pub fn input_byte_sizes(&self) -> (sizes: Vec<usize>)
        requires
            sizes_fit(self.inputs()),
        ensures
            sizes@.len() == self.inputs().len(),
            forall|i: int|
                0 <= i < sizes@.len() ==> #[trigger] sizes@[i] == packed_size(
                    self.inputs()[i].element_count as nat,
                    self.inputs()[i].dtype,
                ),
    {
        byte_sizes(&self.inputs)
    }

    /// The bytes of each graph output.
    pub fn output_byte_sizes(&self) -> (sizes: Vec<usize>)
        requires
            sizes_fit(self.outputs()),
        ensures
            sizes@.len() == self.outputs().len(),
            forall|i: int|
                0 <= i < sizes@.len() ==> #[trigger] sizes@[i] == packed_size(
                    self.outputs()[i].element_count as nat,
                    self.outputs()[i].dtype,
                ),
    {
        byte_sizes(&self.outputs)
    }

    /// The input ports.
    pub fn input_port_info(&self) -> (r: Vec<PortInfo>)
        ensures
            port_views(r@) == self.inputs(),
    {
        copy_ports(&self.inputs)
    }

    /// The output ports.
    pub fn output_port_info(&self) -> (r: Vec<PortInfo>)
        ensures
            port_views(r@) == self.outputs(),
    {
        copy_ports(&self.outputs)
    }

    /// The index of the first input port with a name.
    pub fn input_index_by_name(&self, name: &str) -> (r: Option<usize>)
        ensures
            match r {
                Some(i) => port_named(self.inputs(), name@) == Some(i as int),
                None => port_named(self.inputs(), name@) == None::<int>,
            },
    {
        index_by_name(&self.inputs, name)
    }

    /// The index of the first output port with a name.
    pub fn output_index_by_name(&self, name: &str) -> (r: Option<usize>)
        ensures
            match r {
                Some(i) => port_named(self.outputs(), name@) == Some(i as int),
                None => port_named(self.outputs(), name@) == None::<int>,
            },
    {
        index_by_name(&self.outputs, name)
    }

    /// Whether a previous walk left caches behind.
    pub fn has_kv_carry(&self) -> (r: bool)
        ensures
            r == (self.carry() != Map::<Seq<char>, L>::empty()),
    {
        !self.kv_carry.is_empty()
    }

    /// How a resident walk binds its inputs.
    ///
    /// The caller binds in order: a carried label is released as it is bound,
    /// fresh bytes are interned. A missing port fails the walk after what stands
    /// before it has been bound.
    pub fn bind_kv_resident(&self, supplied: usize, carry: bool) -> (r: Result<
        BindPlan<L>,
        WalkError,
    >)
        ensures
            match r {
                Ok(plan) => supplied == self.inputs().len() && plan@ == bound(
                    self.inputs(),
                    self.carry(),
                    carry,
                ),
                Err(e) => supplied != self.inputs().len() && e@ == (WalkErrorV::InputCount {
                    supplied,
                    expected: self.inputs().len(),
                }),
            },
    {
        if supplied != self.inputs.len() {
            return Err(WalkError::InputCount { supplied, expected: self.inputs.len() });
        }
        let ghost ports = self.inputs();
        let mut bindings: Vec<Binding<L>> = Vec::new();
        let mut i: usize = 0;
        proof {
            assert(ports.take(0) =~= Seq::empty());
        }
        while i < self.inputs.len()
            invariant
                i <= self.inputs@.len(),
                ports == self.inputs(),
                supplied == ports.len(),
                bound(ports.take(i as int), self.carry(), carry) == (BindPlanV {
                    bindings: bindings@,
                    missing: None,
                }),
            decreases self.inputs@.len() - i,
        {
            let port = &self.inputs[i];
            proof {
                assert(ports[i as int] == port@);
                assert(ports.take(i + 1).drop_last() =~= ports.take(i as int));
                assert(ports.take(i + 1).last() == port@);
            }
            let chars = chars_of(port.name.as_str());
            let is_kv: bool = has_prefix(chars.as_slice(), "past_k_") || has_prefix(
                chars.as_slice(),
                "past_v_",
            );
            if carry && is_kv {
                match self.kv_carry.get(port.name.as_str()) {
                    Some(label) => {
                        bindings.push(Binding::Carried(*label));
                    },
                    None => {
                        proof {
                            lemma_bound_stops(ports, self.carry(), carry, i + 1);
                        }
                        return Ok(BindPlan { bindings, missing: Some(port.name.clone()) });
                    },
                }
            } else {
                bindings.push(Binding::Fresh(i));
            }
            i += 1;
        }
        proof {
            assert(ports.take(ports.len() as int) =~= ports);
        }
        Ok(BindPlan { bindings, missing: None })
    }

    /// The labels whose leases a walk without a carry gives up: the supplied
    /// bytes are the truth, and every carried label is stale.
    pub fn drop_stale_carry(&mut self, carry: bool) -> (stale: Vec<L>)
        ensures
            final(self).inputs() == old(self).inputs(),
            final(self).outputs() == old(self).outputs(),
            crate::textmap::lists_keys(old(self).carry_order(), old(self).carry()),
            carry ==> stale@ == Seq::<L>::empty() && final(self).carry() == old(self).carry()
                && final(self).carry_order() == old(self).carry_order(),
            !carry ==> final(self).carry() == Map::<Seq<char>, L>::empty()
                && final(self).carry_order() == Seq::<Seq<char>>::empty() && stale@ == old(
                self,
            ).carry_order().map_values(|k: Seq<char>| old(self).carry()[k]),
    {
        let mut stale: Vec<L> = Vec::new();
        let count: usize = self.kv_carry.len();
        if carry {
            return stale;
        }
        let ghost order = self.carry_order();
        let ghost held = self.carry();
        let ghost all = order.map_values(|k: Seq<char>| held[k]);
        let mut i: usize = 0;
        while i < count
            invariant
                i <= count,
                count == order.len(),
                *self == *old(self),
                order == self.carry_order(),
                held == self.carry(),
                all == order.map_values(|k: Seq<char>| held[k]),
                stale@ == all.take(i as int),
            decreases order.len() - i,
        {
            stale.push(*self.kv_carry.value_at(i));
            proof {
                assert(stale@ =~= all.take(i + 1));
            }
            i += 1;
        }
        self.kv_carry = TextMap::new();
        proof {
            assert(all.take(all.len() as int) =~= all);
        }
        stale
    }

    /// What to do with the labels that a walk produced.
    pub fn plan_outputs(&self, produced: usize) -> (r: Result<Vec<OutputStep>, WalkError>)
        ensures
            match r {
                Ok(steps) => produced == self.outputs().len() && steps@.len() == produced
                    && forall|i: int|
                    0 <= i < produced ==> (#[trigger] steps@[i])@ == output_step(
                        self.outputs()[i],
                    ),
                Err(e) => produced != self.outputs().len() && e@ == (WalkErrorV::OutputCount {
                    produced,
                    expected: self.outputs().len(),
                }),
            },
    {
        if produced != self.outputs.len() {
            return Err(WalkError::OutputCount { produced, expected: self.outputs.len() });
        }
        let mut steps: Vec<OutputStep> = Vec::new();
        let mut i: usize = 0;
        while i < self.outputs.len()
            invariant
                i <= self.outputs@.len(),
                steps@.len() == i,
                forall|k: int|
                    0 <= k < i ==> (#[trigger] steps@[k])@ == output_step(self.outputs()[k]),
            decreases self.outputs@.len() - i,
        {
            proof {
                assert(self.outputs()[i as int] == self.outputs@[i as int]@);
            }
            match next_input_port(self.outputs[i].name.as_str()) {
                Some(next_in) => {
                    steps.push(OutputStep::Retain { next_in });
                },
                None => {
                    steps.push(OutputStep::Resolve);
                },
            }
            i += 1;
        }
        Ok(steps)
    }

    /// Settle a walk from the replies to its output steps, in the order of the
    /// output ports; the caller stops asking at the first reply that failed.
    ///
    /// On success the retained labels are the new carry. On a failure the carry
    /// stays as it was and is to be treated as broken.
    pub fn settle_kv_resident(&mut self, labels: &Vec<L>, replies: &Vec<OutputReply>) -> (r: Result<
        Vec<Option<Vec<u8>>>,
        WalkError,
    >)
        requires
            labels@.len() == old(self).outputs().len(),
            replies@.len() <= labels@.len(),
            settled(old(self).outputs(), labels@, reply_views(replies@)).failure is None
                ==> replies@.len() == labels@.len(),
        ensures
            final(self).inputs() == old(self).inputs(),
            final(self).outputs() == old(self).outputs(),
            ({
                let s = settled(old(self).outputs(), labels@, reply_views(replies@));
                match r {
                    Ok(outputs) => s.failure is None && output_views(outputs@) == s.outputs
                        && final(self).carry() == s.carry && final(self).carry_order() == s.order
                        && crate::textmap::lists_keys(s.order, s.carry),
                    Err(e) => s.failure == Some(e@) && final(self).carry() == old(self).carry()
                        && final(self).carry_order() == old(self).carry_order(),
                }
            }),
    {
        let ghost ports = self.outputs();
        let ghost views = reply_views(replies@);
        let mut carry: TextMap<L> = TextMap::new();
        let mut outputs: Vec<Option<Vec<u8>>> = Vec::new();
        let mut i: usize = 0;
        proof {
            assert(views.take(0) =~= Seq::empty());
            assert(output_views(outputs@) =~= Seq::empty());
        }
        while i < replies.len()
            invariant
                i <= replies@.len(),
                *self == *old(self),
                ports == self.outputs(),
                views == reply_views(replies@),
                labels@.len() == ports.len(),
                replies@.len() <= labels@.len(),
                settled(ports, labels@, views.take(i as int)) == (Settled {
                    carry: carry@,
                    order: carry.order(),
                    outputs: output_views(outputs@),
                    failure: None,
                }),
            decreases replies@.len() - i,
        {
            let reply = &replies[i];
            let name = self.outputs[i].name.as_str();
            let ghost before = output_views(outputs@);
            proof {
                assert(views[i as int] == reply@);
                assert(ports[i as int].name == name@);
                assert(views.take(i + 1).drop_last() =~= views.take(i as int));
                assert(views.take(i + 1).last() == reply@);
            }
            match next_input_port(name) {
                Some(next_in) => match reply {
                    OutputReply::Retained(true) => {
                        carry.insert(next_in, labels[i]);
                        outputs.push(None);
                        proof {
                            assert(output_views(outputs@) =~= before.push(None));
                        }
                    },
                    _ => {
                        proof {
                            lemma_settled_stops(ports, labels@, views, i + 1);
                        }
                        return Err(WalkError::NotResident { port: self.outputs[i].name.clone() });
                    },
                },
                None => match reply {
                    OutputReply::Resolved(Some(bytes)) => {
                        outputs.push(Some(copy_bytes(bytes.as_slice())));
                        proof {
                            assert(output_views(outputs@) =~= before.push(Some(bytes@)));
                        }
                    },
                    _ => {
                        proof {
                            lemma_settled_stops(ports, labels@, views, i + 1);
                        }
                        return Err(WalkError::Unresolved { port: self.outputs[i].name.clone() });
                    },
                },
            }
            i += 1;
        }
        proof {
            assert(views.take(views.len() as int) =~= views);
        }
        proof {
            lemma_settled_lists_its_keys(ports, labels@, views);
        }
        self.kv_carry = carry;
        Ok(outputs)
    }

    /// Give up the carry: the ports and labels to be resolved and released.
    /// Afterwards the caller's bytes are the truth.
    pub fn take_kv_carry(&mut self) -> (taken: Vec<(String, L)>)
        ensures
            final(self).inputs() == old(self).inputs(),
            final(self).outputs() == old(self).outputs(),
            final(self).carry() == Map::<Seq<char>, L>::empty(),
            final(self).carry_order() == Seq::<Seq<char>>::empty(),
            crate::textmap::lists_keys(old(self).carry_order(), old(self).carry()),
            taken@.len() == old(self).carry_order().len(),
            forall|i: int|
                0 <= i < taken@.len() ==> (#[trigger] taken@[i]).0@ == old(self).carry_order()[i]
                    && taken@[i].1 == old(self).carry()[taken@[i].0@],
    {
        let mut taken: Vec<(String, L)> = Vec::new();
        let ghost order = self.carry_order();
        let count: usize = self.kv_carry.len();
        let mut i: usize = 0;
        while i < count
            invariant
                i <= count,
                count == order.len(),
                *self == *old(self),
                order == self.carry_order(),
                taken@.len() == i,
                forall|k: int|
                    0 <= k < i ==> (#[trigger] taken@[k]).0@ == order[k] && taken@[k].1
                        == self.carry()[taken@[k].0@],
            decreases order.len() - i,
        {
            let name = crate::text::copy_str(self.kv_carry.key_at(i));
            let label: L = *self.kv_carry.value_at(i);
            taken.push((name, label));
            i += 1;
        }
        self.kv_carry = TextMap::new();
        taken
    }
}

proof fn lemma_bound_stops<L>(
    ports: Seq<PortV>,
    retained: Map<Seq<char>, L>,
    carry: bool,
    n: int,
)
    requires
        0 <= n <= ports.len(),
        bound(ports.take(n), retained, carry).missing is Some,
    ensures
        bound(ports, retained, carry) == bound(ports.take(n), retained, carry),
    decreases ports.len(),
{
    if n == ports.len() {
        assert(ports.take(n) =~= ports);
    } else {
        assert(ports.drop_last().take(n) =~= ports.take(n));
        lemma_bound_stops(ports.drop_last(), retained, carry, n);
    }
}

proof fn lemma_settled_stops<L>(
    ports: Seq<PortV>,
    labels: Seq<L>,
    replies: Seq<OutputReplyV>,
    n: int,
)
    requires
        0 <= n <= replies.len(),
        settled(ports, labels, replies.take(n)).failure is Some,
    ensures
        settled(ports, labels, replies) == settled(ports, labels, replies.take(n)),
    decreases replies.len(),
{
    if n == replies.len() {
        assert(replies.take(n) =~= replies);
    } else {
        assert(replies.drop_last().take(n) =~= replies.take(n));
        lemma_settled_stops(ports, labels, replies.drop_last(), n);
    }
}

proof fn lemma_settled_lists_its_keys<L>(
    ports: Seq<PortV>,
    labels: Seq<L>,
    replies: Seq<OutputReplyV>,
)
    ensures
        crate::textmap::lists_keys(
            settled(ports, labels, replies).order,
            settled(ports, labels, replies).carry,
        ),
    decreases replies.len(),
{
    if replies.len() > 0 {
        lemma_settled_lists_its_keys(ports, labels, replies.drop_last());
        let front = settled(ports, labels, replies.drop_last());
        let all = settled(ports, labels, replies);
        if all.order != front.order {
            let key = all.order.last();
            assert(all.order.drop_last() =~= front.order);
            assert forall|k: Seq<char>| #[trigger] all.carry.dom().contains(k)
                <==> all.order.contains(k) by {
                if all.order.contains(k) {
                    let i = choose|i: int| 0 <= i < all.order.len() && all.order[i] == k;
                    if i < front.order.len() {
                        assert(front.order[i] == k);
                        assert(front.order.contains(k));
                    }
                }
                if front.order.contains(k) {
                    let i = choose|i: int| 0 <= i < front.order.len() && front.order[i] == k;
                    assert(all.order[i] == k);
                }
                assert(all.order[all.order.len() - 1] == key);
            }
            assert forall|i: int, j: int|
                0 <= i < all.order.len() && 0 <= j < all.order.len() && i != j implies all.order[i]
                != all.order[j] by {
                if i < front.order.len() {
                    assert(front.order.contains(front.order[i]));
                }
                if j < front.order.len() {
                    assert(front.order.contains(front.order[j]));
                }
            }
        } else {
            assert forall|k: Seq<char>| #[trigger] all.carry.dom().contains(k)
                <==> all.order.contains(k) by {
                assert(all.carry.dom().contains(k) <==> front.carry.dom().contains(k));
            }
        }
    }
}

/// A walk without a carry binds every port to its supplied bytes.
pub proof fn law_without_a_carry_every_input_is_fresh<L>(
    ports: Seq<PortV>,
    retained: Map<Seq<char>, L>,
)
    requires
        ports.len() <= usize::MAX,
    ensures
        bound(ports, retained, false).missing is None,
        bound(ports, retained, false).bindings.len() == ports.len(),
        forall|i: int|
            0 <= i < ports.len() ==> #[trigger] bound(ports, retained, false).bindings[i]
                == Binding::<L>::Fresh(i as usize),
    decreases ports.len(),
{
    if ports.len() > 0 {
        law_without_a_carry_every_input_is_fresh(ports.drop_last(), retained);
    }
}

/// The port that consumes a cache takes caches.
pub proof fn law_the_next_input_takes_the_cache(name: Seq<char>)
    ensures
        next_input(name) matches Some(p) ==> takes_cache(p),
{
    if let Some(p) = next_input(name) {
        if crate::text::starts_with(name, "k_new_"@) {
            assert(p.take("past_k_"@.len() as int) =~= "past_k_"@);
        } else {
            assert(p.take("past_v_"@.len() as int) =~= "past_v_"@);
        }
    }
}

/// A settled walk carries a label under a port exactly when one of its outputs
/// was retained for that port.
pub proof fn law_settling_carries_exactly_the_caches<L>(
    ports: Seq<PortV>,
    labels: Seq<L>,
    replies: Seq<OutputReplyV>,
)
    requires
        replies.len() <= ports.len(),
        settled(ports, labels, replies).failure is None,
    ensures
        settled(ports, labels, replies).outputs.len() == replies.len(),
        forall|p: Seq<char>|
            #[trigger] settled(ports, labels, replies).carry.dom().contains(p) <==> exists|i: int|
                0 <= i < replies.len() && next_input((#[trigger] ports[i]).name) == Some(p),
    decreases replies.len(),
{
    if replies.len() > 0 {
        let n = replies.len() - 1;
        let front = settled(ports, labels, replies.drop_last());
        law_settling_carries_exactly_the_caches(ports, labels, replies.drop_last());
        let all = settled(ports, labels, replies);
        assert forall|p: Seq<char>| #[trigger] all.carry.dom().contains(p) <==> exists|i: int|
            0 <= i < replies.len() && next_input((#[trigger] ports[i]).name) == Some(p) by {
            if all.carry.dom().contains(p) {
                if front.carry.dom().contains(p) {
                    let i = choose|i: int|
                        0 <= i < n && next_input((#[trigger] ports[i]).name) == Some(p);
                    assert(next_input(ports[i].name) == Some(p));
                } else {
                    assert(next_input(ports[n].name) == Some(p));
                }
            }
            if exists|i: int|
                0 <= i < replies.len() && next_input((#[trigger] ports[i]).name) == Some(p) {
                let i = choose|i: int|
                    0 <= i < replies.len() && next_input((#[trigger] ports[i]).name) == Some(p);
                if i < n {
                    assert(front.carry.dom().contains(p));
                }
            }
        }
    }
}

/// What one walk retains, the next one binds: a cache that was settled under a
/// port, with no later output for the same port, is bound by its very label when
/// the carry is declared current.
pub proof fn law_a_settled_cache_is_bound_next<L>(
    ports: Seq<PortV>,
    labels: Seq<L>,
    replies: Seq<OutputReplyV>,
    i: int,
    p: Seq<char>,
)
    requires
        replies.len() <= ports.len(),
        settled(ports, labels, replies).failure is None,
        0 <= i < replies.len(),
        next_input(ports[i].name) == Some(p),
        forall|j: int| i < j < replies.len() ==> next_input((#[trigger] ports[j]).name) != Some(p),
    ensures
        settled(ports, labels, replies).carry.dom().contains(p),
        settled(ports, labels, replies).carry[p] == labels[i],
    decreases replies.len(),
{
    if i < replies.len() - 1 {
        law_a_settled_cache_is_bound_next(ports, labels, replies.drop_last(), i, p);
        let n = replies.len() - 1;
        assert(next_input(ports[n].name) != Some(p));
    }
}

/// Where every cache port has a retained label, a walk with the carry current
/// binds each of them to that label.
pub proof fn law_a_current_carry_binds_every_cache<L>(
    ports: Seq<PortV>,
    retained: Map<Seq<char>, L>,
)
    requires
        ports.len() <= usize::MAX,
        forall|i: int|
            0 <= i < ports.len() && takes_cache((#[trigger] ports[i]).name)
                ==> retained.dom().contains(ports[i].name),
    ensures
        bound(ports, retained, true).missing is None,
        bound(ports, retained, true).bindings.len() == ports.len(),
        forall|i: int|
            0 <= i < ports.len() ==> #[trigger] bound(ports, retained, true).bindings[i] == (
            if takes_cache(ports[i].name) {
                Binding::Carried(retained[ports[i].name])
            } else {
                Binding::Fresh(i as usize)
            }),
    decreases ports.len(),
{
    if ports.len() > 0 {
        let front = ports.drop_last();
        assert forall|i: int|
            0 <= i < front.len() && takes_cache((#[trigger] front[i]).name) implies retained.dom().contains(
        front[i].name) by {
            assert(front[i] == ports[i]);
        }
        law_a_current_carry_binds_every_cache(front, retained);
        assert(ports.last() == ports[ports.len() - 1]);
        let all = bound(ports, retained, true);
        assert forall|i: int| 0 <= i < ports.len() implies #[trigger] all.bindings[i] == (
        if takes_cache(ports[i].name) {
            Binding::Carried(retained[ports[i].name])
        } else {
            Binding::Fresh(i as usize)
        }) by {
            if i < front.len() {
                assert(front[i] == ports[i]);
                assert(all.bindings[i] == bound(front, retained, true).bindings[i]);
            }
        }
    }
}

proof fn lemma_next_input_is_injective(a: Seq<char>, b: Seq<char>)
    requires
        next_input(a) is Some,
        next_input(a) == next_input(b),
    ensures
        a == b,
{
    reveal_strlit("k_new_");
    reveal_strlit("v_new_");
    reveal_strlit("past_k_");
    reveal_strlit("past_v_");
    let p = next_input(a)->0;
    assert(p[5] == (if crate::text::starts_with(a, "k_new_"@) {
        'k'
    } else {
        'v'
    }));
    assert(p[5] == (if crate::text::starts_with(b, "k_new_"@) {
        'k'
    } else {
        'v'
    }));
    assert(a.skip(6) =~= p.skip(7));
    assert(b.skip(6) =~= p.skip(7));
    assert(a.take(6) == b.take(6));
    assert(a =~= a.take(6) + a.skip(6));
    assert(b =~= b.take(6) + b.skip(6));
}

/// What a settled walk carries is one label for each output that gives no bytes: the
/// label of that output, under the input that consumes it next. Where no two output
/// ports share a name, taking the carry hands out as many.
pub proof fn law_a_settled_walk_carries_each_cache_once<L>(
    ports: Seq<PortV>,
    labels: Seq<L>,
    replies: Seq<OutputReplyV>,
)
    requires
        replies.len() <= ports.len(),
        settled(ports, labels, replies).failure is None,
        forall|i: int, j: int|
            0 <= i < j < ports.len() ==> (#[trigger] ports[i]).name != (#[trigger] ports[j]).name,
    ensures
        ({
            let s = settled(ports, labels, replies);
            &&& s.outputs.len() == replies.len()
            &&& forall|i: int|
                0 <= i < replies.len() ==> ((#[trigger] s.outputs[i]) is None <==> next_input(
                    ports[i].name,
                ) is Some)
            &&& forall|i: int|
                0 <= i < replies.len() ==> (next_input((#[trigger] ports[i]).name) matches Some(p)
                    ==> s.carry.dom().contains(p) && s.carry[p] == labels[i])
            &&& crate::textmap::lists_keys(s.order, s.carry)
            &&& s.order.len() == s.outputs.filter(|o: Option<Seq<u8>>| o is None).len()
        }),
    decreases replies.len(),
{
    let none = |o: Option<Seq<u8>>| o is None;
    let s = settled(ports, labels, replies);
    lemma_settled_lists_its_keys(ports, labels, replies);
    reveal(Seq::filter);
    if replies.len() > 0 {
        let n = replies.len() - 1;
        let front = settled(ports, labels, replies.drop_last());
        law_a_settled_walk_carries_each_cache_once(ports, labels, replies.drop_last());
        law_settling_carries_exactly_the_caches(ports, labels, replies.drop_last());
        assert(s.outputs.drop_last() =~= front.outputs);
        assert forall|i: int| 0 <= i < n implies s.outputs[i] == #[trigger] front.outputs[i] by {}
        assert forall|i: int| 0 <= i < replies.len() implies ((#[trigger] s.outputs[i]) is None
            <==> next_input(ports[i].name) is Some) by {
            if i < n {
                assert(s.outputs[i] == front.outputs[i]);
            }
        }
        if let Some(p) = next_input(ports[n].name) {
            if front.carry.dom().contains(p) {
                let i = choose|i: int|
                    0 <= i < n && next_input((#[trigger] ports[i]).name) == Some(p);
                lemma_next_input_is_injective(ports[i].name, ports[n].name);
                assert(ports[i].name != ports[n].name);
            }
        }
    }
}

/// Once the carry is taken, a walk that declares it current fails at the first port
/// that takes a cache: what was taken is not bound again.
pub proof fn law_a_taken_carry_is_not_bound<L>(ports: Seq<PortV>, i: int)
    requires
        0 <= i < ports.len(),
        takes_cache(ports[i].name),
        forall|k: int| 0 <= k < i ==> !takes_cache((#[trigger] ports[k]).name),
    ensures
        bound(ports, Map::<Seq<char>, L>::empty(), true).missing == Some(ports[i].name),
        bound(ports, Map::<Seq<char>, L>::empty(), true).bindings.len() == i,
    decreases ports.len(),
{
    if i < ports.len() - 1 {
        assert forall|k: int| 0 <= k < i implies !takes_cache(
            (#[trigger] ports.drop_last()[k]).name,
        ) by {
            assert(ports.drop_last()[k] == ports[k]);
        }
        law_a_taken_carry_is_not_bound::<L>(ports.drop_last(), i);
    } else {
        lemma_no_cache_is_bound_fresh::<L>(ports.drop_last(), Map::empty());
    }
}

proof fn lemma_no_cache_is_bound_fresh<L>(ports: Seq<PortV>, retained: Map<Seq<char>, L>)
    requires
        forall|k: int| 0 <= k < ports.len() ==> !takes_cache((#[trigger] ports[k]).name),
    ensures
        bound(ports, retained, true).missing is None,
        bound(ports, retained, true).bindings.len() == ports.len(),
    decreases ports.len(),
{
    if ports.len() > 0 {
        assert forall|k: int| 0 <= k < ports.drop_last().len() implies !takes_cache(
            (#[trigger] ports.drop_last()[k]).name,
        ) by {
            assert(ports.drop_last()[k] == ports[k]);
        }
        lemma_no_cache_is_bound_fresh(ports.drop_last(), retained);
        assert(ports.last() == ports[ports.len() - 1]);
    }
}

/// Whether an output port hands on a key/value cache.
pub open spec fn hands_on_a_cache(name: Seq<char>) -> bool {
    name.len() >= 6 && (name.take(6) == "k_new_"@ || name.take(6) == "v_new_"@)
}

/// Whether a reply is what an output port of a name was asked for: a lease for a cache,
/// bytes for any other output.
pub open spec fn answers(name: Seq<char>, reply: OutputReplyV) -> bool {
    if hands_on_a_cache(name) {
        reply == OutputReplyV::Retained(true)
    } else {
        reply matches OutputReplyV::Resolved(Some(b))
    }
}

proof fn lemma_next_input_forms(name: Seq<char>)
    ensures
        next_input(name) is Some <==> hands_on_a_cache(name),
{
    reveal_strlit("k_new_");
    reveal_strlit("v_new_");
    if crate::text::starts_with(name, "k_new_"@) {
        assert(name.take(6) =~= "k_new_"@);
    }
    if crate::text::starts_with(name, "v_new_"@) {
        assert(name.take(6) =~= "v_new_"@);
    }
}

/// Every output of a settled walk is what the session replied for it: an output that is
/// no cache resolved, and its output is exactly the bytes that it resolved to; a cache
/// is leased and gives no bytes.
pub proof fn law_a_settled_output_is_its_reply<L>(
    ports: Seq<PortV>,
    labels: Seq<L>,
    replies: Seq<OutputReplyV>,
)
    requires
        settled(ports, labels, replies).failure is None,
    ensures
        settled(ports, labels, replies).outputs.len() == replies.len(),
        forall|i: int|
            0 <= i < replies.len() && !hands_on_a_cache((#[trigger] ports[i]).name) ==> (replies[i]
                matches OutputReplyV::Resolved(Some(b)) && settled(
                ports,
                labels,
                replies,
            ).outputs[i] == Some(b)),
        forall|i: int|
            0 <= i < replies.len() && hands_on_a_cache((#[trigger] ports[i]).name) ==> replies[i]
                == OutputReplyV::Retained(true) && settled(ports, labels, replies).outputs[i]
                == None::<Seq<u8>>,
    decreases replies.len(),
{
    if replies.len() > 0 {
        let front = replies.drop_last();
        law_a_settled_output_is_its_reply(ports, labels, front);
        let s = settled(ports, labels, replies);
        let last = replies.len() - 1;
        lemma_next_input_forms(ports[last].name);
        assert(s.outputs.drop_last() =~= settled(ports, labels, front).outputs);
        assert forall|i: int|
            0 <= i < replies.len() && !hands_on_a_cache((#[trigger] ports[i]).name) implies (
        replies[i] matches OutputReplyV::Resolved(Some(b)) && s.outputs[i] == Some(b)) by {
            if i < last {
                assert(front[i] == replies[i]);
                assert(s.outputs[i] == s.outputs.drop_last()[i]);
            }
        }
        assert forall|i: int|
            0 <= i < replies.len() && hands_on_a_cache((#[trigger] ports[i]).name) implies replies[i]
            == OutputReplyV::Retained(true) && s.outputs[i] == None::<Seq<u8>> by {
            if i < last {
                assert(front[i] == replies[i]);
                assert(s.outputs[i] == s.outputs.drop_last()[i]);
            }
        }
    }
}

/// A walk fails exactly where some reply is not what was asked for, and it names the
/// port of the first such reply: a cache that is not resident, or an output that did
/// not resolve.
pub proof fn law_a_walk_fails_at_its_first_bad_reply<L>(
    ports: Seq<PortV>,
    labels: Seq<L>,
    replies: Seq<OutputReplyV>,
)
    ensures
        settled(ports, labels, replies).failure is None <==> forall|i: int|
            0 <= i < replies.len() ==> answers((#[trigger] ports[i]).name, replies[i]),
        settled(ports, labels, replies).failure matches Some(e) ==> exists|i: int|
            {
                &&& 0 <= i < replies.len()
                &&& !answers((#[trigger] ports[i]).name, replies[i])
                &&& forall|k: int|
                    0 <= k < i ==> answers((#[trigger] ports[k]).name, replies[k])
                &&& e == if hands_on_a_cache(ports[i].name) {
                    WalkErrorV::NotResident { port: ports[i].name }
                } else {
                    WalkErrorV::Unresolved { port: ports[i].name }
                }
            },
    decreases replies.len(),
{
    if replies.len() > 0 {
        let front = replies.drop_last();
        let last = replies.len() - 1;
        law_a_walk_fails_at_its_first_bad_reply(ports, labels, front);
        lemma_next_input_forms(ports[last].name);
        let before = settled(ports, labels, front).failure;
        let now = settled(ports, labels, replies).failure;
        if let Some(e) = before {
            let i = choose|i: int|
                {
                    &&& 0 <= i < front.len()
                    &&& !answers((#[trigger] ports[i]).name, front[i])
                    &&& forall|k: int|
                        0 <= k < i ==> answers((#[trigger] ports[k]).name, front[k])
                    &&& e == if hands_on_a_cache(ports[i].name) {
                        WalkErrorV::NotResident { port: ports[i].name }
                    } else {
                        WalkErrorV::Unresolved { port: ports[i].name }
                    }
                };
            assert(front[i] == replies[i]);
            assert(!answers(ports[i].name, replies[i]));
            assert forall|k: int| 0 <= k < i implies answers(
                (#[trigger] ports[k]).name,
                replies[k],
            ) by {
                assert(front[k] == replies[k]);
            }
        } else {
            assert forall|k: int| 0 <= k < last implies answers(
                (#[trigger] ports[k]).name,
                replies[k],
            ) by {
                assert(front[k] == replies[k]);
            }
            assert(now is None <==> answers(ports[last].name, replies[last]));
        }
    }
}

/// The next input of a cache has the cache's name with the one prefix in place of the
/// other, keys for keys and values for values; an output of any other name has none.
pub proof fn law_the_next_input_keeps_the_layer(name: Seq<char>)
    ensures
        next_input("k_new_"@ + name) == Some("past_k_"@ + name),
        next_input("v_new_"@ + name) == Some("past_v_"@ + name),
        !hands_on_a_cache(name) ==> next_input(name) == None::<Seq<char>>,
{
    reveal_strlit("k_new_");
    reveal_strlit("v_new_");
    let k = "k_new_"@ + name;
    let v = "v_new_"@ + name;
    assert(k.take(6) =~= "k_new_"@);
    assert(v.take(6) =~= "v_new_"@);
    assert(k[0] == 'k' && v[0] == 'v');
    assert(k.skip(6) =~= name);
    assert(v.skip(6) =~= name);
    assert(k.subrange(0, 6) =~= "k_new_"@);
    assert(v.subrange(0, 6) =~= "v_new_"@);
    if crate::text::starts_with(v, "k_new_"@) {
        assert("k_new_"@[0] == v[0]);
    }
    lemma_next_input_forms(name);
}

/// The size of a port grows with its elements: whole-byte elements lie side by side, a
/// wider type taking a whole number of bytes for each, and four-bit ones lie two to a
/// byte with the last byte half full where their number is odd.
pub proof fn law_elements_are_packed(a: nat, b: nat, tag: u8)
    ensures
        packed_size(0, tag) == 0,
        tag != 10 ==> packed_size(a + b, tag) == packed_size(a, tag) + packed_size(b, tag),
        packed_size(2 * a, 10) == a,
        packed_size(2 * a + 1, 10) == a + 1,
        tag == 0 || tag == 1 || tag == 2 ==> packed_size(a, tag) == a,
        tag == 6 || tag == 7 ==> packed_size(a, tag) == 2 * a,
        tag == 4 || tag == 8 || tag > 10 ==> packed_size(a, tag) == 4 * a,
        tag == 3 || tag == 5 || tag == 9 ==> packed_size(a, tag) == 8 * a,
{
    let w = element_width(tag);
    assert((a + b) * w == a * w + b * w) by (nonlinear_arith);
    assert(a * w == w * a) by (nonlinear_arith);
}

/// The port of a name is the first that bears it; there is none exactly where no port
/// bears it.
pub proof fn law_the_first_port_of_a_name_is_found(ports: Seq<PortV>, name: Seq<char>)
    ensures
        match port_named(ports, name) {
            Some(i) => 0 <= i < ports.len() && ports[i].name == name && forall|k: int|
                0 <= k < i ==> (#[trigger] ports[k]).name != name,
            None => forall|k: int| 0 <= k < ports.len() ==> (#[trigger] ports[k]).name != name,
        },
    decreases ports.len(),
{
    if ports.len() > 0 {
        law_the_first_port_of_a_name_is_found(ports.drop_last(), name);
        assert forall|k: int| 0 <= k < ports.len() - 1 implies (#[trigger] ports[k])
            == ports.drop_last()[k] by {}
    }
}

/// Whether an input port takes a key/value cache over from the walk before.
pub open spec fn takes_over_a_cache(name: Seq<char>) -> bool {
    name.len() >= 7 && (name.take(7) == "past_k_"@ || name.take(7) == "past_v_"@)
}

/// Each bound input comes from its own place: under a current carry a cache port from
/// the label retained under its very name, every other port from the bytes supplied at
/// its index. Binding stops at the first cache port without a retained label, and names
/// it.
pub proof fn law_each_input_is_bound_by_its_own<L>(
    ports: Seq<PortV>,
    retained: Map<Seq<char>, L>,
    carry: bool,
)
    requires
        ports.len() <= usize::MAX,
    ensures
        bound(ports, retained, carry).bindings.len() <= ports.len(),
        forall|i: int|
            0 <= i < bound(ports, retained, carry).bindings.len() ==> ({
                let b = #[trigger] bound(ports, retained, carry).bindings[i];
                if carry && takes_over_a_cache(ports[i].name) {
                    retained.dom().contains(ports[i].name) && b == Binding::Carried(
                        retained[ports[i].name],
                    )
                } else {
                    b == Binding::<L>::Fresh(i as usize)
                }
            }),
        match bound(ports, retained, carry).missing {
            None => bound(ports, retained, carry).bindings.len() == ports.len(),
            Some(name) => {
                let i = bound(ports, retained, carry).bindings.len() as int;
                carry && i < ports.len() && ports[i].name == name && takes_over_a_cache(name)
                    && !retained.dom().contains(name)
            },
        },
    decreases ports.len(),
{
    if ports.len() > 0 {
        let front = ports.drop_last();
        law_each_input_is_bound_by_its_own(front, retained, carry);
        let before = bound(front, retained, carry);
        let now = bound(ports, retained, carry);
        let last = ports.len() - 1;
        reveal_strlit("past_k_");
        reveal_strlit("past_v_");
        let name = ports[last].name;
        if takes_cache(name) {
            assert(name.take(7) =~= name.subrange(0, 7));
            assert(takes_over_a_cache(name));
        }
        if takes_over_a_cache(name) {
            assert(name.take(7) =~= name.subrange(0, 7));
            assert(takes_cache(name));
        }
        assert forall|i: int| 0 <= i < now.bindings.len() implies ({
            let b = #[trigger] now.bindings[i];
            if carry && takes_over_a_cache(ports[i].name) {
                retained.dom().contains(ports[i].name) && b == Binding::Carried(
                    retained[ports[i].name],
                )
            } else {
                b == Binding::<L>::Fresh(i as usize)
            }
        }) by {
            if i < before.bindings.len() {
                assert(now.bindings[i] == before.bindings[i]);
                assert(front[i] == ports[i]);
            }
        }
        if before.missing is Some {
            let i = before.bindings.len() as int;
            assert(front[i] == ports[i]);
        }
    }
}

/// A cache is retained for the input that takes it over, keys for keys and values for
/// values, under the rest of its name; every other output is resolved.
pub proof fn law_what_is_asked_of_an_output(port: PortV)
    ensures
        match output_step(port) {
            OutputStepV::Retain { next_in } => hands_on_a_cache(port.name) && (port.name.take(6)
                == "k_new_"@ ==> next_in == "past_k_"@ + port.name.skip(6)) && (port.name.take(6)
                == "v_new_"@ ==> next_in == "past_v_"@ + port.name.skip(6)),
            OutputStepV::Resolve => !hands_on_a_cache(port.name),
        },
{
    lemma_next_input_forms(port.name);
    if hands_on_a_cache(port.name) {
        let rest = port.name.skip(6);
        assert(port.name.take(6) + rest =~= port.name);
        law_the_next_input_keeps_the_layer(rest);
    }
}

/// The carried caches stand in the order in which their outputs came up: of two inputs
/// that take over a cache, the one whose output came up first stands first.
pub proof fn law_carried_caches_stand_in_order<L>(
    ports: Seq<PortV>,
    labels: Seq<L>,
    replies: Seq<OutputReplyV>,
    i: int,
    j: int,
    x: Seq<char>,
    y: Seq<char>,
)
    requires
        settled(ports, labels, replies).failure is None,
        0 <= i < j < replies.len(),
        next_input(ports[i].name) == Some(x),
        next_input(ports[j].name) == Some(y),
        forall|k: int| 0 <= k < j ==> next_input((#[trigger] ports[k]).name) != Some(y),
    ensures
        exists|a: int, b: int|
            0 <= a < b < settled(ports, labels, replies).order.len() && #[trigger] settled(
                ports,
                labels,
                replies,
            ).order[a] == x && #[trigger] settled(ports, labels, replies).order[b] == y,
    decreases replies.len(),
{
    let front = replies.drop_last();
    let before = settled(ports, labels, front);
    let now = settled(ports, labels, replies);
    if j < replies.len() - 1 {
        law_carried_caches_stand_in_order(ports, labels, front, i, j, x, y);
        let (a, b) = choose|a: int, b: int|
            0 <= a < b < before.order.len() && #[trigger] before.order[a] == x
                && #[trigger] before.order[b] == y;
        assert(now.order[a] == x && now.order[b] == y);
    } else {
        lemma_settled_keys(ports, labels, front, x, i);
        lemma_settled_lists_its_keys(ports, labels, front);
        let a = choose|a: int| 0 <= a < before.order.len() && before.order[a] == x;
        assert(!before.carry.dom().contains(y)) by {
            if before.carry.dom().contains(y) {
                lemma_settled_key_source(ports, labels, front, y);
                let k = choose|k: int|
                    0 <= k < front.len() && next_input((#[trigger] ports[k]).name) == Some(y);
                assert(next_input(ports[k].name) != Some(y));
            }
        }
        let b = before.order.len() as int;
        assert(now.order[a] == x && now.order[b] == y);
    }
}

proof fn lemma_settled_keys<L>(
    ports: Seq<PortV>,
    labels: Seq<L>,
    replies: Seq<OutputReplyV>,
    x: Seq<char>,
    i: int,
)
    requires
        settled(ports, labels, replies).failure is None,
        0 <= i < replies.len(),
        next_input(ports[i].name) == Some(x),
    ensures
        settled(ports, labels, replies).carry.dom().contains(x),
    decreases replies.len(),
{
    if i < replies.len() - 1 {
        lemma_settled_keys(ports, labels, replies.drop_last(), x, i);
    }
}

proof fn lemma_settled_key_source<L>(
    ports: Seq<PortV>,
    labels: Seq<L>,
    replies: Seq<OutputReplyV>,
    y: Seq<char>,
)
    requires
        settled(ports, labels, replies).carry.dom().contains(y),
    ensures
        exists|k: int| 0 <= k < replies.len() && next_input((#[trigger] ports[k]).name) == Some(y),
    decreases replies.len(),
{
    if replies.len() > 0 {
        let front = replies.drop_last();
        if settled(ports, labels, front).carry.dom().contains(y) {
            lemma_settled_key_source(ports, labels, front, y);
            let k = choose|k: int|
                0 <= k < front.len() && next_input((#[trigger] ports[k]).name) == Some(y);
            assert(next_input(ports[k].name) == Some(y));
        } else {
            assert(next_input(ports[replies.len() - 1].name) == Some(y));
        }
    }
}

/// A port is modelled by all that it holds, at its own place among others, and so is
/// what the session replies and what a walk gives out.
pub proof fn law_ports_and_replies_are_modelled_whole(
    ports: Seq<PortInfo>,
    replies: Seq<OutputReply>,
    outputs: Seq<Option<Vec<u8>>>,
)
    ensures
        port_views(ports).len() == ports.len(),
        forall|i: int|
            0 <= i < ports.len() ==> (#[trigger] port_views(ports)[i]).name == ports[i].name@
                && port_views(ports)[i].dtype == ports[i].dtype && port_views(
                ports,
            )[i].element_count == ports[i].element_count && port_views(ports)[i].shape
                == ports[i].shape@,
        reply_views(replies).len() == replies.len(),
        forall|i: int|
            0 <= i < replies.len() ==> match #[trigger] replies[i] {
                OutputReply::Retained(b) => reply_views(replies)[i] == OutputReplyV::Retained(b),
                OutputReply::Resolved(Some(v)) => reply_views(replies)[i]
                    == OutputReplyV::Resolved(Some(v@)),
                OutputReply::Resolved(None) => reply_views(replies)[i] == OutputReplyV::Resolved(
                    None,
                ),
            },
        output_views(outputs).len() == outputs.len(),
        forall|i: int|
            0 <= i < outputs.len() ==> match #[trigger] outputs[i] {
                Some(v) => output_views(outputs)[i] == Some(v@),
                None => output_views(outputs)[i] == None::<Seq<u8>>,
            },
{
}

/// What stops a walk is modelled by all that it states.
pub proof fn law_walk_errors_are_modelled_whole(e: WalkError)
    ensures
        match e {
            WalkError::InputCount { supplied, expected } => e@ matches WalkErrorV::InputCount {
                supplied: s,
                expected: x,
            } && s == supplied && x == expected,
            WalkError::OutputCount { produced, expected } => e@ matches WalkErrorV::OutputCount {
                produced: p,
                expected: x,
            } && p == produced && x == expected,
            WalkError::NotResident { port } => e@ == (WalkErrorV::NotResident { port: port@ }),
            WalkError::Unresolved { port } => e@ == (WalkErrorV::Unresolved { port: port@ }),
        },
{
}

/// The size that is reported for a port is that of the port at its place, and so is the
/// step for an output; a name is found at the first port that bears it.
pub proof fn law_ports_are_reported_at_their_places<L: Copy>(
    r: &HoloRunner<L>,
    in_sizes: Vec<usize>,
    out_sizes: Vec<usize>,
    produced: usize,
    steps: Vec<OutputStep>,
    name: &str,
    at: Option<usize>,
)
    ensures
        call_ensures(HoloRunner::<L>::input_byte_sizes, (r,), in_sizes) ==> in_sizes@.len()
            == r.inputs().len() && forall|i: int|
            0 <= i < r.inputs().len() ==> #[trigger] in_sizes@[i] == packed_size(
                r.inputs()[i].element_count as nat,
                r.inputs()[i].dtype,
            ),
        call_ensures(HoloRunner::<L>::output_byte_sizes, (r,), out_sizes) ==> out_sizes@.len()
            == r.outputs().len() && forall|i: int|
            0 <= i < r.outputs().len() ==> #[trigger] out_sizes@[i] == packed_size(
                r.outputs()[i].element_count as nat,
                r.outputs()[i].dtype,
            ),
        call_ensures(HoloRunner::<L>::plan_outputs, (r, produced), Ok(steps)) ==> steps@.len()
            == r.outputs().len() && forall|i: int|
            0 <= i < r.outputs().len() ==> (#[trigger] steps@[i])@ == output_step(r.outputs()[i]),
        call_ensures(HoloRunner::<L>::input_index_by_name, (r, name), at) ==> match at {
            Some(i) => i < r.inputs().len() && r.inputs()[i as int].name == name@ && forall|k: int|
                0 <= k < i ==> (#[trigger] r.inputs()[k]).name != name@,
            None => forall|k: int|
                0 <= k < r.inputs().len() ==> (#[trigger] r.inputs()[k]).name != name@,
        },
        call_ensures(HoloRunner::<L>::output_index_by_name, (r, name), at) ==> match at {
            Some(i) => i < r.outputs().len() && r.outputs()[i as int].name == name@ && forall|
                k: int,
            |
                0 <= k < i ==> (#[trigger] r.outputs()[k]).name != name@,
            None => forall|k: int|
                0 <= k < r.outputs().len() ==> (#[trigger] r.outputs()[k]).name != name@,
        },
{
    law_the_first_port_of_a_name_is_found(r.inputs(), name@);
    law_the_first_port_of_a_name_is_found(r.outputs(), name@);
}

/// A walk that settles gives out, for every output that is no cache, the very bytes that
/// the session resolved, and nothing for a cache.
pub proof fn law_a_walk_gives_out_what_was_resolved<L: Copy>(
    runner: &mut HoloRunner<L>,
    labels: &Vec<L>,
    replies: &Vec<OutputReply>,
    outputs: Vec<Option<Vec<u8>>>,
)
    requires
        call_ensures(
            HoloRunner::<L>::settle_kv_resident,
            (runner, labels, replies),
            Ok(outputs),
        ),
    ensures
        outputs@.len() == replies@.len(),
        forall|i: int|
            0 <= i < replies@.len() ==> match #[trigger] replies@[i] {
                OutputReply::Resolved(Some(b)) => outputs@[i] matches Some(o) && o@ == b@,
                OutputReply::Resolved(None) => false,
                OutputReply::Retained(leased) => leased && outputs@[i] is None,
            },
{
    let ports = runner.outputs();
    let views = reply_views(replies@);
    law_a_settled_output_is_its_reply(ports, labels@, views);
    assert(output_views(outputs@).len() == outputs@.len());
    assert forall|i: int| 0 <= i < replies@.len() implies match #[trigger] replies@[i] {
        OutputReply::Resolved(Some(b)) => outputs@[i] matches Some(o) && o@ == b@,
        OutputReply::Resolved(None) => false,
        OutputReply::Retained(leased) => leased && outputs@[i] is None,
    } by {
        assert(views[i] == replies@[i]@);
        let out = crate::bytes::bytes_view(outputs@[i]);
        assert(output_views(outputs@)[i] == out);
        if hands_on_a_cache(ports[i].name) {
            assert(replies@[i]@ == OutputReplyV::Retained(true) && out == None::<Seq<u8>>);
        } else {
            assert(replies@[i]@ matches OutputReplyV::Resolved(Some(b)) && out == Some(b));
        }
    }
}

/// Taking the carry hands every carried label out under its port, each port once, and
/// leaves none behind; the ports stay as they are.
pub proof fn law_a_taken_carry_is_handed_out_whole<L: Copy>(
    runner: &mut HoloRunner<L>,
    taken: Vec<(String, L)>,
    port: Seq<char>,
)
    requires
        call_ensures(HoloRunner::<L>::take_kv_carry, (runner,), taken),
        runner.carry().dom().contains(port),
    ensures
        exists|i: int|
            0 <= i < taken@.len() && (#[trigger] taken@[i]).0@ == port && taken@[i].1
                == old(runner).carry()[port],
        forall|i: int, j: int|
            0 <= i < j < taken@.len() ==> (#[trigger] taken@[i]).0@ != (#[trigger] taken@[j]).0@,
        forall|i: int|
            0 <= i < taken@.len() ==> old(runner).carry().dom().contains((#[trigger] taken@[i]).0@),
        final(runner).carry().dom() == Set::<Seq<char>>::empty(),
        final(runner).inputs() == old(runner).inputs(),
        final(runner).outputs() == old(runner).outputs(),
{
    let order = runner.carry_order();
    assert(order.contains(port));
    let k = choose|k: int| 0 <= k < order.len() && order[k] == port;
    assert(taken@[k].0@ == port);
    assert forall|i: int| 0 <= i < taken@.len() implies runner.carry().dom().contains(
        (#[trigger] taken@[i]).0@,
    ) by {
        assert(order.contains(order[i]));
    }
}

} // verus!
