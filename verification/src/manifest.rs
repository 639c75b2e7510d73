//! Streamed tensor manifests: the rows a client sends ahead of any weight byte,
//! and the binding of those rows to the tensors of a graph.

use crate::text::{copy_str, same_text};
use vstd::prelude::*;

verus! {

/// The element type of a weight.
#[derive(Debug, Clone, Copy, PartialEq, Eq, Structural)]
pub enum DType {
    F32,
    F16,
    BF16,
    F64,
    Int64,
    Int32,
    Int8,
    U8,
    Bool,
}

/// The element type a tag of the tensor file format names.
pub open spec fn dtype_of(tag: Seq<char>) -> Option<DType> {
    if tag == "F32"@ {
        Some(DType::F32)
    } else if tag == "F16"@ {
        Some(DType::F16)
    } else if tag == "BF16"@ {
        Some(DType::BF16)
    } else if tag == "F64"@ {
        Some(DType::F64)
    } else if tag == "I64"@ || tag == "INT64"@ {
        Some(DType::Int64)
    } else if tag == "I32"@ || tag == "INT32"@ {
        Some(DType::Int32)
    } else if tag == "I8"@ || tag == "INT8"@ {
        Some(DType::Int8)
    } else if tag == "U8"@ {
        Some(DType::U8)
    } else if tag == "BOOL"@ {
        Some(DType::Bool)
    } else {
        None
    }
}

/// Read an element type; nothing for a tag that is not mapped.
pub fn parse_dtype(tag: &str) -> (r: Option<DType>)
    ensures
        r == dtype_of(tag@),
{
    if same_text(tag, "F32") {
        Some(DType::F32)
    } else if same_text(tag, "F16") {
        Some(DType::F16)
    } else if same_text(tag, "BF16") {
        Some(DType::BF16)
    } else if same_text(tag, "F64") {
        Some(DType::F64)
    } else if same_text(tag, "I64") || same_text(tag, "INT64") {
        Some(DType::Int64)
    } else if same_text(tag, "I32") || same_text(tag, "INT32") {
        Some(DType::Int32)
    } else if same_text(tag, "I8") || same_text(tag, "INT8") {
        Some(DType::Int8)
    } else if same_text(tag, "U8") {
        Some(DType::U8)
    } else if same_text(tag, "BOOL") {
        Some(DType::Bool)
    } else {
        None
    }
}

/// The element types a quantized artifact can be derived from: the three wide
/// float tiers.
pub open spec fn derivable(tag: Seq<char>) -> Option<DType> {
    match dtype_of(tag) {
        Some(DType::F32) => Some(DType::F32),
        Some(DType::F16) => Some(DType::F16),
        Some(DType::BF16) => Some(DType::BF16),
        _ => None,
    }
}

/// Read the element type of a weight that is to be quantized; nothing where the
/// derivation is not defined.
pub fn derivation_dtype(tag: &str) -> (r: Option<DType>)
    ensures
        r == derivable(tag@),
{
    match parse_dtype(tag) {
        Some(DType::F32) => Some(DType::F32),
        Some(DType::F16) => Some(DType::F16),
        Some(DType::BF16) => Some(DType::BF16),
        _ => None,
    }
}

/// A name for the numbers a JSON text lists, where it is an array of unsigned
/// integers that fit 64 bits, as `serde_json::from_str` reads a `Vec<u64>`.
pub uninterp spec fn parsed_shape(text: Seq<char>) -> Option<Seq<u64>>;

/// Calls `serde_json::from_str` for a `Vec<u64>`. The contract claims only that
/// the result, and whether there is one, depends on the text alone.
#[verifier::external_body]
fn read_shape(text: &str) -> (r: Result<Vec<u64>, serde_json::Error>)
    ensures
        match r {
            Ok(shape) => parsed_shape(text@) == Some(shape@),
            Err(_) => parsed_shape(text@) == None::<Seq<u64>>,
        },
{
    serde_json::from_str(text)
}

/// One row as the client sent it. A field that is no string is absent.
#[derive(Debug, Clone, PartialEq, Eq)]
pub struct RawRow {
    pub key: Option<String>,
    pub shape: Option<String>,
    pub dtype: Option<String>,
}

/// A row that was read.
#[derive(Debug, Clone, PartialEq, Eq)]
pub struct ManifestRow {
    pub key: String,
    pub shape: Vec<u64>,
    pub dtype: DType,
}

/// Why a manifest was refused.
#[derive(Debug, Clone, PartialEq, Eq)]
pub enum ManifestError {
    /// The key of the row with this index is no string.
    Key(usize),
    /// The shape of this tensor is no string.
    Shape(String),
    /// The element type of this tensor is no string.
    DTypeText(String),
    /// The shape of this tensor does not parse.
    ShapeParse(String),
    /// This tensor has an element type that is not mapped.
    Unsupported { key: String, dtype: String },
    /// The κ of this tensor is no string.
    Kappa(String),
    /// A stage must hold at least one layer.
    NoLayers,
}

/// The model of a row.
#[verifier::ext_equal]
pub struct RowV {
    pub key: Seq<char>,
    pub shape: Seq<u64>,
    pub dtype: DType,
}

impl View for ManifestRow {
    type V = RowV;

    open spec fn view(&self) -> RowV {
        RowV { key: self.key@, shape: self.shape@, dtype: self.dtype }
    }
}

/// The model of a refusal.
#[verifier::ext_equal]
pub enum ManifestErrorV {
    Key(nat),
    Shape(Seq<char>),
    DTypeText(Seq<char>),
    ShapeParse(Seq<char>),
    Unsupported { key: Seq<char>, dtype: Seq<char> },
    Kappa(Seq<char>),
    NoLayers,
}

impl View for ManifestError {
    type V = ManifestErrorV;

    open spec fn view(&self) -> ManifestErrorV {
        match *self {
            ManifestError::Key(i) => ManifestErrorV::Key(i as nat),
            ManifestError::Shape(key) => ManifestErrorV::Shape(key@),
            ManifestError::DTypeText(key) => ManifestErrorV::DTypeText(key@),
            ManifestError::ShapeParse(key) => ManifestErrorV::ShapeParse(key@),
            ManifestError::Unsupported { key, dtype } => ManifestErrorV::Unsupported {
                key: key@,
                dtype: dtype@,
            },
            ManifestError::Kappa(key) => ManifestErrorV::Kappa(key@),
            ManifestError::NoLayers => ManifestErrorV::NoLayers,
        }
    }
}

/// What the row with an index reads as: its key, then its shape and element type
/// must be strings; then the shape must parse; then the element type must be
/// mapped.
pub open spec fn row_of(i: nat, raw: RawRow) -> Result<RowV, ManifestErrorV> {
    match (raw.key, raw.shape, raw.dtype) {
        (None, _, _) => Err(ManifestErrorV::Key(i)),
        (Some(key), None, _) => Err(ManifestErrorV::Shape(key@)),
        (Some(key), Some(_), None) => Err(ManifestErrorV::DTypeText(key@)),
        (Some(key), Some(shape), Some(dtype)) => match (parsed_shape(shape@), dtype_of(dtype@)) {
            (None, _) => Err(ManifestErrorV::ShapeParse(key@)),
            (Some(_), None) => Err(ManifestErrorV::Unsupported { key: key@, dtype: dtype@ }),
            (Some(s), Some(d)) => Ok(RowV { key: key@, shape: s, dtype: d }),
        },
    }
}

/// What a manifest reads as: every row in order, or the refusal of the first row
/// that is refused.
pub open spec fn manifest_of(raw: Seq<RawRow>) -> Result<Seq<RowV>, ManifestErrorV>
    decreases raw.len(),
{
    if raw.len() == 0 {
        Ok(Seq::empty())
    } else {
        match manifest_of(raw.drop_last()) {
            Err(e) => Err(e),
            Ok(rows) => match row_of((raw.len() - 1) as nat, raw.last()) {
                Err(e) => Err(e),
                Ok(row) => Ok(rows.push(row)),
            },
        }
    }
}

/// The models of some rows.
pub open spec fn row_views(rows: Seq<ManifestRow>) -> Seq<RowV> {
    rows.map_values(|r: ManifestRow| r@)
}

/// A refusal of the rows in front refuses the manifest.
proof fn lemma_manifest_stops(raw: Seq<RawRow>, n: int)
    requires
        0 <= n <= raw.len(),
        manifest_of(raw.take(n)) is Err,
    ensures
        manifest_of(raw) == manifest_of(raw.take(n)),
    decreases raw.len() - n,
{
    if n == raw.len() {
        assert(raw.take(n) =~= raw);
    } else {
        assert(raw.take(n + 1).drop_last() =~= raw.take(n));
        lemma_manifest_stops(raw, n + 1);
    }
}

fn parse_row(i: usize, raw: &RawRow) -> (r: Result<ManifestRow, ManifestError>)
    ensures
        match r {
            Ok(row) => row_of(i as nat, *raw) == Ok::<RowV, ManifestErrorV>(row@),
            Err(e) => row_of(i as nat, *raw) == Err::<RowV, ManifestErrorV>(e@),
        },
{
    let key = match &raw.key {
        Some(key) => key,
        None => return Err(ManifestError::Key(i)),
    };
    let shape = match &raw.shape {
        Some(shape) => shape,
        None => return Err(ManifestError::Shape(copy_str(key.as_str()))),
    };
    let dtype = match &raw.dtype {
        Some(dtype) => dtype,
        None => return Err(ManifestError::DTypeText(copy_str(key.as_str()))),
    };
    let dims = match read_shape(shape.as_str()) {
        Ok(dims) => dims,
        Err(_) => return Err(ManifestError::ShapeParse(copy_str(key.as_str()))),
    };
    match parse_dtype(dtype.as_str()) {
        Some(d) => Ok(ManifestRow { key: copy_str(key.as_str()), shape: dims, dtype: d }),
        None => Err(
            ManifestError::Unsupported {
                key: copy_str(key.as_str()),
                dtype: copy_str(dtype.as_str()),
            },
        ),
    }
}

/// Read a manifest; anything that is not mapped is refused, since a mislabeled
/// element type corrupts every weight behind it.
pub fn parse_manifest(raw: &Vec<RawRow>) -> (r: Result<Vec<ManifestRow>, ManifestError>)
    ensures
        match r {
            Ok(rows) => manifest_of(raw@) == Ok::<Seq<RowV>, ManifestErrorV>(row_views(rows@)),
            Err(e) => manifest_of(raw@) == Err::<Seq<RowV>, ManifestErrorV>(e@),
        },
{
    let mut rows: Vec<ManifestRow> = Vec::new();
    let end: usize = raw.len();
    let mut i: usize = 0;
    proof {
        assert(raw@.take(0) =~= Seq::empty());
        assert(row_views(rows@) =~= Seq::empty());
    }
    while i < end
        invariant
            i <= end,
            end == raw@.len(),
            manifest_of(raw@.take(i as int)) == Ok::<Seq<RowV>, ManifestErrorV>(row_views(rows@)),
        decreases end - i,
    {
        proof {
            assert(raw@.take(i + 1).drop_last() =~= raw@.take(i as int));
        }
        match parse_row(i, &raw[i]) {
            Ok(row) => {
                proof {
                    assert(row_views(rows@.push(row)) =~= row_views(rows@).push(row@));
                }
                rows.push(row);
            },
            Err(e) => {
                proof {
                    lemma_manifest_stops(raw@, i + 1);
                }
                return Err(e);
            },
        }
        i += 1;
    }
    proof {
        assert(raw@.take(i as int) =~= raw@);
    }
    Ok(rows)
}

/// The κ with an index, where the client sent one that is a string.
pub open spec fn kappa_at(kappas: Seq<Option<String>>, i: int) -> Option<Seq<char>> {
    if 0 <= i < kappas.len() {
        match kappas[i] {
            Some(k) => Some(k@),
            None => None,
        }
    } else {
        None
    }
}

/// The κs of some rows, or the refusal of the first row without one.
pub open spec fn kappas_of(rows: Seq<RowV>, kappas: Seq<Option<String>>) -> Result<
    Seq<Seq<char>>,
    ManifestErrorV,
>
    decreases rows.len(),
{
    if rows.len() == 0 {
        Ok(Seq::empty())
    } else {
        match kappas_of(rows.drop_last(), kappas) {
            Err(e) => Err(e),
            Ok(ks) => match kappa_at(kappas, rows.len() - 1) {
                None => Err(ManifestErrorV::Kappa(rows.last().key)),
                Some(k) => Ok(ks.push(k)),
            },
        }
    }
}

proof fn lemma_kappas_stop(rows: Seq<RowV>, kappas: Seq<Option<String>>, n: int)
    requires
        0 <= n <= rows.len(),
        kappas_of(rows.take(n), kappas) is Err,
    ensures
        kappas_of(rows, kappas) == kappas_of(rows.take(n), kappas),
    decreases rows.len() - n,
{
    if n == rows.len() {
        assert(rows.take(n) =~= rows);
    } else {
        assert(rows.take(n + 1).drop_last() =~= rows.take(n));
        lemma_kappas_stop(rows, kappas, n + 1);
    }
}

/// Read the κs that stand beside the rows; a κ that is missing or no string is
/// refused, naming its tensor.
pub fn parse_kappas(rows: &Vec<ManifestRow>, kappas: &Vec<Option<String>>) -> (r: Result<
    Vec<String>,
    ManifestError,
>)
    ensures
        match r {
            Ok(ks) => kappas_of(row_views(rows@), kappas@) == Ok::<
                Seq<Seq<char>>,
                ManifestErrorV,
            >(crate::prism::string_views(ks@)),
            Err(e) => kappas_of(row_views(rows@), kappas@) == Err::<
                Seq<Seq<char>>,
                ManifestErrorV,
            >(e@),
        },
{
    let mut out: Vec<String> = Vec::new();
    let end: usize = rows.len();
    let mut i: usize = 0;
    let ghost views = row_views(rows@);
    proof {
        assert(views.take(0) =~= Seq::empty());
        assert(crate::prism::string_views(out@) =~= Seq::empty());
    }
    while i < end
        invariant
            i <= end,
            end == rows@.len(),
            views == row_views(rows@),
            kappas_of(views.take(i as int), kappas@) == Ok::<Seq<Seq<char>>, ManifestErrorV>(
                crate::prism::string_views(out@),
            ),
        decreases end - i,
    {
        proof {
            assert(views.take(i + 1).drop_last() =~= views.take(i as int));
            assert(views.take(i + 1).last() == rows@[i as int]@);
        }
        let mut found: Option<String> = None;
        if i < kappas.len() {
            if let Some(k) = &kappas[i] {
                found = Some(copy_str(k.as_str()));
            }
        }
        match found {
            Some(k) => {
                proof {
                    assert(crate::prism::string_views(out@.push(k))
                        =~= crate::prism::string_views(out@).push(k@));
                }
                out.push(k);
            },
            None => {
                proof {
                    lemma_kappas_stop(views, kappas@, i + 1);
                }
                return Err(ManifestError::Kappa(copy_str(rows[i].key.as_str())));
            },
        }
        i += 1;
    }
    proof {
        assert(views.take(i as int) =~= views);
    }
    Ok(out)
}

/// The number of layers a stage holds; refused where it is none.
pub fn stage_layers(layers_per_stage: u32) -> (r: Result<u64, ManifestError>)
    ensures
        match r {
            Ok(n) => n == layers_per_stage && n > 0,
            Err(e) => e == ManifestError::NoLayers && layers_per_stage == 0,
        },
{
    if layers_per_stage == 0 {
        Err(ManifestError::NoLayers)
    } else {
        Ok(layers_per_stage as u64)
    }
}

/// The block of layers a plan is staged by; nothing where the plan is one
/// monolithic graph: no number was given, or none.
pub fn staged_block(layers_per_stage: Option<u32>) -> (r: Option<u64>)
    ensures
        r == (match layers_per_stage {
            Some(n) => if n > 0 {
                Some(n as u64)
            } else {
                None
            },
            None => None,
        }),
{
    match layers_per_stage {
        Some(n) => if n > 0 {
            Some(n as u64)
        } else {
            None
        },
        None => None,
    }
}

/// A tensor of a graph and its name.
#[derive(Debug, Clone, PartialEq, Eq)]
pub struct NamedTensor {
    pub id: u32,
    pub name: String,
}

/// The tensor a manifest row is bound to. A fresh tensor did not exist in the
/// graph.
#[derive(Debug, Clone, Copy, PartialEq, Eq, Structural)]
pub struct BoundTensor {
    pub id: u32,
    pub fresh: bool,
}

/// The greatest id in a graph; zero where it names no tensor.
pub open spec fn top_id(names: Seq<NamedTensor>) -> nat
    decreases names.len(),
{
    if names.len() == 0 {
        0
    } else {
        let rest = top_id(names.drop_last());
        if names.last().id as nat > rest {
            names.last().id as nat
        } else {
            rest
        }
    }
}

/// The id a name stands for: that of the last tensor with the name.
pub open spec fn named_id(names: Seq<NamedTensor>, name: Seq<char>) -> Option<u32>
    decreases names.len(),
{
    if names.len() == 0 {
        None
    } else if names.last().name@ == name {
        Some(names.last().id)
    } else {
        named_id(names.drop_last(), name)
    }
}

/// How many of some keys no tensor of the graph is named by.
pub open spec fn unnamed(names: Seq<NamedTensor>, keys: Seq<Seq<char>>) -> nat
    decreases keys.len(),
{
    if keys.len() == 0 {
        0
    } else {
        unnamed(names, keys.drop_last()) + if named_id(names, keys.last()) is None {
            1nat
        } else {
            0
        }
    }
}

/// The tensor the last of some keys is bound to: the one it names, or else the
/// next id behind the graph's greatest and those given out before.
pub open spec fn bound_last(names: Seq<NamedTensor>, keys: Seq<Seq<char>>) -> BoundTensor {
    match named_id(names, keys.last()) {
        Some(id) => BoundTensor { id, fresh: false },
        None => BoundTensor {
            id: (top_id(names) + 1 + unnamed(names, keys.drop_last())) as u32,
            fresh: true,
        },
    }
}

/// The tensors some keys are bound to, in order.
pub open spec fn bound_tensors(names: Seq<NamedTensor>, keys: Seq<Seq<char>>) -> Seq<BoundTensor> {
    Seq::new(keys.len(), |i: int| bound_last(names, keys.take(i + 1)))
}

/// The keys of some rows.
pub open spec fn row_keys(rows: Seq<ManifestRow>) -> Seq<Seq<char>> {
    rows.map_values(|r: ManifestRow| r.key@)
}

proof fn lemma_unnamed_grows(names: Seq<NamedTensor>, keys: Seq<Seq<char>>, n: int)
    requires
        0 <= n <= keys.len(),
    ensures
        unnamed(names, keys.take(n)) <= unnamed(names, keys),
    decreases keys.len() - n,
{
    if n == keys.len() {
        assert(keys.take(n) =~= keys);
    } else {
        assert(keys.take(n + 1).drop_last() =~= keys.take(n));
        lemma_unnamed_grows(names, keys, n + 1);
    }
}

fn find_named(names: &Vec<NamedTensor>, name: &str) -> (r: Option<u32>)
    ensures
        r == named_id(names@, name@),
{
    let mut found: Option<u32> = None;
    let end: usize = names.len();
    let mut i: usize = 0;
    proof {
        assert(names@.take(0) =~= Seq::empty());
    }
    while i < end
        invariant
            i <= end,
            end == names@.len(),
            found == named_id(names@.take(i as int), name@),
        decreases end - i,
    {
        proof {
            assert(names@.take(i + 1).drop_last() =~= names@.take(i as int));
        }
        if same_text(names[i].name.as_str(), name) {
            found = Some(names[i].id);
        }
        i += 1;
    }
    proof {
        assert(names@.take(i as int) =~= names@);
    }
    found
}

fn greatest_id(names: &Vec<NamedTensor>) -> (r: u32)
    ensures
        r == top_id(names@),
{
    let mut top: u32 = 0;
    let end: usize = names.len();
    let mut i: usize = 0;
    proof {
        assert(names@.take(0) =~= Seq::empty());
    }
    while i < end
        invariant
            i <= end,
            end == names@.len(),
            top == top_id(names@.take(i as int)),
        decreases end - i,
    {
        proof {
            assert(names@.take(i + 1).drop_last() =~= names@.take(i as int));
        }
        if names[i].id > top {
            top = names[i].id;
        }
        i += 1;
    }
    proof {
        assert(names@.take(i as int) =~= names@);
    }
    top
}

/// Bind every row of a manifest to a tensor of the graph. A row whose key names a
/// tensor is bound to it; the others get fresh ids behind the graph's own. The
/// tensors stand in the order in which the graph's map was walked.
pub fn bind_rows(names: &Vec<NamedTensor>, rows: &Vec<ManifestRow>) -> (r: Vec<BoundTensor>)
    requires
        top_id(names@) + 1 + unnamed(names@, row_keys(rows@)) <= u32::MAX,
    ensures
        r@ == bound_tensors(names@, row_keys(rows@)),
{
    let ghost keys = row_keys(rows@);
    let mut out: Vec<BoundTensor> = Vec::new();
    proof {
        lemma_unnamed_grows(names@, keys, 0);
        assert(keys.take(0) =~= Seq::empty());
    }
    let mut next: u32 = greatest_id(names) + 1;
    let end: usize = rows.len();
    let mut i: usize = 0;
    while i < end
        invariant
            i <= end,
            end == rows@.len(),
            keys == row_keys(rows@),
            top_id(names@) + 1 + unnamed(names@, keys) <= u32::MAX,
            next == top_id(names@) + 1 + unnamed(names@, keys.take(i as int)),
            out@ == bound_tensors(names@, keys).take(i as int),
        decreases end - i,
    {
        let ghost all = bound_tensors(names@, keys);
        proof {
            assert(keys.take(i + 1).drop_last() =~= keys.take(i as int));
            assert(keys.take(i + 1).last() == rows@[i as int].key@);
            lemma_unnamed_grows(names@, keys, i + 1);
            assert(all.take(i + 1) =~= all.take(i as int).push(all[i as int]));
        }
        match find_named(names, rows[i].key.as_str()) {
            Some(id) => {
                out.push(BoundTensor { id, fresh: false });
            },
            None => {
                out.push(BoundTensor { id: next, fresh: true });
                next = next + 1;
            },
        }
        i += 1;
    }
    proof {
        assert(bound_tensors(names@, keys).take(i as int) =~= bound_tensors(names@, keys));
    }
    out
}

/// No fresh id is the id of a tensor the graph had.
pub proof fn law_fresh_ids_are_new(names: Seq<NamedTensor>, keys: Seq<Seq<char>>, i: int, j: int)
    requires
        top_id(names) + 1 + unnamed(names, keys) <= u32::MAX,
        0 <= i < keys.len(),
        bound_tensors(names, keys)[i].fresh,
        0 <= j < names.len(),
    ensures
        bound_tensors(names, keys)[i].id > names[j].id,
{
    lemma_top_bounds(names, j);
    assert(keys.take(i + 1).drop_last() =~= keys.take(i));
    lemma_unnamed_grows(names, keys, i);
}

proof fn lemma_top_bounds(names: Seq<NamedTensor>, j: int)
    requires
        0 <= j < names.len(),
    ensures
        names[j].id <= top_id(names),
    decreases names.len(),
{
    if j < names.len() - 1 {
        assert(names.drop_last()[j] == names[j]);
        lemma_top_bounds(names.drop_last(), j);
    }
}

/// Two rows that were given fresh ids were given different ones, in order.
pub proof fn law_fresh_ids_are_distinct(
    names: Seq<NamedTensor>,
    keys: Seq<Seq<char>>,
    i: int,
    j: int,
)
    requires
        top_id(names) + 1 + unnamed(names, keys) <= u32::MAX,
        0 <= i < j < keys.len(),
        bound_tensors(names, keys)[i].fresh,
        bound_tensors(names, keys)[j].fresh,
    ensures
        bound_tensors(names, keys)[i].id < bound_tensors(names, keys)[j].id,
{
    assert(keys.take(i + 1).drop_last() =~= keys.take(i));
    assert(keys.take(j + 1).drop_last() =~= keys.take(j));
    assert(keys.take(j).take(i + 1) =~= keys.take(i + 1));
    lemma_unnamed_grows(names, keys.take(j), i + 1);
    lemma_unnamed_grows(names, keys, j);
}

/// A row that is not fresh is bound to a tensor of the graph with the row's name.
pub proof fn law_a_known_row_keeps_its_tensor(
    names: Seq<NamedTensor>,
    keys: Seq<Seq<char>>,
    i: int,
)
    requires
        0 <= i < keys.len(),
        !bound_tensors(names, keys)[i].fresh,
    ensures
        exists|j: int|
            0 <= j < names.len() && (#[trigger] names[j]).name@ == keys[i] && names[j].id
                == bound_tensors(names, keys)[i].id,
{
    assert(keys.take(i + 1).last() == keys[i]);
    lemma_named(names, keys[i]);
}

proof fn lemma_named(names: Seq<NamedTensor>, name: Seq<char>)
    requires
        named_id(names, name) is Some,
    ensures
        exists|j: int|
            0 <= j < names.len() && (#[trigger] names[j]).name@ == name && named_id(names, name)
                == Some(names[j].id),
    decreases names.len(),
{
    if names.last().name@ == name {
        assert(names[names.len() - 1].name@ == name);
    } else {
        lemma_named(names.drop_last(), name);
        let j = choose|j: int|
            0 <= j < names.drop_last().len() && (#[trigger] names.drop_last()[j]).name@ == name
                && named_id(names.drop_last(), name) == Some(names.drop_last()[j].id);
        assert(names[j].name@ == name);
    }
}

/// Every mapped tag names one element type, and every element type has its tag; the
/// integers may be spelled with `INT` or with `I`.
pub proof fn law_tags_name_element_types(tag: Seq<char>)
    ensures
        dtype_of(tag) == Some(DType::F32) <==> tag == "F32"@,
        dtype_of(tag) == Some(DType::F16) <==> tag == "F16"@,
        dtype_of(tag) == Some(DType::BF16) <==> tag == "BF16"@,
        dtype_of(tag) == Some(DType::F64) <==> tag == "F64"@,
        dtype_of(tag) == Some(DType::Int64) <==> tag == "I64"@ || tag == "INT64"@,
        dtype_of(tag) == Some(DType::Int32) <==> tag == "I32"@ || tag == "INT32"@,
        dtype_of(tag) == Some(DType::Int8) <==> tag == "I8"@ || tag == "INT8"@,
        dtype_of(tag) == Some(DType::U8) <==> tag == "U8"@,
        dtype_of(tag) == Some(DType::Bool) <==> tag == "BOOL"@,
        derivable(tag) is Some <==> tag == "F32"@ || tag == "F16"@ || tag == "BF16"@,
        derivable(tag) is Some ==> derivable(tag) == dtype_of(tag),
{
    reveal_strlit("F32");
    reveal_strlit("F16");
    reveal_strlit("BF16");
    reveal_strlit("F64");
    reveal_strlit("I64");
    reveal_strlit("INT64");
    reveal_strlit("I32");
    reveal_strlit("INT32");
    reveal_strlit("I8");
    reveal_strlit("INT8");
    reveal_strlit("U8");
    reveal_strlit("BOOL");
    assert("F32"@.len() == 3 && "F16"@.len() == 3 && "F64"@.len() == 3 && "I64"@.len() == 3
        && "I32"@.len() == 3);
    assert("F32"@[0] == 'F' && "F32"@[1] == '3');
    assert("F16"@[0] == 'F' && "F16"@[1] == '1');
    assert("F64"@[0] == 'F' && "F64"@[1] == '6');
    assert("I64"@[0] == 'I' && "I64"@[1] == '6');
    assert("I32"@[0] == 'I' && "I32"@[1] == '3');
    assert("BF16"@.len() == 4 && "INT8"@.len() == 4 && "BOOL"@.len() == 4);
    assert("BF16"@[0] == 'B' && "BF16"@[1] == 'F');
    assert("INT8"@[0] == 'I');
    assert("BOOL"@[0] == 'B' && "BOOL"@[1] == 'O');
    assert("INT64"@.len() == 5 && "INT32"@.len() == 5);
    assert("INT64"@[3] == '6' && "INT32"@[3] == '3');
    assert("I8"@.len() == 2 && "U8"@.len() == 2);
    assert("I8"@[0] == 'I' && "U8"@[0] == 'U');
}

/// Whether a row can be read: its three fields are strings, its shape parses and its
/// element type is mapped.
pub open spec fn readable(raw: RawRow) -> bool {
    &&& raw.key is Some && raw.shape is Some && raw.dtype is Some
    &&& parsed_shape(raw.shape->0@) is Some
    &&& dtype_of(raw.dtype->0@) is Some
}

/// What is said of the row with an index that cannot be read: the first thing that is
/// wrong with it.
pub open spec fn says_of_row(e: ManifestErrorV, i: int, raw: RawRow) -> bool {
    if raw.key is None {
        e == ManifestErrorV::Key(i as nat)
    } else if raw.shape is None {
        e == ManifestErrorV::Shape(raw.key->0@)
    } else if raw.dtype is None {
        e == ManifestErrorV::DTypeText(raw.key->0@)
    } else if parsed_shape(raw.shape->0@) is None {
        e == ManifestErrorV::ShapeParse(raw.key->0@)
    } else {
        e == (ManifestErrorV::Unsupported { key: raw.key->0@, dtype: raw.dtype->0@ })
    }
}

/// A manifest is read row by row: each row keeps its key, its shape and its element type
/// at its own place, and the first row that cannot be read is what the manifest is
/// refused for.
pub proof fn law_a_manifest_is_read_row_by_row(raw: Seq<RawRow>)
    ensures
        match manifest_of(raw) {
            Ok(rows) => rows.len() == raw.len() && forall|i: int|
                0 <= i < raw.len() ==> readable(#[trigger] raw[i]) && rows[i].key == raw[i].key->0@
                    && parsed_shape(raw[i].shape->0@) == Some(rows[i].shape) && dtype_of(
                    raw[i].dtype->0@,
                ) == Some(rows[i].dtype),
            Err(e) => exists|i: int|
                0 <= i < raw.len() && !readable(#[trigger] raw[i]) && says_of_row(e, i, raw[i])
                    && forall|k: int| 0 <= k < i ==> readable(#[trigger] raw[k]),
        },
    decreases raw.len(),
{
    if raw.len() > 0 {
        let front = raw.drop_last();
        let last = raw.len() - 1;
        law_a_manifest_is_read_row_by_row(front);
        assert(raw[last] == raw.last());
        match manifest_of(front) {
            Ok(before) => {
                assert forall|k: int| 0 <= k < last implies readable(#[trigger] raw[k]) by {
                    assert(front[k] == raw[k]);
                }
                if let Ok(rows) = manifest_of(raw) {
                    assert forall|i: int| 0 <= i < raw.len() implies readable(#[trigger] raw[i])
                        && rows[i].key == raw[i].key->0@ && parsed_shape(raw[i].shape->0@) == Some(
                        rows[i].shape,
                    ) && dtype_of(raw[i].dtype->0@) == Some(rows[i].dtype) by {
                        if i < last {
                            assert(front[i] == raw[i]);
                            assert(rows[i] == before[i]);
                        }
                    }
                } else {
                    assert(!readable(raw[last]));
                }
            },
            Err(e) => {
                let i = choose|i: int|
                    0 <= i < front.len() && !readable(#[trigger] front[i]) && says_of_row(
                        e,
                        i,
                        front[i],
                    ) && forall|k: int| 0 <= k < i ==> readable(#[trigger] front[k]);
                assert(raw[i] == front[i]);
                assert forall|k: int| 0 <= k < i implies readable(#[trigger] raw[k]) by {
                    assert(front[k] == raw[k]);
                }
            },
        }
    }
}

/// The κs are read beside their rows: the κ of each row is the one at its place, and the
/// first row without one is what the κs are refused for, by its key.
pub proof fn law_kappas_are_read_beside_their_rows(rows: Seq<RowV>, kappas: Seq<Option<String>>)
    ensures
        match kappas_of(rows, kappas) {
            Ok(ks) => ks.len() == rows.len() && rows.len() <= kappas.len() && forall|i: int|
                0 <= i < rows.len() ==> (#[trigger] kappas[i] matches Some(k) && ks[i] == k@),
            Err(e) => exists|i: int|
                0 <= i < rows.len() && (i >= kappas.len() || kappas[i] is None) && e
                    == ManifestErrorV::Kappa((#[trigger] rows[i]).key) && forall|k: int|
                    0 <= k < i ==> k < kappas.len() && (#[trigger] kappas[k]) is Some,
        },
    decreases rows.len(),
{
    if rows.len() > 0 {
        let front = rows.drop_last();
        let last = rows.len() - 1;
        law_kappas_are_read_beside_their_rows(front, kappas);
        assert(rows[last] == rows.last());
        match kappas_of(front, kappas) {
            Ok(before) => {
                if let Ok(ks) = kappas_of(rows, kappas) {
                    assert forall|i: int| 0 <= i < rows.len() implies (
                    #[trigger] kappas[i] matches Some(k) && ks[i] == k@) by {
                        if i < last {
                            assert(ks[i] == before[i]);
                        }
                    }
                } else {
                    assert(rows[last].key == rows.last().key);
                }
            },
            Err(e) => {
                let i = choose|i: int|
                    0 <= i < front.len() && (i >= kappas.len() || kappas[i] is None) && e
                        == ManifestErrorV::Kappa((#[trigger] front[i]).key) && forall|k: int|
                        0 <= k < i ==> k < kappas.len() && (#[trigger] kappas[k]) is Some;
                assert(rows[i] == front[i]);
            },
        }
    }
}

/// A row is fresh exactly where no tensor of the graph has its name; else it is bound to
/// the last tensor that has it.
pub proof fn law_a_row_is_bound_to_the_last_of_its_name(
    names: Seq<NamedTensor>,
    keys: Seq<Seq<char>>,
    i: int,
)
    requires
        0 <= i < keys.len(),
    ensures
        bound_tensors(names, keys).len() == keys.len(),
        bound_tensors(names, keys)[i].fresh <==> forall|j: int|
            0 <= j < names.len() ==> (#[trigger] names[j]).name@ != keys[i],
        forall|j: int|
            0 <= j < names.len() && (#[trigger] names[j]).name@ == keys[i] && (forall|k: int|
                j < k < names.len() ==> (#[trigger] names[k]).name@ != keys[i]) ==> bound_tensors(
                names,
                keys,
            )[i].id == names[j].id,
{
    assert(keys.take(i + 1).last() == keys[i]);
    lemma_named_last(names, keys[i]);
}

proof fn lemma_named_last(names: Seq<NamedTensor>, name: Seq<char>)
    ensures
        named_id(names, name) is None <==> forall|j: int|
            0 <= j < names.len() ==> (#[trigger] names[j]).name@ != name,
        forall|j: int|
            0 <= j < names.len() && (#[trigger] names[j]).name@ == name && (forall|k: int|
                j < k < names.len() ==> (#[trigger] names[k]).name@ != name) ==> named_id(
                names,
                name,
            ) == Some(names[j].id),
    decreases names.len(),
{
    if names.len() > 0 {
        let front = names.drop_last();
        let last = names.len() - 1;
        lemma_named_last(front, name);
        assert(names[last] == names.last());
        assert forall|j: int| 0 <= j < front.len() implies #[trigger] names[j] == front[j] by {}
        assert(named_id(names, name) is None <==> forall|j: int|
            0 <= j < names.len() ==> (#[trigger] names[j]).name@ != name) by {
            if named_id(names, name) is None {
                assert forall|j: int| 0 <= j < names.len() implies (#[trigger] names[j]).name@
                    != name by {
                    if j < last {
                        assert(front[j].name@ != name);
                    }
                }
            }
            if forall|j: int| 0 <= j < names.len() ==> (#[trigger] names[j]).name@ != name {
                assert forall|j: int| 0 <= j < front.len() implies (#[trigger] front[j]).name@
                    != name by {
                    assert(names[j] == front[j]);
                }
                assert(names[last].name@ != name);
            }
        }
        assert forall|j: int|
            0 <= j < names.len() && (#[trigger] names[j]).name@ == name && (forall|k: int|
                j < k < names.len() ==> (#[trigger] names[k]).name@ != name) implies named_id(
            names,
            name,
        ) == Some(names[j].id) by {
            if j < last {
                assert(names[last].name@ != name);
                assert(front[j] == names[j]);
                assert forall|k: int| j < k < front.len() implies (#[trigger] front[k]).name@
                    != name by {
                    assert(names[k] == front[k]);
                }
            }
        }
    }
}

/// Fresh ids are given out without a gap: the first is the one behind the greatest id of
/// the graph, or 1 for a graph without tensors, and each next one follows the one given
/// before it.
pub proof fn law_fresh_ids_follow_each_other(
    names: Seq<NamedTensor>,
    keys: Seq<Seq<char>>,
    i: int,
    j: int,
)
    requires
        top_id(names) + 1 + unnamed(names, keys) <= u32::MAX,
        0 <= j < keys.len(),
        bound_tensors(names, keys)[j].fresh,
    ensures
        (forall|k: int| 0 <= k < j ==> !(#[trigger] bound_tensors(names, keys)[k]).fresh) ==> ({
            let id = bound_tensors(names, keys)[j].id;
            &&& forall|n: int| 0 <= n < names.len() ==> (#[trigger] names[n]).id < id
            &&& names.len() == 0 ==> id == 1
            &&& id != 1 ==> exists|n: int|
                0 <= n < names.len() && (#[trigger] names[n]).id == id - 1
        }),
        0 <= i < j && bound_tensors(names, keys)[i].fresh && (forall|k: int|
            i < k < j ==> !(#[trigger] bound_tensors(names, keys)[k]).fresh) ==> bound_tensors(
            names,
            keys,
        )[j].id == bound_tensors(names, keys)[i].id + 1,
{
    let all = bound_tensors(names, keys);
    assert(keys.take(j + 1).drop_last() =~= keys.take(j));
    lemma_unnamed_grows(names, keys, j);
    if forall|k: int| 0 <= k < j ==> !(#[trigger] all[k]).fresh {
        lemma_none_fresh(names, keys, 0, j);
        assert(keys.take(0) =~= Seq::empty());
        assert forall|n: int| 0 <= n < names.len() implies (#[trigger] names[n]).id < all[j].id by {
            lemma_top_bounds(names, n);
        }
        lemma_top_attained(names);
        if all[j].id != 1 {
            let n = choose|n: int| 0 <= n < names.len() && (#[trigger] names[n]).id == top_id(names);
            assert(names[n].id == all[j].id - 1);
        }
    }
    if 0 <= i < j && all[i].fresh && (forall|k: int| i < k < j ==> !(#[trigger] all[k]).fresh) {
        assert(keys.take(i + 1).drop_last() =~= keys.take(i));
        lemma_none_fresh(names, keys, i + 1, j);
        lemma_unnamed_grows(names, keys, i + 1);
    }
}

proof fn lemma_top_attained(names: Seq<NamedTensor>)
    ensures
        top_id(names) > 0 ==> exists|n: int|
            0 <= n < names.len() && (#[trigger] names[n]).id == top_id(names),
    decreases names.len(),
{
    if names.len() > 0 {
        let front = names.drop_last();
        lemma_top_attained(front);
        if top_id(names) == top_id(front) {
            if top_id(front) > 0 {
                let n = choose|n: int|
                    0 <= n < front.len() && (#[trigger] front[n]).id == top_id(front);
                assert(names[n].id == top_id(names));
            }
        } else {
            assert(names[names.len() - 1].id == top_id(names));
        }
    }
}

proof fn lemma_none_fresh(names: Seq<NamedTensor>, keys: Seq<Seq<char>>, a: int, b: int)
    requires
        0 <= a <= b <= keys.len(),
        forall|k: int| a <= k < b ==> !(#[trigger] bound_tensors(names, keys)[k]).fresh,
    ensures
        unnamed(names, keys.take(b)) == unnamed(names, keys.take(a)),
    decreases b - a,
{
    if a < b {
        lemma_none_fresh(names, keys, a, b - 1);
        assert(keys.take(b).drop_last() =~= keys.take(b - 1));
        assert(keys.take(b - 1 + 1).last() == keys[b - 1]);
        assert(!bound_tensors(names, keys)[b - 1].fresh);
    }
}

/// Rows are modelled by all that they hold, each at its own place, and so is what a
/// manifest is refused for.
pub proof fn law_rows_are_modelled_whole(rows: Seq<ManifestRow>, e: ManifestError)
    ensures
        row_views(rows).len() == rows.len(),
        row_keys(rows).len() == rows.len(),
        forall|i: int|
            0 <= i < rows.len() ==> (#[trigger] row_views(rows)[i]).key == rows[i].key@
                && row_views(rows)[i].shape == rows[i].shape@ && row_views(rows)[i].dtype
                == rows[i].dtype && row_keys(rows)[i] == rows[i].key@,
        match e {
            ManifestError::Key(i) => e@ == ManifestErrorV::Key(i as nat),
            ManifestError::Shape(key) => e@ == ManifestErrorV::Shape(key@),
            ManifestError::DTypeText(key) => e@ == ManifestErrorV::DTypeText(key@),
            ManifestError::ShapeParse(key) => e@ == ManifestErrorV::ShapeParse(key@),
            ManifestError::Unsupported { key, dtype } => e@ == (ManifestErrorV::Unsupported {
                key: key@,
                dtype: dtype@,
            }),
            ManifestError::Kappa(key) => e@ == ManifestErrorV::Kappa(key@),
            ManifestError::NoLayers => e@ is NoLayers,
        },
{
}

/// A stage holds the layers that are stated, and none is no number of layers; where none
/// are stated the model is no staged one.
pub proof fn law_a_stage_holds_the_stated_layers(
    n: u32,
    stated: Option<u32>,
    layers: Result<u64, ManifestError>,
    block: Option<u64>,
)
    requires
        call_ensures(stage_layers, (n,), layers),
        call_ensures(staged_block, (stated,), block),
    ensures
        n > 0 ==> layers == Ok::<u64, ManifestError>(n as u64),
        n == 0 ==> layers == Err::<u64, ManifestError>(ManifestError::NoLayers),
        block is Some <==> stated is Some && stated->Some_0 > 0,
        block is Some ==> block->Some_0 == stated->Some_0,
{
}

} // verus!
