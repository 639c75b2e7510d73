//! One forward pass over a compiled model: the ports it shows, the inputs it is
//! given, and the type of what it returns.

use crate::bytes::{copy_bytes, push_bytes, read_le};
use crate::runner::{dtype_byte_width, HoloRunner, PortInfo};
use crate::text::copy_str;
use vstd::prelude::*;
use vstd::slice::slice_subrange;

verus! {

/// A port as it is shown to a client.
#[derive(Debug, Clone)]
pub struct Port {
    pub name: String,
    pub dtype: u8,
    pub dtype_name: String,
    pub element_count: usize,
    pub shape: Vec<usize>,
    pub bytes: usize,
}

/// The ports of a compiled model.
#[derive(Debug, Clone)]
pub struct ModelInfo {
    pub inputs: Vec<Port>,
    pub outputs: Vec<Port>,
}

/// The name of an element type's tag.
pub open spec fn name_of_dtype(tag: u8) -> Seq<char> {
    match tag {
        0 => "bool"@,
        1 => "u8"@,
        2 => "i8"@,
        3 => "u64"@,
        4 => "i32"@,
        5 => "i64"@,
        6 => "f16"@,
        7 => "bf16"@,
        8 => "f32"@,
        9 => "f64"@,
        10 => "i4"@,
        _ => "?"@,
    }
}

/// The name of an element type's tag.
pub fn dtype_name(tag: u8) -> (r: &'static str)
    ensures
        r@ == name_of_dtype(tag),
{
    match tag {
        0 => "bool",
        1 => "u8",
        2 => "i8",
        3 => "u64",
        4 => "i32",
        5 => "i64",
        6 => "f16",
        7 => "bf16",
        8 => "f32",
        9 => "f64",
        10 => "i4",
        _ => "?",
    }
}

/// Whether a shown port is a port of the model with its size.
pub open spec fn shows(port: Port, info: crate::runner::PortV, bytes: usize) -> bool {
    &&& port.name@ == info.name
    &&& port.dtype == info.dtype
    &&& port.dtype_name@ == name_of_dtype(info.dtype)
    &&& port.element_count == info.element_count
    &&& port.shape@ == info.shape
    &&& port.bytes == bytes
}

/// Show each port with its size, as far as there are both.
pub fn ports(info: &Vec<PortInfo>, sizes: &Vec<usize>) -> (r: Vec<Port>)
    ensures
        r@.len() == (if info@.len() < sizes@.len() {
            info@.len()
        } else {
            sizes@.len()
        }),
        forall|i: int| 0 <= i < r@.len() ==> shows(#[trigger] r@[i], info@[i]@, sizes@[i]),
{
    let mut out: Vec<Port> = Vec::new();
    let mut i: usize = 0;
    while i < info.len() && i < sizes.len()
        invariant
            i <= info@.len(),
            i <= sizes@.len(),
            out@.len() == i,
            forall|k: int| 0 <= k < i ==> shows(#[trigger] out@[k], info@[k]@, sizes@[k]),
        decreases info@.len() - i,
    {
        let p = info[i].copy();
        out.push(
            Port {
                name: p.name,
                dtype: p.dtype,
                dtype_name: copy_str(dtype_name(p.dtype)),
                element_count: p.element_count,
                shape: p.shape,
                bytes: sizes[i],
            },
        );
        i += 1;
    }
    out
}

/// Whether some shown ports are all ports of a model with their sizes.
pub open spec fn shows_all(shown: Seq<Port>, ports: Seq<crate::runner::PortV>) -> bool {
    &&& shown.len() == ports.len()
    &&& forall|i: int|
        0 <= i < shown.len() ==> shows(
            #[trigger] shown[i],
            ports[i],
            crate::runner::packed_size(ports[i].element_count as nat, ports[i].dtype) as usize,
        )
}

/// The named input and output ports of a model.
pub fn describe<L: Copy>(runner: &HoloRunner<L>) -> (r: ModelInfo)
    requires
        crate::runner::sizes_fit(runner.inputs()),
        crate::runner::sizes_fit(runner.outputs()),
    ensures
        shows_all(r.inputs@, runner.inputs()),
        shows_all(r.outputs@, runner.outputs()),
{
    let in_info = runner.input_port_info();
    let out_info = runner.output_port_info();
    let in_sizes = runner.input_byte_sizes();
    let out_sizes = runner.output_byte_sizes();
    let inputs = ports(&in_info, &in_sizes);
    let outputs = ports(&out_info, &out_sizes);
    proof {
        assert forall|i: int| 0 <= i < inputs@.len() implies shows(
            #[trigger] inputs@[i],
            runner.inputs()[i],
            crate::runner::packed_size(
                runner.inputs()[i].element_count as nat,
                runner.inputs()[i].dtype,
            ) as usize,
        ) by {
            assert(crate::runner::port_views(in_info@)[i] == in_info@[i]@);
        }
        assert forall|i: int| 0 <= i < outputs@.len() implies shows(
            #[trigger] outputs@[i],
            runner.outputs()[i],
            crate::runner::packed_size(
                runner.outputs()[i].element_count as nat,
                runner.outputs()[i].dtype,
            ) as usize,
        ) by {
            assert(crate::runner::port_views(out_info@)[i] == out_info@[i]@);
        }
    }
    ModelInfo { inputs, outputs }
}

/// A buffer repeated.
pub open spec fn repeated(image: Seq<u8>, count: nat) -> Seq<u8>
    decreases count,
{
    if count == 0 {
        Seq::empty()
    } else {
        repeated(image, (count - 1) as nat) + image
    }
}

/// An input buffer made from the bytes of one element: zeros where there are
/// none; both halves of every byte the low half of the element's first byte for
/// four-bit integers; else the element, once for each.
pub open spec fn filled(byte_size: nat, count: nat, dtype: u8, element: Option<Seq<u8>>) -> Seq<u8> {
    match element {
        None => Seq::new(byte_size, |i: int| 0u8),
        Some(image) => if dtype == 10 {
            Seq::new(byte_size, |i: int| ((image[0] % 16) * 17) as u8)
        } else {
            repeated(image, count)
        },
    }
}

fn constant(len: usize, b: u8) -> (r: Vec<u8>)
    ensures
        r@ == Seq::new(len as nat, |i: int| b),
{
    let mut out: Vec<u8> = Vec::new();
    let mut i: usize = 0;
    while i < len
        invariant
            i <= len,
            out@ == Seq::new(i as nat, |k: int| b),
        decreases len - i,
    {
        out.push(b);
        proof {
            assert(out@ =~= Seq::new((i + 1) as nat, |k: int| b));
        }
        i += 1;
    }
    out
}

/// Make an input buffer from the bytes of one element.
pub fn synth(byte_size: usize, element_count: usize, dtype: u8, element: Option<&[u8]>) -> (r: Vec<
    u8,
>)
    requires
        element matches Some(image) ==> dtype == 10 ==> image@.len() > 0,
    ensures
        r@ == filled(
            byte_size as nat,
            element_count as nat,
            dtype,
            match element {
                Some(image) => Some(image@),
                None => None,
            },
        ),
{
    let image = match element {
        None => {
            let r = constant(byte_size, 0);
            proof {
                assert(r@ =~= Seq::new(byte_size as nat, |i: int| 0u8));
            }
            return r;
        },
        Some(image) => image,
    };
    if dtype == 10 {
        let first: u8 = image[0];
        let nib: u8 = first & 0x0F;
        let both: u8 = nib | (nib << 4u8);
        proof {
            assert((first & 0x0F) | ((first & 0x0F) << 4u8) == (first % 16) * 17) by (bit_vector);
        }
        let r = constant(byte_size, both);
        proof {
            assert(r@ =~= Seq::new(byte_size as nat, |i: int| ((image@[0] % 16) * 17) as u8));
        }
        return r;
    }
    let mut out: Vec<u8> = Vec::new();
    let mut i: usize = 0;
    while i < element_count
        invariant
            i <= element_count,
            out@ == repeated(image@, i as nat),
        decreases element_count - i,
    {
        push_bytes(&mut out, image);
        i += 1;
    }
    out
}

proof fn lemma_repeated(image: Seq<u8>, count: nat)
    ensures
        repeated(image, count).len() == count * image.len(),
    decreases count,
{
    let n = image.len();
    if count > 0 {
        let before = (count - 1) as nat;
        lemma_repeated(image, before);
        assert(count * n == before * n + n) by (nonlinear_arith)
            requires
                count == before + 1,
        ;
    } else {
        assert(count * n == 0) by (nonlinear_arith)
            requires
                count == 0,
        ;
    }
}

/// A buffer made for a port has the port's size, whatever its element type, when
/// the element has the width of its type.
pub proof fn law_a_filled_buffer_fits_its_port(count: nat, dtype: u8, element: Option<Seq<u8>>)
    requires
        element matches Some(image) ==> dtype != 10 ==> image.len() == crate::runner::element_width(
            dtype,
        ),
    ensures
        filled(crate::runner::packed_size(count, dtype), count, dtype, element).len()
            == crate::runner::packed_size(count, dtype),
{
    if let Some(image) = element {
        lemma_repeated(image, count);
    }
}

/// The value of a four-bit code: from -8 to 7.
pub open spec fn signed_nibble(n: int) -> int {
    if n >= 8 {
        n - 16
    } else {
        n
    }
}

/// The values of packed four-bit integers: of each byte the low half, then the
/// high half.
pub open spec fn unpacked(bytes: Seq<u8>) -> Seq<int> {
    Seq::new(
        2 * bytes.len(),
        |i: int|
            if i % 2 == 0 {
                signed_nibble(bytes[i / 2] as int % 16)
            } else {
                signed_nibble(bytes[i / 2] as int / 16)
            },
    )
}

fn nibble_value(n: u8) -> (r: i8)
    requires
        n < 16,
    ensures
        r == signed_nibble(n as int),
{
    if n >= 8 {
        n as i8 - 16
    } else {
        n as i8
    }
}

/// Decode packed four-bit integers.
pub fn decode_i4(bytes: &[u8]) -> (r: Vec<i8>)
    ensures
        r@.map_values(|v: i8| v as int) == unpacked(bytes@),
{
    let mut out: Vec<i8> = Vec::new();
    let end: usize = bytes.len();
    let mut i: usize = 0;
    while i < end
        invariant
            i <= end,
            end == bytes@.len(),
            out@.len() == 2 * i,
            forall|k: int| 0 <= k < 2 * i ==> #[trigger] out@[k] as int == unpacked(bytes@)[k],
        decreases end - i,
    {
        let b: u8 = bytes[i];
        out.push(nibble_value(b % 16));
        out.push(nibble_value(b / 16));
        proof {
            assert forall|k: int| 0 <= k < 2 * (i + 1) implies #[trigger] out@[k] as int
                == unpacked(bytes@)[k] by {
                if k >= 2 * i {
                    assert(k / 2 == i);
                }
            }
        }
        i += 1;
    }
    proof {
        assert(out@.map_values(|v: i8| v as int) =~= unpacked(bytes@));
    }
    out
}

/// A buffer of four-bit integers made from a value that fits them decodes to that
/// value everywhere.
pub proof fn law_a_four_bit_fill_decodes(byte_size: nat, count: nat, value: i8, i: int)
    requires
        -8 <= value <= 7,
        0 <= i < 2 * byte_size,
    ensures
        unpacked(
            filled(byte_size, count, 10, Some(seq![(if value < 0 {
                value + 256
            } else {
                value as int
            }) as u8])),
        )[i] == value,
{
    let first = (if value < 0 {
        value + 256
    } else {
        value as int
    }) as u8;
    let buffer = filled(byte_size, count, 10, Some(seq![first]));
    assert(seq![first][0] == first);
    assert(buffer[i / 2] == ((first % 16) * 17) as u8);
    assert(first % 16 == (if value < 0 {
        value + 16
    } else {
        value as int
    }));
}

/// The bytes an output element is read from: its width for the types that are
/// known to be wider than a byte, else one.
pub open spec fn word_width(dtype: u8) -> nat {
    if 3 <= dtype <= 9 {
        crate::runner::element_width(dtype)
    } else {
        1
    }
}

/// The elements of an output, each the number its bytes are, little end first. A
/// rest that is shorter than an element is left out.
pub open spec fn words(bytes: Seq<u8>, dtype: u8) -> Seq<nat> {
    let w = word_width(dtype);
    Seq::new(
        bytes.len() / w,
        |i: int| crate::bytes::le_value(bytes.subrange(i * w, i * w + w)),
    )
}

/// Read the elements of an output of a whole-byte type.
pub fn decode_words(bytes: &[u8], dtype: u8) -> (r: Vec<u64>)
    ensures
        r@.map_values(|v: u64| v as nat) == words(bytes@, dtype),
{
    let w: usize = if 3 <= dtype && dtype <= 9 {
        dtype_byte_width(dtype)
    } else {
        1
    };
    let len: usize = bytes.len();
    let count: usize = len / w;
    let mut out: Vec<u64> = Vec::new();
    let mut i: usize = 0;
    while i < count
        invariant
            i <= count,
            w == word_width(dtype),
            1 <= w <= 8,
            len == bytes@.len(),
            count == bytes@.len() as nat / word_width(dtype),
            out@.len() == i,
            forall|k: int| 0 <= k < i ==> #[trigger] out@[k] as nat == words(bytes@, dtype)[k],
        decreases count - i,
    {
        proof {
            lemma_word_fits(bytes@.len() as int, w as int, i as int);
        }
        let from: usize = i * w;
        let word = slice_subrange(bytes, from, from + w);
        out.push(read_le(word));
        i += 1;
    }
    proof {
        assert(out@.map_values(|v: u64| v as nat) =~= words(bytes@, dtype));
    }
    out
}

proof fn lemma_word_fits(len: int, w: int, i: int)
    requires
        0 <= len,
        1 <= w,
        0 <= i < len / w,
    ensures
        0 <= i * w,
        i * w + w <= len,
{
    assert(i * w + w <= len) by (nonlinear_arith)
        requires
            0 <= len,
            1 <= w,
            0 <= i < len / w,
    ;
    assert(0 <= i * w) by (nonlinear_arith)
        requires
            1 <= w,
            0 <= i,
    ;
}

/// An output of the size of its port holds the port's elements, one for one.
pub proof fn law_an_output_holds_its_elements(bytes: Seq<u8>, count: nat, dtype: u8)
    requires
        dtype <= 9,
        bytes.len() == crate::runner::packed_size(count, dtype),
    ensures
        words(bytes, dtype).len() == count,
{
    let w = crate::runner::element_width(dtype);
    assert(count * w / w == count) by (nonlinear_arith)
        requires
            w >= 1,
    ;
}

/// An element whose bytes were repeated reads back everywhere as the number that
/// its bytes are.
pub proof fn law_a_fill_reads_back(count: nat, dtype: u8, image: Seq<u8>, i: int)
    requires
        dtype <= 9,
        image.len() == crate::runner::element_width(dtype),
        0 <= i < count,
    ensures
        words(repeated(image, count), dtype).len() == count,
        words(repeated(image, count), dtype)[i] == crate::bytes::le_value(image),
{
    let w = image.len();
    let all = repeated(image, count);
    lemma_repeated(image, count);
    law_an_output_holds_its_elements(all, count, dtype);
    lemma_repeated_item(image, count, i);
    assert(all.subrange(i * w, i * w + w) =~= image);
}

proof fn lemma_repeated_item(image: Seq<u8>, count: nat, i: int)
    requires
        0 <= i < count,
    ensures
        0 <= i * image.len(),
        i * image.len() + image.len() <= repeated(image, count).len(),
        forall|k: int|
            0 <= k < image.len() ==> repeated(image, count)[i * image.len() + k]
                == #[trigger] image[k],
    decreases count,
{
    let n = image.len();
    let before = (count - 1) as nat;
    lemma_repeated(image, count);
    lemma_repeated(image, before);
    assert(0 <= i * n) by (nonlinear_arith)
        requires
            0 <= i,
    ;
    if i < before {
        lemma_repeated_item(image, before, i);
    } else {
        assert(i * n == before * n) by (nonlinear_arith)
            requires
                i == before,
        ;
    }
}

/// Why the inputs of a pass were refused.
#[derive(Debug, Clone, Copy, PartialEq, Eq, Structural)]
pub enum RunError {
    /// Some inputs were given, but not one for each port.
    Count { expected: usize, got: usize },
    /// An input has the wrong length.
    Size { index: usize, got: usize, want: usize },
}

/// The bytes given for the input with an index; none where it is omitted or empty.
pub open spec fn given(provided: Seq<Vec<u8>>, i: int) -> Option<Seq<u8>> {
    if 0 <= i < provided.len() && provided[i]@.len() > 0 {
        Some(provided[i]@)
    } else {
        None
    }
}

/// The image of one element of the port with an index, where the inputs are
/// filled.
pub open spec fn image_at(elements: Option<Seq<Vec<u8>>>, i: int) -> Option<Seq<u8>> {
    match elements {
        Some(images) => Some(images[i]@),
        None => None,
    }
}

/// The input with an index: the bytes given, which must have the port's size, or
/// else a buffer that is made.
pub open spec fn input_at(
    provided: Seq<Vec<u8>>,
    info: Seq<PortInfo>,
    sizes: Seq<usize>,
    elements: Option<Seq<Vec<u8>>>,
    i: int,
) -> Result<Seq<u8>, RunError> {
    match given(provided, i) {
        Some(b) => if b.len() == sizes[i] {
            Ok(b)
        } else {
            Err(RunError::Size { index: i as usize, got: b.len() as usize, want: sizes[i] })
        },
        None => Ok(
            filled(
                sizes[i] as nat,
                info[i].element_count as nat,
                info[i].dtype,
                image_at(elements, i),
            ),
        ),
    }
}

/// The first `n` inputs, or the refusal of the first that is refused.
pub open spec fn inputs_upto(
    provided: Seq<Vec<u8>>,
    info: Seq<PortInfo>,
    sizes: Seq<usize>,
    elements: Option<Seq<Vec<u8>>>,
    n: nat,
) -> Result<Seq<Seq<u8>>, RunError>
    decreases n,
{
    if n == 0 {
        Ok(Seq::empty())
    } else {
        match inputs_upto(provided, info, sizes, elements, (n - 1) as nat) {
            Err(e) => Err(e),
            Ok(front) => match input_at(provided, info, sizes, elements, n - 1) {
                Err(e) => Err(e),
                Ok(b) => Ok(front.push(b)),
            },
        }
    }
}

/// The inputs of a pass. Where any are given there must be one for each port.
pub open spec fn inputs_of(
    provided: Seq<Vec<u8>>,
    info: Seq<PortInfo>,
    sizes: Seq<usize>,
    elements: Option<Seq<Vec<u8>>>,
) -> Result<Seq<Seq<u8>>, RunError> {
    if provided.len() > 0 && provided.len() != info.len() {
        Err(RunError::Count { expected: info.len() as usize, got: provided.len() as usize })
    } else {
        inputs_upto(provided, info, sizes, elements, info.len())
    }
}

proof fn lemma_inputs_stop(
    provided: Seq<Vec<u8>>,
    info: Seq<PortInfo>,
    sizes: Seq<usize>,
    elements: Option<Seq<Vec<u8>>>,
    n: nat,
    m: nat,
)
    requires
        n <= m,
        inputs_upto(provided, info, sizes, elements, n) is Err,
    ensures
        inputs_upto(provided, info, sizes, elements, m) == inputs_upto(
            provided,
            info,
            sizes,
            elements,
            n,
        ),
    decreases m - n,
{
    if n < m {
        lemma_inputs_stop(provided, info, sizes, elements, n, (m - 1) as nat);
    }
}

/// The models of some buffers.
pub open spec fn buffer_views(b: Seq<Vec<u8>>) -> Seq<Seq<u8>> {
    b.map_values(|v: Vec<u8>| v@)
}

/// The inputs of a pass: what was given, checked against the ports, and made
/// buffers for what was not. `elements` holds the bytes of one element for each
/// port; without it the made buffers are zeros.
pub fn run_inputs(
    provided: &Vec<Vec<u8>>,
    info: &Vec<PortInfo>,
    sizes: &Vec<usize>,
    elements: Option<&Vec<Vec<u8>>>,
) -> (r: Result<Vec<Vec<u8>>, RunError>)
    requires
        sizes@.len() == info@.len(),
        elements matches Some(images) ==> images@.len() == info@.len() && forall|i: int|
            0 <= i < info@.len() && (#[trigger] info@[i]).dtype == 10 ==> images@[i]@.len() > 0,
    ensures
        ({
            let wanted = inputs_of(
                provided@,
                info@,
                sizes@,
                match elements {
                    Some(images) => Some(images@),
                    None => None,
                },
            );
            match r {
                Ok(owned) => wanted == Ok::<Seq<Seq<u8>>, RunError>(buffer_views(owned@)),
                Err(e) => wanted == Err::<Seq<Seq<u8>>, RunError>(e),
            }
        }),
{
    let end: usize = info.len();
    if provided.len() > 0 && provided.len() != end {
        return Err(RunError::Count { expected: end, got: provided.len() });
    }
    let ghost images: Option<Seq<Vec<u8>>> = match elements {
        Some(images) => Some(images@),
        None => None,
    };
    let mut owned: Vec<Vec<u8>> = Vec::new();
    let mut i: usize = 0;
    proof {
        assert(buffer_views(owned@) =~= Seq::empty());
    }
    while i < end
        invariant
            i <= end,
            end == info@.len(),
            sizes@.len() == info@.len(),
            provided@.len() == 0 || provided@.len() == info@.len(),
            elements matches Some(images) ==> images@.len() == info@.len() && forall|i: int|
                0 <= i < info@.len() && (#[trigger] info@[i]).dtype == 10 ==> images@[i]@.len() > 0,
            images == (match elements {
                Some(images) => Some(images@),
                None => None,
            }),
            inputs_upto(provided@, info@, sizes@, images, i as nat) == Ok::<
                Seq<Seq<u8>>,
                RunError,
            >(buffer_views(owned@)),
        decreases end - i,
    {
        let want: usize = sizes[i];
        let mut supplied: bool = false;
        if i < provided.len() {
            let len: usize = provided[i].len();
            if len > 0 {
                if len != want {
                    proof {
                        lemma_inputs_stop(
                            provided@,
                            info@,
                            sizes@,
                            images,
                            (i + 1) as nat,
                            end as nat,
                        );
                    }
                    return Err(RunError::Size { index: i, got: len, want });
                }
                supplied = true;
            }
        }
        let buffer: Vec<u8> = if supplied {
            copy_bytes(provided[i].as_slice())
        } else {
            synth(
                want,
                info[i].element_count,
                info[i].dtype,
                match elements {
                    Some(list) => Some(list[i].as_slice()),
                    None => None,
                },
            )
        };
        proof {
            assert(buffer_views(owned@.push(buffer)) =~= buffer_views(owned@).push(buffer@));
        }
        owned.push(buffer);
        i += 1;
    }
    Ok(owned)
}

/// The type and size an output is shown with.
#[derive(Debug, Clone, Copy, PartialEq, Eq, Structural)]
pub struct OutputShape {
    pub dtype: u8,
    pub element_count: usize,
}

/// The type and size of the output with an index: those of its port; without a
/// port the single-width float, of no elements.
pub open spec fn output_shape(info: Seq<PortInfo>, i: int) -> OutputShape {
    if 0 <= i < info.len() {
        OutputShape { dtype: info[i].dtype, element_count: info[i].element_count }
    } else {
        OutputShape { dtype: 8, element_count: 0 }
    }
}

/// The type and size of each produced output.
pub fn output_shapes(info: &Vec<PortInfo>, produced: usize) -> (r: Vec<OutputShape>)
    ensures
        r@ == Seq::new(produced as nat, |i: int| output_shape(info@, i)),
{
    let mut out: Vec<OutputShape> = Vec::new();
    let mut i: usize = 0;
    while i < produced
        invariant
            i <= produced,
            out@ == Seq::new(i as nat, |k: int| output_shape(info@, k)),
        decreases produced - i,
    {
        let shape = if i < info.len() {
            OutputShape { dtype: info[i].dtype, element_count: info[i].element_count }
        } else {
            OutputShape { dtype: 8, element_count: 0 }
        };
        out.push(shape);
        proof {
            assert(out@ =~= Seq::new((i + 1) as nat, |k: int| output_shape(info@, k)));
        }
        i += 1;
    }
    out
}

/// Every input of a pass has the size of its port, when the elements have the
/// widths of their types.
pub proof fn law_inputs_fit_their_ports(
    provided: Seq<Vec<u8>>,
    info: Seq<PortInfo>,
    sizes: Seq<usize>,
    elements: Option<Seq<Vec<u8>>>,
    i: int,
)
    requires
        sizes.len() == info.len(),
        forall|k: int|
            0 <= k < info.len() ==> #[trigger] sizes[k] == crate::runner::packed_size(
                info[k].element_count as nat,
                info[k].dtype,
            ),
        elements matches Some(images) ==> images.len() == info.len() && forall|k: int|
            0 <= k < info.len() && (#[trigger] info[k]).dtype != 10 ==> images[k]@.len()
                == crate::runner::element_width(info[k].dtype),
        inputs_of(provided, info, sizes, elements) is Ok,
        0 <= i < info.len(),
    ensures
        inputs_of(provided, info, sizes, elements)->Ok_0.len() == info.len(),
        inputs_of(provided, info, sizes, elements)->Ok_0[i].len() == sizes[i],
{
    lemma_inputs_item(provided, info, sizes, elements, info.len(), i);
    assert(sizes[i] == crate::runner::packed_size(info[i].element_count as nat, info[i].dtype));
    law_a_filled_buffer_fits_its_port(
        info[i].element_count as nat,
        info[i].dtype,
        image_at(elements, i),
    );
}

proof fn lemma_inputs_item(
    provided: Seq<Vec<u8>>,
    info: Seq<PortInfo>,
    sizes: Seq<usize>,
    elements: Option<Seq<Vec<u8>>>,
    n: nat,
    i: int,
)
    requires
        inputs_upto(provided, info, sizes, elements, n) is Ok,
        0 <= i < n,
    ensures
        inputs_upto(provided, info, sizes, elements, n)->Ok_0.len() == n,
        input_at(provided, info, sizes, elements, i) == Ok::<Seq<u8>, RunError>(
            inputs_upto(provided, info, sizes, elements, n)->Ok_0[i],
        ),
    decreases n,
{
    if n > 1 {
        let before = (n - 1) as nat;
        lemma_inputs_item(
            provided,
            info,
            sizes,
            elements,
            before,
            if i < n - 1 {
                i
            } else {
                0
            },
        );
    } else {
        reveal_with_fuel(inputs_upto, 2);
    }
}

/// What is given reaches its port: wherever the inputs are accepted, every port for
/// which bytes are given receives exactly those bytes.
pub proof fn law_given_inputs_reach_their_ports(
    provided: Seq<Vec<u8>>,
    info: Seq<PortInfo>,
    sizes: Seq<usize>,
    elements: Option<Seq<Vec<u8>>>,
)
    requires
        inputs_of(provided, info, sizes, elements) is Ok,
    ensures
        inputs_of(provided, info, sizes, elements)->Ok_0.len() == info.len(),
        forall|i: int|
            0 <= i < provided.len() && (#[trigger] provided[i])@.len() > 0 ==> i < info.len()
                && inputs_of(provided, info, sizes, elements)->Ok_0[i] == provided[i]@,
        forall|i: int|
            0 <= i < info.len() ==> (#[trigger] given(provided, i) matches Some(b)
                ==> inputs_of(provided, info, sizes, elements)->Ok_0[i] == b),
{
    if info.len() > 0 {
        lemma_inputs_item(provided, info, sizes, elements, info.len(), 0);
    }
    assert forall|i: int| 0 <= i < provided.len() && (#[trigger] provided[i])@.len() > 0 implies i
        < info.len() && inputs_of(provided, info, sizes, elements)->Ok_0[i] == provided[i]@ by {
        lemma_inputs_item(provided, info, sizes, elements, info.len(), i);
    }
    assert forall|i: int| 0 <= i < info.len() implies (#[trigger] given(provided, i) matches Some(b)
        ==> inputs_of(provided, info, sizes, elements)->Ok_0[i] == b) by {
        lemma_inputs_item(provided, info, sizes, elements, info.len(), i);
    }
}

/// What is omitted is made: without elements a port that nothing is given for receives
/// zeros; with them its own element's bytes over and over, or, for four-bit integers,
/// the low half of the element's first byte in both halves of every byte.
pub proof fn law_omitted_inputs_are_made(
    provided: Seq<Vec<u8>>,
    info: Seq<PortInfo>,
    sizes: Seq<usize>,
    elements: Option<Seq<Vec<u8>>>,
    i: int,
)
    requires
        inputs_of(provided, info, sizes, elements) is Ok,
        0 <= i < info.len(),
        provided.len() == 0 || provided[i]@.len() == 0,
    ensures
        ({
            let b = inputs_of(provided, info, sizes, elements)->Ok_0[i];
            match elements {
                None => b.len() == sizes[i] && forall|k: int| 0 <= k < b.len() ==> #[trigger] b[k] == 0,
                Some(images) => if info[i].dtype == 10 {
                    b.len() == sizes[i] && forall|k: int|
                        0 <= k < b.len() ==> (#[trigger] b[k]) % 16 == images[i]@[0] % 16 && b[k]
                            / 16 == images[i]@[0] % 16
                } else {
                    b.len() == info[i].element_count * images[i]@.len() && forall|k: int|
                        0 <= k < b.len() ==> #[trigger] b[k] == images[i]@[k % (
                        images[i]@.len() as int)]
                },
            }
        }),
{
    lemma_inputs_item(provided, info, sizes, elements, info.len(), i);
    let b = inputs_of(provided, info, sizes, elements)->Ok_0[i];
    if let Some(images) = elements {
        let image = images[i]@;
        let count = info[i].element_count as nat;
        if info[i].dtype == 10 {
            let n = image[0] % 16;
            assert(n * 17 < 256);
            assert forall|k: int| 0 <= k < b.len() implies (#[trigger] b[k]) % 16 == image[0] % 16
                && b[k] / 16 == image[0] % 16 by {
                assert(b[k] == n * 17);
            }
        } else {
            lemma_repeated(image, count);
            assert forall|k: int| 0 <= k < b.len() implies #[trigger] b[k] == image[k % (
            image.len() as int)] by {
                let n = image.len() as int;
                assert(n > 0) by {
                    if n == 0 {
                        assert(count * n == 0) by (nonlinear_arith)
                            requires
                                n == 0,
                        ;
                    }
                }
                let q = k / n;
                vstd::arithmetic::div_mod::lemma_fundamental_div_mod(k, n);
                assert(0 <= q < count) by (nonlinear_arith)
                    requires
                        0 <= k < count * n,
                        n > 0,
                        k == n * q + k % n,
                        0 <= k % n < n,
                ;
                lemma_repeated_item(image, count, q);
                assert(n * q == q * n) by (nonlinear_arith);
                assert(image[k % n] == b[q * n + k % n]);
            }
        }
    }
}

/// When the inputs of a pass are accepted: none at all are given, or one for each port;
/// and each that is not empty has the size of its port. Else the refusal states the two
/// numbers of inputs, or the index of the first input of a wrong size with that size
/// and the one wanted.
pub proof fn law_when_inputs_are_accepted(
    provided: Seq<Vec<u8>>,
    info: Seq<PortInfo>,
    sizes: Seq<usize>,
    elements: Option<Seq<Vec<u8>>>,
)
    requires
        sizes.len() == info.len(),
        info.len() <= usize::MAX,
        provided.len() <= usize::MAX,
        forall|i: int| 0 <= i < provided.len() ==> (#[trigger] provided[i])@.len() <= usize::MAX,
    ensures
        ({
            let r = inputs_of(provided, info, sizes, elements);
            let fits = |i: int| provided[i]@.len() == 0 || provided[i]@.len() == sizes[i];
            if provided.len() != 0 && provided.len() != info.len() {
                r matches Err(RunError::Count { expected, got }) && expected == info.len() && got
                    == provided.len()
            } else if forall|i: int| 0 <= i < provided.len() ==> #[trigger] fits(i) {
                r is Ok
            } else {
                &&& r matches Err(RunError::Size { index, got, want })
                &&& index < provided.len()
                &&& !fits(index as int)
                &&& forall|k: int| 0 <= k < index ==> #[trigger] fits(k)
                &&& got == provided[index as int]@.len()
                &&& want == sizes[index as int]
            }
        }),
{
    let fits = |i: int| provided[i]@.len() == 0 || provided[i]@.len() == sizes[i];
    if provided.len() == 0 || provided.len() == info.len() {
        lemma_inputs_decided(provided, info, sizes, elements, info.len());
        if forall|i: int| 0 <= i < provided.len() ==> #[trigger] fits(i) {
            assert forall|i: int| 0 <= i < info.len() implies #[trigger] input_at(
                provided,
                info,
                sizes,
                elements,
                i,
            ) is Ok by {
                if provided.len() > 0 {
                    assert(fits(i));
                }
            }
        } else {
            let bad = choose|i: int| 0 <= i < provided.len() && !#[trigger] fits(i);
            assert(input_at(provided, info, sizes, elements, bad) is Err);
            let r = inputs_of(provided, info, sizes, elements);
            let first = choose|i: int|
                0 <= i < info.len() && (#[trigger] input_at(provided, info, sizes, elements, i) matches Err(e)
                    && r == Err::<Seq<Seq<u8>>, RunError>(e)) && forall|k: int|
                    0 <= k < i ==> #[trigger] input_at(provided, info, sizes, elements, k) is Ok;
            assert(!fits(first));
            assert forall|k: int| 0 <= k < first implies #[trigger] fits(k) by {
                assert(input_at(provided, info, sizes, elements, k) is Ok);
            }
        }
    }
}

proof fn lemma_inputs_decided(
    provided: Seq<Vec<u8>>,
    info: Seq<PortInfo>,
    sizes: Seq<usize>,
    elements: Option<Seq<Vec<u8>>>,
    n: nat,
)
    ensures
        inputs_upto(provided, info, sizes, elements, n) is Ok <==> forall|i: int|
            0 <= i < n ==> #[trigger] input_at(provided, info, sizes, elements, i) is Ok,
        inputs_upto(provided, info, sizes, elements, n) matches Err(_) ==> exists|i: int|
            0 <= i < n && (#[trigger] input_at(provided, info, sizes, elements, i) matches Err(e)
                && inputs_upto(provided, info, sizes, elements, n) == Err::<
                Seq<Seq<u8>>,
                RunError,
            >(e)) && forall|k: int|
                0 <= k < i ==> #[trigger] input_at(provided, info, sizes, elements, k) is Ok,
    decreases n,
{
    if n > 0 {
        let before = (n - 1) as nat;
        lemma_inputs_decided(provided, info, sizes, elements, before);
        let last = input_at(provided, info, sizes, elements, n - 1);
        if inputs_upto(provided, info, sizes, elements, before) is Ok {
            assert(inputs_upto(provided, info, sizes, elements, n) is Ok <==> last is Ok);
            if last is Err {
                assert(input_at(provided, info, sizes, elements, n - 1) is Err);
            }
        }
    }
}

/// Four-bit integers decode to two values a byte, each from -8 to 7, the low half first:
/// packed again, the two are the byte.
pub proof fn law_unpacked_values_pack_again(bytes: Seq<u8>, i: int)
    requires
        0 <= i < bytes.len(),
    ensures
        unpacked(bytes).len() == 2 * bytes.len(),
        -8 <= unpacked(bytes)[2 * i] <= 7,
        -8 <= unpacked(bytes)[2 * i + 1] <= 7,
        bytes[i] == unpacked(bytes)[2 * i] % 16 + 16 * (unpacked(bytes)[2 * i + 1] % 16),
{
    let b = bytes[i] as int;
    assert((2 * i) / 2 == i && (2 * i + 1) / 2 == i);
    assert((2 * i) % 2 == 0 && (2 * i + 1) % 2 == 1);
    assert(b == b % 16 + 16 * (b / 16));
}

/// Outputs read one element behind the other: whole elements in front of other bytes
/// read as their own elements, followed by those of the rest, and the bytes of one
/// element as the number that they spell.
pub proof fn law_elements_read_in_order(front: Seq<u8>, element: Seq<u8>, rest: Seq<u8>, dtype: u8)
    requires
        front.len() % crate::runner::packed_size(1, dtype) == 0,
        element.len() == crate::runner::packed_size(1, dtype),
        dtype <= 9,
    ensures
        words(front + rest, dtype) == words(front, dtype) + words(rest, dtype),
        words(element, dtype) == seq![crate::bytes::le_value(element)],
        rest.len() < crate::runner::packed_size(1, dtype) ==> words(rest, dtype) == Seq::<nat>::empty(),
{
    let w = word_width(dtype) as int;
    assert(w == crate::runner::packed_size(1, dtype));
    let all = front + rest;
    let q = front.len() as int / w;
    vstd::arithmetic::div_mod::lemma_fundamental_div_mod(front.len() as int, w);
    vstd::arithmetic::div_mod::lemma_div_multiples_vanish_fancy(0, 0, w);
    vstd::arithmetic::div_mod::lemma_hoist_over_denominator(rest.len() as int, q, w as nat);
    assert(w * q == q * w) by (nonlinear_arith);
    assert(all.len() as int / w == q + rest.len() as int / w);
    let a = words(front, dtype);
    let b = words(rest, dtype);
    assert(words(all, dtype).len() == a.len() + b.len());
    assert forall|i: int| 0 <= i < a.len() + b.len() implies #[trigger] words(all, dtype)[i] == (a
        + b)[i] by {
        if i < a.len() {
            lemma_word_fits(front.len() as int, w, i);
            assert(all.subrange(i * w, i * w + w) =~= front.subrange(i * w, i * w + w));
        } else {
            let k = i - q;
            lemma_word_fits(rest.len() as int, w, k);
            assert(i * w == q * w + k * w) by (nonlinear_arith)
                requires
                    i == q + k,
            ;
            assert(all.subrange(i * w, i * w + w) =~= rest.subrange(k * w, k * w + w));
        }
    }
    assert(words(all, dtype) =~= a + b);
    assert(w / w == 1) by (nonlinear_arith)
        requires
            w >= 1,
    ;
    assert(element.subrange(0 * w, 0 * w + w) =~= element);
    assert(words(element, dtype) =~= seq![crate::bytes::le_value(element)]);
    if rest.len() < w {
        assert(rest.len() as int / w == 0) by {
            vstd::arithmetic::div_mod::lemma_basic_div(rest.len() as int, w);
        }
        assert(words(rest, dtype) =~= Seq::<nat>::empty());
    }
}

/// The name of a numeric element type ends in the number of its bits, and every known
/// type has a name of its own.
pub proof fn law_a_type_name_states_its_bits(tag: u8, other: u8)
    requires
        1 <= tag <= 10,
    ensures
        ({
            let bits = crate::text::decimal(4 * crate::runner::packed_size(2, tag));
            let name = name_of_dtype(tag);
            name.len() > bits.len() && name.skip(name.len() - bits.len()) == bits
        }),
        other != tag ==> name_of_dtype(other) != name_of_dtype(tag),
        other > 10 ==> name_of_dtype(other) == "?"@,
{
    reveal_strlit("bool");
    reveal_strlit("u8");
    reveal_strlit("i8");
    reveal_strlit("u64");
    reveal_strlit("i32");
    reveal_strlit("i64");
    reveal_strlit("f16");
    reveal_strlit("bf16");
    reveal_strlit("f32");
    reveal_strlit("f64");
    reveal_strlit("i4");
    reveal_strlit("?");
    reveal_with_fuel(crate::text::decimal, 3);
    let bits = crate::text::decimal(4 * crate::runner::packed_size(2, tag));
    let name = name_of_dtype(tag);
    assert(name.skip(name.len() - bits.len()) =~= bits);
    let theirs = name_of_dtype(other);
    if other != tag && theirs == name {
        assert(theirs[0] == name[0] && theirs[1] == name[1]);
        assert(theirs.last() == name.last());
    }
}

/// A shown port is the model's port: its name, type, number of elements and shape, the
/// name of its type, and the bytes that its elements take.
pub proof fn law_shown_ports_are_the_models(
    shown: Seq<Port>,
    ports: Seq<crate::runner::PortV>,
    i: int,
)
    requires
        shows_all(shown, ports),
        crate::runner::sizes_fit(ports),
        0 <= i < ports.len(),
    ensures
        shown.len() == ports.len(),
        shown[i].name@ == ports[i].name,
        shown[i].dtype == ports[i].dtype,
        shown[i].dtype_name@ == name_of_dtype(ports[i].dtype),
        shown[i].element_count == ports[i].element_count,
        shown[i].shape@ == ports[i].shape,
        shown[i].bytes == crate::runner::packed_size(
            ports[i].element_count as nat,
            ports[i].dtype,
        ),
{
    assert(shows(
        shown[i],
        ports[i],
        crate::runner::packed_size(ports[i].element_count as nat, ports[i].dtype) as usize,
    ));
}

/// An output is shown with the type and size of the port at its own index, and one
/// beyond the ports as a single-width float of no elements.
pub proof fn law_an_output_has_the_shape_of_its_port(info: Seq<PortInfo>, i: int)
    requires
        0 <= i,
    ensures
        i < info.len() ==> output_shape(info, i).dtype == info[i].dtype && output_shape(
            info,
            i,
        ).element_count == info[i].element_count,
        i >= info.len() ==> name_of_dtype(output_shape(info, i).dtype) == "f32"@ && output_shape(
            info,
            i,
        ).element_count == 0,
{
}

/// Buffers are modelled by their bytes, each at its own place.
pub proof fn law_buffers_are_modelled_whole(buffers: Seq<Vec<u8>>)
    ensures
        buffer_views(buffers).len() == buffers.len(),
        forall|i: int| 0 <= i < buffers.len() ==> #[trigger] buffer_views(buffers)[i] == buffers[i]@,
{
}

/// Every buffer that is handed in reaches the port at its place byte for byte, whatever
/// is made for the others.
pub proof fn law_a_run_is_handed_what_was_given(
    provided: &Vec<Vec<u8>>,
    info: &Vec<PortInfo>,
    sizes: &Vec<usize>,
    elements: Option<&Vec<Vec<u8>>>,
    owned: Vec<Vec<u8>>,
)
    requires
        call_ensures(run_inputs, (provided, info, sizes, elements), Ok(owned)),
    ensures
        owned@.len() == info@.len(),
        forall|i: int|
            0 <= i < provided@.len() && (#[trigger] provided@[i])@.len() > 0 ==> i < owned@.len()
                && owned@[i]@ == provided@[i]@,
{
    let images = match elements {
        Some(images) => Some(images@),
        None => None,
    };
    law_given_inputs_reach_their_ports(provided@, info@, sizes@, images);
    assert(buffer_views(owned@).len() == owned@.len());
    assert forall|i: int| 0 <= i < provided@.len() && (#[trigger] provided@[i])@.len() > 0 implies i
        < owned@.len() && owned@[i]@ == provided@[i]@ by {
        assert(buffer_views(owned@)[i] == owned@[i]@);
    }
}

} // verus!
