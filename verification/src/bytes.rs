//! Little-endian numbers and slices of bytes.

use vstd::prelude::*;

verus! {

/// The `width` low bytes of `n`, least significant first.
pub open spec fn le_bytes(n: nat, width: nat) -> Seq<u8>
    decreases width,
{
    if width == 0 {
        Seq::empty()
    } else {
        seq![(n % 256) as u8] + le_bytes(n / 256, (width - 1) as nat)
    }
}

/// The number whose little-endian form is `s`.
pub open spec fn le_value(s: Seq<u8>) -> nat
    decreases s.len(),
{
    if s.len() == 0 {
        0
    } else {
        s[0] as nat + 256 * le_value(s.skip(1))
    }
}

/// The first number that does not fit in `width` bytes.
pub open spec fn le_limit(width: nat) -> nat
    decreases width,
{
    if width == 0 {
        1
    } else {
        256 * le_limit((width - 1) as nat)
    }
}

/// A number of `width` bytes has `width` bytes.
pub proof fn lemma_le_bytes_len(n: nat, width: nat)
    ensures
        le_bytes(n, width).len() == width,
    decreases width,
{
    if width > 0 {
        lemma_le_bytes_len(n / 256, (width - 1) as nat);
    }
}

/// A number reads back from its little-endian form.
pub proof fn lemma_le_round_trip(n: nat, width: nat)
    requires
        n < le_limit(width),
    ensures
        le_value(le_bytes(n, width)) == n,
    decreases width,
{
    lemma_le_bytes_len(n, width);
    if width > 0 {
        let w = (width - 1) as nat;
        assert(n / 256 < le_limit(w));
        lemma_le_round_trip(n / 256, w);
        assert(le_bytes(n, width).skip(1) =~= le_bytes(n / 256, w));
    }
}

/// Bytes are the little-endian form of the number that they spell.
pub proof fn lemma_le_value_bytes(s: Seq<u8>)
    ensures
        le_bytes(le_value(s), s.len()) == s,
        le_value(s) < le_limit(s.len()),
    decreases s.len(),
{
    if s.len() > 0 {
        lemma_le_value_bytes(s.skip(1));
        let rest = le_value(s.skip(1));
        assert((s[0] as nat + 256 * rest) % 256 == s[0] as nat);
        assert((s[0] as nat + 256 * rest) / 256 == rest);
        assert(seq![s[0]] + s.skip(1) =~= s);
    } else {
        assert(s =~= Seq::empty());
    }
}

/// The limits of the widths in use.
pub proof fn lemma_le_limits()
    ensures
        le_limit(2) == 0x1_0000,
        le_limit(4) == 0x1_0000_0000,
        le_limit(8) == 0x1_0000_0000_0000_0000,
{
    reveal_with_fuel(le_limit, 9);
}

/// Append the `width` low bytes of `n`.
pub fn push_le(out: &mut Vec<u8>, n: u64, width: usize)
    ensures
        final(out)@ == old(out)@ + le_bytes(n as nat, width as nat),
{
    let ghost start = out@;
    let mut left: u64 = n;
    let mut i: usize = 0;
    proof {
        assert(start + le_bytes(n as nat, width as nat) =~= out@ + le_bytes(n as nat, width as nat));
    }
    while i < width
        invariant
            i <= width,
            start + le_bytes(n as nat, width as nat) == out@ + le_bytes(
                left as nat,
                (width - i) as nat,
            ),
        decreases width - i,
    {
        let ghost before = out@;
        out.push((left % 256) as u8);
        proof {
            let w = (width - i) as nat;
            assert(before + le_bytes(left as nat, w) =~= out@ + le_bytes(
                left as nat / 256,
                (w - 1) as nat,
            ));
        }
        left = left / 256;
        i += 1;
    }
    proof {
        assert(out@ + Seq::<u8>::empty() =~= out@);
    }
}

/// The number that at most eight bytes spell.
pub fn read_le(bytes: &[u8]) -> (n: u64)
    requires
        bytes@.len() <= 8,
    ensures
        n == le_value(bytes@),
    decreases bytes@.len(),
{
    if bytes.len() == 0 {
        return 0;
    }
    let rest = vstd::slice::slice_subrange(bytes, 1, bytes.len());
    proof {
        assert(rest@ =~= bytes@.skip(1));
        lemma_le_value_bytes(bytes@);
        lemma_le_limits();
        lemma_le_limit_grows(bytes@.len(), 8);
    }
    bytes[0] as u64 + 256 * read_le(rest)
}

proof fn lemma_le_limit_grows(a: nat, b: nat)
    requires
        a <= b,
    ensures
        le_limit(a) <= le_limit(b),
    decreases b,
{
    if a < b {
        lemma_le_limit_grows(a, (b - 1) as nat);
    }
}

/// The bytes `[offset, offset + len)` of some content, if it holds them all.
pub open spec fn byte_range(content: Seq<u8>, offset: u64, len: u64) -> Option<Seq<u8>> {
    if offset + len <= content.len() {
        Some(content.subrange(offset as int, offset + len))
    } else {
        None
    }
}

/// The optional model of an optional vector of bytes.
pub open spec fn bytes_view(r: Option<Vec<u8>>) -> Option<Seq<u8>> {
    match r {
        Some(v) => Some(v@),
        None => None,
    }
}

/// A copy of the bytes `[offset, offset + len)`, if the content holds them all.
pub fn slice_range(content: &[u8], offset: u64, len: u64) -> (r: Option<Vec<u8>>)
    ensures
        bytes_view(r) == byte_range(content@, offset, len),
{
    let size: u64 = content.len() as u64;
    if offset > size || len > size - offset {
        return None;
    }
    let start: usize = offset as usize;
    let end: usize = (offset + len) as usize;
    Some(vstd::slice::slice_to_vec(vstd::slice::slice_subrange(content, start, end)))
}

/// A copy of a slice.
pub fn copy_bytes(bytes: &[u8]) -> (r: Vec<u8>)
    ensures
        r@ == bytes@,
{
    vstd::slice::slice_to_vec(bytes)
}

/// Append a slice.
pub fn push_bytes(out: &mut Vec<u8>, bytes: &[u8])
    ensures
        final(out)@ == old(out)@ + bytes@,
{
    out.extend_from_slice(bytes);
    proof {
        assert(out@ =~= old(out)@ + bytes@);
    }
}

/// `n` zero bytes.
pub open spec fn zeros(n: nat) -> Seq<u8> {
    Seq::new(n, |i: int| 0u8)
}

/// A byte is worth 256 times as much as the one before it: a single byte is its own
/// value, and bytes that follow others count by the place at which they begin.
pub proof fn law_a_byte_counts_by_its_place(a: Seq<u8>, b: Seq<u8>, x: u8)
    ensures
        le_value(seq![x]) == x,
        le_value(a + b) == le_value(a) + vstd::arithmetic::power::pow(256, a.len()) * le_value(b),
    decreases a.len(),
{
    assert(seq![x].skip(1) =~= Seq::empty());
    assert(le_value(Seq::<u8>::empty()) == 0);
    if a.len() == 0 {
        vstd::arithmetic::power::lemma_pow0(256);
        assert(a + b =~= b);
    } else {
        let rest = a.skip(1);
        law_a_byte_counts_by_its_place(rest, b, x);
        assert((a + b).skip(1) =~= rest + b);
        assert((a + b)[0] == a[0]);
        reveal(vstd::arithmetic::power::pow);
        let p = vstd::arithmetic::power::pow(256, rest.len());
        let v = le_value(b) as int;
        assert(256 * (p * v) == (256 * p) * v) by (nonlinear_arith);
    }
}

/// The byte at a place of a number's little-endian form is what is left of the number
/// there, whatever the width.
pub proof fn law_each_byte_is_a_digit_of_the_number(n: nat, width: nat, i: nat)
    requires
        i < width,
    ensures
        le_bytes(n, width).len() == width,
        le_bytes(n, width)[i as int] == (n as int / vstd::arithmetic::power::pow(256, i)) % 256,
    decreases width,
{
    lemma_le_bytes_len(n, width);
    if i == 0 {
        vstd::arithmetic::power::lemma_pow0(256);
        assert(n as int / 1 == n);
    } else {
        let before = (i - 1) as nat;
        law_each_byte_is_a_digit_of_the_number(n / 256, (width - 1) as nat, before);
        assert(le_bytes(n, width)[i as int] == le_bytes(n / 256, (width - 1) as nat)[before as int]);
        reveal(vstd::arithmetic::power::pow);
        vstd::arithmetic::power::lemma_pow_positive(256, before);
        vstd::arithmetic::div_mod::lemma_div_denominator(
            n as int,
            256,
            vstd::arithmetic::power::pow(256, before),
        );
    }
}

/// A range of some content is there exactly where the content reaches to its end, and
/// holds byte for byte what the content holds from its offset on.
pub proof fn law_a_range_is_what_the_content_holds(content: Seq<u8>, offset: u64, len: u64)
    ensures
        byte_range(content, offset, len) is Some <==> offset + len <= content.len(),
        byte_range(content, offset, len) matches Some(r) ==> r.len() == len && forall|k: int|
            0 <= k < len ==> #[trigger] r[k] == content[offset + k],
{
}

} // verus!
