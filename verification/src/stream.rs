//! Streaming text: bytes arrive in pieces, whole characters leave.

use crate::bytes::push_bytes;
use crate::text::{copy_str, utf8_text};
use vstd::prelude::*;
use vstd::slice::slice_subrange;
use vstd::utf8::*;

verus! {

/// Whether bytes that are not text by themselves can still become text: some
/// bytes that may follow complete them.
pub open spec fn completable(tail: Seq<u8>) -> bool {
    exists|more: Seq<u8>| #[trigger] valid_utf8(tail + more)
}

/// Whether `n` is the length of the longest prefix that is text.
pub open spec fn longest_text(s: Seq<u8>, n: int) -> bool {
    &&& 0 <= n <= s.len()
    &&& valid_utf8(s.take(n))
    &&& forall|m: int| n < m <= s.len() ==> !valid_utf8(#[trigger] s.take(m))
}

/// Whether `r` and `held` are what some bytes come to: the text of the longest
/// prefix that is text, with the rest held back where it can still be completed;
/// an error, with everything held, where it cannot.
pub open spec fn drains(s: Seq<u8>, r: Option<Seq<char>>, held: Seq<u8>) -> bool {
    exists|n: int| #[trigger]
        longest_text(s, n) && (if completable(s.skip(n)) {
            r == Some(decode_utf8(s.take(n))) && held == s.skip(n)
        } else {
            r is None && held == s
        })
}

/// Whether a byte continues a character.
spec fn cont(b: u8) -> bool {
    0x80 <= b <= 0xbf
}

/// Whether up to three bytes are the beginning of a character that is not
/// complete.
spec fn begins(t: Seq<u8>) -> bool {
    ||| t.len() == 1 && 0xc2 <= t[0] <= 0xf4
    ||| t.len() == 2 && 0xe0 <= t[0] <= 0xf4 && second_fits(t[0], t[1])
    ||| t.len() == 3 && 0xf0 <= t[0] <= 0xf4 && second_fits(t[0], t[1]) && cont(t[2])
}

/// Whether the second byte of a character fits its first.
spec fn second_fits(a: u8, b: u8) -> bool {
    &&& cont(b)
    &&& a == 0xe0 ==> b >= 0xa0
    &&& a == 0xed ==> b <= 0x9f
    &&& a == 0xf0 ==> b >= 0x90
    &&& a == 0xf4 ==> b <= 0x8f
}

proof fn lemma_two(a: u8, b: u8)
    requires
        0xc0 <= a <= 0xdf,
    ensures
        a < 0xc2 ==> codepoint_width_2(a, b) < 0x80,
        a >= 0xc2 ==> 0x80 <= codepoint_width_2(a, b) <= 0x7ff,
{
    assert(a < 0xc2 ==> ((((a & 0x1F) as u32) << 6) | ((b & 0x3f) as u32)) < 0x80) by (bit_vector)
        requires
            0xc0 <= a <= 0xdf,
    ;
    assert(a >= 0xc2 ==> 0x80 <= ((((a & 0x1F) as u32) << 6) | ((b & 0x3f) as u32)) <= 0x7ff)
        by (bit_vector)
        requires
            0xc0 <= a <= 0xdf,
    ;
}

proof fn lemma_three(a: u8, b: u8, c: u8)
    requires
        0xe0 <= a <= 0xef,
        cont(b),
    ensures
        (a == 0xe0 && b < 0xa0) ==> codepoint_width_3(a, b, c) < 0x800,
        (a == 0xed && b > 0x9f) ==> 0xd800 <= codepoint_width_3(a, b, c) <= 0xdfff,
        second_fits(a, b) ==> 0x800 <= codepoint_width_3(a, b, c) && !(0xd800
            <= codepoint_width_3(a, b, c) <= 0xdfff),
{
    assert((a == 0xe0 && b < 0xa0) ==> ((((a & 0x0F) as u32) << 12) | (((b & 0x3f) as u32) << 6) | ((
    c & 0x3f) as u32)) < 0x800) by (bit_vector)
        requires
            0xe0 <= a <= 0xef,
            0x80 <= b <= 0xbf,
    ;
    assert((a == 0xed && b > 0x9f) ==> 0xd800 <= ((((a & 0x0F) as u32) << 12) | (((b & 0x3f) as u32)
        << 6) | ((c & 0x3f) as u32)) <= 0xdfff) by (bit_vector)
        requires
            0xe0 <= a <= 0xef,
            0x80 <= b <= 0xbf,
    ;
    assert((a == 0xe0 ==> b >= 0xa0) && (a == 0xed ==> b <= 0x9f) ==> 0x800 <= ((((a & 0x0F) as u32)
        << 12) | (((b & 0x3f) as u32) << 6) | ((c & 0x3f) as u32)) && !(0xd800 <= ((((a & 0x0F) as u32)
        << 12) | (((b & 0x3f) as u32) << 6) | ((c & 0x3f) as u32)) <= 0xdfff)) by (bit_vector)
        requires
            0xe0 <= a <= 0xef,
            0x80 <= b <= 0xbf,
    ;
}

proof fn lemma_four(a: u8, b: u8, c: u8, d: u8)
    requires
        0xf0 <= a <= 0xf7,
        cont(b),
    ensures
        a > 0xf4 ==> codepoint_width_4(a, b, c, d) > 0x10ffff,
        (a == 0xf0 && b < 0x90) ==> codepoint_width_4(a, b, c, d) < 0x10000,
        (a == 0xf4 && b > 0x8f) ==> codepoint_width_4(a, b, c, d) > 0x10ffff,
        a <= 0xf4 && second_fits(a, b) ==> 0x10000 <= codepoint_width_4(a, b, c, d) <= 0x10ffff,
{
    assert((a > 0xf4 || (a == 0xf4 && b > 0x8f)) ==> ((((a & 0x07) as u32) << 18) | (((b
        & 0x3f) as u32) << 12) | (((c & 0x3f) as u32) << 6) | ((d & 0x3f) as u32)) > 0x10ffff)
        by (bit_vector)
        requires
            0xf0 <= a <= 0xf7,
            0x80 <= b <= 0xbf,
    ;
    assert((a == 0xf0 && b < 0x90) ==> ((((a & 0x07) as u32) << 18) | (((b & 0x3f) as u32) << 12) | (((
    c & 0x3f) as u32) << 6) | ((d & 0x3f) as u32)) < 0x10000) by (bit_vector)
        requires
            0xf0 <= a <= 0xf7,
            0x80 <= b <= 0xbf,
    ;
    assert((a <= 0xf4 && (a == 0xf0 ==> b >= 0x90) && (a == 0xf4 ==> b <= 0x8f)) ==> 0x10000 <= ((((a
        & 0x07) as u32) << 18) | (((b & 0x3f) as u32) << 12) | (((c & 0x3f) as u32) << 6) | ((d
        & 0x3f) as u32)) <= 0x10ffff) by (bit_vector)
        requires
            0xf0 <= a <= 0xf7,
            0x80 <= b <= 0xbf,
    ;
}

/// The beginning of a character can be completed.
proof fn lemma_begins_completes(t: Seq<u8>)
    requires
        begins(t),
    ensures
        completable(t),
{
    let more = if t.len() == 1 {
        if t[0] < 0xe0 {
            seq![0x80u8]
        } else if t[0] == 0xe0 {
            seq![0xa0u8, 0x80]
        } else if t[0] < 0xf0 {
            seq![0x80u8, 0x80]
        } else if t[0] == 0xf0 {
            seq![0x90u8, 0x80, 0x80]
        } else {
            seq![0x80u8, 0x80, 0x80]
        }
    } else if t.len() == 2 {
        if t[0] < 0xf0 {
            seq![0x80u8]
        } else {
            seq![0x80u8, 0x80]
        }
    } else {
        seq![0x80u8]
    };
    let s = t + more;
    if t[0] < 0xe0 {
        lemma_two(s[0], s[1]);
    } else if t[0] < 0xf0 {
        lemma_three(s[0], s[1], s[2]);
    } else {
        lemma_four(s[0], s[1], s[2], s[3]);
    }
    assert(valid_first_scalar(s));
    assert(pop_first_scalar(s) =~= Seq::empty());
    assert(valid_utf8(pop_first_scalar(s)));
    assert(valid_utf8(t + more));
}

/// What is no text, and not the beginning of a character, cannot be completed.
proof fn lemma_others_do_not_complete(t: Seq<u8>)
    requires
        0 < t.len(),
        !begins(t),
        forall|m: int| 0 < m <= t.len() ==> !valid_utf8(#[trigger] t.take(m)),
    ensures
        !completable(t),
{
    assert forall|more: Seq<u8>| !(#[trigger] valid_utf8(t + more)) by {
        let s = t + more;
        if valid_utf8(s) {
            assert(valid_first_scalar(s));
            let n = length_of_first_scalar(s);
            assert(s[0] == t[0]);
            if s.len() > 1 && 0xc0 <= s[0] <= 0xdf {
                lemma_two(s[0], s[1]);
            }
            if s.len() > 2 && 0xe0 <= s[0] <= 0xef {
                lemma_three(s[0], s[1], s[2]);
            }
            if s.len() > 3 && 0xf0 <= s[0] <= 0xf7 {
                lemma_four(s[0], s[1], s[2], s[3]);
            }
            if n <= t.len() {
                // a whole character stands in front, so a prefix of `t` is text
                let p = t.take(n);
                assert(p =~= s.take(n));
                assert(valid_first_scalar(p)) by {
                    lemma_first_scalar_of_prefix(s);
                }
                assert(pop_first_scalar(p) =~= Seq::empty());
                assert(valid_utf8(pop_first_scalar(p)));
                assert(valid_utf8(t.take(n)));
            } else {
                assert(t.len() < n <= 4);
                if t.len() > 1 {
                    assert(s[1] == t[1]);
                }
                if t.len() > 2 {
                    assert(s[2] == t[2]);
                }
                assert(begins(t));
            }
        }
    }
}

proof fn lemma_first_scalar_of_prefix(s: Seq<u8>)
    requires
        valid_first_scalar(s),
    ensures
        valid_first_scalar(s.take(length_of_first_scalar(s))),
        length_of_first_scalar(s.take(length_of_first_scalar(s))) == length_of_first_scalar(s),
{
    let n = length_of_first_scalar(s);
    let p = s.take(n);
    assert(p[0] == s[0]);
    if n > 1 {
        assert(p[1] == s[1]);
    }
    if n > 2 {
        assert(p[2] == s[2]);
    }
    if n > 3 {
        assert(p[3] == s[3]);
    }
}

fn is_beginning(t: &[u8]) -> (r: bool)
    ensures
        r == begins(t@),
{
    let n: usize = t.len();
    if n == 0 || n > 3 {
        return false;
    }
    let a: u8 = t[0];
    if n == 1 {
        return 0xc2 <= a && a <= 0xf4;
    }
    let b: u8 = t[1];
    let fits: bool = 0x80 <= b && b <= 0xbf && !(a == 0xe0 && b < 0xa0) && !(a == 0xed && b > 0x9f)
        && !(a == 0xf0 && b < 0x90) && !(a == 0xf4 && b > 0x8f);
    if n == 2 {
        return 0xe0 <= a && a <= 0xf4 && fits;
    }
    0xf0 <= a && a <= 0xf4 && fits && 0x80 <= t[2] && t[2] <= 0xbf
}

proof fn lemma_completable_is_short(s: Seq<u8>, n: int)
    requires
        longest_text(s, n),
        completable(s.skip(n)),
    ensures
        s.len() - n <= 3,
{
    let t = s.skip(n);
    if t.len() > 3 {
        lemma_tail_has_no_text(s, n);
        assert(!begins(t));
        lemma_others_do_not_complete(t);
    }
}

/// No prefix of what stands behind the longest text is text.
proof fn lemma_tail_has_no_text(s: Seq<u8>, n: int)
    requires
        longest_text(s, n),
    ensures
        forall|m: int| 0 < m <= s.skip(n).len() ==> !valid_utf8(#[trigger] s.skip(n).take(m)),
{
    let t = s.skip(n);
    assert forall|m: int| 0 < m <= t.len() implies !valid_utf8(#[trigger] t.take(m)) by {
        if valid_utf8(t.take(m)) {
            valid_utf8_concat(s.take(n), t.take(m));
            assert(s.take(n) + t.take(m) =~= s.take(n + m));
            assert(valid_utf8(s.take(n + m)));
        }
    }
}

proof fn lemma_longest_exists(s: Seq<u8>, k: int)
    requires
        0 <= k <= s.len(),
        forall|m: int| k < m <= s.len() ==> !valid_utf8(#[trigger] s.take(m)),
    ensures
        exists|n: int| #[trigger] longest_text(s, n) && n <= k,
    decreases k,
{
    if valid_utf8(s.take(k)) {
        assert(longest_text(s, k));
    } else if k == 0 {
        assert(s.take(0).len() == 0);
        assert(valid_utf8(s.take(0)));
    } else {
        lemma_longest_exists(s, k - 1);
        let n = choose|n: int| #[trigger] longest_text(s, n) && n <= k - 1;
        assert(longest_text(s, n) && n <= k);
    }
}

/// The stream can no longer become text.
#[derive(Debug, Clone, Copy, PartialEq, Eq, Structural)]
pub struct InvalidUtf8;

/// The text of a result.
pub open spec fn text_of(r: Result<String, InvalidUtf8>) -> Option<Seq<char>> {
    match r {
        Ok(s) => Some(s@),
        Err(_) => None,
    }
}

/// Advance a stream: append `buf` to the held bytes and split off everything that
/// forms whole characters. Up to three bytes of a character whose rest has not
/// arrived stay held; bytes that nothing could complete are an error.
pub fn drain_complete_utf8(pending: &mut Vec<u8>, buf: &[u8]) -> (r: Result<String, InvalidUtf8>)
    ensures
        drains(old(pending)@ + buf@, text_of(r), final(pending)@),
{
    push_bytes(pending, buf);
    let ghost all = pending@;
    let len: usize = pending.len();
    let mut back: usize = 0;
    while back <= 3 && back <= len
        invariant
            back <= 4,
            back <= len + 1,
            len == all.len(),
            all == old(pending)@ + buf@,
            pending@ == all,
            forall|m: int| len - back < m <= len ==> !valid_utf8(#[trigger] all.take(m)),
        decreases 4 - back,
    {
        let n: usize = len - back;
        let head = slice_subrange(pending.as_slice(), 0, n);
        proof {
            assert(head@ =~= all.take(n as int));
        }
        if let Some(text) = utf8_text(head) {
            let done = copy_str(text);
            let tail = vstd::slice::slice_to_vec(slice_subrange(pending.as_slice(), n, len));
            proof {
                assert(tail@ =~= all.skip(n as int));
                assert(longest_text(all, n as int));
                lemma_tail_has_no_text(all, n as int);
            }
            if n == len {
                proof {
                    assert(valid_utf8(all.skip(n as int) + Seq::<u8>::empty())) by {
                        assert((all.skip(n as int) + Seq::<u8>::empty()).len() == 0);
                    }
                    assert(completable(all.skip(n as int)));
                }
                *pending = tail;
                return Ok(done);
            }
            if is_beginning(tail.as_slice()) {
                proof {
                    lemma_begins_completes(tail@);
                }
                *pending = tail;
                return Ok(done);
            }
            proof {
                lemma_others_do_not_complete(tail@);
            }
            return Err(InvalidUtf8);
        }
        back += 1;
    }
    proof {
        let k: int = if len >= back {
            len - back
        } else {
            0
        };
        assert forall|m: int| k < m <= len implies !valid_utf8(#[trigger] all.take(m)) by {}
        lemma_longest_exists(all, k);
        let n = choose|n: int| #[trigger] longest_text(all, n) && n <= k;
        if len < back {
            // every prefix was tried, the empty one among them
            assert(all.take(0).len() == 0);
            assert(valid_utf8(all.take(0)));
        } else if completable(all.skip(n)) {
            lemma_completable_is_short(all, n);
        }
    }
    Err(InvalidUtf8)
}

/// The text that leaves and the bytes that stay are exactly the bytes that came:
/// nothing is lost, nothing is added, and a text is never cut inside a character.
pub proof fn law_draining_loses_nothing(s: Seq<u8>, text: Seq<char>, held: Seq<u8>)
    requires
        drains(s, Some(text), held),
    ensures
        encode_utf8(text) + held == s,
        held.len() <= 3,
        completable(held),
{
    let n = choose|n: int| #[trigger]
        longest_text(s, n) && (if completable(s.skip(n)) {
            Some(text) == Some(decode_utf8(s.take(n))) && held == s.skip(n)
        } else {
            Some(text) is None && held == s
        });
    decode_utf8_encode_utf8(s.take(n));
    assert(s.take(n) + s.skip(n) =~= s);
    lemma_completable_is_short(s, n);
}

/// Bytes that are text leave at once, with nothing held.
pub proof fn law_whole_text_leaves_at_once(s: Seq<u8>, r: Option<Seq<char>>, held: Seq<u8>)
    requires
        valid_utf8(s),
        drains(s, r, held),
    ensures
        r == Some(decode_utf8(s)),
        held == Seq::<u8>::empty(),
{
    let n = choose|n: int| #[trigger]
        longest_text(s, n) && (if completable(s.skip(n)) {
            r == Some(decode_utf8(s.take(n))) && held == s.skip(n)
        } else {
            r is None && held == s
        });
    assert(s.take(s.len() as int) =~= s);
    assert(n == s.len()) by {
        if n < s.len() {
            assert(!valid_utf8(s.take(s.len() as int)));
        }
    }
    assert(s.skip(n) + Seq::<u8>::empty() =~= Seq::<u8>::empty());
    assert(valid_utf8(s.skip(n) + Seq::<u8>::empty()));
    assert(s.skip(n) =~= Seq::empty());
}

/// An error comes exactly when no bytes that may follow make the stream a text.
pub proof fn law_only_hopeless_bytes_are_refused(s: Seq<u8>, r: Option<Seq<char>>, held: Seq<u8>)
    requires
        drains(s, r, held),
    ensures
        r is None <==> !completable(s),
{
    let n = choose|n: int| #[trigger]
        longest_text(s, n) && (if completable(s.skip(n)) {
            r == Some(decode_utf8(s.take(n))) && held == s.skip(n)
        } else {
            r is None && held == s
        });
    let t = s.skip(n);
    if completable(t) {
        let more = choose|more: Seq<u8>| #[trigger] valid_utf8(t + more);
        valid_utf8_concat(s.take(n), t + more);
        assert(s.take(n) + (t + more) =~= s + more);
        assert(valid_utf8(s + more));
    }
    if completable(s) {
        let more = choose|more: Seq<u8>| #[trigger] valid_utf8(s + more);
        assert(s.take(n) + (t + more) =~= s + more);
        lemma_drop_text(s.take(n), t + more);
        assert(valid_utf8(t + more));
    }
}

/// What follows a text inside a text is text.
proof fn lemma_drop_text(a: Seq<u8>, b: Seq<u8>)
    requires
        valid_utf8(a),
        valid_utf8(a + b),
    ensures
        valid_utf8(b),
    decreases a.len(),
{
    if a.len() == 0 {
        assert(a + b =~= b);
    } else {
        let s = a + b;
        assert(valid_first_scalar(a));
        let n = length_of_first_scalar(a);
        assert(s[0] == a[0]);
        if n > 1 {
            assert(s[1] == a[1]);
        }
        if n > 2 {
            assert(s[2] == a[2]);
        }
        if n > 3 {
            assert(s[3] == a[3]);
        }
        assert(length_of_first_scalar(s) == n);
        assert(pop_first_scalar(s) =~= pop_first_scalar(a) + b);
        lemma_drop_text(pop_first_scalar(a), b);
    }
}

/// The texts and held bytes of a stream of writes: each write drains what was
/// held together with what came.
pub open spec fn streams(
    held: Seq<u8>,
    writes: Seq<Seq<u8>>,
    deltas: Seq<Seq<char>>,
    left: Seq<u8>,
) -> bool
    decreases writes.len(),
{
    if writes.len() == 0 {
        deltas.len() == 0 && left == held
    } else {
        &&& deltas.len() == writes.len()
        &&& exists|mid: Seq<u8>| #[trigger]
            drains(held + writes[0], Some(deltas[0]), mid) && streams(
                mid,
                writes.skip(1),
                deltas.skip(1),
                left,
            )
    }
}

/// Bytes one behind the other.
pub open spec fn all_bytes(writes: Seq<Seq<u8>>) -> Seq<u8>
    decreases writes.len(),
{
    if writes.len() == 0 {
        Seq::empty()
    } else {
        writes[0] + all_bytes(writes.skip(1))
    }
}

/// Texts one behind the other.
pub open spec fn all_text(deltas: Seq<Seq<char>>) -> Seq<char>
    decreases deltas.len(),
{
    if deltas.len() == 0 {
        Seq::empty()
    } else {
        deltas[0] + all_text(deltas.skip(1))
    }
}

/// However a stream is cut into writes, the texts that left, one behind the
/// other, with what is still held, are the bytes that were written.
pub proof fn law_deltas_accumulate_to_the_stream(
    held: Seq<u8>,
    writes: Seq<Seq<u8>>,
    deltas: Seq<Seq<char>>,
    left: Seq<u8>,
)
    requires
        streams(held, writes, deltas, left),
    ensures
        encode_utf8(all_text(deltas)) + left == held + all_bytes(writes),
    decreases writes.len(),
{
    if writes.len() == 0 {
        assert(encode_utf8(all_text(deltas)) =~= Seq::empty());
        assert(encode_utf8(all_text(deltas)) + left =~= held + all_bytes(writes));
    } else {
        let mid = choose|mid: Seq<u8>| #[trigger]
            drains(held + writes[0], Some(deltas[0]), mid) && streams(
                mid,
                writes.skip(1),
                deltas.skip(1),
                left,
            );
        law_draining_loses_nothing(held + writes[0], deltas[0], mid);
        law_deltas_accumulate_to_the_stream(mid, writes.skip(1), deltas.skip(1), left);
        let rest = all_text(deltas.skip(1));
        lemma_encode_concat(deltas[0], rest);
        lemma_rejoin(
            encode_utf8(deltas[0]),
            encode_utf8(rest),
            left,
            mid,
            held,
            writes[0],
            all_bytes(writes.skip(1)),
        );
    }
}

proof fn lemma_rejoin(
    x: Seq<u8>,
    y: Seq<u8>,
    left: Seq<u8>,
    mid: Seq<u8>,
    held: Seq<u8>,
    first: Seq<u8>,
    rest: Seq<u8>,
)
    requires
        x + mid == held + first,
        y + left == mid + rest,
    ensures
        x + y + left == held + (first + rest),
{
    assert(x + y + left =~= x + (y + left));
    assert(x + (mid + rest) =~= (x + mid) + rest);
    assert((held + first) + rest =~= held + (first + rest));
}

/// What a stream holds back at its end is never text, nor begins with text.
proof fn lemma_left_has_no_text(
    held: Seq<u8>,
    writes: Seq<Seq<u8>>,
    deltas: Seq<Seq<char>>,
    left: Seq<u8>,
)
    requires
        streams(held, writes, deltas, left),
        forall|m: int| 0 < m <= held.len() ==> !valid_utf8(#[trigger] held.take(m)),
    ensures
        forall|m: int| 0 < m <= left.len() ==> !valid_utf8(#[trigger] left.take(m)),
    decreases writes.len(),
{
    if writes.len() > 0 {
        let mid = choose|mid: Seq<u8>| #[trigger]
            drains(held + writes[0], Some(deltas[0]), mid) && streams(
                mid,
                writes.skip(1),
                deltas.skip(1),
                left,
            );
        let s = held + writes[0];
        let n = choose|n: int| #[trigger]
            longest_text(s, n) && (if completable(s.skip(n)) {
                Some(deltas[0]) == Some(decode_utf8(s.take(n))) && mid == s.skip(n)
            } else {
                Some(deltas[0]) is None && mid == s
            });
        lemma_tail_has_no_text(s, n);
        lemma_left_has_no_text(mid, writes.skip(1), deltas.skip(1), left);
    }
}

/// Where the bytes written to a fresh stream are a text, the texts that left it,
/// one behind the other, are that text, and nothing is held back.
pub proof fn law_a_finished_text_was_sent_whole(
    writes: Seq<Seq<u8>>,
    deltas: Seq<Seq<char>>,
    left: Seq<u8>,
)
    requires
        streams(Seq::empty(), writes, deltas, left),
        valid_utf8(all_bytes(writes)),
    ensures
        left == Seq::<u8>::empty(),
        all_text(deltas) == decode_utf8(all_bytes(writes)),
{
    let sent = all_text(deltas);
    law_deltas_accumulate_to_the_stream(Seq::empty(), writes, deltas, left);
    assert(Seq::<u8>::empty() + all_bytes(writes) =~= all_bytes(writes));
    encode_utf8_valid_utf8(sent);
    lemma_drop_text(encode_utf8(sent), left);
    lemma_left_has_no_text(Seq::empty(), writes, deltas, left);
    if left.len() > 0 {
        assert(left.take(left.len() as int) =~= left);
    }
    assert(left =~= Seq::empty());
    assert(encode_utf8(sent) + left =~= encode_utf8(sent));
    encode_utf8_decode_utf8(sent);
}

/// The text does not show how its bytes were cut: two walks that write the same text,
/// one a token at a time and the other several at once, hand their listeners the same
/// text in all, which is the text that each returns.
pub proof fn law_the_text_does_not_show_its_cuts(
    a_writes: Seq<Seq<u8>>,
    a_deltas: Seq<Seq<char>>,
    a_left: Seq<u8>,
    b_writes: Seq<Seq<u8>>,
    b_deltas: Seq<Seq<char>>,
    b_left: Seq<u8>,
)
    requires
        streams(Seq::empty(), a_writes, a_deltas, a_left),
        streams(Seq::empty(), b_writes, b_deltas, b_left),
        all_bytes(a_writes) == all_bytes(b_writes),
        valid_utf8(all_bytes(a_writes)),
    ensures
        all_text(a_deltas) == all_text(b_deltas),
        all_text(a_deltas) == decode_utf8(all_bytes(a_writes)),
        all_text(b_deltas) == decode_utf8(all_bytes(b_writes)),
{
    law_a_finished_text_was_sent_whole(a_writes, a_deltas, a_left);
    law_a_finished_text_was_sent_whole(b_writes, b_deltas, b_left);
}

proof fn lemma_encode_concat(a: Seq<char>, b: Seq<char>)
    ensures
        encode_utf8(a + b) == encode_utf8(a) + encode_utf8(b),
    decreases a.len(),
{
    if a.len() == 0 {
        assert(a + b =~= b);
        assert(encode_utf8(a) + encode_utf8(b) =~= encode_utf8(b));
    } else {
        assert((a + b).drop_first() =~= a.drop_first() + b);
        lemma_encode_concat(a.drop_first(), b);
        assert(encode_utf8(a + b) =~= encode_utf8(a) + encode_utf8(b));
    }
}

/// A sink for generated text: it accumulates every byte, and where there is a
/// listener, hands out what newly forms whole characters.
pub struct CallbackSink {
    buffer: Vec<u8>,
    pending: Vec<u8>,
    listening: bool,
}

impl CallbackSink {
    /// Every byte written.
    pub closed spec fn written(&self) -> Seq<u8> {
        self.buffer@
    }

    /// The bytes held back from the listener.
    pub closed spec fn held(&self) -> Seq<u8> {
        self.pending@
    }

    /// Whether there is a listener.
    pub closed spec fn listens(&self) -> bool {
        self.listening
    }

    /// An empty sink.
    pub fn new(listening: bool) -> (r: CallbackSink)
        ensures
            r.written() == Seq::<u8>::empty(),
            r.held() == Seq::<u8>::empty(),
            r.listens() == listening,
    {
        CallbackSink { buffer: Vec::new(), pending: Vec::new(), listening }
    }

    /// Take some bytes; the text to be handed to the listener, or an error where
    /// the stream can no longer become text. Without a listener the text is empty.
    pub fn write(&mut self, buf: &[u8]) -> (r: Result<String, InvalidUtf8>)
        ensures
            final(self).written() == old(self).written() + buf@,
            final(self).listens() == old(self).listens(),
            !old(self).listens() ==> text_of(r) == Some(Seq::<char>::empty()),
            !old(self).listens() ==> final(self).held() == old(self).held(),
            old(self).listens() ==> drains(
                old(self).held() + buf@,
                text_of(r),
                final(self).held(),
            ),
    {
        push_bytes(&mut self.buffer, buf);
        if !self.listening {
            let s: String = String::new();
            proof {
                assert(s@ =~= Seq::empty());
            }
            return Ok(s);
        }
        drain_complete_utf8(&mut self.pending, buf)
    }

    /// The whole text; an error where the bytes are no text.
    pub fn finish(self) -> (r: Result<String, InvalidUtf8>)
        ensures
            match r {
                Ok(s) => valid_utf8(self.written()) && s@ == decode_utf8(self.written()),
                Err(_) => !valid_utf8(self.written()),
            },
    {
        match utf8_text(self.buffer.as_slice()) {
            Some(text) => Ok(copy_str(text)),
            None => Err(InvalidUtf8),
        }
    }
}

/// What is held back holds no text: no beginning of it is a text, so everything that
/// could be sent was sent. Bytes that were refused are all held.
pub proof fn law_what_is_held_holds_no_text(s: Seq<u8>, r: Option<Seq<char>>, held: Seq<u8>)
    requires
        drains(s, r, held),
    ensures
        r is Some ==> forall|m: int|
            0 < m <= held.len() ==> !valid_utf8(#[trigger] held.take(m)),
        r is None ==> held == s,
{
    let n = choose|n: int| #[trigger]
        longest_text(s, n) && (if completable(s.skip(n)) {
            r == Some(decode_utf8(s.take(n))) && held == s.skip(n)
        } else {
            r is None && held == s
        });
    if r is Some {
        assert forall|m: int| 0 < m <= held.len() implies !valid_utf8(#[trigger] held.take(m)) by {
            if valid_utf8(held.take(m)) {
                valid_utf8_concat(s.take(n), held.take(m));
                assert(s.take(n) + held.take(m) =~= s.take(n + m));
                assert(!valid_utf8(s.take(n + m)));
            }
        }
    }
}

/// Some bytes drain in one way only.
pub proof fn law_bytes_drain_in_one_way(
    s: Seq<u8>,
    a: Option<Seq<char>>,
    a_held: Seq<u8>,
    b: Option<Seq<char>>,
    b_held: Seq<u8>,
)
    requires
        drains(s, a, a_held),
        drains(s, b, b_held),
    ensures
        a == b,
        a_held == b_held,
{
    let n = choose|n: int| #[trigger]
        longest_text(s, n) && (if completable(s.skip(n)) {
            a == Some(decode_utf8(s.take(n))) && a_held == s.skip(n)
        } else {
            a is None && a_held == s
        });
    let m = choose|m: int| #[trigger]
        longest_text(s, m) && (if completable(s.skip(m)) {
            b == Some(decode_utf8(s.take(m))) && b_held == s.skip(m)
        } else {
            b is None && b_held == s
        });
    assert(n == m) by {
        if n < m {
            assert(!valid_utf8(s.take(m)));
        }
        if m < n {
            assert(!valid_utf8(s.take(n)));
        }
    }
}

/// A sink that was written to twice finishes with the text of the bytes of both writes,
/// in their order, whether anyone listens or not.
pub proof fn law_a_finished_text_is_what_was_written(
    listening: bool,
    start: CallbackSink,
    first: &mut CallbackSink,
    second: &mut CallbackSink,
    x: &[u8],
    y: &[u8],
    sent: Result<String, InvalidUtf8>,
    then_sent: Result<String, InvalidUtf8>,
    text: Result<String, InvalidUtf8>,
)
    requires
        call_ensures(CallbackSink::new, (listening,), start),
        *first == start,
        call_ensures(CallbackSink::write, (first, x), sent),
        *second == *final(first),
        call_ensures(CallbackSink::write, (second, y), then_sent),
        call_ensures(CallbackSink::finish, (*final(second),), text),
    ensures
        text is Ok <==> valid_utf8(x@ + y@),
        text is Ok ==> text->Ok_0@ == decode_utf8(x@ + y@),
        !listening ==> (sent matches Ok(s) && s@.len() == 0),
        !listening ==> (then_sent matches Ok(s) && s@.len() == 0),
{
    assert(start.written() + x@ + y@ =~= x@ + y@);
}

} // verus!
