//! Characters, strings and decimal numbers.
//!
//! Text is modelled by its sequence of characters. The parsers of this crate
//! work on a vector of characters, and the functions here lead from `&str` to
//! such a vector and back.

use vstd::prelude::*;
use vstd::string::*;

verus! {

/// `String::push` appends one character.
pub assume_specification[ String::push ](s: &mut String, c: char)
    ensures
        final(s)@ == old(s)@.push(c),
;

/// `std::str::from_utf8` accepts exactly the valid UTF-8 sequences and hands
/// back the text that they encode.
#[verifier::external_body]
pub(crate) fn utf8_text(bytes: &[u8]) -> (text: Option<&str>)
    ensures
        match text {
            Some(t) => vstd::utf8::valid_utf8(bytes@) && t@ == vstd::utf8::decode_utf8(bytes@),
            None => !vstd::utf8::valid_utf8(bytes@),
        },
{
    std::str::from_utf8(bytes).ok()
}

/// The characters of `s`, in order.
pub fn chars_of(s: &str) -> (chars: Vec<char>)
    ensures
        chars@ == s@,
{
    let mut chars: Vec<char> = Vec::new();
    for c in it: s.chars()
        invariant
            it.seq() == s@,
            chars@ == s@.take(it.index()),
    {
        proof {
            assert(s@.take(it.index() + 1) =~= s@.take(it.index()).push(s@[it.index()]));
        }
        chars.push(c);
    }
    proof {
        assert(s@.take(s@.len() as int) =~= s@);
    }
    chars
}

/// The string that holds exactly `chars`.
pub fn string_of(chars: &[char]) -> (s: String)
    ensures
        s@ == chars@,
{
    let mut s: String = String::new();
    let mut i: usize = 0;
    while i < chars.len()
        invariant
            i <= chars@.len(),
            s@ == chars@.take(i as int),
        decreases chars@.len() - i,
    {
        proof {
            assert(chars@.take(i + 1) =~= chars@.take(i as int).push(chars@[i as int]));
        }
        s.push(chars[i]);
        i += 1;
    }
    proof {
        assert(chars@.take(chars@.len() as int) =~= chars@);
    }
    s
}

/// A copy of `s`.
pub fn copy_str(s: &str) -> (r: String)
    ensures
        r@ == s@,
{
    s.to_owned()
}

/// Whether two strings hold the same characters.
pub fn same_text(a: &str, b: &str) -> (r: bool)
    ensures
        r == (a@ == b@),
{
    let x = chars_of(a);
    let y = chars_of(b);
    same_chars(x.as_slice(), y.as_slice())
}

/// Whether two character slices are equal.
pub fn same_chars(a: &[char], b: &[char]) -> (r: bool)
    ensures
        r == (a@ == b@),
{
    if a.len() != b.len() {
        return false;
    }
    let mut i: usize = 0;
    while i < a.len()
        invariant
            i <= a@.len(),
            a@.len() == b@.len(),
            forall|k: int| 0 <= k < i ==> a@[k] == b@[k],
        decreases a@.len() - i,
    {
        if a[i] != b[i] {
            return false;
        }
        i += 1;
    }
    proof {
        assert(a@ =~= b@);
    }
    true
}

/// Whether two byte slices are equal.
pub fn same_bytes(a: &[u8], b: &[u8]) -> (r: bool)
    ensures
        r == (a@ == b@),
{
    if a.len() != b.len() {
        return false;
    }
    let mut i: usize = 0;
    while i < a.len()
        invariant
            i <= a@.len(),
            a@.len() == b@.len(),
            forall|k: int| 0 <= k < i ==> a@[k] == b@[k],
        decreases a@.len() - i,
    {
        if a[i] != b[i] {
            return false;
        }
        i += 1;
    }
    proof {
        assert(a@ =~= b@);
    }
    true
}

/// Whether `s` begins with `prefix`.
pub open spec fn starts_with<T>(s: Seq<T>, prefix: Seq<T>) -> bool {
    prefix.len() <= s.len() && s.take(prefix.len() as int) == prefix
}

/// Whether `chars` begins with the text of `prefix`.
pub fn has_prefix(chars: &[char], prefix: &str) -> (r: bool)
    ensures
        r == starts_with(chars@, prefix@),
{
    let p = chars_of(prefix);
    if p.len() > chars.len() {
        return false;
    }
    same_chars(vstd::slice::slice_subrange(chars, 0, p.len()), p.as_slice())
}

/// The first position at which `needle` occurs in `s`, from `from` on.
pub open spec fn find_from<T>(s: Seq<T>, needle: Seq<T>, from: int) -> Option<int>
    decreases s.len() + 1 - from,
{
    if from < 0 || from + needle.len() > s.len() {
        None
    } else if s.subrange(from, from + needle.len() as int) == needle {
        Some(from)
    } else {
        find_from(s, needle, from + 1)
    }
}

/// The first position at which `needle` occurs in `s`.
pub open spec fn find<T>(s: Seq<T>, needle: Seq<T>) -> Option<int> {
    find_from(s, needle, 0)
}

/// The first position at which the text of `needle` occurs in `chars`.
pub fn find_text(chars: &[char], needle: &str) -> (r: Option<usize>)
    ensures
        match r {
            Some(i) => find(chars@, needle@) == Some(i as int) && i + needle@.len() <= chars@.len(),
            None => find(chars@, needle@) == None::<int>,
        },
{
    let p = chars_of(needle);
    let n: usize = p.len();
    if n > chars.len() {
        return None;
    }
    let len: usize = chars.len();
    let last: usize = len - n;
    let mut i: usize = 0;
    while i <= last
        invariant
            i <= last + 1,
            p@ == needle@,
            n == p@.len(),
            len == chars@.len(),
            last + n == len,
            find(chars@, needle@) == find_from(chars@, needle@, i as int),
        decreases last + 1 - i,
    {
        if same_chars(vstd::slice::slice_subrange(chars, i, i + n), p.as_slice()) {
            return Some(i);
        }
        if i == last {
            return None;
        }
        i += 1;
    }
    None
}

/// What stands before the first occurrence holds it at no earlier place.
pub proof fn lemma_find_behind<T>(a: Seq<T>, needle: Seq<T>, b: Seq<T>)
    requires
        needle.len() > 0,
        forall|i: int| 0 <= i < a.len() ==> a[i] != needle[0],
    ensures
        find(a + needle + b, needle) == Some(a.len() as int),
{
    lemma_find_from_behind(a, needle, b, 0);
}

proof fn lemma_find_from_behind<T>(a: Seq<T>, needle: Seq<T>, b: Seq<T>, from: int)
    requires
        0 <= from <= a.len(),
        needle.len() > 0,
        forall|i: int| 0 <= i < a.len() ==> a[i] != needle[0],
    ensures
        find_from(a + needle + b, needle, from) == Some(a.len() as int),
    decreases a.len() - from,
{
    let s = a + needle + b;
    let part = s.subrange(from, from + needle.len() as int);
    if from == a.len() {
        assert(part =~= needle);
    } else {
        assert(part[0] == a[from]);
        assert(part != needle);
        lemma_find_from_behind(a, needle, b, from + 1);
    }
}

/// A sequence without the first element of `needle` does not hold it.
pub proof fn lemma_find_nothing<T>(s: Seq<T>, needle: Seq<T>)
    requires
        needle.len() > 0,
        forall|i: int| 0 <= i < s.len() ==> s[i] != needle[0],
    ensures
        find(s, needle) == None::<int>,
{
    lemma_find_from_nothing(s, needle, 0);
}

proof fn lemma_find_from_nothing<T>(s: Seq<T>, needle: Seq<T>, from: int)
    requires
        0 <= from,
        needle.len() > 0,
        forall|i: int| 0 <= i < s.len() ==> s[i] != needle[0],
    ensures
        find_from(s, needle, from) == None::<int>,
    decreases s.len() + 1 - from,
{
    if from + needle.len() <= s.len() {
        let part = s.subrange(from, from + needle.len() as int);
        assert(part[0] == s[from]);
        lemma_find_from_nothing(s, needle, from + 1);
    }
}

/// The place at which a sequence is found lies inside the other.
pub proof fn lemma_find_bounds<T>(s: Seq<T>, needle: Seq<T>, from: int)
    requires
        0 <= from,
    ensures
        find_from(s, needle, from) matches Some(i) ==> from <= i && i + needle.len() <= s.len()
            && s.subrange(i, i + needle.len() as int) == needle,
    decreases s.len() + 1 - from,
{
    if from + needle.len() <= s.len() {
        if s.subrange(from, from + needle.len() as int) != needle {
            lemma_find_bounds(s, needle, from + 1);
        }
    }
}

/// Whether `c` has the Unicode property `White_Space`.
pub open spec fn is_white_space(c: char) -> bool {
    let n = c as u32;
    ||| 9 <= n <= 13
    ||| n == 0x20
    ||| n == 0x85
    ||| n == 0xa0
    ||| n == 0x1680
    ||| 0x2000 <= n <= 0x200a
    ||| n == 0x2028
    ||| n == 0x2029
    ||| n == 0x202f
    ||| n == 0x205f
    ||| n == 0x3000
}

/// Whether every character of `s` is white space.
pub open spec fn is_blank(s: Seq<char>) -> bool {
    forall|i: int| 0 <= i < s.len() ==> is_white_space(#[trigger] s[i])
}

/// Whether `c` is white space.
pub fn white_space(c: char) -> (r: bool)
    ensures
        r == is_white_space(c),
{
    let n: u32 = c as u32;
    (9 <= n && n <= 13) || n == 0x20 || n == 0x85 || n == 0xa0 || n == 0x1680 || (0x2000 <= n && n
        <= 0x200a) || n == 0x2028 || n == 0x2029 || n == 0x202f || n == 0x205f || n == 0x3000
}

/// Whether every character is white space.
pub fn blank(chars: &[char]) -> (r: bool)
    ensures
        r == is_blank(chars@),
{
    let mut i: usize = 0;
    while i < chars.len()
        invariant
            i <= chars@.len(),
            forall|k: int| 0 <= k < i ==> is_white_space(#[trigger] chars@[k]),
        decreases chars@.len() - i,
    {
        if !white_space(chars[i]) {
            return false;
        }
        i += 1;
    }
    true
}

/// Whether `c` is a decimal digit.
pub open spec fn is_digit(c: char) -> bool {
    '0' <= c <= '9'
}

/// The number that a sequence of decimal digits spells.
pub open spec fn digits_value(s: Seq<char>) -> nat
    decreases s.len(),
{
    if s.len() == 0 {
        0
    } else {
        10 * digits_value(s.drop_last()) + (s.last() as nat - '0' as nat) as nat
    }
}

/// The digits of an unsigned number: an optional leading `+` is dropped.
pub open spec fn unsigned_digits(s: Seq<char>) -> Seq<char> {
    if s.len() > 0 && s[0] == '+' {
        s.skip(1)
    } else {
        s
    }
}

/// The unsigned number that `s` spells, if it spells one of at most `max`: an
/// optional `+`, then at least one decimal digit and nothing else.
pub open spec fn unsigned(s: Seq<char>, max: nat) -> Option<nat> {
    let d = unsigned_digits(s);
    if d.len() > 0 && (forall|i: int| 0 <= i < d.len() ==> is_digit(#[trigger] d[i]))
        && digits_value(d) <= max {
        Some(digits_value(d))
    } else {
        None
    }
}

proof fn lemma_digits_value_grows(s: Seq<char>, n: int)
    requires
        0 <= n <= s.len(),
        forall|i: int| 0 <= i < s.len() ==> is_digit(#[trigger] s[i]),
    ensures
        digits_value(s.take(n)) <= digits_value(s),
    decreases s.len() - n,
{
    if n == s.len() {
        assert(s.take(n) =~= s);
    } else {
        lemma_digits_value_grows(s, n + 1);
        assert(s.take(n + 1).drop_last() =~= s.take(n));
    }
}

/// Parse an unsigned number of at most `max`.
pub fn parse_unsigned(chars: &[char], max: u64) -> (r: Option<u64>)
    ensures
        match r {
            Some(v) => unsigned(chars@, max as nat) == Some(v as nat),
            None => unsigned(chars@, max as nat) == None::<nat>,
        },
{
    let start: usize = if chars.len() > 0 && chars[0] == '+' {
        1
    } else {
        0
    };
    let ghost d = unsigned_digits(chars@);
    proof {
        assert(d =~= chars@.skip(start as int));
    }
    if start == chars.len() {
        return None;
    }
    let mut value: u64 = 0;
    let mut i: usize = start;
    while i < chars.len()
        invariant
            start <= i <= chars@.len(),
            start < chars@.len(),
            d == unsigned_digits(chars@),
            d == chars@.skip(start as int),
            forall|k: int| 0 <= k < i - start ==> is_digit(#[trigger] d[k]),
            value == digits_value(d.take(i - start)),
            value <= max,
        decreases chars@.len() - i,
    {
        let c = chars[i];
        proof {
            assert(d[i - start] == c);
        }
        if !('0' <= c && c <= '9') {
            return None;
        }
        let digit: u64 = c as u64 - '0' as u64;
        proof {
            assert(d.take(i - start + 1).drop_last() =~= d.take(i - start));
            assert(digits_value(d.take(i - start + 1)) == 10 * value + digit);
        }
        if value > (max - value) / 9 || value * 9 > max - value || digit > max - value * 10 {
            proof {
                assert(10 * value + digit > max);
                if forall|k: int| 0 <= k < d.len() ==> is_digit(#[trigger] d[k]) {
                    lemma_digits_value_grows(d, i - start + 1);
                }
            }
            return None;
        }
        value = value * 10 + digit;
        i += 1;
    }
    proof {
        assert(d.take(d.len() as int) =~= d);
    }
    Some(value)
}

/// The decimal digits of `n`, without leading zeros.
pub open spec fn decimal(n: nat) -> Seq<char>
    decreases n,
{
    let last = seq![('0' as nat + n % 10) as char];
    if n < 10 {
        last
    } else {
        decimal(n / 10) + last
    }
}

/// The decimal form of a number spells that number.
pub proof fn lemma_decimal(n: nat)
    ensures
        decimal(n).len() > 0,
        forall|i: int| 0 <= i < decimal(n).len() ==> is_digit(#[trigger] decimal(n)[i]),
        digits_value(decimal(n)) == n,
    decreases n,
{
    let last = ('0' as nat + n % 10) as char;
    if n >= 10 {
        lemma_decimal(n / 10);
        assert(decimal(n).drop_last() =~= decimal(n / 10));
    } else {
        assert(decimal(n).drop_last() =~= Seq::<char>::empty());
        reveal_with_fuel(digits_value, 2);
    }
    assert(decimal(n).last() == last);
}

/// The decimal form of a number reads back as that number.
pub proof fn lemma_decimal_parses(n: nat, max: nat)
    requires
        n <= max,
    ensures
        unsigned(decimal(n), max) == Some(n),
{
    lemma_decimal(n);
    assert(is_digit(decimal(n)[0]));
}

/// Append the decimal form of `n`.
pub fn push_decimal(out: &mut Vec<char>, n: u64)
    ensures
        final(out)@ == old(out)@ + decimal(n as nat),
    decreases n,
{
    let digit: u8 = (n % 10) as u8;
    if n >= 10 {
        push_decimal(out, n / 10);
    }
    out.push((48 + digit) as char);
    proof {
        assert(out@ =~= old(out)@ + decimal(n as nat));
    }
}

/// A sequence is found at its first place: it stands there and at no earlier place, and
/// it is not found exactly where it stands nowhere.
pub proof fn law_the_first_place_is_found<T>(s: Seq<T>, needle: Seq<T>)
    ensures
        match find(s, needle) {
            Some(i) => 0 <= i && i + needle.len() <= s.len() && s.subrange(
                i,
                i + needle.len() as int,
            ) == needle && forall|k: int|
                0 <= k < i ==> #[trigger] s.subrange(k, k + needle.len() as int) != needle,
            None => forall|k: int|
                0 <= k && k + needle.len() <= s.len() ==> #[trigger] s.subrange(
                    k,
                    k + needle.len() as int,
                ) != needle,
        },
{
    lemma_find_first(s, needle, 0);
}

proof fn lemma_find_first<T>(s: Seq<T>, needle: Seq<T>, from: int)
    requires
        0 <= from,
    ensures
        match find_from(s, needle, from) {
            Some(i) => from <= i && i + needle.len() <= s.len() && s.subrange(
                i,
                i + needle.len() as int,
            ) == needle && forall|k: int|
                from <= k < i ==> #[trigger] s.subrange(k, k + needle.len() as int) != needle,
            None => forall|k: int|
                from <= k && k + needle.len() <= s.len() ==> #[trigger] s.subrange(
                    k,
                    k + needle.len() as int,
                ) != needle,
        },
    decreases s.len() + 1 - from,
{
    if from + needle.len() <= s.len() {
        if s.subrange(from, from + needle.len() as int) != needle {
            lemma_find_first(s, needle, from + 1);
        }
    }
}

/// A digit counts by its place: a single digit is its own value, and digits in front of
/// others count ten times as much for each of those.
pub proof fn law_a_digit_counts_by_its_place(a: Seq<char>, b: Seq<char>, k: int)
    requires
        0 <= k < 10,
    ensures
        digits_value(seq!["0123456789"@[k]]) == k,
        digits_value(a + b) == digits_value(a) * vstd::arithmetic::power::pow(10, b.len())
            + digits_value(b),
    decreases b.len(),
{
    reveal_strlit("0123456789");
    let one = seq!["0123456789"@[k]];
    assert(one.drop_last() =~= Seq::empty());
    assert(digits_value(Seq::<char>::empty()) == 0);
    assert("0123456789"@[k] as int == 48 + k);
    reveal(vstd::arithmetic::power::pow);
    if b.len() == 0 {
        assert(a + b =~= a);
        assert(digits_value(a) * 1 == digits_value(a));
    } else {
        let front = b.drop_last();
        law_a_digit_counts_by_its_place(a, front, k);
        assert((a + b).drop_last() =~= a + front);
        assert((a + b).last() == b.last());
        let v = digits_value(a) as int;
        let p = vstd::arithmetic::power::pow(10, front.len());
        assert(v * (10 * p) == 10 * (v * p)) by (nonlinear_arith);
    }
}

/// What spells an unsigned number: at least one digit and nothing else, of a value that
/// is not too large; a single `+` in front changes nothing.
pub proof fn law_what_spells_a_number(d: Seq<char>, max: nat)
    ensures
        d.len() > 0 && d[0] != '+' ==> unsigned(seq!['+'] + d, max) == unsigned(d, max),
        d.len() == 0 ==> unsigned(d, max) == None::<nat> && unsigned(seq!['+'] + d, max)
            == None::<nat>,
        d.len() > 0 && (forall|i: int| 0 <= i < d.len() ==> 48 <= #[trigger] d[i] as int <= 57)
            ==> unsigned(d, max) == (if digits_value(d) <= max {
            Some(digits_value(d))
        } else {
            None
        }),
        d.len() > 0 && d[0] != '+' && !(forall|i: int|
            0 <= i < d.len() ==> 48 <= #[trigger] d[i] as int <= 57) ==> unsigned(d, max)
            == None::<nat>,
        d.len() > 0 && d[0] == '+' ==> unsigned(seq!['+'] + d, max) == None::<nat>,
{
    let plus = seq!['+'] + d;
    assert(plus[0] == '+');
    assert(plus.skip(1) =~= d);
    if d.len() > 0 && (forall|i: int| 0 <= i < d.len() ==> 48 <= #[trigger] d[i] as int <= 57) {
        assert(48 <= d[0] as int);
        assert forall|i: int| 0 <= i < d.len() implies is_digit(#[trigger] d[i]) by {}
    }
    if d.len() > 0 && d[0] != '+' && !(forall|i: int|
        0 <= i < d.len() ==> 48 <= #[trigger] d[i] as int <= 57) {
        let i = choose|i: int| 0 <= i < d.len() && !(48 <= #[trigger] d[i] as int <= 57);
        assert(!is_digit(d[i]));
    }
    if d.len() > 0 && d[0] == '+' {
        assert(!is_digit(unsigned_digits(plus)[0]));
    }
}

/// A number is written in digits that spell it, without a zero in front of others.
pub proof fn law_a_number_is_written_in_its_digits(n: nat)
    ensures
        decimal(n).len() > 0,
        forall|i: int| 0 <= i < decimal(n).len() ==> 48 <= #[trigger] decimal(n)[i] as int <= 57,
        digits_value(decimal(n)) == n,
        decimal(n).len() > 1 ==> decimal(n)[0] != '0',
    decreases n,
{
    lemma_decimal(n);
    assert forall|i: int| 0 <= i < decimal(n).len() implies 48 <= #[trigger] decimal(n)[i] as int
        <= 57 by {
        assert(is_digit(decimal(n)[i]));
    }
    if n >= 10 {
        law_a_number_is_written_in_its_digits(n / 10);
        let m = n / 10;
        assert(decimal(n)[0] == decimal(m)[0]);
        if m < 10 {
            assert(decimal(m)[0] == ('0' as nat + m % 10) as char);
            assert(decimal(m)[0] as int == 48 + m);
        } else {
            lemma_decimal(m / 10);
            assert(decimal(m).len() > 1);
        }
    }
}

/// White space is the twenty-five characters of the Unicode property of that name.
pub proof fn law_what_white_space_is(c: char)
    ensures
        is_white_space(c) <==> seq![
            0x9int,
            0xA,
            0xB,
            0xC,
            0xD,
            0x20,
            0x85,
            0xA0,
            0x1680,
            0x2000,
            0x2001,
            0x2002,
            0x2003,
            0x2004,
            0x2005,
            0x2006,
            0x2007,
            0x2008,
            0x2009,
            0x200A,
            0x2028,
            0x2029,
            0x202F,
            0x205F,
            0x3000,
        ].contains(c as int),
{
    let all = seq![
        0x9int,
        0xA,
        0xB,
        0xC,
        0xD,
        0x20,
        0x85,
        0xA0,
        0x1680,
        0x2000,
        0x2001,
        0x2002,
        0x2003,
        0x2004,
        0x2005,
        0x2006,
        0x2007,
        0x2008,
        0x2009,
        0x200A,
        0x2028,
        0x2029,
        0x202F,
        0x205F,
        0x3000,
    ];
    let n = c as int;
    if 9 <= n <= 13 {
        assert(all[n - 9] == n);
    } else if 0x2000 <= n <= 0x200a {
        assert(all[n - 0x2000 + 9] == n);
    } else if is_white_space(c) {
        assert(all[5] == 0x20 && all[6] == 0x85 && all[7] == 0xA0 && all[8] == 0x1680);
        assert(all[20] == 0x2028 && all[21] == 0x2029 && all[22] == 0x202F && all[23] == 0x205F);
        assert(all[24] == 0x3000);
    }
}

} // verus!
