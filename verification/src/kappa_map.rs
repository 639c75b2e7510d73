//! The κ-map of an archive: which weight constant is bound to which content.
//!
//! The map is text, one binding a line: `ConstantId(<n>):<κ>` binds the whole
//! content of a label, `ConstantId(<n>):<κ>@<offset>+<len>` a slice of it.

use crate::text::{blank, chars_of, find_text, has_prefix, parse_unsigned, string_of, utf8_text};
use vstd::prelude::*;
use vstd::slice::slice_subrange;

verus! {

/// One binding of a κ-map: a graph constant and the content bound to it.
#[derive(Debug, Clone, PartialEq, Eq)]
pub struct KappaRequirement {
    /// The index of the graph constant that the weight occupies.
    pub constant: u32,
    /// The κ-label of the weight content.
    pub kappa: String,
    /// The byte range (offset, length) of the content that the constant binds;
    /// the label names, and verification covers, the whole content.
    pub range: Option<(u64, u64)>,
}

/// The model of a [`KappaRequirement`].
pub struct RequirementV {
    pub constant: u32,
    pub kappa: Seq<char>,
    pub range: Option<(u64, u64)>,
}

impl View for KappaRequirement {
    type V = RequirementV;

    open spec fn view(&self) -> RequirementV {
        RequirementV { constant: self.constant, kappa: self.kappa@, range: self.range }
    }
}

impl KappaRequirement {
    /// A copy of the binding.
    pub fn copy(&self) -> (r: KappaRequirement)
        ensures
            r@ == self@,
    {
        KappaRequirement { constant: self.constant, kappa: self.kappa.clone(), range: self.range }
    }
}

/// The models of a list of bindings.
pub open spec fn requirement_views(reqs: Seq<KappaRequirement>) -> Seq<RequirementV> {
    reqs.map_values(|r: KappaRequirement| r@)
}

/// What is wrong with a line of a κ-map.
#[derive(Debug, Clone, Copy, PartialEq, Eq, Structural)]
pub enum LineFault {
    /// The line is not of the form `ConstantId(..):..`.
    Shape,
    /// The constant id is no number of 32 bits.
    Constant,
    /// A range without a `+`.
    Range,
    /// The range offset is no number of 64 bits.
    Offset,
    /// The range length is no number of 64 bits.
    Length,
}

/// Why a κ-map cannot be read.
#[derive(Debug, Clone, PartialEq, Eq)]
pub enum MapError {
    /// The map is not UTF-8.
    NotUtf8,
    /// This line is malformed.
    Line { fault: LineFault, line: String },
}

/// The model of a [`MapError`].
pub enum MapErrorV {
    NotUtf8,
    Line { fault: LineFault, line: Seq<char> },
}

impl View for MapError {
    type V = MapErrorV;

    open spec fn view(&self) -> MapErrorV {
        match self {
            MapError::NotUtf8 => MapErrorV::NotUtf8,
            MapError::Line { fault, line } => MapErrorV::Line { fault: *fault, line: line@ },
        }
    }
}

/// The first line of a text: up to its first newline, without a carriage
/// return that stands directly before it; the whole text if it has no newline.
pub open spec fn first_line(text: Seq<char>) -> Seq<char> {
    match crate::text::find(text, seq!['\n']) {
        Some(i) => {
            let line = text.take(i);
            if line.len() > 0 && line.last() == '\r' {
                line.drop_last()
            } else {
                line
            }
        },
        None => text,
    }
}

/// What follows the first line and its newline.
pub open spec fn after_line(text: Seq<char>) -> Seq<char> {
    match crate::text::find(text, seq!['\n']) {
        Some(i) => text.skip(i + 1),
        None => Seq::empty(),
    }
}

/// The range that stands behind `@`.
pub open spec fn range_of(text: Seq<char>) -> Result<(u64, u64), LineFault> {
    match crate::text::find(text, "+"@) {
        None => Err(LineFault::Range),
        Some(i) => match crate::text::unsigned(text.take(i), u64::MAX as nat) {
            None => Err(LineFault::Offset),
            Some(offset) => match crate::text::unsigned(text.skip(i + 1), u64::MAX as nat) {
                None => Err(LineFault::Length),
                Some(len) => Ok((offset as u64, len as u64)),
            },
        },
    }
}

/// The binding that stands behind `ConstantId(<n>):`.
pub open spec fn target_of(constant: u32, text: Seq<char>) -> Result<RequirementV, LineFault> {
    match crate::text::find(text, "@"@) {
        None => Ok(RequirementV { constant, kappa: text, range: None }),
        Some(i) => match range_of(text.skip(i + 1)) {
            Err(fault) => Err(fault),
            Ok(range) => Ok(RequirementV { constant, kappa: text.take(i), range: Some(range) }),
        },
    }
}

/// The binding that one line states.
pub open spec fn binding_of(line: Seq<char>) -> Result<RequirementV, LineFault> {
    if !crate::text::starts_with(line, "ConstantId("@) {
        Err(LineFault::Shape)
    } else {
        let rest = line.skip("ConstantId("@.len() as int);
        match crate::text::find(rest, "):"@) {
            None => Err(LineFault::Shape),
            Some(i) => match crate::text::unsigned(rest.take(i), u32::MAX as nat) {
                None => Err(LineFault::Constant),
                Some(n) => target_of(n as u32, rest.skip(i + "):"@.len() as int)),
            },
        }
    }
}

/// The bindings of a text, line by line; blank lines are skipped, and the
/// first malformed line is the error.
pub open spec fn bindings_of(text: Seq<char>) -> Result<Seq<RequirementV>, MapErrorV>
    decreases text.len(),
    via bindings_of_decreases
{
    if text.len() == 0 {
        Ok(Seq::empty())
    } else {
        let line = first_line(text);
        if crate::text::is_blank(line) {
            bindings_of(after_line(text))
        } else {
            match binding_of(line) {
                Err(fault) => Err(MapErrorV::Line { fault, line }),
                Ok(req) => prepend(seq![req], bindings_of(after_line(text))),
            }
        }
    }
}

#[via_fn]
proof fn bindings_of_decreases(text: Seq<char>) {
    if text.len() > 0 {
        lemma_after_line(text);
    }
}

proof fn lemma_after_line(text: Seq<char>)
    requires
        text.len() > 0,
    ensures
        after_line(text).len() < text.len(),
{
    crate::text::lemma_find_bounds(text, seq!['\n'], 0);
}

/// A result with some bindings put before it.
pub open spec fn prepend(
    head: Seq<RequirementV>,
    tail: Result<Seq<RequirementV>, MapErrorV>,
) -> Result<Seq<RequirementV>, MapErrorV> {
    match tail {
        Ok(v) => Ok(head + v),
        Err(e) => Err(e),
    }
}

/// The bindings of a κ-map.
pub open spec fn map_bindings(bytes: Seq<u8>) -> Result<Seq<RequirementV>, MapErrorV> {
    if vstd::utf8::valid_utf8(bytes) {
        bindings_of(vstd::utf8::decode_utf8(bytes))
    } else {
        Err(MapErrorV::NotUtf8)
    }
}

fn parse_range(text: &[char]) -> (r: Result<(u64, u64), LineFault>)
    ensures
        r == range_of(text@),
{
    proof {
        reveal_strlit("+");
    }
    match find_text(text, "+") {
        None => Err(LineFault::Range),
        Some(i) => {
            let left = slice_subrange(text, 0, i);
            let end: usize = text.len();
            let right = slice_subrange(text, i + 1, end);
            proof {
                assert(left@ =~= text@.take(i as int));
                assert(right@ =~= text@.skip(i + 1));
            }
            match parse_unsigned(left, u64::MAX) {
                None => Err(LineFault::Offset),
                Some(offset) => match parse_unsigned(right, u64::MAX) {
                    None => Err(LineFault::Length),
                    Some(len) => Ok((offset, len)),
                },
            }
        },
    }
}

fn parse_target(constant: u32, text: &[char]) -> (r: Result<KappaRequirement, LineFault>)
    ensures
        match r {
            Ok(req) => target_of(constant, text@) == Ok::<RequirementV, LineFault>(req@),
            Err(e) => target_of(constant, text@) == Err::<RequirementV, LineFault>(e),
        },
{
    proof {
        reveal_strlit("@");
    }
    match find_text(text, "@") {
        None => Ok(KappaRequirement { constant, kappa: string_of(text), range: None }),
        Some(i) => {
            let left = slice_subrange(text, 0, i);
            let end: usize = text.len();
            let right = slice_subrange(text, i + 1, end);
            proof {
                assert(left@ =~= text@.take(i as int));
                assert(right@ =~= text@.skip(i + 1));
            }
            match parse_range(right) {
                Err(fault) => Err(fault),
                Ok(range) => Ok(
                    KappaRequirement { constant, kappa: string_of(left), range: Some(range) },
                ),
            }
        },
    }
}

fn parse_line(line: &[char]) -> (r: Result<KappaRequirement, LineFault>)
    ensures
        match r {
            Ok(req) => binding_of(line@) == Ok::<RequirementV, LineFault>(req@),
            Err(e) => binding_of(line@) == Err::<RequirementV, LineFault>(e),
        },
{
    proof {
        reveal_strlit("ConstantId(");
        reveal_strlit("):");
    }
    if !has_prefix(line, "ConstantId(") {
        return Err(LineFault::Shape);
    }
    let rest = slice_subrange(line, 11, line.len());
    proof {
        assert(rest@ =~= line@.skip("ConstantId("@.len() as int));
    }
    match find_text(rest, "):") {
        None => Err(LineFault::Shape),
        Some(i) => {
            let id = slice_subrange(rest, 0, i);
            let target = slice_subrange(rest, i + 2, rest.len());
            proof {
                assert(id@ =~= rest@.take(i as int));
                assert(target@ =~= rest@.skip(i + "):"@.len() as int));
            }
            match parse_unsigned(id, u32::MAX as u64) {
                None => Err(LineFault::Constant),
                Some(n) => parse_target(n as u32, target),
            }
        },
    }
}

/// Parse a κ-map.
pub fn parse_kappa_map(bytes: &[u8]) -> (r: Result<Vec<KappaRequirement>, MapError>)
    ensures
        match r {
            Ok(reqs) => map_bindings(bytes@) == Ok::<Seq<RequirementV>, MapErrorV>(
                requirement_views(reqs@),
            ),
            Err(e) => map_bindings(bytes@) == Err::<Seq<RequirementV>, MapErrorV>(e@),
        },
{
    let text = match utf8_text(bytes) {
        None => {
            return Err(MapError::NotUtf8);
        },
        Some(text) => text,
    };
    let chars = chars_of(text);
    let mut reqs: Vec<KappaRequirement> = Vec::new();
    let mut rest: &[char] = chars.as_slice();
    proof {
        assert(requirement_views(reqs@) =~= Seq::empty());
        let tail = bindings_of(rest@);
        if tail is Ok {
            assert(requirement_views(reqs@) + tail->Ok_0 =~= tail->Ok_0);
        }
    }
    while rest.len() > 0
        invariant
            map_bindings(bytes@) == prepend(requirement_views(reqs@), bindings_of(rest@)),
        decreases rest@.len(),
    {
        let ghost before = rest@;
        let ghost old_reqs = reqs@;
        proof {
            lemma_after_line(before);
            reveal_strlit("\n");
            assert("\n"@ =~= seq!['\n']);
        }
        let line: &[char];
        match find_text(rest, "\n") {
            Some(i) => {
                let stop: usize = if i > 0 && rest[i - 1] == '\r' {
                    i - 1
                } else {
                    i
                };
                line = slice_subrange(rest, 0, stop);
                rest = slice_subrange(rest, i + 1, rest.len());
                proof {
                    assert(line@ =~= first_line(before));
                    assert(rest@ =~= after_line(before));
                }
            },
            None => {
                line = rest;
                rest = slice_subrange(rest, 0, 0);
                proof {
                    assert(rest@ =~= after_line(before));
                }
            },
        }
        if !blank(line) {
            match parse_line(line) {
                Ok(req) => {
                    reqs.push(req);
                    proof {
                        let tail = bindings_of(rest@);
                        if tail is Ok {
                            assert(requirement_views(old_reqs) + (seq![req@] + tail->Ok_0)
                                =~= requirement_views(reqs@) + tail->Ok_0);
                        }
                    }
                },
                Err(fault) => {
                    return Err(MapError::Line { fault, line: string_of(line) });
                },
            }
        }
    }
    proof {
        assert(requirement_views(reqs@) + Seq::empty() =~= requirement_views(reqs@));
    }
    Ok(reqs)
}

/// The target of a binding as a κ-map writes it.
pub open spec fn target_text(req: RequirementV) -> Seq<char> {
    match req.range {
        None => req.kappa,
        Some((offset, len)) => req.kappa + "@"@ + (crate::text::decimal(offset as nat) + "+"@
            + crate::text::decimal(len as nat)),
    }
}

/// A binding as a line of a κ-map, with its newline.
pub open spec fn line_text(req: RequirementV) -> Seq<char> {
    "ConstantId("@ + (crate::text::decimal(req.constant as nat) + "):"@ + target_text(req)) + seq![
        '\n',
    ]
}

/// A list of bindings as a κ-map.
pub open spec fn map_text(reqs: Seq<RequirementV>) -> Seq<char>
    decreases reqs.len(),
{
    if reqs.len() == 0 {
        Seq::empty()
    } else {
        line_text(reqs[0]) + map_text(reqs.skip(1))
    }
}

/// Whether a label can stand in a line: it holds no `@` and no newline, and
/// where it ends the line, no carriage return at its end.
pub open spec fn writable(req: RequirementV) -> bool {
    &&& forall|i: int| 0 <= i < req.kappa.len() ==> req.kappa[i] != '@' && req.kappa[i] != '\n'
    &&& req.range is None && req.kappa.len() > 0 ==> req.kappa.last() != '\r'
}

proof fn lemma_target(constant: u32, req: RequirementV)
    requires
        writable(req),
        req.constant == constant,
    ensures
        target_of(constant, target_text(req)) == Ok::<RequirementV, LineFault>(req),
{
    reveal_strlit("@");
    reveal_strlit("+");
    let text = target_text(req);
    match req.range {
        None => {
            crate::text::lemma_find_nothing(text, "@"@);
        },
        Some((offset, len)) => {
            let a = crate::text::decimal(offset as nat);
            let b = crate::text::decimal(len as nat);
            let behind = a + "+"@ + b;
            crate::text::lemma_find_behind(req.kappa, "@"@, behind);
            let i = req.kappa.len() as int;
            assert(text.skip(i + 1) =~= behind);
            assert(text.take(i) =~= req.kappa);
            crate::text::lemma_decimal(offset as nat);
            crate::text::lemma_find_behind(a, "+"@, b);
            assert(behind.take(a.len() as int) =~= a);
            assert(behind.skip(a.len() as int + 1) =~= b);
            crate::text::lemma_decimal_parses(offset as nat, u64::MAX as nat);
            crate::text::lemma_decimal_parses(len as nat, u64::MAX as nat);
        },
    }
}

proof fn lemma_line(req: RequirementV, rest: Seq<char>)
    requires
        writable(req),
    ensures
        first_line(line_text(req) + rest) == line_text(req).drop_last(),
        after_line(line_text(req) + rest) == rest,
        !crate::text::is_blank(line_text(req).drop_last()),
        binding_of(line_text(req).drop_last()) == Ok::<RequirementV, LineFault>(req),
{
    reveal_strlit("ConstantId(");
    reveal_strlit("):");
    reveal_strlit("@");
    reveal_strlit("+");
    let id = crate::text::decimal(req.constant as nat);
    let target = target_text(req);
    let line = line_text(req).drop_last();
    let (offset, len) = req.range->0;
    crate::text::lemma_decimal(req.constant as nat);
    if req.range is Some {
        crate::text::lemma_decimal(offset as nat);
        crate::text::lemma_decimal(len as nat);
    }
    assert(line =~= "ConstantId("@ + (id + "):"@ + target));
    assert forall|i: int| 0 <= i < target.len() implies target[i] != '\n' by {
        if req.range is Some {
            let a = crate::text::decimal(offset as nat);
            let b = crate::text::decimal(len as nat);
            let k = req.kappa.len();
            if i > k && i < k + 1 + a.len() {
                assert(target[i] == a[i - k - 1]);
            } else if i > k + 1 + a.len() {
                assert(target[i] == b[i - k - 2 - a.len()]);
            }
        }
    }
    assert forall|i: int| 0 <= i < line.len() implies line[i] != '\n' by {
        if i < 11 {
            assert(line[i] == "ConstantId("@[i]);
        } else if i < 11 + id.len() {
            assert(line[i] == id[i - 11]);
        } else if i < 13 + id.len() {
            assert(line[i] == "):"@[i - 11 - id.len()]);
        } else {
            assert(line[i] == target[i - 13 - id.len()]);
        }
    }
    let text = line_text(req) + rest;
    assert(text =~= line + seq!['\n'] + rest);
    crate::text::lemma_find_behind(line, seq!['\n'], rest);
    assert(text.take(line.len() as int) =~= line);
    assert(text.skip(line.len() as int + 1) =~= rest);
    assert(line.last() != '\r') by {
        if target.len() == 0 {
            assert(line.last() == ':');
        } else {
            assert(line.last() == target.last());
            if req.range is Some {
                let b = crate::text::decimal(len as nat);
                assert(target.last() == b.last());
            }
        }
    }
    assert(!crate::text::is_blank(line)) by {
        assert(line[0] == 'C');
    }
    assert(line.take(11) =~= "ConstantId("@);
    let behind = line.skip(11);
    assert(behind =~= id + "):"@ + target);
    crate::text::lemma_find_behind(id, "):"@, target);
    assert(behind.take(id.len() as int) =~= id);
    assert(behind.skip(id.len() as int + 2) =~= target);
    crate::text::lemma_decimal_parses(req.constant as nat, u32::MAX as nat);
    lemma_target(req.constant, req);
}

/// A κ-map that was written out reads back as the bindings that were written,
/// in their order.
pub proof fn law_map_round_trips(reqs: Seq<RequirementV>)
    requires
        forall|i: int| 0 <= i < reqs.len() ==> writable(#[trigger] reqs[i]),
    ensures
        map_bindings(vstd::utf8::encode_utf8(map_text(reqs))) == Ok::<Seq<RequirementV>, MapErrorV>(
            reqs,
        ),
{
    let text = map_text(reqs);
    vstd::utf8::encode_utf8_valid_utf8(text);
    vstd::utf8::encode_utf8_decode_utf8(text);
    lemma_text_round_trips(reqs);
}

proof fn lemma_text_round_trips(reqs: Seq<RequirementV>)
    requires
        forall|i: int| 0 <= i < reqs.len() ==> writable(#[trigger] reqs[i]),
    ensures
        bindings_of(map_text(reqs)) == Ok::<Seq<RequirementV>, MapErrorV>(reqs),
    decreases reqs.len(),
{
    if reqs.len() > 0 {
        assert(writable(reqs[0]));
        let rest = map_text(reqs.skip(1));
        lemma_line(reqs[0], rest);
        assert forall|i: int| 0 <= i < reqs.skip(1).len() implies writable(
            #[trigger] reqs.skip(1)[i],
        ) by {
            assert(reqs.skip(1)[i] == reqs[i + 1]);
        }
        lemma_text_round_trips(reqs.skip(1));
        assert(seq![reqs[0]] + reqs.skip(1) =~= reqs);
    } else {
        assert(reqs =~= Seq::empty());
    }
}

/// One line of a κ-map.
pub enum MapLine {
    /// A line of white space, without its newline.
    Blank(Seq<char>),
    Binding(RequirementV),
}

/// Whether a line can be written: a blank one holds white space and no newline.
pub open spec fn writable_line(line: MapLine) -> bool {
    match line {
        MapLine::Blank(text) => crate::text::is_blank(text) && !text.contains('\n'),
        MapLine::Binding(req) => writable(req),
    }
}

/// Some lines as a κ-map.
pub open spec fn lines_text(lines: Seq<MapLine>) -> Seq<char>
    decreases lines.len(),
{
    if lines.len() == 0 {
        Seq::empty()
    } else {
        (match lines[0] {
            MapLine::Blank(text) => text + seq!['\n'],
            MapLine::Binding(req) => line_text(req),
        }) + lines_text(lines.skip(1))
    }
}

/// The bindings among some lines.
pub open spec fn lines_bindings(lines: Seq<MapLine>) -> Seq<RequirementV>
    decreases lines.len(),
{
    if lines.len() == 0 {
        Seq::empty()
    } else {
        match lines[0] {
            MapLine::Blank(_) => lines_bindings(lines.skip(1)),
            MapLine::Binding(req) => seq![req] + lines_bindings(lines.skip(1)),
        }
    }
}

proof fn lemma_lines_round_trip(lines: Seq<MapLine>)
    requires
        forall|i: int| 0 <= i < lines.len() ==> writable_line(#[trigger] lines[i]),
    ensures
        bindings_of(lines_text(lines)) == Ok::<Seq<RequirementV>, MapErrorV>(
            lines_bindings(lines),
        ),
    decreases lines.len(),
{
    if lines.len() > 0 {
        let rest = lines_text(lines.skip(1));
        assert(writable_line(lines[0]));
        assert forall|i: int| 0 <= i < lines.skip(1).len() implies writable_line(
            #[trigger] lines.skip(1)[i],
        ) by {
            assert(lines.skip(1)[i] == lines[i + 1]);
        }
        lemma_lines_round_trip(lines.skip(1));
        match lines[0] {
            MapLine::Blank(text) => {
                let all = text + seq!['\n'] + rest;
                assert forall|i: int| 0 <= i < text.len() implies text[i] != '\n' by {
                    assert(text.contains(text[i]));
                }
                crate::text::lemma_find_behind(text, seq!['\n'], rest);
                assert(all.take(text.len() as int) =~= text);
                assert(all.skip(text.len() as int + 1) =~= rest);
                assert(crate::text::is_blank(first_line(all)));
            },
            MapLine::Binding(req) => {
                lemma_line(req, rest);
            },
        }
    }
}

/// Blank lines change nothing: a κ-map that was written out with lines of white space
/// anywhere reads back as the bindings among its lines, in their order.
pub proof fn law_blank_lines_are_skipped(lines: Seq<MapLine>)
    requires
        forall|i: int| 0 <= i < lines.len() ==> writable_line(#[trigger] lines[i]),
    ensures
        map_bindings(vstd::utf8::encode_utf8(lines_text(lines))) == Ok::<
            Seq<RequirementV>,
            MapErrorV,
        >(lines_bindings(lines)),
{
    let text = lines_text(lines);
    vstd::utf8::encode_utf8_valid_utf8(text);
    vstd::utf8::encode_utf8_decode_utf8(text);
    lemma_lines_round_trip(lines);
}

/// A line without the carriage return that ends it.
pub open spec fn without_return(line: Seq<char>) -> Seq<char> {
    if line.len() > 0 && line[line.len() - 1] == '\r' {
        line.take(line.len() - 1)
    } else {
        line
    }
}

/// A κ-map is read line by line: a blank line adds nothing, a binding stands before
/// those of the lines behind it, and the first line that states none is the error, with
/// its fault. A carriage return before the newline is no part of the line.
pub proof fn law_a_map_is_read_line_by_line(line: Seq<char>, rest: Seq<char>)
    requires
        !line.contains('\n'),
    ensures
        bindings_of(Seq::empty()) == Ok::<Seq<RequirementV>, MapErrorV>(Seq::empty()),
        ({
            let shown = without_return(line);
            let all = bindings_of(line + seq!['\n'] + rest);
            if crate::text::is_blank(shown) {
                all == bindings_of(rest)
            } else {
                match binding_of(shown) {
                    Err(fault) => all == Err::<Seq<RequirementV>, MapErrorV>(
                        MapErrorV::Line { fault, line: shown },
                    ),
                    Ok(req) => match bindings_of(rest) {
                        Ok(more) => all == Ok::<Seq<RequirementV>, MapErrorV>(seq![req] + more),
                        Err(e) => all == Err::<Seq<RequirementV>, MapErrorV>(e),
                    },
                }
            }
        }),
        ({
            let all = bindings_of(line);
            if line.len() == 0 || crate::text::is_blank(line) {
                all == Ok::<Seq<RequirementV>, MapErrorV>(Seq::empty())
            } else {
                match binding_of(line) {
                    Err(fault) => all == Err::<Seq<RequirementV>, MapErrorV>(
                        MapErrorV::Line { fault, line },
                    ),
                    Ok(req) => all == Ok::<Seq<RequirementV>, MapErrorV>(seq![req]),
                }
            }
        }),
{
    assert forall|i: int| 0 <= i < line.len() implies line[i] != '\n' by {
        assert(line.contains(line[i]));
    }
    let text = line + seq!['\n'] + rest;
    crate::text::lemma_find_behind(line, seq!['\n'], rest);
    crate::text::lemma_find_nothing(line, seq!['\n']);
    assert(text.take(line.len() as int) =~= line);
    assert(text.skip(line.len() as int + 1) =~= rest);
    let shown = without_return(line);
    if line.len() > 0 && line.last() == '\r' {
        assert(line.drop_last() =~= shown);
    }
    assert(first_line(text) == shown);
    assert(after_line(text) == rest);
    assert(bindings_of(Seq::empty()) == Ok::<Seq<RequirementV>, MapErrorV>(Seq::empty()));
    if line.len() > 0 {
        assert(first_line(line) == line);
        assert(after_line(line) == Seq::<char>::empty());
        if !crate::text::is_blank(line) && binding_of(line) is Ok {
            let req = binding_of(line)->Ok_0;
            assert(seq![req] + Seq::<RequirementV>::empty() =~= seq![req]);
        }
    }
}

/// A line states a binding where it is `ConstantId(`, a number of 32 bits, `):` and a
/// target; without the first or the third it has no shape, without the number no
/// constant.
pub proof fn law_a_line_states_its_constant(id: Seq<char>, target: Seq<char>, line: Seq<char>)
    requires
        !id.contains(')'),
    ensures
        binding_of("ConstantId("@ + id + "):"@ + target) == (match crate::text::unsigned(
            id,
            u32::MAX as nat,
        ) {
            None => Err(LineFault::Constant),
            Some(n) => target_of(n as u32, target),
        }),
        binding_of("ConstantId("@ + id) == Err::<RequirementV, LineFault>(LineFault::Shape),
        (line.len() < 11 || line.take(11) != "ConstantId("@) ==> binding_of(line) == Err::<
            RequirementV,
            LineFault,
        >(LineFault::Shape),
{
    reveal_strlit("ConstantId(");
    reveal_strlit("):");
    assert("ConstantId("@.len() == 11);
    assert("):"@.len() == 2);
    let whole = "ConstantId("@ + id + "):"@ + target;
    let rest = whole.skip(11);
    assert(whole.take(11) =~= "ConstantId("@);
    assert(rest =~= id + "):"@ + target);
    assert forall|i: int| 0 <= i < id.len() implies id[i] != "):"@[0] by {
        assert(id.contains(id[i]));
    }
    crate::text::lemma_find_behind(id, "):"@, target);
    assert(rest.take(id.len() as int) =~= id);
    assert(rest.skip(id.len() as int + 2) =~= target);
    let short = "ConstantId("@ + id;
    assert(short.take(11) =~= "ConstantId("@);
    assert(short.skip(11) =~= id);
    crate::text::lemma_find_nothing(id, "):"@);
}

/// A target is a label for the whole content, or a label, `@`, an offset, `+` and a
/// length; each of the two numbers has 64 bits, and each part that is missing or no
/// number is its own fault.
pub proof fn law_a_target_states_its_range(
    constant: u32,
    kappa: Seq<char>,
    offset: Seq<char>,
    len: Seq<char>,
)
    requires
        !kappa.contains('@'),
        !offset.contains('+'),
    ensures
        target_of(constant, kappa) == Ok::<RequirementV, LineFault>(
            RequirementV { constant, kappa, range: None },
        ),
        target_of(constant, kappa + seq!['@'] + offset) == Err::<RequirementV, LineFault>(
            LineFault::Range,
        ),
        target_of(constant, kappa + seq!['@'] + (offset + seq!['+'] + len)) == (
        match crate::text::unsigned(offset, u64::MAX as nat) {
            None => Err(LineFault::Offset),
            Some(a) => match crate::text::unsigned(len, u64::MAX as nat) {
                None => Err(LineFault::Length),
                Some(b) => Ok(
                    RequirementV { constant, kappa, range: Some((a as u64, b as u64)) },
                ),
            },
        }),
{
    reveal_strlit("@");
    reveal_strlit("+");
    assert("@"@ =~= seq!['@']);
    assert("+"@ =~= seq!['+']);
    assert forall|i: int| 0 <= i < kappa.len() implies kappa[i] != '@' by {
        assert(kappa.contains(kappa[i]));
    }
    assert forall|i: int| 0 <= i < offset.len() implies offset[i] != '+' by {
        assert(offset.contains(offset[i]));
    }
    crate::text::lemma_find_nothing(kappa, seq!['@']);
    crate::text::lemma_find_behind(kappa, seq!['@'], offset);
    crate::text::lemma_find_nothing(offset, seq!['+']);
    let k = kappa.len() as int;
    let bare = kappa + seq!['@'] + offset;
    assert(bare.skip(k + 1) =~= offset);
    let ranged = offset + seq!['+'] + len;
    let full = kappa + seq!['@'] + ranged;
    crate::text::lemma_find_behind(kappa, seq!['@'], ranged);
    assert(full.skip(k + 1) =~= ranged);
    assert(full.take(k) =~= kappa);
    crate::text::lemma_find_behind(offset, seq!['+'], len);
    let n = offset.len() as int;
    assert(ranged.take(n) =~= offset);
    assert(ranged.skip(n + 1) =~= len);
}

/// A κ-map is the text that its bytes are; bytes that are no text are refused as such.
pub proof fn law_a_map_is_text(bytes: Seq<u8>, text: Seq<char>)
    ensures
        map_bindings(vstd::utf8::encode_utf8(text)) == bindings_of(text),
        !vstd::utf8::valid_utf8(bytes) ==> map_bindings(bytes) == Err::<
            Seq<RequirementV>,
            MapErrorV,
        >(MapErrorV::NotUtf8),
{
    vstd::utf8::encode_utf8_valid_utf8(text);
    vstd::utf8::encode_utf8_decode_utf8(text);
}

/// Bindings are modelled by all that they state, each at its own place, and so is what
/// is wrong with a map.
pub proof fn law_bindings_are_modelled_whole(reqs: Seq<KappaRequirement>, e: MapError)
    ensures
        requirement_views(reqs).len() == reqs.len(),
        forall|i: int|
            0 <= i < reqs.len() ==> (#[trigger] requirement_views(reqs)[i]).constant
                == reqs[i].constant && requirement_views(reqs)[i].kappa == reqs[i].kappa@
                && requirement_views(reqs)[i].range == reqs[i].range,
        match e {
            MapError::NotUtf8 => e@ is NotUtf8,
            MapError::Line { fault, line } => e@ == (MapErrorV::Line { fault, line: line@ }),
        },
{
}

} // verus!
