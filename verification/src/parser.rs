//! Executable parsers for the witness wire format.
//!
//! Each function returns exactly what the corresponding spec function in
//! [`crate::grammar`] denotes: a successful parse yields the denoted value
//! and end position, a failure occurs exactly where the spec denotes none.
//! A failure carries the position of the unconsumed remainder of the input
//! so a caller can render a diagnostic.

use vstd::prelude::*;

use crate::grammar::{
    at_sat_marker, bin_pred, dec_val, digit_pred, frame_steps_ok, is_bin_digit, is_digit,
    is_token_byte, lemma_dec_val_prefix, lemma_run_len, line_pred, run_len, space_pred,
    spec_parse_assign, spec_parse_assigns, spec_parse_block, spec_parse_frame, spec_parse_frames,
    spec_parse_header, spec_parse_multi, spec_parse_prop, spec_parse_props, spec_parse_transition,
    spec_parse_uint, spec_assign_stop, spec_block_stop, spec_finish_assign, spec_finish_stop,
    spec_frame_stop, spec_header_stop, spec_multi_stop, spec_prop_stop, spec_skip_comments,
    spec_transition_stop, token_pred, AT, DOT, HASH, NL, SEMI, SPACE,
};
use crate::witness::{Assignment, Model, Transition, WitnessFormat, WitnessFrame, WitnessHeader};
use crate::{Prop, PropKind};

verus! {

/// A structural parse failure; `pos` is the byte offset of the unconsumed
/// remainder of the input at which parsing stopped.
#[derive(Debug, Clone, Copy, PartialEq, Eq, Structural)]
pub struct ParseError {
    pub pos: usize,
}

fn byte_is_digit(c: u8) -> (r: bool)
    ensures
        r == is_digit(c),
{
    48 <= c && c <= 57
}

fn byte_is_bin(c: u8) -> (r: bool)
    ensures
        r == is_bin_digit(c),
{
    c == 48 || c == 49
}

fn byte_is_token(c: u8) -> (r: bool)
    ensures
        r == is_token_byte(c),
{
    c != SPACE && c != NL
}

/// End of the run of decimal digits starting at `pos`.
pub(crate) fn scan_digits(s: &[u8], pos: usize) -> (r: usize)
    requires
        pos <= s.len(),
    ensures
        r == pos + run_len(s@, pos as int, digit_pred()),
        pos <= r <= s.len(),
{
    let mut i = pos;
    while i < s.len() && byte_is_digit(s[i])
        invariant
            pos <= i <= s.len(),
            run_len(s@, pos as int, digit_pred()) == (i - pos) + run_len(s@, i as int, digit_pred()),
        decreases s.len() - i,
    {
        i = i + 1;
    }
    i
}

/// End of the run of binary digits starting at `pos`.
pub(crate) fn scan_bin(s: &[u8], pos: usize) -> (r: usize)
    requires
        pos <= s.len(),
    ensures
        r == pos + run_len(s@, pos as int, bin_pred()),
        pos <= r <= s.len(),
{
    let mut i = pos;
    while i < s.len() && byte_is_bin(s[i])
        invariant
            pos <= i <= s.len(),
            run_len(s@, pos as int, bin_pred()) == (i - pos) + run_len(s@, i as int, bin_pred()),
        decreases s.len() - i,
    {
        i = i + 1;
    }
    i
}

/// End of the run of token bytes starting at `pos`.
pub(crate) fn scan_token(s: &[u8], pos: usize) -> (r: usize)
    requires
        pos <= s.len(),
    ensures
        r == pos + run_len(s@, pos as int, token_pred()),
        pos <= r <= s.len(),
{
    let mut i = pos;
    while i < s.len() && byte_is_token(s[i])
        invariant
            pos <= i <= s.len(),
            run_len(s@, pos as int, token_pred()) == (i - pos) + run_len(s@, i as int, token_pred()),
        decreases s.len() - i,
    {
        i = i + 1;
    }
    i
}

/// End of the run of spaces starting at `pos`.
pub(crate) fn scan_spaces(s: &[u8], pos: usize) -> (r: usize)
    requires
        pos <= s.len(),
    ensures
        r == pos + run_len(s@, pos as int, space_pred()),
        pos <= r <= s.len(),
{
    let mut i = pos;
    while i < s.len() && s[i] == SPACE
        invariant
            pos <= i <= s.len(),
            run_len(s@, pos as int, space_pred()) == (i - pos) + run_len(s@, i as int, space_pred()),
        decreases s.len() - i,
    {
        i = i + 1;
    }
    i
}

/// End of the current line: the position of the next newline, or the end
/// of the input.
pub(crate) fn scan_line(s: &[u8], pos: usize) -> (r: usize)
    requires
        pos <= s.len(),
    ensures
        r == pos + run_len(s@, pos as int, line_pred()),
        pos <= r <= s.len(),
{
    let mut i = pos;
    while i < s.len() && s[i] != NL
        invariant
            pos <= i <= s.len(),
            run_len(s@, pos as int, line_pred()) == (i - pos) + run_len(s@, i as int, line_pred()),
        decreases s.len() - i,
    {
        i = i + 1;
    }
    i
}

/// A copy of the bytes `s[a..b]`.
fn copy_range(s: &[u8], a: usize, b: usize) -> (r: Vec<u8>)
    requires
        a <= b <= s.len(),
    ensures
        r@ == s@.subrange(a as int, b as int),
{
    let mut v: Vec<u8> = Vec::new();
    let mut i = a;
    while i < b
        invariant
            a <= i <= b <= s.len(),
            v@ == s@.subrange(a as int, i as int),
        decreases b - i,
    {
        v.push(s[i]);
        proof {
            assert(s@.subrange(a as int, i + 1) =~= s@.subrange(a as int, i as int).push(s@[i as int]));
        }
        i = i + 1;
    }
    v
}

/// Prepending an element commutes with an element-wise view of a sequence.
proof fn lemma_insert0_map<A, B>(v: Seq<A>, x: A, f: spec_fn(A) -> B)
    ensures
        v.insert(0, x).map_values(f) == seq![f(x)] + v.map_values(f),
{
    assert(v.insert(0, x).map_values(f) =~= seq![f(x)] + v.map_values(f));
}

/// One or more decimal digits, as an unsigned integer; fails on no digit or
/// on a value too large for the machine word.
pub fn parse_u64(s: &[u8], pos: usize) -> (r: Result<(u64, usize), ParseError>)
    requires
        pos <= s.len(),
    ensures
        match r {
            Ok((v, end)) => spec_parse_uint(s@, pos as int) == Some((v, end as int)) && pos < end
                <= s.len(),
            Err(e) => spec_parse_uint(s@, pos as int) is None && e.pos == pos,
        },
{
    let end = scan_digits(s, pos);
    proof {
        lemma_run_len(s@, pos as int, digit_pred());
    }
    if end == pos {
        return Err(ParseError { pos });
    }
    let ghost digits = s@.subrange(pos as int, end as int);
    let mut v: u64 = 0;
    let mut i = pos;
    while i < end
        invariant
            pos <= i <= end <= s.len(),
            end == pos + run_len(s@, pos as int, digit_pred()),
            forall|j: int| pos <= j < end ==> is_digit(#[trigger] s@[j]),
            digits == s@.subrange(pos as int, end as int),
            v == dec_val(s@.subrange(pos as int, i as int)),
        decreases end - i,
    {
        let d: u8 = s[i] - 48;
        proof {
            assert(s@.subrange(pos as int, i + 1).drop_last() =~= s@.subrange(
                pos as int,
                i as int,
            ));
            assert(dec_val(s@.subrange(pos as int, i + 1)) == 10 * v + d);
        }
        if v > 1844674407370955161u64 || (v == 1844674407370955161u64 && d > 5) {
            proof {
                assert(dec_val(s@.subrange(pos as int, i + 1)) > u64::MAX);
                lemma_dec_val_prefix(digits, i + 1 - pos);
                assert(digits.subrange(0, i + 1 - pos) =~= s@.subrange(pos as int, i + 1));
                assert(dec_val(digits) > u64::MAX);
            }
            return Err(ParseError { pos });
        }
        v = v * 10 + d as u64;
        i = i + 1;
    }
    proof {
        assert(s@.subrange(pos as int, end as int) =~= digits);
    }
    Ok((v, end))
}

/// One declared property: `b` or `j` immediately followed by its index.
pub fn parse_prop(s: &[u8], pos: usize) -> (r: Result<(Prop, usize), ParseError>)
    requires
        pos <= s.len(),
    ensures
        match r {
            Ok((p, end)) => spec_parse_prop(s@, pos as int) == Some((p, end as int)) && pos < end
                <= s.len(),
            Err(e) => spec_parse_prop(s@, pos as int) is None && e.pos as int == spec_prop_stop(
                s@,
                pos as int,
            ) && e.pos <= s.len(),
        },
{
    if pos < s.len() && (s[pos] == 98 || s[pos] == 106) {
        match parse_u64(s, pos + 1) {
            Ok((v, end)) => {
                let kind = if s[pos] == 98 {
                    PropKind::Bad
                } else {
                    PropKind::Justice
                };
                Ok((Prop { kind, idx: v }, end))
            },
            Err(e) => Err(e),
        }
    } else {
        Err(ParseError { pos })
    }
}

/// As many concatenated properties as the input offers.
fn parse_props(s: &[u8], pos: usize) -> (r: (Vec<Prop>, usize))
    requires
        pos <= s.len(),
    ensures
        (r.0@, r.1 as int) == spec_parse_props(s@, pos as int),
        pos <= r.1 <= s.len(),
    decreases s.len() - pos,
{
    match parse_prop(s, pos) {
        Ok((p, pos2)) => {
            let (mut rest, end) = parse_props(s, pos2);
            rest.insert(0, p);
            proof {
                assert(rest@ =~= seq![p] + spec_parse_props(s@, pos2 as int).0);
            }
            (rest, end)
        },
        Err(_) => (Vec::new(), pos),
    }
}

/// The header: `sat`, one or more properties, a closing newline.
fn parse_header(s: &[u8], pos: usize) -> (r: Result<(Vec<Prop>, usize), ParseError>)
    requires
        pos <= s.len(),
    ensures
        match r {
            Ok((props, end)) => spec_parse_header(s@, pos as int) == Some((props@, end as int))
                && pos < end <= s.len(),
            Err(e) => spec_parse_header(s@, pos as int) is None && e.pos as int
                == spec_header_stop(s@, pos as int) && e.pos <= s.len(),
        },
{
    if s.len() - pos >= 4 && s[pos] == 115 && s[pos + 1] == 97 && s[pos + 2] == 116 && s[pos + 3]
        == NL {
        let (props, p2) = parse_props(s, pos + 4);
        if props.len() >= 1 && p2 < s.len() && s[p2] == NL {
            Ok((props, p2 + 1))
        } else {
            Err(ParseError { pos: p2 })
        }
    } else {
        Err(ParseError { pos })
    }
}

/// The tail of an assignment line: an optional name token, the newline.
fn finish_assign(s: &[u8], pos: usize, id: u64, index: Option<u64>, value: Vec<u8>) -> (r: Result<
    (Assignment, usize),
    ParseError,
>)
    requires
        pos <= s.len(),
    ensures
        match r {
            Ok((a, end)) => spec_finish_assign(s@, pos as int, id, index, value@) == Some(
                (a@, end as int),
            ) && pos < end <= s.len(),
            Err(e) => spec_finish_assign(s@, pos as int, id, index, value@) is None && e.pos
                as int == spec_finish_stop(s@, pos as int) && e.pos <= s.len(),
        },
{
    let p1 = scan_spaces(s, pos);
    let t_end = scan_token(s, p1);
    if p1 > pos && t_end > p1 {
        let name = copy_range(s, p1, t_end);
        if t_end < s.len() && s[t_end] == NL {
            Ok((Assignment { id, index, value, name: Some(name) }, t_end + 1))
        } else {
            Err(ParseError { pos: t_end })
        }
    } else if pos < s.len() && s[pos] == NL {
        Ok((Assignment { id, index, value, name: None }, pos + 1))
    } else {
        Err(ParseError { pos })
    }
}

/// One assignment line.
pub fn parse_assignment(s: &[u8], pos: usize) -> (r: Result<(Assignment, usize), ParseError>)
    requires
        pos <= s.len(),
    ensures
        match r {
            Ok((a, end)) => spec_parse_assign(s@, pos as int) == Some((a@, end as int)) && pos
                < end <= s.len(),
            Err(e) => spec_parse_assign(s@, pos as int) is None && e.pos as int
                == spec_assign_stop(s@, pos as int) && e.pos <= s.len(),
        },
{
    let (id, p1) = match parse_u64(s, pos) {
        Ok(x) => x,
        Err(e) => {
            return Err(e);
        },
    };
    let p2 = scan_spaces(s, p1);
    if p2 == p1 {
        return Err(ParseError { pos: p1 });
    }
    let t_end = scan_token(s, p2);
    if t_end == p2 {
        return Err(ParseError { pos: p2 });
    }
    let b_end = scan_bin(s, p2);
    if b_end == t_end {
        let value = copy_range(s, p2, t_end);
        finish_assign(s, t_end, id, None, value)
    } else {
        let d_end = scan_digits(s, p2);
        if d_end != t_end {
            return Err(ParseError { pos: p2 });
        }
        let (idxv, _) = match parse_u64(s, p2) {
            Ok(x) => x,
            Err(e) => {
                return Err(ParseError { pos: p2 });
            },
        };
        let p3 = scan_spaces(s, t_end);
        if p3 == t_end {
            return Err(ParseError { pos: t_end });
        }
        let t2_end = scan_token(s, p3);
        if t2_end == p3 {
            return Err(ParseError { pos: p3 });
        }
        let b2_end = scan_bin(s, p3);
        if b2_end != t2_end {
            return Err(ParseError { pos: p3 });
        }
        let value = copy_range(s, p3, t2_end);
        finish_assign(s, t2_end, id, Some(idxv), value)
    }
}

/// Position after the complete comment lines starting at `pos`.
fn skip_comments(s: &[u8], pos: usize) -> (r: usize)
    requires
        pos <= s.len(),
    ensures
        r as int == spec_skip_comments(s@, pos as int),
        pos <= r <= s.len(),
    decreases s.len() - pos,
{
    if pos < s.len() && s[pos] == SEMI {
        let l_end = scan_line(s, pos);
        proof {
            lemma_run_len(s@, pos as int, line_pred());
        }
        if l_end < s.len() {
            skip_comments(s, l_end + 1)
        } else {
            pos
        }
    } else {
        pos
    }
}

/// Zero or more assignment lines, comments before each skipped.
fn parse_assignments(s: &[u8], pos: usize) -> (r: (Vec<Assignment>, usize))
    requires
        pos <= s.len(),
    ensures
        r.0@.map_values(|a: Assignment| a@) == spec_parse_assigns(s@, pos as int).0,
        r.1 as int == spec_parse_assigns(s@, pos as int).1,
        pos <= r.1 <= s.len(),
    decreases s.len() - pos,
{
    let p2 = skip_comments(s, pos);
    match parse_assignment(s, p2) {
        Ok((a, p3)) => {
            let (mut rest, end) = parse_assignments(s, p3);
            let ghost rest0 = rest@;
            rest.insert(0, a);
            proof {
                lemma_insert0_map(rest0, a, |x: Assignment| x@);
            }
            (rest, end)
        },
        Err(_) => {
            proof {
                assert(Seq::<Assignment>::empty().map_values(|a: Assignment| a@)
                    =~= Seq::<crate::witness::AssignmentS>::empty());
            }
            (Vec::new(), pos)
        },
    }
}

/// A transition: a step number on its own line, then its assignments.
fn parse_transition(s: &[u8], pos: usize) -> (r: Result<(Transition, usize), ParseError>)
    requires
        pos <= s.len(),
    ensures
        match r {
            Ok((t, end)) => spec_parse_transition(s@, pos as int) == Some((t@, end as int)) && pos
                < end <= s.len(),
            Err(e) => spec_parse_transition(s@, pos as int) is None && e.pos as int
                == spec_transition_stop(s@, pos as int) && e.pos <= s.len(),
        },
{
    let (step, p1) = match parse_u64(s, pos) {
        Ok(x) => x,
        Err(e) => {
            return Err(e);
        },
    };
    if p1 < s.len() && s[p1] == NL {
        let (assignments, p2) = parse_assignments(s, p1 + 1);
        Ok((Transition { step, model: Model { assignments } }, p2))
    } else {
        Err(ParseError { pos: p1 })
    }
}

/// One frame: an optional `#` state transition, a mandatory `@` input
/// transition.
fn parse_frame(s: &[u8], pos: usize) -> (r: Result<(WitnessFrame, usize), ParseError>)
    requires
        pos <= s.len(),
    ensures
        match r {
            Ok((f, end)) => spec_parse_frame(s@, pos as int) == Some((f@, end as int)) && pos < end
                <= s.len(),
            Err(e) => spec_parse_frame(s@, pos as int) is None && e.pos as int
                == spec_frame_stop(s@, pos as int) && e.pos <= s.len(),
        },
{
    let (state_part, p1): (Option<Transition>, usize) = if pos < s.len() && s[pos] == HASH {
        match parse_transition(s, pos + 1) {
            Ok((t, p)) => (Some(t), p),
            Err(_) => (None, pos),
        }
    } else {
        (None, pos)
    };
    if p1 < s.len() && s[p1] == AT {
        match parse_transition(s, p1 + 1) {
            Ok((t, p2)) => Ok((WitnessFrame { state_part, input_part: t }, p2)),
            Err(e) => Err(e),
        }
    } else {
        Err(ParseError { pos: p1 })
    }
}

/// Zero or more frames with non-decreasing step numbers.
fn parse_frames(s: &[u8], pos: usize, prev: u64) -> (r: (Vec<WitnessFrame>, usize))
    requires
        pos <= s.len(),
    ensures
        r.0@.map_values(|f: WitnessFrame| f@) == spec_parse_frames(s@, pos as int, prev).0,
        r.1 as int == spec_parse_frames(s@, pos as int, prev).1,
        pos <= r.1 <= s.len(),
    decreases s.len() - pos,
{
    match parse_frame(s, pos) {
        Ok((f, p1)) => {
            let ok = match &f.state_part {
                Some(t) => prev <= t.step && t.step <= f.input_part.step,
                None => prev <= f.input_part.step,
            };
            assert(ok == frame_steps_ok(f@, prev));
            if ok {
                let (mut rest, end) = parse_frames(s, p1, f.input_part.step);
                let ghost rest0 = rest@;
                rest.insert(0, f);
                proof {
                    lemma_insert0_map(rest0, f, |x: WitnessFrame| x@);
                }
                (rest, end)
            } else {
                proof {
                    assert(Seq::<WitnessFrame>::empty().map_values(|f: WitnessFrame| f@)
                        =~= Seq::<crate::witness::FrameS>::empty());
                }
                (Vec::new(), pos)
            }
        },
        Err(_) => {
            proof {
                assert(Seq::<WitnessFrame>::empty().map_values(|f: WitnessFrame| f@)
                    =~= Seq::<crate::witness::FrameS>::empty());
            }
            (Vec::new(), pos)
        },
    }
}

/// One complete witness block starting at `pos`.
fn parse_block(s: &[u8], pos: usize) -> (r: Result<(WitnessFormat, usize), ParseError>)
    requires
        pos <= s.len(),
    ensures
        match r {
            Ok((w, end)) => spec_parse_block(s@, pos as int) == Some((w@, end as int)) && pos < end
                <= s.len(),
            Err(e) => spec_parse_block(s@, pos as int) is None && e.pos as int
                == spec_block_stop(s@, pos as int) && e.pos <= s.len(),
        },
{
    let (props, p1) = match parse_header(s, pos) {
        Ok(x) => x,
        Err(e) => {
            return Err(e);
        },
    };
    let (frames, p2) = parse_frames(s, p1, 0);
    if frames.len() >= 1 && p2 < s.len() && s[p2] == DOT {
        let end = if p2 + 1 < s.len() && s[p2 + 1] == NL {
            p2 + 2
        } else {
            p2 + 1
        };
        Ok((WitnessFormat { header: WitnessHeader { props }, frames }, end))
    } else {
        Err(ParseError { pos: p2 })
    }
}

/// All witness blocks in a model-checker output stream, starting at `pos`.
fn parse_multi(s: &[u8], pos: usize) -> (r: Result<Vec<WitnessFormat>, ParseError>)
    requires
        pos <= s.len(),
    ensures
        match r {
            Ok(ws) => spec_parse_multi(s@, pos as int) == Some(
                ws@.map_values(|w: WitnessFormat| w@),
            ),
            Err(e) => spec_parse_multi(s@, pos as int) is None && e.pos as int
                == spec_multi_stop(s@, pos as int) && e.pos <= s.len(),
        },
    decreases s.len() - pos,
{
    if pos >= s.len() {
        proof {
            assert(Seq::<WitnessFormat>::empty().map_values(|w: WitnessFormat| w@)
                =~= Seq::<crate::witness::BlockS>::empty());
        }
        return Ok(Vec::new());
    }
    if s.len() - pos >= 4 && s[pos] == 115 && s[pos + 1] == 97 && s[pos + 2] == 116 && s[pos + 3]
        == NL {
        assert(at_sat_marker(s@, pos as int));
        match parse_block(s, pos) {
            Ok((b, p1)) => {
                match parse_multi(s, p1) {
                    Ok(mut rest) => {
                        let ghost rest0 = rest@;
                        rest.insert(0, b);
                        proof {
                            lemma_insert0_map(rest0, b, |x: WitnessFormat| x@);
                        }
                        Ok(rest)
                    },
                    Err(e) => Err(e),
                }
            },
            Err(e) => Err(e),
        }
    } else {
        assert(!at_sat_marker(s@, pos as int));
        let l_end = scan_line(s, pos);
        if l_end < s.len() {
            parse_multi(s, l_end + 1)
        } else {
            proof {
                assert(Seq::<WitnessFormat>::empty().map_values(|w: WitnessFormat| w@)
                    =~= Seq::<crate::witness::BlockS>::empty());
            }
            Ok(Vec::new())
        }
    }
}

impl WitnessFormat {
    /// Parses one witness block from the start of `input`, returning the
    /// block and the number of bytes consumed. Fails, with the offset of
    /// the unconsumed remainder, exactly when the input does not begin
    /// with a structurally valid block.
    pub fn parse(input: &[u8]) -> (r: Result<(WitnessFormat, usize), ParseError>)
        ensures
            match r {
                Ok((w, end)) => spec_parse_block(input@, 0) == Some((w@, end as int)) && 0 < end
                    <= input.len(),
                Err(e) => spec_parse_block(input@, 0) is None && e.pos as int
                    == spec_block_stop(input@, 0) && e.pos <= input.len(),
            },
    {
        parse_block(input, 0)
    }
}

/// Reads every witness block in a model-checker output stream, in input
/// order. Text that does not begin a block is skipped line by line, so an
/// output with no `sat` marker yields an empty sequence rather than an
/// error; a `sat` marker followed by malformed content is an error.
pub fn parse_witnesses(input: &[u8]) -> (r: Result<Vec<WitnessFormat>, ParseError>)
    ensures
        match r {
            Ok(ws) => spec_parse_multi(input@, 0) == Some(ws@.map_values(|w: WitnessFormat| w@)),
            Err(e) => spec_parse_multi(input@, 0) is None && e.pos as int == spec_multi_stop(
                input@,
                0,
            ) && e.pos <= input.len(),
        },
{
    parse_multi(input, 0)
}

} // verus!
