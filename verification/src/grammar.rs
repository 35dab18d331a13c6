//! Mathematical model of the witness wire grammar.
//!
//! Every executable parser in this crate is specified against the spec
//! functions here: a parse either fails, or returns exactly the value and
//! end position that the corresponding `spec_parse_*` function denotes.
//! Positions are byte offsets into the input; a successful parse of a
//! construct consumes the bytes from its start position to its end position.

use vstd::prelude::*;

use crate::witness::{AssignmentS, BlockS, FrameS, TransitionS};
use crate::{Prop, PropKind};

verus! {

pub const NL: u8 = 10;
pub const SPACE: u8 = 32;
pub const HASH: u8 = 35;
pub const DOT: u8 = 46;
pub const SEMI: u8 = 59;
pub const AT: u8 = 64;

/// A decimal digit byte.
pub open spec fn is_digit(c: u8) -> bool {
    48 <= c && c <= 57
}

/// A binary digit byte: the shape of a bit-vector value token.
pub open spec fn is_bin_digit(c: u8) -> bool {
    c == 48 || c == 49
}

/// A byte that may stand inside a whitespace-separated token.
pub open spec fn is_token_byte(c: u8) -> bool {
    c != SPACE && c != NL
}

/// A byte that does not end a line.
pub open spec fn is_line_byte(c: u8) -> bool {
    c != NL
}


/// The digit predicate as a function value, shared by every contract.
pub open spec fn digit_pred() -> spec_fn(u8) -> bool {
    |c: u8| is_digit(c)
}

/// The binary-digit predicate as a function value.
pub open spec fn bin_pred() -> spec_fn(u8) -> bool {
    |c: u8| is_bin_digit(c)
}

/// The token-byte predicate as a function value.
pub open spec fn token_pred() -> spec_fn(u8) -> bool {
    |c: u8| is_token_byte(c)
}

/// The line-byte predicate as a function value.
pub open spec fn line_pred() -> spec_fn(u8) -> bool {
    |c: u8| is_line_byte(c)
}

/// The space predicate as a function value.
pub open spec fn space_pred() -> spec_fn(u8) -> bool {
    |c: u8| c == SPACE
}

/// Length of the longest run of bytes satisfying `p` starting at `pos`.
pub open spec fn run_len(s: Seq<u8>, pos: int, p: spec_fn(u8) -> bool) -> nat
    decreases s.len() - pos,
{
    if 0 <= pos && pos < s.len() && p(s[pos]) {
        (1 + run_len(s, pos + 1, p)) as nat
    } else {
        0
    }
}

/// The run starting at `pos` stays in bounds, consists of bytes satisfying
/// `p`, and is maximal.
pub proof fn lemma_run_len(s: Seq<u8>, pos: int, p: spec_fn(u8) -> bool)
    requires
        0 <= pos <= s.len(),
    ensures
        pos + run_len(s, pos, p) <= s.len(),
        forall|j: int| pos <= j < pos + run_len(s, pos, p) ==> p(s[j]),
        pos + run_len(s, pos, p) == s.len() || !p(s[pos + run_len(s, pos, p)]),
    decreases s.len() - pos,
{
    if pos < s.len() && p(s[pos]) {
        lemma_run_len(s, pos + 1, p);
    }
}

/// A maximal run of `p`-bytes of length `n` at `pos` pins `run_len` to `n`.
pub proof fn lemma_run_len_is(s: Seq<u8>, pos: int, n: nat, p: spec_fn(u8) -> bool)
    requires
        0 <= pos,
        pos + n <= s.len(),
        forall|j: int| pos <= j < pos + n ==> p(s[j]),
        pos + n == s.len() || !p(s[pos + n]),
    ensures
        run_len(s, pos, p) == n,
    decreases n,
{
    if n > 0 {
        assert(p(s[pos]));
        lemma_run_len_is(s, pos + 1, (n - 1) as nat, p);
    }
}

/// Numeric value of a sequence of decimal digit bytes.
pub open spec fn dec_val(d: Seq<u8>) -> nat
    decreases d.len(),
{
    if d.len() == 0 {
        0
    } else {
        (10 * dec_val(d.drop_last()) + (d.last() - 48)) as nat
    }
}

/// Dropping digits from the right never increases the value.
pub proof fn lemma_dec_val_prefix(d: Seq<u8>, i: int)
    requires
        0 <= i <= d.len(),
        forall|j: int| 0 <= j < d.len() ==> is_digit(#[trigger] d[j]),
    ensures
        dec_val(d.subrange(0, i)) <= dec_val(d),
    decreases d.len() - i,
{
    if i < d.len() {
        lemma_dec_val_prefix(d, i + 1);
        let e = d.subrange(0, i + 1);
        assert(e.drop_last() =~= d.subrange(0, i));
        assert(dec_val(e) == 10 * dec_val(d.subrange(0, i)) + (d[i] - 48));
    } else {
        assert(d.subrange(0, i) =~= d);
    }
}

/// The witness header marker `sat` followed by a line terminator.
pub open spec fn at_sat_marker(s: Seq<u8>, pos: int) -> bool {
    &&& 0 <= pos
    &&& pos + 4 <= s.len()
    &&& s[pos] == 115
    &&& s[pos + 1] == 97
    &&& s[pos + 2] == 116
    &&& s[pos + 3] == NL
}

/// One or more decimal digits whose value fits the machine word.
pub open spec fn spec_parse_uint(s: Seq<u8>, pos: int) -> Option<(u64, int)> {
    let n = run_len(s, pos, digit_pred());
    if n >= 1 && dec_val(s.subrange(pos, pos + n)) <= u64::MAX {
        Some((dec_val(s.subrange(pos, pos + n)) as u64, pos + n))
    } else {
        None
    }
}

/// One declared property: a kind tag `b` or `j` immediately followed by its
/// decimal index.
pub open spec fn spec_parse_prop(s: Seq<u8>, pos: int) -> Option<(Prop, int)> {
    if 0 <= pos && pos < s.len() && (s[pos] == 98 || s[pos] == 106) {
        match spec_parse_uint(s, pos + 1) {
            Some((v, end)) => Some(
                (
                    Prop {
                        kind: if s[pos] == 98 {
                            PropKind::Bad
                        } else {
                            PropKind::Justice
                        },
                        idx: v,
                    },
                    end,
                ),
            ),
            None => None,
        }
    } else {
        None
    }
}

/// As many concatenated properties as the input offers, possibly none.
pub open spec fn spec_parse_props(s: Seq<u8>, pos: int) -> (Seq<Prop>, int)
    decreases s.len() - pos,
    when 0 <= pos <= s.len()
    via spec_parse_props_dec
{
    match spec_parse_prop(s, pos) {
        Some((p, pos2)) => {
            let (rest, end) = spec_parse_props(s, pos2);
            (seq![p] + rest, end)
        },
        None => (Seq::empty(), pos),
    }
}

#[via_fn]
proof fn spec_parse_props_dec(s: Seq<u8>, pos: int) {
    if 0 <= pos && pos < s.len() {
        lemma_run_len(s, pos + 1, digit_pred());
    }
}

/// The header: the `sat` marker, one or more properties, and a newline.
pub open spec fn spec_parse_header(s: Seq<u8>, pos: int) -> Option<(Seq<Prop>, int)> {
    if at_sat_marker(s, pos) {
        let (props, p2) = spec_parse_props(s, pos + 4);
        if props.len() >= 1 && p2 < s.len() && s[p2] == NL {
            Some((props, p2 + 1))
        } else {
            None
        }
    } else {
        None
    }
}

/// One assignment line: a decimal identifier, an optional decimal array
/// index, a binary value token, an optional trailing name token, and a
/// newline, with single-or-more space separators. The first token after the
/// identifier that is binary-shaped is the value; a token of integer shape
/// before it is the array index.
pub open spec fn spec_parse_assign(s: Seq<u8>, pos: int) -> Option<(AssignmentS, int)> {
    match spec_parse_uint(s, pos) {
        Some((id, p1)) => {
            let sep1 = run_len(s, p1, space_pred());
            if sep1 >= 1 {
                let p2 = p1 + sep1;
                let tok = run_len(s, p2, token_pred());
                let bin = run_len(s, p2, bin_pred());
                if tok >= 1 && bin == tok {
                    // binary-shaped token: it is the value, there is no index
                    spec_finish_assign(s, p2 + tok, id, None, s.subrange(p2, p2 + tok))
                } else if tok >= 1 && run_len(s, p2, digit_pred()) == tok && dec_val(
                    s.subrange(p2, p2 + tok),
                ) <= u64::MAX {
                    // integer-shaped token before the value: the array index
                    let idxv = dec_val(s.subrange(p2, p2 + tok)) as u64;
                    let sep2 = run_len(s, p2 + tok, space_pred());
                    let p3 = p2 + tok + sep2;
                    let tok2 = run_len(s, p3, token_pred());
                    let bin2 = run_len(s, p3, bin_pred());
                    if sep2 >= 1 && tok2 >= 1 && bin2 == tok2 {
                        spec_finish_assign(s, p3 + tok2, id, Some(idxv), s.subrange(p3, p3 + tok2))
                    } else {
                        None
                    }
                } else {
                    None
                }
            } else {
                None
            }
        },
        None => None,
    }
}

/// The tail of an assignment line after the value token: an optional name
/// token and the closing newline.
pub open spec fn spec_finish_assign(
    s: Seq<u8>,
    pos: int,
    id: u64,
    index: Option<u64>,
    value: Seq<u8>,
) -> Option<(AssignmentS, int)> {
    let sep = run_len(s, pos, space_pred());
    let tok = run_len(s, pos + sep, token_pred());
    if sep >= 1 && tok >= 1 {
        let name = s.subrange(pos + sep, pos + sep + tok);
        let p2 = pos + sep + tok;
        if p2 < s.len() && s[p2] == NL {
            Some((AssignmentS { id, index, value, name: Some(name) }, p2 + 1))
        } else {
            None
        }
    } else if pos < s.len() && s[pos] == NL {
        Some((AssignmentS { id, index, value, name: None }, pos + 1))
    } else {
        None
    }
}

/// Where parsing stops when a property fails at `pos`: after the kind tag
/// if one is present, else at `pos` itself.
pub open spec fn spec_prop_stop(s: Seq<u8>, pos: int) -> int {
    if 0 <= pos && pos < s.len() && (s[pos] == 98 || s[pos] == 106) {
        pos + 1
    } else {
        pos
    }
}

/// Where parsing stops when the header fails at `pos`: at `pos` without
/// the `sat` marker, else after whatever properties were read.
pub open spec fn spec_header_stop(s: Seq<u8>, pos: int) -> int {
    if at_sat_marker(s, pos) {
        spec_parse_props(s, pos + 4).1
    } else {
        pos
    }
}

/// Where parsing stops when the tail of an assignment line fails at
/// `pos`: after a name token if one was read, else at `pos`.
pub open spec fn spec_finish_stop(s: Seq<u8>, pos: int) -> int {
    let sep = run_len(s, pos, space_pred());
    let tok = run_len(s, pos + sep, token_pred());
    if sep >= 1 && tok >= 1 {
        pos + sep + tok
    } else {
        pos
    }
}

/// Where parsing stops when an assignment line fails at `pos`: before the
/// first token that does not fit the line's grammar.
pub open spec fn spec_assign_stop(s: Seq<u8>, pos: int) -> int {
    match spec_parse_uint(s, pos) {
        Some((id, p1)) => {
            let sep1 = run_len(s, p1, space_pred());
            if sep1 < 1 {
                p1
            } else {
                let p2 = p1 + sep1;
                let tok = run_len(s, p2, token_pred());
                let bin = run_len(s, p2, bin_pred());
                if tok < 1 {
                    p2
                } else if bin == tok {
                    spec_finish_stop(s, p2 + tok)
                } else if run_len(s, p2, digit_pred()) == tok && dec_val(
                    s.subrange(p2, p2 + tok),
                ) <= u64::MAX {
                    let sep2 = run_len(s, p2 + tok, space_pred());
                    let p3 = p2 + tok + sep2;
                    let tok2 = run_len(s, p3, token_pred());
                    let bin2 = run_len(s, p3, bin_pred());
                    if sep2 < 1 {
                        p2 + tok
                    } else if tok2 < 1 {
                        p3
                    } else if bin2 != tok2 {
                        p3
                    } else {
                        spec_finish_stop(s, p3 + tok2)
                    }
                } else {
                    p2
                }
            }
        },
        None => pos,
    }
}

/// Where parsing stops when a transition fails at `pos`: after the step
/// number if one was read, else at `pos`.
pub open spec fn spec_transition_stop(s: Seq<u8>, pos: int) -> int {
    match spec_parse_uint(s, pos) {
        Some((step, p1)) => p1,
        None => pos,
    }
}

/// Where parsing stops when a frame fails at `pos`: after a complete
/// state block if one was read, then inside the input block.
pub open spec fn spec_frame_stop(s: Seq<u8>, pos: int) -> int {
    let p1 = if 0 <= pos && pos < s.len() && s[pos] == HASH && spec_parse_transition(s, pos + 1)
        is Some {
        spec_parse_transition(s, pos + 1)->Some_0.1
    } else {
        pos
    };
    if 0 <= p1 && p1 < s.len() && s[p1] == AT {
        spec_transition_stop(s, p1 + 1)
    } else {
        p1
    }
}

/// Where parsing stops when a block fails at `pos`: inside the header if
/// the header fails, else after whatever frames were read, before the
/// missing or misplaced terminator.
pub open spec fn spec_block_stop(s: Seq<u8>, pos: int) -> int {
    match spec_parse_header(s, pos) {
        Some((props, p1)) => spec_parse_frames(s, p1, 0).1,
        None => spec_header_stop(s, pos),
    }
}

/// Position after every complete comment line starting at `pos`.
pub open spec fn spec_skip_comments(s: Seq<u8>, pos: int) -> int
    decreases s.len() - pos,
    when 0 <= pos <= s.len()
    via spec_skip_comments_dec
{
    if 0 <= pos && pos < s.len() && s[pos] == SEMI {
        let l = run_len(s, pos, line_pred());
        if pos + l < s.len() && s[pos + l] == NL {
            spec_skip_comments(s, pos + l + 1)
        } else {
            pos
        }
    } else {
        pos
    }
}

#[via_fn]
proof fn spec_skip_comments_dec(s: Seq<u8>, pos: int) {
    if 0 <= pos && pos < s.len() {
        lemma_run_len(s, pos, line_pred());
    }
}

/// Comment skipping never moves backwards and stays in bounds.
pub proof fn lemma_skip_comments_bounds(s: Seq<u8>, pos: int)
    requires
        0 <= pos <= s.len(),
    ensures
        pos <= spec_skip_comments(s, pos) <= s.len(),
    decreases s.len() - pos,
{
    if 0 <= pos && pos < s.len() && s[pos] == SEMI {
        let l = run_len(s, pos, line_pred());
        lemma_run_len(s, pos, line_pred());
        if pos + l < s.len() && s[pos + l] == NL {
            lemma_skip_comments_bounds(s, pos + l + 1);
        }
    }
}

/// A successful parse ends after its start position and in bounds.
pub proof fn lemma_parse_assign_bounds(s: Seq<u8>, pos: int)
    requires
        0 <= pos <= s.len(),
        spec_parse_assign(s, pos) is Some,
    ensures
        pos < spec_parse_assign(s, pos)->Some_0.1 <= s.len(),
{
    lemma_run_len(s, pos, digit_pred());
    let n = run_len(s, pos, digit_pred());
    if spec_parse_uint(s, pos) is Some {
        let p1 = pos + n;
        lemma_run_len(s, p1, space_pred());
        let sep1 = run_len(s, p1, space_pred());
        let p2 = p1 + sep1;
        lemma_run_len(s, p2, token_pred());
        let tok = run_len(s, p2, token_pred());
        lemma_finish_assign_bounds(s, p2 + tok);
        let sep2 = run_len(s, p2 + tok, space_pred());
        lemma_run_len(s, p2 + tok, space_pred());
        let p3 = p2 + tok + sep2;
        if p3 <= s.len() {
            lemma_run_len(s, p3, token_pred());
            let tok2 = run_len(s, p3, token_pred());
            lemma_finish_assign_bounds(s, p3 + tok2);
        }
    }
}

/// Same bound for the assignment tail.
pub proof fn lemma_finish_assign_bounds(s: Seq<u8>, pos: int)
    requires
        0 <= pos <= s.len(),
    ensures
        forall|id: u64, index: Option<u64>, value: Seq<u8>|
            #[trigger] spec_finish_assign(s, pos, id, index, value) is Some
                ==> pos < spec_finish_assign(s, pos, id, index, value)->Some_0.1 <= s.len(),
{
    lemma_run_len(s, pos, space_pred());
    let sep = run_len(s, pos, space_pred());
    lemma_run_len(s, pos + sep, token_pred());
}

/// Zero or more assignment lines, each optionally preceded by comment
/// lines; stops, without consuming trailing comments, where no further
/// assignment parses.
pub open spec fn spec_parse_assigns(s: Seq<u8>, pos: int) -> (Seq<AssignmentS>, int)
    decreases s.len() - pos,
    when 0 <= pos <= s.len()
    via spec_parse_assigns_dec
{
    let p2 = spec_skip_comments(s, pos);
    match spec_parse_assign(s, p2) {
        Some((a, p3)) => {
            let (rest, end) = spec_parse_assigns(s, p3);
            (seq![a] + rest, end)
        },
        None => (Seq::empty(), pos),
    }
}

#[via_fn]
proof fn spec_parse_assigns_dec(s: Seq<u8>, pos: int) {
    if 0 <= pos && pos <= s.len() {
        lemma_skip_comments_bounds(s, pos);
        let p2 = spec_skip_comments(s, pos);
        if spec_parse_assign(s, p2) is Some {
            lemma_parse_assign_bounds(s, p2);
        }
    }
}

/// A transition: a step number on its own line, then its assignments.
pub open spec fn spec_parse_transition(s: Seq<u8>, pos: int) -> Option<(TransitionS, int)> {
    match spec_parse_uint(s, pos) {
        Some((step, p1)) => {
            if p1 < s.len() && s[p1] == NL {
                let (assigns, p2) = spec_parse_assigns(s, p1 + 1);
                Some((TransitionS { step, assignments: assigns }, p2))
            } else {
                None
            }
        },
        None => None,
    }
}

/// A successful transition parse moves forward and stays in bounds.
pub proof fn lemma_parse_transition_bounds(s: Seq<u8>, pos: int)
    requires
        0 <= pos <= s.len(),
        spec_parse_transition(s, pos) is Some,
    ensures
        pos < spec_parse_transition(s, pos)->Some_0.1 <= s.len(),
{
    lemma_run_len(s, pos, digit_pred());
    let n = run_len(s, pos, digit_pred());
    lemma_parse_assigns_bounds(s, pos + n + 1);
}

/// The assignment list never moves backwards and stays in bounds.
pub proof fn lemma_parse_assigns_bounds(s: Seq<u8>, pos: int)
    requires
        0 <= pos <= s.len(),
    ensures
        pos <= spec_parse_assigns(s, pos).1 <= s.len(),
    decreases s.len() - pos,
{
    lemma_skip_comments_bounds(s, pos);
    let p2 = spec_skip_comments(s, pos);
    if spec_parse_assign(s, p2) is Some {
        lemma_parse_assign_bounds(s, p2);
        let p3 = spec_parse_assign(s, p2)->Some_0.1;
        lemma_parse_assigns_bounds(s, p3);
    }
}

/// One frame: an optional `#`-marked state transition, then the mandatory
/// `@`-marked input transition.
pub open spec fn spec_parse_frame(s: Seq<u8>, pos: int) -> Option<(FrameS, int)> {
    let state = if 0 <= pos && pos < s.len() && s[pos] == HASH {
        spec_parse_transition(s, pos + 1)
    } else {
        None
    };
    let (state_part, p1) = match state {
        Some((t, p)) => (Some(t), p),
        None => (None::<TransitionS>, pos),
    };
    if 0 <= p1 && p1 < s.len() && s[p1] == AT {
        match spec_parse_transition(s, p1 + 1) {
            Some((t, p2)) => Some((FrameS { state_part, input_part: t }, p2)),
            None => None,
        }
    } else {
        None
    }
}

/// A successful frame parse moves forward and stays in bounds.
pub proof fn lemma_parse_frame_bounds(s: Seq<u8>, pos: int)
    requires
        0 <= pos <= s.len(),
        spec_parse_frame(s, pos) is Some,
    ensures
        pos < spec_parse_frame(s, pos)->Some_0.1 <= s.len(),
{
    if 0 <= pos && pos < s.len() && s[pos] == HASH && spec_parse_transition(s, pos + 1) is Some {
        lemma_parse_transition_bounds(s, pos + 1);
        let p1 = spec_parse_transition(s, pos + 1)->Some_0.1;
        if p1 < s.len() && s[p1] == AT && spec_parse_transition(s, p1 + 1) is Some {
            lemma_parse_transition_bounds(s, p1 + 1);
        }
    } else if 0 <= pos && pos < s.len() && s[pos] == AT && spec_parse_transition(s, pos + 1)
        is Some {
        lemma_parse_transition_bounds(s, pos + 1);
    }
}

/// Step numbers of one frame are consistent with the trace so far: they do
/// not decrease, neither against the previous frame nor inside the frame.
pub open spec fn frame_steps_ok(f: FrameS, prev: u64) -> bool {
    match f.state_part {
        Some(t) => prev <= t.step && t.step <= f.input_part.step,
        None => prev <= f.input_part.step,
    }
}

/// Zero or more frames with non-decreasing step numbers; stops where no
/// further frame parses or a frame's steps go backwards.
pub open spec fn spec_parse_frames(s: Seq<u8>, pos: int, prev: u64) -> (Seq<FrameS>, int)
    decreases s.len() - pos,
    when 0 <= pos <= s.len()
    via spec_parse_frames_dec
{
    match spec_parse_frame(s, pos) {
        Some((f, p1)) => {
            if frame_steps_ok(f, prev) {
                let (rest, end) = spec_parse_frames(s, p1, f.input_part.step);
                (seq![f] + rest, end)
            } else {
                (Seq::empty(), pos)
            }
        },
        None => (Seq::empty(), pos),
    }
}

#[via_fn]
proof fn spec_parse_frames_dec(s: Seq<u8>, pos: int, prev: u64) {
    if 0 <= pos && pos <= s.len() && spec_parse_frame(s, pos) is Some {
        lemma_parse_frame_bounds(s, pos);
    }
}

/// One complete witness block: header, one or more frames, the `.` trace
/// terminator, and an optional final newline.
pub open spec fn spec_parse_block(s: Seq<u8>, pos: int) -> Option<(BlockS, int)> {
    match spec_parse_header(s, pos) {
        Some((props, p1)) => {
            let (frames, p2) = spec_parse_frames(s, p1, 0);
            if frames.len() >= 1 && p2 < s.len() && s[p2] == DOT {
                let end = if p2 + 1 < s.len() && s[p2 + 1] == NL {
                    p2 + 2
                } else {
                    p2 + 1
                };
                Some((BlockS { props, frames }, end))
            } else {
                None
            }
        },
        None => None,
    }
}

/// A successful block parse moves forward and stays in bounds.
pub proof fn lemma_parse_block_bounds(s: Seq<u8>, pos: int)
    requires
        0 <= pos <= s.len(),
        spec_parse_block(s, pos) is Some,
    ensures
        pos < spec_parse_block(s, pos)->Some_0.1 <= s.len(),
{
    if spec_parse_header(s, pos) is Some {
        let p05 = pos + 4;
        lemma_parse_props_bounds(s, p05);
        let p1 = spec_parse_props(s, p05).1 + 1;
        lemma_parse_frames_bounds(s, p1, 0);
    }
}

/// The property list never moves backwards and stays in bounds.
pub proof fn lemma_parse_props_bounds(s: Seq<u8>, pos: int)
    requires
        0 <= pos <= s.len(),
    ensures
        pos <= spec_parse_props(s, pos).1 <= s.len(),
    decreases s.len() - pos,
{
    if spec_parse_prop(s, pos) is Some {
        lemma_run_len(s, pos + 1, digit_pred());
        let p2 = spec_parse_prop(s, pos)->Some_0.1;
        lemma_parse_props_bounds(s, p2);
    }
}

/// The frame list never moves backwards and stays in bounds.
pub proof fn lemma_parse_frames_bounds(s: Seq<u8>, pos: int, prev: u64)
    requires
        0 <= pos <= s.len(),
    ensures
        pos <= spec_parse_frames(s, pos, prev).1 <= s.len(),
    decreases s.len() - pos,
{
    if spec_parse_frame(s, pos) is Some {
        lemma_parse_frame_bounds(s, pos);
        let r = spec_parse_frame(s, pos)->Some_0;
        if frame_steps_ok(r.0, prev) {
            lemma_parse_frames_bounds(s, r.1, r.0.input_part.step);
        }
    }
}

/// The whole model-checker output: any number of witness blocks, each
/// beginning exactly at a `sat` marker on its own line; other lines are
/// non-witness preamble or trailer text and are skipped. `None` means a
/// block began but was malformed; no block at all is `Some` with an empty
/// sequence.
pub open spec fn spec_parse_multi(s: Seq<u8>, pos: int) -> Option<Seq<BlockS>>
    decreases s.len() - pos,
    when 0 <= pos <= s.len()
    via spec_parse_multi_dec
{
    if pos >= s.len() {
        Some(Seq::empty())
    } else if at_sat_marker(s, pos) {
        match spec_parse_block(s, pos) {
            Some((b, p1)) => match spec_parse_multi(s, p1) {
                Some(rest) => Some(seq![b] + rest),
                None => None,
            },
            None => None,
        }
    } else {
        let l = run_len(s, pos, line_pred());
        if pos + l < s.len() {
            spec_parse_multi(s, pos + l + 1)
        } else {
            Some(Seq::empty())
        }
    }
}

#[via_fn]
proof fn spec_parse_multi_dec(s: Seq<u8>, pos: int) {
    if 0 <= pos && pos < s.len() {
        if at_sat_marker(s, pos) {
            if spec_parse_block(s, pos) is Some {
                lemma_parse_block_bounds(s, pos);
            }
        } else {
            lemma_run_len(s, pos, line_pred());
        }
    }
}

/// Where the multi-block reader stops when some block is malformed: the
/// stop position inside the first block that begins at a `sat` marker but
/// does not parse.
pub open spec fn spec_multi_stop(s: Seq<u8>, pos: int) -> int
    decreases s.len() - pos,
    when 0 <= pos <= s.len()
    via spec_multi_stop_dec
{
    if pos >= s.len() {
        pos
    } else if at_sat_marker(s, pos) {
        match spec_parse_block(s, pos) {
            Some((b, p1)) => spec_multi_stop(s, p1),
            None => spec_block_stop(s, pos),
        }
    } else {
        let l = run_len(s, pos, line_pred());
        if pos + l < s.len() {
            spec_multi_stop(s, pos + l + 1)
        } else {
            pos
        }
    }
}

#[via_fn]
proof fn spec_multi_stop_dec(s: Seq<u8>, pos: int) {
    if 0 <= pos && pos < s.len() {
        if at_sat_marker(s, pos) {
            if spec_parse_block(s, pos) is Some {
                lemma_parse_block_bounds(s, pos);
            }
        } else {
            lemma_run_len(s, pos, line_pred());
        }
    }
}

} // verus!
