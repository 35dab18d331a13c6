//! Serialization of witness values back to the wire grammar.
//!
//! `text_of_*` is the canonical wire text of a value: one space between
//! tokens, no comment lines, a final newline after the trace terminator.
//! The round-trip laws below prove that parsing the canonical text of a
//! well-formed block yields that block back, and that the multi-block
//! reader finds exactly the serialized blocks.

use vstd::prelude::*;

use crate::grammar::{
    dec_val, frame_steps_ok, is_bin_digit, is_digit, is_token_byte, AT, DOT, HASH, NL, SPACE,
};
use crate::witness::{
    Assignment, AssignmentS, BlockS, FrameS, Model, Transition, TransitionS, WitnessFormat,
    WitnessFrame,
};
use crate::{Prop, PropKind};

verus! {

/// The decimal digits of `n`, most significant first, no leading zero
/// except for `n == 0` itself.
pub open spec fn dec_digits(n: nat) -> Seq<u8>
    decreases n,
{
    if n < 10 {
        seq![(48 + n) as u8]
    } else {
        dec_digits(n / 10) + seq![(48 + n % 10) as u8]
    }
}

/// The digits of `n` are decimal digits and read back as `n`.
pub proof fn lemma_dec_digits(n: nat)
    ensures
        dec_digits(n).len() >= 1,
        forall|j: int| 0 <= j < dec_digits(n).len() ==> is_digit(#[trigger] dec_digits(n)[j]),
        dec_val(dec_digits(n)) == n,
    decreases n,
{
    if n < 10 {
        assert(dec_digits(n) =~= seq![(48 + n) as u8]);
        assert(dec_digits(n).drop_last() =~= Seq::<u8>::empty());
        assert(dec_val(Seq::<u8>::empty()) == 0);
    } else {
        lemma_dec_digits(n / 10);
        vstd::arithmetic::div_mod::lemma_fundamental_div_mod(n as int, 10);
        let d = dec_digits(n);
        assert(d.drop_last() =~= dec_digits(n / 10));
        assert(d.last() == (48 + n % 10) as u8);
        assert(dec_val(d) == 10 * dec_val(d.drop_last()) + (d.last() - 48));
    }
}

/// The wire text of one declared property.
pub open spec fn text_of_prop(p: Prop) -> Seq<u8> {
    seq![
        match p.kind {
            PropKind::Bad => 98u8,
            PropKind::Justice => 106u8,
        },
    ] + dec_digits(p.idx as nat)
}

/// The wire text of a property list, concatenated without separators.
pub open spec fn text_of_props(ps: Seq<Prop>) -> Seq<u8>
    decreases ps.len(),
{
    if ps.len() == 0 {
        Seq::empty()
    } else {
        text_of_prop(ps[0]) + text_of_props(ps.skip(1))
    }
}

/// The wire text of the header.
pub open spec fn text_of_header(ps: Seq<Prop>) -> Seq<u8> {
    seq![115u8, 97u8, 116u8, NL] + text_of_props(ps) + seq![NL]
}

/// The wire text of one assignment line.
pub open spec fn text_of_assign(a: AssignmentS) -> Seq<u8> {
    dec_digits(a.id as nat) + seq![SPACE] + (match a.index {
        Some(i) => dec_digits(i as nat) + seq![SPACE],
        None => Seq::empty(),
    }) + a.value + (match a.name {
        Some(n) => seq![SPACE] + n,
        None => Seq::empty(),
    }) + seq![NL]
}

/// The wire text of an assignment list, one line each.
pub open spec fn text_of_assigns(aa: Seq<AssignmentS>) -> Seq<u8>
    decreases aa.len(),
{
    if aa.len() == 0 {
        Seq::empty()
    } else {
        text_of_assign(aa[0]) + text_of_assigns(aa.skip(1))
    }
}

/// The wire text of a transition: the step line, then the assignments.
pub open spec fn text_of_transition(t: TransitionS) -> Seq<u8> {
    dec_digits(t.step as nat) + seq![NL] + text_of_assigns(t.assignments)
}

/// The wire text of a frame: the optional state block, the input block.
pub open spec fn text_of_frame(f: FrameS) -> Seq<u8> {
    (match f.state_part {
        Some(t) => seq![HASH] + text_of_transition(t),
        None => Seq::empty(),
    }) + seq![AT] + text_of_transition(f.input_part)
}

/// The wire text of a frame list.
pub open spec fn text_of_frames(fs: Seq<FrameS>) -> Seq<u8>
    decreases fs.len(),
{
    if fs.len() == 0 {
        Seq::empty()
    } else {
        text_of_frame(fs[0]) + text_of_frames(fs.skip(1))
    }
}

/// The wire text of one complete block, terminator and final newline
/// included.
pub open spec fn text_of_block(b: BlockS) -> Seq<u8> {
    text_of_header(b.props) + text_of_frames(b.frames) + seq![DOT, NL]
}

/// The wire text of a whole multi-block output.
pub open spec fn text_of_blocks(bs: Seq<BlockS>) -> Seq<u8>
    decreases bs.len(),
{
    if bs.len() == 0 {
        Seq::empty()
    } else {
        text_of_block(bs[0]) + text_of_blocks(bs.skip(1))
    }
}

/// An assignment whose canonical text parses back to itself: the value is
/// a non-empty binary token; a name, if any, is a non-empty token; an
/// array index, if any, has a decimal digit other than `0` or `1`, so
/// that the index token is not itself binary-shaped and mistaken for the
/// value.
pub open spec fn rt_assign(a: AssignmentS) -> bool {
    &&& a.value.len() >= 1
    &&& forall|j: int| 0 <= j < a.value.len() ==> is_bin_digit(#[trigger] a.value[j])
    &&& match a.name {
        Some(n) => n.len() >= 1 && forall|j: int| 0 <= j < n.len() ==> is_token_byte(#[trigger] n[j]),
        None => true,
    }
    &&& match a.index {
        Some(i) => exists|j: int|
            0 <= j < dec_digits(i as nat).len() && !is_bin_digit(#[trigger] dec_digits(i as nat)[j]),
        None => true,
    }
}

/// Every assignment of the transition is round-trippable.
pub open spec fn rt_transition(t: TransitionS) -> bool {
    forall|k: int| 0 <= k < t.assignments.len() ==> rt_assign(#[trigger] t.assignments[k])
}

/// Both transitions of the frame are round-trippable.
pub open spec fn rt_frame(f: FrameS) -> bool {
    &&& match f.state_part {
        Some(t) => rt_transition(t),
        None => true,
    }
    &&& rt_transition(f.input_part)
}

/// The frames' step numbers are non-decreasing when read after `prev`.
pub open spec fn rt_chain(fs: Seq<FrameS>, prev: u64) -> bool
    decreases fs.len(),
{
    if fs.len() == 0 {
        true
    } else {
        frame_steps_ok(fs[0], prev) && rt_chain(fs.skip(1), fs[0].input_part.step)
    }
}

/// A block whose canonical text parses back to itself: at least one
/// property, at least one frame, non-decreasing steps, and every
/// assignment round-trippable.
pub open spec fn rt_block(b: BlockS) -> bool {
    &&& b.props.len() >= 1
    &&& b.frames.len() >= 1
    &&& rt_chain(b.frames, 0)
    &&& forall|k: int| 0 <= k < b.frames.len() ==> rt_frame(#[trigger] b.frames[k])
}

/// Appends the decimal digits of `n`.
fn write_u64(out: &mut Vec<u8>, n: u64)
    ensures
        final(out)@ == old(out)@ + dec_digits(n as nat),
    decreases n,
{
    if n < 10 {
        out.push(48 + (n as u8));
    } else {
        write_u64(out, n / 10);
        out.push(48 + ((n % 10) as u8));
    }
    proof {
        assert(out@ =~= old(out)@ + dec_digits(n as nat));
    }
}

/// Appends the canonical text of one assignment line.
fn write_assignment(out: &mut Vec<u8>, a: &Assignment)
    ensures
        final(out)@ == old(out)@ + text_of_assign(a@),
{
    write_u64(out, a.id);
    out.push(SPACE);
    match &a.index {
        Some(i) => {
            write_u64(out, *i);
            out.push(SPACE);
        },
        None => {},
    }
    let mut k: usize = 0;
    while k < a.value.len()
        invariant
            k <= a.value.len(),
            out@ == old(out)@ + dec_digits(a.id as nat) + seq![SPACE] + (match a.index {
                Some(i) => dec_digits(i as nat) + seq![SPACE],
                None => Seq::<u8>::empty(),
            }) + a.value@.subrange(0, k as int),
        decreases a.value.len() - k,
    {
        out.push(a.value[k]);
        proof {
            assert(a.value@.subrange(0, k + 1) =~= a.value@.subrange(0, k as int).push(
                a.value@[k as int],
            ));
        }
        k = k + 1;
    }
    proof {
        assert(a.value@.subrange(0, a.value@.len() as int) =~= a.value@);
    }
    match &a.name {
        Some(n) => {
            out.push(SPACE);
            let mut j: usize = 0;
            while j < n.len()
                invariant
                    j <= n.len(),
                    out@ == old(out)@ + dec_digits(a.id as nat) + seq![SPACE] + (match a.index {
                        Some(i) => dec_digits(i as nat) + seq![SPACE],
                        None => Seq::<u8>::empty(),
                    }) + a.value@ + seq![SPACE] + n@.subrange(0, j as int),
                decreases n.len() - j,
            {
                out.push(n[j]);
                proof {
                    assert(n@.subrange(0, j + 1) =~= n@.subrange(0, j as int).push(n@[j as int]));
                }
                j = j + 1;
            }
            proof {
                assert(n@.subrange(0, n@.len() as int) =~= n@);
            }
        },
        None => {},
    }
    out.push(NL);
    proof {
        assert(out@ =~= old(out)@ + text_of_assign(a@));
    }
}

/// Appends the canonical text of the assignments from position `k` on.
fn write_assignments(out: &mut Vec<u8>, m: &Model, k: usize)
    requires
        k <= m.assignments.len(),
    ensures
        final(out)@ == old(out)@ + text_of_assigns(m@.skip(k as int)),
    decreases m.assignments.len() - k,
{
    if k < m.assignments.len() {
        write_assignment(out, &m.assignments[k]);
        write_assignments(out, m, k + 1);
        proof {
            assert(m@.skip(k as int)[0] == m@[k as int]);
            assert(m@.skip(k as int).skip(1) =~= m@.skip(k + 1));
            assert(out@ =~= old(out)@ + text_of_assigns(m@.skip(k as int)));
        }
    } else {
        proof {
            assert(m@.skip(k as int) =~= Seq::<AssignmentS>::empty());
        }
    }
}

/// Appends the canonical text of a transition.
fn write_transition(out: &mut Vec<u8>, t: &Transition)
    ensures
        final(out)@ == old(out)@ + text_of_transition(t@),
{
    write_u64(out, t.step);
    out.push(NL);
    write_assignments(out, &t.model, 0);
    proof {
        assert(t.model@.skip(0) =~= t.model@);
        assert(out@ =~= old(out)@ + text_of_transition(t@));
    }
}

/// Appends the canonical text of one frame.
fn write_frame(out: &mut Vec<u8>, f: &WitnessFrame)
    ensures
        final(out)@ == old(out)@ + text_of_frame(f@),
{
    match &f.state_part {
        Some(t) => {
            out.push(HASH);
            write_transition(out, t);
        },
        None => {},
    }
    out.push(AT);
    write_transition(out, &f.input_part);
    proof {
        assert(out@ =~= old(out)@ + text_of_frame(f@));
    }
}

/// Appends the canonical text of the frames from position `k` on.
fn write_frames(out: &mut Vec<u8>, w: &WitnessFormat, k: usize)
    requires
        k <= w.frames.len(),
    ensures
        final(out)@ == old(out)@ + text_of_frames(w@.frames.skip(k as int)),
    decreases w.frames.len() - k,
{
    if k < w.frames.len() {
        write_frame(out, &w.frames[k]);
        write_frames(out, w, k + 1);
        proof {
            assert(w@.frames.skip(k as int)[0] == w@.frames[k as int]);
            assert(w@.frames.skip(k as int).skip(1) =~= w@.frames.skip(k + 1));
            assert(out@ =~= old(out)@ + text_of_frames(w@.frames.skip(k as int)));
        }
    } else {
        proof {
            assert(w@.frames.skip(k as int) =~= Seq::<FrameS>::empty());
        }
    }
}

/// Appends the canonical text of the properties from position `k` on.
fn write_props(out: &mut Vec<u8>, props: &Vec<Prop>, k: usize)
    requires
        k <= props.len(),
    ensures
        final(out)@ == old(out)@ + text_of_props(props@.skip(k as int)),
    decreases props.len() - k,
{
    if k < props.len() {
        let p = props[k];
        match p.kind {
            PropKind::Bad => out.push(98),
            PropKind::Justice => out.push(106),
        }
        write_u64(out, p.idx);
        write_props(out, props, k + 1);
        proof {
            assert(props@.skip(k as int)[0] == props@[k as int]);
            assert(props@.skip(k as int).skip(1) =~= props@.skip(k + 1));
            assert(out@ =~= old(out)@ + text_of_props(props@.skip(k as int)));
        }
    } else {
        proof {
            assert(props@.skip(k as int) =~= Seq::<Prop>::empty());
        }
    }
}

impl WitnessFormat {
    /// Serializes the block back to the wire grammar, in canonical form:
    /// single spaces, no comments, a final newline after the terminator.
    pub fn to_text(&self) -> (r: Vec<u8>)
        ensures
            r@ == text_of_block(self@),
    {
        let mut out: Vec<u8> = Vec::new();
        out.push(115);
        out.push(97);
        out.push(116);
        out.push(NL);
        write_props(&mut out, &self.header.props, 0);
        out.push(NL);
        write_frames(&mut out, self, 0);
        out.push(DOT);
        out.push(NL);
        proof {
            assert(self.header.props@.skip(0) =~= self.header.props@);
            assert(self@.frames.skip(0) =~= self@.frames);
            assert(out@ =~= text_of_block(self@));
        }
        out
    }
}

impl Prop {
    /// The property rendered for display: its kind, the word `at`, and
    /// its index, as bytes of text.
    pub fn display_text(&self) -> (r: Vec<u8>)
        ensures
            r@ == (match self.kind {
                PropKind::Bad => seq![66u8, 97u8, 100u8, 32u8, 97u8, 116u8, 32u8],
                PropKind::Justice => seq![
                    74u8, 117u8, 115u8, 116u8, 105u8, 99u8, 101u8, 32u8, 97u8, 116u8, 32u8,
                ],
            }) + dec_digits(self.idx as nat),
    {
        let mut out: Vec<u8> = Vec::new();
        match self.kind {
            PropKind::Bad => {
                out.push(66);
                out.push(97);
                out.push(100);
                out.push(32);
                out.push(97);
                out.push(116);
                out.push(32);
            },
            PropKind::Justice => {
                out.push(74);
                out.push(117);
                out.push(115);
                out.push(116);
                out.push(105);
                out.push(99);
                out.push(101);
                out.push(32);
                out.push(97);
                out.push(116);
                out.push(32);
            },
        }
        write_u64(&mut out, self.idx);
        proof {
            assert(out@ =~= (match self.kind {
                PropKind::Bad => seq![66u8, 97u8, 100u8, 32u8, 97u8, 116u8, 32u8],
                PropKind::Justice => seq![
                    74u8, 117u8, 115u8, 116u8, 105u8, 99u8, 101u8, 32u8, 97u8, 116u8, 32u8,
                ],
            }) + dec_digits(self.idx as nat));
        }
        out
    }
}

} // verus!
