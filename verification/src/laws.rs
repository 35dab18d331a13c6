//! The laws relating the serializer to the parser.
//!
//! The central results: parsing the canonical text of a well-formed block
//! yields exactly that block (the round trip), the multi-block reader
//! returns exactly the serialized blocks of a concatenation, in order, and
//! any text that parses as one whole block is read by the multi-block
//! reader as exactly that one block.

use vstd::prelude::*;

use crate::grammar::{
    at_sat_marker, bin_pred, digit_pred, frame_steps_ok, is_bin_digit, is_digit, is_line_byte,
    is_token_byte, lemma_run_len, lemma_run_len_is, line_pred, run_len, space_pred,
    spec_parse_assign, spec_parse_assigns, spec_parse_block, spec_parse_frame, spec_parse_frames,
    spec_parse_header, spec_parse_multi, spec_parse_prop, spec_parse_props, spec_parse_transition,
    spec_parse_uint, spec_skip_comments, token_pred, AT, DOT, HASH, NL, SEMI, SPACE,
};
use crate::text::{
    dec_digits, lemma_dec_digits, rt_assign, rt_block, rt_chain, rt_frame, rt_transition,
    text_of_assign, text_of_assigns, text_of_block, text_of_blocks, text_of_frame, text_of_frames,
    text_of_header, text_of_prop, text_of_props, text_of_transition,
};
use crate::witness::{AssignmentS, BlockS, FrameS, TransitionS};
use crate::{Prop, PropKind};

verus! {

/// The bytes of `t` stand in `s` at offset `pos`.
pub open spec fn contains_at(s: Seq<u8>, pos: int, t: Seq<u8>) -> bool {
    &&& 0 <= pos
    &&& pos + t.len() <= s.len()
    &&& s.subrange(pos, pos + t.len() as int) == t
}

/// The named predicate values mean what their bytes mean.
proof fn lemma_preds()
    ensures
        forall|c: u8| #[trigger] digit_pred()(c) == is_digit(c),
        forall|c: u8| #[trigger] bin_pred()(c) == is_bin_digit(c),
        forall|c: u8| #[trigger] token_pred()(c) == is_token_byte(c),
        forall|c: u8| #[trigger] line_pred()(c) == is_line_byte(c),
        forall|c: u8| #[trigger] space_pred()(c) == (c == SPACE),
{
}

/// Containment gives each byte.
proof fn lemma_contains_index(s: Seq<u8>, pos: int, t: Seq<u8>)
    requires
        contains_at(s, pos, t),
    ensures
        forall|k: int| 0 <= k < t.len() ==> s[pos + k] == #[trigger] t[k],
{
    assert forall|k: int| 0 <= k < t.len() implies s[pos + k] == #[trigger] t[k] by {
        assert(s.subrange(pos, pos + t.len() as int)[k] == s[pos + k]);
    }
}

/// Containment of a concatenation splits into its two halves.
proof fn lemma_contains_split(s: Seq<u8>, pos: int, a: Seq<u8>, b: Seq<u8>)
    requires
        contains_at(s, pos, a + b),
    ensures
        contains_at(s, pos, a),
        contains_at(s, pos + a.len(), b),
{
    lemma_contains_index(s, pos, a + b);
    assert forall|k: int| 0 <= k < a.len() implies s[pos + k] == a[k] by {
        assert(s[pos + k] == (a + b)[k]);
    }
    assert forall|k: int| 0 <= k < b.len() implies s[pos + a.len() + k] == b[k] by {
        assert(s[pos + (a.len() + k)] == (a + b)[a.len() + k]);
    }
    assert(s.subrange(pos, pos + a.len() as int) =~= a);
    assert(s.subrange(pos + a.len(), pos + a.len() + b.len() as int) =~= b);
}

/// The decimal digits of `n`, standing before a non-digit byte, parse as
/// the number `n`.
proof fn lemma_uint_text(s: Seq<u8>, pos: int, n: u64)
    requires
        contains_at(s, pos, dec_digits(n as nat)),
        pos + dec_digits(n as nat).len() == s.len() || !is_digit(
            s[pos + dec_digits(n as nat).len()],
        ),
    ensures
        spec_parse_uint(s, pos) == Some((n, pos + dec_digits(n as nat).len())),
{
    let d = dec_digits(n as nat);
    lemma_dec_digits(n as nat);
    lemma_preds();
    lemma_contains_index(s, pos, d);
    assert forall|j: int| pos <= j < pos + d.len() implies digit_pred()(s[j]) by {
        assert(s[j] == d[j - pos]);
    }
    lemma_run_len_is(s, pos, d.len(), digit_pred());
    assert(s.subrange(pos, pos + d.len() as int) == d);
}

/// The text of one property, standing before a non-digit byte, parses as
/// that property.
proof fn lemma_prop_text(s: Seq<u8>, pos: int, p: Prop)
    requires
        contains_at(s, pos, text_of_prop(p)),
        pos + text_of_prop(p).len() == s.len() || !is_digit(s[pos + text_of_prop(p).len()]),
    ensures
        spec_parse_prop(s, pos) == Some((p, pos + text_of_prop(p).len())),
{
    let kb = seq![
        match p.kind {
            PropKind::Bad => 98u8,
            PropKind::Justice => 106u8,
        },
    ];
    let d = dec_digits(p.idx as nat);
    lemma_dec_digits(p.idx as nat);
    lemma_contains_split(s, pos, kb, d);
    lemma_contains_index(s, pos, kb);
    assert(s[pos + 0] == kb[0]);
    assert(text_of_prop(p).len() == 1 + d.len());
    lemma_uint_text(s, pos + 1, p.idx);
    assert(spec_parse_uint(s, pos + 1) == Some((p.idx, pos + 1 + d.len() as int)));
    match p.kind {
        PropKind::Bad => {
            assert(s[pos] == 98);
        },
        PropKind::Justice => {
            assert(s[pos] == 106);
        },
    }
}

/// The text of a property list, standing before a newline, parses as that
/// list, leaving the newline.
proof fn lemma_props_text(s: Seq<u8>, pos: int, ps: Seq<Prop>)
    requires
        contains_at(s, pos, text_of_props(ps)),
        pos + text_of_props(ps).len() < s.len(),
        s[pos + text_of_props(ps).len()] == NL,
    ensures
        spec_parse_props(s, pos) == (ps, pos + text_of_props(ps).len()),
    decreases ps.len(),
{
    let e = pos + text_of_props(ps).len();
    if ps.len() == 0 {
        assert(text_of_props(ps).len() == 0);
        assert(spec_parse_prop(s, pos) is None);
        assert(ps =~= Seq::<Prop>::empty());
    } else {
        let t0 = text_of_prop(ps[0]);
        let rest = text_of_props(ps.skip(1));
        assert(text_of_props(ps) == t0 + rest);
        lemma_contains_split(s, pos, t0, rest);
        let mid = pos + t0.len();
        if ps.len() == 1 {
            assert(rest.len() == 0);
            assert(mid == e);
        } else {
            assert(rest == text_of_prop(ps.skip(1)[0]) + text_of_props(ps.skip(1).skip(1)));
            lemma_contains_index(s, mid, rest);
            assert(s[mid] == rest[0]);
            assert(rest[0] == text_of_prop(ps.skip(1)[0])[0]);
            assert(!is_digit(s[mid]));
        }
        lemma_prop_text(s, pos, ps[0]);
        lemma_props_text(s, mid, ps.skip(1));
        assert(seq![ps[0]] + ps.skip(1) =~= ps);
    }
}

/// The text of a header parses as that header.
proof fn lemma_header_text(s: Seq<u8>, pos: int, ps: Seq<Prop>)
    requires
        contains_at(s, pos, text_of_header(ps)),
        ps.len() >= 1,
    ensures
        spec_parse_header(s, pos) == Some((ps, pos + text_of_header(ps).len())),
        at_sat_marker(s, pos),
{
    let mark = seq![115u8, 97u8, 116u8, NL];
    let pt = text_of_props(ps);
    assert(text_of_header(ps) == (mark + pt) + seq![NL]);
    lemma_contains_split(s, pos, mark + pt, seq![NL]);
    lemma_contains_split(s, pos, mark, pt);
    lemma_contains_index(s, pos, mark);
    lemma_contains_index(s, pos + 4 + pt.len(), seq![NL]);
    assert(text_of_header(ps).len() == 5 + pt.len());
    assert(s[pos + 4 + pt.len() + 0] == seq![NL][0]);
    assert(s[pos + 4 + pt.len()] == NL);
    assert(at_sat_marker(s, pos));
    lemma_props_text(s, pos + 4, ps);
}

/// The text of one round-trippable assignment parses as that assignment.
proof fn lemma_assign_text(s: Seq<u8>, pos: int, a: AssignmentS)
    requires
        rt_assign(a),
        contains_at(s, pos, text_of_assign(a)),
    ensures
        spec_parse_assign(s, pos) == Some((a, pos + text_of_assign(a).len())),
{
    lemma_preds();
    let d_id = dec_digits(a.id as nat);
    let ix = match a.index {
        Some(i) => dec_digits(i as nat) + seq![SPACE],
        None => Seq::<u8>::empty(),
    };
    let nm = match a.name {
        Some(n) => seq![SPACE] + n,
        None => Seq::<u8>::empty(),
    };
    let a4 = d_id + seq![SPACE];
    let a3 = a4 + ix;
    let a2 = a3 + a.value;
    let a1 = a2 + nm;
    assert(text_of_assign(a) == a1 + seq![NL]);
    lemma_dec_digits(a.id as nat);
    lemma_contains_split(s, pos, a1, seq![NL]);
    lemma_contains_split(s, pos, a2, nm);
    lemma_contains_split(s, pos, a3, a.value);
    lemma_contains_split(s, pos, a4, ix);
    lemma_contains_split(s, pos, d_id, seq![SPACE]);
    let id_end = pos + d_id.len();
    let p2 = id_end + 1;
    let ix_end = p2 + ix.len();
    let v_end = ix_end + a.value.len();
    let nm_end = v_end + nm.len();
    let e = nm_end + 1;
    assert(e == pos + text_of_assign(a).len());
    lemma_contains_index(s, id_end, seq![SPACE]);
    assert(s[id_end + 0] == seq![SPACE][0]);
    assert(s[id_end] == SPACE);
    lemma_uint_text(s, pos, a.id);
    lemma_contains_index(s, ix_end, a.value);
    lemma_contains_index(s, v_end, nm);
    lemma_contains_index(s, nm_end, seq![NL]);
    assert(s[nm_end + 0] == seq![NL][0]);
    assert(s[nm_end] == NL);
    // the first byte after the separator is never a space
    let after_sep: u8 = match a.index {
        Some(i) => {
            lemma_dec_digits(i as nat);
            lemma_contains_split(s, p2, dec_digits(i as nat), seq![SPACE]);
            lemma_contains_index(s, p2, dec_digits(i as nat));
            assert(s[p2 + 0] == dec_digits(i as nat)[0]);
            s[p2]
        },
        None => {
            assert(s[ix_end + 0] == a.value[0]);
            s[p2]
        },
    };
    assert(is_digit(after_sep) || is_bin_digit(after_sep));
    assert(after_sep != SPACE);
    lemma_run_len_is(s, id_end, 1, space_pred());
    // the value token: all binary, closed by a space or the newline
    let after_v: u8 = match a.name {
        Some(n) => {
            assert(s[v_end + 0] == nm[0]);
            assert(nm[0] == SPACE);
            s[v_end]
        },
        None => {
            assert(v_end == nm_end);
            s[v_end]
        },
    };
    assert(after_v == SPACE || after_v == NL);
    assert forall|j: int| ix_end <= j < v_end implies is_bin_digit(s[j]) && is_token_byte(s[j])
        && token_pred()(s[j]) && bin_pred()(s[j]) by {
        assert(s[ix_end + (j - ix_end)] == a.value[j - ix_end]);
    }
    lemma_run_len_is(s, ix_end, a.value.len(), token_pred());
    lemma_run_len_is(s, ix_end, a.value.len(), bin_pred());
    assert(s.subrange(ix_end, v_end) =~= a.value);
    match a.index {
        Some(i) => {
            let d_ix = dec_digits(i as nat);
            let ixs_end = p2 + d_ix.len();
            lemma_contains_index(s, ixs_end, seq![SPACE]);
            assert(s[ixs_end + 0] == seq![SPACE][0]);
            assert(s[ixs_end] == SPACE);
            assert forall|j: int| p2 <= j < ixs_end implies is_digit(s[j]) && token_pred()(s[j])
                && digit_pred()(s[j]) by {
                assert(s[p2 + (j - p2)] == d_ix[j - p2]);
            }
            lemma_run_len_is(s, p2, d_ix.len(), token_pred());
            lemma_run_len_is(s, p2, d_ix.len(), digit_pred());
            assert(s.subrange(p2, ixs_end) =~= d_ix);
            // the index token is not binary-shaped, so it is not the value
            let j0 = choose|j: int|
                0 <= j < d_ix.len() && !is_bin_digit(#[trigger] d_ix[j]);
            if run_len(s, p2, bin_pred()) == d_ix.len() {
                lemma_run_len(s, p2, bin_pred());
                assert(bin_pred()(s[p2 + j0]));
                assert(s[p2 + j0] == d_ix[j0]);
                assert(false);
            }
            // the separator before the value
            assert(s[ix_end + 0] == a.value[0]);
            assert(!space_pred()(s[ix_end]));
            lemma_run_len_is(s, ixs_end, 1, space_pred());
            assert(ixs_end + 1 == ix_end);
        },
        None => {
            assert(ix_end == p2);
        },
    }
    // the optional name and the closing newline
    match a.name {
        Some(n) => {
            lemma_contains_split(s, v_end, seq![SPACE], n);
            lemma_contains_index(s, v_end + 1, n);
            assert forall|j: int| v_end + 1 <= j < v_end + 1 + n.len() implies token_pred()(s[j])
                && s[j] != SPACE by {
                assert(s[v_end + 1 + (j - v_end - 1)] == n[j - v_end - 1]);
            }
            lemma_run_len_is(s, v_end, 1, space_pred());
            lemma_run_len_is(s, v_end + 1, n.len(), token_pred());
            assert(s.subrange(v_end + 1, v_end + 1 + n.len() as int) =~= n);
            assert(v_end + 1 + n.len() == nm_end);
        },
        None => {
            assert(!space_pred()(s[v_end]));
            assert(run_len(s, v_end, space_pred()) == 0);
            assert(run_len(s, v_end + 0, token_pred()) == run_len(s, v_end, token_pred()));
        },
    }
    assert(spec_parse_assign(s, pos) == Some((a, e)));
}

/// The text of a round-trippable assignment list, closed by a byte that is
/// neither a digit nor a comment marker, parses as that list.
proof fn lemma_assigns_text(s: Seq<u8>, pos: int, aa: Seq<AssignmentS>)
    requires
        forall|k: int| 0 <= k < aa.len() ==> rt_assign(#[trigger] aa[k]),
        contains_at(s, pos, text_of_assigns(aa)),
        pos + text_of_assigns(aa).len() < s.len(),
        !is_digit(s[pos + text_of_assigns(aa).len()]),
        s[pos + text_of_assigns(aa).len()] != SEMI,
    ensures
        spec_parse_assigns(s, pos) == (aa, pos + text_of_assigns(aa).len()),
    decreases aa.len(),
{
    lemma_preds();
    let e = pos + text_of_assigns(aa).len();
    if aa.len() == 0 {
        assert(text_of_assigns(aa).len() == 0);
        assert(spec_skip_comments(s, pos) == pos);
        assert(run_len(s, pos, digit_pred()) == 0);
        assert(spec_parse_uint(s, pos) is None);
        assert(spec_parse_assign(s, pos) is None);
        assert(aa =~= Seq::<AssignmentS>::empty());
    } else {
        let t0 = text_of_assign(aa[0]);
        let rest = text_of_assigns(aa.skip(1));
        assert(text_of_assigns(aa) == t0 + rest);
        lemma_contains_split(s, pos, t0, rest);
        let mid = pos + t0.len();
        lemma_dec_digits(aa[0].id as nat);
        lemma_contains_index(s, pos, t0);
        assert(s[pos + 0] == t0[0]);
        assert(t0[0] == dec_digits(aa[0].id as nat)[0]);
        assert(is_digit(s[pos]) && s[pos] != SEMI);
        assert(spec_skip_comments(s, pos) == pos);
        lemma_assign_text(s, pos, aa[0]);
        lemma_assigns_text(s, mid, aa.skip(1));
        assert(seq![aa[0]] + aa.skip(1) =~= aa);
    }
}

/// The text of a round-trippable transition, closed by a byte that is
/// neither a digit nor a comment marker, parses as that transition.
proof fn lemma_transition_text(s: Seq<u8>, pos: int, t: TransitionS)
    requires
        rt_transition(t),
        contains_at(s, pos, text_of_transition(t)),
        pos + text_of_transition(t).len() < s.len(),
        !is_digit(s[pos + text_of_transition(t).len()]),
        s[pos + text_of_transition(t).len()] != SEMI,
    ensures
        spec_parse_transition(s, pos) == Some((t, pos + text_of_transition(t).len())),
{
    let d = dec_digits(t.step as nat);
    let at = text_of_assigns(t.assignments);
    assert(text_of_transition(t) == (d + seq![NL]) + at);
    lemma_contains_split(s, pos, d + seq![NL], at);
    lemma_contains_split(s, pos, d, seq![NL]);
    lemma_dec_digits(t.step as nat);
    lemma_contains_index(s, pos + d.len(), seq![NL]);
    assert(s[pos + d.len() + 0] == seq![NL][0]);
    assert(s[pos + d.len()] == NL);
    lemma_uint_text(s, pos, t.step);
    lemma_assigns_text(s, pos + d.len() + 1, t.assignments);
}

/// The text of a round-trippable frame, closed by a byte that is neither
/// a digit nor a comment marker, parses as that frame.
proof fn lemma_frame_text(s: Seq<u8>, pos: int, f: FrameS)
    requires
        rt_frame(f),
        contains_at(s, pos, text_of_frame(f)),
        pos + text_of_frame(f).len() < s.len(),
        !is_digit(s[pos + text_of_frame(f).len()]),
        s[pos + text_of_frame(f).len()] != SEMI,
    ensures
        spec_parse_frame(s, pos) == Some((f, pos + text_of_frame(f).len())),
{
    let st = match f.state_part {
        Some(t) => seq![HASH] + text_of_transition(t),
        None => Seq::<u8>::empty(),
    };
    assert(text_of_frame(f) == (st + seq![AT]) + text_of_transition(f.input_part));
    lemma_contains_split(s, pos, st + seq![AT], text_of_transition(f.input_part));
    lemma_contains_split(s, pos, st, seq![AT]);
    let at_pos = pos + st.len();
    lemma_contains_index(s, at_pos, seq![AT]);
    assert(s[at_pos + 0] == seq![AT][0]);
    assert(s[at_pos] == AT);
    lemma_transition_text(s, at_pos + 1, f.input_part);
    match f.state_part {
        Some(t) => {
            lemma_contains_split(s, pos, seq![HASH], text_of_transition(t));
            lemma_contains_index(s, pos, seq![HASH]);
            assert(s[pos + 0] == seq![HASH][0]);
            assert(s[pos] == HASH);
            lemma_transition_text(s, pos + 1, t);
        },
        None => {
            assert(at_pos == pos);
            assert(s[pos] != HASH);
        },
    }
}

/// The text of a round-trippable frame list whose steps follow `prev`,
/// closed by the trace terminator byte, parses as that list.
proof fn lemma_frames_text(s: Seq<u8>, pos: int, fs: Seq<FrameS>, prev: u64)
    requires
        forall|k: int| 0 <= k < fs.len() ==> rt_frame(#[trigger] fs[k]),
        rt_chain(fs, prev),
        contains_at(s, pos, text_of_frames(fs)),
        pos + text_of_frames(fs).len() < s.len(),
        s[pos + text_of_frames(fs).len()] == DOT,
    ensures
        spec_parse_frames(s, pos, prev) == (fs, pos + text_of_frames(fs).len()),
    decreases fs.len(),
{
    let e = pos + text_of_frames(fs).len();
    if fs.len() == 0 {
        assert(text_of_frames(fs).len() == 0);
        assert(s[pos] == DOT);
        assert(spec_parse_frame(s, pos) is None);
        assert(fs =~= Seq::<FrameS>::empty());
    } else {
        let t0 = text_of_frame(fs[0]);
        let rest = text_of_frames(fs.skip(1));
        assert(text_of_frames(fs) == t0 + rest);
        lemma_contains_split(s, pos, t0, rest);
        let mid = pos + t0.len();
        if fs.len() == 1 {
            assert(rest.len() == 0);
            assert(mid == e);
        } else {
            let g = fs.skip(1)[0];
            assert(rest == text_of_frame(g) + text_of_frames(fs.skip(1).skip(1)));
            lemma_contains_index(s, mid, rest);
            assert(s[mid + 0] == rest[0]);
            match g.state_part {
                Some(t) => {
                    assert(rest[0] == ((seq![HASH] + text_of_transition(t)) + seq![AT]
                        + text_of_transition(g.input_part))[0]);
                    assert(rest[0] == HASH);
                },
                None => {
                    assert(rest[0] == ((Seq::<u8>::empty() + seq![AT]) + text_of_transition(
                        g.input_part,
                    ))[0]);
                    assert(rest[0] == AT);
                },
            }
        }
        assert(!is_digit(s[mid]) && s[mid] != SEMI);
        lemma_frame_text(s, pos, fs[0]);
        assert(frame_steps_ok(fs[0], prev));
        lemma_frames_text(s, mid, fs.skip(1), fs[0].input_part.step);
        assert(seq![fs[0]] + fs.skip(1) =~= fs);
    }
}

/// The text of a round-trippable block parses as that block, wherever it
/// stands.
proof fn lemma_block_text(s: Seq<u8>, pos: int, b: BlockS)
    requires
        rt_block(b),
        contains_at(s, pos, text_of_block(b)),
    ensures
        spec_parse_block(s, pos) == Some((b, pos + text_of_block(b).len())),
        at_sat_marker(s, pos),
{
    let ht = text_of_header(b.props);
    let ft = text_of_frames(b.frames);
    assert(text_of_block(b) == (ht + ft) + seq![DOT, NL]);
    lemma_contains_split(s, pos, ht + ft, seq![DOT, NL]);
    lemma_contains_split(s, pos, ht, ft);
    let fe = pos + ht.len() + ft.len();
    lemma_contains_index(s, fe, seq![DOT, NL]);
    assert(s[fe + 0] == seq![DOT, NL][0]);
    assert(s[fe + 1] == seq![DOT, NL][1]);
    assert(s[fe] == DOT && s[fe + 1] == NL);
    lemma_header_text(s, pos, b.props);
    lemma_frames_text(s, pos + ht.len(), b.frames, 0);
    assert(fe + 2 == pos + text_of_block(b).len());
}

/// Parsing the canonical text of a well-formed block yields exactly that
/// block, consuming the whole text: serialization and parsing round-trip.
pub proof fn lemma_round_trip(b: BlockS)
    requires
        rt_block(b),
    ensures
        spec_parse_block(text_of_block(b), 0) == Some(
            (b, text_of_block(b).len() as int),
        ),
{
    let s = text_of_block(b);
    assert(s.subrange(0, s.len() as int) =~= s);
    lemma_block_text(s, 0, b);
}

/// Any text that parses as one block, wholly consumed, is read by the
/// multi-block reader as exactly that one block: its header properties in
/// order and its frame count are preserved.
pub proof fn lemma_single_block(s: Seq<u8>, b: BlockS)
    requires
        spec_parse_block(s, 0) == Some((b, s.len() as int)),
    ensures
        spec_parse_multi(s, 0) == Some(seq![b]),
{
    assert(at_sat_marker(s, 0));
    assert(spec_parse_multi(s, s.len() as int) == Some(Seq::<BlockS>::empty()));
    assert(seq![b] + Seq::<BlockS>::empty() =~= seq![b]);
}

/// The multi-block reader on a concatenation of round-trippable block
/// texts returns exactly those blocks, in input order; in particular an
/// empty concatenation yields zero blocks, not an error.
proof fn lemma_blocks_text(s: Seq<u8>, pos: int, bs: Seq<BlockS>)
    requires
        forall|k: int| 0 <= k < bs.len() ==> rt_block(#[trigger] bs[k]),
        contains_at(s, pos, text_of_blocks(bs)),
        pos + text_of_blocks(bs).len() == s.len(),
    ensures
        spec_parse_multi(s, pos) == Some(bs),
    decreases bs.len(),
{
    if bs.len() == 0 {
        assert(text_of_blocks(bs).len() == 0);
        assert(pos == s.len());
        assert(bs =~= Seq::<BlockS>::empty());
    } else {
        let t0 = text_of_block(bs[0]);
        let rest = text_of_blocks(bs.skip(1));
        assert(text_of_blocks(bs) == t0 + rest);
        lemma_contains_split(s, pos, t0, rest);
        let mid = pos + t0.len();
        lemma_block_text(s, pos, bs[0]);
        lemma_blocks_text(s, mid, bs.skip(1));
        assert(seq![bs[0]] + bs.skip(1) =~= bs);
    }
}

/// Whatever frame list the parser accepts after `prev` has non-decreasing
/// step numbers, read from `prev` on.
pub proof fn lemma_parsed_frames_chain(s: Seq<u8>, pos: int, prev: u64)
    requires
        0 <= pos <= s.len(),
    ensures
        rt_chain(spec_parse_frames(s, pos, prev).0, prev),
    decreases s.len() - pos,
{
    if spec_parse_frame(s, pos) is Some {
        let (f, p1) = spec_parse_frame(s, pos)->Some_0;
        if frame_steps_ok(f, prev) {
            crate::grammar::lemma_parse_frame_bounds(s, pos);
            lemma_parsed_frames_chain(s, p1, f.input_part.step);
            let rest = spec_parse_frames(s, p1, f.input_part.step).0;
            assert((seq![f] + rest)[0] == f);
            assert((seq![f] + rest).skip(1) =~= rest);
        }
    }
}

/// Every block the parser accepts has non-decreasing step numbers across
/// its frames: a frame whose steps go backwards is never part of a parse.
pub proof fn lemma_block_steps_monotone(s: Seq<u8>, pos: int, b: BlockS, end: int)
    requires
        0 <= pos <= s.len(),
        spec_parse_block(s, pos) == Some((b, end)),
    ensures
        rt_chain(b.frames, 0),
{
    let p1 = spec_parse_header(s, pos)->Some_0.1;
    crate::grammar::lemma_parse_props_bounds(s, pos + 4);
    lemma_parsed_frames_chain(s, p1, 0);
}

/// The reader on exactly the serialized text of `N >= 0` well-formed
/// blocks returns exactly those `N` blocks.
pub proof fn lemma_multi_round_trip(bs: Seq<BlockS>)
    requires
        forall|k: int| 0 <= k < bs.len() ==> rt_block(#[trigger] bs[k]),
    ensures
        spec_parse_multi(text_of_blocks(bs), 0) == Some(bs),
{
    let s = text_of_blocks(bs);
    assert(s.subrange(0, s.len() as int) =~= s);
    lemma_blocks_text(s, 0, bs);
}

} // verus!
