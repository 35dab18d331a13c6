//! Extraction of property declarations from a model text.
//!
//! The model is read only to resolve property node identifiers and
//! optional names: a declaration is a line whose first token is the
//! decimal node id and whose second token is the keyword `bad` or
//! `justice`; the fourth token, where present, is the property's symbolic
//! name. Declarations are collected per kind in line order, so that the
//! declaration index of a property is its position in its kind's list.
//! Tokens are separated by runs of spaces; any other line is ignored.

use vstd::prelude::*;

use crate::grammar::{
    dec_val, digit_pred, lemma_run_len, line_pred, run_len, space_pred, token_pred,
};
use crate::interpret::{ModelInfo, ModelInfoS, PropDecl, PropDeclS};
use crate::parser::{parse_u64, scan_digits, scan_line, scan_spaces, scan_token};
use crate::PropKind;

verus! {

/// The keyword `bad` as bytes.
pub open spec fn kw_bad() -> Seq<u8> {
    seq![98u8, 97u8, 100u8]
}

/// The keyword `justice` as bytes.
pub open spec fn kw_justice() -> Seq<u8> {
    seq![106u8, 117u8, 115u8, 116u8, 105u8, 99u8, 101u8]
}

/// The declaration that the line starting at `pos` makes, if any. Token
/// runs stop at the line's terminator by themselves, since neither a
/// space run nor a token run can cross a newline byte. The name is kept
/// only where its token is plain ASCII.
pub open spec fn spec_line_decl(s: Seq<u8>, pos: int) -> Option<(PropKind, PropDeclS)> {
    let a1 = pos + run_len(s, pos, space_pred());
    let e1 = a1 + run_len(s, a1, token_pred());
    let d1 = a1 + run_len(s, a1, digit_pred());
    if e1 > a1 && d1 == e1 && dec_val(s.subrange(a1, e1)) <= u64::MAX {
        let node = dec_val(s.subrange(a1, e1)) as u64;
        let a2 = e1 + run_len(s, e1, space_pred());
        let e2 = a2 + run_len(s, a2, token_pred());
        let a3 = e2 + run_len(s, e2, space_pred());
        let e3 = a3 + run_len(s, a3, token_pred());
        let a4 = e3 + run_len(s, e3, space_pred());
        let e4 = a4 + run_len(s, a4, token_pred());
        let name = if e4 > a4 && (forall|i: int| a4 <= i < e4 ==> s[i] < 128) {
            Some(s.subrange(a4, e4).map_values(|c: u8| c as char))
        } else {
            None
        };
        if s.subrange(a2, e2) == kw_bad() {
            Some((PropKind::Bad, PropDeclS { node, name }))
        } else if s.subrange(a2, e2) == kw_justice() {
            Some((PropKind::Justice, PropDeclS { node, name }))
        } else {
            None
        }
    } else {
        None
    }
}

/// The `bad` and `justice` declarations of the text from `pos` on, one
/// line at a time, each kind in line order.
pub open spec fn spec_model_decls(s: Seq<u8>, pos: int) -> (Seq<PropDeclS>, Seq<PropDeclS>)
    decreases s.len() - pos,
    when 0 <= pos <= s.len()
    via spec_model_decls_dec
{
    if pos >= s.len() {
        (Seq::empty(), Seq::empty())
    } else {
        let lend = pos + run_len(s, pos, line_pred());
        let rest = if lend < s.len() {
            spec_model_decls(s, lend + 1)
        } else {
            (Seq::<PropDeclS>::empty(), Seq::<PropDeclS>::empty())
        };
        match spec_line_decl(s, pos) {
            Some((PropKind::Bad, d)) => (seq![d] + rest.0, rest.1),
            Some((PropKind::Justice, d)) => (rest.0, seq![d] + rest.1),
            None => rest,
        }
    }
}

#[via_fn]
proof fn spec_model_decls_dec(s: Seq<u8>, pos: int) {
    if 0 <= pos && pos < s.len() {
        lemma_run_len(s, pos, line_pred());
    }
}

/// The model that a whole text declares.
pub open spec fn spec_model_info(s: Seq<u8>) -> ModelInfoS {
    let (bads, justices) = spec_model_decls(s, 0);
    ModelInfoS { bads, justices }
}

/// Relies on `String::from_utf8`: ASCII bytes are valid UTF-8 and decode
/// to one character per byte.
#[verifier::external_body]
fn ascii_string(b: Vec<u8>) -> (r: String)
    requires
        forall|i: int| 0 <= i < b@.len() ==> b@[i] < 128,
    ensures
        r@ == b@.map_values(|c: u8| c as char),
{
    match String::from_utf8(b) {
        Ok(s) => s,
        Err(_) => String::new(),
    }
}

/// Whether every byte of `s[a..e]` is plain ASCII.
fn all_ascii(s: &[u8], a: usize, e: usize) -> (r: bool)
    requires
        a <= e <= s.len(),
    ensures
        r == (forall|i: int| a <= i < e ==> s@[i] < 128),
{
    let mut i = a;
    while i < e
        invariant
            a <= i <= e <= s.len(),
            forall|j: int| a <= j < i ==> s@[j] < 128,
        decreases e - i,
    {
        if s[i] >= 128 {
            return false;
        }
        i = i + 1;
    }
    true
}

/// Whether `s[a..e]` is the keyword `bad`.
fn is_kw_bad(s: &[u8], a: usize, e: usize) -> (r: bool)
    requires
        a <= e <= s.len(),
    ensures
        r == (s@.subrange(a as int, e as int) == kw_bad()),
{
    let ghost t = s@.subrange(a as int, e as int);
    if e - a == 3 && s[a] == 98 && s[a + 1] == 97 && s[a + 2] == 100 {
        proof {
            assert(t =~= kw_bad());
        }
        true
    } else {
        proof {
            if t == kw_bad() {
                assert(t.len() == 3);
                assert(t[0] == s@[a as int] && t[1] == s@[a + 1] && t[2] == s@[a + 2]);
            }
        }
        false
    }
}

/// Whether `s[a..e]` is the keyword `justice`.
fn is_kw_justice(s: &[u8], a: usize, e: usize) -> (r: bool)
    requires
        a <= e <= s.len(),
    ensures
        r == (s@.subrange(a as int, e as int) == kw_justice()),
{
    let ghost t = s@.subrange(a as int, e as int);
    if e - a == 7 && s[a] == 106 && s[a + 1] == 117 && s[a + 2] == 115 && s[a + 3] == 116 && s[a
        + 4] == 105 && s[a + 5] == 99 && s[a + 6] == 101 {
        proof {
            assert(t =~= kw_justice());
        }
        true
    } else {
        proof {
            if t == kw_justice() {
                assert(t.len() == 7);
                assert(t[0] == s@[a as int] && t[1] == s@[a + 1] && t[2] == s@[a + 2] && t[3]
                    == s@[a + 3] && t[4] == s@[a + 4] && t[5] == s@[a + 5] && t[6] == s@[a + 6]);
            }
        }
        false
    }
}

/// Reads the declaration that the line starting at `pos` makes, if any.
fn line_decl(s: &[u8], pos: usize) -> (r: Option<(PropKind, PropDecl)>)
    requires
        pos <= s.len(),
    ensures
        match r {
            Some((k, d)) => spec_line_decl(s@, pos as int) == Some((k, d@)),
            None => spec_line_decl(s@, pos as int) is None,
        },
{
    let a1 = scan_spaces(s, pos);
    let e1 = scan_token(s, a1);
    let d1 = scan_digits(s, a1);
    if e1 == a1 || d1 != e1 {
        return None;
    }
    let node = match parse_u64(s, a1) {
        Ok((v, _)) => v,
        Err(_) => {
            return None;
        },
    };
    let a2 = scan_spaces(s, e1);
    let e2 = scan_token(s, a2);
    let bad = is_kw_bad(s, a2, e2);
    let justice = is_kw_justice(s, a2, e2);
    if !bad && !justice {
        return None;
    }
    let a3 = scan_spaces(s, e2);
    let e3 = scan_token(s, a3);
    let a4 = scan_spaces(s, e3);
    let e4 = scan_token(s, a4);
    let name = if e4 > a4 && all_ascii(s, a4, e4) {
        let mut token: Vec<u8> = Vec::new();
        let mut i = a4;
        while i < e4
            invariant
                a4 <= i <= e4 <= s.len(),
                token@ == s@.subrange(a4 as int, i as int),
                forall|j: int| a4 <= j < e4 ==> s@[j] < 128,
            decreases e4 - i,
        {
            token.push(s[i]);
            proof {
                assert(s@.subrange(a4 as int, i + 1) =~= s@.subrange(a4 as int, i as int).push(
                    s@[i as int],
                ));
            }
            i = i + 1;
        }
        Some(ascii_string(token))
    } else {
        None
    };
    let decl = PropDecl { node, name };
    let kind = if bad {
        PropKind::Bad
    } else {
        PropKind::Justice
    };
    Some((kind, decl))
}

/// Collects the declarations of the text from `pos` on.
fn scan_model_decls(s: &[u8], pos: usize) -> (r: (Vec<PropDecl>, Vec<PropDecl>))
    requires
        pos <= s.len(),
    ensures
        r.0@.map_values(|d: PropDecl| d@) == spec_model_decls(s@, pos as int).0,
        r.1@.map_values(|d: PropDecl| d@) == spec_model_decls(s@, pos as int).1,
    decreases s.len() - pos,
{
    if pos >= s.len() {
        proof {
            assert(Seq::<PropDecl>::empty().map_values(|d: PropDecl| d@)
                =~= Seq::<PropDeclS>::empty());
        }
        return (Vec::new(), Vec::new());
    }
    let lend = scan_line(s, pos);
    let (mut bads, mut justices) = if lend < s.len() {
        scan_model_decls(s, lend + 1)
    } else {
        proof {
            assert(Seq::<PropDecl>::empty().map_values(|d: PropDecl| d@)
                =~= Seq::<PropDeclS>::empty());
        }
        (Vec::new(), Vec::new())
    };
    let ghost bads0 = bads@;
    let ghost justices0 = justices@;
    match line_decl(s, pos) {
        Some((PropKind::Bad, d)) => {
            bads.insert(0, d);
            proof {
                assert(bads@.map_values(|x: PropDecl| x@) =~= seq![d@] + bads0.map_values(
                    |x: PropDecl| x@,
                ));
            }
        },
        Some((PropKind::Justice, d)) => {
            justices.insert(0, d);
            proof {
                assert(justices@.map_values(|x: PropDecl| x@) =~= seq![d@] + justices0.map_values(
                    |x: PropDecl| x@,
                ));
            }
        },
        None => {},
    }
    (bads, justices)
}

/// Collects the property declarations of a model text: each `bad` or
/// `justice` line exposes its node id and, as the fourth token where one
/// stands, its symbolic name; the rest of the model's grammar is not
/// read.
pub fn model_info_from_btor2(text: &[u8]) -> (r: ModelInfo)
    ensures
        r@ == spec_model_info(text@),
{
    let (bads, justices) = scan_model_decls(text, 0);
    ModelInfo { bads, justices }
}

} // verus!
