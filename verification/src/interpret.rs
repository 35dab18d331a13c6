//! Resolution of declared properties against the original model, and
//! per-block summaries.
//!
//! A witness header names a property only by kind and declaration index.
//! The model that the witness was generated from declares, for each kind in
//! order, the property's internal node identifier and an optional symbolic
//! name; resolving the index against those declarations yields the enriched
//! form. The node identifier is mandatory: without a model, or for an index
//! the model does not declare, resolution is a hard error and no identifier
//! is ever fabricated.

use vstd::prelude::*;

use crate::witness::WitnessFormat;
use crate::{Prop, PropKind};

verus! {

/// One property declaration of the original model: its node identifier and
/// its optional symbolic name, at its declaration position among the
/// properties of one kind.
#[derive(Debug, Clone, PartialEq, Eq)]
pub struct PropDecl {
    pub node: u64,
    pub name: Option<String>,
}

/// Abstract view of a [`PropDecl`].
pub ghost struct PropDeclS {
    pub node: u64,
    pub name: Option<Seq<char>>,
}

impl View for PropDecl {
    type V = PropDeclS;

    open spec fn view(&self) -> PropDeclS {
        PropDeclS {
            node: self.node,
            name: match self.name {
                Some(n) => Some(n@),
                None => None,
            },
        }
    }
}

/// The property declarations of one model, each kind in declaration order:
/// the property `b3` is `bads[3]`, `j0` is `justices[0]`.
#[derive(Debug, Clone, PartialEq, Eq)]
pub struct ModelInfo {
    pub bads: Vec<PropDecl>,
    pub justices: Vec<PropDecl>,
}

/// Abstract view of a [`ModelInfo`].
pub ghost struct ModelInfoS {
    pub bads: Seq<PropDeclS>,
    pub justices: Seq<PropDeclS>,
}

impl View for ModelInfo {
    type V = ModelInfoS;

    open spec fn view(&self) -> ModelInfoS {
        ModelInfoS {
            bads: self.bads@.map_values(|d: PropDecl| d@),
            justices: self.justices@.map_values(|d: PropDecl| d@),
        }
    }
}

/// A declared property enriched by the model: the mandatory node
/// identifier and the optional symbolic name of the declaration the
/// witness refers to.
#[derive(Debug, Clone, PartialEq, Eq)]
pub struct ResolvedProp {
    pub kind: PropKind,
    pub name: Option<String>,
    pub node: u64,
    pub idx: u64,
}

/// Abstract view of a [`ResolvedProp`].
pub ghost struct ResolvedPropS {
    pub kind: PropKind,
    pub name: Option<Seq<char>>,
    pub node: u64,
    pub idx: u64,
}

impl View for ResolvedProp {
    type V = ResolvedPropS;

    open spec fn view(&self) -> ResolvedPropS {
        ResolvedPropS {
            kind: self.kind,
            name: match self.name {
                Some(n) => Some(n@),
                None => None,
            },
            node: self.node,
            idx: self.idx,
        }
    }
}

/// Why a property could not be resolved: no model input was supplied, or
/// the model declares no property of the given kind at the given index.
#[derive(Debug, Clone, Copy, PartialEq, Eq, Structural)]
pub enum ResolveError {
    MissingModel,
    Undeclared { kind: PropKind, idx: u64 },
}

/// The declarations of one kind, in declaration order.
pub open spec fn spec_decls_of(m: ModelInfoS, kind: PropKind) -> Seq<PropDeclS> {
    match kind {
        PropKind::Bad => m.bads,
        PropKind::Justice => m.justices,
    }
}

/// What resolving a declared property against a model yields: the
/// declaration of the same kind at the same index, or nothing.
pub open spec fn spec_resolve(m: ModelInfoS, p: Prop) -> Option<ResolvedPropS> {
    let ds = spec_decls_of(m, p.kind);
    if p.idx < ds.len() {
        Some(
            ResolvedPropS {
                kind: p.kind,
                name: ds[p.idx as int].name,
                node: ds[p.idx as int].node,
                idx: p.idx,
            },
        )
    } else {
        None
    }
}

impl ModelInfo {
    /// Resolves one declared property against this model; fails exactly
    /// when the model declares no property of that kind at that index.
    pub fn resolve(&self, p: &Prop) -> (r: Result<ResolvedProp, ResolveError>)
        ensures
            match r {
                Ok(rp) => spec_resolve(self@, *p) == Some(rp@),
                Err(e) => spec_resolve(self@, *p) is None && e == (ResolveError::Undeclared {
                    kind: p.kind,
                    idx: p.idx,
                }),
            },
    {
        let ds: &Vec<PropDecl> = match p.kind {
            PropKind::Bad => &self.bads,
            PropKind::Justice => &self.justices,
        };
        proof {
            assert(spec_decls_of(self@, p.kind) =~= ds@.map_values(|d: PropDecl| d@));
        }
        if p.idx < ds.len() as u64 {
            let d = &ds[p.idx as usize];
            assert(spec_decls_of(self@, p.kind)[p.idx as int] == d@);
            assert(spec_resolve(self@, *p) is Some);
            let name = match &d.name {
                Some(n) => Some(n.clone()),
                None => None,
            };
            let rp = ResolvedProp { kind: p.kind, name, node: d.node, idx: p.idx };
            proof {
                assert(rp@.name == d@.name);
                assert(rp@.node == d@.node);
                assert(spec_resolve(self@, *p)->Some_0 == rp@);
            }
            Ok(rp)
        } else {
            Err(ResolveError::Undeclared { kind: p.kind, idx: p.idx })
        }
    }
}

/// The externally consumed summary of one witness block: the resolved
/// properties in header order, and the trace's step count.
#[derive(Debug, Clone, PartialEq, Eq)]
pub struct InterpretedRun {
    pub props: Vec<ResolvedProp>,
    pub steps: usize,
}

/// `run` is the correct summary of the block `w` under the model `m`:
/// one resolved property per header entry, in order, and the step count
/// equal to the number of frames.
pub open spec fn spec_run_ok(m: ModelInfoS, w: WitnessFormat, run: InterpretedRun) -> bool {
    &&& run.steps == w.frames@.len()
    &&& run.props@.len() == w.header@.len()
    &&& forall|i: int|
        0 <= i < w.header@.len() ==> spec_resolve(m, w.header@[i]) == Some(
            #[trigger] run.props@[i]@,
        )
}

/// Interprets one parsed witness block: resolves every header property
/// against the model and counts the frames. Fails with `MissingModel`
/// whenever no model is supplied, and with `Undeclared` exactly when some
/// header property has no declaration of its kind at its index; a node
/// identifier is never invented.
pub fn interpret(w: &WitnessFormat, model: Option<&ModelInfo>) -> (r: Result<
    InterpretedRun,
    ResolveError,
>)
    ensures
        match model {
            None => r is Err && r->Err_0 == ResolveError::MissingModel,
            Some(m) => match r {
                Ok(run) => spec_run_ok(m@, *w, run),
                Err(e) => {
                    &&& exists|i: int|
                        0 <= i < w.header@.len() && spec_resolve(m@, #[trigger] w.header@[i])
                            is None
                    &&& e is Undeclared
                },
            },
        },
{
    if model.is_none() {
        return Err(ResolveError::MissingModel);
    }
    let m = model.unwrap();
    let mut props: Vec<ResolvedProp> = Vec::new();
    let mut i: usize = 0;
    while i < w.header.props.len()
        invariant
            0 <= i <= w.header.props.len(),
            props@.len() == i,
            model is Some && m == model->Some_0,
            forall|j: int|
                0 <= j < i ==> spec_resolve(m@, w.header@[j]) == Some(#[trigger] props@[j]@),
        decreases w.header.props.len() - i,
    {
        match m.resolve(&w.header.props[i]) {
            Ok(rp) => {
                props.push(rp);
            },
            Err(e) => {
                assert(spec_resolve(m@, w.header@[i as int]) is None);
                return Err(e);
            },
        }
        i = i + 1;
    }
    Ok(InterpretedRun { props, steps: w.frames.len() })
}

/// Interprets every block of a multi-block output, preserving block
/// order; zero, one, or many blocks are supported uniformly. Succeeds
/// exactly when a model is supplied (or there is nothing to interpret)
/// and every header property of every block resolves against it.
pub fn interpret_all(ws: &Vec<WitnessFormat>, model: Option<&ModelInfo>) -> (r: Result<
    Vec<InterpretedRun>,
    ResolveError,
>)
    ensures
        match model {
            None => if ws@.len() == 0 {
                r is Ok && r->Ok_0@.len() == 0
            } else {
                r is Err && r->Err_0 == ResolveError::MissingModel
            },
            Some(m) => match r {
                Ok(runs) => runs@.len() == ws@.len() && forall|k: int|
                    0 <= k < ws@.len() ==> spec_run_ok(m@, #[trigger] ws@[k], runs@[k]),
                Err(e) => {
                    &&& e is Undeclared
                    &&& exists|k: int, i: int|
                        0 <= k < ws@.len() && 0 <= i < ws@[k].header@.len() && spec_resolve(
                            m@,
                            #[trigger] ws@[k].header@[i],
                        ) is None
                },
            },
        },
{
    let mut runs: Vec<InterpretedRun> = Vec::new();
    let mut k: usize = 0;
    while k < ws.len()
        invariant
            0 <= k <= ws.len(),
            runs@.len() == k,
            model is Some ==> forall|j: int|
                0 <= j < k ==> spec_run_ok(model->Some_0@, #[trigger] ws@[j], runs@[j]),
            model is None ==> k == 0,
        decreases ws.len() - k,
    {
        match interpret(&ws[k], model) {
            Ok(run) => {
                runs.push(run);
            },
            Err(e) => {
                proof {
                    if model is Some {
                        let m = model->Some_0;
                        let i0 = choose|i: int|
                            0 <= i < ws@[k as int].header@.len() && spec_resolve(
                                m@,
                                #[trigger] ws@[k as int].header@[i],
                            ) is None;
                        assert(0 <= k < ws@.len() && 0 <= i0 < ws@[k as int].header@.len()
                            && spec_resolve(m@, ws@[k as int].header@[i0]) is None);
                    }
                }
                return Err(e);
            },
        }
        k = k + 1;
    }
    Ok(runs)
}

} // verus!
