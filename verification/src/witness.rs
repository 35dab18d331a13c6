//! The parsed shape of a witness trace, and its abstract view.
//!
//! The executable structures hold plain bytes and vectors; each has a ghost
//! mirror built from `Seq` and `Option`, reached through `view`, and the
//! parsing contracts speak of those mirrors.

use vstd::prelude::*;

use crate::Prop;

verus! {

/// One bit- or array-valued observation at a simulation step. `value` holds
/// the binary digits of the assigned bit-vector; `index` is present only
/// for an array element write; `name` is the optional trailing symbolic
/// name of the assigned variable.
#[derive(Debug, Clone, PartialEq, Eq)]
pub struct Assignment {
    pub id: u64,
    pub index: Option<u64>,
    pub value: Vec<u8>,
    pub name: Option<Vec<u8>>,
}

/// Abstract view of an [`Assignment`].
pub ghost struct AssignmentS {
    pub id: u64,
    pub index: Option<u64>,
    pub value: Seq<u8>,
    pub name: Option<Seq<u8>>,
}

impl View for Assignment {
    type V = AssignmentS;

    open spec fn view(&self) -> AssignmentS {
        AssignmentS {
            id: self.id,
            index: self.index,
            value: self.value@,
            name: match self.name {
                Some(n) => Some(n@),
                None => None,
            },
        }
    }
}

/// The unordered collection of assignments of one step block; empty when
/// the step records no observation.
#[derive(Debug, Clone, PartialEq, Eq, Default)]
pub struct Model {
    pub assignments: Vec<Assignment>,
}

impl View for Model {
    type V = Seq<AssignmentS>;

    open spec fn view(&self) -> Seq<AssignmentS> {
        self.assignments@.map_values(|a: Assignment| a@)
    }
}

/// One declared step number paired with its observations.
#[derive(Debug, Clone, PartialEq, Eq)]
pub struct Transition {
    pub step: u64,
    pub model: Model,
}

/// Abstract view of a [`Transition`].
pub ghost struct TransitionS {
    pub step: u64,
    pub assignments: Seq<AssignmentS>,
}

impl View for Transition {
    type V = TransitionS;

    open spec fn view(&self) -> TransitionS {
        TransitionS { step: self.step, assignments: self.model@ }
    }
}

/// One frame of the trace: an optional state snapshot transition and the
/// mandatory input transition.
#[derive(Debug, Clone, PartialEq, Eq)]
pub struct WitnessFrame {
    pub state_part: Option<Transition>,
    pub input_part: Transition,
}

/// Abstract view of a [`WitnessFrame`].
pub ghost struct FrameS {
    pub state_part: Option<TransitionS>,
    pub input_part: TransitionS,
}

impl View for WitnessFrame {
    type V = FrameS;

    open spec fn view(&self) -> FrameS {
        FrameS {
            state_part: match self.state_part {
                Some(t) => Some(t@),
                None => None,
            },
            input_part: self.input_part@,
        }
    }
}

/// The properties a trace declares as violated, in reporting order.
#[derive(Debug, Clone, PartialEq, Eq)]
pub struct WitnessHeader {
    pub props: Vec<Prop>,
}

impl View for WitnessHeader {
    type V = Seq<Prop>;

    open spec fn view(&self) -> Seq<Prop> {
        self.props@
    }
}

/// One complete counterexample trace: its header and its frames.
#[derive(Debug, Clone, PartialEq, Eq)]
pub struct WitnessFormat {
    pub header: WitnessHeader,
    pub frames: Vec<WitnessFrame>,
}

/// Abstract view of a [`WitnessFormat`].
pub ghost struct BlockS {
    pub props: Seq<Prop>,
    pub frames: Seq<FrameS>,
}

impl View for WitnessFormat {
    type V = BlockS;

    open spec fn view(&self) -> BlockS {
        BlockS { props: self.header@, frames: self.frames@.map_values(|f: WitnessFrame| f@) }
    }
}

} // verus!
