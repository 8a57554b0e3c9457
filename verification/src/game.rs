//! The state capability contract and the evaluator boundary.
//!
//! The engine is game-agnostic: concrete rules satisfy [`GameState`], and the
//! value/policy oracle satisfies [`Evaluator`]. Both contracts are stated over
//! spec-level views so that every engine result is a function of the inputs.

use vstd::prelude::*;

use crate::fixed::{sum_int, VSCALE};

verus! {

/// The two players of the zero-sum game; the perspective of a state is the
/// player whose move it is there.
#[derive(Clone, Copy, Debug, PartialEq, Eq, Structural)]
pub enum Player {
    Left,
    Right,
}

/// The capability contract a concrete game's state must satisfy.
///
/// Actions are opaque, totally-ordered identifiers, carried as `u64` so that
/// iteration over a node's children is deterministic and tie-breaks are
/// reproducible. A state is treated as a pure value: `apply` replaces it by
/// the successor state that its own spec-level transition function names, so
/// two walks of the same action sequence reach the same state.
pub trait GameState: Sized {
    /// Whose turn it is in this state.
    spec fn spec_perspective(&self) -> Player;

    /// Whether the game is over in this state.
    spec fn spec_is_terminal(&self) -> bool;

    /// The terminal outcome, as a fixed-point value in `[0, VSCALE]` from the
    /// perspective of the player to move at this state.
    spec fn spec_terminal_value(&self) -> int;

    /// The legal actions of this state, in canonical (ascending) order.
    spec fn spec_legal_actions(&self) -> Seq<u64>;

    /// The successor state reached by playing `action` here.
    spec fn spec_apply(&self, action: u64) -> Self;

    fn perspective(&self) -> (p: Player)
        ensures
            p == self.spec_perspective(),
    ;

    fn is_terminal(&self) -> (t: bool)
        ensures
            t == self.spec_is_terminal(),
    ;

    /// Only a finished game has a terminal outcome.
    fn terminal_value(&self) -> (v: u64)
        requires
            self.spec_is_terminal(),
        ensures
            v == self.spec_terminal_value(),
            0 <= self.spec_terminal_value() <= VSCALE,
    ;

    /// A position that is not over offers at least one action, and the list
    /// is strictly ascending, which makes it duplicate-free and canonical.
    fn legal_actions(&self) -> (acts: Vec<u64>)
        ensures
            acts@ == self.spec_legal_actions(),
            actions_canonical(self.spec_legal_actions()),
            !self.spec_is_terminal() ==> self.spec_legal_actions().len() > 0,
    ;

    fn apply(&mut self, action: u64)
        ensures
            *final(self) == old(self).spec_apply(action),
    ;

    /// An explicit value copy: the engine clones the input state down each
    /// simulation path.
    fn duplicate(&self) -> (s: Self)
        ensures
            s == *self,
    ;
}

/// A strictly ascending action list: the canonical child order.
pub open spec fn actions_canonical(acts: Seq<u64>) -> bool {
    forall|i: int, j: int| 0 <= i < j < acts.len() ==> acts[i] < acts[j]
}

/// The evaluator could not produce a value and policy for a position; fatal
/// to the move decision in progress, never retried by the engine.
#[derive(Clone, Copy, Debug, PartialEq, Eq, Structural)]
pub struct EvaluatorFailure;

/// What the evaluator returns for one position: a value in `[0, VSCALE]` for
/// the player to move, and one prior in `[0, VSCALE]` per legal action, in
/// canonical action order, summing to exactly `VSCALE`.
pub struct Evaluation {
    pub value: u64,
    pub priors: Vec<u64>,
}

/// Spec-level image of an [`Evaluation`].
pub ghost struct EvalModel {
    pub value: int,
    pub priors: Seq<int>,
}

impl View for Evaluation {
    type V = EvalModel;

    open spec fn view(&self) -> EvalModel {
        EvalModel { value: self.value as int, priors: self.priors@.map_values(|p: u64| p as int) }
    }
}

/// Well-formedness of an evaluation against the legal actions it prices.
pub open spec fn eval_wf(ev: EvalModel, acts: Seq<u64>) -> bool {
    &&& 0 <= ev.value <= VSCALE
    &&& ev.priors.len() == acts.len()
    &&& forall|i: int| 0 <= i < ev.priors.len() ==> 0 <= #[trigger] ev.priors[i] <= VSCALE
    &&& sum_int(ev.priors) == VSCALE
}

/// The value/policy oracle the engine consults at each unexpanded leaf.
///
/// The contract makes the oracle a function of the position: this is what
/// lets a fixed evaluator give reproducible searches. An oracle that cannot
/// price a position answers `Err(EvaluatorFailure)`, which aborts the move
/// decision; success and failure are part of the same spec-level function,
/// so the engine's behaviour stays pinned either way.
pub trait Evaluator<S: GameState>: Sized {
    /// The oracle as a spec-level function; `None` models a failed inference.
    spec fn spec_evaluate(&self, s: S) -> Option<EvalModel>;

    fn evaluate(&self, s: &S) -> (r: Result<Evaluation, EvaluatorFailure>)
        ensures
            match self.spec_evaluate(*s) {
                Some(ev) => {
                    &&& r is Ok
                    &&& r.unwrap()@ == ev
                    &&& eval_wf(ev, s.spec_legal_actions())
                },
                None => r is Err,
            },
    ;
}

} // verus!
