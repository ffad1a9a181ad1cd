//! Player actions and the audit record kept with each transition.

use vstd::prelude::*;
use crate::stage::Stage;

verus! {

/// The four action kinds.
#[derive(Debug, Clone, Copy, PartialEq, Eq, Structural)]
pub enum ActionEnum {
    Fold,
    Check,
    Call,
    Raise,
}

/// An action as proposed by a player: the kind, and for a raise the amount
/// added on top of the call level.  The amount is ignored for the other kinds.
#[derive(Debug, Clone, Copy, PartialEq, Eq, Structural)]
pub struct Action {
    pub action: ActionEnum,
    pub amount: u64,
}

impl Action {
    /// Builds an action of the given kind and amount.
    pub fn new(action: ActionEnum, amount: u64) -> (a: Action)
        ensures
            a == (Action { action, amount }),
    {
        Action { action, amount }
    }
}

/// The audit record of the most recently applied action: who acted, during
/// which street, what they proposed, and the legal-action set the proposal was
/// validated against.
#[derive(Debug, Clone, PartialEq)]
pub struct ActionRecord {
    pub player: u64,
    pub stage: Stage,
    pub action: Action,
    pub legal_actions: Vec<ActionEnum>,
}

impl ActionRecord {
    /// Whether this record says that `player` proposed `action` during `stage`,
    /// validated against the legal-action set `legal`.
    pub open spec fn records_spec(
        self,
        player: u64,
        stage: Stage,
        action: Action,
        legal: Seq<ActionEnum>,
    ) -> bool {
        &&& self.player == player
        &&& self.stage == stage
        &&& self.action == action
        &&& self.legal_actions@ == legal
    }
}

} // verus!
