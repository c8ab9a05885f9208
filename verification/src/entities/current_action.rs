use vstd::prelude::*;
use vstd::string::StringExecFns;

verus! {

/// The name of the action a creature is performing, for display.
#[derive(Debug, Clone)]
pub struct CurrentAction {
    pub action_name: String,
}

impl CurrentAction {
    pub fn new(action_name: &str) -> (a: CurrentAction)
        ensures
            a.action_name@ == action_name@,
    {
        CurrentAction { action_name: String::from_str(action_name) }
    }

    /// A creature doing nothing: `"Idle"`.
    pub fn none() -> (a: CurrentAction)
        ensures
            a.action_name@ == "Idle"@,
    {
        CurrentAction { action_name: String::from_str("Idle") }
    }
}

impl Default for CurrentAction {
    fn default() -> (a: CurrentAction)
        ensures
            a.action_name@ == "Idle"@,
    {
        CurrentAction::none()
    }
}

} // verus!
