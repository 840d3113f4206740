//! A flag for an action in progress and the data it carries.
use vstd::prelude::*;

verus! {

#[derive(Debug)]
pub struct GameState {
    pub active: bool,
    pub some_data: String,
}

impl GameState {
    /// No action in progress, no data.
    pub fn new() -> (r: GameState)
        ensures
            !r.active,
            r.some_data@ == Seq::<char>::empty(),
    {
        GameState { active: false, some_data: String::new() }
    }

    /// Starts an action, recording the data `Started`.
    pub fn start_action(&mut self)
        ensures
            final(self).active,
            final(self).some_data@ == "Started"@,
    {
        self.active = true;
        self.some_data = "Started".to_owned();
    }

    /// Ends the action in progress and returns its data; `None`, with
    /// nothing changed, where no action is in progress.
    pub fn end_action(&mut self) -> (r: Option<String>)
        ensures
            !final(self).active,
            final(self).some_data@ == old(self).some_data@,
            match r {
                Some(d) => old(self).active && d@ == old(self).some_data@,
                None => !old(self).active,
            },
    {
        if self.active {
            self.active = false;
            Some(self.some_data.clone())
        } else {
            None
        }
    }
}

} // verus!
