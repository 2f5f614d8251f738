use vstd::prelude::*;

verus! {

/// How the bot scores a board it will not search beyond.
#[derive(Clone, Copy, PartialEq, Eq, Structural, Debug)]
pub enum BotHeuristic {
    UniformWeighting,
    TacticalWeighting,
}

} // verus!
