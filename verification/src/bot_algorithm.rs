use vstd::prelude::*;

verus! {

/// Which search the bot runs.
#[derive(Clone, Copy, PartialEq, Eq, Structural, Debug)]
pub enum BotAlgorithm {
    MinMax,
    AlphaBeta,
    NegaMax,
    Async,
}

} // verus!
