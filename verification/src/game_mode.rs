use vstd::prelude::*;

verus! {

/// Whether the second seat is played by a person or by the bot.
#[derive(Clone, Copy, PartialEq, Eq, Structural, Debug)]
pub enum GameMode {
    PlayerVsAi,
    PlayerVsPlayer,
}

} // verus!
