use vstd::prelude::*;

verus! {

/// Playing strength, mapped to a search-depth bound at game construction.
#[derive(Clone, Copy, PartialEq, Eq, Structural, Debug)]
pub enum BotDifficulty {
    Easy,
    Medium,
    Hard,
    Insane,
}

/// The depth bound each difficulty buys; the top tier searches to the
/// end of the game.
pub open spec fn spec_depth_for(d: BotDifficulty) -> Option<usize> {
    match d {
        BotDifficulty::Easy => Some(1usize),
        BotDifficulty::Medium => Some(4usize),
        BotDifficulty::Hard => Some(8usize),
        BotDifficulty::Insane => None,
    }
}

pub fn depth_for(d: BotDifficulty) -> (r: Option<usize>)
    ensures
        r == spec_depth_for(d),
{
    match d {
        BotDifficulty::Easy => Some(1),
        BotDifficulty::Medium => Some(4),
        BotDifficulty::Hard => Some(8),
        BotDifficulty::Insane => None,
    }
}

} // verus!
