use vstd::prelude::*;

use crate::player::Player;

verus! {

/// A fresh vector holding the same coordinates.
pub(crate) fn copy_coords(v: &Vec<(usize, usize)>) -> (r: Vec<(usize, usize)>)
    ensures
        r@ == v@,
{
    let mut r: Vec<(usize, usize)> = Vec::new();
    let mut k: usize = 0;
    while k < v.len()
        invariant
            k <= v.len(),
            r@.len() == k,
            forall|i: int| 0 <= i < k ==> r@[i] == v@[i],
        decreases v.len() - k,
    {
        r.push(v[k]);
        k += 1;
    }
    proof {
        assert(r@ =~= v@);
    }
    r
}

/// Append-only stack of played moves; each entry holds exactly what a
/// single-step undo needs: the mover, the placed coordinate, and the
/// coordinates the move captured.
#[derive(Debug)]
pub struct History {
    entries: Vec<(Player, (usize, usize), Vec<(usize, usize)>)>,
}

impl View for History {
    type V = Seq<(Player, (usize, usize), Seq<(usize, usize)>)>;

    closed spec fn view(&self) -> Seq<(Player, (usize, usize), Seq<(usize, usize)>)> {
        self.entries@.map_values(
            |e: (Player, (usize, usize), Vec<(usize, usize)>)| (e.0, e.1, e.2@),
        )
    }
}

impl History {
    pub fn new() -> (r: History)
        ensures
            r@ == Seq::<(Player, (usize, usize), Seq<(usize, usize)>)>::empty(),
    {
        let r = History { entries: Vec::new() };
        proof {
            assert(r@ =~= Seq::<(Player, (usize, usize), Seq<(usize, usize)>)>::empty());
        }
        r
    }

    /// Record one played move.
    pub fn push(
        &mut self,
        player: Player,
        coord: (usize, usize),
        captured_pieces: Vec<(usize, usize)>,
    )
        ensures
            final(self)@ == old(self)@.push((player, coord, captured_pieces@)),
    {
        let ghost pre = self@;
        self.entries.push((player, coord, captured_pieces));
        proof {
            assert(self@ =~= pre.push((player, coord, captured_pieces@)));
        }
    }

    /// An identical history with freshly allocated storage.
    pub fn duplicate(&self) -> (r: History)
        ensures
            r@ == self@,
    {
        let mut entries: Vec<(Player, (usize, usize), Vec<(usize, usize)>)> = Vec::new();
        let mut k: usize = 0;
        while k < self.entries.len()
            invariant
                k <= self.entries.len(),
                entries@.len() == k,
                forall|i: int|
                    0 <= i < k ==> (#[trigger] entries@[i]).0 == self.entries@[i].0 && entries@[i].1
                        == self.entries@[i].1 && entries@[i].2@ == self.entries@[i].2@,
            decreases self.entries.len() - k,
        {
            let e = &self.entries[k];
            let caps = copy_coords(&e.2);
            entries.push((e.0, e.1, caps));
            k += 1;
        }
        let r = History { entries };
        proof {
            assert forall|i: int| 0 <= i < r@.len() implies r@[i] == self@[i] by {
                assert(r@[i] == (r.entries@[i].0, r.entries@[i].1, r.entries@[i].2@));
                assert(self@[i] == (self.entries@[i].0, self.entries@[i].1, self.entries@[i].2@));
            }
            assert(r@ =~= self@);
        }
        r
    }

    /// Remove and return the most recent move, if any.
    pub fn pop(&mut self) -> (r: Option<(Player, (usize, usize), Vec<(usize, usize)>)>)
        ensures
            old(self)@.len() == 0 ==> r is None && final(self)@ == old(self)@,
            old(self)@.len() > 0 ==> {
                let e = r->0;
                &&& r is Some
                &&& (e.0, e.1, e.2@) == old(self)@.last()
                &&& final(self)@ == old(self)@.drop_last()
            },
    {
        let ghost pre = self@;
        let r = self.entries.pop();
        proof {
            if pre.len() > 0 {
                assert(self@ =~= pre.drop_last());
            } else {
                assert(self@ =~= pre);
            }
        }
        r
    }
}

} // verus!
