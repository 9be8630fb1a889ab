//! The game record: two teams of player indices, one per side of a court.

use vstd::prelude::*;

verus! {

/// One proposed or completed match: two teams of player indices.
///
/// A player is identified by its position in the session's roster. A game
/// proposed by the engine always has disjoint teams of equal size, but the
/// struct itself places no such restriction: the log accepts any record.
#[derive(Debug, Clone, PartialEq, Eq, Hash)]
pub struct Game {
    pub team_a: Vec<usize>,
    pub team_b: Vec<usize>,
}

/// Whether player `p` appears on either side of `g`.
pub open spec fn game_involves(g: Game, p: usize) -> bool {
    g.team_a@.contains(p) || g.team_b@.contains(p)
}

/// Whether the team composition `t` is one of the two sides of `g`.
pub open spec fn game_has_side(g: Game, t: Seq<usize>) -> bool {
    g.team_a@ == t || g.team_b@ == t
}

/// A player stands in the concatenation of the two teams exactly when the
/// game involves it.
pub proof fn lemma_players_contains(g: Game, p: usize)
    ensures
        (g.team_a@ + g.team_b@).contains(p) <==> game_involves(g, p),
{
    let all = g.team_a@ + g.team_b@;
    if all.contains(p) {
        let idx = choose|idx: int| 0 <= idx < all.len() && all[idx] == p;
        if idx < g.team_a@.len() {
            assert(g.team_a@[idx] == p);
        } else {
            assert(g.team_b@[idx - g.team_a@.len()] == p);
        }
    }
    if game_involves(g, p) {
        if g.team_a@.contains(p) {
            let idx = choose|idx: int| 0 <= idx < g.team_a@.len() && g.team_a@[idx] == p;
            assert(all[idx] == p);
        } else {
            let idx = choose|idx: int| 0 <= idx < g.team_b@.len() && g.team_b@[idx] == p;
            assert(all[g.team_a@.len() + idx] == p);
        }
    }
}

impl Game {
    /// All player indices in the game, team A first, then team B.
    pub fn players(&self) -> (r: Vec<usize>)
        ensures
            r@ == self.team_a@ + self.team_b@,
    {
        let mut r: Vec<usize> = Vec::new();
        let mut i: usize = 0;
        while i < self.team_a.len()
            invariant
                i <= self.team_a@.len(),
                r@ == self.team_a@.take(i as int),
            decreases self.team_a@.len() - i,
        {
            r.push(self.team_a[i]);
            i = i + 1;
        }
        assert(r@ == self.team_a@) by {
            assert(self.team_a@.take(self.team_a@.len() as int) =~= self.team_a@);
        }
        let mut j: usize = 0;
        while j < self.team_b.len()
            invariant
                j <= self.team_b@.len(),
                r@ == self.team_a@ + self.team_b@.take(j as int),
            decreases self.team_b@.len() - j,
        {
            proof {
                assert(self.team_a@ + self.team_b@.take(j as int + 1) =~= (self.team_a@
                    + self.team_b@.take(j as int)).push(self.team_b@[j as int]));
            }
            r.push(self.team_b[j]);
            j = j + 1;
        }
        proof {
            assert(self.team_b@.take(self.team_b@.len() as int) =~= self.team_b@);
        }
        r
    }

    /// The two sides of the game, team A first.
    pub fn pairs(&self) -> (r: [&Vec<usize>; 2])
        ensures
            r@.len() == 2,
            r@[0]@ == self.team_a@,
            r@[1]@ == self.team_b@,
    {
        [&self.team_a, &self.team_b]
    }
}

} // verus!
