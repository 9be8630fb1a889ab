//! The session: an ordered roster, an append-only game log, the court and
//! team-size configuration, and the tie-break strategy.

use vstd::prelude::*;
use std::collections::HashMap;
use crate::game::{Game, game_involves, lemma_players_contains};
use crate::combos::{spec_combinations, lemma_insufficiency};
use crate::history::{player_count, team_count, contains_up_to, record_side, side_recorded,
    side_of_log, lemma_side_recorded_extend, lemma_player_count_le};
use crate::propose::{eligible_pool, lemma_eligible_pool, build_pool, propose, proposal_post};
use crate::render::{game_text, render_game};
use crate::shuffle::{spec_shuffle, lemma_shuffle_props, shuffle_pool};

verus! {

/// How equal-cost candidates are told apart: in roster order, or in an
/// order drawn from an injected seed.
#[derive(Debug, Clone, Copy, PartialEq, Eq, Structural)]
pub enum GenerationStrategy {
    /// Enumerate the eligible pool in roster order; fully deterministic.
    Normal,
    /// Permute the eligible pool from the given seed before enumerating,
    /// so ties resolve differently from round to round, reproducibly.
    Shuffled(u64),
}

/// A session where a group of players shares a set of courts over a series
/// of games.
#[derive(Debug, Clone)]
pub struct Session {
    /// The roster. A player's index in this list is its identity.
    pub player_names: Vec<String>,
    /// The append-only log of committed games.
    pub games: Vec<Game>,
    /// The number of courts in simultaneous use.
    pub courts: usize,
    /// The number of players on one side of a court.
    pub team_size: usize,
    /// The tie-break strategy for equal-cost candidates.
    pub generation_strategy: GenerationStrategy,
}

/// The configured team size, with the malformed zero normalized to one.
pub open spec fn effective_team_size(team_size: usize) -> usize {
    if team_size == 0 {
        1
    } else {
        team_size
    }
}

/// The configured court count, with the malformed zero normalized to one.
pub open spec fn effective_courts(courts: usize) -> usize {
    if courts == 0 {
        1
    } else {
        courts
    }
}

/// The players committed to the other courts of the current round. The
/// round position is the log length modulo the court count; the players of
/// that many latest games cannot also play the next game.
pub open spec fn excluded_set(games: Seq<Game>, courts: usize) -> Set<usize> {
    let slot = games.len() % (effective_courts(courts) as nat);
    Set::new(
        |p: usize|
            exists|gi: int| games.len() - slot <= gi < games.len() && game_involves(games[gi], p),
    )
}

/// The seed driving the shuffle of one proposal: the injected seed mixed
/// with the round number, so successive proposals differ.
pub open spec fn round_seed(seed: u64, round: nat) -> u64 {
    seed ^ (round as u64)
}

/// The ordered pool a proposal enumerates: the eligible players, in roster
/// order, or permuted when the strategy says so.
pub open spec fn generation_pool(s: Session, excluded: Set<usize>) -> Seq<usize> {
    let pool = eligible_pool(s.player_names@.len(), excluded);
    match s.generation_strategy {
        GenerationStrategy::Normal => pool,
        GenerationStrategy::Shuffled(seed) => spec_shuffle(
            pool,
            round_seed(seed, s.games@.len()),
        ),
    }
}

/// With fewer eligible players than two teams' worth, a proposal never
/// comes out, whatever the tie-break strategy: shuffling the pool keeps
/// its size, and too small a pool admits no pair of disjoint teams.
pub proof fn lemma_insufficient_pool(s: Session, excluded: Set<usize>, r: Option<Game>)
    requires
        proposal_post(
            s.games@,
            generation_pool(s, excluded),
            s.player_names@.len(),
            excluded,
            effective_team_size(s.team_size) as nat,
            r,
        ),
        eligible_pool(s.player_names@.len(), excluded).len() < 2 * effective_team_size(
            s.team_size,
        ),
    ensures
        r is None,
{
    match s.generation_strategy {
        GenerationStrategy::Normal => {},
        GenerationStrategy::Shuffled(seed) => {
            lemma_shuffle_props(
                eligible_pool(s.player_names@.len(), excluded),
                round_seed(seed, s.games@.len()),
            );
        },
    }
}

impl Default for Session {
    /// An empty session: one court, doubles, deterministic tie-break.
    fn default() -> (s: Session)
        ensures
            s.player_names@ == Seq::<String>::empty(),
            s.games@ == Seq::<Game>::empty(),
            s.courts == 1,
            s.team_size == 2,
            s.generation_strategy == GenerationStrategy::Normal,
    {
        Session {
            player_names: Vec::new(),
            games: Vec::new(),
            courts: 1,
            team_size: 2,
            generation_strategy: GenerationStrategy::Normal,
        }
    }
}

impl Session {
    /// Commit a game: append it to the log. Nothing else changes.
    pub fn add_game(&mut self, g: Game)
        ensures
            final(self).games@ == old(self).games@.push(g),
            final(self).player_names@ == old(self).player_names@,
            final(self).courts == old(self).courts,
            final(self).team_size == old(self).team_size,
            final(self).generation_strategy == old(self).generation_strategy,
    {
        self.games.push(g);
    }

    /// Remove the first player of that name from the roster and clear the
    /// whole game log: the log refers to players by index, and removal
    /// shifts every later index. A name not on the roster changes nothing.
    pub fn remove_player(&mut self, player: &str)
        ensures
            (forall|i: int|
                0 <= i < old(self).player_names@.len() ==> old(self).player_names@[i]@
                    != player@) ==> {
                &&& final(self).player_names@ == old(self).player_names@
                &&& final(self).games@ == old(self).games@
            },
            (exists|i: int|
                0 <= i < old(self).player_names@.len() && old(self).player_names@[i]@
                    == player@) ==> (exists|i: int|
                {
                    &&& 0 <= i < old(self).player_names@.len()
                    &&& old(self).player_names@[i]@ == player@
                    &&& forall|j: int| 0 <= j < i ==> old(self).player_names@[j]@ != player@
                    &&& final(self).player_names@ == old(self).player_names@.remove(i)
                    &&& final(self).games@ == Seq::<Game>::empty()
                }),
            final(self).courts == old(self).courts,
            final(self).team_size == old(self).team_size,
            final(self).generation_strategy == old(self).generation_strategy,
    {
        let target: String = player.to_owned();
        let n = self.player_names.len();
        let mut i: usize = 0;
        while i < n
            invariant
                i <= n,
                n == self.player_names@.len(),
                target@ == player@,
                self.player_names@ == old(self).player_names@,
                self.games@ == old(self).games@,
                self.courts == old(self).courts,
                self.team_size == old(self).team_size,
                self.generation_strategy == old(self).generation_strategy,
                forall|j: int| 0 <= j < i ==> self.player_names@[j]@ != player@,
            decreases n - i,
        {
            if self.player_names[i] == target {
                self.games = Vec::new();
                self.player_names.remove(i);
                return ;
            }
            i = i + 1;
        }
    }

    /// How many games each player has played: one entry per player that
    /// appears in the log, counting the games that hold it on either side.
    /// A player with no entry has played no game.
    pub fn player_game_counts(&self) -> (r: HashMap<usize, usize>)
        ensures
            forall|p: usize| #[trigger]
                r@.contains_key(p) ==> r@[p] == player_count(self.games@, p) && r@[p] >= 1,
            forall|p: usize|
                !(#[trigger] r@.contains_key(p)) ==> player_count(self.games@, p) == 0,
    {
        broadcast use vstd::std_specs::hash::group_hash_axioms;

        let mut counts: HashMap<usize, usize> = HashMap::new();
        let mut gi: usize = 0;
        while gi < self.games.len()
            invariant
                gi <= self.games@.len(),
                forall|p: usize| #[trigger]
                    counts@.contains_key(p) ==> counts@[p] == player_count(
                        self.games@.take(gi as int),
                        p,
                    ) && counts@[p] >= 1,
                forall|p: usize|
                    !(#[trigger] counts@.contains_key(p)) ==> player_count(
                        self.games@.take(gi as int),
                        p,
                    ) == 0,
            decreases self.games@.len() - gi,
        {
            broadcast use vstd::std_specs::hash::group_hash_axioms;

            let ghost cur = self.games@[gi as int];
            let ps = self.games[gi].players();
            let mut x: usize = 0;
            while x < ps.len()
                invariant
                    x <= ps@.len(),
                    gi < self.games@.len(),
                    cur == self.games@[gi as int],
                    ps@ == cur.team_a@ + cur.team_b@,
                    forall|p: usize| #[trigger]
                        counts@.contains_key(p) ==> counts@[p] == player_count(
                            self.games@.take(gi as int),
                            p,
                        ) + (if ps@.take(x as int).contains(p) {
                            1int
                        } else {
                            0int
                        }) && counts@[p] >= 1,
                    forall|p: usize|
                        !(#[trigger] counts@.contains_key(p)) ==> player_count(
                            self.games@.take(gi as int),
                            p,
                        ) == 0 && !ps@.take(x as int).contains(p),
                decreases ps@.len() - x,
            {
                broadcast use vstd::std_specs::hash::group_hash_axioms;

                let p = ps[x];
                let seen = contains_up_to(&ps, x, p);
                proof {
                    assert(ps@.take(x as int + 1).drop_last() =~= ps@.take(x as int));
                    assert(ps@.take(x as int + 1).last() == ps@[x as int]);
                    assert forall|q: usize|
                        ps@.take(x as int + 1).contains(q) == (ps@.take(x as int).contains(q) || q
                            == ps@[x as int]) by {
                        if ps@.take(x as int + 1).contains(q) {
                            let y = choose|y: int|
                                0 <= y < x + 1 && #[trigger] ps@.take(x as int + 1)[y] == q;
                            if y < x {
                                assert(ps@.take(x as int)[y] == q);
                            }
                        }
                        if ps@.take(x as int).contains(q) {
                            let y = choose|y: int| 0 <= y < x && ps@.take(x as int)[y] == q;
                            assert(ps@.take(x as int + 1)[y] == q);
                        }
                        if q == ps@[x as int] {
                            assert(ps@.take(x as int + 1)[x as int] == q);
                        }
                    }
                }
                if !seen {
                    let cur_count: usize = match counts.get(&p) {
                        Some(c) => *c,
                        None => 0,
                    };
                    proof {
                        lemma_player_count_le(self.games@.take(gi as int), p);
                        assert(self.games@.len() == self.games.len());
                    }
                    counts.insert(p, cur_count + 1);
                }
                x = x + 1;
            }
            proof {
                let next = self.games@.take(gi as int + 1);
                assert(next.drop_last() =~= self.games@.take(gi as int));
                assert(next.last() == cur);
                assert(ps@.take(ps@.len() as int) =~= ps@);
                assert forall|p: usize| ps@.contains(p) == game_involves(cur, p) by {
                    lemma_players_contains(cur, p);
                }
            }
            gi = gi + 1;
        }
        proof {
            assert(self.games@.take(self.games@.len() as int) =~= self.games@);
        }
        counts
    }

    /// How many games each exact team composition has played as one side:
    /// one entry per distinct side in the log, in order of first
    /// appearance, with its count. Every side of every logged game has
    /// exactly one entry.
    pub fn pair_game_counts(&self) -> (r: Vec<(Vec<usize>, usize)>)
        ensures
            forall|i: int|
                0 <= i < r@.len() ==> (#[trigger] r@[i]).1 == team_count(self.games@, r@[i].0@),
            forall|i: int, j: int| 0 <= i < j < r@.len() ==> r@[i].0@ != r@[j].0@,
            forall|gi: int| #![trigger self.games@[gi]]
                0 <= gi < self.games@.len() ==> side_recorded(r@, self.games@[gi].team_a@)
                    && side_recorded(r@, self.games@[gi].team_b@),
            forall|i: int|
                0 <= i < r@.len() ==> side_of_log(self.games@, (#[trigger] r@[i]).0@),
    {
        let mut tally: Vec<(Vec<usize>, usize)> = Vec::new();
        let mut gi: usize = 0;
        while gi < self.games.len()
            invariant
                gi <= self.games@.len(),
                forall|i: int|
                    0 <= i < tally@.len() ==> (#[trigger] tally@[i]).1 == team_count(
                        self.games@,
                        tally@[i].0@,
                    ),
                forall|i: int, j: int| 0 <= i < j < tally@.len() ==> tally@[i].0@ != tally@[j].0@,
                forall|g2: int| #![trigger self.games@[g2]]
                    0 <= g2 < gi ==> side_recorded(tally@, self.games@[g2].team_a@)
                        && side_recorded(tally@, self.games@[g2].team_b@),
                forall|i: int|
                    0 <= i < tally@.len() ==> side_of_log(self.games@, (#[trigger] tally@[i]).0@),
            decreases self.games@.len() - gi,
        {
            let ghost cur = self.games@[gi as int];
            let ghost before = tally@;
            record_side(&mut tally, &self.games, &self.games[gi].team_a);
            proof {
                if !side_recorded(before, cur.team_a@) {
                    assert(side_of_log(self.games@, cur.team_a@)) by {
                        assert(crate::game::game_has_side(self.games@[gi as int], cur.team_a@));
                    }
                }
                assert forall|g2: int| #![trigger self.games@[g2]] 0 <= g2 < gi implies
                    side_recorded(tally@, self.games@[g2].team_a@) && side_recorded(
                    tally@,
                    self.games@[g2].team_b@,
                ) by {
                    lemma_side_recorded_extend(before, tally@, self.games@[g2].team_a@);
                    lemma_side_recorded_extend(before, tally@, self.games@[g2].team_b@);
                }
            }
            let ghost mid = tally@;
            record_side(&mut tally, &self.games, &self.games[gi].team_b);
            proof {
                if !side_recorded(mid, cur.team_b@) {
                    assert(side_of_log(self.games@, cur.team_b@)) by {
                        assert(crate::game::game_has_side(self.games@[gi as int], cur.team_b@));
                    }
                }
                assert forall|g2: int| #![trigger self.games@[g2]] 0 <= g2 < gi implies
                    side_recorded(tally@, self.games@[g2].team_a@) && side_recorded(
                    tally@,
                    self.games@[g2].team_b@,
                ) by {
                    lemma_side_recorded_extend(mid, tally@, self.games@[g2].team_a@);
                    lemma_side_recorded_extend(mid, tally@, self.games@[g2].team_b@);
                }
                lemma_side_recorded_extend(mid, tally@, cur.team_a@);
            }
            gi = gi + 1;
        }
        tally
    }

    /// Propose the fairest next game for the current round: the players of
    /// the other courts of the round sit out, and among every structurally
    /// valid game of the rest, the first candidate of minimal cost wins.
    /// Nothing is returned when too few players are eligible.
    pub fn next_game(&self) -> (r: Option<Game>)
        ensures
            proposal_post(
                self.games@,
                generation_pool(*self, excluded_set(self.games@, self.courts)),
                self.player_names@.len(),
                excluded_set(self.games@, self.courts),
                effective_team_size(self.team_size) as nat,
                r,
            ),
    {
        let courts = if self.courts == 0 {
            1
        } else {
            self.courts
        };
        let len = self.games.len();
        let slot = len % courts;
        proof {
            assert(len % courts <= len) by (nonlinear_arith)
                requires
                    courts >= 1,
                    len >= 0,
            ;
        }
        let mut excl: Vec<usize> = Vec::new();
        let mut t: usize = 0;
        while t < slot
            invariant
                t <= slot,
                slot <= len,
                len == self.games@.len(),
                forall|y: int|
                    0 <= y < excl@.len() ==> exists|gi: int|
                        len - t <= gi < len && game_involves(self.games@[gi], #[trigger] excl@[y]),
                forall|gi: int, p: usize|
                    len - t <= gi < len && #[trigger] game_involves(self.games@[gi], p)
                        ==> excl@.contains(p),
            decreases slot - t,
        {
            let ps = self.games[len - 1 - t].players();
            let ghost cur = self.games@[len - 1 - t];
            let mut x: usize = 0;
            while x < ps.len()
                invariant
                    x <= ps@.len(),
                    t < slot <= len,
                    len == self.games@.len(),
                    cur == self.games@[len - 1 - t],
                    ps@ == cur.team_a@ + cur.team_b@,
                    forall|y: int|
                        0 <= y < excl@.len() ==> exists|gi: int|
                            len - t - 1 <= gi < len && game_involves(
                                self.games@[gi],
                                #[trigger] excl@[y],
                            ),
                    forall|gi: int, p: usize|
                        len - t <= gi < len && #[trigger] game_involves(self.games@[gi], p)
                            ==> excl@.contains(p),
                    forall|y: int| 0 <= y < x ==> excl@.contains(#[trigger] ps@[y]),
                decreases ps@.len() - x,
            {
                let ghost prev = excl@;
                excl.push(ps[x]);
                proof {
                    assert forall|p: usize| prev.contains(p) implies excl@.contains(p) by {
                        let idx = choose|idx: int| 0 <= idx < prev.len() && prev[idx] == p;
                        assert(excl@[idx] == p);
                    }
                    assert(excl@[prev.len() as int] == ps@[x as int]);
                    assert(excl@.contains(ps@[x as int]));
                    assert(ps@.contains(ps@[x as int]));
                    lemma_players_contains(cur, ps@[x as int]);
                    assert(game_involves(self.games@[len - 1 - t], ps@[x as int]));
                }
                x = x + 1;
            }
            proof {
                assert forall|gi: int, p: usize|
                    len - t - 1 <= gi < len && #[trigger] game_involves(self.games@[gi], p)
                        implies excl@.contains(p) by {
                    if gi == len - 1 - t {
                        lemma_players_contains(cur, p);
                        let y = choose|y: int| 0 <= y < ps@.len() && ps@[y] == p;
                        assert(excl@.contains(ps@[y]));
                    }
                }
            }
            t = t + 1;
        }
        proof {
            assert(excl@.to_set() =~= excluded_set(self.games@, self.courts)) by {
                assert(effective_courts(self.courts) == courts);
                assert(slot == self.games@.len() % (effective_courts(self.courts) as nat));
                assert forall|p: usize|
                    excl@.to_set().contains(p) == excluded_set(self.games@, self.courts).contains(
                        p,
                    ) by {
                    if excl@.contains(p) {
                        let y = choose|y: int| 0 <= y < excl@.len() && excl@[y] == p;
                    }
                }
            }
        }
        self.generate_game(excl)
    }

    /// Propose the fairest next game after setting the named players
    /// aside: enumerate every pair of disjoint teams of the configured
    /// size drawn from the remaining players, and return the first
    /// candidate of minimal cost, or nothing when no candidate exists —
    /// in particular whenever fewer than two teams' worth of players
    /// remain eligible.
    pub fn generate_game(&self, excluded_player_indexes: Vec<usize>) -> (r: Option<Game>)
        ensures
            proposal_post(
                self.games@,
                generation_pool(*self, excluded_player_indexes@.to_set()),
                self.player_names@.len(),
                excluded_player_indexes@.to_set(),
                effective_team_size(self.team_size) as nat,
                r,
            ),
    {
        let ghost exset = excluded_player_indexes@.to_set();
        let n = self.player_names.len();
        let base = build_pool(n, &excluded_player_indexes);
        proof {
            lemma_eligible_pool(n as nat, exset);
        }
        let pool = match self.generation_strategy {
            GenerationStrategy::Normal => base,
            GenerationStrategy::Shuffled(seed) => {
                let mixed = seed ^ (self.games.len() as u64);
                let shuffled = shuffle_pool(base, mixed);
                proof {
                    lemma_shuffle_props(eligible_pool(n as nat, exset), mixed);
                }
                shuffled
            },
        };
        let ghost gpool = generation_pool(*self, exset);
        proof {
            assert(pool@ == gpool);
            assert(gpool.no_duplicates());
            assert(gpool.len() == eligible_pool(n as nat, exset).len());
            assert(forall|p: usize| gpool.contains(p) ==> eligible_pool(n as nat, exset).contains(p));
        }
        let k = if self.team_size == 0 {
            1
        } else {
            self.team_size
        };
        let r = propose(&self.games, pool, k);
        proof {
            let cs = spec_combinations(gpool, k as nat);
            if gpool.len() < 2 * k {
                lemma_insufficiency(gpool, k as nat);
                assert(forall|i: int, j: int| !crate::combos::is_candidate(cs, i, j));
                assert(r is None);
            }
            match &r {
                Some(g) => {
                    assert forall|p: usize| #[trigger]
                        game_involves(*g, p) implies p < self.player_names@.len()
                        && !exset.contains(p) by {
                        assert(g.team_a@.to_set().contains(p) || g.team_b@.to_set().contains(p));
                        assert(gpool.to_set().contains(p));
                        assert(gpool.contains(p));
                        assert(eligible_pool(n as nat, exset).contains(p));
                    }
                },
                None => {},
            }
        }
        r
    }

    /// Render a game as a line of names: each side joined by `" and "`,
    /// the sides joined by `" vs. "`, a dangling index shown as `"?"`. The
    /// result depends on the roster and the game alone, so rendering the
    /// same game against an unchanged roster always yields the same line.
    pub fn format_game(&self, game: &Game) -> (r: String)
        ensures
            r@ == game_text(self.player_names@, *game),
    {
        render_game(&self.player_names, game)
    }
}

} // verus!
