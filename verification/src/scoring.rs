//! The fairness cost of a candidate game.
//!
//! The cost sums, over both teams, how many games each player has already
//! played, plus how many games each exact team composition has already
//! played as a side. Lower is fairer.

use vstd::prelude::*;
use crate::game::Game;
use crate::history::{player_count, team_count, count_player, count_team, lemma_player_count_le,
    lemma_team_count_le};

verus! {

/// Sum of the play counts of the members of `team`.
pub open spec fn team_player_cost(games: Seq<Game>, team: Seq<usize>) -> nat
    decreases team.len(),
{
    if team.len() == 0 {
        0
    } else {
        team_player_cost(games, team.drop_last()) + player_count(games, team.last())
    }
}

/// The fairness cost of pitching team `a` against team `b`, given the log:
/// every member's play count, plus each side's play count as a composition.
pub open spec fn game_cost(games: Seq<Game>, a: Seq<usize>, b: Seq<usize>) -> nat {
    team_player_cost(games, a) + team_player_cost(games, b) + team_count(games, a) + team_count(
        games,
        b,
    )
}

proof fn lemma_mul_le(a: int, b: int, c: int, d: int)
    by (nonlinear_arith)
    requires
        0 <= a <= c,
        0 <= b <= d,
    ensures
        a * b <= c * d,
{
}

/// Sum the play counts of the members of `team` into `acc`.
fn add_team_player_cost(games: &Vec<Game>, team: &Vec<usize>, acc: u128, terms: Ghost<nat>) -> (r: u128)
    requires
        terms@ + team@.len() <= usize::MAX,
        acc <= terms@ * games@.len(),
    ensures
        r == acc + team_player_cost(games@, team@),
        r <= (terms@ + team@.len()) * games@.len(),
{
    let ghost glen = games@.len() as int;
    let mut r: u128 = acc;
    let mut i: usize = 0;
    while i < team.len()
        invariant
            i <= team@.len(),
            terms@ + team@.len() <= usize::MAX,
            glen == games@.len(),
            r == acc + team_player_cost(games@, team@.take(i as int)),
            r <= (terms@ + i) * glen,
        decreases team@.len() - i,
    {
        let c = count_player(games, team[i]);
        proof {
            assert(games@.len() == games.len());
            lemma_player_count_le(games@, team@[i as int]);
            assert((terms@ + i + 1) * glen == (terms@ + i) * glen + glen) by (nonlinear_arith);
            lemma_mul_le(terms@ + i + 1, glen, usize::MAX as int, usize::MAX as int);
            assert((usize::MAX as int) * (usize::MAX as int) < u128::MAX as int);
            assert(team@.take(i as int + 1).drop_last() =~= team@.take(i as int));
        }
        r = r + c as u128;
        i = i + 1;
    }
    proof {
        assert(team@.take(team@.len() as int) =~= team@);
    }
    r
}

/// Compute the fairness cost of pitching `a` against `b`.
///
/// The result is exact: with at most `usize::MAX` members in play and at
/// most `usize::MAX` logged games, the sum stays within `u128`.
pub(crate) fn cost_of(games: &Vec<Game>, a: &Vec<usize>, b: &Vec<usize>) -> (r: u128)
    requires
        a@.len() + b@.len() <= usize::MAX,
    ensures
        r == game_cost(games@, a@, b@),
{
    let ghost glen = games@.len() as int;
    let ghost m = usize::MAX as int;
    let r = add_team_player_cost(games, a, 0, Ghost(0nat));
    let r = add_team_player_cost(games, b, r, Ghost(a@.len()));
    proof {
        assert(games@.len() == games.len());
        lemma_team_count_le(games@, a@);
        lemma_team_count_le(games@, b@);
        lemma_mul_le((a@.len() + b@.len()) as int, glen, m, m);
        assert((usize::MAX as int) * (usize::MAX as int) + usize::MAX + usize::MAX <= u128::MAX
            as int) by (nonlinear_arith);
    }
    let r = r + count_team(games, a) as u128;
    let r = r + count_team(games, b) as u128;
    r
}

} // verus!
