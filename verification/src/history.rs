//! Play counts derived from the committed-game log.
//!
//! Counts are recomputed from the full log on demand, never cached, so a
//! configuration change between games can never produce a stale count.

use vstd::prelude::*;
use crate::game::{Game, game_involves, game_has_side};

verus! {

/// Number of games in `games` in which player `p` appears on either side.
pub open spec fn player_count(games: Seq<Game>, p: usize) -> nat
    decreases games.len(),
{
    if games.len() == 0 {
        0
    } else {
        player_count(games.drop_last(), p) + if game_involves(games.last(), p) {
            1nat
        } else {
            0nat
        }
    }
}

/// Number of games in `games` with the exact composition `t` as one side.
pub open spec fn team_count(games: Seq<Game>, t: Seq<usize>) -> nat
    decreases games.len(),
{
    if games.len() == 0 {
        0
    } else {
        team_count(games.drop_last(), t) + if game_has_side(games.last(), t) {
            1nat
        } else {
            0nat
        }
    }
}

/// A player appears in at most every game of the log.
pub proof fn lemma_player_count_le(games: Seq<Game>, p: usize)
    ensures
        player_count(games, p) <= games.len(),
    decreases games.len(),
{
    if games.len() > 0 {
        lemma_player_count_le(games.drop_last(), p);
    }
}

/// A team composition appears in at most every game of the log.
pub proof fn lemma_team_count_le(games: Seq<Game>, t: Seq<usize>)
    ensures
        team_count(games, t) <= games.len(),
    decreases games.len(),
{
    if games.len() > 0 {
        lemma_team_count_le(games.drop_last(), t);
    }
}

/// Whether player `p` stands in `team`.
pub(crate) fn contains_player(team: &Vec<usize>, p: usize) -> (r: bool)
    ensures
        r == team@.contains(p),
{
    let mut i: usize = 0;
    while i < team.len()
        invariant
            i <= team@.len(),
            forall|j: int| 0 <= j < i ==> team@[j] != p,
        decreases team@.len() - i,
    {
        if team[i] == p {
            return true;
        }
        i = i + 1;
    }
    false
}

/// Whether player `p` stands among the first `end` entries of `v`.
pub(crate) fn contains_up_to(v: &Vec<usize>, end: usize, p: usize) -> (r: bool)
    requires
        end <= v@.len(),
    ensures
        r == v@.take(end as int).contains(p),
{
    let mut i: usize = 0;
    while i < end
        invariant
            i <= end <= v@.len(),
            forall|j: int| 0 <= j < i ==> v@[j] != p,
        decreases end - i,
    {
        if v[i] == p {
            proof {
                assert(v@.take(end as int)[i as int] == p);
            }
            return true;
        }
        i = i + 1;
    }
    proof {
        if v@.take(end as int).contains(p) {
            let j = choose|j: int| 0 <= j < end && v@.take(end as int)[j] == p;
            assert(v@[j] == p);
        }
    }
    false
}

/// Whether the two team vectors hold the same players in the same order.
pub(crate) fn teams_equal(a: &Vec<usize>, b: &Vec<usize>) -> (r: bool)
    ensures
        r == (a@ == b@),
{
    if a.len() != b.len() {
        return false;
    }
    let mut i: usize = 0;
    while i < a.len()
        invariant
            i <= a@.len(),
            a@.len() == b@.len(),
            forall|j: int| 0 <= j < i ==> a@[j] == b@[j],
        decreases a@.len() - i,
    {
        if a[i] != b[i] {
            return false;
        }
        i = i + 1;
    }
    proof {
        assert(a@ =~= b@);
    }
    true
}

/// Whether the tally holds an entry for the team composition `t`.
pub open spec fn side_recorded(tally: Seq<(Vec<usize>, usize)>, t: Seq<usize>) -> bool {
    exists|i: int| 0 <= i < tally.len() && tally[i].0@ == t
}

/// Whether some game of the log has `t` as one of its sides.
pub open spec fn side_of_log(games: Seq<Game>, t: Seq<usize>) -> bool {
    exists|gi: int| 0 <= gi < games.len() && game_has_side(games[gi], t)
}

/// An entry for `t` stays in place when the tally only grows at the end.
pub proof fn lemma_side_recorded_extend(a: Seq<(Vec<usize>, usize)>, b: Seq<(Vec<usize>, usize)>, t: Seq<usize>)
    requires
        a.len() <= b.len(),
        forall|i: int| 0 <= i < a.len() ==> b[i] == a[i],
        side_recorded(a, t),
    ensures
        side_recorded(b, t),
{
    let i = choose|i: int| 0 <= i < a.len() && a[i].0@ == t;
    assert(b[i].0@ == t);
}

/// Whether a team equal to `t` is already recorded in the tally.
pub(crate) fn find_side(tally: &Vec<(Vec<usize>, usize)>, t: &Vec<usize>) -> (r: bool)
    ensures
        r == side_recorded(tally@, t@),
{
    let mut i: usize = 0;
    while i < tally.len()
        invariant
            i <= tally@.len(),
            forall|j: int| 0 <= j < i ==> tally@[j].0@ != t@,
        decreases tally@.len() - i,
    {
        if teams_equal(&tally[i].0, t) {
            return true;
        }
        i = i + 1;
    }
    false
}

/// Record the side `t` in the tally if it is new, with its play count over
/// the whole log; a side already recorded leaves the tally unchanged.
pub(crate) fn record_side(tally: &mut Vec<(Vec<usize>, usize)>, games: &Vec<Game>, t: &Vec<usize>)
    ensures
        side_recorded(old(tally)@, t@) ==> final(tally)@ == old(tally)@,
        !side_recorded(old(tally)@, t@) ==> {
            &&& final(tally)@.len() == old(tally)@.len() + 1
            &&& forall|i: int| 0 <= i < old(tally)@.len() ==> final(tally)@[i] == old(tally)@[i]
            &&& final(tally)@[old(tally)@.len() as int].0@ == t@
            &&& final(tally)@[old(tally)@.len() as int].1 == team_count(games@, t@)
        },
        side_recorded(final(tally)@, t@),
{
    if !find_side(tally, t) {
        let c = count_team(games, t);
        let mut copy: Vec<usize> = Vec::new();
        let mut i: usize = 0;
        while i < t.len()
            invariant
                i <= t@.len(),
                copy@ == t@.take(i as int),
            decreases t@.len() - i,
        {
            copy.push(t[i]);
            i = i + 1;
        }
        proof {
            assert(t@.take(t@.len() as int) =~= t@);
        }
        tally.push((copy, c));
        proof {
            assert(tally@[tally@.len() - 1].0@ == t@);
        }
    }
}

/// Count the games of the log in which player `p` appears.
pub(crate) fn count_player(games: &Vec<Game>, p: usize) -> (r: usize)
    ensures
        r == player_count(games@, p),
{
    let mut r: usize = 0;
    let mut i: usize = 0;
    while i < games.len()
        invariant
            i <= games@.len(),
            r == player_count(games@.take(i as int), p),
            r <= i,
        decreases games@.len() - i,
    {
        proof {
            lemma_player_count_le(games@.take(i as int), p);
            assert(games@.take(i as int + 1).drop_last() =~= games@.take(i as int));
            assert(games@.take(i as int + 1).last() == games@[i as int]);
        }
        if contains_player(&games[i].team_a, p) || contains_player(&games[i].team_b, p) {
            r = r + 1;
        }
        i = i + 1;
    }
    proof {
        assert(games@.take(games@.len() as int) =~= games@);
    }
    r
}

/// Count the games of the log with `t` as one of their sides.
pub(crate) fn count_team(games: &Vec<Game>, t: &Vec<usize>) -> (r: usize)
    ensures
        r == team_count(games@, t@),
{
    let mut r: usize = 0;
    let mut i: usize = 0;
    while i < games.len()
        invariant
            i <= games@.len(),
            r == team_count(games@.take(i as int), t@),
            r <= i,
        decreases games@.len() - i,
    {
        proof {
            lemma_team_count_le(games@.take(i as int), t@);
            assert(games@.take(i as int + 1).drop_last() =~= games@.take(i as int));
            assert(games@.take(i as int + 1).last() == games@[i as int]);
        }
        if teams_equal(&games[i].team_a, t) || teams_equal(&games[i].team_b, t) {
            r = r + 1;
        }
        i = i + 1;
    }
    proof {
        assert(games@.take(games@.len() as int) =~= games@);
    }
    r
}

} // verus!
