//! Rendering a game as a line of player names.
//!
//! Each side lists its players' names joined by `" and "`; the two sides
//! are joined by `" vs. "`. An index with no name in the roster renders as
//! the placeholder `"?"`, so a stale game record degrades gracefully
//! instead of failing.

use vstd::prelude::*;
use crate::game::Game;
use vstd::string::StringExecFns;

verus! {

/// The text for roster index `i`: the player's name, or the placeholder
/// when the index no longer resolves.
pub open spec fn name_text(names: Seq<String>, i: usize) -> Seq<char> {
    if i < names.len() {
        names[i as int]@
    } else {
        "?"@
    }
}

/// The text for one side: its players' names joined by `" and "`.
pub open spec fn team_text(names: Seq<String>, team: Seq<usize>) -> Seq<char>
    decreases team.len(),
{
    if team.len() == 0 {
        Seq::<char>::empty()
    } else if team.len() == 1 {
        name_text(names, team[0])
    } else {
        team_text(names, team.drop_last()) + " and "@ + name_text(names, team.last())
    }
}

/// The text for a whole game: the two sides joined by `" vs. "`.
pub open spec fn game_text(names: Seq<String>, g: Game) -> Seq<char> {
    team_text(names, g.team_a@) + " vs. "@ + team_text(names, g.team_b@)
}

/// Append one side's text to `out`.
fn append_team(out: &mut String, names: &Vec<String>, team: &Vec<usize>)
    ensures
        final(out)@ == old(out)@ + team_text(names@, team@),
{
    let ghost base = out@;
    let mut i: usize = 0;
    while i < team.len()
        invariant
            i <= team@.len(),
            out@ == base + team_text(names@, team@.take(i as int)),
        decreases team@.len() - i,
    {
        if i > 0 {
            out.append(" and ");
        }
        let p = team[i];
        if p < names.len() {
            out.append(names[p].as_str());
        } else {
            out.append("?");
        }
        proof {
            let t1 = team@.take(i as int + 1);
            assert(t1.drop_last() =~= team@.take(i as int));
            assert(t1.last() == team@[i as int]);
            if i == 0 {
                assert(team_text(names@, t1) == name_text(names@, team@[0]));
            }
        }
        i = i + 1;
    }
    proof {
        assert(team@.take(team@.len() as int) =~= team@);
    }
}

/// Render `game` against the roster `names`.
pub(crate) fn render_game(names: &Vec<String>, game: &Game) -> (r: String)
    ensures
        r@ == game_text(names@, *game),
{
    let mut r = String::new();
    append_team(&mut r, names, &game.team_a);
    r.append(" vs. ");
    append_team(&mut r, names, &game.team_b);
    r
}

} // verus!
