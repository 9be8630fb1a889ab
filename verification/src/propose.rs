//! Selection of the fairest next game from an eligible pool.
//!
//! Candidates are pairs of disjoint teams enumerated in lexicographic
//! order; the proposal is the earliest candidate of minimal cost, so a tie
//! is resolved by enumeration order.

use vstd::prelude::*;
use crate::game::{Game, game_involves};
use crate::combos::{spec_combinations, k_combinations, is_candidate, lemma_combinations_shape,
    lemma_candidate_size, lemma_insufficiency};
use crate::history::contains_player;
use crate::scoring::{game_cost, cost_of};

verus! {

/// The roster indices `0..n` that are not excluded, in increasing order.
pub open spec fn eligible_pool(n: nat, excluded: Set<usize>) -> Seq<usize>
    decreases n,
{
    if n == 0 {
        Seq::<usize>::empty()
    } else {
        let last = (n - 1) as usize;
        eligible_pool((n - 1) as nat, excluded) + if excluded.contains(last) {
            Seq::<usize>::empty()
        } else {
            seq![last]
        }
    }
}

/// The eligible pool holds exactly the non-excluded indices below `n`,
/// each once, and so is no longer than `n`.
pub proof fn lemma_eligible_pool(n: nat, excluded: Set<usize>)
    requires
        n <= usize::MAX,
    ensures
        eligible_pool(n, excluded).no_duplicates(),
        eligible_pool(n, excluded).len() <= n,
        forall|p: usize| #[trigger]
            eligible_pool(n, excluded).contains(p) ==> (p < n && !excluded.contains(p)),
        forall|p: usize| p < n && !(#[trigger] excluded.contains(p)) ==> eligible_pool(
            n,
            excluded,
        ).contains(p),
    decreases n,
{
    let pool = eligible_pool(n, excluded);
    if n == 0 {
    } else {
        let prev = eligible_pool((n - 1) as nat, excluded);
        lemma_eligible_pool((n - 1) as nat, excluded);
        let last = (n - 1) as usize;
        let tail = if excluded.contains(last) {
            Seq::<usize>::empty()
        } else {
            seq![last]
        };
        assert(pool == prev + tail);
        assert(last == n - 1);
        assert forall|p: usize| pool.contains(p) implies (p < n && !excluded.contains(p)) by {
            let idx = choose|idx: int| 0 <= idx < pool.len() && pool[idx] == p;
            if idx < prev.len() {
                assert(prev[idx] == p);
                assert(prev.contains(p));
            } else {
                assert(pool[idx] == tail[idx - prev.len()]);
                assert(p == last);
            }
        }
        assert forall|p: usize| p < n && !excluded.contains(p) implies pool.contains(p) by {
            if p < n - 1 {
                let idx = choose|idx: int| 0 <= idx < prev.len() && prev[idx] == p;
                assert(pool[idx] == p);
            } else {
                assert(pool[pool.len() - 1] == p);
            }
        }
        assert(pool.no_duplicates()) by {
            assert forall|x: int, y: int| 0 <= x < y < pool.len() implies pool[x] != pool[y] by {
                if y < prev.len() {
                } else {
                    assert(!excluded.contains(last));
                    assert(pool[y] == last);
                    assert(prev[x] == pool[x]);
                    assert(prev.contains(prev[x]));
                }
            }
        }
    }
}

/// Build the eligible pool: every roster index not named in `excluded`.
pub(crate) fn build_pool(n: usize, excluded: &Vec<usize>) -> (r: Vec<usize>)
    ensures
        r@ == eligible_pool(n as nat, excluded@.to_set()),
{
    let mut r: Vec<usize> = Vec::new();
    let mut i: usize = 0;
    while i < n
        invariant
            i <= n,
            r@ == eligible_pool(i as nat, excluded@.to_set()),
        decreases n - i,
    {
        if !contains_player(excluded, i) {
            r.push(i);
            proof {
                assert(!excluded@.to_set().contains(i));
                assert(r@ =~= eligible_pool(i as nat, excluded@.to_set()) + seq![i]);
            }
        } else {
            proof {
                assert(excluded@.to_set().contains(i));
                assert(r@ =~= eligible_pool(i as nat, excluded@.to_set())
                    + Seq::<usize>::empty());
            }
        }
        i = i + 1;
    }
    r
}

/// Candidate `(i, j)` is enumerated before candidate `(i2, j2)`.
pub open spec fn lex_before(i: int, j: int, i2: int, j2: int) -> bool {
    i < i2 || (i == i2 && j < j2)
}

/// The game `g` pairs teams `i` and `j` of the enumeration `cs`, no
/// candidate costs less, and every earlier candidate costs strictly more:
/// `g` is the first candidate of minimal cost.
pub open spec fn chosen_candidate(
    games: Seq<Game>,
    cs: Seq<Seq<usize>>,
    g: Game,
    i: int,
    j: int,
) -> bool {
    &&& is_candidate(cs, i, j)
    &&& g.team_a@ == cs[i]
    &&& g.team_b@ == cs[j]
    &&& forall|i2: int, j2: int|
        #[trigger] is_candidate(cs, i2, j2) ==> game_cost(games, cs[i], cs[j]) <= game_cost(
            games,
            cs[i2],
            cs[j2],
        )
    &&& forall|i2: int, j2: int|
        #[trigger] is_candidate(cs, i2, j2) && lex_before(i2, j2, i, j) ==> game_cost(
            games,
            cs[i],
            cs[j],
        ) < game_cost(games, cs[i2], cs[j2])
}

/// What a proposal drawn from the ordered pool `pool` promises, with `n`
/// the roster size, `excluded` the sat-out players and `k` the team size.
pub open spec fn proposal_post(
    games: Seq<Game>,
    pool: Seq<usize>,
    n: nat,
    excluded: Set<usize>,
    k: nat,
    r: Option<Game>,
) -> bool {
    let cs = spec_combinations(pool, k);
    &&& (r is None <==> (forall|i: int, j: int| !is_candidate(cs, i, j)))
    &&& (pool.len() < 2 * k ==> r is None)
    &&& match r {
        Some(g) => {
            &&& (exists|i: int, j: int| chosen_candidate(games, cs, g, i, j))
            &&& g.team_a@.len() == k
            &&& g.team_b@.len() == k
            &&& g.team_a@.no_duplicates()
            &&& g.team_b@.no_duplicates()
            &&& g.team_a@.to_set().disjoint(g.team_b@.to_set())
            &&& forall|p: usize| #[trigger] game_involves(g, p) ==> p < n && !excluded.contains(p)
        },
        None => true,
    }
}

/// Whether the two teams share no player.
fn teams_disjoint(a: &Vec<usize>, b: &Vec<usize>) -> (r: bool)
    ensures
        r == a@.to_set().disjoint(b@.to_set()),
{
    let mut i: usize = 0;
    while i < a.len()
        invariant
            i <= a@.len(),
            forall|x: int| 0 <= x < i ==> !b@.contains(a@[x]),
        decreases a@.len() - i,
    {
        if contains_player(b, a[i]) {
            proof {
                assert(a@.to_set().contains(a@[i as int]));
                assert(b@.to_set().contains(a@[i as int]));
            }
            return false;
        }
        i = i + 1;
    }
    proof {
        assert forall|p: usize| a@.to_set().contains(p) implies !b@.to_set().contains(p) by {
            let idx = choose|idx: int| 0 <= idx < a@.len() && a@[idx] == p;
        }
    }
    true
}

/// Copy a team out of the enumeration.
fn clone_team(t: &Vec<usize>) -> (r: Vec<usize>)
    ensures
        r@ == t@,
{
    let mut r: Vec<usize> = Vec::new();
    let mut i: usize = 0;
    while i < t.len()
        invariant
            i <= t@.len(),
            r@ == t@.take(i as int),
        decreases t@.len() - i,
    {
        r.push(t[i]);
        i = i + 1;
    }
    proof {
        assert(t@.take(t@.len() as int) =~= t@);
    }
    r
}

/// The running state of the candidate scan: every candidate enumerated
/// before position `(i, j)` has been weighed, `best` is the earliest
/// cheapest of them, and `bcost` its cost.
pub open spec fn scan_state(
    games: Seq<Game>,
    cs: Seq<Seq<usize>>,
    best: Option<Game>,
    bcost: u128,
    bi: int,
    bj: int,
    i: int,
    j: int,
) -> bool {
    match best {
        None => forall|p: int, q: int| #[trigger] is_candidate(cs, p, q) ==> !lex_before(p, q, i, j),
        Some(g) => {
            &&& is_candidate(cs, bi, bj)
            &&& lex_before(bi, bj, i, j)
            &&& g.team_a@ == cs[bi]
            &&& g.team_b@ == cs[bj]
            &&& bcost == game_cost(games, cs[bi], cs[bj])
            &&& forall|p: int, q: int|
                #[trigger] is_candidate(cs, p, q) && lex_before(p, q, i, j) ==> bcost <= game_cost(
                    games,
                    cs[p],
                    cs[q],
                )
            &&& forall|p: int, q: int|
                #[trigger] is_candidate(cs, p, q) && lex_before(p, q, bi, bj) ==> bcost < game_cost(
                    games,
                    cs[p],
                    cs[q],
                )
        },
    }
}

/// Choose the next game from the ordered pool `pool`: enumerate every pair
/// of disjoint `k`-player teams and return the first candidate of minimal
/// cost, or nothing when no candidate exists.
pub(crate) fn propose(games: &Vec<Game>, pool: Vec<usize>, k: usize) -> (r: Option<Game>)
    requires
        pool@.no_duplicates(),
    ensures
        ({
            let cs = spec_combinations(pool@, k as nat);
            &&& (r is None <==> (forall|i: int, j: int| !is_candidate(cs, i, j)))
            &&& match r {
                Some(g) => {
                    &&& (exists|i: int, j: int| chosen_candidate(games@, cs, g, i, j))
                    &&& g.team_a@.len() == k
                    &&& g.team_b@.len() == k
                    &&& g.team_a@.no_duplicates()
                    &&& g.team_b@.no_duplicates()
                    &&& g.team_a@.to_set().disjoint(g.team_b@.to_set())
                    &&& g.team_a@.to_set().subset_of(pool@.to_set())
                    &&& g.team_b@.to_set().subset_of(pool@.to_set())
                },
                None => true,
            }
        }),
{
    let ghost cs = spec_combinations(pool@, k as nat);
    proof {
        lemma_combinations_shape(pool@, k as nat);
    }
    let teams: Vec<Vec<usize>> = k_combinations(&pool, k);
    let m = teams.len();
    proof {
        assert(teams@.map_values(|t: Vec<usize>| t@).len() == cs.len());
    }
    let mut best: Option<Game> = None;
    let mut bcost: u128 = 0;
    let ghost mut bi: int = 0;
    let ghost mut bj: int = 0;
    let mut i: usize = 0;
    while i < m
        invariant
            m == cs.len(),
            teams@.map_values(|t: Vec<usize>| t@) == cs,
            cs == spec_combinations(pool@, k as nat),
            pool@.no_duplicates(),
            i <= m,
            scan_state(games@, cs, best, bcost, bi, bj, i as int, i as int + 1),
            best is Some ==> best->0.team_a@ == cs[bi] && best->0.team_b@ == cs[bj],
        decreases m - i,
    {
        let mut j: usize = i + 1;
        while j < m
            invariant
                m == cs.len(),
                teams@.map_values(|t: Vec<usize>| t@) == cs,
                cs == spec_combinations(pool@, k as nat),
                pool@.no_duplicates(),
                i < m,
                i + 1 <= j <= m,
                scan_state(games@, cs, best, bcost, bi, bj, i as int, j as int),
            decreases m - j,
        {
            proof {
                assert(teams@[i as int]@ == cs[i as int]);
                assert(teams@[j as int]@ == cs[j as int]);
            }
            if teams_disjoint(&teams[i], &teams[j]) {
                proof {
                    assert(is_candidate(cs, i as int, j as int));
                    lemma_combinations_shape(pool@, k as nat);
                    lemma_candidate_size(pool@, k as nat, i as int, j as int);
                    assert(pool@.len() == pool.len());
                }
                let c = cost_of(games, &teams[i], &teams[j]);
                let take = match &best {
                    None => true,
                    Some(_) => c < bcost,
                };
                if take {
                    best = Some(
                        Game { team_a: clone_team(&teams[i]), team_b: clone_team(&teams[j]) },
                    );
                    bcost = c;
                    proof {
                        bi = i as int;
                        bj = j as int;
                    }
                }
            } else {
                proof {
                    assert(!is_candidate(cs, i as int, j as int));
                }
            }
            proof {
                assert forall|p: int, q: int|
                    #[trigger] is_candidate(cs, p, q) && lex_before(p, q, i as int, j as int
                        + 1) implies is_candidate(cs, p, q) && (lex_before(p, q, i as int, j as int)
                    || (p == i as int && q == j as int)) by {}
            }
            j = j + 1;
        }
        i = i + 1;
        proof {
            assert forall|p: int, q: int|
                #[trigger] is_candidate(cs, p, q) && lex_before(p, q, i as int, i as int
                    + 1) implies lex_before(p, q, i as int - 1, m as int) by {}
        }
    }
    proof {
        assert forall|p: int, q: int| #[trigger] is_candidate(cs, p, q) implies lex_before(
            p,
            q,
            m as int,
            m as int + 1,
        ) by {}
        if best is Some {
            let g = best->0;
            assert(chosen_candidate(games@, cs, g, bi, bj));
            lemma_combinations_shape(pool@, k as nat);
        }
    }
    best
}

} // verus!
