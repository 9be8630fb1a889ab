//! Enumeration of candidate teams: every combination of `k` distinct
//! players drawn from an eligible pool, in lexicographic order of pool
//! positions.

use vstd::prelude::*;
use itertools::Itertools;

verus! {

/// All `k`-element combinations of `pool`, each combination keeping the
/// order of `pool`, enumerated in lexicographic order of pool positions.
pub open spec fn spec_combinations(pool: Seq<usize>, k: nat) -> Seq<Seq<usize>>
    decreases pool.len(),
{
    if k == 0 {
        seq![Seq::<usize>::empty()]
    } else if pool.len() < k {
        Seq::<Seq<usize>>::empty()
    } else {
        spec_combinations(pool.drop_first(), (k - 1) as nat).map_values(
            |t: Seq<usize>| seq![pool[0]] + t,
        ) + spec_combinations(pool.drop_first(), k)
    }
}

/// Relies on itertools' `Itertools::combinations`: it yields every
/// `k`-element combination of the input elements, each combination in
/// input order, in lexicographic order of element positions; none when
/// the input has fewer than `k` elements, and a single empty combination
/// when `k == 0`.
#[verifier::external_body]
pub(crate) fn k_combinations(pool: &Vec<usize>, k: usize) -> (r: Vec<Vec<usize>>)
    ensures
        r@.map_values(|t: Vec<usize>| t@) == spec_combinations(pool@, k as nat),
{
    pool.iter().cloned().combinations(k).collect()
}

/// Whether positions `i` and `j` of the team list `cs` form a structurally
/// valid game: two distinct teams, drawn in enumeration order, sharing no
/// player.
pub open spec fn is_candidate(cs: Seq<Seq<usize>>, i: int, j: int) -> bool {
    &&& 0 <= i < j < cs.len()
    &&& cs[i].to_set().disjoint(cs[j].to_set())
}

/// Every enumerated team has exactly `k` members, no member repeated, all
/// drawn from the pool.
pub proof fn lemma_combinations_shape(pool: Seq<usize>, k: nat)
    requires
        pool.no_duplicates(),
    ensures
        forall|i: int|
            0 <= i < spec_combinations(pool, k).len() ==> {
                let c = #[trigger] spec_combinations(pool, k)[i];
                &&& c.len() == k
                &&& c.no_duplicates()
                &&& c.to_set().subset_of(pool.to_set())
            },
    decreases pool.len(),
{
    let cs = spec_combinations(pool, k);
    if k == 0 {
        assert forall|i: int| 0 <= i < cs.len() implies {
            let c = #[trigger] cs[i];
            c.len() == k && c.no_duplicates() && c.to_set().subset_of(pool.to_set())
        } by {
            assert(cs[i] == Seq::<usize>::empty());
            assert(cs[i].to_set() =~= Set::<usize>::empty());
        }
    } else if pool.len() < k {
    } else {
        let rest = pool.drop_first();
        assert(rest.no_duplicates());
        lemma_combinations_shape(rest, (k - 1) as nat);
        lemma_combinations_shape(rest, k);
        let with_first = spec_combinations(rest, (k - 1) as nat).map_values(
            |t: Seq<usize>| seq![pool[0]] + t,
        );
        assert forall|i: int| 0 <= i < cs.len() implies {
            let c = #[trigger] cs[i];
            c.len() == k && c.no_duplicates() && c.to_set().subset_of(pool.to_set())
        } by {
            assert(rest.to_set().subset_of(pool.to_set())) by {
                assert forall|p: usize| rest.to_set().contains(p) implies pool.to_set().contains(
                    p,
                ) by {
                    let idx = choose|idx: int| 0 <= idx < rest.len() && rest[idx] == p;
                    assert(pool[idx + 1] == p);
                }
            }
            if i < with_first.len() {
                let t = spec_combinations(rest, (k - 1) as nat)[i];
                let c = seq![pool[0]] + t;
                assert(cs[i] == c);
                assert(c.len() == k);
                assert(!t.contains(pool[0])) by {
                    if t.contains(pool[0]) {
                        assert(t.to_set().contains(pool[0]));
                        assert(rest.contains(pool[0]));
                        let idx = choose|idx: int|
                            0 <= idx < rest.len() && rest[idx] == pool[0];
                        assert(pool[idx + 1] == pool[0]);
                    }
                }
                assert(c.no_duplicates()) by {
                    assert forall|x: int, y: int| 0 <= x < y < c.len() implies c[x] != c[y] by {
                        if x == 0 {
                            assert(c[y] == t[y - 1]);
                            assert(t.contains(t[y - 1]));
                        } else {
                            assert(c[x] == t[x - 1] && c[y] == t[y - 1]);
                        }
                    }
                }
                assert(c.to_set().subset_of(pool.to_set())) by {
                    assert forall|p: usize| c.to_set().contains(p) implies pool.to_set()
                        .contains(p) by {
                        let idx = choose|idx: int| 0 <= idx < c.len() && c[idx] == p;
                        if idx == 0 {
                            assert(pool.contains(pool[0])) by {
                                assert(pool[0] == pool[0]);
                            }
                        } else {
                            assert(t[idx - 1] == p);
                            assert(t.to_set().contains(p));
                        }
                    }
                }
            } else {
                let c = spec_combinations(rest, k)[i - with_first.len()];
                assert(cs[i] == c);
                assert(c.to_set().subset_of(rest.to_set()));
            }
        }
    }
}

/// Two disjoint teams of a candidate game account for `2 * k` distinct
/// players of the pool, so the pool holds at least that many players.
pub proof fn lemma_candidate_size(pool: Seq<usize>, k: nat, i: int, j: int)
    requires
        pool.no_duplicates(),
        is_candidate(spec_combinations(pool, k), i, j),
    ensures
        2 * k <= pool.len(),
{
    broadcast use vstd::seq_lib::seq_to_set_is_finite;

    let cs = spec_combinations(pool, k);
    lemma_combinations_shape(pool, k);
    let a = cs[i];
    let b = cs[j];
    a.unique_seq_to_set();
    b.unique_seq_to_set();
    vstd::set_lib::lemma_set_disjoint_lens(a.to_set(), b.to_set());
    assert((a.to_set() + b.to_set()).subset_of(pool.to_set()));
    vstd::set_lib::lemma_len_subset(a.to_set() + b.to_set(), pool.to_set());
    pool.lemma_cardinality_of_set();
}

/// A pool with fewer than `2 * k` players yields no structurally valid
/// game: any two enumerated teams would have to share a player.
pub proof fn lemma_insufficiency(pool: Seq<usize>, k: nat)
    requires
        pool.no_duplicates(),
        pool.len() < 2 * k,
    ensures
        forall|i: int, j: int| !is_candidate(spec_combinations(pool, k), i, j),
{
    assert forall|i: int, j: int| !is_candidate(spec_combinations(pool, k), i, j) by {
        if is_candidate(spec_combinations(pool, k), i, j) {
            lemma_candidate_size(pool, k, i, j);
        }
    }
}

} // verus!
