//! A seeded permutation of the eligible pool.
//!
//! The shuffled tie-break strategy permutes the pool before enumeration.
//! The permutation is drawn from a caller-injected seed, so behaviour is
//! reproducible under a fixed seed; it changes only the enumeration order,
//! never which candidates exist.

use vstd::prelude::*;

verus! {

/// One step of the linear congruential generator driving the shuffle.
pub open spec fn next_seed(s: u64) -> u64 {
    (((s * 6364136223846793005) + 1442695040888963407) % 0x1_0000_0000_0000_0000) as u64
}

/// Advance the seed. The step is a multiply and add reduced modulo `2^64`.
fn next_seed_exec(s: u64) -> (r: u64)
    ensures
        r == next_seed(s),
{
    let wide: u128 = (s as u128) * 6364136223846793005u128 + 1442695040888963407u128;
    (wide % 0x1_0000_0000_0000_0000u128) as u64
}

/// The pool permuted by repeatedly drawing the element the seed points at.
pub open spec fn spec_shuffle(pool: Seq<usize>, s: u64) -> Seq<usize>
    decreases pool.len(),
{
    if pool.len() == 0 {
        pool
    } else {
        let s2 = next_seed(s);
        let j = (s2 as nat) % pool.len();
        seq![pool[j as int]] + spec_shuffle(pool.remove(j as int), s2)
    }
}

/// Shuffling keeps the pool's length, its members, and their distinctness:
/// only the order changes.
pub proof fn lemma_shuffle_props(pool: Seq<usize>, s: u64)
    ensures
        spec_shuffle(pool, s).len() == pool.len(),
        forall|p: usize| spec_shuffle(pool, s).contains(p) <==> pool.contains(p),
        pool.no_duplicates() ==> spec_shuffle(pool, s).no_duplicates(),
    decreases pool.len(),
{
    if pool.len() == 0 {
    } else {
        let out = spec_shuffle(pool, s);
        let s2 = next_seed(s);
        let j = ((s2 as nat) % pool.len()) as int;
        let rest = pool.remove(j);
        lemma_shuffle_props(rest, s2);
        assert(out == seq![pool[j]] + spec_shuffle(rest, s2));
        assert forall|p: usize| out.contains(p) implies pool.contains(p) by {
            let idx = choose|idx: int| 0 <= idx < out.len() && out[idx] == p;
            if idx == 0 {
                assert(pool[j] == p);
            } else {
                assert(spec_shuffle(rest, s2)[idx - 1] == p);
                assert(spec_shuffle(rest, s2).contains(p));
                assert(rest.contains(p));
                let ri = choose|ri: int| 0 <= ri < rest.len() && rest[ri] == p;
                if ri < j {
                    assert(pool[ri] == p);
                } else {
                    assert(pool[ri + 1] == p);
                }
            }
        }
        assert forall|p: usize| pool.contains(p) implies out.contains(p) by {
            let idx = choose|idx: int| 0 <= idx < pool.len() && pool[idx] == p;
            if idx == j {
                assert(out[0] == p);
            } else {
                if idx < j {
                    assert(rest[idx] == p);
                    assert(rest.contains(p));
                } else {
                    assert(rest[idx - 1] == p);
                    assert(rest.contains(p));
                }
                assert(spec_shuffle(rest, s2).contains(p));
                let si = choose|si: int|
                    0 <= si < spec_shuffle(rest, s2).len() && spec_shuffle(rest, s2)[si] == p;
                assert(out[si + 1] == p);
            }
        }
        if pool.no_duplicates() {
            assert(rest.no_duplicates()) by {
                assert forall|x: int, y: int| 0 <= x < y < rest.len() implies rest[x] != rest[y] by {
                    assert(rest[x] == if x < j {
                        pool[x]
                    } else {
                        pool[x + 1]
                    });
                    assert(rest[y] == if y < j {
                        pool[y]
                    } else {
                        pool[y + 1]
                    });
                }
            }
            assert(out.no_duplicates()) by {
                assert forall|x: int, y: int| 0 <= x < y < out.len() implies out[x] != out[y] by {
                    if x == 0 {
                        assert(out[y] == spec_shuffle(rest, s2)[y - 1]);
                        assert(spec_shuffle(rest, s2).contains(out[y]));
                        assert(rest.contains(out[y]));
                        if pool[j] == out[y] {
                            let ri = choose|ri: int| 0 <= ri < rest.len() && rest[ri] == pool[j];
                            assert(pool[j] == if ri < j {
                                pool[ri]
                            } else {
                                pool[ri + 1]
                            });
                        }
                    }
                }
            }
        }
    }
}

/// Permute the pool, drawing each position from the running seed.
pub(crate) fn shuffle_pool(pool: Vec<usize>, seed: u64) -> (r: Vec<usize>)
    ensures
        r@ == spec_shuffle(pool@, seed),
{
    let mut work = pool;
    let mut out: Vec<usize> = Vec::new();
    let mut s = seed;
    while work.len() > 0
        invariant
            out@ + spec_shuffle(work@, s) == spec_shuffle(pool@, seed),
        decreases work@.len(),
    {
        let ghost s_old = s;
        let s2 = next_seed_exec(s);
        let j = (s2 % (work.len() as u64)) as usize;
        proof {
            assert(work@.len() <= usize::MAX);
            assert(j == (s2 as nat) % work@.len());
        }
        let ghost prev_work = work@;
        let ghost prev_out = out@;
        let x = work.remove(j);
        out.push(x);
        s = s2;
        proof {
            assert(spec_shuffle(prev_work, s_old) == seq![prev_work[j as int]] + spec_shuffle(
                prev_work.remove(j as int),
                s2,
            ));
            assert(out@ + spec_shuffle(work@, s) =~= prev_out + spec_shuffle(prev_work, s_old));
        }
    }
    proof {
        assert(spec_shuffle(work@, s) =~= Seq::<usize>::empty());
        assert(out@ + spec_shuffle(work@, s) =~= out@);
    }
    out
}

} // verus!
