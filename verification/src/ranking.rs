//! Ranking of chunks by an integer key that stands for their score.

use vstd::prelude::*;

verus! {

/// Whether position `p` comes before position `q` in the ranking: by the
/// larger key, and among equal keys by the smaller position.
pub open spec fn ranks_before(keys: Seq<u64>, p: int, q: int) -> bool {
    keys[p] > keys[q] || (keys[p] == keys[q] && p < q)
}

/// Whether position `p` takes part in the ranking: it has a key above zero.
pub open spec fn is_candidate(keys: Seq<u64>, p: int) -> bool {
    0 <= p < keys.len() && keys[p] > 0
}

/// Whether `ranked` is the ranking of `keys` cut to `top_k` places: it holds
/// candidates only, in ranking order, and whatever candidate it leaves out
/// comes after all that it holds, which then are `top_k` in number.
pub open spec fn is_ranking(keys: Seq<u64>, top_k: nat, ranked: Seq<usize>) -> bool {
    &&& ranked.len() <= top_k
    &&& forall|a: int| 0 <= a < ranked.len() ==> is_candidate(keys, #[trigger] ranked[a] as int)
    &&& forall|a: int, b: int|
        0 <= a < b < ranked.len() ==> ranks_before(
            keys,
            #[trigger] ranked[a] as int,
            #[trigger] ranked[b] as int,
        )
    &&& forall|p: int|
        #![trigger is_candidate(keys, p)]
        is_candidate(keys, p) && !ranked.contains(p as usize) ==> ranked.len() == top_k
            && forall|a: int|
            0 <= a < ranked.len() ==> ranks_before(keys, #[trigger] ranked[a] as int, p)
}

/// Where two rankings agree before place `m` and `a[m]` ranks before
/// `b[m]`, or `b` ends there, `b` does not hold `a[m]`.
proof fn lemma_ranking_lacks(keys: Seq<u64>, top_k: nat, a: Seq<usize>, b: Seq<usize>, m: int)
    requires
        is_ranking(keys, top_k, a),
        is_ranking(keys, top_k, b),
        0 <= m < a.len(),
        m <= b.len(),
        forall|i: int| 0 <= i < m ==> a[i] == b[i],
        m < b.len() ==> ranks_before(keys, a[m] as int, b[m] as int),
    ensures
        !b.contains(a[m]),
{
    let p = a[m];
    assert(is_candidate(keys, p as int));
    assert forall|j: int| 0 <= j < b.len() implies b[j] != p by {
        assert(is_candidate(keys, b[j] as int));
        if j < m {
            assert(ranks_before(keys, a[j] as int, a[m] as int));
        } else if j > m {
            assert(ranks_before(keys, b[m] as int, b[j] as int));
        }
    }
}

/// Two rankings agree in the first `n` places.
proof fn lemma_rankings_agree(keys: Seq<u64>, top_k: nat, a: Seq<usize>, b: Seq<usize>, n: int)
    requires
        is_ranking(keys, top_k, a),
        is_ranking(keys, top_k, b),
        0 <= n <= a.len(),
        n <= b.len(),
    ensures
        forall|i: int| 0 <= i < n ==> a[i] == b[i],
    decreases n,
{
    if n > 0 {
        let m = n - 1;
        lemma_rankings_agree(keys, top_k, a, b, m);
        let p = a[m];
        let q = b[m];
        assert(is_candidate(keys, p as int));
        assert(is_candidate(keys, q as int));
        if p != q {
            if ranks_before(keys, p as int, q as int) {
                lemma_ranking_lacks(keys, top_k, a, b, m);
                assert(ranks_before(keys, b[m] as int, p as int));
            } else {
                lemma_ranking_lacks(keys, top_k, b, a, m);
                assert(ranks_before(keys, a[m] as int, q as int));
            }
        }
    }
}

/// There is one ranking of given keys cut to a given number of places.
pub proof fn lemma_ranking_is_unique(keys: Seq<u64>, top_k: nat, a: Seq<usize>, b: Seq<usize>)
    requires
        is_ranking(keys, top_k, a),
        is_ranking(keys, top_k, b),
    ensures
        a == b,
{
    if a.len() < b.len() {
        lemma_rankings_agree(keys, top_k, a, b, a.len() as int);
        lemma_ranking_lacks(keys, top_k, b, a, a.len() as int);
        assert(is_candidate(keys, b[a.len() as int] as int));
    } else if b.len() < a.len() {
        lemma_rankings_agree(keys, top_k, a, b, b.len() as int);
        lemma_ranking_lacks(keys, top_k, a, b, b.len() as int);
        assert(is_candidate(keys, a[b.len() as int] as int));
    } else {
        lemma_rankings_agree(keys, top_k, a, b, a.len() as int);
        assert(a =~= b);
    }
}

/// The ranking of `keys` cut to `top_k` places.
pub open spec fn ranking_of(keys: Seq<u64>, top_k: nat) -> Seq<usize> {
    choose|ranked: Seq<usize>| is_ranking(keys, top_k, ranked)
}

/// The candidate that comes first among those after `last` in the ranking, or
/// among all where `last` is `None`; `None` where there is none.
fn next_best(keys: &Vec<u64>, last: Option<usize>) -> (best: Option<usize>)
    requires
        match last {
            Some(l) => l < keys.len(),
            None => true,
        },
    ensures
        match best {
            Some(b) => {
                &&& is_candidate(keys@, b as int)
                &&& last is Some ==> ranks_before(keys@, last->0 as int, b as int)
                &&& forall|p: int|
                    #![trigger is_candidate(keys@, p)]
                    is_candidate(keys@, p) && p != b && (last is Some ==> ranks_before(
                        keys@,
                        last->0 as int,
                        p,
                    )) ==> ranks_before(keys@, b as int, p)
            },
            None => forall|p: int|
                #![trigger is_candidate(keys@, p)]
                is_candidate(keys@, p) ==> last is Some && !ranks_before(keys@, last->0 as int, p),
        },
{
    let mut best: Option<usize> = None;
    let mut p: usize = 0;
    while p < keys.len()
        invariant
            p <= keys.len(),
            match last {
                Some(l) => l < keys.len(),
                None => true,
            },
            match best {
                Some(b) => {
                    &&& b < p
                    &&& is_candidate(keys@, b as int)
                    &&& last is Some ==> ranks_before(keys@, last->0 as int, b as int)
                    &&& forall|q: int|
                        #![trigger is_candidate(keys@, q)]
                        is_candidate(keys@, q) && q < p && q != b && (last is Some ==> ranks_before(
                            keys@,
                            last->0 as int,
                            q,
                        )) ==> ranks_before(keys@, b as int, q)
                },
                None => forall|q: int|
                    #![trigger is_candidate(keys@, q)]
                    is_candidate(keys@, q) && q < p ==> last is Some && !ranks_before(
                        keys@,
                        last->0 as int,
                        q,
                    ),
            },
        decreases keys.len() - p,
    {
        let key: u64 = keys[p];
        let after_last = match last {
            Some(l) => keys[l] > key || (keys[l] == key && l < p),
            None => true,
        };
        if key > 0 && after_last {
            let better = match best {
                Some(b) => key > keys[b],
                None => true,
            };
            if better {
                best = Some(p);
            }
        }
        p = p + 1;
    }
    best
}

/// What the selection has gathered when it stops is the ranking.
proof fn lemma_rest_comes_after(
    keys: Seq<u64>,
    top_k: nat,
    ranked: Seq<usize>,
    last: Option<usize>,
    done: bool,
)
    requires
        ranked.len() <= top_k,
        ranked.len() == top_k || done,
        last is Some <==> ranked.len() > 0,
        last is Some ==> last->0 == ranked[ranked.len() - 1],
        forall|a: int| 0 <= a < ranked.len() ==> is_candidate(keys, #[trigger] ranked[a] as int),
        forall|a: int, b: int|
            0 <= a < b < ranked.len() ==> ranks_before(
                keys,
                #[trigger] ranked[a] as int,
                #[trigger] ranked[b] as int,
            ),
        forall|p: int|
            #![trigger is_candidate(keys, p)]
            is_candidate(keys, p) && !ranked.contains(p as usize) ==> !done && (last is Some
                ==> ranks_before(keys, last->0 as int, p)),
    ensures
        is_ranking(keys, top_k, ranked),
{
    assert forall|p: int|
        #![trigger is_candidate(keys, p)]
        is_candidate(keys, p) && !ranked.contains(p as usize) implies ranked.len() == top_k
        && forall|a: int|
        0 <= a < ranked.len() ==> ranks_before(keys, #[trigger] ranked[a] as int, p) by {
        let n = ranked.len() as int;
        assert forall|a: int| 0 <= a < n implies ranks_before(keys, #[trigger] ranked[a] as int, p) by {
            if a < n - 1 {
                assert(ranks_before(keys, ranked[a] as int, ranked[n - 1] as int));
            }
        }
    }
}

/// Ranks the positions of `keys`: those with a key above zero, by key from the
/// largest down, equal keys by position, at most `top_k` of them.
pub fn rank_chunks(keys: &Vec<u64>, top_k: usize) -> (ranked: Vec<usize>)
    ensures
        is_ranking(keys@, top_k as nat, ranked@),
        ranked@ == ranking_of(keys@, top_k as nat),
        ranked.len() <= top_k,
        forall|a: int, b: int|
            0 <= a < b < ranked.len() ==> keys[ranked[a] as int] >= keys[ranked[b] as int],
        keys.len() == 0 ==> ranked.len() == 0,
{
    let mut ranked: Vec<usize> = Vec::new();
    let mut last: Option<usize> = None;
    let mut done: bool = false;
    while ranked.len() < top_k && !done
        invariant
            ranked.len() <= top_k,
            last is Some <==> ranked.len() > 0,
            last is Some ==> last->0 == ranked[ranked.len() - 1],
            forall|a: int| 0 <= a < ranked.len() ==> is_candidate(keys@, #[trigger] ranked[a] as int),
            forall|a: int, b: int|
                0 <= a < b < ranked.len() ==> ranks_before(
                    keys@,
                    #[trigger] ranked[a] as int,
                    #[trigger] ranked[b] as int,
                ),
            forall|p: int|
                #![trigger is_candidate(keys@, p)]
                is_candidate(keys@, p) && !ranked@.contains(p as usize) ==> !done && (last is Some
                    ==> ranks_before(keys@, last->0 as int, p)),
        decreases top_k - ranked.len() + if done { 0int } else { 1int },
    {
        let ghost before = ranked@;
        match next_best(keys, last) {
            Some(b) => {
                ranked.push(b);
                proof {
                    let n = before.len() as int;
                    assert forall|a: int, c: int| 0 <= a < c < ranked.len() implies ranks_before(
                        keys@,
                        #[trigger] ranked[a] as int,
                        #[trigger] ranked[c] as int,
                    ) by {
                        if c == n {
                            assert(ranked[c] == b);
                            assert(ranked[a] == before[a]);
                            if a < n - 1 {
                                assert(ranks_before(keys@, before[a] as int, before[n - 1] as int));
                            }
                        } else {
                            assert(ranked[a] == before[a]);
                            assert(ranked[c] == before[c]);
                        }
                    }
                    assert forall|p: int|
                        #![trigger is_candidate(keys@, p)]
                        is_candidate(keys@, p) && !ranked@.contains(p as usize)
                        implies ranks_before(keys@, b as int, p) by {
                        if before.contains(p as usize) {
                            let a = choose|a: int| 0 <= a < before.len() && before[a] == p as usize;
                            assert(ranked@[a] == p as usize);
                        }
                        if p == b {
                            assert(ranked@[n] == b);
                        }
                    }
                }
                last = Some(b);
            },
            None => {
                done = true;
            },
        }
    }
    proof {
        if ranked.len() > 0 {
            assert(is_candidate(keys@, ranked[0] as int));
        }
        assert(is_ranking(keys@, top_k as nat, ranked@)) by {
            lemma_rest_comes_after(keys@, top_k as nat, ranked@, last, done);
        }
        lemma_ranking_is_unique(keys@, top_k as nat, ranked@, ranking_of(keys@, top_k as nat));
    }
    ranked
}

} // verus!
