//! Ordering by key, where equal keys keep their order.

use vstd::prelude::*;

verus! {

/// Whether position `a` comes before position `b` when positions are ordered
/// by their keys and, among equal keys, by themselves.
pub open spec fn comes_before(keys: Seq<u64>, a: int, b: int) -> bool {
    keys[a] < keys[b] || (keys[a] == keys[b] && a < b)
}

/// Whether `ranking` lists the first `count` positions of `keys`, each once,
/// so that every one comes before those listed after it.
pub open spec fn ranks(keys: Seq<u64>, count: int, ranking: Seq<usize>) -> bool {
    &&& ranking.len() == count
    &&& forall|i: int| 0 <= i < ranking.len() ==> (#[trigger] ranking[i]) < count
    &&& forall|x: usize| 0 <= x < count ==> ranking.contains(x)
    &&& forall|i: int, j: int|
        0 <= i < j < ranking.len() ==> comes_before(keys, #[trigger] ranking[i] as int, #[trigger] ranking[j] as int)
}

/// Whether `ranking` lists all positions of `keys` in ascending order of key,
/// positions of equal keys in ascending order.
pub open spec fn is_ranking(keys: Seq<u64>, ranking: Seq<usize>) -> bool {
    ranks(keys, keys.len() as int, ranking)
}

/// The ranking of `keys`.
pub open spec fn ranking_of(keys: Seq<u64>) -> Seq<usize> {
    choose|ranking: Seq<usize>| is_ranking(keys, ranking)
}

/// Two rankings of the same keys agree up to any place.
proof fn lemma_rankings_agree(keys: Seq<u64>, r: Seq<usize>, s: Seq<usize>, i: int)
    requires
        is_ranking(keys, r),
        is_ranking(keys, s),
        0 <= i < keys.len(),
    ensures
        r[i] == s[i],
    decreases i,
{
    assert forall|j: int| 0 <= j < i implies r[j] == s[j] by {
        lemma_rankings_agree(keys, r, s, j);
    }
    assert(s.contains(r[i]));
    let k = s.index_of(r[i]);
    assert(s[k] == r[i]);
    assert(r.contains(s[i]));
    let m = r.index_of(s[i]);
    assert(r[m] == s[i]);
    if k < i {
        assert(r[k] == s[k]);
        assert(comes_before(keys, r[k] as int, r[i] as int));
    } else if k > i {
        assert(comes_before(keys, s[i] as int, s[k] as int));
        if m < i {
            assert(r[m] == s[m]);
            assert(comes_before(keys, s[m] as int, s[i] as int));
        } else if m > i {
            assert(comes_before(keys, r[i] as int, r[m] as int));
        }
    }
}

/// Keys have one ranking only.
pub proof fn lemma_ranking_unique(keys: Seq<u64>, r: Seq<usize>, s: Seq<usize>)
    requires
        is_ranking(keys, r),
        is_ranking(keys, s),
    ensures
        r == s,
{
    assert forall|i: int| 0 <= i < r.len() implies r[i] == s[i] by {
        lemma_rankings_agree(keys, r, s, i);
    }
    assert(r =~= s);
}

/// In a ranking, keys never decrease from one place to the next.
pub proof fn lemma_ranking_ascends(keys: Seq<u64>, ranking: Seq<usize>, i: int)
    requires
        is_ranking(keys, ranking),
        0 <= i < ranking.len() - 1,
    ensures
        keys[ranking[i] as int] <= keys[ranking[i + 1] as int],
{
    assert(comes_before(keys, ranking[i] as int, ranking[i + 1] as int));
}

/// The ranking of `keys`: the positions in ascending order of key, with equal
/// keys in the order in which they stand.
pub fn rank(keys: &Vec<u64>) -> (ranking: Vec<usize>)
    ensures
        is_ranking(keys@, ranking@),
        ranking@ == ranking_of(keys@),
{
    let mut ranking: Vec<usize> = Vec::new();
    let mut next: usize = 0;
    while next < keys.len()
        invariant
            0 <= next <= keys@.len(),
            ranks(keys@, next as int, ranking@),
        decreases keys@.len() - next,
    {
        // The new position goes before the first one with a larger key.
        let mut place: usize = 0;
        while place < ranking.len() && keys[ranking[place]] <= keys[next]
            invariant
                0 <= place <= ranking@.len(),
                next < keys@.len(),
                ranks(keys@, next as int, ranking@),
                forall|i: int| 0 <= i < place ==> keys@[(#[trigger] ranking@[i]) as int] <= keys@[next as int],
            decreases ranking@.len() - place,
        {
            place += 1;
        }
        let ghost before = ranking@;
        ranking.insert(place, next);
        proof {
            let after = ranking@;
            assert forall|i: int| 0 <= i < after.len() implies (#[trigger] after[i]) < next + 1 by {
                if i < place {
                    assert(after[i] == before[i]);
                } else if i > place {
                    assert(after[i] == before[i - 1]);
                }
            }
            assert forall|x: usize| 0 <= x < next + 1 implies after.contains(x) by {
                if x == next {
                    assert(after[place as int] == x);
                } else {
                    assert(before.contains(x));
                    let i = before.index_of(x);
                    assert(before[i] == x);
                    if i < place {
                        assert(after[i] == x);
                    } else {
                        assert(after[i + 1] == x);
                    }
                }
            }
            assert forall|i: int, j: int| 0 <= i < j < after.len() implies comes_before(
                keys@,
                #[trigger] after[i] as int,
                #[trigger] after[j] as int,
            ) by {
                let a = if i < place {
                    i
                } else {
                    i - 1
                };
                let b = if j < place {
                    j
                } else {
                    j - 1
                };
                if i != place {
                    assert(after[i] == before[a]);
                }
                if j != place {
                    assert(after[j] == before[b]);
                }
                if i == place {
                    // What follows the new position has a larger key.
                    assert(comes_before(keys@, before[place as int] as int, before[b] as int) || b
                        == place);
                } else if j == place {
                    assert(before[a] < next);
                } else {
                    assert(comes_before(keys@, before[a] as int, before[b] as int));
                }
            }
        }
        next += 1;
    }
    proof {
        assert(is_ranking(keys@, ranking@));
        assert(is_ranking(keys@, ranking_of(keys@)));
        lemma_ranking_unique(keys@, ranking@, ranking_of(keys@));
    }
    ranking
}

/// The same items, last to first.
pub fn reversed<T>(items: Vec<T>) -> (back: Vec<T>)
    ensures
        back@ == items@.reverse(),
{
    let mut items = items;
    let ghost all = items@;
    let mut back: Vec<T> = Vec::new();
    while items.len() > 0
        invariant
            items@.len() + back@.len() == all.len(),
            items@ == all.take(items@.len() as int),
            forall|i: int| 0 <= i < back@.len() ==> #[trigger] back@[i] == all[all.len() - 1 - i],
        decreases items@.len(),
    {
        match items.pop() {
            Some(item) => {
                back.push(item);
            },
            None => {},
        }
    }
    assert(back@ =~= all.reverse());
    back
}

} // verus!
