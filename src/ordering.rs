//! Newest-first selection: the order in which every listing of the store hands
//! back its rows.
use vstd::prelude::*;

verus! {

/// Row `i` comes before row `j` in newest-first order: the later key first, and
/// among equal keys the row stored later.
pub open spec fn comes_before(keys: Seq<i64>, i: int, j: int) -> bool {
    keys[i] > keys[j] || (keys[i] == keys[j] && i > j)
}

/// Row `i` is among those in `picked`.
pub open spec fn taken(picked: Seq<usize>, i: int) -> bool {
    exists|k: int| 0 <= k < picked.len() && #[trigger] picked[k] as int == i
}

/// `picked` lists, newest first, the rows selected by `mask` that a listing
/// capped at `limit` returns: no more than `limit` of them, and every selected
/// row left out comes after all of those taken.
pub open spec fn is_newest_first(keys: Seq<i64>, mask: Seq<bool>, limit: nat, picked: Seq<usize>) -> bool {
    &&& picked.len() <= limit
    &&& forall|k: int|
        0 <= k < picked.len() ==> (#[trigger] picked[k] as int) < keys.len() && mask[picked[k] as int]
    &&& forall|k: int, l: int|
        0 <= k < l < picked.len() ==> comes_before(keys, #[trigger] picked[k] as int, #[trigger] picked[l] as int)
    &&& forall|i: int|
        0 <= i < keys.len() && #[trigger] mask[i] && !taken(picked, i) ==> {
            &&& picked.len() == limit
            &&& limit > 0 ==> comes_before(keys, picked.last() as int, i)
        }
}

/// Whether row `m` is still to be considered once `picked` has been taken.
spec fn eligible(keys: Seq<i64>, picked: Seq<usize>, m: int) -> bool {
    picked.len() == 0 || comes_before(keys, picked.last() as int, m)
}

/// The positions of the rows selected by `mask`, newest first by `keys`, at most
/// `limit` of them.
pub fn newest_first_indices(keys: &Vec<i64>, mask: &Vec<bool>, limit: u64) -> (r: Vec<usize>)
    requires
        keys.len() == mask.len(),
    ensures
        is_newest_first(keys@, mask@, limit as nat, r@),
{
    let n = keys.len();
    let mut picked: Vec<usize> = Vec::new();
    let mut done = false;
    while (picked.len() as u64) < limit && !done
        invariant
            n == keys.len() == mask.len(),
            picked.len() <= limit,
            forall|k: int|
                0 <= k < picked.len() ==> (#[trigger] picked@[k] as int) < n && mask@[picked@[k] as int],
            forall|k: int, l: int|
                0 <= k < l < picked.len() ==> comes_before(keys@, #[trigger] picked@[k] as int, #[trigger] picked@[l] as int),
            forall|i: int|
                0 <= i < n && #[trigger] mask@[i] && !taken(picked@, i) ==> eligible(keys@, picked@, i),
            done ==> forall|i: int| 0 <= i < n && #[trigger] mask@[i] ==> taken(picked@, i),
        decreases 2 * (limit - picked.len()) + (if done { 0int } else { 1int }),
    {
        let ghost before = picked@;
        let mut best: usize = 0;
        let mut found = false;
        let mut j: usize = 0;
        while j < n
            invariant
                n == keys.len() == mask.len(),
                picked@ == before,
                forall|k: int| 0 <= k < before.len() ==> (#[trigger] before[k] as int) < n,
                j <= n,
                found ==> best < j && mask@[best as int] && eligible(keys@, before, best as int),
                found ==> forall|m: int|
                    0 <= m < j && #[trigger] mask@[m] && eligible(keys@, before, m) && m != best
                        ==> comes_before(keys@, best as int, m),
                !found ==> forall|m: int| 0 <= m < j && #[trigger] mask@[m] ==> !eligible(keys@, before, m),
            decreases n - j,
        {
            if mask[j] {
                let ok = if picked.len() == 0 {
                    true
                } else {
                    let last = picked[picked.len() - 1];
                    keys[j] < keys[last] || (keys[j] == keys[last] && j < last)
                };
                if ok && (!found || keys[j] >= keys[best]) {
                    best = j;
                    found = true;
                }
            }
            j = j + 1;
        }
        if found {
            proof {
                assert forall|k: int| 0 <= k < before.len() implies comes_before(
                    keys@,
                    before[k] as int,
                    best as int,
                ) by {
                    if k < before.len() - 1 {
                        assert(comes_before(keys@, before[k] as int, before[before.len() - 1] as int));
                    }
                }
            }
            picked.push(best);
            proof {
                assert forall|k: int, l: int|
                    0 <= k < l < picked.len() implies comes_before(
                        keys@,
                        #[trigger] picked@[k] as int,
                        #[trigger] picked@[l] as int,
                    ) by {
                    if l < before.len() {
                        assert(picked@[k] == before[k] && picked@[l] == before[l]);
                    }
                }
                assert forall|i: int|
                    0 <= i < n && #[trigger] mask@[i] && !taken(picked@, i) implies eligible(
                        keys@,
                        picked@,
                        i,
                    ) by {
                    assert(picked@.last() == best);
                    if taken(before, i) {
                        let k = choose|k: int| 0 <= k < before.len() && #[trigger] before[k] as int == i;
                        assert(picked@[k] as int == i);
                    }
                    assert(i != best as int) by {
                        assert(picked@[picked.len() - 1] == best);
                    }
                }
            }
        } else {
            proof {
                assert forall|i: int| 0 <= i < n && #[trigger] mask@[i] implies taken(picked@, i) by {
                    if !taken(picked@, i) {
                        assert(eligible(keys@, before, i));
                    }
                }
            }
            done = true;
        }
    }
    proof {
        assert forall|i: int|
            0 <= i < keys.len() && #[trigger] mask@[i] && !taken(picked@, i) implies {
                &&& picked.len() == limit
                &&& limit > 0 ==> comes_before(keys@, picked@.last() as int, i)
            } by {
            assert(eligible(keys@, picked@, i));
        }
    }
    picked
}

} // verus!
