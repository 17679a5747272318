//! The preference model: ranks within a preference order, and the ranked
//! sequence of all unordered candidate pairs derived from one.

use vstd::prelude::*;

verus! {

/// Index of the first occurrence of `x` in `s`, or `s.len()` if `x` does not
/// occur. Earlier rank means more preferred.
pub open spec fn rank_of<T>(s: Seq<T>, x: T) -> int
    decreases s.len(),
{
    if s.len() == 0 {
        0
    } else if s[0] == x {
        0
    } else {
        1 + rank_of(s.drop_first(), x)
    }
}

/// `rank_of` is the index of the first occurrence: it is in bounds exactly
/// when the element occurs, it points at the element, and nothing before it
/// is the element.
pub proof fn lemma_rank_of<T>(s: Seq<T>, x: T)
    ensures
        0 <= rank_of(s, x) <= s.len(),
        rank_of(s, x) < s.len() ==> s[rank_of(s, x)] == x,
        forall|k: int| 0 <= k < rank_of(s, x) ==> s[k] != x,
        s.contains(x) <==> rank_of(s, x) < s.len(),
    decreases s.len(),
{
    if s.len() == 0 {
        assert(!s.contains(x));
    } else if s[0] == x {
        assert(s.contains(x));
    } else {
        lemma_rank_of(s.drop_first(), x);
        assert forall|k: int| 0 <= k < rank_of(s, x) implies s[k] != x by {
            if k > 0 {
                assert(s.drop_first()[k - 1] == s[k]);
            }
        }
        if s.drop_first().contains(x) {
            let w = choose|i: int| 0 <= i < s.drop_first().len() && s.drop_first()[i] == x;
            assert(s[w + 1] == x);
            assert(s.contains(x));
        }
        if s.contains(x) {
            let w = choose|i: int| 0 <= i < s.len() && s[i] == x;
            assert(w != 0);
            assert(s.drop_first()[w - 1] == x);
            assert(s.drop_first().contains(x));
        }
    }
}

/// In a duplicate-free sequence, the element at index `i` has rank `i`.
pub proof fn lemma_rank_of_index<T>(s: Seq<T>, i: int)
    requires
        s.no_duplicates(),
        0 <= i < s.len(),
    ensures
        rank_of(s, s[i]) == i,
{
    lemma_rank_of(s, s[i]);
    let r = rank_of(s, s[i]);
    assert(s.contains(s[i]));
    if r < i {
        assert(s[r] == s[i]);
    }
}

/// `s` lists every id below `total` other than `id`, each exactly once.
pub open spec fn is_perm_of_others(s: Seq<usize>, id: int, total: int) -> bool {
    &&& s.len() == total - 1
    &&& s.no_duplicates()
    &&& forall|k: int| 0 <= k < s.len() ==> s[k] < total && s[k] != id
    &&& forall|x: usize| x < total && x != id ==> s.contains(x)
}

/// Exchanging two entries preserves being a permutation of the others.
pub proof fn lemma_swap_perm(s1: Seq<usize>, s2: Seq<usize>, i: int, j: int, id: int, total: int)
    requires
        is_perm_of_others(s1, id, total),
        0 <= i < s1.len(),
        0 <= j < s1.len(),
        s2 == s1.update(i, s1[j]).update(j, s1[i]),
    ensures
        is_perm_of_others(s2, id, total),
{
    assert(s2.len() == s1.len());
    assert forall|k1: int, k2: int| 0 <= k1 < k2 < s2.len() implies s2[k1] != s2[k2] by {
        let m1: int = if k1 == j {
            i
        } else if k1 == i {
            j
        } else {
            k1
        };
        let m2: int = if k2 == j {
            i
        } else if k2 == i {
            j
        } else {
            k2
        };
        assert(s2[k1] == s1[m1]);
        assert(s2[k2] == s1[m2]);
        assert(m1 != m2);
    }
    assert forall|x: usize| x < total && x != id implies s2.contains(x) by {
        assert(s1.contains(x));
        let k0 = choose|k: int| 0 <= k < s1.len() && s1[k] == x;
        let k1: int = if k0 == i {
            j
        } else if k0 == j {
            i
        } else {
            k0
        };
        assert(s2[k1] == x);
    }
}

/// The candidate pairs whose first element is `prefs[i]`: one pair for each
/// later entry, in preference order.
pub open spec fn row_pairs(prefs: Seq<usize>, i: int) -> Seq<(usize, usize)> {
    Seq::new((prefs.len() - i - 1) as nat, |k: int| (prefs[i], prefs[i + 1 + k]))
}

/// The candidate pairs drawn from positions `i..` of `prefs`, ranked
/// lexicographically by the position of the first, then the second, element.
pub open spec fn pairs_from(prefs: Seq<usize>, i: int) -> Seq<(usize, usize)>
    decreases prefs.len() - i,
{
    if i < 0 || i >= prefs.len() {
        Seq::empty()
    } else {
        row_pairs(prefs, i) + pairs_from(prefs, i + 1)
    }
}

/// Every unordered pair of distinct entries of `prefs`, as ordered pairs with
/// the more preferred element first, ranked lexicographically by the rank of
/// the first, then the second, element.
pub open spec fn all_pairs(prefs: Seq<usize>) -> Seq<(usize, usize)> {
    pairs_from(prefs, 0)
}

/// Pair `q1` ranks strictly higher than `q2`: lexicographically by the rank
/// of the first, then of the second, element.
pub open spec fn pair_before(prefs: Seq<usize>, q1: (usize, usize), q2: (usize, usize)) -> bool {
    ||| rank_of(prefs, q1.0) < rank_of(prefs, q2.0)
    ||| (rank_of(prefs, q1.0) == rank_of(prefs, q2.0) && rank_of(prefs, q1.1) < rank_of(
        prefs,
        q2.1,
    ))
}

/// Twice the number of candidate pairs drawn from positions `i..` equals
/// (m - i) * (m - i - 1), for m entries: all pairs of two distinct positions.
pub proof fn lemma_pairs_from_len(prefs: Seq<usize>, i: int)
    requires
        0 <= i <= prefs.len(),
    ensures
        2 * pairs_from(prefs, i).len() == (prefs.len() - i) * (prefs.len() - i - 1),
    decreases prefs.len() - i,
{
    let n = prefs.len() as int;
    if i >= n {
        assert(pairs_from(prefs, i).len() == 0);
    } else {
        lemma_pairs_from_len(prefs, i + 1);
        assert(pairs_from(prefs, i).len() == (n - i - 1) + pairs_from(prefs, i + 1).len());
        let rest: int = pairs_from(prefs, i + 1).len() as int;
        assert(2 * ((n - i - 1) + rest) == (n - i) * (n - i - 1)) by (nonlinear_arith)
            requires
                2 * rest == (n - i - 1) * (n - i - 2),
        ;
    }
}

/// Every pair of positions `i <= x < y` contributes its pair to
/// `pairs_from(prefs, i)`.
pub proof fn lemma_pairs_from_contains(prefs: Seq<usize>, i: int, x: int, y: int)
    requires
        0 <= i <= x < y < prefs.len(),
    ensures
        pairs_from(prefs, i).contains((prefs[x], prefs[y])),
    decreases x - i,
{
    if i == x {
        let k = y - i - 1;
        assert(row_pairs(prefs, i)[k] == (prefs[x], prefs[y]));
        assert(pairs_from(prefs, i)[k] == (prefs[x], prefs[y]));
    } else {
        lemma_pairs_from_contains(prefs, i + 1, x, y);
        let rest = pairs_from(prefs, i + 1);
        let k = choose|k: int| 0 <= k < rest.len() && rest[k] == (prefs[x], prefs[y]);
        assert(pairs_from(prefs, i)[row_pairs(prefs, i).len() + k] == (prefs[x], prefs[y]));
    }
}

/// The pair consists of two entries of `prefs` at positions `x < y`.
pub open spec fn is_pair_of(prefs: Seq<usize>, pr: (usize, usize)) -> bool {
    exists|x: int, y: int|
        #![trigger prefs[x], prefs[y]]
        0 <= x < y < prefs.len() && pr == (prefs[x], prefs[y])
}

/// Every element of `pairs_from(prefs, i)` is the pair of two entries of
/// `prefs`, earlier position first.
pub proof fn lemma_pairs_from_elements(prefs: Seq<usize>, i: int)
    requires
        0 <= i,
    ensures
        forall|k: int|
            0 <= k < pairs_from(prefs, i).len() ==> is_pair_of(
                prefs,
                #[trigger] pairs_from(prefs, i)[k],
            ),
    decreases prefs.len() - i,
{
    if i < prefs.len() {
        lemma_pairs_from_elements(prefs, i + 1);
        let row = row_pairs(prefs, i);
        let rest = pairs_from(prefs, i + 1);
        assert forall|k: int| 0 <= k < pairs_from(prefs, i).len() implies is_pair_of(
            prefs,
            #[trigger] pairs_from(prefs, i)[k],
        ) by {
            if k < row.len() {
                assert(pairs_from(prefs, i)[k] == (prefs[i], prefs[i + 1 + k]));
            } else {
                assert(pairs_from(prefs, i)[k] == rest[k - row.len()]);
                assert(is_pair_of(prefs, rest[k - row.len()]));
            }
        }
    }
}

/// For a duplicate-free preference order, the pairs drawn from positions
/// `i..` are strictly sorted by rank of first then second element, and every
/// first element has rank at least `i`.
pub proof fn lemma_pairs_from_sorted(prefs: Seq<usize>, i: int)
    requires
        prefs.no_duplicates(),
        0 <= i,
    ensures
        forall|k: int|
            0 <= k < pairs_from(prefs, i).len() ==> rank_of(
                prefs,
                (#[trigger] pairs_from(prefs, i)[k]).0,
            ) >= i,
        forall|k1: int, k2: int|
            0 <= k1 < k2 < pairs_from(prefs, i).len() ==> pair_before(
                prefs,
                pairs_from(prefs, i)[k1],
                pairs_from(prefs, i)[k2],
            ),
    decreases prefs.len() - i,
{
    if 0 <= i && i < prefs.len() {
        lemma_pairs_from_sorted(prefs, i + 1);
        let row = row_pairs(prefs, i);
        let rest = pairs_from(prefs, i + 1);
        assert forall|k: int| 0 <= k < row.len() implies rank_of(prefs, row[k].0) == i && rank_of(
            prefs,
            row[k].1,
        ) == i + 1 + k by {
            lemma_rank_of_index(prefs, i);
            lemma_rank_of_index(prefs, i + 1 + k);
        }
        assert forall|k: int| 0 <= k < pairs_from(prefs, i).len() implies rank_of(
            prefs,
            (#[trigger] pairs_from(prefs, i)[k]).0,
        ) >= i by {
            if k < row.len() {
                assert(pairs_from(prefs, i)[k] == row[k]);
            } else {
                assert(pairs_from(prefs, i)[k] == rest[k - row.len()]);
            }
        }
        assert forall|k1: int, k2: int|
            0 <= k1 < k2 < pairs_from(prefs, i).len() implies pair_before(
            prefs,
            pairs_from(prefs, i)[k1],
            pairs_from(prefs, i)[k2],
        ) by {
            if k2 < row.len() {
                assert(pairs_from(prefs, i)[k1] == row[k1]);
                assert(pairs_from(prefs, i)[k2] == row[k2]);
            } else if k1 < row.len() {
                assert(pairs_from(prefs, i)[k1] == row[k1]);
                assert(pairs_from(prefs, i)[k2] == rest[k2 - row.len()]);
            } else {
                assert(pairs_from(prefs, i)[k1] == rest[k1 - row.len()]);
                assert(pairs_from(prefs, i)[k2] == rest[k2 - row.len()]);
            }
        }
    }
}

/// The candidate queue law: for a duplicate-free preference order with m
/// entries, `all_pairs` holds m * (m - 1) / 2 pairs; it contains the pair of
/// any two listed players, with the more preferred first; every element is
/// such a pair; it is strictly sorted by rank of the first, then the second,
/// element; and it holds no pair twice.
pub proof fn lemma_all_pairs_spec(prefs: Seq<usize>)
    requires
        prefs.no_duplicates(),
    ensures
        2 * all_pairs(prefs).len() == prefs.len() * (prefs.len() - 1),
        forall|x: int, y: int|
            0 <= x < y < prefs.len() ==> #[trigger] all_pairs(prefs).contains((prefs[x], prefs[y])),
        forall|k: int|
            0 <= k < all_pairs(prefs).len() ==> is_pair_of(prefs, #[trigger] all_pairs(prefs)[k]),
        forall|k1: int, k2: int|
            0 <= k1 < k2 < all_pairs(prefs).len() ==> pair_before(
                prefs,
                all_pairs(prefs)[k1],
                all_pairs(prefs)[k2],
            ),
        all_pairs(prefs).no_duplicates(),
{
    lemma_pairs_from_len(prefs, 0);
    lemma_pairs_from_elements(prefs, 0);
    lemma_pairs_from_sorted(prefs, 0);
    assert forall|x: int, y: int| 0 <= x < y < prefs.len() implies #[trigger] all_pairs(
        prefs,
    ).contains((prefs[x], prefs[y])) by {
        lemma_pairs_from_contains(prefs, 0, x, y);
    }
    assert forall|k: int| 0 <= k < all_pairs(prefs).len() implies is_pair_of(
        prefs,
        #[trigger] all_pairs(prefs)[k],
    ) by {
        assert(all_pairs(prefs)[k] == pairs_from(prefs, 0)[k]);
        assert(is_pair_of(prefs, pairs_from(prefs, 0)[k]));
    }
    assert forall|k1: int, k2: int|
        0 <= k1 < k2 < all_pairs(prefs).len() implies all_pairs(prefs)[k1] != all_pairs(
        prefs,
    )[k2] by {
        assert(pair_before(prefs, all_pairs(prefs)[k1], all_pairs(prefs)[k2]));
    }
}

} // verus!
