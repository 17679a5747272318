//! Players: a preference order over all other players, a ranked queue of
//! candidate partner pairs, and the acceptance test used by proposals.

use vstd::prelude::*;
use crate::prefs::{
    all_pairs, is_perm_of_others, lemma_rank_of, lemma_swap_perm, pairs_from, rank_of, row_pairs,
};
use crate::team::Team;

verus! {

/// A participant to be matched into a team of three.
pub struct Player {
    pub id: usize,
    /// Index of the team this player is on, if any.
    pub team: Option<usize>,
    /// All other players' ids, most preferred first.
    pub preference_list: Vec<usize>,
    /// Candidate partner pairs not yet proposed, most desirable first.
    /// Consumed front to back, never replenished.
    pub preferred_pairs: Vec<(usize, usize)>,
}

/// Which of two optional players ranks higher in `prefs`: `Some(true)` if the
/// first does, `Some(false)` if the second does, `None` if neither is ranked
/// (or neither is present). An absent player always loses to a present one;
/// when both are present, the earlier entry in `prefs` wins.
pub open spec fn prefers_spec(prefs: Seq<usize>, a: Option<usize>, b: Option<usize>) -> Option<
    bool,
> {
    match (a, b) {
        (None, None) => None,
        (None, Some(_)) => Some(false),
        (Some(_), None) => Some(true),
        (Some(x), Some(y)) => if rank_of(prefs, x) < prefs.len() || rank_of(prefs, y)
            < prefs.len() {
            Some(rank_of(prefs, x) <= rank_of(prefs, y))
        } else {
            None
        },
    }
}

/// The proposed pair reordered so that the player's own more preferred
/// candidate comes first, matching the order used in `preferred_pairs`.
pub open spec fn canonical_pair(prefs: Seq<usize>, others: (usize, usize)) -> (usize, usize) {
    if prefers_spec(prefs, Some(others.1), Some(others.0)) == Some(true) {
        (others.1, others.0)
    } else {
        others
    }
}

/// Whether a front-to-back scan of the queue `q` reaches `proposed` no later
/// than `current`: the proposed pair must occur, at or before the first
/// occurrence of the current pair.
pub open spec fn queue_prefers(
    q: Seq<(usize, usize)>,
    proposed: (usize, usize),
    current: (usize, usize),
) -> bool {
    rank_of(q, proposed) < q.len() && rank_of(q, proposed) <= rank_of(q, current)
}

/// The team's three slots sorted by this preference order, most preferred
/// first, by the three-comparison selection used by `preference_order`.
pub open spec fn spec_preference_order(prefs: Seq<usize>, team: Team) -> (
    Option<usize>,
    Option<usize>,
    Option<usize>,
) {
    let most0 = team.0;
    let mid0 = team.1;
    let least0 = team.2;
    let swap1 = prefers_spec(prefs, least0, mid0) == Some(true);
    let mid1 = if swap1 {
        least0
    } else {
        mid0
    };
    let least1 = if swap1 {
        mid0
    } else {
        least0
    };
    let swap2 = prefers_spec(prefs, mid1, most0) == Some(true);
    let most2 = if swap2 {
        mid1
    } else {
        most0
    };
    let mid2 = if swap2 {
        most0
    } else {
        mid1
    };
    let swap3 = prefers_spec(prefs, least1, mid2) == Some(true);
    let mid3 = if swap3 {
        least1
    } else {
        mid2
    };
    let least3 = if swap3 {
        mid2
    } else {
        least1
    };
    (most2, mid3, least3)
}

/// The two most preferred slots of the team under this preference order.
/// Since a player ranks itself below every listed player, on the player's own
/// full team these are exactly the two teammates.
pub open spec fn spec_not_me(prefs: Seq<usize>, team: Team) -> (Option<usize>, Option<usize>) {
    let ordered = spec_preference_order(prefs, team);
    (ordered.0, ordered.1)
}

/// The acceptance test of a proposal: an unassigned player, or one whose team
/// is not full, always accepts; otherwise the player accepts exactly when its
/// own queue ranks the canonicalized proposed pair no worse than its current
/// pair of teammates.
pub open spec fn prefers_team_spec(p: Player, others: (usize, usize), teams: Seq<Team>) -> bool {
    match p.team {
        None => true,
        Some(t) => {
            let canon = canonical_pair(p.preference_list@, others);
            let ordered = spec_not_me(p.preference_list@, teams[t as int]);
            match (ordered.0, ordered.1) {
                (Some(c0), Some(c1)) => queue_prefers(p.preferred_pairs@, canon, (c0, c1)),
                _ => true,
            }
        },
    }
}

impl Player {
    /// An unassigned player with the given preference order and the derived
    /// candidate pair queue.
    pub fn from_preferences(id: usize, preference_list: Vec<usize>) -> (r: Player)
        ensures
            r.id == id,
            r.team is None,
            r.preference_list == preference_list,
            r.preferred_pairs@ == all_pairs(preference_list@),
    {
        let ghost prefs = preference_list@;
        let m = preference_list.len();
        let mut preferred_pairs: Vec<(usize, usize)> = Vec::new();
        let mut i: usize = 0;
        while i < m
            invariant
                m == prefs.len(),
                prefs == preference_list@,
                i <= m,
                preferred_pairs@ + pairs_from(prefs, i as int) == all_pairs(prefs),
            decreases m - i,
        {
            let ghost base = preferred_pairs@;
            let mut j = i + 1;
            while j < m
                invariant
                    m == prefs.len(),
                    prefs == preference_list@,
                    i < m,
                    i + 1 <= j <= m,
                    preferred_pairs@ == base + Seq::new(
                        (j - i - 1) as nat,
                        |k: int| (prefs[i as int], prefs[i + 1 + k]),
                    ),
                decreases m - j,
            {
                let first = preference_list[i];
                let second = preference_list[j];
                preferred_pairs.push((first, second));
                proof {
                    assert(preferred_pairs@ =~= base + Seq::new(
                        (j + 1 - i - 1) as nat,
                        |k: int| (prefs[i as int], prefs[i + 1 + k]),
                    ));
                }
                j += 1;
            }
            proof {
                assert(Seq::new(
                    (m - i - 1) as nat,
                    |k: int| (prefs[i as int], prefs[i + 1 + k]),
                ) =~= row_pairs(prefs, i as int));
                assert(preferred_pairs@ + pairs_from(prefs, i as int + 1) =~= (base + row_pairs(
                    prefs,
                    i as int,
                )) + pairs_from(prefs, i as int + 1));
                assert((base + row_pairs(prefs, i as int)) + pairs_from(prefs, i as int + 1)
                    =~= base + (row_pairs(prefs, i as int) + pairs_from(prefs, i as int + 1)));
                assert(row_pairs(prefs, i as int) + pairs_from(prefs, i as int + 1) == pairs_from(
                    prefs,
                    i as int,
                ));
            }
            i += 1;
        }
        proof {
            assert(preferred_pairs@ + pairs_from(prefs, m as int) =~= preferred_pairs@);
        }
        Player { id, team: None, preference_list, preferred_pairs }
    }

    /// A player with a freshly shuffled preference order over all ids below
    /// `total` other than its own, and the derived candidate pair queue.
    pub fn create(id: usize, total: usize) -> (r: Player)
        requires
            id < total,
        ensures
            r.id == id,
            r.team is None,
            is_perm_of_others(r.preference_list@, id as int, total as int),
            r.preferred_pairs@ == all_pairs(r.preference_list@),
    {
        let mut list: Vec<usize> = Vec::new();
        let mut k: usize = 0;
        while k < total
            invariant
                k <= total,
                list@.len() == k,
                forall|t: int| 0 <= t < k ==> list@[t] == t,
            decreases total - k,
        {
            list.push(k);
            k += 1;
        }
        list.remove(id);
        proof {
            assert forall|t: int| 0 <= t < list@.len() implies list@[t] == (if t < id {
                t
            } else {
                t + 1
            }) by {}
            assert forall|x: usize| x < total && x != id implies list@.contains(x) by {
                if x < id {
                    assert(list@[x as int] == x);
                } else {
                    assert(list@[x - 1] == x);
                }
            }
            assert(is_perm_of_others(list@, id as int, total as int));
        }
        let m = total - 1;
        let mut rng = crate::rng::fresh_rng();
        let mut i: usize = 0;
        while i < m
            invariant
                m == total - 1,
                i <= m,
                list@.len() == m,
                is_perm_of_others(list@, id as int, total as int),
            decreases m - i,
        {
            let j = crate::rng::random_below(&mut rng, i, m);
            let ghost before = list@;
            let vi = list[i];
            let vj = list[j];
            list[i] = vj;
            list[j] = vi;
            proof {
                lemma_swap_perm(before, list@, i as int, j as int, id as int, total as int);
            }
            i += 1;
        }
        Player::from_preferences(id, list)
    }

    /// Which of two optional players this player prefers, by a front-to-back
    /// scan of its preference order.
    pub fn prefers(&self, player_a: Option<usize>, player_b: Option<usize>) -> (r: Option<bool>)
        ensures
            r == prefers_spec(self.preference_list@, player_a, player_b),
    {
        match player_a {
            None => match player_b {
                None => None,
                Some(_) => Some(false),
            },
            Some(player_a_id) => match player_b {
                None => Some(true),
                Some(player_b_id) => {
                    let ghost prefs = self.preference_list@;
                    let mut i: usize = 0;
                    while i < self.preference_list.len()
                        invariant
                            prefs == self.preference_list@,
                            player_a == Some(player_a_id),
                            player_b == Some(player_b_id),
                            i <= prefs.len(),
                            forall|k: int| 0 <= k < i ==> prefs[k] != player_a_id,
                            forall|k: int| 0 <= k < i ==> prefs[k] != player_b_id,
                        decreases prefs.len() - i,
                    {
                        if self.preference_list[i] == player_a_id {
                            proof {
                                lemma_rank_of(prefs, player_a_id);
                                lemma_rank_of(prefs, player_b_id);
                                let ra = rank_of(prefs, player_a_id);
                                let rb = rank_of(prefs, player_b_id);
                                assert(prefs.contains(player_a_id));
                                if ra > i {
                                    assert(prefs[i as int] != player_a_id);
                                }
                                if rb < i {
                                    assert(prefs[rb] == player_b_id);
                                }
                                assert(ra <= rb);
                            }
                            return Some(true);
                        } else if self.preference_list[i] == player_b_id {
                            proof {
                                lemma_rank_of(prefs, player_a_id);
                                lemma_rank_of(prefs, player_b_id);
                                let ra = rank_of(prefs, player_a_id);
                                let rb = rank_of(prefs, player_b_id);
                                assert(prefs.contains(player_b_id));
                                if rb > i {
                                    assert(prefs[i as int] != player_b_id);
                                }
                                if ra < i {
                                    assert(prefs[ra] == player_a_id);
                                }
                                if ra == i {
                                    assert(prefs[i as int] == player_a_id);
                                }
                                assert(ra > rb);
                            }
                            return Some(false);
                        }
                        i += 1;
                    }
                    proof {
                        lemma_rank_of(prefs, player_a_id);
                        lemma_rank_of(prefs, player_b_id);
                        if rank_of(prefs, player_a_id) < prefs.len() {
                            assert(prefs[rank_of(prefs, player_a_id)] == player_a_id);
                        }
                        if rank_of(prefs, player_b_id) < prefs.len() {
                            assert(prefs[rank_of(prefs, player_b_id)] == player_b_id);
                        }
                    }
                    None
                },
            },
        }
    }

    /// The team's slots sorted by this player's preference, most preferred
    /// first, using three pairwise comparisons.
    pub fn preference_order(&self, team: &Team) -> (r: (
        Option<usize>,
        Option<usize>,
        Option<usize>,
    ))
        ensures
            r == spec_preference_order(self.preference_list@, *team),
    {
        let mut most = team.0;
        let mut mid = team.1;
        let mut least = team.2;
        if let Some(true) = self.prefers(least, mid) {
            let tmp = mid;
            mid = least;
            least = tmp;
        }
        if let Some(true) = self.prefers(mid, most) {
            let tmp = most;
            most = mid;
            mid = tmp;
        }
        if let Some(true) = self.prefers(least, mid) {
            let tmp = mid;
            mid = least;
            least = tmp;
        }
        (most, mid, least)
    }

    /// The two most preferred slots of the team: on this player's own full
    /// team, its two teammates in preference order.
    pub fn not_me(&self, team: &Team) -> (r: (Option<usize>, Option<usize>))
        ensures
            r == spec_not_me(self.preference_list@, *team),
    {
        let (a, b, _c) = self.preference_order(team);
        (a, b)
    }

    /// Whether this player accepts teaming up with the proposed pair: always,
    /// if currently unassigned or on a team that is not full; otherwise
    /// exactly when its own candidate queue ranks the proposed pair above its
    /// current teammates.
    pub fn prefers_team(&self, others: (usize, usize), teams: &Vec<Team>) -> (r: bool)
        requires
            self.team matches Some(t) ==> (t as int) < teams@.len(),
        ensures
            r == prefers_team_spec(*self, others, teams@),
            self.team is None ==> r,
    {
        if self.team.is_none() {
            return true;
        }
        let mut proposed = others;
        if let Some(true) = self.prefers(Some(others.1), Some(others.0)) {
            proposed = (others.1, others.0);
        }
        assert(proposed == canonical_pair(self.preference_list@, others));
        let t = self.team.unwrap();
        let ordered = self.not_me(&teams[t]);
        if ordered.0.is_none() || ordered.1.is_none() {
            return true;
        }
        let current = (ordered.0.unwrap(), ordered.1.unwrap());
        let ghost q = self.preferred_pairs@;
        let mut i: usize = 0;
        while i < self.preferred_pairs.len()
            invariant
                q == self.preferred_pairs@,
                i <= q.len(),
                forall|k: int| 0 <= k < i ==> q[k] != proposed,
                forall|k: int| 0 <= k < i ==> q[k] != current,
                prefers_team_spec(*self, others, teams@) == queue_prefers(q, proposed, current),
            decreases q.len() - i,
        {
            let pr = self.preferred_pairs[i];
            if pr.0 == proposed.0 && pr.1 == proposed.1 {
                proof {
                    lemma_rank_of(q, proposed);
                    lemma_rank_of(q, current);
                    assert(q.contains(proposed));
                }
                return true;
            }
            if pr.0 == current.0 && pr.1 == current.1 {
                proof {
                    lemma_rank_of(q, proposed);
                    lemma_rank_of(q, current);
                    assert(q.contains(current));
                }
                return false;
            }
            i += 1;
        }
        proof {
            lemma_rank_of(q, proposed);
        }
        false
    }
}

} // verus!
