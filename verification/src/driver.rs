//! The scheduler/driver: one proposal attempt per step, repeated until no
//! free player has candidates left.

use vstd::prelude::*;
use crate::player::{prefers_team_spec, Player};
use crate::prefs::{all_pairs, is_pair_of, is_perm_of_others, lemma_all_pairs_spec};
use crate::registry::{
    create_team, dissolve_player_team, eligible, lemma_member_points_home,
    lemma_room_for_free_player, lemma_unassigned_not_member, lemma_wf_same_links, next,
    player_linked, wf_state,
};
use crate::team::Team;

verus! {

/// What one proposal attempt did: who proposed which pair, which sides
/// accepted, and the slot of the newly formed team, if one was formed.
#[derive(Clone, Copy)]
pub struct Attempt {
    pub proposer: usize,
    pub pair: (usize, usize),
    pub a_accepted: bool,
    pub b_accepted: bool,
    pub formed_slot: Option<usize>,
}

/// A candidate pair is well formed for its owner: two distinct real players,
/// neither the owner itself.
pub open spec fn pair_ok(players: Seq<Player>, p: int, pr: (usize, usize)) -> bool {
    &&& (pr.0 as int) < players.len()
    &&& (pr.1 as int) < players.len()
    &&& pr.0 != pr.1
    &&& (pr.0 as int) != p
    &&& (pr.1 as int) != p
}

/// Every pair in every candidate queue is well formed. Established at
/// initialization and preserved by every step, since queues are only popped.
pub open spec fn queues_valid(players: Seq<Player>) -> bool {
    forall|p: int, k: int|
        0 <= p < players.len() && 0 <= k < players[p].preferred_pairs@.len() ==> pair_ok(
            players,
            p,
            #[trigger] players[p].preferred_pairs@[k],
        )
}

/// The sum of all players' remaining candidate queue lengths: the driver's
/// termination measure.
pub open spec fn total_pending(players: Seq<Player>) -> nat
    decreases players.len(),
{
    if players.len() == 0 {
        0
    } else {
        players[0].preferred_pairs@.len() + total_pending(players.drop_first())
    }
}

/// The pending total depends only on the queue lengths.
pub proof fn lemma_total_pending_eq(s1: Seq<Player>, s2: Seq<Player>)
    requires
        s1.len() == s2.len(),
        forall|q: int|
            0 <= q < s1.len() ==> s1[q].preferred_pairs@.len() == s2[q].preferred_pairs@.len(),
    ensures
        total_pending(s1) == total_pending(s2),
    decreases s1.len(),
{
    if s1.len() > 0 {
        assert forall|q: int| 0 <= q < s1.drop_first().len() implies s1.drop_first()[q]
            .preferred_pairs@.len() == s2.drop_first()[q].preferred_pairs@.len() by {
            assert(s1.drop_first()[q] == s1[q + 1]);
            assert(s2.drop_first()[q] == s2[q + 1]);
        }
        lemma_total_pending_eq(s1.drop_first(), s2.drop_first());
    }
}

/// Changing one player's queue changes the pending total by the difference
/// of that queue's length.
pub proof fn lemma_total_pending_update(s1: Seq<Player>, s2: Seq<Player>, i: int)
    requires
        s1.len() == s2.len(),
        0 <= i < s1.len(),
        forall|q: int|
            0 <= q < s1.len() && q != i ==> s1[q].preferred_pairs@.len() == s2[q]
                .preferred_pairs@.len(),
    ensures
        total_pending(s2) + s1[i].preferred_pairs@.len() == total_pending(s1) + s2[i]
            .preferred_pairs@.len(),
    decreases s1.len(),
{
    assert forall|q: int| 0 <= q < s1.drop_first().len() && q != i - 1 implies s1.drop_first()[q]
        .preferred_pairs@.len() == s2.drop_first()[q].preferred_pairs@.len() by {
        assert(s1.drop_first()[q] == s1[q + 1]);
        assert(s2.drop_first()[q] == s2[q + 1]);
    }
    if i == 0 {
        lemma_total_pending_eq(s1.drop_first(), s2.drop_first());
    } else {
        assert(s1[0].preferred_pairs@.len() == s2[0].preferred_pairs@.len());
        lemma_total_pending_update(s1.drop_first(), s2.drop_first(), i - 1);
        assert(s1.drop_first()[i - 1] == s1[i]);
        assert(s2.drop_first()[i - 1] == s2[i]);
    }
}

/// The option names this team index.
pub open spec fn is_slot(o: Option<usize>, u: int) -> bool {
    match o {
        None => false,
        Some(x) => x as int == u,
    }
}

/// The team sequence after dissolving the (up to two) teams named by `ta`
/// and `tb`: those teams are emptied, the rest are untouched.
pub open spec fn teams_after_dissolve(ts0: Seq<Team>, ta: Option<usize>, tb: Option<usize>) -> Seq<
    Team,
> {
    Seq::new(
        ts0.len(),
        |u: int|
            if is_slot(ta, u) || is_slot(tb, u) {
                Team(None, None, None)
            } else {
                ts0[u]
            },
    )
}

/// Player `q` sits on the team currently pointed to by `owner`.
pub open spec fn on_team_of(ps: Seq<Player>, ts: Seq<Team>, owner: usize, q: int) -> bool {
    match ps[owner as int].team {
        None => false,
        Some(t) => ts[t as int].spec_has_member(q as usize),
    }
}

/// Player `q` loses its team when the teams of `a` and `b` are dissolved.
pub open spec fn dissolved_member(
    ps: Seq<Player>,
    ts: Seq<Team>,
    a: usize,
    b: usize,
    q: int,
) -> bool {
    on_team_of(ps, ts, a, q) || on_team_of(ps, ts, b, q)
}

/// The exact state change of an accepted proposal by `p` to the pair
/// `(a, b)`: the teams of `a` and of `b` are dissolved, then the new team
/// `(p, a, b)` takes the first slot with room, if any slot has room.
pub open spec fn accepted_outcome(
    ps0: Seq<Player>,
    ts0: Seq<Team>,
    p: usize,
    a: usize,
    b: usize,
    slot: Option<usize>,
    ps1: Seq<Player>,
    ts1: Seq<Team>,
) -> bool {
    let cleared = teams_after_dissolve(ts0, ps0[a as int].team, ps0[b as int].team);
    match slot {
        Some(t) => {
            &&& (t as int) < ts0.len()
            &&& cleared[t as int].spec_has_room()
            &&& forall|u: int| 0 <= u < t ==> !cleared[u].spec_has_room()
            &&& ts1[t as int] == Team(Some(p), Some(a), Some(b))
            &&& forall|u: int| 0 <= u < ts0.len() && u != t as int ==> ts1[u] == cleared[u]
            &&& ps1[p as int].team == Some(t)
            &&& ps1[a as int].team == Some(t)
            &&& ps1[b as int].team == Some(t)
            &&& forall|q: int|
                0 <= q < ps0.len() && q != p as int && q != a as int && q != b as int
                    ==> ps1[q].team == (if dissolved_member(ps0, ts0, a, b, q) {
                    None
                } else {
                    ps0[q].team
                })
        },
        None => {
            &&& forall|u: int| 0 <= u < ts0.len() ==> !cleared[u].spec_has_room()
            &&& ts1 == ts0
            &&& forall|q: int| 0 <= q < ps0.len() ==> ps1[q].team == ps0[q].team
        },
    }
}

/// Run one proposal attempt: the lowest-numbered free player with candidates
/// pops its best untried pair, both candidates are asked, and on mutual
/// acceptance the old teams are dissolved and the new team is formed.
/// Returns `None`, with nothing changed, exactly when no such player exists.
pub fn step(players: &mut Vec<Player>, teams: &mut Vec<Team>) -> (r: Option<Attempt>)
    requires
        wf_state(old(players)@, old(teams)@),
        queues_valid(old(players)@),
    ensures
        wf_state(final(players)@, final(teams)@),
        queues_valid(final(players)@),
        final(players)@.len() == old(players)@.len(),
        final(teams)@.len() == old(teams)@.len(),
        match r {
            None => final(players)@ == old(players)@ && final(teams)@ == old(teams)@
                && (forall|q: int|
                0 <= q < old(players)@.len() ==> !eligible(old(players)@, q)),
            Some(att) => {
                let p = att.proposer as int;
                &&& 0 <= p < old(players)@.len()
                &&& eligible(old(players)@, p)
                &&& forall|q: int| 0 <= q < p ==> !eligible(old(players)@, q)
                &&& att.pair == old(players)@[p].preferred_pairs@[0]
                &&& final(players)@[p].preferred_pairs@ == old(players)@[p]
                    .preferred_pairs@.drop_first()
                &&& forall|q: int|
                    0 <= q < old(players)@.len() && q != p ==> final(players)@[q]
                        .preferred_pairs@ == old(players)@[q].preferred_pairs@
                &&& forall|q: int|
                    0 <= q < old(players)@.len() ==> final(players)@[q].id == old(players)@[q].id
                        && final(players)@[q].preference_list@ == old(players)@[q]
                        .preference_list@
                &&& total_pending(final(players)@) + 1 == total_pending(old(players)@)
                &&& att.a_accepted == prefers_team_spec(
                    old(players)@[att.pair.0 as int],
                    (att.pair.1, att.proposer),
                    old(teams)@,
                )
                &&& att.b_accepted == prefers_team_spec(
                    old(players)@[att.pair.1 as int],
                    (att.pair.0, att.proposer),
                    old(teams)@,
                )
                &&& (att.a_accepted && att.b_accepted) ==> accepted_outcome(
                    old(players)@,
                    old(teams)@,
                    att.proposer,
                    att.pair.0,
                    att.pair.1,
                    att.formed_slot,
                    final(players)@,
                    final(teams)@,
                )
                &&& (att.a_accepted && att.b_accepted && old(players)@.len() <= 3 * old(
                    teams,
                )@.len()) ==> att.formed_slot is Some
                &&& !(att.a_accepted && att.b_accepted) ==> att.formed_slot is None
                    && final(teams)@ == old(teams)@ && (forall|q: int|
                    0 <= q < old(players)@.len()
                        ==> final(players)@[q].team == old(players)@[q].team)
            },
        },
{
    let ghost ps0 = old(players)@;
    let ghost ts0 = old(teams)@;
    let chosen = next(players);
    match chosen {
        None => None,
        Some(p) => {
            let pr = players[p].preferred_pairs.remove(0);
            let ghost psp = players@;
            proof {
                assert(psp[p as int].preferred_pairs@ =~= ps0[p as int]
                    .preferred_pairs@.drop_first());
                assert(pr == ps0[p as int].preferred_pairs@[0]);
                assert(pair_ok(ps0, p as int, pr));
                lemma_wf_same_links(ps0, psp, ts0);
                lemma_total_pending_update(ps0, psp, p as int);
            }
            let a = pr.0;
            let b = pr.1;
            proof {
                assert(psp[a as int] == ps0[a as int]);
                assert(psp[b as int] == ps0[b as int]);
                assert(player_linked(psp, ts0, a as int));
                assert(player_linked(psp, ts0, b as int));
            }
            let a_ok = players[a].prefers_team((b, p), teams);
            let b_ok = players[b].prefers_team((a, p), teams);
            if a_ok && b_ok {
                let ghost ta = ps0[a as int].team;
                let ghost tb = ps0[b as int].team;
                proof {
                    // the proposer points nowhere, so no slot holds it
                    assert forall|u: int| 0 <= u < ts0.len() implies !ts0[u].spec_has_member(
                        p,
                    ) by {
                        lemma_unassigned_not_member(psp, ts0, p, u);
                    }
                }
                dissolve_player_team(a, players, teams);
                let ghost ps_a = players@;
                let ghost ts_a = teams@;
                dissolve_player_team(b, players, teams);
                let ghost ps_b = players@;
                let ghost ts_b = teams@;
                let ghost cleared = teams_after_dissolve(ts0, ta, tb);
                proof {
                    if ta is Some {
                        assert(ts0[ta->0 as int].spec_has_member(a));
                    }
                    if tb is Some {
                        assert(ts0[tb->0 as int].spec_has_member(b));
                    }
                    // the b-side dissolve acted on b's team as it stood after
                    // the a-side dissolve
                    assert(ps_a[b as int].team == (if dissolved_member(psp, ts0, a, a, b as int) {
                        None
                    } else {
                        tb
                    }));
                    // teams after both dissolves match the two-team clearing
                    assert forall|u: int| 0 <= u < ts0.len() implies ts_b[u] == cleared[u] by {
                        if is_slot(ta, u) {
                            assert(ts_a[u].spec_is_empty());
                            if ps_a[b as int].team is Some {
                                if ps_a[b as int].team->0 as int == u {
                                    assert(ts_b[u].spec_is_empty());
                                } else {
                                    assert(ts_b[u] == ts_a[u]);
                                }
                            } else {
                                assert(ts_b[u] == ts_a[u]);
                            }
                            assert(ts_b[u].spec_is_empty());
                            assert(cleared[u].spec_is_empty());
                            assert(ts_b[u] == cleared[u]);
                        } else if is_slot(tb, u) {
                            if on_team_of(psp, ts0, a, b as int) {
                                // b sat on a's team, so b's slot is a's slot
                                assert(ts0[ta->0 as int].spec_has_member(b));
                                lemma_member_points_home(psp, ts0, ta->0 as int, b);
                                assert(is_slot(ta, u));
                            }
                            assert(ps_a[b as int].team == tb);
                            assert(ts_b[u].spec_is_empty());
                            assert(ts_b[u] == cleared[u]);
                        } else {
                            assert(ts_a[u] == ts0[u]);
                            assert(ts_b[u] == ts_a[u]);
                        }
                    }
                    assert(ts_b =~= cleared);
                    // player team pointers after both dissolves
                    assert forall|q: int| 0 <= q < ps0.len() implies ps_b[q].team == (
                    if dissolved_member(ps0, ts0, a, b, q) {
                        None
                    } else {
                        ps0[q].team
                    }) by {
                        assert(psp[q].team == ps0[q].team);
                        if on_team_of(ps0, ts0, a, q) {
                            assert(ts0[ta->0 as int].spec_has_member(q as usize));
                            assert(ps_a[q].team is None);
                            if ps_b[q].team is Some {
                                assert(ps_b[q] == ps_a[q]);
                            }
                        } else {
                            assert(ps_a[q].team == ps0[q].team);
                            if on_team_of(ps0, ts0, b, q) {
                                if on_team_of(psp, ts0, a, b as int) {
                                    // b sat on a's team, so b's team is a's
                                    // team, and q would sit on it too
                                    assert(ts0[ta->0 as int].spec_has_member(b));
                                    lemma_member_points_home(psp, ts0, ta->0 as int, b);
                                    assert(tb == ta);
                                    assert(on_team_of(ps0, ts0, a, q));
                                }
                                assert(ps_a[b as int].team == tb);
                                assert(ts_a[tb->0 as int] == ts0[tb->0 as int]);
                                assert(ps_b[q].team is None);
                            } else {
                                if ps_a[b as int].team is Some {
                                    assert(ps_a[b as int].team == tb);
                                    assert(!ts_a[tb->0 as int].spec_has_member(q as usize));
                                    assert(ps_b[q] == ps_a[q]);
                                } else {
                                    assert(ps_b[q] == ps_a[q]);
                                }
                            }
                        }
                    }
                    // fields other than the team pointer survive both dissolves
                    assert forall|q: int| 0 <= q < ps0.len() implies ps_b[q].id == psp[q].id
                        && ps_b[q].preference_list == psp[q].preference_list && ps_b[q]
                        .preferred_pairs == psp[q].preferred_pairs by {}
                    assert(ps_b[p as int].team is None);
                    assert(ps_b[a as int].team is None);
                    assert(ps_b[b as int].team is None);
                }
                let slot = create_team(p, a, b, players, teams);
                proof {
                    if ps0.len() <= 3 * ts0.len() && slot is None {
                        lemma_room_for_free_player(ps_b, ts_b, p as int);
                        assert(false);
                    }
                    assert(accepted_outcome(ps0, ts0, p, a, b, slot, players@, teams@));
                    assert forall|q: int| 0 <= q < ps0.len() implies players@[q].id == psp[q].id
                        && players@[q].preference_list == psp[q].preference_list && players@[q]
                        .preferred_pairs == psp[q].preferred_pairs by {}
                    lemma_total_pending_eq(psp, players@);
                    assert forall|q: int, k: int|
                        0 <= q < players@.len() && 0 <= k < players@[q].preferred_pairs@.len()
                            implies pair_ok(
                            players@,
                            q,
                            #[trigger] players@[q].preferred_pairs@[k],
                        ) by {
                        if q == p as int {
                            assert(players@[q].preferred_pairs@[k] == ps0[q]
                                .preferred_pairs@[k + 1]);
                        } else {
                            assert(players@[q].preferred_pairs@ == ps0[q].preferred_pairs@);
                        }
                    }
                }
                Some(
                    Attempt {
                        proposer: p,
                        pair: pr,
                        a_accepted: a_ok,
                        b_accepted: b_ok,
                        formed_slot: slot,
                    },
                )
            } else {
                proof {
                    assert forall|q: int, k: int|
                        0 <= q < players@.len() && 0 <= k < players@[q].preferred_pairs@.len()
                            implies pair_ok(
                            players@,
                            q,
                            #[trigger] players@[q].preferred_pairs@[k],
                        ) by {
                        if q == p as int {
                            assert(players@[q].preferred_pairs@[k] == ps0[q]
                                .preferred_pairs@[k + 1]);
                        } else {
                            assert(players@[q].preferred_pairs@ == ps0[q].preferred_pairs@);
                        }
                    }
                }
                Some(
                    Attempt {
                        proposer: p,
                        pair: pr,
                        a_accepted: a_ok,
                        b_accepted: b_ok,
                        formed_slot: None,
                    },
                )
            }
        },
    }
}

/// Run proposal attempts until no free player has candidates left, counting
/// the attempts. Each attempt consumes exactly one queued pair, so the count
/// never exceeds the initial pending total; queues only ever shrink from the
/// front; and at exit no player is both free and holding candidates.
pub fn run(players: &mut Vec<Player>, teams: &mut Vec<Team>) -> (total: usize)
    requires
        wf_state(old(players)@, old(teams)@),
        queues_valid(old(players)@),
        total_pending(old(players)@) <= usize::MAX,
    ensures
        wf_state(final(players)@, final(teams)@),
        queues_valid(final(players)@),
        final(players)@.len() == old(players)@.len(),
        final(teams)@.len() == old(teams)@.len(),
        total + total_pending(final(players)@) == total_pending(old(players)@),
        total <= total_pending(old(players)@),
        forall|q: int| 0 <= q < final(players)@.len() ==> !eligible(final(players)@, q),
        forall|q: int|
            0 <= q < old(players)@.len() ==> final(players)@[q].id == old(players)@[q].id
                && final(players)@[q].preference_list@ == old(players)@[q].preference_list@,
        forall|q: int| #![trigger final(players)@[q]]
            0 <= q < old(players)@.len() ==> exists|k: int|
                #![trigger old(players)@[q].preferred_pairs@.skip(k)]
                0 <= k <= old(players)@[q].preferred_pairs@.len() && final(players)@[q]
                    .preferred_pairs@ == old(players)@[q].preferred_pairs@.skip(k),
{
    let mut total: usize = 0;
    proof {
        assert forall|q: int| #![trigger players@[q]] 0 <= q < old(
            players,
        )@.len() implies exists|k: int|
            #![trigger old(players)@[q].preferred_pairs@.skip(k)]
            0 <= k <= old(players)@[q].preferred_pairs@.len() && players@[q].preferred_pairs@
                == old(players)@[q].preferred_pairs@.skip(k) by {
            assert(old(players)@[q].preferred_pairs@.skip(0) =~= old(players)@[q]
                .preferred_pairs@);
        }
    }
    loop
        invariant
            wf_state(players@, teams@),
            queues_valid(players@),
            players@.len() == old(players)@.len(),
            teams@.len() == old(teams)@.len(),
            total + total_pending(players@) == total_pending(old(players)@),
            total_pending(old(players)@) <= usize::MAX,
            forall|q: int|
                0 <= q < old(players)@.len() ==> players@[q].id == old(players)@[q].id
                    && players@[q].preference_list@ == old(players)@[q].preference_list@,
            forall|q: int| #![trigger players@[q]]
                0 <= q < old(players)@.len() ==> exists|k: int|
                    #![trigger old(players)@[q].preferred_pairs@.skip(k)]
                    0 <= k <= old(players)@[q].preferred_pairs@.len() && players@[q]
                        .preferred_pairs@ == old(players)@[q].preferred_pairs@.skip(k),
        ensures
            forall|q: int| 0 <= q < players@.len() ==> !eligible(players@, q),
        decreases total_pending(players@),
    {
        let ghost prev = players@;
        match step(players, teams) {
            None => {
                break ;
            },
            Some(att) => {
                proof {
                    assert forall|q: int| #![trigger players@[q]] 0 <= q < old(
                        players,
                    )@.len() implies exists|k: int|
                        #![trigger old(players)@[q].preferred_pairs@.skip(k)]
                        0 <= k <= old(players)@[q].preferred_pairs@.len() && players@[q]
                            .preferred_pairs@ == old(players)@[q].preferred_pairs@.skip(k) by {
                        let k0 = choose|k: int|
                            #![trigger old(players)@[q].preferred_pairs@.skip(k)]
                            0 <= k <= old(players)@[q].preferred_pairs@.len() && prev[q]
                                .preferred_pairs@ == old(players)@[q].preferred_pairs@.skip(k);
                        if q == att.proposer as int {
                            assert(players@[q].preferred_pairs@ == prev[q]
                                .preferred_pairs@.drop_first());
                            assert(old(players)@[q].preferred_pairs@.skip(k0).drop_first()
                                =~= old(players)@[q].preferred_pairs@.skip(k0 + 1));
                            assert(players@[q].preferred_pairs@ == old(players)@[q]
                                .preferred_pairs@.skip(k0 + 1));
                        } else {
                            assert(players@[q].preferred_pairs@ == prev[q].preferred_pairs@);
                        }
                    }
                }
                total = total + 1;
            },
        }
    }
    total
}

/// The initial population: `3 * team_count` freshly shuffled players and
/// `team_count` empty teams, satisfying the registry invariant with every
/// candidate queue well formed.
#[verifier::loop_isolation(false)]
pub fn initial_state(team_count: usize) -> (r: (Vec<Player>, Vec<Team>))
    requires
        team_count <= usize::MAX / 3,
    ensures
        r.0@.len() == 3 * team_count,
        r.1@.len() == team_count,
        wf_state(r.0@, r.1@),
        queues_valid(r.0@),
        forall|p: int|
            0 <= p < r.0@.len() ==> (#[trigger] r.0@[p]).team is None && is_perm_of_others(
                r.0@[p].preference_list@,
                p,
                3 * team_count as int,
            ) && r.0@[p].preferred_pairs@ == all_pairs(r.0@[p].preference_list@),
{
    let total = 3 * team_count;
    let mut players: Vec<Player> = Vec::new();
    let mut i: usize = 0;
    while i < total
        invariant
            players@.len() == i,
            i <= total,
            forall|p: int|
                0 <= p < i ==> (#[trigger] players@[p]).id == p && players@[p].team is None
                    && is_perm_of_others(players@[p].preference_list@, p, total as int)
                    && players@[p].preferred_pairs@ == all_pairs(players@[p].preference_list@),
        decreases total - i,
    {
        players.push(Player::create(i, total));
        i += 1;
    }
    let mut teams: Vec<Team> = Vec::new();
    let mut j: usize = 0;
    while j < team_count
        invariant
            teams@.len() == j,
            j <= team_count,
            forall|t: int| 0 <= t < j ==> (#[trigger] teams@[t]).spec_is_empty(),
        decreases team_count - j,
    {
        teams.push(Team::default());
        j += 1;
    }
    proof {
        assert forall|p: int, k: int|
            0 <= p < players@.len() && 0 <= k < players@[p].preferred_pairs@.len() implies pair_ok(
            players@,
            p,
            #[trigger] players@[p].preferred_pairs@[k],
        ) by {
            let prefs = players@[p].preference_list@;
            lemma_all_pairs_spec(prefs);
            assert(players@[p].preferred_pairs@[k] == all_pairs(prefs)[k]);
            assert(is_pair_of(prefs, players@[p].preferred_pairs@[k]));
            let (x, y) = choose|x: int, y: int|
                #![trigger prefs[x], prefs[y]]
                0 <= x < y < prefs.len() && players@[p].preferred_pairs@[k] == (
                prefs[x],
                prefs[y],
                );
            assert(prefs[x] != prefs[y]);
        }
    }
    (players, teams)
}

} // verus!
