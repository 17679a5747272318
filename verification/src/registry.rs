//! The team registry: the mutual-reference invariant between players and
//! teams, and the operations that form and dissolve teams.

use vstd::prelude::*;
use crate::player::Player;
use crate::team::Team;

verus! {

/// Every player's id is its index in the registry.
pub open spec fn ids_canonical(players: Seq<Player>) -> bool {
    forall|p: int| 0 <= p < players.len() ==> players[p].id == p
}

/// The player's team pointer is set and names team `t`.
pub open spec fn points_to(pl: Player, t: int) -> bool {
    match pl.team {
        None => false,
        Some(x) => x as int == t,
    }
}

/// A player's team pointer, if set, names a real team that contains it.
pub open spec fn player_linked(players: Seq<Player>, teams: Seq<Team>, p: int) -> bool {
    match players[p].team {
        None => true,
        Some(t) => (t as int) < teams.len() && teams[t as int].spec_has_member(players[p].id),
    }
}

/// An occupied slot names a real player whose team pointer is this team.
pub open spec fn slot_linked(players: Seq<Player>, slot: Option<usize>, t: int) -> bool {
    match slot {
        None => true,
        Some(q) => (q as int) < players.len() && points_to(players[q as int], t),
    }
}

/// A team's occupied slots name pairwise distinct players pointing back at it.
pub open spec fn team_linked(players: Seq<Player>, teams: Seq<Team>, t: int) -> bool {
    &&& slot_linked(players, teams[t].0, t)
    &&& slot_linked(players, teams[t].1, t)
    &&& slot_linked(players, teams[t].2, t)
    &&& (teams[t].0 is Some && teams[t].1 is Some ==> teams[t].0 != teams[t].1)
    &&& (teams[t].0 is Some && teams[t].2 is Some ==> teams[t].0 != teams[t].2)
    &&& (teams[t].1 is Some && teams[t].2 is Some ==> teams[t].1 != teams[t].2)
}

/// The registry invariant: ids are canonical, every cross reference is
/// mutual, and every team is either full or empty — no partial team is ever
/// observable between operations.
pub open spec fn wf_state(players: Seq<Player>, teams: Seq<Team>) -> bool {
    &&& ids_canonical(players)
    &&& forall|p: int| 0 <= p < players.len() ==> player_linked(players, teams, p)
    &&& forall|t: int| 0 <= t < teams.len() ==> team_linked(players, teams, t)
    &&& forall|t: int|
        0 <= t < teams.len() ==> (teams[t].spec_is_full() || teams[t].spec_is_empty())
}

/// The player kept everything but its team pointer, which is now `t`.
pub open spec fn retargeted(before: Player, after: Player, t: Option<usize>) -> bool {
    &&& after.id == before.id
    &&& after.team == t
    &&& after.preference_list == before.preference_list
    &&& after.preferred_pairs == before.preferred_pairs
}

/// The effect of dissolving team `t`: its slots are cleared, its members'
/// team pointers are cleared, and nothing else changes.
pub open spec fn dissolved(
    players0: Seq<Player>,
    teams0: Seq<Team>,
    t: usize,
    players1: Seq<Player>,
    teams1: Seq<Team>,
) -> bool {
    &&& players1.len() == players0.len()
    &&& teams1.len() == teams0.len()
    &&& teams1[t as int].spec_is_empty()
    &&& forall|u: int| 0 <= u < teams0.len() && u != t as int ==> teams1[u] == teams0[u]
    &&& forall|p: int|
        0 <= p < players0.len() ==> (if teams0[t as int].spec_has_member(p as usize) {
            retargeted(players0[p], players1[p], None)
        } else {
            players1[p] == players0[p]
        })
}

/// The effect of forming team `t` from three players: the team's slots and
/// the three team pointers are set together, and nothing else changes.
pub open spec fn formed(
    players0: Seq<Player>,
    teams0: Seq<Team>,
    p0: usize,
    p1: usize,
    p2: usize,
    t: usize,
    players1: Seq<Player>,
    teams1: Seq<Team>,
) -> bool {
    &&& players1.len() == players0.len()
    &&& teams1.len() == teams0.len()
    &&& teams1[t as int] == Team(Some(p0), Some(p1), Some(p2))
    &&& forall|u: int| 0 <= u < teams0.len() && u != t as int ==> teams1[u] == teams0[u]
    &&& retargeted(players0[p0 as int], players1[p0 as int], Some(t))
    &&& retargeted(players0[p1 as int], players1[p1 as int], Some(t))
    &&& retargeted(players0[p2 as int], players1[p2 as int], Some(t))
    &&& forall|q: int|
        0 <= q < players0.len() && q != p0 as int && q != p1 as int && q != p2 as int
            ==> players1[q] == players0[q]
}

/// A member of team `t` has its team pointer set to `t`.
pub proof fn lemma_member_points_home(ps: Seq<Player>, ts: Seq<Team>, t: int, q: usize)
    requires
        wf_state(ps, ts),
        0 <= t < ts.len(),
        ts[t].spec_has_member(q),
    ensures
        (q as int) < ps.len(),
        points_to(ps[q as int], t),
{
    assert(team_linked(ps, ts, t));
}

/// Dissolving a team under the registry invariant preserves it.
pub proof fn lemma_dissolve_preserves_wf(
    ps0: Seq<Player>,
    ts0: Seq<Team>,
    t: usize,
    ps1: Seq<Player>,
    ts1: Seq<Team>,
)
    requires
        wf_state(ps0, ts0),
        (t as int) < ts0.len(),
        dissolved(ps0, ts0, t, ps1, ts1),
    ensures
        wf_state(ps1, ts1),
{
    assert forall|p: int| 0 <= p < ps1.len() implies player_linked(ps1, ts1, p) by {
        assert(player_linked(ps0, ts0, p));
        if ts0[t as int].spec_has_member(p as usize) {
            assert(retargeted(ps0[p], ps1[p], None));
        } else {
            assert(ps1[p] == ps0[p]);
            match ps0[p].team {
                Some(u) => {
                    if (u as int) == t as int {
                        assert(ps0[p].id == p);
                        assert(false);
                    }
                    assert(ts1[u as int] == ts0[u as int]);
                },
                None => {},
            }
        }
    }
    assert forall|u: int| 0 <= u < ts1.len() implies team_linked(ps1, ts1, u) by {
        assert(team_linked(ps0, ts0, u));
        if u != t as int {
            assert(ts1[u] == ts0[u]);
            if let Some(q) = ts0[u].0 {
                if ts0[t as int].spec_has_member(q) {
                    lemma_member_points_home(ps0, ts0, t as int, q);
                    assert(false);
                }
                assert(ps1[q as int] == ps0[q as int]);
            }
            if let Some(q) = ts0[u].1 {
                if ts0[t as int].spec_has_member(q) {
                    lemma_member_points_home(ps0, ts0, t as int, q);
                    assert(false);
                }
                assert(ps1[q as int] == ps0[q as int]);
            }
            if let Some(q) = ts0[u].2 {
                if ts0[t as int].spec_has_member(q) {
                    lemma_member_points_home(ps0, ts0, t as int, q);
                    assert(false);
                }
                assert(ps1[q as int] == ps0[q as int]);
            }
        }
    }
}

/// Forming a team from three unassigned players in an empty slot preserves
/// the registry invariant.
pub proof fn lemma_form_preserves_wf(
    ps0: Seq<Player>,
    ts0: Seq<Team>,
    p0: usize,
    p1: usize,
    p2: usize,
    t: usize,
    ps1: Seq<Player>,
    ts1: Seq<Team>,
)
    requires
        wf_state(ps0, ts0),
        (t as int) < ts0.len(),
        ts0[t as int].spec_is_empty(),
        (p0 as int) < ps0.len(),
        (p1 as int) < ps0.len(),
        (p2 as int) < ps0.len(),
        p0 != p1,
        p0 != p2,
        p1 != p2,
        ps0[p0 as int].team is None,
        ps0[p1 as int].team is None,
        ps0[p2 as int].team is None,
        formed(ps0, ts0, p0, p1, p2, t, ps1, ts1),
    ensures
        wf_state(ps1, ts1),
{
    assert forall|p: int| 0 <= p < ps1.len() implies player_linked(ps1, ts1, p) by {
        assert(player_linked(ps0, ts0, p));
        if p == p0 as int || p == p1 as int || p == p2 as int {
            assert(ps1[p].team == Some(t));
            assert(ps1[p].id == p);
            assert(ts1[t as int].spec_has_member(ps1[p].id));
        } else {
            assert(ps1[p] == ps0[p]);
            match ps0[p].team {
                Some(u) => {
                    if (u as int) == t as int {
                        assert(ts0[t as int].spec_has_member(ps0[p].id));
                        assert(false);
                    }
                    assert(ts1[u as int] == ts0[u as int]);
                },
                None => {},
            }
        }
    }
    assert forall|u: int| 0 <= u < ts1.len() implies team_linked(ps1, ts1, u) by {
        assert(team_linked(ps0, ts0, u));
        if u == t as int {
            assert(ts1[u].0 == Some(p0));
            assert(points_to(ps1[p0 as int], u));
            assert(points_to(ps1[p1 as int], u));
            assert(points_to(ps1[p2 as int], u));
        } else {
            assert(ts1[u] == ts0[u]);
            if let Some(q) = ts0[u].0 {
                assert(points_to(ps0[q as int], u));
                assert(ps1[q as int] == ps0[q as int]);
            }
            if let Some(q) = ts0[u].1 {
                assert(points_to(ps0[q as int], u));
                assert(ps1[q as int] == ps0[q as int]);
            }
            if let Some(q) = ts0[u].2 {
                assert(points_to(ps0[q as int], u));
                assert(ps1[q as int] == ps0[q as int]);
            }
        }
    }
}

/// The registry invariant only reads ids and team pointers, so it transfers
/// to any player sequence that agrees on those fields.
pub proof fn lemma_wf_same_links(ps1: Seq<Player>, ps2: Seq<Player>, ts: Seq<Team>)
    requires
        wf_state(ps1, ts),
        ps2.len() == ps1.len(),
        forall|q: int|
            0 <= q < ps1.len() ==> ps2[q].team == ps1[q].team && ps2[q].id == ps1[q].id,
    ensures
        wf_state(ps2, ts),
{
    assert forall|p: int| 0 <= p < ps2.len() implies player_linked(ps2, ts, p) by {
        assert(player_linked(ps1, ts, p));
    }
    assert forall|t: int| 0 <= t < ts.len() implies team_linked(ps2, ts, t) by {
        assert(team_linked(ps1, ts, t));
        if let Some(q) = ts[t].0 {
            assert(points_to(ps1[q as int], t));
        }
        if let Some(q) = ts[t].1 {
            assert(points_to(ps1[q as int], t));
        }
        if let Some(q) = ts[t].2 {
            assert(points_to(ps1[q as int], t));
        }
    }
}

/// A player with no team pointer occupies no slot.
pub proof fn lemma_unassigned_not_member(ps: Seq<Player>, ts: Seq<Team>, q: usize, u: int)
    requires
        wf_state(ps, ts),
        (q as int) < ps.len(),
        ps[q as int].team is None,
        0 <= u < ts.len(),
    ensures
        !ts[u].spec_has_member(q),
{
    if ts[u].spec_has_member(q) {
        lemma_member_points_home(ps, ts, u, q);
    }
}

/// The players assigned to a team with index below `t`.
pub open spec fn members_below(players: Seq<Player>, t: int) -> Set<int> {
    Set::new(
        |q: int|
            0 <= q < players.len() && (match players[q].team {
                None => false,
                Some(x) => (x as int) < t,
            }),
    )
}

/// With every team full, the teams with index below `t` seat exactly
/// `3 * t` players.
pub proof fn lemma_members_below_card(ps: Seq<Player>, ts: Seq<Team>, t: int)
    requires
        wf_state(ps, ts),
        0 <= t <= ts.len(),
        forall|u: int| 0 <= u < ts.len() ==> (#[trigger] ts[u]).spec_is_full(),
    ensures
        members_below(ps, t).finite(),
        members_below(ps, t).len() == 3 * t,
    decreases t,
{
    if t == 0 {
        broadcast use vstd::set::axiom_set_empty_len;

        assert(members_below(ps, 0) =~= Set::empty());
    } else {
        lemma_members_below_card(ps, ts, t - 1);
        assert(team_linked(ps, ts, t - 1));
        assert(ts[t - 1].spec_is_full());
        let m0 = ts[t - 1].0->0 as int;
        let m1 = ts[t - 1].1->0 as int;
        let m2 = ts[t - 1].2->0 as int;
        assert(points_to(ps[m0], t - 1));
        assert(points_to(ps[m1], t - 1));
        assert(points_to(ps[m2], t - 1));
        let prev = members_below(ps, t - 1);
        let grown = prev.insert(m0).insert(m1).insert(m2);
        assert forall|q: int| members_below(ps, t).contains(q) implies grown.contains(q) by {
            if !prev.contains(q) {
                assert(points_to(ps[q], t - 1));
                assert(player_linked(ps, ts, q));
                assert(ts[t - 1].spec_has_member(ps[q].id));
                assert(ps[q].id == q);
            }
        }
        assert forall|q: int| grown.contains(q) implies members_below(ps, t).contains(q) by {}
        assert(members_below(ps, t) =~= grown);
        vstd::set::axiom_set_insert_len(prev, m0);
        vstd::set::axiom_set_insert_finite(prev, m0);
        vstd::set::axiom_set_insert_len(prev.insert(m0), m1);
        vstd::set::axiom_set_insert_finite(prev.insert(m0), m1);
        vstd::set::axiom_set_insert_len(prev.insert(m0).insert(m1), m2);
        vstd::set::axiom_set_insert_finite(prev.insert(m0).insert(m1), m2);
    }
}

/// Whenever some player is free and the team slots could seat the whole
/// population, some team has room: all teams full would seat 3 players per
/// team, pairwise distinct across teams, leaving nobody free.
pub proof fn lemma_room_for_free_player(ps: Seq<Player>, ts: Seq<Team>, p: int)
    requires
        wf_state(ps, ts),
        ps.len() <= 3 * ts.len(),
        0 <= p < ps.len(),
        ps[p].team is None,
    ensures
        exists|t: int| 0 <= t < ts.len() && (#[trigger] ts[t]).spec_has_room(),
{
    if forall|u: int| 0 <= u < ts.len() ==> !(#[trigger] ts[u]).spec_has_room() {
        assert forall|u: int| 0 <= u < ts.len() implies (#[trigger] ts[u]).spec_is_full() by {
            assert(!ts[u].spec_has_room());
        }
        let nt = ts.len() as int;
        let np = ps.len() as int;
        lemma_members_below_card(ps, ts, nt);
        let assigned = members_below(ps, nt);
        let everyone = vstd::set_lib::set_int_range(0, np);
        vstd::set_lib::lemma_int_range(0, np);
        let others = everyone.remove(p);
        vstd::set::axiom_set_remove_len(everyone, p);
        vstd::set::axiom_set_remove_finite(everyone, p);
        assert(everyone.contains(p));
        assert forall|q: int| assigned.contains(q) implies others.contains(q) by {
            assert(q != p);
        }
        vstd::set_lib::lemma_len_subset(assigned, others);
        assert(3 * nt <= np - 1);
        assert(false);
    }
}

/// A player is free and still has candidate pairs to propose.
pub open spec fn eligible(players: Seq<Player>, p: int) -> bool {
    players[p].team is None && players[p].preferred_pairs@.len() > 0
}

/// The lowest-numbered player that is free and still has candidates, if any.
pub fn next(on_players: &Vec<Player>) -> (r: Option<usize>)
    ensures
        match r {
            Some(p) => (p as int) < on_players@.len() && eligible(on_players@, p as int)
                && forall|q: int| 0 <= q < p ==> !eligible(on_players@, q),
            None => forall|q: int| 0 <= q < on_players@.len() ==> !eligible(on_players@, q),
        },
{
    let mut i: usize = 0;
    while i < on_players.len()
        invariant
            i <= on_players@.len(),
            forall|q: int| 0 <= q < i ==> !eligible(on_players@, q),
        decreases on_players@.len() - i,
    {
        if on_players[i].team.is_none() && on_players[i].preferred_pairs.len() > 0 {
            return Some(i);
        }
        i += 1;
    }
    None
}

/// Clear every occupied slot of the team and the team pointer of each of its
/// members, as one logical step. Idempotent on an empty team.
pub fn dissolve_team(team: usize, players: &mut Vec<Player>, teams: &mut Vec<Team>)
    requires
        wf_state(old(players)@, old(teams)@),
        (team as int) < old(teams)@.len(),
    ensures
        dissolved(old(players)@, old(teams)@, team, final(players)@, final(teams)@),
        wf_state(final(players)@, final(teams)@),
{
    proof {
        assert(team_linked(old(players)@, old(teams)@, team as int));
    }
    let t = teams[team];
    if let Some(p0) = t.0 {
        players[p0].team = None;
        teams[team].0 = None;
    }
    if let Some(p1) = t.1 {
        players[p1].team = None;
        teams[team].1 = None;
    }
    if let Some(p2) = t.2 {
        players[p2].team = None;
        teams[team].2 = None;
    }
    proof {
        assert(dissolved(old(players)@, old(teams)@, team, players@, teams@));
        lemma_dissolve_preserves_wf(old(players)@, old(teams)@, team, players@, teams@);
    }
}

/// Dissolve the team the player is on, if any.
pub fn dissolve_player_team(player: usize, players: &mut Vec<Player>, teams: &mut Vec<Team>)
    requires
        wf_state(old(players)@, old(teams)@),
        (player as int) < old(players)@.len(),
    ensures
        wf_state(final(players)@, final(teams)@),
        match old(players)@[player as int].team {
            None => final(players)@ == old(players)@ && final(teams)@ == old(teams)@,
            Some(t) => dissolved(old(players)@, old(teams)@, t, final(players)@, final(teams)@),
        },
        final(players)@[player as int].team is None,
{
    proof {
        assert(player_linked(old(players)@, old(teams)@, player as int));
    }
    match players[player].team {
        None => {},
        Some(team) => {
            dissolve_team(team, players, teams);
            proof {
                assert(old(players)@[player as int].id == player as int);
                assert(old(teams)@[team as int].spec_has_member(player));
                assert(retargeted(old(players)@[player as int], players@[player as int], None));
            }
        },
    }
}

/// Form a new team from three currently unassigned players, in the first
/// team slot with room; the slot is dissolved first as a defensive measure,
/// which the invariant makes a no-op. Returns the slot used, or `None` when
/// every slot is full.
#[verifier::loop_isolation(false)]
pub fn create_team(
    p0: usize,
    p1: usize,
    p2: usize,
    players: &mut Vec<Player>,
    teams: &mut Vec<Team>,
) -> (r: Option<usize>)
    requires
        wf_state(old(players)@, old(teams)@),
        (p0 as int) < old(players)@.len(),
        (p1 as int) < old(players)@.len(),
        (p2 as int) < old(players)@.len(),
        p0 != p1,
        p0 != p2,
        p1 != p2,
        old(players)@[p0 as int].team is None,
        old(players)@[p1 as int].team is None,
        old(players)@[p2 as int].team is None,
    ensures
        wf_state(final(players)@, final(teams)@),
        match r {
            Some(t) => (t as int) < old(teams)@.len() && old(teams)@[t as int].spec_has_room()
                && (forall|u: int| 0 <= u < t ==> !old(teams)@[u].spec_has_room()) && formed(
                old(players)@,
                old(teams)@,
                p0,
                p1,
                p2,
                t,
                final(players)@,
                final(teams)@,
            ),
            None => (forall|u: int|
                0 <= u < old(teams)@.len() ==> !old(teams)@[u].spec_has_room())
                && final(players)@ == old(players)@ && final(teams)@ == old(teams)@,
        },
{
    let n = teams.len();
    let mut i: usize = 0;
    while i < n
        invariant
            i <= n,
            players@ == old(players)@,
            teams@ == old(teams)@,
            forall|u: int| 0 <= u < i ==> !old(teams)@[u].spec_has_room(),
        decreases n - i,
    {
        if teams[i].has_room() {
            proof {
                assert(teams@[i as int].spec_is_full() || teams@[i as int].spec_is_empty());
                assert(teams@[i as int].spec_is_empty());
            }
            let ghost ps_before = players@;
            let ghost ts_before = teams@;
            dissolve_team(i, players, teams);
            proof {
                assert forall|p: int| 0 <= p < players@.len() implies players@[p]
                    == ps_before[p] by {
                    assert(!ts_before[i as int].spec_has_member(p as usize));
                }
                assert(players@ =~= ps_before);
                assert forall|u: int| 0 <= u < teams@.len() implies teams@[u] == ts_before[u] by {
                    if u == i as int {
                        assert(teams@[u].spec_is_empty());
                        assert(ts_before[u].spec_is_empty());
                    }
                }
                assert(teams@ =~= ts_before);
            }
            teams[i] = Team(Some(p0), Some(p1), Some(p2));
            players[p0].team = Some(i);
            players[p1].team = Some(i);
            players[p2].team = Some(i);
            proof {
                assert(formed(old(players)@, old(teams)@, p0, p1, p2, i, players@, teams@));
                lemma_form_preserves_wf(
                    old(players)@,
                    old(teams)@,
                    p0,
                    p1,
                    p2,
                    i,
                    players@,
                    teams@,
                );
            }
            return Some(i);
        }
        i += 1;
    }
    None
}

} // verus!
