use triad_match::driver::{initial_state, run, step};
use triad_match::player::Player;
use triad_match::registry::{create_team, dissolve_player_team, dissolve_team, next};
use triad_match::team::Team;

#[test]
fn three_players_form_one_team_in_one_attempt() {
    let mut players = vec![
        Player::create(0, 3),
        Player::create(1, 3),
        Player::create(2, 3),
    ];
    let mut teams = vec![Team::default()];
    let total = run(&mut players, &mut teams);
    assert_eq!(total, 1);
    for i in 0..3 {
        assert_eq!(players[i].team, Some(0));
        assert!(teams[0].on_the_team(i));
    }
    assert!(!teams[0].has_room());
}

#[test]
fn six_players_all_assigned() {
    // everyone ranks the others by ascending id; the run is deterministic
    let mut players: Vec<Player> = (0..6)
        .map(|i| Player::from_preferences(i, (0..6).filter(|&j| j != i).collect()))
        .collect();
    let mut teams = vec![Team::default(), Team::default()];
    let total = run(&mut players, &mut teams);
    assert_eq!(total, 18);
    assert!(total <= 60);
    for i in 0..6 {
        let t = players[i].team.expect("every player ends on a team");
        assert!(teams[t].on_the_team(i));
    }
    for t in 0..2 {
        assert!(!teams[t].has_room());
    }
    assert_eq!((teams[0].0, teams[0].1, teams[0].2), (Some(0), Some(1), Some(5)));
    assert_eq!((teams[1].0, teams[1].1, teams[1].2), (Some(2), Some(3), Some(4)));
}

#[test]
fn rejected_proposal_changes_nothing() {
    // Player 0 proposes (1, 2); 1 is unassigned and accepts, but 2 prefers
    // its current teammates (3, 4) to the pair (1, 0), so nothing changes.
    let mut players = vec![
        Player::from_preferences(0, vec![1, 2, 3, 4, 5]),
        Player::from_preferences(1, vec![0, 2, 3, 4, 5]),
        Player::from_preferences(2, vec![3, 4, 1, 0, 5]),
        Player::from_preferences(3, vec![2, 4, 0, 1, 5]),
        Player::from_preferences(4, vec![2, 3, 0, 1, 5]),
        Player::from_preferences(5, vec![0, 1, 2, 3, 4]),
    ];
    players[2].team = Some(0);
    players[3].team = Some(0);
    players[4].team = Some(0);
    let mut teams = vec![Team(Some(2), Some(3), Some(4)), Team::default()];
    let queue_before = players[0].preferred_pairs.clone();

    let att = step(&mut players, &mut teams).expect("an attempt happens");

    assert_eq!(att.proposer, 0);
    assert_eq!(att.pair, (1, 2));
    assert!(att.a_accepted);
    assert!(!att.b_accepted);
    assert_eq!(att.formed_slot, None);
    // the proposer's queue shrank by exactly one, from the front
    assert_eq!(players[0].preferred_pairs.len(), queue_before.len() - 1);
    assert_eq!(&players[0].preferred_pairs[..], &queue_before[1..]);
    // no team or assignment changed
    assert_eq!(players[0].team, None);
    assert_eq!(players[1].team, None);
    assert_eq!(players[2].team, Some(0));
    assert_eq!(players[3].team, Some(0));
    assert_eq!(players[4].team, Some(0));
    assert_eq!(players[5].team, None);
    assert_eq!(teams[0].0, Some(2));
    assert_eq!(teams[0].1, Some(3));
    assert_eq!(teams[0].2, Some(4));
    assert_eq!(teams[1].0, None);
    assert_eq!(teams[1].1, None);
    assert_eq!(teams[1].2, None);
}

#[test]
fn mutual_acceptance_dissolves_both_teams() {
    // Player 0 proposes (1, 2); both prefer that pair to their current
    // teams, so both teams dissolve and the new team takes the first slot.
    let mut players = vec![
        Player::from_preferences(0, vec![1, 2, 3, 4, 5, 6, 7, 8]),
        Player::from_preferences(1, vec![2, 0, 3, 4, 5, 6, 7, 8]),
        Player::from_preferences(2, vec![1, 0, 3, 4, 5, 6, 7, 8]),
        Player::from_preferences(3, vec![0, 1, 2, 4, 5, 6, 7, 8]),
        Player::from_preferences(4, vec![0, 1, 2, 3, 5, 6, 7, 8]),
        Player::from_preferences(5, vec![0, 1, 2, 3, 4, 6, 7, 8]),
        Player::from_preferences(6, vec![0, 1, 2, 3, 4, 5, 7, 8]),
        Player::from_preferences(7, vec![0, 1, 2, 3, 4, 5, 6, 8]),
        Player::from_preferences(8, vec![0, 1, 2, 3, 4, 5, 6, 7]),
    ];
    players[1].team = Some(0);
    players[3].team = Some(0);
    players[4].team = Some(0);
    players[2].team = Some(1);
    players[5].team = Some(1);
    players[6].team = Some(1);
    let mut teams = vec![
        Team(Some(1), Some(3), Some(4)),
        Team(Some(2), Some(5), Some(6)),
        Team::default(),
    ];

    let att = step(&mut players, &mut teams).expect("an attempt happens");

    assert_eq!(att.proposer, 0);
    assert_eq!(att.pair, (1, 2));
    assert!(att.a_accepted);
    assert!(att.b_accepted);
    // the new team takes the first slot, which the dissolutions freed
    assert_eq!(att.formed_slot, Some(0));
    assert_eq!((teams[0].0, teams[0].1, teams[0].2), (Some(0), Some(1), Some(2)));
    assert_eq!(players[0].team, Some(0));
    assert_eq!(players[1].team, Some(0));
    assert_eq!(players[2].team, Some(0));
    // both old teams are gone and their members freed
    assert_eq!((teams[1].0, teams[1].1, teams[1].2), (None, None, None));
    assert_eq!((teams[2].0, teams[2].1, teams[2].2), (None, None, None));
    for i in [3, 4, 5, 6] {
        assert_eq!(players[i].team, None);
    }
}

#[test]
fn candidate_queue_order_for_three_others() {
    let p = Player::from_preferences(0, vec![1, 2, 3]);
    assert_eq!(p.preferred_pairs, vec![(1, 2), (1, 3), (2, 3)]);
}

#[test]
fn candidate_queue_count_and_membership() {
    let p = Player::create(0, 6);
    // C(5, 2) pairs, each of two distinct listed players, no pair twice
    assert_eq!(p.preferred_pairs.len(), 10);
    for (i, pair) in p.preferred_pairs.iter().enumerate() {
        assert!(p.preference_list.contains(&pair.0));
        assert!(p.preference_list.contains(&pair.1));
        assert_ne!(pair.0, pair.1);
        for other in &p.preferred_pairs[i + 1..] {
            assert_ne!(pair, other);
        }
    }
}

#[test]
fn preference_list_is_permutation_of_others() {
    let p = Player::create(2, 6);
    assert_eq!(p.id, 2);
    assert_eq!(p.team, None);
    let mut sorted = p.preference_list.clone();
    sorted.sort();
    assert_eq!(sorted, vec![0, 1, 3, 4, 5]);
}

#[test]
fn prefers_present_beats_absent() {
    let p = Player::from_preferences(0, vec![2, 1, 3]);
    assert_eq!(p.prefers(Some(3), None), Some(true));
    assert_eq!(p.prefers(None, Some(3)), Some(false));
    assert_eq!(p.prefers(None, None), None);
}

#[test]
fn prefers_earlier_entry_wins() {
    let p = Player::from_preferences(0, vec![2, 1, 3]);
    assert_eq!(p.prefers(Some(2), Some(1)), Some(true));
    assert_eq!(p.prefers(Some(1), Some(2)), Some(false));
    assert_eq!(p.prefers(Some(3), Some(2)), Some(false));
}

#[test]
fn prefers_unranked_is_unknown() {
    let p = Player::from_preferences(0, vec![2, 1, 3]);
    assert_eq!(p.prefers(Some(7), Some(9)), None);
    assert_eq!(p.prefers(Some(7), Some(1)), Some(false));
    assert_eq!(p.prefers(Some(1), Some(7)), Some(true));
}

#[test]
fn preference_order_sorts_team() {
    let p = Player::from_preferences(0, vec![3, 1, 2]);
    let team = Team(Some(1), Some(2), Some(3));
    assert_eq!(p.preference_order(&team), (Some(3), Some(1), Some(2)));
}

#[test]
fn not_me_drops_self() {
    let p = Player::from_preferences(0, vec![1, 2, 3]);
    let team = Team(Some(0), Some(1), Some(2));
    assert_eq!(p.not_me(&team), (Some(1), Some(2)));
}

#[test]
fn prefers_team_unassigned_always_accepts() {
    let p = Player::from_preferences(0, vec![1, 2, 3]);
    let teams = vec![Team::default()];
    assert!(p.prefers_team((1, 2), &teams));
    assert!(p.prefers_team((3, 1), &teams));
    assert!(p.prefers_team((9, 7), &teams));
}

#[test]
fn prefers_team_accepts_when_team_not_full() {
    let mut p = Player::from_preferences(0, vec![1, 2, 3]);
    p.team = Some(0);
    let teams = vec![Team(Some(0), None, None)];
    assert!(p.prefers_team((3, 2), &teams));
}

#[test]
fn prefers_team_rejects_worse_pair() {
    let mut p = Player::from_preferences(2, vec![3, 4, 1, 0, 5]);
    p.team = Some(0);
    let teams = vec![Team(Some(2), Some(3), Some(4))];
    // current teammates (3, 4) are p's top pair; (1, 0) ranks below them
    assert!(!p.prefers_team((1, 0), &teams));
}

#[test]
fn prefers_team_accepts_better_pair() {
    let mut p = Player::from_preferences(2, vec![3, 4, 1, 0, 5]);
    p.team = Some(0);
    let teams = vec![Team(Some(2), Some(1), Some(0))];
    // current teammates (1, 0); the pair (3, 0) ranks above them
    assert!(p.prefers_team((3, 0), &teams));
    assert!(p.prefers_team((0, 3), &teams));
}

#[test]
fn team_has_room_and_membership() {
    let empty = Team::default();
    assert!(empty.has_room());
    assert!(!empty.on_the_team(0));
    let partial = Team(Some(4), None, Some(6));
    assert!(partial.has_room());
    assert!(partial.on_the_team(4));
    assert!(partial.on_the_team(6));
    assert!(!partial.on_the_team(5));
    let full = Team(Some(1), Some(2), Some(3));
    assert!(!full.has_room());
    assert!(full.on_the_team(2));
}

#[test]
fn next_skips_teamed_and_exhausted() {
    let mut players = vec![
        Player::from_preferences(0, vec![1, 2]),
        Player::from_preferences(1, vec![]),
        Player::from_preferences(2, vec![0, 1]),
    ];
    players[0].team = Some(0);
    assert_eq!(next(&players), Some(2));
    players[2].team = Some(0);
    assert_eq!(next(&players), None);
}

#[test]
fn dissolve_team_clears_both_sides() {
    let mut players: Vec<Player> = (0..6)
        .map(|i| Player::from_preferences(i, vec![(i + 1) % 6, (i + 2) % 6]))
        .collect();
    players[2].team = Some(0);
    players[3].team = Some(0);
    players[4].team = Some(0);
    players[5].team = Some(1);
    players[0].team = Some(1);
    players[1].team = Some(1);
    let mut teams = vec![Team(Some(2), Some(3), Some(4)), Team(Some(5), Some(0), Some(1))];
    dissolve_team(0, &mut players, &mut teams);
    assert_eq!(teams[0].0, None);
    assert_eq!(teams[0].1, None);
    assert_eq!(teams[0].2, None);
    assert_eq!(players[2].team, None);
    assert_eq!(players[3].team, None);
    assert_eq!(players[4].team, None);
    // the other team is untouched
    assert_eq!(teams[1].0, Some(5));
    assert_eq!(players[5].team, Some(1));
    assert_eq!(players[0].team, Some(1));
    assert_eq!(players[1].team, Some(1));
}

#[test]
fn dissolve_team_empty_is_noop() {
    let mut players = vec![Player::from_preferences(0, vec![])];
    let mut teams = vec![Team::default()];
    dissolve_team(0, &mut players, &mut teams);
    assert_eq!(players[0].team, None);
    assert_eq!(teams[0].0, None);
}

#[test]
fn dissolve_player_team_unassigned_is_noop() {
    let mut players = vec![
        Player::from_preferences(0, vec![1]),
        Player::from_preferences(1, vec![0]),
    ];
    let mut teams = vec![Team::default()];
    dissolve_player_team(0, &mut players, &mut teams);
    assert_eq!(players[0].team, None);
    assert_eq!(players[1].team, None);
    assert_eq!(teams[0].0, None);
}

#[test]
fn create_team_uses_first_open_slot() {
    let mut players: Vec<Player> = (0..6)
        .map(|i| Player::from_preferences(i, vec![(i + 1) % 6, (i + 2) % 6]))
        .collect();
    players[3].team = Some(0);
    players[4].team = Some(0);
    players[5].team = Some(0);
    let mut teams = vec![Team(Some(3), Some(4), Some(5)), Team::default()];
    let slot = create_team(0, 1, 2, &mut players, &mut teams);
    assert_eq!(slot, Some(1));
    assert_eq!(teams[1].0, Some(0));
    assert_eq!(teams[1].1, Some(1));
    assert_eq!(teams[1].2, Some(2));
    assert_eq!(players[0].team, Some(1));
    assert_eq!(players[1].team, Some(1));
    assert_eq!(players[2].team, Some(1));
    // the full team is untouched
    assert_eq!(teams[0].0, Some(3));
    assert_eq!(players[3].team, Some(0));
}

#[test]
fn step_none_when_everyone_settled() {
    let mut players = vec![
        Player::from_preferences(0, vec![]),
        Player::from_preferences(1, vec![]),
        Player::from_preferences(2, vec![]),
    ];
    let mut teams = vec![Team::default()];
    assert!(step(&mut players, &mut teams).is_none());
    assert_eq!(players[0].team, None);
    assert_eq!(teams[0].0, None);
}

#[test]
fn queue_lengths_shrink_by_one_each_attempt() {
    let (mut players, mut teams) = initial_state(2);
    let mut lens: Vec<usize> = players.iter().map(|p| p.preferred_pairs.len()).collect();
    let mut attempts: usize = 0;
    while let Some(att) = step(&mut players, &mut teams) {
        attempts += 1;
        let new_lens: Vec<usize> = players.iter().map(|p| p.preferred_pairs.len()).collect();
        for i in 0..lens.len() {
            if i == att.proposer {
                assert_eq!(new_lens[i], lens[i] - 1);
            } else {
                assert_eq!(new_lens[i], lens[i]);
            }
        }
        lens = new_lens;
        assert!(attempts <= 60);
    }
    // at the fixed point, nobody is both free and holding candidates
    for p in &players {
        assert!(p.team.is_some() || p.preferred_pairs.is_empty());
    }
}

#[test]
fn full_population_run_stays_in_bound() {
    let (mut players, mut teams) = initial_state(10);
    assert_eq!(players.len(), 30);
    assert_eq!(teams.len(), 10);
    let total = run(&mut players, &mut teams);
    // at most every pair every player can ever propose
    assert!(total <= 30 * 406);
    for i in 0..players.len() {
        if let Some(t) = players[i].team {
            assert!(teams[t].on_the_team(i));
        } else {
            assert!(players[i].preferred_pairs.is_empty());
        }
    }
    // mutual consistency of the final state
    for (t, team) in teams.iter().enumerate() {
        for member in [team.0, team.1, team.2] {
            if let Some(m) = member {
                assert_eq!(players[m].team, Some(t));
            }
        }
    }
}
