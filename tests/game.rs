use liars_dice::{
    CallError, Dice, DiceCall, LiarsDiceGame, LiarsDiceState, PlayerTurnState, SetupError,
};
use rand::SeedableRng;
use rand_chacha::ChaCha12Rng;
use std::collections::BTreeMap;
use uuid::Uuid;

fn ids() -> [u128; 3] {
    [
        Uuid::parse_str("EDD38087-18EA-46F8-AF87-AE41E8624E58").unwrap().as_u128(),
        Uuid::parse_str("6676526B-926E-4413-96A8-A4742071BE8C").unwrap().as_u128(),
        Uuid::parse_str("8CBBB149-C524-4309-855E-BFBCFD43BD8D").unwrap().as_u128(),
    ]
}

fn started(seed: u64, dice: u8, players: &[u128]) -> LiarsDiceGame {
    let rng = ChaCha12Rng::seed_from_u64(seed);
    let mut game = LiarsDiceGame::new(rng, dice, players);
    game.get_state().expect_start().expect("not in start state").initialise_game(&mut game);
    game
}

fn turn(game: &LiarsDiceGame) -> PlayerTurnState {
    game.get_state().expect_player_turn().expect("not a player's turn")
}

fn play(game: &mut LiarsDiceGame, call: DiceCall) -> Option<liars_dice::CallOutcome> {
    let t = turn(game);
    let choice = t.propose_choice(game, call).expect("call refused");
    choice.confirm(t, game)
}

fn dice_of(game: &LiarsDiceGame, id: u128) -> Vec<Dice> {
    game.player_dices().into_iter().find(|(p, _)| *p == id).unwrap().1
}

#[test]
fn test_game() {
    let rng = ChaCha12Rng::seed_from_u64(123);
    let players = ids();
    let mut game = LiarsDiceGame::new(rng, 3, &players);
    let state = game.get_state();
    state
        .expect_start()
        .expect("Game didnt start in start state")
        .initialise_game(&mut game);
    assert_eq!(
        BTreeMap::from_iter(game.player_dices().into_iter()),
        BTreeMap::from([
            (players[0], vec![Dice(1), Dice(5), Dice(4)]),
            (players[1], vec![Dice(4), Dice(5), Dice(6)]),
            (players[2], vec![Dice(4), Dice(2), Dice(6)]),
        ])
    );
    let turn = game.get_state().expect_player_turn().unwrap();
    assert_eq!(
        *game.current_players(),
        vec![players[1], players[2], players[0]]
    );
    assert_eq!(turn.player_id, players[0]);
    assert_eq!(
        game.previous_calls(),
        vec![
            (players[2], 3, None),
            (players[1], 3, None),
            (players[0], 3, None),
        ]
    );
}

#[test]
fn same_seed_same_game() {
    let players = ids();
    let mut a = started(7, 4, &players);
    let mut b = started(7, 4, &players);
    for game in [&mut a, &mut b] {
        play(game, DiceCall::Increase { count: 2, value: Dice(3) });
        play(game, DiceCall::Increase { count: 5, value: Dice(6) });
        play(game, DiceCall::Bullshit);
    }
    assert_eq!(a.player_dices(), b.player_dices());
    assert_eq!(a.current_players(), b.current_players());
    assert_eq!(a.current_player(), b.current_player());
    assert_eq!(a.previous_calls(), b.previous_calls());
}

#[test]
fn construction_is_checked() {
    let players = ids();
    let rng = || ChaCha12Rng::seed_from_u64(1);
    assert!(matches!(LiarsDiceGame::try_new(rng(), 0, &players), Err(SetupError::NoStartingDice)));
    assert!(matches!(LiarsDiceGame::try_new(rng(), 3, &players[..1]), Err(SetupError::TooFewPlayers)));
    assert!(matches!(LiarsDiceGame::try_new(rng(), 3, &[]), Err(SetupError::TooFewPlayers)));
    let dup = [players[0], players[1], players[0]];
    assert!(matches!(LiarsDiceGame::try_new(rng(), 3, &dup), Err(SetupError::DuplicatePlayer)));
    assert!(LiarsDiceGame::try_new(rng(), 1, &players[..2]).is_ok());
}

#[test]
fn new_game_starts_unstarted() {
    let players = ids();
    let game = LiarsDiceGame::new(ChaCha12Rng::seed_from_u64(5), 2, &players);
    assert!(matches!(game.get_state(), LiarsDiceState::Start(_)));
    assert_eq!(game.current_player(), None);
    assert!(game.current_players().is_empty());
}

#[test]
fn initialise_deals_full_hands() {
    let players = ids();
    let game = started(99, 5, &players);
    let total: usize = game.player_dices().iter().map(|(_, d)| d.len()).sum();
    assert_eq!(total, 5 * 3);
    for (_, d) in game.player_dices() {
        assert!(d.iter().all(|x| (1..=6).contains(&x.0)));
    }
    let mut sorted = players.to_vec();
    sorted.sort();
    assert_eq!(*game.current_players(), sorted);
}

#[test]
fn first_call_must_be_increase() {
    let game = started(123, 3, &ids());
    let t = turn(&game);
    assert!(matches!(t.propose_choice(&game, DiceCall::Bullshit), Err(CallError::FirstCallMustBeIncrease)));
    assert!(matches!(t.propose_choice(&game, DiceCall::SpotOn), Err(CallError::FirstCallMustBeIncrease)));
    assert!(t.propose_choice(&game, DiceCall::Increase { count: 1, value: Dice(2) }).is_ok());
    assert_eq!(CallError::FirstCallMustBeIncrease.reason(), "First call must be an increase");
}

#[test]
fn increase_must_raise_count() {
    let mut game = started(123, 3, &ids());
    play(&mut game, DiceCall::Increase { count: 3, value: Dice(4) });
    let t = turn(&game);
    let same = DiceCall::Increase { count: 3, value: Dice(4) };
    let other_face = DiceCall::Increase { count: 3, value: Dice(6) };
    let lower = DiceCall::Increase { count: 2, value: Dice(1) };
    assert!(matches!(t.propose_choice(&game, same), Err(CallError::CountMustIncrease)));
    assert!(matches!(t.propose_choice(&game, other_face), Err(CallError::CountMustIncrease)));
    assert!(matches!(t.propose_choice(&game, lower), Err(CallError::CountMustIncrease)));
    assert!(t.propose_choice(&game, DiceCall::Increase { count: 4, value: Dice(1) }).is_ok());
    assert!(t.propose_choice(&game, DiceCall::Bullshit).is_ok());
    assert!(t.propose_choice(&game, DiceCall::SpotOn).is_ok());
    assert_eq!(CallError::CountMustIncrease.reason(), "New count must be higher than previous");
}

#[test]
fn increase_passes_turn_cyclically() {
    let players = ids();
    let mut game = started(123, 3, &players);
    // Roster is [S, T, E] and E, at the last position, has the turn.
    assert!(play(&mut game, DiceCall::Increase { count: 1, value: Dice(4) }).is_none());
    assert_eq!(game.current_player(), Some(players[1]));
    play(&mut game, DiceCall::Increase { count: 2, value: Dice(4) });
    assert_eq!(game.current_player(), Some(players[2]));
    assert_eq!(game.previous_calls()[0], (players[1], 3, Some(DiceCall::Increase { count: 2, value: Dice(4) })));
}

#[test]
fn bullshit_on_exact_claim_is_wrong() {
    let players = ids();
    let mut game = started(123, 3, &players);
    // Three dice show 4: E claims exactly three, S challenges.
    play(&mut game, DiceCall::Increase { count: 3, value: Dice(4) });
    let outcome = play(&mut game, DiceCall::Bullshit).unwrap();
    assert!(!outcome.correct_call);
    assert_eq!(outcome.tally, vec![
        (Dice(1), 1), (Dice(2), 1), (Dice(3), 0), (Dice(4), 3), (Dice(5), 2), (Dice(6), 2)
    ]);
    assert_eq!(outcome.player_dices.len(), 3);
    assert_eq!(dice_of(&game, players[1]).len(), 2);
    assert_eq!(dice_of(&game, players[0]).len(), 3);
    assert_eq!(game.current_player(), Some(players[1]));
    assert!(game.previous_calls().iter().all(|(_, _, c)| c.is_none()));
}

#[test]
fn bullshit_on_overclaim_is_right() {
    let players = ids();
    let mut game = started(123, 3, &players);
    play(&mut game, DiceCall::Increase { count: 4, value: Dice(4) });
    let outcome = play(&mut game, DiceCall::Bullshit).unwrap();
    assert!(outcome.correct_call);
    assert_eq!(dice_of(&game, players[0]).len(), 2);
    assert_eq!(dice_of(&game, players[1]).len(), 3);
    assert_eq!(game.current_player(), Some(players[1]));
}

#[test]
fn spot_on_right_costs_everyone_else() {
    let players = ids();
    let mut game = started(123, 3, &players);
    play(&mut game, DiceCall::Increase { count: 3, value: Dice(4) });
    let outcome = play(&mut game, DiceCall::SpotOn).unwrap();
    assert!(outcome.correct_call);
    assert_eq!(dice_of(&game, players[1]).len(), 3);
    assert_eq!(dice_of(&game, players[0]).len(), 2);
    assert_eq!(dice_of(&game, players[2]).len(), 2);
    assert_eq!(game.current_player(), Some(players[1]));
}

#[test]
fn spot_on_wrong_costs_the_caller() {
    let players = ids();
    let mut game = started(123, 3, &players);
    play(&mut game, DiceCall::Increase { count: 2, value: Dice(4) });
    let outcome = play(&mut game, DiceCall::SpotOn).unwrap();
    assert!(!outcome.correct_call);
    assert_eq!(dice_of(&game, players[1]).len(), 2);
    assert_eq!(dice_of(&game, players[0]).len(), 3);
    assert_eq!(game.current_player(), Some(players[1]));
    assert!(game.previous_calls().iter().all(|(_, _, c)| c.is_none()));
}

#[test]
fn last_die_lost_ends_game() {
    let players = ids();
    let pair = [players[0], players[1]];
    let mut game = started(42, 1, &pair);
    let claimant = game.current_player().unwrap();
    let other = if claimant == pair[0] { pair[1] } else { pair[0] };
    let face = Dice(3);
    let shown = game.player_dices().iter().flat_map(|(_, d)| d.iter()).filter(|d| **d == face).count();
    play(&mut game, DiceCall::Increase { count: shown + 1, value: face });
    let outcome = play(&mut game, DiceCall::Bullshit).unwrap();
    assert!(outcome.correct_call);
    assert!(dice_of(&game, claimant).is_empty());
    assert_eq!(*game.current_players(), vec![other]);
    assert_eq!(game.previous_calls(), vec![(other, 1, None)]);
    match game.get_state() {
        LiarsDiceState::GameComplete(c) => assert_eq!(c.winner_id, other),
        _ => panic!("game should be complete"),
    }
}

#[test]
fn removal_and_rotation_primitives() {
    let players = ids();
    let mut game = started(123, 1, &players);
    // Roster [S, T, E]: taking T's only die drops it from the roster.
    game.remove_dice_from_player(&players[2]);
    assert_eq!(*game.current_players(), vec![players[1], players[0]]);
    let at_e = game.pick_roller_or_next(&players[0]);
    assert_eq!(at_e.index, 1);
    game.remove_dice_from_player(&players[0]);
    at_e.set_correct_player(&mut game);
    assert_eq!(game.current_player(), Some(players[1]));
}

#[test]
fn rotate_wraps_around() {
    let players = ids();
    let mut game = started(123, 2, &players);
    let roster = game.current_players().clone();
    let n = roster.len();
    let mut k = roster.iter().position(|p| Some(*p) == game.current_player()).unwrap();
    for _ in 0..2 * n {
        game.rotate_player();
        k = (k + 1) % n;
        assert_eq!(game.current_player(), Some(roster[k]));
    }
    // From the last position the turn goes back to the first.
    while game.current_player() != Some(roster[n - 1]) {
        game.rotate_player();
    }
    game.rotate_player();
    assert_eq!(game.current_player(), Some(roster[0]));
}

#[test]
fn new_round_rerolls_active_hands() {
    let players = ids();
    let mut game = started(123, 3, &players);
    play(&mut game, DiceCall::Increase { count: 1, value: Dice(2) });
    game.start_next_round();
    assert!(game.previous_calls().iter().all(|(_, n, c)| *n == 3 && c.is_none()));
}

#[test]
fn reset_restores_original_order() {
    let players = ids();
    let mut game = started(123, 2, &players);
    game.remove_dice_from_player(&players[2]);
    game.remove_dice_from_player(&players[2]);
    game.return_all_dice_for_new_game();
    assert_eq!(*game.current_players(), players.to_vec());
    assert!(game.player_dices().iter().all(|(_, d)| d.len() == 2));
    assert!(players.contains(&game.current_player().unwrap()));
}

#[test]
fn roll_gives_a_face() {
    let mut rng = ChaCha12Rng::seed_from_u64(3);
    let mut seen = [false; 6];
    for _ in 0..200 {
        let d = Dice::roll(&mut rng);
        assert!((1..=6).contains(&d.0));
        seen[(d.0 - 1) as usize] = true;
    }
    assert!(seen.iter().all(|s| *s));
}

#[test]
fn construction_places_given_hands() {
    let players = ids();
    let hands = vec![vec![Dice(1), Dice(2)], vec![Dice(3), Dice(4)], vec![Dice(5), Dice(6)]];
    let game = LiarsDiceGame::try_new_with_hands(ChaCha12Rng::seed_from_u64(0), 2, &players, &hands).unwrap();
    assert_eq!(dice_of(&game, players[0]), hands[0]);
    assert_eq!(dice_of(&game, players[1]), hands[1]);
    assert_eq!(dice_of(&game, players[2]), hands[2]);
}

#[test]
fn reroll_places_hands_in_roster_order() {
    let players = ids();
    let mut game = started(123, 3, &players);
    play(&mut game, DiceCall::Increase { count: 1, value: Dice(2) });
    // Roster is [S, T, E].
    let hands = vec![vec![Dice(6), Dice(6), Dice(6)], vec![Dice(1), Dice(1), Dice(1)], vec![Dice(2), Dice(3), Dice(4)]];
    game.reroll_with(&hands);
    assert_eq!(dice_of(&game, players[1]), hands[0]);
    assert_eq!(dice_of(&game, players[2]), hands[1]);
    assert_eq!(dice_of(&game, players[0]), hands[2]);
    assert!(game.previous_calls().iter().all(|(_, _, c)| c.is_none()));
}

#[test]
fn deal_places_hands_in_id_order() {
    let players = ids();
    let mut game = started(123, 2, &players);
    let hands = vec![vec![Dice(1), Dice(1)], vec![Dice(2), Dice(2)], vec![Dice(3), Dice(3)]];
    game.deal_with(&hands);
    // In order of id: S, T, E.
    assert_eq!(dice_of(&game, players[1]), hands[0]);
    assert_eq!(dice_of(&game, players[2]), hands[1]);
    assert_eq!(dice_of(&game, players[0]), hands[2]);
}

#[test]
fn construction_draws_in_given_order() {
    let players = ids();
    let mut rng = ChaCha12Rng::seed_from_u64(11);
    let hands: Vec<Vec<Dice>> = (0..3).map(|_| (0..2).map(|_| Dice::roll(&mut rng)).collect()).collect();
    let game = LiarsDiceGame::new(ChaCha12Rng::seed_from_u64(11), 2, &players);
    for (k, p) in players.iter().enumerate() {
        assert_eq!(dice_of(&game, *p), hands[k]);
    }
}
