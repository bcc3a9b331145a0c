use std::collections::HashMap;

use rand_mt::Mt64;
use wyhash::WyRng;
use rand::SeedableRng;

use takoyaki::board::{load_board_from_lines, Board};
use takoyaki::card::{load_card_from_lines, Card, CardPosition};
use takoyaki::deck_builder::{
    best_report, breed, create_initial_population, crossover, elite_decks, evaluate_population, mutate_card,
    mutate_deck, next_generation, opponent_deck, record_battle, run_battles, sort_by_id, sort_by_wins, Report,
};
use takoyaki::game::{Action, Context, PlayerId, Rotation, DECK_SIZE, HAND_SIZE, TURN_COUNT};
use takoyaki::local::{deal_hands, play_turn, run, run_watched, TurnWatcher};
use takoyaki::players::{choose_random_action, first_valid_action, ActionType, Player};
use takoyaki::proto;
use takoyaki::random::RandomPlayer;
use takoyaki::session::{apply_turn, client_turn, offer_hands, settle_hands, GameResult};
use takoyaki::state::{PlayerCardState, State};
use takoyaki::stats::{NamedScore, StatsCounter};

fn card(lines: &[&str], id: u32, name: &str, special_cost: i32) -> Card {
    let lines: Vec<String> = lines.iter().map(|s| String::from(*s)).collect();
    let cell_cnt: i32 = lines
        .iter()
        .map(|line| line.as_bytes().iter().filter(|&ch| *ch == b'=' || *ch == b'*').count() as i32)
        .sum();
    load_card_from_lines(id, String::from(name), cell_cnt, special_cost, &lines)
}

/// Fifteen small cards with ids 1 to 15.
fn deck() -> Vec<Card> {
    (1..=15u32)
        .map(|id| match id % 3 {
            0 => card(&["="], id, &format!("dot{}", id), 3),
            1 => card(&["=="], id, &format!("bar{}", id), 4),
            _ => card(&["=", "=*"], id, &format!("ell{}", id), 5),
        })
        .collect()
}

fn context_of(cards: &[Card]) -> Context {
    let mut all_cards = HashMap::new();
    for c in cards {
        all_cards.insert(c.get_id(), c.clone());
    }
    Context { all_cards, enabled_step_execution: false }
}

fn open_board() -> Board {
    load_board_from_lines(
        String::from("open"),
        &[
            "#########",
            "#...O...#",
            "#.......#",
            "#.......#",
            "#.......#",
            "#.......#",
            "#...P...#",
            "#########",
        ],
    )
}

fn ids(cards: &[Card]) -> Vec<u32> {
    cards.iter().map(|c| c.get_id()).collect()
}

// ---------------------------------------------------------------------------
// Turns and whole games
// ---------------------------------------------------------------------------

#[test]
fn play_turn_updates_state_and_cards() {
    let cards = deck();
    let mut state = State::new(open_board(), 0, 0, 0, vec![], vec![]);
    let mut south = PlayerCardState::new(PlayerId::South, cards[0..4].to_vec(), cards[4..6].to_vec());
    let mut north = PlayerCardState::new(PlayerId::North, cards[6..10].to_vec(), cards[10..12].to_vec());
    let sa = Action::Put(cards[0].clone(), CardPosition { x: 4, y: 5, rotation: Rotation::Up });
    let na = Action::Pass(cards[7].clone());
    assert!(play_turn(&mut state, &mut south, &mut north, &sa, &na));
    assert_eq!(1, state.turn);
    assert_eq!(vec![1], state.player_consumed_cards);
    assert_eq!(vec![8], state.opponent_consumed_cards);
    assert_eq!(1, state.opponent_special_count);
    assert_eq!(vec![2, 3, 4, 5], ids(south.get_hands()));
    assert_eq!(vec![7, 9, 10, 11], ids(north.get_hands()));
    assert_eq!((3, 1), state.board.get_scores());
}

#[test]
fn play_turn_refuses_a_card_not_in_hand() {
    let cards = deck();
    let mut state = State::new(open_board(), 0, 0, 0, vec![], vec![]);
    let mut south = PlayerCardState::new(PlayerId::South, cards[0..4].to_vec(), cards[4..6].to_vec());
    let mut north = PlayerCardState::new(PlayerId::North, cards[6..10].to_vec(), cards[10..12].to_vec());
    let sa = Action::Pass(cards[13].clone());
    let na = Action::Pass(cards[7].clone());
    assert!(!play_turn(&mut state, &mut south, &mut north, &sa, &na));
    assert_eq!(0, state.turn);
    assert_eq!(4, south.get_hands().len());
    assert_eq!(4, north.get_hands().len());
}

#[test]
fn play_turn_refuses_an_invalid_action() {
    let cards = deck();
    let mut state = State::new(open_board(), 0, 0, 0, vec![], vec![]);
    let mut south = PlayerCardState::new(PlayerId::South, cards[0..4].to_vec(), cards[4..6].to_vec());
    let mut north = PlayerCardState::new(PlayerId::North, cards[6..10].to_vec(), cards[10..12].to_vec());
    // Far from south's ink.
    let sa = Action::Put(cards[0].clone(), CardPosition { x: 1, y: 2, rotation: Rotation::Up });
    let na = Action::Pass(cards[7].clone());
    assert!(!play_turn(&mut state, &mut south, &mut north, &sa, &na));
    assert_eq!(0, state.turn);
}

#[test]
fn deal_hands_keeps_the_cards() {
    let cards = deck();
    let mut rng = Mt64::new(5);
    let mut player = RandomPlayer::new(String::from("r"), 1);
    let dealt = deal_hands(&mut rng, &cards, PlayerId::North, &mut player);
    assert_eq!(PlayerId::North, dealt.get_player_id());
    assert_eq!(HAND_SIZE, dealt.get_hands().len());
    let mut all = ids(dealt.get_hands());
    all.extend(ids(dealt.get_deck()));
    all.sort();
    assert_eq!((1..=15).collect::<Vec<u32>>(), all);
}

#[test]
fn run_plays_a_whole_game() {
    let cards = deck();
    let context = context_of(&cards);
    let board = open_board();
    let mut rng = Mt64::new(11);
    let mut player = RandomPlayer::new(String::from("a"), 1);
    let mut opponent = RandomPlayer::new(String::from("b"), 2);
    let (p, o) = run(&context, &board, &cards, &cards, &mut player, &mut opponent, &mut rng).unwrap();
    // Each side keeps at least its starting special ink, and no more than the board holds.
    assert!(p >= 1 && o >= 1);
    assert!(p + o <= 7 * 6);
}

#[test]
fn run_battles_counts_every_game() {
    let cards = deck();
    let context = context_of(&cards);
    let board = open_board();
    let mut rng = Mt64::new(3);
    let mut player = RandomPlayer::new(String::from("a"), 1);
    let mut opponent = RandomPlayer::new(String::from("b"), 2);
    let (w, l, d) = run_battles(&context, &board, 4, &cards, &cards, &mut player, &mut opponent, &mut rng).unwrap();
    assert_eq!(4, w + l + d);
}

#[test]
fn evaluate_population_reports_each_deck() {
    let cards = deck();
    let context = context_of(&cards);
    let board = open_board();
    let mut rng = Mt64::new(3);
    let mut player = RandomPlayer::new(String::from("a"), 1);
    let mut opponent = RandomPlayer::new(String::from("b"), 2);
    let population = vec![cards.clone(), cards.clone()];
    let reports =
        evaluate_population(&context, &board, 2, &population, &cards, &mut player, &mut opponent, &mut rng).unwrap();
    assert_eq!(2, reports.len());
    for r in reports.iter() {
        assert!(r.win_cnt <= 2);
        assert_eq!(r.win_cnt, r.get_weight());
        assert_eq!(DECK_SIZE, r.deck.len());
    }
}

#[test]
fn record_battle_classifies_results() {
    let mut tally = (0u32, 0u32, 0u32);
    record_battle(&mut tally, 5, 3);
    record_battle(&mut tally, 3, 5);
    record_battle(&mut tally, 4, 4);
    record_battle(&mut tally, 9, 0);
    assert_eq!((2, 1, 1), tally);
}

#[test]
fn sort_by_id_orders_cards() {
    let cards = deck();
    let mut v = vec![cards[4].clone(), cards[0].clone(), cards[9].clone(), cards[2].clone()];
    sort_by_id(&mut v);
    assert_eq!(vec![1, 3, 5, 10], ids(&v));
    let report = Report { deck: &v, win_cnt: 7 };
    assert_eq!(7, report.get_weight());
}

fn inventory_of(cards: &[Card]) -> HashMap<u32, Card> {
    let mut m = HashMap::new();
    for c in cards {
        m.insert(c.get_id(), c.clone());
    }
    m
}

#[test]
fn crossover_draws_only_weighted_cards() {
    let cards = deck();
    let more: Vec<Card> = (16..=30u32).map(|id| card(&["="], id, &format!("x{}", id), 3)).collect();
    let mut all = cards.clone();
    all.extend(more.iter().cloned());
    let inventory = inventory_of(&all);
    let mut rng = Mt64::new(21);
    // Only the first parent won: the child is its deck, in some order.
    let a = Report { deck: &cards, win_cnt: 3 };
    let b = Report { deck: &more, win_cnt: 0 };
    let mut child = crossover(&inventory, &a, &b, &mut rng).unwrap();
    sort_by_id(&mut child);
    assert_eq!((1..=15).collect::<Vec<u32>>(), ids(&child));
    // Only the second parent won.
    let a = Report { deck: &cards, win_cnt: 0 };
    let b = Report { deck: &more, win_cnt: 2 };
    let mut child = crossover(&inventory, &a, &b, &mut rng).unwrap();
    sort_by_id(&mut child);
    assert_eq!((16..=30).collect::<Vec<u32>>(), ids(&child));
    // Both won: the child has distinct cards of both parents.
    let a = Report { deck: &cards, win_cnt: 1 };
    let b = Report { deck: &more, win_cnt: 1 };
    let mut child = crossover(&inventory, &a, &b, &mut rng).unwrap();
    sort_by_id(&mut child);
    let mut got = ids(&child);
    got.dedup();
    assert_eq!(DECK_SIZE, got.len());
    assert!(got.iter().all(|id| *id >= 1 && *id <= 30));
    // Nobody won: no card can be drawn.
    let a = Report { deck: &cards, win_cnt: 0 };
    let b = Report { deck: &more, win_cnt: 0 };
    assert!(crossover(&inventory, &a, &b, &mut rng).is_none());
}

#[test]
fn initial_population_draws_sorted_decks() {
    let cards = deck();
    let more: Vec<Card> = (16..=20u32).map(|id| card(&["="], id, &format!("x{}", id), 3)).collect();
    let mut all = cards.clone();
    all.extend(more.iter().cloned());
    let inventory = inventory_of(&all);
    let mut rng = Mt64::new(2);
    let population = create_initial_population(&inventory, 3, &mut rng);
    assert_eq!(3, population.len());
    for d in population.iter() {
        assert_eq!(DECK_SIZE, d.len());
        let got = ids(d);
        let mut sorted = got.clone();
        sorted.sort();
        sorted.dedup();
        assert_eq!(sorted, got);
    }
}

// ---------------------------------------------------------------------------
// Random choice
// ---------------------------------------------------------------------------

#[test]
fn first_valid_action_follows_the_given_order() {
    let cards = deck();
    let state = State::new(open_board(), 0, 0, 0, vec![], vec![]);
    let refs: Vec<&Card> = vec![&cards[0], &cards[2]];
    let rots = [Rotation::Up, Rotation::Right];
    let ys = [1, 5, 6];
    let xs = [2, 4];
    // A put is tried before a pass: the first valid put is with card 1 (first
    // in the order), upright, on row 5 (row 1 touches no ink of south), at
    // column 2, diagonally next to south's special ink.
    let a = first_valid_action(&state, PlayerId::South, &[ActionType::Put, ActionType::Pass], &refs, &rots, &ys, &xs)
        .unwrap();
    match a {
        Action::Put(c, p) => {
            assert_eq!(1, c.get_id());
            assert_eq!(CardPosition { x: 2, y: 5, rotation: Rotation::Up }, p);
        },
        _ => panic!("expected a put"),
    }
    // With a pass first, the pass of the first card is taken.
    let a = first_valid_action(&state, PlayerId::South, &[ActionType::Pass, ActionType::Put], &refs, &rots, &ys, &xs)
        .unwrap();
    assert!(matches!(a, Action::Pass(ref c) if c.get_id() == 1));
    // Special attacks need points: none is found.
    assert!(first_valid_action(&state, PlayerId::South, &[ActionType::Special], &refs, &rots, &ys, &xs).is_none());
}

#[test]
fn choose_random_action_is_always_valid() {
    let cards = deck();
    let state = State::new(open_board(), 0, 0, 0, vec![], vec![]);
    let mut rng = WyRng::seed_from_u64(9);
    for _ in 0..30 {
        let a = choose_random_action(&state, &cards[0..4], PlayerId::North, &mut rng);
        assert!(takoyaki::state::is_valid_action(&state, PlayerId::North, &a));
        assert!(cards[0..4].iter().any(|c| c.get_id() == a.get_consumed_card().get_id()));
    }
}

#[test]
fn random_player_plays_its_seat() {
    let cards = deck();
    let context = context_of(&cards);
    let state = State::new(open_board(), 0, 0, 0, vec![], vec![]);
    let mut player = RandomPlayer::new(String::from("rand"), 4);
    assert_eq!("rand", player.get_name());
    player.init_game(PlayerId::North, &context, cards.clone());
    for _ in 0..10 {
        let a = player.get_action(&state, &cards[0..4]);
        assert!(takoyaki::state::is_valid_action(&state, PlayerId::North, &a));
    }
}

// ---------------------------------------------------------------------------
// Sessions
// ---------------------------------------------------------------------------

#[test]
fn server_turn_answers_both_players() {
    let cards = deck();
    let context = context_of(&cards);
    let mut state = State::new(open_board(), 11, 0, 0, vec![], vec![]);
    let mut south = PlayerCardState::new(PlayerId::South, cards[0..4].to_vec(), vec![]);
    let mut north = PlayerCardState::new(PlayerId::North, cards[4..8].to_vec(), vec![]);
    let action_s = proto::Action::Put(1, proto::CardPosition { x: 4, y: 5, rotation: proto::Rotation::Up });
    let action_n = proto::Action::Pass(6);
    let (to_south, to_north) = apply_turn(&context, &mut state, &mut south, &mut north, action_s, action_n).unwrap();
    assert_eq!(action_n, to_south.opponent_action);
    assert_eq!(action_s, to_north.opponent_action);
    assert_eq!(vec![2, 3, 4], to_south.hands);
    assert_eq!(vec![5, 7, 8], to_north.hands);
    // The last turn was played: both get the result.
    let scores = proto::Scores { south_score: 3, north_score: 1 };
    assert_eq!(Some(scores), to_south.game_result);
    assert_eq!(Some(scores), to_north.game_result);
    assert_eq!(TURN_COUNT, state.turn);
}

#[test]
fn server_turn_refuses_unknown_cards() {
    let cards = deck();
    let context = context_of(&cards);
    let mut state = State::new(open_board(), 0, 0, 0, vec![], vec![]);
    let mut south = PlayerCardState::new(PlayerId::South, cards[0..4].to_vec(), vec![]);
    let mut north = PlayerCardState::new(PlayerId::North, cards[4..8].to_vec(), vec![]);
    let r = apply_turn(&context, &mut state, &mut south, &mut north, proto::Action::Pass(99), proto::Action::Pass(5));
    assert!(r.is_none());
    assert_eq!(0, state.turn);
    // A card the player does not hold is refused too.
    let r = apply_turn(&context, &mut state, &mut south, &mut north, proto::Action::Pass(9), proto::Action::Pass(5));
    assert!(r.is_none());
}

#[test]
fn server_deals_hands() {
    let cards = deck();
    let context = context_of(&cards);
    let mut rng = Mt64::new(8);
    let mut deck_ids: Vec<u32> = (1..=15).collect();
    let offer = offer_hands(&mut deck_ids, proto::PlayerId::North, &mut rng);
    assert_eq!(proto::PlayerId::North, offer.player_id);
    assert_eq!(deck_ids[0..HAND_SIZE].to_vec(), offer.initial_hands);
    let shuffled = deck_ids.clone();
    let (res, dealt) = settle_hands(&context, &mut deck_ids, proto::PlayerId::North, true, &mut rng).unwrap();
    // Accepted hands stay as offered.
    assert_eq!(shuffled, deck_ids);
    assert_eq!(offer.initial_hands, res.hands);
    assert_eq!(res.hands, ids(dealt.get_hands()));
    assert_eq!(deck_ids[HAND_SIZE..].to_vec(), ids(dealt.get_deck()));
    assert_eq!(PlayerId::North, dealt.get_player_id());
    // A refused offer is dealt again from the same cards.
    let (res, dealt) = settle_hands(&context, &mut deck_ids, proto::PlayerId::Sourth, false, &mut rng).unwrap();
    let mut all = res.hands.clone();
    all.extend(ids(dealt.get_deck()));
    all.sort();
    assert_eq!((1..=15).collect::<Vec<u32>>(), all);
    // Unknown ids are refused.
    let mut bad: Vec<u32> = vec![1, 2, 3, 4, 77];
    assert!(settle_hands(&context, &mut bad, proto::PlayerId::Sourth, true, &mut rng).is_none());
}

#[test]
fn client_turn_follows_the_server() {
    let cards = deck();
    let context = context_of(&cards);
    let mut client_state = State::new(open_board(), 0, 0, 0, vec![], vec![]);
    let my_action = Action::Pass(cards[6].clone());
    let res = proto::SelectActionResponse {
        opponent_action: proto::Action::Put(1, proto::CardPosition { x: 4, y: 5, rotation: proto::Rotation::Up }),
        hands: vec![8, 9, 10, 11],
        game_result: None,
    };
    let hands = client_turn(&context, &mut client_state, proto::PlayerId::North, &my_action, &res).unwrap();
    assert_eq!(vec![8, 9, 10, 11], ids(&hands));
    assert_eq!(1, client_state.turn);
    assert_eq!(vec![1], client_state.player_consumed_cards);
    assert_eq!(vec![7], client_state.opponent_consumed_cards);
    assert_eq!((3, 1), client_state.board.get_scores());

    // The server, given the same actions, reaches the same state.
    let mut server_state = State::new(open_board(), 0, 0, 0, vec![], vec![]);
    let mut south = PlayerCardState::new(PlayerId::South, cards[0..4].to_vec(), vec![]);
    let mut north = PlayerCardState::new(PlayerId::North, cards[6..10].to_vec(), vec![]);
    apply_turn(&context, &mut server_state, &mut south, &mut north, res.opponent_action, proto::Action::from(my_action))
        .unwrap();
    assert_eq!(server_state.board.to_text(), client_state.board.to_text());
    assert_eq!(server_state.to_text(), client_state.to_text());
}

#[test]
fn client_turn_refuses_unknown_hands() {
    let cards = deck();
    let context = context_of(&cards);
    let mut state = State::new(open_board(), 0, 0, 0, vec![], vec![]);
    let res = proto::SelectActionResponse { opponent_action: proto::Action::Pass(2), hands: vec![42], game_result: None };
    assert!(client_turn(&context, &mut state, proto::PlayerId::Sourth, &Action::Pass(cards[0].clone()), &res).is_none());
    assert_eq!(0, state.turn);
}

#[test]
fn game_result_from_both_sides() {
    let scores = proto::Scores { south_score: 12, north_score: 9 };
    let south = GameResult::from_scores(proto::PlayerId::Sourth, scores);
    let north = GameResult::from_scores(proto::PlayerId::North, scores);
    assert_eq!(GameResult { my_score: 12, opponent_score: 9 }, south);
    assert_eq!(GameResult { my_score: 9, opponent_score: 12 }, north);
    assert_eq!("GameResult[WIN (12, 9)]", south.to_text());
    assert_eq!("GameResult[LOSE (9, 12)]", north.to_text());
    assert_eq!("GameResult[DRAW (4, 4)]", GameResult { my_score: 4, opponent_score: 4 }.to_text());
}

#[test]
fn time_control_from_limit() {
    assert_eq!(proto::TimeControl::Infinite, proto::TimeControl::from_time_limit(None));
    assert_eq!(
        proto::TimeControl::PerAction { time_limit_in_seconds: 5 },
        proto::TimeControl::from_time_limit(Some(5))
    );
}

// ---------------------------------------------------------------------------
// Text forms
// ---------------------------------------------------------------------------

#[test]
fn card_short_forms() {
    let cards = deck();
    assert_eq!("(1)bar1", cards[0].fmt_short());
    assert_eq!("[(1)bar1,(3)dot3,]", Card::format_cards(&[cards[0].clone(), cards[2].clone()]));
    assert_eq!("[]", Card::format_cards(&[]));
}

#[test]
fn card_text_form() {
    let c = card(&["  =", "=====", "  =*"], 103, "batoroika", 4);
    assert_eq!("103: batoroika\ncnt: 8 cost: 4\n  =  \n=====\n  =* \n", c.to_text());
}

// ---------------------------------------------------------------------------
// Stats
// ---------------------------------------------------------------------------

#[test]
fn stats_push_result_is_symmetric() {
    let mut one = StatsCounter::new();
    one.push_result(&NamedScore::new("alice", 10), &NamedScore::new("bob", 7));
    let mut two = StatsCounter::new();
    two.push_result(&NamedScore::new("bob", 7), &NamedScore::new("alice", 10));
    assert_eq!(one.counts(), two.counts());
    let mut t1 = one.totals();
    let mut t2 = two.totals();
    t1.sort_by(|a, b| a.0.cmp(&b.0));
    t2.sort_by(|a, b| a.0.cmp(&b.0));
    assert_eq!(t1, t2);
    // alice won once, bob lost once.
    let alice = t1.iter().find(|e| e.0 == "alice").unwrap();
    let bob = t1.iter().find(|e| e.0 == "bob").unwrap();
    assert_eq!((1, 0, 0), (alice.1.win, alice.1.draw, alice.1.lose));
    assert_eq!((0, 0, 1), (bob.1.win, bob.1.draw, bob.1.lose));
}

#[test]
fn reports_sort_by_wins_keeping_ties_in_order() {
    let a = deck();
    let b = deck();
    let c = deck();
    let d = deck();
    let mut reports = vec![
        Report { deck: &a, win_cnt: 1 },
        Report { deck: &b, win_cnt: 4 },
        Report { deck: &c, win_cnt: 1 },
        Report { deck: &d, win_cnt: 4 },
    ];
    sort_by_wins(&mut reports);
    let wins: Vec<u32> = reports.iter().map(|r| r.win_cnt).collect();
    assert_eq!(vec![4, 4, 1, 1], wins);
    // Ties keep their order: b before d, a before c.
    assert!(std::ptr::eq(reports[0].deck, b.as_slice()));
    assert!(std::ptr::eq(reports[1].deck, d.as_slice()));
    assert!(std::ptr::eq(reports[2].deck, a.as_slice()));
    assert!(std::ptr::eq(reports[3].deck, c.as_slice()));
}

#[test]
fn elites_are_the_first_decks_sorted() {
    let mut shuffled = deck();
    shuffled.reverse();
    let other = deck();
    let reports = vec![Report { deck: &shuffled, win_cnt: 2 }, Report { deck: &other, win_cnt: 1 }];
    let elites = elite_decks(&reports, 1);
    assert_eq!(1, elites.len());
    assert_eq!((1..=15).collect::<Vec<u32>>(), ids(&elites[0]));
}

#[test]
fn breeding_picks_only_parents_that_won() {
    let cards = deck();
    let more: Vec<Card> = (16..=30u32).map(|id| card(&["="], id, &format!("x{}", id), 3)).collect();
    let mut all = cards.clone();
    all.extend(more.iter().cloned());
    let inventory = inventory_of(&all);
    let mut rng = Mt64::new(5);
    // Only the second deck won, so it is both parents: the child is that deck.
    let reports = vec![Report { deck: &cards, win_cnt: 0 }, Report { deck: &more, win_cnt: 3 }];
    for _ in 0..5 {
        let mut child = breed(&inventory, &reports, &mut rng).unwrap();
        sort_by_id(&mut child);
        assert_eq!((16..=30).collect::<Vec<u32>>(), ids(&child));
    }
}

#[test]
fn mutation_swaps_in_an_unused_card() {
    let cards = deck();
    let extra = card(&["="], 99, "extra", 3);
    let mut all = cards.clone();
    all.push(extra);
    let inventory = inventory_of(&all);
    let mut rng = Mt64::new(8);
    // The only inventory card outside the deck is 99: it replaces card 3.
    let mut mutated = cards.clone();
    assert!(mutate_card(&inventory, &mut mutated, 2, &mut rng));
    let mut expected: Vec<u32> = (1..=15).collect();
    expected[2] = 99;
    assert_eq!(expected, ids(&mutated));
    // Now card 3 is the only one left outside: it comes back.
    assert!(mutate_card(&inventory, &mut mutated, 0, &mut rng));
    assert_eq!(3, mutated[0].get_id());
    // With every inventory card in the deck, nothing changes.
    let full = inventory_of(&cards);
    let mut same = cards.clone();
    assert!(!mutate_card(&full, &mut same, 0, &mut rng));
    assert_eq!((1..=15).collect::<Vec<u32>>(), ids(&same));
}

#[test]
fn no_battle_to_play_gives_zero_counts() {
    let cards = deck();
    let context = context_of(&cards);
    let board = open_board();
    let mut rng = Mt64::new(3);
    let mut player = RandomPlayer::new(String::from("a"), 1);
    let mut opponent = RandomPlayer::new(String::from("b"), 2);
    assert_eq!(
        Some((0, 0, 0)),
        run_battles(&context, &board, 0, &cards, &cards, &mut player, &mut opponent, &mut rng)
    );
    let population = vec![cards.clone(), cards.clone()];
    let reports =
        evaluate_population(&context, &board, 0, &population, &cards, &mut player, &mut opponent, &mut rng).unwrap();
    assert_eq!(2, reports.len());
    assert!(reports.iter().all(|r| r.win_cnt == 0));
}

#[test]
fn next_generation_keeps_the_best_deck_first() {
    let cards = deck();
    let more: Vec<Card> = (16..=30u32).map(|id| card(&["="], id, &format!("x{}", id), 3)).collect();
    let mut all = cards.clone();
    all.extend(more.iter().cloned());
    let inventory = inventory_of(&all);
    let mut rng = Mt64::new(4);
    let mut best = more.clone();
    best.reverse();
    let mut reports = vec![Report { deck: &cards, win_cnt: 0 }, Report { deck: &best, win_cnt: 2 }];
    let flips = vec![vec![false; DECK_SIZE]];
    let g = next_generation(&inventory, &mut reports, 1, 2, &flips, &mut rng).unwrap();
    assert_eq!(2, reports[0].win_cnt);
    assert_eq!(2, g.len());
    // The elite is the best deck, sorted by id.
    assert_eq!((16..=30).collect::<Vec<u32>>(), ids(&g[0]));
    // The only parent with wins is the best deck, so the child is its cards.
    assert_eq!((16..=30).collect::<Vec<u32>>(), ids(&g[1]));
}

#[test]
fn mutate_deck_swaps_only_flipped_cards() {
    let cards = deck();
    let extra = card(&["="], 99, "extra", 3);
    let mut all = cards.clone();
    all.push(extra);
    let inventory = inventory_of(&all);
    let mut rng = Mt64::new(8);
    let mut d = cards.clone();
    let mut flips = vec![false; cards.len()];
    flips[0] = true;
    assert!(mutate_deck(&inventory, &mut d, &flips, &mut rng));
    let mut expected: Vec<u32> = (2..=15).collect();
    expected.push(99);
    assert_eq!(expected, ids(&d));
}

#[test]
fn stats_totals_add_up_over_games() {
    let mut sc = StatsCounter::new();
    sc.push_result(&NamedScore::new("a", 3), &NamedScore::new("b", 1));
    sc.push_result(&NamedScore::new("c", 2), &NamedScore::new("b", 2));
    sc.push_result(&NamedScore::new("c", 0), &NamedScore::new("a", 5));
    let totals = sc.totals();
    let wins: u32 = totals.iter().map(|(_, s)| s.win).sum();
    let losses: u32 = totals.iter().map(|(_, s)| s.lose).sum();
    let draws: u32 = totals.iter().map(|(_, s)| s.draw).sum();
    assert_eq!(wins, losses);
    assert_eq!(0, draws % 2);
    assert_eq!(6, wins + losses + draws);
    for (name, s) in totals.iter() {
        assert_eq!(2, s.win + s.lose + s.draw, "{}", name);
    }
    for (p, q, _) in sc.counts().iter() {
        assert!(p < q);
    }
}

#[test]
fn initial_population_takes_a_small_inventory_whole() {
    let cards: Vec<Card> = deck().into_iter().take(6).collect();
    let inventory = inventory_of(&cards);
    let mut rng = Mt64::new(5);
    let population = create_initial_population(&inventory, 2, &mut rng);
    assert_eq!(2, population.len());
    for d in population.iter() {
        assert_eq!((1..=6).collect::<Vec<u32>>(), ids(d));
    }
}

#[test]
fn next_generation_with_only_elites_breeds_nothing() {
    let cards = deck();
    let inventory = inventory_of(&cards);
    let mut rng = Mt64::new(6);
    let mut other = cards.clone();
    other.reverse();
    // Nobody won, so no parent could be drawn; with every deck an elite none is.
    let mut reports = vec![Report { deck: &other, win_cnt: 0 }, Report { deck: &cards, win_cnt: 0 }];
    let flips: Vec<Vec<bool>> = vec![];
    let g = next_generation(&inventory, &mut reports, 2, 2, &flips, &mut rng).unwrap();
    assert_eq!(2, g.len());
    assert_eq!((1..=15).collect::<Vec<u32>>(), ids(&g[0]));
    assert_eq!((1..=15).collect::<Vec<u32>>(), ids(&g[1]));
}

#[test]
fn mutate_deck_without_flips_keeps_the_deck() {
    let cards = deck();
    let inventory = inventory_of(&cards);
    let mut rng = Mt64::new(9);
    let mut d = cards.clone();
    let flips = vec![false; cards.len()];
    assert!(mutate_deck(&inventory, &mut d, &flips, &mut rng));
    assert_eq!((1..=15).collect::<Vec<u32>>(), ids(&d));
}

#[test]
fn best_report_takes_the_last_of_equal_wins() {
    let cards = deck();
    let reports = vec![
        Report { deck: &cards, win_cnt: 1 },
        Report { deck: &cards, win_cnt: 4 },
        Report { deck: &cards, win_cnt: 2 },
        Report { deck: &cards, win_cnt: 4 },
        Report { deck: &cards, win_cnt: 3 },
    ];
    assert_eq!(Some(3), best_report(&reports));
    let none: Vec<Report> = vec![];
    assert_eq!(None, best_report(&none));
}

#[test]
fn opponent_deck_is_the_loaded_one_or_the_first() {
    let cards = deck();
    let mut reversed = cards.clone();
    reversed.reverse();
    let population = vec![reversed.clone(), cards.clone()];
    assert_eq!(ids(&reversed), ids(opponent_deck(&population, &None)));
    let loaded = Some(cards[0..3].to_vec());
    assert_eq!(vec![1, 2, 3], ids(opponent_deck(&population, &loaded)));
}

/// Records the turns shown to it.
struct TurnLog(Vec<(i32, i32)>);

impl TurnWatcher for TurnLog {
    fn turn_played(&mut self, turn: i32, state: &State, _south_action: &Action, _north_action: &Action) {
        self.0.push((turn, state.turn));
    }
}

#[test]
fn run_watched_shows_every_turn_once_played() {
    let cards = deck();
    let context = context_of(&cards);
    let board = open_board();
    let mut rng = Mt64::new(11);
    let mut player = RandomPlayer::new(String::from("a"), 1);
    let mut opponent = RandomPlayer::new(String::from("b"), 2);
    let mut log = TurnLog(vec![]);
    let r = run_watched(&context, &board, &cards, &cards, &mut player, &mut opponent, &mut rng, &mut log);
    assert!(r.is_some());
    let expected: Vec<(i32, i32)> = (1..=TURN_COUNT).map(|t| (t, t)).collect();
    assert_eq!(expected, log.0);
    // The same game as without a watcher.
    let mut rng = Mt64::new(11);
    let mut player = RandomPlayer::new(String::from("a"), 1);
    let mut opponent = RandomPlayer::new(String::from("b"), 2);
    assert_eq!(r, run(&context, &board, &cards, &cards, &mut player, &mut opponent, &mut rng));
}
