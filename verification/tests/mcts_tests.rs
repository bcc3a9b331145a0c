use std::collections::HashMap;

use rand_mt::Mt64;

use takoyaki::board::load_board_from_lines;
use takoyaki::card::{load_card_from_lines, Card, CardPosition};
use takoyaki::game::{Action, Context, PlayerId, Rotation, HAND_SIZE, TURN_COUNT};
use takoyaki::mcts::{
    choose_random_player_action, filter_cards, is_leaf_node, iterate, play_child_move, playout,
    precalculate_valid_actions, ChildSelector, Determinization, Node, NodeAction, SimultaneousState, Statistic,
    Traverser,
};
use takoyaki::state::{PlayerCardState, State};

fn new_test_card_impl(lines: &[&str], id: u32, special_cost: i32) -> Card {
    let lines: Vec<String> = lines.iter().map(|s| String::from(*s)).collect();
    let cell_cnt: i32 = lines
        .iter()
        .map(|line| line.as_bytes().iter().filter(|&ch| *ch == b'=' || *ch == b'*').count() as i32)
        .sum();
    load_card_from_lines(id, String::from("test card"), cell_cnt, special_cost, &lines)
}

fn new_test_all_cards(card_strs: &[&[&str]]) -> HashMap<u32, Card> {
    let mut tmp: HashMap<u32, Card> = HashMap::new();
    card_strs.iter().enumerate().for_each(|(i, s)| {
        const SPECIAL_COST: i32 = 10;
        tmp.insert(i as u32, new_test_card_impl(s, i as u32, SPECIAL_COST));
    });
    tmp
}

fn test_cards() -> HashMap<u32, Card> {
    let all_cards = new_test_all_cards(&[
        &["===="],
        &["====="],
        &["======"],
        &["=", "=="],
        &["=", "=", "==="],
        &["="],
        &["="],
        &["="],
        &["="],
        &["="],
        &["="],
        &["="],
        &["="],
        &["="],
        &["="],
    ]);
    all_cards
}

fn small_board_state() -> State {
    let board = load_board_from_lines(String::from("test_board"), &["#####", "#.O##", "#..P#", "#####"]);
    State::new(board, 0, 0, 0, vec![], vec![])
}

fn sorted_cards(context: &Context) -> Vec<Card> {
    let mut cards: Vec<Card> = context.all_cards.values().cloned().collect();
    cards.sort_by(|a, b| a.get_id().cmp(&b.get_id()));
    cards
}

/// The UCB1 value of a child for the search (floating point lives here, in
/// the test, as it does in the application).
fn ucb1(log_n_sum: f64, child: &Node) -> f64 {
    let mut value = child.statistic.value as f64 / child.statistic.total_cnt as f64;
    if child.get_player_id() == PlayerId::North {
        value = -value;
    }
    let explore = (log_n_sum / child.statistic.total_cnt as f64).sqrt();
    value + std::f64::consts::SQRT_2 * explore
}

fn select_child(node: &Node, det: &Determinization) -> usize {
    let filtered: Vec<usize> = (0..node.child_nodes.len())
        .filter(|&i| match &node.child_nodes[i].action {
            NodeAction::PlayerAction(p, a) => det.get_cards(*p).has_card_in_hands(a.get_consumed_card()),
            _ => panic!("unexpected child"),
        })
        .collect();
    assert!(!filtered.is_empty());
    let n_sum: u32 = filtered.iter().map(|&i| node.child_nodes[i].statistic.total_cnt).sum();
    let log_n_sum = (n_sum as f64).ln();
    let mut best = filtered[0];
    let mut best_value = f64::MIN;
    for &i in filtered.iter() {
        let v = ucb1(log_n_sum, &node.child_nodes[i]);
        if v > best_value {
            best_value = v;
            best = i;
        }
    }
    best
}

/// The UCB1 choice of child, handed to the library's search.
struct Ucb1;

impl ChildSelector for Ucb1 {
    fn select_child(&mut self, node: &Node, determinization: &Determinization) -> usize {
        select_child(node, determinization)
    }
}

#[test]
fn mcts_test_initial_node() {
    let context = Context { all_cards: test_cards(), enabled_step_execution: false };
    const SEED: u64 = 42;
    let sorted = sorted_cards(&context);
    let player_initial_deck = sorted.clone();
    let opponent_initial_deck = sorted;

    let (player_hands, player_deck) = player_initial_deck.split_at(HAND_SIZE);
    let (opponent_hands, opponent_deck) = opponent_initial_deck.split_at(HAND_SIZE);

    let player_initial_deck: Vec<Card> = context.all_cards.values().cloned().collect();
    let mut traverser = Traverser::new(context.clone(), PlayerId::South, player_initial_deck, SEED);

    let state = small_board_state();
    let mut root_node = traverser.create_root_node(&state);

    // The root node is still a leaf node.
    assert!(!root_node.is_terminal());

    // Legal actions are not computed yet.
    assert!(root_node.legal_actions.is_none());

    let determinization = Determinization::new(
        PlayerCardState::new(PlayerId::South, player_hands.to_vec(), player_deck.to_vec()),
        PlayerCardState::new(PlayerId::North, opponent_hands.to_vec(), opponent_deck.to_vec()),
    );

    // Note that there should be "5" legal actions on the root node.
    // Once a child node is selected. All legal actions should be computed.
    // 1: Put(3)
    // 4: Pass * HAND_SIZE

    // Select leaf and expand for 5 times.
    for i in 1..=5 {
        let mut determinization = determinization.clone();
        iterate(&mut traverser, &mut root_node, &mut determinization, &mut Ucb1).unwrap();
        // Checks that all expansion happen on the root node.
        assert_eq!(i, root_node.child_nodes.len());
    }

    // All child node should be expanded at this point.
    // So additional iteration doesn't add a child node to the root node.
    let mut determinization = determinization;
    iterate(&mut traverser, &mut root_node, &mut determinization, &mut Ucb1).unwrap();
    assert_eq!(5, root_node.child_nodes.len());
    // Every iteration was counted at the root.
    assert_eq!(6, root_node.statistic.total_cnt);
}

#[test]
fn mcts_statistic_counts_results() {
    let mut s = Statistic::default();
    s.update_with((10, 3));
    s.update_with((2, 5));
    s.update_with((4, 4));
    assert_eq!(3, s.get_visit_count());
    assert_eq!(1, s.win_cnt);
    assert_eq!(1, s.lose_cnt);
    assert_eq!(1, s.draw_cnt);
    assert_eq!(10 - 3 + 2 - 5, s.value);
}

#[test]
fn mcts_determinization_consistency() {
    let context = Context { all_cards: test_cards(), enabled_step_execution: false };
    let cards = sorted_cards(&context);
    let south = PlayerCardState::new(PlayerId::South, cards[0..4].to_vec(), cards[4..8].to_vec());
    let north = PlayerCardState::new(PlayerId::North, cards[8..12].to_vec(), cards[12..15].to_vec());
    // Given in either order, the guess keeps each player's cards.
    let d = Determinization::new(north.clone(), south.clone());
    assert_eq!(PlayerId::South, d.get_cards(PlayerId::South).get_player_id());
    assert_eq!(PlayerId::North, d.get_cards(PlayerId::North).get_player_id());

    let board = load_board_from_lines(String::from("b"), &["#####", "#.O##", "#..P#", "#####"]);
    // South used card 9, which the guess gives north: consistent for south only.
    let state = State::new(board, 1, 0, 0, vec![9], vec![14]);
    assert!(d.is_consistent_for_player(&state, PlayerId::South));
    assert!(!d.is_consistent_for_player(&state, PlayerId::North));
    assert!(!d.is_consistent(&state));
    let board = load_board_from_lines(String::from("b"), &["#####", "#.O##", "#..P#", "#####"]);
    let state = State::new(board, 1, 0, 0, vec![2], vec![0]);
    // South used card 2, which the guess still gives it in hand; north used
    // card 0, which the guess does not give north.
    assert!(!d.is_consistent_for_player(&state, PlayerId::South));
    assert!(d.is_consistent_for_player(&state, PlayerId::North));
}

#[test]
fn mcts_play_card_in_guess() {
    let context = Context { all_cards: test_cards(), enabled_step_execution: false };
    let cards = sorted_cards(&context);
    let south = PlayerCardState::new(PlayerId::South, cards[0..4].to_vec(), cards[4..6].to_vec());
    let north = PlayerCardState::new(PlayerId::North, cards[8..12].to_vec(), cards[12..15].to_vec());
    let mut d = Determinization::new(south, north);
    d.play_card(PlayerId::South, &cards[1], true);
    let ids: Vec<u32> = d.get_cards(PlayerId::South).get_hands().iter().map(|c| c.get_id()).collect();
    assert_eq!(vec![0, 2, 3, 4], ids);
    d.play_card(PlayerId::South, &cards[0], false);
    let ids: Vec<u32> = d.get_cards(PlayerId::South).get_hands().iter().map(|c| c.get_id()).collect();
    assert_eq!(vec![2, 3, 4], ids);
    // North is untouched.
    assert_eq!(4, d.get_cards(PlayerId::North).get_hands().len());
}

#[test]
fn mcts_filter_cards_swap_removes() {
    let context = Context { all_cards: test_cards(), enabled_step_execution: false };
    let mut cards = sorted_cards(&context)[0..6].to_vec();
    assert!(filter_cards(&mut cards, &[1, 4]));
    let ids: Vec<u32> = cards.iter().map(|c| c.get_id()).collect();
    // 1 is replaced by the last card (5), then 4 by the new last card (4 itself).
    assert_eq!(vec![0, 5, 2, 3], ids);
    // A missing id is reported.
    assert!(!filter_cards(&mut cards, &[9]));
    assert_eq!(4, cards.len());
}

#[test]
fn mcts_with_action_plays_the_turn_when_both_chose() {
    let context = Context { all_cards: test_cards(), enabled_step_execution: false };
    let cards = sorted_cards(&context);
    let s = SimultaneousState::new(small_board_state());
    let s = s.with_action(NodeAction::PlayerAction(PlayerId::South, Action::Pass(cards[0].clone()))).unwrap();
    assert!(s.action_is_filled(PlayerId::South));
    assert!(!s.action_is_filled(PlayerId::North));
    assert_eq!(0, s.get_turn());
    let s = s.with_action(NodeAction::PlayerAction(PlayerId::North, Action::Pass(cards[1].clone()))).unwrap();
    assert!(!s.both_actions_filled());
    assert_eq!(1, s.get_turn());
    assert_eq!(1, s.get_state().player_special_count);
    assert_eq!(1, s.get_state().opponent_special_count);
}

#[test]
fn mcts_with_action_refuses_an_invalid_turn() {
    let context = Context { all_cards: test_cards(), enabled_step_execution: false };
    let cards = sorted_cards(&context);
    let s = SimultaneousState::new(small_board_state());
    // Card 0 ("====") cannot be put anywhere on the small board.
    let put = Action::Put(cards[0].clone(), CardPosition { x: 1, y: 1, rotation: Rotation::Up });
    let s = s.with_action(NodeAction::PlayerAction(PlayerId::South, put)).unwrap();
    let r = s.with_action(NodeAction::PlayerAction(PlayerId::North, Action::Pass(cards[1].clone())));
    assert!(r.is_none());
}

#[test]
fn mcts_playout_finishes_the_game() {
    let context = Context { all_cards: test_cards(), enabled_step_execution: false };
    let cards = sorted_cards(&context);
    let det = Determinization::new(
        PlayerCardState::new(PlayerId::South, cards[0..4].to_vec(), cards[4..15].to_vec()),
        PlayerCardState::new(PlayerId::North, cards[0..4].to_vec(), cards[4..15].to_vec()),
    );
    let node = SimultaneousState::new(small_board_state());
    let mut rng = Mt64::new(7);
    let (p, o) = playout(&mut rng, &node, &det).unwrap();
    // Each side owns at most the 4 free squares plus its starting one.
    assert!(p >= 1 && p <= 5);
    assert!(o >= 1 && o <= 5);
}

#[test]
fn mcts_random_player_action_is_listed() {
    let context = Context { all_cards: test_cards(), enabled_step_execution: false };
    let cards = sorted_cards(&context);
    let state = small_board_state();
    let mut rng = Mt64::new(1);
    for _ in 0..20 {
        let a = choose_random_player_action(&mut rng, &state, PlayerId::South, &cards[0..4]);
        assert!(cards[0..4].iter().any(|c| c.get_id() == a.get_consumed_card().get_id()));
    }
}

#[test]
fn mcts_legal_actions_include_deck_for_opponent() {
    let context = Context { all_cards: test_cards(), enabled_step_execution: false };
    let cards = sorted_cards(&context);
    let state = small_board_state();
    let south = PlayerCardState::new(PlayerId::South, cards[0..4].to_vec(), cards[4..6].to_vec());
    // For the searching player only its hands count: 4 passes and one put.
    let mine = precalculate_valid_actions(&state, &south, PlayerId::South, PlayerId::South);
    assert_eq!(5, mine.len());
    // For the opponent the deck counts too: card 4 ("=", "=", "===") fits
    // nowhere, card 5 ("=") fits on the one free square next to south's
    // special ink, in each of the 4 rotations.
    let theirs = precalculate_valid_actions(&state, &south, PlayerId::South, PlayerId::North);
    assert_eq!(5 + 1 + 1 + 4, theirs.len());
}

#[test]
fn mcts_expand_adds_children_in_order() {
    let context = Context { all_cards: test_cards(), enabled_step_execution: false };
    let cards = sorted_cards(&context);
    let traverser = Traverser::new(context.clone(), PlayerId::South, cards.clone(), 3);
    let state = small_board_state();
    let mut root = traverser.create_root_node(&state);
    let mut det = Determinization::new(
        PlayerCardState::new(PlayerId::South, cards[0..4].to_vec(), cards[4..15].to_vec()),
        PlayerCardState::new(PlayerId::North, cards[0..4].to_vec(), cards[4..15].to_vec()),
    );
    assert!(is_leaf_node(&root, &det));
    let first = traverser.expand(&mut root, &mut det.clone()).unwrap();
    assert_eq!(0, first);
    // The first move listed is a pass with the first card.
    match &root.child_nodes[0].action {
        NodeAction::PlayerAction(PlayerId::South, Action::Pass(c)) => assert_eq!(0, c.get_id()),
        _ => panic!("unexpected first move"),
    }
    // The guess of the player lost the card used and drew the next one.
    let second = traverser.expand(&mut root, &mut det).unwrap();
    assert_eq!(1, second);
    let ids: Vec<u32> = det.get_cards(PlayerId::South).get_hands().iter().map(|c| c.get_id()).collect();
    assert_eq!(4, ids.len());
    assert!(ids.contains(&4));
}

#[test]
fn mcts_play_child_move_uses_the_card_of_the_child() {
    let context = Context { all_cards: test_cards(), enabled_step_execution: false };
    let cards = sorted_cards(&context);
    let traverser = Traverser::new(context.clone(), PlayerId::South, cards.clone(), 3);
    let state = small_board_state();
    let mut root = traverser.create_root_node(&state);
    let mut det = Determinization::new(
        PlayerCardState::new(PlayerId::South, cards[0..4].to_vec(), cards[4..15].to_vec()),
        PlayerCardState::new(PlayerId::North, cards[0..4].to_vec(), cards[4..15].to_vec()),
    );
    traverser.expand(&mut root, &mut det.clone()).unwrap();
    // The first child is south passing with card 0: it leaves the hands and
    // card 4, the top of the deck, comes in.
    play_child_move(&root, 0, &mut det);
    let ids: Vec<u32> = det.get_cards(PlayerId::South).get_hands().iter().map(|c| c.get_id()).collect();
    assert_eq!(4, ids.len());
    assert!(!ids.contains(&0));
    assert!(ids.contains(&4));
    let theirs: Vec<u32> = det.get_cards(PlayerId::North).get_hands().iter().map(|c| c.get_id()).collect();
    assert_eq!(vec![0, 1, 2, 3], theirs);
}

#[test]
fn mcts_determinization_text_lists_ids() {
    let context = Context { all_cards: test_cards(), enabled_step_execution: false };
    let cards = sorted_cards(&context);
    let d = Determinization::new(
        PlayerCardState::new(PlayerId::North, cards[4..6].to_vec(), vec![]),
        PlayerCardState::new(PlayerId::South, cards[0..2].to_vec(), cards[10..13].to_vec()),
    );
    assert_eq!(
        "Determinization {\n    South hands: [0, 1]\n    South deck: [10, 11, 12]\n    North hands: [4, 5]\n    North deck: []\n}\n",
        d.to_text()
    );
}

#[test]
fn mcts_playout_at_the_end_gives_the_board_scores() {
    let context = Context { all_cards: test_cards(), enabled_step_execution: false };
    let cards = sorted_cards(&context);
    let det = Determinization::new(
        PlayerCardState::new(PlayerId::South, vec![], vec![]),
        PlayerCardState::new(PlayerId::North, cards[0..4].to_vec(), vec![]),
    );
    let board = load_board_from_lines(String::from("end"), &["#####", "#oO.#", "#.pP#", "#####"]);
    let node = SimultaneousState::new(State::new(board, TURN_COUNT, 0, 0, vec![], vec![]));
    let mut rng = Mt64::new(1);
    assert_eq!(Some((2, 2)), playout(&mut rng, &node, &det));
}

#[test]
fn mcts_playout_without_cards_fails() {
    let context = Context { all_cards: test_cards(), enabled_step_execution: false };
    let cards = sorted_cards(&context);
    let det = Determinization::new(
        PlayerCardState::new(PlayerId::South, vec![], cards[4..15].to_vec()),
        PlayerCardState::new(PlayerId::North, cards[0..4].to_vec(), cards[4..15].to_vec()),
    );
    let node = SimultaneousState::new(small_board_state());
    let mut rng = Mt64::new(1);
    assert_eq!(None, playout(&mut rng, &node, &det));
}

#[test]
fn mcts_expand_takes_the_first_move_the_guess_allows() {
    let context = Context { all_cards: test_cards(), enabled_step_execution: false };
    let c = sorted_cards(&context);
    let d = |h: Vec<Card>, k: Vec<Card>| {
        Determinization::new(
            PlayerCardState::new(PlayerId::South, h, k),
            PlayerCardState::new(PlayerId::North, c[0..4].to_vec(), vec![c[4].clone()]),
        )
    };
    let traverser = Traverser::new(context.clone(), PlayerId::South, c.clone(), 42);
    let mut root = traverser.create_root_node(&small_board_state());
    let mut d1 = d(c[0..4].to_vec(), c[4..15].to_vec());
    assert_eq!(Some(0), traverser.expand(&mut root, &mut d1));
    let mut d2 = d(vec![c[3].clone(), c[5].clone(), c[6].clone(), c[7].clone()], vec![c[8].clone(), c[9].clone()]);
    let i = traverser.expand(&mut root, &mut d2).unwrap();
    assert_eq!(1, i);
    assert_eq!(2, root.child_nodes.len());
    match &root.child_nodes[1].action {
        NodeAction::PlayerAction(PlayerId::South, Action::Pass(card)) => assert_eq!(3, card.get_id()),
        _ => panic!("unexpected move"),
    }
    let hands: Vec<u32> = d2.get_cards(PlayerId::South).get_hands().iter().map(|x| x.get_id()).collect();
    let deck: Vec<u32> = d2.get_cards(PlayerId::South).get_deck().iter().map(|x| x.get_id()).collect();
    assert_eq!(vec![5, 6, 7, 8], hands);
    assert_eq!(vec![9], deck);
}

#[test]
fn mcts_iterate_at_the_end_counts_the_board_scores() {
    let context = Context { all_cards: test_cards(), enabled_step_execution: false };
    let cards = sorted_cards(&context);
    let mut det = Determinization::new(
        PlayerCardState::new(PlayerId::South, vec![], vec![]),
        PlayerCardState::new(PlayerId::North, cards[0..4].to_vec(), vec![]),
    );
    let mut traverser = Traverser::new(context.clone(), PlayerId::South, cards.clone(), 7);
    let board = load_board_from_lines(String::from("end"), &["#####", "#oOo#", "#.pP#", "#####"]);
    let mut node = traverser.create_root_node(&State::new(board, TURN_COUNT, 0, 0, vec![], vec![]));
    assert!(node.is_terminal());
    assert_eq!(Some((2, 3)), iterate(&mut traverser, &mut node, &mut det, &mut Ucb1));
    assert_eq!(1, node.statistic.total_cnt);
    assert_eq!(1, node.statistic.lose_cnt);
    assert_eq!(-1, node.statistic.value);
    assert!(node.child_nodes.is_empty());
}

#[test]
fn mcts_iterate_counts_the_result_at_the_new_child_and_on_the_way_up() {
    let context = Context { all_cards: test_cards(), enabled_step_execution: false };
    let sorted = sorted_cards(&context);
    let (hands, deck) = sorted.split_at(HAND_SIZE);
    let mut traverser = Traverser::new(context.clone(), PlayerId::South, sorted.clone(), 42);
    let mut root = traverser.create_root_node(&small_board_state());
    let det = Determinization::new(
        PlayerCardState::new(PlayerId::South, hands.to_vec(), deck.to_vec()),
        PlayerCardState::new(PlayerId::North, hands.to_vec(), deck.to_vec()),
    );
    // The first iteration adds one child, counted once like the root.
    let res = iterate(&mut traverser, &mut root, &mut det.clone(), &mut Ucb1).unwrap();
    assert_eq!(1, root.child_nodes.len());
    assert_eq!(1, root.child_nodes[0].statistic.total_cnt);
    assert_eq!(res.0 as i32 - res.1 as i32, root.child_nodes[0].statistic.value);
    assert_eq!(root.statistic.value, root.child_nodes[0].statistic.value);
    // Once every move has a child, an iteration goes down into one of them:
    // the root keeps its children, and the visits of the children add up.
    for _ in 0..5 {
        iterate(&mut traverser, &mut root, &mut det.clone(), &mut Ucb1).unwrap();
    }
    assert_eq!(5, root.child_nodes.len());
    assert_eq!(6, root.statistic.total_cnt);
    let visits: u32 = root.child_nodes.iter().map(|c| c.statistic.total_cnt).sum();
    assert_eq!(6, visits);
}
