use vstd::prelude::*;

use rand::seq::SliceRandom;
use rand_mt::Mt64;

use crate::board::Board;
use crate::card::{Card, CardView};
use crate::game::{Action, ActionView, Context, PlayerId, DECK_SIZE, HAND_SIZE, TURN_COUNT};
use crate::players::Player;
use crate::state::{
    can_update, copy_cards, has_id, spec_consume, spec_draw, spec_update_state, try_update_state,
    update_player_state, PlayerCardState, PlayerCardStateView, State, StateView,
};

verus! {

broadcast use vstd::seq_lib::group_to_multiset_ensures;

// ---------------------------------------------------------------------------
// Random numbers
// ---------------------------------------------------------------------------

/// The 64-bit Mersenne Twister of `rand_mt`, used wherever a game needs a
/// reproducible random order.
#[verifier::external_type_specification]
#[verifier::external_body]
pub struct ExMt64(rand_mt::Mt19937GenRand64);

/// `SliceRandom::shuffle` of `rand` driven by a Mersenne Twister. The
/// generator picks the order; the contract states only that the items are
/// the same ones, each as many times as before.
#[verifier::external_body]
pub(crate) fn shuffle_mt<T>(items: &mut Vec<T>, rng: &mut Mt64)
    ensures
        final(items)@.to_multiset() == old(items)@.to_multiset(),
{
    items.shuffle(rng);
}

/// `SliceRandom::partial_shuffle` of `rand` driven by a Mersenne Twister:
/// it moves `amount` items picked by the generator to the end of the list.
/// The contract states only that the items are the same ones, each as many
/// times as before.
#[verifier::external_body]
pub(crate) fn partial_shuffle_mt<T>(items: &mut Vec<T>, rng: &mut Mt64, amount: usize)
    ensures
        final(items)@.to_multiset() == old(items)@.to_multiset(),
{
    items.partial_shuffle(rng, amount);
}

/// Mapping both sides of a permutation gives a permutation.
pub proof fn lemma_map_permutation<A, B>(s1: Seq<A>, s2: Seq<A>, f: spec_fn(A) -> B)
    requires
        s1.to_multiset() == s2.to_multiset(),
    ensures
        s1.map_values(f).to_multiset() == s2.map_values(f).to_multiset(),
    decreases s1.len(),
{
    if s1.len() == 0 {
        assert(s2.to_multiset().len() == 0);
        assert(s1.map_values(f) =~= Seq::<B>::empty());
        assert(s2.map_values(f) =~= Seq::<B>::empty());
    } else {
        let a = s1.last();
        assert(s1.drop_last() =~= s1.remove(s1.len() - 1));
        assert(s1.contains(a)) by {
            assert(s1[s1.len() - 1] == a);
        }
        assert(s2.to_multiset().count(a) > 0);
        assert(s2.contains(a));
        let i = s2.index_of(a);
        lemma_map_permutation(s1.drop_last(), s2.remove(i), f);
        assert(s1.map_values(f) =~= s1.drop_last().map_values(f).push(f(a)));
        assert(s2.remove(i).map_values(f) =~= s2.map_values(f).remove(i));
        let m2 = s2.map_values(f);
        assert(m2[i] == f(a));
        assert(m2.remove(i).to_multiset() =~= m2.to_multiset().remove(f(a)));
        assert(m2.contains(f(a))) by {
            assert(m2[i] == f(a));
        }
        assert(m2.to_multiset().count(f(a)) > 0);
        assert(m2.to_multiset() =~= m2.to_multiset().remove(f(a)).insert(f(a)));
    }
}

// ---------------------------------------------------------------------------
// Dealing
// ---------------------------------------------------------------------------

/// The views of a list of cards.
pub open spec fn views(cards: Seq<Card>) -> Seq<crate::card::CardView> {
    cards.map_values(|c: Card| c@)
}

/// The cards of a player after dealing: `HAND_SIZE` cards in hand, the rest in
/// the deck, together the dealt cards in some order.
pub open spec fn dealt_from(r: PlayerCardStateView, player_id: PlayerId, deck: Seq<crate::card::CardView>) -> bool {
    &&& r.player_id == player_id
    &&& r.hands.len() == HAND_SIZE
    &&& (r.hands + r.deck).to_multiset() == deck.to_multiset()
}

/// Splits cards into the first `HAND_SIZE` and the rest.
fn split_hands(cards: &Vec<Card>) -> (r: (Vec<Card>, Vec<Card>))
    requires
        cards@.len() >= HAND_SIZE,
    ensures
        views(r.0@) == views(cards@).take(HAND_SIZE as int),
        views(r.1@) == views(cards@).skip(HAND_SIZE as int),
{
    let mut hands: Vec<Card> = Vec::new();
    let mut deck: Vec<Card> = Vec::new();
    let mut i: usize = 0;
    while i < cards.len()
        invariant
            cards@.len() >= HAND_SIZE,
            0 <= i <= cards@.len(),
            i <= HAND_SIZE ==> views(hands@) == views(cards@).take(i as int) && deck@.len() == 0,
            i > HAND_SIZE ==> views(hands@) == views(cards@).take(HAND_SIZE as int) && views(deck@)
                == views(cards@).subrange(HAND_SIZE as int, i as int),
        decreases cards@.len() - i,
    {
        let c = cards[i].clone();
        if i < HAND_SIZE {
            hands.push(c);
            assert(views(hands@) =~= views(cards@).take(i + 1));
            assert(deck@.len() == 0);
        } else {
            deck.push(c);
            assert(views(deck@) =~= views(cards@).subrange(HAND_SIZE as int, i + 1));
            assert(views(hands@) =~= views(cards@).take(HAND_SIZE as int));
        }
        i += 1;
    }
    if cards.len() == HAND_SIZE {
        assert(views(deck@) =~= views(cards@).skip(HAND_SIZE as int));
    } else {
        assert(views(deck@) =~= views(cards@).skip(HAND_SIZE as int));
    }
    (hands, deck)
}

/// Deals the cards of a player: shuffles the deck, lets the player ask once
/// for a new deal, and takes the first `HAND_SIZE` cards as the hands.
pub fn deal_hands<P: Player>(rng: &mut Mt64, deck: &[Card], player_id: PlayerId, player: &mut P) -> (r:
    PlayerCardState)
    requires
        deck@.len() >= HAND_SIZE,
    ensures
        dealt_from(r@, player_id, views(deck@)),
{
    let mut cards = copy_cards(deck);
    let ghost before_shuffle = cards@;
    assert(views(cards@).len() == views(deck@).len());
    shuffle_mt(&mut cards, rng);
    assert(cards@.to_multiset().len() == before_shuffle.to_multiset().len());
    let (first, _) = split_hands(&cards);
    if player.need_redeal_hands(first.as_slice()) {
        shuffle_mt(&mut cards, rng);
    }
    assert(cards@.to_multiset() == before_shuffle.to_multiset());
    let (hands, rest) = split_hands(&cards);
    proof {
        lemma_map_permutation(cards@, before_shuffle, |c: Card| c@);
        let vc = views(cards@);
        assert(vc.take(HAND_SIZE as int) + vc.skip(HAND_SIZE as int) =~= vc);
        assert(views(hands@) + views(rest@) == vc);
        assert(views(before_shuffle) =~= views(deck@));
    }
    PlayerCardState::new(player_id, hands, rest)
}

// ---------------------------------------------------------------------------
// Turns
// ---------------------------------------------------------------------------

/// Whether a turn can be played: each action uses a card its player holds,
/// and the turn can be applied to the state.
pub open spec fn can_play(
    s: StateView,
    south: PlayerCardStateView,
    north: PlayerCardStateView,
    sa: ActionView,
    na: ActionView,
) -> bool {
    &&& has_id(south.hands, sa.card().id)
    &&& has_id(north.hands, na.card().id)
    &&& can_update(s, sa, na)
}

/// The cards of a player after the player took `a`.
pub open spec fn after_action(c: PlayerCardStateView, a: ActionView) -> PlayerCardStateView {
    spec_draw(spec_consume(c, a.card().id))
}

/// Plays one turn when it can be played, and tells whether it was: the state
/// takes both actions, each player gives up the card used and draws the next
/// one. When the turn cannot be played nothing changes.
pub fn play_turn(
    state: &mut State,
    south: &mut PlayerCardState,
    north: &mut PlayerCardState,
    south_action: &Action,
    north_action: &Action,
) -> (r: bool)
    requires
        old(state).board.wf(),
    ensures
        final(state).board.wf(),
        r == can_play(old(state)@, old(south)@, old(north)@, south_action@, north_action@),
        r ==> final(state)@ == spec_update_state(old(state)@, south_action@, north_action@),
        r ==> final(south)@ == after_action(old(south)@, south_action@),
        r ==> final(north)@ == after_action(old(north)@, north_action@),
        !r ==> final(state)@ == old(state)@ && final(south)@ == old(south)@ && final(north)@ == old(north)@,
{
    if !south.has_card_in_hands(south_action.get_consumed_card()) {
        return false;
    }
    if !north.has_card_in_hands(north_action.get_consumed_card()) {
        return false;
    }
    south_action.get_consumed_card().ensure_wf();
    north_action.get_consumed_card().ensure_wf();
    if !try_update_state(state, south_action, north_action) {
        return false;
    }
    update_player_state(south, south_action);
    update_player_state(north, north_action);
    true
}

// ---------------------------------------------------------------------------
// A whole game
// ---------------------------------------------------------------------------

/// The state at the start of a game on a board.
pub open spec fn initial_state(b: crate::board::BoardView) -> StateView {
    StateView {
        board: b,
        turn: 0,
        player_special_count: 0,
        opponent_special_count: 0,
        player_consumed_cards: Seq::empty(),
        opponent_consumed_cards: Seq::empty(),
    }
}

/// Whether `s` is reached from `s0` by `n` turns that can each be applied.
pub open spec fn reachable(s0: StateView, s: StateView, n: nat) -> bool
    decreases n,
{
    if n == 0 {
        s == s0
    } else {
        exists|prev: StateView, pa: ActionView, oa: ActionView|
            reachable(s0, prev, (n - 1) as nat) && can_update(prev, pa, oa) && #[trigger] spec_update_state(
                prev,
                pa,
                oa,
            ) == s
    }
}

/// One whole turn played from the players' cards: south plays `pa` from its
/// hand in `cs` and north plays `oa` from its hand in `cn`; the turn can be
/// applied and leads to `t`, and each side gives up the card it used and
/// draws, giving `ct` and `cnt`.
pub open spec fn hand_turn(
    s: StateView,
    cs: PlayerCardStateView,
    cn: PlayerCardStateView,
    pa: ActionView,
    oa: ActionView,
    t: StateView,
    ct: PlayerCardStateView,
    cnt: PlayerCardStateView,
) -> bool {
    &&& can_update(s, pa, oa)
    &&& has_id(cs.hands, pa.card().id)
    &&& has_id(cn.hands, oa.card().id)
    &&& t == spec_update_state(s, pa, oa)
    &&& ct == spec_draw(spec_consume(cs, pa.card().id))
    &&& cnt == spec_draw(spec_consume(cn, oa.card().id))
}

/// Whether `n` whole turns, each side playing from its own hand, lead
/// from state `s` with guessed cards `(cs, cn)` to state `t` with `(ct, cnt)`.
pub open spec fn plays_from_hands(
    s: StateView,
    cs: PlayerCardStateView,
    cn: PlayerCardStateView,
    t: StateView,
    ct: PlayerCardStateView,
    cnt: PlayerCardStateView,
    n: nat,
) -> bool
    decreases n,
{
    if n == 0 {
        t == s && ct == cs && cnt == cn
    } else {
        exists|m: StateView, mc: PlayerCardStateView, mn: PlayerCardStateView, pa: ActionView, oa: ActionView|
            #![trigger hand_turn(m, mc, mn, pa, oa, t, ct, cnt)]
            plays_from_hands(s, cs, cn, m, mc, mn, (n - 1) as nat) && hand_turn(m, mc, mn, pa, oa, t, ct, cnt)
    }
}

/// One more whole turn from own hands extends a playout by one turn.
pub proof fn lemma_plays_step(
    s: StateView,
    cs: PlayerCardStateView,
    cn: PlayerCardStateView,
    m: StateView,
    mc: PlayerCardStateView,
    mn: PlayerCardStateView,
    pa: ActionView,
    oa: ActionView,
    t: StateView,
    ct: PlayerCardStateView,
    cnt: PlayerCardStateView,
    n: nat,
)
    requires
        plays_from_hands(s, cs, cn, m, mc, mn, n),
        hand_turn(m, mc, mn, pa, oa, t, ct, cnt),
    ensures
        plays_from_hands(s, cs, cn, t, ct, cnt, n + 1),
{
    let n1: nat = (n + 1) as nat;
    assert((n1 - 1) as nat == n);
    assert(plays_from_hands(s, cs, cn, m, mc, mn, (n1 - 1) as nat) && hand_turn(m, mc, mn, pa, oa, t, ct, cnt));
    assert(plays_from_hands(s, cs, cn, t, ct, cnt, n1));
}

/// Whether `(p, o)` are the scores of a game played on board `b`: the scores
/// of south and north on the board after `TURN_COUNT` turns that each could be
/// applied.
pub open spec fn possible_result(b: crate::board::BoardView, p: u32, o: u32) -> bool {
    exists|s: StateView|
        #[trigger] reachable(initial_state(b), s, TURN_COUNT as nat) && p == s.board.score(PlayerId::South) && o
            == s.board.score(PlayerId::North)
}

/// Whether `(p, o)` are the scores of a game on board `b` in which south was
/// dealt from `south_deck` and north from `north_deck`, and every turn each
/// played a card of its own hand and drew: the scores of south and north on
/// the board after `TURN_COUNT` such turns.
pub open spec fn played_result(b: crate::board::BoardView, south_deck: Seq<CardView>, north_deck: Seq<CardView>, p: u32, o: u32) -> bool {
    exists|cs: PlayerCardStateView, cn: PlayerCardStateView, t: StateView, ct: PlayerCardStateView, cnt: PlayerCardStateView|
        #![trigger plays_from_hands(initial_state(b), cs, cn, t, ct, cnt, TURN_COUNT as nat)]
        {
            &&& dealt_from(cs, PlayerId::South, south_deck)
            &&& dealt_from(cn, PlayerId::North, north_deck)
            &&& plays_from_hands(initial_state(b), cs, cn, t, ct, cnt, TURN_COUNT as nat)
            &&& p == t.board.score(PlayerId::South)
            &&& o == t.board.score(PlayerId::North)
        }
}

/// What is shown each turn of a game as it is played: the turn (counted
/// from one), the state once the turn is played, and the two actions. The
/// step-by-step mode of the command line prints them and waits.
pub trait TurnWatcher {
    fn turn_played(&mut self, turn: i32, state: &State, south_action: &Action, north_action: &Action);
}

/// A watcher that shows nothing.
pub struct NoWatcher;

impl TurnWatcher for NoWatcher {
    fn turn_played(&mut self, turn: i32, state: &State, south_action: &Action, north_action: &Action) {
    }
}

/// Plays a whole game between two players on `board` and returns the scores
/// (south, north). Each deck is shuffled and dealt; then both players act on
/// every turn. The result is `None` when a player picks an action that cannot
/// be played.
pub fn run<P: Player, Q: Player>(
    context: &Context,
    board: &Board,
    player_deck: &[Card],
    opponent_deck: &[Card],
    player: &mut P,
    opponent: &mut Q,
    rng: &mut Mt64,
) -> (r: Option<(u32, u32)>)
    requires
        board.wf(),
        player_deck@.len() == DECK_SIZE,
        opponent_deck@.len() == DECK_SIZE,
    ensures
        r matches Some((p, o)) ==> possible_result(board@, p, o),
        r matches Some((p, o)) ==> played_result(board@, views(player_deck@), views(opponent_deck@), p, o),
{
    run_watched(context, board, player_deck, opponent_deck, player, opponent, rng, &mut NoWatcher)
}

/// `run`, showing each turn once it is played to `watcher`.
pub fn run_watched<P: Player, Q: Player, W: TurnWatcher>(
    context: &Context,
    board: &Board,
    player_deck: &[Card],
    opponent_deck: &[Card],
    player: &mut P,
    opponent: &mut Q,
    rng: &mut Mt64,
    watcher: &mut W,
) -> (r: Option<(u32, u32)>)
    requires
        board.wf(),
        player_deck@.len() == DECK_SIZE,
        opponent_deck@.len() == DECK_SIZE,
    ensures
        r matches Some((p, o)) ==> possible_result(board@, p, o),
        r matches Some((p, o)) ==> played_result(board@, views(player_deck@), views(opponent_deck@), p, o),
{
    player.init_game(PlayerId::South, context, copy_cards(player_deck));
    opponent.init_game(PlayerId::North, context, copy_cards(opponent_deck));

    let mut player_state = deal_hands(rng, player_deck, PlayerId::South, player);
    let mut opponent_state = deal_hands(rng, opponent_deck, PlayerId::North, opponent);
    proof {
        let pv = player_state@.hands + player_state@.deck;
        let ov = opponent_state@.hands + opponent_state@.deck;
        assert(pv.to_multiset().len() == views(player_deck@).to_multiset().len());
        assert(ov.to_multiset().len() == views(opponent_deck@).to_multiset().len());
        assert(views(player_deck@).len() == DECK_SIZE);
        assert(views(opponent_deck@).len() == DECK_SIZE);
        assert(pv.len() == DECK_SIZE);
        assert(ov.len() == DECK_SIZE);
    }

    let ghost cs0 = player_state@;
    let ghost cn0 = opponent_state@;
    let mut state = State::new(board.clone(), 0, 0, 0, Vec::new(), Vec::new());
    let ghost s0 = state@;
    assert(s0 == initial_state(board@));
    let mut turn: i32 = 0;
    while turn < TURN_COUNT
        invariant
            0 <= turn <= TURN_COUNT,
            state.board.wf(),
            reachable(s0, state@, turn as nat),
            s0 == initial_state(board@),
            dealt_from(cs0, PlayerId::South, views(player_deck@)),
            dealt_from(cn0, PlayerId::North, views(opponent_deck@)),
            plays_from_hands(s0, cs0, cn0, state@, player_state@, opponent_state@, turn as nat),
            turn < TURN_COUNT ==> player_state@.hands.len() == HAND_SIZE,
            turn < TURN_COUNT ==> opponent_state@.hands.len() == HAND_SIZE,
            turn < TURN_COUNT ==> player_state@.deck.len() + turn == DECK_SIZE - HAND_SIZE,
            turn < TURN_COUNT ==> opponent_state@.deck.len() + turn == DECK_SIZE - HAND_SIZE,
        decreases TURN_COUNT - turn,
    {
        let player_action = player.get_action(&state, player_state.get_hands());
        let opponent_action = opponent.get_action(&state, opponent_state.get_hands());
        let ghost prev = state@;
        let ghost ps = player_state@;
        let ghost os = opponent_state@;
        if !play_turn(&mut state, &mut player_state, &mut opponent_state, &player_action, &opponent_action) {
            return None;
        }
        proof {
            assert(spec_update_state(prev, player_action@, opponent_action@) == state@);
            assert(reachable(s0, state@, (turn + 1) as nat));
            assert(hand_turn(prev, ps, os, player_action@, opponent_action@, state@, player_state@, opponent_state@));
            lemma_plays_step(s0, cs0, cn0, prev, ps, os, player_action@, opponent_action@, state@, player_state@, opponent_state@, turn as nat);
            crate::state::lemma_first_index_in_range(ps.hands, player_action@.card().id);
            crate::state::lemma_first_index_in_range(os.hands, opponent_action@.card().id);
        }
        watcher.turn_played(turn + 1, &state, &player_action, &opponent_action);
        turn += 1;
    }
    let scores = state.board.get_scores();
    proof {
        assert(reachable(initial_state(board@), state@, TURN_COUNT as nat));
        assert(plays_from_hands(initial_state(board@), cs0, cn0, state@, player_state@, opponent_state@, TURN_COUNT as nat));
    }
    Some(scores)
}

/// Every turn advances the turn counter by one and records one used card for
/// each player; so a game of `TURN_COUNT` turns from the start of a game ends
/// at the last turn with `TURN_COUNT` cards used by each player.
pub proof fn lemma_reachable_progress(s0: StateView, s: StateView, n: nat)
    requires
        reachable(s0, s, n),
    ensures
        s.turn == s0.turn + n,
        s.player_consumed_cards.len() == s0.player_consumed_cards.len() + n,
        s.opponent_consumed_cards.len() == s0.opponent_consumed_cards.len() + n,
    decreases n,
{
    if n > 0 {
        let (prev, pa, oa) = choose|prev: StateView, pa: ActionView, oa: ActionView|
            reachable(s0, prev, (n - 1) as nat) && can_update(prev, pa, oa) && #[trigger] spec_update_state(prev, pa, oa)
                == s;
        lemma_reachable_progress(s0, prev, (n - 1) as nat);
    }
}

/// A result of `run` is that of a finished game: one whose last turn has been
/// played, each player having used `TURN_COUNT` cards.
pub proof fn lemma_result_is_finished_game(b: crate::board::BoardView, p: u32, o: u32)
    requires
        possible_result(b, p, o),
    ensures
        exists|s: StateView|
            #[trigger] reachable(initial_state(b), s, TURN_COUNT as nat) && s.turn == TURN_COUNT
                && s.player_consumed_cards.len() == TURN_COUNT && s.opponent_consumed_cards.len() == TURN_COUNT
                && p == s.board.score(PlayerId::South) && o == s.board.score(PlayerId::North),
{
    let s = choose|s: StateView|
        #[trigger] reachable(initial_state(b), s, TURN_COUNT as nat) && p == s.board.score(PlayerId::South) && o
            == s.board.score(PlayerId::North);
    lemma_reachable_progress(initial_state(b), s, TURN_COUNT as nat);
}

/// Copies of the last `n` cards.
fn last_cards(cards: &Vec<Card>, n: usize) -> (r: Vec<Card>)
    requires
        n <= cards@.len(),
    ensures
        views(r@) == views(cards@).skip(cards@.len() - n),
{
    let start = cards.len() - n;
    let mut r: Vec<Card> = Vec::new();
    let mut i: usize = start;
    while i < cards.len()
        invariant
            start == cards@.len() - n,
            start <= i <= cards@.len(),
            views(r@) == views(cards@).subrange(start as int, i as int),
        decreases cards@.len() - i,
    {
        let ghost before = views(r@);
        let c = cards[i].clone();
        r.push(c);
        assert(views(r@) =~= before.push(cards@[i as int]@));
        assert(views(cards@).subrange(start as int, i + 1) =~= views(cards@).subrange(start as int, i as int).push(
            cards@[i as int]@,
        ));
        assert(views(r@) =~= views(cards@).subrange(start as int, i + 1));
        i += 1;
    }
    assert(views(cards@).subrange(start as int, cards@.len() as int) =~= views(cards@).skip(start as int));
    r
}

/// Plays one game of a series between two players: each deck is
/// `DECK_SIZE` cards picked at random from the player's inventory (the
/// inventory is reordered doing so, and the deck is its last `DECK_SIZE`
/// cards), then the game is played as `run` does.
pub fn play_battle<P: Player, Q: Player>(
    context: &Context,
    board: &Board,
    player_inventory: &mut Vec<Card>,
    opponent_inventory: &mut Vec<Card>,
    player: &mut P,
    opponent: &mut Q,
    rng: &mut Mt64,
) -> (r: Option<(u32, u32)>)
    requires
        board.wf(),
        old(player_inventory)@.len() >= DECK_SIZE,
        old(opponent_inventory)@.len() >= DECK_SIZE,
    ensures
        final(player_inventory)@.to_multiset() == old(player_inventory)@.to_multiset(),
        final(opponent_inventory)@.to_multiset() == old(opponent_inventory)@.to_multiset(),
        r matches Some((p, o)) ==> possible_result(board@, p, o),
        r matches Some((p, o)) ==> played_result(
            board@,
            views(final(player_inventory)@).skip(final(player_inventory)@.len() - DECK_SIZE),
            views(final(opponent_inventory)@).skip(final(opponent_inventory)@.len() - DECK_SIZE),
            p,
            o,
        ),
{
    play_battle_watched(context, board, player_inventory, opponent_inventory, player, opponent, rng, &mut NoWatcher)
}

/// `play_battle`, showing each turn once it is played to `watcher`.
pub fn play_battle_watched<P: Player, Q: Player, W: TurnWatcher>(
    context: &Context,
    board: &Board,
    player_inventory: &mut Vec<Card>,
    opponent_inventory: &mut Vec<Card>,
    player: &mut P,
    opponent: &mut Q,
    rng: &mut Mt64,
    watcher: &mut W,
) -> (r: Option<(u32, u32)>)
    requires
        board.wf(),
        old(player_inventory)@.len() >= DECK_SIZE,
        old(opponent_inventory)@.len() >= DECK_SIZE,
    ensures
        final(player_inventory)@.to_multiset() == old(player_inventory)@.to_multiset(),
        final(opponent_inventory)@.to_multiset() == old(opponent_inventory)@.to_multiset(),
        r matches Some((p, o)) ==> possible_result(board@, p, o),
        r matches Some((p, o)) ==> played_result(
            board@,
            views(final(player_inventory)@).skip(final(player_inventory)@.len() - DECK_SIZE),
            views(final(opponent_inventory)@).skip(final(opponent_inventory)@.len() - DECK_SIZE),
            p,
            o,
        ),
{
    let ghost pn = player_inventory@.len();
    let ghost on = opponent_inventory@.len();
    partial_shuffle_mt(player_inventory, rng, DECK_SIZE);
    assert(player_inventory@.to_multiset().len() == pn);
    let player_deck = last_cards(player_inventory, DECK_SIZE);
    partial_shuffle_mt(opponent_inventory, rng, DECK_SIZE);
    assert(opponent_inventory@.to_multiset().len() == on);
    let opponent_deck = last_cards(opponent_inventory, DECK_SIZE);
    assert(views(player_deck@).len() == player_deck@.len());
    assert(views(opponent_deck@).len() == opponent_deck@.len());
    run_watched(context, board, &player_deck, &opponent_deck, player, opponent, rng, watcher)
}

} // verus!
