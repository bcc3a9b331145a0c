use vstd::prelude::*;

use rand_mt::Mt64;

use crate::card::{to_ids, Card, CardView};
use crate::game::{self, Context, HAND_SIZE, TURN_COUNT};
use crate::local::{after_action, can_play, play_turn, shuffle_mt, views};
use crate::proto::{
    self, wire_to_engine, AcceptHandsResponse, JoinGameResponse, Scores, SelectActionResponse,
};
use crate::state::{can_update, spec_update_state, try_update_state, PlayerCardState, PlayerCardStateView, State, StateView};
use crate::text::{decimal, empty_string, push_str, spec_decimal};

verus! {

broadcast use vstd::seq_lib::group_to_multiset_ensures;

// ---------------------------------------------------------------------------
// Server side
// ---------------------------------------------------------------------------

/// The ids of the cards in hand.
pub open spec fn hand_ids(c: PlayerCardStateView) -> Seq<u32> {
    c.hands.map_values(|v: CardView| v.id)
}

/// The result the server reports with each turn: the scores once the last
/// turn has been played.
pub open spec fn spec_game_result(s: StateView) -> Option<Scores> {
    if s.turn == TURN_COUNT {
        Some(
            Scores {
                south_score: s.board.score(game::PlayerId::South) as u32,
                north_score: s.board.score(game::PlayerId::North) as u32,
            },
        )
    } else {
        None
    }
}

/// The answer to a player after a turn: what the opponent did, the player's
/// hands, and the result once the game is over.
pub open spec fn turn_response(
    r: SelectActionResponse,
    opponent_action: proto::Action,
    cards: PlayerCardStateView,
    s: StateView,
) -> bool {
    &&& r.opponent_action == opponent_action
    &&& r.hands@ == hand_ids(cards)
    &&& r.game_result == spec_game_result(s)
}

/// The result of the game once the last turn has been played.
fn game_result(state: &State) -> (r: Option<Scores>)
    requires
        state.board.wf(),
    ensures
        r == spec_game_result(state@),
{
    if state.is_end() {
        let (s, n) = state.board.get_scores();
        Some(Scores { south_score: s, north_score: n })
    } else {
        None
    }
}

/// The answer to a player after a turn.
fn make_turn_response(opponent_action: proto::Action, cards: &PlayerCardState, state: &State) -> (r:
    SelectActionResponse)
    requires
        state.board.wf(),
    ensures
        turn_response(r, opponent_action, cards@, state@),
{
    let hands = to_ids(cards.get_hands());
    assert(hands@ =~= hand_ids(cards@));
    SelectActionResponse { opponent_action, hands, game_result: game_result(state) }
}

/// Plays a turn of a game the server runs, from the actions both clients
/// sent, and gives the answer for south and for north. The turn is played
/// when both actions name known cards, each player holds the card used, and
/// the turn can be applied; otherwise the result is `None` and nothing
/// changes.
pub fn apply_turn(
    context: &Context,
    state: &mut State,
    south: &mut PlayerCardState,
    north: &mut PlayerCardState,
    action_s: proto::Action,
    action_n: proto::Action,
) -> (r: Option<(SelectActionResponse, SelectActionResponse)>)
    requires
        old(state).board.wf(),
    ensures
        final(state).board.wf(),
        r is Some <==> {
            &&& context.all_cards@.contains_key(action_s.card_id())
            &&& context.all_cards@.contains_key(action_n.card_id())
            &&& can_play(
                old(state)@,
                old(south)@,
                old(north)@,
                wire_to_engine(context.all_cards@, action_s),
                wire_to_engine(context.all_cards@, action_n),
            )
        },
        r matches Some((to_south, to_north)) ==> {
            &&& final(state)@ == spec_update_state(
                old(state)@,
                wire_to_engine(context.all_cards@, action_s),
                wire_to_engine(context.all_cards@, action_n),
            )
            &&& final(south)@ == after_action(old(south)@, wire_to_engine(context.all_cards@, action_s))
            &&& final(north)@ == after_action(old(north)@, wire_to_engine(context.all_cards@, action_n))
            &&& turn_response(to_south, action_n, final(south)@, final(state)@)
            &&& turn_response(to_north, action_s, final(north)@, final(state)@)
        },
        r is None ==> final(state)@ == old(state)@ && final(south)@ == old(south)@ && final(north)@ == old(north)@,
{
    if !context.has_card(action_s.get_card_id()) || !context.has_card(action_n.get_card_id()) {
        return None;
    }
    let south_action = action_s.convert(context);
    let north_action = action_n.convert(context);
    if !play_turn(state, south, north, &south_action, &north_action) {
        return None;
    }
    let to_south = make_turn_response(action_n, south, state);
    let to_north = make_turn_response(action_s, north, state);
    Some((to_south, to_north))
}

/// The cards with the given ids, each looked up in `cards`.
pub open spec fn lookup(cards: Map<u32, Card>, ids: Seq<u32>) -> Seq<CardView> {
    ids.map_values(|id: u32| cards[id]@)
}

/// Shuffles the deck of a client and offers the first `HAND_SIZE` cards as
/// its first hands.
pub fn offer_hands(deck_ids: &mut Vec<u32>, player_id: proto::PlayerId, rng: &mut Mt64) -> (r: JoinGameResponse)
    requires
        old(deck_ids)@.len() >= HAND_SIZE,
    ensures
        final(deck_ids)@.to_multiset() == old(deck_ids)@.to_multiset(),
        final(deck_ids)@.len() == old(deck_ids)@.len(),
        r.player_id == player_id,
        r.initial_hands@ == final(deck_ids)@.take(HAND_SIZE as int),
{
    shuffle_mt(deck_ids, rng);
    assert(deck_ids@.to_multiset().len() == old(deck_ids)@.to_multiset().len());
    let initial_hands = take_ids(deck_ids, HAND_SIZE);
    JoinGameResponse { player_id, initial_hands }
}

/// The first `n` ids.
fn take_ids(ids: &Vec<u32>, n: usize) -> (r: Vec<u32>)
    requires
        n <= ids@.len(),
    ensures
        r@ == ids@.take(n as int),
{
    let mut r: Vec<u32> = Vec::new();
    let mut i: usize = 0;
    while i < n
        invariant
            n <= ids@.len(),
            0 <= i <= n,
            r@ == ids@.take(i as int),
        decreases n - i,
    {
        r.push(ids[i]);
        assert(r@ =~= ids@.take(i + 1));
        i += 1;
    }
    r
}

/// The ids after the first `n`.
fn skip_ids(ids: &Vec<u32>, n: usize) -> (r: Vec<u32>)
    requires
        n <= ids@.len(),
    ensures
        r@ == ids@.skip(n as int),
{
    let mut r: Vec<u32> = Vec::new();
    let mut i: usize = n;
    while i < ids.len()
        invariant
            n <= i <= ids@.len(),
            r@ == ids@.subrange(n as int, i as int),
        decreases ids@.len() - i,
    {
        r.push(ids[i]);
        assert(r@ =~= ids@.subrange(n as int, i + 1));
        i += 1;
    }
    assert(r@ =~= ids@.skip(n as int));
    r
}

/// Settles the hands of a client once it answered the offer: when it refused
/// them the deck is shuffled again. The first `HAND_SIZE` cards become the
/// hands and the rest the deck. The result is `None`, with the deck as it
/// was, when an id of the deck names no known card.
pub fn settle_hands(
    context: &Context,
    deck_ids: &mut Vec<u32>,
    player_id: proto::PlayerId,
    accept: bool,
    rng: &mut Mt64,
) -> (r: Option<(AcceptHandsResponse, PlayerCardState)>)
    requires
        old(deck_ids)@.len() >= HAND_SIZE,
    ensures
        final(deck_ids)@.to_multiset() == old(deck_ids)@.to_multiset(),
        final(deck_ids)@.len() == old(deck_ids)@.len(),
        accept ==> final(deck_ids)@ == old(deck_ids)@,
        r is Some <==> forall|i: int| 0 <= i < old(deck_ids)@.len() ==> context.all_cards@.contains_key(#[trigger] old(deck_ids)@[i]),
        r is None ==> final(deck_ids)@ == old(deck_ids)@,
        r matches Some((res, cards)) ==> {
            &&& res.hands@ == final(deck_ids)@.take(HAND_SIZE as int)
            &&& cards@ == PlayerCardStateView {
                player_id: proto::spec_to_engine_player(player_id),
                hands: lookup(context.all_cards@, final(deck_ids)@.take(HAND_SIZE as int)),
                deck: lookup(context.all_cards@, final(deck_ids)@.skip(HAND_SIZE as int)),
            }
        },
{
    if !context.has_cards(deck_ids.as_slice()) {
        return None;
    }
    let ghost before = deck_ids@;
    if !accept {
        shuffle_mt(deck_ids, rng);
        assert(deck_ids@.to_multiset().len() == before.to_multiset().len());
        assert forall|i: int| 0 <= i < deck_ids@.len() implies context.all_cards@.contains_key(#[trigger] deck_ids@[i]) by {
            assert(deck_ids@.contains(deck_ids@[i]));
            assert(deck_ids@.to_multiset().count(deck_ids@[i]) > 0);
            assert(before.contains(deck_ids@[i]));
        }
    }
    let hand_ids = take_ids(deck_ids, HAND_SIZE);
    let rest_ids = skip_ids(deck_ids, HAND_SIZE);
    let hands = context.get_cards(hand_ids.as_slice());
    let deck = context.get_cards(rest_ids.as_slice());
    assert(views(hands@) =~= lookup(context.all_cards@, deck_ids@.take(HAND_SIZE as int)));
    assert(views(deck@) =~= lookup(context.all_cards@, deck_ids@.skip(HAND_SIZE as int)));
    let cards = PlayerCardState::new(game::PlayerId::from(player_id), hands, deck);
    Some((AcceptHandsResponse { hands: hand_ids }, cards))
}

// ---------------------------------------------------------------------------
// Client side
// ---------------------------------------------------------------------------

/// The actions of a turn as (south, north), from a player's own action and
/// the opponent's.
pub open spec fn by_seat<A>(me: proto::PlayerId, mine: A, theirs: A) -> (A, A) {
    match me {
        proto::PlayerId::Sourth => (mine, theirs),
        proto::PlayerId::North => (theirs, mine),
    }
}

/// Plays a turn on a client, once the server answered the client's action:
/// the state takes both actions and the new hands are returned. The turn is
/// played when the answer names only known cards and the turn can be
/// applied; otherwise the result is `None` and the state is unchanged.
pub fn client_turn(
    context: &Context,
    state: &mut State,
    my_id: proto::PlayerId,
    my_action: &game::Action,
    res: &SelectActionResponse,
) -> (r: Option<Vec<Card>>)
    requires
        old(state).board.wf(),
    ensures
        final(state).board.wf(),
        r is Some <==> {
            &&& context.all_cards@.contains_key(res.opponent_action.card_id())
            &&& forall|i: int| 0 <= i < res.hands@.len() ==> context.all_cards@.contains_key(#[trigger] res.hands@[i])
            &&& can_update(
                old(state)@,
                by_seat(my_id, my_action@, wire_to_engine(context.all_cards@, res.opponent_action)).0,
                by_seat(my_id, my_action@, wire_to_engine(context.all_cards@, res.opponent_action)).1,
            )
        },
        r matches Some(hands) ==> {
            &&& views(hands@) == lookup(context.all_cards@, res.hands@)
            &&& final(state)@ == spec_update_state(
                old(state)@,
                by_seat(my_id, my_action@, wire_to_engine(context.all_cards@, res.opponent_action)).0,
                by_seat(my_id, my_action@, wire_to_engine(context.all_cards@, res.opponent_action)).1,
            )
        },
        r is None ==> final(state)@ == old(state)@,
{
    if !context.has_card(res.opponent_action.get_card_id()) || !context.has_cards(res.hands.as_slice()) {
        return None;
    }
    let opponent_action = res.opponent_action.convert(context);
    my_action.get_consumed_card().ensure_wf();
    opponent_action.get_consumed_card().ensure_wf();
    let applied = match my_id {
        proto::PlayerId::Sourth => try_update_state(state, my_action, &opponent_action),
        proto::PlayerId::North => try_update_state(state, &opponent_action, my_action),
    };
    if !applied {
        return None;
    }
    let hands = context.get_cards(res.hands.as_slice());
    assert(views(hands@) =~= lookup(context.all_cards@, res.hands@));
    Some(hands)
}

/// The outcome of a game seen by one player.
#[derive(Clone, Copy, Debug, PartialEq, Eq, Structural)]
pub struct GameResult {
    pub my_score: u32,
    pub opponent_score: u32,
}

/// The text form of a game result: `GameResult[WIN (3, 2)]`, with `LOSE`,
/// `DRAW` or `WIN` from the player's side, then both scores.
pub open spec fn spec_game_result_text(r: GameResult) -> Seq<char> {
    "GameResult["@ + (if r.my_score < r.opponent_score {
        "LOSE"@
    } else if r.my_score == r.opponent_score {
        "DRAW"@
    } else {
        "WIN"@
    }) + " ("@ + spec_decimal(r.my_score as int) + ", "@ + spec_decimal(r.opponent_score as int) + ")]"@
}

/// The result for the player `me` from the final scores of both sides.
pub open spec fn spec_from_scores(me: proto::PlayerId, scores: Scores) -> GameResult {
    GameResult {
        my_score: by_seat(me, scores.south_score, scores.north_score).0,
        opponent_score: by_seat(me, scores.south_score, scores.north_score).1,
    }
}

/// Both players see the same game: the score of one is the opponent score of
/// the other, and one wins exactly when the other loses.
pub proof fn lemma_results_mirror(scores: Scores)
    ensures
        ({
            let s = spec_from_scores(proto::PlayerId::Sourth, scores);
            let n = spec_from_scores(proto::PlayerId::North, scores);
            &&& s.my_score == n.opponent_score
            &&& s.opponent_score == n.my_score
            &&& (s.my_score > s.opponent_score <==> n.my_score < n.opponent_score)
            &&& (s.my_score == s.opponent_score <==> n.my_score == n.opponent_score)
        }),
{
}

/// An action survives the wire: sent as its wire form and looked up again
/// in cards that know its card, it is the same action.
pub proof fn lemma_action_wire_round_trip(cards: Map<u32, Card>, a: game::ActionView)
    requires
        cards.contains_key(a.card().id),
        cards[a.card().id]@ == a.card(),
    ensures
        wire_to_engine(cards, proto::spec_from_engine_action(a)) == a,
{
    match a {
        game::ActionView::Pass(_) => {},
        game::ActionView::Put(_, p) => {
            proto::lemma_wire_round_trip(
                crate::board::BoardCell::Wall,
                proto::BoardCell::Wall,
                p.rotation,
                proto::spec_from_engine_rotation(p.rotation),
                p,
                proto::spec_from_engine_position(p),
            );
        },
        game::ActionView::Special(_, p) => {
            proto::lemma_wire_round_trip(
                crate::board::BoardCell::Wall,
                proto::BoardCell::Wall,
                p.rotation,
                proto::spec_from_engine_rotation(p.rotation),
                p,
                proto::spec_from_engine_position(p),
            );
        },
    }
}

/// Clients follow the server: when a client sends its action in wire form
/// and the server relays the opponent's, the turn the client plays is the
/// turn the server plays, provided the cards know the client's card.
pub proof fn lemma_client_follows_server(
    cards: Map<u32, Card>,
    s: StateView,
    me: proto::PlayerId,
    mine: game::ActionView,
    theirs: proto::Action,
)
    requires
        cards.contains_key(mine.card().id),
        cards[mine.card().id]@ == mine.card(),
    ensures
        ({
            let wire = by_seat(me, proto::spec_from_engine_action(mine), theirs);
            let client = by_seat(me, mine, wire_to_engine(cards, theirs));
            spec_update_state(s, client.0, client.1) == spec_update_state(
                s,
                wire_to_engine(cards, wire.0),
                wire_to_engine(cards, wire.1),
            )
        }),
{
    lemma_action_wire_round_trip(cards, mine);
}

impl GameResult {
    /// The result for the player `me` from the final scores of both sides.
    pub fn from_scores(me: proto::PlayerId, scores: Scores) -> (r: GameResult)
        ensures
            r == spec_from_scores(me, scores),
    {
        match me {
            proto::PlayerId::Sourth => GameResult {
                my_score: scores.south_score,
                opponent_score: scores.north_score,
            },
            proto::PlayerId::North => GameResult {
                my_score: scores.north_score,
                opponent_score: scores.south_score,
            },
        }
    }

    /// The text form of the result.
    pub fn to_text(&self) -> (r: String)
        ensures
            r@ == spec_game_result_text(*self),
    {
        let mut out = empty_string();
        push_str(&mut out, "GameResult[");
        if self.my_score < self.opponent_score {
            push_str(&mut out, "LOSE");
        } else if self.my_score == self.opponent_score {
            push_str(&mut out, "DRAW");
        } else {
            push_str(&mut out, "WIN");
        }
        push_str(&mut out, " (");
        push_str(&mut out, decimal(self.my_score as i64).as_str());
        push_str(&mut out, ", ");
        push_str(&mut out, decimal(self.opponent_score as i64).as_str());
        push_str(&mut out, ")]");
        out
    }
}

} // verus!
