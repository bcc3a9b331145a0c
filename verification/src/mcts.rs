use vstd::prelude::*;

use rand::Rng;
use rand_mt::Mt64;

use crate::card::{Card, CardView};
use crate::game::{Action, ActionView, Context, PlayerId, HAND_SIZE, TURN_COUNT};
use crate::local::{hand_turn, lemma_map_permutation, lemma_plays_step, plays_from_hands, reachable, shuffle_mt, views};
use crate::text::{decimal, empty_string, push_str, spec_decimal};
use crate::players::{actions_view, append_valid_actions, cards_actions, lemma_listed_actions_use_cards, lemma_listed_actions_valid};
use crate::state::{
    action_wf, can_update, copy_cards, has_id, spec_consume, spec_draw, spec_fill, spec_is_valid_action, spec_update_state,
    try_update_state, PlayerCardState, PlayerCardStateView, State, StateView,
};

verus! {

// ---------------------------------------------------------------------------
// Statistics of a node
// ---------------------------------------------------------------------------

/// The results of the playouts through a node: how many, how many won, lost
/// and drawn by south, and the sum of south's score minus north's.
#[derive(Clone, Copy, Debug, PartialEq, Eq, Structural)]
pub struct Statistic {
    pub total_cnt: u32,
    pub win_cnt: u32,
    pub lose_cnt: u32,
    pub draw_cnt: u32,
    pub value: i32,
}

impl Default for Statistic {
    fn default() -> (r: Self)
        ensures
            r == (Statistic { total_cnt: 0, win_cnt: 0, lose_cnt: 0, draw_cnt: 0, value: 0 }),
    {
        Statistic { total_cnt: 0, win_cnt: 0, lose_cnt: 0, draw_cnt: 0, value: 0 }
    }
}

impl Statistic {
    /// Every playout counted is a win, a loss or a draw.
    pub open spec fn wf(self) -> bool {
        self.win_cnt + self.lose_cnt + self.draw_cnt == self.total_cnt
    }

    /// Counts one more playout that ended with scores `(p, o)`.
    pub fn update_with(&mut self, result: (u32, u32))
        requires
            old(self).wf(),
            old(self).total_cnt < u32::MAX,
            result.0 <= i32::MAX,
            result.1 <= i32::MAX,
            i32::MIN <= old(self).value + result.0 - result.1 <= i32::MAX,
        ensures
            final(self).wf(),
            final(self).total_cnt == old(self).total_cnt + 1,
            final(self).value == old(self).value + result.0 - result.1,
            final(self).win_cnt == old(self).win_cnt + if result.0 > result.1 { 1int } else { 0 },
            final(self).lose_cnt == old(self).lose_cnt + if result.0 < result.1 { 1int } else { 0 },
            final(self).draw_cnt == old(self).draw_cnt + if result.0 == result.1 { 1int } else { 0 },
    {
        let (p, o) = result;
        self.total_cnt = self.total_cnt + 1;
        self.value = self.value + (p as i32 - o as i32);
        if p == o {
            self.draw_cnt = self.draw_cnt + 1;
        } else if p < o {
            self.lose_cnt = self.lose_cnt + 1;
        } else {
            self.win_cnt = self.win_cnt + 1;
        }
    }

    /// How many playouts went through the node.
    pub fn get_visit_count(&self) -> (r: u32)
        ensures
            r == self.total_cnt,
    {
        self.total_cnt
    }
}

// ---------------------------------------------------------------------------
// Actions of the search tree
// ---------------------------------------------------------------------------

/// A move of chance: cards dealt to a player.
#[derive(Debug, Hash)]
pub enum ChanceAction {
    DealInitialHand(PlayerId, [Card; HAND_SIZE]),
    DealCard(PlayerId, Card),
}

/// The move that leads to a node of the search tree.
#[derive(Debug, Hash)]
pub enum NodeAction {
    Root,
    PlayerAction(PlayerId, Action),
    ChanceAction(ChanceAction),
}

// ---------------------------------------------------------------------------
// Guessed cards
// ---------------------------------------------------------------------------

/// The cards of both players as guessed by the searching player: its own
/// deck order and the opponent's hands and deck are unknown to it.
#[derive(Debug)]
pub struct Determinization {
    south: PlayerCardState,
    north: PlayerCardState,
}

/// Whether none of the ids in `consumed` is among the cards.
pub open spec fn none_consumed(cards: PlayerCardStateView, consumed: Seq<u32>) -> bool {
    forall|k: int| 0 <= k < consumed.len() ==> !has_id(cards.hands, #[trigger] consumed[k]) && !has_id(cards.deck, consumed[k])
}

impl Clone for Determinization {
    fn clone(&self) -> (r: Self)
        ensures
            r.cards_of(PlayerId::South) == self.cards_of(PlayerId::South),
            r.cards_of(PlayerId::North) == self.cards_of(PlayerId::North),
    {
        Determinization { south: self.south.clone(), north: self.north.clone() }
    }
}

impl Determinization {
    /// The guessed cards of a player.
    pub closed spec fn cards_of(&self, p: PlayerId) -> PlayerCardStateView {
        match p {
            PlayerId::South => self.south@,
            PlayerId::North => self.north@,
        }
    }

    /// The guess made of the cards of both players, given in either order.
    pub fn new(a: PlayerCardState, b: PlayerCardState) -> (r: Self)
        requires
            a@.player_id != b@.player_id,
        ensures
            r.cards_of(a@.player_id) == a@,
            r.cards_of(b@.player_id) == b@,
    {
        if a.get_player_id() == PlayerId::North {
            Determinization { south: b, north: a }
        } else {
            Determinization { south: a, north: b }
        }
    }

    /// The guessed cards of a player.
    pub fn get_cards(&self, player_id: PlayerId) -> (r: &PlayerCardState)
        ensures
            r@ == self.cards_of(player_id),
    {
        match player_id {
            PlayerId::South => &self.south,
            PlayerId::North => &self.north,
        }
    }

    /// A player uses a card it holds, then draws the next one unless `draw`
    /// is false.
    pub fn play_card(&mut self, player_id: PlayerId, card: &Card, draw: bool)
        requires
            has_id(old(self).cards_of(player_id).hands, card@.id),
        ensures
            final(self).cards_of(player_id) == if draw {
                spec_draw(spec_consume(old(self).cards_of(player_id), card@.id))
            } else {
                spec_consume(old(self).cards_of(player_id), card@.id)
            },
            final(self).cards_of(player_id.spec_another()) == old(self).cards_of(player_id.spec_another()),
    {
        match player_id {
            PlayerId::South => {
                self.south.consume_card(card);
                if draw {
                    self.south.draw_card();
                }
            },
            PlayerId::North => {
                self.north.consume_card(card);
                if draw {
                    self.north.draw_card();
                }
            },
        }
    }

    /// Whether the guess holds none of the cards `player_id` already used.
    pub fn is_consistent_for_player(&self, state: &State, player_id: PlayerId) -> (r: bool)
        ensures
            r == none_consumed(self.cards_of(player_id), crate::state::consumed_of(state@, player_id)),
    {
        let cards = self.get_cards(player_id);
        let consumed = state.get_consumed_cards(player_id);
        let mut i: usize = 0;
        while i < consumed.len()
            invariant
                0 <= i <= consumed@.len(),
                consumed@ == crate::state::consumed_of(state@, player_id),
                cards@ == self.cards_of(player_id),
                forall|k: int| 0 <= k < i ==> !has_id(cards@.hands, #[trigger] consumed@[k]) && !has_id(cards@.deck, consumed@[k]),
            decreases consumed@.len() - i,
        {
            let id = consumed[i];
            if cards.has_id_in_hands(id) || cards.has_id_in_deck(id) {
                return false;
            }
            i += 1;
        }
        true
    }

    /// Whether the guess holds none of the cards either player already used.
    pub fn is_consistent(&self, state: &State) -> (r: bool)
        ensures
            r == (none_consumed(self.cards_of(PlayerId::South), crate::state::consumed_of(state@, PlayerId::South))
                && none_consumed(self.cards_of(PlayerId::North), crate::state::consumed_of(state@, PlayerId::North))),
    {
        self.is_consistent_for_player(state, PlayerId::South) && self.is_consistent_for_player(state, PlayerId::North)
    }
}


/// The ids of cards, in order.
pub open spec fn view_ids(cards: Seq<CardView>) -> Seq<u32> {
    cards.map_values(|c: CardView| c.id)
}

/// Ids separated by a comma and a space.
pub open spec fn spec_joined(ids: Seq<u32>) -> Seq<char>
    decreases ids.len(),
{
    if ids.len() == 0 {
        Seq::empty()
    } else if ids.len() == 1 {
        spec_decimal(ids[0] as int)
    } else {
        spec_joined(ids.drop_last()) + ", "@ + spec_decimal(ids.last() as int)
    }
}

/// Ids written as a list in brackets, as `Debug` writes a list of numbers.
pub open spec fn spec_id_list(ids: Seq<u32>) -> Seq<char> {
    "["@ + spec_joined(ids) + "]"@
}

/// The text of the ids of cards written as a list.
fn id_list(cards: &[Card]) -> (r: String)
    ensures
        r@ == spec_id_list(view_ids(cards@.map_values(|c: Card| c@))),
{
    let ghost ids = view_ids(cards@.map_values(|c: Card| c@));
    let mut out = empty_string();
    push_str(&mut out, "[");
    let mut i: usize = 0;
    while i < cards.len()
        invariant
            0 <= i <= cards@.len(),
            ids == view_ids(cards@.map_values(|c: Card| c@)),
            out@ == "["@ + spec_joined(ids.take(i as int)),
        decreases cards@.len() - i,
    {
        let ghost before = out@;
        if i > 0 {
            push_str(&mut out, ", ");
        }
        let id = cards[i].get_id();
        push_str(&mut out, decimal(id as i64).as_str());
        proof {
            assert(ids.take(i + 1).drop_last() =~= ids.take(i as int));
            assert(ids.take(i + 1).last() == id);
            if i == 0 {
                assert(ids.take(1).len() == 1);
                assert(ids.take(1)[0] == id);
            }
            assert(out@ =~= "["@ + spec_joined(ids.take(i + 1)));
        }
        i += 1;
    }
    push_str(&mut out, "]");
    assert(ids.take(cards@.len() as int) =~= ids);
    out
}

/// The text form of a guess: the ids of the hands and of the deck of each
/// player.
pub open spec fn spec_determinization_text(south: PlayerCardStateView, north: PlayerCardStateView) -> Seq<char> {
    "Determinization {\n"@ + "    South hands: "@ + spec_id_list(view_ids(south.hands)) + "\n"@ + "    South deck: "@
        + spec_id_list(view_ids(south.deck)) + "\n"@ + "    North hands: "@ + spec_id_list(view_ids(north.hands))
        + "\n"@ + "    North deck: "@ + spec_id_list(view_ids(north.deck)) + "\n"@ + "}\n"@
}

impl Determinization {
    /// The text form of the guess.
    pub fn to_text(&self) -> (r: String)
        ensures
            r@ == spec_determinization_text(self.cards_of(PlayerId::South), self.cards_of(PlayerId::North)),
    {
        let south = self.get_cards(PlayerId::South);
        let north = self.get_cards(PlayerId::North);
        let mut out = empty_string();
        push_str(&mut out, "Determinization {\n");
        push_str(&mut out, "    South hands: ");
        push_str(&mut out, id_list(south.get_hands()).as_str());
        push_str(&mut out, "\n");
        push_str(&mut out, "    South deck: ");
        push_str(&mut out, id_list(south.get_deck()).as_str());
        push_str(&mut out, "\n");
        push_str(&mut out, "    North hands: ");
        push_str(&mut out, id_list(north.get_hands()).as_str());
        push_str(&mut out, "\n");
        push_str(&mut out, "    North deck: ");
        push_str(&mut out, id_list(north.get_deck()).as_str());
        push_str(&mut out, "\n");
        push_str(&mut out, "}\n");
        out
    }
}

// ---------------------------------------------------------------------------
// Turns with one action chosen
// ---------------------------------------------------------------------------

/// A state of the game in which each player may already have chosen the
/// action of the current turn. The turn is played once both have.
#[derive(Debug)]
pub struct SimultaneousState {
    pub south_action: Option<Action>,
    pub north_action: Option<Action>,
    pub state: State,
}

/// The view of an optional action.
pub open spec fn opt_view(a: Option<Action>) -> Option<ActionView> {
    match a {
        Some(x) => Some(x@),
        None => None,
    }
}

/// A copy of an optional action.
fn copy_action(a: &Option<Action>) -> (r: Option<Action>)
    ensures
        opt_view(r) == opt_view(*a),
{
    match a {
        Some(x) => Some(x.clone()),
        None => None,
    }
}

/// The actions waiting after player `p` chose `a`.
pub open spec fn pending_after(
    south: Option<ActionView>,
    north: Option<ActionView>,
    p: PlayerId,
    a: ActionView,
) -> (Option<ActionView>, Option<ActionView>) {
    match p {
        PlayerId::South => (Some(a), north),
        PlayerId::North => (south, Some(a)),
    }
}

/// Whether choosing `a` completes the turn and the turn cannot be applied.
pub open spec fn move_blocked(
    south: Option<ActionView>,
    north: Option<ActionView>,
    s: StateView,
    p: PlayerId,
    a: ActionView,
) -> bool {
    let pend = pending_after(south, north, p, a);
    pend.0 is Some && pend.1 is Some && !can_update(s, pend.0->0, pend.1->0)
}

/// Whether `(next_south, next_north, next)` is what follows from player `p`
/// choosing `a`: the turn is played once both actions are chosen, else the
/// action waits.
pub open spec fn moved_to(
    south: Option<ActionView>,
    north: Option<ActionView>,
    s: StateView,
    p: PlayerId,
    a: ActionView,
    next_south: Option<ActionView>,
    next_north: Option<ActionView>,
    next: StateView,
) -> bool {
    let pend = pending_after(south, north, p, a);
    if pend.0 is Some && pend.1 is Some {
        next_south is None && next_north is None && next == spec_update_state(s, pend.0->0, pend.1->0)
    } else {
        next_south == pend.0 && next_north == pend.1 && next == s
    }
}

impl SimultaneousState {
    /// A state in which no action has been chosen yet.
    pub fn new(state: State) -> (r: Self)
        ensures
            r.south_action is None,
            r.north_action is None,
            r.state == state,
    {
        SimultaneousState { south_action: None, north_action: None, state }
    }

    pub fn get_state(&self) -> (r: &State)
        ensures
            r == &self.state,
    {
        &self.state
    }

    pub fn get_turn(&self) -> (r: i32)
        ensures
            r == self.state.turn,
    {
        self.state.turn
    }

    /// The game is over: the last turn has been played and no action waits.
    pub fn is_end(&self) -> (r: bool)
        ensures
            r == (self.south_action is None && self.north_action is None && self.state@.turn == TURN_COUNT),
    {
        self.south_action.is_none() && self.north_action.is_none() && self.state.is_end()
    }

    /// Whether the player has chosen its action for this turn.
    pub fn action_is_filled(&self, player_id: PlayerId) -> (r: bool)
        ensures
            r == match player_id {
                PlayerId::South => self.south_action is Some,
                PlayerId::North => self.north_action is Some,
            },
    {
        match player_id {
            PlayerId::South => self.south_action.is_some(),
            PlayerId::North => self.north_action.is_some(),
        }
    }

    /// Whether both players have chosen their action.
    pub fn both_actions_filled(&self) -> (r: bool)
        ensures
            r == (self.south_action is Some && self.north_action is Some),
    {
        self.south_action.is_some() && self.north_action.is_some()
    }

    /// The state after a player chose its action. Once both have, the turn
    /// is played and no action waits any more; the result is `None` when the
    /// turn cannot be applied.
    pub fn with_action(self, node_action: NodeAction) -> (r: Option<Self>)
        requires
            self.state.board.wf(),
            node_action matches NodeAction::PlayerAction(p, _) && match p {
                PlayerId::South => self.south_action is None,
                PlayerId::North => self.north_action is None,
            },
        ensures
            node_action matches NodeAction::PlayerAction(p, a) ==> {
                &&& r is None <==> move_blocked(opt_view(self.south_action), opt_view(self.north_action), self.state@, p, a@)
                &&& r matches Some(n) ==> n.state.board.wf() && moved_to(
                    opt_view(self.south_action),
                    opt_view(self.north_action),
                    self.state@,
                    p,
                    a@,
                    opt_view(n.south_action),
                    opt_view(n.north_action),
                    n.state@,
                )
            },
    {
        let mut south_action = self.south_action;
        let mut north_action = self.north_action;
        let mut state = self.state;
        match node_action {
            NodeAction::PlayerAction(PlayerId::South, act) => {
                south_action = Some(act);
            },
            NodeAction::PlayerAction(PlayerId::North, act) => {
                north_action = Some(act);
            },
            _ => {
                assert(false);
            },
        }
        match (south_action, north_action) {
            (Some(sa), Some(na)) => {
                sa.get_consumed_card().ensure_wf();
                na.get_consumed_card().ensure_wf();
                if try_update_state(&mut state, &sa, &na) {
                    Some(SimultaneousState { south_action: None, north_action: None, state })
                } else {
                    None
                }
            },
            (sa, na) => Some(SimultaneousState { south_action: sa, north_action: na, state }),
        }
    }
}

// ---------------------------------------------------------------------------
// Playouts
// ---------------------------------------------------------------------------

/// `Rng::gen_range(0..n)` of `rand` with a Mersenne Twister: an index below
/// `n`, picked by the generator.
#[verifier::external_body]
fn random_index(rng: &mut Mt64, n: usize) -> (r: usize)
    requires
        n > 0,
    ensures
        r < n,
{
    rng.gen_range(0..n)
}

/// Picks one of the actions `append_valid_actions` lists for the hands, at
/// random.
pub fn choose_random_player_action(rng: &mut Mt64, state: &State, player_id: PlayerId, hands: &[Card]) -> (r:
    Action)
    requires
        state.board.wf(),
        hands@.len() > 0,
    ensures
        cards_actions(state@, player_id, views(hands@)).contains(r@),
        spec_is_valid_action(state@, player_id, r@),
        views(hands@).contains(r@.card()),
{
    let mut acts: Vec<Action> = Vec::new();
    append_valid_actions(state, hands, player_id, &mut acts);
    let ghost listed = cards_actions(state@, player_id, views(hands@));
    proof {
        assert(actions_view(acts@) =~= listed);
        lemma_listed_actions_use_cards(state@, player_id, views(hands@));
        lemma_listed_actions_valid(state@, player_id, views(hands@));
        assert(listed.contains(ActionView::Pass(views(hands@)[0])));
        assert(acts@.len() == listed.len());
    }
    let i = random_index(rng, acts.len());
    let a = acts.swap_remove(i);
    proof {
        assert(listed[i as int] == a@);
        assert(listed.contains(a@));
    }
    a
}

/// Whether a game from `s0` can end, after turns that can each be applied,
/// with scores `p` for south and `o` for north.
pub open spec fn can_finish_with(s0: StateView, p: u32, o: u32) -> bool {
    exists|n: nat, s: StateView|
        #[trigger] reachable(s0, s, n) && s.turn == TURN_COUNT && p == s.board.score(PlayerId::South) && o
            == s.board.score(PlayerId::North)
}

/// The first step of a playout: with no action waiting nothing happens; with
/// one waiting, the other side completes the turn with `ra`, a card of its
/// own guessed hand, and draws unless it is the last turn.
pub open spec fn first_step(
    sa: Option<ActionView>,
    na: Option<ActionView>,
    s0: StateView,
    cs: PlayerCardStateView,
    cn: PlayerCardStateView,
    ra: ActionView,
    s1: StateView,
    cs1: PlayerCardStateView,
    cn1: PlayerCardStateView,
) -> bool {
    match (sa, na) {
        (None, None) => s1 == s0 && cs1 == cs && cn1 == cn,
        (None, Some(a)) => {
            &&& has_id(cs.hands, ra.card().id)
            &&& can_update(s0, ra, a)
            &&& s1 == spec_update_state(s0, ra, a)
            &&& cs1 == after_play(cs, ra.card().id, s0.turn != TURN_COUNT - 1)
            &&& cn1 == cn
        },
        (Some(a), None) => {
            &&& has_id(cn.hands, ra.card().id)
            &&& can_update(s0, a, ra)
            &&& s1 == spec_update_state(s0, a, ra)
            &&& cs1 == cs
            &&& cn1 == after_play(cn, ra.card().id, s0.turn != TURN_COUNT - 1)
        },
        (Some(_), Some(_)) => false,
    }
}

/// Whether a playout from state `s0` with waiting actions `(sa, na)` and
/// guessed cards `(cs, cn)` can end with scores `p` for south and `o` for
/// north: after the first step, whole turns are played, each side from its
/// own guessed hand, up to the end of the game.
pub open spec fn playout_result(
    sa: Option<ActionView>,
    na: Option<ActionView>,
    s0: StateView,
    cs: PlayerCardStateView,
    cn: PlayerCardStateView,
    p: u32,
    o: u32,
) -> bool {
    exists|
        ra: ActionView,
        s1: StateView,
        cs1: PlayerCardStateView,
        cn1: PlayerCardStateView,
        n: nat,
        t: StateView,
        ct: PlayerCardStateView,
        cnt: PlayerCardStateView,
    |
        #![trigger first_step(sa, na, s0, cs, cn, ra, s1, cs1, cn1), plays_from_hands(s1, cs1, cn1, t, ct, cnt, n)]
        {
            &&& first_step(sa, na, s0, cs, cn, ra, s1, cs1, cn1)
            &&& plays_from_hands(s1, cs1, cn1, t, ct, cnt, n)
            &&& t.turn == TURN_COUNT
            &&& p == t.board.score(PlayerId::South)
            &&& o == t.board.score(PlayerId::North)
        }
}

/// Whether guessed cards can supply one card a turn for `n` more turns,
/// drawing after each.
pub open spec fn enough_cards(c: PlayerCardStateView, n: int) -> bool {
    n <= 0 || (c.hands.len() >= 1 && c.hands.len() + c.deck.len() >= n)
}

/// Whether no guessed card has a negative special cost.
pub open spec fn costs_nonneg(c: PlayerCardStateView) -> bool {
    &&& forall|i: int| 0 <= i < c.hands.len() ==> #[trigger] c.hands[i].special_cost >= 0
    &&& forall|i: int| 0 <= i < c.deck.len() ==> #[trigger] c.deck[i].special_cost >= 0
}

/// Whether a waiting action, if any, is valid for its player and costs no
/// negative special points.
pub open spec fn pending_ok(a: Option<Action>, s: StateView, p: PlayerId) -> bool {
    a matches Some(x) ==> spec_is_valid_action(s, p, x@) && x@.card().special_cost >= 0
}

/// When a playout is owed a result: before the last turn, with special
/// points that cannot leave `i32` however the game goes, cards of no negative
/// special cost, a valid waiting action, and enough guessed cards for each
/// side to play every turn it still has to play.
pub open spec fn playout_owed(node: SimultaneousState, cs: PlayerCardStateView, cn: PlayerCardStateView) -> bool {
    let s = node.state@;
    let rest = TURN_COUNT - s.turn;
    let area = s.board.width() * s.board.height();
    &&& 0 <= s.turn < TURN_COUNT
    &&& 0 <= s.player_special_count && s.player_special_count + area + TURN_COUNT <= i32::MAX
    &&& 0 <= s.opponent_special_count && s.opponent_special_count + area + TURN_COUNT <= i32::MAX
    &&& costs_nonneg(cs)
    &&& costs_nonneg(cn)
    &&& pending_ok(node.south_action, s, PlayerId::South)
    &&& pending_ok(node.north_action, s, PlayerId::North)
    &&& enough_cards(cs, rest - if node.south_action is Some { 1int } else { 0 })
    &&& enough_cards(cn, rest - if node.north_action is Some { 1int } else { 0 })
}

/// A turn of valid actions whose cards cost no negative special points keeps
/// special points non-negative and raises a player's points minus its
/// surrounded special inks by at most one; so within the bounds it can be
/// applied.
proof fn lemma_turn_in_bounds(s: StateView, pa: ActionView, oa: ActionView, bs: int, bn: int)
    requires
        s.board.wf(),
        action_wf(pa),
        action_wf(oa),
        spec_is_valid_action(s, PlayerId::South, pa),
        spec_is_valid_action(s, PlayerId::North, oa),
        pa.card().special_cost >= 0,
        oa.card().special_cost >= 0,
        s.turn < i32::MAX,
        s.player_special_count >= 0,
        s.opponent_special_count >= 0,
        s.player_special_count - s.board.surrounded_count(PlayerId::South) <= bs,
        s.opponent_special_count - s.board.surrounded_count(PlayerId::North) <= bn,
        bs + 1 + s.board.width() * s.board.height() <= i32::MAX,
        bn + 1 + s.board.width() * s.board.height() <= i32::MAX,
    ensures
        can_update(s, pa, oa),
        ({
            let u = spec_update_state(s, pa, oa);
            &&& u.board.width() == s.board.width()
            &&& u.board.height() == s.board.height()
            &&& u.player_special_count >= 0
            &&& u.opponent_special_count >= 0
            &&& u.player_special_count - u.board.surrounded_count(PlayerId::South) <= bs + 1
            &&& u.opponent_special_count - u.board.surrounded_count(PlayerId::North) <= bn + 1
        }),
{
    let b = s.board;
    let nb = spec_fill(b, pa, oa);
    assert(nb.width() == b.width() && nb.height() == b.height()) by {
        assert(b.grid[0].len() == b.width());
    }
    crate::board::lemma_board_dims(b);
    crate::state::lemma_surrounded_never_decreases(s, pa, oa, PlayerId::South);
    crate::state::lemma_surrounded_never_decreases(s, pa, oa, PlayerId::North);
    crate::board::lemma_count_grid_bound(nb.width(), nb.height(), nb.surrounded_pred(PlayerId::South));
    crate::board::lemma_count_grid_bound(nb.width(), nb.height(), nb.surrounded_pred(PlayerId::North));
}

/// Playing a card of the hand and drawing (or not drawing, when it is the
/// last play) leaves enough cards for the remaining turns, and no card of
/// negative special cost.
proof fn lemma_play_keeps_cards(c: PlayerCardStateView, id: u32, n: int, draw: bool)
    requires
        has_id(c.hands, id),
        n >= 1,
        draw || n == 1,
        enough_cards(c, n),
        costs_nonneg(c),
    ensures
        enough_cards(after_play(c, id, draw), n - 1),
        costs_nonneg(after_play(c, id, draw)),
{
    crate::state::lemma_first_index_in_range(c.hands, id);
    let k = crate::state::first_index_of(c.hands, id);
    let m = spec_consume(c, id);
    assert(m.hands.len() == c.hands.len() - 1);
    assert forall|i: int| 0 <= i < m.hands.len() implies #[trigger] m.hands[i].special_cost >= 0 by {
        if i < k {
            assert(m.hands[i] == c.hands[i]);
        } else {
            assert(m.hands[i] == c.hands[i + 1]);
        }
    }
    if draw {
        let t = spec_draw(m);
        if m.deck.len() > 0 {
            assert forall|i: int| 0 <= i < t.hands.len() implies #[trigger] t.hands[i].special_cost >= 0 by {
                if i < m.hands.len() {
                    assert(t.hands[i] == m.hands[i]);
                } else {
                    assert(t.hands[i] == m.deck[0]);
                }
            }
            assert forall|i: int| 0 <= i < t.deck.len() implies #[trigger] t.deck[i].special_cost >= 0 by {
                assert(t.deck[i] == m.deck[i + 1]);
            }
        }
    }
}

/// Plays the game of a node to its end with random actions from the guessed
/// cards and gives the scores (south, north). A waiting action is completed
/// first by the other side; then both sides play every turn, each with a
/// card of its own guessed hand, drawing after each turn. The result is
/// `None` when a player has no card to play or a turn cannot be applied; it
/// is owed (see `playout_owed`) before the last turn when each side holds
/// enough cards and special points cannot overflow. At the end of the game
/// it is the scores on the board; past the end it is `None`.
pub fn playout(rng: &mut Mt64, node: &SimultaneousState, determinization: &Determinization) -> (r: Option<(u32, u32)>)
    requires
        node.state.board.wf(),
        !(node.south_action is Some && node.north_action is Some),
    ensures
        r matches Some((p, o)) ==> can_finish_with(node.state@, p, o),
        r matches Some((p, o)) ==> playout_result(
            opt_view(node.south_action),
            opt_view(node.north_action),
            node.state@,
            determinization.cards_of(PlayerId::South),
            determinization.cards_of(PlayerId::North),
            p,
            o,
        ),
        playout_owed(*node, determinization.cards_of(PlayerId::South), determinization.cards_of(PlayerId::North))
            ==> r is Some,
        node.south_action is None && node.north_action is None && node.state@.turn == TURN_COUNT ==> (r matches Some((p, o))
            && p == node.state@.board.score(PlayerId::South) && o == node.state@.board.score(PlayerId::North)),
        node.south_action is None && node.north_action is None && node.state@.turn > TURN_COUNT ==> r is None,
        node.state@.turn < TURN_COUNT && ((node.south_action is None && determinization.cards_of(
            PlayerId::South,
        ).hands.len() == 0) || (node.north_action is None && determinization.cards_of(PlayerId::North).hands.len()
            == 0)) ==> r is None,
{
    let ghost s0 = node.state@;
    let ghost cs0 = determinization.cards_of(PlayerId::South);
    let ghost cn0 = determinization.cards_of(PlayerId::North);
    let ghost sa0 = opt_view(node.south_action);
    let ghost na0 = opt_view(node.north_action);
    let ghost owed = playout_owed(*node, cs0, cn0);
    let ghost area = s0.board.width() * s0.board.height();
    let mut simul = SimultaneousState {
        south_action: copy_action(&node.south_action),
        north_action: copy_action(&node.north_action),
        state: node.state.clone(),
    };
    let mut p_state = determinization.get_cards(PlayerId::South).clone();
    let mut o_state = determinization.get_cards(PlayerId::North).clone();
    let south_filled = node.action_is_filled(PlayerId::South);
    let north_filled = node.action_is_filled(PlayerId::North);
    let ghost mut steps: nat = 0;
    let ghost both_open = !south_filled && !north_filled;
    let ghost mut ra_g: ActionView = arbitrary();
    assert(reachable(s0, simul.state@, 0));
    if !south_filled && north_filled {
        let hands = p_state.get_hands();
        if hands.len() == 0 {
            return None;
        }
        let rand_act = choose_random_player_action(rng, &simul.state, PlayerId::South, hands);
        let ghost prev = simul.state@;
        let ghost na = opt_view(simul.north_action)->0;
        let ghost k = choose|k: int| 0 <= k < p_state@.hands.len() && p_state@.hands[k] == rand_act@.card();
        proof {
            assert(p_state@.hands[k].id == rand_act@.card().id);
        }
        rand_act.get_consumed_card().ensure_wf();
        match &simul.north_action {
            Some(x) => x.get_consumed_card().ensure_wf(),
            None => {},
        }
        proof {
            if owed {
                lemma_turn_in_bounds(
                    prev,
                    rand_act@,
                    na,
                    s0.player_special_count,
                    s0.opponent_special_count,
                );
                lemma_play_keeps_cards(cs0, rand_act@.card().id, TURN_COUNT - s0.turn, s0.turn != TURN_COUNT - 1);
            }
        }
        p_state.consume_card(rand_act.get_consumed_card());
        if simul.get_turn() != TURN_COUNT - 1 {
            p_state.draw_card();
        }
        let ghost ra = rand_act@;
        match simul.with_action(NodeAction::PlayerAction(PlayerId::South, rand_act)) {
            Some(next) => {
                simul = next;
            },
            None => {
                return None;
            },
        }
        proof {
            assert(spec_update_state(prev, ra, na) == simul.state@);
            assert(reachable(s0, simul.state@, 1));
            steps = 1;
            ra_g = ra;
        }
    }
    if !north_filled && south_filled {
        let hands = o_state.get_hands();
        if hands.len() == 0 {
            return None;
        }
        let rand_act = choose_random_player_action(rng, &simul.state, PlayerId::North, hands);
        let ghost prev = simul.state@;
        let ghost sa = opt_view(simul.south_action)->0;
        let ghost k = choose|k: int| 0 <= k < o_state@.hands.len() && o_state@.hands[k] == rand_act@.card();
        proof {
            assert(o_state@.hands[k].id == rand_act@.card().id);
        }
        rand_act.get_consumed_card().ensure_wf();
        match &simul.south_action {
            Some(x) => x.get_consumed_card().ensure_wf(),
            None => {},
        }
        proof {
            if owed {
                lemma_turn_in_bounds(
                    prev,
                    sa,
                    rand_act@,
                    s0.player_special_count,
                    s0.opponent_special_count,
                );
                lemma_play_keeps_cards(cn0, rand_act@.card().id, TURN_COUNT - s0.turn, s0.turn != TURN_COUNT - 1);
            }
        }
        o_state.consume_card(rand_act.get_consumed_card());
        if simul.get_turn() != TURN_COUNT - 1 {
            o_state.draw_card();
        }
        let ghost ra = rand_act@;
        match simul.with_action(NodeAction::PlayerAction(PlayerId::North, rand_act)) {
            Some(next) => {
                simul = next;
            },
            None => {
                return None;
            },
        }
        proof {
            assert(spec_update_state(prev, sa, ra) == simul.state@);
            assert(reachable(s0, simul.state@, 1));
            steps = 1;
            ra_g = ra;
        }
    }
    let mut state = simul.state;
    let ghost s1 = state@;
    let ghost cs1 = p_state@;
    let ghost cn1 = o_state@;
    let ghost mut k: nat = 0;
    assert(first_step(sa0, na0, s0, cs0, cn0, ra_g, s1, cs1, cn1));
    assert(plays_from_hands(s1, cs1, cn1, state@, p_state@, o_state@, 0));
    if state.turn > TURN_COUNT {
        return None;
    }
    while !state.is_end()
        invariant
            state.board.wf(),
            state.turn <= TURN_COUNT,
            reachable(s0, state@, steps),
            s0 == node.state@,
            both_open == (node.south_action is None && node.north_action is None),
            both_open && steps == 0 ==> state@ == s0 && p_state@ == determinization.cards_of(PlayerId::South)
                && o_state@ == determinization.cards_of(PlayerId::North),
            both_open && s0.turn == TURN_COUNT ==> steps == 0,
            both_open && s0.turn < TURN_COUNT && (determinization.cards_of(PlayerId::South).hands.len() == 0
                || determinization.cards_of(PlayerId::North).hands.len() == 0) ==> steps == 0,
            first_step(sa0, na0, s0, cs0, cn0, ra_g, s1, cs1, cn1),
            plays_from_hands(s1, cs1, cn1, state@, p_state@, o_state@, k),
            owed == playout_owed(*node, determinization.cards_of(PlayerId::South), determinization.cards_of(PlayerId::North)),
            owed ==> {
                &&& 0 <= s0.turn
                &&& area == s0.board.width() * s0.board.height()
                &&& s0.player_special_count + area + TURN_COUNT <= i32::MAX
                &&& s0.opponent_special_count + area + TURN_COUNT <= i32::MAX
                &&& state@.board.width() == s0.board.width()
                &&& state@.board.height() == s0.board.height()
                &&& state@.turn >= s0.turn
                &&& state@.player_special_count >= 0
                &&& state@.opponent_special_count >= 0
                &&& state@.player_special_count - state@.board.surrounded_count(PlayerId::South)
                    <= s0.player_special_count + (state@.turn - s0.turn)
                &&& state@.opponent_special_count - state@.board.surrounded_count(PlayerId::North)
                    <= s0.opponent_special_count + (state@.turn - s0.turn)
                &&& enough_cards(p_state@, TURN_COUNT - state@.turn)
                &&& enough_cards(o_state@, TURN_COUNT - state@.turn)
                &&& costs_nonneg(p_state@)
                &&& costs_nonneg(o_state@)
            },
        decreases TURN_COUNT - state.turn,
    {
        let p_hands = p_state.get_hands();
        let o_hands = o_state.get_hands();
        if p_hands.len() == 0 || o_hands.len() == 0 {
            return None;
        }
        let p_act = choose_random_player_action(rng, &state, PlayerId::South, p_hands);
        let o_act = choose_random_player_action(rng, &state, PlayerId::North, o_hands);
        let ghost prev = state@;
        let ghost ps = p_state@;
        let ghost os = o_state@;
        assert(plays_from_hands(s1, cs1, cn1, prev, ps, os, k));
        p_act.get_consumed_card().ensure_wf();
        o_act.get_consumed_card().ensure_wf();
        let ghost kp = choose|kp: int| 0 <= kp < p_state@.hands.len() && p_state@.hands[kp] == p_act@.card();
        let ghost ko = choose|ko: int| 0 <= ko < o_state@.hands.len() && o_state@.hands[ko] == o_act@.card();
        proof {
            assert(p_state@.hands[kp].id == p_act@.card().id);
            assert(o_state@.hands[ko].id == o_act@.card().id);
            if owed {
                lemma_turn_in_bounds(
                    prev,
                    p_act@,
                    o_act@,
                    s0.player_special_count + (prev.turn - s0.turn),
                    s0.opponent_special_count + (prev.turn - s0.turn),
                );
                lemma_play_keeps_cards(ps, p_act@.card().id, TURN_COUNT - prev.turn, true);
                lemma_play_keeps_cards(os, o_act@.card().id, TURN_COUNT - prev.turn, true);
            }
        }
        if !try_update_state(&mut state, &p_act, &o_act) {
            return None;
        }
        crate::state::update_player_state(&mut p_state, &p_act);
        crate::state::update_player_state(&mut o_state, &o_act);
        proof {
            assert(spec_update_state(prev, p_act@, o_act@) == state@);
            assert(reachable(s0, state@, steps + 1));
            steps = steps + 1;
            assert(hand_turn(prev, ps, os, p_act@, o_act@, state@, p_state@, o_state@));
            lemma_plays_step(s1, cs1, cn1, prev, ps, os, p_act@, o_act@, state@, p_state@, o_state@, k);
            k = k + 1;
        }
    }
    let scores = state.board.get_scores();
    assert(reachable(s0, state@, steps));
    assert(plays_from_hands(s1, cs1, cn1, state@, p_state@, o_state@, k));
    Some(scores)
}

// ---------------------------------------------------------------------------
// Legal actions and guesses
// ---------------------------------------------------------------------------

/// Whether `n` is the move of `p` taking an action equal to `a`.
pub open spec fn is_move_of(n: NodeAction, p: PlayerId, a: ActionView) -> bool {
    n matches NodeAction::PlayerAction(q, b) && q == p && b@ == a
}

/// The actions a player is considered to have: those of its hands, and for
/// the opponent of the searching player those of its deck too, since the
/// guessed hands change from one playout to the next.
pub open spec fn legal_actions_for(
    s: StateView,
    cards: PlayerCardStateView,
    player_id: PlayerId,
    me: PlayerId,
) -> Seq<ActionView> {
    cards_actions(s, player_id, cards.hands) + if player_id != me {
        cards_actions(s, player_id, cards.deck)
    } else {
        Seq::empty()
    }
}

/// The moves of `player_id` with the actions it is considered to have.
pub fn precalculate_valid_actions(
    state: &State,
    cards_state: &PlayerCardState,
    player_id: PlayerId,
    me: PlayerId,
) -> (r: Vec<NodeAction>)
    requires
        state.board.wf(),
    ensures
        r@.len() == legal_actions_for(state@, cards_state@, player_id, me).len(),
        forall|i: int|
            0 <= i < r@.len() ==> is_move_of(#[trigger] r@[i], player_id, legal_actions_for(state@, cards_state@, player_id, me)[i]),
{
    let mut valid_actions: Vec<Action> = Vec::new();
    let hands = cards_state.get_hands();
    append_valid_actions(state, hands, player_id, &mut valid_actions);
    assert(views(hands@) == cards_state@.hands);
    if player_id != me {
        let deck = cards_state.get_deck();
        append_valid_actions(state, deck, player_id, &mut valid_actions);
        assert(views(deck@) == cards_state@.deck);
    }
    let ghost expected = legal_actions_for(state@, cards_state@, player_id, me);
    assert(actions_view(valid_actions@) =~= expected);
    let mut r: Vec<NodeAction> = Vec::new();
    let mut i: usize = 0;
    while i < valid_actions.len()
        invariant
            0 <= i <= valid_actions@.len(),
            actions_view(valid_actions@) == expected,
            r@.len() == i,
            forall|k: int| 0 <= k < i ==> is_move_of(#[trigger] r@[k], player_id, expected[k]),
        decreases valid_actions@.len() - i,
    {
        assert(valid_actions@[i as int]@ == expected[i as int]);
        r.push(NodeAction::PlayerAction(player_id, valid_actions[i].clone()));
        i += 1;
    }
    r
}

/// The list after taking out item `i`, the last item taking its place.
pub open spec fn swap_removed<A>(s: Seq<A>, i: int) -> Seq<A> {
    s.update(i, s.last()).drop_last()
}

/// The cards after taking out the first card with the given id, if any.
pub open spec fn filter_one(cards: Seq<CardView>, id: u32) -> Seq<CardView> {
    if has_id(cards, id) {
        swap_removed(cards, crate::state::first_index_of(cards, id))
    } else {
        cards
    }
}

/// The cards after taking out, for each id in turn, the first card with it.
pub open spec fn filter_all(cards: Seq<CardView>, ids: Seq<u32>) -> Seq<CardView>
    decreases ids.len(),
{
    if ids.len() == 0 {
        cards
    } else {
        filter_one(filter_all(cards, ids.drop_last()), ids.last())
    }
}

/// Takes out of `cards`, for each id of `remove_card_ids` in turn, the first
/// card with that id, the last card taking its place. Tells whether a card
/// was found for every id.
pub fn filter_cards(cards: &mut Vec<Card>, remove_card_ids: &[u32]) -> (r: bool)
    ensures
        views(final(cards)@) == filter_all(views(old(cards)@), remove_card_ids@),
        r == (final(cards)@.len() + remove_card_ids@.len() == old(cards)@.len()),
{
    let ghost start = views(cards@);
    let mut found_all = true;
    let mut k: usize = 0;
    while k < remove_card_ids.len()
        invariant
            0 <= k <= remove_card_ids@.len(),
            views(cards@) == filter_all(start, remove_card_ids@.take(k as int)),
            start.len() == old(cards)@.len(),
            found_all ==> cards@.len() + k == start.len(),
            !found_all ==> cards@.len() + k > start.len(),
            cards@.len() <= start.len(),
        decreases remove_card_ids@.len() - k,
    {
        let id = remove_card_ids[k];
        let ghost before = views(cards@);
        let ghost old_len = cards@.len();
        assert(remove_card_ids@.take(k + 1).drop_last() =~= remove_card_ids@.take(k as int));
        assert(remove_card_ids@.take(k + 1).last() == id);
        let mut i: usize = 0;
        let mut removed = false;
        while i < cards.len()
            invariant_except_break
                0 <= i <= cards@.len(),
                !removed,
                views(cards@) == before,
                forall|j: int| 0 <= j < i ==> #[trigger] before[j].id != id,
            ensures
                removed ==> has_id(before, id) && views(cards@) == filter_one(before, id),
                !removed ==> views(cards@) == before && !has_id(before, id),
            decreases cards@.len() - i,
        {
            if cards[i].get_id() == id {
                proof {
                    crate::state::lemma_first_index_of(before, id, i as int);
                }
                cards.swap_remove(i);
                assert(views(cards@) =~= swap_removed(before, i as int));
                assert(has_id(before, id)) by {
                    assert(before[i as int].id == id);
                }
                removed = true;
                break;
            }
            i += 1;
        }
        assert(views(cards@).len() == cards@.len());
        assert(before.len() == old_len);
        if removed {
            proof {
                crate::state::lemma_first_index_in_range(before, id);
            }
            assert(filter_one(before, id).len() + 1 == before.len());
        } else {
            found_all = false;
        }
        assert(views(cards@) == filter_one(before, id));
        k += 1;
    }
    assert(remove_card_ids@.take(remove_card_ids@.len() as int) =~= remove_card_ids@);
    found_all
}

/// Whether `v` is the view of one of the cards of `cards`.
pub open spec fn is_view_of_one(cards: Set<Card>, v: CardView) -> bool {
    exists|c: Card| cards.contains(c) && c@ == v
}

/// A copy of every card of a map, in the order the map gives them.
pub(crate) fn collect_cards(all: &std::collections::HashMap<u32, Card>) -> (r: Vec<Card>)
    ensures
        r@.len() == all@.dom().len(),
        forall|i: int| 0 <= i < r@.len() ==> is_view_of_one(all@.values(), #[trigger] r@[i]@),
{
    let mut r: Vec<Card> = Vec::new();
    for c in it: all.values()
        invariant
            r@.len() == it.index(),
            it.seq().unref().to_set() == all@.values(),
            it.seq().len() == all@.dom().len(),
            forall|k: int| 0 <= k < r@.len() ==> is_view_of_one(all@.values(), #[trigger] r@[k]@),
    {
        proof {
            let v = *it.seq()[it.index() as int];
            assert(it.seq().unref()[it.index() as int] == v);
            assert(it.seq().unref().contains(v));
            assert(all@.values().contains(v));
            assert(*c == v);
        }
        let ghost before = r@;
        let copy = c.clone();
        assert(is_view_of_one(all@.values(), copy@));
        r.push(copy);
        proof {
            assert forall|k: int| 0 <= k < r@.len() implies is_view_of_one(all@.values(), #[trigger] r@[k]@) by {
                if k < before.len() {
                    assert(r@[k] == before[k]);
                }
            }
        }
    }
    r
}

/// Splits cards into the first `HAND_SIZE` and the rest.
fn split_at_hand(cards: &Vec<Card>) -> (r: (Vec<Card>, Vec<Card>))
    requires
        cards@.len() >= HAND_SIZE,
    ensures
        views(r.0@) + views(r.1@) == views(cards@),
        r.0@.len() == HAND_SIZE,
{
    let mut hands: Vec<Card> = Vec::new();
    let mut deck: Vec<Card> = Vec::new();
    let mut i: usize = 0;
    while i < cards.len()
        invariant
            0 <= i <= cards@.len(),
            cards@.len() >= HAND_SIZE,
            i <= HAND_SIZE ==> hands@.len() == i && deck@.len() == 0,
            i > HAND_SIZE ==> hands@.len() == HAND_SIZE,
            views(hands@) + views(deck@) == views(cards@).take(i as int),
        decreases cards@.len() - i,
    {
        let c = cards[i].clone();
        let ghost h0 = views(hands@);
        let ghost d0 = views(deck@);
        if i < HAND_SIZE {
            hands.push(c);
            assert(views(hands@) =~= h0.push(cards@[i as int]@));
            assert(views(deck@) =~= d0);
        } else {
            deck.push(c);
            assert(views(deck@) =~= d0.push(cards@[i as int]@));
            assert(views(hands@) =~= h0);
        }
        assert(views(cards@).take(i + 1) =~= views(cards@).take(i as int).push(cards@[i as int]@));
        assert(views(hands@) + views(deck@) =~= views(cards@).take(i + 1));
        i += 1;
    }
    assert(views(cards@).take(cards@.len() as int) =~= views(cards@));
    (hands, deck)
}

/// The searching player's guess of the game, used for each playout.
pub struct Traverser {
    pub context: Context,
    pub player_id: PlayerId,
    pub my_initial_deck: Vec<Card>,
    pub rng: Mt64,
}

/// `Mt64::new` of `rand_mt`: a Mersenne Twister started from `seed`. Nothing
/// is stated of the generator, which Verus sees as an opaque value.
#[verifier::external_body]
fn seeded_mt64(seed: u64) -> Mt64 {
    Mt64::new(seed)
}

impl Traverser {
    pub fn new(context: Context, player_id: PlayerId, player_initial_deck: Vec<Card>, seed: u64) -> (r: Self)
        ensures
            r.context == context,
            r.player_id == player_id,
            r.my_initial_deck@ == player_initial_deck@,
    {
        Traverser { context, player_id, my_initial_deck: player_initial_deck, rng: seeded_mt64(seed) }
    }

    /// A guess of the opponent's cards: every known card but those the
    /// opponent used, in a random order, the first `HAND_SIZE` in hand. The
    /// result is `None` when a used card is not among the known ones or fewer
    /// than `HAND_SIZE` cards are left.
    pub fn determinize_another_deck(&mut self, state: &State) -> (r: Option<PlayerCardState>)
        ensures
            final(self).player_id == old(self).player_id,
            final(self).my_initial_deck@ == old(self).my_initial_deck@,
            exists|all: Seq<CardView>|
                #![trigger filter_all(all, crate::state::consumed_of(state@, old(self).player_id.spec_another()))]
                {
                    let used = crate::state::consumed_of(state@, old(self).player_id.spec_another());
                    let rest = filter_all(all, used);
                    &&& all.len() == old(self).context.all_cards@.dom().len()
                    &&& forall|i: int| 0 <= i < all.len() ==> is_view_of_one(old(self).context.all_cards@.values(), #[trigger] all[i])
                    &&& r is None <==> (rest.len() + used.len() != all.len() || rest.len() < HAND_SIZE)
                    &&& r matches Some(c) ==> {
                        &&& c@.player_id == old(self).player_id.spec_another()
                        &&& c@.hands.len() == HAND_SIZE
                        &&& (c@.hands + c@.deck).to_multiset() == rest.to_multiset()
                    }
                },
    {
        let another_player_id = self.player_id.another();
        let mut all_cards = collect_cards(&self.context.all_cards);
        let ghost collected = all_cards@;
        let ghost all = views(collected);
        let ghost used = crate::state::consumed_of(state@, old(self).player_id.spec_another());
        proof {
            assert forall|i: int| 0 <= i < all.len() implies is_view_of_one(old(self).context.all_cards@.values(), #[trigger] all[i]) by {
                assert(all[i] == collected[i]@);
            }
        }
        if !filter_cards(&mut all_cards, state.get_consumed_cards(another_player_id)) {
            assert(filter_all(all, used).len() + used.len() != all.len());
            return None;
        }
        let ghost filtered = all_cards@;
        shuffle_mt(&mut all_cards, &mut self.rng);
        proof {
            broadcast use vstd::seq_lib::group_to_multiset_ensures;
            assert(all_cards@.to_multiset().len() == filtered.to_multiset().len());
            assert(all_cards@.len() == filtered.len());
            assert(filter_all(all, used) == views(filtered));
            assert(filter_all(all, used).len() + used.len() == all.len());
        }
        if all_cards.len() < HAND_SIZE {
            assert(filter_all(all, used).len() < HAND_SIZE);
            return None;
        }
        let (hands, deck) = split_at_hand(&all_cards);
        proof {
            lemma_map_permutation(all_cards@, filtered, |c: Card| c@);
        }
        let r = PlayerCardState::new(another_player_id, hands, deck);
        proof {
            assert(r@.hands + r@.deck =~= views(all_cards@));
            assert((r@.hands + r@.deck).to_multiset() == filter_all(
                all,
                crate::state::consumed_of(state@, old(self).player_id.spec_another()),
            ).to_multiset());
        }
        Some(r)
    }

    /// A guess of the searching player's own cards: its hands as they are,
    /// and its initial deck without the cards in hand and those it used, in a
    /// random order. The result is `None` when a card in hand or a used card
    /// is not found in what is left of the initial deck.
    pub fn determinize_my_deck(&mut self, state: &State, hands: &[Card]) -> (r: Option<PlayerCardState>)
        ensures
            final(self).player_id == old(self).player_id,
            final(self).my_initial_deck@ == old(self).my_initial_deck@,
            ({
                let init = views(old(self).my_initial_deck@);
                let ids = hands@.map_values(|h: Card| h@.id);
                let rest = filter_all(init, ids);
                let used = crate::state::consumed_of(state@, old(self).player_id);
                r is None <==> (rest.len() + ids.len() != init.len() || filter_all(rest, used).len() + used.len()
                    != rest.len())
            }),
            r matches Some(c) ==> {
                &&& c@.player_id == old(self).player_id
                &&& c@.hands == views(hands@)
                &&& c@.deck.to_multiset() == filter_all(
                    filter_all(views(old(self).my_initial_deck@), hands@.map_values(|h: Card| h@.id)),
                    crate::state::consumed_of(state@, old(self).player_id),
                ).to_multiset()
            },
    {
        let mut deck_cards = copy_cards(self.my_initial_deck.as_slice());
        assert(views(deck_cards@) == views(self.my_initial_deck@));
        let hand_ids = crate::card::to_ids(hands);
        if !filter_cards(&mut deck_cards, hand_ids.as_slice()) {
            return None;
        }
        if !filter_cards(&mut deck_cards, state.get_consumed_cards(self.player_id)) {
            return None;
        }
        let ghost filtered = deck_cards@;
        shuffle_mt(&mut deck_cards, &mut self.rng);
        proof {
            lemma_map_permutation(deck_cards@, filtered, |c: Card| c@);
        }
        let r = PlayerCardState::new(self.player_id, copy_cards(hands), deck_cards);
        assert(r@.deck =~= views(deck_cards@));
        Some(r)
    }

}

// ---------------------------------------------------------------------------
// The search tree
// ---------------------------------------------------------------------------

/// A node of the search tree: a state with the move that led to it, the
/// results of the playouts through it, its children, and the moves it may
/// take once they are known.
#[derive(Debug)]
pub struct Node {
    pub simultaneous_state: SimultaneousState,
    pub action: NodeAction,
    pub statistic: Statistic,
    pub child_nodes: Vec<Node>,
    pub legal_actions: Option<Vec<NodeAction>>,
}

impl Node {
    /// A node without children or playouts.
    pub fn new(simultaneous_state: SimultaneousState, action: NodeAction) -> (r: Self)
        requires
            !(simultaneous_state.south_action is Some && simultaneous_state.north_action is Some),
        ensures
            r.simultaneous_state == simultaneous_state,
            r.action == action,
            r.statistic == (Statistic { total_cnt: 0, win_cnt: 0, lose_cnt: 0, draw_cnt: 0, value: 0 }),
            r.child_nodes@.len() == 0,
            r.legal_actions is None,
    {
        Node {
            simultaneous_state,
            action,
            statistic: Statistic::default(),
            child_nodes: Vec::new(),
            legal_actions: None,
        }
    }

    /// Whether the game is over at this node.
    pub fn is_terminal(&self) -> (r: bool)
        ensures
            r == (self.simultaneous_state.south_action is None && self.simultaneous_state.north_action is None
                && self.simultaneous_state.state@.turn == TURN_COUNT),
    {
        self.simultaneous_state.is_end()
    }

    /// The player whose move led to this node.
    pub fn get_player_id(&self) -> (r: PlayerId)
        requires
            self.action is PlayerAction,
        ensures
            self.action matches NodeAction::PlayerAction(p, _) && r == p,
    {
        match &self.action {
            NodeAction::PlayerAction(p, _) => *p,
            _ => {
                assert(false);
                unreached()
            },
        }
    }
}

/// Whether two moves are the same: both the root, or the same player taking
/// equal actions.
pub open spec fn same_move(a: NodeAction, b: NodeAction) -> bool {
    match (a, b) {
        (NodeAction::Root, NodeAction::Root) => true,
        (NodeAction::PlayerAction(p, x), NodeAction::PlayerAction(q, y)) => p == q && crate::game::same_action(x@, y@),
        _ => false,
    }
}

fn is_same_move(a: &NodeAction, b: &NodeAction) -> (r: bool)
    ensures
        r == same_move(*a, *b),
{
    match (a, b) {
        (NodeAction::Root, NodeAction::Root) => true,
        (NodeAction::PlayerAction(p, x), NodeAction::PlayerAction(q, y)) => *p == *q && *x == *y,
        _ => false,
    }
}

/// Whether the player of a move holds, in the guess, the card the move uses.
pub open spec fn in_hand(d: PlayerCardStateView, e: PlayerCardStateView, n: NodeAction) -> bool {
    match n {
        NodeAction::PlayerAction(PlayerId::South, a) => has_id(d.hands, a@.card().id),
        NodeAction::PlayerAction(PlayerId::North, a) => has_id(e.hands, a@.card().id),
        _ => false,
    }
}

/// Whether some child of the node is reached by move `n`.
pub open spec fn has_child(children: Seq<Node>, n: NodeAction) -> bool {
    exists|j: int| 0 <= j < children.len() && same_move(#[trigger] children[j].action, n)
}

/// Whether move `k` of `legal` is one the guess allows and no child was made for yet.
pub open spec fn open_move(legal: Seq<NodeAction>, k: int, children: Seq<Node>, d: PlayerCardStateView, e: PlayerCardStateView) -> bool {
    in_hand(d, e, legal[k]) && !has_child(children, legal[k])
}

/// Whether a child was made for a move, among the first `i` children.
fn child_exists(children: &Vec<Node>, n: &NodeAction) -> (r: bool)
    ensures
        r == has_child(children@, *n),
{
    let mut j: usize = 0;
    while j < children.len()
        invariant
            0 <= j <= children@.len(),
            forall|k: int| 0 <= k < j ==> !same_move(#[trigger] children@[k].action, *n),
        decreases children@.len() - j,
    {
        if is_same_move(&children[j].action, n) {
            return true;
        }
        j += 1;
    }
    false
}

/// Whether the player of a move holds its card in the guess.
fn move_in_hand(d: &Determinization, n: &NodeAction) -> (r: bool)
    ensures
        r == in_hand(d.cards_of(PlayerId::South), d.cards_of(PlayerId::North), *n),
{
    match n {
        NodeAction::PlayerAction(p, a) => d.get_cards(*p).has_card_in_hands(a.get_consumed_card()),
        _ => false,
    }
}

/// The first move of `legal` that the guess allows and that has no child
/// yet, if any.
fn first_open_move(legal: &Vec<NodeAction>, children: &Vec<Node>, d: &Determinization) -> (r: Option<usize>)
    ensures
        r matches Some(k) ==> k < legal@.len() && open_move(legal@, k as int, children@, d.cards_of(PlayerId::South), d.cards_of(PlayerId::North))
            && forall|j: int| 0 <= j < k ==> !open_move(legal@, j, children@, d.cards_of(PlayerId::South), d.cards_of(PlayerId::North)),
        r is None ==> forall|j: int| 0 <= j < legal@.len() ==> !open_move(legal@, j, children@, d.cards_of(PlayerId::South), d.cards_of(PlayerId::North)),
{
    let mut k: usize = 0;
    while k < legal.len()
        invariant
            0 <= k <= legal@.len(),
            forall|j: int| 0 <= j < k ==> !open_move(legal@, j, children@, d.cards_of(PlayerId::South), d.cards_of(PlayerId::North)),
        decreases legal@.len() - k,
    {
        if move_in_hand(d, &legal[k]) && !child_exists(children, &legal[k]) {
            return Some(k);
        }
        k += 1;
    }
    None
}

/// Whether the search stops at a node, with guessed cards `(d, e)`: the
/// game is over there, its moves were never listed, or some move the guess
/// allows has no child yet.
pub open spec fn leaf(node: Node, d: PlayerCardStateView, e: PlayerCardStateView) -> bool {
    node.is_terminal_spec() || node.legal_actions is None || exists|k: int|
        0 <= k < node.legal_actions->0@.len() && open_move(node.legal_actions->0@, k, node.child_nodes@, d, e)
}

/// Whether the search stops at a node (see `leaf`).
pub fn is_leaf_node(node: &Node, determinization: &Determinization) -> (r: bool)
    ensures
        r == leaf(*node, determinization.cards_of(PlayerId::South), determinization.cards_of(PlayerId::North)),
{
    if node.is_terminal() {
        return true;
    }
    match &node.legal_actions {
        None => true,
        Some(legal) => first_open_move(legal, &node.child_nodes, determinization).is_some(),
    }
}

impl Node {
    /// Whether the game is over at this node.
    pub open spec fn is_terminal_spec(&self) -> bool {
        self.simultaneous_state.south_action is None && self.simultaneous_state.north_action is None
            && self.simultaneous_state.state@.turn == TURN_COUNT
    }
}

/// The player and the action of a player's move.
pub open spec fn move_view(n: NodeAction) -> Option<(PlayerId, ActionView)> {
    match n {
        NodeAction::PlayerAction(p, a) => Some((p, a@)),
        _ => None,
    }
}

/// A copy of a player's move.
fn copy_move(n: &NodeAction) -> (r: NodeAction)
    requires
        n is PlayerAction,
    ensures
        r is PlayerAction,
        move_view(r) == move_view(*n),
{
    match n {
        NodeAction::PlayerAction(p, a) => NodeAction::PlayerAction(*p, a.clone()),
        _ => {
            assert(false);
            unreached()
        },
    }
}

/// A copy of a state with its waiting actions.
fn copy_simultaneous(ss: &SimultaneousState) -> (r: SimultaneousState)
    ensures
        opt_view(r.south_action) == opt_view(ss.south_action),
        opt_view(r.north_action) == opt_view(ss.north_action),
        r.state@ == ss.state@,
        ss.state.board.wf() ==> r.state.board.wf(),
{
    SimultaneousState {
        south_action: copy_action(&ss.south_action),
        north_action: copy_action(&ss.north_action),
        state: ss.state.clone(),
    }
}

/// The player whose moves a node lists: the searching player when it has
/// not chosen its action there, else its opponent.
pub open spec fn mover(ss: SimultaneousState, me: PlayerId) -> PlayerId {
    let filled = match me {
        PlayerId::South => ss.south_action is Some,
        PlayerId::North => ss.north_action is Some,
    };
    if filled {
        me.spec_another()
    } else {
        me
    }
}

/// What the guess becomes when player `p` plays the card with id `id`:
/// the card leaves its hands and, unless `draw` is false, it draws.
pub open spec fn after_play(c: PlayerCardStateView, id: u32, draw: bool) -> PlayerCardStateView {
    if draw {
        spec_draw(spec_consume(c, id))
    } else {
        spec_consume(c, id)
    }
}

/// Whether player `p` already chose its action at a node.
pub open spec fn has_chosen(ss: SimultaneousState, p: PlayerId) -> bool {
    match p {
        PlayerId::South => ss.south_action is Some,
        PlayerId::North => ss.north_action is Some,
    }
}

/// Whether move `k` of `legal` is the one an expansion takes: the first move
/// that the guess allows and that has no child yet, its player has not
/// chosen at the node, and the turn it may complete can be applied.
pub open spec fn expandable(
    legal: Seq<NodeAction>,
    k: int,
    children: Seq<Node>,
    d: PlayerCardStateView,
    e: PlayerCardStateView,
    ss: SimultaneousState,
) -> bool {
    &&& 0 <= k < legal.len()
    &&& open_move(legal, k, children, d, e)
    &&& forall|j: int| 0 <= j < k ==> !open_move(legal, j, children, d, e)
    &&& (legal[k] matches NodeAction::PlayerAction(p, a) && !has_chosen(ss, p) && !move_blocked(
        opt_view(ss.south_action),
        opt_view(ss.north_action),
        ss.state@,
        p,
        a@,
    ))
}

impl Traverser {
    /// The root of a search from an actual state of the game.
    pub fn create_root_node(&self, state: &State) -> (r: Node)
        ensures
            r.simultaneous_state.south_action is None,
            r.simultaneous_state.north_action is None,
            r.simultaneous_state.state@ == state@,
            state.board.wf() ==> r.simultaneous_state.state.board.wf(),
            r.action is Root,
            r.child_nodes@.len() == 0,
            r.legal_actions is None,
    {
        Node::new(SimultaneousState::new(state.clone()), NodeAction::Root)
    }

    /// Lists the moves of a node the first time it is expanded: those of the
    /// player `mover` picks, with the cards the guess gives it.
    fn ensure_legal_actions(&self, node: &mut Node, determinization: &Determinization)
        requires
            old(node).simultaneous_state.state.board.wf(),
        ensures
            final(node).legal_actions is Some,
            old(node).legal_actions is Some ==> final(node).legal_actions == old(node).legal_actions,
            old(node).legal_actions is None ==> {
                let p = mover(old(node).simultaneous_state, self.player_id);
                let l = legal_actions_for(old(node).simultaneous_state.state@, determinization.cards_of(p), p, self.player_id);
                &&& final(node).legal_actions->0@.len() == l.len()
                &&& forall|i: int| 0 <= i < l.len() ==> is_move_of(#[trigger] final(node).legal_actions->0@[i], p, l[i])
            },
            final(node).simultaneous_state == old(node).simultaneous_state,
            final(node).action == old(node).action,
            final(node).statistic == old(node).statistic,
            final(node).child_nodes == old(node).child_nodes,
    {
        if node.legal_actions.is_none() {
            let p = if !node.simultaneous_state.action_is_filled(self.player_id) {
                self.player_id
            } else {
                self.player_id.another()
            };
            let legal = precalculate_valid_actions(
                node.simultaneous_state.get_state(),
                determinization.get_cards(p),
                p,
                self.player_id,
            );
            node.legal_actions = Some(legal);
        }
    }

    /// Adds to a node a child for the first of its moves that the guess
    /// allows and that has no child yet, and gives the index of the child.
    /// The moves are listed first if they never were (see `mover`). The
    /// player of the move plays its card in the guess and draws, unless the
    /// node is at the last turn. The result is `None`, with no child added
    /// and the guess unchanged, when no such move is left, when its player
    /// already chose at the node, or when the move completes a turn that
    /// cannot be applied.
    pub fn expand(&self, node: &mut Node, determinization: &mut Determinization) -> (r: Option<usize>)
        requires
            old(node).simultaneous_state.state.board.wf(),
        ensures
            final(node).legal_actions is Some,
            old(node).legal_actions is Some ==> final(node).legal_actions == old(node).legal_actions,
            old(node).legal_actions is None ==> {
                let p = mover(old(node).simultaneous_state, self.player_id);
                let l = legal_actions_for(old(node).simultaneous_state.state@, old(determinization).cards_of(p), p, self.player_id);
                &&& final(node).legal_actions->0@.len() == l.len()
                &&& forall|i: int| 0 <= i < l.len() ==> is_move_of(#[trigger] final(node).legal_actions->0@[i], p, l[i])
            },
            final(node).simultaneous_state == old(node).simultaneous_state,
            final(node).action == old(node).action,
            final(node).statistic == old(node).statistic,
            r is Some <==> exists|k: int|
                #[trigger] expandable(
                    final(node).legal_actions->0@,
                    k,
                    old(node).child_nodes@,
                    old(determinization).cards_of(PlayerId::South),
                    old(determinization).cards_of(PlayerId::North),
                    old(node).simultaneous_state,
                ),
            r is None ==> final(node).child_nodes == old(node).child_nodes,
            r is None ==> final(determinization).cards_of(PlayerId::South) == old(determinization).cards_of(PlayerId::South)
                && final(determinization).cards_of(PlayerId::North) == old(determinization).cards_of(PlayerId::North),
            r matches Some(i) ==> {
                let legal = final(node).legal_actions->0@;
                let old_children = old(node).child_nodes@;
                let d = old(determinization).cards_of(PlayerId::South);
                let e = old(determinization).cards_of(PlayerId::North);
                let ss = old(node).simultaneous_state;
                let child = final(node).child_nodes@[i as int];
                &&& i == old_children.len()
                &&& final(node).child_nodes@ == old_children.push(child)
                &&& exists|k: int|
                    #![trigger legal[k]]
                    0 <= k < legal.len() && open_move(legal, k, old_children, d, e) && (forall|j: int|
                        0 <= j < k ==> !open_move(legal, j, old_children, d, e)) && move_view(child.action) == move_view(
                        legal[k],
                    )
                &&& child.action matches NodeAction::PlayerAction(p, a) && {
                    &&& moved_to(
                        opt_view(ss.south_action),
                        opt_view(ss.north_action),
                        ss.state@,
                        p,
                        a@,
                        opt_view(child.simultaneous_state.south_action),
                        opt_view(child.simultaneous_state.north_action),
                        child.simultaneous_state.state@,
                    )
                    &&& final(determinization).cards_of(p) == after_play(
                        old(determinization).cards_of(p),
                        a@.card().id,
                        ss.state@.turn != TURN_COUNT - 1,
                    )
                    &&& final(determinization).cards_of(p.spec_another()) == old(determinization).cards_of(p.spec_another())
                }
                &&& child.simultaneous_state.state.board.wf()
                &&& child.statistic == (Statistic { total_cnt: 0, win_cnt: 0, lose_cnt: 0, draw_cnt: 0, value: 0 })
                &&& child.child_nodes@.len() == 0
                &&& child.legal_actions is None
            },
    {
        self.ensure_legal_actions(node, determinization);
        let ghost legal_v = node.legal_actions->0@;
        let ghost children_v = node.child_nodes@;
        let ghost d = determinization.cards_of(PlayerId::South);
        let ghost e = determinization.cards_of(PlayerId::North);
        let ghost ss = node.simultaneous_state;
        let k = match &node.legal_actions {
            Some(legal) => match first_open_move(legal, &node.child_nodes, determinization) {
                Some(k) => k,
                None => {
                    assert forall|k2: int| !#[trigger] expandable(legal_v, k2, children_v, d, e, ss) by {}
                    return None;
                },
            },
            None => {
                return None;
            },
        };
        proof {
            assert forall|k2: int| #[trigger] expandable(legal_v, k2, children_v, d, e, ss) implies k2 == k by {
                if k2 < k {
                } else if k < k2 {
                }
            }
        }
        let chosen = match &node.legal_actions {
            Some(legal) => copy_move(&legal[k]),
            None => {
                return None;
            },
        };
        let (player_id, card) = match &chosen {
            NodeAction::PlayerAction(p, a) => (*p, a.get_consumed_card().clone()),
            _ => {
                return None;
            },
        };
        if node.simultaneous_state.action_is_filled(player_id) {
            assert(!expandable(legal_v, k as int, children_v, d, e, ss));
            return None;
        }
        let next = match copy_simultaneous(&node.simultaneous_state).with_action(copy_move(&chosen)) {
            Some(next) => next,
            None => {
                assert(!expandable(legal_v, k as int, children_v, d, e, ss));
                return None;
            },
        };
        assert(expandable(legal_v, k as int, children_v, d, e, ss));
        let draw = node.simultaneous_state.get_turn() != TURN_COUNT - 1;
        determinization.play_card(player_id, &card, draw);
        let child = Node::new(next, chosen);
        node.child_nodes.push(child);
        Some(node.child_nodes.len() - 1)
    }
}

/// The indices of the children whose move the guess allows, in order: those
/// among which the search picks the next node.
pub fn get_filtered_nodes(node: &Node, determinization: &Determinization) -> (r: Vec<usize>)
    ensures
        forall|i: int| 0 <= i < r@.len() ==> r@[i] < node.child_nodes@.len(),
        forall|i: int, j: int| 0 <= i < j < r@.len() ==> r@[i] < r@[j],
        forall|k: int|
            0 <= k < node.child_nodes@.len() ==> (r@.contains(k as usize) <==> in_hand(
                determinization.cards_of(PlayerId::South),
                determinization.cards_of(PlayerId::North),
                #[trigger] node.child_nodes@[k].action,
            )),
{
    let mut r: Vec<usize> = Vec::new();
    let mut i: usize = 0;
    while i < node.child_nodes.len()
        invariant
            0 <= i <= node.child_nodes@.len(),
            forall|a: int| 0 <= a < r@.len() ==> r@[a] < i,
            forall|a: int, b: int| 0 <= a < b < r@.len() ==> r@[a] < r@[b],
            forall|k: int|
                0 <= k < i ==> (r@.contains(k as usize) <==> in_hand(
                    determinization.cards_of(PlayerId::South),
                    determinization.cards_of(PlayerId::North),
                    #[trigger] node.child_nodes@[k].action,
                )),
        decreases node.child_nodes@.len() - i,
    {
        let ghost before = r@;
        if move_in_hand(determinization, &node.child_nodes[i].action) {
            r.push(i);
            assert(r@[before.len() as int] == i);
        }
        assert forall|k: int|
            0 <= k < i + 1 implies (r@.contains(k as usize) <==> in_hand(
                determinization.cards_of(PlayerId::South),
                determinization.cards_of(PlayerId::North),
                #[trigger] node.child_nodes@[k].action,
            )) by {
            if k < i {
                if before.contains(k as usize) {
                    let a = choose|a: int| 0 <= a < before.len() && before[a] == k as usize;
                    assert(r@[a] == k as usize);
                }
                if r@.contains(k as usize) {
                    let a = choose|a: int| 0 <= a < r@.len() && r@[a] == k as usize;
                    if a < before.len() {
                        assert(before[a] == k as usize);
                    }
                }
            } else {
                if r@.contains(k as usize) {
                    let a = choose|a: int| 0 <= a < r@.len() && r@[a] == k as usize;
                    if a < before.len() {
                        assert(before[a] < i);
                    }
                }
            }
        }
        i += 1;
    }
    r
}

/// What the statistic of a node becomes when one more playout through it
/// ends with scores `result`.
pub open spec fn counted(s: Statistic, result: (u32, u32)) -> Statistic {
    Statistic {
        total_cnt: (s.total_cnt + 1) as u32,
        win_cnt: (s.win_cnt + if result.0 > result.1 { 1int } else { 0 }) as u32,
        lose_cnt: (s.lose_cnt + if result.0 < result.1 { 1int } else { 0 }) as u32,
        draw_cnt: (s.draw_cnt + if result.0 == result.1 { 1int } else { 0 }) as u32,
        value: (s.value + result.0 - result.1) as i32,
    }
}

/// Whether a statistic can count one more playout with scores `result`.
pub open spec fn can_count(s: Statistic, result: (u32, u32)) -> bool {
    &&& s.wf()
    &&& s.total_cnt < u32::MAX
    &&& result.0 <= i32::MAX
    &&& result.1 <= i32::MAX
    &&& i32::MIN <= s.value + result.0 - result.1 <= i32::MAX
}

/// The searching step into child `i` of a node: the player whose move leads
/// there plays its card in the guess, and draws unless the move is on the
/// last turn.
pub fn play_child_move(node: &Node, i: usize, determinization: &mut Determinization)
    requires
        i < node.child_nodes@.len(),
        in_hand(
            old(determinization).cards_of(PlayerId::South),
            old(determinization).cards_of(PlayerId::North),
            node.child_nodes@[i as int].action,
        ),
    ensures
        node.child_nodes@[i as int].action matches NodeAction::PlayerAction(p, a) && final(determinization).cards_of(p)
            == after_play(
            old(determinization).cards_of(p),
            a@.card().id,
            node.child_nodes@[i as int].simultaneous_state.state@.turn != TURN_COUNT - 1,
        ) && final(determinization).cards_of(p.spec_another()) == old(determinization).cards_of(p.spec_another()),
{
    let child = &node.child_nodes[i];
    let draw = child.simultaneous_state.get_turn() != TURN_COUNT - 1;
    match &child.action {
        NodeAction::PlayerAction(p, a) => {
            determinization.play_card(*p, a.get_consumed_card(), draw);
        },
        _ => {
            assert(false);
        },
    }
}

/// The index of a child visited most often, if the node has children.
pub fn most_visited_child(node: &Node) -> (r: Option<usize>)
    ensures
        r is None <==> node.child_nodes@.len() == 0,
        r matches Some(i) ==> i < node.child_nodes@.len() && forall|k: int|
            0 <= k < node.child_nodes@.len() ==> (#[trigger] node.child_nodes@[k]).statistic.total_cnt
                <= node.child_nodes@[i as int].statistic.total_cnt,
{
    if node.child_nodes.len() == 0 {
        return None;
    }
    let mut best: usize = 0;
    let mut i: usize = 1;
    while i < node.child_nodes.len()
        invariant
            1 <= i <= node.child_nodes@.len(),
            best < i,
            forall|k: int|
                0 <= k < i ==> (#[trigger] node.child_nodes@[k]).statistic.total_cnt
                    <= node.child_nodes@[best as int].statistic.total_cnt,
        decreases node.child_nodes@.len() - i,
    {
        if node.child_nodes[i].statistic.get_visit_count() >= node.child_nodes[best].statistic.get_visit_count() {
            best = i;
        }
        i += 1;
    }
    Some(best)
}
// ---------------------------------------------------------------------------
// One iteration of the search
// ---------------------------------------------------------------------------

/// Picks the child of a node that the search goes down to, among those the
/// guess allows (see `get_filtered_nodes`). The players supply it: the
/// search of the MCTS player scores children with UCB1.
pub trait ChildSelector {
    fn select_child(&mut self, node: &Node, determinization: &Determinization) -> usize;
}

/// Whether state `b` is `a`, or follows from `a` by one turn.
pub open spec fn at_most_one_turn(a: StateView, b: StateView) -> bool {
    reachable(a, b, 0) || reachable(a, b, 1)
}

/// Whether every node of a tree has a well-formed board and at most one
/// waiting action, and the state of each child is that of its parent or
/// follows from it by one turn.
pub open spec fn tree_ok(node: Node) -> bool
    decreases node,
{
    &&& node.simultaneous_state.state.board.wf()
    &&& !(node.simultaneous_state.south_action is Some && node.simultaneous_state.north_action is Some)
    &&& forall|i: int|
        0 <= i < node.child_nodes@.len() ==> tree_ok(#[trigger] node.child_nodes@[i]) && at_most_one_turn(
            node.simultaneous_state.state@,
            node.child_nodes@[i].simultaneous_state.state@,
        )
}

/// Following `k` turns and then `n` turns is following `k + n` turns.
proof fn lemma_reachable_compose(a: StateView, b: StateView, s: StateView, k: nat, n: nat)
    requires
        reachable(a, b, k),
        reachable(b, s, n),
    ensures
        reachable(a, s, k + n),
    decreases n,
{
    if n > 0 {
        let (prev, pa, oa) = choose|prev: StateView, pa: ActionView, oa: ActionView|
            reachable(b, prev, (n - 1) as nat) && can_update(prev, pa, oa) && #[trigger] spec_update_state(prev, pa, oa)
                == s;
        lemma_reachable_compose(a, b, prev, k, (n - 1) as nat);
        assert(reachable(a, prev, (k + n - 1) as nat) && can_update(prev, pa, oa) && spec_update_state(prev, pa, oa)
            == s);
    }
}

/// A game that can end with scores `(p, o)` from a state one turn at most
/// after `a` can end with them from `a`.
proof fn lemma_finish_from_child(a: StateView, b: StateView, p: u32, o: u32)
    requires
        at_most_one_turn(a, b),
        can_finish_with(b, p, o),
    ensures
        can_finish_with(a, p, o),
{
    let (n, s) = choose|n: nat, s: StateView|
        #[trigger] reachable(b, s, n) && s.turn == TURN_COUNT && p == s.board.score(PlayerId::South) && o
            == s.board.score(PlayerId::North);
    if reachable(a, b, 0) {
        lemma_reachable_compose(a, b, s, 0, n);
        assert(reachable(a, s, 0 + n));
    } else {
        lemma_reachable_compose(a, b, s, 1, n);
        assert(reachable(a, s, 1 + n));
    }
}

/// The child an expansion adds is at most one turn after its parent.
proof fn lemma_outcome_step(
    ss: SimultaneousState,
    legal: Seq<NodeAction>,
    k: int,
    children: Seq<Node>,
    d: PlayerCardStateView,
    e: PlayerCardStateView,
    child: SimultaneousState,
)
    requires
        expandable(legal, k, children, d, e, ss),
        expansion_outcome(ss, legal[k], child),
    ensures
        at_most_one_turn(ss.state@, child.state@),
{
    let s = ss.state@;
    assert(reachable(s, s, 0));
    if child.state@ != s {
        if let NodeAction::PlayerAction(p, a) = legal[k] {
            let pend = pending_after(opt_view(ss.south_action), opt_view(ss.north_action), p, a@);
            assert(can_update(s, pend.0->0, pend.1->0));
            assert(spec_update_state(s, pend.0->0, pend.1->0) == child.state@);
            assert(reachable(s, child.state@, 1));
        }
    }
}

/// A node that differs from a good tree only in its statistic is a good tree.
proof fn lemma_tree_ok_same(a: Node, b: Node)
    requires
        tree_ok(a),
        b.simultaneous_state == a.simultaneous_state,
        b.child_nodes@ == a.child_nodes@,
    ensures
        tree_ok(b),
{
    assert forall|i: int| 0 <= i < b.child_nodes@.len() implies tree_ok(#[trigger] b.child_nodes@[i]) by {
        assert(b.child_nodes@[i] == a.child_nodes@[i]);
    }
}

/// Whether a statistic can count one more playout with scores `result`.
fn can_count_exec(s: &Statistic, result: (u32, u32)) -> (r: bool)
    ensures
        r == can_count(*s, result),
{
    let sum: u64 = s.win_cnt as u64 + s.lose_cnt as u64 + s.draw_cnt as u64;
    if sum != s.total_cnt as u64 || s.total_cnt == u32::MAX || result.0 > 0x7fff_ffffu32 || result.1 > 0x7fff_ffffu32 {
        return false;
    }
    let v: i64 = s.value as i64 + result.0 as i64 - result.1 as i64;
    -0x8000_0000i64 <= v && v <= 0x7fff_ffffi64
}

/// The scores `(south, north)` on the board of a state, as a playout result.
pub open spec fn end_scores(s: StateView) -> (u32, u32) {
    (s.board.score(PlayerId::South) as u32, s.board.score(PlayerId::North) as u32)
}

/// The guessed cards of one side among `(d, e)` (south, north).
pub open spec fn side_cards(d: PlayerCardStateView, e: PlayerCardStateView, p: PlayerId) -> PlayerCardStateView {
    match p {
        PlayerId::South => d,
        PlayerId::North => e,
    }
}

/// Whether `legal` is a list of moves that an expansion of `node` works on:
/// the node's own list, or, where it has none yet, the moves that `mover`
/// has with the guessed cards `(d, e)`.
pub open spec fn legal_after(
    node: Node,
    legal: Seq<NodeAction>,
    d: PlayerCardStateView,
    e: PlayerCardStateView,
    me: PlayerId,
) -> bool {
    match node.legal_actions {
        Some(l) => legal == l@,
        None => {
            let p = mover(node.simultaneous_state, me);
            let l = legal_actions_for(node.simultaneous_state.state@, side_cards(d, e, p), p, me);
            &&& legal.len() == l.len()
            &&& forall|i: int| 0 <= i < l.len() ==> is_move_of(#[trigger] legal[i], p, l[i])
        },
    }
}

/// Whether `child` is where move `m` leads from `ss`.
pub open spec fn expansion_outcome(ss: SimultaneousState, m: NodeAction, child: SimultaneousState) -> bool {
    m matches NodeAction::PlayerAction(p, a) && moved_to(
        opt_view(ss.south_action),
        opt_view(ss.north_action),
        ss.state@,
        p,
        a@,
        opt_view(child.south_action),
        opt_view(child.north_action),
        child.state@,
    )
}

/// The guessed cards `(south, north)` once the player of move `m` played
/// its card, drawing when `draw` holds.
pub open spec fn cards_after_move(
    m: NodeAction,
    d: PlayerCardStateView,
    e: PlayerCardStateView,
    draw: bool,
) -> (PlayerCardStateView, PlayerCardStateView) {
    match m {
        NodeAction::PlayerAction(PlayerId::South, a) => (after_play(d, a@.card().id, draw), e),
        NodeAction::PlayerAction(PlayerId::North, a) => (d, after_play(e, a@.card().id, draw)),
        _ => (d, e),
    }
}

/// The statistic of a node that no playout went through yet.
pub open spec fn fresh_statistic() -> Statistic {
    Statistic { total_cnt: 0, win_cnt: 0, lose_cnt: 0, draw_cnt: 0, value: 0 }
}

/// When an iteration at a leaf that is not the end of the game is owed a
/// result: whatever list of moves it works on, a child can be added, and
/// from every child that can be added the playout is owed a result (see
/// `playout_owed`) that both the new child and the leaf can count.
pub open spec fn expansion_owed(node: Node, d: PlayerCardStateView, e: PlayerCardStateView, me: PlayerId) -> bool {
    let ss = node.simultaneous_state;
    let children = node.child_nodes@;
    let draw = ss.state@.turn != TURN_COUNT - 1;
    &&& !node.is_terminal_spec()
    &&& forall|legal: Seq<NodeAction>|
        #[trigger] legal_after(node, legal, d, e, me) ==> exists|k: int|
            #[trigger] expandable(legal, k, children, d, e, ss)
    &&& forall|legal: Seq<NodeAction>, k: int, child: SimultaneousState|
        #![trigger expandable(legal, k, children, d, e, ss), expansion_outcome(ss, legal[k], child)]
        legal_after(node, legal, d, e, me) && expandable(legal, k, children, d, e, ss) && expansion_outcome(
            ss,
            legal[k],
            child,
        ) ==> {
            let c = cards_after_move(legal[k], d, e, draw);
            &&& playout_owed(child, c.0, c.1)
            &&& forall|p: u32, o: u32|
                #[trigger] can_finish_with(child.state@, p, o) ==> can_count(fresh_statistic(), (p, o))
                    && can_count(node.statistic, (p, o))
        }
}

/// The list of moves that an expansion leaves on a node is one it works on.
proof fn lemma_legal_after(old_node: Node, node: Node, d: PlayerCardStateView, e: PlayerCardStateView, me: PlayerId)
    requires
        node.legal_actions is Some,
        old_node.legal_actions is Some ==> node.legal_actions == old_node.legal_actions,
        old_node.legal_actions is None ==> {
            let p = mover(old_node.simultaneous_state, me);
            let l = legal_actions_for(old_node.simultaneous_state.state@, side_cards(d, e, p), p, me);
            &&& node.legal_actions->0@.len() == l.len()
            &&& forall|i: int| 0 <= i < l.len() ==> is_move_of(#[trigger] node.legal_actions->0@[i], p, l[i])
        },
    ensures
        legal_after(old_node, node.legal_actions->0@, d, e, me),
{
}

/// A node owed an expansion is a leaf: some move of its list is open.
proof fn lemma_owed_leaf(node: Node, d: PlayerCardStateView, e: PlayerCardStateView, me: PlayerId)
    requires
        expansion_owed(node, d, e, me),
    ensures
        node.legal_actions is None || exists|k: int|
            0 <= k < node.legal_actions->0@.len() && open_move(node.legal_actions->0@, k, node.child_nodes@, d, e),
{
    if node.legal_actions is Some {
        let l = node.legal_actions->0@;
        assert(legal_after(node, l, d, e, me));
        let k = choose|k: int| #[trigger] expandable(l, k, node.child_nodes@, d, e, node.simultaneous_state);
        assert(open_move(l, k, node.child_nodes@, d, e));
    }
}

/// Whether `new` is `old` with one child added by expansion, under guessed
/// cards `(d, e)` of the searching player `me`: the list of moves is one
/// the expansion works on, the child is reached by the move `expandable`
/// picks, it has no children and its statistic is `stat`.
pub open spec fn expanded_with(
    old: Node,
    new: Node,
    d: PlayerCardStateView,
    e: PlayerCardStateView,
    me: PlayerId,
    stat: Statistic,
) -> bool {
    let c = new.child_nodes@.last();
    let legal = new.legal_actions->0@;
    &&& new.legal_actions is Some
    &&& legal_after(old, legal, d, e, me)
    &&& new.child_nodes@ == old.child_nodes@.push(c)
    &&& c.statistic == stat
    &&& c.child_nodes@.len() == 0
    &&& exists|k: int|
        #[trigger] expandable(legal, k, old.child_nodes@, d, e, old.simultaneous_state) && move_view(c.action)
            == move_view(legal[k]) && expansion_outcome(old.simultaneous_state, legal[k], c.simultaneous_state)
}

/// Whether `new` is `old` once the search went down into child `i`, a move
/// the guessed cards `(d, e)` allow, and counted `res` there: the other
/// children are unchanged, and child `i` keeps its state and move and
/// counts `res` once more.
pub open spec fn descended_into(
    old: Node,
    new: Node,
    i: int,
    d: PlayerCardStateView,
    e: PlayerCardStateView,
    res: (u32, u32),
) -> bool {
    &&& 0 <= i < old.child_nodes@.len()
    &&& new.child_nodes@.len() == old.child_nodes@.len()
    &&& in_hand(d, e, old.child_nodes@[i].action)
    &&& new.child_nodes@[i].simultaneous_state == old.child_nodes@[i].simultaneous_state
    &&& new.child_nodes@[i].action == old.child_nodes@[i].action
    &&& new.child_nodes@[i].statistic == counted(old.child_nodes@[i].statistic, res)
    &&& forall|j: int| 0 <= j < old.child_nodes@.len() && j != i ==> new.child_nodes@[j] == old.child_nodes@[j]
}

/// One iteration of the search from `node`: while the node is not a leaf,
/// the selector picks a child, whose player plays its card in the guess, and
/// the search goes on below it; at a leaf a child is added for its first open
/// move (unless the game is over there) and a playout is run from it (or
/// from the leaf); the playout's scores are then counted at the added child
/// and at every node on the way back up. The result is the playout's scores,
/// which the game can end with from the node's state; it is `None`, with
/// this node's count unchanged, when the selector picks a child the guess
/// does not allow, no child can be added, the playout fails, or a count
/// would overflow. At the end of the game the node keeps its children and
/// the result is the scores on the board whenever the node can count them;
/// at any other leaf one child is added (or none, when no child can be
/// added), and a result is owed when `expansion_owed` holds.
#[verifier::rlimit(50)]
pub fn iterate<S: ChildSelector>(
    traverser: &mut Traverser,
    node: &mut Node,
    determinization: &mut Determinization,
    selector: &mut S,
) -> (r: Option<(u32, u32)>)
    requires
        tree_ok(*old(node)),
    ensures
        tree_ok(*final(node)),
        final(node).simultaneous_state == old(node).simultaneous_state,
        final(node).action == old(node).action,
        r matches Some(res) ==> final(node).statistic == counted(old(node).statistic, res),
        r is None ==> final(node).statistic == old(node).statistic,
        r matches Some(res) ==> can_finish_with(old(node).simultaneous_state.state@, res.0, res.1),
        old(node).is_terminal_spec() ==> final(node).child_nodes@ == old(node).child_nodes@,
        old(node).is_terminal_spec() ==> (r is Some <==> can_count(
            old(node).statistic,
            end_scores(old(node).simultaneous_state.state@),
        )),
        old(node).is_terminal_spec() ==> (r matches Some(res) ==> res == end_scores(
            old(node).simultaneous_state.state@,
        )),
        leaf(*old(node), old(determinization).cards_of(PlayerId::South), old(determinization).cards_of(PlayerId::North))
            && !old(node).is_terminal_spec() ==> (r matches Some(res) ==> expanded_with(
            *old(node),
            *final(node),
            old(determinization).cards_of(PlayerId::South),
            old(determinization).cards_of(PlayerId::North),
            old(traverser).player_id,
            counted(fresh_statistic(), res),
        )),
        leaf(*old(node), old(determinization).cards_of(PlayerId::South), old(determinization).cards_of(PlayerId::North))
            && !old(node).is_terminal_spec() ==> (r is None ==> (final(node).child_nodes@ == old(node).child_nodes@
            || expanded_with(
            *old(node),
            *final(node),
            old(determinization).cards_of(PlayerId::South),
            old(determinization).cards_of(PlayerId::North),
            old(traverser).player_id,
            fresh_statistic(),
        ))),
        !leaf(*old(node), old(determinization).cards_of(PlayerId::South), old(determinization).cards_of(PlayerId::North))
            ==> (r matches Some(res) ==> exists|i: int|
            descended_into(
                *old(node),
                *final(node),
                i,
                old(determinization).cards_of(PlayerId::South),
                old(determinization).cards_of(PlayerId::North),
                res,
            )),
        expansion_owed(
            *old(node),
            old(determinization).cards_of(PlayerId::South),
            old(determinization).cards_of(PlayerId::North),
            old(traverser).player_id,
        ) ==> r is Some,
    decreases *old(node),
{
    let ghost old_node = *node;
    let ghost d0 = determinization.cards_of(PlayerId::South);
    let ghost e0 = determinization.cards_of(PlayerId::North);
    let ghost me = traverser.player_id;
    let ghost owed = expansion_owed(old_node, d0, e0, me);
    let ghost mut down: int = -1;
    let result;
    if is_leaf_node(node, determinization) {
        if !node.is_terminal() {
            let ghost before = node.child_nodes@;
            let ghost ss = node.simultaneous_state;
            let ghost draw = ss.state@.turn != TURN_COUNT - 1;
            let i = match traverser.expand(node, determinization) {
                Some(i) => i,
                None => {
                    proof {
                        if owed {
                            lemma_legal_after(old_node, *node, d0, e0, me);
                        }
                    }
                    return None;
                },
            };
            let ghost legal = node.legal_actions->0@;
            let ghost child_ss = node.child_nodes@[i as int].simultaneous_state;
            proof {
                lemma_legal_after(old_node, *node, d0, e0, me);
                let k2 = choose|k2: int| #[trigger] expandable(legal, k2, before, d0, e0, ss);
                let k = choose|k: int|
                    #![trigger legal[k]]
                    0 <= k < legal.len() && open_move(legal, k, before, d0, e0) && (forall|j: int|
                        0 <= j < k ==> !open_move(legal, j, before, d0, e0)) && move_view(
                        node.child_nodes@[i as int].action,
                    ) == move_view(legal[k]);
                if k < k2 {
                    assert(!open_move(legal, k, before, d0, e0));
                } else if k2 < k {
                    assert(!open_move(legal, k2, before, d0, e0));
                }
                assert(expandable(legal, k, before, d0, e0, ss));
                assert(expansion_outcome(ss, legal[k], child_ss));
                lemma_outcome_step(ss, legal, k, before, d0, e0, child_ss);
                assert(node.child_nodes@.last() == node.child_nodes@[i as int]);
                assert(expanded_with(old_node, *node, d0, e0, me, fresh_statistic()));
                if owed {
                    let c = cards_after_move(legal[k], d0, e0, draw);
                    assert(playout_owed(child_ss, c.0, c.1));
                    assert(determinization.cards_of(PlayerId::South) == c.0);
                    assert(determinization.cards_of(PlayerId::North) == c.1);
                }
            }
            proof {
                let child = node.child_nodes@[i as int];
                assert(tree_ok(child));
                assert forall|j: int| 0 <= j < node.child_nodes@.len() implies tree_ok(#[trigger] node.child_nodes@[j])
                    && at_most_one_turn(ss.state@, node.child_nodes@[j].simultaneous_state.state@) by {
                    if j < before.len() {
                        assert(node.child_nodes@[j] == before[j]);
                    }
                }
                assert(tree_ok(*node));
            }
            let res = match playout(&mut traverser.rng, &node.child_nodes[i].simultaneous_state, determinization) {
                Some(res) => res,
                None => {
                    return None;
                },
            };
            proof {
                lemma_finish_from_child(ss.state@, child_ss.state@, res.0, res.1);
            }
            if !can_count_exec(&node.child_nodes[i].statistic, res) || !can_count_exec(&node.statistic, res) {
                return None;
            }
            let ghost before_count = node.child_nodes@;
            node.child_nodes[i].statistic.update_with(res);
            proof {
                lemma_tree_ok_same(before_count[i as int], node.child_nodes@[i as int]);
                assert forall|j: int| 0 <= j < node.child_nodes@.len() implies tree_ok(#[trigger] node.child_nodes@[j])
                    && at_most_one_turn(ss.state@, node.child_nodes@[j].simultaneous_state.state@) by {
                    if j != i {
                        assert(node.child_nodes@[j] == before_count[j]);
                    }
                }
                assert(tree_ok(*node));
                assert(node.child_nodes@ == before_count.update(i as int, node.child_nodes@[i as int]));
                assert(node.child_nodes@.last() == node.child_nodes@[i as int]);
                assert(node.child_nodes@ =~= before.push(node.child_nodes@[i as int]));
                let k = choose|k: int|
                    #[trigger] expandable(legal, k, before, d0, e0, ss) && move_view(before_count.last().action)
                        == move_view(legal[k]) && expansion_outcome(ss, legal[k], before_count.last().simultaneous_state);
                assert(expandable(legal, k, before, d0, e0, ss));
                assert(expanded_with(old_node, *node, d0, e0, me, counted(fresh_statistic(), res)));
            }
            result = res;
        } else {
            result = match playout(&mut traverser.rng, &node.simultaneous_state, determinization) {
                Some(res) => res,
                None => {
                    return None;
                },
            };
            assert(result == end_scores(old_node.simultaneous_state.state@));
            proof {
                let s = old_node.simultaneous_state.state@;
                assert(reachable(s, s, 0));
                assert(can_finish_with(s, result.0, result.1));
            }
        }
    } else {
        proof {
            if owed {
                lemma_owed_leaf(old_node, d0, e0, me);
            }
        }
        let i = selector.select_child(node, determinization);
        if i >= node.child_nodes.len() || !move_in_hand(determinization, &node.child_nodes[i].action) {
            return None;
        }
        play_child_move(node, i, determinization);
        assert(tree_ok(node.child_nodes@[i as int]));
        let ghost before = node.child_nodes@;
        let res = iterate(traverser, &mut node.child_nodes[i], determinization, selector);
        proof {
            assert forall|j: int| 0 <= j < node.child_nodes@.len() implies tree_ok(#[trigger] node.child_nodes@[j])
                && at_most_one_turn(old_node.simultaneous_state.state@, node.child_nodes@[j].simultaneous_state.state@) by {
                if j != i {
                    assert(node.child_nodes@[j] == before[j]);
                } else {
                    assert(at_most_one_turn(old_node.simultaneous_state.state@, before[j].simultaneous_state.state@));
                }
            }
            assert(tree_ok(*node));
        }
        result = match res {
            Some(res) => res,
            None => {
                return None;
            },
        };
        proof {
            let child_state = before[i as int].simultaneous_state.state@;
            assert(at_most_one_turn(old_node.simultaneous_state.state@, child_state));
            lemma_finish_from_child(old_node.simultaneous_state.state@, child_state, result.0, result.1);
            assert(descended_into(old_node, *node, i as int, d0, e0, result));
            down = i as int;
        }
    }
    let ghost before_update = *node;
    if !can_count_exec(&node.statistic, result) {
        return None;
    }
    node.statistic.update_with(result);
    proof {
        lemma_tree_ok_same(before_update, *node);
        if down >= 0 {
            assert(descended_into(old_node, *node, down, d0, e0, result));
        }
    }
    Some(result)
}

} // verus!
