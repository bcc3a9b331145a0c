use vstd::prelude::*;

use crate::board::{around_dx, around_dy, Board, BoardCell, BoardPosition, BoardView};
use crate::card::{Card, CardCell, CardPosition, CardView, spec_to_board_cell, PRIORITY_MAX};
use crate::game::{Action, ActionView, PlayerId, TURN_COUNT};

verus! {

// ---------------------------------------------------------------------------
// Rules for putting a card
// ---------------------------------------------------------------------------

/// Whether a card square may not be put on a board cell: walls and special
/// inks are never painted over, inks only by a special attack.
pub open spec fn cell_conflicts(c: BoardCell, special: bool) -> bool {
    match c {
        BoardCell::Empty => false,
        BoardCell::Wall => true,
        BoardCell::Ink(_) => !special,
        BoardCell::Special(_) => true,
    }
}

/// Whether a board cell next to a put card connects the card to the player's
/// inks: any own ink for a normal put, only own special inks for a special attack.
pub open spec fn cell_touches(c: BoardCell, p: PlayerId, special: bool) -> bool {
    match c {
        BoardCell::Ink(q) => !special && q == p,
        BoardCell::Special(q) => q == p,
        _ => false,
    }
}

/// The board position covered by the `i`-th cell of a card put at `pos`.
pub open spec fn covered_x(card: CardView, pos: CardPosition, i: int) -> int {
    pos.x + card.cells_of(pos.rotation)[i].position.x
}

pub open spec fn covered_y(card: CardView, pos: CardPosition, i: int) -> int {
    pos.y + card.cells_of(pos.rotation)[i].position.y
}

/// Some square of the card put at `pos` lies on a cell it may not be put on.
pub open spec fn spec_has_conflict(b: BoardView, card: CardView, pos: CardPosition, special: bool) -> bool {
    exists|i: int|
        0 <= i < card.cells_of(pos.rotation).len() && cell_conflicts(
            #[trigger] b.cell(covered_x(card, pos, i), covered_y(card, pos, i)),
            special,
        )
}

/// Some square of the card put at `pos` has a neighbour that connects it to `p`'s inks.
pub open spec fn spec_has_touching_point(
    b: BoardView,
    p: PlayerId,
    card: CardView,
    pos: CardPosition,
    special: bool,
) -> bool {
    exists|i: int, d: int|
        0 <= i < card.cells_of(pos.rotation).len() && 0 <= d < 8 && cell_touches(
            #[trigger] b.cell(covered_x(card, pos, i) + around_dx(d), covered_y(card, pos, i) + around_dy(d)),
            p,
            special,
        )
}

/// The special points of a player.
pub open spec fn special_count_of(s: StateView, p: PlayerId) -> int {
    match p {
        PlayerId::South => s.player_special_count,
        PlayerId::North => s.opponent_special_count,
    }
}

/// Whether `p` may take action `a` in state `s`. A pass is always allowed. A
/// card may be put where none of its squares conflicts and one touches the
/// player's inks; a special attack also needs at least the card's special cost
/// in special points.
pub open spec fn spec_is_valid_action(s: StateView, p: PlayerId, a: ActionView) -> bool {
    match a {
        ActionView::Pass(_) => true,
        ActionView::Put(c, pos) => !spec_has_conflict(s.board, c, pos, false)
            && spec_has_touching_point(s.board, p, c, pos, false),
        ActionView::Special(c, pos) => special_count_of(s, p) >= c.special_cost
            && !spec_has_conflict(s.board, c, pos, true) && spec_has_touching_point(
            s.board,
            p,
            c,
            pos,
            true,
        ),
    }
}

/// Whether the card of an action is well formed.
pub open spec fn action_wf(a: ActionView) -> bool {
    a.card().wf()
}

/// Whether some square of the card put at `card_position` conflicts with the board.
pub fn has_conflict(board: &Board, card: &Card, card_position: &CardPosition, special: bool) -> (r: bool)
    requires
        board.wf(),
        card.wf(),
    ensures
        r == spec_has_conflict(board@, card@, *card_position, special),
{
    let cells = card.get_cells(card_position.rotation);
    let px = card_position.x as i64;
    let py = card_position.y as i64;
    let mut i: usize = 0;
    while i < cells.len()
        invariant
            board.wf(),
            cells@ == card@.cells_of(card_position.rotation),
            px == card_position.x,
            py == card_position.y,
            0 <= i <= cells@.len(),
            forall|k: int| 0 <= k < i ==> !cell_conflicts(
                #[trigger] board@.cell(covered_x(card@, *card_position, k), covered_y(card@, *card_position, k)),
                special,
            ),
        decreases cells@.len() - i,
    {
        let board_cell = board.cell_at(px + cells[i].position.x as i64, py + cells[i].position.y as i64);
        let conflict = match board_cell {
            BoardCell::Empty => false,
            BoardCell::Wall => true,
            BoardCell::Ink(_) => !special,
            BoardCell::Special(_) => true,
        };
        if conflict {
            assert(cell_conflicts(board@.cell(covered_x(card@, *card_position, i as int), covered_y(card@, *card_position, i as int)), special));
            return true;
        }
        i += 1;
    }
    false
}

/// Whether some square of the card put at `card_position` is next to an ink
/// that connects it to `player_id`.
pub fn has_touching_point(
    board: &Board,
    player_id: PlayerId,
    card: &Card,
    card_position: &CardPosition,
    special: bool,
) -> (r: bool)
    requires
        board.wf(),
        card.wf(),
    ensures
        r == spec_has_touching_point(board@, player_id, card@, *card_position, special),
{
    let cells = card.get_cells(card_position.rotation);
    let px = card_position.x as i64;
    let py = card_position.y as i64;
    let mut i: usize = 0;
    while i < cells.len()
        invariant
            board.wf(),
            cells@ == card@.cells_of(card_position.rotation),
            px == card_position.x,
            py == card_position.y,
            0 <= i <= cells@.len(),
            forall|k: int, d: int| 0 <= k < i && 0 <= d < 8 ==> !cell_touches(
                #[trigger] board@.cell(covered_x(card@, *card_position, k) + around_dx(d), covered_y(card@, *card_position, k) + around_dy(d)),
                player_id,
                special,
            ),
        decreases cells@.len() - i,
    {
        let cx = px + cells[i].position.x as i64;
        let cy = py + cells[i].position.y as i64;
        let mut d: usize = 0;
        while d < 8
            invariant
                board.wf(),
                cells@ == card@.cells_of(card_position.rotation),
                0 <= i < cells@.len(),
                cx == covered_x(card@, *card_position, i as int),
                cy == covered_y(card@, *card_position, i as int),
                0 <= d <= 8,
                forall|e: int| 0 <= e < d ==> !cell_touches(
                    #[trigger] board@.cell(cx + around_dx(e), cy + around_dy(e)),
                    player_id,
                    special,
                ),
            decreases 8 - d,
        {
            let (dx, dy) = crate::board::around_offset(d);
            let board_cell = board.cell_at(cx + dx as i64, cy + dy as i64);
            let touching = match board_cell {
                BoardCell::Ink(pid) => !special && player_id == pid,
                BoardCell::Special(pid) => player_id == pid,
                _ => false,
            };
            if touching {
                assert(cell_touches(board@.cell(cx + around_dx(d as int), cy + around_dy(d as int)), player_id, special));
                return true;
            }
            d += 1;
        }
        i += 1;
    }
    false
}

/// Whether `player_id` may take `action` in `state`.
pub fn is_valid_action(state: &State, player_id: PlayerId, action: &Action) -> (r: bool)
    requires
        state.board.wf(),
        action_wf(action@),
    ensures
        r == spec_is_valid_action(state@, player_id, action@),
{
    match action {
        Action::Pass(_) => true,
        Action::Put(card, pos) => is_valid_action_put(state, player_id, card, pos, false),
        Action::Special(card, pos) => is_valid_action_put(state, player_id, card, pos, true),
    }
}

fn is_valid_action_put(
    state: &State,
    player_id: PlayerId,
    card: &Card,
    position: &CardPosition,
    special: bool,
) -> (r: bool)
    requires
        state.board.wf(),
        card.wf(),
    ensures
        r == ((special ==> special_count_of(state@, player_id) >= card@.special_cost)
            && !spec_has_conflict(state@.board, card@, *position, special)
            && spec_has_touching_point(state@.board, player_id, card@, *position, special)),
{
    if special {
        match player_id {
            PlayerId::South => {
                if state.player_special_count < card.get_special_cost() {
                    return false;
                }
            },
            PlayerId::North => {
                if state.opponent_special_count < card.get_special_cost() {
                    return false;
                }
            },
        }
    }
    if has_conflict(&state.board, card, position, special) {
        return false;
    }
    if !has_touching_point(&state.board, player_id, card, position, special) {
        return false;
    }
    true
}

// ---------------------------------------------------------------------------
// Cards of a player
// ---------------------------------------------------------------------------

/// The mathematical content of a player's cards.
pub ghost struct PlayerCardStateView {
    pub player_id: PlayerId,
    pub hands: Seq<CardView>,
    pub deck: Seq<CardView>,
}

/// The index of the first card of `cards` with the given id, or `cards.len()`.
pub open spec fn first_index_of(cards: Seq<CardView>, id: u32) -> int
    decreases cards.len(),
{
    if cards.len() == 0 {
        0
    } else if cards[0].id == id {
        0
    } else {
        1 + first_index_of(cards.drop_first(), id)
    }
}

/// Whether some card of `cards` has the given id.
pub open spec fn has_id(cards: Seq<CardView>, id: u32) -> bool {
    exists|i: int| 0 <= i < cards.len() && #[trigger] cards[i].id == id
}

/// The hands after drawing the top card of the deck (unchanged when the deck is empty).
pub open spec fn spec_draw(s: PlayerCardStateView) -> PlayerCardStateView {
    if s.deck.len() == 0 {
        s
    } else {
        PlayerCardStateView { player_id: s.player_id, hands: s.hands.push(s.deck[0]), deck: s.deck.drop_first() }
    }
}

/// The hands after using the first card in hand with the given id.
pub open spec fn spec_consume(s: PlayerCardStateView, id: u32) -> PlayerCardStateView {
    PlayerCardStateView {
        player_id: s.player_id,
        hands: s.hands.remove(first_index_of(s.hands, id)),
        deck: s.deck,
    }
}

/// The cards in hand and the remaining deck of a player, deck top first.
#[derive(Debug, PartialEq, Eq, Hash)]
pub struct PlayerCardState {
    player_id: PlayerId,
    hands: Vec<Card>,
    deck: Vec<Card>,
}

impl View for PlayerCardState {
    type V = PlayerCardStateView;

    closed spec fn view(&self) -> PlayerCardStateView {
        PlayerCardStateView {
            player_id: self.player_id,
            hands: self.hands@.map_values(|c: Card| c@),
            deck: self.deck@.map_values(|c: Card| c@),
        }
    }
}

impl Clone for PlayerCardState {
    fn clone(&self) -> (r: Self)
        ensures
            r@ == self@,
    {
        PlayerCardState { player_id: self.player_id, hands: copy_cards(&self.hands), deck: copy_cards(&self.deck) }
    }
}

/// A copy of a list of cards.
pub fn copy_cards(cards: &[Card]) -> (r: Vec<Card>)
    ensures
        r@.map_values(|c: Card| c@) == cards@.map_values(|c: Card| c@),
{
    let mut r: Vec<Card> = Vec::new();
    let mut i: usize = 0;
    while i < cards.len()
        invariant
            0 <= i <= cards@.len(),
            r@.len() == i,
            forall|k: int| 0 <= k < i ==> #[trigger] r@[k]@ == cards@[k]@,
        decreases cards@.len() - i,
    {
        r.push(cards[i].clone());
        i += 1;
    }
    assert(r@.map_values(|c: Card| c@) =~= cards@.map_values(|c: Card| c@));
    r
}

/// Whether a card with the given id is in the list.
pub(crate) fn has_id_in(cards: &Vec<Card>, id: u32) -> (r: bool)
    ensures
        r == has_id(cards@.map_values(|c: Card| c@), id),
{
    let ghost v = cards@.map_values(|c: Card| c@);
    let mut i: usize = 0;
    while i < cards.len()
        invariant
            0 <= i <= cards@.len(),
            v == cards@.map_values(|c: Card| c@),
            forall|k: int| 0 <= k < i ==> #[trigger] v[k].id != id,
        decreases cards@.len() - i,
    {
        if cards[i].get_id() == id {
            assert(v[i as int].id == id);
            return true;
        }
        i += 1;
    }
    false
}

impl PlayerCardState {
    pub fn new(player_id: PlayerId, hands: Vec<Card>, deck: Vec<Card>) -> (r: PlayerCardState)
        ensures
            r@ == (PlayerCardStateView {
                player_id,
                hands: hands@.map_values(|c: Card| c@),
                deck: deck@.map_values(|c: Card| c@),
            }),
    {
        PlayerCardState { player_id, hands, deck }
    }

    pub fn get_player_id(&self) -> (r: PlayerId)
        ensures
            r == self@.player_id,
    {
        self.player_id
    }

    pub fn get_hands(&self) -> (r: &[Card])
        ensures
            r@.map_values(|c: Card| c@) == self@.hands,
    {
        self.hands.as_slice()
    }

    pub fn get_deck(&self) -> (r: &[Card])
        ensures
            r@.map_values(|c: Card| c@) == self@.deck,
    {
        self.deck.as_slice()
    }

    /// Moves the top card of the deck to the end of the hands; does nothing
    /// when the deck is empty.
    pub fn draw_card(&mut self)
        ensures
            final(self)@ == spec_draw(old(self)@),
    {
        if self.deck.len() == 0 {
            return;
        }
        let ghost before = self@;
        let draw = self.deck.remove(0);
        self.hands.push(draw);
        assert(self@.hands =~= before.hands.push(before.deck[0]));
        assert(self@.deck =~= before.deck.drop_first());
    }

    /// Whether a card with the same id as `card` is in hand.
    pub fn has_card_in_hands(&self, card: &Card) -> (r: bool)
        ensures
            r == has_id(self@.hands, card@.id),
    {
        let mut i: usize = 0;
        while i < self.hands.len()
            invariant
                0 <= i <= self.hands@.len(),
                forall|k: int| 0 <= k < i ==> #[trigger] self@.hands[k].id != card@.id,
            decreases self.hands@.len() - i,
        {
            if self.hands[i].get_id() == card.get_id() {
                assert(self@.hands[i as int].id == card@.id);
                return true;
            }
            i += 1;
        }
        false
    }

    /// Whether a card with the given id is in hand.
    pub fn has_id_in_hands(&self, id: u32) -> (r: bool)
        ensures
            r == has_id(self@.hands, id),
    {
        has_id_in(&self.hands, id)
    }

    /// Whether a card with the given id is in the deck.
    pub fn has_id_in_deck(&self, id: u32) -> (r: bool)
        ensures
            r == has_id(self@.deck, id),
    {
        has_id_in(&self.deck, id)
    }

    /// Removes from the hands the first card with the same id as `card`.
    pub fn consume_card(&mut self, card: &Card)
        requires
            has_id(old(self)@.hands, card@.id),
        ensures
            final(self)@ == spec_consume(old(self)@, card@.id),
    {
        let ghost before = self@;
        let mut i: usize = 0;
        while i < self.hands.len()
            invariant
                self@ == before,
                before == old(self)@,
                has_id(before.hands, card@.id),
                0 <= i <= self.hands@.len(),
                forall|k: int| 0 <= k < i ==> #[trigger] before.hands[k].id != card@.id,
            decreases self.hands@.len() - i,
        {
            if self.hands[i].get_id() == card.get_id() {
                proof {
                    lemma_first_index_of(before.hands, card@.id, i as int);
                }
                self.hands.remove(i);
                assert(self@.hands =~= before.hands.remove(i as int));
                assert(self@.deck == before.deck);
                assert(self@.player_id == before.player_id);
                assert(self@ == spec_consume(before, card@.id));
                return;
            }
            i += 1;
        }
        assert(false);
    }
}

/// The first index of an id is the index of the first card that has it.
pub proof fn lemma_first_index_of(cards: Seq<CardView>, id: u32, i: int)
    requires
        0 <= i < cards.len(),
        cards[i].id == id,
        forall|k: int| 0 <= k < i ==> #[trigger] cards[k].id != id,
    ensures
        first_index_of(cards, id) == i,
    decreases i,
{
    if i > 0 {
        assert forall|k: int| 0 <= k < i - 1 implies #[trigger] cards.drop_first()[k].id != id by {
            assert(cards.drop_first()[k] == cards[k + 1]);
        }
        lemma_first_index_of(cards.drop_first(), id, i - 1);
    }
}

// ---------------------------------------------------------------------------
// Game state
// ---------------------------------------------------------------------------

/// The mathematical content of a game state.
pub ghost struct StateView {
    pub board: BoardView,
    pub turn: int,
    pub player_special_count: int,
    pub opponent_special_count: int,
    pub player_consumed_cards: Seq<u32>,
    pub opponent_consumed_cards: Seq<u32>,
}

/// Observable information about the current state of the game.
#[derive(Debug, PartialEq, Eq, Hash)]
pub struct State {
    pub board: Board,
    pub turn: i32,
    pub player_special_count: i32,
    pub opponent_special_count: i32,
    pub player_consumed_cards: Vec<u32>,
    pub opponent_consumed_cards: Vec<u32>,
}

impl View for State {
    type V = StateView;

    open spec fn view(&self) -> StateView {
        StateView {
            board: self.board@,
            turn: self.turn as int,
            player_special_count: self.player_special_count as int,
            opponent_special_count: self.opponent_special_count as int,
            player_consumed_cards: self.player_consumed_cards@,
            opponent_consumed_cards: self.opponent_consumed_cards@,
        }
    }
}

impl Clone for State {
    fn clone(&self) -> (r: Self)
        ensures
            r@ == self@,
            self.board.wf() ==> r.board.wf(),
    {
        State {
            board: self.board.clone(),
            turn: self.turn,
            player_special_count: self.player_special_count,
            opponent_special_count: self.opponent_special_count,
            player_consumed_cards: copy_ids(&self.player_consumed_cards),
            opponent_consumed_cards: copy_ids(&self.opponent_consumed_cards),
        }
    }
}

fn copy_ids(v: &Vec<u32>) -> (r: Vec<u32>)
    ensures
        r@ == v@,
{
    let mut r: Vec<u32> = Vec::new();
    let mut i: usize = 0;
    while i < v.len()
        invariant
            0 <= i <= v@.len(),
            r@ == v@.take(i as int),
        decreases v@.len() - i,
    {
        r.push(v[i]);
        assert(r@ =~= v@.take(i + 1));
        i += 1;
    }
    assert(r@ =~= v@);
    r
}

/// The ids of the cards a player has used so far, in order.
pub open spec fn consumed_of(s: StateView, p: PlayerId) -> Seq<u32> {
    match p {
        PlayerId::South => s.player_consumed_cards,
        PlayerId::North => s.opponent_consumed_cards,
    }
}

impl State {
    pub fn new(
        board: Board,
        turn: i32,
        player_special_count: i32,
        opponent_special_count: i32,
        player_consumed_cards: Vec<u32>,
        opponent_consumed_cards: Vec<u32>,
    ) -> (r: Self)
        ensures
            r@ == (StateView {
                board: board@,
                turn: turn as int,
                player_special_count: player_special_count as int,
                opponent_special_count: opponent_special_count as int,
                player_consumed_cards: player_consumed_cards@,
                opponent_consumed_cards: opponent_consumed_cards@,
            }),
            r.board == board,
    {
        Self {
            board,
            turn,
            player_special_count,
            opponent_special_count,
            player_consumed_cards,
            opponent_consumed_cards,
        }
    }

    /// The game ends after the last turn.
    pub fn is_end(&self) -> (r: bool)
        ensures
            r == (self@.turn == TURN_COUNT),
    {
        self.turn == TURN_COUNT
    }

    /// The ids of the cards a player has used so far, in order.
    pub fn get_consumed_cards(&self, player_id: PlayerId) -> (r: &[u32])
        ensures
            r@ == consumed_of(self@, player_id),
    {
        match player_id {
            PlayerId::South => self.player_consumed_cards.as_slice(),
            PlayerId::North => self.opponent_consumed_cards.as_slice(),
        }
    }
}


// ---------------------------------------------------------------------------
// Applying a turn
// ---------------------------------------------------------------------------

/// The last cell of `cells` at relative position `(dx, dy)`, if any.
pub open spec fn find_cell(cells: Seq<CardCell>, dx: int, dy: int) -> Option<CardCell>
    decreases cells.len(),
{
    if cells.len() == 0 {
        None
    } else if cells.last().position.x == dx && cells.last().position.y == dy {
        Some(cells.last())
    } else {
        find_cell(cells.drop_last(), dx, dy)
    }
}

/// The card cell that action `a` paints at board position `(x, y)`, if any.
pub open spec fn placed_cell(a: ActionView, x: int, y: int) -> Option<CardCell> {
    if a.is_pass() {
        None
    } else {
        find_cell(a.card().cells_of(a.position().rotation), x - a.position().x, y - a.position().y)
    }
}

/// The priority of the south player's paint at `(x, y)`; `PRIORITY_MAX` where it paints nothing.
pub open spec fn priority_at(a: ActionView, x: int, y: int) -> int {
    match placed_cell(a, x, y) {
        Some(c) => c.priority as int,
        None => PRIORITY_MAX as int,
    }
}

/// The cell at `(x, y)` after the south action `pa` and then the north
/// action `oa` are painted. Where both paint, the lower priority wins; equal
/// priorities make the square a wall.
pub open spec fn filled_cell(old: BoardCell, pa: ActionView, oa: ActionView, x: int, y: int) -> BoardCell {
    let after_south = match placed_cell(pa, x, y) {
        Some(c) => spec_to_board_cell(c.cell_type, PlayerId::South),
        None => old,
    };
    match placed_cell(oa, x, y) {
        None => after_south,
        Some(c) => {
            let pp = priority_at(pa, x, y);
            if pp > c.priority {
                spec_to_board_cell(c.cell_type, PlayerId::North)
            } else if pp == c.priority {
                BoardCell::Wall
            } else {
                after_south
            }
        },
    }
}

/// The board after both actions of a turn are painted.
pub open spec fn spec_fill(b: BoardView, pa: ActionView, oa: ActionView) -> BoardView {
    BoardView {
        name: b.name,
        grid: Seq::new(
            b.grid.len(),
            |y: int| Seq::new(b.grid[y].len(), |x: int| filled_cell(b.grid[y][x], pa, oa, x, y)),
        ),
    }
}

/// The special points of a player after a turn: a special attack costs the
/// card's special cost, each newly surrounded special ink earns one point, and
/// a pass earns one point.
pub open spec fn next_special(count: int, a: ActionView, before: nat, after: nat) -> int {
    count - (if a.is_special() {
        a.card().special_cost as int
    } else {
        0
    }) + (after - before) + (if a.is_pass() {
        1int
    } else {
        0
    })
}

/// The state after a turn in which south takes `pa` and north takes `oa`.
pub open spec fn spec_update_state(s: StateView, pa: ActionView, oa: ActionView) -> StateView {
    let nb = spec_fill(s.board, pa, oa);
    StateView {
        board: nb,
        turn: s.turn + 1,
        player_special_count: next_special(
            s.player_special_count,
            pa,
            s.board.surrounded_count(PlayerId::South),
            nb.surrounded_count(PlayerId::South),
        ),
        opponent_special_count: next_special(
            s.opponent_special_count,
            oa,
            s.board.surrounded_count(PlayerId::North),
            nb.surrounded_count(PlayerId::North),
        ),
        player_consumed_cards: s.player_consumed_cards.push(pa.card().id),
        opponent_consumed_cards: s.opponent_consumed_cards.push(oa.card().id),
    }
}

/// Every square the action paints lies on the board.
pub open spec fn fits_on(b: BoardView, a: ActionView) -> bool {
    a.is_pass() || forall|i: int|
        0 <= i < a.card().cells_of(a.position().rotation).len() ==> b.in_board(
            #[trigger] covered_x(a.card(), a.position(), i),
            covered_y(a.card(), a.position(), i),
        )
}

/// A turn can be applied when both actions are valid, the turn counter does not
/// overflow, and both new special point counts fit in `i32`.
pub open spec fn can_update(s: StateView, pa: ActionView, oa: ActionView) -> bool {
    let u = spec_update_state(s, pa, oa);
    &&& spec_is_valid_action(s, PlayerId::South, pa)
    &&& spec_is_valid_action(s, PlayerId::North, oa)
    &&& s.turn < i32::MAX
    &&& i32::MIN <= u.player_special_count <= i32::MAX
    &&& i32::MIN <= u.opponent_special_count <= i32::MAX
}

/// `find_cell` finds a cell exactly when one has the position, and what it
/// finds is one of the cells with that position.
pub proof fn lemma_find_cell(cells: Seq<CardCell>, dx: int, dy: int)
    ensures
        find_cell(cells, dx, dy) is None <==> forall|k: int| 0 <= k < cells.len() ==> !(#[trigger] cells[k].position.x == dx && cells[k].position.y == dy),
        find_cell(cells, dx, dy) matches Some(c) ==> exists|k: int| 0 <= k < cells.len() && #[trigger] cells[k] == c && c.position.x == dx && c.position.y == dy,
    decreases cells.len(),
{
    if cells.len() > 0 {
        lemma_find_cell(cells.drop_last(), dx, dy);
        assert forall|k: int| 0 <= k < cells.len() - 1 implies #[trigger] cells[k] == cells.drop_last()[k] by {}
        if find_cell(cells.drop_last(), dx, dy) is Some && !(cells.last().position.x == dx && cells.last().position.y == dy) {
            let c = find_cell(cells.drop_last(), dx, dy)->0;
            let k = choose|k: int| 0 <= k < cells.drop_last().len() && #[trigger] cells.drop_last()[k] == c && c.position.x == dx && c.position.y == dy;
            assert(cells[k] == c);
        }
        if find_cell(cells, dx, dy) is Some && cells.last().position.x == dx && cells.last().position.y == dy {
            assert(cells[cells.len() - 1] == cells.last());
        }
    }
}

/// With distinct positions, the cell found at a position of some cell is that cell.
pub proof fn lemma_find_cell_distinct(cells: Seq<CardCell>, k: int)
    requires
        crate::card::distinct_positions(cells),
        0 <= k < cells.len(),
    ensures
        find_cell(cells, cells[k].position.x as int, cells[k].position.y as int) == Some(cells[k]),
        find_cell(cells.take(k), cells[k].position.x as int, cells[k].position.y as int) is None,
{
    let dx = cells[k].position.x as int;
    let dy = cells[k].position.y as int;
    lemma_find_cell(cells, dx, dy);
    let c = find_cell(cells, dx, dy)->0;
    let j = choose|j: int| 0 <= j < cells.len() && #[trigger] cells[j] == c && c.position.x == dx && c.position.y == dy;
    if j != k {
        assert(cells[j].position != cells[k].position);
    }
    lemma_find_cell(cells.take(k), dx, dy);
    assert forall|i: int| 0 <= i < cells.take(k).len() implies !(#[trigger] cells.take(k)[i].position.x == dx && cells.take(k)[i].position.y == dy) by {
        assert(cells.take(k)[i] == cells[i]);
        assert(cells[i].position != cells[k].position);
    }
}

/// Every turned shape of a well-formed card has distinct positions.
pub proof fn lemma_rotated_distinct(card: CardView, r: Rotation)
    requires
        card.wf(),
    ensures
        crate::card::distinct_positions(card.cells_of(r)),
        forall|i: int| 0 <= i < card.cells_of(r).len() ==> #[trigger] card.cells_of(r)[i].cell_type != crate::card::CardCellType::Empty,
{
    let base = card.cells[0];
    crate::card::lemma_max_x(base);
    crate::card::lemma_max_y(base);
    let w = crate::card::max_x(base) + 1;
    let h = crate::card::max_y(base) + 1;
    let cs = card.cells_of(r);
    assert(cs == crate::card::rotate_cells(r, base));
    assert forall|i: int, j: int| 0 <= i < cs.len() && 0 <= j < cs.len() && i != j implies #[trigger] cs[i].position
        != #[trigger] cs[j].position by {
        assert(base[i].position != base[j].position);
        assert(cs[i] == crate::card::rotate_cell(r, base[i], w, h));
        assert(cs[j] == crate::card::rotate_cell(r, base[j], w, h));
        assert(0 <= base[i].position.x < w && 0 <= base[j].position.x < w);
        assert(0 <= base[i].position.y < h && 0 <= base[j].position.y < h);
    }
    assert forall|i: int| 0 <= i < cs.len() implies #[trigger] cs[i].cell_type != crate::card::CardCellType::Empty by {
        assert(cs[i] == crate::card::rotate_cell(r, base[i], w, h));
    }
}

use crate::game::Rotation;

/// A valid action paints only squares on the board, and only squares that hold
/// no wall and no special ink.
pub proof fn lemma_valid_fits(s: StateView, p: PlayerId, a: ActionView)
    requires
        spec_is_valid_action(s, p, a),
    ensures
        fits_on(s.board, a),
        !a.is_pass() ==> forall|i: int|
            0 <= i < a.card().cells_of(a.position().rotation).len() ==> !cell_conflicts(
                #[trigger] s.board.cell(covered_x(a.card(), a.position(), i), covered_y(a.card(), a.position(), i)),
                a.is_special(),
            ),
{
    if !a.is_pass() {
        let sp = a.is_special();
        assert forall|i: int| 0 <= i < a.card().cells_of(a.position().rotation).len() implies !cell_conflicts(
            #[trigger] s.board.cell(covered_x(a.card(), a.position(), i), covered_y(a.card(), a.position(), i)),
            sp,
        ) by {
            if cell_conflicts(s.board.cell(covered_x(a.card(), a.position(), i), covered_y(a.card(), a.position(), i)), sp) {
                assert(spec_has_conflict(s.board, a.card(), a.position(), sp));
            }
        }
        assert forall|i: int| 0 <= i < a.card().cells_of(a.position().rotation).len() implies s.board.in_board(
            #[trigger] covered_x(a.card(), a.position(), i),
            covered_y(a.card(), a.position(), i),
        ) by {
            assert(!cell_conflicts(s.board.cell(covered_x(a.card(), a.position(), i), covered_y(a.card(), a.position(), i)), sp));
        }
    }
}

/// The priority of the paint at relative position `(dx, dy)`: that of the
/// last cell there, if any. The cells are searched in place, where a map
/// from position to priority could be built: a map keyed by position
/// proves nothing here (see `Card`), and the search gives the same answer.
fn find_priority(cells: &[CardCell], dx: i64, dy: i64) -> (r: Option<i32>)
    ensures
        r == match find_cell(cells@, dx as int, dy as int) {
            Some(c) => Some(c.priority),
            None => None::<i32>,
        },
{
    let mut i: usize = cells.len();
    assert(cells@.take(cells@.len() as int) =~= cells@);
    while i > 0
        invariant
            0 <= i <= cells@.len(),
            find_cell(cells@, dx as int, dy as int) == find_cell(cells@.take(i as int), dx as int, dy as int),
        decreases i,
    {
        let c = cells[i - 1];
        assert(cells@.take(i as int).last() == c);
        if c.position.x as i64 == dx && c.position.y as i64 == dy {
            return Some(c.priority);
        }
        assert(cells@.take(i as int).drop_last() =~= cells@.take(i - 1));
        i -= 1;
    }
    None
}

/// Paints the squares of both actions of a turn onto the board.
fn fill_cells(state: &mut State, player_action: &Action, opponent_action: &Action)
    requires
        old(state).board.wf(),
        action_wf(player_action@),
        action_wf(opponent_action@),
        fits_on(old(state).board@, player_action@),
        fits_on(old(state).board@, opponent_action@),
    ensures
        final(state).board.wf(),
        final(state).board@ == spec_fill(old(state).board@, player_action@, opponent_action@),
        final(state).turn == old(state).turn,
        final(state).player_special_count == old(state).player_special_count,
        final(state).opponent_special_count == old(state).opponent_special_count,
        final(state).player_consumed_cards@ == old(state).player_consumed_cards@,
        final(state).opponent_consumed_cards@ == old(state).opponent_consumed_cards@,
{
    let ghost b0 = state.board@;
    proof {
        crate::board::lemma_board_dims(b0);
    }
    let ghost pa = player_action@;
    let ghost oa = opponent_action@;
    // The south player's squares.
    if !player_action.is_pass() {
        let (card, card_position) = player_action.get_card_card_position();
        let cells = card.get_cells(card_position.rotation);
        let mut i: usize = 0;
        while i < cells.len()
            invariant
                state.board.wf(),
                cells@ == pa.card().cells_of(pa.position().rotation),
                *card_position == pa.position(),
                !pa.is_pass(),
                fits_on(b0, pa),
                b0.width() <= i32::MAX,
                b0.height() <= i32::MAX,
                0 <= i <= cells@.len(),
                state.board@.name == b0.name,
                state.board@.height() == b0.height(),
                state.board@.width() == b0.width(),
                forall|x: int, y: int| #![trigger state.board@.cell(x, y)] b0.in_board(x, y) ==> state.board@.cell(x, y) == match find_cell(
                    cells@.take(i as int),
                    x - card_position.x,
                    y - card_position.y,
                ) {
                    Some(c) => spec_to_board_cell(c.cell_type, PlayerId::South),
                    None => b0.cell(x, y),
                },
                state.turn == old(state).turn,
                state.player_special_count == old(state).player_special_count,
                state.opponent_special_count == old(state).opponent_special_count,
                state.player_consumed_cards@ == old(state).player_consumed_cards@,
                state.opponent_consumed_cards@ == old(state).opponent_consumed_cards@,
            decreases cells@.len() - i,
        {
            let cell = cells[i];
            assert(b0.in_board(covered_x(pa.card(), pa.position(), i as int), covered_y(pa.card(), pa.position(), i as int)));
            let board_pos = BoardPosition {
                x: card_position.x + cell.position.x,
                y: card_position.y + cell.position.y,
            };
            let fill = cell.cell_type.to_board_cell(PlayerId::South);
            let ghost before = state.board@;
            state.board.put_cell(board_pos, fill);
            assert(cells@.take(i + 1).drop_last() =~= cells@.take(i as int));
            assert(cells@.take(i + 1).last() == cell);
            assert forall|x: int, y: int| #![trigger state.board@.cell(x, y)] b0.in_board(x, y) implies state.board@.cell(x, y) == match find_cell(
                cells@.take(i + 1),
                x - card_position.x,
                y - card_position.y,
            ) {
                Some(c) => spec_to_board_cell(c.cell_type, PlayerId::South),
                None => b0.cell(x, y),
            } by {
                assert(before.cell(x, y) == before.grid[y][x]);
            }
            i += 1;
        }
        assert(cells@.take(cells@.len() as int) =~= cells@);
    }
    let ghost b1 = state.board@;
    assert forall|x: int, y: int| #![trigger b1.cell(x, y)] b0.in_board(x, y) implies b1.cell(x, y) == match placed_cell(pa, x, y) {
        Some(c) => spec_to_board_cell(c.cell_type, PlayerId::South),
        None => b0.cell(x, y),
    } by {}
    // The north player's squares.
    if !opponent_action.is_pass() {
        let (card, card_position) = opponent_action.get_card_card_position();
        let cells = card.get_cells(card_position.rotation);
        proof {
            lemma_rotated_distinct(oa.card(), oa.position().rotation);
        }
        let player_cells: &[CardCell] = if player_action.is_pass() {
            &[]
        } else {
            let (pc, ppos) = player_action.get_card_card_position();
            pc.get_cells(ppos.rotation)
        };
        let (ppx, ppy): (i64, i64) = if player_action.is_pass() {
            (0, 0)
        } else {
            let (_pc, ppos) = player_action.get_card_card_position();
            (ppos.x as i64, ppos.y as i64)
        };
        let mut j: usize = 0;
        while j < cells.len()
            invariant
                state.board.wf(),
                cells@ == oa.card().cells_of(oa.position().rotation),
                crate::card::distinct_positions(cells@),
                *card_position == oa.position(),
                !oa.is_pass(),
                fits_on(b0, oa),
                b0.width() <= i32::MAX,
                b0.height() <= i32::MAX,
                i32::MIN <= ppx <= i32::MAX,
                i32::MIN <= ppy <= i32::MAX,
                !pa.is_pass() ==> player_cells@ == pa.card().cells_of(pa.position().rotation),
                !pa.is_pass() ==> ppx == pa.position().x && ppy == pa.position().y,
                pa.is_pass() ==> player_cells@.len() == 0,
                0 <= j <= cells@.len(),
                state.board@.name == b0.name,
                state.board@.height() == b0.height(),
                state.board@.width() == b0.width(),
                forall|x: int, y: int| #![trigger b1.cell(x, y)] b0.in_board(x, y) ==> b1.cell(x, y) == match placed_cell(pa, x, y) {
                    Some(c) => spec_to_board_cell(c.cell_type, PlayerId::South),
                    None => b0.cell(x, y),
                },
                forall|x: int, y: int| #![trigger state.board@.cell(x, y)] b0.in_board(x, y) ==> state.board@.cell(x, y) == match find_cell(
                    cells@.take(j as int),
                    x - card_position.x,
                    y - card_position.y,
                ) {
                    None => b1.cell(x, y),
                    Some(c) => {
                        let pp = priority_at(pa, x, y);
                        if pp > c.priority {
                            spec_to_board_cell(c.cell_type, PlayerId::North)
                        } else if pp == c.priority {
                            BoardCell::Wall
                        } else {
                            b1.cell(x, y)
                        }
                    },
                },
                state.turn == old(state).turn,
                state.player_special_count == old(state).player_special_count,
                state.opponent_special_count == old(state).opponent_special_count,
                state.player_consumed_cards@ == old(state).player_consumed_cards@,
                state.opponent_consumed_cards@ == old(state).opponent_consumed_cards@,
            decreases cells@.len() - j,
        {
            let cell = cells[j];
            let ghost cx = covered_x(oa.card(), oa.position(), j as int);
            let ghost cy = covered_y(oa.card(), oa.position(), j as int);
            assert(b0.in_board(cx, cy));
            let board_pos = BoardPosition {
                x: card_position.x + cell.position.x,
                y: card_position.y + cell.position.y,
            };
            let priority: i32 = match find_priority(player_cells, board_pos.x as i64 - ppx, board_pos.y as i64 - ppy) {
                Some(p) => p,
                None => PRIORITY_MAX,
            };
            assert(priority == priority_at(pa, cx, cy));
            proof {
                lemma_find_cell_distinct(cells@, j as int);
                assert(cells@.take(j + 1).drop_last() =~= cells@.take(j as int));
                assert(cells@.take(j + 1).last() == cell);
            }
            let ghost before = state.board@;
            if priority > cell.priority {
                let fill = cell.cell_type.to_board_cell(PlayerId::North);
                state.board.put_cell(board_pos, fill);
            } else if priority == cell.priority {
                state.board.put_cell(board_pos, BoardCell::Wall);
            }
            assert forall|x: int, y: int| #![trigger state.board@.cell(x, y)] b0.in_board(x, y) implies state.board@.cell(x, y) == match find_cell(
                cells@.take(j + 1),
                x - card_position.x,
                y - card_position.y,
            ) {
                None => b1.cell(x, y),
                Some(c) => {
                    let pp = priority_at(pa, x, y);
                    if pp > c.priority {
                        spec_to_board_cell(c.cell_type, PlayerId::North)
                    } else if pp == c.priority {
                        BoardCell::Wall
                    } else {
                        b1.cell(x, y)
                    }
                },
            } by {
                assert(before.cell(x, y) == before.grid[y][x]);
                if x == cx && y == cy {
                    assert(find_cell(cells@.take(j as int), x - card_position.x, y - card_position.y) is None);
                }
            }
            j += 1;
        }
        assert(cells@.take(cells@.len() as int) =~= cells@);
    }
    let ghost target = spec_fill(b0, pa, oa);
    assert forall|y: int| 0 <= y < b0.grid.len() implies #[trigger] state.board@.grid[y] =~= target.grid[y] by {
        assert forall|x: int| 0 <= x < b0.grid[y].len() implies state.board@.grid[y][x] == target.grid[y][x] by {
            assert(b0.grid[y].len() == b0.width());
            assert(b0.in_board(x, y));
            assert(state.board@.cell(x, y) == state.board@.grid[y][x]);
            assert(b1.cell(x, y) == b1.grid[y][x]);
            assert(b0.cell(x, y) == b0.grid[y][x]);
        }
        assert(state.board@.grid[y].len() == state.board@.width());
        assert(b0.grid[y].len() == b0.width());
    }
    assert(state.board@.grid =~= target.grid);
}

/// Applies a turn in which south takes `player_action` and north takes
/// `opponent_action`: paints both cards, records the used cards, updates the
/// special points and advances the turn.
pub fn update_state(state: &mut State, player_action: &Action, opponent_action: &Action)
    requires
        old(state).board.wf(),
        action_wf(player_action@),
        action_wf(opponent_action@),
        can_update(old(state)@, player_action@, opponent_action@),
    ensures
        final(state).board.wf(),
        final(state)@ == spec_update_state(old(state)@, player_action@, opponent_action@),
{
    let ghost s0 = state@;
    proof {
        lemma_valid_fits(s0, PlayerId::South, player_action@);
        lemma_valid_fits(s0, PlayerId::North, opponent_action@);
    }
    let activated_cell_cnts = state.board.count_surrounded_special_ink();
    fill_cells(state, player_action, opponent_action);
    let activated_cell_cnts_later = state.board.count_surrounded_special_ink();

    state.player_consumed_cards.push(player_action.get_consumed_card().get_id());
    state.opponent_consumed_cards.push(opponent_action.get_consumed_card().get_id());

    let mut player_points: i64 = state.player_special_count as i64;
    maybe_consume_special_points(&mut player_points, player_action);
    player_points = player_points + (activated_cell_cnts_later.0 as i64 - activated_cell_cnts.0 as i64);
    if player_action.is_pass() {
        player_points = player_points + 1;
    }
    state.player_special_count = player_points as i32;

    let mut opponent_points: i64 = state.opponent_special_count as i64;
    maybe_consume_special_points(&mut opponent_points, opponent_action);
    opponent_points = opponent_points + (activated_cell_cnts_later.1 as i64 - activated_cell_cnts.1 as i64);
    if opponent_action.is_pass() {
        opponent_points = opponent_points + 1;
    }
    state.opponent_special_count = opponent_points as i32;
    state.turn = state.turn + 1;
    assert(state@ == spec_update_state(s0, player_action@, opponent_action@));
}

/// Subtracts the special cost of the card from the points when the action is a special attack.
fn maybe_consume_special_points(special_points: &mut i64, action: &Action)
    requires
        i32::MIN <= *old(special_points) <= i32::MAX,
    ensures
        *final(special_points) == *old(special_points) - if action@.is_special() {
            action@.card().special_cost as int
        } else {
            0
        },
{
    if let Action::Special(card, _) = action {
        *special_points = *special_points - card.get_special_cost() as i64;
    }
}

/// Updates a player's cards after the player took `action`: the used card
/// leaves the hands, and the top card of the deck is drawn.
pub fn update_player_state(player_state: &mut PlayerCardState, action: &Action)
    requires
        has_id(old(player_state)@.hands, action@.card().id),
    ensures
        final(player_state)@ == spec_draw(spec_consume(old(player_state)@, action@.card().id)),
{
    player_state.consume_card(action.get_consumed_card());
    player_state.draw_card();
}


// ---------------------------------------------------------------------------
// Laws
// ---------------------------------------------------------------------------

/// Where a valid action paints a square, the square held neither a wall nor a
/// special ink, and the paint is not empty.
proof fn lemma_placed_cell_ok(s: StateView, p: PlayerId, a: ActionView, x: int, y: int)
    requires
        s.board.wf(),
        action_wf(a),
        spec_is_valid_action(s, p, a),
        placed_cell(a, x, y) is Some,
    ensures
        s.board.in_board(x, y),
        s.board.cell(x, y) != BoardCell::Wall,
        !(s.board.cell(x, y) is Special),
        placed_cell(a, x, y)->0.cell_type != crate::card::CardCellType::Empty,
{
    lemma_valid_fits(s, p, a);
    let cells = a.card().cells_of(a.position().rotation);
    let dx = x - a.position().x;
    let dy = y - a.position().y;
    lemma_find_cell(cells, dx, dy);
    let c = placed_cell(a, x, y)->0;
    let k = choose|k: int| 0 <= k < cells.len() && #[trigger] cells[k] == c && c.position.x == dx && c.position.y == dy;
    assert(covered_x(a.card(), a.position(), k) == x);
    assert(covered_y(a.card(), a.position(), k) == y);
    assert(!cell_conflicts(s.board.cell(x, y), a.is_special()));
    lemma_rotated_distinct(a.card(), a.position().rotation);
}

/// Painting a turn of valid actions never empties a square and never changes
/// a special ink.
pub proof fn lemma_fill_keeps_filled(s: StateView, pa: ActionView, oa: ActionView, x: int, y: int)
    requires
        s.board.wf(),
        action_wf(pa),
        action_wf(oa),
        spec_is_valid_action(s, PlayerId::South, pa),
        spec_is_valid_action(s, PlayerId::North, oa),
    ensures
        s.board.cell(x, y) != BoardCell::Empty ==> spec_fill(s.board, pa, oa).cell(x, y) != BoardCell::Empty,
        s.board.cell(x, y) is Special ==> spec_fill(s.board, pa, oa).cell(x, y) == s.board.cell(x, y),
{
    let b = s.board;
    let nb = spec_fill(b, pa, oa);
    assert(nb.width() == b.width() && nb.height() == b.height()) by {
        assert(b.grid[0].len() == b.width());
    }
    if b.in_board(x, y) {
        assert(b.grid[y].len() == b.width());
        assert(nb.cell(x, y) == filled_cell(b.grid[y][x], pa, oa, x, y));
        if placed_cell(pa, x, y) is Some {
            lemma_placed_cell_ok(s, PlayerId::South, pa, x, y);
        }
        if placed_cell(oa, x, y) is Some {
            lemma_placed_cell_ok(s, PlayerId::North, oa, x, y);
        }
    }
}

/// If a predicate implies another on every square of a rectangle, it holds on
/// at most as many of its squares.
pub proof fn lemma_count_grid_mono(w: int, h: int, p1: spec_fn(int, int) -> bool, p2: spec_fn(int, int) -> bool)
    requires
        forall|x: int, y: int| 0 <= x < w && 0 <= y < h && #[trigger] p1(x, y) ==> p2(x, y),
    ensures
        crate::board::count_grid(w, h, p1) <= crate::board::count_grid(w, h, p2),
    decreases h,
{
    if h > 0 {
        lemma_count_grid_mono(w, h - 1, p1, p2);
        lemma_count_row_mono(h - 1, w, p1, p2);
    }
}

proof fn lemma_count_row_mono(y: int, w: int, p1: spec_fn(int, int) -> bool, p2: spec_fn(int, int) -> bool)
    requires
        forall|x: int| 0 <= x < w && #[trigger] p1(x, y) ==> p2(x, y),
    ensures
        crate::board::count_row(y, w, p1) <= crate::board::count_row(y, w, p2),
    decreases w,
{
    if w > 0 {
        lemma_count_row_mono(y, w - 1, p1, p2);
    }
}

/// A turn of valid actions never decreases a player's number of surrounded
/// special inks: special inks are never painted over, and painted squares stay
/// filled. So special points only go down by the cost of a special attack.
pub proof fn lemma_surrounded_never_decreases(s: StateView, pa: ActionView, oa: ActionView, p: PlayerId)
    requires
        s.board.wf(),
        action_wf(pa),
        action_wf(oa),
        spec_is_valid_action(s, PlayerId::South, pa),
        spec_is_valid_action(s, PlayerId::North, oa),
    ensures
        spec_fill(s.board, pa, oa).surrounded_count(p) >= s.board.surrounded_count(p),
        spec_update_state(s, pa, oa).player_special_count >= s.player_special_count - if pa.is_special() {
            pa.card().special_cost as int
        } else {
            0
        },
        spec_update_state(s, pa, oa).opponent_special_count >= s.opponent_special_count - if oa.is_special() {
            oa.card().special_cost as int
        } else {
            0
        },
{
    let b = s.board;
    let nb = spec_fill(b, pa, oa);
    assert(nb.width() == b.width() && nb.height() == b.height()) by {
        assert(b.grid[0].len() == b.width());
    }
    assert forall|q: PlayerId| #![trigger nb.surrounded_count(q)] nb.surrounded_count(q) >= b.surrounded_count(q) by {
        let p1 = b.surrounded_pred(q);
        let p2 = nb.surrounded_pred(q);
        assert forall|x: int, y: int| 0 <= x < b.width() && 0 <= y < b.height() && #[trigger] p1(x, y) implies p2(x, y) by {
            lemma_fill_keeps_filled(s, pa, oa, x, y);
            assert forall|i: int| 0 <= i < 8 implies #[trigger] nb.cell(x + around_dx(i), y + around_dy(i)) != BoardCell::Empty by {
                lemma_fill_keeps_filled(s, pa, oa, x + around_dx(i), y + around_dy(i));
                assert(b.cell(x + around_dx(i), y + around_dy(i)) != BoardCell::Empty);
            }
        }
        lemma_count_grid_mono(b.width(), b.height(), p1, p2);
    }
    assert(nb.surrounded_count(PlayerId::South) >= b.surrounded_count(PlayerId::South));
    assert(nb.surrounded_count(PlayerId::North) >= b.surrounded_count(PlayerId::North));
}

/// Of two boards of the same size, the one that keeps every special ink of
/// the other and fills every square the other fills has at least as many
/// surrounded special inks of each player.
pub proof fn lemma_surrounded_count_monotone(b1: BoardView, b2: BoardView, p: PlayerId)
    requires
        b1.width() == b2.width(),
        b1.height() == b2.height(),
        forall|x: int, y: int|
            b1.in_board(x, y) && (#[trigger] b1.cell(x, y) is Special) ==> b2.cell(x, y) == b1.cell(x, y),
        forall|x: int, y: int| b1.in_board(x, y) && #[trigger] b1.cell(x, y) != BoardCell::Empty ==> b2.cell(x, y) != BoardCell::Empty,
    ensures
        b2.surrounded_count(p) >= b1.surrounded_count(p),
{
    let p1 = b1.surrounded_pred(p);
    let p2 = b2.surrounded_pred(p);
    assert forall|x: int, y: int| 0 <= x < b1.width() && 0 <= y < b1.height() && #[trigger] p1(x, y) implies p2(x, y) by {
        assert(b1.cell(x, y) is Special);
        assert forall|i: int| 0 <= i < 8 implies #[trigger] b2.cell(x + around_dx(i), y + around_dy(i)) != BoardCell::Empty by {
            let xi = x + around_dx(i);
            let yi = y + around_dy(i);
            assert(b1.cell(xi, yi) != BoardCell::Empty);
            if !b1.in_board(xi, yi) {
                assert(!b2.in_board(xi, yi));
            }
        }
    }
    lemma_count_grid_mono(b1.width(), b1.height(), p1, p2);
}

/// Taking an action never loses or creates a card: the hands and the deck
/// together, hands first, are the cards before minus the used one, in the
/// same order.
pub proof fn lemma_player_cards_conserved(s: PlayerCardStateView, id: u32)
    requires
        has_id(s.hands, id),
    ensures
        ({
            let t = spec_draw(spec_consume(s, id));
            &&& t.hands + t.deck == s.hands.remove(first_index_of(s.hands, id)) + s.deck
            &&& t.hands.len() + t.deck.len() == s.hands.len() + s.deck.len() - 1
            &&& t.player_id == s.player_id
        }),
{
    lemma_first_index_in_range(s.hands, id);
    let c = spec_consume(s, id);
    let t = spec_draw(c);
    if c.deck.len() > 0 {
        assert(t.hands + t.deck =~= c.hands + c.deck);
    }
}

/// The first index of an id that occurs is a valid index of a card with that id.
pub proof fn lemma_first_index_in_range(cards: Seq<CardView>, id: u32)
    requires
        has_id(cards, id),
    ensures
        0 <= first_index_of(cards, id) < cards.len(),
        cards[first_index_of(cards, id)].id == id,
    decreases cards.len(),
{
    if cards[0].id != id {
        let i = choose|i: int| 0 <= i < cards.len() && #[trigger] cards[i].id == id;
        assert(cards.drop_first()[i - 1].id == id);
        lemma_first_index_in_range(cards.drop_first(), id);
    }
}


use crate::text::{decimal, empty_string, push_char, push_str, spec_decimal};

/// The text form of a state: the turn (counted from one), the board, and the
/// special points of both players.
pub open spec fn spec_state_text(s: StateView) -> Seq<char> {
    "Turn: "@ + spec_decimal(s.turn + 1) + seq!['\n'] + crate::board::spec_board_text(s.board) + "Special: "@
        + spec_decimal(s.player_special_count) + ", "@ + spec_decimal(s.opponent_special_count) + seq!['\n']
}

impl State {
    /// The text form of the state.
    pub fn to_text(&self) -> (r: String)
        requires
            self.board.wf(),
        ensures
            r@ == spec_state_text(self@),
    {
        let mut out = empty_string();
        push_str(&mut out, "Turn: ");
        push_str(&mut out, decimal(self.turn as i64 + 1).as_str());
        push_char(&mut out, '\n');
        push_str(&mut out, self.board.to_text().as_str());
        push_str(&mut out, "Special: ");
        push_str(&mut out, decimal(self.player_special_count as i64).as_str());
        push_str(&mut out, ", ");
        push_str(&mut out, decimal(self.opponent_special_count as i64).as_str());
        push_char(&mut out, '\n');
        assert(out@ =~= spec_state_text(self@));
        out
    }
}


/// Applies a turn when it can be applied, and tells whether it was: both
/// actions must be valid, and the turn counter and the new special points
/// must fit in `i32`. When the turn cannot be applied the state is unchanged.
pub fn try_update_state(state: &mut State, player_action: &Action, opponent_action: &Action) -> (r: bool)
    requires
        old(state).board.wf(),
        action_wf(player_action@),
        action_wf(opponent_action@),
    ensures
        final(state).board.wf(),
        r == can_update(old(state)@, player_action@, opponent_action@),
        r ==> final(state)@ == spec_update_state(old(state)@, player_action@, opponent_action@),
        !r ==> final(state)@ == old(state)@,
{
    let ghost s0 = state@;
    if !is_valid_action(state, PlayerId::South, player_action) {
        return false;
    }
    if !is_valid_action(state, PlayerId::North, opponent_action) {
        return false;
    }
    if state.turn == i32::MAX {
        return false;
    }
    proof {
        lemma_valid_fits(s0, PlayerId::South, player_action@);
        lemma_valid_fits(s0, PlayerId::North, opponent_action@);
    }
    let before = state.board.count_surrounded_special_ink();
    let mut next = state.clone();
    fill_cells(&mut next, player_action, opponent_action);
    let after = next.board.count_surrounded_special_ink();
    let mut player_points: i64 = state.player_special_count as i64;
    maybe_consume_special_points(&mut player_points, player_action);
    player_points = player_points + (after.0 as i64 - before.0 as i64);
    if player_action.is_pass() {
        player_points = player_points + 1;
    }
    let mut opponent_points: i64 = state.opponent_special_count as i64;
    maybe_consume_special_points(&mut opponent_points, opponent_action);
    opponent_points = opponent_points + (after.1 as i64 - before.1 as i64);
    if opponent_action.is_pass() {
        opponent_points = opponent_points + 1;
    }
    if player_points < i32::MIN as i64 || player_points > i32::MAX as i64 || opponent_points < i32::MIN as i64
        || opponent_points > i32::MAX as i64 {
        return false;
    }
    update_state(state, player_action, opponent_action);
    true
}

}
