use vstd::prelude::*;

use crate::board;
use crate::card;
use crate::game;
use crate::state;
use crate::text::{decimal, empty_string, push_str, spec_decimal};

verus! {

broadcast use vstd::std_specs::hash::group_hash_axioms;

/// The id of a game offered by a server.
pub type GameId = u32;

/// The id of a card.
pub type CardId = u32;

/// Why a request failed.
#[derive(Clone, Copy, Debug, PartialEq, Eq, Structural)]
pub enum ErrorCode {
    Timeout,
    /// The server failed to parse the payload.
    MalformedPayload,
    /// The server doesn't want this request at this point.
    BadRequest,
    NetworkError,
    SerializationFailure,
}

/// How messages are framed on the wire.
#[derive(Clone, Copy, Debug, PartialEq, Eq, Structural)]
pub enum WireFormat {
    /// New line (`'\n'`) delimited JSON.
    Json,
    /// Size delimited binary: a big-endian `u32` size, then the encoded body.
    Flexbuffers,
}

/// The final scores of a game.
#[derive(Clone, Copy, Debug, PartialEq, Eq, Structural)]
pub struct Scores {
    pub south_score: u32,
    pub north_score: u32,
}

impl Scores {
    /// The text form: `Scores: (south: S, north: N)`.
    pub fn to_text(&self) -> (r: String)
        ensures
            r@ == "Scores: (south: "@ + spec_decimal(self.south_score as int) + ", north: "@
                + spec_decimal(self.north_score as int) + ")"@,
    {
        let mut out = empty_string();
        push_str(&mut out, "Scores: (south: ");
        push_str(&mut out, decimal(self.south_score as i64).as_str());
        push_str(&mut out, ", north: ");
        push_str(&mut out, decimal(self.north_score as i64).as_str());
        push_str(&mut out, ")");
        out
    }
}

/// How much time players may spend.
#[derive(Clone, Copy, Debug, PartialEq, Eq, Structural)]
pub enum TimeControl {
    /// Players can spend as much time as they want.
    Infinite,
    /// Players can spend `time_limit_in_seconds` seconds for each action.
    PerAction { time_limit_in_seconds: u32 },
}

impl Default for TimeControl {
    fn default() -> (r: Self)
        ensures
            r == TimeControl::Infinite,
    {
        TimeControl::Infinite
    }
}

impl TimeControl {
    /// The time control for an optional limit in seconds per action: no
    /// limit gives `Infinite`.
    pub fn from_time_limit(time_limit: Option<u32>) -> (r: Self)
        ensures
            r == match time_limit {
                Some(secs) => TimeControl::PerAction { time_limit_in_seconds: secs },
                None => TimeControl::Infinite,
            },
    {
        match time_limit {
            Some(secs) => TimeControl::PerAction { time_limit_in_seconds: secs },
            None => TimeControl::Infinite,
        }
    }
}

/// A game that a client may join.
#[derive(Debug, PartialEq, Eq)]
pub struct GameInfo {
    pub game_id: GameId,
    pub time_control: TimeControl,
    pub board: Board,
}

/// The cards in hand of a player, as ids.
#[derive(Debug, PartialEq, Eq)]
pub struct PlayerState {
    pub hands: Vec<CardId>,
}

impl PlayerState {
    /// The ids of the cards in hand.
    pub fn from_card_state(s: &state::PlayerCardState) -> (r: PlayerState)
        ensures
            r.hands@ == s@.hands.map_values(|c: card::CardView| c.id),
    {
        let hands = card::to_ids(s.get_hands());
        assert(hands@ =~= s@.hands.map_values(|c: card::CardView| c.id));
        PlayerState { hands }
    }
}

/// A board on the wire: its name and rows of cells.
#[derive(Debug, PartialEq, Eq)]
pub struct Board {
    pub name: String,
    pub cells: Vec<Vec<BoardCell>>,
}

/// A cell on the wire.
#[derive(Clone, Copy, Debug, PartialEq, Eq, Structural)]
pub enum BoardCell {
    Empty,
    Wall,
    InkSouth,
    SpecialSouth,
    InkNorth,
    SpecialNorth,
}

/// The engine cell a wire cell stands for.
pub open spec fn spec_to_engine_cell(c: BoardCell) -> board::BoardCell {
    match c {
        BoardCell::Empty => board::BoardCell::Empty,
        BoardCell::Wall => board::BoardCell::Wall,
        BoardCell::InkSouth => board::BoardCell::Ink(game::PlayerId::South),
        BoardCell::SpecialSouth => board::BoardCell::Special(game::PlayerId::South),
        BoardCell::InkNorth => board::BoardCell::Ink(game::PlayerId::North),
        BoardCell::SpecialNorth => board::BoardCell::Special(game::PlayerId::North),
    }
}

/// The wire cell for an engine cell.
pub open spec fn spec_from_engine_cell(c: board::BoardCell) -> BoardCell {
    match c {
        board::BoardCell::Empty => BoardCell::Empty,
        board::BoardCell::Wall => BoardCell::Wall,
        board::BoardCell::Ink(game::PlayerId::South) => BoardCell::InkSouth,
        board::BoardCell::Ink(game::PlayerId::North) => BoardCell::InkNorth,
        board::BoardCell::Special(game::PlayerId::South) => BoardCell::SpecialSouth,
        board::BoardCell::Special(game::PlayerId::North) => BoardCell::SpecialNorth,
    }
}

impl From<BoardCell> for board::BoardCell {
    fn from(val: BoardCell) -> (r: Self) {
        match val {
            BoardCell::Empty => board::BoardCell::Empty,
            BoardCell::Wall => board::BoardCell::Wall,
            BoardCell::InkSouth => board::BoardCell::Ink(game::PlayerId::South),
            BoardCell::SpecialSouth => board::BoardCell::Special(game::PlayerId::South),
            BoardCell::InkNorth => board::BoardCell::Ink(game::PlayerId::North),
            BoardCell::SpecialNorth => board::BoardCell::Special(game::PlayerId::North),
        }
    }
}

impl vstd::std_specs::convert::FromSpecImpl<BoardCell> for board::BoardCell {
    open spec fn obeys_from_spec() -> bool {
        true
    }

    open spec fn from_spec(v: BoardCell) -> Self {
        spec_to_engine_cell(v)
    }
}

impl From<board::BoardCell> for BoardCell {
    fn from(c: board::BoardCell) -> (r: Self) {
        match c {
            board::BoardCell::Empty => BoardCell::Empty,
            board::BoardCell::Wall => BoardCell::Wall,
            board::BoardCell::Ink(game::PlayerId::South) => BoardCell::InkSouth,
            board::BoardCell::Ink(game::PlayerId::North) => BoardCell::InkNorth,
            board::BoardCell::Special(game::PlayerId::South) => BoardCell::SpecialSouth,
            board::BoardCell::Special(game::PlayerId::North) => BoardCell::SpecialNorth,
        }
    }
}

impl vstd::std_specs::convert::FromSpecImpl<board::BoardCell> for BoardCell {
    open spec fn obeys_from_spec() -> bool {
        true
    }

    open spec fn from_spec(v: board::BoardCell) -> Self {
        spec_from_engine_cell(v)
    }
}

/// The wire cells of a row, as engine cells.
pub open spec fn engine_row(row: Seq<BoardCell>) -> Seq<board::BoardCell> {
    row.map_values(|c: BoardCell| spec_to_engine_cell(c))
}

/// The engine rows a wire board stands for: the width is that of the first
/// row, and longer rows are cut to it.
pub open spec fn spec_engine_grid(cells: Seq<Seq<BoardCell>>) -> Seq<Seq<board::BoardCell>> {
    let w = cells[0].len();
    Seq::new(cells.len(), |y: int| engine_row(cells[y].take(w as int)))
}

impl Board {
    /// The wire form of an engine board.
    pub fn from_engine(b: &board::Board) -> (r: Board)
        requires
            b.wf(),
        ensures
            r.name@ == b@.name,
            r.cells@.len() == b@.grid.len(),
            forall|y: int| 0 <= y < r.cells@.len() ==> #[trigger] r.cells@[y]@ == b@.grid[y].map_values(
                |c: board::BoardCell| spec_from_engine_cell(c),
            ),
    {
        let (w, h) = b.get_size();
        proof {
            board::lemma_board_dims(b@);
        }
        let mut cells: Vec<Vec<BoardCell>> = Vec::new();
        let mut y: i32 = 0;
        while y < h
            invariant
                b.wf(),
                w == b@.width(),
                h == b@.height(),
                0 <= y <= h,
                cells@.len() == y,
                forall|k: int| 0 <= k < y ==> #[trigger] cells@[k]@ == b@.grid[k].map_values(
                    |c: board::BoardCell| spec_from_engine_cell(c),
                ),
            decreases h - y,
        {
            let mut row: Vec<BoardCell> = Vec::new();
            let mut x: i32 = 0;
            assert(b@.grid[y as int].len() == w);
            while x < w
                invariant
                    b.wf(),
                    w == b@.width(),
                    h == b@.height(),
                    0 <= y < h,
                    b@.grid[y as int].len() == w,
                    0 <= x <= w,
                    row@ == b@.grid[y as int].take(x as int).map_values(|c: board::BoardCell| spec_from_engine_cell(c)),
                decreases w - x,
            {
                let c = b.get_cell(board::BoardPosition { x, y });
                row.push(BoardCell::from(c));
                assert(row@ =~= b@.grid[y as int].take(x + 1).map_values(|c: board::BoardCell| spec_from_engine_cell(c)));
                x += 1;
            }
            assert(b@.grid[y as int].take(w as int) =~= b@.grid[y as int]);
            cells.push(row);
            y += 1;
        }
        let name = string_of(b.get_name());
        Board { name, cells }
    }

    /// The engine board that a wire board stands for. Every row must be at
    /// least as long as the first one; longer rows are cut to its length.
    pub fn into_engine(self) -> (r: board::Board)
        requires
            self.cells@.len() >= 1,
            forall|y: int| 0 <= y < self.cells@.len() ==> #[trigger] self.cells@[y]@.len() >= self.cells@[0]@.len(),
            (board::BoardView {
                name: self.name@,
                grid: spec_engine_grid(self.cells@.map_values(|r: Vec<BoardCell>| r@)),
            }).wf(),
        ensures
            r.wf(),
            r@ == (board::BoardView {
                name: self.name@,
                grid: spec_engine_grid(self.cells@.map_values(|r: Vec<BoardCell>| r@)),
            }),
    {
        let ghost g = spec_engine_grid(self.cells@.map_values(|r: Vec<BoardCell>| r@));
        let h = self.cells.len();
        let w = self.cells[0].len();
        let mut cells: Vec<Vec<board::BoardCell>> = Vec::new();
        let mut y: usize = 0;
        while y < h
            invariant
                h == self.cells@.len(),
                w == self.cells@[0]@.len(),
                g == spec_engine_grid(self.cells@.map_values(|r: Vec<BoardCell>| r@)),
                forall|y: int| 0 <= y < self.cells@.len() ==> #[trigger] self.cells@[y]@.len() >= self.cells@[0]@.len(),
                0 <= y <= h,
                cells@.len() == y,
                forall|k: int| 0 <= k < y ==> #[trigger] cells@[k]@ == g[k],
            decreases h - y,
        {
            let src = &self.cells[y];
            assert(src@.len() >= w);
            let mut row: Vec<board::BoardCell> = Vec::new();
            let mut x: usize = 0;
            while x < w
                invariant
                    src@.len() >= w,
                    0 <= x <= w,
                    row@ == engine_row(src@.take(x as int)),
                decreases w - x,
            {
                row.push(board::BoardCell::from(src[x]));
                assert(row@ =~= engine_row(src@.take(x + 1)));
                x += 1;
            }
            assert(row@ =~= g[y as int]);
            cells.push(row);
            y += 1;
        }
        assert(cells@.map_values(|r: Vec<board::BoardCell>| r@) =~= g);
        board::Board::new(self.name, cells)
    }
}

/// A copy of a string slice as a `String`.
fn string_of(s: &str) -> (r: String)
    ensures
        r@ == s@,
{
    let mut out = empty_string();
    push_str(&mut out, s);
    out
}

/// A player on the wire.
#[derive(Clone, Copy, Debug, PartialEq, Eq, Structural)]
pub enum PlayerId {
    Sourth,
    North,
}

/// The engine player a wire player stands for.
pub open spec fn spec_to_engine_player(p: PlayerId) -> game::PlayerId {
    match p {
        PlayerId::Sourth => game::PlayerId::South,
        PlayerId::North => game::PlayerId::North,
    }
}

impl From<PlayerId> for game::PlayerId {
    fn from(val: PlayerId) -> (r: Self) {
        match val {
            PlayerId::Sourth => game::PlayerId::South,
            PlayerId::North => game::PlayerId::North,
        }
    }
}

impl vstd::std_specs::convert::FromSpecImpl<PlayerId> for game::PlayerId {
    open spec fn obeys_from_spec() -> bool {
        true
    }

    open spec fn from_spec(v: PlayerId) -> Self {
        spec_to_engine_player(v)
    }
}

/// A rotation on the wire.
#[derive(Clone, Copy, Debug, PartialEq, Eq, Structural)]
pub enum Rotation {
    Up,
    Right,
    Down,
    Left,
}

pub open spec fn spec_to_engine_rotation(r: Rotation) -> game::Rotation {
    match r {
        Rotation::Up => game::Rotation::Up,
        Rotation::Right => game::Rotation::Right,
        Rotation::Down => game::Rotation::Down,
        Rotation::Left => game::Rotation::Left,
    }
}

pub open spec fn spec_from_engine_rotation(r: game::Rotation) -> Rotation {
    match r {
        game::Rotation::Up => Rotation::Up,
        game::Rotation::Right => Rotation::Right,
        game::Rotation::Down => Rotation::Down,
        game::Rotation::Left => Rotation::Left,
    }
}

impl From<Rotation> for game::Rotation {
    fn from(val: Rotation) -> (r: Self) {
        match val {
            Rotation::Up => game::Rotation::Up,
            Rotation::Right => game::Rotation::Right,
            Rotation::Down => game::Rotation::Down,
            Rotation::Left => game::Rotation::Left,
        }
    }
}

impl vstd::std_specs::convert::FromSpecImpl<Rotation> for game::Rotation {
    open spec fn obeys_from_spec() -> bool {
        true
    }

    open spec fn from_spec(v: Rotation) -> Self {
        spec_to_engine_rotation(v)
    }
}

impl From<game::Rotation> for Rotation {
    fn from(r: game::Rotation) -> (res: Self) {
        match r {
            game::Rotation::Up => Rotation::Up,
            game::Rotation::Right => Rotation::Right,
            game::Rotation::Down => Rotation::Down,
            game::Rotation::Left => Rotation::Left,
        }
    }
}

impl vstd::std_specs::convert::FromSpecImpl<game::Rotation> for Rotation {
    open spec fn obeys_from_spec() -> bool {
        true
    }

    open spec fn from_spec(v: game::Rotation) -> Self {
        spec_from_engine_rotation(v)
    }
}

/// A card position on the wire.
#[derive(Clone, Copy, Debug, PartialEq, Eq, Structural)]
pub struct CardPosition {
    pub x: i32,
    pub y: i32,
    pub rotation: Rotation,
}

pub open spec fn spec_to_engine_position(p: CardPosition) -> card::CardPosition {
    card::CardPosition { x: p.x, y: p.y, rotation: spec_to_engine_rotation(p.rotation) }
}

pub open spec fn spec_from_engine_position(p: card::CardPosition) -> CardPosition {
    CardPosition { x: p.x, y: p.y, rotation: spec_from_engine_rotation(p.rotation) }
}

impl From<CardPosition> for card::CardPosition {
    fn from(val: CardPosition) -> (r: Self) {
        card::CardPosition { x: val.x, y: val.y, rotation: game::Rotation::from(val.rotation) }
    }
}

impl vstd::std_specs::convert::FromSpecImpl<CardPosition> for card::CardPosition {
    open spec fn obeys_from_spec() -> bool {
        true
    }

    open spec fn from_spec(v: CardPosition) -> Self {
        spec_to_engine_position(v)
    }
}

impl From<card::CardPosition> for CardPosition {
    fn from(a: card::CardPosition) -> (r: Self) {
        CardPosition { x: a.x, y: a.y, rotation: Rotation::from(a.rotation) }
    }
}

impl vstd::std_specs::convert::FromSpecImpl<card::CardPosition> for CardPosition {
    open spec fn obeys_from_spec() -> bool {
        true
    }

    open spec fn from_spec(v: card::CardPosition) -> Self {
        spec_from_engine_position(v)
    }
}

/// An action on the wire: the card is given by its id.
#[derive(Clone, Copy, Debug, PartialEq, Eq, Structural)]
pub enum Action {
    Pass(CardId),
    Put(CardId, CardPosition),
    Special(CardId, CardPosition),
}

/// The wire form of an engine action.
pub open spec fn spec_from_engine_action(a: game::ActionView) -> Action {
    match a {
        game::ActionView::Pass(c) => Action::Pass(c.id),
        game::ActionView::Put(c, p) => Action::Put(c.id, spec_from_engine_position(p)),
        game::ActionView::Special(c, p) => Action::Special(c.id, spec_from_engine_position(p)),
    }
}

impl From<game::Action> for Action {
    fn from(a: game::Action) -> (r: Self) {
        match a {
            game::Action::Pass(c) => Action::Pass(c.get_id()),
            game::Action::Put(c, pos) => Action::Put(c.get_id(), CardPosition::from(pos)),
            game::Action::Special(c, pos) => Action::Special(c.get_id(), CardPosition::from(pos)),
        }
    }
}

impl vstd::std_specs::convert::FromSpecImpl<game::Action> for Action {
    open spec fn obeys_from_spec() -> bool {
        true
    }

    open spec fn from_spec(v: game::Action) -> Self {
        spec_from_engine_action(v@)
    }
}

/// The engine action a wire action stands for, with its card looked up in `cards`.
pub open spec fn wire_to_engine(cards: Map<u32, card::Card>, a: Action) -> game::ActionView {
    match a {
        Action::Pass(c) => game::ActionView::Pass(cards[c]@),
        Action::Put(c, p) => game::ActionView::Put(cards[c]@, spec_to_engine_position(p)),
        Action::Special(c, p) => game::ActionView::Special(cards[c]@, spec_to_engine_position(p)),
    }
}

impl Action {
    /// The id of the card the action uses.
    pub open spec fn card_id(self) -> CardId {
        match self {
            Action::Pass(c) => c,
            Action::Put(c, _) => c,
            Action::Special(c, _) => c,
        }
    }

    /// The id of the card the action uses.
    pub fn get_card_id(&self) -> (r: CardId)
        ensures
            r == self.card_id(),
    {
        match self {
            Action::Pass(c) => *c,
            Action::Put(c, _) => *c,
            Action::Special(c, _) => *c,
        }
    }

    /// The engine action this wire action stands for, with its card looked up.
    pub fn convert(self, context: &game::Context) -> (r: game::Action)
        requires
            context.all_cards@.contains_key(self.card_id()),
        ensures
            r@ == wire_to_engine(context.all_cards@, self),
    {
        match self {
            Action::Pass(cid) => game::Action::Pass(context.get_card(cid)),
            Action::Put(cid, pos) => game::Action::Put(context.get_card(cid), card::CardPosition::from(pos)),
            Action::Special(cid, pos) => game::Action::Special(context.get_card(cid), card::CardPosition::from(pos)),
        }
    }
}

// ---------------------------------------------------------------------------
// Messages
// ---------------------------------------------------------------------------

/// A request from a client.
#[derive(Debug, PartialEq, Eq)]
pub enum TakoyakiRequest {
    /// The first message sent from the client; it is always sent as newline
    /// delimited JSON.
    Manmenmi(ManmenmiRequest),
    JoinGame(JoinGameRequest),
    AcceptHands(AcceptHandsRequest),
    SelectAction(SelectActionRequest),
}

/// A response from the server.
#[derive(Debug, PartialEq, Eq)]
pub enum TakoyakiResponse {
    /// Only this response can be returned for any type of request.
    Error(ErrorResponse),
    Manmenmi(ManmenmiResponse),
    JoinGame(JoinGameResponse),
    AcceptHands(AcceptHandsResponse),
    SelectAction(SelectActionResponse),
}

#[derive(Debug, PartialEq, Eq)]
pub struct ErrorResponse {
    pub code: ErrorCode,
    pub message: String,
}

impl ErrorResponse {
    /// The response for a client that took too long.
    pub fn new_timeout() -> (r: ErrorResponse)
        ensures
            r.code == ErrorCode::Timeout,
            r.message@ == "Timed out"@,
    {
        ErrorResponse { code: ErrorCode::Timeout, message: string_of("Timed out") }
    }
}

#[derive(Debug, PartialEq, Eq)]
pub struct ManmenmiRequest {
    pub preferred_format: WireFormat,
    pub name: String,
}

#[derive(Debug, PartialEq, Eq)]
pub struct ManmenmiResponse {
    pub available_games: Vec<GameInfo>,
}

#[derive(Debug, PartialEq, Eq)]
pub struct JoinGameRequest {
    pub game_id: GameId,
    pub deck: Vec<CardId>,
}

#[derive(Debug, PartialEq, Eq)]
pub struct JoinGameResponse {
    pub player_id: PlayerId,
    pub initial_hands: Vec<CardId>,
}

#[derive(Debug, PartialEq, Eq)]
pub struct AcceptHandsRequest {
    pub accept: bool,
}

#[derive(Debug, PartialEq, Eq)]
pub struct AcceptHandsResponse {
    pub hands: Vec<CardId>,
}

#[derive(Debug, PartialEq, Eq)]
pub struct SelectActionRequest {
    pub action: Action,
}

#[derive(Debug, PartialEq, Eq)]
pub struct SelectActionResponse {
    pub opponent_action: Action,
    pub hands: Vec<CardId>,
    pub game_result: Option<Scores>,
}

/// An error on a connection.
#[derive(Debug)]
pub struct Error {
    pub code: ErrorCode,
    pub message: String,
}

/// The response that reports a connection error to the client.
pub fn err_to_res(e: Error) -> (r: ErrorResponse)
    ensures
        r.code == e.code,
        r.message@ == e.message@,
{
    ErrorResponse { code: e.code, message: e.message }
}


/// Cells, rotations and card positions survive a round trip through the wire
/// form in both directions: the wire form loses nothing.
pub proof fn lemma_wire_round_trip(
    c: board::BoardCell,
    w: BoardCell,
    r: game::Rotation,
    q: Rotation,
    p: card::CardPosition,
    pw: CardPosition,
)
    ensures
        spec_to_engine_cell(spec_from_engine_cell(c)) == c,
        spec_from_engine_cell(spec_to_engine_cell(w)) == w,
        spec_to_engine_rotation(spec_from_engine_rotation(r)) == r,
        spec_from_engine_rotation(spec_to_engine_rotation(q)) == q,
        spec_to_engine_position(spec_from_engine_position(p)) == p,
        spec_from_engine_position(spec_to_engine_position(pw)) == pw,
{
}

}
