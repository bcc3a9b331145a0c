use vstd::prelude::*;

use std::collections::HashMap;

use crate::board::{BoardCell, BoardPosition};
use crate::game::{PlayerId, Rotation};

verus! {

broadcast use {vstd::string::group_string_axioms, vstd::std_specs::hash::group_hash_axioms};

/// The position of a cell within a card, relative to its top-left corner.
#[derive(Clone, Copy, Debug, PartialEq, Eq, Structural, Hash, PartialOrd, Ord)]
pub struct CardCellPosition {
    pub x: i32,
    pub y: i32,
}

/// What a square of a card paints.
#[derive(Clone, Copy, Debug, PartialEq, Eq, Structural, Hash, PartialOrd, Ord)]
pub enum CardCellType {
    Empty,
    Ink,
    Special,
}

/// A painted square of a card.
#[derive(Clone, Copy, Debug, PartialEq, Eq, Structural, Hash, PartialOrd, Ord)]
pub struct CardCell {
    pub position: CardCellPosition,
    pub cell_type: CardCellType,
    /// Used when both players paint the same square on the same turn:
    /// the lower priority wins.
    pub priority: i32,
}

/// The priority of a square that no card of the turn paints.
pub const PRIORITY_MAX: i32 = 1000;

/// The priority of a card's cell: special cells win over ink cells, and among
/// cells of the same type the card with fewer cells wins.
pub open spec fn spec_priority(t: CardCellType, cell_count: int) -> int {
    match t {
        CardCellType::Ink => cell_count + 128,
        _ => cell_count,
    }
}

impl CardCell {
    /// The priority of a cell of the given type on a card with `cell_count` cells.
    /// Special attacks do not change it.
    fn calc_cell_priority(cell_type: &CardCellType, cell_count: i32) -> (r: i32)
        requires
            *cell_type != CardCellType::Empty,
            cell_count + 128 <= i32::MAX,
        ensures
            r == spec_priority(*cell_type, cell_count as int),
    {
        match cell_type {
            CardCellType::Ink => cell_count + 128,
            _ => cell_count,
        }
    }
}

/// The cell a card square paints for a player.
pub open spec fn spec_to_board_cell(t: CardCellType, p: PlayerId) -> BoardCell {
    match t {
        CardCellType::Empty => BoardCell::Empty,
        CardCellType::Ink => BoardCell::Ink(p),
        CardCellType::Special => BoardCell::Special(p),
    }
}

/// The character that stands for a card square in the text form of a card.
pub open spec fn spec_card_char(t: CardCellType) -> char {
    match t {
        CardCellType::Empty => ' ',
        CardCellType::Ink => '=',
        CardCellType::Special => '*',
    }
}

/// Whether a character may appear in the text form of a card.
pub open spec fn is_card_char(ch: char) -> bool {
    ch == ' ' || ch == '=' || ch == '*'
}

/// The type of card square a character stands for.
pub open spec fn spec_card_cell_type(ch: char) -> CardCellType {
    if ch == '=' {
        CardCellType::Ink
    } else if ch == '*' {
        CardCellType::Special
    } else {
        CardCellType::Empty
    }
}

impl CardCellType {
    /// The character that stands for the type in the text form of a card.
    pub fn to_char(self) -> (r: char)
        ensures
            r == spec_card_char(self),
    {
        match self {
            CardCellType::Empty => ' ',
            CardCellType::Ink => '=',
            CardCellType::Special => '*',
        }
    }

    pub fn is_none(&self) -> (r: bool)
        ensures
            r == (*self == CardCellType::Empty),
    {
        matches!(self, CardCellType::Empty)
    }

    /// The board cell this card square paints for `player_id`.
    pub fn to_board_cell(&self, player_id: PlayerId) -> (r: BoardCell)
        ensures
            r == spec_to_board_cell(*self, player_id),
    {
        match self {
            CardCellType::Empty => BoardCell::Empty,
            CardCellType::Ink => BoardCell::Ink(player_id),
            CardCellType::Special => BoardCell::Special(player_id),
        }
    }
}

/// The painted squares of one row of a card's text form, in order.
pub open spec fn row_cells(row: Seq<char>, y: int, cell_count: int) -> Seq<CardCell>
    decreases row.len(),
{
    if row.len() == 0 {
        Seq::empty()
    } else {
        let prev = row_cells(row.drop_last(), y, cell_count);
        let t = spec_card_cell_type(row.last());
        if t == CardCellType::Empty {
            prev
        } else {
            prev.push(
                CardCell {
                    position: CardCellPosition { x: (row.len() - 1) as i32, y: y as i32 },
                    cell_type: t,
                    priority: spec_priority(t, cell_count) as i32,
                },
            )
        }
    }
}

/// The painted squares of a card's text form, row by row.
pub open spec fn lines_cells(lines: Seq<Seq<char>>, cell_count: int) -> Seq<CardCell>
    decreases lines.len(),
{
    if lines.len() == 0 {
        Seq::empty()
    } else {
        lines_cells(lines.drop_last(), cell_count) + row_cells(
            lines.last(),
            lines.len() - 1,
            cell_count,
        )
    }
}

/// The largest x coordinate of a non-empty sequence of cells.
pub open spec fn max_x(cells: Seq<CardCell>) -> int
    decreases cells.len(),
{
    if cells.len() <= 1 {
        cells[0].position.x as int
    } else {
        let m = max_x(cells.drop_last());
        if cells.last().position.x > m {
            cells.last().position.x as int
        } else {
            m
        }
    }
}

/// The largest y coordinate of a non-empty sequence of cells.
pub open spec fn max_y(cells: Seq<CardCell>) -> int
    decreases cells.len(),
{
    if cells.len() <= 1 {
        cells[0].position.y as int
    } else {
        let m = max_y(cells.drop_last());
        if cells.last().position.y > m {
            cells.last().position.y as int
        } else {
            m
        }
    }
}

/// How the sizes of a card's rotations relate: turned to the left, the card
/// is as wide as it is high upright; turned to the right, it is as wide as it
/// is high upright exactly when some upright cell lies on the top row.
pub proof fn lemma_rotation_sizes(c: CardView)
    requires
        c.wf(),
    ensures
        max_x(c.cells_of(Rotation::Left)) + 1 == max_y(c.cells_of(Rotation::Up)) + 1,
        (max_x(c.cells_of(Rotation::Right)) + 1 == max_y(c.cells_of(Rotation::Up)) + 1) <==> exists|i: int|
            0 <= i < c.cells_of(Rotation::Up).len() && #[trigger] c.cells_of(Rotation::Up)[i].position.y == 0,
{
    let up = c.cells[0];
    assert(c.cells_of(Rotation::Up) == up);
    assert(c.cells_of(Rotation::Left) == c.cells[3]);
    assert(c.cells_of(Rotation::Right) == c.cells[1]);
    assert(c.cells[3] == rotate_cells(Rotation::spec_from_index(3), up));
    assert(c.cells[1] == rotate_cells(Rotation::spec_from_index(1), up));
    let w = max_x(up) + 1;
    let h = max_y(up) + 1;
    let left = c.cells[3];
    let right = c.cells[1];
    lemma_max_y(up);
    lemma_max_x(left);
    lemma_max_x(right);
    assert forall|i: int| 0 <= i < up.len() implies #[trigger] left[i].position.x == up[i].position.y
        && right[i].position.x == max_y(up) - up[i].position.y by {
        assert(left[i] == rotate_cell(Rotation::Left, up[i], w, h));
        assert(right[i] == rotate_cell(Rotation::Right, up[i], w, h));
        assert(0 <= up[i].position.y < i32::MAX);
    }
    let jl = choose|i: int| 0 <= i < left.len() && #[trigger] left[i].position.x == max_x(left);
    let ju = choose|i: int| 0 <= i < up.len() && #[trigger] up[i].position.y == max_y(up);
    assert(left[ju].position.x == up[ju].position.y);
    assert(left[jl].position.x == up[jl].position.y);
    let jr = choose|i: int| 0 <= i < right.len() && #[trigger] right[i].position.x == max_x(right);
    assert(right[jr].position.x == max_y(up) - up[jr].position.y);
    if exists|i: int| 0 <= i < up.len() && #[trigger] up[i].position.y == 0 {
        let k = choose|i: int| 0 <= i < up.len() && #[trigger] up[i].position.y == 0;
        assert(right[k].position.x == max_y(up) - up[k].position.y);
    }
    if max_x(right) == max_y(up) {
        assert(up[jr].position.y == 0);
    }
}

/// The x coordinate of `(x, y)` after turning a `w` by `h` shape by `r`.
pub open spec fn rotate_x(r: Rotation, x: int, y: int, w: int, h: int) -> int {
    match r {
        Rotation::Up => x,
        Rotation::Right => h - 1 - y,
        Rotation::Down => w - 1 - x,
        Rotation::Left => y,
    }
}

/// The y coordinate of `(x, y)` after turning a `w` by `h` shape by `r`.
pub open spec fn rotate_y(r: Rotation, x: int, y: int, w: int, h: int) -> int {
    match r {
        Rotation::Up => y,
        Rotation::Right => x,
        Rotation::Down => h - 1 - y,
        Rotation::Left => w - 1 - x,
    }
}

/// A cell of a `w` by `h` card after turning the card by `r`.
pub open spec fn rotate_cell(r: Rotation, c: CardCell, w: int, h: int) -> CardCell {
    CardCell {
        position: CardCellPosition {
            x: rotate_x(r, c.position.x as int, c.position.y as int, w, h) as i32,
            y: rotate_y(r, c.position.x as int, c.position.y as int, w, h) as i32,
        },
        cell_type: c.cell_type,
        priority: c.priority,
    }
}

/// The cells of a card after turning it by `r`.
pub open spec fn rotate_cells(r: Rotation, cells: Seq<CardCell>) -> Seq<CardCell> {
    let w = max_x(cells) + 1;
    let h = max_y(cells) + 1;
    cells.map_values(|c: CardCell| rotate_cell(r, c, w, h))
}

/// No two cells share a position.
pub open spec fn distinct_positions(cells: Seq<CardCell>) -> bool {
    forall|i: int, j: int|
        0 <= i < cells.len() && 0 <= j < cells.len() && i != j ==> #[trigger] cells[i].position
            != #[trigger] cells[j].position
}

/// The upright shape of a well-formed card: at least one painted cell, all at
/// non-negative positions below `i32::MAX`, no two at the same position.
pub open spec fn base_wf(cells: Seq<CardCell>) -> bool {
    &&& cells.len() >= 1
    &&& forall|i: int|
        0 <= i < cells.len() ==> {
            &&& 0 <= #[trigger] cells[i].position.x < i32::MAX
            &&& 0 <= cells[i].position.y < i32::MAX
            &&& cells[i].cell_type != CardCellType::Empty
        }
    &&& distinct_positions(cells)
}

/// The mathematical content of a card.
pub ghost struct CardView {
    pub id: u32,
    pub name: Seq<char>,
    pub cell_count: i32,
    pub special_cost: i32,
    /// The cells of the card for each rotation, by rotation index.
    pub cells: Seq<Seq<CardCell>>,
}

impl CardView {
    /// The cells of the card turned by `r`.
    pub open spec fn cells_of(self, r: Rotation) -> Seq<CardCell> {
        self.cells[r.spec_index()]
    }

    /// A card has a well-formed upright shape, and the shape for each rotation
    /// is the upright shape turned.
    pub open spec fn wf(self) -> bool {
        &&& self.cells.len() == 4
        &&& base_wf(self.cells[0])
        &&& forall|i: int| 0 <= i < 4 ==> #[trigger] self.cells[i] == rotate_cells(
            Rotation::spec_from_index(i),
            self.cells[0],
        )
    }
}

/// A card: a named shape of ink and special cells, with a cost for special
/// attacks. The cells of each rotation (`Up`, `Right`, `Down`, `Left`) are a
/// list searched by position, not a hash map keyed by position: Verus's
/// specification of `HashMap` proves nothing of lookups under a struct key
/// whose `Hash` and `Eq` are derived.
#[derive(Debug, Hash)]
pub struct Card {
    id: u32,
    name: String,
    cell_count: i32,
    special_cost: i32,
    cells: Vec<Vec<CardCell>>,
}

impl View for Card {
    type V = CardView;

    closed spec fn view(&self) -> CardView {
        CardView {
            id: self.id,
            name: self.name@,
            cell_count: self.cell_count,
            special_cost: self.special_cost,
            cells: self.cells@.map_values(|v: Vec<CardCell>| v@),
        }
    }
}

impl Clone for Card {
    fn clone(&self) -> (r: Self)
        ensures
            r@ == self@,
    {
        proof {
            use_type_invariant(self);
        }
        let mut cells: Vec<Vec<CardCell>> = Vec::new();
        let mut i: usize = 0;
        while i < self.cells.len()
            invariant
                0 <= i <= self.cells@.len(),
                cells@.len() == i,
                forall|k: int| 0 <= k < i ==> #[trigger] cells@[k]@ == self.cells@[k]@,
            decreases self.cells@.len() - i,
        {
            cells.push(copy_cells(&self.cells[i]));
            i += 1;
        }
        let name = self.name.clone();
        assert(cells@.map_values(|v: Vec<CardCell>| v@) =~= self@.cells);
        Card { id: self.id, name, cell_count: self.cell_count, special_cost: self.special_cost, cells }
    }
}

/// Cards are the same card when their ids are equal.
impl PartialEq for Card {
    fn eq(&self, other: &Self) -> (r: bool) {
        self.id == other.id
    }
}

impl vstd::std_specs::cmp::PartialEqSpecImpl for Card {
    open spec fn obeys_eq_spec() -> bool {
        true
    }

    open spec fn eq_spec(&self, other: &Self) -> bool {
        self@.id == other@.id
    }
}

impl Eq for Card {

}

fn copy_cells(v: &Vec<CardCell>) -> (r: Vec<CardCell>)
    ensures
        r@ == v@,
{
    let mut r: Vec<CardCell> = Vec::new();
    let mut i: usize = 0;
    while i < v.len()
        invariant
            0 <= i <= v@.len(),
            r@ == v@.take(i as int),
        decreases v@.len() - i,
    {
        r.push(v[i]);
        assert(r@ =~= v@.take(i + 1));
        i += 1;
    }
    assert(r@ =~= v@);
    r
}

impl Card {
    pub open spec fn wf(&self) -> bool {
        self@.wf()
    }

    /// Every card is well formed: the only ways to make one are loading it
    /// from its text form and cloning.
    #[verifier::type_invariant]
    spec fn always_wf(self) -> bool {
        self@.wf()
    }

    /// Makes the well-formedness of this card known to the caller; it does
    /// nothing at run time.
    pub fn ensure_wf(&self)
        ensures
            self.wf(),
    {
        proof {
            use_type_invariant(self);
        }
    }

    pub fn get_id(&self) -> (r: u32)
        ensures
            r == self@.id,
    {
        self.id
    }

    pub fn get_name(&self) -> (r: &str)
        ensures
            r@ == self@.name,
    {
        self.name.as_str()
    }

    pub fn get_special_cost(&self) -> (r: i32)
        ensures
            r == self@.special_cost,
    {
        self.special_cost
    }

    /// The cells of the card turned by `rotation`.
    pub fn get_cells(&self, rotation: Rotation) -> (r: &[CardCell])
        requires
            self.wf(),
        ensures
            r@ == self@.cells_of(rotation),
    {
        let i = rotation.index();
        assert(self.cells@[i as int]@ == self@.cells[i as int]);
        self.cells[i].as_slice()
    }

    /// The cells of the card put at `card_position`, each with the board position it covers.
    pub fn get_cells_on_board_coord(&self, card_position: &CardPosition) -> (r: Vec<(BoardPosition, CardCell)>)
        requires
            self.wf(),
            forall|i: int| 0 <= i < self@.cells_of(card_position.rotation).len() ==> {
                let c = #[trigger] self@.cells_of(card_position.rotation)[i];
                &&& i32::MIN <= card_position.x + c.position.x <= i32::MAX
                &&& i32::MIN <= card_position.y + c.position.y <= i32::MAX
            },
        ensures
            r@.len() == self@.cells_of(card_position.rotation).len(),
            forall|i: int| 0 <= i < r@.len() ==> {
                let c = #[trigger] self@.cells_of(card_position.rotation)[i];
                &&& r@[i].1 == c
                &&& r@[i].0.x == card_position.x + c.position.x
                &&& r@[i].0.y == card_position.y + c.position.y
            },
    {
        let cells = self.get_cells(card_position.rotation);
        let mut r: Vec<(BoardPosition, CardCell)> = Vec::new();
        let mut i: usize = 0;
        while i < cells.len()
            invariant
                cells@ == self@.cells_of(card_position.rotation),
                forall|i: int| 0 <= i < cells@.len() ==> {
                    let c = #[trigger] cells@[i];
                    &&& i32::MIN <= card_position.x + c.position.x <= i32::MAX
                    &&& i32::MIN <= card_position.y + c.position.y <= i32::MAX
                },
                0 <= i <= cells@.len(),
                r@.len() == i,
                forall|k: int| 0 <= k < i ==> {
                    let c = #[trigger] cells@[k];
                    &&& r@[k].1 == c
                    &&& r@[k].0.x == card_position.x + c.position.x
                    &&& r@[k].0.y == card_position.y + c.position.y
                },
            decreases cells@.len() - i,
        {
            let cell = cells[i];
            let board_pos = BoardPosition {
                x: card_position.x + cell.position.x,
                y: card_position.y + cell.position.y,
            };
            r.push((board_pos, cell));
            i += 1;
        }
        r
    }

    /// The width of the card turned by `rotation`.
    pub fn calculate_width(&self, rotation: Rotation) -> (r: i32)
        requires
            self.wf(),
        ensures
            r == max_x(self@.cells_of(rotation)) + 1,
    {
        proof {
            lemma_rotated_bounds(self@, rotation);
        }
        max_x_exec(self.get_cells(rotation)) + 1
    }

    /// The height of the card turned by `rotation`.
    pub fn calculate_height(&self, rotation: Rotation) -> (r: i32)
        requires
            self.wf(),
        ensures
            r == max_y(self@.cells_of(rotation)) + 1,
    {
        proof {
            lemma_rotated_bounds(self@, rotation);
        }
        max_y_exec(self.get_cells(rotation)) + 1
    }
}

/// The largest x coordinate of a non-empty slice of cells.
fn max_x_exec(cells: &[CardCell]) -> (r: i32)
    requires
        cells@.len() >= 1,
    ensures
        r == max_x(cells@),
{
    let mut m: i32 = cells[0].position.x;
    let mut i: usize = 1;
    while i < cells.len()
        invariant
            1 <= i <= cells@.len(),
            m == max_x(cells@.take(i as int)),
        decreases cells@.len() - i,
    {
        assert(cells@.take(i + 1).drop_last() =~= cells@.take(i as int));
        if cells[i].position.x > m {
            m = cells[i].position.x;
        }
        i += 1;
    }
    assert(cells@.take(cells@.len() as int) =~= cells@);
    m
}

/// The largest y coordinate of a non-empty slice of cells.
fn max_y_exec(cells: &[CardCell]) -> (r: i32)
    requires
        cells@.len() >= 1,
    ensures
        r == max_y(cells@),
{
    let mut m: i32 = cells[0].position.y;
    let mut i: usize = 1;
    while i < cells.len()
        invariant
            1 <= i <= cells@.len(),
            m == max_y(cells@.take(i as int)),
        decreases cells@.len() - i,
    {
        assert(cells@.take(i + 1).drop_last() =~= cells@.take(i as int));
        if cells[i].position.y > m {
            m = cells[i].position.y;
        }
        i += 1;
    }
    assert(cells@.take(cells@.len() as int) =~= cells@);
    m
}

/// The maximum of a non-empty sequence is one of its elements and bounds all of them.
pub proof fn lemma_max_x(cells: Seq<CardCell>)
    requires
        cells.len() >= 1,
    ensures
        forall|i: int| 0 <= i < cells.len() ==> #[trigger] cells[i].position.x <= max_x(cells),
        exists|i: int| 0 <= i < cells.len() && #[trigger] cells[i].position.x == max_x(cells),
    decreases cells.len(),
{
    if cells.len() > 1 {
        lemma_max_x(cells.drop_last());
        let m = max_x(cells.drop_last());
        assert forall|i: int| 0 <= i < cells.len() - 1 implies #[trigger] cells[i] == cells.drop_last()[i] by {}
        let k = choose|i: int| 0 <= i < cells.drop_last().len() && #[trigger] cells.drop_last()[i].position.x == m;
        assert(cells[k].position.x == m);
        assert(cells[cells.len() - 1].position.x == cells.last().position.x);
    } else {
        assert(cells[0].position.x == max_x(cells));
    }
}

/// The maximum of a non-empty sequence is one of its elements and bounds all of them.
pub proof fn lemma_max_y(cells: Seq<CardCell>)
    requires
        cells.len() >= 1,
    ensures
        forall|i: int| 0 <= i < cells.len() ==> #[trigger] cells[i].position.y <= max_y(cells),
        exists|i: int| 0 <= i < cells.len() && #[trigger] cells[i].position.y == max_y(cells),
    decreases cells.len(),
{
    if cells.len() > 1 {
        lemma_max_y(cells.drop_last());
        let m = max_y(cells.drop_last());
        assert forall|i: int| 0 <= i < cells.len() - 1 implies #[trigger] cells[i] == cells.drop_last()[i] by {}
        let k = choose|i: int| 0 <= i < cells.drop_last().len() && #[trigger] cells.drop_last()[i].position.y == m;
        assert(cells[k].position.y == m);
        assert(cells[cells.len() - 1].position.y == cells.last().position.y);
    } else {
        assert(cells[0].position.y == max_y(cells));
    }
}

/// Every turned shape of a well-formed card lies in a rectangle at the origin
/// whose sides fit in `i32`.
pub proof fn lemma_rotated_bounds(card: CardView, r: Rotation)
    requires
        card.wf(),
    ensures
        card.cells_of(r).len() >= 1,
        0 <= max_x(card.cells_of(r)) < i32::MAX,
        0 <= max_y(card.cells_of(r)) < i32::MAX,
        forall|i: int| 0 <= i < card.cells_of(r).len() ==> {
            &&& 0 <= #[trigger] card.cells_of(r)[i].position.x <= max_x(card.cells_of(r))
            &&& 0 <= card.cells_of(r)[i].position.y <= max_y(card.cells_of(r))
        },
{
    let base = card.cells[0];
    lemma_max_x(base);
    lemma_max_y(base);
    let w = max_x(base) + 1;
    let h = max_y(base) + 1;
    let cs = card.cells_of(r);
    assert(cs == card.cells[r.spec_index()]);
    assert(cs == rotate_cells(r, base));
    assert(cs.len() == base.len());
    assert forall|i: int| 0 <= i < cs.len() implies {
        &&& 0 <= #[trigger] cs[i].position.x <= (if r == Rotation::Up || r == Rotation::Down { w - 1 } else { h - 1 })
        &&& 0 <= cs[i].position.y <= (if r == Rotation::Up || r == Rotation::Down { h - 1 } else { w - 1 })
    } by {
        assert(cs[i] == rotate_cell(r, base[i], w, h));
        assert(0 <= base[i].position.x < w);
    }
    lemma_max_x(cs);
    lemma_max_y(cs);
    let kx = choose|i: int| 0 <= i < cs.len() && #[trigger] cs[i].position.x == max_x(cs);
    let ky = choose|i: int| 0 <= i < cs.len() && #[trigger] cs[i].position.y == max_y(cs);
    assert(cs[kx].position.x == max_x(cs));
    assert(cs[ky].position.y == max_y(cs));
}

/// A position on a board where a card is put, with the card's rotation.
#[derive(Clone, Copy, Debug, PartialEq, Eq, Structural, Hash, PartialOrd, Ord)]
pub struct CardPosition {
    pub x: i32,
    pub y: i32,
    pub rotation: Rotation,
}

/// The ids of the given cards, in order.
pub fn to_ids(cards: &[Card]) -> (r: Vec<u32>)
    ensures
        r@ == cards@.map_values(|c: Card| c@.id),
{
    let mut r: Vec<u32> = Vec::new();
    let mut i: usize = 0;
    while i < cards.len()
        invariant
            0 <= i <= cards@.len(),
            r@ == cards@.take(i as int).map_values(|c: Card| c@.id),
        decreases cards@.len() - i,
    {
        r.push(cards[i].get_id());
        assert(r@ =~= cards@.take(i + 1).map_values(|c: Card| c@.id));
        i += 1;
    }
    assert(cards@.take(cards@.len() as int) =~= cards@);
    r
}

/// The cards with the given ids, looked up in `all_cards`.
pub fn card_ids_to_card_refs<'a>(all_cards: &'a HashMap<u32, Card>, card_ids: &[u32]) -> (r: Vec<&'a Card>)
    requires
        forall|i: int| 0 <= i < card_ids@.len() ==> all_cards@.contains_key(#[trigger] card_ids@[i]),
    ensures
        r@.len() == card_ids@.len(),
        forall|i: int| 0 <= i < card_ids@.len() ==> *#[trigger] r@[i] == all_cards@[card_ids@[i]],
{
    let mut r: Vec<&'a Card> = Vec::new();
    let mut i: usize = 0;
    while i < card_ids.len()
        invariant
            forall|i: int| 0 <= i < card_ids@.len() ==> all_cards@.contains_key(#[trigger] card_ids@[i]),
            0 <= i <= card_ids@.len(),
            r@.len() == i,
            forall|k: int| 0 <= k < i ==> *#[trigger] r@[k] == all_cards@[card_ids@[k]],
        decreases card_ids@.len() - i,
    {
        let id = card_ids[i];
        assert(all_cards@.contains_key(id));
        match all_cards.get(&id) {
            Some(card) => r.push(card),
            None => {
                assert(false);
            },
        }
        i += 1;
    }
    r
}


/// The character content of each row of a card's text form.
pub open spec fn string_lines_view(lines: Seq<String>) -> Seq<Seq<char>> {
    lines.map_values(|l: String| l@)
}

/// Every character of every row stands for a card square, and every row is
/// short enough for its positions to fit in `i32`.
pub open spec fn valid_card_lines(lines: Seq<Seq<char>>) -> bool {
    &&& lines.len() < i32::MAX
    &&& forall|y: int| 0 <= y < lines.len() ==> #[trigger] lines[y].len() < i32::MAX
    &&& forall|y: int, x: int| 0 <= y < lines.len() && 0 <= x < lines[y].len() ==> is_card_char(#[trigger] lines[y][x])
}

/// Whether the rows of a card's text form can be read as a card with
/// `cell_count` squares: every character stands for a square, the rows are
/// short enough for `i32` positions, the number of painted squares is
/// `cell_count`, and the count is at least one and leaves room for the
/// priorities of special squares.
pub fn card_lines_ok(cell_count: i32, lines: &[String]) -> (r: bool)
    ensures
        r == (valid_card_lines(string_lines_view(lines@)) && cell_count == lines_cells(
            string_lines_view(lines@),
            cell_count as int,
        ).len() && 1 <= cell_count <= i32::MAX - 128),
{
    let ghost lv = string_lines_view(lines@);
    if lines.len() >= 0x7fff_ffffusize {
        return false;
    }
    let mut y: usize = 0;
    while y < lines.len()
        invariant
            lv == string_lines_view(lines@),
            lines@.len() < i32::MAX,
            0 <= y <= lines@.len(),
            forall|k: int| 0 <= k < y ==> #[trigger] lv[k].len() < i32::MAX,
            forall|k: int, x: int| 0 <= k < y && 0 <= x < lv[k].len() ==> is_card_char(#[trigger] lv[k][x]),
        decreases lines@.len() - y,
    {
        let line: &str = lines[y].as_str();
        assert(line@ == lv[y as int]);
        if !line.is_ascii() {
            proof {
                let i = choose|i: int| 0 <= i < line@.len() && !('\0' <= #[trigger] line@[i] <= '\u{7f}');
                assert(!is_card_char(lv[y as int][i]));
            }
            return false;
        }
        let bytes = line.as_bytes();
        assert(bytes@ =~= Seq::new(line@.len(), |i| line@.index(i) as u8));
        if bytes.len() >= 0x7fff_ffffusize {
            return false;
        }
        let mut x: usize = 0;
        while x < bytes.len()
            invariant
                bytes@.len() == line@.len(),
                lv == string_lines_view(lines@),
                y < lines@.len(),
                line@ == lv[y as int],
                vstd::string::is_ascii(line),
                forall|i: int| 0 <= i < bytes@.len() ==> #[trigger] bytes@[i] == line@[i] as u8,
                0 <= x <= bytes@.len(),
                forall|i: int| 0 <= i < x ==> is_card_char(#[trigger] line@[i]),
            decreases bytes@.len() - x,
        {
            let b = bytes[x];
            assert(b == line@[x as int] as u8);
            assert('\0' <= line@[x as int] <= '\u{7f}');
            if !(b == 32u8 || b == 61u8 || b == 42u8) {
                assert(!is_card_char(lv[y as int][x as int]));
                return false;
            }
            x += 1;
        }
        y += 1;
    }
    if cell_count < 1 || cell_count > i32::MAX - 128 {
        return false;
    }
    let cells = read_cells(cell_count, lines);
    cells.len() == cell_count as usize
}

/// The card read from its text form: its cells upright and turned by each rotation.
pub open spec fn spec_load_card(
    id: u32,
    name: Seq<char>,
    cell_count: i32,
    special_cost: i32,
    lines: Seq<Seq<char>>,
) -> CardView {
    let base = lines_cells(lines, cell_count as int);
    CardView {
        id,
        name,
        cell_count,
        special_cost,
        cells: Seq::new(4, |i: int| rotate_cells(Rotation::spec_from_index(i), base)),
    }
}

/// Makes a card from its id, name, cell count, special cost and the rows of its text form.
pub fn load_card_from_lines(
    id: u32,
    name: String,
    cell_count: i32,
    special_cost: i32,
    lines: &[String],
) -> (r: Card)
    requires
        valid_card_lines(string_lines_view(lines@)),
        cell_count == lines_cells(string_lines_view(lines@), cell_count as int).len(),
        1 <= cell_count <= i32::MAX - 128,
    ensures
        r.wf(),
        r@ == spec_load_card(id, name@, cell_count, special_cost, string_lines_view(lines@)),
{
    let ghost lv = string_lines_view(lines@);
    let cells = read_cells(cell_count, lines);
    let ghost base = lines_cells(lv, cell_count as int);
    proof {
        lemma_lines_cells(lv, cell_count as int);
        lemma_max_x(base);
        lemma_max_y(base);
    }
    let width = max_x_exec(cells.as_slice()) + 1;
    let height = max_y_exec(cells.as_slice()) + 1;
    let mut cells_variations: Vec<Vec<CardCell>> = Vec::new();
    let rotations = Rotation::values();
    let mut i: usize = 0;
    while i < 4
        invariant
            cells@ == base,
            base_wf(base),
            width == max_x(base) + 1,
            height == max_y(base) + 1,
            forall|k: int| 0 <= k < 4 ==> #[trigger] rotations@[k] == Rotation::spec_from_index(k),
            0 <= i <= 4,
            cells_variations@.len() == i,
            forall|k: int| 0 <= k < i ==> #[trigger] cells_variations@[k]@ == rotate_cells(Rotation::spec_from_index(k), base),
        decreases 4 - i,
    {
        let rot_cells = rotate_card_cells(rotations[i], cells.as_slice(), width, height);
        cells_variations.push(rot_cells);
        i += 1;
    }
    let ghost name_view = name@;
    let ghost target = spec_load_card(id, name_view, cell_count, special_cost, lv);
    assert(cells_variations@.map_values(|v: Vec<CardCell>| v@) =~= target.cells);
    proof {
        assert forall|i: int| 0 <= i < 4 implies #[trigger] target.cells[i] == rotate_cells(Rotation::spec_from_index(i), target.cells[0]) by {
            lemma_rotate_up(base);
        }
    }
    Card { id, name, cell_count, special_cost, cells: cells_variations }
}

/// Turning by `Up` leaves a well-formed shape as it is.
proof fn lemma_rotate_up(base: Seq<CardCell>)
    requires
        base_wf(base),
    ensures
        rotate_cells(Rotation::Up, base) == base,
{
    assert(rotate_cells(Rotation::Up, base) =~= base);
}

/// The cells of each turned shape, computed from the upright shape.
fn rotate_card_cells(rotation: Rotation, cells: &[CardCell], width: i32, height: i32) -> (r: Vec<CardCell>)
    requires
        base_wf(cells@),
        width == max_x(cells@) + 1,
        height == max_y(cells@) + 1,
    ensures
        r@ == rotate_cells(rotation, cells@),
{
    proof {
        lemma_max_x(cells@);
        lemma_max_y(cells@);
    }
    let mut r: Vec<CardCell> = Vec::new();
    let mut i: usize = 0;
    while i < cells.len()
        invariant
            base_wf(cells@),
            width == max_x(cells@) + 1,
            height == max_y(cells@) + 1,
            forall|k: int| 0 <= k < cells@.len() ==> #[trigger] cells@[k].position.x <= max_x(cells@),
            forall|k: int| 0 <= k < cells@.len() ==> #[trigger] cells@[k].position.y <= max_y(cells@),
            0 <= i <= cells@.len(),
            r@ == cells@.take(i as int).map_values(|c: CardCell| rotate_cell(rotation, c, width as int, height as int)),
        decreases cells@.len() - i,
    {
        r.push(rotate_card_cell(rotation, cells[i], width, height));
        assert(r@ =~= cells@.take(i + 1).map_values(|c: CardCell| rotate_cell(rotation, c, width as int, height as int)));
        i += 1;
    }
    assert(cells@.take(cells@.len() as int) =~= cells@);
    r
}

/// A cell of a `width` by `height` shape after turning the shape by `rotation`.
fn rotate_card_cell(rotation: Rotation, cell: CardCell, width: i32, height: i32) -> (r: CardCell)
    requires
        0 <= cell.position.x < width,
        0 <= cell.position.y < height,
    ensures
        r == rotate_cell(rotation, cell, width as int, height as int),
        0 <= r.position.x,
        0 <= r.position.y,
{
    let position = cell.position;
    let rotated_pos = match rotation {
        Rotation::Up => position,
        Rotation::Right => CardCellPosition { x: -position.y + height - 1, y: position.x },
        Rotation::Down => CardCellPosition { x: -position.x + width - 1, y: -position.y + height - 1 },
        Rotation::Left => CardCellPosition { x: position.y, y: -position.x + width - 1 },
    };
    CardCell { position: rotated_pos, cell_type: cell.cell_type, priority: cell.priority }
}

/// Facts about the cells of one row: they lie in the row, are painted, have the
/// priority of their type, and appear from left to right.
proof fn lemma_row_cells(row: Seq<char>, y: int, cell_count: int)
    requires
        row.len() < i32::MAX,
    ensures
        forall|i: int| 0 <= i < row_cells(row, y, cell_count).len() ==> {
            let c = #[trigger] row_cells(row, y, cell_count)[i];
            &&& c.position.y == y as i32
            &&& 0 <= c.position.x < row.len()
            &&& c.cell_type != CardCellType::Empty
            &&& c.priority == spec_priority(c.cell_type, cell_count) as i32
        },
        forall|i: int, j: int| 0 <= i < j < row_cells(row, y, cell_count).len() ==>
            #[trigger] row_cells(row, y, cell_count)[i].position.x < #[trigger] row_cells(row, y, cell_count)[j].position.x,
        row_cells(row, y, cell_count).len() <= row.len(),
    decreases row.len(),
{
    if row.len() > 0 {
        lemma_row_cells(row.drop_last(), y, cell_count);
        let prev = row_cells(row.drop_last(), y, cell_count);
        let all = row_cells(row, y, cell_count);
        assert forall|i: int| 0 <= i < prev.len() implies #[trigger] all[i] == prev[i] by {}
    }
}

/// Facts about the cells of a card's text form: each lies on its row, within
/// the row's length, and they appear row by row, each row from left to right.
proof fn lemma_lines_cells(lines: Seq<Seq<char>>, cell_count: int)
    requires
        valid_card_lines(lines),
    ensures
        forall|i: int| 0 <= i < lines_cells(lines, cell_count).len() ==> {
            let c = #[trigger] lines_cells(lines, cell_count)[i];
            &&& 0 <= c.position.y < lines.len()
            &&& 0 <= c.position.x < lines[c.position.y as int].len()
            &&& c.cell_type != CardCellType::Empty
            &&& c.priority == spec_priority(c.cell_type, cell_count) as i32
        },
        forall|i: int, j: int| 0 <= i < j < lines_cells(lines, cell_count).len() ==> {
            let a = #[trigger] lines_cells(lines, cell_count)[i];
            let b = #[trigger] lines_cells(lines, cell_count)[j];
            a.position.y < b.position.y || (a.position.y == b.position.y && a.position.x < b.position.x)
        },
        lines_cells(lines, cell_count).len() >= 1 ==> base_wf(lines_cells(lines, cell_count)),
    decreases lines.len(),
{
    if lines.len() > 0 {
        let prev = lines.drop_last();
        assert(valid_card_lines(prev)) by {
            assert forall|y: int| 0 <= y < prev.len() implies #[trigger] prev[y].len() < i32::MAX by {
                assert(prev[y] == lines[y]);
            }
            assert forall|y: int, x: int| 0 <= y < prev.len() && 0 <= x < prev[y].len() implies is_card_char(#[trigger] prev[y][x]) by {
                assert(prev[y] == lines[y]);
            }
        }
        lemma_lines_cells(prev, cell_count);
        let y = lines.len() - 1;
        lemma_row_cells(lines.last(), y, cell_count);
        let a = lines_cells(prev, cell_count);
        let b = row_cells(lines.last(), y, cell_count);
        let all = lines_cells(lines, cell_count);
        assert(all == a + b);
        assert(lines.last().len() < i32::MAX);
        assert forall|i: int| 0 <= i < all.len() implies {
            let c = #[trigger] all[i];
            &&& 0 <= c.position.y < lines.len()
            &&& 0 <= c.position.x < lines[c.position.y as int].len()
            &&& c.cell_type != CardCellType::Empty
            &&& c.priority == spec_priority(c.cell_type, cell_count) as i32
        } by {
            if i < a.len() {
                assert(all[i] == a[i]);
                assert(lines[a[i].position.y as int] == prev[a[i].position.y as int]);
            } else {
                assert(all[i] == b[i - a.len()]);
            }
        }
        assert forall|i: int, j: int| 0 <= i < j < all.len() implies {
            let p = #[trigger] all[i];
            let q = #[trigger] all[j];
            p.position.y < q.position.y || (p.position.y == q.position.y && p.position.x < q.position.x)
        } by {
            if j < a.len() {
                assert(all[i] == a[i] && all[j] == a[j]);
            } else if i < a.len() {
                assert(all[i] == a[i] && all[j] == b[j - a.len()]);
            } else {
                assert(all[i] == b[i - a.len()] && all[j] == b[j - a.len()]);
            }
        }
        if all.len() >= 1 {
            assert forall|i: int, j: int| 0 <= i < all.len() && 0 <= j < all.len() && i != j implies #[trigger] all[i].position
                != #[trigger] all[j].position by {
                if i < j {
                    let p = all[i];
                    let q = all[j];
                    assert(p.position.y < q.position.y || (p.position.y == q.position.y && p.position.x < q.position.x));
                } else {
                    let p = all[j];
                    let q = all[i];
                    assert(p.position.y < q.position.y || (p.position.y == q.position.y && p.position.x < q.position.x));
                }
            }
        }
    }
}

/// The painted squares of a card's text form.
fn read_cells(cell_count: i32, lines: &[String]) -> (r: Vec<CardCell>)
    requires
        valid_card_lines(string_lines_view(lines@)),
        cell_count <= i32::MAX - 128,
    ensures
        r@ == lines_cells(string_lines_view(lines@), cell_count as int),
{
    let ghost lv = string_lines_view(lines@);
    let mut card_cells: Vec<CardCell> = Vec::new();
    let mut y: usize = 0;
    while y < lines.len()
        invariant
            lv == string_lines_view(lines@),
            valid_card_lines(lv),
            cell_count <= i32::MAX - 128,
            0 <= y <= lines@.len(),
            card_cells@ == lines_cells(lv.take(y as int), cell_count as int),
        decreases lines@.len() - y,
    {
        let line: &str = lines[y].as_str();
        assert(line@ == lv[y as int]);
        assert(vstd::string::is_ascii(line)) by {
            assert forall|i: int| 0 <= i < line@.len() implies '\0' <= #[trigger] line@[i] <= '\u{7f}' by {
                assert(is_card_char(lv[y as int][i]));
            }
        }
        let bytes = line.as_bytes();
        assert(bytes@ =~= Seq::new(line@.len(), |i| line@.index(i) as u8));
        assert(lv.take(y + 1).drop_last() =~= lv.take(y as int));
        assert(lv.take(y + 1).last() == line@);
        let mut x: usize = 0;
        while x < bytes.len()
            invariant
                bytes@.len() == line@.len(),
                line@.len() < i32::MAX,
                y < i32::MAX,
                cell_count <= i32::MAX - 128,
                forall|i: int| 0 <= i < bytes@.len() ==> #[trigger] bytes@[i] == line@[i] as u8,
                forall|i: int| 0 <= i < line@.len() ==> is_card_char(#[trigger] line@[i]),
                0 <= x <= bytes@.len(),
                card_cells@ == lines_cells(lv.take(y as int), cell_count as int) + row_cells(
                    line@.take(x as int),
                    y as int,
                    cell_count as int,
                ),
            decreases bytes@.len() - x,
        {
            let ch = bytes[x];
            assert(line@.take(x + 1).drop_last() =~= line@.take(x as int));
            assert(line@.take(x + 1).last() == line@[x as int]);
            let cell_type = if ch == 61u8 {
                CardCellType::Ink
            } else if ch == 42u8 {
                CardCellType::Special
            } else {
                CardCellType::Empty
            };
            assert(cell_type == spec_card_cell_type(line@[x as int])) by {
                assert(is_card_char(line@[x as int]));
            }
            if !cell_type.is_none() {
                let position = CardCellPosition { x: x as i32, y: y as i32 };
                let priority = CardCell::calc_cell_priority(&cell_type, cell_count);
                card_cells.push(CardCell { position, cell_type, priority });
            }
            x += 1;
        }
        assert(line@.take(line@.len() as int) =~= line@);
        y += 1;
    }
    assert(lv.take(lines@.len() as int) =~= lv);
    card_cells
}


// ---------------------------------------------------------------------------
// Text forms
// ---------------------------------------------------------------------------

/// The short text form of a card: `(id)name`.
pub open spec fn spec_fmt_short(c: CardView) -> Seq<char> {
    "("@ + crate::text::spec_decimal(c.id as int) + ")"@ + c.name
}

/// The text form of a list of cards: `[` then each short form followed by `,`, then `]`.
pub open spec fn spec_cards_list(cards: Seq<CardView>) -> Seq<char>
    decreases cards.len(),
{
    if cards.len() == 0 {
        Seq::empty()
    } else {
        spec_cards_list(cards.drop_last()) + spec_fmt_short(cards.last()) + ","@
    }
}

/// The character shown at `(x, y)` of a shape: the character of the cell
/// there, or a space.
pub open spec fn shape_char(cells: Seq<CardCell>, x: int, y: int) -> char {
    match crate::state::find_cell(cells, x, y) {
        Some(c) => spec_card_char(c.cell_type),
        None => ' ',
    }
}

/// Row `y` of a shape `w` squares wide, with its line break.
pub open spec fn shape_row(cells: Seq<CardCell>, y: int, w: int) -> Seq<char> {
    Seq::new(w as nat, |x: int| shape_char(cells, x, y)).push('\n')
}

/// The first `h` rows of a shape `w` squares wide.
pub open spec fn shape_rows(cells: Seq<CardCell>, w: int, h: int) -> Seq<char>
    decreases h,
{
    if h <= 0 {
        Seq::empty()
    } else {
        shape_rows(cells, w, h - 1) + shape_row(cells, h - 1, w)
    }
}

/// The text form of a card: `id: name`, then `cnt: N cost: C`, then its
/// upright shape row by row.
pub open spec fn spec_card_text(c: CardView) -> Seq<char> {
    crate::text::spec_decimal(c.id as int) + ": "@ + c.name + "\n"@ + "cnt: "@ + crate::text::spec_decimal(
        c.cell_count as int,
    ) + " cost: "@ + crate::text::spec_decimal(c.special_cost as int) + "\n"@ + shape_rows(
        c.cells_of(Rotation::Up),
        max_x(c.cells_of(Rotation::Up)) + 1,
        max_y(c.cells_of(Rotation::Up)) + 1,
    )
}

/// The character shown at `(x, y)` of a shape.
fn shape_char_at(cells: &[CardCell], x: i32, y: i32) -> (r: char)
    ensures
        r == shape_char(cells@, x as int, y as int),
{
    let mut k: usize = cells.len();
    assert(cells@.take(k as int) =~= cells@);
    while k > 0
        invariant
            0 <= k <= cells@.len(),
            crate::state::find_cell(cells@, x as int, y as int) == crate::state::find_cell(cells@.take(k as int), x as int, y as int),
        decreases k,
    {
        let c = cells[k - 1];
        assert(cells@.take(k as int).last() == c);
        assert(cells@.take(k as int).drop_last() =~= cells@.take(k - 1));
        if c.position.x == x && c.position.y == y {
            return c.cell_type.to_char();
        }
        k -= 1;
    }
    assert(cells@.take(0) =~= Seq::<CardCell>::empty());
    ' '
}

impl Card {
    /// The short text form of the card: `(id)name`.
    pub fn fmt_short(&self) -> (r: String)
        ensures
            r@ == spec_fmt_short(self@),
    {
        let mut out = crate::text::empty_string();
        crate::text::push_str(&mut out, "(");
        crate::text::push_str(&mut out, crate::text::decimal(self.id as i64).as_str());
        crate::text::push_str(&mut out, ")");
        crate::text::push_str(&mut out, self.name.as_str());
        out
    }

    /// The text form of a list of cards: `[(1)a,(2)b,]`.
    pub fn format_cards(cards: &[Card]) -> (r: String)
        ensures
            r@ == "["@ + spec_cards_list(cards@.map_values(|c: Card| c@)) + "]"@,
    {
        let ghost views = cards@.map_values(|c: Card| c@);
        let mut out = crate::text::empty_string();
        crate::text::push_str(&mut out, "[");
        let mut i: usize = 0;
        while i < cards.len()
            invariant
                0 <= i <= cards@.len(),
                views == cards@.map_values(|c: Card| c@),
                out@ == "["@ + spec_cards_list(views.take(i as int)),
            decreases cards@.len() - i,
        {
            let short = cards[i].fmt_short();
            crate::text::push_str(&mut out, short.as_str());
            crate::text::push_str(&mut out, ",");
            assert(views.take(i + 1).drop_last() =~= views.take(i as int));
            assert(views.take(i + 1).last() == cards@[i as int]@);
            assert(out@ =~= "["@ + spec_cards_list(views.take(i + 1)));
            i += 1;
        }
        assert(views.take(cards@.len() as int) =~= views);
        crate::text::push_str(&mut out, "]");
        out
    }

    /// The text form of the card: `id: name`, then `cnt: N cost: C`, then
    /// its upright shape row by row.
    pub fn to_text(&self) -> (r: String)
        ensures
            r@ == spec_card_text(self@),
    {
        self.ensure_wf();
        let mut out = crate::text::empty_string();
        crate::text::push_str(&mut out, crate::text::decimal(self.id as i64).as_str());
        crate::text::push_str(&mut out, ": ");
        crate::text::push_str(&mut out, self.name.as_str());
        crate::text::push_str(&mut out, "\n");
        crate::text::push_str(&mut out, "cnt: ");
        crate::text::push_str(&mut out, crate::text::decimal(self.cell_count as i64).as_str());
        crate::text::push_str(&mut out, " cost: ");
        crate::text::push_str(&mut out, crate::text::decimal(self.special_cost as i64).as_str());
        crate::text::push_str(&mut out, "\n");
        let ghost head = out@;
        let rotation = Rotation::Up;
        let width = self.calculate_width(rotation);
        let height = self.calculate_height(rotation);
        let cells = self.get_cells(rotation);
        proof {
            lemma_rotated_bounds(self@, rotation);
        }
        let mut y: i32 = 0;
        while y < height
            invariant
                cells@ == self@.cells_of(Rotation::Up),
                0 <= y <= height,
                1 <= width,
                out@ == head + shape_rows(cells@, width as int, y as int),
            decreases height - y,
        {
            let ghost row_start = out@;
            let mut x: i32 = 0;
            while x < width
                invariant
                    0 <= x <= width,
                    out@ == row_start + Seq::new(x as nat, |i: int| shape_char(cells@, i, y as int)),
                decreases width - x,
            {
                let ch = shape_char_at(cells, x, y);
                crate::text::push_char(&mut out, ch);
                assert(out@ =~= row_start + Seq::new((x + 1) as nat, |i: int| shape_char(cells@, i, y as int)));
                x += 1;
            }
            crate::text::push_char(&mut out, '\n');
            assert(out@ =~= head + shape_rows(cells@, width as int, y + 1));
            y += 1;
        }
        assert(out@ =~= spec_card_text(self@));
        out
    }
}
}
