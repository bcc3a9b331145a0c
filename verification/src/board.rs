use vstd::prelude::*;

use crate::game::PlayerId;

verus! {

broadcast use vstd::string::group_string_axioms;

/// The content of one square of a board.
#[derive(Clone, Copy, Debug, PartialEq, Eq, Structural, Hash)]
pub enum BoardCell {
    Empty,
    Wall,
    Ink(PlayerId),
    Special(PlayerId),
}

/// The character that stands for a cell in the text form of a board.
pub open spec fn spec_cell_to_char(c: BoardCell) -> char {
    match c {
        BoardCell::Empty => '.',
        BoardCell::Wall => '#',
        BoardCell::Ink(PlayerId::South) => 'p',
        BoardCell::Special(PlayerId::South) => 'P',
        BoardCell::Ink(PlayerId::North) => 'o',
        BoardCell::Special(PlayerId::North) => 'O',
    }
}

/// Whether a character may appear in the text form of a board.
pub open spec fn is_board_char(ch: char) -> bool {
    ch == '.' || ch == ' ' || ch == '#' || ch == 'p' || ch == 'P' || ch == 'o' || ch == 'O'
}

/// The cell that a character of the text form of a board stands for.
/// A space is read as a wall.
pub open spec fn spec_cell_from_char(ch: char) -> BoardCell {
    if ch == '.' {
        BoardCell::Empty
    } else if ch == 'p' {
        BoardCell::Ink(PlayerId::South)
    } else if ch == 'P' {
        BoardCell::Special(PlayerId::South)
    } else if ch == 'o' {
        BoardCell::Ink(PlayerId::North)
    } else if ch == 'O' {
        BoardCell::Special(PlayerId::North)
    } else {
        BoardCell::Wall
    }
}

/// Whether a cell belongs to (is painted by) the given player.
pub open spec fn owned_by(c: BoardCell, p: PlayerId) -> bool {
    c == BoardCell::Ink(p) || c == BoardCell::Special(p)
}

impl BoardCell {
    /// The character that stands for the cell in the text form of a board.
    pub fn to_char(self) -> (r: char)
        ensures
            r == spec_cell_to_char(self),
    {
        match self {
            BoardCell::Empty => '.',
            BoardCell::Wall => '#',
            BoardCell::Ink(PlayerId::South) => 'p',
            BoardCell::Special(PlayerId::South) => 'P',
            BoardCell::Ink(PlayerId::North) => 'o',
            BoardCell::Special(PlayerId::North) => 'O',
        }
    }

    /// Reads a cell from its character; a character that stands for no cell is an error.
    pub fn from_char(ch: char) -> (r: Result<BoardCell, String>)
        ensures
            is_board_char(ch) <==> r is Ok,
            r matches Ok(c) ==> c == spec_cell_from_char(ch),
            r matches Err(m) ==> m@ == "Invalid character for a board cell: '"@ + seq![ch] + "'"@,
    {
        match ch {
            '.' => Ok(BoardCell::Empty),
            ' ' | '#' => Ok(BoardCell::Wall),
            'p' => Ok(BoardCell::Ink(PlayerId::South)),
            'P' => Ok(BoardCell::Special(PlayerId::South)),
            'o' => Ok(BoardCell::Ink(PlayerId::North)),
            'O' => Ok(BoardCell::Special(PlayerId::North)),
            _ => Err(invalid_char_message(ch)),
        }
    }

    pub fn is_none(&self) -> (r: bool)
        ensures
            r == (*self == BoardCell::Empty),
    {
        *self == BoardCell::Empty
    }

    pub fn is_filled(&self) -> (r: bool)
        ensures
            r == (*self != BoardCell::Empty),
    {
        !self.is_none()
    }

    pub fn is_wall(&self) -> (r: bool)
        ensures
            r == (*self == BoardCell::Wall),
    {
        *self == BoardCell::Wall
    }
}

/// The message of the error for a character that stands for no cell.
fn invalid_char_message(ch: char) -> (r: String)
    ensures
        r@ == "Invalid character for a board cell: '"@ + seq![ch] + "'"@,
{
    let mut out = crate::text::empty_string();
    crate::text::push_str(&mut out, "Invalid character for a board cell: '");
    crate::text::push_char(&mut out, ch);
    crate::text::push_str(&mut out, "'");
    out
}

/// A position on a board; it may lie outside of the board.
#[derive(Clone, Copy, Debug, PartialEq, Eq, Structural, Hash, PartialOrd, Ord)]
pub struct BoardPosition {
    pub x: i32,
    pub y: i32,
}

/// The mathematical content of a board: its name and its rows of cells.
pub ghost struct BoardView {
    pub name: Seq<char>,
    pub grid: Seq<Seq<BoardCell>>,
}

/// The eight neighbours of a square, as offsets.
pub open spec fn around_dx(i: int) -> int {
    if i == 0 || i == 3 || i == 5 {
        -1
    } else if i == 1 || i == 6 {
        0
    } else {
        1
    }
}

pub open spec fn around_dy(i: int) -> int {
    if i <= 2 {
        -1
    } else if i <= 4 {
        0
    } else {
        1
    }
}

/// The `i`-th of the eight neighbour offsets.
pub(crate) fn around_offset(i: usize) -> (r: (i32, i32))
    requires
        i < 8,
    ensures
        r.0 == around_dx(i as int),
        r.1 == around_dy(i as int),
{
    match i {
        0 => (-1, -1),
        1 => (0, -1),
        2 => (1, -1),
        3 => (-1, 0),
        4 => (1, 0),
        5 => (-1, 1),
        6 => (0, 1),
        _ => (1, 1),
    }
}

/// The number of `x` in `[0, w)` for which `pred(x, y)` holds.
pub open spec fn count_row(y: int, w: int, pred: spec_fn(int, int) -> bool) -> nat
    decreases w,
{
    if w <= 0 {
        0
    } else {
        count_row(y, w - 1, pred) + if pred(w - 1, y) {
            1nat
        } else {
            0nat
        }
    }
}

/// The number of squares of the `w` by `h` rectangle at the origin for which `pred` holds.
pub open spec fn count_grid(w: int, h: int, pred: spec_fn(int, int) -> bool) -> nat
    decreases h,
{
    if h <= 0 {
        0
    } else {
        count_grid(w, h - 1, pred) + count_row(h - 1, w, pred)
    }
}

impl BoardView {
    pub open spec fn height(self) -> int {
        self.grid.len() as int
    }

    pub open spec fn width(self) -> int {
        if self.grid.len() == 0 {
            0
        } else {
            self.grid[0].len() as int
        }
    }

    pub open spec fn in_board(self, x: int, y: int) -> bool {
        0 <= x < self.width() && 0 <= y < self.height()
    }

    /// The cell at a position; every position outside of the board is a wall.
    pub open spec fn cell(self, x: int, y: int) -> BoardCell {
        if self.in_board(x, y) {
            self.grid[y][x]
        } else {
            BoardCell::Wall
        }
    }

    /// A board has at least one row, all rows have the same length, and
    /// its number of squares fits the counters of its scores. The bound on
    /// the squares (and rows) is `i32::MAX`, as positions, scores and
    /// special points are `i32`: a machine limit, far above any board of
    /// the game.
    pub open spec fn wf(self) -> bool {
        &&& self.grid.len() >= 1
        &&& forall|y: int| 0 <= y < self.grid.len() ==> #[trigger] self.grid[y].len() == self.width()
        &&& self.width() * self.height() <= i32::MAX
        &&& self.height() <= i32::MAX
    }

    /// All eight neighbours of a position are filled (walls count as filled).
    pub open spec fn is_surrounded(self, x: int, y: int) -> bool {
        forall|i: int| 0 <= i < 8 ==> #[trigger] self.cell(x + around_dx(i), y + around_dy(i))
            != BoardCell::Empty
    }

    /// The square at `(x, y)` holds a special ink of `p` that is surrounded.
    pub open spec fn surrounded_special(self, p: PlayerId, x: int, y: int) -> bool {
        self.cell(x, y) == BoardCell::Special(p) && self.is_surrounded(x, y)
    }

    /// The number of squares painted by `p`.
    pub open spec fn score(self, p: PlayerId) -> nat {
        count_grid(self.width(), self.height(), self.owned_pred(p))
    }

    /// The number of surrounded special inks of `p`.
    pub open spec fn surrounded_count(self, p: PlayerId) -> nat {
        count_grid(self.width(), self.height(), self.surrounded_pred(p))
    }

    /// The squares painted by `p`, as a predicate on positions.
    pub open spec fn owned_pred(self, p: PlayerId) -> spec_fn(int, int) -> bool {
        |x: int, y: int| owned_by(self.cell(x, y), p)
    }

    /// The surrounded special inks of `p`, as a predicate on positions.
    pub open spec fn surrounded_pred(self, p: PlayerId) -> spec_fn(int, int) -> bool {
        |x: int, y: int| self.surrounded_special(p, x, y)
    }

    /// The board with the square at `(x, y)` replaced.
    pub open spec fn with_cell(self, x: int, y: int, c: BoardCell) -> BoardView {
        BoardView { name: self.name, grid: self.grid.update(y, self.grid[y].update(x, c)) }
    }
}

/// The board read from the rows of its text form: each character stands for a cell,
/// and shorter rows are filled up with walls to the length of the longest one.
pub open spec fn spec_read_cells(lines: Seq<Seq<char>>) -> Seq<Seq<BoardCell>> {
    let w = max_len(lines);
    Seq::new(
        lines.len(),
        |y: int|
            Seq::new(
                w as nat,
                |x: int|
                    if x < lines[y].len() {
                        spec_cell_from_char(lines[y][x])
                    } else {
                        BoardCell::Wall
                    },
            ),
    )
}

/// The length of the longest row.
pub open spec fn max_len(lines: Seq<Seq<char>>) -> int
    decreases lines.len(),
{
    if lines.len() == 0 {
        0
    } else {
        let m = max_len(lines.drop_last());
        if lines.last().len() > m {
            lines.last().len() as int
        } else {
            m
        }
    }
}

/// A game board: a named rectangle of cells.
#[derive(Debug, PartialEq, Eq, Hash)]
pub struct Board {
    name: String,
    cells: Vec<Vec<BoardCell>>,
    width: i32,
    height: i32,
    x_range: Vec<i32>,
    y_range: Vec<i32>,
}

/// The sequence `1, 2, ..., n - 2` (empty when `n < 3`).
pub open spec fn inner_range(n: int) -> Seq<i32> {
    Seq::new(if n >= 2 { (n - 2) as nat } else { 0 }, |i: int| (i + 1) as i32)
}

impl View for Board {
    type V = BoardView;

    closed spec fn view(&self) -> BoardView {
        BoardView { name: self.name@, grid: self.cells@.map_values(|r: Vec<BoardCell>| r@) }
    }
}

impl Board {
    /// The stored sizes and ranges agree with the cells.
    pub closed spec fn inv(&self) -> bool {
        &&& self.width == self@.width()
        &&& self.height == self@.height()
        &&& self.x_range@ == inner_range(self.width as int)
        &&& self.y_range@ == inner_range(self.height as int)
    }

    pub open spec fn wf(&self) -> bool {
        self.inv() && self@.wf()
    }

    /// Makes a board from its name and its rows of cells.
    pub fn new(name: String, cells: Vec<Vec<BoardCell>>) -> (r: Self)
        requires
            (BoardView { name: name@, grid: cells@.map_values(|r: Vec<BoardCell>| r@) }).wf(),
        ensures
            r.wf(),
            r@ == (BoardView { name: name@, grid: cells@.map_values(|r: Vec<BoardCell>| r@) }),
    {
        let ghost v = BoardView { name: name@, grid: cells@.map_values(|r: Vec<BoardCell>| r@) };
        assert(v.grid[0].len() == cells@[0]@.len());
        assert(v.width() * v.height() <= i32::MAX);
        proof {
            lemma_dims_fit(v.width(), v.height());
        }
        let width = cells[0].len() as i32;
        let height = cells.len() as i32;
        let x_range = make_inner_range(width);
        let y_range = make_inner_range(height);
        let r = Self { name, cells, width, height, x_range, y_range };
        assert(r@ =~= v);
        r
    }

    pub fn get_name(&self) -> (r: &str)
        ensures
            r@ == self@.name,
    {
        self.name.as_str()
    }

    /// The number of squares painted by each player (south, north).
    pub fn get_scores(&self) -> (r: (u32, u32))
        requires
            self.wf(),
        ensures
            r.0 == self@.score(PlayerId::South),
            r.1 == self@.score(PlayerId::North),
    {
        let ghost v = self@;
        let ghost ps = v.owned_pred(PlayerId::South);
        let ghost pn = v.owned_pred(PlayerId::North);
        let mut player_cnt: u32 = 0;
        let mut opponent_cnt: u32 = 0;
        let (width, height) = self.get_size();
        let mut y: i32 = 0;
        while y < height
            invariant
                self.wf(),
                v == self@,
                ps == v.owned_pred(PlayerId::South),
                pn == v.owned_pred(PlayerId::North),
                width == v.width(),
                height == v.height(),
                0 <= y <= height,
                player_cnt == count_grid(width as int, y as int, ps),
                opponent_cnt == count_grid(width as int, y as int, pn),
            decreases height - y,
        {
            proof {
                lemma_count_grid_bound(width as int, y as int, ps);
                lemma_count_grid_bound(width as int, y as int, pn);
                lemma_row_product(width as int, y as int, height as int);
            }
            let mut x: i32 = 0;
            while x < width
                invariant
                    self.wf(),
                    v == self@,
                    ps == v.owned_pred(PlayerId::South),
                    pn == v.owned_pred(PlayerId::North),
                    width == v.width(),
                    height == v.height(),
                    0 <= y < height,
                    0 <= x <= width,
                    width * (y + 1) <= width * height <= i32::MAX,
                    player_cnt == count_grid(width as int, y as int, ps) + count_row(y as int, x as int, ps),
                    opponent_cnt == count_grid(width as int, y as int, pn) + count_row(y as int, x as int, pn),
                    count_grid(width as int, y as int, ps) <= width * y,
                    count_grid(width as int, y as int, pn) <= width * y,
                decreases width - x,
            {
                proof {
                    lemma_count_row_bound(y as int, x as int, ps);
                    lemma_count_row_bound(y as int, x as int, pn);
                    assert(width * (y + 1) == width * y + width) by (nonlinear_arith);
                }
                let position = BoardPosition { x, y };
                let cell = self.get_cell(position);
                assert(ps(x as int, y as int) == owned_by(cell, PlayerId::South));
                assert(pn(x as int, y as int) == owned_by(cell, PlayerId::North));
                assert(count_row(y as int, x + 1, ps) == count_row(y as int, x as int, ps) + if ps(x as int, y as int) { 1nat } else { 0nat });
                assert(count_row(y as int, x + 1, pn) == count_row(y as int, x as int, pn) + if pn(x as int, y as int) { 1nat } else { 0nat });
                match cell {
                    BoardCell::Ink(PlayerId::South) | BoardCell::Special(PlayerId::South) => {
                        player_cnt += 1;
                    },
                    BoardCell::Ink(PlayerId::North) | BoardCell::Special(PlayerId::North) => {
                        opponent_cnt += 1;
                    },
                    _ => {},
                }
                x += 1;
            }
            y += 1;
        }
        (player_cnt, opponent_cnt)
    }

    /// The cell at a position; positions outside of the board are walls.
    pub fn get_cell(&self, position: BoardPosition) -> (r: BoardCell)
        requires
            self.wf(),
        ensures
            r == self@.cell(position.x as int, position.y as int),
    {
        self.cell_at(position.x as i64, position.y as i64)
    }

    /// The cell at a position given in wide integers.
    pub(crate) fn cell_at(&self, x: i64, y: i64) -> (r: BoardCell)
        requires
            self.wf(),
        ensures
            r == self@.cell(x as int, y as int),
    {
        if x < 0 || y < 0 || y >= self.height as i64 || x >= self.width as i64 {
            return BoardCell::Wall;
        }
        assert(self.cells@[y as int]@ == self@.grid[y as int]);
        self.cells[y as usize][x as usize]
    }

    /// The width and the height of the board.
    pub fn get_size(&self) -> (r: (i32, i32))
        requires
            self.wf(),
        ensures
            r.0 == self@.width(),
            r.1 == self@.height(),
    {
        (self.width, self.height)
    }

    /// The x coordinates of the squares inside the outer frame: `1 ..= width - 2`.
    pub fn get_x_range(&self) -> (r: &[i32])
        requires
            self.wf(),
        ensures
            r@ == inner_range(self@.width()),
    {
        self.x_range.as_slice()
    }

    /// The y coordinates of the squares inside the outer frame: `1 ..= height - 2`.
    pub fn get_y_range(&self) -> (r: &[i32])
        requires
            self.wf(),
        ensures
            r@ == inner_range(self@.height()),
    {
        self.y_range.as_slice()
    }

    /// The number of surrounded special inks of each player (south, north).
    pub fn count_surrounded_special_ink(&self) -> (r: (i32, i32))
        requires
            self.wf(),
        ensures
            r.0 == self@.surrounded_count(PlayerId::South),
            r.1 == self@.surrounded_count(PlayerId::North),
    {
        let ghost v = self@;
        let ghost ps = v.surrounded_pred(PlayerId::South);
        let ghost pn = v.surrounded_pred(PlayerId::North);
        let mut player_cnt: i32 = 0;
        let mut opponent_cnt: i32 = 0;
        let (width, height) = self.get_size();
        let mut y: i32 = 0;
        while y < height
            invariant
                self.wf(),
                v == self@,
                    ps == v.surrounded_pred(PlayerId::South),
                    pn == v.surrounded_pred(PlayerId::North),
                width == v.width(),
                height == v.height(),
                0 <= y <= height,
                player_cnt == count_grid(width as int, y as int, ps),
                opponent_cnt == count_grid(width as int, y as int, pn),
            decreases height - y,
        {
            proof {
                lemma_count_grid_bound(width as int, y as int, ps);
                lemma_count_grid_bound(width as int, y as int, pn);
                lemma_row_product(width as int, y as int, height as int);
            }
            let mut x: i32 = 0;
            while x < width
                invariant
                    self.wf(),
                    v == self@,
                    ps == v.surrounded_pred(PlayerId::South),
                    pn == v.surrounded_pred(PlayerId::North),
                    width == v.width(),
                    height == v.height(),
                    0 <= y < height,
                    0 <= x <= width,
                    width * (y + 1) <= width * height <= i32::MAX,
                    player_cnt == count_grid(width as int, y as int, ps) + count_row(y as int, x as int, ps),
                    opponent_cnt == count_grid(width as int, y as int, pn) + count_row(y as int, x as int, pn),
                    count_grid(width as int, y as int, ps) <= width * y,
                    count_grid(width as int, y as int, pn) <= width * y,
                decreases width - x,
            {
                proof {
                    lemma_count_row_bound(y as int, x as int, ps);
                    lemma_count_row_bound(y as int, x as int, pn);
                    assert(width * (y + 1) == width * y + width) by (nonlinear_arith);
                }
                let position = BoardPosition { x, y };
                let cell = self.get_cell(position);
                let surrounded = self.is_surrounded(&position);
                assert(ps(x as int, y as int) == (cell == BoardCell::Special(PlayerId::South) && surrounded));
                assert(pn(x as int, y as int) == (cell == BoardCell::Special(PlayerId::North) && surrounded));
                assert(count_row(y as int, x + 1, ps) == count_row(y as int, x as int, ps) + if ps(x as int, y as int) { 1nat } else { 0nat });
                assert(count_row(y as int, x + 1, pn) == count_row(y as int, x as int, pn) + if pn(x as int, y as int) { 1nat } else { 0nat });
                if let BoardCell::Special(player_id) = cell {
                    if surrounded {
                        match player_id {
                            PlayerId::South => player_cnt += 1,
                            PlayerId::North => opponent_cnt += 1,
                        }
                    }
                }
                x += 1;
            }
            y += 1;
        }
        (player_cnt, opponent_cnt)
    }

    /// Whether all eight neighbours of a position are filled.
    fn is_surrounded(&self, center_position: &BoardPosition) -> (r: bool)
        requires
            self.wf(),
        ensures
            r == self@.is_surrounded(center_position.x as int, center_position.y as int),
    {
        let cx = center_position.x as i64;
        let cy = center_position.y as i64;
        let mut i: usize = 0;
        while i < 8
            invariant
                self.wf(),
                0 <= i <= 8,
                cx == center_position.x,
                cy == center_position.y,
                forall|j: int| 0 <= j < i ==> #[trigger] self@.cell(cx + around_dx(j), cy + around_dy(j))
                    != BoardCell::Empty,
            decreases 8 - i,
        {
            let diff = around_offset(i);
            if self.cell_at(cx + diff.0 as i64, cy + diff.1 as i64).is_none() {
                return false;
            }
            i += 1;
        }
        true
    }

    /// Replaces the cell at a position inside of the board.
    pub fn put_cell(&mut self, position: BoardPosition, cell: BoardCell)
        requires
            old(self).wf(),
            old(self)@.in_board(position.x as int, position.y as int),
        ensures
            final(self).wf(),
            final(self)@ == old(self)@.with_cell(position.x as int, position.y as int, cell),
    {
        let x = position.x as usize;
        let y = position.y as usize;
        let ghost before = self@;
        assert(self.cells@[y as int]@ == before.grid[y as int]);
        self.cells[y][x] = cell;
        assert forall|i: int| 0 <= i < self@.grid.len() implies #[trigger] self@.grid[i]
            == before.with_cell(x as int, y as int, cell).grid[i] by {
            if i == y {
                assert(self@.grid[i] =~= before.grid[i].update(x as int, cell));
            }
        }
        assert(self@.grid =~= before.with_cell(x as int, y as int, cell).grid);
        assert(self@.wf()) by {
            assert forall|yy: int| 0 <= yy < self@.grid.len() implies #[trigger] self@.grid[yy].len()
                == self@.width() by {
                assert(before.grid[yy].len() == before.width());
            }
        }
    }
}

/// Builds `1, 2, ..., n - 2`.
fn make_inner_range(n: i32) -> (r: Vec<i32>)
    requires
        n >= 0,
    ensures
        r@ == inner_range(n as int),
{
    let mut r: Vec<i32> = Vec::new();
    let mut i: i32 = 1;
    while i < n - 1
        invariant
            n >= 0,
            1 <= i,
            i <= n - 1 || n < 2,
            n < 2 ==> i == 1,
            r@ == inner_range(i as int + 1),
        decreases n - i,
    {
        r.push(i);
        assert(r@ =~= inner_range(i as int + 2));
        i += 1;
    }
    assert(r@ =~= inner_range(n as int));
    r
}

/// The sides of a well-formed board fit in `i32`.
pub proof fn lemma_board_dims(b: BoardView)
    requires
        b.wf(),
    ensures
        0 <= b.width() <= i32::MAX,
        1 <= b.height() <= i32::MAX,
{
    lemma_dims_fit(b.width(), b.height());
}

proof fn lemma_dims_fit(w: int, h: int)
    requires
        w >= 0,
        h >= 1,
        h <= i32::MAX,
        w * h <= i32::MAX,
    ensures
        w <= i32::MAX,
        h <= i32::MAX,
{
    if w > 0 {
        assert(w * h >= h) by (nonlinear_arith)
            requires
                w >= 1,
                h >= 1,
        ;
        assert(w * h >= w) by (nonlinear_arith)
            requires
                w >= 1,
                h >= 1,
        ;
    }
}

proof fn lemma_row_product(w: int, y: int, h: int)
    requires
        0 <= w,
        0 <= y < h,
    ensures
        w * (y + 1) <= w * h,
{
    assert(w * (y + 1) <= w * h) by (nonlinear_arith)
        requires
            0 <= w,
            y + 1 <= h,
    ;
}

/// At most `w` squares of a row satisfy a predicate.
pub proof fn lemma_count_row_bound(y: int, w: int, pred: spec_fn(int, int) -> bool)
    requires
        w >= 0,
    ensures
        count_row(y, w, pred) <= w,
    decreases w,
{
    if w > 0 {
        lemma_count_row_bound(y, w - 1, pred);
    }
}

/// At most `w * h` squares of a `w` by `h` rectangle satisfy a predicate.
pub proof fn lemma_count_grid_bound(w: int, h: int, pred: spec_fn(int, int) -> bool)
    requires
        w >= 0,
        h >= 0,
    ensures
        count_grid(w, h, pred) <= w * h,
    decreases h,
{
    if h > 0 {
        lemma_count_grid_bound(w, h - 1, pred);
        lemma_count_row_bound(h - 1, w, pred);
        assert(w * h == w * (h - 1) + w) by (nonlinear_arith);
    }
}


impl Clone for Board {
    fn clone(&self) -> (r: Self)
        ensures
            r@ == self@,
            self.wf() ==> r.wf(),
    {
        let mut cells: Vec<Vec<BoardCell>> = Vec::new();
        let mut i: usize = 0;
        while i < self.cells.len()
            invariant
                0 <= i <= self.cells@.len(),
                cells@.len() == i,
                forall|k: int| 0 <= k < i ==> #[trigger] cells@[k]@ == self.cells@[k]@,
            decreases self.cells@.len() - i,
        {
            cells.push(copy_row(&self.cells[i]));
            i += 1;
        }
        let r = Board {
            name: self.name.clone(),
            cells,
            width: self.width,
            height: self.height,
            x_range: copy_i32s(&self.x_range),
            y_range: copy_i32s(&self.y_range),
        };
        assert(r@.grid =~= self@.grid);
        r
    }
}

fn copy_row(row: &Vec<BoardCell>) -> (r: Vec<BoardCell>)
    ensures
        r@ == row@,
{
    let mut r: Vec<BoardCell> = Vec::new();
    let mut i: usize = 0;
    while i < row.len()
        invariant
            0 <= i <= row@.len(),
            r@ == row@.take(i as int),
        decreases row@.len() - i,
    {
        r.push(row[i]);
        assert(r@ =~= row@.take(i + 1));
        i += 1;
    }
    assert(r@ =~= row@);
    r
}

fn copy_i32s(v: &Vec<i32>) -> (r: Vec<i32>)
    ensures
        r@ == v@,
{
    let mut r: Vec<i32> = Vec::new();
    let mut i: usize = 0;
    while i < v.len()
        invariant
            0 <= i <= v@.len(),
            r@ == v@.take(i as int),
        decreases v@.len() - i,
    {
        r.push(v[i]);
        assert(r@ =~= v@.take(i + 1));
        i += 1;
    }
    assert(r@ =~= v@);
    r
}

/// The character content of each row of a board's text form.
pub open spec fn lines_view(lines: Seq<&str>) -> Seq<Seq<char>> {
    lines.map_values(|l: &str| l@)
}

/// Every character of every row stands for a cell.
pub open spec fn valid_board_lines(lines: Seq<Seq<char>>) -> bool {
    forall|y: int, x: int| 0 <= y < lines.len() && 0 <= x < lines[y].len() ==> is_board_char(#[trigger] lines[y][x])
}

/// Reading a board from its rows of text (as `load_board_from_lines` does):
/// the board is as wide as the longest row and has one row per line; a `.`
/// is an empty square, a ` ` or a `#` is a wall, `p` and `P` are south's
/// ink and special ink, `o` and `O` north's, and the squares past the end
/// of a shorter row are walls.
pub proof fn lemma_board_text_cells(lines: Seq<Seq<char>>, x: int, y: int)
    requires
        0 <= y < lines.len(),
        0 <= x < max_len(lines),
    ensures
        spec_read_cells(lines).len() == lines.len(),
        spec_read_cells(lines)[y].len() == max_len(lines),
        x >= lines[y].len() ==> spec_read_cells(lines)[y][x] == BoardCell::Wall,
        x < lines[y].len() && lines[y][x] == '.' ==> spec_read_cells(lines)[y][x] == BoardCell::Empty,
        x < lines[y].len() && (lines[y][x] == ' ' || lines[y][x] == '#') ==> spec_read_cells(lines)[y][x]
            == BoardCell::Wall,
        x < lines[y].len() && lines[y][x] == 'p' ==> spec_read_cells(lines)[y][x] == BoardCell::Ink(PlayerId::South),
        x < lines[y].len() && lines[y][x] == 'P' ==> spec_read_cells(lines)[y][x] == BoardCell::Special(
            PlayerId::South,
        ),
        x < lines[y].len() && lines[y][x] == 'o' ==> spec_read_cells(lines)[y][x] == BoardCell::Ink(PlayerId::North),
        x < lines[y].len() && lines[y][x] == 'O' ==> spec_read_cells(lines)[y][x] == BoardCell::Special(
            PlayerId::North,
        ),
{
}

/// Whether rows of text can be read as a board: there is a row, every
/// character stands for a cell, and the board they make is small enough
/// for `load_board_from_lines` (see `Board::wf`).
pub fn board_lines_ok(lines: &[&str]) -> (r: bool)
    ensures
        r == (lines@.len() >= 1 && valid_board_lines(lines_view(lines@)) && max_len(lines_view(lines@)) * lines@.len()
            <= i32::MAX && lines@.len() <= i32::MAX),
{
    let ghost lv = lines_view(lines@);
    if lines.len() == 0 || lines.len() > 0x7fff_ffffusize {
        return false;
    }
    let mut width_max: usize = 0;
    let mut y: usize = 0;
    while y < lines.len()
        invariant
            lv == lines_view(lines@),
            0 <= y <= lines@.len(),
            width_max == max_len(lv.take(y as int)),
            forall|k: int, x: int| 0 <= k < y && 0 <= x < lv[k].len() ==> is_board_char(#[trigger] lv[k][x]),
        decreases lines@.len() - y,
    {
        let line: &str = lines[y];
        assert(line@ == lv[y as int]);
        if !line.is_ascii() {
            proof {
                let i = choose|i: int| 0 <= i < line@.len() && !('\0' <= #[trigger] line@[i] <= '\u{7f}');
                assert(!is_board_char(lv[y as int][i]));
            }
            return false;
        }
        let bytes = line.as_bytes();
        assert(bytes@ =~= Seq::new(line@.len(), |i| line@.index(i) as u8));
        let mut x: usize = 0;
        while x < bytes.len()
            invariant
                bytes@.len() == line@.len(),
                lv == lines_view(lines@),
                y < lines@.len(),
                line@ == lv[y as int],
                vstd::string::is_ascii(line),
                forall|i: int| 0 <= i < bytes@.len() ==> #[trigger] bytes@[i] == line@[i] as u8,
                0 <= x <= bytes@.len(),
                forall|i: int| 0 <= i < x ==> is_board_char(#[trigger] line@[i]),
            decreases bytes@.len() - x,
        {
            let b = bytes[x];
            assert(b == line@[x as int] as u8);
            assert('\0' <= line@[x as int] <= '\u{7f}');
            if !(b == 46u8 || b == 32u8 || b == 35u8 || b == 112u8 || b == 80u8 || b == 111u8 || b == 79u8) {
                assert(!is_board_char(lv[y as int][x as int]));
                return false;
            }
            x += 1;
        }
        assert(lv.take(y + 1).drop_last() =~= lv.take(y as int));
        if bytes.len() > width_max {
            width_max = bytes.len();
        }
        y += 1;
    }
    assert(lv.take(lines@.len() as int) =~= lv);
    let n = lines.len();
    if width_max > 0x7fff_ffffusize {
        assert(width_max * n >= width_max) by (nonlinear_arith)
            requires
                n >= 1,
        ;
        return false;
    }
    assert((width_max as u64) * (n as u64) <= 0x7fff_ffff * 0x7fff_ffff) by (nonlinear_arith)
        requires
            width_max <= 0x7fff_ffff,
            n <= 0x7fff_ffff,
    ;
    (width_max as u64) * (n as u64) <= 0x7fff_ffffu64
}

/// Makes a board from its name and the rows of its text form.
pub fn load_board_from_lines(name: String, lines: &[&str]) -> (r: Board)
    requires
        lines@.len() >= 1,
        valid_board_lines(lines_view(lines@)),
        max_len(lines_view(lines@)) * lines@.len() <= i32::MAX,
        lines@.len() <= i32::MAX,
    ensures
        r.wf(),
        r@ == (BoardView { name: name@, grid: spec_read_cells(lines_view(lines@)) }),
{
    let cells = read_cells(lines);
    let ghost g = spec_read_cells(lines_view(lines@));
    assert(cells@.map_values(|r: Vec<BoardCell>| r@) =~= g);
    assert((BoardView { name: name@, grid: g }).width() == max_len(lines_view(lines@)));
    Board::new(name, cells)
}

/// The cells of the rows of a board's text form, padded with walls to a rectangle.
fn read_cells(lines: &[&str]) -> (r: Vec<Vec<BoardCell>>)
    requires
        lines@.len() >= 1,
        valid_board_lines(lines_view(lines@)),
    ensures
        r@.len() == lines@.len(),
        forall|y: int| 0 <= y < r@.len() ==> #[trigger] r@[y]@ == spec_read_cells(lines_view(lines@))[y],
{
    let ghost lv = lines_view(lines@);
    let mut cells: Vec<Vec<BoardCell>> = Vec::new();
    let mut width_max: usize = 0;
    let mut y: usize = 0;
    while y < lines.len()
        invariant
            lv == lines_view(lines@),
            valid_board_lines(lv),
            0 <= y <= lines@.len(),
            cells@.len() == y,
            width_max == max_len(lv.take(y as int)),
            forall|k: int| 0 <= k < y ==> #[trigger] cells@[k]@ == Seq::new(lv[k].len(), |x: int| spec_cell_from_char(lv[k][x])),
        decreases lines@.len() - y,
    {
        let line: &str = lines[y];
        assert(line@ == lv[y as int]);
        assert(vstd::string::is_ascii(line)) by {
            assert forall|i: int| 0 <= i < line@.len() implies '\0' <= #[trigger] line@[i] <= '\u{7f}' by {
                assert(is_board_char(lv[y as int][i]));
            }
        }
        let bytes = line.as_bytes();
        assert(bytes@ =~= Seq::new(line@.len(), |i| line@.index(i) as u8));
        let mut row: Vec<BoardCell> = Vec::new();
        let mut x: usize = 0;
        while x < bytes.len()
            invariant
                bytes@.len() == line@.len(),
                forall|i: int| 0 <= i < bytes@.len() ==> #[trigger] bytes@[i] == line@[i] as u8,
                forall|i: int| 0 <= i < line@.len() ==> is_board_char(#[trigger] line@[i]),
                0 <= x <= bytes@.len(),
                row@ == Seq::new(x as nat, |i: int| spec_cell_from_char(line@[i])),
            decreases bytes@.len() - x,
        {
            let ch = bytes[x] as char;
            assert(ch == line@[x as int]) by {
                assert(is_board_char(line@[x as int]));
            }
            let cell = match BoardCell::from_char(ch) {
                Ok(c) => c,
                Err(_) => BoardCell::Wall,
            };
            row.push(cell);
            assert(row@ =~= Seq::new((x + 1) as nat, |i: int| spec_cell_from_char(line@[i])));
            x += 1;
        }
        assert(lv.take(y + 1).drop_last() =~= lv.take(y as int));
        if row.len() > width_max {
            width_max = row.len();
        }
        cells.push(row);
        y += 1;
    }
    assert(lv.take(lines@.len() as int) =~= lv);
    let mut y: usize = 0;
    while y < cells.len()
        invariant
            lv == lines_view(lines@),
            cells@.len() == lines@.len(),
            width_max == max_len(lv),
            0 <= y <= cells@.len(),
            forall|k: int| 0 <= k < y ==> #[trigger] cells@[k]@ == spec_read_cells(lv)[k],
            forall|k: int| y <= k < cells@.len() ==> #[trigger] cells@[k]@ == Seq::new(lv[k].len(), |x: int| spec_cell_from_char(lv[k][x])),
        decreases cells@.len() - y,
    {
        proof {
            lemma_max_len(lv, y as int);
        }
        let mut row = copy_row(&cells[y]);
        while row.len() < width_max
            invariant
                lv[y as int].len() <= row@.len() <= width_max,
                forall|x: int| 0 <= x < lv[y as int].len() ==> #[trigger] row@[x] == spec_cell_from_char(lv[y as int][x]),
                forall|x: int| lv[y as int].len() <= x < row@.len() ==> #[trigger] row@[x] == BoardCell::Wall,
            decreases width_max - row@.len(),
        {
            row.push(BoardCell::Wall);
        }
        assert(row@ =~= spec_read_cells(lv)[y as int]);
        cells.set(y, row);
        y += 1;
    }
    cells
}

/// No row is longer than the longest one.
proof fn lemma_max_len(lines: Seq<Seq<char>>, y: int)
    requires
        0 <= y < lines.len(),
    ensures
        lines[y].len() <= max_len(lines),
    decreases lines.len(),
{
    if y < lines.len() - 1 {
        lemma_max_len(lines.drop_last(), y);
    }
}


/// The text of one row of a board.
pub open spec fn spec_row_text(row: Seq<BoardCell>) -> Seq<char> {
    row.map_values(|c: BoardCell| spec_cell_to_char(c)).push('\n')
}

/// The text of the rows of a board, one line each.
pub open spec fn spec_rows_text(rows: Seq<Seq<BoardCell>>) -> Seq<char>
    decreases rows.len(),
{
    if rows.len() == 0 {
        Seq::empty()
    } else {
        spec_rows_text(rows.drop_last()) + spec_row_text(rows.last())
    }
}

/// The text form of a board: its name, its rows, and the scores of both players.
pub open spec fn spec_board_text(b: BoardView) -> Seq<char> {
    b.name.push('\n') + spec_rows_text(b.grid) + "Score: "@ + spec_decimal(b.score(PlayerId::South) as int)
        + ", "@ + spec_decimal(b.score(PlayerId::North) as int) + seq!['\n']
}

use crate::text::{decimal, empty_string, push_char, push_str, spec_decimal};

impl Board {
    /// The text form of the board: its name, its rows, and the scores.
    pub fn to_text(&self) -> (r: String)
        requires
            self.wf(),
        ensures
            r@ == spec_board_text(self@),
    {
        let mut out = empty_string();
        push_str(&mut out, self.name.as_str());
        push_char(&mut out, '\n');
        let ghost head = out@;
        let mut y: usize = 0;
        while y < self.cells.len()
            invariant
                0 <= y <= self.cells@.len(),
                out@ == head + spec_rows_text(self@.grid.take(y as int)),
            decreases self.cells@.len() - y,
        {
            let row = &self.cells[y];
            assert(row@ == self@.grid[y as int]);
            let ghost before = out@;
            let mut x: usize = 0;
            while x < row.len()
                invariant
                    0 <= x <= row@.len(),
                    out@ == before + row@.take(x as int).map_values(|c: BoardCell| spec_cell_to_char(c)),
                decreases row@.len() - x,
            {
                push_char(&mut out, row[x].to_char());
                assert(row@.take(x + 1).map_values(|c: BoardCell| spec_cell_to_char(c)) =~= row@.take(x as int).map_values(
                    |c: BoardCell| spec_cell_to_char(c),
                ).push(spec_cell_to_char(row@[x as int])));
                x += 1;
            }
            push_char(&mut out, '\n');
            assert(row@.take(row@.len() as int) =~= row@);
            assert(self@.grid.take(y + 1).drop_last() =~= self@.grid.take(y as int));
            assert(out@ =~= head + spec_rows_text(self@.grid.take(y + 1)));
            y += 1;
        }
        assert(self@.grid.take(self@.grid.len() as int) =~= self@.grid);
        let scores = self.get_scores();
        push_str(&mut out, "Score: ");
        push_str(&mut out, decimal(scores.0 as i64).as_str());
        push_str(&mut out, ", ");
        push_str(&mut out, decimal(scores.1 as i64).as_str());
        push_char(&mut out, '\n');
        assert(out@ =~= spec_board_text(self@));
        out
    }
}

}
