use vstd::prelude::*;

use crate::board::inner_range;
use crate::card::{max_x, max_y, Card, CardPosition, CardView};
use rand::seq::SliceRandom;
use wyhash::WyRng;

use crate::game::{Action, ActionView, Context, PlayerId, Rotation};
use crate::state::{is_valid_action, spec_is_valid_action, State, StateView};

verus! {

// ---------------------------------------------------------------------------
// Listing valid actions
// ---------------------------------------------------------------------------

/// The valid actions that put card `c` at `pos`: a normal put, then a special attack.
pub open spec fn put_actions_at(s: StateView, p: PlayerId, c: CardView, pos: CardPosition) -> Seq<ActionView> {
    (if spec_is_valid_action(s, p, ActionView::Put(c, pos)) {
        seq![ActionView::Put(c, pos)]
    } else {
        Seq::empty()
    }) + (if spec_is_valid_action(s, p, ActionView::Special(c, pos)) {
        seq![ActionView::Special(c, pos)]
    } else {
        Seq::empty()
    })
}

/// The valid actions for x from 1 up to (not including) `xe` on row `y`.
pub open spec fn row_actions(s: StateView, p: PlayerId, c: CardView, r: Rotation, y: int, xe: int) -> Seq<ActionView>
    decreases xe,
{
    if xe <= 1 {
        Seq::empty()
    } else {
        row_actions(s, p, c, r, y, xe - 1) + put_actions_at(
            s,
            p,
            c,
            CardPosition { x: (xe - 1) as i32, y: y as i32, rotation: r },
        )
    }
}

/// The valid actions for rows from 1 up to (not including) `ye`.
pub open spec fn rot_actions(s: StateView, p: PlayerId, c: CardView, r: Rotation, ye: int, xe: int) -> Seq<ActionView>
    decreases ye,
{
    if ye <= 1 {
        Seq::empty()
    } else {
        rot_actions(s, p, c, r, ye - 1, xe) + row_actions(s, p, c, r, ye - 1, xe)
    }
}

/// The valid actions that put card `c` turned by `r` anywhere it fits inside the
/// board's outer frame.
pub open spec fn rotation_block(s: StateView, p: PlayerId, c: CardView, r: Rotation) -> Seq<ActionView> {
    rot_actions(
        s,
        p,
        c,
        r,
        s.board.height() - (max_y(c.cells_of(r)) + 1),
        s.board.width() - (max_x(c.cells_of(r)) + 1),
    )
}

/// The blocks of the first `k` rotations, in the order `Up`, `Right`, `Down`, `Left`.
pub open spec fn rotations_actions(s: StateView, p: PlayerId, c: CardView, k: int) -> Seq<ActionView>
    decreases k,
{
    if k <= 0 {
        Seq::empty()
    } else {
        rotations_actions(s, p, c, k - 1) + rotation_block(s, p, c, Rotation::spec_from_index(k - 1))
    }
}

/// The actions listed for one card: a pass, then the valid puts and special
/// attacks for each rotation.
pub open spec fn card_actions(s: StateView, p: PlayerId, c: CardView) -> Seq<ActionView> {
    seq![ActionView::Pass(c)] + rotations_actions(s, p, c, 4)
}

/// The actions listed for a list of cards, card by card.
pub open spec fn cards_actions(s: StateView, p: PlayerId, cards: Seq<CardView>) -> Seq<ActionView>
    decreases cards.len(),
{
    if cards.len() == 0 {
        Seq::empty()
    } else {
        cards_actions(s, p, cards.drop_last()) + card_actions(s, p, cards.last())
    }
}

/// The views of a list of actions.
pub open spec fn actions_view(v: Seq<Action>) -> Seq<ActionView> {
    v.map_values(|a: Action| a@)
}

/// The views of a list of cards.
pub open spec fn cards_view(v: Seq<Card>) -> Seq<CardView> {
    v.map_values(|c: Card| c@)
}

/// Whether every action of `a` is an action of `b`.
pub open spec fn listed_in(a: Seq<ActionView>, b: Seq<ActionView>) -> bool {
    forall|x: ActionView| a.contains(x) ==> b.contains(x)
}

/// Both parts of a concatenation are listed in it.
proof fn lemma_listed_concat(a: Seq<ActionView>, b: Seq<ActionView>)
    ensures
        listed_in(a, a + b),
        listed_in(b, a + b),
{
    assert forall|x: ActionView| a.contains(x) implies (a + b).contains(x) by {
        let i = choose|i: int| 0 <= i < a.len() && a[i] == x;
        assert((a + b)[i] == x);
    }
    assert forall|x: ActionView| b.contains(x) implies (a + b).contains(x) by {
        let j = choose|j: int| 0 <= j < b.len() && b[j] == x;
        assert((a + b)[a.len() + j] == x);
    }
}

/// The actions at column `x` of a row are listed in the row.
proof fn lemma_row_lists(s: StateView, p: PlayerId, c: CardView, r: Rotation, y: int, xe: int, x: int)
    requires
        1 <= x < xe,
    ensures
        listed_in(put_actions_at(s, p, c, CardPosition { x: x as i32, y: y as i32, rotation: r }), row_actions(s, p, c, r, y, xe)),
    decreases xe,
{
    let prev = row_actions(s, p, c, r, y, xe - 1);
    let last = put_actions_at(s, p, c, CardPosition { x: (xe - 1) as i32, y: y as i32, rotation: r });
    assert(row_actions(s, p, c, r, y, xe) == prev + last);
    lemma_listed_concat(prev, last);
    if x < xe - 1 {
        lemma_row_lists(s, p, c, r, y, xe - 1, x);
    }
}

/// The actions of row `y` are listed in the rows of a rotation.
proof fn lemma_rot_lists(s: StateView, p: PlayerId, c: CardView, r: Rotation, ye: int, xe: int, y: int)
    requires
        1 <= y < ye,
    ensures
        listed_in(row_actions(s, p, c, r, y, xe), rot_actions(s, p, c, r, ye, xe)),
    decreases ye,
{
    let prev = rot_actions(s, p, c, r, ye - 1, xe);
    let last = row_actions(s, p, c, r, ye - 1, xe);
    assert(rot_actions(s, p, c, r, ye, xe) == prev + last);
    lemma_listed_concat(prev, last);
    if y < ye - 1 {
        lemma_rot_lists(s, p, c, r, ye - 1, xe, y);
    }
}

/// The actions of rotation `j` are listed among those of the first `k`.
proof fn lemma_rotations_list(s: StateView, p: PlayerId, c: CardView, k: int, j: int)
    requires
        0 <= j < k,
    ensures
        listed_in(rotation_block(s, p, c, Rotation::spec_from_index(j)), rotations_actions(s, p, c, k)),
    decreases k,
{
    let prev = rotations_actions(s, p, c, k - 1);
    let last = rotation_block(s, p, c, Rotation::spec_from_index(k - 1));
    assert(rotations_actions(s, p, c, k) == prev + last);
    lemma_listed_concat(prev, last);
    if j < k - 1 {
        lemma_rotations_list(s, p, c, k - 1, j);
    }
}

/// The actions of card `i` are listed among those of all the cards.
proof fn lemma_cards_list(s: StateView, p: PlayerId, cards: Seq<CardView>, i: int)
    requires
        0 <= i < cards.len(),
    ensures
        listed_in(card_actions(s, p, cards[i]), cards_actions(s, p, cards)),
    decreases cards.len(),
{
    let prev = cards_actions(s, p, cards.drop_last());
    let last = card_actions(s, p, cards.last());
    assert(cards_actions(s, p, cards) == prev + last);
    lemma_listed_concat(prev, last);
    if i < cards.len() - 1 {
        lemma_cards_list(s, p, cards.drop_last(), i);
        assert(cards.drop_last()[i] == cards[i]);
    }
}

/// The listing of `append_valid_actions` is complete: with any of the
/// cards, a pass is listed, and so is every put and every special attack
/// that is valid for the player and puts the card, in any rotation, inside
/// the board's outer frame (from row and column 1, its far edge short of
/// the last row and column).
pub proof fn lemma_valid_actions_listed(s: StateView, p: PlayerId, cards: Seq<CardView>, i: int, a: ActionView)
    requires
        0 <= i < cards.len(),
        a.card() == cards[i],
        !a.is_pass() ==> {
            let pos = a.position();
            &&& spec_is_valid_action(s, p, a)
            &&& 1 <= pos.x
            &&& pos.x + max_x(cards[i].cells_of(pos.rotation)) + 2 <= s.board.width()
            &&& 1 <= pos.y
            &&& pos.y + max_y(cards[i].cells_of(pos.rotation)) + 2 <= s.board.height()
        },
    ensures
        cards_actions(s, p, cards).contains(a),
{
    let c = cards[i];
    lemma_cards_list(s, p, cards, i);
    let rest = rotations_actions(s, p, c, 4);
    assert(card_actions(s, p, c) == seq![ActionView::Pass(c)] + rest);
    lemma_listed_concat(seq![ActionView::Pass(c)], rest);
    if a.is_pass() {
        assert(seq![ActionView::Pass(c)][0] == a);
        assert(seq![ActionView::Pass(c)].contains(a));
    } else {
        let pos = a.position();
        let r = pos.rotation;
        let j: int = match r {
            Rotation::Up => 0,
            Rotation::Right => 1,
            Rotation::Down => 2,
            Rotation::Left => 3,
        };
        assert(Rotation::spec_from_index(j) == r);
        lemma_rotations_list(s, p, c, 4, j);
        let ye = s.board.height() - (max_y(c.cells_of(r)) + 1);
        let xe = s.board.width() - (max_x(c.cells_of(r)) + 1);
        lemma_rot_lists(s, p, c, r, ye, xe, pos.y as int);
        lemma_row_lists(s, p, c, r, pos.y as int, xe, pos.x as int);
        assert(CardPosition { x: pos.x as int as i32, y: pos.y as int as i32, rotation: r } == pos);
        let put = ActionView::Put(c, pos);
        let sp = ActionView::Special(c, pos);
        let first = if spec_is_valid_action(s, p, put) { seq![put] } else { Seq::empty() };
        let second = if spec_is_valid_action(s, p, sp) { seq![sp] } else { Seq::empty() };
        assert(put_actions_at(s, p, c, pos) == first + second);
        lemma_listed_concat(first, second);
        if a is Put {
            assert(a == put);
            assert(first[0] == a);
            assert(first.contains(a));
        } else {
            assert(a == sp);
            assert(second[0] == a);
            assert(second.contains(a));
        }
        assert(put_actions_at(s, p, c, pos).contains(a));
        assert(rotation_block(s, p, c, r) == rot_actions(s, p, c, r, ye, xe));
    }
}

/// Appends to `actions` the actions a player may take with `cards`: for each
/// card a pass, then every valid put and special attack of the card inside the
/// board's outer frame, by rotation, row and column.
pub fn append_valid_actions(state: &State, cards: &[Card], player_id: PlayerId, actions: &mut Vec<Action>)
    requires
        state.board.wf(),
    ensures
        actions_view(final(actions)@) == actions_view(old(actions)@) + cards_actions(
            state@,
            player_id,
            cards_view(cards@),
        ),
{
    let ghost s = state@;
    let ghost base = actions_view(actions@);
    let (width, height) = state.board.get_size();
    proof {
        crate::board::lemma_board_dims(s.board);
    }
    let mut ci: usize = 0;
    while ci < cards.len()
        invariant
            state.board.wf(),
            s == state@,
            width == s.board.width(),
            height == s.board.height(),
            0 <= ci <= cards@.len(),
            actions_view(actions@) == base + cards_actions(s, player_id, cards_view(cards@).take(ci as int)),
        decreases cards@.len() - ci,
    {
        let card = &cards[ci];
        card.ensure_wf();
        let ghost before_card = actions_view(actions@);
        actions.push(Action::Pass(card.clone()));
        assert(actions_view(actions@) =~= before_card + seq![ActionView::Pass(card@)]);
        let rotations = Rotation::values();
        let mut ri: usize = 0;
        while ri < 4
            invariant
                state.board.wf(),
                s == state@,
                card.wf(),
                width == s.board.width(),
                height == s.board.height(),
                forall|k: int| 0 <= k < 4 ==> #[trigger] rotations@[k] == Rotation::spec_from_index(k),
                0 <= ri <= 4,
                actions_view(actions@) == before_card + seq![ActionView::Pass(card@)] + rotations_actions(s, player_id, card@, ri as int),
            decreases 4 - ri,
        {
            let rotation = rotations[ri];
            proof {
                crate::card::lemma_rotated_bounds(card@, rotation);
            }
            let card_width = card.calculate_width(rotation);
            let card_height = card.calculate_height(rotation);
            let ghost before_rot = actions_view(actions@);
            let mut y: i32 = 1;
            while y < height - card_height
                invariant
                    state.board.wf(),
                    s == state@,
                    card.wf(),
                    width == s.board.width(),
                    height == s.board.height(),
                    1 <= card_width <= i32::MAX,
                    1 <= card_height <= i32::MAX,
                    card_width == max_x(card@.cells_of(rotation)) + 1,
                    card_height == max_y(card@.cells_of(rotation)) + 1,
                    1 <= y,
                    y <= height - card_height || y == 1,
                    actions_view(actions@) == before_rot + rot_actions(s, player_id, card@, rotation, y as int, (width - card_width) as int),
                decreases height - card_height - y,
            {
                let ghost before_row = actions_view(actions@);
                let mut x: i32 = 1;
                while x < width - card_width
                    invariant
                        state.board.wf(),
                        s == state@,
                        card.wf(),
                        width == s.board.width(),
                        height == s.board.height(),
                        1 <= card_width <= i32::MAX,
                        1 <= x,
                        x <= width - card_width || x == 1,
                        1 <= y < height,
                        actions_view(actions@) == before_row + row_actions(s, player_id, card@, rotation, y as int, x as int),
                    decreases width - card_width - x,
                {
                    let pos = CardPosition { x, y, rotation };
                    let ghost before_pos = actions_view(actions@);
                    let action = Action::Put(card.clone(), pos);
                    if is_valid_action(state, player_id, &action) {
                        actions.push(action);
                    }
                    let action = Action::Special(card.clone(), pos);
                    if is_valid_action(state, player_id, &action) {
                        actions.push(action);
                    }
                    assert(actions_view(actions@) =~= before_pos + put_actions_at(s, player_id, card@, pos));
                    assert(actions_view(actions@) =~= before_row + row_actions(s, player_id, card@, rotation, y as int, x + 1));
                    x += 1;
                }
                assert(actions_view(actions@) =~= before_rot + rot_actions(s, player_id, card@, rotation, y + 1, (width - card_width) as int));
                y += 1;
            }
            assert(rotation == Rotation::spec_from_index(ri as int));
            assert(actions_view(actions@) =~= before_card + seq![ActionView::Pass(card@)] + rotations_actions(s, player_id, card@, ri + 1));
            ri += 1;
        }
        assert(cards_view(cards@).take(ci + 1).drop_last() =~= cards_view(cards@).take(ci as int));
        assert(cards_view(cards@).take(ci + 1).last() == card@);
        assert(actions_view(actions@) =~= base + cards_actions(s, player_id, cards_view(cards@).take(ci + 1)));
        ci += 1;
    }
    assert(cards_view(cards@).take(cards@.len() as int) =~= cards_view(cards@));
}


/// Every action of the sequence is valid for `p` in `s`.
pub open spec fn all_valid(s: StateView, p: PlayerId, v: Seq<ActionView>) -> bool {
    forall|i: int| 0 <= i < v.len() ==> spec_is_valid_action(s, p, #[trigger] v[i])
}

proof fn lemma_all_valid_concat(s: StateView, p: PlayerId, a: Seq<ActionView>, b: Seq<ActionView>)
    requires
        all_valid(s, p, a),
        all_valid(s, p, b),
    ensures
        all_valid(s, p, a + b),
{
    assert forall|i: int| 0 <= i < (a + b).len() implies spec_is_valid_action(s, p, #[trigger] (a + b)[i]) by {
        if i < a.len() {
            assert((a + b)[i] == a[i]);
        } else {
            assert((a + b)[i] == b[i - a.len()]);
        }
    }
}

proof fn lemma_row_valid(s: StateView, p: PlayerId, c: CardView, r: Rotation, y: int, xe: int)
    ensures
        all_valid(s, p, row_actions(s, p, c, r, y, xe)),
    decreases xe,
{
    if xe > 1 {
        lemma_row_valid(s, p, c, r, y, xe - 1);
        let pos = CardPosition { x: (xe - 1) as i32, y: y as i32, rotation: r };
        lemma_all_valid_concat(s, p, row_actions(s, p, c, r, y, xe - 1), put_actions_at(s, p, c, pos));
    }
}

proof fn lemma_rot_valid(s: StateView, p: PlayerId, c: CardView, r: Rotation, ye: int, xe: int)
    ensures
        all_valid(s, p, rot_actions(s, p, c, r, ye, xe)),
    decreases ye,
{
    if ye > 1 {
        lemma_rot_valid(s, p, c, r, ye - 1, xe);
        lemma_row_valid(s, p, c, r, ye - 1, xe);
        lemma_all_valid_concat(s, p, rot_actions(s, p, c, r, ye - 1, xe), row_actions(s, p, c, r, ye - 1, xe));
    }
}

proof fn lemma_rotations_valid(s: StateView, p: PlayerId, c: CardView, k: int)
    ensures
        all_valid(s, p, rotations_actions(s, p, c, k)),
    decreases k,
{
    if k > 0 {
        lemma_rotations_valid(s, p, c, k - 1);
        let r = Rotation::spec_from_index(k - 1);
        lemma_rot_valid(
            s,
            p,
            c,
            r,
            s.board.height() - (max_y(c.cells_of(r)) + 1),
            s.board.width() - (max_x(c.cells_of(r)) + 1),
        );
        lemma_all_valid_concat(s, p, rotations_actions(s, p, c, k - 1), rotation_block(s, p, c, r));
    }
}

/// Every action listed by `append_valid_actions` is valid: passes always are,
/// and puts and special attacks are listed only when they pass the rules.
pub proof fn lemma_listed_actions_valid(s: StateView, p: PlayerId, cards: Seq<CardView>)
    ensures
        all_valid(s, p, cards_actions(s, p, cards)),
    decreases cards.len(),
{
    if cards.len() > 0 {
        lemma_listed_actions_valid(s, p, cards.drop_last());
        let c = cards.last();
        lemma_rotations_valid(s, p, c, 4);
        lemma_all_valid_concat(s, p, seq![ActionView::Pass(c)], rotations_actions(s, p, c, 4));
        lemma_all_valid_concat(s, p, cards_actions(s, p, cards.drop_last()), card_actions(s, p, c));
    }
}

/// Every listed action uses one of the given cards, and each card's pass is listed.
pub proof fn lemma_listed_actions_use_cards(s: StateView, p: PlayerId, cards: Seq<CardView>)
    ensures
        forall|i: int| 0 <= i < cards_actions(s, p, cards).len() ==> cards.contains(#[trigger] cards_actions(s, p, cards)[i].card()),
        forall|j: int| 0 <= j < cards.len() ==> cards_actions(s, p, cards).contains(ActionView::Pass(#[trigger] cards[j])),
    decreases cards.len(),
{
    if cards.len() > 0 {
        let prev = cards.drop_last();
        lemma_listed_actions_use_cards(s, p, prev);
        let c = cards.last();
        lemma_card_actions_use_card(s, p, c);
        let a = cards_actions(s, p, prev);
        let b = card_actions(s, p, c);
        assert(cards_actions(s, p, cards) == a + b);
        assert forall|i: int| 0 <= i < (a + b).len() implies cards.contains(#[trigger] (a + b)[i].card()) by {
            if i < a.len() {
                assert((a + b)[i] == a[i]);
                let k = choose|k: int| 0 <= k < prev.len() && prev[k] == a[i].card();
                assert(cards[k] == prev[k]);
            } else {
                assert((a + b)[i] == b[i - a.len()]);
                assert(cards[cards.len() - 1] == c);
            }
        }
        assert forall|j: int| 0 <= j < cards.len() implies (a + b).contains(ActionView::Pass(#[trigger] cards[j])) by {
            if j < prev.len() {
                assert(cards[j] == prev[j]);
                let k = choose|k: int| 0 <= k < a.len() && a[k] == ActionView::Pass(prev[j]);
                assert((a + b)[k] == a[k]);
            } else {
                assert((a + b)[a.len() as int] == b[0]);
            }
        }
    }
}

proof fn lemma_card_actions_use_card(s: StateView, p: PlayerId, c: CardView)
    ensures
        forall|i: int| 0 <= i < card_actions(s, p, c).len() ==> (#[trigger] card_actions(s, p, c)[i]).card() == c,
        card_actions(s, p, c)[0] == ActionView::Pass(c),
{
    lemma_rotations_card(s, p, c, 4);
    let b = rotations_actions(s, p, c, 4);
    assert forall|i: int| 0 <= i < card_actions(s, p, c).len() implies (#[trigger] card_actions(s, p, c)[i]).card() == c by {
        if i > 0 {
            assert(card_actions(s, p, c)[i] == b[i - 1]);
        }
    }
}

/// The card of every action of a sequence is `c`.
pub open spec fn all_of_card(v: Seq<ActionView>, c: CardView) -> bool {
    forall|i: int| 0 <= i < v.len() ==> (#[trigger] v[i]).card() == c
}

proof fn lemma_all_of_card_concat(a: Seq<ActionView>, b: Seq<ActionView>, c: CardView)
    requires
        all_of_card(a, c),
        all_of_card(b, c),
    ensures
        all_of_card(a + b, c),
{
    assert forall|i: int| 0 <= i < (a + b).len() implies (#[trigger] (a + b)[i]).card() == c by {
        if i < a.len() {
            assert((a + b)[i] == a[i]);
        } else {
            assert((a + b)[i] == b[i - a.len()]);
        }
    }
}

proof fn lemma_rotations_card(s: StateView, p: PlayerId, c: CardView, k: int)
    ensures
        all_of_card(rotations_actions(s, p, c, k), c),
    decreases k,
{
    if k > 0 {
        lemma_rotations_card(s, p, c, k - 1);
        let r = Rotation::spec_from_index(k - 1);
        let ye = s.board.height() - (max_y(c.cells_of(r)) + 1);
        let xe = s.board.width() - (max_x(c.cells_of(r)) + 1);
        lemma_rot_card(s, p, c, r, ye, xe);
        lemma_all_of_card_concat(rotations_actions(s, p, c, k - 1), rotation_block(s, p, c, r), c);
    }
}

proof fn lemma_rot_card(s: StateView, p: PlayerId, c: CardView, r: Rotation, ye: int, xe: int)
    ensures
        all_of_card(rot_actions(s, p, c, r, ye, xe), c),
    decreases ye,
{
    if ye > 1 {
        lemma_rot_card(s, p, c, r, ye - 1, xe);
        lemma_row_card(s, p, c, r, ye - 1, xe);
        lemma_all_of_card_concat(rot_actions(s, p, c, r, ye - 1, xe), row_actions(s, p, c, r, ye - 1, xe), c);
    }
}

proof fn lemma_row_card(s: StateView, p: PlayerId, c: CardView, r: Rotation, y: int, xe: int)
    ensures
        all_of_card(row_actions(s, p, c, r, y, xe), c),
    decreases xe,
{
    if xe > 1 {
        lemma_row_card(s, p, c, r, y, xe - 1);
        let pos = CardPosition { x: (xe - 1) as i32, y: y as i32, rotation: r };
        lemma_all_of_card_concat(row_actions(s, p, c, r, y, xe - 1), put_actions_at(s, p, c, pos), c);
    }
}

// ---------------------------------------------------------------------------
// Decks
// ---------------------------------------------------------------------------

/// The index of the first card of `cards` with the given id.
pub open spec fn first_with_id(cards: Seq<&Card>, id: u32) -> int
    decreases cards.len(),
{
    if cards.len() == 0 {
        0
    } else if cards[0]@.id == id {
        0
    } else {
        1 + first_with_id(cards.drop_first(), id)
    }
}

/// Whether some card of the list has the given id.
pub open spec fn contains_id(cards: Seq<&Card>, id: u32) -> bool {
    exists|i: int| 0 <= i < cards.len() && #[trigger] cards[i]@.id == id
}

proof fn lemma_first_with_id(cards: Seq<&Card>, id: u32, i: int)
    requires
        0 <= i < cards.len(),
        cards[i]@.id == id,
        forall|k: int| 0 <= k < i ==> #[trigger] cards[k]@.id != id,
    ensures
        first_with_id(cards, id) == i,
    decreases i,
{
    if i > 0 {
        assert forall|k: int| 0 <= k < i - 1 implies #[trigger] cards.drop_first()[k]@.id != id by {
            assert(cards.drop_first()[k] == cards[k + 1]);
        }
        lemma_first_with_id(cards.drop_first(), id, i - 1);
    }
}

/// The cards with the given ids, each the first card of `all_cards` with that id.
pub fn ids_to_deck<'a>(ids: &[u32], all_cards: &[&'a Card]) -> (r: Vec<&'a Card>)
    requires
        forall|i: int| 0 <= i < ids@.len() ==> contains_id(all_cards@, #[trigger] ids@[i]),
    ensures
        r@.len() == ids@.len(),
        forall|i: int| 0 <= i < ids@.len() ==> #[trigger] r@[i] == all_cards@[first_with_id(all_cards@, ids@[i])],
{
    let mut r: Vec<&'a Card> = Vec::new();
    let mut i: usize = 0;
    while i < ids.len()
        invariant
            forall|i: int| 0 <= i < ids@.len() ==> contains_id(all_cards@, #[trigger] ids@[i]),
            0 <= i <= ids@.len(),
            r@.len() == i,
            forall|k: int| 0 <= k < i ==> #[trigger] r@[k] == all_cards@[first_with_id(all_cards@, ids@[k])],
        decreases ids@.len() - i,
    {
        let id = ids[i];
        assert(contains_id(all_cards@, id));
        let j = find_card_index(all_cards, id);
        proof {
            lemma_first_with_id(all_cards@, id, j as int);
        }
        r.push(all_cards[j]);
        i += 1;
    }
    r
}


/// The index of the first card with the given id.
fn find_card_index(cards: &[&Card], id: u32) -> (r: usize)
    requires
        contains_id(cards@, id),
    ensures
        r < cards@.len(),
        cards@[r as int]@.id == id,
        forall|k: int| 0 <= k < r ==> #[trigger] cards@[k]@.id != id,
{
    let mut j: usize = 0;
    while j < cards.len()
        invariant
            contains_id(cards@, id),
            0 <= j <= cards@.len(),
            forall|k: int| 0 <= k < j ==> #[trigger] cards@[k]@.id != id,
        decreases cards@.len() - j,
    {
        if cards[j].get_id() == id {
            return j;
        }
        j += 1;
    }
    assert(false);
    0
}

}

verus! {

broadcast use vstd::seq_lib::group_to_multiset_ensures;

// ---------------------------------------------------------------------------
// Players
// ---------------------------------------------------------------------------

/// A player of the game: it is told the game it plays, may ask for its first
/// hands to be dealt again, and picks an action each turn.
pub trait Player {
    fn get_name(&self) -> &str;

    fn init_game(&mut self, player_id: PlayerId, context: &Context, deck: Vec<Card>);

    /// Called once, with the first hands dealt, before the first action.
    fn need_redeal_hands(&mut self, dealed_cards: &[Card]) -> bool;

    fn get_action(&mut self, state: &State, hands: &[Card]) -> Action
        requires
            state.board.wf(),
            hands@.len() > 0,
    ;
}

// ---------------------------------------------------------------------------
// Picking an action at random
// ---------------------------------------------------------------------------

/// The fast random number generator of `wyhash`.
#[verifier::external_type_specification]
#[verifier::external_body]
pub struct ExWyRng(wyhash::WyRng);

/// `SliceRandom::shuffle` of `rand` driven by a `WyRng`. The generator picks
/// the order; the contract states only that the items are the same ones, each
/// as many times as before.
#[verifier::external_body]
pub(crate) fn shuffle_wy<T>(items: &mut Vec<T>, rng: &mut WyRng)
    ensures
        final(items)@.to_multiset() == old(items)@.to_multiset(),
{
    items.shuffle(rng);
}

/// The kind of an action.
#[derive(Clone, Copy, Debug, PartialEq, Eq, Structural)]
pub enum ActionType {
    Pass,
    Put,
    Special,
}

impl ActionType {
    /// All kinds, in the order `Pass`, `Put`, `Special`.
    pub fn values() -> (r: Vec<ActionType>)
        ensures
            r@ == seq![ActionType::Pass, ActionType::Put, ActionType::Special],
    {
        let mut r: Vec<ActionType> = Vec::new();
        r.push(ActionType::Pass);
        r.push(ActionType::Put);
        r.push(ActionType::Special);
        assert(r@ =~= seq![ActionType::Pass, ActionType::Put, ActionType::Special]);
        r
    }
}

/// The action of kind `t` with card `c`, at `pos` unless it is a pass.
pub open spec fn make_action(t: ActionType, c: CardView, pos: CardPosition) -> ActionView {
    match t {
        ActionType::Pass => ActionView::Pass(c),
        ActionType::Put => ActionView::Put(c, pos),
        ActionType::Special => ActionView::Special(c, pos),
    }
}

/// The first action of the sequence that is valid for `p` in `s`, if any.
pub open spec fn first_valid(s: StateView, p: PlayerId, v: Seq<ActionView>) -> Option<ActionView>
    decreases v.len(),
{
    if v.len() == 0 {
        None
    } else if spec_is_valid_action(s, p, v[0]) {
        Some(v[0])
    } else {
        first_valid(s, p, v.drop_first())
    }
}

/// The sequences `f` gives for the items of `items`, one after another.
pub open spec fn concat_map<A>(items: Seq<A>, f: spec_fn(A) -> Seq<ActionView>) -> Seq<ActionView>
    decreases items.len(),
{
    if items.len() == 0 {
        Seq::empty()
    } else {
        concat_map(items.drop_last(), f) + f(items.last())
    }
}

/// The actions tried on row `y` with rotation `r`: one per column of `xs`.
pub open spec fn row_candidates(t: ActionType, c: CardView, r: Rotation, y: i32, xs: Seq<i32>) -> Seq<ActionView> {
    concat_map(xs, |x: i32| seq![make_action(t, c, CardPosition { x, y, rotation: r })])
}

/// The actions tried with rotation `r`: row by row of `ys`.
pub open spec fn rotation_candidates(t: ActionType, c: CardView, r: Rotation, ys: Seq<i32>, xs: Seq<i32>) -> Seq<
    ActionView,
> {
    concat_map(ys, |y: i32| row_candidates(t, c, r, y, xs))
}

/// The actions tried with card `c`: a pass alone, or a put or special attack
/// rotation by rotation of `rots`.
pub open spec fn card_candidates(
    t: ActionType,
    c: CardView,
    rots: Seq<Rotation>,
    ys: Seq<i32>,
    xs: Seq<i32>,
) -> Seq<ActionView> {
    if t == ActionType::Pass {
        seq![ActionView::Pass(c)]
    } else {
        concat_map(rots, |r: Rotation| rotation_candidates(t, c, r, ys, xs))
    }
}

/// The actions tried of kind `t`: card by card of `cards`.
pub open spec fn kind_candidates(
    t: ActionType,
    cards: Seq<CardView>,
    rots: Seq<Rotation>,
    ys: Seq<i32>,
    xs: Seq<i32>,
) -> Seq<ActionView> {
    concat_map(cards, |c: CardView| card_candidates(t, c, rots, ys, xs))
}

/// All actions tried, in order: kind by kind of `kinds`.
pub open spec fn all_candidates(
    kinds: Seq<ActionType>,
    cards: Seq<CardView>,
    rots: Seq<Rotation>,
    ys: Seq<i32>,
    xs: Seq<i32>,
) -> Seq<ActionView> {
    concat_map(kinds, |t: ActionType| kind_candidates(t, cards, rots, ys, xs))
}

/// The view of an optional action.
pub open spec fn option_view(o: Option<Action>) -> Option<ActionView> {
    match o {
        Some(a) => Some(a@),
        None => None,
    }
}

/// The first valid action of two sequences one after the other.
pub proof fn lemma_first_valid_append(s: StateView, p: PlayerId, a: Seq<ActionView>, b: Seq<ActionView>)
    ensures
        first_valid(s, p, a + b) == match first_valid(s, p, a) {
            Some(x) => Some(x),
            None => first_valid(s, p, b),
        },
    decreases a.len(),
{
    if a.len() == 0 {
        assert(a + b =~= b);
    } else {
        assert((a + b)[0] == a[0]);
        assert((a + b).drop_first() =~= a.drop_first() + b);
        lemma_first_valid_append(s, p, a.drop_first(), b);
    }
}

/// What `concat_map` gives for two sequences one after the other.
pub proof fn lemma_concat_map_append<A>(a: Seq<A>, b: Seq<A>, f: spec_fn(A) -> Seq<ActionView>)
    ensures
        concat_map(a + b, f) == concat_map(a, f) + concat_map(b, f),
    decreases b.len(),
{
    if b.len() == 0 {
        assert(a + b =~= a);
        assert(concat_map(a, f) + Seq::<ActionView>::empty() =~= concat_map(a, f));
    } else {
        assert((a + b).drop_last() =~= a + b.drop_last());
        assert((a + b).last() == b.last());
        lemma_concat_map_append(a, b.drop_last(), f);
        assert(concat_map(a, f) + concat_map(b.drop_last(), f) + f(b.last()) =~= concat_map(a, f) + (concat_map(
            b.drop_last(),
            f,
        ) + f(b.last())));
    }
}

/// Extending the scanned prefix by one item extends the candidates by that
/// item's candidates.
proof fn lemma_concat_map_step<A>(items: Seq<A>, i: int, f: spec_fn(A) -> Seq<ActionView>)
    requires
        0 <= i < items.len(),
    ensures
        concat_map(items.take(i + 1), f) == concat_map(items.take(i), f) + f(items[i]),
{
    assert(items.take(i + 1).drop_last() =~= items.take(i));
    assert(items.take(i + 1).last() == items[i]);
}

/// When no candidate of the scanned prefix is valid and item `i` has a valid
/// one, the first valid candidate of all items is that one.
proof fn lemma_found_at<A>(s: StateView, p: PlayerId, items: Seq<A>, i: int, f: spec_fn(A) -> Seq<ActionView>)
    requires
        0 <= i < items.len(),
        first_valid(s, p, concat_map(items.take(i), f)) is None,
        first_valid(s, p, f(items[i])) is Some,
    ensures
        first_valid(s, p, concat_map(items, f)) == first_valid(s, p, f(items[i])),
{
    lemma_concat_map_step(items, i, f);
    lemma_first_valid_append(s, p, concat_map(items.take(i), f), f(items[i]));
    assert(items.take(i + 1) + items.skip(i + 1) =~= items);
    lemma_concat_map_append(items.take(i + 1), items.skip(i + 1), f);
    lemma_first_valid_append(s, p, concat_map(items.take(i + 1), f), concat_map(items.skip(i + 1), f));
}

/// When no candidate of the scanned prefix nor of item `i` is valid, none of
/// the longer prefix is.
proof fn lemma_none_through<A>(s: StateView, p: PlayerId, items: Seq<A>, i: int, f: spec_fn(A) -> Seq<ActionView>)
    requires
        0 <= i < items.len(),
        first_valid(s, p, concat_map(items.take(i), f)) is None,
        first_valid(s, p, f(items[i])) is None,
    ensures
        first_valid(s, p, concat_map(items.take(i + 1), f)) is None,
{
    lemma_concat_map_step(items, i, f);
    lemma_first_valid_append(s, p, concat_map(items.take(i), f), f(items[i]));
}

/// The first valid action on row `y`, trying the columns of `xs` in order.
fn first_valid_in_row(
    state: &State,
    player_id: PlayerId,
    t: ActionType,
    card: &Card,
    rotation: Rotation,
    y: i32,
    xs: &[i32],
) -> (r: Option<Action>)
    requires
        state.board.wf(),
    ensures
        option_view(r) == first_valid(state@, player_id, row_candidates(t, card@, rotation, y, xs@)),
        r matches Some(a) ==> a@.card() == card@,
{
    card.ensure_wf();
    let ghost f = |x: i32| seq![make_action(t, card@, CardPosition { x, y, rotation })];
    let mut i: usize = 0;
    while i < xs.len()
        invariant
            state.board.wf(),
            card.wf(),
            0 <= i <= xs@.len(),
            f == (|x: i32| seq![make_action(t, card@, CardPosition { x, y, rotation })]),
            first_valid(state@, player_id, concat_map(xs@.take(i as int), f)) is None,
        decreases xs@.len() - i,
    {
        let pos = CardPosition { x: xs[i], y, rotation };
        let action = match t {
            ActionType::Pass => Action::Pass(card.clone()),
            ActionType::Put => Action::Put(card.clone(), pos),
            ActionType::Special => Action::Special(card.clone(), pos),
        };
        assert(action@ == make_action(t, card@, pos));
        assert(f(xs@[i as int]) == seq![action@]);
        assert(seq![action@].drop_first() =~= Seq::<ActionView>::empty());
        if is_valid_action(state, player_id, &action) {
            proof {
                lemma_found_at(state@, player_id, xs@, i as int, f);
            }
            return Some(action);
        }
        proof {
            assert(first_valid(state@, player_id, seq![action@].drop_first()) is None);
            assert(first_valid(state@, player_id, seq![action@]) is None);
            lemma_none_through(state@, player_id, xs@, i as int, f);
        }
        i += 1;
    }
    assert(xs@.take(xs@.len() as int) =~= xs@);
    None
}

/// The first valid action with rotation `rotation`, trying the rows of `ys` in order.
fn first_valid_with_rotation(
    state: &State,
    player_id: PlayerId,
    t: ActionType,
    card: &Card,
    rotation: Rotation,
    ys: &[i32],
    xs: &[i32],
) -> (r: Option<Action>)
    requires
        state.board.wf(),
    ensures
        option_view(r) == first_valid(state@, player_id, rotation_candidates(t, card@, rotation, ys@, xs@)),
        r matches Some(a) ==> a@.card() == card@,
{
    let ghost f = |y: i32| row_candidates(t, card@, rotation, y, xs@);
    let mut i: usize = 0;
    while i < ys.len()
        invariant
            state.board.wf(),
            0 <= i <= ys@.len(),
            f == (|y: i32| row_candidates(t, card@, rotation, y, xs@)),
            first_valid(state@, player_id, concat_map(ys@.take(i as int), f)) is None,
        decreases ys@.len() - i,
    {
        let found = first_valid_in_row(state, player_id, t, card, rotation, ys[i], xs);
        assert(f(ys@[i as int]) == row_candidates(t, card@, rotation, ys@[i as int], xs@));
        if found.is_some() {
            proof {
                lemma_found_at(state@, player_id, ys@, i as int, f);
            }
            return found;
        }
        proof {
            lemma_none_through(state@, player_id, ys@, i as int, f);
        }
        i += 1;
    }
    assert(ys@.take(ys@.len() as int) =~= ys@);
    None
}

/// The first valid action with card `card`: a pass at once, or a put or
/// special attack trying the rotations of `rots` in order.
fn first_valid_with_card(
    state: &State,
    player_id: PlayerId,
    t: ActionType,
    card: &Card,
    rots: &[Rotation],
    ys: &[i32],
    xs: &[i32],
) -> (r: Option<Action>)
    requires
        state.board.wf(),
    ensures
        option_view(r) == first_valid(state@, player_id, card_candidates(t, card@, rots@, ys@, xs@)),
        r matches Some(a) ==> a@.card() == card@,
{
    if t == ActionType::Pass {
        let action = Action::Pass(card.clone());
        assert(seq![action@].drop_first() =~= Seq::<ActionView>::empty());
        return Some(action);
    }
    let ghost f = |r: Rotation| rotation_candidates(t, card@, r, ys@, xs@);
    let mut i: usize = 0;
    while i < rots.len()
        invariant
            state.board.wf(),
            t != ActionType::Pass,
            0 <= i <= rots@.len(),
            f == (|r: Rotation| rotation_candidates(t, card@, r, ys@, xs@)),
            first_valid(state@, player_id, concat_map(rots@.take(i as int), f)) is None,
        decreases rots@.len() - i,
    {
        let found = first_valid_with_rotation(state, player_id, t, card, rots[i], ys, xs);
        assert(f(rots@[i as int]) == rotation_candidates(t, card@, rots@[i as int], ys@, xs@));
        if found.is_some() {
            proof {
                lemma_found_at(state@, player_id, rots@, i as int, f);
            }
            return found;
        }
        proof {
            lemma_none_through(state@, player_id, rots@, i as int, f);
        }
        i += 1;
    }
    assert(rots@.take(rots@.len() as int) =~= rots@);
    None
}

/// The views of a list of card references.
pub open spec fn ref_views(cards: Seq<&Card>) -> Seq<CardView> {
    cards.map_values(|c: &Card| c@)
}

/// The first valid action of kind `t`, trying the cards of `cards` in order.
fn first_valid_of_kind(
    state: &State,
    player_id: PlayerId,
    t: ActionType,
    cards: &[&Card],
    rots: &[Rotation],
    ys: &[i32],
    xs: &[i32],
) -> (r: Option<Action>)
    requires
        state.board.wf(),
    ensures
        option_view(r) == first_valid(state@, player_id, kind_candidates(t, ref_views(cards@), rots@, ys@, xs@)),
        r matches Some(a) ==> exists|i: int| 0 <= i < cards@.len() && a@.card() == #[trigger] cards@[i]@,
{
    let ghost cv = ref_views(cards@);
    let ghost f = |c: CardView| card_candidates(t, c, rots@, ys@, xs@);
    let mut i: usize = 0;
    while i < cards.len()
        invariant
            state.board.wf(),
            0 <= i <= cards@.len(),
            cv == ref_views(cards@),
            f == (|c: CardView| card_candidates(t, c, rots@, ys@, xs@)),
            first_valid(state@, player_id, concat_map(cv.take(i as int), f)) is None,
        decreases cards@.len() - i,
    {
        let found = first_valid_with_card(state, player_id, t, cards[i], rots, ys, xs);
        assert(cv[i as int] == cards@[i as int]@);
        assert(f(cv[i as int]) == card_candidates(t, cards@[i as int]@, rots@, ys@, xs@));
        if found.is_some() {
            proof {
                lemma_found_at(state@, player_id, cv, i as int, f);
            }
            return found;
        }
        proof {
            lemma_none_through(state@, player_id, cv, i as int, f);
        }
        i += 1;
    }
    assert(cv.take(cv.len() as int) =~= cv);
    None
}

/// The first valid action among the candidates tried in the given orders:
/// kind by kind of `kinds`, then card by card of `cards`; a pass is tried
/// with the card alone, a put or a special attack rotation by rotation of
/// `rots`, row by row of `ys` and column by column of `xs`.
pub fn first_valid_action(
    state: &State,
    player_id: PlayerId,
    kinds: &[ActionType],
    cards: &[&Card],
    rots: &[Rotation],
    ys: &[i32],
    xs: &[i32],
) -> (r: Option<Action>)
    requires
        state.board.wf(),
    ensures
        option_view(r) == first_valid(state@, player_id, all_candidates(kinds@, ref_views(cards@), rots@, ys@, xs@)),
        r matches Some(a) ==> exists|i: int| 0 <= i < cards@.len() && a@.card() == #[trigger] cards@[i]@,
{
    let ghost f = |t: ActionType| kind_candidates(t, ref_views(cards@), rots@, ys@, xs@);
    let mut i: usize = 0;
    while i < kinds.len()
        invariant
            state.board.wf(),
            0 <= i <= kinds@.len(),
            f == (|t: ActionType| kind_candidates(t, ref_views(cards@), rots@, ys@, xs@)),
            first_valid(state@, player_id, concat_map(kinds@.take(i as int), f)) is None,
        decreases kinds@.len() - i,
    {
        let found = first_valid_of_kind(state, player_id, kinds[i], cards, rots, ys, xs);
        assert(f(kinds@[i as int]) == kind_candidates(kinds@[i as int], ref_views(cards@), rots@, ys@, xs@));
        if found.is_some() {
            proof {
                lemma_found_at(state@, player_id, kinds@, i as int, f);
            }
            return found;
        }
        proof {
            lemma_none_through(state@, player_id, kinds@, i as int, f);
        }
        i += 1;
    }
    assert(kinds@.take(kinds@.len() as int) =~= kinds@);
    None
}


/// The first valid action found is valid.
pub proof fn lemma_first_valid_is_valid(s: StateView, p: PlayerId, v: Seq<ActionView>)
    ensures
        first_valid(s, p, v) matches Some(a) ==> spec_is_valid_action(s, p, a) && v.contains(a),
    decreases v.len(),
{
    if v.len() > 0 && !spec_is_valid_action(s, p, v[0]) {
        lemma_first_valid_is_valid(s, p, v.drop_first());
        if let Some(a) = first_valid(s, p, v.drop_first()) {
            let k = choose|k: int| 0 <= k < v.drop_first().len() && v.drop_first()[k] == a;
            assert(v[k + 1] == a);
        }
    } else if v.len() > 0 {
        assert(v[0] == v[0]);
    }
}

/// Whether an action is a pass, or is put at a column of `xs` and a row of `ys`.
pub open spec fn placed_within(a: ActionView, xs: Seq<i32>, ys: Seq<i32>) -> bool {
    a.is_pass() || (xs.contains(a.position().x) && ys.contains(a.position().y))
}

/// Whether every action of `v` is placed within `xs` and `ys`.
pub open spec fn all_within(v: Seq<ActionView>, xs: Seq<i32>, ys: Seq<i32>) -> bool {
    forall|k: int| 0 <= k < v.len() ==> placed_within(#[trigger] v[k], xs, ys)
}

/// The sequences of all items placed within the ranges make a sequence placed within them.
proof fn lemma_concat_map_within<A>(items: Seq<A>, f: spec_fn(A) -> Seq<ActionView>, xs: Seq<i32>, ys: Seq<i32>)
    requires
        forall|i: int| 0 <= i < items.len() ==> all_within(#[trigger] f(items[i]), xs, ys),
    ensures
        all_within(concat_map(items, f), xs, ys),
    decreases items.len(),
{
    if items.len() > 0 {
        let init = items.drop_last();
        assert forall|i: int| 0 <= i < init.len() implies all_within(#[trigger] f(init[i]), xs, ys) by {
            assert(init[i] == items[i]);
        }
        lemma_concat_map_within(init, f, xs, ys);
        let a = concat_map(init, f);
        let b = f(items.last());
        assert(all_within(b, xs, ys)) by {
            assert(items.last() == items[items.len() - 1]);
        }
        assert forall|k: int| 0 <= k < (a + b).len() implies placed_within(#[trigger] (a + b)[k], xs, ys) by {
            if k < a.len() {
                assert((a + b)[k] == a[k]);
            } else {
                assert((a + b)[k] == b[k - a.len()]);
            }
        }
    }
}

/// Every candidate tried is a pass or is placed at a column of `xs` and a
/// row of `ys`.
proof fn lemma_candidates_within(kinds: Seq<ActionType>, cards: Seq<CardView>, rots: Seq<Rotation>, ys: Seq<i32>, xs: Seq<i32>)
    ensures
        all_within(all_candidates(kinds, cards, rots, ys, xs), xs, ys),
{
    assert forall|t: ActionType, c: CardView| #[trigger] all_within(card_candidates(t, c, rots, ys, xs), xs, ys) by {
        if t != ActionType::Pass {
            let fr = |r: Rotation| rotation_candidates(t, c, r, ys, xs);
            assert forall|ir: int| 0 <= ir < rots.len() implies all_within(#[trigger] fr(rots[ir]), xs, ys) by {
                let r = rots[ir];
                let fy = |y: i32| row_candidates(t, c, r, y, xs);
                assert forall|iy: int| 0 <= iy < ys.len() implies all_within(#[trigger] fy(ys[iy]), xs, ys) by {
                    let y = ys[iy];
                    assert(ys.contains(y));
                    let g = |x: i32| seq![make_action(t, c, CardPosition { x, y, rotation: r })];
                    assert forall|ix: int| 0 <= ix < xs.len() implies all_within(#[trigger] g(xs[ix]), xs, ys) by {
                        assert(xs.contains(xs[ix]));
                        assert(g(xs[ix])[0] == make_action(t, c, CardPosition { x: xs[ix], y, rotation: r }));
                    }
                    lemma_concat_map_within(xs, g, xs, ys);
                    assert(fy(y) == concat_map(xs, g));
                }
                lemma_concat_map_within(ys, fy, xs, ys);
                assert(fr(r) == concat_map(ys, fy));
            }
            lemma_concat_map_within(rots, fr, xs, ys);
            assert(card_candidates(t, c, rots, ys, xs) == concat_map(rots, fr));
        } else {
            assert(card_candidates(t, c, rots, ys, xs)[0] == ActionView::Pass(c));
        }
    }
    assert forall|t: ActionType| #[trigger] all_within(kind_candidates(t, cards, rots, ys, xs), xs, ys) by {
        let g = |c: CardView| card_candidates(t, c, rots, ys, xs);
        assert forall|i: int| 0 <= i < cards.len() implies all_within(#[trigger] g(cards[i]), xs, ys) by {
            assert(all_within(card_candidates(t, cards[i], rots, ys, xs), xs, ys));
        }
        lemma_concat_map_within(cards, g, xs, ys);
    }
    let f = |t: ActionType| kind_candidates(t, cards, rots, ys, xs);
    assert forall|i: int| 0 <= i < kinds.len() implies all_within(#[trigger] f(kinds[i]), xs, ys) by {
        assert(all_within(kind_candidates(kinds[i], cards, rots, ys, xs), xs, ys));
    }
    lemma_concat_map_within(kinds, f, xs, ys);
}

/// When some item has a valid candidate, some candidate of all items is valid.
proof fn lemma_some_valid<A>(s: StateView, p: PlayerId, items: Seq<A>, i: int, f: spec_fn(A) -> Seq<ActionView>)
    requires
        0 <= i < items.len(),
        first_valid(s, p, f(items[i])) is Some,
    ensures
        first_valid(s, p, concat_map(items, f)) is Some,
{
    lemma_concat_map_step(items, i, f);
    lemma_first_valid_append(s, p, concat_map(items.take(i), f), f(items[i]));
    assert(items.take(i + 1) + items.skip(i + 1) =~= items);
    lemma_concat_map_append(items.take(i + 1), items.skip(i + 1), f);
    lemma_first_valid_append(s, p, concat_map(items.take(i + 1), f), concat_map(items.skip(i + 1), f));
}

/// Copies a list of coordinates.
fn copy_coords(v: &[i32]) -> (r: Vec<i32>)
    ensures
        r@ == v@,
{
    let mut r: Vec<i32> = Vec::new();
    let mut i: usize = 0;
    while i < v.len()
        invariant
            0 <= i <= v@.len(),
            r@ == v@.take(i as int),
        decreases v@.len() - i,
    {
        r.push(v[i]);
        assert(r@ =~= v@.take(i + 1));
        i += 1;
    }
    assert(r@ =~= v@);
    r
}

/// Whether two lists hold the same items (in any order, any number of times).
pub open spec fn same_items<A>(a: Seq<A>, b: Seq<A>) -> bool {
    forall|x: A| a.contains(x) <==> b.contains(x)
}

/// Whether `a` is what the random player can pick with `cards`: the first
/// valid action when the kinds of action, the cards, the four rotations,
/// the rows and the columns inside the board's frame are each tried in some
/// order.
pub open spec fn shuffled_pick(s: StateView, cards: Seq<CardView>, p: PlayerId, a: ActionView) -> bool {
    exists|kinds: Seq<ActionType>, cv: Seq<CardView>, rots: Seq<Rotation>, ys: Seq<i32>, xs: Seq<i32>|
        #![trigger all_candidates(kinds, cv, rots, ys, xs)]
        {
            &&& same_items(kinds, seq![ActionType::Pass, ActionType::Put, ActionType::Special])
            &&& same_items(cv, cards)
            &&& same_items(rots, seq![Rotation::Up, Rotation::Right, Rotation::Down, Rotation::Left])
            &&& same_items(ys, inner_range(s.board.height()))
            &&& same_items(xs, inner_range(s.board.width()))
            &&& first_valid(s, p, all_candidates(kinds, cv, rots, ys, xs)) == Some(a)
        }
}

/// The first candidate of a concatenation is the first of its first part.
proof fn lemma_concat_map_first<A>(items: Seq<A>, f: spec_fn(A) -> Seq<ActionView>)
    requires
        items.len() > 0,
        f(items[0]).len() > 0,
    ensures
        concat_map(items, f).len() > 0,
        concat_map(items, f)[0] == f(items[0])[0],
{
    let head = seq![items[0]];
    assert(head + items.drop_first() =~= items);
    lemma_concat_map_append(head, items.drop_first(), f);
    assert(head.drop_last() =~= Seq::<A>::empty());
    assert(head.last() == items[0]);
    assert(concat_map(head.drop_last(), f) =~= Seq::<ActionView>::empty());
    assert(concat_map(head, f) == concat_map(head.drop_last(), f) + f(head.last()));
    assert(concat_map(head, f) =~= f(items[0]));
}

/// Every action the random player may take can be its pick: a pass with
/// any of its cards, and any valid put or special attack of one of its
/// cards, in any of the four rotations, at a row and column inside the
/// board's frame, is the first valid action for some order of the kinds,
/// cards, rotations, rows and columns.
pub proof fn lemma_every_valid_action_can_be_picked(s: StateView, cards: Seq<CardView>, p: PlayerId, a: ActionView)
    requires
        cards.contains(a.card()),
        spec_is_valid_action(s, p, a),
        !a.is_pass() ==> inner_range(s.board.width()).contains(a.position().x) && inner_range(
            s.board.height(),
        ).contains(a.position().y),
    ensures
        shuffled_pick(s, cards, p, a),
{
    let all_kinds = seq![ActionType::Pass, ActionType::Put, ActionType::Special];
    let all_rots = seq![Rotation::Up, Rotation::Right, Rotation::Down, Rotation::Left];
    let t = match a {
        ActionView::Pass(_) => ActionType::Pass,
        ActionView::Put(_, _) => ActionType::Put,
        ActionView::Special(_, _) => ActionType::Special,
    };
    let c = a.card();
    let ys0 = inner_range(s.board.height());
    let xs0 = inner_range(s.board.width());
    let (r, y, x) = if a.is_pass() {
        (Rotation::Up, 1i32, 1i32)
    } else {
        (a.position().rotation, a.position().y, a.position().x)
    };
    let kinds = seq![t] + all_kinds;
    let cv = seq![c] + cards;
    let rots = seq![r] + all_rots;
    let ys = seq![y] + ys0;
    let xs = seq![x] + xs0;
    assert forall|k: ActionType| kinds.contains(k) <==> all_kinds.contains(k) by {
        if kinds.contains(k) {
            let i = choose|i: int| 0 <= i < kinds.len() && kinds[i] == k;
            if i > 0 {
                assert(all_kinds[i - 1] == k);
            }
            match k {
                ActionType::Pass => assert(all_kinds[0] == k),
                ActionType::Put => assert(all_kinds[1] == k),
                ActionType::Special => assert(all_kinds[2] == k),
            }
        }
        if all_kinds.contains(k) {
            let i = choose|i: int| 0 <= i < all_kinds.len() && all_kinds[i] == k;
            assert(kinds[i + 1] == k);
        }
    }
    assert forall|k: Rotation| rots.contains(k) <==> all_rots.contains(k) by {
        if rots.contains(k) {
            match k {
                Rotation::Up => assert(all_rots[0] == k),
                Rotation::Right => assert(all_rots[1] == k),
                Rotation::Down => assert(all_rots[2] == k),
                Rotation::Left => assert(all_rots[3] == k),
            }
        }
        if all_rots.contains(k) {
            let i = choose|i: int| 0 <= i < all_rots.len() && all_rots[i] == k;
            assert(rots[i + 1] == k);
        }
    }
    assert forall|k: CardView| cv.contains(k) <==> cards.contains(k) by {
        if cv.contains(k) {
            let i = choose|i: int| 0 <= i < cv.len() && cv[i] == k;
            if i > 0 {
                assert(cards[i - 1] == k);
            }
        }
        if cards.contains(k) {
            let i = choose|i: int| 0 <= i < cards.len() && cards[i] == k;
            assert(cv[i + 1] == k);
        }
    }
    assert(ys.len() > 0 && xs.len() > 0);
    if !a.is_pass() {
        assert forall|k: i32| ys.contains(k) <==> ys0.contains(k) by {
            if ys.contains(k) {
                let i = choose|i: int| 0 <= i < ys.len() && ys[i] == k;
                if i > 0 {
                    assert(ys0[i - 1] == k);
                }
            }
            if ys0.contains(k) {
                let i = choose|i: int| 0 <= i < ys0.len() && ys0[i] == k;
                assert(ys[i + 1] == k);
            }
        }
        assert forall|k: i32| xs.contains(k) <==> xs0.contains(k) by {
            if xs.contains(k) {
                let i = choose|i: int| 0 <= i < xs.len() && xs[i] == k;
                if i > 0 {
                    assert(xs0[i - 1] == k);
                }
            }
            if xs0.contains(k) {
                let i = choose|i: int| 0 <= i < xs0.len() && xs0[i] == k;
                assert(xs[i + 1] == k);
            }
        }
    }
    let all = all_candidates(kinds, cv, rots, ys, xs);
    let fk = |tt: ActionType| kind_candidates(tt, cv, rots, ys, xs);
    let fc = |cc: CardView| card_candidates(t, cc, rots, ys, xs);
    if a.is_pass() {
        assert(fc(cv[0]) == seq![ActionView::Pass(c)]);
        lemma_concat_map_first(cv, fc);
        lemma_concat_map_first(kinds, fk);
        assert(all[0] == a);
        // the chosen rows and columns are unused for a pass: take the frame itself
        let p_all = all_candidates(kinds, cv, rots, ys0, xs0);
        let pfk = |tt: ActionType| kind_candidates(tt, cv, rots, ys0, xs0);
        let pfc = |cc: CardView| card_candidates(t, cc, rots, ys0, xs0);
        assert(pfc(cv[0]) == seq![ActionView::Pass(c)]);
        lemma_concat_map_first(cv, pfc);
        lemma_concat_map_first(kinds, pfk);
        assert(p_all[0] == a);
        assert(first_valid(s, p, p_all) == Some(a));
        assert(same_items(ys0, inner_range(s.board.height())));
        assert(same_items(xs0, inner_range(s.board.width())));
    } else {
        let fr = |rr: Rotation| rotation_candidates(t, c, rr, ys, xs);
        let fy = |yy: i32| row_candidates(t, c, r, yy, xs);
        let fx = |xx: i32| seq![make_action(t, c, CardPosition { x: xx, y, rotation: r })];
        assert(fx(xs[0]).len() > 0);
        lemma_concat_map_first(xs, fx);
        assert(fy(ys[0]) == concat_map(xs, fx));
        lemma_concat_map_first(ys, fy);
        assert(fr(rots[0]) == concat_map(ys, fy));
        lemma_concat_map_first(rots, fr);
        assert(fc(cv[0]) == concat_map(rots, fr));
        lemma_concat_map_first(cv, fc);
        assert(fk(kinds[0]) == concat_map(cv, fc));
        lemma_concat_map_first(kinds, fk);
        assert(CardPosition { x, y, rotation: r } == a.position());
        assert(all[0] == a);
        assert(first_valid(s, p, all) == Some(a));
    }
}

/// Picks an action for `player_id` at random: the cards, the kinds of
/// action, the rotations, the rows and the columns are each shuffled, and the
/// first valid action in that order is taken (see `first_valid_action`). A
/// pass is always valid, so an action is always found.
pub fn choose_random_action(state: &State, cards: &[Card], player_id: PlayerId, rng: &mut WyRng) -> (r: Action)
    requires
        state.board.wf(),
        cards@.len() > 0,
    ensures
        spec_is_valid_action(state@, player_id, r@),
        exists|i: int| 0 <= i < cards@.len() && r@.card() == #[trigger] cards@[i]@,
        !r@.is_pass() ==> inner_range(state@.board.width()).contains(r@.position().x) && inner_range(
            state@.board.height(),
        ).contains(r@.position().y),
        shuffled_pick(state@, cards_view(cards@), player_id, r@),
{
    let mut card_refs: Vec<&Card> = Vec::new();
    let mut i: usize = 0;
    while i < cards.len()
        invariant
            0 <= i <= cards@.len(),
            card_refs@.len() == i,
            forall|k: int| 0 <= k < i ==> #[trigger] card_refs@[k] == cards@[k],
        decreases cards@.len() - i,
    {
        card_refs.push(&cards[i]);
        i += 1;
    }
    let ghost refs0 = card_refs@;
    let mut kinds = ActionType::values();
    let ghost kinds0 = kinds@;
    let all_rotations = Rotation::values();
    let mut rots: Vec<Rotation> = Vec::new();
    let mut k: usize = 0;
    while k < 4
        invariant
            0 <= k <= 4,
            rots@.len() == k,
            forall|i: int| 0 <= i < 4 ==> #[trigger] all_rotations@[i] == Rotation::spec_from_index(i),
            forall|i: int| 0 <= i < k ==> #[trigger] rots@[i] == Rotation::spec_from_index(i),
        decreases 4 - k,
    {
        rots.push(all_rotations[k]);
        k += 1;
    }
    assert(rots@ =~= seq![Rotation::Up, Rotation::Right, Rotation::Down, Rotation::Left]);
    let ghost rots0 = rots@;
    let mut ys = copy_coords(state.board.get_y_range());
    let mut xs = copy_coords(state.board.get_x_range());
    let ghost ys0 = ys@;
    let ghost xs0 = xs@;

    shuffle_wy(&mut card_refs, rng);
    shuffle_wy(&mut kinds, rng);
    shuffle_wy(&mut rots, rng);
    shuffle_wy(&mut ys, rng);
    shuffle_wy(&mut xs, rng);

    let found = first_valid_action(
        state,
        player_id,
        kinds.as_slice(),
        card_refs.as_slice(),
        rots.as_slice(),
        ys.as_slice(),
        xs.as_slice(),
    );
    let ghost cv = ref_views(card_refs@);
    let ghost all = all_candidates(kinds@, cv, rots@, ys@, xs@);
    proof {
        lemma_first_valid_is_valid(state@, player_id, all);
        // A pass with the first card is among the candidates, and it is valid.
        assert(card_refs@.to_multiset().len() == refs0.to_multiset().len());
        assert(refs0.len() == cards@.len());
        assert(cv.len() == card_refs@.len());
        assert(cv.len() > 0);
        assert(kinds0[0] == ActionType::Pass);
        assert(kinds0.contains(ActionType::Pass));
        assert(kinds0.to_multiset().count(ActionType::Pass) > 0);
        assert(kinds@.contains(ActionType::Pass));
        let j = kinds@.index_of(ActionType::Pass);
        let g = |c: CardView| card_candidates(ActionType::Pass, c, rots@, ys@, xs@);
        assert(g(cv[0]) == seq![ActionView::Pass(cv[0])]);
        assert(first_valid(state@, player_id, g(cv[0])) is Some);
        lemma_some_valid(state@, player_id, cv, 0, g);
        let f = |t: ActionType| kind_candidates(t, cv, rots@, ys@, xs@);
        assert(f(kinds@[j]) == concat_map(cv, g));
        lemma_some_valid(state@, player_id, kinds@, j, f);
        assert(all == concat_map(kinds@, f));
    }
    proof {
        broadcast use vstd::seq_lib::group_to_multiset_ensures;

        assert forall|t: ActionType| kinds@.contains(t) <==> kinds0.contains(t) by {
            assert(kinds@.to_multiset().count(t) == kinds0.to_multiset().count(t));
        }
        assert forall|t: Rotation| rots@.contains(t) <==> rots0.contains(t) by {
            assert(rots@.to_multiset().count(t) == rots0.to_multiset().count(t));
        }
        assert forall|t: i32| ys@.contains(t) <==> ys0.contains(t) by {
            assert(ys@.to_multiset().count(t) == ys0.to_multiset().count(t));
        }
        assert forall|t: i32| xs@.contains(t) <==> xs0.contains(t) by {
            assert(xs@.to_multiset().count(t) == xs0.to_multiset().count(t));
        }
        assert forall|v: CardView| cv.contains(v) <==> cards_view(cards@).contains(v) by {
            if cv.contains(v) {
                let j = choose|j: int| 0 <= j < cv.len() && cv[j] == v;
                assert(card_refs@.contains(card_refs@[j]));
                assert(card_refs@.to_multiset().count(card_refs@[j]) > 0);
                assert(refs0.to_multiset().count(card_refs@[j]) > 0);
                assert(refs0.contains(card_refs@[j]));
                let i = choose|i: int| 0 <= i < refs0.len() && refs0[i] == card_refs@[j];
                assert(cards_view(cards@)[i] == v);
            }
            if cards_view(cards@).contains(v) {
                let i = choose|i: int| 0 <= i < cards@.len() && cards_view(cards@)[i] == v;
                assert(refs0.contains(refs0[i]));
                assert(refs0.to_multiset().count(refs0[i]) > 0);
                assert(card_refs@.to_multiset().count(refs0[i]) > 0);
                assert(card_refs@.contains(refs0[i]));
                let j = choose|j: int| 0 <= j < card_refs@.len() && card_refs@[j] == refs0[i];
                assert(cv[j] == v);
            }
        }
    }
    match found {
        Some(a) => {
            proof {
                assert(first_valid(state@, player_id, all) == Some(a@));
                assert(shuffled_pick(state@, cards_view(cards@), player_id, a@));
                let j = choose|j: int| 0 <= j < card_refs@.len() && a@.card() == #[trigger] card_refs@[j]@;
                assert(card_refs@.contains(card_refs@[j]));
                assert(card_refs@.to_multiset().count(card_refs@[j]) > 0);
                assert(refs0.contains(card_refs@[j]));
                let i = choose|i: int| 0 <= i < refs0.len() && refs0[i] == card_refs@[j];
                assert(cards@[i]@ == a@.card());
                lemma_candidates_within(kinds@, cv, rots@, ys@, xs@);
                let m = choose|m: int| 0 <= m < all.len() && all[m] == a@;
                assert(placed_within(all[m], xs@, ys@));
                if !a@.is_pass() {
                    let x = a@.position().x;
                    let y = a@.position().y;
                    assert(xs@.to_multiset().count(x) > 0);
                    assert(xs0.to_multiset().count(x) > 0);
                    assert(xs0.contains(x));
                    assert(ys@.to_multiset().count(y) > 0);
                    assert(ys0.to_multiset().count(y) > 0);
                    assert(ys0.contains(y));
                }
            }
            a
        },
        None => {
            assert(false);
            unreached()
        },
    }
}

/// The kinds of players that can be picked by name.
#[derive(Clone, Copy, Debug, PartialEq, Eq, Structural)]
pub enum PlayerType {
    Random,
    Mcts { iterations: usize },
}

impl PlayerType {
    /// The kinds that have a name: the random player, and the search with 10,
    /// 100, 300 and 1000 iterations.
    pub fn value_variants() -> (r: Vec<PlayerType>)
        ensures
            r@ == seq![
                PlayerType::Random,
                PlayerType::Mcts { iterations: 10 },
                PlayerType::Mcts { iterations: 100 },
                PlayerType::Mcts { iterations: 300 },
                PlayerType::Mcts { iterations: 1000 },
            ],
    {
        let mut r: Vec<PlayerType> = Vec::new();
        r.push(PlayerType::Random);
        r.push(PlayerType::Mcts { iterations: 10 });
        r.push(PlayerType::Mcts { iterations: 100 });
        r.push(PlayerType::Mcts { iterations: 300 });
        r.push(PlayerType::Mcts { iterations: 1000 });
        assert(r@ =~= seq![
            PlayerType::Random,
            PlayerType::Mcts { iterations: 10 },
            PlayerType::Mcts { iterations: 100 },
            PlayerType::Mcts { iterations: 300 },
            PlayerType::Mcts { iterations: 1000 },
        ]);
        r
    }

    /// The name of a kind: `random`, or `mcts-` and the number of iterations
    /// for the ones `value_variants` lists; `None` for any other.
    pub fn value_name(&self) -> (r: Option<&'static str>)
        ensures
            r is Some <==> (*self == PlayerType::Random || *self == PlayerType::Mcts { iterations: 10 } || *self
                == PlayerType::Mcts { iterations: 100 } || *self == PlayerType::Mcts { iterations: 300 } || *self
                == PlayerType::Mcts { iterations: 1000 }),
    {
        match self {
            PlayerType::Random => Some("random"),
            PlayerType::Mcts { iterations } => {
                if *iterations == 10 {
                    Some("mcts-10")
                } else if *iterations == 100 {
                    Some("mcts-100")
                } else if *iterations == 300 {
                    Some("mcts-300")
                } else if *iterations == 1000 {
                    Some("mcts-1000")
                } else {
                    None
                }
            },
        }
    }
}
} // verus!
