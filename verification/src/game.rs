use vstd::prelude::*;

use std::collections::HashMap;

use crate::card::{Card, CardPosition, CardView};

verus! {

broadcast use vstd::std_specs::hash::group_hash_axioms;

/// Number of cards in a player's hands.
pub const HAND_SIZE: usize = 4;

/// Number of cards in a deck.
pub const DECK_SIZE: usize = 15;

/// Number of turns in a game.
pub const TURN_COUNT: i32 = 12;

/// One of the two players of a game.
#[derive(Clone, Copy, Debug, PartialEq, Eq, Structural, Hash)]
pub enum PlayerId {
    South,
    North,
}

impl PlayerId {
    /// The other player.
    pub open spec fn spec_another(self) -> PlayerId {
        match self {
            PlayerId::South => PlayerId::North,
            PlayerId::North => PlayerId::South,
        }
    }

    /// The index of the player in two-element arrays (south first).
    pub open spec fn spec_index(self) -> usize {
        match self {
            PlayerId::South => 0,
            PlayerId::North => 1,
        }
    }

    /// The other player.
    pub fn another(&self) -> (r: PlayerId)
        ensures
            r == self.spec_another(),
    {
        match self {
            PlayerId::South => PlayerId::North,
            PlayerId::North => PlayerId::South,
        }
    }

    /// The index of the player in two-element arrays (south first).
    pub fn to_index(self) -> (r: usize)
        ensures
            r == self.spec_index(),
    {
        match self {
            PlayerId::South => 0,
            PlayerId::North => 1,
        }
    }
}

/// The orientation a card is put with, in clockwise quarter turns from `Up`.
#[derive(Clone, Copy, Debug, PartialEq, Eq, Structural, Hash, PartialOrd, Ord)]
pub enum Rotation {
    Up,
    Right,
    Down,
    Left,
}

impl Rotation {
    /// The number of clockwise quarter turns from `Up`.
    pub open spec fn spec_index(self) -> int {
        match self {
            Rotation::Up => 0,
            Rotation::Right => 1,
            Rotation::Down => 2,
            Rotation::Left => 3,
        }
    }

    /// The number of clockwise quarter turns from `Up`.
    pub fn index(self) -> (r: usize)
        ensures
            r == self.spec_index(),
    {
        match self {
            Rotation::Up => 0,
            Rotation::Right => 1,
            Rotation::Down => 2,
            Rotation::Left => 3,
        }
    }

    /// The rotation with the given number of clockwise quarter turns.
    pub open spec fn spec_from_index(i: int) -> Rotation {
        if i == 0 {
            Rotation::Up
        } else if i == 1 {
            Rotation::Right
        } else if i == 2 {
            Rotation::Down
        } else {
            Rotation::Left
        }
    }

    /// All rotations, in the order `Up`, `Right`, `Down`, `Left`.
    pub fn values() -> (r: [Rotation; 4])
        ensures
            forall|i: int| 0 <= i < 4 ==> #[trigger] r@[i] == Rotation::spec_from_index(i),
    {
        [Rotation::Up, Rotation::Right, Rotation::Down, Rotation::Left]
    }
}

/// `another` is an involution: the other player of the other player is the player
/// itself, and no player is its own opponent.
pub proof fn lemma_another_involution(p: PlayerId)
    ensures
        p.spec_another().spec_another() == p,
        p.spec_another() != p,
        p.spec_another().spec_index() + p.spec_index() == 1,
{
}

/// The rotation index and `spec_from_index` are inverse to each other.
pub proof fn lemma_rotation_index_roundtrip(r: Rotation)
    ensures
        Rotation::spec_from_index(r.spec_index()) == r,
        0 <= r.spec_index() < 4,
{
}


/// What a player does in a turn: pass with a card, put a card, or put a card
/// as a special attack.
#[derive(Debug, Hash)]
pub enum Action {
    Pass(Card),
    Put(Card, CardPosition),
    Special(Card, CardPosition),
}

/// The mathematical content of an action.
pub ghost enum ActionView {
    Pass(CardView),
    Put(CardView, CardPosition),
    Special(CardView, CardPosition),
}

impl ActionView {
    /// The card the action consumes.
    pub open spec fn card(self) -> CardView {
        match self {
            ActionView::Pass(c) => c,
            ActionView::Put(c, _) => c,
            ActionView::Special(c, _) => c,
        }
    }

    /// The position where the card is put (meaningless for a pass).
    pub open spec fn position(self) -> CardPosition {
        match self {
            ActionView::Pass(_) => arbitrary(),
            ActionView::Put(_, p) => p,
            ActionView::Special(_, p) => p,
        }
    }

    pub open spec fn is_pass(self) -> bool {
        self is Pass
    }

    pub open spec fn is_special(self) -> bool {
        self is Special
    }
}

impl View for Action {
    type V = ActionView;

    open spec fn view(&self) -> ActionView {
        match self {
            Action::Pass(c) => ActionView::Pass(c@),
            Action::Put(c, p) => ActionView::Put(c@, *p),
            Action::Special(c, p) => ActionView::Special(c@, *p),
        }
    }
}

impl Clone for Action {
    fn clone(&self) -> (r: Self)
        ensures
            r@ == self@,
    {
        match self {
            Action::Pass(c) => Action::Pass(c.clone()),
            Action::Put(c, p) => Action::Put(c.clone(), *p),
            Action::Special(c, p) => Action::Special(c.clone(), *p),
        }
    }
}

/// Whether two actions are of the same kind, with the same card (by id) at
/// the same position.
pub open spec fn same_action(x: ActionView, y: ActionView) -> bool {
    match (x, y) {
        (ActionView::Pass(a), ActionView::Pass(b)) => a.id == b.id,
        (ActionView::Put(a, p), ActionView::Put(b, q)) => a.id == b.id && p == q,
        (ActionView::Special(a, p), ActionView::Special(b, q)) => a.id == b.id && p == q,
        _ => false,
    }
}

/// Actions are equal when they are of the same kind, with the same card (by id)
/// at the same position.
impl PartialEq for Action {
    fn eq(&self, other: &Self) -> (r: bool) {
        match (self, other) {
            (Action::Pass(a), Action::Pass(b)) => a.get_id() == b.get_id(),
            (Action::Put(a, p), Action::Put(b, q)) => a.get_id() == b.get_id() && *p == *q,
            (Action::Special(a, p), Action::Special(b, q)) => a.get_id() == b.get_id() && *p == *q,
            _ => false,
        }
    }
}

impl vstd::std_specs::cmp::PartialEqSpecImpl for Action {
    open spec fn obeys_eq_spec() -> bool {
        true
    }

    open spec fn eq_spec(&self, other: &Self) -> bool {
        same_action(self@, other@)
    }
}

impl Eq for Action {

}

impl Action {
    /// The card the action consumes from the hands.
    pub fn get_consumed_card(&self) -> (r: &Card)
        ensures
            r@ == self@.card(),
    {
        match self {
            Action::Pass(c) => c,
            Action::Put(c, _) => c,
            Action::Special(c, _) => c,
        }
    }

    /// The card and the position of an action that puts a card.
    pub fn get_card_card_position(&self) -> (r: (&Card, &CardPosition))
        requires
            !self@.is_pass(),
        ensures
            r.0@ == self@.card(),
            *r.1 == self@.position(),
    {
        match self {
            Action::Pass(_) => {
                assert(false);
                unreached()
            },
            Action::Put(c, p) => (c, p),
            Action::Special(c, p) => (c, p),
        }
    }

    pub fn is_pass(&self) -> (r: bool)
        ensures
            r == self@.is_pass(),
    {
        matches!(self, Action::Pass(_))
    }

    pub fn is_put(&self) -> (r: bool)
        ensures
            r == (self@ is Put),
    {
        matches!(self, Action::Put(_, _))
    }

    pub fn is_special(&self) -> (r: bool)
        ensures
            r == self@.is_special(),
    {
        matches!(self, Action::Special(_, _))
    }
}

/// Data shared by all games: every known card by id.
#[derive(Clone, Debug)]
pub struct Context {
    pub all_cards: HashMap<u32, Card>,
    pub enabled_step_execution: bool,
}

impl Context {
    /// The card with the given id.
    pub fn get_card(&self, card_id: u32) -> (r: Card)
        requires
            self.all_cards@.contains_key(card_id),
        ensures
            r@ == self.all_cards@[card_id]@,
    {
        match self.all_cards.get(&card_id) {
            Some(c) => c.clone(),
            None => {
                assert(false);
                unreached()
            },
        }
    }

    /// Whether a card with the given id is known.
    pub fn has_card(&self, card_id: u32) -> (r: bool)
        ensures
            r == self.all_cards@.contains_key(card_id),
    {
        self.all_cards.contains_key(&card_id)
    }

    /// Whether every id names a known card.
    pub fn has_cards(&self, ids: &[u32]) -> (r: bool)
        ensures
            r == forall|i: int| 0 <= i < ids@.len() ==> self.all_cards@.contains_key(#[trigger] ids@[i]),
    {
        let mut i: usize = 0;
        while i < ids.len()
            invariant
                0 <= i <= ids@.len(),
                forall|k: int| 0 <= k < i ==> self.all_cards@.contains_key(#[trigger] ids@[k]),
            decreases ids@.len() - i,
        {
            if !self.has_card(ids[i]) {
                return false;
            }
            i += 1;
        }
        true
    }

    /// The cards with the given ids, in order.
    pub fn get_cards(&self, ids: &[u32]) -> (r: Vec<Card>)
        requires
            forall|i: int| 0 <= i < ids@.len() ==> self.all_cards@.contains_key(#[trigger] ids@[i]),
        ensures
            r@.len() == ids@.len(),
            forall|i: int| 0 <= i < ids@.len() ==> #[trigger] r@[i]@ == self.all_cards@[ids@[i]]@,
    {
        let mut r: Vec<Card> = Vec::new();
        let mut i: usize = 0;
        while i < ids.len()
            invariant
                forall|i: int| 0 <= i < ids@.len() ==> self.all_cards@.contains_key(#[trigger] ids@[i]),
                0 <= i <= ids@.len(),
                r@.len() == i,
                forall|k: int| 0 <= k < i ==> #[trigger] r@[k]@ == self.all_cards@[ids@[k]]@,
            decreases ids@.len() - i,
        {
            r.push(self.get_card(ids[i]));
            i += 1;
        }
        r
    }
}

}
