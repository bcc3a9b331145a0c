use vstd::prelude::*;

use rand::{Rng, SeedableRng};
use wyhash::WyRng;

use crate::card::Card;
use crate::game::{Action, Context, PlayerId};
use crate::players::{choose_random_action, Player};
use crate::state::{spec_is_valid_action, State};

verus! {

/// `SeedableRng::seed_from_u64` of `WyRng`: a generator started from `seed`.
/// Nothing is stated of the generator, which Verus sees as an opaque value.
#[verifier::external_body]
fn seeded_wy_rng(seed: u64) -> WyRng {
    WyRng::seed_from_u64(seed)
}

/// `Rng::gen_ratio(1, 2)` of `rand`: a fair coin flip. The generator decides
/// the outcome, so nothing is stated of it.
#[verifier::external_body]
fn flip_coin(rng: &mut WyRng) -> bool {
    rng.gen_ratio(1, 2)
}

/// A player that picks a random valid action each turn and asks for a new
/// deal half of the time.
pub struct RandomPlayer {
    player_id: PlayerId,
    name: String,
    rng: WyRng,
}

impl RandomPlayer {
    /// The seat the player was told it plays.
    pub closed spec fn seat(&self) -> PlayerId {
        self.player_id
    }

    /// The name of the player.
    pub closed spec fn name_view(&self) -> Seq<char> {
        self.name@
    }

    /// A new player with a generator seeded by `seed`; it plays south until
    /// told otherwise.
    pub fn new(name: String, seed: u64) -> (r: Self)
        ensures
            r.seat() == PlayerId::South,
            r.name_view() == name@,
    {
        RandomPlayer { player_id: PlayerId::South, name, rng: seeded_wy_rng(seed) }
    }
}

impl Player for RandomPlayer {
    fn get_name(&self) -> (r: &str)
        ensures
            r@ == self.name_view(),
    {
        self.name.as_str()
    }

    fn init_game(&mut self, player_id: PlayerId, context: &Context, deck: Vec<Card>)
        ensures
            final(self).seat() == player_id,
            final(self).name_view() == old(self).name_view(),
    {
        self.player_id = player_id;
    }

    fn need_redeal_hands(&mut self, dealed_cards: &[Card]) -> (r: bool)
        ensures
            final(self).seat() == old(self).seat(),
            final(self).name_view() == old(self).name_view(),
    {
        flip_coin(&mut self.rng)
    }

    fn get_action(&mut self, state: &State, hands: &[Card]) -> (r: Action)
        ensures
            spec_is_valid_action(state@, old(self).seat(), r@),
            exists|i: int| 0 <= i < hands@.len() && r@.card() == #[trigger] hands@[i]@,
            final(self).seat() == old(self).seat(),
            final(self).name_view() == old(self).name_view(),
    {
        choose_random_action(state, hands, self.player_id, &mut self.rng)
    }
}

} // verus!
