use vstd::prelude::*;

use rand::distributions::Distribution;
use rand::seq::IteratorRandom;
use rand_distr::{WeightedAliasIndex, WeightedIndex};
use rand_mt::Mt64;
use std::collections::HashMap;

use crate::board::Board;
use crate::card::{Card, CardView};
use crate::game::{Context, DECK_SIZE};
use crate::local::{lemma_map_permutation, played_result, run, views};
use crate::players::Player;

verus! {

broadcast use vstd::seq_lib::group_to_multiset_ensures;

// ---------------------------------------------------------------------------
// Battles
// ---------------------------------------------------------------------------

/// Counts of games from the player's side: (won, lost, drawn).
pub open spec fn spec_record(tally: (u32, u32, u32), p: u32, o: u32) -> (int, int, int) {
    if p > o {
        (tally.0 + 1, tally.1 as int, tally.2 as int)
    } else if p < o {
        (tally.0 as int, tally.1 + 1, tally.2 as int)
    } else {
        (tally.0 as int, tally.1 as int, tally.2 + 1)
    }
}

/// Records a game with scores `p` for the player and `o` for the opponent:
/// a win when `p` is greater, a loss when it is smaller, a draw otherwise.
pub fn record_battle(tally: &mut (u32, u32, u32), p: u32, o: u32)
    requires
        old(tally).0 + old(tally).1 + old(tally).2 < u32::MAX,
    ensures
        (final(tally).0 as int, final(tally).1 as int, final(tally).2 as int) == spec_record(*old(tally), p, o),
{
    if p > o {
        tally.0 = tally.0 + 1;
    } else if p < o {
        tally.1 = tally.1 + 1;
    } else {
        tally.2 = tally.2 + 1;
    }
}

/// The counts of games won, lost and drawn by the player (south) among games
/// that ended with the given scores (south, north).
pub open spec fn tally_of(results: Seq<(u32, u32)>) -> (int, int, int)
    decreases results.len(),
{
    if results.len() == 0 {
        (0, 0, 0)
    } else {
        let t = tally_of(results.drop_last());
        let (p, o) = results.last();
        if p > o {
            (t.0 + 1, t.1, t.2)
        } else if p < o {
            (t.0, t.1 + 1, t.2)
        } else {
            (t.0, t.1, t.2 + 1)
        }
    }
}

/// Whether the counts are those of `count` games on board `b`, each ending
/// with scores of a game played from the decks `pdeck` (the player, south)
/// and `odeck` (the opponent, north).
pub open spec fn possible_tally(
    b: crate::board::BoardView,
    pdeck: Seq<CardView>,
    odeck: Seq<CardView>,
    count: int,
    tally: (u32, u32, u32),
) -> bool {
    exists|results: Seq<(u32, u32)>|
        #![trigger tally_of(results)]
        {
            &&& results.len() == count
            &&& forall|k: int| 0 <= k < results.len() ==> played_result(b, pdeck, odeck, #[trigger] results[k].0, results[k].1)
            &&& tally_of(results) == (tally.0 as int, tally.1 as int, tally.2 as int)
        }
}

/// Plays `battle_count` games between the two players with the given decks
/// and counts the player's wins, losses and draws. The result is `None` when
/// a game could not be played to its end (see `run`); with no game to play it
/// is three zeros.
pub fn run_battles<P: Player, Q: Player>(
    context: &Context,
    board: &Board,
    battle_count: usize,
    player_deck: &[Card],
    opponent_deck: &[Card],
    player: &mut P,
    opponent: &mut Q,
    rng: &mut Mt64,
) -> (r: Option<(u32, u32, u32)>)
    requires
        board.wf(),
        battle_count < u32::MAX,
        player_deck@.len() == DECK_SIZE,
        opponent_deck@.len() == DECK_SIZE,
    ensures
        r matches Some(t) ==> t.0 + t.1 + t.2 == battle_count && possible_tally(board@, views(player_deck@), views(opponent_deck@), battle_count as int, t),
        battle_count == 0 ==> r == Some((0u32, 0u32, 0u32)),
{
    let mut tally: (u32, u32, u32) = (0, 0, 0);
    let ghost mut results: Seq<(u32, u32)> = Seq::empty();
    let mut i: usize = 0;
    while i < battle_count
        invariant
            board.wf(),
            battle_count < u32::MAX,
            player_deck@.len() == DECK_SIZE,
            opponent_deck@.len() == DECK_SIZE,
            0 <= i <= battle_count,
            tally.0 + tally.1 + tally.2 == i,
            results.len() == i,
            forall|k: int| 0 <= k < results.len() ==> played_result(board@, views(player_deck@), views(opponent_deck@), #[trigger] results[k].0, results[k].1),
            tally_of(results) == (tally.0 as int, tally.1 as int, tally.2 as int),
        decreases battle_count - i,
    {
        match run(context, board, player_deck, opponent_deck, player, opponent, rng) {
            Some((p, o)) => {
                record_battle(&mut tally, p, o);
                proof {
                    let before = results;
                    results = results.push((p, o));
                    assert(results.drop_last() =~= before);
                }
            },
            None => {
                return None;
            },
        }
        i += 1;
    }
    Some(tally)
}

/// How a deck did in a generation: its number of wins.
pub struct Report<'b> {
    pub deck: &'b [Card],
    pub win_cnt: u32,
}

impl<'b> Report<'b> {
    /// The weight of the deck when picking parents: its number of wins.
    pub fn get_weight(&self) -> (r: u32)
        ensures
            r == self.win_cnt,
    {
        self.win_cnt
    }
}

/// Plays each deck of the population against `opponent_deck`
/// `battles_per_epoch` times and reports its wins, in the order of the
/// population. The result is `None` when a game could not be played to its
/// end; with no deck or no battle to play there is a report for each deck.
pub fn evaluate_population<'b, P: Player, Q: Player>(
    context: &Context,
    board: &Board,
    battles_per_epoch: usize,
    population: &'b [Vec<Card>],
    opponent_deck: &[Card],
    player: &mut P,
    opponent: &mut Q,
    rng: &mut Mt64,
) -> (r: Option<Vec<Report<'b>>>)
    requires
        board.wf(),
        battles_per_epoch < u32::MAX,
        forall|i: int| 0 <= i < population@.len() ==> (#[trigger] population@[i])@.len() == DECK_SIZE,
        opponent_deck@.len() == DECK_SIZE,
    ensures
        r matches Some(reports) ==> {
            &&& reports@.len() == population@.len()
            &&& forall|i: int|
                0 <= i < reports@.len() ==> (#[trigger] reports@[i]).deck@ == population@[i]@ && exists|l: u32, d: u32|
                    #[trigger] possible_tally(board@, views(population@[i]@), views(opponent_deck@), battles_per_epoch as int, (reports@[i].win_cnt, l, d))
        },
        (battles_per_epoch == 0 || population@.len() == 0) ==> r is Some,
{
    let mut reports: Vec<Report<'b>> = Vec::new();
    let ghost mut others: Seq<(u32, u32)> = Seq::empty();
    let mut i: usize = 0;
    while i < population.len()
        invariant
            board.wf(),
            battles_per_epoch < u32::MAX,
            forall|i: int| 0 <= i < population@.len() ==> (#[trigger] population@[i])@.len() == DECK_SIZE,
            opponent_deck@.len() == DECK_SIZE,
            0 <= i <= population@.len(),
            reports@.len() == i,
            others.len() == i,
            forall|k: int|
                0 <= k < i ==> (#[trigger] reports@[k]).deck@ == population@[k]@ && possible_tally(
                    board@,
                    views(population@[k]@),
                    views(opponent_deck@),
                    battles_per_epoch as int,
                    (reports@[k].win_cnt, others[k].0, others[k].1),
                ),
        decreases population@.len() - i,
    {
        let deck: &'b [Card] = population[i].as_slice();
        assert(deck@.len() == DECK_SIZE);
        match run_battles(context, board, battles_per_epoch, deck, opponent_deck, player, opponent, rng) {
            Some((win, lose, draw)) => {
                let ghost before = reports@;
                reports.push(Report { deck, win_cnt: win });
                proof {
                    let old_others = others;
                    others = others.push((lose, draw));
                    assert forall|k: int| 0 <= k < i + 1 implies (#[trigger] reports@[k]).deck@ == population@[k]@
                        && possible_tally(
                        board@,
                        views(population@[k]@),
                        views(opponent_deck@),
                        battles_per_epoch as int,
                        (reports@[k].win_cnt, others[k].0, others[k].1),
                    ) by {
                        if k < i {
                            assert(reports@[k] == before[k]);
                            assert(others[k] == old_others[k]);
                        }
                    }
                }
            },
            None => {
                return None;
            },
        }
        i += 1;
    }
    assert forall|k: int| 0 <= k < reports@.len() implies (#[trigger] reports@[k]).deck@ == population@[k]@ && exists|
        l: u32,
        d: u32,
    | #[trigger] possible_tally(board@, views(population@[k]@), views(opponent_deck@), battles_per_epoch as int, (reports@[k].win_cnt, l, d)) by {
        assert(possible_tally(board@, views(population@[k]@), views(opponent_deck@), battles_per_epoch as int, (reports@[k].win_cnt, others[k].0, others[k].1)));
    }
    Some(reports)
}

// ---------------------------------------------------------------------------
// Decks
// ---------------------------------------------------------------------------

/// Whether the cards are in order of id.
pub open spec fn sorted_by_id(cards: Seq<CardView>) -> bool {
    forall|i: int, j: int| 0 <= i < j < cards.len() ==> #[trigger] cards[i].id <= #[trigger] cards[j].id
}

/// Sorts cards by id. The cards stay the same ones.
pub fn sort_by_id(cards: &mut Vec<Card>)
    ensures
        sorted_by_id(views(final(cards)@)),
        final(cards)@.to_multiset() == old(cards)@.to_multiset(),
{
    let n = cards.len();
    let mut i: usize = 1;
    if n == 0 {
        return;
    }
    while i < n
        invariant
            n == cards@.len(),
            n > 0,
            1 <= i <= n,
            sorted_by_id(views(cards@.take(i as int))),
            cards@.to_multiset() == old(cards)@.to_multiset(),
        decreases n - i,
    {
        let mut j: usize = i;
        proof {
            assert forall|a: int, b: int| 0 <= a < b <= i && a != j && b != j implies #[trigger] cards@[a]@.id
                <= #[trigger] cards@[b]@.id by {
                assert(views(cards@.take(i as int))[a] == cards@[a]@);
                assert(views(cards@.take(i as int))[b] == cards@[b]@);
            }
        }
        while j > 0 && cards[j - 1].get_id() > cards[j].get_id()
            invariant
                n == cards@.len(),
                1 <= i < n,
                0 <= j <= i,
                cards@.to_multiset() == old(cards)@.to_multiset(),
                // the first i + 1 cards without position j are sorted
                forall|a: int, b: int|
                    0 <= a < b <= i && a != j && b != j ==> #[trigger] cards@[a]@.id <= #[trigger] cards@[b]@.id,
                // the card at j is smaller than all after it, up to i
                forall|b: int| j < b <= i ==> cards@[j as int]@.id < #[trigger] cards@[b]@.id,
            decreases j,
        {
            let ghost before = cards@;
            let upper = cards.remove(j);
            cards.insert(j - 1, upper);
            proof {
                assert(cards@ =~= before.update(j - 1, before[j as int]).update(j as int, before[j - 1]));
                assert(cards@.to_multiset() =~= before.to_multiset()) by {
                    lemma_swap_multiset(before, j - 1, j as int);
                }
            }
            j -= 1;
        }
        proof {
            assert forall|a: int, b: int| 0 <= a < b < i + 1 implies #[trigger] views(cards@.take(i + 1))[a].id
                <= #[trigger] views(cards@.take(i + 1))[b].id by {
                assert(views(cards@.take(i + 1))[a] == cards@[a]@);
                assert(views(cards@.take(i + 1))[b] == cards@[b]@);
                if a == j as int {
                } else if b == j as int {
                    if j > 0 {
                        assert(cards@[j - 1]@.id <= cards@[j as int]@.id);
                        assert(cards@[a]@.id <= cards@[j - 1]@.id || a == j - 1);
                    }
                } else {
                }
            }
        }
        i += 1;
    }
    assert(cards@.take(n as int) =~= cards@);
}

/// Swapping two items keeps the multiset.
proof fn lemma_swap_multiset<A>(s: Seq<A>, i: int, j: int)
    requires
        0 <= i < j < s.len(),
    ensures
        s.update(i, s[j]).update(j, s[i]).to_multiset() == s.to_multiset(),
{
    broadcast use vstd::multiset::group_multiset_axioms;

    let t = s.update(i, s[j]);
    let u = t.update(j, s[i]);
    assert(t.to_multiset() == s.to_multiset().insert(s[j]).remove(s[i]));
    assert(t[j] == s[j]);
    assert(u.to_multiset() == t.to_multiset().insert(s[i]).remove(s[j]));
    assert(u.to_multiset() =~= s.to_multiset());
}


// ---------------------------------------------------------------------------
// Crossover
// ---------------------------------------------------------------------------

/// The sum of a list of weights.
pub open spec fn seq_sum(s: Seq<u32>) -> int
    decreases s.len(),
{
    if s.len() == 0 {
        0
    } else {
        seq_sum(s.drop_last()) + s.last()
    }
}

/// `WeightedIndex::new` then `Distribution::sample` of `rand` (as
/// `rand_distr` exports it) with a Mersenne Twister: an index picked with
/// probability proportional to its weight, so never one of weight zero.
#[verifier::external_body]
fn sample_weighted(weights: &Vec<u32>, rng: &mut Mt64) -> (r: usize)
    requires
        0 < seq_sum(weights@) <= u32::MAX,
    ensures
        r < weights@.len(),
        weights@[r as int] > 0,
{
    WeightedIndex::new(weights.iter()).unwrap().sample(rng)
}

/// The index of the entry with key `id`, or the length when there is none.
pub open spec fn key_index(ws: Seq<(u32, int)>, id: u32) -> int
    decreases ws.len(),
{
    if ws.len() == 0 {
        0
    } else if ws[0].0 == id {
        0
    } else {
        1 + key_index(ws.drop_first(), id)
    }
}

/// The weights after setting the weight of `id` to `w`.
pub open spec fn set_weight(ws: Seq<(u32, int)>, id: u32, w: int) -> Seq<(u32, int)> {
    if key_index(ws, id) < ws.len() {
        ws.update(key_index(ws, id), (id, w))
    } else {
        ws.push((id, w))
    }
}

/// The weights after adding `w` to the weight of `id`.
pub open spec fn add_weight(ws: Seq<(u32, int)>, id: u32, w: int) -> Seq<(u32, int)> {
    if key_index(ws, id) < ws.len() {
        ws.update(key_index(ws, id), (id, ws[key_index(ws, id)].1 + w))
    } else {
        ws.push((id, w))
    }
}

/// The weights given by the cards of the first parent: each weighs `wa`.
pub open spec fn first_parent_weights(a: Seq<u32>, wa: int) -> Seq<(u32, int)>
    decreases a.len(),
{
    if a.len() == 0 {
        Seq::empty()
    } else {
        set_weight(first_parent_weights(a.drop_last(), wa), a.last(), wa)
    }
}

/// The weights of the cards of two parents, in the order the cards are first
/// seen: each card of the first parent weighs `wa`, and each card of the
/// second adds `wb`.
pub open spec fn parent_weights(a: Seq<u32>, wa: int, b: Seq<u32>, wb: int) -> Seq<(u32, int)>
    decreases b.len(),
{
    if b.len() == 0 {
        first_parent_weights(a, wa)
    } else {
        add_weight(parent_weights(a, wa, b.drop_last(), wb), b.last(), wb)
    }
}

/// The sum of the weights of entries.
pub open spec fn entries_sum(ws: Seq<(u32, int)>) -> int
    decreases ws.len(),
{
    if ws.len() == 0 {
        0
    } else {
        entries_sum(ws.drop_last()) + ws.last().1
    }
}

/// How many entries have a positive weight.
pub open spec fn positive_count(ws: Seq<(u32, int)>) -> int
    decreases ws.len(),
{
    if ws.len() == 0 {
        0
    } else {
        positive_count(ws.drop_last()) + if ws.last().1 > 0 { 1int } else { 0 }
    }
}

/// Whether no key occurs twice.
pub open spec fn keys_distinct(ws: Seq<(u32, int)>) -> bool {
    forall|i: int, j: int| 0 <= i < j < ws.len() ==> #[trigger] ws[i].0 != #[trigger] ws[j].0
}

proof fn lemma_key_index(ws: Seq<(u32, int)>, id: u32)
    ensures
        0 <= key_index(ws, id) <= ws.len(),
        key_index(ws, id) < ws.len() ==> ws[key_index(ws, id)].0 == id,
        key_index(ws, id) == ws.len() ==> forall|k: int| 0 <= k < ws.len() ==> #[trigger] ws[k].0 != id,
    decreases ws.len(),
{
    if ws.len() > 0 && ws[0].0 != id {
        lemma_key_index(ws.drop_first(), id);
        if key_index(ws, id) == ws.len() {
            assert forall|k: int| 0 <= k < ws.len() implies #[trigger] ws[k].0 != id by {
                if k > 0 {
                    assert(ws[k] == ws.drop_first()[k - 1]);
                }
            }
        }
    }
}

/// Sum and count of positive entries after replacing one entry's weight.
proof fn lemma_update_sum(ws: Seq<(u32, int)>, i: int, e: (u32, int))
    requires
        0 <= i < ws.len(),
    ensures
        entries_sum(ws.update(i, e)) == entries_sum(ws) - ws[i].1 + e.1,
        positive_count(ws.update(i, e)) == positive_count(ws) - (if ws[i].1 > 0 { 1int } else { 0 }) + (if e.1 > 0 {
            1int
        } else {
            0
        }),
    decreases ws.len(),
{
    if i < ws.len() - 1 {
        assert(ws.update(i, e).drop_last() =~= ws.drop_last().update(i, e));
        lemma_update_sum(ws.drop_last(), i, e);
    } else {
        assert(ws.update(i, e).drop_last() =~= ws.drop_last());
    }
}

/// Sum and count of positive entries after removing one entry.
proof fn lemma_remove_sum(ws: Seq<(u32, int)>, i: int)
    requires
        0 <= i < ws.len(),
    ensures
        entries_sum(ws.remove(i)) == entries_sum(ws) - ws[i].1,
        positive_count(ws.remove(i)) == positive_count(ws) - (if ws[i].1 > 0 { 1int } else { 0 }),
    decreases ws.len(),
{
    if i < ws.len() - 1 {
        assert(ws.remove(i).drop_last() =~= ws.drop_last().remove(i));
        assert(ws.remove(i).last() == ws.last());
        lemma_remove_sum(ws.drop_last(), i);
    } else {
        assert(ws.remove(i) =~= ws.drop_last());
    }
}

/// With non-negative weights, some positive weight makes a positive sum.
proof fn lemma_positive_sum(ws: Seq<(u32, int)>)
    requires
        forall|k: int| 0 <= k < ws.len() ==> #[trigger] ws[k].1 >= 0,
    ensures
        entries_sum(ws) >= 0,
        positive_count(ws) > 0 ==> entries_sum(ws) > 0,
        positive_count(ws) <= ws.len(),
    decreases ws.len(),
{
    if ws.len() > 0 {
        assert forall|k: int| 0 <= k < ws.drop_last().len() implies #[trigger] ws.drop_last()[k].1 >= 0 by {
            assert(ws.drop_last()[k] == ws[k]);
        }
        lemma_positive_sum(ws.drop_last());
        assert(ws.last().1 >= 0);
    }
}

/// The entries of weights with their weights as integers.
pub open spec fn weights_view(v: Seq<(u32, u64)>) -> Seq<(u32, int)> {
    v.map_values(|e: (u32, u64)| (e.0, e.1 as int))
}

/// The ids of a list of cards, as given.
pub open spec fn card_ids(cards: Seq<Card>) -> Seq<u32> {
    cards.map_values(|c: Card| c@.id)
}

/// The index of the entry with key `id`, or the length.
fn find_key(ws: &Vec<(u32, u64)>, id: u32) -> (r: usize)
    ensures
        r == key_index(weights_view(ws@), id),
{
    proof {
        lemma_key_index(weights_view(ws@), id);
    }
    let mut i: usize = 0;
    while i < ws.len()
        invariant
            0 <= i <= ws@.len(),
            forall|k: int| 0 <= k < i ==> #[trigger] ws@[k].0 != id,
            key_index(weights_view(ws@), id) >= i,
            key_index(weights_view(ws@), id) <= ws@.len(),
            key_index(weights_view(ws@), id) < ws@.len() ==> weights_view(ws@)[key_index(weights_view(ws@), id)].0 == id,
        decreases ws@.len() - i,
    {
        if ws[i].0 == id {
            assert(weights_view(ws@)[i as int].0 == id);
            assert(key_index(weights_view(ws@), id) == i) by {
                lemma_key_index_first(weights_view(ws@), id, i as int);
            }
            return i;
        }
        assert(weights_view(ws@)[i as int].0 != id);
        i += 1;
    }
    assert(key_index(weights_view(ws@), id) == ws@.len());
    i
}

/// The key index is the first index with the key.
proof fn lemma_key_index_first(ws: Seq<(u32, int)>, id: u32, i: int)
    requires
        0 <= i < ws.len(),
        ws[i].0 == id,
        forall|k: int| 0 <= k < i ==> #[trigger] ws[k].0 != id,
    ensures
        key_index(ws, id) == i,
    decreases i,
{
    if i > 0 {
        assert forall|k: int| 0 <= k < i - 1 implies #[trigger] ws.drop_first()[k].0 != id by {
            assert(ws.drop_first()[k] == ws[k + 1]);
        }
        lemma_key_index_first(ws.drop_first(), id, i - 1);
    }
}

/// The weights of the cards of two parents (see `parent_weights`), listed
/// with 64-bit weights.
fn build_weights(a: &[Card], wa: u32, b: &[Card], wb: u32) -> (r: Vec<(u32, u64)>)
    requires
        b@.len() <= u32::MAX,
    ensures
        weights_view(r@) == parent_weights(card_ids(a@), wa as int, card_ids(b@), wb as int),
        forall|k: int| 0 <= k < r@.len() ==> #[trigger] r@[k].1 <= wa + b@.len() * wb,
{
    let mut ws: Vec<(u32, u64)> = Vec::new();
    let mut i: usize = 0;
    while i < a.len()
        invariant
            0 <= i <= a@.len(),
            weights_view(ws@) == first_parent_weights(card_ids(a@).take(i as int), wa as int),
            forall|k: int| 0 <= k < ws@.len() ==> #[trigger] ws@[k].1 == wa,
        decreases a@.len() - i,
    {
        let id = a[i].get_id();
        let ghost before = ws@;
        let k = find_key(&ws, id);
        proof {
            lemma_key_index(weights_view(before), id);
        }
        if k < ws.len() {
            ws.set(k, (id, wa as u64));
            assert(weights_view(ws@) =~= set_weight(weights_view(before), id, wa as int));
        } else {
            ws.push((id, wa as u64));
            assert(weights_view(ws@) =~= set_weight(weights_view(before), id, wa as int));
        }
        assert(card_ids(a@).take(i + 1).drop_last() =~= card_ids(a@).take(i as int));
        assert(card_ids(a@).take(i + 1).last() == id);
        i += 1;
    }
    assert(card_ids(a@).take(a@.len() as int) =~= card_ids(a@));
    let mut j: usize = 0;
    while j < b.len()
        invariant
            b@.len() <= u32::MAX,
            0 <= j <= b@.len(),
            weights_view(ws@) == parent_weights(card_ids(a@), wa as int, card_ids(b@).take(j as int), wb as int),
            forall|k: int| 0 <= k < ws@.len() ==> #[trigger] ws@[k].1 <= wa + j * wb,
        decreases b@.len() - j,
    {
        let id = b[j].get_id();
        let ghost before = ws@;
        let k = find_key(&ws, id);
        proof {
            lemma_key_index(weights_view(before), id);
            assert(wa + j * wb + wb <= u32::MAX + u32::MAX * u32::MAX) by (nonlinear_arith)
                requires
                    j < b@.len(),
                    b@.len() <= u32::MAX,
                    wa <= u32::MAX,
                    wb <= u32::MAX,
            ;
        }
        if k < ws.len() {
            let old_w = ws[k].1;
            ws.set(k, (id, old_w + wb as u64));
            assert(weights_view(ws@) =~= add_weight(weights_view(before), id, wb as int));
        } else {
            ws.push((id, wb as u64));
            assert(weights_view(ws@) =~= add_weight(weights_view(before), id, wb as int));
        }
        assert((j + 1) * wb == j * wb + wb) by (nonlinear_arith);
        assert forall|m: int| 0 <= m < ws@.len() implies #[trigger] ws@[m].1 <= wa + (j + 1) * wb by {
            if m < before.len() && m != k as int {
                assert(ws@[m] == before[m]);
            } else if m < before.len() {
                assert(ws@[m].1 == before[m].1 + wb);
            }
        }
        assert(card_ids(b@).take(j + 1).drop_last() =~= card_ids(b@).take(j as int));
        assert(card_ids(b@).take(j + 1).last() == id);
        j += 1;
    }
    assert(card_ids(b@).take(b@.len() as int) =~= card_ids(b@));
    ws
}

/// Whether some entry of the weights has key `id`.
pub open spec fn has_key(ws: Seq<(u32, int)>, id: u32) -> bool {
    exists|k: int| 0 <= k < ws.len() && ws[k].0 == id
}

/// The weights of the cards of the first parent: one entry per card id of
/// `a`, each weighing `wa`.
proof fn lemma_first_weights_law(a: Seq<u32>, wa: int)
    ensures
        keys_distinct(first_parent_weights(a, wa)),
        forall|id: u32| #[trigger] has_key(first_parent_weights(a, wa), id) <==> a.contains(id),
        forall|k: int| 0 <= k < first_parent_weights(a, wa).len() ==> #[trigger] first_parent_weights(a, wa)[k].1 == wa,
    decreases a.len(),
{
    lemma_first_weights_distinct(a, wa);
    if a.len() > 0 {
        let a0 = a.drop_last();
        let id0 = a.last();
        let ws = first_parent_weights(a0, wa);
        let nw = first_parent_weights(a, wa);
        lemma_first_weights_law(a0, wa);
        lemma_key_index(ws, id0);
        assert(a0.push(id0) =~= a);
        assert forall|id: u32| #[trigger] has_key(nw, id) <==> a.contains(id) by {
            if has_key(nw, id) {
                let k = choose|k: int| 0 <= k < nw.len() && nw[k].0 == id;
                if id != id0 {
                    assert(ws[k].0 == id);
                    assert(has_key(ws, id));
                    let j = choose|j: int| 0 <= j < a0.len() && a0[j] == id;
                    assert(a[j] == id);
                } else {
                    assert(a[a.len() - 1] == id);
                }
            }
            if a.contains(id) {
                let j = choose|j: int| 0 <= j < a.len() && a[j] == id;
                if id == id0 {
                    let k = key_index(ws, id0);
                    assert(nw[k].0 == id);
                } else {
                    assert(a0[j] == id);
                    assert(a0.contains(id));
                    assert(has_key(ws, id));
                    let k = choose|k: int| 0 <= k < ws.len() && ws[k].0 == id;
                    assert(nw[k].0 == id);
                }
            }
        }
    }
}

/// The crossover weights of two parents with card ids `a` and `b` and wins
/// `wa` and `wb`: one entry per id of either parent, and the weight of an
/// id is `wa` if the first parent holds it, plus `wb` for each time the
/// second parent holds it; so a card of both parents weighs `wa + wb`.
pub proof fn lemma_crossover_weights(a: Seq<u32>, wa: int, b: Seq<u32>, wb: int)
    ensures
        keys_distinct(parent_weights(a, wa, b, wb)),
        forall|id: u32| #[trigger] has_key(parent_weights(a, wa, b, wb), id) <==> (a.contains(id) || b.contains(id)),
        forall|k: int|
            0 <= k < parent_weights(a, wa, b, wb).len() ==> #[trigger] parent_weights(a, wa, b, wb)[k].1 == (if a.contains(
                parent_weights(a, wa, b, wb)[k].0,
            ) {
                wa
            } else {
                0
            }) + wb * b.to_multiset().count(parent_weights(a, wa, b, wb)[k].0),
    decreases b.len(),
{
    broadcast use vstd::seq_lib::group_to_multiset_ensures;

    lemma_weights_distinct(a, wa, b, wb);
    if b.len() == 0 {
        lemma_first_weights_law(a, wa);
        let ws = first_parent_weights(a, wa);
        assert(b.to_multiset() =~= vstd::multiset::Multiset::empty());
        assert forall|id: u32| #[trigger] has_key(ws, id) <==> (a.contains(id) || b.contains(id)) by {
            assert(has_key(ws, id) <==> a.contains(id));
        }
        assert forall|k: int| 0 <= k < ws.len() implies #[trigger] ws[k].1 == (if a.contains(ws[k].0) {
            wa
        } else {
            0
        }) + wb * b.to_multiset().count(ws[k].0) by {
            assert(has_key(ws, ws[k].0));
            assert(wb * 0 == 0);
        }
    } else {
        let b0 = b.drop_last();
        let id0 = b.last();
        let ws = parent_weights(a, wa, b0, wb);
        let nw = parent_weights(a, wa, b, wb);
        lemma_crossover_weights(a, wa, b0, wb);
        lemma_key_index(ws, id0);
        assert(b0.push(id0) =~= b);
        assert(b.to_multiset() =~= b0.to_multiset().insert(id0));
        assert forall|id: u32| #[trigger] has_key(nw, id) <==> (a.contains(id) || b.contains(id)) by {
            if has_key(nw, id) {
                let k = choose|k: int| 0 <= k < nw.len() && nw[k].0 == id;
                if id != id0 {
                    assert(ws[k].0 == id);
                    assert(has_key(ws, id));
                    if b0.contains(id) {
                        let j = choose|j: int| 0 <= j < b0.len() && b0[j] == id;
                        assert(b[j] == id);
                    }
                } else {
                    assert(b[b.len() - 1] == id);
                }
            }
            if a.contains(id) || b.contains(id) {
                if id == id0 {
                    let k = key_index(ws, id0);
                    assert(nw[k].0 == id);
                } else {
                    if b.contains(id) {
                        let j = choose|j: int| 0 <= j < b.len() && b[j] == id;
                        assert(b0[j] == id);
                        assert(b0.contains(id));
                    }
                    assert(has_key(ws, id));
                    let k = choose|k: int| 0 <= k < ws.len() && ws[k].0 == id;
                    assert(nw[k].0 == id);
                }
            }
        }
        assert forall|k: int| 0 <= k < nw.len() implies #[trigger] nw[k].1 == (if a.contains(nw[k].0) {
            wa
        } else {
            0
        }) + wb * b.to_multiset().count(nw[k].0) by {
            let id = nw[k].0;
            let n0 = b0.to_multiset().count(id);
            if id == id0 {
                assert(b.to_multiset().count(id) == n0 + 1);
                assert(wb * (n0 + 1) == wb * n0 + wb) by (nonlinear_arith);
                if key_index(ws, id0) < ws.len() {
                    let j = key_index(ws, id0);
                    if k != j {
                        assert(nw[k] == ws[k]);
                        assert(false);
                    }
                    assert(ws[j].0 == id);
                } else {
                    assert(k == ws.len());
                    assert(!has_key(ws, id)) by {
                        if has_key(ws, id) {
                            let m = choose|m: int| 0 <= m < ws.len() && ws[m].0 == id;
                            assert(ws[m].0 != id0);
                        }
                    }
                    assert(!a.contains(id));
                    assert(!b0.contains(id));
                    assert(n0 == 0);
                }
            } else {
                assert(b.to_multiset().count(id) == n0);
                assert(nw[k] == ws[k]);
            }
        }
    }
}

/// Setting or adding a weight keeps the keys distinct.
proof fn lemma_weights_distinct(a: Seq<u32>, wa: int, b: Seq<u32>, wb: int)
    ensures
        keys_distinct(parent_weights(a, wa, b, wb)),
        forall|k: int| 0 <= k < parent_weights(a, wa, b, wb).len() ==> #[trigger] parent_weights(a, wa, b, wb)[k].1
            >= 0 || wa < 0 || wb < 0,
    decreases b.len(),
{
    if b.len() == 0 {
        lemma_first_weights_distinct(a, wa);
    } else {
        lemma_weights_distinct(a, wa, b.drop_last(), wb);
        let ws = parent_weights(a, wa, b.drop_last(), wb);
        lemma_key_index(ws, b.last());
    }
}

proof fn lemma_first_weights_distinct(a: Seq<u32>, wa: int)
    ensures
        keys_distinct(first_parent_weights(a, wa)),
        forall|k: int| 0 <= k < first_parent_weights(a, wa).len() ==> #[trigger] first_parent_weights(a, wa)[k].1 == wa,
    decreases a.len(),
{
    if a.len() > 0 {
        lemma_first_weights_distinct(a.drop_last(), wa);
        lemma_key_index(first_parent_weights(a.drop_last(), wa), a.last());
    }
}

/// The sum of a prefix of non-negative weights is at most the whole sum.
proof fn lemma_prefix_sum(ws: Seq<(u32, int)>, i: int)
    requires
        0 <= i <= ws.len(),
        forall|k: int| 0 <= k < ws.len() ==> #[trigger] ws[k].1 >= 0,
    ensures
        entries_sum(ws.take(i)) <= entries_sum(ws),
    decreases ws.len() - i,
{
    if i < ws.len() {
        lemma_prefix_sum(ws, i + 1);
        assert(ws.take(i + 1).drop_last() =~= ws.take(i));
    } else {
        assert(ws.take(i) =~= ws);
    }
}

/// Whether some weight with key `key` is positive.
pub open spec fn weighted_pick(ws: Seq<(u32, int)>, key: u32) -> bool {
    exists|k: int| 0 <= k < ws.len() && #[trigger] ws[k].0 == key && ws[k].1 > 0
}

/// The entries with their weights as integers.
pub open spec fn entries_view(v: Seq<(u32, u32)>) -> Seq<(u32, int)> {
    v.map_values(|e: (u32, u32)| (e.0, e.1 as int))
}

/// Whether an entry is one of the weights.
pub open spec fn weighted_entry(ws: Seq<(u32, int)>, e: (u32, int)) -> bool {
    exists|k: int| 0 <= k < ws.len() && #[trigger] ws[k] == e
}

/// A non-negative weight is at most the sum.
proof fn lemma_entry_le_sum(ws: Seq<(u32, int)>, i: int)
    requires
        0 <= i < ws.len(),
        forall|k: int| 0 <= k < ws.len() ==> #[trigger] ws[k].1 >= 0,
    ensures
        ws[i].1 <= entries_sum(ws),
    decreases ws.len(),
{
    assert forall|k: int| 0 <= k < ws.drop_last().len() implies #[trigger] ws.drop_last()[k].1 >= 0 by {
        assert(ws.drop_last()[k] == ws[k]);
    }
    lemma_positive_sum(ws.drop_last());
    if i < ws.len() - 1 {
        lemma_entry_le_sum(ws.drop_last(), i);
        assert(ws.drop_last()[i] == ws[i]);
        assert(ws.last().1 >= 0);
    }
}

/// The total weight, when it fits in `u32`.
fn weights_total(weights: &Vec<(u32, u64)>) -> (r: Option<u32>)
    requires
        forall|k: int| 0 <= k < weights@.len() ==> #[trigger] weights@[k].1 <= u32::MAX + u32::MAX * u32::MAX,
    ensures
        r matches Some(t) ==> t == entries_sum(weights_view(weights@)),
        r is None <==> entries_sum(weights_view(weights@)) > u32::MAX,
{
    let ghost ws = weights_view(weights@);
    assert forall|k: int| 0 <= k < ws.len() implies #[trigger] ws[k].1 >= 0 by {
        assert(ws[k].1 == weights@[k].1);
    }
    let mut total: u64 = 0;
    let mut i: usize = 0;
    while i < weights.len()
        invariant
            ws == weights_view(weights@),
            forall|k: int| 0 <= k < weights@.len() ==> #[trigger] weights@[k].1 <= u32::MAX + u32::MAX * u32::MAX,
            forall|k: int| 0 <= k < ws.len() ==> #[trigger] ws[k].1 >= 0,
            0 <= i <= weights@.len(),
            total == entries_sum(ws.take(i as int)),
            total <= u32::MAX,
        decreases weights@.len() - i,
    {
        assert(ws.take(i + 1).drop_last() =~= ws.take(i as int));
        assert(ws.take(i + 1).last() == ws[i as int]);
        assert(ws[i as int].1 == weights@[i as int].1);
        total = total + weights[i].1;
        if total > 0xffff_ffff {
            proof {
                lemma_prefix_sum(ws, i + 1);
            }
            return None;
        }
        i += 1;
    }
    assert(ws.take(ws.len() as int) =~= ws);
    Some(total as u32)
}

/// How many weights are positive.
fn count_positive(weights: &Vec<(u32, u64)>) -> (r: usize)
    ensures
        r == positive_count(weights_view(weights@)),
{
    let ghost ws = weights_view(weights@);
    let mut positives: usize = 0;
    let mut i: usize = 0;
    while i < weights.len()
        invariant
            ws == weights_view(weights@),
            0 <= i <= weights@.len(),
            positives == positive_count(ws.take(i as int)),
            positives <= i,
        decreases weights@.len() - i,
    {
        assert(ws.take(i + 1).drop_last() =~= ws.take(i as int));
        assert(ws.take(i + 1).last() == ws[i as int]);
        if weights[i].1 > 0 {
            positives += 1;
        }
        i += 1;
    }
    assert(ws.take(ws.len() as int) =~= ws);
    positives
}

/// The weights with 32-bit weights, once their sum is known to fit.
fn narrow_weights(weights: &Vec<(u32, u64)>) -> (r: Vec<(u32, u32)>)
    requires
        entries_sum(weights_view(weights@)) <= u32::MAX,
    ensures
        entries_view(r@) == weights_view(weights@),
{
    let ghost ws = weights_view(weights@);
    assert forall|k: int| 0 <= k < ws.len() implies #[trigger] ws[k].1 >= 0 by {
        assert(ws[k].1 == weights@[k].1);
    }
    let mut entries: Vec<(u32, u32)> = Vec::new();
    let mut i: usize = 0;
    while i < weights.len()
        invariant
            ws == weights_view(weights@),
            entries_sum(ws) <= u32::MAX,
            forall|k: int| 0 <= k < ws.len() ==> #[trigger] ws[k].1 >= 0,
            0 <= i <= weights@.len(),
            entries_view(entries@) == ws.take(i as int),
        decreases weights@.len() - i,
    {
        proof {
            lemma_entry_le_sum(ws, i as int);
        }
        let (id, w) = weights[i];
        assert(ws[i as int] == (id, w as int));
        assert(w <= u32::MAX);
        let ghost before = entries@;
        entries.push((id, w as u32));
        assert(entries_view(entries@) =~= entries_view(before).push((id, w as int)));
        assert(ws.take(i + 1) =~= ws.take(i as int).push(ws[i as int]));
        assert(entries_view(entries@) =~= ws.take(i + 1));
        i += 1;
    }
    assert(ws.take(ws.len() as int) =~= ws);
    entries
}

/// The weights of the entries, in order.
fn entry_weights(entries: &Vec<(u32, u32)>) -> (r: Vec<u32>)
    ensures
        seq_sum(r@) == entries_sum(entries_view(entries@)),
        r@.len() == entries@.len(),
        forall|k: int| 0 <= k < r@.len() ==> #[trigger] r@[k] == entries@[k].1,
{
    let ghost ev = entries_view(entries@);
    let mut current: Vec<u32> = Vec::new();
    let mut k: usize = 0;
    while k < entries.len()
        invariant
            ev == entries_view(entries@),
            0 <= k <= entries@.len(),
            current@.len() == k,
            forall|m: int| 0 <= m < k ==> #[trigger] current@[m] == entries@[m].1,
            seq_sum(current@) == entries_sum(ev.take(k as int)),
        decreases entries@.len() - k,
    {
        let ghost before = current@;
        assert(ev.take(k + 1).drop_last() =~= ev.take(k as int));
        assert(ev.take(k + 1).last() == ev[k as int]);
        current.push(entries[k].1);
        assert(current@.drop_last() =~= before);
        k += 1;
    }
    assert(ev.take(ev.len() as int) =~= ev);
    current
}

/// The entries left after one is drawn keep what the drawing needs: distinct
/// keys taken from the weights, a sum that fits, one fewer positive weight,
/// and none with the drawn key.
proof fn lemma_draw_step(ws: Seq<(u32, int)>, ev: Seq<(u32, int)>, index: int)
    requires
        0 <= index < ev.len(),
        ev[index].1 > 0,
        keys_distinct(ev),
        forall|k: int| 0 <= k < ev.len() ==> weighted_entry(ws, #[trigger] ev[k]),
        forall|k: int| 0 <= k < ev.len() ==> #[trigger] ev[k].1 >= 0,
    ensures
        keys_distinct(ev.remove(index)),
        forall|k: int| 0 <= k < ev.remove(index).len() ==> weighted_entry(ws, #[trigger] ev.remove(index)[k]),
        forall|k: int| 0 <= k < ev.remove(index).len() ==> #[trigger] ev.remove(index)[k].1 >= 0,
        forall|k: int| 0 <= k < ev.remove(index).len() ==> #[trigger] ev.remove(index)[k].0 != ev[index].0,
        forall|k: int| 0 <= k < ev.remove(index).len() ==> exists|m: int| 0 <= m < ev.len() && #[trigger] ev.remove(index)[k] == ev[m],
        entries_sum(ev.remove(index)) == entries_sum(ev) - ev[index].1,
        positive_count(ev.remove(index)) == positive_count(ev) - 1,
        weighted_pick(ws, ev[index].0),
{
    lemma_remove_sum(ev, index);
    let rest = ev.remove(index);
    assert forall|k: int| 0 <= k < rest.len() implies exists|m: int| 0 <= m < ev.len() && #[trigger] rest[k] == ev[m] by {
        if k < index {
            assert(rest[k] == ev[k]);
        } else {
            assert(rest[k] == ev[k + 1]);
        }
    }
    assert forall|i: int, j: int| 0 <= i < j < rest.len() implies #[trigger] rest[i].0 != #[trigger] rest[j].0 by {
        let ii = if i < index { i } else { i + 1 };
        let jj = if j < index { j } else { j + 1 };
        assert(rest[i] == ev[ii]);
        assert(rest[j] == ev[jj]);
    }
    assert forall|k: int| 0 <= k < rest.len() implies #[trigger] rest[k].0 != ev[index].0 by {
        let kk = if k < index { k } else { k + 1 };
        assert(rest[k] == ev[kk]);
    }
    assert forall|k: int| 0 <= k < rest.len() implies weighted_entry(ws, #[trigger] rest[k]) by {
        let kk = if k < index { k } else { k + 1 };
        assert(rest[k] == ev[kk]);
    }
    assert forall|k: int| 0 <= k < rest.len() implies #[trigger] rest[k].1 >= 0 by {
        let kk = if k < index { k } else { k + 1 };
        assert(rest[k] == ev[kk]);
    }
    assert(weighted_entry(ws, ev[index]));
    let m = choose|m: int| 0 <= m < ws.len() && #[trigger] ws[m] == ev[index];
    assert(ws[m].0 == ev[index].0 && ws[m].1 > 0);
}

/// Draws `DECK_SIZE` cards from the entries, one at a time and without
/// replacement, each with probability proportional to its weight.
fn draw_cards(inventory: &HashMap<u32, Card>, entries: &mut Vec<(u32, u32)>, rng: &mut Mt64, ws: Ghost<Seq<(u32, int)>>) -> (r:
    Vec<Card>)
    requires
        keys_distinct(entries_view(old(entries)@)),
        forall|k: int| 0 <= k < old(entries)@.len() ==> weighted_entry(ws@, #[trigger] entries_view(old(entries)@)[k]),
        forall|k: int| 0 <= k < old(entries)@.len() ==> #[trigger] entries_view(old(entries)@)[k].1 >= 0,
        entries_sum(entries_view(old(entries)@)) <= u32::MAX,
        positive_count(entries_view(old(entries)@)) >= DECK_SIZE,
        forall|k: int| 0 <= k < ws@.len() ==> inventory@.contains_key(#[trigger] ws@[k].0),
    ensures
        r@.len() == DECK_SIZE,
        exists|keys: Seq<u32>|
            #![trigger keys.len()]
            {
                &&& keys.len() == DECK_SIZE
                &&& forall|i: int, j: int| 0 <= i < j < keys.len() ==> keys[i] != keys[j]
                &&& forall|i: int|
                    0 <= i < keys.len() ==> weighted_pick(ws@, #[trigger] keys[i]) && r@[i]@ == inventory@[keys[i]]@
            },
{
    let mut deck: Vec<Card> = Vec::new();
    let ghost mut keys: Seq<u32> = Seq::empty();
    let mut n: usize = 0;
    while n < DECK_SIZE
        invariant
            0 <= n <= DECK_SIZE,
            deck@.len() == n,
            keys.len() == n,
            keys_distinct(entries_view(entries@)),
            forall|k: int| 0 <= k < entries@.len() ==> weighted_entry(ws@, #[trigger] entries_view(entries@)[k]),
            forall|k: int| 0 <= k < entries@.len() ==> #[trigger] entries_view(entries@)[k].1 >= 0,
            entries_sum(entries_view(entries@)) <= u32::MAX,
            positive_count(entries_view(entries@)) >= DECK_SIZE - n,
            forall|i: int, j: int| 0 <= i < j < keys.len() ==> keys[i] != keys[j],
            forall|i: int, k: int|
                0 <= i < keys.len() && 0 <= k < entries@.len() ==> #[trigger] keys[i] != #[trigger] entries_view(
                    entries@,
                )[k].0,
            forall|i: int|
                0 <= i < keys.len() ==> weighted_pick(ws@, #[trigger] keys[i]) && deck@[i]@ == inventory@[keys[i]]@,
            forall|k: int| 0 <= k < ws@.len() ==> inventory@.contains_key(#[trigger] ws@[k].0),
        decreases DECK_SIZE - n,
    {
        let ghost ev = entries_view(entries@);
        let current = entry_weights(entries);
        proof {
            lemma_positive_sum(ev);
        }
        let index = sample_weighted(&current, rng);
        assert(ev[index as int].1 > 0);
        let ghost picked = ev[index as int].0;
        proof {
            lemma_draw_step(ws@, ev, index as int);
        }
        let (key, _) = entries.remove(index);
        assert(entries_view(entries@) =~= ev.remove(index as int));
        assert(key == picked);
        let card = match inventory.get(&key) {
            Some(c) => c.clone(),
            None => {
                proof {
                    let k = choose|k: int| 0 <= k < ws@.len() && #[trigger] ws@[k].0 == key && ws@[k].1 > 0;
                    assert(inventory@.contains_key(ws@[k].0));
                }
                assert(false);
                unreached()
            },
        };
        let ghost old_keys = keys;
        deck.push(card);
        proof {
            keys = keys.push(key);
            assert forall|i: int, k: int|
                0 <= i < keys.len() && 0 <= k < entries@.len() implies #[trigger] keys[i] != #[trigger] entries_view(
                entries@,
            )[k].0 by {
                let m = choose|m: int| 0 <= m < ev.len() && #[trigger] ev.remove(index as int)[k] == ev[m];
                if i < old_keys.len() {
                    assert(keys[i] == old_keys[i]);
                    assert(old_keys[i] != ev[m].0);
                }
            }
            assert forall|i: int, j: int| 0 <= i < j < keys.len() implies keys[i] != keys[j] by {
                if j == old_keys.len() {
                    assert(old_keys[i] != ev[index as int].0);
                }
            }
        }
        n += 1;
    }
    deck
}

/// What a crossover of parents `a` and `b` may give: `None` exactly when the
/// weights of their cards (see `parent_weights`, with the parents' wins as
/// their weights) add up to more than `u32::MAX` or fewer than `DECK_SIZE`
/// cards have a positive weight; else `DECK_SIZE` inventory cards of
/// distinct ids, each of positive weight.
pub open spec fn crossed_over<'b>(inventory: Map<u32, Card>, a: Report<'b>, b: Report<'b>, r: Option<Vec<Card>>) -> bool {
    let ws = parent_weights(card_ids(a.deck@), a.win_cnt as int, card_ids(b.deck@), b.win_cnt as int);
    &&& r is None <==> (entries_sum(ws) > u32::MAX || positive_count(ws) < DECK_SIZE)
    &&& r matches Some(deck) ==> {
        &&& deck@.len() == DECK_SIZE
        &&& exists|keys: Seq<u32>|
            #![trigger keys.len()]
            {
                &&& keys.len() == DECK_SIZE
                &&& forall|i: int, j: int| 0 <= i < j < keys.len() ==> keys[i] != keys[j]
                &&& forall|i: int|
                    0 <= i < keys.len() ==> weighted_pick(ws, #[trigger] keys[i]) && deck@[i]@ == inventory[keys[i]]@
            }
    }
}

/// Makes a child deck from two parents: `DECK_SIZE` cards are drawn one at
/// a time, without replacement, among the cards of both parents, each with
/// probability proportional to its weight (see `parent_weights`, with the
/// parents' wins as their weights). The result is `None` when the weights
/// add up to more than `u32::MAX` or fewer than `DECK_SIZE` cards have a
/// positive weight.
pub fn crossover(inventory: &HashMap<u32, Card>, a: &Report, b: &Report, rng: &mut Mt64) -> (r: Option<Vec<Card>>)
    requires
        b.deck@.len() <= u32::MAX,
        forall|i: int| 0 <= i < a.deck@.len() ==> inventory@.contains_key(#[trigger] a.deck@[i]@.id),
        forall|i: int| 0 <= i < b.deck@.len() ==> inventory@.contains_key(#[trigger] b.deck@[i]@.id),
    ensures
        crossed_over(inventory@, *a, *b, r),
{
    let ghost ws = parent_weights(card_ids(a.deck@), a.win_cnt as int, card_ids(b.deck@), b.win_cnt as int);
    let weights = build_weights(a.deck, a.get_weight(), b.deck, b.get_weight());
    proof {
        lemma_weights_distinct(card_ids(a.deck@), a.win_cnt as int, card_ids(b.deck@), b.win_cnt as int);
        assert forall|k: int| 0 <= k < weights@.len() implies #[trigger] weights@[k].1 <= u32::MAX + u32::MAX * u32::MAX by {
            assert(a.win_cnt + b.deck@.len() * b.win_cnt <= u32::MAX + u32::MAX * u32::MAX) by (nonlinear_arith)
                requires
                    b.deck@.len() <= u32::MAX,
                    a.win_cnt <= u32::MAX,
                    b.win_cnt <= u32::MAX,
            ;
        }
        lemma_weight_keys_known(card_ids(a.deck@), a.win_cnt as int, card_ids(b.deck@), b.win_cnt as int, inventory@);
    }
    if weights_total(&weights).is_none() {
        return None;
    }
    if count_positive(&weights) < DECK_SIZE {
        return None;
    }
    let mut entries = narrow_weights(&weights);
    proof {
        assert forall|k: int| 0 <= k < entries@.len() implies weighted_entry(ws, #[trigger] entries_view(entries@)[k]) by {
            assert(ws[k] == entries_view(entries@)[k]);
        }
        assert forall|k: int| 0 <= k < entries@.len() implies #[trigger] entries_view(entries@)[k].1 >= 0 by {
            assert(entries_view(entries@)[k].1 == entries@[k].1);
        }
    }
    let deck = draw_cards(inventory, &mut entries, rng, Ghost(ws));
    Some(deck)
}

/// Every key of the weights is the id of a card of a parent, so a known card.
proof fn lemma_weight_keys_known(a: Seq<u32>, wa: int, b: Seq<u32>, wb: int, inventory: Map<u32, Card>)
    requires
        forall|i: int| 0 <= i < a.len() ==> inventory.contains_key(#[trigger] a[i]),
        forall|i: int| 0 <= i < b.len() ==> inventory.contains_key(#[trigger] b[i]),
    ensures
        forall|k: int| 0 <= k < parent_weights(a, wa, b, wb).len() ==> inventory.contains_key(
            #[trigger] parent_weights(a, wa, b, wb)[k].0,
        ),
    decreases b.len(),
{
    if b.len() == 0 {
        lemma_first_keys_known(a, wa, inventory);
    } else {
        assert forall|i: int| 0 <= i < b.drop_last().len() implies inventory.contains_key(#[trigger] b.drop_last()[i]) by {
            assert(b.drop_last()[i] == b[i]);
        }
        lemma_weight_keys_known(a, wa, b.drop_last(), wb, inventory);
        let ws = parent_weights(a, wa, b.drop_last(), wb);
        lemma_key_index(ws, b.last());
        assert(inventory.contains_key(b[b.len() - 1]));
    }
}

proof fn lemma_first_keys_known(a: Seq<u32>, wa: int, inventory: Map<u32, Card>)
    requires
        forall|i: int| 0 <= i < a.len() ==> inventory.contains_key(#[trigger] a[i]),
    ensures
        forall|k: int| 0 <= k < first_parent_weights(a, wa).len() ==> inventory.contains_key(
            #[trigger] first_parent_weights(a, wa)[k].0,
        ),
    decreases a.len(),
{
    if a.len() > 0 {
        assert forall|i: int| 0 <= i < a.drop_last().len() implies inventory.contains_key(#[trigger] a.drop_last()[i]) by {
            assert(a.drop_last()[i] == a[i]);
        }
        lemma_first_keys_known(a.drop_last(), wa, inventory);
        lemma_key_index(first_parent_weights(a.drop_last(), wa), a.last());
        assert(inventory.contains_key(a[a.len() - 1]));
    }
}

// ---------------------------------------------------------------------------
// The first generation
// ---------------------------------------------------------------------------

/// `IteratorRandom::choose_multiple` of `rand` over the keys of the
/// inventory, with a Mersenne Twister: `amount` of the keys, or all of them
/// when there are fewer, each taken from its own place in the list, picked
/// by the generator.
#[verifier::external_body]
fn choose_ids(ids: Vec<u32>, rng: &mut Mt64, amount: usize) -> (r: Vec<u32>)
    ensures
        r@.len() == if amount < ids@.len() {
            amount as int
        } else {
            ids@.len() as int
        },
        r@.to_multiset().subset_of(ids@.to_multiset()),
{
    ids.into_iter().choose_multiple(rng, amount)
}

/// The keys of the inventory, each once, in the order the map gives them.
fn collect_ids(inventory: &HashMap<u32, Card>) -> (r: Vec<u32>)
    ensures
        r@.no_duplicates(),
        r@.len() == inventory@.dom().len(),
        forall|i: int| 0 <= i < r@.len() ==> inventory@.contains_key(#[trigger] r@[i]),
{
    let mut r: Vec<u32> = Vec::new();
    for id in it: inventory.keys()
        invariant
            it.seq().unref().to_set() == inventory@.dom(),
            it.seq().unref().no_duplicates(),
            it.seq().len() == inventory@.dom().len(),
            r@ == it.seq().unref().take(it.index() as int),
            r@.no_duplicates(),
            forall|i: int| 0 <= i < r@.len() ==> inventory@.contains_key(#[trigger] r@[i]),
            it.index() == it.seq().len() ==> r@.len() == inventory@.dom().len(),
    {
        let ghost before = r@;
        proof {
            assert(it.seq().unref()[it.index() as int] == *id);
            assert(it.seq().unref().contains(*id));
            assert(it.seq().unref().take(it.index() + 1) =~= it.seq().unref().take(it.index() as int).push(*id));
            assert forall|a: int| 0 <= a < before.len() implies before[a] != *id by {
                assert(before[a] == it.seq().unref()[a]);
            }
        }
        r.push(*id);
        proof {
            assert forall|a: int, b: int| 0 <= a < b < r@.len() implies r@[a] != r@[b] by {
                if b < before.len() {
                    assert(r@[a] == before[a] && r@[b] == before[b]);
                }
            }
            assert forall|i: int| 0 <= i < r@.len() implies inventory@.contains_key(#[trigger] r@[i]) by {
                if i < before.len() {
                    assert(r@[i] == before[i]);
                }
            }
        }
    }
    r
}

/// The views of the inventory's cards under keys `ks`, in that order.
pub open spec fn entry_views(inventory: Map<u32, Card>, ks: Seq<u32>) -> Seq<CardView> {
    ks.map_values(|k: u32| inventory[k]@)
}

/// Whether `deck` holds, in some order, the cards of distinct entries of
/// the inventory: no entry gives it two cards.
pub open spec fn drawn_from(inventory: Map<u32, Card>, deck: Seq<CardView>) -> bool {
    exists|ks: Seq<u32>|
        #![trigger entry_views(inventory, ks)]
        {
            &&& ks.no_duplicates()
            &&& forall|j: int| 0 <= j < ks.len() ==> inventory.contains_key(#[trigger] ks[j])
            &&& deck.to_multiset() == entry_views(inventory, ks).to_multiset()
        }
}

/// Two lists of the same cards, in any order, have the same views, in any
/// order.
proof fn lemma_views_multiset(a: Seq<Card>, b: Seq<Card>)
    requires
        a.to_multiset() == b.to_multiset(),
    ensures
        views(a).to_multiset() == views(b).to_multiset(),
    decreases a.len(),
{
    broadcast use vstd::seq_lib::group_to_multiset_ensures;

    if a.len() == 0 {
        assert(b.to_multiset().len() == 0);
        assert(b.len() == 0);
        assert(views(a) =~= Seq::<CardView>::empty());
        assert(views(b) =~= Seq::<CardView>::empty());
    } else {
        let x = a.last();
        assert(a.contains(x)) by {
            assert(a[a.len() - 1] == x);
        }
        assert(b.to_multiset().count(x) > 0);
        assert(b.contains(x));
        let i = choose|i: int| 0 <= i < b.len() && b[i] == x;
        assert(a.drop_last().push(x) =~= a);
        assert(a.drop_last().to_multiset() =~= a.to_multiset().remove(x));
        assert(b.remove(i).to_multiset() =~= b.to_multiset().remove(x));
        lemma_views_multiset(a.drop_last(), b.remove(i));
        assert(views(a) =~= views(a.drop_last()).push(x@));
        assert(views(b.remove(i)) =~= views(b).remove(i));
        assert(views(b)[i] == x@);
        assert(views(b).remove(i).to_multiset() =~= views(b).to_multiset().remove(x@));
        assert(views(b).to_multiset().count(x@) > 0) by {
            assert(views(b).contains(x@));
        }
    }
}

/// The decks of a first generation: `population_size` decks, each of
/// `DECK_SIZE` cards picked at random among the inventory (or all of it when
/// it is smaller), no entry of the inventory twice, sorted by id.
pub fn create_initial_population(inventory: &HashMap<u32, Card>, population_size: usize, rng: &mut Mt64) -> (r: Vec<
    Vec<Card>,
>)
    ensures
        r@.len() == population_size,
        forall|i: int| 0 <= i < r@.len() ==> {
            &&& (#[trigger] r@[i])@.len() == if DECK_SIZE < inventory@.dom().len() {
                DECK_SIZE as int
            } else {
                inventory@.dom().len() as int
            }
            &&& sorted_by_id(views(r@[i]@))
            &&& drawn_from(inventory@, views(r@[i]@))
        },
{
    let mut population: Vec<Vec<Card>> = Vec::new();
    let mut n: usize = 0;
    while n < population_size
        invariant
            0 <= n <= population_size,
            population@.len() == n,
            forall|i: int| 0 <= i < n ==> {
                &&& (#[trigger] population@[i])@.len() == if DECK_SIZE < inventory@.dom().len() {
                    DECK_SIZE as int
                } else {
                    inventory@.dom().len() as int
                }
                &&& sorted_by_id(views(population@[i]@))
                &&& drawn_from(inventory@, views(population@[i]@))
            },
        decreases population_size - n,
    {
        let all = collect_ids(inventory);
        let ghost collected = all@;
        let chosen = choose_ids(all, rng, DECK_SIZE);
        proof {
            collected.lemma_multiset_has_no_duplicates();
            assert forall|x: u32| chosen@.to_multiset().contains(x) implies chosen@.to_multiset().count(x) == 1 by {
                assert(collected.to_multiset().count(x) >= chosen@.to_multiset().count(x));
                assert(collected.to_multiset().contains(x));
            }
            chosen@.lemma_multiset_has_no_duplicates_conv();
            assert forall|j: int| 0 <= j < chosen@.len() implies inventory@.contains_key(#[trigger] chosen@[j]) by {
                broadcast use vstd::seq_lib::group_to_multiset_ensures;
                assert(chosen@.contains(chosen@[j]));
                assert(chosen@.to_multiset().count(chosen@[j]) > 0);
                assert(collected.to_multiset().count(chosen@[j]) > 0);
                assert(collected.contains(chosen@[j]));
            }
        }
        let mut deck: Vec<Card> = Vec::new();
        let mut j: usize = 0;
        while j < chosen.len()
            invariant
                0 <= j <= chosen@.len(),
                forall|a: int| 0 <= a < chosen@.len() ==> inventory@.contains_key(#[trigger] chosen@[a]),
                views(deck@) == entry_views(inventory@, chosen@.take(j as int)),
            decreases chosen@.len() - j,
        {
            let card = inventory.get(&chosen[j]).unwrap().clone();
            let ghost before = deck@;
            deck.push(card);
            proof {
                assert(chosen@.take(j + 1) =~= chosen@.take(j as int).push(chosen@[j as int]));
                assert(views(deck@) =~= views(before).push(card@));
                assert(entry_views(inventory@, chosen@.take(j + 1)) =~= entry_views(inventory@, chosen@.take(j as int)).push(inventory@[chosen@[j as int]]@));
            }
            j += 1;
        }
        let ghost unsorted = deck@;
        sort_by_id(&mut deck);
        proof {
            assert(chosen@.take(chosen@.len() as int) =~= chosen@);
            lemma_views_multiset(deck@, unsorted);
            assert(deck@.len() == unsorted.len()) by {
                broadcast use vstd::seq_lib::group_to_multiset_ensures;

                assert(deck@.to_multiset().len() == deck@.len());
                assert(unsorted.to_multiset().len() == unsorted.len());
            }
            assert(drawn_from(inventory@, views(deck@))) by {
                assert(entry_views(inventory@, chosen@) == views(unsorted));
            }
        }
        let ghost before = population@;
        population.push(deck);
        proof {
            assert forall|i: int| 0 <= i < n + 1 implies {
                &&& (#[trigger] population@[i])@.len() == if DECK_SIZE < inventory@.dom().len() {
                    DECK_SIZE as int
                } else {
                    inventory@.dom().len() as int
                }
                &&& sorted_by_id(views(population@[i]@))
                &&& drawn_from(inventory@, views(population@[i]@))
            } by {
                if i < n {
                    assert(population@[i] == before[i]);
                }
            }
        }
        n += 1;
    }
    population
}

// ---------------------------------------------------------------------------
// The next generation
// ---------------------------------------------------------------------------

/// Whether reports are ordered by wins, most first.
pub open spec fn sorted_by_wins<'b>(reports: Seq<Report<'b>>) -> bool {
    forall|i: int, j: int| 0 <= i < j < reports.len() ==> #[trigger] reports[i].win_cnt >= #[trigger] reports[j].win_cnt
}

/// Whether a report counts `w` wins.
pub open spec fn has_wins<'b>(w: u32) -> spec_fn(Report<'b>) -> bool {
    |r: Report<'b>| r.win_cnt == w
}

/// The reports that count `w` wins, in their order.
pub open spec fn with_wins<'b>(reports: Seq<Report<'b>>, w: u32) -> Seq<Report<'b>> {
    reports.filter(has_wins(w))
}

/// Swapping two neighbours with different wins keeps the order among the
/// reports with equal wins.
proof fn lemma_swap_keeps_ties<'b>(s: Seq<Report<'b>>, i: int)
    requires
        0 <= i,
        i + 1 < s.len(),
        s[i].win_cnt != s[i + 1].win_cnt,
    ensures
        forall|w: u32| #[trigger] with_wins(s.update(i, s[i + 1]).update(i + 1, s[i]), w) == with_wins(s, w),
{
    let t = s.update(i, s[i + 1]).update(i + 1, s[i]);
    let a = s.take(i);
    let b = s.skip(i + 2);
    let x = seq![s[i], s[i + 1]];
    let y = seq![s[i + 1], s[i]];
    assert(s =~= a + x + b);
    assert(t =~= a + y + b);
    assert forall|w: u32| #[trigger] with_wins(t, w) == with_wins(s, w) by {
        let f = has_wins::<'b>(w);
        Seq::filter_distributes_over_add(a + x, b, f);
        Seq::filter_distributes_over_add(a, x, f);
        Seq::filter_distributes_over_add(a + y, b, f);
        Seq::filter_distributes_over_add(a, y, f);
        assert(x.filter(f) == y.filter(f)) by {
            reveal_with_fuel(Seq::filter, 3);
            assert(x.drop_last() =~= seq![s[i]]);
            assert(y.drop_last() =~= seq![s[i + 1]]);
            assert(seq![s[i]].drop_last() =~= Seq::<Report<'b>>::empty());
            assert(seq![s[i + 1]].drop_last() =~= Seq::<Report<'b>>::empty());
        }
    }
}

/// Orders reports by wins, most first. Reports with equal wins keep their
/// order.
pub fn sort_by_wins<'b>(reports: &mut Vec<Report<'b>>)
    ensures
        sorted_by_wins(final(reports)@),
        final(reports)@.to_multiset() == old(reports)@.to_multiset(),
        forall|w: u32| #[trigger] with_wins(final(reports)@, w) == with_wins(old(reports)@, w),
{
    let n = reports.len();
    if n == 0 {
        return;
    }
    let mut i: usize = 1;
    while i < n
        invariant
            n == reports@.len(),
            n > 0,
            1 <= i <= n,
            sorted_by_wins(reports@.take(i as int)),
            reports@.to_multiset() == old(reports)@.to_multiset(),
            forall|w: u32| #[trigger] with_wins(reports@, w) == with_wins(old(reports)@, w),
        decreases n - i,
    {
        let mut j: usize = i;
        proof {
            assert forall|a: int, b: int| 0 <= a < b <= i && a != j && b != j implies #[trigger] reports@[a].win_cnt
                >= #[trigger] reports@[b].win_cnt by {
                assert(reports@.take(i as int)[a] == reports@[a]);
                assert(reports@.take(i as int)[b] == reports@[b]);
            }
        }
        while j > 0 && reports[j - 1].win_cnt < reports[j].win_cnt
            invariant
                n == reports@.len(),
                1 <= i < n,
                0 <= j <= i,
                reports@.to_multiset() == old(reports)@.to_multiset(),
                forall|w: u32| #[trigger] with_wins(reports@, w) == with_wins(old(reports)@, w),
                forall|a: int, b: int|
                    0 <= a < b <= i && a != j && b != j ==> #[trigger] reports@[a].win_cnt >= #[trigger] reports@[b].win_cnt,
                forall|b: int| j < b <= i ==> reports@[j as int].win_cnt > #[trigger] reports@[b].win_cnt,
            decreases j,
        {
            let ghost before = reports@;
            let upper = reports.remove(j);
            reports.insert(j - 1, upper);
            proof {
                assert(reports@ =~= before.update(j - 1, before[j as int]).update(j as int, before[j - 1]));
                lemma_swap_multiset(before, j - 1, j as int);
                lemma_swap_keeps_ties(before, j - 1);
                assert forall|w: u32| #[trigger] with_wins(reports@, w) == with_wins(old(reports)@, w) by {
                    assert(with_wins(reports@, w) == with_wins(before, w));
                }
            }
            j -= 1;
        }
        proof {
            assert forall|a: int, b: int| 0 <= a < b < i + 1 implies #[trigger] reports@.take(i + 1)[a].win_cnt
                >= #[trigger] reports@.take(i + 1)[b].win_cnt by {
                assert(reports@.take(i + 1)[a] == reports@[a]);
                assert(reports@.take(i + 1)[b] == reports@[b]);
                if a == j as int {
                } else if b == j as int {
                    if j > 0 {
                        assert(reports@[j - 1].win_cnt >= reports@[j as int].win_cnt);
                        assert(reports@[a].win_cnt >= reports@[j - 1].win_cnt || a == j - 1);
                    }
                } else {
                }
            }
        }
        i += 1;
    }
    assert(reports@.take(n as int) =~= reports@);
}

/// The decks of the first `count` reports, each sorted by id: they go on to
/// the next generation as they are.
pub fn elite_decks<'b>(reports: &Vec<Report<'b>>, count: usize) -> (r: Vec<Vec<Card>>)
    requires
        count <= reports@.len(),
    ensures
        r@.len() == count,
        forall|i: int| 0 <= i < count ==> {
            &&& sorted_by_id(views((#[trigger] r@[i])@))
            &&& views(r@[i]@).to_multiset() == views(reports@[i].deck@).to_multiset()
        },
{
    let mut r: Vec<Vec<Card>> = Vec::new();
    let mut i: usize = 0;
    while i < count
        invariant
            count <= reports@.len(),
            0 <= i <= count,
            r@.len() == i,
            forall|k: int| 0 <= k < i ==> {
                &&& sorted_by_id(views((#[trigger] r@[k])@))
                &&& views(r@[k]@).to_multiset() == views(reports@[k].deck@).to_multiset()
            },
        decreases count - i,
    {
        let mut deck = crate::state::copy_cards(reports[i].deck);
        let ghost copied = deck@;
        sort_by_id(&mut deck);
        proof {
            lemma_map_permutation(copied, deck@, |c: Card| c@);
            assert(views(copied) == views(reports@[i as int].deck@));
        }
        r.push(deck);
        i += 1;
    }
    r
}

/// A sum of weights is positive when one of them is.
proof fn lemma_sum_positive(s: Seq<u32>, i: int)
    requires
        0 <= i < s.len(),
        s[i] > 0,
    ensures
        seq_sum(s) > 0,
    decreases s.len(),
{
    if i < s.len() - 1 {
        lemma_sum_positive(s.drop_last(), i);
    }
    lemma_sum_nonnegative(s.drop_last());
}

/// A sum of weights is never negative.
proof fn lemma_sum_nonnegative(s: Seq<u32>)
    ensures
        seq_sum(s) >= 0,
    decreases s.len(),
{
    if s.len() > 0 {
        lemma_sum_nonnegative(s.drop_last());
    }
}

/// `WeightedAliasIndex::new`, then `Distribution::sample` twice, of
/// `rand_distr`, with a Mersenne Twister: two indices, each picked with
/// probability proportional to its weight, so never one of weight zero.
#[verifier::external_body]
fn sample_two_by_alias(weights: Vec<u32>, rng: &mut Mt64) -> (r: (usize, usize))
    requires
        0 < weights@.len() <= u32::MAX,
        forall|i: int| 0 <= i < weights@.len() ==> #[trigger] weights@[i] <= u32::MAX as int / weights@.len() as int,
        seq_sum(weights@) > 0,
    ensures
        r.0 < weights@.len(),
        weights@[r.0 as int] > 0,
        r.1 < weights@.len(),
        weights@[r.1 as int] > 0,
{
    let index = WeightedAliasIndex::new(weights).unwrap();
    let a = index.sample(rng);
    let b = index.sample(rng);
    (a, b)
}

/// A child deck of a generation: two parents picked among the reports, each
/// with probability proportional to its wins (the same one may be picked
/// twice), then crossed over.
pub fn breed<'b>(inventory: &HashMap<u32, Card>, reports: &Vec<Report<'b>>, rng: &mut Mt64) -> (r: Option<Vec<Card>>)
    requires
        0 < reports@.len() <= u32::MAX,
        forall|i: int|
            0 <= i < reports@.len() ==> (#[trigger] reports@[i]).win_cnt <= u32::MAX as int / reports@.len() as int,
        exists|i: int| 0 <= i < reports@.len() && (#[trigger] reports@[i]).win_cnt > 0,
        forall|i: int| 0 <= i < reports@.len() ==> (#[trigger] reports@[i]).deck@.len() <= u32::MAX,
        forall|i: int, k: int|
            0 <= i < reports@.len() && 0 <= k < reports@[i].deck@.len() ==> inventory@.contains_key(
                #[trigger] reports@[i].deck@[k]@.id,
            ),
    ensures
        exists|a: int, b: int|
            0 <= a < reports@.len() && 0 <= b < reports@.len() && reports@[a].win_cnt > 0 && reports@[b].win_cnt > 0
                && #[trigger] crossed_over(inventory@, reports@[a], reports@[b], r),
{
    let mut weights: Vec<u32> = Vec::new();
    let mut i: usize = 0;
    while i < reports.len()
        invariant
            0 <= i <= reports@.len(),
            weights@.len() == i,
            forall|k: int| 0 <= k < i ==> weights@[k] == (#[trigger] reports@[k]).win_cnt,
        decreases reports@.len() - i,
    {
        weights.push(reports[i].get_weight());
        i += 1;
    }
    proof {
        let w = choose|i: int| 0 <= i < reports@.len() && (#[trigger] reports@[i]).win_cnt > 0;
        lemma_sum_positive(weights@, w);
        assert forall|k: int| 0 <= k < weights@.len() implies #[trigger] weights@[k] <= u32::MAX as int
            / weights@.len() as int by {
            assert(weights@[k] == reports@[k].win_cnt);
        }
    }
    let (a, b) = sample_two_by_alias(weights, rng);
    let r = crossover(inventory, &reports[a], &reports[b], rng);
    assert(crossed_over(inventory@, reports@[a as int], reports@[b as int], r));
    r
}

// ---------------------------------------------------------------------------
// Mutation
// ---------------------------------------------------------------------------

/// The ids of the inventory that no card of the deck has.
pub open spec fn unused_ids(inventory: Map<u32, Card>, deck: Seq<CardView>) -> Set<u32> {
    inventory.dom().filter(|id: u32| !crate::state::has_id(deck, id))
}

/// `IteratorRandom::choose` of `rand` over the ids, with a Mersenne Twister:
/// one of them picked by the generator, `None` exactly when there are none.
#[verifier::external_body]
fn choose_id(ids: Vec<u32>, rng: &mut Mt64) -> (r: Option<u32>)
    ensures
        r is None <==> ids@.len() == 0,
        r matches Some(id) ==> ids@.contains(id),
{
    ids.into_iter().choose(rng)
}

/// Replaces card `i` of the deck with an inventory card that no card of the
/// deck has the id of, picked at random. False, with the deck unchanged,
/// when there is no such card.
pub fn mutate_card(inventory: &HashMap<u32, Card>, deck: &mut Vec<Card>, i: usize, rng: &mut Mt64) -> (r: bool)
    requires
        i < old(deck)@.len(),
    ensures
        r <==> unused_ids(inventory@, views(old(deck)@)).len() > 0,
        !r ==> final(deck)@ == old(deck)@,
        r ==> exists|id: u32|
            #[trigger] unused_ids(inventory@, views(old(deck)@)).contains(id) && views(final(deck)@) == views(
                old(deck)@,
            ).update(i as int, inventory@[id]@),
{
    let ghost unused = unused_ids(inventory@, views(deck@));
    let ghost mut done: Set<u32> = Set::empty();
    let mut pool: Vec<u32> = Vec::new();
    for id in it: inventory.keys()
        invariant
            it.seq().unref().to_set() == inventory@.dom(),
            unused == unused_ids(inventory@, views(deck@)),
            done == it.seq().unref().take(it.index() as int).to_set(),
            it.index() == it.seq().len() ==> done == inventory@.dom(),
            forall|k: int| 0 <= k < pool@.len() ==> unused.contains(#[trigger] pool@[k]),
            forall|x: u32| unused.contains(x) && done.contains(x) ==> pool@.contains(x),
    {
        let ghost before = pool@;
        proof {
            done = done.insert(*id);
        }
        proof {
            assert(it.seq().unref()[it.index() as int] == *id);
            assert(it.seq().unref().contains(*id));
            assert(inventory@.dom().contains(*id));
            assert(it.seq().unref().take(it.index() + 1) =~= it.seq().unref().take(it.index() as int).push(*id));
            assert(it.seq().unref().take(it.seq().len() as int) =~= it.seq().unref());
        }
        if !crate::state::has_id_in(deck, *id) {
            pool.push(*id);
            proof {
                assert forall|x: u32| unused.contains(x) && done.contains(x) implies pool@.contains(x) by {
                    if x == *id {
                        assert(pool@[before.len() as int] == *id);
                    } else {
                        let k = choose|k: int| 0 <= k < before.len() && before[k] == x;
                        assert(pool@[k] == x);
                    }
                }
            }
        }
    }
    proof {
        assert(done == inventory@.dom());
        assert(unused.finite()) by {
            assert(unused.subset_of(inventory@.dom()));
            vstd::set_lib::lemma_set_subset_finite(inventory@.dom(), unused);
        }
        if pool@.len() == 0 && unused.len() > 0 {
            let x = unused.choose();
            assert(unused.contains(x));
            assert(pool@.contains(x));
        }
        if pool@.len() > 0 {
            assert(unused.contains(pool@[0]));
        }
    }
    match choose_id(pool, rng) {
        None => false,
        Some(id) => {
            proof {
                let k = choose|k: int| 0 <= k < pool@.len() && pool@[k] == id;
                assert(unused.contains(id));
            }
            let card = inventory.get(&id).unwrap().clone();
            let ghost before = deck@;
            deck.set(i, card);
            proof {
                assert(views(deck@) =~= views(before).update(i as int, inventory@[id]@));
            }
            true
        },
    }
}

// ---------------------------------------------------------------------------
// A whole generation
// ---------------------------------------------------------------------------

/// Whether parents can be picked among the reports and crossed over (what
/// `breed` asks of them).
pub open spec fn breedable<'b>(inventory: Map<u32, Card>, reports: Seq<Report<'b>>) -> bool {
    &&& 0 < reports.len() <= u32::MAX
    &&& forall|i: int| 0 <= i < reports.len() ==> (#[trigger] reports[i]).win_cnt <= u32::MAX as int / reports.len() as int
    &&& exists|i: int| 0 <= i < reports.len() && (#[trigger] reports[i]).win_cnt > 0
    &&& forall|i: int| 0 <= i < reports.len() ==> (#[trigger] reports[i]).deck@.len() <= u32::MAX
    &&& forall|i: int, k: int|
        0 <= i < reports.len() && 0 <= k < reports[i].deck@.len() ==> inventory.contains_key(
            #[trigger] reports[i].deck@[k]@.id,
        )
}

/// Reordering the reports keeps them breedable.
proof fn lemma_breedable_reordered<'b>(inventory: Map<u32, Card>, a: Seq<Report<'b>>, b: Seq<Report<'b>>)
    requires
        breedable(inventory, a),
        a.to_multiset() == b.to_multiset(),
    ensures
        breedable(inventory, b),
{
    assert(a.len() == b.len()) by {
        vstd::seq_lib::to_multiset_len(a);
        vstd::seq_lib::to_multiset_len(b);
    }
    assert forall|i: int| 0 <= i < b.len() implies exists|j: int| 0 <= j < a.len() && a[j] == #[trigger] b[i] by {
        assert(b.contains(b[i]));
        assert(b.to_multiset().count(b[i]) > 0);
        assert(a.contains(b[i]));
    }
    assert forall|i: int| 0 <= i < b.len() implies (#[trigger] b[i]).win_cnt <= u32::MAX as int / b.len() as int
        && b[i].deck@.len() <= u32::MAX by {
        let j = choose|j: int| 0 <= j < a.len() && a[j] == b[i];
        assert(a[j].win_cnt <= u32::MAX as int / a.len() as int);
    }
    assert forall|i: int, k: int| 0 <= i < b.len() && 0 <= k < b[i].deck@.len() implies inventory.contains_key(
        #[trigger] b[i].deck@[k]@.id,
    ) by {
        let j = choose|j: int| 0 <= j < a.len() && a[j] == b[i];
        assert(a[j].deck@[k] == b[i].deck@[k]);
    }
    let w = choose|i: int| 0 <= i < a.len() && (#[trigger] a[i]).win_cnt > 0;
    assert(a.contains(a[w]));
    assert(a.to_multiset().count(a[w]) > 0);
    assert(b.contains(a[w]));
    let v = choose|i: int| 0 <= i < b.len() && b[i] == a[w];
    assert(b[v].win_cnt > 0);
}

/// An inventory with more ids than a deck has cards always has an id that no
/// card of the deck has.
proof fn lemma_unused_left(inventory: Map<u32, Card>, deck: Seq<CardView>)
    requires
        inventory.dom().finite(),
        inventory.dom().len() > deck.len(),
    ensures
        unused_ids(inventory, deck).len() > 0,
{
    let ids = deck.map_values(|c: CardView| c.id);
    let used = ids.to_set();
    ids.lemma_cardinality_of_set();
    vstd::seq_lib::seq_to_set_is_finite(ids);
    let dom = inventory.dom();
    assert(unused_ids(inventory, deck) =~= dom.difference(used)) by {
        assert forall|id: u32| #[trigger] used.contains(id) <==> crate::state::has_id(deck, id) by {
            if used.contains(id) {
                assert(ids.contains(id));
                let i = choose|i: int| 0 <= i < ids.len() && ids[i] == id;
                assert(deck[i].id == id);
            }
            if crate::state::has_id(deck, id) {
                let i = choose|i: int| 0 <= i < deck.len() && #[trigger] deck[i].id == id;
                assert(ids[i] == id);
                assert(ids.contains(id));
            }
        }
    }
    vstd::set_lib::lemma_len_subset(dom.intersect(used), used);
    vstd::set_lib::lemma_set_difference_len(dom, used);
}

/// Whether `m` is a deck `old` after swapping, at each position where
/// `flips` is true, its card for an inventory card.
pub open spec fn swapped_where(inventory: Map<u32, Card>, old: Seq<CardView>, flips: Seq<bool>, m: Seq<CardView>) -> bool {
    &&& m.len() == old.len()
    &&& forall|k: int| 0 <= k < m.len() && !flips[k] ==> #[trigger] m[k] == old[k]
    &&& forall|k: int|
        0 <= k < m.len() && flips[k] ==> is_inventory_card(inventory, #[trigger] m[k])
}

/// Whether a card view is that of an inventory card.
pub open spec fn is_inventory_card(inventory: Map<u32, Card>, c: CardView) -> bool {
    exists|id: u32| inventory.contains_key(id) && c == #[trigger] inventory[id]@
}

/// Mutates a deck: wherever `flips` is true, in order, the card is swapped
/// for an inventory card that no card of the deck has the id of (see
/// `mutate_card`); then the deck is sorted by id. False when a swap finds no
/// such card, which cannot happen when nothing is flipped or when the
/// inventory has more ids than the deck has cards.
pub fn mutate_deck(inventory: &HashMap<u32, Card>, deck: &mut Vec<Card>, flips: &Vec<bool>, rng: &mut Mt64) -> (r: bool)
    requires
        flips@.len() == old(deck)@.len(),
    ensures
        final(deck)@.len() == old(deck)@.len(),
        r ==> sorted_by_id(views(final(deck)@)),
        r ==> exists|m: Seq<CardView>|
            #[trigger] swapped_where(inventory@, views(old(deck)@), flips@, m) && views(final(deck)@).to_multiset()
                == m.to_multiset(),
        (forall|k: int| 0 <= k < flips@.len() ==> !#[trigger] flips@[k]) ==> r,
        inventory@.dom().len() > old(deck)@.len() ==> r,
{
    let ghost old_v = views(deck@);
    let mut i: usize = 0;
    while i < deck.len()
        invariant
            flips@.len() == deck@.len(),
            deck@.len() == old(deck)@.len(),
            old_v == views(old(deck)@),
            old_v.len() == deck@.len(),
            0 <= i <= deck@.len(),
            forall|k: int| i <= k < deck@.len() ==> #[trigger] views(deck@)[k] == old_v[k],
            forall|k: int| 0 <= k < i && !flips@[k] ==> #[trigger] views(deck@)[k] == old_v[k],
            forall|k: int| 0 <= k < i && flips@[k] ==> is_inventory_card(inventory@, #[trigger] views(deck@)[k]),
        decreases deck@.len() - i,
    {
        if flips[i] {
            let ghost before = views(deck@);
            proof {
                if inventory@.dom().len() > old(deck)@.len() {
                    assert(inventory@.dom().finite());
                    lemma_unused_left(inventory@, before);
                }
            }
            if !mutate_card(inventory, deck, i, rng) {
                return false;
            }
            proof {
                let id = choose|id: u32|
                    #[trigger] unused_ids(inventory@, before).contains(id) && views(deck@) == before.update(i as int, inventory@[id]@);
                assert(views(deck@) == before.update(i as int, inventory@[id]@));
                assert(unused_ids(inventory@, before).contains(id));
                assert(inventory@.contains_key(id));
                assert(views(deck@)[i as int] == inventory@[id]@);
                assert forall|k: int| 0 <= k < deck@.len() && k != i implies #[trigger] views(deck@)[k] == before[k] by {
                    assert(before.update(i as int, inventory@[id]@)[k] == before[k]);
                }
                assert forall|k: int| 0 <= k < i + 1 && flips@[k] implies is_inventory_card(inventory@, #[trigger] views(deck@)[k]) by {
                    if k == i {
                        assert(inventory@.contains_key(id) && views(deck@)[k] == inventory@[id]@);
                    } else {
                        assert(views(deck@)[k] == before[k]);
                        assert(is_inventory_card(inventory@, before[k]));
                    }
                }
            }
        }
        i += 1;
    }
    let ghost m = views(deck@);
    assert(swapped_where(inventory@, old_v, flips@, m));
    let ghost unsorted = deck@;
    sort_by_id(deck);
    proof {
        lemma_map_permutation(deck@, unsorted, |c: Card| c@);
        vstd::seq_lib::to_multiset_len(deck@);
        vstd::seq_lib::to_multiset_len(unsorted);
    }
    true
}

/// Whether `child` is a deck bred from the reports: two parents with wins
/// crossed over, the result sorted by id and then mutated where `flips` says.
pub open spec fn bred_child<'b>(
    inventory: Map<u32, Card>,
    reports: Seq<Report<'b>>,
    flips: Seq<bool>,
    child: Seq<CardView>,
) -> bool {
    exists|a: int, b: int, d0: Vec<Card>, d1: Seq<CardView>, m: Seq<CardView>|
        #![trigger crossed_over(inventory, reports[a], reports[b], Some(d0)), swapped_where(inventory, d1, flips, m)]
        {
            &&& 0 <= a < reports.len()
            &&& 0 <= b < reports.len()
            &&& reports[a].win_cnt > 0
            &&& reports[b].win_cnt > 0
            &&& crossed_over(inventory, reports[a], reports[b], Some(d0))
            &&& d1.to_multiset() == views(d0@).to_multiset()
            &&& sorted_by_id(d1)
            &&& swapped_where(inventory, d1, flips, m)
            &&& child.to_multiset() == m.to_multiset()
        }
}

/// Whether two parents can be crossed over: the weights of their cards add
/// up to at most `u32::MAX` and at least `DECK_SIZE` cards have a positive
/// weight (see `crossed_over`).
pub open spec fn crossover_possible<'b>(a: Report<'b>, b: Report<'b>) -> bool {
    let ws = parent_weights(card_ids(a.deck@), a.win_cnt as int, card_ids(b.deck@), b.win_cnt as int);
    entries_sum(ws) <= u32::MAX && positive_count(ws) >= DECK_SIZE
}

/// When a generation is owed: every two parents with wins can be crossed
/// over, and the mutations either flip nothing or can always find an unused
/// inventory card (the inventory has more ids than a deck has cards).
pub open spec fn generation_owed<'b>(inventory: Map<u32, Card>, reports: Seq<Report<'b>>, mutate: Seq<Vec<bool>>) -> bool {
    &&& forall|a: int, b: int|
        0 <= a < reports.len() && 0 <= b < reports.len() && reports[a].win_cnt > 0 && reports[b].win_cnt > 0
            ==> #[trigger] crossover_possible(reports[a], reports[b])
    &&& inventory.dom().len() > DECK_SIZE || forall|j: int, k: int|
        0 <= j < mutate.len() && 0 <= k < mutate[j]@.len() ==> !#[trigger] mutate[j]@[k]
}

/// Each report of a reordering is one of the reports before.
proof fn lemma_reordered_member<'b>(a: Seq<Report<'b>>, b: Seq<Report<'b>>, i: int) -> (j: int)
    requires
        a.to_multiset() == b.to_multiset(),
        0 <= i < b.len(),
    ensures
        0 <= j < a.len(),
        a[j] == b[i],
{
    assert(b.contains(b[i]));
    assert(b.to_multiset().count(b[i]) > 0);
    assert(a.contains(b[i]));
    choose|j: int| 0 <= j < a.len() && a[j] == b[i]
}

/// The next generation of decks. The reports are ranked by wins, most
/// first, ties keeping their order; the decks of the first `elite_count` go
/// on unchanged but for being sorted by id; the rest, up to
/// `population_size`, are bred from parents picked by their wins, sorted by
/// id, and mutated where `mutate` says (one list of flips per bred deck), then
/// sorted again. The result is `None` when a crossover or a mutation cannot
/// be made.
pub fn next_generation<'b>(
    inventory: &HashMap<u32, Card>,
    reports: &mut Vec<Report<'b>>,
    elite_count: usize,
    population_size: usize,
    mutate: &Vec<Vec<bool>>,
    rng: &mut Mt64,
) -> (r: Option<Vec<Vec<Card>>>)
    requires
        elite_count <= population_size,
        population_size == old(reports)@.len(),
        breedable(inventory@, old(reports)@),
        mutate@.len() == population_size - elite_count,
        forall|i: int| 0 <= i < mutate@.len() ==> (#[trigger] mutate@[i])@.len() == DECK_SIZE,
    ensures
        sorted_by_wins(final(reports)@),
        final(reports)@.to_multiset() == old(reports)@.to_multiset(),
        forall|w: u32| #[trigger] with_wins(final(reports)@, w) == with_wins(old(reports)@, w),
        elite_count == population_size ==> r is Some,
        generation_owed(inventory@, old(reports)@, mutate@) ==> r is Some,
        r matches Some(g) ==> {
            &&& g@.len() == population_size
            &&& forall|i: int| 0 <= i < elite_count ==> {
                &&& sorted_by_id(views((#[trigger] g@[i])@))
                &&& views(g@[i]@).to_multiset() == views(final(reports)@[i].deck@).to_multiset()
            }
            &&& forall|i: int| elite_count <= i < population_size ==> {
                &&& (#[trigger] g@[i])@.len() == DECK_SIZE
                &&& sorted_by_id(views(g@[i]@))
                &&& bred_child(inventory@, final(reports)@, mutate@[i - elite_count]@, views(g@[i]@))
            }
        },
{
    sort_by_wins(reports);
    let ghost owed = generation_owed(inventory@, old(reports)@, mutate@);
    proof {
        lemma_breedable_reordered(inventory@, old(reports)@, reports@);
        vstd::seq_lib::to_multiset_len(reports@);
        vstd::seq_lib::to_multiset_len(old(reports)@);
        if owed {
            assert forall|a: int, b: int|
                0 <= a < reports@.len() && 0 <= b < reports@.len() && reports@[a].win_cnt > 0 && reports@[b].win_cnt > 0
                    implies #[trigger] crossover_possible(reports@[a], reports@[b]) by {
                let a0 = lemma_reordered_member(old(reports)@, reports@, a);
                let b0 = lemma_reordered_member(old(reports)@, reports@, b);
                assert(crossover_possible(old(reports)@[a0], old(reports)@[b0]));
            }
        }
    }
    let mut next_gen = elite_decks(reports, elite_count);
    while next_gen.len() < population_size
        invariant
            elite_count <= population_size,
            population_size == reports@.len(),
            breedable(inventory@, reports@),
            sorted_by_wins(reports@),
            reports@.to_multiset() == old(reports)@.to_multiset(),
            forall|w: u32| #[trigger] with_wins(reports@, w) == with_wins(old(reports)@, w),
            owed == generation_owed(inventory@, old(reports)@, mutate@),
            owed ==> forall|a: int, b: int|
                0 <= a < reports@.len() && 0 <= b < reports@.len() && reports@[a].win_cnt > 0 && reports@[b].win_cnt > 0
                    ==> #[trigger] crossover_possible(reports@[a], reports@[b]),
            mutate@.len() == population_size - elite_count,
            forall|i: int| 0 <= i < mutate@.len() ==> (#[trigger] mutate@[i])@.len() == DECK_SIZE,
            elite_count <= next_gen@.len() <= population_size,
            forall|i: int| 0 <= i < elite_count ==> {
                &&& sorted_by_id(views((#[trigger] next_gen@[i])@))
                &&& views(next_gen@[i]@).to_multiset() == views(reports@[i].deck@).to_multiset()
            },
            forall|i: int| elite_count <= i < next_gen@.len() ==> {
                &&& (#[trigger] next_gen@[i])@.len() == DECK_SIZE
                &&& sorted_by_id(views(next_gen@[i]@))
                &&& bred_child(inventory@, reports@, mutate@[i - elite_count]@, views(next_gen@[i]@))
            },
        decreases population_size - next_gen@.len(),
    {
        let j = next_gen.len() - elite_count;
        let bred = breed(inventory, reports, rng);
        proof {
            if owed {
                let (a, b) = choose|a: int, b: int|
                    0 <= a < reports@.len() && 0 <= b < reports@.len() && reports@[a].win_cnt > 0 && reports@[b].win_cnt > 0
                        && #[trigger] crossed_over(inventory@, reports@[a], reports@[b], bred);
                assert(crossover_possible(reports@[a], reports@[b]));
                assert(bred is Some);
            }
        }
        let mut deck = match bred {
            Some(d) => d,
            None => {
                return None;
            },
        };
        let ghost d0 = deck;
        sort_by_id(&mut deck);
        let ghost d1 = views(deck@);
        proof {
            lemma_map_permutation(deck@, d0@, |c: Card| c@);
            vstd::seq_lib::to_multiset_len(deck@);
            vstd::seq_lib::to_multiset_len(d0@);
        }
        proof {
            if owed && !(inventory@.dom().len() > DECK_SIZE) {
                assert forall|k: int| 0 <= k < mutate@[j as int]@.len() implies !#[trigger] mutate@[j as int]@[k] by {
                    assert(!mutate@[j as int]@[k]);
                }
            }
        }
        if !mutate_deck(inventory, &mut deck, &mutate[j], rng) {
            return None;
        }
        proof {
            let (a, b) = choose|a: int, b: int|
                0 <= a < reports@.len() && 0 <= b < reports@.len() && reports@[a].win_cnt > 0 && reports@[b].win_cnt > 0
                    && #[trigger] crossed_over(inventory@, reports@[a], reports@[b], Some(d0));
            let m = choose|m: Seq<CardView>|
                #[trigger] swapped_where(inventory@, d1, mutate@[j as int]@, m) && views(deck@).to_multiset() == m.to_multiset();
            assert(crossed_over(inventory@, reports@[a], reports@[b], Some(d0)));
            assert(swapped_where(inventory@, d1, mutate@[j as int]@, m));
            assert(bred_child(inventory@, reports@, mutate@[j as int]@, views(deck@)));
        }
        let ghost before = next_gen@;
        next_gen.push(deck);
        proof {
            assert forall|i: int| 0 <= i < elite_count implies {
                &&& sorted_by_id(views((#[trigger] next_gen@[i])@))
                &&& views(next_gen@[i]@).to_multiset() == views(reports@[i].deck@).to_multiset()
            } by {
                assert(next_gen@[i] == before[i]);
            }
            assert forall|i: int| elite_count <= i < next_gen@.len() implies {
                &&& (#[trigger] next_gen@[i])@.len() == DECK_SIZE
                &&& sorted_by_id(views(next_gen@[i]@))
                &&& bred_child(inventory@, reports@, mutate@[i - elite_count]@, views(next_gen@[i]@))
            } by {
                if i < before.len() {
                    assert(next_gen@[i] == before[i]);
                }
            }
        }
    }
    Some(next_gen)
}


// ---------------------------------------------------------------------------
// Between generations
// ---------------------------------------------------------------------------

/// The index of the report with the most wins, the last one among equals,
/// as the validation takes it; `None` when there is no report.
pub fn best_report<'b>(reports: &Vec<Report<'b>>) -> (r: Option<usize>)
    ensures
        r is None <==> reports@.len() == 0,
        r matches Some(i) ==> {
            &&& i < reports@.len()
            &&& forall|k: int| 0 <= k < reports@.len() ==> (#[trigger] reports@[k]).win_cnt <= reports@[i as int].win_cnt
            &&& forall|k: int| i < k < reports@.len() ==> (#[trigger] reports@[k]).win_cnt < reports@[i as int].win_cnt
        },
{
    if reports.len() == 0 {
        return None;
    }
    let mut best: usize = 0;
    let mut i: usize = 1;
    while i < reports.len()
        invariant
            1 <= i <= reports@.len(),
            best < i,
            forall|k: int| 0 <= k < i ==> (#[trigger] reports@[k]).win_cnt <= reports@[best as int].win_cnt,
            forall|k: int| best < k < i ==> (#[trigger] reports@[k]).win_cnt < reports@[best as int].win_cnt,
        decreases reports@.len() - i,
    {
        if reports[i].win_cnt >= reports[best].win_cnt {
            best = i;
        }
        i += 1;
    }
    Some(best)
}

/// The deck the population plays against: the loaded one when there is
/// one, else the first deck of the population, the best of the previous
/// generation (see `next_generation`).
pub fn opponent_deck<'a>(population: &'a Vec<Vec<Card>>, loaded: &'a Option<Vec<Card>>) -> (r: &'a Vec<Card>)
    requires
        loaded is None ==> population@.len() > 0,
    ensures
        loaded matches Some(d) ==> r == d,
        loaded is None ==> r == population@[0],
{
    match loaded {
        Some(d) => d,
        None => &population[0],
    }
}


/// When no deck is loaded to play against, a population made by
/// `next_generation` with at least one elite plays (see `opponent_deck`)
/// against its first deck, which holds the cards of a report with the most
/// wins of the generation before.
pub proof fn lemma_opponent_is_best<'b>(reports: Seq<Report<'b>>, population: Seq<Vec<Card>>)
    requires
        sorted_by_wins(reports),
        reports.len() > 0,
        population.len() > 0,
        views(population[0]@).to_multiset() == views(reports[0].deck@).to_multiset(),
    ensures
        exists|i: int|
            0 <= i < reports.len() && (forall|k: int|
                0 <= k < reports.len() ==> (#[trigger] reports[k]).win_cnt <= reports[i].win_cnt) && views(
                population[0]@,
            ).to_multiset() == views(reports[i].deck@).to_multiset(),
{
    assert forall|k: int| 0 <= k < reports.len() implies (#[trigger] reports[k]).win_cnt <= reports[0].win_cnt by {
        if k > 0 {
            assert(reports[0].win_cnt >= reports[k].win_cnt);
        }
    }
}

} // verus!
