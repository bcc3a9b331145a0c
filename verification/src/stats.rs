use vstd::prelude::*;

use crate::text::{empty_string, push_str};

verus! {

/// A player's name with the score it got in a game.
#[derive(Debug, PartialEq, Eq, Hash)]
pub struct NamedScore {
    pub name: String,
    pub score: u32,
}

impl NamedScore {
    pub fn new(name: &str, score: u32) -> (r: Self)
        ensures
            r.name@ == name@,
            r.score == score,
    {
        let mut n = empty_string();
        push_str(&mut n, name);
        Self { name: n, score }
    }
}

/// Numbers of games won, drawn and lost.
#[derive(Clone, Copy, Debug, PartialEq, Eq, Structural)]
pub struct Stats {
    pub win: u32,
    pub draw: u32,
    pub lose: u32,
}

/// Counts with no game.
pub open spec fn zero_stats() -> Stats {
    Stats { win: 0, draw: 0, lose: 0 }
}

/// The counts after one more game in which the counted side scored `mine`
/// and the other side `theirs`.
pub open spec fn record(s: Stats, mine: u32, theirs: u32) -> Stats {
    if mine < theirs {
        Stats { lose: (s.lose + 1) as u32, ..s }
    } else if mine == theirs {
        Stats { draw: (s.draw + 1) as u32, ..s }
    } else {
        Stats { win: (s.win + 1) as u32, ..s }
    }
}

/// The counts stored for a key, or zero counts.
pub open spec fn get_or_zero<K>(m: Map<K, Stats>, k: K) -> Stats {
    if m.dom().contains(k) {
        m[k]
    } else {
        zero_stats()
    }
}

/// Whether recording one more game cannot overflow the counts of `s`.
pub open spec fn can_record(s: Stats) -> bool {
    s.win < u32::MAX && s.draw < u32::MAX && s.lose < u32::MAX
}

/// Whether the byte string `a` comes after `b` in lexicographic order.
pub open spec fn bytes_greater(a: Seq<u8>, b: Seq<u8>) -> bool
    decreases a.len(),
{
    if a.len() == 0 {
        false
    } else if b.len() == 0 {
        true
    } else if a[0] != b[0] {
        a[0] > b[0]
    } else {
        bytes_greater(a.drop_first(), b.drop_first())
    }
}

/// Whether name `a` comes after name `b` in the order of `String`s
/// (lexicographic on their UTF-8 bytes).
pub open spec fn name_greater(a: Seq<char>, b: Seq<char>) -> bool {
    bytes_greater(vstd::utf8::encode_utf8(a), vstd::utf8::encode_utf8(b))
}

/// The match counts of the ordered pair `(a, b)` after a game between them,
/// from `a`'s side.
pub open spec fn spec_push_counts(
    counts: Map<(Seq<char>, Seq<char>), Stats>,
    a: Seq<char>,
    sa: u32,
    b: Seq<char>,
    sb: u32,
) -> Map<(Seq<char>, Seq<char>), Stats> {
    counts.insert((a, b), record(get_or_zero(counts, (a, b)), sa, sb))
}

/// The per player counts after a game between `a` and `b`.
pub open spec fn spec_push_totals(totals: Map<Seq<char>, Stats>, a: Seq<char>, sa: u32, b: Seq<char>, sb: u32) -> Map<
    Seq<char>,
    Stats,
> {
    let t1 = totals.insert(a, record(get_or_zero(totals, a), sa, sb));
    t1.insert(b, record(get_or_zero(t1, b), sb, sa))
}

/// The mathematical content of a stats counter.
pub ghost struct StatsCounterView {
    /// Match results of each pair of players, keyed with the smaller name first,
    /// counted from the first player's side.
    pub counts: Map<(Seq<char>, Seq<char>), Stats>,
    /// Results of each player over all its games.
    pub totals: Map<Seq<char>, Stats>,
}

/// The counter after a game between `a` (scoring `sa`) and `b` (scoring
/// `sb`): the pair is counted under the smaller name first, from that
/// player's side, and both players' totals take the game.
pub open spec fn spec_push(v: StatsCounterView, a: Seq<char>, sa: u32, b: Seq<char>, sb: u32) -> StatsCounterView {
    if name_greater(a, b) {
        StatsCounterView { counts: spec_push_counts(v.counts, b, sb, a, sa), totals: spec_push_totals(v.totals, b, sb, a, sa) }
    } else {
        StatsCounterView { counts: spec_push_counts(v.counts, a, sa, b, sb), totals: spec_push_totals(v.totals, a, sa, b, sb) }
    }
}

/// Of two different byte strings exactly one comes after the other.
proof fn lemma_bytes_order(a: Seq<u8>, b: Seq<u8>)
    ensures
        a != b ==> bytes_greater(a, b) || bytes_greater(b, a),
        !(bytes_greater(a, b) && bytes_greater(b, a)),
    decreases a.len(),
{
    if a.len() > 0 && b.len() > 0 && a[0] == b[0] {
        lemma_bytes_order(a.drop_first(), b.drop_first());
        if a != b {
            assert(a =~= seq![a[0]] + a.drop_first());
            assert(b =~= seq![b[0]] + b.drop_first());
        }
    } else if a.len() == 0 && b.len() == 0 {
        assert(a =~= b);
    }
}

/// Of two different names exactly one comes after the other.
pub proof fn lemma_name_order(a: Seq<char>, b: Seq<char>)
    ensures
        a != b ==> name_greater(a, b) || name_greater(b, a),
        !(name_greater(a, b) && name_greater(b, a)),
{
    vstd::utf8::encode_utf8_decode_utf8(a);
    vstd::utf8::encode_utf8_decode_utf8(b);
    lemma_bytes_order(vstd::utf8::encode_utf8(a), vstd::utf8::encode_utf8(b));
}

/// The order in which two players are given does not matter: recording a
/// game between two differently named players as `(a, b)` or as `(b, a)`
/// gives the same counter.
pub proof fn lemma_push_result_symmetric(v: StatsCounterView, a: Seq<char>, sa: u32, b: Seq<char>, sb: u32)
    requires
        a != b,
    ensures
        spec_push(v, a, sa, b, sb) == spec_push(v, b, sb, a, sa),
{
    lemma_name_order(a, b);
}

/// A game counts once for each player: each of the two players has one more
/// game in its totals, and one player's win is the other's loss.
pub proof fn lemma_push_result_counts_one_game(v: StatsCounterView, a: Seq<char>, sa: u32, b: Seq<char>, sb: u32)
    requires
        a != b,
        can_record(get_or_zero(v.totals, a)),
        can_record(get_or_zero(v.totals, b)),
    ensures
        ({
            let t = spec_push(v, a, sa, b, sb).totals;
            let ta = get_or_zero(t, a);
            let tb = get_or_zero(t, b);
            let oa = get_or_zero(v.totals, a);
            let ob = get_or_zero(v.totals, b);
            &&& ta.win + ta.draw + ta.lose == oa.win + oa.draw + oa.lose + 1
            &&& tb.win + tb.draw + tb.lose == ob.win + ob.draw + ob.lose + 1
            &&& (ta.win == oa.win + 1 <==> tb.lose == ob.lose + 1)
            &&& (ta.draw == oa.draw + 1 <==> tb.draw == ob.draw + 1)
            &&& (ta.win == oa.win + 1 <==> sa > sb)
        }),
{
    lemma_name_order(a, b);
}

/// The counter after recording the games in order, each as
/// (first name, first score, second name, second score).
pub open spec fn push_all(v: StatsCounterView, games: Seq<(Seq<char>, u32, Seq<char>, u32)>) -> StatsCounterView
    decreases games.len(),
{
    if games.len() == 0 {
        v
    } else {
        let g = games.last();
        spec_push(push_all(v, games.drop_last()), g.0, g.1, g.2, g.3)
    }
}

/// The number of games that `n` played.
pub open spec fn games_of(games: Seq<(Seq<char>, u32, Seq<char>, u32)>, n: Seq<char>) -> nat
    decreases games.len(),
{
    if games.len() == 0 {
        0
    } else {
        let g = games.last();
        games_of(games.drop_last(), n) + if g.0 == n || g.2 == n { 1nat } else { 0 }
    }
}

/// The number of games between `p` and `q`, in either order.
pub open spec fn games_between(games: Seq<(Seq<char>, u32, Seq<char>, u32)>, p: Seq<char>, q: Seq<char>) -> nat
    decreases games.len(),
{
    if games.len() == 0 {
        0
    } else {
        let g = games.last();
        games_between(games.drop_last(), p, q) + if (g.0 == p && g.2 == q) || (g.0 == q && g.2 == p) {
            1nat
        } else {
            0
        }
    }
}

/// The number of games a record counts.
pub open spec fn games_in(s: Stats) -> int {
    s.win + s.draw + s.lose
}

/// Recording one more game adds one to exactly one count.
proof fn lemma_record_one(s: Stats, mine: u32, theirs: u32)
    requires
        games_in(s) < u32::MAX,
    ensures
        games_in(record(s, mine, theirs)) == games_in(s) + 1,
{
}

/// Starting from an empty counter and recording games between two different
/// players (fewer than `u32::MAX` of them): each player's totals count the
/// games it played, each pair's counts count the games between the two, and
/// every pair is kept under the name that orders first.
pub proof fn lemma_push_all_counts(games: Seq<(Seq<char>, u32, Seq<char>, u32)>)
    requires
        games.len() < u32::MAX,
        forall|i: int| 0 <= i < games.len() ==> (#[trigger] games[i]).0 != games[i].2,
    ensures
        ({
            let v = push_all(
                StatsCounterView {
                    counts: Map::<(Seq<char>, Seq<char>), Stats>::empty(),
                    totals: Map::<Seq<char>, Stats>::empty(),
                },
                games,
            );
            &&& forall|n: Seq<char>| #[trigger] games_in(get_or_zero(v.totals, n)) == games_of(games, n)
            &&& forall|p: Seq<char>, q: Seq<char>|
                #[trigger] v.counts.dom().contains((p, q)) ==> name_greater(q, p)
            &&& forall|p: Seq<char>, q: Seq<char>|
                name_greater(q, p) ==> #[trigger] games_in(get_or_zero(v.counts, (p, q))) == games_between(games, p, q)
        }),
    decreases games.len(),
{
    let empty = StatsCounterView {
        counts: Map::<(Seq<char>, Seq<char>), Stats>::empty(),
        totals: Map::<Seq<char>, Stats>::empty(),
    };
    if games.len() > 0 {
        let init = games.drop_last();
        assert forall|i: int| 0 <= i < init.len() implies (#[trigger] init[i]).0 != init[i].2 by {
            assert(init[i] == games[i]);
        }
        lemma_push_all_counts(init);
        lemma_games_bound(init);
        let u = push_all(empty, init);
        let g = games.last();
        assert(g == games[games.len() - 1]);
        let (a, sa, b, sb) = (g.0, g.1, g.2, g.3);
        lemma_name_order(a, b);
        let v = push_all(empty, games);
        assert(v == spec_push(u, a, sa, b, sb));
        assert forall|n: Seq<char>| #[trigger] games_in(get_or_zero(v.totals, n)) == games_of(games, n) by {
            assert(games_in(get_or_zero(u.totals, n)) == games_of(init, n));
            if n == a || n == b {
                lemma_record_one(get_or_zero(u.totals, n), 0, 0);
                lemma_record_one(get_or_zero(u.totals, n), 1, 0);
                lemma_record_one(get_or_zero(u.totals, n), 0, 1);
                lemma_record_one(get_or_zero(u.totals, n), sa, sb);
                lemma_record_one(get_or_zero(u.totals, n), sb, sa);
            }
        }
        assert forall|p: Seq<char>, q: Seq<char>| #[trigger] v.counts.dom().contains((p, q)) implies name_greater(q, p) by {
            if !u.counts.dom().contains((p, q)) {
                if name_greater(a, b) {
                    assert(p == b && q == a);
                } else {
                    assert(p == a && q == b);
                }
            }
        }
        assert forall|p: Seq<char>, q: Seq<char>| name_greater(q, p) implies #[trigger] games_in(get_or_zero(v.counts, (p, q)))
            == games_between(games, p, q) by {
            assert(games_in(get_or_zero(u.counts, (p, q))) == games_between(init, p, q));
            lemma_name_order(p, q);
            if (a == p && b == q) || (a == q && b == p) {
                lemma_record_one(get_or_zero(u.counts, (p, q)), sa, sb);
                lemma_record_one(get_or_zero(u.counts, (p, q)), sb, sa);
            }
        }
    }
}

/// The sum of `f` over the totals of the given names.
pub open spec fn sum_totals(t: Map<Seq<char>, Stats>, names: Seq<Seq<char>>, f: spec_fn(Stats) -> int) -> int
    decreases names.len(),
{
    if names.len() == 0 {
        0
    } else {
        sum_totals(t, names.drop_last(), f) + f(get_or_zero(t, names.last()))
    }
}

/// Changing the totals of one listed name changes the sum by the difference.
proof fn lemma_sum_totals_insert(t: Map<Seq<char>, Stats>, names: Seq<Seq<char>>, f: spec_fn(Stats) -> int, n: Seq<char>, v: Stats)
    requires
        names.no_duplicates(),
        names.contains(n),
    ensures
        sum_totals(t.insert(n, v), names, f) == sum_totals(t, names, f) - f(get_or_zero(t, n)) + f(v),
    decreases names.len(),
{
    let init = names.drop_last();
    assert(init.no_duplicates()) by {
        assert forall|i: int, j: int| 0 <= i < init.len() && 0 <= j < init.len() && i != j implies init[i] != init[j] by {
            assert(init[i] == names[i] && init[j] == names[j]);
        }
    }
    if names.last() == n {
        assert(!init.contains(n)) by {
            if init.contains(n) {
                let i = choose|i: int| 0 <= i < init.len() && init[i] == n;
                assert(names[i] == n && names[names.len() - 1] == n);
            }
        }
        lemma_sum_totals_other(t, init, f, n, v);
    } else {
        let i = choose|i: int| 0 <= i < names.len() && names[i] == n;
        assert(i < names.len() - 1);
        assert(init[i] == n);
        lemma_sum_totals_insert(t, init, f, n, v);
    }
}

/// Changing the totals of a name that is not listed leaves the sum.
proof fn lemma_sum_totals_other(t: Map<Seq<char>, Stats>, names: Seq<Seq<char>>, f: spec_fn(Stats) -> int, n: Seq<char>, v: Stats)
    requires
        !names.contains(n),
    ensures
        sum_totals(t.insert(n, v), names, f) == sum_totals(t, names, f),
    decreases names.len(),
{
    if names.len() > 0 {
        let init = names.drop_last();
        assert(!init.contains(n)) by {
            if init.contains(n) {
                let i = choose|i: int| 0 <= i < init.len() && init[i] == n;
                assert(names[i] == n);
            }
        }
        assert(names.last() != n) by {
            assert(names[names.len() - 1] == names.last());
        }
        lemma_sum_totals_other(t, init, f, n, v);
    }
}

/// Starting from an empty counter and recording games between two different
/// players (fewer than `u32::MAX` of them), summed over a list of names that
/// holds every player once: the wins equal the losses, the draws are even,
/// and the games counted are twice the games played.
pub proof fn lemma_push_all_sums(games: Seq<(Seq<char>, u32, Seq<char>, u32)>, names: Seq<Seq<char>>)
    requires
        games.len() < u32::MAX,
        forall|i: int| 0 <= i < games.len() ==> (#[trigger] games[i]).0 != games[i].2,
        names.no_duplicates(),
        forall|i: int| 0 <= i < games.len() ==> names.contains((#[trigger] games[i]).0) && names.contains(games[i].2),
    ensures
        ({
            let t = push_all(
                StatsCounterView {
                    counts: Map::<(Seq<char>, Seq<char>), Stats>::empty(),
                    totals: Map::<Seq<char>, Stats>::empty(),
                },
                games,
            ).totals;
            &&& sum_totals(t, names, |s: Stats| s.win as int) == sum_totals(t, names, |s: Stats| s.lose as int)
            &&& sum_totals(t, names, |s: Stats| s.draw as int) % 2 == 0
            &&& sum_totals(t, names, |s: Stats| games_in(s)) == 2 * games.len()
        }),
    decreases games.len(),
{
    let empty = StatsCounterView {
        counts: Map::<(Seq<char>, Seq<char>), Stats>::empty(),
        totals: Map::<Seq<char>, Stats>::empty(),
    };
    let fw = |s: Stats| s.win as int;
    let fl = |s: Stats| s.lose as int;
    let fd = |s: Stats| s.draw as int;
    let fg = |s: Stats| games_in(s);
    if games.len() == 0 {
        lemma_sum_totals_empty(names, fw);
        lemma_sum_totals_empty(names, fl);
        lemma_sum_totals_empty(names, fd);
        lemma_sum_totals_empty(names, fg);
    } else {
        let init = games.drop_last();
        assert forall|i: int| 0 <= i < init.len() implies (#[trigger] init[i]).0 != init[i].2 && names.contains(init[i].0)
            && names.contains(init[i].2) by {
            assert(init[i] == games[i]);
        }
        lemma_push_all_sums(init, names);
        lemma_push_all_counts(init);
        lemma_games_bound(init);
        let u = push_all(empty, init).totals;
        let g = games.last();
        assert(g == games[games.len() - 1]);
        let (a, sa, b, sb) = (g.0, g.1, g.2, g.3);
        lemma_name_order(a, b);
        let (x, sx, y, sy) = if name_greater(a, b) { (b, sb, a, sa) } else { (a, sa, b, sb) };
        let rx = record(get_or_zero(u, x), sx, sy);
        let t1 = u.insert(x, rx);
        let ry = record(get_or_zero(t1, y), sy, sx);
        let t = t1.insert(y, ry);
        assert(push_all(empty, games).totals == t);
        assert(get_or_zero(t1, y) == get_or_zero(u, y));
        assert(games_in(get_or_zero(u, x)) == games_of(init, x));
        assert(games_in(get_or_zero(u, y)) == games_of(init, y));
        lemma_sum_totals_insert(u, names, fw, x, rx);
        lemma_sum_totals_insert(t1, names, fw, y, ry);
        lemma_sum_totals_insert(u, names, fl, x, rx);
        lemma_sum_totals_insert(t1, names, fl, y, ry);
        lemma_sum_totals_insert(u, names, fd, x, rx);
        lemma_sum_totals_insert(t1, names, fd, y, ry);
        lemma_sum_totals_insert(u, names, fg, x, rx);
        lemma_sum_totals_insert(t1, names, fg, y, ry);
    }
}

/// Over a counter with no totals, the sum is zero.
proof fn lemma_sum_totals_empty(names: Seq<Seq<char>>, f: spec_fn(Stats) -> int)
    requires
        f(zero_stats()) == 0,
    ensures
        sum_totals(Map::<Seq<char>, Stats>::empty(), names, f) == 0,
    decreases names.len(),
{
    if names.len() > 0 {
        lemma_sum_totals_empty(names.drop_last(), f);
    }
}

/// A player's count of games and the count between two players never
/// exceed the number of games.
proof fn lemma_games_bound(games: Seq<(Seq<char>, u32, Seq<char>, u32)>)
    ensures
        forall|n: Seq<char>| #[trigger] games_of(games, n) <= games.len(),
        forall|p: Seq<char>, q: Seq<char>| #[trigger] games_between(games, p, q) <= games.len(),
    decreases games.len(),
{
    if games.len() > 0 {
        let init = games.drop_last();
        lemma_games_bound(init);
        assert forall|n: Seq<char>| #[trigger] games_of(games, n) <= games.len() by {
            assert(games_of(init, n) <= init.len());
        }
        assert forall|p: Seq<char>, q: Seq<char>| #[trigger] games_between(games, p, q) <= games.len() by {
            assert(games_between(init, p, q) <= init.len());
        }
    }
}

/// The map of an association list whose keys are distinct.
pub open spec fn entries_map<K>(entries: Seq<(K, Stats)>) -> Map<K, Stats>
    decreases entries.len(),
{
    if entries.len() == 0 {
        Map::empty()
    } else {
        entries_map(entries.drop_last()).insert(entries.last().0, entries.last().1)
    }
}

/// No key occurs twice.
pub open spec fn distinct_keys<K>(entries: Seq<(K, Stats)>) -> bool {
    forall|i: int, j: int| 0 <= i < entries.len() && 0 <= j < entries.len() && i != j ==> #[trigger] entries[i].0 != #[trigger] entries[j].0
}

/// Stores game results: per pair of player names, and per name. The
/// entries are kept as lists with distinct keys rather than hash maps:
/// Verus's specification of `HashMap` proves nothing of lookups under
/// `String` keys, so a map would leave every count unproved.
#[derive(Debug)]
pub struct StatsCounter {
    counts: Vec<((String, String), Stats)>,
    totals: Vec<(String, Stats)>,
}

pub open spec fn pair_key(e: ((String, String), Stats)) -> ((Seq<char>, Seq<char>), Stats) {
    ((e.0.0@, e.0.1@), e.1)
}

pub open spec fn name_key(e: (String, Stats)) -> (Seq<char>, Stats) {
    (e.0@, e.1)
}

impl View for StatsCounter {
    type V = StatsCounterView;

    closed spec fn view(&self) -> StatsCounterView {
        StatsCounterView {
            counts: entries_map(self.counts@.map_values(|e: ((String, String), Stats)| pair_key(e))),
            totals: entries_map(self.totals@.map_values(|e: (String, Stats)| name_key(e))),
        }
    }
}

/// The map of an association list with distinct keys holds exactly its entries.
proof fn lemma_entries_map<K>(entries: Seq<(K, Stats)>)
    requires
        distinct_keys(entries),
    ensures
        forall|i: int| 0 <= i < entries.len() ==> #[trigger] entries_map(entries).dom().contains(entries[i].0)
            && entries_map(entries)[entries[i].0] == entries[i].1,
        forall|k: K| #[trigger] entries_map(entries).dom().contains(k) ==> exists|i: int| 0 <= i < entries.len() && entries[i].0 == k,
    decreases entries.len(),
{
    if entries.len() > 0 {
        let prev = entries.drop_last();
        assert(distinct_keys(prev)) by {
            assert forall|i: int, j: int| 0 <= i < prev.len() && 0 <= j < prev.len() && i != j implies #[trigger] prev[i].0 != #[trigger] prev[j].0 by {
                assert(prev[i] == entries[i] && prev[j] == entries[j]);
            }
        }
        lemma_entries_map(prev);
        assert(entries_map(entries) == entries_map(prev).insert(entries.last().0, entries.last().1));
        assert(entries.last() == entries[entries.len() - 1]);
        assert forall|i: int| 0 <= i < prev.len() implies #[trigger] prev[i] == entries[i] by {}
        assert forall|i: int| 0 <= i < entries.len() implies #[trigger] entries_map(entries).dom().contains(entries[i].0)
            && entries_map(entries)[entries[i].0] == entries[i].1 by {
            if i < entries.len() - 1 {
                assert(prev[i] == entries[i]);
                assert(entries[i].0 != entries[entries.len() - 1].0);
            }
        }
        assert forall|k: K| #[trigger] entries_map(entries).dom().contains(k) implies exists|i: int| 0 <= i < entries.len() && entries[i].0 == k by {
            if k != entries.last().0 {
                let i = choose|i: int| 0 <= i < prev.len() && prev[i].0 == k;
                assert(entries[i] == prev[i]);
            } else {
                assert(entries[entries.len() - 1].0 == k);
            }
        }
    }
}

/// Replacing the value of the `i`-th entry updates the map at its key.
proof fn lemma_entries_map_set<K>(entries: Seq<(K, Stats)>, i: int, v: Stats)
    requires
        distinct_keys(entries),
        0 <= i < entries.len(),
    ensures
        distinct_keys(entries.update(i, (entries[i].0, v))),
        entries_map(entries.update(i, (entries[i].0, v))) == entries_map(entries).insert(entries[i].0, v),
{
    let e2 = entries.update(i, (entries[i].0, v));
    assert(distinct_keys(e2)) by {
        assert forall|a: int, b: int| 0 <= a < e2.len() && 0 <= b < e2.len() && a != b implies #[trigger] e2[a].0 != #[trigger] e2[b].0 by {
            assert(e2[a].0 == entries[a].0 && e2[b].0 == entries[b].0);
        }
    }
    lemma_entries_map(entries);
    lemma_entries_map(e2);
    let m1 = entries_map(e2);
    let m2 = entries_map(entries).insert(entries[i].0, v);
    assert forall|k: K| #[trigger] m1.dom().contains(k) <==> m2.dom().contains(k) by {
        if m1.dom().contains(k) {
            let j = choose|j: int| 0 <= j < e2.len() && e2[j].0 == k;
            assert(entries[j].0 == k);
            assert(entries_map(entries).dom().contains(entries[j].0));
        }
        if m2.dom().contains(k) {
            if k != entries[i].0 {
                let j = choose|j: int| 0 <= j < entries.len() && entries[j].0 == k;
                assert(e2[j].0 == k);
                assert(m1.dom().contains(e2[j].0));
            } else {
                assert(e2[i].0 == k);
                assert(m1.dom().contains(e2[i].0));
            }
        }
    }
    assert forall|k: K| m1.dom().contains(k) implies #[trigger] m1[k] == m2[k] by {
        let j = choose|j: int| 0 <= j < e2.len() && e2[j].0 == k;
        if j != i {
            assert(e2[j] == entries[j]);
        }
    }
    assert(m1 =~= m2);
}

/// Appending an entry with a new key inserts it into the map.
proof fn lemma_entries_map_push<K>(entries: Seq<(K, Stats)>, k: K, v: Stats)
    requires
        distinct_keys(entries),
        !entries_map(entries).dom().contains(k),
    ensures
        distinct_keys(entries.push((k, v))),
        entries_map(entries.push((k, v))) == entries_map(entries).insert(k, v),
{
    lemma_entries_map(entries);
    let e2 = entries.push((k, v));
    assert(e2.drop_last() =~= entries);
    assert forall|a: int, b: int| 0 <= a < e2.len() && 0 <= b < e2.len() && a != b implies #[trigger] e2[a].0 != #[trigger] e2[b].0 by {
        if a < entries.len() && b < entries.len() {
            assert(e2[a] == entries[a] && e2[b] == entries[b]);
        } else if a < entries.len() {
            assert(e2[a] == entries[a]);
            assert(entries_map(entries).dom().contains(entries[a].0));
        } else if b < entries.len() {
            assert(e2[b] == entries[b]);
            assert(entries_map(entries).dom().contains(entries[b].0));
        }
    }
}

impl StatsCounter {
    pub closed spec fn wf(&self) -> bool {
        &&& distinct_keys(self.counts@.map_values(|e: ((String, String), Stats)| pair_key(e)))
        &&& distinct_keys(self.totals@.map_values(|e: (String, Stats)| name_key(e)))
    }

    pub fn new() -> (r: Self)
        ensures
            r.wf(),
            r@.counts == Map::<(Seq<char>, Seq<char>), Stats>::empty(),
            r@.totals == Map::<Seq<char>, Stats>::empty(),
    {
        let r = Self { counts: Vec::new(), totals: Vec::new() };
        assert(r.counts@.map_values(|e: ((String, String), Stats)| pair_key(e)) =~= Seq::empty());
        assert(r.totals@.map_values(|e: (String, Stats)| name_key(e)) =~= Seq::empty());
        r
    }

    /// Records the result of a game between `a` and `b`. The pair is counted
    /// under the smaller name first, from that player's side; both players'
    /// totals are updated.
    pub fn push_result(&mut self, a: &NamedScore, b: &NamedScore)
        requires
            old(self).wf(),
            can_record(get_or_zero(old(self)@.counts, (a.name@, b.name@))),
            can_record(get_or_zero(old(self)@.counts, (b.name@, a.name@))),
            can_record(get_or_zero(old(self)@.totals, a.name@)),
            can_record(get_or_zero(old(self)@.totals, b.name@)),
            a.name@ == b.name@ ==> get_or_zero(old(self)@.totals, a.name@).win < u32::MAX - 1,
            a.name@ == b.name@ ==> get_or_zero(old(self)@.totals, a.name@).lose < u32::MAX - 1,
            a.name@ == b.name@ ==> get_or_zero(old(self)@.totals, a.name@).draw < u32::MAX - 1,
        ensures
            final(self).wf(),
            final(self)@ == spec_push(old(self)@, a.name@, a.score, b.name@, b.score),
    {
        // We need a consistent player order.
        if name_is_greater(a.name.as_str(), b.name.as_str()) {
            self.push_ordered(b, a);
        } else {
            self.push_ordered(a, b);
        }
    }

    fn push_ordered(&mut self, a: &NamedScore, b: &NamedScore)
        requires
            old(self).wf(),
            can_record(get_or_zero(old(self)@.counts, (a.name@, b.name@))),
            can_record(get_or_zero(old(self)@.totals, a.name@)),
            can_record(get_or_zero(old(self)@.totals, b.name@)),
            a.name@ == b.name@ ==> get_or_zero(old(self)@.totals, a.name@).win < u32::MAX - 1,
            a.name@ == b.name@ ==> get_or_zero(old(self)@.totals, a.name@).lose < u32::MAX - 1,
            a.name@ == b.name@ ==> get_or_zero(old(self)@.totals, a.name@).draw < u32::MAX - 1,
        ensures
            final(self).wf(),
            final(self)@ == (StatsCounterView {
                counts: spec_push_counts(old(self)@.counts, a.name@, a.score, b.name@, b.score),
                totals: spec_push_totals(old(self)@.totals, a.name@, a.score, b.name@, b.score),
            }),
    {
        let ghost t0 = self@.totals;
        self.update_pair(a, b);
        self.update_total(&a.name, a.score, b.score);
        let ghost t1 = t0.insert(a.name@, record(get_or_zero(t0, a.name@), a.score, b.score));
        assert(self@.totals == t1);
        self.update_total(&b.name, b.score, a.score);
    }

    fn update_pair(&mut self, a: &NamedScore, b: &NamedScore)
        requires
            old(self).wf(),
            can_record(get_or_zero(old(self)@.counts, (a.name@, b.name@))),
        ensures
            final(self).wf(),
            final(self)@.counts == spec_push_counts(old(self)@.counts, a.name@, a.score, b.name@, b.score),
            final(self)@.totals == old(self)@.totals,
    {
        let ghost keys = self.counts@.map_values(|e: ((String, String), Stats)| pair_key(e));
        proof {
            lemma_entries_map(keys);
        }
        let mut i: usize = 0;
        while i < self.counts.len()
            invariant
                keys == self.counts@.map_values(|e: ((String, String), Stats)| pair_key(e)),
                self.counts@ == old(self).counts@,
                self.totals@ == old(self).totals@,
                old(self).wf(),
                can_record(get_or_zero(old(self)@.counts, (a.name@, b.name@))),
                0 <= i <= self.counts@.len(),
                forall|k: int| 0 <= k < i ==> #[trigger] keys[k].0 != (a.name@, b.name@),
            decreases self.counts@.len() - i,
        {
            if self.counts[i].0.0 == a.name && self.counts[i].0.1 == b.name {
                let ghost old_counts = self@.counts;
                proof {
                    lemma_entries_map(keys);
                }
                let s = self.counts[i].1;
                assert(keys[i as int].0 == (a.name@, b.name@));
                assert(old_counts[(a.name@, b.name@)] == s);
                let ns = record_exec(s, a.score, b.score);
                let key = (copy_string(&self.counts[i].0.0), copy_string(&self.counts[i].0.1));
                self.counts.set(i, (key, ns));
                proof {
                    lemma_entries_map_set(keys, i as int, ns);
                    assert(self.counts@.map_values(|e: ((String, String), Stats)| pair_key(e)) =~= keys.update(i as int, (keys[i as int].0, ns)));
                }
                return;
            }
            i += 1;
        }
        assert(!self@.counts.dom().contains((a.name@, b.name@))) by {
            if self@.counts.dom().contains((a.name@, b.name@)) {
                let k = choose|k: int| 0 <= k < keys.len() && keys[k].0 == (a.name@, b.name@);
            }
        }
        let ns = record_exec(Stats { win: 0, draw: 0, lose: 0 }, a.score, b.score);
        self.counts.push(((copy_string(&a.name), copy_string(&b.name)), ns));
        proof {
            lemma_entries_map_push(keys, (a.name@, b.name@), ns);
            assert(self.counts@.map_values(|e: ((String, String), Stats)| pair_key(e)) =~= keys.push(((a.name@, b.name@), ns)));
        }
    }

    fn update_total(&mut self, name: &String, mine: u32, theirs: u32)
        requires
            old(self).wf(),
            can_record(get_or_zero(old(self)@.totals, name@)),
        ensures
            final(self).wf(),
            final(self)@.totals == old(self)@.totals.insert(name@, record(get_or_zero(old(self)@.totals, name@), mine, theirs)),
            final(self)@.counts == old(self)@.counts,
    {
        let ghost keys = self.totals@.map_values(|e: (String, Stats)| name_key(e));
        proof {
            lemma_entries_map(keys);
        }
        let mut i: usize = 0;
        while i < self.totals.len()
            invariant
                keys == self.totals@.map_values(|e: (String, Stats)| name_key(e)),
                self.counts@ == old(self).counts@,
                self.totals@ == old(self).totals@,
                old(self).wf(),
                can_record(get_or_zero(old(self)@.totals, name@)),
                0 <= i <= self.totals@.len(),
                forall|k: int| 0 <= k < i ==> #[trigger] keys[k].0 != name@,
            decreases self.totals@.len() - i,
        {
            if self.totals[i].0 == *name {
                proof {
                    lemma_entries_map(keys);
                }
                let s = self.totals[i].1;
                assert(keys[i as int].0 == name@);
                let ns = record_exec(s, mine, theirs);
                let key = copy_string(&self.totals[i].0);
                self.totals.set(i, (key, ns));
                proof {
                    lemma_entries_map_set(keys, i as int, ns);
                    assert(self.totals@.map_values(|e: (String, Stats)| name_key(e)) =~= keys.update(i as int, (keys[i as int].0, ns)));
                }
                return;
            }
            i += 1;
        }
        assert(!self@.totals.dom().contains(name@)) by {
            if self@.totals.dom().contains(name@) {
                let k = choose|k: int| 0 <= k < keys.len() && keys[k].0 == name@;
            }
        }
        let ns = record_exec(Stats { win: 0, draw: 0, lose: 0 }, mine, theirs);
        self.totals.push((copy_string(name), ns));
        proof {
            lemma_entries_map_push(keys, name@, ns);
            assert(self.totals@.map_values(|e: (String, Stats)| name_key(e)) =~= keys.push((name@, ns)));
        }
    }

    /// The match counts, as (first name, second name, counts from the first's side).
    pub fn counts(&self) -> (r: Vec<(String, String, Stats)>)
        requires
            self.wf(),
        ensures
            forall|i: int| 0 <= i < r@.len() ==> {
                &&& self@.counts.dom().contains((#[trigger] r@[i].0@, r@[i].1@))
                &&& self@.counts[(r@[i].0@, r@[i].1@)] == r@[i].2
            },
            forall|k: (Seq<char>, Seq<char>)| #[trigger] self@.counts.dom().contains(k) ==> exists|i: int|
                0 <= i < r@.len() && r@[i].0@ == k.0 && r@[i].1@ == k.1,
    {
        let ghost keys = self.counts@.map_values(|e: ((String, String), Stats)| pair_key(e));
        proof {
            lemma_entries_map(keys);
        }
        let mut r: Vec<(String, String, Stats)> = Vec::new();
        let mut i: usize = 0;
        while i < self.counts.len()
            invariant
                keys == self.counts@.map_values(|e: ((String, String), Stats)| pair_key(e)),
                0 <= i <= self.counts@.len(),
                r@.len() == i,
                forall|k: int| 0 <= k < i ==> #[trigger] r@[k].0@ == keys[k].0.0 && r@[k].1@ == keys[k].0.1 && r@[k].2 == keys[k].1,
            decreases self.counts@.len() - i,
        {
            let ghost before = r@;
            let e = &self.counts[i];
            let first = copy_string(&e.0.0);
            let second = copy_string(&e.0.1);
            assert(keys[i as int] == pair_key(self.counts@[i as int]));
            r.push((first, second, e.1));
            assert forall|k: int| 0 <= k < i + 1 implies #[trigger] r@[k].0@ == keys[k].0.0 && r@[k].1@ == keys[k].0.1
                && r@[k].2 == keys[k].1 by {
                if k < i {
                    assert(r@[k] == before[k]);
                }
            }
            i += 1;
        }
        assert forall|i: int| 0 <= i < r@.len() implies {
            &&& self@.counts.dom().contains((#[trigger] r@[i].0@, r@[i].1@))
            &&& self@.counts[(r@[i].0@, r@[i].1@)] == r@[i].2
        } by {
            assert((r@[i].0@, r@[i].1@) == keys[i].0);
        }
        assert forall|k: (Seq<char>, Seq<char>)| #[trigger] self@.counts.dom().contains(k) implies exists|i: int|
            0 <= i < r@.len() && r@[i].0@ == k.0 && r@[i].1@ == k.1 by {
            let i = choose|i: int| 0 <= i < keys.len() && keys[i].0 == k;
            assert(r@[i].0@ == k.0 && r@[i].1@ == k.1);
        }
        r
    }

    /// The per player counts, as (name, counts).
    pub fn totals(&self) -> (r: Vec<(String, Stats)>)
        requires
            self.wf(),
        ensures
            forall|i: int| 0 <= i < r@.len() ==> {
                &&& self@.totals.dom().contains(#[trigger] r@[i].0@)
                &&& self@.totals[r@[i].0@] == r@[i].1
            },
            forall|k: Seq<char>| #[trigger] self@.totals.dom().contains(k) ==> exists|i: int| 0 <= i < r@.len() && r@[i].0@ == k,
    {
        let ghost keys = self.totals@.map_values(|e: (String, Stats)| name_key(e));
        proof {
            lemma_entries_map(keys);
        }
        let mut r: Vec<(String, Stats)> = Vec::new();
        let mut i: usize = 0;
        while i < self.totals.len()
            invariant
                keys == self.totals@.map_values(|e: (String, Stats)| name_key(e)),
                0 <= i <= self.totals@.len(),
                r@.len() == i,
                forall|k: int| 0 <= k < i ==> #[trigger] r@[k].0@ == keys[k].0 && r@[k].1 == keys[k].1,
            decreases self.totals@.len() - i,
        {
            let ghost before = r@;
            let e = &self.totals[i];
            let name = copy_string(&e.0);
            assert(keys[i as int] == name_key(self.totals@[i as int]));
            r.push((name, e.1));
            assert forall|k: int| 0 <= k < i + 1 implies #[trigger] r@[k].0@ == keys[k].0 && r@[k].1 == keys[k].1 by {
                if k < i {
                    assert(r@[k] == before[k]);
                }
            }
            i += 1;
        }
        assert forall|i: int| 0 <= i < r@.len() implies {
            &&& self@.totals.dom().contains(#[trigger] r@[i].0@)
            &&& self@.totals[r@[i].0@] == r@[i].1
        } by {
            assert(r@[i].0@ == keys[i].0);
        }
        assert forall|k: Seq<char>| #[trigger] self@.totals.dom().contains(k) implies exists|i: int| 0 <= i < r@.len() && r@[i].0@ == k by {
            let i = choose|i: int| 0 <= i < keys.len() && keys[i].0 == k;
            assert(r@[i].0@ == k);
        }
        r
    }
}

impl Default for StatsCounter {
    fn default() -> (r: Self)
        ensures
            r.wf(),
            r@.counts == Map::<(Seq<char>, Seq<char>), Stats>::empty(),
            r@.totals == Map::<Seq<char>, Stats>::empty(),
    {
        Self::new()
    }
}

/// The counts after one more game.
fn record_exec(s: Stats, mine: u32, theirs: u32) -> (r: Stats)
    requires
        can_record(s),
    ensures
        r == record(s, mine, theirs),
{
    if mine < theirs {
        Stats { lose: s.lose + 1, ..s }
    } else if mine == theirs {
        Stats { draw: s.draw + 1, ..s }
    } else {
        Stats { win: s.win + 1, ..s }
    }
}

fn copy_string(s: &String) -> (r: String)
    ensures
        r@ == s@,
{
    let mut r = empty_string();
    push_str(&mut r, s.as_str());
    r
}

/// Whether `a` comes after `b` in the order of strings.
fn name_is_greater(a: &str, b: &str) -> (r: bool)
    ensures
        r == name_greater(a@, b@),
{
    let x = a.as_bytes();
    let y = b.as_bytes();
    let mut i: usize = 0;
    assert(x@.skip(0) =~= x@);
    assert(y@.skip(0) =~= y@);
    while i < x.len() && i < y.len()
        invariant
            x@ == vstd::utf8::encode_utf8(a@),
            y@ == vstd::utf8::encode_utf8(b@),
            0 <= i <= x@.len(),
            i <= y@.len(),
            forall|k: int| 0 <= k < i ==> x@[k] == y@[k],
            bytes_greater(x@, y@) == bytes_greater(x@.skip(i as int), y@.skip(i as int)),
        decreases x@.len() - i,
    {
        if x[i] != y[i] {
            assert(x@.skip(i as int)[0] == x@[i as int]);
            return x[i] > y[i];
        }
        assert(x@.skip(i as int).drop_first() =~= x@.skip(i + 1));
        assert(y@.skip(i as int).drop_first() =~= y@.skip(i + 1));
        i += 1;
    }
    i < x.len()
}

}
