//! A chronological history of games and the replay that keeps its ratings
//! consistent after a game is added, edited or deleted.
//!
//! Each game's participants carry their ratings after the game. The rating a
//! deck carries into game `k` is its rating after the most recent earlier
//! game in which it played, or the default rating when it has not played
//! before. Replaying from position `first` hands every game from `first` on,
//! in order, to the rating engine with those carried ratings and stores what
//! the engine returns.
use vstd::prelude::*;
use crate::elo::Participant;
use crate::error::ApiError;

verus! {

/// A game and its participants, ratings after the game included.
pub struct Game<R> {
    pub id: i32,
    pub time_stamp: i64,
    pub participants: Vec<Participant<R>>,
}

/// The mathematical value of a [`Game`].
pub ghost struct GameView<R> {
    pub id: i32,
    pub time_stamp: i64,
    pub participants: Seq<Participant<R>>,
}

impl<R> View for Game<R> {
    type V = GameView<R>;

    open spec fn view(&self) -> GameView<R> {
        GameView { id: self.id, time_stamp: self.time_stamp, participants: self.participants@ }
    }
}

/// The mathematical value of a history of games.
pub open spec fn history_view<R>(games: Seq<Game<R>>) -> Seq<GameView<R>> {
    games.map_values(|g: Game<R>| g@)
}

/// The ratings held by a list of participants, in order.
pub open spec fn ratings_of<R>(ps: Seq<Participant<R>>) -> Seq<R> {
    ps.map_values(|p: Participant<R>| p.elo)
}

/// Two participants are the same entry, whatever their ratings.
pub open spec fn same_entry<R>(a: Participant<R>, b: Participant<R>) -> bool {
    a.id == b.id && a.game_id == b.game_id && a.deck_id == b.deck_id && a.win == b.win
}

/// Two games agree on everything but the ratings.
pub open spec fn same_game<R>(a: GameView<R>, b: GameView<R>) -> bool {
    &&& a.id == b.id
    &&& a.time_stamp == b.time_stamp
    &&& a.participants.len() == b.participants.len()
    &&& forall|i: int|
        0 <= i < a.participants.len() ==> same_entry(
            #[trigger] a.participants[i],
            b.participants[i],
        )
}

/// The last slot below `n` of the list that holds the deck.
pub open spec fn slot_in<R>(ps: Seq<Participant<R>>, deck: i32, n: int) -> Option<int>
    decreases n,
{
    if n <= 0 {
        None
    } else if ps[n - 1].deck_id == deck {
        Some(n - 1)
    } else {
        slot_in(ps, deck, n - 1)
    }
}

/// The most recent game before position `k` in which the deck played, with
/// the deck's slot in it.
pub open spec fn latest_before<R>(h: Seq<GameView<R>>, k: int, deck: i32) -> Option<(int, int)>
    decreases k,
{
    if k <= 0 {
        None
    } else {
        match slot_in(h[k - 1].participants, deck, h[k - 1].participants.len() as int) {
            Some(s) => Some((k - 1, s)),
            None => latest_before(h, k - 1, deck),
        }
    }
}

/// The rating the deck carries into the game at position `k`.
pub open spec fn rating_before<R>(h: Seq<GameView<R>>, k: int, deck: i32, default: R) -> R {
    match latest_before(h, k, deck) {
        Some((m, s)) => h[m].participants[s].elo,
        None => default,
    }
}

/// The participants of the game at position `k`, each with the rating it
/// carries into the game.
pub open spec fn seeded<R>(h: Seq<GameView<R>>, k: int, default: R) -> Seq<Participant<R>> {
    h[k].participants.map_values(
        |p: Participant<R>| Participant { elo: rating_before(h, k, p.deck_id, default), ..p },
    )
}

/// The game at position `k` holds what the engine returned for its
/// participants with their carried ratings.
pub open spec fn rated_by<R, F: Fn(&Vec<Participant<R>>) -> Vec<R>>(
    engine: F,
    h: Seq<GameView<R>>,
    k: int,
    default: R,
) -> bool {
    exists|v: Vec<Participant<R>>, out: Vec<R>|
        #[trigger] engine.ensures((&v,), out) && v@ == seeded(h, k, default) && out@
            == ratings_of(h[k].participants)
}

/// The engine returned, for the participants of the game at position `k`
/// with their carried ratings, a list of ratings of another length.
pub open spec fn misrated_by<R, F: Fn(&Vec<Participant<R>>) -> Vec<R>>(
    engine: F,
    h: Seq<GameView<R>>,
    k: int,
    default: R,
) -> bool {
    exists|v: Vec<Participant<R>>, out: Vec<R>|
        #[trigger] engine.ensures((&v,), out) && v@ == seeded(h, k, default) && out@.len()
            != v@.len()
}

/// `h` is `edited` replayed from position `first` by the engine: every game
/// keeps the entries of `edited`, the games before `first` are those of
/// `edited`, and the engine rated every game from `first` on.
pub open spec fn replayed_from<R, F: Fn(&Vec<Participant<R>>) -> Vec<R>>(
    h: Seq<GameView<R>>,
    edited: Seq<GameView<R>>,
    first: int,
    engine: F,
    default: R,
) -> bool {
    &&& h.len() == edited.len()
    &&& forall|i: int| 0 <= i < h.len() ==> same_game(#[trigger] h[i], edited[i])
    &&& forall|i: int| 0 <= i < first ==> #[trigger] h[i] == edited[i]
    &&& forall|k: int| first <= k < h.len() ==> rated_by(engine, h, k, default)
}

/// The slot of the list that holds the deck (the last one, should there be
/// several).
pub fn find_slot<R>(ps: &Vec<Participant<R>>, deck: i32) -> (r: Option<usize>)
    ensures
        match r {
            Some(s) => s < ps@.len() && ps@[s as int].deck_id == deck && slot_in(
                ps@,
                deck,
                ps@.len() as int,
            ) == Some(s as int),
            None => slot_in(ps@, deck, ps@.len() as int) is None,
        },
{
    let mut n = ps.len();
    while n > 0
        invariant
            n <= ps@.len(),
            slot_in(ps@, deck, ps@.len() as int) == slot_in(ps@, deck, n as int),
        decreases n,
    {
        if ps[n - 1].deck_id == deck {
            return Some(n - 1);
        }
        n = n - 1;
    }
    None
}

/// The rating that the deck carries into the game at position `k`: its
/// rating after the most recent earlier game in which it played, or
/// `default`.
pub fn latest_rating<R: Copy>(games: &Vec<Game<R>>, k: usize, deck: i32, default: R) -> (r: R)
    requires
        k <= games@.len(),
    ensures
        r == rating_before(history_view(games@), k as int, deck, default),
{
    let ghost h = history_view(games@);
    let mut m = k;
    while m > 0
        invariant
            m <= k <= games@.len(),
            h == history_view(games@),
            latest_before(h, k as int, deck) == latest_before(h, m as int, deck),
        decreases m,
    {
        let g = &games[m - 1];
        assert(h[m - 1] == g@);
        match find_slot(&g.participants, deck) {
            Some(s) => {
                return g.participants[s].elo;
            },
            None => {},
        }
        m = m - 1;
    }
    default
}

/// The participants of the game at position `k`, each with the rating it
/// carries into the game.
pub fn seed_game<R: Copy>(games: &Vec<Game<R>>, k: usize, default: R) -> (r: Vec<Participant<R>>)
    requires
        k < games@.len(),
    ensures
        r@ == seeded(history_view(games@), k as int, default),
{
    let ghost h = history_view(games@);
    let ps = &games[k].participants;
    let mut r: Vec<Participant<R>> = Vec::new();
    let mut i: usize = 0;
    while i < ps.len()
        invariant
            h == history_view(games@),
            k < games@.len(),
            ps@ == h[k as int].participants,
            i <= ps@.len(),
            r@ == seeded(h, k as int, default).subrange(0, i as int),
        decreases ps@.len() - i,
    {
        let p = &ps[i];
        let elo = latest_rating(games, k, p.deck_id, default);
        r.push(p.with_elo(elo));
        assert(r@ =~= seeded(h, k as int, default).subrange(0, i + 1));
        i = i + 1;
    }
    assert(r@ =~= seeded(h, k as int, default));
    r
}

/// What a deck carries into game `k` depends only on the games before `k`.
proof fn lemma_latest_before_prefix<R>(h1: Seq<GameView<R>>, h2: Seq<GameView<R>>, k: int, deck: i32)
    requires
        0 <= k <= h1.len(),
        k <= h2.len(),
        forall|i: int| 0 <= i < k ==> h1[i] == h2[i],
    ensures
        latest_before(h1, k, deck) == latest_before(h2, k, deck),
        match latest_before(h1, k, deck) {
            Some((m, s)) => 0 <= m < k && 0 <= s < h1[m].participants.len(),
            None => true,
        },
    decreases k,
{
    if k > 0 {
        lemma_latest_before_prefix(h1, h2, k - 1, deck);
        assert(h1[k - 1] == h2[k - 1]);
        lemma_slot_in_range(h1[k - 1].participants, deck, h1[k - 1].participants.len() as int);
    }
}

proof fn lemma_slot_in_range<R>(ps: Seq<Participant<R>>, deck: i32, n: int)
    requires
        n <= ps.len(),
    ensures
        match slot_in(ps, deck, n) {
            Some(s) => 0 <= s < n,
            None => true,
        },
    decreases n,
{
    if n > 0 {
        lemma_slot_in_range(ps, deck, n - 1);
    }
}

/// The participants of game `k` with their carried ratings depend only on
/// the games before `k` and on the entries (not the ratings) of game `k`.
proof fn lemma_seeded_prefix<R>(h1: Seq<GameView<R>>, h2: Seq<GameView<R>>, k: int, default: R)
    requires
        0 <= k < h1.len(),
        k < h2.len(),
        forall|i: int| 0 <= i < k ==> h1[i] == h2[i],
        same_game(h1[k], h2[k]),
    ensures
        seeded(h1, k, default) == seeded(h2, k, default),
{
    assert forall|deck: i32| rating_before(h1, k, deck, default) == rating_before(h2, k, deck, default) by {
        lemma_latest_before_prefix(h1, h2, k, deck);
    }
    let a = seeded(h1, k, default);
    let b = seeded(h2, k, default);
    assert forall|i: int| 0 <= i < a.len() implies a[i] == b[i] by {
        assert(same_entry(h1[k].participants[i], h2[k].participants[i]));
    }
    assert(a =~= b);
}

/// Hands every game from position `first` on, in order, to `engine` with
/// the ratings its participants carry into it, and stores the ratings that
/// come back. Games before `first` are left as they are.
///
/// `Err(k)`: the engine returned for game `k` a list of ratings of another
/// length than its participant list; game `k` and every game after it are
/// then left as they were, the games from `first` to `k` are replayed.
pub fn replay_from<R: Copy, F: Fn(&Vec<Participant<R>>) -> Vec<R>>(
    games: &mut Vec<Game<R>>,
    first: usize,
    default: R,
    engine: F,
) -> (r: Result<(), usize>)
    requires
        first <= old(games)@.len(),
        forall|v: Vec<Participant<R>>| engine.requires((&v,)),
    ensures
        final(games)@.len() == old(games)@.len(),
        forall|k: int|
            0 <= k < old(games)@.len() ==> same_game(
                #[trigger] history_view(final(games)@)[k],
                history_view(old(games)@)[k],
            ),
        forall|k: int|
            0 <= k < first ==> #[trigger] history_view(final(games)@)[k] == history_view(
                old(games)@,
            )[k],
        match r {
            Ok(()) => forall|k: int|
                first <= k < old(games)@.len() ==> rated_by(
                    engine,
                    history_view(final(games)@),
                    k,
                    default,
                ),
            Err(e) => {
                &&& first <= e < old(games)@.len()
                &&& misrated_by(engine, history_view(final(games)@), e as int, default)
                &&& forall|k: int|
                    first <= k < e ==> rated_by(engine, history_view(final(games)@), k, default)
                &&& forall|k: int|
                    e <= k < old(games)@.len() ==> #[trigger] history_view(final(games)@)[k]
                        == history_view(old(games)@)[k]
            },
        },
{
    let ghost old_h = history_view(games@);
    let mut k = first;
    while k < games.len()
        invariant
            old_h == history_view(old(games)@),
            old_h.len() == old(games)@.len(),
            games@.len() == old_h.len(),
            first <= k <= games@.len(),
            forall|v: Vec<Participant<R>>| engine.requires((&v,)),
            forall|i: int|
                0 <= i < old_h.len() ==> same_game(#[trigger] history_view(games@)[i], old_h[i]),
            forall|i: int| 0 <= i < first ==> #[trigger] history_view(games@)[i] == old_h[i],
            forall|i: int| k <= i < old_h.len() ==> #[trigger] history_view(games@)[i] == old_h[i],
            forall|i: int| first <= i < k ==> rated_by(engine, history_view(games@), i, default),
        decreases games@.len() - k,
    {
        let seeds = seed_game(games, k, default);
        let out = engine(&seeds);
        if out.len() != seeds.len() {
            return Err(k);
        }
        let mut ps: Vec<Participant<R>> = Vec::new();
        let mut i: usize = 0;
        while i < seeds.len()
            invariant
                out@.len() == seeds@.len(),
                i <= seeds@.len(),
                ps@.len() == i,
                forall|j: int|
                    0 <= j < i ==> #[trigger] ps@[j] == (Participant { elo: out@[j], ..seeds@[j] }),
            decreases seeds@.len() - i,
        {
            ps.push(seeds[i].with_elo(out[i]));
            i = i + 1;
        }
        let ghost h0 = history_view(games@);
        let id = games[k].id;
        let time_stamp = games[k].time_stamp;
        games[k] = Game { id, time_stamp, participants: ps };
        proof {
            let h1 = history_view(games@);
            assert(h1 =~= h0.update(k as int, h1[k as int]));
            assert(ratings_of(h1[k as int].participants) =~= out@);
            assert(same_game(h1[k as int], h0[k as int]));
            lemma_seeded_prefix(h1, h0, k as int, default);
            assert(rated_by(engine, h1, k as int, default));
            assert forall|j: int| first <= j < k + 1 implies rated_by(engine, h1, j, default) by {
                if j < k {
                    lemma_seeded_prefix(h1, h0, j, default);
                    assert(h1[j] == h0[j]);
                    assert(rated_by(engine, h0, j, default));
                    let (v, o) = choose|v: Vec<Participant<R>>, o: Vec<R>|
                        #[trigger] engine.ensures((&v,), o) && v@ == seeded(h0, j, default) && o@
                            == ratings_of(h0[j].participants);
                    assert(engine.ensures((&v,), o));
                }
            }
            assert forall|j: int| 0 <= j < old_h.len() implies same_game(#[trigger] h1[j], old_h[j]) by {
                if j == k {
                    assert(same_game(h0[j], old_h[j]));
                }
            }
        }
        k = k + 1;
    }
    Ok(())
}

/// The game at position `k` holds, as ratings, what the rating function `f`
/// makes of its participants with their carried ratings.
pub open spec fn rated_with<R>(
    h: Seq<GameView<R>>,
    f: spec_fn(Seq<Participant<R>>) -> Seq<R>,
    k: int,
    default: R,
) -> bool {
    ratings_of(h[k].participants) == f(seeded(h, k, default))
}

/// The game with the ratings `rs` given to its participants in order.
pub open spec fn with_ratings<R>(g: GameView<R>, rs: Seq<R>) -> GameView<R> {
    GameView {
        participants: g.participants.map(|i: int, p: Participant<R>| Participant { elo: rs[i], ..p }),
        ..g
    }
}

/// The history with every rating computed anew by `f`, from the first game
/// on; only the entries of `h` are read, not its ratings.
pub open spec fn recompute<R>(
    h: Seq<GameView<R>>,
    f: spec_fn(Seq<Participant<R>>) -> Seq<R>,
    default: R,
) -> Seq<GameView<R>>
    decreases h.len(),
{
    if h.len() == 0 {
        h
    } else {
        let prev = recompute(h.drop_last(), f, default);
        let k = h.len() - 1;
        prev.push(with_ratings(h[k], f(seeded(prev.push(h[k]), k, default))))
    }
}

proof fn lemma_recompute_shape<R>(
    h: Seq<GameView<R>>,
    f: spec_fn(Seq<Participant<R>>) -> Seq<R>,
    default: R,
)
    ensures
        recompute(h, f, default).len() == h.len(),
        forall|k: int| 0 <= k < h.len() ==> same_game(#[trigger] recompute(h, f, default)[k], h[k]),
    decreases h.len(),
{
    if h.len() > 0 {
        lemma_recompute_shape(h.drop_last(), f, default);
        let r = recompute(h, f, default);
        assert forall|k: int| 0 <= k < h.len() implies same_game(#[trigger] r[k], h[k]) by {
            if k < h.len() - 1 {
                assert(h.drop_last()[k] == h[k]);
            }
        }
    }
}

/// A history recomputed by a rating function that gives one rating per
/// participant is rated by that function throughout.
proof fn lemma_recompute_rated<R>(
    h: Seq<GameView<R>>,
    f: spec_fn(Seq<Participant<R>>) -> Seq<R>,
    default: R,
)
    requires
        forall|s: Seq<Participant<R>>| #[trigger] f(s).len() == s.len(),
    ensures
        forall|k: int| 0 <= k < h.len() ==> rated_with(recompute(h, f, default), f, k, default),
    decreases h.len(),
{
    if h.len() > 0 {
        let prev = recompute(h.drop_last(), f, default);
        let r = recompute(h, f, default);
        let n = h.len() - 1;
        lemma_recompute_rated(h.drop_last(), f, default);
        lemma_recompute_shape(h.drop_last(), f, default);
        lemma_recompute_shape(h, f, default);
        assert forall|k: int| 0 <= k < h.len() implies rated_with(r, f, k, default) by {
            assert(r == prev.push(with_ratings(h[n], f(seeded(prev.push(h[n]), n, default)))));
            assert(prev.len() == n);
            if k < n {
                assert(r[k] == prev[k]);
                assert(rated_with(prev, f, k, default));
                assert(same_game(r[k], prev[k]));
                lemma_seeded_prefix(r, prev, k, default);
                assert(seeded(r, k, default) == seeded(prev, k, default));
            } else {
                let full = prev.push(h[n]);
                assert(same_game(r[n], full[n]));
                lemma_seeded_prefix(r, full, n, default);
                let rs = f(seeded(full, n, default));
                assert(rs.len() == h[n].participants.len());
                assert(ratings_of(r[n].participants) =~= rs);
            }
        }
    }
}

/// A history rated throughout by `f` is its own recomputation: the
/// ratings of a history are fixed by its entries.
proof fn lemma_rated_is_recompute<R>(
    h: Seq<GameView<R>>,
    f: spec_fn(Seq<Participant<R>>) -> Seq<R>,
    default: R,
)
    requires
        forall|k: int| 0 <= k < h.len() ==> rated_with(h, f, k, default),
    ensures
        h == recompute(h, f, default),
    decreases h.len(),
{
    if h.len() > 0 {
        let d = h.drop_last();
        let n = h.len() - 1;
        assert forall|k: int| 0 <= k < d.len() implies rated_with(d, f, k, default) by {
            assert(d.len() == n);
            assert(d[k] == h[k]);
            assert(rated_with(h, f, k, default));
            assert(same_game(d[k], h[k]));
            lemma_seeded_prefix(d, h, k, default);
            assert(seeded(d, k, default) == seeded(h, k, default));
        }
        lemma_rated_is_recompute(d, f, default);
        assert(d.push(h[n]) =~= h);
        let g = with_ratings(h[n], f(seeded(h, n, default)));
        assert(rated_with(h, f, n, default));
        assert(g.participants =~= h[n].participants);
        assert(g == h[n]);
        assert(recompute(h, f, default) =~= h);
    }
}

/// Recomputation reads only the entries of a history, not its ratings.
proof fn lemma_recompute_entries<R>(
    a: Seq<GameView<R>>,
    b: Seq<GameView<R>>,
    f: spec_fn(Seq<Participant<R>>) -> Seq<R>,
    default: R,
)
    requires
        a.len() == b.len(),
        forall|k: int| 0 <= k < a.len() ==> same_game(#[trigger] a[k], b[k]),
    ensures
        recompute(a, f, default) == recompute(b, f, default),
    decreases a.len(),
{
    if a.len() > 0 {
        let n = a.len() - 1;
        assert forall|k: int| 0 <= k < n implies same_game(#[trigger] a.drop_last()[k], b.drop_last()[k]) by {
            assert(a.drop_last()[k] == a[k]);
            assert(b.drop_last()[k] == b[k]);
        }
        lemma_recompute_entries(a.drop_last(), b.drop_last(), f, default);
        let prev = recompute(a.drop_last(), f, default);
        lemma_recompute_shape(a.drop_last(), f, default);
        let fa = prev.push(a[n]);
        let fb = prev.push(b[n]);
        assert(same_game(fa[n], fb[n]));
        lemma_seeded_prefix(fa, fb, n, default);
        let rs = f(seeded(fa, n, default));
        let ga = with_ratings(a[n], rs);
        let gb = with_ratings(b[n], rs);
        assert forall|i: int| 0 <= i < ga.participants.len() implies ga.participants[i]
            == gb.participants[i] by {
            assert(same_entry(a[n].participants[i], b[n].participants[i]));
        }
        assert(ga.participants =~= gb.participants);
        assert(ga == gb);
    }
}

/// Replaying after an edit agrees with recomputing everything.
///
/// Take a history whose ratings were all computed by the engine, and edit it
/// from position `first` on: change the entries or outcomes of games, remove
/// games or add some, leaving the games before `first` alone. A replay from
/// `first` (a history that keeps the edited games' entries and the games
/// before `first` as they are, and in which the engine rated every game from
/// `first` on) then holds exactly the ratings of a from-scratch
/// recomputation of the edited history. `f` is what the engine computes: it
/// gives one rating per participant, and nothing else.
pub proof fn lemma_replay_matches_recompute<R, F: Fn(&Vec<Participant<R>>) -> Vec<R>>(
    before: Seq<GameView<R>>,
    edited: Seq<GameView<R>>,
    replayed: Seq<GameView<R>>,
    first: int,
    engine: F,
    f: spec_fn(Seq<Participant<R>>) -> Seq<R>,
    default: R,
)
    requires
        forall|s: Seq<Participant<R>>| #[trigger] f(s).len() == s.len(),
        forall|v: Vec<Participant<R>>, out: Vec<R>|
            #[trigger] engine.ensures((&v,), out) ==> out@ == f(v@),
        before == recompute(before, f, default),
        0 <= first <= before.len(),
        first <= edited.len(),
        forall|i: int| 0 <= i < first ==> edited[i] == before[i],
        replayed_from(replayed, edited, first, engine, default),
    ensures
        replayed == recompute(edited, f, default),
{
    lemma_recompute_rated(before, f, default);
    assert forall|k: int| 0 <= k < replayed.len() implies rated_with(replayed, f, k, default) by {
        if k < first {
            assert(rated_with(recompute(before, f, default), f, k, default));
            assert(replayed[k] == before[k]);
            assert forall|i: int| 0 <= i < k implies replayed[i] == before[i] by {
                assert(replayed[i] == edited[i]);
            }
            lemma_seeded_prefix(replayed, before, k, default);
        } else {
            assert(rated_by(engine, replayed, k, default));
            let (v, out) = choose|v: Vec<Participant<R>>, out: Vec<R>|
                #[trigger] engine.ensures((&v,), out) && v@ == seeded(replayed, k, default) && out@
                    == ratings_of(replayed[k].participants);
            assert(out@ == f(v@));
        }
    }
    lemma_rated_is_recompute(replayed, f, default);
    lemma_recompute_entries(replayed, edited, f, default);
}

/// One entry of a game as submitted: the deck and whether it won.
#[derive(Clone, Copy, Debug, PartialEq, Eq, Structural)]
pub struct ParticipantRequest {
    pub deck_id: i32,
    pub win: bool,
}

/// A game can be rated: it has at least one participant and no deck appears
/// twice in it.
pub open spec fn valid_request(rs: Seq<ParticipantRequest>) -> bool {
    &&& rs.len() > 0
    &&& forall|i: int, j: int|
        0 <= i < j < rs.len() ==> #[trigger] rs[i].deck_id != #[trigger] rs[j].deck_id
}

/// The stored entries for a submitted game, each with the rating `elo`.
pub open spec fn entries_for<R>(game_id: i32, rs: Seq<ParticipantRequest>, elo: R) -> Seq<
    Participant<R>,
> {
    rs.map_values(
        |q: ParticipantRequest|
            Participant { id: None, game_id, deck_id: q.deck_id, win: q.win, elo },
    )
}

/// Game `(t1, id1)` is played before game `(t2, id2)`: by time, and by
/// identifier between games of the same time.
pub open spec fn precedes(t1: i64, id1: i32, t2: i64, id2: i32) -> bool {
    t1 < t2 || (t1 == t2 && id1 < id2)
}

/// The games are in chronological order and no two share an identifier.
pub open spec fn well_formed<R>(h: Seq<GameView<R>>) -> bool {
    &&& forall|i: int, j: int|
        0 <= i < j < h.len() ==> precedes(
            #[trigger] h[i].time_stamp,
            h[i].id,
            #[trigger] h[j].time_stamp,
            h[j].id,
        )
    &&& forall|i: int, j: int| 0 <= i < j < h.len() ==> #[trigger] h[i].id != #[trigger] h[j].id
}

/// Whether the submitted entries can be rated (see [`valid_request`]).
pub fn check_request(rs: &Vec<ParticipantRequest>) -> (r: bool)
    ensures
        r == valid_request(rs@),
{
    if rs.len() == 0 {
        return false;
    }
    let mut j: usize = 1;
    while j < rs.len()
        invariant
            1 <= j <= rs@.len(),
            forall|a: int, b: int|
                0 <= a < b < j ==> #[trigger] rs@[a].deck_id != #[trigger] rs@[b].deck_id,
        decreases rs@.len() - j,
    {
        let mut i: usize = 0;
        while i < j
            invariant
                1 <= j < rs@.len(),
                i <= j,
                forall|a: int, b: int|
                    0 <= a < b < j ==> #[trigger] rs@[a].deck_id != #[trigger] rs@[b].deck_id,
                forall|a: int| 0 <= a < i ==> #[trigger] rs@[a].deck_id != rs@[j as int].deck_id,
            decreases j - i,
        {
            if rs[i].deck_id == rs[j].deck_id {
                return false;
            }
            i = i + 1;
        }
        j = j + 1;
    }
    true
}

/// The stored entries for a submitted game, each with the rating `elo`.
pub fn new_participants<R: Copy>(game_id: i32, rs: &Vec<ParticipantRequest>, elo: R) -> (r: Vec<
    Participant<R>,
>)
    ensures
        r@ == entries_for(game_id, rs@, elo),
{
    let mut r: Vec<Participant<R>> = Vec::new();
    let mut i: usize = 0;
    while i < rs.len()
        invariant
            i <= rs@.len(),
            r@ == entries_for(game_id, rs@, elo).subrange(0, i as int),
        decreases rs@.len() - i,
    {
        r.push(Participant::new(game_id, rs[i].deck_id, rs[i].win, elo));
        assert(r@ =~= entries_for(game_id, rs@, elo).subrange(0, i + 1));
        i = i + 1;
    }
    assert(r@ =~= entries_for(game_id, rs@, elo));
    r
}

/// The position of the game with identifier `id`, if there is one.
pub fn find_game<R>(games: &Vec<Game<R>>, id: i32) -> (r: Option<usize>)
    ensures
        match r {
            Some(k) => k < games@.len() && games@[k as int].id == id && forall|i: int|
                0 <= i < k ==> (#[trigger] games@[i]).id != id,
            None => forall|i: int| 0 <= i < games@.len() ==> (#[trigger] games@[i]).id != id,
        },
{
    let mut k: usize = 0;
    while k < games.len()
        invariant
            k <= games@.len(),
            forall|i: int| 0 <= i < k ==> (#[trigger] games@[i]).id != id,
        decreases games@.len() - k,
    {
        if games[k].id == id {
            return Some(k);
        }
        k = k + 1;
    }
    None
}

/// The position at which a game played at `time_stamp` with identifier `id`
/// belongs: after every game played before it, before every other game.
pub fn insertion_point<R>(games: &Vec<Game<R>>, time_stamp: i64, id: i32) -> (r: usize)
    requires
        well_formed(history_view(games@)),
    ensures
        r <= games@.len(),
        forall|i: int|
            0 <= i < r ==> precedes(
                (#[trigger] games@[i]).time_stamp,
                games@[i].id,
                time_stamp,
                id,
            ),
        forall|i: int|
            r <= i < games@.len() ==> !precedes(
                (#[trigger] games@[i]).time_stamp,
                games@[i].id,
                time_stamp,
                id,
            ),
{
    let ghost h = history_view(games@);
    let mut k: usize = 0;
    while k < games.len() && (games[k].time_stamp < time_stamp || (games[k].time_stamp
        == time_stamp && games[k].id < id))
        invariant
            k <= games@.len(),
            forall|i: int|
                0 <= i < k ==> precedes(
                    (#[trigger] games@[i]).time_stamp,
                    games@[i].id,
                    time_stamp,
                    id,
                ),
        decreases games@.len() - k,
    {
        k = k + 1;
    }
    assert forall|i: int| k <= i < games@.len() implies !precedes(
        (#[trigger] games@[i]).time_stamp,
        games@[i].id,
        time_stamp,
        id,
    ) by {
        if i > k {
            assert(h[k as int] == games@[k as int]@);
            assert(h[i] == games@[i]@);
            assert(precedes(h[k as int].time_stamp, h[k as int].id, h[i].time_stamp, h[i].id));
        }
    }
    k
}

/// An engine that returns one rating per participant never misrates a game.
proof fn lemma_no_misrating<R, F: Fn(&Vec<Participant<R>>) -> Vec<R>>(
    engine: F,
    h: Seq<GameView<R>>,
    k: int,
    default: R,
)
    requires
        forall|v: Vec<Participant<R>>, out: Vec<R>|
            #[trigger] engine.ensures((&v,), out) ==> out@.len() == v@.len(),
    ensures
        !misrated_by(engine, h, k, default),
{
    if misrated_by(engine, h, k, default) {
        let (v, out) = choose|v: Vec<Participant<R>>, out: Vec<R>|
            #[trigger] engine.ensures((&v,), out) && v@ == seeded(h, k, default) && out@.len()
                != v@.len();
        assert(engine.ensures((&v,), out));
    }
}

/// Well-formedness reads only identifiers and times, which a replay keeps.
proof fn lemma_well_formed_same_keys<R>(a: Seq<GameView<R>>, b: Seq<GameView<R>>)
    requires
        well_formed(a),
        a.len() == b.len(),
        forall|i: int|
            0 <= i < a.len() ==> (#[trigger] a[i]).id == b[i].id && a[i].time_stamp
                == b[i].time_stamp,
    ensures
        well_formed(b),
{
    assert forall|i: int, j: int| 0 <= i < j < b.len() implies precedes(
        #[trigger] b[i].time_stamp,
        b[i].id,
        #[trigger] b[j].time_stamp,
        b[j].id,
    ) by {
        assert(a[i].id == b[i].id && a[j].id == b[j].id);
        assert(precedes(a[i].time_stamp, a[i].id, a[j].time_stamp, a[j].id));
    }
    assert forall|i: int, j: int| 0 <= i < j < b.len() implies #[trigger] b[i].id
        != #[trigger] b[j].id by {
        assert(a[i].id == b[i].id && a[j].id == b[j].id);
    }
}

/// Records a new game played at `time_stamp` under identifier `id`, at its
/// place in chronological order, and replays the history from there so that
/// it and every later game are rated anew. Returns the game's position.
///
/// `Err(BadRequest)`: the entries are empty or name a deck twice, or a game
/// with that identifier exists; nothing changes then.
pub fn create_game<R: Copy, F: Fn(&Vec<Participant<R>>) -> Vec<R>>(
    games: &mut Vec<Game<R>>,
    id: i32,
    time_stamp: i64,
    requests: &Vec<ParticipantRequest>,
    default: R,
    engine: F,
) -> (r: Result<usize, ApiError>)
    requires
        well_formed(history_view(old(games)@)),
        forall|v: Vec<Participant<R>>| engine.requires((&v,)),
        forall|v: Vec<Participant<R>>, out: Vec<R>|
            #[trigger] engine.ensures((&v,), out) ==> out@.len() == v@.len(),
    ensures
        well_formed(history_view(final(games)@)),
        r is Err <==> (!valid_request(requests@) || exists|i: int|
            0 <= i < old(games)@.len() && (#[trigger] old(games)@[i]).id == id),
        r is Err ==> r == Err::<usize, ApiError>(ApiError::BadRequest) && history_view(
            final(games)@,
        ) == history_view(old(games)@),
        match r {
            Ok(k) => {
                &&& k <= old(games)@.len()
                &&& forall|i: int|
                    0 <= i < k ==> precedes(
                        (#[trigger] old(games)@[i]).time_stamp,
                        old(games)@[i].id,
                        time_stamp,
                        id,
                    )
                &&& forall|i: int|
                    k <= i < old(games)@.len() ==> precedes(
                        time_stamp,
                        id,
                        (#[trigger] old(games)@[i]).time_stamp,
                        old(games)@[i].id,
                    )
                &&& replayed_from(
                    history_view(final(games)@),
                    history_view(old(games)@).insert(
                        k as int,
                        GameView { id, time_stamp, participants: entries_for(id, requests@, default) },
                    ),
                    k as int,
                    engine,
                    default,
                )
            },
            Err(_) => true,
        },
{
    let ghost old_h = history_view(games@);
    if !check_request(requests) {
        return Err(ApiError::BadRequest);
    }
    match find_game(games, id) {
        Some(_) => {
            return Err(ApiError::BadRequest);
        },
        None => {},
    }
    let k = insertion_point(games, time_stamp, id);
    let participants = new_participants(id, requests, default);
    let ghost gv = GameView { id, time_stamp, participants: participants@ };
    games.insert(k, Game { id, time_stamp, participants });
    let ghost mid = history_view(games@);
    proof {
        assert(mid =~= old_h.insert(k as int, gv));
        assert forall|i: int| k <= i < old_h.len() implies precedes(
            time_stamp,
            id,
            (#[trigger] old_h[i]).time_stamp,
            old_h[i].id,
        ) by {
            assert(old_h[i] == games@[i + 1]@);
        }
        assert forall|i: int, j: int| 0 <= i < j < mid.len() implies precedes(
            #[trigger] mid[i].time_stamp,
            mid[i].id,
            #[trigger] mid[j].time_stamp,
            mid[j].id,
        ) && mid[i].id != mid[j].id by {
            if j < k {
                assert(mid[i] == old_h[i] && mid[j] == old_h[j]);
            } else if j == k {
                assert(mid[i] == old_h[i]);
            } else if i == k {
                assert(mid[j] == old_h[j - 1]);
            } else if i < k {
                assert(mid[i] == old_h[i] && mid[j] == old_h[j - 1]);
            } else {
                assert(mid[i] == old_h[i - 1] && mid[j] == old_h[j - 1]);
            }
        }
    }
    match replay_from(games, k, default, engine) {
        Ok(()) => {},
        Err(e) => {
            proof {
                lemma_no_misrating(engine, history_view(games@), e as int, default);
            }
            return Err(ApiError::InternalServerError);
        },
    }
    proof {
        assert forall|i: int| 0 <= i < mid.len() implies (#[trigger] mid[i]).id == history_view(
            games@,
        )[i].id && mid[i].time_stamp == history_view(games@)[i].time_stamp by {
            assert(same_game(history_view(games@)[i], mid[i]));
        }
        lemma_well_formed_same_keys(mid, history_view(games@));
        assert forall|i: int| 0 <= i < k implies precedes(
            (#[trigger] old(games)@[i]).time_stamp,
            old(games)@[i].id,
            time_stamp,
            id,
        ) by {}
    }
    Ok(k)
}

/// Replaces the entries of the game with identifier `id` and replays the
/// history from that game on.
///
/// `Err(NotFound)`: no game has that identifier. `Err(BadRequest)`: the
/// entries are empty or name a deck twice. Nothing changes on an error.
pub fn update_game<R: Copy, F: Fn(&Vec<Participant<R>>) -> Vec<R>>(
    games: &mut Vec<Game<R>>,
    id: i32,
    requests: &Vec<ParticipantRequest>,
    default: R,
    engine: F,
) -> (r: Result<(), ApiError>)
    requires
        well_formed(history_view(old(games)@)),
        forall|v: Vec<Participant<R>>| engine.requires((&v,)),
        forall|v: Vec<Participant<R>>, out: Vec<R>|
            #[trigger] engine.ensures((&v,), out) ==> out@.len() == v@.len(),
    ensures
        well_formed(history_view(final(games)@)),
        r == Err::<(), ApiError>(ApiError::NotFound) <==> forall|i: int|
            0 <= i < old(games)@.len() ==> (#[trigger] old(games)@[i]).id != id,
        r == Err::<(), ApiError>(ApiError::BadRequest) <==> (exists|i: int|
            0 <= i < old(games)@.len() && (#[trigger] old(games)@[i]).id == id) && !valid_request(
            requests@,
        ),
        r is Ok <==> (exists|i: int|
            0 <= i < old(games)@.len() && (#[trigger] old(games)@[i]).id == id) && valid_request(
            requests@,
        ),
        r is Err ==> history_view(final(games)@) == history_view(old(games)@),
        r is Ok ==> forall|k: int|
            0 <= k < old(games)@.len() && (#[trigger] old(games)@[k]).id == id ==> replayed_from(
                history_view(final(games)@),
                history_view(old(games)@).update(
                    k,
                    GameView {
                        id,
                        time_stamp: old(games)@[k].time_stamp,
                        participants: entries_for(id, requests@, default),
                    },
                ),
                k,
                engine,
                default,
            ),
{
    let ghost old_h = history_view(games@);
    let k = match find_game(games, id) {
        Some(k) => k,
        None => {
            return Err(ApiError::NotFound);
        },
    };
    if !check_request(requests) {
        return Err(ApiError::BadRequest);
    }
    let participants = new_participants(id, requests, default);
    let time_stamp = games[k].time_stamp;
    let ghost gv = GameView { id, time_stamp, participants: participants@ };
    games[k] = Game { id, time_stamp, participants };
    let ghost mid = history_view(games@);
    proof {
        assert(mid =~= old_h.update(k as int, gv));
        assert forall|i: int| 0 <= i < mid.len() implies (#[trigger] old_h[i]).id == mid[i].id
            && old_h[i].time_stamp == mid[i].time_stamp by {
            if i != k {
                assert(old_h[i] == mid[i]);
            }
        }
        lemma_well_formed_same_keys(old_h, mid);
    }
    match replay_from(games, k, default, engine) {
        Ok(()) => {},
        Err(e) => {
            proof {
                lemma_no_misrating(engine, history_view(games@), e as int, default);
            }
            return Err(ApiError::InternalServerError);
        },
    }
    proof {
        assert forall|i: int| 0 <= i < mid.len() implies (#[trigger] mid[i]).id == history_view(
            games@,
        )[i].id && mid[i].time_stamp == history_view(games@)[i].time_stamp by {
            assert(same_game(history_view(games@)[i], mid[i]));
        }
        lemma_well_formed_same_keys(mid, history_view(games@));
        assert forall|j: int|
            0 <= j < old(games)@.len() && (#[trigger] old(games)@[j]).id == id implies j == k by {
            if j != k {
                assert(old_h[j].id == old_h[k as int].id);
            }
        }
    }
    Ok(())
}

/// Deletes the game with identifier `id` and replays the history from the
/// game that followed it.
///
/// `Err(NotFound)`: no game has that identifier; nothing changes then.
pub fn delete_game<R: Copy, F: Fn(&Vec<Participant<R>>) -> Vec<R>>(
    games: &mut Vec<Game<R>>,
    id: i32,
    default: R,
    engine: F,
) -> (r: Result<(), ApiError>)
    requires
        well_formed(history_view(old(games)@)),
        forall|v: Vec<Participant<R>>| engine.requires((&v,)),
        forall|v: Vec<Participant<R>>, out: Vec<R>|
            #[trigger] engine.ensures((&v,), out) ==> out@.len() == v@.len(),
    ensures
        well_formed(history_view(final(games)@)),
        r is Err <==> forall|i: int|
            0 <= i < old(games)@.len() ==> (#[trigger] old(games)@[i]).id != id,
        r is Err ==> r == Err::<(), ApiError>(ApiError::NotFound) && history_view(final(games)@)
            == history_view(old(games)@),
        r is Ok ==> forall|k: int|
            0 <= k < old(games)@.len() && (#[trigger] old(games)@[k]).id == id ==> replayed_from(
                history_view(final(games)@),
                history_view(old(games)@).remove(k),
                k,
                engine,
                default,
            ),
{
    let ghost old_h = history_view(games@);
    let k = match find_game(games, id) {
        Some(k) => k,
        None => {
            return Err(ApiError::NotFound);
        },
    };
    games.remove(k);
    let ghost mid = history_view(games@);
    proof {
        assert(mid =~= old_h.remove(k as int));
        assert forall|i: int, j: int| 0 <= i < j < mid.len() implies precedes(
            #[trigger] mid[i].time_stamp,
            mid[i].id,
            #[trigger] mid[j].time_stamp,
            mid[j].id,
        ) && mid[i].id != mid[j].id by {
            let oi = if i < k { i } else { i + 1 };
            let oj = if j < k { j } else { j + 1 };
            assert(mid[i] == old_h[oi] && mid[j] == old_h[oj]);
        }
    }
    match replay_from(games, k, default, engine) {
        Ok(()) => {},
        Err(e) => {
            proof {
                lemma_no_misrating(engine, history_view(games@), e as int, default);
            }
            return Err(ApiError::InternalServerError);
        },
    }
    proof {
        assert forall|i: int| 0 <= i < mid.len() implies (#[trigger] mid[i]).id == history_view(
            games@,
        )[i].id && mid[i].time_stamp == history_view(games@)[i].time_stamp by {
            assert(same_game(history_view(games@)[i], mid[i]));
        }
        lemma_well_formed_same_keys(mid, history_view(games@));
        assert forall|j: int|
            0 <= j < old(games)@.len() && (#[trigger] old(games)@[j]).id == id implies j == k by {
            if j != k {
                assert(old_h[j].id == old_h[k as int].id);
            }
        }
    }
    Ok(())
}

} // verus!
