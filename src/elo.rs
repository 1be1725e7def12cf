//! The rating engine's decisions: who is paired with whom inside one game,
//! and with which outcome.
//!
//! Every participant is paired with every other deck of the game, in the
//! order of a nested loop over the participant list (outer loop over the
//! subject, inner loop over the opponent). A pair in which the subject won
//! and the opponent lost is a win for the subject, the reverse a loss, and a
//! pair of two winners a draw. Two losers exchange nothing. The caller adds
//! `K * (score - expected) / win_count` to the subject's rating for each
//! pairing, in the order given.
use vstd::prelude::*;

verus! {

/// The impact constant (K-factor) of the rating formula.
pub const DEFAULT_IMPACT: u32 = 40;

/// The rating of a deck that has not played yet.
pub const DEFAULT_ELO: u32 = 1000;

/// Outcome of one participant against one opponent.
#[allow(non_camel_case_types, clippy::upper_case_acronyms)]
#[derive(Clone, Copy, Debug, PartialEq, Eq, Structural)]
pub enum GameOutcome {
    WIN,
    LOSE,
    DRAW,
}

impl GameOutcome {
    /// The score of the outcome counted in half points: a win is worth two
    /// half points, a draw one, a loss none.
    pub open spec fn half_points_spec(self) -> nat {
        match self {
            GameOutcome::WIN => 2,
            GameOutcome::DRAW => 1,
            GameOutcome::LOSE => 0,
        }
    }

    /// The score of the outcome in half points (the score itself is half of it).
    pub fn half_points(&self) -> (r: u8)
        ensures
            r as nat == self.half_points_spec(),
    {
        match self {
            GameOutcome::WIN => 2,
            GameOutcome::DRAW => 1,
            GameOutcome::LOSE => 0,
        }
    }

    /// The outcome seen from the other side of the same pair.
    pub open spec fn mirror_spec(self) -> GameOutcome {
        match self {
            GameOutcome::WIN => GameOutcome::LOSE,
            GameOutcome::DRAW => GameOutcome::DRAW,
            GameOutcome::LOSE => GameOutcome::WIN,
        }
    }

    /// The outcome seen from the other side of the same pair.
    pub fn mirror(&self) -> (r: GameOutcome)
        ensures
            r == self.mirror_spec(),
    {
        match self {
            GameOutcome::WIN => GameOutcome::LOSE,
            GameOutcome::DRAW => GameOutcome::DRAW,
            GameOutcome::LOSE => GameOutcome::WIN,
        }
    }
}

/// What a subject scores against one opponent, given whether each of them
/// won the game: `None` when both lost, in which case nothing is exchanged.
pub open spec fn pairwise_outcome(subject_won: bool, opponent_won: bool) -> Option<GameOutcome> {
    if subject_won && opponent_won {
        Some(GameOutcome::DRAW)
    } else if subject_won {
        Some(GameOutcome::WIN)
    } else if opponent_won {
        Some(GameOutcome::LOSE)
    } else {
        None
    }
}

/// What a subject scores against one opponent (see [`pairwise_outcome`]).
pub fn outcome_against(subject_won: bool, opponent_won: bool) -> (r: Option<GameOutcome>)
    ensures
        r == pairwise_outcome(subject_won, opponent_won),
{
    if subject_won && opponent_won {
        Some(GameOutcome::DRAW)
    } else if subject_won {
        Some(GameOutcome::WIN)
    } else if opponent_won {
        Some(GameOutcome::LOSE)
    } else {
        None
    }
}

/// One deck's entry in one game. `elo` is a rating: the rating before the
/// game when the entry is handed to the engine, the rating after it once the
/// engine has run. `id` is unset until the entry is stored.
#[derive(Clone, Copy, Debug)]
pub struct Participant<R> {
    pub id: Option<i32>,
    pub game_id: i32,
    pub deck_id: i32,
    pub win: bool,
    pub elo: R,
}

impl<R: Copy> Participant<R> {
    /// An entry that has not been stored yet.
    pub fn new(game_id: i32, deck_id: i32, win: bool, elo: R) -> (r: Participant<R>)
        ensures
            r == (Participant { id: None, game_id, deck_id, win, elo }),
    {
        Participant { id: None, game_id, deck_id, win, elo }
    }

    /// The same entry with another rating.
    pub fn with_elo(&self, elo: R) -> (r: Participant<R>)
        ensures
            r == (Participant { elo, ..*self }),
    {
        Participant {
            id: self.id,
            game_id: self.game_id,
            deck_id: self.deck_id,
            win: self.win,
            elo,
        }
    }

    /// The rated entity: the deck.
    pub fn get_unique_id(&self) -> (r: i32)
        ensures
            r == self.deck_id,
    {
        self.deck_id
    }

    pub fn get_win(&self) -> (r: bool)
        ensures
            r == self.win,
    {
        self.win
    }

    pub fn get_elo(&self) -> (r: R)
        ensures
            r == self.elo,
    {
        self.elo
    }
}

/// The number of winners among the participants.
pub open spec fn winners<R>(ps: Seq<Participant<R>>) -> nat
    decreases ps.len(),
{
    if ps.len() == 0 {
        0
    } else {
        winners(ps.drop_last()) + if ps.last().win {
            1nat
        } else {
            0nat
        }
    }
}

/// The number of winners among the participants.
pub fn win_count<R>(ps: &Vec<Participant<R>>) -> (r: usize)
    ensures
        r == winners(ps@),
{
    let mut count: usize = 0;
    let mut i: usize = 0;
    while i < ps.len()
        invariant
            0 <= i <= ps@.len(),
            count == winners(ps@.subrange(0, i as int)),
            count <= i,
        decreases ps@.len() - i,
    {
        proof {
            assert(ps@.subrange(0, i + 1).drop_last() =~= ps@.subrange(0, i as int));
        }
        if ps[i].win {
            count = count + 1;
        }
        i = i + 1;
    }
    proof {
        assert(ps@.subrange(0, ps@.len() as int) =~= ps@);
    }
    count
}

/// One exchange of rating points: `subject` (an index into the game's
/// participant list) scores `outcome` against `opponent`.
#[derive(Clone, Copy, Debug, PartialEq, Eq, Structural)]
pub struct Pairing {
    pub subject: usize,
    pub opponent: usize,
    pub outcome: GameOutcome,
}

/// The pairings of subject `i` against the opponents `0..n`, in order.
pub open spec fn row<R>(ps: Seq<Participant<R>>, i: int, n: int) -> Seq<Pairing>
    decreases n,
{
    if n <= 0 {
        Seq::empty()
    } else {
        let prev = row(ps, i, n - 1);
        let j = n - 1;
        if ps[i].deck_id != ps[j].deck_id {
            match pairwise_outcome(ps[i].win, ps[j].win) {
                Some(o) => prev.push(Pairing { subject: i as usize, opponent: j as usize, outcome: o }),
                None => prev,
            }
        } else {
            prev
        }
    }
}

/// The pairings of the subjects `0..m` against every participant, subject
/// by subject.
pub open spec fn schedule<R>(ps: Seq<Participant<R>>, m: int) -> Seq<Pairing>
    decreases m,
{
    if m <= 0 {
        Seq::empty()
    } else {
        schedule(ps, m - 1) + row(ps, m - 1, ps.len() as int)
    }
}

/// Every exchange of rating points in a game, in the order in which they are
/// to be accumulated.
pub open spec fn game_schedule<R>(ps: Seq<Participant<R>>) -> Seq<Pairing> {
    schedule(ps, ps.len() as int)
}

/// The pairings of a game, subject by subject and, for each subject,
/// opponent by opponent in list order.
pub fn pairings<R>(ps: &Vec<Participant<R>>) -> (r: Vec<Pairing>)
    ensures
        r@ == game_schedule(ps@),
{
    let n = ps.len();
    let mut r: Vec<Pairing> = Vec::new();
    let mut i: usize = 0;
    while i < n
        invariant
            n == ps@.len(),
            0 <= i <= n,
            r@ == schedule(ps@, i as int),
        decreases n - i,
    {
        let mut j: usize = 0;
        while j < n
            invariant
                n == ps@.len(),
                0 <= i < n,
                0 <= j <= n,
                r@ == schedule(ps@, i as int) + row(ps@, i as int, j as int),
            decreases n - j,
        {
            let ghost before = r@;
            if ps[i].deck_id != ps[j].deck_id {
                match outcome_against(ps[i].win, ps[j].win) {
                    Some(o) => {
                        r.push(Pairing { subject: i, opponent: j, outcome: o });
                    },
                    None => {},
                }
            }
            proof {
                let s = schedule(ps@, i as int);
                let rw = row(ps@, i as int, j as int);
                assert(before == s + rw);
                if ps@[i as int].deck_id != ps@[j as int].deck_id {
                    match pairwise_outcome(ps@[i as int].win, ps@[j as int].win) {
                        Some(o) => {
                            let p = Pairing { subject: i, opponent: j, outcome: o };
                            assert((s + rw).push(p) =~= s + rw.push(p));
                        },
                        None => {},
                    }
                }
            }
            j = j + 1;
        }
        i = i + 1;
    }
    r
}

/// Membership in one subject's row of pairings.
proof fn lemma_row_contains<R>(ps: Seq<Participant<R>>, i: int, n: int, p: Pairing)
    requires
        ps.len() <= usize::MAX,
        0 <= i < ps.len(),
        n <= ps.len(),
    ensures
        row(ps, i, n).contains(p) <==> (p.subject == i && p.opponent < n && ps[i].deck_id
            != ps[p.opponent as int].deck_id && pairwise_outcome(ps[i].win, ps[p.opponent as int].win)
            == Some(p.outcome)),
    decreases n,
{
    if n > 0 {
        lemma_row_contains(ps, i, n - 1, p);
        let prev = row(ps, i, n - 1);
        let j = n - 1;
        if ps[i].deck_id != ps[j].deck_id {
            match pairwise_outcome(ps[i].win, ps[j].win) {
                Some(o) => {
                    let q = Pairing { subject: i as usize, opponent: j as usize, outcome: o };
                    assert(prev.push(q).contains(p) <==> (prev.contains(p) || p == q)) by {
                        if p == q {
                            assert(prev.push(q)[prev.len() as int] == q);
                        }
                        if prev.push(q).contains(p) && p != q {
                            let k = choose|k: int| 0 <= k < prev.push(q).len() && prev.push(q)[k] == p;
                            assert(prev[k] == p);
                        }
                        if prev.contains(p) {
                            let k = choose|k: int| 0 <= k < prev.len() && prev[k] == p;
                            assert(prev.push(q)[k] == p);
                        }
                    }
                },
                None => {},
            }
        }
    }
}

/// Membership in the schedule of the subjects `0..m`.
proof fn lemma_schedule_contains<R>(ps: Seq<Participant<R>>, m: int, p: Pairing)
    requires
        ps.len() <= usize::MAX,
        m <= ps.len(),
    ensures
        schedule(ps, m).contains(p) <==> (p.subject < m && p.opponent < ps.len() && ps[p.subject as int].deck_id
            != ps[p.opponent as int].deck_id && pairwise_outcome(ps[p.subject as int].win, ps[p.opponent as int].win)
            == Some(p.outcome)),
    decreases m,
{
    if m > 0 {
        lemma_schedule_contains(ps, m - 1, p);
        lemma_row_contains(ps, m - 1, ps.len() as int, p);
        let a = schedule(ps, m - 1);
        let b = row(ps, m - 1, ps.len() as int);
        assert((a + b).contains(p) <==> (a.contains(p) || b.contains(p))) by {
            if (a + b).contains(p) {
                let k = choose|k: int| 0 <= k < (a + b).len() && (a + b)[k] == p;
                if k < a.len() {
                    assert(a[k] == p);
                } else {
                    assert(b[k - a.len()] == p);
                }
            }
            if a.contains(p) {
                let k = choose|k: int| 0 <= k < a.len() && a[k] == p;
                assert((a + b)[k] == p);
            }
            if b.contains(p) {
                let k = choose|k: int| 0 <= k < b.len() && b[k] == p;
                assert((a + b)[k + a.len()] == p);
            }
        }
    }
}

/// Exactly the pairs of distinct decks with at least one winner exchange
/// points, with the outcome that the pairwise rule gives.
pub proof fn lemma_game_schedule_contains<R>(ps: Seq<Participant<R>>, p: Pairing)
    requires
        ps.len() <= usize::MAX,
    ensures
        game_schedule(ps).contains(p) <==> (p.subject < ps.len() && p.opponent < ps.len()
            && ps[p.subject as int].deck_id != ps[p.opponent as int].deck_id && pairwise_outcome(
            ps[p.subject as int].win,
            ps[p.opponent as int].win,
        ) == Some(p.outcome)),
{
    lemma_schedule_contains(ps, ps.len() as int, p);
}

/// A game without a winner changes no rating: it has no pairing at all.
pub proof fn lemma_no_winner_no_pairing<R>(ps: Seq<Participant<R>>)
    requires
        ps.len() <= usize::MAX,
        winners(ps) == 0,
    ensures
        game_schedule(ps) == Seq::<Pairing>::empty(),
{
    lemma_no_winner_all_lost(ps);
    if game_schedule(ps).len() > 0 {
        let p = game_schedule(ps)[0];
        assert(game_schedule(ps).contains(p));
        lemma_game_schedule_contains(ps, p);
        assert(!ps[p.subject as int].win);
    }
    assert(game_schedule(ps) =~= Seq::<Pairing>::empty());
}

proof fn lemma_no_winner_all_lost<R>(ps: Seq<Participant<R>>)
    requires
        winners(ps) == 0,
    ensures
        forall|i: int| 0 <= i < ps.len() ==> !(#[trigger] ps[i]).win,
    decreases ps.len(),
{
    if ps.len() > 0 {
        lemma_no_winner_all_lost(ps.drop_last());
        assert forall|i: int| 0 <= i < ps.len() implies !(#[trigger] ps[i]).win by {
            if i < ps.len() - 1 {
                assert(ps.drop_last()[i] == ps[i]);
            }
        }
    }
}

/// Every exchange has its mirror: when the subject scores `o` against the
/// opponent, the opponent scores the mirrored outcome against the subject,
/// so the two scores of a pair always add up to one point.
pub proof fn lemma_pairings_are_mirrored<R>(ps: Seq<Participant<R>>, p: Pairing)
    requires
        ps.len() <= usize::MAX,
        game_schedule(ps).contains(p),
    ensures
        game_schedule(ps).contains(
            Pairing { subject: p.opponent, opponent: p.subject, outcome: p.outcome.mirror_spec() },
        ),
        p.outcome.half_points_spec() + p.outcome.mirror_spec().half_points_spec() == 2,
{
    let q = Pairing { subject: p.opponent, opponent: p.subject, outcome: p.outcome.mirror_spec() };
    lemma_game_schedule_contains(ps, p);
    lemma_game_schedule_contains(ps, q);
}

/// Two participants with the same result never take points from each other
/// on account of the result: two winners meet as a draw in both directions,
/// two losers exchange nothing.
pub proof fn lemma_same_result_is_draw<R>(ps: Seq<Participant<R>>, i: usize, j: usize)
    requires
        ps.len() <= usize::MAX,
        i < ps.len(),
        j < ps.len(),
        ps[i as int].deck_id != ps[j as int].deck_id,
        ps[i as int].win == ps[j as int].win,
    ensures
        ps[i as int].win ==> game_schedule(ps).contains(
            Pairing { subject: i, opponent: j, outcome: GameOutcome::DRAW },
        ),
        forall|o: GameOutcome|
            #[trigger] game_schedule(ps).contains(
                Pairing { subject: i, opponent: j, outcome: o },
            ) ==> o == GameOutcome::DRAW,
        !ps[i as int].win ==> forall|o: GameOutcome|
            !#[trigger] game_schedule(ps).contains(
                Pairing { subject: i, opponent: j, outcome: o },
            ),
{
    lemma_game_schedule_contains(
        ps,
        Pairing { subject: i, opponent: j, outcome: GameOutcome::DRAW },
    );
    assert forall|o: GameOutcome|
        #[trigger] game_schedule(ps).contains(
            Pairing { subject: i, opponent: j, outcome: o },
        ) implies o == GameOutcome::DRAW && ps[i as int].win by {
        lemma_game_schedule_contains(ps, Pairing { subject: i, opponent: j, outcome: o });
    }
}

/// A game of two decks is classical two-player Elo: the winner scores a win
/// against the loser, the loser a loss against the winner, and nothing else
/// is exchanged.
pub proof fn lemma_two_player_game<R>(ps: Seq<Participant<R>>)
    requires
        ps.len() == 2,
        ps[0].deck_id != ps[1].deck_id,
        ps[0].win != ps[1].win,
    ensures
        game_schedule(ps) == seq![
            Pairing { subject: 0, opponent: 1, outcome: if ps[0].win { GameOutcome::WIN } else { GameOutcome::LOSE } },
            Pairing { subject: 1, opponent: 0, outcome: if ps[1].win { GameOutcome::WIN } else { GameOutcome::LOSE } },
        ],
{
    reveal_with_fuel(schedule, 3);
    reveal_with_fuel(row, 3);
    assert(game_schedule(ps) =~= seq![
            Pairing { subject: 0, opponent: 1, outcome: if ps[0].win { GameOutcome::WIN } else { GameOutcome::LOSE } },
            Pairing { subject: 1, opponent: 0, outcome: if ps[1].win { GameOutcome::WIN } else { GameOutcome::LOSE } },
        ]);
}

} // verus!
