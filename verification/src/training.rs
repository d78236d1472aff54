//! Self-play: the games a player has with itself, and what is kept of them.
use crate::cache::{is_legal_in, MoveCache};
use crate::engine::{
    law_states_are_known_by_their_games, lemma_starting_bits, lemma_word_squares, opening,
    GameResult, GameState, Move, Side,
};
use crate::games::law_opening_goes_on;
use crate::legality::law_legal_moves_are_proper;
use crate::lessons::lemma_first_report;
use crate::ml::{
    blank_policy, encode_state, features, move_policy_index, slot_of, INPUT_SIZE, POLICY_SIZE,
};
use crate::playouts::{result_value, worth};
use crate::rules::{captures_fit, Game};
use crate::search::{tallied, total, Search, SearchReport};
use crate::single::Single;
pub use crate::cache::{board_hash, CachedMove};
use vstd::prelude::*;

verus! {

/// A player's name in stored samples.
#[derive(Debug, Clone, Copy, PartialEq, Eq, Structural)]
pub enum SideLabel {
    Black,
    Red,
}

/// The label of a player.
pub open spec fn label_of(side: Side) -> SideLabel {
    match side {
        Side::Black => SideLabel::Black,
        Side::Red => SideLabel::Red,
    }
}

impl From<Side> for SideLabel {
    fn from(side: Side) -> (label: Self) {
        match side {
            Side::Black => Self::Black,
            Side::Red => Self::Red,
        }
    }
}

impl vstd::std_specs::convert::FromSpecImpl<Side> for SideLabel {
    open spec fn obeys_from_spec() -> bool {
        true
    }

    open spec fn from_spec(side: Side) -> Self {
        label_of(side)
    }
}

/// One position of a finished game: the network's input, the policy that the search
/// arrived at, the player to move, and what the game was worth for that player.
#[derive(Debug, Clone, PartialEq)]
pub struct ExperienceSample {
    pub state: Vec<Single>,
    pub policy: Vec<Single>,
    pub player: SideLabel,
    pub outcome: Single,
}

/// One position of a game that is still going on.
#[derive(Debug, Clone)]
pub struct PendingSample {
    pub state: Vec<Single>,
    pub policy: Vec<Single>,
    pub player: Side,
}

/// Counters of a training run.
#[derive(Debug, Clone, Copy, PartialEq)]
pub struct TrainingMetrics {
    pub self_play_steps: u64,
    pub replay_positions: usize,
    pub completed_games: u64,
    pub black_wins: u64,
    pub red_wins: u64,
    pub draws: u64,
    pub train_steps: u64,
    pub last_loss: Single,
    pub cached_positions: usize,
}

impl Default for TrainingMetrics {
    fn default() -> (metrics: Self)
        ensures
            metrics == (TrainingMetrics {
                self_play_steps: 0,
                replay_positions: 0,
                completed_games: 0,
                black_wins: 0,
                red_wins: 0,
                draws: 0,
                train_steps: 0,
                last_loss: Single::of_sign(0),
                cached_positions: 0,
            }),
    {
        TrainingMetrics {
            self_play_steps: 0,
            replay_positions: 0,
            completed_games: 0,
            black_wins: 0,
            red_wins: 0,
            draws: 0,
            train_steps: 0,
            last_loss: Single::zero(),
            cached_positions: 0,
        }
    }
}

/// What a result is worth for a player.
pub fn outcome_for(player: Side, result: GameResult) -> (outcome: Single)
    ensures
        outcome == Single::of_sign(worth(result, player)),
{
    result_value(result, player)
}

/// The number of visits of all moves together.
pub open spec fn visit_total(visits: Seq<(Move, u32)>) -> int
    decreases visits.len(),
{
    if visits.len() == 0 {
        0
    } else {
        visit_total(visits.drop_last()) + visits.last().1
    }
}

/// The policy after the shares of the first `n` moves were entered, each into the
/// slot of its move. A later entry replaces an earlier one in the same slot.
pub open spec fn entered(visits: Seq<(Move, u32)>, shares: Seq<Single>, n: nat) -> Seq<Single>
    decreases n,
{
    if n == 0 {
        Seq::new(POLICY_SIZE as nat, |slot: int| Single::of_sign(0))
    } else {
        let mv = visits[n - 1].0;
        entered(visits, shares, (n - 1) as nat).update(
            slot_of(mv.from as int, mv.to as int),
            shares[n - 1],
        )
    }
}

/// The policy of a search: the share of each move in its slot, or nothing at all if
/// no move was visited.
pub open spec fn policy_of(visits: Seq<(Move, u32)>, shares: Seq<Single>) -> Seq<Single> {
    entered(
        visits,
        shares,
        if visit_total(visits) == 0 {
            0
        } else {
            visits.len()
        },
    )
}

/// Whether the moves have slots in a policy.
pub open spec fn have_slots(visits: Seq<(Move, u32)>) -> bool {
    forall|i: int|
        0 <= i < visits.len() ==> slot_of(
            (#[trigger] visits[i]).0.from as int,
            visits[i].0.to as int,
        ) < POLICY_SIZE
}

/// Whether `shares` holds what `share` gives for each move, from its visits and those of
/// all moves together.
pub open spec fn are_shares<D: Fn(u32, u32) -> Single>(
    visits: Seq<(Move, u32)>,
    shares: Seq<Single>,
    share: D,
) -> bool {
    &&& shares.len() == visits.len()
    &&& visit_total(visits) > 0 ==> forall|i: int|
        0 <= i < visits.len() ==> call_ensures(
            share,
            (visits[i].1, visit_total(visits) as u32),
            #[trigger] shares[i],
        )
}

/// The number of visits of all moves together.
fn count_visits(visits: &Vec<(Move, u32)>) -> (count: u32)
    requires
        visit_total(visits@) <= u32::MAX,
    ensures
        count == visit_total(visits@),
{
    let mut count: u32 = 0;
    let mut i: usize = 0;
    while i < visits.len()
        invariant
            i <= visits@.len(),
            visit_total(visits@) <= u32::MAX,
            count == visit_total(visits@.take(i as int)),
        decreases visits.len() - i,
    {
        proof {
            assert(visits@.take(i + 1).drop_last() =~= visits@.take(i as int));
            lemma_visits_grow(visits@, i + 1);
        }
        count = count + visits[i].1;
        i += 1;
    }
    assert(visits@.take(i as int) =~= visits@);
    count
}

/// The visits of the first moves are no more than those of all.
proof fn lemma_visits_grow(visits: Seq<(Move, u32)>, n: int)
    requires
        0 <= n <= visits.len(),
    ensures
        0 <= visit_total(visits.take(n)) <= visit_total(visits),
    decreases visits.len(),
{
    if n == visits.len() {
        assert(visits.take(n) =~= visits);
        if n > 0 {
            lemma_visits_grow(visits.drop_last(), n - 1);
        }
    } else {
        assert(visits.drop_last().take(n) =~= visits.take(n));
        lemma_visits_grow(visits.drop_last(), n);
    }
}

/// The policy of a search. `share` divides the visits of a move by those of all moves.
pub fn visit_policy<D: Fn(u32, u32) -> Single>(visits: &Vec<(Move, u32)>, share: &D) -> (policy:
    Vec<Single>)
    requires
        visit_total(visits@) <= u32::MAX,
        visit_total(visits@) > 0 ==> have_slots(visits@),
        forall|part: u32, whole: u32| whole > 0 ==> call_requires(*share, (part, whole)),
    ensures
        exists|shares: Seq<Single>|
            {
                &&& #[trigger] are_shares(visits@, shares, *share)
                &&& policy@ == policy_of(visits@, shares)
            },
{
    let mut policy = blank_policy();
    let total: u32 = count_visits(visits);
    if total == 0 {
        proof {
            let shares = Seq::new(visits@.len(), |i: int| Single::of_sign(0));
            assert(are_shares(visits@, shares, *share));
        }
        return policy;
    }
    let ghost mut shares: Seq<Single> = Seq::empty();
    let mut i: usize = 0;
    while i < visits.len()
        invariant
            i <= visits@.len(),
            shares.len() == i,
            total == visit_total(visits@),
            total > 0,
            policy@.len() == POLICY_SIZE,
            have_slots(visits@),
            forall|part: u32, whole: u32| whole > 0 ==> call_requires(*share, (part, whole)),
            forall|k: int|
                0 <= k < i ==> call_ensures(*share, (visits@[k].1, total), #[trigger] shares[k]),
            policy@ == entered(visits@, shares, i as nat),
        decreases visits.len() - i,
    {
        let (mv, visits_of_move) = visits[i];
        let part: Single = share(visits_of_move, total);
        proof {
            lemma_entered_prefix(visits@, shares, part, i as nat);
            shares = shares.push(part);
        }
        policy.set(move_policy_index(mv.from, mv.to), part);
        i += 1;
    }
    assert(are_shares(visits@, shares, *share));
    policy
}

/// What is entered first does not depend on the later shares.
proof fn lemma_entered_prefix(
    visits: Seq<(Move, u32)>,
    shares: Seq<Single>,
    part: Single,
    n: nat,
)
    requires
        n <= shares.len(),
    ensures
        entered(visits, shares.push(part), n) == entered(visits, shares, n),
    decreases n,
{
    if n > 0 {
        lemma_entered_prefix(visits, shares, part, (n - 1) as nat);
    }
}

/// The contents of a [`PendingSample`].
pub struct Lesson {
    pub state: Seq<Single>,
    pub policy: Seq<Single>,
    pub player: Side,
}

impl View for PendingSample {
    type V = Lesson;

    open spec fn view(&self) -> Lesson {
        Lesson { state: self.state@, policy: self.policy@, player: self.player }
    }
}

/// The contents of an [`ExperienceSample`].
pub struct Experience {
    pub state: Seq<Single>,
    pub policy: Seq<Single>,
    pub player: SideLabel,
    pub outcome: Single,
}

impl View for ExperienceSample {
    type V = Experience;

    open spec fn view(&self) -> Experience {
        Experience {
            state: self.state@,
            policy: self.policy@,
            player: self.player,
            outcome: self.outcome,
        }
    }
}

/// What a position of a game becomes when the game is over.
pub open spec fn judged(lesson: Lesson, result: GameResult) -> Experience {
    Experience {
        state: lesson.state,
        policy: lesson.policy,
        player: label_of(lesson.player),
        outcome: Single::of_sign(worth(result, lesson.player)),
    }
}

/// What is cached of a search that found a move.
pub open spec fn cached_of(mv: Move, report: SearchReport) -> CachedMove {
    CachedMove {
        best_move: mv,
        value: report.value,
        visits: if report.visits@.len() > 0 {
            report.visits@[0].1
        } else {
            1
        },
    }
}

/// Whether a report belongs to a game: it names a legal move, unless there is none or the
/// legal moves cannot be listed.
pub open spec fn reports_on(g: Game, report: SearchReport) -> bool {
    match report.best_move {
        Some(mv) => is_legal_in(g, mv),
        None => !captures_fit(g.position, g.turn) || g.moves().len() == 0,
    }
}

/// A game and the games after each of its legal moves.
pub open spec fn ahead(g: Game) -> Seq<Game> {
    seq![g] + g.moves().map_values(|mv: Move| g.play(mv))
}

/// Whether states stand for games, one by one.
pub open spec fn stand_for(states: Seq<GameState>, games: Seq<Game>) -> bool {
    &&& states.len() == games.len()
    &&& forall|i: int| 0 <= i < states.len() ==> (#[trigger] states[i])@ == games[i]
}

/// What is remembered after reports on positions came in: a position that is known
/// already keeps its move, and a report without a move adds nothing.
pub open spec fn learned(
    known: Map<GameState, CachedMove>,
    positions: Seq<GameState>,
    reports: Seq<SearchReport>,
    n: nat,
) -> Map<GameState, CachedMove>
    decreases n,
{
    if n == 0 {
        known
    } else {
        let before = learned(known, positions, reports, (n - 1) as nat);
        let position = positions[n - 1];
        match reports[n - 1].best_move {
            Some(mv) => if before.contains_key(position) {
                before
            } else {
                before.insert(position, cached_of(mv, reports[n - 1]))
            },
            None => before,
        }
    }
}

/// The positions that a player has to be ready for in a position: itself, and the one
/// after each legal move.
pub fn positions_ahead(state: GameState) -> (positions: Vec<GameState>)
    requires
        captures_fit(state@.position, state.turn),
        state@.moves().len() > 0 ==> state.halfmoves < u16::MAX,
    ensures
        stand_for(positions@, ahead(state@)),
        positions@.len() == state@.moves().len() + 1,
        positions@[0] == state,
        forall|i: int|
            0 < i < positions@.len() ==> (#[trigger] positions@[i])@ == state@.play(
                state@.moves()[i - 1],
            ),
{
    let moves = state.legal_moves();
    let mut positions: Vec<GameState> = Vec::new();
    positions.push(state);
    let mut i: usize = 0;
    while i < moves.len()
        invariant
            i <= moves@.len(),
            positions@.len() == i + 1,
            moves@ == state@.moves(),
            captures_fit(state@.position, state.turn),
            moves@.len() > 0 ==> state.halfmoves < u16::MAX,
            positions@[0] == state,
            forall|k: int| 0 <= k <= i ==> (#[trigger] positions@[k])@ == ahead(state@)[k],
        decreases moves.len() - i,
    {
        let mv = moves[i];
        proof {
            lemma_word_squares(state.board);
            assert(state@.moves().contains(mv));
            law_legal_moves_are_proper(state@.position, state.turn, mv);
        }
        positions.push(state.apply(mv));
        i += 1;
    }
    positions
}

/// The counters after a game has ended.
pub open spec fn scored(metrics: TrainingMetrics, result: GameResult) -> TrainingMetrics {
    TrainingMetrics {
        completed_games: (metrics.completed_games + 1) as u64,
        black_wins: if result == GameResult::Winner(Side::Black) {
            (metrics.black_wins + 1) as u64
        } else {
            metrics.black_wins
        },
        red_wins: if result == GameResult::Winner(Side::Red) {
            (metrics.red_wins + 1) as u64
        } else {
            metrics.red_wins
        },
        draws: if result is Draw {
            (metrics.draws + 1) as u64
        } else {
            metrics.draws
        },
        ..metrics
    }
}

/// The samples that a training step learns from: the inputs, the policies and the
/// outcomes, in the order of the samples.
#[derive(Debug, Clone)]
pub struct TrainingBatch {
    pub states: Vec<Vec<Single>>,
    pub policies: Vec<Vec<Single>>,
    pub values: Vec<Single>,
}

/// The number of samples in a training step.
pub const BATCH_SIZE: usize = 16;

/// The number of legal moves that are searched ahead.
pub const LOOKAHEAD: usize = 3;

/// The number of self-play steps between two savings of the replay buffer.
pub const SAVE_INTERVAL: u64 = 50;

/// A player's games with itself.
#[derive(Debug, Clone)]
pub struct SelfPlayTrainer {
    /// The game under way.
    pub game: GameState,
    /// The positions of finished games.
    pub replay: Vec<ExperienceSample>,
    /// The positions of the game under way.
    pub pending: Vec<PendingSample>,
    /// The counters; those of the samples and of the cache are filled in when asked for.
    pub counters: TrainingMetrics,
    /// The moves found so far, by position.
    pub move_cache: MoveCache,
    /// How often the latest search of a step tried each move.
    pub latest_visits: Vec<(Move, u32)>,
}

impl Default for SelfPlayTrainer {
    fn default() -> (trainer: Self)
        ensures
            trainer.wf(),
            trainer.keeps_pace(),
            trainer.game == GameState::fresh(),
            trainer.replay@.len() == 0,
            trainer.pending@.len() == 0,
            trainer.remembered() == Map::<GameState, CachedMove>::empty(),
            trainer.latest_visits@.len() == 0,
            trainer.counters == (TrainingMetrics {
                self_play_steps: 0,
                replay_positions: 0,
                completed_games: 0,
                black_wins: 0,
                red_wins: 0,
                draws: 0,
                train_steps: 0,
                last_loss: Single::of_sign(0),
                cached_positions: 0,
            }),
    {
        Self::new()
    }
}

impl SelfPlayTrainer {
    /// The positions of the game under way.
    pub open spec fn lessons(self) -> Seq<Lesson> {
        self.pending@.map_values(|sample: PendingSample| sample@)
    }

    /// The positions of finished games.
    pub open spec fn experience(self) -> Seq<Experience> {
        self.replay@.map_values(|sample: ExperienceSample| sample@)
    }

    /// The moves found so far.
    pub open spec fn remembered(self) -> Map<GameState, CachedMove> {
        self.move_cache@
    }

    /// Every finished game was won by one side or drawn, the samples of the game
    /// under way have the sizes of the network's input and output, and every
    /// remembered move is legal in its position.
    pub open spec fn wf(self) -> bool {
        &&& self.counters.completed_games == self.counters.black_wins + self.counters.red_wins
            + self.counters.draws
        &&& forall|i: int|
            0 <= i < self.pending@.len() ==> (#[trigger] self.pending@[i]).state@.len()
                == INPUT_SIZE && self.pending@[i].policy@.len() == POLICY_SIZE
        &&& self.move_cache.wf()
    }

    /// Whether one position was kept for each move of the game under way.
    pub open spec fn keeps_pace(self) -> bool {
        self.pending@.len() == self.game.halfmoves
    }

    /// A trainer at the start of its first game.
    pub fn new() -> (trainer: Self)
        ensures
            trainer.wf(),
            trainer.keeps_pace(),
            trainer.game == GameState::fresh(),
            trainer.replay@.len() == 0,
            trainer.pending@.len() == 0,
            trainer.remembered() == Map::<GameState, CachedMove>::empty(),
            trainer.latest_visits@.len() == 0,
            trainer.counters == (TrainingMetrics {
                self_play_steps: 0,
                replay_positions: 0,
                completed_games: 0,
                black_wins: 0,
                red_wins: 0,
                draws: 0,
                train_steps: 0,
                last_loss: Single::of_sign(0),
                cached_positions: 0,
            }),
    {
        Self {
            game: GameState::new(),
            replay: Vec::new(),
            pending: Vec::new(),
            counters: TrainingMetrics::default(),
            move_cache: MoveCache::new(),
            latest_visits: Vec::new(),
        }
    }

    /// Takes over samples that were saved earlier.
    pub fn restore_replay(&mut self, replay: Vec<ExperienceSample>)
        requires
            old(self).wf(),
        ensures
            final(self).wf(),
            *final(self) == (SelfPlayTrainer {
                replay,
                counters: TrainingMetrics {
                    replay_positions: replay.len(),
                    ..old(self).counters
                },
                ..*old(self)
            }),
    {
        self.counters.replay_positions = replay.len();
        self.replay = replay;
    }

    /// The counters of the run.
    pub fn metrics(&self) -> (metrics: TrainingMetrics)
        requires
            self.wf(),
        ensures
            metrics == (TrainingMetrics {
                replay_positions: self.replay.len(),
                cached_positions: metrics.cached_positions,
                ..self.counters
            }),
            metrics.cached_positions == self.remembered().dom().len(),
    {
        TrainingMetrics {
            replay_positions: self.replay.len(),
            cached_positions: self.move_cache.len(),
            ..self.counters
        }
    }

    /// What is known of a position: the report of an earlier search on it, as far as it
    /// was remembered, if there was one.
    pub open spec fn knows(self, state: GameState, known: Option<SearchReport>) -> bool {
        match known {
            Some(report) => {
                let cached = self.remembered()[state];
                &&& self.remembered().contains_key(state)
                &&& report.best_move == Some(cached.best_move)
                &&& report.value == cached.value
                &&& report.simulations == 0
                &&& report.visits@ == seq![(cached.best_move, cached.visits)]
            },
            None => !self.remembered().contains_key(state),
        }
    }

    /// What the beginning of a step leaves behind: a finished game is put away for a new
    /// one, and the report is what is known of the position.
    pub open spec fn begun(self, next: SelfPlayTrainer, known: Option<SearchReport>) -> bool {
        &&& next == (SelfPlayTrainer { game: next.game, pending: next.pending, ..self })
        &&& if self.game@.outcome() is Some {
            next.game == GameState::fresh() && next.pending@.len() == 0
        } else {
            next.game == self.game && next.pending == self.pending
        }
        &&& next.knows(next.game, known)
    }

    /// The report of an earlier search on a position, if there was one.
    pub fn known_report(&self, state: GameState) -> (known: Option<SearchReport>)
        requires
            self.wf(),
        ensures
            self.knows(state, known),
            known matches Some(report) ==> reports_on(state@, report),
    {
        match self.move_cache.get(state) {
            Some(cached) => {
                let mut visits: Vec<(Move, u32)> = Vec::new();
                visits.push((cached.best_move, cached.visits));
                assert(visits@ =~= seq![(cached.best_move, cached.visits)]);
                Some(
                    SearchReport {
                        best_move: Some(cached.best_move),
                        value: cached.value,
                        simulations: 0,
                        visits,
                    },
                )
            },
            None => None,
        }
    }

    /// Begins a self-play step; see [`SelfPlayTrainer::begun`]. If nothing is known of the
    /// position, it has to be searched.
    pub fn begin_step(&mut self) -> (known: Option<SearchReport>)
        requires
            old(self).wf(),
            old(self).game@.judgeable(),
        ensures
            final(self).wf(),
            old(self).keeps_pace() ==> final(self).keeps_pace(),
            old(self).begun(*final(self), known),
            known matches Some(report) ==> reports_on(final(self).game@, report),
    {
        if self.game.result().is_some() {
            self.reset_game();
        }
        self.known_report(self.game)
    }

    /// Puts the game under way back to its start and forgets its positions.
    pub fn reset_game(&mut self)
        requires
            old(self).wf(),
        ensures
            final(self).wf(),
            final(self).keeps_pace(),
            final(self).game == GameState::fresh(),
            final(self).pending@.len() == 0,
            *final(self) == (SelfPlayTrainer {
                game: final(self).game,
                pending: final(self).pending,
                ..*old(self)
            }),
    {
        self.game = GameState::new();
        self.pending.clear();
    }

    /// Counts the result of a game and turns its positions into samples.
    pub fn finish_game(&mut self, result: GameResult)
        requires
            old(self).wf(),
            old(self).counters.completed_games < u64::MAX,
        ensures
            final(self).wf(),
            final(self).game == old(self).game,
            final(self).move_cache == old(self).move_cache,
            final(self).latest_visits == old(self).latest_visits,
            final(self).counters == scored(old(self).counters, result),
            final(self).pending@.len() == 0,
            final(self).experience() == old(self).experience() + old(self).lessons().map_values(
                |lesson: Lesson| judged(lesson, result),
            ),
    {
        self.counters.completed_games = self.counters.completed_games + 1;
        match result {
            GameResult::Winner(Side::Black) => {
                self.counters.black_wins = self.counters.black_wins + 1;
            },
            GameResult::Winner(Side::Red) => {
                self.counters.red_wins = self.counters.red_wins + 1;
            },
            GameResult::Draw => {
                self.counters.draws = self.counters.draws + 1;
            },
        }
        let mut pending: Vec<PendingSample> = Vec::new();
        std::mem::swap(&mut pending, &mut self.pending);
        let ghost taken = pending@;
        for sample in it: pending.into_iter()
            invariant
                it.seq() == taken,
                self.game == old(self).game,
                self.move_cache == old(self).move_cache,
                self.move_cache.wf(),
                self.latest_visits == old(self).latest_visits,
                self.counters == scored(old(self).counters, result),
                self.pending@.len() == 0,
                self.experience() =~= old(self).experience() + taken.take(
                    it.index() as int,
                ).map_values(|sample: PendingSample| judged(sample@, result)),
        {
            let ghost lesson = sample@;
            let ghost before = self.experience();
            let ghost count = it.index() as int;
            self.replay.push(
                ExperienceSample {
                    outcome: outcome_for(sample.player, result),
                    player: SideLabel::from(sample.player),
                    state: sample.state,
                    policy: sample.policy,
                },
            );
            proof {
                assert(self.experience() =~= before.push(judged(lesson, result)));
                assert(taken.take(count + 1) =~= taken.take(count).push(taken[count]));
            }
        }
        proof {
            assert(taken.take(taken.len() as int) =~= taken);
            assert(taken.map_values(|sample: PendingSample| judged(sample@, result)) =~= old(
                self,
            ).lessons().map_values(|lesson: Lesson| judged(lesson, result)));
        }
    }

    /// Whether a report can complete the step under way: it belongs to the game and, if
    /// the position is known, is what is known of it; its visits can be added up, the game
    /// can go on, and no counter runs over.
    pub open spec fn accepts(self, report: SearchReport) -> bool {
        &&& reports_on(self.game@, report)
        &&& self.remembered().contains_key(self.game) ==> self.knows(self.game, Some(report))
        &&& report.best_move matches Some(mv) ==> {
            &&& self.game.halfmoves < u16::MAX
            &&& self.game@.play(mv).judgeable()
            &&& visit_total(report.visits@) <= u32::MAX
            &&& visit_total(report.visits@) > 0 ==> have_slots(report.visits@)
            &&& self.counters.self_play_steps < u64::MAX
            &&& self.game@.play(mv).outcome() is Some ==> self.counters.completed_games < u64::MAX
        }
    }

    /// What the step under way learns from a report.
    pub open spec fn lesson(self, report: SearchReport, shares: Seq<Single>) -> Lesson {
        Lesson {
            state: features(self.game@),
            policy: policy_of(report.visits@, shares),
            player: self.game.turn,
        }
    }

    /// What a completed step leaves behind: the move is remembered and played, the visits
    /// are kept if there was a search, and the position is kept with the given shares of
    /// visits. A game that is over with it is counted, its positions become samples, and a
    /// new game begins.
    pub open spec fn advanced(
        self,
        next: SelfPlayTrainer,
        report: SearchReport,
        shares: Seq<Single>,
    ) -> bool {
        let mv = report.best_move->0;
        let game = self.game@.play(mv);
        let lessons = self.lessons().push(self.lesson(report, shares));
        let counters = TrainingMetrics {
            self_play_steps: (self.counters.self_play_steps + 1) as u64,
            ..self.counters
        };
        &&& next.remembered() == self.remembered().insert(self.game, cached_of(mv, report))
        &&& next.latest_visits@ == if report.simulations > 0 {
            report.visits@
        } else {
            self.latest_visits@
        }
        &&& match game.outcome() {
            Some(result) => {
                &&& next.game == GameState::fresh()
                &&& next.lessons() == Seq::<Lesson>::empty()
                &&& next.experience() == self.experience() + lessons.map_values(
                    |lesson: Lesson| judged(lesson, result),
                )
                &&& next.counters == scored(counters, result)
            },
            None => {
                &&& next.game@ == game
                &&& next.lessons() == lessons
                &&& next.replay == self.replay
                &&& next.counters == counters
            },
        }
    }

    /// Completes a self-play step with the report of a search; see
    /// [`SelfPlayTrainer::advanced`]. `share` divides the visits of a move by those of all
    /// moves. Nothing happens if the search found no move.
    pub fn complete_step<D: Fn(u32, u32) -> Single>(
        &mut self,
        report: &SearchReport,
        share: &D,
    ) -> (played: Option<Move>)
        requires
            old(self).wf(),
            old(self).accepts(*report),
            forall|part: u32, whole: u32| whole > 0 ==> call_requires(*share, (part, whole)),
        ensures
            final(self).wf(),
            old(self).keeps_pace() ==> final(self).keeps_pace(),
            played == report.best_move,
            played matches Some(mv) ==> old(self).game@.moves().contains(mv),
            old(self).remembered().contains_key(old(self).game) ==> played == Some(
                old(self).remembered()[old(self).game].best_move,
            ),
            played is None ==> *final(self) == *old(self),
            played is Some ==> exists|shares: Seq<Single>|
                {
                    &&& #[trigger] are_shares(report.visits@, shares, *share)
                    &&& old(self).advanced(*final(self), *report, shares)
                },
    {
        let mv: Move = match report.best_move {
            Some(mv) => mv,
            None => {
                return None;
            },
        };
        let player = self.game.turn;
        let policy = visit_policy(&report.visits, share);
        let ghost shares = choose|shares: Seq<Single>|
            {
                &&& #[trigger] are_shares(report.visits@, shares, *share)
                &&& policy@ == policy_of(report.visits@, shares)
            };
        self.move_cache.insert(self.game, cached_move(mv, report));
        if report.simulations > 0 {
            self.latest_visits = copied_visits(&report.visits);
        }
        proof {
            lemma_word_squares(self.game.board);
            law_legal_moves_are_proper(self.game@.position, self.game.turn, mv);
        }
        let state = encoded_input(self.game);
        let ghost lesson = self.lesson(*report, shares);
        self.pending.push(PendingSample { state, policy, player });
        proof {
            lemma_policy_size(report.visits@, shares);
            assert(self.lessons() =~= old(self).lessons().push(lesson));
        }
        self.game = self.game.apply(mv);
        self.counters.self_play_steps = self.counters.self_play_steps + 1;
        if let Some(result) = self.game.result() {
            self.finish_game(result);
            self.game = GameState::new();
            assert(self.lessons() =~= Seq::<Lesson>::empty());
        }
        assert(old(self).advanced(*self, *report, shares));
        Some(mv)
    }

    /// The move found earlier for a position; none if the position is not in the cache.
    pub fn lookup_cached_move(&self, state: GameState) -> (cached: Option<&CachedMove>)
        ensures
            cached is Some <==> self.remembered().contains_key(state),
            cached matches Some(c) ==> *c == self.remembered()[state],
    {
        self.move_cache.get(state)
    }

    /// Takes in reports on a position and on the position after each of its legal moves,
    /// in the order of [`positions_ahead`], so that a move is known for each of them in
    /// which the moves can be listed and there is one. Positions that are known already
    /// keep their moves.
    pub fn precompute_for(&mut self, state: GameState, reports: &Vec<SearchReport>)
        requires
            old(self).wf(),
            captures_fit(state@.position, state.turn),
            state@.moves().len() > 0 ==> state.halfmoves < u16::MAX,
            reports@.len() == ahead(state@).len(),
            forall|i: int|
                0 <= i < reports@.len() ==> reports_on(ahead(state@)[i], #[trigger] reports@[i]),
        ensures
            final(self).wf(),
            *final(self) == (SelfPlayTrainer { move_cache: final(self).move_cache, ..*old(self) }),
            exists|positions: Seq<GameState>|
                {
                    &&& #[trigger] stand_for(positions, ahead(state@))
                    &&& final(self).remembered() == learned(
                        old(self).remembered(),
                        positions,
                        reports@,
                        reports@.len(),
                    )
                },
            forall|position: GameState|
                ahead(state@).contains(position@) && captures_fit(
                    position@.position,
                    position.turn,
                ) && position@.moves().len() > 0
                    ==> #[trigger] final(self).remembered().contains_key(position),
            forall|i: int, position: GameState|
                #![trigger reports@[i], final(self).remembered()[position]]
                {
                    &&& 0 <= i < reports@.len()
                    &&& position@ == ahead(state@)[i]
                    &&& !old(self).remembered().contains_key(position)
                    &&& reports@[i].best_move is Some
                    &&& forall|k: int|
                        0 <= k < i && #[trigger] ahead(state@)[k] == position@
                            ==> reports@[k].best_move is None
                } ==> {
                    &&& final(self).remembered().contains_key(position)
                    &&& final(self).remembered()[position].best_move == reports@[i].best_move->0
                    &&& final(self).remembered()[position].value == reports@[i].value
                    &&& final(self).remembered()[position].visits == if reports@[i].visits@.len()
                        > 0 {
                        reports@[i].visits@[0].1
                    } else {
                        1u32
                    }
                },
            forall|position: GameState| #[trigger]
                old(self).remembered().contains_key(position) ==> {
                    &&& final(self).remembered().contains_key(position)
                    &&& final(self).remembered()[position] == old(self).remembered()[position]
                },
            forall|position: GameState|
                #![trigger final(self).remembered().contains_key(position)]
                final(self).remembered().contains_key(position)
                    ==> old(self).remembered().contains_key(position)
                    || ahead(state@).contains(position@),
    {
        let positions = positions_ahead(state);
        let mut i: usize = 0;
        while i < positions.len()
            invariant
                i <= positions@.len(),
                stand_for(positions@, ahead(state@)),
                reports@.len() == positions@.len(),
                forall|k: int|
                    0 <= k < reports@.len() ==> reports_on(
                        ahead(state@)[k],
                        #[trigger] reports@[k],
                    ),
                self.wf(),
                *self == (SelfPlayTrainer { move_cache: self.move_cache, ..*old(self) }),
                self.remembered() == learned(
                    old(self).remembered(),
                    positions@,
                    reports@,
                    i as nat,
                ),
            decreases positions.len() - i,
        {
            let position = positions[i];
            let report = &reports[i];
            assert(reports_on(ahead(state@)[i as int], reports@[i as int]));
            if let Some(mv) = report.best_move {
                if self.move_cache.get(position).is_none() {
                    self.move_cache.insert(position, cached_move(mv, report));
                }
            }
            i += 1;
        }
        proof {
            let known = old(self).remembered();
            assert forall|position: GameState|
                ahead(state@).contains(position@) && captures_fit(
                    position@.position,
                    position.turn,
                ) && position@.moves().len() > 0 implies #[trigger] self.remembered().contains_key(position) by {
                let k = choose|k: int|
                    0 <= k < ahead(state@).len() && ahead(state@)[k] == position@;
                assert(positions@[k]@ == position@);
                law_states_are_known_by_their_games(positions@[k], position);
                assert(reports_on(ahead(state@)[k], reports@[k]));
                lemma_learned_position(known, positions@, reports@, reports@.len(), k);
            }
            lemma_learned_keeps(known, positions@, reports@, reports@.len());
            assert forall|i: int, position: GameState|
                #![trigger reports@[i], self.remembered()[position]]
                {
                    &&& 0 <= i < reports@.len()
                    &&& position@ == ahead(state@)[i]
                    &&& !known.contains_key(position)
                    &&& reports@[i].best_move is Some
                    &&& forall|k: int|
                        0 <= k < i && #[trigger] ahead(state@)[k] == position@
                            ==> reports@[k].best_move is None
                } implies {
                &&& self.remembered().contains_key(position)
                &&& self.remembered()[position].best_move == reports@[i].best_move->0
                &&& self.remembered()[position].value == reports@[i].value
                &&& self.remembered()[position].visits == if reports@[i].visits@.len() > 0 {
                    reports@[i].visits@[0].1
                } else {
                    1u32
                }
            } by {
                assert(positions@[i]@ == position@);
                law_states_are_known_by_their_games(positions@[i], position);
                assert forall|k: int|
                    0 <= k < i && #[trigger] positions@[k]
                        == positions@[i] implies reports@[k].best_move is None by {
                    assert(positions@[k]@ == ahead(state@)[k]);
                }
                lemma_first_report(known, positions@, reports@, i, reports@.len());
            }
            assert forall|position: GameState|
                !ahead(state@).contains(position@) && #[trigger] self.remembered().contains_key(
                    position,
                ) implies known.contains_key(position) by {
                if !known.contains_key(position) {
                    let k = lemma_learned_origin(
                        known,
                        positions@,
                        reports@,
                        reports@.len(),
                        position,
                    );
                    assert(positions@[k]@ == ahead(state@)[k]);
                }
            }
        }
    }

    /// The positions that are searched ahead: those after the first few legal moves.
    pub fn next_positions(&self) -> (positions: Vec<GameState>)
        requires
            captures_fit(self.game@.position, self.game.turn),
            self.game@.moves().len() > 0 ==> self.game.halfmoves < u16::MAX,
        ensures
            positions@.len() == if self.game@.moves().len() < LOOKAHEAD {
                self.game@.moves().len() as int
            } else {
                LOOKAHEAD as int
            },
            self.game@.moves().len() >= 3 ==> positions@.len() == 3,
            forall|i: int|
                0 <= i < positions@.len() ==> (#[trigger] positions@[i])@ == self.game@.play(
                    self.game@.moves()[i],
                ),
    {
        let moves = self.game.legal_moves();
        let mut positions: Vec<GameState> = Vec::new();
        let mut i: usize = 0;
        while i < moves.len() && i < LOOKAHEAD
            invariant
                i <= moves@.len(),
                i <= LOOKAHEAD,
                positions@.len() == i,
                moves@ == self.game@.moves(),
                captures_fit(self.game@.position, self.game.turn),
                moves@.len() > 0 ==> self.game.halfmoves < u16::MAX,
                forall|k: int|
                    0 <= k < i ==> (#[trigger] positions@[k])@ == self.game@.play(moves@[k]),
            decreases moves.len() - i,
        {
            let mv = moves[i];
            proof {
                lemma_word_squares(self.game.board);
                assert(self.game@.moves().contains(mv));
                law_legal_moves_are_proper(self.game@.position, self.game.turn, mv);
            }
            positions.push(self.game.apply(mv));
            i += 1;
        }
        positions
    }

    /// The latest samples as a batch, if there are enough of them.
    pub fn training_batch(&self) -> (batch: Option<TrainingBatch>)
        requires
            forall|i: int|
                self.replay@.len() - BATCH_SIZE <= i < self.replay@.len() && 0 <= i ==> (
                #[trigger] self.replay@[i]).state@.len() >= INPUT_SIZE,
        ensures
            batch is Some <==> self.replay@.len() >= BATCH_SIZE,
            batch is Some <==> self.replay@.len() >= 16,
            batch matches Some(b) ==> {
                let start = self.replay@.len() - BATCH_SIZE;
                &&& b.states@.len() == BATCH_SIZE
                &&& b.policies@.len() == BATCH_SIZE
                &&& b.values@.len() == BATCH_SIZE
                &&& forall|i: int|
                    0 <= i < BATCH_SIZE ==> (#[trigger] b.states@[i])@ == self.replay@[start
                        + i].state@.take(INPUT_SIZE as int)
                &&& forall|i: int|
                    0 <= i < BATCH_SIZE ==> (#[trigger] b.policies@[i])@ == self.replay@[start
                        + i].policy@
                &&& forall|i: int|
                    0 <= i < BATCH_SIZE ==> #[trigger] b.values@[i] == self.replay@[start
                        + i].outcome
            },
    {
        if self.replay.len() < BATCH_SIZE {
            return None;
        }
        let start: usize = self.replay.len() - BATCH_SIZE;
        let mut states: Vec<Vec<Single>> = Vec::new();
        let mut policies: Vec<Vec<Single>> = Vec::new();
        let mut values: Vec<Single> = Vec::new();
        let mut i: usize = 0;
        while i < BATCH_SIZE
            invariant
                i <= BATCH_SIZE,
                start == self.replay.len() - BATCH_SIZE,
                states@.len() == i,
                policies@.len() == i,
                values@.len() == i,
                forall|i: int|
                    start <= i < self.replay@.len() ==> (#[trigger] self.replay@[i]).state@.len()
                        >= INPUT_SIZE,
                forall|k: int|
                    0 <= k < i ==> (#[trigger] states@[k])@ == self.replay@[start
                        + k].state@.take(INPUT_SIZE as int),
                forall|k: int|
                    0 <= k < i ==> (#[trigger] policies@[k])@ == self.replay@[start + k].policy@,
                forall|k: int|
                    0 <= k < i ==> #[trigger] values@[k] == self.replay@[start + k].outcome,
            decreases BATCH_SIZE - i,
        {
            let sample = &self.replay[start + i];
            states.push(copied(&sample.state, INPUT_SIZE));
            let policy = copied(&sample.policy, sample.policy.len());
            assert(policy@ =~= sample.policy@);
            policies.push(policy);
            values.push(sample.outcome);
            i += 1;
        }
        Some(TrainingBatch { states, policies, values })
    }

    /// Counts a training step.
    pub fn record_training(&mut self, loss: Single)
        requires
            old(self).wf(),
            old(self).counters.train_steps < u64::MAX,
        ensures
            final(self).wf(),
            *final(self) == (SelfPlayTrainer {
                counters: TrainingMetrics {
                    train_steps: (old(self).counters.train_steps + 1) as u64,
                    last_loss: loss,
                    ..old(self).counters
                },
                ..*old(self)
            }),
    {
        self.counters.train_steps = self.counters.train_steps + 1;
        self.counters.last_loss = loss;
    }

    /// Whether the samples are to be saved after this step.
    pub fn save_is_due(&self) -> (due: bool)
        ensures
            due == (self.counters.self_play_steps % SAVE_INTERVAL == 0),
            due <==> self.counters.self_play_steps as int % 50 == 0,
    {
        self.counters.self_play_steps % SAVE_INTERVAL == 0
    }
}

/// A position with a report that names a move is known afterwards.
proof fn lemma_learned_position(
    known: Map<GameState, CachedMove>,
    positions: Seq<GameState>,
    reports: Seq<SearchReport>,
    n: nat,
    k: int,
)
    requires
        0 <= k < n <= positions.len(),
        reports[k].best_move is Some,
    ensures
        learned(known, positions, reports, n).contains_key(positions[k]),
    decreases n,
{
    if k < n - 1 {
        lemma_learned_position(known, positions, reports, (n - 1) as nat, k);
    }
}

/// What is known is kept.
proof fn lemma_learned_keeps(
    known: Map<GameState, CachedMove>,
    positions: Seq<GameState>,
    reports: Seq<SearchReport>,
    n: nat,
)
    ensures
        forall|position: GameState| #[trigger]
            known.contains_key(position) ==> {
                &&& learned(known, positions, reports, n).contains_key(position)
                &&& learned(known, positions, reports, n)[position] == known[position]
            },
    decreases n,
{
    if n > 0 {
        lemma_learned_keeps(known, positions, reports, (n - 1) as nat);
    }
}

/// What is newly known is one of the positions.
proof fn lemma_learned_origin(
    known: Map<GameState, CachedMove>,
    positions: Seq<GameState>,
    reports: Seq<SearchReport>,
    n: nat,
    position: GameState,
) -> (k: int)
    requires
        n <= positions.len(),
        !known.contains_key(position),
        learned(known, positions, reports, n).contains_key(position),
    ensures
        0 <= k < n,
        positions[k] == position,
    decreases n,
{
    if learned(known, positions, reports, (n - 1) as nat).contains_key(position) {
        lemma_learned_origin(known, positions, reports, (n - 1) as nat, position)
    } else {
        n - 1
    }
}

/// What is remembered of a search that found a move; see [`cached_of`].
fn cached_move(mv: Move, report: &SearchReport) -> (cached: CachedMove)
    ensures
        cached == cached_of(mv, *report),
{
    let visits: u32 = if report.visits.len() > 0 {
        report.visits[0].1
    } else {
        1
    };
    CachedMove { best_move: mv, value: report.value, visits }
}

/// A copy of visit counts.
fn copied_visits(visits: &Vec<(Move, u32)>) -> (copy: Vec<(Move, u32)>)
    ensures
        copy@ == visits@,
{
    let mut copy: Vec<(Move, u32)> = Vec::new();
    while copy.len() < visits.len()
        invariant
            copy@.len() <= visits@.len(),
            copy@ =~= visits@.take(copy@.len() as int),
        decreases visits.len() - copy.len(),
    {
        let entry = visits[copy.len()];
        copy.push(entry);
    }
    assert(copy@ =~= visits@);
    copy
}

/// The first numbers of a list.
fn copied(numbers: &Vec<Single>, count: usize) -> (copy: Vec<Single>)
    requires
        count <= numbers@.len(),
    ensures
        copy@ == numbers@.take(count as int),
{
    let mut copy: Vec<Single> = Vec::new();
    while copy.len() < count
        invariant
            copy@.len() <= count <= numbers@.len(),
            copy@ =~= numbers@.take(copy@.len() as int),
        decreases count - copy.len(),
    {
        let number = numbers[copy.len()];
        copy.push(number);
    }
    copy
}

/// The network's input for a game, as a list.
fn encoded_input(state: GameState) -> (input: Vec<Single>)
    ensures
        input@ == features(state@),
{
    let encoded = encode_state(state);
    let mut input: Vec<Single> = Vec::new();
    let mut i: usize = 0;
    while i < INPUT_SIZE
        invariant
            i <= INPUT_SIZE,
            input@ =~= encoded@.take(i as int),
        decreases INPUT_SIZE - i,
    {
        input.push(encoded[i]);
        i += 1;
    }
    assert(input@ =~= encoded@);
    input
}

/// Entering shares keeps the size of a policy.
proof fn lemma_policy_size(visits: Seq<(Move, u32)>, shares: Seq<Single>)
    requires
        visit_total(visits) > 0 ==> have_slots(visits),
    ensures
        policy_of(visits, shares).len() == POLICY_SIZE,
{
    lemma_visits_grow(visits, visits.len() as int);
    assert(visits.take(visits.len() as int) =~= visits);
    if visit_total(visits) > 0 {
        lemma_entered_size(visits, shares, visits.len());
    }
}

proof fn lemma_entered_size(visits: Seq<(Move, u32)>, shares: Seq<Single>, n: nat)
    requires
        have_slots(visits),
        n <= visits.len(),
    ensures
        entered(visits, shares, n).len() == POLICY_SIZE,
    decreases n,
{
    if n > 0 {
        let mv = visits[n - 1].0;
        lemma_entered_size(visits, shares, (n - 1) as nat);
    }
}

/// A slot of a search's policy holds the share of the last move that has this slot,
/// and zero if no move has it. Without any visit all slots hold zero.
pub proof fn law_policy_holds_the_shares(
    visits: Seq<(Move, u32)>,
    shares: Seq<Single>,
    slot: int,
)
    requires
        shares.len() == visits.len(),
        have_slots(visits),
        0 <= slot < POLICY_SIZE,
    ensures
        policy_of(visits, shares).len() == POLICY_SIZE,
        visit_total(visits) == 0 ==> policy_of(visits, shares)[slot] == Single::of_sign(0),
        visit_total(visits) > 0 ==> {
            let entry = policy_of(visits, shares)[slot];
            let count = visits.len() as int;
            &&& lacks_slot(visits, 0, count, slot) ==> entry == Single::of_sign(0)
            &&& forall|i: int|
                0 <= i < count && slot_of(
                    (#[trigger] visits[i]).0.from as int,
                    visits[i].0.to as int,
                ) == slot && lacks_slot(visits, i + 1, count, slot) ==> entry == shares[i]
        },
{
    lemma_policy_size(visits, shares);
    if visit_total(visits) > 0 {
        lemma_entered_slots(visits, shares, slot, visits.len());
    }
}

/// Whether none of the moves from one index up to another has a slot.
pub open spec fn lacks_slot(visits: Seq<(Move, u32)>, start: int, end: int, slot: int) -> bool {
    forall|j: int|
        start <= j < end ==> slot_of((#[trigger] visits[j]).0.from as int, visits[j].0.to as int)
            != slot
}

proof fn lemma_entered_slots(visits: Seq<(Move, u32)>, shares: Seq<Single>, slot: int, n: nat)
    requires
        shares.len() == visits.len(),
        have_slots(visits),
        0 <= slot < POLICY_SIZE,
        n <= visits.len(),
    ensures
        lacks_slot(visits, 0, n as int, slot) ==> entered(visits, shares, n)[slot]
            == Single::of_sign(0),
        forall|i: int|
            0 <= i < n && slot_of((#[trigger] visits[i]).0.from as int, visits[i].0.to as int)
                == slot && lacks_slot(visits, i + 1, n as int, slot) ==> entered(visits, shares, n)[slot]
                == shares[i],
    decreases n,
{
    if n > 0 {
        let m = (n - 1) as nat;
        let last = visits[m as int].0;
        lemma_entered_slots(visits, shares, slot, m);
        lemma_entered_size(visits, shares, m);
        assert forall|i: int|
            0 <= i < n && slot_of((#[trigger] visits[i]).0.from as int, visits[i].0.to as int)
                == slot && lacks_slot(visits, i + 1, n as int, slot) implies entered(
            visits,
            shares,
            n,
        )[slot] == shares[i] by {
            if i < m {
                assert(slot_of(visits[m as int].0.from as int, visits[m as int].0.to as int) != slot);
                assert(lacks_slot(visits, i + 1, m as int, slot));
            }
        }
    }
}

/// The report of a finished search has room in a policy for each of its moves, and its
/// visits add up to the playouts, with one more if a visit was given in advance.
pub proof fn law_search_reports_can_be_learned_from(search: Search)
    requires
        search.wf(),
        search.played == search.simulations,
    ensures
        have_slots(tallied(search.moves@, search.visits@)),
        visit_total(tallied(search.moves@, search.visits@)) == search.simulations
            + if search.primed {
            1int
        } else {
            0
        },
{
    let visits = tallied(search.moves@, search.visits@);
    lemma_tallied_total(search.moves@, search.visits@);
    assert forall|i: int| 0 <= i < visits.len() implies slot_of(
        (#[trigger] visits[i]).0.from as int,
        visits[i].0.to as int,
    ) < POLICY_SIZE by {
        let mv = search.moves@[i];
        lemma_word_squares(search.state.board);
        assert(search.state@.moves().contains(mv));
        law_legal_moves_are_proper(search.state@.position, search.state.turn, mv);
    }
}

/// Adding up visits with their moves or without comes to the same.
pub(crate) proof fn lemma_tallied_total(moves: Seq<Move>, counts: Seq<u32>)
    requires
        moves.len() == counts.len(),
    ensures
        visit_total(tallied(moves, counts)) == total(counts),
    decreases moves.len(),
{
    if moves.len() > 0 {
        assert(tallied(moves, counts).drop_last() =~= tallied(
            moves.drop_last(),
            counts.drop_last(),
        ));
        lemma_tallied_total(moves.drop_last(), counts.drop_last());
    }
}

/// Every step plays a legal move. In a position that is known it is the remembered one,
/// and what is remembered stays as it is. After every step the move that was played is
/// remembered for the position, and every other position is remembered as before.
pub proof fn law_steps_go_by_the_cache(
    before: SelfPlayTrainer,
    begun: SelfPlayTrainer,
    after: SelfPlayTrainer,
    known: Option<SearchReport>,
    report: SearchReport,
    shares: Seq<Single>,
    other: GameState,
)
    requires
        before.game@.judgeable(),
        before.begun(begun, known),
        begun.accepts(report),
        begun.advanced(after, report, shares),
    ensures
        report.best_move is Some,
        begun.game@.moves().contains(report.best_move->0),
        begun.remembered() == before.remembered(),
        before.remembered().contains_key(begun.game) ==> {
            &&& report.best_move == Some(before.remembered()[begun.game].best_move)
            &&& report.simulations == 0
            &&& after.remembered() == before.remembered()
        },
        after.remembered().contains_key(begun.game),
        report.best_move == Some(after.remembered()[begun.game].best_move),
        other != begun.game ==> {
            &&& after.remembered().contains_key(other) <==> before.remembered().contains_key(other)
            &&& before.remembered().contains_key(other) ==> after.remembered()[other]
                == before.remembered()[other]
        },
{
    lemma_starting_bits();
    law_opening_goes_on();
    assert(GameState::fresh()@ == opening());
    if before.remembered().contains_key(begun.game) {
        assert(after.remembered() =~= before.remembered());
    }
}

} // verus!
