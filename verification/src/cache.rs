//! The moves that earlier searches found, by position.
use crate::engine::{BitBoard, GameState, Move, Side};
use crate::playouts::seed_of;
use crate::rules::{captures_fit, Game};
use crate::single::Single;
use std::collections::HashMap;
use vstd::prelude::*;
use vstd::set_lib::lemma_map_size;

verus! {

broadcast use vstd::std_specs::hash::group_hash_axioms;

/// A move found by an earlier search.
#[derive(Debug, Clone, Copy)]
pub struct CachedMove {
    pub best_move: Move,
    pub value: Single,
    pub visits: u32,
}

/// What the player to move contributes to a key.
pub open spec fn turn_bit(turn: Side) -> u8 {
    match turn {
        Side::Black => 0,
        Side::Red => 1,
    }
}

/// The key of a position in the cache: its parts side by side.
pub open spec fn key_of(state: GameState) -> u128 {
    (state.board.black as u128) | ((state.board.red as u128) << 32) | ((state.board.kings as u128)
        << 64) | ((turn_bit(state.turn) as u128) << 96) | ((state.halfmoves as u128) << 97)
}

/// The key of a position in the cache; see [`key_of`].
fn position_key(state: GameState) -> (key: u128)
    ensures
        key == key_of(state),
{
    let turn: u8 = match state.turn {
        Side::Black => 0,
        Side::Red => 1,
    };
    (state.board.black as u128) | ((state.board.red as u128) << 32) | ((state.board.kings as u128)
        << 64) | ((turn as u128) << 96) | ((state.halfmoves as u128) << 97)
}

/// Different positions have different keys.
pub proof fn law_keys_are_distinct(a: GameState, b: GameState)
    requires
        key_of(a) == key_of(b),
    ensures
        a == b,
{
    let (ba, bb) = (a.board.black, b.board.black);
    let (ra, rb) = (a.board.red, b.board.red);
    let (ka, kb) = (a.board.kings, b.board.kings);
    let (ta, tb) = (turn_bit(a.turn), turn_bit(b.turn));
    let (ha, hb) = (a.halfmoves, b.halfmoves);
    assert(ba == bb && ra == rb && ka == kb && ta == tb && ha == hb) by (bit_vector)
        requires
            ta <= 1,
            tb <= 1,
            (ba as u128) | ((ra as u128) << 32) | ((ka as u128) << 64) | ((ta as u128) << 96) | ((
            ha as u128) << 97) == (bb as u128) | ((rb as u128) << 32) | ((kb as u128) << 64) | ((
            tb as u128) << 96) | ((hb as u128) << 97),
    ;
}

/// Whether a move is legal in a game whose moves can be listed.
pub open spec fn is_legal_in(g: Game, mv: Move) -> bool {
    captures_fit(g.position, g.turn) && g.moves().contains(mv)
}

/// The moves that earlier searches found, by the keys of their positions.
#[derive(Debug, Clone)]
pub struct MoveCache {
    pub moves: HashMap<u128, CachedMove>,
}

impl View for MoveCache {
    type V = Map<GameState, CachedMove>;

    open spec fn view(&self) -> Map<GameState, CachedMove> {
        Map::new(
            |state: GameState| self.moves@.contains_key(key_of(state)),
            |state: GameState| self.moves@[key_of(state)],
        )
    }
}

impl MoveCache {
    /// Every key belongs to a position, and its move is legal in that position.
    pub open spec fn wf(self) -> bool {
        &&& forall|key: u128| #[trigger]
            self.moves@.contains_key(key) ==> exists|state: GameState| #[trigger] key_of(state)
                == key
        &&& forall|state: GameState| #[trigger]
            self@.contains_key(state) ==> is_legal_in(state@, self@[state].best_move)
    }

    /// A cache without moves.
    pub fn new() -> (cache: Self)
        ensures
            cache.wf(),
            cache@ == Map::<GameState, CachedMove>::empty(),
    {
        let cache = Self { moves: HashMap::new() };
        assert(cache@ =~= Map::<GameState, CachedMove>::empty());
        cache
    }

    /// The number of positions in the cache.
    pub fn len(&self) -> (count: usize)
        requires
            self.wf(),
        ensures
            self@.dom().finite(),
            count == self@.dom().len(),
    {
        proof {
            let keys = self.moves@.dom();
            let position = |key: u128| choose|state: GameState| #[trigger] key_of(state) == key;
            assert forall|key: u128| keys.contains(key) implies key_of(#[trigger] position(key))
                == key by {
                assert(self.moves@.contains_key(key));
            }
            assert forall|a: u128, b: u128|
                keys.contains(a) && keys.contains(b) && #[trigger] position(a)
                    == #[trigger] position(b) implies a == b by {
                assert(key_of(position(a)) == a && key_of(position(b)) == b);
            }
            assert forall|state: GameState| keys.map(position).contains(state)
                <==> self@.dom().contains(state) by {
                if self@.dom().contains(state) {
                    let key = key_of(state);
                    assert(keys.contains(key));
                    assert(key_of(position(key)) == key);
                    law_keys_are_distinct(position(key), state);
                }
            }
            assert(keys.map(position) =~= self@.dom());
            lemma_map_size(keys, self@.dom(), position);
        }
        self.moves.len()
    }

    /// What was found for a position; none if the position is not in the cache.
    pub fn get(&self, state: GameState) -> (cached: Option<&CachedMove>)
        ensures
            cached is Some <==> self@.contains_key(state),
            cached matches Some(c) ==> *c == self@[state],
    {
        self.moves.get(&position_key(state))
    }

    /// Puts the move that was found for a position into the cache.
    pub fn insert(&mut self, state: GameState, cached: CachedMove)
        requires
            old(self).wf(),
            is_legal_in(state@, cached.best_move),
        ensures
            final(self).wf(),
            final(self)@ == old(self)@.insert(state, cached),
    {
        self.moves.insert(position_key(state), cached);
        proof {
            assert forall|other: GameState| key_of(other) == key_of(state) implies other
                == state by {
                law_keys_are_distinct(other, state);
            }
            assert(self@ =~= old(self)@.insert(state, cached));
            assert forall|key: u128| #[trigger] self.moves@.contains_key(key) implies exists|
                known: GameState,
            | #[trigger] key_of(known) == key by {
                if key != key_of(state) {
                    assert(old(self).moves@.contains_key(key));
                }
            }
        }
    }
}

/// What the player to move contributes to a hash.
pub open spec fn turn_key(turn: Side) -> u64 {
    match turn {
        Side::Black => 0x9e37_79b9_7f4a_7c15u64,
        Side::Red => 0xbf58_476d_1ce4_e5b9u64,
    }
}

/// A hash of a position.
pub open spec fn hash_of(state: GameState) -> u64 {
    ((state.board.black as u64) << 32) ^ (state.board.red as u64) ^ ((state.board.kings as u64)
        << 1) ^ turn_key(state.turn) ^ (state.halfmoves as u64).wrapping_mul(0x1000_0000_1ce4_e5b9)
}

/// A hash of a position; see [`hash_of`]. Different positions can have the same hash, so
/// the cache does not go by it.
pub fn board_hash(state: GameState) -> (hash: u64)
    ensures
        hash == hash_of(state),
{
    let side: u64 = match state.turn {
        Side::Black => 0x9e37_79b9_7f4a_7c15,
        Side::Red => 0xbf58_476d_1ce4_e5b9,
    };
    ((state.board.black as u64) << 32) ^ (state.board.red as u64) ^ ((state.board.kings as u64)
        << 1) ^ side ^ (state.halfmoves as u64).wrapping_mul(0x1000_0000_1ce4_e5b9)
}

/// Different numbers of moves contribute differently to a hash.
proof fn lemma_halfmove_keys_differ(a: u16, b: u16)
    requires
        a != b,
    ensures
        (a as u64).wrapping_mul(0x1000_0000_1ce4_e5b9) != (b as u64).wrapping_mul(
            0x1000_0000_1ce4_e5b9,
        ),
{
    let low = 0x1000_0000_0000_0000int;
    let p = a * 0x1000_0000_1ce4_e5b9;
    let q = b * 0x1000_0000_1ce4_e5b9;
    if p % (16 * low) == q % (16 * low) {
        let turns = p / (16 * low) - q / (16 * low);
        assert(p - q == 16 * low * turns);
        let rest = 16 * turns - (a - b);
        assert((a - b) * 0x1ce4_e5b9 == low * rest);
        assert(rest == 0);
    }
}

/// Two positions have different hashes if they differ in one thing only: the black
/// pieces, the red pieces, the kings, the player to move, or the number of moves made.
pub proof fn law_hash_shows_every_part(a: GameState, b: GameState)
    requires
        a != b,
        ({
            ||| a == (GameState { board: BitBoard { black: a.board.black, ..b.board }, ..b })
            ||| a == (GameState { board: BitBoard { red: a.board.red, ..b.board }, ..b })
            ||| a == (GameState { board: BitBoard { kings: a.board.kings, ..b.board }, ..b })
            ||| a == (GameState { turn: a.turn, ..b })
            ||| a == (GameState { halfmoves: a.halfmoves, ..b })
        }),
    ensures
        hash_of(a) != hash_of(b),
{
    let (ba, bb) = (a.board.black, b.board.black);
    let (ra, rb) = (a.board.red, b.board.red);
    let (ka, kb) = (a.board.kings, b.board.kings);
    let ta = turn_key(a.turn);
    let tb = turn_key(b.turn);
    let ha = (a.halfmoves as u64).wrapping_mul(0x1000_0000_1ce4_e5b9);
    let hb = (b.halfmoves as u64).wrapping_mul(0x1000_0000_1ce4_e5b9);
    if a.halfmoves != b.halfmoves {
        lemma_halfmove_keys_differ(a.halfmoves, b.halfmoves);
    }
    assert((((ba as u64) << 32) ^ (ra as u64) ^ ((ka as u64) << 1) ^ ta ^ ha) != (((bb as u64) << 32)
        ^ (rb as u64) ^ ((kb as u64) << 1) ^ tb ^ hb)) by (bit_vector)
        requires
            ({
                ||| ba != bb && ra == rb && ka == kb && ta == tb && ha == hb
                ||| ba == bb && ra != rb && ka == kb && ta == tb && ha == hb
                ||| ba == bb && ra == rb && ka != kb && ta == tb && ha == hb
                ||| ba == bb && ra == rb && ka == kb && ta != tb && ha == hb
                ||| ba == bb && ra == rb && ka == kb && ta == tb && ha != hb
            }),
    ;
}

/// The hash of a position is the seed of its playouts, with the number of moves made, times
/// a fixed number and cut to sixty-four bits, laid over it.
pub proof fn law_hashes_extend_seeds(state: GameState)
    ensures
        exists|moves: u64|
            {
                &&& moves == (state.halfmoves * 0x1000_0000_1ce4_e5b9) % 0x1_0000_0000_0000_0000
                &&& hash_of(state) == #[trigger] (seed_of(state) ^ moves)
            },
{
    let moves = (state.halfmoves as u64).wrapping_mul(0x1000_0000_1ce4_e5b9);
    assert(hash_of(state) == seed_of(state) ^ moves);
}

} // verus!
