//! Chains of jumps: what the generated captures are.
use crate::engine::Side;
use crate::geometry::{coords_of, law_index_then_coords, offset_of, on_board};
use crate::rules::{
    after_jump, can_jump, chains, chains_within, jump_toward, jumps_fit, lemma_branch,
    lemma_jump_needs_room, Jump, Position,
};
use vstd::prelude::*;

verus! {

/// Whether the piece of `side` on `at` can make this jump.
pub open spec fn is_jump(p: Position, side: Side, at: int, jump: Jump) -> bool {
    exists|i: int|
        0 <= i < p.dirs(side, at).len() && jump_toward(p, side, at, #[trigger] p.dirs(side, at)[i])
            == Some(jump)
}

/// Whether a sequence of jumps can be made one after the other, starting on `at`,
/// and leads to a square from which no further jump is possible.
pub open spec fn is_complete_chain(p: Position, side: Side, at: int, chain: Seq<Jump>) -> bool
    decreases chain.len(),
{
    if chain.len() == 0 {
        !can_jump(p, side, at)
    } else {
        is_jump(p, side, at, chain[0]) && is_complete_chain(
            after_jump(p, side, at, chain[0]),
            side,
            chain[0].to,
            chain.drop_first(),
        )
    }
}

/// Every generated chain is complete.
proof fn lemma_chain_is_complete(p: Position, side: Side, at: int, room: nat, i: int)
    requires
        jumps_fit(p, side, at, room),
        0 <= i < chains(p, side, at, room).len(),
    ensures
        is_complete_chain(p, side, at, chains(p, side, at, room)[i]),
    decreases room, 5nat,
{
    if can_jump(p, side, at) {
        lemma_jump_needs_room(p, side, at, room);
        lemma_chain_within_is_complete(p, side, at, room, p.dirs(side, at).len(), i);
    }
}

proof fn lemma_chain_within_is_complete(
    p: Position,
    side: Side,
    at: int,
    room: nat,
    n: nat,
    i: int,
)
    requires
        n <= p.dirs(side, at).len(),
        jumps_fit(p, side, at, room),
        0 <= i < chains_within(p, side, at, room, n).len(),
    ensures
        is_complete_chain(p, side, at, chains_within(p, side, at, room, n)[i]),
    decreases room, n,
{
    let fewer = chains_within(p, side, at, room, (n - 1) as nat);
    if i < fewer.len() {
        lemma_chain_within_is_complete(p, side, at, room, (n - 1) as nat, i);
    } else {
        let jump = jump_toward(p, side, at, p.dirs(side, at)[n - 1])->0;
        lemma_branch(p, side, at, room, (n - 1) as nat, jump);
        let next = after_jump(p, side, at, jump);
        let tails = chains(next, side, jump.to, (room - 1) as nat);
        let k = i - fewer.len();
        lemma_chain_is_complete(next, side, jump.to, (room - 1) as nat, k);
        let chain = seq![jump] + tails[k];
        assert(chains_within(p, side, at, room, n)[i] == chain);
        assert(chain.drop_first() =~= tails[k]);
        assert(chain[0] == jump);
    }
}

/// Every complete chain is generated.
proof fn lemma_complete_chain_is_listed(
    p: Position,
    side: Side,
    at: int,
    room: nat,
    chain: Seq<Jump>,
) -> (i: int)
    requires
        jumps_fit(p, side, at, room),
        is_complete_chain(p, side, at, chain),
    ensures
        0 <= i < chains(p, side, at, room).len(),
        chains(p, side, at, room)[i] == chain,
    decreases chain.len(),
{
    if chain.len() == 0 {
        assert(chain =~= Seq::empty());
        0
    } else {
        let dirs = p.dirs(side, at);
        let d = choose|d: int|
            0 <= d < dirs.len() && jump_toward(p, side, at, #[trigger] dirs[d]) == Some(chain[0]);
        assert(jump_toward(p, side, at, p.dirs(side, at)[d]) is Some);
        assert(can_jump(p, side, at));
        lemma_branch(p, side, at, room, d as nat, chain[0]);
        let next = after_jump(p, side, at, chain[0]);
        let k = lemma_complete_chain_is_listed(
            next,
            side,
            chain[0].to,
            (room - 1) as nat,
            chain.drop_first(),
        );
        assert(seq![chain[0]] + chain.drop_first() =~= chain);
        let i = chains_within(p, side, at, room, d as nat).len() + k;
        assert(chains_within(p, side, at, room, (d + 1) as nat)[i] == chain);
        lemma_chains_within_grow(p, side, at, room, (d + 1) as nat, dirs.len());
        i
    }
}

/// Looking in more directions keeps the chains found so far in front.
proof fn lemma_chains_within_grow(p: Position, side: Side, at: int, room: nat, m: nat, n: nat)
    requires
        m <= n,
    ensures
        chains_within(p, side, at, room, m).len() <= chains_within(p, side, at, room, n).len(),
        forall|i: int|
            0 <= i < chains_within(p, side, at, room, m).len() ==> chains_within(
                p,
                side,
                at,
                room,
                m,
            )[i] == chains_within(p, side, at, room, n)[i],
    decreases n,
{
    if m < n {
        lemma_chains_within_grow(p, side, at, room, m, (n - 1) as nat);
    }
}

/// The generated chains of a piece are exactly the ones that can be jumped and
/// cannot be continued, whenever all of them fit into a move record.
pub proof fn law_chains_are_the_complete_ones(
    p: Position,
    side: Side,
    at: int,
    room: nat,
    chain: Seq<Jump>,
)
    requires
        jumps_fit(p, side, at, room),
    ensures
        chains(p, side, at, room).contains(chain) <==> is_complete_chain(p, side, at, chain),
{
    if chains(p, side, at, room).contains(chain) {
        let i = choose|i: int|
            0 <= i < chains(p, side, at, room).len() && chains(p, side, at, room)[i] == chain;
        lemma_chain_is_complete(p, side, at, room, i);
    }
    if is_complete_chain(p, side, at, chain) {
        let i = lemma_complete_chain_is_listed(p, side, at, room, chain);
        assert(chains(p, side, at, room)[i] == chain);
    }
}

/// A jump leads two rows on, over the square in between.
pub(crate) proof fn lemma_jump_geometry(p: Position, side: Side, at: int, jump: Jump)
    requires
        on_board(at),
        is_jump(p, side, at, jump),
    ensures
        on_board(jump.over),
        on_board(jump.to),
        p.of(side.other()).contains(jump.over),
        !p.occupied().contains(jump.to),
        coords_of(jump.over).0 % 2 != coords_of(at).0 % 2,
        coords_of(jump.to).0 % 2 == coords_of(at).0 % 2,
{
    let dirs = p.dirs(side, at);
    let d = choose|d: int|
        0 <= d < dirs.len() && jump_toward(p, side, at, #[trigger] dirs[d]) == Some(jump);
    let (dr, dc) = dirs[d];
    assert(offset_of(at, dr as int, dc as int) == Some(jump.over));
    assert(offset_of(at, dr * 2, dc * 2) == Some(jump.to));
    law_index_then_coords(coords_of(at).0 + dr, coords_of(at).1 + dc);
    law_index_then_coords(coords_of(at).0 + dr * 2, coords_of(at).1 + dc * 2);
}

/// The squares that a chain takes.
pub open spec fn overs(chain: Seq<Jump>) -> Set<int> {
    Set::new(|square: int| exists|k: int| 0 <= k < chain.len() && #[trigger] chain[k].over == square)
}

/// The position after a chain of jumps was made one after the other.
pub open spec fn after_chain(p: Position, side: Side, at: int, chain: Seq<Jump>) -> Position
    decreases chain.len(),
{
    if chain.len() == 0 {
        p
    } else {
        after_chain(after_jump(p, side, at, chain[0]), side, chain[0].to, chain.drop_first())
    }
}

/// A complete chain takes pieces of the enemy, no piece twice, lands only on free
/// squares or on the one it started from, and fits into the room there is.
pub proof fn law_chain_takes_enemies_once(
    p: Position,
    side: Side,
    at: int,
    room: nat,
    chain: Seq<Jump>,
)
    requires
        on_board(at),
        jumps_fit(p, side, at, room),
        is_complete_chain(p, side, at, chain),
    ensures
        chain.len() <= room,
        forall|k: int|
            0 <= k < chain.len() ==> {
                &&& on_board((#[trigger] chain[k]).over)
                &&& on_board(chain[k].to)
                &&& p.of(side.other()).contains(chain[k].over)
                &&& !p.occupied().contains(chain[k].to) || chain[k].to == at
                &&& coords_of(chain[k].over).0 % 2 != coords_of(at).0 % 2
                &&& coords_of(chain[k].to).0 % 2 == coords_of(at).0 % 2
            },
        forall|j: int, k: int|
            0 <= j < k < chain.len() ==> (#[trigger] chain[j]).over != (#[trigger] chain[k]).over,
    decreases chain.len(),
{
    if chain.len() > 0 {
        let jump = chain[0];
        let next = after_jump(p, side, at, jump);
        let tail = chain.drop_first();
        lemma_jump_geometry(p, side, at, jump);
        let dirs = p.dirs(side, at);
        let d = choose|d: int|
            0 <= d < dirs.len() && jump_toward(p, side, at, #[trigger] dirs[d]) == Some(jump);
        lemma_branch(p, side, at, room, d as nat, jump);
        law_chain_takes_enemies_once(next, side, jump.to, (room - 1) as nat, tail);
        assert forall|k: int| 0 < k < chain.len() implies {
            &&& on_board((#[trigger] chain[k]).over)
            &&& on_board(chain[k].to)
            &&& p.of(side.other()).contains(chain[k].over)
            &&& chain[k].over != jump.over
            &&& !p.occupied().contains(chain[k].to) || chain[k].to == at
            &&& coords_of(chain[k].over).0 % 2 != coords_of(at).0 % 2
            &&& coords_of(chain[k].to).0 % 2 == coords_of(at).0 % 2
        } by {
            assert(chain[k] == tail[k - 1]);
        }
        assert forall|j: int, k: int| 0 <= j < k < chain.len() implies (#[trigger] chain[j]).over
            != (#[trigger] chain[k]).over by {
            if j > 0 {
                assert(chain[j] == tail[j - 1] && chain[k] == tail[k - 1]);
            }
        }
    }
}

} // verus!
