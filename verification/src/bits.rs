//! Sets of squares kept as the bits of a machine word.
use vstd::prelude::*;
use vstd::std_specs::bits::{axiom_u32_trailing_zeros, u32_trailing_zeros};

verus! {

/// Whether the bit of a square is set.
pub open spec fn has_bit(bits: u32, square: int) -> bool {
    0 <= square < 32 && bits & (1u32 << (square as u32)) != 0
}

/// The squares whose bits are set.
pub open spec fn squares_of(bits: u32) -> Set<int> {
    Set::new(|square: int| has_bit(bits, square))
}

/// The members of a set of squares that are smaller than `bound`, in ascending order.
pub open spec fn ascending(squares: Set<int>, bound: nat) -> Seq<u8>
    decreases bound,
{
    if bound == 0 {
        Seq::empty()
    } else {
        let rest = ascending(squares, (bound - 1) as nat);
        if squares.contains(bound - 1) {
            rest.push((bound - 1) as u8)
        } else {
            rest
        }
    }
}

/// Setting one bit adds one square.
pub(crate) proof fn lemma_set_bit(bits: u32, square: u32)
    requires
        square < 32,
    ensures
        squares_of(bits | (1u32 << square)) == squares_of(bits).insert(square as int),
{
    assert forall|s: int| #[trigger] has_bit(bits | (1u32 << square), s) == (has_bit(bits, s) || s
        == square) by {
        if 0 <= s < 32 {
            let t = s as u32;
            assert(((bits | (1u32 << square)) & (1u32 << t) != 0) == (bits & (1u32 << t) != 0 || t
                == square)) by (bit_vector)
                requires
                    t < 32,
                    square < 32,
            ;
        }
    }
    assert(squares_of(bits | (1u32 << square)) =~= squares_of(bits).insert(square as int));
}

/// Clearing one bit removes one square.
pub(crate) proof fn lemma_clear_bit(bits: u32, square: u32)
    requires
        square < 32,
    ensures
        squares_of(bits & !(1u32 << square)) == squares_of(bits).remove(square as int),
{
    assert forall|s: int| #[trigger] has_bit(bits & !(1u32 << square), s) == (has_bit(bits, s) && s
        != square) by {
        if 0 <= s < 32 {
            let t = s as u32;
            assert(((bits & !(1u32 << square)) & (1u32 << t) != 0) == (bits & (1u32 << t) != 0 && t
                != square)) by (bit_vector)
                requires
                    t < 32,
                    square < 32,
            ;
        }
    }
    assert(squares_of(bits & !(1u32 << square)) =~= squares_of(bits).remove(square as int));
}

/// The bitwise union holds the squares of both words.
pub(crate) proof fn lemma_union_bits(a: u32, b: u32)
    ensures
        squares_of(a | b) == squares_of(a).union(squares_of(b)),
{
    assert forall|s: int| #[trigger] has_bit(a | b, s) == (has_bit(a, s) || has_bit(b, s)) by {
        if 0 <= s < 32 {
            let t = s as u32;
            assert(((a | b) & (1u32 << t) != 0) == (a & (1u32 << t) != 0 || b & (1u32 << t) != 0))
                by (bit_vector);
        }
    }
    assert(squares_of(a | b) =~= squares_of(a).union(squares_of(b)));
}

/// A word without set bits is zero, and zero has none.
pub(crate) proof fn lemma_no_bits(bits: u32)
    ensures
        bits == 0 <==> squares_of(bits) == Set::<int>::empty(),
{
    if bits == 0 {
        assert forall|s: int| !has_bit(bits, s) by {
            let t = s as u32;
            assert(0u32 & (1u32 << t) == 0) by (bit_vector);
        }
        assert(squares_of(bits) =~= Set::<int>::empty());
    } else {
        let t = lemma_lowest_bit(bits);
        assert(squares_of(bits).contains(t as int));
    }
}

/// The lowest set bit of a word: it is set, every bit below it is clear, and
/// `bits & (bits - 1)` clears exactly it.
proof fn lemma_lowest_bit(bits: u32) -> (lowest: u32)
    requires
        bits != 0,
    ensures
        lowest == u32_trailing_zeros(bits),
        lowest < 32,
        has_bit(bits, lowest as int),
        forall|s: int| 0 <= s < lowest ==> !has_bit(bits, s),
        bits & ((bits - 1) as u32) == bits & !(1u32 << lowest),
{
    axiom_u32_trailing_zeros(bits);
    let lowest = u32_trailing_zeros(bits);
    assert(bits & (1u32 << lowest) != 0) by (bit_vector)
        requires
            lowest < 32,
            (bits >> lowest) & 1u32 == 1u32,
    ;
    assert forall|s: int| 0 <= s < lowest implies !has_bit(bits, s) by {
        let t = s as u32;
        assert((bits >> t) & 1u32 == 0u32);
        assert(bits & (1u32 << t) == 0) by (bit_vector)
            requires
                t < 32,
                (bits >> t) & 1u32 == 0u32,
        ;
    }
    let less_one = (bits - 1) as u32;
    let above = (32 - lowest) as u32;
    assert(bits & less_one == bits & !(1u32 << lowest)) by (bit_vector)
        requires
            less_one == bits - 1,
            lowest < 32,
            (bits >> lowest) & 1u32 == 1u32,
            above == 32 - lowest,
            bits << above == 0,
    ;
    lowest
}

/// The listed squares do not depend on the part of the set at or above the bound.
proof fn lemma_ascending_gap(squares: Set<int>, low: nat, high: nat)
    requires
        low <= high,
        forall|s: int| low <= s < high ==> !squares.contains(s),
    ensures
        ascending(squares, high) == ascending(squares, low),
    decreases high - low,
{
    if low < high {
        lemma_ascending_gap(squares, low, (high - 1) as nat);
    }
}

/// What is listed is in the set and below the bound.
pub(crate) proof fn lemma_ascending_members(squares: Set<int>, bound: nat, i: int)
    requires
        bound <= 32,
        0 <= i < ascending(squares, bound).len(),
    ensures
        squares.contains(ascending(squares, bound)[i] as int),
        ascending(squares, bound)[i] < bound,
    decreases bound,
{
    let rest = ascending(squares, (bound - 1) as nat);
    if i < rest.len() {
        lemma_ascending_members(squares, (bound - 1) as nat, i);
    }
}

/// Every member below the bound is listed.
pub(crate) proof fn lemma_ascending_lists(squares: Set<int>, bound: nat, square: int) -> (i: int)
    requires
        bound <= 32,
        0 <= square < bound,
        squares.contains(square),
    ensures
        0 <= i < ascending(squares, bound).len(),
        ascending(squares, bound)[i] == square,
    decreases bound,
{
    if square == bound - 1 {
        ascending(squares, bound).len() - 1
    } else {
        lemma_ascending_lists(squares, (bound - 1) as nat, square)
    }
}

/// The indices of the set bits, from the lowest to the highest.
pub(crate) fn bit_indices(bits: u32) -> (indices: Vec<u8>)
    ensures
        indices@ == ascending(squares_of(bits), 32),
{
    let mut indices: Vec<u8> = Vec::new();
    let mut rest: u32 = bits;
    let ghost mut bound: nat = 0;
    let ghost all = squares_of(bits);
    while rest != 0
        invariant
            bound <= 32,
            indices@ == ascending(all, bound),
            forall|s: int| #[trigger] squares_of(rest).contains(s) <==> all.contains(s) && bound <= s,
        decreases 32 - bound,
    {
        let index: u8 = rest.trailing_zeros() as u8;
        proof {
            let lowest = lemma_lowest_bit(rest);
            lemma_clear_bit(rest, lowest);
            assert(squares_of(rest).contains(lowest as int));
            assert forall|s: int| bound <= s < lowest implies !all.contains(s) by {
                assert(!has_bit(rest, s));
                assert(!squares_of(rest).contains(s));
            }
            lemma_ascending_gap(all, bound, lowest as nat);
            bound = (lowest + 1) as nat;
        }
        rest = rest & (rest - 1);
        indices.push(index);
    }
    proof {
        lemma_no_bits(rest);
        assert forall|s: int| bound <= s < 32 implies !all.contains(s) by {
            assert(!squares_of(rest).contains(s));
        }
        lemma_ascending_gap(all, bound, 32);
    }
    indices
}

/// A word is known by the squares it holds.
pub proof fn law_words_are_known_by_their_squares(a: u32, b: u32)
    requires
        squares_of(a) == squares_of(b),
    ensures
        a == b,
{
    let differing = a ^ b;
    if differing != 0 {
        let t = lemma_lowest_bit(differing);
        assert((a & (1u32 << t) != 0) != (b & (1u32 << t) != 0)) by (bit_vector)
            requires
                t < 32,
                (a ^ b) & (1u32 << t) != 0,
        ;
        assert(has_bit(a, t as int) != has_bit(b, t as int));
        assert(squares_of(a).contains(t as int) == has_bit(a, t as int));
        assert(squares_of(b).contains(t as int) == has_bit(b, t as int));
    }
    assert(a ^ b == 0 ==> a == b) by (bit_vector);
}

/// Bit by bit: a square is in the set of a word exactly if shifting the word down by its
/// number leaves an odd word.
pub proof fn law_bits_are_squares(bits: u32, square: u32)
    requires
        square < 32,
    ensures
        squares_of(bits).contains(square as int) <==> (bits >> square) % 2 == 1,
        forall|s: int| #[trigger] squares_of(bits).contains(s) ==> 0 <= s < 32,
{
    assert(bits & (1u32 << square) != 0 <==> (bits >> square) % 2 == 1) by (bit_vector)
        requires
            square < 32,
    ;
}

/// The list of a set of squares holds its members, each once, in rising order.
pub proof fn law_lists_rise(squares: Set<int>, square: u8)
    requires
        forall|s: int| #[trigger] squares.contains(s) ==> 0 <= s < 32,
    ensures
        ascending(squares, 32).contains(square) <==> squares.contains(square as int),
        forall|i: int, j: int|
            0 <= i < j < ascending(squares, 32).len() ==> #[trigger] ascending(squares, 32)[i]
                < #[trigger] ascending(squares, 32)[j],
{
    let list = ascending(squares, 32);
    if list.contains(square) {
        let i = choose|i: int| 0 <= i < list.len() && list[i] == square;
        lemma_ascending_members(squares, 32, i);
    }
    if squares.contains(square as int) {
        let i = lemma_ascending_lists(squares, 32, square as int);
        assert(list[i] == square);
    }
    assert forall|i: int, j: int| 0 <= i < j < list.len() implies #[trigger] list[i]
        < #[trigger] list[j] by {
        lemma_ascending_order(squares, 32, i, j);
    }
}

/// The listed squares ascend.
pub(crate) proof fn lemma_ascending_order(squares: Set<int>, bound: nat, i: int, j: int)
    requires
        bound <= 32,
        0 <= i < j < ascending(squares, bound).len(),
    ensures
        ascending(squares, bound)[i] < ascending(squares, bound)[j],
    decreases bound,
{
    let rest = ascending(squares, (bound - 1) as nat);
    if j < rest.len() {
        lemma_ascending_order(squares, (bound - 1) as nat, i, j);
    } else {
        lemma_ascending_members(squares, (bound - 1) as nat, i);
    }
}

} // verus!
