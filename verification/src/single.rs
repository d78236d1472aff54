//! Single-precision numbers as bit patterns.
use vstd::prelude::*;

verus! {

/// A single-precision number in the IEEE 754 binary format, kept as its bit
/// pattern. The library stores, compares and orders such numbers; it does not compute
/// with them.
#[derive(Debug, Clone, Copy)]
pub struct Single {
    pub bits: u32,
}

impl PartialEq for Single {
    fn eq(&self, other: &Self) -> (equal: bool) {
        self.magnitude() <= 0x7f80_0000 && other.magnitude() <= 0x7f80_0000 && (self.bits
            == other.bits || (self.magnitude() == 0 && other.magnitude() == 0))
    }
}

/// Two numbers are equal as IEEE 754 has it: one that is not a number equals nothing, and
/// the two zeros are equal.
impl vstd::std_specs::cmp::PartialEqSpecImpl for Single {
    open spec fn obeys_eq_spec() -> bool {
        true
    }

    open spec fn eq_spec(&self, other: &Self) -> bool {
        self.size() <= 0x7f80_0000 && other.size() <= 0x7f80_0000 && (self.bits == other.bits || (
        self.size() == 0 && other.size() == 0))
    }
}

impl Single {
    /// The pattern without its sign. It is at most that of infinity, unless the pattern
    /// stands for no number.
    pub open spec fn size(self) -> int {
        if self.bits < 0x8000_0000 {
            self.bits as int
        } else {
            self.bits - 0x8000_0000
        }
    }

    /// The pattern without its sign; see [`Single::size`].
    fn magnitude(self) -> (size: u32)
        ensures
            size == self.size(),
    {
        if self.bits < 0x8000_0000 {
            self.bits
        } else {
            self.bits - 0x8000_0000
        }
    }

    /// The place of the number in the total order of all bit patterns: the sign
    /// bit first, and among negative patterns the larger magnitude first.
    pub open spec fn rank(self) -> int {
        if self.bits < 0x8000_0000 {
            self.bits as int
        } else {
            0x7fff_ffff - self.bits
        }
    }

    /// The pattern of one of the numbers -1, 0 and 1.
    pub open spec fn of_sign(sign: int) -> Single {
        if sign > 0 {
            Single { bits: 0x3f80_0000 }
        } else if sign < 0 {
            Single { bits: 0xbf80_0000 }
        } else {
            Single { bits: 0 }
        }
    }

    /// Whether the pattern stands for a number greater than zero.
    pub open spec fn is_positive(self) -> bool {
        0 < self.bits <= 0x7f80_0000
    }

    /// Whether the pattern stands for a number from minus one to one.
    pub open spec fn within_unit(self) -> bool {
        Self::of_sign(-1).rank() <= self.rank() <= Self::of_sign(1).rank()
    }

    /// Zero.
    pub fn zero() -> (number: Self)
        ensures
            number == Self::of_sign(0),
    {
        Self { bits: 0 }
    }

    /// One.
    pub fn one() -> (number: Self)
        ensures
            number == Self::of_sign(1),
    {
        Self { bits: 0x3f80_0000 }
    }

    /// Minus one.
    pub fn minus_one() -> (number: Self)
        ensures
            number == Self::of_sign(-1),
    {
        Self { bits: 0xbf80_0000 }
    }

    /// The place of the number in the total order; see [`Single::rank`].
    fn order(self) -> (place: i64)
        ensures
            place == self.rank(),
    {
        if self.bits < 0x8000_0000 {
            self.bits as i64
        } else {
            0x7fff_ffff - self.bits as i64
        }
    }
}

/// Whether `i` is the index of the greatest of the numbers and, among equally
/// great ones, the last.
pub open spec fn is_last_greatest(numbers: Seq<Single>, i: int) -> bool {
    &&& 0 <= i < numbers.len()
    &&& forall|j: int| 0 <= j < numbers.len() ==> (#[trigger] numbers[j]).rank() <= numbers[i].rank()
    &&& forall|j: int| i < j < numbers.len() ==> (#[trigger] numbers[j]).rank() < numbers[i].rank()
}

/// The index of the greatest number, the last one among equals; none if there are
/// no numbers.
pub fn last_greatest(numbers: &Vec<Single>) -> (index: Option<usize>)
    ensures
        index is None <==> numbers@.len() == 0,
        index matches Some(i) ==> is_last_greatest(numbers@, i as int),
{
    if numbers.len() == 0 {
        return None;
    }
    let mut best: usize = 0;
    let mut i: usize = 1;
    while i < numbers.len()
        invariant
            1 <= i <= numbers@.len(),
            is_last_greatest(numbers@.take(i as int), best as int),
        decreases numbers.len() - i,
    {
        assert forall|j: int| 0 <= j < i implies numbers@.take(i + 1)[j] == numbers@.take(
            i as int,
        )[j] by {}
        if numbers[i].order() >= numbers[best].order() {
            best = i;
        }
        i += 1;
    }
    assert(numbers@.take(i as int) =~= numbers@);
    Some(best)
}

/// There is only one index of the last greatest number.
pub proof fn law_last_greatest_is_unique(numbers: Seq<Single>, i: int, j: int)
    requires
        is_last_greatest(numbers, i),
        is_last_greatest(numbers, j),
    ensures
        i == j,
{
    assert(numbers[i].rank() <= numbers[j].rank());
    assert(numbers[j].rank() <= numbers[i].rank());
}

/// The order of the patterns: those without the sign bit rise with the pattern, those with
/// it fall, and all of the latter come before all of the former. Different patterns have
/// different places.
pub proof fn law_patterns_are_ordered(a: Single, b: Single)
    ensures
        a.bits < 0x8000_0000 && b.bits < 0x8000_0000 ==> (a.rank() < b.rank() <==> a.bits
            < b.bits),
        a.bits >= 0x8000_0000 && b.bits >= 0x8000_0000 ==> (a.rank() < b.rank() <==> a.bits
            > b.bits),
        a.bits >= 0x8000_0000 && b.bits < 0x8000_0000 ==> a.rank() < b.rank(),
        a.rank() == b.rank() ==> a == b,
{
}

/// Whether a pattern stands for a number: an infinity or a finite one, of either sign.
pub open spec fn is_number(a: Single) -> bool {
    a.bits <= 0x7f80_0000 || 0x8000_0000 <= a.bits <= 0xff80_0000
}

/// Numbers are equal if their patterns are, and the two zeros are equal. What is no number
/// equals nothing, not even itself.
pub proof fn law_equal_patterns(a: Single, b: Single)
    ensures
        vstd::std_specs::cmp::PartialEqSpec::eq_spec(&a, &b) <==> {
            &&& is_number(a)
            &&& is_number(b)
            &&& a.bits == b.bits || ((a.bits == 0 || a.bits == 0x8000_0000) && (b.bits == 0
                || b.bits == 0x8000_0000))
        },
{
}

/// The patterns of minus one, zero and one.
pub proof fn law_signs_as_patterns(sign: int)
    ensures
        sign > 0 ==> Single::of_sign(sign).bits == 0x3f80_0000,
        sign == 0 ==> Single::of_sign(sign).bits == 0,
        sign < 0 ==> Single::of_sign(sign).bits == 0xbf80_0000,
{
}

} // verus!
