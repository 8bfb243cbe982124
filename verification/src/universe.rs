//! The candidate universe: every combination of a given number of spaces
//! over a given number of colours, in counting order.

use vstd::arithmetic::power::{lemma_pow_increases, lemma_pow_positive, pow};
use vstd::prelude::*;

verus! {

/// Whether `combination` fills `spaces` positions with colours below
/// `colors`.
pub open spec fn is_combination(combination: Seq<u8>, colors: nat, spaces: nat) -> bool {
    &&& combination.len() == spaces
    &&& forall|k: int| 0 <= k < combination.len() ==> combination[k] < colors
}

/// The number that `digits` writes in base `base`, least significant digit
/// first.
pub open spec fn numeral_value(digits: Seq<u8>, base: nat) -> nat
    decreases digits.len(),
{
    if digits.len() == 0 {
        0
    } else {
        digits[0] as nat + base * numeral_value(digits.drop_first(), base)
    }
}

/// The rows of a table of combinations as sequences of colours.
pub open spec fn rows(table: Seq<Vec<u8>>) -> Seq<Seq<u8>> {
    table.map_values(|row: Vec<u8>| row@)
}

/// Every combination of `num_spaces` positions over `num_colors` colours,
/// each exactly once.
///
/// The combination at index `i` writes the number `i` in base `num_colors`,
/// its first position being the least significant digit: the enumeration
/// counts upwards from all zeros.
#[derive(Clone)]
pub struct Universe {
    pub combinations: Vec<Vec<u8>>,
    pub num_colors: u8,
    pub num_spaces: u8,
}

/// A positive power is the base times the next lower power.
proof fn lemma_pow_unfold(base: int, exponent: nat)
    requires
        exponent > 0,
    ensures
        pow(base, exponent) == base * pow(base, (exponent - 1) as nat),
{
    reveal(pow);
}

/// Zeros write zero.
proof fn lemma_value_of_zeros(digits: Seq<u8>, base: nat)
    requires
        forall|k: int| 0 <= k < digits.len() ==> digits[k] == 0,
    ensures
        numeral_value(digits, base) == 0,
    decreases digits.len(),
{
    if digits.len() > 0 {
        lemma_value_of_zeros(digits.drop_first(), base);
        assert(base * 0 == 0);
    }
}

/// Changing one digit changes the value by the difference of the digits times
/// the weight of the position.
proof fn lemma_value_update(digits: Seq<u8>, position: int, digit: u8, base: nat)
    requires
        0 <= position < digits.len(),
    ensures
        numeral_value(digits.update(position, digit), base) + digits[position] * pow(
            base as int,
            position as nat,
        ) == numeral_value(digits, base) + digit * pow(base as int, position as nat),
    decreases position,
{
    let changed = digits.update(position, digit);
    if position == 0 {
        assert(changed.drop_first() =~= digits.drop_first());
        reveal(pow);
    } else {
        let rest = digits.drop_first();
        lemma_value_update(rest, position - 1, digit, base);
        assert(changed.drop_first() =~= rest.update(position - 1, digit));
        lemma_pow_unfold(base as int, position as nat);
        let weight = pow(base as int, (position - 1) as nat);
        let before = numeral_value(rest, base) as int;
        let after = numeral_value(rest.update(position - 1, digit), base) as int;
        let old_digit = digits[position] as int;
        let new_digit = digit as int;
        assert(base * after + old_digit * (base * weight) == base * before + new_digit * (base
            * weight)) by (nonlinear_arith)
            requires
                after + old_digit * weight == before + new_digit * weight,
        ;
    }
}

/// A numeral of `digits.len()` digits is below the base raised to that
/// length.
proof fn lemma_value_below_power(digits: Seq<u8>, base: nat)
    requires
        forall|k: int| 0 <= k < digits.len() ==> digits[k] < base,
    ensures
        numeral_value(digits, base) < pow(base as int, digits.len()),
    decreases digits.len(),
{
    if digits.len() == 0 {
        reveal(pow);
    } else {
        let rest = digits.drop_first();
        lemma_value_below_power(rest, base);
        lemma_pow_unfold(base as int, digits.len());
        let rest_value = numeral_value(rest, base) as int;
        let rest_bound = pow(base as int, rest.len());
        let first = digits[0] as int;
        assert(first + base * rest_value < base * rest_bound) by (nonlinear_arith)
            requires
                0 <= first < base,
                0 <= rest_value < rest_bound,
        ;
    }
}

/// Two numerals of the same length and base that write the same number have
/// the same digits.
pub proof fn lemma_numeral_unique(a: Seq<u8>, b: Seq<u8>, base: nat)
    requires
        a.len() == b.len(),
        forall|k: int| 0 <= k < a.len() ==> a[k] < base,
        forall|k: int| 0 <= k < b.len() ==> b[k] < base,
        numeral_value(a, base) == numeral_value(b, base),
    ensures
        a == b,
    decreases a.len(),
{
    if a.len() > 0 {
        let rest_a = numeral_value(a.drop_first(), base) as int;
        let rest_b = numeral_value(b.drop_first(), base) as int;
        let first_a = a[0] as int;
        let first_b = b[0] as int;
        assert(first_a == first_b && rest_a == rest_b) by (nonlinear_arith)
            requires
                0 <= first_a < base,
                0 <= first_b < base,
                first_a + base * rest_a == first_b + base * rest_b,
        ;
        lemma_numeral_unique(a.drop_first(), b.drop_first(), base);
        assert(a =~= seq![a[0]] + a.drop_first());
        assert(b =~= seq![b[0]] + b.drop_first());
    }
}

impl Universe {
    /// The combinations as sequences of colours.
    pub open spec fn view(&self) -> Seq<Seq<u8>> {
        rows(self.combinations@)
    }

    /// Whether this is the whole universe for its colours and spaces, in
    /// counting order, and small enough to be indexed by a `u32`.
    pub open spec fn wf(&self) -> bool {
        &&& self.num_colors > 0
        &&& self.combinations.len() == pow(self.num_colors as int, self.num_spaces as nat)
        &&& self.combinations.len() <= u32::MAX
        &&& forall|i: int|
            0 <= i < self.combinations.len() ==> {
                &&& is_combination(
                    (#[trigger] self.combinations[i])@,
                    self.num_colors as nat,
                    self.num_spaces as nat,
                )
                &&& numeral_value(self.combinations[i]@, self.num_colors as nat) == i
            }
    }

    /// The number of combinations of `num_spaces` positions over
    /// `num_colors` colours, where there is at least one colour and the
    /// number fits a `u32` index; `None` otherwise.
    pub fn size(num_colors: u8, num_spaces: u8) -> (size: Option<u32>)
        ensures
            match size {
                Some(n) => num_colors > 0 && n == pow(num_colors as int, num_spaces as nat),
                None => num_colors == 0 || pow(num_colors as int, num_spaces as nat) > u32::MAX,
            },
    {
        if num_colors == 0 {
            return None;
        }
        let mut size: u64 = 1;
        let mut spaces: u8 = 0;
        proof {
            reveal(pow);
        }
        while spaces < num_spaces
            invariant
                num_colors > 0,
                spaces <= num_spaces,
                size == pow(num_colors as int, spaces as nat),
                size <= u32::MAX,
            decreases num_spaces - spaces,
        {
            proof {
                lemma_pow_unfold(num_colors as int, (spaces + 1) as nat);
                assert(size * num_colors <= u32::MAX * 255 && size * num_colors == num_colors
                    * size) by (nonlinear_arith)
                    requires
                        0 <= size <= u32::MAX,
                        0 <= num_colors <= 255,
                ;
            }
            size = size * (num_colors as u64);
            spaces += 1;
            if size > u32::MAX as u64 {
                proof {
                    lemma_pow_increases(num_colors as nat, spaces as nat, num_spaces as nat);
                }
                return None;
            }
        }
        Some(size as u32)
    }

    /// Builds the universe by counting: starts at all zeros and increments a
    /// counter of `num_spaces` digits in base `num_colors`, first position
    /// fastest, until the last position overflows.
    ///
    /// With no spaces the universe holds the one empty combination.
    pub fn new(num_colors: u8, num_spaces: u8) -> (universe: Universe)
        requires
            num_colors > 0,
            pow(num_colors as int, num_spaces as nat) <= u32::MAX,
        ensures
            universe.wf(),
            universe.num_colors == num_colors,
            universe.num_spaces == num_spaces,
    {
        let ghost base = num_colors as nat;
        let ghost total = pow(num_colors as int, num_spaces as nat);
        let spaces: usize = num_spaces as usize;
        let mut combinations: Vec<Vec<u8>> = Vec::new();
        let mut combination: Vec<u8> = vec![0u8; spaces];
        proof {
            lemma_value_of_zeros(combination@, base);
            lemma_pow_positive(num_colors as int, num_spaces as nat);
            reveal(pow);
        }
        combinations.push(combination.clone());

        let mut index: usize = 0;
        while index < spaces
            invariant
                num_colors > 0,
                base == num_colors,
                spaces == num_spaces,
                total == pow(num_colors as int, num_spaces as nat),
                total <= u32::MAX,
                index <= spaces,
                is_combination(combination@, base, spaces as nat),
                forall|k: int| 0 <= k < index ==> combination[k] == 0,
                numeral_value(combination@, base) + pow(base as int, index as nat)
                    == combinations.len(),
                1 <= combinations.len() <= total,
                forall|i: int|
                    0 <= i < combinations.len() ==> {
                        &&& is_combination((#[trigger] combinations[i])@, base, spaces as nat)
                        &&& numeral_value(combinations[i]@, base) == i
                    },
            decreases total - combinations.len(), spaces - index,
        {
            let digit: u8 = combination[index];
            let ghost before = combination@;
            let ghost weight = pow(base as int, index as nat);
            if num_colors <= digit + 1 {
                combination.set(index, 0);
                proof {
                    lemma_value_update(before, index as int, 0, base);
                    lemma_pow_unfold(base as int, (index + 1) as nat);
                    assert(digit * weight + weight == base * weight) by (nonlinear_arith)
                        requires
                            digit + 1 == base,
                    ;
                }
                index += 1;
            } else {
                combination.set(index, digit + 1);
                proof {
                    lemma_value_update(before, index as int, (digit + 1) as u8, base);
                    assert((digit + 1) * weight == digit * weight + weight) by (nonlinear_arith);
                    lemma_value_below_power(combination@, base);
                    reveal(pow);
                }
                index = 0;
                combinations.push(combination.clone());
            }
        }
        Universe { combinations, num_colors, num_spaces }
    }

    /// The number of combinations.
    pub fn len(&self) -> (len: usize)
        ensures
            len == self.combinations.len(),
    {
        self.combinations.len()
    }

    /// No combination occurs at two indices.
    pub proof fn lemma_no_duplicates(&self, i: int, j: int)
        requires
            self.wf(),
            0 <= i < self.combinations.len(),
            0 <= j < self.combinations.len(),
            i != j,
        ensures
            self.combinations[i]@ != self.combinations[j]@,
    {
    }

    /// No combination is missing: each one stands at the index that it
    /// writes as a numeral.
    pub proof fn lemma_no_omissions(&self, combination: Seq<u8>)
        requires
            self.wf(),
            is_combination(combination, self.num_colors as nat, self.num_spaces as nat),
        ensures
            numeral_value(combination, self.num_colors as nat) < self.combinations.len(),
            self.combinations[numeral_value(combination, self.num_colors as nat) as int]@
                == combination,
    {
        let base = self.num_colors as nat;
        lemma_value_below_power(combination, base);
        let index = numeral_value(combination, base) as int;
        lemma_numeral_unique(self.combinations[index]@, combination, base);
    }
}

} // verus!
