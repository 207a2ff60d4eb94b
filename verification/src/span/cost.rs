//! How far a piece of normalized text has moved from its source.

use vstd::prelude::*;

verus! {

/// Counts of the changes that normalization made. The detector lowers its confidence by them.
///
/// Every count saturates at the largest `u16`.
#[derive(Debug, Clone, Copy, PartialEq, Eq, Structural)]
pub struct NormalizationCost {
    /// Whitespace characters absorbed.
    pub absorbed_whitespace: u16,
    /// Separators absorbed.
    pub absorbed_separators: u16,
    /// Hangul syllables read as digits.
    pub expanded_syllables: u16,
    /// Characters replaced.
    pub replaced_chars: u16,
}

/// Addition that saturates at the largest `u16`.
pub open spec fn saturating(a: u16, b: u16) -> u16 {
    if a + b > u16::MAX {
        u16::MAX
    } else {
        (a + b) as u16
    }
}

/// The count `n`, saturated at the largest `u16`.
pub open spec fn clamped(n: nat) -> u16 {
    if n > u16::MAX {
        u16::MAX
    } else {
        n as u16
    }
}

/// No change at all.
pub open spec fn no_cost() -> NormalizationCost {
    NormalizationCost {
        absorbed_whitespace: 0,
        absorbed_separators: 0,
        expanded_syllables: 0,
        replaced_chars: 0,
    }
}

impl NormalizationCost {
    /// Field by field saturating sum.
    pub open spec fn plus(self, other: NormalizationCost) -> NormalizationCost {
        NormalizationCost {
            absorbed_whitespace: saturating(self.absorbed_whitespace, other.absorbed_whitespace),
            absorbed_separators: saturating(self.absorbed_separators, other.absorbed_separators),
            expanded_syllables: saturating(self.expanded_syllables, other.expanded_syllables),
            replaced_chars: saturating(self.replaced_chars, other.replaced_chars),
        }
    }

    /// Whether nothing changed.
    pub fn is_zero(&self) -> (r: bool)
        ensures
            r == (*self == no_cost()),
    {
        self.absorbed_whitespace == 0 && self.absorbed_separators == 0 && self.expanded_syllables == 0
            && self.replaced_chars == 0
    }

    /// Adds another cost. Each count saturates at the largest `u16`.
    pub fn add(&mut self, other: &Self)
        ensures
            *final(self) == old(self).plus(*other),
    {
        self.absorbed_whitespace = self.absorbed_whitespace.saturating_add(other.absorbed_whitespace);
        self.absorbed_separators = self.absorbed_separators.saturating_add(other.absorbed_separators);
        self.expanded_syllables = self.expanded_syllables.saturating_add(other.expanded_syllables);
        self.replaced_chars = self.replaced_chars.saturating_add(other.replaced_chars);
    }
}

impl Default for NormalizationCost {
    fn default() -> (r: Self)
        ensures
            r == no_cost(),
    {
        NormalizationCost {
            absorbed_whitespace: 0,
            absorbed_separators: 0,
            expanded_syllables: 0,
            replaced_chars: 0,
        }
    }
}

/// Limits a count to a `u16`.
pub fn clamp_u16(n: u32) -> (r: u16)
    ensures
        r == clamped(n as nat),
{
    if n > 65535 {
        65535
    } else {
        n as u16
    }
}

/// Costs can be summed in any grouping.
pub proof fn law_cost_sum_associative(a: NormalizationCost, b: NormalizationCost, c: NormalizationCost)
    ensures
        a.plus(b).plus(c) == a.plus(b.plus(c)),
{
}

/// Costs can be summed in any order.
pub proof fn law_cost_sum_commutative(a: NormalizationCost, b: NormalizationCost)
    ensures
        a.plus(b) == b.plus(a),
{
}

/// Adding nothing changes nothing.
pub proof fn law_cost_sum_zero(a: NormalizationCost)
    ensures
        a.plus(no_cost()) == a,
        no_cost().plus(a) == a,
{
}

} // verus!
