//! How a finding is masked.

use vstd::prelude::*;
use crate::detect::entity::EntityKind;

verus! {

/// What stands in place of a value that is removed.
#[derive(Debug, Clone, PartialEq, Eq)]
pub enum Redaction {
    /// The Korean name of its kind, in brackets.
    Label,
    /// The English name of its kind, in brackets.
    Code,
    /// One character, as often as the value has characters.
    Fill(char),
    /// A fixed text. It tells neither the length nor the kind.
    Fixed(String),
}

/// How a finding is masked.
#[derive(Debug, Clone, PartialEq, Eq)]
pub enum Policy {
    /// The value is removed.
    Redact(Redaction),
    /// The middle of the value is covered. Lengths count characters.
    ///
    /// If nothing would be covered, all is: a short value must not show as a whole.
    Partial {
        /// How many characters show at the beginning.
        keep_prefix: usize,
        /// How many characters show at the end.
        keep_suffix: usize,
        /// What covers the others.
        fill: char,
    },
    /// The value becomes a pseudonym. Equal values become equal pseudonyms.
    ///
    /// Where few values are possible, as with registration numbers, a pseudonym can be found by
    /// trying them all by anyone who has the key.
    Hash {
        /// The key of the message authentication code.
        key: Vec<u8>,
        /// How many hexadecimal digits remain.
        len: usize,
    },
    /// The value becomes a token and can be restored.
    Tokenize,
}

impl Default for Policy {
    fn default() -> (r: Self)
        ensures
            r == Policy::Redact(Redaction::Label),
    {
        Policy::Redact(Redaction::Label)
    }
}

/// A policy for each kind.
#[derive(Debug, Clone, PartialEq, Eq)]
pub struct PolicySet {
    /// The policy for all kinds without one of their own.
    pub default: Policy,
    /// The policies of single kinds.
    pub overrides: Vec<(EntityKind, Policy)>,
}

/// The first place from `i` on where a kind has a policy of its own.
pub open spec fn slot_of(overrides: Seq<(EntityKind, Policy)>, entity: EntityKind, i: int) -> Option<int>
    decreases overrides.len() - i,
{
    if i < 0 || i >= overrides.len() {
        None
    } else if overrides[i].0 == entity {
        Some(i)
    } else {
        slot_of(overrides, entity, i + 1)
    }
}

/// No kind has two policies.
pub open spec fn distinct(overrides: Seq<(EntityKind, Policy)>) -> bool {
    forall|i: int, j: int| 0 <= i < j < overrides.len() ==> (#[trigger] overrides[i]).0 != (#[trigger] overrides[j]).0
}

proof fn lemma_slot(overrides: Seq<(EntityKind, Policy)>, entity: EntityKind, i: int)
    requires
        0 <= i,
    ensures
        slot_of(overrides, entity, i) matches Some(k) ==> i <= k < overrides.len() && overrides[k].0 == entity && forall|j: int|
            i <= j < k ==> (#[trigger] overrides[j]).0 != entity,
        slot_of(overrides, entity, i) is None ==> forall|j: int|
            i <= j < overrides.len() ==> (#[trigger] overrides[j]).0 != entity,
    decreases overrides.len() - i,
{
    if i < overrides.len() && overrides[i].0 != entity {
        lemma_slot(overrides, entity, i + 1);
    }
}

proof fn lemma_slot_is(overrides: Seq<(EntityKind, Policy)>, entity: EntityKind, i: int, k: int)
    requires
        0 <= i <= k <= overrides.len(),
        forall|j: int| i <= j < k ==> (#[trigger] overrides[j]).0 != entity,
        k < overrides.len() ==> overrides[k].0 == entity,
    ensures
        slot_of(overrides, entity, i) == if k < overrides.len() {
            Some(k)
        } else {
            None::<int>
        },
    decreases k - i,
{
    if i < k {
        lemma_slot_is(overrides, entity, i + 1, k);
    }
}

impl PolicySet {
    /// The policy for a kind.
    pub open spec fn assigned(self, entity: EntityKind) -> Policy {
        match slot_of(self.overrides@, entity, 0) {
            Some(i) => self.overrides@[i].1,
            None => self.default,
        }
    }

    /// Some policy makes tokens.
    pub open spec fn tokenizes(self) -> bool {
        self.default is Tokenize || exists|i: int|
            0 <= i < self.overrides@.len() && (#[trigger] self.overrides@[i]).1 is Tokenize
    }

    /// One policy for all kinds.
    pub fn new(default: Policy) -> (r: Self)
        ensures
            r.default == default,
            r.overrides@.len() == 0,
            forall|entity: EntityKind| #[trigger] r.assigned(entity) == default,
    {
        PolicySet { default, overrides: Vec::new() }
    }

    /// Where a kind has its policy, or the number of policies.
    fn slot(&self, entity: EntityKind) -> (r: usize)
        ensures
            r <= self.overrides@.len(),
            slot_of(self.overrides@, entity, 0) == if r < self.overrides@.len() {
                Some(r as int)
            } else {
                None::<int>
            },
    {
        let mut i: usize = 0;
        while i < self.overrides.len() && self.overrides[i].0 != entity
            invariant
                i <= self.overrides@.len(),
                forall|j: int| 0 <= j < i ==> (#[trigger] self.overrides@[j]).0 != entity,
            decreases self.overrides@.len() - i,
        {
            i += 1;
        }
        proof {
            lemma_slot_is(self.overrides@, entity, 0, i as int);
        }
        i
    }

    /// Gives a kind a policy of its own. A later one for the same kind takes the place of an
    /// earlier one.
    pub fn with(self, entity: EntityKind, policy: Policy) -> (r: Self)
        ensures
            r.assigned(entity) == policy,
            forall|other: EntityKind| other != entity ==> #[trigger] r.assigned(other) == self.assigned(other),
            r.default == self.default,
            distinct(self.overrides@) ==> distinct(r.overrides@),
            r.overrides@.len() == if slot_of(self.overrides@, entity, 0) is Some {
                self.overrides@.len()
            } else {
                self.overrides@.len() + 1
            },
    {
        let ghost old_list = self.overrides@;
        let i: usize = self.slot(entity);
        let mut set = self;
        if i < set.overrides.len() {
            set.overrides[i] = (entity, policy);
        } else {
            set.overrides.push((entity, policy));
        }
        proof {
            let list = set.overrides@;
            lemma_slot(old_list, entity, 0);
            lemma_slot_is(list, entity, 0, i as int);
            assert forall|other: EntityKind| other != entity implies #[trigger] set.assigned(other) == self.assigned(
                other,
            ) by {
                lemma_slot(old_list, other, 0);
                match slot_of(old_list, other, 0) {
                    Some(k) => {
                        assert(list[k] == old_list[k]);
                        assert forall|j: int| 0 <= j < k implies (#[trigger] list[j]).0 != other by {
                            if j != i {
                                assert(list[j] == old_list[j]);
                            }
                        }
                        lemma_slot_is(list, other, 0, k);
                    },
                    None => {
                        assert forall|j: int| 0 <= j < list.len() implies (#[trigger] list[j]).0 != other by {
                            if j != i {
                                assert(list[j] == old_list[j]);
                            }
                        }
                        lemma_slot_is(list, other, 0, list.len() as int);
                    },
                }
            }
            if distinct(old_list) {
                assert forall|a: int, b: int| 0 <= a < b < list.len() implies (#[trigger] list[a]).0 != (
                #[trigger] list[b]).0 by {
                    if a != i {
                        assert(list[a] == old_list[a]);
                    }
                    if b != i {
                        assert(list[b] == old_list[b]);
                    }
                    if i < old_list.len() {
                        assert(old_list[a].0 != old_list[b].0);
                    }
                }
            }
        }
        set
    }

    /// The policy for a kind.
    pub fn policy_for(&self, entity: EntityKind) -> (r: &Policy)
        ensures
            *r == self.assigned(entity),
            *r is Tokenize ==> self.tokenizes(),
    {
        let i: usize = self.slot(entity);
        if i < self.overrides.len() {
            &self.overrides[i].1
        } else {
            &self.default
        }
    }

    /// Whether some policy makes tokens, so that a restore map is needed.
    pub fn uses_tokenize(&self) -> (r: bool)
        ensures
            r == self.tokenizes(),
    {
        if let Policy::Tokenize = self.default {
            return true;
        }
        let mut i: usize = 0;
        while i < self.overrides.len()
            invariant
                i <= self.overrides@.len(),
                forall|j: int| 0 <= j < i ==> !((#[trigger] self.overrides@[j]).1 is Tokenize),
            decreases self.overrides@.len() - i,
        {
            if let Policy::Tokenize = self.overrides[i].1 {
                return true;
            }
            i += 1;
        }
        false
    }
}

impl Default for PolicySet {
    fn default() -> (r: Self)
        ensures
            r.overrides@.len() == 0,
            forall|entity: EntityKind| #[trigger] r.assigned(entity) == Policy::Redact(Redaction::Label),
    {
        PolicySet::new(Policy::default())
    }
}

} // verus!
