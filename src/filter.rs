use vstd::prelude::*;
use crate::message::{CanFrame, FrameView, rx_text, tx_text};
use crate::text::str_eq;

verus! {

/// One byte of a data pattern: the frame byte at `position`, masked, must equal `value`
/// masked.
#[derive(Debug, Clone, Copy, PartialEq, Eq, Structural)]
pub struct DataByteMatch {
    pub position: u8,
    pub value: u8,
    pub mask: u8,
}

/// One filter rule.
#[derive(Debug, Clone)]
pub enum FilterRule {
    IdRange { min: u32, max: u32 },
    IdExact(u32),
    DataPattern { pattern: Vec<DataByteMatch> },
    DlcRange { min: u8, max: u8 },
    Direction { rx: bool, tx: bool },
    ExtendedId(bool),
    RemoteFrame(bool),
}

/// How the rules of a set combine.
#[derive(Debug, Clone, Copy, PartialEq, Eq, Structural)]
pub enum FilterLogic {
    And,
    Or,
}

/// A set of rules and the logic that combines them.
#[derive(Debug, Clone)]
pub struct FilterSet {
    pub rules: Vec<FilterRule>,
    pub logic: FilterLogic,
}

/// Whether one byte spec holds of a payload.
pub open spec fn byte_matches(m: DataByteMatch, data: Seq<u8>) -> bool {
    &&& (m.position as int) < data.len()
    &&& data[m.position as int] & m.mask == m.value & m.mask
}

/// Whether a rule matches a frame.
pub open spec fn rule_matches(r: FilterRule, f: FrameView) -> bool {
    match r {
        FilterRule::IdRange { min, max } => min <= f.id && f.id <= max,
        FilterRule::IdExact(id) => f.id == id,
        FilterRule::DataPattern { pattern } =>
            forall|i: int| 0 <= i < pattern@.len() ==> byte_matches(#[trigger] pattern@[i], f.data),
        FilterRule::DlcRange { min, max } => min <= f.dlc && f.dlc <= max,
        FilterRule::Direction { rx, tx } =>
            (f.direction == rx_text() && rx) || (f.direction == tx_text() && tx),
        FilterRule::ExtendedId(e) => f.is_extended == e,
        FilterRule::RemoteFrame(rem) => f.is_remote == rem,
    }
}

/// Whether a set of rules combined by `logic` matches a frame: an empty set matches every
/// frame.
pub open spec fn set_matches(rules: Seq<FilterRule>, logic: FilterLogic, f: FrameView) -> bool {
    if rules.len() == 0 {
        true
    } else {
        match logic {
            FilterLogic::And => forall|i: int| 0 <= i < rules.len() ==> rule_matches(#[trigger] rules[i], f),
            FilterLogic::Or => exists|i: int| 0 <= i < rules.len() && rule_matches(#[trigger] rules[i], f),
        }
    }
}

impl FilterRule {
    /// Whether this rule matches `frame`.
    pub fn matches(&self, frame: &CanFrame) -> (r: bool)
        ensures
            r == rule_matches(*self, frame@),
    {
        match self {
            FilterRule::IdRange { min, max } => frame.id >= *min && frame.id <= *max,
            FilterRule::IdExact(id) => frame.id == *id,
            FilterRule::DataPattern { pattern } => {
                let mut i: usize = 0;
                while i < pattern.len()
                    invariant
                        i <= pattern@.len(),
                        rule_matches(*self, frame@) == (forall|j: int| 0 <= j < pattern@.len()
                            ==> byte_matches(#[trigger] pattern@[j], frame.data@)),
                        forall|j: int| 0 <= j < i ==> byte_matches(#[trigger] pattern@[j], frame.data@),
                    decreases pattern.len() - i,
                {
                    let m = pattern[i];
                    if (m.position as usize) < frame.data.len() {
                        let b = frame.data[m.position as usize];
                        if (b & m.mask) != (m.value & m.mask) {
                            assert(!byte_matches(pattern@[i as int], frame.data@));
                            return false;
                        }
                    } else {
                        assert(!byte_matches(pattern@[i as int], frame.data@));
                        return false;
                    }
                    i = i + 1;
                }
                true
            },
            FilterRule::DlcRange { min, max } => frame.dlc >= *min && frame.dlc <= *max,
            FilterRule::Direction { rx, tx } => {
                proof {
                    reveal_strlit("rx");
                    reveal_strlit("tx");
                    assert("rx"@ =~= rx_text());
                    assert("tx"@ =~= tx_text());
                }
                (str_eq(frame.direction.as_str(), "rx") && *rx) || (str_eq(frame.direction.as_str(), "tx")
                    && *tx)
            },
            FilterRule::ExtendedId(e) => frame.is_extended == *e,
            FilterRule::RemoteFrame(rem) => frame.is_remote == *rem,
        }
    }
}

impl FilterSet {
    /// A set of `rules` combined by `logic`.
    pub fn new(rules: Vec<FilterRule>, logic: FilterLogic) -> (r: FilterSet)
        ensures
            r.rules@ == rules@,
            r.logic == logic,
    {
        FilterSet { rules, logic }
    }

    /// Whether the set matches `frame`: every frame when there are no rules, else all rules
    /// (And) or any rule (Or).
    pub fn matches(&self, frame: &CanFrame) -> (r: bool)
        ensures
            r == set_matches(self.rules@, self.logic, frame@),
    {
        if self.rules.len() == 0 {
            return true;
        }
        let mut i: usize = 0;
        match self.logic {
            FilterLogic::And => {
                while i < self.rules.len()
                    invariant
                        i <= self.rules@.len(),
                        self.logic == FilterLogic::And,
                        forall|j: int| 0 <= j < i ==> rule_matches(#[trigger] self.rules@[j], frame@),
                    decreases self.rules.len() - i,
                {
                    if !self.rules[i].matches(frame) {
                        return false;
                    }
                    i = i + 1;
                }
                true
            },
            FilterLogic::Or => {
                while i < self.rules.len()
                    invariant
                        i <= self.rules@.len(),
                        self.logic == FilterLogic::Or,
                        forall|j: int| 0 <= j < i ==> !rule_matches(#[trigger] self.rules@[j], frame@),
                    decreases self.rules.len() - i,
                {
                    if self.rules[i].matches(frame) {
                        return true;
                    }
                    i = i + 1;
                }
                false
            },
        }
    }

    /// Whether the set has no rules, so that it lets every frame through.
    pub fn is_empty(&self) -> (r: bool)
        ensures
            r == (self.rules@.len() == 0),
    {
        self.rules.len() == 0
    }
}

impl Default for FilterSet {
    fn default() -> (r: FilterSet)
        ensures
            r.rules@.len() == 0,
            r.logic == FilterLogic::And,
    {
        FilterSet { rules: Vec::new(), logic: FilterLogic::And }
    }
}

/// A set without rules matches every frame, whatever its logic.
pub proof fn lemma_empty_set_matches_all(logic: FilterLogic, f: FrameView)
    ensures
        set_matches(Seq::empty(), logic, f),
{
}

/// An And set matches exactly when every one of its rules does, and an Or set exactly when
/// one of them does (for a non-empty set of rules).
pub proof fn lemma_and_or(rules: Seq<FilterRule>, f: FrameView)
    requires
        rules.len() > 0,
    ensures
        set_matches(rules, FilterLogic::And, f) == (forall|i: int| 0 <= i < rules.len() ==> rule_matches(#[trigger] rules[i], f)),
        set_matches(rules, FilterLogic::Or, f) == (exists|i: int| 0 <= i < rules.len() && rule_matches(#[trigger] rules[i], f)),
{
}

} // verus!
