//! Detection rules and their validation.
//!
//! Three rule shapes are supported:
//!
//! - `atomic`   — a single-event `filter`.
//! - `threshold`— count matches within `window` seconds grouped by `group_by`.
//! - `chain`    — `step_1` then `step_2` within `window`, correlated on `match_on`.

use vstd::prelude::*;

use crate::text::{owned, str_eq};

verus! {

/// Why a rule set could not be loaded.
#[derive(Debug)]
pub enum RulesError {
    /// The rules file could not be read.
    Io { path: String, reason: String },
    /// The YAML text could not be parsed.
    Yaml(String),
    /// A rule lacks what its type requires, or its filter does not parse.
    Invalid { id: String, reason: String },
}

/// The message of a rules error.
pub open spec fn rules_error_text(e: RulesError) -> Seq<char> {
    match e {
        RulesError::Io { path, reason } => "failed to read rules file "@ + path@ + ": "@ + reason@,
        RulesError::Yaml(m) => "failed to parse YAML: "@ + m@,
        RulesError::Invalid { id, reason } => "rule '"@ + id@ + "' is invalid: "@ + reason@,
    }
}

impl RulesError {
    /// The error's message, as `Display` would write it.
    pub fn message(&self) -> (r: String)
        ensures
            r@ == rules_error_text(*self),
    {
        match self {
            RulesError::Io { path, reason } => crate::text::concat4(
                "failed to read rules file ",
                path.as_str(),
                ": ",
                reason.as_str(),
            ),
            RulesError::Yaml(m) => crate::text::concat("failed to parse YAML: ", m.as_str()),
            RulesError::Invalid { id, reason } => crate::text::concat4(
                "rule '",
                id.as_str(),
                "' is invalid: ",
                reason.as_str(),
            ),
        }
    }
}

/// The kind of a detection rule.
#[derive(Debug, Clone, Copy, PartialEq, Eq, Structural)]
pub enum RuleType {
    Atomic,
    Threshold,
    Chain,
}

/// One step of a `chain` rule.
#[derive(Debug, Clone)]
pub struct RuleStep {
    pub class: Option<u32>,
    pub filter: String,
}

/// A single detection rule (union of atomic/threshold/chain fields).
#[derive(Debug, Clone)]
pub struct Rule {
    pub id: String,
    pub name: String,
    pub rule_type: RuleType,
    pub severity: String,
    pub class: Option<u32>,
    pub description: String,
    pub mitre_attack: Option<String>,
    pub filter: Option<String>,
    pub threshold: Option<u64>,
    pub window: Option<u64>,
    pub group_by: Option<String>,
    pub step_1: Option<RuleStep>,
    pub step_2: Option<RuleStep>,
    pub match_on: Option<String>,
}

/// What is wrong with a rule's shape, if anything: the fields its type
/// requires, checked in order.
pub open spec fn rule_problem(r: Rule) -> Option<Seq<char>> {
    match r.rule_type {
        RuleType::Atomic => if r.filter is None {
            Some("atomic rule requires `filter`"@)
        } else {
            None
        },
        RuleType::Threshold => if r.filter is None {
            Some("threshold rule requires `filter`"@)
        } else if r.threshold is None || r.window is None {
            Some("threshold rule requires `threshold` and `window`"@)
        } else {
            None
        },
        RuleType::Chain => if r.step_1 is None || r.step_2 is None {
            Some("chain rule requires `step_1` and `step_2`"@)
        } else if r.match_on is None || r.window is None {
            Some("chain rule requires `match_on` and `window`"@)
        } else {
            None
        },
    }
}

/// `e` is the `Invalid` error of rule `id` with message `reason`.
pub open spec fn is_invalid(e: RulesError, id: Seq<char>, reason: Seq<char>) -> bool {
    e matches RulesError::Invalid { id: i, reason: m } && i@ == id && m@ == reason
}

impl Rule {
    /// Check that the fields required by this rule's `type` are present.
    pub fn validate(&self) -> (r: Result<(), RulesError>)
        ensures
            match rule_problem(*self) {
                None => r is Ok,
                Some(m) => r matches Err(e) && is_invalid(e, self.id@, m),
            },
    {
        let problem: Option<&str> = match self.rule_type {
            RuleType::Atomic => if self.filter.is_none() {
                Some("atomic rule requires `filter`")
            } else {
                None
            },
            RuleType::Threshold => if self.filter.is_none() {
                Some("threshold rule requires `filter`")
            } else if self.threshold.is_none() || self.window.is_none() {
                Some("threshold rule requires `threshold` and `window`")
            } else {
                None
            },
            RuleType::Chain => if self.step_1.is_none() || self.step_2.is_none() {
                Some("chain rule requires `step_1` and `step_2`")
            } else if self.match_on.is_none() || self.window.is_none() {
                Some("chain rule requires `match_on` and `window`")
            } else {
                None
            },
        };
        match problem {
            Some(m) => Err(RulesError::Invalid { id: owned(self.id.as_str()), reason: owned(m) }),
            None => Ok(()),
        }
    }
}

/// The full contents of a rules file.
#[derive(Debug, Clone)]
pub struct RuleSet {
    pub detection_rules: Vec<Rule>,
}

/// The first rule at or after `i` whose shape is wrong, if any.
pub open spec fn first_problem(rs: Seq<Rule>, i: int) -> Option<(Seq<char>, Seq<char>)>
    decreases rs.len() - i,
{
    if i < 0 || i >= rs.len() {
        None
    } else {
        match rule_problem(rs[i]) {
            Some(m) => Some((rs[i].id@, m)),
            None => first_problem(rs, i + 1),
        }
    }
}

/// The index of the first rule at or after `i` with the given id, if any.
pub open spec fn find_rule(rs: Seq<Rule>, id: Seq<char>, i: int) -> Option<int>
    decreases rs.len() - i,
{
    if i < 0 || i >= rs.len() {
        None
    } else if rs[i].id@ == id {
        Some(i)
    } else {
        find_rule(rs, id, i + 1)
    }
}

impl RuleSet {
    /// The number of rules.
    pub fn len(&self) -> (n: usize)
        ensures
            n == self.detection_rules@.len(),
    {
        self.detection_rules.len()
    }

    /// Whether there are no rules.
    pub fn is_empty(&self) -> (b: bool)
        ensures
            b == (self.detection_rules@.len() == 0),
    {
        self.detection_rules.len() == 0
    }

    /// The first rule with the given id.
    pub fn get(&self, id: &str) -> (r: Option<&Rule>)
        ensures
            match find_rule(self.detection_rules@, id@, 0) {
                Some(i) => r == Some(&self.detection_rules@[i]),
                None => r is None,
            },
    {
        let mut i: usize = 0;
        while i < self.detection_rules.len()
            invariant
                i <= self.detection_rules@.len(),
                find_rule(self.detection_rules@, id@, 0) == find_rule(self.detection_rules@, id@, i as int),
            decreases self.detection_rules@.len() - i,
        {
            if str_eq(self.detection_rules[i].id.as_str(), id) {
                return Some(&self.detection_rules[i]);
            }
            i = i + 1;
        }
        None
    }

    /// Check every rule in order; the first rule with a missing field gives
    /// the error.
    pub fn validate(&self) -> (r: Result<(), RulesError>)
        ensures
            match first_problem(self.detection_rules@, 0) {
                None => r is Ok,
                Some((id, m)) => r matches Err(e) && is_invalid(e, id, m),
            },
    {
        let mut i: usize = 0;
        while i < self.detection_rules.len()
            invariant
                i <= self.detection_rules@.len(),
                first_problem(self.detection_rules@, 0) == first_problem(self.detection_rules@, i as int),
            decreases self.detection_rules@.len() - i,
        {
            let r = self.detection_rules[i].validate();
            if r.is_err() {
                return r;
            }
            i = i + 1;
        }
        Ok(())
    }
}

} // verus!
