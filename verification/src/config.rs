//! Mapping configuration: which OCSF class and field paths each source event
//! type maps to.
//!
//! ```yaml
//! event_mapping:
//!   "4624":
//!     ocsf_class: 3002
//!     description: "Account logon - successful"
//!     mapping:
//!       TargetUserName: user.name
//!       IpAddress: src_endpoint.ip
//! ```

use vstd::prelude::*;

use crate::strmap::StrMap;
use crate::tally::{lemma_lex_trans, lex_lt, str_less};
use crate::text::{concat, concat4, owned, str_eq};

verus! {

/// Errors that can occur while loading a mapping configuration.
#[derive(Debug)]
pub enum ConfigError {
    /// The configuration file could not be read.
    Io { path: String, reason: String },
    /// The YAML text could not be parsed.
    Yaml(String),
    /// The configuration is not usable.
    Invalid(String),
}

/// The message of a configuration error.
pub open spec fn config_error_text(e: ConfigError) -> Seq<char> {
    match e {
        ConfigError::Io { path, reason } => "failed to read config file "@ + path@ + ": "@ + reason@,
        ConfigError::Yaml(m) => "failed to parse YAML: "@ + m@,
        ConfigError::Invalid(m) => "mapping validation failed: "@ + m@,
    }
}

impl ConfigError {
    /// The error's message, as `Display` would write it.
    pub fn message(&self) -> (r: String)
        ensures
            r@ == config_error_text(*self),
    {
        match self {
            ConfigError::Io { path, reason } => concat4("failed to read config file ", path.as_str(), ": ", reason.as_str()),
            ConfigError::Yaml(m) => concat("failed to parse YAML: ", m.as_str()),
            ConfigError::Invalid(m) => concat("mapping validation failed: ", m.as_str()),
        }
    }
}

/// The mapping for a single source event type.
#[derive(Debug, Clone)]
pub struct EventMapping {
    /// Target OCSF class UID (e.g. `3002` for Authentication).
    pub ocsf_class: u32,
    pub description: String,
    /// Source field name → dotted OCSF path (e.g. `TargetUserName: user.name`),
    /// applied in the order of its entries.
    pub mapping: StrMap,
}

/// The full contents of a mappings file: each Windows Event ID (as a string
/// key, e.g. `"4624"`) with its OCSF mapping, in key order.
#[derive(Debug, Clone)]
pub struct MappingConfig {
    pub event_mapping: Vec<(String, EventMapping)>,
}

/// The event ids are in strictly ascending order, so none occurs twice (the
/// order and uniqueness of a map keyed by event id).
pub open spec fn ids_ascending(ms: Seq<(String, EventMapping)>) -> bool {
    forall|i: int, j: int| 0 <= i < j < ms.len() ==> lex_lt(#[trigger] ms[i].0@, #[trigger] ms[j].0@)
}

/// The first entry at or after `i` for `id`, if any.
pub open spec fn find_mapping(ms: Seq<(String, EventMapping)>, id: Seq<char>, i: int) -> Option<int>
    decreases ms.len() - i,
{
    if i < 0 || i >= ms.len() {
        None
    } else if ms[i].0@ == id {
        Some(i)
    } else {
        find_mapping(ms, id, i + 1)
    }
}

/// The first entry at or after `i` whose class is zero, if any.
pub open spec fn first_zero_class(ms: Seq<(String, EventMapping)>, i: int) -> Option<int>
    decreases ms.len() - i,
{
    if i < 0 || i >= ms.len() {
        None
    } else if ms[i].1.ocsf_class == 0 {
        Some(i)
    } else {
        first_zero_class(ms, i + 1)
    }
}

/// Why a configuration is unusable, if it is: no mappings at all, or a
/// mapping to class zero.
pub open spec fn config_problem(ms: Seq<(String, EventMapping)>) -> Option<Seq<char>> {
    if ms.len() == 0 {
        Some("event_mapping is empty"@)
    } else {
        match first_zero_class(ms, 0) {
            Some(i) => Some("event "@ + ms[i].0@ + ": ocsf_class must be non-zero"@),
            None => None,
        }
    }
}

impl MappingConfig {
    /// The invariant of a configuration: event ids strictly ascending.
    pub open spec fn wf(&self) -> bool {
        ids_ascending(self.event_mapping@)
    }

    /// Whether the event ids are strictly ascending (the invariant holds).
    pub fn ids_in_order(&self) -> (b: bool)
        ensures
            b == self.wf(),
    {
        if self.event_mapping.len() == 0 {
            return true;
        }
        let mut k: usize = 0;
        let last = self.event_mapping.len() - 1;
        while k < last
            invariant
                last == self.event_mapping@.len() - 1,
                k <= last,
                forall|i: int, j: int| 0 <= i < j <= k ==> lex_lt(#[trigger] self.event_mapping@[i].0@, #[trigger] self.event_mapping@[j].0@),
            decreases self.event_mapping@.len() - k,
        {
            let ordered = str_less(self.event_mapping[k].0.as_str(), self.event_mapping[k + 1].0.as_str());
            if !ordered {
                proof {
                    assert(!lex_lt(self.event_mapping@[k as int].0@, self.event_mapping@[k + 1].0@));
                    assert(!ids_ascending(self.event_mapping@)) by {
                        if ids_ascending(self.event_mapping@) {
                            let x = self.event_mapping@;
                            assert(lex_lt(x[k as int].0@, x[k + 1].0@));
                        }
                    }
                }
                return false;
            }
            proof {
                assert forall|i: int, j: int| 0 <= i < j <= k + 1 implies lex_lt(#[trigger] self.event_mapping@[i].0@, #[trigger] self.event_mapping@[j].0@) by {
                    if j == k + 1 && i < k {
                        lemma_lex_trans(self.event_mapping@[i].0@, self.event_mapping@[k as int].0@, self.event_mapping@[k + 1].0@);
                    }
                }
            }
            k = k + 1;
        }
        true
    }

    /// Number of configured event mappings.
    pub fn len(&self) -> (n: usize)
        ensures
            n == self.event_mapping@.len(),
    {
        self.event_mapping.len()
    }

    /// Whether no event is mapped.
    pub fn is_empty(&self) -> (b: bool)
        ensures
            b == (self.event_mapping@.len() == 0),
    {
        self.event_mapping.len() == 0
    }

    /// Look up the mapping for a source event id (e.g. `"4624"`).
    pub fn get(&self, event_id: &str) -> (r: Option<&EventMapping>)
        ensures
            match find_mapping(self.event_mapping@, event_id@, 0) {
                Some(i) => r == Some(&self.event_mapping@[i].1),
                None => r is None,
            },
    {
        let mut i: usize = 0;
        while i < self.event_mapping.len()
            invariant
                i <= self.event_mapping@.len(),
                find_mapping(self.event_mapping@, event_id@, 0) == find_mapping(self.event_mapping@, event_id@, i as int),
            decreases self.event_mapping@.len() - i,
        {
            if str_eq(self.event_mapping[i].0.as_str(), event_id) {
                return Some(&self.event_mapping[i].1);
            }
            i = i + 1;
        }
        None
    }

    /// Check that something is mapped and that every class is non-zero.
    pub fn validate(&self) -> (r: Result<(), ConfigError>)
        requires
            self.wf(),
        ensures
            match config_problem(self.event_mapping@) {
                None => r is Ok,
                Some(m) => r matches Err(ConfigError::Invalid(x)) && x@ == m,
            },
    {
        if self.event_mapping.len() == 0 {
            return Err(ConfigError::Invalid(owned("event_mapping is empty")));
        }
        let mut i: usize = 0;
        while i < self.event_mapping.len()
            invariant
                i <= self.event_mapping@.len(),
                first_zero_class(self.event_mapping@, 0) == first_zero_class(self.event_mapping@, i as int),
            decreases self.event_mapping@.len() - i,
        {
            if self.event_mapping[i].1.ocsf_class == 0 {
                let msg = concat4("event ", self.event_mapping[i].0.as_str(), ": ocsf_class must be non-zero", "");
                proof {
                    reveal_strlit("");
                    assert(""@ =~= Seq::<char>::empty());
                }
                return Err(ConfigError::Invalid(msg));
            }
            i = i + 1;
        }
        Ok(())
    }
}

} // verus!
