//! The detection engine: compiles rules into an executable form and evaluates
//! a stream of events, emitting alerts.
//!
//! Three detector shapes:
//!
//! - **atomic** — fires on every event matching an (optional) class gate and a
//!   filter expression.
//! - **threshold** — counts filter-matching events sharing a `group_by` value in
//!   a sliding `window`; fires when the count reaches `threshold`, then resets
//!   that group's window.
//! - **sequence** — the generalized `chain`: `step_1 … step_N` correlated on a
//!   `match_on` field, each within `window` of the first step. The highest step
//!   an event satisfies is the one it plays; completed sequences fire without
//!   clearing their predecessors, so one seed can fire again.
//!
//! [`Engine::run`] orders events by timestamp (then event id) first, so window
//! arithmetic is correct across interleaved sources.

use vstd::prelude::*;
use vstd::relations::injective_on;
use vstd::set_lib::{lemma_int_range, lemma_map_size, lemma_subset_equality, set_int_range};

use crate::dsl::{expr_holds, expr_v, fail_text, lemma_fail_text, parse_spec, Expr, ExprV, ParseFail};
use crate::event::{event_lookup, Event};
use crate::num::{dec_int, i64_to_string};
use crate::rules::{is_invalid, Rule, RuleSet, RuleType, RulesError};
use crate::text::{ascii_lower, chars_of, find, find_chars, owned, slice_of, str_eq, string_from, trim, trim_chars};

verus! {

// ---------------------------------------------------------------------------
// Alerts
// ---------------------------------------------------------------------------

/// A detection result. `alert_id` is deterministic (`rule_id:group:ts`), so
/// re-running detection is idempotent.
#[derive(Debug, Clone)]
pub struct Alert {
    pub alert_id: String,
    pub rule_id: String,
    pub rule_name: String,
    pub severity: String,
    /// Full MITRE tag as written in the rule (`"T1110 - Brute Force"`).
    pub mitre: Option<String>,
    /// Just the technique/tactic id (`"T1110"`).
    pub mitre_id: Option<String>,
    pub description: String,
    pub rule_type: RuleType,
    /// Fire time in epoch-ms (the triggering event's timestamp).
    pub ts: i64,
    /// The group / correlation value that anchored the alert, if any.
    pub group_key: Option<String>,
    /// Contributing event ids.
    pub event_ids: Vec<u64>,
}

/// The model of an alert.
pub struct AlertV {
    pub alert_id: Seq<char>,
    pub rule_id: Seq<char>,
    pub rule_name: Seq<char>,
    pub severity: Seq<char>,
    pub mitre: Option<Seq<char>>,
    pub mitre_id: Option<Seq<char>>,
    pub description: Seq<char>,
    pub rule_type: RuleType,
    pub ts: i64,
    pub group_key: Option<Seq<char>>,
    pub event_ids: Seq<u64>,
}

/// The view of an optional string.
pub open spec fn ostr(o: Option<String>) -> Option<Seq<char>> {
    match o {
        Some(s) => Some(s@),
        None => None,
    }
}

/// The model of an alert.
pub open spec fn alert_v(a: Alert) -> AlertV {
    AlertV {
        alert_id: a.alert_id@,
        rule_id: a.rule_id@,
        rule_name: a.rule_name@,
        severity: a.severity@,
        mitre: ostr(a.mitre),
        mitre_id: ostr(a.mitre_id),
        description: a.description@,
        rule_type: a.rule_type,
        ts: a.ts,
        group_key: ostr(a.group_key),
        event_ids: a.event_ids@,
    }
}

/// The models of a list of alerts.
pub open spec fn alerts_v(s: Seq<Alert>) -> Seq<AlertV> {
    s.map_values(|a: Alert| alert_v(a))
}

/// The technique id of a MITRE tag: the text before the first `" - "`
/// (all of it when there is none), trimmed.
pub open spec fn mitre_id_of(m: Seq<char>) -> Seq<char> {
    match find(m, " - "@) {
        Some(i) => trim(m.subrange(0, i)),
        None => trim(m),
    }
}

/// Shared rule metadata carried onto every alert.
#[derive(Debug, Clone)]
pub struct Meta {
    pub id: String,
    pub name: String,
    pub severity: String,
    pub description: String,
    pub mitre: Option<String>,
    pub rule_type: RuleType,
}

/// The model of rule metadata.
pub struct MetaV {
    pub id: Seq<char>,
    pub name: Seq<char>,
    pub severity: Seq<char>,
    pub description: Seq<char>,
    pub mitre: Option<Seq<char>>,
    pub rule_type: RuleType,
}

/// The model of rule metadata.
pub open spec fn meta_v(m: Meta) -> MetaV {
    MetaV {
        id: m.id@,
        name: m.name@,
        severity: m.severity@,
        description: m.description@,
        mitre: ostr(m.mitre),
        rule_type: m.rule_type,
    }
}

/// The alert a rule raises at `ts`, anchored on `group`, from `ids`.
pub open spec fn alert_spec(m: MetaV, ts: i64, group: Option<Seq<char>>, ids: Seq<u64>) -> AlertV {
    AlertV {
        alert_id: m.id + ":"@ + match group {
            Some(g) => g,
            None => "-"@,
        } + ":"@ + dec_int(ts as int),
        rule_id: m.id,
        rule_name: m.name,
        severity: m.severity,
        mitre: m.mitre,
        mitre_id: match m.mitre {
            Some(t) => Some(mitre_id_of(t)),
            None => None,
        },
        description: m.description,
        rule_type: m.rule_type,
        ts,
        group_key: group,
        event_ids: ids,
    }
}

fn mitre_id(m: &str) -> (r: String)
    ensures
        r@ == mitre_id_of(m@),
{
    let mc = chars_of(m);
    let sep = chars_of(" - ");
    let head = match find_chars(&mc, &sep) {
        Some(i) => {
            proof {
                crate::text::lemma_find_from(m@, " - "@, 0);
            }
            slice_of(&mc, 0, i)
        },
        None => slice_of(&mc, 0, mc.len()),
    };
    proof {
        assert(mc@.subrange(0, mc@.len() as int) =~= mc@);
    }
    let t = trim_chars(&head);
    string_from(&t)
}

fn opt_owned(o: &Option<String>) -> (r: Option<String>)
    ensures
        ostr(r) == ostr(*o),
{
    match o {
        Some(s) => Some(owned(s.as_str())),
        None => None,
    }
}

/// Build the alert a rule raises.
pub fn make_alert(meta: &Meta, ts: i64, group_key: Option<String>, event_ids: Vec<u64>) -> (a: Alert)
    ensures
        alert_v(a) == alert_spec(meta_v(*meta), ts, ostr(group_key), event_ids@),
{
    let ts_text = i64_to_string(ts);
    let alert_id = match &group_key {
        Some(g) => crate::text::concat4(meta.id.as_str(), ":", g.as_str(), ":"),
        None => crate::text::concat4(meta.id.as_str(), ":", "-", ":"),
    };
    let alert_id = crate::text::concat(alert_id.as_str(), ts_text.as_str());
    let mitre_id = match &meta.mitre {
        Some(m) => Some(mitre_id(m.as_str())),
        None => None,
    };
    Alert {
        alert_id,
        rule_id: owned(meta.id.as_str()),
        rule_name: owned(meta.name.as_str()),
        severity: owned(meta.severity.as_str()),
        mitre: opt_owned(&meta.mitre),
        mitre_id,
        description: owned(meta.description.as_str()),
        rule_type: meta.rule_type,
        ts,
        group_key,
        event_ids,
    }
}

/// The risk score (0–100) of a severity, compared without regard to ASCII case.
pub open spec fn severity_score(sev: Seq<char>) -> u32 {
    let low = sev.map_values(|c: char| crate::text::ascii_lower_char(c));
    if low == "critical"@ {
        100
    } else if low == "high"@ {
        75
    } else if low == "medium"@ {
        50
    } else if low == "low"@ {
        25
    } else {
        40
    }
}

/// The name of a rule type.
pub open spec fn rule_type_text(t: RuleType) -> Seq<char> {
    match t {
        RuleType::Atomic => "atomic"@,
        RuleType::Threshold => "threshold"@,
        RuleType::Chain => "chain"@,
    }
}

impl Alert {
    /// Stable lowercase name of the rule type that produced this alert.
    pub fn rule_type_name(&self) -> (s: &'static str)
        ensures
            s@ == rule_type_text(self.rule_type),
    {
        match self.rule_type {
            RuleType::Atomic => "atomic",
            RuleType::Threshold => "threshold",
            RuleType::Chain => "chain",
        }
    }

    /// The severity as a 0–100 risk score for graph rendering.
    pub fn risk_score(&self) -> (r: u32)
        ensures
            r == severity_score(self.severity@),
    {
        let sc = chars_of(self.severity.as_str());
        let low = ascii_lower(&sc);
        let s = string_from(&low);
        if str_eq(s.as_str(), "critical") {
            100
        } else if str_eq(s.as_str(), "high") {
            75
        } else if str_eq(s.as_str(), "medium") {
            50
        } else if str_eq(s.as_str(), "low") {
            25
        } else {
            40
        }
    }
}

/// Keep the first alert of each `alert_id`, in order.
pub open spec fn dedup_spec(s: Seq<Alert>) -> Seq<Alert>
    decreases s.len(),
{
    if s.len() == 0 {
        s
    } else {
        let d = dedup_spec(s.drop_last());
        if exists|j: int| 0 <= j < s.len() - 1 && (#[trigger] s[j]).alert_id@ == s.last().alert_id@ {
            d
        } else {
            d.push(s.last())
        }
    }
}

/// Deduplicate alerts by `alert_id`, keeping the first occurrence and
/// preserving order (sequence rules can re-fire an identical alert).
pub fn dedup_alerts(alerts: Vec<Alert>) -> (r: Vec<Alert>)
    ensures
        r@ == dedup_spec(alerts@),
{
    let ghost all = alerts@;
    let mut seen: Vec<String> = Vec::new();
    let mut out: Vec<Alert> = Vec::new();
    for a in it: alerts.into_iter()
        invariant
            it.seq() == all,
            out@ == dedup_spec(all.take(it.index() as int)),
            seen@.len() == it.index(),
            forall|j: int| 0 <= j < it.index() ==> (#[trigger] seen@[j])@ == all[j].alert_id@,
    {
        let ghost k = it.index() as int;
        proof {
            assert(all.take(k + 1).drop_last() =~= all.take(k));
            assert(all.take(k + 1).last() == all[k]);
        }
        let mut dup = false;
        let mut j: usize = 0;
        while j < seen.len()
            invariant
                j <= seen@.len(),
                seen@.len() == k,
                0 <= k < all.len(),
                a == all[k],
                forall|x: int| 0 <= x < k ==> (#[trigger] seen@[x])@ == all[x].alert_id@,
                dup == exists|x: int| 0 <= x < j && (#[trigger] all.take(k + 1)[x]).alert_id@ == a.alert_id@,
            decreases seen@.len() - j,
        {
            let same = str_eq(seen[j].as_str(), a.alert_id.as_str());
            proof {
                assert(all.take(k + 1)[j as int] == all[j as int]);
                if same {
                    assert(all.take(k + 1)[j as int].alert_id@ == a.alert_id@);
                }
                if dup && !same {
                    let x = choose|x: int| 0 <= x < j && (#[trigger] all.take(k + 1)[x]).alert_id@ == a.alert_id@;
                    assert(0 <= x < j + 1 && all.take(k + 1)[x].alert_id@ == a.alert_id@);
                }
                if !dup && !same {
                    assert forall|x: int| 0 <= x < j + 1 implies !((#[trigger] all.take(k + 1)[x]).alert_id@ == a.alert_id@) by {
                        if x < j {
                        } else {
                            assert(all.take(k + 1)[x] == all[j as int]);
                        }
                    }
                }
            }
            dup = dup || same;
            j = j + 1;
        }
        seen.push(owned(a.alert_id.as_str()));
        if !dup {
            out.push(a);
        }
    }
    proof {
        assert(all.take(all.len() as int) =~= all);
    }
    out
}


// ---------------------------------------------------------------------------
// Compiled rules
// ---------------------------------------------------------------------------

/// The model of one step of a sequence detector.
pub struct StepV {
    pub class: Option<u32>,
    pub filter: ExprV,
}

/// The model of a detector. Windows are in milliseconds.
pub enum DetectorV {
    Atomic(Option<u32>, ExprV),
    /// Class gate, filter, threshold, window, `group_by` field.
    Threshold(Option<u32>, ExprV, u64, int, Option<Seq<char>>),
    /// Steps, window, `match_on` field.
    Sequence(Seq<StepV>, int, Seq<char>),
}

/// The model of a compiled rule.
pub struct RuleV {
    pub meta: MetaV,
    pub det: DetectorV,
}

/// Why a rule did not compile.
pub enum CompileFail {
    /// A field its type requires is missing; the message.
    Missing(Seq<char>),
    /// A filter (the text) did not parse.
    BadFilter(Seq<char>, ParseFail),
}

/// The message of a compile failure.
pub open spec fn compile_fail_text(f: CompileFail) -> Seq<char> {
    match f {
        CompileFail::Missing(m) => m,
        CompileFail::BadFilter(t, pf) => "bad filter `"@ + t + "`: "@ + fail_text(pf),
    }
}

/// A filter, parsed.
pub open spec fn filter_spec(f: Seq<char>) -> Result<ExprV, CompileFail> {
    match parse_spec(f) {
        Ok(e) => Ok(e),
        Err(pf) => Err(CompileFail::BadFilter(f, pf)),
    }
}

/// The metadata a rule carries onto its alerts.
pub open spec fn meta_of(r: Rule) -> MetaV {
    MetaV {
        id: r.id@,
        name: r.name@,
        severity: r.severity@,
        description: r.description@,
        mitre: ostr(r.mitre_attack),
        rule_type: r.rule_type,
    }
}

/// The detector a rule compiles to: its required fields are checked in order,
/// then its filters are parsed.
pub open spec fn detector_spec(r: Rule) -> Result<DetectorV, CompileFail> {
    match r.rule_type {
        RuleType::Atomic => match r.filter {
            None => Err(CompileFail::Missing("atomic rule requires `filter`"@)),
            Some(f) => match filter_spec(f@) {
                Ok(e) => Ok(DetectorV::Atomic(r.class, e)),
                Err(x) => Err(x),
            },
        },
        RuleType::Threshold => match (r.filter, r.threshold, r.window) {
            (None, _, _) => Err(CompileFail::Missing("threshold rule requires `filter`"@)),
            (_, None, _) => Err(CompileFail::Missing("threshold rule requires `threshold`"@)),
            (_, _, None) => Err(CompileFail::Missing("threshold rule requires `window`"@)),
            (Some(f), Some(t), Some(w)) => match filter_spec(f@) {
                Ok(e) => Ok(DetectorV::Threshold(r.class, e, t, w * 1000, ostr(r.group_by))),
                Err(x) => Err(x),
            },
        },
        RuleType::Chain => match (r.step_1, r.step_2, r.window, r.match_on) {
            (None, _, _, _) => Err(CompileFail::Missing("chain rule requires `step_1`"@)),
            (_, None, _, _) => Err(CompileFail::Missing("chain rule requires `step_2`"@)),
            (_, _, None, _) => Err(CompileFail::Missing("chain rule requires `window`"@)),
            (_, _, _, None) => Err(CompileFail::Missing("chain rule requires `match_on`"@)),
            (Some(s1), Some(s2), Some(w), Some(mo)) => match (filter_spec(s1.filter@), filter_spec(s2.filter@)) {
                (Err(x), _) => Err(x),
                (_, Err(x)) => Err(x),
                (Ok(e1), Ok(e2)) => Ok(
                    DetectorV::Sequence(
                        seq![StepV { class: s1.class, filter: e1 }, StepV { class: s2.class, filter: e2 }],
                        w * 1000,
                        mo@,
                    ),
                ),
            },
        },
    }
}

/// A rule, compiled.
pub open spec fn compile_spec(r: Rule) -> Result<RuleV, CompileFail> {
    match detector_spec(r) {
        Ok(d) => Ok(RuleV { meta: meta_of(r), det: d }),
        Err(x) => Err(x),
    }
}

/// Rules `i..` compiled in order; the first failure (its rule's id) stops it.
pub open spec fn compile_from(rs: Seq<Rule>, i: int) -> Result<Seq<RuleV>, (Seq<char>, CompileFail)>
    decreases rs.len() - i,
{
    if i < 0 || i >= rs.len() {
        Ok(Seq::empty())
    } else {
        match compile_spec(rs[i]) {
            Err(x) => Err((rs[i].id@, x)),
            Ok(c) => match compile_from(rs, i + 1) {
                Ok(rest) => Ok(seq![c] + rest),
                Err(x) => Err(x),
            },
        }
    }
}

/// One step of a sequence detector.
#[derive(Debug)]
struct Step {
    class: Option<u32>,
    filter: Expr,
}

/// The executable form of a rule. Windows are in milliseconds.
#[derive(Debug)]
enum Detector {
    Atomic { class: Option<u32>, filter: Expr },
    Threshold {
        class: Option<u32>,
        filter: Expr,
        threshold: u64,
        window_ms: i128,
        group_by: Option<String>,
    },
    Sequence { steps: Vec<Step>, window_ms: i128, match_on: String },
}

#[derive(Debug)]
struct CompiledRule {
    meta: Meta,
    detector: Detector,
}

spec fn step_v(s: Step) -> StepV {
    StepV { class: s.class, filter: expr_v(s.filter) }
}

spec fn detector_v(d: Detector) -> DetectorV {
    match d {
        Detector::Atomic { class, filter } => DetectorV::Atomic(class, expr_v(filter)),
        Detector::Threshold { class, filter, threshold, window_ms, group_by } => DetectorV::Threshold(
            class,
            expr_v(filter),
            threshold,
            window_ms as int,
            ostr(group_by),
        ),
        Detector::Sequence { steps, window_ms, match_on } => DetectorV::Sequence(
            steps@.map_values(|s: Step| step_v(s)),
            window_ms as int,
            match_on@,
        ),
    }
}

spec fn compiled_v(c: CompiledRule) -> RuleV {
    RuleV { meta: meta_v(c.meta), det: detector_v(c.detector) }
}

/// The message of the `Invalid` error for rule `id`.
fn compile_err(id: &str, reason: &str) -> (e: RulesError)
    ensures
        is_invalid(e, id@, reason@),
{
    RulesError::Invalid { id: owned(id), reason: owned(reason) }
}

fn parse_filter(id: &str, filter: &str) -> (r: Result<Expr, RulesError>)
    ensures
        match filter_spec(filter@) {
            Ok(v) => r matches Ok(e) && expr_v(e) == v,
            Err(x) => r matches Err(e) && is_invalid(e, id@, compile_fail_text(x)),
        },
{
    match Expr::parse(filter) {
        Ok(e) => Ok(e),
        Err(pe) => {
            let msg = pe.message();
            proof {
                if let Err(pf) = parse_spec(filter@) {
                    lemma_fail_text(pe, pf);
                }
            }
            let head = crate::text::concat4("bad filter `", filter, "`: ", msg.as_str());
            Err(RulesError::Invalid { id: owned(id), reason: head })
        },
    }
}

fn compile_rule(r: &Rule) -> (out: Result<CompiledRule, RulesError>)
    ensures
        match compile_spec(*r) {
            Ok(v) => out matches Ok(c) && compiled_v(c) == v,
            Err(x) => out matches Err(e) && is_invalid(e, r.id@, compile_fail_text(x)),
        },
{
    let meta = Meta {
        id: owned(r.id.as_str()),
        name: owned(r.name.as_str()),
        severity: owned(r.severity.as_str()),
        description: owned(r.description.as_str()),
        mitre: opt_owned(&r.mitre_attack),
        rule_type: r.rule_type,
    };
    let id = r.id.as_str();
    let detector = match r.rule_type {
        RuleType::Atomic => {
            let f = match &r.filter {
                Some(f) => f,
                None => {
                    return Err(compile_err(id, "atomic rule requires `filter`"));
                },
            };
            let filter = match parse_filter(id, f.as_str()) {
                Ok(e) => e,
                Err(e) => {
                    return Err(e);
                },
            };
            Detector::Atomic { class: r.class, filter }
        },
        RuleType::Threshold => {
            let f = match &r.filter {
                Some(f) => f,
                None => {
                    return Err(compile_err(id, "threshold rule requires `filter`"));
                },
            };
            let threshold = match r.threshold {
                Some(t) => t,
                None => {
                    return Err(compile_err(id, "threshold rule requires `threshold`"));
                },
            };
            let window = match r.window {
                Some(w) => w,
                None => {
                    return Err(compile_err(id, "threshold rule requires `window`"));
                },
            };
            let filter = match parse_filter(id, f.as_str()) {
                Ok(e) => e,
                Err(e) => {
                    return Err(e);
                },
            };
            Detector::Threshold {
                class: r.class,
                filter,
                threshold,
                window_ms: window as i128 * 1000,
                group_by: opt_owned(&r.group_by),
            }
        },
        RuleType::Chain => {
            let s1 = match &r.step_1 {
                Some(s) => s,
                None => {
                    return Err(compile_err(id, "chain rule requires `step_1`"));
                },
            };
            let s2 = match &r.step_2 {
                Some(s) => s,
                None => {
                    return Err(compile_err(id, "chain rule requires `step_2`"));
                },
            };
            let window = match r.window {
                Some(w) => w,
                None => {
                    return Err(compile_err(id, "chain rule requires `window`"));
                },
            };
            let match_on = match &r.match_on {
                Some(m) => owned(m.as_str()),
                None => {
                    return Err(compile_err(id, "chain rule requires `match_on`"));
                },
            };
            let f1 = match parse_filter(id, s1.filter.as_str()) {
                Ok(e) => e,
                Err(e) => {
                    return Err(e);
                },
            };
            let f2 = match parse_filter(id, s2.filter.as_str()) {
                Ok(e) => e,
                Err(e) => {
                    return Err(e);
                },
            };
            let mut steps: Vec<Step> = Vec::new();
            steps.push(Step { class: s1.class, filter: f1 });
            steps.push(Step { class: s2.class, filter: f2 });
            proof {
                assert(steps@.map_values(|s: Step| step_v(s)) =~= seq![
                    StepV { class: s1.class, filter: expr_v(steps@[0].filter) },
                    StepV { class: s2.class, filter: expr_v(steps@[1].filter) },
                ]);
            }
            Detector::Sequence { steps, window_ms: window as i128 * 1000, match_on }
        },
    };
    Ok(CompiledRule { meta, detector })
}

proof fn lemma_compiled_ok(r: Rule, c: CompiledRule)
    requires
        compile_spec(r) == Ok::<RuleV, CompileFail>(compiled_v(c)),
    ensures
        det_ok(detector_v(c.detector)),
{
}

/// A compiled, ready-to-run rule set.
#[derive(Debug)]
pub struct CompiledRuleSet {
    rules: Vec<CompiledRule>,
}

/// Windows fit the engine's arithmetic.
pub open spec fn det_ok(d: DetectorV) -> bool {
    match d {
        DetectorV::Atomic(_, _) => true,
        DetectorV::Threshold(_, _, _, w, _) => 0 <= w <= u64::MAX as int * 1000,
        DetectorV::Sequence(_, w, _) => 0 <= w <= u64::MAX as int * 1000,
    }
}

impl CompiledRuleSet {
    #[verifier::type_invariant]
    spec fn windows_ok(self) -> bool {
        forall|i: int| 0 <= i < self.rules@.len() ==> det_ok(#[trigger] detector_v(self.rules@[i].detector))
    }
}

impl View for CompiledRuleSet {
    type V = Seq<RuleV>;

    closed spec fn view(&self) -> Seq<RuleV> {
        self.rules@.map_values(|c: CompiledRule| compiled_v(c))
    }
}

impl CompiledRuleSet {
    /// Compile a loaded rule set, parsing every filter.
    pub fn compile(set: &RuleSet) -> (r: Result<CompiledRuleSet, RulesError>)
        ensures
            match compile_from(set.detection_rules@, 0) {
                Ok(v) => r matches Ok(c) && c@ == v,
                Err((id, x)) => r matches Err(e) && is_invalid(e, id, compile_fail_text(x)),
            },
    {
        let ghost rs = set.detection_rules@;
        let mut rules: Vec<CompiledRule> = Vec::new();
        let mut i: usize = 0;
        while i < set.detection_rules.len()
            invariant
                i <= rs.len(),
                rs == set.detection_rules@,
                forall|k: int| 0 <= k < rules@.len() ==> det_ok(#[trigger] detector_v(rules@[k].detector)),
                compile_from(rs, 0) == match compile_from(rs, i as int) {
                    Ok(rest) => Ok(rules@.map_values(|c: CompiledRule| compiled_v(c)) + rest),
                    Err(x) => Err(x),
                },
            decreases rs.len() - i,
        {
            match compile_rule(&set.detection_rules[i]) {
                Ok(c) => {
                    proof {
                        lemma_compiled_ok(set.detection_rules@[i as int], c);
                    }
                    proof {
                        let cv = compiled_v(c);
                        let before = rules@.map_values(|c: CompiledRule| compiled_v(c));
                        assert(rules@.push(c).map_values(|c: CompiledRule| compiled_v(c)) =~= before.push(cv));
                        match compile_from(rs, i + 1) {
                            Ok(rest) => {
                                assert(before + (seq![cv] + rest) =~= before.push(cv) + rest);
                            },
                            Err(_) => {},
                        }
                    }
                    let ghost before = rules@;
                    rules.push(c);
                    proof {
                        assert forall|k: int| 0 <= k < rules@.len() implies det_ok(#[trigger] detector_v(rules@[k].detector)) by {
                            if k < before.len() {
                                assert(rules@[k] == before[k]);
                            }
                        }
                    }
                },
                Err(e) => {
                    return Err(e);
                },
            }
            i = i + 1;
        }
        proof {
            assert(rules@.map_values(|c: CompiledRule| compiled_v(c)) + Seq::<RuleV>::empty() =~= rules@.map_values(|c: CompiledRule| compiled_v(c)));
        }
        Ok(CompiledRuleSet { rules })
    }

    /// The number of rules.
    pub fn len(&self) -> (n: usize)
        ensures
            n == self@.len(),
    {
        self.rules.len()
    }

    /// Whether there are no rules.
    pub fn is_empty(&self) -> (b: bool)
        ensures
            b == (self@.len() == 0),
    {
        self.rules.len() == 0
    }
}


// ---------------------------------------------------------------------------
// Detection state
// ---------------------------------------------------------------------------

/// The model of one threshold window: a rule, a group value, and the
/// `(ts, event_id)` hits inside the window, oldest first.
pub struct ThreshV {
    pub rule: int,
    pub group: Seq<char>,
    pub hits: Seq<(i64, u64)>,
}

/// The model of a live partial sequence match.
pub struct PartialV {
    pub first_ts: i64,
    pub ids: Seq<u64>,
}

/// The model of the partial matches of a rule whose steps up to `step` are
/// satisfied, for one correlation value.
pub struct BucketV {
    pub rule: int,
    pub step: int,
    pub corr: Seq<char>,
    pub partials: Seq<PartialV>,
}

/// The model of an engine: its rules and its detection state.
pub struct EngineV {
    pub rules: Seq<RuleV>,
    pub thresh: Seq<ThreshV>,
    pub seqs: Seq<BucketV>,
}

/// The optional class condition: no class, or the event's class.
pub open spec fn class_ok(class: Option<u32>, e: Event) -> bool {
    match class {
        Some(c) => e.class_uid == c,
        None => true,
    }
}

/// The event is of the class asked for and meets the filter.
pub open spec fn fires(class: Option<u32>, f: ExprV, e: Event) -> bool {
    class_ok(class, e) && expr_holds(f, e)
}

/// The group of a threshold hit: the `group_by` field's value when it is
/// present and not empty, `"unknown"` when it is not, `"default"` without a
/// `group_by`.
pub open spec fn group_key(gb: Option<Seq<char>>, e: Event) -> Seq<char> {
    match gb {
        Some(f) => match event_lookup(e, f) {
            Some(v) => if v.len() > 0 {
                v
            } else {
                "unknown"@
            },
            None => "unknown"@,
        },
        None => "default"@,
    }
}

/// The first window at or after `i` of a rule and group (`st.len()` if none).
pub open spec fn find_thresh(st: Seq<ThreshV>, rule: int, group: Seq<char>, i: int) -> int
    decreases st.len() - i,
{
    if i < 0 || i >= st.len() {
        st.len() as int
    } else if st[i].rule == rule && st[i].group == group {
        i
    } else {
        find_thresh(st, rule, group, i + 1)
    }
}

/// Drop the oldest hits while they are before `cutoff`.
pub open spec fn prune(hits: Seq<(i64, u64)>, cutoff: int) -> Seq<(i64, u64)>
    decreases hits.len(),
{
    if hits.len() > 0 && (hits[0].0 as int) < cutoff {
        prune(hits.drop_first(), cutoff)
    } else {
        hits
    }
}

/// The event ids of some hits.
pub open spec fn hit_ids(hits: Seq<(i64, u64)>) -> Seq<u64> {
    hits.map_values(|h: (i64, u64)| h.1)
}

/// A hit of `rule` in `group` at `now`: it joins the window, hits older than
/// `now - window_ms` leave it, and when the window holds `threshold` hits it
/// fires with all of them and empties.
pub open spec fn thresh_step(
    st: Seq<ThreshV>,
    rule: int,
    group: Seq<char>,
    now: i64,
    id: u64,
    threshold: u64,
    window_ms: int,
) -> (Seq<ThreshV>, Option<Seq<u64>>) {
    let i = find_thresh(st, rule, group, 0);
    let old = if i < st.len() {
        st[i].hits
    } else {
        Seq::empty()
    };
    let buf = prune(old.push((now, id)), now - window_ms);
    let fire = buf.len() >= threshold;
    let entry = ThreshV {
        rule,
        group,
        hits: if fire {
            Seq::empty()
        } else {
            buf
        },
    };
    let st2 = if i < st.len() {
        st.update(i, entry)
    } else {
        st.push(entry)
    };
    (
        st2,
        if fire {
            Some(hit_ids(buf))
        } else {
            None
        },
    )
}

/// The threshold windows of rule `rule` for group value `group` alone.
pub open spec fn own_windows(st: Seq<ThreshV>, rule: int, group: Seq<char>) -> Seq<ThreshV>
    decreases st.len(),
{
    if st.len() == 0 {
        st
    } else if st[0].rule == rule && st[0].group == group {
        seq![st[0]] + own_windows(st.drop_first(), rule, group)
    } else {
        own_windows(st.drop_first(), rule, group)
    }
}

proof fn lemma_find_shift(st: Seq<ThreshV>, rule: int, group: Seq<char>, i: int)
    requires
        st.len() > 0,
        0 <= i,
    ensures
        find_thresh(st, rule, group, i + 1) == find_thresh(st.drop_first(), rule, group, i) + 1,
    decreases st.len() - i,
{
    if i + 1 < st.len() {
        assert(st[i + 1] == st.drop_first()[i]);
        lemma_find_shift(st, rule, group, i + 1);
    }
}

proof fn lemma_find_is_own(st: Seq<ThreshV>, rule: int, group: Seq<char>, i: int)
    requires
        0 <= i,
    ensures
        find_thresh(st, rule, group, i) < st.len() ==> st[find_thresh(st, rule, group, i)].rule == rule
            && st[find_thresh(st, rule, group, i)].group == group,
        i <= st.len() ==> i <= find_thresh(st, rule, group, i) <= st.len(),
    decreases st.len() - i,
{
    if i < st.len() && !(st[i].rule == rule && st[i].group == group) {
        lemma_find_is_own(st, rule, group, i + 1);
    }
}

proof fn lemma_find_own(st: Seq<ThreshV>, rule: int, group: Seq<char>)
    ensures
        ({
            let a = find_thresh(st, rule, group, 0);
            let o = own_windows(st, rule, group);
            let b = find_thresh(o, rule, group, 0);
            &&& (a < st.len() <==> b < o.len())
            &&& (a < st.len() ==> st[a].hits == o[b].hits)
        }),
    decreases st.len(),
{
    lemma_find_is_own(st, rule, group, 0);
    let o = own_windows(st, rule, group);
    lemma_find_is_own(o, rule, group, 0);
    if st.len() > 0 {
        let d = st.drop_first();
        lemma_find_own(d, rule, group);
        lemma_find_shift(st, rule, group, 0);
        lemma_find_is_own(d, rule, group, 0);
        let od = own_windows(d, rule, group);
        lemma_find_is_own(od, rule, group, 0);
        if st[0].rule == rule && st[0].group == group {
            assert(o.drop_first() =~= od);
        } else {
            let a1 = find_thresh(d, rule, group, 0);
            if a1 < d.len() {
                assert(st[a1 + 1] == d[a1]);
            }
        }
    }
}

/// A threshold rule counts only its own hits in the hit's group: whether
/// rule `rule` fires on a hit in `group`, and with which events, is the same
/// as for an engine holding only that rule's window for that group; and the
/// windows of every other rule, and of every other group, are left as they
/// were.
pub proof fn law_thresh_rule_alone(
    st: Seq<ThreshV>,
    rule: int,
    group: Seq<char>,
    now: i64,
    id: u64,
    threshold: u64,
    window_ms: int,
)
    ensures
        thresh_step(st, rule, group, now, id, threshold, window_ms).1 == thresh_step(
            own_windows(st, rule, group),
            rule,
            group,
            now,
            id,
            threshold,
            window_ms,
        ).1,
        forall|j: int|
            0 <= j < st.len() && (st[j].rule != rule || st[j].group != group) ==> #[trigger] thresh_step(st, rule, group, now, id, threshold, window_ms).0[j]
                == st[j],
{
    lemma_find_own(st, rule, group);
    lemma_find_is_own(st, rule, group, 0);
}

/// The partial-match buckets of rule `rule`, step `step`, value `corr` alone.
pub open spec fn own_buckets(bs: Seq<BucketV>, rule: int, step: int, corr: Seq<char>) -> Seq<BucketV>
    decreases bs.len(),
{
    if bs.len() == 0 {
        bs
    } else if bs[0].rule == rule && bs[0].step == step && bs[0].corr == corr {
        seq![bs[0]] + own_buckets(bs.drop_first(), rule, step, corr)
    } else {
        own_buckets(bs.drop_first(), rule, step, corr)
    }
}

proof fn lemma_bucket_shift(bs: Seq<BucketV>, rule: int, step: int, corr: Seq<char>, i: int)
    requires
        bs.len() > 0,
        0 <= i,
    ensures
        find_bucket(bs, rule, step, corr, i + 1) == find_bucket(bs.drop_first(), rule, step, corr, i) + 1,
    decreases bs.len() - i,
{
    if i + 1 < bs.len() {
        assert(bs[i + 1] == bs.drop_first()[i]);
        lemma_bucket_shift(bs, rule, step, corr, i + 1);
    }
}

proof fn lemma_bucket_is_own(bs: Seq<BucketV>, rule: int, step: int, corr: Seq<char>, i: int)
    requires
        0 <= i,
    ensures
        find_bucket(bs, rule, step, corr, i) < bs.len() ==> ({
            let b = bs[find_bucket(bs, rule, step, corr, i)];
            b.rule == rule && b.step == step && b.corr == corr
        }),
        i <= bs.len() ==> i <= find_bucket(bs, rule, step, corr, i) <= bs.len(),
    decreases bs.len() - i,
{
    if i < bs.len() && !(bs[i].rule == rule && bs[i].step == step && bs[i].corr == corr) {
        lemma_bucket_is_own(bs, rule, step, corr, i + 1);
    }
}

proof fn lemma_bucket_own(bs: Seq<BucketV>, rule: int, step: int, corr: Seq<char>)
    ensures
        ({
            let a = find_bucket(bs, rule, step, corr, 0);
            let o = own_buckets(bs, rule, step, corr);
            let b = find_bucket(o, rule, step, corr, 0);
            &&& (a < bs.len() <==> b < o.len())
            &&& (a < bs.len() ==> bs[a] == o[b])
        }),
    decreases bs.len(),
{
    lemma_bucket_is_own(bs, rule, step, corr, 0);
    let o = own_buckets(bs, rule, step, corr);
    lemma_bucket_is_own(o, rule, step, corr, 0);
    if bs.len() > 0 {
        let d = bs.drop_first();
        lemma_bucket_own(d, rule, step, corr);
        lemma_bucket_shift(bs, rule, step, corr, 0);
        lemma_bucket_is_own(d, rule, step, corr, 0);
        let od = own_buckets(d, rule, step, corr);
        lemma_bucket_is_own(od, rule, step, corr, 0);
        if bs[0].rule == rule && bs[0].step == step && bs[0].corr == corr {
            assert(o.drop_first() =~= od);
        } else {
            let a1 = find_bucket(d, rule, step, corr, 0);
            if a1 < d.len() {
                assert(bs[a1 + 1] == d[a1]);
            }
        }
    }
}

/// A sequence step advances only the partial matches of its own rule, for
/// the previous step and the event's correlation value: which id lists
/// complete on an event at step `s > 0` is the same as for an engine holding
/// only that one bucket.
pub proof fn law_seq_rule_alone(
    bs: Seq<BucketV>,
    rule: int,
    n: int,
    window_ms: int,
    s: int,
    corr: Seq<char>,
    now: i64,
    id: u64,
)
    requires
        s > 0,
    ensures
        seq_step(bs, rule, n, window_ms, s, corr, now, id).1 == seq_step(
            own_buckets(bs, rule, s - 1, corr),
            rule,
            n,
            window_ms,
            s,
            corr,
            now,
            id,
        ).1,
{
    lemma_bucket_own(bs, rule, s - 1, corr);
}

/// The highest step below `k` that the event satisfies.
pub open spec fn top_step(steps: Seq<StepV>, e: Event, k: int) -> Option<int>
    decreases k,
{
    if k <= 0 {
        None
    } else if fires(steps[k - 1].class, steps[k - 1].filter, e) {
        Some(k - 1)
    } else {
        top_step(steps, e, k - 1)
    }
}

/// The first bucket at or after `i` of a rule, step and correlation value
/// (`bs.len()` if none).
pub open spec fn find_bucket(bs: Seq<BucketV>, rule: int, step: int, corr: Seq<char>, i: int) -> int
    decreases bs.len() - i,
{
    if i < 0 || i >= bs.len() {
        bs.len() as int
    } else if bs[i].rule == rule && bs[i].step == step && bs[i].corr == corr {
        i
    } else {
        find_bucket(bs, rule, step, corr, i + 1)
    }
}

/// The partials that started at or after `cutoff`, in order.
pub open spec fn keep_recent(ps: Seq<PartialV>, cutoff: int) -> Seq<PartialV>
    decreases ps.len(),
{
    if ps.len() == 0 {
        ps
    } else {
        let k = keep_recent(ps.drop_last(), cutoff);
        if ps.last().first_ts as int >= cutoff {
            k.push(ps.last())
        } else {
            k
        }
    }
}

/// Each partial extended by one more event.
pub open spec fn extend_ids(ps: Seq<PartialV>, id: u64) -> Seq<PartialV> {
    ps.map_values(|p: PartialV| PartialV { first_ts: p.first_ts, ids: p.ids.push(id) })
}

/// Append partials to the bucket of a rule, step and correlation value,
/// creating it at the end if it is missing.
pub open spec fn add_partials(bs: Seq<BucketV>, rule: int, step: int, corr: Seq<char>, new: Seq<PartialV>) -> Seq<BucketV> {
    let i = find_bucket(bs, rule, step, corr, 0);
    if i < bs.len() {
        bs.update(i, BucketV { rule, step, corr, partials: bs[i].partials + new })
    } else {
        bs.push(BucketV { rule, step, corr, partials: new })
    }
}

/// An event that plays step `s` of a rule with `n` steps: step 0 seeds a
/// partial; a later step (with a nonempty correlation value) drops the stale
/// partials of the step before, extends the others, and either fires them
/// (last step; the partials stay) or files them under step `s`.
pub open spec fn seq_step(
    bs: Seq<BucketV>,
    rule: int,
    n: int,
    window_ms: int,
    s: int,
    corr: Seq<char>,
    now: i64,
    id: u64,
) -> (Seq<BucketV>, Seq<Seq<u64>>) {
    if s == 0 {
        (add_partials(bs, rule, 0, corr, seq![PartialV { first_ts: now, ids: seq![id] }]), Seq::empty())
    } else if corr.len() == 0 {
        (bs, Seq::empty())
    } else {
        let j = find_bucket(bs, rule, s - 1, corr, 0);
        if j >= bs.len() {
            (bs, Seq::empty())
        } else {
            let kept = keep_recent(bs[j].partials, now - window_ms);
            let bs1 = bs.update(j, BucketV { rule: bs[j].rule, step: bs[j].step, corr: bs[j].corr, partials: kept });
            let adv = extend_ids(kept, id);
            if adv.len() == 0 {
                (bs1, Seq::empty())
            } else if s == n - 1 {
                (bs1, partial_ids(adv))
            } else {
                (add_partials(bs1, rule, s, corr, adv), Seq::empty())
            }
        }
    }
}

/// The event ids of some partials.
pub open spec fn partial_ids(ps: Seq<PartialV>) -> Seq<Seq<u64>> {
    ps.map_values(|p: PartialV| p.ids)
}

/// The contents of some id lists.
pub open spec fn id_lists_v(s: Seq<Vec<u64>>) -> Seq<Seq<u64>> {
    s.map_values(|v: Vec<u64>| v@)
}

/// The alerts a sequence rule raises from the id lists that fired.
pub open spec fn seq_alerts(m: MetaV, now: i64, corr: Seq<char>, fired: Seq<Seq<u64>>) -> Seq<AlertV> {
    fired.map_values(|ids: Seq<u64>| alert_spec(m, now, Some(corr), ids))
}

/// A missing value reads as the empty string.
pub open spec fn or_empty(v: Option<Seq<char>>) -> Seq<char> {
    match v {
        Some(x) => x,
        None => Seq::empty(),
    }
}

/// What rule `ri` does with an event: the new state and the alerts raised.
pub open spec fn rule_step(r: RuleV, ri: int, th: Seq<ThreshV>, bs: Seq<BucketV>, e: Event) -> (
    Seq<ThreshV>,
    Seq<BucketV>,
    Seq<AlertV>,
) {
    let now = e.ts.0;
    let id = e.event_id.0;
    match r.det {
        DetectorV::Atomic(c, f) => (
            th,
            bs,
            if fires(c, f, e) {
                seq![alert_spec(r.meta, now, None, seq![id])]
            } else {
                Seq::empty()
            },
        ),
        DetectorV::Threshold(c, f, t, w, gb) => if !fires(c, f, e) {
            (th, bs, Seq::empty())
        } else {
            let g = group_key(gb, e);
            let (th2, fired) = thresh_step(th, ri, g, now, id, t, w);
            (
                th2,
                bs,
                match fired {
                    Some(ids) => seq![alert_spec(r.meta, now, Some(g), ids)],
                    None => Seq::empty(),
                },
            )
        },
        DetectorV::Sequence(steps, w, mo) => match top_step(steps, e, steps.len() as int) {
            None => (th, bs, Seq::empty()),
            Some(s) => {
                let corr = or_empty(event_lookup(e, mo));
                let (bs2, fired) = seq_step(bs, ri, steps.len() as int, w, s, corr, now, id);
                (th, bs2, seq_alerts(r.meta, now, corr, fired))
            },
        },
    }
}

/// Rules `0..k` applied to one event in order: the state after them and the
/// alerts they raised, in order.
pub open spec fn rules_step(rules: Seq<RuleV>, k: int, th: Seq<ThreshV>, bs: Seq<BucketV>, e: Event) -> (
    Seq<ThreshV>,
    Seq<BucketV>,
    Seq<AlertV>,
)
    decreases k,
{
    if k <= 0 {
        (th, bs, Seq::empty())
    } else {
        let (t1, b1, a1) = rules_step(rules, k - 1, th, bs, e);
        let (t2, b2, a2) = rule_step(rules[k - 1], k - 1, t1, b1, e);
        (t2, b2, a1 + a2)
    }
}

/// What processing one event does to an engine.
pub open spec fn process_spec(st: EngineV, e: Event) -> (EngineV, Seq<AlertV>) {
    let (t, b, a) = rules_step(st.rules, st.rules.len() as int, st.thresh, st.seqs, e);
    (EngineV { rules: st.rules, thresh: t, seqs: b }, a)
}

/// Event `i` comes before event `j` in a run: by timestamp, then event id,
/// then position in the input.
pub open spec fn run_before(evs: Seq<Event>, i: int, j: int) -> bool {
    let a = evs[i];
    let b = evs[j];
    a.ts.0 < b.ts.0 || (a.ts.0 == b.ts.0 && (a.event_id.0 < b.event_id.0 || (a.event_id.0 == b.event_id.0
        && i < j)))
}

/// `order` lists every position of `evs` once, in run order.
pub open spec fn is_run_order(evs: Seq<Event>, order: Seq<usize>) -> bool {
    &&& order.len() == evs.len()
    &&& forall|k: int| 0 <= k < order.len() ==> (#[trigger] order[k]) < evs.len()
    &&& forall|a: int, b: int| 0 <= a < b < order.len() ==> run_before(evs, #[trigger] order[a] as int, #[trigger] order[b] as int)
}

/// The events at `order[0..k]` processed in turn: the final state and all
/// alerts, in order.
pub open spec fn run_fold(st: EngineV, evs: Seq<Event>, order: Seq<usize>, k: int) -> (EngineV, Seq<AlertV>)
    decreases k,
{
    if k <= 0 {
        (st, Seq::empty())
    } else {
        let (s1, a1) = run_fold(st, evs, order, k - 1);
        let (s2, a2) = process_spec(s1, evs[order[k - 1] as int]);
        (s2, a1 + a2)
    }
}

/// Position `p` occurs in `o`.
spec fn listed(o: Seq<usize>, p: int) -> bool {
    exists|a: int| 0 <= a < o.len() && #[trigger] o[a] == p
}

/// A run order lists every position of `evs`.
proof fn lemma_run_order_covers(evs: Seq<Event>, o: Seq<usize>)
    requires
        is_run_order(evs, o),
    ensures
        forall|p: int| 0 <= p < evs.len() ==> #[trigger] listed(o, p),
{
    let n = evs.len() as int;
    let f = |a: int| o[a] as int;
    let dom = set_int_range(0, n);
    lemma_int_range(0, n);
    assert(injective_on(f, dom)) by {
        assert forall|a: int, b: int| dom.contains(a) && dom.contains(b) && #[trigger] f(a) == #[trigger] f(b) implies a == b by {
            if a < b {
                assert(run_before(evs, o[a] as int, o[b] as int));
            } else if b < a {
                assert(run_before(evs, o[b] as int, o[a] as int));
            }
        }
    }
    assert(dom.map(f).subset_of(dom)) by {
        assert forall|p: int| dom.map(f).contains(p) implies dom.contains(p) by {
            let a = choose|a: int| dom.contains(a) && f(a) == p;
            assert(o[a] < evs.len());
        }
    }
    lemma_map_size(dom, dom.map(f), f);
    lemma_subset_equality(dom.map(f), dom);
    assert forall|p: int| 0 <= p < evs.len() implies #[trigger] listed(o, p) by {
        assert(dom.contains(p));
        assert(dom.map(f).contains(p));
        let a = choose|a: int| dom.contains(a) && f(a) == p;
        assert(o[a] == p);
    }
}

proof fn lemma_run_orders_agree(evs: Seq<Event>, o1: Seq<usize>, o2: Seq<usize>, k: int)
    requires
        is_run_order(evs, o1),
        is_run_order(evs, o2),
        0 <= k <= evs.len(),
    ensures
        forall|a: int| 0 <= a < k ==> #[trigger] o1[a] == o2[a],
    decreases k,
{
    if k > 0 {
        lemma_run_orders_agree(evs, o1, o2, k - 1);
        let i = k - 1;
        let x = o1[i] as int;
        let y = o2[i] as int;
        lemma_run_order_covers(evs, o1);
        lemma_run_order_covers(evs, o2);
        assert(listed(o2, x));
        assert(listed(o1, y));
        let b = choose|b: int| 0 <= b < o2.len() && #[trigger] o2[b] == x;
        let c = choose|c: int| 0 <= c < o1.len() && #[trigger] o1[c] == y;
        if b < i {
            assert(o1[b] == o2[b]);
            assert(run_before(evs, o1[b] as int, o1[i] as int));
        }
        if c < i {
            assert(o1[c] == o2[c]);
            assert(run_before(evs, o2[c] as int, o2[i] as int));
        }
        if b > i && c > i {
            assert(run_before(evs, o2[i] as int, o2[b] as int));
            assert(run_before(evs, o1[i] as int, o1[c] as int));
        }
    }
}

/// The run order is unique: two orders that both list every event once in
/// ascending (timestamp, event id) order, ties kept in input order, are the
/// same. So `run` processes the events in exactly the stable sort of the
/// batch by (timestamp, event id).
pub proof fn law_run_order_unique(evs: Seq<Event>, o1: Seq<usize>, o2: Seq<usize>)
    requires
        is_run_order(evs, o1),
        is_run_order(evs, o2),
    ensures
        o1 == o2,
{
    lemma_run_orders_agree(evs, o1, o2, evs.len() as int);
    assert(o1 =~= o2);
}

fn before_exec(evs: &[Event], i: usize, j: usize) -> (b: bool)
    requires
        i < evs@.len(),
        j < evs@.len(),
    ensures
        b == run_before(evs@, i as int, j as int),
{
    let a = &evs[i];
    let c = &evs[j];
    a.ts.0 < c.ts.0 || (a.ts.0 == c.ts.0 && (a.event_id.0 < c.event_id.0 || (a.event_id.0 == c.event_id.0 && i < j)))
}

/// The positions of `evs` in run order (insertion sort).
fn run_order(evs: &[Event]) -> (order: Vec<usize>)
    ensures
        is_run_order(evs@, order@),
{
    let ghost ev = evs@;
    let mut order: Vec<usize> = Vec::new();
    let n = evs.len();
    let mut i: usize = 0;
    while i < n
        invariant
            n == evs@.len(),
            ev == evs@,
            i <= n,
            order@.len() == i,
            forall|k: int| 0 <= k < order@.len() ==> (#[trigger] order@[k]) < i,
            forall|a: int, b: int| 0 <= a < b < order@.len() ==> run_before(ev, #[trigger] order@[a] as int, #[trigger] order@[b] as int),
        decreases n - i,
    {
        let mut p = order.len();
        while p > 0 && before_exec(evs, i, order[p - 1])
            invariant
                n == evs@.len(),
                ev == evs@,
                i < n,
                p <= order@.len(),
                order@.len() == i,
                forall|k: int| 0 <= k < order@.len() ==> (#[trigger] order@[k]) < i,
                forall|q: int| p <= q < order@.len() ==> run_before(ev, i as int, #[trigger] order@[q] as int),
            decreases p,
        {
            p = p - 1;
        }
        let ghost old_order = order@;
        proof {
            if p > 0 {
                assert(!run_before(ev, i as int, old_order[p - 1] as int));
                assert(old_order[p - 1] < i);
                assert(run_before(ev, old_order[p - 1] as int, i as int));
                assert forall|q: int| 0 <= q < p implies run_before(ev, #[trigger] old_order[q] as int, i as int) by {
                    if q < p - 1 {
                        assert(run_before(ev, old_order[q] as int, old_order[p - 1] as int));
                    }
                }
            }
        }
        order.insert(p, i);
        proof {
            assert(order@ =~= old_order.insert(p as int, i));
            assert forall|a: int, b: int| 0 <= a < b < order@.len() implies run_before(ev, #[trigger] order@[a] as int, #[trigger] order@[b] as int) by {
                if b < p {
                    assert(order@[a] == old_order[a] && order@[b] == old_order[b]);
                } else if b == p {
                    assert(order@[a] == old_order[a]);
                } else if a < p {
                    assert(order@[a] == old_order[a] && order@[b] == old_order[b - 1]);
                    assert(run_before(ev, old_order[a] as int, i as int));
                } else if a == p {
                    assert(order@[b] == old_order[b - 1]);
                } else {
                    assert(order@[a] == old_order[a - 1] && order@[b] == old_order[b - 1]);
                }
            }
            assert forall|k: int| 0 <= k < order@.len() implies (#[trigger] order@[k]) < i + 1 by {
                if k < p {
                    assert(order@[k] == old_order[k]);
                } else if k > p {
                    assert(order@[k] == old_order[k - 1]);
                }
            }
        }
        i = i + 1;
    }
    order
}

struct ThreshBuf {
    rule: usize,
    group: String,
    hits: Vec<(i64, u64)>,
}

struct Partial {
    first_ts: i64,
    event_ids: Vec<u64>,
}

struct SeqBucket {
    rule: usize,
    step: usize,
    corr: String,
    partials: Vec<Partial>,
}

spec fn thresh_v(t: ThreshBuf) -> ThreshV {
    ThreshV { rule: t.rule as int, group: t.group@, hits: t.hits@ }
}

spec fn threshs_v(s: Seq<ThreshBuf>) -> Seq<ThreshV> {
    s.map_values(|t: ThreshBuf| thresh_v(t))
}

spec fn partial_v(p: Partial) -> PartialV {
    PartialV { first_ts: p.first_ts, ids: p.event_ids@ }
}

spec fn partials_v(s: Seq<Partial>) -> Seq<PartialV> {
    s.map_values(|p: Partial| partial_v(p))
}

spec fn bucket_v(b: SeqBucket) -> BucketV {
    BucketV { rule: b.rule as int, step: b.step as int, corr: b.corr@, partials: partials_v(b.partials@) }
}

spec fn buckets_v(s: Seq<SeqBucket>) -> Seq<BucketV> {
    s.map_values(|b: SeqBucket| bucket_v(b))
}

fn find_thresh_exec(st: &Vec<ThreshBuf>, rule: usize, group: &str) -> (i: usize)
    ensures
        i as int == find_thresh(threshs_v(st@), rule as int, group@, 0),
        i <= st@.len(),
{
    let ghost v = threshs_v(st@);
    let mut i: usize = 0;
    while i < st.len()
        invariant
            i <= st@.len(),
            v == threshs_v(st@),
            find_thresh(v, rule as int, group@, 0) == find_thresh(v, rule as int, group@, i as int),
        decreases st@.len() - i,
    {
        if st[i].rule == rule && str_eq(st[i].group.as_str(), group) {
            return i;
        }
        i = i + 1;
    }
    i
}

fn copy_hits(h: &Vec<(i64, u64)>, lo: usize) -> (r: Vec<(i64, u64)>)
    requires
        lo <= h@.len(),
    ensures
        r@ == h@.subrange(lo as int, h@.len() as int),
{
    let mut r: Vec<(i64, u64)> = Vec::new();
    let mut k = lo;
    while k < h.len()
        invariant
            lo <= k <= h@.len(),
            r@ == h@.subrange(lo as int, k as int),
        decreases h@.len() - k,
    {
        r.push(h[k]);
        k = k + 1;
        proof {
            assert(r@ =~= h@.subrange(lo as int, k as int));
        }
    }
    r
}

fn ids_of_hits(h: &Vec<(i64, u64)>) -> (r: Vec<u64>)
    ensures
        r@ == hit_ids(h@),
{
    let mut r: Vec<u64> = Vec::new();
    let mut k: usize = 0;
    while k < h.len()
        invariant
            k <= h@.len(),
            r@ == hit_ids(h@.take(k as int)),
        decreases h@.len() - k,
    {
        r.push(h[k].1);
        k = k + 1;
        proof {
            assert(hit_ids(h@.take(k as int)) =~= hit_ids(h@.take(k - 1)).push(h@[k - 1].1));
        }
    }
    proof {
        assert(h@.take(k as int) =~= h@);
    }
    r
}

fn thresh_update(
    st: &mut Vec<ThreshBuf>,
    rule: usize,
    group: String,
    now: i64,
    id: u64,
    threshold: u64,
    window_ms: i128,
) -> (fired: Option<Vec<u64>>)
    requires
        0 <= window_ms <= u64::MAX as int * 1000,
    ensures
        ({
            let (s2, f) = thresh_step(threshs_v(old(st)@), rule as int, group@, now, id, threshold, window_ms as int);
            threshs_v(final(st)@) == s2 && match f {
                Some(ids) => fired matches Some(v) && v@ == ids,
                None => fired is None,
            }
        }),
{
    let ghost v0 = threshs_v(st@);
    let i = find_thresh_exec(st, rule, group.as_str());
    let n0 = st.len();
    let mut hits: Vec<(i64, u64)> = if i < n0 {
        let t = st.remove(i);
        proof {
            assert(threshs_v(st@) =~= v0.remove(i as int));
        }
        t.hits
    } else {
        Vec::new()
    };
    hits.push((now, id));
    let cutoff: i128 = now as i128 - window_ms;
    let mut k: usize = 0;
    proof {
        assert(hits@.subrange(0, hits@.len() as int) =~= hits@);
    }
    while k < hits.len() && (hits[k].0 as i128) < cutoff
        invariant
            k <= hits@.len(),
            prune(hits@, cutoff as int) == prune(hits@.subrange(k as int, hits@.len() as int), cutoff as int),
        decreases hits@.len() - k,
    {
        proof {
            assert(hits@.subrange(k as int, hits@.len() as int).drop_first() =~= hits@.subrange(k + 1, hits@.len() as int));
        }
        k = k + 1;
    }
    let buf = copy_hits(&hits, k);
    let fire = buf.len() as u64 >= threshold;
    let fired = if fire {
        Some(ids_of_hits(&buf))
    } else {
        None
    };
    let entry = ThreshBuf {
        rule,
        group,
        hits: if fire {
            Vec::new()
        } else {
            buf
        },
    };
    if i < n0 {
        st.insert(i, entry);
        proof {
            assert(threshs_v(st@) =~= v0.update(i as int, thresh_v(entry)));
        }
    } else {
        st.push(entry);
        proof {
            assert(threshs_v(st@) =~= v0.push(thresh_v(entry)));
        }
    }
    fired
}

fn find_bucket_exec(bs: &Vec<SeqBucket>, rule: usize, step: usize, corr: &str) -> (i: usize)
    ensures
        i as int == find_bucket(buckets_v(bs@), rule as int, step as int, corr@, 0),
        i <= bs@.len(),
{
    let ghost v = buckets_v(bs@);
    let mut i: usize = 0;
    while i < bs.len()
        invariant
            i <= bs@.len(),
            v == buckets_v(bs@),
            find_bucket(v, rule as int, step as int, corr@, 0) == find_bucket(v, rule as int, step as int, corr@, i as int),
        decreases bs@.len() - i,
    {
        if bs[i].rule == rule && bs[i].step == step && str_eq(bs[i].corr.as_str(), corr) {
            return i;
        }
        i = i + 1;
    }
    i
}

fn copy_ids(v: &Vec<u64>) -> (r: Vec<u64>)
    ensures
        r@ == v@,
{
    let mut r: Vec<u64> = Vec::new();
    let mut k: usize = 0;
    while k < v.len()
        invariant
            k <= v@.len(),
            r@ == v@.take(k as int),
        decreases v@.len() - k,
    {
        r.push(v[k]);
        k = k + 1;
        proof {
            assert(r@ =~= v@.take(k as int));
        }
    }
    proof {
        assert(v@.take(k as int) =~= v@);
    }
    r
}

fn add_partials_exec(bs: &mut Vec<SeqBucket>, rule: usize, step: usize, corr: String, new: Vec<Partial>)
    ensures
        buckets_v(final(bs)@) == add_partials(buckets_v(old(bs)@), rule as int, step as int, corr@, partials_v(new@)),
{
    let ghost v0 = buckets_v(bs@);
    let i = find_bucket_exec(bs, rule, step, corr.as_str());
    if i < bs.len() {
        let b0 = bs.remove(i);
        let mut ps = b0.partials;
        let ghost old_ps = ps@;
        let ghost old_new = new@;
        let mut new = new;
        ps.append(&mut new);
        proof {
            assert(partials_v(ps@) =~= partials_v(old_ps) + partials_v(old_new));
        }
        let b = SeqBucket { rule, step, corr, partials: ps };
        bs.insert(i, b);
        proof {
            assert(buckets_v(bs@) =~= v0.update(i as int, bucket_v(b)));
        }
    } else {
        let b = SeqBucket { rule, step, corr, partials: new };
        bs.push(b);
        proof {
            assert(buckets_v(bs@) =~= v0.push(bucket_v(b)));
        }
    }
}

fn seq_update(
    bs: &mut Vec<SeqBucket>,
    rule: usize,
    n: usize,
    window_ms: i128,
    s: usize,
    corr: String,
    now: i64,
    id: u64,
) -> (fired: Vec<Vec<u64>>)
    requires
        0 <= window_ms <= u64::MAX as int * 1000,
        s < n,
    ensures
        ({
            let (b2, f) = seq_step(buckets_v(old(bs)@), rule as int, n as int, window_ms as int, s as int, corr@, now, id);
            buckets_v(final(bs)@) == b2 && id_lists_v(fired@) == f
        }),
{
    let ghost v0 = buckets_v(bs@);
    if s == 0 {
        let mut ids: Vec<u64> = Vec::new();
        ids.push(id);
        let mut one: Vec<Partial> = Vec::new();
        one.push(Partial { first_ts: now, event_ids: ids });
        proof {
            assert(partials_v(one@) =~= seq![PartialV { first_ts: now, ids: seq![id] }]);
        }
        add_partials_exec(bs, rule, 0, corr, one);
        let out: Vec<Vec<u64>> = Vec::new();
        proof {
            assert(id_lists_v(out@) =~= Seq::<Seq<u64>>::empty());
        }
        return out;
    }
    let empty_out: Vec<Vec<u64>> = Vec::new();
    proof {
        assert(id_lists_v(empty_out@) =~= Seq::<Seq<u64>>::empty());
    }
    let no_corr = str_eq(corr.as_str(), "");
    proof {
        reveal_strlit("");
        assert(""@ =~= Seq::<char>::empty());
        if corr@.len() == 0 {
            assert(corr@ =~= ""@);
        }
        assert(no_corr == (corr@.len() == 0));
    }
    if no_corr {
        return empty_out;
    }
    let j = find_bucket_exec(bs, rule, s - 1, corr.as_str());
    if j >= bs.len() {
        return empty_out;
    }
    let b = bs.remove(j);
    let ghost orig = b.partials@;
    let ghost bv = bucket_v(b);
    proof {
        assert(bv == v0[j as int]);
    }
    let cutoff: i128 = now as i128 - window_ms;
    let mut kept: Vec<Partial> = Vec::new();
    let mut adv: Vec<Partial> = Vec::new();
    for p in it: b.partials.into_iter()
        invariant
            it.seq() == orig,
            partials_v(kept@) == keep_recent(partials_v(orig.take(it.index() as int)), cutoff as int),
            partials_v(adv@) == extend_ids(partials_v(kept@), id),
    {
        let ghost k = it.index() as int;
        proof {
            assert(partials_v(orig.take(k + 1)).drop_last() =~= partials_v(orig.take(k)));
            assert(partials_v(orig.take(k + 1)).last() == partial_v(orig[k]));
        }
        if p.first_ts as i128 >= cutoff {
            let mut ids = copy_ids(&p.event_ids);
            ids.push(id);
            let q = Partial { first_ts: p.first_ts, event_ids: ids };
            let ghost kv = partials_v(kept@);
            let ghost av = partials_v(adv@);
            kept.push(p);
            adv.push(q);
            proof {
                assert(partials_v(kept@) =~= kv.push(partial_v(p)));
                assert(partials_v(adv@) =~= av.push(partial_v(q)));
                assert(extend_ids(kv.push(partial_v(p)), id) =~= extend_ids(kv, id).push(partial_v(q)));
            }
        }
    }
    proof {
        assert(orig.take(orig.len() as int) =~= orig);
    }
    let ghost keptv = partials_v(kept@);
    proof {
        assert(partials_v(orig) == v0[j as int].partials);
        assert(keptv == keep_recent(v0[j as int].partials, now - window_ms));
        assert(partials_v(adv@) == extend_ids(keptv, id));
    }
    let nb = SeqBucket { rule: b.rule, step: b.step, corr: b.corr, partials: kept };
    bs.insert(j, nb);
    proof {
        assert(buckets_v(bs@) =~= v0.update(j as int, BucketV { rule: bv.rule, step: bv.step, corr: bv.corr, partials: keptv }));
    }
    proof {
        let (b2, f) = seq_step(v0, rule as int, n as int, window_ms as int, s as int, corr@, now, id);
        let jj = find_bucket(v0, rule as int, s - 1, corr@, 0);
        assert(jj == j);
        assert(corr@.len() != 0);
        if adv@.len() == 0 {
            assert(b2 == buckets_v(bs@));
            assert(f == Seq::<Seq<u64>>::empty());
        }
    }
    if adv.len() == 0 {
        return empty_out;
    }
    if s == n - 1 {
        let ghost advv = partials_v(adv@);
        let ghost adv_all = adv@;
        let mut out: Vec<Vec<u64>> = Vec::new();
        for p in it: adv.into_iter()
            invariant
                it.seq() == adv_all,
                advv == partials_v(adv_all),
                id_lists_v(out@) == partial_ids(advv.take(it.index() as int)),
        {
            let ghost k = it.index() as int;
            let ghost before = out@;
            out.push(p.event_ids);
            proof {
                assert(id_lists_v(out@) =~= id_lists_v(before).push(p.event_ids@));
                assert(partial_ids(advv.take(k + 1)) =~= partial_ids(advv.take(k)).push(advv[k].ids));
            }
        }
        proof {
            assert(advv.take(advv.len() as int) =~= advv);
        }
        return out;
    }
    add_partials_exec(bs, rule, s, corr, adv);
    empty_out
}

spec fn steps_v(s: Seq<Step>) -> Seq<StepV> {
    s.map_values(|x: Step| step_v(x))
}

fn class_matches(class: Option<u32>, e: &Event) -> (b: bool)
    ensures
        b == class_ok(class, *e),
{
    match class {
        Some(c) => e.class_uid == c,
        None => true,
    }
}

fn top_step_exec(steps: &Vec<Step>, e: &Event) -> (r: Option<usize>)
    ensures
        match top_step(steps_v(steps@), *e, steps@.len() as int) {
            Some(s) => r == Some(s as usize) && 0 <= s < steps@.len(),
            None => r is None,
        },
{
    let ghost sv = steps_v(steps@);
    let mut k = steps.len();
    while k > 0
        invariant
            k <= steps@.len(),
            sv == steps_v(steps@),
            top_step(sv, *e, steps@.len() as int) == top_step(sv, *e, k as int),
        decreases k,
    {
        let st = &steps[k - 1];
        if class_matches(st.class, e) && st.filter.eval(e) {
            return Some(k - 1);
        }
        k = k - 1;
    }
    None
}

fn group_key_exec(gb: &Option<String>, e: &Event) -> (r: String)
    ensures
        r@ == group_key(ostr(*gb), *e),
{
    proof {
        reveal_strlit("");
        assert(""@ =~= Seq::<char>::empty());
    }
    match gb {
        Some(f) => match e.get(f.as_str()) {
            Some(v) => {
                let blank = str_eq(v.as_str(), "");
                proof {
                    if v@.len() == 0 {
                        assert(v@ =~= ""@);
                    }
                }
                if blank {
                    owned("unknown")
                } else {
                    v
                }
            },
            None => owned("unknown"),
        },
        None => owned("default"),
    }
}

fn push_alerts(out: &mut Vec<Alert>, meta: &Meta, now: i64, corr: &str, fired: Vec<Vec<u64>>)
    ensures
        alerts_v(final(out)@) == alerts_v(old(out)@) + seq_alerts(meta_v(*meta), now, corr@, id_lists_v(fired@)),
{
    let ghost all = fired@;
    let ghost start = alerts_v(out@);
    for ids in it: fired.into_iter()
        invariant
            it.seq() == all,
            alerts_v(out@) == start + seq_alerts(meta_v(*meta), now, corr@, id_lists_v(all.take(it.index() as int))),
    {
        let ghost k = it.index() as int;
        let ghost before = out@;
        let a = make_alert(meta, now, Some(owned(corr)), ids);
        out.push(a);
        proof {
            assert(id_lists_v(all.take(k + 1)) =~= id_lists_v(all.take(k)).push(all[k]@));
            assert(seq_alerts(meta_v(*meta), now, corr@, id_lists_v(all.take(k + 1))) =~= seq_alerts(
                meta_v(*meta),
                now,
                corr@,
                id_lists_v(all.take(k)),
            ).push(alert_v(a)));
            assert(alerts_v(out@) =~= alerts_v(before).push(alert_v(a)));
        }
    }
    proof {
        assert(all.take(all.len() as int) =~= all);
    }
}

fn run_rule(
    rule: &CompiledRule,
    ri: usize,
    th: &mut Vec<ThreshBuf>,
    bs: &mut Vec<SeqBucket>,
    e: &Event,
    out: &mut Vec<Alert>,
)
    requires
        det_ok(detector_v(rule.detector)),
    ensures
        ({
            let (t2, b2, a) = rule_step(compiled_v(*rule), ri as int, threshs_v(old(th)@), buckets_v(old(bs)@), *e);
            threshs_v(final(th)@) == t2 && buckets_v(final(bs)@) == b2 && alerts_v(final(out)@) == alerts_v(old(out)@) + a
        }),
{
    let now = e.ts.millis();
    let id = e.event_id.raw();
    let ghost start = alerts_v(out@);
    match &rule.detector {
        Detector::Atomic { class, filter } => {
            if class_matches(*class, e) && filter.eval(e) {
                let mut ids: Vec<u64> = Vec::new();
                ids.push(id);
                let a = make_alert(&rule.meta, now, None, ids);
                out.push(a);
                proof {
                    assert(alerts_v(out@) =~= start + seq![alert_v(a)]);
                }
            } else {
                proof {
                    assert(alerts_v(out@) =~= start + Seq::<AlertV>::empty());
                }
            }
        },
        Detector::Threshold { class, filter, threshold, window_ms, group_by } => {
            if class_matches(*class, e) && filter.eval(e) {
                let g = group_key_exec(group_by, e);
                let gc = owned(g.as_str());
                let fired = thresh_update(th, ri, g, now, id, *threshold, *window_ms);
                match fired {
                    Some(ids) => {
                        let a = make_alert(&rule.meta, now, Some(gc), ids);
                        out.push(a);
                        proof {
                            assert(alerts_v(out@) =~= start + seq![alert_v(a)]);
                        }
                    },
                    None => {
                        proof {
                            assert(alerts_v(out@) =~= start + Seq::<AlertV>::empty());
                        }
                    },
                }
            } else {
                proof {
                    assert(alerts_v(out@) =~= start + Seq::<AlertV>::empty());
                }
            }
        },
        Detector::Sequence { steps, window_ms, match_on } => {
            match top_step_exec(steps, e) {
                None => {
                    proof {
                        assert(alerts_v(out@) =~= start + Seq::<AlertV>::empty());
                    }
                },
                Some(s) => {
                    let corr = match e.get(match_on.as_str()) {
                        Some(v) => v,
                        None => String::new(),
                    };
                    let cc = owned(corr.as_str());
                    let fired = seq_update(bs, ri, steps.len(), *window_ms, s, corr, now, id);
                    push_alerts(out, &rule.meta, now, cc.as_str(), fired);
                },
            }
        },
    }
}

/// The stateful detection engine.
pub struct Engine {
    rules: CompiledRuleSet,
    /// Threshold sliding windows, one per (rule, group value).
    thresh: Vec<ThreshBuf>,
    /// Sequence partials, one bucket per (rule, last satisfied step, correlation value).
    seq: Vec<SeqBucket>,
}

impl View for Engine {
    type V = EngineV;

    closed spec fn view(&self) -> EngineV {
        EngineV { rules: self.rules@, thresh: threshs_v(self.thresh@), seqs: buckets_v(self.seq@) }
    }
}

impl Engine {
    /// An engine over compiled rules, with no detection state yet.
    pub fn new(rules: CompiledRuleSet) -> (r: Engine)
        ensures
            r@ == (EngineV { rules: rules@, thresh: Seq::empty(), seqs: Seq::empty() }),
    {
        let r = Engine { rules, thresh: Vec::new(), seq: Vec::new() };
        proof {
            assert(threshs_v(r.thresh@) =~= Seq::<ThreshV>::empty());
            assert(buckets_v(r.seq@) =~= Seq::<BucketV>::empty());
        }
        r
    }

    /// Compile a rule set and build an engine in one step.
    pub fn from_rules(set: &RuleSet) -> (r: Result<Engine, RulesError>)
        ensures
            match compile_from(set.detection_rules@, 0) {
                Ok(v) => r matches Ok(eng) && eng@ == (EngineV { rules: v, thresh: Seq::empty(), seqs: Seq::empty() }),
                Err((id, x)) => r matches Err(e) && is_invalid(e, id, compile_fail_text(x)),
            },
    {
        match CompiledRuleSet::compile(set) {
            Ok(c) => Ok(Engine::new(c)),
            Err(e) => Err(e),
        }
    }

    /// The number of rules.
    pub fn rule_count(&self) -> (n: usize)
        ensures
            n == self@.rules.len(),
    {
        self.rules.len()
    }

    /// Process a single event, returning the alerts it fires.
    pub fn process(&mut self, e: &Event) -> (alerts: Vec<Alert>)
        ensures
            (final(self)@, alerts_v(alerts@)) == process_spec(old(self)@, *e),
    {
        let mut out: Vec<Alert> = Vec::new();
        self.process_into(e, &mut out);
        proof {
            assert(alerts_v(Seq::<Alert>::empty()) + alerts_v(out@) =~= alerts_v(out@));
        }
        out
    }

    /// Run detection over a batch, in run order: by timestamp, then event id,
    /// then input position.
    pub fn run(&mut self, events: &[Event]) -> (alerts: Vec<Alert>)
        ensures
            exists|order: Seq<usize>| #[trigger] is_run_order(events@, order)
                && (final(self)@, alerts_v(alerts@)) == run_fold(old(self)@, events@, order, events@.len() as int),
    {
        let order = run_order(events);
        let ghost st0 = self@;
        let mut out: Vec<Alert> = Vec::new();
        let mut k: usize = 0;
        proof {
            assert(alerts_v(out@) =~= Seq::<AlertV>::empty());
        }
        while k < order.len()
            invariant
                k <= order@.len(),
                is_run_order(events@, order@),
                ({
                    let (s1, a1) = run_fold(st0, events@, order@, k as int);
                    self@ == s1 && alerts_v(out@) == a1
                }),
            decreases order@.len() - k,
        {
            let idx = order[k];
            self.process_into(&events[idx], &mut out);
            k = k + 1;
        }
        out
    }

    fn process_into(&mut self, e: &Event, out: &mut Vec<Alert>)
        ensures
            ({
                let (st, a) = process_spec(old(self)@, *e);
                final(self)@ == st && alerts_v(final(out)@) == alerts_v(old(out)@) + a
            }),
    {
        proof {
            use_type_invariant(&self.rules);
        }
        let ghost rv = self.rules@;
        let ghost th0 = threshs_v(self.thresh@);
        let ghost bs0 = buckets_v(self.seq@);
        let ghost out0 = alerts_v(out@);
        let n = self.rules.rules.len();
        let mut ri: usize = 0;
        while ri < n
            invariant
                n == self.rules.rules@.len(),
                ri <= n,
                rv == self.rules@,
                rv.len() == n,
                forall|i: int| 0 <= i < n ==> det_ok(#[trigger] detector_v(self.rules.rules@[i].detector)),
                ({
                    let (t, b, a) = rules_step(rv, ri as int, th0, bs0, *e);
                    threshs_v(self.thresh@) == t && buckets_v(self.seq@) == b && alerts_v(out@) == out0 + a
                }),
            decreases n - ri,
        {
            let ghost a_before = alerts_v(out@);
            let ghost (t1, b1, a1) = rules_step(rv, ri as int, th0, bs0, *e);
            proof {
                assert(rv[ri as int] == compiled_v(self.rules.rules@[ri as int]));
            }
            run_rule(&self.rules.rules[ri], ri, &mut self.thresh, &mut self.seq, e, out);
            proof {
                let (t2, b2, a2) = rule_step(rv[ri as int], ri as int, t1, b1, *e);
                assert(alerts_v(out@) =~= out0 + (a1 + a2));
            }
            ri = ri + 1;
        }
    }
}


/// Deduplication keeps exactly one alert per `alert_id`: every alert it keeps
/// comes from the input, no two kept alerts share an `alert_id`, and every
/// `alert_id` of the input is kept.
pub proof fn law_dedup_one_per_id(s: Seq<Alert>)
    ensures
        forall|j: int| 0 <= j < dedup_spec(s).len() ==> s.contains(#[trigger] dedup_spec(s)[j]),
        forall|a: int, b: int|
            0 <= a < b < dedup_spec(s).len() ==> (#[trigger] dedup_spec(s)[a]).alert_id@ != (
            #[trigger] dedup_spec(s)[b]).alert_id@,
        forall|i: int|
            0 <= i < s.len() ==> exists|j: int|
                0 <= j < dedup_spec(s).len() && (#[trigger] dedup_spec(s)[j]).alert_id@ == (
                #[trigger] s[i]).alert_id@,
    decreases s.len(),
{
    if s.len() > 0 {
        let p = s.drop_last();
        law_dedup_one_per_id(p);
        let d0 = dedup_spec(p);
        let d = dedup_spec(s);
        assert forall|j: int| 0 <= j < d0.len() implies s.contains(#[trigger] d0[j]) by {
            let i = choose|i: int| 0 <= i < p.len() && p[i] == d0[j];
            assert(s[i] == d0[j]);
        }
        if exists|j: int| 0 <= j < s.len() - 1 && (#[trigger] s[j]).alert_id@ == s.last().alert_id@ {
            assert(d == d0);
            assert forall|i: int| 0 <= i < s.len() implies exists|j: int|
                0 <= j < d.len() && (#[trigger] d[j]).alert_id@ == (#[trigger] s[i]).alert_id@ by {
                if i < s.len() - 1 {
                    assert(p[i] == s[i]);
                } else {
                    let w = choose|w: int| 0 <= w < s.len() - 1 && (#[trigger] s[w]).alert_id@ == s.last().alert_id@;
                    assert(p[w] == s[w]);
                }
            }
        } else {
            assert(d == d0.push(s.last()));
            assert forall|j: int| 0 <= j < d0.len() implies (#[trigger] d0[j]).alert_id@ != s.last().alert_id@ by {
                let i = choose|i: int| 0 <= i < p.len() && p[i] == d0[j];
                assert(s[i] == p[i]);
            }
            assert forall|j: int| 0 <= j < d.len() implies s.contains(#[trigger] d[j]) by {
                if j == d.len() - 1 {
                    assert(s[s.len() - 1] == d[j]);
                } else {
                    assert(d[j] == d0[j]);
                }
            }
            assert forall|a: int, b: int| 0 <= a < b < d.len() implies (#[trigger] d[a]).alert_id@ != (
                #[trigger] d[b]).alert_id@ by {
                assert(d[a] == d0[a]);
                if b < d.len() - 1 {
                    assert(d[b] == d0[b]);
                }
            }
            assert forall|i: int| 0 <= i < s.len() implies exists|j: int|
                0 <= j < d.len() && (#[trigger] d[j]).alert_id@ == (#[trigger] s[i]).alert_id@ by {
                if i < s.len() - 1 {
                    assert(p[i] == s[i]);
                    let j = choose|j: int| 0 <= j < d0.len() && (#[trigger] d0[j]).alert_id@ == (#[trigger] p[i]).alert_id@;
                    assert(d[j] == d0[j]);
                } else {
                    assert(d[d.len() - 1] == s[i]);
                }
            }
        }
    }
}

/// Deduplication keeps the first alert of each `alert_id`, in input order:
/// the kept alerts sit at increasing positions `pos` of the input, and each
/// is the earliest input alert with its `alert_id`.
pub proof fn law_dedup_keeps_first(s: Seq<Alert>) -> (pos: Seq<int>)
    ensures
        pos.len() == dedup_spec(s).len(),
        forall|j: int| 0 <= j < pos.len() ==> 0 <= #[trigger] pos[j] < s.len() && s[pos[j]] == dedup_spec(s)[j],
        forall|j: int, k: int| 0 <= j < pos.len() && 0 <= k < #[trigger] pos[j] ==> (#[trigger] s[k]).alert_id@ != s[pos[j]].alert_id@,
        forall|a: int, b: int| 0 <= a < b < pos.len() ==> #[trigger] pos[a] < #[trigger] pos[b],
    decreases s.len(),
{
    if s.len() == 0 {
        Seq::empty()
    } else {
        let p = s.drop_last();
        let pos0 = law_dedup_keeps_first(p);
        let d0 = dedup_spec(p);
        let d = dedup_spec(s);
        assert forall|j: int| 0 <= j < pos0.len() implies s[#[trigger] pos0[j]] == p[pos0[j]] by {}
        if exists|j: int| 0 <= j < s.len() - 1 && (#[trigger] s[j]).alert_id@ == s.last().alert_id@ {
            assert(d == d0);
            assert forall|j: int, k: int| 0 <= j < pos0.len() && 0 <= k < #[trigger] pos0[j] implies (#[trigger] s[k]).alert_id@ != s[pos0[j]].alert_id@ by {
                assert(s[k] == p[k]);
            }
            pos0
        } else {
            assert(d == d0.push(s.last()));
            let pos = pos0.push(s.len() - 1);
            assert forall|j: int| 0 <= j < pos.len() implies 0 <= #[trigger] pos[j] < s.len() && s[pos[j]] == d[j] by {
                if j < pos0.len() {
                    assert(pos[j] == pos0[j]);
                    assert(d[j] == d0[j]);
                }
            }
            assert forall|j: int, k: int| 0 <= j < pos.len() && 0 <= k < #[trigger] pos[j] implies (#[trigger] s[k]).alert_id@ != s[pos[j]].alert_id@ by {
                if j < pos0.len() {
                    assert(pos[j] == pos0[j]);
                    assert(s[k] == p[k]);
                }
            }
            assert forall|a: int, b: int| 0 <= a < b < pos.len() implies #[trigger] pos[a] < #[trigger] pos[b] by {
                assert(pos[a] == pos0[a]);
                if b < pos0.len() {
                    assert(pos[b] == pos0[b]);
                }
            }
            pos
        }
    }
}

/// Deduplicating twice is deduplicating once.
pub proof fn law_dedup_idempotent(s: Seq<Alert>)
    ensures
        dedup_spec(dedup_spec(s)) == dedup_spec(s),
{
    law_dedup_one_per_id(s);
    lemma_dedup_of_unique(dedup_spec(s));
}

/// A sequence whose `alert_id`s are all distinct is its own deduplication.
proof fn lemma_dedup_of_unique(s: Seq<Alert>)
    requires
        forall|a: int, b: int| 0 <= a < b < s.len() ==> (#[trigger] s[a]).alert_id@ != (#[trigger] s[b]).alert_id@,
    ensures
        dedup_spec(s) == s,
    decreases s.len(),
{
    if s.len() > 0 {
        let p = s.drop_last();
        assert forall|a: int, b: int| 0 <= a < b < p.len() implies (#[trigger] p[a]).alert_id@ != (#[trigger] p[b]).alert_id@ by {
            assert(p[a] == s[a] && p[b] == s[b]);
        }
        lemma_dedup_of_unique(p);
        assert(!exists|j: int| 0 <= j < s.len() - 1 && (#[trigger] s[j]).alert_id@ == s.last().alert_id@);
        assert(p.push(s.last()) =~= s);
    }
}

} // verus!
