//! A minimal Sigma → LogHound rule compiler.
//!
//! Sigma is a large spec; this compiler supports the common subset that maps
//! cleanly onto the atomic-rule + filter-DSL form, so Sigma packs run through
//! the same evaluator:
//!
//! - `detection:` with one or more **selection maps** (`field: value`,
//!   `field: [v1, v2]` → `IN`, and the `field|contains` modifier → `CONTAINS`).
//! - `condition:` supporting `sel`, `sel1 and sel2`, `sel1 or sel2`, `not sel`,
//!   `1 of them`, `all of them`, and parentheses.
//!
//! Field names are passed through verbatim, so a Sigma pack should use
//! LogHound's OCSF field paths. Unsupported constructs are errors rather than
//! silent misfires. The YAML document arrives already read into a
//! [`SigmaDoc`].

use vstd::prelude::*;

use crate::oplc::cvecs;
use crate::rules::{Rule, RuleType};
use crate::text::{append, chars_of, contains, contains_chars, find, find_chars, is_ws, occurs_at, owned, str_eq, string_from, to_uppercase, trim, trim_chars, unicode_upper};

verus! {

/// A YAML node reduced to what the compiler reads: a scalar by its text, or
/// anything else.
pub enum SigmaScalar {
    Str(String),
    /// A number, by its text.
    Num(String),
    Bool(bool),
    /// A null, a sequence, a mapping or a tagged value.
    Other,
}

/// The value of one field of a selection.
pub enum SigmaFieldValue {
    One(SigmaScalar),
    Many(Vec<SigmaScalar>),
}

/// The value of one entry of `detection`.
pub enum SigmaSelection {
    /// A mapping `field[|modifier]: value` (non-string keys read as empty).
    Fields(Vec<(String, SigmaFieldValue)>),
    Scalar(SigmaScalar),
    /// A sequence or another non-mapping node.
    Other,
}

/// A Sigma document, as read from YAML.
pub struct SigmaDoc {
    pub title: Option<String>,
    pub id: Option<String>,
    pub level: Option<String>,
    pub tags: Option<Vec<String>>,
    /// The entries of `detection` in document order; `None` when it is not a
    /// mapping.
    pub detection: Option<Vec<(String, SigmaSelection)>>,
    pub description: Option<String>,
}

/// Why a Sigma rule does not compile.
#[derive(Debug)]
pub enum SigmaError {
    Yaml(String),
    NoDetection,
    NoCondition,
    UnknownSelection(String),
    UnsupportedCondition(String),
    UnsupportedValue(String),
}

/// The model of a Sigma error.
pub enum SigmaErrV {
    Yaml(Seq<char>),
    NoDetection,
    NoCondition,
    UnknownSelection(Seq<char>),
    UnsupportedCondition(Seq<char>),
    UnsupportedValue(Seq<char>),
}

/// The model of a Sigma error.
pub open spec fn serr_v(e: SigmaError) -> SigmaErrV {
    match e {
        SigmaError::Yaml(m) => SigmaErrV::Yaml(m@),
        SigmaError::NoDetection => SigmaErrV::NoDetection,
        SigmaError::NoCondition => SigmaErrV::NoCondition,
        SigmaError::UnknownSelection(s) => SigmaErrV::UnknownSelection(s@),
        SigmaError::UnsupportedCondition(s) => SigmaErrV::UnsupportedCondition(s@),
        SigmaError::UnsupportedValue(s) => SigmaErrV::UnsupportedValue(s@),
    }
}

/// The message of a Sigma error.
pub open spec fn sigma_error_text(e: SigmaErrV) -> Seq<char> {
    match e {
        SigmaErrV::Yaml(m) => "failed to parse Sigma YAML: "@ + m,
        SigmaErrV::NoDetection => "Sigma rule missing `detection`"@,
        SigmaErrV::NoCondition => "Sigma rule missing `condition`"@,
        SigmaErrV::UnknownSelection(s) => "unknown selection `"@ + s + "` referenced in condition"@,
        SigmaErrV::UnsupportedCondition(s) => "unsupported condition construct: "@ + s,
        SigmaErrV::UnsupportedValue(s) => "unsupported detection value for `"@ + s + "`"@,
    }
}

impl SigmaError {
    /// The error's message, as `Display` would write it.
    pub fn message(&self) -> (r: String)
        ensures
            r@ == sigma_error_text(serr_v(*self)),
    {
        match self {
            SigmaError::Yaml(m) => crate::text::concat("failed to parse Sigma YAML: ", m.as_str()),
            SigmaError::NoDetection => owned("Sigma rule missing `detection`"),
            SigmaError::NoCondition => owned("Sigma rule missing `condition`"),
            SigmaError::UnknownSelection(s) => {
                let head = crate::text::concat("unknown selection `", s.as_str());
                crate::text::concat(head.as_str(), "` referenced in condition")
            },
            SigmaError::UnsupportedCondition(s) => crate::text::concat("unsupported condition construct: ", s.as_str()),
            SigmaError::UnsupportedValue(s) => {
                let head = crate::text::concat("unsupported detection value for `", s.as_str());
                crate::text::concat(head.as_str(), "`")
            },
        }
    }
}

// ---------------------------------------------------------------------------
// The model of compilation
// ---------------------------------------------------------------------------

/// The text of a scalar; `None` for anything else.
pub open spec fn scalar_text(s: SigmaScalar) -> Option<Seq<char>> {
    match s {
        SigmaScalar::Str(x) => Some(x@),
        SigmaScalar::Num(t) => Some(t@),
        SigmaScalar::Bool(b) => Some(if b { "true"@ } else { "false"@ }),
        SigmaScalar::Other => None,
    }
}

/// `s` without its single quotes (so it fits in a DSL string literal).
pub open spec fn esc(s: Seq<char>) -> Seq<char>
    decreases s.len(),
{
    if s.len() == 0 {
        s
    } else if s.last() == '\'' {
        esc(s.drop_last())
    } else {
        esc(s.drop_last()).push(s.last())
    }
}

/// Pieces joined with `sep` between them.
pub open spec fn join(ps: Seq<Seq<char>>, sep: Seq<char>) -> Seq<char>
    decreases ps.len(),
{
    if ps.len() == 0 {
        Seq::empty()
    } else if ps.len() == 1 {
        ps[0]
    } else {
        join(ps.drop_last(), sep) + sep + ps.last()
    }
}

/// The texts of `items[..k]`, or `None` if one is not a scalar.
pub open spec fn scalar_texts(items: Seq<SigmaScalar>, k: int) -> Option<Seq<Seq<char>>>
    decreases k,
{
    if k <= 0 {
        Some(Seq::empty())
    } else {
        match (scalar_texts(items, k - 1), scalar_text(items[k - 1])) {
            (Some(p), Some(t)) => Some(p.push(t)),
            _ => None,
        }
    }
}

/// `field CONTAINS 'v'`.
pub open spec fn contains_pred(field: Seq<char>, v: Seq<char>) -> Seq<char> {
    field + " CONTAINS '"@ + esc(v) + "'"@
}

/// `'v'`.
pub open spec fn quoted(v: Seq<char>) -> Seq<char> {
    "'"@ + esc(v) + "'"@
}

/// `field CONTAINS 'v'` for each value.
pub open spec fn contains_preds(field: Seq<char>, vals: Seq<Seq<char>>) -> Seq<Seq<char>> {
    vals.map_values(|v: Seq<char>| contains_pred(field, v))
}

/// Each value quoted.
pub open spec fn quoted_all(vals: Seq<Seq<char>>) -> Seq<Seq<char>> {
    vals.map_values(|v: Seq<char>| quoted(v))
}

/// The model of a field value.
pub enum FieldValueV {
    One(SigmaScalar),
    Many(Seq<SigmaScalar>),
}

/// A single `field[|modifier]: value` predicate as DSL text.
pub open spec fn field_pred(field: Seq<char>, modifier: Option<Seq<char>>, val: FieldValueV) -> Result<Seq<char>, SigmaErrV> {
    match val {
        FieldValueV::Many(items) => match scalar_texts(items, items.len() as int) {
            None => Err(SigmaErrV::UnsupportedValue(field)),
            Some(vals) => match modifier {
                Some(m) => if m == "contains"@ {
                    Ok("("@ + join(contains_preds(field, vals), " OR "@) + ")"@)
                } else {
                    Err(SigmaErrV::UnsupportedValue(field + "|"@ + m))
                },
                None => Ok(field + " IN ["@ + join(quoted_all(vals), ", "@) + "]"@),
            },
        },
        FieldValueV::One(s) => match scalar_text(s) {
            None => Err(SigmaErrV::UnsupportedValue(field)),
            Some(v) => match modifier {
                None => Ok(field + " == "@ + quoted(v)),
                Some(m) => if m == "contains"@ {
                    Ok(contains_pred(field, v))
                } else if m == "re"@ {
                    Ok(field + " =~ "@ + quoted(v))
                } else {
                    Err(SigmaErrV::UnsupportedValue(field + "|"@ + m))
                },
            },
        },
    }
}

/// A raw selection key split at its first `|` into field and modifier.
pub open spec fn split_key(raw: Seq<char>) -> (Seq<char>, Option<Seq<char>>) {
    match find(raw, "|"@) {
        Some(i) => (raw.subrange(0, i), Some(raw.subrange(i + 1, raw.len() as int))),
        None => (raw, None),
    }
}

/// The predicates of `fs[..k]`, or the first failure.
pub open spec fn preds_of(fs: Seq<(Seq<char>, FieldValueV)>, k: int) -> Result<Seq<Seq<char>>, SigmaErrV>
    decreases k,
{
    if k <= 0 {
        Ok(Seq::empty())
    } else {
        match preds_of(fs, k - 1) {
            Err(e) => Err(e),
            Ok(p) => {
                let (f, m) = split_key(fs[k - 1].0);
                match field_pred(f, m, fs[k - 1].1) {
                    Err(e) => Err(e),
                    Ok(x) => Ok(p.push(x)),
                }
            },
        }
    }
}

/// The model of a selection.
pub enum SelectionV {
    Fields(Seq<(Seq<char>, FieldValueV)>),
    Scalar(SigmaScalar),
    Other,
}

/// One selection as a parenthesized DSL fragment (the AND of its field
/// predicates).
pub open spec fn selection_dsl(name: Seq<char>, sel: SelectionV) -> Result<Seq<char>, SigmaErrV> {
    match sel {
        SelectionV::Fields(fs) => match preds_of(fs, fs.len() as int) {
            Err(e) => Err(e),
            Ok(p) => Ok("("@ + join(p, " AND "@) + ")"@),
        },
        _ => Err(SigmaErrV::UnsupportedValue(name)),
    }
}

/// The conjunction of some predicate texts: `p0 AND p1 AND ...`.
pub open spec fn conj(ps: Seq<Seq<char>>) -> Seq<char>
    decreases ps.len(),
{
    if ps.len() == 0 {
        Seq::empty()
    } else if ps.len() == 1 {
        ps[0]
    } else {
        ps[0] + " AND "@ + conj(ps.drop_first())
    }
}

/// The predicate text of field `i` of a selection.
pub open spec fn field_text(fs: Seq<(Seq<char>, FieldValueV)>, i: int) -> Result<Seq<char>, SigmaErrV> {
    field_pred(split_key(fs[i].0).0, split_key(fs[i].0).1, fs[i].1)
}

proof fn lemma_join_front(ps: Seq<Seq<char>>, sep: Seq<char>)
    requires
        ps.len() >= 2,
    ensures
        join(ps, sep) == ps[0] + sep + join(ps.drop_first(), sep),
    decreases ps.len(),
{
    if ps.len() == 2 {
        assert(ps.drop_last().len() == 1);
        assert(ps.drop_first().len() == 1);
        assert(join(ps.drop_first(), sep) == ps[1]);
        assert(join(ps.drop_last(), sep) == ps[0]);
        assert(join(ps, sep) =~= ps[0] + sep + ps[1]);
    } else {
        let l = ps.drop_last();
        lemma_join_front(l, sep);
        assert(l.drop_first() =~= ps.drop_first().drop_last());
        assert(ps.drop_first().last() == ps.last());
        assert(join(ps, sep) =~= ps[0] + sep + join(ps.drop_first(), sep));
    }
}

proof fn lemma_join_and(ps: Seq<Seq<char>>)
    ensures
        join(ps, " AND "@) == conj(ps),
    decreases ps.len(),
{
    if ps.len() >= 2 {
        lemma_join_front(ps, " AND "@);
        lemma_join_and(ps.drop_first());
    }
}

proof fn lemma_preds_all_ok(fs: Seq<(Seq<char>, FieldValueV)>, k: int)
    requires
        0 <= k <= fs.len(),
        forall|i: int| 0 <= i < fs.len() ==> #[trigger] field_text(fs, i) is Ok,
    ensures
        preds_of(fs, k) == Ok::<Seq<Seq<char>>, SigmaErrV>(Seq::new(k as nat, |i: int| field_text(fs, i)->Ok_0)),
    decreases k,
{
    if k == 0 {
        assert(Seq::new(0, |i: int| field_text(fs, i)->Ok_0) =~= Seq::<Seq<char>>::empty());
    } else {
        lemma_preds_all_ok(fs, k - 1);
        assert(field_text(fs, k - 1) is Ok);
        let (f, m) = split_key(fs[k - 1].0);
        assert(field_pred(f, m, fs[k - 1].1) == field_text(fs, k - 1));
        assert(Seq::new((k - 1) as nat, |i: int| field_text(fs, i)->Ok_0).push(field_text(fs, k - 1)->Ok_0) =~= Seq::new(
            k as nat,
            |i: int| field_text(fs, i)->Ok_0,
        ));
    }
}

proof fn lemma_preds_some_err(fs: Seq<(Seq<char>, FieldValueV)>, k: int, j: int)
    requires
        0 <= j < k <= fs.len(),
        field_text(fs, j) is Err,
    ensures
        preds_of(fs, k) is Err,
    decreases k,
{
    if j < k - 1 {
        lemma_preds_some_err(fs, k - 1, j);
    }
}

/// A selection of fields compiles to the conjunction of its fields'
/// predicates, in order, in parentheses, when every field's predicate
/// compiles; and to an error when one does not.
pub proof fn law_selection_is_conjunction(name: Seq<char>, fs: Seq<(Seq<char>, FieldValueV)>)
    ensures
        (forall|i: int| 0 <= i < fs.len() ==> #[trigger] field_text(fs, i) is Ok) ==> selection_dsl(
            name,
            SelectionV::Fields(fs),
        ) == Ok::<Seq<char>, SigmaErrV>(
            "("@ + conj(Seq::new(fs.len(), |i: int| field_text(fs, i)->Ok_0)) + ")"@,
        ),
        (exists|i: int| 0 <= i < fs.len() && #[trigger] field_text(fs, i) is Err) ==> selection_dsl(
            name,
            SelectionV::Fields(fs),
        ) is Err,
{
    if forall|i: int| 0 <= i < fs.len() ==> #[trigger] field_text(fs, i) is Ok {
        lemma_preds_all_ok(fs, fs.len() as int);
        lemma_join_and(Seq::new(fs.len(), |i: int| field_text(fs, i)->Ok_0));
    }
    if exists|i: int| 0 <= i < fs.len() && #[trigger] field_text(fs, i) is Err {
        let j = choose|i: int| 0 <= i < fs.len() && #[trigger] field_text(fs, i) is Err;
        lemma_preds_some_err(fs, fs.len() as int, j);
    }
}

/// Splitting `s[..i]` into words and parentheses: the finished tokens and the
/// current word.
pub open spec fn cond_tok_state(s: Seq<char>, i: int) -> (Seq<Seq<char>>, Seq<char>)
    decreases i,
{
    if i <= 0 {
        (Seq::empty(), Seq::empty())
    } else {
        let (toks, cur) = cond_tok_state(s, i - 1);
        let c = s[i - 1];
        let flushed = if cur.len() > 0 {
            toks.push(cur)
        } else {
            toks
        };
        if c == '(' || c == ')' {
            (flushed.push(seq![c]), Seq::empty())
        } else if is_ws(c) {
            (flushed, Seq::empty())
        } else {
            (toks, cur.push(c))
        }
    }
}

/// The words and parentheses of a condition.
pub open spec fn cond_tokens(s: Seq<char>) -> Seq<Seq<char>> {
    let (toks, cur) = cond_tok_state(s, s.len() as int);
    if cur.len() > 0 {
        toks.push(cur)
    } else {
        toks
    }
}

/// The first selection named `name`, at or after `i`.
pub open spec fn find_sel(sels: Seq<(Seq<char>, Seq<char>)>, name: Seq<char>, i: int) -> Option<int>
    decreases sels.len() - i,
{
    if i < 0 || i >= sels.len() {
        None
    } else if sels[i].0 == name {
        Some(i)
    } else {
        find_sel(sels, name, i + 1)
    }
}

/// The DSL text of `toks[..k]`, or the first unknown selection.
pub open spec fn cond_out(toks: Seq<Seq<char>>, sels: Seq<(Seq<char>, Seq<char>)>, k: int) -> Result<Seq<char>, SigmaErrV>
    decreases k,
{
    if k <= 0 {
        Ok(Seq::empty())
    } else {
        match cond_out(toks, sels, k - 1) {
            Err(e) => Err(e),
            Ok(o) => {
                let t = toks[k - 1];
                if t == "and"@ {
                    Ok(o + " AND "@)
                } else if t == "or"@ {
                    Ok(o + " OR "@)
                } else if t == "not"@ {
                    Ok(o + " NOT "@)
                } else if t == "("@ || t == ")"@ {
                    Ok(o + t)
                } else {
                    match find_sel(sels, t, 0) {
                        Some(j) => Ok(o + sels[j].1),
                        None => Err(SigmaErrV::UnknownSelection(t)),
                    }
                }
            },
        }
    }
}

/// The fragments of some selections.
pub open spec fn frags(sels: Seq<(Seq<char>, Seq<char>)>) -> Seq<Seq<char>> {
    sels.map_values(|p: (Seq<char>, Seq<char>)| p.1)
}

/// A Sigma condition as a DSL expression over the selections' fragments.
pub open spec fn condition_dsl(cond: Seq<char>, sels: Seq<(Seq<char>, Seq<char>)>) -> Result<Seq<char>, SigmaErrV> {
    let lower = trim(cond);
    if lower == "all of them"@ {
        Ok(join(frags(sels), " AND "@))
    } else if lower == "1 of them"@ || lower == "any of them"@ {
        Ok("("@ + join(frags(sels), " OR "@) + ")"@)
    } else if contains(lower, "|"@) || contains(lower, " count("@) || contains(lower, " near "@) {
        Err(SigmaErrV::UnsupportedCondition(cond))
    } else {
        let toks = cond_tokens(lower);
        match cond_out(toks, sels, toks.len() as int) {
            Err(e) => Err(e),
            Ok(o) => Ok(trim(o)),
        }
    }
}

/// The entries of `detection[..k]` read: the selections' fragments and the
/// condition (a later `condition` entry replaces an earlier one; one that is
/// not a string clears it), or the first bad selection.
pub open spec fn detection_state(det: Seq<(Seq<char>, SelectionV)>, k: int) -> Result<(Seq<(Seq<char>, Seq<char>)>, Option<Seq<char>>), SigmaErrV>
    decreases k,
{
    if k <= 0 {
        Ok((Seq::empty(), None))
    } else {
        match detection_state(det, k - 1) {
            Err(e) => Err(e),
            Ok((sels, cond)) => {
                let (name, v) = det[k - 1];
                if name == "condition"@ {
                    Ok(
                        (
                            sels,
                            match v {
                                SelectionV::Scalar(SigmaScalar::Str(s)) => Some(s@),
                                _ => None,
                            },
                        ),
                    )
                } else {
                    match selection_dsl(name, v) {
                        Err(e) => Err(e),
                        Ok(f) => Ok((sels.push((name, f)), cond)),
                    }
                }
            },
        }
    }
}

/// The severity a Sigma level maps to.
pub open spec fn severity_of(level: Option<Seq<char>>) -> Seq<char> {
    match level {
        Some(l) => if l == "critical"@ {
            "critical"@
        } else if l == "high"@ {
            "high"@
        } else if l == "low"@ || l == "informational"@ {
            "low"@
        } else {
            "medium"@
        },
        None => "medium"@,
    }
}

/// `s` without every leading copy of `p` (`trim_start_matches`).
pub open spec fn strip_all(s: Seq<char>, p: Seq<char>) -> Seq<char>
    decreases s.len(),
{
    if p.len() > 0 && occurs_at(s, p, 0) {
        strip_all(s.skip(p.len() as int), p)
    } else {
        s
    }
}

/// The first tag at or after `i` that starts with `attack.`.
pub open spec fn first_attack(tags: Seq<Seq<char>>, i: int) -> Option<Seq<char>>
    decreases tags.len() - i,
{
    if i < 0 || i >= tags.len() {
        None
    } else if occurs_at(tags[i], "attack."@, 0) {
        Some(tags[i])
    } else {
        first_attack(tags, i + 1)
    }
}

/// The model of a compiled Sigma rule: what varies between Sigma rules (the
/// rest of the rule is an atomic rule with no class gate).
pub struct SigmaRuleV {
    pub id: Seq<char>,
    pub name: Seq<char>,
    pub severity: Seq<char>,
    pub description: Seq<char>,
    pub mitre: Option<Seq<char>>,
    pub filter: Seq<char>,
}

/// The model of a Sigma document's fields.
pub struct SigmaDocV {
    pub title: Option<Seq<char>>,
    pub id: Option<Seq<char>>,
    pub level: Option<Seq<char>>,
    pub tags: Option<Seq<Seq<char>>>,
    pub detection: Option<Seq<(Seq<char>, SelectionV)>>,
    pub description: Option<Seq<char>>,
}

/// A Sigma document compiled to an atomic rule whose filter is DSL text.
pub open spec fn compile_doc_spec(doc: SigmaDocV) -> Result<SigmaRuleV, SigmaErrV> {
    match doc.detection {
        None => Err(SigmaErrV::NoDetection),
        Some(det) => match detection_state(det, det.len() as int) {
            Err(e) => Err(e),
            Ok((sels, cond)) => match cond {
                None => Err(SigmaErrV::NoCondition),
                Some(c) => match condition_dsl(c, sels) {
                    Err(e) => Err(e),
                    Ok(filter) => Ok(
                        SigmaRuleV {
                            id: match doc.id {
                                Some(i) => i,
                                None => "sigma-"@ + match doc.title {
                                    Some(t) => t,
                                    None => "rule"@,
                                },
                            },
                            name: match doc.title {
                                Some(t) => t,
                                None => "Sigma rule"@,
                            },
                            severity: severity_of(doc.level),
                            description: match doc.description {
                                Some(d) => d,
                                None => Seq::empty(),
                            },
                            mitre: match doc.tags {
                                Some(ts) => match first_attack(ts, 0) {
                                    Some(t) => Some(unicode_upper(strip_all(t, "attack."@))),
                                    None => None,
                                },
                                None => None,
                            },
                            filter,
                        },
                    ),
                },
            },
        },
    }
}

// ---------------------------------------------------------------------------
// Compilation
// ---------------------------------------------------------------------------

/// The model of a field value.
pub open spec fn fv_v(f: SigmaFieldValue) -> FieldValueV {
    match f {
        SigmaFieldValue::One(s) => FieldValueV::One(s),
        SigmaFieldValue::Many(v) => FieldValueV::Many(v@),
    }
}

/// The model of a selection's fields.
pub open spec fn fields_v(v: Seq<(String, SigmaFieldValue)>) -> Seq<(Seq<char>, FieldValueV)> {
    v.map_values(|p: (String, SigmaFieldValue)| (p.0@, fv_v(p.1)))
}

/// The model of a selection.
pub open spec fn sel_v(s: SigmaSelection) -> SelectionV {
    match s {
        SigmaSelection::Fields(v) => SelectionV::Fields(fields_v(v@)),
        SigmaSelection::Scalar(x) => SelectionV::Scalar(x),
        SigmaSelection::Other => SelectionV::Other,
    }
}

/// The model of a detection block.
pub open spec fn det_v(v: Seq<(String, SigmaSelection)>) -> Seq<(Seq<char>, SelectionV)> {
    v.map_values(|p: (String, SigmaSelection)| (p.0@, sel_v(p.1)))
}

/// The view of an optional string.
pub open spec fn os(o: Option<String>) -> Option<Seq<char>> {
    match o {
        Some(s) => Some(s@),
        None => None,
    }
}

/// The model of a Sigma document.
pub open spec fn doc_v(d: SigmaDoc) -> SigmaDocV {
    SigmaDocV {
        title: os(d.title),
        id: os(d.id),
        level: os(d.level),
        tags: match d.tags {
            Some(t) => Some(t@.map_values(|x: String| x@)),
            None => None,
        },
        detection: match d.detection {
            Some(v) => Some(det_v(v@)),
            None => None,
        },
        description: os(d.description),
    }
}

/// `r` is the atomic rule the model `v` describes.
pub open spec fn rule_is(r: Rule, v: SigmaRuleV) -> bool {
    &&& r.id@ == v.id
    &&& r.name@ == v.name
    &&& r.rule_type == RuleType::Atomic
    &&& r.severity@ == v.severity
    &&& r.class is None
    &&& r.description@ == v.description
    &&& os(r.mitre_attack) == v.mitre
    &&& r.filter matches Some(f) && f@ == v.filter
    &&& r.threshold is None
    &&& r.window is None
    &&& r.group_by is None
    &&& r.step_1 is None
    &&& r.step_2 is None
    &&& r.match_on is None
}

fn scalar_text_exec(s: &SigmaScalar) -> (r: Option<String>)
    ensures
        os(r) == scalar_text(*s),
{
    match s {
        SigmaScalar::Str(x) => Some(owned(x.as_str())),
        SigmaScalar::Num(t) => Some(owned(t.as_str())),
        SigmaScalar::Bool(b) => Some(owned(if *b { "true" } else { "false" })),
        SigmaScalar::Other => None,
    }
}

fn esc_exec(v: &mut Vec<char>, s: &str)
    ensures
        final(v)@ == old(v)@ + esc(s@),
{
    let cs = chars_of(s);
    let ghost start = v@;
    let mut i: usize = 0;
    while i < cs.len()
        invariant
            i <= cs@.len(),
            cs@ == s@,
            v@ == start + esc(s@.take(i as int)),
        decreases cs@.len() - i,
    {
        proof {
            assert(s@.take(i + 1).drop_last() =~= s@.take(i as int));
        }
        if cs[i] != '\'' {
            v.push(cs[i]);
        }
        i = i + 1;
        proof {
            assert(v@ =~= start + esc(s@.take(i as int)));
        }
    }
    proof {
        assert(s@.take(i as int) =~= s@);
    }
}

fn append_chars(v: &mut Vec<char>, s: &Vec<char>)
    ensures
        final(v)@ == old(v)@ + s@,
{
    let ghost start = v@;
    let mut i: usize = 0;
    while i < s.len()
        invariant
            i <= s@.len(),
            v@ == start + s@.take(i as int),
        decreases s@.len() - i,
    {
        v.push(s[i]);
        i = i + 1;
        proof {
            assert(v@ =~= start + s@.take(i as int));
        }
    }
    proof {
        assert(s@.take(i as int) =~= s@);
    }
}

fn join_exec(ps: &Vec<Vec<char>>, sep: &str) -> (r: Vec<char>)
    ensures
        r@ == join(cvecs(ps@), sep@),
{
    let ghost pv = cvecs(ps@);
    let mut r: Vec<char> = Vec::new();
    let mut k: usize = 0;
    proof {
        assert(pv.take(0) =~= Seq::<Seq<char>>::empty());
    }
    while k < ps.len()
        invariant
            k <= ps@.len(),
            pv == cvecs(ps@),
            r@ == join(pv.take(k as int), sep@),
        decreases ps@.len() - k,
    {
        let ghost before = r@;
        if k > 0 {
            append(&mut r, sep);
        }
        append_chars(&mut r, &ps[k]);
        proof {
            let t = pv.take(k + 1);
            assert(t.drop_last() =~= pv.take(k as int));
            assert(pv[k as int] == ps@[k as int]@);
            if k == 0 {
                assert(t =~= seq![pv[0]]);
            }
        }
        k = k + 1;
    }
    proof {
        assert(pv.take(k as int) =~= pv);
    }
    r
}

fn field_pred_exec(field: &Vec<char>, modifier: &Option<Vec<char>>, val: &SigmaFieldValue) -> (r: Result<Vec<char>, SigmaError>)
    ensures
        match field_pred(field@, match modifier {
            Some(m) => Some(m@),
            None => None,
        }, fv_v(*val)) {
            Ok(x) => r matches Ok(y) && y@ == x,
            Err(e) => r matches Err(y) && serr_v(y) == e,
        },
{
    let fs = string_from(field);
    match val {
        SigmaFieldValue::Many(items) => {
            let mut vals: Vec<String> = Vec::new();
            let mut k: usize = 0;
            while k < items.len()
                invariant
                    k <= items@.len(),
                    fv_v(*val) == FieldValueV::Many(items@),
                    fs@ == field@,
                    scalar_texts(items@, k as int) == Some(vals@.map_values(|x: String| x@)),
                decreases items@.len() - k,
            {
                match scalar_text_exec(&items[k]) {
                    Some(t) => {
                        let ghost before = vals@;
                        vals.push(t);
                        proof {
                            assert(vals@.map_values(|x: String| x@) =~= before.map_values(|x: String| x@).push(t@));
                        }
                    },
                    None => {
                        proof {
                            lemma_scalar_texts_none(items@, k as int + 1, items@.len() as int);
                        }
                        return Err(SigmaError::UnsupportedValue(fs));
                    },
                }
                k = k + 1;
            }
            let ghost vv = vals@.map_values(|x: String| x@);
            match modifier {
                Some(m) => {
                    let is_contains = crate::oplc::is_lit_pub(m, "contains");
                    if is_contains {
                        let mut parts: Vec<Vec<char>> = Vec::new();
                        let mut j: usize = 0;
                        while j < vals.len()
                            invariant
                                j <= vals@.len(),
                                vv == vals@.map_values(|x: String| x@),
                                cvecs(parts@) == contains_preds(field@, vv.take(j as int)),
                            decreases vals@.len() - j,
                        {
                            let mut p: Vec<char> = Vec::new();
                            append_chars(&mut p, field);
                            append(&mut p, " CONTAINS '");
                            esc_exec(&mut p, vals[j].as_str());
                            append(&mut p, "'");
                            let ghost before = parts@;
                            parts.push(p);
                            proof {
                                assert(vv[j as int] == vals@[j as int]@);
                                assert(cvecs(parts@) =~= cvecs(before).push(p@));
                                assert(contains_preds(field@, vv.take(j + 1)) =~= contains_preds(field@, vv.take(j as int)).push(contains_pred(field@, vv[j as int])));
                            }
                            j = j + 1;
                        }
                        proof {
                            assert(vv.take(j as int) =~= vv);
                        }
                        let mut out: Vec<char> = Vec::new();
                        out.push('(');
                        let joined = join_exec(&parts, " OR ");
                        append_chars(&mut out, &joined);
                        out.push(')');
                        proof {
                            reveal_strlit("(");
                            reveal_strlit(")");
                            assert(out@ =~= "("@ + joined@ + ")"@);
                        }
                        Ok(out)
                    } else {
                        let mut e = slice_chars(field);
                        e.push('|');
                        append_chars(&mut e, m);
                        proof {
                            reveal_strlit("|");
                            assert(e@ =~= field@ + "|"@ + m@);
                        }
                        Err(SigmaError::UnsupportedValue(string_from(&e)))
                    }
                },
                None => {
                    let mut parts: Vec<Vec<char>> = Vec::new();
                    let mut j: usize = 0;
                    while j < vals.len()
                        invariant
                            j <= vals@.len(),
                            vv == vals@.map_values(|x: String| x@),
                            cvecs(parts@) == quoted_all(vv.take(j as int)),
                        decreases vals@.len() - j,
                    {
                        let mut p: Vec<char> = Vec::new();
                        append(&mut p, "'");
                        esc_exec(&mut p, vals[j].as_str());
                        append(&mut p, "'");
                        let ghost before = parts@;
                        parts.push(p);
                        proof {
                            assert(vv[j as int] == vals@[j as int]@);
                            assert(cvecs(parts@) =~= cvecs(before).push(p@));
                            assert(quoted_all(vv.take(j + 1)) =~= quoted_all(vv.take(j as int)).push(quoted(vv[j as int])));
                        }
                        j = j + 1;
                    }
                    proof {
                        assert(vv.take(j as int) =~= vv);
                    }
                    let mut out = slice_chars(field);
                    append(&mut out, " IN [");
                    let joined = join_exec(&parts, ", ");
                    append_chars(&mut out, &joined);
                    append(&mut out, "]");
                    Ok(out)
                },
            }
        },
        SigmaFieldValue::One(sc) => {
            let v = match scalar_text_exec(sc) {
                Some(v) => v,
                None => {
                    return Err(SigmaError::UnsupportedValue(fs));
                },
            };
            let mut q: Vec<char> = Vec::new();
            append(&mut q, "'");
            esc_exec(&mut q, v.as_str());
            append(&mut q, "'");
            match modifier {
                None => {
                    let mut out = slice_chars(field);
                    append(&mut out, " == ");
                    append_chars(&mut out, &q);
                    Ok(out)
                },
                Some(m) => {
                    if crate::oplc::is_lit_pub(m, "contains") {
                        let mut out = slice_chars(field);
                        append(&mut out, " CONTAINS '");
                        esc_exec(&mut out, v.as_str());
                        append(&mut out, "'");
                        Ok(out)
                    } else if crate::oplc::is_lit_pub(m, "re") {
                        let mut out = slice_chars(field);
                        append(&mut out, " =~ ");
                        append_chars(&mut out, &q);
                        Ok(out)
                    } else {
                        let mut e = slice_chars(field);
                        e.push('|');
                        append_chars(&mut e, m);
                        proof {
                            reveal_strlit("|");
                            assert(e@ =~= field@ + "|"@ + m@);
                        }
                        Err(SigmaError::UnsupportedValue(string_from(&e)))
                    }
                },
            }
        },
    }
}

proof fn lemma_scalar_texts_none(items: Seq<SigmaScalar>, k: int, n: int)
    requires
        0 <= k <= n,
        scalar_texts(items, k) is None,
    ensures
        scalar_texts(items, n) is None,
    decreases n - k,
{
    if n > k {
        lemma_scalar_texts_none(items, k, n - 1);
    }
}

fn slice_chars(v: &Vec<char>) -> (r: Vec<char>)
    ensures
        r@ == v@,
{
    let r = crate::text::slice_of(v, 0, v.len());
    proof {
        assert(v@.subrange(0, v@.len() as int) =~= v@);
    }
    r
}

proof fn lemma_preds_err(fs: Seq<(Seq<char>, FieldValueV)>, k: int, n: int)
    requires
        0 <= k <= n,
        preds_of(fs, k) is Err,
    ensures
        preds_of(fs, n) == preds_of(fs, k),
    decreases n - k,
{
    if n > k {
        lemma_preds_err(fs, k, n - 1);
    }
}

fn split_key_exec(raw: &str) -> (r: (Vec<char>, Option<Vec<char>>))
    ensures
        (r.0@, match r.1 {
            Some(m) => Some(m@),
            None => None,
        }) == split_key(raw@),
{
    let rc = chars_of(raw);
    let bar = chars_of("|");
    proof {
        reveal_strlit("|");
        crate::text::lemma_find_from(raw@, "|"@, 0);
    }
    match find_chars(&rc, &bar) {
        Some(i) => {
            proof {
                assert("|"@ =~= seq!['|']);
                assert(i + 1 <= rc@.len());
            }
            let n = rc.len();
            assert(i + 1 <= n);
            (crate::text::slice_of(&rc, 0, i), Some(crate::text::slice_of(&rc, i + 1, n)))
        },
        None => (slice_chars(&rc), None),
    }
}

fn selection_dsl_exec(name: &str, sel: &SigmaSelection) -> (r: Result<String, SigmaError>)
    ensures
        match selection_dsl(name@, sel_v(*sel)) {
            Ok(x) => r matches Ok(y) && y@ == x,
            Err(e) => r matches Err(y) && serr_v(y) == e,
        },
{
    match sel {
        SigmaSelection::Fields(fs) => {
            let ghost fv = fields_v(fs@);
            let mut preds: Vec<Vec<char>> = Vec::new();
            let mut k: usize = 0;
            proof {
                assert(cvecs(preds@) =~= Seq::<Seq<char>>::empty());
            }
            while k < fs.len()
                invariant
                    k <= fs@.len(),
                    fv == fields_v(fs@),
                    sel_v(*sel) == SelectionV::Fields(fv),
                    preds_of(fv, k as int) == Ok::<Seq<Seq<char>>, SigmaErrV>(cvecs(preds@)),
                decreases fs@.len() - k,
            {
                let (f, m) = split_key_exec(fs[k].0.as_str());
                proof {
                    assert(fv[k as int] == (fs@[k as int].0@, fv_v(fs@[k as int].1)));
                }
                match field_pred_exec(&f, &m, &fs[k].1) {
                    Ok(p) => {
                        let ghost before = preds@;
                        preds.push(p);
                        proof {
                            assert(cvecs(preds@) =~= cvecs(before).push(p@));
                        }
                    },
                    Err(e) => {
                        proof {
                            lemma_preds_err(fv, k + 1, fv.len() as int);
                        }
                        return Err(e);
                    },
                }
                k = k + 1;
            }
            let joined = join_exec(&preds, " AND ");
            let mut out: Vec<char> = Vec::new();
            out.push('(');
            append_chars(&mut out, &joined);
            out.push(')');
            proof {
                reveal_strlit("(");
                reveal_strlit(")");
                assert(out@ =~= "("@ + joined@ + ")"@);
            }
            Ok(string_from(&out))
        },
        _ => Err(SigmaError::UnsupportedValue(owned(name))),
    }
}

fn cond_tokens_exec(s: &Vec<char>) -> (r: Vec<Vec<char>>)
    ensures
        cvecs(r@) == cond_tokens(s@),
{
    let mut toks: Vec<Vec<char>> = Vec::new();
    let mut cur: Vec<char> = Vec::new();
    let mut i: usize = 0;
    while i < s.len()
        invariant
            i <= s@.len(),
            (cvecs(toks@), cur@) == cond_tok_state(s@, i as int),
        decreases s@.len() - i,
    {
        let c = s[i];
        if c == '(' || c == ')' || crate::text::is_whitespace(c) {
            if cur.len() > 0 {
                let ghost before = toks@;
                let ghost cc = cur@;
                toks.push(cur);
                proof {
                    assert(cvecs(toks@) =~= cvecs(before).push(cc));
                }
                cur = Vec::new();
            }
            if c == '(' || c == ')' {
                let mut one: Vec<char> = Vec::new();
                one.push(c);
                let ghost before = toks@;
                toks.push(one);
                proof {
                    assert(cvecs(toks@) =~= cvecs(before).push(seq![c]));
                }
            }
        } else {
            cur.push(c);
        }
        i = i + 1;
    }
    if cur.len() > 0 {
        let ghost before = toks@;
        let ghost cc = cur@;
        toks.push(cur);
        proof {
            assert(cvecs(toks@) =~= cvecs(before).push(cc));
        }
    }
    toks
}

/// The views of some `(name, fragment)` pairs.
pub open spec fn sels_v(v: Seq<(String, String)>) -> Seq<(Seq<char>, Seq<char>)> {
    v.map_values(|p: (String, String)| (p.0@, p.1@))
}

proof fn lemma_cond_out_err(toks: Seq<Seq<char>>, sels: Seq<(Seq<char>, Seq<char>)>, k: int, n: int)
    requires
        0 <= k <= n,
        cond_out(toks, sels, k) is Err,
    ensures
        cond_out(toks, sels, n) == cond_out(toks, sels, k),
    decreases n - k,
{
    if n > k {
        lemma_cond_out_err(toks, sels, k, n - 1);
    }
}

fn frags_exec(sels: &Vec<(String, String)>) -> (r: Vec<Vec<char>>)
    ensures
        cvecs(r@) == frags(sels_v(sels@)),
{
    let ghost sv = sels_v(sels@);
    let mut out: Vec<Vec<char>> = Vec::new();
    let mut k: usize = 0;
    while k < sels.len()
        invariant
            k <= sels@.len(),
            sv == sels_v(sels@),
            cvecs(out@) == frags(sv.take(k as int)),
        decreases sels@.len() - k,
    {
        let f = chars_of(sels[k].1.as_str());
        let ghost before = out@;
        out.push(f);
        proof {
            assert(cvecs(out@) =~= cvecs(before).push(f@));
            assert(frags(sv.take(k + 1)) =~= frags(sv.take(k as int)).push(sv[k as int].1));
        }
        k = k + 1;
    }
    proof {
        assert(sv.take(k as int) =~= sv);
    }
    out
}

fn find_sel_exec(sels: &Vec<(String, String)>, name: &str) -> (r: Option<usize>)
    ensures
        r matches Some(x) ==> find_sel(sels_v(sels@), name@, 0) == Some(x as int) && x < sels@.len(),
        r is None ==> find_sel(sels_v(sels@), name@, 0) is None,
{
    let ghost sv = sels_v(sels@);
    let mut j: usize = 0;
    while j < sels.len()
        invariant
            j <= sels@.len(),
            sv == sels_v(sels@),
            find_sel(sv, name@, 0) == find_sel(sv, name@, j as int),
        decreases sels@.len() - j,
    {
        proof {
            assert(sv[j as int] == (sels@[j as int].0@, sels@[j as int].1@));
        }
        if str_eq(sels[j].0.as_str(), name) {
            return Some(j);
        }
        j = j + 1;
    }
    None
}

fn condition_dsl_exec(cond: &str, sels: &Vec<(String, String)>) -> (r: Result<String, SigmaError>)
    ensures
        match condition_dsl(cond@, sels_v(sels@)) {
            Ok(x) => r matches Ok(y) && y@ == x,
            Err(e) => r matches Err(y) && serr_v(y) == e,
        },
{
    let ghost sv = sels_v(sels@);
    let lower = trim_chars(&chars_of(cond));
    let ls = string_from(&lower);
    if str_eq(ls.as_str(), "all of them") {
        let fr = frags_exec(sels);
        let j = join_exec(&fr, " AND ");
        return Ok(string_from(&j));
    }
    if str_eq(ls.as_str(), "1 of them") || str_eq(ls.as_str(), "any of them") {
        let fr = frags_exec(sels);
        let j = join_exec(&fr, " OR ");
        let mut out: Vec<char> = Vec::new();
        out.push('(');
        append_chars(&mut out, &j);
        out.push(')');
        proof {
            reveal_strlit("(");
            reveal_strlit(")");
            assert(out@ =~= "("@ + j@ + ")"@);
        }
        return Ok(string_from(&out));
    }
    if contains_chars(&lower, &chars_of("|")) || contains_chars(&lower, &chars_of(" count(")) || contains_chars(&lower, &chars_of(" near ")) {
        return Err(SigmaError::UnsupportedCondition(owned(cond)));
    }
    let toks = cond_tokens_exec(&lower);
    let ghost tv = cvecs(toks@);
    let mut out: Vec<char> = Vec::new();
    let mut k: usize = 0;
    while k < toks.len()
        invariant
            k <= toks@.len(),
            tv == cvecs(toks@),
            sv == sels_v(sels@),
            condition_dsl(cond@, sv) == match cond_out(tv, sv, tv.len() as int) {
                Err(e) => Err(e),
                Ok(o) => Ok::<Seq<char>, SigmaErrV>(trim(o)),
            },
            cond_out(tv, sv, k as int) == Ok::<Seq<char>, SigmaErrV>(out@),
        decreases toks@.len() - k,
    {
        let t = &toks[k];
        proof {
            assert(tv[k as int] == t@);
        }
        let ghost o = out@;
        if crate::oplc::is_lit_pub(t, "and") {
            append(&mut out, " AND ");
            assert(cond_out(tv, sv, k + 1) == Ok::<Seq<char>, SigmaErrV>(out@));
        } else if crate::oplc::is_lit_pub(t, "or") {
            append(&mut out, " OR ");
        } else if crate::oplc::is_lit_pub(t, "not") {
            append(&mut out, " NOT ");
        } else if crate::oplc::is_lit_pub(t, "(") || crate::oplc::is_lit_pub(t, ")") {
            append_chars(&mut out, t);
        } else {
            let name = string_from(t);
            let found = find_sel_exec(sels, name.as_str());
            let j = match found {
                Some(j) => {
                    assert(find_sel(sels_v(sels@), name@, 0) == Some(j as int));
                    j
                },
                None => {
                    proof {
                        assert(name@ == tv[k as int]);
                        assert(find_sel(sv, tv[k as int], 0) is None);
                        assert(cond_out(tv, sv, k + 1) == Err::<Seq<char>, SigmaErrV>(SigmaErrV::UnknownSelection(name@)));
                        lemma_cond_out_err(tv, sv, k + 1, tv.len() as int);
                    }
                    return Err(SigmaError::UnknownSelection(name));
                },
            };
            proof {
                assert(name@ == t@);
                assert(name@ == tv[k as int]);
                assert(sv[j as int] == (sels@[j as int].0@, sels@[j as int].1@));
                assert(tv[k as int] != "and"@);
                assert(tv[k as int] != "or"@);
                assert(tv[k as int] != "not"@);
                assert(tv[k as int] != "("@ && tv[k as int] != ")"@);
                assert(find_sel(sv, tv[k as int], 0) == Some(j as int));
            }
            append(&mut out, sels[j].1.as_str());
            assert(cond_out(tv, sv, k + 1) == Ok::<Seq<char>, SigmaErrV>(out@));
        }
        k = k + 1;
    }
    let res = trim_chars(&out);
    Ok(string_from(&res))
}

proof fn lemma_det_err(det: Seq<(Seq<char>, SelectionV)>, k: int, n: int)
    requires
        0 <= k <= n,
        detection_state(det, k) is Err,
    ensures
        detection_state(det, n) == detection_state(det, k),
    decreases n - k,
{
    if n > k {
        lemma_det_err(det, k, n - 1);
    }
}

fn severity_exec(level: &Option<String>) -> (r: String)
    ensures
        r@ == severity_of(os(*level)),
{
    match level {
        Some(l) => {
            let ls = l.as_str();
            if str_eq(ls, "critical") {
                owned("critical")
            } else if str_eq(ls, "high") {
                owned("high")
            } else if str_eq(ls, "low") || str_eq(ls, "informational") {
                owned("low")
            } else {
                owned("medium")
            }
        },
        None => owned("medium"),
    }
}

fn strip_all_exec(s: &str, p: &str) -> (r: String)
    requires
        p@.len() > 0,
    ensures
        r@ == strip_all(s@, p@),
{
    let sc = chars_of(s);
    let pc = chars_of(p);
    let mut i: usize = 0;
    let n = sc.len();
    proof {
        assert(sc@.skip(0) =~= sc@);
    }
    while crate::text::matches_at(&sc, &pc, i)
        invariant
            n == sc@.len(),
            i <= sc@.len(),
            pc@ == p@,
            p@.len() > 0,
            strip_all(s@, p@) == strip_all(sc@.skip(i as int), p@),
            sc@ == s@,
        decreases sc@.len() - i,
    {
        proof {
            assert(i + pc@.len() <= sc@.len());
            assert(sc@.skip(i as int).subrange(0, p@.len() as int) =~= sc@.subrange(i as int, i + p@.len()));
            assert(occurs_at(sc@.skip(i as int), p@, 0));
            assert(sc@.skip(i as int).skip(p@.len() as int) =~= sc@.skip(i + p@.len()));
        }
        i = i + pc.len();
    }
    proof {
        if occurs_at(sc@.skip(i as int), p@, 0) {
            assert(sc@.skip(i as int).subrange(0, p@.len() as int) =~= sc@.subrange(i as int, i + p@.len()));
        }
    }
    let t = crate::text::slice_of(&sc, i, sc.len());
    proof {
        assert(t@ =~= sc@.skip(i as int));
    }
    string_from(&t)
}

fn attack_tag(ts: &Vec<String>) -> (r: Option<String>)
    ensures
        os(r) == match first_attack(ts@.map_values(|x: String| x@), 0) {
            Some(t) => Some(unicode_upper(strip_all(t, "attack."@))),
            None => None,
        },
{
    let ghost tv = ts@.map_values(|x: String| x@);
    let pre = chars_of("attack.");
    proof {
        reveal_strlit("attack.");
    }
    let mut i: usize = 0;
    while i < ts.len()
        invariant
            i <= ts@.len(),
            tv == ts@.map_values(|x: String| x@),
            pre@ == "attack."@,
            "attack."@.len() == 7,
            first_attack(tv, 0) == first_attack(tv, i as int),
        decreases ts@.len() - i,
    {
        let tc = chars_of(ts[i].as_str());
        proof {
            assert(tv[i as int] == ts@[i as int]@);
        }
        if crate::text::starts_with(&tc, &pre) {
            let st = strip_all_exec(ts[i].as_str(), "attack.");
            return Some(to_uppercase(st.as_str()));
        }
        i = i + 1;
    }
    None
}

fn mitre_exec(tags: &Option<Vec<String>>) -> (r: Option<String>)
    ensures
        os(r) == match tags {
            Some(ts) => match first_attack(ts@.map_values(|x: String| x@), 0) {
                Some(t) => Some(unicode_upper(strip_all(t, "attack."@))),
                None => None,
            },
            None => None,
        },
{
    match tags {
        None => None,
        Some(ts) => attack_tag(ts),
    }
}

/// Compile a Sigma document into an atomic LogHound [`Rule`] whose `filter`
/// is DSL text, ready for the engine to parse.
pub fn compile_sigma_doc(doc: &SigmaDoc) -> (r: Result<Rule, SigmaError>)
    ensures
        match compile_doc_spec(doc_v(*doc)) {
            Ok(v) => r matches Ok(rule) && rule_is(rule, v),
            Err(e) => r matches Err(x) && serr_v(x) == e,
        },
{
    let det = match &doc.detection {
        Some(d) => d,
        None => {
            return Err(SigmaError::NoDetection);
        },
    };
    let ghost dv = det_v(det@);
    let mut sels: Vec<(String, String)> = Vec::new();
    let mut cond: Option<String> = None;
    let mut k: usize = 0;
    proof {
        assert(sels_v(sels@) =~= Seq::<(Seq<char>, Seq<char>)>::empty());
    }
    while k < det.len()
        invariant
            k <= det@.len(),
            dv == det_v(det@),
            doc_v(*doc).detection == Some(dv),
            detection_state(dv, k as int) == Ok::<(Seq<(Seq<char>, Seq<char>)>, Option<Seq<char>>), SigmaErrV>(
                (sels_v(sels@), os(cond)),
            ),
        decreases det@.len() - k,
    {
        let name = &det[k].0;
        let v = &det[k].1;
        proof {
            assert(dv[k as int] == (name@, sel_v(*v)));
        }
        if str_eq(name.as_str(), "condition") {
            cond = match v {
                SigmaSelection::Scalar(SigmaScalar::Str(s)) => Some(owned(s.as_str())),
                _ => None,
            };
        } else {
            match selection_dsl_exec(name.as_str(), v) {
                Ok(f) => {
                    let ghost before = sels@;
                    sels.push((owned(name.as_str()), f));
                    proof {
                        assert(sels_v(sels@) =~= sels_v(before).push((name@, f@)));
                    }
                },
                Err(e) => {
                    proof {
                        lemma_det_err(dv, k + 1, dv.len() as int);
                    }
                    return Err(e);
                },
            }
        }
        k = k + 1;
    }
    let c = match cond {
        Some(c) => c,
        None => {
            return Err(SigmaError::NoCondition);
        },
    };
    let filter = match condition_dsl_exec(c.as_str(), &sels) {
        Ok(f) => f,
        Err(e) => {
            return Err(e);
        },
    };
    let id = match &doc.id {
        Some(i) => owned(i.as_str()),
        None => match &doc.title {
            Some(t) => crate::text::concat("sigma-", t.as_str()),
            None => owned("sigma-rule"),
        },
    };
    proof {
        reveal_strlit("sigma-rule");
        reveal_strlit("sigma-");
        reveal_strlit("rule");
        assert("sigma-rule"@ =~= "sigma-"@ + "rule"@);
    }
    let name = match &doc.title {
        Some(t) => owned(t.as_str()),
        None => owned("Sigma rule"),
    };
    let description = match &doc.description {
        Some(d) => owned(d.as_str()),
        None => String::new(),
    };
    Ok(Rule {
        id,
        name,
        rule_type: RuleType::Atomic,
        severity: severity_exec(&doc.level),
        class: None,
        description,
        mitre_attack: mitre_exec(&doc.tags),
        filter: Some(filter),
        threshold: None,
        window: None,
        group_by: None,
        step_1: None,
        step_2: None,
        match_on: None,
    })
}

} // verus!
