//! The [`Parser`] trait, the OPLC parser, and the streaming helper.
//!
//! Parsers are line-oriented: the OPLC SIEM emits one record per line. Each
//! parser sniffs a sample to report [`Confidence`], then decodes lines into
//! [`RawRecord`]s, yielding a `Result` per line so a single malformed record
//! never aborts the stream.

use vstd::prelude::*;

use crate::oplc::{parse_line_spec, parse_oplc_line, rec_result_is, split_state, ErrV, RecV};
use crate::record::{ParseError, RawRecord};
use crate::text::{chars_of, concat, contains, contains_chars, slice_of, string_from, trim, trim_chars};

verus! {

/// How confident a parser is that it can handle an input sample.
#[derive(Debug, Clone, Copy, PartialEq, Eq, Structural)]
pub enum Confidence {
    /// Definitely not this format.
    No,
    /// Possibly this format; higher scores win ties during auto-detection.
    Maybe(u8),
    /// Definitely this format.
    Yes,
}

/// A pluggable log parser.
pub trait Parser {
    /// What decoding `line` (numbered `line_no`) gives.
    spec fn line_spec(&self, line: Seq<char>, line_no: usize) -> Result<RecV, ErrV>;

    /// Stable identifier (used in logs and the plugin registry).
    fn id(&self) -> &'static str;

    /// Sniff a leading sample of the input to decide if this parser applies.
    fn can_parse(&self, sample: &str) -> Confidence;

    /// Decode a single (non-empty) line into a record.
    fn parse_line(&self, line: &str, line_no: usize) -> (r: Result<RawRecord, ParseError>)
        ensures
            rec_result_is(r, self.line_spec(line@, line_no)),
    ;
}

/// Parser for the OPLC SIEM envelope carrying all four log types.
#[derive(Debug, Default, Clone, Copy)]
pub struct OplcParser;

/// How confident the OPLC parser is about a sample: certain with the `OPLC-`
/// tag and a `" #"` separator, half-sure with the tag alone.
pub open spec fn oplc_confidence(sample: Seq<char>) -> Confidence {
    if contains(sample, "OPLC-"@) && contains(sample, " #"@) {
        Confidence::Yes
    } else if contains(sample, "OPLC-"@) {
        Confidence::Maybe(50)
    } else {
        Confidence::No
    }
}

impl OplcParser {
    /// The OPLC parser.
    pub fn new() -> (p: OplcParser) {
        OplcParser
    }
}

impl Parser for OplcParser {
    open spec fn line_spec(&self, line: Seq<char>, line_no: usize) -> Result<RecV, ErrV> {
        parse_line_spec(line, line_no)
    }

    fn id(&self) -> (s: &'static str)
        ensures
            s@ == "oplc"@,
    {
        "oplc"
    }

    fn can_parse(&self, sample: &str) -> (c: Confidence)
        ensures
            c == oplc_confidence(sample@),
    {
        let sc = chars_of(sample);
        let tag = chars_of("OPLC-");
        let sep = chars_of(" #");
        let has_tag = contains_chars(&sc, &tag);
        if has_tag && contains_chars(&sc, &sep) {
            Confidence::Yes
        } else if has_tag {
            Confidence::Maybe(50)
        } else {
            Confidence::No
        }
    }

    fn parse_line(&self, line: &str, line_no: usize) -> (r: Result<RawRecord, ParseError>) {
        parse_oplc_line(line, line_no)
    }
}

/// A line without the `\r` of a CRLF ending.
pub open spec fn strip_cr(p: Seq<char>) -> Seq<char> {
    if p.len() > 0 && p.last() == '\r' {
        p.drop_last()
    } else {
        p
    }
}

/// The lines of a text as `BufRead::lines` yields them: split at `\n`, each
/// terminated line without its `\r\n` or `\n`, and a last unterminated line
/// when it is not empty.
pub open spec fn text_lines(t: Seq<char>) -> Seq<Seq<char>> {
    let (acc, cur) = split_state(t, '\n', t.len() as int);
    let done = acc.map_values(|p: Seq<char>| strip_cr(p));
    if cur.len() > 0 {
        done.push(cur)
    } else {
        done
    }
}

/// The non-blank lines among `ls[..k]`, each with its 1-based number.
pub open spec fn numbered_lines(ls: Seq<Seq<char>>, k: int) -> Seq<(Seq<char>, int)>
    decreases k,
{
    if k <= 0 {
        Seq::empty()
    } else {
        let prev = numbered_lines(ls, k - 1);
        if trim(ls[k - 1]).len() == 0 {
            prev
        } else {
            prev.push((ls[k - 1], k))
        }
    }
}

fn text_lines_exec(text: &str) -> (r: Vec<Vec<char>>)
    ensures
        crate::oplc::cvecs(r@) == text_lines(text@),
{
    let t = chars_of(text);
    let mut acc: Vec<Vec<char>> = Vec::new();
    let mut cur: Vec<char> = Vec::new();
    let mut i: usize = 0;
    while i < t.len()
        invariant
            i <= t@.len(),
            t@ == text@,
            ({
                let (a, c) = split_state(text@, '\n', i as int);
                crate::oplc::cvecs(acc@) == a.map_values(|p: Seq<char>| strip_cr(p)) && cur@ == c
            }),
        decreases t@.len() - i,
    {
        if t[i] == '\n' {
            let n = cur.len();
            let line = if n > 0 && cur[n - 1] == '\r' {
                slice_of(&cur, 0, n - 1)
            } else {
                slice_of(&cur, 0, n)
            };
            proof {
                assert(cur@.subrange(0, n as int) =~= cur@);
                if n > 0 {
                    assert(cur@.subrange(0, n - 1) =~= cur@.drop_last());
                }
            }
            let ghost before = acc@;
            let ghost c = cur@;
            acc.push(line);
            proof {
                let (a, cc) = split_state(text@, '\n', i as int);
                assert(crate::oplc::cvecs(acc@) =~= crate::oplc::cvecs(before).push(strip_cr(c)));
                assert(a.push(cc).map_values(|p: Seq<char>| strip_cr(p)) =~= a.map_values(|p: Seq<char>| strip_cr(p)).push(strip_cr(cc)));
            }
            cur = Vec::new();
        } else {
            cur.push(t[i]);
        }
        i = i + 1;
    }
    if cur.len() > 0 {
        let ghost before = acc@;
        let ghost c = cur@;
        acc.push(cur);
        proof {
            assert(crate::oplc::cvecs(acc@) =~= crate::oplc::cvecs(before).push(c));
        }
    }
    acc
}

/// Convenience: parse all records from an in-memory string, skipping blank
/// lines; each result carries its 1-based line number.
pub fn parse_str<P: Parser>(parser: &P, text: &str) -> (r: Vec<Result<RawRecord, ParseError>>)
    ensures
        ({
            let nl = numbered_lines(text_lines(text@), text_lines(text@).len() as int);
            r@.len() == nl.len() && forall|i: int|
                0 <= i < nl.len() ==> rec_result_is(#[trigger] r@[i], parser.line_spec(nl[i].0, nl[i].1 as usize))
        }),
{
    let lines = text_lines_exec(text);
    let ghost ls = crate::oplc::cvecs(lines@);
    let mut out: Vec<Result<RawRecord, ParseError>> = Vec::new();
    let mut k: usize = 0;
    while k < lines.len()
        invariant
            k <= lines@.len(),
            ls == crate::oplc::cvecs(lines@),
            ls == text_lines(text@),
            ({
                let nl = numbered_lines(ls, k as int);
                out@.len() == nl.len() && forall|i: int|
                    0 <= i < nl.len() ==> rec_result_is(#[trigger] out@[i], parser.line_spec(nl[i].0, nl[i].1 as usize))
            }),
        decreases lines@.len() - k,
    {
        let t = trim_chars(&lines[k]);
        proof {
            assert(ls[k as int] == lines@[k as int]@);
        }
        if t.len() > 0 {
            let s = string_from(&lines[k]);
            let res = parser.parse_line(s.as_str(), k + 1);
            let ghost before = out@;
            out.push(res);
            proof {
                let nl = numbered_lines(ls, k + 1);
                assert forall|i: int| 0 <= i < nl.len() implies rec_result_is(#[trigger] out@[i], parser.line_spec(nl[i].0, nl[i].1 as usize)) by {
                    if i < nl.len() - 1 {
                        assert(out@[i] == before[i]);
                    }
                }
            }
        }
        k = k + 1;
    }
    out
}

/// The lines among `ls[..k]` that yield a result, each with its 1-based
/// number: every line that could not be read, and every read line that is not
/// blank.
pub open spec fn numbered_reads(ls: Seq<Result<Seq<char>, Seq<char>>>, k: int) -> Seq<(Result<Seq<char>, Seq<char>>, int)>
    decreases k,
{
    if k <= 0 {
        Seq::empty()
    } else {
        let prev = numbered_reads(ls, k - 1);
        match ls[k - 1] {
            Ok(l) => if trim(l).len() == 0 {
                prev
            } else {
                prev.push((ls[k - 1], k))
            },
            Err(_) => prev.push((ls[k - 1], k)),
        }
    }
}

/// The views of lines as a reader gave them: a line's text, or the message
/// of the error that kept it from being read.
pub open spec fn reads_view(ls: Seq<Result<String, String>>) -> Seq<Result<Seq<char>, Seq<char>>> {
    ls.map_values(|r: Result<String, String>| match r {
        Ok(l) => Ok(l@),
        Err(m) => Err(m@),
    })
}

/// What the line numbered `n` gives: a parsed record or parse error, or, for
/// a line that could not be read, an envelope error quoting the read error.
pub open spec fn read_result_is<P: Parser>(
    parser: &P,
    r: Result<RawRecord, ParseError>,
    item: (Result<Seq<char>, Seq<char>>, int),
) -> bool {
    match item.0 {
        Ok(l) => rec_result_is(r, parser.line_spec(l, item.1 as usize)),
        Err(m) => r matches Err(ParseError::Envelope { line, reason }) && line == item.1 && reason@ == "read error: "@ + m,
    }
}

/// Parse the lines a reader yielded (each a line's text, or the message of
/// the error that kept it from being read), skipping blank lines; each result
/// carries its 1-based line number, and an unreadable line becomes an
/// envelope error.
pub fn parse_lines<P: Parser>(parser: &P, lines: &Vec<Result<String, String>>) -> (r: Vec<Result<RawRecord, ParseError>>)
    ensures
        ({
            let nr = numbered_reads(reads_view(lines@), lines@.len() as int);
            r@.len() == nr.len() && forall|i: int| 0 <= i < nr.len() ==> read_result_is(parser, #[trigger] r@[i], nr[i])
        }),
{
    let ghost ls = reads_view(lines@);
    let mut out: Vec<Result<RawRecord, ParseError>> = Vec::new();
    let mut k: usize = 0;
    while k < lines.len()
        invariant
            k <= lines@.len(),
            ls == reads_view(lines@),
            ({
                let nr = numbered_reads(ls, k as int);
                out@.len() == nr.len() && forall|i: int| 0 <= i < nr.len() ==> read_result_is(parser, #[trigger] out@[i], nr[i])
            }),
        decreases lines@.len() - k,
    {
        proof {
            assert(ls[k as int] == match lines@[k as int] {
                Ok(l) => Ok::<Seq<char>, Seq<char>>(l@),
                Err(m) => Err::<Seq<char>, Seq<char>>(m@),
            });
        }
        let ghost before = out@;
        match &lines[k] {
            Ok(l) => {
                let t = trim_chars(&chars_of(l.as_str()));
                if t.len() > 0 {
                    let res = parser.parse_line(l.as_str(), k + 1);
                    out.push(res);
                }
            },
            Err(m) => {
                let reason = concat("read error: ", m.as_str());
                out.push(Err(ParseError::Envelope { line: k + 1, reason }));
            },
        }
        proof {
            let nr = numbered_reads(ls, k + 1);
            assert forall|i: int| 0 <= i < nr.len() implies read_result_is(parser, #[trigger] out@[i], nr[i]) by {
                if i < numbered_reads(ls, k as int).len() {
                    assert(out@[i] == before[i]);
                }
            }
        }
        k = k + 1;
    }
    out
}

} // verus!
