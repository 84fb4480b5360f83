//! The OPLC SIEM parser: one envelope decoder + four logset decoders.
//!
//! Wire format:
//! ```text
//! OPLC-<tenant>,<collector_ts_ms>,<src_ip> #<generated_ts_s>,<hostname>,<src_ip>,<logset>,<payload…>
//! ```
//! The line is split on `" #"`; the `<logset>` letter (`E`/`N`/`P`/`I`) selects
//! the decoder. Parsing is *positional from the logset marker*, which survives
//! the Process type's extra leading `agent_version` field.

use vstd::prelude::*;

use std::borrow::Cow;

use quick_xml::events::BytesStart;
use quick_xml::events::Event::{CData, Comment, DocType, Decl, Empty, End, Eof, Start, Text, PI};
use quick_xml::reader::Reader;

use crate::num::{dec_int, u64_to_string};
use crate::record::{put_spec, ParseError, RawRecord, RecordKind};
use crate::strmap::StrMap;
use crate::text::{occurs_at, chars_of, contains, contains_chars, find, find_chars, lemma_find_from, owned, slice_of, string_from, trim, trim_chars};
use crate::time::Timestamp;
use crate::timestamp::{epoch_int, epoch_seconds_spec, iso8601_spec, parse_epoch_millis, parse_epoch_seconds, parse_iso8601, ts_of};

verus! {

// ---------------------------------------------------------------------------
// XML tokens
// ---------------------------------------------------------------------------

/// One attribute of an XML start tag: its qualified key, its local key, and
/// its unescaped value (or why unescaping failed).
pub struct XmlAttr {
    pub key: String,
    pub local: String,
    pub value: Result<String, String>,
}

/// One XML event, reduced to what field extraction reads. Names are local
/// names; a failed attribute or text carries the error's message.
pub enum XmlTok {
    Start(String, Vec<Result<XmlAttr, String>>),
    Empty(String, Vec<Result<XmlAttr, String>>),
    Text(Result<String, String>),
    End(String),
    /// The end of the input; nothing follows.
    Eof,
    /// A declaration, comment, CDATA section, processing instruction or doctype.
    Other,
    /// The reader failed; nothing follows.
    Fail(String),
}

/// The model of an attribute.
pub struct XmlAttrV {
    pub key: Seq<char>,
    pub local: Seq<char>,
    pub value: Result<Seq<char>, Seq<char>>,
}

/// The model of an XML event.
pub enum XmlTokV {
    Start(Seq<char>, Seq<Result<XmlAttrV, Seq<char>>>),
    Empty(Seq<char>, Seq<Result<XmlAttrV, Seq<char>>>),
    Text(Result<Seq<char>, Seq<char>>),
    End(Seq<char>),
    Eof,
    Other,
    Fail(Seq<char>),
}

/// The view of a string result.
pub open spec fn sres(r: Result<String, String>) -> Result<Seq<char>, Seq<char>> {
    match r {
        Ok(s) => Ok(s@),
        Err(m) => Err(m@),
    }
}

/// The model of an attribute result.
pub open spec fn attr_v(a: Result<XmlAttr, String>) -> Result<XmlAttrV, Seq<char>> {
    match a {
        Ok(x) => Ok(XmlAttrV { key: x.key@, local: x.local@, value: sres(x.value) }),
        Err(m) => Err(m@),
    }
}

/// The models of some attribute results.
pub open spec fn attrs_v(s: Seq<Result<XmlAttr, String>>) -> Seq<Result<XmlAttrV, Seq<char>>> {
    s.map_values(|a: Result<XmlAttr, String>| attr_v(a))
}

/// The model of an XML event.
pub open spec fn xml_tok_v(t: XmlTok) -> XmlTokV {
    match t {
        XmlTok::Start(n, a) => XmlTokV::Start(n@, attrs_v(a@)),
        XmlTok::Empty(n, a) => XmlTokV::Empty(n@, attrs_v(a@)),
        XmlTok::Text(r) => XmlTokV::Text(sres(r)),
        XmlTok::End(n) => XmlTokV::End(n@),
        XmlTok::Eof => XmlTokV::Eof,
        XmlTok::Other => XmlTokV::Other,
        XmlTok::Fail(m) => XmlTokV::Fail(m@),
    }
}

/// The models of some XML events.
pub open spec fn xml_toks_v(s: Seq<XmlTok>) -> Seq<XmlTokV> {
    s.map_values(|t: XmlTok| xml_tok_v(t))
}

/// The event ends the stream: the end of input or a failure.
pub open spec fn tok_ends(t: XmlTokV) -> bool {
    t is Eof || t is Fail
}

/// A finite event stream whose last event, and no other, ends it.
pub open spec fn ends_once(s: Seq<XmlTokV>) -> bool {
    &&& s.len() > 0
    &&& tok_ends(s.last())
    &&& forall|i: int| 0 <= i < s.len() - 1 ==> !tok_ends(#[trigger] s[i])
}

/// The local part of a qualified name: what follows its first `:`, or the
/// whole name (`quick_xml::name::QName::local_name`).
pub open spec fn local_part(q: Seq<char>) -> Seq<char> {
    match find(q, seq![':']) {
        Some(i) => q.skip(i + 1),
        None => q,
    }
}

/// One event as [`xml_read`] hands it over: a start or empty tag as its
/// qualified name and its whole content (the name, then the attributes, as
/// the tag holds them); text as it stands in the input; an end tag's
/// qualified name.
pub enum XmlRaw {
    Start(String, String),
    Empty(String, String),
    Text(String),
    End(String),
    Eof,
    Other,
    Fail(String),
}

/// The model of a handed-over event: names are local, text is unescaped
/// ([`xml_unescape`]), a tag's attributes are those that [`xml_attrs`] reads
/// from its content.
pub open spec fn raw_v(t: XmlRaw) -> XmlTokV {
    match t {
        XmlRaw::Start(q, c) => XmlTokV::Start(local_part(q@), xml_attr_list(q@, c@)),
        XmlRaw::Empty(q, c) => XmlTokV::Empty(local_part(q@), xml_attr_list(q@, c@)),
        XmlRaw::Text(x) => XmlTokV::Text(xml_unescaped(x@)),
        XmlRaw::End(q) => XmlTokV::End(local_part(q@)),
        XmlRaw::Eof => XmlTokV::Eof,
        XmlRaw::Other => XmlTokV::Other,
        XmlRaw::Fail(m) => XmlTokV::Fail(m@),
    }
}

/// A tag's content begins with its qualified name.
pub open spec fn tag_fits(t: XmlRaw) -> bool {
    match t {
        XmlRaw::Start(q, c) => q@.is_prefix_of(c@),
        XmlRaw::Empty(q, c) => q@.is_prefix_of(c@),
        _ => true,
    }
}

#[verifier::external_type_specification]
#[verifier::external_body]
#[verifier::reject_recursive_types(R)]
pub struct ExXmlReader<R>(Reader<R>);

/// The events that `quick_xml::reader::Reader::read_event` yields on a
/// string, one per call, up to and including the first `Eof` or error.
pub uninterp spec fn xml_tokens(xml: Seq<char>) -> Seq<XmlTokV>;

/// The events that a reader still holds: what its next calls of `read_event`
/// yield, up to and including the first `Eof` or error.
pub uninterp spec fn xml_pending(rd: Reader<&[u8]>) -> Seq<XmlTokV>;

/// The attributes of the tag with this qualified name and content, as
/// `BytesStart::attributes` yields them, each reduced to an [`XmlAttr`].
pub uninterp spec fn xml_attr_list(qname: Seq<char>, content: Seq<char>) -> Seq<Result<XmlAttrV, Seq<char>>>;

/// What `quick_xml::escape::unescape` makes of a text: the text with its
/// entity and character references replaced, or the error's message.
pub uninterp spec fn xml_unescaped(raw: Seq<char>) -> Result<Seq<char>, Seq<char>>;

/// `quick_xml::reader::Reader::from_str`: a reader that holds the event
/// stream of `xml`. The stream is a function of the text alone; it is finite
/// and ends with its first `Eof` or error (the reader consumes input on every
/// other event). quick_xml's grammar is not restated here.
#[verifier::external_body]
fn xml_reader<'a>(xml: &'a str) -> (rd: Reader<&'a [u8]>)
    ensures
        xml_pending(rd) == xml_tokens(xml@),
        ends_once(xml_pending(rd)),
{
    Reader::from_str(xml)
}

/// `Reader::read_event`: the next event of the stream, which the reader then
/// no longer holds. Tag names are qualified names (`BytesStart::name`,
/// `BytesEnd::name`), a tag's content is all its bytes, text is its bytes,
/// an error is its message; each of these is a slice of the UTF-8 input cut
/// at ASCII delimiters, so the conversion to a string loses nothing.
#[verifier::external_body]
fn xml_read(rd: &mut Reader<&[u8]>) -> (t: XmlRaw)
    requires
        xml_pending(*old(rd)).len() > 0,
    ensures
        raw_v(t) == xml_pending(*old(rd))[0],
        xml_pending(*final(rd)) == xml_pending(*old(rd)).drop_first(),
        tag_fits(t),
{
    let text = |b: &[u8]| String::from_utf8_lossy(b).into_owned();
    match rd.read_event() {
        Ok(Start(e)) => XmlRaw::Start(text(e.name().as_ref()), text(&e)),
        Ok(Empty(e)) => XmlRaw::Empty(text(e.name().as_ref()), text(&e)),
        Ok(Text(e)) => XmlRaw::Text(text(&e)),
        Ok(End(e)) => XmlRaw::End(text(e.name().as_ref())),
        Ok(Eof) => XmlRaw::Eof,
        Ok(CData(_) | Comment(_) | Decl(_) | PI(_) | DocType(_)) => XmlRaw::Other,
        Err(e) => XmlRaw::Fail(e.to_string()),
    }
}

/// `BytesStart::from_content(content, qname.len()).attributes()`, collected:
/// each attribute's qualified key, its local key (`QName::local_name`) and
/// its unescaped value (`Attribute::unescape_value`), errors as messages. A
/// tag rebuilt from the name and content that the reader handed over is the
/// tag it read, so these are that tag's attributes.
#[verifier::external_body]
fn xml_attrs(qname: &str, content: &str) -> (r: Vec<Result<XmlAttr, String>>)
    requires
        qname@.is_prefix_of(content@),
    ensures
        attrs_v(r@) == xml_attr_list(qname@, content@),
{
    let text = |b: &[u8]| String::from_utf8_lossy(b).into_owned();
    let e = BytesStart::from_content(content, qname.len());
    e.attributes().map(|a| a.map(|a| XmlAttr { key: text(a.key.as_ref()), local: text(a.key.local_name().as_ref()), value: a.unescape_value().map(Cow::into_owned).map_err(|x| x.to_string()) }).map_err(|x| x.to_string())).collect()
}

/// `quick_xml::escape::unescape`, as `BytesText::unescape` applies it to the
/// text of an event (the error's message is the same either way).
#[verifier::external_body]
fn xml_unescape(raw: &str) -> (r: Result<String, String>)
    ensures
        sres(r) == xml_unescaped(raw@),
{
    quick_xml::escape::unescape(raw).map(Cow::into_owned).map_err(|x| x.to_string())
}

/// The local part of a qualified name.
fn local_name(q: &str) -> (r: String)
    ensures
        r@ == local_part(q@),
{
    let cs = chars_of(q);
    let colon = vec![':'];
    proof {
        assert(colon@ =~= seq![':']);
        lemma_find_from(q@, seq![':'], 0);
    }
    match find_chars(cs.as_slice(), colon.as_slice()) {
        Some(i) => {
            assert(occurs_at(q@, seq![':'], i as int));
            let n = cs.len();
            assert(i + 1 <= n);
            let tail = slice_of(cs.as_slice(), i + 1, n);
            proof {
                assert(tail@ =~= q@.skip(i + 1));
            }
            string_from(tail.as_slice())
        },
        None => owned(q),
    }
}

/// A handed-over event with its tag's attributes read.
fn xml_tok_of(t: XmlRaw) -> (r: XmlTok)
    requires
        tag_fits(t),
    ensures
        xml_tok_v(r) == raw_v(t),
{
    match t {
        XmlRaw::Start(q, c) => XmlTok::Start(local_name(q.as_str()), xml_attrs(q.as_str(), c.as_str())),
        XmlRaw::Empty(q, c) => XmlTok::Empty(local_name(q.as_str()), xml_attrs(q.as_str(), c.as_str())),
        XmlRaw::Text(x) => XmlTok::Text(xml_unescape(x.as_str())),
        XmlRaw::End(q) => XmlTok::End(local_name(q.as_str())),
        XmlRaw::Eof => XmlTok::Eof,
        XmlRaw::Other => XmlTok::Other,
        XmlRaw::Fail(m) => XmlTok::Fail(m),
    }
}

/// The whole event stream of `xml`: read until the end of input or the
/// first error, each tag with its attributes.
pub fn xml_tokenize(xml: &str) -> (r: Vec<XmlTok>)
    ensures
        xml_toks_v(r@) == xml_tokens(xml@),
{
    let mut rd = xml_reader(xml);
    let ghost all = xml_pending(rd);
    let mut out: Vec<XmlTok> = Vec::new();
    loop
        invariant
            all == xml_tokens(xml@),
            ends_once(all),
            out@.len() < all.len(),
            xml_pending(rd) == all.skip(out@.len() as int),
            xml_toks_v(out@) == all.take(out@.len() as int),
        decreases all.len() - out@.len(),
    {
        let ghost k = out@.len() as int;
        let t = xml_read(&mut rd);
        proof {
            assert(all.skip(k)[0] == all[k]);
            assert(all.skip(k).drop_first() =~= all.skip(k + 1));
        }
        let end = match &t {
            XmlRaw::Eof => true,
            XmlRaw::Fail(_) => true,
            _ => false,
        };
        let tok = xml_tok_of(t);
        out.push(tok);
        proof {
            assert(xml_toks_v(out@) =~= all.take(k + 1));
        }
        if end {
            proof {
                assert(k == all.len() - 1);
                assert(all.take(k + 1) =~= all);
            }
            return out;
        }
    }
}

// ---------------------------------------------------------------------------
// Field extraction
// ---------------------------------------------------------------------------

/// Where in the event document the reader is.
#[derive(Clone, Copy, PartialEq, Eq, Structural)]
pub enum Section {
    Outside,
    System,
    EventData,
}

/// The state of field extraction: the section, the element (or `Data` name)
/// whose text is accumulating, that text, and the fields so far.
pub struct XmlState {
    pub section: Section,
    pub cur: Option<Seq<char>>,
    pub text: Seq<char>,
    pub fields: Map<Seq<char>, Seq<char>>,
}

/// Record every attribute of `attrs[..k]` as `Tag_Attr`; the first failed
/// attribute stops it.
pub open spec fn record_attrs(
    attrs: Seq<Result<XmlAttrV, Seq<char>>>,
    tag: Seq<char>,
    fields: Map<Seq<char>, Seq<char>>,
    k: int,
) -> Result<Map<Seq<char>, Seq<char>>, Seq<char>>
    decreases k,
{
    if k <= 0 {
        Ok(fields)
    } else {
        match record_attrs(attrs, tag, fields, k - 1) {
            Err(m) => Err(m),
            Ok(f) => match attrs[k - 1] {
                Err(m) => Err(m),
                Ok(a) => match a.value {
                    Err(m) => Err(m),
                    Ok(v) => Ok(f.insert(tag + "_"@ + a.local, v)),
                },
            },
        }
    }
}

/// The value of the first attribute from `i` on whose key is `want`; a failed
/// attribute before it (or its own failed value) stops the search.
pub open spec fn attr_value(attrs: Seq<Result<XmlAttrV, Seq<char>>>, want: Seq<char>, i: int) -> Result<Option<Seq<char>>, Seq<char>>
    decreases attrs.len() - i,
{
    if i < 0 || i >= attrs.len() {
        Ok(None)
    } else {
        match attrs[i] {
            Err(m) => Err(m),
            Ok(a) => if a.key == want {
                match a.value {
                    Ok(v) => Ok(Some(v)),
                    Err(m) => Err(m),
                }
            } else {
                attr_value(attrs, want, i + 1)
            },
        }
    }
}

/// One event applied to the extraction state.
pub open spec fn xml_step(st: XmlState, t: XmlTokV) -> Result<XmlState, Seq<char>> {
    match t {
        XmlTokV::Start(name, attrs) => if name == "System"@ {
            Ok(XmlState { section: Section::System, ..st })
        } else if name == "EventData"@ {
            Ok(XmlState { section: Section::EventData, ..st })
        } else {
            match st.section {
                Section::System => match record_attrs(attrs, name, st.fields, attrs.len() as int) {
                    Err(m) => Err(m),
                    Ok(f) => Ok(XmlState { section: st.section, cur: Some(name), text: Seq::empty(), fields: f }),
                },
                Section::EventData => if name == "Data"@ {
                    match attr_value(attrs, "Name"@, 0) {
                        Err(m) => Err(m),
                        Ok(k) => Ok(XmlState { section: st.section, cur: k, text: Seq::empty(), fields: st.fields }),
                    }
                } else {
                    Ok(st)
                },
                Section::Outside => Ok(st),
            }
        },
        XmlTokV::Empty(name, attrs) => match st.section {
            Section::System => if name != "System"@ {
                match record_attrs(attrs, name, st.fields, attrs.len() as int) {
                    Err(m) => Err(m),
                    Ok(f) => Ok(XmlState { fields: f, ..st }),
                }
            } else {
                Ok(st)
            },
            Section::EventData => if name == "Data"@ {
                match attr_value(attrs, "Name"@, 0) {
                    Err(m) => Err(m),
                    Ok(Some(k)) => Ok(
                        XmlState {
                            fields: if st.fields.contains_key(k) {
                                st.fields
                            } else {
                                st.fields.insert(k, Seq::empty())
                            },
                            ..st
                        },
                    ),
                    Ok(None) => Ok(st),
                }
            } else {
                Ok(st)
            },
            Section::Outside => Ok(st),
        },
        XmlTokV::Text(r) => match r {
            Err(m) => Err(m),
            Ok(x) => Ok(XmlState { text: st.text + x, ..st }),
        },
        XmlTokV::End(name) => if name == "System"@ || name == "EventData"@ {
            Ok(XmlState { section: Section::Outside, cur: None, text: Seq::empty(), fields: st.fields })
        } else {
            match st.cur {
                Some(key) => {
                    let val = trim(st.text);
                    Ok(
                        XmlState {
                            section: st.section,
                            cur: None,
                            text: Seq::empty(),
                            fields: if val.len() > 0 && !st.fields.contains_key(key) {
                                st.fields.insert(key, val)
                            } else {
                                st.fields
                            },
                        },
                    )
                },
                None => Ok(st),
            }
        },
        XmlTokV::Eof => Ok(st),
        XmlTokV::Other => Ok(st),
        XmlTokV::Fail(m) => Err(m),
    }
}

/// The extraction state after `toks[..k]`, or the first error.
pub open spec fn xml_run(toks: Seq<XmlTokV>, k: int) -> Result<XmlState, Seq<char>>
    decreases k,
{
    if k <= 0 {
        Ok(XmlState { section: Section::Outside, cur: None, text: Seq::empty(), fields: Map::empty() })
    } else {
        match xml_run(toks, k - 1) {
            Err(m) => Err(m),
            Ok(st) => xml_step(st, toks[k - 1]),
        }
    }
}

/// The fields of an event document's token stream: `<System>` children become
/// `Tag` (text) or `Tag_Attr` (attributes), each `<Data Name="X">v</Data>`
/// becomes `X: v`; an error, or no field at all, fails.
pub open spec fn fields_of_tokens(toks: Seq<XmlTokV>) -> Result<Map<Seq<char>, Seq<char>>, Seq<char>> {
    match xml_run(toks, toks.len() as int) {
        Err(m) => Err(m),
        Ok(st) => if st.fields.len() == 0 {
            Err("no fields extracted from XML"@)
        } else {
            Ok(st.fields)
        },
    }
}

proof fn lemma_record_attrs_err(attrs: Seq<Result<XmlAttrV, Seq<char>>>, tag: Seq<char>, fields: Map<Seq<char>, Seq<char>>, k: int, n: int)
    requires
        0 <= k <= n,
        record_attrs(attrs, tag, fields, k) is Err,
    ensures
        record_attrs(attrs, tag, fields, n) == record_attrs(attrs, tag, fields, k),
    decreases n - k,
{
    if n > k {
        lemma_record_attrs_err(attrs, tag, fields, k, n - 1);
    }
}

proof fn lemma_xml_run_err(toks: Seq<XmlTokV>, k: int, n: int)
    requires
        0 <= k <= n,
        xml_run(toks, k) is Err,
    ensures
        xml_run(toks, n) == xml_run(toks, k),
    decreases n - k,
{
    if n > k {
        lemma_xml_run_err(toks, k, n - 1);
    }
}

fn record_attrs_exec(attrs: &Vec<Result<XmlAttr, String>>, tag: &str, fields: &mut StrMap) -> (r: Result<(), String>)
    ensures
        match record_attrs(attrs_v(attrs@), tag@, old(fields)@, attrs@.len() as int) {
            Ok(f) => r is Ok && final(fields)@ == f,
            Err(m) => r matches Err(x) && x@ == m,
        },
{
    let ghost av = attrs_v(attrs@);
    let ghost f0 = fields@;
    let mut k: usize = 0;
    while k < attrs.len()
        invariant
            k <= attrs@.len(),
            av == attrs_v(attrs@),
            f0 == old(fields)@,
            record_attrs(av, tag@, f0, k as int) == Ok::<Map<Seq<char>, Seq<char>>, Seq<char>>(fields@),
        decreases attrs@.len() - k,
    {
        proof {
            assert(av[k as int] == attr_v(attrs@[k as int]));
        }
        match &attrs[k] {
            Err(m) => {
                proof {
                    assert(record_attrs(av, tag@, f0, k + 1) == Err::<Map<Seq<char>, Seq<char>>, Seq<char>>(m@));
                    lemma_record_attrs_err(av, tag@, f0, k + 1, attrs@.len() as int);
                }
                return Err(owned(m.as_str()));
            },
            Ok(a) => match &a.value {
                Err(m) => {
                    proof {
                        assert(record_attrs(av, tag@, f0, k + 1) == Err::<Map<Seq<char>, Seq<char>>, Seq<char>>(m@));
                        lemma_record_attrs_err(av, tag@, f0, k + 1, attrs@.len() as int);
                    }
                    return Err(owned(m.as_str()));
                },
                Ok(v) => {
                    let head = crate::text::concat(tag, "_");
                    let key = crate::text::concat(head.as_str(), a.local.as_str());
                    fields.insert(key, owned(v.as_str()));
                },
            },
        }
        k = k + 1;
    }
    Ok(())
}

fn attr_value_exec(attrs: &Vec<Result<XmlAttr, String>>, want: &str) -> (r: Result<Option<String>, String>)
    ensures
        match attr_value(attrs_v(attrs@), want@, 0) {
            Ok(Some(v)) => r matches Ok(Some(x)) && x@ == v,
            Ok(None) => r matches Ok(None),
            Err(m) => r matches Err(x) && x@ == m,
        },
{
    let ghost av = attrs_v(attrs@);
    let mut i: usize = 0;
    while i < attrs.len()
        invariant
            i <= attrs@.len(),
            av == attrs_v(attrs@),
            attr_value(av, want@, 0) == attr_value(av, want@, i as int),
        decreases attrs@.len() - i,
    {
        match &attrs[i] {
            Err(m) => {
                return Err(owned(m.as_str()));
            },
            Ok(a) => {
                if crate::text::str_eq(a.key.as_str(), want) {
                    return match &a.value {
                        Ok(v) => Ok(Some(owned(v.as_str()))),
                        Err(m) => Err(owned(m.as_str())),
                    };
                }
            },
        }
        i = i + 1;
    }
    Ok(None)
}

fn append_str(v: &mut Vec<char>, s: &str)
    ensures
        final(v)@ == old(v)@ + s@,
{
    let cs = chars_of(s);
    let ghost start = v@;
    let mut i: usize = 0;
    while i < cs.len()
        invariant
            i <= cs@.len(),
            cs@ == s@,
            v@ == start + s@.take(i as int),
        decreases cs@.len() - i,
    {
        v.push(cs[i]);
        i = i + 1;
        proof {
            assert(v@ =~= start + s@.take(i as int));
        }
    }
    proof {
        assert(s@.take(i as int) =~= s@);
    }
}

/// The view of an optional string.
pub open spec fn opt_v(o: Option<String>) -> Option<Seq<char>> {
    match o {
        Some(s) => Some(s@),
        None => None,
    }
}

/// The fields of an event document's token stream (see [`fields_of_tokens`]).
pub fn fields_from_tokens(toks: &Vec<XmlTok>) -> (r: Result<StrMap, String>)
    ensures
        match fields_of_tokens(xml_toks_v(toks@)) {
            Ok(f) => r matches Ok(m) && m@ == f,
            Err(e) => r matches Err(x) && x@ == e,
        },
{
    let ghost tv = xml_toks_v(toks@);
    let mut section = Section::Outside;
    let mut cur: Option<String> = None;
    let mut text: Vec<char> = Vec::new();
    let mut fields = StrMap::new();
    let mut k: usize = 0;
    while k < toks.len()
        invariant
            k <= toks@.len(),
            tv == xml_toks_v(toks@),
            xml_run(tv, k as int) == Ok::<XmlState, Seq<char>>(
                XmlState { section, cur: opt_v(cur), text: text@, fields: fields@ },
            ),
        decreases toks@.len() - k,
    {
        proof {
            assert(tv[k as int] == xml_tok_v(toks@[k as int]));
        }
        let step: Result<(), String> = match &toks[k] {
            XmlTok::Start(name, attrs) => {
                if crate::text::str_eq(name.as_str(), "System") {
                    section = Section::System;
                    Ok(())
                } else if crate::text::str_eq(name.as_str(), "EventData") {
                    section = Section::EventData;
                    Ok(())
                } else {
                    match section {
                        Section::System => match record_attrs_exec(attrs, name.as_str(), &mut fields) {
                            Err(m) => Err(m),
                            Ok(()) => {
                                cur = Some(owned(name.as_str()));
                                text = Vec::new();
                                Ok(())
                            },
                        },
                        Section::EventData => {
                            if crate::text::str_eq(name.as_str(), "Data") {
                                match attr_value_exec(attrs, "Name") {
                                    Err(m) => Err(m),
                                    Ok(key) => {
                                        cur = key;
                                        text = Vec::new();
                                        Ok(())
                                    },
                                }
                            } else {
                                Ok(())
                            }
                        },
                        Section::Outside => Ok(()),
                    }
                }
            },
            XmlTok::Empty(name, attrs) => match section {
                Section::System => {
                    if !crate::text::str_eq(name.as_str(), "System") {
                        record_attrs_exec(attrs, name.as_str(), &mut fields)
                    } else {
                        Ok(())
                    }
                },
                Section::EventData => {
                    if crate::text::str_eq(name.as_str(), "Data") {
                        match attr_value_exec(attrs, "Name") {
                            Err(m) => Err(m),
                            Ok(Some(key)) => {
                                fields.insert_if_absent(key, String::new());
                                Ok(())
                            },
                            Ok(None) => Ok(()),
                        }
                    } else {
                        Ok(())
                    }
                },
                Section::Outside => Ok(()),
            },
            XmlTok::Text(r) => match r {
                Err(m) => Err(owned(m.as_str())),
                Ok(x) => {
                    append_str(&mut text, x.as_str());
                    Ok(())
                },
            },
            XmlTok::End(name) => {
                if crate::text::str_eq(name.as_str(), "System") || crate::text::str_eq(name.as_str(), "EventData") {
                    section = Section::Outside;
                    cur = None;
                    text = Vec::new();
                } else {
                    match cur {
                        Some(key) => {
                            let val = trim_chars(&text);
                            if val.len() > 0 {
                                fields.insert_if_absent(key, string_from(&val));
                            }
                            cur = None;
                            text = Vec::new();
                        },
                        None => {},
                    }
                }
                Ok(())
            },
            XmlTok::Eof => Ok(()),
            XmlTok::Other => Ok(()),
            XmlTok::Fail(m) => Err(owned(m.as_str())),
        };
        match step {
            Err(m) => {
                proof {
                    lemma_xml_run_err(tv, k + 1, tv.len() as int);
                }
                return Err(m);
            },
            Ok(()) => {},
        }
        k = k + 1;
    }
    if fields.len() == 0 {
        return Err(owned("no fields extracted from XML"));
    }
    Ok(fields)
}

/// Flatten a Windows Event XML string into the key convention: `<System>`
/// children become `Tag` (text) or `Tag_Attr` (attributes), and each
/// `<Data Name="X">v</Data>` becomes `X: v`. Any Windows event is captured
/// generically — nothing is hardcoded per Event ID.
pub fn extract_xml_fields(xml: &str) -> (r: Result<StrMap, String>)
    ensures
        match fields_of_tokens(xml_tokens(xml@)) {
            Ok(f) => r matches Ok(m) && m@ == f,
            Err(e) => r matches Err(x) && x@ == e,
        },
{
    let toks = xml_tokenize(xml);
    fields_from_tokens(&toks)
}

// ---------------------------------------------------------------------------
// The envelope: a model of records and errors
// ---------------------------------------------------------------------------

/// The model of a record.
pub struct RecV {
    pub kind: RecordKind,
    pub ts: Timestamp,
    pub host: Option<Seq<char>>,
    pub source_ip: Option<Seq<char>>,
    pub fields: Map<Seq<char>, Seq<char>>,
    pub raw: Seq<char>,
}

/// The model of a parse error.
pub enum ErrV {
    NotOplc(usize),
    Envelope(usize, Seq<char>),
    UnknownLogset(usize, Seq<char>),
    Payload(usize, Seq<char>, Seq<char>),
    Xml(usize, Seq<char>),
}

/// The model of a record.
pub open spec fn rec_v(r: RawRecord) -> RecV {
    RecV {
        kind: r.kind,
        ts: r.ts,
        host: opt_v(r.host),
        source_ip: opt_v(r.source_ip),
        fields: r.fields@,
        raw: r.raw@,
    }
}

/// The model of a parse error.
pub open spec fn err_v(e: ParseError) -> ErrV {
    match e {
        ParseError::NotOplc { line } => ErrV::NotOplc(line),
        ParseError::Envelope { line, reason } => ErrV::Envelope(line, reason@),
        ParseError::UnknownLogset { line, logset } => ErrV::UnknownLogset(line, logset@),
        ParseError::Payload { line, kind, reason } => ErrV::Payload(line, kind@, reason@),
        ParseError::Xml { line, reason } => ErrV::Xml(line, reason@),
    }
}

/// `r` is what the model `spec` says.
pub open spec fn rec_result_is(r: Result<RawRecord, ParseError>, spec: Result<RecV, ErrV>) -> bool {
    match spec {
        Ok(v) => r matches Ok(x) && rec_v(x) == v,
        Err(e) => r matches Err(x) && err_v(x) == e,
    }
}

/// The value under `k`, if any.
pub open spec fn map_get(m: Map<Seq<char>, Seq<char>>, k: Seq<char>) -> Option<Seq<char>> {
    if m.contains_key(k) {
        Some(m[k])
    } else {
        None
    }
}

/// Splitting `s[..i]` at `c`: the finished pieces and the current one.
pub open spec fn split_state(s: Seq<char>, c: char, i: int) -> (Seq<Seq<char>>, Seq<char>)
    decreases i,
{
    if i <= 0 {
        (Seq::empty(), Seq::empty())
    } else {
        let (acc, cur) = split_state(s, c, i - 1);
        if s[i - 1] == c {
            (acc.push(cur), Seq::empty())
        } else {
            (acc, cur.push(s[i - 1]))
        }
    }
}

/// `str::split(',')` then `str::trim` on each piece.
pub open spec fn csv_tokens(s: Seq<char>) -> Seq<Seq<char>> {
    let (acc, cur) = split_state(s, ',', s.len() as int);
    acc.push(cur).map_values(|p: Seq<char>| trim(p))
}

/// `s` without its trailing commas.
pub open spec fn strip_commas(s: Seq<char>) -> Seq<char>
    decreases s.len(),
{
    if s.len() > 0 && s.last() == ',' {
        strip_commas(s.drop_last())
    } else {
        s
    }
}

/// The first `n` characters of `s` (all of it if shorter).
pub open spec fn take_chars(s: Seq<char>, n: int) -> Seq<char> {
    if s.len() > n {
        s.take(n)
    } else {
        s
    }
}

/// Pieces joined with `sep` between them.
pub open spec fn join(ps: Seq<Seq<char>>, sep: Seq<char>) -> Seq<char>
    decreases ps.len(),
{
    if ps.len() == 0 {
        Seq::empty()
    } else if ps.len() == 1 {
        ps[0]
    } else {
        join(ps.drop_last(), sep) + sep + ps.last()
    }
}

/// Envelope metadata, positioned relative to the logset marker.
pub struct MetaV {
    pub generated_ts: Option<Seq<char>>,
    pub hostname: Option<Seq<char>>,
    pub source_ip: Option<Seq<char>>,
    pub agent_version: Option<Seq<char>>,
}

/// The token `back` places before position `idx`, if any.
pub open spec fn token_before(tokens: Seq<Seq<char>>, idx: int, back: int) -> Option<Seq<char>> {
    if idx >= back {
        Some(tokens[idx - back])
    } else {
        None
    }
}

/// The metadata before the logset marker at `idx`.
pub open spec fn meta_from(tokens: Seq<Seq<char>>, idx: int) -> MetaV {
    MetaV {
        source_ip: token_before(tokens, idx, 1),
        hostname: token_before(tokens, idx, 2),
        generated_ts: token_before(tokens, idx, 3),
        agent_version: token_before(tokens, idx, 4),
    }
}

/// A `put` of an optional value.
pub open spec fn put_opt(m: Map<Seq<char>, Seq<char>>, key: Seq<char>, v: Option<Seq<char>>) -> Map<Seq<char>, Seq<char>> {
    match v {
        Some(x) => put_spec(m, key, x),
        None => m,
    }
}

/// Envelope metadata attached under `env.*`, with the host (if still unknown)
/// and the source address set from it.
pub open spec fn apply_meta(r: RecV, tenant: Seq<char>, ct: Option<Timestamp>, m: MetaV) -> RecV {
    let f1 = put_spec(r.fields, "env.tenant"@, tenant);
    let f2 = put_opt(
        f1,
        "env.collector_ts_ms"@,
        match ct {
            Some(t) => Some(dec_int(t.0 as int)),
            None => None,
        },
    );
    let f3 = put_opt(f2, "env.generated_ts_s"@, m.generated_ts);
    let f4 = put_opt(f3, "env.hostname"@, m.hostname);
    let f5 = put_opt(f4, "env.source_ip"@, m.source_ip);
    let f6 = put_opt(f5, "env.agent_version"@, m.agent_version);
    RecV {
        kind: r.kind,
        ts: r.ts,
        host: if r.host is None {
            m.hostname
        } else {
            r.host
        },
        source_ip: if m.source_ip is Some {
            m.source_ip
        } else {
            r.source_ip
        },
        fields: f6,
        raw: r.raw,
    }
}

/// The fields whose values are not empty.
pub open spec fn nonempty_part(f: Map<Seq<char>, Seq<char>>) -> Map<Seq<char>, Seq<char>> {
    Map::new(|k: Seq<char>| f.contains_key(k) && f[k].len() > 0, |k: Seq<char>| f[k])
}

/// A logset E record: the metadata before the XML, then the XML's fields.
pub open spec fn decode_event_spec(
    raw: Seq<char>,
    no: usize,
    tenant: Seq<char>,
    ct: Option<Timestamp>,
    meta_csv: Seq<char>,
    xml: Seq<char>,
) -> Result<RecV, ErrV> {
    let tokens = csv_tokens(strip_commas(meta_csv));
    let meta = meta_from(tokens, tokens.len() - 1);
    match fields_of_tokens(xml_tokens(xml)) {
        Err(m) => Err(ErrV::Xml(no, m)),
        Ok(f) => {
            let from_xml = match map_get(f, "TimeCreated_SystemTime"@) {
                Some(t) => iso8601_spec(t),
                None => None,
            };
            let from_meta = match meta.generated_ts {
                Some(g) => ts_of(epoch_seconds_spec(g)),
                None => None,
            };
            let ts = match (from_xml, from_meta, ct) {
                (Some(t), _, _) => t,
                (None, Some(t), _) => t,
                (None, None, Some(t)) => t,
                (None, None, None) => Timestamp(0),
            };
            let rec = RecV {
                kind: RecordKind::Event,
                ts,
                host: map_get(f, "Computer"@),
                source_ip: None,
                fields: nonempty_part(f),
                raw,
            };
            Ok(apply_meta(rec, tenant, ct, meta))
        },
    }
}

/// A logset type token.
pub open spec fn is_logtype(t: Seq<char>) -> bool {
    t == "NETWORK"@ || t == "NEW_PROCESS"@ || t == "FILE_INTEGRITY"@
}

/// The first logset type token at or after `i`.
pub open spec fn find_logtype(tokens: Seq<Seq<char>>, i: int) -> Option<int>
    decreases tokens.len() - i,
{
    if i < 0 || i >= tokens.len() {
        None
    } else if is_logtype(tokens[i]) {
        Some(i)
    } else {
        find_logtype(tokens, i + 1)
    }
}

/// Field `i` of a variable-arity payload, or nothing.
pub open spec fn field_at(rest: Seq<Seq<char>>, i: int) -> Seq<char> {
    if 0 <= i < rest.len() {
        rest[i]
    } else {
        Seq::empty()
    }
}

/// The fields of a logset payload after its type token.
pub open spec fn payload_fields(logtype: Seq<char>, rest: Seq<Seq<char>>) -> Map<Seq<char>, Seq<char>> {
    let e = Map::<Seq<char>, Seq<char>>::empty();
    if logtype == "NETWORK"@ {
        let m1 = put_spec(e, "protocol"@, rest[0]);
        let m2 = put_spec(m1, "src_ip"@, rest[1]);
        let m3 = put_spec(m2, "src_port"@, rest[2]);
        let m4 = put_spec(m3, "dst_ip"@, rest[3]);
        let m5 = put_spec(m4, "dst_port"@, rest[4]);
        let m6 = put_spec(m5, "pid"@, rest[5]);
        put_spec(m6, "process"@, rest[6])
    } else if logtype == "NEW_PROCESS"@ {
        let m1 = put_spec(e, "pid"@, field_at(rest, 0));
        let m2 = put_spec(m1, "process"@, field_at(rest, 1));
        let m3 = put_spec(m2, "full_path"@, field_at(rest, 2));
        let m4 = put_spec(m3, "parent_folder"@, field_at(rest, 3));
        let m5 = put_spec(m4, "user"@, field_at(rest, 4));
        let m6 = put_spec(m5, "parent_pid"@, field_at(rest, 5));
        put_spec(m6, "parent_process"@, field_at(rest, 6))
    } else {
        let last = rest.len() - 1;
        let m1 = put_spec(e, "reserved"@, rest[0]);
        let m2 = put_spec(m1, "action"@, rest[1]);
        let m3 = put_spec(m2, "file_path"@, join(rest.subrange(2, last), ","@));
        put_spec(m3, "hash"@, rest[last])
    }
}

/// A CSV logset record (N, P or I), positioned from its logset type token.
pub open spec fn decode_csv_spec(
    raw: Seq<char>,
    no: usize,
    tenant: Seq<char>,
    ct: Option<Timestamp>,
    payload: Seq<char>,
) -> Result<RecV, ErrV> {
    let tokens = csv_tokens(payload);
    match find_logtype(tokens, 0) {
        None => Err(ErrV::UnknownLogset(no, take_chars(payload, 40))),
        Some(i) => if i == 0 {
            Err(ErrV::Envelope(no, "no logset before logtype"@))
        } else {
            let logtype = tokens[i];
            let meta = meta_from(tokens, i - 1);
            let rest = tokens.subrange(i + 1, tokens.len() as int);
            if logtype == "NETWORK"@ && rest.len() < 7 {
                Err(ErrV::Payload(no, "network"@, "expected 7 fields after NETWORK, got "@ + dec_int(rest.len() as int)))
            } else if logtype == "FILE_INTEGRITY"@ && rest.len() < 4 {
                Err(
                    ErrV::Payload(
                        no,
                        "integrity"@,
                        "expected >=4 fields after FILE_INTEGRITY, got "@ + dec_int(rest.len() as int),
                    ),
                )
            } else {
                let kind = if logtype == "NETWORK"@ {
                    RecordKind::Network
                } else if logtype == "NEW_PROCESS"@ {
                    RecordKind::Process
                } else {
                    RecordKind::Integrity
                };
                let ts = match (
                    match meta.generated_ts {
                        Some(g) => ts_of(epoch_seconds_spec(g)),
                        None => None,
                    },
                    ct,
                ) {
                    (Some(t), _) => t,
                    (None, Some(t)) => t,
                    (None, None) => Timestamp(0),
                };
                let rec = RecV {
                    kind,
                    ts,
                    host: None,
                    source_ip: None,
                    fields: payload_fields(logtype, rest),
                    raw,
                };
                Ok(apply_meta(rec, tenant, ct, meta))
            }
        },
    }
}

/// The header `OPLC-<tenant>,<collector_ts_ms>,…`: the tenant (which must not
/// be empty) and the collector time, if it parses.
pub open spec fn parse_header_spec(header: Seq<char>, no: usize) -> Result<(Seq<char>, Option<Timestamp>), ErrV> {
    let h = trim(header);
    let (tag, second) = match find(h, ","@) {
        Some(i) => {
            let r = h.subrange(i + 1, h.len() as int);
            (
                h.subrange(0, i),
                Some(
                    match find(r, ","@) {
                        Some(j) => r.subrange(0, j),
                        None => r,
                    },
                ),
            )
        },
        None => (h, None),
    };
    let tenant = if tag.len() >= 5 && tag.subrange(0, 5) == "OPLC-"@ {
        tag.subrange(5, tag.len() as int)
    } else {
        tag
    };
    let ct = match second {
        Some(x) => ts_of(epoch_int(x)),
        None => None,
    };
    if tenant.len() == 0 {
        Err(ErrV::Envelope(no, "empty tenant"@))
    } else {
        Ok((tenant, ct))
    }
}

/// One OPLC line decoded: anchored on `OPLC-`, split into header and payload
/// at `" #"` (or a bare `#`), then decoded as an Event (the payload holds
/// XML) or as a CSV logset.
pub open spec fn parse_line_spec(line: Seq<char>, no: usize) -> Result<RecV, ErrV> {
    match find(line, "OPLC-"@) {
        None => Err(ErrV::NotOplc(no)),
        Some(st) => {
            let rest = line.subrange(st, line.len() as int);
            let split = match find(rest, " #"@) {
                Some(i) => Some((rest.subrange(0, i), rest.subrange(i + 2, rest.len() as int))),
                None => match find(rest, "#"@) {
                    Some(i) => Some((rest.subrange(0, i), rest.subrange(i + 1, rest.len() as int))),
                    None => None,
                },
            };
            match split {
                None => Err(ErrV::Envelope(no, "missing '#' separator"@)),
                Some((header, payload)) => match parse_header_spec(header, no) {
                    Err(e) => Err(e),
                    Ok((tenant, ct)) => {
                        let p = trim(payload);
                        match find(p, "<"@) {
                            Some(lt) => decode_event_spec(
                                line,
                                no,
                                tenant,
                                ct,
                                p.subrange(0, lt),
                                p.subrange(lt, p.len() as int),
                            ),
                            None => decode_csv_spec(line, no, tenant, ct, p),
                        }
                    },
                },
            }
        },
    }
}

// ---------------------------------------------------------------------------
// The envelope: decoding
// ---------------------------------------------------------------------------

/// The views of some character vectors.
pub open spec fn cvecs(v: Seq<Vec<char>>) -> Seq<Seq<char>> {
    v.map_values(|x: Vec<char>| x@)
}

/// Split on `,` and trim each piece.
pub fn split_trim(s: &Vec<char>) -> (r: Vec<Vec<char>>)
    ensures
        cvecs(r@) == csv_tokens(s@),
{
    let mut acc: Vec<Vec<char>> = Vec::new();
    let mut cur: Vec<char> = Vec::new();
    let mut i: usize = 0;
    while i < s.len()
        invariant
            i <= s@.len(),
            (cvecs(acc@), cur@) == split_state(s@, ',', i as int),
        decreases s@.len() - i,
    {
        if s[i] == ',' {
            let ghost before = acc@;
            let ghost c = cur@;
            acc.push(cur);
            proof {
                assert(cvecs(acc@) =~= cvecs(before).push(c));
            }
            cur = Vec::new();
        } else {
            cur.push(s[i]);
        }
        i = i + 1;
    }
    let ghost before = acc@;
    let ghost c = cur@;
    acc.push(cur);
    proof {
        assert(cvecs(acc@) =~= cvecs(before).push(c));
    }
    let ghost pieces = cvecs(acc@);
    let mut out: Vec<Vec<char>> = Vec::new();
    let mut j: usize = 0;
    while j < acc.len()
        invariant
            j <= acc@.len(),
            pieces == cvecs(acc@),
            cvecs(out@) == pieces.take(j as int).map_values(|p: Seq<char>| trim(p)),
        decreases acc@.len() - j,
    {
        let t = trim_chars(&acc[j]);
        let ghost before = out@;
        proof {
            assert(pieces[j as int] == acc@[j as int]@);
        }
        out.push(t);
        j = j + 1;
        proof {
            assert(cvecs(out@) =~= cvecs(before).push(t@));
            assert(pieces.take(j as int).map_values(|p: Seq<char>| trim(p)) =~= pieces.take(j - 1).map_values(|p: Seq<char>| trim(p)).push(trim(pieces[j - 1])));
        }
    }
    proof {
        assert(pieces.take(j as int) =~= pieces);
    }
    out
}

fn strip_commas_exec(s: &Vec<char>) -> (r: Vec<char>)
    ensures
        r@ == strip_commas(s@),
{
    let mut n = s.len();
    proof {
        assert(s@.subrange(0, n as int) =~= s@);
    }
    while n > 0 && s[n - 1] == ','
        invariant
            n <= s@.len(),
            strip_commas(s@) == strip_commas(s@.subrange(0, n as int)),
        decreases n,
    {
        proof {
            assert(s@.subrange(0, n as int).drop_last() =~= s@.subrange(0, n - 1));
        }
        n = n - 1;
    }
    slice_of(s, 0, n)
}

/// Envelope metadata (executable form).
struct Meta {
    generated_ts: Option<Vec<char>>,
    hostname: Option<Vec<char>>,
    source_ip: Option<Vec<char>>,
    agent_version: Option<Vec<char>>,
}

spec fn ocv(o: Option<Vec<char>>) -> Option<Seq<char>> {
    match o {
        Some(v) => Some(v@),
        None => None,
    }
}

spec fn meta_v(m: Meta) -> MetaV {
    MetaV {
        generated_ts: ocv(m.generated_ts),
        hostname: ocv(m.hostname),
        source_ip: ocv(m.source_ip),
        agent_version: ocv(m.agent_version),
    }
}

fn token_before_exec(tokens: &Vec<Vec<char>>, idx: usize, back: usize) -> (r: Option<Vec<char>>)
    requires
        idx < tokens@.len(),
    ensures
        ocv(r) == token_before(cvecs(tokens@), idx as int, back as int),
{
    if idx >= back {
        Some(slice_of(&tokens[idx - back], 0, tokens[idx - back].len()))
    } else {
        None
    }
}

fn meta_from_exec(tokens: &Vec<Vec<char>>, idx: usize) -> (m: Meta)
    requires
        idx < tokens@.len(),
    ensures
        meta_v(m) == meta_from(cvecs(tokens@), idx as int),
{
    let m = Meta {
        source_ip: token_before_exec(tokens, idx, 1),
        hostname: token_before_exec(tokens, idx, 2),
        generated_ts: token_before_exec(tokens, idx, 3),
        agent_version: token_before_exec(tokens, idx, 4),
    };
    proof {
        let tv = cvecs(tokens@);
        if idx >= 1 {
            assert(tokens@[idx - 1]@.subrange(0, tokens@[idx - 1]@.len() as int) =~= tv[idx - 1]);
        }
    }
    m
}

fn put_chars(rec: &mut RawRecord, key: &str, value: &Vec<char>)
    ensures
        rec_v(*final(rec)) == (RecV { fields: put_spec(old(rec).fields@, key@, value@), ..rec_v(*old(rec)) }),
{
    let v = string_from(value);
    rec.put(key, v.as_str());
}

fn put_opt_chars(rec: &mut RawRecord, key: &str, value: &Option<Vec<char>>)
    ensures
        rec_v(*final(rec)) == (RecV { fields: put_opt(old(rec).fields@, key@, ocv(*value)), ..rec_v(*old(rec)) }),
{
    if let Some(v) = value {
        put_chars(rec, key, v);
    }
}

fn apply_meta_exec(rec: &mut RawRecord, tenant: &str, ct: Option<Timestamp>, meta: &Meta)
    ensures
        rec_v(*final(rec)) == apply_meta(rec_v(*old(rec)), tenant@, ct, meta_v(*meta)),
{
    rec.put("env.tenant", tenant);
    if let Some(t) = ct {
        let d = crate::num::i64_to_string(t.millis());
        rec.put("env.collector_ts_ms", d.as_str());
    }
    put_opt_chars(rec, "env.generated_ts_s", &meta.generated_ts);
    put_opt_chars(rec, "env.hostname", &meta.hostname);
    if let Some(h) = &meta.hostname {
        if rec.host.is_none() {
            rec.host = Some(string_from(h));
        }
    }
    put_opt_chars(rec, "env.source_ip", &meta.source_ip);
    if let Some(ip) = &meta.source_ip {
        rec.source_ip = Some(string_from(ip));
    }
    put_opt_chars(rec, "env.agent_version", &meta.agent_version);
}

fn copy_nonempty(rec: &mut RawRecord, fields: &StrMap)
    requires
        old(rec).fields@ == Map::<Seq<char>, Seq<char>>::empty(),
    ensures
        rec_v(*final(rec)) == (RecV { fields: nonempty_part(fields@), ..rec_v(*old(rec)) }),
{
    proof {
        use_type_invariant(fields);
    }
    let ghost ps = fields.pairs();
    let n = fields.entry_count();
    let mut i: usize = 0;
    while i < n
        invariant
            i <= n,
            n == ps.len(),
            ps == fields.pairs(),
            crate::strmap::keys_unique(ps),
            fields@ == crate::strmap::map_of(ps),
            rec_v(*rec) == (RecV { fields: rec.fields@, ..rec_v(*old(rec)) }),
            forall|k: Seq<char>| #[trigger] rec.fields@.contains_key(k) <==> exists|j: int| 0 <= j < i && ps[j].0 == k && ps[j].1.len() > 0,
            forall|k: Seq<char>| #[trigger] rec.fields@.contains_key(k) ==> rec.fields@[k] == fields@[k],
        decreases n - i,
    {
        let (k, v) = fields.entry(i);
        proof {
            crate::strmap::lemma_map_of_index(ps, i as int);
        }
        rec.put(k.as_str(), v.as_str());
        proof {
            assert forall|x: Seq<char>| #[trigger] rec.fields@.contains_key(x) implies exists|j: int| 0 <= j < i + 1 && ps[j].0 == x && ps[j].1.len() > 0 by {
                if x == ps[i as int].0 && ps[i as int].1.len() > 0 {
                    assert(ps[i as int].0 == x);
                }
            }
            assert forall|x: Seq<char>| (exists|j: int| 0 <= j < i + 1 && ps[j].0 == x && ps[j].1.len() > 0) implies #[trigger] rec.fields@.contains_key(x) by {
                let j = choose|j: int| 0 <= j < i + 1 && ps[j].0 == x && ps[j].1.len() > 0;
                if j < i {
                }
            }
        }
        i = i + 1;
    }
    proof {
        assert forall|x: Seq<char>| #[trigger] rec.fields@.contains_key(x) == nonempty_part(fields@).contains_key(x) by {
            if rec.fields@.contains_key(x) {
                let j = choose|j: int| 0 <= j < n && ps[j].0 == x && ps[j].1.len() > 0;
                crate::strmap::lemma_map_of_index(ps, j);
            }
            if nonempty_part(fields@).contains_key(x) {
                let j = fields.lemma_key_has_entry(x);
                crate::strmap::lemma_map_of_index(ps, j);
            }
        }
        assert(rec.fields@ =~= nonempty_part(fields@));
    }
}

fn is_lit(v: &Vec<char>, lit: &str) -> (r: bool)
    ensures
        r == (v@ == lit@),
{
    is_lit_pub(v, lit)
}

/// Whether the characters `v` spell `lit`.
pub fn is_lit_pub(v: &Vec<char>, lit: &str) -> (r: bool)
    ensures
        r == (v@ == lit@),
{
    let l = chars_of(lit);
    crate::text::chars_eq(v, &l)
}

/// Where `pat` first occurs in `s`, with its bounds.
fn find_lit(s: &Vec<char>, pat: &str) -> (r: Option<usize>)
    ensures
        r matches Some(k) ==> find(s@, pat@) == Some(k as int) && k + pat@.len() <= s@.len(),
        r is None ==> find(s@, pat@) is None,
{
    let pc = chars_of(pat);
    let r = find_chars(s, &pc);
    proof {
        lemma_find_from(s@, pat@, 0);
    }
    r
}

fn decode_event(raw: &str, no: usize, tenant: &str, ct: Option<Timestamp>, meta_csv: &Vec<char>, xml: &Vec<char>) -> (r: Result<RawRecord, ParseError>)
    ensures
        rec_result_is(r, decode_event_spec(raw@, no, tenant@, ct, meta_csv@, xml@)),
{
    let stripped = strip_commas_exec(meta_csv);
    let tokens = split_trim(&stripped);
    proof {
        let (acc, cur) = split_state(stripped@, ',', stripped@.len() as int);
        assert(cvecs(tokens@).len() == acc.len() + 1);
    }
    let idx = tokens.len() - 1;
    let meta = meta_from_exec(&tokens, idx);
    let xs = string_from(xml);
    let f = match extract_xml_fields(xs.as_str()) {
        Ok(f) => f,
        Err(m) => {
            return Err(ParseError::Xml { line: no, reason: m });
        },
    };
    let from_xml = match f.get("TimeCreated_SystemTime") {
        Some(t) => parse_iso8601(t.as_str()),
        None => None,
    };
    let from_meta = match &meta.generated_ts {
        Some(g) => {
            let gs = string_from(g);
            parse_epoch_seconds(gs.as_str())
        },
        None => None,
    };
    let ts = match (from_xml, from_meta, ct) {
        (Some(t), _, _) => t,
        (None, Some(t), _) => t,
        (None, None, Some(t)) => t,
        (None, None, None) => Timestamp(0),
    };
    let mut rec = RawRecord::new(RecordKind::Event, ts, raw);
    rec.host = match f.get("Computer") {
        Some(c) => Some(owned(c.as_str())),
        None => None,
    };
    copy_nonempty(&mut rec, &f);
    apply_meta_exec(&mut rec, tenant, ct, &meta);
    Ok(rec)
}

fn sub_tokens(tokens: &Vec<Vec<char>>, lo: usize) -> (r: Vec<Vec<char>>)
    requires
        lo <= tokens@.len(),
    ensures
        cvecs(r@) == cvecs(tokens@).subrange(lo as int, tokens@.len() as int),
{
    let ghost tv = cvecs(tokens@);
    let mut r: Vec<Vec<char>> = Vec::new();
    let mut k = lo;
    while k < tokens.len()
        invariant
            lo <= k <= tokens@.len(),
            tv == cvecs(tokens@),
            cvecs(r@) == tv.subrange(lo as int, k as int),
        decreases tokens@.len() - k,
    {
        let t = slice_of(&tokens[k], 0, tokens[k].len());
        let ghost before = r@;
        proof {
            assert(t@ =~= tv[k as int]);
        }
        r.push(t);
        k = k + 1;
        proof {
            assert(cvecs(r@) =~= cvecs(before).push(t@));
            assert(tv.subrange(lo as int, k as int) =~= tv.subrange(lo as int, k - 1).push(tv[k - 1]));
        }
    }
    r
}

fn field_at_exec(rest: &Vec<Vec<char>>, i: usize) -> (r: Vec<char>)
    ensures
        r@ == field_at(cvecs(rest@), i as int),
{
    if i < rest.len() {
        slice_of(&rest[i], 0, rest[i].len())
    } else {
        Vec::new()
    }
}

fn join_exec(ps: &Vec<Vec<char>>, lo: usize, hi: usize) -> (r: Vec<char>)
    requires
        lo <= hi <= ps@.len(),
    ensures
        r@ == join(cvecs(ps@).subrange(lo as int, hi as int), ","@),
{
    let ghost pv = cvecs(ps@);
    proof {
        reveal_strlit(",");
    }
    let mut r: Vec<char> = Vec::new();
    let mut k = lo;
    proof {
        assert(pv.subrange(lo as int, lo as int) =~= Seq::<Seq<char>>::empty());
    }
    while k < hi
        invariant
            lo <= k <= hi,
            hi <= ps@.len(),
            pv == cvecs(ps@),
            ","@ == seq![','],
            r@ == join(pv.subrange(lo as int, k as int), ","@),
        decreases hi - k,
    {
        let ghost before = r@;
        if k > lo {
            r.push(',');
        }
        let piece = &ps[k];
        let mut j: usize = 0;
        let ghost mid = r@;
        while j < piece.len()
            invariant
                j <= piece@.len(),
                r@ == mid + piece@.take(j as int),
            decreases piece@.len() - j,
        {
            r.push(piece[j]);
            j = j + 1;
            proof {
                assert(r@ =~= mid + piece@.take(j as int));
            }
        }
        proof {
            assert(piece@.take(j as int) =~= piece@);
            assert(pv[k as int] == piece@);
            let sub = pv.subrange(lo as int, k + 1);
            assert(sub.drop_last() =~= pv.subrange(lo as int, k as int));
            if k > lo {
                assert(r@ =~= before + ","@ + pv[k as int]);
            } else {
                assert(sub =~= seq![pv[k as int]]);
                assert(r@ =~= pv[k as int]);
            }
        }
        k = k + 1;
    }
    r
}

fn decode_csv(raw: &str, no: usize, tenant: &str, ct: Option<Timestamp>, payload: &Vec<char>) -> (r: Result<RawRecord, ParseError>)
    ensures
        rec_result_is(r, decode_csv_spec(raw@, no, tenant@, ct, payload@)),
{
    let tokens = split_trim(payload);
    let ghost tv = cvecs(tokens@);
    proof {
        reveal_strlit("NETWORK");
        reveal_strlit("NEW_PROCESS");
        reveal_strlit("FILE_INTEGRITY");
    }
    let mut i: usize = 0;
    while i < tokens.len() && !(is_lit(&tokens[i], "NETWORK") || is_lit(&tokens[i], "NEW_PROCESS") || is_lit(&tokens[i], "FILE_INTEGRITY"))
        invariant
            i <= tokens@.len(),
            tv == cvecs(tokens@),
            find_logtype(tv, 0) == find_logtype(tv, i as int),
        decreases tokens@.len() - i,
    {
        i = i + 1;
    }
    if i == tokens.len() {
        let head = if payload.len() > 40 {
            slice_of(payload, 0, 40)
        } else {
            slice_of(payload, 0, payload.len())
        };
        proof {
            assert(payload@.subrange(0, payload@.len() as int) =~= payload@);
            assert(payload@.subrange(0, 40) =~= payload@.take(40));
        }
        return Err(ParseError::UnknownLogset { line: no, logset: string_from(&head) });
    }
    if i == 0 {
        return Err(ParseError::Envelope { line: no, reason: owned("no logset before logtype") });
    }
    let meta = meta_from_exec(&tokens, i - 1);
    let rest = sub_tokens(&tokens, i + 1);
    let ghost rv = cvecs(rest@);
    let is_net = is_lit(&tokens[i], "NETWORK");
    let is_proc = is_lit(&tokens[i], "NEW_PROCESS");
    if is_net && rest.len() < 7 {
        let n = u64_to_string(rest.len() as u64);
        let reason = crate::text::concat("expected 7 fields after NETWORK, got ", n.as_str());
        return Err(ParseError::Payload { line: no, kind: "network", reason });
    }
    if !is_net && !is_proc && rest.len() < 4 {
        let n = u64_to_string(rest.len() as u64);
        let reason = crate::text::concat("expected >=4 fields after FILE_INTEGRITY, got ", n.as_str());
        return Err(ParseError::Payload { line: no, kind: "integrity", reason });
    }
    let kind = if is_net {
        RecordKind::Network
    } else if is_proc {
        RecordKind::Process
    } else {
        RecordKind::Integrity
    };
    let mut rec = RawRecord::new(kind, Timestamp(0), raw);
    if is_net {
        proof {
            assert(rv[0] == rest@[0]@ && rv[1] == rest@[1]@ && rv[2] == rest@[2]@ && rv[3] == rest@[3]@);
            assert(rv[4] == rest@[4]@ && rv[5] == rest@[5]@ && rv[6] == rest@[6]@);
        }
        put_chars(&mut rec, "protocol", &rest[0]);
        put_chars(&mut rec, "src_ip", &rest[1]);
        put_chars(&mut rec, "src_port", &rest[2]);
        put_chars(&mut rec, "dst_ip", &rest[3]);
        put_chars(&mut rec, "dst_port", &rest[4]);
        put_chars(&mut rec, "pid", &rest[5]);
        put_chars(&mut rec, "process", &rest[6]);
    } else if is_proc {
        put_chars(&mut rec, "pid", &field_at_exec(&rest, 0));
        put_chars(&mut rec, "process", &field_at_exec(&rest, 1));
        put_chars(&mut rec, "full_path", &field_at_exec(&rest, 2));
        put_chars(&mut rec, "parent_folder", &field_at_exec(&rest, 3));
        put_chars(&mut rec, "user", &field_at_exec(&rest, 4));
        put_chars(&mut rec, "parent_pid", &field_at_exec(&rest, 5));
        put_chars(&mut rec, "parent_process", &field_at_exec(&rest, 6));
    } else {
        let last = rest.len() - 1;
        proof {
            assert(rv[0] == rest@[0]@ && rv[1] == rest@[1]@ && rv[last as int] == rest@[last as int]@);
        }
        put_chars(&mut rec, "reserved", &rest[0]);
        put_chars(&mut rec, "action", &rest[1]);
        let path = join_exec(&rest, 2, last);
        put_chars(&mut rec, "file_path", &path);
        put_chars(&mut rec, "hash", &rest[last]);
    }
    proof {
        assert(find_logtype(tv, 0) == Some(i as int));
        assert(tv[i as int] == tokens@[i as int]@);
        assert(rv == tv.subrange(i + 1, tv.len() as int));
        assert(rec.fields@ == payload_fields(tv[i as int], rv));
    }
    let from_meta = match &meta.generated_ts {
        Some(g) => {
            let gs = string_from(g);
            parse_epoch_seconds(gs.as_str())
        },
        None => None,
    };
    match (from_meta, ct) {
        (Some(t), _) => {
            rec.ts = t;
        },
        (None, Some(t)) => {
            rec.ts = t;
        },
        (None, None) => {},
    }
    let ghost before = rec_v(rec);
    apply_meta_exec(&mut rec, tenant, ct, &meta);
    proof {
        let ghost spec = decode_csv_spec(raw@, no, tenant@, ct, payload@);
        assert(meta_v(meta) == meta_from(tv, i - 1));
        assert(before.kind == kind);
        assert(before.raw == raw@);
        assert(before.host is None);
        assert(before.source_ip is None);
        let logtype = tv[i as int];
        assert(is_logtype(logtype));
        assert("FILE_INTEGRITY"@.len() == 14);
        assert("NETWORK"@.len() == 7);
        assert("NEW_PROCESS"@.len() == 11);
        assert(!(logtype == "NETWORK"@ && rv.len() < 7));
        assert(!(logtype == "FILE_INTEGRITY"@ && rv.len() < 4));
        assert(i != 0);
    }
    Ok(rec)
}

fn parse_header(header: &Vec<char>, no: usize) -> (r: Result<(String, Option<Timestamp>), ParseError>)
    ensures
        match parse_header_spec(header@, no) {
            Ok((t, c)) => r matches Ok((x, y)) && x@ == t && y == c,
            Err(e) => r matches Err(x) && err_v(x) == e,
        },
{
    let h = trim_chars(header);
    proof {
        reveal_strlit(",");
    }
    let (tag, second) = match find_lit(&h, ",") {
        Some(i) => {
            proof {
                assert(","@ =~= seq![',']);
                assert(i + 1 <= h@.len());
            }
            let hn = h.len();
            assert(i + 1 <= hn);
            let rr = slice_of(&h, i + 1, hn);
            let sec = match find_lit(&rr, ",") {
                Some(j) => slice_of(&rr, 0, j),
                None => slice_of(&rr, 0, rr.len()),
            };
            proof {
                assert(rr@.subrange(0, rr@.len() as int) =~= rr@);
            }
            (slice_of(&h, 0, i), Some(sec))
        },
        None => (slice_of(&h, 0, h.len()), None),
    };
    proof {
        assert(h@.subrange(0, h@.len() as int) =~= h@);
    }
    let prefix = chars_of("OPLC-");
    proof {
        reveal_strlit("OPLC-");
    }
    let tenant = if tag.len() >= 5 && crate::text::starts_with(&tag, &prefix) {
        proof {
            assert(tag@.subrange(0, 5) =~= "OPLC-"@);
        }
        slice_of(&tag, 5, tag.len())
    } else {
        proof {
            if tag@.len() >= 5 && tag@.subrange(0, 5) == "OPLC-"@ {
                assert(crate::text::occurs_at(tag@, prefix@, 0));
            }
        }
        slice_of(&tag, 0, tag.len())
    };
    proof {
        assert(tag@.subrange(0, tag@.len() as int) =~= tag@);
    }
    let ct = match &second {
        Some(x) => {
            let xs = string_from(x);
            parse_epoch_millis(xs.as_str())
        },
        None => None,
    };
    if tenant.len() == 0 {
        return Err(ParseError::Envelope { line: no, reason: owned("empty tenant") });
    }
    Ok((string_from(&tenant), ct))
}

/// Decode one OPLC line into a record (see [`parse_line_spec`]).
pub fn parse_oplc_line(line: &str, line_no: usize) -> (r: Result<RawRecord, ParseError>)
    ensures
        rec_result_is(r, parse_line_spec(line@, line_no)),
{
    let lc = chars_of(line);
    proof {
        reveal_strlit("OPLC-");
        reveal_strlit(" #");
        reveal_strlit("#");
        reveal_strlit("<");
    }
    let st = match find_lit(&lc, "OPLC-") {
        Some(s) => s,
        None => {
            return Err(ParseError::NotOplc { line: line_no });
        },
    };
    let rest = slice_of(&lc, st, lc.len());
    let split = match find_lit(&rest, " #") {
        Some(i) => Some((slice_of(&rest, 0, i), slice_of(&rest, i + 2, rest.len()))),
        None => match find_lit(&rest, "#") {
            Some(i) => Some((slice_of(&rest, 0, i), slice_of(&rest, i + 1, rest.len()))),
            None => None,
        },
    };
    let (header, payload) = match split {
        Some(x) => x,
        None => {
            return Err(ParseError::Envelope { line: line_no, reason: owned("missing '#' separator") });
        },
    };
    let (tenant, ct) = match parse_header(&header, line_no) {
        Ok(x) => x,
        Err(e) => {
            return Err(e);
        },
    };
    let p = trim_chars(&payload);
    match find_lit(&p, "<") {
        Some(lt) => {
            let meta_csv = slice_of(&p, 0, lt);
            let xml = slice_of(&p, lt, p.len());
            decode_event(line, line_no, tenant.as_str(), ct, &meta_csv, &xml)
        },
        None => decode_csv(line, line_no, tenant.as_str(), ct, &p),
    }
}

} // verus!
