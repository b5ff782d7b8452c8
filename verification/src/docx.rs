//! Text extraction from `.docx` files: the `word/document.xml` entry of the
//! archive, read as a stream of XML events, keeps the text of `w:t` runs and
//! turns `w:tab` and `w:br` into a tab and a line break.
use vstd::prelude::*;
use vstd::string::*;
use quick_xml::events::Event;
use quick_xml::Reader;
use crate::error::{DocqError, ParseError};
use crate::models::DocumentSource;
use crate::reader::DocxReader;
use crate::merge::text_bytes;
use crate::text::{chars_of, is_blank, is_blank_range, str_equal, utf8_len};

verus! {

/// One XML event, as far as extraction cares.
#[derive(Debug, Clone)]
pub enum XmlEvent {
    /// A start tag, with its qualified name.
    Start(String),
    /// An end tag, with its qualified name.
    End(String),
    /// Character data between tags (line ends normalised as XML 1.0 does).
    Text(String),
    /// A reference `&name;`, with the text between `&` and `;`.
    Reference(String),
    /// The end of the document.
    Eof,
    /// Any other event (empty tags, comments, declarations, ...).
    Other,
}

/// `quick_xml::Reader` over a byte slice, carried through unchanged.
#[verifier::external_type_specification]
#[verifier::external_body]
#[verifier::reject_recursive_types(R)]
pub struct ExXmlReader<R>(Reader<R>);

/// What the `k`-th call of `quick_xml::Reader::read_event` (counting from 0)
/// gives on a reader made by `Reader::from_str(xml)`, converted as
/// `next_xml_event` converts it.
pub uninterp spec fn xml_event_at(xml: Seq<char>, k: nat) -> Result<XmlEvent, Seq<char>>;

/// A `quick_xml` reader over a document, with the document's text and the
/// number of events read from it so far.
pub struct XmlStream<'a> {
    reader: Reader<&'a [u8]>,
    xml: Ghost<Seq<char>>,
    reads: Ghost<nat>,
}

impl<'a> XmlStream<'a> {
    /// The document the stream reads.
    pub closed spec fn source(&self) -> Seq<char> {
        self.xml@
    }

    /// How many events have been read.
    pub closed spec fn position(&self) -> nat {
        self.reads@
    }
}

/// Calls `quick_xml::Reader::from_str` on `xml`: a stream over `xml` of which
/// nothing has been read yet.
#[verifier::external_body]
fn xml_reader<'a>(xml: &'a str) -> (r: XmlStream<'a>)
    ensures
        r.source() == xml@,
        r.position() == 0,
{
    XmlStream { reader: Reader::from_str(xml), xml: Ghost(xml@), reads: Ghost(0) }
}

/// Calls `quick_xml::Reader::read_event` and converts the event: tags keep
/// their names, text its XML 1.0 content, references their name, other kinds
/// become `Other`, and an error its `to_string`. Trusted to give the event
/// that `xml_event_at` names for the stream's document and position; the
/// position advances by one.
#[verifier::external_body]
fn next_xml_event(stream: &mut XmlStream) -> (r: Result<XmlEvent, String>)
    ensures
        final(stream).source() == old(stream).source(),
        final(stream).position() == old(stream).position() + 1,
        match r {
            Ok(e) => xml_event_at(old(stream).source(), old(stream).position()) == Ok::<
                XmlEvent,
                Seq<char>,
            >(e),
            Err(m) => xml_event_at(old(stream).source(), old(stream).position()) == Err::<
                XmlEvent,
                Seq<char>,
            >(m@),
        },
{
    match stream.reader.read_event() {
        Ok(Event::Start(e)) => Ok(XmlEvent::Start(e.name().as_ref().to_string())),
        Ok(Event::End(e)) => Ok(XmlEvent::End(e.name().as_ref().to_string())),
        Ok(Event::Text(e)) => Ok(XmlEvent::Text(e.xml10_content().into_owned())),
        Ok(Event::GeneralRef(e)) => Ok(XmlEvent::Reference(e.into_inner().into_owned())),
        Ok(Event::Eof) => Ok(XmlEvent::Eof),
        Ok(_) => Ok(XmlEvent::Other),
        Err(e) => Err(e.to_string()),
    }
}

/// The five predefined XML entities.
pub open spec fn xml_entity(name: Seq<char>) -> Option<Seq<char>> {
    if name == "lt"@ {
        Some("<"@)
    } else if name == "gt"@ {
        Some(">"@)
    } else if name == "amp"@ {
        Some("&"@)
    } else if name == "apos"@ {
        Some("'"@)
    } else if name == "quot"@ {
        Some("\""@)
    } else {
        None
    }
}

/// Calls `quick_xml::escape::resolve_predefined_entity` (the crate is built
/// without HTML entities): the replacement text of `lt`, `gt`, `amp`, `apos`
/// and `quot`, nothing for any other name.
#[verifier::external_body]
fn predefined_entity(name: &str) -> (r: Option<String>)
    ensures
        r is Some <==> xml_entity(name@) is Some,
        r is Some ==> r->0@ == xml_entity(name@)->0,
{
    quick_xml::escape::resolve_predefined_entity(name).map(|s| s.to_string())
}

/// The value of a decimal digit, or (for `radix` 16) of a hexadecimal digit
/// in either case; -1 for any other character.
pub open spec fn digit_value(c: char, radix: int) -> int {
    let u = c as int;
    if 0x30 <= u <= 0x39 {
        u - 0x30
    } else if radix == 16 && 0x61 <= u <= 0x66 {
        u - 0x61 + 10
    } else if radix == 16 && 0x41 <= u <= 0x46 {
        u - 0x41 + 10
    } else {
        -1
    }
}

/// The number written by the digits `s` in base `radix`.
pub open spec fn digits_value(s: Seq<char>, radix: int) -> int
    decreases s.len(),
{
    if s.len() == 0 {
        0
    } else {
        digits_value(s.drop_last(), radix) * radix + digit_value(s.last(), radix)
    }
}

/// The code point a character reference names: `#` then decimal digits, or
/// `#x` then hexadecimal digits (at least one digit, no sign); `None` for any
/// other name.
pub open spec fn char_ref_code(name: Seq<char>) -> Option<int> {
    if name.len() == 0 || name[0] != '#' {
        None
    } else {
        let num = name.drop_first();
        let hex = num.len() > 0 && num[0] == 'x';
        let digits = if hex { num.drop_first() } else { num };
        let radix: int = if hex { 16 } else { 10 };
        if digits.len() > 0 && forall|i: int| 0 <= i < digits.len() ==> digit_value(#[trigger] digits[i], radix) >= 0 {
            Some(digits_value(digits, radix))
        } else {
            None
        }
    }
}

/// A code point that a character reference may name: not zero, and a
/// Unicode scalar value.
pub open spec fn char_code_ok(v: int) -> bool {
    &&& 0 < v <= 0x10FFFF
    &&& !(0xD800 <= v <= 0xDFFF)
}

/// What `BytesRef::resolve_char_ref` makes of a reference name: the
/// character of a `#`-reference, nothing for other names, or an error text.
pub uninterp spec fn xml_char_ref(name: Seq<char>) -> Result<Option<char>, Seq<char>>;

/// Calls `quick_xml::events::BytesRef::resolve_char_ref` on the reference
/// `name`; an error becomes its `to_string`. Trusted to give what
/// `xml_char_ref` names. As its source shows, only names starting with `#`
/// are character references; such a reference resolves exactly when it
/// writes a non-zero Unicode scalar value in decimal or (after `x`) in
/// hexadecimal, to the character of that value.
#[verifier::external_body]
fn char_reference(name: &str) -> (r: Result<Option<char>, String>)
    ensures
        r is Ok <==> xml_char_ref(name@) is Ok,
        r is Ok ==> xml_char_ref(name@)->Ok_0 == r->Ok_0,
        r is Err ==> xml_char_ref(name@)->Err_0 == r->Err_0@,
        (name@.len() == 0 || name@[0] != '#') ==> r is Ok && r->Ok_0 is None,
        name@.len() > 0 && name@[0] == '#' ==> (r is Ok <==> (char_ref_code(name@) is Some
            && char_code_ok(char_ref_code(name@)->0))),
        r is Ok && r->Ok_0 is Some ==> char_ref_code(name@) == Some(r->Ok_0->0 as int),
{
    quick_xml::events::BytesRef::new(name).resolve_char_ref().map_err(|e| e.to_string())
}

/// The text a reference stands for, or why it cannot be resolved.
pub open spec fn reference_text(name: Seq<char>) -> Result<Seq<char>, Seq<char>> {
    match xml_char_ref(name) {
        Ok(Some(c)) => Ok(seq![c]),
        Ok(None) => match xml_entity(name) {
            Some(t) => Ok(t),
            None => Err("unrecognized entity `"@ + name + "`"@),
        },
        Err(e) => Err(e),
    }
}

fn resolve_reference(name: &str) -> (r: Result<String, String>)
    ensures
        r is Ok <==> reference_text(name@) is Ok,
        r is Ok ==> r->Ok_0@ == reference_text(name@)->Ok_0,
        r is Err ==> r->Err_0@ == reference_text(name@)->Err_0,
{
    match char_reference(name) {
        Ok(Some(c)) => {
            let mut s = String::new();
            s.push(c);
            Ok(s)
        },
        Ok(None) => match predefined_entity(name) {
            Some(t) => Ok(t),
            None => {
                let mut m = String::from_str("unrecognized entity `");
                m.append(name);
                m.append("`");
                Err(m)
            },
        },
        Err(e) => Err(e),
    }
}

/// Extraction over a prefix of events: the text so far and whether a `w:t`
/// run is open, or the message of an unresolvable reference inside a run.
pub open spec fn docx_fold(evs: Seq<XmlEvent>) -> Result<(Seq<char>, bool), Seq<char>>
    decreases evs.len(),
{
    if evs.len() == 0 {
        Ok((Seq::empty(), false))
    } else {
        match docx_fold(evs.drop_last()) {
            Err(m) => Err(m),
            Ok((t, inside)) => match evs.last() {
                XmlEvent::Start(n) => if n@ == "w:t"@ {
                    Ok((t, true))
                } else if n@ == "w:tab"@ {
                    Ok((t.push('\t'), inside))
                } else if n@ == "w:br"@ {
                    Ok((t.push('\n'), inside))
                } else {
                    Ok((t, inside))
                },
                XmlEvent::Text(s) => if inside {
                    Ok((t + s@, inside))
                } else {
                    Ok((t, inside))
                },
                XmlEvent::Reference(r) => if inside {
                    match reference_text(r@) {
                        Ok(x) => Ok((t + x, inside)),
                        Err(e) => Err(e),
                    }
                } else {
                    Ok((t, inside))
                },
                XmlEvent::End(n) => if n@ == "w:t"@ {
                    Ok((t, false))
                } else {
                    Ok((t, inside))
                },
                _ => Ok((t, inside)),
            },
        }
    }
}

/// The text of a run of events, or the parse error of an unresolvable
/// reference (`unescape docx text: <why>`).
pub fn docx_text(events: &Vec<XmlEvent>) -> (r: Result<String, DocqError>)
    ensures
        docx_fold(events@) is Ok ==> r is Ok && r->Ok_0@ == docx_fold(events@)->Ok_0.0,
        docx_fold(events@) is Err ==> r is Err && r->Err_0 is Parse && r->Err_0.detail()
            == "unescape docx text: "@ + docx_fold(events@)->Err_0,
{
    let mut text = String::new();
    let mut inside = false;
    let mut i: usize = 0;
    while i < events.len()
        invariant
            i <= events.len(),
            docx_fold(events@.take(i as int)) == Ok::<(Seq<char>, bool), Seq<char>>(
                (text@, inside),
            ),
        decreases events.len() - i,
    {
        let ghost pre = events@.take(i as int);
        assert(events@.take(i + 1).drop_last() =~= pre);
        assert(events@.take(i + 1).last() == events@[i as int]);
        match &events[i] {
            XmlEvent::Start(n) => {
                if str_equal(n.as_str(), "w:t") {
                    inside = true;
                } else if str_equal(n.as_str(), "w:tab") {
                    text.push('\t');
                } else if str_equal(n.as_str(), "w:br") {
                    text.push('\n');
                }
            },
            XmlEvent::Text(s) => {
                if inside {
                    text.append(s.as_str());
                }
            },
            XmlEvent::Reference(name) => {
                if inside {
                    match resolve_reference(name.as_str()) {
                        Ok(x) => {
                            text.append(x.as_str());
                        },
                        Err(why) => {
                            proof {
                                lemma_fold_error_sticks(events@, i as int + 1);
                            }
                            let mut m = String::from_str("unescape docx text: ");
                            m.append(why.as_str());
                            return Err(DocqError::Parse(ParseError::Other(m)));
                        },
                    }
                }
            },
            XmlEvent::End(n) => {
                if str_equal(n.as_str(), "w:t") {
                    inside = false;
                }
            },
            _ => {},
        }
        i += 1;
    }
    assert(events@.take(events.len() as int) =~= events@);
    Ok(text)
}

/// Once extraction fails, it stays failed with the same message.
proof fn lemma_fold_error_sticks(evs: Seq<XmlEvent>, n: int)
    requires
        0 <= n <= evs.len(),
        docx_fold(evs.take(n)) is Err,
    ensures
        docx_fold(evs) == docx_fold(evs.take(n)),
    decreases evs.len() - n,
{
    if n < evs.len() {
        assert(evs.take(n + 1).drop_last() =~= evs.take(n));
        lemma_fold_error_sticks(evs, n + 1);
    } else {
        assert(evs.take(n) =~= evs);
    }
}

/// The events read from `xml` from read `k` on, at most `budget` more reads
/// after this one: up to the end of the document (not included) or the first
/// parse error, whose text is returned beside the events before it; running
/// out of reads before the end is reported as an error too.
pub open spec fn events_from(xml: Seq<char>, k: nat, budget: nat) -> (Seq<XmlEvent>, Option<Seq<char>>)
    decreases budget,
{
    match xml_event_at(xml, k) {
        Ok(XmlEvent::Eof) => (Seq::empty(), None),
        Ok(ev) => if budget == 0 {
            (seq![ev], Some("more events than the document has bytes"@))
        } else {
            let rest = events_from(xml, k + 1, (budget - 1) as nat);
            (seq![ev] + rest.0, rest.1)
        },
        Err(m) => (Seq::empty(), Some(m)),
    }
}

/// The events of a document of `n` bytes, read with a budget of `n`.
pub open spec fn xml_events(xml: Seq<char>, n: nat) -> (Seq<XmlEvent>, Option<Seq<char>>) {
    events_from(xml, 0, n)
}

proof fn lemma_events_from_no_eof(xml: Seq<char>, k: nat, budget: nat)
    ensures
        forall|i: int|
            0 <= i < events_from(xml, k, budget).0.len() ==> !(#[trigger] events_from(
                xml,
                k,
                budget,
            ).0[i] is Eof),
    decreases budget,
{
    if budget > 0 {
        lemma_events_from_no_eof(xml, k + 1, (budget - 1) as nat);
        match xml_event_at(xml, k) {
            Ok(XmlEvent::Eof) => {},
            Ok(ev) => {
                let rest = events_from(xml, k + 1, (budget - 1) as nat);
                assert forall|i: int| 0 <= i < events_from(xml, k, budget).0.len() implies !(
                #[trigger] events_from(xml, k, budget).0[i] is Eof) by {
                    if i > 0 {
                        assert(events_from(xml, k, budget).0[i] == rest.0[i - 1]);
                    }
                }
            },
            Err(_) => {},
        }
    }
}

/// Optional text as its view.
pub open spec fn opt_view(o: Option<String>) -> Option<Seq<char>> {
    match o {
        Some(e) => Some(e@),
        None => None,
    }
}

/// Read the events of a document up to its end or the first parse error
/// (whose text is returned beside the events read before it). quick-xml
/// consumes input with every event before the end, so a document of `n`
/// bytes has at most `n` events before `Eof`; should reading reach `n + 1`
/// events without the end, it stops and reports that as a parse error.
pub fn read_xml_events(xml: &str) -> (r: (Vec<XmlEvent>, Option<String>))
    ensures
        (r.0@, opt_view(r.1)) == xml_events(xml@, xml.spec_bytes().len()),
        forall|i: int| 0 <= i < r.0@.len() ==> !(#[trigger] r.0@[i] is Eof),
{
    let mut stream = xml_reader(xml);
    let mut events: Vec<XmlEvent> = Vec::new();
    let mut budget: usize = utf8_len(xml);
    let ghost whole = xml_events(xml@, xml.spec_bytes().len());
    proof {
        lemma_events_from_no_eof(xml@, 0, xml.spec_bytes().len());
    }
    loop
        invariant
            stream.source() == xml@,
            whole == xml_events(xml@, xml.spec_bytes().len()),
            whole.0 == events@ + events_from(xml@, stream.position(), budget as nat).0,
            whole.1 == events_from(xml@, stream.position(), budget as nat).1,
            forall|i: int| 0 <= i < whole.0.len() ==> !(#[trigger] whole.0[i] is Eof),
        decreases budget,
    {
        let ghost k = stream.position();
        let ghost rest = events_from(xml@, k, budget as nat);
        match next_xml_event(&mut stream) {
            Ok(XmlEvent::Eof) => {
                assert(events@ =~= events@ + rest.0);
                return (events, None);
            },
            Ok(ev) => {
                let ghost before = events@;
                events.push(ev);
                if budget == 0 {
                    assert(whole.0 =~= events@);
                    return (events, Some(String::from_str("more events than the document has bytes")));
                }
                assert(rest.0 == seq![ev] + events_from(xml@, k + 1, (budget - 1) as nat).0);
                assert(whole.0 =~= events@ + events_from(xml@, k + 1, (budget - 1) as nat).0);
            },
            Err(e) => {
                assert(events@ =~= events@ + rest.0);
                return (events, Some(e));
            },
        }
        budget -= 1;
    }
}

/// The outcome of extracting the text of a document read as `evs`, parsing
/// having stopped with `parse_error` (if any): an unresolvable reference is
/// reported first, then the parse error.
pub open spec fn extraction(evs: Seq<XmlEvent>, parse_error: Option<Seq<char>>) -> Result<
    Seq<char>,
    Seq<char>,
> {
    match docx_fold(evs) {
        Err(m) => Err("unescape docx text: "@ + m),
        Ok((t, _)) => match parse_error {
            Some(e) => Err("parse document.xml: "@ + e),
            None => Ok(t),
        },
    }
}

/// A result as text or error detail.
pub open spec fn outcome(r: Result<String, DocqError>) -> Result<Seq<char>, Seq<char>> {
    match r {
        Ok(s) => Ok(s@),
        Err(e) => Err(e.detail()),
    }
}

/// Combine the events read from a document with the parse error that
/// stopped reading, if any.
pub fn text_of_events(events: &Vec<XmlEvent>, parse_error: Option<String>) -> (r: Result<
    String,
    DocqError,
>)
    ensures
        outcome(r) == extraction(
            events@,
            match parse_error {
                Some(e) => Some(e@),
                None => None,
            },
        ),
        r is Err ==> r->Err_0 is Parse,
{
    match docx_text(events) {
        Err(e) => Err(e),
        Ok(t) => match parse_error {
            Some(e) => {
                let mut m = String::from_str("parse document.xml: ");
                m.append(e.as_str());
                Err(DocqError::Parse(ParseError::Other(m)))
            },
            None => Ok(t),
        },
    }
}

/// The outcome of extracting the text of the document `xml` of `n` bytes.
pub open spec fn xml_extraction(xml: Seq<char>, n: nat) -> Result<Seq<char>, Seq<char>> {
    extraction(xml_events(xml, n).0, xml_events(xml, n).1)
}

/// The text of a `word/document.xml`: the runs' text with tabs and breaks.
pub fn extract_text(xml: &str) -> (r: Result<String, DocqError>)
    ensures
        outcome(r) == xml_extraction(xml@, xml.spec_bytes().len()),
        r is Err ==> r->Err_0 is Parse,
{
    let (events, parse_error) = read_xml_events(xml);
    let ghost pe = opt_view(parse_error);
    let r = text_of_events(&events, parse_error);
    assert(extraction(events@, pe) == outcome(r));
    r
}

/// The step of opening a `.docx` archive that failed.
#[derive(Debug, Clone, Copy, PartialEq, Eq, Structural)]
pub enum ZipStage {
    /// The bytes are not a zip archive.
    Open,
    /// The archive has no such entry.
    Find,
    /// The entry could not be read as UTF-8 text.
    Read,
}

/// What the `zip` crate makes of reading entry `entry` of the archive
/// `archive` as text: the text, or the failing step and the error's text.
pub uninterp spec fn zip_entry_text(archive: Seq<u8>, entry: Seq<char>) -> Result<
    Seq<char>,
    (ZipStage, Seq<char>),
>;

/// Opens `archive` with `zip::ZipArchive::new`, finds `entry` with
/// `ZipArchive::by_name` and reads it with `Read::read_to_string`; a failure
/// is tagged with its step and rendered with `to_string`. Trusted to give
/// what `zip_entry_text` names.
#[verifier::external_body]
fn read_zip_entry(archive: &[u8], entry: &str) -> (r: Result<String, (ZipStage, String)>)
    ensures
        r is Ok <==> zip_entry_text(archive@, entry@) is Ok,
        r is Ok ==> zip_entry_text(archive@, entry@)->Ok_0 == r->Ok_0@,
        r is Err ==> zip_entry_text(archive@, entry@)->Err_0 == (r->Err_0.0, r->Err_0.1@),
{
    let mut zip = match zip::ZipArchive::new(std::io::Cursor::new(archive)) {
        Ok(z) => z,
        Err(e) => return Err((ZipStage::Open, e.to_string())),
    };
    let mut file = match zip.by_name(entry) {
        Ok(f) => f,
        Err(e) => return Err((ZipStage::Find, e.to_string())),
    };
    let mut text = String::new();
    match std::io::Read::read_to_string(&mut file, &mut text) {
        Ok(_) => Ok(text),
        Err(e) => Err((ZipStage::Read, e.to_string())),
    }
}

/// The message for a failed archive step on the file at `path`.
pub open spec fn archive_error(stage: ZipStage, path: Seq<char>, why: Seq<char>) -> Seq<char> {
    match stage {
        ZipStage::Open => "open docx "@ + path + ": "@ + why,
        ZipStage::Find => "document.xml missing in "@ + path + ": "@ + why,
        ZipStage::Read => "read document.xml in "@ + path + ": "@ + why,
    }
}

impl DocxReader {
    /// Extract the document at `path` from the bytes of its file: `None`
    /// when its text is blank; an archive failure, an unresolvable reference
    /// or a malformed `document.xml` is a parse error.
    pub fn read_bytes(&self, path: &str, bytes: &[u8]) -> (r: Result<Option<DocumentSource>, DocqError>)
        ensures
            zip_entry_text(bytes@, "word/document.xml"@) matches Err((st, why)) ==> r is Err
                && r->Err_0 is Parse && r->Err_0.detail() == archive_error(st, path@, why),
            zip_entry_text(bytes@, "word/document.xml"@) matches Ok(x) ==> match xml_extraction(
                x,
                text_bytes(x) as nat,
            ) {
                Err(m) => r is Err && r->Err_0 is Parse && r->Err_0.detail() == m,
                Ok(t) => if is_blank(t) {
                    r == Ok::<Option<DocumentSource>, DocqError>(None)
                } else {
                    r is Ok && r->Ok_0 is Some && r->Ok_0->0.content@ == t && r->Ok_0->0.path@
                        == path@
                },
            },
            r is Err ==> r->Err_0 is Parse,
    {
        let xml = match read_zip_entry(bytes, "word/document.xml") {
            Ok(x) => x,
            Err((stage, why)) => {
                let mut m = match stage {
                    ZipStage::Open => String::from_str("open docx "),
                    ZipStage::Find => String::from_str("document.xml missing in "),
                    ZipStage::Read => String::from_str("read document.xml in "),
                };
                m.append(path);
                m.append(": ");
                m.append(why.as_str());
                return Err(DocqError::Parse(ParseError::Other(m)));
            },
        };
        let text = match extract_text(xml.as_str()) {
            Ok(t) => t,
            Err(e) => return Err(e),
        };
        let v = chars_of(text.as_str());
        let blank = is_blank_range(&v, 0, v.len());
        assert(v@.subrange(0, v@.len() as int) =~= v@);
        if blank {
            Ok(None)
        } else {
            Ok(Some(DocumentSource { path: path.to_string(), content: text }))
        }
    }
}

} // verus!
