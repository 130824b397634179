use vstd::prelude::*;
use crate::error::StreamError;

verus! {

/// The bytes that open a metadata document, up to the version number:
/// `<metadata>`, a line break, four spaces and `<version>`.
pub open spec fn metadata_head() -> Seq<u8> {
    seq![
        60, 109, 101, 116, 97, 100, 97, 116, 97, 62, 10, 32, 32, 32, 32,
        60, 118, 101, 114, 115, 105, 111, 110, 62,
    ]
}

/// The bytes that close a metadata document, after the version number:
/// `</version>`, a line break and `</metadata>`.
pub open spec fn metadata_tail() -> Seq<u8> {
    seq![
        60, 47, 118, 101, 114, 115, 105, 111, 110, 62, 10, 60, 47, 109, 101,
        116, 97, 100, 97, 116, 97, 62,
    ]
}

/// The decimal digits of `n`, most significant first, with no leading zero.
pub open spec fn decimal_digits(n: nat) -> Seq<u8>
    decreases n,
{
    if n < 10 {
        seq![(48 + n) as u8]
    } else {
        decimal_digits(n / 10).push((48 + n % 10) as u8)
    }
}

/// The metadata document that records `version` as the committed version.
pub open spec fn metadata_document(version: u64) -> Seq<u8> {
    metadata_head() + decimal_digits(version as nat) + metadata_tail()
}

pub open spec fn is_digit(b: u8) -> bool {
    48 <= b <= 57
}

pub open spec fn all_digits(s: Seq<u8>) -> bool {
    forall|i: int| 0 <= i < s.len() ==> is_digit(#[trigger] s[i])
}

/// The number that the decimal digits `s` denote.
pub open spec fn digits_value(s: Seq<u8>) -> nat
    decreases s.len(),
{
    if s.len() == 0 {
        0
    } else {
        digits_value(s.drop_last()) * 10 + (s.last() - 48) as nat
    }
}

/// The digits of a version text: the text without one leading `+`.
pub open spec fn unsigned_digits(s: Seq<u8>) -> Seq<u8> {
    if s.len() > 0 && s[0] == 43u8 {
        s.drop_first()
    } else {
        s
    }
}

/// The unsigned 64-bit number that `s` spells in decimal, with an optional
/// leading `+`, if it spells one that fits.
pub open spec fn parsed_u64(s: Seq<u8>) -> Option<u64> {
    let d = unsigned_digits(s);
    if d.len() > 0 && all_digits(d) && digits_value(d) <= u64::MAX {
        Some(digits_value(d) as u64)
    } else {
        None
    }
}

/// The committed version that the text of a `<version>` element records:
/// the number it spells, or 0 when it spells none.
pub open spec fn version_of_text(s: Seq<u8>) -> u64 {
    match parsed_u64(s) {
        Some(v) => v,
        None => 0,
    }
}

/// Appends the bytes of `src` to `out`.
pub fn append_bytes(out: &mut Vec<u8>, src: &[u8])
    ensures
        final(out)@ == old(out)@ + src@,
{
    let mut i: usize = 0;
    while i < src.len()
        invariant
            i <= src@.len(),
            out@ == old(out)@ + src@.subrange(0, i as int),
        decreases src@.len() - i,
    {
        out.push(src[i]);
        i = i + 1;
        assert(src@.subrange(0, i as int) =~= src@.subrange(0, i - 1) .push(src@[i - 1]));
    }
    assert(src@.subrange(0, i as int) =~= src@);
}

/// Appends the decimal digits of `n` to `out`.
pub fn append_decimal(out: &mut Vec<u8>, n: u64)
    ensures
        final(out)@ == old(out)@ + decimal_digits(n as nat),
    decreases n,
{
    if n < 10 {
        out.push(48 + n as u8);
        assert(out@ =~= old(out)@ + decimal_digits(n as nat));
    } else {
        append_decimal(out, n / 10);
        out.push(48 + (n % 10) as u8);
        assert(out@ =~= old(out)@ + decimal_digits(n as nat));
    }
}

/// The metadata document recording `version` as committed.
pub fn render_metadata(version: u64) -> (r: Vec<u8>)
    ensures
        r@ == metadata_document(version),
{
    let head: Vec<u8> = vec![
        60, 109, 101, 116, 97, 100, 97, 116, 97, 62, 10, 32, 32, 32, 32,
        60, 118, 101, 114, 115, 105, 111, 110, 62,
    ];
    let tail: Vec<u8> = vec![
        60, 47, 118, 101, 114, 115, 105, 111, 110, 62, 10, 60, 47, 109, 101,
        116, 97, 100, 97, 116, 97, 62,
    ];
    assert(head@ =~= metadata_head());
    assert(tail@ =~= metadata_tail());
    let mut out: Vec<u8> = Vec::new();
    append_bytes(&mut out, head.as_slice());
    append_decimal(&mut out, version);
    append_bytes(&mut out, tail.as_slice());
    assert(out@ =~= metadata_document(version));
    out
}

proof fn lemma_digits_value_push(s: Seq<u8>, b: u8)
    ensures
        digits_value(s.push(b)) == digits_value(s) * 10 + (b - 48) as nat,
{
    assert(s.push(b).drop_last() =~= s);
}

/// The committed version recorded by the text of a `<version>` element: the
/// unsigned decimal number it spells, or 0 where it spells none.
pub fn parse_version_text(text: &[u8]) -> (r: u64)
    ensures
        r == version_of_text(text@),
{
    let n = text.len();
    let mut start: usize = 0;
    if n > 0 && text[0] == 43u8 {
        start = 1;
    }
    let ghost d = unsigned_digits(text@);
    assert(d =~= text@.subrange(start as int, n as int));
    if start >= n {
        return 0;
    }
    let mut acc: u64 = 0;
    let mut overflow = false;
    let mut i: usize = start;
    while i < n
        invariant
            start <= i <= n,
            n == text@.len(),
            d == unsigned_digits(text@),
            d =~= text@.subrange(start as int, n as int),
            all_digits(text@.subrange(start as int, i as int)),
            !overflow ==> acc as nat == digits_value(text@.subrange(start as int, i as int)),
            overflow ==> digits_value(text@.subrange(start as int, i as int)) > u64::MAX,
        decreases n - i,
    {
        let b = text[i];
        if b < 48 || b > 57 {
            assert(!all_digits(d)) by {
                assert(d[i - start] == b);
                assert(!is_digit(d[i - start]));
            }
            assert(parsed_u64(text@) is None);
            return 0;
        }
        let ghost prev = text@.subrange(start as int, i as int);
        assert(text@.subrange(start as int, i + 1) =~= prev.push(b));
        proof {
            lemma_digits_value_push(prev, b);
        }
        let digit = (b - 48) as u64;
        if !overflow {
            if acc > (u64::MAX - digit) / 10 {
                overflow = true;
                assert(acc * 10 + digit > u64::MAX) by (nonlinear_arith)
                    requires acc > (u64::MAX - digit) / 10, digit <= 9;
            } else {
                assert(acc * 10 + digit <= u64::MAX) by (nonlinear_arith)
                    requires acc <= (u64::MAX - digit) / 10, digit <= 9;
                acc = acc * 10 + digit;
            }
        }
        i = i + 1;
    }
    if overflow {
        0
    } else {
        acc
    }
}

/// Admission of a new version against the committed one: a version is
/// admitted only when nothing is committed or it is strictly newer.
pub fn check_version(requested: u64, committed: Option<u64>) -> (r: Result<(), StreamError>)
    ensures
        r == (match committed {
            Some(c) if requested <= c => Err(StreamError::StaleVersion { requested, committed: c }),
            _ => Ok(()),
        }),
{
    match committed {
        Some(c) => {
            if requested <= c {
                Err(StreamError::StaleVersion { requested, committed: c })
            } else {
                Ok(())
            }
        },
        None => Ok(()),
    }
}

/// An XML event of a metadata document, as far as admission needs it.
pub enum XmlEvent {
    /// A start tag, with its qualified name.
    Start(Seq<u8>),
    /// The end of the document.
    Eof,
    /// Anything else: text, end tags, comments, declarations.
    Other,
    /// The document is not well-formed at this point.
    Error,
}

/// An XML event as the reader hands it out.
pub enum MetadataEvent {
    Start(Vec<u8>),
    Eof,
    Other,
    Error,
}

impl View for MetadataEvent {
    type V = XmlEvent;

    open spec fn view(&self) -> XmlEvent {
        match self {
            MetadataEvent::Start(name) => XmlEvent::Start(name@),
            MetadataEvent::Eof => XmlEvent::Eof,
            MetadataEvent::Other => XmlEvent::Other,
            MetadataEvent::Error => XmlEvent::Error,
        }
    }
}

/// The event that quick-xml's reader over `doc` hands out after `k` events
/// have been read.
pub uninterp spec fn xml_event_of(doc: Seq<u8>, k: nat) -> XmlEvent;

/// The raw text up to the end tag `name` that quick-xml's reader over `doc`
/// returns after `k` events have been read, the last a start tag `name`;
/// `None` where the element is not closed.
pub uninterp spec fn xml_text_of(doc: Seq<u8>, k: nat, name: Seq<u8>) -> Option<Seq<u8>>;

#[verifier::external_type_specification]
#[verifier::external_body]
#[verifier::reject_recursive_types(R)]
pub struct ExXmlReader<R>(quick_xml::Reader<R>);

/// A quick-xml reader over a metadata document, with the document and the
/// number of events read so far.
pub struct MetadataReader<'a> {
    reader: quick_xml::Reader<&'a [u8]>,
    doc: Ghost<Seq<u8>>,
    events: Ghost<nat>,
}

impl<'a> MetadataReader<'a> {
    pub closed spec fn doc(&self) -> Seq<u8> {
        self.doc@
    }

    pub closed spec fn events(&self) -> nat {
        self.events@
    }

    /// A reader at the start of `doc`.
    pub fn new(doc: &'a [u8]) -> (r: Self)
        ensures
            r.doc() == doc@,
            r.events() == 0,
    {
        MetadataReader { reader: xml_reader(doc), doc: Ghost(doc@), events: Ghost(0) }
    }

    /// The next event of the document.
    pub fn next(&mut self) -> (e: MetadataEvent)
        ensures
            e@ == xml_event_of(old(self).doc(), old(self).events()),
            final(self).doc() == old(self).doc(),
            final(self).events() == old(self).events() + 1,
    {
        let e = next_event(self);
        self.events = Ghost(self.events@ + 1);
        e
    }
}

/// Relies on quick_xml::Reader::from_reader: a reader at the start of `doc`.
#[verifier::external_body]
fn xml_reader<'a>(doc: &'a [u8]) -> quick_xml::Reader<&'a [u8]> {
    quick_xml::Reader::from_reader(doc)
}

/// Relies on quick_xml::Reader::read_event: on a byte slice the next event
/// depends on the document and the events read before it alone.
#[verifier::external_body]
fn next_event(r: &mut MetadataReader) -> (e: MetadataEvent)
    ensures
        e@ == xml_event_of(old(r).doc(), old(r).events()),
        final(r).doc() == old(r).doc(),
        final(r).events() == old(r).events(),
{
    match r.reader.read_event() {
        Ok(quick_xml::events::Event::Start(e)) => MetadataEvent::Start(e.name().as_ref().to_vec()),
        Ok(quick_xml::events::Event::Eof) => MetadataEvent::Eof,
        Ok(_) => MetadataEvent::Other,
        Err(_) => MetadataEvent::Error,
    }
}

/// Relies on quick_xml::Reader::read_text: the raw text up to the end tag
/// `name` closing the element just started, which depends on the document
/// and the events read before it alone; `None` where there is none.
#[verifier::external_body]
fn element_text(r: MetadataReader, name: &[u8]) -> (t: Option<Vec<u8>>)
    ensures
        match t {
            Some(v) => xml_text_of(r.doc(), r.events(), name@) == Some(v@),
            None => xml_text_of(r.doc(), r.events(), name@) is None,
        },
{
    let mut reader = r.reader;
    match reader.read_text(quick_xml::name::QName(name)) {
        Ok(text) => Some(text.as_bytes().to_vec()),
        Err(_) => None,
    }
}

/// The name of the element that records the committed version.
pub open spec fn version_tag() -> Seq<u8> {
    seq![118u8, 101u8, 114u8, 115u8, 105u8, 111u8, 110u8]
}

fn is_version_tag(name: &Vec<u8>) -> (r: bool)
    ensures
        r == (name@ == version_tag()),
{
    let tag: Vec<u8> = vec![118u8, 101u8, 114u8, 115u8, 105u8, 111u8, 110u8];
    assert(tag@ =~= version_tag());
    if name.len() != tag.len() {
        return false;
    }
    let mut i: usize = 0;
    while i < tag.len()
        invariant
            i <= tag@.len(),
            name@.len() == tag@.len(),
            tag@ == version_tag(),
            forall|j: int| 0 <= j < i ==> name@[j] == tag@[j],
        decreases tag@.len() - i,
    {
        if name[i] != tag[i] {
            assert(name@[i as int] != version_tag()[i as int]);
            return false;
        }
        i = i + 1;
    }
    assert(name@ =~= tag@);
    true
}

/// What the events of `doc` from the `k`-th on, at most `fuel` of them,
/// record: the version in the first `<version>` element (0 where its text is
/// no number); nothing where the document ends or stops being well-formed
/// first; `MalformedMetadata` where that element is not closed.
pub open spec fn scan_version(doc: Seq<u8>, k: nat, fuel: nat) -> Result<Option<u64>, StreamError>
    decreases fuel,
{
    if fuel == 0 {
        Ok(None)
    } else {
        match xml_event_of(doc, k) {
            XmlEvent::Start(name) => {
                if name == version_tag() {
                    match xml_text_of(doc, k + 1, name) {
                        Some(text) => Ok(Some(version_of_text(text))),
                        None => Err(StreamError::MalformedMetadata),
                    }
                } else {
                    scan_version(doc, k + 1, (fuel - 1) as nat)
                }
            },
            XmlEvent::Other => scan_version(doc, k + 1, (fuel - 1) as nat),
            XmlEvent::Eof => Ok(None),
            XmlEvent::Error => Ok(None),
        }
    }
}

/// The committed version that a metadata document records. Every event
/// before the end consumes input, so at most as many events as the document
/// has bytes are looked at; an empty document records nothing.
pub open spec fn recorded_version(doc: Seq<u8>) -> Result<Option<u64>, StreamError> {
    scan_version(doc, 0, doc.len())
}

/// The committed version that a metadata document records: the number in
/// its first `<version>` element (0 where that text is no number), or
/// `None` where the document has no such element.
pub fn committed_version(doc: &[u8]) -> (r: Result<Option<u64>, StreamError>)
    ensures
        r == recorded_version(doc@),
{
    let mut reader = MetadataReader::new(doc);
    let mut steps: usize = 0;
    while steps < doc.len()
        invariant
            steps <= doc@.len(),
            reader.doc() == doc@,
            reader.events() == steps,
            recorded_version(doc@) == scan_version(doc@, steps as nat, (doc@.len() - steps) as nat),
        decreases doc@.len() - steps,
    {
        match reader.next() {
            MetadataEvent::Start(name) => {
                if is_version_tag(&name) {
                    match element_text(reader, name.as_slice()) {
                        Some(text) => {
                            let v = parse_version_text(text.as_slice());
                            return Ok(Some(v));
                        },
                        None => {
                            return Err(StreamError::MalformedMetadata);
                        },
                    }
                }
            },
            MetadataEvent::Eof => {
                return Ok(None);
            },
            MetadataEvent::Other => {},
            MetadataEvent::Error => {
                return Ok(None);
            },
        }
        steps = steps + 1;
    }
    Ok(None)
}

/// Admission of `requested` against a metadata document: the committed
/// version it records, if any, must be older.
pub fn check_metadata(requested: u64, doc: &[u8]) -> (r: Result<(), StreamError>)
    ensures
        r == match recorded_version(doc@) {
            Ok(c) => match c {
                Some(k) if requested <= k => Err(StreamError::StaleVersion { requested, committed: k }),
                _ => Ok(()),
            },
            Err(e) => Err(e),
        },
{
    let committed = committed_version(doc)?;
    check_version(requested, committed)
}

} // verus!
