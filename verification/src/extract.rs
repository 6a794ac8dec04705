//! Text extraction from the supported file formats: the file-type rules, page
//! splitting of PDF text, paragraph assembly of Word documents, text runs of
//! markup, and plain text.
use vstd::prelude::*;
use std::io::Read;
use vstd::utf8::{decode_utf8, valid_utf8};
use crate::chunking::{section_views, ParsedSection, SectionView};
use crate::text::{
    ascii_lowercase, chars_of, clean, clean_chars, clean_text, copy_range, join_with, str_eq,
    string_from_chars, to_ascii_lowercase,
};

verus! {

/// What `Path::file_name` gives for a path: its last component, if it has one.
pub uninterp spec fn spec_file_name(path: Seq<char>) -> Option<Seq<char>>;

/// `Path::file_name` on the path, as a string. Claimed: the result is the name the
/// standard library gives, as a function of the path alone.
#[verifier::external_body]
pub(crate) fn file_name(path: &str) -> (r: Option<String>)
    ensures
        match r {
            None => spec_file_name(path@) is None,
            Some(n) => spec_file_name(path@) == Some(n@),
        },
{
    std::path::Path::new(path).file_name().and_then(|n| n.to_str()).map(|n| n.to_owned())
}

/// Position of the last `.` in `name[0..i)`, or -1 when there is none.
pub open spec fn last_dot(name: Seq<char>, i: int) -> int
    decreases i,
{
    if i <= 0 {
        -1
    } else if name[i - 1] == '.' {
        i - 1
    } else {
        last_dot(name, i - 1)
    }
}

/// The extension of a file name as `Path::extension` defines it: what follows the
/// last dot, unless there is no dot or the only dot starts the name.
pub open spec fn name_extension(name: Seq<char>) -> Option<Seq<char>> {
    let d = last_dot(name, name.len() as int);
    if d <= 0 {
        None
    } else {
        Some(name.subrange(d + 1, name.len() as int))
    }
}

/// The lower-cased extension of a path's file name, or empty when it has none.
pub open spec fn spec_extension(path: Seq<char>) -> Seq<char> {
    match spec_file_name(path) {
        None => Seq::empty(),
        Some(name) => match name_extension(name) {
            None => Seq::empty(),
            Some(e) => ascii_lowercase(e),
        },
    }
}

/// The file type of a path: its extension, lower-cased, or empty.
pub fn extension(path: &str) -> (r: String)
    ensures
        r@ == spec_extension(path@),
{
    match file_name(path) {
        None => String::new(),
        Some(name) => {
            let chars = chars_of(name.as_str());
            let n = chars.len();
            let mut i = n;
            while i > 0 && chars[i - 1] != '.'
                invariant
                    i <= n == chars@.len(),
                    last_dot(chars@, n as int) == last_dot(chars@, i as int),
                decreases i,
            {
                i -= 1;
            }
            if i <= 1 {
                String::new()
            } else {
                let ext = string_from_chars(&copy_range(&chars, i, n));
                to_ascii_lowercase(ext.as_str())
            }
        },
    }
}

/// The name shown for a file: its file name, or `file` when it has none.
pub open spec fn spec_display_name(path: Seq<char>) -> Seq<char> {
    match spec_file_name(path) {
        Some(n) => n,
        None => "file"@,
    }
}

/// The name shown for a file (see `spec_display_name`).
pub fn display_name(path: &str) -> (r: String)
    ensures
        r@ == spec_display_name(path@),
{
    match file_name(path) {
        Some(n) => n,
        None => "file".to_owned(),
    }
}

/// How a file's text is read.
#[derive(Debug, Clone, Copy, PartialEq, Eq, Structural)]
pub enum SourceFormat {
    Pdf,
    Docx,
    Markup,
    Plain,
}

/// The reader for a lower-cased extension: PDF, Word, markup, or plain text.
pub open spec fn spec_source_format(ext: Seq<char>) -> SourceFormat {
    if ext == "pdf"@ {
        SourceFormat::Pdf
    } else if ext == "docx"@ {
        SourceFormat::Docx
    } else if ext == "html"@ || ext == "htm"@ || ext == "xml"@ {
        SourceFormat::Markup
    } else {
        SourceFormat::Plain
    }
}

/// The reader used for a file type.
pub fn source_format(ext: &str) -> (r: SourceFormat)
    ensures
        r == spec_source_format(ext@),
{
    if str_eq(ext, "pdf") {
        SourceFormat::Pdf
    } else if str_eq(ext, "docx") {
        SourceFormat::Docx
    } else if str_eq(ext, "html") || str_eq(ext, "htm") || str_eq(ext, "xml") {
        SourceFormat::Markup
    } else {
        SourceFormat::Plain
    }
}

/// Why a file's text could not be extracted. The archive, markup and decoding
/// failures carry the text of the reader's own error.
#[derive(Debug, Clone, PartialEq, Eq)]
pub enum ExtractError {
    PdfUnreadable,
    ArchiveUnreadable(String),
    XmlMalformed(String),
    TextUndecodable(String),
    NotUtf8,
}

/// The plain content of an extraction failure.
pub enum ExtractErrorView {
    PdfUnreadable,
    ArchiveUnreadable(Seq<char>),
    XmlMalformed(Seq<char>),
    TextUndecodable(Seq<char>),
    NotUtf8,
}

impl View for ExtractError {
    type V = ExtractErrorView;

    open spec fn view(&self) -> ExtractErrorView {
        match self {
            ExtractError::PdfUnreadable => ExtractErrorView::PdfUnreadable,
            ExtractError::ArchiveUnreadable(t) => ExtractErrorView::ArchiveUnreadable(t@),
            ExtractError::XmlMalformed(t) => ExtractErrorView::XmlMalformed(t@),
            ExtractError::TextUndecodable(t) => ExtractErrorView::TextUndecodable(t@),
            ExtractError::NotUtf8 => ExtractErrorView::NotUtf8,
        }
    }
}

impl ExtractErrorView {
    /// The text recorded for each extraction failure: the reader's own error
    /// text where there is one.
    pub open spec fn spec_message(self) -> Seq<char> {
        match self {
            ExtractErrorView::PdfUnreadable => "could not read PDF"@,
            ExtractErrorView::ArchiveUnreadable(t) => t,
            ExtractErrorView::XmlMalformed(t) => t,
            ExtractErrorView::TextUndecodable(t) => t,
            ExtractErrorView::NotUtf8 => "stream did not contain valid UTF-8"@,
        }
    }
}

impl ExtractError {
    /// The message recorded for a file that failed.
    pub fn message(&self) -> (r: String)
        ensures
            r@ == self@.spec_message(),
    {
        match self {
            ExtractError::PdfUnreadable => "could not read PDF".to_owned(),
            ExtractError::ArchiveUnreadable(t) => t.clone(),
            ExtractError::XmlMalformed(t) => t.clone(),
            ExtractError::TextUndecodable(t) => t.clone(),
            ExtractError::NotUtf8 => "stream did not contain valid UTF-8".to_owned(),
        }
    }
}

/// What the `zip` crate reads from the entry `name` of an archive, as UTF-8
/// text, or the text of the error that stopped it.
pub uninterp spec fn spec_zip_entry_text(archive: Seq<u8>, name: Seq<char>) -> Result<Seq<char>, Seq<char>>;

/// `zip::ZipArchive::new`, `ZipArchive::by_name` and `Read::read_to_string` on
/// one entry. Claimed: the result is the entry's text, or the `Display` text of
/// the first error, as a function of the archive bytes and entry name.
#[verifier::external_body]
pub(crate) fn zip_entry_text(archive: &[u8], name: &str) -> (r: Result<String, String>)
    ensures
        match r {
            Ok(t) => spec_zip_entry_text(archive@, name@) == Ok::<Seq<char>, Seq<char>>(t@),
            Err(m) => spec_zip_entry_text(archive@, name@) == Err::<Seq<char>, Seq<char>>(m@),
        },
{
    let mut zip = match zip::ZipArchive::new(std::io::Cursor::new(archive)) {
        Ok(zip) => zip,
        Err(error) => return Err(error.to_string()),
    };
    let mut entry = match zip.by_name(name) {
        Ok(entry) => entry,
        Err(error) => return Err(error.to_string()),
    };
    let mut text = String::new();
    match entry.read_to_string(&mut text) {
        Ok(_) => Ok(text),
        Err(error) => Err(error.to_string()),
    }
}

/// What `String::from_utf8_lossy` gives for a byte string.
pub uninterp spec fn spec_utf8_lossy(bytes: Seq<u8>) -> Seq<char>;

/// `String::from_utf8_lossy`. Claimed: the text is a function of the bytes, and
/// equals their decoding when they are valid UTF-8, as its documentation says;
/// the replacement of invalid sequences is not stated.
#[verifier::external_body]
pub(crate) fn utf8_lossy(bytes: &[u8]) -> (r: String)
    ensures
        r@ == spec_utf8_lossy(bytes@),
        valid_utf8(bytes@) ==> r@ == decode_utf8(bytes@),
{
    String::from_utf8_lossy(bytes).into_owned()
}

/// `std::str::from_utf8`. Claimed: the text when the bytes are valid UTF-8, else `None`.
#[verifier::external_body]
pub(crate) fn utf8_text(bytes: &[u8]) -> (r: Option<String>)
    ensures
        r is Some <==> valid_utf8(bytes@),
        r matches Some(t) ==> t@ == decode_utf8(bytes@),
{
    match std::str::from_utf8(bytes) {
        Ok(text) => Some(text.to_owned()),
        Err(_) => None,
    }
}

/// Index of the first form feed at or after `i`, or the length.
pub open spec fn page_end(s: Seq<char>, i: int) -> int
    decreases s.len() - i,
{
    if i >= s.len() {
        s.len() as int
    } else if s[i] == '\u{c}' {
        i
    } else {
        page_end(s, i + 1)
    }
}

/// A page ends between its start and the end of the text.
pub proof fn lemma_page_end_bounds(s: Seq<char>, i: int)
    requires
        0 <= i <= s.len(),
    ensures
        i <= page_end(s, i) <= s.len(),
    decreases s.len() - i,
{
    if i < s.len() && s[i] != '\u{c}' {
        lemma_page_end_bounds(s, i + 1);
    }
}

/// The non-empty cleaned pages of `s` from position `i` on, numbered from `page`.
pub open spec fn pages_from(s: Seq<char>, i: int, page: u32) -> Seq<SectionView>
    decreases s.len() + 1 - i,
{
    if i < 0 || i > s.len() {
        Seq::empty()
    } else {
        let e = page_end(s, i);
        proof {
            lemma_page_end_bounds(s, i);
        }
        let text = clean(s.subrange(i, e));
        let rest = if e < s.len() {
            pages_from(s, e + 1, page.wrapping_add(1))
        } else {
            Seq::<SectionView>::empty()
        };
        if text.len() > 0 {
            seq![SectionView { text, page: Some(page), heading: None }] + rest
        } else {
            rest
        }
    }
}

/// The sections of a PDF's text: one per non-empty page (pages are separated by
/// form feeds and numbered from 1); a single page 1 when every page is empty.
pub open spec fn spec_pdf_sections(s: Seq<char>) -> Seq<SectionView> {
    let pages = pages_from(s, 0, 1);
    if pages.len() == 0 {
        seq![SectionView { text: clean(s), page: Some(1), heading: None }]
    } else {
        pages
    }
}

/// Splits a PDF's text into page sections (see `spec_pdf_sections`).
pub fn pdf_sections(text: &str) -> (r: Vec<ParsedSection>)
    ensures
        section_views(r@) == spec_pdf_sections(text@),
{
    let chars = chars_of(text);
    let ghost s = chars@;
    let n = chars.len();
    let mut sections: Vec<ParsedSection> = Vec::new();
    let mut i: usize = 0;
    let mut page: u32 = 1;
    loop
        invariant_except_break
            pages_from(s, 0, 1) == section_views(sections@) + pages_from(s, i as int, page),
            i <= n,
        invariant
            n == s.len(),
            s == chars@,
            s == text@,
        ensures
            pages_from(s, 0, 1) == section_views(sections@),
        decreases n + 1 - i,
    {
        let mut e = i;
        while e < n && chars[e] != '\u{c}'
            invariant
                i <= e <= n,
                n == s.len(),
                s == chars@,
                page_end(s, i as int) == page_end(s, e as int),
            decreases n - e,
        {
            e += 1;
        }
        proof {
            lemma_page_end_bounds(s, i as int);
        }
        let cleaned = clean_chars(&copy_range(&chars, i, e));
        let ghost before = section_views(sections@);
        if cleaned.len() > 0 {
            sections.push(ParsedSection { text: string_from_chars(&cleaned), page: Some(page), heading: None });
            assert(section_views(sections@) =~= before.push(SectionView { text: cleaned@, page: Some(page), heading: None }));
        }
        if e >= n {
            proof {
                assert(pages_from(s, 0, 1) =~= section_views(sections@));
            }
            break;
        }
        proof {
            assert(before + pages_from(s, i as int, page) =~= section_views(sections@) + pages_from(s, e + 1, page.wrapping_add(1)));
        }
        i = e + 1;
        page = page.wrapping_add(1);
    }
    if sections.len() == 0 {
        sections.push(ParsedSection { text: clean_text(text), page: Some(1), heading: None });
        assert(section_views(sections@) =~= spec_pdf_sections(text@));
    }
    sections
}

/// The `quick_xml` reader type, declared so that a cursor can hold one.
#[verifier::external_type_specification]
#[verifier::external_body]
#[verifier::reject_recursive_types(R)]
pub struct ExXmlReader<R>(quick_xml::Reader<R>);

/// One event of an XML reader, as plain values: decoded text (or the text of the
/// error that stopped its decoding), the raw name of an end tag, the end of
/// input, a syntax error with its text, or any other event.
#[derive(Debug, Clone)]
pub enum XmlEvent {
    Text(String),
    TextError(String),
    End(Vec<u8>),
    Eof,
    Error(String),
    Other,
}

/// The plain content of an XML event.
pub enum XmlEventView {
    Text(Seq<char>),
    TextError(Seq<char>),
    End(Seq<u8>),
    Eof,
    Error(Seq<char>),
    Other,
}

impl View for XmlEvent {
    type V = XmlEventView;

    open spec fn view(&self) -> XmlEventView {
        match self {
            XmlEvent::Text(t) => XmlEventView::Text(t@),
            XmlEvent::TextError(m) => XmlEventView::TextError(m@),
            XmlEvent::End(n) => XmlEventView::End(n@),
            XmlEvent::Eof => XmlEventView::Eof,
            XmlEvent::Error(m) => XmlEventView::Error(m@),
            XmlEvent::Other => XmlEventView::Other,
        }
    }
}

/// Each event by its view.
pub open spec fn event_views(events: Seq<XmlEvent>) -> Seq<XmlEventView> {
    events.map_values(|e: XmlEvent| e@)
}

/// The end of input or a syntax error: no event follows.
pub open spec fn is_terminal(e: XmlEventView) -> bool {
    e is Eof || e is Error
}

/// A finite event sequence whose last event, and only that one, is terminal.
pub open spec fn well_ended(events: Seq<XmlEventView>) -> bool {
    &&& events.len() > 0
    &&& is_terminal(events.last())
    &&& forall|k: int| 0 <= k < events.len() - 1 ==> !is_terminal(#[trigger] events[k])
}

/// The events that `quick_xml` reads from a document with text trimming on, up
/// to and including the end of input or the first error.
pub uninterp spec fn spec_xml_events(doc: Seq<char>) -> Seq<XmlEventView>;

/// A `quick_xml` reader over a document, with the number of events read so far.
pub struct XmlCursor<'a> {
    reader: quick_xml::Reader<&'a [u8]>,
    doc: Ghost<Seq<char>>,
    consumed: Ghost<nat>,
}

impl<'a> XmlCursor<'a> {
    /// The document being read.
    pub closed spec fn document(&self) -> Seq<char> {
        self.doc@
    }

    /// How many events have been read.
    pub closed spec fn position(&self) -> nat {
        self.consumed@
    }
}

/// `quick_xml::Reader::from_str` with `trim_text(true)`. Claimed: the reader will
/// yield the named event sequence of the document, which ends with exactly one
/// end-of-input or error event (the reader returns `Eof` at the end of its input).
#[verifier::external_body]
pub(crate) fn open_xml<'a>(doc: &'a str) -> (c: XmlCursor<'a>)
    ensures
        c.document() == doc@,
        c.position() == 0,
        well_ended(spec_xml_events(c.document())),
{
    let mut reader = quick_xml::Reader::from_str(doc);
    reader.config_mut().trim_text(true);
    XmlCursor { reader, doc: Ghost(doc@), consumed: Ghost(0) }
}

/// `quick_xml::Reader::read_event`, with `BytesText::decode` on text and
/// `BytesEnd::name` on end tags. Claimed: the event returned is the next one of
/// the named sequence.
#[verifier::external_body]
pub(crate) fn next_xml_event(cursor: &mut XmlCursor) -> (e: XmlEvent)
    requires
        old(cursor).position() < spec_xml_events(old(cursor).document()).len(),
    ensures
        final(cursor).document() == old(cursor).document(),
        final(cursor).position() == old(cursor).position() + 1,
        e@ == spec_xml_events(old(cursor).document())[old(cursor).position() as int],
{
    match cursor.reader.read_event() {
        Ok(quick_xml::events::Event::Text(text)) => match text.decode() {
            Ok(decoded) => XmlEvent::Text(decoded.into_owned()),
            Err(error) => XmlEvent::TextError(error.to_string()),
        },
        Ok(quick_xml::events::Event::End(end)) => XmlEvent::End(end.name().as_ref().to_vec()),
        Ok(quick_xml::events::Event::Eof) => XmlEvent::Eof,
        Ok(_) => XmlEvent::Other,
        Err(error) => XmlEvent::Error(error.to_string()),
    }
}

/// Reads every event of a document, through the end of input or the first error.
pub fn xml_events(doc: &str) -> (r: Vec<XmlEvent>)
    ensures
        event_views(r@) == spec_xml_events(doc@),
{
    let mut cursor = open_xml(doc);
    let ghost all = spec_xml_events(doc@);
    let mut events: Vec<XmlEvent> = Vec::new();
    loop
        invariant_except_break
            cursor.position() < all.len(),
        invariant
            cursor.document() == doc@,
            all == spec_xml_events(doc@),
            well_ended(all),
            cursor.position() == events@.len(),
            event_views(events@) == all.take(cursor.position() as int),
        ensures
            event_views(events@) == all,
        decreases all.len() - cursor.position(),
    {
        let ghost at = cursor.position();
        let e = next_xml_event(&mut cursor);
        let terminal = match e {
            XmlEvent::Eof => true,
            XmlEvent::Error(_) => true,
            _ => false,
        };
        events.push(e);
        assert(event_views(events@) =~= all.take(at as int + 1));
        if terminal {
            assert(at == all.len() - 1);
            assert(all.take(at as int + 1) =~= all);
            break;
        }
    }
    events
}

/// `name` is the end tag of a Word paragraph, `w:p`.
pub open spec fn is_paragraph_end(name: Seq<u8>) -> bool {
    name == seq![119u8, 58u8, 112u8]
}

/// `current` followed by `t`, separated by a space when `current` is not empty.
pub open spec fn append_run(current: Seq<char>, t: Seq<char>) -> Seq<char> {
    if current.len() == 0 {
        t
    } else {
        current + seq![' '] + t
    }
}

/// The paragraphs of a Word document from event `i` on: text runs are joined by
/// spaces, each `w:p` end tag closes a paragraph that is kept when non-empty
/// after cleaning; undecodable text and syntax errors fail.
pub open spec fn docx_paragraphs(
    events: Seq<XmlEventView>,
    i: int,
    current: Seq<char>,
    paragraphs: Seq<Seq<char>>,
) -> Result<Seq<Seq<char>>, ExtractErrorView>
    decreases events.len() - i,
{
    if i < 0 || i >= events.len() {
        Ok(paragraphs)
    } else {
        match events[i] {
            XmlEventView::Text(t) => docx_paragraphs(events, i + 1, append_run(current, t), paragraphs),
            XmlEventView::TextError(m) => Err(ExtractErrorView::TextUndecodable(m)),
            XmlEventView::End(name) => if is_paragraph_end(name) {
                let p = clean(current);
                docx_paragraphs(
                    events,
                    i + 1,
                    Seq::empty(),
                    if p.len() > 0 { paragraphs.push(p) } else { paragraphs },
                )
            } else {
                docx_paragraphs(events, i + 1, current, paragraphs)
            },
            XmlEventView::Eof => Ok(paragraphs),
            XmlEventView::Error(m) => Err(ExtractErrorView::XmlMalformed(m)),
            XmlEventView::Other => docx_paragraphs(events, i + 1, current, paragraphs),
        }
    }
}

/// The text of a Word document: its paragraphs separated by blank lines.
pub open spec fn spec_docx_text(events: Seq<XmlEventView>) -> Result<Seq<char>, ExtractErrorView> {
    match docx_paragraphs(events, 0, Seq::empty(), Seq::empty()) {
        Ok(ps) => Ok(join_with(ps, seq!['\n', '\n'])),
        Err(e) => Err(e),
    }
}

fn is_paragraph_end_exec(name: &Vec<u8>) -> (r: bool)
    ensures
        r == is_paragraph_end(name@),
{
    let r = name.len() == 3 && name[0] == 119u8 && name[1] == 58u8 && name[2] == 112u8;
    assert(r ==> name@ =~= seq![119u8, 58u8, 112u8]);
    r
}

fn append_run_exec(current: &mut Vec<char>, t: &str)
    ensures
        final(current)@ == append_run(old(current)@, t@),
{
    let chars = chars_of(t);
    if current.len() > 0 {
        current.push(' ');
    }
    crate::text::extend_from_range(current, &chars, 0, chars.len());
    assert(chars@.subrange(0, chars@.len() as int) =~= chars@);
    assert(final(current)@ =~= append_run(old(current)@, t@));
}

/// Assembles the text of a Word document from its events (see `spec_docx_text`).
pub fn docx_text(events: &Vec<XmlEvent>) -> (r: Result<String, ExtractError>)
    ensures
        match r {
            Ok(t) => spec_docx_text(event_views(events@)) == Ok::<Seq<char>, ExtractErrorView>(t@),
            Err(e) => spec_docx_text(event_views(events@)) == Err::<Seq<char>, ExtractErrorView>(e@),
        },
{
    let ghost ev = event_views(events@);
    let mut current: Vec<char> = Vec::new();
    let mut out: Vec<char> = Vec::new();
    let ghost mut paragraphs: Seq<Seq<char>> = Seq::empty();
    let mut any = false;
    let mut i: usize = 0;
    while i < events.len()
        invariant
            i <= events@.len(),
            any == (paragraphs.len() > 0),
            ev == event_views(events@),
            docx_paragraphs(ev, 0, Seq::empty(), Seq::empty()) == docx_paragraphs(
                ev,
                i as int,
                current@,
                paragraphs,
            ),
            out@ == join_with(paragraphs, seq!['\n', '\n']),
        decreases events@.len() - i,
    {
        assert(ev[i as int] == events@[i as int]@);
        match &events[i] {
            XmlEvent::Text(t) => {
                append_run_exec(&mut current, t.as_str());
            },
            XmlEvent::TextError(m) => {
                return Err(ExtractError::TextUndecodable(m.clone()));
            },
            XmlEvent::End(name) => {
                if is_paragraph_end_exec(name) {
                    let p = clean_chars(&current);
                    if p.len() > 0 {
                        let ghost before = paragraphs;
                        if any {
                            out.push('\n');
                            out.push('\n');
                        }
                        crate::text::extend_from_range(&mut out, &p, 0, p.len());
                        proof {
                            paragraphs = paragraphs.push(p@);
                            assert(paragraphs.drop_last() =~= before);
                            assert(p@.subrange(0, p@.len() as int) =~= p@);
                            if before.len() == 0 {
                                assert(out@ =~= p@);
                            } else {
                                assert(out@ =~= join_with(before, seq!['\n', '\n']) + seq!['\n', '\n'] + p@);
                            }
                        }
                        any = true;
                    }
                    current = Vec::new();
                }
            },
            XmlEvent::Eof => {
                return Ok(string_from_chars(&out));
            },
            XmlEvent::Error(m) => {
                return Err(ExtractError::XmlMalformed(m.clone()));
            },
            XmlEvent::Other => {},
        }
        i += 1;
    }
    Ok(string_from_chars(&out))
}

/// The text of a markup document from event `i` on: text runs joined by spaces.
/// `None` stands for a syntax error, after which the file is read as plain text.
pub open spec fn markup_runs(events: Seq<XmlEventView>, i: int, output: Seq<char>) -> Option<
    Result<Seq<char>, ExtractErrorView>,
>
    decreases events.len() - i,
{
    if i < 0 || i >= events.len() {
        Some(Ok(output))
    } else {
        match events[i] {
            XmlEventView::Text(t) => markup_runs(events, i + 1, append_run(output, t)),
            XmlEventView::TextError(m) => Some(Err(ExtractErrorView::TextUndecodable(m))),
            XmlEventView::Eof => Some(Ok(output)),
            XmlEventView::Error(_) => None,
            _ => markup_runs(events, i + 1, output),
        }
    }
}

/// Joins the text runs of a markup document (see `markup_runs`).
pub fn markup_text(events: &Vec<XmlEvent>) -> (r: Option<Result<String, ExtractError>>)
    ensures
        match r {
            None => markup_runs(event_views(events@), 0, Seq::empty()) is None,
            Some(Ok(t)) => markup_runs(event_views(events@), 0, Seq::empty()) == Some(
                Ok::<Seq<char>, ExtractErrorView>(t@),
            ),
            Some(Err(e)) => markup_runs(event_views(events@), 0, Seq::empty()) == Some(
                Err::<Seq<char>, ExtractErrorView>(e@),
            ),
        },
{
    let ghost ev = event_views(events@);
    let mut output: Vec<char> = Vec::new();
    let mut i: usize = 0;
    while i < events.len()
        invariant
            i <= events@.len(),
            ev == event_views(events@),
            markup_runs(ev, 0, Seq::empty()) == markup_runs(ev, i as int, output@),
        decreases events@.len() - i,
    {
        assert(ev[i as int] == events@[i as int]@);
        match &events[i] {
            XmlEvent::Text(t) => {
                append_run_exec(&mut output, t.as_str());
            },
            XmlEvent::TextError(m) => {
                return Some(Err(ExtractError::TextUndecodable(m.clone())));
            },
            XmlEvent::Eof => {
                return Some(Ok(string_from_chars(&output)));
            },
            XmlEvent::Error(_) => {
                return None;
            },
            _ => {},
        }
        i += 1;
    }
    Some(Ok(string_from_chars(&output)))
}

/// The single section of a plain-text file: its bytes decoded (invalid
/// sequences replaced) and cleaned.
pub open spec fn spec_plain_sections(bytes: Seq<u8>) -> Seq<SectionView> {
    seq![SectionView { text: clean(spec_utf8_lossy(bytes)), page: None, heading: None }]
}

/// Reads a plain-text file (see `spec_plain_sections`).
pub fn plain_sections(bytes: &[u8]) -> (r: Vec<ParsedSection>)
    ensures
        section_views(r@) == spec_plain_sections(bytes@),
{
    let text = utf8_lossy(bytes);
    let r = vec![ParsedSection { text: clean_text(text.as_str()), page: None, heading: None }];
    assert(section_views(r@) =~= spec_plain_sections(bytes@));
    r
}

/// The sections of a markup document: its cleaned text runs, or the file read as
/// plain text when the markup has a syntax error.
pub open spec fn spec_markup_sections(doc: Seq<char>, bytes: Seq<u8>) -> Result<
    Seq<SectionView>,
    ExtractErrorView,
> {
    match markup_runs(spec_xml_events(doc), 0, Seq::empty()) {
        None => Ok(spec_plain_sections(bytes)),
        Some(Ok(o)) => Ok(seq![SectionView { text: clean(o), page: None, heading: None }]),
        Some(Err(e)) => Err(e),
    }
}

/// The sections of a Word document: its paragraph text as one section.
pub open spec fn spec_docx_sections(doc: Seq<char>) -> Result<Seq<SectionView>, ExtractErrorView> {
    match spec_docx_text(spec_xml_events(doc)) {
        Ok(t) => Ok(seq![SectionView { text: t, page: None, heading: None }]),
        Err(e) => Err(e),
    }
}

/// The sections of a file at `path` holding `bytes`, read by its file type. A
/// PDF's text is the one the PDF reader gave for these bytes (`pdf_text`), or
/// `None` when the reader failed; it is not used for other file types.
pub open spec fn spec_extract_sections(path: Seq<char>, bytes: Seq<u8>, pdf_text: Option<Seq<char>>) -> Result<
    Seq<SectionView>,
    ExtractErrorView,
> {
    match spec_source_format(spec_extension(path)) {
        SourceFormat::Pdf => match pdf_text {
            None => Err(ExtractErrorView::PdfUnreadable),
            Some(t) => Ok(spec_pdf_sections(t)),
        },
        SourceFormat::Docx => match spec_zip_entry_text(bytes, "word/document.xml"@) {
            Err(m) => Err(ExtractErrorView::ArchiveUnreadable(m)),
            Ok(x) => spec_docx_sections(x),
        },
        SourceFormat::Markup => if valid_utf8(bytes) {
            spec_markup_sections(decode_utf8(bytes), bytes)
        } else {
            Err(ExtractErrorView::NotUtf8)
        },
        SourceFormat::Plain => Ok(spec_plain_sections(bytes)),
    }
}

/// The sections of a Word document's main part.
pub fn docx_sections(doc: &str) -> (r: Result<Vec<ParsedSection>, ExtractError>)
    ensures
        match r {
            Ok(v) => spec_docx_sections(doc@) == Ok::<Seq<SectionView>, ExtractErrorView>(section_views(v@)),
            Err(e) => spec_docx_sections(doc@) == Err::<Seq<SectionView>, ExtractErrorView>(e@),
        },
{
    let events = xml_events(doc);
    match docx_text(&events) {
        Ok(t) => {
            let r = vec![ParsedSection { text: t, page: None, heading: None }];
            assert(section_views(r@) =~= seq![SectionView { text: r@[0].text@, page: None, heading: None }]);
            Ok(r)
        },
        Err(e) => Err(e),
    }
}

/// The sections of a markup document, falling back to plain text on a syntax error.
pub fn markup_sections(doc: &str, bytes: &[u8]) -> (r: Result<Vec<ParsedSection>, ExtractError>)
    ensures
        match r {
            Ok(v) => spec_markup_sections(doc@, bytes@) == Ok::<Seq<SectionView>, ExtractErrorView>(section_views(v@)),
            Err(e) => spec_markup_sections(doc@, bytes@) == Err::<Seq<SectionView>, ExtractErrorView>(e@),
        },
{
    let events = xml_events(doc);
    match markup_text(&events) {
        None => Ok(plain_sections(bytes)),
        Some(Ok(o)) => {
            let r = vec![ParsedSection { text: clean_text(o.as_str()), page: None, heading: None }];
            assert(section_views(r@) =~= seq![SectionView { text: clean(o@), page: None, heading: None }]);
            Ok(r)
        },
        Some(Err(e)) => Err(e),
    }
}

/// The text a PDF reader gave, as characters.
pub open spec fn pdf_view(pdf_text: Option<&str>) -> Option<Seq<char>> {
    match pdf_text {
        Some(t) => Some(t@),
        None => None,
    }
}

/// Reads the text sections of a file from its bytes, by the file type of its
/// path (see `spec_extract_sections`); for a PDF, from the text its reader gave.
pub fn extract_sections(path: &str, bytes: &[u8], pdf_text: Option<&str>) -> (r: Result<
    Vec<ParsedSection>,
    ExtractError,
>)
    ensures
        match r {
            Ok(v) => spec_extract_sections(path@, bytes@, pdf_view(pdf_text)) == Ok::<
                Seq<SectionView>,
                ExtractErrorView,
            >(section_views(v@)),
            Err(e) => spec_extract_sections(path@, bytes@, pdf_view(pdf_text)) == Err::<
                Seq<SectionView>,
                ExtractErrorView,
            >(e@),
        },
{
    let ext = extension(path);
    match source_format(ext.as_str()) {
        SourceFormat::Pdf => match pdf_text {
            None => Err(ExtractError::PdfUnreadable),
            Some(t) => Ok(pdf_sections(t)),
        },
        SourceFormat::Docx => match zip_entry_text(bytes, "word/document.xml") {
            Err(m) => Err(ExtractError::ArchiveUnreadable(m)),
            Ok(x) => docx_sections(x.as_str()),
        },
        SourceFormat::Markup => match utf8_text(bytes) {
            None => Err(ExtractError::NotUtf8),
            Some(doc) => markup_sections(doc.as_str(), bytes),
        },
        SourceFormat::Plain => Ok(plain_sections(bytes)),
    }
}

} // verus!
