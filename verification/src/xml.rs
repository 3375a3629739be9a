//! Reading XML with `quick_xml`: a reader over a text that counts the events it has given, so
//! that each event, tag name and attribute can be named as a function of the text, the reader's
//! configuration and the event's position.
//!
//! The values of this module are made only by the functions of this module, which keep their
//! bookkeeping fields (the text, the configuration, the position) in step with the reader.

use vstd::prelude::*;

use quick_xml::encoding::Decoder;
use quick_xml::events::attributes::{AttrError, Attribute};
use quick_xml::events::{BytesEnd, BytesStart, Event};
use quick_xml::Error as XmlError;
use quick_xml::Reader;

verus! {

/// `quick_xml`'s reader.
#[verifier::external_type_specification]
#[verifier::external_body]
#[verifier::reject_recursive_types(R)]
pub struct ExReader<R>(Reader<R>);

/// `quick_xml`'s start tag.
#[verifier::external_type_specification]
#[verifier::external_body]
pub struct ExBytesStart<'a>(BytesStart<'a>);

/// `quick_xml`'s end tag.
#[verifier::external_type_specification]
#[verifier::external_body]
pub struct ExBytesEnd<'a>(BytesEnd<'a>);

/// `quick_xml`'s attribute.
#[verifier::external_type_specification]
#[verifier::external_body]
pub struct ExAttribute<'a>(Attribute<'a>);

/// `quick_xml`'s text decoder.
#[verifier::external_type_specification]
#[verifier::external_body]
pub struct ExDecoder(Decoder);

/// `quick_xml`'s error.
#[verifier::external_type_specification]
#[verifier::external_body]
pub struct ExXmlError(XmlError);

/// `quick_xml`'s attribute syntax error.
#[verifier::external_type_specification]
#[verifier::external_body]
pub struct ExAttrError(AttrError);

/// The kind of the event that `quick_xml` reads at some position.
pub enum XmlEventKind {
    Start,
    End,
    Empty,
    Eof,
    Other,
    /// Reading failed.
    Failed,
}

/// What `try_get_attribute` finds for a key in a tag.
pub enum AttributeLookup {
    /// The attribute list could not be parsed before the key was found.
    Malformed,
    /// No attribute has the key.
    Absent,
    /// An attribute has the key.
    Present,
}

/// The kind of the `index`-th event (from 0) that `Reader::read_event` gives for `text`, with
/// `trim_text` set to `trimmed` before the first read.
pub uninterp spec fn xml_event(text: Seq<char>, trimmed: bool, index: nat) -> XmlEventKind;

/// The name (`BytesStart::name`), as bytes, of the start or empty tag that is that event.
pub uninterp spec fn xml_start_name(text: Seq<char>, trimmed: bool, index: nat) -> Seq<u8>;

/// The name (`BytesEnd::name`), as bytes, of the end tag that is that event.
pub uninterp spec fn xml_end_name(text: Seq<char>, trimmed: bool, index: nat) -> Seq<u8>;

/// What `BytesStart::try_get_attribute` finds for `key` in the tag that is that event.
pub uninterp spec fn xml_attribute_lookup(
    text: Seq<char>,
    trimmed: bool,
    index: nat,
    key: Seq<char>,
) -> AttributeLookup;

/// What `Attribute::decode_and_unescape_value` gives for the attribute `key` of the tag that is
/// that event: the unescaped value, or nothing where it cannot be decoded.
pub uninterp spec fn xml_attribute_value(
    text: Seq<char>,
    trimmed: bool,
    index: nat,
    key: Seq<char>,
) -> Option<Seq<char>>;

/// A reader over a text, with the number of events it has given.
pub struct XmlCursor<'a> {
    reader: Reader<&'a [u8]>,
    text: &'a str,
    trimmed: bool,
    count: usize,
}

impl<'a> XmlCursor<'a> {
    /// The text being read.
    pub closed spec fn source(&self) -> Seq<char> {
        self.text@
    }

    /// Whether text events are trimmed.
    pub closed spec fn trimmed(&self) -> bool {
        self.trimmed
    }

    /// The number of events read so far.
    pub closed spec fn position(&self) -> nat {
        self.count as nat
    }
}

/// A start or empty tag, with the position of the event it is.
pub struct XmlTag<'a> {
    inner: BytesStart<'a>,
    text: &'a str,
    trimmed: bool,
    index: usize,
}

impl<'a> XmlTag<'a> {
    pub closed spec fn source(&self) -> Seq<char> {
        self.text@
    }

    pub closed spec fn trimmed(&self) -> bool {
        self.trimmed
    }

    pub closed spec fn position(&self) -> nat {
        self.index as nat
    }
}

/// An end tag, with the position of the event it is.
pub struct XmlEndTag<'a> {
    inner: BytesEnd<'a>,
    text: &'a str,
    trimmed: bool,
    index: usize,
}

impl<'a> XmlEndTag<'a> {
    pub closed spec fn source(&self) -> Seq<char> {
        self.text@
    }

    pub closed spec fn trimmed(&self) -> bool {
        self.trimmed
    }

    pub closed spec fn position(&self) -> nat {
        self.index as nat
    }
}

/// An attribute found in a tag, with the tag's position and the key it was found by.
pub struct XmlAttribute<'a> {
    inner: Attribute<'a>,
    text: &'a str,
    trimmed: bool,
    index: usize,
    key: String,
}

impl<'a> XmlAttribute<'a> {
    pub closed spec fn source(&self) -> Seq<char> {
        self.text@
    }

    pub closed spec fn trimmed(&self) -> bool {
        self.trimmed
    }

    pub closed spec fn position(&self) -> nat {
        self.index as nat
    }

    pub closed spec fn key(&self) -> Seq<char> {
        self.key@
    }
}

/// The kinds of XML event that the catalog scan tells apart.
pub enum XmlEvent<'a> {
    Start(XmlTag<'a>),
    End(XmlEndTag<'a>),
    Empty(XmlTag<'a>),
    Eof,
    Other,
}

/// Calls `quick_xml::Reader::from_str`: a reader at the start of `text`.
#[verifier::external_body]
pub fn open_reader<'a>(text: &'a str) -> (r: XmlCursor<'a>)
    ensures
        r.source() == text@,
        !r.trimmed(),
        r.position() == 0,
{
    XmlCursor { reader: Reader::from_str(text), text, trimmed: false, count: 0 }
}

/// Calls `quick_xml::reader::Config::trim_text` on the reader's configuration (reached through
/// `Reader::config_mut`). Only the reader changes; `set_trim_text` records the setting.
#[verifier::external_body]
fn reader_trim_text(cursor: &mut XmlCursor, trim: bool)
    ensures
        final(cursor).source() == old(cursor).source(),
        final(cursor).trimmed() == old(cursor).trimmed(),
        final(cursor).position() == old(cursor).position(),
{
    cursor.reader.config_mut().trim_text(trim);
}

/// Sets whether text events are trimmed, before the first event is read.
pub fn set_trim_text(cursor: &mut XmlCursor, trim: bool)
    requires
        old(cursor).position() == 0,
    ensures
        final(cursor).source() == old(cursor).source(),
        final(cursor).trimmed() == trim,
        final(cursor).position() == 0,
{
    reader_trim_text(cursor, trim);
    cursor.trimmed = trim;
}

/// Calls `quick_xml::Reader::decoder`. The reader of a `&str` always decodes UTF-8, so the
/// decoder is the same for every reader and nothing depends on which one is passed on.
#[verifier::external_body]
pub fn reader_decoder(cursor: &XmlCursor) -> Decoder {
    cursor.reader.decoder()
}

/// Calls `quick_xml::Reader::read_event` and tells the kinds of event apart: the event at the
/// reader's position, named by `xml_event`. Only the reader changes; `read_event` counts the
/// event.
#[verifier::external_body]
fn reader_read_event<'a>(cursor: &mut XmlCursor<'a>) -> (r: Result<XmlEvent<'a>, XmlError>)
    ensures
        final(cursor).source() == old(cursor).source(),
        final(cursor).trimmed() == old(cursor).trimmed(),
        final(cursor).position() == old(cursor).position(),
        match xml_event(old(cursor).source(), old(cursor).trimmed(), old(cursor).position()) {
            XmlEventKind::Start => r matches Ok(XmlEvent::Start(t)) && t.source() == old(
                cursor,
            ).source() && t.trimmed() == old(cursor).trimmed() && t.position() == old(
                cursor,
            ).position(),
            XmlEventKind::Empty => r matches Ok(XmlEvent::Empty(t)) && t.source() == old(
                cursor,
            ).source() && t.trimmed() == old(cursor).trimmed() && t.position() == old(
                cursor,
            ).position(),
            XmlEventKind::End => r matches Ok(XmlEvent::End(t)) && t.source() == old(
                cursor,
            ).source() && t.trimmed() == old(cursor).trimmed() && t.position() == old(
                cursor,
            ).position(),
            XmlEventKind::Eof => r matches Ok(XmlEvent::Eof),
            XmlEventKind::Other => r matches Ok(XmlEvent::Other),
            XmlEventKind::Failed => r is Err,
        },
{
    let (text, trimmed, index) = (cursor.text, cursor.trimmed, cursor.count);
    match cursor.reader.read_event() {
        Ok(Event::Start(inner)) => Ok(XmlEvent::Start(XmlTag { inner, text, trimmed, index })),
        Ok(Event::End(inner)) => Ok(XmlEvent::End(XmlEndTag { inner, text, trimmed, index })),
        Ok(Event::Empty(inner)) => Ok(XmlEvent::Empty(XmlTag { inner, text, trimmed, index })),
        Ok(Event::Eof) => Ok(XmlEvent::Eof),
        Ok(_) => Ok(XmlEvent::Other),
        Err(e) => Err(e),
    }
}

/// Reads the next event: the event at the reader's position, named by `xml_event`.
pub fn read_event<'a>(cursor: &mut XmlCursor<'a>) -> (r: Result<XmlEvent<'a>, XmlError>)
    requires
        old(cursor).position() < usize::MAX,
    ensures
        final(cursor).source() == old(cursor).source(),
        final(cursor).trimmed() == old(cursor).trimmed(),
        final(cursor).position() == old(cursor).position() + 1,
        match xml_event(old(cursor).source(), old(cursor).trimmed(), old(cursor).position()) {
            XmlEventKind::Start => r matches Ok(XmlEvent::Start(t)) && t.source() == old(
                cursor,
            ).source() && t.trimmed() == old(cursor).trimmed() && t.position() == old(
                cursor,
            ).position(),
            XmlEventKind::Empty => r matches Ok(XmlEvent::Empty(t)) && t.source() == old(
                cursor,
            ).source() && t.trimmed() == old(cursor).trimmed() && t.position() == old(
                cursor,
            ).position(),
            XmlEventKind::End => r matches Ok(XmlEvent::End(t)) && t.source() == old(
                cursor,
            ).source() && t.trimmed() == old(cursor).trimmed() && t.position() == old(
                cursor,
            ).position(),
            XmlEventKind::Eof => r matches Ok(XmlEvent::Eof),
            XmlEventKind::Other => r matches Ok(XmlEvent::Other),
            XmlEventKind::Failed => r is Err,
        },
{
    let r = reader_read_event(cursor);
    cursor.count = cursor.count + 1;
    r
}

/// Calls `quick_xml::events::BytesStart::name`, giving the tag's name as bytes.
#[verifier::external_body]
pub fn start_name(tag: &XmlTag) -> (r: Vec<u8>)
    ensures
        r@ == xml_start_name(tag.source(), tag.trimmed(), tag.position()),
{
    tag.inner.name().as_ref().to_vec()
}

/// Calls `quick_xml::events::BytesEnd::name`, giving the tag's name as bytes.
#[verifier::external_body]
pub fn end_name(tag: &XmlEndTag) -> (r: Vec<u8>)
    ensures
        r@ == xml_end_name(tag.source(), tag.trimmed(), tag.position()),
{
    tag.inner.name().as_ref().to_vec()
}

/// Calls `quick_xml::events::BytesStart::try_get_attribute`: the attribute with the key, if the
/// attribute list parses up to it.
#[verifier::external_body]
pub fn try_get_attribute<'a>(tag: &'a XmlTag<'a>, key: &str) -> (r: Result<
    Option<XmlAttribute<'a>>,
    AttrError,
>)
    ensures
        match xml_attribute_lookup(tag.source(), tag.trimmed(), tag.position(), key@) {
            AttributeLookup::Malformed => r is Err,
            AttributeLookup::Absent => r matches Ok(None),
            AttributeLookup::Present => r matches Ok(Some(a)) && a.source() == tag.source()
                && a.trimmed() == tag.trimmed() && a.position() == tag.position() && a.key()
                == key@,
        },
{
    let (text, trimmed, index) = (tag.text, tag.trimmed, tag.index);
    match tag.inner.try_get_attribute(key) {
        Ok(Some(inner)) => Ok(Some(XmlAttribute { inner, text, trimmed, index, key: key.to_owned() })),
        Ok(None) => Ok(None),
        Err(e) => Err(e),
    }
}

/// Calls `quick_xml::events::attributes::Attribute::decode_and_unescape_value`, giving the
/// unescaped value as an owned text.
#[verifier::external_body]
pub fn decode_and_unescape_value(attr: &XmlAttribute, decoder: Decoder) -> (r: Result<
    String,
    XmlError,
>)
    ensures
        match xml_attribute_value(attr.source(), attr.trimmed(), attr.position(), attr.key()) {
            Some(v) => r matches Ok(s) && s@ == v,
            None => r is Err,
        },
{
    match attr.inner.decode_and_unescape_value(decoder) {
        Ok(value) => Ok(value.into_owned()),
        Err(e) => Err(e),
    }
}

} // verus!
