//! The firmware catalog: which firmware images it lists, for which model, at which revision.

use vstd::prelude::*;

use crate::xml::{
    end_name, open_reader, read_event, reader_decoder, set_trim_text, start_name,
    try_get_attribute, decode_and_unescape_value, xml_attribute_lookup, xml_attribute_value,
    xml_end_name, xml_event, xml_start_name, AttributeLookup, XmlEvent, XmlEventKind, XmlTag,
};
use quick_xml::encoding::Decoder;
use quick_xml::events::attributes::AttrError;
use quick_xml::Error as XmlError;
use vstd::utf8::encode_utf8;

verus! {

/// One firmware image that the catalog lists.
#[derive(Debug, PartialEq, Eq)]
pub struct CatalogEntry {
    /// Model name, as the enclosing `<boxmodel>` spells it.
    pub product: String,
    /// Dotted version string.
    pub revision: String,
    /// Path to the fimage, relative to the software root.
    pub fileurl: String,
}

impl Clone for CatalogEntry {
    fn clone(&self) -> (r: Self)
        ensures
            r@ == self@,
    {
        CatalogEntry {
            product: self.product.clone(),
            revision: self.revision.clone(),
            fileurl: self.fileurl.clone(),
        }
    }
}

/// A catalog entry as a value.
pub struct CatalogEntryView {
    pub product: Seq<char>,
    pub revision: Seq<char>,
    pub fileurl: Seq<char>,
}

impl View for CatalogEntry {
    type V = CatalogEntryView;

    open spec fn view(&self) -> CatalogEntryView {
        CatalogEntryView { product: self.product@, revision: self.revision@, fileurl: self.fileurl@ }
    }
}

/// The entries of a catalog as values.
pub open spec fn entries_view(entries: Seq<CatalogEntry>) -> Seq<CatalogEntryView> {
    entries.map_values(|e: CatalogEntry| e@)
}


/// What the catalog scan reads from one XML event.
pub enum CatalogItem {
    /// A `<boxmodel>` start tag, with its `name` attribute if it has one.
    ModelStart(Option<String>),
    /// A `</boxmodel>` end tag.
    ModelEnd,
    /// A `<software>` tag, with its `fileurl` attribute if it has one, and then its `revision`
    /// attribute if it has one (which is not read where there is no `fileurl`).
    Software(Option<String>, Option<String>),
    /// Any other event.
    Other,
}

/// A catalog item as a value.
pub enum CatalogItemView {
    ModelStart(Option<Seq<char>>),
    ModelEnd,
    Software(Option<Seq<char>>, Option<Seq<char>>),
    Other,
}

/// An optional text as a value.
pub open spec fn opt_view(o: Option<String>) -> Option<Seq<char>> {
    match o {
        Some(s) => Some(s@),
        None => None,
    }
}

impl View for CatalogItem {
    type V = CatalogItemView;

    open spec fn view(&self) -> CatalogItemView {
        match self {
            CatalogItem::ModelStart(n) => CatalogItemView::ModelStart(opt_view(*n)),
            CatalogItem::ModelEnd => CatalogItemView::ModelEnd,
            CatalogItem::Software(u, r) => CatalogItemView::Software(opt_view(*u), opt_view(*r)),
            CatalogItem::Other => CatalogItemView::Other,
        }
    }
}

/// Where a scan of the catalog stands: the model whose `<boxmodel>` it is inside, by name, and
/// the entries found so far.
pub struct ScanState {
    pub product: Option<Seq<char>>,
    pub entries: Seq<CatalogEntryView>,
}

/// One step of the scan. Every `<software>` is a child of the `<boxmodel>` naming the product it
/// is firmware for: a `<boxmodel>` start sets the product (to nothing where it has no name), its
/// end clears it, and a `<software>` with both a location and a revision inside a named model is
/// an entry for that model. A `<software>` that cannot be placed is skipped.
pub open spec fn scan_step(s: ScanState, item: CatalogItemView) -> ScanState {
    match item {
        CatalogItemView::ModelStart(name) => ScanState { product: name, entries: s.entries },
        CatalogItemView::ModelEnd => ScanState { product: None, entries: s.entries },
        CatalogItemView::Software(Some(fileurl), Some(revision)) => match s.product {
            Some(product) => ScanState {
                product: s.product,
                entries: s.entries.push(CatalogEntryView { product, revision, fileurl }),
            },
            None => s,
        },
        _ => s,
    }
}

/// The scan of a sequence of items, from the start.
pub open spec fn scan(items: Seq<CatalogItemView>) -> ScanState
    decreases items.len(),
{
    if items.len() == 0 {
        ScanState { product: None, entries: Seq::empty() }
    } else {
        scan_step(scan(items.drop_last()), items.last())
    }
}

/// The catalog entries of a sequence of items.
pub open spec fn catalog_entries(items: Seq<CatalogItemView>) -> Seq<CatalogEntryView> {
    scan(items).entries
}

/// A scan of the catalog in progress.
pub struct CatalogScan {
    product: Option<String>,
    entries: Vec<CatalogEntry>,
}

impl View for CatalogScan {
    type V = ScanState;

    closed spec fn view(&self) -> ScanState {
        ScanState { product: opt_view(self.product), entries: entries_view(self.entries@) }
    }
}

impl CatalogScan {
    /// A scan at the start of the catalog.
    pub fn new() -> (r: Self)
        ensures
            r@ == scan(Seq::empty()),
    {
        let r = CatalogScan { product: None, entries: Vec::new() };
        assert(r@.entries =~= Seq::<CatalogEntryView>::empty());
        r
    }

    /// Reads one item.
    pub fn feed(&mut self, item: &CatalogItem)
        ensures
            final(self)@ == scan_step(old(self)@, item@),
    {
        match item {
            CatalogItem::ModelStart(name) => {
                self.product = match name {
                    Some(n) => Some(n.clone()),
                    None => None,
                };
            },
            CatalogItem::ModelEnd => {
                self.product = None;
            },
            CatalogItem::Software(Some(fileurl), Some(revision)) => {
                match &self.product {
                    Some(product) => {
                        let entry = CatalogEntry {
                            product: product.clone(),
                            revision: revision.clone(),
                            fileurl: fileurl.clone(),
                        };
                        let ghost before = entries_view(self.entries@);
                        self.entries.push(entry);
                        assert(entries_view(self.entries@) =~= before.push(entry@));
                    },
                    None => {},
                }
            },
            _ => {},
        }
    }

    /// The entries found.
    pub fn into_entries(self) -> (r: Vec<CatalogEntry>)
        ensures
            entries_view(r@) == self@.entries,
    {
        self.entries
    }
}

/// The catalog entries of a sequence of items, as the scan finds them.
pub fn catalog_from_items(items: &Vec<CatalogItem>) -> (r: Vec<CatalogEntry>)
    ensures
        entries_view(r@) == catalog_entries(items@.map_values(|i: CatalogItem| i@)),
{
    let ghost all = items@.map_values(|i: CatalogItem| i@);
    let mut scanner = CatalogScan::new();
    let mut k: usize = 0;
    assert(all.subrange(0, 0) =~= Seq::<CatalogItemView>::empty());
    while k < items.len()
        invariant
            all == items@.map_values(|i: CatalogItem| i@),
            k <= items@.len(),
            scanner@ == scan(all.subrange(0, k as int)),
        decreases items.len() - k,
    {
        scanner.feed(&items[k]);
        proof {
            let fed = all.subrange(0, k + 1);
            assert(fed.drop_last() =~= all.subrange(0, k as int));
            assert(fed.last() == items@[k as int]@);
        }
        k = k + 1;
    }
    assert(all.subrange(0, k as int) =~= all);
    scanner.into_entries()
}


/// Why the catalog could not be read, as a value.
pub enum CatalogFailure {
    Xml,
    Attribute(Seq<char>),
    Decode(Seq<char>),
    Runaway,
}

/// Why the catalog could not be read.
#[derive(Debug)]
pub enum CatalogError {
    /// The text is not well-formed XML.
    Xml(XmlError),
    /// An attribute that the scan reads could not be parsed; the attribute's name.
    Attribute(String, AttrError),
    /// An attribute value that the scan reads could not be decoded; the attribute's name.
    Decode(String, XmlError),
    /// The reader gave more events than its input has bytes, which a reader that consumes
    /// input with each event cannot do.
    Runaway,
}

impl View for CatalogError {
    type V = CatalogFailure;

    open spec fn view(&self) -> CatalogFailure {
        match self {
            CatalogError::Xml(_) => CatalogFailure::Xml,
            CatalogError::Attribute(k, _) => CatalogFailure::Attribute(k@),
            CatalogError::Decode(k, _) => CatalogFailure::Decode(k@),
            CatalogError::Runaway => CatalogFailure::Runaway,
        }
    }
}

/// What reading the attribute `key` of the tag at event `index` gives: its unescaped value,
/// nothing where the tag has no such attribute, or why it could not be read.
pub open spec fn attribute_outcome(text: Seq<char>, trimmed: bool, index: nat, key: Seq<char>) -> Result<
    Option<Seq<char>>,
    CatalogFailure,
> {
    match xml_attribute_lookup(text, trimmed, index, key) {
        AttributeLookup::Malformed => Err(CatalogFailure::Attribute(key)),
        AttributeLookup::Absent => Ok(None),
        AttributeLookup::Present => match xml_attribute_value(text, trimmed, index, key) {
            Some(v) => Ok(Some(v)),
            None => Err(CatalogFailure::Decode(key)),
        },
    }
}

/// The item for the `<software>` tag at event `index`: its `fileurl`, and its `revision` where
/// it has a `fileurl`.
pub open spec fn software_outcome(text: Seq<char>, trimmed: bool, index: nat) -> Result<
    CatalogItemView,
    CatalogFailure,
> {
    match attribute_outcome(text, trimmed, index, "fileurl"@) {
        Err(e) => Err(e),
        Ok(None) => Ok(CatalogItemView::Software(None, None)),
        Ok(Some(u)) => match attribute_outcome(text, trimmed, index, "revision"@) {
            Err(e) => Err(e),
            Ok(r) => Ok(CatalogItemView::Software(Some(u), r)),
        },
    }
}

/// The item that the event at `index` of the trimmed reading of `text` is; nothing at the end
/// of the text; or why it could not be read.
pub open spec fn item_at(text: Seq<char>, index: nat) -> Result<
    Option<CatalogItemView>,
    CatalogFailure,
> {
    match xml_event(text, true, index) {
        XmlEventKind::Failed => Err(CatalogFailure::Xml),
        XmlEventKind::Eof => Ok(None),
        XmlEventKind::Start => {
            let name = xml_start_name(text, true, index);
            if spells(name, "boxmodel"@) {
                match attribute_outcome(text, true, index, "name"@) {
                    Err(e) => Err(e),
                    Ok(n) => Ok(Some(CatalogItemView::ModelStart(n))),
                }
            } else if spells(name, "software"@) {
                match software_outcome(text, true, index) {
                    Err(e) => Err(e),
                    Ok(it) => Ok(Some(it)),
                }
            } else {
                Ok(Some(CatalogItemView::Other))
            }
        },
        XmlEventKind::Empty => {
            if spells(xml_start_name(text, true, index), "software"@) {
                match software_outcome(text, true, index) {
                    Err(e) => Err(e),
                    Ok(it) => Ok(Some(it)),
                }
            } else {
                Ok(Some(CatalogItemView::Other))
            }
        },
        XmlEventKind::End => {
            if spells(xml_end_name(text, true, index), "boxmodel"@) {
                Ok(Some(CatalogItemView::ModelEnd))
            } else {
                Ok(Some(CatalogItemView::Other))
            }
        },
        XmlEventKind::Other => Ok(Some(CatalogItemView::Other)),
    }
}

/// How many events before the end the reading of `text` may give: its length in bytes (one
/// less where that is `usize::MAX`, so that the count of events fits).
pub open spec fn event_limit(text: Seq<char>) -> nat {
    let n = encode_utf8(text).len() as usize;
    if n == usize::MAX {
        (usize::MAX - 1) as nat
    } else {
        n as nat
    }
}

/// `items` followed by the items of `rest`, or the failure of `rest`.
pub open spec fn prepend_items(
    items: Seq<CatalogItemView>,
    rest: Result<Seq<CatalogItemView>, CatalogFailure>,
) -> Result<Seq<CatalogItemView>, CatalogFailure> {
    match rest {
        Ok(r) => Ok(items + r),
        Err(e) => Err(e),
    }
}

/// The items of the events from `index` on, with at most `budget` events read.
pub open spec fn items_from(text: Seq<char>, index: nat, budget: nat) -> Result<
    Seq<CatalogItemView>,
    CatalogFailure,
>
    decreases budget,
{
    if budget == 0 {
        Err(CatalogFailure::Runaway)
    } else {
        match item_at(text, index) {
            Err(e) => Err(e),
            Ok(None) => Ok(Seq::empty()),
            Ok(Some(it)) => prepend_items(seq![it], items_from(text, index + 1, (budget - 1) as nat)),
        }
    }
}

/// The items that the XML events of `text` are, in document order, up to its end.
pub open spec fn catalog_items(text: Seq<char>) -> Result<Seq<CatalogItemView>, CatalogFailure> {
    items_from(text, 0, event_limit(text) + 1)
}

/// What reading the catalog `text` gives: the entries of its items, or why it failed.
pub open spec fn catalog_outcome(text: Seq<char>) -> Result<Seq<CatalogEntryView>, CatalogFailure> {
    match catalog_items(text) {
        Ok(items) => Ok(catalog_entries(items)),
        Err(e) => Err(e),
    }
}

/// The value of the attribute `key` of a tag, if the tag has it.
fn attribute(tag: &XmlTag, decoder: Decoder, key: &str) -> (r: Result<
    Option<String>,
    CatalogError,
>)
    ensures
        match r {
            Ok(v) => attribute_outcome(tag.source(), tag.trimmed(), tag.position(), key@) == Ok::<
                Option<Seq<char>>,
                CatalogFailure,
            >(opt_view(v)),
            Err(e) => attribute_outcome(tag.source(), tag.trimmed(), tag.position(), key@) == Err::<
                Option<Seq<char>>,
                CatalogFailure,
            >(e@),
        },
{
    let attr = match try_get_attribute(tag, key) {
        Ok(Some(attr)) => attr,
        Ok(None) => {
            return Ok(None);
        },
        Err(e) => {
            return Err(CatalogError::Attribute(key.to_owned(), e));
        },
    };
    match decode_and_unescape_value(&attr, decoder) {
        Ok(value) => Ok(Some(value)),
        Err(e) => Err(CatalogError::Decode(key.to_owned(), e)),
    }
}

/// Whether the bytes `b` spell the ASCII text `t`.
pub open spec fn spells(b: Seq<u8>, t: Seq<char>) -> bool {
    b.len() == t.len() && forall|i: int| 0 <= i < b.len() ==> b[i] as int == #[trigger] t[i] as int
}

/// Whether the tag name `name` is `expected`.
fn is_named(name: &Vec<u8>, expected: &str) -> (r: bool)
    ensures
        r == spells(name@, expected@),
{
    let len: usize = expected.unicode_len();
    if name.len() != len {
        return false;
    }
    let mut i: usize = 0;
    while i < len
        invariant
            len == expected@.len() == name@.len(),
            i <= len,
            forall|j: int| 0 <= j < i ==> name@[j] as int == #[trigger] expected@[j] as int,
        decreases len - i,
    {
        if name[i] as u32 != expected.get_char(i) as u32 {
            return false;
        }
        i = i + 1;
    }
    true
}

/// Reads the catalog XML: every `<software>` with a location and a revision, attributed to the
/// `<boxmodel>` it is nested in, in document order.
pub fn parse_catalog(xml: &str) -> (r: Result<Vec<CatalogEntry>, CatalogError>)
    ensures
        match r {
            Ok(entries) => catalog_outcome(xml@) == Ok::<Seq<CatalogEntryView>, CatalogFailure>(
                entries_view(entries@),
            ),
            Err(e) => catalog_outcome(xml@) == Err::<Seq<CatalogEntryView>, CatalogFailure>(e@),
        },
{
    let mut reader = open_reader(xml);
    set_trim_text(&mut reader, true);
    let mut scanner = CatalogScan::new();
    let ghost mut items: Seq<CatalogItemView> = Seq::empty();
    // Each event consumes input, so a text of `limit` bytes has at most `limit` events before
    // its end.
    let bytes: usize = xml.len();
    let limit: usize = if bytes == usize::MAX {
        usize::MAX - 1
    } else {
        bytes
    };
    let mut count: usize = 0;
    assert(prepend_items(Seq::empty(), catalog_items(xml@)) == catalog_items(xml@)) by {
        match catalog_items(xml@) {
            Ok(r) => {
                assert(Seq::<CatalogItemView>::empty() + r =~= r);
            },
            Err(_) => {},
        }
    }
    loop
        invariant_except_break
            reader.position() == count,
            count <= limit + 1,
            catalog_items(xml@) == prepend_items(
                items,
                items_from(xml@, count as nat, (limit + 1 - count) as nat),
            ),
        invariant
            reader.source() == xml@,
            reader.trimmed(),
            limit == event_limit(xml@),
            scanner@ == scan(items),
        ensures
            catalog_items(xml@) == Ok::<Seq<CatalogItemView>, CatalogFailure>(items),
        decreases limit + 1 - count,
    {
        if count > limit {
            return Err(CatalogError::Runaway);
        }
        let ghost at = count as nat;
        let ghost budget = (limit + 1 - count) as nat;
        count = count + 1;
        let event = match read_event(&mut reader) {
            Ok(event) => event,
            Err(e) => {
                return Err(CatalogError::Xml(e));
            },
        };
        let decoder = reader_decoder(&reader);
        let item = match event {
            XmlEvent::Eof => {
                proof {
                    assert(item_at(xml@, at) == Ok::<Option<CatalogItemView>, CatalogFailure>(None));
                    assert(items_from(xml@, at, budget) == Ok::<Seq<CatalogItemView>, CatalogFailure>(
                        Seq::empty(),
                    ));
                    assert(items + Seq::<CatalogItemView>::empty() =~= items);
                }
                break ;
            },
            XmlEvent::Start(tag) => {
                let name = start_name(&tag);
                if is_named(&name, "boxmodel") {
                    match attribute(&tag, decoder, "name") {
                        Ok(n) => CatalogItem::ModelStart(n),
                        Err(e) => {
                            return Err(e);
                        },
                    }
                } else if is_named(&name, "software") {
                    match software_item(&tag, decoder) {
                        Ok(it) => it,
                        Err(e) => {
                            return Err(e);
                        },
                    }
                } else {
                    CatalogItem::Other
                }
            },
            XmlEvent::Empty(tag) => {
                let name = start_name(&tag);
                if is_named(&name, "software") {
                    match software_item(&tag, decoder) {
                        Ok(it) => it,
                        Err(e) => {
                            return Err(e);
                        },
                    }
                } else {
                    CatalogItem::Other
                }
            },
            XmlEvent::End(tag) => {
                let name = end_name(&tag);
                if is_named(&name, "boxmodel") {
                    CatalogItem::ModelEnd
                } else {
                    CatalogItem::Other
                }
            },
            XmlEvent::Other => CatalogItem::Other,
        };
        assert(item_at(xml@, at) == Ok::<Option<CatalogItemView>, CatalogFailure>(Some(item@)));
        let ghost before = items;
        scanner.feed(&item);
        proof {
            items = items.push(item@);
            assert(items.drop_last() =~= before);
            match items_from(xml@, count as nat, (limit + 1 - count) as nat) {
                Ok(rest) => {
                    assert(before + (seq![item@] + rest) =~= items + rest);
                },
                Err(_) => {},
            }
        }
    }
    let entries = scanner.into_entries();
    Ok(entries)
}

/// The item for a `<software>` tag: its `fileurl`, and its `revision` where it has a `fileurl`.
fn software_item(tag: &XmlTag, decoder: Decoder) -> (r: Result<CatalogItem, CatalogError>)
    ensures
        match r {
            Ok(item) => software_outcome(tag.source(), tag.trimmed(), tag.position()) == Ok::<
                CatalogItemView,
                CatalogFailure,
            >(item@),
            Err(e) => software_outcome(tag.source(), tag.trimmed(), tag.position()) == Err::<
                CatalogItemView,
                CatalogFailure,
            >(e@),
        },
{
    let fileurl = match attribute(tag, decoder, "fileurl") {
        Ok(u) => u,
        Err(e) => {
            return Err(e);
        },
    };
    match fileurl {
        None => Ok(CatalogItem::Software(None, None)),
        Some(u) => {
            let revision = match attribute(tag, decoder, "revision") {
                Ok(rv) => rv,
                Err(e) => {
                    return Err(e);
                },
            };
            Ok(CatalogItem::Software(Some(u), revision))
        },
    }
}

/// Whether an item opens or closes a `<boxmodel>`.
pub open spec fn is_model_item(item: CatalogItemView) -> bool {
    item is ModelStart || item is ModelEnd
}

/// Item `i` opens the model named `p`, and no model opens or closes after it before item `j`.
pub open spec fn encloses(items: Seq<CatalogItemView>, i: int, j: int, p: Seq<char>) -> bool {
    &&& 0 <= i < j <= items.len()
    &&& items[i] == CatalogItemView::ModelStart(Some(p))
    &&& forall|k: int| i < k < j ==> !is_model_item(#[trigger] items[k])
}

/// The scan is inside the model named `p` exactly where a `<boxmodel name=p>` opened and no
/// model opened or closed since.
pub proof fn lemma_scan_product(items: Seq<CatalogItemView>, p: Seq<char>)
    ensures
        scan(items).product == Some(p) <==> exists|i: int| encloses(items, i, items.len() as int, p),
    decreases items.len(),
{
    if items.len() > 0 {
        let rest = items.drop_last();
        let n = items.len() - 1;
        lemma_scan_product(rest, p);
        assert(items.last() == items[n]);
        if is_model_item(items[n]) {
            if scan(items).product == Some(p) {
                assert(encloses(items, n, items.len() as int, p));
            }
            if exists|i: int| encloses(items, i, items.len() as int, p) {
                let i = choose|i: int| encloses(items, i, items.len() as int, p);
                assert(i == n);
            }
        } else {
            if exists|i: int| encloses(rest, i, rest.len() as int, p) {
                let i = choose|i: int| encloses(rest, i, rest.len() as int, p);
                assert forall|k: int| i < k < items.len() implies !is_model_item(#[trigger] items[k]) by {
                    if k < n {
                        assert(items[k] == rest[k]);
                    }
                }
                assert(encloses(items, i, items.len() as int, p));
            }
            if exists|i: int| encloses(items, i, items.len() as int, p) {
                let i = choose|i: int| encloses(items, i, items.len() as int, p);
                assert(i < n);
                assert forall|k: int| i < k < rest.len() implies !is_model_item(#[trigger] rest[k]) by {
                    assert(items[k] == rest[k]);
                }
                assert(encloses(rest, i, rest.len() as int, p));
            }
        }
    }
}

/// Software is attributed to the model it is nested in: every entry comes from a `<software>`
/// with that location and revision, inside a `<boxmodel>` of that name that is still open.
pub proof fn lemma_entries_come_from_enclosing_model(items: Seq<CatalogItemView>, k: int)
    requires
        0 <= k < catalog_entries(items).len(),
    ensures
        exists|i: int, j: int|
            #![trigger encloses(items, i, j, catalog_entries(items)[k].product)]
            encloses(items, i, j, catalog_entries(items)[k].product) && j < items.len() && items[j]
                == CatalogItemView::Software(
                Some(catalog_entries(items)[k].fileurl),
                Some(catalog_entries(items)[k].revision),
            ),
    decreases items.len(),
{
    let rest = items.drop_last();
    let n = items.len() - 1;
    let e = catalog_entries(items)[k];
    assert(items.last() == items[n]);
    if k < catalog_entries(rest).len() {
        assert(catalog_entries(rest)[k] == e);
        lemma_entries_come_from_enclosing_model(rest, k);
        let (i, j) = choose|i: int, j: int|
            #![trigger encloses(rest, i, j, e.product)]
            encloses(rest, i, j, e.product) && j < rest.len() && rest[j]
                == CatalogItemView::Software(Some(e.fileurl), Some(e.revision));
        assert forall|m: int| i < m < j implies !is_model_item(#[trigger] items[m]) by {
            assert(items[m] == rest[m]);
        }
        assert(items[i] == rest[i] && items[j] == rest[j]);
        assert(encloses(items, i, j, e.product));
    } else {
        lemma_scan_product(rest, e.product);
        let i = choose|i: int| encloses(rest, i, rest.len() as int, e.product);
        assert forall|m: int| i < m < n implies !is_model_item(#[trigger] items[m]) by {
            assert(items[m] == rest[m]);
        }
        assert(items[i] == rest[i]);
        assert(encloses(items, i, n, e.product));
    }
}

/// Software nested in a named model is not lost: a `<software>` with a location and a revision,
/// inside a `<boxmodel>` that is still open, gives an entry for that model.
pub proof fn lemma_enclosed_software_is_listed(
    items: Seq<CatalogItemView>,
    i: int,
    j: int,
    p: Seq<char>,
    u: Seq<char>,
    r: Seq<char>,
)
    requires
        encloses(items, i, j, p),
        j < items.len(),
        items[j] == CatalogItemView::Software(Some(u), Some(r)),
    ensures
        catalog_entries(items).contains(CatalogEntryView { product: p, revision: r, fileurl: u }),
    decreases items.len(),
{
    let rest = items.drop_last();
    let n = items.len() - 1;
    assert(items.last() == items[n]);
    let e = CatalogEntryView { product: p, revision: r, fileurl: u };
    if j < n {
        assert forall|m: int| i < m < j implies !is_model_item(#[trigger] rest[m]) by {
            assert(items[m] == rest[m]);
        }
        assert(rest[i] == items[i] && rest[j] == items[j]);
        lemma_enclosed_software_is_listed(rest, i, j, p, u, r);
        let a = choose|a: int| 0 <= a < catalog_entries(rest).len() && catalog_entries(rest)[a] == e;
        assert(catalog_entries(items)[a] == e);
    } else {
        assert forall|m: int| i < m < rest.len() implies !is_model_item(#[trigger] rest[m]) by {
            assert(items[m] == rest[m]);
        }
        assert(rest[i] == items[i]);
        assert(encloses(rest, i, rest.len() as int, p));
        lemma_scan_product(rest, p);
        let es = catalog_entries(items);
        assert(es[es.len() - 1] == e);
    }
}


/// The items read from `index` on are the events from `index` on, up to the end.
proof fn lemma_items_from_are_the_events(text: Seq<char>, index: nat, budget: nat)
    requires
        items_from(text, index, budget) is Ok,
    ensures
        forall|j: int|
            0 <= j < items_from(text, index, budget)->Ok_0.len() ==> #[trigger] item_at(
                text,
                (index + j) as nat,
            ) == Ok::<Option<CatalogItemView>, CatalogFailure>(
                Some(items_from(text, index, budget)->Ok_0[j]),
            ),
        item_at(text, index + items_from(text, index, budget)->Ok_0.len()) == Ok::<
            Option<CatalogItemView>,
            CatalogFailure,
        >(None),
    decreases budget,
{
    let items = items_from(text, index, budget)->Ok_0;
    match item_at(text, index) {
        Ok(Some(it)) => {
            let rest_r = items_from(text, index + 1, (budget - 1) as nat);
            lemma_items_from_are_the_events(text, index + 1, (budget - 1) as nat);
            let rest = rest_r->Ok_0;
            assert(items =~= seq![it] + rest);
            assert forall|j: int| 0 <= j < items.len() implies #[trigger] item_at(
                text,
                (index + j) as nat,
            ) == Ok::<Option<CatalogItemView>, CatalogFailure>(Some(items[j])) by {
                if j > 0 {
                    assert(items[j] == rest[j - 1]);
                    assert((index + 1 + (j - 1)) as nat == (index + j) as nat);
                }
            }
            assert(index + 1 + rest.len() == index + items.len());
        },
        _ => {},
    }
}

/// The catalog's items are its XML events in document order: where the catalog reads, item `j`
/// is what the `j`-th event of the text is, and the event after the last item is the end.
pub proof fn lemma_catalog_items_are_the_events(text: Seq<char>)
    requires
        catalog_items(text) is Ok,
    ensures
        forall|j: int|
            0 <= j < catalog_items(text)->Ok_0.len() ==> #[trigger] item_at(text, j as nat)
                == Ok::<Option<CatalogItemView>, CatalogFailure>(
                Some(catalog_items(text)->Ok_0[j]),
            ),
        item_at(text, catalog_items(text)->Ok_0.len()) == Ok::<
            Option<CatalogItemView>,
            CatalogFailure,
        >(None),
{
    lemma_items_from_are_the_events(text, 0, event_limit(text) + 1);
    let items = catalog_items(text)->Ok_0;
    assert forall|j: int| 0 <= j < items.len() implies #[trigger] item_at(text, j as nat) == Ok::<
        Option<CatalogItemView>,
        CatalogFailure,
    >(Some(items[j])) by {
        assert((0 + j) as nat == j as nat);
    }
}

/// Reading from event `i` with a budget that covers the events up to the end at `n` gives the
/// items of those events.
proof fn lemma_items_from_reach_end(text: Seq<char>, i: nat, n: nat, budget: nat)
    requires
        i <= n,
        budget >= n - i + 1,
        forall|j: nat| i <= j < n ==> (#[trigger] item_at(text, j)) is Ok && item_at(text, j)->Ok_0 is Some,
        item_at(text, n) == Ok::<Option<CatalogItemView>, CatalogFailure>(None),
    ensures
        items_from(text, i, budget) is Ok,
        items_from(text, i, budget)->Ok_0.len() == n - i,
    decreases n - i,
{
    if i < n {
        assert(item_at(text, i) is Ok && item_at(text, i)->Ok_0 is Some);
        lemma_items_from_reach_end(text, i + 1, n, (budget - 1) as nat);
    }
}

/// The catalog is read to its end: where every event of the text before the `n`-th is read, the
/// `n`-th is its end, and `n` is no more than the text's length in bytes, the catalog reads, and
/// its items are exactly those `n` events, in order. No budget cuts a catalog of any size that
/// fits in memory short.
pub proof fn lemma_catalog_read_to_its_end(text: Seq<char>, n: nat)
    requires
        encode_utf8(text).len() < usize::MAX,
        n <= encode_utf8(text).len(),
        forall|j: nat| j < n ==> (#[trigger] item_at(text, j)) is Ok && item_at(text, j)->Ok_0 is Some,
        item_at(text, n) == Ok::<Option<CatalogItemView>, CatalogFailure>(None),
    ensures
        catalog_items(text) is Ok,
        catalog_items(text)->Ok_0.len() == n,
        forall|j: int|
            0 <= j < n ==> #[trigger] item_at(text, j as nat) == Ok::<
                Option<CatalogItemView>,
                CatalogFailure,
            >(Some(catalog_items(text)->Ok_0[j])),
        catalog_outcome(text) == Ok::<Seq<CatalogEntryView>, CatalogFailure>(
            catalog_entries(catalog_items(text)->Ok_0),
        ),
{
    lemma_items_from_reach_end(text, 0, n, event_limit(text) + 1);
    lemma_catalog_items_are_the_events(text);
}

/// Whether the event at `m` of `text` opens or closes a `<boxmodel>`.
pub open spec fn is_model_event(text: Seq<char>, m: int) -> bool {
    item_at(text, m as nat) matches Ok(Some(it)) && is_model_item(it)
}

/// Entries are exactly the `<software>` nested in a named `<boxmodel>` of the XML text: each
/// entry of a catalog that reads is a `<software>` event with that location and revision, after
/// a `<boxmodel>` event of that name with no `<boxmodel>` opened or closed in between.
pub proof fn lemma_parsed_entries_come_from_enclosing_model(text: Seq<char>, k: int)
    requires
        catalog_outcome(text) is Ok,
        0 <= k < catalog_outcome(text)->Ok_0.len(),
    ensures
        exists|i: int, j: int|
            #![trigger item_at(text, i as nat), item_at(text, j as nat)]
            0 <= i < j && item_at(text, i as nat) == Ok::<Option<CatalogItemView>, CatalogFailure>(
                Some(CatalogItemView::ModelStart(Some(catalog_outcome(text)->Ok_0[k].product))),
            ) && item_at(text, j as nat) == Ok::<Option<CatalogItemView>, CatalogFailure>(
                Some(
                    CatalogItemView::Software(
                        Some(catalog_outcome(text)->Ok_0[k].fileurl),
                        Some(catalog_outcome(text)->Ok_0[k].revision),
                    ),
                ),
            ) && forall|m: int| i < m < j ==> !#[trigger] is_model_event(text, m),
{
    let items = catalog_items(text)->Ok_0;
    lemma_catalog_items_are_the_events(text);
    lemma_entries_come_from_enclosing_model(items, k);
    let e = catalog_entries(items)[k];
    let (i, j) = choose|i: int, j: int|
        #![trigger encloses(items, i, j, e.product)]
        encloses(items, i, j, e.product) && j < items.len() && items[j]
            == CatalogItemView::Software(Some(e.fileurl), Some(e.revision));
    assert(item_at(text, i as nat) == Ok::<Option<CatalogItemView>, CatalogFailure>(Some(items[i])));
    assert(item_at(text, j as nat) == Ok::<Option<CatalogItemView>, CatalogFailure>(Some(items[j])));
    assert forall|m: int| i < m < j implies !#[trigger] is_model_event(text, m) by {
        assert(item_at(text, m as nat) == Ok::<Option<CatalogItemView>, CatalogFailure>(
            Some(items[m]),
        ));
        assert(!is_model_item(items[m]));
    }
}


/// No `<software>` nested in a named `<boxmodel>` of the XML text is lost: where the catalog
/// reads, such a `<software>` with a location and a revision gives an entry for that model.
pub proof fn lemma_parsed_enclosed_software_is_listed(
    text: Seq<char>,
    i: int,
    j: int,
    p: Seq<char>,
    u: Seq<char>,
    r: Seq<char>,
)
    requires
        catalog_items(text) is Ok,
        0 <= i < j < catalog_items(text)->Ok_0.len(),
        item_at(text, i as nat) == Ok::<Option<CatalogItemView>, CatalogFailure>(
            Some(CatalogItemView::ModelStart(Some(p))),
        ),
        item_at(text, j as nat) == Ok::<Option<CatalogItemView>, CatalogFailure>(
            Some(CatalogItemView::Software(Some(u), Some(r))),
        ),
        forall|m: int| i < m < j ==> !#[trigger] is_model_event(text, m),
    ensures
        catalog_outcome(text) is Ok,
        catalog_outcome(text)->Ok_0.contains(CatalogEntryView { product: p, revision: r, fileurl: u }),
{
    let items = catalog_items(text)->Ok_0;
    lemma_catalog_items_are_the_events(text);
    assert(item_at(text, i as nat) == Ok::<Option<CatalogItemView>, CatalogFailure>(Some(items[i])));
    assert(item_at(text, j as nat) == Ok::<Option<CatalogItemView>, CatalogFailure>(Some(items[j])));
    assert forall|m: int| i < m < j implies !is_model_item(#[trigger] items[m]) by {
        assert(item_at(text, m as nat) == Ok::<Option<CatalogItemView>, CatalogFailure>(
            Some(items[m]),
        ));
        assert(!is_model_event(text, m));
    }
    assert(encloses(items, i, j, p));
    lemma_enclosed_software_is_listed(items, i, j, p, u, r);
}

} // verus!
