//! The names and locations that the firmware index is made of: the product a device reports
//! itself as, and the location of a firmware image relative to the software root.

use vstd::prelude::*;

use crate::text::{compare_text, contains_char, find_char, first_index, starts_with, Precedence};
use url::ParseError as UrlParseError;
use url::Url;

verus! {

/// The `url` crate's URL type.
#[verifier::external_type_specification]
#[verifier::external_body]
pub struct ExUrl(Url);

/// The `url` crate's parse error.
#[verifier::external_type_specification]
#[verifier::external_body]
pub struct ExUrlParseError(UrlParseError);

/// The serialization that `url::Url::parse` gives the text, or `None` where it refuses it.
pub uninterp spec fn url_parse_text(input: Seq<char>) -> Option<Seq<char>>;

/// The serialization that `url::Url::join` gives the text joined onto the URL serialized as
/// `base`, or `None` where it refuses it.
pub uninterp spec fn url_join_text(base: Seq<char>, input: Seq<char>) -> Option<Seq<char>>;

/// An absolute URL, held together with its serialization.
pub struct WebUrl {
    url: Url,
    text: String,
}

impl View for WebUrl {
    type V = Seq<char>;

    /// The URL's serialization.
    closed spec fn view(&self) -> Seq<char> {
        self.text@
    }
}

impl WebUrl {
    /// The URL's serialization.
    pub fn as_str(&self) -> (r: &str)
        ensures
            r@ == self@,
    {
        self.text.as_str()
    }

    /// Resolves `input` against this URL, as a link in a page at this URL would be.
    pub fn join(&self, input: &str) -> (r: Result<WebUrl, UrlError>)
        ensures
            r is Ok <==> url_join_text(self@, input@) is Some,
            r matches Ok(u) ==> url_join_text(self@, input@) == Some(u@),
    {
        match url_join(self, input) {
            Ok(u) => Ok(u),
            Err(e) => Err(UrlError(e)),
        }
    }
}

/// Calls `url::Url::parse` and keeps the serialization (`Url::as_str`) of what it gives. Claims
/// that the outcome is a function of the input text alone, named `url_parse_text`.
#[verifier::external_body]
fn url_parse(input: &str) -> (r: Result<WebUrl, UrlParseError>)
    ensures
        match r {
            Ok(u) => url_parse_text(input@) == Some(u@),
            Err(_) => url_parse_text(input@) is None,
        },
{
    match Url::parse(input) {
        Ok(url) => Ok(WebUrl { text: url.as_str().to_owned(), url }),
        Err(e) => Err(e),
    }
}

/// Calls `url::Url::join` and keeps the serialization of what it gives. Claims that the outcome
/// is a function of the base URL's serialization and the input text alone, named
/// `url_join_text`.
#[verifier::external_body]
fn url_join(base: &WebUrl, input: &str) -> (r: Result<WebUrl, UrlParseError>)
    ensures
        match r {
            Ok(u) => url_join_text(base@, input@) == Some(u@),
            Err(_) => url_join_text(base@, input@) is None,
        },
{
    match base.url.join(input) {
        Ok(url) => Ok(WebUrl { text: url.as_str().to_owned(), url }),
        Err(e) => Err(e),
    }
}

/// A URL could not be built.
#[derive(Debug)]
pub struct UrlError(pub UrlParseError);

/// The text of the root that catalog locations are relative to.
pub open spec fn software_root_text() -> Seq<char> {
    "https://www.axis.com/ftp/pub/axis/software/"@
}

/// The root that catalog locations are relative to.
pub fn software_root() -> (r: Result<WebUrl, UrlError>)
    ensures
        r is Ok <==> url_parse_text(software_root_text()) is Some,
        r matches Ok(u) ==> url_parse_text(software_root_text()) == Some(u@),
{
    match url_parse("https://www.axis.com/ftp/pub/axis/software/") {
        Ok(u) => Ok(u),
        Err(e) => Err(UrlError(e)),
    }
}

/// Where a location is fetched from: the serialization of the location joined onto the
/// software root, or `None` where either step is refused.
pub open spec fn location_url_text(location: Seq<char>) -> Option<Seq<char>> {
    match url_parse_text(software_root_text()) {
        Some(root) => url_join_text(root, location),
        None => None,
    }
}

/// The brand that catalog model names carry and device product numbers do not.
pub open spec fn brand_prefix() -> Seq<char> {
    "AXIS "@
}

/// The model name without the brand in front of it, if it carries it.
pub open spec fn without_brand(model: Seq<char>) -> Seq<char> {
    if brand_prefix().len() <= model.len() && model.subrange(0, brand_prefix().len() as int)
        == brand_prefix() {
        model.subrange(brand_prefix().len() as int, model.len() as int)
    } else {
        model
    }
}

/// Model names that belong to a product the device reports under a different name, each with
/// that product number.
///
/// Firmware for the 3D people counter is attributed to two models: `P8815-2` up to 10.6.0 and
/// again from 11.11.220, `P8815-2 3D People Counter` in between. Its images report a `ProdNbr`
/// of "P8815-2" and a `ProdFullName` of "AXIS P8815-2 3D People Counter", so folding the latter
/// model into the former both matches the device and gives one continuous version history.
pub open spec fn product_aliases() -> Seq<(Seq<char>, Seq<char>)> {
    seq![("P8815-2 3D People Counter"@, "P8815-2"@)]
}

/// The product number of the first alias entry for `model`, if there is one.
pub open spec fn alias_lookup(aliases: Seq<(Seq<char>, Seq<char>)>, model: Seq<char>) -> Option<
    Seq<char>,
>
    decreases aliases.len(),
{
    if aliases.len() == 0 {
        None
    } else if aliases[0].0 == model {
        Some(aliases[0].1)
    } else {
        alias_lookup(aliases.subrange(1, aliases.len() as int), model)
    }
}

/// The product number a device reports for firmware attributed to a catalog model: the model
/// without its brand, folded onto its product number where the alias table lists it.
pub open spec fn normalized_name(model: Seq<char>) -> Seq<char> {
    let m = without_brand(model);
    match alias_lookup(product_aliases(), m) {
        Some(p) => p,
        None => m,
    }
}

/// The alias table, as text.
fn alias_table() -> (r: Vec<(&'static str, &'static str)>)
    ensures
        r@.map_values(|p: (&'static str, &'static str)| (p.0@, p.1@)) == product_aliases(),
{
    let r = vec![("P8815-2 3D People Counter", "P8815-2")];
    assert(r@.map_values(|p: (&'static str, &'static str)| (p.0@, p.1@)) =~= product_aliases());
    r
}

/// The product number of the first alias entry for `model`.
fn find_alias(model: &str) -> (r: Option<&'static str>)
    ensures
        match r {
            Some(p) => alias_lookup(product_aliases(), model@) == Some(p@),
            None => alias_lookup(product_aliases(), model@) is None,
        },
{
    let table = alias_table();
    let ghost views = table@.map_values(|p: (&'static str, &'static str)| (p.0@, p.1@));
    let mut i: usize = 0;
    assert(views.subrange(0, views.len() as int) =~= views);
    while i < table.len()
        invariant
            i <= table@.len(),
            views == table@.map_values(|p: (&'static str, &'static str)| (p.0@, p.1@)),
            views == product_aliases(),
            alias_lookup(views, model@) == alias_lookup(
                views.subrange(i as int, views.len() as int),
                model@,
            ),
        decreases table.len() - i,
    {
        let (name, number) = table[i];
        let ghost rest = views.subrange(i as int, views.len() as int);
        assert(rest[0] == (name@, number@));
        assert(rest.subrange(1, rest.len() as int) =~= views.subrange(i + 1, views.len() as int));
        if compare_text(name, model) == Precedence::Same {
            return Some(number);
        }
        i = i + 1;
    }
    None
}

/// The name a device reports itself as, i.e. its `Brand.ProdNbr`.
#[derive(Debug, PartialEq, Eq, PartialOrd, Ord, Hash)]
pub struct ShortName(String);

impl Clone for ShortName {
    fn clone(&self) -> (r: Self)
        ensures
            r@ == self@,
    {
        ShortName(self.0.clone())
    }
}

impl View for ShortName {
    type V = Seq<char>;

    closed spec fn view(&self) -> Seq<char> {
        self.0@
    }
}

impl ShortName {
    /// The product number a device reports for firmware attributed to a catalog model.
    ///
    /// The alias cannot be derived from the model name: `P8815-2 3D People Counter` carries a
    /// product type that is not part of the product number, whereas `M1075-L Mk II` names
    /// hardware distinct from `M1075-L` and must not be folded into it. Nothing in the catalog
    /// tells the two cases apart, so they are enumerated in [`product_aliases`] instead.
    pub fn new_normalized(model: &str) -> (r: Self)
        ensures
            r@ == normalized_name(model@),
    {
        // Third-party models (`ExCam XF P1377`, `XP40-Q1785`, `IP Verso 2.0`) carry no brand.
        let brand = "AXIS ";
        let m: &str = if starts_with(model, brand) {
            model.substring_char(brand.unicode_len(), model.unicode_len())
        } else {
            model
        };
        assert(m@ == without_brand(model@));
        match find_alias(m) {
            Some(p) => ShortName(p.to_owned()),
            None => ShortName(m.to_owned()),
        }
    }

    /// The name as an index stores it, taken as it is (the index holds names that were
    /// normalized when it was built).
    pub fn from_stored(name: &str) -> (r: Self)
        ensures
            r@ == name@,
    {
        ShortName(name.to_owned())
    }

    /// The name as text.
    pub fn as_str(&self) -> (r: &str)
        ensures
            r@ == self@,
    {
        self.0.as_str()
    }

    /// The name as an owned text.
    pub fn to_string(&self) -> (r: String)
        ensures
            r@ == self@,
    {
        self.0.as_str().to_owned()
    }
}

/// Why a `fileurl` cannot name a file underneath a directory of ours, as a value.
pub enum PathFault {
    /// A component is empty (`//`, a trailing `/`, or nothing at all).
    EmptyComponent,
    /// A component is `.` or `..`.
    DotComponent(Seq<char>),
    /// A component holds `:` or `\`, which a drive-relative or UNC-looking path would.
    NotAFileName(Seq<char>),
}

/// Why a `fileurl` cannot name a file underneath a directory of ours.
#[derive(Debug, PartialEq, Eq)]
pub enum FileUrlError {
    /// A component is empty (`//`, a trailing `/`, or nothing at all).
    EmptyComponent,
    /// A component is `.` or `..`; the component.
    DotComponent(String),
    /// A component holds `:` or `\`; the component.
    NotAFileName(String),
}

impl View for FileUrlError {
    type V = PathFault;

    open spec fn view(&self) -> PathFault {
        match self {
            FileUrlError::EmptyComponent => PathFault::EmptyComponent,
            FileUrlError::DotComponent(c) => PathFault::DotComponent(c@),
            FileUrlError::NotAFileName(c) => PathFault::NotAFileName(c@),
        }
    }
}

/// The number of `/` that `s` begins with.
pub open spec fn leading_slashes(s: Seq<char>) -> nat
    decreases s.len(),
{
    if s.len() > 0 && s[0] == '/' {
        1 + leading_slashes(s.subrange(1, s.len() as int))
    } else {
        0
    }
}

/// `s` without the `/` it begins with, as `trim_start_matches('/')` gives it.
pub open spec fn trim_leading_slashes(s: Seq<char>) -> Seq<char> {
    s.subrange(leading_slashes(s) as int, s.len() as int)
}

/// What is wrong with one component of a location, if anything.
pub open spec fn component_fault(c: Seq<char>) -> Option<PathFault> {
    if c.len() == 0 {
        Some(PathFault::EmptyComponent)
    } else if c == seq!['.'] || c == seq!['.', '.'] {
        Some(PathFault::DotComponent(c))
    } else if c.contains(':') || c.contains('\\') {
        Some(PathFault::NotAFileName(c))
    } else {
        None
    }
}

/// What is wrong with the first faulty `/`-separated component of `r`, if any is.
pub open spec fn path_fault(r: Seq<char>) -> Option<PathFault>
    decreases r.len(),
{
    let i = first_index(r, '/');
    match component_fault(r.subrange(0, i as int)) {
        Some(f) => Some(f),
        None => if i >= r.len() {
            None
        } else {
            path_fault(r.subrange(i + 1int, r.len() as int))
        },
    }
}

/// The `/`-separated components of `r`, as `split('/')` gives them.
pub open spec fn components(r: Seq<char>) -> Seq<Seq<char>>
    decreases r.len(),
{
    let i = first_index(r, '/');
    if i >= r.len() {
        seq![r.subrange(0, i as int)]
    } else {
        seq![r.subrange(0, i as int)] + components(r.subrange(i + 1int, r.len() as int))
    }
}

/// What `FileUrl::new` makes of a `fileurl`: the location without its leading `/`, or what is
/// wrong with its first faulty component.
pub open spec fn file_url_outcome(fileurl: Seq<char>) -> Result<Seq<char>, PathFault> {
    match path_fault(trim_leading_slashes(fileurl)) {
        Some(f) => Err(f),
        None => Ok(trim_leading_slashes(fileurl)),
    }
}

/// What is wrong with the component of `s` from `start` up to `end`, if anything.
fn component_check(s: &str, start: usize, end: usize) -> (r: Option<FileUrlError>)
    requires
        start <= end <= s@.len(),
    ensures
        match r {
            Some(e) => component_fault(s@.subrange(start as int, end as int)) == Some(e@),
            None => component_fault(s@.subrange(start as int, end as int)) is None,
        },
{
    let ghost c = s@.subrange(start as int, end as int);
    if start == end {
        return Some(FileUrlError::EmptyComponent);
    }
    let n: usize = end - start;
    let is_dot: bool = if n == 1 {
        s.get_char(start) == '.'
    } else if n == 2 {
        s.get_char(start) == '.' && s.get_char(start + 1) == '.'
    } else {
        false
    };
    proof {
        if n == 1 {
            assert(c[0] == s@[start as int]);
            if s@[start as int] == '.' {
                assert(c =~= seq!['.']);
            }
        } else if n == 2 {
            assert(c[0] == s@[start as int]);
            assert(c[1] == s@[start + 1]);
            if s@[start as int] == '.' && s@[start + 1] == '.' {
                assert(c =~= seq!['.', '.']);
            }
        }
        assert(is_dot == (c == seq!['.'] || c == seq!['.', '.'])) by {
            if c == seq!['.'] {
                assert(c[0] == '.');
            }
            if c == seq!['.', '.'] {
                assert(c[0] == '.' && c[1] == '.');
            }
        }
    }
    if is_dot {
        return Some(FileUrlError::DotComponent(s.substring_char(start, end).to_owned()));
    }
    if contains_char(s, ':', start, end) || contains_char(s, '\\', start, end) {
        return Some(FileUrlError::NotAFileName(s.substring_char(start, end).to_owned()));
    }
    None
}

/// The location of a fimage, relative to the software root.
///
/// One location serves both purposes it is needed for: joined onto the software root it is
/// where the image is fetched from, and joined onto the firmware directory it is where the image
/// is kept. Mirroring the layout rather than inventing one means no naming convention of ours can
/// disagree with the catalog, and images that more than one model shares are kept once, not once
/// per product.
#[derive(Debug, PartialEq, Eq, PartialOrd, Ord, Hash)]
pub struct FileUrl(String);

impl Clone for FileUrl {
    fn clone(&self) -> (r: Self)
        ensures
            r@ == self@,
    {
        proof {
            use_type_invariant(self);
        }
        FileUrl(self.0.clone())
    }
}

impl View for FileUrl {
    type V = Seq<char>;

    closed spec fn view(&self) -> Seq<char> {
        self.0@
    }
}

impl FileUrl {
    /// Every component of a location names a plain file or directory.
    #[verifier::type_invariant]
    closed spec fn wf(self) -> bool {
        path_fault(self.0@) is None
    }

    /// Take a `fileurl` as the catalog spells it, rejecting what cannot name a file underneath
    /// a directory of ours.
    ///
    /// The catalog is fetched over the network, and its `fileurl` decides where bytes land on
    /// this machine, so a component that escapes the firmware directory has to be refused rather
    /// than trusted not to appear.
    pub fn new(fileurl: &str) -> (r: Result<Self, FileUrlError>)
        ensures
            match r {
                Ok(u) => file_url_outcome(fileurl@) == Ok::<Seq<char>, PathFault>(u@),
                Err(e) => file_url_outcome(fileurl@) == Err::<Seq<char>, PathFault>(e@),
            },
    {
        let ghost s = fileurl@;
        let len: usize = fileurl.unicode_len();
        let mut lead: usize = 0;
        assert(s.subrange(0, len as int) =~= s);
        while lead < len && fileurl.get_char(lead) == '/'
            invariant
                s == fileurl@,
                len == s.len(),
                lead <= len,
                leading_slashes(s) == lead + leading_slashes(s.subrange(lead as int, len as int)),
            decreases len - lead,
        {
            let ghost rest = s.subrange(lead as int, len as int);
            assert(rest.subrange(1, rest.len() as int) =~= s.subrange(lead + 1, len as int));
            lead = lead + 1;
        }
        proof {
            let rest = s.subrange(lead as int, len as int);
            if lead < len {
                assert(rest[0] == s[lead as int]);
            }
            assert(leading_slashes(rest) == 0);
        }
        let ghost trimmed = s.subrange(lead as int, len as int);
        assert(trimmed == trim_leading_slashes(s));
        let mut start: usize = lead;
        loop
            invariant
                s == fileurl@,
                len == s.len(),
                lead <= start <= len,
                trimmed == trim_leading_slashes(s),
                trimmed == s.subrange(lead as int, len as int),
                path_fault(trimmed) == path_fault(s.subrange(start as int, len as int)),
            ensures
                path_fault(trimmed) is None,
                trimmed == s.subrange(lead as int, len as int),
            decreases len - start,
        {
            let end: usize = find_char(fileurl, '/', start);
            let ghost r = s.subrange(start as int, len as int);
            assert(r.subrange(0, (end - start) as int) =~= s.subrange(start as int, end as int));
            match component_check(fileurl, start, end) {
                Some(e) => {
                    return Err(e);
                },
                None => {},
            }
            if end == len {
                assert(path_fault(r) is None);
                break ;
            }
            assert(r.subrange((end - start + 1) as int, r.len() as int) =~= s.subrange(
                end + 1,
                len as int,
            ));
            start = end + 1;
        }
        Ok(FileUrl(fileurl.substring_char(lead, len).to_owned()))
    }

    /// The location relative to whichever root it is resolved against.
    pub fn as_str(&self) -> (r: &str)
        ensures
            r@ == self@,
            path_fault(self@) is None,
    {
        proof {
            use_type_invariant(self);
        }
        self.0.as_str()
    }

    /// The location as an owned text.
    pub fn to_string(&self) -> (r: String)
        ensures
            r@ == self@,
    {
        self.0.as_str().to_owned()
    }

    /// The `/`-separated components of the location, in order: what it is made of where it is
    /// joined onto a directory.
    pub fn components(&self) -> (r: Vec<String>)
        ensures
            r@.map_values(|c: String| c@) == components(self@),
    {
        let ghost s = self@;
        let text: &str = self.0.as_str();
        let len: usize = text.unicode_len();
        let mut out: Vec<String> = Vec::new();
        let mut start: usize = 0;
        assert(s.subrange(0, len as int) =~= s);
        loop
            invariant_except_break
                components(s) == out@.map_values(|c: String| c@) + components(
                    s.subrange(start as int, len as int),
                ),
            invariant
                s == text@,
                len == s.len(),
                start <= len,
            ensures
                components(s) == out@.map_values(|c: String| c@),
            decreases len - start,
        {
            let end: usize = find_char(text, '/', start);
            let ghost r = s.subrange(start as int, len as int);
            assert(r.subrange(0, (end - start) as int) =~= s.subrange(start as int, end as int));
            let ghost before = out@.map_values(|c: String| c@);
            out.push(text.substring_char(start, end).to_owned());
            assert(out@.map_values(|c: String| c@) =~= before.push(
                s.subrange(start as int, end as int),
            ));
            if end == len {
                assert(components(r) =~= seq![s.subrange(start as int, end as int)]);
                assert(components(s) =~= out@.map_values(|c: String| c@));
                break ;
            }
            assert(r.subrange((end - start + 1) as int, r.len() as int) =~= s.subrange(
                end + 1,
                len as int,
            ));
            start = end + 1;
            assert(components(s) =~= out@.map_values(|c: String| c@) + components(
                s.subrange(start as int, len as int),
            ));
        }
        out
    }

    /// Where the image is fetched from: the location joined onto the software root.
    pub fn url(&self) -> (r: Result<WebUrl, UrlError>)
        ensures
            r is Ok <==> location_url_text(self@) is Some,
            r matches Ok(u) ==> location_url_text(self@) == Some(u@),
    {
        let root = software_root()?;
        root.join(self.0.as_str())
    }
}



/// A location that passed `FileUrl::new` names nothing outside the directory it is joined to:
/// every one of its components is non-empty, neither `.` nor `..`, and holds no `:` or `\`.
pub proof fn lemma_location_components_are_plain(r: Seq<char>)
    requires
        path_fault(r) is None,
    ensures
        forall|i: int|
            0 <= i < components(r).len() ==> component_fault(#[trigger] components(r)[i]) is None,
    decreases r.len(),
{
    let i = first_index(r, '/');
    if i < r.len() {
        let rest = r.subrange(i + 1int, r.len() as int);
        lemma_location_components_are_plain(rest);
        assert forall|k: int|
            0 <= k < components(r).len() implies component_fault(
            #[trigger] components(r)[k],
        ) is None by {
            if k > 0 {
                assert(components(r)[k] == components(rest)[k - 1]);
            }
        }
    }
}

/// A location is read back as itself: `FileUrl::new` on the text of a `FileUrl` gives that
/// same location, so reading an index cannot introduce a location that building one refused.
pub proof fn lemma_location_rereads(r: Seq<char>)
    requires
        path_fault(r) is None,
    ensures
        file_url_outcome(r) == Ok::<Seq<char>, PathFault>(r),
{
    crate::text::lemma_first_index(r, '/');
    let i = first_index(r, '/');
    assert(r.subrange(0, i as int).len() > 0);
    assert(r[0] != '/');
    assert(leading_slashes(r) == 0);
    assert(r.subrange(0, r.len() as int) =~= r);
}


/// Components joined back together, with a `/` between each two.
pub open spec fn join_components(cs: Seq<Seq<char>>) -> Seq<char>
    decreases cs.len(),
{
    if cs.len() <= 1 {
        if cs.len() == 1 {
            cs[0]
        } else {
            Seq::empty()
        }
    } else {
        cs[0] + seq!['/'] + join_components(cs.subrange(1, cs.len() as int))
    }
}

/// One location serves both purposes: the components that are joined onto the firmware
/// directory, joined with `/`, are the location that is joined onto the software root.
pub proof fn lemma_components_rejoin(r: Seq<char>)
    ensures
        join_components(components(r)) == r,
    decreases r.len(),
{
    crate::text::lemma_first_index(r, '/');
    let i = first_index(r, '/');
    let head = r.subrange(0, i as int);
    if i >= r.len() {
        assert(components(r) =~= seq![head]);
        assert(head =~= r);
    } else {
        let rest = r.subrange(i + 1int, r.len() as int);
        lemma_components_rejoin(rest);
        let cs = components(r);
        assert(cs =~= seq![head] + components(rest));
        assert(cs[0] == head);
        assert(cs.subrange(1, cs.len() as int) =~= components(rest));
        assert(components(rest).len() >= 1);
        assert(r =~= head + seq!['/'] + rest);
    }
}

} // verus!
