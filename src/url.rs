//! Absolute URLs, their origins, and resolution of a reference against a base.
//! Parsing follows the WHATWG URL standard as the `url` crate implements it.
//! Also `urn:cid:` and `urn:btmh:` names.
use vstd::prelude::*;
use vstd::string::*;
use crate::cid::{parse_text_spec, Cid};

verus! {

/// The serialization of the URL that parsing a text gives, if it is an absolute URL.
pub uninterp spec fn url_parse(text: Seq<char>) -> Option<Seq<char>>;

/// The serialization of the URL that resolving `reference` against the URL `base` gives.
pub uninterp spec fn url_join(base: Seq<char>, reference: Seq<char>) -> Option<Seq<char>>;

/// The ASCII serialization of the origin of the URL `href`; `None` for an opaque origin.
pub uninterp spec fn url_origin(href: Seq<char>) -> Option<Seq<char>>;

/// The authority (`user@host:port`) of the URL `href`; empty when it has none.
pub uninterp spec fn url_authority(href: Seq<char>) -> Seq<char>;

/// A text that is the serialization of an absolute URL: it parses back to itself.
pub open spec fn is_absolute_url(text: Seq<char>) -> bool {
    url_parse(text) == Some(text)
}

/// Relies on `url::Url::parse`: the serialization of the parsed URL, if any.
#[verifier::external_body]
fn parse_href(text: &str) -> (r: Option<String>)
    ensures
        r is Some <==> url_parse(text@) is Some,
        r is Some ==> r->Some_0@ == url_parse(text@)->Some_0,
{
    ::url::Url::parse(text).ok().map(String::from)
}

/// Relies on `url::Url::join`: the serialization of `reference` resolved against `base`.
#[verifier::external_body]
fn join_href(base: &str, reference: &str) -> (r: Option<String>)
    ensures
        r is Some <==> url_join(base@, reference@) is Some,
        r is Some ==> r->Some_0@ == url_join(base@, reference@)->Some_0,
{
    match ::url::Url::parse(base) {
        Ok(u) => u.join(reference).ok().map(String::from),
        Err(_) => None,
    }
}

/// Relies on `url::Url::origin` and `url::Origin::ascii_serialization`:
/// `scheme://host[:port]`, the port left out where it is the scheme's default.
#[verifier::external_body]
fn origin_href(href: &str) -> (r: Option<String>)
    ensures
        r is Some <==> url_origin(href@) is Some,
        r is Some ==> r->Some_0@ == url_origin(href@)->Some_0,
{
    match ::url::Url::parse(href) {
        Ok(u) => match u.origin() {
            o @ ::url::Origin::Tuple(..) => Some(o.ascii_serialization()),
            ::url::Origin::Opaque(_) => None,
        },
        Err(_) => None,
    }
}

/// Relies on `url::Url::authority`: the authority of the URL, percent-encoded; empty when it has none.
#[verifier::external_body]
fn authority_href(href: &str) -> (r: String)
    ensures
        r@ == url_authority(href@),
{
    match ::url::Url::parse(href) {
        Ok(u) => u.authority().to_string(),
        Err(_) => String::new(),
    }
}

/// A text that is not an absolute URL, or a reference that cannot be resolved.
#[derive(Debug, Clone, Copy, PartialEq, Eq, Structural)]
pub struct UrlError;

/// An absolute URL, held as its serialization.
#[derive(Debug, Clone)]
pub struct Url {
    href: String,
}

impl View for Url {
    type V = Seq<char>;

    closed spec fn view(&self) -> Seq<char> {
        self.href@
    }
}

impl PartialEq for Url {
    fn eq(&self, other: &Url) -> (r: bool) {
        self.href == other.href
    }
}

impl Eq for Url {
}

impl vstd::std_specs::cmp::PartialEqSpecImpl for Url {
    open spec fn obeys_eq_spec() -> bool {
        true
    }

    open spec fn eq_spec(&self, other: &Url) -> bool {
        self@ == other@
    }
}

impl Url {
    /// Parses an absolute URL.
    pub fn parse(text: &str) -> (r: Result<Url, UrlError>)
        ensures
            r is Ok <==> url_parse(text@) is Some,
            r is Ok ==> r->Ok_0@ == url_parse(text@)->Some_0,
    {
        match parse_href(text) {
            Some(href) => Ok(Url { href }),
            None => Err(UrlError),
        }
    }

    /// Resolves `reference` against this URL.
    pub fn join(&self, reference: &str) -> (r: Result<Url, UrlError>)
        ensures
            r is Ok <==> url_join(self@, reference@) is Some,
            r is Ok ==> r->Ok_0@ == url_join(self@, reference@)->Some_0,
    {
        match join_href(self.href.as_str(), reference) {
            Some(href) => Ok(Url { href }),
            None => Err(UrlError),
        }
    }

    /// The origin of this URL, the key of trust decisions.
    pub fn origin(&self) -> (r: Origin)
        ensures
            r@ == url_origin(self@),
    {
        Origin { serialization: origin_href(self.href.as_str()) }
    }

    /// The authority of this URL: user, host and port, as written in it.
    pub fn authority(&self) -> (r: String)
        ensures
            r@ == url_authority(self@),
    {
        authority_href(self.href.as_str())
    }

    /// The serialization of this URL.
    pub fn as_str(&self) -> (r: &str)
        ensures
            r@ == self@,
    {
        self.href.as_str()
    }

    /// A second value of the same URL.
    pub fn duplicate(&self) -> (r: Url)
        ensures
            r@ == self@,
    {
        Url { href: self.href.clone() }
    }
}

/// The origin of a URL: scheme, host and port, or an opaque origin.
#[derive(Debug, Clone)]
pub struct Origin {
    serialization: Option<String>,
}

impl View for Origin {
    type V = Option<Seq<char>>;

    closed spec fn view(&self) -> Option<Seq<char>> {
        match self.serialization {
            Some(s) => Some(s@),
            None => None,
        }
    }
}

/// Whether two origins are the same; an opaque origin is the same as no other.
pub open spec fn same_origin(a: Option<Seq<char>>, b: Option<Seq<char>>) -> bool {
    a is Some && a == b
}

impl Origin {
    /// Whether this origin and `other` are the same tuple origin.
    pub fn same_as(&self, other: &Origin) -> (r: bool)
        ensures
            r == same_origin(self@, other@),
    {
        match &self.serialization {
            Some(a) => match &other.serialization {
                Some(b) => a.eq(b),
                None => false,
            },
            None => false,
        }
    }

    /// Whether this is a (scheme, host, port) origin rather than an opaque one.
    pub fn is_tuple(&self) -> (r: bool)
        ensures
            r == self@ is Some,
    {
        self.serialization.is_some()
    }

    /// `scheme://host[:port]`, or `null` for an opaque origin.
    pub fn ascii_serialization(&self) -> (r: String)
        ensures
            self@ is Some ==> r@ == self@->Some_0,
    {
        match &self.serialization {
            Some(s) => s.clone(),
            None => String::from_str("null"),
        }
    }

    /// The ASCII serialization of a tuple origin, the key of policy entries; `None` for an opaque one.
    pub fn ascii_key(&self) -> (r: Option<String>)
        ensures
            r is Some <==> self@ is Some,
            r is Some ==> r->Some_0@ == self@->Some_0,
    {
        match &self.serialization {
            Some(s) => Some(s.clone()),
            None => None,
        }
    }

    /// A second value of the same origin.
    pub fn duplicate(&self) -> (r: Origin)
        ensures
            r@ == self@,
    {
        match &self.serialization {
            Some(s) => Origin { serialization: Some(s.clone()) },
            None => Origin { serialization: None },
        }
    }
}



pub open spec fn urn_cid_prefix() -> Seq<char> {
    seq!['u', 'r', 'n', ':', 'c', 'i', 'd', ':']
}

pub open spec fn urn_btmh_prefix() -> Seq<char> {
    seq!['u', 'r', 'n', ':', 'b', 't', 'm', 'h', ':']
}

/// What follows `prefix` in `s`, if `s` begins with it.
pub open spec fn after_prefix(s: Seq<char>, prefix: Seq<char>) -> Option<Seq<char>> {
    if s.len() >= prefix.len() && s.subrange(0, prefix.len() as int) == prefix {
        Some(s.subrange(prefix.len() as int, s.len() as int))
    } else {
        None
    }
}

/// A name that is not of the expected kind.
#[derive(Debug, Clone, PartialEq, Eq)]
pub enum Error {
    Url(UrlError),
    Value(String),
}

fn strip_prefix<'a>(s: &'a str, prefix: &str) -> (r: Option<&'a str>)
    ensures
        match after_prefix(s@, prefix@) {
            Some(rest) => r is Some && r->Some_0@ == rest,
            None => r is None,
        },
{
    let n = s.unicode_len();
    let p = prefix.unicode_len();
    if n < p {
        return None;
    }
    let mut i: usize = 0;
    while i < p
        invariant
            p == prefix@.len(),
            n == s@.len(),
            p <= n,
            i <= p,
            forall|j: int| 0 <= j < i ==> s@[j] == prefix@[j],
        decreases p - i,
    {
        if s.get_char(i) != prefix.get_char(i) {
            assert(s@.subrange(0, p as int)[i as int] != prefix@[i as int]);
            return None;
        }
        i = i + 1;
    }
    assert(s@.subrange(0, p as int) =~= prefix@);
    Some(s.substring_char(p, n))
}

/// Parses `urn:cid:<cid>`.
pub fn parse_cid_urn_str(urn_str: &str) -> (r: Result<Cid, Error>)
    ensures
        match after_prefix(urn_str@, urn_cid_prefix()) {
            None => r is Err,
            Some(t) => match parse_text_spec(t) {
                Ok(d) => r is Ok && r->Ok_0.0@ == d,
                Err(_) => r is Err,
            },
        },
{
    proof {
        reveal_strlit("urn:cid:");
    }
    assert("urn:cid:"@ =~= urn_cid_prefix());
    match strip_prefix(urn_str, "urn:cid:") {
        None => Err(Error::Value(String::from_str("Not a urn:cid"))),
        Some(body) => match Cid::parse(body) {
            Ok(c) => Ok(c),
            Err(e) => Err(Error::Value(String::from_str(e.message()))),
        },
    }
}

/// Parses `urn:btmh:<btmh>` into the part after the prefix.
pub fn parse_btmh_urn_str(urn_str: &str) -> (r: Result<String, Error>)
    ensures
        match after_prefix(urn_str@, urn_btmh_prefix()) {
            None => r is Err,
            Some(t) => r is Ok && r->Ok_0@ == t,
        },
{
    proof {
        reveal_strlit("urn:btmh:");
    }
    assert("urn:btmh:"@ =~= urn_btmh_prefix());
    match strip_prefix(urn_str, "urn:btmh:") {
        None => Err(Error::Value(String::from_str("Not a urn:btmh"))),
        Some(body) => Ok(String::from_str(body)),
    }
}

/// `urn:btmh:` followed by `btmh`.
pub fn into_btmh_urn_str(btmh: &str) -> (r: String)
    ensures
        r@ == urn_btmh_prefix() + btmh@,
{
    proof {
        reveal_strlit("urn:btmh:");
    }
    let r = String::from_str("urn:btmh:").concat(btmh);
    assert("urn:btmh:"@ =~= urn_btmh_prefix());
    r
}

/// The CID that a `urn:cid:` URL names.
pub fn cid_of_urn(url: &Url) -> (r: Result<Cid, Error>)
    ensures
        match after_prefix(url@, urn_cid_prefix()) {
            None => r is Err,
            Some(t) => match parse_text_spec(t) {
                Ok(d) => r is Ok && r->Ok_0.0@ == d,
                Err(_) => r is Err,
            },
        },
{
    parse_cid_urn_str(url.as_str())
}

/// The `urn:cid:` URL of a CID.
pub fn urn_of_cid(cid: &Cid) -> (r: Result<Url, Error>)
    ensures
        match url_parse(urn_cid_prefix() + crate::cid::cid_text(cid.0@)) {
            Some(h) => r is Ok && r->Ok_0@ == h,
            None => r is Err,
        },
{
    proof {
        reveal_strlit("urn:cid:");
    }
    assert("urn:cid:"@ =~= urn_cid_prefix());
    let text = String::from_str("urn:cid:").concat(cid.to_string().as_str());
    match Url::parse(text.as_str()) {
        Ok(u) => Ok(u),
        Err(e) => Err(Error::Url(e)),
    }
}

} // verus!
