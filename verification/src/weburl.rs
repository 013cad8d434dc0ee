//! Web addresses, read by the `url` crate into their parts.

use url::Url;
use vstd::prelude::*;
use vstd::string::*;
use vstd::utf8::*;

use crate::plain::opt_view;
use crate::text::{text_eq, trim_trailing, without_trailing};

verus! {

/// The parts of an address.
#[derive(Debug, Clone, PartialEq, Eq)]
pub struct UrlParts {
    /// The address in canonical form.
    pub whole: String,
    pub scheme: String,
    pub username: String,
    pub password: Option<String>,
    pub host: Option<String>,
    pub port: Option<u16>,
    pub path: String,
    pub query: Option<String>,
    pub fragment: Option<String>,
}

/// What the parts of an address say.
pub struct UrlView {
    pub whole: Seq<char>,
    pub scheme: Seq<char>,
    pub username: Seq<char>,
    pub password: Option<Seq<char>>,
    pub host: Option<Seq<char>>,
    pub port: Option<u16>,
    pub path: Seq<char>,
    pub query: Option<Seq<char>>,
    pub fragment: Option<Seq<char>>,
}

impl View for UrlParts {
    type V = UrlView;

    open spec fn view(&self) -> UrlView {
        UrlView {
            whole: self.whole@,
            scheme: self.scheme@,
            username: self.username@,
            password: opt_view(self.password),
            host: opt_view(self.host),
            port: self.port,
            path: self.path@,
            query: opt_view(self.query),
            fragment: opt_view(self.fragment),
        }
    }
}

/// What `Url::parse` makes of a text: the parts of the address, or nothing where it is none.
pub uninterp spec fn parsed_url(text: Seq<char>) -> Option<UrlView>;

/// `Url::parse`, with the parts that its getters give. The port is the one that is written out and
/// is not the scheme's own.
#[verifier::external_body]
pub(crate) fn parse_url(text: &str) -> (parts: Option<UrlParts>)
    ensures
        opt_view(parts) == parsed_url(text@),
{
    let url = Url::parse(text).ok()?;
    Some(UrlParts {
        whole: url.as_str().to_string(),
        scheme: url.scheme().to_string(),
        username: url.username().to_string(),
        password: url.password().map(str::to_string),
        host: url.host_str().map(str::to_string),
        port: url.port(),
        path: url.path().to_string(),
        query: url.query().map(str::to_string),
        fragment: url.fragment().map(str::to_string),
    })
}

/// What `Url::set_scheme` makes of an address: the same with another scheme, or nothing where the
/// scheme cannot be exchanged.
pub uninterp spec fn reschemed_url(text: Seq<char>, scheme: Seq<char>) -> Option<Seq<char>>;

/// `Url::set_scheme` on the address that a text gives, in canonical form. A longer scheme than the
/// one that is there may move the other parts beyond what can be counted, so that it is left out.
#[verifier::external_body]
pub(crate) fn url_with_scheme(text: &str, scheme: &str) -> (changed: Option<String>)
    requires
        parsed_url(text@) matches Some(url) ==> scheme@.len() <= url.scheme.len(),
    ensures
        opt_view(changed) == reschemed_url(text@, scheme@),
{
    let mut url = Url::parse(text).ok()?;
    url.set_scheme(scheme).ok()?;
    Some(url.to_string())
}

/// What `Url::set_query` and `Url::set_fragment` leave of an address without either.
pub uninterp spec fn bare_url(text: Seq<char>) -> Option<Seq<char>>;

/// `Url::set_query(None)` and `Url::set_fragment(None)` on the address that a text gives, in
/// canonical form.
#[verifier::external_body]
pub(crate) fn url_without_query(text: &str) -> (bare: Option<String>)
    ensures
        opt_view(bare) == bare_url(text@),
{
    let mut url = Url::parse(text).ok()?;
    url.set_query(None);
    url.set_fragment(None);
    Some(url.to_string())
}

/// What `Url::join` makes of an address and a reference, in canonical form.
pub uninterp spec fn joined_url(base: Seq<char>, reference: Seq<char>) -> Option<Seq<char>>;

/// `Url::join` on the address that a text gives.
#[verifier::external_body]
pub(crate) fn join_url(base: &str, reference: &str) -> (joined: Option<String>)
    ensures
        opt_view(joined) == joined_url(base@, reference@),
{
    Some(Url::parse(base).ok()?.join(reference).ok()?.to_string())
}

/// Names and values.
pub open spec fn pair_views(pairs: Seq<(String, String)>) -> Seq<(Seq<char>, Seq<char>)> {
    pairs.map_values(|pair: (String, String)| (pair.0@, pair.1@))
}

/// What `Url::query_pairs` reads of an address: the names and values of its query, decoded, in
/// their order, or nothing where the text is no address.
pub uninterp spec fn url_pairs(text: Seq<char>) -> Option<Seq<(Seq<char>, Seq<char>)>>;

/// `Url::query_pairs` on the address that a text gives.
#[verifier::external_body]
pub(crate) fn query_pairs(text: &str) -> (pairs: Option<Vec<(String, String)>>)
    ensures
        url_pairs(text@) == match pairs {
            Some(read) => Some(pair_views(read@)),
            None => None,
        },
{
    Some(Url::parse(text).ok()?.query_pairs().into_owned().collect())
}

/// What `Url::query_pairs_mut` makes of an address with further names and values in its query, in
/// canonical form.
pub uninterp spec fn url_with_pairs(
    text: Seq<char>,
    pairs: Seq<(Seq<char>, Seq<char>)>,
) -> Option<Seq<char>>;

/// A query can be put behind the address that a text gives: it has no fragment, and its length can
/// be counted in thirty-two bits.
pub open spec fn takes_pairs(text: Seq<char>) -> bool {
    parsed_url(text) matches Some(url) ==> url.fragment is None && encode_utf8(url.whole).len()
        <= u32::MAX
}

/// Whether a query can be put behind the address that a text gives.
pub(crate) fn can_take_pairs(text: &str) -> (can: bool)
    ensures
        can == takes_pairs(text@),
{
    match parse_url(text) {
        None => true,
        Some(url) => url.fragment.is_none() && url.whole.as_str().as_bytes().len() as u64
            <= 0xffff_ffff,
    }
}

/// `Url::query_pairs_mut` and `Serializer::extend_pairs` on the address that a text gives. They
/// count the length of the address in thirty-two bits.
#[verifier::external_body]
pub(crate) fn append_query_pairs(text: &str, pairs: &[(String, String)]) -> (changed: Option<
    String,
>)
    requires
        takes_pairs(text@),
    ensures
        opt_view(changed) == url_with_pairs(text@, pair_views(pairs@)),
{
    let mut url = Url::parse(text).ok()?;
    url.query_pairs_mut().extend_pairs(pairs);
    Some(url.to_string())
}

/// An address with the given scheme, a host, and no credentials.
pub open spec fn open_address(url: UrlView, scheme: Seq<char>) -> bool {
    url.scheme == scheme && url.host is Some && url.username.len() == 0 && url.password is None
}

/// An address with neither path nor query nor fragment.
pub open spec fn bare_origin(url: UrlView) -> bool {
    url.path == "/"@ && url.query is None && url.fragment is None
}

impl UrlParts {
    /// Whether the address has the given scheme, a host, and no credentials.
    pub fn is_open_address(&self, scheme: &str) -> (result: bool)
        ensures
            result == open_address(self@, scheme@),
    {
        text_eq(self.scheme.as_str(), scheme) && self.host.is_some() && self.username.as_str(
        ).is_empty() && self.password.is_none()
    }

    /// Whether the address has neither path nor query nor fragment.
    pub fn is_bare_origin(&self) -> (result: bool)
        ensures
            result == bare_origin(self@),
    {
        text_eq(self.path.as_str(), "/") && self.query.is_none() && self.fragment.is_none()
    }

    /// The canonical form without slashes at its end.
    pub fn base(&self) -> (base: String)
        ensures
            base@ == without_trailing(self@.whole, '/'),
    {
        trim_trailing(self.whole.as_str(), '/')
    }
}

} // verus!
