//! Linking this device with the relay: what is sent, what of the answer is trusted, and what is
//! kept of it.

use vstd::prelude::*;
use vstd::string::*;
use vstd::utf8::*;

use crate::config::{host_under, is_host_under, Environment};
use crate::ids::{hyphenated_uuid, is_uuid, new_uuid, uuid_text};
use crate::json::{
    json_nested, json_object, member_views, write_nested, write_object, JsonScalar, ScalarView,
};
use crate::login::{option_value, or_default, value_behind, Surface};
use crate::plain::{opt_view, same_opt, views};
use crate::relay::{EndpointView, RelayEndpoint};
use crate::sessions::{format_timestamp, rfc3339};
use crate::signing::{canonical_json, ed25519_public, ed25519_signature, EnvironmentIdentity};
use crate::encoding::base64url;
use crate::text::{
    ascii_lowercase, chars_of, text_eq, to_lowercase_ascii, trim, trim_leading, trim_trailing,
    trimmed, without_leading, without_trailing,
};
use crate::weburl::{join_url, joined_url, parse_url, parsed_url, UrlParts, UrlView};

verus! {

/// The relay of the staging environment.
pub const STAGING_RELAY: &'static str = "https://relay-staging.saudecomalex.com";

/// The relay of the production environment.
pub const PRODUCTION_RELAY: &'static str = "https://relay.saudecomalex.com";

/// The longest name of a device, in bytes.
pub const MAX_NAME_BYTES: usize = 120;

/// Why a device is not linked.
#[derive(Debug, Clone, Copy, PartialEq, Eq, Structural)]
pub enum LinkFault {
    InvalidName,
    InvalidRelay,
    InsecureRelay,
    InvalidEndpoint,
    InvalidChallenge,
    Unsigned,
    MismatchedAllocation,
    InvalidManagedUrl,
    MissingHost,
    UntrustedHost,
    InconsistentEndpoints,
    InvalidKey,
    InvalidIdentity,
    NotLinked,
    ForeignToken,
    DifferentEnvironment,
}

/// A control character.
pub open spec fn control(character: char) -> bool {
    (character as u32) < 0x20 || 0x7f <= (character as u32) < 0xa0
}

/// A name that a device can have: some text that is short enough and has no control characters.
pub open spec fn device_named(name: Seq<char>) -> bool {
    &&& name.len() > 0
    &&& encode_utf8(name).len() <= MAX_NAME_BYTES
    &&& forall|i: int| 0 <= i < name.len() ==> !control(#[trigger] name[i])
}

/// The name of a device, without the blanks around it.
pub fn device_name(name: &str) -> (result: Result<String, LinkFault>)
    ensures
        if device_named(trimmed(name@)) {
            result matches Ok(kept) && kept@ == trimmed(name@)
        } else {
            result == Err::<String, LinkFault>(LinkFault::InvalidName)
        },
{
    let kept = trim(name);
    if kept.as_str().is_empty() || kept.as_str().as_bytes().len() > MAX_NAME_BYTES {
        return Err(LinkFault::InvalidName);
    }
    let characters = chars_of(kept.as_str());
    let mut at: usize = 0;
    while at < characters.len()
        invariant
            kept@ == trimmed(name@),
            characters@ == kept@,
            at <= characters.len(),
            forall|i: int| 0 <= i < at ==> !control(#[trigger] kept@[i]),
        decreases characters.len() - at,
    {
        let code = characters[at] as u32;
        if code < 0x20 || (0x7f <= code && code < 0xa0) {
            assert(control(kept@[at as int]));
            return Err(LinkFault::InvalidName);
        }
        at = at + 1;
    }
    Ok(kept)
}

/// The relay, and under which domain it gives out addresses.
#[derive(Debug, Clone, PartialEq, Eq)]
pub struct RelayConfig {
    pub base_url: String,
    pub environment: Environment,
}

/// The address of the relay of an environment, unless another one is set.
pub open spec fn relay_of(environment: Environment, address: Option<Seq<char>>) -> Seq<char> {
    or_default(
        address,
        match environment {
            Environment::Staging => STAGING_RELAY@,
            Environment::Production => PRODUCTION_RELAY@,
        },
    )
}

/// What an address of a relay reads as, where it can be one.
pub open spec fn relay_form(address: Seq<char>) -> Result<Seq<char>, LinkFault> {
    match parsed_url(address) {
        None => Err(LinkFault::InvalidRelay),
        Some(url) => if url.scheme == "https"@ && url.host is Some && url.query is None
            && url.fragment is None {
            Ok(url.whole)
        } else {
            Err(LinkFault::InsecureRelay)
        },
    }
}

impl RelayConfig {
    /// The relay of an environment. What is set for the process stands before what is built in.
    pub fn load(environment: Environment, address: Option<String>) -> (result: Result<
        Self,
        LinkFault,
    >)
        ensures
            match relay_form(relay_of(environment, opt_view(address))) {
                Ok(form) => result matches Ok(config) && config.base_url@ == form
                    && config.environment == environment,
                Err(fault) => result == Err::<Self, LinkFault>(fault),
            },
    {
        let address = match address {
            Some(text) => text,
            None => match environment {
                Environment::Staging => STAGING_RELAY.to_owned(),
                Environment::Production => PRODUCTION_RELAY.to_owned(),
            },
        };
        match parse_url(address.as_str()) {
            None => Err(LinkFault::InvalidRelay),
            Some(url) => if text_eq(url.scheme.as_str(), "https") && url.host.is_some()
                && url.query.is_none() && url.fragment.is_none() {
                Ok(RelayConfig { base_url: url.whole, environment })
            } else {
                Err(LinkFault::InsecureRelay)
            },
        }
    }

    /// An address of the relay.
    pub fn endpoint(&self, path: &str) -> (result: Result<String, LinkFault>)
        ensures
            match joined_url(self.base_url@, without_leading(path@, '/')) {
                Some(address) => result matches Ok(text) && text@ == address,
                None => result == Err::<String, LinkFault>(LinkFault::InvalidEndpoint),
            },
    {
        match join_url(self.base_url.as_str(), trim_leading(path, '/').as_str()) {
            None => Err(LinkFault::InvalidEndpoint),
            Some(text) => Ok(text),
        }
    }

    /// The path under which an environment is asked about, taken off, or taken off with its
    /// tunnel.
    pub fn environment_path(environment_id: &str, tail: &str) -> (path: String)
        ensures
            path@ == "/v1/environments/"@ + environment_id@ + tail@,
    {
        let mut path = "/v1/environments/".to_owned();
        path.append(environment_id);
        path.append(tail);
        path
    }
}

/// Which identifier this device has at the relay.
#[derive(Debug, Clone, PartialEq, Eq)]
pub enum EnvironmentIdentifier {
    /// The one that is kept.
    Kept(String),
    /// A new one, which must be kept as pending.
    Fresh(String),
}

/// The identifier that is kept: that of a link, or that of a link which was begun.
pub open spec fn kept_identifier(linked: Option<Seq<char>>, pending: Option<Seq<char>>) -> Option<
    Seq<char>,
> {
    match linked {
        Some(text) => Some(text),
        None => pending,
    }
}

/// The identifier of this device at the relay, with a fresh one at hand.
pub fn environment_id_with(
    linked: Option<String>,
    pending: Option<String>,
    fresh: String,
) -> (result: Result<EnvironmentIdentifier, LinkFault>)
    ensures
        match kept_identifier(opt_view(linked), opt_view(pending)) {
            Some(text) => if uuid_text(text) {
                result matches Ok(EnvironmentIdentifier::Kept(kept)) && kept@ == text
            } else {
                result == Err::<EnvironmentIdentifier, LinkFault>(LinkFault::InvalidIdentity)
            },
            None => result == Ok::<EnvironmentIdentifier, LinkFault>(
                EnvironmentIdentifier::Fresh(fresh),
            ),
        },
{
    let kept = match linked {
        Some(text) => text,
        None => match pending {
            Some(text) => text,
            None => {
                return Ok(EnvironmentIdentifier::Fresh(fresh));
            },
        },
    };
    if is_uuid(kept.as_str()) {
        Ok(EnvironmentIdentifier::Kept(kept))
    } else {
        Err(LinkFault::InvalidIdentity)
    }
}

/// The identifier of this device at the relay: the one of the link, the one of a link that was
/// begun, or a new one.
pub fn pending_or_linked_environment_id(linked: Option<String>, pending: Option<String>) -> (result:
    Result<EnvironmentIdentifier, LinkFault>)
    ensures
        match kept_identifier(opt_view(linked), opt_view(pending)) {
            Some(text) => if uuid_text(text) {
                result matches Ok(EnvironmentIdentifier::Kept(kept)) && kept@ == text
            } else {
                result == Err::<EnvironmentIdentifier, LinkFault>(LinkFault::InvalidIdentity)
            },
            None => result matches Ok(EnvironmentIdentifier::Fresh(drawn)) && hyphenated_uuid(
                drawn@,
            ),
        },
{
    environment_id_with(linked, pending, new_uuid())
}

/// The identifier of the link, which must be there.
pub fn linked_environment_id(linked: Option<String>) -> (result: Result<String, LinkFault>)
    ensures
        match opt_view(linked) {
            None => result == Err::<String, LinkFault>(LinkFault::NotLinked),
            Some(text) => if uuid_text(text) {
                result matches Ok(kept) && kept@ == text
            } else {
                result == Err::<String, LinkFault>(LinkFault::InvalidIdentity)
            },
        },
{
    match linked {
        None => Err(LinkFault::NotLinked),
        Some(text) => if is_uuid(text.as_str()) {
            Ok(text)
        } else {
            Err(LinkFault::InvalidIdentity)
        },
    }
}

/// Something to send to the relay.
#[derive(Debug, Clone, PartialEq, Eq)]
pub struct LinkRequest {
    pub address: String,
    pub body: String,
}

/// What the relay wants signed.
#[derive(Debug, Clone, PartialEq, Eq)]
pub struct LinkChallenge {
    pub challenge_id: String,
    pub challenge: String,
}

/// The public signing key of the relay.
#[derive(Debug, Clone, PartialEq, Eq)]
pub struct RelayPublicJwk {
    pub kty: String,
    pub crv: String,
    pub x: String,
    pub alg: Option<String>,
    pub kid: Option<String>,
    pub key_use: Option<String>,
}

/// The public signing key of the relay.
pub struct RelayKeyView {
    pub kind: Seq<char>,
    pub curve: Seq<char>,
    pub point: Seq<char>,
    pub algorithm: Option<Seq<char>>,
    pub key_id: Option<Seq<char>>,
    pub purpose: Option<Seq<char>>,
}

impl View for RelayPublicJwk {
    type V = RelayKeyView;

    open spec fn view(&self) -> RelayKeyView {
        RelayKeyView {
            kind: self.kty@,
            curve: self.crv@,
            point: self.x@,
            algorithm: opt_view(self.alg),
            key_id: opt_view(self.kid),
            purpose: opt_view(self.key_use),
        }
    }
}

/// An environment as the relay has it.
#[derive(Debug, Clone, PartialEq, Eq)]
pub struct RelayEnvironment {
    pub id: String,
    pub environment_id: String,
    pub workspace_id: String,
    pub endpoint: RelayEndpoint,
    pub hostname: String,
}

/// What the tunnel of an environment is run with.
#[derive(Debug, Clone, PartialEq, Eq)]
pub struct LinkRuntime {
    pub tunnel_id: String,
    pub hostname: String,
    pub connector_token: String,
    pub relay_signing_public_jwk: RelayPublicJwk,
}

/// What the relay has given out.
#[derive(Debug, Clone, PartialEq, Eq)]
pub struct LinkResponse {
    pub environment: RelayEnvironment,
    pub endpoint: RelayEndpoint,
    pub runtime: LinkRuntime,
}

/// What the relay has given out.
pub struct AllocationView {
    pub id: Seq<char>,
    pub environment: Seq<char>,
    pub workspace: Seq<char>,
    pub listed_endpoint: EndpointView,
    pub listed_host: Seq<char>,
    pub endpoint: EndpointView,
    pub tunnel: Seq<char>,
    pub tunnel_host: Seq<char>,
    pub connector_token: Seq<char>,
    pub key: RelayKeyView,
}

impl View for LinkResponse {
    type V = AllocationView;

    open spec fn view(&self) -> AllocationView {
        AllocationView {
            id: self.environment.id@,
            environment: self.environment.environment_id@,
            workspace: self.environment.workspace_id@,
            listed_endpoint: self.environment.endpoint@,
            listed_host: self.environment.hostname@,
            endpoint: self.endpoint@,
            tunnel: self.runtime.tunnel_id@,
            tunnel_host: self.runtime.hostname@,
            connector_token: self.runtime.connector_token@,
            key: self.runtime.relay_signing_public_jwk@,
        }
    }
}

/// Why an address that the relay gave out is not trusted. It must have the scheme, lie under the
/// domain, and be no more than an origin.
pub open spec fn managed_fault(
    url: Option<UrlView>,
    scheme: Seq<char>,
    suffix: Seq<char>,
) -> Option<LinkFault> {
    match url {
        None => Some(LinkFault::InvalidManagedUrl),
        Some(url) => match url.host {
            None => Some(LinkFault::MissingHost),
            Some(host) => if url.scheme == scheme && host_under(
                ascii_lowercase(host),
                ascii_lowercase(suffix),
            ) && url.username.len() == 0 && url.password is None && url.query is None
                && url.fragment is None && (url.path == "/"@ || url.path.len() == 0) {
                None
            } else {
                Some(LinkFault::UntrustedHost)
            },
        },
    }
}

/// Why an address that the relay gave out is not trusted.
pub fn check_managed_url(url: Option<UrlParts>, scheme: &str, suffix: &str) -> (result: Result<
    UrlParts,
    LinkFault,
>)
    ensures
        match managed_fault(opt_view(url), scheme@, suffix@) {
            Some(fault) => result == Err::<UrlParts, LinkFault>(fault),
            None => result matches Ok(parts) && Some(parts@) == opt_view(url),
        },
{
    let url = match url {
        None => {
            return Err(LinkFault::InvalidManagedUrl);
        },
        Some(url) => url,
    };
    let under = match &url.host {
        None => {
            return Err(LinkFault::MissingHost);
        },
        Some(host) => is_host_under(
            to_lowercase_ascii(host.as_str()).as_str(),
            to_lowercase_ascii(suffix).as_str(),
        ),
    };
    if !text_eq(url.scheme.as_str(), scheme) || !under || !url.username.as_str().is_empty()
        || url.password.is_some() || url.query.is_some() || url.fragment.is_some() || !(text_eq(
        url.path.as_str(),
        "/",
    ) || url.path.as_str().is_empty()) {
        return Err(LinkFault::UntrustedHost);
    }
    Ok(url)
}

/// Reads an address that the relay gave out.
pub fn validate_managed_url(raw: &str, scheme: &str, suffix: &str) -> (result: Result<
    UrlParts,
    LinkFault,
>)
    ensures
        match managed_fault(parsed_url(raw@), scheme@, suffix@) {
            Some(fault) => result == Err::<UrlParts, LinkFault>(fault),
            None => result matches Ok(parts) && Some(parts@) == parsed_url(raw@),
        },
{
    check_managed_url(parse_url(raw), scheme, suffix)
}

/// The parts of an answer do not belong to this environment, or not to each other.
pub open spec fn mismatched(surface: Surface, expected: Seq<char>, answer: AllocationView) -> bool {
    ||| answer.id != expected
    ||| answer.environment != expected
    ||| answer.workspace != expected
    ||| surface == Surface::Window && answer.listed_endpoint != answer.endpoint
    ||| answer.listed_host != answer.tunnel_host
    ||| answer.tunnel.len() == 0
    ||| answer.connector_token.len() == 0
}

/// The port of an address is the one of its scheme.
pub open spec fn own_port(url: UrlView) -> bool {
    url.port is None || url.port == Some(443u16)
}

/// Two addresses of an answer do not fit together.
pub open spec fn inconsistent(
    surface: Surface,
    answer: AllocationView,
    http: UrlView,
    ws: UrlView,
) -> bool {
    ||| http.host != ws.host
    ||| surface == Surface::CommandLine && (!own_port(http) || !own_port(ws)
        || answer.listed_endpoint != answer.endpoint)
}

/// A key that a statement of the relay can be checked with.
pub open spec fn relay_key(key: RelayKeyView) -> bool {
    key.kind == "OKP"@ && key.curve == "Ed25519"@ && key.point.len() > 0
}

/// Why an answer of the relay is not trusted, given what its two addresses read as.
pub open spec fn answer_fault(
    surface: Surface,
    suffix: Seq<char>,
    expected: Seq<char>,
    answer: AllocationView,
    http: Option<UrlView>,
    ws: Option<UrlView>,
) -> Option<LinkFault> {
    if mismatched(surface, expected, answer) {
        Some(LinkFault::MismatchedAllocation)
    } else {
        match (managed_fault(http, "https"@, suffix), managed_fault(ws, "wss"@, suffix)) {
            (Some(fault), _) => Some(fault),
            (None, Some(fault)) => Some(fault),
            (None, None) => if inconsistent(surface, answer, http->0, ws->0) {
                Some(LinkFault::InconsistentEndpoints)
            } else if !relay_key(answer.key) {
                Some(LinkFault::InvalidKey)
            } else {
                None
            },
        }
    }
}

fn same_endpoint(left: &RelayEndpoint, right: &RelayEndpoint) -> (same: bool)
    ensures
        same == (left@ == right@),
{
    text_eq(left.http_base_url.as_str(), right.http_base_url.as_str()) && text_eq(
        left.ws_base_url.as_str(),
        right.ws_base_url.as_str(),
    )
}

fn has_own_port(url: &UrlParts) -> (own: bool)
    ensures
        own == own_port(url@),
{
    match url.port {
        None => true,
        Some(port) => port == 443,
    }
}

/// Whether an answer of the relay can be trusted, given what its two addresses read as.
pub fn check_answer(
    surface: Surface,
    suffix: &str,
    expected: &str,
    response: &LinkResponse,
    http: Option<UrlParts>,
    ws: Option<UrlParts>,
) -> (result: Result<(), LinkFault>)
    ensures
        result == match answer_fault(
            surface,
            suffix@,
            expected@,
            response@,
            opt_view(http),
            opt_view(ws),
        ) {
            Some(fault) => Err::<(), LinkFault>(fault),
            None => Ok(()),
        },
{
    let listed = same_endpoint(&response.environment.endpoint, &response.endpoint);
    if !text_eq(response.environment.id.as_str(), expected) || !text_eq(
        response.environment.environment_id.as_str(),
        expected,
    ) || !text_eq(response.environment.workspace_id.as_str(), expected) || (surface
        == Surface::Window && !listed) || !text_eq(
        response.environment.hostname.as_str(),
        response.runtime.hostname.as_str(),
    ) || response.runtime.tunnel_id.as_str().is_empty()
        || response.runtime.connector_token.as_str().is_empty() {
        return Err(LinkFault::MismatchedAllocation);
    }
    let http = match check_managed_url(http, "https", suffix) {
        Err(fault) => {
            return Err(fault);
        },
        Ok(url) => url,
    };
    let ws = match check_managed_url(ws, "wss", suffix) {
        Err(fault) => {
            return Err(fault);
        },
        Ok(url) => url,
    };
    if !same_opt(&http.host, &ws.host) || (surface == Surface::CommandLine && (!has_own_port(&http)
        || !has_own_port(&ws) || !listed)) {
        return Err(LinkFault::InconsistentEndpoints);
    }
    let key = &response.runtime.relay_signing_public_jwk;
    if !text_eq(key.kty.as_str(), "OKP") || !text_eq(key.crv.as_str(), "Ed25519")
        || key.x.as_str().is_empty() {
        return Err(LinkFault::InvalidKey);
    }
    Ok(())
}

/// Whether an answer of the relay can be trusted.
pub fn validate_response(
    surface: Surface,
    config: &RelayConfig,
    expected_environment_id: &str,
    response: &LinkResponse,
) -> (result: Result<(), LinkFault>)
    ensures
        result == match answer_fault(
            surface,
            config.environment.suffix(),
            expected_environment_id@,
            response@,
            parsed_url(response@.endpoint.http),
            parsed_url(response@.endpoint.ws),
        ) {
            Some(fault) => Err::<(), LinkFault>(fault),
            None => Ok(()),
        },
{
    let http = parse_url(response.endpoint.http_base_url.as_str());
    let ws = parse_url(response.endpoint.ws_base_url.as_str());
    check_answer(
        surface,
        config.environment.endpoint_suffix(),
        expected_environment_id,
        response,
        http,
        ws,
    )
}

/// A host that ends like the domain but does not lie under it is never trusted, nor is one that
/// only begins like it.
pub proof fn lemma_suffix_confusion(url: UrlView, host: Seq<char>, scheme: Seq<char>, suffix: Seq<char>)
    requires
        url.host == Some(host),
        managed_fault(Some(url), scheme, suffix) is None,
    ensures
        ascii_lowercase(host) == ascii_lowercase(suffix) || exists|name: Seq<char>|
            ascii_lowercase(host) == #[trigger] (name + "."@ + ascii_lowercase(suffix)),
{
    let low = ascii_lowercase(host);
    let tail = "."@ + ascii_lowercase(suffix);
    if low != ascii_lowercase(suffix) {
        let name = low.take(low.len() - tail.len());
        assert(low =~= name + tail);
        assert(low =~= name + "."@ + ascii_lowercase(suffix));
    }
}

/// The members of the public signing key of an environment.
pub open spec fn identity_members(point: Seq<char>) -> Seq<(Seq<char>, ScalarView)> {
    seq![
        ("kty"@, ScalarView::Text("OKP"@)),
        ("crv"@, ScalarView::Text("Ed25519"@)),
        ("x"@, ScalarView::Text(point)),
    ]
}

/// The members of the first request.
pub open spec fn challenge_members(environment_id: Seq<char>, name: Seq<char>) -> Seq<
    (Seq<char>, ScalarView),
> {
    seq![("environment_id"@, ScalarView::Text(environment_id)), ("name"@, ScalarView::Text(name))]
}

/// What is signed: the challenge, for whom, under which name and when, and with which key. The
/// moment is in the form that all answers have.
pub open spec fn proof_document(
    point: Seq<char>,
    challenge: Seq<char>,
    challenge_id: Seq<char>,
    environment_id: Seq<char>,
    issued_at: Seq<char>,
    name: Seq<char>,
) -> Seq<char> {
    json_nested(
        "environment_public_jwk"@,
        json_object(identity_members(point)),
        seq![
            ("challenge"@, ScalarView::Text(challenge)),
            ("challenge_id"@, ScalarView::Text(challenge_id)),
            ("environment_id"@, ScalarView::Text(environment_id)),
            ("issued_at"@, ScalarView::Text(issued_at)),
            ("name"@, ScalarView::Text(name)),
        ],
    )
}

/// What is sent back with the signature.
pub open spec fn link_document(
    point: Seq<char>,
    challenge_id: Seq<char>,
    environment_id: Seq<char>,
    name: Seq<char>,
    issued_at: Seq<char>,
    signature: Seq<char>,
) -> Seq<char> {
    json_nested(
        "environment_public_jwk"@,
        json_object(identity_members(point)),
        seq![
            ("challenge_id"@, ScalarView::Text(challenge_id)),
            ("environment_id"@, ScalarView::Text(environment_id)),
            ("name"@, ScalarView::Text(name)),
            ("issued_at"@, ScalarView::Text(issued_at)),
            ("signature"@, ScalarView::Text(signature)),
        ],
    )
}

fn text_member(value: &str) -> (member: JsonScalar)
    ensures
        member@ == ScalarView::Text(value@),
{
    JsonScalar::Text(value.to_owned())
}

/// A link that is being made.
#[derive(Debug, Clone, PartialEq, Eq)]
pub struct LinkAttempt {
    pub config: RelayConfig,
    pub environment_id: String,
    pub name: String,
}

/// What is to be sent to the relay, or why nothing is.
pub open spec fn request_view(result: Result<LinkRequest, LinkFault>) -> Result<
    (Seq<char>, Seq<char>),
    LinkFault,
> {
    match result {
        Ok(request) => Ok((request.address@, request.body@)),
        Err(fault) => Err(fault),
    }
}

/// The part of a request to give up an allocation that names which one.
pub open spec fn generation_members(generation: u64) -> Seq<(Seq<char>, ScalarView)> {
    seq![("generation"@, ScalarView::Natural(generation))]
}

/// What gives an environment up: where a generation is named, the tunnel that was allocated with it
/// too, so that no later one is deleted.
pub open spec fn giving_up(base: Seq<char>, environment_id: Seq<char>, generation: Option<u64>) -> Result<
    (Seq<char>, Seq<char>),
    LinkFault,
> {
    match generation {
        Some(number) => addressed(
            base,
            "/v1/environments/"@ + environment_id + "/tunnel"@,
            json_object(generation_members(number)),
        ),
        None => addressed(base, "/v1/environments/"@ + environment_id + ""@, Seq::empty()),
    }
}

impl RelayConfig {
    /// What is sent to give an environment up, and with a generation the tunnel that was allocated
    /// with it. Without one there is nothing to say beyond the address.
    pub fn unlink_request(&self, environment_id: &str, generation: Option<u64>) -> (result: Result<
        LinkRequest,
        LinkFault,
    >)
        ensures
            request_view(result) == giving_up(self.base_url@, environment_id@, generation),
    {
        let (tail, body) = match generation {
            Some(number) => {
                let members = [("generation", JsonScalar::Natural(number))];
                assert(member_views(members@) =~= generation_members(number));
                ("/tunnel", write_object(members.as_slice()))
            },
            None => ("", String::new()),
        };
        match self.endpoint(RelayConfig::environment_path(environment_id, tail).as_str()) {
            Err(fault) => Err(fault),
            Ok(address) => Ok(LinkRequest { address, body }),
        }
    }
}

/// A request to the relay.
pub open spec fn addressed(base: Seq<char>, path: Seq<char>, body: Seq<char>) -> Result<
    (Seq<char>, Seq<char>),
    LinkFault,
> {
    match joined_url(base, without_leading(path, '/')) {
        Some(address) => Ok((address, body)),
        None => Err(LinkFault::InvalidEndpoint),
    }
}

/// The answer to a challenge.
pub open spec fn challenge_answer(
    surface: Surface,
    attempt: LinkAttempt,
    secret: Seq<u8>,
    challenge: LinkChallenge,
    issued_at: u64,
) -> Result<(Seq<char>, Seq<char>), LinkFault> {
    let point = base64url(ed25519_public(secret));
    if surface == Surface::CommandLine && (challenge.challenge_id@.len() == 0
        || challenge.challenge@.len() == 0) {
        Err(LinkFault::InvalidChallenge)
    } else {
        match rfc3339(issued_at) {
            None => Err(LinkFault::Unsigned),
            Some(moment) => match canonical_json(
                proof_document(
                    point,
                    challenge.challenge@,
                    challenge.challenge_id@,
                    attempt.environment_id@,
                    moment,
                    attempt.name@,
                ),
            ) {
                None => Err(LinkFault::Unsigned),
                Some(canonical) => addressed(
                    attempt.config.base_url@,
                    "/v1/environments/link"@,
                    link_document(
                        point,
                        challenge.challenge_id@,
                        attempt.environment_id@,
                        attempt.name@,
                        moment,
                        base64url(ed25519_signature(secret, canonical)),
                    ),
                ),
            },
        }
    }
}

impl LinkAttempt {
    /// Asks the relay for a challenge.
    pub fn challenge_request(&self) -> (result: Result<LinkRequest, LinkFault>)
        ensures
            request_view(result) == addressed(
                self.config.base_url@,
                "/v1/environments/link/challenge"@,
                json_object(challenge_members(self.environment_id@, self.name@)),
            ),
    {
        let members = [
            ("environment_id", text_member(self.environment_id.as_str())),
            ("name", text_member(self.name.as_str())),
        ];
        assert(member_views(members@) =~= challenge_members(self.environment_id@, self.name@));
        match self.config.endpoint("/v1/environments/link/challenge") {
            Err(fault) => Err(fault),
            Ok(address) => Ok(LinkRequest { address, body: write_object(members.as_slice()) }),
        }
    }

    /// Answers a challenge with a signature by the key of this environment.
    pub fn answer_challenge(
        &self,
        surface: Surface,
        identity: &EnvironmentIdentity,
        challenge: &LinkChallenge,
        issued_at: u64,
    ) -> (result: Result<LinkRequest, LinkFault>)
        ensures
            request_view(result) == challenge_answer(
                surface,
                *self,
                identity@,
                *challenge,
                issued_at,
            ),
    {
        if surface == Surface::CommandLine && (challenge.challenge_id.as_str().is_empty()
            || challenge.challenge.as_str().is_empty()) {
            return Err(LinkFault::InvalidChallenge);
        }
        let moment = match format_timestamp(issued_at) {
            Err(_) => {
                return Err(LinkFault::Unsigned);
            },
            Ok(text) => text,
        };
        let key = identity.public_jwk();
        let ghost point = key.x@;
        let key_members = [
            ("kty", JsonScalar::Text(key.kty)),
            ("crv", JsonScalar::Text(key.crv)),
            ("x", JsonScalar::Text(key.x)),
        ];
        assert(member_views(key_members@) =~= identity_members(point));
        let key_text = write_object(key_members.as_slice());
        let signed = [
            ("challenge", text_member(challenge.challenge.as_str())),
            ("challenge_id", text_member(challenge.challenge_id.as_str())),
            ("environment_id", text_member(self.environment_id.as_str())),
            ("issued_at", text_member(moment.as_str())),
            ("name", text_member(self.name.as_str())),
        ];
        let document = write_nested(
            "environment_public_jwk",
            key_text.as_str(),
            signed.as_slice(),
        );
        proof {
            assert(member_views(signed@) =~= seq![
                ("challenge"@, ScalarView::Text(challenge.challenge@)),
                ("challenge_id"@, ScalarView::Text(challenge.challenge_id@)),
                ("environment_id"@, ScalarView::Text(self.environment_id@)),
                ("issued_at"@, ScalarView::Text(moment@)),
                ("name"@, ScalarView::Text(self.name@)),
            ]);
        }
        let signature = match identity.sign_canonical(document.as_str()) {
            Err(_) => {
                return Err(LinkFault::Unsigned);
            },
            Ok(signature) => signature,
        };
        let ghost signed_text = signature@;
        let sent = [
            ("challenge_id", text_member(challenge.challenge_id.as_str())),
            ("environment_id", text_member(self.environment_id.as_str())),
            ("name", text_member(self.name.as_str())),
            ("issued_at", text_member(moment.as_str())),
            ("signature", JsonScalar::Text(signature)),
        ];
        proof {
            assert(member_views(sent@) =~= seq![
                ("challenge_id"@, ScalarView::Text(challenge.challenge_id@)),
                ("environment_id"@, ScalarView::Text(self.environment_id@)),
                ("name"@, ScalarView::Text(self.name@)),
                ("issued_at"@, ScalarView::Text(moment@)),
                ("signature"@, ScalarView::Text(signed_text)),
            ]);
        }
        match self.config.endpoint("/v1/environments/link") {
            Err(fault) => Err(fault),
            Ok(address) => Ok(
                LinkRequest {
                    address,
                    body: write_nested(
                        "environment_public_jwk",
                        key_text.as_str(),
                        sent.as_slice(),
                    ),
                },
            ),
        }
    }
}

/// A step in which a link is kept or given up. Each of them is done whole or not at all.
#[derive(Debug, Clone, PartialEq, Eq)]
pub enum LinkStep {
    SetSecret(String, String),
    DeleteSecret(String),
    /// Sets several settings at once.
    SetSettings(Vec<(String, String)>),
    DeleteSetting(String),
}

/// A step in which a link is kept or given up.
pub enum StepView {
    SetSecret(Seq<char>, Seq<char>),
    DeleteSecret(Seq<char>),
    SetSettings(Seq<(Seq<char>, Seq<char>)>),
    DeleteSetting(Seq<char>),
}

impl View for LinkStep {
    type V = StepView;

    open spec fn view(&self) -> StepView {
        match self {
            LinkStep::SetSecret(account, value) => StepView::SetSecret(account@, value@),
            LinkStep::DeleteSecret(account) => StepView::DeleteSecret(account@),
            LinkStep::SetSettings(pairs) => StepView::SetSettings(
                crate::weburl::pair_views(pairs@),
            ),
            LinkStep::DeleteSetting(name) => StepView::DeleteSetting(name@),
        }
    }
}

/// The name under which something of a link is kept.
pub open spec fn link_account(environment: Environment, field: Seq<char>) -> Seq<char> {
    "connect:"@ + environment.name() + ":"@ + field
}

/// The name under which something of a link is kept.
pub fn account_name(environment: Environment, field: &str) -> (account: String)
    ensures
        account@ == link_account(environment, field@),
{
    let mut account = "connect:".to_owned();
    account.append(environment.as_str());
    account.append(":");
    account.append(field);
    account
}

/// The name under which the token of the tunnel is kept.
pub open spec fn tunnel_account_of(environment: Environment) -> Seq<char> {
    "cloudflare-tunnel:"@ + environment.name()
}

/// The name under which the token of the tunnel is kept.
pub fn tunnel_account(environment: Environment) -> (account: String)
    ensures
        account@ == tunnel_account_of(environment),
{
    let mut account = "cloudflare-tunnel:".to_owned();
    account.append(environment.as_str());
    account
}

/// The setting that names the workspace of an environment.
pub open spec fn workspace_setting_of(environment: Environment) -> Seq<char> {
    "sync_workspace_id:"@ + environment.name()
}

fn workspace_setting_name(environment: Environment) -> (name: String)
    ensures
        name@ == workspace_setting_of(environment),
{
    let mut name = "sync_workspace_id:".to_owned();
    name.append(environment.as_str());
    name
}

/// A member that is written only where there is something to write.
pub open spec fn optional_member_of(name: Seq<char>, value: Option<Seq<char>>) -> Seq<
    (Seq<char>, ScalarView),
> {
    match value {
        Some(text) => seq![(name, ScalarView::Text(text))],
        None => Seq::empty(),
    }
}

/// The members of the signing key of the relay.
pub open spec fn key_members_of(key: RelayKeyView) -> Seq<(Seq<char>, ScalarView)> {
    seq![
        ("kty"@, ScalarView::Text(key.kind)),
        ("crv"@, ScalarView::Text(key.curve)),
        ("x"@, ScalarView::Text(key.point)),
    ] + optional_member_of("alg"@, key.algorithm) + optional_member_of("kid"@, key.key_id)
        + optional_member_of("use"@, key.purpose)
}

/// The members of an endpoint.
pub open spec fn endpoint_members_of(endpoint: EndpointView) -> Seq<(Seq<char>, ScalarView)> {
    seq![
        ("http_base_url"@, ScalarView::Text(endpoint.http)),
        ("ws_base_url"@, ScalarView::Text(endpoint.ws)),
    ]
}

fn push_optional<'a>(
    members: &mut Vec<(&'a str, JsonScalar)>,
    name: &'a str,
    value: &Option<String>,
)
    ensures
        member_views(final(members)@) == member_views(old(members)@) + optional_member_of(
            name@,
            opt_view(*value),
        ),
{
    match value {
        Some(text) => {
            members.push((name, text_member(text.as_str())));
            assert(member_views(members@) =~= member_views(old(members)@) + optional_member_of(
                name@,
                opt_view(*value),
            ));
        },
        None => {
            assert(member_views(members@) =~= member_views(old(members)@) + optional_member_of(
                name@,
                opt_view(*value),
            ));
        },
    }
}

/// Writes the signing key of the relay.
pub fn write_relay_key(key: &RelayPublicJwk) -> (text: String)
    ensures
        text@ == json_object(key_members_of(key@)),
{
    let mut members: Vec<(&str, JsonScalar)> = Vec::new();
    members.push(("kty", text_member(key.kty.as_str())));
    members.push(("crv", text_member(key.crv.as_str())));
    members.push(("x", text_member(key.x.as_str())));
    assert(member_views(members@) =~= seq![
        ("kty"@, ScalarView::Text(key.kty@)),
        ("crv"@, ScalarView::Text(key.crv@)),
        ("x"@, ScalarView::Text(key.x@)),
    ]);
    push_optional(&mut members, "alg", &key.alg);
    push_optional(&mut members, "kid", &key.kid);
    push_optional(&mut members, "use", &key.key_use);
    write_object(members.as_slice())
}

/// Writes an endpoint.
pub fn write_endpoint(endpoint: &RelayEndpoint) -> (text: String)
    ensures
        text@ == json_object(endpoint_members_of(endpoint@)),
{
    let members = [
        ("http_base_url", text_member(endpoint.http_base_url.as_str())),
        ("ws_base_url", text_member(endpoint.ws_base_url.as_str())),
    ];
    assert(member_views(members@) =~= endpoint_members_of(endpoint@));
    write_object(members.as_slice())
}

/// The steps in which a link is kept. The identifier of the environment is set last: whatever else
/// is kept counts only from then on.
pub open spec fn persist_steps(
    config: RelayConfig,
    environment_id: Seq<char>,
    subject: Seq<char>,
    organization: Option<Seq<char>>,
    answer: AllocationView,
) -> Seq<StepView> {
    let environment = config.environment;
    seq![
        StepView::SetSecret(
            link_account(environment, "relay-issuer"@),
            without_trailing(config.base_url@, '/'),
        ),
        StepView::SetSecret(
            link_account(environment, "relay-signing-public-jwk"@),
            json_object(key_members_of(answer.key)),
        ),
        StepView::SetSecret(
            link_account(environment, "endpoint"@),
            json_object(endpoint_members_of(answer.endpoint)),
        ),
        StepView::SetSecret(link_account(environment, "owner-sub"@), subject),
        match organization {
            Some(text) => if text.len() > 0 {
                StepView::SetSecret(link_account(environment, "owner-org"@), text)
            } else {
                StepView::DeleteSecret(link_account(environment, "owner-org"@))
            },
            None => StepView::DeleteSecret(link_account(environment, "owner-org"@)),
        },
        StepView::SetSecret(tunnel_account_of(environment), answer.connector_token),
        StepView::SetSettings(
            seq![
                ("sync_environment"@, environment.name()),
                (workspace_setting_of(environment), environment_id),
            ],
        ),
        StepView::SetSecret(link_account(environment, "environment-id"@), environment_id),
        StepView::DeleteSecret(link_account(environment, "pending-environment-id"@)),
    ]
}

fn set_secret(environment: Environment, field: &str, value: &str) -> (step: LinkStep)
    ensures
        step@ == StepView::SetSecret(link_account(environment, field@), value@),
{
    LinkStep::SetSecret(account_name(environment, field), value.to_owned())
}

fn delete_secret(environment: Environment, field: &str) -> (step: LinkStep)
    ensures
        step@ == StepView::DeleteSecret(link_account(environment, field@)),
{
    LinkStep::DeleteSecret(account_name(environment, field))
}

/// The steps in which a link is kept.
pub fn persist_link(
    config: &RelayConfig,
    environment_id: &str,
    owner_subject: &str,
    owner_organization: Option<&str>,
    response: &LinkResponse,
) -> (steps: Vec<LinkStep>)
    ensures
        views(steps@) == persist_steps(
            *config,
            environment_id@,
            owner_subject@,
            match owner_organization {
                Some(text) => Some(text@),
                None => None,
            },
            response@,
        ),
{
    let environment = config.environment;
    let mut steps: Vec<LinkStep> = Vec::new();
    steps.push(
        set_secret(
            environment,
            "relay-issuer",
            trim_trailing(config.base_url.as_str(), '/').as_str(),
        ),
    );
    steps.push(
        set_secret(
            environment,
            "relay-signing-public-jwk",
            write_relay_key(&response.runtime.relay_signing_public_jwk).as_str(),
        ),
    );
    steps.push(
        set_secret(environment, "endpoint", write_endpoint(&response.endpoint).as_str()),
    );
    steps.push(set_secret(environment, "owner-sub", owner_subject));
    let owner = match owner_organization {
        Some(text) => if text.is_empty() {
            delete_secret(environment, "owner-org")
        } else {
            set_secret(environment, "owner-org", text)
        },
        None => delete_secret(environment, "owner-org"),
    };
    steps.push(owner);
    steps.push(
        LinkStep::SetSecret(
            tunnel_account(environment),
            response.runtime.connector_token.as_str().to_owned(),
        ),
    );
    let mut settings: Vec<(String, String)> = Vec::new();
    settings.push(("sync_environment".to_owned(), environment.as_str().to_owned()));
    settings.push((workspace_setting_name(environment), environment_id.to_owned()));
    assert(crate::weburl::pair_views(settings@) =~= seq![
        ("sync_environment"@, environment.name()),
        (workspace_setting_of(environment), environment_id@),
    ]);
    steps.push(LinkStep::SetSettings(settings));
    steps.push(set_secret(environment, "environment-id", environment_id));
    steps.push(delete_secret(environment, "pending-environment-id"));
    assert(views(steps@) =~= persist_steps(
        *config,
        environment_id@,
        owner_subject@,
        match owner_organization {
            Some(text) => Some(text@),
            None => None,
        },
        response@,
    ));
    steps
}

/// The steps in which a link is given up. The identifier is kept as pending first, so that the
/// same environment can be linked again.
pub open spec fn clear_steps(environment: Environment, environment_id: Seq<char>) -> Seq<StepView> {
    seq![
        StepView::SetSecret(link_account(environment, "pending-environment-id"@), environment_id),
        StepView::DeleteSecret(link_account(environment, "environment-id"@)),
        StepView::DeleteSecret(link_account(environment, "relay-issuer"@)),
        StepView::DeleteSecret(link_account(environment, "relay-signing-public-jwk"@)),
        StepView::DeleteSecret(link_account(environment, "endpoint"@)),
        StepView::DeleteSecret(link_account(environment, "owner-sub"@)),
        StepView::DeleteSecret(link_account(environment, "owner-org"@)),
        StepView::DeleteSecret(tunnel_account_of(environment)),
        StepView::DeleteSetting(workspace_setting_of(environment)),
    ]
}

/// The steps in which a link is given up.
pub fn clear_link(environment: Environment, environment_id: &str) -> (steps: Vec<LinkStep>)
    ensures
        views(steps@) == clear_steps(environment, environment_id@),
{
    let mut steps: Vec<LinkStep> = Vec::new();
    steps.push(set_secret(environment, "pending-environment-id", environment_id));
    steps.push(delete_secret(environment, "environment-id"));
    steps.push(delete_secret(environment, "relay-issuer"));
    steps.push(delete_secret(environment, "relay-signing-public-jwk"));
    steps.push(delete_secret(environment, "endpoint"));
    steps.push(delete_secret(environment, "owner-sub"));
    steps.push(delete_secret(environment, "owner-org"));
    steps.push(LinkStep::DeleteSecret(tunnel_account(environment)));
    steps.push(LinkStep::DeleteSetting(workspace_setting_name(environment)));
    assert(views(steps@) =~= clear_steps(environment, environment_id@));
    steps
}

/// The relay may be called with a token only if it was made for the key of this device.
pub fn check_relay_token(token_type: &str, scope: &str, key: &str, own_key: &str) -> (result: Result<
    (),
    LinkFault,
>)
    ensures
        result == if token_type@ == "DPoP"@ && scope@ == "relay:environments"@ && key@ == own_key@ {
            Ok::<(), LinkFault>(())
        } else {
            Err(LinkFault::ForeignToken)
        },
{
    if text_eq(token_type, "DPoP") && text_eq(scope, "relay:environments") && text_eq(
        key,
        own_key,
    ) {
        Ok(())
    } else {
        Err(LinkFault::ForeignToken)
    }
}

/// What is told where the relay refuses, given its status and what it says of it.
pub open spec fn refusal_text(surface: Surface, status: Seq<char>, said: Option<Seq<char>>) -> Seq<
    char,
> {
    (match surface {
        Surface::Window => "Clippy relay returned HTTP "@,
        Surface::CommandLine => "relay returned HTTP "@,
    }) + status + ": "@ + (match said {
        Some(text) => if text.len() > 0 {
            text
        } else {
            "request failed"@
        },
        None => "request failed"@,
    })
}

/// What is told where the relay refuses.
pub fn relay_refusal(surface: Surface, status: &str, said: Option<&str>) -> (text: String)
    ensures
        text@ == refusal_text(
            surface,
            status@,
            match said {
                Some(message) => Some(message@),
                None => None,
            },
        ),
{
    let mut text = match surface {
        Surface::Window => "Clippy relay returned HTTP ".to_owned(),
        Surface::CommandLine => "relay returned HTTP ".to_owned(),
    };
    text.append(status);
    text.append(": ");
    match said {
        Some(message) => {
            if message.is_empty() {
                text.append("request failed");
            } else {
                text.append(message);
            }
        },
        None => {
            text.append("request failed");
        },
    }
    text
}

/// What the relay says of an environment must be about the one that was asked for.
pub fn check_status(environment_id: &str, reported: &str) -> (result: Result<(), LinkFault>)
    ensures
        result == if environment_id@ == reported@ {
            Ok::<(), LinkFault>(())
        } else {
            Err(LinkFault::DifferentEnvironment)
        },
{
    if text_eq(environment_id, reported) {
        Ok(())
    } else {
        Err(LinkFault::DifferentEnvironment)
    }
}

/// What is asked for on the command line.
#[derive(Debug, Clone, PartialEq, Eq)]
pub enum SyncCommand {
    Login(String),
    Link(String, String),
    Status(String),
    Unlink(String, bool),
}

/// What is asked for on the command line.
pub enum SyncCommandView {
    Login(Seq<char>),
    Link(Seq<char>, Seq<char>),
    Status(Seq<char>),
    Unlink(Seq<char>, bool),
}

impl View for SyncCommand {
    type V = SyncCommandView;

    open spec fn view(&self) -> SyncCommandView {
        match self {
            SyncCommand::Login(environment) => SyncCommandView::Login(environment@),
            SyncCommand::Link(environment, name) => SyncCommandView::Link(environment@, name@),
            SyncCommand::Status(environment) => SyncCommandView::Status(environment@),
            SyncCommand::Unlink(environment, tunnel) => SyncCommandView::Unlink(
                environment@,
                *tunnel,
            ),
        }
    }
}

/// Why a command line is not understood.
#[derive(Debug, Clone, Copy, PartialEq, Eq, Structural)]
pub enum UsageFault {
    Usage,
    MissingEnvironment,
}

/// What is asked for on the command line.
pub open spec fn command_read(arguments: Seq<Seq<char>>) -> Result<SyncCommandView, UsageFault> {
    if arguments.len() == 0 || (arguments[0] != "login"@ && arguments[0] != "link"@ && arguments[0]
        != "status"@ && arguments[0] != "unlink"@) {
        Err(UsageFault::Usage)
    } else {
        match value_behind(arguments, "--environment"@) {
            None => Err(UsageFault::MissingEnvironment),
            Some(environment) => Ok(
                if arguments[0] == "login"@ {
                    SyncCommandView::Login(environment)
                } else if arguments[0] == "link"@ {
                    SyncCommandView::Link(
                        environment,
                        or_default(value_behind(arguments, "--name"@), "Clippy on this Mac"@),
                    )
                } else if arguments[0] == "status"@ {
                    SyncCommandView::Status(environment)
                } else {
                    SyncCommandView::Unlink(environment, arguments.contains("--delete-tunnel"@))
                },
            ),
        }
    }
}

/// What is asked for on the command line.
pub fn sync_command(arguments: &[String]) -> (result: Result<SyncCommand, UsageFault>)
    ensures
        match command_read(views(arguments@)) {
            Ok(command) => result matches Ok(found) && found@ == command,
            Err(fault) => result == Err::<SyncCommand, UsageFault>(fault),
        },
{
    let ghost all = views(arguments@);
    if arguments.len() == 0 {
        return Err(UsageFault::Usage);
    }
    assert(all[0] == arguments@[0]@);
    let word = arguments[0].as_str();
    let login = text_eq(word, "login");
    let link = text_eq(word, "link");
    let status = text_eq(word, "status");
    if !login && !link && !status && !text_eq(word, "unlink") {
        return Err(UsageFault::Usage);
    }
    let environment = match option_value(arguments, "--environment") {
        None => {
            return Err(UsageFault::MissingEnvironment);
        },
        Some(environment) => environment,
    };
    if login {
        return Ok(SyncCommand::Login(environment));
    }
    if link {
        let name = match option_value(arguments, "--name") {
            Some(name) => name,
            None => "Clippy on this Mac".to_owned(),
        };
        return Ok(SyncCommand::Link(environment, name));
    }
    if status {
        return Ok(SyncCommand::Status(environment));
    }
    let mut at: usize = 0;
    while at < arguments.len()
        invariant
            all == views(arguments@),
            at <= arguments.len(),
            forall|i: int| 0 <= i < at ==> #[trigger] all[i] != "--delete-tunnel"@,
        ensures
            at <= arguments.len(),
            at < arguments.len() <==> all.contains("--delete-tunnel"@),
        decreases arguments.len() - at,
    {
        assert(all[at as int] == arguments@[at as int]@);
        if text_eq(arguments[at].as_str(), "--delete-tunnel") {
            assert(all.contains("--delete-tunnel"@));
            break ;
        }
        at = at + 1;
    }
    let tunnel = at < arguments.len();
    Ok(SyncCommand::Unlink(environment, tunnel))
}

/// What is kept on this device.
pub struct Keeping {
    pub secrets: Map<Seq<char>, Seq<char>>,
    pub settings: Map<Seq<char>, Seq<char>>,
}

/// Settings after several of them were set.
pub open spec fn settings_after(
    settings: Map<Seq<char>, Seq<char>>,
    pairs: Seq<(Seq<char>, Seq<char>)>,
) -> Map<Seq<char>, Seq<char>>
    decreases pairs.len(),
{
    if pairs.len() == 0 {
        settings
    } else {
        settings_after(settings, pairs.drop_last()).insert(pairs.last().0, pairs.last().1)
    }
}

/// What is kept after a step.
pub open spec fn after_step(keeping: Keeping, step: StepView) -> Keeping {
    match step {
        StepView::SetSecret(account, value) => Keeping {
            secrets: keeping.secrets.insert(account, value),
            ..keeping
        },
        StepView::DeleteSecret(account) => Keeping {
            secrets: keeping.secrets.remove(account),
            ..keeping
        },
        StepView::SetSettings(pairs) => Keeping {
            settings: settings_after(keeping.settings, pairs),
            ..keeping
        },
        StepView::DeleteSetting(name) => Keeping {
            settings: keeping.settings.remove(name),
            ..keeping
        },
    }
}

/// What is kept after some steps.
pub open spec fn after_steps(keeping: Keeping, steps: Seq<StepView>) -> Keeping
    decreases steps.len(),
{
    if steps.len() == 0 {
        keeping
    } else {
        after_step(after_steps(keeping, steps.drop_last()), steps.last())
    }
}

/// What is kept under a name.
pub open spec fn kept_under(secrets: Map<Seq<char>, Seq<char>>, account: Seq<char>) -> Option<
    Seq<char>,
> {
    if secrets.contains_key(account) {
        Some(secrets[account])
    } else {
        None
    }
}

proof fn lemma_one_more(keeping: Keeping, steps: Seq<StepView>, done: int)
    requires
        0 <= done < steps.len(),
    ensures
        after_steps(keeping, steps.take(done + 1)) == after_step(
            after_steps(keeping, steps.take(done)),
            steps[done],
        ),
{
    assert(steps.take(done + 1).drop_last() =~= steps.take(done));
    assert(steps.take(done + 1).last() == steps[done]);
}

proof fn lemma_accounts_apart(environment: Environment, field: Seq<char>, other: Seq<char>)
    ensures
        field != other ==> link_account(environment, field) != link_account(environment, other),
        link_account(environment, field) != tunnel_account_of(environment),
{
    reveal_strlit("connect:");
    reveal_strlit(":");
    reveal_strlit("cloudflare-tunnel:");
    let front = "connect:"@ + environment.name() + ":"@;
    assert(link_account(environment, field) =~= front + field);
    assert(link_account(environment, other) =~= front + other);
    assert((front + field).skip(front.len() as int) =~= field);
    assert((front + other).skip(front.len() as int) =~= other);
    assert(link_account(environment, field)[1] == 'o');
    assert(tunnel_account_of(environment)[1] == 'l');
}

proof fn lemma_fields_differ()
    ensures
        "environment-id"@ != "pending-environment-id"@,
        "environment-id"@ != "relay-issuer"@,
        "environment-id"@ != "relay-signing-public-jwk"@,
        "environment-id"@ != "endpoint"@,
        "environment-id"@ != "owner-sub"@,
        "environment-id"@ != "owner-org"@,
        "pending-environment-id"@ != "relay-issuer"@,
        "pending-environment-id"@ != "relay-signing-public-jwk"@,
        "pending-environment-id"@ != "endpoint"@,
        "pending-environment-id"@ != "owner-sub"@,
        "pending-environment-id"@ != "owner-org"@,
        "relay-issuer"@ != "relay-signing-public-jwk"@,
        "relay-issuer"@ != "endpoint"@,
        "relay-issuer"@ != "owner-sub"@,
        "relay-issuer"@ != "owner-org"@,
        "relay-signing-public-jwk"@ != "endpoint"@,
        "relay-signing-public-jwk"@ != "owner-sub"@,
        "relay-signing-public-jwk"@ != "owner-org"@,
        "endpoint"@ != "owner-sub"@,
        "endpoint"@ != "owner-org"@,
        "owner-sub"@ != "owner-org"@,
{
    reveal_strlit("environment-id");
    reveal_strlit("pending-environment-id");
    reveal_strlit("relay-issuer");
    reveal_strlit("relay-signing-public-jwk");
    reveal_strlit("endpoint");
    reveal_strlit("owner-sub");
    reveal_strlit("owner-org");
    assert("environment-id"@.len() == 14);
    assert("pending-environment-id"@.len() == 22);
    assert("relay-issuer"@.len() == 12);
    assert("relay-signing-public-jwk"@.len() == 24);
    assert("endpoint"@.len() == 8);
    assert("owner-sub"@.len() == 9);
    assert("owner-org"@.len() == 9);
    assert("owner-sub"@[6] == 's');
    assert("owner-org"@[6] == 'o');
}

/// A link counts only when all of it is kept: wherever its keeping is broken off on a device that
/// is not linked, the identifier of the environment is there only if the relay, its key, the
/// endpoint, the owner, the token of the tunnel and the workspace are there as given.
pub proof fn lemma_link_counts_last(
    keeping: Keeping,
    config: RelayConfig,
    environment_id: Seq<char>,
    subject: Seq<char>,
    organization: Option<Seq<char>>,
    answer: AllocationView,
    done: int,
)
    requires
        0 <= done <= 9,
        kept_under(keeping.secrets, link_account(config.environment, "environment-id"@)) is None,
    ensures
        ({
            let environment = config.environment;
            let steps = persist_steps(config, environment_id, subject, organization, answer);
            let after = after_steps(keeping, steps.take(done));
            kept_under(after.secrets, link_account(environment, "environment-id"@)) is Some ==> {
                &&& kept_under(after.secrets, link_account(environment, "environment-id"@)) == Some(
                    environment_id,
                )
                &&& kept_under(after.secrets, link_account(environment, "relay-issuer"@)) == Some(
                    without_trailing(config.base_url@, '/'),
                )
                &&& kept_under(
                    after.secrets,
                    link_account(environment, "relay-signing-public-jwk"@),
                ) == Some(json_object(key_members_of(answer.key)))
                &&& kept_under(after.secrets, link_account(environment, "endpoint"@)) == Some(
                    json_object(endpoint_members_of(answer.endpoint)),
                )
                &&& kept_under(after.secrets, link_account(environment, "owner-sub"@)) == Some(
                    subject,
                )
                &&& kept_under(after.secrets, link_account(environment, "owner-org"@)) == (
                match organization {
                    Some(text) => if text.len() > 0 {
                        Some(text)
                    } else {
                        None
                    },
                    None => None,
                })
                &&& kept_under(after.secrets, tunnel_account_of(environment)) == Some(
                    answer.connector_token,
                )
                &&& kept_under(after.settings, workspace_setting_of(environment)) == Some(
                    environment_id,
                )
                &&& kept_under(after.settings, "sync_environment"@) == Some(environment.name())
            }
        }),
{
    let environment = config.environment;
    let steps = persist_steps(config, environment_id, subject, organization, answer);
    let pairs = seq![
        ("sync_environment"@, environment.name()),
        (workspace_setting_of(environment), environment_id),
    ];
    lemma_fields_differ();
    assert forall|field: Seq<char>, other: Seq<char>| field != other implies #[trigger] link_account(
        environment,
        field,
    ) != #[trigger] link_account(environment, other) by {
        lemma_accounts_apart(environment, field, other);
    }
    assert forall|field: Seq<char>| #[trigger] link_account(environment, field)
        != tunnel_account_of(environment) by {
        lemma_accounts_apart(environment, field, field);
    }
    assert forall|settings: Map<Seq<char>, Seq<char>>|
        #[trigger] settings_after(settings, pairs) == settings.insert(
            "sync_environment"@,
            environment.name(),
        ).insert(workspace_setting_of(environment), environment_id) by {
        assert(pairs.drop_last() =~= seq![("sync_environment"@, environment.name())]);
        assert(pairs.drop_last().drop_last() =~= Seq::empty());
        reveal_with_fuel(settings_after, 3);
    }
    reveal_strlit("sync_environment");
    reveal_strlit("sync_workspace_id:");
    assert(workspace_setting_of(environment)[5] == 'w');
    assert("sync_environment"@[5] == 'e');
    assert(steps.take(0) =~= Seq::empty());
    lemma_one_more(keeping, steps, 0);
    lemma_one_more(keeping, steps, 1);
    lemma_one_more(keeping, steps, 2);
    lemma_one_more(keeping, steps, 3);
    lemma_one_more(keeping, steps, 4);
    lemma_one_more(keeping, steps, 5);
    lemma_one_more(keeping, steps, 6);
    lemma_one_more(keeping, steps, 7);
    lemma_one_more(keeping, steps, 8);
}

/// A link that is given up can be taken up again: wherever its giving up is broken off, the
/// identifier of the environment is still the one that is found, and at the end the device is not
/// linked.
pub proof fn lemma_unlink_keeps_identity(
    keeping: Keeping,
    environment: Environment,
    environment_id: Seq<char>,
    done: int,
)
    requires
        0 <= done <= 9,
        kept_under(keeping.secrets, link_account(environment, "environment-id"@)) == Some(
            environment_id,
        ),
    ensures
        ({
            let after = after_steps(keeping, clear_steps(environment, environment_id).take(done));
            &&& kept_identifier(
                kept_under(after.secrets, link_account(environment, "environment-id"@)),
                kept_under(after.secrets, link_account(environment, "pending-environment-id"@)),
            ) == Some(environment_id)
            &&& done >= 2 ==> kept_under(
                after.secrets,
                link_account(environment, "environment-id"@),
            ) is None
        }),
{
    let steps = clear_steps(environment, environment_id);
    lemma_fields_differ();
    assert forall|field: Seq<char>, other: Seq<char>| field != other implies #[trigger] link_account(
        environment,
        field,
    ) != #[trigger] link_account(environment, other) by {
        lemma_accounts_apart(environment, field, other);
    }
    assert forall|field: Seq<char>| #[trigger] link_account(environment, field)
        != tunnel_account_of(environment) by {
        lemma_accounts_apart(environment, field, field);
    }
    assert(steps.take(0) =~= Seq::empty());
    lemma_one_more(keeping, steps, 0);
    lemma_one_more(keeping, steps, 1);
    lemma_one_more(keeping, steps, 2);
    lemma_one_more(keeping, steps, 3);
    lemma_one_more(keeping, steps, 4);
    lemma_one_more(keeping, steps, 5);
    lemma_one_more(keeping, steps, 6);
    lemma_one_more(keeping, steps, 7);
    lemma_one_more(keeping, steps, 8);
}

} // verus!
