//! What a device is set up for: its environment, its endpoint and the account it is linked to.

use vstd::prelude::*;
use vstd::string::*;

use crate::ids::{is_uuid, uuid_text};
use crate::plain::{opt_view, same_opt};
use crate::text::{
    blank, contains_char, ends_with, has_suffix, is_blank, text_eq, text_from_utf8, trim_trailing,
    without_trailing,
};
use crate::weburl::{
    bare_origin, open_address, parse_url, parsed_url, reschemed_url, url_with_scheme, UrlParts,
    UrlView,
};

verus! {

pub const STAGING_WORKOS_AUDIENCE: &'static str = "client_01KZMNQXBXWT2A807NZCE6V2HV";

pub const STAGING_WORKOS_ISSUER: &'static str =
    "https://fashionable-machine-85-staging.authkit.app";

pub const PRODUCTION_WORKOS_AUDIENCE: &'static str = "client_01KZMNK73NWS9NDAPC3T54S2PE";

pub const PRODUCTION_WORKOS_ISSUER: &'static str = "https://brave-mermaid-84.authkit.app";

pub const STAGING_TUNNEL_URL: &'static str = "https://clippy-staging.saudecomalex.com";

pub const PRODUCTION_TUNNEL_URL: &'static str = "https://clippy.saudecomalex.com";

/// The longest subject or organization of an account, in bytes.
pub const MAX_OWNER_BYTES: usize = 512;

/// Why a device cannot be set up.
#[derive(Debug, Clone, Copy, PartialEq, Eq, Structural)]
pub enum ConfigError {
    MissingWorkspace,
    MissingAudience,
    MissingLinkedSetting,
    InvalidEnvironment,
    InvalidUrl,
    InsecureUrl,
    InvalidEndpoint,
    UntrustedEndpoint,
    IdentityMismatch,
    InvalidIdentity,
    InvalidEncoding,
    KeychainFailed,
}

/// The two worlds that share nothing.
#[derive(Debug, Clone, Copy, PartialEq, Eq, Structural)]
pub enum Environment {
    Staging,
    Production,
}

impl Environment {
    /// The name of the environment.
    pub open spec fn name(self) -> Seq<char> {
        match self {
            Environment::Staging => "staging"@,
            Environment::Production => "production"@,
        }
    }

    /// The domain under which the endpoints of the environment lie.
    pub open spec fn suffix(self) -> Seq<char> {
        match self {
            Environment::Staging => "clippy-staging.saudecomalex.com"@,
            Environment::Production => "clippy.saudecomalex.com"@,
        }
    }

    /// The name of the environment.
    pub fn as_str(self) -> (name: &'static str)
        ensures
            name@ == self.name(),
    {
        match self {
            Environment::Staging => "staging",
            Environment::Production => "production",
        }
    }

    /// The environment of a name.
    pub fn parse(value: &str) -> (result: Result<Self, ConfigError>)
        ensures
            result == named_environment(value@),
    {
        if text_eq(value, "staging") {
            Ok(Environment::Staging)
        } else if text_eq(value, "production") {
            Ok(Environment::Production)
        } else {
            Err(ConfigError::InvalidEnvironment)
        }
    }

    /// The domain under which the endpoints of the environment lie.
    pub fn endpoint_suffix(self) -> (suffix: &'static str)
        ensures
            suffix@ == self.suffix(),
    {
        match self {
            Environment::Staging => "clippy-staging.saudecomalex.com",
            Environment::Production => "clippy.saudecomalex.com",
        }
    }

    /// The port on which the origin of the environment listens.
    pub fn origin_port(self) -> (port: u16)
        ensures
            port == (if self == Environment::Staging {
                49_832u16
            } else {
                49_833u16
            }),
    {
        match self {
            Environment::Staging => 49_832,
            Environment::Production => 49_833,
        }
    }
}

/// The environment of a name.
pub open spec fn named_environment(value: Seq<char>) -> Result<Environment, ConfigError> {
    if value == "staging"@ {
        Ok(Environment::Staging)
    } else if value == "production"@ {
        Ok(Environment::Production)
    } else {
        Err(ConfigError::InvalidEnvironment)
    }
}

/// Reading the name of an environment gives the environment back.
pub proof fn lemma_environment_round_trip(environment: Environment)
    ensures
        named_environment(environment.name()) == Ok::<Environment, ConfigError>(environment),
{
    reveal_strlit("staging");
    reveal_strlit("production");
    assert("staging"@.len() != "production"@.len());
}

/// Where a device can be reached.
#[derive(Debug, Clone, PartialEq, Eq)]
pub struct RuntimeEndpoint {
    pub http_base_url: String,
    pub ws_base_url: String,
}

/// What an endpoint says.
pub struct EndpointView {
    pub http: Seq<char>,
    pub ws: Seq<char>,
}

impl View for RuntimeEndpoint {
    type V = EndpointView;

    open spec fn view(&self) -> EndpointView {
        EndpointView { http: self.http_base_url@, ws: self.ws_base_url@ }
    }
}

impl RuntimeEndpoint {
    /// The parts of the HTTPS address.
    pub fn http_url(&self) -> (result: Result<UrlParts, ConfigError>)
        ensures
            parsed_as(result, endpoint_address(parsed_url(self@.http), "https"@)),
    {
        parse_endpoint_url(self.http_base_url.as_str(), "https")
    }

    /// The parts of the WebSocket address.
    pub fn ws_url(&self) -> (result: Result<UrlParts, ConfigError>)
        ensures
            parsed_as(result, endpoint_address(parsed_url(self@.ws), "wss"@)),
    {
        parse_endpoint_url(self.ws_base_url.as_str(), "wss")
    }
}

/// The result stands for the given one.
pub open spec fn parsed_as(
    result: Result<UrlParts, ConfigError>,
    meaning: Result<UrlView, ConfigError>,
) -> bool {
    match (result, meaning) {
        (Ok(parts), Ok(view)) => parts@ == view,
        (Err(error), Err(other)) => error == other,
        _ => false,
    }
}

/// The address where it is one that needs no credentials over HTTPS.
pub open spec fn https_address(url: Option<UrlView>) -> Result<UrlView, ConfigError> {
    match url {
        None => Err(ConfigError::InvalidUrl),
        Some(parts) => if open_address(parts, "https"@) {
            Ok(parts)
        } else {
            Err(ConfigError::InsecureUrl)
        },
    }
}

/// The address where it is an HTTPS origin.
pub open spec fn origin_address(url: Option<UrlView>) -> Result<UrlView, ConfigError> {
    match https_address(url) {
        Err(error) => Err(error),
        Ok(parts) => if bare_origin(parts) {
            Ok(parts)
        } else {
            Err(ConfigError::InvalidUrl)
        },
    }
}

/// The address where it is an origin of the given scheme.
pub open spec fn endpoint_address(
    url: Option<UrlView>,
    scheme: Seq<char>,
) -> Result<UrlView, ConfigError> {
    match url {
        None => Err(ConfigError::InvalidUrl),
        Some(parts) => if open_address(parts, scheme) && bare_origin(parts) {
            Ok(parts)
        } else {
            Err(ConfigError::InsecureUrl)
        },
    }
}

/// Accepts the parts of an address that needs no credentials over HTTPS.
pub fn require_https(url: Option<UrlParts>) -> (result: Result<UrlParts, ConfigError>)
    ensures
        parsed_as(result, https_address(opt_view(url))),
{
    match url {
        None => Err(ConfigError::InvalidUrl),
        Some(parts) => if parts.is_open_address("https") {
            Ok(parts)
        } else {
            Err(ConfigError::InsecureUrl)
        },
    }
}

/// Reads an HTTPS address.
pub fn parse_https(value: &str) -> (result: Result<UrlParts, ConfigError>)
    ensures
        parsed_as(result, https_address(parsed_url(value@))),
{
    require_https(parse_url(value))
}

/// Accepts the parts of an HTTPS origin.
pub fn require_origin(url: Option<UrlParts>) -> (result: Result<UrlParts, ConfigError>)
    ensures
        parsed_as(result, origin_address(opt_view(url))),
{
    match require_https(url) {
        Err(error) => Err(error),
        Ok(parts) => if parts.is_bare_origin() {
            Ok(parts)
        } else {
            Err(ConfigError::InvalidUrl)
        },
    }
}

/// Reads an HTTPS origin.
pub fn parse_origin(value: &str) -> (result: Result<UrlParts, ConfigError>)
    ensures
        parsed_as(result, origin_address(parsed_url(value@))),
{
    require_origin(parse_url(value))
}

/// Accepts the parts of an origin of the given scheme.
pub fn require_endpoint_url(url: Option<UrlParts>, scheme: &str) -> (result: Result<
    UrlParts,
    ConfigError,
>)
    ensures
        parsed_as(result, endpoint_address(opt_view(url), scheme@)),
{
    match url {
        None => Err(ConfigError::InvalidUrl),
        Some(parts) => if parts.is_open_address(scheme) && parts.is_bare_origin() {
            Ok(parts)
        } else {
            Err(ConfigError::InsecureUrl)
        },
    }
}

/// Reads an origin of the given scheme.
pub fn parse_endpoint_url(value: &str, scheme: &str) -> (result: Result<UrlParts, ConfigError>)
    ensures
        parsed_as(result, endpoint_address(parsed_url(value@), scheme@)),
{
    require_endpoint_url(parse_url(value), scheme)
}

/// The host lies under a domain: it is the domain itself or a name below it.
pub open spec fn host_under(host: Seq<char>, suffix: Seq<char>) -> bool {
    host == suffix || ends_with(host, "."@ + suffix)
}

/// Whether a host is a domain or lies below it.
pub fn is_host_under(host: &str, suffix: &str) -> (result: bool)
    ensures
        result == host_under(host@, suffix@),
{
    text_eq(host, suffix) || has_suffix(host, ".".to_owned().concat(suffix).as_str())
}

/// Why an endpoint cannot be trusted, given what its two addresses read as.
pub open spec fn endpoint_fault(
    environment: Environment,
    endpoint: EndpointView,
    http: Result<UrlView, ConfigError>,
    ws: Result<UrlView, ConfigError>,
) -> Option<ConfigError> {
    match (http, ws) {
        (Err(error), _) => Some(error),
        (Ok(_), Err(error)) => Some(error),
        (Ok(first), Ok(second)) => if first.host != second.host || first.host is None {
            Some(ConfigError::InvalidEndpoint)
        } else if !host_under(first.host->0, environment.suffix()) {
            Some(ConfigError::UntrustedEndpoint)
        } else if without_trailing(endpoint.http, '/') != without_trailing(first.whole, '/')
            || without_trailing(endpoint.ws, '/') != without_trailing(second.whole, '/') {
            Some(ConfigError::InvalidEndpoint)
        } else {
            None
        },
    }
}

/// Whether the two addresses of an endpoint, once read, belong together, lie in the environment
/// and are written in canonical form.
pub fn check_endpoint(
    environment: Environment,
    endpoint: &RuntimeEndpoint,
    http: &UrlParts,
    ws: &UrlParts,
) -> (result: Result<(), ConfigError>)
    ensures
        match endpoint_fault(environment, endpoint@, Ok(http@), Ok(ws@)) {
            None => result is Ok,
            Some(error) => result == Err::<(), ConfigError>(error),
        },
{
    if !same_opt(&http.host, &ws.host) {
        return Err(ConfigError::InvalidEndpoint);
    }
    let host = match &http.host {
        None => {
            return Err(ConfigError::InvalidEndpoint);
        },
        Some(host) => host,
    };
    if !is_host_under(host.as_str(), environment.endpoint_suffix()) {
        return Err(ConfigError::UntrustedEndpoint);
    }
    let http_base = trim_trailing(endpoint.http_base_url.as_str(), '/');
    let ws_base = trim_trailing(endpoint.ws_base_url.as_str(), '/');
    if !text_eq(http_base.as_str(), http.base().as_str()) || !text_eq(
        ws_base.as_str(),
        ws.base().as_str(),
    ) {
        return Err(ConfigError::InvalidEndpoint);
    }
    Ok(())
}

/// Whether an endpoint can be trusted in an environment.
pub fn validate_endpoint(environment: Environment, endpoint: &RuntimeEndpoint) -> (result: Result<
    (),
    ConfigError,
>)
    ensures
        match endpoint_fault(
            environment,
            endpoint@,
            endpoint_address(parsed_url(endpoint@.http), "https"@),
            endpoint_address(parsed_url(endpoint@.ws), "wss"@),
        ) {
            None => result is Ok,
            Some(error) => result == Err::<(), ConfigError>(error),
        },
{
    match endpoint.http_url() {
        Err(error) => Err(error),
        Ok(http) => match endpoint.ws_url() {
            Err(error) => Err(error),
            Ok(ws) => check_endpoint(environment, endpoint, &http, &ws),
        },
    }
}

/// A setting of the process environment counts where it is not blank.
pub open spec fn given(value: Option<Seq<char>>) -> Option<Seq<char>> {
    match value {
        Some(text) => if blank(text) {
            None
        } else {
            Some(text)
        },
        None => None,
    }
}

/// A setting of the process environment, unless it is blank.
pub fn value(setting: Option<String>) -> (result: Option<String>)
    ensures
        opt_view(result) == given(opt_view(setting)),
{
    match setting {
        Some(text) => if is_blank(text.as_str()) {
            None
        } else {
            Some(text)
        },
        None => None,
    }
}

/// The address that an endpoint has where the device is not linked.
pub open spec fn legacy_http(environment: Environment, tunnel: Option<Seq<char>>) -> Seq<char> {
    match given(tunnel) {
        Some(text) => text,
        None => match environment {
            Environment::Staging => STAGING_TUNNEL_URL@,
            Environment::Production => PRODUCTION_TUNNEL_URL@,
        },
    }
}

/// The endpoint of a device that is not linked.
pub open spec fn legacy_of(environment: Environment, tunnel: Option<Seq<char>>) -> Result<
    EndpointView,
    ConfigError,
> {
    match endpoint_address(parsed_url(legacy_http(environment, tunnel)), "https"@) {
        Err(error) => Err(error),
        Ok(http) => match reschemed_url(legacy_http(environment, tunnel), "wss"@) {
            None => Err(ConfigError::InvalidUrl),
            Some(ws) => Ok(
                EndpointView {
                    http: without_trailing(http.whole, '/'),
                    ws: without_trailing(ws, '/'),
                },
            ),
        },
    }
}

/// The endpoint of a device that is not linked: the tunnel of the environment, or the one that the
/// process environment names.
pub fn legacy_endpoint(environment: Environment, tunnel_url: Option<String>) -> (result: Result<
    RuntimeEndpoint,
    ConfigError,
>)
    ensures
        match legacy_of(environment, opt_view(tunnel_url)) {
            Err(error) => result == Err::<RuntimeEndpoint, ConfigError>(error),
            Ok(view) => result matches Ok(endpoint) && endpoint@ == view,
        },
{
    let http_base_url = match value(tunnel_url) {
        Some(text) => text,
        None => match environment {
            Environment::Staging => STAGING_TUNNEL_URL.to_owned(),
            Environment::Production => PRODUCTION_TUNNEL_URL.to_owned(),
        },
    };
    proof {
        reveal_strlit("https");
        reveal_strlit("wss");
    }
    match parse_endpoint_url(http_base_url.as_str(), "https") {
        Err(error) => Err(error),
        Ok(http) => match url_with_scheme(http_base_url.as_str(), "wss") {
            None => Err(ConfigError::InvalidUrl),
            Some(ws) => Ok(
                RuntimeEndpoint {
                    http_base_url: http.base(),
                    ws_base_url: trim_trailing(ws.as_str(), '/'),
                },
            ),
        },
    }
}

/// A stored secret is one line of text that is not blank.
pub open spec fn stored_text(bytes: Seq<u8>) -> Option<Seq<char>> {
    if vstd::utf8::valid_utf8(bytes) {
        let text = vstd::utf8::decode_utf8(bytes);
        if blank(text) || text.contains('\n') || text.contains('\r') {
            None
        } else {
            Some(text)
        }
    } else {
        None
    }
}

/// The text of a stored secret.
pub fn stored_string(bytes: &[u8]) -> (result: Result<String, ConfigError>)
    ensures
        match stored_text(bytes@) {
            Some(text) => result matches Ok(read) && read@ == text,
            None => result == Err::<String, ConfigError>(ConfigError::InvalidEncoding),
        },
{
    match text_from_utf8(bytes) {
        None => Err(ConfigError::InvalidEncoding),
        Some(text) => {
            proof {
                vstd::utf8::encode_utf8_decode_utf8(text@);
            }
            if is_blank(text.as_str()) || contains_char(text.as_str(), '\n') || contains_char(
                text.as_str(),
                '\r',
            ) {
                Err(ConfigError::InvalidEncoding)
            } else {
                Ok(text)
            }
        },
    }
}

/// What a lookup of a stored secret gave.
pub type Lookup = Result<Option<String>, ConfigError>;

/// A secret that must be there.
pub fn required(setting: Lookup) -> (result: Result<String, ConfigError>)
    ensures
        match setting {
            Err(error) => result == Err::<String, ConfigError>(error),
            Ok(None) => result == Err::<String, ConfigError>(ConfigError::MissingLinkedSetting),
            Ok(Some(text)) => result == Ok::<String, ConfigError>(text),
        },
{
    match setting {
        Err(error) => Err(error),
        Ok(None) => Err(ConfigError::MissingLinkedSetting),
        Ok(Some(text)) => Ok(text),
    }
}

/// The account that a device is linked to.
#[derive(Debug, Clone, PartialEq, Eq)]
pub struct LinkedRuntime {
    pub relay_issuer: String,
    pub relay_signing_public_jwk: String,
    pub owner_subject: String,
    pub owner_organization: Option<String>,
}

/// What a link says.
pub struct LinkView {
    pub relay_issuer: Seq<char>,
    pub relay_key: Seq<char>,
    pub owner: Seq<char>,
    pub organization: Option<Seq<char>>,
}

impl View for LinkedRuntime {
    type V = LinkView;

    open spec fn view(&self) -> LinkView {
        LinkView {
            relay_issuer: self.relay_issuer@,
            relay_key: self.relay_signing_public_jwk@,
            owner: self.owner_subject@,
            organization: opt_view(self.owner_organization),
        }
    }
}

/// The stored secrets of a link.
pub struct LinkSettings {
    pub environment_id: Lookup,
    pub relay_issuer: Lookup,
    pub relay_signing_public_jwk: Lookup,
    pub owner_subject: Lookup,
    pub owner_organization: Lookup,
}

/// What a lookup says, where the secret must be there.
pub open spec fn required_text(setting: Lookup) -> Result<Seq<char>, ConfigError> {
    match setting {
        Err(error) => Err(error),
        Ok(None) => Err(ConfigError::MissingLinkedSetting),
        Ok(Some(text)) => Ok(text@),
    }
}

/// The link that stored secrets describe for a workspace. A device without an environment
/// identifier is not linked. The first secret that is wrong decides the error.
pub open spec fn link_of(workspace: Seq<char>, settings: LinkSettings) -> Result<
    Option<LinkView>,
    ConfigError,
> {
    match settings.environment_id {
        Err(error) => Err(error),
        Ok(None) => Ok(None),
        Ok(Some(id)) => if id@ != workspace || !uuid_text(id@) {
            Err(ConfigError::IdentityMismatch)
        } else {
            match required_text(settings.relay_issuer) {
                Err(error) => Err(error),
                Ok(issuer) => match origin_address(parsed_url(issuer)) {
                    Err(error) => Err(error),
                    Ok(address) => match required_text(settings.relay_signing_public_jwk) {
                        Err(error) => Err(error),
                        Ok(key) => match required_text(settings.owner_subject) {
                            Err(error) => Err(error),
                            Ok(owner) => if vstd::utf8::encode_utf8(owner).len()
                                > MAX_OWNER_BYTES {
                                Err(ConfigError::InvalidIdentity)
                            } else {
                                match settings.owner_organization {
                                    Err(error) => Err(error),
                                    Ok(organization) => if organization is Some
                                        && vstd::utf8::encode_utf8(organization->0@).len()
                                        > MAX_OWNER_BYTES {
                                        Err(ConfigError::InvalidIdentity)
                                    } else {
                                        Ok(
                                            Some(
                                                LinkView {
                                                    relay_issuer: without_trailing(
                                                        address.whole,
                                                        '/',
                                                    ),
                                                    relay_key: key,
                                                    owner,
                                                    organization: opt_view(organization),
                                                },
                                            ),
                                        )
                                    },
                                }
                            },
                        },
                    },
                },
            }
        },
    }
}

/// The link that stored secrets describe for a workspace.
pub fn load_linked_runtime(workspace_id: &str, settings: LinkSettings) -> (result: Result<
    Option<LinkedRuntime>,
    ConfigError,
>)
    ensures
        match link_of(workspace_id@, settings) {
            Err(error) => result == Err::<Option<LinkedRuntime>, ConfigError>(error),
            Ok(link) => result matches Ok(linked) && opt_view(linked) == link,
        },
{
    let environment_id = match settings.environment_id {
        Err(error) => {
            return Err(error);
        },
        Ok(None) => {
            return Ok(None);
        },
        Ok(Some(id)) => id,
    };
    if !text_eq(environment_id.as_str(), workspace_id) || !is_uuid(environment_id.as_str()) {
        return Err(ConfigError::IdentityMismatch);
    }
    let issuer = match required(settings.relay_issuer) {
        Err(error) => {
            return Err(error);
        },
        Ok(text) => text,
    };
    let address = match parse_origin(issuer.as_str()) {
        Err(error) => {
            return Err(error);
        },
        Ok(parts) => parts,
    };
    let relay_signing_public_jwk = match required(settings.relay_signing_public_jwk) {
        Err(error) => {
            return Err(error);
        },
        Ok(text) => text,
    };
    let owner_subject = match required(settings.owner_subject) {
        Err(error) => {
            return Err(error);
        },
        Ok(text) => text,
    };
    if owner_subject.as_str().as_bytes().len() > MAX_OWNER_BYTES {
        return Err(ConfigError::InvalidIdentity);
    }
    let owner_organization = match settings.owner_organization {
        Err(error) => {
            return Err(error);
        },
        Ok(organization) => organization,
    };
    if let Some(organization) = &owner_organization {
        if organization.as_str().as_bytes().len() > MAX_OWNER_BYTES {
            return Err(ConfigError::InvalidIdentity);
        }
    }
    Ok(
        Some(
            LinkedRuntime {
                relay_issuer: address.base(),
                relay_signing_public_jwk,
                owner_subject,
                owner_organization,
            },
        ),
    )
}

/// Everything that a device is set up for.
#[derive(Debug, Clone, PartialEq, Eq)]
pub struct SyncConfig {
    pub environment: Environment,
    pub endpoint: RuntimeEndpoint,
    pub workos_issuer: UrlParts,
    pub workos_audience: String,
    pub workspace_id: String,
    pub origin_port: u16,
    pub linked: Option<LinkedRuntime>,
}

/// What the process environment says of the setup.
pub struct Overrides {
    pub tunnel_url: Option<String>,
    pub workos_issuer: Option<String>,
    pub workos_audience: Option<String>,
}

/// The setting where it is given, and the environment's own otherwise.
pub open spec fn or_default(
    setting: Option<Seq<char>>,
    environment: Environment,
    staging: Seq<char>,
    production: Seq<char>,
) -> Seq<char> {
    match given(setting) {
        Some(text) => text,
        None => match environment {
            Environment::Staging => staging,
            Environment::Production => production,
        },
    }
}

fn chosen(
    setting: Option<String>,
    environment: Environment,
    staging: &str,
    production: &str,
) -> (text: String)
    ensures
        text@ == or_default(opt_view(setting), environment, staging@, production@),
{
    match value(setting) {
        Some(text) => text,
        None => match environment {
            Environment::Staging => staging.to_owned(),
            Environment::Production => production.to_owned(),
        },
    }
}

/// What a setup says.
pub struct ConfigView {
    pub environment: Environment,
    pub endpoint: EndpointView,
    pub workos_issuer: UrlView,
    pub workos_audience: Seq<char>,
    pub workspace: Seq<char>,
    pub origin_port: u16,
    pub linked: Option<LinkView>,
}

impl View for SyncConfig {
    type V = ConfigView;

    open spec fn view(&self) -> ConfigView {
        ConfigView {
            environment: self.environment,
            endpoint: self.endpoint@,
            workos_issuer: self.workos_issuer@,
            workos_audience: self.workos_audience@,
            workspace: self.workspace_id@,
            origin_port: self.origin_port,
            linked: opt_view(self.linked),
        }
    }
}

/// The setup of a device whose link and endpoint are settled.
pub open spec fn settled_config(
    environment: Environment,
    workspace: Seq<char>,
    linked: Option<LinkView>,
    endpoint: EndpointView,
    issuer: Seq<char>,
    audience: Seq<char>,
) -> Result<ConfigView, ConfigError> {
    match endpoint_fault(
        environment,
        endpoint,
        endpoint_address(parsed_url(endpoint.http), "https"@),
        endpoint_address(parsed_url(endpoint.ws), "wss"@),
    ) {
        Some(error) => Err(error),
        None => match https_address(parsed_url(issuer)) {
            Err(error) => Err(error),
            Ok(workos_issuer) => if audience.len() == 0 {
                Err(ConfigError::MissingAudience)
            } else {
                Ok(
                    ConfigView {
                        environment,
                        endpoint,
                        workos_issuer,
                        workos_audience: audience,
                        workspace,
                        origin_port: if environment == Environment::Staging {
                            49_832
                        } else {
                            49_833
                        },
                        linked,
                    },
                )
            },
        },
    }
}

/// The setup of a device. The workspace must have an identifier; a linked device has the endpoint
/// that was stored for it, any other the legacy one; the endpoint must be trusted, the issuer
/// reachable over HTTPS and the audience given.
pub open spec fn config_of(
    environment: Environment,
    workspace: Seq<char>,
    settings: LinkSettings,
    stored_endpoint: Result<RuntimeEndpoint, ConfigError>,
    overrides: Overrides,
) -> Result<ConfigView, ConfigError> {
    if !uuid_text(workspace) {
        Err(ConfigError::MissingWorkspace)
    } else {
        match link_of(workspace, settings) {
            Err(error) => Err(error),
            Ok(linked) => {
                let endpoint = if linked is Some {
                    match stored_endpoint {
                        Err(error) => Err(error),
                        Ok(stored) => Ok(stored@),
                    }
                } else {
                    legacy_of(environment, opt_view(overrides.tunnel_url))
                };
                match endpoint {
                    Err(error) => Err(error),
                    Ok(view) => settled_config(
                        environment,
                        workspace,
                        linked,
                        view,
                        or_default(
                            opt_view(overrides.workos_issuer),
                            environment,
                            STAGING_WORKOS_ISSUER@,
                            PRODUCTION_WORKOS_ISSUER@,
                        ),
                        or_default(
                            opt_view(overrides.workos_audience),
                            environment,
                            STAGING_WORKOS_AUDIENCE@,
                            PRODUCTION_WORKOS_AUDIENCE@,
                        ),
                    ),
                }
            },
        }
    }
}

impl SyncConfig {
    /// Sets a device up from the secrets stored for it and the process environment.
    pub fn for_environment(
        environment: Environment,
        workspace_id: String,
        settings: LinkSettings,
        stored_endpoint: Result<RuntimeEndpoint, ConfigError>,
        overrides: Overrides,
    ) -> (result: Result<Self, ConfigError>)
        ensures
            match config_of(environment, workspace_id@, settings, stored_endpoint, overrides) {
                Err(error) => result == Err::<Self, ConfigError>(error),
                Ok(view) => result matches Ok(config) && config@ == view,
            },
    {
        if !is_uuid(workspace_id.as_str()) {
            return Err(ConfigError::MissingWorkspace);
        }
        let linked = match load_linked_runtime(workspace_id.as_str(), settings) {
            Err(error) => {
                return Err(error);
            },
            Ok(linked) => linked,
        };
        let endpoint = match &linked {
            Some(_) => stored_endpoint,
            None => legacy_endpoint(environment, overrides.tunnel_url),
        };
        let endpoint = match endpoint {
            Err(error) => {
                return Err(error);
            },
            Ok(endpoint) => endpoint,
        };
        if let Err(error) = validate_endpoint(environment, &endpoint) {
            return Err(error);
        }
        let issuer = chosen(
            overrides.workos_issuer,
            environment,
            STAGING_WORKOS_ISSUER,
            PRODUCTION_WORKOS_ISSUER,
        );
        let audience = chosen(
            overrides.workos_audience,
            environment,
            STAGING_WORKOS_AUDIENCE,
            PRODUCTION_WORKOS_AUDIENCE,
        );
        let workos_issuer = match parse_https(issuer.as_str()) {
            Err(error) => {
                return Err(error);
            },
            Ok(parts) => parts,
        };
        if audience.as_str().is_empty() {
            return Err(ConfigError::MissingAudience);
        }
        Ok(
            SyncConfig {
                environment,
                endpoint,
                workos_issuer,
                workos_audience: audience,
                workspace_id,
                origin_port: environment.origin_port(),
                linked,
            },
        )
    }
}

} // verus!
