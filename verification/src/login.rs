//! Signing in: the address that the browser opens, the answer that comes back to this device, and
//! the tokens that are then handed out.

use vstd::prelude::*;
use vstd::string::*;
use vstd::utf8::*;

use crate::auth::{
    claim_names, claims_document, key_lookup, look_up_key, rs256_accepted, rs256_accepts,
    rs256_current, KeyLookup,
};
use crate::config::{
    Environment, PRODUCTION_WORKOS_AUDIENCE, PRODUCTION_WORKOS_ISSUER, STAGING_WORKOS_AUDIENCE,
    STAGING_WORKOS_ISSUER,
};
use crate::crypto::secret_eq;
use crate::dpop::{read_token_header, token_header, TokenAlgorithm};
use crate::encoding::decode;
use crate::json::{
    json_member, json_texts, read_member, read_texts, JsonMember, MemberView,
};
use crate::plain::{opt_view, views, Plain};
use crate::relay::{read_natural, read_optional, read_text, EXPIRY_LEEWAY_SECONDS};
use crate::signing::{random_token, token_hash, token_hash_of, token_shaped};
use crate::text::{
    after_prefix, chars_of, decimal, decimal_text, is_blank, is_whitespace,
    lemma_blank_trimmed, lemma_encode_utf8_injective, split, split_text, starts_with, text_eq,
    text_from_utf8, trim_start, trim_trailing, trimmed, whitespace, without_trailing,
};
use crate::weburl::{
    append_query_pairs, can_take_pairs, join_url, joined_url, pair_views, parse_url, parsed_url,
    query_pairs, takes_pairs, url_pairs, url_with_pairs,
};

verus! {

/// Where the browser comes back to.
pub const CALLBACK: &'static str = "http://127.0.0.1:49834/auth/callback";

/// How long a sign-in may take, in seconds.
pub const CALLBACK_TIMEOUT_SECONDS: u64 = 900;

/// Where somebody signs in.
#[derive(Debug, Clone, Copy, PartialEq, Eq, Structural)]
pub enum Surface {
    Window,
    CommandLine,
}

/// Why a sign-in cannot begin.
#[derive(Debug, Clone, Copy, PartialEq, Eq, Structural)]
pub enum LoginFault {
    InvalidIssuer,
    InsecureIssuer,
    MissingClient,
    InvalidEndpoint,
}

/// Who signs accounts in, and under which name this program is known there.
#[derive(Debug, Clone, PartialEq, Eq)]
pub struct LoginConfig {
    pub issuer: String,
    pub client_id: String,
}

/// What stands unless something else is set.
pub open spec fn or_default(value: Option<Seq<char>>, default: Seq<char>) -> Seq<char> {
    match value {
        Some(text) => text,
        None => default,
    }
}

/// The issuer of an environment, unless another one is set.
pub open spec fn issuer_of(environment: Environment, issuer: Option<Seq<char>>) -> Seq<char> {
    or_default(
        issuer,
        match environment {
            Environment::Staging => STAGING_WORKOS_ISSUER@,
            Environment::Production => PRODUCTION_WORKOS_ISSUER@,
        },
    )
}

/// The name of this program in an environment, unless another one is set.
pub open spec fn client_of(environment: Environment, client: Option<Seq<char>>) -> Seq<char> {
    or_default(
        client,
        match environment {
            Environment::Staging => STAGING_WORKOS_AUDIENCE@,
            Environment::Production => PRODUCTION_WORKOS_AUDIENCE@,
        },
    )
}

/// The name of this program is missing. On the command line, a blank name is none.
pub open spec fn client_missing(surface: Surface, client: Seq<char>) -> bool {
    match surface {
        Surface::Window => client.len() == 0,
        Surface::CommandLine => trimmed(client).len() == 0,
    }
}

/// Why a sign-in with this issuer and name cannot begin.
pub open spec fn login_fault(surface: Surface, issuer: Seq<char>, client: Seq<char>) -> Option<
    LoginFault,
> {
    match parsed_url(issuer) {
        None => Some(LoginFault::InvalidIssuer),
        Some(url) => if url.scheme != "https"@ || url.host is None {
            Some(LoginFault::InsecureIssuer)
        } else if client_missing(surface, client) {
            Some(LoginFault::MissingClient)
        } else {
            None
        },
    }
}

/// What is asked of the issuer.
pub open spec fn authorize_pairs(
    client: Seq<char>,
    challenge: Seq<char>,
    state: Seq<char>,
    nonce: Seq<char>,
) -> Seq<(Seq<char>, Seq<char>)> {
    seq![
        ("client_id"@, client),
        ("redirect_uri"@, CALLBACK@),
        ("response_type"@, "code"@),
        ("scope"@, "openid profile email offline_access"@),
        ("code_challenge"@, challenge),
        ("code_challenge_method"@, "S256"@),
        ("state"@, state),
        ("nonce"@, nonce),
    ]
}

/// What is sent to the issuer for a code.
pub open spec fn exchange_pairs(client: Seq<char>, code: Seq<char>, verifier: Seq<char>) -> Seq<
    (Seq<char>, Seq<char>),
> {
    seq![
        ("client_id"@, client),
        ("grant_type"@, "authorization_code"@),
        ("code"@, code),
        ("redirect_uri"@, CALLBACK@),
        ("code_verifier"@, verifier),
    ]
}

/// The address of an issuer at which somebody signs in takes a query, if there is one.
pub open spec fn authorize_possible(issuer: Seq<char>) -> bool {
    joined_url(issuer, "oauth2/authorize"@) matches Some(address) ==> takes_pairs(address)
}

/// The address that the browser opens.
pub open spec fn authorize_address(
    issuer: Seq<char>,
    client: Seq<char>,
    challenge: Seq<char>,
    state: Seq<char>,
    nonce: Seq<char>,
) -> Option<Seq<char>> {
    match joined_url(issuer, "oauth2/authorize"@) {
        None => None,
        Some(address) => url_with_pairs(
            address,
            authorize_pairs(client, challenge, state, nonce),
        ),
    }
}

fn pair(name: &str, value: &str) -> (pair: (String, String))
    ensures
        pair.0@ == name@,
        pair.1@ == value@,
{
    (name.to_owned(), value.to_owned())
}

impl LoginConfig {
    /// What a sign-in goes by in an environment. What is set for the process stands before what is
    /// built in.
    pub fn load(
        environment: Environment,
        surface: Surface,
        issuer: Option<String>,
        client_id: Option<String>,
    ) -> (result: Result<Self, LoginFault>)
        ensures
            match login_fault(
                surface,
                issuer_of(environment, opt_view(issuer)),
                client_of(environment, opt_view(client_id)),
            ) {
                Some(fault) => result == Err::<Self, LoginFault>(fault),
                None => (result matches Ok(config) && Some(config.issuer@) == (match parsed_url(
                    issuer_of(environment, opt_view(issuer)),
                ) {
                    Some(url) => Some(url.whole),
                    None => None,
                }) && config.client_id@ == client_of(environment, opt_view(client_id))),
            },
    {
        let issuer = match issuer {
            Some(text) => text,
            None => match environment {
                Environment::Staging => STAGING_WORKOS_ISSUER.to_owned(),
                Environment::Production => PRODUCTION_WORKOS_ISSUER.to_owned(),
            },
        };
        let client_id = match client_id {
            Some(text) => text,
            None => match environment {
                Environment::Staging => STAGING_WORKOS_AUDIENCE.to_owned(),
                Environment::Production => PRODUCTION_WORKOS_AUDIENCE.to_owned(),
            },
        };
        proof {
            lemma_blank_trimmed(client_id@);
        }
        match parse_url(issuer.as_str()) {
            None => Err(LoginFault::InvalidIssuer),
            Some(url) => {
                if !text_eq(url.scheme.as_str(), "https") || url.host.is_none() {
                    return Err(LoginFault::InsecureIssuer);
                }
                let missing = match surface {
                    Surface::Window => client_id.as_str().is_empty(),
                    Surface::CommandLine => is_blank(client_id.as_str()),
                };
                if missing {
                    return Err(LoginFault::MissingClient);
                }
                Ok(LoginConfig { issuer: url.whole, client_id })
            },
        }
    }

    /// The address that the browser opens, where the address of the issuer takes a query; nothing
    /// where it does not.
    pub fn checked_authorize_url(&self, challenge: &str, state: &str, nonce: &str) -> (
        result: Option<Result<String, LoginFault>>)
        ensures
            result is Some <==> authorize_possible(self.issuer@),
            result matches Some(made) ==> match authorize_address(
                self.issuer@,
                self.client_id@,
                challenge@,
                state@,
                nonce@,
            ) {
                Some(address) => made matches Ok(text) && text@ == address,
                None => made == Err::<String, LoginFault>(LoginFault::InvalidEndpoint),
            },
    {
        if let Some(address) = join_url(self.issuer.as_str(), "oauth2/authorize") {
            if !can_take_pairs(address.as_str()) {
                return None;
            }
        }
        Some(self.authorize_url(challenge, state, nonce))
    }

    /// The address that the browser opens.
    pub fn authorize_url(&self, challenge: &str, state: &str, nonce: &str) -> (result: Result<
        String,
        LoginFault,
    >)
        requires
            authorize_possible(self.issuer@),
        ensures
            match authorize_address(
                self.issuer@,
                self.client_id@,
                challenge@,
                state@,
                nonce@,
            ) {
                Some(address) => result matches Ok(text) && text@ == address,
                None => result == Err::<String, LoginFault>(LoginFault::InvalidEndpoint),
            },
    {
        let address = match join_url(self.issuer.as_str(), "oauth2/authorize") {
            None => {
                return Err(LoginFault::InvalidEndpoint);
            },
            Some(address) => address,
        };
        let pairs = [
            pair("client_id", self.client_id.as_str()),
            pair("redirect_uri", CALLBACK),
            pair("response_type", "code"),
            pair("scope", "openid profile email offline_access"),
            pair("code_challenge", challenge),
            pair("code_challenge_method", "S256"),
            pair("state", state),
            pair("nonce", nonce),
        ];
        assert(pair_views(pairs@) =~= authorize_pairs(
            self.client_id@,
            challenge@,
            state@,
            nonce@,
        ));
        match append_query_pairs(address.as_str(), pairs.as_slice()) {
            None => Err(LoginFault::InvalidEndpoint),
            Some(text) => Ok(text),
        }
    }

    /// What is sent to the issuer for a code, with the verifier that only this device knows.
    pub fn exchange_form(&self, code: &str, verifier: &str) -> (pairs: Vec<(String, String)>)
        ensures
            pair_views(pairs@) == exchange_pairs(self.client_id@, code@, verifier@),
    {
        let mut pairs: Vec<(String, String)> = Vec::new();
        pairs.push(pair("client_id", self.client_id.as_str()));
        pairs.push(pair("grant_type", "authorization_code"));
        pairs.push(pair("code", code));
        pairs.push(pair("redirect_uri", CALLBACK));
        pairs.push(pair("code_verifier", verifier));
        assert(pair_views(pairs@) =~= exchange_pairs(self.client_id@, code@, verifier@));
        pairs
    }

    /// The address of the issuer at which codes are exchanged and keys are had.
    pub fn endpoint(&self, path: &str) -> (result: Result<String, LoginFault>)
        ensures
            match joined_url(self.issuer@, path@) {
                Some(address) => result matches Ok(text) && text@ == address,
                None => result == Err::<String, LoginFault>(LoginFault::InvalidEndpoint),
            },
    {
        match join_url(self.issuer.as_str(), path) {
            None => Err(LoginFault::InvalidEndpoint),
            Some(text) => Ok(text),
        }
    }
}

/// What is known only to this device during a sign-in: the verifier whose digest is the challenge,
/// and what must come back.
pub struct LoginSecrets {
    pub verifier: String,
    pub challenge: String,
    pub state: String,
    pub nonce: String,
}

/// Fresh secrets for a sign-in.
pub fn new_login() -> (secrets: LoginSecrets)
    ensures
        token_shaped(secrets.verifier@),
        secrets.challenge@ == token_hash_of(secrets.verifier@),
        token_shaped(secrets.state@),
        token_shaped(secrets.nonce@),
{
    let verifier = random_token();
    let challenge = token_hash(verifier.as_str());
    LoginSecrets { verifier, challenge, state: random_token(), nonce: random_token() }
}

/// Why what came back is not accepted.
#[derive(Debug, Clone, PartialEq, Eq)]
pub enum CallbackError {
    InvalidRequest,
    InvalidUrl,
    UnexpectedPath,
    /// The issuer has refused, and says why.
    Denied(String),
    MissingState,
    StateMismatch,
    MissingCode,
}

/// Why what came back is not accepted.
pub enum CallbackFault {
    InvalidRequest,
    InvalidUrl,
    UnexpectedPath,
    Denied(Seq<char>),
    MissingState,
    StateMismatch,
    MissingCode,
}

impl View for CallbackError {
    type V = CallbackFault;

    open spec fn view(&self) -> CallbackFault {
        match self {
            CallbackError::InvalidRequest => CallbackFault::InvalidRequest,
            CallbackError::InvalidUrl => CallbackFault::InvalidUrl,
            CallbackError::UnexpectedPath => CallbackFault::UnexpectedPath,
            CallbackError::Denied(reason) => CallbackFault::Denied(reason@),
            CallbackError::MissingState => CallbackFault::MissingState,
            CallbackError::StateMismatch => CallbackFault::StateMismatch,
            CallbackError::MissingCode => CallbackFault::MissingCode,
        }
    }
}

impl CallbackError {
    /// What is told in the window.
    pub fn message(&self) -> (text: String)
        ensures
            text@ == match self@ {
                CallbackFault::InvalidRequest => "AuthKit redirect was invalid"@,
                CallbackFault::InvalidUrl => "AuthKit redirect URL was invalid"@,
                CallbackFault::UnexpectedPath => "AuthKit returned an unexpected callback path"@,
                CallbackFault::Denied(reason) => "AuthKit authorization failed: "@ + reason,
                CallbackFault::MissingState => "AuthKit callback state is missing"@,
                CallbackFault::StateMismatch => "AuthKit callback state did not match"@,
                CallbackFault::MissingCode => "AuthKit authorization code is missing"@,
            },
    {
        match self {
            CallbackError::InvalidRequest => "AuthKit redirect was invalid".to_owned(),
            CallbackError::InvalidUrl => "AuthKit redirect URL was invalid".to_owned(),
            CallbackError::UnexpectedPath =>
                "AuthKit returned an unexpected callback path".to_owned(),
            CallbackError::Denied(reason) => {
                let mut text = "AuthKit authorization failed: ".to_owned();
                text.append(reason.as_str());
                text
            },
            CallbackError::MissingState => "AuthKit callback state is missing".to_owned(),
            CallbackError::StateMismatch => "AuthKit callback state did not match".to_owned(),
            CallbackError::MissingCode => "AuthKit authorization code is missing".to_owned(),
        }
    }

    /// What is told on the command line.
    pub fn command_message(&self) -> (text: String)
        ensures
            text@ == match self@ {
                CallbackFault::InvalidRequest => "invalid callback request"@,
                CallbackFault::InvalidUrl => "invalid callback URL"@,
                CallbackFault::UnexpectedPath => "unexpected callback path"@,
                CallbackFault::Denied(reason) => "AuthKit returned "@ + reason,
                CallbackFault::MissingState => "callback state is missing"@,
                CallbackFault::StateMismatch => "callback state did not match"@,
                CallbackFault::MissingCode => "authorization code is missing"@,
            },
    {
        match self {
            CallbackError::InvalidRequest => "invalid callback request".to_owned(),
            CallbackError::InvalidUrl => "invalid callback URL".to_owned(),
            CallbackError::UnexpectedPath => "unexpected callback path".to_owned(),
            CallbackError::Denied(reason) => {
                let mut text = "AuthKit returned ".to_owned();
                text.append(reason.as_str());
                text
            },
            CallbackError::MissingState => "callback state is missing".to_owned(),
            CallbackError::StateMismatch => "callback state did not match".to_owned(),
            CallbackError::MissingCode => "authorization code is missing".to_owned(),
        }
    }
}

/// The value of a name: the last one counts.
pub open spec fn last_value(pairs: Seq<(Seq<char>, Seq<char>)>, name: Seq<char>) -> Option<Seq<char>>
    decreases pairs.len(),
{
    if pairs.len() == 0 {
        None
    } else if pairs.last().0 == name {
        Some(pairs.last().1)
    } else {
        last_value(pairs.drop_last(), name)
    }
}

fn find_value(pairs: &[(String, String)], name: &str) -> (value: Option<String>)
    ensures
        opt_view(value) == last_value(pair_views(pairs@), name@),
{
    let ghost all = pair_views(pairs@);
    let mut end: usize = pairs.len();
    assert(all.take(end as int) =~= all);
    while end > 0
        invariant
            all == pair_views(pairs@),
            end <= pairs@.len(),
            last_value(all.take(end as int), name@) == last_value(all, name@),
        decreases end,
    {
        proof {
            assert(all.take(end as int).drop_last() =~= all.take(end - 1));
            assert(all.take(end as int).last() == all[end - 1]);
        }
        if text_eq(pairs[end - 1].0.as_str(), name) {
            return Some(pairs[end - 1].1.duplicate());
        }
        end = end - 1;
    }
    None
}

/// What the query of a callback says.
pub open spec fn query_verdict(
    pairs: Seq<(Seq<char>, Seq<char>)>,
    expected_state: Seq<char>,
) -> Result<Seq<char>, CallbackFault> {
    match last_value(pairs, "error"@) {
        Some(reason) => Err(CallbackFault::Denied(reason)),
        None => match last_value(pairs, "state"@) {
            None => Err(CallbackFault::MissingState),
            Some(state) => if state != expected_state {
                Err(CallbackFault::StateMismatch)
            } else {
                match last_value(pairs, "code"@) {
                    Some(code) => if code.len() > 0 {
                        Ok(code)
                    } else {
                        Err(CallbackFault::MissingCode)
                    },
                    None => Err(CallbackFault::MissingCode),
                }
            },
        },
    }
}

/// What a result says of a code.
pub open spec fn code_result(result: Result<String, CallbackError>) -> Result<
    Seq<char>,
    CallbackFault,
> {
    match result {
        Ok(code) => Ok(code@),
        Err(error) => Err(error@),
    }
}

/// The code that the query of a callback carries. A refusal is told first; then the state must be
/// the one that was sent.
pub fn check_query(pairs: &[(String, String)], expected_state: &str) -> (result: Result<
    String,
    CallbackError,
>)
    ensures
        code_result(result) == query_verdict(pair_views(pairs@), expected_state@),
{
    match find_value(pairs, "error") {
        Some(reason) => {
            return Err(CallbackError::Denied(reason));
        },
        None => {},
    }
    match find_value(pairs, "state") {
        None => {
            return Err(CallbackError::MissingState);
        },
        Some(state) => {
            if !secret_eq(state.as_str(), expected_state) {
                return Err(CallbackError::StateMismatch);
            }
        },
    }
    match find_value(pairs, "code") {
        Some(code) => if code.as_str().is_empty() {
            Err(CallbackError::MissingCode)
        } else {
            Ok(code)
        },
        None => Err(CallbackError::MissingCode),
    }
}

/// What the target of a callback says.
pub open spec fn target_verdict(target: Seq<char>, expected_state: Seq<char>) -> Result<
    Seq<char>,
    CallbackFault,
> {
    let address = "http://127.0.0.1:49834"@ + target;
    match (parsed_url(address), url_pairs(address)) {
        (Some(url), Some(pairs)) => if url.path != "/auth/callback"@ {
            Err(CallbackFault::UnexpectedPath)
        } else {
            query_verdict(pairs, expected_state)
        },
        _ => Err(CallbackFault::InvalidUrl),
    }
}

/// The code that the target of a callback carries.
pub fn parse_callback_target(target: &str, expected_state: &str) -> (result: Result<
    String,
    CallbackError,
>)
    ensures
        code_result(result) == target_verdict(target@, expected_state@),
{
    let mut address = "http://127.0.0.1:49834".to_owned();
    address.append(target);
    match (parse_url(address.as_str()), query_pairs(address.as_str())) {
        (Some(url), Some(pairs)) => {
            if !text_eq(url.path.as_str(), "/auth/callback") {
                return Err(CallbackError::UnexpectedPath);
            }
            check_query(pairs.as_slice(), expected_state)
        },
        _ => Err(CallbackError::InvalidUrl),
    }
}

/// No other state than the one that was sent is ever accepted: whatever the callback says, a code
/// comes out of it only with that state, and never beside a refusal.
pub proof fn lemma_forged_state_refused(
    pairs: Seq<(Seq<char>, Seq<char>)>,
    expected_state: Seq<char>,
)
    requires
        query_verdict(pairs, expected_state) is Ok,
    ensures
        last_value(pairs, "state"@) == Some(expected_state),
        last_value(pairs, "error"@) is None,
{
}

/// The longest beginning of a text without white space.
pub open spec fn word_at_start(text: Seq<char>) -> Seq<char>
    decreases text.len(),
{
    if text.len() == 0 || whitespace(text[0]) {
        Seq::empty()
    } else {
        seq![text[0]] + word_at_start(text.drop_first())
    }
}

/// The target of a request: the first word behind the method in its first line. Only requests that
/// read have one.
pub open spec fn request_target(request: Seq<char>) -> Option<Seq<char>> {
    let line = split(request, '\n')[0];
    let word = word_at_start(trim_start(line.skip(4)));
    if starts_with(line, "GET "@) && word.len() > 0 {
        Some(word)
    } else {
        None
    }
}

fn first_word(text: &str) -> (word: String)
    ensures
        word@ == word_at_start(trim_start(text@)),
{
    let characters = chars_of(text);
    let mut start: usize = 0;
    assert(text@.skip(0) =~= text@);
    while start < characters.len() && is_whitespace(characters[start])
        invariant
            characters@ == text@,
            start <= characters.len(),
            trim_start(text@.skip(start as int)) == trim_start(text@),
        decreases characters.len() - start,
    {
        assert(text@.skip(start as int).drop_first() =~= text@.skip(start + 1));
        start = start + 1;
    }
    let ghost rest = text@.skip(start as int);
    assert(trim_start(rest) == rest);
    let mut word = String::new();
    let mut at: usize = start;
    assert(word@ + word_at_start(text@.skip(at as int)) =~= word_at_start(rest));
    while at < characters.len() && !is_whitespace(characters[at])
        invariant
            characters@ == text@,
            at <= characters.len(),
            word@ + word_at_start(text@.skip(at as int)) == word_at_start(rest),
        decreases characters.len() - at,
    {
        let ghost before = word@;
        proof {
            let here = text@.skip(at as int);
            assert(here.drop_first() =~= text@.skip(at + 1));
            assert(here[0] == text@[at as int]);
            assert(before.push(here[0]) + word_at_start(here.drop_first()) =~= before + (seq![
                here[0],
            ] + word_at_start(here.drop_first())));
        }
        word.push(characters[at]);
        at = at + 1;
    }
    assert(word@ + Seq::<char>::empty() =~= word@);
    word
}

/// The code that a request carries which came back to this device.
pub fn parse_callback(request: &[u8], expected_state: &str) -> (result: Result<
    String,
    CallbackError,
>)
    ensures
        if valid_utf8(request@) {
            forall|text: Seq<char>|
                encode_utf8(text) == request@ ==> code_result(result) == (
                match #[trigger] request_target(text) {
                    Some(target) => target_verdict(target, expected_state@),
                    None => Err(CallbackFault::InvalidRequest),
                })
        } else {
            code_result(result) == Err::<Seq<char>, CallbackFault>(CallbackFault::InvalidRequest)
        },
{
    let text = match text_from_utf8(request) {
        None => {
            return Err(CallbackError::InvalidRequest);
        },
        Some(text) => text,
    };
    proof {
        assert forall|other: Seq<char>| encode_utf8(other) == request@ implies other == text@ by {
            lemma_encode_utf8_injective(other, text@);
        }
        lemma_split_some(text@, '\n');
        reveal_strlit("GET ");
    }
    let lines = split_text(text.as_str(), '\n');
    assert(views(lines@).len() == lines@.len());
    assert(lines@[0]@ == views(lines@)[0]);
    match after_prefix(lines[0].as_str(), "GET ") {
        None => Err(CallbackError::InvalidRequest),
        Some(rest) => {
            let target = first_word(rest);
            if target.as_str().is_empty() {
                return Err(CallbackError::InvalidRequest);
            }
            parse_callback_target(target.as_str(), expected_state)
        },
    }
}

proof fn lemma_split_some(text: Seq<char>, character: char)
    ensures
        split(text, character).len() > 0,
{
}

/// What is to be done about a request that came back to this device.
#[derive(Debug, Clone, PartialEq, Eq)]
pub enum CallbackOutcome {
    /// The sign-in goes on with this code.
    Accept(String),
    /// The issuer has refused: the sign-in is over.
    Refuse(CallbackError),
    /// Something else called at the door. The sign-in waits on.
    Ignore,
}

/// What is to be done about a request. Browsers and local programs may call speculatively; only an
/// explicit refusal by the issuer ends a sign-in.
pub fn callback_outcome(result: Result<String, CallbackError>) -> (outcome: CallbackOutcome)
    ensures
        outcome == match result {
            Ok(code) => CallbackOutcome::Accept(code),
            Err(CallbackError::Denied(reason)) => CallbackOutcome::Refuse(
                CallbackError::Denied(reason),
            ),
            Err(_) => CallbackOutcome::Ignore,
        },
{
    match result {
        Ok(code) => CallbackOutcome::Accept(code),
        Err(CallbackError::Denied(reason)) => CallbackOutcome::Refuse(
            CallbackError::Denied(reason),
        ),
        Err(_) => CallbackOutcome::Ignore,
    }
}

/// The page that the browser shows.
pub open spec fn page_text(surface: Surface, message: Seq<char>) -> Seq<char> {
    (match surface {
        Surface::Window =>
            "<!doctype html><meta charset=utf-8><title>Clippy</title><style>body{font:16px system-ui;padding:48px;color:#243129;background:#f5f2eb}</style><p>"@,
        Surface::CommandLine =>
            "<!doctype html><meta charset=utf-8><title>Clippy Sync</title><p>"@,
    }) + message + "</p>"@
}

/// The answer to the browser.
pub open spec fn answer_text(surface: Surface, accepted: bool, message: Seq<char>) -> Seq<char> {
    (if accepted {
        "HTTP/1.1 200 OK"@
    } else {
        "HTTP/1.1 400 Bad Request"@
    }) + "\r\nContent-Type: text/html; charset=utf-8\r\nContent-Length: "@ + decimal(
        encode_utf8(page_text(surface, message)).len(),
    ) + "\r\nConnection: close\r\n\r\n"@ + page_text(surface, message)
}

/// The answer to the browser.
pub fn respond(surface: Surface, accepted: bool, message: &str) -> (text: String)
    ensures
        text@ == answer_text(surface, accepted, message@),
{
    let mut body = match surface {
        Surface::Window =>
            "<!doctype html><meta charset=utf-8><title>Clippy</title><style>body{font:16px system-ui;padding:48px;color:#243129;background:#f5f2eb}</style><p>".to_owned(),
        Surface::CommandLine =>
            "<!doctype html><meta charset=utf-8><title>Clippy Sync</title><p>".to_owned(),
    };
    body.append(message);
    body.append("</p>");
    let mut text = if accepted {
        "HTTP/1.1 200 OK".to_owned()
    } else {
        "HTTP/1.1 400 Bad Request".to_owned()
    };
    text.append("\r\nContent-Type: text/html; charset=utf-8\r\nContent-Length: ");
    text.append(decimal_text(body.as_str().as_bytes().len() as u64).as_str());
    text.append("\r\nConnection: close\r\n\r\n");
    text.append(body.as_str());
    text
}

/// Why a token that was handed out is not taken.
#[derive(Debug, Clone, Copy, PartialEq, Eq, Structural)]
pub enum TokenFault {
    InvalidKeys,
    InvalidHeader,
    WrongAlgorithm,
    MissingKeyId,
    UnknownKey,
    UnusableKey,
    /// The signature or a claim does not hold.
    InvalidClaims,
    WrongAudience,
    MissingNonce,
    NonceMismatch,
    WrongClient,
    SubjectMismatch,
}

/// The key that a token names, where it can be checked with one.
pub open spec fn signing_key(token: Seq<char>, keys: Seq<char>) -> Result<Seq<char>, TokenFault> {
    if key_lookup(keys, Seq::empty()) is Unreadable {
        Err(TokenFault::InvalidKeys)
    } else {
        match token_header(token) {
            None => Err(TokenFault::InvalidHeader),
            Some(header) => if header.algorithm != TokenAlgorithm::Rs256 {
                Err(TokenFault::WrongAlgorithm)
            } else {
                match header.key_id {
                    None => Err(TokenFault::MissingKeyId),
                    Some(key_id) => match key_lookup(keys, key_id) {
                        KeyLookup::Unreadable => Err(TokenFault::InvalidKeys),
                        KeyLookup::Missing => Err(TokenFault::UnknownKey),
                        KeyLookup::Unusable => Err(TokenFault::UnusableKey),
                        KeyLookup::Usable => Ok(key_id),
                    },
                }
            },
        }
    }
}

fn find_signing_key(token: &str, keys: &str) -> (result: Result<String, TokenFault>)
    ensures
        match signing_key(token@, keys@) {
            Ok(key_id) => result matches Ok(found) && found@ == key_id,
            Err(fault) => result == Err::<String, TokenFault>(fault),
        },
{
    proof {
        reveal_strlit("");
        assert(""@ =~= Seq::empty());
    }
    match look_up_key(keys, "") {
        KeyLookup::Unreadable => {
            return Err(TokenFault::InvalidKeys);
        },
        _ => {},
    }
    let header = match read_token_header(token) {
        None => {
            return Err(TokenFault::InvalidHeader);
        },
        Some(header) => header,
    };
    if header.algorithm != TokenAlgorithm::Rs256 {
        return Err(TokenFault::WrongAlgorithm);
    }
    match header.key_id {
        None => Err(TokenFault::MissingKeyId),
        Some(key_id) => match look_up_key(keys, key_id.as_str()) {
            KeyLookup::Unreadable => Err(TokenFault::InvalidKeys),
            KeyLookup::Missing => Err(TokenFault::UnknownKey),
            KeyLookup::Unusable => Err(TokenFault::UnusableKey),
            KeyLookup::Usable => Ok(key_id),
        },
    }
}

/// What a token that was handed out claims.
#[derive(Debug, Clone, PartialEq, Eq)]
pub struct TokenClaims {
    pub sub: String,
    pub nonce: Option<String>,
    pub org_id: Option<String>,
    pub aud: Option<Vec<String>>,
    pub client_id: Option<String>,
}

/// What a token that was handed out claims.
pub struct TokenClaimsView {
    pub subject: Seq<char>,
    pub nonce: Option<Seq<char>>,
    pub organization: Option<Seq<char>>,
    pub audience: Option<Seq<Seq<char>>>,
    pub client: Option<Seq<char>>,
}

impl View for TokenClaims {
    type V = TokenClaimsView;

    open spec fn view(&self) -> TokenClaimsView {
        TokenClaimsView {
            subject: self.sub@,
            nonce: opt_view(self.nonce),
            organization: opt_view(self.org_id),
            audience: match self.aud {
                Some(names) => Some(views(names@)),
                None => None,
            },
            client: opt_view(self.client_id),
        }
    }
}

/// The audience that a document names: one, several, or none.
pub open spec fn read_audience(document: Seq<u8>) -> Option<Option<Seq<Seq<char>>>> {
    match json_member(document, "aud"@) {
        MemberView::Text(name) => Some(Some(seq![name])),
        MemberView::Null => Some(None),
        MemberView::Missing => Some(None),
        _ => match json_texts(document, "aud"@) {
            Some(names) => Some(Some(names)),
            None => None,
        },
    }
}

/// What a document claims.
pub open spec fn token_claims_read(document: Seq<u8>) -> Option<TokenClaimsView> {
    match (
        (
            read_text(json_member(document, "sub"@)),
            read_optional(json_member(document, "nonce"@)),
            read_optional(json_member(document, "org_id"@)),
        ),
        (
            read_audience(document),
            read_optional(json_member(document, "client_id"@)),
        ),
    ) {
        ((Some(subject), Some(nonce), Some(organization)), (Some(audience), Some(client))) => Some(
            TokenClaimsView { subject, nonce, organization, audience, client },
        ),
        _ => None,
    }
}

fn optional_member(document: &[u8], name: &str) -> (value: Option<Option<String>>)
    ensures
        read_optional(json_member(document@, name@)) == match value {
            Some(text) => Some(opt_view(text)),
            None => None,
        },
{
    match read_member(document, name) {
        JsonMember::Text(text) => Some(Some(text)),
        JsonMember::Null | JsonMember::Missing => Some(None),
        _ => None,
    }
}

fn audience_member(document: &[u8]) -> (value: Option<Option<Vec<String>>>)
    ensures
        read_audience(document@) == match value {
            Some(Some(names)) => Some(Some(views(names@))),
            Some(None) => Some(None),
            None => None,
        },
{
    match read_member(document, "aud") {
        JsonMember::Text(name) => {
            let ghost named = name@;
            let mut names: Vec<String> = Vec::new();
            names.push(name);
            assert(views(names@) =~= seq![named]);
            Some(Some(names))
        },
        JsonMember::Null | JsonMember::Missing => Some(None),
        _ => match read_texts(document, "aud") {
            Some(names) => Some(Some(names)),
            None => None,
        },
    }
}

/// What a document claims.
pub fn read_token_claims(document: &[u8]) -> (claims: Option<TokenClaims>)
    ensures
        opt_view(claims) == token_claims_read(document@),
{
    let sub = match read_member(document, "sub") {
        JsonMember::Text(sub) => sub,
        _ => {
            return None;
        },
    };
    match (
        optional_member(document, "nonce"),
        optional_member(document, "org_id"),
        audience_member(document),
        optional_member(document, "client_id"),
    ) {
        (Some(nonce), Some(org_id), Some(aud), Some(client_id)) => Some(
            TokenClaims { sub, nonce, org_id, aud, client_id },
        ),
        _ => None,
    }
}

/// Somebody is among the audience.
pub open spec fn audience_contains(audience: Option<Seq<Seq<char>>>, name: Seq<char>) -> bool {
    match audience {
        Some(names) => names.contains(name),
        None => false,
    }
}

/// What is wrong with the claims of a token for this program. A token that answers a sign-in names
/// the program in its audience and carries the nonce that was sent; any other names it as its
/// client.
pub open spec fn claims_fault(
    claims: TokenClaimsView,
    client: Seq<char>,
    expected_nonce: Option<Seq<char>>,
) -> Option<TokenFault> {
    match expected_nonce {
        Some(expected) => if !audience_contains(claims.audience, client) {
            Some(TokenFault::WrongAudience)
        } else {
            match claims.nonce {
                None => Some(TokenFault::MissingNonce),
                Some(nonce) => if nonce == expected {
                    None
                } else {
                    Some(TokenFault::NonceMismatch)
                },
            }
        },
        None => if claims.client == Some(client) {
            None
        } else {
            Some(TokenFault::WrongClient)
        },
    }
}

fn is_audience(audience: &Option<Vec<String>>, name: &str) -> (found: bool)
    ensures
        found == audience_contains(
            match audience {
                Some(names) => Some(views(names@)),
                None => None,
            },
            name@,
        ),
{
    let names = match audience {
        None => {
            return false;
        },
        Some(names) => names,
    };
    let ghost all = views(names@);
    let mut at: usize = 0;
    while at < names.len()
        invariant
            audience matches Some(listed) && listed@ == names@,
            all == views(names@),
            at <= names.len(),
            forall|place: int| 0 <= place < at ==> #[trigger] all[place] != name@,
        decreases names.len() - at,
    {
        assert(all[at as int] == names@[at as int]@);
        if text_eq(names[at].as_str(), name) {
            assert(all.contains(name@));
            return true;
        }
        at = at + 1;
    }
    false
}

/// What is wrong with the claims of a token for this program.
pub fn check_token_claims(claims: &TokenClaims, client_id: &str, expected_nonce: Option<&str>) -> (fault:
    Option<TokenFault>)
    ensures
        fault == claims_fault(
            claims@,
            client_id@,
            match expected_nonce {
                Some(expected) => Some(expected@),
                None => None,
            },
        ),
{
    match expected_nonce {
        Some(expected) => {
            if !is_audience(&claims.aud, client_id) {
                return Some(TokenFault::WrongAudience);
            }
            match &claims.nonce {
                None => Some(TokenFault::MissingNonce),
                Some(nonce) => if secret_eq(nonce.as_str(), expected) {
                    None
                } else {
                    Some(TokenFault::NonceMismatch)
                },
            }
        },
        None => match &claims.client_id {
            Some(named) => if text_eq(named.as_str(), client_id) {
                None
            } else {
                Some(TokenFault::WrongClient)
            },
            None => Some(TokenFault::WrongClient),
        },
    }
}

/// The claims of a token, as far as its signature, its issuer and the time go.
pub open spec fn signed_claims(
    issuer: Seq<char>,
    audience: Option<Seq<char>>,
    required: Seq<Seq<char>>,
    token: Seq<char>,
    keys: Seq<char>,
) -> Result<Seq<u8>, TokenFault> {
    match signing_key(token, keys) {
        Err(fault) => Err(fault),
        Ok(key_id) => if split(token, '.').len() != 3 || !rs256_accepted(
            token,
            keys,
            key_id,
            without_trailing(issuer, '/'),
            audience,
            required,
        ) {
            Err(TokenFault::InvalidClaims)
        } else {
            match claims_document(token) {
                Some(document) => Ok(document),
                None => Err(TokenFault::InvalidClaims),
            }
        },
    }
}

fn read_signed_claims(
    issuer: &str,
    audience: Option<&str>,
    required: &[&str],
    token: &str,
    keys: &str,
) -> (result: Result<Vec<u8>, TokenFault>)
    ensures
        match signed_claims(
            issuer@,
            match audience {
                Some(name) => Some(name@),
                None => None,
            },
            claim_names(required@),
            token@,
            keys@,
        ) {
            Ok(document) => result matches Ok(found) && found@ == document,
            Err(fault) => result == Err::<Vec<u8>, TokenFault>(fault),
        },
{
    let key_id = match find_signing_key(token, keys) {
        Err(fault) => {
            return Err(fault);
        },
        Ok(key_id) => key_id,
    };
    let pieces = split_text(token, '.');
    assert(views(pieces@).len() == pieces@.len());
    if pieces.len() != 3 {
        return Err(TokenFault::InvalidClaims);
    }
    let issuer = trim_trailing(issuer, '/');
    if !rs256_accepts(token, keys, key_id.as_str(), issuer.as_str(), audience, required) {
        return Err(TokenFault::InvalidClaims);
    }
    assert(pieces@[1]@ == views(pieces@)[1]);
    match decode(pieces[1].as_str()) {
        None => Err(TokenFault::InvalidClaims),
        Some(document) => Ok(document),
    }
}

/// The claims that a token must have.
pub open spec fn token_required() -> Seq<Seq<char>> {
    seq!["exp"@, "iss"@, "sub"@]
}

/// The claims that a token must have which answers a sign-in.
pub open spec fn id_required() -> Seq<Seq<char>> {
    seq!["exp"@, "iss"@, "aud"@, "sub"@]
}

/// The document has expired. Where the moment at which it does is no whole number, the clock of the
/// machine has told whether it is current.
pub open spec fn has_expired(document: Seq<u8>, now: u64, current: bool) -> bool {
    match read_natural(json_member(document, "exp"@)) {
        Some(expires_at) => expires_at + EXPIRY_LEEWAY_SECONDS < now,
        None => !current,
    }
}

fn is_expired(document: &[u8], now: u64, current: bool) -> (expired: bool)
    ensures
        expired == has_expired(document@, now, current),
{
    match read_member(document, "exp") {
        JsonMember::Natural(expires_at) => (expires_at as u128) + (EXPIRY_LEEWAY_SECONDS as u128)
            < now as u128,
        _ => !current,
    }
}

/// Whether a token has not expired, by the clock of this machine.
fn is_current(token: &str, keys: &str) -> (current: bool) {
    match find_signing_key(token, keys) {
        Ok(key_id) => rs256_current(token, keys, key_id.as_str()),
        Err(_) => false,
    }
}

/// The nonce that is expected, if one is.
pub open spec fn nonce_text(expected: Option<&str>) -> Option<Seq<char>> {
    match expected {
        Some(nonce) => Some(nonce@),
        None => None,
    }
}

/// What is found of a token.
pub open spec fn token_verdict(
    issuer: Seq<char>,
    client: Seq<char>,
    token: Seq<char>,
    keys: Seq<char>,
    expected_nonce: Option<Seq<char>>,
    now: u64,
    current: bool,
) -> Result<TokenClaimsView, TokenFault> {
    match signed_claims(issuer, None, token_required(), token, keys) {
        Err(fault) => Err(fault),
        Ok(document) => match token_claims_read(document) {
            None => Err(TokenFault::InvalidClaims),
            Some(claims) => if has_expired(document, now, current) {
                Err(TokenFault::InvalidClaims)
            } else {
                match claims_fault(claims, client, expected_nonce) {
                    Some(fault) => Err(fault),
                    None => Ok(claims),
                }
            },
        },
    }
}

/// Whom a token names that answers a sign-in in the window.
pub open spec fn id_verdict(
    issuer: Seq<char>,
    client: Seq<char>,
    token: Seq<char>,
    keys: Seq<char>,
    expected_nonce: Seq<char>,
    now: u64,
    current: bool,
) -> Result<Seq<char>, TokenFault> {
    match signed_claims(issuer, Some(client), id_required(), token, keys) {
        Err(fault) => Err(fault),
        Ok(document) => match (
            read_text(json_member(document, "sub"@)),
            read_text(json_member(document, "nonce"@)),
        ) {
            (Some(subject), Some(nonce)) => if has_expired(document, now, current) {
                Err(TokenFault::InvalidClaims)
            } else if nonce != expected_nonce || subject.len() == 0 {
                Err(TokenFault::NonceMismatch)
            } else {
                Ok(subject)
            },
            _ => Err(TokenFault::InvalidClaims),
        },
    }
}

impl LoginConfig {
    /// The claims of a token, where a key of the set has signed it and it is meant for this
    /// program: as the answer to the sign-in with this nonce, or as an access token. Where the token
    /// expires at a moment that is no whole number, it counts as long as the clock of this machine
    /// says so.
    pub fn verify_token(&self, token: &str, keys: &str, expected_nonce: Option<&str>, now: u64) -> (result:
        Result<TokenClaims, TokenFault>)
        ensures
            exists|current: bool|
                match #[trigger] token_verdict(
                    self.issuer@,
                    self.client_id@,
                    token@,
                    keys@,
                    nonce_text(expected_nonce),
                    now,
                    current,
                ) {
                    Ok(claims) => result matches Ok(found) && found@ == claims,
                    Err(fault) => result == Err::<TokenClaims, TokenFault>(fault),
                },
    {
        self.verify_token_with(token, keys, expected_nonce, now, is_current(token, keys))
    }

    /// The claims of a token, given whether the clock of the machine says that it has not expired.
    pub fn verify_token_with(
        &self,
        token: &str,
        keys: &str,
        expected_nonce: Option<&str>,
        now: u64,
        current: bool,
    ) -> (result: Result<TokenClaims, TokenFault>)
        ensures
            match token_verdict(
                self.issuer@,
                self.client_id@,
                token@,
                keys@,
                nonce_text(expected_nonce),
                now,
                current,
            ) {
                Ok(claims) => result matches Ok(found) && found@ == claims,
                Err(fault) => result == Err::<TokenClaims, TokenFault>(fault),
            },
    {
        let required = ["exp", "iss", "sub"];
        assert(claim_names(required@) =~= token_required());
        let document = match read_signed_claims(
            self.issuer.as_str(),
            None,
            required.as_slice(),
            token,
            keys,
        ) {
            Err(fault) => {
                return Err(fault);
            },
            Ok(document) => document,
        };
        match read_token_claims(document.as_slice()) {
            None => Err(TokenFault::InvalidClaims),
            Some(claims) => {
                if is_expired(document.as_slice(), now, current) {
                    return Err(TokenFault::InvalidClaims);
                }
                match check_token_claims(&claims, self.client_id.as_str(), expected_nonce) {
                    Some(fault) => Err(fault),
                    None => Ok(claims),
                }
            },
        }
    }

    /// Whom a token names that answers the sign-in with this nonce, where a key of the set has
    /// signed it for this program. Where the token expires at a moment that is no whole number, it
    /// counts as long as the clock of this machine says so.
    pub fn verify_id_token(&self, token: &str, keys: &str, expected_nonce: &str, now: u64) -> (result:
        Result<String, TokenFault>)
        ensures
            exists|current: bool|
                match #[trigger] id_verdict(
                    self.issuer@,
                    self.client_id@,
                    token@,
                    keys@,
                    expected_nonce@,
                    now,
                    current,
                ) {
                    Ok(subject) => result matches Ok(found) && found@ == subject,
                    Err(fault) => result == Err::<String, TokenFault>(fault),
                },
    {
        self.verify_id_token_with(token, keys, expected_nonce, now, is_current(token, keys))
    }

    /// Whom a token names that answers the sign-in with this nonce, given whether the clock of the
    /// machine says that it has not expired.
    pub fn verify_id_token_with(
        &self,
        token: &str,
        keys: &str,
        expected_nonce: &str,
        now: u64,
        current: bool,
    ) -> (result: Result<String, TokenFault>)
        ensures
            match id_verdict(
                self.issuer@,
                self.client_id@,
                token@,
                keys@,
                expected_nonce@,
                now,
                current,
            ) {
                Ok(subject) => result matches Ok(found) && found@ == subject,
                Err(fault) => result == Err::<String, TokenFault>(fault),
            },
    {
        let required = ["exp", "iss", "aud", "sub"];
        assert(claim_names(required@) =~= id_required());
        let document = match read_signed_claims(
            self.issuer.as_str(),
            Some(self.client_id.as_str()),
            required.as_slice(),
            token,
            keys,
        ) {
            Err(fault) => {
                return Err(fault);
            },
            Ok(document) => document,
        };
        let document = document.as_slice();
        match (read_member(document, "sub"), read_member(document, "nonce")) {
            (JsonMember::Text(subject), JsonMember::Text(nonce)) => {
                if is_expired(document, now, current) {
                    return Err(TokenFault::InvalidClaims);
                }
                if !secret_eq(nonce.as_str(), expected_nonce) || subject.as_str().is_empty() {
                    return Err(TokenFault::NonceMismatch);
                }
                Ok(subject)
            },
            _ => Err(TokenFault::InvalidClaims),
        }
    }
}

/// Two tokens that were handed out together must name the same account.
pub fn check_subjects(access_subject: &str, id_subject: &str) -> (result: Result<(), TokenFault>)
    ensures
        result == if access_subject@ == id_subject@ {
            Ok::<(), TokenFault>(())
        } else {
            Err(TokenFault::SubjectMismatch)
        },
{
    if secret_eq(access_subject, id_subject) {
        Ok(())
    } else {
        Err(TokenFault::SubjectMismatch)
    }
}

/// The name under which a token of an environment is kept.
pub open spec fn token_account_of(environment: Seq<char>, kind: Seq<char>) -> Seq<char> {
    "workos:"@ + environment + ":"@ + kind
}

/// The name under which a token of an environment is kept.
pub fn token_account(environment: &str, kind: &str) -> (account: String)
    ensures
        account@ == token_account_of(environment@, kind@),
{
    let mut account = "workos:".to_owned();
    account.append(environment);
    account.append(":");
    account.append(kind);
    account
}

/// The value behind a flag: the argument that follows its first occurrence which is not the last
/// argument.
pub open spec fn value_behind(arguments: Seq<Seq<char>>, flag: Seq<char>) -> Option<Seq<char>>
    decreases arguments.len(),
{
    if arguments.len() < 2 {
        None
    } else if arguments[0] == flag {
        Some(arguments[1])
    } else {
        value_behind(arguments.drop_first(), flag)
    }
}

/// The value behind a flag.
pub fn option_value(arguments: &[String], flag: &str) -> (value: Option<String>)
    ensures
        opt_view(value) == value_behind(views(arguments@), flag@),
{
    let ghost all = views(arguments@);
    let mut at: usize = 0;
    assert(all.skip(0) =~= all);
    while arguments.len() >= 2 && at < arguments.len() - 1
        invariant
            all == views(arguments@),
            at <= arguments@.len(),
            value_behind(all.skip(at as int), flag@) == value_behind(all, flag@),
        decreases arguments.len() - at,
    {
        proof {
            let rest = all.skip(at as int);
            assert(rest[0] == arguments@[at as int]@);
            assert(rest[1] == arguments@[at + 1]@);
            assert(rest.drop_first() =~= all.skip(at + 1));
        }
        if text_eq(arguments[at].as_str(), flag) {
            return Some(arguments[at + 1].duplicate());
        }
        at = at + 1;
    }
    None
}

} // verus!
