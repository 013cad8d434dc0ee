//! The tunnel that lets a phone reach this computer: how long to wait before it is started again,
//! and which environments and tokens it is started for.

use vstd::prelude::*;

use crate::text::text_eq;

verus! {

/// The service under which secrets are kept.
pub const KEYCHAIN_SERVICE: &'static str = "app.clippy.desktop.sync";

/// Why the tunnel does not run.
#[derive(Debug, Clone, Copy, PartialEq, Eq, Structural)]
pub enum TunnelError {
    InvalidEnvironment,
    MissingToken,
    InvalidToken,
    MissingExecutable,
    TemporaryFile,
    LaunchFailed,
}

/// The wait after a number of failures, in seconds: it doubles from one to sixteen.
pub open spec fn retry_seconds(failure_index: int) -> u64 {
    if failure_index <= 0 {
        1
    } else if failure_index == 1 {
        2
    } else if failure_index == 2 {
        4
    } else if failure_index == 3 {
        8
    } else {
        16
    }
}

/// The wait before the tunnel is started again, in seconds.
pub fn retry_delay(failure_index: usize) -> (seconds: u64)
    ensures
        seconds == retry_seconds(failure_index as int),
{
    if failure_index == 0 {
        1
    } else if failure_index == 1 {
        2
    } else if failure_index == 2 {
        4
    } else if failure_index == 3 {
        8
    } else {
        16
    }
}

/// Later failures never shorten the wait, which stays between one second and sixteen.
pub proof fn lemma_retry_delay_bounds(earlier: int, later: int)
    requires
        earlier <= later,
    ensures
        1 <= retry_seconds(earlier) <= retry_seconds(later) <= 16,
{
}

/// The tunnel of one environment.
#[derive(Debug)]
pub struct TunnelRunner {
    environment: String,
}

impl TunnelRunner {
    /// The environment whose tunnel this is.
    pub closed spec fn environment(self) -> Seq<char> {
        self.environment@
    }

    /// The tunnel of a known environment.
    pub fn new(environment: &str) -> (result: Result<Self, TunnelError>)
        ensures
            result is Ok <==> environment@ == "staging"@ || environment@ == "production"@,
            result matches Ok(runner) ==> runner.environment() == environment@,
            result matches Err(error) ==> error == TunnelError::InvalidEnvironment,
    {
        if !text_eq(environment, "staging") && !text_eq(environment, "production") {
            return Err(TunnelError::InvalidEnvironment);
        }
        Ok(TunnelRunner { environment: environment.to_owned() })
    }

    /// The account under which the token of the tunnel is kept.
    pub fn token_account(&self) -> (account: String)
        ensures
            account@ == "cloudflare-tunnel:"@ + self.environment(),
    {
        "cloudflare-tunnel:".to_owned().concat(self.environment.as_str())
    }
}

/// A token that can be handed to the tunnel on one line.
pub open spec fn token_usable(token: Seq<u8>) -> bool {
    token.len() > 0 && !token.contains(10u8) && !token.contains(13u8)
}

/// Whether a token can be handed to the tunnel: it is not empty and holds no line break.
pub fn check_tunnel_token(token: &[u8]) -> (result: Result<(), TunnelError>)
    ensures
        result is Ok <==> token_usable(token@),
        result matches Err(error) ==> error == TunnelError::InvalidToken,
{
    if token.len() == 0 {
        return Err(TunnelError::InvalidToken);
    }
    let mut i: usize = 0;
    while i < token.len()
        invariant
            i <= token.len(),
            forall|j: int| 0 <= j < i ==> token@[j] != 10 && token@[j] != 13,
        decreases token.len() - i,
    {
        if token[i] == 10 || token[i] == 13 {
            assert(token@.contains(token@[i as int]));
            return Err(TunnelError::InvalidToken);
        }
        i = i + 1;
    }
    Ok(())
}

} // verus!
