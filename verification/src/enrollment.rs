//! How a device asks the others of its account for the key of the workspace, and how it is
//! answered.

use vstd::prelude::*;
use vstd::string::*;

use crate::cloud::{
    AcceptedEnrollment, EnrollmentRequestResult, EnrollmentStatus, PendingEnrollment,
};
use crate::crypto::{
    grant_payload, grants, public_key, random_secret, sealable, unwrap_pairing_grant, unwraps_as,
    x25519_public, AuthenticatedPrincipal, CryptoError, OfferView, PairingGrant, PairingOffer,
    PairingResponse, PendingPairing, WorkspaceKey,
};
use crate::encoding::{base64_encode, base64url, decodable};
use crate::plain::{opt_view, Plain};
use crate::text::{text_eq, trim_trailing, without_trailing};

verus! {

/// How long an offer to a device that asks lasts, in milliseconds.
pub const ENROLLMENT_TTL_MS: u64 = 600_000;

/// How long a device waits to be let in, in milliseconds.
pub const ENROLLMENT_WAIT_MS: u64 = 615_000;

/// The longest time between two looks at how far a request has come, in seconds.
pub const MAX_POLL_SECONDS: u64 = 15;

/// Why a device is not let in.
#[derive(Debug, Clone, Copy, PartialEq, Eq, Structural)]
pub enum EnrollmentFault {
    /// The account has no workspace.
    NoWorkspace,
    /// The store speaks of another workspace.
    WrongWorkspace,
    /// No device has answered in time.
    TimedOut,
    /// The request has expired.
    Expired,
    /// The grant lacks a part.
    Incomplete,
    /// The grant is for another account, workspace or time.
    Mismatch,
    /// The grant holds no key for this device.
    Unreadable,
    /// The store has let the device into another workspace.
    WrongAcceptance,
    /// What has happened is not what was to be done.
    Unexpected,
}

/// Where a device belongs.
#[derive(Debug, Clone, PartialEq, Eq)]
pub struct Membership {
    pub workspace_id: String,
    pub sync_url: String,
    pub workos_issuer: String,
    pub workos_audience: String,
}

/// Where a device belongs.
pub struct MembershipView {
    pub workspace: Seq<char>,
    pub sync_url: Seq<char>,
    pub issuer: Seq<char>,
    pub audience: Seq<char>,
}

impl View for Membership {
    type V = MembershipView;

    open spec fn view(&self) -> MembershipView {
        MembershipView {
            workspace: self.workspace_id@,
            sync_url: self.sync_url@,
            issuer: self.workos_issuer@,
            audience: self.workos_audience@,
        }
    }
}

/// Checks the answer to a request.
pub fn check_requested(requested: &EnrollmentRequestResult, workspace_id: &str) -> (result: Result<
    (),
    EnrollmentFault,
>)
    ensures
        result == if requested.state@ == "noWorkspace"@ {
            Err::<(), EnrollmentFault>(EnrollmentFault::NoWorkspace)
        } else if opt_view(requested.workspace_id) != Some(workspace_id@) {
            Err(EnrollmentFault::WrongWorkspace)
        } else {
            Ok(())
        },
{
    if text_eq(requested.state.as_str(), "noWorkspace") {
        return Err(EnrollmentFault::NoWorkspace);
    }
    match &requested.workspace_id {
        Some(workspace) => if text_eq(workspace.as_str(), workspace_id) {
            Ok(())
        } else {
            Err(EnrollmentFault::WrongWorkspace)
        },
        None => Err(EnrollmentFault::WrongWorkspace),
    }
}

/// The offer is for this membership, and still stands. A slash at the end of an address makes no
/// difference.
pub open spec fn offer_fits(offer: OfferView, membership: MembershipView, now_ms: u64) -> bool {
    &&& offer.workspace == membership.workspace
    &&& without_trailing(offer.tunnel_url, '/') == without_trailing(membership.sync_url, '/')
    &&& without_trailing(offer.workos_issuer, '/') == without_trailing(membership.issuer, '/')
    &&& offer.workos_audience == membership.audience
    &&& offer.expires_at_ms >= now_ms
}

/// How far a request has come.
pub enum EnrollmentStep<'a> {
    /// Nobody has answered yet.
    Wait,
    /// A device has answered.
    Granted(&'a PairingOffer, &'a PairingGrant),
}

fn is_offer_fit(offer: &PairingOffer, membership: &Membership, now_ms: u64) -> (fits: bool)
    ensures
        fits == offer_fits(offer@, membership@, now_ms),
{
    text_eq(offer.workspace_id.as_str(), membership.workspace_id.as_str()) && text_eq(
        trim_trailing(offer.tunnel_url.as_str(), '/').as_str(),
        trim_trailing(membership.sync_url.as_str(), '/').as_str(),
    ) && text_eq(
        trim_trailing(offer.workos_issuer.as_str(), '/').as_str(),
        trim_trailing(membership.workos_issuer.as_str(), '/').as_str(),
    ) && text_eq(offer.workos_audience.as_str(), membership.workos_audience.as_str())
        && offer.expires_at_ms >= now_ms
}

/// Checks how far a request has come. A grant counts only where it is complete and for this
/// membership.
pub fn check_status<'a>(
    status: Option<&'a EnrollmentStatus>,
    membership: &Membership,
    now_ms: u64,
) -> (result: Result<EnrollmentStep<'a>, EnrollmentFault>)
    ensures
        match status {
            None => result matches Ok(step) && step is Wait,
            Some(known) => if known.state@ == "expired"@ {
                result matches Err(fault) && fault == EnrollmentFault::Expired
            } else if known.state@ != "granted"@ {
                result matches Ok(step) && step is Wait
            } else if known.offer is None || known.grant is None {
                result matches Err(fault) && fault == EnrollmentFault::Incomplete
            } else if opt_view(known.workspace_id) != Some(membership@.workspace) || !offer_fits(
                known.offer->0@,
                membership@,
                now_ms,
            ) {
                result matches Err(fault) && fault == EnrollmentFault::Mismatch
            } else {
                result == Ok::<EnrollmentStep<'a>, EnrollmentFault>(
                    EnrollmentStep::Granted(&known.offer->0, &known.grant->0),
                )
            },
        },
{
    let known = match status {
        None => {
            return Ok(EnrollmentStep::Wait);
        },
        Some(known) => known,
    };
    if text_eq(known.state.as_str(), "expired") {
        return Err(EnrollmentFault::Expired);
    }
    if !text_eq(known.state.as_str(), "granted") {
        return Ok(EnrollmentStep::Wait);
    }
    match (&known.offer, &known.grant) {
        (Some(offer), Some(grant)) => {
            let here = match &known.workspace_id {
                Some(workspace) => text_eq(workspace.as_str(), membership.workspace_id.as_str()),
                None => false,
            };
            if here && is_offer_fit(offer, membership, now_ms) {
                Ok(EnrollmentStep::Granted(offer, grant))
            } else {
                Err(EnrollmentFault::Mismatch)
            }
        },
        _ => Err(EnrollmentFault::Incomplete),
    }
}

/// Checks that the workspace that was joined is the right one.
pub fn check_accepted(accepted: &AcceptedEnrollment, workspace_id: &str) -> (result: Result<
    (),
    EnrollmentFault,
>)
    ensures
        result == if accepted.workspace_id@ == workspace_id@ {
            Ok::<(), EnrollmentFault>(())
        } else {
            Err(EnrollmentFault::WrongAcceptance)
        },
{
    if text_eq(accepted.workspace_id.as_str(), workspace_id) {
        Ok(())
    } else {
        Err(EnrollmentFault::WrongAcceptance)
    }
}

/// When to look again at how far a request has come.
#[derive(Debug, Clone, Copy, PartialEq, Eq, Structural)]
pub struct EnrollmentPoll {
    pub deadline_ms: u64,
    pub delay_seconds: u64,
}

impl EnrollmentPoll {
    /// A request that is made at this time.
    pub open spec fn begun(now_ms: u64) -> EnrollmentPoll {
        EnrollmentPoll {
            deadline_ms: if now_ms + ENROLLMENT_WAIT_MS <= u64::MAX {
                (now_ms + ENROLLMENT_WAIT_MS) as u64
            } else {
                u64::MAX
            },
            delay_seconds: 1,
        }
    }

    /// The next wait is twice as long, up to a bound.
    pub open spec fn slowed(self) -> EnrollmentPoll {
        EnrollmentPoll {
            deadline_ms: self.deadline_ms,
            delay_seconds: if 2 * self.delay_seconds <= MAX_POLL_SECONDS {
                (2 * self.delay_seconds) as u64
            } else {
                MAX_POLL_SECONDS
            },
        }
    }

    /// A request that is made now.
    pub fn new(now_ms: u64) -> (poll: Self)
        ensures
            poll == EnrollmentPoll::begun(now_ms),
    {
        EnrollmentPoll {
            deadline_ms: now_ms.saturating_add(ENROLLMENT_WAIT_MS),
            delay_seconds: 1,
        }
    }

    /// Whether there is still time.
    pub fn check(&self, now_ms: u64) -> (result: Result<(), EnrollmentFault>)
        ensures
            result == if now_ms >= self.deadline_ms {
                Err::<(), EnrollmentFault>(EnrollmentFault::TimedOut)
            } else {
                Ok(())
            },
    {
        if now_ms >= self.deadline_ms {
            Err(EnrollmentFault::TimedOut)
        } else {
            Ok(())
        }
    }

    /// How long to wait now, in seconds. The next wait is twice as long, up to a bound.
    pub fn wait(&mut self) -> (seconds: u64)
        ensures
            seconds == old(self).delay_seconds,
            *final(self) == old(self).slowed(),
    {
        let seconds: u64 = self.delay_seconds;
        if seconds <= MAX_POLL_SECONDS / 2 {
            self.delay_seconds = seconds * 2;
        } else {
            self.delay_seconds = MAX_POLL_SECONDS;
        }
        seconds
    }
}

/// The side of a device that asks to be let in.
pub struct AccountEnrollment {
    secret: [u8; 32],
    public_key: String,
}

impl AccountEnrollment {
    /// The secret of this device.
    pub closed spec fn secret(self) -> Seq<u8> {
        self.secret@
    }

    /// The public key that others are told.
    pub closed spec fn told(self) -> Seq<char> {
        self.public_key@
    }

    /// A request with a fresh secret.
    pub fn new() -> (enrollment: Self)
        ensures
            enrollment.secret().len() == 32,
            enrollment.told() == base64url(x25519_public(enrollment.secret())),
    {
        let secret = random_secret();
        let public = public_key(&secret);
        AccountEnrollment { secret, public_key: base64_encode(public.as_slice()) }
    }

    /// The public key that others are told.
    pub fn public_key(&self) -> (key: &String)
        ensures
            key@ == self.told(),
    {
        &self.public_key
    }

    /// Takes the workspace key out of a grant. A grant that was made for this request gives the
    /// key that was handed over.
    pub fn unwrap(
        &self,
        offer: &PairingOffer,
        grant: &PairingGrant,
        owner: &AuthenticatedPrincipal,
    ) -> (result: Result<WorkspaceKey, CryptoError>)
        ensures
            unwraps_as(self.secret(), offer@, grant@, owner@, result),
    {
        unwrap_pairing_grant(&self.secret, offer, grant, owner)
    }
}

/// Lets a device that asks in: offers to hand the key over, and answers the offer in its name.
pub fn grant_enrollment(
    membership: &Membership,
    request: &PendingEnrollment,
    key: &WorkspaceKey,
    owner: &AuthenticatedPrincipal,
    now_ms: u64,
) -> (result: Result<(PairingOffer, PairingGrant), CryptoError>)
    ensures
        !decodable(request.phone_public_key@, 32) ==> result == Err::<
            (PairingOffer, PairingGrant),
            CryptoError,
        >(CryptoError::InvalidEncoding),
        result matches Err(error) ==> error == CryptoError::InvalidEncoding || error
            == CryptoError::EncryptionFailed,
        decodable(request.phone_public_key@, 32) && sealable(
            grant_payload(membership@.workspace, key@, owner@),
        ) ==> result is Ok,
        result matches Ok((offer, grant)) ==> {
            &&& offer@.tunnel_url == without_trailing(membership@.sync_url, '/')
            &&& offer@.workos_issuer == without_trailing(membership@.issuer, '/')
            &&& offer@.expires_at_ms == (if now_ms + ENROLLMENT_TTL_MS <= u64::MAX {
                (now_ms + ENROLLMENT_TTL_MS) as u64
            } else {
                u64::MAX
            })
            &&& decodable(offer@.token, 32)
        },
        result matches Ok((offer, grant)) ==> {
            &&& offer_fits(offer@, membership@, now_ms)
            &&& offer@.version == 1
            &&& grant@.phone_public_key == request.phone_public_key@
            &&& exists|secret: Seq<u8>|
                secret.len() == 32 && decodable(offer@.mac_public_key, 32) && offer@.mac_public_key
                    == base64url(x25519_public(secret)) && #[trigger] grants(
                    grant@,
                    offer@,
                    secret,
                    key@,
                    owner@,
                )
        },
{
    let pending = PendingPairing::new(
        membership.workspace_id.duplicate(),
        trim_trailing(membership.sync_url.as_str(), '/'),
        trim_trailing(membership.workos_issuer.as_str(), '/'),
        membership.workos_audience.duplicate(),
        key.copied(),
        owner.duplicate(),
        ENROLLMENT_TTL_MS,
        now_ms,
    );
    proof {
        lemma_trailing_once(membership@.sync_url);
        lemma_trailing_once(membership@.issuer);
    }
    let ghost secret = pending.secret();
    let offer = pending.offer().copied();
    let response = PairingResponse {
        phone_public_key: request.phone_public_key.duplicate(),
        one_time_token: offer.one_time_token.duplicate(),
    };
    match pending.complete(&response, owner, now_ms) {
        Err(error) => Err(error),
        Ok(grant) => {
            assert(offer_fits(offer@, membership@, now_ms));
            assert(secret.len() == 32 && decodable(offer@.mac_public_key, 32)
                && offer@.mac_public_key == base64url(x25519_public(secret)) && grants(
                grant@,
                offer@,
                secret,
                key@,
                owner@,
            ));
            Ok((offer, grant))
        },
    }
}

proof fn lemma_trailing_once(text: Seq<char>)
    ensures
        without_trailing(without_trailing(text, '/'), '/') == without_trailing(text, '/'),
    decreases text.len(),
{
    if text.len() > 0 && text.last() == '/' {
        lemma_trailing_once(text.drop_last());
    }
}

} // verus!
