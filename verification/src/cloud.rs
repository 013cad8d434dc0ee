//! What the cloud store says and is told.

use vstd::prelude::*;
use vstd::string::*;

use crate::crypto::{PairingGrant, PairingOffer, SealedEnvelope};
use crate::files::{hash_text, is_hash, DEFAULT_CHUNK_SIZE};
use crate::plain::{opt_view, views};
use crate::weburl::{join_url, joined_url, parse_url, parsed_url};

verus! {

/// The most chunks that are asked for at once.
pub const MAX_STORAGE_HASHES: usize = 64;

/// Why the cloud store did not answer as it should.
#[derive(Debug, Clone, Copy, PartialEq, Eq, Structural)]
pub enum CloudError {
    Connection,
    Authentication,
    Rejected,
    InvalidResponse,
    Storage,
}

/// The address of the store, in canonical form. A text that is no address cannot be connected to.
pub fn deployment_address(deployment: &str) -> (result: Result<String, CloudError>)
    ensures
        match parsed_url(deployment@) {
            Some(url) => result matches Ok(text) && text@ == url.whole,
            None => result == Err::<String, CloudError>(CloudError::Connection),
        },
{
    match parse_url(deployment) {
        Some(url) => Ok(url.whole),
        None => Err(CloudError::Connection),
    }
}

/// The address to which calls of a kind are sent.
pub fn call_address(deployment: &str, kind: &str) -> (result: Result<String, CloudError>)
    ensures
        match joined_url(deployment@, "api/"@ + kind@) {
            Some(address) => result matches Ok(text) && text@ == address,
            None => result == Err::<String, CloudError>(CloudError::Connection),
        },
{
    let mut path = "api/".to_owned();
    path.append(kind);
    match join_url(deployment, path.as_str()) {
        Some(address) => Ok(address),
        None => Err(CloudError::Connection),
    }
}

/// The last counter that the store has of a device.
#[derive(Debug, Clone, PartialEq, Eq)]
pub struct ActorCounter {
    pub actor_id: String,
    pub latest_counter: u64,
}

/// What the store has of a device.
pub struct CounterView {
    pub actor: Seq<char>,
    pub latest: u64,
}

impl View for ActorCounter {
    type V = CounterView;

    open spec fn view(&self) -> CounterView {
        CounterView { actor: self.actor_id@, latest: self.latest_counter }
    }
}

/// Consecutive operations of one device, sealed.
#[derive(Debug, Clone, PartialEq, Eq)]
pub struct CloudBatch {
    pub actor_id: String,
    pub first_counter: u64,
    pub last_counter: u64,
    pub envelope: SealedEnvelope,
}

/// How far the store has taken the operations of a device.
#[derive(Debug, Clone, Copy, PartialEq, Eq)]
pub struct PushResponse {
    pub accepted_through: u64,
}

/// A device that asks to join.
#[derive(Debug, Clone, PartialEq, Eq)]
pub struct PendingEnrollment {
    pub enrollment_id: String,
    pub phone_public_key: String,
}

/// The workspace of an account.
#[derive(Debug, Clone, PartialEq, Eq)]
pub struct AccountWorkspace {
    pub workspace_id: String,
}

/// Whether a device belongs to a workspace.
#[derive(Debug, Clone, Copy, PartialEq, Eq)]
pub struct DeviceRegistration {
    pub enrolled: bool,
}

/// The answer to a request to join.
#[derive(Debug, Clone, PartialEq, Eq)]
pub struct EnrollmentRequestResult {
    pub state: String,
    pub workspace_id: Option<String>,
}

/// How far a request to join has come.
#[derive(Debug, Clone, PartialEq, Eq)]
pub struct EnrollmentStatus {
    pub state: String,
    pub workspace_id: Option<String>,
    pub offer: Option<PairingOffer>,
    pub grant: Option<PairingGrant>,
}

/// A request to join that was accepted.
#[derive(Debug, Clone, PartialEq, Eq)]
pub struct AcceptedEnrollment {
    pub workspace_id: String,
}

/// Where a chunk is to be put, unless it is there already.
#[derive(Debug, Clone, PartialEq, Eq)]
pub struct StorageUpload {
    pub hash: String,
    pub exists: bool,
    pub url: Option<String>,
}

/// Where a chunk is to be put.
pub struct UploadView {
    pub hash: Seq<char>,
    pub exists: bool,
    pub url: Option<Seq<char>>,
}

impl View for StorageUpload {
    type V = UploadView;

    open spec fn view(&self) -> UploadView {
        UploadView { hash: self.hash@, exists: self.exists, url: opt_view(self.url) }
    }
}

/// Where a chunk can be had.
#[derive(Debug, Clone, PartialEq, Eq)]
pub struct StorageDownload {
    pub hash: String,
    pub url: String,
}

/// Where a chunk can be had.
pub struct DownloadView {
    pub hash: Seq<char>,
    pub url: Seq<char>,
}

impl View for StorageDownload {
    type V = DownloadView;

    open spec fn view(&self) -> DownloadView {
        DownloadView { hash: self.hash@, url: self.url@ }
    }
}

/// A request for chunks names at least one, at most sixty-four, and each by its hash.
pub open spec fn hashes_valid(hashes: Seq<Seq<char>>) -> bool {
    &&& 0 < hashes.len() <= MAX_STORAGE_HASHES
    &&& forall|i: int| 0 <= i < hashes.len() ==> hash_text(#[trigger] hashes[i])
}

/// Whether a request for chunks may be sent.
pub fn validate_hashes(hashes: &[String]) -> (result: Result<(), CloudError>)
    ensures
        result is Ok <==> hashes_valid(views(hashes@)),
        result matches Err(error) ==> error == CloudError::InvalidResponse,
{
    if hashes.len() == 0 || hashes.len() > MAX_STORAGE_HASHES {
        return Err(CloudError::InvalidResponse);
    }
    let mut i: usize = 0;
    while i < hashes.len()
        invariant
            i <= hashes.len(),
            forall|j: int| 0 <= j < i ==> hash_text(#[trigger] views(hashes@)[j]),
        decreases hashes.len() - i,
    {
        if !is_hash(hashes[i].as_str()) {
            assert(!hash_text(views(hashes@)[i as int]));
            return Err(CloudError::InvalidResponse);
        }
        i = i + 1;
    }
    Ok(())
}

/// Accepts a downloaded body that is no larger than a sealed chunk can be.
pub fn accept_download(body: Vec<u8>) -> (result: Result<Vec<u8>, CloudError>)
    ensures
        body@.len() <= 2 * DEFAULT_CHUNK_SIZE ==> result == Ok::<Vec<u8>, CloudError>(body),
        body@.len() > 2 * DEFAULT_CHUNK_SIZE ==> result == Err::<Vec<u8>, CloudError>(
            CloudError::InvalidResponse,
        ),
{
    if body.len() > 2 * DEFAULT_CHUNK_SIZE {
        Err(CloudError::InvalidResponse)
    } else {
        Ok(body)
    }
}

} // verus!
